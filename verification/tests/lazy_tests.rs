use lazy_storage::entry::{Entry, EntryState};
use lazy_storage::key::{Key, KeyPtr};
use lazy_storage::lazy::Lazy;
use lazy_storage::lazy_cell::LazyCell;
use lazy_storage::store::Store;

#[test]
fn entry_put_and_take_mark_mutated() {
    let mut entry = Entry::new(Some(1u8), EntryState::Preserved);
    assert!(!entry.is_mutated());
    assert_eq!(entry.value(), &Some(1));
    assert_eq!(entry.put(Some(2)), Some(1));
    assert!(entry.is_mutated());
    entry.set_state(EntryState::Preserved);
    assert!(!entry.is_mutated());
    assert_eq!(entry.take(), Some(2));
    assert!(entry.is_mutated());
    assert_eq!(entry.take(), None);
    assert_eq!(entry.into_value(), None);
}

#[test]
fn entry_value_mut_marks_mutated() {
    let mut entry = Entry::new(Some(1u8), EntryState::Preserved);
    *entry.value_mut() = Some(3);
    assert!(entry.is_mutated());
    assert_eq!(entry.into_value(), Some(3));
}

#[test]
fn eager_lazy_serves_its_value_without_a_key() {
    let store = Store::new();
    let mut lazy = Lazy::new(5u32);
    assert_eq!(*Lazy::get(&mut lazy, &store), 5);
    assert_eq!(lazy.cached(), Some(&5));
    *Lazy::get_mut(&mut lazy, &store) = 6;
    assert_eq!(*Lazy::get(&mut lazy, &store), 6);
    Lazy::set(&mut lazy, 7);
    assert_eq!(lazy.cached(), Some(&7));
}

#[test]
fn lazy_loads_on_first_use_only() {
    let mut store = Store::new();
    let key = Key::new(0, 9);
    store.push(key, vec![1, 0, 0, 0]);
    let mut lazy: Lazy<u32> = Lazy::lazy(key);
    assert_eq!(lazy.cached(), None);
    assert_eq!(*Lazy::get(&mut lazy, &store), 1);
    store.push(key, vec![2, 0, 0, 0]);
    assert_eq!(*Lazy::get(&mut lazy, &store), 1);
}

#[test]
fn preserved_lazy_writes_nothing_back() {
    let mut store = Store::new();
    let key = Key::new(0, 9);
    store.push(key, vec![1, 0, 0, 0]);
    let mut lazy: Lazy<u32> = Lazy::lazy(key);
    assert_eq!(*Lazy::get(&mut lazy, &store), 1);
    let mut ptr = KeyPtr::new(key);
    lazy.push_forward(&mut store, &mut ptr);
    assert_eq!(store.op_count(), 1);
    assert_eq!(ptr.key, Key::new(0, 10));
}

#[test]
fn mutated_lazy_is_written_back_and_read_again() {
    let mut store = Store::new();
    let key = Key::new(0, 9);
    let lazy = Lazy::new(0xAABBu32);
    let mut ptr = KeyPtr::new(key);
    lazy.push_forward(&mut store, &mut ptr);
    assert_eq!(store.op_count(), 1);
    assert_eq!(store.op(0).key, key);
    assert_eq!(store.op(0).data, Some(vec![0xBB, 0xAA, 0, 0]));
    let mut ptr = KeyPtr::new(key);
    let mut fresh: Lazy<u32> = Lazy::pull_forward(&mut ptr);
    assert_eq!(ptr.key, Key::new(0, 10));
    assert_eq!(*Lazy::get(&mut fresh, &store), 0xAABB);
}

#[test]
fn lazy_clear_forward_clears_the_cell() {
    let mut store = Store::new();
    let key = Key::new(0, 9);
    store.push(key, vec![1, 0, 0, 0]);
    let lazy: Lazy<u32> = Lazy::lazy(key);
    let mut ptr = KeyPtr::new(key);
    lazy.clear_forward(&mut store, &mut ptr);
    assert_eq!(store.pull(&key), None);
    assert_eq!(ptr.key, Key::new(0, 10));
}

#[test]
fn cell_made_in_memory_is_mutated() {
    let cell = LazyCell::new(Some(4u8));
    assert_eq!(cell.key(), None);
    let entry = cell.entry().unwrap();
    assert_eq!(entry.value, Some(4));
    assert_eq!(entry.state, EntryState::Mutated);
}

#[test]
fn cell_loads_an_absent_value_as_preserved() {
    let store = Store::new();
    let key = Key::new(0, 9);
    let mut cell: LazyCell<u8> = LazyCell::lazy(key);
    assert_eq!(cell.key(), Some(&key));
    assert!(cell.entry().is_none());
    assert_eq!(cell.get(&store), None);
    let entry = cell.entry().unwrap();
    assert_eq!(entry.value, None);
    assert_eq!(entry.state, EntryState::Preserved);
}

#[test]
fn cell_get_mut_marks_mutated_and_writes_back() {
    let mut store = Store::new();
    let key = Key::new(0, 9);
    store.push(key, vec![4]);
    let mut cell: LazyCell<u8> = LazyCell::lazy(key);
    match cell.get_mut(&store) {
        Some(value) => *value = 5,
        None => panic!("the cell holds a value"),
    }
    assert!(cell.entry().unwrap().is_mutated());
    let mut ptr = KeyPtr::new(key);
    cell.push_forward(&mut store, &mut ptr);
    assert_eq!(store.pull(&key), Some(vec![5]));
}

#[test]
fn cell_with_no_value_clears_on_write_back() {
    let mut store = Store::new();
    let key = Key::new(0, 9);
    store.push(key, vec![4]);
    let mut cell: LazyCell<u8> = LazyCell::lazy(key);
    cell.set(None);
    let mut ptr = KeyPtr::new(key);
    cell.push_forward(&mut store, &mut ptr);
    assert_eq!(store.op_count(), 2);
    assert_eq!(store.op(1).data, None);
    assert_eq!(store.pull(&key), None);
    cell.load(&store);
    match cell.entry_mut() {
        Some(entry) => assert_eq!(entry.take(), None),
        None => panic!("the cell is cached"),
    }
    let mut ptr = KeyPtr::new(key);
    let other: LazyCell<u8> = LazyCell::pull_forward(&mut ptr);
    other.clear_forward(&mut store, &mut ptr);
    assert_eq!(ptr.key, Key::new(0, 11));
}

#[test]
fn lazy_load_tells_an_absent_value() {
    let mut store = Store::new();
    let key = Key::new(0, 9);
    let mut lazy: Lazy<u32> = Lazy::lazy(key);
    assert_eq!(lazy.load(&store), None);
    store.push(key, vec![1, 0, 0, 0]);
    assert_eq!(lazy.load(&store), None);
    let mut other: Lazy<u32> = Lazy::lazy(key);
    assert_eq!(other.load(&store), Some(&1));
}

#[test]
fn lazy_from_and_default_hold_their_value_in_memory() {
    let store = Store::new();
    let mut lazy: Lazy<u32> = Lazy::from(12);
    assert_eq!(*Lazy::get(&mut lazy, &store), 12);
    let mut lazy: Lazy<u8> = Lazy::default();
    assert_eq!(*Lazy::get(&mut lazy, &store), 0);
    let mut target = Store::new();
    lazy.push_forward(&mut target, &mut KeyPtr::new(Key::new(0, 0)));
    assert_eq!(target.op_count(), 1);
    assert_eq!(target.op(0).data, Some(vec![0u8]));
}
