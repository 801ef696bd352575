use lazy_storage::entry::{Entry, EntryState};
use lazy_storage::key::{Key, KeyPtr};
use lazy_storage::layout::Storable;
use lazy_storage::lazy_array::{EntryArray, LazyArray};
use lazy_storage::store::Store;

fn base() -> Key {
    Key::new(7, 100)
}

fn write_back(array: &LazyArray<u8>, store: &mut Store) -> Key {
    let mut ptr = KeyPtr::new(base());
    array.push_forward(store, &mut ptr);
    ptr.key
}

#[test]
fn put_get_twice_writes_back_once() {
    let store = Store::new();
    let mut array: LazyArray<u8> = LazyArray::lazy(base());
    assert_eq!(array.put_get(&store, 5, Some(42)), None);
    assert_eq!(array.put_get(&store, 5, Some(7)), Some(42));
    let mut target = Store::new();
    let end = write_back(&array, &mut target);
    assert_eq!(target.op_count(), 1);
    assert_eq!(target.op(0).key, Key::new(7, 105));
    assert_eq!(target.op(0).data, Some(vec![7u8]));
    assert_eq!(end, Key::new(7, 132));
}

#[test]
fn entry_array_starts_empty() {
    let mut cache: EntryArray<u32> = EntryArray::new();
    for at in 0..32 {
        assert!(cache.get_entry(at).is_none());
    }
    assert!(cache.get_entry_mut(32).is_none());
    assert_eq!(cache.put(3, Some(9)), None);
    assert_eq!(cache.put(3, None), Some(9));
    let entry = cache.get_entry(3).unwrap();
    assert_eq!(entry.state, EntryState::Mutated);
    assert_eq!(entry.value, None);
}

#[test]
fn entry_array_default_is_empty() {
    let cache: EntryArray<u8> = EntryArray::default();
    assert!(cache.get_entry(0).is_none());
    assert!(cache.get_entry(31).is_none());
}

#[test]
fn entry_array_insert_entry_hands_out_the_entry() {
    let mut cache: EntryArray<u8> = EntryArray::new();
    let entry = cache.insert_entry(4, Entry::new(Some(1), EntryState::Preserved));
    assert_eq!(entry.state, EntryState::Preserved);
    entry.put(Some(2));
    let entry = cache.get_entry(4).unwrap();
    assert_eq!(entry.value, Some(2));
    assert_eq!(entry.state, EntryState::Mutated);
}

#[test]
fn capacity_is_thirty_two() {
    assert_eq!(LazyArray::<u8>::capacity(), 32);
    assert_eq!(LazyArray::<u8>::footprint(), 32);
    assert_eq!(LazyArray::<u32>::footprint(), 32 * (u32::footprint() as u128));
}

#[test]
fn key_at_scales_with_the_index() {
    let array: LazyArray<u8> = LazyArray::lazy(base());
    assert_eq!(array.key(), Some(&base()));
    assert_eq!(array.key_at(0), Some(base()));
    assert_eq!(array.key_at(5), Some(Key::new(7, 105)));
    assert_eq!(array.key_at(31), Some(Key::new(7, 131)));
    assert_eq!(array.key_at(32), None);
    assert_eq!(array.key_at(33), None);
}

#[test]
fn key_at_wraps_at_the_end_of_the_key_space() {
    let array: LazyArray<u8> = LazyArray::lazy(Key::new(u128::MAX, u128::MAX - 1));
    assert_eq!(array.key_at(1), Some(Key::new(u128::MAX, u128::MAX)));
    assert_eq!(array.key_at(2), Some(Key::new(0, 0)));
    assert_eq!(array.key_at(4), Some(Key::new(0, 2)));
}

#[test]
fn array_made_in_memory_has_no_keys() {
    let array: LazyArray<u8> = LazyArray::new();
    assert_eq!(array.key(), None);
    assert_eq!(array.key_at(0), None);
    assert_eq!(array.key_at(33), None);
}

#[test]
fn array_made_in_memory_serves_what_was_put() {
    let store = Store::new();
    let mut array: LazyArray<u8> = LazyArray::new();
    array.put(2, Some(11));
    assert_eq!(array.get(&store, 2), Some(&11));
    assert_eq!(array.take(&store, 2), Some(11));
    assert_eq!(array.get(&store, 2), None);
}

#[test]
fn get_loads_from_the_store() {
    let mut store = Store::new();
    store.push(Key::new(7, 103), vec![9]);
    let mut array: LazyArray<u8> = LazyArray::lazy(base());
    assert_eq!(array.get(&store, 3), Some(&9));
    assert_eq!(array.get(&store, 4), None);
}

#[test]
fn get_twice_gives_the_same_and_writes_nothing() {
    let mut store = Store::new();
    store.push(Key::new(7, 103), vec![9]);
    let mut array: LazyArray<u8> = LazyArray::lazy(base());
    let first = array.get(&store, 3).copied();
    let second = array.get(&store, 3).copied();
    assert_eq!(first, Some(9));
    assert_eq!(first, second);
    let mut target = Store::new();
    write_back(&array, &mut target);
    assert_eq!(target.op_count(), 0);
}

#[test]
fn cached_value_outlives_a_change_of_the_store() {
    let mut store = Store::new();
    store.push(Key::new(7, 103), vec![9]);
    let mut array: LazyArray<u8> = LazyArray::lazy(base());
    assert_eq!(array.get(&store, 3), Some(&9));
    store.push(Key::new(7, 103), vec![10]);
    assert_eq!(array.get(&store, 3), Some(&9));
}

#[test]
fn untouched_array_writes_nothing() {
    let array: LazyArray<u8> = LazyArray::lazy(base());
    let mut target = Store::new();
    let end = write_back(&array, &mut target);
    assert_eq!(target.op_count(), 0);
    assert_eq!(end, Key::new(7, 132));
}

#[test]
fn only_mutated_slots_are_written_in_rising_order() {
    let mut store = Store::new();
    store.push(Key::new(7, 101), vec![1]);
    let mut array: LazyArray<u8> = LazyArray::lazy(base());
    assert_eq!(array.get(&store, 1), Some(&1));
    array.put(20, Some(20));
    array.put(3, Some(3));
    let mut target = Store::new();
    write_back(&array, &mut target);
    assert_eq!(target.op_count(), 2);
    assert_eq!(target.op(0).key, Key::new(7, 103));
    assert_eq!(target.op(0).data, Some(vec![3u8]));
    assert_eq!(target.op(1).key, Key::new(7, 120));
    assert_eq!(target.op(1).data, Some(vec![20u8]));
}

#[test]
fn written_back_values_are_read_by_a_fresh_array() {
    let mut store = Store::new();
    store.push(Key::new(7, 109), vec![99]);
    let mut array: LazyArray<u8> = LazyArray::lazy(base());
    array.put(0, Some(10));
    array.put(9, None);
    array.put(31, Some(41));
    write_back(&array, &mut store);
    let mut fresh: LazyArray<u8> = LazyArray::lazy(base());
    assert_eq!(fresh.get(&store, 0), Some(&10));
    assert_eq!(fresh.get(&store, 9), None);
    assert_eq!(fresh.get(&store, 31), Some(&41));
    assert_eq!(fresh.get(&store, 1), None);
}

#[test]
fn pulled_array_is_bound_to_the_cursor() {
    let mut ptr = KeyPtr::new(base());
    let array: LazyArray<u32> = LazyArray::pull_forward(&mut ptr);
    assert_eq!(array.key(), Some(&base()));
    assert_eq!(ptr.key, Key::new(7, 132));
}

#[test]
fn take_empties_the_slot_and_clears_its_cell() {
    let mut store = Store::new();
    store.push(Key::new(7, 102), vec![5]);
    let mut array: LazyArray<u8> = LazyArray::lazy(base());
    assert_eq!(array.take(&store, 2), Some(5));
    assert_eq!(array.get(&store, 2), None);
    write_back(&array, &mut store);
    assert_eq!(store.op_count(), 2);
    assert_eq!(store.op(1).key, Key::new(7, 102));
    assert_eq!(store.op(1).data, None);
    assert_eq!(store.pull(&Key::new(7, 102)), None);
}

#[test]
fn put_does_not_read_the_store() {
    let mut array: LazyArray<u8> = LazyArray::new();
    array.put(0, Some(1));
    array.put(0, Some(2));
    let store = Store::new();
    assert_eq!(array.get(&store, 0), Some(&2));
}

#[test]
fn get_mut_marks_the_slot_mutated() {
    let mut store = Store::new();
    store.push(Key::new(7, 100), vec![5]);
    let mut array: LazyArray<u8> = LazyArray::lazy(base());
    match array.get_mut(&store, 0) {
        Some(value) => *value = 6,
        None => panic!("the slot holds a value"),
    }
    assert!(array.get_mut(&store, 1).is_none());
    let mut target = Store::new();
    write_back(&array, &mut target);
    assert_eq!(target.op_count(), 2);
    assert_eq!(target.op(0).key, Key::new(7, 100));
    assert_eq!(target.op(0).data, Some(vec![6u8]));
    assert_eq!(target.op(1).key, Key::new(7, 101));
    assert_eq!(target.op(1).data, None);
}

#[test]
fn load_through_cache_mut_hands_out_the_loaded_entry() {
    let mut store = Store::new();
    store.push(Key::new(7, 100), vec![5]);
    let mut array: LazyArray<u8> = LazyArray::lazy(base());
    let entry = array.load_through_cache_mut(&store, 0);
    assert_eq!(entry.value, Some(5));
    assert_eq!(entry.state, EntryState::Preserved);
}

#[test]
fn swap_exchanges_and_marks_both() {
    let mut store = Store::new();
    store.push(Key::new(7, 101), vec![1]);
    let mut array: LazyArray<u8> = LazyArray::lazy(base());
    array.swap(&store, 1, 2);
    assert_eq!(array.get(&store, 1), None);
    assert_eq!(array.get(&store, 2), Some(&1));
    let mut target = Store::new();
    write_back(&array, &mut target);
    assert_eq!(target.op_count(), 2);
    assert_eq!(target.op(0).key, Key::new(7, 101));
    assert_eq!(target.op(0).data, None);
    assert_eq!(target.op(1).key, Key::new(7, 102));
    assert_eq!(target.op(1).data, Some(vec![1u8]));
}

#[test]
fn swap_twice_restores_both_values() {
    let mut store = Store::new();
    store.push(Key::new(7, 101), vec![1]);
    store.push(Key::new(7, 102), vec![2]);
    let mut array: LazyArray<u8> = LazyArray::lazy(base());
    array.swap(&store, 1, 2);
    assert_eq!(array.get(&store, 1), Some(&2));
    assert_eq!(array.get(&store, 2), Some(&1));
    array.swap(&store, 1, 2);
    assert_eq!(array.get(&store, 1), Some(&1));
    assert_eq!(array.get(&store, 2), Some(&2));
}

#[test]
fn swap_of_one_index_does_nothing() {
    let mut array: LazyArray<u8> = LazyArray::new();
    let store = Store::new();
    array.swap(&store, 4, 4);
    let mut target = Store::new();
    write_back(&array, &mut target);
    assert_eq!(target.op_count(), 0);
}

#[test]
fn swap_of_two_empty_slots_marks_nothing() {
    let store = Store::new();
    let mut array: LazyArray<u8> = LazyArray::lazy(base());
    array.swap(&store, 4, 5);
    let mut target = Store::new();
    write_back(&array, &mut target);
    assert_eq!(target.op_count(), 0);
}
