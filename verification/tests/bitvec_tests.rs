use lazy_storage::bits256::Bits256;
use lazy_storage::bitvec::{BitAccess, Bitvec, FOOTPRINT};
use lazy_storage::key::{Key, KeyPtr};
use lazy_storage::layout::Storable;
use lazy_storage::store::Store;

#[test]
fn new_bitvec_is_empty() {
    let bits = Bitvec::new();
    assert_eq!(bits.len(), 0);
    assert!(bits.is_empty());
    assert_eq!(bits.capacity(), 0);
    assert_eq!(bits.first(), None);
    assert_eq!(bits.last(), None);
}

#[test]
fn get_past_the_end_is_none() {
    let mut bits = Bitvec::new();
    assert_eq!(bits.get(1000), None);
    assert_eq!(bits.get(0), None);
    assert!(bits.get_mut(1000).is_none());
    bits.push(true);
    assert_eq!(bits.get(0), Some(true));
    assert_eq!(bits.get(1), None);
    assert_eq!(bits.split_index(1), None);
}

#[test]
fn growth_is_by_packs_of_256() {
    let mut bits = Bitvec::new();
    for i in 0..257u32 {
        bits.push(i % 3 == 0);
    }
    assert_eq!(bits.len(), 257);
    assert_eq!(bits.capacity(), 512);
    for i in 0..257u32 {
        assert_eq!(bits.get(i), Some(i % 3 == 0));
    }
    assert_eq!(bits.get(257), None);
}

#[test]
fn capacity_steps_at_the_pack_boundary() {
    let mut bits = Bitvec::new();
    bits.push(false);
    assert_eq!(bits.capacity(), 256);
    for _ in 1..256 {
        bits.push(true);
    }
    assert_eq!(bits.len(), 256);
    assert_eq!(bits.capacity(), 256);
    bits.push(true);
    assert_eq!(bits.capacity(), 512);
}

#[test]
fn pop_undoes_push() {
    let mut bits = Bitvec::new();
    bits.push(false);
    bits.push(true);
    let len = bits.len();
    bits.push(true);
    assert_eq!(bits.pop(), Some(true));
    assert_eq!(bits.len(), len);
    bits.push(false);
    assert_eq!(bits.pop(), Some(false));
    assert_eq!(bits.len(), len);
    assert_eq!(bits.get(0), Some(false));
    assert_eq!(bits.get(1), Some(true));
}

#[test]
fn pop_on_empty_is_none() {
    let mut bits = Bitvec::new();
    assert_eq!(bits.pop(), None);
    assert_eq!(bits.len(), 0);
}

#[test]
fn pop_keeps_the_packs_and_clears_the_bit() {
    let mut bits = Bitvec::new();
    for _ in 0..257 {
        bits.push(true);
    }
    assert_eq!(bits.pop(), Some(true));
    assert_eq!(bits.pop(), Some(true));
    assert_eq!(bits.len(), 255);
    assert_eq!(bits.capacity(), 512);
    bits.push(false);
    bits.push(false);
    assert_eq!(bits.get(255), Some(false));
    assert_eq!(bits.get(256), Some(false));
    assert_eq!(bits.capacity(), 512);
}

#[test]
fn first_and_last() {
    let mut bits = Bitvec::new();
    bits.push(true);
    bits.push(false);
    bits.push(false);
    assert_eq!(bits.first(), Some(true));
    assert_eq!(bits.last(), Some(false));
}

#[test]
fn split_index_divides_by_256() {
    let mut bits = Bitvec::new();
    for _ in 0..600 {
        bits.push(false);
    }
    assert_eq!(bits.split_index(0), Some((0, 0)));
    assert_eq!(bits.split_index(255), Some((0, 255)));
    assert_eq!(bits.split_index(256), Some((1, 0)));
    assert_eq!(bits.split_index(599), Some((2, 87)));
    assert_eq!(bits.split_index(600), None);
}

#[test]
fn access_changes_one_bit() {
    let mut bits = Bitvec::new();
    for _ in 0..300 {
        bits.push(false);
    }
    {
        let mut access = bits.get_mut(299).unwrap();
        assert!(!access.get());
        access.set();
        assert!(access.get());
    }
    assert_eq!(bits.get(299), Some(true));
    assert_eq!(bits.get(298), Some(false));
    bits.get_mut(299).unwrap().flip();
    assert_eq!(bits.get(299), Some(false));
    bits.first_mut().unwrap().set_to(true);
    bits.last_mut().unwrap().set();
    assert_eq!(bits.first(), Some(true));
    assert_eq!(bits.last(), Some(true));
    bits.last_mut().unwrap().reset();
    assert_eq!(bits.last(), Some(false));
    assert_eq!(bits.len(), 300);
}

#[test]
fn access_to_an_empty_vector_is_none() {
    let mut bits = Bitvec::new();
    assert!(bits.first_mut().is_none());
    assert!(bits.last_mut().is_none());
}

#[test]
fn set_within_and_past_the_length() {
    let mut bits = Bitvec::new();
    bits.push(false);
    assert!(bits.set(0, true));
    assert_eq!(bits.get(0), Some(true));
    assert!(!bits.set(1, true));
    assert_eq!(bits.len(), 1);
    bits.push(false);
    assert_eq!(bits.get(1), Some(false));
}

#[test]
fn bit_access_on_a_pack() {
    let mut pack = Bits256::new();
    {
        let mut access = BitAccess::new(&mut pack, 200);
        access.set();
    }
    assert!(pack.get(200));
    assert!(!pack.get(199));
}

#[test]
fn pack_sets_and_resets_single_bits() {
    let mut pack = Bits256::default();
    for at in 0..=255u8 {
        assert!(!pack.get(at));
    }
    pack.set(0);
    pack.set(9);
    pack.set(255);
    assert!(pack.get(0) && pack.get(9) && pack.get(255));
    assert!(!pack.get(1) && !pack.get(8) && !pack.get(254));
    pack.reset(9);
    assert!(!pack.get(9));
    pack.flip(9);
    assert!(pack.get(9));
    pack.set_to(9, false);
    assert!(!pack.get(9));
}

#[test]
fn pack_is_stored_in_32_bytes() {
    let mut pack = Bits256::new();
    pack.set(0);
    pack.set(9);
    pack.set(255);
    let bytes = pack.encode();
    let mut expected = vec![0u8; 32];
    expected[0] = 1;
    expected[1] = 2;
    expected[31] = 128;
    assert_eq!(bytes, expected);
    assert_eq!(Bits256::decode(&bytes), Some(pack));
    assert_eq!(Bits256::decode(&vec![0u8; 31]), None);
    assert_eq!(Bits256::footprint(), 1);
}

#[test]
fn bitvec_writes_back_its_length_and_packs() {
    let mut bits = Bitvec::new();
    for _ in 0..257 {
        bits.push(true);
    }
    let mut store = Store::new();
    let mut ptr = KeyPtr::new(Key::new(0, 50));
    bits.push_forward(&mut store, &mut ptr);
    assert_eq!(ptr.key, Key::new(0, 50 + FOOTPRINT as u128));
    assert_eq!(store.op_count(), 3);
    assert_eq!(store.op(0).key, Key::new(0, 50));
    assert_eq!(store.op(0).data, Some(vec![1, 1, 0, 0]));
    assert_eq!(store.op(1).key, Key::new(0, 51));
    assert_eq!(store.op(1).data, Some(vec![255u8; 32]));
    assert_eq!(store.op(2).key, Key::new(0, 52));
    let mut second = vec![0u8; 32];
    second[0] = 1;
    assert_eq!(store.op(2).data, Some(second));
}

#[test]
fn bits_lists_every_bit() {
    let mut bits = Bitvec::new();
    assert_eq!(bits.bits(), Vec::<bool>::new());
    bits.push(true);
    bits.push(false);
    bits.push(true);
    assert_eq!(bits.bits(), vec![true, false, true]);
}

#[test]
fn footprint_has_room_for_every_pack() {
    assert_eq!(Bitvec::footprint(), 1 + (1u64 << 24));
    assert_eq!(FOOTPRINT, 1 + (1u64 << 24));
}

#[test]
fn written_back_bitvec_is_pulled_again() {
    let mut bits = Bitvec::new();
    for i in 0..300u32 {
        bits.push(i % 7 == 0);
    }
    bits.pop();
    let mut store = Store::new();
    let first = Key::new(0, 50);
    bits.push_forward(&mut store, &mut KeyPtr::new(first));
    let mut ptr = KeyPtr::new(first);
    let pulled = Bitvec::pull_forward(&store, &mut ptr).unwrap();
    assert_eq!(ptr.key, Key::new(0, 50 + FOOTPRINT as u128));
    assert_eq!(pulled.len(), 299);
    assert_eq!(pulled.capacity(), 512);
    assert_eq!(pulled.bits(), bits.bits());
    let mut target = Store::new();
    pulled.push_forward(&mut target, &mut KeyPtr::new(first));
    assert_eq!(target.op_count(), 0);
}

#[test]
fn pulled_bitvec_writes_back_only_what_changed() {
    let mut bits = Bitvec::new();
    for _ in 0..300 {
        bits.push(false);
    }
    let mut store = Store::new();
    let first = Key::new(0, 50);
    bits.push_forward(&mut store, &mut KeyPtr::new(first));
    let mut pulled = Bitvec::pull_forward(&store, &mut KeyPtr::new(first)).unwrap();
    pulled.get_mut(299).unwrap().set();
    let mut target = Store::new();
    pulled.push_forward(&mut target, &mut KeyPtr::new(first));
    assert_eq!(target.op_count(), 1);
    assert_eq!(target.op(0).key, Key::new(0, 52));
    pulled.push(true);
    let mut target = Store::new();
    pulled.push_forward(&mut target, &mut KeyPtr::new(first));
    assert_eq!(target.op_count(), 2);
    assert_eq!(target.op(0).key, first);
    assert_eq!(target.op(0).data, Some(vec![45, 1, 0, 0]));
}

#[test]
fn pull_of_an_empty_bitvec_allocates_nothing() {
    let mut store = Store::new();
    let first = Key::new(0, 50);
    Bitvec::new().push_forward(&mut store, &mut KeyPtr::new(first));
    assert_eq!(store.op_count(), 1);
    let pulled = Bitvec::pull_forward(&store, &mut KeyPtr::new(first)).unwrap();
    assert_eq!(pulled.len(), 0);
    assert_eq!(pulled.capacity(), 0);
}

#[test]
fn pull_finds_no_bitvec_where_the_store_holds_none() {
    let first = Key::new(0, 50);
    let mut store = Store::new();
    assert!(Bitvec::pull_forward(&store, &mut KeyPtr::new(first)).is_none());
    store.push(first, vec![1, 0, 0, 0]);
    assert!(Bitvec::pull_forward(&store, &mut KeyPtr::new(first)).is_none());
    let mut pack = vec![0u8; 32];
    pack[0] = 3;
    store.push(Key::new(0, 51), pack);
    assert!(Bitvec::pull_forward(&store, &mut KeyPtr::new(first)).is_none());
    let mut pack = vec![0u8; 32];
    pack[0] = 1;
    store.push(Key::new(0, 51), pack);
    let pulled = Bitvec::pull_forward(&store, &mut KeyPtr::new(first)).unwrap();
    assert_eq!(pulled.bits(), vec![true]);
    store.push(Key::new(0, 51), vec![1]);
    assert!(Bitvec::pull_forward(&store, &mut KeyPtr::new(first)).is_none());
}
