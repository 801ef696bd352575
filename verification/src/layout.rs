//! How values are laid out in the key space, pulled from the store and
//! pushed to it.

use vstd::prelude::*;
use crate::key::{
    Key, KeyPtr, key_space, lemma_key_in_space, lemma_key_space_large, lemma_offset_key_add,
    lemma_offset_key_injective, lemma_offset_key_zero, offset_key,
};
use crate::store::{Op, Store, cell_of, lemma_cell_of_untouched};

verus! {

/// A value that can live in the store.
///
/// A value reserves `footprint()` consecutive cells, at least one, and keeps
/// its bytes in the first of them.
pub trait Storable: Sized {
    /// The number of cells that one value reserves.
    spec fn spec_footprint() -> nat;

    /// The bytes that stand for the value in its cell.
    spec fn encoding(&self) -> Seq<u8>;

    /// The value that the bytes of a cell stand for, if they stand for one.
    spec fn decoding(bytes: Seq<u8>) -> Option<Self>;

    /// Decoding what was encoded gives the value back.
    proof fn lemma_round_trip(&self)
        ensures
            Self::decoding(self.encoding()) == Some(*self),
    ;

    /// A value reserves at least one cell, and their number fits 64 bits.
    proof fn lemma_footprint()
        ensures
            1 <= Self::spec_footprint() <= u64::MAX,
    ;

    /// The number of cells that one value reserves.
    fn footprint() -> (cells: u64)
        ensures
            cells == Self::spec_footprint(),
            cells >= 1,
    ;

    /// The bytes that stand for the value in its cell.
    fn encode(&self) -> (bytes: Vec<u8>)
        ensures
            bytes@ == self.encoding(),
    ;

    /// The value that the bytes of a cell stand for, if they stand for one.
    fn decode(bytes: &Vec<u8>) -> (value: Option<Self>)
        ensures
            value == Self::decoding(bytes@),
    ;
}

impl Storable for u8 {
    open spec fn spec_footprint() -> nat {
        1
    }

    open spec fn encoding(&self) -> Seq<u8> {
        seq![*self]
    }

    open spec fn decoding(bytes: Seq<u8>) -> Option<u8> {
        if bytes.len() == 1 {
            Some(bytes[0])
        } else {
            None
        }
    }

    proof fn lemma_round_trip(&self) {
    }

    proof fn lemma_footprint() {
    }

    fn footprint() -> (cells: u64) {
        1
    }

    fn encode(&self) -> (bytes: Vec<u8>) {
        let bytes = vec![*self];
        proof {
            assert(bytes@ =~= self.encoding());
        }
        bytes
    }

    fn decode(bytes: &Vec<u8>) -> (value: Option<u8>) {
        if bytes.len() == 1 {
            Some(bytes[0])
        } else {
            None
        }
    }
}

impl Storable for bool {
    open spec fn spec_footprint() -> nat {
        1
    }

    open spec fn encoding(&self) -> Seq<u8> {
        seq![if *self { 1u8 } else { 0u8 }]
    }

    open spec fn decoding(bytes: Seq<u8>) -> Option<bool> {
        if bytes.len() == 1 && bytes[0] <= 1 {
            Some(bytes[0] == 1)
        } else {
            None
        }
    }

    proof fn lemma_round_trip(&self) {
    }

    proof fn lemma_footprint() {
    }

    fn footprint() -> (cells: u64) {
        1
    }

    fn encode(&self) -> (bytes: Vec<u8>) {
        let byte: u8 = if *self { 1 } else { 0 };
        let bytes = vec![byte];
        proof {
            assert(bytes@ =~= self.encoding());
        }
        bytes
    }

    fn decode(bytes: &Vec<u8>) -> (value: Option<bool>) {
        if bytes.len() == 1 && bytes[0] <= 1 {
            Some(bytes[0] == 1)
        } else {
            None
        }
    }
}

impl Storable for u32 {
    open spec fn spec_footprint() -> nat {
        1
    }

    /// Four bytes, the least significant first.
    open spec fn encoding(&self) -> Seq<u8> {
        seq![
            (*self % 256) as u8,
            ((*self / 256) % 256) as u8,
            ((*self / 65536) % 256) as u8,
            (*self / 16777216) as u8,
        ]
    }

    open spec fn decoding(bytes: Seq<u8>) -> Option<u32> {
        if bytes.len() == 4 {
            Some(
                (bytes[0] as int + 256 * (bytes[1] as int) + 65536 * (bytes[2] as int) + 16777216
                    * (bytes[3] as int)) as u32,
            )
        } else {
            None
        }
    }

    proof fn lemma_round_trip(&self) {
        let bytes = self.encoding();
        assert(bytes.len() == 4);
        assert(bytes[0] as int + 256 * (bytes[1] as int) + 65536 * (bytes[2] as int) + 16777216
            * (bytes[3] as int) == *self as int);
    }

    proof fn lemma_footprint() {
    }

    fn footprint() -> (cells: u64) {
        1
    }

    fn encode(&self) -> (bytes: Vec<u8>) {
        let v: u32 = *self;
        let bytes = vec![
            (v % 256) as u8,
            ((v / 256) % 256) as u8,
            ((v / 65536) % 256) as u8,
            (v / 16777216) as u8,
        ];
        proof {
            assert(bytes@ =~= self.encoding());
        }
        bytes
    }

    fn decode(bytes: &Vec<u8>) -> (value: Option<u32>) {
        if bytes.len() == 4 {
            let b0: u32 = bytes[0] as u32;
            let b1: u32 = bytes[1] as u32;
            let b2: u32 = bytes[2] as u32;
            let b3: u32 = bytes[3] as u32;
            Some(b0 + 256 * b1 + 65536 * b2 + 16777216 * b3)
        } else {
            None
        }
    }
}

/// What a pull of a `T` at `key` yields after the operations `ops`: the
/// value that the cell's bytes stand for, or `None` where the cell is absent
/// or its bytes stand for no `T`.
pub open spec fn stored<T: Storable>(ops: Seq<Op>, key: nat) -> Option<T> {
    match cell_of(ops, key) {
        Some(bytes) => T::decoding(bytes),
        None => None,
    }
}

/// The operations that clear `cells` consecutive cells from `key` on.
pub open spec fn clear_ops(key: nat, cells: nat) -> Seq<Op> {
    Seq::new(cells, |i: int| Op { key: offset_key(key, i as nat), data: None })
}

/// The operations that put `value` at `key`: one write of its bytes, or,
/// for an absent value, a clear of every cell that a `T` reserves.
pub open spec fn push_ops<T: Storable>(key: nat, value: Option<T>) -> Seq<Op> {
    match value {
        Some(v) => seq![Op { key: key, data: Some(v.encoding()) }],
        None => clear_ops(key, T::spec_footprint()),
    }
}

/// Reads the value at `key`.
pub fn pull_at<T: Storable>(store: &Store, key: &Key) -> (value: Option<T>)
    ensures
        value == stored::<T>(store@, key@),
{
    match store.pull(key) {
        Some(bytes) => T::decode(&bytes),
        None => None,
    }
}

/// Clears `cells` consecutive cells from `key` on.
pub fn clear_at(store: &mut Store, key: &Key, cells: u64)
    ensures
        final(store)@ == old(store)@ + clear_ops(key@, cells as nat),
{
    let mut i: u64 = 0;
    proof {
        assert(store@ =~= old(store)@ + clear_ops(key@, 0));
    }
    while i < cells
        invariant
            i <= cells,
            store@ == old(store)@ + clear_ops(key@, i as nat),
        decreases cells - i,
    {
        let ghost before = store@;
        store.clear(key.add(i));
        proof {
            assert(clear_ops(key@, (i + 1) as nat) =~= clear_ops(key@, i as nat).push(
                Op { key: offset_key(key@, i as nat), data: None },
            ));
            assert(store@ =~= old(store)@ + clear_ops(key@, (i + 1) as nat));
        }
        i += 1;
    }
}

/// Puts `value` at `key`: writes its bytes, or clears the cells of an
/// absent value.
pub fn push_at<T: Storable>(value: &Option<T>, store: &mut Store, key: &Key)
    ensures
        final(store)@ == old(store)@ + push_ops(key@, *value),
{
    match value {
        Some(v) => {
            store.push(*key, v.encode());
            proof {
                assert(store@ =~= old(store)@ + push_ops(key@, *value));
            }
        },
        None => {
            clear_at(store, key, T::footprint());
        },
    }
}

/// Reads the value at the cursor and moves the cursor past it.
pub fn pull_forward<T: Storable>(store: &Store, ptr: &mut KeyPtr) -> (value: Option<T>)
    ensures
        value == stored::<T>(store@, old(ptr).key@),
        final(ptr).key@ == offset_key(old(ptr).key@, T::spec_footprint()),
{
    let key = ptr.next_for(T::footprint());
    pull_at(store, &key)
}

/// Puts `value` at the cursor and moves the cursor past it.
pub fn push_forward<T: Storable>(value: &Option<T>, store: &mut Store, ptr: &mut KeyPtr)
    ensures
        final(store)@ == old(store)@ + push_ops(old(ptr).key@, *value),
        final(ptr).key@ == offset_key(old(ptr).key@, T::spec_footprint()),
{
    let key = ptr.next_for(T::footprint());
    push_at(value, store, &key);
}

/// Clears the cells of a `T` at the cursor and moves the cursor past them.
pub fn clear_forward<T: Storable>(store: &mut Store, ptr: &mut KeyPtr)
    ensures
        final(store)@ == old(store)@ + clear_ops(old(ptr).key@, T::spec_footprint()),
        final(ptr).key@ == offset_key(old(ptr).key@, T::spec_footprint()),
{
    let key = ptr.next_for(T::footprint());
    clear_at(store, &key, T::footprint());
}

/// The sum of the footprints of the fields of a composite value.
pub open spec fn footprint_sum(fields: Seq<nat>) -> nat
    decreases fields.len(),
{
    if fields.len() == 0 {
        0
    } else {
        footprint_sum(fields.drop_last()) + fields.last()
    }
}

/// Where the cursor stands after it handed out keys for fields of the given
/// footprints, one after the other, from `start` on.
pub open spec fn cursor_after(start: nat, fields: Seq<nat>) -> nat
    decreases fields.len(),
{
    if fields.len() == 0 {
        start
    } else {
        offset_key(cursor_after(start, fields.drop_last()), fields.last())
    }
}

/// The footprint of a composite value is the sum of the footprints of its
/// fields: a cursor that walked over the fields in turn stands where one
/// step of that sum would have put it.
pub proof fn lemma_footprint_additive(start: Key, fields: Seq<nat>)
    ensures
        cursor_after(start@, fields) == offset_key(start@, footprint_sum(fields)),
    decreases fields.len(),
{
    if fields.len() == 0 {
        lemma_key_in_space(start);
        lemma_offset_key_zero(start@);
    } else {
        lemma_footprint_additive(start, fields.drop_last());
        lemma_offset_key_add(start@, footprint_sum(fields.drop_last()), fields.last());
    }
}

/// The footprint of fields laid out one after the other is the sum of the
/// footprints of the two parts.
pub proof fn lemma_footprint_sum_concat(front: Seq<nat>, back: Seq<nat>)
    ensures
        footprint_sum(front + back) == footprint_sum(front) + footprint_sum(back),
    decreases back.len(),
{
    if back.len() == 0 {
        assert(front + back =~= front);
    } else {
        assert((front + back).drop_last() =~= front + back.drop_last());
        assert((front + back).last() == back.last());
        lemma_footprint_sum_concat(front, back.drop_last());
    }
}

/// The fields before a given field take no more cells than a longer run
/// of fields does.
pub proof fn lemma_footprint_sum_grows(fields: Seq<nat>, i: int, j: int)
    requires
        0 <= i <= j <= fields.len(),
    ensures
        footprint_sum(fields.take(i)) <= footprint_sum(fields.take(j)),
        i < j ==> footprint_sum(fields.take(i)) + fields[i] <= footprint_sum(fields.take(j)),
{
    assert(fields.take(j) =~= fields.take(i) + fields.subrange(i, j));
    lemma_footprint_sum_concat(fields.take(i), fields.subrange(i, j));
    if i < j {
        let rest = fields.subrange(i, j);
        assert(rest =~= seq![fields[i]] + rest.skip(1));
        lemma_footprint_sum_concat(seq![fields[i]], rest.skip(1));
        assert(seq![fields[i]].drop_last() =~= Seq::<nat>::empty());
        assert(footprint_sum(seq![fields[i]]) == fields[i]) by {
            reveal_with_fuel(footprint_sum, 2);
        }
    }
}

/// Sibling fields never share a cell. Where the fields of a composite
/// value take fewer cells than there are keys, cell `c` of field `i` and
/// cell `d` of another field `j` have different keys.
pub proof fn lemma_sibling_fields_apart(
    start: Key,
    fields: Seq<nat>,
    i: int,
    c: nat,
    j: int,
    d: nat,
)
    requires
        footprint_sum(fields) < key_space(),
        0 <= i < j < fields.len(),
        c < fields[i],
        d < fields[j],
    ensures
        offset_key(cursor_after(start@, fields.take(i)), c) != offset_key(
            cursor_after(start@, fields.take(j)),
            d,
        ),
{
    let before_i = footprint_sum(fields.take(i));
    let before_j = footprint_sum(fields.take(j));
    lemma_footprint_additive(start, fields.take(i));
    lemma_footprint_additive(start, fields.take(j));
    lemma_offset_key_add(start@, before_i, c);
    lemma_offset_key_add(start@, before_j, d);
    lemma_footprint_sum_grows(fields, i, j);
    lemma_footprint_sum_grows(fields, j, fields.len() as int);
    assert(fields.take(fields.len() as int) =~= fields);
    lemma_offset_key_injective(start@, before_i + c, before_j + d);
}

/// The footprint of a composite value whose fields have the given
/// footprints, or `None` where the sum does not fit 64 bits.
pub fn composite_footprint(fields: &Vec<u64>) -> (total: Option<u64>)
    ensures
        total == if footprint_sum(fields@.map_values(|f: u64| f as nat)) <= u64::MAX {
            Some(footprint_sum(fields@.map_values(|f: u64| f as nat)) as u64)
        } else {
            None
        },
{
    let ghost all = fields@.map_values(|f: u64| f as nat);
    let mut total: u64 = 0;
    let mut i: usize = 0;
    while i < fields.len()
        invariant
            i <= fields.len(),
            all == fields@.map_values(|f: u64| f as nat),
            total == footprint_sum(all.take(i as int)),
        decreases fields.len() - i,
    {
        proof {
            assert(all.take(i + 1).drop_last() =~= all.take(i as int));
            assert(all.take(i + 1).last() == fields@[i as int] as nat);
        }
        if fields[i] > u64::MAX - total {
            proof {
                assert(all =~= all.take(i + 1) + all.skip(i + 1));
                lemma_footprint_sum_concat(all.take(i + 1), all.skip(i + 1));
            }
            return None;
        }
        total = total + fields[i];
        i += 1;
    }
    proof {
        assert(all.take(i as int) =~= all);
    }
    Some(total)
}

/// A value that was pushed is the value that a pull at the same key gives:
/// after the operations that put `value` at `key`, the store holds `value`
/// there, and holds nothing there where `value` is `None`.
pub proof fn lemma_push_pull_round_trip<T: Storable>(ops: Seq<Op>, key: nat, value: Option<T>)
    requires
        key < key_space(),
    ensures
        stored::<T>(ops + push_ops(key, value), key) == value,
{
    let after = ops + push_ops(key, value);
    match value {
        Some(v) => {
            v.lemma_round_trip();
            assert(after.last() == (Op { key: key, data: Some(v.encoding()) }));
        },
        None => {
            T::lemma_footprint();
            lemma_key_space_large();
            lemma_offset_key_zero(key);
            let cells = T::spec_footprint();
            let first = seq![Op { key: key, data: None }];
            let rest = clear_ops(key, cells).skip(1);
            assert(after =~= (ops + first) + rest);
            assert forall|i: int| 0 <= i < rest.len() implies (#[trigger] rest[i]).key != key by {
                lemma_offset_key_injective(key, (i + 1) as nat, 0);
            }
            lemma_cell_of_untouched(ops + first, rest, key);
            assert((ops + first).last() == first[0]);
        },
    }
}

} // verus!
