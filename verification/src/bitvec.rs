//! A growable vector of bits, stored in packs of 256.

use vstd::prelude::*;
use crate::bits256::{Bits256, Index256};
use crate::entry::{Entry, EntryState};
use crate::key::{
    Key, KeyPtr, key_space, lemma_key_in_space, lemma_key_space_large, lemma_offset_key_in_space,
    lemma_offset_key_injective, lemma_offset_key_zero, offset_key,
};
use crate::layout::{lemma_push_pull_round_trip, stored};
use crate::lazy::Lazy;
use crate::lazy_cell::{LazyCell, cell_ops};
use crate::store::{Op, Store, lemma_cell_of_untouched};

verus! {

/// The index of a bit in a bit vector, or of a pack among its packs.
pub type Index = u32;

/// The number of cells that a bit vector reserves: one for its length and
/// one for each of the 2^24 packs that it can grow to.
pub const FOOTPRINT: u64 = 0x100_0001;

/// What writing back the first `upto` packs issues, pack by pack in rising
/// order, where `first` is the key of the vector's length: pack `i` lies
/// `1 + i` cells after it.
pub open spec fn packs_ops(first: nat, packs: Seq<Option<Entry<Bits256>>>, upto: nat) -> Seq<Op>
    decreases upto,
{
    if upto == 0 {
        Seq::empty()
    } else {
        packs_ops(first, packs, (upto - 1) as nat) + cell_ops::<Bits256>(
            offset_key(first, upto),
            packs[upto - 1],
        )
    }
}

/// The number of packs that `len` bits take.
pub open spec fn packs_for(len: nat) -> nat {
    (len + 255) / 256
}

/// The pack that the store holds for pack `index` of the bit vector whose
/// length lies at `first`, if it holds one.
pub open spec fn stored_pack(ops: Seq<Op>, first: nat, index: int) -> Option<Bits256> {
    stored::<Bits256>(ops, offset_key(first, (index + 1) as nat))
}

/// The store holds a bit vector of `len` bits at `first`: each pack that
/// `len` bits take is there, and the bits of the last pack past `len` are
/// cleared.
pub open spec fn stored_packs_fit(ops: Seq<Op>, first: nat, len: nat) -> bool {
    &&& forall|p: int| 0 <= p < packs_for(len) ==> (#[trigger] stored_pack(ops, first, p)) is Some
    &&& forall|i: int|
        len <= i < 256 * packs_for(len) ==> !(#[trigger] stored_pack(
            ops,
            first,
            i / 256,
        )).unwrap()@[i % 256]
}

/// The bits of the bit vector that the store holds at `first` after the
/// operations `ops`, or `None` where it holds none: where the length is
/// absent, a pack is absent, or a bit past the length is set.
pub open spec fn stored_bits(ops: Seq<Op>, first: nat) -> Option<Seq<bool>> {
    match stored::<u32>(ops, first) {
        Some(len) => if stored_packs_fit(ops, first, len as nat) {
            Some(
                Seq::new(
                    len as nat,
                    |i: int| stored_pack(ops, first, i / 256).unwrap()@[i % 256],
                ),
            )
        } else {
            None
        },
        None => None,
    }
}

/// The two runs of bits agree everywhere but, possibly, at `pos`.
pub open spec fn same_but(before: Seq<bool>, after: Seq<bool>, pos: int) -> bool {
    &&& before.len() == after.len()
    &&& forall|j: int| 0 <= j < before.len() && j != pos ==> after[j] == before[j]
}

/// A handle to one bit of a pack, through which the bit can be read and
/// changed.
#[derive(Debug)]
pub struct BitAccess<'a> {
    /// The pack that holds the bit.
    pub bits: &'a mut Bits256,
    /// The position of the bit in the pack.
    pub at: Index256,
}

impl<'a> BitAccess<'a> {
    /// A handle to bit `at` of `bits`.
    pub fn new(bits: &'a mut Bits256, at: Index256) -> (access: BitAccess<'a>)
        ensures
            *access.bits == *old(bits),
            access.at == at,
            *final(access.bits) == *final(bits),
    {
        BitAccess { bits, at }
    }

    /// The pack as it stands.
    pub open spec fn pack(&self) -> Bits256 {
        *self.bits
    }

    /// The bit.
    pub fn get(&self) -> (bit: bool)
        ensures
            bit == self.pack()@[self.at as int],
    {
        self.bits.get(self.at)
    }

    /// Sets the bit to `value` and leaves the other bits of the pack alone.
    pub fn set_to(&mut self, value: bool)
        ensures
            final(self).at == old(self).at,
            final(self).bits@ == old(self).bits@.update(old(self).at as int, value),
            *final(final(self).bits) == *final(old(self).bits),
    {
        self.bits.set_to(self.at, value);
    }

    /// Sets the bit.
    pub fn set(&mut self)
        ensures
            final(self).at == old(self).at,
            final(self).bits@ == old(self).bits@.update(old(self).at as int, true),
            *final(final(self).bits) == *final(old(self).bits),
    {
        self.bits.set(self.at);
    }

    /// Clears the bit.
    pub fn reset(&mut self)
        ensures
            final(self).at == old(self).at,
            final(self).bits@ == old(self).bits@.update(old(self).at as int, false),
            *final(final(self).bits) == *final(old(self).bits),
    {
        self.bits.reset(self.at);
    }

    /// Turns the bit over.
    pub fn flip(&mut self)
        ensures
            final(self).at == old(self).at,
            final(self).bits@ == old(self).bits@.update(
                old(self).at as int,
                !old(self).bits@[old(self).at as int],
            ),
            *final(final(self).bits) == *final(old(self).bits),
    {
        self.bits.flip(self.at);
    }
}

/// A growable vector of bits.
///
/// The bits live in packs of 256; bit `i` is bit `i % 256` of pack
/// `i / 256`. Packs are added as the vector grows and never given up.
/// The view is the sequence of the bits, `len()` of them.
#[derive(Debug)]
pub struct Bitvec {
    len: Lazy<u32>,
    bits: Vec<LazyCell<Bits256>>,
}

impl View for Bitvec {
    type V = Seq<bool>;

    closed spec fn view(&self) -> Seq<bool> {
        Seq::new(self.stored_len(), |i: int| self.bit(i))
    }
}

impl Bitvec {
    spec fn stored_len(&self) -> nat {
        self.len@.unwrap().value.unwrap() as nat
    }

    spec fn pack(&self, index: int) -> Bits256 {
        self.bits@[index]@.unwrap().value.unwrap()
    }

    spec fn bit(&self, i: int) -> bool {
        self.pack(i / 256)@[i % 256]
    }

    spec fn resident(&self) -> bool {
        &&& self.len@ is Some
        &&& self.len@.unwrap().value is Some
        &&& forall|i: int|
            0 <= i < self.bits@.len() ==> (#[trigger] self.bits@[i])@ is Some
                && self.bits@[i]@.unwrap().value is Some
    }

    /// The number of bits that the allocated packs have room for.
    pub closed spec fn spec_capacity(&self) -> nat {
        256 * self.bits@.len()
    }

    /// The vector is in order: its length and its packs are in memory, the
    /// packs have room for `len()` bits and for no more than 2^32, and every
    /// bit past the length is cleared.
    pub closed spec fn wf(&self) -> bool {
        &&& self.resident()
        &&& self.stored_len() <= self.spec_capacity()
        &&& self.spec_capacity() <= 0x1_0000_0000
        &&& forall|i: int| self.stored_len() <= i < self.spec_capacity() ==> !#[trigger] self.bit(i)
    }

    /// A vector in order has room for its bits, in whole packs.
    pub proof fn lemma_capacity(&self)
        requires
            self.wf(),
        ensures
            self@.len() <= self.spec_capacity(),
            self.spec_capacity() % 256 == 0,
            self@.len() <= u32::MAX,
    {
    }

    /// An empty vector with no pack allocated.
    pub fn new() -> (bitvec: Bitvec)
        ensures
            bitvec.wf(),
            bitvec.mutated(),
            bitvec@ == Seq::<bool>::empty(),
            bitvec.spec_capacity() == 0,
    {
        let bitvec = Bitvec { len: Lazy::new(0), bits: Vec::new() };
        proof {
            assert(bitvec@ =~= Seq::<bool>::empty());
        }
        bitvec
    }

    /// The number of bits.
    pub fn len(&self) -> (len: u32)
        requires
            self.wf(),
        ensures
            len == self@.len(),
    {
        *self.len.cached().unwrap()
    }

    /// Returns `true` if the vector holds no bit.
    pub fn is_empty(&self) -> (empty: bool)
        requires
            self.wf(),
        ensures
            empty == (self@.len() == 0),
    {
        self.len() == 0
    }

    /// The number of bits that the allocated packs have room for: a
    /// multiple of 256, and at least `len()`.
    pub fn capacity(&self) -> (capacity: u64)
        requires
            self.wf(),
        ensures
            capacity == self.spec_capacity(),
            capacity % 256 == 0,
            capacity >= self@.len(),
    {
        let packs: u64 = self.bits.len() as u64;
        packs * 256
    }

    /// The pack that holds bit `at` and the bit's position in it, or `None`
    /// for an index at or past the length.
    pub fn split_index(&self, at: Index) -> (split: Option<(Index, Index256)>)
        requires
            self.wf(),
        ensures
            split == if at < self@.len() {
                Some(((at / 256) as u32, (at % 256) as u8))
            } else {
                None
            },
    {
        if at >= self.len() {
            return None;
        }
        Some((at / 256, (at % 256) as u8))
    }

    /// The bit at `at`, or `None` for an index at or past the length.
    pub fn get(&self, at: Index) -> (bit: Option<bool>)
        requires
            self.wf(),
        ensures
            bit == if at < self@.len() {
                Some(self@[at as int])
            } else {
                None
            },
    {
        match self.split_index(at) {
            Some((index, pos256)) => {
                let pack = self.bits[index as usize].entry().unwrap().value().as_ref().unwrap();
                Some(pack.get(pos256))
            },
            None => None,
        }
    }

    /// The bits, in order.
    pub fn bits(&self) -> (bits: Vec<bool>)
        requires
            self.wf(),
        ensures
            bits@ == self@,
    {
        let len = self.len();
        let mut bits: Vec<bool> = Vec::new();
        let mut at: u32 = 0;
        while at < len
            invariant
                self.wf(),
                len == self@.len(),
                at <= len,
                bits@ == self@.take(at as int),
            decreases len - at,
        {
            let bit = self.get(at).unwrap();
            bits.push(bit);
            proof {
                assert(self@.take(at + 1) =~= self@.take(at as int).push(self@[at as int]));
            }
            at += 1;
        }
        proof {
            assert(self@.take(len as int) =~= self@);
        }
        bits
    }

    /// The first bit, or `None` for an empty vector.
    pub fn first(&self) -> (bit: Option<bool>)
        requires
            self.wf(),
        ensures
            bit == if self@.len() > 0 {
                Some(self@.first())
            } else {
                None
            },
    {
        if self.is_empty() {
            return None;
        }
        self.get(0)
    }

    /// The last bit, or `None` for an empty vector.
    pub fn last(&self) -> (bit: Option<bool>)
        requires
            self.wf(),
        ensures
            bit == if self@.len() > 0 {
                Some(self@.last())
            } else {
                None
            },
    {
        if self.is_empty() {
            return None;
        }
        self.get(self.len() - 1)
    }

    proof fn lemma_evolved(&self, after: &Bitvec, index: int)
        requires
            self.resident(),
            after.len@ is Some,
            after.len@ == self.len@ || after.len@.unwrap().state == EntryState::Mutated,
            self.bits@.len() <= after.bits@.len(),
            forall|j: int|
                0 <= j < after.bits@.len() && j != index ==> j < self.bits@.len() && (
                #[trigger] after.bits@[j]) == self.bits@[j],
            0 <= index < after.bits@.len() ==> after.bits@[index]@ is Some
                && after.bits@[index]@.unwrap().state == EntryState::Mutated,
        ensures
            after.evolved_from(self),
    {
        assert forall|j: int| 0 <= j < after.pack_entries().len() implies (
        #[trigger] after.pack_entries()[j]) is Some && ((j < self.pack_entries().len()
            && after.pack_entries()[j] == self.pack_entries()[j])
            || after.pack_entries()[j].unwrap().state == EntryState::Mutated) by {
            if j != index {
                assert(after.bits@[j] == self.bits@[j]);
                assert(self.pack_entries()[j] == self.bits@[j]@);
            }
        }
    }

    /// Sets bit `at` of the allocated packs, within the length or past it.
    fn write_bit(&mut self, at: Index, value: bool)
        requires
            old(self).resident(),
            at < old(self).spec_capacity(),
        ensures
            final(self).resident(),
            final(self).len == old(self).len,
            final(self).bits@.len() == old(self).bits@.len(),
            final(self).bit(at as int) == value,
            forall|i: int|
                0 <= i < old(self).spec_capacity() && i != at ==> final(self).bit(i) == old(
                    self,
                ).bit(i),
            forall|j: int|
                0 <= j < old(self).bits@.len() && j != at as int / 256 ==> final(self).bits@[j]
                    == #[trigger] old(self).bits@[j],
            final(self).bits@[at as int / 256]@.unwrap().state == EntryState::Mutated,
    {
        let index: usize = (at / 256) as usize;
        let pos: u8 = (at % 256) as u8;
        let ghost before = self.pack(index as int);
        proof {
            before.lemma_shape();
        }
        self.bits[index].entry_mut().unwrap().value_mut().as_mut().unwrap().set_to(pos, value);
        proof {
            assert forall|j: int| 0 <= j < self.bits@.len() implies (#[trigger] self.bits@[j])@ is Some
                && self.bits@[j]@.unwrap().value is Some by {
                if j != index as int {
                    assert(self.bits@[j] == old(self).bits@[j]);
                }
            }
            assert(self.pack(index as int)@ == before@.update(pos as int, value));
            assert forall|i: int| 0 <= i < old(self).spec_capacity() && i != at implies self.bit(i)
                == old(self).bit(i) by {
                if i / 256 != index as int {
                    assert(self.bits@[i / 256] == old(self).bits@[i / 256]);
                }
            }
        }
    }

    /// `after` is this vector with bit `at` set to `bit` and nothing else
    /// changed, and it is in order.
    pub open spec fn with_bit(&self, after: &Bitvec, at: Index, bit: bool) -> bool {
        &&& after.wf()
        &&& after.evolved_from(self)
        &&& after.spec_capacity() == self.spec_capacity()
        &&& after@ == self@.update(at as int, bit)
    }

    spec fn with_pack(&self, after: &Bitvec, index: int, pack: Bits256) -> bool {
        &&& after.len == self.len
        &&& after.bits@.len() == self.bits@.len()
        &&& forall|j: int|
            0 <= j < self.bits@.len() && j != index ==> after.bits@[j] == #[trigger] self.bits@[j]
        &&& after.bits@[index]@ is Some
        &&& after.bits@[index]@.unwrap().value == Some(pack)
        &&& after.bits@[index]@.unwrap().state == EntryState::Mutated
    }

    proof fn lemma_with_pack(&self, after: &Bitvec, at: Index, pack: Bits256)
        requires
            self.wf(),
            at < self@.len(),
            self.with_pack(after, at as int / 256, pack),
            same_but(self.pack(at as int / 256)@, pack@, at as int % 256),
        ensures
            self.with_bit(after, at, pack@[at as int % 256]),
    {
        let index = at as int / 256;
        self.pack(index).lemma_shape();
        pack.lemma_shape();
        assert forall|j: int| 0 <= j < after.bits@.len() implies (#[trigger] after.bits@[j])@ is Some
            && after.bits@[j]@.unwrap().value is Some by {
            if j != index {
                assert(after.bits@[j] == self.bits@[j]);
            }
        }
        assert forall|i: int| 0 <= i < self.spec_capacity() && i != at implies after.bit(i)
            == self.bit(i) by {
            if i / 256 != index {
                assert(after.bits@[i / 256] == self.bits@[i / 256]);
            }
        }
        assert forall|i: int| after.stored_len() <= i < after.spec_capacity() implies !after.bit(
            i,
        ) by {
            assert(!self.bit(i));
        }
        assert(after@ =~= self@.update(at as int, pack@[at as int % 256]));
        self.lemma_evolved(after, index);
    }

    /// A handle to the bit at `at`, or `None` for an index at or past the
    /// length. The pack of the bit counts as mutated from here on. Once the
    /// handle is given up, the vector is as before but for that bit,
    /// provided that the other bits of the pack were left as they were, as
    /// every method of the handle leaves them.
    pub fn get_mut(&mut self, at: Index) -> (access: Option<BitAccess<'_>>)
        requires
            old(self).wf(),
        ensures
            match access {
                Some(a) => {
                    &&& at < old(self)@.len()
                    &&& a.at == at % 256
                    &&& a.bits@.len() == 256
                    &&& a.bits@[a.at as int] == old(self)@[at as int]
                    &&& same_but(a.bits@, final(a.bits)@, at as int % 256) ==> old(self).with_bit(
                        final(self),
                        at,
                        final(a.bits)@[at as int % 256],
                    )
                },
                None => at >= old(self)@.len() && *final(self) == *old(self),
            },
    {
        if at >= self.len() {
            return None;
        }
        let index: usize = (at / 256) as usize;
        let pos: u8 = (at % 256) as u8;
        proof {
            self.pack(index as int).lemma_shape();
            let before = *self;
            assert forall|after: Bitvec, pack: Bits256|
                before.with_pack(&after, index as int, pack) && same_but(
                    before.pack(index as int)@,
                    pack@,
                    at as int % 256,
                ) implies #[trigger] before.with_bit(&after, at, pack@[at as int % 256]) by {
                before.lemma_with_pack(&after, at, pack);
            }
        }
        let pack = self.bits[index].entry_mut().unwrap().value_mut().as_mut().unwrap();
        Some(BitAccess::new(pack, pos))
    }

    /// A handle to the first bit, or `None` for an empty vector. See
    /// `get_mut`.
    pub fn first_mut(&mut self) -> (access: Option<BitAccess<'_>>)
        requires
            old(self).wf(),
        ensures
            match access {
                Some(a) => {
                    &&& 0 < old(self)@.len()
                    &&& a.at == 0
                    &&& a.bits@.len() == 256
                    &&& a.bits@[0] == old(self)@.first()
                    &&& same_but(a.bits@, final(a.bits)@, 0) ==> old(self).with_bit(
                        final(self),
                        0,
                        final(a.bits)@[0],
                    )
                },
                None => old(self)@.len() == 0 && *final(self) == *old(self),
            },
    {
        self.get_mut(0)
    }

    /// A handle to the last bit, or `None` for an empty vector. See
    /// `get_mut`.
    pub fn last_mut(&mut self) -> (access: Option<BitAccess<'_>>)
        requires
            old(self).wf(),
        ensures
            match access {
                Some(a) => {
                    &&& 0 < old(self)@.len()
                    &&& a.at == (old(self)@.len() - 1) % 256
                    &&& a.bits@.len() == 256
                    &&& a.bits@[a.at as int] == old(self)@.last()
                    &&& same_but(a.bits@, final(a.bits)@, (old(self)@.len() - 1) % 256) ==> old(
                        self,
                    ).with_bit(
                        final(self),
                        (old(self)@.len() - 1) as u32,
                        final(a.bits)@[(old(self)@.len() - 1) % 256],
                    )
                },
                None => old(self)@.len() == 0 && *final(self) == *old(self),
            },
    {
        if self.is_empty() {
            return None;
        }
        let last = self.len() - 1;
        self.get_mut(last)
    }

    /// The number of cells that a bit vector reserves.
    pub fn footprint() -> (cells: u64)
        ensures
            cells == FOOTPRINT,
    {
        FOOTPRINT
    }

    /// Everything of the vector is mutated, as it is for a vector that was
    /// made in memory: a write-back writes all of it.
    pub open spec fn mutated(&self) -> bool {
        &&& self.len_entry() is Some
        &&& self.len_entry().unwrap().state == EntryState::Mutated
        &&& forall|i: int|
            0 <= i < self.pack_entries().len() ==> (#[trigger] self.pack_entries()[i]) is Some
                && self.pack_entries()[i].unwrap().state == EntryState::Mutated
    }

    /// Since `before`, the vector only grew by mutated packs, and what it
    /// had cached is as it was or is mutated.
    pub open spec fn evolved_from(&self, before: &Bitvec) -> bool {
        &&& self.len_entry() is Some
        &&& self.len_entry() == before.len_entry() || self.len_entry().unwrap().state
            == EntryState::Mutated
        &&& before.pack_entries().len() <= self.pack_entries().len()
        &&& forall|j: int|
            0 <= j < self.pack_entries().len() ==> (#[trigger] self.pack_entries()[j]) is Some && ((
            j < before.pack_entries().len() && self.pack_entries()[j] == before.pack_entries()[j])
                || self.pack_entries()[j].unwrap().state == EntryState::Mutated)
    }

    /// Whatever of the vector is not mutated is what the store holds for
    /// it after the operations `ops`, where `first` is the key of the
    /// vector's length.
    pub open spec fn synced(&self, ops: Seq<Op>, first: nat) -> bool {
        &&& self.len_entry() is Some
        &&& self.len_entry().unwrap().state == EntryState::Preserved ==> stored::<u32>(ops, first)
            == self.len_entry().unwrap().value
        &&& forall|j: int|
            0 <= j < self.pack_entries().len() ==> (#[trigger] self.pack_entries()[j]) is Some && (
            self.pack_entries()[j].unwrap().state == EntryState::Preserved ==> stored_pack(
                ops,
                first,
                j,
            ) == self.pack_entries()[j].unwrap().value)
    }

    /// What writing back the vector issues, where `first` is the key of its
    /// length.
    pub open spec fn writeback(&self, first: nat) -> Seq<Op> {
        cell_ops::<u32>(first, self.len_entry()) + packs_ops(
            first,
            self.pack_entries(),
            self.pack_entries().len(),
        )
    }

    /// Nothing of the vector is mutated: a write-back issues nothing.
    pub open spec fn preserved(&self) -> bool {
        &&& self.len_entry() is Some
        &&& self.len_entry().unwrap().state == EntryState::Preserved
        &&& forall|i: int|
            0 <= i < self.pack_entries().len() ==> (#[trigger] self.pack_entries()[i]) is Some
                && self.pack_entries()[i].unwrap().state == EntryState::Preserved
    }

    /// Reads the bit vector at the cursor: its length and every pack that
    /// the length takes. Returns `None` where the store holds no bit vector
    /// there. The cursor moves past the cells that a bit vector reserves.
    pub fn pull_forward(store: &Store, ptr: &mut KeyPtr) -> (bitvec: Option<Bitvec>)
        ensures
            final(ptr).key@ == offset_key(old(ptr).key@, FOOTPRINT as nat),
            match bitvec {
                Some(b) => {
                    &&& b.wf()
                    &&& b.preserved()
                    &&& b.synced(store@, old(ptr).key@)
                    &&& stored_bits(store@, old(ptr).key@) == Some(b@)
                    &&& b.spec_capacity() == 256 * packs_for(b@.len())
                },
                None => stored_bits(store@, old(ptr).key@) is None,
            },
    {
        let first = ptr.next_for(FOOTPRINT);
        let mut len: Lazy<u32> = Lazy::lazy(first);
        let count: u32 = match len.load(store) {
            Some(count) => *count,
            None => {
                return None;
            },
        };
        let packs: u32 = (count / 256) + (if count % 256 == 0 { 0u32 } else { 1u32 });
        let mut bits: Vec<LazyCell<Bits256>> = Vec::new();
        let mut index: u32 = 0;
        while index < packs
            invariant
                index <= packs,
                packs == packs_for(count as nat),
                first == old(ptr).key,
                ptr.key@ == offset_key(old(ptr).key@, FOOTPRINT as nat),
                stored::<u32>(store@, first@) == Some(count),
                bits@.len() == index,
                forall|j: int|
                    0 <= j < index ==> (#[trigger] bits@[j])@ == Some(
                        Entry {
                            value: stored_pack(store@, first@, j),
                            state: EntryState::Preserved,
                        },
                    ) && stored_pack(store@, first@, j) is Some,
            decreases packs - index,
        {
            let mut cell: LazyCell<Bits256> = LazyCell::lazy(first.add_wide(index as u128 + 1));
            if cell.get(store).is_none() {
                proof {
                    assert(stored_pack(store@, first@, index as int) is None);
                }
                return None;
            }
            bits.push(cell);
            index += 1;
        }
        let bitvec = Bitvec { len, bits };
        let tail: u32 = count % 256;
        if tail != 0 {
            let last = bitvec.bits[(packs - 1) as usize].entry().unwrap().value().as_ref().unwrap();
            proof {
                last.lemma_shape();
            }
            let mut pos: u32 = tail;
            while pos < 256
                invariant
                    0 < tail <= pos <= 256,
                    tail == count % 256,
                    packs == packs_for(count as nat),
                    first == old(ptr).key,
                    ptr.key@ == offset_key(old(ptr).key@, FOOTPRINT as nat),
                    stored::<u32>(store@, first@) == Some(count),
                    last@.len() == 256,
                    stored_pack(store@, first@, packs - 1) == Some(*last),
                    forall|q: int| tail <= q < pos ==> !last@[q],
                decreases 256 - pos,
            {
                if last.get(pos as u8) {
                    proof {
                        let i = (packs - 1) * 256 + pos;
                        assert(i / 256 == packs - 1 && i % 256 == pos);
                        assert(stored_pack(store@, first@, i / 256).unwrap()@[i % 256]);
                        assert(count <= i < 256 * packs_for(count as nat));
                        assert(!stored_packs_fit(store@, first@, count as nat));
                    }
                    return None;
                }
                pos += 1;
            }
        }
        proof {
            assert forall|i: int| count <= i < 256 * packs implies !(#[trigger] stored_pack(
                store@,
                first@,
                i / 256,
            )).unwrap()@[i % 256] by {
                assert(i / 256 == packs - 1);
                assert(tail <= i % 256 < 256);
                assert(bitvec.bits@[packs - 1]@.unwrap().value == stored_pack(
                    store@,
                    first@,
                    packs - 1,
                ));
            }
            assert forall|p: int| 0 <= p < packs implies (#[trigger] stored_pack(
                store@,
                first@,
                p,
            )) is Some by {
                assert(bitvec.bits@[p]@ is Some);
            }
            assert(stored_packs_fit(store@, first@, count as nat));
            assert forall|i: int| bitvec.stored_len() <= i < bitvec.spec_capacity() implies !bitvec.bit(
                i,
            ) by {
                assert(!stored_pack(store@, first@, i / 256).unwrap()@[i % 256]);
            }
            assert(bitvec@ =~= stored_bits(store@, first@).unwrap());
        }
        Some(bitvec)
    }

    /// The cached entry of the length.
    pub closed spec fn len_entry(&self) -> Option<Entry<u32>> {
        self.len@
    }

    /// The cached entries of the packs.
    pub closed spec fn pack_entries(&self) -> Seq<Option<Entry<Bits256>>> {
        Seq::new(self.bits@.len(), |i: int| self.bits@[i]@)
    }

    /// Writes the vector back to the store at the cursor: the length at the
    /// cursor's key, pack `i` at `1 + i` cells after it, each only if it is
    /// mutated. The cursor moves past the cells that a bit vector reserves.
    pub fn push_forward(&self, store: &mut Store, ptr: &mut KeyPtr)
        ensures
            final(store)@ == old(store)@ + self.writeback(old(ptr).key@),
            final(ptr).key@ == offset_key(old(ptr).key@, FOOTPRINT as nat),
    {
        let first = ptr.next_for(FOOTPRINT);
        self.len.push_forward(store, &mut KeyPtr::new(first));
        let ghost written = store@;
        let mut index: usize = 0;
        proof {
            assert(store@ =~= written + packs_ops(first@, self.pack_entries(), 0));
        }
        while index < self.bits.len()
            invariant
                index <= self.bits.len(),
                written == old(store)@ + cell_ops::<u32>(first@, self.len_entry()),
                first == old(ptr).key,
                ptr.key@ == offset_key(old(ptr).key@, FOOTPRINT as nat),
                store@ == written + packs_ops(first@, self.pack_entries(), index as nat),
            decreases self.bits.len() - index,
        {
            let ghost before = store@;
            let key = first.add_wide(index as u128 + 1);
            self.bits[index].push_forward(store, &mut KeyPtr::new(key));
            proof {
                assert(self.pack_entries()[index as int] == self.bits@[index as int]@);
                assert(store@ =~= written + packs_ops(
                    first@,
                    self.pack_entries(),
                    (index + 1) as nat,
                ));
            }
            index += 1;
        }
        proof {
            assert(store@ =~= old(store)@ + self.writeback(first@));
        }
    }

    /// Sets the bit at `at` to `value` and returns `true`; for an index at
    /// or past the length it changes nothing and returns `false`.
    pub fn set(&mut self, at: Index, value: bool) -> (done: bool)
        requires
            old(self).wf(),
        ensures
            final(self).wf(),
            final(self).evolved_from(old(self)),
            final(self).spec_capacity() == old(self).spec_capacity(),
            done == (at < old(self)@.len()),
            final(self)@ == if done {
                old(self)@.update(at as int, value)
            } else {
                old(self)@
            },
    {
        if at >= self.len() {
            proof {
                self.lemma_evolved(self, -1);
            }
            return false;
        }
        self.write_bit(at, value);
        proof {
            assert(self@ =~= old(self)@.update(at as int, value));
            old(self).lemma_evolved(self, at as int / 256);
        }
        true
    }

    /// Appends `value`. Where every allocated pack is full, or none is
    /// allocated, a pack of 256 cleared bits is added first.
    pub fn push(&mut self, value: bool)
        requires
            old(self).wf(),
            old(self)@.len() < u32::MAX,
        ensures
            final(self).wf(),
            final(self).evolved_from(old(self)),
            final(self)@ == old(self)@.push(value),
            final(self).spec_capacity() == if old(self)@.len() == old(self).spec_capacity() {
                old(self).spec_capacity() + 256
            } else {
                old(self).spec_capacity()
            },
    {
        let len = self.len();
        if len as u64 == self.capacity() {
            let mut bits256 = Bits256::new();
            if value {
                bits256.set(0);
            }
            proof {
                bits256.lemma_shape();
            }
            self.bits.push(LazyCell::new(Some(bits256)));
            Lazy::set(&mut self.len, len + 1);
            proof {
                assert forall|i: int| 0 <= i < self.bits@.len() implies (#[trigger] self.bits@[i])@ is Some
                    && self.bits@[i]@.unwrap().value is Some by {
                    if i < old(self).bits@.len() {
                        assert(self.bits@[i] == old(self).bits@[i]);
                    }
                }
                assert(self.pack(len as int / 256) == bits256);
                assert forall|i: int| 0 <= i < len implies self.bit(i) == old(self).bit(i) by {
                    assert(self.bits@[i / 256] == old(self).bits@[i / 256]);
                }
                assert forall|i: int| len < i < self.spec_capacity() implies !self.bit(i) by {
                    assert(i / 256 == len as int / 256);
                }
                assert(self@ =~= old(self)@.push(value));
                old(self).lemma_evolved(self, old(self).bits@.len() as int);
            }
        } else {
            proof {
                assert(!old(self).bit(len as int));
            }
            Lazy::set(&mut self.len, len + 1);
            if value {
                self.write_bit(len, true);
            }
            proof {
                assert(self.bit(len as int) == value);
                assert forall|i: int| len < i < self.spec_capacity() implies !self.bit(i) by {
                    assert(!old(self).bit(i));
                }
                assert(self@ =~= old(self)@.push(value));
                old(self).lemma_evolved(
                    self,
                    if value {
                        len as int / 256
                    } else {
                        -1
                    },
                );
            }
        }
    }

    /// Removes the last bit and returns it, or returns `None` for an empty
    /// vector. The bit's place is cleared; no pack is given up.
    pub fn pop(&mut self) -> (popped: Option<bool>)
        requires
            old(self).wf(),
        ensures
            final(self).wf(),
            final(self).evolved_from(old(self)),
            final(self).spec_capacity() == old(self).spec_capacity(),
            popped == if old(self)@.len() > 0 {
                Some(old(self)@.last())
            } else {
                None
            },
            final(self)@ == if old(self)@.len() > 0 {
                old(self)@.drop_last()
            } else {
                old(self)@
            },
    {
        if self.is_empty() {
            proof {
                self.lemma_evolved(self, -1);
            }
            return None;
        }
        let len = self.len();
        let popped = self.get(len - 1).unwrap();
        self.write_bit(len - 1, false);
        Lazy::set(&mut self.len, len - 1);
        proof {
            assert forall|i: int| len - 1 <= i < self.spec_capacity() implies !self.bit(i) by {
                if i >= len {
                    assert(!old(self).bit(i));
                }
            }
            assert(self@ =~= old(self)@.drop_last());
            old(self).lemma_evolved(self, (len - 1) / 256);
        }
        Some(popped)
    }
}

/// A pop undoes a push. Let `pushed` be `before` after `push(value)`, and
/// `popped` be `pushed` after a `pop()` that returned `result`. Then
/// `result` is `Some(value)`, and `popped` has the bits, and so the length,
/// of `before`.
pub proof fn lemma_push_then_pop(
    before: &Bitvec,
    pushed: &Bitvec,
    popped: &Bitvec,
    value: bool,
    result: Option<bool>,
)
    requires
        pushed@ == before@.push(value),
        result == if pushed@.len() > 0 {
            Some(pushed@.last())
        } else {
            None
        },
        popped@ == if pushed@.len() > 0 {
            pushed@.drop_last()
        } else {
            pushed@
        },
    ensures
        result == Some(value),
        popped@ == before@,
        popped@.len() == before@.len(),
{
    assert(before@.push(value).drop_last() =~= before@);
}

/// Each operation that writing back the first `upto` packs issues
/// addresses the cell of one of them, a mutated one. Returns how many cells
/// after `first` that cell lies.
proof fn lemma_pack_op_key(
    first: nat,
    packs: Seq<Option<Entry<Bits256>>>,
    upto: nat,
    k: int,
) -> (cell: nat)
    requires
        0 <= k < packs_ops(first, packs, upto).len(),
    ensures
        1 <= cell <= upto,
        packs[cell - 1] is Some,
        packs[cell - 1].unwrap().state == EntryState::Mutated,
        packs_ops(first, packs, upto)[k].key == offset_key(first, cell),
    decreases upto,
{
    let front = packs_ops(first, packs, (upto - 1) as nat);
    if k < front.len() {
        lemma_pack_op_key(first, packs, (upto - 1) as nat, k)
    } else {
        lemma_offset_key_in_space(first, upto);
        lemma_offset_key_zero(offset_key(first, upto));
        upto
    }
}

/// After the write-back of the first `upto` packs, past pack `index`, the
/// store holds the value of the mutated pack `index` at the pack's key.
proof fn lemma_written_pack_stays(
    first: nat,
    packs: Seq<Option<Entry<Bits256>>>,
    ops: Seq<Op>,
    index: nat,
    upto: nat,
)
    requires
        index < upto <= packs.len(),
        upto < key_space(),
        packs[index as int] is Some,
        packs[index as int].unwrap().state == EntryState::Mutated,
    ensures
        stored::<Bits256>(ops + packs_ops(first, packs, upto), offset_key(first, index + 1))
            == packs[index as int].unwrap().value,
    decreases upto,
{
    let key = offset_key(first, index + 1);
    let front = packs_ops(first, packs, (upto - 1) as nat);
    let last = cell_ops::<Bits256>(offset_key(first, upto), packs[upto - 1]);
    assert(ops + packs_ops(first, packs, upto) =~= (ops + front) + last);
    if upto == index + 1 {
        lemma_offset_key_in_space(first, upto);
        lemma_push_pull_round_trip::<Bits256>(ops + front, key, packs[index as int].unwrap().value);
    } else {
        lemma_written_pack_stays(first, packs, ops, index, (upto - 1) as nat);
        lemma_offset_key_in_space(first, upto);
        lemma_offset_key_zero(offset_key(first, upto));
        lemma_offset_key_injective(first, upto, index + 1);
        lemma_cell_of_untouched(ops + front, last, key);
    }
}

/// The write-back of the packs leaves alone the cell `cell` cells after
/// `first`, unless that is the cell of a mutated pack.
proof fn lemma_packs_ops_skip(
    first: nat,
    packs: Seq<Option<Entry<Bits256>>>,
    ops: Seq<Op>,
    cell: nat,
)
    requires
        packs.len() < key_space(),
        cell <= packs.len(),
        cell == 0 || packs[cell - 1] is None || packs[cell - 1].unwrap().state
            == EntryState::Preserved,
    ensures
        crate::store::cell_of(ops + packs_ops(first, packs, packs.len()), offset_key(first, cell))
            == crate::store::cell_of(ops, offset_key(first, cell)),
{
    let issued = packs_ops(first, packs, packs.len());
    assert forall|k: int| 0 <= k < issued.len() implies (#[trigger] issued[k]).key != offset_key(
        first,
        cell,
    ) by {
        let other = lemma_pack_op_key(first, packs, packs.len(), k);
        lemma_offset_key_injective(first, other, cell);
    }
    lemma_cell_of_untouched(ops, issued, offset_key(first, cell));
}

impl Bitvec {
    /// No write is lost, and what was written back is what a pull reads.
    /// Where whatever of a vector is not mutated is what the store holds
    /// for it at `first`, as it is for a vector made in memory and for a
    /// vector pulled from `first` and changed since, then after a write-back
    /// of the vector at `first` the store holds at `first` a bit vector with
    /// the same bits.
    pub proof fn lemma_round_trip(&self, ops: Seq<Op>, first: Key)
        requires
            self.wf(),
            self.synced(ops, first@),
        ensures
            stored_bits(ops + self.writeback(first@), first@) == Some(self@),
    {
        lemma_key_in_space(first);
        lemma_key_space_large();
        lemma_offset_key_zero(first@);
        let packs = self.pack_entries();
        let count = packs.len();
        let len_ops = cell_ops::<u32>(first@, self.len_entry());
        let pack_ops = packs_ops(first@, packs, count);
        let after = ops + self.writeback(first@);
        assert(after =~= (ops + len_ops) + pack_ops);
        lemma_packs_ops_skip(first@, packs, ops + len_ops, 0);
        if self.len_entry().unwrap().state == EntryState::Mutated {
            lemma_push_pull_round_trip::<u32>(ops, first@, self.len_entry().unwrap().value);
        } else {
            assert(ops + len_ops =~= ops);
        }
        assert(stored::<u32>(after, first@) == Some(self.stored_len() as u32));
        assert forall|p: int| 0 <= p < count implies #[trigger] stored_pack(after, first@, p)
            == Some(self.pack(p)) by {
            assert(packs[p] == self.bits@[p]@);
            if packs[p].unwrap().state == EntryState::Mutated {
                lemma_written_pack_stays(first@, packs, ops + len_ops, p as nat, count);
            } else {
                lemma_packs_ops_skip(first@, packs, ops + len_ops, (p + 1) as nat);
                let key = offset_key(first@, (p + 1) as nat);
                assert forall|k: int| 0 <= k < len_ops.len() implies (#[trigger] len_ops[k]).key
                    != key by {
                    lemma_offset_key_injective(first@, (p + 1) as nat, 0);
                }
                lemma_cell_of_untouched(ops, len_ops, key);
            }
        }
        assert forall|i: int|
            self.stored_len() <= i < 256 * packs_for(self.stored_len()) implies !(
        #[trigger] stored_pack(after, first@, i / 256)).unwrap()@[i % 256] by {
            assert(!self.bit(i));
        }
        assert(stored_packs_fit(after, first@, self.stored_len()));
        assert(stored_bits(after, first@).unwrap() =~= self@);
    }

    /// What is synced stays synced while the vector is worked on: the
    /// operations of a vector mark as mutated whatever they change.
    pub proof fn lemma_synced_kept(&self, before: &Bitvec, ops: Seq<Op>, first: nat)
        requires
            before.synced(ops, first),
            self.evolved_from(before),
        ensures
            self.synced(ops, first),
    {
        assert forall|j: int| 0 <= j < self.pack_entries().len() implies (
        #[trigger] self.pack_entries()[j]) is Some && (self.pack_entries()[j].unwrap().state
            == EntryState::Preserved ==> stored_pack(ops, first, j)
            == self.pack_entries()[j].unwrap().value) by {
            if j < before.pack_entries().len() {
                assert(before.pack_entries()[j] is Some);
            }
        }
    }
}

} // verus!
