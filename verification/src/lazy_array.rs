//! A chunk of 32 storage slots, each loaded on first access.

use vstd::prelude::*;
use crate::entry::{Entry, EntryState};
use crate::key::{
    Key, KeyPtr, lemma_key_space_large, lemma_offset_key_add, lemma_offset_key_in_space,
    lemma_offset_key_injective, offset_key,
};
use crate::layout::{
    Storable, lemma_push_pull_round_trip, pull_at, push_at, push_ops, stored,
};
use crate::store::{Op, Store, lemma_cell_of_untouched};

verus! {

/// The index of a slot in a lazy array.
pub type Index = u32;

/// The number of slots of a lazy array.
pub const CAPACITY: u32 = 32;

/// The key of slot `at` in a chunk that starts at `base` and whose elements
/// reserve `footprint` cells each.
pub open spec fn slot_key(base: nat, at: nat, footprint: nat) -> nat {
    offset_key(base, at * footprint)
}

/// What writing back one slot issues: nothing for a slot that was never
/// cached or whose entry is preserved; for a mutated entry, what puts its
/// value at the slot's key.
pub open spec fn slot_ops<T: Storable>(base: nat, at: nat, slot: Option<Entry<T>>) -> Seq<Op> {
    match slot {
        Some(entry) => if entry.state == EntryState::Mutated {
            push_ops(slot_key(base, at, T::spec_footprint()), entry.value)
        } else {
            Seq::empty()
        },
        None => Seq::empty(),
    }
}

/// What writing back the first `upto` slots issues, slot by slot in rising
/// order.
pub open spec fn writeback_ops<T: Storable>(
    base: nat,
    slots: Seq<Option<Entry<T>>>,
    upto: nat,
) -> Seq<Op>
    decreases upto,
{
    if upto == 0 {
        Seq::empty()
    } else {
        writeback_ops(base, slots, (upto - 1) as nat) + slot_ops(
            base,
            (upto - 1) as nat,
            slots[upto - 1],
        )
    }
}

/// The cache of a lazy array: for each slot, the entry that is cached for
/// it, if any.
#[derive(Debug)]
pub struct EntryArray<T> {
    entries: Vec<Option<Entry<T>>>,
}

impl<T> View for EntryArray<T> {
    type V = Seq<Option<Entry<T>>>;

    closed spec fn view(&self) -> Seq<Option<Entry<T>>> {
        self.entries@
    }
}

impl<T> EntryArray<T> {
    /// The cache has one place for each of the 32 slots.
    pub open spec fn wf(&self) -> bool {
        self@.len() == CAPACITY
    }

    /// A cache in which no slot is cached.
    pub fn new() -> (cache: Self)
        ensures
            cache.wf(),
            forall|i: int| 0 <= i < CAPACITY ==> cache@[i] is None,
    {
        let mut entries: Vec<Option<Entry<T>>> = Vec::new();
        let mut i: u32 = 0;
        while i < CAPACITY
            invariant
                i <= CAPACITY,
                entries@.len() == i,
                forall|j: int| 0 <= j < i ==> entries@[j] is None,
            decreases CAPACITY - i,
        {
            entries.push(None);
            i += 1;
        }
        EntryArray { entries }
    }

    /// Caches `new_value` for the slot as a mutated entry and returns the
    /// value that was cached there, if any.
    pub fn put(&mut self, at: Index, new_value: Option<T>) -> (previous: Option<T>)
        requires
            old(self).wf(),
            at < CAPACITY,
        ensures
            final(self)@ == old(self)@.update(
                at as int,
                Some(Entry { value: new_value, state: EntryState::Mutated }),
            ),
            previous == match old(self)@[at as int] {
                Some(entry) => entry.value,
                None => None,
            },
    {
        let mut slot = Some(Entry::new(new_value, EntryState::Mutated));
        core::mem::swap(&mut self.entries[at as usize], &mut slot);
        match slot {
            Some(entry) => entry.into_value(),
            None => None,
        }
    }

    /// Caches `entry` for the slot and returns a reference to it.
    pub fn insert_entry(&mut self, at: Index, entry: Entry<T>) -> (inserted: &mut Entry<T>)
        requires
            old(self).wf(),
            at < CAPACITY,
        ensures
            *inserted == entry,
            final(self)@ == old(self)@.update(at as int, Some(*final(inserted))),
    {
        self.entries[at as usize] = Some(entry);
        self.entries[at as usize].as_mut().unwrap()
    }

    /// The entry that is cached for the slot, if any. There is none for an
    /// index out of bounds.
    pub fn get_entry(&self, at: Index) -> (entry: Option<&Entry<T>>)
        requires
            self.wf(),
        ensures
            match entry {
                Some(e) => at < CAPACITY && self@[at as int] == Some(*e),
                None => at >= CAPACITY || self@[at as int] is None,
            },
    {
        if at >= CAPACITY {
            return None;
        }
        self.entries[at as usize].as_ref()
    }

    /// The entry that is cached for the slot, if any, open to change. There
    /// is none for an index out of bounds.
    pub fn get_entry_mut(&mut self, at: Index) -> (entry: Option<&mut Entry<T>>)
        requires
            old(self).wf(),
        ensures
            match entry {
                Some(e) => at < CAPACITY && old(self)@[at as int] == Some(*e) && final(self)@
                    == old(self)@.update(at as int, Some(*final(e))),
                None => (at >= CAPACITY || old(self)@[at as int] is None) && final(self)@ == old(
                    self,
                )@,
            },
    {
        if at >= CAPACITY {
            return None;
        }
        self.entries[at as usize].as_mut()
    }
}

impl<T> Default for EntryArray<T> {
    fn default() -> (cache: Self)
        ensures
            cache.wf(),
            forall|i: int| 0 <= i < CAPACITY ==> cache@[i] is None,
    {
        Self::new()
    }
}

/// A chunk of 32 storage slots of `T`, each read from the store on first
/// access and written back only if it was changed.
///
/// Its view says, for each slot, which entry is cached for it, if any. A
/// slot without a cached entry is unknown, not empty.
#[derive(Debug)]
pub struct LazyArray<T> {
    key: Option<Key>,
    cached_entries: EntryArray<T>,
}

impl<T> View for LazyArray<T> {
    type V = Seq<Option<Entry<T>>>;

    closed spec fn view(&self) -> Seq<Option<Entry<T>>> {
        self.cached_entries@
    }
}

impl<T> LazyArray<T> {
    /// The key of the first slot, or `None` for an array that was made in
    /// memory and has no place in the store.
    pub closed spec fn spec_key(&self) -> Option<Key> {
        self.key
    }

    /// The array has 32 slots.
    pub open spec fn wf(&self) -> bool {
        self@.len() == CAPACITY
    }

    /// An array with no place in the store and no slot cached. It cannot
    /// load: a slot has to be put before it is read.
    pub fn new() -> (array: Self)
        ensures
            array.wf(),
            array.spec_key() is None,
            forall|i: int| 0 <= i < CAPACITY ==> array@[i] is None,
    {
        LazyArray { key: None, cached_entries: EntryArray::new() }
    }

    /// An array whose first slot lies at `key`, with no slot cached yet.
    pub fn lazy(key: Key) -> (array: Self)
        ensures
            array.wf(),
            array.spec_key() == Some(key),
            forall|i: int| 0 <= i < CAPACITY ==> array@[i] is None,
    {
        LazyArray { key: Some(key), cached_entries: EntryArray::new() }
    }

    /// The number of slots.
    pub fn capacity() -> (slots: u32)
        ensures
            slots == CAPACITY,
    {
        CAPACITY
    }

    /// The key of the first slot, if the array has a place in the store.
    pub fn key(&self) -> (key: Option<&Key>)
        ensures
            match key {
                Some(k) => self.spec_key() == Some(*k),
                None => self.spec_key() is None,
            },
    {
        self.key.as_ref()
    }

    /// Caches `new_value` for the slot as a mutated entry, without reading
    /// what the slot held.
    pub fn put(&mut self, at: Index, new_value: Option<T>)
        requires
            old(self).wf(),
            at < CAPACITY,
        ensures
            final(self).spec_key() == old(self).spec_key(),
            final(self)@ == old(self)@.update(
                at as int,
                Some(Entry { value: new_value, state: EntryState::Mutated }),
            ),
    {
        self.cached_entries.put(at, new_value);
    }
}

impl<T: Storable> LazyArray<T> {
    /// The number of the key of slot `at`: `None` out of bounds or for an
    /// array with no place in the store, else the first slot's key moved on
    /// by `at` times the footprint of `T`.
    pub open spec fn spec_key_at(&self, at: Index) -> Option<nat> {
        if at < CAPACITY {
            match self.spec_key() {
                Some(key) => Some(slot_key(key@, at as nat, T::spec_footprint())),
                None => None,
            }
        } else {
            None
        }
    }

    /// Slot `at` can be read: it is in bounds, and it is cached or the array
    /// has a place in the store to load it from.
    pub open spec fn can_load(&self, at: Index) -> bool {
        at < CAPACITY && (self@[at as int] is Some || self.spec_key() is Some)
    }

    /// The entry of slot `at` once it was read: the cached one, or, for a
    /// slot not cached yet, what the store holds at the slot's key, as a
    /// preserved entry.
    pub open spec fn loaded(&self, ops: Seq<Op>, at: Index) -> Entry<T> {
        match self@[at as int] {
            Some(entry) => entry,
            None => Entry {
                value: stored::<T>(ops, self.spec_key_at(at).unwrap()),
                state: EntryState::Preserved,
            },
        }
    }

    /// The number of cells that the array reserves: 32 times the footprint
    /// of `T`.
    pub fn footprint() -> (cells: u128)
        ensures
            cells == CAPACITY * T::spec_footprint(),
    {
        let each: u128 = T::footprint() as u128;
        assert(32 * each <= u128::MAX) by (nonlinear_arith)
            requires
                each <= u64::MAX,
        ;
        32 * each
    }

    /// An array at the cursor, with no slot cached yet. The cursor moves
    /// past the array's 32 slots.
    pub fn pull_forward(ptr: &mut KeyPtr) -> (array: Self)
        ensures
            array.wf(),
            array.spec_key() == Some(old(ptr).key),
            forall|i: int| 0 <= i < CAPACITY ==> array@[i] is None,
            final(ptr).key@ == offset_key(old(ptr).key@, (CAPACITY as nat) * T::spec_footprint()),
    {
        let key = ptr.next_for_wide(Self::footprint());
        Self::lazy(key)
    }

    /// The key of slot `at`, if it is in bounds and the array has a place in
    /// the store.
    pub fn key_at(&self, at: Index) -> (key: Option<Key>)
        ensures
            match key {
                Some(k) => self.spec_key_at(at) == Some(k@),
                None => self.spec_key_at(at) is None,
            },
    {
        if at >= Self::capacity() {
            return None;
        }
        match self.key {
            Some(key) => Some(slot_key_of(&key, at, T::footprint())),
            None => None,
        }
    }

    /// Makes sure that slot `at` is cached: a slot not cached yet is read
    /// from the store and cached as a preserved entry; a cached slot stays
    /// as it is.
    pub fn load_through_cache(&mut self, store: &Store, at: Index)
        requires
            old(self).wf(),
            old(self).can_load(at),
        ensures
            final(self).spec_key() == old(self).spec_key(),
            final(self)@ == old(self)@.update(at as int, Some(old(self).loaded(store@, at))),
    {
        if self.cached_entries.get_entry(at).is_none() {
            let key = self.key_at(at).unwrap();
            let value = pull_at::<T>(store, &key);
            self.cached_entries.insert_entry(at, Entry::new(value, EntryState::Preserved));
        } else {
            proof {
                assert(self@ =~= old(self)@.update(at as int, Some(old(self).loaded(store@, at))));
            }
        }
    }

    /// The entry of slot `at`, read from the store if it was not cached,
    /// open to change.
    pub fn load_through_cache_mut(&mut self, store: &Store, at: Index) -> (entry: &mut Entry<T>)
        requires
            old(self).wf(),
            old(self).can_load(at),
        ensures
            *entry == old(self).loaded(store@, at),
            final(self).spec_key() == old(self).spec_key(),
            final(self)@ == old(self)@.update(at as int, Some(*final(entry))),
    {
        self.load_through_cache(store, at);
        self.cached_entries.get_entry_mut(at).unwrap()
    }

    /// The value of slot `at`, read from the store if it was not cached.
    pub fn get(&mut self, store: &Store, at: Index) -> (value: Option<&T>)
        requires
            old(self).wf(),
            old(self).can_load(at),
        ensures
            final(self).spec_key() == old(self).spec_key(),
            final(self)@ == old(self)@.update(at as int, Some(old(self).loaded(store@, at))),
            match value {
                Some(v) => old(self).loaded(store@, at).value == Some(*v),
                None => old(self).loaded(store@, at).value is None,
            },
    {
        self.load_through_cache(store, at);
        self.cached_entries.get_entry(at).unwrap().value().as_ref()
    }

    /// The value of slot `at`, read from the store if it was not cached,
    /// open to change. The slot counts as mutated from here on.
    pub fn get_mut(&mut self, store: &Store, at: Index) -> (value: Option<&mut T>)
        requires
            old(self).wf(),
            old(self).can_load(at),
        ensures
            final(self).spec_key() == old(self).spec_key(),
            match value {
                Some(v) => old(self).loaded(store@, at).value == Some(*v) && final(self)@ == old(
                    self,
                )@.update(
                    at as int,
                    Some(Entry { value: Some(*final(v)), state: EntryState::Mutated }),
                ),
                None => old(self).loaded(store@, at).value is None && final(self)@ == old(
                    self,
                )@.update(
                    at as int,
                    Some(Entry::<T> { value: None, state: EntryState::Mutated }),
                ),
            },
    {
        self.load_through_cache_mut(store, at).value_mut().as_mut()
    }

    /// Empties slot `at` and returns the value it held, read from the store
    /// if it was not cached. The slot counts as mutated.
    pub fn take(&mut self, store: &Store, at: Index) -> (previous: Option<T>)
        requires
            old(self).wf(),
            old(self).can_load(at),
        ensures
            previous == old(self).loaded(store@, at).value,
            final(self).spec_key() == old(self).spec_key(),
            final(self)@ == old(self)@.update(
                at as int,
                Some(Entry::<T> { value: None, state: EntryState::Mutated }),
            ),
    {
        self.load_through_cache_mut(store, at).take()
    }

    /// Puts `new_value` into slot `at` and returns the value it held, read
    /// from the store if it was not cached. The slot counts as mutated.
    pub fn put_get(&mut self, store: &Store, at: Index, new_value: Option<T>) -> (previous: Option<
        T,
    >)
        requires
            old(self).wf(),
            old(self).can_load(at),
        ensures
            previous == old(self).loaded(store@, at).value,
            final(self).spec_key() == old(self).spec_key(),
            final(self)@ == old(self)@.update(
                at as int,
                Some(Entry { value: new_value, state: EntryState::Mutated }),
            ),
    {
        self.load_through_cache_mut(store, at).put(new_value)
    }
}

impl<T: Storable> LazyArray<T> {
    /// What `swap` leaves in the cache for slots `a` and `b`, which differ:
    /// where both hold no value, the two entries as they were read; else the
    /// two values exchanged, both entries mutated.
    pub open spec fn swapped(&self, ops: Seq<Op>, a: Index, b: Index) -> Seq<Option<Entry<T>>> {
        let entry_a = self.loaded(ops, a);
        let entry_b = self.loaded(ops, b);
        if entry_a.value is None && entry_b.value is None {
            self@.update(a as int, Some(entry_a)).update(b as int, Some(entry_b))
        } else {
            self@.update(
                a as int,
                Some(Entry { value: entry_b.value, state: EntryState::Mutated }),
            ).update(b as int, Some(Entry { value: entry_a.value, state: EntryState::Mutated }))
        }
    }

    /// Exchanges the values of slots `a` and `b`, each read from the store
    /// if it was not cached. With `a == b` nothing happens, and nothing is
    /// read. Where neither slot holds a value, nothing is exchanged and no
    /// entry becomes mutated.
    pub fn swap(&mut self, store: &Store, a: Index, b: Index)
        requires
            old(self).wf(),
            a < CAPACITY,
            b < CAPACITY,
            a != b ==> old(self).can_load(a) && old(self).can_load(b),
        ensures
            final(self).spec_key() == old(self).spec_key(),
            a == b ==> final(self)@ == old(self)@,
            a != b ==> final(self)@ == old(self).swapped(store@, a, b),
    {
        if a == b {
            return ;
        }
        self.load_through_cache(store, a);
        self.load_through_cache(store, b);
        let a_is_none = self.cached_entries.get_entry(a).unwrap().value().is_none();
        let b_is_none = self.cached_entries.get_entry(b).unwrap().value().is_none();
        if a_is_none && b_is_none {
            return ;
        }
        let value_a = self.cached_entries.get_entry_mut(a).unwrap().take();
        let value_b = self.cached_entries.get_entry_mut(b).unwrap().put(value_a);
        self.cached_entries.get_entry_mut(a).unwrap().put(value_b);
        proof {
            assert(self@ =~= old(self).swapped(store@, a, b));
        }
    }

    /// Writes the array back to the store at the cursor: for each slot in
    /// rising order, nothing if the slot was never cached or its entry is
    /// preserved; for a mutated entry one write of its value at the slot's
    /// key, or, where it holds no value, a clear of every cell of the slot.
    /// The cursor moves past the array's 32 slots.
    pub fn push_forward(&self, store: &mut Store, ptr: &mut KeyPtr)
        requires
            self.wf(),
        ensures
            final(store)@ == old(store)@ + writeback_ops::<T>(
                old(ptr).key@,
                self@,
                CAPACITY as nat,
            ),
            final(ptr).key@ == offset_key(old(ptr).key@, (CAPACITY as nat) * T::spec_footprint()),
    {
        let offset_key = ptr.next_for_wide(Self::footprint());
        let footprint = T::footprint();
        let mut index: u32 = 0;
        proof {
            assert(store@ =~= old(store)@ + writeback_ops::<T>(offset_key@, self@, 0));
        }
        while index < CAPACITY
            invariant
                self.wf(),
                index <= CAPACITY,
                footprint == T::spec_footprint(),
                store@ == old(store)@ + writeback_ops::<T>(offset_key@, self@, index as nat),
            decreases CAPACITY - index,
        {
            let ghost before = store@;
            let ghost ops = slot_ops::<T>(offset_key@, index as nat, self@[index as int]);
            match self.cached_entries.get_entry(index) {
                Some(entry) => {
                    if entry.is_mutated() {
                        let key = slot_key_of(&offset_key, index, footprint);
                        push_at(entry.value(), store, &key);
                    }
                },
                None => {},
            }
            proof {
                assert(store@ =~= before + ops);
                assert(store@ =~= old(store)@ + writeback_ops::<T>(
                    offset_key@,
                    self@,
                    (index + 1) as nat,
                ));
            }
            index += 1;
        }
    }
}

/// The key `at` elements of `footprint` cells each after `base`.
fn slot_key_of(base: &Key, at: Index, footprint: u64) -> (key: Key)
    requires
        at < CAPACITY,
    ensures
        key@ == slot_key(base@, at as nat, footprint as nat),
{
    let wide_at: u128 = at as u128;
    let wide_footprint: u128 = footprint as u128;
    assert(wide_at * wide_footprint <= u128::MAX) by (nonlinear_arith)
        requires
            wide_at < 32,
            wide_footprint <= u64::MAX,
    ;
    base.add_wide(wide_at * wide_footprint)
}

/// The cells of different slots, and different cells of one slot, have
/// different keys.
pub proof fn lemma_slot_cells_apart(base: nat, footprint: nat, i: nat, c: nat, j: nat, d: nat)
    requires
        i < CAPACITY,
        j < CAPACITY,
        c < footprint,
        d < footprint,
        footprint <= u64::MAX,
        i != j || c != d,
    ensures
        offset_key(base, i * footprint + c) != offset_key(base, j * footprint + d),
{
    lemma_key_space_large();
    let a = i * footprint + c;
    let b = j * footprint + d;
    assert(a != b && a < 32 * footprint && b < 32 * footprint) by (nonlinear_arith)
        requires
            a == i * footprint + c,
            b == j * footprint + d,
            i < 32,
            j < 32,
            c < footprint,
            d < footprint,
            i != j || c != d,
    ;
    lemma_offset_key_injective(base, a, b);
}

/// Each operation that writing back slot `at` issues addresses a cell of
/// that slot. Returns the number of the cell within the slot.
pub proof fn lemma_slot_op_key<T: Storable>(
    base: nat,
    at: nat,
    slot: Option<Entry<T>>,
    k: int,
) -> (cell: nat)
    requires
        0 <= k < slot_ops::<T>(base, at, slot).len(),
    ensures
        cell < T::spec_footprint(),
        slot_ops::<T>(base, at, slot)[k].key == offset_key(
            base,
            at * T::spec_footprint() + cell,
        ),
{
    T::lemma_footprint();
    let footprint = T::spec_footprint();
    let entry = slot.unwrap();
    match entry.value {
        Some(v) => {
            assert(offset_key(base, at * footprint) == offset_key(base, at * footprint + 0));
            0
        },
        None => {
            lemma_offset_key_add(base, at * footprint, k as nat);
            k as nat
        },
    }
}

/// Writing back touches no cell of a slot that is not mutated: where slot
/// `at` was never cached, or its entry is preserved, no operation of the
/// write-back addresses any of its cells.
pub proof fn lemma_writeback_skips_clean<T: Storable>(
    base: nat,
    slots: Seq<Option<Entry<T>>>,
    upto: nat,
    at: nat,
    cell: nat,
    k: int,
)
    requires
        slots.len() == CAPACITY,
        upto <= CAPACITY,
        at < CAPACITY,
        cell < T::spec_footprint(),
        slots[at as int] is None || slots[at as int].unwrap().state == EntryState::Preserved,
        0 <= k < writeback_ops::<T>(base, slots, upto).len(),
    ensures
        writeback_ops::<T>(base, slots, upto)[k].key != offset_key(
            base,
            at * T::spec_footprint() + cell,
        ),
    decreases upto,
{
    T::lemma_footprint();
    if upto > 0 {
        let front = writeback_ops::<T>(base, slots, (upto - 1) as nat);
        let last = slot_ops::<T>(base, (upto - 1) as nat, slots[upto - 1]);
        if k < front.len() {
            lemma_writeback_skips_clean::<T>(base, slots, (upto - 1) as nat, at, cell, k);
        } else {
            let other = lemma_slot_op_key::<T>(
                base,
                (upto - 1) as nat,
                slots[upto - 1],
                k - front.len(),
            );
            lemma_slot_cells_apart(
                base,
                T::spec_footprint(),
                (upto - 1) as nat,
                other,
                at,
                cell,
            );
        }
    }
}

/// Writing back leaves the store as it was for a slot that is not mutated:
/// where slot `at` was never cached, or its entry is preserved, the store
/// holds for it after the write-back what it held before.
pub proof fn lemma_writeback_keeps_clean<T: Storable>(
    base: nat,
    slots: Seq<Option<Entry<T>>>,
    ops: Seq<Op>,
    at: nat,
)
    requires
        slots.len() == CAPACITY,
        at < CAPACITY,
        slots[at as int] is None || slots[at as int].unwrap().state == EntryState::Preserved,
    ensures
        stored::<T>(
            ops + writeback_ops::<T>(base, slots, CAPACITY as nat),
            slot_key(base, at, T::spec_footprint()),
        ) == stored::<T>(ops, slot_key(base, at, T::spec_footprint())),
{
    T::lemma_footprint();
    let issued = writeback_ops::<T>(base, slots, CAPACITY as nat);
    let key = slot_key(base, at, T::spec_footprint());
    assert forall|k: int| 0 <= k < issued.len() implies (#[trigger] issued[k]).key != key by {
        lemma_writeback_skips_clean::<T>(base, slots, CAPACITY as nat, at, 0, k);
    }
    lemma_cell_of_untouched(ops, issued, key);
}

/// A slot that was never cached, or whose entry is preserved, adds nothing
/// to the write-back.
pub proof fn lemma_clean_slot_writes_nothing<T: Storable>(
    base: nat,
    at: nat,
    slot: Option<Entry<T>>,
)
    requires
        slot is None || slot.unwrap().state == EntryState::Preserved,
    ensures
        slot_ops::<T>(base, at, slot) == Seq::<Op>::empty(),
{
}

/// Arrays whose slots write back the same, slot by slot, write back the
/// same.
pub proof fn lemma_writeback_by_slot<T: Storable>(
    base: nat,
    one: Seq<Option<Entry<T>>>,
    other: Seq<Option<Entry<T>>>,
    upto: nat,
)
    requires
        forall|i: int|
            0 <= i < upto ==> slot_ops::<T>(base, i as nat, one[i]) == slot_ops::<T>(
                base,
                i as nat,
                other[i],
            ),
    ensures
        writeback_ops::<T>(base, one, upto) == writeback_ops::<T>(base, other, upto),
    decreases upto,
{
    if upto > 0 {
        lemma_writeback_by_slot::<T>(base, one, other, (upto - 1) as nat);
    }
}

/// Reading is idempotent. Let `once` be `before` after a read of slot `at`,
/// and `twice` be `once` after another read of it. Then the second read
/// gives the value that the first gave and leaves the cache as it was, and
/// neither read changes what a write-back would issue.
pub proof fn lemma_read_idempotent<T: Storable>(
    before: &LazyArray<T>,
    once: &LazyArray<T>,
    twice: &LazyArray<T>,
    ops: Seq<Op>,
    at: Index,
    base: nat,
)
    requires
        before.wf(),
        before.can_load(at),
        once.spec_key() == before.spec_key(),
        once@ == before@.update(at as int, Some(before.loaded(ops, at))),
        twice.spec_key() == once.spec_key(),
        twice@ == once@.update(at as int, Some(once.loaded(ops, at))),
    ensures
        once.loaded(ops, at) == before.loaded(ops, at),
        twice@ == once@,
        writeback_ops::<T>(base, once@, CAPACITY as nat) == writeback_ops::<T>(
            base,
            before@,
            CAPACITY as nat,
        ),
        writeback_ops::<T>(base, twice@, CAPACITY as nat) == writeback_ops::<T>(
            base,
            before@,
            CAPACITY as nat,
        ),
{
    assert(twice@ =~= once@);
    lemma_writeback_by_slot::<T>(base, once@, before@, CAPACITY as nat);
}

/// Swapping twice restores the values. Let `once` be `before` after
/// `swap(a, b)` with `a != b`, and `twice` be `once` after the same swap.
/// Then slots `a` and `b` of `twice` hold the values that a read of
/// `before` gives for them.
pub proof fn lemma_swap_twice<T: Storable>(
    before: &LazyArray<T>,
    once: &LazyArray<T>,
    twice: &LazyArray<T>,
    ops: Seq<Op>,
    a: Index,
    b: Index,
)
    requires
        before.wf(),
        a != b,
        before.can_load(a),
        before.can_load(b),
        once.spec_key() == before.spec_key(),
        once@ == before.swapped(ops, a, b),
        twice.spec_key() == once.spec_key(),
        twice@ == once.swapped(ops, a, b),
    ensures
        twice@[a as int] is Some,
        twice@[b as int] is Some,
        twice@[a as int].unwrap().value == before.loaded(ops, a).value,
        twice@[b as int].unwrap().value == before.loaded(ops, b).value,
        forall|i: int|
            0 <= i < CAPACITY && i != a && i != b ==> twice@[i] == before@[i],
{
}

/// What was written back is what a fresh array reads. Where slot `at` of an
/// array is mutated, then after a write-back of the array at `base`, on top
/// of any earlier operations `ops`, the store holds the slot's value at the
/// slot's key: it is what an array bound to `base`, with nothing cached,
/// reads for slot `at`.
pub proof fn lemma_writeback_round_trip<T: Storable>(
    array: &LazyArray<T>,
    fresh: &LazyArray<T>,
    ops: Seq<Op>,
    base: Key,
    at: Index,
)
    requires
        array.wf(),
        at < CAPACITY,
        array@[at as int] is Some,
        array@[at as int].unwrap().state == EntryState::Mutated,
        fresh.wf(),
        fresh.spec_key() == Some(base),
        fresh@[at as int] is None,
    ensures
        fresh.loaded(ops + writeback_ops::<T>(base@, array@, CAPACITY as nat), at).value
            == array@[at as int].unwrap().value,
{
    lemma_written_slot_stays::<T>(base@, array@, ops, at as nat, CAPACITY as nat);
}

/// After the write-back of the first `upto` slots, past slot `at`, the
/// store holds the value of the mutated slot `at` at the slot's key.
proof fn lemma_written_slot_stays<T: Storable>(
    base: nat,
    slots: Seq<Option<Entry<T>>>,
    ops: Seq<Op>,
    at: nat,
    upto: nat,
)
    requires
        slots.len() == CAPACITY,
        at < upto <= CAPACITY,
        slots[at as int] is Some,
        slots[at as int].unwrap().state == EntryState::Mutated,
    ensures
        stored::<T>(
            ops + writeback_ops::<T>(base, slots, upto),
            slot_key(base, at, T::spec_footprint()),
        ) == slots[at as int].unwrap().value,
    decreases upto,
{
    T::lemma_footprint();
    let footprint = T::spec_footprint();
    let key = slot_key(base, at, footprint);
    let front = writeback_ops::<T>(base, slots, (upto - 1) as nat);
    let last = slot_ops::<T>(base, (upto - 1) as nat, slots[upto - 1]);
    assert(ops + writeback_ops::<T>(base, slots, upto) =~= (ops + front) + last);
    if upto == at + 1 {
        lemma_offset_key_in_space(base, at * footprint);
        lemma_push_pull_round_trip::<T>(ops + front, key, slots[at as int].unwrap().value);
    } else {
        lemma_written_slot_stays::<T>(base, slots, ops, at, (upto - 1) as nat);
        assert forall|k: int| 0 <= k < last.len() implies (#[trigger] last[k]).key != key by {
            let cell = lemma_slot_op_key::<T>(base, (upto - 1) as nat, slots[upto - 1], k);
            lemma_slot_cells_apart(base, footprint, (upto - 1) as nat, cell, at, 0);
        }
        lemma_cell_of_untouched(ops + front, last, key);
    }
}

} // verus!
