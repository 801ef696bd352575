//! A single storage slot that is loaded on first access.

use vstd::prelude::*;
use crate::entry::{Entry, EntryState};
use crate::key::{Key, KeyPtr, lemma_key_in_space, offset_key};
use crate::layout::{
    Storable, clear_at, clear_ops, lemma_push_pull_round_trip, pull_at, push_at, push_ops, stored,
};
use crate::store::{Op, Store};

verus! {

/// What writing back a cell issues at `key`: nothing for a cell that was
/// never cached or whose entry is preserved; for a mutated entry, what puts
/// its value at `key`.
pub open spec fn cell_ops<T: Storable>(key: nat, cache: Option<Entry<T>>) -> Seq<Op> {
    match cache {
        Some(entry) => if entry.state == EntryState::Mutated {
            push_ops(key, entry.value)
        } else {
            Seq::empty()
        },
        None => Seq::empty(),
    }
}

/// One storage slot of `T`, read from the store on first access and written
/// back only if it was changed.
///
/// Its view is the cached entry, if the slot was read or written yet.
#[derive(Debug)]
pub struct LazyCell<T> {
    key: Option<Key>,
    cache: Option<Entry<T>>,
}

impl<T> View for LazyCell<T> {
    type V = Option<Entry<T>>;

    closed spec fn view(&self) -> Option<Entry<T>> {
        self.cache
    }
}

impl<T> LazyCell<T> {
    /// The key of the slot, or `None` for a cell that was made in memory.
    pub closed spec fn spec_key(&self) -> Option<Key> {
        self.key
    }

    /// The cell can be read: it is cached, or it has a key to load from.
    pub open spec fn can_load(&self) -> bool {
        self@ is Some || self.spec_key() is Some
    }

    /// The cell that holds `value` in memory and has no key.
    pub closed spec fn spec_new(value: Option<T>) -> Self {
        LazyCell { key: None, cache: Some(Entry { value, state: EntryState::Mutated }) }
    }

    /// A cell that holds `value` in memory and has no key. Its entry is
    /// mutated: the value was never in the store.
    pub fn new(value: Option<T>) -> (cell: Self)
        ensures
            cell == Self::spec_new(value),
            cell.spec_key() is None,
            cell@ == Some(Entry { value, state: EntryState::Mutated }),
    {
        LazyCell { key: None, cache: Some(Entry::new(value, EntryState::Mutated)) }
    }

    /// A cell for the slot at `key`, not read yet.
    pub fn lazy(key: Key) -> (cell: Self)
        ensures
            cell.spec_key() == Some(key),
            cell@ is None,
    {
        LazyCell { key: Some(key), cache: None }
    }

    /// The key of the slot, if the cell has one.
    pub fn key(&self) -> (key: Option<&Key>)
        ensures
            match key {
                Some(k) => self.spec_key() == Some(*k),
                None => self.spec_key() is None,
            },
    {
        self.key.as_ref()
    }

    /// Caches `value` as a mutated entry, without reading what the slot
    /// held.
    pub fn set(&mut self, value: Option<T>)
        ensures
            final(self).spec_key() == old(self).spec_key(),
            final(self)@ == Some(Entry { value, state: EntryState::Mutated }),
    {
        self.cache = Some(Entry::new(value, EntryState::Mutated));
    }

    /// The cached entry, if the slot was read or written yet, open to
    /// change.
    pub fn entry_mut(&mut self) -> (entry: Option<&mut Entry<T>>)
        ensures
            final(self).spec_key() == old(self).spec_key(),
            match entry {
                Some(e) => old(self)@ == Some(*e) && final(self)@ == Some(*final(e)),
                None => old(self)@ is None && final(self)@ is None,
            },
    {
        self.cache.as_mut()
    }

    /// The cached entry, if the slot was read or written yet.
    pub fn entry(&self) -> (entry: Option<&Entry<T>>)
        ensures
            match entry {
                Some(e) => self@ == Some(*e),
                None => self@ is None,
            },
    {
        self.cache.as_ref()
    }
}

impl<T: Storable> LazyCell<T> {
    /// The entry of the cell once it was read: the cached one, or, for a
    /// cell not cached yet, what the store holds at its key, as a preserved
    /// entry.
    pub open spec fn loaded(&self, ops: Seq<Op>) -> Entry<T> {
        match self@ {
            Some(entry) => entry,
            None => Entry {
                value: stored::<T>(ops, self.spec_key().unwrap()@),
                state: EntryState::Preserved,
            },
        }
    }

    /// A cell for the slot at the cursor, not read yet. The cursor moves
    /// past the slot.
    pub fn pull_forward(ptr: &mut KeyPtr) -> (cell: Self)
        ensures
            cell.spec_key() == Some(old(ptr).key),
            cell@ is None,
            final(ptr).key@ == offset_key(old(ptr).key@, T::spec_footprint()),
    {
        Self::lazy(ptr.next_for(T::footprint()))
    }

    /// Writes the cell back to the store at the cursor: nothing if it was
    /// never cached or its entry is preserved; for a mutated entry one write
    /// of its value, or, where it holds no value, a clear of every cell of
    /// the slot. The cursor moves past the slot.
    pub fn push_forward(&self, store: &mut Store, ptr: &mut KeyPtr)
        ensures
            final(store)@ == old(store)@ + cell_ops::<T>(old(ptr).key@, self@),
            final(ptr).key@ == offset_key(old(ptr).key@, T::spec_footprint()),
    {
        let key = ptr.next_for(T::footprint());
        match &self.cache {
            Some(entry) => {
                if entry.is_mutated() {
                    push_at(entry.value(), store, &key);
                } else {
                    proof {
                        assert(store@ =~= old(store)@ + cell_ops::<T>(key@, self@));
                    }
                }
            },
            None => {
                proof {
                    assert(store@ =~= old(store)@ + cell_ops::<T>(key@, self@));
                }
            },
        }
    }

    /// Clears every cell of the slot at the cursor, whatever the cell has
    /// cached. The cursor moves past the slot.
    pub fn clear_forward(&self, store: &mut Store, ptr: &mut KeyPtr)
        ensures
            final(store)@ == old(store)@ + clear_ops(old(ptr).key@, T::spec_footprint()),
            final(ptr).key@ == offset_key(old(ptr).key@, T::spec_footprint()),
    {
        let key = ptr.next_for(T::footprint());
        clear_at(store, &key, T::footprint());
    }

    /// Makes sure that the cell is cached: a cell not cached yet is read
    /// from the store and cached as a preserved entry; a cached cell stays
    /// as it is.
    pub fn load(&mut self, store: &Store)
        requires
            old(self).can_load(),
        ensures
            final(self).spec_key() == old(self).spec_key(),
            final(self)@ == Some(old(self).loaded(store@)),
    {
        if self.cache.is_none() {
            let key = self.key.unwrap();
            let value = pull_at::<T>(store, &key);
            self.cache = Some(Entry::new(value, EntryState::Preserved));
        }
    }

    /// The value of the cell, read from the store if it was not cached.
    pub fn get(&mut self, store: &Store) -> (value: Option<&T>)
        requires
            old(self).can_load(),
        ensures
            final(self).spec_key() == old(self).spec_key(),
            final(self)@ == Some(old(self).loaded(store@)),
            match value {
                Some(v) => old(self).loaded(store@).value == Some(*v),
                None => old(self).loaded(store@).value is None,
            },
    {
        self.load(store);
        self.cache.as_ref().unwrap().value().as_ref()
    }

    /// The value of the cell, read from the store if it was not cached, open
    /// to change. The cell counts as mutated from here on.
    pub fn get_mut(&mut self, store: &Store) -> (value: Option<&mut T>)
        requires
            old(self).can_load(),
        ensures
            final(self).spec_key() == old(self).spec_key(),
            match value {
                Some(v) => old(self).loaded(store@).value == Some(*v) && final(self)@ == Some(
                    Entry { value: Some(*final(v)), state: EntryState::Mutated },
                ),
                None => old(self).loaded(store@).value is None && final(self)@ == Some(
                    Entry::<T> { value: None, state: EntryState::Mutated },
                ),
            },
    {
        self.load(store);
        self.cache.as_mut().unwrap().value_mut().as_mut()
    }
}

/// What was written back is what a fresh cell reads. Where the entry of a
/// cell is mutated, then after a write-back of the cell at `key`, on top of
/// any earlier operations `ops`, a cell bound to `key` with nothing cached
/// reads the value that was written back.
pub proof fn lemma_cell_round_trip<T: Storable>(
    cell: &LazyCell<T>,
    fresh: &LazyCell<T>,
    ops: Seq<Op>,
    key: Key,
)
    requires
        cell@ is Some,
        cell@.unwrap().state == EntryState::Mutated,
        fresh@ is None,
        fresh.spec_key() == Some(key),
    ensures
        fresh.loaded(ops + cell_ops::<T>(key@, cell@)).value == cell@.unwrap().value,
{
    lemma_key_in_space(key);
    lemma_push_pull_round_trip::<T>(ops, key@, cell@.unwrap().value);
}

/// Reading is idempotent. Let `once` be `before` after a read, and `twice`
/// be `once` after another read. Then the second read gives the value that
/// the first gave and leaves the cell as it was, and neither read changes
/// what a write-back would issue.
pub proof fn lemma_cell_read_idempotent<T: Storable>(
    before: &LazyCell<T>,
    once: &LazyCell<T>,
    twice: &LazyCell<T>,
    ops: Seq<Op>,
    key: nat,
)
    requires
        before.can_load(),
        once.spec_key() == before.spec_key(),
        once@ == Some(before.loaded(ops)),
        twice.spec_key() == once.spec_key(),
        twice@ == Some(once.loaded(ops)),
    ensures
        once.loaded(ops) == before.loaded(ops),
        twice@ == once@,
        cell_ops::<T>(key, once@) == cell_ops::<T>(key, before@),
        cell_ops::<T>(key, twice@) == cell_ops::<T>(key, before@),
{
}

} // verus!
