//! A storage value that is loaded on first use.

use vstd::prelude::*;
use crate::entry::{Entry, EntryState};
use crate::key::{Key, KeyPtr, offset_key};
use crate::layout::{Storable, clear_ops};
use crate::lazy_cell::{LazyCell, cell_ops};
use crate::store::{Op, Store};

verus! {

/// A value of `T` in the store that is read on first use and written back
/// only if it was changed.
///
/// Its view is the cached entry, if the value was read or written yet.
#[derive(Debug)]
pub struct Lazy<T> {
    cell: LazyCell<T>,
}

impl<T> View for Lazy<T> {
    type V = Option<Entry<T>>;

    closed spec fn view(&self) -> Option<Entry<T>> {
        self.cell@
    }
}

impl<T> Lazy<T> {
    /// The key of the value, or `None` for one that was made in memory.
    pub closed spec fn spec_key(&self) -> Option<Key> {
        self.cell.spec_key()
    }

    /// The lazy value that holds `value` in memory and has no key.
    pub closed spec fn spec_new(value: T) -> Self {
        Lazy { cell: LazyCell::spec_new(Some(value)) }
    }

    /// A lazy value that holds `value` in memory and has no key.
    #[must_use]
    pub fn new(value: T) -> (lazy: Self)
        ensures
            lazy == Self::spec_new(value),
            lazy.spec_key() is None,
            lazy@ == Some(Entry { value: Some(value), state: EntryState::Mutated }),
    {
        Lazy { cell: LazyCell::new(Some(value)) }
    }

    /// A lazy value for the slot at `key`, not read yet.
    #[must_use]
    pub fn lazy(key: Key) -> (lazy: Self)
        ensures
            lazy.spec_key() == Some(key),
            lazy@ is None,
    {
        Lazy { cell: LazyCell::lazy(key) }
    }
}

impl<T> Lazy<T> {
    /// The cached value, without reading the store: `None` where nothing
    /// is cached or the cached entry holds no value.
    pub fn cached(&self) -> (value: Option<&T>)
        ensures
            match value {
                Some(v) => self@ is Some && self@.unwrap().value == Some(*v),
                None => self@ is None || self@.unwrap().value is None,
            },
    {
        match self.cell.entry() {
            Some(entry) => entry.value().as_ref(),
            None => None,
        }
    }

    /// Replaces the value without reading what the store holds. The value
    /// counts as mutated.
    pub fn set(lazy: &mut Self, value: T)
        ensures
            final(lazy).spec_key() == old(lazy).spec_key(),
            final(lazy)@ == Some(Entry { value: Some(value), state: EntryState::Mutated }),
    {
        lazy.cell.set(Some(value));
    }
}

impl<T: Storable> Lazy<T> {
    /// The entry once the value was read: the cached one, or, for a value
    /// not cached yet, what the store holds at its key, as a preserved
    /// entry.
    pub open spec fn loaded(&self, ops: Seq<Op>) -> Entry<T> {
        match self@ {
            Some(entry) => entry,
            None => Entry {
                value: crate::layout::stored::<T>(ops, self.spec_key().unwrap()@),
                state: EntryState::Preserved,
            },
        }
    }

    /// A value can be had: one is cached, or the store holds one at the key.
    pub open spec fn has_value(&self, ops: Seq<Op>) -> bool {
        (self@ is Some || self.spec_key() is Some) && self.loaded(ops).value is Some
    }

    /// A lazy value for the slot at the cursor, not read yet. The cursor
    /// moves past the slot.
    pub fn pull_forward(ptr: &mut KeyPtr) -> (lazy: Self)
        ensures
            lazy.spec_key() == Some(old(ptr).key),
            lazy@ is None,
            final(ptr).key@ == offset_key(old(ptr).key@, T::spec_footprint()),
    {
        Lazy { cell: LazyCell::pull_forward(ptr) }
    }

    /// Writes the value back to the store at the cursor, if it was changed.
    /// The cursor moves past the slot.
    pub fn push_forward(&self, store: &mut Store, ptr: &mut KeyPtr)
        ensures
            final(store)@ == old(store)@ + cell_ops::<T>(old(ptr).key@, self@),
            final(ptr).key@ == offset_key(old(ptr).key@, T::spec_footprint()),
    {
        self.cell.push_forward(store, ptr)
    }

    /// Clears every cell of the slot at the cursor. The cursor moves past
    /// the slot.
    pub fn clear_forward(&self, store: &mut Store, ptr: &mut KeyPtr)
        ensures
            final(store)@ == old(store)@ + clear_ops(old(ptr).key@, T::spec_footprint()),
            final(ptr).key@ == offset_key(old(ptr).key@, T::spec_footprint()),
    {
        self.cell.clear_forward(store, ptr)
    }

    /// The value, read from the store if it was not cached, or `None`
    /// where the store holds none.
    pub fn load(&mut self, store: &Store) -> (value: Option<&T>)
        requires
            old(self)@ is Some || old(self).spec_key() is Some,
        ensures
            final(self).spec_key() == old(self).spec_key(),
            final(self)@ == Some(old(self).loaded(store@)),
            match value {
                Some(v) => old(self).loaded(store@).value == Some(*v),
                None => old(self).loaded(store@).value is None,
            },
    {
        self.cell.get(store)
    }

    /// The value, read from the store if it was not cached.
    #[must_use]
    pub fn get<'a>(lazy: &'a mut Self, store: &Store) -> (value: &'a T)
        requires
            old(lazy).has_value(store@),
        ensures
            final(lazy).spec_key() == old(lazy).spec_key(),
            final(lazy)@ == Some(old(lazy).loaded(store@)),
            old(lazy).loaded(store@).value == Some(*value),
    {
        lazy.cell.get(store).unwrap()
    }

    /// The value, read from the store if it was not cached, open to change.
    /// The value counts as mutated from here on.
    #[must_use]
    pub fn get_mut<'a>(lazy: &'a mut Self, store: &Store) -> (value: &'a mut T)
        requires
            old(lazy).has_value(store@),
        ensures
            final(lazy).spec_key() == old(lazy).spec_key(),
            old(lazy).loaded(store@).value == Some(*value),
            final(lazy)@ == Some(Entry { value: Some(*final(value)), state: EntryState::Mutated }),
    {
        lazy.cell.get_mut(store).unwrap()
    }
}

impl<T> From<T> for Lazy<T> {
    /// A lazy value that holds `value` in memory, as `new` makes it.
    fn from(value: T) -> (lazy: Self) {
        Self::new(value)
    }
}

impl<T> vstd::std_specs::convert::FromSpecImpl<T> for Lazy<T> {
    open spec fn obeys_from_spec() -> bool {
        true
    }

    open spec fn from_spec(value: T) -> Self {
        Self::spec_new(value)
    }
}

impl<T: Default> Default for Lazy<T> {
    /// A lazy value that holds the default of `T` in memory.
    fn default() -> (lazy: Self)
        ensures
            lazy.spec_key() is None,
            lazy@ is Some,
            lazy@.unwrap().value is Some,
            lazy@.unwrap().state == EntryState::Mutated,
    {
        Self::new(T::default())
    }
}

} // verus!
