//! The cached form of one storage slot.

use vstd::prelude::*;

verus! {

/// Whether a cached value differs from what the store holds.
#[derive(Clone, Copy, Debug, PartialEq, Eq, Structural)]
pub enum EntryState {
    /// The value is as it was loaded: nothing to write back.
    Preserved,
    /// The value may have been changed: it is written back.
    Mutated,
}

/// A cached value, present or absent, with its state.
#[derive(Debug)]
pub struct Entry<T> {
    /// The value, or `None` where the slot is empty.
    pub value: Option<T>,
    /// Whether the value has to be written back.
    pub state: EntryState,
}

impl<T> Entry<T> {
    /// An entry with the given value and state.
    pub fn new(value: Option<T>, state: EntryState) -> (entry: Entry<T>)
        ensures
            entry == (Entry { value, state }),
    {
        Entry { value, state }
    }

    /// Returns `true` if the entry has to be written back.
    pub fn is_mutated(&self) -> (r: bool)
        ensures
            r == (self.state == EntryState::Mutated),
    {
        match self.state {
            EntryState::Mutated => true,
            EntryState::Preserved => false,
        }
    }

    /// Sets the state and leaves the value as it is.
    pub fn set_state(&mut self, state: EntryState)
        ensures
            *final(self) == (Entry { value: old(self).value, state }),
    {
        self.state = state;
    }

    /// The value.
    pub fn value(&self) -> (value: &Option<T>)
        ensures
            *value == self.value,
    {
        &self.value
    }

    /// The value, open to change. The entry counts as mutated from here on,
    /// whatever the caller does with the reference.
    pub fn value_mut(&mut self) -> (value: &mut Option<T>)
        ensures
            *value == old(self).value,
            *final(self) == (Entry { value: *final(value), state: EntryState::Mutated }),
    {
        self.state = EntryState::Mutated;
        &mut self.value
    }

    /// Gives up the entry for its value.
    pub fn into_value(self) -> (value: Option<T>)
        ensures
            value == self.value,
    {
        self.value
    }

    /// Replaces the value, marks the entry as mutated and returns the value
    /// that was there.
    pub fn put(&mut self, new_value: Option<T>) -> (previous: Option<T>)
        ensures
            previous == old(self).value,
            *final(self) == (Entry { value: new_value, state: EntryState::Mutated }),
    {
        let mut incoming = new_value;
        core::mem::swap(&mut self.value, &mut incoming);
        self.state = EntryState::Mutated;
        incoming
    }

    /// Removes the value, marks the entry as mutated and returns the value
    /// that was there.
    pub fn take(&mut self) -> (previous: Option<T>)
        ensures
            previous == old(self).value,
            *final(self) == (Entry::<T> { value: None, state: EntryState::Mutated }),
    {
        self.state = EntryState::Mutated;
        self.value.take()
    }
}

} // verus!
