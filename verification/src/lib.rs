//! A lazy caching layer over a key-addressed cell store.
//!
//! Values live in a persistent store of cells, each addressed by a [`key::Key`].
//! The lazy structures of this crate read a cell on first access only, keep
//! track of what was changed in memory, and write back nothing but the changes.

pub mod key;
pub mod store;
pub mod layout;
pub mod entry;
pub mod lazy_array;
pub mod lazy_cell;
pub mod lazy;
pub mod bits256;
pub mod bitvec;
