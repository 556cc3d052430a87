//! A growable container with stable indices and constant-time removal.
//!
//! Removing an element leaves an empty slot behind instead of shifting the
//! elements after it, so an index keeps denoting the same element until that
//! element is removed. The price is memory: empty slots are only reclaimed by
//! an explicit compaction.
//!
//! The container, [`StableVecFacade`], is generic over the store that holds
//! its slots, any implementation of [`Core`]. Every operation carries a
//! contract over the sequence of slots, a `Seq<Option<T>>` with one entry per
//! index below the capacity.
//!
//! - [`store`]: what a store has to provide, and the two stores: one that
//!   tracks the filled slots in a vector of bits, one that keeps each slot as
//!   an `Option`.
//! - [`facade`]: the container, with its growth policy and the two
//!   compactions.
//! - [`iter`]: cursors over the elements and over their indices.
//! - [`model`]: the functions on sequences of slots that the contracts are
//!   stated over, and what is proved of them.
//! - [`laws`]: what holds over more than one operation: stable indices, the
//!   count of elements, what the compactions keep.
//! - [`mono`]: the container's operations at a fixed element type.

use vstd::prelude::*;

pub mod facade;
pub mod iter;
pub mod laws;
pub mod model;
pub mod mono;
pub mod store;

pub use facade::StableVecFacade;
pub use store::{BitVecCore, Core, DefaultCore, OptionCore};

verus! {

/// A container with the default store.
pub type StableVec<T> = StableVecFacade<T, DefaultCore<T>>;

/// A container that keeps each slot as one `Option<T>`.
///
/// This suits an element type for which `Option<T>` is no larger than `T`.
pub type InlineStableVec<T> = StableVecFacade<T, OptionCore<T>>;

/// A container that keeps the elements in one buffer and, in a second one,
/// one bit per slot that tells whether the slot is filled.
pub type ExternStableVec<T> = StableVecFacade<T, BitVecCore<T>>;

} // verus!
