//! A pool over a borrowed slice.
//!
//! The pool does not own its storage: it holds the exclusive borrow of a
//! slice for as long as it lives.

use vstd::prelude::*;
use crate::owned::{PoolVal, Sliceable, SlicePool};

verus! {

/// Implements the trait for mutably borrowed slices.
impl<'a, T> Sliceable<T> for &'a mut [T] {
    open spec fn elements(&self) -> Seq<T> {
        (**self)@
    }

    fn as_slice(&self) -> (slice: &[T]) {
        &**self
    }

    fn as_mut_slice(&mut self) -> (slice: &mut [T]) {
        &mut **self
    }
}

/// An interface for allocating chunks in a referenced slice.
pub type SlicePoolRef<'a, T> = SlicePool<T, &'a mut [T]>;

/// A reference to an allocated chunk of a `SlicePoolRef`.
pub type PoolRef = PoolVal;

} // verus!
