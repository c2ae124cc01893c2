//! A sub-allocator over one contiguous block of homogeneous storage.
//!
//! A pool partitions the index range of a fixed-length buffer into
//! non-overlapping chunks. A chunk can be checked out, used as a
//! bounds-safe view of the buffer, and handed back; adjacent free chunks are
//! merged on release so that the buffer does not fragment.
//!
//! - [`chain`] holds the bookkeeping: which index ranges are free, which are
//!   occupied, best-fit allocation and coalescing release.
//! - [`owned`] is the pool that owns its storage, [`refd`] the pool over a
//!   borrowed slice. Both hand out handles and turn a handle into a view.
//! - [`laws`] states what holds of every chain: the invariant, the
//!   exclusivity of live allocations, and the round trip of an allocation
//!   that is released at once.

use vstd::prelude::*;

pub mod chain;
pub mod laws;
pub mod owned;
pub mod refd;

verus! {

/// A chunk of memory inside a slice: the half-open index range
/// `[offset, offset + size)`, tagged free or occupied.
#[derive(Debug, Copy, Clone, PartialEq, Eq, Structural)]
pub struct Chunk {
    pub offset: usize,
    pub size: usize,
    pub free: bool,
}

impl Chunk {
    /// The index one past the last index of the chunk.
    pub open spec fn end(self) -> int {
        self.offset + self.size
    }

    /// Whether index `i` lies inside the chunk.
    pub open spec fn contains(self, i: int) -> bool {
        self.offset <= i < self.end()
    }

    /// A free chunk of `size` elements that starts at index 0.
    pub fn new(size: usize) -> (chunk: Self)
        ensures
            chunk == (Chunk { offset: 0, size, free: true }),
    {
        Self::with_offset(size, 0)
    }

    /// A free chunk of `size` elements that starts at index `offset`.
    pub fn with_offset(size: usize, offset: usize) -> (chunk: Self)
        ensures
            chunk == (Chunk { offset, size, free: true }),
    {
        Chunk { size, offset, free: true }
    }
}

} // verus!
