//! A pool that owns its storage.
//!
//! The pool hands out allocations as handles. A handle names the index
//! range of one occupied chunk; the pool turns it into a view of exactly
//! that part of the storage. Handles cannot be copied, and releasing one
//! consumes it, so a range is never released twice.

use vstd::prelude::*;
use vstd::slice::slice_subrange;
use core::marker::PhantomData;
use crate::Chunk;
use crate::chain::{
    ChunkChain, allocated_at, carved, fits, is_best_fit, lemma_offsets_distinct, occupied_at,
    released_at, span, well_formed,
};
use crate::laws::{
    lemma_allocate_keeps_live, lemma_exclusive, lemma_live_in_bounds, lemma_live_occupied,
    lemma_oversized_never_fits, lemma_release_keeps_live, lemma_spliced, live, spliced,
};

verus! {

/// Interface for any object whose elements a pool can lay out as one slice.
pub trait Sliceable<T> {
    /// The elements of the storage, in order.
    spec fn elements(&self) -> Seq<T>;

    /// The storage as a slice.
    fn as_slice(&self) -> (slice: &[T])
        ensures
            slice@ == self.elements(),
    ;

    /// The storage as a mutable slice. What is written to the slice is
    /// written to the storage.
    fn as_mut_slice(&mut self) -> (slice: &mut [T])
        ensures
            slice@ == old(self).elements(),
            final(slice)@ == final(self).elements(),
    ;
}

/// Implements the trait for vectors.
impl<T> Sliceable<T> for Vec<T> {
    open spec fn elements(&self) -> Seq<T> {
        self@
    }

    fn as_slice(&self) -> (slice: &[T]) {
        Vec::as_slice(self)
    }

    fn as_mut_slice(&mut self) -> (slice: &mut [T]) {
        Vec::as_mut_slice(self)
    }
}

/// Implements the trait for arrays.
impl<T, const N: usize> Sliceable<T> for [T; N] {
    open spec fn elements(&self) -> Seq<T> {
        self@
    }

    fn as_slice(&self) -> (slice: &[T]) {
        vstd::array::array_as_slice(self)
    }

    fn as_mut_slice(&mut self) -> (slice: &mut [T]) {
        vstd::array::ref_mut_array_unsizing_coercion(self)
    }
}

/// An allocated chunk of a `SlicePool`: the handle to one occupied chunk.
#[derive(Debug)]
pub struct PoolVal {
    offset: usize,
    size: usize,
}

impl PoolVal {
    /// The occupied chunk that the handle stands for.
    pub closed spec fn chunk(&self) -> Chunk {
        Chunk { offset: self.offset, size: self.size, free: false }
    }

    /// The index of the storage at which the allocation starts.
    pub fn offset(&self) -> (offset: usize)
        ensures
            offset == self.chunk().offset,
    {
        self.offset
    }

    /// The number of elements of the allocation.
    pub fn len(&self) -> (len: usize)
        ensures
            len == self.chunk().size,
    {
        self.size
    }
}

/// An interface for allocating chunks in an owned slice.
pub struct SlicePool<T, S: Sliceable<T>> {
    chain: ChunkChain,
    slice: S,
    marker: PhantomData<T>,
}

impl<T, S: Sliceable<T>> View for SlicePool<T, S> {
    type V = Seq<T>;

    /// The elements of the underlying storage.
    closed spec fn view(&self) -> Seq<T> {
        self.slice.elements()
    }
}

impl<T, S: Sliceable<T>> SlicePool<T, S> {
    /// The chunks into which the storage is currently partitioned.
    pub closed spec fn chunks(&self) -> Seq<Chunk> {
        self.chain@
    }

    /// The invariant of the pool: its chain is well-formed and spans the
    /// storage.
    pub open spec fn wf(&self) -> bool {
        &&& well_formed(self.chunks())
        &&& span(self.chunks()) == self@.len()
    }

    /// Whether `handle` is a live allocation of this pool.
    pub open spec fn holds(&self, handle: &PoolVal) -> bool {
        live(self.chunks(), handle.chunk())
    }

    /// The part of the storage that `handle` gives access to.
    pub open spec fn view_of(&self, handle: &PoolVal) -> Seq<T> {
        self@.subrange(handle.chunk().offset as int, handle.chunk().end())
    }

    /// Two live allocations of the pool that are not the same allocation
    /// share no index, so what is written through one is not seen through
    /// the other.
    pub proof fn lemma_exclusive_views(&self, first: &PoolVal, second: &PoolVal)
        requires
            self.wf(),
            self.holds(first),
            self.holds(second),
            first.chunk() != second.chunk(),
        ensures
            first.chunk().end() <= second.chunk().offset || second.chunk().end()
                <= first.chunk().offset,
            forall|written: Seq<T>|
                written.len() == first.chunk().size ==> (#[trigger] spliced(
                    self@,
                    first.chunk().offset as int,
                    first.chunk().end(),
                    written,
                )).subrange(second.chunk().offset as int, second.chunk().end()) == self.view_of(
                    second,
                ),
    {
        lemma_exclusive(self.chunks(), first.chunk(), second.chunk());
        lemma_live_in_bounds(self.chunks(), first.chunk());
        lemma_live_in_bounds(self.chunks(), second.chunk());
        let from = first.chunk().offset as int;
        let to = first.chunk().end();
        assert forall|written: Seq<T>| written.len() == to - from implies (#[trigger] spliced(
            self@,
            from,
            to,
            written,
        )).subrange(second.chunk().offset as int, second.chunk().end()) == self.view_of(second) by {
            lemma_spliced(self@, from, to, written);
        }
    }

    /// Constructs a new owned slice pool from a sliceable object. Nothing is
    /// allocated in it.
    pub fn new(slice: S) -> (pool: Self)
        ensures
            pool.wf(),
            pool@ == slice.elements(),
            pool.chunks() == seq![
                Chunk { offset: 0, size: slice.elements().len() as usize, free: true },
            ],
    {
        let size = slice.as_slice().len();
        SlicePool { chain: ChunkChain::new(size), slice, marker: PhantomData }
    }

    /// Returns the size of the underlying slice.
    pub fn len(&self) -> (len: usize)
        ensures
            len == self@.len(),
    {
        self.slice.as_slice().len()
    }

    /// The chain that records which parts of the storage are allocated.
    pub fn chain(&self) -> (chain: &ChunkChain)
        ensures
            chain@ == self.chunks(),
    {
        &self.chain
    }

    /// Whether `handle` is a live allocation of this pool: the condition
    /// under which it gives access to the storage and may be released.
    pub fn owns(&self, handle: &PoolVal) -> (owned: bool)
        requires
            self.wf(),
        ensures
            owned == self.holds(handle),
    {
        let found = match self.chain.find(handle.offset) {
            Some(index) => self.chain.get(index),
            None => None,
        };
        match found {
            Some(chunk) => {
                let owned = !chunk.free && chunk.size == handle.size;
                proof {
                    let i = choose|i: int|
                        0 <= i < self.chain@.len() && self.chain@[i] == chunk && chunk.offset
                            == handle.chunk().offset;
                    if owned {
                        assert(self.chain@[i] == handle.chunk());
                    } else if self.holds(handle) {
                        let k = choose|k: int|
                            0 <= k < self.chain@.len() && self.chain@[k] == handle.chunk();
                        lemma_offsets_distinct(self.chain@, i, k);
                    }
                }
                owned
            },
            None => {
                proof {
                    if self.holds(handle) {
                        let k = choose|k: int|
                            0 <= k < self.chain@.len() && self.chain@[k] == handle.chunk();
                        assert(self.chain@[k].offset == handle.chunk().offset);
                    }
                }
                false
            },
        }
    }

    /// Allocates a new slice from the pool: `size` elements from the
    /// smallest free chunk that can hold them. The storage is left as it is,
    /// and so is every allocation made before.
    ///
    /// Returns `None` when no free chunk is large enough, which is always so
    /// for a request of more elements than the storage holds. A request for
    /// zero elements is refused.
    pub fn allocate(&mut self, size: usize) -> (res: Option<PoolVal>)
        requires
            old(self).wf(),
        ensures
            final(self).wf(),
            final(self)@ == old(self)@,
            res is None <==> size == 0 || forall|j: int|
                0 <= j < old(self).chunks().len() ==> !fits(old(self).chunks()[j], size),
            size > old(self)@.len() ==> res is None,
            res is None ==> final(self).chunks() == old(self).chunks(),
            res matches Some(handle) ==> {
                &&& final(self).holds(&handle)
                &&& !old(self).holds(&handle)
                &&& final(self).view_of(&handle).len() == size
                &&& exists|i: int|
                    {
                        &&& is_best_fit(old(self).chunks(), size, i)
                        &&& handle.chunk() == carved(old(self).chunks()[i], size)
                        &&& final(self).chunks() == allocated_at(old(self).chunks(), i, size)
                    }
            },
            forall|other: &PoolVal| old(self).holds(other) ==> #[trigger] final(self).holds(other),
    {
        let ghost before = self.chain@;
        match self.chain.allocate(size) {
            Some(chunk) => {
                let handle = PoolVal { offset: chunk.offset, size: chunk.size };
                proof {
                    let i = choose|i: int|
                        {
                            &&& is_best_fit(before, size, i)
                            &&& chunk == carved(before[i], size)
                            &&& self.chain@ == allocated_at(before, i, size)
                        };
                    lemma_allocate_keeps_live(before, i, size, chunk);
                    assert forall|other: &PoolVal|
                        old(self).holds(other) implies #[trigger] self.holds(other) by {
                        lemma_allocate_keeps_live(before, i, size, other.chunk());
                    }
                    if live(before, chunk) {
                        let k = choose|k: int| 0 <= k < before.len() && before[k] == chunk;
                        lemma_offsets_distinct(before, i, k);
                    }
                    lemma_live_in_bounds(self.chain@, chunk);
                }
                Some(handle)
            },
            None => {
                proof {
                    if size > self@.len() {
                        lemma_oversized_never_fits(before, size);
                    }
                }
                None
            },
        }
    }

    /// Returns the allocation of `handle` to the pool and ends the handle.
    /// The freed chunk merges with its free neighbours; the storage and all
    /// other allocations are left as they are.
    pub fn release(&mut self, handle: PoolVal)
        requires
            old(self).wf(),
            old(self).holds(&handle),
        ensures
            final(self).wf(),
            final(self)@ == old(self)@,
            !final(self).holds(&handle),
            forall|i: int|
                occupied_at(old(self).chunks(), handle.chunk().offset, i) ==> final(self).chunks()
                    == released_at(old(self).chunks(), i),
            forall|other: &PoolVal|
                old(self).holds(other) && other.chunk() != handle.chunk()
                    ==> #[trigger] final(self).holds(other),
            forall|other: &PoolVal| #[trigger]
                final(self).holds(other) ==> old(self).holds(other),
    {
        let ghost before = self.chain@;
        proof {
            lemma_live_occupied(before, handle.chunk());
        }
        self.chain.release(handle.offset);
        proof {
            let i = choose|i: int|
                occupied_at(before, handle.chunk().offset, i) && before[i] == handle.chunk();
            assert(self.chain@ == released_at(before, i));
            lemma_release_keeps_live(before, i, handle.chunk());
            assert forall|other: &PoolVal|
                old(self).holds(other) && other.chunk()
                    != handle.chunk() implies #[trigger] self.holds(other) by {
                lemma_release_keeps_live(before, i, other.chunk());
            }
            assert forall|other: &PoolVal| #[trigger] self.holds(other) implies old(self).holds(
                other,
            ) by {
                lemma_release_keeps_live(before, i, other.chunk());
            }
        }
    }

    /// The view of the allocation: the elements of the storage in the
    /// range of `handle`.
    pub fn slice(&self, handle: &PoolVal) -> (view: &[T])
        requires
            self.wf(),
            self.holds(handle),
        ensures
            view@ == self.view_of(handle),
    {
        proof {
            lemma_live_in_bounds(self.chain@, handle.chunk());
        }
        slice_subrange(self.slice.as_slice(), handle.offset, handle.offset + handle.size)
    }

    /// The element at position `index` of the allocation.
    pub fn get(&self, handle: &PoolVal, index: usize) -> (element: &T)
        requires
            self.wf(),
            self.holds(handle),
            index < handle.chunk().size,
        ensures
            *element == self.view_of(handle)[index as int],
            *element == self@[handle.chunk().offset + index],
    {
        proof {
            lemma_live_in_bounds(self.chain@, handle.chunk());
        }
        &self.slice.as_slice()[handle.offset + index]
    }

    /// Writes `value` to position `index` of the allocation. No element of
    /// the storage outside the allocation changes.
    pub fn set(&mut self, handle: &PoolVal, index: usize, value: T)
        requires
            old(self).wf(),
            old(self).holds(handle),
            index < handle.chunk().size,
        ensures
            final(self).wf(),
            final(self).chunks() == old(self).chunks(),
            final(self)@ == old(self)@.update(handle.chunk().offset + index, value),
            final(self).view_of(handle) == old(self).view_of(handle).update(index as int, value),
            forall|other: &PoolVal|
                old(self).holds(other) && other.chunk() != handle.chunk()
                    ==> #[trigger] final(self).view_of(other) == old(self).view_of(other),
    {
        proof {
            lemma_live_in_bounds(self.chain@, handle.chunk());
            let written = old(self)@.update(handle.chunk().offset + index, value);
            assert forall|other: &PoolVal|
                old(self).holds(other) && other.chunk() != handle.chunk() implies written.subrange(
                other.chunk().offset as int,
                other.chunk().end(),
            ) == old(self).view_of(other) by {
                lemma_exclusive(self.chain@, handle.chunk(), other.chunk());
                lemma_live_in_bounds(self.chain@, other.chunk());
                assert(written.subrange(other.chunk().offset as int, other.chunk().end())
                    =~= old(self).view_of(other));
            }
        }
        let slice = self.slice.as_mut_slice();
        slice[handle.offset + index] = value;
    }

    /// The mutable view of the allocation. What is written to the view is
    /// written to the storage in the range of `handle`, and nowhere else.
    pub fn slice_mut(&mut self, handle: &PoolVal) -> (view: &mut [T])
        requires
            old(self).wf(),
            old(self).holds(handle),
        ensures
            view@ == old(self).view_of(handle),
            final(self).chunks() == old(self).chunks(),
            final(self)@ == spliced(
                old(self)@,
                handle.chunk().offset as int,
                handle.chunk().end(),
                final(view)@,
            ),
            final(view)@.len() == view@.len() ==> final(self).wf(),
            final(view)@.len() == view@.len() ==> final(self).view_of(handle) == final(view)@,
    {
        proof {
            lemma_live_in_bounds(self.chain@, handle.chunk());
        }
        let slice = self.slice.as_mut_slice();
        let (_, rest) = slice.split_at_mut(handle.offset);
        let (view, _) = rest.split_at_mut(handle.size);
        assert(final(view)@.len() == view@.len() ==> spliced(
            old(self)@,
            handle.chunk().offset as int,
            handle.chunk().end(),
            final(view)@,
        ).len() == old(self)@.len() && spliced(
            old(self)@,
            handle.chunk().offset as int,
            handle.chunk().end(),
            final(view)@,
        ).subrange(handle.chunk().offset as int, handle.chunk().end()) == final(view)@) by {
            if final(view)@.len() == view@.len() {
                lemma_spliced(
                    old(self)@,
                    handle.chunk().offset as int,
                    handle.chunk().end(),
                    final(view)@,
                );
            }
        }
        view
    }
}

} // verus!
