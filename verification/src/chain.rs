//! The chunk chain: the bookkeeping that says how the index range of a
//! buffer is currently partitioned into free and occupied chunks.
//!
//! The chain knows nothing of the buffer's contents. It hands out index
//! ranges by best fit and merges a released range with its free neighbours.

use vstd::prelude::*;
use crate::Chunk;

verus! {

/// Each chunk ends where the next one starts.
pub open spec fn contiguous(s: Seq<Chunk>) -> bool {
    forall|i: int, j: int|
        0 <= i && j == i + 1 && j < s.len() ==> (#[trigger] s[i]).end() == (#[trigger] s[j]).offset
}

/// No two neighbouring chunks are both free.
pub open spec fn coalesced(s: Seq<Chunk>) -> bool {
    forall|i: int, j: int|
        0 <= i && j == i + 1 && j < s.len() ==> !((#[trigger] s[i]).free && (#[trigger] s[j]).free)
}

/// Every chunk holds at least one index. The one exception is the chain of
/// an empty buffer, which is a single free chunk of size zero.
pub open spec fn populated(s: Seq<Chunk>) -> bool {
    forall|i: int| 0 <= i < s.len() ==> (#[trigger] s[i]).size > 0 || (s.len() == 1 && s[i].free)
}

/// The number of indices that the chunks of `s` cover.
pub open spec fn span(s: Seq<Chunk>) -> int {
    s.last().end()
}

/// The invariant of a chain: its chunks start at index 0, are contiguous,
/// are non-empty, and no two adjacent chunks are both free.
pub open spec fn well_formed(s: Seq<Chunk>) -> bool {
    &&& s.len() > 0
    &&& s[0].offset == 0
    &&& span(s) <= usize::MAX
    &&& contiguous(s)
    &&& coalesced(s)
    &&& populated(s)
}

/// Whether a request for `size` indices can be served from chunk `c`.
pub open spec fn fits(c: Chunk, size: usize) -> bool {
    c.free && c.size >= size
}

/// Chunk `i` is the smallest free chunk of `s` that holds `size` indices,
/// and the first such chunk among those of equal size.
pub open spec fn is_best_fit(s: Seq<Chunk>, size: usize, i: int) -> bool {
    &&& 0 <= i < s.len()
    &&& fits(s[i], size)
    &&& forall|j: int|
        0 <= j < s.len() && fits(#[trigger] s[j], size) ==> s[i].size < s[j].size || (s[i].size
            == s[j].size && i <= j)
}

/// The occupied chunk that a request for `size` indices carves out of the
/// front of chunk `c`.
pub open spec fn carved(c: Chunk, size: usize) -> Chunk {
    Chunk { offset: c.offset, size, free: false }
}

/// The free chunk that is left of `c` behind its first `size` indices.
pub open spec fn surplus(c: Chunk, size: usize) -> Chunk {
    Chunk { offset: (c.offset + size) as usize, size: (c.size - size) as usize, free: true }
}

/// The chain `s` after `size` indices were taken from the front of chunk
/// `i`: the chunk is occupied in place when it has exactly that size, and
/// is split in an occupied chunk and a free remainder otherwise.
pub open spec fn allocated_at(s: Seq<Chunk>, i: int, size: usize) -> Seq<Chunk> {
    if s[i].size == size {
        s.update(i, carved(s[i], size))
    } else {
        s.update(i, carved(s[i], size)).insert(i + 1, surplus(s[i], size))
    }
}

/// The first of the chunks that merge when chunk `i` is released.
pub open spec fn merge_start(s: Seq<Chunk>, i: int) -> int {
    if i > 0 && s[i - 1].free {
        i - 1
    } else {
        i
    }
}

/// The last of the chunks that merge when chunk `i` is released.
pub open spec fn merge_end(s: Seq<Chunk>, i: int) -> int {
    if i + 1 < s.len() && s[i + 1].free {
        i + 1
    } else {
        i
    }
}

/// The free chunk that spans chunks `start` to `end` of `s`.
pub open spec fn merged(s: Seq<Chunk>, start: int, end: int) -> Chunk {
    Chunk {
        offset: s[start].offset,
        size: (s[end].end() - s[start].offset) as usize,
        free: true,
    }
}

/// The chain `s` after chunk `i` was released: the chunk and those of its
/// two neighbours that are free are replaced by one free chunk.
pub open spec fn released_at(s: Seq<Chunk>, i: int) -> Seq<Chunk> {
    let start = merge_start(s, i);
    let end = merge_end(s, i);
    s.subrange(0, start).push(merged(s, start, end)) + s.subrange(end + 1, s.len() as int)
}

/// Chunk `i` of `s` is occupied and starts at index `offset`.
pub open spec fn occupied_at(s: Seq<Chunk>, offset: usize, i: int) -> bool {
    0 <= i < s.len() && s[i].offset == offset && !s[i].free
}

/// Chain `t` is what a successful allocation of `size` indices makes of `s`.
pub open spec fn allocates(s: Seq<Chunk>, size: usize, t: Seq<Chunk>) -> bool {
    size > 0 && exists|i: int| is_best_fit(s, size, i) && t == allocated_at(s, i, size)
}

/// Chain `t` is what the release of the occupied chunk at `offset` makes of
/// `s`.
pub open spec fn releases(s: Seq<Chunk>, offset: usize, t: Seq<Chunk>) -> bool {
    exists|i: int| occupied_at(s, offset, i) && t == released_at(s, i)
}

/// Chain `t` follows from `s` by one call: an allocation that succeeds, one
/// that is refused and changes nothing, or a release.
pub open spec fn step(s: Seq<Chunk>, t: Seq<Chunk>) -> bool {
    ||| t == s
    ||| exists|size: usize| allocates(s, size, t)
    ||| exists|offset: usize| releases(s, offset, t)
}

/// In a contiguous chain an earlier chunk ends before a later one starts.
pub proof fn lemma_ordered(s: Seq<Chunk>, i: int, j: int)
    requires
        contiguous(s),
        0 <= i < j < s.len(),
    ensures
        s[i].end() <= s[j].offset,
    decreases j - i,
{
    if j == i + 1 {
        assert(s[i].end() == s[j].offset);
    } else {
        lemma_ordered(s, i, j - 1);
        assert(s[j - 1].end() == s[j].offset);
    }
}

/// In a well-formed chain every chunk lies inside the span.
pub proof fn lemma_within_span(s: Seq<Chunk>, i: int)
    requires
        well_formed(s),
        0 <= i < s.len(),
    ensures
        s[i].end() <= span(s),
{
    if i < s.len() - 1 {
        lemma_ordered(s, i, s.len() - 1);
    }
}

/// In a well-formed chain no two chunks start at the same index.
pub proof fn lemma_offsets_distinct(s: Seq<Chunk>, i: int, j: int)
    requires
        well_formed(s),
        0 <= i < s.len(),
        0 <= j < s.len(),
        s[i].offset == s[j].offset,
    ensures
        i == j,
{
    if i < j {
        lemma_ordered(s, i, j);
    } else if j < i {
        lemma_ordered(s, j, i);
    }
}

/// Taking `size` indices from a free chunk that holds them keeps the chain
/// well-formed and leaves its span as it was.
pub proof fn lemma_allocated_well_formed(s: Seq<Chunk>, i: int, size: usize)
    requires
        well_formed(s),
        0 <= i < s.len(),
        fits(s[i], size),
        size > 0,
    ensures
        well_formed(allocated_at(s, i, size)),
        span(allocated_at(s, i, size)) == span(s),
{
    let t = allocated_at(s, i, size);
    lemma_within_span(s, i);
    if s[i].size == size {
        assert forall|a: int, b: int|
            0 <= a && b == a + 1 && b < t.len() implies (#[trigger] t[a]).end() == (
        #[trigger] t[b]).offset by {
            assert(s[a].end() == s[b].offset);
        }
        assert forall|a: int, b: int|
            0 <= a && b == a + 1 && b < t.len() implies !((#[trigger] t[a]).free && (
        #[trigger] t[b]).free) by {
            assert(!(s[a].free && s[b].free));
        }
        assert forall|a: int| 0 <= a < t.len() implies (#[trigger] t[a]).size > 0 || (t.len() == 1
            && t[a].free) by {
            assert(s[a].size > 0 || (s.len() == 1 && s[a].free));
        }
    } else {
        assert forall|a: int, b: int|
            0 <= a && b == a + 1 && b < t.len() implies (#[trigger] t[a]).end() == (
        #[trigger] t[b]).offset by {
            if b <= i {
                assert(s[a].end() == s[b].offset);
            } else if a > i + 1 {
                assert(s[a - 1].end() == s[b - 1].offset);
            } else if a == i + 1 {
                assert(s[i].end() == s[i + 1].offset);
            }
        }
        assert forall|a: int, b: int|
            0 <= a && b == a + 1 && b < t.len() implies !((#[trigger] t[a]).free && (
        #[trigger] t[b]).free) by {
            if b <= i {
                assert(!(s[a].free && s[b].free));
            } else if a > i + 1 {
                assert(!(s[a - 1].free && s[b - 1].free));
            } else if a == i + 1 {
                assert(!(s[i].free && s[i + 1].free));
            }
        }
        assert forall|a: int| 0 <= a < t.len() implies (#[trigger] t[a]).size > 0 || (t.len() == 1
            && t[a].free) by {
            if a < i {
                assert(s[a].size > 0 || (s.len() == 1 && s[a].free));
            } else if a > i + 1 {
                assert(s[a - 1].size > 0 || (s.len() == 1 && s[a - 1].free));
            }
        }
        if i == s.len() - 1 {
            assert(t.last() == surplus(s[i], size));
        } else {
            assert(t.last() == s.last());
        }
    }
}

/// Releasing an occupied chunk keeps the chain well-formed and leaves its
/// span as it was.
pub proof fn lemma_released_well_formed(s: Seq<Chunk>, i: int)
    requires
        well_formed(s),
        0 <= i < s.len(),
        !s[i].free,
    ensures
        well_formed(released_at(s, i)),
        span(released_at(s, i)) == span(s),
{
    let start = merge_start(s, i);
    let end = merge_end(s, i);
    let t = released_at(s, i);
    let gap = end - start;
    if start < end {
        lemma_ordered(s, start, end);
    }
    lemma_within_span(s, end);
    assert(t.len() == s.len() - gap);
    assert(t[start] == merged(s, start, end));
    assert(s[i].size > 0);
    assert forall|a: int, b: int|
        0 <= a && b == a + 1 && b < t.len() implies (#[trigger] t[a]).end() == (
    #[trigger] t[b]).offset by {
        if b < start {
            assert(s[a].end() == s[b].offset);
        } else if b == start {
            assert(s[a].end() == s[start].offset);
        } else if a == start {
            assert(t[b] == s[end + 1]);
            assert(s[end].end() == s[end + 1].offset);
        } else {
            assert(t[a] == s[a + gap]);
            assert(t[b] == s[b + gap]);
            assert(s[a + gap].end() == s[b + gap].offset);
        }
    }
    assert forall|a: int, b: int|
        0 <= a && b == a + 1 && b < t.len() implies !((#[trigger] t[a]).free && (
    #[trigger] t[b]).free) by {
        if b < start {
            assert(!(s[a].free && s[b].free));
        } else if b == start {
            assert(t[a] == s[start - 1]);
            if start < i {
                assert(!(s[start - 1].free && s[start].free));
            }
        } else if a == start {
            assert(t[b] == s[end + 1]);
            if end > i {
                assert(!(s[end].free && s[end + 1].free));
            }
        } else {
            assert(t[a] == s[a + gap]);
            assert(t[b] == s[b + gap]);
            assert(!(s[a + gap].free && s[b + gap].free));
        }
    }
    assert forall|a: int| 0 <= a < t.len() implies (#[trigger] t[a]).size > 0 || (t.len() == 1
        && t[a].free) by {
        if a < start {
            assert(s[a].size > 0 || (s.len() == 1 && s[a].free));
        } else if a > start {
            assert(t[a] == s[a + gap]);
            assert(s[a + gap].size > 0 || (s.len() == 1 && s[a + gap].free));
        }
    }
    if end == s.len() - 1 {
        assert(t.last() == merged(s, start, end));
    } else {
        assert(t.last() == s.last());
    }
    if start == 0 {
        assert(t[0] == merged(s, start, end));
    } else {
        assert(t[0] == s[0]);
    }
}

/// The side of a chunk on which a neighbour is looked for.
#[derive(Debug, Copy, Clone, PartialEq, Eq, Structural)]
pub enum Order {
    Preceding,
    Following,
}

/// An ordered chain of chunks that partitions the index range of a buffer.
#[derive(Debug)]
pub struct ChunkChain {
    chunks: Vec<Chunk>,
}

impl View for ChunkChain {
    type V = Seq<Chunk>;

    closed spec fn view(&self) -> Seq<Chunk> {
        self.chunks@
    }
}

impl ChunkChain {
    /// The invariant that every operation of the chain keeps.
    pub open spec fn wf(&self) -> bool {
        well_formed(self@)
    }

    /// The length of the buffer that the chain partitions.
    pub open spec fn total(&self) -> int {
        span(self@)
    }

    /// A chain for a buffer of `size` elements: one free chunk that spans
    /// the whole buffer.
    pub fn new(size: usize) -> (chain: Self)
        ensures
            chain.wf(),
            chain@ == seq![Chunk { offset: 0, size, free: true }],
            chain.total() == size,
    {
        let mut chunks: Vec<Chunk> = Vec::new();
        chunks.push(Chunk::new(size));
        assert(chunks@ =~= seq![Chunk { offset: 0, size, free: true }]);
        ChunkChain { chunks }
    }

    /// The number of chunks in the chain.
    pub fn len(&self) -> (n: usize)
        ensures
            n == self@.len(),
    {
        self.chunks.len()
    }

    /// The chunk at position `index` of the chain, if there is one.
    pub fn get(&self, index: usize) -> (chunk: Option<Chunk>)
        ensures
            chunk == if index < self@.len() {
                Some(self@[index as int])
            } else {
                None
            },
    {
        if index < self.chunks.len() {
            Some(self.chunks[index])
        } else {
            None
        }
    }

    /// Whether chunk `index` of `chunks` has a free neighbour on the side
    /// that `order` names.
    pub fn has_free_adjacent(chunks: &[Chunk], index: usize, order: Order) -> (found: bool)
        requires
            index < chunks@.len(),
        ensures
            found == match order {
                Order::Preceding => index > 0 && chunks@[index - 1].free,
                Order::Following => index + 1 < chunks@.len() && chunks@[index + 1].free,
            },
    {
        match order {
            Order::Preceding => index > 0 && chunks[index - 1].free,
            Order::Following => index < chunks.len() - 1 && chunks[index + 1].free,
        }
    }

    /// The position of the chunk that starts at index `offset`, found by
    /// binary search over the offsets.
    pub fn find(&self, offset: usize) -> (found: Option<usize>)
        requires
            self.wf(),
        ensures
            match found {
                Some(i) => i < self@.len() && self@[i as int].offset == offset,
                None => forall|i: int| 0 <= i < self@.len() ==> self@[i].offset != offset,
            },
    {
        let mut low: usize = 0;
        let mut high: usize = self.chunks.len();
        while low < high
            invariant
                self.wf(),
                low <= high <= self@.len(),
                forall|i: int| 0 <= i < low ==> self@[i].offset < offset,
                forall|i: int| high <= i < self@.len() ==> self@[i].offset > offset,
            decreases high - low,
        {
            let mid = low + (high - low) / 2;
            let start = self.chunks[mid].offset;
            if start == offset {
                return Some(mid);
            } else if start < offset {
                assert forall|i: int| 0 <= i < mid + 1 implies self@[i].offset < offset by {
                    if i < mid {
                        lemma_ordered(self@, i, mid as int);
                    }
                }
                low = mid + 1;
            } else {
                assert forall|i: int| mid <= i < self@.len() implies self@[i].offset > offset by {
                    if mid < i {
                        lemma_ordered(self@, mid as int, i);
                    }
                }
                high = mid;
            }
        }
        None
    }

    /// Whether an occupied chunk starts at index `offset`: the condition
    /// under which `offset` may be released.
    pub fn is_occupied(&self, offset: usize) -> (occupied: bool)
        requires
            self.wf(),
        ensures
            occupied <==> exists|i: int| occupied_at(self@, offset, i),
    {
        match self.find(offset) {
            Some(i) => {
                let occupied = !self.chunks[i].free;
                proof {
                    if occupied {
                        assert(occupied_at(self@, offset, i as int));
                    } else {
                        assert forall|j: int| !occupied_at(self@, offset, j) by {
                            if occupied_at(self@, offset, j) {
                                lemma_offsets_distinct(self@, i as int, j);
                            }
                        }
                    }
                }
                occupied
            },
            None => false,
        }
    }

    /// The position of the best fit for a request of `size` indices: the
    /// smallest free chunk that is large enough, the first one among equals.
    fn best_fit(&self, size: usize) -> (found: Option<usize>)
        ensures
            match found {
                Some(i) => is_best_fit(self@, size, i as int),
                None => forall|j: int| 0 <= j < self@.len() ==> !fits(self@[j], size),
            },
    {
        let mut best: Option<usize> = None;
        let mut k: usize = 0;
        while k < self.chunks.len()
            invariant
                k <= self@.len(),
                match best {
                    Some(i) => {
                        &&& i < k
                        &&& fits(self@[i as int], size)
                        &&& forall|j: int|
                            0 <= j < k && fits(#[trigger] self@[j], size) ==> self@[i as int].size
                                < self@[j].size || (self@[i as int].size == self@[j].size && i
                                <= j)
                    },
                    None => forall|j: int| 0 <= j < k ==> !fits(self@[j], size),
                },
            decreases self@.len() - k,
        {
            let chunk = self.chunks[k];
            if chunk.free && chunk.size >= size {
                match best {
                    Some(i) => {
                        if chunk.size < self.chunks[i].size {
                            best = Some(k);
                        }
                    },
                    None => {
                        best = Some(k);
                    },
                }
            }
            k += 1;
        }
        best
    }

    /// Reserves `size` indices in the smallest free chunk that can hold
    /// them, the first one among chunks of equal size, and returns the
    /// occupied chunk. A surplus stays free as a chunk of its own right
    /// behind the occupied one: in a well-formed chain both neighbours of a
    /// free chunk are occupied, so there is never a free chunk beside the
    /// surplus to fold it into.
    ///
    /// Returns `None`, and leaves the chain as it is, when no free chunk is
    /// large enough. A request for zero indices is always refused.
    pub fn allocate(&mut self, size: usize) -> (res: Option<Chunk>)
        requires
            old(self).wf(),
        ensures
            final(self).wf(),
            final(self).total() == old(self).total(),
            res is None <==> size == 0 || forall|j: int|
                0 <= j < old(self)@.len() ==> !fits(old(self)@[j], size),
            size > old(self).total() ==> res is None,
            res is None ==> final(self)@ == old(self)@,
            res matches Some(chunk) ==> exists|i: int|
                {
                    &&& is_best_fit(old(self)@, size, i)
                    &&& chunk == carved(old(self)@[i], size)
                    &&& final(self)@ == allocated_at(old(self)@, i, size)
                },
            step(old(self)@, final(self)@),
    {
        if size == 0 {
            return None;
        }
        let index = match self.best_fit(size) {
            Some(index) => index,
            None => {
                return None;
            },
        };
        let found = self.chunks[index];
        let chunk = Chunk { offset: found.offset, size, free: false };
        proof {
            lemma_within_span(self@, index as int);
            lemma_allocated_well_formed(self@, index as int, size);
        }
        // Determine whether there is any memory surplus
        let delta = found.size - size;
        self.chunks[index] = chunk;
        if delta > 0 {
            // Insert a new chunk representing the surplus memory
            assert(index < self.chunks.len());
            self.chunks.insert(index + 1, Chunk::with_offset(delta, found.offset + size));
        }
        assert(self@ =~= allocated_at(old(self)@, index as int, size));
        assert(allocates(old(self)@, size, self@));
        Some(chunk)
    }

    /// Returns the occupied chunk that starts at index `offset` to the
    /// chain. The chunk merges with each of its two neighbours that is free,
    /// so that up to three chunks become one free chunk.
    ///
    /// Only the start of an occupied chunk can be released; `is_occupied`
    /// tells whether `offset` is one.
    pub fn release(&mut self, offset: usize)
        requires
            old(self).wf(),
            exists|i: int| occupied_at(old(self)@, offset, i),
        ensures
            final(self).wf(),
            final(self).total() == old(self).total(),
            forall|i: int|
                occupied_at(old(self)@, offset, i) ==> final(self)@ == released_at(old(self)@, i),
            step(old(self)@, final(self)@),
    {
        if let Some(index) = self.find(offset) {
            proof {
                assert forall|i: int| occupied_at(self@, offset, i) implies i == index by {
                    lemma_offsets_distinct(self@, i, index as int);
                }
            }
            self.defragment(index);
            assert(occupied_at(old(self)@, offset, index as int));
            assert(releases(old(self)@, offset, self@));
        } else {
            proof {
                let i = choose|i: int| occupied_at(self@, offset, i);
                assert(self@[i].offset == offset);
            }
        }
    }

    /// Frees the occupied chunk at position `index` and merges up to three
    /// adjacent free chunks: the chunk itself and each neighbour that is
    /// free.
    fn defragment(&mut self, index: usize)
        requires
            old(self).wf(),
            index < old(self)@.len(),
            !old(self)@[index as int].free,
        ensures
            final(self).wf(),
            final(self).total() == old(self).total(),
            final(self)@ == released_at(old(self)@, index as int),
    {
        proof {
            lemma_released_well_formed(self@, index as int);
        }
        let chunks = self.chunks.as_slice();
        let preceding_free = Self::has_free_adjacent(chunks, index, Order::Preceding);
        let following_free = Self::has_free_adjacent(chunks, index, Order::Following);

        // Find range of free chunks.
        let start = if preceding_free { index - 1 } else { index };
        assert(index < self.chunks.len());
        let end = if following_free { index + 1 } else { index };
        proof {
            if start < end {
                lemma_ordered(self@, start as int, end as int);
            }
            lemma_within_span(self@, end as int);
        }
        let first = self.chunks[start];
        let last = self.chunks[end];

        // Merge the free chunks
        let whole = Chunk::with_offset(last.offset + last.size - first.offset, first.offset);
        self.chunks[start] = whole;
        let mut k = end;
        while k > start
            invariant
                start <= k <= end < old(self)@.len(),
                self@ =~= old(self)@.subrange(0, start as int).push(whole) + old(self)@.subrange(
                    start + 1,
                    k + 1,
                ) + old(self)@.subrange(end + 1, old(self)@.len() as int),
            decreases k,
        {
            self.chunks.remove(k);
            k -= 1;
        }
        assert(self@ =~= released_at(old(self)@, index as int));
    }
}

} // verus!
