//! What holds of every chain, whatever was allocated and released before.

use vstd::prelude::*;
use crate::Chunk;
use crate::chain::{
    allocated_at, allocates, carved, fits, is_best_fit, lemma_allocated_well_formed,
    lemma_ordered, lemma_released_well_formed, lemma_within_span, merge_end, merge_start, merged,
    occupied_at, released_at, releases, span, step, well_formed,
};

verus! {

/// The chain of a buffer of `size` elements on which nothing was allocated.
pub open spec fn initial(size: usize) -> Seq<Chunk> {
    seq![Chunk { offset: 0, size, free: true }]
}

/// `states` lists the chains that a buffer of `size` elements goes through
/// under some sequence of calls, the fresh chain first.
pub open spec fn history(size: usize, states: Seq<Seq<Chunk>>) -> bool {
    &&& states.len() > 0
    &&& states[0] == initial(size)
    &&& forall|k: int, l: int|
        0 <= k && l == k + 1 && l < states.len() ==> step(
            #[trigger] states[k],
            #[trigger] states[l],
        )
}

/// Chunk `c` is a live allocation of chain `s`: an occupied chunk of it.
pub open spec fn live(s: Seq<Chunk>, c: Chunk) -> bool {
    !c.free && s.contains(c)
}

/// The fresh chain is well-formed and spans the buffer.
pub proof fn lemma_initial_well_formed(size: usize)
    ensures
        well_formed(initial(size)),
        span(initial(size)) == size,
{
}

/// One call keeps a chain well-formed and its span unchanged.
pub proof fn lemma_step_well_formed(s: Seq<Chunk>, t: Seq<Chunk>)
    requires
        well_formed(s),
        step(s, t),
    ensures
        well_formed(t),
        span(t) == span(s),
{
    if t == s {
    } else if exists|size: usize| allocates(s, size, t) {
        let size = choose|size: usize| allocates(s, size, t);
        let i = choose|i: int| is_best_fit(s, size, i) && t == allocated_at(s, i, size);
        lemma_allocated_well_formed(s, i, size);
    } else {
        let offset = choose|offset: usize| releases(s, offset, t);
        let i = choose|i: int| occupied_at(s, offset, i) && t == released_at(s, i);
        lemma_released_well_formed(s, i);
    }
}

/// After every sequence of allocations and releases the chunks of the chain
/// are contiguous, cover the index range of the buffer exactly once, and no
/// two adjacent chunks are both free.
pub proof fn lemma_invariant(size: usize, states: Seq<Seq<Chunk>>, k: int)
    requires
        history(size, states),
        0 <= k < states.len(),
    ensures
        well_formed(states[k]),
        span(states[k]) == size,
    decreases k,
{
    if k == 0 {
        lemma_initial_well_formed(size);
    } else {
        lemma_invariant(size, states, k - 1);
        assert(step(states[k - 1], states[k]));
        lemma_step_well_formed(states[k - 1], states[k]);
    }
}

/// In a well-formed chain every index of the buffer lies in exactly one
/// chunk.
pub proof fn lemma_covers_once(s: Seq<Chunk>, index: int)
    requires
        well_formed(s),
        0 <= index < span(s),
    ensures
        exists|i: int| 0 <= i < s.len() && (#[trigger] s[i]).contains(index),
        forall|i: int, j: int|
            0 <= i < s.len() && 0 <= j < s.len() && (#[trigger] s[i]).contains(index) && (
            #[trigger] s[j]).contains(index) ==> i == j,
{
    lemma_covered(s, index, s.len() - 1);
    assert forall|i: int, j: int|
        0 <= i < s.len() && 0 <= j < s.len() && (#[trigger] s[i]).contains(index) && (
        #[trigger] s[j]).contains(index) implies i == j by {
        if i < j {
            lemma_ordered(s, i, j);
        } else if j < i {
            lemma_ordered(s, j, i);
        }
    }
}

/// An index below the end of chunk `k` lies in one of the chunks up to `k`.
proof fn lemma_covered(s: Seq<Chunk>, index: int, k: int)
    requires
        well_formed(s),
        0 <= k < s.len(),
        0 <= index < s[k].end(),
    ensures
        exists|i: int| 0 <= i <= k && (#[trigger] s[i]).contains(index),
    decreases k,
{
    if s[k].offset <= index {
        assert(s[k].contains(index));
    } else {
        assert(k > 0);
        assert(s[k - 1].end() == s[k].offset);
        lemma_covered(s, index, k - 1);
    }
}

/// Two distinct live allocations of one chain never share an index.
pub proof fn lemma_exclusive(s: Seq<Chunk>, a: Chunk, b: Chunk)
    requires
        well_formed(s),
        live(s, a),
        live(s, b),
        a != b,
    ensures
        a.end() <= b.offset || b.end() <= a.offset,
        forall|index: int| !(a.contains(index) && b.contains(index)),
{
    let i = choose|i: int| 0 <= i < s.len() && s[i] == a;
    let j = choose|j: int| 0 <= j < s.len() && s[j] == b;
    if i < j {
        lemma_ordered(s, i, j);
    } else {
        lemma_ordered(s, j, i);
    }
}

/// A live allocation lies inside the buffer and holds at least one index.
pub proof fn lemma_live_in_bounds(s: Seq<Chunk>, c: Chunk)
    requires
        well_formed(s),
        live(s, c),
    ensures
        c.size > 0,
        c.end() <= span(s),
{
    let i = choose|i: int| 0 <= i < s.len() && s[i] == c;
    lemma_within_span(s, i);
}

/// A live allocation is found again by the index at which it starts.
pub proof fn lemma_live_occupied(s: Seq<Chunk>, c: Chunk)
    requires
        live(s, c),
    ensures
        exists|i: int| occupied_at(s, c.offset, i) && s[i] == c,
{
    let i = choose|i: int| 0 <= i < s.len() && s[i] == c;
    assert(occupied_at(s, c.offset, i) && s[i] == c);
}

/// An allocation makes the chunk it returns live and keeps every allocation
/// live that was so before.
pub proof fn lemma_allocate_keeps_live(s: Seq<Chunk>, i: int, size: usize, c: Chunk)
    requires
        0 <= i < s.len(),
        fits(s[i], size),
    ensures
        live(allocated_at(s, i, size), carved(s[i], size)),
        live(s, c) ==> live(allocated_at(s, i, size), c),
{
    let t = allocated_at(s, i, size);
    assert(t[i] == carved(s[i], size));
    if live(s, c) {
        let k = choose|k: int| 0 <= k < s.len() && s[k] == c;
        if s[i].size == size || k < i {
            assert(t[k] == c);
        } else {
            assert(t[k + 1] == c);
        }
    }
}

/// An allocation makes no chunk live but the one it returns.
pub proof fn lemma_allocate_adds_one(s: Seq<Chunk>, i: int, size: usize, c: Chunk)
    requires
        0 <= i < s.len(),
        fits(s[i], size),
        live(allocated_at(s, i, size), c),
    ensures
        c == carved(s[i], size) || live(s, c),
{
    let t = allocated_at(s, i, size);
    let k = choose|k: int| 0 <= k < t.len() && t[k] == c;
    if k < i {
        assert(s[k] == c);
    } else if k > i {
        if s[i].size == size {
            assert(s[k] == c);
        } else {
            assert(k > i + 1);
            assert(s[k - 1] == c);
        }
    }
}

/// A release ends the allocation that is released and keeps every other
/// allocation live.
pub proof fn lemma_release_keeps_live(s: Seq<Chunk>, i: int, c: Chunk)
    requires
        well_formed(s),
        0 <= i < s.len(),
        !s[i].free,
    ensures
        !live(released_at(s, i), s[i]),
        live(s, c) && c != s[i] ==> live(released_at(s, i), c),
        live(released_at(s, i), c) ==> live(s, c),
{
    let t = released_at(s, i);
    let start = merge_start(s, i);
    let end = merge_end(s, i);
    let gap = end - start;
    assert(t[start] == merged(s, start, end));
    if live(s, c) && c != s[i] {
        let k = choose|k: int| 0 <= k < s.len() && s[k] == c;
        if k < start {
            assert(t[k] == c);
        } else {
            assert(k > end);
            assert(t[k - gap] == c);
        }
    }
    if live(t, c) {
        let k = choose|k: int| 0 <= k < t.len() && t[k] == c;
        if k < start {
            assert(s[k] == c);
        } else {
            assert(k > start);
            assert(s[k + gap] == c);
        }
    }
    if live(t, s[i]) {
        let k = choose|k: int| 0 <= k < t.len() && t[k] == s[i];
        if k < start {
            assert(t[k] == s[k]);
            lemma_ordered(s, k, i);
        } else {
            assert(k > start);
            assert(t[k] == s[k + gap]);
            lemma_ordered(s, i, k + gap);
        }
    }
}

/// Allocating and at once releasing what was allocated restores the chain:
/// the same chunks with the same boundaries.
pub proof fn lemma_round_trip(s: Seq<Chunk>, size: usize, i: int)
    requires
        well_formed(s),
        size > 0,
        is_best_fit(s, size, i),
    ensures
        occupied_at(allocated_at(s, i, size), s[i].offset, i),
        released_at(allocated_at(s, i, size), i) == s,
{
    let t = allocated_at(s, i, size);
    if i > 0 {
        assert(!(s[i - 1].free && s[i].free));
        assert(t[i - 1] == s[i - 1]);
    }
    assert(merge_start(t, i) == i);
    if s[i].size == size {
        if i + 1 < s.len() {
            assert(!(s[i].free && s[i + 1].free));
            assert(t[i + 1] == s[i + 1]);
        }
        assert(merge_end(t, i) == i);
    } else {
        assert(t[i + 1].free);
        assert(merge_end(t, i) == i + 1);
    }
    lemma_within_span(s, i);
    assert(released_at(t, i) =~= s);
}

/// A request for more indices than the buffer holds fits no chunk.
pub proof fn lemma_oversized_never_fits(s: Seq<Chunk>, size: usize)
    requires
        well_formed(s),
        size > span(s),
    ensures
        forall|j: int| 0 <= j < s.len() ==> !fits(#[trigger] s[j], size),
{
    assert forall|j: int| 0 <= j < s.len() implies !fits(#[trigger] s[j], size) by {
        lemma_within_span(s, j);
    }
}

/// In a well-formed chain the neighbours of a free chunk are occupied, so
/// the surplus of an allocation has no free chunk beside it to merge with.
pub proof fn lemma_free_neighbours_occupied(s: Seq<Chunk>, i: int)
    requires
        well_formed(s),
        0 <= i < s.len(),
        s[i].free,
    ensures
        i > 0 ==> !s[i - 1].free,
        i + 1 < s.len() ==> !s[i + 1].free,
{
    if i > 0 {
        assert(!(s[i - 1].free && s[i].free));
    }
    if i + 1 < s.len() {
        assert(!(s[i].free && s[i + 1].free));
    }
}

/// No two chunks of a chain are the best fit for the same request.
pub proof fn lemma_best_fit_unique(s: Seq<Chunk>, size: usize, i: int, j: int)
    requires
        is_best_fit(s, size, i),
        is_best_fit(s, size, j),
    ensures
        i == j,
{
}

/// The buffer `s` with the elements of the range `[from, to)` replaced by
/// those of `w`.
pub open spec fn spliced<T>(s: Seq<T>, from: int, to: int, w: Seq<T>) -> Seq<T> {
    s.subrange(0, from) + w + s.subrange(to, s.len() as int)
}

/// Replacing the elements of one range by as many others changes that range
/// and no element outside it.
pub proof fn lemma_spliced<T>(s: Seq<T>, from: int, to: int, w: Seq<T>)
    requires
        0 <= from <= to <= s.len(),
        w.len() == to - from,
    ensures
        spliced(s, from, to, w).len() == s.len(),
        spliced(s, from, to, w).subrange(from, to) == w,
        forall|a: int, b: int|
            0 <= a <= b <= s.len() && (b <= from || to <= a) ==> #[trigger] spliced(
                s,
                from,
                to,
                w,
            ).subrange(a, b) == s.subrange(a, b),
{
    let t = spliced(s, from, to, w);
    assert(t.subrange(from, to) =~= w);
    assert forall|a: int, b: int|
        0 <= a <= b <= s.len() && (b <= from || to <= a) implies #[trigger] t.subrange(a, b)
        == s.subrange(a, b) by {
        assert(t.subrange(a, b) =~= s.subrange(a, b));
    }
}

} // verus!
