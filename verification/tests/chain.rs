use slice_pool::chain::{ChunkChain, Order};
use slice_pool::Chunk;

fn chunks_of(chain: &ChunkChain) -> Vec<Chunk> {
    let mut chunks = Vec::new();
    let mut index = 0;
    while let Some(chunk) = chain.get(index) {
        chunks.push(chunk);
        index += 1;
    }
    chunks
}

fn free(offset: usize, size: usize) -> Chunk {
    Chunk { offset, size, free: true }
}

fn used(offset: usize, size: usize) -> Chunk {
    Chunk { offset, size, free: false }
}

/// Checks contiguity, coverage and the absence of adjacent free chunks.
fn assert_invariant(chain: &ChunkChain, total: usize) {
    let chunks = chunks_of(chain);
    assert_eq!(chunks.len(), chain.len());
    assert!(!chunks.is_empty());
    assert_eq!(chunks[0].offset, 0);
    for pair in chunks.windows(2) {
        assert_eq!(pair[0].offset + pair[0].size, pair[1].offset);
        assert!(!(pair[0].free && pair[1].free));
    }
    let last = chunks[chunks.len() - 1];
    assert_eq!(last.offset + last.size, total);
    if chunks.len() > 1 {
        assert!(chunks.iter().all(|chunk| chunk.size > 0));
    }
}

#[test]
fn chunk_new_starts_at_zero() {
    assert_eq!(Chunk::new(10), free(0, 10));
}

#[test]
fn chunk_with_offset_is_free() {
    let chunk = Chunk::with_offset(3, 7);
    assert_eq!(chunk.offset, 7);
    assert_eq!(chunk.size, 3);
    assert!(chunk.free);
}

#[test]
fn new_chain_is_one_free_chunk() {
    let chain = ChunkChain::new(10);
    assert_eq!(chain.len(), 1);
    assert_eq!(chain.get(0), Some(free(0, 10)));
    assert_eq!(chain.get(1), None);
}

#[test]
fn allocate_splits_the_free_chunk() {
    let mut chain = ChunkChain::new(10);
    assert_eq!(chain.allocate(2), Some(used(0, 2)));
    assert_eq!(chunks_of(&chain), vec![used(0, 2), free(2, 8)]);
    assert_eq!(chain.allocate(5), Some(used(2, 5)));
    assert_eq!(chunks_of(&chain), vec![used(0, 2), used(2, 5), free(7, 3)]);
}

#[test]
fn allocate_exact_size_occupies_in_place() {
    let mut chain = ChunkChain::new(10);
    assert_eq!(chain.allocate(10), Some(used(0, 10)));
    assert_eq!(chunks_of(&chain), vec![used(0, 10)]);
    assert_eq!(chain.allocate(1), None);
    assert_eq!(chunks_of(&chain), vec![used(0, 10)]);
}

#[test]
fn allocate_zero_is_refused() {
    let mut chain = ChunkChain::new(10);
    assert_eq!(chain.allocate(0), None);
    assert_eq!(chunks_of(&chain), vec![free(0, 10)]);
}

#[test]
fn allocate_more_than_total_is_refused() {
    let mut chain = ChunkChain::new(10);
    assert_eq!(chain.allocate(11), None);
    assert_eq!(chain.allocate(usize::MAX), None);
    assert_eq!(chunks_of(&chain), vec![free(0, 10)]);
}

#[test]
fn empty_buffer_never_allocates() {
    let mut chain = ChunkChain::new(0);
    assert_eq!(chunks_of(&chain), vec![free(0, 0)]);
    assert_eq!(chain.allocate(1), None);
    assert_eq!(chain.allocate(0), None);
    assert_eq!(chunks_of(&chain), vec![free(0, 0)]);
}

#[test]
fn allocate_fails_without_contiguous_space() {
    let mut chain = ChunkChain::new(10);
    chain.allocate(3).unwrap();
    chain.allocate(4).unwrap();
    chain.allocate(3).unwrap();
    chain.release(0);
    chain.release(7);
    // Six indices are free, but no six of them in a row.
    assert_eq!(chunks_of(&chain), vec![free(0, 3), used(3, 4), free(7, 3)]);
    assert_eq!(chain.allocate(4), None);
    assert_eq!(chunks_of(&chain), vec![free(0, 3), used(3, 4), free(7, 3)]);
}

#[test]
fn best_fit_prefers_the_smallest_chunk() {
    let mut chain = ChunkChain::new(20);
    chain.allocate(10).unwrap();
    chain.allocate(2).unwrap();
    chain.allocate(3).unwrap();
    chain.allocate(5).unwrap();
    chain.release(0);
    chain.release(12);
    assert_eq!(
        chunks_of(&chain),
        vec![free(0, 10), used(10, 2), free(12, 3), used(15, 5)]
    );
    // Free chunks of size 10 and 3: a request for 3 takes the chunk of 3.
    assert_eq!(chain.allocate(3), Some(used(12, 3)));
    assert_eq!(
        chunks_of(&chain),
        vec![free(0, 10), used(10, 2), used(12, 3), used(15, 5)]
    );
}

#[test]
fn best_fit_breaks_ties_by_lowest_offset() {
    let mut chain = ChunkChain::new(12);
    chain.allocate(3).unwrap();
    chain.allocate(3).unwrap();
    chain.allocate(3).unwrap();
    chain.allocate(3).unwrap();
    chain.release(6);
    chain.release(0);
    assert_eq!(
        chunks_of(&chain),
        vec![free(0, 3), used(3, 3), free(6, 3), used(9, 3)]
    );
    assert_eq!(chain.allocate(2), Some(used(0, 2)));
    assert_eq!(
        chunks_of(&chain),
        vec![used(0, 2), free(2, 1), used(3, 3), free(6, 3), used(9, 3)]
    );
}

#[test]
fn release_without_free_neighbours_marks_in_place() {
    let mut chain = ChunkChain::new(10);
    chain.allocate(2).unwrap();
    chain.allocate(4).unwrap();
    chain.allocate(2).unwrap();
    chain.allocate(2).unwrap();
    assert_eq!(chain.len(), 4);
    chain.release(2);
    assert_eq!(
        chunks_of(&chain),
        vec![used(0, 2), free(2, 4), used(6, 2), used(8, 2)]
    );
}

#[test]
fn release_merges_with_preceding_chunk() {
    let mut chain = ChunkChain::new(10);
    chain.allocate(2).unwrap();
    chain.allocate(4).unwrap();
    chain.allocate(4).unwrap();
    chain.release(0);
    chain.release(2);
    assert_eq!(chunks_of(&chain), vec![free(0, 6), used(6, 4)]);
}

#[test]
fn release_merges_with_following_chunk() {
    let mut chain = ChunkChain::new(10);
    chain.allocate(2).unwrap();
    chain.allocate(4).unwrap();
    chain.release(2);
    assert_eq!(chunks_of(&chain), vec![used(0, 2), free(2, 8)]);
}

#[test]
fn release_merges_both_neighbours() {
    let mut chain = ChunkChain::new(10);
    chain.allocate(2).unwrap();
    chain.allocate(4).unwrap();
    chain.allocate(2).unwrap();
    chain.release(0);
    assert_eq!(
        chunks_of(&chain),
        vec![free(0, 2), used(2, 4), used(6, 2), free(8, 2)]
    );
    chain.release(6);
    assert_eq!(chunks_of(&chain), vec![free(0, 2), used(2, 4), free(6, 4)]);
    // Free on both sides: three chunks collapse into one.
    chain.release(2);
    assert_eq!(chunks_of(&chain), vec![free(0, 10)]);
}

#[test]
fn allocate_then_release_restores_the_chain() {
    let mut chain = ChunkChain::new(16);
    chain.allocate(4).unwrap();
    chain.allocate(4).unwrap();
    chain.allocate(4).unwrap();
    chain.release(4);
    let before = chunks_of(&chain);
    for size in 1..=4 {
        let chunk = chain.allocate(size).unwrap();
        chain.release(chunk.offset);
        assert_eq!(chunks_of(&chain), before);
    }
}

#[test]
fn invariant_holds_after_every_call() {
    let total = 32;
    let mut chain = ChunkChain::new(total);
    let mut offsets = Vec::new();
    for size in [5, 3, 8, 1, 4, 6, 2, 3] {
        if let Some(chunk) = chain.allocate(size) {
            assert_eq!(chunk.size, size);
            assert!(!chunk.free);
            offsets.push(chunk.offset);
        }
        assert_invariant(&chain, total);
    }
    for position in [1, 3, 0, 2] {
        let offset = offsets.remove(position);
        chain.release(offset);
        assert_invariant(&chain, total);
    }
    for size in [7, 2, 9, 1] {
        if let Some(chunk) = chain.allocate(size) {
            offsets.push(chunk.offset);
        }
        assert_invariant(&chain, total);
    }
    while let Some(offset) = offsets.pop() {
        chain.release(offset);
        assert_invariant(&chain, total);
    }
    assert_eq!(chunks_of(&chain), vec![free(0, total)]);
}

#[test]
fn occupied_chunks_never_overlap() {
    let mut chain = ChunkChain::new(24);
    let mut live = Vec::new();
    for size in [4, 4, 4, 4, 4, 4] {
        live.push(chain.allocate(size).unwrap());
    }
    chain.release(live.remove(1).offset);
    chain.release(live.remove(2).offset);
    live.push(chain.allocate(3).unwrap());
    live.push(chain.allocate(4).unwrap());
    live.push(chain.allocate(1).unwrap());
    for (i, a) in live.iter().enumerate() {
        for b in live.iter().skip(i + 1) {
            assert!(a.offset + a.size <= b.offset || b.offset + b.size <= a.offset);
        }
    }
}

#[test]
fn find_locates_chunks_by_offset() {
    let mut chain = ChunkChain::new(10);
    chain.allocate(2).unwrap();
    chain.allocate(5).unwrap();
    assert_eq!(chain.find(0), Some(0));
    assert_eq!(chain.find(2), Some(1));
    assert_eq!(chain.find(7), Some(2));
    assert_eq!(chain.find(1), None);
    assert_eq!(chain.find(10), None);
}

#[test]
fn is_occupied_tells_what_may_be_released() {
    let mut chain = ChunkChain::new(10);
    chain.allocate(2).unwrap();
    chain.allocate(5).unwrap();
    assert!(chain.is_occupied(0));
    assert!(chain.is_occupied(2));
    assert!(!chain.is_occupied(7));
    assert!(!chain.is_occupied(3));
    chain.release(2);
    assert!(!chain.is_occupied(2));
}

#[test]
fn has_free_adjacent_looks_at_one_side() {
    let chunks = [used(0, 2), free(2, 4), used(6, 2), used(8, 2)];
    assert!(!ChunkChain::has_free_adjacent(&chunks, 0, Order::Preceding));
    assert!(ChunkChain::has_free_adjacent(&chunks, 0, Order::Following));
    assert!(ChunkChain::has_free_adjacent(&chunks, 2, Order::Preceding));
    assert!(!ChunkChain::has_free_adjacent(&chunks, 2, Order::Following));
    assert!(!ChunkChain::has_free_adjacent(&chunks, 3, Order::Preceding));
    assert!(!ChunkChain::has_free_adjacent(&chunks, 3, Order::Following));
}
