use allocators::{
    align_forward, Allocator, Block, BlockOwner, BlockOwnerExt, Error, EventLog, Fallback,
    FreeList, HeapAllocator, LogEvent, NullAllocator, Proxy, Scoped,
};

#[test]
fn align_forward_rounds_up_to_the_next_multiple() {
    assert_eq!(align_forward(13, 8), Some(16));
    assert_eq!(align_forward(16, 8), Some(16));
    assert_eq!(align_forward(17, 1), Some(17));
    assert_eq!(align_forward(1, 4096), Some(4096));
}

#[test]
fn align_forward_has_no_answer_past_the_address_space() {
    assert_eq!(align_forward(usize::MAX, 2), None);
    assert_eq!(align_forward(usize::MAX - 6, 8), None);
    assert_eq!(align_forward(usize::MAX - 7, 8), Some(usize::MAX - 7));
}

#[test]
fn block_parts_come_back_as_given() {
    let block = Block::new(4096, 24, 8);
    assert_eq!(block.ptr(), 4096);
    assert_eq!(block.size(), 24);
    assert_eq!(block.align(), 8);
    assert!(!block.is_empty());
}

#[test]
fn the_empty_block_has_no_size() {
    let block = Block::empty();
    assert!(block.is_empty());
    assert_eq!(block.size(), 0);
    assert_eq!(block.align(), 0);
    assert_ne!(block.ptr(), 0);
}

#[test]
fn every_error_has_its_description() {
    assert_eq!(Error::OutOfMemory.description(), "Allocator out of memory.");
    assert_eq!(
        Error::UnsupportedAlignment.description(),
        "Attempted to allocate with unsupported alignment."
    );
    assert_eq!(Error::AllocatorSpecific("pool closed".to_string()).description(), "pool closed");
}

#[test]
fn heap_blocks_are_aligned_and_apart() {
    let mut heap = HeapAllocator::new();
    let first = heap.allocate_raw(100, 64).unwrap();
    let second = heap.allocate_raw(100, 64).unwrap();
    assert_ne!(first.ptr(), 0);
    assert_eq!(first.ptr() % 64, 0);
    assert_eq!(second.ptr() % 64, 0);
    assert_eq!(first.size(), 100);
    assert_eq!(first.align(), 64);
    assert!(first.ptr() + 100 <= second.ptr() || second.ptr() + 100 <= first.ptr());
    heap.deallocate_raw(first);
    heap.deallocate_raw(second);
}

#[test]
fn heap_request_for_nothing_yields_the_empty_block() {
    let mut heap = HeapAllocator::new();
    let block = heap.allocate_raw(0, 8).unwrap();
    assert!(block.is_empty());
    heap.deallocate_raw(block);
}

#[test]
fn heap_request_past_the_address_space_is_out_of_memory() {
    let mut heap = HeapAllocator::new();
    assert_eq!(heap.allocate_raw(usize::MAX, 8).unwrap_err(), Error::OutOfMemory);
    assert_eq!(heap.allocate_raw(usize::MAX - 16, 1).unwrap_err(), Error::OutOfMemory);
}

#[test]
fn heap_adopts_the_block_cut_from_a_buffer() {
    let mut heap = HeapAllocator::new();
    let block = heap.adopt(vec![0u8; 23], 1001, 16, 8).unwrap();
    assert_eq!(block.ptr(), 1008);
    assert_eq!(block.size(), 16);
    assert_eq!(block.align(), 8);
    // a block that overlaps one on loan is refused.
    assert_eq!(heap.adopt(vec![0u8; 17], 1009, 16, 2).unwrap_err(), Error::OutOfMemory);
    // one that starts where the first ends is not.
    let next = heap.adopt(vec![0u8; 23], 1024, 16, 8).unwrap();
    assert_eq!(next.ptr(), 1024);
    heap.deallocate_raw(block);
    // the range of a block that was given back is free again.
    let again = heap.adopt(vec![0u8; 23], 1008, 16, 8).unwrap();
    assert_eq!(again.ptr(), 1008);
}

#[test]
fn heap_reallocation_keeps_the_alignment() {
    let mut heap = HeapAllocator::new();
    let block = heap.allocate_raw(10, 32).unwrap();
    let grown = heap.reallocate_raw(block, 1000).unwrap();
    assert_eq!(grown.size(), 1000);
    assert_eq!(grown.align(), 32);
    assert_eq!(grown.ptr() % 32, 0);
    let gone = heap.reallocate_raw(grown, 0).unwrap();
    assert!(gone.is_empty());
}

#[test]
fn the_empty_block_cannot_grow() {
    let mut heap = HeapAllocator::new();
    let (err, block) = heap.reallocate_raw(Block::empty(), 8).unwrap_err();
    assert_eq!(err, Error::UnsupportedAlignment);
    assert!(block.is_empty());

    let mut arena = Scoped::new(64).unwrap();
    let (err, _) = arena.reallocate_raw(Block::empty(), 8).unwrap_err();
    assert_eq!(err, Error::UnsupportedAlignment);

    let mut pool = FreeList::new(64, 1).unwrap();
    let (err, _) = pool.reallocate_raw(Block::empty(), 8).unwrap_err();
    assert_eq!(err, Error::UnsupportedAlignment);
}

#[test]
fn null_allocator_always_fails() {
    let mut null = NullAllocator;
    assert_eq!(null.allocate_raw(0, 1).unwrap_err(), Error::OutOfMemory);
    assert_eq!(null.allocate_raw(16, 8).unwrap_err(), Error::OutOfMemory);
    let (err, block) = null.reallocate_raw(Block::new(64, 8, 8), 16).unwrap_err();
    assert_eq!(err, Error::OutOfMemory);
    assert_eq!(block.ptr(), 64);
    assert!(!null.owns_block(&Block::new(64, 8, 8)));
}

#[test]
fn arena_filled_to_the_byte_refuses_one_more() {
    let mut arena = Scoped::new(64).unwrap();
    let first = arena.allocate_raw(16, 8).unwrap();
    let second = arena.allocate_raw(16, 8).unwrap();
    let third = arena.allocate_raw(24, 8).unwrap();
    let fourth = arena.allocate_raw(8, 8).unwrap();
    assert_eq!(second.ptr(), first.ptr() + 16);
    assert_eq!(third.ptr(), first.ptr() + 32);
    assert_eq!(fourth.ptr(), first.ptr() + 56);
    assert_eq!(arena.allocate_raw(1, 1).unwrap_err(), Error::OutOfMemory);
}

#[test]
fn arena_aligns_the_cursor_forward() {
    let mut arena = Scoped::new(64).unwrap();
    let byte = arena.allocate_raw(1, 1).unwrap();
    let word = arena.allocate_raw(8, 8).unwrap();
    assert_eq!(word.ptr(), byte.ptr() + 8);
    assert_eq!(word.ptr() % 8, 0);
}

#[test]
fn arena_reuses_the_block_given_back_last() {
    let mut arena = Scoped::new(64).unwrap();
    let _first = arena.allocate_raw(16, 8).unwrap();
    let second = arena.allocate_raw(16, 8).unwrap();
    let at = second.ptr();
    arena.deallocate_raw(second);
    let again = arena.allocate_raw(16, 8).unwrap();
    assert_eq!(again.ptr(), at);
}

#[test]
fn arena_ignores_a_block_that_is_not_the_last() {
    let mut arena = Scoped::new(64).unwrap();
    let first = arena.allocate_raw(16, 8).unwrap();
    let second = arena.allocate_raw(16, 8).unwrap();
    let end = second.ptr() + 16;
    arena.deallocate_raw(first);
    let third = arena.allocate_raw(16, 8).unwrap();
    assert_eq!(third.ptr(), end);
}

#[test]
fn arena_refuses_requests_while_its_scope_is_open() {
    let mut arena = Scoped::new(64).unwrap();
    let first = arena.allocate_raw(16, 8).unwrap();
    let at = first.ptr();
    assert!(!arena.is_scoped());
    let mut inner = arena.enter_scope().unwrap();
    assert!(arena.is_scoped());
    assert!(arena.enter_scope().is_err());
    assert!(arena.scope(|_nested: &mut Scoped<HeapAllocator>| 1).is_err());
    match arena.allocate_raw(8, 8) {
        Err(Error::AllocatorSpecific(reason)) => {
            assert_eq!(reason, "Called allocate on already scoped allocator.")
        }
        _ => panic!("the outer arena answered while its scope was open"),
    }
    // the empty block may still be given back.
    arena.deallocate_raw(Block::empty());
    drop(first);
    let nested = inner.allocate_raw(16, 8).unwrap();
    assert_eq!(nested.ptr(), at + 16);
    arena.exit_scope(inner);
    assert!(!arena.is_scoped());
    // what the scope handed out is reclaimed.
    let next = arena.allocate_raw(16, 8).unwrap();
    assert_eq!(next.ptr(), at + 16);
}

#[test]
fn scope_yields_what_the_closure_returns() {
    let mut arena = Scoped::new(64).unwrap();
    let got = arena.scope(|inner: &mut Scoped<HeapAllocator>| {
        let block = inner.allocate_raw(8, 8).unwrap();
        block.size() + 1
    });
    assert_eq!(got, Ok(9));
    assert!(!arena.is_scoped());
}

#[test]
fn arena_resizes_its_last_block_in_place() {
    let mut arena = Scoped::new(64).unwrap();
    let first = arena.allocate_raw(16, 8).unwrap();
    let at = first.ptr();
    let grown = arena.reallocate_raw(first, 48).unwrap();
    assert_eq!(grown.ptr(), at);
    assert_eq!(grown.size(), 48);
    assert_eq!(grown.align(), 8);
    let shrunk = arena.reallocate_raw(grown, 8).unwrap();
    assert_eq!(shrunk.ptr(), at);
    let next = arena.allocate_raw(8, 8).unwrap();
    assert_eq!(next.ptr(), at + 8);
    // the last block may grow up to the end of the arena and no further.
    let full = arena.reallocate_raw(next, 56).unwrap();
    assert_eq!(full.size(), 56);
    let (err, kept) = arena.reallocate_raw(full, 57).unwrap_err();
    assert_eq!(err, Error::OutOfMemory);
    assert_eq!(kept.size(), 56);
}

#[test]
fn arena_moves_a_block_that_is_not_the_last() {
    let mut arena = Scoped::new(64).unwrap();
    let first = arena.allocate_raw(8, 8).unwrap();
    let second = arena.allocate_raw(8, 8).unwrap();
    let end = second.ptr() + 8;
    let moved = arena.reallocate_raw(first, 16).unwrap();
    assert_eq!(moved.ptr(), end);
    assert_eq!(moved.size(), 16);
    let (err, kept) = arena.reallocate_raw(second, 64).unwrap_err();
    assert_eq!(err, Error::OutOfMemory);
    assert_eq!(kept.size(), 8);
}

#[test]
fn arena_takes_back_its_last_block_on_reallocation_to_nothing() {
    let mut arena = Scoped::new(64).unwrap();
    let first = arena.allocate_raw(16, 8).unwrap();
    let at = first.ptr();
    assert!(arena.reallocate_raw(first, 0).unwrap().is_empty());
    assert_eq!(arena.allocate_raw(16, 8).unwrap().ptr(), at);
}

#[test]
fn arena_owns_what_lies_in_its_range() {
    let mut arena = Scoped::new(64).unwrap();
    let first = arena.allocate_raw(64, 8).unwrap();
    let at = first.ptr();
    assert!(arena.owns_block(&first));
    assert!(arena.owns_block(&Block::new(at + 63, 1, 1)));
    assert!(!arena.owns_block(&Block::new(at + 64, 1, 1)));
    assert!(!arena.owns_block(&Block::new(at - 1, 1, 1)));
}

#[test]
fn arenas_over_the_same_range_are_not_apart() {
    let mut outer = Scoped::new(64).unwrap();
    let other = Scoped::new(64).unwrap();
    let _first = outer.allocate_raw(16, 8).unwrap();
    let inner = outer.enter_scope().unwrap();
    assert!(!outer.apart_from(&inner));
    assert!(!inner.apart_from(&outer));
    assert!(outer.apart_from(&other));
    // an arena of no bytes is apart from every arena.
    let nothing = Scoped::new(0).unwrap();
    assert!(nothing.apart_from(&outer));
    assert!(outer.apart_from(&nothing));
}

#[test]
fn arena_gives_its_backing_block_back() {
    let arena = Scoped::new(64).unwrap();
    let mut heap = arena.release().unwrap();
    // the heap lends nothing now: any range may be adopted.
    let block = heap.allocate_raw(8, 8).unwrap();
    heap.deallocate_raw(block);

    let mut outer = Scoped::new(64).unwrap();
    let inner = outer.enter_scope().unwrap();
    assert!(inner.release().is_none());
}

#[test]
fn arena_over_an_arena() {
    let outer = Scoped::new(128).unwrap();
    let mut inner = Scoped::new_from(outer, 64).ok().unwrap();
    let block = inner.allocate_raw(64, 8).unwrap();
    assert_eq!(inner.allocate_raw(1, 1).unwrap_err(), Error::OutOfMemory);
    let at = block.ptr();
    let mut outer = inner.release().unwrap();
    // the backing block was the last of the outer arena, which takes it back.
    assert_eq!(outer.allocate_raw(64, 8).unwrap().ptr(), at);
    // an arena that is short hands its error back, and itself as it was.
    let (err, mut outer) = match Scoped::new_from(outer, 65) {
        Err(failed) => failed,
        Ok(_) => panic!("an arena came to be over more than its upstream has"),
    };
    assert_eq!(err, Error::OutOfMemory);
    assert_eq!(outer.allocate_raw(64, 8).unwrap().ptr(), at + 64);
}

#[test]
fn pool_hands_out_each_block_once() {
    let mut pool = FreeList::new(1024, 64).unwrap();
    let mut held = Vec::new();
    for _ in 0..64 {
        let block = pool.allocate_raw(1000, 8).unwrap();
        assert_eq!(block.size(), 1000);
        assert_eq!(block.ptr() % 8, 0);
        held.push(block);
    }
    for i in 0..64 {
        for j in 0..i {
            assert!(
                held[i].ptr() + 1024 <= held[j].ptr() || held[j].ptr() + 1024 <= held[i].ptr()
            );
        }
    }
    assert_eq!(pool.allocate_raw(1, 1).unwrap_err(), Error::OutOfMemory);
    let back = held.pop().unwrap();
    let at = back.ptr();
    pool.deallocate_raw(back);
    assert_eq!(pool.allocate_raw(1024, 1).unwrap().ptr(), at);
    assert_eq!(pool.allocate_raw(1, 1).unwrap_err(), Error::OutOfMemory);
}

#[test]
fn pool_refuses_what_does_not_fit_a_block() {
    let mut pool = FreeList::new(64, 2).unwrap();
    assert_eq!(pool.allocate_raw(65, 8).unwrap_err(), Error::OutOfMemory);
    assert_eq!(
        pool.allocate_raw(8, 2 * std::mem::align_of::<usize>()).unwrap_err(),
        Error::UnsupportedAlignment
    );
    assert!(pool.allocate_raw(0, 8).unwrap().is_empty());
    // none of these took a block.
    assert!(pool.allocate_raw(64, 8).is_ok());
    assert!(pool.allocate_raw(64, 8).is_ok());
}

#[test]
fn pool_blocks_may_not_be_smaller_than_a_word() {
    match FreeList::new(std::mem::size_of::<usize>() - 1, 4) {
        Err(Error::AllocatorSpecific(reason)) => assert_eq!(reason, "Block size too small."),
        _ => panic!("a pool of blocks below the size of a word came to be"),
    }
    assert!(FreeList::new(std::mem::size_of::<usize>(), 4).is_ok());
}

#[test]
fn pool_of_no_blocks_is_empty() {
    let mut pool = FreeList::new(64, 0).unwrap();
    assert_eq!(pool.allocate_raw(8, 8).unwrap_err(), Error::OutOfMemory);
}

#[test]
fn pool_resizes_within_a_block() {
    let mut pool = FreeList::new(64, 1).unwrap();
    let block = pool.allocate_raw(8, 8).unwrap();
    let at = block.ptr();
    let grown = pool.reallocate_raw(block, 64).unwrap();
    assert_eq!(grown.ptr(), at);
    assert_eq!(grown.size(), 64);
    assert_eq!(grown.align(), 8);
    let (err, kept) = pool.reallocate_raw(grown, 65).unwrap_err();
    assert_eq!(err, Error::OutOfMemory);
    assert_eq!(kept.size(), 64);
    assert!(pool.reallocate_raw(kept, 0).unwrap().is_empty());
    assert_eq!(pool.allocate_raw(8, 8).unwrap().ptr(), at);
}

#[test]
fn pool_over_an_arena_fails_where_the_arena_is_short() {
    let arena = Scoped::new(100).unwrap();
    let (err, mut arena) = match FreeList::new_from(arena, 64, 2) {
        Err(failed) => failed,
        Ok(_) => panic!("a pool came to be over an arena that is short"),
    };
    assert_eq!(err, Error::OutOfMemory);
    // the block that was granted went back: the arena is empty again.
    assert!(arena.allocate_raw(100, 1).is_ok());

    let arena = Scoped::new(128).unwrap();
    let mut pool = FreeList::new_from(arena, 64, 2).ok().unwrap();
    let first = pool.allocate_raw(64, 8).unwrap();
    let second = pool.allocate_raw(64, 8).unwrap();
    assert_eq!(first.ptr(), second.ptr() + 64);
}

#[test]
fn pool_that_fails_part_way_gives_every_block_back() {
    let word = std::mem::size_of::<usize>();
    let arena = Scoped::new(3 * word).unwrap();
    let (err, mut arena) = match FreeList::new_from(arena, word, 4) {
        Err(failed) => failed,
        Ok(_) => panic!("four blocks came out of room for three"),
    };
    assert_eq!(err, Error::OutOfMemory);
    let all = arena.allocate_raw(3 * word, 1).unwrap();
    assert_eq!(all.size(), 3 * word);
    assert!(arena.owns_block(&all));
}

#[test]
fn pool_of_too_small_blocks_leaves_its_upstream_untouched() {
    let mut arena = Scoped::new(64).unwrap();
    let first = arena.allocate_raw(8, 8).unwrap();
    let (err, mut arena) = match FreeList::new_from(arena, 1, 4) {
        Err(failed) => failed,
        Ok(_) => panic!("a pool of blocks below the size of a word came to be"),
    };
    assert_eq!(err, Error::AllocatorSpecific("Block size too small.".to_string()));
    assert_eq!(arena.allocate_raw(8, 8).unwrap().ptr(), first.ptr() + 8);
}

#[test]
fn pool_gives_its_free_blocks_back() {
    let arena = Scoped::new(128).unwrap();
    let mut pool = FreeList::new_from(arena, 64, 2).ok().unwrap();
    let held = pool.allocate_raw(64, 8).unwrap();
    let at = held.ptr();
    let mut arena = pool.release();
    // the free block was the first of the arena, not the last: the cursor stays.
    assert_eq!(arena.allocate_raw(1, 1).unwrap_err(), Error::OutOfMemory);
    arena.deallocate_raw(held);
    assert_eq!(arena.allocate_raw(64, 8).unwrap().ptr(), at);
}

#[test]
fn fallback_takes_over_where_main_fails() {
    let main = Scoped::new(16).unwrap();
    let fallback = Scoped::new(64).unwrap();
    assert!(main.apart_from(&fallback));
    let mut both = main.with_fallback(fallback);

    let small = both.allocate_raw(16, 8).unwrap();
    assert!(both.main.owns_block(&small));
    assert!(!both.fallback.owns_block(&small));

    let large = both.allocate_raw(32, 8).unwrap();
    assert!(both.fallback.owns_block(&large));
    assert!(!both.main.owns_block(&large));
    assert!(both.owns_block(&large));
    let at = large.ptr();

    // the block goes back to the fallback, which hands it out again.
    both.deallocate_raw(large);
    assert_eq!(both.main.allocate_raw(1, 1).unwrap_err(), Error::OutOfMemory);
    assert_eq!(both.fallback.allocate_raw(32, 8).unwrap().ptr(), at);

    // where both fail the error is the fallback's.
    assert_eq!(both.allocate_raw(64, 8).unwrap_err(), Error::OutOfMemory);
}

#[test]
fn fallback_routes_reallocation_by_ownership() {
    let main = Scoped::new(16).unwrap();
    let fallback = Scoped::new(64).unwrap();
    assert!(fallback.apart_from(&main));
    let mut both = Fallback::new(main, fallback);
    let small = both.allocate_raw(8, 8).unwrap();
    let at = small.ptr();
    let grown = both.reallocate_raw(small, 16).unwrap();
    assert_eq!(grown.ptr(), at);
    let (err, kept) = both.reallocate_raw(grown, 17).unwrap_err();
    assert_eq!(err, Error::OutOfMemory);
    assert_eq!(kept.size(), 16);
}

#[test]
fn fallback_knows_no_block_of_neither() {
    let mut both = Fallback::new(Scoped::new(16).unwrap(), NullAllocator);
    let stray = Block::new(8, 8, 8);
    assert!(!both.owns_block(&stray));
    match both.reallocate_raw(stray, 16) {
        Err((Error::AllocatorSpecific(reason), block)) => {
            assert_eq!(reason, "Neither fallback nor main owns this block.");
            assert_eq!(block.ptr(), 8);
        }
        _ => panic!("a block of neither allocator was resized"),
    }
    // giving it back is no one's business.
    both.deallocate_raw(Block::new(8, 8, 8));
    assert_eq!(both.allocate_raw(32, 8).unwrap_err(), Error::OutOfMemory);
}

#[test]
fn fallback_of_nothing_ignores_a_stray_block() {
    let mut both = Fallback::new(NullAllocator, NullAllocator);
    both.deallocate_raw(Block::new(64, 8, 8));
    assert_eq!(both.allocate_raw(8, 8).unwrap_err(), Error::OutOfMemory);
    assert!(both.spans().is_empty());
}

#[test]
fn fallback_comes_to_be_only_over_allocators_that_are_apart() {
    let mut outer = Scoped::new(64).unwrap();
    let _first = outer.allocate_raw(16, 8).unwrap();
    let inner = outer.enter_scope().unwrap();
    // a scope lies within its arena.
    let (outer, inner) = match Fallback::try_new(outer, inner) {
        Err(pair) => pair,
        Ok(_) => panic!("an arena was joined with its own scope"),
    };
    assert!(outer.is_scoped());
    assert!(!inner.is_scoped());

    let other = Scoped::new(64).unwrap();
    let mut both = match Fallback::try_new(inner, other) {
        Ok(both) => both,
        Err(_) => panic!("two arenas over blocks of their own were not joined"),
    };
    assert_eq!(both.spans().len(), 2);
    assert!(both.allocate_raw(64, 8).is_ok());

    // an allocator that answers for nothing is apart from every allocator.
    assert!(Fallback::try_new(both, NullAllocator).is_ok());
}

#[test]
fn arena_spans_its_range() {
    let mut arena = Scoped::new(64).unwrap();
    let first = arena.allocate_raw(16, 8).unwrap();
    assert_eq!(arena.spans(), vec![(first.ptr(), first.ptr() + 64)]);
    assert!(NullAllocator.spans().is_empty());
}

#[test]
fn proxy_reports_every_outcome() {
    let mut proxy = Proxy::new(Scoped::new(16).unwrap(), EventLog::new());
    let block = proxy.allocate_raw(8, 8).unwrap();
    let at = block.ptr();
    assert_eq!(proxy.allocate_raw(16, 8).unwrap_err(), Error::OutOfMemory);
    let grown = proxy.reallocate_raw(block, 16).unwrap();
    let (err, kept) = proxy.reallocate_raw(grown, 32).unwrap_err();
    assert_eq!(err, Error::OutOfMemory);
    proxy.deallocate_raw(kept);
    assert_eq!(
        proxy.logger.events(),
        &vec![
            LogEvent::AllocateSuccess(Block::new(at, 8, 8)),
            LogEvent::AllocateFail(Error::OutOfMemory, 16, 8),
            LogEvent::ReallocateSuccess(Block::new(at, 8, 8), Block::new(at, 16, 8)),
            LogEvent::ReallocateFail(Error::OutOfMemory, Block::new(at, 16, 8), 32),
            LogEvent::Deallocate(Block::new(at, 16, 8)),
        ]
    );
    // the arena behind the proxy did the work.
    assert_eq!(proxy.alloc.allocate_raw(16, 8).unwrap().ptr(), at);
}

#[test]
fn an_error_and_its_copy_are_equal() {
    let err = Error::AllocatorSpecific("pool closed".to_string());
    assert_eq!(err.clone(), err);
    assert_eq!(Error::OutOfMemory.clone(), Error::OutOfMemory);
    assert_eq!(Error::UnsupportedAlignment.clone(), Error::UnsupportedAlignment);
}
