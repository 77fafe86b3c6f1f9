//! Building blocks for allocator chains: an allocator that always fails, a pair of
//! allocators where the second takes over when the first fails, and a proxy that
//! reports every operation to a logger.

use crate::allocator::{covered, Allocator, BlockOwner};
use crate::block::{Block, Error};
use vstd::prelude::*;

verus! {

/// This allocator always fails. It lends no block, so nothing can be given back to it.
pub struct NullAllocator;

impl Allocator for NullAllocator {
    open spec fn wf(&self) -> bool {
        true
    }

    open spec fn lent(&self, block: Block) -> bool {
        false
    }

    open spec fn releasable(&self, block: Block) -> bool {
        false
    }

    open spec fn resizable(&self, block: Block) -> bool {
        true
    }

    open spec fn domain(&self) -> Set<int> {
        Set::empty()
    }

    open spec fn allocates(
        &self,
        size: usize,
        align: usize,
        post: Self,
        res: Result<Block, Error>,
    ) -> bool {
        res == Err::<Block, Error>(Error::OutOfMemory)
    }

    open spec fn reallocates(
        &self,
        block: Block,
        new_size: usize,
        post: Self,
        res: Result<Block, (Error, Block)>,
    ) -> bool {
        res == Err::<Block, (Error, Block)>((Error::OutOfMemory, block))
    }

    open spec fn deallocates(&self, block: Block, post: Self) -> bool {
        false
    }

    proof fn lemma_lent(&self, block: Block) {
    }

    fn allocate_raw(&mut self, size: usize, align: usize) -> (res: Result<Block, Error>) {
        Err(Error::OutOfMemory)
    }

    fn reallocate_raw(&mut self, block: Block, new_size: usize) -> (res: Result<
        Block,
        (Error, Block),
    >) {
        Err((Error::OutOfMemory, block))
    }

    fn deallocate_raw(&mut self, block: Block) {
        vstd::pervasive::unreached::<()>()
    }
}

impl BlockOwner for NullAllocator {
    fn spans(&self) -> (spans: Vec<(usize, usize)>)
        ensures
            spans@.len() == 0,
    {
        Vec::new()
    }

    fn owns_block(&self, block: &Block) -> (owns: bool)
        ensures
            !owns,
    {
        false
    }
}

/// Whether two half-open ranges have an address in common.
pub open spec fn cross(left: (usize, usize), right: (usize, usize)) -> bool {
    left.0 < left.1 && right.0 < right.1 && left.0 < right.1 && right.0 < left.1
}

/// Whether some address lies in a range of `left` and in a range of `right`.
pub fn spans_meet(left: &Vec<(usize, usize)>, right: &Vec<(usize, usize)>) -> (meet: bool)
    ensures
        meet == exists|addr: int| covered(left@, addr) && covered(right@, addr),
{
    let mut i: usize = 0;
    while i < left.len()
        invariant
            i <= left@.len(),
            forall|k: int, m: int|
                0 <= k < i && 0 <= m < right@.len() ==> !cross(
                    #[trigger] left@[k],
                    #[trigger] right@[m],
                ),
        decreases left@.len() - i,
    {
        let (lo, hi) = left[i];
        let mut j: usize = 0;
        while j < right.len()
            invariant
                i < left@.len(),
                j <= right@.len(),
                (lo, hi) == left@[i as int],
                forall|m: int| 0 <= m < j ==> !cross(left@[i as int], #[trigger] right@[m]),
            decreases right@.len() - j,
        {
            let (from, to) = right[j];
            if lo < hi && from < to && lo < to && from < hi {
                proof {
                    let addr: int = if lo >= from {
                        lo as int
                    } else {
                        from as int
                    };
                    assert(left@[i as int].0 <= addr < left@[i as int].1);
                    assert(right@[j as int].0 <= addr < right@[j as int].1);
                    assert(covered(left@, addr) && covered(right@, addr));
                }
                return true;
            }
            j += 1;
        }
        i += 1;
    }
    proof {
        assert forall|addr: int| !(covered(left@, addr) && covered(right@, addr)) by {
            if covered(left@, addr) && covered(right@, addr) {
                let k = choose|k: int|
                    0 <= k < left@.len() && (#[trigger] left@[k]).0 <= addr < left@[k].1;
                let m = choose|m: int|
                    0 <= m < right@.len() && (#[trigger] right@[m]).0 <= addr < right@[m].1;
                assert(cross(left@[k], right@[m]));
            }
        }
    }
    false
}

/// The reason given when neither allocator of a `Fallback` owns a block.
pub open spec fn unowned_reason() -> Seq<char> {
    "Neither fallback nor main owns this block."@
}

/// A main and a fallback allocator. Requests go to the main allocator first and to the
/// fallback when the main allocator fails. Blocks go back to the allocator that owns
/// them.
pub struct Fallback<M: BlockOwner, F: BlockOwner> {
    pub main: M,
    pub fallback: F,
}

impl<M: BlockOwner, F: BlockOwner> Fallback<M, F> {
    /// Creates a new `Fallback` of two allocators that answer for no address in common.
    /// `try_new` is for a pair of which that is not known.
    pub fn new(main: M, fallback: F) -> (joined: Self)
        requires
            main.wf(),
            fallback.wf(),
            main.domain().disjoint(fallback.domain()),
        ensures
            joined.wf(),
            joined.main == main,
            joined.fallback == fallback,
    {
        Fallback { main, fallback }
    }

    /// Creates a new `Fallback` if the two allocators answer for no address in common,
    /// and hands them back if they do.
    pub fn try_new(main: M, fallback: F) -> (res: Result<Self, (M, F)>)
        requires
            main.wf(),
            fallback.wf(),
        ensures
            match res {
                Ok(joined) => {
                    &&& main.domain().disjoint(fallback.domain())
                    &&& joined.wf()
                    &&& joined.main == main
                    &&& joined.fallback == fallback
                },
                Err((first, second)) => {
                    &&& !main.domain().disjoint(fallback.domain())
                    &&& first == main
                    &&& second == fallback
                },
            },
    {
        let left = main.spans();
        let right = fallback.spans();
        if spans_meet(&left, &right) {
            proof {
                let addr = choose|addr: int| covered(left@, addr) && covered(right@, addr);
                assert(main.domain().contains(addr) && fallback.domain().contains(addr));
            }
            Err((main, fallback))
        } else {
            proof {
                assert forall|addr: int|
                    !(main.domain().contains(addr) && fallback.domain().contains(addr)) by {
                    assert(main.domain().contains(addr) <==> covered(left@, addr));
                    assert(fallback.domain().contains(addr) <==> covered(right@, addr));
                }
            }
            Ok(Fallback::new(main, fallback))
        }
    }

    /// A non-empty block that one side lends lies outside the other side's domain.
    proof fn lemma_sides_apart(&self, block: Block)
        requires
            self.wf(),
            block.size > 0,
        ensures
            self.main.lent(block) ==> forall|a: int|
                block.ptr <= a < block.end() ==> self.main.domain().contains(a)
                    && !#[trigger] self.fallback.domain().contains(a),
            self.fallback.lent(block) ==> forall|a: int|
                block.ptr <= a < block.end() ==> self.fallback.domain().contains(a)
                    && !#[trigger] self.main.domain().contains(a),
    {
        self.main.lemma_lent(block);
        self.fallback.lemma_lent(block);
    }

    /// Two non-empty blocks, one in each side's domain, do not overlap.
    proof fn lemma_no_overlap_across(&self, here: Block, there: Block)
        requires
            self.wf(),
            self.main.lent(here),
            self.fallback.lent(there),
        ensures
            !here.overlaps(there),
            !there.overlaps(here),
    {
        if here.overlaps(there) {
            self.lemma_sides_apart(here);
            self.lemma_sides_apart(there);
            let a: int = if here.ptr >= there.ptr {
                here.ptr as int
            } else {
                there.ptr as int
            };
            assert(self.main.domain().contains(a));
            assert(self.fallback.domain().contains(a));
        }
    }
}

impl<M: BlockOwner, F: BlockOwner> Allocator for Fallback<M, F> {
    open spec fn wf(&self) -> bool {
        &&& self.main.wf()
        &&& self.fallback.wf()
        &&& self.main.domain().disjoint(self.fallback.domain())
    }

    open spec fn lent(&self, block: Block) -> bool {
        if self.main.domain().contains(block.ptr as int) {
            self.main.lent(block)
        } else if self.fallback.domain().contains(block.ptr as int) {
            self.fallback.lent(block)
        } else {
            block.size == 0
        }
    }

    /// What the allocator that owns the block takes back, and every block that neither
    /// owns.
    open spec fn releasable(&self, block: Block) -> bool {
        if self.main.domain().contains(block.ptr as int) {
            self.main.releasable(block)
        } else if self.fallback.domain().contains(block.ptr as int) {
            self.fallback.releasable(block)
        } else {
            true
        }
    }

    open spec fn resizable(&self, block: Block) -> bool {
        if self.main.domain().contains(block.ptr as int) {
            self.main.resizable(block)
        } else if self.fallback.domain().contains(block.ptr as int) {
            self.fallback.resizable(block)
        } else {
            true
        }
    }

    open spec fn domain(&self) -> Set<int> {
        self.main.domain().union(self.fallback.domain())
    }

    /// The main allocator's answer where it succeeds; otherwise the main allocator has
    /// failed and the answer is the fallback's.
    open spec fn allocates(
        &self,
        size: usize,
        align: usize,
        post: Self,
        res: Result<Block, Error>,
    ) -> bool {
        ||| {
            &&& res is Ok
            &&& self.main.allocates(size, align, post.main, res)
            &&& post.fallback == self.fallback
        }
        ||| {
            &&& exists|err: Error|
                self.main.allocates(size, align, post.main, Err::<Block, Error>(err))
            &&& self.fallback.allocates(size, align, post.fallback, res)
        }
    }

    /// The answer of the allocator that owns the block; an allocator-specific error
    /// where neither owns it.
    open spec fn reallocates(
        &self,
        block: Block,
        new_size: usize,
        post: Self,
        res: Result<Block, (Error, Block)>,
    ) -> bool {
        if self.main.domain().contains(block.ptr as int) {
            self.main.reallocates(block, new_size, post.main, res) && post.fallback
                == self.fallback
        } else if self.fallback.domain().contains(block.ptr as int) {
            self.fallback.reallocates(block, new_size, post.fallback, res) && post.main
                == self.main
        } else {
            &&& post == *self
            &&& res matches Err((err, kept))
            &&& kept == block
            &&& err.is_specific(unowned_reason())
        }
    }

    /// The block goes to the allocator that owns it; where neither does, nothing
    /// happens.
    open spec fn deallocates(&self, block: Block, post: Self) -> bool {
        if self.main.domain().contains(block.ptr as int) {
            self.main.deallocates(block, post.main) && post.fallback == self.fallback
        } else if self.fallback.domain().contains(block.ptr as int) {
            self.fallback.deallocates(block, post.fallback) && post.main == self.main
        } else {
            post == *self
        }
    }

    proof fn lemma_lent(&self, block: Block) {
        self.main.lemma_lent(block);
        self.fallback.lemma_lent(block);
    }

    fn allocate_raw(&mut self, size: usize, align: usize) -> (res: Result<Block, Error>) {
        match self.main.allocate_raw(size, align) {
            Ok(block) => {
                proof {
                    self.main.lemma_lent(block);
                    self.fallback.lemma_lent(block);
                    assert forall|other: Block| #[trigger]
                        old(self).lent(other) implies !block.overlaps(other) by {
                        if block.overlaps(other) && !old(self).main.lent(other) {
                            old(self).fallback.lemma_lent(other);
                            self.lemma_no_overlap_across(block, other);
                        }
                    }
                }
                Ok(block)
            },
            Err(_) => {
                let ghost mid = *self;
                let res = self.fallback.allocate_raw(size, align);
                proof {
                    if res is Ok {
                        let block = res->Ok_0;
                        self.main.lemma_lent(block);
                        self.fallback.lemma_lent(block);
                        assert forall|other: Block| #[trigger]
                            old(self).lent(other) implies !block.overlaps(other) by {
                            if block.overlaps(other) && !old(self).fallback.lent(other) {
                                old(self).main.lemma_lent(other);
                                self.lemma_no_overlap_across(other, block);
                            }
                        }
                    }
                }
                res
            },
        }
    }

    fn reallocate_raw(&mut self, block: Block, new_size: usize) -> (res: Result<
        Block,
        (Error, Block),
    >) {
        if self.main.owns_block(&block) {
            let res = self.main.reallocate_raw(block, new_size);
            proof {
                if res is Ok {
                    let resized = res->Ok_0;
                    self.main.lemma_lent(resized);
                    self.fallback.lemma_lent(resized);
                    assert forall|other: Block| #[trigger]
                        old(self).lent(other) && !other.overlaps(block) implies !resized.overlaps(
                        other,
                    ) by {
                        if resized.overlaps(other) && !old(self).main.lent(other) {
                            old(self).fallback.lemma_lent(other);
                            self.lemma_no_overlap_across(resized, other);
                        }
                    }
                }
            }
            res
        } else if self.fallback.owns_block(&block) {
            let res = self.fallback.reallocate_raw(block, new_size);
            proof {
                if res is Ok {
                    let resized = res->Ok_0;
                    self.main.lemma_lent(resized);
                    self.fallback.lemma_lent(resized);
                    assert forall|other: Block| #[trigger]
                        old(self).lent(other) && !other.overlaps(block) implies !resized.overlaps(
                        other,
                    ) by {
                        if resized.overlaps(other) && !old(self).fallback.lent(other) {
                            old(self).main.lemma_lent(other);
                            self.lemma_no_overlap_across(other, resized);
                        }
                    }
                }
            }
            res
        } else {
            Err(
                (
                    Error::AllocatorSpecific(
                        "Neither fallback nor main owns this block.".to_string(),
                    ),
                    block,
                ),
            )
        }
    }

    fn deallocate_raw(&mut self, block: Block) {
        if self.main.owns_block(&block) {
            self.main.deallocate_raw(block);
        } else if self.fallback.owns_block(&block) {
            self.fallback.deallocate_raw(block);
        }
    }
}

impl<M: BlockOwner, F: BlockOwner> BlockOwner for Fallback<M, F> {
    fn spans(&self) -> (spans: Vec<(usize, usize)>) {
        let mut spans = self.main.spans();
        let mut rest = self.fallback.spans();
        let ghost first = spans@;
        let ghost second = rest@;
        spans.append(&mut rest);
        proof {
            assert forall|addr: int| #[trigger]
                self.domain().contains(addr) <==> covered(spans@, addr) by {
                if covered(first, addr) {
                    let i = choose|i: int|
                        0 <= i < first.len() && (#[trigger] first[i]).0 <= addr < first[i].1;
                    assert(spans@[i] == first[i]);
                }
                if covered(second, addr) {
                    let i = choose|i: int|
                        0 <= i < second.len() && (#[trigger] second[i]).0 <= addr < second[i].1;
                    assert(spans@[first.len() + i] == second[i]);
                }
                if covered(spans@, addr) {
                    let i = choose|i: int|
                        0 <= i < spans@.len() && (#[trigger] spans@[i]).0 <= addr < spans@[i].1;
                    if i < first.len() {
                        assert(first[i] == spans@[i]);
                    } else {
                        assert(second[i - first.len()] == spans@[i]);
                    }
                }
                assert(self.main.domain().contains(addr) <==> covered(first, addr));
                assert(self.fallback.domain().contains(addr) <==> covered(second, addr));
            }
        }
        spans
    }

    fn owns_block(&self, block: &Block) -> (owns: bool) {
        self.main.owns_block(block) || self.fallback.owns_block(block)
    }
}

/// What a proxy reports to its logger.
#[derive(Debug, PartialEq, Eq)]
pub enum LogEvent {
    /// An allocation succeeded with this block.
    AllocateSuccess(Block),
    /// An allocation of this size and alignment failed with this error.
    AllocateFail(Error, usize, usize),
    /// This block is about to be given back.
    Deallocate(Block),
    /// A reallocation turned the first block into the second.
    ReallocateSuccess(Block, Block),
    /// A reallocation of this block to this size failed with this error.
    ReallocateFail(Error, Block, usize),
}

/// Something that logs an allocator's activity: an output stream, a data collector or
/// anything else. What it does with a report is its own business; `reports` is the
/// sequence of reports that it was handed.
pub trait ProxyLogger {
    /// The reports handed to this logger so far.
    spec fn reports(&self) -> Seq<LogEvent>;

    /// Called after a successful allocation.
    fn allocate_success(&mut self, block: &Block)
        ensures
            final(self).reports() == old(self).reports().push(LogEvent::AllocateSuccess(*block)),
    ;

    /// Called after a failed allocation.
    fn allocate_fail(&mut self, err: &Error, size: usize, align: usize)
        ensures
            final(self).reports() == old(self).reports().push(
                LogEvent::AllocateFail(*err, size, align),
            ),
    ;

    /// Called when deallocating a block.
    fn deallocate(&mut self, block: &Block)
        ensures
            final(self).reports() == old(self).reports().push(LogEvent::Deallocate(*block)),
    ;

    /// Called after a successful reallocation.
    fn reallocate_success(&mut self, old_block: &Block, new_block: &Block)
        ensures
            final(self).reports() == old(self).reports().push(
                LogEvent::ReallocateSuccess(*old_block, *new_block),
            ),
    ;

    /// Called after a failed reallocation.
    fn reallocate_fail(&mut self, err: &Error, block: &Block, req_size: usize)
        ensures
            final(self).reports() == old(self).reports().push(
                LogEvent::ReallocateFail(*err, *block, req_size),
            ),
    ;
}

/// A logger that keeps every report it is handed, in the order in which they came.
pub struct EventLog {
    events: Vec<LogEvent>,
}

impl EventLog {
    /// Creates a log with no reports.
    pub fn new() -> (log: Self)
        ensures
            log.reports() == Seq::<LogEvent>::empty(),
    {
        EventLog { events: Vec::new() }
    }

    /// The reports that were handed to this log so far.
    pub fn events(&self) -> (events: &Vec<LogEvent>)
        ensures
            events@ == self.reports(),
    {
        &self.events
    }
}

impl ProxyLogger for EventLog {
    closed spec fn reports(&self) -> Seq<LogEvent> {
        self.events@
    }

    fn allocate_success(&mut self, block: &Block) {
        self.events.push(
            LogEvent::AllocateSuccess(
                Block { ptr: block.ptr, size: block.size, align: block.align },
            ),
        );
    }

    fn allocate_fail(&mut self, err: &Error, size: usize, align: usize) {
        self.events.push(LogEvent::AllocateFail(err.clone(), size, align));
    }

    fn deallocate(&mut self, block: &Block) {
        self.events.push(
            LogEvent::Deallocate(Block { ptr: block.ptr, size: block.size, align: block.align }),
        );
    }

    fn reallocate_success(&mut self, old_block: &Block, new_block: &Block) {
        self.events.push(
            LogEvent::ReallocateSuccess(
                Block { ptr: old_block.ptr, size: old_block.size, align: old_block.align },
                Block { ptr: new_block.ptr, size: new_block.size, align: new_block.align },
            ),
        );
    }

    fn reallocate_fail(&mut self, err: &Error, block: &Block, req_size: usize) {
        self.events.push(
            LogEvent::ReallocateFail(
                err.clone(),
                Block { ptr: block.ptr, size: block.size, align: block.align },
                req_size,
            ),
        );
    }
}

/// The report that follows an attempt to allocate.
pub open spec fn allocate_report(size: usize, align: usize, res: Result<Block, Error>) -> LogEvent {
    match res {
        Ok(block) => LogEvent::AllocateSuccess(block),
        Err(err) => LogEvent::AllocateFail(err, size, align),
    }
}

/// The report that follows an attempt to reallocate.
pub open spec fn reallocate_report(
    block: Block,
    new_size: usize,
    res: Result<Block, (Error, Block)>,
) -> LogEvent {
    match res {
        Ok(resized) => LogEvent::ReallocateSuccess(block, resized),
        Err((err, kept)) => LogEvent::ReallocateFail(err, kept, new_size),
    }
}

/// An allocator and a logger. Every operation goes to the allocator unchanged, and its
/// outcome is reported to the logger.
pub struct Proxy<A, L> {
    pub alloc: A,
    pub logger: L,
}

impl<A: Allocator, L: ProxyLogger> Proxy<A, L> {
    /// Creates a new proxy allocator.
    pub fn new(alloc: A, logger: L) -> (proxy: Self)
        ensures
            proxy.alloc == alloc,
            proxy.logger == logger,
    {
        Proxy { alloc, logger }
    }
}

impl<A: Allocator, L: ProxyLogger> Allocator for Proxy<A, L> {
    open spec fn wf(&self) -> bool {
        self.alloc.wf()
    }

    open spec fn lent(&self, block: Block) -> bool {
        self.alloc.lent(block)
    }

    open spec fn releasable(&self, block: Block) -> bool {
        self.alloc.releasable(block)
    }

    open spec fn resizable(&self, block: Block) -> bool {
        self.alloc.resizable(block)
    }

    open spec fn domain(&self) -> Set<int> {
        self.alloc.domain()
    }

    open spec fn allocates(
        &self,
        size: usize,
        align: usize,
        post: Self,
        res: Result<Block, Error>,
    ) -> bool {
        &&& self.alloc.allocates(size, align, post.alloc, res)
        &&& post.logger.reports() == self.logger.reports().push(allocate_report(size, align, res))
    }

    open spec fn reallocates(
        &self,
        block: Block,
        new_size: usize,
        post: Self,
        res: Result<Block, (Error, Block)>,
    ) -> bool {
        &&& self.alloc.reallocates(block, new_size, post.alloc, res)
        &&& post.logger.reports() == self.logger.reports().push(
            reallocate_report(block, new_size, res),
        )
    }

    open spec fn deallocates(&self, block: Block, post: Self) -> bool {
        &&& self.alloc.deallocates(block, post.alloc)
        &&& post.logger.reports() == self.logger.reports().push(LogEvent::Deallocate(block))
    }

    proof fn lemma_lent(&self, block: Block) {
        self.alloc.lemma_lent(block);
    }

    fn allocate_raw(&mut self, size: usize, align: usize) -> (res: Result<Block, Error>) {
        match self.alloc.allocate_raw(size, align) {
            Ok(block) => {
                self.logger.allocate_success(&block);
                Ok(block)
            },
            Err(err) => {
                self.logger.allocate_fail(&err, size, align);
                Err(err)
            },
        }
    }

    fn reallocate_raw(&mut self, block: Block, new_size: usize) -> (res: Result<
        Block,
        (Error, Block),
    >) {
        let old_copy = Block { ptr: block.ptr, size: block.size, align: block.align };
        match self.alloc.reallocate_raw(block, new_size) {
            Ok(new_block) => {
                self.logger.reallocate_success(&old_copy, &new_block);
                Ok(new_block)
            },
            Err((err, kept)) => {
                self.logger.reallocate_fail(&err, &kept, new_size);
                Err((err, kept))
            },
        }
    }

    fn deallocate_raw(&mut self, block: Block) {
        self.logger.deallocate(&block);
        self.alloc.deallocate_raw(block);
    }
}

} // verus!
