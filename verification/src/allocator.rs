//! The allocation interface that every strategy implements.
//!
//! An allocator is a state machine. Each operation is specified twice: by a relation of
//! the implementing type (`allocates`, `reallocates`, `deallocates`), which says exactly
//! what that strategy does, and by the laws below, which hold of every strategy and are
//! what generic code relies on:
//!
//! * a block that is handed out is valid, has the requested size and alignment, and is
//!   on loan (`lent`) afterwards;
//! * a block that is handed out overlaps no block that was on loan before;
//! * blocks on loan stay on loan until they are given back themselves.

use crate::block::{Block, Error};
use crate::boxed::{AllocBox, Place};
use crate::composable::Fallback;
use vstd::arithmetic::power2::is_pow2;
use vstd::layout::{align_of, size_of};
use vstd::prelude::*;

verus! {

/// A custom memory allocator.
pub trait Allocator: Sized {
    /// The invariant of the allocator's state.
    spec fn wf(&self) -> bool;

    /// Whether `block` is on loan from this allocator: it may be resized or given back.
    spec fn lent(&self, block: Block) -> bool;

    /// Whether `block` may be handed to `deallocate_raw`. Every block on loan may; an
    /// allocator that passes blocks on takes what it passes to no one.
    spec fn releasable(&self, block: Block) -> bool;

    /// Whether `block` may be handed to `reallocate_raw`. Every block on loan may; an
    /// allocator that answers without a look at the block takes any.
    spec fn resizable(&self, block: Block) -> bool;

    /// The addresses that this allocator answers for. It never changes, and every
    /// non-empty block on loan lies inside it.
    spec fn domain(&self) -> Set<int>;

    /// What `allocate_raw` does: the answer `res` and the state `post` that a request
    /// for `size` bytes at alignment `align` may lead to from this state.
    spec fn allocates(
        &self,
        size: usize,
        align: usize,
        post: Self,
        res: Result<Block, Error>,
    ) -> bool;

    /// What `reallocate_raw` does.
    spec fn reallocates(
        &self,
        block: Block,
        new_size: usize,
        post: Self,
        res: Result<Block, (Error, Block)>,
    ) -> bool;

    /// What `deallocate_raw` does.
    spec fn deallocates(&self, block: Block, post: Self) -> bool;

    /// Blocks on loan are valid, may be resized and given back and lie in the
    /// allocator's domain, and an empty block whose address the allocator answers for
    /// is on loan.
    proof fn lemma_lent(&self, block: Block)
        requires
            self.wf(),
        ensures
            self.lent(block) ==> block.valid() && self.resizable(block) && self.releasable(block),
            self.lent(block) && block.size > 0 ==> forall|a: int|
                block.ptr <= a < block.end() ==> #[trigger] self.domain().contains(a),
            block.size == 0 && self.domain().contains(block.ptr as int) ==> self.lent(block),
    ;

    /// Attempts to allocate `size` bytes aligned to `align`.
    ///
    /// A successful request for zero bytes yields the empty block.
    fn allocate_raw(&mut self, size: usize, align: usize) -> (res: Result<Block, Error>)
        requires
            old(self).wf(),
            is_pow2(align as int),
        ensures
            final(self).wf(),
            final(self).domain() == old(self).domain(),
            old(self).allocates(size, align, *final(self), res),
            res matches Ok(block) ==> {
                &&& block.size == size
                &&& block.valid()
                &&& size == 0 ==> block == Block::empty_spec()
                &&& size > 0 ==> block.align == align
                &&& final(self).lent(block)
                &&& forall|other: Block| #[trigger] old(self).lent(other) ==> !block.overlaps(other)
            },
            forall|other: Block|
                #![trigger old(self).lent(other)]
                #![trigger final(self).lent(other)]
                old(self).lent(other) ==> final(self).lent(other),
    ;

    /// Resizes a block in place or moves it, keeping its alignment.
    ///
    /// On failure the block comes back as it was, and stays on loan if it was. Where the
    /// call succeeds with a new size of zero, the block was given back and the empty
    /// block is returned.
    fn reallocate_raw(&mut self, block: Block, new_size: usize) -> (res: Result<
        Block,
        (Error, Block),
    >)
        requires
            old(self).wf(),
            old(self).resizable(block),
        ensures
            final(self).wf(),
            final(self).domain() == old(self).domain(),
            old(self).reallocates(block, new_size, *final(self), res),
            match res {
                Ok(resized) => {
                    &&& resized.size == new_size
                    &&& resized.valid()
                    &&& new_size == 0 ==> resized == Block::empty_spec()
                    &&& new_size > 0 ==> resized.align == block.align
                    &&& final(self).lent(resized)
                    &&& forall|other: Block| #[trigger]
                        old(self).lent(other) && !other.overlaps(block) ==> !resized.overlaps(
                            other,
                        )
                },
                Err((_, kept)) => {
                    &&& kept == block
                    &&& old(self).lent(block) ==> final(self).lent(block)
                },
            },
            forall|other: Block|
                #![trigger old(self).lent(other)]
                #![trigger final(self).lent(other)]
                old(self).lent(other) && !other.overlaps(block) ==> final(self).lent(other),
    ;

    /// Gives a block back. Blocks on loan that do not overlap it stay on loan.
    fn deallocate_raw(&mut self, block: Block)
        requires
            old(self).wf(),
            old(self).releasable(block),
        ensures
            final(self).wf(),
            final(self).domain() == old(self).domain(),
            old(self).deallocates(block, *final(self)),
            forall|other: Block|
                #![trigger old(self).lent(other)]
                #![trigger final(self).lent(other)]
                old(self).lent(other) && !other.overlaps(block) ==> final(self).lent(other),
    ;
}

/// Whether `addr` lies in one of the half-open ranges `spans`.
pub open spec fn covered(spans: Seq<(usize, usize)>, addr: int) -> bool {
    exists|i: int| 0 <= i < spans.len() && (#[trigger] spans[i]).0 <= addr < spans[i].1
}

/// An allocator that can tell which blocks lie in its domain.
pub trait BlockOwner: Allocator {
    /// The domain as a list of half-open address ranges.
    fn spans(&self) -> (spans: Vec<(usize, usize)>)
        requires
            self.wf(),
        ensures
            forall|addr: int| #[trigger] self.domain().contains(addr) <==> covered(spans@, addr),
    ;

    /// Whether this allocator owns the block: whether the block starts in its domain.
    fn owns_block(&self, block: &Block) -> (owns: bool)
        requires
            self.wf(),
        ensures
            owns == self.domain().contains(block.ptr as int),
    ;
}

/// Typed allocation on top of the raw interface.
pub trait AllocatorExt: Allocator {
    /// Reserves a block for a `T` and moves `val` into it.
    ///
    /// The request that reaches `allocate_raw` is for the size and alignment of `T`. On
    /// failure the value comes back with the error.
    fn allocate<T>(&mut self, val: T) -> (res: Result<AllocBox<T>, (Error, T)>)
        requires
            old(self).wf(),
        ensures
            final(self).wf(),
            final(self).domain() == old(self).domain(),
            old(self).allocates(
                size_of::<T>() as usize,
                align_of::<T>() as usize,
                *final(self),
                match res {
                    Ok(handle) => Ok(handle.block()),
                    Err((err, _)) => Err(err),
                },
            ),
            match res {
                Ok(handle) => {
                    &&& handle.value() == val
                    &&& handle.block().size == size_of::<T>()
                    &&& size_of::<T>() > 0 ==> handle.block().align == align_of::<T>()
                    &&& handle.block().valid()
                    &&& final(self).lent(handle.block())
                    &&& forall|other: Block| #[trigger]
                        old(self).lent(other) ==> !handle.block().overlaps(other)
                },
                Err((_, kept)) => kept == val,
            },
            forall|other: Block|
                #![trigger old(self).lent(other)]
                #![trigger final(self).lent(other)]
                old(self).lent(other) ==> final(self).lent(other),
    {
        match crate::boxed::make_place::<Self, T>(self) {
            Ok(place) => Ok(place.finalize(Box::new(val))),
            Err(err) => Err((err, val)),
        }
    }

    /// Reserves a block for a `T` without writing anything into it.
    fn make_place<T>(&mut self) -> (res: Result<Place<T>, Error>)
        requires
            old(self).wf(),
        ensures
            final(self).wf(),
            final(self).domain() == old(self).domain(),
            old(self).allocates(
                size_of::<T>() as usize,
                align_of::<T>() as usize,
                *final(self),
                match res {
                    Ok(place) => Ok(place.block()),
                    Err(err) => Err(err),
                },
            ),
            res matches Ok(place) ==> {
                &&& place.block().size == size_of::<T>()
                &&& size_of::<T>() > 0 ==> place.block().align == align_of::<T>()
                &&& place.block().valid()
                &&& final(self).lent(place.block())
                &&& forall|other: Block| #[trigger]
                    old(self).lent(other) ==> !place.block().overlaps(other)
            },
            forall|other: Block|
                #![trigger old(self).lent(other)]
                #![trigger final(self).lent(other)]
                old(self).lent(other) ==> final(self).lent(other),
    {
        crate::boxed::make_place::<Self, T>(self)
    }
}

impl<A: Allocator> AllocatorExt for A {

}

/// Ownership queries on handles, and chaining.
pub trait BlockOwnerExt: BlockOwner {
    /// Whether this allocator owns the block behind an allocated value.
    fn owns<T>(&self, val: &AllocBox<T>) -> (owns: bool)
        requires
            self.wf(),
        ensures
            owns == self.domain().contains(val.block().ptr as int),
    {
        let block = val.as_block();
        self.owns_block(&block)
    }

    /// Joins this allocator with a fallback allocator that answers for no address in
    /// common with it. `Fallback::try_new` is for a pair of which that is not known.
    fn with_fallback<O: BlockOwner>(self, other: O) -> (joined: Fallback<Self, O>)
        requires
            self.wf(),
            other.wf(),
            self.domain().disjoint(other.domain()),
        ensures
            joined.wf(),
            joined.main == self,
            joined.fallback == other,
    {
        Fallback::new(self, other)
    }
}

impl<A: BlockOwner> BlockOwnerExt for A {

}

} // verus!
