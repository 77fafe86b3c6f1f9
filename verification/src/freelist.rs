//! A free-list allocator: a pool of blocks of one size, taken from an upstream allocator
//! when the pool is made. A request is answered with the block at the head of the free
//! list, and a block that is given back becomes the head.

use crate::allocator::Allocator;
use crate::block::{lemma_aligned_to_smaller, word_align, Block, Error};
use crate::heap::HeapAllocator;
use vstd::arithmetic::power2::is_pow2;
use vstd::layout::{layout_for_type_is_valid, size_of};
use vstd::prelude::*;

verus! {

/// The reason given when the blocks of a pool would be smaller than a machine word.
pub open spec fn too_small_reason() -> Seq<char> {
    "Block size too small."@
}

/// The state of a pool: the size of its blocks, the addresses of all its blocks in the
/// order in which they were made, and the addresses of the free ones, the head of the
/// free list last.
pub struct PoolView {
    pub block_size: usize,
    pub blocks: Seq<usize>,
    pub free: Seq<usize>,
}

impl PoolView {
    /// The pool after the head of the free list was handed out.
    pub open spec fn popped(self) -> PoolView {
        PoolView { free: self.free.drop_last(), ..self }
    }

    /// The pool after the block at `ptr` became the head of the free list.
    pub open spec fn pushed(self, ptr: usize) -> PoolView {
        PoolView { free: self.free.push(ptr), ..self }
    }

    /// The pool after `block` was given back.
    pub open spec fn released(self, block: Block) -> PoolView {
        if block.size == 0 {
            self
        } else {
            self.pushed(block.ptr)
        }
    }

    /// The pool after `n` blocks were handed out.
    pub open spec fn popped_times(self, n: nat) -> PoolView
        decreases n,
    {
        if n == 0 {
            self
        } else {
            self.popped_times((n - 1) as nat).popped()
        }
    }

    /// What a request is answered with.
    pub open spec fn answers(self, size: usize, align: usize) -> Result<Block, Error> {
        if size == 0 {
            Ok(Block::empty_spec())
        } else if size > self.block_size {
            Err(Error::OutOfMemory)
        } else if align > word_align() {
            Err(Error::UnsupportedAlignment)
        } else if self.free.len() == 0 {
            Err(Error::OutOfMemory)
        } else {
            Ok(Block { ptr: self.free.last(), size, align })
        }
    }
}

/// Handing out `n` blocks takes `n` addresses off the free list.
pub proof fn lemma_popped_times(view: PoolView, n: nat)
    requires
        n <= view.free.len(),
    ensures
        view.popped_times(n).free == view.free.take(view.free.len() - n),
        view.popped_times(n).block_size == view.block_size,
    decreases n,
{
    if n == 0 {
        assert(view.free.take(view.free.len() as int) =~= view.free);
    } else {
        lemma_popped_times(view, (n - 1) as nat);
        assert(view.free.take(view.free.len() - n + 1).drop_last() =~= view.free.take(
            view.free.len() - n,
        ));
    }
}

/// A pool answers as many requests as it has free blocks and refuses the next; a block
/// that is given back is good for exactly one more request.
///
/// The requests are for one byte or more, at most the size of a block, at an alignment
/// that the pool supports.
pub proof fn lemma_pool_counts(view: PoolView, size: usize, align: usize, back: usize)
    requires
        0 < size <= view.block_size,
        align <= word_align(),
    ensures
        forall|k: nat|
            k < view.free.len() ==> (#[trigger] view.popped_times(k)).answers(size, align)
                == Ok::<Block, Error>(
                Block { ptr: view.free[view.free.len() - 1 - k], size, align },
            ),
        view.popped_times(view.free.len()).answers(size, align) == Err::<Block, Error>(
            Error::OutOfMemory,
        ),
        view.popped_times(view.free.len()).pushed(back).answers(size, align) == Ok::<
            Block,
            Error,
        >(Block { ptr: back, size, align }),
        view.popped_times(view.free.len()).pushed(back).popped().answers(size, align) == Err::<
            Block,
            Error,
        >(Error::OutOfMemory),
{
    assert forall|k: nat| k < view.free.len() implies (#[trigger] view.popped_times(k)).answers(
        size,
        align,
    ) == Ok::<Block, Error>(Block { ptr: view.free[view.free.len() - 1 - k], size, align }) by {
        lemma_popped_times(view, k);
    }
    lemma_popped_times(view, view.free.len());
    let dry = view.popped_times(view.free.len());
    assert(dry.pushed(back).free.last() == back);
    assert(dry.pushed(back).popped().free =~= dry.free);
}

/// The block of `block_size` bytes at `ptr`, at the alignment of a machine word.
pub open spec fn slot_at(ptr: usize, block_size: usize) -> Block {
    Block { ptr, size: block_size, align: word_align() }
}

/// Every address stands for a valid block of `block_size` bytes that `alloc` lends, and
/// no two of these blocks overlap.
pub open spec fn reserved<A: Allocator>(alloc: A, block_size: usize, addrs: Seq<usize>) -> bool {
    &&& forall|i: int|
        0 <= i < addrs.len() ==> slot_at(#[trigger] addrs[i], block_size).valid() && alloc.lent(
            slot_at(addrs[i], block_size),
        )
    &&& forall|i: int, j: int|
        0 <= i < addrs.len() && 0 <= j < addrs.len() && i != j ==> !slot_at(
            #[trigger] addrs[i],
            block_size,
        ).overlaps(slot_at(#[trigger] addrs[j], block_size))
}

/// `post` is what `pre` becomes when it grants the blocks at `addrs`, one request after
/// the other.
pub open spec fn grants_all<A: Allocator>(
    pre: A,
    block_size: usize,
    addrs: Seq<usize>,
    post: A,
) -> bool
    decreases addrs.len(),
{
    if addrs.len() == 0 {
        post == pre
    } else {
        exists|mid: A|
            grants_all(pre, block_size, addrs.drop_last(), mid) && #[trigger] mid.allocates(
                block_size,
                word_align(),
                post,
                Ok::<Block, Error>(slot_at(addrs.last(), block_size)),
            )
    }
}

/// `post` is what `pre` becomes when the blocks at `addrs` are given back to it, the
/// last address first.
pub open spec fn takes_back_all<A: Allocator>(
    pre: A,
    block_size: usize,
    addrs: Seq<usize>,
    post: A,
) -> bool
    decreases addrs.len(),
{
    if addrs.len() == 0 {
        post == pre
    } else {
        exists|mid: A| #[trigger]
            pre.deallocates(slot_at(addrs.last(), block_size), mid) && takes_back_all(
                mid,
                block_size,
                addrs.drop_last(),
                post,
            )
    }
}

/// Gives the blocks at `addrs` back to `alloc`, the last address first.
fn drain<A: Allocator>(alloc: &mut A, addrs: Vec<usize>, block_size: usize)
    requires
        old(alloc).wf(),
        block_size > 0,
        reserved(*old(alloc), block_size, addrs@),
    ensures
        final(alloc).wf(),
        final(alloc).domain() == old(alloc).domain(),
        takes_back_all(*old(alloc), block_size, addrs@, *final(alloc)),
{
    let ghost all = addrs@;
    let mut addrs = addrs;
    layout_for_type_is_valid::<usize>();
    let align = core::mem::align_of::<usize>();
    while addrs.len() > 0
        invariant
            alloc.wf(),
            alloc.domain() == old(alloc).domain(),
            block_size > 0,
            align == word_align(),
            reserved(*alloc, block_size, addrs@),
            forall|post: A| #[trigger]
                takes_back_all(*alloc, block_size, addrs@, post) ==> takes_back_all(
                    *old(alloc),
                    block_size,
                    all,
                    post,
                ),
        decreases addrs@.len(),
    {
        let ghost before = addrs@;
        let ghost lender = *alloc;
        let ptr = addrs.pop().unwrap();
        proof {
            assert(before[before.len() - 1] == ptr);
            alloc.lemma_lent(slot_at(ptr, block_size));
        }
        alloc.deallocate_raw(Block::new(ptr, block_size, align));
        proof {
            assert(addrs@ =~= before.drop_last());
            assert forall|i: int| 0 <= i < addrs@.len() implies slot_at(
                #[trigger] addrs@[i],
                block_size,
            ).valid() && alloc.lent(slot_at(addrs@[i], block_size)) by {
                assert(before[i] == addrs@[i]);
                assert(lender.lent(slot_at(before[i], block_size)));
                assert(!slot_at(before[i], block_size).overlaps(
                    slot_at(before[before.len() - 1], block_size),
                ));
            }
            assert forall|i: int, j: int|
                0 <= i < addrs@.len() && 0 <= j < addrs@.len() && i != j implies !slot_at(
                #[trigger] addrs@[i],
                block_size,
            ).overlaps(slot_at(#[trigger] addrs@[j], block_size)) by {
                assert(before[i] == addrs@[i]);
                assert(before[j] == addrs@[j]);
            }
            assert forall|post: A| #[trigger]
                takes_back_all(*alloc, block_size, addrs@, post) implies takes_back_all(
                *old(alloc),
                block_size,
                all,
                post,
            ) by {
                assert(lender.deallocates(slot_at(before.last(), block_size), *alloc));
                assert(takes_back_all(lender, block_size, before, post));
            }
        }
    }
    proof {
        assert(takes_back_all(*alloc, block_size, addrs@, *alloc));
    }
}

/// A `FreeList` allocator manages a list of free memory blocks of uniform size.
/// Whenever a block is requested, it returns the first free block.
pub struct FreeList<A: Allocator> {
    alloc: A,
    block_size: usize,
    free_list: Vec<usize>,
    blocks: Ghost<Seq<usize>>,
}

impl<A: Allocator> View for FreeList<A> {
    type V = PoolView;

    closed spec fn view(&self) -> PoolView {
        PoolView { block_size: self.block_size, blocks: self.blocks@, free: self.free_list@ }
    }
}

impl FreeList<HeapAllocator> {
    /// Creates a new `FreeList` backed by the heap. `block_size` must be greater than
    /// or equal to the size of a machine word.
    pub fn new(block_size: usize, num_blocks: usize) -> (res: Result<Self, Error>)
        ensures
            match res {
                Ok(pool) => {
                    &&& block_size >= size_of::<usize>()
                    &&& pool.wf()
                    &&& pool@.is_full(block_size, num_blocks)
                },
                Err(err) => if block_size < size_of::<usize>() {
                    err.is_specific(too_small_reason())
                } else {
                    err == Error::OutOfMemory && num_blocks > 0
                },
            },
    {
        match FreeList::new_from(HeapAllocator::new(), block_size, num_blocks) {
            Ok(pool) => Ok(pool),
            Err((err, _)) => Err(err),
        }
    }
}

impl PoolView {
    /// A pool of `num_blocks` blocks of `block_size` bytes, all of them free.
    pub open spec fn is_full(self, block_size: usize, num_blocks: usize) -> bool {
        &&& self.block_size == block_size
        &&& self.free.len() == num_blocks
        &&& self.blocks == self.free
    }
}

impl<A: Allocator> FreeList<A> {
    /// The upstream allocator.
    pub closed spec fn upstream(&self) -> A {
        self.alloc
    }

    /// The blocks are at least a machine word long, the upstream allocator lends every
    /// block of the pool, no two blocks of the pool overlap, and the free list holds
    /// blocks of the pool, each at most once.
    pub closed spec fn inv(&self) -> bool {
        &&& self.alloc.wf()
        &&& self.block_size >= size_of::<usize>() > 0
        &&& reserved(self.alloc, self.block_size, self.blocks@)
        &&& self.free_list@.no_duplicates()
        &&& forall|i: int|
            0 <= i < self.free_list@.len() ==> self.blocks@.contains(#[trigger] self.free_list@[i])
    }

    /// What the invariant says of the state.
    pub proof fn lemma_inv(&self)
        requires
            self.wf(),
        ensures
            self.upstream().wf(),
            self@.block_size >= size_of::<usize>() > 0,
            reserved(self.upstream(), self@.block_size, self@.blocks),
            self@.free.no_duplicates(),
            forall|i: int| 0 <= i < self@.free.len() ==> self@.blocks.contains(#[trigger] self@.free[i]),
    {
    }

    /// Creates a new `FreeList` backed by another allocator. `block_size` must be
    /// greater than or equal to the size of a machine word.
    ///
    /// Every block is asked for on its own, at the alignment of a machine word. Where
    /// one of these requests fails, the blocks that were granted go back to the
    /// upstream allocator, and the error of the failed request is returned together
    /// with that allocator. Where the block size is too small the upstream allocator
    /// comes back untouched. A pool of no blocks asks for nothing and always comes to
    /// be.
    pub fn new_from(alloc: A, block_size: usize, num_blocks: usize) -> (res: Result<
        Self,
        (Error, A),
    >)
        requires
            alloc.wf(),
        ensures
            match res {
                Ok(pool) => {
                    &&& block_size >= size_of::<usize>()
                    &&& pool.wf()
                    &&& pool@.is_full(block_size, num_blocks)
                    &&& grants_all(alloc, block_size, pool@.free, pool.upstream())
                    &&& pool.upstream().domain() == alloc.domain()
                    &&& forall|other: Block| #[trigger]
                        alloc.lent(other) ==> pool.upstream().lent(other)
                },
                Err((err, upstream)) => {
                    &&& upstream.wf()
                    &&& upstream.domain() == alloc.domain()
                    &&& if block_size < size_of::<usize>() {
                        err.is_specific(too_small_reason()) && upstream == alloc
                    } else {
                        exists|addrs: Seq<usize>, before: A, after: A|
                            {
                                &&& addrs.len() < num_blocks
                                &&& #[trigger] grants_all(alloc, block_size, addrs, before)
                                &&& #[trigger] before.allocates(
                                    block_size,
                                    word_align(),
                                    after,
                                    Err::<Block, Error>(err),
                                )
                                &&& takes_back_all(after, block_size, addrs, upstream)
                            }
                    }
                },
            },
    {
        broadcast use vstd::layout::layout_of_primitives;

        if block_size < core::mem::size_of::<usize>() {
            return Err((Error::AllocatorSpecific("Block size too small.".to_string()), alloc));
        }
        layout_for_type_is_valid::<usize>();
        let align = core::mem::align_of::<usize>();
        let mut upstream = alloc;
        let mut free_list: Vec<usize> = Vec::new();
        let mut made: usize = 0;
        while made < num_blocks
            invariant
                upstream.wf(),
                upstream.domain() == alloc.domain(),
                block_size >= size_of::<usize>() > 0,
                align == word_align(),
                is_pow2(align as int),
                made <= num_blocks,
                free_list@.len() == made,
                reserved(upstream, block_size, free_list@),
                grants_all(alloc, block_size, free_list@, upstream),
                forall|other: Block| #[trigger] alloc.lent(other) ==> upstream.lent(other),
            decreases num_blocks - made,
        {
            let ghost lender = upstream;
            let ghost before = free_list@;
            match upstream.allocate_raw(block_size, align) {
                Ok(block) => {
                    free_list.push(block.ptr());
                    made += 1;
                    proof {
                        assert(block == slot_at(block.ptr, block_size));
                        assert(free_list@.drop_last() =~= before);
                        assert(lender.allocates(
                            block_size,
                            word_align(),
                            upstream,
                            Ok::<Block, Error>(slot_at(free_list@.last(), block_size)),
                        ));
                        assert forall|i: int| 0 <= i < free_list@.len() implies slot_at(
                            #[trigger] free_list@[i],
                            block_size,
                        ).valid() && upstream.lent(slot_at(free_list@[i], block_size)) by {
                            if i < before.len() {
                                assert(before[i] == free_list@[i]);
                                assert(lender.lent(slot_at(before[i], block_size)));
                            }
                        }
                        assert forall|i: int, j: int|
                            0 <= i < free_list@.len() && 0 <= j < free_list@.len() && i
                                != j implies !slot_at(#[trigger] free_list@[i], block_size).overlaps(
                            slot_at(#[trigger] free_list@[j], block_size),
                        ) by {
                            if i < before.len() {
                                assert(before[i] == free_list@[i]);
                                assert(lender.lent(slot_at(before[i], block_size)));
                            }
                            if j < before.len() {
                                assert(before[j] == free_list@[j]);
                                assert(lender.lent(slot_at(before[j], block_size)));
                            }
                        }
                        assert forall|other: Block| #[trigger]
                            alloc.lent(other) implies upstream.lent(other) by {
                            assert(lender.lent(other));
                        }
                    }
                },
                Err(err) => {
                    proof {
                        assert(before.len() < num_blocks);
                        assert(grants_all(alloc, block_size, before, lender));
                        assert(lender.allocates(
                            block_size,
                            word_align(),
                            upstream,
                            Err::<Block, Error>(err),
                        ));
                    }
                    let ghost failed = upstream;
                    drain(&mut upstream, free_list, block_size);
                    proof {
                        assert(takes_back_all(failed, block_size, before, upstream));
                    }
                    return Err((err, upstream));
                },
            }
        }
        proof {
            lemma_distinct(block_size, free_list@);
        }
        Ok(FreeList { alloc: upstream, block_size, free_list, blocks: Ghost(free_list@) })
    }

    /// Gives the pool up: every block that is free goes back to the upstream allocator,
    /// which is returned. Blocks that are still handed out stay with the upstream
    /// allocator as they are.
    pub fn release(self) -> (upstream: A)
        requires
            self.wf(),
        ensures
            upstream.wf(),
            upstream.domain() == self.upstream().domain(),
            takes_back_all(self.upstream(), self@.block_size, self@.free, upstream),
    {
        let FreeList { alloc, block_size, free_list, blocks } = self;
        let mut upstream = alloc;
        proof {
            assert forall|i: int| 0 <= i < free_list@.len() implies slot_at(
                #[trigger] free_list@[i],
                block_size,
            ).valid() && upstream.lent(slot_at(free_list@[i], block_size)) by {
                let k = blocks@.index_of(free_list@[i]);
                assert(blocks@[k] == free_list@[i]);
            }
            assert forall|i: int, j: int|
                0 <= i < free_list@.len() && 0 <= j < free_list@.len() && i != j implies !slot_at(
                #[trigger] free_list@[i],
                block_size,
            ).overlaps(slot_at(#[trigger] free_list@[j], block_size)) by {
                let k = blocks@.index_of(free_list@[i]);
                let m = blocks@.index_of(free_list@[j]);
                assert(blocks@[k] == free_list@[i]);
                assert(blocks@[m] == free_list@[j]);
            }
        }
        drain(&mut upstream, free_list, block_size);
        upstream
    }
}

/// Blocks that do not overlap start at different addresses.
proof fn lemma_distinct(block_size: usize, addrs: Seq<usize>)
    requires
        block_size > 0,
        forall|i: int, j: int|
            0 <= i < addrs.len() && 0 <= j < addrs.len() && i != j ==> !slot_at(
                #[trigger] addrs[i],
                block_size,
            ).overlaps(slot_at(#[trigger] addrs[j], block_size)),
    ensures
        addrs.no_duplicates(),
{
    assert forall|i: int, j: int|
        0 <= i < addrs.len() && 0 <= j < addrs.len() && i != j implies addrs[i] != addrs[j] by {
        if addrs[i] == addrs[j] {
            assert(slot_at(addrs[i], block_size).overlaps(slot_at(addrs[j], block_size)));
        }
    }
}

impl<A: Allocator> Allocator for FreeList<A> {
    closed spec fn wf(&self) -> bool {
        self.inv()
    }

    /// The empty block, and every valid block that starts where a block of the pool
    /// that is not free starts, and is no longer and no more aligned than that one.
    open spec fn lent(&self, block: Block) -> bool {
        block.size == 0 || {
            &&& block.valid()
            &&& self@.blocks.contains(block.ptr)
            &&& !self@.free.contains(block.ptr)
            &&& block.size <= self@.block_size
            &&& block.align <= word_align()
        }
    }

    open spec fn releasable(&self, block: Block) -> bool {
        self.lent(block)
    }

    open spec fn resizable(&self, block: Block) -> bool {
        self.lent(block)
    }

    open spec fn domain(&self) -> Set<int> {
        Set::full()
    }

    /// A request for nothing yields the empty block. A request for more than a block
    /// of the pool fails for want of memory, and one for more than the alignment of a
    /// machine word fails as unsupported. Any other request is answered with the block
    /// at the head of the free list, in the size requested, or fails for want of
    /// memory where no block is free.
    open spec fn allocates(
        &self,
        size: usize,
        align: usize,
        post: Self,
        res: Result<Block, Error>,
    ) -> bool {
        &&& post.upstream() == self.upstream()
        &&& res == self@.answers(size, align)
        &&& post@ == if res is Ok && size > 0 {
            self@.popped()
        } else {
            self@
        }
    }

    /// A new size of zero gives the block back. The empty block cannot grow. Any other
    /// block is resized where it lies if the new size is at most that of a block of the
    /// pool, and stays as it is, for want of memory, if not.
    open spec fn reallocates(
        &self,
        block: Block,
        new_size: usize,
        post: Self,
        res: Result<Block, (Error, Block)>,
    ) -> bool {
        &&& post.upstream() == self.upstream()
        &&& if new_size == 0 {
            post@ == self@.released(block) && res == Ok::<Block, (Error, Block)>(
                Block::empty_spec(),
            )
        } else if block.size == 0 {
            post@ == self@ && res == Err::<Block, (Error, Block)>(
                (Error::UnsupportedAlignment, block),
            )
        } else if new_size <= self@.block_size {
            post@ == self@ && res == Ok::<Block, (Error, Block)>(
                Block { ptr: block.ptr, size: new_size, align: block.align },
            )
        } else {
            post@ == self@ && res == Err::<Block, (Error, Block)>((Error::OutOfMemory, block))
        }
    }

    /// A block that is not empty becomes the head of the free list.
    open spec fn deallocates(&self, block: Block, post: Self) -> bool {
        post.upstream() == self.upstream() && post@ == self@.released(block)
    }

    proof fn lemma_lent(&self, block: Block) {
    }

    fn allocate_raw(&mut self, size: usize, align: usize) -> (res: Result<Block, Error>) {
        if size == 0 {
            return Ok(Block::empty());
        } else if size > self.block_size {
            return Err(Error::OutOfMemory);
        }
        layout_for_type_is_valid::<usize>();
        if align > core::mem::align_of::<usize>() {
            return Err(Error::UnsupportedAlignment);
        }
        let ghost before = self.free_list@;
        match self.free_list.pop() {
            Some(ptr) => {
                let ghost block = Block { ptr, size, align };
                proof {
                    let at = before.len() - 1;
                    assert(before[at] == ptr);
                    let k = self.blocks@.index_of(ptr);
                    assert(self.blocks@[k] == ptr);
                    assert(slot_at(ptr, self.block_size).valid());
                    lemma_aligned_to_smaller(ptr as int, align as int, word_align() as int);
                    assert forall|i: int| 0 <= i < self.free_list@.len() implies before[i]
                        == #[trigger] self.free_list@[i] by {}
                    assert(!self.free_list@.contains(ptr));
                    assert forall|other: Block| #[trigger] old(self).lent(other) implies !block.overlaps(
                        other,
                    ) && self.lent(other) by {
                        if other.size > 0 {
                            assert(before.contains(ptr));
                            let m = self.blocks@.index_of(other.ptr);
                            assert(self.blocks@[m] == other.ptr);
                            assert(!slot_at(self.blocks@[k], self.block_size).overlaps(
                                slot_at(self.blocks@[m], self.block_size),
                            ));
                            if self.free_list@.contains(other.ptr) {
                                let i = self.free_list@.index_of(other.ptr);
                                assert(before[i] == other.ptr);
                            }
                        }
                    }
                }
                Ok(Block::new(ptr, size, align))
            },
            None => Err(Error::OutOfMemory),
        }
    }

    fn reallocate_raw(&mut self, block: Block, new_size: usize) -> (res: Result<
        Block,
        (Error, Block),
    >) {
        if new_size == 0 {
            self.deallocate_raw(block);
            Ok(Block::empty())
        } else if block.is_empty() {
            Err((Error::UnsupportedAlignment, block))
        } else if new_size <= self.block_size {
            let resized = Block::new(block.ptr, new_size, block.align);
            proof {
                let k = self.blocks@.index_of(block.ptr);
                assert(self.blocks@[k] == block.ptr);
                assert(slot_at(block.ptr, self.block_size).valid());
                assert forall|other: Block| #[trigger]
                    old(self).lent(other) && !other.overlaps(block) implies !resized.overlaps(
                    other,
                ) by {
                    if other.size > 0 {
                        let m = self.blocks@.index_of(other.ptr);
                        assert(self.blocks@[m] == other.ptr);
                        assert(other.ptr != block.ptr);
                        assert(!slot_at(self.blocks@[k], self.block_size).overlaps(
                            slot_at(self.blocks@[m], self.block_size),
                        ));
                    }
                }
            }
            Ok(resized)
        } else {
            Err((Error::OutOfMemory, block))
        }
    }

    fn deallocate_raw(&mut self, block: Block) {
        if !block.is_empty() {
            let ghost before = self.free_list@;
            self.free_list.push(block.ptr);
            proof {
                assert forall|i: int| 0 <= i < before.len() implies before[i]
                    == #[trigger] self.free_list@[i] by {}
                assert forall|i: int| 0 <= i < self.free_list@.len() implies self.blocks@.contains(
                    #[trigger] self.free_list@[i],
                ) by {
                    if i < before.len() {
                        assert(before[i] == self.free_list@[i]);
                    }
                }
                assert forall|other: Block|
                    #![trigger old(self).lent(other)]
                    #![trigger self.lent(other)]
                    old(self).lent(other) && !other.overlaps(block) implies self.lent(other) by {
                    if other.size > 0 {
                        assert(other.ptr != block.ptr);
                        if self.free_list@.contains(other.ptr) {
                            let i = self.free_list@.index_of(other.ptr);
                            assert(before[i] == other.ptr);
                        }
                    }
                }
            }
        }
    }
}

} // verus!
