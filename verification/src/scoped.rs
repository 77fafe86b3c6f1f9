//! A scoped bump allocator: an arena that hands out blocks by advancing a cursor, takes
//! back only the block it handed out last, and can open one nested scope at a time.
//!
//! A nested scope is an arena over the unused rest of its parent. While it is open the
//! parent refuses requests; when it closes, all that it handed out is reclaimed at
//! once, since the parent's cursor never moved.

use crate::allocator::{covered, Allocator, BlockOwner};
use crate::block::{align_forward, align_up, lemma_align_up, word_align, Block, Error};
use crate::heap::HeapAllocator;
use vstd::arithmetic::power2::is_pow2;
use vstd::layout::layout_for_type_is_valid;
use vstd::prelude::*;

verus! {

/// The reason given when a request reaches an arena whose nested scope is open.
pub open spec fn scoped_reason() -> Seq<char> {
    "Called allocate on already scoped allocator."@
}

/// The state of an arena: its range `[start, end)`, its cursor, whether it holds the
/// backing block (`root`) and whether a nested scope is open (`scoped`).
pub struct ArenaView {
    pub start: int,
    pub end: int,
    pub current: int,
    pub root: bool,
    pub scoped: bool,
}

impl ArenaView {
    /// The range is in order and within the address space, and the cursor lies in it.
    pub open spec fn ordered(self) -> bool {
        0 < self.start <= self.current <= self.end <= usize::MAX
    }

    /// Where a block of `size` bytes at alignment `align` would end.
    pub open spec fn cursor_after(self, size: usize, align: usize) -> int {
        align_up(self.current, align as int) + size
    }

    /// Whether such a block fits before the end of the arena.
    pub open spec fn fits(self, size: usize, align: usize) -> bool {
        self.cursor_after(size, align) <= self.end
    }

    /// The block that a request is answered with where it fits.
    pub open spec fn carved(self, size: usize, align: usize) -> Block {
        Block { ptr: align_up(self.current, align as int) as usize, size, align }
    }

    /// The arena after that block was handed out.
    pub open spec fn bumped(self, size: usize, align: usize) -> ArenaView {
        ArenaView { current: self.cursor_after(size, align), ..self }
    }

    /// What the arena lends: the empty block and, unless a nested scope is open, every
    /// valid block in the part of the arena that lies before the cursor.
    pub open spec fn lends(self, block: Block) -> bool {
        block.size == 0 || (!self.scoped && block.valid() && block.within(
            self.start,
            self.current,
        ))
    }

    /// Whether `block` is the one that was handed out last: it ends at the cursor.
    /// While a nested scope is open no block counts as the last.
    pub open spec fn is_last(self, block: Block) -> bool {
        block.size > 0 && !self.scoped && block.end() == self.current
    }

    /// The arena with its cursor at `cursor`.
    pub open spec fn moved_to(self, cursor: int) -> ArenaView {
        ArenaView { current: cursor, ..self }
    }

    /// The arena after `block` was given back.
    pub open spec fn released(self, block: Block) -> ArenaView {
        if self.is_last(block) {
            self.moved_to(block.ptr as int)
        } else {
            self
        }
    }

    /// The nested scope of this arena: an arena over what lies past the cursor.
    pub open spec fn nested(self) -> ArenaView {
        ArenaView {
            start: self.current,
            end: self.end,
            current: self.current,
            root: false,
            scoped: false,
        }
    }

    /// The arena with the mark that tells whether a nested scope is open.
    pub open spec fn marked(self, scoped: bool) -> ArenaView {
        ArenaView { scoped, ..self }
    }

    /// The cursor after a sequence of requests, each given as size and alignment, was
    /// answered one after the other, with no end to the arena.
    pub open spec fn cursor_after_all(self, requests: Seq<(usize, usize)>) -> int
        decreases requests.len(),
    {
        if requests.len() == 0 {
            self.current
        } else {
            self.moved_to(self.cursor_after_all(requests.drop_last())).cursor_after(
                requests.last().0,
                requests.last().1,
            )
        }
    }

    /// What a request is answered with, and the state it leaves.
    pub open spec fn answers(
        self,
        size: usize,
        align: usize,
        post: ArenaView,
        res: Result<Block, Error>,
    ) -> bool {
        if self.scoped {
            &&& post == self
            &&& res matches Err(err)
            &&& err.is_specific(scoped_reason())
        } else if size == 0 {
            post == self && res == Ok::<Block, Error>(Block::empty_spec())
        } else if !self.fits(size, align) {
            post == self && res == Err::<Block, Error>(Error::OutOfMemory)
        } else {
            post == self.bumped(size, align) && res == Ok::<Block, Error>(
                self.carved(size, align),
            )
        }
    }
}

/// A scoped linear allocator over a block from the upstream allocator `A`.
pub struct Scoped<A: Allocator> {
    allocator: Option<A>,
    current: usize,
    end: usize,
    root: bool,
    start: usize,
    scoped: bool,
}

impl<A: Allocator> View for Scoped<A> {
    type V = ArenaView;

    closed spec fn view(&self) -> ArenaView {
        ArenaView {
            start: self.start as int,
            end: self.end as int,
            current: self.current as int,
            root: self.root,
            scoped: self.scoped,
        }
    }
}

impl Scoped<HeapAllocator> {
    /// Creates a new `Scoped` backed by `size` bytes from the heap.
    pub fn new(size: usize) -> (res: Result<Self, Error>)
        ensures
            match res {
                Ok(arena) => arena.wf() && arena@.is_fresh_root(size),
                Err(err) => err == Error::OutOfMemory && size > 0,
            },
    {
        match Scoped::new_from(HeapAllocator::new(), size) {
            Ok(arena) => Ok(arena),
            Err((err, _)) => Err(err),
        }
    }
}

impl ArenaView {
    /// A root arena of `size` bytes with nothing handed out.
    pub open spec fn is_fresh_root(self, size: usize) -> bool {
        &&& self.root
        &&& !self.scoped
        &&& self.current == self.start
        &&& self.end == self.start + size
        &&& size > 0 ==> self.start % (word_align() as int) == 0
    }
}

impl<A: Allocator> Scoped<A> {
    /// The upstream allocator, which only a root arena holds.
    pub closed spec fn upstream(&self) -> Option<A> {
        self.allocator
    }

    /// The block that backs a root arena.
    pub open spec fn backing(&self) -> Block {
        Block {
            ptr: self@.start as usize,
            size: (self@.end - self@.start) as usize,
            align: word_align(),
        }
    }

    /// The range is in order, the cursor lies in it, and a root arena holds its
    /// upstream allocator, which lends it the backing block.
    pub closed spec fn inv(&self) -> bool {
        &&& 0 < self.start <= self.current <= self.end
        &&& self.root == (self.allocator is Some)
        &&& self.allocator matches Some(upstream) ==> upstream.wf() && (self.start < self.end
            ==> upstream.lent(self.backing()))
    }

    /// What the invariant says of the state.
    pub proof fn lemma_inv(&self)
        requires
            self.wf(),
        ensures
            self@.ordered(),
            self@.root == (self.upstream() is Some),
            self.upstream() matches Some(upstream) ==> upstream.wf() && (self.backing().size > 0
                ==> upstream.lent(self.backing())),
    {
    }

    /// Creates a new `Scoped` backed by `size` bytes from the allocator supplied.
    ///
    /// The backing block is asked for at the alignment of a machine word. The arena
    /// comes to be where the upstream allocator grants the block. Where it does not,
    /// its error comes back, and with it the allocator as the request left it.
    pub fn new_from(alloc: A, size: usize) -> (res: Result<Self, (Error, A)>)
        requires
            alloc.wf(),
        ensures
            match res {
                Ok(arena) => {
                    &&& arena.wf()
                    &&& arena@.is_fresh_root(size)
                    &&& arena.upstream() is Some
                    &&& exists|block: Block|
                        {
                            &&& #[trigger] alloc.allocates(
                                size,
                                word_align(),
                                arena.upstream()->0,
                                Ok::<Block, Error>(block),
                            )
                            &&& size > 0 ==> block == arena.backing()
                        }
                },
                Err((err, upstream)) => {
                    &&& upstream.wf()
                    &&& upstream.domain() == alloc.domain()
                    &&& alloc.allocates(size, word_align(), upstream, Err::<Block, Error>(err))
                    &&& forall|other: Block| #[trigger]
                        alloc.lent(other) ==> upstream.lent(other)
                },
            },
    {
        let mut upstream = alloc;
        layout_for_type_is_valid::<usize>();
        let align = core::mem::align_of::<usize>();
        match upstream.allocate_raw(size, align) {
            Ok(block) => {
                let start = block.ptr();
                let end = start + block.size();
                let arena = Scoped {
                    allocator: Some(upstream),
                    current: start,
                    end,
                    root: true,
                    start,
                    scoped: false,
                };
                proof {
                    assert(size > 0 ==> block == arena.backing());
                    assert(alloc.allocates(
                        size,
                        word_align(),
                        arena.upstream()->0,
                        Ok::<Block, Error>(block),
                    ));
                }
                Ok(arena)
            },
            Err(err) => Err((err, upstream)),
        }
    }

    /// Gives the arena up. A root arena gives its backing block back to the upstream
    /// allocator and yields that allocator; a nested scope holds neither.
    pub fn release(self) -> (upstream: Option<A>)
        requires
            self.wf(),
        ensures
            match (self.upstream(), upstream) {
                (Some(before), Some(after)) => {
                    &&& after.wf()
                    &&& if self.backing().size > 0 {
                        before.deallocates(self.backing(), after)
                    } else {
                        after == before
                    }
                },
                (None, None) => true,
                _ => false,
            },
    {
        let size = self.end - self.start;
        let ghost backing = self.backing();
        let Scoped { allocator, current: _, end: _, root: _, start, scoped: _ } = self;
        match allocator {
            Some(mut upstream) => {
                if size > 0 {
                    layout_for_type_is_valid::<usize>();
                    let block = Block::new(start, size, core::mem::align_of::<usize>());
                    proof {
                        assert(block == backing);
                        upstream.lemma_lent(block);
                    }
                    upstream.deallocate_raw(block);
                }
                Some(upstream)
            },
            None => None,
        }
    }

    /// Whether this arena and `other` answer for no address in common.
    pub fn apart_from<B: Allocator>(&self, other: &Scoped<B>) -> (apart: bool)
        requires
            self.wf(),
            other.wf(),
        ensures
            apart == self.domain().disjoint(other.domain()),
    {
        let apart = self.start >= self.end || other.start >= other.end || self.end <= other.start
            || other.end <= self.start;
        proof {
            if !apart {
                let a: int = if self.start >= other.start {
                    self.start as int
                } else {
                    other.start as int
                };
                assert(self.domain().contains(a) && other.domain().contains(a));
            }
        }
        apart
    }

    /// Whether a nested scope of this arena is open.
    pub fn is_scoped(&self) -> (scoped: bool)
        ensures
            scoped == self@.scoped,
    {
        self.scoped
    }

    /// Opens the nested scope of this arena, unless one is open already.
    ///
    /// The nested scope starts at the cursor. Until it is closed this arena refuses
    /// requests.
    pub fn enter_scope(&mut self) -> (res: Result<Self, ()>)
        requires
            old(self).wf(),
        ensures
            final(self).wf(),
            final(self).upstream() == old(self).upstream(),
            match res {
                Ok(nested) => {
                    &&& !old(self)@.scoped
                    &&& final(self)@ == old(self)@.marked(true)
                    &&& nested.wf()
                    &&& nested@ == old(self)@.nested()
                },
                Err(_) => old(self)@.scoped && final(self)@ == old(self)@,
            },
    {
        if self.scoped {
            return Err(());
        }
        self.scoped = true;
        Ok(
            Scoped {
                allocator: None,
                current: self.current,
                end: self.end,
                root: false,
                start: self.current,
                scoped: false,
            },
        )
    }

    /// Closes the nested scope, which is handed in. All that it handed out is
    /// reclaimed: the cursor of this arena is where it was when the scope was opened.
    pub fn exit_scope(&mut self, nested: Self)
        requires
            old(self).wf(),
            old(self)@.scoped,
            !nested@.root,
            nested@.start == old(self)@.current,
            nested@.end == old(self)@.end,
        ensures
            final(self).wf(),
            final(self).upstream() == old(self).upstream(),
            final(self)@ == old(self)@.marked(false),
    {
        self.scoped = false;
    }

    /// Calls `f` with the nested scope of this arena and yields what `f` returns, or
    /// fails if a nested scope is open already. Afterwards the arena is as it was.
    ///
    /// The arena is borrowed exclusively for as long as `f` runs, so nothing can reach
    /// it meanwhile and it is not marked: however `f` ends, no mark is left behind.
    pub fn scope<F, U>(&mut self, f: F) -> (res: Result<U, ()>) where
        F: FnOnce(&mut Scoped<A>) -> U,

        requires
            old(self).wf(),
            !old(self)@.scoped ==> forall|nested: &mut Scoped<A>|
                (*nested).wf() && (*nested)@ == old(self)@.nested() ==> call_requires(
                    f,
                    (nested,),
                ),
        ensures
            final(self).wf(),
            final(self).upstream() == old(self).upstream(),
            final(self)@ == old(self)@,
            match res {
                Ok(value) => !old(self)@.scoped && exists|nested: &mut Scoped<A>|
                    (*nested).wf() && (*nested)@ == old(self)@.nested() && #[trigger] call_ensures(
                        f,
                        (nested,),
                        value,
                    ),
                Err(_) => old(self)@.scoped,
            },
    {
        if self.scoped {
            return Err(());
        }
        let mut nested = Scoped {
            allocator: None,
            current: self.current,
            end: self.end,
            root: false,
            start: self.current,
            scoped: false,
        };
        let ghost before = nested;
        proof {
            assert(before.wf());
            assert(before@ == old(self)@.nested());
        }
        let value = f(&mut nested);
        proof {
            assert(exists|scope: &mut Scoped<A>|
                *scope == before && #[trigger] call_ensures(f, (scope,), value));
        }
        let res = Ok(value);
        proof {
            assert(res->Ok_0 == value);
        }
        res
    }

    /// The cursor never runs backwards over a sequence of requests.
    pub proof fn lemma_cursor_grows(view: ArenaView, requests: Seq<(usize, usize)>)
        requires
            0 <= view.current,
            forall|i: int| 0 <= i < requests.len() ==> (#[trigger] requests[i]).1 > 0,
        ensures
            view.current <= view.cursor_after_all(requests),
            forall|n: int|
                0 <= n <= requests.len() ==> #[trigger] view.cursor_after_all(requests.take(n))
                    <= view.cursor_after_all(requests),
        decreases requests.len(),
    {
        if requests.len() > 0 {
            let init = requests.drop_last();
            Self::lemma_cursor_grows(view, init);
            lemma_align_up(view.cursor_after_all(init), requests.last().1 as int);
            assert forall|n: int| 0 <= n <= requests.len() implies #[trigger]
                view.cursor_after_all(requests.take(n)) <= view.cursor_after_all(requests) by {
                if n == requests.len() {
                    assert(requests.take(n) =~= requests);
                } else {
                    assert(requests.take(n) =~= init.take(n));
                }
            }
        } else {
            assert forall|n: int| 0 <= n <= requests.len() implies #[trigger]
                view.cursor_after_all(requests.take(n)) <= view.cursor_after_all(requests) by {
                assert(requests.take(n) =~= requests);
            }
        }
    }

    /// An arena that is filled to the byte answers every request on the way and none
    /// after it.
    ///
    /// Take a sequence of non-empty requests whose blocks, each aligned forward from
    /// where the one before ends, end exactly at the end of the arena. Then every one
    /// of them is granted, at the address that the cursor arithmetic gives, and once
    /// all are granted any further request for one byte or more fails for want of
    /// memory.
    pub proof fn lemma_exact_fill(view: ArenaView, requests: Seq<(usize, usize)>)
        requires
            view.ordered(),
            !view.scoped,
            forall|i: int|
                0 <= i < requests.len() ==> (#[trigger] requests[i]).0 > 0 && requests[i].1 > 0,
            view.cursor_after_all(requests) == view.end,
        ensures
            forall|n: int, post: ArenaView, res: Result<Block, Error>|
                0 <= n < requests.len() && #[trigger] view.moved_to(
                    view.cursor_after_all(requests.take(n)),
                ).answers(requests[n].0, requests[n].1, post, res) ==> {
                    &&& res is Ok
                    &&& post == view.moved_to(view.cursor_after_all(requests.take(n + 1)))
                },
            forall|size: usize, align: usize, post: ArenaView, res: Result<Block, Error>|
                size > 0 && align > 0 && #[trigger] view.moved_to(view.end).answers(
                    size,
                    align,
                    post,
                    res,
                ) ==> res == Err::<Block, Error>(Error::OutOfMemory) && post == view.moved_to(
                    view.end,
                ),
    {
        Self::lemma_cursor_grows(view, requests);
        assert forall|n: int, post: ArenaView, res: Result<Block, Error>|
            0 <= n < requests.len() && #[trigger] view.moved_to(
                view.cursor_after_all(requests.take(n)),
            ).answers(requests[n].0, requests[n].1, post, res) implies {
            &&& res is Ok
            &&& post == view.moved_to(view.cursor_after_all(requests.take(n + 1)))
        } by {
            let next = requests.take(n + 1);
            assert(next.drop_last() =~= requests.take(n));
            assert(next.last() == requests[n]);
            assert(view.cursor_after_all(next) <= view.end);
        }
        assert forall|size: usize, align: usize, post: ArenaView, res: Result<Block, Error>|
            size > 0 && align > 0 && #[trigger] view.moved_to(view.end).answers(
                size,
                align,
                post,
                res,
            ) implies res == Err::<Block, Error>(Error::OutOfMemory) && post == view.moved_to(
            view.end,
        ) by {
            lemma_align_up(view.end, align as int);
        }
    }

    /// A block that is given back right after it was handed out is handed out again.
    ///
    /// After a non-empty block was granted and given back, the same request is granted
    /// the same block.
    pub proof fn lemma_release_reuses(
        view: ArenaView,
        size: usize,
        align: usize,
        granted: ArenaView,
        block: Block,
        again: ArenaView,
        res: Result<Block, Error>,
    )
        requires
            view.ordered(),
            size > 0,
            align > 0,
            view.answers(size, align, granted, Ok::<Block, Error>(block)),
            granted.released(block).answers(size, align, again, res),
        ensures
            res == Ok::<Block, Error>(block),
            again == granted,
    {
        lemma_align_up(view.current, align as int);
        lemma_align_up(block.ptr as int, align as int);
    }

    /// Giving back a block that was not handed out last changes nothing.
    pub proof fn lemma_release_other(view: ArenaView, block: Block)
        requires
            block.end() != view.current || block.size == 0,
        ensures
            view.released(block) == view,
    {
    }

    /// While its nested scope is open an arena refuses every request and lends nothing
    /// that could be given back; once the scope is closed the arena is as it was.
    pub proof fn lemma_scope_suspends(
        view: ArenaView,
        size: usize,
        align: usize,
        block: Block,
        post: ArenaView,
        res: Result<Block, Error>,
    )
        requires
            !view.scoped,
        ensures
            view.marked(true).answers(size, align, post, res) ==> post == view.marked(true) && (
            res matches Err(err) && err.is_specific(scoped_reason())),
            view.marked(true).lends(block) ==> block.size == 0,
            view.marked(true).marked(false) == view,
    {
    }
}

impl<A: Allocator> Allocator for Scoped<A> {
    closed spec fn wf(&self) -> bool {
        self.inv()
    }

    /// The empty block and, unless a nested scope is open, every valid block in the
    /// part of the arena that lies before the cursor. While a scope is open nothing
    /// but the empty block may be given back or resized.
    open spec fn lent(&self, block: Block) -> bool {
        self@.lends(block)
    }

    open spec fn releasable(&self, block: Block) -> bool {
        self.lent(block)
    }

    open spec fn resizable(&self, block: Block) -> bool {
        self.lent(block)
    }

    open spec fn domain(&self) -> Set<int> {
        Set::new(|a: int| self@.start <= a < self@.end)
    }

    /// An arena whose nested scope is open refuses the request. A request for nothing
    /// yields the empty block. Any other request is answered with the block that
    /// starts at the cursor, aligned forward, if that block ends within the arena, and
    /// fails for want of memory if not.
    open spec fn allocates(
        &self,
        size: usize,
        align: usize,
        post: Self,
        res: Result<Block, Error>,
    ) -> bool {
        post.upstream() == self.upstream() && self@.answers(size, align, post@, res)
    }

    /// A new size of zero gives the block back. The empty block cannot grow. The block
    /// that was handed out last is resized where it lies, if the new size fits. Any
    /// other block is replaced by a new one, as if by a request for the new size at
    /// the block's alignment.
    open spec fn reallocates(
        &self,
        block: Block,
        new_size: usize,
        post: Self,
        res: Result<Block, (Error, Block)>,
    ) -> bool {
        &&& post.upstream() == self.upstream()
        &&& if new_size == 0 {
            post@ == self@.released(block) && res == Ok::<Block, (Error, Block)>(
                Block::empty_spec(),
            )
        } else if block.size == 0 {
            post@ == self@ && res == Err::<Block, (Error, Block)>(
                (Error::UnsupportedAlignment, block),
            )
        } else if self@.is_last(block) {
            if block.ptr + new_size <= self@.end {
                post@ == self@.moved_to(block.ptr + new_size) && res == Ok::<
                    Block,
                    (Error, Block),
                >(Block { ptr: block.ptr, size: new_size, align: block.align })
            } else {
                post@ == self@ && res == Err::<Block, (Error, Block)>(
                    (Error::OutOfMemory, block),
                )
            }
        } else {
            match res {
                Ok(moved) => self@.answers(
                    new_size,
                    block.align,
                    post@,
                    Ok::<Block, Error>(moved),
                ),
                Err((err, kept)) => kept == block && self@.answers(
                    new_size,
                    block.align,
                    post@,
                    Err::<Block, Error>(err),
                ),
            }
        }
    }

    /// The block that was handed out last moves the cursor back to where it starts.
    /// Any other block changes nothing.
    open spec fn deallocates(&self, block: Block, post: Self) -> bool {
        post.upstream() == self.upstream() && post@ == self@.released(block)
    }

    proof fn lemma_lent(&self, block: Block) {
    }

    fn allocate_raw(&mut self, size: usize, align: usize) -> (res: Result<Block, Error>) {
        if self.is_scoped() {
            return Err(
                Error::AllocatorSpecific("Called allocate on already scoped allocator.".to_string()),
            );
        }
        if size == 0 {
            return Ok(Block::empty());
        }
        proof {
            reveal(is_pow2);
            lemma_align_up(self.current as int, align as int);
        }
        let aligned = match align_forward(self.current, align) {
            Some(aligned) => aligned,
            None => {
                return Err(Error::OutOfMemory);
            },
        };
        if aligned > self.end || size > self.end - aligned {
            Err(Error::OutOfMemory)
        } else {
            self.current = aligned + size;
            Ok(Block::new(aligned, size, align))
        }
    }

    fn reallocate_raw(&mut self, block: Block, new_size: usize) -> (res: Result<
        Block,
        (Error, Block),
    >) {
        if new_size == 0 {
            self.deallocate_raw(block);
            Ok(Block::empty())
        } else if block.is_empty() {
            Err((Error::UnsupportedAlignment, block))
        } else if !self.scoped && block.ptr + block.size == self.current {
            if new_size <= self.end - block.ptr {
                self.current = block.ptr + new_size;
                Ok(Block::new(block.ptr, new_size, block.align))
            } else {
                Err((Error::OutOfMemory, block))
            }
        } else {
            match self.allocate_raw(new_size, block.align) {
                Ok(moved) => Ok(moved),
                Err(err) => Err((err, block)),
            }
        }
    }

    fn deallocate_raw(&mut self, block: Block) {
        if block.is_empty() {
            return ;
        }
        if self.is_scoped() {
            vstd::pervasive::unreached::<()>()
        }
        if block.ptr + block.size == self.current {
            self.current = block.ptr;
        }
    }
}

impl<A: Allocator> BlockOwner for Scoped<A> {
    fn spans(&self) -> (spans: Vec<(usize, usize)>)
        ensures
            spans@ == seq![(self@.start as usize, self@.end as usize)],
    {
        let mut spans: Vec<(usize, usize)> = Vec::new();
        spans.push((self.start, self.end));
        proof {
            assert(spans@ =~= seq![(self.start, self.end)]);
            assert forall|addr: int| #[trigger]
                self.domain().contains(addr) <==> covered(spans@, addr) by {
                if self.start <= addr < self.end {
                    assert(spans@[0].0 <= addr < spans@[0].1);
                }
            }
        }
        spans
    }

    fn owns_block(&self, block: &Block) -> (owns: bool)
        ensures
            owns == (self@.start <= block.ptr < self@.end),
    {
        block.ptr >= self.start && block.ptr < self.end
    }
}

} // verus!
