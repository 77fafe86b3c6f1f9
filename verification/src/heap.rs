//! The leaf allocator: every block is a reservation of its own from the system heap.
//!
//! A reservation is a byte buffer that the allocator keeps for as long as the block is
//! on loan. The block's address is the buffer's address, aligned forward; the buffer is
//! long enough for that. The allocator does not take the system heap's word for it that
//! a new buffer is apart from the live ones: it looks, and refuses a block that is not.

use crate::allocator::Allocator;
use crate::block::{align_forward, align_up, lemma_align_up, Block, Error};
use vstd::arithmetic::power2::is_pow2;
use vstd::prelude::*;

verus! {

/// The address of a vector's buffer, from `Vec::as_ptr`.
///
/// The buffer of a vector is never at the null address, and no allocation runs past the
/// end of the address space: the bytes that the vector holds end at or below
/// `usize::MAX`.
#[verifier::external_body]
fn buffer_address(buffer: &Vec<u8>) -> (addr: usize)
    ensures
        addr != 0,
        addr + buffer@.len() <= usize::MAX,
{
    buffer.as_ptr() as usize
}

/// One reservation: the buffer and the block that was cut from it.
struct Region {
    buffer: Vec<u8>,
    block: Block,
}

/// An allocator that takes every block from the system heap.
pub struct HeapAllocator {
    regions: Vec<Region>,
}

impl HeapAllocator {
    /// The blocks that are on loan.
    pub closed spec fn live(&self) -> Set<Block> {
        Set::new(
            |block: Block|
                exists|i: int| 0 <= i < self.regions@.len() && self.regions@[i].block == block,
        )
    }

    /// Blocks on loan are non-empty and valid, no two of them overlap, and behind each
    /// stands a buffer that is long enough for the block wherever the buffer lies.
    pub closed spec fn inv(&self) -> bool {
        &&& forall|i: int|
            0 <= i < self.regions@.len() ==> (#[trigger] self.regions@[i]).block.size > 0
                && self.regions@[i].block.valid() && self.regions@[i].buffer@.len()
                >= self.regions@[i].block.size + self.regions@[i].block.align - 1
        &&& forall|i: int, j: int|
            0 <= i < self.regions@.len() && 0 <= j < self.regions@.len() && i != j ==> !(
            #[trigger] self.regions@[i]).block.overlaps((#[trigger] self.regions@[j]).block)
    }

    /// Creates an allocator with nothing on loan.
    pub fn new() -> (heap: Self)
        ensures
            heap.wf(),
            heap.live() == Set::<Block>::empty(),
    {
        let heap = HeapAllocator { regions: Vec::new() };
        assert(heap.live() =~= Set::<Block>::empty());
        heap
    }

    /// Whether a block at `ptr` of `size` bytes would overlap a block on loan.
    fn overlaps_live(&self, ptr: usize, size: usize) -> (found: bool)
        requires
            self.inv(),
            size > 0,
            ptr + size <= usize::MAX,
        ensures
            found == exists|other: Block|
                self.live().contains(other) && (Block { ptr, size, align: 1 }).overlaps(other),
    {
        let ghost candidate = Block { ptr, size, align: 1 };
        let mut i: usize = 0;
        while i < self.regions.len()
            invariant
                self.inv(),
                i <= self.regions@.len(),
                size > 0,
                ptr + size <= usize::MAX,
                candidate == (Block { ptr, size, align: 1 }),
                forall|k: int| 0 <= k < i ==> !candidate.overlaps(self.regions@[k].block),
            decreases self.regions@.len() - i,
        {
            let other = &self.regions[i].block;
            if ptr < other.ptr + other.size && other.ptr < ptr + size {
                assert(self.live().contains(self.regions@[i as int].block));
                return true;
            }
            i += 1;
        }
        false
    }

    /// The block of `size` bytes that is cut from a buffer at `base`: it starts at the
    /// first address at or above `base` that satisfies `align`.
    pub open spec fn cut(base: usize, size: usize, align: usize) -> Block {
        Block { ptr: align_up(base as int, align as int) as usize, size, align }
    }

    /// Puts on loan the block that is cut from `buffer`, which lies at `base` and holds
    /// `size + align - 1` bytes or more, so that the block lies within it wherever the
    /// buffer starts. The buffer is kept for as long as the block is on loan.
    ///
    /// The block is refused, for want of memory, where it overlaps a block that is on
    /// loan already.
    pub fn adopt(&mut self, buffer: Vec<u8>, base: usize, size: usize, align: usize) -> (res:
        Result<Block, Error>)
        requires
            old(self).wf(),
            size > 0,
            is_pow2(align as int),
            buffer@.len() >= size + align - 1,
            base != 0,
            base + size + align - 1 <= usize::MAX,
        ensures
            final(self).wf(),
            Self::cut(base, size, align).valid(),
            if exists|other: Block|
                old(self).live().contains(other) && Self::cut(base, size, align).overlaps(other) {
                res == Err::<Block, Error>(Error::OutOfMemory) && final(self).live() == old(
                    self,
                ).live()
            } else {
                res == Ok::<Block, Error>(Self::cut(base, size, align)) && final(self).live()
                    == old(self).live().insert(Self::cut(base, size, align))
            },
    {
        proof {
            reveal(is_pow2);
            lemma_align_up(base as int, align as int);
        }
        let ptr = match align_forward(base, align) {
            Some(ptr) => ptr,
            None => {
                return Err(Error::OutOfMemory);
            },
        };
        let ghost block = Block { ptr, size, align };
        if self.overlaps_live(ptr, size) {
            proof {
                let other = choose|other: Block|
                    self.live().contains(other) && (Block { ptr, size, align: 1 }).overlaps(other);
                assert(block.overlaps(other));
            }
            return Err(Error::OutOfMemory);
        }
        self.regions.push(Region { buffer, block: Block::new(ptr, size, align) });
        proof {
            let before = old(self).regions@;
            let after = self.regions@;
            assert(after[after.len() - 1].block == block);
            assert forall|other: Block| old(self).live().contains(other) implies !block.overlaps(
                other,
            ) by {
                if block.overlaps(other) {
                    assert((Block { ptr, size, align: 1 }).overlaps(other));
                }
            }
            assert forall|i: int, j: int|
                0 <= i < after.len() && 0 <= j < after.len() && i != j implies !(
            #[trigger] after[i]).block.overlaps((#[trigger] after[j]).block) by {
                if i == after.len() - 1 {
                    assert(before[j] == after[j]);
                    assert(old(self).live().contains(after[j].block));
                } else if j == after.len() - 1 {
                    assert(before[i] == after[i]);
                    assert(old(self).live().contains(after[i].block));
                } else {
                    assert(before[i] == after[i]);
                    assert(before[j] == after[j]);
                }
            }
            assert forall|i: int| 0 <= i < after.len() implies (#[trigger] after[i]).block.size > 0
                && after[i].block.valid() && after[i].buffer@.len() >= after[i].block.size
                + after[i].block.align - 1 by {
                if i < after.len() - 1 {
                    assert(before[i] == after[i]);
                }
            }
            assert forall|other: Block|
                self.live().contains(other) <==> old(self).live().insert(block).contains(
                    other,
                ) by {
                if self.live().contains(other) {
                    let k = choose|k: int| 0 <= k < after.len() && after[k].block == other;
                    if k < after.len() - 1 {
                        assert(before[k] == after[k]);
                    }
                }
                if old(self).live().contains(other) {
                    let k = choose|k: int| 0 <= k < before.len() && before[k].block == other;
                    assert(after[k] == before[k]);
                }
            }
            assert(self.live() =~= old(self).live().insert(block));
        }
        Ok(Block::new(ptr, size, align))
    }

    /// The index of the reservation behind a non-empty block on loan.
    fn find(&self, block: &Block) -> (i: usize)
        requires
            self.inv(),
            self.live().contains(*block),
        ensures
            i < self.regions@.len(),
            self.regions@[i as int].block == *block,
    {
        let ghost at = choose|k: int|
            0 <= k < self.regions@.len() && self.regions@[k].block == *block;
        let mut i: usize = 0;
        while i < self.regions.len()
            invariant
                self.inv(),
                0 <= at < self.regions@.len(),
                self.regions@[at].block == *block,
                i <= at,
            decreases self.regions@.len() - i,
        {
            if self.regions[i].block.ptr == block.ptr {
                assert(i == at) by {
                    if i != at {
                        assert(self.regions@[i as int].block.overlaps(self.regions@[at].block));
                    }
                }
                return i;
            }
            i += 1;
        }
        proof {
            assert(false);
        }
        0
    }

    /// Ends the reservation behind a non-empty block on loan.
    fn discard(&mut self, block: &Block)
        requires
            old(self).inv(),
            old(self).live().contains(*block),
        ensures
            final(self).inv(),
            final(self).live() == old(self).live().remove(*block),
    {
        let i = self.find(block);
        let ghost before = self.regions@;
        let _region = self.regions.swap_remove(i);
        proof {
            let after = self.regions@;
            assert forall|other: Block|
                self.live().contains(other) <==> old(self).live().remove(*block).contains(
                    other,
                ) by {
                if self.live().contains(other) {
                    let k = choose|k: int| 0 <= k < after.len() && after[k].block == other;
                    if k == i {
                        assert(before[before.len() - 1].block == other);
                    } else {
                        assert(before[k].block == other);
                    }
                }
                if old(self).live().remove(*block).contains(other) {
                    let k = choose|k: int| 0 <= k < before.len() && before[k].block == other;
                    assert(k != i);
                    if k == before.len() - 1 {
                        assert(after[i as int].block == other);
                    } else {
                        assert(after[k].block == other);
                    }
                }
            }
            assert(self.live() =~= old(self).live().remove(*block));
        }
    }
}

impl Allocator for HeapAllocator {
    closed spec fn wf(&self) -> bool {
        self.inv()
    }

    open spec fn lent(&self, block: Block) -> bool {
        block.size == 0 || self.live().contains(block)
    }

    open spec fn releasable(&self, block: Block) -> bool {
        self.lent(block)
    }

    open spec fn resizable(&self, block: Block) -> bool {
        self.lent(block)
    }

    open spec fn domain(&self) -> Set<int> {
        Set::full()
    }

    /// A request for nothing yields the empty block. Any other request either fails
    /// for want of memory and changes nothing, or puts a new block on loan.
    open spec fn allocates(
        &self,
        size: usize,
        align: usize,
        post: Self,
        res: Result<Block, Error>,
    ) -> bool {
        if size == 0 {
            res == Ok::<Block, Error>(Block::empty_spec()) && post.live() == self.live()
        } else {
            ||| res == Err::<Block, Error>(Error::OutOfMemory) && post.live() == self.live()
            ||| {
                &&& res matches Ok(block)
                &&& block.size == size
                &&& block.align == align
                &&& !self.live().contains(block)
                &&& post.live() == self.live().insert(block)
            }
        }
    }

    /// A new size of zero gives the block back. The empty block cannot grow. Any other
    /// block either stays as it is, for want of memory, or is replaced by a block of
    /// the new size.
    open spec fn reallocates(
        &self,
        block: Block,
        new_size: usize,
        post: Self,
        res: Result<Block, (Error, Block)>,
    ) -> bool {
        if new_size == 0 {
            res == Ok::<Block, (Error, Block)>(Block::empty_spec()) && post.live()
                == self.live().remove(block)
        } else if block.size == 0 {
            res == Err::<Block, (Error, Block)>((Error::UnsupportedAlignment, block))
                && post.live() == self.live()
        } else {
            ||| res == Err::<Block, (Error, Block)>((Error::OutOfMemory, block)) && post.live()
                == self.live()
            ||| {
                &&& res matches Ok(resized)
                &&& resized.size == new_size
                &&& resized.align == block.align
                &&& !self.live().contains(resized)
                &&& post.live() == self.live().remove(block).insert(resized)
            }
        }
    }

    /// The block is no longer on loan.
    open spec fn deallocates(&self, block: Block, post: Self) -> bool {
        post.live() == self.live().remove(block)
    }

    proof fn lemma_lent(&self, block: Block) {
    }

    fn allocate_raw(&mut self, size: usize, align: usize) -> (res: Result<Block, Error>) {
        if size == 0 {
            return Ok(Block::empty());
        }
        proof {
            reveal(is_pow2);
        }
        let pad: usize = align - 1;
        if size > usize::MAX - pad {
            return Err(Error::OutOfMemory);
        }
        let len: usize = size + pad;
        let mut buffer: Vec<u8> = Vec::new();
        if buffer.try_reserve(len).is_err() {
            return Err(Error::OutOfMemory);
        }
        buffer.resize(len, 0u8);
        let base = buffer_address(&buffer);
        self.adopt(buffer, base, size, align)
    }

    fn reallocate_raw(&mut self, block: Block, new_size: usize) -> (res: Result<
        Block,
        (Error, Block),
    >) {
        if new_size == 0 {
            self.deallocate_raw(block);
            Ok(Block::empty())
        } else if block.is_empty() {
            Err((Error::UnsupportedAlignment, block))
        } else {
            proof {
                let k = choose|k: int|
                    0 <= k < self.regions@.len() && self.regions@[k].block == block;
                assert(self.regions@[k].block.valid());
            }
            match self.allocate_raw(new_size, block.align) {
                Ok(resized) => {
                    proof {
                        assert(self.lent(block));
                        assert(block.overlaps(block));
                    }
                    self.discard(&block);
                    proof {
                        assert(self.live() =~= old(self).live().remove(block).insert(resized));
                    }
                    Ok(resized)
                },
                Err(_) => Err((Error::OutOfMemory, block)),
            }
        }
    }

    fn deallocate_raw(&mut self, block: Block) {
        if !block.is_empty() {
            self.discard(&block);
        } else {
            proof {
                if self.live().contains(block) {
                    let k = choose|k: int|
                        0 <= k < self.regions@.len() && self.regions@[k].block == block;
                    assert(self.regions@[k].block.size > 0);
                }
                assert(self.live() =~= old(self).live().remove(block));
            }
        }
    }
}

} // verus!
