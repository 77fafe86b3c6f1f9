//! Memory blocks, the error taxonomy and the address arithmetic shared by the allocators.
//!
//! Addresses are plain `usize` values. Nothing in this crate reads or writes the memory
//! behind an address: the allocators decide which address ranges are handed out, and the
//! contracts state which ranges those are.

use vstd::arithmetic::div_mod::{lemma_fundamental_div_mod, lemma_mod_multiples_basic};
use vstd::arithmetic::power2::is_pow2;
use vstd::layout::align_of;
use vstd::prelude::*;

verus! {

/// A region of memory: its first address, its length in bytes and its alignment.
///
/// A block of size zero is *empty*: it has no backing storage, and its address and
/// alignment carry no meaning.
#[derive(Debug, PartialEq, Eq, Structural)]
pub struct Block {
    pub ptr: usize,
    pub size: usize,
    pub align: usize,
}

impl Block {
    /// The address one past the last byte of the block.
    pub open spec fn end(&self) -> int {
        self.ptr + self.size
    }

    /// A non-empty block starts at a non-null address that satisfies its alignment, the
    /// alignment is a power of two, and the block does not run past the address space.
    pub open spec fn valid(&self) -> bool {
        self.size > 0 ==> {
            &&& self.ptr != 0
            &&& is_pow2(self.align as int)
            &&& self.ptr as int % self.align as int == 0
            &&& self.end() <= usize::MAX
        }
    }

    /// The canonical empty block.
    pub open spec fn empty_spec() -> Block {
        Block { ptr: 1, size: 0, align: 0 }
    }

    /// Two blocks overlap when both are non-empty and share an address.
    pub open spec fn overlaps(&self, other: Block) -> bool {
        &&& self.size > 0
        &&& other.size > 0
        &&& self.ptr < other.end()
        &&& other.ptr < self.end()
    }

    /// Every byte of the block lies in `[lo, hi)`.
    pub open spec fn within(&self, lo: int, hi: int) -> bool {
        lo <= self.ptr && self.end() <= hi
    }

    /// Creates a block from its parts. The address may not be null.
    pub fn new(ptr: usize, size: usize, align: usize) -> (block: Self)
        requires
            ptr != 0,
        ensures
            block == (Block { ptr, size, align }),
    {
        Block { ptr, size, align }
    }

    /// Creates the empty block.
    pub fn empty() -> (block: Self)
        ensures
            block == Block::empty_spec(),
    {
        Block { ptr: 1, size: 0, align: 0 }
    }

    /// The first address of this block.
    pub fn ptr(&self) -> (ptr: usize)
        ensures
            ptr == self.ptr,
    {
        self.ptr
    }

    /// The length of this block in bytes.
    pub fn size(&self) -> (size: usize)
        ensures
            size == self.size,
    {
        self.size
    }

    /// The alignment of this block.
    pub fn align(&self) -> (align: usize)
        ensures
            align == self.align,
    {
        self.align
    }

    /// Whether this block is empty.
    pub fn is_empty(&self) -> (empty: bool)
        ensures
            empty == (self.size == 0),
    {
        self.size == 0
    }
}

/// What can go wrong while creating an allocator or allocating from it.
#[derive(Debug, PartialEq, Eq)]
pub enum Error {
    /// The allocator could not provide the amount of memory requested of it.
    OutOfMemory,
    /// The allocator does not support the requested alignment.
    UnsupportedAlignment,
    /// A failure particular to one allocation strategy, with its reason.
    AllocatorSpecific(String),
}

impl Error {
    /// The text that describes this error.
    pub open spec fn message(&self) -> Seq<char> {
        match self {
            Error::OutOfMemory => "Allocator out of memory."@,
            Error::UnsupportedAlignment => "Attempted to allocate with unsupported alignment."@,
            Error::AllocatorSpecific(reason) => reason@,
        }
    }

    /// Whether this is an allocator-specific error whose reason reads `reason`.
    pub open spec fn is_specific(&self, reason: Seq<char>) -> bool {
        self matches Error::AllocatorSpecific(text) && text@ == reason
    }

    /// A short description of the error.
    pub fn description(&self) -> (text: &str)
        ensures
            text@ == self.message(),
    {
        match self {
            Error::OutOfMemory => "Allocator out of memory.",
            Error::UnsupportedAlignment => "Attempted to allocate with unsupported alignment.",
            Error::AllocatorSpecific(reason) => reason.as_str(),
        }
    }
}

impl Clone for Error {
    fn clone(&self) -> (copy: Self)
        ensures
            copy == *self,
    {
        match self {
            Error::OutOfMemory => Error::OutOfMemory,
            Error::UnsupportedAlignment => Error::UnsupportedAlignment,
            Error::AllocatorSpecific(reason) => Error::AllocatorSpecific(reason.clone()),
        }
    }
}

/// The alignment of a machine word, at which allocators ask their upstream allocator
/// for memory.
pub open spec fn word_align() -> usize {
    align_of::<usize>() as usize
}

/// The least multiple of `align` that is not below `addr`.
pub open spec fn align_up(addr: int, align: int) -> int {
    if addr % align == 0 {
        addr
    } else {
        addr + (align - addr % align)
    }
}

/// `align_up` yields a multiple of the alignment, at or above the address and less than
/// one alignment step away from it: the least such multiple.
pub proof fn lemma_align_up(addr: int, align: int)
    requires
        0 <= addr,
        0 < align,
    ensures
        align_up(addr, align) % align == 0,
        addr <= align_up(addr, align) < addr + align,
        forall|m: int| addr <= m && #[trigger] (m % align) == 0 ==> align_up(addr, align) <= m,
        addr % align == 0 ==> align_up(addr, align) == addr,
{
    let up = align_up(addr, align);
    let q = addr / align;
    lemma_fundamental_div_mod(addr, align);
    if addr % align != 0 {
        assert(up == align * q + align);
        assert(align * q + align == (q + 1) * align) by (nonlinear_arith);
        lemma_mod_multiples_basic(q + 1, align);
    }
    assert forall|m: int| addr <= m && #[trigger] (m % align) == 0 implies up <= m by {
        lemma_fundamental_div_mod(m, align);
        let k = m / align;
        if addr % align != 0 {
            assert(align * k >= align * q + addr % align);
            assert(k > q) by (nonlinear_arith)
                requires
                    align * k > align * q,
                    align > 0,
            ;
            assert(align * k >= align * (q + 1)) by (nonlinear_arith)
                requires
                    k >= q + 1,
                    align > 0,
            ;
            assert(align * (q + 1) == align * q + align) by (nonlinear_arith);
        }
    }
}

/// Aligns an address forward to the next multiple of `align`. There is no such address
/// where that multiple lies past the end of the address space.
pub fn align_forward(ptr: usize, align: usize) -> (aligned: Option<usize>)
    requires
        align > 0,
    ensures
        match aligned {
            Some(a) => a == align_up(ptr as int, align as int),
            None => align_up(ptr as int, align as int) > usize::MAX,
        },
{
    let rem: usize = ptr % align;
    if rem == 0 {
        Some(ptr)
    } else {
        let step: usize = align - rem;
        if step > usize::MAX - ptr {
            None
        } else {
            Some(ptr + step)
        }
    }
}

/// A power of two divides every power of two that is at least as large.
pub proof fn lemma_pow2_divides(small: int, large: int)
    requires
        is_pow2(small),
        is_pow2(large),
        small <= large,
    ensures
        large % small == 0,
    decreases small,
{
    reveal(is_pow2);
    if small == 1 {
        assert(large % 1 == 0);
    } else {
        assert(large > 1);
        lemma_pow2_divides(small / 2, large / 2);
        let k = (large / 2) / (small / 2);
        lemma_fundamental_div_mod(large / 2, small / 2);
        assert(large / 2 == (small / 2) * k);
        assert(large == small * k) by (nonlinear_arith)
            requires
                large == 2 * (large / 2),
                small == 2 * (small / 2),
                large / 2 == (small / 2) * k,
        ;
        assert(small * k == k * small) by (nonlinear_arith);
        lemma_mod_multiples_basic(k, small);
    }
}

/// An address aligned to a power of two is aligned to every smaller power of two.
pub proof fn lemma_aligned_to_smaller(addr: int, small: int, large: int)
    requires
        0 <= addr,
        is_pow2(small),
        is_pow2(large),
        small <= large,
        addr % large == 0,
    ensures
        addr % small == 0,
{
    reveal(is_pow2);
    lemma_pow2_divides(small, large);
    lemma_fundamental_div_mod(addr, large);
    lemma_fundamental_div_mod(large, small);
    let a = addr / large;
    let b = large / small;
    assert(addr == (a * b) * small) by (nonlinear_arith)
        requires
            addr == large * a,
            large == small * b,
    ;
    lemma_mod_multiples_basic(a * b, small);
}

} // verus!
