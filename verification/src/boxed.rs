//! Ownership handles: a value bound to the block that was reserved for it.
//!
//! A `Place` is a block reserved for a value that has not been written yet. Finalizing
//! it with the value is the only way to turn it into an `AllocBox`. Both hold their
//! block until it is given back to the allocator it came from, with `release` or `take`.

use crate::allocator::Allocator;
use crate::block::{Block, Error};
use std::any::Any;
use std::marker::PhantomData;
use vstd::layout::{align_of, layout_for_type_is_valid, size_of};
use vstd::prelude::*;

verus! {

/// A value whose concrete type is known only at run time.
#[verifier::external_body]
pub struct Dynamic {
    value: Box<dyn Any>,
}

/// Forgets the static type of a boxed value, by the unsizing coercion from `Box<T>` to
/// `Box<dyn Any>`. Nothing is claimed of the result.
#[verifier::external_body]
fn erase<T: 'static>(value: Box<T>) -> Dynamic {
    Dynamic { value }
}

/// Recovers a value of the concrete type `T` with `Box<dyn Any>::downcast`. Where the
/// value is of another type, `downcast` hands the box back as it was, and so does this.
#[verifier::external_body]
fn recover<T: 'static>(dynamic: Dynamic) -> (res: Result<Box<T>, Dynamic>)
    ensures
        res matches Err(kept) ==> kept == dynamic,
{
    match dynamic.value.downcast::<T>() {
        Ok(value) => Ok(value),
        Err(value) => Err(Dynamic { value }),
    }
}

/// A value allocated by a custom allocator, together with the block that backs it.
pub struct AllocBox<T> {
    item: Box<T>,
    block: Block,
}

impl<T> AllocBox<T> {
    /// The value that this handle owns.
    pub closed spec fn value(&self) -> T {
        *self.item
    }

    /// The block that backs the value.
    pub closed spec fn block(&self) -> Block {
        self.block
    }

    /// Consumes the handle, gives its block back to `alloc` and yields the value.
    pub fn take<A: Allocator>(self, alloc: &mut A) -> (val: T)
        requires
            old(alloc).wf(),
            old(alloc).lent(self.block()),
        ensures
            val == self.value(),
            final(alloc).wf(),
            final(alloc).domain() == old(alloc).domain(),
            old(alloc).deallocates(self.block(), *final(alloc)),
            forall|other: Block|
                #![trigger old(alloc).lent(other)]
                #![trigger final(alloc).lent(other)]
                old(alloc).lent(other) && !other.overlaps(self.block()) ==> final(alloc).lent(
                    other,
                ),
    {
        let AllocBox { item, block } = self;
        proof {
            alloc.lemma_lent(block);
        }
        alloc.deallocate_raw(block);
        *item
    }

    /// A copy of the description of the block that backs the value. The handle keeps
    /// the block: the copy may not be given back while the handle lives.
    pub fn as_block(&self) -> (block: Block)
        ensures
            block == self.block(),
    {
        Block { ptr: self.block.ptr, size: self.block.size, align: self.block.align }
    }

    /// Shared access to the value.
    pub fn borrow(&self) -> (val: &T)
        ensures
            *val == self.value(),
    {
        &*self.item
    }

    /// Exclusive access to the value. The block stays the same.
    pub fn borrow_mut(&mut self) -> (val: &mut T)
        ensures
            *val == old(self).value(),
            final(self).value() == *final(val),
            final(self).block() == old(self).block(),
    {
        &mut *self.item
    }

    /// Ends the handle: the value is destructed first, then its block is given back to
    /// `alloc`.
    pub fn release<A: Allocator>(self, alloc: &mut A)
        requires
            old(alloc).wf(),
            old(alloc).lent(self.block()),
        ensures
            final(alloc).wf(),
            final(alloc).domain() == old(alloc).domain(),
            old(alloc).deallocates(self.block(), *final(alloc)),
            forall|other: Block|
                #![trigger old(alloc).lent(other)]
                #![trigger final(alloc).lent(other)]
                old(alloc).lent(other) && !other.overlaps(self.block()) ==> final(alloc).lent(
                    other,
                ),
    {
        let AllocBox { item, block } = self;
        {
            let _value = item;
        }
        proof {
            alloc.lemma_lent(block);
        }
        alloc.deallocate_raw(block);
    }
}

impl<T: 'static> AllocBox<T> {
    /// Turns the handle into one of a dynamic type, over the same block. The value is
    /// neither copied nor rebuilt.
    pub fn into_dyn(self) -> (handle: AllocBox<Dynamic>)
        ensures
            handle.block() == self.block(),
    {
        let AllocBox { item, block } = self;
        AllocBox { item: Box::new(erase(item)), block }
    }
}

impl<T> core::ops::Deref for AllocBox<T> {
    type Target = T;

    fn deref(&self) -> (val: &T)
        ensures
            *val == self.value(),
    {
        &*self.item
    }
}

/// Binds the outcome of recovering a concrete type to the block of the handle that
/// held the dynamic value: a recovered value gets a handle of its own over `block`,
/// and a value that was handed back gets the handle it had.
pub fn rebind<T>(recovered: Result<Box<T>, Dynamic>, block: Block) -> (res: Result<
    AllocBox<T>,
    AllocBox<Dynamic>,
>)
    ensures
        match recovered {
            Ok(value) => res matches Ok(handle) && handle.value() == *value && handle.block()
                == block,
            Err(dynamic) => res matches Err(handle) && handle.value() == dynamic
                && handle.block() == block,
        },
{
    match recovered {
        Ok(item) => Ok(AllocBox { item, block }),
        Err(dynamic) => Err(AllocBox { item: Box::new(dynamic), block }),
    }
}

impl AllocBox<Dynamic> {
    /// Attempts to recover the concrete type `T`.
    ///
    /// Either way the block stays with the value, and nothing is destructed or given
    /// back. On failure the handle that comes back is the one that went in.
    pub fn downcast<T: 'static>(self) -> (res: Result<AllocBox<T>, AllocBox<Dynamic>>)
        ensures
            match res {
                Ok(handle) => handle.block() == self.block(),
                Err(kept) => kept == self,
            },
    {
        let AllocBox { item, block } = self;
        rebind(recover::<T>(*item), block)
    }
}

/// A block reserved for a `T` that has not been written yet.
pub struct Place<T> {
    block: Block,
    marker: PhantomData<T>,
}

impl<T> Place<T> {
    /// The reserved block.
    pub closed spec fn block(&self) -> Block {
        self.block
    }

    /// The address at which the value will live.
    pub fn pointer(&self) -> (ptr: usize)
        ensures
            ptr == self.block().ptr,
    {
        self.block.ptr
    }

    /// Writes the value: the place becomes a handle that owns the value and the block.
    pub fn finalize(self, value: Box<T>) -> (handle: AllocBox<T>)
        ensures
            handle.value() == *value,
            handle.block() == self.block(),
    {
        let Place { block, marker: _ } = self;
        AllocBox { item: value, block }
    }

    /// Abandons the place: its block is given back to `alloc`, and no value is
    /// destructed, since none was written.
    pub fn release<A: Allocator>(self, alloc: &mut A)
        requires
            old(alloc).wf(),
            old(alloc).lent(self.block()),
        ensures
            final(alloc).wf(),
            final(alloc).domain() == old(alloc).domain(),
            old(alloc).deallocates(self.block(), *final(alloc)),
            forall|other: Block|
                #![trigger old(alloc).lent(other)]
                #![trigger final(alloc).lent(other)]
                old(alloc).lent(other) && !other.overlaps(self.block()) ==> final(alloc).lent(
                    other,
                ),
    {
        let Place { block, marker: _ } = self;
        proof {
            alloc.lemma_lent(block);
        }
        alloc.deallocate_raw(block);
    }
}

/// Reserves a block of the size and alignment of `T` from `alloc`.
pub fn make_place<A: Allocator, T>(alloc: &mut A) -> (res: Result<Place<T>, Error>)
    requires
        old(alloc).wf(),
    ensures
        final(alloc).wf(),
        final(alloc).domain() == old(alloc).domain(),
        old(alloc).allocates(
            size_of::<T>() as usize,
            align_of::<T>() as usize,
            *final(alloc),
            match res {
                Ok(place) => Ok(place.block()),
                Err(err) => Err(err),
            },
        ),
        res matches Ok(place) ==> {
            &&& place.block().size == size_of::<T>()
            &&& size_of::<T>() > 0 ==> place.block().align == align_of::<T>()
            &&& place.block().valid()
            &&& final(alloc).lent(place.block())
            &&& forall|other: Block| #[trigger]
                old(alloc).lent(other) ==> !place.block().overlaps(other)
        },
        forall|other: Block|
            #![trigger old(alloc).lent(other)]
            #![trigger final(alloc).lent(other)]
            old(alloc).lent(other) ==> final(alloc).lent(other),
{
    layout_for_type_is_valid::<T>();
    let size = core::mem::size_of::<T>();
    let align = core::mem::align_of::<T>();
    match alloc.allocate_raw(size, align) {
        Ok(block) => Ok(Place { block, marker: PhantomData }),
        Err(err) => Err(err),
    }
}

} // verus!
