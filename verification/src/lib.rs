//! Composable memory allocators over an integer address space.
//!
//! Every strategy implements [`Allocator`]: it hands out [`Block`]s, resizes them and
//! takes them back. The strategies are
//!
//! * [`HeapAllocator`], which takes every block from the system heap,
//! * [`Scoped`], an arena that advances a cursor and opens nested scopes,
//! * [`FreeList`], a pool of blocks of one size,
//! * [`Fallback`], which asks a second allocator where the first fails,
//! * [`Proxy`], which reports every operation to a logger, and
//! * [`NullAllocator`], which always fails.
//!
//! [`AllocBox`] binds a value to the block that was reserved for it, and [`Place`] is
//! such a block before the value is written.
//!
//! Allocators are plain values: an operation takes the allocator by exclusive
//! reference, and a handle gives its block back when it is told to which allocator.

pub mod allocator;
pub mod block;
pub mod boxed;
pub mod composable;
pub mod freelist;
pub mod heap;
pub mod scoped;

pub use allocator::{Allocator, AllocatorExt, BlockOwner, BlockOwnerExt};
pub use block::{align_forward, Block, Error};
pub use boxed::{make_place, rebind, AllocBox, Dynamic, Place};
pub use composable::{EventLog, Fallback, LogEvent, NullAllocator, Proxy, ProxyLogger};
pub use freelist::{FreeList, PoolView};
pub use heap::HeapAllocator;
pub use scoped::{ArenaView, Scoped};
