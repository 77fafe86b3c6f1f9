use allocators::{
    AllocBox, Allocator, AllocatorExt, BlockOwnerExt, Dynamic, Error, FreeList, HeapAllocator,
    NullAllocator, Scoped,
};

#[derive(Debug)]
struct Bomb;

impl Drop for Bomb {
    fn drop(&mut self) {
        println!("Boom")
    }
}

#[derive(Debug)]
struct Increment<'a>(&'a mut i32);

impl<'a> Drop for Increment<'a> {
    fn drop(&mut self) {
        *self.0 += 1;
    }
}

fn zeroed() -> Box<[u8; 8_000_000]> {
    match vec![0u8; 8_000_000].into_boxed_slice().try_into() {
        Ok(boxed) => boxed,
        Err(_) => panic!("length mismatch"),
    }
}

#[test]
fn heap_lifetime() {
    let mut heap = HeapAllocator::new();
    let my_int;
    {
        my_int = heap.allocate(0i32).unwrap();
    }

    assert_eq!(*my_int, 0);
}

#[test]
fn heap_in_place() {
    let mut heap = HeapAllocator::new();
    let big = heap.make_place::<[u8; 8_000_000]>().unwrap().finalize(zeroed());
    assert_eq!(big.len(), 8_000_000);
}

#[test]
fn unsizing() {
    let mut heap = HeapAllocator::new();
    let my_foo: AllocBox<Dynamic> = heap.allocate(Bomb).unwrap().into_dyn();
    let _: AllocBox<Bomb> = my_foo.downcast().ok().unwrap();
}

#[test]
fn take_out() {
    let mut heap = HeapAllocator::new();
    let _: [u8; 1024] = heap.allocate([0; 1024]).ok().unwrap().take(&mut heap);
}

#[test]
fn boxed_allocator() {
    let mut i = 0;
    let mut alloc: Box<HeapAllocator> = Box::new(HeapAllocator::new());
    {
        let _ = alloc.allocate(Increment(&mut i)).unwrap();
    }
    assert_eq!(i, 1);
}

#[test]
#[should_panic]
fn null_allocate() {
    let mut alloc = NullAllocator;
    alloc.allocate(1i32).unwrap();
}

#[test]
fn it_works() {
    let mut alloc = FreeList::new(1024, 64).ok().unwrap();
    let mut blocks = Vec::new();
    for _ in 0..64 {
        blocks.push(alloc.allocate([0u8; 1024]).ok().unwrap());
    }
    assert!(alloc.allocate([0u8; 1024]).is_err());
    for held in blocks {
        held.release(&mut alloc);
    }
    assert!(alloc.allocate([0u8; 1024]).is_ok());
}

#[test]
#[should_panic]
fn use_outer() {
    let mut alloc = Scoped::new(4).unwrap();
    let mut outer_val = alloc.allocate(0i32).unwrap();
    let _inner = alloc.enter_scope().unwrap();
    // using the outer allocator while its scope is open should fail.
    outer_val = alloc.allocate(1i32).unwrap();
    assert_eq!(*outer_val, 1);
}

#[test]
fn scope_scope() {
    let mut alloc = Scoped::new(64).unwrap();
    let _ = alloc.allocate(0).unwrap();
    alloc
        .scope(|inner: &mut Scoped<HeapAllocator>| {
            let _ = inner.allocate(32);
            inner
                .scope(|bottom: &mut Scoped<HeapAllocator>| {
                    let _ = bottom.allocate(23);
                })
                .unwrap();
        })
        .unwrap();
}

#[test]
fn out_of_memory() {
    // allocate more memory than the allocator has.
    let mut alloc = Scoped::new(0).unwrap();
    let (err, _) = alloc.allocate(1i32).err().unwrap();
    assert_eq!(err, Error::OutOfMemory);
}

#[test]
fn placement_in() {
    let mut alloc = Scoped::new(8_000_000).unwrap();
    // a value of this size does not fit on the stack.
    let _big = alloc.make_place::<[u8; 8_000_000]>().unwrap().finalize(zeroed());
}

#[test]
fn owning() {
    let mut alloc = Scoped::new(64).unwrap();

    let val = alloc.allocate(1i32).unwrap();
    assert!(alloc.owns(&val));

    alloc
        .scope(|inner: &mut Scoped<HeapAllocator>| {
            let in_val = inner.allocate(2i32).unwrap();
            assert!(inner.owns(&in_val));
            assert!(!inner.owns(&val));
        })
        .unwrap();
}

#[test]
fn raw_interface_is_reachable_through_a_box() {
    let mut alloc: Box<HeapAllocator> = Box::new(HeapAllocator::new());
    let block = alloc.allocate_raw(16, 8).unwrap();
    assert_eq!(block.size(), 16);
    alloc.deallocate_raw(block);
}
