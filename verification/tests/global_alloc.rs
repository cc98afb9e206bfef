//! The allocator as a whole, driven by several threads' heap slots.

use clmalloc::global::ClMalloc;
use clmalloc::global::HeapSlot;
use clmalloc::heap::HeapIds;
use clmalloc::slab::SlabRef;
use clmalloc::sys::PageAllocator;
use clmalloc::sys::SystemAllocator;
use clmalloc::Layout;

/// Addresses up to the size of a user address space.
struct Limited {
    inner: SystemAllocator,
}

impl PageAllocator for Limited {
    fn allocate(&mut self, layout: Layout) -> Option<usize> {
        if layout.size() > 1 << 46 {
            return None;
        }
        self.inner.allocate(layout)
    }

    fn dealloc(&mut self, ptr: usize, layout: Layout) {
        self.inner.dealloc(ptr, layout);
    }
}

fn allocator() -> ClMalloc<Limited> {
    ClMalloc::new(Limited {
        inner: SystemAllocator::new(),
    })
}

#[test]
fn vec_alloc_dealloc() {
    let mut alloc = allocator();
    let mut ids = HeapIds::new();
    let mut slot = HeapSlot::Unset;
    let mut v: Vec<u64> = Vec::new();
    let mut block: Option<(usize, Layout)> = None;
    for i in 0..1024 {
        let fits = block.map_or(0, |b| b.1.size() / 8);
        if v.len() == fits {
            let layout = Layout::from_size_align(if fits == 0 { 32 } else { fits * 16 }, 8).unwrap();
            let ptr = alloc.allocate(&mut slot, &mut ids, true, layout);
            assert_ne!(ptr, 0);
            assert_eq!(ptr % 8, 0);
            if let Some((old, old_layout)) = block {
                alloc.dealloc(&mut slot, &mut ids, true, old, old_layout);
            }
            block = Some((ptr, layout));
        }
        v.push(i);
    }
    assert_eq!(v.len(), 1024);
    assert_eq!(v[512], 512);
    let (ptr, layout) = block.unwrap();
    assert_eq!(layout.size(), 8192);
    alloc.dealloc(&mut slot, &mut ids, true, ptr, layout);
}

#[test]
fn zst_alloc() {
    let mut alloc = allocator();
    let mut ids = HeapIds::new();
    let mut slot = HeapSlot::Unset;
    let v: Vec<()> = vec![(); 100];
    assert_eq!(v.len(), 100);
    for _ in &v {
        let layout = Layout::from_size_align(0, 1).unwrap();
        let ptr = alloc.allocate(&mut slot, &mut ids, true, layout);
        assert_eq!(ptr, 1);
        alloc.dealloc(&mut slot, &mut ids, true, ptr, layout);
    }
    let layout = Layout::from_size_align(0, 4096).unwrap();
    assert_eq!(alloc.allocate(&mut slot, &mut ids, true, layout), 4096);
    // No heap was made for it.
    assert!(matches!(slot, HeapSlot::Unset));
}

#[test]
fn large_allocation() {
    let mut alloc = allocator();
    let mut ids = HeapIds::new();
    let mut slot = HeapSlot::Unset;
    let layout = Layout::from_size_align(1 << 20, 4096).unwrap();
    let ptr = alloc.allocate(&mut slot, &mut ids, true, layout);
    assert!(ptr != 0);
    assert_eq!(ptr % 4096, 0);
    alloc.dealloc(&mut slot, &mut ids, true, ptr, layout);
}

#[test]
fn cross_thread_dealloc() {
    let mut alloc = allocator();
    let mut ids = HeapIds::new();
    let mut here = HeapSlot::Unset;
    let mut there = HeapSlot::Unset;
    let layout = Layout::from_size_align(256, 1).unwrap();
    let ptr = alloc.allocate(&mut here, &mut ids, true, layout);
    alloc.dealloc(&mut there, &mut ids, true, ptr, layout);
    assert!(matches!(there, HeapSlot::Live(_)));
    let (there, received) = alloc.heap_destructor(there);
    assert_eq!(received, 0);
    assert!(matches!(there, HeapSlot::Destroyed));
    let slab = SlabRef::from_interior_ptr(ptr);
    assert!(alloc.pool.slab(slab.base).has_pending_remote());
}

#[test]
fn thread_spawn_exit_cleanup() {
    let mut alloc = allocator();
    let mut ids = HeapIds::new();
    for _ in 0..8 {
        let mut slot = HeapSlot::Unset;
        let mut blocks = Vec::new();
        for size in [8, 64, 256, 1024, 4096] {
            let layout = Layout::from_size_align(size, 1).unwrap();
            let ptr = alloc.allocate(&mut slot, &mut ids, true, layout);
            assert_ne!(ptr, 0);
            blocks.push((ptr, layout));
        }
        let bases: Vec<usize> = blocks
            .iter()
            .map(|b| SlabRef::from_interior_ptr(b.0).base)
            .collect();
        for (ptr, layout) in blocks {
            alloc.dealloc(&mut slot, &mut ids, true, ptr, layout);
        }
        alloc.heap_destructor(slot);
        for base in bases {
            assert!(!alloc.pool.slabs().contains(base));
        }
    }
}

#[test]
fn null_on_impossible_layout() {
    let mut alloc = allocator();
    let mut ids = HeapIds::new();
    let mut slot = HeapSlot::Unset;
    let layout = Layout::from_size_align(usize::MAX / 2, 1).unwrap();
    let ptr = alloc.allocate(&mut slot, &mut ids, true, layout);
    assert!(ptr == 0);
}

#[test]
fn alloc_dealloc_many_sizes() {
    let mut alloc = allocator();
    let mut ids = HeapIds::new();
    let mut slot = HeapSlot::Unset;
    for size in [
        8, 16, 32, 64, 128, 256, 512, 1024, 2048, 4096, 8192, 16384, 32768,
    ] {
        let layout = Layout::from_size_align(size, 1).unwrap();
        let ptr = alloc.allocate(&mut slot, &mut ids, true, layout);
        assert!(ptr != 0, "alloc failed for size {size}");
        assert_eq!(ptr % layout.align(), 0);
        alloc.dealloc(&mut slot, &mut ids, true, ptr, layout);
    }
}

#[test]
fn global_alloc_concurrent_alloc_dealloc() {
    let mut alloc = allocator();
    let mut ids = HeapIds::new();
    let layout = Layout::from_size_align(64, 1).unwrap();
    let mut threads: Vec<(HeapSlot, Vec<usize>)> =
        (0..8).map(|_| (HeapSlot::Unset, Vec::new())).collect();
    for _ in 0..1000 {
        for (slot, ptrs) in threads.iter_mut() {
            let ptr = alloc.allocate(slot, &mut ids, true, layout);
            assert!(ptr != 0);
            ptrs.push(ptr);
        }
    }
    let mut all: Vec<usize> = threads.iter().flat_map(|t| t.1.iter().copied()).collect();
    all.sort();
    all.dedup();
    assert_eq!(all.len(), 8000);
    for (slot, ptrs) in threads.iter_mut() {
        for ptr in ptrs.iter() {
            alloc.dealloc(slot, &mut ids, true, *ptr, layout);
        }
    }
}

#[test]
fn thread_without_heap_frees_but_does_not_allocate() {
    let mut alloc = allocator();
    let mut ids = HeapIds::new();
    let mut slot = HeapSlot::Unset;
    let small = Layout::from_size_align(48, 8).unwrap();
    let large = Layout::from_size_align(50000, 8).unwrap();
    let p = alloc.allocate(&mut slot, &mut ids, true, small);
    let q = alloc.allocate(&mut slot, &mut ids, true, large);
    let (mut gone, _) = alloc.heap_destructor(HeapSlot::Unset);
    assert_eq!(alloc.allocate(&mut gone, &mut ids, true, small), 0);
    alloc.dealloc(&mut gone, &mut ids, true, p, small);
    alloc.dealloc(&mut gone, &mut ids, true, q, large);
    let slab = SlabRef::from_interior_ptr(p);
    assert!(alloc.pool.slab(slab.base).has_pending_remote());
    assert!(matches!(gone, HeapSlot::Destroyed));
}

#[test]
fn no_memory_for_a_heap() {
    let mut alloc = allocator();
    let mut ids = HeapIds::new();
    let mut slot = HeapSlot::Unset;
    let layout = Layout::from_size_align(48, 8).unwrap();
    assert_eq!(alloc.allocate(&mut slot, &mut ids, false, layout), 0);
    assert!(matches!(slot, HeapSlot::Unset));
    assert_ne!(alloc.allocate(&mut slot, &mut ids, true, layout), 0);
}
