//! The page pool and page allocators.

use std::collections::HashSet;

use clmalloc::pool::PagePool;
use clmalloc::segment::MAX_SEGMENTS;
use clmalloc::segment::SEGMENT_SIZE;
use clmalloc::slab::SLAB_SIZE;
use clmalloc::sys::MmapAllocator;
use clmalloc::sys::PageAllocator;
use clmalloc::sys::SystemAllocator;
use clmalloc::Layout;

fn pool() -> PagePool<SystemAllocator> {
    PagePool::new(SystemAllocator::new())
}

/// Counts what is allocated, and has memory for a limited number of regions.
struct Counting {
    inner: SystemAllocator,
    live: Vec<(usize, Layout)>,
    limit: usize,
    calls: usize,
}

impl Counting {
    fn new(limit: usize) -> Counting {
        Counting {
            inner: SystemAllocator::new(),
            live: Vec::new(),
            limit,
            calls: 0,
        }
    }
}

impl PageAllocator for Counting {
    fn allocate(&mut self, layout: Layout) -> Option<usize> {
        self.calls += 1;
        if self.live.len() >= self.limit {
            return None;
        }
        let p = self.inner.allocate(layout)?;
        self.live.push((p, layout));
        Some(p)
    }

    fn dealloc(&mut self, ptr: usize, layout: Layout) {
        let i = self
            .live
            .iter()
            .position(|&e| e == (ptr, layout))
            .expect("region is not allocated");
        self.live.remove(i);
        self.inner.dealloc(ptr, layout);
    }
}

#[test]
fn alloc_slab_aligned_and_unique() {
    let mut pool = pool();
    let mut slabs = Vec::new();
    for _ in 0..64 {
        let slab = pool.alloc_slab().unwrap();
        assert_eq!(slab % SLAB_SIZE, 0, "slab not aligned");
        slabs.push(slab);
    }
    let addrs: HashSet<usize> = slabs.iter().copied().collect();
    assert_eq!(addrs.len(), 64, "duplicate slab");
    for slab in slabs {
        pool.dealloc_slab(slab);
    }
}

#[test]
fn crosses_segment_boundary() {
    let mut pool = pool();
    let slabs_per_segment = SEGMENT_SIZE / SLAB_SIZE;
    let mut slabs = Vec::new();
    for _ in 0..(slabs_per_segment + 4) {
        slabs.push(pool.alloc_slab().unwrap());
    }
    let addrs: HashSet<usize> = slabs.iter().copied().collect();
    assert_eq!(addrs.len(), slabs_per_segment + 4);
    for slab in slabs {
        pool.dealloc_slab(slab);
    }
}

#[test]
fn dealloc_then_reuse() {
    let mut pool = pool();
    let s1 = pool.alloc_slab().unwrap();
    let addr = s1;
    pool.dealloc_slab(s1);
    let s2 = pool.alloc_slab().unwrap();
    assert_eq!(s2, addr, "expected reuse");
    pool.dealloc_slab(s2);
}

#[test]
fn large_alloc_round_trip() {
    let mut pool = pool();
    let layout = Layout::from_size_align(1 << 20, 4096).unwrap();
    let ptr = pool.alloc_large(layout).unwrap();
    assert_eq!(ptr % 4096, 0);
    pool.dealloc_large(ptr, layout);
}

#[test]
fn pool_concurrent_alloc_dealloc() {
    let mut pool = pool();
    let mut held: Vec<Vec<usize>> = vec![Vec::new(); 8];
    for _ in 0..32 {
        for slabs in held.iter_mut() {
            slabs.push(pool.alloc_slab().unwrap());
        }
    }
    let all: HashSet<usize> = held.iter().flatten().copied().collect();
    assert_eq!(all.len(), 8 * 32);
    for slabs in held {
        for slab in slabs {
            pool.dealloc_slab(slab);
        }
    }
}

#[test]
fn idle_segment_goes_back_to_the_page_allocator() {
    let mut pool = PagePool::new(Counting::new(8));
    let per_segment = SEGMENT_SIZE / SLAB_SIZE;
    let slabs: Vec<usize> = (0..2 * per_segment).map(|_| pool.alloc_slab().unwrap()).collect();
    for &slab in &slabs[..per_segment] {
        pool.dealloc_slab(slab);
    }
    let page_alloc = pool.drop();
    assert_eq!(page_alloc.calls, 2);
    assert!(page_alloc.live.is_empty());

    let mut pool = PagePool::new(Counting::new(1));
    let slabs: Vec<usize> = (0..per_segment).map(|_| pool.alloc_slab().unwrap()).collect();
    assert_eq!(pool.alloc_slab(), None);
    for slab in slabs {
        pool.dealloc_slab(slab);
    }
    // The only segment was given back, so there is room for another one.
    assert!(pool.alloc_slab().is_some());
    assert_eq!(pool.drop().calls, 3);
}

#[test]
fn partly_carved_segment_stays() {
    let mut pool = PagePool::new(Counting::new(1));
    let a = pool.alloc_slab().unwrap();
    pool.dealloc_slab(a);
    assert_eq!(pool.alloc_slab(), Some(a));
    assert_eq!(pool.alloc_slab(), Some(a + SLAB_SIZE));
    assert_eq!(pool.drop().calls, 1);
}

#[test]
fn no_memory_for_a_segment() {
    let mut pool = PagePool::new(Counting::new(0));
    assert_eq!(pool.alloc_slab(), None);
    let layout = Layout::from_size_align(40000, 8).unwrap();
    assert_eq!(pool.alloc_large(layout), None);
}

#[test]
fn segment_table_is_bounded() {
    let mut pool = PagePool::new(Counting::new(usize::MAX));
    for _ in 0..MAX_SEGMENTS * (SEGMENT_SIZE / SLAB_SIZE) {
        assert!(pool.alloc_slab().is_some());
    }
    assert_eq!(pool.alloc_slab(), None);
    let page_alloc = pool.drop();
    assert_eq!(page_alloc.calls, MAX_SEGMENTS + 1);
    assert!(page_alloc.live.is_empty());
}

#[test]
fn large_blocks_outlive_the_pool() {
    let mut pool = PagePool::new(Counting::new(8));
    let layout = Layout::from_size_align(1 << 20, 4096).unwrap();
    let ptr = pool.alloc_large(layout).unwrap();
    pool.alloc_slab().unwrap();
    let page_alloc = pool.drop();
    assert_eq!(page_alloc.live, vec![(ptr, layout)]);
}

#[test]
fn slabs_and_segments_are_counted() {
    let mut pool = pool();
    assert_eq!((pool.segment_count(), pool.outstanding_slabs()), (0, 0));
    let slabs: Vec<usize> = (0..40).map(|_| pool.alloc_slab().unwrap()).collect();
    assert_eq!((pool.segment_count(), pool.outstanding_slabs()), (2, 40));
    for &slab in &slabs[..32] {
        pool.dealloc_slab(slab);
    }
    assert_eq!((pool.segment_count(), pool.outstanding_slabs()), (1, 8));
    assert_eq!(pool.segment_mmap_count(), 2);
    assert_eq!(pool.segment_munmap_count(), 1);
}

#[test]
fn mapping_is_trimmed_to_an_aligned_region() {
    let layout = Layout::from_size_align(SEGMENT_SIZE, SLAB_SIZE).unwrap();
    assert_eq!(MmapAllocator::map_size(layout), SEGMENT_SIZE + SLAB_SIZE);
    let raw = 3 * SLAB_SIZE + 4096;
    let trim = MmapAllocator::trim(Some(raw), layout).unwrap();
    assert_eq!(trim.addr, 4 * SLAB_SIZE);
    assert_eq!(trim.leading, SLAB_SIZE - 4096);
    assert_eq!(trim.tail, 4 * SLAB_SIZE + SEGMENT_SIZE);
    assert_eq!(trim.trailing, 4096);
    assert_eq!(MmapAllocator::trim(None, layout), None);
    assert_eq!(MmapAllocator::trim(Some(0), layout), None);
    assert_eq!(MmapAllocator::trim(Some(1), layout).unwrap().addr, SLAB_SIZE);

    let aligned = MmapAllocator::trim(Some(SLAB_SIZE), layout).unwrap();
    assert_eq!((aligned.leading, aligned.trailing), (0, SLAB_SIZE));
}

#[test]
fn system_allocator_runs_out_of_addresses() {
    let mut pages = SystemAllocator::new();
    let half = Layout::from_size_align(isize::MAX as usize, 1).unwrap();
    assert_eq!(pages.allocate(half), Some(4096));
    assert!(pages.allocate(half).is_none());
    let small = Layout::from_size_align(8, 8).unwrap();
    let p = pages.allocate(small).unwrap();
    assert_eq!(p % 8, 0);
    pages.dealloc(p, small);
}

#[test]
fn one_segment_is_asked_for_each_32_slabs() {
    for (slabs, segments) in [(0, 0), (1, 1), (32, 1), (33, 2), (65, 3)] {
        let mut pool = PagePool::new(Counting::new(8));
        for _ in 0..slabs {
            pool.alloc_slab().unwrap();
        }
        assert_eq!(pool.segment_mmap_count(), segments as u64);
        assert_eq!(pool.segment_munmap_count(), 0);
        assert_eq!(pool.drop().calls, segments);
    }
}
