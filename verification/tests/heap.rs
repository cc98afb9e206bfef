//! Heaps on a pool.

use clmalloc::bin::FreeCache;
use clmalloc::bin_state::CACHE_CAP;
use clmalloc::heap::Heap;
use clmalloc::heap::HeapIds;
use clmalloc::metrics::MetricsSnapshot;
use clmalloc::metrics::PoolMetrics;
use clmalloc::pool::PagePool;
use clmalloc::slab::SlabRef;
use clmalloc::slab::SLAB_SIZE;
use clmalloc::sys::SystemAllocator;
use clmalloc::Layout;

fn pool() -> PagePool<SystemAllocator> {
    PagePool::new(SystemAllocator::new())
}

#[test]
fn heap_ids_are_unique() {
    let mut pool = pool();
    let mut ids = HeapIds::new();
    let h1 = Heap::new(&mut pool, &mut ids);
    let h2 = Heap::new(&mut pool, &mut ids);
    assert_ne!(h1.id(), h2.id());
}

#[test]
fn alloc_dealloc_round_trip() {
    let mut pool = pool();
    let mut ids = HeapIds::new();
    let mut heap = Heap::new(&mut pool, &mut ids);

    for size in [8, 16, 64, 256, 1024, 4096, 32768] {
        let layout = Layout::from_size_align(size, 1).unwrap();
        let ptr = heap.allocate(&mut pool, layout).unwrap();
        heap.dealloc(&mut pool, ptr, layout);
    }
}

#[test]
fn exhaust_slab_gets_new_one() {
    let mut pool = pool();
    let mut ids = HeapIds::new();
    let mut heap = Heap::new(&mut pool, &mut ids);
    let layout = Layout::from_size_align(8, 1).unwrap();

    let first = heap.allocate(&mut pool, layout).unwrap();
    let first_slab_ref = SlabRef::from_interior_ptr(first);

    let slot_count = first_slab_ref.slot_count(pool.slabs());
    let mut ptrs = vec![first];

    for _ in 1..slot_count {
        ptrs.push(heap.allocate(&mut pool, layout).unwrap());
    }

    let next = heap.allocate(&mut pool, layout).unwrap();
    let next_slab_ref = SlabRef::from_interior_ptr(next);
    assert!(!first_slab_ref.header_eq(&next_slab_ref), "should be a different slab");

    heap.dealloc(&mut pool, next, layout);
    for ptr in ptrs {
        heap.dealloc(&mut pool, ptr, layout);
    }
}

#[test]
fn drain_remote_reuses_slots() {
    let mut pool = pool();
    let mut ids = HeapIds::new();
    let mut heap = Heap::new(&mut pool, &mut ids);
    let layout = Layout::from_size_align(64, 1).unwrap();

    let raw = heap.allocate(&mut pool, layout).unwrap();

    let slab_ref = SlabRef::from_interior_ptr(raw);
    let slot_count = slab_ref.slot_count(pool.slabs());

    let mut others = Vec::new();
    for _ in 1..slot_count {
        others.push(heap.allocate(&mut pool, layout).unwrap());
    }

    pool.dealloc_remote(raw);

    let recovered = heap.allocate(&mut pool, layout).unwrap();
    assert_eq!(recovered, raw);

    heap.dealloc(&mut pool, recovered, layout);
    for ptr in others {
        heap.dealloc(&mut pool, ptr, layout);
    }
}

#[test]
fn large_allocation_passthrough() {
    let mut pool = pool();
    let mut ids = HeapIds::new();
    let mut heap = Heap::new(&mut pool, &mut ids);
    let layout = Layout::from_size_align(1 << 20, 4096).unwrap();
    let ptr = heap.allocate(&mut pool, layout).unwrap();
    assert_eq!(ptr % 4096, 0);
    heap.dealloc(&mut pool, ptr, layout);
}

#[test]
fn drop_returns_free_slabs_to_pool() {
    let mut pool = pool();
    let mut ids = HeapIds::new();
    let slab_before = pool.alloc_slab().unwrap();
    pool.dealloc_slab(slab_before);

    {
        let mut heap = Heap::new(&mut pool, &mut ids);
        let layout = Layout::from_size_align(64, 1).unwrap();
        let ptr = heap.allocate(&mut pool, layout).unwrap();
        heap.dealloc(&mut pool, ptr, layout);
        heap.drop(&mut pool);
    }

    // After heap drop, the slab should be back in the pool.
    // Allocating again should succeed (reuses the returned slab).
    let reused = pool.alloc_slab().unwrap();
    assert_eq!(reused, slab_before);
    pool.dealloc_slab(reused);
}

#[test]
fn cross_thread_dealloc_uses_remote() {
    let mut pool = pool();
    let mut ids = HeapIds::new();
    let mut heap = Heap::new(&mut pool, &mut ids);
    let layout = Layout::from_size_align(64, 1).unwrap();

    let raw = heap.allocate(&mut pool, layout).unwrap();

    let mut other_heap = Heap::new(&mut pool, &mut ids);
    other_heap.dealloc(&mut pool, raw, layout);
    other_heap.drop(&mut pool);

    heap.drain_remote_all(&mut pool);

    let recovered = heap.allocate(&mut pool, layout).unwrap();
    assert_eq!(recovered, raw);
    heap.dealloc(&mut pool, recovered, layout);
}

#[test]
fn free_cache_absorbs_non_active_slab_frees() {
    let mut pool = pool();
    let mut ids = HeapIds::new();
    let mut heap = Heap::new(&mut pool, &mut ids);
    let layout = Layout::from_size_align(64, 1).unwrap();

    // Fill the first slab to force a second one.
    let first_ptr = heap.allocate(&mut pool, layout).unwrap();
    let first_slab = SlabRef::from_interior_ptr(first_ptr);
    let slot_count = first_slab.slot_count(pool.slabs());

    let mut first_ptrs = vec![first_ptr];
    for _ in 1..slot_count {
        first_ptrs.push(heap.allocate(&mut pool, layout).unwrap());
    }

    // Now a second slab becomes active.
    let second_ptr = heap.allocate(&mut pool, layout).unwrap();
    let second_slab = SlabRef::from_interior_ptr(second_ptr);
    assert!(!first_slab.header_eq(&second_slab));

    // Free a pointer from the first (now retired) slab: goes to the cache.
    let cached_addr = first_ptrs.pop().unwrap();
    heap.dealloc(&mut pool, cached_addr, layout);

    // Alloc should return the cached pointer immediately.
    let recovered = heap.allocate(&mut pool, layout).unwrap();
    assert_eq!(recovered, cached_addr);

    // Clean up.
    heap.dealloc(&mut pool, recovered, layout);
    heap.dealloc(&mut pool, second_ptr, layout);
    for ptr in first_ptrs {
        heap.dealloc(&mut pool, ptr, layout);
    }
}

#[test]
fn free_cache_flush_returns_to_slabs() {
    let mut pool = pool();
    let mut ids = HeapIds::new();
    let mut heap = Heap::new(&mut pool, &mut ids);
    let layout = Layout::from_size_align(64, 1).unwrap();

    // Allocate from one slab, then free from another heap so the
    // pointers land in heap2's cache as remote entries.
    let raws: Vec<usize> = (0..CACHE_CAP)
        .map(|_| heap.allocate(&mut pool, layout).unwrap())
        .collect();

    let mut heap2 = Heap::new(&mut pool, &mut ids);
    for &raw in &raws {
        heap2.dealloc(&mut pool, raw, layout);
    }
    // heap2 drops: cache flushed, entries pushed as one chain.
    heap2.drop(&mut pool);

    // The owning heap should recover all slots after draining remote.
    heap.drain_remote_all(&mut pool);
    let mut again: Vec<usize> = Vec::new();
    for _ in 0..CACHE_CAP {
        again.push(heap.allocate(&mut pool, layout).unwrap());
    }
    again.sort();
    assert_eq!(again, raws);
}

#[test]
fn abandoned_slab_is_adopted_by_new_heap() {
    let mut pool = pool();
    let mut ids = HeapIds::new();
    let layout = Layout::from_size_align(64, 1).unwrap();

    let outstanding_ptr;
    {
        let mut heap1 = Heap::new(&mut pool, &mut ids);
        outstanding_ptr = heap1.allocate(&mut pool, layout).unwrap();
        // heap1 drops here: slab has 1 outstanding alloc, gets abandoned
        heap1.drop(&mut pool);
    }

    let mut heap2 = Heap::new(&mut pool, &mut ids);
    // heap2's first alloc for this class should adopt the abandoned slab
    let ptr2 = heap2.allocate(&mut pool, layout).unwrap();
    let slab_ref1 = SlabRef::from_interior_ptr(outstanding_ptr);
    let slab_ref2 = SlabRef::from_interior_ptr(ptr2);
    assert!(slab_ref1.header_eq(&slab_ref2), "heap2 should adopt heap1's slab");

    // heap_id should now be heap2's
    assert_eq!(slab_ref2.heap_id(pool.slabs()), heap2.id());

    heap2.dealloc(&mut pool, outstanding_ptr, layout);
    heap2.dealloc(&mut pool, ptr2, layout);
}

#[test]
fn abandoned_slab_with_remote_frees_after_abandon() {
    let mut pool = pool();
    let mut ids = HeapIds::new();
    let layout = Layout::from_size_align(64, 1).unwrap();

    let raw_ptr;
    {
        let mut heap1 = Heap::new(&mut pool, &mut ids);
        raw_ptr = heap1.allocate(&mut pool, layout).unwrap();
        // heap1 drops: slab abandoned with 1 outstanding slot
        heap1.drop(&mut pool);
    }

    // Simulate a remote free arriving after abandonment
    pool.dealloc_remote(raw_ptr);

    // heap2 adopts: after drain_remote the slab should be fully free
    // and returned to the pool, so heap2 gets a fresh slab instead
    let mut heap2 = Heap::new(&mut pool, &mut ids);
    let ptr2 = heap2.allocate(&mut pool, layout).unwrap();
    let slab_ref2 = SlabRef::from_interior_ptr(ptr2);
    assert_eq!(slab_ref2.heap_id(pool.slabs()), heap2.id());

    heap2.dealloc(&mut pool, ptr2, layout);
}

#[test]
fn cross_thread_abandon_adopt() {
    let mut pool = pool();
    let mut ids = HeapIds::new();
    let layout = Layout::from_size_align(256, 1).unwrap();

    let mut heap = Heap::new(&mut pool, &mut ids);
    let mut raw_ptrs = Vec::new();
    for _ in 0..10 {
        raw_ptrs.push(heap.allocate(&mut pool, layout).unwrap());
    }
    // heap drops: slab abandoned with 10 outstanding allocs
    heap.drop(&mut pool);

    let mut heap2 = Heap::new(&mut pool, &mut ids);
    // heap2 should adopt the abandoned slab
    let new_ptr = heap2.allocate(&mut pool, layout).unwrap();
    let new_slab_ref = SlabRef::from_interior_ptr(new_ptr);
    let old_slab_ref = SlabRef::from_interior_ptr(raw_ptrs[0]);
    assert!(old_slab_ref.header_eq(&new_slab_ref), "should adopt the abandoned slab");

    // Free everything
    for &raw in &raw_ptrs {
        heap2.dealloc(&mut pool, raw, layout);
    }
    heap2.dealloc(&mut pool, new_ptr, layout);
}

#[test]
fn free_cache_is_a_stack() {
    let mut cache = FreeCache::new();
    assert_eq!(cache.pop(), None);
    cache.push(10);
    cache.push(20);
    assert!(!cache.is_full());
    assert_eq!(cache.pop(), Some(20));
    assert_eq!(cache.pop(), Some(10));
    for i in 0..CACHE_CAP {
        cache.push(i + 1);
    }
    assert!(cache.is_full());
}

#[test]
fn cached_slots_are_sorted_by_slab() {
    let mut cache = FreeCache::new();
    let s = SLAB_SIZE;
    for p in [3 * s + 64, s + 128, 3 * s + 8, 2 * s + 8, s + 64] {
        cache.push(p);
    }
    let sorted = cache.take_sorted();
    assert_eq!(sorted, vec![s + 128, s + 64, 2 * s + 8, 3 * s + 64, 3 * s + 8]);
    assert_eq!(cache.pop(), None);
}

/// Allocates until the heap has gone through `n` slabs of the class.
fn fill(
    heap: &mut Heap,
    pool: &mut PagePool<SystemAllocator>,
    layout: Layout,
    n: usize,
) -> Vec<Vec<usize>> {
    let mut slabs: Vec<Vec<usize>> = Vec::new();
    while slabs.len() <= n {
        let ptr = heap.allocate(pool, layout).unwrap();
        let base = SlabRef::from_interior_ptr(ptr);
        match slabs.last_mut() {
            Some(last) if SlabRef::from_interior_ptr(last[0]).header_eq(&base) => last.push(ptr),
            _ => slabs.push(vec![ptr]),
        }
    }
    slabs
}

#[test]
fn full_cache_is_flushed_and_slots_are_reused() {
    let mut pool = pool();
    let mut ids = HeapIds::new();
    let mut heap = Heap::new(&mut pool, &mut ids);
    let layout = Layout::from_size_align(1024, 1).unwrap();
    let slabs = fill(&mut heap, &mut pool, layout, 3);
    let mut freed: Vec<usize> = Vec::new();
    for ptr in slabs[0].iter().chain(slabs[1].iter()) {
        heap.dealloc(&mut pool, *ptr, layout);
        freed.push(*ptr);
    }
    assert!(freed.len() > CACHE_CAP);
    // Everything that was freed comes back before a new slab is started.
    let rest = slabs[0].len() - slabs[3].len();
    let mut again: Vec<usize> = Vec::new();
    for _ in 0..freed.len() + rest {
        again.push(heap.allocate(&mut pool, layout).unwrap());
    }
    let mut known: Vec<usize> = again.iter().copied().filter(|p| freed.contains(p)).collect();
    known.sort();
    freed.sort();
    assert_eq!(known, freed);
}

#[test]
fn remote_frees_of_full_slabs_are_found_by_the_scan() {
    let mut pool = pool();
    let mut ids = HeapIds::new();
    let mut heap = Heap::new(&mut pool, &mut ids);
    let layout = Layout::from_size_align(16384, 1).unwrap();
    let slabs = fill(&mut heap, &mut pool, layout, 3);
    // Fill the fourth slab too.
    let missing = slabs[0].len() - slabs[3].len();
    for _ in 0..missing {
        heap.allocate(&mut pool, layout).unwrap();
    }
    // One slab gets a slot back, another one all of them.
    pool.dealloc_remote(slabs[0][1]);
    for &ptr in &slabs[1] {
        pool.dealloc_remote(ptr);
    }
    assert_eq!(heap.allocate(&mut pool, layout), Some(slabs[0][1]));
    // The slab that was fully free went back to the pool and is handed out anew.
    let next = heap.allocate(&mut pool, layout).unwrap();
    assert!(SlabRef::from_interior_ptr(next).header_eq(&SlabRef::from_interior_ptr(slabs[1][0])));
}

#[test]
fn blocks_do_not_overlap() {
    let mut pool = pool();
    let mut ids = HeapIds::new();
    let mut heaps = [Heap::new(&mut pool, &mut ids), Heap::new(&mut pool, &mut ids)];
    let mut blocks: Vec<(usize, usize)> = Vec::new();
    for (i, size) in [1usize, 9, 24, 100, 500, 3000, 20000, 40000, 70000].iter().cycle().take(900).enumerate() {
        let layout = Layout::from_size_align(*size, 1 << (i % 4)).unwrap();
        let ptr = heaps[i % 2].allocate(&mut pool, layout).unwrap();
        assert_eq!(ptr % layout.align(), 0);
        blocks.push((ptr, *size));
    }
    blocks.sort();
    for pair in blocks.windows(2) {
        assert!(pair[0].0 + pair[0].1 <= pair[1].0);
    }
}

#[test]
fn dropped_heap_leaves_blocks_to_others() {
    let mut pool = pool();
    let mut ids = HeapIds::new();
    let layout = Layout::from_size_align(128, 8).unwrap();
    let mut a = Heap::new(&mut pool, &mut ids);
    let mut b = Heap::new(&mut pool, &mut ids);
    let p = a.allocate(&mut pool, layout).unwrap();
    let q = b.allocate(&mut pool, layout).unwrap();
    a.drop(&mut pool);
    // `b` frees a block of the heap that is gone, and its own.
    b.dealloc(&mut pool, p, layout);
    b.dealloc(&mut pool, q, layout);
    b.drop(&mut pool);
    let slab = SlabRef::from_interior_ptr(q);
    assert!(!pool.slabs().contains(slab.base));
    // The slab of `a` was abandoned before its last block came back.
    let left = SlabRef::from_interior_ptr(p);
    assert!(pool.slabs().contains(left.base));
}

#[test]
fn cache_hits_and_flushes_are_foretold() {
    let mut pool = pool();
    let mut ids = HeapIds::new();
    let mut owner = Heap::new(&mut pool, &mut ids);
    let mut other = Heap::new(&mut pool, &mut ids);
    let layout = Layout::from_size_align(64, 1).unwrap();
    let large = Layout::from_size_align(1 << 20, 1).unwrap();
    let ptrs: Vec<usize> = (0..CACHE_CAP + 1)
        .map(|_| owner.allocate(&mut pool, layout).unwrap())
        .collect();
    assert!(!other.hits_cache(layout));
    for &p in &ptrs[..CACHE_CAP] {
        assert!(!other.flushes_cache(p, layout));
        other.dealloc(&mut pool, p, layout);
    }
    assert!(other.hits_cache(layout));
    assert!(!other.hits_cache(large));
    assert!(other.flushes_cache(ptrs[CACHE_CAP], layout));
    assert!(!other.flushes_cache(ptrs[CACHE_CAP], large));
    assert!(!owner.flushes_cache(ptrs[CACHE_CAP], layout));
    other.dealloc(&mut pool, ptrs[CACHE_CAP], layout);
    assert_eq!(other.allocate(&mut pool, layout), Some(ptrs[CACHE_CAP]));
    assert!(!other.hits_cache(layout));
}

#[test]
fn abandoned_and_adopted_slabs_are_counted() {
    let mut pool = pool();
    let mut ids = HeapIds::new();
    let layout = Layout::from_size_align(64, 1).unwrap();
    let idx = clmalloc::size_class::class_index(layout).unwrap();
    let mut first = Heap::new(&mut pool, &mut ids);
    let ptr = first.allocate(&mut pool, layout).unwrap();
    first.drop(&mut pool);
    assert_eq!(pool.abandon_count()[idx], 1);
    assert_eq!(pool.adopt_count()[idx], 0);

    let mut second = Heap::new(&mut pool, &mut ids);
    second.allocate(&mut pool, layout).unwrap();
    assert_eq!(pool.adopt_count()[idx], 1);
    second.dealloc(&mut pool, ptr, layout);
    second.drop(&mut pool);
    assert_eq!(pool.abandon_count()[idx], 2);
    assert_eq!(pool.abandon_count().iter().sum::<u64>(), 2);
    assert_eq!(pool.adopt_count().iter().sum::<u64>(), 1);

    let mut metrics = PoolMetrics::new();
    metrics.note_pool(&pool);
    let mut snap = MetricsSnapshot::new();
    metrics.aggregate_heap_metrics(&mut snap);
    assert_eq!(snap.abandon_count[idx], 2);
    assert_eq!(snap.adopt_count[idx], 1);
    assert_eq!((snap.segment_mmap_count, snap.segment_munmap_count), (1, 0));
}

#[test]
fn mapped_covers_active_covers_allocated() {
    let mut pool = pool();
    let mut ids = HeapIds::new();
    let mut heap = Heap::new(&mut pool, &mut ids);
    let mut allocated = 0;
    for size in [8usize, 10, 64, 100, 4096, 20000, 32768] {
        let layout = Layout::from_size_align(size, 1).unwrap();
        for _ in 0..200 {
            heap.allocate(&mut pool, layout).unwrap();
            let idx = clmalloc::size_class::class_index(layout).unwrap();
            allocated += clmalloc::size_class::class_size(idx);
            let active = pool.outstanding_slabs() * SLAB_SIZE;
            let mapped = pool.segment_count() * clmalloc::segment::SEGMENT_SIZE;
            assert!(allocated <= active);
            assert!(active <= mapped);
        }
    }
}

#[test]
fn heaps_of_two_pools_have_different_ids() {
    let mut ids = HeapIds::new();
    let mut first = pool();
    let mut second = pool();
    let heaps = [
        Heap::new(&mut first, &mut ids),
        Heap::new(&mut second, &mut ids),
        Heap::new(&mut first, &mut ids),
    ];
    let found: Vec<usize> = heaps.iter().map(|h| h.id()).collect();
    assert_eq!(found, [1, 2, 3]);
    assert!(ids.has_next());
    assert_eq!(ids.next_heap_id(), 4);
}

#[test]
fn recovered_remote_frees_are_counted() {
    let mut pool = pool();
    let mut ids = HeapIds::new();
    let mut owner = Heap::new(&mut pool, &mut ids);
    let mut other = Heap::new(&mut pool, &mut ids);
    let layout = Layout::from_size_align(16384, 1).unwrap();
    let small = Layout::from_size_align(64, 1).unwrap();
    let a = owner.allocate(&mut pool, layout).unwrap();
    let b = owner.allocate(&mut pool, layout).unwrap();
    let c = owner.allocate(&mut pool, layout).unwrap();
    let d = owner.allocate(&mut pool, small).unwrap();
    other.dealloc(&mut pool, a, layout);
    other.dealloc(&mut pool, b, layout);
    assert_eq!(other.drop(&mut pool), 0);
    assert_eq!(owner.remote_free_count(), 0);
    owner.allocate(&mut pool, layout).unwrap();
    assert_eq!(owner.remote_free_count(), 2);
    // Two more come back only when the heap ends.
    pool.dealloc_remote(c);
    pool.dealloc_remote(d);
    assert_eq!(owner.remote_free_count(), 2);
    assert_eq!(owner.drop(&mut pool), 4);
}
