//! Counters of heaps and pool, and snapshots.

use clmalloc::metrics::HeapMetrics;
use clmalloc::metrics::MetricsSnapshot;
use clmalloc::metrics::PoolMetrics;
use clmalloc::size_class::class_index;
use clmalloc::size_class::NUM_CLASSES;
use clmalloc::Layout;

#[test]
fn heap_metrics_on_alloc_dealloc() {
    let mut m = HeapMetrics::zero();
    let idx = 5;
    let cs = 128;
    m.on_alloc(idx, cs);
    assert_eq!(m.alloc_bytes, 128);
    assert_eq!(m.class_alloc_count[idx], 1);
    assert_eq!(m.class_alloc_bytes[idx], 128);

    m.on_dealloc(idx, cs);
    assert_eq!(m.free_bytes, 128);
    assert_eq!(m.class_dealloc_count[idx], 1);
    assert_eq!(m.class_free_bytes[idx], 128);
}

#[test]
fn accumulate_folds_counters() {
    let mut a = HeapMetrics::zero();
    let mut b = HeapMetrics::zero();
    a.on_alloc(0, 8);
    a.on_alloc(0, 8);
    b.on_alloc(0, 8);
    b.on_dealloc(0, 8);

    a.accumulate(&b);
    assert_eq!(a.alloc_bytes, 24);
    assert_eq!(a.free_bytes, 8);
    assert_eq!(a.class_alloc_count[0], 3);
}

#[test]
fn finalize_computes_live_counts() {
    let mut snap = MetricsSnapshot::new();
    snap.class_alloc_count[3] = 10;
    snap.class_dealloc_count[3] = 4;
    snap.class_alloc_bytes[3] = 640;
    snap.class_free_bytes[3] = 256;
    snap.alloc_bytes = 640;
    snap.free_bytes = 256;
    snap.finalize();
    assert_eq!(snap.class_live_count[3], 6);
    assert_eq!(snap.class_live_bytes[3], 384);
    assert_eq!(snap.allocated, 384);
}

#[test]
fn per_class_counters_are_independent() {
    let mut snap = MetricsSnapshot::new();
    snap.class_alloc_count[0] = 5;
    let idx_64 = class_index(Layout::from_size_align(64, 1).unwrap()).unwrap();
    snap.class_alloc_count[idx_64] = 3;

    assert_eq!(snap.class_alloc_count[0], 5);
    assert_eq!(snap.class_alloc_count[idx_64], 3);
    for i in 0..NUM_CLASSES {
        if i != 0 && i != idx_64 {
            assert_eq!(snap.class_alloc_count[i], 0);
        }
    }
}

#[test]
fn frees_beyond_allocations_leave_nothing_allocated() {
    let mut snap = MetricsSnapshot::new();
    snap.alloc_bytes = 8;
    snap.free_bytes = 24;
    snap.class_alloc_bytes[0] = 8;
    snap.class_free_bytes[0] = 24;
    snap.finalize();
    assert_eq!(snap.allocated, 0);
    assert_eq!(snap.class_live_bytes[0], -16);
}

#[test]
fn large_and_remote_counters() {
    let mut m = HeapMetrics::zero();
    m.on_large_alloc(1 << 20);
    m.on_large_dealloc(4096);
    m.on_remote_free(7);
    assert_eq!(m.alloc_bytes, 1 << 20);
    assert_eq!(m.free_bytes, 4096);
    assert_eq!(m.large_alloc_count, 1);
    assert_eq!(m.large_alloc_bytes, 1 << 20);
    assert_eq!(m.large_dealloc_bytes, 4096);
    assert_eq!(m.remote_free_count, 7);
}

#[test]
fn registry_moves_the_last_heap_and_keeps_totals() {
    let mut pool = PoolMetrics::new();
    for (ptr, n) in [(0x1000usize, 1usize), (0x2000, 2), (0x3000, 3)] {
        let mut m = HeapMetrics::zero();
        for _ in 0..n {
            m.on_alloc(4, 16);
        }
        pool.register_heap(ptr, m);
    }
    assert_eq!(pool.heap(0x2000).registry_idx, 1);
    let mut before = MetricsSnapshot::new();
    pool.aggregate_heap_metrics(&mut before);
    assert_eq!(before.class_alloc_count[4], 6);

    pool.deregister_heap(0x1000);
    assert_eq!(pool.heap_ptrs, vec![0x3000, 0x2000]);
    assert_eq!(pool.heap(0x3000).registry_idx, 0);
    pool.deregister_heap(0x2000);
    assert_eq!(pool.heap_ptrs, vec![0x3000]);

    pool.segment_mmap_count = 5;
    pool.adopt_count[4] = 2;
    let mut after = MetricsSnapshot::new();
    pool.aggregate_heap_metrics(&mut after);
    assert_eq!(after.class_alloc_count[4], 6);
    assert_eq!(after.alloc_bytes, before.alloc_bytes);
    assert_eq!(after.segment_mmap_count, 5);
    assert_eq!(after.adopt_count[4], 2);
}

#[test]
fn stored_counters_replace_those_of_the_heap() {
    let mut pool = PoolMetrics::new();
    pool.register_heap(0x10, HeapMetrics::zero());
    let mut m = HeapMetrics::zero();
    m.on_alloc(0, 8);
    pool.store_heap(0x10, m);
    assert_eq!(pool.heap(0x10).alloc_bytes, 8);
    assert_eq!(pool.heap(0x10).registry_idx, 0);
}

#[test]
fn gauges_follow_slabs_segments_and_large_blocks() {
    let mut snap = MetricsSnapshot::new();
    snap.large_alloc_bytes = 3 << 20;
    snap.large_dealloc_bytes = 1 << 20;
    snap.set_gauges(3, 2);
    assert_eq!(snap.active, 3 * 65536 + (2 << 20));
    assert_eq!(snap.mapped, 2 * 2097152 + (2 << 20));
}

#[test]
fn cache_counters_are_kept_by_class() {
    let mut m = HeapMetrics::zero();
    m.on_cache_hit(3);
    m.on_cache_hit(3);
    m.on_cache_flush(48);
    assert_eq!(m.cache_hit_count[3], 2);
    assert_eq!(m.cache_flush_count[48], 1);
    assert_eq!(m.cache_hit_count.iter().sum::<u64>(), 2);
    assert_eq!(m.cache_flush_count.iter().sum::<u64>(), 1);

    let mut snap = MetricsSnapshot::new();
    snap.accumulate_heap(&m);
    snap.accumulate_heap(&m);
    assert_eq!(snap.cache_hit_count[3], 4);
    assert_eq!(snap.cache_flush_count[48], 2);
}

#[test]
fn histogram_is_cumulative() {
    let mut m = HeapMetrics::zero();
    m.on_alloc(0, 8);
    m.on_alloc(0, 8);
    m.on_alloc(4, 16);
    m.on_alloc(48, 32768);
    m.on_large_alloc(40000);
    let mut snap = MetricsSnapshot::new();
    snap.accumulate_heap(&m);
    let h = snap.alloc_histogram();
    assert_eq!(h.buckets.len(), NUM_CLASSES);
    assert_eq!((h.buckets[0].le, h.buckets[0].count), (8, 2));
    assert_eq!((h.buckets[3].le, h.buckets[3].count), (14, 2));
    assert_eq!((h.buckets[4].le, h.buckets[4].count), (16, 3));
    assert_eq!((h.buckets[47].le, h.buckets[47].count), (28672, 3));
    assert_eq!((h.buckets[48].le, h.buckets[48].count), (32768, 4));
    assert_eq!(h.count, 5);
    assert_eq!(h.sum, 2 * 8 + 16 + 32768 + 40000);
    assert_eq!(
        snap.alloc_bytes,
        snap.class_alloc_bytes.iter().sum::<u64>() + snap.large_alloc_bytes
    );
}

#[test]
fn requests_raise_the_counters_of_their_class() {
    let small = Layout::from_size_align(9, 1).unwrap();
    let large = Layout::from_size_align(40000, 8).unwrap();
    let idx = class_index(small).unwrap();
    let mut m = HeapMetrics::zero();
    m.on_request(small, true, false);
    m.on_request(small, true, true);
    m.on_request(small, false, true);
    m.on_request(large, true, false);
    m.on_request(large, false, false);
    assert_eq!((m.class_alloc_count[idx], m.class_alloc_bytes[idx]), (2, 20));
    assert_eq!((m.class_dealloc_count[idx], m.class_free_bytes[idx]), (1, 10));
    assert_eq!((m.cache_hit_count[idx], m.cache_flush_count[idx]), (1, 1));
    assert_eq!((m.alloc_bytes, m.free_bytes), (40020, 40010));
    assert_eq!(m.large_alloc_count, 1);
    assert_eq!((m.large_alloc_bytes, m.large_dealloc_bytes), (40000, 40000));
}
