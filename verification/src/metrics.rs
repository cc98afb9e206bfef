//! Allocation metrics for observability and production debugging.
//!
//! Each heap has counters of its own. The pool keeps a registry of the heaps that are alive and
//! the counters of those that are gone, and sums them up into a [`MetricsSnapshot`].

use std::collections::HashMap;

use vstd::prelude::*;

use crate::layout::Layout;
use crate::pool::PagePool;
use crate::segment::SEGMENT_SIZE;
use crate::size_class::class_bytes;
use crate::size_class::class_index;
use crate::size_class::class_of;
use crate::size_class::class_size;
use crate::size_class::lemma_class_monotonic;
use crate::size_class::NUM_CLASSES;
use crate::slab::SLAB_SIZE;
use crate::sys::PageAllocator;

verus! {

broadcast use vstd::std_specs::hash::group_hash_axioms;

/// Most heaps that can be registered at a time.
pub const MAX_HEAPS: usize = 1024;

/// Registry index of a heap that is not registered.
pub const UNREGISTERED: u32 = 0xffff_ffff;

/// Counters as numbers.
#[verifier::ext_equal]
pub struct Counts {
    pub alloc_bytes: nat,
    pub free_bytes: nat,
    pub class_alloc_count: Seq<nat>,
    pub class_dealloc_count: Seq<nat>,
    pub class_alloc_bytes: Seq<nat>,
    pub class_free_bytes: Seq<nat>,
    pub cache_hit_count: Seq<nat>,
    pub cache_flush_count: Seq<nat>,
    pub remote_free_count: nat,
    pub large_alloc_count: nat,
    pub large_alloc_bytes: nat,
    pub large_dealloc_bytes: nat,
}

/// All zeros, one for each class.
pub open spec fn zeros() -> Seq<nat> {
    Seq::new(NUM_CLASSES as nat, |i: int| 0)
}

/// Sum of two sequences, class by class.
pub open spec fn sums(a: Seq<nat>, b: Seq<nat>) -> Seq<nat> {
    Seq::new(NUM_CLASSES as nat, |i: int| a[i] + b[i])
}

/// The sequence with `by` added for class `idx`.
pub open spec fn raised(a: Seq<nat>, idx: int, by: nat) -> Seq<nat> {
    a.update(idx, a[idx] + by)
}

/// Machine counters as numbers.
pub open spec fn numbers(a: [u64; NUM_CLASSES]) -> Seq<nat> {
    Seq::new(NUM_CLASSES as nat, |i: int| a@[i] as nat)
}

/// Every number fits in a machine counter.
pub open spec fn small(a: Seq<nat>) -> bool {
    forall|i: int| 0 <= i < NUM_CLASSES ==> #[trigger] a[i] <= u64::MAX
}

/// Sum over the first `n` classes.
pub open spec fn rolling(a: Seq<nat>, n: int) -> nat
    decreases n,
{
    if n <= 0 {
        0
    } else {
        rolling(a, n - 1) + a[n - 1]
    }
}

impl Counts {
    /// Nothing counted.
    pub open spec fn zero() -> Counts {
        Counts {
            alloc_bytes: 0,
            free_bytes: 0,
            class_alloc_count: zeros(),
            class_dealloc_count: zeros(),
            class_alloc_bytes: zeros(),
            class_free_bytes: zeros(),
            cache_hit_count: zeros(),
            cache_flush_count: zeros(),
            remote_free_count: 0,
            large_alloc_count: 0,
            large_alloc_bytes: 0,
            large_dealloc_bytes: 0,
        }
    }

    /// Both added up.
    pub open spec fn plus(self, other: Counts) -> Counts {
        Counts {
            alloc_bytes: self.alloc_bytes + other.alloc_bytes,
            free_bytes: self.free_bytes + other.free_bytes,
            class_alloc_count: sums(self.class_alloc_count, other.class_alloc_count),
            class_dealloc_count: sums(self.class_dealloc_count, other.class_dealloc_count),
            class_alloc_bytes: sums(self.class_alloc_bytes, other.class_alloc_bytes),
            class_free_bytes: sums(self.class_free_bytes, other.class_free_bytes),
            cache_hit_count: sums(self.cache_hit_count, other.cache_hit_count),
            cache_flush_count: sums(self.cache_flush_count, other.cache_flush_count),
            remote_free_count: self.remote_free_count + other.remote_free_count,
            large_alloc_count: self.large_alloc_count + other.large_alloc_count,
            large_alloc_bytes: self.large_alloc_bytes + other.large_alloc_bytes,
            large_dealloc_bytes: self.large_dealloc_bytes + other.large_dealloc_bytes,
        }
    }

    /// There is a number for each class.
    pub open spec fn shaped(self) -> bool {
        &&& self.class_alloc_count.len() == NUM_CLASSES
        &&& self.class_dealloc_count.len() == NUM_CLASSES
        &&& self.class_alloc_bytes.len() == NUM_CLASSES
        &&& self.class_free_bytes.len() == NUM_CLASSES
        &&& self.cache_hit_count.len() == NUM_CLASSES
        &&& self.cache_flush_count.len() == NUM_CLASSES
    }

    /// Every counter fits in 64 bits.
    pub open spec fn fits(self) -> bool {
        &&& self.alloc_bytes <= u64::MAX
        &&& self.free_bytes <= u64::MAX
        &&& small(self.class_alloc_count)
        &&& small(self.class_dealloc_count)
        &&& small(self.class_alloc_bytes)
        &&& small(self.class_free_bytes)
        &&& small(self.cache_hit_count)
        &&& small(self.cache_flush_count)
        &&& self.remote_free_count <= u64::MAX
        &&& self.large_alloc_count <= u64::MAX
        &&& self.large_alloc_bytes <= u64::MAX
        &&& self.large_dealloc_bytes <= u64::MAX
    }

    /// The byte counters agree with those of the classes and of the large blocks.
    pub open spec fn balanced(self) -> bool {
        &&& self.alloc_bytes == rolling(self.class_alloc_bytes, NUM_CLASSES as int)
            + self.large_alloc_bytes
        &&& self.free_bytes == rolling(self.class_free_bytes, NUM_CLASSES as int)
            + self.large_dealloc_bytes
    }

    /// After a block of class `idx` has been allocated.
    pub open spec fn allocated(self, idx: int, size: nat) -> Counts {
        Counts {
            alloc_bytes: self.alloc_bytes + size,
            class_alloc_count: raised(self.class_alloc_count, idx, 1),
            class_alloc_bytes: raised(self.class_alloc_bytes, idx, size),
            ..self
        }
    }

    /// After a block of class `idx` has been freed.
    pub open spec fn deallocated(self, idx: int, size: nat) -> Counts {
        Counts {
            free_bytes: self.free_bytes + size,
            class_dealloc_count: raised(self.class_dealloc_count, idx, 1),
            class_free_bytes: raised(self.class_free_bytes, idx, size),
            ..self
        }
    }

    /// After a large block has been allocated.
    pub open spec fn large_allocated(self, size: nat) -> Counts {
        Counts {
            alloc_bytes: self.alloc_bytes + size,
            large_alloc_count: self.large_alloc_count + 1,
            large_alloc_bytes: self.large_alloc_bytes + size,
            ..self
        }
    }

    /// After a large block has been freed.
    pub open spec fn large_deallocated(self, size: nat) -> Counts {
        Counts {
            free_bytes: self.free_bytes + size,
            large_dealloc_bytes: self.large_dealloc_bytes + size,
            ..self
        }
    }

    /// After an allocation of class `idx` has been served from the cache.
    pub open spec fn cache_hit(self, idx: int) -> Counts {
        Counts { cache_hit_count: raised(self.cache_hit_count, idx, 1), ..self }
    }

    /// After the cache of class `idx` has been flushed.
    pub open spec fn cache_flushed(self, idx: int) -> Counts {
        Counts { cache_flush_count: raised(self.cache_flush_count, idx, 1), ..self }
    }

    /// After a request for `layout` has been served: an allocation where `alloc` is true, else a
    /// deallocation. `cache` says whether the free cache served the allocation, or was flushed by
    /// the deallocation. A block of a class counts with the size of its slot.
    pub open spec fn requested(self, layout: Layout, alloc: bool, cache: bool) -> Counts {
        match class_of(layout) {
            None => if alloc {
                self.large_allocated(layout.size as nat)
            } else {
                self.large_deallocated(layout.size as nat)
            },
            Some(c) => {
                let n = if alloc {
                    self.allocated(c, class_bytes(c) as nat)
                } else {
                    self.deallocated(c, class_bytes(c) as nat)
                };
                if !cache {
                    n
                } else if alloc {
                    n.cache_hit(c)
                } else {
                    n.cache_flushed(c)
                }
            },
        }
    }

    /// After remote frees have been received.
    pub open spec fn remote_freed(self, count: nat) -> Counts {
        Counts { remote_free_count: self.remote_free_count + count, ..self }
    }
}

/// Counters of one heap.
pub struct HeapMetrics {
    /// Slot index in the pool's heap registry.
    pub registry_idx: u32,
    pub alloc_bytes: u64,
    pub free_bytes: u64,
    pub class_alloc_count: [u64; NUM_CLASSES],
    pub class_dealloc_count: [u64; NUM_CLASSES],
    pub class_alloc_bytes: [u64; NUM_CLASSES],
    pub class_free_bytes: [u64; NUM_CLASSES],
    pub cache_hit_count: [u64; NUM_CLASSES],
    pub cache_flush_count: [u64; NUM_CLASSES],
    pub remote_free_count: u64,
    pub large_alloc_count: u64,
    pub large_alloc_bytes: u64,
    pub large_dealloc_bytes: u64,
}

/// Adds each number of `b` to the one of the same class in `a`.
fn add_all(a: &mut [u64; NUM_CLASSES], b: &[u64; NUM_CLASSES])
    requires
        small(sums(numbers(*old(a)), numbers(*b))),
    ensures
        numbers(*final(a)) == sums(numbers(*old(a)), numbers(*b)),
{
    let mut i: usize = 0;
    while i < NUM_CLASSES
        invariant
            i <= NUM_CLASSES,
            small(sums(numbers(*old(a)), numbers(*b))),
            forall|j: int| 0 <= j < i ==> #[trigger] a@[j] == old(a)@[j] + b@[j],
            forall|j: int| i <= j < NUM_CLASSES ==> #[trigger] a@[j] == old(a)@[j],
        decreases NUM_CLASSES - i,
    {
        assert(sums(numbers(*old(a)), numbers(*b))[i as int] == old(a)@[i as int] + b@[i as int]);
        a[i] = a[i] + b[i];
        i = i + 1;
    }
    assert(numbers(*a) =~= sums(numbers(*old(a)), numbers(*b)));
}

impl HeapMetrics {
    /// The counters as numbers.
    pub open spec fn view(&self) -> Counts {
        Counts {
            alloc_bytes: self.alloc_bytes as nat,
            free_bytes: self.free_bytes as nat,
            class_alloc_count: numbers(self.class_alloc_count),
            class_dealloc_count: numbers(self.class_dealloc_count),
            class_alloc_bytes: numbers(self.class_alloc_bytes),
            class_free_bytes: numbers(self.class_free_bytes),
            cache_hit_count: numbers(self.cache_hit_count),
            cache_flush_count: numbers(self.cache_flush_count),
            remote_free_count: self.remote_free_count as nat,
            large_alloc_count: self.large_alloc_count as nat,
            large_alloc_bytes: self.large_alloc_bytes as nat,
            large_dealloc_bytes: self.large_dealloc_bytes as nat,
        }
    }

    /// Counters of a heap that has done nothing and is not registered.
    pub fn zero() -> (r: HeapMetrics)
        ensures
            r@ == Counts::zero(),
            r.registry_idx == UNREGISTERED,
    {
        let r = HeapMetrics {
            registry_idx: UNREGISTERED,
            alloc_bytes: 0,
            free_bytes: 0,
            class_alloc_count: [0;49],
            class_dealloc_count: [0;49],
            class_alloc_bytes: [0;49],
            class_free_bytes: [0;49],
            cache_hit_count: [0;49],
            cache_flush_count: [0;49],
            remote_free_count: 0,
            large_alloc_count: 0,
            large_alloc_bytes: 0,
            large_dealloc_bytes: 0,
        };
        assert(r@ =~= Counts::zero());
        r
    }

    /// Counts the allocation of a block of class `idx`.
    pub fn on_alloc(&mut self, idx: usize, class_size: usize)
        requires
            idx < NUM_CLASSES,
            old(self)@.allocated(idx as int, class_size as nat).fits(),
        ensures
            final(self)@ == old(self)@.allocated(idx as int, class_size as nat),
            final(self).registry_idx == old(self).registry_idx,
    {
        let size: u64 = class_size as u64;
        proof {
            let n = self@.allocated(idx as int, size as nat);
            assert(n.class_alloc_count[idx as int] <= u64::MAX);
            assert(n.class_alloc_bytes[idx as int] <= u64::MAX);
        }
        self.alloc_bytes = self.alloc_bytes + size;
        self.class_alloc_count[idx] = self.class_alloc_count[idx] + 1;
        self.class_alloc_bytes[idx] = self.class_alloc_bytes[idx] + size;
        assert(self@ =~= old(self)@.allocated(idx as int, size as nat));
    }

    /// Counts the deallocation of a block of class `idx`.
    pub fn on_dealloc(&mut self, idx: usize, class_size: usize)
        requires
            idx < NUM_CLASSES,
            old(self)@.deallocated(idx as int, class_size as nat).fits(),
        ensures
            final(self)@ == old(self)@.deallocated(idx as int, class_size as nat),
            final(self).registry_idx == old(self).registry_idx,
    {
        let size: u64 = class_size as u64;
        proof {
            let n = self@.deallocated(idx as int, size as nat);
            assert(n.class_dealloc_count[idx as int] <= u64::MAX);
            assert(n.class_free_bytes[idx as int] <= u64::MAX);
        }
        self.free_bytes = self.free_bytes + size;
        self.class_dealloc_count[idx] = self.class_dealloc_count[idx] + 1;
        self.class_free_bytes[idx] = self.class_free_bytes[idx] + size;
        assert(self@ =~= old(self)@.deallocated(idx as int, size as nat));
    }

    /// Counts the allocation of a large block.
    pub fn on_large_alloc(&mut self, size: usize)
        requires
            old(self)@.large_allocated(size as nat).fits(),
        ensures
            final(self)@ == old(self)@.large_allocated(size as nat),
            final(self).registry_idx == old(self).registry_idx,
    {
        self.alloc_bytes = self.alloc_bytes + size as u64;
        self.large_alloc_count = self.large_alloc_count + 1;
        self.large_alloc_bytes = self.large_alloc_bytes + size as u64;
    }

    /// Counts the deallocation of a large block.
    pub fn on_large_dealloc(&mut self, size: usize)
        requires
            old(self)@.large_deallocated(size as nat).fits(),
        ensures
            final(self)@ == old(self)@.large_deallocated(size as nat),
            final(self).registry_idx == old(self).registry_idx,
    {
        self.free_bytes = self.free_bytes + size as u64;
        self.large_dealloc_bytes = self.large_dealloc_bytes + size as u64;
    }

    /// Counts slots that came back from other heaps.
    pub fn on_remote_free(&mut self, count: u64)
        requires
            old(self)@.remote_freed(count as nat).fits(),
        ensures
            final(self)@ == old(self)@.remote_freed(count as nat),
            final(self).registry_idx == old(self).registry_idx,
    {
        self.remote_free_count = self.remote_free_count + count;
    }

    /// Counts an allocation of class `idx` that the free cache served.
    pub fn on_cache_hit(&mut self, idx: usize)
        requires
            idx < NUM_CLASSES,
            old(self)@.cache_hit(idx as int).fits(),
        ensures
            final(self)@ == old(self)@.cache_hit(idx as int),
            final(self).registry_idx == old(self).registry_idx,
    {
        assert(self@.cache_hit(idx as int).cache_hit_count[idx as int] <= u64::MAX);
        self.cache_hit_count[idx] = self.cache_hit_count[idx] + 1;
        assert(self@ =~= old(self)@.cache_hit(idx as int));
    }

    /// Counts a flush of the free cache of class `idx`.
    pub fn on_cache_flush(&mut self, idx: usize)
        requires
            idx < NUM_CLASSES,
            old(self)@.cache_flushed(idx as int).fits(),
        ensures
            final(self)@ == old(self)@.cache_flushed(idx as int),
            final(self).registry_idx == old(self).registry_idx,
    {
        assert(self@.cache_flushed(idx as int).cache_flush_count[idx as int] <= u64::MAX);
        self.cache_flush_count[idx] = self.cache_flush_count[idx] + 1;
        assert(self@ =~= old(self)@.cache_flushed(idx as int));
    }

    /// Counts a request for `layout` that has been served: an allocation where `alloc` is true,
    /// else a deallocation. `cache` says whether the free cache served the allocation, or was
    /// flushed by the deallocation.
    pub fn on_request(&mut self, layout: Layout, alloc: bool, cache: bool)
        requires
            layout.wf(),
            old(self)@.requested(layout, alloc, cache).fits(),
        ensures
            final(self)@ == old(self)@.requested(layout, alloc, cache),
            final(self).registry_idx == old(self).registry_idx,
    {
        match class_index(layout) {
            None => {
                if alloc {
                    self.on_large_alloc(layout.size());
                } else {
                    self.on_large_dealloc(layout.size());
                }
            },
            Some(idx) => {
                proof {
                    crate::heap::lemma_class_index(layout, idx as int);
                }
                let size: usize = class_size(idx);
                let ghost c = idx as int;
                let ghost v = self@;
                if alloc {
                    proof {
                        lemma_cache_fits(v.allocated(c, size as nat), c);
                    }
                    self.on_alloc(idx, size);
                    if cache {
                        self.on_cache_hit(idx);
                    }
                } else {
                    proof {
                        lemma_cache_fits(v.deallocated(c, size as nat), c);
                    }
                    self.on_dealloc(idx, size);
                    if cache {
                        self.on_cache_flush(idx);
                    }
                }
            },
        }
    }

    /// Fold another `HeapMetrics` into this one.
    pub fn accumulate(&mut self, other: &HeapMetrics)
        requires
            old(self)@.plus(other@).fits(),
        ensures
            final(self)@ == old(self)@.plus(other@),
            final(self).registry_idx == old(self).registry_idx,
    {
        self.alloc_bytes = self.alloc_bytes + other.alloc_bytes;
        self.free_bytes = self.free_bytes + other.free_bytes;
        self.remote_free_count = self.remote_free_count + other.remote_free_count;
        self.large_alloc_count = self.large_alloc_count + other.large_alloc_count;
        self.large_alloc_bytes = self.large_alloc_bytes + other.large_alloc_bytes;
        self.large_dealloc_bytes = self.large_dealloc_bytes + other.large_dealloc_bytes;
        add_all(&mut self.class_alloc_count, &other.class_alloc_count);
        add_all(&mut self.class_dealloc_count, &other.class_dealloc_count);
        add_all(&mut self.class_alloc_bytes, &other.class_alloc_bytes);
        add_all(&mut self.class_free_bytes, &other.class_free_bytes);
        add_all(&mut self.cache_hit_count, &other.cache_hit_count);
        add_all(&mut self.cache_flush_count, &other.cache_flush_count);
    }
}

/// Counters fit where they fit after a hit or a flush of the cache.
proof fn lemma_cache_fits(a: Counts, c: int)
    requires
        a.shaped(),
        0 <= c < NUM_CLASSES,
    ensures
        a.cache_hit(c).fits() ==> a.fits(),
        a.cache_flushed(c).fits() ==> a.fits(),
{
    if a.cache_hit(c).fits() {
        let n = a.cache_hit(c).cache_hit_count;
        assert forall|i: int| 0 <= i < NUM_CLASSES implies #[trigger] a.cache_hit_count[i]
            <= u64::MAX by {
            assert(n[i] <= u64::MAX);
        }
    }
    if a.cache_flushed(c).fits() {
        let n = a.cache_flushed(c).cache_flush_count;
        assert forall|i: int| 0 <= i < NUM_CLASSES implies #[trigger] a.cache_flush_count[i]
            <= u64::MAX by {
            assert(n[i] <= u64::MAX);
        }
    }
}

/// Sum of the counters of the heaps in `ptrs`.
pub open spec fn total(heaps: Map<usize, Counts>, ptrs: Seq<usize>) -> Counts
    decreases ptrs.len(),
{
    if ptrs.len() == 0 {
        Counts::zero()
    } else {
        total(heaps, ptrs.drop_last()).plus(heaps[ptrs.last()])
    }
}

/// Pool-level counters and the registry of heaps.
pub struct PoolMetrics {
    pub abandon_count: [u64; NUM_CLASSES],
    pub adopt_count: [u64; NUM_CLASSES],
    pub segment_mmap_count: u64,
    pub segment_munmap_count: u64,
    pub slab_purge_count: u64,
    pub pool_lock_count: u64,
    pub heap_ptrs: Vec<usize>,
    pub heaps: HashMap<usize, HeapMetrics>,
    pub dead: HeapMetrics,
}

impl PoolMetrics {
    /// The registered heaps, by the address of their counters.
    pub open spec fn ptrs(&self) -> Seq<usize> {
        self.heap_ptrs@
    }

    /// The counters at each address.
    pub open spec fn heaps(&self) -> Map<usize, Counts> {
        Map::new(|p: usize| self.heaps@.contains_key(p), |p: usize| self.heaps@[p]@)
    }

    /// The counters of heaps that are gone.
    pub open spec fn dead(&self) -> Counts {
        self.dead@
    }

    /// The counters of all heaps, alive and gone.
    pub open spec fn totals(&self) -> Counts {
        self.dead().plus(total(self.heaps(), self.ptrs()))
    }

    /// No heap is registered twice, and each one knows its place in the registry.
    pub open spec fn wf(&self) -> bool {
        &&& self.heap_ptrs.len() <= MAX_HEAPS
        &&& self.heap_ptrs@.no_duplicates()
        &&& forall|p: usize| #[trigger]
            self.heap_ptrs@.contains(p) <==> self.heaps@.contains_key(p)
        &&& forall|i: int|
            0 <= i < self.heap_ptrs.len() ==> self.heaps@[#[trigger] self.heap_ptrs@[i]].registry_idx
                == i
    }

    /// The counters that do not belong to a heap are the same.
    pub open spec fn same_pool_counters(&self, other: &PoolMetrics) -> bool {
        &&& self.abandon_count == other.abandon_count
        &&& self.adopt_count == other.adopt_count
        &&& self.segment_mmap_count == other.segment_mmap_count
        &&& self.segment_munmap_count == other.segment_munmap_count
        &&& self.slab_purge_count == other.slab_purge_count
        &&& self.pool_lock_count == other.pool_lock_count
    }

    /// Nothing counted and no heap registered.
    pub fn new() -> (r: PoolMetrics)
        ensures
            r.wf(),
            r.ptrs() == Seq::<usize>::empty(),
            r.heaps() == Map::<usize, Counts>::empty(),
            r.dead() == Counts::zero(),
            numbers(r.abandon_count) == zeros(),
            numbers(r.adopt_count) == zeros(),
            r.segment_mmap_count == 0,
            r.segment_munmap_count == 0,
            r.slab_purge_count == 0,
            r.pool_lock_count == 0,
    {
        let r = PoolMetrics {
            abandon_count: [0;49],
            adopt_count: [0;49],
            segment_mmap_count: 0,
            segment_munmap_count: 0,
            slab_purge_count: 0,
            pool_lock_count: 0,
            heap_ptrs: Vec::new(),
            heaps: HashMap::new(),
            dead: HeapMetrics::zero(),
        };
        assert(numbers(r.abandon_count) =~= zeros());
        assert(numbers(r.adopt_count) =~= zeros());
        assert(r.heaps() =~= Map::empty());
        r
    }

    /// Registers a heap with its counters.
    pub fn register_heap(&mut self, ptr: usize, metrics: HeapMetrics)
        requires
            old(self).wf(),
            old(self).ptrs().len() < MAX_HEAPS,
            !old(self).ptrs().contains(ptr),
        ensures
            final(self).wf(),
            final(self).ptrs() == old(self).ptrs().push(ptr),
            final(self).heaps() == old(self).heaps().insert(ptr, metrics@),
            final(self).dead() == old(self).dead(),
            final(self).same_pool_counters(old(self)),
    {
        let idx: usize = self.heap_ptrs.len();
        let mut metrics = metrics;
        metrics.registry_idx = idx as u32;
        let ghost m = metrics;
        proof {
            crate::bin_proof::lemma_push(self.heap_ptrs@, ptr);
        }
        self.heap_ptrs.push(ptr);
        self.heaps.insert(ptr, metrics);
        proof {
            assert(self.heaps() =~= old(self).heaps().insert(ptr, m@));
            assert forall|i: int| 0 <= i < self.heap_ptrs.len() implies self.heaps@[
                #[trigger] self.heap_ptrs@[i]
            ].registry_idx == i by {
                if i < idx {
                    assert(old(self).heap_ptrs@[i] == self.heap_ptrs@[i]);
                    assert(old(self).heap_ptrs@.contains(self.heap_ptrs@[i]));
                }
            }
        }
    }

    /// Takes over the counts that the pool keeps itself.
    pub fn note_pool<P: PageAllocator>(&mut self, pool: &PagePool<P>)
        ensures
            final(self).abandon_count@ == pool@.abandon_count,
            final(self).adopt_count@ == pool@.adopt_count,
            final(self).segment_mmap_count == pool@.mem.segment_mmap_count,
            final(self).segment_munmap_count == pool@.mem.segment_munmap_count,
            final(self).slab_purge_count == old(self).slab_purge_count,
            final(self).pool_lock_count == old(self).pool_lock_count,
            final(self).ptrs() == old(self).ptrs(),
            final(self).heaps() == old(self).heaps(),
            final(self).dead() == old(self).dead(),
            old(self).wf() ==> final(self).wf(),
    {
        self.abandon_count = pool.abandon_count();
        self.adopt_count = pool.adopt_count();
        self.segment_mmap_count = pool.segment_mmap_count();
        self.segment_munmap_count = pool.segment_munmap_count();
    }

    /// The counters of a registered heap.
    pub fn heap(&self, ptr: usize) -> (r: &HeapMetrics)
        requires
            self.wf(),
            self.ptrs().contains(ptr),
        ensures
            r@ == self.heaps()[ptr],
            r.registry_idx < self.ptrs().len(),
            self.ptrs()[r.registry_idx as int] == ptr,
    {
        proof {
            let i = choose|i: int| 0 <= i < self.heap_ptrs.len() && self.heap_ptrs@[i] == ptr;
            assert(self.heaps@[self.heap_ptrs@[i]].registry_idx == i);
        }
        self.heaps.get(&ptr).unwrap()
    }

    /// Writes the counters of a registered heap.
    pub fn store_heap(&mut self, ptr: usize, metrics: HeapMetrics)
        requires
            old(self).wf(),
            old(self).ptrs().contains(ptr),
        ensures
            final(self).wf(),
            final(self).ptrs() == old(self).ptrs(),
            final(self).heaps() == old(self).heaps().insert(ptr, metrics@),
            final(self).dead() == old(self).dead(),
            final(self).same_pool_counters(old(self)),
    {
        let mut metrics = metrics;
        let idx: u32 = self.heap(ptr).registry_idx;
        metrics.registry_idx = idx;
        let ghost m = metrics;
        self.heaps.insert(ptr, metrics);
        proof {
            assert(self.heaps() =~= old(self).heaps().insert(ptr, m@));
        }
    }

    /// Takes a heap out of the registry and folds its counters into those of the heaps that are
    /// gone. The heap that was registered last takes its place.
    pub fn deregister_heap(&mut self, ptr: usize)
        requires
            old(self).wf(),
            old(self).ptrs().contains(ptr),
            old(self).dead().plus(old(self).heaps()[ptr]).fits(),
        ensures
            final(self).wf(),
            without_heap(old(self), final(self), ptr),
            final(self).ptrs().len() == old(self).ptrs().len() - 1,
            forall|p: usize| #[trigger]
                final(self).ptrs().contains(p) <==> old(self).ptrs().contains(p) && p != ptr,
            final(self).totals() == old(self).totals(),
    {
        let ghost ptrs = self.heap_ptrs@;
        let ghost heaps = self.heaps();
        let ghost table = self.heaps@;
        let idx: usize = self.heap(ptr).registry_idx as usize;
        proof {
            assert(ptrs.index_of(ptr) == idx) by {
                let k = ptrs.index_of(ptr);
                assert(ptrs[k] == ptr);
            }
            assert(ptrs[idx as int] == ptr);
        }
        let metrics = self.heaps.remove(&ptr).unwrap();
        self.dead.accumulate(&metrics);
        let last: usize = self.heap_ptrs.len() - 1;
        self.heap_ptrs.swap_remove(idx);
        if idx != last {
            let moved: usize = self.heap_ptrs[idx];
            proof {
                assert(moved == ptrs[last as int]);
                assert(ptrs.contains(moved));
                assert(moved != ptr);
            }
            let mut entry = self.heaps.remove(&moved).unwrap();
            entry.registry_idx = idx as u32;
            let ghost e = entry;
            self.heaps.insert(moved, entry);
            proof {
                assert(e@ == table[moved]@);
            }
        }
        proof {
            let after = self.heap_ptrs@;
            assert(after =~= ptrs.update(idx as int, ptrs.last()).drop_last());
            assert forall|j: int| 0 <= j < after.len() implies #[trigger] after[j] == (if j == idx {
                ptrs[last as int]
            } else {
                ptrs[j]
            }) by {}
            assert forall|p: usize| #[trigger] after.contains(p) <==> ptrs.contains(p) && p
                != ptr by {
                if ptrs.contains(p) && p != ptr {
                    let k = choose|k: int| 0 <= k < ptrs.len() && ptrs[k] == p;
                    assert(after[if k == last {
                        idx as int
                    } else {
                        k
                    }] == p);
                }
                if after.contains(p) {
                    let k = choose|k: int| 0 <= k < after.len() && after[k] == p;
                    assert(ptrs[if k == idx {
                        last as int
                    } else {
                        k
                    }] == p);
                }
            }
            assert(after.no_duplicates());
            assert(self.heaps() =~= heaps.remove(ptr));
            assert forall|i: int| 0 <= i < after.len() implies self.heaps@[
                #[trigger] after[i]
            ].registry_idx == i by {
                let k = if i == idx {
                    last as int
                } else {
                    i
                };
                assert(after[i] == ptrs[k]);
                assert(table[ptrs[k]].registry_idx == k);
            }
            lemma_total_without(heaps, ptrs, idx as int);
            lemma_total_same(heaps, self.heaps(), after);
            lemma_plus_swap(old(self).dead(), heaps[ptr], total(heaps, after));
        }
    }

    /// Sum dead + live heap metrics into `snapshot`.
    pub fn aggregate_heap_metrics(&self, snapshot: &mut MetricsSnapshot)
        requires
            self.wf(),
            old(snapshot).counts().plus(self.totals()).fits(),
        ensures
            aggregated(self, old(snapshot), final(snapshot)),
    {
        let ghost start = snapshot.counts();
        let ghost base = start.plus(self.dead());
        proof {
            let all = total(self.heaps(), self.ptrs());
            lemma_total_prefix(self.heaps(), self.ptrs(), 0);
            lemma_plus_assoc(start, self.dead(), all);
            lemma_plus_fits(base, all);
            assert(self.ptrs().take(0) =~= Seq::empty());
            lemma_plus_zero(base);
        }
        snapshot.accumulate_heap(&self.dead);
        let mut i: usize = 0;
        while i < self.heap_ptrs.len()
            invariant
                i <= self.heap_ptrs.len(),
                self.wf(),
                base.plus(total(self.heaps(), self.ptrs())).fits(),
                base == start.plus(self.dead()),
                snapshot.counts() == base.plus(total(self.heaps(), self.ptrs().take(i as int))),
                snapshot.same_gauges(old(snapshot)),
            decreases self.heap_ptrs.len() - i,
        {
            let ptr: usize = self.heap_ptrs[i];
            proof {
                assert(self.heap_ptrs@.contains(ptr));
                let done = self.ptrs().take(i as int);
                assert(self.ptrs().take(i + 1).drop_last() =~= done);
                assert(self.ptrs().take(i + 1).last() == ptr);
                lemma_plus_assoc(base, total(self.heaps(), done), self.heaps()[ptr]);
                lemma_total_prefix(self.heaps(), self.ptrs(), i + 1);
                let part = total(self.heaps(), self.ptrs().take(i + 1));
                let rest = choose|rest: Counts|
                    total(self.heaps(), self.ptrs()) == #[trigger] part.plus(rest);
                lemma_plus_assoc(base, part, rest);
                lemma_plus_fits(base.plus(part), rest);
            }
            let metrics = self.heap(ptr);
            snapshot.accumulate_heap(metrics);
            i = i + 1;
        }
        proof {
            assert(self.ptrs().take(i as int) =~= self.ptrs());
            lemma_plus_assoc(start, self.dead(), total(self.heaps(), self.ptrs()));
        }
        snapshot.abandon_count = self.abandon_count;
        snapshot.adopt_count = self.adopt_count;
        snapshot.segment_mmap_count = self.segment_mmap_count;
        snapshot.segment_munmap_count = self.segment_munmap_count;
        snapshot.slab_purge_count = self.slab_purge_count;
        snapshot.pool_lock_count = self.pool_lock_count;
    }
}

/// What taking the heap at `ptr` out of the registry does: the heap that was registered last takes
/// its place, and its counters are added to those of the heaps that are gone.
pub open spec fn without_heap(before: &PoolMetrics, after: &PoolMetrics, ptr: usize) -> bool {
    let i = before.ptrs().index_of(ptr);
    &&& after.ptrs() == before.ptrs().update(i, before.ptrs().last()).drop_last()
    &&& after.heaps() == before.heaps().remove(ptr)
    &&& after.dead() == before.dead().plus(before.heaps()[ptr])
    &&& after.same_pool_counters(before)
}

/// What summing up the metrics into a snapshot does: the counters of all heaps are added, those of
/// the pool are copied.
pub open spec fn aggregated(
    pool: &PoolMetrics,
    before: &MetricsSnapshot,
    after: &MetricsSnapshot,
) -> bool {
    &&& after.counts() == before.counts().plus(pool.totals())
    &&& after.abandon_count == pool.abandon_count
    &&& after.adopt_count == pool.adopt_count
    &&& after.segment_mmap_count == pool.segment_mmap_count
    &&& after.segment_munmap_count == pool.segment_munmap_count
    &&& after.slab_purge_count == pool.slab_purge_count
    &&& after.pool_lock_count == pool.pool_lock_count
    &&& after.same_gauges(before)
}

/// A heap that goes loses nothing and doubles nothing: a snapshot is the same before and after.
pub proof fn law_exit_keeps_snapshot(
    before: PoolMetrics,
    after: PoolMetrics,
    ptr: usize,
    start: MetricsSnapshot,
    first: MetricsSnapshot,
    second: MetricsSnapshot,
)
    requires
        before.wf(),
        before.ptrs().contains(ptr),
        without_heap(&before, &after, ptr),
        aggregated(&before, &start, &first),
        aggregated(&after, &start, &second),
    ensures
        after.totals() == before.totals(),
        second.counts() == first.counts(),
        second.same_pool_counters(&first),
        second.same_gauges(&first),
{
    let ptrs = before.ptrs();
    let heaps = before.heaps();
    let i = ptrs.index_of(ptr);
    assert(ptrs[i] == ptr);
    assert(ptrs.contains(ptrs.last()));
    lemma_total_without(heaps, ptrs, i);
    assert forall|p: usize| #[trigger] after.ptrs().contains(p) implies heaps[p]
        == after.heaps()[p] by {
        let k = choose|k: int| 0 <= k < after.ptrs().len() && after.ptrs()[k] == p;
        if k == i {
            assert(ptrs[ptrs.len() - 1] == p);
        } else {
            assert(ptrs[k] == p);
        }
        assert(p != ptr);
    }
    lemma_total_same(heaps, after.heaps(), after.ptrs());
    lemma_plus_swap(before.dead(), heaps[ptr], total(heaps, after.ptrs()));
}

/// A sum has parts that fit where the sum fits.
proof fn lemma_plus_fits(a: Counts, b: Counts)
    requires
        a.plus(b).fits(),
    ensures
        a.fits(),
{
    let s = a.plus(b);
    assert forall|i: int| 0 <= i < NUM_CLASSES implies #[trigger] a.class_alloc_count[i]
        <= u64::MAX by {
        assert(s.class_alloc_count[i] <= u64::MAX);
    }
    assert forall|i: int| 0 <= i < NUM_CLASSES implies #[trigger] a.class_dealloc_count[i]
        <= u64::MAX by {
        assert(s.class_dealloc_count[i] <= u64::MAX);
    }
    assert forall|i: int| 0 <= i < NUM_CLASSES implies #[trigger] a.class_alloc_bytes[i]
        <= u64::MAX by {
        assert(s.class_alloc_bytes[i] <= u64::MAX);
    }
    assert forall|i: int| 0 <= i < NUM_CLASSES implies #[trigger] a.class_free_bytes[i]
        <= u64::MAX by {
        assert(s.class_free_bytes[i] <= u64::MAX);
    }
    assert forall|i: int| 0 <= i < NUM_CLASSES implies #[trigger] a.cache_hit_count[i]
        <= u64::MAX by {
        assert(s.cache_hit_count[i] <= u64::MAX);
    }
    assert forall|i: int| 0 <= i < NUM_CLASSES implies #[trigger] a.cache_flush_count[i]
        <= u64::MAX by {
        assert(s.cache_flush_count[i] <= u64::MAX);
    }
}

/// Sums can be regrouped.
proof fn lemma_plus_assoc(a: Counts, b: Counts, c: Counts)
    ensures
        a.plus(b).plus(c) == a.plus(b.plus(c)),
{
    assert(a.plus(b).plus(c) =~= a.plus(b.plus(c)));
}

/// Sums can be reordered.
proof fn lemma_plus_swap(a: Counts, b: Counts, c: Counts)
    ensures
        a.plus(b).plus(c) == a.plus(c.plus(b)),
{
    assert(a.plus(b).plus(c) =~= a.plus(c.plus(b)));
}

/// Adding nothing.
proof fn lemma_plus_zero(a: Counts)
    requires
        a.shaped(),
    ensures
        a.plus(Counts::zero()) == a,
{
    assert(a.plus(Counts::zero()) =~= a);
}

/// The sum of all heaps is that of the first `k` and a rest.
proof fn lemma_total_prefix(heaps: Map<usize, Counts>, ptrs: Seq<usize>, k: int)
    requires
        0 <= k <= ptrs.len(),
    ensures
        exists|rest: Counts|
            total(heaps, ptrs) == #[trigger] total(heaps, ptrs.take(k)).plus(rest),
    decreases ptrs.len() - k,
{
    let part = total(heaps, ptrs.take(k));
    if k == ptrs.len() {
        assert(ptrs.take(k) =~= ptrs);
        lemma_total_shape(heaps, ptrs);
        lemma_plus_zero(part);
        assert(total(heaps, ptrs) == part.plus(Counts::zero()));
    } else {
        lemma_total_prefix(heaps, ptrs, k + 1);
        let next = total(heaps, ptrs.take(k + 1));
        let rest = choose|rest: Counts| total(heaps, ptrs) == #[trigger] next.plus(rest);
        assert(ptrs.take(k + 1).drop_last() =~= ptrs.take(k));
        let one = heaps[ptrs.take(k + 1).last()];
        lemma_plus_assoc(part, one, rest);
        assert(total(heaps, ptrs) == part.plus(one.plus(rest)));
    }
}

/// A sum has a number for each class.
proof fn lemma_total_shape(heaps: Map<usize, Counts>, ptrs: Seq<usize>)
    ensures
        total(heaps, ptrs).shaped(),
{
}

/// The sum depends on the counters of the listed heaps only.
proof fn lemma_total_same(a: Map<usize, Counts>, b: Map<usize, Counts>, ptrs: Seq<usize>)
    requires
        forall|p: usize| #[trigger] ptrs.contains(p) ==> a[p] == b[p],
    ensures
        total(a, ptrs) == total(b, ptrs),
    decreases ptrs.len(),
{
    if ptrs.len() > 0 {
        assert(ptrs[ptrs.len() - 1] == ptrs.last());
        assert(ptrs.contains(ptrs.last()));
        assert forall|p: usize| #[trigger] ptrs.drop_last().contains(p) implies a[p] == b[p] by {
            let k = choose|k: int| 0 <= k < ptrs.drop_last().len() && ptrs.drop_last()[k] == p;
            assert(ptrs[k] == p);
            assert(ptrs.contains(p));
        }
        lemma_total_same(a, b, ptrs.drop_last());
    }
}

/// The sum where entry `i` is replaced.
proof fn lemma_total_update(heaps: Map<usize, Counts>, ptrs: Seq<usize>, i: int, p: usize)
    requires
        0 <= i < ptrs.len(),
    ensures
        total(heaps, ptrs.update(i, p)).plus(heaps[ptrs[i]]) == total(heaps, ptrs).plus(heaps[p]),
    decreases ptrs.len(),
{
    let u = ptrs.update(i, p);
    if i == ptrs.len() - 1 {
        assert(u.drop_last() =~= ptrs.drop_last());
        let rest = total(heaps, ptrs.drop_last());
        assert(rest.plus(heaps[p]).plus(heaps[ptrs[i]]) =~= rest.plus(heaps[ptrs[i]]).plus(
            heaps[p],
        ));
    } else {
        lemma_total_update(heaps, ptrs.drop_last(), i, p);
        assert(u.drop_last() =~= ptrs.drop_last().update(i, p));
        let a = total(heaps, u.drop_last());
        let b = total(heaps, ptrs.drop_last());
        let last = heaps[ptrs.last()];
        let old = heaps[ptrs[i]];
        assert(a.plus(last).plus(old) =~= a.plus(old).plus(last));
        assert(b.plus(last).plus(heaps[p]) =~= b.plus(heaps[p]).plus(last));
    }
}

/// The sum without entry `i`, whose place the last entry takes.
proof fn lemma_total_without(heaps: Map<usize, Counts>, ptrs: Seq<usize>, i: int)
    requires
        0 <= i < ptrs.len(),
        heaps[ptrs.last()].shaped(),
    ensures
        total(heaps, ptrs.update(i, ptrs.last()).drop_last()).plus(heaps[ptrs[i]]) == total(
            heaps,
            ptrs,
        ),
{
    let last = heaps[ptrs.last()];
    if i == ptrs.len() - 1 {
        assert(ptrs.update(i, ptrs.last()).drop_last() =~= ptrs.drop_last());
    } else {
        let front = ptrs.drop_last();
        lemma_total_update(heaps, front, i, ptrs.last());
        assert(ptrs.update(i, ptrs.last()).drop_last() =~= front.update(i, ptrs.last()));
    }
}

/// Aggregated metrics at one point in time.
pub struct MetricsSnapshot {
    pub allocated: u64,
    pub active: u64,
    pub mapped: u64,
    pub alloc_bytes: u64,
    pub free_bytes: u64,
    pub class_alloc_count: [u64; NUM_CLASSES],
    pub class_dealloc_count: [u64; NUM_CLASSES],
    pub class_alloc_bytes: [u64; NUM_CLASSES],
    pub class_free_bytes: [u64; NUM_CLASSES],
    pub cache_hit_count: [u64; NUM_CLASSES],
    pub cache_flush_count: [u64; NUM_CLASSES],
    pub class_live_count: [i64; NUM_CLASSES],
    pub class_live_bytes: [i64; NUM_CLASSES],
    pub abandon_count: [u64; NUM_CLASSES],
    pub adopt_count: [u64; NUM_CLASSES],
    pub segment_mmap_count: u64,
    pub segment_munmap_count: u64,
    pub slab_purge_count: u64,
    pub large_alloc_count: u64,
    pub large_alloc_bytes: u64,
    pub large_dealloc_bytes: u64,
    pub remote_free_count: u64,
    pub pool_lock_count: u64,
}

/// A counter read as a signed number.
pub open spec fn signed(n: int) -> int {
    if n <= i64::MAX {
        n
    } else {
        n - 0x1_0000_0000_0000_0000
    }
}

/// Reads a counter as a signed number.
pub fn cast_signed(n: u64) -> (r: i64)
    ensures
        r == signed(n as int),
{
    if n <= 0x7fff_ffff_ffff_ffff {
        n as i64
    } else {
        -((u64::MAX - n) as i64) - 1
    }
}

/// The differences of the counters, read as signed numbers, can be represented.
pub open spec fn differ_by_i64(a: [u64; NUM_CLASSES], b: [u64; NUM_CLASSES]) -> bool {
    forall|i: int|
        0 <= i < NUM_CLASSES ==> i64::MIN <= signed(#[trigger] a@[i] as int) - signed(b@[i] as int)
            <= i64::MAX
}

/// Each difference of two counters, read as signed numbers.
fn differences(a: &[u64; NUM_CLASSES], b: &[u64; NUM_CLASSES], r: &mut [i64; NUM_CLASSES])
    requires
        differ_by_i64(*a, *b),
    ensures
        forall|i: int|
            0 <= i < NUM_CLASSES ==> #[trigger] final(r)@[i] == signed(a@[i] as int) - signed(
                b@[i] as int,
            ),
{
    let mut i: usize = 0;
    while i < NUM_CLASSES
        invariant
            i <= NUM_CLASSES,
            differ_by_i64(*a, *b),
            forall|j: int|
                0 <= j < i ==> #[trigger] r@[j] == signed(a@[j] as int) - signed(b@[j] as int),
        decreases NUM_CLASSES - i,
    {
        assert(i64::MIN <= signed(a@[i as int] as int) - signed(b@[i as int] as int) <= i64::MAX);
        r[i] = cast_signed(a[i]) - cast_signed(b[i]);
        i = i + 1;
    }
}

impl MetricsSnapshot {
    /// The summed counters of the heaps as numbers.
    pub open spec fn counts(&self) -> Counts {
        Counts {
            alloc_bytes: self.alloc_bytes as nat,
            free_bytes: self.free_bytes as nat,
            class_alloc_count: numbers(self.class_alloc_count),
            class_dealloc_count: numbers(self.class_dealloc_count),
            class_alloc_bytes: numbers(self.class_alloc_bytes),
            class_free_bytes: numbers(self.class_free_bytes),
            cache_hit_count: numbers(self.cache_hit_count),
            cache_flush_count: numbers(self.cache_flush_count),
            remote_free_count: self.remote_free_count as nat,
            large_alloc_count: self.large_alloc_count as nat,
            large_alloc_bytes: self.large_alloc_bytes as nat,
            large_dealloc_bytes: self.large_dealloc_bytes as nat,
        }
    }

    /// The gauges and what is derived from the counters are the same.
    pub open spec fn same_gauges(&self, other: &MetricsSnapshot) -> bool {
        &&& self.allocated == other.allocated
        &&& self.active == other.active
        &&& self.mapped == other.mapped
        &&& self.class_live_count == other.class_live_count
        &&& self.class_live_bytes == other.class_live_bytes
    }

    /// The counters of the pool are the same.
    pub open spec fn same_pool_counters(&self, other: &MetricsSnapshot) -> bool {
        &&& self.abandon_count == other.abandon_count
        &&& self.adopt_count == other.adopt_count
        &&& self.segment_mmap_count == other.segment_mmap_count
        &&& self.segment_munmap_count == other.segment_munmap_count
        &&& self.slab_purge_count == other.slab_purge_count
        &&& self.pool_lock_count == other.pool_lock_count
    }

    /// A snapshot with nothing in it.
    pub fn new() -> (r: MetricsSnapshot)
        ensures
            r.counts() == Counts::zero(),
            r.allocated == 0,
            r.active == 0,
            r.mapped == 0,
            forall|i: int| 0 <= i < NUM_CLASSES ==> #[trigger] r.class_live_count@[i] == 0,
            forall|i: int| 0 <= i < NUM_CLASSES ==> #[trigger] r.class_live_bytes@[i] == 0,
            numbers(r.abandon_count) == zeros(),
            numbers(r.adopt_count) == zeros(),
            r.segment_mmap_count == 0,
            r.segment_munmap_count == 0,
            r.slab_purge_count == 0,
            r.pool_lock_count == 0,
    {
        let r = MetricsSnapshot {
            allocated: 0,
            active: 0,
            mapped: 0,
            alloc_bytes: 0,
            free_bytes: 0,
            class_alloc_count: [0;49],
            class_dealloc_count: [0;49],
            class_alloc_bytes: [0;49],
            class_free_bytes: [0;49],
            cache_hit_count: [0;49],
            cache_flush_count: [0;49],
            class_live_count: [0;49],
            class_live_bytes: [0;49],
            abandon_count: [0;49],
            adopt_count: [0;49],
            segment_mmap_count: 0,
            segment_munmap_count: 0,
            slab_purge_count: 0,
            large_alloc_count: 0,
            large_alloc_bytes: 0,
            large_dealloc_bytes: 0,
            remote_free_count: 0,
            pool_lock_count: 0,
        };
        assert(r.counts() =~= Counts::zero());
        assert(numbers(r.abandon_count) =~= zeros());
        assert(numbers(r.adopt_count) =~= zeros());
        r
    }

    /// Adds the counters of a heap.
    pub fn accumulate_heap(&mut self, h: &HeapMetrics)
        requires
            old(self).counts().plus(h@).fits(),
        ensures
            final(self).counts() == old(self).counts().plus(h@),
            final(self).same_gauges(old(self)),
            final(self).same_pool_counters(old(self)),
    {
        self.alloc_bytes = self.alloc_bytes + h.alloc_bytes;
        self.free_bytes = self.free_bytes + h.free_bytes;
        self.remote_free_count = self.remote_free_count + h.remote_free_count;
        self.large_alloc_count = self.large_alloc_count + h.large_alloc_count;
        self.large_alloc_bytes = self.large_alloc_bytes + h.large_alloc_bytes;
        self.large_dealloc_bytes = self.large_dealloc_bytes + h.large_dealloc_bytes;
        add_all(&mut self.class_alloc_count, &h.class_alloc_count);
        add_all(&mut self.class_dealloc_count, &h.class_dealloc_count);
        add_all(&mut self.class_alloc_bytes, &h.class_alloc_bytes);
        add_all(&mut self.class_free_bytes, &h.class_free_bytes);
        add_all(&mut self.cache_hit_count, &h.cache_hit_count);
        add_all(&mut self.cache_flush_count, &h.cache_flush_count);
    }

    /// Derives what is live from what has been allocated and freed.
    pub fn finalize(&mut self)
        requires
            differ_by_i64(old(self).class_alloc_count, old(self).class_dealloc_count),
            differ_by_i64(old(self).class_alloc_bytes, old(self).class_free_bytes),
        ensures
            forall|i: int|
                0 <= i < NUM_CLASSES ==> #[trigger] final(self).class_live_count@[i] == signed(
                    old(self).class_alloc_count@[i] as int,
                ) - signed(old(self).class_dealloc_count@[i] as int),
            forall|i: int|
                0 <= i < NUM_CLASSES ==> #[trigger] final(self).class_live_bytes@[i] == signed(
                    old(self).class_alloc_bytes@[i] as int,
                ) - signed(old(self).class_free_bytes@[i] as int),
            final(self).allocated == (if old(self).alloc_bytes >= old(self).free_bytes {
                old(self).alloc_bytes - old(self).free_bytes
            } else {
                0
            }),
            final(self).counts() == old(self).counts(),
            final(self).active == old(self).active,
            final(self).mapped == old(self).mapped,
            final(self).same_pool_counters(old(self)),
    {
        differences(
            &self.class_alloc_count,
            &self.class_dealloc_count,
            &mut self.class_live_count,
        );
        differences(&self.class_alloc_bytes, &self.class_free_bytes, &mut self.class_live_bytes);
        self.allocated = self.alloc_bytes.saturating_sub(self.free_bytes);
    }

    /// Sets the gauges of the memory behind the allocator: active are the slabs that are out and
    /// the live large blocks, mapped are the segments and the live large blocks.
    pub fn set_gauges(&mut self, outstanding_slabs: u64, segments: u64)
        requires
            old(self).large_dealloc_bytes <= old(self).large_alloc_bytes,
            outstanding_slabs * SLAB_SIZE + (old(self).large_alloc_bytes - old(
                self).large_dealloc_bytes) <= u64::MAX,
            segments * SEGMENT_SIZE + (old(self).large_alloc_bytes - old(
                self).large_dealloc_bytes) <= u64::MAX,
        ensures
            final(self).active == outstanding_slabs * SLAB_SIZE + (old(self).large_alloc_bytes
                - old(self).large_dealloc_bytes),
            final(self).mapped == segments * SEGMENT_SIZE + (old(self).large_alloc_bytes - old(
                self).large_dealloc_bytes),
            final(self).counts() == old(self).counts(),
            final(self).allocated == old(self).allocated,
            final(self).class_live_count == old(self).class_live_count,
            final(self).class_live_bytes == old(self).class_live_bytes,
            final(self).same_pool_counters(old(self)),
    {
        let large: u64 = self.large_alloc_bytes - self.large_dealloc_bytes;
        self.active = outstanding_slabs * (SLAB_SIZE as u64) + large;
        self.mapped = segments * (SEGMENT_SIZE as u64) + large;
    }
}

/// Blocks of at most a size.
#[derive(Clone, Copy, Debug, PartialEq, Eq, Structural)]
pub struct Bucket {
    /// The largest size that counts.
    pub le: u64,
    /// The number of blocks up to that size.
    pub count: u64,
}

/// Cumulative histogram of block sizes. The number of all blocks is that of the `+Inf` bucket.
pub struct Histogram {
    pub buckets: Vec<Bucket>,
    pub count: u64,
    pub sum: u64,
}

impl MetricsSnapshot {
    /// Histogram of the sizes of all blocks that have been allocated, with a bucket for each class.
    /// Blocks beyond the largest class are in the count of all only.
    pub fn alloc_histogram(&self) -> (r: Histogram)
        requires
            rolling(self.counts().class_alloc_count, NUM_CLASSES as int) + self.large_alloc_count
                <= u64::MAX,
        ensures
            r.buckets@.len() == NUM_CLASSES,
            forall|i: int|
                0 <= i < NUM_CLASSES ==> (#[trigger] r.buckets@[i]).le == class_bytes(i)
                    && r.buckets@[i].count == rolling(self.counts().class_alloc_count, i + 1),
            r.count == rolling(self.counts().class_alloc_count, NUM_CLASSES as int)
                + self.large_alloc_count,
            r.sum == self.alloc_bytes,
    {
        let ghost counts = self.counts().class_alloc_count;
        let mut buckets: Vec<Bucket> = Vec::new();
        let mut count: u64 = 0;
        let mut i: usize = 0;
        while i < NUM_CLASSES
            invariant
                i <= NUM_CLASSES,
                counts == self.counts().class_alloc_count,
                buckets@.len() == i,
                rolling(counts, NUM_CLASSES as int) <= u64::MAX,
                count == rolling(counts, i as int),
                forall|j: int|
                    0 <= j < i ==> (#[trigger] buckets@[j]).le == class_bytes(j)
                        && buckets@[j].count == rolling(counts, j + 1),
            decreases NUM_CLASSES - i,
        {
            proof {
                lemma_rolling_grows(counts, i + 1, NUM_CLASSES as int);
            }
            count = count + self.class_alloc_count[i];
            buckets.push(Bucket { le: class_size(i) as u64, count });
            i = i + 1;
        }
        Histogram { buckets, count: count + self.large_alloc_count, sum: self.alloc_bytes }
    }
}

/// Sums over more classes are no smaller.
proof fn lemma_rolling_grows(a: Seq<nat>, m: int, n: int)
    requires
        m <= n,
    ensures
        rolling(a, m) <= rolling(a, n),
    decreases n - m,
{
    if m < n {
        lemma_rolling_grows(a, m, n - 1);
    }
}

/// A raised counter raises the sums that it is in.
proof fn lemma_rolling_raised(a: Seq<nat>, idx: int, by: nat, n: int)
    requires
        0 <= idx < a.len(),
        n <= a.len(),
    ensures
        rolling(raised(a, idx, by), n) == rolling(a, n) + (if idx < n {
            by
        } else {
            0
        }),
    decreases n,
{
    if n > 0 {
        lemma_rolling_raised(a, idx, by, n - 1);
    }
}

/// Sums of sums.
proof fn lemma_rolling_sums(a: Seq<nat>, b: Seq<nat>, n: int)
    requires
        n <= NUM_CLASSES,
    ensures
        rolling(sums(a, b), n) == rolling(a, n) + rolling(b, n),
    decreases n,
{
    if n > 0 {
        lemma_rolling_sums(a, b, n - 1);
    }
}

/// Sums of zeros.
proof fn lemma_rolling_zeros(n: int)
    requires
        n <= NUM_CLASSES,
    ensures
        rolling(zeros(), n) == 0,
    decreases n,
{
    if n > 0 {
        lemma_rolling_zeros(n - 1);
    }
}

/// Whatever is counted, the bytes of all blocks stay those of the classes and of the large blocks
/// together.
pub proof fn law_bytes_add_up(c: Counts, other: Counts, idx: int, size: nat)
    requires
        c.shaped(),
        c.balanced(),
        other.shaped(),
        other.balanced(),
        0 <= idx < NUM_CLASSES,
    ensures
        Counts::zero().balanced(),
        c.allocated(idx, size).balanced(),
        c.deallocated(idx, size).balanced(),
        c.large_allocated(size).balanced(),
        c.large_deallocated(size).balanced(),
        c.remote_freed(size).balanced(),
        c.cache_hit(idx).balanced(),
        c.cache_flushed(idx).balanced(),
        c.plus(other).balanced(),
{
    let n = NUM_CLASSES as int;
    lemma_rolling_zeros(n);
    lemma_rolling_raised(c.class_alloc_bytes, idx, size, n);
    lemma_rolling_raised(c.class_free_bytes, idx, size, n);
    lemma_rolling_sums(c.class_alloc_bytes, other.class_alloc_bytes, n);
    lemma_rolling_sums(c.class_free_bytes, other.class_free_bytes, n);
}

/// The buckets of a histogram are in ascending order of their bounds, and a bucket holds all that
/// the ones below it hold.
pub proof fn law_buckets_are_cumulative(a: Seq<nat>, i: int, j: int)
    requires
        0 <= i < j < NUM_CLASSES,
    ensures
        class_bytes(i) < class_bytes(j),
        rolling(a, i + 1) <= rolling(a, j + 1) <= rolling(a, NUM_CLASSES as int),
{
    lemma_class_monotonic(i, j);
    lemma_rolling_grows(a, i + 1, j + 1);
    lemma_rolling_grows(a, j + 1, NUM_CLASSES as int);
}

/// What is said of the counters of a heap is said of its fields.
pub proof fn law_heap_counters_are_shown(m: HeapMetrics)
    ensures
        m.view().alloc_bytes == m.alloc_bytes,
        m.view().free_bytes == m.free_bytes,
        m.view().remote_free_count == m.remote_free_count,
        m.view().large_alloc_count == m.large_alloc_count,
        m.view().large_alloc_bytes == m.large_alloc_bytes,
        m.view().large_dealloc_bytes == m.large_dealloc_bytes,
        m.view().class_alloc_count.len() == 49,
        m.view().class_dealloc_count.len() == 49,
        m.view().class_alloc_bytes.len() == 49,
        m.view().class_free_bytes.len() == 49,
        m.view().cache_hit_count.len() == 49,
        m.view().cache_flush_count.len() == 49,
        forall|i: int| 0 <= i < 49 ==> #[trigger] m.view().class_alloc_count[i] == m.class_alloc_count@[i],
        forall|i: int| 0 <= i < 49 ==> #[trigger] m.view().class_dealloc_count[i] == m.class_dealloc_count@[i],
        forall|i: int| 0 <= i < 49 ==> #[trigger] m.view().class_alloc_bytes[i] == m.class_alloc_bytes@[i],
        forall|i: int| 0 <= i < 49 ==> #[trigger] m.view().class_free_bytes[i] == m.class_free_bytes@[i],
        forall|i: int| 0 <= i < 49 ==> #[trigger] m.view().cache_hit_count[i] == m.cache_hit_count@[i],
        forall|i: int| 0 <= i < 49 ==> #[trigger] m.view().cache_flush_count[i] == m.cache_flush_count@[i],
{
}

/// What is said of the counters of a snapshot is said of its fields.
pub proof fn law_snapshot_counters_are_shown(m: MetricsSnapshot)
    ensures
        m.counts().alloc_bytes == m.alloc_bytes,
        m.counts().free_bytes == m.free_bytes,
        m.counts().remote_free_count == m.remote_free_count,
        m.counts().large_alloc_count == m.large_alloc_count,
        m.counts().large_alloc_bytes == m.large_alloc_bytes,
        m.counts().large_dealloc_bytes == m.large_dealloc_bytes,
        m.counts().class_alloc_count.len() == 49,
        m.counts().class_dealloc_count.len() == 49,
        m.counts().class_alloc_bytes.len() == 49,
        m.counts().class_free_bytes.len() == 49,
        m.counts().cache_hit_count.len() == 49,
        m.counts().cache_flush_count.len() == 49,
        forall|i: int| 0 <= i < 49 ==> #[trigger] m.counts().class_alloc_count[i] == m.class_alloc_count@[i],
        forall|i: int| 0 <= i < 49 ==> #[trigger] m.counts().class_dealloc_count[i] == m.class_dealloc_count@[i],
        forall|i: int| 0 <= i < 49 ==> #[trigger] m.counts().class_alloc_bytes[i] == m.class_alloc_bytes@[i],
        forall|i: int| 0 <= i < 49 ==> #[trigger] m.counts().class_free_bytes[i] == m.class_free_bytes@[i],
        forall|i: int| 0 <= i < 49 ==> #[trigger] m.counts().cache_hit_count[i] == m.cache_hit_count@[i],
        forall|i: int| 0 <= i < 49 ==> #[trigger] m.counts().cache_flush_count[i] == m.cache_flush_count@[i],
{
}

/// Adding up counters adds up each of them.
pub proof fn law_each_counter_adds_up(a: Counts, b: Counts)
    ensures
        a.plus(b).alloc_bytes == a.alloc_bytes + b.alloc_bytes,
        a.plus(b).free_bytes == a.free_bytes + b.free_bytes,
        a.plus(b).remote_free_count == a.remote_free_count + b.remote_free_count,
        a.plus(b).large_alloc_count == a.large_alloc_count + b.large_alloc_count,
        a.plus(b).large_alloc_bytes == a.large_alloc_bytes + b.large_alloc_bytes,
        a.plus(b).large_dealloc_bytes == a.large_dealloc_bytes + b.large_dealloc_bytes,
        forall|i: int| 0 <= i < 49 ==> #[trigger] a.plus(b).class_alloc_count[i] == a.class_alloc_count[i] + b.class_alloc_count[i],
        forall|i: int| 0 <= i < 49 ==> #[trigger] a.plus(b).class_dealloc_count[i] == a.class_dealloc_count[i] + b.class_dealloc_count[i],
        forall|i: int| 0 <= i < 49 ==> #[trigger] a.plus(b).class_alloc_bytes[i] == a.class_alloc_bytes[i] + b.class_alloc_bytes[i],
        forall|i: int| 0 <= i < 49 ==> #[trigger] a.plus(b).class_free_bytes[i] == a.class_free_bytes[i] + b.class_free_bytes[i],
        forall|i: int| 0 <= i < 49 ==> #[trigger] a.plus(b).cache_hit_count[i] == a.cache_hit_count[i] + b.cache_hit_count[i],
        forall|i: int| 0 <= i < 49 ==> #[trigger] a.plus(b).cache_flush_count[i] == a.cache_flush_count[i] + b.cache_flush_count[i],
{
}

/// At first every counter is zero.
pub proof fn law_counting_starts_at_zero()
    ensures
        Counts::zero().alloc_bytes == 0,
        Counts::zero().free_bytes == 0,
        Counts::zero().remote_free_count == 0,
        Counts::zero().large_alloc_count == 0,
        Counts::zero().large_alloc_bytes == 0,
        Counts::zero().large_dealloc_bytes == 0,
        forall|i: int| 0 <= i < 49 ==> #[trigger] Counts::zero().class_alloc_count[i] == 0,
        forall|i: int| 0 <= i < 49 ==> #[trigger] Counts::zero().class_dealloc_count[i] == 0,
        forall|i: int| 0 <= i < 49 ==> #[trigger] Counts::zero().class_alloc_bytes[i] == 0,
        forall|i: int| 0 <= i < 49 ==> #[trigger] Counts::zero().class_free_bytes[i] == 0,
        forall|i: int| 0 <= i < 49 ==> #[trigger] Counts::zero().cache_hit_count[i] == 0,
        forall|i: int| 0 <= i < 49 ==> #[trigger] Counts::zero().cache_flush_count[i] == 0,
{
}

/// The counters of all registered heaps are the sums over the heaps: one more heap adds its own
/// counters, and no heap adds nothing.
pub proof fn law_each_heap_adds_its_own(
    heaps: Map<usize, Counts>,
    ptrs: Seq<usize>,
    p: usize,
)
    ensures
        total(heaps, Seq::empty()).alloc_bytes == 0,
        total(heaps, Seq::empty()).free_bytes == 0,
        total(heaps, Seq::empty()).remote_free_count == 0,
        total(heaps, Seq::empty()).large_alloc_count == 0,
        total(heaps, Seq::empty()).large_alloc_bytes == 0,
        total(heaps, Seq::empty()).large_dealloc_bytes == 0,
        forall|i: int| 0 <= i < 49 ==> #[trigger] total(heaps, Seq::empty()).class_alloc_count[i] == 0,
        forall|i: int| 0 <= i < 49 ==> #[trigger] total(heaps, Seq::empty()).class_dealloc_count[i] == 0,
        forall|i: int| 0 <= i < 49 ==> #[trigger] total(heaps, Seq::empty()).class_alloc_bytes[i] == 0,
        forall|i: int| 0 <= i < 49 ==> #[trigger] total(heaps, Seq::empty()).class_free_bytes[i] == 0,
        forall|i: int| 0 <= i < 49 ==> #[trigger] total(heaps, Seq::empty()).cache_hit_count[i] == 0,
        forall|i: int| 0 <= i < 49 ==> #[trigger] total(heaps, Seq::empty()).cache_flush_count[i] == 0,
        total(heaps, ptrs.push(p)).alloc_bytes == total(heaps, ptrs).alloc_bytes + heaps[p].alloc_bytes,
        total(heaps, ptrs.push(p)).free_bytes == total(heaps, ptrs).free_bytes + heaps[p].free_bytes,
        total(heaps, ptrs.push(p)).remote_free_count == total(heaps, ptrs).remote_free_count + heaps[p].remote_free_count,
        total(heaps, ptrs.push(p)).large_alloc_count == total(heaps, ptrs).large_alloc_count + heaps[p].large_alloc_count,
        total(heaps, ptrs.push(p)).large_alloc_bytes == total(heaps, ptrs).large_alloc_bytes + heaps[p].large_alloc_bytes,
        total(heaps, ptrs.push(p)).large_dealloc_bytes == total(heaps, ptrs).large_dealloc_bytes + heaps[p].large_dealloc_bytes,
        forall|i: int|
            0 <= i < 49 ==> #[trigger] total(heaps, ptrs.push(p)).class_alloc_count[i] == total(heaps, ptrs).class_alloc_count[i]
                + heaps[p].class_alloc_count[i],
        forall|i: int|
            0 <= i < 49 ==> #[trigger] total(heaps, ptrs.push(p)).class_dealloc_count[i] == total(heaps, ptrs).class_dealloc_count[i]
                + heaps[p].class_dealloc_count[i],
        forall|i: int|
            0 <= i < 49 ==> #[trigger] total(heaps, ptrs.push(p)).class_alloc_bytes[i] == total(heaps, ptrs).class_alloc_bytes[i]
                + heaps[p].class_alloc_bytes[i],
        forall|i: int|
            0 <= i < 49 ==> #[trigger] total(heaps, ptrs.push(p)).class_free_bytes[i] == total(heaps, ptrs).class_free_bytes[i]
                + heaps[p].class_free_bytes[i],
        forall|i: int|
            0 <= i < 49 ==> #[trigger] total(heaps, ptrs.push(p)).cache_hit_count[i] == total(heaps, ptrs).cache_hit_count[i]
                + heaps[p].cache_hit_count[i],
        forall|i: int|
            0 <= i < 49 ==> #[trigger] total(heaps, ptrs.push(p)).cache_flush_count[i] == total(heaps, ptrs).cache_flush_count[i]
                + heaps[p].cache_flush_count[i],
{
    assert(ptrs.push(p).drop_last() =~= ptrs);
    assert(ptrs.push(p).last() == p);
}

/// Each counter of a snapshot is what it was, and that of the heaps that are gone, and the sum of
/// those of the registered heaps; the counters of the pool are copied.
pub proof fn law_snapshot_sums_all_heaps(
    pool: PoolMetrics,
    before: MetricsSnapshot,
    after: MetricsSnapshot,
)
    requires
        aggregated(&pool, &before, &after),
    ensures
        after.alloc_bytes == before.alloc_bytes + pool.dead.alloc_bytes + total(pool.heaps(), pool.heap_ptrs@).alloc_bytes,
        after.free_bytes == before.free_bytes + pool.dead.free_bytes + total(pool.heaps(), pool.heap_ptrs@).free_bytes,
        after.remote_free_count == before.remote_free_count + pool.dead.remote_free_count + total(pool.heaps(), pool.heap_ptrs@).remote_free_count,
        after.large_alloc_count == before.large_alloc_count + pool.dead.large_alloc_count + total(pool.heaps(), pool.heap_ptrs@).large_alloc_count,
        after.large_alloc_bytes == before.large_alloc_bytes + pool.dead.large_alloc_bytes + total(pool.heaps(), pool.heap_ptrs@).large_alloc_bytes,
        after.large_dealloc_bytes == before.large_dealloc_bytes + pool.dead.large_dealloc_bytes + total(pool.heaps(), pool.heap_ptrs@).large_dealloc_bytes,
        forall|i: int|
            0 <= i < 49 ==> #[trigger] after.class_alloc_count@[i] == before.class_alloc_count@[i] + pool.dead.class_alloc_count@[i] + total(
                pool.heaps(),
                pool.heap_ptrs@,
            ).class_alloc_count[i],
        forall|i: int|
            0 <= i < 49 ==> #[trigger] after.class_dealloc_count@[i] == before.class_dealloc_count@[i] + pool.dead.class_dealloc_count@[i] + total(
                pool.heaps(),
                pool.heap_ptrs@,
            ).class_dealloc_count[i],
        forall|i: int|
            0 <= i < 49 ==> #[trigger] after.class_alloc_bytes@[i] == before.class_alloc_bytes@[i] + pool.dead.class_alloc_bytes@[i] + total(
                pool.heaps(),
                pool.heap_ptrs@,
            ).class_alloc_bytes[i],
        forall|i: int|
            0 <= i < 49 ==> #[trigger] after.class_free_bytes@[i] == before.class_free_bytes@[i] + pool.dead.class_free_bytes@[i] + total(
                pool.heaps(),
                pool.heap_ptrs@,
            ).class_free_bytes[i],
        forall|i: int|
            0 <= i < 49 ==> #[trigger] after.cache_hit_count@[i] == before.cache_hit_count@[i] + pool.dead.cache_hit_count@[i] + total(
                pool.heaps(),
                pool.heap_ptrs@,
            ).cache_hit_count[i],
        forall|i: int|
            0 <= i < 49 ==> #[trigger] after.cache_flush_count@[i] == before.cache_flush_count@[i] + pool.dead.cache_flush_count@[i] + total(
                pool.heaps(),
                pool.heap_ptrs@,
            ).cache_flush_count[i],
        forall|p: usize| #[trigger]
            pool.heaps@.contains_key(p) ==> pool.heaps()[p].alloc_bytes == pool.heaps@[p].alloc_bytes,
        forall|p: usize| #[trigger]
            pool.heaps@.contains_key(p) ==> pool.heaps()[p].free_bytes == pool.heaps@[p].free_bytes,
        forall|p: usize| #[trigger]
            pool.heaps@.contains_key(p) ==> pool.heaps()[p].remote_free_count == pool.heaps@[p].remote_free_count,
        forall|p: usize| #[trigger]
            pool.heaps@.contains_key(p) ==> pool.heaps()[p].large_alloc_count == pool.heaps@[p].large_alloc_count,
        forall|p: usize| #[trigger]
            pool.heaps@.contains_key(p) ==> pool.heaps()[p].large_alloc_bytes == pool.heaps@[p].large_alloc_bytes,
        forall|p: usize| #[trigger]
            pool.heaps@.contains_key(p) ==> pool.heaps()[p].large_dealloc_bytes == pool.heaps@[p].large_dealloc_bytes,
        forall|p: usize, i: int|
            #![trigger pool.heaps()[p].class_alloc_count[i]]
            pool.heaps@.contains_key(p) && 0 <= i < 49 ==> pool.heaps()[p].class_alloc_count[i]
                == pool.heaps@[p].class_alloc_count@[i],
        forall|p: usize, i: int|
            #![trigger pool.heaps()[p].class_dealloc_count[i]]
            pool.heaps@.contains_key(p) && 0 <= i < 49 ==> pool.heaps()[p].class_dealloc_count[i]
                == pool.heaps@[p].class_dealloc_count@[i],
        forall|p: usize, i: int|
            #![trigger pool.heaps()[p].class_alloc_bytes[i]]
            pool.heaps@.contains_key(p) && 0 <= i < 49 ==> pool.heaps()[p].class_alloc_bytes[i]
                == pool.heaps@[p].class_alloc_bytes@[i],
        forall|p: usize, i: int|
            #![trigger pool.heaps()[p].class_free_bytes[i]]
            pool.heaps@.contains_key(p) && 0 <= i < 49 ==> pool.heaps()[p].class_free_bytes[i]
                == pool.heaps@[p].class_free_bytes@[i],
        forall|p: usize, i: int|
            #![trigger pool.heaps()[p].cache_hit_count[i]]
            pool.heaps@.contains_key(p) && 0 <= i < 49 ==> pool.heaps()[p].cache_hit_count[i]
                == pool.heaps@[p].cache_hit_count@[i],
        forall|p: usize, i: int|
            #![trigger pool.heaps()[p].cache_flush_count[i]]
            pool.heaps@.contains_key(p) && 0 <= i < 49 ==> pool.heaps()[p].cache_flush_count[i]
                == pool.heaps@[p].cache_flush_count@[i],
        after.abandon_count == pool.abandon_count,
        after.adopt_count == pool.adopt_count,
        after.segment_mmap_count == pool.segment_mmap_count,
        after.segment_munmap_count == pool.segment_munmap_count,
        after.slab_purge_count == pool.slab_purge_count,
        after.pool_lock_count == pool.pool_lock_count,
{
    assert forall|i: int| 0 <= i < 49 implies #[trigger] after.class_alloc_count@[i] == before.class_alloc_count@[i]
        + pool.dead.class_alloc_count@[i] + total(pool.heaps(), pool.heap_ptrs@).class_alloc_count[i] by {
        assert(after.counts().class_alloc_count[i] == after.class_alloc_count@[i]);
        assert(before.counts().class_alloc_count[i] == before.class_alloc_count@[i]);
        assert(pool.dead@.class_alloc_count[i] == pool.dead.class_alloc_count@[i]);
    }
    assert forall|i: int| 0 <= i < 49 implies #[trigger] after.class_dealloc_count@[i] == before.class_dealloc_count@[i]
        + pool.dead.class_dealloc_count@[i] + total(pool.heaps(), pool.heap_ptrs@).class_dealloc_count[i] by {
        assert(after.counts().class_dealloc_count[i] == after.class_dealloc_count@[i]);
        assert(before.counts().class_dealloc_count[i] == before.class_dealloc_count@[i]);
        assert(pool.dead@.class_dealloc_count[i] == pool.dead.class_dealloc_count@[i]);
    }
    assert forall|i: int| 0 <= i < 49 implies #[trigger] after.class_alloc_bytes@[i] == before.class_alloc_bytes@[i]
        + pool.dead.class_alloc_bytes@[i] + total(pool.heaps(), pool.heap_ptrs@).class_alloc_bytes[i] by {
        assert(after.counts().class_alloc_bytes[i] == after.class_alloc_bytes@[i]);
        assert(before.counts().class_alloc_bytes[i] == before.class_alloc_bytes@[i]);
        assert(pool.dead@.class_alloc_bytes[i] == pool.dead.class_alloc_bytes@[i]);
    }
    assert forall|i: int| 0 <= i < 49 implies #[trigger] after.class_free_bytes@[i] == before.class_free_bytes@[i]
        + pool.dead.class_free_bytes@[i] + total(pool.heaps(), pool.heap_ptrs@).class_free_bytes[i] by {
        assert(after.counts().class_free_bytes[i] == after.class_free_bytes@[i]);
        assert(before.counts().class_free_bytes[i] == before.class_free_bytes@[i]);
        assert(pool.dead@.class_free_bytes[i] == pool.dead.class_free_bytes@[i]);
    }
    assert forall|i: int| 0 <= i < 49 implies #[trigger] after.cache_hit_count@[i] == before.cache_hit_count@[i]
        + pool.dead.cache_hit_count@[i] + total(pool.heaps(), pool.heap_ptrs@).cache_hit_count[i] by {
        assert(after.counts().cache_hit_count[i] == after.cache_hit_count@[i]);
        assert(before.counts().cache_hit_count[i] == before.cache_hit_count@[i]);
        assert(pool.dead@.cache_hit_count[i] == pool.dead.cache_hit_count@[i]);
    }
    assert forall|i: int| 0 <= i < 49 implies #[trigger] after.cache_flush_count@[i] == before.cache_flush_count@[i]
        + pool.dead.cache_flush_count@[i] + total(pool.heaps(), pool.heap_ptrs@).cache_flush_count[i] by {
        assert(after.counts().cache_flush_count[i] == after.cache_flush_count@[i]);
        assert(before.counts().cache_flush_count[i] == before.cache_flush_count@[i]);
        assert(pool.dead@.cache_flush_count[i] == pool.dead.cache_flush_count@[i]);
    }
}

/// Every allocation raises the bytes and, of the class that serves it, the count and the bytes; every
/// free does so with the counters of frees, whether or not the cache is involved. Only the counter of
/// the cache depends on that. Large blocks count with their size.
pub proof fn law_every_request_counts(c: Counts, layout: Layout, cache: bool)
    requires
        c.shaped(),
        layout.wf(),
    ensures
        ({
            let a = c.requested(layout, true, cache);
            match class_of(layout) {
                Some(k) => {
                    &&& a.alloc_bytes == c.alloc_bytes + class_bytes(k)
                    &&& a.free_bytes == c.free_bytes
                    &&& a.remote_free_count == c.remote_free_count
                    &&& a.large_alloc_count == c.large_alloc_count
                    &&& a.large_alloc_bytes == c.large_alloc_bytes
                    &&& a.large_dealloc_bytes == c.large_dealloc_bytes
                    &&& a.class_dealloc_count == c.class_dealloc_count
                    &&& a.class_free_bytes == c.class_free_bytes
                    &&& a.cache_flush_count == c.cache_flush_count
                    &&& forall|i: int|
                    0 <= i < 49 ==> #[trigger] a.class_alloc_count[i] == c.class_alloc_count[i] + (if i == k {
                        1int
                    } else {
                        0
                    })
                    &&& forall|i: int|
                    0 <= i < 49 ==> #[trigger] a.class_alloc_bytes[i] == c.class_alloc_bytes[i] + (if i == k {
                        class_bytes(k)
                    } else {
                        0
                    })
                    &&& forall|i: int|
                    0 <= i < 49 ==> #[trigger] a.cache_hit_count[i] == c.cache_hit_count[i] + (if i == k && cache {
                        1int
                    } else {
                        0
                    })
                },
                None => {
                    &&& a.alloc_bytes == c.alloc_bytes + layout.size
                    &&& a.free_bytes == c.free_bytes
                    &&& a.large_alloc_bytes == c.large_alloc_bytes + layout.size
                    &&& a.large_dealloc_bytes == c.large_dealloc_bytes
                    &&& a.large_alloc_count == c.large_alloc_count + 1
                    &&& a.remote_free_count == c.remote_free_count
                    &&& a.class_alloc_count == c.class_alloc_count
                    &&& a.class_dealloc_count == c.class_dealloc_count
                    &&& a.class_alloc_bytes == c.class_alloc_bytes
                    &&& a.class_free_bytes == c.class_free_bytes
                    &&& a.cache_hit_count == c.cache_hit_count
                    &&& a.cache_flush_count == c.cache_flush_count
                },
            }
        }),
        ({
            let f = c.requested(layout, false, cache);
            match class_of(layout) {
                Some(k) => {
                    &&& f.free_bytes == c.free_bytes + class_bytes(k)
                    &&& f.alloc_bytes == c.alloc_bytes
                    &&& f.remote_free_count == c.remote_free_count
                    &&& f.large_alloc_count == c.large_alloc_count
                    &&& f.large_alloc_bytes == c.large_alloc_bytes
                    &&& f.large_dealloc_bytes == c.large_dealloc_bytes
                    &&& f.class_alloc_count == c.class_alloc_count
                    &&& f.class_alloc_bytes == c.class_alloc_bytes
                    &&& f.cache_hit_count == c.cache_hit_count
                    &&& forall|i: int|
                    0 <= i < 49 ==> #[trigger] f.class_dealloc_count[i] == c.class_dealloc_count[i] + (if i == k {
                        1int
                    } else {
                        0
                    })
                    &&& forall|i: int|
                    0 <= i < 49 ==> #[trigger] f.class_free_bytes[i] == c.class_free_bytes[i] + (if i == k {
                        class_bytes(k)
                    } else {
                        0
                    })
                    &&& forall|i: int|
                    0 <= i < 49 ==> #[trigger] f.cache_flush_count[i] == c.cache_flush_count[i] + (if i == k && cache {
                        1int
                    } else {
                        0
                    })
                },
                None => {
                    &&& f.free_bytes == c.free_bytes + layout.size
                    &&& f.alloc_bytes == c.alloc_bytes
                    &&& f.large_dealloc_bytes == c.large_dealloc_bytes + layout.size
                    &&& f.large_alloc_bytes == c.large_alloc_bytes
                    &&& f.large_alloc_count == c.large_alloc_count
                    &&& f.remote_free_count == c.remote_free_count
                    &&& f.class_alloc_count == c.class_alloc_count
                    &&& f.class_dealloc_count == c.class_dealloc_count
                    &&& f.class_alloc_bytes == c.class_alloc_bytes
                    &&& f.class_free_bytes == c.class_free_bytes
                    &&& f.cache_hit_count == c.cache_hit_count
                    &&& f.cache_flush_count == c.cache_flush_count
                },
            }
        }),
{
    lemma_class_in_range(layout);
}

/// A block that has been allocated and freed leaves the bytes in use as they were, and for each class
/// the number of blocks in use.
pub proof fn law_free_undoes_allocation(c: Counts, layout: Layout, hit: bool, flush: bool)
    requires
        c.shaped(),
        layout.wf(),
    ensures
        ({
            let n = c.requested(layout, true, hit).requested(layout, false, flush);
            &&& n.alloc_bytes - n.free_bytes == c.alloc_bytes - c.free_bytes
            &&& n.alloc_bytes > c.alloc_bytes || layout.size == 0
            &&& n.large_alloc_bytes - n.large_dealloc_bytes == c.large_alloc_bytes
                - c.large_dealloc_bytes
            &&& forall|i: int|
                0 <= i < 49 ==> #[trigger] n.class_alloc_count[i] - n.class_dealloc_count[i]
                    == c.class_alloc_count[i] - c.class_dealloc_count[i]
            &&& forall|i: int|
                0 <= i < 49 ==> #[trigger] n.class_alloc_bytes[i] - n.class_free_bytes[i]
                    == c.class_alloc_bytes[i] - c.class_free_bytes[i]
        }),
{
    lemma_class_in_range(layout);
}

/// The class that serves a layout is one of those that there are.
proof fn lemma_class_in_range(layout: Layout)
    requires
        layout.wf(),
    ensures
        class_of(layout) matches Some(k) ==> 0 <= k < NUM_CLASSES && 8 <= class_bytes(k) <= 32768,
{
    if class_of(layout) is Some {
        let need = crate::size_class::slot_need(layout);
        crate::size_class::law_one_class_for_each_size(need);
        let k = class_of(layout)->0;
        assert(crate::size_class::smallest_class(k, need));
        crate::size_class::lemma_class_bounds(k);
    }
}

/// Remote frees raise their counter only.
pub proof fn law_remote_frees_count(c: Counts, n: nat)
    ensures
        c.remote_freed(n).remote_free_count == c.remote_free_count + n,
        c.remote_freed(n) == (Counts { remote_free_count: c.remote_free_count + n, ..c }),
{
}

/// What is live of a class is what has been allocated less what has been freed, as long as neither
/// count passes 63 bits.
pub proof fn law_live_is_allocated_less_freed(a: u64, b: u64)
    requires
        a <= i64::MAX,
        b <= i64::MAX,
    ensures
        signed(a as int) - signed(b as int) == a - b,
{
}

/// A counter read as a signed number differs from it by a multiple of two to the power of 64, and
/// lies in the range of such numbers.
pub proof fn law_signed_reading(n: u64)
    ensures
        i64::MIN <= signed(n as int) <= i64::MAX,
        signed(n as int) == n || signed(n as int) == n - 0x1_0000_0000_0000_0000,
{
}

/// The sum over classes adds each class once.
pub proof fn law_rolling_sum_adds_each_class(a: Seq<nat>, n: int)
    requires
        n >= 0,
    ensures
        rolling(a, 0) == 0,
        rolling(a, n + 1) == rolling(a, n) + a[n],
{
}

/// A heap that goes takes its counters to those of the heaps that are gone, and leaves the registry.
pub proof fn law_gone_heap_is_added(before: PoolMetrics, after: PoolMetrics, ptr: usize)
    requires
        before.wf(),
        before.heap_ptrs@.contains(ptr),
        without_heap(&before, &after, ptr),
    ensures
        after.dead.alloc_bytes == before.dead.alloc_bytes + before.heaps@[ptr].alloc_bytes,
        after.dead.free_bytes == before.dead.free_bytes + before.heaps@[ptr].free_bytes,
        after.dead.remote_free_count == before.dead.remote_free_count + before.heaps@[ptr].remote_free_count,
        after.dead.large_alloc_count == before.dead.large_alloc_count + before.heaps@[ptr].large_alloc_count,
        after.dead.large_alloc_bytes == before.dead.large_alloc_bytes + before.heaps@[ptr].large_alloc_bytes,
        after.dead.large_dealloc_bytes == before.dead.large_dealloc_bytes + before.heaps@[ptr].large_dealloc_bytes,
        forall|i: int|
            0 <= i < 49 ==> #[trigger] after.dead.class_alloc_count@[i] == before.dead.class_alloc_count@[i] + before.heaps@[ptr].class_alloc_count@[i],
        forall|i: int|
            0 <= i < 49 ==> #[trigger] after.dead.class_dealloc_count@[i] == before.dead.class_dealloc_count@[i] + before.heaps@[ptr].class_dealloc_count@[i],
        forall|i: int|
            0 <= i < 49 ==> #[trigger] after.dead.class_alloc_bytes@[i] == before.dead.class_alloc_bytes@[i] + before.heaps@[ptr].class_alloc_bytes@[i],
        forall|i: int|
            0 <= i < 49 ==> #[trigger] after.dead.class_free_bytes@[i] == before.dead.class_free_bytes@[i] + before.heaps@[ptr].class_free_bytes@[i],
        forall|i: int|
            0 <= i < 49 ==> #[trigger] after.dead.cache_hit_count@[i] == before.dead.cache_hit_count@[i] + before.heaps@[ptr].cache_hit_count@[i],
        forall|i: int|
            0 <= i < 49 ==> #[trigger] after.dead.cache_flush_count@[i] == before.dead.cache_flush_count@[i] + before.heaps@[ptr].cache_flush_count@[i],
        after.heap_ptrs@.len() == before.heap_ptrs@.len() - 1,
        forall|q: usize| #[trigger]
            after.heap_ptrs@.contains(q) <==> before.heap_ptrs@.contains(q) && q != ptr,
{
    assert(before.heaps@.contains_key(ptr));
    assert forall|i: int| 0 <= i < 49 implies #[trigger] after.dead.class_alloc_count@[i] == before.dead.class_alloc_count@[i]
        + before.heaps@[ptr].class_alloc_count@[i] by {
        assert(after.dead@.class_alloc_count[i] == after.dead.class_alloc_count@[i]);
        assert(before.dead@.class_alloc_count[i] == before.dead.class_alloc_count@[i]);
        assert(before.heaps()[ptr].class_alloc_count[i] == before.heaps@[ptr].class_alloc_count@[i]);
    }
    assert forall|i: int| 0 <= i < 49 implies #[trigger] after.dead.class_dealloc_count@[i] == before.dead.class_dealloc_count@[i]
        + before.heaps@[ptr].class_dealloc_count@[i] by {
        assert(after.dead@.class_dealloc_count[i] == after.dead.class_dealloc_count@[i]);
        assert(before.dead@.class_dealloc_count[i] == before.dead.class_dealloc_count@[i]);
        assert(before.heaps()[ptr].class_dealloc_count[i] == before.heaps@[ptr].class_dealloc_count@[i]);
    }
    assert forall|i: int| 0 <= i < 49 implies #[trigger] after.dead.class_alloc_bytes@[i] == before.dead.class_alloc_bytes@[i]
        + before.heaps@[ptr].class_alloc_bytes@[i] by {
        assert(after.dead@.class_alloc_bytes[i] == after.dead.class_alloc_bytes@[i]);
        assert(before.dead@.class_alloc_bytes[i] == before.dead.class_alloc_bytes@[i]);
        assert(before.heaps()[ptr].class_alloc_bytes[i] == before.heaps@[ptr].class_alloc_bytes@[i]);
    }
    assert forall|i: int| 0 <= i < 49 implies #[trigger] after.dead.class_free_bytes@[i] == before.dead.class_free_bytes@[i]
        + before.heaps@[ptr].class_free_bytes@[i] by {
        assert(after.dead@.class_free_bytes[i] == after.dead.class_free_bytes@[i]);
        assert(before.dead@.class_free_bytes[i] == before.dead.class_free_bytes@[i]);
        assert(before.heaps()[ptr].class_free_bytes[i] == before.heaps@[ptr].class_free_bytes@[i]);
    }
    assert forall|i: int| 0 <= i < 49 implies #[trigger] after.dead.cache_hit_count@[i] == before.dead.cache_hit_count@[i]
        + before.heaps@[ptr].cache_hit_count@[i] by {
        assert(after.dead@.cache_hit_count[i] == after.dead.cache_hit_count@[i]);
        assert(before.dead@.cache_hit_count[i] == before.dead.cache_hit_count@[i]);
        assert(before.heaps()[ptr].cache_hit_count[i] == before.heaps@[ptr].cache_hit_count@[i]);
    }
    assert forall|i: int| 0 <= i < 49 implies #[trigger] after.dead.cache_flush_count@[i] == before.dead.cache_flush_count@[i]
        + before.heaps@[ptr].cache_flush_count@[i] by {
        assert(after.dead@.cache_flush_count[i] == after.dead.cache_flush_count@[i]);
        assert(before.dead@.cache_flush_count[i] == before.dead.cache_flush_count@[i]);
        assert(before.heaps()[ptr].cache_flush_count[i] == before.heaps@[ptr].cache_flush_count@[i]);
    }
    let ptrs = before.heap_ptrs@;
    let i = ptrs.index_of(ptr);
    assert(ptrs[i] == ptr);
    let rest = after.heap_ptrs@;
    let last = ptrs.len() - 1;
    assert forall|q: usize| #[trigger] rest.contains(q) <==> ptrs.contains(q) && q != ptr by {
        if ptrs.contains(q) && q != ptr {
            let k = choose|k: int| 0 <= k < ptrs.len() && ptrs[k] == q;
            assert(rest[if k == last {
                i
            } else {
                k
            }] == q);
        }
        if rest.contains(q) {
            let k = choose|k: int| 0 <= k < rest.len() && rest[k] == q;
            assert(ptrs[if k == i {
                last
            } else {
                k
            }] == q);
        }
    }
}

/// A block that is counted by its class and size raises the bytes and, of its class alone, the
/// count and the bytes; a large one raises the counters of large blocks. A hit or a flush of the
/// cache raises its own counter.
pub proof fn law_blocks_count_by_class_and_size(c: Counts, k: int, size: nat)
    requires
        c.shaped(),
        0 <= k < 49,
    ensures
        ({
            let n = c.allocated(k, size);
            &&& n.alloc_bytes == c.alloc_bytes + size
            &&& n.class_alloc_count[k] == c.class_alloc_count[k] + 1
            &&& n.class_alloc_bytes[k] == c.class_alloc_bytes[k] + size
            &&& forall|i: int|
                0 <= i < 49 && i != k ==> #[trigger] n.class_alloc_count[i]
                    == c.class_alloc_count[i]
            &&& forall|i: int|
                0 <= i < 49 && i != k ==> #[trigger] n.class_alloc_bytes[i]
                    == c.class_alloc_bytes[i]
            &&& n == (Counts {
                alloc_bytes: n.alloc_bytes,
                class_alloc_count: n.class_alloc_count,
                class_alloc_bytes: n.class_alloc_bytes,
                ..c
            })
        }),
        ({
            let n = c.deallocated(k, size);
            &&& n.free_bytes == c.free_bytes + size
            &&& n.class_dealloc_count[k] == c.class_dealloc_count[k] + 1
            &&& n.class_free_bytes[k] == c.class_free_bytes[k] + size
            &&& forall|i: int|
                0 <= i < 49 && i != k ==> #[trigger] n.class_dealloc_count[i]
                    == c.class_dealloc_count[i]
            &&& forall|i: int|
                0 <= i < 49 && i != k ==> #[trigger] n.class_free_bytes[i] == c.class_free_bytes[i]
            &&& n == (Counts {
                free_bytes: n.free_bytes,
                class_dealloc_count: n.class_dealloc_count,
                class_free_bytes: n.class_free_bytes,
                ..c
            })
        }),
        ({
            let n = c.large_allocated(size);
            &&& n.alloc_bytes == c.alloc_bytes + size
            &&& n.large_alloc_count == c.large_alloc_count + 1
            &&& n.large_alloc_bytes == c.large_alloc_bytes + size
            &&& n == (Counts {
                alloc_bytes: n.alloc_bytes,
                large_alloc_count: n.large_alloc_count,
                large_alloc_bytes: n.large_alloc_bytes,
                ..c
            })
        }),
        ({
            let n = c.large_deallocated(size);
            &&& n.free_bytes == c.free_bytes + size
            &&& n.large_dealloc_bytes == c.large_dealloc_bytes + size
            &&& n == (Counts {
                free_bytes: n.free_bytes,
                large_dealloc_bytes: n.large_dealloc_bytes,
                ..c
            })
        }),
        ({
            let n = c.cache_hit(k);
            &&& n.cache_hit_count[k] == c.cache_hit_count[k] + 1
            &&& forall|i: int|
                0 <= i < 49 && i != k ==> #[trigger] n.cache_hit_count[i] == c.cache_hit_count[i]
            &&& n == (Counts { cache_hit_count: n.cache_hit_count, ..c })
        }),
        ({
            let n = c.cache_flushed(k);
            &&& n.cache_flush_count[k] == c.cache_flush_count[k] + 1
            &&& forall|i: int|
                0 <= i < 49 && i != k ==> #[trigger] n.cache_flush_count[i]
                    == c.cache_flush_count[i]
            &&& n == (Counts { cache_flush_count: n.cache_flush_count, ..c })
        }),
{
}

/// Counters have room as long as each fits in 64 bits.
pub proof fn law_counters_have_64_bits(c: Counts)
    ensures
        c.fits() <==> {
            &&& c.alloc_bytes <= u64::MAX && c.free_bytes <= u64::MAX && c.remote_free_count
                <= u64::MAX && c.large_alloc_count <= u64::MAX && c.large_alloc_bytes <= u64::MAX
                && c.large_dealloc_bytes <= u64::MAX
            &&& forall|i: int| 0 <= i < 49 ==> #[trigger] c.class_alloc_count[i] <= u64::MAX
            &&& forall|i: int| 0 <= i < 49 ==> #[trigger] c.class_dealloc_count[i] <= u64::MAX
            &&& forall|i: int| 0 <= i < 49 ==> #[trigger] c.class_alloc_bytes[i] <= u64::MAX
            &&& forall|i: int| 0 <= i < 49 ==> #[trigger] c.class_free_bytes[i] <= u64::MAX
            &&& forall|i: int| 0 <= i < 49 ==> #[trigger] c.cache_hit_count[i] <= u64::MAX
            &&& forall|i: int| 0 <= i < 49 ==> #[trigger] c.cache_flush_count[i] <= u64::MAX
        },
{
}

/// Summing up changes no gauge, and nothing that is derived from the counters.
pub proof fn law_sums_leave_gauges(
    pool: PoolMetrics,
    before: MetricsSnapshot,
    after: MetricsSnapshot,
)
    requires
        aggregated(&pool, &before, &after),
    ensures
        after.allocated == before.allocated,
        after.active == before.active,
        after.mapped == before.mapped,
        after.class_live_count == before.class_live_count,
        after.class_live_bytes == before.class_live_bytes,
{
}

/// What goes with a heap is the heap alone: the counters of the others and of the pool stay.
pub proof fn law_heap_goes_alone(
    before: PoolMetrics,
    after: PoolMetrics,
    ptr: usize,
    other: usize,
)
    requires
        without_heap(&before, &after, ptr),
        other != ptr,
        before.heaps@.contains_key(other),
    ensures
        after.heaps()[other] == before.heaps()[other],
        after.abandon_count == before.abandon_count,
        after.adopt_count == before.adopt_count,
        after.segment_mmap_count == before.segment_mmap_count,
        after.segment_munmap_count == before.segment_munmap_count,
        after.slab_purge_count == before.slab_purge_count,
        after.pool_lock_count == before.pool_lock_count,
{
}

/// What is live of a class can be derived wherever neither of its counts passes 63 bits.
pub proof fn law_live_counts_can_be_derived(a: [u64; NUM_CLASSES], b: [u64; NUM_CLASSES])
    requires
        forall|i: int| 0 <= i < 49 ==> #[trigger] a@[i] <= i64::MAX,
        forall|i: int| 0 <= i < 49 ==> #[trigger] b@[i] <= i64::MAX,
    ensures
        differ_by_i64(a, b),
{
    assert forall|i: int| 0 <= i < NUM_CLASSES implies i64::MIN <= signed(
        #[trigger] a@[i] as int,
    ) - signed(b@[i] as int) <= i64::MAX by {
        assert(b@[i] <= i64::MAX);
    }
}

/// The registry has room for 1024 heaps.
pub proof fn law_registry_holds_many_heaps(p: PoolMetrics)
    requires
        p.heap_ptrs@.no_duplicates(),
        p.heap_ptrs@.len() <= 1024,
        forall|q: usize| #[trigger] p.heap_ptrs@.contains(q) <==> p.heaps@.contains_key(q),
        forall|i: int|
            0 <= i < p.heap_ptrs@.len() ==> p.heaps@[#[trigger] p.heap_ptrs@[i]].registry_idx == i,
    ensures
        p.wf(),
        p.ptrs() == p.heap_ptrs@,
        p.dead() == p.dead@,
{
}

} // verus!
