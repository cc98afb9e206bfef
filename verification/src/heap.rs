//! Thread-local heap: per-thread allocation state that wires together
//! size classes, slabs, and the global page pool.
//!
//! Each heap owns one active slab per size class. Deallocation dispatches to
//! local or remote free lists based on slab ownership.
//!
//! Non-active slabs are tracked in two per-class queues: a *full* queue for
//! exhausted slabs and a *partial* queue for slabs with known free slots. When
//! the active slab is exhausted, the heap pops from the partial queue in O(1).
//! If the partial queue is empty, the heap scans the full queue in one pass,
//! draining remote frees and collecting all newly-partial slabs. This
//! amortises the scan cost.
//!
//! A per-size-class free cache absorbs alloc/free pairs without touching
//! shared state. Frees into slabs that are not active are pushed into the
//! cache; allocations pop from the cache first. The cache is flushed in batch
//! on overflow or thread exit.

use vstd::prelude::*;

use crate::bin::Bin;
use crate::bin_proof::lemma_bystander;
use crate::bin_proof::lemma_closed_down;
use crate::bin_proof::lemma_closed_down_classes;
use crate::bin_state::disposed;
use crate::bin_state::other_classes_same;
use crate::bin_state::owned;
use crate::bin_state::slab_started;
use crate::bin_state::slot_taken;
use crate::bin_state::undisturbed;
use crate::bin_state::BinView;
use crate::bin_state::State;
use crate::bin_state::CACHE_CAP;
use crate::layout::Layout;
use crate::pool::needs_segment;
use crate::pool::taken_up;
use crate::pool::PagePool;
use crate::pool::PoolView;
use crate::segment::raise_by;
use crate::segment::raised_by;
use crate::segment::segment_layout;
use crate::size_class::class_bytes;
use crate::size_class::class_index;
use crate::size_class::class_of;
use crate::size_class::NUM_CLASSES;
use crate::slab::base_of;
use crate::slab::is_slot;
use crate::sys::fits;
use crate::sys::PageAllocator;

verus! {

/// Id and bins of a heap.
#[verifier::ext_equal]
pub struct HeapView {
    pub id: usize,
    pub bins: Seq<BinView>,
}

impl HeapView {
    /// A heap that has just been made.
    pub open spec fn fresh(id: usize) -> HeapView {
        HeapView { id, bins: Seq::new(NUM_CLASSES as nat, |c: int| BinView::empty()) }
    }

    /// The heap belongs to the pool, and each bin is well formed.
    pub open spec fn wf(self, pool: PoolView) -> bool {
        &&& pool.wf()
        &&& 0 < self.id < pool.id_bound
        &&& self.bins.len() == NUM_CLASSES
        &&& forall|c: int| 0 <= c < NUM_CLASSES ==> (#[trigger] self.bins[c]).wf(pool, self.id, c)
    }

    /// Bin `c` together with the pool.
    pub open spec fn at(self, pool: PoolView, c: int) -> State {
        State { bin: self.bins[c], pool }
    }

    /// The heap with another bin `c`.
    pub open spec fn with_bin(self, c: int, bin: BinView) -> HeapView {
        HeapView { bins: self.bins.update(c, bin), ..self }
    }

    /// The pool after the heap has given up its bins from bin `c` on.
    pub open spec fn dropped_from(self, pool: PoolView, c: int) -> PoolView
        decreases NUM_CLASSES - c,
    {
        if c >= NUM_CLASSES {
            pool
        } else {
            self.dropped_from(self.at(pool, c).closed_down(self.id), c + 1)
        }
    }

    /// The count `n` with what the bins from bin `c` on have received from others when the heap has
    /// given them up.
    pub open spec fn dropped_count(self, pool: PoolView, c: int, n: u64) -> u64
        decreases NUM_CLASSES - c,
    {
        if c >= NUM_CLASSES {
            n
        } else {
            let s = self.at(pool, c);
            self.dropped_count(
                s.closed_down(self.id),
                c + 1,
                raised_by(n, s.closed_count(self.id) as int),
            )
        }
    }

    /// Count of the slots that others have freed and that the first `c` bins have recovered.
    pub open spec fn received(self, c: int) -> u64
        decreases c,
    {
        if c <= 0 {
            0
        } else {
            raised_by(self.received(c - 1), self.bins[c - 1].remote_frees as int)
        }
    }

    /// Heap and pool after the caches have been flushed and all slabs drained, from bin `c` on.
    pub open spec fn drained_from(self, pool: PoolView, c: int) -> (HeapView, PoolView)
        decreases NUM_CLASSES - c,
    {
        if c >= NUM_CLASSES {
            (self, pool)
        } else {
            let s = self.at(pool, c).drained_all(self.id);
            self.with_bin(c, s.bin).drained_from(s.pool, c + 1)
        }
    }
}

/// Other heaps than `id` on the same pool are as well formed as they were.
pub open spec fn others_kept(old: PoolView, new: PoolView, id: usize) -> bool {
    forall|other: HeapView| other.id != id && #[trigger] other.wf(old) ==> other.wf(new)
}

/// `p` can serve as a block for `layout`: not null, aligned, and in a slot of class `c` that is
/// large enough.
pub open spec fn serves(p: usize, layout: Layout, c: int) -> bool {
    &&& p > 0
    &&& p % layout.align == 0
    &&& layout.size <= class_bytes(c)
    &&& is_slot(base_of(p), c, p)
    &&& p + class_bytes(c) <= usize::MAX
}

/// What an allocation does.
pub open spec fn allocated(
    heap: HeapView,
    pool: PoolView,
    heap2: HeapView,
    pool2: PoolView,
    layout: Layout,
    r: Option<usize>,
) -> bool {
    match class_of(layout) {
        None => heap2 == heap && match r {
            None => pool2 == pool,
            Some(p) => fits(p, layout) && pool2 == pool.with_mem(
                pool.mem.with_large(p, layout),
            ) && !pool.mem.large.contains_key(p),
        },
        Some(c) => {
            &&& heap2 == heap.with_bin(c, heap2.bins[c])
            &&& slot_taken(heap.at(pool, c), heap2.at(pool2, c), r, heap.id, c)
        },
    }
}

/// The block at `p` has been allocated for a layout of the same class as `layout` and not been
/// freed since.
pub open spec fn in_use(pool: PoolView, p: usize, layout: Layout) -> bool {
    match class_of(layout) {
        None => pool.mem.large.contains_key(p) && pool.mem.large[p] == layout,
        Some(c) => pool.lent().contains_key(p) && pool.lent()[p] == c,
    }
}

/// What freeing the block at `p` does.
pub open spec fn deallocated(
    heap: HeapView,
    pool: PoolView,
    heap2: HeapView,
    pool2: PoolView,
    p: usize,
    layout: Layout,
) -> bool {
    match class_of(layout) {
        None => heap2 == heap && pool2 == pool.with_mem(pool.mem.without_large(p)),
        Some(c) => {
            let s = heap.at(pool, c).dealloced(p, heap.id);
            heap2 == heap.with_bin(c, s.bin) && pool2 == s.pool
        },
    }
}

/// Where heaps get their ids from. One serves all pools of a process, so that no two heaps have the
/// same id.
pub struct HeapIds {
    next: usize,
}

impl HeapIds {
    /// The id that the next heap gets.
    pub closed spec fn next(&self) -> usize {
        self.next
    }

    /// No id has been given yet.
    pub fn new() -> (r: HeapIds)
        ensures
            r.next() == 1,
    {
        HeapIds { next: 1 }
    }

    /// Whether there is an id left for another heap.
    pub fn has_next(&self) -> (r: bool)
        ensures
            r == (self.next() < usize::MAX),
    {
        self.next < usize::MAX
    }

    /// An id that no heap has had.
    pub fn next_heap_id(&mut self) -> (id: usize)
        requires
            old(self).next() < usize::MAX,
        ensures
            id == old(self).next(),
            final(self).next() == id + 1,
    {
        let id: usize = self.next;
        self.next = id + 1;
        id
    }
}

/// Per-thread allocation state.
pub struct Heap {
    id: usize,
    bins: Vec<Bin>,
}

impl Heap {
    /// Id and bins.
    pub closed spec fn view(&self) -> HeapView {
        HeapView { id: self.id, bins: Seq::new(self.bins@.len(), |c: int| self.bins@[c]@) }
    }

    /// The bins' fields agree with each other.
    pub closed spec fn inv(&self) -> bool {
        forall|c: int| 0 <= c < self.bins.len() ==> (#[trigger] self.bins[c]).inv()
    }

    /// What holds of a heap and its pool between any two calls.
    pub open spec fn wf<P: PageAllocator>(&self, pool: &PagePool<P>) -> bool {
        self.inv() && pool.inv() && self@.wf(pool@)
    }

    /// A heap with an id of its own and without slabs.
    ///
    /// All heaps of a pool get their ids from the same place.
    pub fn new<P: PageAllocator>(pool: &mut PagePool<P>, ids: &mut HeapIds) -> (r: Heap)
        requires
            old(pool).wf(),
            old(pool)@.id_bound <= old(ids).next() < usize::MAX,
        ensures
            r.wf(final(pool)),
            r@ == HeapView::fresh(old(ids).next()),
            final(ids).next() == old(ids).next() + 1,
            final(pool)@ == (PoolView { id_bound: final(ids).next(), ..old(pool)@ }),
            final(pool).foreign() == old(pool).foreign(),
            final(pool).pages() == old(pool).pages(),
            final(pool).source() == old(pool).source(),
            others_kept(old(pool)@, final(pool)@, r@.id),
    {
        let ghost v = pool@;
        let id: usize = ids.next_heap_id();
        pool.note_heap(id);
        let mut bins: Vec<Bin> = Vec::new();
        while bins.len() < NUM_CLASSES
            invariant
                bins.len() <= NUM_CLASSES,
                forall|c: int|
                    0 <= c < bins.len() ==> (#[trigger] bins[c]).inv() && bins[c]@
                        == BinView::empty(),
            decreases NUM_CLASSES - bins.len(),
        {
            bins.push(Bin::new());
        }
        let r = Heap { id, bins };
        proof {
            assert(r@.bins =~= HeapView::fresh(id).bins);
            let n = pool@;
            assert forall|c: int| 0 <= c < NUM_CLASSES implies (#[trigger] r@.bins[c]).wf(
                n,
                id,
                c,
            ) by {
                let bin = r@.bins[c];
                assert(bin =~= BinView::empty());
                assert forall|b: usize| #[trigger] bin.holds(b) <==> owned(n, id, c, b) by {}
                assert forall|p: usize| #[trigger]
                    bin.cache.contains(p) <==> crate::bin_state::cached_for(n, id, c, p) by {
                    if n.cached.contains_key(p) {
                        assert(v.cached.contains_key(p));
                    }
                }
            }
            assert forall|other: HeapView| other.id != id && #[trigger] other.wf(
                v,
            ) implies other.wf(n) by {
                lemma_same_bins(other, v, n);
            }
        }
        r
    }

    /// The heap's id.
    pub fn id(&self) -> (r: usize)
        ensures
            r == self@.id,
    {
        self.id
    }

    /// Count of the slots that others have freed and that the heap has recovered from the remote
    /// free lists of its slabs.
    pub fn remote_free_count(&self) -> (r: u64)
        requires
            self@.bins.len() == NUM_CLASSES,
        ensures
            r == self@.received(NUM_CLASSES as int),
    {
        let mut sum: u64 = 0;
        let mut i: usize = 0;
        while i < NUM_CLASSES
            invariant
                i <= NUM_CLASSES,
                self@.bins.len() == NUM_CLASSES,
                sum == self@.received(i as int),
            decreases NUM_CLASSES - i,
        {
            sum = raise_by(sum, self.bins[i].remote_free_count());
            i = i + 1;
        }
        sum
    }

    /// Whether a request for `layout` would be served from the cache.
    pub fn hits_cache(&self, layout: Layout) -> (r: bool)
        requires
            self.inv(),
            self@.bins.len() == NUM_CLASSES,
            layout.wf(),
        ensures
            r == (match class_of(layout) {
                Some(c) => self@.bins[c].cache.len() > 0,
                None => false,
            }),
    {
        match class_index(layout) {
            None => false,
            Some(idx) => {
                proof {
                    lemma_class_index(layout, idx as int);
                    assert(self.bins[idx as int].inv());
                }
                self.bins[idx].cache_len() > 0
            },
        }
    }

    /// Whether freeing the block at `ptr` would flush the cache.
    pub fn flushes_cache(&self, ptr: usize, layout: Layout) -> (r: bool)
        requires
            self.inv(),
            self@.bins.len() == NUM_CLASSES,
            layout.wf(),
        ensures
            r == (match class_of(layout) {
                Some(c) => self@.bins[c].active != Some(base_of(ptr)) && self@.bins[c].cache.len()
                    >= CACHE_CAP,
                None => false,
            }),
    {
        match class_index(layout) {
            None => false,
            Some(idx) => {
                proof {
                    lemma_class_index(layout, idx as int);
                    assert(self.bins[idx as int].inv());
                }
                !self.bins[idx].is_active(ptr) && self.bins[idx].cache_len() >= CACHE_CAP
            },
        }
    }

    /// Allocates a block for `layout`, or returns `None` where the page allocator has no memory
    /// for it.
    ///
    /// A request too large for a slab goes to the page allocator. Any other gets a slot of the
    /// smallest class that fits: from the cache, else from the active slab, else from the queues,
    /// else from abandoned slabs, else from a new slab. Where a new slab needs a new segment, the
    /// page allocator is asked for one.
    pub fn allocate<P: PageAllocator>(&mut self, pool: &mut PagePool<P>, layout: Layout) -> (r:
        Option<usize>)
        requires
            old(self).wf(old(pool)),
            layout.wf(),
        ensures
            final(self).wf(final(pool)),
            final(self)@.id == old(self)@.id,
            allocated(old(self)@, old(pool)@, final(self)@, final(pool)@, layout, r),
            class_of(layout) is None ==> exists|source: &mut P| #[trigger]
                call_ensures(P::allocate, (source, layout), r) && *source == old(pool).source()
                    && *final(source) == final(pool).source(),
            class_of(layout) matches Some(c) ==> ({
                let s = old(self)@.at(old(pool)@, c).prepared(old(self)@.id, c);
                old(self)@.bins[c].cache.len() == 0 && s.bin.active is None && needs_segment(
                    s.pool.mem,
                ) ==> exists|source: &mut P, given: Option<usize>| #[trigger]
                    call_ensures(P::allocate, (source, segment_layout()), given) && (
                    s.pool.mem.segments.len() == old(pool)@.mem.segments.len() ==> *source == old(
                        pool).source()) && source.pages() == old(pool).foreign().union_prefer_right(
                        s.pool.mem.pages(),
                    ) && slab_started(
                        s,
                        final(self)@.at(final(pool)@, c),
                        taken_up(s.pool.mem, given),
                        r,
                        old(self)@.id,
                        c,
                    ) && (given is None || r is Some ==> *final(source) == final(pool).source())
            }),
            r is None ==> final(pool)@.lent() == old(pool)@.lent() && final(pool)@.mem.large == old(
                pool)@.mem.large,
            r matches Some(p) ==> !in_use(old(pool)@, p, layout) && in_use(
                final(pool)@,
                p,
                layout,
            ),
            r matches Some(p) ==> match class_of(layout) {
                None => final(pool)@.lent() == old(pool)@.lent() && final(pool)@.mem.large == old(
                    pool)@.mem.large.insert(p, layout),
                Some(c) => final(pool)@.lent() == old(pool)@.lent().insert(p, c) && final(
                    pool)@.mem.large == old(pool)@.mem.large && !old(pool)@.lent().contains_key(p)
                    && (layout.size > 0 ==> serves(p, layout, c)),
            },
            others_kept(old(pool)@, final(pool)@, old(self)@.id),
            final(pool).foreign() == old(pool).foreign(),
    {
        let ghost v = pool@;
        let ghost h = self@;
        match class_index(layout) {
            None => {
                proof {
                    lemma_large_not_empty(layout);
                }
                let r = pool.alloc_large(layout);
                proof {
                    assert forall|other: HeapView| #[trigger] other.wf(v) implies other.wf(
                        pool@,
                    ) by {
                        lemma_same_bins(other, v, pool@);
                    }
                    assert(pool@.lent() =~= v.lent());
                    old(pool).lemma_pages();
                    if r is Some && v.mem.large.contains_key(r->0) {
                        crate::segment::lemma_large(v.mem, r->0, layout);
                    }
                }
                r
            },
            Some(idx) => {
                proof {
                    lemma_class_index(layout, idx as int);
                    assert(h.bins[idx as int].wf(v, h.id, idx as int));
                }
                let r = self.bins[idx].allocate(pool, self.id, idx);
                proof {
                    self.lemma_bin_changed(*old(self), v, pool@, idx as int);
                    if r is Some {
                        let p = r->0;
                        assert(pool@.lent().contains_key(p));
                        assert(pool@.is_lent(p));
                        assert(pool@.lent()[p] == idx);
                        assert(v.is_lent(p) <==> v.lent().contains_key(p));
                        if layout.size > 0 {
                            lemma_serves(pool@, p, layout, idx as int);
                        }
                    }
                }
                r
            },
        }
    }

    /// Frees the block at `ptr`.
    ///
    /// `ptr` must have been returned by `allocate` on some heap of the same pool, with a layout
    /// of the same size class, and not been freed since.
    pub fn dealloc<P: PageAllocator>(&mut self, pool: &mut PagePool<P>, ptr: usize, layout: Layout)
        requires
            old(self).wf(old(pool)),
            layout.wf(),
            in_use(old(pool)@, ptr, layout),
        ensures
            final(self).wf(final(pool)),
            final(self)@.id == old(self)@.id,
            deallocated(old(self)@, old(pool)@, final(self)@, final(pool)@, ptr, layout),
            !in_use(final(pool)@, ptr, layout),
            match class_of(layout) {
                None => final(pool)@.lent() == old(pool)@.lent() && final(pool)@.mem.large == old(
                    pool)@.mem.large.remove(ptr),
                Some(c) => final(pool)@.lent() == old(pool)@.lent().remove(ptr) && final(
                    pool)@.mem.large == old(pool)@.mem.large,
            },
            others_kept(old(pool)@, final(pool)@, old(self)@.id),
            final(pool).foreign() == old(pool).foreign(),
    {
        let ghost v = pool@;
        let ghost h = self@;
        match class_index(layout) {
            None => {
                pool.dealloc_large(ptr, layout);
                proof {
                    assert forall|other: HeapView| #[trigger] other.wf(v) implies other.wf(
                        pool@,
                    ) by {
                        lemma_same_bins(other, v, pool@);
                    }
                    assert(pool@.lent() =~= v.lent());
                }
            },
            Some(idx) => {
                proof {
                    lemma_class_index(layout, idx as int);
                    assert(h.bins[idx as int].wf(v, h.id, idx as int));
                    assert(v.is_lent(ptr));
                }
                self.bins[idx].dealloc(pool, ptr, self.id, idx);
                proof {
                    self.lemma_bin_changed(*old(self), v, pool@, idx as int);
                }
            },
        }
    }

    /// Flushes all caches and drains all slabs, so that every slot that has been freed is known to
    /// be free.
    pub fn drain_remote_all<P: PageAllocator>(&mut self, pool: &mut PagePool<P>)
        requires
            old(self).wf(old(pool)),
        ensures
            final(self).wf(final(pool)),
            (final(self)@, final(pool)@) == old(self)@.drained_from(old(pool)@, 0),
            final(pool)@.lent() == old(pool)@.lent(),
            final(pool)@.mem.large == old(pool)@.mem.large,
            others_kept(old(pool)@, final(pool)@, old(self)@.id),
            final(pool).foreign() == old(pool).foreign(),
    {
        let mut idx: usize = 0;
        while idx < NUM_CLASSES
            invariant
                idx <= NUM_CLASSES,
                self.wf(pool),
                self@.id == old(self)@.id,
                self@.drained_from(pool@, idx as int) == old(self)@.drained_from(old(pool)@, 0),
                pool@.lent() == old(pool)@.lent(),
                pool@.mem.large == old(pool)@.mem.large,
                others_kept(old(pool)@, pool@, old(self)@.id),
                pool.foreign() == old(pool).foreign(),
            decreases NUM_CLASSES - idx,
        {
            let ghost before = *self;
            let ghost v = pool@;
            proof {
                assert(self@.bins[idx as int].wf(v, self@.id, idx as int));
            }
            self.bins[idx].drain_remote_all(pool, self.id, idx);
            proof {
                self.lemma_bin_changed(before, v, pool@, idx as int);
            }
            idx = idx + 1;
        }
    }

    /// Ends the heap: flushes its caches, returns its fully-free slabs to the pool and leaves the
    /// others, with the blocks that are still in use, for other heaps to adopt. Returns the count of
    /// slots that others have freed and that the heap has recovered, up to its end.
    pub fn drop<P: PageAllocator>(self, pool: &mut PagePool<P>) -> (r: u64)
        requires
            self.wf(old(pool)),
        ensures
            final(pool).wf(),
            final(pool)@ == self@.dropped_from(old(pool)@, 0),
            r == self@.dropped_count(old(pool)@, 0, 0),
            final(pool)@.lent() == old(pool)@.lent(),
            final(pool)@.mem.large == old(pool)@.mem.large,
            others_kept(old(pool)@, final(pool)@, self@.id),
            forall|c: int, b: usize|
                #![trigger owned(old(pool)@, self@.id, c, b)]
                0 <= c < NUM_CLASSES && owned(old(pool)@, self@.id, c, b) ==> disposed(
                    final(pool)@,
                    b,
                ),
            final(pool).foreign() == old(pool).foreign(),
    {
        let ghost h = self@;
        let id: usize = self.id;
        let mut bins = self.bins;
        let mut idx: usize = 0;
        let mut count: u64 = 0;
        let ghost v0 = pool@;
        proof {
            assert forall|c: int| 0 <= c < bins.len() implies #[trigger] bins[c]@ == h.bins[c]
                && bins[c].inv() by {
                assert(self.bins[c].inv());
            }
        }
        while bins.len() > 0
            invariant
                idx + bins.len() == NUM_CLASSES,
                id == h.id,
                h.wf(v0),
                h.bins.len() == NUM_CLASSES,
                pool.wf(),
                id < pool@.id_bound,
                forall|k: int|
                    0 <= k < bins.len() ==> #[trigger] bins[k]@ == h.bins[k + idx] && bins[k].inv(),
                forall|c: int| idx <= c < NUM_CLASSES ==> (#[trigger] h.bins[c]).wf(pool@, id, c),
                h.dropped_from(pool@, idx as int) == h.dropped_from(v0, 0),
                h.dropped_count(pool@, idx as int, count) == h.dropped_count(v0, 0, 0),
                pool@.lent() == v0.lent(),
                pool@.mem.large == v0.mem.large,
                others_kept(v0, pool@, id),
                forall|c: int, b: usize|
                    #![trigger owned(v0, id, c, b)]
                    0 <= c < idx && owned(v0, id, c, b) ==> disposed(pool@, b) && (
                    pool@.slabs.contains_key(b) ==> pool@.slabs[b].class == c),
                forall|c: int, b: usize|
                    #![trigger owned(v0, id, c, b)]
                    idx <= c < NUM_CLASSES ==> owned(v0, id, c, b) == owned(pool@, id, c, b),
                pool.foreign() == old(pool).foreign(),
            decreases bins.len(),
        {
            let ghost v = pool@;
            proof {
                assert(bins[0]@ == h.bins[idx as int]);
                assert(h.bins[idx as int].wf(v, id, idx as int));
                lemma_closed_down(h.at(v, idx as int), id, idx as int);
                lemma_closed_down_classes(h.at(v, idx as int), id, idx as int);
            }
            let ghost before = bins@;
            let bin = bins.remove(0);
            count = raise_by(count, bin.close(pool, id, idx));
            proof {
                let n = pool@;
                assert forall|k: int| 0 <= k < bins.len() implies #[trigger] bins[k]@ == h.bins[k
                    + idx + 1] && bins[k].inv() by {
                    assert(bins[k] == before[k + 1]);
                }
                assert forall|c: int| idx < c < NUM_CLASSES implies (#[trigger] h.bins[c]).wf(
                    n,
                    id,
                    c,
                ) by {
                    lemma_bystander(h.bins[c], v, n, id, idx as int, id, c);
                }
                assert forall|other: HeapView| other.id != id && #[trigger] other.wf(
                    v0,
                ) implies other.wf(n) by {
                    assert(other.wf(v));
                    lemma_other_heap(other, v, n, id, idx as int);
                }
                assert forall|c: int, b: usize|
                    #![trigger owned(v0, id, c, b)]
                    0 <= c <= idx && owned(v0, id, c, b) implies disposed(n, b) && (
                n.slabs.contains_key(b) ==> n.slabs[b].class == c) by {
                    if c < idx {
                        lemma_disposed_stays(v, n, b, c, idx as int);
                    } else {
                        assert(owned(v, id, c, b));
                        if n.slabs.contains_key(b) && n.slabs[b].class != idx {
                            assert(v.slabs[b].class != idx);
                        }
                    }
                }
                assert forall|c: int, b: usize|
                    #![trigger owned(v0, id, c, b)]
                    idx < c < NUM_CLASSES implies owned(v0, id, c, b) == owned(n, id, c, b) by {
                    assert(owned(v, id, c, b) == owned(n, id, c, b));
                }
            }
            idx = idx + 1;
        }
        count
    }

    /// What follows for the heap when one bin and the pool have changed.
    proof fn lemma_bin_changed(&self, before: Heap, v: PoolView, n: PoolView, c: int)
        requires
            before.inv(),
            before@.wf(v),
            0 <= c < NUM_CLASSES,
            self.id == before.id,
            self.bins@ == before.bins@.update(c, self.bins@[c]),
            self.bins@[c].inv(),
            self.bins@[c]@.wf(n, self.id, c),
            n.wf(),
            n.id_bound == v.id_bound,
            undisturbed(v, n, self.id, c),
        ensures
            self.inv(),
            self@.wf(n),
            self@ == before@.with_bin(c, self@.bins[c]),
            self@.bins[c] == self.bins@[c]@,
            others_kept(v, n, self.id),
    {
        assert forall|d: int| 0 <= d < self.bins.len() implies (#[trigger] self.bins[d]).inv() by {
            if d != c {
                assert(before.bins[d].inv());
            }
        }
        assert forall|d: int| 0 <= d < NUM_CLASSES implies (#[trigger] self@.bins[d]).wf(
            n,
            self.id,
            d,
        ) by {
            if d != c {
                assert(before@.bins[d].wf(v, self.id, d));
                lemma_bystander(before@.bins[d], v, n, self.id, c, self.id, d);
                assert(self@.bins[d] == before@.bins[d]);
            }
        }
        assert(self@ =~= before@.with_bin(c, self@.bins[c]));
        assert forall|other: HeapView| other.id != self.id && #[trigger] other.wf(
            v,
        ) implies other.wf(n) by {
            lemma_other_heap(other, v, n, self.id, c);
        }
    }
}

/// A heap that is undisturbed stays well formed.
pub proof fn lemma_other_heap(other: HeapView, v: PoolView, n: PoolView, id: usize, c: int)
    requires
        other.wf(v),
        other.id != id,
        n.wf(),
        n.id_bound == v.id_bound,
        undisturbed(v, n, id, c),
    ensures
        other.wf(n),
{
    assert forall|d: int| 0 <= d < NUM_CLASSES implies (#[trigger] other.bins[d]).wf(
        n,
        other.id,
        d,
    ) by {
        assert(other.bins[d].wf(v, other.id, d));
        lemma_bystander(other.bins[d], v, n, id, c, other.id, d);
    }
}

/// A slab that has been disposed of stays so while slabs of another class are given up.
proof fn lemma_disposed_stays(v: PoolView, n: PoolView, b: usize, c: int, d: int)
    requires
        v.wf(),
        n.wf(),
        disposed(v, b),
        c != d,
        v.slabs.contains_key(b) ==> v.slabs[b].class == c,
        other_classes_same(v, n, d),
    ensures
        disposed(n, b),
        n.slabs.contains_key(b) ==> n.slabs[b].class == c,
{
}

/// Heaps do not mind what the pool's memory is, nor ids that nobody has had.
pub proof fn lemma_same_bins(h: HeapView, v: PoolView, n: PoolView)
    requires
        h.wf(v),
        n.wf(),
        n.slabs == v.slabs,
        n.abandoned == v.abandoned,
        n.cached == v.cached,
        n.id_bound >= v.id_bound,
    ensures
        h.wf(n),
{
    assert forall|c: int| 0 <= c < NUM_CLASSES implies (#[trigger] h.bins[c]).wf(n, h.id, c) by {
        let bin = h.bins[c];
        assert(bin.wf(v, h.id, c));
        assert forall|b: usize| #[trigger] bin.holds(b) <==> owned(n, h.id, c, b) by {
            assert(n.is_abandoned(b) == v.is_abandoned(b));
            assert(owned(n, h.id, c, b) == owned(v, h.id, c, b));
        }
        assert forall|p: usize| #[trigger]
            bin.cache.contains(p) <==> crate::bin_state::cached_for(n, h.id, c, p) by {
            assert(crate::bin_state::cached_for(n, h.id, c, p) == crate::bin_state::cached_for(
                v,
                h.id,
                c,
                p,
            ));
        }
    }
}

/// A block that somebody frees onto a slab's remote free list disturbs no heap.
pub proof fn lemma_remote_free(h: HeapView, v: PoolView, p: usize)
    requires
        h.wf(v),
        v.is_lent(p),
    ensures
        h.wf(v.with_slab(base_of(p), v.slabs[base_of(p)].chained_remote(seq![p]))),
{
    let b = base_of(p);
    let t = v.slabs[b].chained_remote(seq![p]);
    let n = v.with_slab(b, t);
    let run = seq![p];
    assert(run[0] == p);
    crate::pool::lemma_chained_wf(v, b, run);
    assert forall|c: int| 0 <= c < NUM_CLASSES implies (#[trigger] h.bins[c]).wf(n, h.id, c) by {
        let bin = h.bins[c];
        assert(bin.wf(v, h.id, c));
        assert forall|q: usize| #[trigger] bin.holds(q) <==> owned(n, h.id, c, q) by {
            assert(n.is_abandoned(q) == v.is_abandoned(q));
            assert(owned(n, h.id, c, q) == owned(v, h.id, c, q));
        }
        assert forall|q: usize| #[trigger]
            bin.cache.contains(q) <==> crate::bin_state::cached_for(n, h.id, c, q) by {
            assert(crate::bin_state::cached_for(n, h.id, c, q) == crate::bin_state::cached_for(
                v,
                h.id,
                c,
                q,
            ));
        }
    }
}

/// The class that is found for a layout is the class that serves it.
pub proof fn lemma_class_index(layout: Layout, c: int)
    requires
        crate::size_class::smallest_class(c, crate::size_class::slot_need(layout)),
    ensures
        class_of(layout) == Some(c),
{
    let need = crate::size_class::slot_need(layout);
    crate::size_class::lemma_class_bounds(c);
    let i = choose|i: int| crate::size_class::smallest_class(i, need);
    crate::size_class::lemma_class_unique(c, i, need);
}

/// A layout that is too large for a slab has a size.
proof fn lemma_large_not_empty(layout: Layout)
    requires
        layout.wf(),
        class_of(layout) is None,
    ensures
        layout.size > 0,
{
    if layout.size == 0 {
        crate::layout::lemma_round_up_step(0, layout.align as int);
        vstd::arithmetic::div_mod::lemma_small_mod(0, layout.align as nat);
    }
}

/// A power of two divides every larger one.
proof fn lemma_powers_divide(n: int, m: int)
    requires
        crate::layout::is_power_of_two(n),
        crate::layout::is_power_of_two(m),
        n <= m,
    ensures
        m % n == 0,
    decreases n,
{
    if n > 1 {
        lemma_powers_divide(n / 2, m / 2);
        let k = (m / 2) / (n / 2);
        vstd::arithmetic::div_mod::lemma_fundamental_div_mod(m / 2, n / 2);
        assert(m == k * n) by (nonlinear_arith)
            requires
                m == 2 * (m / 2),
                n == 2 * (n / 2),
                m / 2 == (n / 2) * k,
        ;
        vstd::arithmetic::div_mod::lemma_mod_multiples_basic(k, n);
    }
}

/// What divides a divisor divides the number.
proof fn lemma_divides_trans(x: int, m: int, a: int)
    requires
        a > 0,
        m > 0,
        x % m == 0,
        m % a == 0,
    ensures
        x % a == 0,
{
    let k = x / m;
    let j = m / a;
    vstd::arithmetic::div_mod::lemma_fundamental_div_mod(x, m);
    vstd::arithmetic::div_mod::lemma_fundamental_div_mod(m, a);
    assert(x == (k * j) * a) by (nonlinear_arith)
        requires
            x == m * k,
            m == a * j,
    ;
    vstd::arithmetic::div_mod::lemma_mod_multiples_basic(k * j, a);
}

/// A slot of the class that serves a layout can serve as a block for it.
proof fn lemma_serves(v: PoolView, p: usize, layout: Layout, c: int)
    requires
        v.wf(),
        v.is_lent(p),
        v.slabs[base_of(p)].class == c,
        layout.wf(),
        layout.size > 0,
        crate::size_class::smallest_class(c, crate::size_class::slot_need(layout)),
    ensures
        serves(p, layout, c),
{
    let b = base_of(p);
    let a = layout.align as int;
    let m = class_bytes(c);
    crate::sys::lemma_layout_bounds(layout);
    crate::size_class::law_class_is_smallest_fit(layout, c);
    crate::size_class::lemma_class_bounds(c);
    crate::slab::lemma_geometry(c);
    crate::slab::lemma_slot_index(b, c, p);
    crate::layout::lemma_round_up(layout.size as int, a);
    let n = crate::layout::round_up(layout.size as int, a);
    if n < a {
        vstd::arithmetic::div_mod::lemma_small_mod(n as nat, a as nat);
    }
    reveal_with_fuel(crate::layout::is_power_of_two, 18);
    assert(crate::layout::is_power_of_two(65536));
    lemma_powers_divide(a, 65536);
    lemma_divides_trans(b as int, 65536, a);
    lemma_divides_trans(crate::slab::slots_start(c), m, a);
    let i = crate::slab::slot_index(b as int, c, p as int);
    vstd::arithmetic::div_mod::lemma_mod_multiples_basic(i, m);
    lemma_divides_trans(i * m, m, a);
    vstd::arithmetic::div_mod::lemma_add_mod_noop(b as int, crate::slab::slots_start(c), a);
    vstd::arithmetic::div_mod::lemma_add_mod_noop(b + crate::slab::slots_start(c), i * m, a);
    vstd::arithmetic::div_mod::lemma_small_mod(0, a as nat);
}

/// The id that a new heap gets is that of no other heap, on whichever pool, as long as all get
/// their ids from the same place: the ids of the heaps on a pool are below what comes next.
pub proof fn law_heap_ids_unique(other: HeapView, v: PoolView, ids: HeapIds)
    requires
        other.wf(v),
        v.id_bound <= ids.next(),
    ensures
        other.id != HeapView::fresh(ids.next()).id,
{
}

/// A block that has been freed is the next one to be handed out for its class, unless it went
/// back to the active slab while other freed blocks wait in the cache.
pub proof fn law_freed_block_is_reused(
    s: State,
    p: usize,
    id: usize,
    c: int,
    after: State,
    r: Option<usize>,
)
    requires
        s.wf(id, c),
        s.pool.is_lent(p),
        s.pool.slabs[base_of(p)].class == c,
        s.bin.active != Some(base_of(p)) || s.bin.cache.len() == 0,
        slot_taken(s.dealloced(p, id), after, r, id, c),
    ensures
        r == Some(p),
{
}

/// Freeing a block into the cache and allocating again leaves heap and pool as they were.
pub proof fn law_cache_leaves_no_trace(
    s: State,
    p: usize,
    id: usize,
    c: int,
    after: State,
    r: Option<usize>,
)
    requires
        s.wf(id, c),
        s.pool.is_lent(p),
        s.pool.slabs[base_of(p)].class == c,
        s.bin.active != Some(base_of(p)),
        s.bin.cache.len() < CACHE_CAP,
        slot_taken(s.dealloced(p, id), after, r, id, c),
    ensures
        after == s,
{
    assert(s.bin.cache.push(p).drop_last() =~= s.bin.cache);
    assert(s.pool.cached.insert(p, id).remove(p) =~= s.pool.cached);
}

/// A new slab is taken from the pool only when there is nothing left to use: no slab of the heap
/// of that class has a free slot, and none that has been abandoned waits to be adopted.
pub proof fn law_new_slab_is_last_resort(s: State, id: usize, c: int)
    requires
        s.wf(id, c),
        s.prepared(id, c).bin.active is None,
    ensures
        ({
            let n = s.prepared(id, c);
            &&& n.pool.abandoned[c].len() == 0
            &&& n.bin.partial.len() == 0
            &&& forall|b: usize| #[trigger]
                n.bin.holds(b) ==> n.pool.slabs[b].local.len() == 0 && n.pool.slabs[b].remote.len()
                    == 0
        }),
{
    crate::bin_proof::lemma_nothing_left(s, id, c);
}

/// An allocation changes one bin at most, that of the class that serves the layout; a large one
/// changes no bin, and of the pool the large blocks alone.
pub proof fn law_allocation_touches_one_bin(
    heap: HeapView,
    pool: PoolView,
    heap2: HeapView,
    pool2: PoolView,
    layout: Layout,
    r: Option<usize>,
)
    requires
        allocated(heap, pool, heap2, pool2, layout, r),
        class_of(layout) matches Some(c) ==> 0 <= c < heap.bins.len(),
    ensures
        heap2.id == heap.id,
        class_of(layout) is None ==> heap2.bins == heap.bins,
        class_of(layout) matches Some(c) ==> heap2.bins.len() == heap.bins.len() && forall|d: int|
            0 <= d < heap.bins.len() && d != c ==> #[trigger] heap2.bins[d] == heap.bins[d],
        class_of(layout) matches Some(c) ==> slot_taken(
            (State { bin: heap.bins[c], pool }),
            (State { bin: heap2.bins[c], pool: pool2 }),
            r,
            heap.id,
            c,
        ),
        class_of(layout) is None ==> match r {
            None => pool2 == pool,
            Some(p) => {
                &&& p > 0 && p % layout.align == 0 && p + layout.size <= usize::MAX
                &&& !pool.mem.large.contains_key(p)
                &&& pool2.mem.large == pool.mem.large.insert(p, layout)
                &&& pool2.mem.free == pool.mem.free && pool2.mem.segments == pool.mem.segments
                    && pool2.mem.out == pool.mem.out && pool2.mem.cursor == pool.mem.cursor
                    && pool2.mem.end == pool.mem.end
                &&& pool2.slabs == pool.slabs && pool2.abandoned == pool.abandoned && pool2.cached
                    == pool.cached
            },
        },
{
}

/// Freeing changes one bin at most, that of the class that serves the layout; freeing a large block
/// changes no bin, and of the pool the large blocks alone.
pub proof fn law_free_touches_one_bin(
    heap: HeapView,
    pool: PoolView,
    heap2: HeapView,
    pool2: PoolView,
    p: usize,
    layout: Layout,
)
    requires
        deallocated(heap, pool, heap2, pool2, p, layout),
        class_of(layout) matches Some(c) ==> 0 <= c < heap.bins.len(),
    ensures
        heap2.id == heap.id,
        class_of(layout) is None ==> {
            &&& heap2.bins == heap.bins
            &&& pool2.mem.large == pool.mem.large.remove(p)
            &&& pool2.mem.free == pool.mem.free && pool2.mem.segments == pool.mem.segments
                && pool2.mem.out == pool.mem.out && pool2.mem.cursor == pool.mem.cursor
                && pool2.mem.end == pool.mem.end
            &&& pool2.slabs == pool.slabs && pool2.abandoned == pool.abandoned && pool2.cached
                == pool.cached
        },
        class_of(layout) matches Some(c) ==> {
            let s = State { bin: heap.bins[c], pool };
            &&& heap2.bins.len() == heap.bins.len()
            &&& forall|d: int|
                0 <= d < heap.bins.len() && d != c ==> #[trigger] heap2.bins[d] == heap.bins[d]
            &&& heap2.bins[c] == s.dealloced(p, heap.id).bin
            &&& pool2 == s.dealloced(p, heap.id).pool
        },
{
}

/// A block is in use for a layout where it is a slot that is in use with the class that serves the
/// layout, or the large block that was handed out for that very layout.
pub proof fn law_in_use_is_by_class_or_layout(pool: PoolView, p: usize, layout: Layout)
    ensures
        class_of(layout) is None ==> (in_use(pool, p, layout) <==> pool.mem.large.contains_key(p)
            && pool.mem.large[p] == layout),
        class_of(layout) matches Some(c) ==> (in_use(pool, p, layout) <==> pool.is_lent(p)
            && pool.slabs[base_of(p)].class == c),
{
}

/// A slot that serves a layout is not null, aligned and large enough.
pub proof fn law_serving_slot_fits(p: usize, layout: Layout, c: int)
    requires
        serves(p, layout, c),
    ensures
        p != 0,
        p as int % layout.align as int == 0,
        p + layout.size <= usize::MAX,
        layout.size <= class_bytes(c),
        is_slot(base_of(p), c, p),
{
}

/// A new heap has an empty bin for each class.
pub proof fn law_new_heap_is_empty(id: usize)
    ensures
        HeapView::fresh(id).id == id,
        HeapView::fresh(id).bins.len() == 49,
        forall|c: int|
            0 <= c < 49 ==> {
                let bin = #[trigger] HeapView::fresh(id).bins[c];
                &&& bin.active is None
                &&& bin.full.len() == 0
                &&& bin.partial.len() == 0
                &&& bin.cache.len() == 0
                &&& bin.remote_frees == 0
            },
{
}

/// A heap that is dropped gives up its bins one after the other, all of them, and the counts of
/// what others have freed in them add up.
pub proof fn law_heap_gives_up_every_bin(h: HeapView, pool: PoolView, c: int, n: u64)
    requires
        0 <= c < 49,
    ensures
        h.dropped_from(pool, c) == h.dropped_from(
            (State { bin: h.bins[c], pool }).closed_down(h.id),
            c + 1,
        ),
        h.dropped_from(pool, 49) == pool,
        h.dropped_count(pool, c, n) == h.dropped_count(
            (State { bin: h.bins[c], pool }).closed_down(h.id),
            c + 1,
            ((n + (State { bin: h.bins[c], pool }).closed_count(h.id)) % 0x1_0000_0000_0000_0000)
                as u64,
        ),
        h.dropped_count(pool, 49, n) == n,
{
    let k = h.at(pool, c).closed_count(h.id);
    crate::segment::law_counts_wrap(n, k);
}

/// What a heap has recovered from others is the sum over its bins.
pub proof fn law_recovered_is_the_sum_over_bins(h: HeapView, c: int)
    requires
        0 <= c,
    ensures
        h.received(0) == 0,
        h.received(c + 1) == (h.received(c) + h.bins[c].remote_frees) % 0x1_0000_0000_0000_0000,
{
    crate::segment::law_counts_wrap(h.received(c), h.bins[c].remote_frees);
}

/// Draining a heap drains its bins one after the other, all of them.
pub proof fn law_heap_drains_every_bin(h: HeapView, pool: PoolView, c: int)
    requires
        0 <= c < 49,
        h.bins.len() == 49,
    ensures
        ({
            let s = (State { bin: h.bins[c], pool }).drained_all(h.id);
            let next = HeapView { id: h.id, bins: h.bins.update(c, s.bin) };
            h.drained_from(pool, c) == next.drained_from(s.pool, c + 1)
        }),
        h.drained_from(pool, 49) == (h, pool),
{
}

/// Heaps that are said to be kept stay well formed.
pub proof fn law_other_heaps_are_kept(old: PoolView, new: PoolView, id: usize, other: HeapView)
    requires
        others_kept(old, new, id),
        other.id != id,
        other.wf(old),
    ensures
        other.wf(new),
{
}

} // verus!
