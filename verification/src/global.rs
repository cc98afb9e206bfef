//! The allocator as a whole: one pool, and a heap for each thread.
//!
//! Each thread keeps a [`HeapSlot`]: it is unset until the thread first allocates, then holds the
//! thread's heap, and is destroyed when the thread exits. A thread whose heap is gone can still
//! free blocks, but not allocate.

use vstd::prelude::*;

use crate::bin_state::disposed;
use crate::bin_state::owned;
use crate::bin_state::slab_started;
use crate::heap::allocated;
use crate::heap::deallocated;
use crate::heap::in_use;
use crate::heap::others_kept;
use crate::heap::serves;
use crate::heap::Heap;
use crate::heap::HeapIds;
use crate::heap::HeapView;
use crate::layout::Layout;
use crate::pool::needs_segment;
use crate::pool::taken_up;
use crate::pool::PagePool;
use crate::pool::PoolView;
use crate::segment::segment_layout;
use crate::size_class::class_index;
use crate::size_class::class_of;
use crate::size_class::NUM_CLASSES;
use crate::slab::base_of;
use crate::sys::fits;
use crate::sys::PageAllocator;

verus! {

/// A thread's heap.
pub enum HeapSlot {
    /// The thread has not allocated yet.
    Unset,
    /// The thread's heap.
    Live(Heap),
    /// The thread is exiting and its heap is gone.
    Destroyed,
}

impl HeapSlot {
    /// The heap, if there is one.
    pub open spec fn heap(&self) -> Option<HeapView> {
        match self {
            HeapSlot::Live(h) => Some(h@),
            _ => None,
        }
    }

    /// The heap, if there is one, is well formed.
    pub open spec fn wf<P: PageAllocator>(&self, pool: &PagePool<P>) -> bool {
        &&& pool.wf()
        &&& self matches HeapSlot::Live(h) ==> h.wf(pool)
    }
}

/// Heap and pool that a request works on: the heap of the thread, or a new one with the id `next`
/// where the thread has none yet and there is memory to keep it in. `None` where the thread can
/// have no heap.
pub open spec fn entered(slot: HeapSlot, pool: PoolView, next: usize, memory: bool) -> Option<(
    HeapView,
    PoolView,
)> {
    match slot {
        HeapSlot::Live(h) => Some((h@, pool)),
        HeapSlot::Unset => if memory {
            Some(
                (
                    HeapView::fresh(next),
                    PoolView { id_bound: (next + 1) as usize, ..pool },
                ),
            )
        } else {
            None
        },
        HeapSlot::Destroyed => None,
    }
}

/// The id that the next heap gets after a request.
pub open spec fn next_after(slot: HeapSlot, next: usize, memory: bool) -> usize {
    if slot is Unset && memory {
        (next + 1) as usize
    } else {
        next
    }
}

/// A heap can be made: there is an id left that no heap on the pool has.
pub open spec fn has_id(pool: PoolView, ids: HeapIds) -> bool {
    pool.id_bound <= ids.next() < usize::MAX
}

/// Other heaps than the one in the slot are as well formed as they were.
pub open spec fn strangers_kept(slot: HeapSlot, old: PoolView, new: PoolView) -> bool {
    forall|other: HeapView|
        (slot.heap() matches Some(h) ==> other.id != h.id) && #[trigger] other.wf(old)
            ==> other.wf(new)
}

/// The block that a request for `layout` returns, as an option: zero stands for none.
pub open spec fn non_null(p: usize) -> Option<usize> {
    if p == 0 {
        None
    } else {
        Some(p)
    }
}

/// The allocator.
pub struct ClMalloc<P: PageAllocator> {
    pub pool: PagePool<P>,
}

impl<P: PageAllocator> ClMalloc<P> {
    /// An allocator without memory, on top of a page allocator.
    pub fn new(page_alloc: P) -> (r: ClMalloc<P>)
        ensures
            r.pool.wf(),
            r.pool@ == PoolView::fresh(),
            r.pool.foreign() == page_alloc.pages(),
            r.pool.source() == page_alloc,
    {
        ClMalloc { pool: PagePool::new(page_alloc) }
    }

    /// Makes sure that a thread that can have a heap has one. `memory` says whether there is
    /// memory to keep a new heap in. Returns whether the thread has a heap.
    fn get_heap(&mut self, slot: &mut HeapSlot, ids: &mut HeapIds, memory: bool) -> (r: bool)
        requires
            old(slot).wf(&old(self).pool),
            *old(slot) is Unset && memory ==> has_id(old(self).pool@, *old(ids)),
        ensures
            final(slot).wf(&final(self).pool),
            r == (entered(*old(slot), old(self).pool@, old(ids).next(), memory) is Some),
            r ==> *final(slot) is Live && entered(*old(slot), old(self).pool@, old(ids).next(), memory) == Some(
                (final(slot).heap()->0, final(self).pool@),
            ),
            !r ==> *final(slot) == *old(slot) && final(self).pool@ == old(self).pool@,
            strangers_kept(*old(slot), old(self).pool@, final(self).pool@),
            final(self).pool@.lent() == old(self).pool@.lent(),
            final(self).pool@.slabs == old(self).pool@.slabs,
            final(self).pool@.mem == old(self).pool@.mem,
            final(self).pool.foreign() == old(self).pool.foreign(),
            final(self).pool.source() == old(self).pool.source(),
            *old(slot) is Live ==> *final(slot) == *old(slot) && *final(self) == *old(self),
            r == (*old(slot) is Live || (*old(slot) is Unset && memory)),
            *old(slot) is Unset && r ==> final(slot).heap()->0.id == old(ids).next(),
            final(ids).next() == next_after(*old(slot), old(ids).next(), memory),
    {
        match slot {
            HeapSlot::Live(_) => true,
            HeapSlot::Destroyed => false,
            HeapSlot::Unset => {
                if memory {
                    *slot = HeapSlot::Live(self.init_heap(ids));
                    true
                } else {
                    false
                }
            },
        }
    }

    /// Makes a heap for a thread that has none.
    fn init_heap(&mut self, ids: &mut HeapIds) -> (r: Heap)
        requires
            old(self).pool.wf(),
            has_id(old(self).pool@, *old(ids)),
        ensures
            r.wf(&final(self).pool),
            r@ == HeapView::fresh(old(ids).next()),
            final(ids).next() == old(ids).next() + 1,
            final(self).pool@ == (PoolView { id_bound: final(ids).next(), ..old(self).pool@ }),
            final(self).pool@.lent() == old(self).pool@.lent(),
            final(self).pool.foreign() == old(self).pool.foreign(),
            final(self).pool.source() == old(self).pool.source(),
            forall|other: HeapView| #[trigger]
                other.wf(old(self).pool@) ==> other.wf(final(self).pool@),
    {
        let r = Heap::new(&mut self.pool, ids);
        proof {
            assert(self.pool@.lent() =~= old(self).pool@.lent());
        }
        r
    }

    /// Allocates a block for `layout`; zero stands for failure.
    ///
    /// A request for no bytes gets the alignment as address, without touching heap or pool. A
    /// thread that has no heap and can get none gets nothing.
    ///
    /// `memory` says whether there is memory to keep a heap in for a thread that has none yet; such
    /// a heap gets its id from `ids`.
    pub fn allocate(
        &mut self,
        slot: &mut HeapSlot,
        ids: &mut HeapIds,
        memory: bool,
        layout: Layout,
    ) -> (r: usize)
        requires
            old(slot).wf(&old(self).pool),
            *old(slot) is Unset && memory ==> has_id(old(self).pool@, *old(ids)),
            layout.wf(),
        ensures
            final(slot).wf(&final(self).pool),
            final(ids).next() == if layout.size == 0 {
                old(ids).next()
            } else {
                next_after(*old(slot), old(ids).next(), memory)
            },
            layout.size == 0 ==> r == layout.align && *final(slot) == *old(slot) && *final(self)
                == *old(self),
            layout.size > 0 ==> match entered(*old(slot), old(self).pool@, old(ids).next(), memory) {
                None => r == 0 && *final(slot) == *old(slot) && final(self).pool@ == old(
                    self).pool@,
                Some((h, v)) => *final(slot) is Live && allocated(
                    h,
                    v,
                    final(slot).heap()->0,
                    final(self).pool@,
                    layout,
                    non_null(r),
                ),
            },
            layout.size > 0 && class_of(layout) is None && entered(
                *old(slot),
                old(self).pool@,
                old(ids).next(),
                memory,
            ) is Some ==> exists|source: &mut P| #[trigger]
                call_ensures(P::allocate, (source, layout), non_null(r)) && *source == old(
                    self).pool.source() && *final(source) == final(self).pool.source(),
            layout.size > 0 ==> match (entered(*old(slot), old(self).pool@, old(ids).next(), memory), class_of(
                layout,
            )) {
                (Some((h, v)), Some(c)) => {
                    let s = h.at(v, c).prepared(h.id, c);
                    h.bins[c].cache.len() == 0 && s.bin.active is None && needs_segment(s.pool.mem)
                        ==> exists|source: &mut P, given: Option<usize>| #[trigger]
                        call_ensures(P::allocate, (source, segment_layout()), given) && (
                        s.pool.mem.segments.len() == v.mem.segments.len() ==> *source == old(
                            self).pool.source()) && source.pages() == old(
                            self).pool.foreign().union_prefer_right(s.pool.mem.pages())
                            && slab_started(
                            s,
                            final(slot).heap()->0.at(final(self).pool@, c),
                            taken_up(s.pool.mem, given),
                            non_null(r),
                            h.id,
                            c,
                        ) && (given is None || r != 0 ==> *final(source) == final(
                            self).pool.source())
                },
                _ => true,
            },
            layout.size > 0 ==> match *old(slot) {
                HeapSlot::Live(h) => *final(slot) is Live && final(slot)->0@.id == h@.id && allocated(
                    h@,
                    old(self).pool@,
                    final(slot)->0@,
                    final(self).pool@,
                    layout,
                    non_null(r),
                ),
                HeapSlot::Unset => (*final(slot) is Live <==> memory) && (memory ==> final(
                    slot)->0@.id == old(ids).next()) && (!memory ==> r == 0 && *final(slot) == *old(
                    slot) && final(self).pool@ == old(self).pool@),
                HeapSlot::Destroyed => r == 0 && *final(slot) == *old(slot) && final(self).pool@
                    == old(self).pool@,
            },
            r == 0 || layout.size == 0 ==> final(self).pool@.lent() == old(self).pool@.lent()
                && final(self).pool@.mem.large == old(self).pool@.mem.large,
            r != 0 && layout.size > 0 ==> !in_use(old(self).pool@, r, layout) && in_use(
                final(self).pool@,
                r,
                layout,
            ),
            r != 0 && layout.size > 0 ==> match class_of(layout) {
                None => fits(r, layout) && final(self).pool@.lent() == old(self).pool@.lent()
                    && final(self).pool@.mem.large == old(self).pool@.mem.large.insert(r, layout),
                Some(c) => serves(r, layout, c) && final(self).pool@.lent() == old(
                    self).pool@.lent().insert(r, c) && final(self).pool@.mem.large == old(
                    self).pool@.mem.large,
            },
            strangers_kept(*old(slot), old(self).pool@, final(self).pool@),
            final(self).pool.foreign() == old(self).pool.foreign(),
    {
        if layout.size() == 0 {
            return layout.align();
        }
        if !self.get_heap(slot, ids, memory) {
            return 0;
        }
        let ghost v = self.pool@;
        let ghost h = slot.heap()->0;
        match slot {
            HeapSlot::Live(heap) => {
                let r = heap.allocate(&mut self.pool, layout);
                proof {
                    lemma_strangers(*old(slot), old(self).pool@, v, self.pool@, h.id);
                    if r is Some {
                        assert(in_use(old(self).pool@, r->0, layout) == in_use(v, r->0, layout));
                    }
                }
                match r {
                    Some(p) => p,
                    None => 0,
                }
            },
            _ => 0,
        }
    }

    /// Frees the block at `ptr`. Where the thread can have no heap, the block goes back to its
    /// slab's remote free list, or a large block to the page allocator.
    pub fn dealloc(
        &mut self,
        slot: &mut HeapSlot,
        ids: &mut HeapIds,
        memory: bool,
        ptr: usize,
        layout: Layout,
    )
        requires
            old(slot).wf(&old(self).pool),
            *old(slot) is Unset && memory ==> has_id(old(self).pool@, *old(ids)),
            layout.wf(),
            layout.size > 0 ==> in_use(old(self).pool@, ptr, layout),
        ensures
            final(slot).wf(&final(self).pool),
            final(ids).next() == if layout.size == 0 {
                old(ids).next()
            } else {
                next_after(*old(slot), old(ids).next(), memory)
            },
            layout.size == 0 ==> *final(slot) == *old(slot) && *final(self) == *old(self),
            layout.size > 0 ==> match entered(*old(slot), old(self).pool@, old(ids).next(), memory) {
                Some((h, v)) => *final(slot) is Live && deallocated(
                    h,
                    v,
                    final(slot).heap()->0,
                    final(self).pool@,
                    ptr,
                    layout,
                ),
                None => *final(slot) == *old(slot) && final(self).pool@ == (match class_of(layout) {
                    Some(c) => old(self).pool@.with_slab(
                        base_of(ptr),
                        old(self).pool@.slabs[base_of(ptr)].chained_remote(seq![ptr]),
                    ),
                    None => old(self).pool@.with_mem(old(self).pool@.mem.without_large(ptr)),
                }),
            },
            layout.size > 0 ==> match *old(slot) {
                HeapSlot::Live(h) => *final(slot) is Live && final(slot)->0@.id == h@.id
                    && deallocated(
                    h@,
                    old(self).pool@,
                    final(slot)->0@,
                    final(self).pool@,
                    ptr,
                    layout,
                ),
                HeapSlot::Unset => (*final(slot) is Live <==> memory) && (memory ==> final(
                    slot)->0@.id == old(ids).next()) && (!memory ==> *final(slot) == *old(slot)),
                HeapSlot::Destroyed => *final(slot) == *old(slot),
            },
            layout.size > 0 ==> match class_of(layout) {
                None => final(self).pool@.lent() == old(self).pool@.lent() && final(
                    self).pool@.mem.large == old(self).pool@.mem.large.remove(ptr),
                Some(c) => final(self).pool@.lent() == old(self).pool@.lent().remove(ptr) && final(
                    self).pool@.mem.large == old(self).pool@.mem.large,
            },
            strangers_kept(*old(slot), old(self).pool@, final(self).pool@),
            final(self).pool.foreign() == old(self).pool.foreign(),
    {
        if layout.size() == 0 {
            return;
        }
        let ghost v0 = self.pool@;
        if self.get_heap(slot, ids, memory) {
            let ghost v = self.pool@;
            let ghost h = slot.heap()->0;
            proof {
                assert(in_use(v, ptr, layout));
            }
            match slot {
                HeapSlot::Live(heap) => {
                    heap.dealloc(&mut self.pool, ptr, layout);
                    proof {
                        lemma_strangers(*old(slot), v0, v, self.pool@, h.id);
                    }
                },
                _ => {},
            }
            return;
        }
        match class_index(layout) {
            Some(idx) => {
                proof {
                    crate::heap::lemma_class_index(layout, idx as int);
                    assert(v0.is_lent(ptr));
                }
                self.pool.dealloc_remote(ptr);
                proof {
                    assert forall|other: HeapView| #[trigger] other.wf(v0) implies other.wf(
                        self.pool@,
                    ) by {
                        crate::heap::lemma_remote_free(other, v0, ptr);
                    }
                }
            },
            None => {
                self.pool.dealloc_large(ptr, layout);
                proof {
                    assert(self.pool@.lent() =~= v0.lent());
                    assert forall|other: HeapView| #[trigger] other.wf(v0) implies other.wf(
                        self.pool@,
                    ) by {
                        crate::heap::lemma_same_bins(other, v0, self.pool@);
                    }
                }
            },
        }
    }

    /// Ends the thread's heap. From now on the thread has none and gets none. The number is the
    /// count of slots that others have freed and that the heap has recovered, up to its end.
    pub fn heap_destructor(&mut self, slot: HeapSlot) -> (r: (HeapSlot, u64))
        requires
            slot.wf(&old(self).pool),
        ensures
            final(self).pool.wf(),
            r.0 is Destroyed,
            r.1 == (match slot {
                HeapSlot::Live(h) => h@.dropped_count(old(self).pool@, 0, 0),
                _ => 0,
            }),
            final(self).pool@ == (match slot {
                HeapSlot::Live(h) => h@.dropped_from(old(self).pool@, 0),
                _ => old(self).pool@,
            }),
            final(self).pool@.lent() == old(self).pool@.lent(),
            final(self).pool@.mem.large == old(self).pool@.mem.large,
            slot.heap() matches Some(h) ==> forall|c: int, b: usize|
                #![trigger owned(old(self).pool@, h.id, c, b)]
                0 <= c < NUM_CLASSES && owned(old(self).pool@, h.id, c, b) ==> disposed(
                    final(self).pool@,
                    b,
                ),
            strangers_kept(slot, old(self).pool@, final(self).pool@),
            final(self).pool.foreign() == old(self).pool.foreign(),
    {
        let count: u64 = match slot {
            HeapSlot::Live(heap) => heap.drop(&mut self.pool),
            _ => 0,
        };
        (HeapSlot::Destroyed, count)
    }
}

/// Other heaps are kept by entering the allocator and then by what the heap does.
proof fn lemma_strangers(slot: HeapSlot, a: PoolView, v: PoolView, n: PoolView, id: usize)
    requires
        strangers_kept(slot, a, v),
        others_kept(v, n, id),
        slot.heap() matches Some(h) ==> h.id == id,
        slot.heap() is None ==> id >= a.id_bound,
    ensures
        strangers_kept(slot, a, n),
{
    assert forall|other: HeapView|
        (slot.heap() matches Some(h) ==> other.id != h.id) && #[trigger] other.wf(
            a,
        ) implies other.wf(n) by {
        assert(other.wf(v));
    }
}

/// A thread that has a heap is served by it, whatever the pool holds, and whether or not there is
/// memory for another heap.
pub proof fn law_live_slot_is_served(h: Heap, pool: PoolView, next: usize, memory: bool)
    ensures
        entered(HeapSlot::Live(h), pool, next, memory) == Some((h@, pool)),
        next_after(HeapSlot::Live(h), next, memory) == next,
{
}

/// A thread that has no heap yet gets an empty one with the next id where there is memory for it,
/// and none where there is not; the pool only notes the id. A thread whose heap is gone gets none.
pub proof fn law_new_slot_gets_an_empty_heap(pool: PoolView, next: usize)
    requires
        next < usize::MAX,
    ensures
        ({
            let e = entered(HeapSlot::Unset, pool, next, true);
            &&& e is Some
            &&& (e->0).0.id == next
            &&& (e->0).0.bins.len() == 49
            &&& forall|c: int|
                0 <= c < 49 ==> (#[trigger] (e->0).0.bins[c]).active is None && (
                e->0).0.bins[c].full.len() == 0 && (e->0).0.bins[c].partial.len() == 0 && (
                e->0).0.bins[c].cache.len() == 0 && (e->0).0.bins[c].remote_frees == 0
            &&& (e->0).1.id_bound == next + 1
            &&& (e->0).1.mem == pool.mem
            &&& (e->0).1.slabs == pool.slabs
            &&& (e->0).1.abandoned == pool.abandoned
            &&& (e->0).1.cached == pool.cached
            &&& (e->0).1.abandon_count == pool.abandon_count
            &&& (e->0).1.adopt_count == pool.adopt_count
        }),
        next_after(HeapSlot::Unset, next, true) == next + 1,
        entered(HeapSlot::Unset, pool, next, false) is None,
        next_after(HeapSlot::Unset, next, false) == next,
        forall|memory: bool| #[trigger]
            entered(HeapSlot::Destroyed, pool, next, memory) is None && next_after(
                HeapSlot::Destroyed,
                next,
                memory,
            ) == next,
{
}

/// Zero stands for no block, and every other address for itself.
pub proof fn law_zero_stands_for_none(p: usize)
    ensures
        non_null(p) is None <==> p == 0,
        p != 0 ==> non_null(p) == Some(p),
{
}

/// There is an id for another heap as long as the next one is above those of the pool and not the
/// last number there is.
pub proof fn law_id_is_left(pool: PoolView, ids: HeapIds)
    ensures
        has_id(pool, ids) <==> pool.id_bound <= ids.next() && ids.next() < usize::MAX,
{
}

/// Heaps of other threads stay well formed.
pub proof fn law_other_threads_are_kept(
    slot: HeapSlot,
    old: PoolView,
    new: PoolView,
    other: HeapView,
)
    requires
        strangers_kept(slot, old, new),
        slot matches HeapSlot::Live(h) ==> other.id != h@.id,
        other.wf(old),
    ensures
        other.wf(new),
{
}

/// A thread with a heap gets a block wherever its heap or the pool has something to serve it with.
pub proof fn law_live_slot_gets_a_block(
    h: Heap,
    pool: PoolView,
    heap2: HeapView,
    pool2: PoolView,
    layout: Layout,
    r: usize,
    c: int,
)
    requires
        h@.wf(pool),
        layout.wf(),
        class_of(layout) == Some(c),
        0 <= c < 49,
        allocated(h@, pool, heap2, pool2, layout, non_null(r)),
    ensures
        h@.bins[c].cache.len() > 0 ==> r != 0 && r == h@.bins[c].cache.last(),
        h@.bins[c].active matches Some(b) ==> (pool.slabs[b].local.len() > 0
            || pool.slabs[b].remote.len() > 0 ==> r != 0),
        h@.bins[c].partial.len() > 0 ==> r != 0,
        forall|b: usize, p: usize|
            #![trigger h@.bins[c].full.contains(b), pool.slabs[b].is_out(b, p)]
            h@.bins[c].full.contains(b) && pool.slabs[b].remote.len() > 0 && pool.slabs[b].is_out(
                b,
                p,
            ) ==> r != 0,
        forall|b: usize, p: usize|
            #![trigger pool.abandoned[c].contains(b), pool.slabs[b].is_out(b, p)]
            pool.abandoned[c].contains(b) && pool.slabs[b].local.len()
                + pool.slabs[b].remote.len() > 0 && pool.slabs[b].is_out(b, p) ==> r != 0,
        pool.mem.cursor < pool.mem.end ==> r != 0,
        pool.mem.free.len() > 0 && pool2.mem.segments.len() == pool.mem.segments.len() ==> r != 0,
{
    let s = h@.at(pool, c);
    let after = heap2.at(pool2, c);
    assert(h@.bins[c].wf(pool, h@.id, c));
    crate::bin_laws::law_request_is_served(s, after, non_null(r), h@.id, c);
    assert forall|b: usize, p: usize|
        #![trigger h@.bins[c].full.contains(b), pool.slabs[b].is_out(b, p)]
        h@.bins[c].full.contains(b) && pool.slabs[b].remote.len() > 0 && pool.slabs[b].is_out(
            b,
            p,
        ) implies r != 0 by {
        let i = choose|i: int| 0 <= i < s.bin.full.len() && s.bin.full[i] == b;
        assert(s.pool.slabs[s.bin.full[i]].is_out(s.bin.full[i], p));
    }
}

/// Where a request needs a new segment and the page allocator gives one that the pool has room for,
/// the request is served from it.
pub proof fn law_given_segment_serves(
    s: crate::bin_state::State,
    after: crate::bin_state::State,
    given: Option<usize>,
    r: usize,
    id: usize,
    c: int,
)
    requires
        needs_segment(s.pool.mem),
        slab_started(s, after, taken_up(s.pool.mem, given), non_null(r), id, c),
    ensures
        r != 0 <==> given is Some && s.pool.mem.segments.len() < 4096,
        r == 0 ==> after == s,
{
}

} // verus!
