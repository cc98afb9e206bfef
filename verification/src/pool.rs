//! Global page pool: manages OS memory and distributes slabs to heaps.
//!
//! Slabs are carved from segments of 2 MiB. Slabs that come back are kept on a free list; a
//! segment whose slabs have all come back goes back to the page allocator. Slabs that a heap
//! left behind with blocks still in use wait on an abandoned list, one per size class, until
//! another heap adopts them.
//!
//! This is a cold path: a heap comes here only when it needs a slab or returns one.

use vstd::prelude::*;

use crate::bin_state::without_all;
use crate::layout::Layout;
use crate::segment::ahead;
use crate::segment::in_segment;
use crate::segment::outstanding;
use crate::segment::raise;
use crate::segment::raised;
use crate::segment::segment_layout;
use crate::segment::MemView;
use crate::segment::MAX_SEGMENTS;
use crate::segment::SEGMENT_SIZE;
use crate::segment::SLABS_PER_SEGMENT;
use crate::size_class::class_bytes;
use crate::size_class::NUM_CLASSES;
use crate::slab::base_of;
use crate::slab::slab_place;
use crate::slab::Slab;
use crate::slab::SlabRef;
use crate::slab::SlabView;
use crate::slab::SLAB_SIZE;
use crate::sys::apart;
use crate::sys::fits;
use crate::sys::PageAllocator;
use crate::table::SlabTable;

verus! {

/// State of the pool.
#[verifier::ext_equal]
pub struct PoolView {
    /// Segments, slabs and large blocks.
    pub mem: MemView,
    /// Contents of the initialised slabs.
    pub slabs: Map<usize, SlabView>,
    /// For each size class the abandoned slabs, the next one to adopt last.
    pub abandoned: Seq<Seq<usize>>,
    /// Freed slots that are in a heap's cache, with the id of that heap.
    pub cached: Map<usize, usize>,
    /// The ids of the heaps that have been made on the pool are below this.
    pub id_bound: usize,
    /// For each size class the count of slabs that have been abandoned.
    pub abandon_count: Seq<u64>,
    /// For each size class the count of abandoned slabs that have been adopted.
    pub adopt_count: Seq<u64>,
}

impl PoolView {
    /// A pool that has just been made.
    pub open spec fn fresh() -> PoolView {
        PoolView {
            mem: MemView::fresh(),
            slabs: Map::empty(),
            abandoned: Seq::new(NUM_CLASSES as nat, |c: int| Seq::<usize>::empty()),
            cached: Map::empty(),
            id_bound: 1,
            abandon_count: Seq::new(NUM_CLASSES as nat, |c: int| 0),
            adopt_count: Seq::new(NUM_CLASSES as nat, |c: int| 0),
        }
    }

    /// Slab `b` waits to be adopted.
    pub open spec fn is_abandoned(self, b: usize) -> bool {
        self.abandoned[self.slabs[b].class].contains(b)
    }

    /// Initialised slabs are out and well formed; abandoned slabs are initialised and of the
    /// class they wait for; cached slots are slots that no free list holds.
    pub open spec fn wf(self) -> bool {
        &&& self.mem.wf()
        &&& self.id_bound > 0
        &&& forall|b: usize| #[trigger]
            self.slabs.contains_key(b) ==> self.mem.out.contains(b) && self.slabs[b].wf(b)
                && self.slabs[b].heap_id < self.id_bound
        &&& self.abandoned.len() == NUM_CLASSES
        &&& self.abandon_count.len() == NUM_CLASSES
        &&& self.adopt_count.len() == NUM_CLASSES
        &&& forall|c: int|
            0 <= c < NUM_CLASSES ==> (#[trigger] self.abandoned[c]).no_duplicates()
        &&& forall|c: int, b: usize|
            #![trigger self.abandoned[c].contains(b)]
            0 <= c < NUM_CLASSES && self.abandoned[c].contains(b) ==> self.slabs.contains_key(b)
                && self.slabs[b].class == c
        &&& forall|p: usize| #[trigger]
            self.cached.contains_key(p) ==> self.slabs.contains_key(base_of(p))
                && self.slabs[base_of(p)].is_out(base_of(p), p) && self.cached[p] < self.id_bound
    }

    /// The slabs that wait to be adopted are those that have been abandoned and not adopted since,
    /// and the segments those that the pool has got and that have not gone back.
    pub open spec fn counted(self) -> bool {
        &&& self.mem.counted()
        &&& forall|c: int|
            0 <= c < NUM_CLASSES ==> (#[trigger] self.abandoned[c]).len() == ahead(
                self.abandon_count[c],
                self.adopt_count[c],
            )
    }

    /// The slot at `p` is in use: it has been handed out and not been freed since.
    pub open spec fn is_lent(self, p: usize) -> bool {
        &&& self.slabs.contains_key(base_of(p))
        &&& self.slabs[base_of(p)].is_out(base_of(p), p)
        &&& !self.cached.contains_key(p)
    }

    /// The slots that are in use, each with its size class.
    pub open spec fn lent(self) -> Map<usize, int> {
        Map::new(|p: usize| self.is_lent(p), |p: usize| self.slabs[base_of(p)].class)
    }

    /// Nothing refers to slab `b` any more: it is not abandoned, and no cache holds a slot of it.
    pub open spec fn is_unused(self, b: usize) -> bool {
        self.slabs.contains_key(b) ==> !self.is_abandoned(b) && forall|p: usize| #[trigger]
            self.cached.contains_key(p) ==> base_of(p) != b
    }

    /// The pool after slab `b` has come back.
    pub open spec fn freed(self, b: usize) -> PoolView {
        PoolView { mem: self.mem.freed(b), slabs: self.slabs.remove(b), ..self }
    }

    /// The pool with other contents of slab `b`.
    pub open spec fn with_slab(self, b: usize, s: SlabView) -> PoolView {
        PoolView { slabs: self.slabs.insert(b, s), ..self }
    }

    /// The pool after slab `b` has been abandoned.
    pub open spec fn orphaned(self, b: usize) -> PoolView {
        let c = self.slabs[b].class;
        PoolView {
            abandoned: self.abandoned.update(c, self.abandoned[c].push(b)),
            abandon_count: self.abandon_count.update(c, raised(self.abandon_count[c])),
            ..self
        }
    }

    /// The pool after the last slab that was abandoned for class `c` has been taken.
    pub open spec fn adopted(self, c: int) -> PoolView {
        PoolView {
            abandoned: self.abandoned.update(c, self.abandoned[c].drop_last()),
            adopt_count: self.adopt_count.update(c, raised(self.adopt_count[c])),
            ..self
        }
    }

    /// The pool after slot `p` has gone into the cache of heap `id`.
    pub open spec fn with_cached(self, p: usize, id: usize) -> PoolView {
        PoolView { cached: self.cached.insert(p, id), ..self }
    }

    /// The pool after slot `p` has left the cache it was in.
    pub open spec fn without_cached(self, p: usize) -> PoolView {
        PoolView { cached: self.cached.remove(p), ..self }
    }

    /// The pool with other memory.
    pub open spec fn with_mem(self, mem: MemView) -> PoolView {
        PoolView { mem, ..self }
    }
}

/// What handing out a slab does: `after` is `before` without the slab `r`, which comes from the
/// free list, else from the current segment, else from a new segment; without the last there is
/// none.
pub open spec fn slab_granted(before: MemView, after: MemView, r: Option<usize>) -> bool {
    if before.free.len() > 0 {
        r == Some(before.free.last()) && after == before.reused()
    } else if before.cursor < before.end {
        r == Some(before.cursor) && after == before.carved()
    } else {
        match r {
            None => after == before,
            Some(p) => before.segments.len() < MAX_SEGMENTS && fits(p, segment_layout()) && after
                == before.installed(p).carved(),
        }
    }
}

/// A slab can only come from a new segment: none waits on the free list, and the current segment
/// is used up.
pub open spec fn needs_segment(mem: MemView) -> bool {
    mem.free.len() == 0 && mem.cursor >= mem.end
}

/// The segment that is taken up of what the page allocator gave: none where there is no room for
/// another.
pub open spec fn taken_up(mem: MemView, given: Option<usize>) -> Option<usize> {
    if mem.segments.len() < MAX_SEGMENTS {
        given
    } else {
        None
    }
}

/// Segments have at most gone back, and where none has, the page allocator has not been called.
pub open spec fn only_returns<P: PageAllocator>(old: &PagePool<P>, new: &PagePool<P>) -> bool {
    &&& new@.mem.segments.len() <= old@.mem.segments.len()
    &&& new@.mem.segments.len() == old@.mem.segments.len() ==> new.source() == old.source()
}

/// Distributes slabs to heaps.
pub struct PagePool<P: PageAllocator> {
    page_alloc: P,
    free: Vec<usize>,
    segment_cursor: usize,
    segment_end: usize,
    segments: Vec<usize>,
    seg_outstanding: Vec<usize>,
    abandoned: Vec<Vec<usize>>,
    slabs: SlabTable,
    abandon_count: [u64; NUM_CLASSES],
    adopt_count: [u64; NUM_CLASSES],
    segment_mmap_count: u64,
    segment_munmap_count: u64,
    out: Ghost<Set<usize>>,
    large: Ghost<Map<usize, Layout>>,
    cached: Ghost<Map<usize, usize>>,
    id_bound: Ghost<usize>,
    foreign: Ghost<Map<usize, Layout>>,
}

impl<P: PageAllocator> PagePool<P> {
    /// The pool's memory.
    pub closed spec fn mem(&self) -> MemView {
        MemView {
            free: self.free@,
            cursor: self.segment_cursor,
            end: self.segment_end,
            segments: self.segments@,
            out: self.out@,
            large: self.large@,
            segment_mmap_count: self.segment_mmap_count,
            segment_munmap_count: self.segment_munmap_count,
        }
    }

    /// The pool's state.
    pub closed spec fn view(&self) -> PoolView {
        PoolView {
            mem: self.mem(),
            slabs: self.slabs@,
            abandoned: Seq::new(self.abandoned@.len(), |c: int| self.abandoned@[c]@),
            cached: self.cached@,
            id_bound: self.id_bound@,
            abandon_count: self.abandon_count@,
            adopt_count: self.adopt_count@,
        }
    }

    /// The page allocator.
    pub closed spec fn source(&self) -> P {
        self.page_alloc
    }

    /// The regions that are allocated from the page allocator.
    pub closed spec fn pages(&self) -> Map<usize, Layout> {
        self.page_alloc.pages()
    }

    /// The regions that were allocated from the page allocator before the pool had it.
    pub closed spec fn foreign(&self) -> Map<usize, Layout> {
        self.foreign@
    }

    /// Each segment's count is the number of its slabs that are out.
    closed spec fn counts_right(&self) -> bool {
        &&& self.seg_outstanding.len() == self.segments.len()
        &&& forall|i: int|
            0 <= i < self.segments.len() ==> #[trigger] self.seg_outstanding[i] == outstanding(
                self.out@,
                self.segments[i],
            )
    }

    /// The page allocator holds what the pool has, beside what it held before.
    closed spec fn pages_right(&self) -> bool {
        &&& forall|p: usize| #[trigger]
            self.pages().contains_key(p) <==> self.foreign@.contains_key(p)
                || self.mem().pages().contains_key(p)
        &&& forall|p: usize| #[trigger]
            self.mem().pages().contains_key(p) ==> self.pages()[p] == self.mem().pages()[p]
                && !self.foreign@.contains_key(p)
        &&& forall|p: usize| #[trigger]
            self.foreign@.contains_key(p) ==> self.pages()[p] == self.foreign@[p]
    }

    /// The pool's fields agree with each other and with the page allocator.
    pub closed spec fn inv(&self) -> bool {
        &&& self.mem().wf()
        &&& self.slabs.wf()
        &&& self.abandoned.len() == NUM_CLASSES
        &&& self.counts_right()
        &&& self.pages_right()
    }

    /// What holds of the pool between any two calls.
    pub open spec fn wf(&self) -> bool {
        self.inv() && self@.wf()
    }

    /// What the pool has from the page allocator, and what the page allocator held before.
    pub proof fn lemma_pages(&self)
        requires
            self.inv(),
        ensures
            self@.mem.wf(),
            self.pages() =~= self.foreign().union_prefer_right(self@.mem.pages()),
            self.foreign().dom().disjoint(self@.mem.pages().dom()),
            self.source().pages() == self.pages(),
    {
    }

    /// A pool without memory, on top of a page allocator.
    pub fn new(page_alloc: P) -> (r: PagePool<P>)
        ensures
            r.wf(),
            r@ == PoolView::fresh(),
            r.pages() == page_alloc.pages(),
            r.foreign() == page_alloc.pages(),
            r.source() == page_alloc,
    {
        let ghost pages = page_alloc.pages();
        let mut abandoned: Vec<Vec<usize>> = Vec::new();
        while abandoned.len() < NUM_CLASSES
            invariant
                abandoned.len() <= NUM_CLASSES,
                forall|c: int|
                    0 <= c < abandoned.len() ==> (#[trigger] abandoned[c])@ == Seq::<usize>::empty(),
            decreases NUM_CLASSES - abandoned.len(),
        {
            abandoned.push(Vec::new());
        }
        let r = PagePool {
            page_alloc,
            free: Vec::new(),
            segment_cursor: 0,
            segment_end: 0,
            segments: Vec::new(),
            seg_outstanding: Vec::new(),
            abandoned,
            slabs: SlabTable::new(),
            abandon_count: [0;49],
            adopt_count: [0;49],
            segment_mmap_count: 0,
            segment_munmap_count: 0,
            out: Ghost(Set::empty()),
            large: Ghost(Map::empty()),
            cached: Ghost(Map::empty()),
            id_bound: Ghost(1),
            foreign: Ghost(pages),
        };
        proof {
            crate::segment::lemma_fresh();
            assert(r@.abandoned =~= PoolView::fresh().abandoned);
            assert(r@.abandon_count =~= PoolView::fresh().abandon_count);
            assert(r@.adopt_count =~= PoolView::fresh().adopt_count);
            assert(r.mem() =~= MemView::fresh());
            assert forall|c: int, b: usize|
                #![trigger r@.abandoned[c].contains(b)]
                0 <= c < NUM_CLASSES && r@.abandoned[c].contains(b) implies false by {
                assert(r@.abandoned[c] =~= Seq::<usize>::empty());
            }
        }
        r
    }

    /// Counts a slab of segment `i` as handed out.
    fn count_out(&mut self, i: usize)
        requires
            i < old(self).seg_outstanding.len(),
            old(self).seg_outstanding[i as int] < usize::MAX,
        ensures
            *final(self) == (PagePool {
                seg_outstanding: final(self).seg_outstanding,
                ..*old(self)
            }),
            final(self).seg_outstanding@ == old(self).seg_outstanding@.update(
                i as int,
                (old(self).seg_outstanding[i as int] + 1) as usize,
            ),
    {
        let n: usize = self.seg_outstanding[i];
        self.seg_outstanding.set(i, n + 1);
    }

    /// Number of the segment that the slab at `base` lies in.
    fn find_segment(&self, base: usize) -> (i: usize)
        requires
            self.mem().wf(),
            self.out@.contains(base) || self.free@.contains(base),
        ensures
            i < self.segments.len(),
            i == self.mem().segment_of(base),
    {
        proof {
            crate::segment::lemma_segment(self.mem(), base);
        }
        let mut i: usize = 0;
        while i < self.segments.len() && !(self.segments[i] <= base && base - self.segments[i]
            < SEGMENT_SIZE)
            invariant
                i <= self.segments.len(),
                forall|j: int| 0 <= j < i ==> !in_segment(#[trigger] self.segments[j], base),
                0 <= self.mem().segment_of(base) < self.segments.len(),
                in_segment(self.segments[self.mem().segment_of(base)], base),
            ensures
                i <= self.segments.len(),
                forall|j: int| 0 <= j < i ==> !in_segment(#[trigger] self.segments[j], base),
                i < self.segments.len() ==> in_segment(self.segments[i as int], base),
            decreases self.segments.len() - i,
        {
            i = i + 1;
        }
        i
    }

    /// Allocate a `SLAB_SIZE`-aligned region of `SLAB_SIZE` bytes.
    ///
    /// Fast path: pop from the free list.
    /// Slow path: carve from the current segment.
    /// Slowest path: allocate a new segment from the page allocator. It is asked for one segment,
    /// and gets it back where the pool has no room for another.
    pub fn alloc_slab(&mut self) -> (r: Option<usize>)
        requires
            old(self).inv(),
        ensures
            final(self).inv(),
            slab_granted(old(self)@.mem, final(self)@.mem, r),
            !needs_segment(old(self)@.mem) ==> final(self).source() == old(self).source(),
            needs_segment(old(self)@.mem) ==> exists|source: &mut P, given: Option<usize>|
                #[trigger] call_ensures(P::allocate, (source, segment_layout()), given) && *source
                    == old(self).source() && r == taken_up(old(self)@.mem, given) && (given == r
                    ==> *final(source) == final(self).source()) && (given != r ==> exists|
                    back: &mut P,
                | #[trigger]
                    call_ensures(P::dealloc, (back, given->0, segment_layout()), ()) && *back
                        == *final(source) && *final(back) == final(self).source()),
            final(self)@ == old(self)@.with_mem(final(self)@.mem),
            final(self).foreign() == old(self).foreign(),
            r is None ==> final(self).pages() == old(self).pages(),
            r matches Some(b) ==> slab_place(b) && !old(self)@.mem.out.contains(b) && final(
                self)@.mem.out == old(self)@.mem.out.insert(b),
            old(self)@.wf() ==> final(self)@.wf(),
    {
        let ghost m = self.mem();
        if self.free.len() > 0 {
            proof {
                crate::segment::lemma_reused(m);
                assert(self.free@.contains(self.free@.last()));
            }
            let base: usize = self.free[self.free.len() - 1];
            let i: usize = self.find_segment(base);
            proof {
                crate::segment::lemma_outstanding_bound(m, i as int);
            }
            self.count_out(i);
            self.free.pop();
            self.out = Ghost(self.out@.insert(base));
            proof {
                assert(self.mem() =~= m.reused());
                crate::segment::lemma_segment(self.mem(), base);
                self.lemma_counts_after_insert(*old(self), base);
                self.lemma_pages_kept(*old(self));
                lemma_mem_wf(old(self)@, self.mem());
            }
            return Some(base);
        }
        if self.segment_cursor >= self.segment_end {
            proof {
                crate::segment::lemma_segment_layout();
            }
            let segment = self.page_alloc.allocate(
                Layout { size: SEGMENT_SIZE, align: SLAB_SIZE },
            );
            proof {
                assert(self.mem() == m);
                if segment is None {
                    self.lemma_pages_kept(*old(self));
                } else {
                    let s = segment->0;
                    assert forall|q: usize| #[trigger] m.pages().contains_key(q) implies apart(
                        s as int,
                        SEGMENT_SIZE as int,
                        q as int,
                        old(self).pages()[q].size as int,
                    ) && q != s && self.pages().contains_key(q) by {
                        assert(old(self).pages().contains_key(q));
                    }
                    assert forall|q: usize| #[trigger]
                        old(self).foreign@.contains_key(q) implies self.pages().contains_key(q) && q
                        != s by {
                        assert(old(self).pages().contains_key(q));
                    }
                    assert forall|q: usize| #[trigger] self.pages().contains_key(q) implies q == s
                        || self.foreign().contains_key(q) || m.pages().contains_key(q) by {
                        assert(old(self).pages().contains_key(q) || q == s);
                    }
                    if m.segments.len() >= MAX_SEGMENTS {
                        assert(self.pages().remove(s) =~= old(self).pages());
                    }
                }
            }
            self.install_segment(segment)
        } else {
            proof {
                crate::segment::lemma_carved(m);
            }
            Some(self.carve())
        }
    }

    /// Hands out the next slab of the current segment.
    fn carve(&mut self) -> (base: usize)
        requires
            old(self).inv(),
            old(self).mem().cursor < old(self).mem().end,
        ensures
            final(self).inv(),
            base == old(self).mem().cursor,
            slab_place(base),
            !old(self).mem().out.contains(base),
            final(self).mem() == old(self).mem().carved(),
            final(self)@ == old(self)@.with_mem(final(self)@.mem),
            final(self).foreign() == old(self).foreign(),
            final(self).pages() == old(self).pages(),
            final(self).source() == old(self).source(),
    {
        let ghost m = self.mem();
        proof {
            crate::segment::lemma_carved(m);
        }
        let base: usize = self.segment_cursor;
        self.segment_cursor = base + SLAB_SIZE;
        self.out = Ghost(self.out@.insert(base));
        proof {
            assert(self.mem() =~= m.carved());
            lemma_mem_wf(old(self)@, self.mem());
        }
        let i: usize = self.find_segment(base);
        proof {
            crate::segment::lemma_outstanding_bound(m, i as int);
        }
        self.count_out(i);
        proof {
            self.lemma_counts_after_insert(*old(self), base);
            self.lemma_pages_kept(*old(self));
        }
        base
    }

    /// Takes up the segment that the page allocator gave, if it gave one and the pool has room for
    /// it, and hands out its first slab. A segment without room goes back.
    fn install_segment(&mut self, segment: Option<usize>) -> (r: Option<usize>)
        requires
            old(self).mem().wf(),
            old(self).slabs.wf(),
            old(self).abandoned.len() == NUM_CLASSES,
            old(self).counts_right(),
            old(self).mem().cursor >= old(self).mem().end,
            segment is None ==> old(self).pages_right(),
            segment matches Some(s) ==> {
                &&& fits(s, segment_layout())
                &&& old(self).pages().contains_key(s)
                &&& old(self).pages()[s] == segment_layout()
                &&& !old(self).foreign().contains_key(s)
                &&& !old(self).mem().pages().contains_key(s)
                &&& forall|q: usize| #[trigger]
                    old(self).mem().pages().contains_key(q) ==> old(self).pages().contains_key(q)
                        && old(self).pages()[q] == old(self).mem().pages()[q] && !old(
                        self).foreign().contains_key(q) && apart(
                        s as int,
                        SEGMENT_SIZE as int,
                        q as int,
                        old(self).pages()[q].size as int,
                    )
                &&& forall|q: usize| #[trigger]
                    old(self).foreign().contains_key(q) ==> old(self).pages().contains_key(q)
                        && old(self).pages()[q] == old(self).foreign()[q]
                &&& forall|q: usize| #[trigger]
                    old(self).pages().contains_key(q) ==> q == s || old(
                        self).foreign().contains_key(q) || old(self).mem().pages().contains_key(q)
            },
        ensures
            final(self).inv(),
            r == taken_up(old(self).mem(), segment),
            r == segment ==> final(self).source() == old(self).source(),
            r != segment ==> exists|back: &mut P| #[trigger]
                call_ensures(P::dealloc, (back, segment->0, segment_layout()), ()) && *back == old(
                    self,
                ).source() && *final(back) == final(self).source(),
            r is None ==> final(self).mem() == old(self).mem(),
            r matches Some(s) ==> slab_place(s) && !old(self).mem().out.contains(s) && final(
                self).mem() == old(self).mem().installed(s).carved(),
            final(self)@ == old(self)@.with_mem(final(self)@.mem),
            final(self).foreign() == old(self).foreign(),
            segment is None ==> final(self).pages() == old(self).pages(),
            r is None && segment is Some ==> final(self).pages() == old(self).pages().remove(
                segment->0,
            ),
    {
        let ghost m = self.mem();
        match segment {
            None => None,
            Some(s) => {
                if self.segments.len() >= MAX_SEGMENTS {
                    self.page_alloc.dealloc(s, Layout { size: SEGMENT_SIZE, align: SLAB_SIZE });
                    return None;
                }
                proof {
                    assert forall|i: int| 0 <= i < m.segments.len() implies apart(
                        s as int,
                        SEGMENT_SIZE as int,
                        #[trigger] m.segments[i] as int,
                        SEGMENT_SIZE as int,
                    ) by {
                        assert(m.segments.contains(m.segments[i]));
                        assert(m.pages().contains_key(m.segments[i]));
                    }
                    assert forall|q: usize| #[trigger] m.large.contains_key(q) implies apart(
                        s as int,
                        SEGMENT_SIZE as int,
                        q as int,
                        m.large[q].size as int,
                    ) by {
                        assert(m.pages().contains_key(q));
                        crate::segment::lemma_large(m, q, segment_layout());
                    }
                    crate::segment::lemma_installed(m, s);
                }
                self.segments.push(s);
                self.seg_outstanding.push(0);
                self.segment_cursor = s;
                self.segment_end = s + SEGMENT_SIZE;
                self.segment_mmap_count = raise(self.segment_mmap_count);
                proof {
                    assert(self.mem() =~= m.installed(s));
                    let k = m.segments.len() as int;
                    let f = |p: usize| in_segment(s, p);
                    assert(self.out@.filter(f) =~= Set::empty()) by {
                        assert forall|p: usize| self.out@.contains(p) implies !in_segment(s, p) by {
                            crate::segment::lemma_segment(m, p);
                            let i = m.segment_of(p);
                            assert(m.segments[i] == m.segments[i]);
                        }
                    }
                    assert forall|i: int|
                        0 <= i < self.segments.len() implies #[trigger] self.seg_outstanding[i]
                        == outstanding(self.out@, self.segments[i]) by {
                        if i < k {
                            assert(old(self).seg_outstanding[i] == outstanding(
                                self.out@,
                                old(self).segments[i],
                            ));
                        }
                    }
                }
                Some(self.carve())
            },
        }
    }

    /// Return a fully-free slab to the pool for reuse.
    ///
    /// Where no slab of the segment is out any more and the segment is fully carved, the segment
    /// is purged: its slabs leave the free list and its memory goes back to the page allocator.
    pub fn dealloc_slab(&mut self, base: usize)
        requires
            old(self).inv(),
            old(self)@.mem.out.contains(base),
        ensures
            final(self).inv(),
            final(self)@ == old(self)@.freed(base),
            final(self).foreign() == old(self).foreign(),
            only_returns(old(self), final(self)),
            old(self)@.wf() && old(self)@.is_unused(base) ==> final(self)@.wf(),
    {
        let ghost m = self.mem();
        let ghost n = m.returned(base);
        proof {
            crate::segment::lemma_returned(m, base);
            crate::segment::lemma_segment(m, base);
            crate::segment::lemma_freed(m, base);
            lemma_freed_wf(self@, base);
        }
        if self.slabs.contains(base) {
            self.slabs.take(base);
        }
        let i: usize = self.find_segment(base);
        let ghost before = self.seg_outstanding@;
        proof {
            crate::segment::lemma_outstanding_bound(m, i as int);
            assert(in_segment(self.segments[i as int], base));
            assert(self.seg_outstanding[i as int] == outstanding(self.out@, self.segments[i as int]));
        }
        let left: usize = self.seg_outstanding[i] - 1;
        self.seg_outstanding.set(i, left);
        self.free.push(base);
        self.out = Ghost(self.out@.remove(base));
        proof {
            assert(old(self)@.slabs.remove(base) =~= self@.slabs);
            assert(self.mem() =~= n);
            assert forall|j: int| 0 <= j < self.segments.len() implies #[trigger] self.seg_outstanding[j]
                == outstanding(self.out@, self.segments[j]) by {
                assert(before[j] == outstanding(m.out, m.segments[j]));
                assert(m.out =~= n.out.insert(base));
                crate::segment::lemma_outstanding_insert(n.out, base, m.segments[j]);
                assert(in_segment(m.segments[j], base) <==> j == i);
            }
            self.lemma_pages_kept(*old(self));
            crate::segment::lemma_outstanding_bound(n, i as int);
            assert(self.seg_outstanding[i as int] == outstanding(n.out, n.segments[i as int]));
            assert(n.segment_of(base) == i);
        }
        let carving: bool = self.segment_cursor < self.segment_end && self.segments[i]
            <= self.segment_cursor && self.segment_end - self.segments[i] == SEGMENT_SIZE;
        assert(carving == n.is_current(i as int));
        assert(n.is_idle(i as int) <==> left == 0 && !carving);
        if left == 0 && !carving {
            self.purge(i);
        }
    }

    /// Gives segment `i`, of which no slab is out, back to the page allocator.
    fn purge(&mut self, i: usize)
        requires
            old(self).inv(),
            i < old(self).mem().segments.len(),
            old(self).mem().is_idle(i as int),
        ensures
            final(self).inv(),
            final(self)@ == old(self)@.with_mem(old(self)@.mem.purged(i as int)),
            final(self).foreign() == old(self).foreign(),
            final(self).pages() == old(self).pages().remove(old(self)@.mem.segments[i as int]),
    {
        let ghost m = self.mem();
        let segment: usize = self.segments[i];
        let ghost keep = |p: usize| !in_segment(segment, p);
        proof {
            crate::segment::lemma_purged(m, i as int);
        }
        let mut kept: Vec<usize> = Vec::new();
        let mut k: usize = 0;
        proof {
            reveal(Seq::filter);
            assert(self.free@.take(0).filter(keep) =~= Seq::empty());
        }
        while k < self.free.len()
            invariant
                k <= self.free.len(),
                kept@ == self.free@.take(k as int).filter(keep),
                keep == (|p: usize| !in_segment(segment, p)),
            decreases self.free.len() - k,
        {
            let p: usize = self.free[k];
            proof {
                reveal(Seq::filter);
                assert(self.free@.take(k + 1).drop_last() =~= self.free@.take(k as int));
            }
            if !(segment <= p && p - segment < SEGMENT_SIZE) {
                kept.push(p);
            }
            k = k + 1;
        }
        proof {
            assert(self.free@.take(k as int) =~= self.free@);
        }
        let ghost counts = self.seg_outstanding@;
        self.free = kept;
        self.segments.swap_remove(i);
        self.seg_outstanding.swap_remove(i);
        self.segment_munmap_count = raise(self.segment_munmap_count);
        self.page_alloc.dealloc(segment, Layout { size: SEGMENT_SIZE, align: SLAB_SIZE });
        proof {
            assert(self.mem() =~= m.purged(i as int));
            let last = m.segments.len() - 1;
            assert forall|j: int| 0 <= j < self.segments.len() implies #[trigger] self.seg_outstanding[j]
                == outstanding(self.out@, self.segments[j]) by {
                let from = if j == i {
                    last
                } else {
                    j
                };
                assert(old(self).seg_outstanding[from] == outstanding(m.out, m.segments[from]));
            }
        }
    }

    /// Allocate memory for a request exceeding the max size class.
    ///
    /// Delegates directly to the page allocator; no pooling. The page allocator is asked for
    /// `layout` once, and what it returns is the result.
    pub fn alloc_large(&mut self, layout: Layout) -> (r: Option<usize>)
        requires
            old(self).inv(),
            layout.wf(),
            layout.size > 0,
        ensures
            final(self).inv(),
            exists|source: &mut P| #[trigger]
                call_ensures(P::allocate, (source, layout), r) && *source == old(self).source()
                    && *final(source) == final(self).source(),
            final(self).foreign() == old(self).foreign(),
            r is None ==> final(self)@ == old(self)@ && final(self).pages() == old(self).pages(),
            r matches Some(p) ==> {
                &&& fits(p, layout)
                &&& !old(self).pages().contains_key(p)
                &&& forall|q: usize| #[trigger]
                    old(self).pages().contains_key(q) ==> apart(
                        p as int,
                        layout.size as int,
                        q as int,
                        old(self).pages()[q].size as int,
                    )
                &&& final(self)@ == old(self)@.with_mem(old(self)@.mem.with_large(p, layout))
                &&& final(self).pages() == old(self).pages().insert(p, layout)
            },
            old(self)@.wf() ==> final(self)@.wf(),
    {
        let ghost m = self.mem();
        let r = self.page_alloc.allocate(layout);
        match r {
            None => {
                proof {
                    self.lemma_pages_kept(*old(self));
                    assert(self@ == old(self)@);
                }
                None
            },
            Some(p) => {
                proof {
                    assert forall|i: int| 0 <= i < m.segments.len() implies apart(
                        p as int,
                        layout.size as int,
                        #[trigger] m.segments[i] as int,
                        SEGMENT_SIZE as int,
                    ) by {
                        assert(m.segments.contains(m.segments[i]));
                        assert(m.pages().contains_key(m.segments[i]));
                        assert(old(self).pages().contains_key(m.segments[i]));
                    }
                    assert forall|q: usize| #[trigger] m.large.contains_key(q) implies apart(
                        p as int,
                        layout.size as int,
                        q as int,
                        m.large[q].size as int,
                    ) by {
                        crate::segment::lemma_large(m, q, layout);
                        assert(m.pages().contains_key(q));
                        assert(old(self).pages().contains_key(q));
                    }
                    crate::segment::lemma_large(m, p, layout);
                }
                self.large = Ghost(self.large@.insert(p, layout));
                proof {
                    assert(self.mem() =~= m.with_large(p, layout));
                    lemma_mem_wf(old(self)@, self.mem());
                    assert forall|q: usize| #[trigger]
                        self.pages().contains_key(q) <==> self.foreign@.contains_key(q)
                            || self.mem().pages().contains_key(q) by {
                        assert(old(self).pages().contains_key(q) <==> old(
                            self,
                        ).foreign@.contains_key(q) || m.pages().contains_key(q));
                    }
                    assert forall|q: usize| #[trigger]
                        self.foreign@.contains_key(q) implies self.pages()[q] == self.foreign@[q] by {
                        assert(old(self).pages().contains_key(q));
                    }
                    assert forall|q: usize| #[trigger]
                        self.mem().pages().contains_key(q) implies self.pages()[q]
                        == self.mem().pages()[q] && !self.foreign@.contains_key(q) by {
                        if q != p {
                            assert(m.pages().contains_key(q));
                        } else {
                            assert(!old(self).pages().contains_key(q));
                        }
                    }
                }
                Some(p)
            },
        }
    }

    /// Deallocate a large allocation.
    ///
    /// `ptr` must have been returned by `alloc_large` with the same `layout`.
    pub fn dealloc_large(&mut self, ptr: usize, layout: Layout)
        requires
            old(self).inv(),
            old(self)@.mem.large.contains_key(ptr),
            old(self)@.mem.large[ptr] == layout,
        ensures
            final(self).inv(),
            final(self)@ == old(self)@.with_mem(old(self)@.mem.without_large(ptr)),
            final(self).foreign() == old(self).foreign(),
            final(self).pages() == old(self).pages().remove(ptr),
            old(self)@.wf() ==> final(self)@.wf(),
    {
        let ghost m = self.mem();
        proof {
            crate::segment::lemma_large(m, ptr, layout);
        }
        self.page_alloc.dealloc(ptr, layout);
        self.large = Ghost(self.large@.remove(ptr));
        proof {
            assert(self.mem() =~= m.without_large(ptr));
            lemma_mem_wf(old(self)@, self.mem());
            assert forall|q: usize| #[trigger]
                self.mem().pages().contains_key(q) implies self.pages()[q] == self.mem().pages()[q]
                && !self.foreign@.contains_key(q) by {
                assert(m.pages().contains_key(q));
            }
            assert forall|q: usize| #[trigger] self.foreign@.contains_key(q) implies self.pages()[q]
                == self.foreign@[q] && self.pages().contains_key(q) by {
                assert(old(self).foreign@.contains_key(q));
                assert(old(self).pages().contains_key(q));
            }
        }
    }

    /// Leaves slab `base`, which still has blocks in use, for another heap to adopt.
    pub fn abandon_slab(&mut self, base: usize)
        requires
            old(self).inv(),
            old(self)@.slabs.contains_key(base),
            0 <= old(self)@.slabs[base].class < NUM_CLASSES,
        ensures
            final(self).inv(),
            final(self)@ == old(self)@.orphaned(base),
            final(self).foreign() == old(self).foreign(),
            final(self).pages() == old(self).pages(),
            final(self).source() == old(self).source(),
            old(self)@.wf() && !old(self)@.is_abandoned(base) ==> final(self)@.wf(),
    {
        let c: usize = self.slabs.get(base).size_class_index();
        self.abandoned[c].push(base);
        self.abandon_count[c] = raise(self.abandon_count[c]);
        proof {
            assert(self@.abandoned =~= old(self)@.orphaned(base).abandoned);
            self.lemma_pages_kept(*old(self));
            lemma_orphaned_wf(old(self)@, base);
        }
    }

    /// Takes a slab of the given class that has been abandoned, the last one first.
    ///
    /// The slab still bears the id of the heap that left it.
    pub fn adopt_slab(&mut self, class_idx: usize) -> (r: Option<usize>)
        requires
            old(self).inv(),
            class_idx < NUM_CLASSES,
        ensures
            final(self).inv(),
            old(self)@.abandoned[class_idx as int].len() == 0 ==> r is None && final(self)@ == old(
                self)@,
            old(self)@.abandoned[class_idx as int].len() > 0 ==> r == Some(
                old(self)@.abandoned[class_idx as int].last(),
            ) && final(self)@ == old(self)@.adopted(class_idx as int),
            final(self).foreign() == old(self).foreign(),
            final(self).pages() == old(self).pages(),
            final(self).source() == old(self).source(),
            old(self)@.wf() ==> final(self)@.wf(),
    {
        let r = self.abandoned[class_idx].pop();
        if r.is_some() {
            self.adopt_count[class_idx] = raise(self.adopt_count[class_idx]);
        }
        proof {
            let c = class_idx as int;
            if old(self)@.abandoned[c].len() > 0 {
                assert(self@.abandoned =~= old(self)@.adopted(c).abandoned);
                lemma_adopted_wf(old(self)@, c);
            } else {
                assert(self@.abandoned =~= old(self)@.abandoned);
            }
            self.lemma_pages_kept(*old(self));
        }
        r
    }

    /// Notes that a heap with the given id has been made on the pool.
    pub(crate) fn note_heap(&mut self, id: usize)
        requires
            old(self).inv(),
            old(self)@.id_bound <= id < usize::MAX,
        ensures
            final(self).inv(),
            final(self)@ == (PoolView { id_bound: (id + 1) as usize, ..old(self)@ }),
            final(self).foreign() == old(self).foreign(),
            final(self).pages() == old(self).pages(),
            final(self).source() == old(self).source(),
            old(self)@.wf() ==> final(self)@.wf(),
    {
        self.id_bound = Ghost((id + 1) as usize);
        proof {
            self.lemma_pages_kept(*old(self));
        }
    }

    /// Gives all segments back to the page allocator, and the page allocator to the caller.
    ///
    /// Large blocks that are still in use stay allocated.
    pub fn drop(self) -> (page_alloc: P)
        requires
            self.inv(),
        ensures
            page_alloc.pages() == self.foreign().union_prefer_right(self@.mem.large),
    {
        let ghost m = self.mem();
        let ghost foreign = self.foreign@;
        let ghost start = self.pages();
        let mut page_alloc = self.page_alloc;
        let segments = self.segments;
        let mut i: usize = 0;
        proof {
            assert(m.segments.take(0).to_set() =~= Set::empty());
            assert(start.remove_keys(m.segments.take(0).to_set()) =~= start);
        }
        while i < segments.len()
            invariant
                i <= segments.len(),
                segments@ == m.segments,
                m.wf(),
                page_alloc.pages() == start.remove_keys(m.segments.take(i as int).to_set()),
                forall|p: usize| #[trigger]
                    m.pages().contains_key(p) ==> start.contains_key(p) && start[p] == m.pages()[p],
            decreases segments.len() - i,
        {
            let segment: usize = segments[i];
            proof {
                let done = m.segments.take(i as int);
                assert(m.segments.contains(segment));
                assert(m.pages().contains_key(segment));
                assert(!done.contains(segment)) by {
                    crate::segment::lemma_segments_distinct(m);
                }
                assert(m.segments.take(i + 1) =~= done.push(segment));
                assert(m.segments.take(i + 1).to_set() =~= done.to_set().insert(segment)) by {
                    assert forall|p: usize| done.push(segment).contains(p) <==> done.contains(p)
                        || p == segment by {
                        if done.contains(p) {
                            let k = choose|k: int| 0 <= k < done.len() && done[k] == p;
                            assert(done.push(segment)[k] == p);
                        }
                        assert(done.push(segment)[done.len() as int] == segment);
                    }
                }
                assert(page_alloc.pages().remove(segment) =~= start.remove_keys(
                    m.segments.take(i + 1).to_set(),
                ));
            }
            page_alloc.dealloc(segment, Layout { size: SEGMENT_SIZE, align: SLAB_SIZE });
            i = i + 1;
        }
        proof {
            assert(m.segments.take(i as int) =~= m.segments);
            assert forall|p: usize| #[trigger] m.large.contains_key(p) implies m.pages().contains_key(
                p,
            ) && m.pages()[p] == m.large[p] && !m.segments.contains(p) by {
                crate::segment::lemma_large(m, p, segment_layout());
                crate::segment::lemma_segments_distinct(m);
            }
            assert forall|p: usize| m.segments.contains(p) implies #[trigger] m.pages().contains_key(
                p,
            ) by {}
            assert forall|p: usize| #[trigger] foreign.contains_key(p) implies start.contains_key(p)
                && start[p] == foreign[p] && !m.segments.contains(p) by {
                assert(self.foreign@.contains_key(p));
                assert(self.pages().contains_key(p));
                if m.segments.contains(p) {
                    assert(self.mem().pages().contains_key(p));
                }
            }
            assert forall|p: usize| #[trigger] start.contains_key(p) implies foreign.contains_key(p)
                || m.segments.contains(p) || m.large.contains_key(p) by {
                assert(self.pages().contains_key(p));
            }
            assert(page_alloc.pages() =~= foreign.union_prefer_right(m.large));
        }
        page_alloc
    }

    /// Number of segments.
    pub fn segment_count(&self) -> (r: usize)
        requires
            self.inv(),
        ensures
            r == self@.mem.segments.len(),
    {
        self.segments.len()
    }

    /// Number of slabs that are out.
    pub fn outstanding_slabs(&self) -> (r: usize)
        requires
            self.inv(),
        ensures
            r == self@.mem.out.len(),
    {
        let mut sum: usize = 0;
        let mut i: usize = 0;
        proof {
            crate::segment::lemma_outstanding_sum(self.mem(), 0);
        }
        while i < self.segments.len()
            invariant
                self.inv(),
                i <= self.segments.len(),
                sum == crate::segment::out_of_first(self.mem(), i as int).len(),
                sum <= i * SLABS_PER_SEGMENT,
            decreases self.segments.len() - i,
        {
            proof {
                crate::segment::lemma_outstanding_sum(self.mem(), i as int);
                crate::segment::lemma_outstanding_bound(self.mem(), i as int);
                crate::segment::lemma_segments_distinct(self.mem());
                assert(self.seg_outstanding[i as int] == outstanding(
                    self.out@,
                    self.segments[i as int],
                ));
            }
            sum = sum + self.seg_outstanding[i];
            i = i + 1;
        }
        proof {
            crate::segment::lemma_outstanding_sum(self.mem(), i as int);
        }
        sum
    }

    /// Count of the segments that the pool has got.
    pub fn segment_mmap_count(&self) -> (r: u64)
        ensures
            r == self@.mem.segment_mmap_count,
    {
        self.segment_mmap_count
    }

    /// Count of the segments that have gone back.
    pub fn segment_munmap_count(&self) -> (r: u64)
        ensures
            r == self@.mem.segment_munmap_count,
    {
        self.segment_munmap_count
    }

    /// For each size class the count of slabs that have been abandoned.
    pub fn abandon_count(&self) -> (r: [u64; NUM_CLASSES])
        ensures
            r@ == self@.abandon_count,
    {
        self.abandon_count
    }

    /// For each size class the count of abandoned slabs that have been adopted.
    pub fn adopt_count(&self) -> (r: [u64; NUM_CLASSES])
        ensures
            r@ == self@.adopt_count,
    {
        self.adopt_count
    }

    /// The slab at `base`.
    pub fn slab(&self, base: usize) -> (r: &Slab)
        requires
            self.inv(),
            self@.slabs.contains_key(base),
        ensures
            r.wf(),
            r.base() == base,
            r@ == self@.slabs[base],
    {
        self.slabs.get(base)
    }

    /// The table of initialised slabs.
    pub fn slabs(&self) -> (r: &SlabTable)
        requires
            self.inv(),
        ensures
            r.wf(),
            r@ == self@.slabs,
    {
        &self.slabs
    }

    /// Puts a slab that has been initialised or changed under its address.
    pub(crate) fn put_slab(&mut self, slab: Slab)
        requires
            old(self).inv(),
            slab.wf(),
        ensures
            final(self).inv(),
            final(self)@ == old(self)@.with_slab(slab.base(), slab@),
            final(self).foreign() == old(self).foreign(),
            final(self).pages() == old(self).pages(),
            final(self).source() == old(self).source(),
    {
        self.slabs.put(slab);
        proof {
            self.lemma_pages_kept(*old(self));
        }
    }

    /// Pops a slot from the local free list of a slab.
    pub(crate) fn slab_allocate(&mut self, base: usize) -> (r: Option<usize>)
        requires
            old(self).inv(),
            old(self)@.slabs.contains_key(base),
        ensures
            final(self).inv(),
            old(self)@.slabs[base].local.len() == 0 ==> r is None && final(self)@ == old(self)@,
            old(self)@.slabs[base].local.len() > 0 ==> r == Some(old(self)@.slabs[base].local[0])
                && final(self)@ == old(self)@.with_slab(base, old(self)@.slabs[base].popped()),
            final(self).foreign() == old(self).foreign(),
            final(self).pages() == old(self).pages(),
            final(self).source() == old(self).source(),
    {
        let r = self.slabs.allocate(base);
        proof {
            self.lemma_pages_kept(*old(self));
        }
        r
    }

    /// Returns a slot to the local free list of its slab.
    pub(crate) fn slab_dealloc_local(&mut self, base: usize, ptr: usize)
        requires
            old(self).inv(),
            old(self)@.slabs.contains_key(base),
            old(self)@.slabs[base].is_out(base, ptr),
        ensures
            final(self).inv(),
            final(self)@ == old(self)@.with_slab(base, old(self)@.slabs[base].pushed(ptr)),
            final(self).foreign() == old(self).foreign(),
            final(self).pages() == old(self).pages(),
            final(self).source() == old(self).source(),
    {
        self.slabs.dealloc_local(base, ptr);
        proof {
            self.lemma_pages_kept(*old(self));
        }
    }

    /// Drains the remote free list of a slab. Returns the number of slots recovered.
    pub(crate) fn slab_drain_remote(&mut self, base: usize) -> (r: u16)
        requires
            old(self).inv(),
            old(self)@.slabs.contains_key(base),
        ensures
            final(self).inv(),
            final(self)@ == old(self)@.with_slab(base, old(self)@.slabs[base].drained()),
            r == old(self)@.slabs[base].remote.len(),
            final(self).foreign() == old(self).foreign(),
            final(self).pages() == old(self).pages(),
            final(self).source() == old(self).source(),
    {
        let count: u16 = self.slabs.drain_remote(base);
        proof {
            self.lemma_pages_kept(*old(self));
        }
        count
    }

    /// Puts a slab under the heap with the given id.
    pub(crate) fn slab_set_heap_id(&mut self, base: usize, id: usize)
        requires
            old(self).inv(),
            old(self)@.slabs.contains_key(base),
        ensures
            final(self).inv(),
            final(self)@ == old(self)@.with_slab(base, old(self)@.slabs[base].owned_by(id)),
            final(self).foreign() == old(self).foreign(),
            final(self).pages() == old(self).pages(),
            final(self).source() == old(self).source(),
    {
        self.slabs.set_heap_id(base, id);
        proof {
            self.lemma_pages_kept(*old(self));
        }
    }

    /// Pushes the slots `entries[from..to]` onto the remote free list of their slab as one chain.
    pub(crate) fn slab_push_chain_remote(
        &mut self,
        slab: SlabRef,
        entries: &[usize],
        from: usize,
        to: usize,
    )
        requires
            old(self).inv(),
            old(self)@.slabs.contains_key(slab.base),
            from < to <= entries.len(),
            entries@.subrange(from as int, to as int).no_duplicates(),
            forall|i: int|
                from <= i < to ==> old(self)@.slabs[slab.base].is_out(
                    slab.base,
                    #[trigger] entries[i],
                ),
        ensures
            final(self).inv(),
            final(self)@ == old(self)@.with_slab(
                slab.base,
                old(self)@.slabs[slab.base].chained_remote(
                    entries@.subrange(from as int, to as int),
                ),
            ),
            final(self).foreign() == old(self).foreign(),
            final(self).pages() == old(self).pages(),
            final(self).source() == old(self).source(),
    {
        slab.push_chain_remote(&mut self.slabs, entries, from, to);
        proof {
            self.lemma_pages_kept(*old(self));
        }
    }

    /// Frees the slot at `ptr` onto the remote free list of its slab, whoever owns the slab.
    pub fn dealloc_remote(&mut self, ptr: usize)
        requires
            old(self).wf(),
            old(self)@.is_lent(ptr),
        ensures
            final(self).wf(),
            final(self)@ == old(self)@.with_slab(
                base_of(ptr),
                old(self)@.slabs[base_of(ptr)].chained_remote(seq![ptr]),
            ),
            final(self)@.lent() == old(self)@.lent().remove(ptr),
            final(self).foreign() == old(self).foreign(),
            final(self).pages() == old(self).pages(),
            final(self).source() == old(self).source(),
    {
        let slab_ref = SlabRef::from_interior_ptr(ptr);
        slab_ref.dealloc_remote(&mut self.slabs, ptr);
        proof {
            self.lemma_pages_kept(*old(self));
            let run = seq![ptr];
            assert(run[0] == ptr);
            lemma_chained_wf(old(self)@, base_of(ptr), run);
            assert forall|p: usize| #[trigger] self@.is_lent(p) <==> old(self)@.is_lent(p) && p
                != ptr by {
                assert(run.contains(p) <==> p == ptr);
            }
            assert(self@.lent() =~= old(self)@.lent().remove(ptr));
        }
    }

    /// Notes that slot `ptr` is in the cache of heap `id`.
    pub(crate) fn note_cached(&mut self, ptr: usize, id: usize)
        requires
            old(self).inv(),
        ensures
            final(self).inv(),
            final(self)@ == old(self)@.with_cached(ptr, id),
            final(self).foreign() == old(self).foreign(),
            final(self).pages() == old(self).pages(),
            final(self).source() == old(self).source(),
    {
        self.cached = Ghost(self.cached@.insert(ptr, id));
        proof {
            self.lemma_pages_kept(*old(self));
        }
    }

    /// Notes that the slots of `entries` are in no cache any more.
    pub(crate) fn note_flushed(&mut self, entries: &Vec<usize>)
        requires
            old(self).inv(),
        ensures
            final(self).inv(),
            final(self)@ == (PoolView {
                cached: without_all(old(self)@.cached, entries@),
                ..old(self)@
            }),
            final(self).foreign() == old(self).foreign(),
            final(self).pages() == old(self).pages(),
            final(self).source() == old(self).source(),
    {
        self.cached = Ghost(without_all(self.cached@, entries@));
        proof {
            self.lemma_pages_kept(*old(self));
        }
    }

    /// Notes that slot `ptr` is in no cache any more.
    pub(crate) fn note_uncached(&mut self, ptr: usize)
        requires
            old(self).inv(),
        ensures
            final(self).inv(),
            final(self)@ == old(self)@.without_cached(ptr),
            final(self).foreign() == old(self).foreign(),
            final(self).pages() == old(self).pages(),
            final(self).source() == old(self).source(),
    {
        self.cached = Ghost(self.cached@.remove(ptr));
        proof {
            self.lemma_pages_kept(*old(self));
        }
    }

    /// Where neither side's regions change, they still agree.
    proof fn lemma_pages_kept(&self, before: PagePool<P>)
        requires
            before.pages_right(),
            self.pages() == before.pages(),
            self.foreign@ == before.foreign@,
            self.mem().pages() == before.mem().pages(),
        ensures
            self.pages_right(),
    {
    }

    /// The counts after one more slab has been handed out.
    proof fn lemma_counts_after_insert(&self, before: PagePool<P>, base: usize)
        requires
            before.mem().wf(),
            before.counts_right(),
            !before.out@.contains(base),
            self.segments@ == before.segments@,
            self.out@ == before.out@.insert(base),
            0 <= self.mem().segment_of(base) < self.segments.len(),
            self.mem().wf(),
            self.seg_outstanding@ == before.seg_outstanding@.update(
                self.mem().segment_of(base),
                (before.seg_outstanding@[self.mem().segment_of(base)] + 1) as usize,
            ),
            before.seg_outstanding@[self.mem().segment_of(base)] < usize::MAX,
        ensures
            self.counts_right(),
    {
        crate::segment::lemma_segment(self.mem(), base);
        let k = self.mem().segment_of(base);
        assert(before.out@ =~= self.out@.remove(base));
        assert forall|i: int| 0 <= i < self.segments.len() implies #[trigger] self.seg_outstanding[i]
            == outstanding(self.out@, self.segments[i]) by {
            assert(before.seg_outstanding[i] == outstanding(before.out@, before.segments[i]));
            crate::segment::lemma_outstanding_insert(before.out@, base, self.segments[i]);
            assert(in_segment(self.mem().segments[i], base) <==> i == k);
        }
    }
}

/// The pool stays well formed as long as its memory does and no slab in use goes.
pub proof fn lemma_mem_wf(v: PoolView, mem: MemView)
    requires
        mem.wf(),
        v.mem.out.subset_of(mem.out),
    ensures
        v.wf() ==> v.with_mem(mem).wf(),
{
    if v.wf() {
        let n = v.with_mem(mem);
        assert forall|c: int, q: usize|
            #![trigger n.abandoned[c].contains(q)]
            0 <= c < NUM_CLASSES && n.abandoned[c].contains(q) implies n.slabs.contains_key(q)
            && n.slabs[q].class == c by {
            assert(v.abandoned[c].contains(q));
        }
    }
}

/// Returning an unused slab keeps the pool well formed.
pub proof fn lemma_freed_wf(v: PoolView, b: usize)
    requires
        v.mem.wf(),
        v.mem.out.contains(b),
    ensures
        v.wf() && v.is_unused(b) ==> v.freed(b).wf(),
{
    crate::segment::lemma_freed(v.mem, b);
    if v.wf() && v.is_unused(b) {
        let n = v.freed(b);
        assert forall|c: int, q: usize|
            #![trigger n.abandoned[c].contains(q)]
            0 <= c < NUM_CLASSES && n.abandoned[c].contains(q) implies n.slabs.contains_key(q)
            && n.slabs[q].class == c by {
            assert(v.abandoned[c].contains(q));
        }
        assert forall|p: usize| #[trigger] n.cached.contains_key(p) implies n.slabs.contains_key(
            base_of(p),
        ) && n.slabs[base_of(p)].is_out(base_of(p), p) && n.cached[p] < n.id_bound by {
            assert(v.cached.contains_key(p));
        }
    }
}

/// Abandoning a slab keeps the pool well formed.
pub proof fn lemma_orphaned_wf(v: PoolView, b: usize)
    requires
        v.slabs.contains_key(b),
    ensures
        v.wf() && !v.is_abandoned(b) ==> v.orphaned(b).wf(),
        v.wf() ==> forall|q: usize|
            v.slabs.contains_key(q) ==> (#[trigger] v.orphaned(b).is_abandoned(q)
                <==> v.is_abandoned(q) || q == b),
{
    if v.wf() {
        let c = v.slabs[b].class;
        let n = v.orphaned(b);
        let list = v.abandoned[c];
        assert(v.slabs[b].wf(b));
        assert forall|q: usize| list.push(b).contains(q) <==> list.contains(q) || q == b by {
            if list.contains(q) {
                let k = choose|k: int| 0 <= k < list.len() && list[k] == q;
                assert(list.push(b)[k] == q);
            }
            assert(list.push(b)[list.len() as int] == b);
        }
        assert forall|d: int, q: usize|
            #![trigger n.abandoned[d].contains(q)]
            0 <= d < NUM_CLASSES && n.abandoned[d].contains(q) implies n.slabs.contains_key(q)
            && n.slabs[q].class == d by {
            if d != c {
                assert(v.abandoned[d].contains(q));
            } else if q != b {
                assert(v.abandoned[c].contains(q));
            }
        }
        if !v.is_abandoned(b) {
            assert forall|d: int| 0 <= d < NUM_CLASSES implies (
            #[trigger] n.abandoned[d]).no_duplicates() by {
                assert(v.abandoned[d].no_duplicates());
            }
        }
    }
}

/// Taking an abandoned slab keeps the pool well formed.
pub proof fn lemma_adopted_wf(v: PoolView, c: int)
    requires
        0 <= c < NUM_CLASSES,
        v.abandoned.len() == NUM_CLASSES,
        v.abandoned[c].len() > 0,
    ensures
        v.wf() ==> {
            let b = v.abandoned[c].last();
            &&& v.adopted(c).wf()
            &&& v.slabs.contains_key(b)
            &&& v.slabs[b].class == c
            &&& v.is_abandoned(b)
            &&& forall|q: usize|
                v.slabs.contains_key(q) ==> (#[trigger] v.adopted(c).is_abandoned(q)
                    <==> v.is_abandoned(q) && q != b)
        },
{
    if v.wf() {
        let n = v.adopted(c);
        let list = v.abandoned[c];
        let b = list.last();
        assert(list[list.len() - 1] == b);
        assert(list.contains(b));
        assert(list.no_duplicates());
        assert forall|q: usize| list.drop_last().contains(q) <==> list.contains(q) && q != b by {
            if list.contains(q) && q != b {
                let k = choose|k: int| 0 <= k < list.len() && list[k] == q;
                assert(list.drop_last()[k] == q);
            }
            if list.drop_last().contains(q) {
                let k = choose|k: int| 0 <= k < list.drop_last().len() && list.drop_last()[k] == q;
                assert(list[k] == q);
            }
        }
        assert forall|d: int, q: usize|
            #![trigger n.abandoned[d].contains(q)]
            0 <= d < NUM_CLASSES && n.abandoned[d].contains(q) implies n.slabs.contains_key(q)
            && n.slabs[q].class == d by {
            assert(v.abandoned[d].contains(q));
        }
        assert forall|d: int| 0 <= d < NUM_CLASSES implies (
        #[trigger] n.abandoned[d]).no_duplicates() by {
            assert(v.abandoned[d].no_duplicates());
        }
    }
}

/// Pushing slots that are in use onto the remote free list of their slab keeps the pool well
/// formed, and nothing else is in use or in a cache for it.
pub proof fn lemma_chained_wf(v: PoolView, b: usize, run: Seq<usize>)
    requires
        v.wf(),
        v.slabs.contains_key(b),
        run.no_duplicates(),
        forall|p: usize| #[trigger]
            run.contains(p) ==> v.slabs[b].is_out(b, p) && !v.cached.contains_key(p),
    ensures
        v.with_slab(b, v.slabs[b].chained_remote(run)).wf(),
        forall|p: usize| #[trigger]
            v.slabs[b].chained_remote(run).is_out(b, p) <==> v.slabs[b].is_out(b, p)
                && !run.contains(p),
{
    let s = v.slabs[b];
    let t = s.chained_remote(run);
    let n = v.with_slab(b, t);
    lemma_prefix(run, s.remote);
    assert(t.wf(b)) by {
        assert forall|i: int| 0 <= i < t.remote.len() implies crate::slab::is_slot(
            b,
            t.class,
            #[trigger] t.remote[i],
        ) by {
            if i < run.len() {
                assert(run.contains(run[i]));
            } else {
                assert(t.remote[i] == s.remote[i - run.len()]);
            }
        }
    }
    assert forall|c: int, q: usize|
        #![trigger n.abandoned[c].contains(q)]
        0 <= c < NUM_CLASSES && n.abandoned[c].contains(q) implies n.slabs.contains_key(q)
        && n.slabs[q].class == c by {
        assert(v.abandoned[c].contains(q));
    }
    assert forall|p: usize| #[trigger] n.cached.contains_key(p) implies n.slabs.contains_key(
        base_of(p),
    ) && n.slabs[base_of(p)].is_out(base_of(p), p) && n.cached[p] < n.id_bound by {
        assert(v.cached.contains_key(p));
        if base_of(p) == b && run.contains(p) {
            assert(!v.cached.contains_key(p));
        }
    }
}

/// Members and duplicates of two lists put one behind the other.
pub proof fn lemma_prefix(a: Seq<usize>, b: Seq<usize>)
    ensures
        forall|p: usize| #[trigger] (a + b).contains(p) <==> a.contains(p) || b.contains(p),
        a.no_duplicates() && b.no_duplicates() && (forall|p: usize| #[trigger]
            a.contains(p) ==> !b.contains(p)) ==> (a + b).no_duplicates(),
{
    assert forall|p: usize| #[trigger] (a + b).contains(p) <==> a.contains(p) || b.contains(p) by {
        if a.contains(p) {
            let k = choose|k: int| 0 <= k < a.len() && a[k] == p;
            assert((a + b)[k] == p);
        }
        if b.contains(p) {
            let k = choose|k: int| 0 <= k < b.len() && b[k] == p;
            assert((a + b)[k + a.len()] == p);
        }
        if (a + b).contains(p) {
            let k = choose|k: int| 0 <= k < (a + b).len() && (a + b)[k] == p;
            if k < a.len() {
                assert(a[k] == p);
            } else {
                assert(b[k - a.len()] == p);
            }
        }
    }
    if a.no_duplicates() && b.no_duplicates() && (forall|p: usize| #[trigger]
        a.contains(p) ==> !b.contains(p)) {
        assert forall|i: int, j: int| 0 <= i < j < (a + b).len() implies (a + b)[i] != (a
            + b)[j] by {
            if i < a.len() && j >= a.len() {
                assert(a.contains(a[i]));
                assert(b.contains(b[j - a.len()]));
            } else if i >= a.len() {
                assert(b[i - a.len()] != b[j - a.len()]);
            }
        }
    }
}

/// Blocks in use do not overlap: neither two slots, nor two large blocks, nor a slot and a large
/// block.
pub proof fn law_blocks_apart(v: PoolView)
    requires
        v.wf(),
    ensures
        forall|p: usize, q: usize|
            #![trigger v.lent().contains_key(p), v.lent().contains_key(q)]
            v.lent().contains_key(p) && v.lent().contains_key(q) && p != q ==> apart(
                p as int,
                class_bytes(v.lent()[p]),
                q as int,
                class_bytes(v.lent()[q]),
            ),
        forall|p: usize, q: usize|
            #![trigger v.mem.large.contains_key(p), v.mem.large.contains_key(q)]
            v.mem.large.contains_key(p) && v.mem.large.contains_key(q) && p != q ==> apart(
                p as int,
                v.mem.large[p].size as int,
                q as int,
                v.mem.large[q].size as int,
            ),
        forall|p: usize, q: usize|
            #![trigger v.lent().contains_key(p), v.mem.large.contains_key(q)]
            v.lent().contains_key(p) && v.mem.large.contains_key(q) ==> apart(
                p as int,
                class_bytes(v.lent()[p]),
                q as int,
                v.mem.large[q].size as int,
            ),
{
    assert forall|p: usize| #[trigger] v.lent().contains_key(p) implies {
        let b = base_of(p);
        let c = v.lent()[p];
        &&& v.slabs.contains_key(b)
        &&& v.slabs[b].class == c
        &&& v.slabs[b].wf(b)
        &&& crate::slab::is_slot(b, c, p)
        &&& b <= p
        &&& p + class_bytes(c) <= b + SLAB_SIZE
    } by {
        assert(v.is_lent(p));
        let b = base_of(p);
        crate::slab::lemma_slot_index(b, v.slabs[b].class, p);
    }
    assert forall|p: usize, q: usize|
        #![trigger v.lent().contains_key(p), v.lent().contains_key(q)]
        v.lent().contains_key(p) && v.lent().contains_key(q) && p != q implies apart(
        p as int,
        class_bytes(v.lent()[p]),
        q as int,
        class_bytes(v.lent()[q]),
    ) by {
        let b = base_of(p);
        let d = base_of(q);
        if b == d {
            let c = v.lent()[p];
            crate::slab::lemma_slot_index(b, c, p);
            crate::slab::lemma_slot_index(b, c, q);
            let i = crate::slab::slot_index(b as int, c, p as int);
            let j = crate::slab::slot_index(b as int, c, q as int);
            if i < j {
                crate::slab::law_slots_apart(b, c, i, j);
            } else {
                assert(j < i);
                crate::slab::law_slots_apart(b, c, j, i);
            }
        } else {
            assert(b % SLAB_SIZE == 0 && d % SLAB_SIZE == 0);
        }
    }
    crate::segment::lemma_large_apart(v.mem);
    assert forall|p: usize, q: usize|
        #![trigger v.lent().contains_key(p), v.mem.large.contains_key(q)]
        v.lent().contains_key(p) && v.mem.large.contains_key(q) implies apart(
        p as int,
        class_bytes(v.lent()[p]),
        q as int,
        v.mem.large[q].size as int,
    ) by {
        assert(v.mem.out.contains(base_of(p)));
    }
}

/// A slab that comes back leaves no segment idle: where it was the last one out of a segment that
/// has been carved to its end, that segment is gone.
pub proof fn law_idle_segments_go_back(m: MemView, b: usize)
    requires
        m.wf(),
        m.out.contains(b),
        forall|i: int| 0 <= i < m.segments.len() ==> !#[trigger] m.is_idle(i),
    ensures
        forall|i: int| 0 <= i < m.freed(b).segments.len() ==> !#[trigger] m.freed(b).is_idle(i),
{
    crate::segment::lemma_freed_not_idle(m, b);
}

/// Handing out a slab leaves no segment idle.
pub proof fn law_granting_leaves_no_segment_idle(m: MemView, n: MemView, r: Option<usize>)
    requires
        m.wf(),
        slab_granted(m, n, r),
        forall|i: int| 0 <= i < m.segments.len() ==> !#[trigger] m.is_idle(i),
    ensures
        forall|i: int| 0 <= i < n.segments.len() ==> !#[trigger] n.is_idle(i),
{
    crate::segment::lemma_granted_not_idle(m);
    if m.free.len() == 0 && m.cursor >= m.end && r is Some {
        crate::segment::lemma_installed_not_idle(m, r->0);
    }
}

/// A slab that comes back, unless its segment goes back with it, is the next one to be handed out.
pub proof fn law_returned_slab_is_reused(m: MemView, n: MemView, b: usize, r: Option<usize>)
    requires
        m.freed(b) == m.returned(b),
        slab_granted(m.freed(b), n, r),
    ensures
        r == Some(b),
{
}

/// The counts of the pool agree with what it has: this holds of a new pool, and whatever the pool
/// does keeps it.
pub proof fn law_pool_counts_add_up(v: PoolView, b: usize, c: int, n: MemView, r: Option<usize>)
    requires
        v.wf(),
        v.counted(),
    ensures
        PoolView::fresh().counted(),
        v.slabs.contains_key(b) && !v.is_abandoned(b) ==> v.orphaned(b).counted(),
        0 <= c < NUM_CLASSES && v.abandoned[c].len() > 0 ==> v.adopted(c).counted(),
        v.mem.out.contains(b) ==> v.freed(b).counted(),
        slab_granted(v.mem, n, r) ==> v.with_mem(n).counted(),
{
    let m = v.mem;
    crate::segment::lemma_few_out(m, m.segments.len() as int);
    if v.slabs.contains_key(b) && !v.is_abandoned(b) {
        let d = v.slabs[b].class;
        let list = v.abandoned[d];
        assert(v.slabs[b].wf(b));
        list.unique_seq_to_set();
        assert forall|q: usize| list.to_set().contains(q) implies m.out.contains(q) by {
            assert(v.abandoned[d].contains(q));
        }
        vstd::set_lib::lemma_len_subset(list.to_set(), m.out);
        assert forall|e: int| 0 <= e < NUM_CLASSES implies (
        #[trigger] v.orphaned(b).abandoned[e]).len() == ahead(
            v.orphaned(b).abandon_count[e],
            v.orphaned(b).adopt_count[e],
        ) by {
            assert(v.abandoned[e].len() == ahead(v.abandon_count[e], v.adopt_count[e]));
        }
    }
    if 0 <= c < NUM_CLASSES && v.abandoned[c].len() > 0 {
        assert forall|e: int| 0 <= e < NUM_CLASSES implies (
        #[trigger] v.adopted(c).abandoned[e]).len() == ahead(
            v.adopted(c).abandon_count[e],
            v.adopted(c).adopt_count[e],
        ) by {
            assert(v.abandoned[e].len() == ahead(v.abandon_count[e], v.adopt_count[e]));
        }
    }
    if m.out.contains(b) {
        crate::segment::lemma_returned(m, b);
        crate::segment::lemma_segment(m, b);
    }
}

/// Slabs have been handed out one after the other, with none coming back: `memory[i]` is the memory
/// before slab `slabs[i]`.
pub open spec fn all_granted(memory: Seq<MemView>, slabs: Seq<usize>) -> bool {
    &&& memory.len() == slabs.len() + 1
    &&& forall|i: int|
        0 <= i < slabs.len() ==> slab_granted(
            #[trigger] memory[i],
            memory[i + 1],
            Some(slabs[i]),
        )
}

/// How often the page allocator has been asked for a segment for the first `n` slabs.
pub open spec fn segment_requests(memory: Seq<MemView>, n: int) -> int
    decreases n,
{
    if n <= 0 {
        0
    } else {
        segment_requests(memory, n - 1) + if needs_segment(memory[n - 1]) {
            1int
        } else {
            0
        }
    }
}

/// Segments are asked for in batches of slabs: `n` slabs of a new pool, with none coming back, take
/// one segment for each 32 slabs that are begun, and none goes back.
pub proof fn law_one_request_for_each_segment(memory: Seq<MemView>, slabs: Seq<usize>, n: int)
    requires
        all_granted(memory, slabs),
        memory[0] == MemView::fresh(),
        0 <= n <= slabs.len(),
    ensures
        segment_requests(memory, n) == (n + 31) / 32,
        memory[n].segments.len() == (n + 31) / 32,
        memory[n].segment_mmap_count == (n + 31) / 32,
        memory[n].segment_munmap_count == 0,
{
    lemma_batches(memory, slabs, n);
}

/// What is left of the current segment after `n` slabs.
proof fn lemma_batches(memory: Seq<MemView>, slabs: Seq<usize>, n: int)
    requires
        all_granted(memory, slabs),
        memory[0] == MemView::fresh(),
        0 <= n <= slabs.len(),
    ensures
        ({
            let m = memory[n];
            let k = (n + 31) / 32;
            &&& segment_requests(memory, n) == k
            &&& m.free.len() == 0
            &&& m.segments.len() == k <= MAX_SEGMENTS
            &&& m.segment_mmap_count == k
            &&& m.segment_munmap_count == 0
            &&& m.end - m.cursor == (32 * k - n) * SLAB_SIZE
        }),
    decreases n,
{
    if n > 0 {
        lemma_batches(memory, slabs, n - 1);
        let m = memory[n - 1];
        assert(slab_granted(m, memory[n - 1 + 1], Some(slabs[n - 1])));
        if needs_segment(m) {
            assert(fits(slabs[n - 1], segment_layout()));
        }
    }
}

/// Handing out a slab hands out exactly one that was not out: the last one of the free list; where
/// that is empty the next one of the current segment; where that is used up the first one of a new
/// segment, from which slabs are carved from then on.
pub proof fn law_one_slab_is_granted(m: MemView, n: MemView, r: Option<usize>)
    requires
        m.wf(),
        slab_granted(m, n, r),
    ensures
        r is None ==> n == m && m.free.len() == 0 && m.cursor >= m.end,
        r matches Some(b) ==> {
            &&& forall|p: usize| #[trigger] n.out.contains(p) <==> m.out.contains(p) || p == b
            &&& n.large == m.large
            &&& n.segment_munmap_count == m.segment_munmap_count
            &&& m.free.len() > 0 ==> {
                &&& b == m.free[m.free.len() - 1]
                &&& n.free.len() == m.free.len() - 1
                &&& forall|k: int| 0 <= k < n.free.len() ==> #[trigger] n.free[k] == m.free[k]
                &&& n.cursor == m.cursor && n.end == m.end && n.segments == m.segments
                    && n.segment_mmap_count == m.segment_mmap_count
            }
            &&& m.free.len() == 0 ==> n.free.len() == 0
            &&& m.free.len() == 0 && m.cursor < m.end ==> {
                &&& b == m.cursor
                &&& n.cursor == m.cursor + 65536 && n.end == m.end && n.segments == m.segments
                    && n.segment_mmap_count == m.segment_mmap_count
            }
            &&& m.free.len() == 0 && m.cursor >= m.end ==> {
                &&& m.segments.len() < 4096
                &&& n.segments.len() == m.segments.len() + 1
                &&& n.segments[m.segments.len() as int] == b
                &&& forall|k: int|
                    0 <= k < m.segments.len() ==> #[trigger] n.segments[k] == m.segments[k]
                &&& n.cursor == b + 65536
                &&& n.end == b + 2097152
                &&& n.segment_mmap_count == (m.segment_mmap_count + 1) % 0x1_0000_0000_0000_0000
            }
        },
{
    if m.free.len() > 0 {
        crate::segment::lemma_reused(m);
    } else if m.cursor < m.end {
        crate::segment::lemma_carved(m);
    }
}

/// A slab is to be had wherever one is free, or the current segment has one left, or the page
/// allocator gives a segment and the pool has room for it.
pub proof fn law_slab_is_granted_where_there_is_one(
    m: MemView,
    n: MemView,
    r: Option<usize>,
    given: Option<usize>,
)
    requires
        slab_granted(m, n, r),
        m.free.len() == 0 && m.cursor >= m.end ==> r == taken_up(m, given),
    ensures
        r is Some <==> m.free.len() > 0 || m.cursor < m.end || (given is Some && m.segments.len()
            < 4096),
        m.free.len() == 0 && m.cursor >= m.end && r is Some ==> r == given,
{
}

/// The page allocator is asked for a segment exactly where no slab is free and the current segment
/// is used up.
pub proof fn law_segment_is_asked_for_when_needed(m: MemView)
    ensures
        needs_segment(m) <==> m.free.len() == 0 && m.cursor >= m.end,
{
}

/// A slot is in use where it is a slot of a slab that a heap has or has left behind, on neither
/// list of that slab and in no cache. It is in use with the class of its slab.
pub proof fn law_block_is_in_use(v: PoolView, p: usize)
    ensures
        ({
            let b = (p - p % 65536) as usize;
            &&& v.lent().contains_key(p) <==> {
                &&& v.slabs.contains_key(b)
                &&& crate::slab::is_slot(b, v.slabs[b].class, p)
                &&& !v.slabs[b].local.contains(p)
                &&& !v.slabs[b].remote.contains(p)
                &&& !v.cached.contains_key(p)
            }
            &&& v.lent().contains_key(p) ==> v.lent()[p] == v.slabs[b].class
        }),
{
}

/// A slab that is left behind waits at the end of the list of its class and is counted; the next
/// one that is adopted for a class is the last of its list, and is counted. Nothing else changes.
pub proof fn law_abandoned_slabs_wait_in_order(v: PoolView, b: usize, c: int)
    requires
        v.wf(),
    ensures
        v.slabs.contains_key(b) ==> {
            let n = v.orphaned(b);
            let d = v.slabs[b].class;
            &&& n.abandoned.len() == v.abandoned.len()
            &&& n.abandoned[d].len() == v.abandoned[d].len() + 1
            &&& n.abandoned[d][v.abandoned[d].len() as int] == b
            &&& forall|k: int|
                0 <= k < v.abandoned[d].len() ==> #[trigger] n.abandoned[d][k] == v.abandoned[d][k]
            &&& forall|e: int|
                0 <= e < 49 && e != d ==> #[trigger] n.abandoned[e] == v.abandoned[e]
            &&& n.abandon_count[d] == (v.abandon_count[d] + 1) % 0x1_0000_0000_0000_0000
            &&& forall|e: int|
                0 <= e < 49 && e != d ==> #[trigger] n.abandon_count[e] == v.abandon_count[e]
            &&& n.adopt_count == v.adopt_count
            &&& n.mem == v.mem && n.slabs == v.slabs && n.cached == v.cached && n.id_bound
                == v.id_bound
        },
        0 <= c < 49 && v.abandoned[c].len() > 0 ==> {
            let n = v.adopted(c);
            &&& n.abandoned.len() == v.abandoned.len()
            &&& n.abandoned[c].len() == v.abandoned[c].len() - 1
            &&& forall|k: int|
                0 <= k < v.abandoned[c].len() - 1 ==> #[trigger] n.abandoned[c][k]
                    == v.abandoned[c][k]
            &&& forall|e: int|
                0 <= e < 49 && e != c ==> #[trigger] n.abandoned[e] == v.abandoned[e]
            &&& n.adopt_count[c] == (v.adopt_count[c] + 1) % 0x1_0000_0000_0000_0000
            &&& forall|e: int|
                0 <= e < 49 && e != c ==> #[trigger] n.adopt_count[e] == v.adopt_count[e]
            &&& n.abandon_count == v.abandon_count
            &&& n.mem == v.mem && n.slabs == v.slabs && n.cached == v.cached && n.id_bound
                == v.id_bound
        },
{
    if v.slabs.contains_key(b) {
        assert(v.slabs[b].wf(b));
    }
}

/// A slab that comes back is no slab of the pool any more, and its memory is what the pool makes of
/// it; other slabs, caches and lists stay.
pub proof fn law_freed_slab_is_forgotten(v: PoolView, b: usize)
    ensures
        !v.freed(b).slabs.contains_key(b),
        forall|q: usize|
            q != b ==> (#[trigger] v.freed(b).slabs.contains_key(q) <==> v.slabs.contains_key(q)),
        forall|q: usize|
            q != b && v.slabs.contains_key(q) ==> #[trigger] v.freed(b).slabs[q] == v.slabs[q],
        v.freed(b).mem == v.mem.freed(b),
        v.freed(b).abandoned == v.abandoned,
        v.freed(b).cached == v.cached,
        v.freed(b).id_bound == v.id_bound,
        v.freed(b).abandon_count == v.abandon_count,
        v.freed(b).adopt_count == v.adopt_count,
{
}

/// A new pool has nothing: no memory, no slab, no slab that waits and no count.
pub proof fn law_new_pool_is_empty()
    ensures
        forall|b: usize| !#[trigger] PoolView::fresh().slabs.contains_key(b),
        forall|p: usize| !#[trigger] PoolView::fresh().cached.contains_key(p),
        PoolView::fresh().mem == MemView::fresh(),
        PoolView::fresh().abandoned.len() == 49,
        forall|c: int| 0 <= c < 49 ==> (#[trigger] PoolView::fresh().abandoned[c]).len() == 0,
        forall|c: int| 0 <= c < 49 ==> #[trigger] PoolView::fresh().abandon_count[c] == 0,
        forall|c: int| 0 <= c < 49 ==> #[trigger] PoolView::fresh().adopt_count[c] == 0,
        PoolView::fresh().id_bound == 1,
{
}

/// What is written to one slab, one cached slot or the memory changes nothing else of the pool.
pub proof fn law_pool_changes_in_one_place(
    v: PoolView,
    b: usize,
    s: SlabView,
    p: usize,
    id: usize,
    mem: MemView,
)
    ensures
        ({
            let n = v.with_slab(b, s);
            &&& n.slabs.contains_key(b) && n.slabs[b] == s
            &&& forall|q: usize|
                q != b ==> (#[trigger] n.slabs.contains_key(q) <==> v.slabs.contains_key(q))
            &&& forall|q: usize|
                q != b && v.slabs.contains_key(q) ==> #[trigger] n.slabs[q] == v.slabs[q]
            &&& n == (PoolView { slabs: n.slabs, ..v })
        }),
        ({
            let n = v.with_cached(p, id);
            &&& n.cached.contains_key(p) && n.cached[p] == id
            &&& forall|q: usize|
                q != p ==> (#[trigger] n.cached.contains_key(q) <==> v.cached.contains_key(q))
            &&& forall|q: usize|
                q != p && v.cached.contains_key(q) ==> #[trigger] n.cached[q] == v.cached[q]
            &&& n == (PoolView { cached: n.cached, ..v })
        }),
        ({
            let n = v.without_cached(p);
            &&& !n.cached.contains_key(p)
            &&& forall|q: usize|
                q != p ==> (#[trigger] n.cached.contains_key(q) <==> v.cached.contains_key(q))
            &&& forall|q: usize|
                q != p && v.cached.contains_key(q) ==> #[trigger] n.cached[q] == v.cached[q]
            &&& n == (PoolView { cached: n.cached, ..v })
        }),
        v.with_mem(mem).mem == mem,
        v.with_mem(mem) == (PoolView { mem, ..v }),
{
}

/// A step that only gives segments back does not ask for one, and where it gives none back it does
/// not call the page allocator.
pub proof fn law_returning_only<P: PageAllocator>(old: PagePool<P>, new: PagePool<P>)
    requires
        only_returns(&old, &new),
    ensures
        new@.mem.segments.len() <= old@.mem.segments.len(),
        new@.mem.segments.len() == old@.mem.segments.len() ==> new.source() == old.source(),
{
}

} // verus!
