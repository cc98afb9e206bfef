//! State of the memory that the pool has from the page allocator: segments, the slabs carved
//! from them, and large blocks.

use vstd::prelude::*;

use crate::layout::Layout;
use crate::slab::slab_place;
use crate::slab::SLAB_SIZE;
use crate::sys::apart;
use crate::sys::fits;

verus! {

/// Size of a segment: 2 MiB, which is 32 slabs.
pub const SEGMENT_SIZE: usize = 2097152;

/// Slabs in a segment.
pub const SLABS_PER_SEGMENT: usize = 32;

/// Most segments that the pool keeps at a time.
pub const MAX_SEGMENTS: usize = 4096;

/// What the pool asks the page allocator for.
pub open spec fn segment_layout() -> Layout {
    Layout { size: SEGMENT_SIZE, align: SLAB_SIZE }
}

/// The address `p` lies in the segment at `segment`.
pub open spec fn in_segment(segment: usize, p: usize) -> bool {
    segment <= p < segment + SEGMENT_SIZE
}

/// Number of slabs of the segment at `segment` that are out.
pub open spec fn outstanding(out: Set<usize>, segment: usize) -> nat {
    out.filter(|p: usize| in_segment(segment, p)).len()
}

/// A count that is one higher; after the highest comes zero.
pub open spec fn raised(n: u64) -> u64 {
    if n == u64::MAX {
        0
    } else {
        (n + 1) as u64
    }
}

/// Raises a count by one; after the highest comes zero.
pub fn raise(n: u64) -> (r: u64)
    ensures
        r == raised(n),
{
    if n == u64::MAX {
        0
    } else {
        n + 1
    }
}

/// A count that is higher by `by`; after the highest comes zero.
pub open spec fn raised_by(n: u64, by: int) -> u64 {
    if n + by > u64::MAX {
        (n + by - 0x1_0000_0000_0000_0000) as u64
    } else {
        (n + by) as u64
    }
}

/// Raises a count; after the highest comes zero.
pub fn raise_by(n: u64, by: u64) -> (r: u64)
    ensures
        r == raised_by(n, by as int),
{
    if n > u64::MAX - by {
        n - (u64::MAX - by) - 1
    } else {
        n + by
    }
}

/// The difference of two counts, one of which may have passed zero.
pub open spec fn ahead(n: u64, m: u64) -> int {
    if n >= m {
        n - m
    } else {
        n - m + 0x1_0000_0000_0000_0000
    }
}

/// Segments, slabs and large blocks.
#[verifier::ext_equal]
pub struct MemView {
    /// Slabs that came back, the next one to hand out last.
    pub free: Seq<usize>,
    /// The next slab to carve from the current segment.
    pub cursor: usize,
    /// End of the current segment.
    pub end: usize,
    /// The segments, by address.
    pub segments: Seq<usize>,
    /// The slabs that have been handed out.
    pub out: Set<usize>,
    /// The large blocks that have been handed out, by address.
    pub large: Map<usize, Layout>,
    /// Count of the segments that the pool has got.
    pub segment_mmap_count: u64,
    /// Count of the segments that have gone back.
    pub segment_munmap_count: u64,
}

impl MemView {
    /// Memory of a pool that has just been made.
    pub open spec fn fresh() -> MemView {
        MemView {
            free: Seq::empty(),
            cursor: 0,
            end: 0,
            segments: Seq::empty(),
            out: Set::empty(),
            large: Map::empty(),
            segment_mmap_count: 0,
            segment_munmap_count: 0,
        }
    }

    /// The pool is carving slabs from segment `i`.
    pub open spec fn is_current(self, i: int) -> bool {
        &&& 0 <= i < self.segments.len()
        &&& self.segments[i] <= self.cursor < self.end
        &&& self.end == self.segments[i] + SEGMENT_SIZE
    }

    /// `p` is a slab that has been carved from segment `i`.
    pub open spec fn carved_from(self, i: int, p: usize) -> bool {
        &&& 0 <= i < self.segments.len()
        &&& in_segment(self.segments[i], p)
        &&& p % SLAB_SIZE == 0
        &&& !(self.cursor <= p < self.end)
    }

    /// `p` is a slab that has been carved from a segment.
    pub open spec fn is_carved(self, p: usize) -> bool {
        exists|i: int| self.carved_from(i, p)
    }

    /// Segments are aligned and apart, and at most one is being carved.
    pub open spec fn wf_segments(self) -> bool {
        &&& self.segments.len() <= MAX_SEGMENTS
        &&& forall|i: int|
            0 <= i < self.segments.len() ==> fits(#[trigger] self.segments[i], segment_layout())
        &&& forall|i: int, j: int|
            #![trigger self.segments[i], self.segments[j]]
            0 <= i < self.segments.len() && 0 <= j < self.segments.len() && i != j ==> apart(
                self.segments[i] as int,
                SEGMENT_SIZE as int,
                self.segments[j] as int,
                SEGMENT_SIZE as int,
            )
        &&& self.cursor % SLAB_SIZE == 0
        &&& self.cursor < self.end ==> exists|i: int| self.is_current(i)
    }

    /// Of the slabs that have been carved, each is either free or out.
    pub open spec fn wf_slabs(self) -> bool {
        &&& self.free.no_duplicates()
        &&& self.out.finite()
        &&& forall|p: usize| !(#[trigger] self.free.contains(p) && self.out.contains(p))
        &&& forall|p: usize| #[trigger] self.free.contains(p) ==> self.is_carved(p)
        &&& forall|p: usize| #[trigger] self.out.contains(p) ==> self.is_carved(p)
        &&& forall|p: usize| #[trigger]
            self.is_carved(p) ==> self.free.contains(p) || self.out.contains(p)
    }

    /// Large blocks lie apart from the segments and from each other.
    pub open spec fn wf_large(self) -> bool {
        &&& forall|q: usize| #[trigger]
            self.large.contains_key(q) ==> fits(q, self.large[q]) && self.large[q].size > 0
        &&& forall|q: usize, i: int|
            #![trigger self.large.contains_key(q), self.segments[i]]
            self.large.contains_key(q) && 0 <= i < self.segments.len() ==> apart(
                q as int,
                self.large[q].size as int,
                self.segments[i] as int,
                SEGMENT_SIZE as int,
            )
        &&& forall|p: usize, q: usize|
            #![trigger self.large.contains_key(p), self.large.contains_key(q)]
            self.large.contains_key(p) && self.large.contains_key(q) && p != q ==> apart(
                p as int,
                self.large[p].size as int,
                q as int,
                self.large[q].size as int,
            )
    }

    /// What holds of the memory between any two calls.
    pub closed spec fn wf(self) -> bool {
        self.wf_segments() && self.wf_slabs() && self.wf_large()
    }

    /// The segments are those that the pool has got and that have not gone back.
    pub open spec fn counted(self) -> bool {
        self.segments.len() == ahead(self.segment_mmap_count, self.segment_munmap_count)
    }

    /// The regions that the pool has from the page allocator.
    pub open spec fn pages(self) -> Map<usize, Layout> {
        Map::new(
            |p: usize| self.segments.contains(p) || self.large.contains_key(p),
            |p: usize|
                if self.segments.contains(p) {
                    segment_layout()
                } else {
                    self.large[p]
                },
        )
    }

    /// After the slab on top of the free list has been handed out.
    pub open spec fn reused(self) -> MemView {
        MemView { free: self.free.drop_last(), out: self.out.insert(self.free.last()), ..self }
    }

    /// After the next slab of the current segment has been handed out.
    pub open spec fn carved(self) -> MemView {
        MemView {
            cursor: (self.cursor + SLAB_SIZE) as usize,
            out: self.out.insert(self.cursor),
            ..self
        }
    }

    /// After the pool has got the segment at `base` to carve from.
    pub open spec fn installed(self, base: usize) -> MemView {
        MemView {
            segments: self.segments.push(base),
            cursor: base,
            end: (base + SEGMENT_SIZE) as usize,
            segment_mmap_count: raised(self.segment_mmap_count),
            ..self
        }
    }

    /// Number of the segment that `p` lies in.
    pub open spec fn segment_of(self, p: usize) -> int {
        choose|i: int| 0 <= i < self.segments.len() && in_segment(#[trigger] self.segments[i], p)
    }

    /// Segment `i` is fully carved and none of its slabs is out.
    pub open spec fn is_idle(self, i: int) -> bool {
        &&& !self.is_current(i)
        &&& forall|p: usize| #[trigger] self.out.contains(p) ==> !in_segment(self.segments[i], p)
    }

    /// After segment `i` has gone back to the page allocator: its slabs leave the free list, and
    /// the last segment takes its place.
    pub open spec fn purged(self, i: int) -> MemView {
        MemView {
            free: self.free.filter(|p: usize| !in_segment(self.segments[i], p)),
            segments: self.segments.update(i, self.segments.last()).drop_last(),
            segment_munmap_count: raised(self.segment_munmap_count),
            ..self
        }
    }

    /// After slab `b` has come back.
    pub open spec fn returned(self, b: usize) -> MemView {
        MemView { free: self.free.push(b), out: self.out.remove(b), ..self }
    }

    /// After slab `b` has come back and, where that leaves its segment idle, the segment has gone
    /// back to the page allocator.
    pub open spec fn freed(self, b: usize) -> MemView {
        let m = self.returned(b);
        if m.is_idle(m.segment_of(b)) {
            m.purged(m.segment_of(b))
        } else {
            m
        }
    }

    /// After a large block has been handed out.
    pub open spec fn with_large(self, p: usize, layout: Layout) -> MemView {
        MemView { large: self.large.insert(p, layout), ..self }
    }

    /// After a large block has come back.
    pub open spec fn without_large(self, p: usize) -> MemView {
        MemView { large: self.large.remove(p), ..self }
    }
}

/// A segment can be asked for.
pub proof fn lemma_segment_layout()
    ensures
        segment_layout().wf(),
{
    reveal_with_fuel(crate::layout::is_power_of_two, 18);
}

/// A pool that has just been made has well-formed memory.
pub proof fn lemma_fresh()
    ensures
        MemView::fresh().wf(),
{
}

/// A slab that is free or out lies in one segment.
pub proof fn lemma_segment(m: MemView, b: usize)
    requires
        m.wf(),
        m.out.contains(b) || m.free.contains(b),
    ensures
        slab_place(b),
        m.out.finite(),
        0 <= m.segment_of(b) < m.segments.len(),
        in_segment(m.segments[m.segment_of(b)], b),
        forall|i: int|
            0 <= i < m.segments.len() && in_segment(#[trigger] m.segments[i], b) ==> i
                == m.segment_of(b),
        b + SLAB_SIZE <= m.segments[m.segment_of(b)] + SEGMENT_SIZE,
{
    assert(m.is_carved(b));
    let i = choose|i: int| m.carved_from(i, b);
    assert(in_segment(m.segments[i], b));
    assert(fits(m.segments[i], segment_layout()));
}

/// No segment is listed twice.
pub proof fn lemma_segments_distinct(m: MemView)
    requires
        m.wf(),
    ensures
        m.segments.no_duplicates(),
        forall|p: usize| #[trigger] m.large.contains_key(p) ==> !m.segments.contains(p),
{
    assert forall|p: usize| #[trigger] m.large.contains_key(p) implies !m.segments.contains(p) by {
        if m.segments.contains(p) {
            let i = choose|i: int| 0 <= i < m.segments.len() && m.segments[i] == p;
            assert(m.segments[i] == p);
        }
    }
}

/// Handing out a free slab.
pub proof fn lemma_reused(m: MemView)
    requires
        m.wf(),
        m.free.len() > 0,
    ensures
        m.reused().wf(),
        slab_place(m.free.last()),
        !m.out.contains(m.free.last()),
        m.reused().pages() == m.pages(),
{
    let b = m.free.last();
    let n = m.reused();
    assert(m.free.contains(b));
    lemma_segment(m, b);
    assert forall|p: usize| #[trigger] n.is_carved(p) == m.is_carved(p) by {
        if m.is_carved(p) {
            let i = choose|i: int| m.carved_from(i, p);
            assert(n.carved_from(i, p));
        }
        if n.is_carved(p) {
            let i = choose|i: int| n.carved_from(i, p);
            assert(m.carved_from(i, p));
        }
    }
    assert forall|p: usize| #[trigger] n.free.contains(p) <==> m.free.contains(p) && p != b by {
        if m.free.contains(p) && p != b {
            let k = choose|k: int| 0 <= k < m.free.len() && m.free[k] == p;
            assert(n.free[k] == p);
        }
        if n.free.contains(p) {
            let k = choose|k: int| 0 <= k < n.free.len() && n.free[k] == p;
            assert(m.free[k] == p);
            assert(m.free[m.free.len() - 1] == b);
        }
    }
    if m.cursor < m.end {
        let i = choose|i: int| m.is_current(i);
        assert(n.is_current(i));
    }
    assert(n.pages() =~= m.pages());
}

/// Handing out the next slab of the current segment.
pub proof fn lemma_carved(m: MemView)
    requires
        m.wf(),
        m.cursor < m.end,
    ensures
        m.carved().wf(),
        slab_place(m.cursor),
        !m.out.contains(m.cursor),
        m.cursor + SLAB_SIZE <= usize::MAX,
        m.carved().pages() == m.pages(),
{
    let b = m.cursor;
    let n = m.carved();
    let c = choose|i: int| m.is_current(i);
    assert(fits(m.segments[c], segment_layout()));
    assert(b + SLAB_SIZE <= m.end);
    assert(!m.is_carved(b));
    assert forall|p: usize| #[trigger] n.is_carved(p) <==> m.is_carved(p) || p == b by {
        if m.is_carved(p) {
            let i = choose|i: int| m.carved_from(i, p);
            assert(n.carved_from(i, p));
        }
        if p == b {
            assert(n.carved_from(c, p));
        }
        if n.is_carved(p) && p != b {
            let i = choose|i: int| n.carved_from(i, p);
            assert(m.carved_from(i, p));
        }
    }
    if n.cursor < n.end {
        assert(n.is_current(c));
    }
    assert(n.pages() =~= m.pages());
}

/// Getting a segment to carve from.
pub proof fn lemma_installed(m: MemView, base: usize)
    requires
        m.wf(),
        m.cursor >= m.end,
        m.segments.len() < MAX_SEGMENTS,
        fits(base, segment_layout()),
        forall|i: int|
            0 <= i < m.segments.len() ==> apart(
                base as int,
                SEGMENT_SIZE as int,
                #[trigger] m.segments[i] as int,
                SEGMENT_SIZE as int,
            ),
        forall|q: usize| #[trigger]
            m.large.contains_key(q) ==> apart(
                base as int,
                SEGMENT_SIZE as int,
                q as int,
                m.large[q].size as int,
            ),
    ensures
        m.installed(base).wf(),
        m.installed(base).cursor < m.installed(base).end,
        m.installed(base).pages() == m.pages().insert(base, segment_layout()),
{
    let n = m.installed(base);
    let k = m.segments.len() as int;
    assert(n.segments[k] == base);
    assert(n.is_current(k));
    assert forall|p: usize| #[trigger] n.is_carved(p) == m.is_carved(p) by {
        if m.is_carved(p) {
            let i = choose|i: int| m.carved_from(i, p);
            assert(n.segments[i] == m.segments[i]);
            assert(n.carved_from(i, p));
        }
        if n.is_carved(p) {
            let i = choose|i: int| n.carved_from(i, p);
            assert(i < k);
            assert(n.segments[i] == m.segments[i]);
            assert(m.carved_from(i, p));
        }
    }
    assert(n.pages() =~= m.pages().insert(base, segment_layout())) by {
        assert forall|p: usize| n.segments.contains(p) <==> m.segments.contains(p) || p == base by {
            if m.segments.contains(p) {
                let i = choose|i: int| 0 <= i < k && m.segments[i] == p;
                assert(n.segments[i] == p);
            }
        }
    }
}

/// A large block is handed out apart from everything else, or comes back.
pub proof fn lemma_large(m: MemView, p: usize, layout: Layout)
    requires
        m.wf(),
    ensures
        m.without_large(p).wf(),
        m.large.contains_key(p) ==> m.without_large(p).pages() == m.pages().remove(p),
        m.large.contains_key(p) ==> m.pages().contains_key(p) && m.pages()[p] == m.large[p],
        fits(p, layout) && layout.size > 0 && (forall|i: int|
            0 <= i < m.segments.len() ==> apart(
                p as int,
                layout.size as int,
                #[trigger] m.segments[i] as int,
                SEGMENT_SIZE as int,
            )) && (forall|q: usize| #[trigger]
            m.large.contains_key(q) ==> apart(
                p as int,
                layout.size as int,
                q as int,
                m.large[q].size as int,
            )) ==> m.with_large(p, layout).wf() && m.with_large(p, layout).pages()
            == m.pages().insert(p, layout),
{
    let n = m.without_large(p);
    let w = m.with_large(p, layout);
    assert forall|q: usize| #[trigger] n.is_carved(q) == m.is_carved(q) && w.is_carved(q)
        == m.is_carved(q) by {
        if m.is_carved(q) {
            let i = choose|i: int| m.carved_from(i, q);
            assert(n.carved_from(i, q));
            assert(w.carved_from(i, q));
        }
        if n.is_carved(q) {
            let i = choose|i: int| n.carved_from(i, q);
            assert(m.carved_from(i, q));
        }
        if w.is_carved(q) {
            let i = choose|i: int| w.carved_from(i, q);
            assert(m.carved_from(i, q));
        }
    }
    assert forall|q: usize| #[trigger] w.is_carved(q) == m.is_carved(q) by {
        assert(n.is_carved(q) == m.is_carved(q));
    }
    if m.cursor < m.end {
        let i = choose|i: int| m.is_current(i);
        assert(n.is_current(i));
        assert(w.is_current(i));
    }
    if m.large.contains_key(p) {
        if m.segments.contains(p) {
            let i = choose|i: int| 0 <= i < m.segments.len() && m.segments[i] == p;
            assert(m.segments[i] == p);
        }
        assert(n.pages() =~= m.pages().remove(p));
    }
    if fits(p, layout) && layout.size > 0 && (forall|i: int|
        0 <= i < m.segments.len() ==> apart(
            p as int,
            layout.size as int,
            #[trigger] m.segments[i] as int,
            SEGMENT_SIZE as int,
        )) && (forall|q: usize| #[trigger]
        m.large.contains_key(q) ==> apart(
            p as int,
            layout.size as int,
            q as int,
            m.large[q].size as int,
        )) {
        if m.segments.contains(p) {
            let i = choose|i: int| 0 <= i < m.segments.len() && m.segments[i] == p;
            assert(m.segments[i] == p);
        }
        assert(w.pages() =~= m.pages().insert(p, layout));
    }
}

/// A slab comes back to the free list.
pub proof fn lemma_returned(m: MemView, b: usize)
    requires
        m.wf(),
        m.out.contains(b),
    ensures
        m.returned(b).wf(),
        m.returned(b).pages() == m.pages(),
        m.returned(b).segment_of(b) == m.segment_of(b),
{
    let n = m.returned(b);
    assert(!m.free.contains(b));
    assert forall|i: int, j: int| 0 <= i < j < n.free.len() implies n.free[i] != n.free[j] by {
        assert(m.free.contains(n.free[i]));
    }
    assert forall|p: usize| #[trigger] n.is_carved(p) == m.is_carved(p) by {
        if m.is_carved(p) {
            let i = choose|i: int| m.carved_from(i, p);
            assert(n.carved_from(i, p));
        }
        if n.is_carved(p) {
            let i = choose|i: int| n.carved_from(i, p);
            assert(m.carved_from(i, p));
        }
    }
    assert forall|p: usize| #[trigger] n.free.contains(p) <==> m.free.contains(p) || p == b by {
        if m.free.contains(p) {
            let k = choose|k: int| 0 <= k < m.free.len() && m.free[k] == p;
            assert(n.free[k] == p);
        }
        if p == b {
            assert(n.free[m.free.len() as int] == p);
        }
    }
    if m.cursor < m.end {
        let i = choose|i: int| m.is_current(i);
        assert(n.is_current(i));
    }
    assert(n.pages() =~= m.pages());
    lemma_segment(m, b);
    lemma_segment(n, b);
}

/// What a filter keeps.
pub proof fn lemma_filter(s: Seq<usize>, pred: spec_fn(usize) -> bool)
    ensures
        forall|p: usize| #[trigger] s.filter(pred).contains(p) <==> s.contains(p) && pred(p),
        s.no_duplicates() ==> s.filter(pred).no_duplicates(),
    decreases s.len(),
{
    reveal(Seq::filter);
    if s.len() > 0 {
        let t = s.drop_last();
        let f = t.filter(pred);
        lemma_filter(t, pred);
        assert(s =~= t.push(s.last()));
        assert forall|p: usize| s.contains(p) <==> t.contains(p) || p == s.last() by {
            if t.contains(p) {
                let k = choose|k: int| 0 <= k < t.len() && t[k] == p;
                assert(s[k] == p);
            }
            if s.contains(p) {
                let k = choose|k: int| 0 <= k < s.len() && s[k] == p;
                if k < t.len() {
                    assert(t[k] == p);
                }
            }
        }
        assert forall|p: usize| #[trigger] s.filter(pred).contains(p) <==> s.contains(p) && pred(
            p,
        ) by {
            if f.contains(p) {
                let k = choose|k: int| 0 <= k < f.len() && f[k] == p;
                assert(s.filter(pred)[k] == p);
            }
            if p == s.last() && pred(p) {
                assert(s.filter(pred)[f.len() as int] == p);
            }
            if s.filter(pred).contains(p) {
                let k = choose|k: int|
                    0 <= k < s.filter(pred).len() && s.filter(pred)[k] == p;
                if k < f.len() {
                    assert(f[k] == p);
                    assert(f.contains(p));
                }
            }
        }
        if s.no_duplicates() {
            assert(t.no_duplicates());
            assert(!t.contains(s.last()));
            assert(!f.contains(s.last()));
        }
    }
}

/// An idle segment goes back to the page allocator.
pub proof fn lemma_purged(m: MemView, i: int)
    requires
        m.wf(),
        0 <= i < m.segments.len(),
        m.is_idle(i),
    ensures
        m.purged(i).wf(),
        m.pages().contains_key(m.segments[i]),
        m.pages()[m.segments[i]] == segment_layout(),
        m.purged(i).pages() == m.pages().remove(m.segments[i]),
{
    let n = m.purged(i);
    let gone = m.segments[i];
    let last = m.segments.len() - 1;
    let keep = |p: usize| !in_segment(gone, p);
    lemma_filter(m.free, keep);
    assert forall|j: int| 0 <= j < n.segments.len() implies #[trigger] n.segments[j] == (if j == i {
        m.segments[last]
    } else {
        m.segments[j]
    }) by {}
    assert forall|p: usize| #[trigger] n.is_carved(p) <==> m.is_carved(p) && keep(p) by {
        if m.is_carved(p) && keep(p) {
            let k = choose|k: int| m.carved_from(k, p);
            let j = if k == last {
                i
            } else {
                k
            };
            assert(k != i);
            assert(n.segments[j] == m.segments[k]);
            assert(n.carved_from(j, p));
        }
        if n.is_carved(p) {
            let j = choose|j: int| n.carved_from(j, p);
            let k = if j == i {
                last
            } else {
                j
            };
            assert(n.segments[j] == m.segments[k]);
            assert(m.carved_from(k, p));
            assert(apart(
                m.segments[k] as int,
                SEGMENT_SIZE as int,
                m.segments[i] as int,
                SEGMENT_SIZE as int,
            ));
        }
    }
    if m.cursor < m.end {
        let k = choose|k: int| m.is_current(k);
        let j = if k == last {
            i
        } else {
            k
        };
        assert(k != i);
        assert(n.segments[j] == m.segments[k]);
        assert(n.is_current(j));
    }
    assert(m.segments.contains(gone));
    assert forall|p: usize| n.segments.contains(p) <==> m.segments.contains(p) && p != gone by {
        if m.segments.contains(p) && p != gone {
            let k = choose|k: int| 0 <= k < m.segments.len() && m.segments[k] == p;
            let j = if k == last {
                i
            } else {
                k
            };
            assert(n.segments[j] == p);
        }
        if n.segments.contains(p) {
            let j = choose|j: int| 0 <= j < n.segments.len() && n.segments[j] == p;
            let k = if j == i {
                last
            } else {
                j
            };
            assert(m.segments[k] == p);
            assert(m.segments[i] == gone);
        }
    }
    assert(!m.large.contains_key(gone)) by {
        if m.large.contains_key(gone) {
            assert(m.segments[i] == gone);
        }
    }
    assert(n.pages() =~= m.pages().remove(gone));
}

/// A slab comes back, with whatever follows for its segment.
pub proof fn lemma_freed(m: MemView, b: usize)
    requires
        m.wf(),
        m.out.contains(b),
    ensures
        m.freed(b).wf(),
        m.freed(b).out == m.out.remove(b),
        m.freed(b).large == m.large,
{
    lemma_returned(m, b);
    lemma_segment(m, b);
    let n = m.returned(b);
    if n.is_idle(n.segment_of(b)) {
        lemma_purged(n, n.segment_of(b));
    }
}

/// One more slab out counts for its own segment only.
pub proof fn lemma_outstanding_insert(out: Set<usize>, p: usize, segment: usize)
    requires
        out.finite(),
        !out.contains(p),
    ensures
        outstanding(out.insert(p), segment) == outstanding(out, segment) + if in_segment(
            segment,
            p,
        ) {
            1nat
        } else {
            0nat
        },
{
    let f = |q: usize| in_segment(segment, q);
    let a = out.filter(f);
    out.lemma_len_filter(f);
    if in_segment(segment, p) {
        assert(out.insert(p).filter(f) =~= a.insert(p));
    } else {
        assert(out.insert(p).filter(f) =~= a);
    }
}

/// No segment has more slabs out than it has slabs.
pub proof fn lemma_outstanding_bound(m: MemView, i: int)
    requires
        m.wf(),
        0 <= i < m.segments.len(),
    ensures
        outstanding(m.out, m.segments[i]) <= SLABS_PER_SEGMENT,
        outstanding(m.out, m.segments[i]) == 0 <==> forall|p: usize| #[trigger]
            m.out.contains(p) ==> !in_segment(m.segments[i], p),
{
    let base = m.segments[i];
    let f = |q: usize| in_segment(base, q);
    let a = m.out.filter(f);
    m.out.lemma_len_filter(f);
    let all = Seq::new(SLABS_PER_SEGMENT as nat, |k: int| (base + k * SLAB_SIZE) as usize);
    assert(fits(base, segment_layout()));
    assert forall|p: usize| a.contains(p) implies all.to_set().contains(p) by {
        lemma_segment(m, p);
        let k = (p - base) / SLAB_SIZE as int;
        assert(base + k * SLAB_SIZE == p);
        assert(all[k] == p);
    }
    vstd::seq_lib::seq_to_set_is_finite(all);
    vstd::set_lib::lemma_len_subset(a, all.to_set());
    all.lemma_cardinality_of_set();
    if a.len() == 0 {
        assert forall|p: usize| #[trigger] m.out.contains(p) implies !in_segment(base, p) by {
            if in_segment(base, p) {
                assert(a.contains(p));
                assert(a.remove(p).len() == a.len() - 1);
            }
        }
    }
    if forall|p: usize| #[trigger] m.out.contains(p) ==> !in_segment(base, p) {
        assert(a =~= Set::empty());
    }
}

/// Large blocks lie apart from each other and from the slabs that are out.
pub proof fn lemma_large_apart(m: MemView)
    requires
        m.wf(),
    ensures
        forall|p: usize, q: usize|
            #![trigger m.large.contains_key(p), m.large.contains_key(q)]
            m.large.contains_key(p) && m.large.contains_key(q) && p != q ==> apart(
                p as int,
                m.large[p].size as int,
                q as int,
                m.large[q].size as int,
            ),
        forall|b: usize, q: usize|
            #![trigger m.out.contains(b), m.large.contains_key(q)]
            m.out.contains(b) && m.large.contains_key(q) ==> apart(
                b as int,
                SLAB_SIZE as int,
                q as int,
                m.large[q].size as int,
            ),
{
    assert forall|b: usize, q: usize|
        #![trigger m.out.contains(b), m.large.contains_key(q)]
        m.out.contains(b) && m.large.contains_key(q) implies apart(
        b as int,
        SLAB_SIZE as int,
        q as int,
        m.large[q].size as int,
    ) by {
        lemma_segment(m, b);
        let i = m.segment_of(b);
        assert(apart(
            q as int,
            m.large[q].size as int,
            m.segments[i] as int,
            SEGMENT_SIZE as int,
        ));
    }
}

/// A slab that comes back takes its segment with it where that is idle.
pub proof fn lemma_freed_not_idle(m: MemView, b: usize)
    requires
        m.wf(),
        m.out.contains(b),
        forall|i: int| 0 <= i < m.segments.len() ==> !#[trigger] m.is_idle(i),
    ensures
        forall|i: int| 0 <= i < m.freed(b).segments.len() ==> !#[trigger] m.freed(b).is_idle(i),
{
    let n = m.returned(b);
    let k = m.segment_of(b);
    let last = m.segments.len() - 1;
    lemma_returned(m, b);
    lemma_segment(m, b);
    assert forall|i: int| 0 <= i < m.segments.len() && i != k implies !#[trigger] n.is_idle(i) by {
        assert(!m.is_idle(i));
        if !m.is_current(i) {
            let p = choose|p: usize| m.out.contains(p) && in_segment(m.segments[i], p);
            assert(p != b) by {
                if p == b {
                    assert(in_segment(m.segments[i], b));
                }
            }
            assert(n.out.contains(p));
        } else {
            assert(n.is_current(i));
        }
    }
    if n.is_idle(k) {
        let u = n.purged(k);
        assert forall|i: int| 0 <= i < u.segments.len() implies !#[trigger] u.is_idle(i) by {
            let j = if i == k {
                last
            } else {
                i
            };
            assert(u.segments[i] == n.segments[j]);
            assert(!n.is_idle(j));
            if n.is_current(j) {
                assert(u.is_current(i));
            } else {
                let p = choose|p: usize| n.out.contains(p) && in_segment(n.segments[j], p);
                assert(u.out.contains(p));
            }
        }
    }
}

/// A slab handed out from the free list or the current segment leaves no segment idle.
pub proof fn lemma_granted_not_idle(m: MemView)
    requires
        m.wf(),
        forall|i: int| 0 <= i < m.segments.len() ==> !#[trigger] m.is_idle(i),
    ensures
        m.free.len() > 0 ==> forall|i: int|
            0 <= i < m.segments.len() ==> !#[trigger] m.reused().is_idle(i),
        m.cursor < m.end ==> forall|i: int|
            0 <= i < m.segments.len() ==> !#[trigger] m.carved().is_idle(i),
{
    if m.free.len() > 0 {
        let n = m.reused();
        assert forall|i: int| 0 <= i < m.segments.len() implies !#[trigger] n.is_idle(i) by {
            assert(!m.is_idle(i));
            if m.is_current(i) {
                assert(n.is_current(i));
            } else {
                let p = choose|p: usize| m.out.contains(p) && in_segment(m.segments[i], p);
                assert(n.out.contains(p));
            }
        }
    }
    if m.cursor < m.end {
        let n = m.carved();
        lemma_carved(m);
        assert forall|i: int| 0 <= i < m.segments.len() implies !#[trigger] n.is_idle(i) by {
            assert(!m.is_idle(i));
            if m.is_current(i) {
                assert(n.out.contains(m.cursor));
                assert(in_segment(n.segments[i], m.cursor));
            } else {
                let p = choose|p: usize| m.out.contains(p) && in_segment(m.segments[i], p);
                assert(n.out.contains(p));
            }
        }
    }
}

/// The first slab of a new segment leaves no segment idle.
pub proof fn lemma_installed_not_idle(m: MemView, base: usize)
    requires
        m.wf(),
        m.cursor >= m.end,
        fits(base, segment_layout()),
        forall|i: int| 0 <= i < m.segments.len() ==> !#[trigger] m.is_idle(i),
    ensures
        ({
            let n = m.installed(base).carved();
            forall|i: int| 0 <= i < n.segments.len() ==> !#[trigger] n.is_idle(i)
        }),
{
    let n = m.installed(base).carved();
    assert forall|i: int| 0 <= i < n.segments.len() implies !#[trigger] n.is_idle(i) by {
        if i == m.segments.len() {
            assert(n.out.contains(base));
            assert(in_segment(n.segments[i], base));
        } else {
            assert(!m.is_idle(i));
            assert(n.segments[i] == m.segments[i]);
            let p = choose|p: usize| m.out.contains(p) && in_segment(m.segments[i], p);
            assert(n.out.contains(p));
        }
    }
}

/// The slabs of the first `k` segments that are out.
pub open spec fn out_of_first(m: MemView, k: int) -> Set<usize> {
    m.out.filter(|p: usize| exists|i: int| 0 <= i < k && in_segment(#[trigger] m.segments[i], p))
}

/// The slabs that are out, counted segment by segment.
pub proof fn lemma_outstanding_sum(m: MemView, k: int)
    requires
        m.wf(),
        0 <= k <= m.segments.len(),
    ensures
        m.segments.len() <= MAX_SEGMENTS,
        out_of_first(m, 0).len() == 0,
        out_of_first(m, m.segments.len() as int) == m.out,
        k < m.segments.len() ==> out_of_first(m, k + 1).len() == out_of_first(m, k).len()
            + outstanding(m.out, m.segments[k]),
{
    assert(out_of_first(m, 0) =~= Set::empty());
    assert(out_of_first(m, m.segments.len() as int) =~= m.out) by {
        assert forall|p: usize| m.out.contains(p) implies out_of_first(
            m,
            m.segments.len() as int,
        ).contains(p) by {
            lemma_segment(m, p);
            assert(in_segment(m.segments[m.segment_of(p)], p));
        }
    }
    if k < m.segments.len() {
        let before = out_of_first(m, k);
        let f = |p: usize| in_segment(m.segments[k], p);
        let here = m.out.filter(f);
        m.out.lemma_len_filter(f);
        m.out.lemma_len_filter(
            |p: usize| exists|i: int| 0 <= i < k && in_segment(#[trigger] m.segments[i], p),
        );
        assert(out_of_first(m, k + 1) =~= before.union(here)) by {
            assert forall|p: usize| out_of_first(m, k + 1).contains(p) implies before.union(
                here,
            ).contains(p) by {
                let i = choose|i: int|
                    0 <= i < k + 1 && in_segment(#[trigger] m.segments[i], p);
                if i < k {
                    assert(in_segment(m.segments[i], p));
                }
            }
            assert forall|p: usize| before.union(here).contains(p) implies out_of_first(
                m,
                k + 1,
            ).contains(p) by {
                if before.contains(p) {
                    let i = choose|i: int|
                        0 <= i < k && in_segment(#[trigger] m.segments[i], p);
                    assert(in_segment(m.segments[i], p));
                } else {
                    assert(in_segment(m.segments[k], p));
                }
            }
        }
        assert(before.disjoint(here)) by {
            assert forall|p: usize| !(before.contains(p) && here.contains(p)) by {
                if before.contains(p) && here.contains(p) {
                    let i = choose|i: int|
                        0 <= i < k && in_segment(#[trigger] m.segments[i], p);
                    assert(apart(
                        m.segments[i] as int,
                        SEGMENT_SIZE as int,
                        m.segments[k] as int,
                        SEGMENT_SIZE as int,
                    ));
                }
            }
        }
        vstd::set_lib::lemma_set_disjoint_lens(before, here);
    }
}

/// Segments have no more slabs out than there are slabs in them.
pub proof fn lemma_few_out(m: MemView, k: int)
    requires
        m.wf(),
        0 <= k <= m.segments.len(),
    ensures
        m.segments.len() <= MAX_SEGMENTS,
        m.out.finite(),
        out_of_first(m, k).len() <= k * SLABS_PER_SEGMENT,
        k == m.segments.len() ==> m.out.len() <= k * SLABS_PER_SEGMENT,
    decreases k,
{
    lemma_outstanding_sum(m, 0);
    if k > 0 {
        lemma_few_out(m, k - 1);
        lemma_outstanding_sum(m, k - 1);
        lemma_outstanding_bound(m, k - 1);
    }
}

/// Counts are kept modulo two to the power of 64.
pub proof fn law_counts_wrap(n: u64, by: u64)
    ensures
        raised(n) == (n + 1) % 0x1_0000_0000_0000_0000,
        raised_by(n, by as int) == (n + by) % 0x1_0000_0000_0000_0000,
        ahead(n, by) == (n - by) % 0x1_0000_0000_0000_0000,
{
}

/// The pool asks for 2 MiB at a multiple of 64 KiB, and those are the bytes of a segment.
pub proof fn law_segment_is_two_mebibytes(segment: usize, p: usize)
    ensures
        segment_layout().size == 2 * 1024 * 1024,
        segment_layout().align == 64 * 1024,
        in_segment(segment, p) <==> 0 <= p - segment < 2 * 1024 * 1024,
{
}

/// The memory of a new pool is empty.
pub proof fn law_new_pool_has_no_memory()
    ensures
        MemView::fresh().free.len() == 0,
        MemView::fresh().cursor == MemView::fresh().end,
        MemView::fresh().segments.len() == 0,
        forall|p: usize| !#[trigger] MemView::fresh().out.contains(p),
        forall|p: usize| !#[trigger] MemView::fresh().large.contains_key(p),
        MemView::fresh().segment_mmap_count == 0,
        MemView::fresh().segment_munmap_count == 0,
{
}

/// The regions that the pool has are its segments and the large blocks, each with its own layout.
pub proof fn law_pages_are_segments_and_large_blocks(m: MemView, p: usize)
    requires
        m.wf(),
    ensures
        m.pages().contains_key(p) <==> m.segments.contains(p) || m.large.contains_key(p),
        m.segments.contains(p) ==> m.pages()[p].size == 2 * 1024 * 1024 && m.pages()[p].align == 64
            * 1024,
        m.large.contains_key(p) ==> m.pages()[p] == m.large[p],
{
    lemma_segments_distinct(m);
}

/// A slab that comes back is out no more, and every other slab stays out.
///
/// Where its segment is still being carved, or has another slab out, the slab goes to the end of
/// the free list and the segments stay. Else the segment leaves, with every free slab in it and no
/// other, and is counted.
pub proof fn law_slab_comes_back(m: MemView, b: usize, i: int)
    requires
        m.wf(),
        m.out.contains(b),
        0 <= i < m.segments.len(),
        m.segments[i] <= b < m.segments[i] + 2097152,
    ensures
        ({
            let n = m.freed(b);
            let start = m.segments[i];
            let carving = start <= m.cursor < m.end && m.end == start + 2097152;
            let needed = carving || exists|p: usize| #[trigger]
                m.out.contains(p) && p != b && start <= p < start + 2097152;
            &&& forall|p: usize| #[trigger] n.out.contains(p) <==> m.out.contains(p) && p != b
            &&& n.cursor == m.cursor && n.end == m.end && n.large == m.large
                && n.segment_mmap_count == m.segment_mmap_count
            &&& needed ==> {
                &&& n.segments == m.segments
                &&& n.segment_munmap_count == m.segment_munmap_count
                &&& n.free.len() == m.free.len() + 1
                &&& n.free[m.free.len() as int] == b
                &&& forall|k: int| 0 <= k < m.free.len() ==> #[trigger] n.free[k] == m.free[k]
            }
            &&& !needed ==> {
                &&& n.segments.len() == m.segments.len() - 1
                &&& forall|g: usize| #[trigger]
                    n.segments.contains(g) <==> m.segments.contains(g) && g != start
                &&& n.segment_munmap_count == (m.segment_munmap_count + 1)
                    % 0x1_0000_0000_0000_0000
                &&& forall|p: usize| #[trigger]
                    n.free.contains(p) <==> m.free.contains(p) && !(start <= p < start + 2097152)
                &&& n.free == m.free.filter(|p: usize| !(start <= p < start + 2097152))
            }
        }),
{
    let r = m.returned(b);
    let start = m.segments[i];
    lemma_segment(m, b);
    lemma_returned(m, b);
    assert(in_segment(m.segments[i], b));
    assert(i == m.segment_of(b));
    assert(r.segment_of(b) == i);
    lemma_freed(m, b);
    lemma_segments_distinct(m);
    let n = m.freed(b);
    if r.is_idle(i) {
        let pred = |p: usize| !in_segment(r.segments[i], p);
        lemma_filter(r.free, pred);
        let outside = |p: usize| !(start <= p < start + 2097152);
        lemma_filter_same(m.free, pred, outside);
        assert(n.free == m.free.filter(outside)) by {
            reveal(Seq::filter);
            assert(r.free.drop_last() =~= m.free);
            assert(!pred(b));
        }
        assert forall|p: usize| #[trigger] n.free.contains(p) <==> m.free.contains(p) && !(start
            <= p < start + 2097152) by {
            assert(n.free == r.free.filter(pred));
            if m.free.contains(p) {
                let k = choose|k: int| 0 <= k < m.free.len() && m.free[k] == p;
                assert(r.free[k] == p);
            }
            if r.free.contains(p) && p != b {
                let k = choose|k: int| 0 <= k < r.free.len() && r.free[k] == p;
                assert(m.free[k] == p);
            }
        }
        let last = m.segments.len() - 1;
        assert forall|g: usize| #[trigger] n.segments.contains(g) <==> m.segments.contains(g) && g
            != start by {
            if m.segments.contains(g) && g != start {
                let k = choose|k: int| 0 <= k < m.segments.len() && m.segments[k] == g;
                assert(n.segments[if k == last {
                    i
                } else {
                    k
                }] == g);
            }
            if n.segments.contains(g) {
                let k = choose|k: int| 0 <= k < n.segments.len() && n.segments[k] == g;
                assert(m.segments[if k == i {
                    last
                } else {
                    k
                }] == g);
            }
        }
        assert forall|p: usize| #[trigger] m.out.contains(p) && p != b implies !(start <= p < start
            + 2097152) by {
            assert(r.out.contains(p));
        }
    } else if !r.is_current(i) {
        let p = choose|p: usize| #[trigger] r.out.contains(p) && in_segment(r.segments[i], p);
        assert(m.out.contains(p) && p != b && start <= p < start + 2097152);
    }
}

/// Filters that keep the same keep the same of a sequence.
proof fn lemma_filter_same(s: Seq<usize>, f: spec_fn(usize) -> bool, g: spec_fn(usize) -> bool)
    requires
        forall|p: usize| #[trigger] f(p) == g(p),
    ensures
        s.filter(f) == s.filter(g),
    decreases s.len(),
{
    reveal(Seq::filter);
    if s.len() > 0 {
        lemma_filter_same(s.drop_last(), f, g);
    }
}

/// Large blocks come and go one at a time, and nothing else about the memory changes.
pub proof fn law_large_block_comes_and_goes(m: MemView, p: usize, layout: Layout)
    ensures
        ({
            let n = m.with_large(p, layout);
            &&& n.large.contains_key(p) && n.large[p] == layout
            &&& forall|q: usize|
                q != p ==> (#[trigger] n.large.contains_key(q) <==> m.large.contains_key(q))
            &&& forall|q: usize|
                q != p && m.large.contains_key(q) ==> #[trigger] n.large[q] == m.large[q]
            &&& n.free == m.free && n.cursor == m.cursor && n.end == m.end && n.segments
                == m.segments && n.out == m.out && n.segment_mmap_count == m.segment_mmap_count
                && n.segment_munmap_count == m.segment_munmap_count
        }),
        ({
            let n = m.without_large(p);
            &&& !n.large.contains_key(p)
            &&& forall|q: usize|
                q != p ==> (#[trigger] n.large.contains_key(q) <==> m.large.contains_key(q))
            &&& forall|q: usize|
                q != p && m.large.contains_key(q) ==> #[trigger] n.large[q] == m.large[q]
            &&& n.free == m.free && n.cursor == m.cursor && n.end == m.end && n.segments
                == m.segments && n.out == m.out && n.segment_mmap_count == m.segment_mmap_count
                && n.segment_munmap_count == m.segment_munmap_count
        }),
        !m.large.contains_key(p) ==> m.with_large(p, layout).without_large(p) == m,
{
    if !m.large.contains_key(p) {
        assert(m.large.insert(p, layout).remove(p) =~= m.large);
    }
}

} // verus!
