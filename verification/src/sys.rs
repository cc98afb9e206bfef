//! OS memory abstraction.
//!
//! The [`PageAllocator`] trait decouples the page pool from the OS backend,
//! allowing tests to substitute an implementation that doesn't require
//! syscalls.

use vstd::prelude::*;

use crate::layout::next_multiple_of;
use crate::layout::round_up;
use crate::layout::Layout;

verus! {

/// The regions of `n` bytes at `p` and of `m` bytes at `q` share no byte.
pub open spec fn apart(p: int, n: int, q: int, m: int) -> bool {
    p + n <= q || q + m <= p
}

/// A region for `layout` can lie at `p`: aligned, not at zero, and within the address space.
pub open spec fn fits(p: usize, layout: Layout) -> bool {
    &&& p > 0
    &&& p % layout.align == 0
    &&& p + layout.size <= usize::MAX
}

/// Contract for a page-level memory backend.
///
/// Implementations must guarantee:
/// - Returned memory satisfies the layout (size and alignment) and overlaps
///   no region that is still allocated.
/// - Returned memory is zeroed.
///
/// `dealloc` is only called with addresses previously returned by `allocate`,
/// with the same layout.
pub trait PageAllocator: Sized {
    /// The regions that are allocated, by address.
    closed spec fn pages(&self) -> Map<usize, Layout> {
        vstd::pervasive::arbitrary()
    }

    /// Maps a region, or returns `None` where none can be had.
    fn allocate(&mut self, layout: Layout) -> (r: Option<usize>)
        requires
            layout.wf(),
            layout.size > 0,
        ensures
            r is None ==> final(self).pages() == old(self).pages(),
            r matches Some(p) ==> {
                &&& fits(p, layout)
                &&& !old(self).pages().contains_key(p)
                &&& forall|q: usize| #[trigger]
                    old(self).pages().contains_key(q) ==> apart(
                        p as int,
                        layout.size as int,
                        q as int,
                        old(self).pages()[q].size as int,
                    )
                &&& final(self).pages() == old(self).pages().insert(p, layout)
            },
    ;

    /// Unmaps the region at `ptr`.
    fn dealloc(&mut self, ptr: usize, layout: Layout)
        requires
            old(self).pages().contains_key(ptr),
            old(self).pages()[ptr] == layout,
        ensures
            final(self).pages() == old(self).pages().remove(ptr),
    ;
}

/// Arithmetic of the production backend: how much to map for a request, and which parts of the
/// mapping to unmap again so that an aligned region remains.
///
/// Maps `size + align` bytes, then trims leading and trailing excess.
pub struct MmapAllocator;

/// What to keep of a mapping and what to unmap.
#[derive(Clone, Copy, Debug, PartialEq, Eq, Structural)]
pub struct Trim {
    /// Start of the region to hand out.
    pub addr: usize,
    /// Bytes to unmap in front of it, from the start of the mapping.
    pub leading: usize,
    /// Where the excess behind the region begins.
    pub tail: usize,
    /// Bytes to unmap there.
    pub trailing: usize,
}

impl MmapAllocator {
    /// Number of bytes to map for a request.
    pub fn map_size(layout: Layout) -> (r: usize)
        requires
            layout.wf(),
            layout.size > 0,
        ensures
            r == layout.size + layout.align,
    {
        proof {
            lemma_layout_bounds(layout);
        }
        layout.size + layout.align
    }

    /// How to trim the mapping of `map_size(layout)` bytes at `raw`: the region begins at the
    /// first aligned address of the mapping.
    ///
    /// `raw` is `None` where the mapping failed; so does the request then. It also fails where the
    /// region would begin at zero.
    pub fn trim(raw: Option<usize>, layout: Layout) -> (r: Option<Trim>)
        requires
            layout.wf(),
            layout.size > 0,
            raw matches Some(a) ==> a + layout.size + layout.align <= usize::MAX,
        ensures
            r is Some <==> raw is Some && round_up(raw->0 as int, layout.align as int) > 0,
            r matches Some(t) ==> {
                &&& t.addr == round_up(raw->0 as int, layout.align as int)
                &&& t.leading == t.addr - raw->0
                &&& t.tail == t.addr + layout.size
                &&& t.trailing == raw->0 + layout.size + layout.align - t.tail
            },
    {
        match raw {
            None => None,
            Some(a) => {
                proof {
                    lemma_layout_bounds(layout);
                    crate::layout::lemma_round_up(a as int, layout.align as int);
                }
                let addr: usize = next_multiple_of(a, layout.align);
                if addr == 0 {
                    return None;
                }
                let tail: usize = addr + layout.size;
                Some(
                    Trim {
                        addr,
                        leading: addr - a,
                        tail,
                        trailing: (a + layout.size + layout.align) - tail,
                    },
                )
            },
        }
    }
}

/// The region that remains of a mapping is aligned and lies within the mapping.
pub proof fn law_trim_leaves_aligned_region(raw: usize, layout: Layout)
    requires
        layout.wf(),
        layout.size > 0,
    ensures
        ({
            let addr = round_up(raw as int, layout.align as int);
            let end = raw + layout.size + layout.align;
            &&& addr % layout.align as int == 0
            &&& raw <= addr
            &&& addr + layout.size <= end
        }),
{
    lemma_layout_bounds(layout);
    crate::layout::lemma_round_up(raw as int, layout.align as int);
}

/// A layout's size and alignment can be added.
pub proof fn lemma_layout_bounds(layout: Layout)
    requires
        layout.wf(),
        layout.size > 0,
    ensures
        layout.align > 0,
        layout.size <= isize::MAX,
        layout.align <= isize::MAX,
        layout.size + layout.align <= usize::MAX,
{
    crate::layout::lemma_round_up(layout.size as int, layout.align as int);
    let n = round_up(layout.size as int, layout.align as int);
    let m = layout.align as int;
    if n < m {
        vstd::arithmetic::div_mod::lemma_small_mod(n as nat, m as nat);
    }
}

/// Page allocator that hands out the addresses of its own range, one region after the other.
///
/// Suitable for tests where mmap syscalls are unavailable: there is no memory behind the
/// addresses, and none is used twice.
pub struct SystemAllocator {
    next: usize,
    live: Ghost<Map<usize, Layout>>,
}

impl SystemAllocator {
    /// Every region that is allocated ends before the next one begins.
    #[verifier::type_invariant]
    spec fn inv(&self) -> bool {
        &&& self.next > 0
        &&& forall|q: usize| #[trigger]
            self.live@.contains_key(q) ==> q < self.next && q + self.live@[q].size <= self.next
    }

    /// Where the next region begins, before it is aligned.
    pub closed spec fn next(&self) -> usize {
        self.next
    }

    /// An allocator with nothing allocated.
    pub fn new() -> (r: SystemAllocator)
        ensures
            r.next() == 4096,
            r.pages() == Map::<usize, Layout>::empty(),
    {
        SystemAllocator { next: 4096, live: Ghost(Map::empty()) }
    }
}

impl PageAllocator for SystemAllocator {
    closed spec fn pages(&self) -> Map<usize, Layout> {
        self.live@
    }

    fn allocate(&mut self, layout: Layout) -> (r: Option<usize>)
        ensures
            r is Some <==> old(self).next() + layout.size + layout.align <= usize::MAX,
            r matches Some(p) ==> p == round_up(old(self).next() as int, layout.align as int)
                && final(self).next() == p + layout.size,
            r is None ==> final(self).next() == old(self).next(),
    {
        proof {
            use_type_invariant(&*self);
            lemma_layout_bounds(layout);
            crate::layout::lemma_round_up(self.next as int, layout.align as int);
        }
        let span: usize = layout.size + layout.align;
        if self.next > usize::MAX - span {
            return None;
        }
        let p: usize = next_multiple_of(self.next, layout.align);
        self.next = p + layout.size;
        self.live = Ghost(self.live@.insert(p, layout));
        Some(p)
    }

    fn dealloc(&mut self, ptr: usize, layout: Layout)
        ensures
            final(self).next() == old(self).next(),
    {
        proof {
            use_type_invariant(&*self);
        }
        self.live = Ghost(self.live@.remove(ptr));
    }
}

/// Regions are apart exactly where no byte lies in both.
pub proof fn law_apart_regions_share_no_byte(p: int, n: int, q: int, m: int)
    requires
        n > 0,
        m > 0,
    ensures
        apart(p, n, q, m) <==> forall|x: int|
            #![trigger x + 0]
            !(p <= x < p + n && q <= x < q + m),
{
    if !apart(p, n, q, m) {
        let x = if p < q {
            q
        } else {
            p
        };
        assert(p <= x + 0 < p + n && q <= x < q + m);
    }
}

/// A region can lie where it is aligned, not at zero, and within the address space.
pub proof fn law_region_can_lie(p: usize, layout: Layout)
    ensures
        fits(p, layout) <==> p != 0 && p as int % layout.align as int == 0 && p + layout.size
            <= usize::MAX,
{
}

} // verus!
