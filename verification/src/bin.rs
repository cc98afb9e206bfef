//! Slabs and free cache of one size class of a heap.
//!
//! A bin has an active slab, from which blocks are handed out, and two queues of other slabs: the
//! full queue holds slabs without a free slot, the partial queue slabs with free slots. A free
//! cache holds freed slots of any slab until it is full; then they go back to their slabs in one
//! go.

use vstd::prelude::*;

use crate::bin_proof::lemma_closed_down;
use crate::bin_proof::lemma_drained_each;
use crate::bin_proof::lemma_keeps_lends;
use crate::bin_proof::lemma_keeps_trans;
use crate::bin_proof::lemma_push;
use crate::bin_proof::lemma_step_adopted;
use crate::bin_proof::lemma_step_adopted_one;
use crate::bin_proof::lemma_step_dealloced;
use crate::bin_proof::lemma_step_drained;
use crate::bin_proof::lemma_step_drained_all;
use crate::bin_proof::lemma_step_flushed;
use crate::bin_proof::lemma_step_partial;
use crate::bin_proof::lemma_step_popped;
use crate::bin_proof::lemma_step_prepared;
use crate::bin_proof::lemma_step_refreshed;
use crate::bin_proof::lemma_step_scanned;
use crate::bin_proof::lemma_step_scanned_one;
use crate::bin_proof::lemma_step_started;
use crate::bin_proof::lemma_step_uncached;
use crate::bin_state::cached_for;
use crate::bin_state::drained_count;
use crate::bin_state::drained_each;
use crate::bin_state::keeps;
use crate::bin_state::lends;
use crate::bin_state::owned;
use crate::bin_state::regains;
use crate::bin_state::released;
use crate::bin_state::released_all;
use crate::bin_state::released_count;
use crate::bin_state::run_of;
use crate::bin_state::settle;
use crate::bin_state::settled;
use crate::bin_state::settled_slabs;
use crate::bin_state::slab_started;
use crate::bin_state::slot_taken;
use crate::bin_state::without_all;
use crate::bin_state::BinView;
use crate::bin_state::State;
use crate::bin_state::CACHE_CAP;
use crate::pool::needs_segment;
use crate::pool::only_returns;
use crate::pool::taken_up;
use crate::pool::PagePool;
use crate::pool::PoolView;
use crate::segment::raise_by;
use crate::segment::raised_by;
use crate::segment::segment_layout;
use crate::slab::base_of;
use crate::slab::slab_base;
use crate::slab::Slab;
use crate::slab::SlabRef;
use crate::slab::SlabView;
use crate::sys::PageAllocator;

verus! {

/// Freed slots that have not gone back to their slabs, the last one on top.
pub struct FreeCache {
    entries: [usize; 64],
    count: u8,
}

impl FreeCache {
    /// The slots in the order they came.
    pub closed spec fn view(&self) -> Seq<usize> {
        self.entries@.take(self.count as int)
    }

    /// The count is within the capacity.
    pub closed spec fn wf(&self) -> bool {
        self.count <= CACHE_CAP
    }

    /// A cache with nothing in it.
    pub fn new() -> (r: FreeCache)
        ensures
            r.wf(),
            r@ == Seq::<usize>::empty(),
    {
        FreeCache { entries: [0;64], count: 0 }
    }

    /// Takes the slot that came last.
    pub fn pop(&mut self) -> (r: Option<usize>)
        requires
            old(self).wf(),
        ensures
            final(self).wf(),
            old(self)@.len() == 0 ==> r is None && final(self)@ == old(self)@,
            old(self)@.len() > 0 ==> r == Some(old(self)@.last()) && final(self)@ == old(
                self)@.drop_last(),
    {
        if self.count == 0 {
            return None;
        }
        self.count = self.count - 1;
        assert(self@ =~= old(self)@.drop_last());
        Some(self.entries[self.count as usize])
    }

    /// Puts a slot on top.
    pub fn push(&mut self, ptr: usize)
        requires
            old(self).wf(),
            old(self)@.len() < CACHE_CAP,
        ensures
            final(self).wf(),
            final(self)@ == old(self)@.push(ptr),
    {
        self.entries[self.count as usize] = ptr;
        self.count = self.count + 1;
        assert(self@ =~= old(self)@.push(ptr));
    }

    /// Number of slots.
    pub fn len(&self) -> (r: usize)
        requires
            self.wf(),
        ensures
            r == self@.len(),
    {
        self.count as usize
    }

    /// There is no room for another slot.
    pub fn is_full(&self) -> (r: bool)
        requires
            self.wf(),
        ensures
            r == (self@.len() >= CACHE_CAP),
    {
        self.count as usize >= CACHE_CAP
    }

    /// Takes all slots out, ordered by the slab they lie in and, within a slab, as they came.
    pub fn take_sorted(&mut self) -> (r: Vec<usize>)
        requires
            old(self).wf(),
            old(self)@.no_duplicates(),
        ensures
            final(self).wf(),
            final(self)@ == Seq::<usize>::empty(),
            by_slab(r@),
            r@.len() == old(self)@.len(),
            r@.no_duplicates(),
            forall|p: usize| #[trigger] r@.contains(p) <==> old(self)@.contains(p),
            forall|b: usize| #[trigger] run_of(r@, b) == run_of(old(self)@, b),
    {
        let n: usize = self.count as usize;
        let ghost all = self@;
        let mut sorted: Vec<usize> = Vec::new();
        let mut i: usize = 0;
        proof {
            assert(all.take(0) =~= sorted@);
        }
        while i < n
            invariant
                n == self.count,
                self.wf(),
                all == self@,
                all.no_duplicates(),
                i <= n,
                by_slab(sorted@),
                sorted@.len() == i,
                sorted@.no_duplicates(),
                forall|p: usize| #[trigger] sorted@.contains(p) <==> all.take(i as int).contains(p),
                forall|b: usize| #[trigger] run_of(sorted@, b) == run_of(all.take(i as int), b),
            decreases n - i,
        {
            let key: usize = self.entries[i];
            let mut j: usize = i;
            while j > 0 && slab_base(sorted[j - 1]) > slab_base(key)
                invariant
                    j <= i,
                    i == sorted@.len(),
                    forall|k: int| j <= k < i ==> base_of(#[trigger] sorted@[k]) > base_of(key),
                ensures
                    j <= i,
                    forall|k: int| j <= k < i ==> base_of(#[trigger] sorted@[k]) > base_of(key),
                    j > 0 ==> base_of(sorted@[j - 1]) <= base_of(key),
                decreases j,
            {
                j = j - 1;
            }
            proof {
                let before = all.take(i as int);
                assert(all.take(i + 1) =~= before.push(key));
                assert(!before.contains(key)) by {
                    if before.contains(key) {
                        let k = choose|k: int| 0 <= k < before.len() && before[k] == key;
                        assert(all[k] == all[i as int]);
                    }
                }
                lemma_insert(sorted@, j as int, key);
                lemma_push(before, key);
                assert forall|b: usize| #[trigger]
                    run_of(sorted@.insert(j as int, key), b) == run_of(all.take(i + 1), b) by {
                    assert(run_of(sorted@, b) == run_of(before, b));
                    lemma_run_push(before, key, b);
                }
            }
            sorted.insert(j, key);
            i = i + 1;
        }
        proof {
            assert(all.take(n as int) =~= all);
        }
        self.count = 0;
        assert(self@ =~= Seq::<usize>::empty());
        sorted
    }
}

/// Slots of the same slab lie next to each other, lower slabs first.
pub open spec fn by_slab(s: Seq<usize>) -> bool {
    forall|i: int, j: int|
        #![trigger s[i], s[j]]
        0 <= i < j < s.len() ==> base_of(s[i]) <= base_of(s[j])
}

/// The run of a slab in a list with one more slot.
proof fn lemma_run_push(s: Seq<usize>, key: usize, b: usize)
    ensures
        run_of(s.push(key), b) == if base_of(key) == b {
            run_of(s, b).push(key)
        } else {
            run_of(s, b)
        },
{
    reveal(Seq::filter);
    assert(s.push(key).drop_last() =~= s);
}

/// Inserting a slot behind all slots of lower slabs and of its own slab.
proof fn lemma_insert(s: Seq<usize>, j: int, key: usize)
    requires
        by_slab(s),
        0 <= j <= s.len(),
        !s.contains(key),
        s.no_duplicates(),
        forall|k: int| j <= k < s.len() ==> base_of(#[trigger] s[k]) > base_of(key),
        j > 0 ==> base_of(s[j - 1]) <= base_of(key),
    ensures
        by_slab(s.insert(j, key)),
        s.insert(j, key).no_duplicates(),
        forall|p: usize| #[trigger] s.insert(j, key).contains(p) <==> s.contains(p) || p == key,
        forall|b: usize| #[trigger]
            run_of(s.insert(j, key), b) == if base_of(key) == b {
                run_of(s, b).push(key)
            } else {
                run_of(s, b)
            },
{
    let t = s.insert(j, key);
    let low = s.take(j);
    let high = s.skip(j);
    assert(s =~= low + high);
    assert(t =~= low.push(key) + high);
    assert forall|p: usize| #[trigger] t.contains(p) <==> s.contains(p) || p == key by {
        if s.contains(p) {
            let k = choose|k: int| 0 <= k < s.len() && s[k] == p;
            assert(t[if k < j {
                k
            } else {
                k + 1
            }] == p);
        }
        if p == key {
            assert(t[j] == p);
        }
        if t.contains(p) {
            let k = choose|k: int| 0 <= k < t.len() && t[k] == p;
            if k < j {
                assert(s[k] == p);
            } else if k > j {
                assert(s[k - 1] == p);
            }
        }
    }
    assert(t.no_duplicates()) by {
        assert forall|a: int, b: int| 0 <= a < b < t.len() implies t[a] != t[b] by {
            let x = if a < j {
                a
            } else {
                a - 1
            };
            let y = if b < j {
                b
            } else {
                b - 1
            };
            if a == j {
                assert(s.contains(s[y]));
            } else if b == j {
                assert(s.contains(s[x]));
            } else {
                assert(s[x] != s[y]);
            }
        }
    }
    assert forall|b: usize| #[trigger]
        run_of(t, b) == if base_of(key) == b {
            run_of(s, b).push(key)
        } else {
            run_of(s, b)
        } by {
        let f = |p: usize| base_of(p) == b;
        Seq::filter_distributes_over_add(low, high, f);
        Seq::filter_distributes_over_add(low.push(key), high, f);
        lemma_run_push(low, key, b);
        if base_of(key) == b {
            crate::segment::lemma_filter(high, f);
            if high.filter(f).len() > 0 {
                let p = high.filter(f)[0];
                assert(high.filter(f).contains(p));
                let k = choose|k: int| 0 <= k < high.len() && high[k] == p;
                assert(s[k + j] == p);
            }
            assert(high.filter(f) =~= Seq::empty());
            assert(run_of(t, b) =~= run_of(s, b).push(key));
        }
    }
}

/// Giving slots back in part: one more slot of an own slab.
proof fn lemma_settle_own(slabs: Map<usize, SlabView>, done: Seq<usize>, e: usize, id: usize)
    requires
        slabs.contains_key(base_of(e)),
        slabs[base_of(e)].heap_id == id,
    ensures
        settled_slabs(slabs, done.push(e), id) == settled_slabs(slabs, done, id).insert(
            base_of(e),
            settled_slabs(slabs, done, id)[base_of(e)].pushed(e),
        ),
{
    let b = base_of(e);
    let next = settled_slabs(slabs, done.push(e), id);
    let was = settled_slabs(slabs, done, id);
    assert forall|q: usize| #[trigger] slabs.contains_key(q) implies next[q] == (if q == b {
        was[b].pushed(e)
    } else {
        was[q]
    }) by {
        lemma_run_push(done, e, q);
        if q == b {
            let run = run_of(done, b);
            assert(run.push(e).reverse() + slabs[b].local =~= seq![e] + (run.reverse()
                + slabs[b].local));
        }
    }
    assert(next =~= was.insert(b, was[b].pushed(e)));
}

/// Giving slots back in part: all slots of a slab that belongs to somebody else.
proof fn lemma_settle_remote(slabs: Map<usize, SlabView>, done: Seq<usize>, run: Seq<usize>, b: usize, id: usize)
    requires
        slabs.contains_key(b),
        slabs[b].heap_id != id,
        forall|i: int| 0 <= i < done.len() ==> base_of(#[trigger] done[i]) != b,
        forall|i: int| 0 <= i < run.len() ==> base_of(#[trigger] run[i]) == b,
    ensures
        settled_slabs(slabs, done + run, id) == settled_slabs(slabs, done, id).insert(
            b,
            settled_slabs(slabs, done, id)[b].chained_remote(run),
        ),
        settled_slabs(slabs, done, id)[b] == slabs[b],
{
    let next = settled_slabs(slabs, done + run, id);
    let was = settled_slabs(slabs, done, id);
    assert forall|q: usize| #[trigger] slabs.contains_key(q) implies next[q] == (if q == b {
        slabs[b].chained_remote(run)
    } else {
        was[q]
    }) && (q == b ==> was[q] == slabs[q]) by {
        let f = |p: usize| base_of(p) == q;
        Seq::filter_distributes_over_add(done, run, f);
        crate::segment::lemma_filter(done, f);
        crate::segment::lemma_filter(run, f);
        if q == b {
            lemma_filter_none(done, f);
            lemma_filter_all(run, f);
            assert(Seq::<usize>::empty() + run =~= run);
            assert(Seq::<usize>::empty() + slabs[b].remote =~= slabs[b].remote);
            assert(was[b] == slabs[b]);
        } else {
            lemma_filter_none(run, f);
            assert(done.filter(f) + Seq::<usize>::empty() =~= done.filter(f));
        }
    }
    assert(next =~= was.insert(b, slabs[b].chained_remote(run)));
}

/// A filter that nothing passes.
proof fn lemma_filter_none(s: Seq<usize>, f: spec_fn(usize) -> bool)
    requires
        forall|i: int| 0 <= i < s.len() ==> !f(#[trigger] s[i]),
    ensures
        s.filter(f) == Seq::<usize>::empty(),
{
    crate::segment::lemma_filter(s, f);
    if s.filter(f).len() > 0 {
        assert(s.filter(f).contains(s.filter(f)[0]));
    }
    assert(s.filter(f) =~= Seq::empty());
}

/// A filter that everything passes.
proof fn lemma_filter_all(s: Seq<usize>, f: spec_fn(usize) -> bool)
    requires
        forall|i: int| 0 <= i < s.len() ==> f(#[trigger] s[i]),
    ensures
        s.filter(f) == s,
    decreases s.len(),
{
    reveal(Seq::filter);
    if s.len() > 0 {
        lemma_filter_all(s.drop_last(), f);
        assert(f(s[s.len() - 1]));
        assert(s.drop_last().push(s.last()) =~= s);
    }
}

/// Which slots of a slab are out when slots have been given back in part.
proof fn lemma_settle_part(s: State, sorted: Seq<usize>, k: int, j: int, id: usize, c: int)
    requires
        s.wf(id, c),
        0 <= k <= j < sorted.len(),
        sorted.no_duplicates(),
        forall|p: usize| #[trigger] sorted.contains(p) <==> s.bin.cache.contains(p),
    ensures
        ({
            let b = base_of(sorted[j]);
            &&& s.pool.slabs.contains_key(b)
            &&& settled_slabs(s.pool.slabs, sorted.take(k), id)[b].is_out(b, sorted[j])
            &&& settled_slabs(s.pool.slabs, sorted.take(k), id)[b].heap_id
                == s.pool.slabs[b].heap_id
        }),
{
    let p = sorted[j];
    let b = base_of(p);
    let done = sorted.take(k);
    let f = |q: usize| base_of(q) == b;
    assert(sorted.contains(p));
    assert(cached_for(s.pool, id, c, p));
    assert(s.pool.cached.contains_key(p));
    crate::segment::lemma_filter(done, f);
    assert(done.no_duplicates());
    assert forall|q: usize| #[trigger] run_of(done, b).contains(q) implies s.pool.slabs[b].is_out(
        b,
        q,
    ) by {
        assert(done.contains(q));
        let m = choose|m: int| 0 <= m < done.len() && done[m] == q;
        assert(sorted[m] == q);
        assert(sorted.contains(q));
        assert(cached_for(s.pool, id, c, q));
        assert(s.pool.cached.contains_key(q));
    }
    crate::bin_proof::lemma_settled(s.pool.slabs[b], b, run_of(done, b), id);
    assert(!done.contains(p)) by {
        if done.contains(p) {
            let m = choose|m: int| 0 <= m < done.len() && done[m] == p;
            assert(sorted[m] == sorted[j]);
        }
    }
    assert(settled(s.pool.slabs[b], run_of(done, b), id).is_out(b, p));
}

/// Slabs and free cache of one size class.
pub struct Bin {
    active: Option<usize>,
    full: Vec<usize>,
    partial: Vec<usize>,
    cache: FreeCache,
    remote_frees: u64,
}

impl Bin {
    /// What is in the bin.
    pub closed spec fn view(&self) -> BinView {
        BinView {
            active: self.active,
            full: self.full@,
            partial: self.partial@,
            cache: self.cache@,
            remote_frees: self.remote_frees,
        }
    }

    /// The cache is well formed.
    pub closed spec fn inv(&self) -> bool {
        self.cache.wf()
    }

    /// The bin together with the pool.
    pub open spec fn with<P: PageAllocator>(&self, pool: &PagePool<P>) -> State {
        State { bin: self@, pool: pool@ }
    }

    /// The bin is that of class `c` of heap `id` on this pool.
    pub open spec fn wf<P: PageAllocator>(&self, pool: &PagePool<P>, id: usize, c: int) -> bool {
        self.inv() && pool.inv() && self.with(pool).wf(id, c)
    }

    /// A bin with nothing in it.
    pub fn new() -> (r: Bin)
        ensures
            r.inv(),
            r@ == BinView::empty(),
    {
        Bin {
            active: None,
            full: Vec::new(),
            partial: Vec::new(),
            cache: FreeCache::new(),
            remote_frees: 0,
        }
    }

    /// Count of the slots that others have freed and that the bin has recovered.
    pub fn remote_free_count(&self) -> (r: u64)
        ensures
            r == self@.remote_frees,
    {
        self.remote_frees
    }

    /// Drains a slab, and counts the slots that come back.
    fn drain<P: PageAllocator>(&mut self, pool: &mut PagePool<P>, b: usize)
        requires
            old(pool).inv(),
            old(pool)@.slabs.contains_key(b),
        ensures
            final(self).inv() == old(self).inv(),
            final(self)@ == old(self)@.received(old(pool)@.slabs[b]),
            final(pool).inv(),
            final(pool)@ == old(pool)@.with_slab(b, old(pool)@.slabs[b].drained()),
            final(pool).foreign() == old(pool).foreign(),
            final(pool).pages() == old(pool).pages(),
            final(pool).source() == old(pool).source(),
    {
        let count: u16 = pool.slab_drain_remote(b);
        self.remote_frees = raise_by(self.remote_frees, count as u64);
    }

    /// Whether the slot at `ptr` lies in the active slab.
    pub fn is_active(&self, ptr: usize) -> (r: bool)
        ensures
            r == (self@.active == Some(base_of(ptr))),
    {
        match self.active {
            Some(b) => b == slab_base(ptr),
            None => false,
        }
    }

    /// Number of slots in the cache.
    pub fn cache_len(&self) -> (r: usize)
        requires
            self.inv(),
        ensures
            r == self@.cache.len(),
    {
        self.cache.len()
    }

    /// Move the exhausted active slab to the full queue.
    pub fn retire_active(&mut self)
        requires
            old(self).inv(),
        ensures
            final(self).inv(),
            final(self)@ == old(self)@.retired(),
    {
        if let Some(b) = self.active.take() {
            self.full.push(b);
        }
    }

    /// Pop a slab from the partial queue and install it as the active slab.
    /// Returns true if a partial slab was available.
    pub fn try_partial(&mut self) -> (r: bool)
        requires
            old(self).inv(),
        ensures
            final(self).inv(),
            final(self)@ == old(self)@.next_partial(),
            r == (old(self)@.partial.len() > 0),
    {
        match self.partial.pop() {
            Some(b) => {
                self.active = Some(b);
                true
            },
            None => false,
        }
    }

    /// Flush the free cache, returning cached slots to their owning slabs.
    /// Own-slab entries go directly to the local free list; remote entries are
    /// chained per slab and pushed in one go. Slabs of the full queue that get
    /// a slot back move to the partial queue.
    pub fn flush_cache<P: PageAllocator>(&mut self, pool: &mut PagePool<P>, id: usize, c: usize)
        requires
            old(self).wf(old(pool), id, c as int),
        ensures
            final(self).wf(final(pool), id, c as int),
            final(self).with(final(pool)) == old(self).with(old(pool)).flushed(id),
            keeps(old(pool)@, final(pool)@, id, c as int),
            final(pool).foreign() == old(pool).foreign(),
            final(pool).source() == old(pool).source(),
    {
        let ghost s = self.with(pool);
        let ghost v = pool@;
        let ghost cache = self.cache@;
        proof {
            lemma_step_flushed(s, id, c as int);
        }
        let entries = self.cache.take_sorted();
        let n: usize = entries.len();
        if n == 0 {
            proof {
                assert(cache =~= Seq::empty());
                assert(self@ =~= s.bin);
            }
            return;
        }
        pool.note_flushed(&entries);
        proof {
            assert(without_all(v.cached, entries@) =~= without_all(v.cached, cache));
            lemma_settle_nothing(v.slabs, id);
            assert(entries@.take(0) =~= Seq::empty());
            assert(pool@.slabs =~= settled_slabs(v.slabs, entries@.take(0), id));
        }
        let mut i: usize = 0;
        while i < n
            invariant
                n == entries.len(),
                i <= n,
                s.wf(id, c as int),
                v == s.pool,
                by_slab(entries@),
                entries@.no_duplicates(),
                forall|p: usize| #[trigger] entries@.contains(p) <==> s.bin.cache.contains(p),
                pool.inv(),
                pool.foreign() == old(pool).foreign(),
                pool.source() == old(pool).source(),
                pool@ == (PoolView {
                    slabs: settled_slabs(v.slabs, entries@.take(i as int), id),
                    cached: without_all(v.cached, s.bin.cache),
                    ..v
                }),
                0 < i < n ==> base_of(entries@[i - 1]) != base_of(entries@[i as int]),
            decreases n - i,
        {
            let slab_ref = SlabRef::from_interior_ptr(entries[i]);
            let base: usize = slab_ref.base;
            let run_start: usize = i;
            i = i + 1;
            while i < n && slab_base(entries[i]) == base
                invariant
                    run_start < i <= n,
                    n == entries.len(),
                    forall|k: int| run_start <= k < i ==> base_of(#[trigger] entries@[k]) == base,
                ensures
                    run_start < i <= n,
                    forall|k: int| run_start <= k < i ==> base_of(#[trigger] entries@[k]) == base,
                    i < n ==> base_of(entries@[i as int]) != base,
                decreases n - i,
            {
                i = i + 1;
            }
            proof {
                assert(base_of(entries@[run_start as int]) == base);
                lemma_settle_part(s, entries@, run_start as int, run_start as int, id, c as int);
                assert(base_of(entries@[i - 1]) == base);
            }
            if slab_ref.heap_id(pool.slabs()) == id {
                let mut k: usize = run_start;
                while k < i
                    invariant
                        run_start <= k <= i <= n,
                        n == entries.len(),
                        s.wf(id, c as int),
                        v == s.pool,
                        entries@.no_duplicates(),
                        forall|p: usize| #[trigger]
                            entries@.contains(p) <==> s.bin.cache.contains(p),
                        pool.inv(),
                        pool.foreign() == old(pool).foreign(),
                        pool.source() == old(pool).source(),
                        pool@ == (PoolView {
                            slabs: settled_slabs(v.slabs, entries@.take(k as int), id),
                            cached: without_all(v.cached, s.bin.cache),
                            ..v
                        }),
                        v.slabs.contains_key(base),
                        v.slabs[base].heap_id == id,
                        forall|m: int|
                            run_start <= m < i ==> base_of(#[trigger] entries@[m]) == base,
                    decreases i - k,
                {
                    proof {
                        assert(base_of(entries@[k as int]) == base);
                        lemma_settle_part(s, entries@, k as int, k as int, id, c as int);
                        lemma_settle_own(v.slabs, entries@.take(k as int), entries@[k as int], id);
                        assert(entries@.take(k + 1) =~= entries@.take(k as int).push(
                            entries@[k as int],
                        ));
                    }
                    pool.slab_dealloc_local(base, entries[k]);
                    k = k + 1;
                }
            } else {
                proof {
                    let done = entries@.take(run_start as int);
                    let run = entries@.subrange(run_start as int, i as int);
                    assert forall|m: int| 0 <= m < done.len() implies base_of(#[trigger] done[m])
                        != base by {
                        assert(base_of(entries@[m]) <= base_of(entries@[run_start - 1]));
                        assert(base_of(entries@[run_start - 1]) <= base_of(
                            entries@[run_start as int],
                        ));
                    }
                    assert forall|m: int| 0 <= m < run.len() implies base_of(#[trigger] run[m])
                        == base by {
                        assert(run[m] == entries@[run_start + m]);
                    }
                    lemma_settle_remote(v.slabs, done, run, base, id);
                    assert(entries@.take(i as int) =~= done + run);
                    assert forall|m: int| run_start <= m < i implies pool@.slabs[base].is_out(
                        base,
                        #[trigger] entries@[m],
                    ) by {
                        assert(base_of(entries@[m]) == base);
                        lemma_settle_part(s, entries@, run_start as int, m, id, c as int);
                    }
                    assert(run.no_duplicates());
                }
                pool.slab_push_chain_remote(slab_ref, entries.as_slice(), run_start, i);
            }
        }
        proof {
            assert(entries@.take(i as int) =~= entries@);
            assert(settled_slabs(v.slabs, entries@, id) =~= settled_slabs(v.slabs, cache, id)) by {
                assert forall|q: usize| #[trigger] v.slabs.contains_key(q) implies run_of(
                    entries@,
                    q,
                ) == run_of(cache, q) by {}
            }
            assert(pool@ == settle(v, cache, id));
            assert forall|b: usize| #[trigger] s.bin.full.contains(b) implies v.slabs.contains_key(
                b,
            ) by {
                assert(s.bin.holds(b));
                assert(owned(v, id, c as int, b));
            }
        }
        self.promote(pool);
        if let Some(b) = self.active {
            proof {
                assert(s.bin.holds(b));
                assert(owned(v, id, c as int, b));
            }
            if pool.slab(b).has_pending_remote() {
                self.drain(pool, b);
            } else {
                proof {
                    let a = pool@.slabs[b];
                    assert(a.drained().local =~= a.local);
                    assert(a.drained().remote =~= a.remote);
                    assert(pool@.slabs.insert(b, a.drained()) =~= pool@.slabs);
                }
            }
        }
    }

    /// Walk the full queue, draining remote frees. The first partial slab found
    /// is promoted directly to the active slab. Additional partial slabs are
    /// collected in the partial queue so that subsequent allocations can pop
    /// them in O(1). Fully-free slabs are returned to the pool.
    pub fn scan_full_list<P: PageAllocator>(&mut self, pool: &mut PagePool<P>, id: usize, c: usize)
        requires
            old(self).wf(old(pool), id, c as int),
        ensures
            final(self).wf(final(pool), id, c as int),
            final(self).with(final(pool)) == old(self).with(old(pool)).scanned(),
            keeps(old(pool)@, final(pool)@, id, c as int),
            final(pool).foreign() == old(pool).foreign(),
            only_returns(old(pool), final(pool)),
    {
        let ghost s = self.with(pool);
        let mut k: usize = self.full.len();
        proof {
            lemma_step_scanned(s, s.bin.full.len() as int, id, c as int);
        }
        while k > 0
            invariant
                self.wf(pool, id, c as int),
                k <= self.full.len(),
                self.with(pool).scanned_from(k as int) == s.scanned(),
                pool.foreign() == old(pool).foreign(),
                only_returns(old(pool), pool),
            decreases k,
        {
            let ghost t = self.with(pool);
            k = k - 1;
            let b: usize = self.full[k];
            proof {
                assert(t.bin.full.contains(b));
                assert(t.bin.holds(b));
                assert(owned(t.pool, id, c as int, b));
            }
            if pool.slab(b).has_pending_remote() {
                proof {
                    lemma_step_scanned_one(t, k as int, id, c as int);
                }
                self.drain(pool, b);
                self.full.remove(k);
                if pool.slab(b).is_fully_free() {
                    pool.dealloc_slab(b);
                    proof {
                        assert(pool@ =~= t.pool.freed(b));
                    }
                } else if self.active.is_none() {
                    self.active = Some(b);
                } else {
                    self.partial.push(b);
                }
                proof {
                    assert(self.with(pool) =~= t.scanned_one(k as int));
                }
            }
        }
    }

    /// Adopts all abandoned slabs of the class, so that frees to any of them are local from now
    /// on. The first one with a free slot becomes the active slab if there is none; fully-free
    /// ones are returned to the pool.
    pub fn try_adopt<P: PageAllocator>(&mut self, pool: &mut PagePool<P>, id: usize, c: usize)
        requires
            old(self).wf(old(pool), id, c as int),
        ensures
            final(self).wf(final(pool), id, c as int),
            final(self).with(final(pool)) == old(self).with(old(pool)).adopted_all(id, c as int),
            keeps(old(pool)@, final(pool)@, id, c as int),
            final(pool).foreign() == old(pool).foreign(),
            only_returns(old(pool), final(pool)),
    {
        let ghost s = self.with(pool);
        proof {
            lemma_step_adopted(s, id, c as int, s.pool.abandoned[c as int].len());
        }
        let ghost mut left = s.pool.abandoned[c as int].len();
        loop
            invariant
                self.wf(pool, id, c as int),
                left == pool@.abandoned[c as int].len(),
                self.with(pool).adopted_n(id, c as int, left) == s.adopted_all(id, c as int),
                pool.foreign() == old(pool).foreign(),
                only_returns(old(pool), pool),
            ensures
                left == 0,
            decreases left,
        {
            let ghost t = self.with(pool);
            match pool.adopt_slab(c) {
                None => {
                    break;
                },
                Some(b) => {
                    proof {
                        lemma_step_adopted_one(t, id, c as int);
                        crate::pool::lemma_adopted_wf(t.pool, c as int);
                        left = (left - 1) as nat;
                    }
                    pool.slab_set_heap_id(b, id);
                    self.drain(pool, b);
                    if pool.slab(b).is_fully_free() {
                        pool.dealloc_slab(b);
                        proof {
                            assert(pool@ =~= t.pool.adopted(c as int).freed(b));
                        }
                    } else if pool.slab(b).free_count() == 0 {
                        self.full.push(b);
                    } else if self.active.is_none() {
                        self.active = Some(b);
                    } else {
                        self.partial.push(b);
                    }
                    proof {
                        let a = t.pool.slabs[b].owned_by(id);
                        assert(t.pool.slabs.insert(b, a).insert(b, a.drained())
                            =~= t.pool.slabs.insert(b, a.drained()));
                        assert(self.with(pool) =~= t.adopted_one(id, c as int));
                    }
                },
            }
        }
    }

    /// Gets a slab with a free slot and takes its first: an abandoned slab if there is one, else
    /// a new one from the pool.
    pub fn request_slab<P: PageAllocator>(
        &mut self,
        pool: &mut PagePool<P>,
        id: usize,
        c: usize,
    ) -> (r: Option<usize>)
        requires
            old(self).wf(old(pool), id, c as int),
            old(self)@.active is None,
        ensures
            final(self).wf(final(pool), id, c as int),
            final(pool).foreign() == old(pool).foreign(),
            ({
                let s = old(self).with(old(pool)).adopted_all(id, c as int);
                let after = final(self).with(final(pool));
                if s.bin.active is Some {
                    r == Some(s.slab().local[0]) && after == s.popped()
                } else {
                    exists|g: Option<usize>| #[trigger] slab_started(s, after, g, r, id, c as int)
                }
            }),
            old(self).with(old(pool)).adopted_all(id, c as int).pool.mem.segments.len() <= old(
                pool)@.mem.segments.len(),
            ({
                let s = old(self).with(old(pool)).adopted_all(id, c as int);
                s.bin.active is None && needs_segment(s.pool.mem) ==> exists|
                    source: &mut P,
                    given: Option<usize>,
                | #[trigger]
                    call_ensures(P::allocate, (source, segment_layout()), given) && (
                    s.pool.mem.segments.len() == old(pool)@.mem.segments.len() ==> *source == old(
                        pool).source()) && source.pages() == old(pool).foreign().union_prefer_right(
                        s.pool.mem.pages(),
                    ) && slab_started(
                        s,
                        final(self).with(final(pool)),
                        taken_up(s.pool.mem, given),
                        r,
                        id,
                        c as int,
                    ) && (given is None || r is Some ==> *final(source) == final(pool).source())
            }),
            r is None ==> keeps(old(pool)@, final(pool)@, id, c as int),
            r matches Some(p) ==> lends(old(pool)@, final(pool)@, id, c as int, p),
    {
        let ghost v = pool@;
        self.try_adopt(pool, id, c);
        let ghost s = self.with(pool);
        proof {
            lemma_step_adopted(old(self).with(old(pool)), id, c as int, v.abandoned[c as int].len());
        }
        if self.active.is_some() {
            let r = self.take_active(pool, id, c);
            proof {
                lemma_keeps_lends(v, s.pool, pool@, id, c as int, r);
            }
            return Some(r);
        }
        proof {
            pool.lemma_pages();
        }
        let granted = pool.alloc_slab();
        match granted {
            None => {
                proof {
                    assert(pool@ == s.pool);
                    assert(slab_started(s, self.with(pool), granted, None, id, c as int));
                }
                None
            },
            Some(b) => {
                let ghost u = self.with(pool);
                proof {
                    assert(!s.pool.slabs.contains_key(b));
                    lemma_granted(s, u.pool.mem, id, c as int);
                    lemma_step_started(u, b, id, c as int);
                }
                let mut slab = Slab::init(b, c as u8);
                slab.set_heap_id(id);
                pool.put_slab(slab);
                self.active = Some(b);
                let ghost t = self.with(pool);
                proof {
                    assert(t == u.started(b, id, c as int));
                }
                let r = self.take_active(pool, id, c);
                proof {
                    lemma_keeps_trans(v, s.pool, u.pool, id, c as int);
                    lemma_keeps_trans(v, u.pool, t.pool, id, c as int);
                    lemma_keeps_lends(v, t.pool, pool@, id, c as int, r);
                    assert(pool@.mem == u.pool.mem);
                    assert(slab_started(s, self.with(pool), granted, Some(r), id, c as int));
                }
                Some(r)
            },
        }
    }

    /// Takes the first free slot of the active slab.
    fn take_active<P: PageAllocator>(&mut self, pool: &mut PagePool<P>, id: usize, c: usize) -> (r:
        usize)
        requires
            old(self).wf(old(pool), id, c as int),
            old(self)@.active is Some,
            old(self).with(old(pool)).slab().local.len() > 0,
        ensures
            final(self).wf(final(pool), id, c as int),
            final(pool).foreign() == old(pool).foreign(),
            final(pool).source() == old(pool).source(),
            r == old(self).with(old(pool)).slab().local[0],
            final(self).with(final(pool)) == old(self).with(old(pool)).popped(),
            lends(old(pool)@, final(pool)@, id, c as int, r),
    {
        let ghost s = self.with(pool);
        proof {
            assert(s.bin.holds(s.bin.active->0));
            assert(owned(s.pool, id, c as int, s.bin.active->0));
            lemma_step_popped(s, id, c as int);
        }
        let b: usize = self.active.unwrap();
        pool.slab_allocate(b).unwrap()
    }

    /// Takes a slot: from the cache, else from the active slab, drained if need be, else from the
    /// partial queue, else from a slab of the full queue that others have freed into, else from an
    /// abandoned slab, else from a new slab.
    pub fn allocate<P: PageAllocator>(&mut self, pool: &mut PagePool<P>, id: usize, c: usize) -> (r:
        Option<usize>)
        requires
            old(self).wf(old(pool), id, c as int),
        ensures
            final(self).wf(final(pool), id, c as int),
            final(pool).foreign() == old(pool).foreign(),
            slot_taken(
                old(self).with(old(pool)),
                final(self).with(final(pool)),
                r,
                id,
                c as int,
            ),
            ({
                let s = old(self).with(old(pool)).prepared(id, c as int);
                old(self)@.cache.len() == 0 && s.bin.active is None && needs_segment(s.pool.mem) ==> exists|
                    source: &mut P,
                    given: Option<usize>,
                | #[trigger]
                    call_ensures(P::allocate, (source, segment_layout()), given) && (
                    s.pool.mem.segments.len() == old(pool)@.mem.segments.len() ==> *source == old(
                        pool).source()) && source.pages() == old(pool).foreign().union_prefer_right(
                        s.pool.mem.pages(),
                    ) && slab_started(
                        s,
                        final(self).with(final(pool)),
                        taken_up(s.pool.mem, given),
                        r,
                        id,
                        c as int,
                    ) && (given is None || r is Some ==> *final(source) == final(pool).source())
            }),
            r is None ==> keeps(old(pool)@, final(pool)@, id, c as int),
            r matches Some(p) ==> lends(old(pool)@, final(pool)@, id, c as int, p),
    {
        let ghost s = self.with(pool);
        if let Some(p) = self.cache.pop() {
            proof {
                lemma_step_uncached(s, id, c as int);
            }
            pool.note_uncached(p);
            return Some(p);
        }
        let ghost s1 = s.refreshed();
        proof {
            assert(self@ =~= s.bin);
            lemma_step_prepared(s, id, c as int);
            lemma_step_refreshed(s, id, c as int);
        }
        if let Some(b) = self.active {
            proof {
                assert(s.bin.holds(b));
                assert(owned(s.pool, id, c as int, b));
            }
            if pool.slab(b).free_count() > 0 {
                return Some(self.take_active(pool, id, c));
            }
            if pool.slab(b).has_pending_remote() {
                self.drain(pool, b);
                let r = self.take_active(pool, id, c);
                proof {
                    lemma_keeps_lends(s.pool, s1.pool, pool@, id, c as int, r);
                }
                return Some(r);
            }
            self.retire_active();
        }
        self.flush_cache(pool, id, c);
        let ghost s2 = s1.next_partial();
        proof {
            lemma_step_partial(s1, id, c as int);
        }
        if self.try_partial() {
            let r = self.take_active(pool, id, c);
            proof {
                lemma_keeps_lends(s.pool, s2.pool, pool@, id, c as int, r);
            }
            return Some(r);
        }
        self.scan_full_list(pool, id, c);
        let ghost s3 = s2.scanned();
        proof {
            lemma_step_scanned(s2, s2.bin.full.len() as int, id, c as int);
            lemma_keeps_trans(s.pool, s2.pool, s3.pool, id, c as int);
        }
        if self.active.is_some() {
            let r = self.take_active(pool, id, c);
            proof {
                lemma_keeps_lends(s.pool, s3.pool, pool@, id, c as int, r);
            }
            return Some(r);
        }
        let r = self.request_slab(pool, id, c);
        proof {
            if r is Some {
                lemma_keeps_lends(s.pool, s3.pool, pool@, id, c as int, r->0);
            } else {
                lemma_keeps_trans(s.pool, s3.pool, pool@, id, c as int);
            }
        }
        r
    }

    /// Frees the slot at `ptr`: into the active slab if it is a slot of that, else into the cache,
    /// which is flushed first if it is full.
    pub fn dealloc<P: PageAllocator>(
        &mut self,
        pool: &mut PagePool<P>,
        ptr: usize,
        id: usize,
        c: usize,
    )
        requires
            old(self).wf(old(pool), id, c as int),
            old(pool)@.is_lent(ptr),
            old(pool)@.slabs[base_of(ptr)].class == c,
        ensures
            final(self).wf(final(pool), id, c as int),
            final(self).with(final(pool)) == old(self).with(old(pool)).dealloced(ptr, id),
            regains(old(pool)@, final(pool)@, id, c as int, ptr),
            final(pool).foreign() == old(pool).foreign(),
    {
        proof {
            lemma_step_dealloced(self.with(pool), ptr, id, c as int);
            lemma_step_flushed(self.with(pool), id, c as int);
        }
        if let Some(b) = self.active {
            let active = SlabRef { base: b };
            if active.header_eq(&SlabRef::from_interior_ptr(ptr)) {
                pool.slab_dealloc_local(b, ptr);
                return;
            }
        }
        if self.cache.is_full() {
            self.flush_cache(pool, id, c);
        }
        self.cache.push(ptr);
        pool.note_cached(ptr, id);
    }

    /// Gives up slab `b`: drained, then returned to the pool where it is fully free, left for
    /// another heap where it is not. Returns the count `n` of slots recovered with those that came
    /// back.
    fn retire_slab<P: PageAllocator>(pool: &mut PagePool<P>, b: usize, n: u64) -> (r: u64)
        requires
            old(pool).inv(),
            old(pool)@.slabs.contains_key(b),
            old(pool)@.wf(),
        ensures
            final(pool).inv(),
            final(pool)@ == released(old(pool)@, b),
            r == raised_by(n, old(pool)@.slabs[b].remote.len() as int),
            final(pool).foreign() == old(pool).foreign(),
    {
        let ghost v = pool@;
        assert(v.slabs[b].wf(b));
        let came: u16 = pool.slab_drain_remote(b);
        if pool.slab(b).is_fully_free() {
            pool.dealloc_slab(b);
            assert(pool@ =~= v.freed(b));
        } else {
            pool.abandon_slab(b);
        }
        raise_by(n, came as u64)
    }

    /// Gives up the slabs of a queue, the one that came last first. Returns the count `n` of slots
    /// recovered with those that came back.
    fn retire_all<P: PageAllocator>(
        pool: &mut PagePool<P>,
        list: Vec<usize>,
        id: usize,
        c: usize,
        n: u64,
    ) -> (r: u64)
        requires
            old(pool).wf(),
            list@.no_duplicates(),
            forall|q: usize| #[trigger] list@.contains(q) ==> owned(old(pool)@, id, c as int, q),
        ensures
            final(pool).inv(),
            final(pool)@ == released_all(old(pool)@, list@),
            r == released_count(old(pool)@, list@, n),
            final(pool).foreign() == old(pool).foreign(),
    {
        let mut list = list;
        let ghost all = list@;
        let mut count: u64 = n;
        while list.len() > 0
            invariant
                pool.wf(),
                list@.no_duplicates(),
                forall|q: usize| #[trigger] list@.contains(q) ==> owned(pool@, id, c as int, q),
                released_all(pool@, list@) == released_all(old(pool)@, all),
                released_count(pool@, list@, count) == released_count(old(pool)@, all, n),
                pool.foreign() == old(pool).foreign(),
            decreases list.len(),
        {
            let ghost v = pool@;
            proof {
                crate::bin_proof::lemma_drop_last(list@);
                crate::bin_proof::lemma_released(v, list@.last(), id, c as int);
            }
            let b: usize = list.pop().unwrap();
            count = Self::retire_slab(pool, b, count);
        }
        count
    }

    /// Gives up the bin: flushes the cache and gives up all slabs. Returns the count of slots that
    /// others have freed and that the bin has recovered, up to its end.
    pub fn close<P: PageAllocator>(self, pool: &mut PagePool<P>, id: usize, c: usize) -> (r: u64)
        requires
            self.wf(old(pool), id, c as int),
        ensures
            final(pool).inv(),
            final(pool)@ == self.with(old(pool)).closed_down(id),
            r == self.with(old(pool)).closed_count(id),
            keeps(old(pool)@, final(pool)@, id, c as int),
            final(pool).foreign() == old(pool).foreign(),
    {
        proof {
            lemma_closed_down(self.with(pool), id, c as int);
        }
        let mut bin = self;
        bin.flush_cache(pool, id, c);
        let ghost t = bin.with(pool);
        proof {
            assert forall|q: usize| #[trigger] t.bin.holds(q) <==> owned(t.pool, id, c as int, q) by {}
        }
        let mut count: u64 = bin.remote_frees;
        if let Some(b) = bin.active {
            proof {
                assert(t.bin.holds(b));
                crate::bin_proof::lemma_released(t.pool, b, id, c as int);
            }
            count = Self::retire_slab(pool, b, count);
        }
        let ghost v1 = pool@;
        proof {
            assert forall|q: usize| #[trigger] t.bin.full.contains(q) implies owned(
                v1,
                id,
                c as int,
                q,
            ) by {
                assert(t.bin.holds(q));
            }
            crate::bin_proof::lemma_released_all(v1, t.bin.full, id, c as int);
        }
        count = Self::retire_all(pool, bin.full, id, c, count);
        proof {
            assert forall|q: usize| #[trigger] t.bin.partial.contains(q) implies owned(
                pool@,
                id,
                c as int,
                q,
            ) by {
                assert(t.bin.holds(q));
                assert(!t.bin.full.contains(q));
                assert(owned(v1, id, c as int, q));
            }
        }
        Self::retire_all(pool, bin.partial, id, c, count)
    }

    /// Flushes the cache and drains every slab of the bin; slabs of the full queue that get a slot
    /// back move to the partial queue.
    pub fn drain_remote_all<P: PageAllocator>(
        &mut self,
        pool: &mut PagePool<P>,
        id: usize,
        c: usize,
    )
        requires
            old(self).wf(old(pool), id, c as int),
        ensures
            final(self).wf(final(pool), id, c as int),
            final(self).with(final(pool)) == old(self).with(old(pool)).drained_all(id),
            keeps(old(pool)@, final(pool)@, id, c as int),
            final(pool).foreign() == old(pool).foreign(),
    {
        let ghost s = self.with(pool);
        proof {
            lemma_step_drained_all(s, id, c as int);
        }
        self.flush_cache(pool, id, c);
        proof {
            lemma_step_drained(self.with(pool), id, c as int);
        }
        if let Some(b) = self.active {
            proof {
                assert(self@.holds(b));
                assert(owned(pool@, id, c as int, b));
            }
            self.drain(pool, b);
        }
        let ghost u = self.with(pool);
        proof {
            assert(u == s.flushed(id).drained());
            assert forall|q: usize| #[trigger] u.bin.holds(q) <==> owned(u.pool, id, c as int, q) by {}
            assert forall|q: usize| #[trigger] u.bin.full.contains(q) implies owned(
                u.pool,
                id,
                c as int,
                q,
            ) by {
                assert(u.bin.holds(q));
            }
            lemma_drained_each(u.pool, u.bin.full, id, c as int);
        }
        let n: u64 = Self::drain_each(pool, &self.full, id, c, self.remote_frees);
        let ghost v1 = pool@;
        proof {
            assert forall|q: usize| #[trigger] u.bin.partial.contains(q) implies owned(
                v1,
                id,
                c as int,
                q,
            ) by {
                assert(u.bin.holds(q));
            }
            lemma_drained_each(v1, u.bin.partial, id, c as int);
        }
        self.remote_frees = Self::drain_each(pool, &self.partial, id, c, n);
        proof {
            assert forall|q: usize| #[trigger] u.bin.full.contains(q) implies pool@.slabs.contains_key(
                q,
            ) by {
                assert(u.bin.holds(q));
                assert(u.pool.slabs.contains_key(q));
                assert(pool@.slabs.dom().contains(q));
            }
        }
        self.promote(pool);
    }

    /// Drains the slabs of a queue, the one that came last first. Returns the count `n` of slots
    /// recovered with those that came back.
    fn drain_each<P: PageAllocator>(
        pool: &mut PagePool<P>,
        list: &Vec<usize>,
        id: usize,
        c: usize,
        n: u64,
    ) -> (r: u64)
        requires
            old(pool).wf(),
            forall|q: usize| #[trigger] list@.contains(q) ==> owned(old(pool)@, id, c as int, q),
        ensures
            final(pool).wf(),
            final(pool)@ == drained_each(old(pool)@, list@),
            r == drained_count(old(pool)@, list@, n),
            final(pool).foreign() == old(pool).foreign(),
    {
        let mut k: usize = list.len();
        let mut count: u64 = n;
        proof {
            assert(list@.take(k as int) =~= list@);
            lemma_drained_each(pool@, list@, id, c as int);
        }
        while k > 0
            invariant
                k <= list.len(),
                pool.inv(),
                drained_each(pool@, list@.take(k as int)) == drained_each(old(pool)@, list@),
                drained_count(pool@, list@.take(k as int), count) == drained_count(
                    old(pool)@,
                    list@,
                    n,
                ),
                pool@.slabs.dom() == old(pool)@.slabs.dom(),
                forall|q: usize| #[trigger]
                    list@.contains(q) ==> owned(old(pool)@, id, c as int, q),
                pool.foreign() == old(pool).foreign(),
            decreases k,
        {
            let ghost v = pool@;
            k = k - 1;
            let b: usize = list[k];
            proof {
                assert(list@.contains(b));
                assert(old(pool)@.slabs.dom().contains(b));
                assert(v.slabs.dom().contains(b));
                assert(list@.take(k + 1).drop_last() =~= list@.take(k as int));
                assert(list@.take(k + 1).last() == b);
            }
            let came: u16 = pool.slab_drain_remote(b);
            count = raise_by(count, came as u64);
            proof {
                assert(pool@.slabs.dom() =~= v.slabs.dom());
            }
        }
        count
    }

    /// Moves the slabs of the full queue that have a free slot to the partial queue.
    fn promote<P: PageAllocator>(&mut self, pool: &PagePool<P>)
        requires
            old(self).inv(),
            pool.inv(),
            forall|b: usize| #[trigger] old(self)@.full.contains(b) ==> pool@.slabs.contains_key(b),
        ensures
            final(self).inv(),
            final(self).with(pool) == old(self).with(pool).promoted(),
    {
        let ghost slabs = pool@.slabs;
        let ghost none = |b: usize| slabs[b].local.len() == 0;
        let ghost some = |b: usize| slabs[b].local.len() > 0;
        let mut full: Vec<usize> = Vec::new();
        let mut i: usize = 0;
        proof {
            reveal(Seq::filter);
            assert(self.full@.take(0).filter(none) =~= Seq::empty());
            assert(self.full@.take(0).filter(some) =~= Seq::empty());
            assert(self.partial@ =~= self.partial@ + Seq::<usize>::empty());
        }
        while i < self.full.len()
            invariant
                i <= self.full.len(),
                pool.inv(),
                slabs == pool@.slabs,
                self.full@ == old(self).full@,
                self.cache == old(self).cache,
                self.active == old(self).active,
                self.remote_frees == old(self).remote_frees,
                none == (|b: usize| slabs[b].local.len() == 0),
                some == (|b: usize| slabs[b].local.len() > 0),
                full@ == self.full@.take(i as int).filter(none),
                self.partial@ == old(self).partial@ + self.full@.take(i as int).filter(some),
                forall|b: usize| #[trigger] self.full@.contains(b) ==> slabs.contains_key(b),
            decreases self.full.len() - i,
        {
            let b: usize = self.full[i];
            proof {
                reveal(Seq::filter);
                assert(self.full@.take(i + 1).drop_last() =~= self.full@.take(i as int));
                assert(self.full@.contains(b));
            }
            if pool.slab(b).free_count() == 0 {
                full.push(b);
            } else {
                self.partial.push(b);
                assert(self.partial@ =~= old(self).partial@ + self.full@.take(i + 1).filter(some));
            }
            i = i + 1;
        }
        proof {
            assert(self.full@.take(i as int) =~= self.full@);
        }
        self.full = full;
    }
}

/// A slab that the pool hands out changes nothing for the bins.
proof fn lemma_granted(s: State, mem: crate::segment::MemView, id: usize, c: int)
    requires
        s.wf(id, c),
        s.pool.with_mem(mem).wf(),
        mem.large == s.pool.mem.large,
    ensures
        (State { pool: s.pool.with_mem(mem), ..s }).wf(id, c),
        keeps(s.pool, s.pool.with_mem(mem), id, c),
{
    let v = s.pool;
    let n = v.with_mem(mem);
    assert(n.lent() =~= v.lent());
    assert forall|i: usize, d: int, b: usize|
        #![trigger owned(v, i, d, b)]
        #![trigger owned(n, i, d, b)]
        owned(n, i, d, b) == owned(v, i, d, b) by {
        assert(n.is_abandoned(b) == v.is_abandoned(b));
    }
    assert forall|i: usize, d: int, q: usize|
        #![trigger cached_for(v, i, d, q)]
        #![trigger cached_for(n, i, d, q)]
        cached_for(n, i, d, q) == cached_for(v, i, d, q) by {}
    assert forall|q: usize| #[trigger] s.bin.holds(q) <==> owned(n, id, c, q) by {
        assert(owned(n, id, c, q) == owned(v, id, c, q));
    }
    assert forall|p: usize| #[trigger] s.bin.cache.contains(p) <==> cached_for(n, id, c, p) by {
        assert(cached_for(n, id, c, p) == cached_for(v, id, c, p));
    }
}

/// Giving nothing back changes nothing.
proof fn lemma_settle_nothing(slabs: Map<usize, SlabView>, id: usize)
    ensures
        settled_slabs(slabs, Seq::empty(), id) == slabs,
{
    let none = Seq::<usize>::empty();
    assert forall|q: usize| #[trigger] slabs.contains_key(q) implies settled(
        slabs[q],
        run_of(none, q),
        id,
    ) == slabs[q] by {
        reveal(Seq::filter);
        assert(run_of(none, q) =~= none);
        assert(none.reverse() + slabs[q].local =~= slabs[q].local);
        assert(none + slabs[q].remote =~= slabs[q].remote);
    }
    assert(settled_slabs(slabs, none, id) =~= slabs);
}

} // verus!
