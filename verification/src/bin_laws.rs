//! What holds of the slabs and the cache of one size class of one heap, step by step.

use vstd::prelude::*;

use crate::bin_proof::lemma_drop_last;
use crate::bin_proof::lemma_settle;
use crate::bin_proof::lemma_step_adopted;
use crate::bin_proof::lemma_step_adopted_one;
use crate::bin_proof::lemma_step_drained;
use crate::bin_proof::lemma_step_drained_all;
use crate::bin_proof::lemma_step_flushed;
use crate::bin_proof::lemma_step_partial;
use crate::bin_proof::lemma_step_refreshed;
use crate::bin_proof::lemma_step_scanned;
use crate::bin_proof::lemma_step_scanned_one;
use crate::bin_state::cached_for;
use crate::bin_state::drained_count;
use crate::bin_state::drained_each;
use crate::bin_state::owned;
use crate::bin_state::released;
use crate::bin_state::released_all;
use crate::bin_state::released_count;
use crate::bin_state::run_of;
use crate::bin_state::settle;
use crate::bin_state::settled;
use crate::bin_state::slab_started;
use crate::bin_state::slot_taken;
use crate::bin_state::State;
use crate::pool::PoolView;
use crate::segment::MemView;
use crate::slab::base_of;
use crate::slab::SlabView;

verus! {

/// A slot that waits in the cache is handed out before any other: the one that came last. It leaves
/// the cache, and nothing else changes.
pub proof fn law_cache_is_served_first(
    s: State,
    after: State,
    r: Option<usize>,
    id: usize,
    c: int,
)
    requires
        slot_taken(s, after, r, id, c),
        s.bin.cache.len() > 0,
    ensures
        r == Some(s.bin.cache[s.bin.cache.len() - 1]),
        after.bin.cache.len() == s.bin.cache.len() - 1,
        forall|k: int|
            0 <= k < after.bin.cache.len() ==> #[trigger] after.bin.cache[k] == s.bin.cache[k],
        after.bin.active == s.bin.active,
        after.bin.full == s.bin.full,
        after.bin.partial == s.bin.partial,
        after.bin.remote_frees == s.bin.remote_frees,
        after.pool.mem == s.pool.mem,
        after.pool.slabs == s.pool.slabs,
        after.pool.abandoned == s.pool.abandoned,
        !after.pool.cached.contains_key(r->0),
        forall|p: usize|
            Some(p) != r ==> (#[trigger] after.pool.cached.contains_key(p)
                <==> s.pool.cached.contains_key(p)),
{
}

/// With an empty cache, the active slab serves from the front of its local list as long as that
/// holds a slot. Nothing else changes.
pub proof fn law_active_slab_serves_next(
    s: State,
    after: State,
    r: Option<usize>,
    id: usize,
    c: int,
)
    requires
        slot_taken(s, after, r, id, c),
        s.bin.cache.len() == 0,
        s.bin.active is Some,
        s.pool.slabs[s.bin.active->0].local.len() > 0,
    ensures
        ({
            let b = s.bin.active->0;
            &&& r == Some(s.pool.slabs[b].local[0])
            &&& after.bin == s.bin
            &&& after.pool.slabs[b].local.len() == s.pool.slabs[b].local.len() - 1
            &&& forall|k: int|
                0 <= k < after.pool.slabs[b].local.len() ==> #[trigger] after.pool.slabs[b].local[k]
                    == s.pool.slabs[b].local[k + 1]
            &&& after.pool.slabs[b].remote == s.pool.slabs[b].remote
            &&& forall|q: usize|
                q != b && s.pool.slabs.contains_key(q) ==> #[trigger] after.pool.slabs[q]
                    == s.pool.slabs[q]
            &&& after.pool.mem == s.pool.mem
            &&& after.pool.abandoned == s.pool.abandoned
            &&& after.pool.cached == s.pool.cached
        }),
{
}

/// An active slab without a local slot serves the slot at the end of its remote list, if it has
/// one; the other slots of that list become local, and all are counted.
pub proof fn law_remote_frees_serve_next(
    s: State,
    after: State,
    r: Option<usize>,
    id: usize,
    c: int,
)
    requires
        slot_taken(s, after, r, id, c),
        s.bin.cache.len() == 0,
        s.bin.active is Some,
        s.pool.slabs[s.bin.active->0].local.len() == 0,
        s.pool.slabs[s.bin.active->0].remote.len() > 0,
    ensures
        ({
            let b = s.bin.active->0;
            let n = s.pool.slabs[b].remote.len();
            &&& r == Some(s.pool.slabs[b].remote[n - 1])
            &&& after.bin.active == Some(b)
            &&& after.pool.slabs[b].remote.len() == 0
            &&& after.pool.slabs[b].local.len() == n - 1
            &&& forall|k: int|
                0 <= k < n - 1 ==> #[trigger] after.pool.slabs[b].local[k]
                    == s.pool.slabs[b].remote[n - 2 - k]
            &&& n <= u64::MAX ==> after.bin.remote_frees == (s.bin.remote_frees + n)
                % 0x1_0000_0000_0000_0000
            &&& after.bin.full == s.bin.full
            &&& after.bin.partial == s.bin.partial
            &&& after.pool.mem == s.pool.mem
            &&& after.pool.abandoned == s.pool.abandoned
            &&& forall|q: usize|
                q != b && s.pool.slabs.contains_key(q) ==> #[trigger] after.pool.slabs[q]
                    == s.pool.slabs[q]
        }),
{
}

/// Where the active slab has nothing left, or there is none, the last slab of the partial queue
/// becomes active and serves; a slab that has nothing left goes to the end of the full queue.
pub proof fn law_partial_slab_serves_next(
    s: State,
    after: State,
    r: Option<usize>,
    id: usize,
    c: int,
)
    requires
        slot_taken(s, after, r, id, c),
        s.bin.cache.len() == 0,
        s.bin.active matches Some(b) ==> s.pool.slabs[b].local.len() == 0
            && s.pool.slabs[b].remote.len() == 0,
        s.bin.partial.len() > 0,
    ensures
        ({
            let b = s.bin.partial[s.bin.partial.len() - 1];
            &&& r == Some(s.pool.slabs[b].local[0])
            &&& after.bin.active == Some(b)
            &&& after.bin.partial.len() == s.bin.partial.len() - 1
            &&& forall|k: int|
                0 <= k < after.bin.partial.len() ==> #[trigger] after.bin.partial[k]
                    == s.bin.partial[k]
            &&& s.bin.active is None ==> after.bin.full == s.bin.full
            &&& s.bin.active matches Some(a) ==> after.bin.full.len() == s.bin.full.len() + 1
                && after.bin.full[s.bin.full.len() as int] == a && forall|k: int|
                0 <= k < s.bin.full.len() ==> #[trigger] after.bin.full[k] == s.bin.full[k]
            &&& after.pool.mem == s.pool.mem
            &&& after.pool.abandoned == s.pool.abandoned
            &&& forall|q: usize|
                q != b && s.pool.slabs.contains_key(q) ==> #[trigger] after.pool.slabs[q]
                    == s.pool.slabs[q]
        }),
{
}

/// Slabs have at most come back to the pool: what is left of the current segment is the same, and
/// as long as no segment has gone back, no fewer slabs are free.
spec fn only_gains(m: MemView, n: MemView) -> bool {
    &&& n.cursor == m.cursor
    &&& n.end == m.end
    &&& n.segments.len() <= m.segments.len()
    &&& n.segments.len() == m.segments.len() ==> n.free.len() >= m.free.len()
}

/// What scanning and adopting leave alone: the slabs that wait to be adopted and those of nobody
/// else.
spec fn waiting_same(s: State, t: State, id: usize, c: int) -> bool {
    &&& t.pool.abandoned == s.pool.abandoned
    &&& forall|q: usize| #[trigger]
        s.pool.abandoned[c].contains(q) ==> t.pool.slabs[q] == s.pool.slabs[q]
}

/// A slab that comes back.
proof fn lemma_freed_gains(m: MemView, b: usize)
    requires
        m.wf(),
        m.out.contains(b),
    ensures
        only_gains(m, m.freed(b)),
{
    crate::segment::lemma_segment(m, b);
    crate::segment::lemma_returned(m, b);
}

/// Scanning one slab.
proof fn lemma_scan_one_keeps(s: State, i: int, id: usize, c: int)
    requires
        s.wf(id, c),
        0 <= i < s.bin.full.len(),
        s.pool.slabs[s.bin.full[i]].remote.len() > 0,
    ensures
        only_gains(s.pool.mem, s.scanned_one(i).pool.mem),
        waiting_same(s, s.scanned_one(i), id, c),
{
    let b = s.bin.full[i];
    assert(s.bin.full.contains(b));
    assert(s.bin.holds(b));
    assert(owned(s.pool, id, c, b));
    lemma_freed_gains(s.pool.mem, b);
}

/// Scanning the full queue.
proof fn lemma_scan_keeps(s: State, k: int, id: usize, c: int)
    requires
        s.wf(id, c),
        0 <= k <= s.bin.full.len(),
    ensures
        only_gains(s.pool.mem, s.scanned_from(k).pool.mem),
        waiting_same(s, s.scanned_from(k), id, c),
    decreases k,
{
    if k > 0 {
        if s.pool.slabs[s.bin.full[k - 1]].remote.len() == 0 {
            lemma_scan_keeps(s, k - 1, id, c);
        } else {
            let t = s.scanned_one(k - 1);
            lemma_step_scanned_one(s, k - 1, id, c);
            lemma_scan_one_keeps(s, k - 1, id, c);
            lemma_scan_keeps(t, k - 1, id, c);
        }
    }
}

/// Scanning finds a slab that others have freed slots of, unless all its slots are free.
proof fn lemma_scan_finds(s: State, k: int, i: int, id: usize, c: int)
    requires
        s.wf(id, c),
        s.bin.active is None,
        0 <= i < k <= s.bin.full.len(),
        s.pool.slabs[s.bin.full[i]].remote.len() > 0,
        !s.pool.slabs[s.bin.full[i]].drained().is_fully_free(),
    ensures
        s.scanned_from(k).bin.active is Some,
    decreases k,
{
    let b = s.bin.full[i];
    let q = s.bin.full[k - 1];
    if s.pool.slabs[q].remote.len() == 0 {
        lemma_scan_finds(s, k - 1, i, id, c);
    } else {
        let t = s.scanned_one(k - 1);
        lemma_step_scanned_one(s, k - 1, id, c);
        lemma_step_scanned(t, k - 1, id, c);
        if t.bin.active is None {
            assert(i < k - 1);
            assert(t.bin.full[i] == b);
            assert(b != q);
            assert(s.bin.full.contains(b));
            assert(s.bin.holds(b));
            assert(owned(s.pool, id, c, b));
            assert(t.pool.slabs[b] == s.pool.slabs[b]);
            lemma_scan_finds(t, k - 1, i, id, c);
        }
    }
}

/// Adopting slabs gives none away.
proof fn lemma_adopt_keeps(s: State, id: usize, c: int, n: nat)
    requires
        s.wf(id, c),
        n <= s.pool.abandoned[c].len(),
    ensures
        only_gains(s.pool.mem, s.adopted_n(id, c, n).pool.mem),
    decreases n,
{
    if n > 0 {
        let t = s.adopted_one(id, c);
        let b = s.pool.abandoned[c].last();
        assert(s.pool.abandoned[c].contains(b));
        assert(s.pool.slabs.contains_key(b));
        lemma_step_adopted_one(s, id, c);
        lemma_freed_gains(s.pool.mem, b);
        lemma_adopt_keeps(t, id, c, (n - 1) as nat);
    }
}

/// Adopting finds a slab with a free slot, unless all its slots are free.
proof fn lemma_adopt_finds(s: State, id: usize, c: int, n: nat, i: int)
    requires
        s.wf(id, c),
        s.bin.active is None,
        n <= s.pool.abandoned[c].len(),
        s.pool.abandoned[c].len() - n <= i < s.pool.abandoned[c].len(),
        s.pool.slabs[s.pool.abandoned[c][i]].drained().local.len() > 0,
        !s.pool.slabs[s.pool.abandoned[c][i]].drained().is_fully_free(),
    ensures
        s.adopted_n(id, c, n).bin.active is Some,
    decreases n,
{
    let list = s.pool.abandoned[c];
    let b = list[i];
    let q = list.last();
    let t = s.adopted_one(id, c);
    lemma_step_adopted_one(s, id, c);
    lemma_step_adopted(t, id, c, (n - 1) as nat);
    if t.bin.active is None {
        assert(i < list.len() - 1);
        assert(t.pool.abandoned[c][i] == b);
        assert(b != q);
        assert(list.contains(b));
        assert(s.pool.slabs.contains_key(b));
        assert(t.pool.slabs[b] == s.pool.slabs[b]);
        lemma_adopt_finds(t, id, c, (n - 1) as nat, i);
    }
}

/// A request is served wherever the heap or the pool has something to serve it with: a slot in the
/// cache, a free slot in the active slab or in one of the partial queue, a slot that others have
/// freed in a slab of the full queue that is not wholly free, a free slot in such a slab that has
/// been abandoned, or a slab of the current segment that has not been handed out.
///
/// A slab on the free list serves too, unless it went back together with its segment, which a slab
/// that came back wholly free has left without use.
pub proof fn law_request_is_served(s: State, after: State, r: Option<usize>, id: usize, c: int)
    requires
        s.wf(id, c),
        slot_taken(s, after, r, id, c),
    ensures
        s.bin.cache.len() > 0 ==> r is Some,
        s.bin.active matches Some(b) ==> (s.pool.slabs[b].local.len() > 0
            || s.pool.slabs[b].remote.len() > 0 ==> r is Some),
        s.bin.partial.len() > 0 ==> r is Some,
        forall|i: int, p: usize|
            #![trigger s.bin.full[i], s.pool.slabs[s.bin.full[i]].is_out(s.bin.full[i], p)]
            0 <= i < s.bin.full.len() && s.pool.slabs[s.bin.full[i]].remote.len() > 0
                && s.pool.slabs[s.bin.full[i]].is_out(s.bin.full[i], p) ==> r is Some,
        forall|b: usize, p: usize|
            #![trigger s.pool.abandoned[c].contains(b), s.pool.slabs[b].is_out(b, p)]
            s.pool.abandoned[c].contains(b) && s.pool.slabs[b].local.len()
                + s.pool.slabs[b].remote.len() > 0 && s.pool.slabs[b].is_out(b, p) ==> r is Some,
        s.pool.mem.cursor < s.pool.mem.end ==> r is Some,
        s.pool.mem.free.len() > 0 && after.pool.mem.segments.len() == s.pool.mem.segments.len()
            ==> r is Some,
        r is None ==> after.pool.mem.free.len() == 0 && after.pool.mem.cursor
            >= after.pool.mem.end,
{
    let s1 = s.refreshed();
    let s2 = s1.next_partial();
    let s3 = s2.scanned();
    let n = s.prepared(id, c);
    lemma_step_refreshed(s, id, c);
    if s1.bin.active is None {
        lemma_step_partial(s1, id, c);
        if s2.bin.active is None {
            let k = s2.bin.full.len() as int;
            lemma_step_scanned(s2, k, id, c);
            lemma_scan_keeps(s2, k, id, c);
            assert forall|i: int, p: usize|
                #![trigger s.bin.full[i], s.pool.slabs[s.bin.full[i]].is_out(s.bin.full[i], p)]
                0 <= i < s.bin.full.len() && s.pool.slabs[s.bin.full[i]].remote.len() > 0
                    && s.pool.slabs[s.bin.full[i]].is_out(s.bin.full[i], p) implies s3.bin.active
                is Some by {
                let b = s.bin.full[i];
                assert(s2.bin.full[i] == b);
                assert(s2.pool == s.pool);
                assert(s.bin.full.contains(b));
                assert(s.bin.holds(b));
                assert(owned(s.pool, id, c, b));
                lemma_not_wholly_free(s, b, p);
                lemma_scan_finds(s2, k, i, id, c);
            }
            if s3.bin.active is None {
                let m = s3.pool.abandoned[c].len();
                lemma_step_adopted(s3, id, c, m);
                lemma_adopt_keeps(s3, id, c, m);
                assert forall|b: usize, p: usize|
                    #![trigger s.pool.abandoned[c].contains(b), s.pool.slabs[b].is_out(b, p)]
                    s.pool.abandoned[c].contains(b) && s.pool.slabs[b].local.len()
                        + s.pool.slabs[b].remote.len() > 0 && s.pool.slabs[b].is_out(
                        b,
                        p,
                    ) implies n.bin.active is Some by {
                    let i = choose|i: int|
                        0 <= i < s.pool.abandoned[c].len() && s.pool.abandoned[c][i] == b;
                    assert(s2.pool == s.pool);
                    assert(s3.pool.slabs[b] == s.pool.slabs[b]);
                    assert(s.pool.slabs.contains_key(b));
                    lemma_not_wholly_free(s, b, p);
                    lemma_adopt_finds(s3, id, c, m, i);
                }
            }
        }
    }
}

/// A slab with a slot that is out is not wholly free once it has been drained.
proof fn lemma_not_wholly_free(s: State, b: usize, p: usize)
    requires
        s.pool.wf(),
        s.pool.slabs.contains_key(b),
        s.pool.slabs[b].is_out(b, p),
    ensures
        !s.pool.slabs[b].drained().is_fully_free(),
        s.pool.slabs[b].drained().local.len() == s.pool.slabs[b].local.len()
            + s.pool.slabs[b].remote.len(),
{
    let t = s.pool.slabs[b];
    crate::slab::law_drain_keeps_each_slot_once(t, b);
    crate::slab::law_fully_free_iff_none_out(t.drained(), b);
    assert(t.drained().is_out(b, p));
}

/// Where the pool hands out a slab, its first slot serves the request, and the slab is the active
/// one from then on, with its other slots free and the heap as its owner.
pub proof fn law_new_slab_serves(
    s: State,
    after: State,
    b: usize,
    r: Option<usize>,
    id: usize,
    c: int,
)
    requires
        0 <= c < 49,
        crate::slab::slab_place(b),
        slab_started(s, after, Some(b), r, id, c),
    ensures
        r == Some((b + crate::slab::slots_start(c)) as usize),
        after.bin.active == Some(b),
        after.bin.full == s.bin.full,
        after.bin.partial == s.bin.partial,
        after.bin.cache == s.bin.cache,
        after.bin.remote_frees == s.bin.remote_frees,
        after.pool.slabs[b].heap_id == id,
        after.pool.slabs[b].class == c,
        after.pool.slabs[b].remote.len() == 0,
        after.pool.slabs[b].local.len() == crate::slab::slots_in(c) - 1,
        forall|p: usize| #[trigger]
            after.pool.slabs[b].is_out(b, p) <==> p == b + crate::slab::slots_start(c),
        forall|q: usize|
            q != b && s.pool.slabs.contains_key(q) ==> #[trigger] after.pool.slabs[q]
                == s.pool.slabs[q],
        after.pool.abandoned == s.pool.abandoned,
        after.pool.cached == s.pool.cached,
{
    let f = crate::slab::fresh_slab(b, c);
    let t = after.pool.slabs[b];
    crate::slab::lemma_geometry(c);
    crate::slab::lemma_all_slots(b, c);
    crate::slab::law_new_slab_is_all_free(b, c);
    let first = f.local[0];
    assert(0 * crate::size_class::class_bytes(c) == 0) by (nonlinear_arith);
    assert(first == b + crate::slab::slots_start(c));
    assert(t.local =~= f.local.skip(1));
    assert forall|p: usize| #[trigger] t.is_out(b, p) <==> p == first by {
        if crate::slab::is_slot(b, c, p) {
            assert(!f.is_out(b, p));
            let k = choose|k: int| 0 <= k < f.local.len() && f.local[k] == p;
            if k > 0 {
                assert(t.local[k - 1] == p);
                assert(p != first);
            } else if t.local.contains(p) {
                let j = choose|j: int| 0 <= j < t.local.len() && t.local[j] == p;
                assert(f.local[j + 1] == p);
            }
        }
        if p == first {
            assert(crate::slab::is_slot(b, c, f.local[0]));
            assert(!t.local.contains(p)) by {
                if t.local.contains(p) {
                    let j = choose|j: int| 0 <= j < t.local.len() && t.local[j] == p;
                    assert(f.local[j + 1] == p);
                }
            }
        }
    }
}

/// A freed block of the active slab goes to the front of its local list; nothing else changes.
pub proof fn law_free_into_active_slab(s: State, p: usize, id: usize)
    requires
        s.bin.active == Some(base_of(p)),
    ensures
        ({
            let n = s.dealloced(p, id);
            let b = base_of(p);
            &&& n.bin == s.bin
            &&& n.pool.slabs[b].local.len() == s.pool.slabs[b].local.len() + 1
            &&& n.pool.slabs[b].local[0] == p
            &&& forall|k: int|
                0 <= k < s.pool.slabs[b].local.len() ==> #[trigger] s.pool.slabs[b].local[k]
                    == n.pool.slabs[b].local[k + 1]
            &&& n.pool.slabs[b].remote == s.pool.slabs[b].remote
            &&& n.pool.slabs[b].heap_id == s.pool.slabs[b].heap_id
            &&& n.pool.slabs[b].class == s.pool.slabs[b].class
            &&& forall|q: usize|
                q != b && s.pool.slabs.contains_key(q) ==> #[trigger] n.pool.slabs[q]
                    == s.pool.slabs[q]
            &&& n.pool.mem == s.pool.mem
            &&& n.pool.abandoned == s.pool.abandoned
            &&& n.pool.cached == s.pool.cached
        }),
{
}

/// A freed block of another slab goes to the end of the cache, which holds up to 64 of them;
/// nothing else changes.
pub proof fn law_free_into_cache(s: State, p: usize, id: usize)
    requires
        s.bin.active != Some(base_of(p)),
        s.bin.cache.len() < 64,
    ensures
        ({
            let n = s.dealloced(p, id);
            &&& n.bin.cache.len() == s.bin.cache.len() + 1
            &&& n.bin.cache[s.bin.cache.len() as int] == p
            &&& forall|k: int|
                0 <= k < s.bin.cache.len() ==> #[trigger] n.bin.cache[k] == s.bin.cache[k]
            &&& n.bin.active == s.bin.active
            &&& n.bin.full == s.bin.full
            &&& n.bin.partial == s.bin.partial
            &&& n.bin.remote_frees == s.bin.remote_frees
            &&& n.pool.slabs == s.pool.slabs
            &&& n.pool.mem == s.pool.mem
            &&& n.pool.abandoned == s.pool.abandoned
            &&& n.pool.cached.contains_key(p) && n.pool.cached[p] == id
            &&& forall|q: usize|
                q != p ==> (#[trigger] n.pool.cached.contains_key(q)
                    <==> s.pool.cached.contains_key(q))
        }),
{
}

/// A full cache is flushed first, and then holds the freed block alone.
pub proof fn law_free_into_full_cache(s: State, p: usize, id: usize, c: int)
    requires
        s.wf(id, c),
        s.bin.active != Some(base_of(p)),
        s.bin.cache.len() >= 64,
    ensures
        ({
            let n = s.dealloced(p, id);
            let f = s.flushed(id);
            &&& n.bin.cache.len() == 1
            &&& n.bin.cache[0] == p
            &&& n.bin.active == f.bin.active
            &&& n.bin.full == f.bin.full
            &&& n.bin.partial == f.bin.partial
            &&& n.bin.remote_frees == f.bin.remote_frees
            &&& n.pool.slabs == f.pool.slabs
            &&& n.pool.mem == f.pool.mem
            &&& n.pool.abandoned == f.pool.abandoned
            &&& n.pool.cached.contains_key(p) && n.pool.cached[p] == id
            &&& forall|q: usize|
                q != p ==> (#[trigger] n.pool.cached.contains_key(q)
                    <==> f.pool.cached.contains_key(q))
        }),
{
    lemma_step_flushed(s, id, c);
}

/// Slots that go back to a slab: to the front of the local list of a slab of the same heap, in the
/// reverse of their order; before the remote list of another one, in their order.
proof fn lemma_settled_lists(t: SlabView, run: Seq<usize>, id: usize)
    ensures
        settled(t, run, id).class == t.class,
        settled(t, run, id).heap_id == t.heap_id,
        t.heap_id != id ==> settled(t, run, id).local == t.local,
        t.heap_id == id ==> settled(t, run, id).remote == t.remote,
        t.heap_id == id ==> forall|p: usize| #[trigger]
            settled(t, run, id).local.contains(p) <==> run.contains(p) || t.local.contains(p),
        t.heap_id != id ==> forall|p: usize| #[trigger]
            settled(t, run, id).remote.contains(p) <==> run.contains(p) || t.remote.contains(p),
{
    let n = run.len() as int;
    let l = settled(t, run, id).local;
    let r = settled(t, run, id).remote;
    if t.heap_id == id {
        assert forall|p: usize| #[trigger] l.contains(p) <==> run.contains(p) || t.local.contains(
            p,
        ) by {
            if run.contains(p) {
                let k = choose|k: int| 0 <= k < n && run[k] == p;
                assert(l[n - 1 - k] == p);
            }
            if t.local.contains(p) {
                let k = choose|k: int| 0 <= k < t.local.len() && t.local[k] == p;
                assert(l[n + k] == p);
            }
            if l.contains(p) {
                let k = choose|k: int| 0 <= k < l.len() && l[k] == p;
                if k < n {
                    assert(run[n - 1 - k] == p);
                } else {
                    assert(t.local[k - n] == p);
                }
            }
        }
    } else {
        assert forall|p: usize| #[trigger] r.contains(p) <==> run.contains(p) || t.remote.contains(
            p,
        ) by {
            if run.contains(p) {
                let k = choose|k: int| 0 <= k < n && run[k] == p;
                assert(r[k] == p);
            }
            if t.remote.contains(p) {
                let k = choose|k: int| 0 <= k < t.remote.len() && t.remote[k] == p;
                assert(r[n + k] == p);
            }
            if r.contains(p) {
                let k = choose|k: int| 0 <= k < r.len() && r[k] == p;
                if k < n {
                    assert(run[k] == p);
                } else {
                    assert(t.remote[k - n] == p);
                }
            }
        }
    }
}

/// Flushing the cache empties it and gives every slot back to its slab: to the local list where the
/// slab is the heap's own, to the remote list where it is not. No other slot moves between being
/// free and being out, and no slab comes, goes or changes hands.
pub proof fn law_flush_gives_slots_back(s: State, id: usize, c: int)
    requires
        s.wf(id, c),
    ensures
        ({
            let n = s.flushed(id);
            &&& n.bin.cache.len() == 0
            &&& n.bin.active == s.bin.active
            &&& forall|b: usize| #[trigger] n.bin.holds(b) <==> s.bin.holds(b)
            &&& n.pool.mem == s.pool.mem
            &&& n.pool.abandoned == s.pool.abandoned
            &&& n.pool.abandon_count == s.pool.abandon_count
            &&& n.pool.adopt_count == s.pool.adopt_count
            &&& forall|p: usize| #[trigger]
                n.pool.cached.contains_key(p) <==> s.pool.cached.contains_key(p)
                    && !s.bin.cache.contains(p)
            &&& forall|b: usize| #[trigger]
                n.pool.slabs.contains_key(b) <==> s.pool.slabs.contains_key(b)
            &&& forall|b: usize| #[trigger]
                s.pool.slabs.contains_key(b) ==> n.pool.slabs[b].heap_id == s.pool.slabs[b].heap_id
                    && n.pool.slabs[b].class == s.pool.slabs[b].class
            &&& forall|b: usize, p: usize|
                #![trigger n.pool.slabs[b].local.contains(p)]
                s.pool.slabs.contains_key(b) && s.pool.slabs[b].heap_id == id && s.bin.active
                    != Some(b) ==> (n.pool.slabs[b].local.contains(p)
                    <==> s.pool.slabs[b].local.contains(p) || (s.bin.cache.contains(p)
                    && base_of(p) == b))
            &&& forall|b: usize|
                #![trigger n.pool.slabs[b].remote]
                s.pool.slabs.contains_key(b) && s.pool.slabs[b].heap_id == id && s.bin.active
                    != Some(b) ==> n.pool.slabs[b].remote == s.pool.slabs[b].remote
            &&& forall|b: usize, p: usize|
                #![trigger n.pool.slabs[b].remote.contains(p)]
                s.pool.slabs.contains_key(b) && s.pool.slabs[b].heap_id != id ==> (
                n.pool.slabs[b].remote.contains(p) <==> s.pool.slabs[b].remote.contains(p) || (
                s.bin.cache.contains(p) && base_of(p) == b))
            &&& forall|b: usize|
                #![trigger n.pool.slabs[b].local]
                s.pool.slabs.contains_key(b) && s.pool.slabs[b].heap_id != id
                    ==> n.pool.slabs[b].local == s.pool.slabs[b].local
            &&& s.bin.active matches Some(b) ==> forall|p: usize|
                #![trigger n.pool.slabs[b].local.contains(p)]
                (n.pool.slabs[b].local.contains(p) || n.pool.slabs[b].remote.contains(p)) <==> (
                s.pool.slabs[b].local.contains(p) || s.pool.slabs[b].remote.contains(p) || (
                s.bin.cache.contains(p) && base_of(p) == b))
            &&& s.bin.active is Some && s.bin.cache.len() > 0
                ==> n.pool.slabs[s.bin.active->0].remote.len() == 0
        }),
{
    lemma_step_flushed(s, id, c);
    if s.bin.cache.len() > 0 {
        let cache = s.bin.cache;
        let v = settle(s.pool, cache, id);
        let n = s.flushed(id);
        assert forall|b: usize, p: usize|
            #![trigger run_of(cache, b).contains(p)]
            run_of(cache, b).contains(p) <==> cache.contains(p) && base_of(p) == b by {
            crate::segment::lemma_filter(cache, |p: usize| base_of(p) == b);
        }
        assert forall|b: usize| #[trigger] s.pool.slabs.contains_key(b) implies {
            let t = v.slabs[b];
            let o = s.pool.slabs[b];
            &&& t.class == o.class
            &&& t.heap_id == o.heap_id
            &&& o.heap_id == id ==> t.remote == o.remote && forall|p: usize| #[trigger]
                t.local.contains(p) <==> o.local.contains(p) || (cache.contains(p) && base_of(p)
                    == b)
            &&& o.heap_id != id ==> t.local == o.local && forall|p: usize| #[trigger]
                t.remote.contains(p) <==> o.remote.contains(p) || (cache.contains(p) && base_of(p)
                    == b)
        } by {
            lemma_settled_lists(s.pool.slabs[b], run_of(cache, b), id);
        }
        assert forall|b: usize| #[trigger] n.bin.holds(b) <==> s.bin.holds(b) by {
            assert(s.bin.holds(b) <==> owned(s.pool, id, c, b));
            assert(n.bin.holds(b) <==> owned(n.pool, id, c, b));
            if s.pool.slabs.contains_key(b) {
                assert(n.pool.slabs.contains_key(b));
                assert(n.pool.is_abandoned(b) <==> s.pool.is_abandoned(b));
            }
        }
        if s.bin.active is Some {
            let b = s.bin.active->0;
            assert(s.bin.holds(b));
            assert(owned(s.pool, id, c, b));
            lemma_settle(s, id, c);
            assert(v.wf());
            assert(v.slabs.contains_key(b));
            crate::slab::law_drain_keeps_each_slot_once(v.slabs[b], b);
            assert(n.pool.slabs[b] == v.slabs[b].drained());
        }
    }
}

/// Draining the slabs of a list drains each once and leaves the others.
proof fn lemma_drained_each_exactly(v: PoolView, list: Seq<usize>)
    requires
        list.no_duplicates(),
    ensures
        forall|q: usize| #[trigger]
            list.contains(q) ==> drained_each(v, list).slabs[q] == v.slabs[q].drained(),
        forall|q: usize|
            !list.contains(q) ==> #[trigger] drained_each(v, list).slabs[q] == v.slabs[q],
    decreases list.len(),
{
    if list.len() > 0 {
        let b = list.last();
        let rest = list.drop_last();
        let w = v.with_slab(b, v.slabs[b].drained());
        lemma_drop_last(list);
        lemma_drained_each_exactly(w, rest);
        assert forall|q: usize| #[trigger] list.contains(q) implies drained_each(v, list).slabs[q]
            == v.slabs[q].drained() by {
            if q != b {
                assert(rest.contains(q));
            } else {
                assert(!rest.contains(q));
                assert(drained_each(w, rest).slabs[q] == w.slabs[q]);
            }
        }
        assert forall|q: usize| !list.contains(q) implies #[trigger] drained_each(v, list).slabs[q]
            == v.slabs[q] by {
            assert(!rest.contains(q));
            assert(list[list.len() - 1] == b);
            assert(list.contains(b));
            assert(drained_each(w, rest).slabs[q] == w.slabs[q]);
        }
    }
}

/// Draining everything leaves the cache empty and no slab of the bin with a slot that others have
/// freed; slabs with a free slot are not in the full queue, and the bin has the slabs that it had.
pub proof fn law_drain_all_leaves_nothing(s: State, id: usize, c: int)
    requires
        s.wf(id, c),
    ensures
        ({
            let n = s.drained_all(id);
            &&& n.bin.cache.len() == 0
            &&& n.bin.active == s.bin.active
            &&& forall|b: usize| #[trigger] n.bin.holds(b) <==> s.bin.holds(b)
            &&& forall|b: usize| #[trigger]
                n.bin.holds(b) ==> n.pool.slabs[b].remote.len() == 0
            &&& forall|b: usize| #[trigger]
                n.bin.full.contains(b) ==> n.pool.slabs[b].local.len() == 0
            &&& forall|b: usize| #[trigger]
                n.bin.partial.contains(b) ==> n.pool.slabs[b].local.len() > 0
            &&& n.pool.mem == s.pool.mem
            &&& n.pool.abandoned == s.pool.abandoned
            &&& n.pool.lent() == s.pool.lent()
        }),
{
    let t = s.flushed(id);
    let u = t.drained();
    let n = s.drained_all(id);
    lemma_step_drained_all(s, id, c);
    lemma_step_flushed(s, id, c);
    lemma_step_drained(t, id, c);
    law_flush_gives_slots_back(s, id, c);
    let v1 = drained_each(u.pool, u.bin.full);
    let v2 = drained_each(v1, u.bin.partial);
    lemma_drained_each_exactly(u.pool, u.bin.full);
    lemma_drained_each_exactly(v1, u.bin.partial);
    lemma_drained_each_kept(u.pool, u.bin.full);
    lemma_drained_each_kept(v1, u.bin.partial);
    let none = |b: usize| v2.slabs[b].local.len() == 0;
    let some = |b: usize| v2.slabs[b].local.len() > 0;
    crate::segment::lemma_filter(u.bin.full, none);
    crate::segment::lemma_filter(u.bin.full, some);
    crate::pool::lemma_prefix(u.bin.partial, u.bin.full.filter(some));
    assert forall|b: usize| #[trigger] n.bin.holds(b) <==> s.bin.holds(b) by {
        assert(t.bin.holds(b) <==> s.bin.holds(b));
    }
    assert forall|b: usize| #[trigger] n.bin.holds(b) implies n.pool.slabs[b].remote.len() == 0 by {
        assert(u.bin.holds(b));
        if u.bin.full.contains(b) {
            assert(v1.slabs[b] == u.pool.slabs[b].drained());
            assert(!u.bin.partial.contains(b));
            assert(v2.slabs[b] == v1.slabs[b]);
        } else if u.bin.partial.contains(b) {
            assert(v2.slabs[b] == v1.slabs[b].drained());
        } else {
            assert(v1.slabs[b] == u.pool.slabs[b]);
            assert(v2.slabs[b] == v1.slabs[b]);
        }
    }
}

/// Draining slabs leaves everything but the slabs.
proof fn lemma_drained_each_kept(v: PoolView, list: Seq<usize>)
    ensures
        drained_each(v, list).mem == v.mem,
        drained_each(v, list).abandoned == v.abandoned,
        drained_each(v, list).cached == v.cached,
    decreases list.len(),
{
    if list.len() > 0 {
        let b = list.last();
        lemma_drained_each_kept(v.with_slab(b, v.slabs[b].drained()), list.drop_last());
    }
}

/// A slab that its heap gives up goes back to the pool exactly where none of its slots is out; else
/// it waits to be adopted, as the last of its class, with every free slot on its local list.
pub proof fn law_given_up_slab_goes_or_waits(v: PoolView, b: usize)
    requires
        v.wf(),
        v.slabs.contains_key(b),
    ensures
        (forall|p: usize| !#[trigger] v.slabs[b].is_out(b, p)) ==> released(v, b) == v.freed(b),
        (exists|p: usize| #[trigger] v.slabs[b].is_out(b, p)) ==> {
            let n = released(v, b);
            let c = v.slabs[b].class;
            &&& n.slabs.contains_key(b)
            &&& n.slabs[b].remote.len() == 0
            &&& forall|p: usize| #[trigger]
                n.slabs[b].local.contains(p) <==> v.slabs[b].local.contains(p)
                    || v.slabs[b].remote.contains(p)
            &&& n.slabs[b].class == c
            &&& n.abandoned[c] == v.abandoned[c].push(b)
            &&& n.mem == v.mem
            &&& n.cached == v.cached
            &&& forall|q: usize|
                q != b && v.slabs.contains_key(q) ==> #[trigger] n.slabs[q] == v.slabs[q]
        },
{
    let t = v.slabs[b];
    crate::slab::law_drain_keeps_each_slot_once(t, b);
    crate::slab::law_fully_free_iff_none_out(t.drained(), b);
    if exists|p: usize| #[trigger] t.is_out(b, p) {
        let p = choose|p: usize| #[trigger] t.is_out(b, p);
        assert(t.drained().is_out(b, p));
    } else {
        assert forall|p: usize| !t.drained().is_out(b, p) by {
            assert(!t.is_out(b, p));
        }
    }
}

/// Slabs of a list are given up one by one, from the last on, and each is counted with the slots
/// that others have freed in it.
pub proof fn law_slabs_are_given_up_one_by_one(v: PoolView, list: Seq<usize>, b: usize, n: u64)
    requires
        v.slabs[b].remote.len() <= u64::MAX,
    ensures
        released_all(v, Seq::empty()) == v,
        released_all(v, list.push(b)) == released_all(released(v, b), list),
        released_count(v, Seq::empty(), n) == n,
        released_count(v, list.push(b), n) == released_count(
            released(v, b),
            list,
            ((n + v.slabs[b].remote.len()) % 0x1_0000_0000_0000_0000) as u64,
        ),
        drained_count(v, Seq::empty(), n) == n,
        drained_count(v, list.push(b), n) == drained_count(
            v.with_slab(b, v.slabs[b].drained()),
            list,
            ((n + v.slabs[b].remote.len()) % 0x1_0000_0000_0000_0000) as u64,
        ),
{
    assert(list.push(b).drop_last() =~= list);
    assert(list.push(b).last() == b);
    let m = v.slabs[b].remote.len() as u64;
    crate::segment::law_counts_wrap(n, m);
}

/// Giving up a bin flushes its cache and then gives up the active slab, the full queue and the
/// partial queue, in this order, and counts what others have freed in each.
pub proof fn law_bin_is_given_up_whole(s: State, id: usize)
    requires
        s.flushed(id).bin.active matches Some(b) ==> s.flushed(id).pool.slabs[b].remote.len()
            <= u64::MAX,
    ensures
        ({
            let f = s.flushed(id);
            &&& f.bin.active is None ==> s.closed_down(id) == released_all(
                released_all(f.pool, f.bin.full),
                f.bin.partial,
            ) && s.closed_count(id) == released_count(
                released_all(f.pool, f.bin.full),
                f.bin.partial,
                released_count(f.pool, f.bin.full, f.bin.remote_frees),
            )
            &&& f.bin.active matches Some(b) ==> {
                let v = released(f.pool, b);
                let n = ((f.bin.remote_frees + f.pool.slabs[b].remote.len())
                    % 0x1_0000_0000_0000_0000) as u64;
                &&& s.closed_down(id) == released_all(
                    released_all(v, f.bin.full),
                    f.bin.partial,
                )
                &&& s.closed_count(id) == released_count(
                    released_all(v, f.bin.full),
                    f.bin.partial,
                    released_count(v, f.bin.full, n),
                )
            }
        }),
{
    let f = s.flushed(id);
    if f.bin.active is Some {
        let m = f.pool.slabs[f.bin.active->0].remote.len() as u64;
        crate::segment::law_counts_wrap(f.bin.remote_frees, m);
    }
}

/// Whenever a slab is drained, by use of the active slab, by scanning or by adopting, the slots that
/// others have freed in it are counted, each once.
pub proof fn law_drained_slots_are_counted(s: State, i: int, id: usize, c: int)
    requires
        s.wf(id, c),
    ensures
        s.bin.active matches Some(b) ==> s.drained().bin.remote_frees == (s.bin.remote_frees
            + s.pool.slabs[b].remote.len()) % 0x1_0000_0000_0000_0000,
        0 <= i < s.bin.full.len() ==> s.scanned_one(i).bin.remote_frees == (s.bin.remote_frees
            + s.pool.slabs[s.bin.full[i]].remote.len()) % 0x1_0000_0000_0000_0000,
        s.pool.abandoned[c].len() > 0 ==> s.adopted_one(id, c).bin.remote_frees == (
        s.bin.remote_frees + s.pool.slabs[s.pool.abandoned[c].last()].remote.len())
            % 0x1_0000_0000_0000_0000,
{
    if s.bin.active is Some {
        let b = s.bin.active->0;
        assert(s.bin.holds(b));
        assert(owned(s.pool, id, c, b));
        crate::slab::lemma_lists_fit(s.pool.slabs[b], b);
        crate::segment::law_counts_wrap(s.bin.remote_frees, s.pool.slabs[b].remote.len() as u64);
    }
    if 0 <= i < s.bin.full.len() {
        let b = s.bin.full[i];
        assert(s.bin.full.contains(b));
        assert(s.bin.holds(b));
        assert(owned(s.pool, id, c, b));
        crate::slab::lemma_lists_fit(s.pool.slabs[b], b);
        crate::segment::law_counts_wrap(s.bin.remote_frees, s.pool.slabs[b].remote.len() as u64);
    }
    if s.pool.abandoned[c].len() > 0 {
        let b = s.pool.abandoned[c].last();
        assert(s.pool.abandoned[c].contains(b));
        assert(s.pool.slabs.contains_key(b));
        crate::slab::lemma_lists_fit(s.pool.slabs[b], b);
        crate::segment::law_counts_wrap(s.bin.remote_frees, s.pool.slabs[b].remote.len() as u64);
    }
}

/// A heap owns a slab where the slab carries its id and does not wait to be adopted; a slot is in
/// its cache where the pool knows it under its id.
pub proof fn law_owner_is_who_the_slab_names(v: PoolView, id: usize, c: int, b: usize, p: usize)
    ensures
        owned(v, id, c, b) <==> v.slabs.contains_key(b) && v.slabs[b].heap_id == id
            && v.slabs[b].class == c && !v.abandoned[c].contains(b),
        cached_for(v, id, c, p) <==> v.cached.contains_key(p) && v.cached[p] == id && v.slabs[(p - p
            % 65536) as usize].class == c,
{
}

/// A slab of the full queue that has been drained goes back to the pool where all its slots are
/// free; else it becomes the active slab where there is none, and joins the partial queue where
/// there is one. The other slabs of the queue stay as they are.
pub proof fn law_scanned_slab_goes_or_serves(s: State, i: int, id: usize, c: int)
    requires
        s.wf(id, c),
        0 <= i < s.bin.full.len(),
        s.pool.slabs[s.bin.full[i]].remote.len() > 0,
    ensures
        ({
            let n = s.scanned_one(i);
            let b = s.bin.full[i];
            let in_part = exists|p: usize| #[trigger] s.pool.slabs[b].is_out(b, p);
            &&& n.bin.full.len() == s.bin.full.len() - 1
            &&& forall|k: int| 0 <= k < i ==> #[trigger] n.bin.full[k] == s.bin.full[k]
            &&& forall|k: int| i <= k < n.bin.full.len() ==> #[trigger] n.bin.full[k]
                == s.bin.full[k + 1]
            &&& n.bin.cache == s.bin.cache
            &&& !in_part ==> n.pool == s.pool.freed(b) && n.bin.active == s.bin.active
                && n.bin.partial == s.bin.partial
            &&& in_part && s.bin.active is None ==> n.bin.active == Some(b) && n.bin.partial
                == s.bin.partial
            &&& in_part && s.bin.active is Some ==> n.bin.active == s.bin.active && n.bin.partial
                == s.bin.partial.push(b)
            &&& in_part ==> {
                &&& n.pool.mem == s.pool.mem
                &&& n.pool.abandoned == s.pool.abandoned
                &&& n.pool.slabs[b].remote.len() == 0
                &&& forall|p: usize| #[trigger]
                    n.pool.slabs[b].local.contains(p) <==> s.pool.slabs[b].local.contains(p)
                        || s.pool.slabs[b].remote.contains(p)
                &&& forall|q: usize|
                    q != b && s.pool.slabs.contains_key(q) ==> #[trigger] n.pool.slabs[q]
                        == s.pool.slabs[q]
            }
        }),
{
    let b = s.bin.full[i];
    let t = s.pool.slabs[b];
    assert(s.bin.full.contains(b));
    assert(s.bin.holds(b));
    assert(owned(s.pool, id, c, b));
    lemma_out_or_wholly_free(s.pool, b);
    crate::slab::law_drain_keeps_each_slot_once(t, b);
}

/// A slab is wholly free once drained exactly where none of its slots is out.
proof fn lemma_out_or_wholly_free(v: PoolView, b: usize)
    requires
        v.wf(),
        v.slabs.contains_key(b),
    ensures
        v.slabs[b].drained().is_fully_free() <==> !exists|p: usize| #[trigger]
            v.slabs[b].is_out(b, p),
{
    let t = v.slabs[b];
    crate::slab::law_drain_keeps_each_slot_once(t, b);
    crate::slab::law_fully_free_iff_none_out(t.drained(), b);
    if exists|p: usize| #[trigger] t.is_out(b, p) {
        let p = choose|p: usize| #[trigger] t.is_out(b, p);
        assert(t.drained().is_out(b, p));
    } else {
        assert forall|p: usize| !t.drained().is_out(b, p) by {
            assert(!t.is_out(b, p));
        }
    }
}

/// A scan goes through the whole full queue: no slab stays in it that others have freed slots of,
/// and those that have none keep their order.
pub proof fn law_scan_visits_whole_queue(s: State, id: usize, c: int)
    requires
        s.wf(id, c),
    ensures
        forall|b: usize| #[trigger]
            s.scanned().bin.full.contains(b) ==> s.scanned().pool.slabs[b].remote.len() == 0,
        s.scanned().pool.abandoned == s.pool.abandoned,
        forall|b: usize|
            s.bin.full.contains(b) && s.pool.slabs[b].remote.len() == 0 ==> #[trigger]
            s.scanned().bin.full.contains(b),
{
    let k = s.bin.full.len() as int;
    crate::bin_proof::lemma_scanned_clean(s, k, id, c);
    lemma_scan_keeps(s, k, id, c);
    let n = s.scanned();
    assert forall|b: usize| #[trigger] n.bin.full.contains(b) implies n.pool.slabs[b].remote.len()
        == 0 by {
        let i = choose|i: int| 0 <= i < n.bin.full.len() && n.bin.full[i] == b;
        assert(n.pool.slabs[n.bin.full[i]].remote.len() == 0);
    }
    assert forall|b: usize|
        s.bin.full.contains(b) && s.pool.slabs[b].remote.len() == 0 implies #[trigger]
    n.bin.full.contains(b) by {
        lemma_scan_leaves(s, k, b, id, c);
    }
}

/// Scanning leaves a slab that others have freed no slot of.
proof fn lemma_scan_leaves(s: State, k: int, b: usize, id: usize, c: int)
    requires
        s.wf(id, c),
        0 <= k <= s.bin.full.len(),
        s.bin.full.contains(b),
        s.pool.slabs[b].remote.len() == 0,
    ensures
        s.scanned_from(k).bin.full.contains(b),
    decreases k,
{
    if k > 0 {
        let q = s.bin.full[k - 1];
        if s.pool.slabs[q].remote.len() == 0 {
            lemma_scan_leaves(s, k - 1, b, id, c);
        } else {
            let t = s.scanned_one(k - 1);
            lemma_step_scanned_one(s, k - 1, id, c);
            crate::bin_proof::lemma_remove(s.bin.full, k - 1);
            assert(t.bin.full.contains(b));
            assert(s.bin.holds(b));
            assert(owned(s.pool, id, c, b));
            lemma_scan_leaves(t, k - 1, b, id, c);
        }
    }
}

/// An abandoned slab that has been adopted and drained goes back to the pool where all its slots
/// are free. Else it belongs to the heap: as the active slab where it has a free slot and there is
/// no active slab, in the partial queue where there is one, in the full queue where it has no free
/// slot.
pub proof fn law_adopted_slab_goes_or_serves(s: State, id: usize, c: int)
    requires
        s.wf(id, c),
        s.pool.abandoned[c].len() > 0,
    ensures
        ({
            let n = s.adopted_one(id, c);
            let b = s.pool.abandoned[c][s.pool.abandoned[c].len() - 1];
            let t = s.pool.slabs[b];
            let in_part = exists|p: usize| #[trigger] t.is_out(b, p);
            let some = t.local.len() + t.remote.len() > 0;
            &&& n.pool.abandoned[c].len() == s.pool.abandoned[c].len() - 1
            &&& n.pool.adopt_count[c] == (s.pool.adopt_count[c] + 1) % 0x1_0000_0000_0000_0000
            &&& n.bin.cache == s.bin.cache
            &&& !in_part ==> !n.pool.slabs.contains_key(b) && n.bin.active == s.bin.active
                && n.bin.full == s.bin.full && n.bin.partial == s.bin.partial
            &&& in_part ==> n.pool.slabs.contains_key(b) && n.pool.slabs[b].heap_id == id
                && n.pool.slabs[b].remote.len() == 0 && n.pool.mem == s.pool.mem && forall|
                p: usize,
            | #[trigger]
                n.pool.slabs[b].local.contains(p) <==> t.local.contains(p) || t.remote.contains(p)
            &&& in_part && !some ==> n.bin.full == s.bin.full.push(b) && n.bin.active
                == s.bin.active && n.bin.partial == s.bin.partial
            &&& in_part && some && s.bin.active is None ==> n.bin.active == Some(b) && n.bin.full
                == s.bin.full && n.bin.partial == s.bin.partial
            &&& in_part && some && s.bin.active is Some ==> n.bin.active == s.bin.active
                && n.bin.full == s.bin.full && n.bin.partial == s.bin.partial.push(b)
        }),
{
    let b = s.pool.abandoned[c].last();
    assert(s.pool.abandoned[c].contains(b));
    assert(s.pool.slabs.contains_key(b));
    lemma_out_or_wholly_free(s.pool, b);
    crate::slab::law_drain_keeps_each_slot_once(s.pool.slabs[b], b);
    crate::segment::law_counts_wrap(s.pool.adopt_count[c], 1);
}

/// A request goes no further than it must: abandoned slabs are left alone as long as the heap has a
/// slab that serves, and where they are not, all of the class are adopted.
pub proof fn law_abandoned_slabs_are_tried_last(s: State, id: usize, c: int)
    requires
        s.wf(id, c),
    ensures
        ({
            let n = s.prepared(id, c);
            &&& s.bin.active matches Some(b) ==> (s.pool.slabs[b].local.len() > 0 ==> n == s)
            &&& s.bin.active matches Some(b) ==> (s.pool.slabs[b].remote.len() > 0
                ==> n.pool.abandoned == s.pool.abandoned && n.bin.full == s.bin.full
                && n.bin.partial == s.bin.partial && n.bin.active == s.bin.active)
            &&& s.bin.partial.len() > 0 ==> n.pool.abandoned == s.pool.abandoned
            &&& n.pool.abandoned == s.pool.abandoned || n.pool.abandoned[c].len() == 0
        }),
{
    let s1 = s.refreshed();
    let s2 = s1.next_partial();
    lemma_step_refreshed(s, id, c);
    if s1.bin.active is None {
        lemma_step_partial(s1, id, c);
        if s2.bin.active is None {
            let k = s2.bin.full.len() as int;
            lemma_step_scanned(s2, k, id, c);
            lemma_scan_keeps(s2, k, id, c);
            let s3 = s2.scanned();
            if s3.bin.active is None {
                lemma_step_adopted(s3, id, c, s3.pool.abandoned[c].len());
            }
        }
    }
}

/// The order in which slots go back to a slab: the last of them comes first on the local list of
/// the heap's own slab, the first of them first on the remote list of another. What goes to a slab
/// are its slots in the order in which they came.
pub proof fn law_slots_go_back_in_order(
    t: SlabView,
    run: Seq<usize>,
    id: usize,
    cache: Seq<usize>,
    p: usize,
    b: usize,
)
    ensures
        t.heap_id == id ==> settled(t, run, id).local.len() == run.len() + t.local.len()
            && forall|k: int|
            0 <= k < run.len() ==> #[trigger] run[k] == settled(t, run, id).local[run.len() - 1 - k],
        t.heap_id == id ==> forall|k: int|
            0 <= k < t.local.len() ==> #[trigger] t.local[k] == settled(t, run, id).local[run.len()
                + k],
        t.heap_id != id ==> settled(t, run, id).remote.len() == run.len() + t.remote.len()
            && forall|k: int|
            0 <= k < run.len() ==> #[trigger] run[k] == settled(t, run, id).remote[k],
        t.heap_id != id ==> forall|k: int|
            0 <= k < t.remote.len() ==> #[trigger] t.remote[k] == settled(
                t,
                run,
                id,
            ).remote[run.len() + k],
        run_of(Seq::empty(), b).len() == 0,
        base_of(p) == b ==> run_of(cache.push(p), b) == run_of(cache, b).push(p),
        base_of(p) != b ==> run_of(cache.push(p), b) == run_of(cache, b),
{
    reveal(Seq::filter);
    let f = |p: usize| base_of(p) == b;
    assert(cache.push(p).drop_last() =~= cache);
    assert(run_of(cache.push(p), b) == cache.push(p).filter(f));
}

/// An active slab that is retired goes to the end of the full queue; the next slab to become active
/// is the last of the partial queue. Nothing else of the bin changes.
pub proof fn law_queues_move_at_the_end(s: State)
    ensures
        s.bin.active is None ==> s.bin.retired() == s.bin,
        s.bin.active matches Some(b) ==> {
            let n = s.bin.retired();
            &&& n.active is None
            &&& n.full.len() == s.bin.full.len() + 1
            &&& n.full[s.bin.full.len() as int] == b
            &&& forall|k: int| 0 <= k < s.bin.full.len() ==> #[trigger] n.full[k] == s.bin.full[k]
            &&& n.partial == s.bin.partial
            &&& n.cache == s.bin.cache
            &&& n.remote_frees == s.bin.remote_frees
        },
        s.bin.partial.len() == 0 ==> s.bin.next_partial() == s.bin,
        s.bin.partial.len() > 0 ==> {
            let n = s.bin.next_partial();
            &&& n.active == Some(s.bin.partial[s.bin.partial.len() - 1])
            &&& n.partial.len() == s.bin.partial.len() - 1
            &&& forall|k: int|
                0 <= k < n.partial.len() ==> #[trigger] n.partial[k] == s.bin.partial[k]
            &&& n.full == s.bin.full
            &&& n.cache == s.bin.cache
            &&& n.remote_frees == s.bin.remote_frees
        },
        s.retired().pool == s.pool,
        s.retired().bin == s.bin.retired(),
        s.next_partial().pool == s.pool,
        s.next_partial().bin == s.bin.next_partial(),
{
}

/// Abandoned slabs are adopted one by one, the full queue is scanned from its end to its start, and
/// slabs that others have freed nothing of are passed over.
pub proof fn law_slabs_are_taken_one_by_one(s: State, id: usize, c: int, n: nat, k: int)
    requires
        k > 0,
    ensures
        s.adopted_n(id, c, 0) == s,
        s.adopted_n(id, c, n + 1) == s.adopted_one(id, c).adopted_n(id, c, n),
        s.adopted_all(id, c) == s.adopted_n(id, c, s.pool.abandoned[c].len()),
        s.scanned_from(0) == s,
        s.pool.slabs[s.bin.full[k - 1]].remote.len() == 0 ==> s.scanned_from(k) == s.scanned_from(
            k - 1,
        ),
        s.pool.slabs[s.bin.full[k - 1]].remote.len() > 0 ==> s.scanned_from(k) == s.scanned_one(
            k - 1,
        ).scanned_from(k - 1),
        s.scanned() == s.scanned_from(s.bin.full.len() as int),
{
}

} // verus!
