//! Each step of a heap keeps its bin and the pool well formed, and takes no block from anybody.

use vstd::prelude::*;

use crate::bin_state::cached_for;
use crate::bin_state::disposed;
use crate::bin_state::drained_each;
use crate::bin_state::keeps;
use crate::bin_state::lends;
use crate::bin_state::other_classes_same;
use crate::bin_state::owned;
use crate::bin_state::regains;
use crate::bin_state::released;
use crate::bin_state::released_all;
use crate::bin_state::run_of;
use crate::bin_state::settle;
use crate::bin_state::settled;
use crate::bin_state::undisturbed;
use crate::bin_state::BinView;
use crate::bin_state::State;
use crate::bin_state::CACHE_CAP;
use crate::pool::lemma_prefix;
use crate::pool::PoolView;
use crate::size_class::NUM_CLASSES;
use crate::slab::base_of;
use crate::slab::SlabView;

verus! {

/// A bin that is undisturbed stays well formed.
pub proof fn lemma_bystander(
    bin: BinView,
    old: PoolView,
    new: PoolView,
    id: usize,
    c: int,
    other: usize,
    d: int,
)
    requires
        undisturbed(old, new, id, c),
        other != id || d != c,
        bin.wf(old, other, d),
    ensures
        bin.wf(new, other, d),
{
    assert forall|b: usize| #[trigger] bin.holds(b) <==> owned(new, other, d, b) by {
        assert(owned(new, other, d, b) == owned(old, other, d, b));
    }
    assert forall|p: usize| #[trigger] bin.cache.contains(p) <==> cached_for(new, other, d, p) by {
        assert(cached_for(new, other, d, p) == cached_for(old, other, d, p));
    }
    assert forall|b: usize| #[trigger] bin.full.contains(b) implies new.slabs[b].local.len() == 0 by {
        assert(bin.holds(b));
        assert(owned(old, other, d, b));
    }
    assert forall|b: usize| #[trigger] bin.partial.contains(b) implies new.slabs[b].local.len()
        > 0 by {
        assert(bin.holds(b));
        assert(owned(old, other, d, b));
    }
}

/// Steps one after the other.
pub proof fn lemma_keeps_trans(a: PoolView, b: PoolView, v: PoolView, id: usize, c: int)
    requires
        keeps(a, b, id, c),
        keeps(b, v, id, c),
    ensures
        keeps(a, v, id, c),
{
    assert forall|i: usize, d: int, q: usize|
        #![trigger owned(a, i, d, q)]
        #![trigger owned(v, i, d, q)]
        (i != id || d != c) implies owned(v, i, d, q) == owned(a, i, d, q) && (owned(a, i, d, q)
        ==> v.slabs[q].local == a.slabs[q].local) by {
        assert(owned(b, i, d, q) == owned(a, i, d, q));
    }
    assert forall|i: usize, d: int, p: usize|
        #![trigger cached_for(a, i, d, p)]
        #![trigger cached_for(v, i, d, p)]
        (i != id || d != c) implies cached_for(v, i, d, p) == cached_for(a, i, d, p) by {
        assert(cached_for(b, i, d, p) == cached_for(a, i, d, p));
    }
}

/// A slab whose contents change but for which slots are out.
pub proof fn lemma_same_out(v: PoolView, b: usize, t: SlabView)
    requires
        v.wf(),
        v.slabs.contains_key(b),
        t.class == v.slabs[b].class,
        t.heap_id < v.id_bound,
        t.wf(b),
        forall|p: usize| #[trigger] t.is_out(b, p) <==> v.slabs[b].is_out(b, p),
    ensures
        v.with_slab(b, t).wf(),
        v.with_slab(b, t).lent() == v.lent(),
        forall|q: usize| #[trigger] v.with_slab(b, t).is_abandoned(q) <==> v.is_abandoned(q),
{
    let n = v.with_slab(b, t);
    assert forall|c: int, q: usize|
        #![trigger n.abandoned[c].contains(q)]
        0 <= c < NUM_CLASSES && n.abandoned[c].contains(q) implies n.slabs.contains_key(q)
        && n.slabs[q].class == c by {
        assert(v.abandoned[c].contains(q));
    }
    assert forall|p: usize| #[trigger] n.is_lent(p) <==> v.is_lent(p) by {
        if base_of(p) == b {
            assert(t.is_out(b, p) <==> v.slabs[b].is_out(b, p));
        }
    }
    assert(n.lent() =~= v.lent());
}

/// A slab that is drained.
pub proof fn lemma_drained(v: PoolView, b: usize)
    requires
        v.wf(),
        v.slabs.contains_key(b),
    ensures
        ({
            let n = v.with_slab(b, v.slabs[b].drained());
            &&& n.wf()
            &&& n.lent() == v.lent()
            &&& forall|q: usize| #[trigger] n.is_abandoned(q) <==> v.is_abandoned(q)
            &&& v.slabs[b].remote.len() == 0 ==> n == v
        }),
{
    crate::slab::law_drain_keeps_each_slot_once(v.slabs[b], b);
    lemma_same_out(v, b, v.slabs[b].drained());
    if v.slabs[b].remote.len() == 0 {
        assert(v.slabs[b].drained().local =~= v.slabs[b].local);
        assert(v.slabs[b].drained().remote =~= v.slabs[b].remote);
        assert(v.slabs[b].drained() == v.slabs[b]);
        assert(v.slabs.insert(b, v.slabs[b]) =~= v.slabs);
    }
}

/// A slab that is fully free, once drained, goes back to the pool.
pub proof fn lemma_freed(v: PoolView, b: usize)
    requires
        v.wf(),
        v.slabs.contains_key(b),
        !v.is_abandoned(b),
        v.slabs[b].drained().is_fully_free(),
    ensures
        v.freed(b).wf(),
        v.freed(b).lent() == v.lent(),
        v.freed(b).mem.large == v.mem.large,
        v.is_unused(b),
        forall|q: usize|
            q != b ==> (#[trigger] v.freed(b).is_abandoned(q) <==> v.is_abandoned(q)),
{
    let s = v.slabs[b];
    crate::slab::law_drain_keeps_each_slot_once(s, b);
    crate::slab::law_fully_free_iff_none_out(s.drained(), b);
    assert forall|p: usize| #[trigger] v.cached.contains_key(p) implies base_of(p) != b by {
        if base_of(p) == b {
            assert(s.is_out(b, p));
            assert(s.drained().is_out(b, p));
        }
    }
    crate::pool::lemma_freed_wf(v, b);
    crate::segment::lemma_freed(v.mem, b);
    assert forall|p: usize| #[trigger] v.freed(b).is_lent(p) <==> v.is_lent(p) by {
        if base_of(p) == b {
            assert(s.drained().is_out(b, p) <==> s.is_out(b, p));
        }
    }
    assert(v.freed(b).lent() =~= v.lent());
}

/// Draining the active slab.
pub proof fn lemma_step_drained(s: State, id: usize, c: int)
    requires
        s.wf(id, c),
    ensures
        s.drained().wf(id, c),
        keeps(s.pool, s.drained().pool, id, c),
{
    if s.bin.active is Some {
        let b = s.bin.active->0;
        assert(s.bin.holds(b));
        assert(owned(s.pool, id, c, b));
        lemma_drained(s.pool, b);
        lemma_own_slab(s, b, s.slab().drained(), id, c);
        let n = s.drained();
        assert forall|q: usize| #[trigger] n.bin.holds(q) <==> owned(n.pool, id, c, q) by {
            assert(n.bin.holds(q) == s.bin.holds(q));
        }
    }
}

/// A change within a slab of the bin, as far as the bins are concerned.
pub proof fn lemma_own_slab(s: State, b: usize, t: SlabView, id: usize, c: int)
    requires
        s.wf(id, c),
        s.bin.holds(b),
        t.class == s.pool.slabs[b].class,
        t.heap_id == s.pool.slabs[b].heap_id,
    ensures
        undisturbed(s.pool, s.pool.with_slab(b, t), id, c),
        forall|q: usize| #[trigger]
            owned(s.pool.with_slab(b, t), id, c, q) <==> owned(s.pool, id, c, q),
        forall|p: usize| #[trigger]
            cached_for(s.pool.with_slab(b, t), id, c, p) <==> cached_for(s.pool, id, c, p),
        s.bin.active == Some(b) ==> s.bin.wf(s.pool.with_slab(b, t), id, c),
{
    let v = s.pool;
    let n = v.with_slab(b, t);
    assert(owned(v, id, c, b));
    assert forall|q: usize| #[trigger] n.is_abandoned(q) <==> v.is_abandoned(q) by {}
    assert forall|i: usize, d: int, q: usize|
        #![trigger owned(v, i, d, q)]
        #![trigger owned(n, i, d, q)]
        owned(n, i, d, q) == owned(v, i, d, q) by {
        assert(n.is_abandoned(q) <==> v.is_abandoned(q));
    }
    assert forall|i: usize, d: int, p: usize|
        #![trigger cached_for(v, i, d, p)]
        #![trigger cached_for(n, i, d, p)]
        cached_for(n, i, d, p) == cached_for(v, i, d, p) by {}
}

/// Retiring the active slab.
pub proof fn lemma_step_retired(s: State, id: usize, c: int)
    requires
        s.wf(id, c),
        s.bin.active is Some ==> s.slab().local.len() == 0,
    ensures
        s.retired().wf(id, c),
        keeps(s.pool, s.retired().pool, id, c),
        s.retired().bin.active is None,
{
    if s.bin.active is Some {
        let b = s.bin.active->0;
        let n = s.retired();
        lemma_push(s.bin.full, b);
        assert forall|q: usize| #[trigger] n.bin.holds(q) <==> owned(s.pool, id, c, q) by {
            assert(s.bin.holds(q) <==> owned(s.pool, id, c, q));
        }
    }
}

/// Members and duplicates of a list with one more element.
pub proof fn lemma_push(s: Seq<usize>, x: usize)
    ensures
        forall|p: usize| #[trigger] s.push(x).contains(p) <==> s.contains(p) || p == x,
        s.no_duplicates() && !s.contains(x) ==> s.push(x).no_duplicates(),
{
    assert(s.push(x) =~= s + seq![x]);
    lemma_prefix(s, seq![x]);
    assert(seq![x][0] == x);
    assert forall|p: usize| #[trigger] s.push(x).contains(p) <==> s.contains(p) || p == x by {
        assert((s + seq![x]).contains(p) <==> s.contains(p) || seq![x].contains(p));
    }
}

/// Members and duplicates of a list without its last element.
pub proof fn lemma_drop_last(s: Seq<usize>)
    requires
        s.len() > 0,
        s.no_duplicates(),
    ensures
        s.contains(s.last()),
        s.drop_last().no_duplicates(),
        forall|p: usize| #[trigger]
            s.drop_last().contains(p) <==> s.contains(p) && p != s.last(),
{
    let t = s.drop_last();
    assert(s =~= t.push(s.last()));
    lemma_push(t, s.last());
    assert(s[s.len() - 1] == s.last());
    assert forall|p: usize| #[trigger] t.contains(p) implies p != s.last() by {
        let k = choose|k: int| 0 <= k < t.len() && t[k] == p;
        assert(s[k] == p);
    }
}

/// Members and duplicates of a list without element `i`.
pub proof fn lemma_remove(s: Seq<usize>, i: int)
    requires
        0 <= i < s.len(),
        s.no_duplicates(),
    ensures
        s.contains(s[i]),
        s.remove(i).no_duplicates(),
        forall|p: usize| #[trigger] s.remove(i).contains(p) <==> s.contains(p) && p != s[i],
{
    let t = s.remove(i);
    assert forall|p: usize| #[trigger] t.contains(p) <==> s.contains(p) && p != s[i] by {
        if s.contains(p) && p != s[i] {
            let k = choose|k: int| 0 <= k < s.len() && s[k] == p;
            assert(t[if k < i {
                k
            } else {
                k - 1
            }] == p);
        }
        if t.contains(p) {
            let k = choose|k: int| 0 <= k < t.len() && t[k] == p;
            assert(s[if k < i {
                k
            } else {
                k + 1
            }] == p);
        }
    }
}

/// Refreshing the active slab leaves it with a free slot, or none active.
pub proof fn lemma_step_refreshed(s: State, id: usize, c: int)
    requires
        s.wf(id, c),
    ensures
        s.refreshed().wf(id, c),
        keeps(s.pool, s.refreshed().pool, id, c),
        s.refreshed().bin.active is Some ==> s.refreshed().slab().local.len() > 0,
        s.refreshed().bin.cache == s.bin.cache,
{
    lemma_step_drained(s, id, c);
    if s.bin.active is Some && s.slab().local.len() == 0 {
        lemma_step_retired(s, id, c);
    }
}

/// Making a partial slab the active one.
pub proof fn lemma_step_partial(s: State, id: usize, c: int)
    requires
        s.wf(id, c),
        s.bin.active is None,
    ensures
        s.next_partial().wf(id, c),
        s.next_partial().pool == s.pool,
        s.next_partial().bin.active is Some <==> s.bin.partial.len() > 0,
        s.next_partial().bin.active is Some ==> s.next_partial().slab().local.len() > 0,
{
    if s.bin.partial.len() > 0 {
        let n = s.next_partial();
        lemma_drop_last(s.bin.partial);
        assert forall|q: usize| #[trigger] n.bin.holds(q) <==> owned(s.pool, id, c, q) by {
            assert(s.bin.holds(q) <==> owned(s.pool, id, c, q));
        }
    }
}

/// Scanning one slab of the full queue.
pub proof fn lemma_step_scanned_one(s: State, i: int, id: usize, c: int)
    requires
        s.wf(id, c),
        0 <= i < s.bin.full.len(),
        s.pool.slabs[s.bin.full[i]].remote.len() > 0,
    ensures
        s.scanned_one(i).wf(id, c),
        keeps(s.pool, s.scanned_one(i).pool, id, c),
        s.scanned_one(i).bin.full == s.bin.full.remove(i),
        s.scanned_one(i).bin.cache == s.bin.cache,
        s.bin.active is Some ==> s.scanned_one(i).bin.active == s.bin.active
            && s.scanned_one(i).slab() == s.slab(),
        s.bin.active is None && s.scanned_one(i).bin.active is Some
            ==> s.scanned_one(i).slab().local.len() > 0,
        s.scanned_one(i).bin.active is None ==> s.scanned_one(i).bin.partial == s.bin.partial,
{
    let b = s.bin.full[i];
    let v = s.pool;
    let t = v.slabs[b].drained();
    let n = s.scanned_one(i);
    lemma_remove(s.bin.full, i);
    lemma_push(s.bin.partial, b);
    assert(s.bin.full.contains(b));
    assert(s.bin.holds(b));
    assert(owned(v, id, c, b));
    assert(t.local.len() > 0);
    assert forall|q: usize| #[trigger] s.bin.holds(q) <==> owned(v, id, c, q) by {}
    if t.is_fully_free() {
        lemma_freed(v, b);
        lemma_slab_gone(v, b, id, c);
        assert forall|q: usize| #[trigger] n.bin.holds(q) <==> owned(n.pool, id, c, q) by {
            assert(s.bin.holds(q) <==> owned(v, id, c, q));
            assert(owned(n.pool, id, c, q) <==> owned(v, id, c, q) && q != b);
        }
    } else {
        lemma_drained(v, b);
        lemma_own_slab(s, b, t, id, c);
        assert forall|q: usize| #[trigger] n.bin.holds(q) <==> owned(n.pool, id, c, q) by {
            assert(s.bin.holds(q) <==> owned(v, id, c, q));
        }
    }
}

/// A slab of the bin goes back to the pool, as far as the bins are concerned.
pub proof fn lemma_slab_gone(v: PoolView, b: usize, id: usize, c: int)
    requires
        v.wf(),
        owned(v, id, c, b),
        v.is_unused(b),
    ensures
        undisturbed(v, v.freed(b), id, c),
        forall|q: usize| #[trigger]
            owned(v.freed(b), id, c, q) <==> owned(v, id, c, q) && q != b,
        forall|p: usize| #[trigger]
            cached_for(v.freed(b), id, c, p) <==> cached_for(v, id, c, p),
{
    let n = v.freed(b);
    assert forall|i: usize, d: int, q: usize|
        #![trigger owned(v, i, d, q)]
        #![trigger owned(n, i, d, q)]
        owned(n, i, d, q) == (owned(v, i, d, q) && q != b) by {
        if q != b {
            assert(n.is_abandoned(q) <==> v.is_abandoned(q));
        }
    }
    assert forall|i: usize, d: int, p: usize|
        #![trigger cached_for(v, i, d, p)]
        #![trigger cached_for(n, i, d, p)]
        cached_for(n, i, d, p) == cached_for(v, i, d, p) by {}
}

/// Scanning the full queue from slab `k` down.
pub proof fn lemma_step_scanned(s: State, k: int, id: usize, c: int)
    requires
        s.wf(id, c),
        0 <= k <= s.bin.full.len(),
    ensures
        s.scanned_from(k).wf(id, c),
        keeps(s.pool, s.scanned_from(k).pool, id, c),
        s.scanned_from(k).bin.cache == s.bin.cache,
        s.bin.active is Some ==> s.scanned_from(k).bin.active == s.bin.active && s.scanned_from(
            k,
        ).slab() == s.slab(),
        s.bin.active is None && s.scanned_from(k).bin.active is Some ==> s.scanned_from(
            k,
        ).slab().local.len() > 0,
        s.scanned_from(k).bin.active is None ==> s.scanned_from(k).bin.partial == s.bin.partial,
    decreases k,
{
    if k > 0 {
        if s.pool.slabs[s.bin.full[k - 1]].remote.len() == 0 {
            lemma_step_scanned(s, k - 1, id, c);
        } else {
            let t = s.scanned_one(k - 1);
            lemma_step_scanned_one(s, k - 1, id, c);
            lemma_step_scanned(t, k - 1, id, c);
            lemma_keeps_trans(s.pool, t.pool, t.scanned_from(k - 1).pool, id, c);
        }
    }
}

/// Adopting one slab.
pub proof fn lemma_step_adopted_one(s: State, id: usize, c: int)
    requires
        s.wf(id, c),
        s.pool.abandoned[c].len() > 0,
    ensures
        s.adopted_one(id, c).wf(id, c),
        keeps(s.pool, s.adopted_one(id, c).pool, id, c),
        s.adopted_one(id, c).bin.cache == s.bin.cache,
        s.adopted_one(id, c).pool.abandoned[c] == s.pool.abandoned[c].drop_last(),
        s.bin.active is Some ==> s.adopted_one(id, c).bin.active == s.bin.active && s.adopted_one(
            id,
            c,
        ).slab() == s.slab(),
        s.bin.active is None && s.adopted_one(id, c).bin.active is Some ==> s.adopted_one(
            id,
            c,
        ).slab().local.len() > 0,
{
    let v = s.pool;
    let b = v.abandoned[c].last();
    let w = v.adopted(c);
    let t = v.slabs[b].owned_by(id).drained();
    let n = s.adopted_one(id, c);
    crate::pool::lemma_adopted_wf(v, c);
    assert(w.lent() =~= v.lent());
    assert(!w.is_abandoned(b));
    assert(!owned(v, id, c, b));
    assert(!s.bin.holds(b)) by {
        assert(s.bin.holds(b) <==> owned(v, id, c, b));
    }
    crate::slab::law_drain_keeps_each_slot_once(w.slabs[b], b);
    lemma_push(s.bin.full, b);
    lemma_push(s.bin.partial, b);
    if t.is_fully_free() {
        assert(w.slabs[b].drained().is_fully_free());
        lemma_freed(w, b);
        assert forall|i: usize, d: int, q: usize|
            #![trigger owned(v, i, d, q)]
            #![trigger owned(n.pool, i, d, q)]
            owned(n.pool, i, d, q) == owned(v, i, d, q) by {
            if q != b && v.slabs.contains_key(q) {
                assert(n.pool.is_abandoned(q) <==> w.is_abandoned(q));
                assert(w.is_abandoned(q) <==> v.is_abandoned(q));
            }
        }
    } else {
        lemma_same_out(w, b, t);
        assert forall|i: usize, d: int, q: usize|
            #![trigger owned(v, i, d, q)]
            #![trigger owned(n.pool, i, d, q)]
            owned(n.pool, i, d, q) == (owned(v, i, d, q) || (q == b && i == id && d == c)) by {
            if v.slabs.contains_key(q) {
                assert(n.pool.is_abandoned(q) <==> w.is_abandoned(q));
                assert(w.is_abandoned(q) <==> v.is_abandoned(q) && q != b);
            }
        }
    }
    assert forall|i: usize, d: int, p: usize|
        #![trigger cached_for(v, i, d, p)]
        #![trigger cached_for(n.pool, i, d, p)]
        cached_for(n.pool, i, d, p) == cached_for(v, i, d, p) by {
        if v.cached.contains_key(p) {
            assert(n.pool.slabs.contains_key(base_of(p))) by {
                assert(n.pool.cached.contains_key(p));
            }
        }
    }
    assert forall|q: usize| #[trigger] n.bin.holds(q) <==> owned(n.pool, id, c, q) by {
        assert(s.bin.holds(q) <==> owned(v, id, c, q));
    }
    assert forall|q: usize| #[trigger] s.bin.holds(q) implies n.pool.slabs[q] == v.slabs[q] by {
        assert(owned(v, id, c, q));
    }
    assert forall|q: usize| #[trigger] n.bin.full.contains(q) implies n.pool.slabs[q].local.len()
        == 0 by {
        if s.bin.full.contains(q) {
            assert(s.bin.holds(q));
        }
    }
    assert forall|q: usize| #[trigger] n.bin.partial.contains(q) implies n.pool.slabs[q].local.len()
        > 0 by {
        if s.bin.partial.contains(q) {
            assert(s.bin.holds(q));
        }
    }
    if s.bin.active is Some {
        assert(s.bin.holds(s.bin.active->0));
    }
}

/// Adopting `n` slabs.
pub proof fn lemma_step_adopted(s: State, id: usize, c: int, n: nat)
    requires
        s.wf(id, c),
        n <= s.pool.abandoned[c].len(),
    ensures
        s.adopted_n(id, c, n).wf(id, c),
        keeps(s.pool, s.adopted_n(id, c, n).pool, id, c),
        s.adopted_n(id, c, n).bin.cache == s.bin.cache,
        s.bin.active is Some ==> s.adopted_n(id, c, n).bin.active == s.bin.active && s.adopted_n(
            id,
            c,
            n,
        ).slab() == s.slab(),
        s.bin.active is None && s.adopted_n(id, c, n).bin.active is Some ==> s.adopted_n(
            id,
            c,
            n,
        ).slab().local.len() > 0,
        s.adopted_n(id, c, n).pool.abandoned[c].len() == s.pool.abandoned[c].len() - n,
    decreases n,
{
    if n > 0 {
        let t = s.adopted_one(id, c);
        lemma_step_adopted_one(s, id, c);
        lemma_step_adopted(t, id, c, (n - 1) as nat);
        lemma_keeps_trans(s.pool, t.pool, t.adopted_n(id, c, (n - 1) as nat).pool, id, c);
    }
}

/// Preparing a bin leaves it with an active slab that has a free slot, or with none.
pub proof fn lemma_step_prepared(s: State, id: usize, c: int)
    requires
        s.wf(id, c),
    ensures
        s.prepared(id, c).wf(id, c),
        keeps(s.pool, s.prepared(id, c).pool, id, c),
        s.prepared(id, c).bin.cache == s.bin.cache,
        s.prepared(id, c).bin.active is Some ==> s.prepared(id, c).slab().local.len() > 0,
{
    let s1 = s.refreshed();
    lemma_step_refreshed(s, id, c);
    if s1.bin.active is None {
        let s2 = s1.next_partial();
        lemma_step_partial(s1, id, c);
        if s2.bin.active is None {
            let s3 = s2.scanned();
            lemma_step_scanned(s2, s2.bin.full.len() as int, id, c);
            lemma_keeps_trans(s.pool, s2.pool, s3.pool, id, c);
            if s3.bin.active is None {
                lemma_step_adopted(s3, id, c, s3.pool.abandoned[c].len());
                lemma_keeps_trans(s.pool, s3.pool, s3.adopted_all(id, c).pool, id, c);
            }
        }
    }
}

/// A slab that gets slots back.
pub proof fn lemma_settled(s: SlabView, b: usize, run: Seq<usize>, id: usize)
    requires
        s.wf(b),
        run.no_duplicates(),
        forall|p: usize| #[trigger] run.contains(p) ==> s.is_out(b, p),
    ensures
        settled(s, run, id).wf(b),
        settled(s, run, id).class == s.class,
        settled(s, run, id).heap_id == s.heap_id,
        settled(s, run, id).local.len() >= s.local.len(),
        s.heap_id != id ==> settled(s, run, id).local == s.local,
        run.len() == 0 ==> settled(s, run, id) == s,
        forall|p: usize| #[trigger]
            settled(s, run, id).is_out(b, p) <==> s.is_out(b, p) && !run.contains(p),
{
    let t = settled(s, run, id);
    let back = run.reverse();
    assert forall|p: usize| #[trigger] back.contains(p) <==> run.contains(p) by {
        if run.contains(p) {
            let k = choose|k: int| 0 <= k < run.len() && run[k] == p;
            assert(back[run.len() - 1 - k] == p);
        }
        if back.contains(p) {
            let k = choose|k: int| 0 <= k < back.len() && back[k] == p;
            assert(run[run.len() - 1 - k] == p);
        }
    }
    assert(back.no_duplicates()) by {
        assert forall|i: int, j: int| 0 <= i < j < back.len() implies back[i] != back[j] by {
            assert(run[run.len() - 1 - i] != run[run.len() - 1 - j]);
        }
    }
    lemma_prefix(back, s.local);
    lemma_prefix(run, s.remote);
    if run.len() == 0 {
        assert(back + s.local =~= s.local);
        assert(run + s.remote =~= s.remote);
    }
    assert forall|i: int| 0 <= i < t.local.len() implies crate::slab::is_slot(
        b,
        t.class,
        #[trigger] t.local[i],
    ) by {
        if s.heap_id == id {
            if i < back.len() {
                assert(back.contains(back[i]));
                assert(run.contains(back[i]));
            } else {
                assert(t.local[i] == s.local[i - back.len()]);
            }
        }
    }
    assert forall|i: int| 0 <= i < t.remote.len() implies crate::slab::is_slot(
        b,
        t.class,
        #[trigger] t.remote[i],
    ) by {
        if s.heap_id != id {
            if i < run.len() {
                assert(run.contains(run[i]));
            } else {
                assert(t.remote[i] == s.remote[i - run.len()]);
            }
        }
    }
    assert(t.wf(b)) by {
        assert forall|p: usize| !(#[trigger] t.local.contains(p) && t.remote.contains(p)) by {
            if s.heap_id == id {
                assert((back + s.local).contains(p) <==> back.contains(p) || s.local.contains(p));
                if run.contains(p) {
                    assert(s.is_out(b, p));
                }
            } else {
                assert((run + s.remote).contains(p) <==> run.contains(p) || s.remote.contains(p));
                if run.contains(p) {
                    assert(s.is_out(b, p));
                }
            }
        }
    }
}

/// All slots of the cache go back to their slabs.
pub proof fn lemma_settle(s: State, id: usize, c: int)
    requires
        s.wf(id, c),
    ensures
        keeps(s.pool, settle(s.pool, s.bin.cache, id), id, c),
        forall|q: usize| #[trigger]
            owned(settle(s.pool, s.bin.cache, id), id, c, q) <==> owned(s.pool, id, c, q),
        forall|p: usize| !#[trigger] cached_for(settle(s.pool, s.bin.cache, id), id, c, p),
        forall|q: usize| #[trigger]
            s.pool.slabs.contains_key(q) ==> settle(s.pool, s.bin.cache, id).slabs[q].local.len()
                >= s.pool.slabs[q].local.len(),
{
    let v = s.pool;
    let cache = s.bin.cache;
    let n = settle(v, cache, id);
    assert forall|q: usize| #[trigger] v.slabs.contains_key(q) implies {
        &&& n.slabs[q].wf(q)
        &&& n.slabs[q].class == v.slabs[q].class
        &&& n.slabs[q].heap_id == v.slabs[q].heap_id
        &&& n.slabs[q].local.len() >= v.slabs[q].local.len()
        &&& v.slabs[q].heap_id != id || v.slabs[q].class != c ==> n.slabs[q].local
            == v.slabs[q].local
        &&& forall|p: usize| #[trigger]
            n.slabs[q].is_out(q, p) <==> v.slabs[q].is_out(q, p) && !cache.contains(p)
    } by {
        let run = run_of(cache, q);
        let f = |p: usize| base_of(p) == q;
        crate::segment::lemma_filter(cache, f);
        assert forall|p: usize| #[trigger] run.contains(p) implies v.slabs[q].is_out(q, p)
            && v.slabs[q].class == c by {
            assert(cache.contains(p));
            assert(cached_for(v, id, c, p));
            assert(v.cached.contains_key(p));
        }
        lemma_settled(v.slabs[q], q, run, id);
        if v.slabs[q].class != c {
            if run.len() > 0 {
                assert(run.contains(run[0]));
            }
        }
        assert forall|p: usize| #[trigger] n.slabs[q].is_out(q, p) <==> v.slabs[q].is_out(q, p)
            && !cache.contains(p) by {
            assert(settled(v.slabs[q], run, id).is_out(q, p) <==> v.slabs[q].is_out(q, p)
                && !run.contains(p));
            if v.slabs[q].is_out(q, p) {
                crate::slab::lemma_slot_index(q, v.slabs[q].class, p);
            }
        }
    }
    assert forall|q: usize| v.slabs.contains_key(q) implies (#[trigger] n.is_abandoned(q)
        <==> v.is_abandoned(q)) by {}
    assert(n.wf()) by {
        assert forall|d: int, q: usize|
            #![trigger n.abandoned[d].contains(q)]
            0 <= d < NUM_CLASSES && n.abandoned[d].contains(q) implies n.slabs.contains_key(q)
            && n.slabs[q].class == d by {
            assert(v.abandoned[d].contains(q));
        }
        assert forall|b: usize| #[trigger] n.slabs.contains_key(b) implies n.mem.out.contains(b)
            && n.slabs[b].wf(b) && n.slabs[b].heap_id < n.id_bound by {
            assert(v.slabs.contains_key(b));
        }
        assert forall|p: usize| #[trigger] n.cached.contains_key(p) implies n.slabs.contains_key(
            base_of(p),
        ) && n.slabs[base_of(p)].is_out(base_of(p), p) && n.cached[p] < n.id_bound by {
            assert(v.cached.contains_key(p));
            assert(v.slabs.contains_key(base_of(p)));
        }
    }
    assert forall|p: usize| #[trigger] n.is_lent(p) <==> v.is_lent(p) by {
        if v.slabs.contains_key(base_of(p)) {
            assert(cache.contains(p) ==> cached_for(v, id, c, p));
        }
    }
    assert(n.lent() =~= v.lent());
    assert forall|i: usize, d: int, q: usize|
        #![trigger owned(v, i, d, q)]
        #![trigger owned(n, i, d, q)]
        owned(n, i, d, q) == owned(v, i, d, q) by {
        if v.slabs.contains_key(q) {
            assert(n.is_abandoned(q) <==> v.is_abandoned(q));
        }
    }
    assert forall|i: usize, d: int, p: usize|
        #![trigger cached_for(v, i, d, p)]
        #![trigger cached_for(n, i, d, p)]
        cached_for(n, i, d, p) == (cached_for(v, i, d, p) && !cache.contains(p)) by {
        if v.cached.contains_key(p) {
            assert(v.slabs.contains_key(base_of(p)));
        }
    }
    assert forall|i: usize, d: int, p: usize|
        #![trigger cached_for(v, i, d, p)]
        #![trigger cached_for(n, i, d, p)]
        (i != id || d != c) implies cached_for(n, i, d, p) == cached_for(v, i, d, p) by {
        assert(cache.contains(p) <==> cached_for(v, id, c, p));
    }
    assert forall|p: usize| !#[trigger] cached_for(n, id, c, p) by {
        assert(cache.contains(p) <==> cached_for(v, id, c, p));
    }
}

/// Flushing the cache.
pub proof fn lemma_step_flushed(s: State, id: usize, c: int)
    requires
        s.wf(id, c),
    ensures
        s.flushed(id).wf(id, c),
        keeps(s.pool, s.flushed(id).pool, id, c),
        s.flushed(id).bin.cache.len() == 0,
        s.flushed(id).bin.active == s.bin.active,
{
    if s.bin.cache.len() > 0 {
        let v = settle(s.pool, s.bin.cache, id);
        let t = State { bin: BinView { cache: Seq::empty(), ..s.bin }, pool: v };
        let u = t.promoted();
        lemma_settle(s, id, c);
        let none = |b: usize| v.slabs[b].local.len() == 0;
        let some = |b: usize| v.slabs[b].local.len() > 0;
        crate::segment::lemma_filter(s.bin.full, none);
        crate::segment::lemma_filter(s.bin.full, some);
        lemma_prefix(s.bin.partial, s.bin.full.filter(some));
        assert forall|q: usize| #[trigger] u.bin.holds(q) <==> owned(v, id, c, q) by {
            assert(s.bin.holds(q) <==> owned(s.pool, id, c, q));
            assert(owned(v, id, c, q) <==> owned(s.pool, id, c, q));
        }
        assert forall|q: usize| #[trigger] u.bin.partial.contains(q) implies v.slabs[q].local.len()
            > 0 by {
            if s.bin.partial.contains(q) {
                assert(s.bin.holds(q));
                assert(owned(s.pool, id, c, q));
            }
        }
        assert(u.wf(id, c));
        lemma_step_drained(u, id, c);
        lemma_keeps_trans(s.pool, v, u.drained().pool, id, c);
    }
}

/// A step that keeps everything, then one that lends a slot.
pub proof fn lemma_keeps_lends(a: PoolView, b: PoolView, v: PoolView, id: usize, c: int, p: usize)
    requires
        keeps(a, b, id, c),
        lends(b, v, id, c, p),
    ensures
        lends(a, v, id, c, p),
{
    lemma_undisturbed_trans(a, b, v, id, c);
    assert(a.is_lent(p) <==> a.lent().contains_key(p));
    assert(b.is_lent(p) <==> b.lent().contains_key(p));
}

/// A step that keeps everything, then one that takes a slot back.
pub proof fn lemma_keeps_regains(
    a: PoolView,
    b: PoolView,
    v: PoolView,
    id: usize,
    c: int,
    p: usize,
)
    requires
        keeps(a, b, id, c),
        regains(b, v, id, c, p),
    ensures
        regains(a, v, id, c, p),
{
    lemma_undisturbed_trans(a, b, v, id, c);
    assert(a.is_lent(p) <==> a.lent().contains_key(p));
    assert(b.is_lent(p) <==> b.lent().contains_key(p));
}

/// Two steps that leave others undisturbed.
pub proof fn lemma_undisturbed_trans(a: PoolView, b: PoolView, v: PoolView, id: usize, c: int)
    requires
        undisturbed(a, b, id, c),
        undisturbed(b, v, id, c),
    ensures
        undisturbed(a, v, id, c),
{
    assert forall|i: usize, d: int, q: usize|
        #![trigger owned(a, i, d, q)]
        #![trigger owned(v, i, d, q)]
        (i != id || d != c) implies owned(v, i, d, q) == owned(a, i, d, q) && (owned(a, i, d, q)
        ==> v.slabs[q].local == a.slabs[q].local) by {
        assert(owned(b, i, d, q) == owned(a, i, d, q));
    }
    assert forall|i: usize, d: int, p: usize|
        #![trigger cached_for(a, i, d, p)]
        #![trigger cached_for(v, i, d, p)]
        (i != id || d != c) implies cached_for(v, i, d, p) == cached_for(a, i, d, p) by {
        assert(cached_for(b, i, d, p) == cached_for(a, i, d, p));
    }
}

/// Taking the first free slot of the active slab.
pub proof fn lemma_step_popped(s: State, id: usize, c: int)
    requires
        s.wf(id, c),
        s.bin.active is Some,
        s.slab().local.len() > 0,
    ensures
        s.popped().wf(id, c),
        lends(s.pool, s.popped().pool, id, c, s.slab().local[0]),
{
    let b = s.bin.active->0;
    let v = s.pool;
    let a = v.slabs[b];
    let p = a.local[0];
    let t = a.popped();
    let n = s.popped().pool;
    assert(s.bin.holds(b));
    assert(owned(v, id, c, b));
    assert(a.wf(b));
    assert(a.local.contains(p));
    crate::slab::lemma_slot_index(b, c, p);
    assert forall|q: usize| #[trigger] t.local.contains(q) <==> a.local.contains(q) && q != p by {
        if a.local.contains(q) && q != p {
            let k = choose|k: int| 0 <= k < a.local.len() && a.local[k] == q;
            assert(t.local[k - 1] == q);
        }
        if t.local.contains(q) {
            let k = choose|k: int| 0 <= k < t.local.len() && t.local[k] == q;
            assert(a.local[k + 1] == q);
        }
    }
    assert(t.wf(b)) by {
        assert forall|q: usize| !(#[trigger] t.local.contains(q) && t.remote.contains(q)) by {
            assert(t.local.contains(q) ==> a.local.contains(q));
        }
    }
    assert forall|q: usize| #[trigger] t.is_out(b, q) <==> a.is_out(b, q) || q == p by {
        assert(!a.remote.contains(p));
    }
    lemma_own_slab(s, b, t, id, c);
    assert(n.wf()) by {
        assert forall|d: int, q: usize|
            #![trigger n.abandoned[d].contains(q)]
            0 <= d < NUM_CLASSES && n.abandoned[d].contains(q) implies n.slabs.contains_key(q)
            && n.slabs[q].class == d by {
            assert(v.abandoned[d].contains(q));
        }
        assert forall|q: usize| #[trigger] n.cached.contains_key(q) implies n.slabs.contains_key(
            base_of(q),
        ) && n.slabs[base_of(q)].is_out(base_of(q), q) && n.cached[q] < n.id_bound by {
            assert(v.cached.contains_key(q));
        }
    }
    assert(!v.cached.contains_key(p));
    assert forall|q: usize| #[trigger] n.is_lent(q) <==> v.is_lent(q) || q == p by {
        if base_of(q) == b {
            assert(t.is_out(b, q) <==> a.is_out(b, q) || q == p);
        }
    }
    assert(n.lent() =~= v.lent().insert(p, c));
}

/// Taking the last slot of the cache.
pub proof fn lemma_step_uncached(s: State, id: usize, c: int)
    requires
        s.wf(id, c),
        s.bin.cache.len() > 0,
    ensures
        s.uncached().wf(id, c),
        lends(s.pool, s.uncached().pool, id, c, s.bin.cache.last()),
{
    let v = s.pool;
    let n = s.uncached();
    let p = s.bin.cache.last();
    lemma_drop_last(s.bin.cache);
    assert(cached_for(v, id, c, p));
    assert forall|d: int, q: usize|
        #![trigger n.pool.abandoned[d].contains(q)]
        0 <= d < NUM_CLASSES && n.pool.abandoned[d].contains(q) implies n.pool.slabs.contains_key(q)
        && n.pool.slabs[q].class == d by {
        assert(v.abandoned[d].contains(q));
    }
    assert forall|q: usize| #[trigger] n.pool.cached.contains_key(q) implies v.cached.contains_key(
        q,
    ) by {}
    assert forall|q: usize| #[trigger] n.pool.is_lent(q) <==> v.is_lent(q) || q == p by {}
    assert(n.pool.lent() =~= v.lent().insert(p, c));
    assert forall|i: usize, d: int, b: usize|
        #![trigger owned(v, i, d, b)]
        #![trigger owned(n.pool, i, d, b)]
        owned(n.pool, i, d, b) == owned(v, i, d, b) by {
        assert(n.pool.is_abandoned(b) <==> v.is_abandoned(b));
    }
    assert forall|i: usize, d: int, q: usize|
        #![trigger cached_for(v, i, d, q)]
        #![trigger cached_for(n.pool, i, d, q)]
        cached_for(n.pool, i, d, q) == (cached_for(v, i, d, q) && q != p) by {}
    assert forall|q: usize| #[trigger] n.bin.holds(q) <==> owned(n.pool, id, c, q) by {
        assert(s.bin.holds(q) <==> owned(v, id, c, q));
    }
}

/// Freeing a slot of the active slab.
pub proof fn lemma_step_pushed(s: State, p: usize, id: usize, c: int)
    requires
        s.wf(id, c),
        s.pool.is_lent(p),
        s.bin.active == Some(base_of(p)),
    ensures
        s.pushed(p).wf(id, c),
        regains(s.pool, s.pushed(p).pool, id, c, p),
{
    let b = base_of(p);
    let v = s.pool;
    let a = v.slabs[b];
    let t = a.pushed(p);
    let n = s.pushed(p).pool;
    assert(s.bin.holds(b));
    assert(owned(v, id, c, b));
    let one = seq![p];
    assert(one[0] == p);
    lemma_prefix(one, a.local);
    assert(t.wf(b)) by {
        assert forall|i: int| 0 <= i < t.local.len() implies crate::slab::is_slot(
            b,
            t.class,
            #[trigger] t.local[i],
        ) by {
            if i > 0 {
                assert(t.local[i] == a.local[i - 1]);
            }
        }
        assert forall|q: usize| !(#[trigger] t.local.contains(q) && t.remote.contains(q)) by {
            assert(one.contains(q) <==> q == p);
        }
    }
    assert forall|q: usize| #[trigger] t.is_out(b, q) <==> a.is_out(b, q) && q != p by {
        assert(one.contains(q) <==> q == p);
        assert(t.local.contains(q) <==> one.contains(q) || a.local.contains(q));
    }
    lemma_own_slab(s, b, t, id, c);
    assert(n.wf()) by {
        assert forall|d: int, q: usize|
            #![trigger n.abandoned[d].contains(q)]
            0 <= d < NUM_CLASSES && n.abandoned[d].contains(q) implies n.slabs.contains_key(q)
            && n.slabs[q].class == d by {
            assert(v.abandoned[d].contains(q));
        }
        assert forall|q: usize| #[trigger] n.cached.contains_key(q) implies n.slabs.contains_key(
            base_of(q),
        ) && n.slabs[base_of(q)].is_out(base_of(q), q) && n.cached[q] < n.id_bound by {
            assert(v.cached.contains_key(q));
        }
    }
    assert forall|q: usize| #[trigger] n.is_lent(q) <==> v.is_lent(q) && q != p by {
        if base_of(q) == b {
            assert(t.is_out(b, q) <==> a.is_out(b, q) && q != p);
        }
    }
    assert(n.lent() =~= v.lent().remove(p));
}

/// Putting a freed slot into the cache.
pub proof fn lemma_step_cached(s: State, p: usize, id: usize, c: int)
    requires
        s.wf(id, c),
        s.pool.is_lent(p),
        s.pool.slabs[base_of(p)].class == c,
        s.bin.cache.len() < CACHE_CAP,
    ensures
        s.cached(p, id).wf(id, c),
        regains(s.pool, s.cached(p, id).pool, id, c, p),
{
    let v = s.pool;
    let n = s.cached(p, id);
    assert(!s.bin.cache.contains(p)) by {
        assert(s.bin.cache.contains(p) <==> cached_for(v, id, c, p));
    }
    lemma_push(s.bin.cache, p);
    assert forall|d: int, q: usize|
        #![trigger n.pool.abandoned[d].contains(q)]
        0 <= d < NUM_CLASSES && n.pool.abandoned[d].contains(q) implies n.pool.slabs.contains_key(q)
        && n.pool.slabs[q].class == d by {
        assert(v.abandoned[d].contains(q));
    }
    assert forall|q: usize| #[trigger] n.pool.cached.contains_key(q) implies v.cached.contains_key(
        q,
    ) || q == p by {}
    assert forall|q: usize| #[trigger] n.pool.is_lent(q) <==> v.is_lent(q) && q != p by {}
    assert(n.pool.lent() =~= v.lent().remove(p));
    assert forall|i: usize, d: int, b: usize|
        #![trigger owned(v, i, d, b)]
        #![trigger owned(n.pool, i, d, b)]
        owned(n.pool, i, d, b) == owned(v, i, d, b) by {
        assert(n.pool.is_abandoned(b) <==> v.is_abandoned(b));
    }
    assert forall|i: usize, d: int, q: usize|
        #![trigger cached_for(v, i, d, q)]
        #![trigger cached_for(n.pool, i, d, q)]
        cached_for(n.pool, i, d, q) == (cached_for(v, i, d, q) || (q == p && i == id && d == c)) by {}
    assert forall|q: usize| #[trigger] n.bin.holds(q) <==> owned(n.pool, id, c, q) by {
        assert(s.bin.holds(q) <==> owned(v, id, c, q));
    }
}

/// Freeing a slot.
pub proof fn lemma_step_dealloced(s: State, p: usize, id: usize, c: int)
    requires
        s.wf(id, c),
        s.pool.is_lent(p),
        s.pool.slabs[base_of(p)].class == c,
    ensures
        s.dealloced(p, id).wf(id, c),
        regains(s.pool, s.dealloced(p, id).pool, id, c, p),
{
    if s.bin.active == Some(base_of(p)) {
        lemma_step_pushed(s, p, id, c);
    } else if s.bin.cache.len() >= CACHE_CAP {
        let t = s.flushed(id);
        lemma_step_flushed(s, id, c);
        assert(s.pool.lent().contains_key(p));
        assert(t.pool.lent().contains_key(p));
        assert(t.pool.lent()[p] == s.pool.lent()[p]);
        lemma_step_cached(t, p, id, c);
        lemma_keeps_regains(s.pool, t.pool, t.cached(p, id).pool, id, c, p);
    } else {
        lemma_step_cached(s, p, id, c);
    }
}

/// Starting a slab that the pool has handed out.
pub proof fn lemma_step_started(s: State, b: usize, id: usize, c: int)
    requires
        s.wf(id, c),
        s.bin.active is None,
        crate::slab::slab_place(b),
        s.pool.mem.out.contains(b),
        !s.pool.slabs.contains_key(b),
    ensures
        s.started(b, id, c).wf(id, c),
        keeps(s.pool, s.started(b, id, c).pool, id, c),
        s.started(b, id, c).slab().local.len() > 0,
        s.started(b, id, c).slab().local[0] == crate::slab::slot_at(b as int, c, 0),
{
    let v = s.pool;
    let n = s.started(b, id, c);
    let t = crate::slab::fresh_slab(b, c).owned_by(id);
    crate::slab::lemma_all_slots(b, c);
    crate::slab::lemma_geometry(c);
    crate::slab::lemma_slot(b, c, 0);
    assert forall|p: usize| !#[trigger] t.is_out(b, p) by {
        assert(crate::slab::is_slot(b, c, p) <==> crate::slab::all_slots(b, c).contains(p));
    }
    assert forall|d: int, q: usize|
        #![trigger n.pool.abandoned[d].contains(q)]
        0 <= d < NUM_CLASSES && n.pool.abandoned[d].contains(q) implies n.pool.slabs.contains_key(q)
        && n.pool.slabs[q].class == d && q != b by {
        assert(v.abandoned[d].contains(q));
    }
    assert(n.pool.wf());
    assert forall|q: usize| #[trigger] n.pool.is_lent(q) <==> v.is_lent(q) by {
        if base_of(q) == b {
            assert(!t.is_out(b, q));
        }
    }
    assert(n.pool.lent() =~= v.lent());
    assert forall|i: usize, d: int, q: usize|
        #![trigger owned(v, i, d, q)]
        #![trigger owned(n.pool, i, d, q)]
        owned(n.pool, i, d, q) == (owned(v, i, d, q) || (q == b && i == id && d == c)) by {
        if q != b {
            assert(n.pool.is_abandoned(q) <==> v.is_abandoned(q));
        } else {
            assert(!n.pool.is_abandoned(b)) by {
                assert(n.pool.abandoned[c].contains(b) ==> false);
            }
        }
    }
    assert forall|i: usize, d: int, p: usize|
        #![trigger cached_for(v, i, d, p)]
        #![trigger cached_for(n.pool, i, d, p)]
        cached_for(n.pool, i, d, p) == cached_for(v, i, d, p) by {
        if v.cached.contains_key(p) {
            assert(v.slabs.contains_key(base_of(p)));
        }
    }
    assert(!s.bin.holds(b)) by {
        assert(s.bin.holds(b) <==> owned(v, id, c, b));
    }
    assert forall|q: usize| #[trigger] n.bin.holds(q) <==> owned(n.pool, id, c, q) by {
        assert(s.bin.holds(q) <==> owned(v, id, c, q));
    }
    assert forall|q: usize| #[trigger] n.bin.full.contains(q) implies n.pool.slabs[q].local.len()
        == 0 by {
        assert(s.bin.holds(q));
    }
    assert forall|q: usize| #[trigger] n.bin.partial.contains(q) implies n.pool.slabs[q].local.len()
        > 0 by {
        assert(s.bin.holds(q));
    }
}

/// Giving up a slab.
pub proof fn lemma_released(v: PoolView, b: usize, id: usize, c: int)
    requires
        v.wf(),
        owned(v, id, c, b),
    ensures
        keeps(v, released(v, b), id, c),
        disposed(released(v, b), b),
        forall|q: usize| #[trigger]
            owned(released(v, b), id, c, q) <==> owned(v, id, c, q) && q != b,
        forall|p: usize| #[trigger]
            cached_for(released(v, b), id, c, p) <==> cached_for(v, id, c, p),
        forall|q: usize| q != b && disposed(v, q) ==> #[trigger] disposed(released(v, b), q),
{
    let t = v.slabs[b].drained();
    let n = released(v, b);
    if t.is_fully_free() {
        lemma_freed(v, b);
        lemma_slab_gone(v, b, id, c);
        assert forall|q: usize| q != b && disposed(v, q) implies #[trigger] disposed(n, q) by {
            if n.slabs.contains_key(q) {
                assert(n.is_abandoned(q) <==> v.is_abandoned(q));
                assert(n.slabs[q] == v.slabs[q]);
            }
        }
    } else {
        let w = v.with_slab(b, t);
        lemma_drained(v, b);
        crate::slab::law_drain_keeps_each_slot_once(v.slabs[b], b);
        crate::slab::law_fully_free_iff_none_out(t, b);
        assert(!w.is_abandoned(b));
        crate::pool::lemma_orphaned_wf(w, b);
        assert(n.lent() =~= w.lent());
        assert forall|i: usize, d: int, q: usize|
            #![trigger owned(v, i, d, q)]
            #![trigger owned(n, i, d, q)]
            owned(n, i, d, q) == (owned(v, i, d, q) && q != b) by {
            if v.slabs.contains_key(q) {
                assert(w.is_abandoned(q) <==> v.is_abandoned(q));
                assert(n.is_abandoned(q) <==> w.is_abandoned(q) || q == b);
            }
        }
        assert forall|i: usize, d: int, p: usize|
            #![trigger cached_for(v, i, d, p)]
            #![trigger cached_for(n, i, d, p)]
            cached_for(n, i, d, p) == cached_for(v, i, d, p) by {}
        assert(n.is_abandoned(b));
        assert forall|q: usize| q != b && disposed(v, q) implies #[trigger] disposed(n, q) by {
            if n.slabs.contains_key(q) {
                assert(w.is_abandoned(q) <==> v.is_abandoned(q));
                assert(n.is_abandoned(q) <==> w.is_abandoned(q) || q == b);
                assert(n.slabs[q] == v.slabs[q]);
            }
        }
    }
}

/// Giving up a list of slabs.
pub proof fn lemma_released_all(v: PoolView, list: Seq<usize>, id: usize, c: int)
    requires
        v.wf(),
        list.no_duplicates(),
        forall|q: usize| #[trigger] list.contains(q) ==> owned(v, id, c, q),
    ensures
        keeps(v, released_all(v, list), id, c),
        forall|q: usize| #[trigger] list.contains(q) ==> disposed(released_all(v, list), q),
        forall|q: usize| #[trigger]
            owned(released_all(v, list), id, c, q) <==> owned(v, id, c, q) && !list.contains(q),
        forall|p: usize| #[trigger]
            cached_for(released_all(v, list), id, c, p) <==> cached_for(v, id, c, p),
        forall|q: usize|
            !list.contains(q) && disposed(v, q) ==> #[trigger] disposed(released_all(v, list), q),
    decreases list.len(),
{
    if list.len() > 0 {
        let b = list.last();
        let rest = list.drop_last();
        let w = released(v, b);
        lemma_drop_last(list);
        lemma_released(v, b, id, c);
        assert forall|q: usize| #[trigger] rest.contains(q) implies owned(w, id, c, q) by {
            assert(list.contains(q));
        }
        lemma_released_all(w, rest, id, c);
        lemma_keeps_trans(v, w, released_all(w, rest), id, c);
    }
}

/// Giving up a bin: what was in use stays in use, nobody else is disturbed, and no slab and no
/// cached slot of the bin is left; its slabs are gone, or wait to be adopted.
pub proof fn lemma_closed_down(s: State, id: usize, c: int)
    requires
        s.wf(id, c),
    ensures
        keeps(s.pool, s.closed_down(id), id, c),
        forall|q: usize| !#[trigger] owned(s.closed_down(id), id, c, q),
        forall|p: usize| !#[trigger] cached_for(s.closed_down(id), id, c, p),
        forall|q: usize| #[trigger] owned(s.pool, id, c, q) ==> disposed(s.closed_down(id), q),
{
    let t = s.flushed(id);
    lemma_step_flushed(s, id, c);
    let v1 = if t.bin.active is Some {
        released(t.pool, t.bin.active->0)
    } else {
        t.pool
    };
    assert forall|q: usize| #[trigger] t.bin.holds(q) <==> owned(t.pool, id, c, q) by {}
    if t.bin.active is Some {
        assert(t.bin.holds(t.bin.active->0));
        lemma_released(t.pool, t.bin.active->0, id, c);
    }
    lemma_keeps_trans(s.pool, t.pool, v1, id, c);
    assert forall|q: usize| #[trigger] t.bin.full.contains(q) implies owned(v1, id, c, q) by {
        assert(t.bin.holds(q));
    }
    lemma_released_all(v1, t.bin.full, id, c);
    let v2 = released_all(v1, t.bin.full);
    lemma_keeps_trans(s.pool, v1, v2, id, c);
    assert forall|q: usize| #[trigger] t.bin.partial.contains(q) implies owned(v2, id, c, q) by {
        assert(t.bin.holds(q));
        assert(!t.bin.full.contains(q));
        assert(owned(v1, id, c, q));
    }
    lemma_released_all(v2, t.bin.partial, id, c);
    let v3 = released_all(v2, t.bin.partial);
    lemma_keeps_trans(s.pool, v2, v3, id, c);
    assert forall|q: usize| !#[trigger] owned(v3, id, c, q) by {
        assert(t.bin.holds(q) <==> owned(t.pool, id, c, q));
        assert(owned(v3, id, c, q) <==> owned(v2, id, c, q) && !t.bin.partial.contains(q));
        assert(owned(v2, id, c, q) <==> owned(v1, id, c, q) && !t.bin.full.contains(q));
    }
    assert forall|p: usize| !#[trigger] cached_for(v3, id, c, p) by {
        assert(t.bin.cache.contains(p) <==> cached_for(t.pool, id, c, p));
        assert(cached_for(v3, id, c, p) <==> cached_for(v2, id, c, p));
        assert(cached_for(v2, id, c, p) <==> cached_for(v1, id, c, p));
        assert(cached_for(v1, id, c, p) <==> cached_for(t.pool, id, c, p));
    }
    lemma_flush_holds(s, id, c);
    assert forall|q: usize| #[trigger] owned(s.pool, id, c, q) implies disposed(v3, q) by {
        assert(t.bin.holds(q));
        if t.bin.partial.contains(q) {
        } else if t.bin.full.contains(q) {
            assert(disposed(v2, q));
            assert(disposed(v3, q));
        } else {
            assert(disposed(v1, q));
            assert(disposed(v2, q));
            assert(disposed(v3, q));
        }
    }
}

/// Flushing keeps the bin's slabs.
proof fn lemma_flush_holds(s: State, id: usize, c: int)
    requires
        s.wf(id, c),
    ensures
        forall|q: usize| #[trigger] owned(s.pool, id, c, q) ==> s.flushed(id).bin.holds(q),
{
    let t = s.flushed(id);
    lemma_settle(s, id, c);
    let slabs = settle(s.pool, s.bin.cache, id).slabs;
    let none = |b: usize| slabs[b].local.len() == 0;
    let some = |b: usize| slabs[b].local.len() > 0;
    crate::segment::lemma_filter(s.bin.full, none);
    crate::segment::lemma_filter(s.bin.full, some);
    lemma_prefix(s.bin.partial, s.bin.full.filter(some));
    assert forall|q: usize| #[trigger] owned(s.pool, id, c, q) implies t.bin.holds(q) by {
        assert(s.bin.holds(q));
    }
}

/// Giving up a bin does nothing to slabs of other classes.
pub proof fn lemma_closed_down_classes(s: State, id: usize, c: int)
    requires
        s.wf(id, c),
    ensures
        other_classes_same(s.pool, s.closed_down(id), c),
{
    let t = s.flushed(id);
    lemma_step_flushed(s, id, c);
    lemma_flush_classes(s, id, c);
    let v1 = if t.bin.active is Some {
        released(t.pool, t.bin.active->0)
    } else {
        t.pool
    };
    assert forall|q: usize| #[trigger] t.bin.holds(q) <==> owned(t.pool, id, c, q) by {}
    if t.bin.active is Some {
        assert(t.bin.holds(t.bin.active->0));
        lemma_released(t.pool, t.bin.active->0, id, c);
    }
    assert(other_classes_same(t.pool, v1, c));
    assert(other_classes_same(s.pool, v1, c));
    assert forall|q: usize| #[trigger] t.bin.full.contains(q) implies owned(v1, id, c, q) by {
        assert(t.bin.holds(q));
    }
    lemma_released_all(v1, t.bin.full, id, c);
    lemma_released_all_classes(v1, t.bin.full, id, c);
    let v2 = released_all(v1, t.bin.full);
    assert forall|q: usize| #[trigger] t.bin.partial.contains(q) implies owned(v2, id, c, q) by {
        assert(t.bin.holds(q));
        assert(!t.bin.full.contains(q));
        assert(owned(v1, id, c, q));
    }
    assert(other_classes_same(s.pool, v2, c));
    lemma_released_all_classes(v2, t.bin.partial, id, c);
}

/// Giving up a list of slabs does nothing to slabs of other classes.
proof fn lemma_released_all_classes(v: PoolView, list: Seq<usize>, id: usize, c: int)
    requires
        v.wf(),
        list.no_duplicates(),
        forall|q: usize| #[trigger] list.contains(q) ==> owned(v, id, c, q),
    ensures
        other_classes_same(v, released_all(v, list), c),
    decreases list.len(),
{
    if list.len() > 0 {
        let b = list.last();
        let w = released(v, b);
        lemma_drop_last(list);
        lemma_released(v, b, id, c);
        assert(other_classes_same(v, w, c));
        assert forall|q: usize| #[trigger] list.drop_last().contains(q) implies owned(
            w,
            id,
            c,
            q,
        ) by {
            assert(list.contains(q));
        }
        lemma_released_all_classes(w, list.drop_last(), id, c);
    }
}

/// Flushing the cache does nothing to slabs of other classes.
proof fn lemma_flush_classes(s: State, id: usize, c: int)
    requires
        s.wf(id, c),
    ensures
        other_classes_same(s.pool, s.flushed(id).pool, c),
{
    let v = s.pool;
    let cache = s.bin.cache;
    let n = settle(v, cache, id);
    lemma_settle(s, id, c);
    assert forall|q: usize| #[trigger] v.slabs.contains_key(q) implies n.slabs[q].class
        == v.slabs[q].class && (v.slabs[q].class != c ==> n.slabs[q] == v.slabs[q]) by {
        let f = |p: usize| base_of(p) == q;
        let run = run_of(cache, q);
        crate::segment::lemma_filter(cache, f);
        if v.slabs[q].class != c {
            if run.len() > 0 {
                assert(run.contains(run[0]));
                assert(cached_for(v, id, c, run[0]));
            }
            assert(run =~= Seq::empty());
            assert(run.reverse() + v.slabs[q].local =~= v.slabs[q].local);
            assert(run + v.slabs[q].remote =~= v.slabs[q].remote);
        }
    }
    if s.bin.active is Some {
        assert(s.bin.holds(s.bin.active->0));
        assert(owned(v, id, c, s.bin.active->0));
    }
}

/// Draining slabs of the bin one after the other.
pub proof fn lemma_drained_each(v: PoolView, list: Seq<usize>, id: usize, c: int)
    requires
        v.wf(),
        forall|q: usize| #[trigger] list.contains(q) ==> owned(v, id, c, q),
    ensures
        keeps(v, drained_each(v, list), id, c),
        drained_each(v, list).mem == v.mem,
        drained_each(v, list).slabs.dom() == v.slabs.dom(),
        forall|q: usize| #[trigger]
            owned(drained_each(v, list), id, c, q) <==> owned(v, id, c, q),
        forall|p: usize| #[trigger]
            cached_for(drained_each(v, list), id, c, p) <==> cached_for(v, id, c, p),
        forall|q: usize| #[trigger]
            v.slabs.contains_key(q) ==> drained_each(v, list).slabs[q].local.len()
                >= v.slabs[q].local.len(),
    decreases list.len(),
{
    if list.len() > 0 {
        let b = list.last();
        let rest = list.drop_last();
        assert(list[list.len() - 1] == b);
        assert(list.contains(b));
        let w = v.with_slab(b, v.slabs[b].drained());
        lemma_drained(v, b);
        assert forall|i: usize, d: int, q: usize|
            #![trigger owned(v, i, d, q)]
            #![trigger owned(w, i, d, q)]
            owned(w, i, d, q) == owned(v, i, d, q) by {
            assert(w.is_abandoned(q) <==> v.is_abandoned(q));
        }
        assert forall|i: usize, d: int, p: usize|
            #![trigger cached_for(v, i, d, p)]
            #![trigger cached_for(w, i, d, p)]
            cached_for(w, i, d, p) == cached_for(v, i, d, p) by {}
        assert forall|q: usize| #[trigger] rest.contains(q) implies owned(w, id, c, q) by {
            let k = choose|k: int| 0 <= k < rest.len() && rest[k] == q;
            assert(list[k] == q);
            assert(list.contains(q));
        }
        lemma_drained_each(w, rest, id, c);
        lemma_keeps_trans(v, w, drained_each(w, rest), id, c);
        assert(w.slabs.dom() =~= v.slabs.dom());
    }
}

/// Flushing the cache and draining every slab of the bin.
pub proof fn lemma_step_drained_all(s: State, id: usize, c: int)
    requires
        s.wf(id, c),
    ensures
        s.drained_all(id).wf(id, c),
        keeps(s.pool, s.drained_all(id).pool, id, c),
{
    let t = s.flushed(id);
    let u = t.drained();
    lemma_step_flushed(s, id, c);
    lemma_step_drained(t, id, c);
    lemma_keeps_trans(s.pool, t.pool, u.pool, id, c);
    assert forall|q: usize| #[trigger] u.bin.holds(q) <==> owned(u.pool, id, c, q) by {}
    let v1 = drained_each(u.pool, u.bin.full);
    let v2 = drained_each(v1, u.bin.partial);
    assert forall|q: usize| #[trigger] u.bin.full.contains(q) implies owned(u.pool, id, c, q) by {
        assert(u.bin.holds(q));
    }
    lemma_drained_each(u.pool, u.bin.full, id, c);
    assert forall|q: usize| #[trigger] u.bin.partial.contains(q) implies owned(v1, id, c, q) by {
        assert(u.bin.holds(q));
    }
    lemma_drained_each(v1, u.bin.partial, id, c);
    lemma_keeps_trans(s.pool, u.pool, v1, id, c);
    lemma_keeps_trans(s.pool, v1, v2, id, c);
    let n = s.drained_all(id);
    let none = |b: usize| v2.slabs[b].local.len() == 0;
    let some = |b: usize| v2.slabs[b].local.len() > 0;
    crate::segment::lemma_filter(u.bin.full, none);
    crate::segment::lemma_filter(u.bin.full, some);
    lemma_prefix(u.bin.partial, u.bin.full.filter(some));
    assert forall|q: usize| #[trigger] n.bin.holds(q) <==> owned(v2, id, c, q) by {
        assert(u.bin.holds(q) <==> owned(u.pool, id, c, q));
        assert(owned(v2, id, c, q) <==> owned(v1, id, c, q));
        assert(owned(v1, id, c, q) <==> owned(u.pool, id, c, q));
    }
    assert forall|p: usize| #[trigger] n.bin.cache.contains(p) <==> cached_for(v2, id, c, p) by {
        assert(u.bin.cache.contains(p) <==> cached_for(u.pool, id, c, p));
        assert(cached_for(v2, id, c, p) <==> cached_for(v1, id, c, p));
        assert(cached_for(v1, id, c, p) <==> cached_for(u.pool, id, c, p));
    }
    assert forall|q: usize| #[trigger] n.bin.partial.contains(q) implies v2.slabs[q].local.len()
        > 0 by {
        if u.bin.partial.contains(q) {
            assert(u.bin.holds(q));
            assert(owned(u.pool, id, c, q));
            assert(u.pool.slabs.contains_key(q));
            assert(v1.slabs.contains_key(q));
        }
    }
}

/// Slabs of the full queue from slab `k` on have nothing to drain.
pub open spec fn clean_from(s: State, k: int) -> bool {
    forall|i: int|
        k <= i < s.bin.full.len() ==> s.pool.slabs[#[trigger] s.bin.full[i]].remote.len() == 0
}

/// Scanning leaves only slabs without remote frees in the full queue.
pub proof fn lemma_scanned_clean(s: State, k: int, id: usize, c: int)
    requires
        s.wf(id, c),
        0 <= k <= s.bin.full.len(),
        clean_from(s, k),
    ensures
        clean_from(s.scanned_from(k), 0),
    decreases k,
{
    if k > 0 {
        let b = s.bin.full[k - 1];
        if s.pool.slabs[b].remote.len() == 0 {
            lemma_scanned_clean(s, k - 1, id, c);
        } else {
            let t = s.scanned_one(k - 1);
            lemma_step_scanned_one(s, k - 1, id, c);
            assert forall|i: int| k - 1 <= i < t.bin.full.len() implies t.pool.slabs[
                #[trigger] t.bin.full[i]
            ].remote.len() == 0 by {
                assert(t.bin.full[i] == s.bin.full[i + 1]);
                assert(s.bin.full[i + 1] != b);
                assert(s.bin.full.contains(s.bin.full[i + 1]));
                assert(s.bin.holds(s.bin.full[i + 1]));
                assert(owned(s.pool, id, c, s.bin.full[i + 1]));
            }
            lemma_scanned_clean(t, k - 1, id, c);
        }
    }
}

/// Adopting puts only slabs without remote frees into the full queue, and uses none of the
/// partial queue.
proof fn lemma_adopted_clean(s: State, id: usize, c: int, n: nat)
    requires
        s.wf(id, c),
        n <= s.pool.abandoned[c].len(),
        clean_from(s, 0),
        s.bin.active is None,
        s.bin.partial.len() == 0,
    ensures
        s.adopted_n(id, c, n).bin.active is None ==> clean_from(s.adopted_n(id, c, n), 0)
            && s.adopted_n(id, c, n).bin.partial.len() == 0,
    decreases n,
{
    if n > 0 {
        let t = s.adopted_one(id, c);
        lemma_step_adopted_one(s, id, c);
        lemma_step_adopted(t, id, c, (n - 1) as nat);
        if t.bin.active is None {
            let b = s.pool.abandoned[c].last();
            crate::pool::lemma_adopted_wf(s.pool, c);
            assert forall|i: int| 0 <= i < t.bin.full.len() implies t.pool.slabs[
                #[trigger] t.bin.full[i]
            ].remote.len() == 0 by {
                if i < s.bin.full.len() {
                    let q = s.bin.full[i];
                    assert(t.bin.full[i] == q);
                    assert(s.bin.full.contains(q));
                    assert(s.bin.holds(q));
                    assert(owned(s.pool, id, c, q));
                    assert(q != b);
                }
            }
            lemma_adopted_clean(t, id, c, (n - 1) as nat);
        }
    }
}

/// Where preparing a bin gives no active slab, nothing is left to use.
pub proof fn lemma_nothing_left(s: State, id: usize, c: int)
    requires
        s.wf(id, c),
        s.prepared(id, c).bin.active is None,
    ensures
        s.prepared(id, c).pool.abandoned[c].len() == 0,
        s.prepared(id, c).bin.partial.len() == 0,
        forall|b: usize| #[trigger]
            s.prepared(id, c).bin.holds(b) ==> s.prepared(id, c).pool.slabs[b].local.len() == 0
                && s.prepared(id, c).pool.slabs[b].remote.len() == 0,
{
    let s1 = s.refreshed();
    let s2 = s1.next_partial();
    let s3 = s2.scanned();
    lemma_step_refreshed(s, id, c);
    lemma_step_partial(s1, id, c);
    lemma_step_scanned(s2, s2.bin.full.len() as int, id, c);
    lemma_scanned_clean(s2, s2.bin.full.len() as int, id, c);
    let n = s3.pool.abandoned[c].len();
    lemma_step_adopted(s3, id, c, n);
    lemma_adopted_clean(s3, id, c, n);
    let t = s.prepared(id, c);
    assert forall|b: usize| #[trigger] t.bin.holds(b) implies t.pool.slabs[b].local.len() == 0
        && t.pool.slabs[b].remote.len() == 0 by {
        assert(t.bin.full.contains(b));
        let i = choose|i: int| 0 <= i < t.bin.full.len() && t.bin.full[i] == b;
        assert(t.pool.slabs[t.bin.full[i]].remote.len() == 0);
    }
}

} // verus!
