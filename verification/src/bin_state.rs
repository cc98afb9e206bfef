//! What the slabs and the cache of one size class of one heap are, and how they change.
//!
//! A [`State`] is the state of one bin together with the state of the pool. Its methods are the
//! steps that a heap takes: each says what the state is afterwards.

use vstd::prelude::*;

use crate::pool::PoolView;
use crate::segment::raised_by;
use crate::size_class::NUM_CLASSES;
use crate::slab::base_of;
use crate::slab::fresh_slab;
use crate::slab::SlabView;

verus! {

/// Entries that the free cache of a size class has room for.
pub const CACHE_CAP: usize = 64;

/// Slab `b` is of class `c` and belongs to heap `id`.
pub open spec fn owned(pool: PoolView, id: usize, c: int, b: usize) -> bool {
    &&& pool.slabs.contains_key(b)
    &&& pool.slabs[b].heap_id == id
    &&& pool.slabs[b].class == c
    &&& !pool.is_abandoned(b)
}

/// Slot `p` is of class `c` and in the cache of heap `id`.
pub open spec fn cached_for(pool: PoolView, id: usize, c: int, p: usize) -> bool {
    &&& pool.cached.contains_key(p)
    &&& pool.cached[p] == id
    &&& pool.slabs[base_of(p)].class == c
}

/// Slabs and cache of one size class of a heap.
#[verifier::ext_equal]
pub struct BinView {
    /// The slab that blocks are handed out from.
    pub active: Option<usize>,
    /// Slabs without a free slot, the one that came last at the end.
    pub full: Seq<usize>,
    /// Slabs with free slots, the next one to use at the end.
    pub partial: Seq<usize>,
    /// Slots that have been freed but not given back to their slabs, the next one to use at the end.
    pub cache: Seq<usize>,
    /// Count of the slots that others have freed and that have been recovered from remote free
    /// lists.
    pub remote_frees: u64,
}

impl BinView {
    /// A bin with nothing in it.
    pub open spec fn empty() -> BinView {
        BinView {
            active: None,
            full: Seq::empty(),
            partial: Seq::empty(),
            cache: Seq::empty(),
            remote_frees: 0,
        }
    }

    /// After the slots of a slab's remote free list have been recovered.
    pub open spec fn received(self, s: SlabView) -> BinView {
        BinView { remote_frees: raised_by(self.remote_frees, s.remote.len() as int), ..self }
    }

    /// After the active slab, if there is one, has moved to the full queue.
    pub open spec fn retired(self) -> BinView {
        if self.active is Some {
            BinView { active: None, full: self.full.push(self.active->0), ..self }
        } else {
            self
        }
    }

    /// After the next slab of the partial queue, if there is one, has become the active slab.
    pub open spec fn next_partial(self) -> BinView {
        if self.partial.len() == 0 {
            self
        } else {
            BinView {
                active: Some(self.partial.last()),
                partial: self.partial.drop_last(),
                ..self
            }
        }
    }

    /// Slab `b` is the active slab or in one of the two queues.
    pub open spec fn holds(self, b: usize) -> bool {
        self.active == Some(b) || self.full.contains(b) || self.partial.contains(b)
    }

    /// The bin holds exactly the slabs of class `c` that belong to heap `id`, each in one place:
    /// in the full queue those without free slots, in the partial queue some with free slots. The
    /// cache holds exactly the slots that the pool knows to be in it.
    pub open spec fn wf(self, pool: PoolView, id: usize, c: int) -> bool {
        &&& self.cache.len() <= CACHE_CAP
        &&& self.cache.no_duplicates()
        &&& self.full.no_duplicates()
        &&& self.partial.no_duplicates()
        &&& forall|b: usize| #[trigger] self.full.contains(b) ==> !self.partial.contains(b)
        &&& self.active matches Some(b) ==> !self.full.contains(b) && !self.partial.contains(b)
        &&& forall|b: usize| #[trigger] self.holds(b) <==> owned(pool, id, c, b)
        &&& forall|p: usize| #[trigger] self.cache.contains(p) <==> cached_for(pool, id, c, p)
        &&& forall|b: usize| #[trigger] self.full.contains(b) ==> pool.slabs[b].local.len() == 0
        &&& forall|b: usize| #[trigger] self.partial.contains(b) ==> pool.slabs[b].local.len() > 0
    }
}

/// Nothing changes for another heap, nor for another class of the same heap: which slabs and
/// which cached slots are theirs, and what is on the local free lists of those slabs.
pub open spec fn undisturbed(old: PoolView, new: PoolView, id: usize, c: int) -> bool {
    &&& forall|i: usize, d: int, b: usize|
        #![trigger owned(old, i, d, b)]
        #![trigger owned(new, i, d, b)]
        (i != id || d != c) ==> owned(new, i, d, b) == owned(old, i, d, b) && (owned(old, i, d, b)
            ==> new.slabs[b].local == old.slabs[b].local)
    &&& forall|i: usize, d: int, p: usize|
        #![trigger cached_for(old, i, d, p)]
        #![trigger cached_for(new, i, d, p)]
        (i != id || d != c) ==> cached_for(new, i, d, p) == cached_for(old, i, d, p)
}

/// The pool stays well formed, the blocks in use stay in use, and other bins are undisturbed.
pub open spec fn keeps(old: PoolView, new: PoolView, id: usize, c: int) -> bool {
    &&& new.wf()
    &&& new.id_bound == old.id_bound
    &&& new.lent() == old.lent()
    &&& new.mem.large == old.mem.large
    &&& undisturbed(old, new, id, c)
}

/// The slot `p` of class `c`, which was not in use, is in use now; everything else is kept.
pub open spec fn lends(old: PoolView, new: PoolView, id: usize, c: int, p: usize) -> bool {
    &&& new.wf()
    &&& new.id_bound == old.id_bound
    &&& !old.is_lent(p)
    &&& new.lent() == old.lent().insert(p, c)
    &&& new.mem.large == old.mem.large
    &&& undisturbed(old, new, id, c)
}

/// The slot `p`, which was in use, is in use no more; everything else is kept.
pub open spec fn regains(old: PoolView, new: PoolView, id: usize, c: int, p: usize) -> bool {
    &&& new.wf()
    &&& new.id_bound == old.id_bound
    &&& old.is_lent(p)
    &&& new.lent() == old.lent().remove(p)
    &&& new.mem.large == old.mem.large
    &&& undisturbed(old, new, id, c)
}

/// The entries of `cache` that lie in slab `b`, in the order they came.
pub open spec fn run_of(cache: Seq<usize>, b: usize) -> Seq<usize> {
    cache.filter(|p: usize| base_of(p) == b)
}

/// The slab after heap `id` has given the slots of `run` back to it: one by one to the local free
/// list where the heap owns the slab, as one chain to the remote free list where it does not.
pub open spec fn settled(s: SlabView, run: Seq<usize>, id: usize) -> SlabView {
    if s.heap_id == id {
        SlabView { local: run.reverse() + s.local, ..s }
    } else {
        s.chained_remote(run)
    }
}

/// The slabs after all slots of `cache` have gone back to them.
pub open spec fn settled_slabs(
    slabs: Map<usize, SlabView>,
    cache: Seq<usize>,
    id: usize,
) -> Map<usize, SlabView> {
    Map::new(
        |b: usize| slabs.contains_key(b),
        |b: usize| settled(slabs[b], run_of(cache, b), id),
    )
}

/// What is in caches after the slots of `cache` have left theirs.
pub open spec fn without_all(cached: Map<usize, usize>, cache: Seq<usize>) -> Map<usize, usize> {
    Map::new(|p: usize| cached.contains_key(p) && !cache.contains(p), |p: usize| cached[p])
}

/// The pool after all slots of `cache` have gone back to their slabs.
pub open spec fn settle(pool: PoolView, cache: Seq<usize>, id: usize) -> PoolView {
    PoolView {
        slabs: settled_slabs(pool.slabs, cache, id),
        cached: without_all(pool.cached, cache),
        ..pool
    }
}

/// The pool after slab `b` has been given up by its heap: drained, then returned to the pool
/// where it is fully free, left for another heap where it is not.
pub open spec fn released(pool: PoolView, b: usize) -> PoolView {
    let s = pool.slabs[b].drained();
    if s.is_fully_free() {
        pool.freed(b)
    } else {
        pool.with_slab(b, s).orphaned(b)
    }
}

/// The pool after the slabs of `list` have been given up, the last one first.
pub open spec fn released_all(pool: PoolView, list: Seq<usize>) -> PoolView
    decreases list.len(),
{
    if list.len() == 0 {
        pool
    } else {
        released_all(released(pool, list.last()), list.drop_last())
    }
}

/// The pool after each slab of `list` has been drained, the last one first.
pub open spec fn drained_each(pool: PoolView, list: Seq<usize>) -> PoolView
    decreases list.len(),
{
    if list.len() == 0 {
        pool
    } else {
        drained_each(
            pool.with_slab(list.last(), pool.slabs[list.last()].drained()),
            list.drop_last(),
        )
    }
}

/// The count `n` after each slab of `list` has been drained, the last one first.
pub open spec fn drained_count(pool: PoolView, list: Seq<usize>, n: u64) -> u64
    decreases list.len(),
{
    if list.len() == 0 {
        n
    } else {
        let s = pool.slabs[list.last()];
        drained_count(
            pool.with_slab(list.last(), s.drained()),
            list.drop_last(),
            raised_by(n, s.remote.len() as int),
        )
    }
}

/// The count `n` after the slabs of `list` have been given up, the last one first.
pub open spec fn released_count(pool: PoolView, list: Seq<usize>, n: u64) -> u64
    decreases list.len(),
{
    if list.len() == 0 {
        n
    } else {
        released_count(
            released(pool, list.last()),
            list.drop_last(),
            raised_by(n, pool.slabs[list.last()].remote.len() as int),
        )
    }
}

/// Slab `q` is gone, or waits to be adopted because a slot of it is out.
pub open spec fn disposed(v: PoolView, q: usize) -> bool {
    v.slabs.contains_key(q) ==> v.is_abandoned(q) && v.slabs[q].remote.len() == 0 && exists|p: usize|
        v.slabs[q].is_out(q, p)
}

/// No slab is new, slabs of other classes than `c` are the same, and so are the lists on which they wait.
pub open spec fn other_classes_same(old: PoolView, new: PoolView, c: int) -> bool {
    &&& forall|b: usize| #[trigger]
        old.slabs.contains_key(b) && old.slabs[b].class != c ==> new.slabs.contains_key(b)
            && new.slabs[b] == old.slabs[b]
    &&& forall|b: usize| #[trigger]
        new.slabs.contains_key(b) ==> old.slabs.contains_key(b) && (new.slabs[b].class != c
            ==> old.slabs[b] == new.slabs[b])
    &&& new.abandoned.len() == old.abandoned.len()
    &&& forall|d: int|
        0 <= d < old.abandoned.len() && d != c ==> #[trigger] new.abandoned[d] == old.abandoned[d]
}

/// A bin and the pool.
#[verifier::ext_equal]
pub struct State {
    pub bin: BinView,
    pub pool: PoolView,
}

impl State {
    /// Pool and bin are well formed.
    pub open spec fn wf(self, id: usize, c: int) -> bool {
        &&& 0 <= c < NUM_CLASSES
        &&& id < self.pool.id_bound
        &&& self.pool.wf()
        &&& self.bin.wf(self.pool, id, c)
    }

    /// The active slab.
    pub open spec fn slab(self) -> SlabView {
        self.pool.slabs[self.bin.active->0]
    }

    /// After the last slot of the cache has been taken.
    pub open spec fn uncached(self) -> State {
        State {
            bin: BinView { cache: self.bin.cache.drop_last(), ..self.bin },
            pool: self.pool.without_cached(self.bin.cache.last()),
        }
    }

    /// After the first free slot of the active slab has been taken.
    pub open spec fn popped(self) -> State {
        State {
            pool: self.pool.with_slab(self.bin.active->0, self.slab().popped()),
            ..self
        }
    }

    /// After the active slab, if there is one, has been drained.
    pub open spec fn drained(self) -> State {
        if self.bin.active is Some {
            State {
                bin: self.bin.received(self.slab()),
                pool: self.pool.with_slab(self.bin.active->0, self.slab().drained()),
            }
        } else {
            self
        }
    }

    /// After the active slab has moved to the full queue.
    pub open spec fn retired(self) -> State {
        State { bin: self.bin.retired(), ..self }
    }

    /// An active slab without a free slot is drained, and retired if that gives none.
    pub open spec fn refreshed(self) -> State {
        if self.bin.active is None || self.slab().local.len() > 0 {
            self
        } else if self.slab().remote.len() > 0 {
            self.drained()
        } else {
            self.retired()
        }
    }

    /// After the slabs of the full queue that have free slots have moved to the partial queue.
    pub open spec fn promoted(self) -> State {
        let slabs = self.pool.slabs;
        State {
            bin: BinView {
                full: self.bin.full.filter(|b: usize| slabs[b].local.len() == 0),
                partial: self.bin.partial + self.bin.full.filter(
                    |b: usize| slabs[b].local.len() > 0,
                ),
                ..self.bin
            },
            ..self
        }
    }

    /// After the cache has been flushed: its slots have gone back to their slabs, slabs of the
    /// full queue that gained one have moved on, and the active slab has been drained.
    pub open spec fn flushed(self, id: usize) -> State {
        if self.bin.cache.len() == 0 {
            self
        } else {
            State {
                bin: BinView { cache: Seq::empty(), ..self.bin },
                pool: settle(self.pool, self.bin.cache, id),
            }.promoted().drained()
        }
    }

    /// After the next slab of the partial queue has become the active slab.
    pub open spec fn next_partial(self) -> State {
        State { bin: self.bin.next_partial(), ..self }
    }

    /// After slab `i` of the full queue, which has remote frees, has been drained: a fully free
    /// slab goes back to the pool, another becomes active or joins the partial queue.
    pub open spec fn scanned_one(self, i: int) -> State {
        let b = self.bin.full[i];
        let s = self.pool.slabs[b].drained();
        let bin = BinView { full: self.bin.full.remove(i), ..self.bin }.received(
            self.pool.slabs[b],
        );
        if s.is_fully_free() {
            State { bin, pool: self.pool.freed(b) }
        } else if self.bin.active is None {
            State { bin: BinView { active: Some(b), ..bin }, pool: self.pool.with_slab(b, s) }
        } else {
            State {
                bin: BinView { partial: bin.partial.push(b), ..bin },
                pool: self.pool.with_slab(b, s),
            }
        }
    }

    /// After the first `k` slabs of the full queue have been scanned, from the last of them on.
    pub open spec fn scanned_from(self, k: int) -> State
        decreases k,
    {
        if k <= 0 {
            self
        } else if self.pool.slabs[self.bin.full[k - 1]].remote.len() == 0 {
            self.scanned_from(k - 1)
        } else {
            self.scanned_one(k - 1).scanned_from(k - 1)
        }
    }

    /// After the whole full queue has been scanned.
    pub open spec fn scanned(self) -> State {
        self.scanned_from(self.bin.full.len() as int)
    }

    /// After heap `id` has adopted the next abandoned slab of class `c`: a fully free slab goes
    /// back to the pool, another becomes active or joins the queue it belongs to.
    pub open spec fn adopted_one(self, id: usize, c: int) -> State {
        let b = self.pool.abandoned[c].last();
        let s = self.pool.slabs[b].owned_by(id).drained();
        let bin = self.bin.received(self.pool.slabs[b]);
        let pool = self.pool.adopted(c);
        if s.is_fully_free() {
            State { bin, pool: pool.freed(b) }
        } else if s.local.len() == 0 {
            State {
                bin: BinView { full: bin.full.push(b), ..bin },
                pool: pool.with_slab(b, s),
            }
        } else if self.bin.active is None {
            State { bin: BinView { active: Some(b), ..bin }, pool: pool.with_slab(b, s) }
        } else {
            State {
                bin: BinView { partial: bin.partial.push(b), ..bin },
                pool: pool.with_slab(b, s),
            }
        }
    }

    /// After `n` abandoned slabs have been adopted.
    pub open spec fn adopted_n(self, id: usize, c: int, n: nat) -> State
        decreases n,
    {
        if n == 0 {
            self
        } else {
            self.adopted_one(id, c).adopted_n(id, c, (n - 1) as nat)
        }
    }

    /// After all abandoned slabs of the class have been adopted.
    pub open spec fn adopted_all(self, id: usize, c: int) -> State {
        self.adopted_n(id, c, self.pool.abandoned[c].len())
    }

    /// After everything has been tried, in this order and as far as needed, to have an active slab
    /// with a free slot without a new slab from the pool: the active slab itself, the partial
    /// queue, the full queue, the abandoned slabs.
    pub open spec fn prepared(self, id: usize, c: int) -> State {
        let s1 = self.refreshed();
        let s2 = s1.next_partial();
        let s3 = s2.scanned();
        if s1.bin.active is Some {
            s1
        } else if s2.bin.active is Some {
            s2
        } else if s3.bin.active is Some {
            s3
        } else {
            s3.adopted_all(id, c)
        }
    }

    /// After slab `b`, which the pool has handed out, has become the active slab.
    pub open spec fn started(self, b: usize, id: usize, c: int) -> State {
        State {
            bin: BinView { active: Some(b), ..self.bin },
            pool: self.pool.with_slab(b, fresh_slab(b, c).owned_by(id)),
        }
    }

    /// After the slot `p` of the active slab has been freed.
    pub open spec fn pushed(self, p: usize) -> State {
        State {
            pool: self.pool.with_slab(self.bin.active->0, self.slab().pushed(p)),
            ..self
        }
    }

    /// After the slot `p` has gone into the cache.
    pub open spec fn cached(self, p: usize, id: usize) -> State {
        State {
            bin: BinView { cache: self.bin.cache.push(p), ..self.bin },
            pool: self.pool.with_cached(p, id),
        }
    }

    /// After the slot `p` has been freed: into the active slab if it is a slot of that, else into
    /// the cache, which is flushed first if it is full.
    pub open spec fn dealloced(self, p: usize, id: usize) -> State {
        if self.bin.active == Some(base_of(p)) {
            self.pushed(p)
        } else if self.bin.cache.len() >= CACHE_CAP {
            self.flushed(id).cached(p, id)
        } else {
            self.cached(p, id)
        }
    }

    /// After the cache has been flushed and every slab of the bin has been drained.
    pub open spec fn drained_all(self, id: usize) -> State {
        let s = self.flushed(id).drained();
        let pool = drained_each(s.pool, s.bin.full);
        let n = drained_count(s.pool, s.bin.full, s.bin.remote_frees);
        State {
            bin: BinView { remote_frees: drained_count(pool, s.bin.partial, n), ..s.bin },
            pool: drained_each(pool, s.bin.partial),
        }.promoted()
    }

    /// After the heap has given up the bin: the cache has been flushed, and the active slab, the
    /// full queue and the partial queue have been released.
    pub open spec fn closed_down(self, id: usize) -> PoolView {
        let s = self.flushed(id);
        let pool = if s.bin.active is Some {
            released(s.pool, s.bin.active->0)
        } else {
            s.pool
        };
        released_all(released_all(pool, s.bin.full), s.bin.partial)
    }

    /// The count of remote frees that the bin has received when the heap has given it up.
    pub open spec fn closed_count(self, id: usize) -> u64 {
        let s = self.flushed(id);
        let (pool, n) = if s.bin.active is Some {
            (
                released(s.pool, s.bin.active->0),
                raised_by(s.bin.remote_frees, s.slab().remote.len() as int),
            )
        } else {
            (s.pool, s.bin.remote_frees)
        };
        let m = released_count(pool, s.bin.full, n);
        released_count(released_all(pool, s.bin.full), s.bin.partial, m)
    }
}

/// What taking a slot does: it comes from the cache, else from the active slab once everything has
/// been tried to have one, else from the slab that the pool hands out, if it has one to hand out.
pub open spec fn slot_taken(
    before: State,
    after: State,
    r: Option<usize>,
    id: usize,
    c: int,
) -> bool {
    let s = before.prepared(id, c);
    if before.bin.cache.len() > 0 {
        r == Some(before.bin.cache.last()) && after == before.uncached()
    } else if s.bin.active is Some {
        r == Some(s.slab().local[0]) && after == s.popped()
    } else {
        exists|granted: Option<usize>| #[trigger] slab_started(s, after, granted, r, id, c)
    }
}

/// What starting a new slab and taking its first slot does, where the pool hands out `granted`.
pub open spec fn slab_started(
    s: State,
    after: State,
    granted: Option<usize>,
    r: Option<usize>,
    id: usize,
    c: int,
) -> bool {
    &&& crate::pool::slab_granted(s.pool.mem, after.pool.mem, granted)
    &&& match granted {
        None => r is None && after == s,
        Some(b) => {
            let t = State { pool: s.pool.with_mem(after.pool.mem), ..s }.started(b, id, c);
            r == Some(t.slab().local[0]) && after == t.popped()
        },
    }
}

} // verus!
