//! The bytes of the blocks in use, the slabs that they lie in, and the segments behind those.

use vstd::prelude::*;

use crate::pool::PoolView;
use crate::segment::SEGMENT_SIZE;
use crate::size_class::class_bytes;
use crate::slab::all_slots;
use crate::slab::base_of;
use crate::slab::slots_in;
use crate::slab::SLAB_SIZE;

verus! {

/// Bytes of blocks that are given with their size classes.
pub open spec fn block_bytes(blocks: Map<usize, int>) -> int
    decreases blocks.dom().len(),
    when blocks.dom().finite()
{
    if blocks.dom().len() == 0 {
        0
    } else {
        let p = blocks.dom().choose();
        class_bytes(blocks[p]) + block_bytes(blocks.remove(p))
    }
}

/// The blocks in use that lie in one of the given slabs.
spec fn lent_in(v: PoolView, slabs: Set<usize>) -> Map<usize, int> {
    v.lent().restrict(Set::new(|p: usize| slabs.contains(base_of(p))))
}

/// Any block can be counted first.
proof fn lemma_pick(m: Map<usize, int>, q: usize)
    requires
        m.dom().finite(),
        m.contains_key(q),
    ensures
        block_bytes(m) == class_bytes(m[q]) + block_bytes(m.remove(q)),
    decreases m.dom().len(),
{
    let p = m.dom().choose();
    if p != q {
        lemma_pick(m.remove(p), q);
        lemma_pick(m.remove(q), p);
        assert(m.remove(p).remove(q) =~= m.remove(q).remove(p));
    }
}

/// The blocks of some addresses and the others add up.
proof fn lemma_split(m: Map<usize, int>, s: Set<usize>)
    requires
        m.dom().finite(),
    ensures
        m.restrict(s).dom().finite(),
        m.remove_keys(s).dom().finite(),
        block_bytes(m) == block_bytes(m.restrict(s)) + block_bytes(m.remove_keys(s)),
    decreases m.dom().len(),
{
    vstd::set_lib::lemma_len_subset(m.restrict(s).dom(), m.dom());
    vstd::set_lib::lemma_len_subset(m.remove_keys(s).dom(), m.dom());
    if m.dom().len() > 0 {
        let p = m.dom().choose();
        let n = m.remove(p);
        lemma_split(n, s);
        if s.contains(p) {
            lemma_pick(m.restrict(s), p);
            assert(m.restrict(s).remove(p) =~= n.restrict(s));
            assert(m.remove_keys(s) =~= n.remove_keys(s));
        } else {
            lemma_pick(m.remove_keys(s), p);
            assert(m.remove_keys(s).remove(p) =~= n.remove_keys(s));
            assert(m.restrict(s) =~= n.restrict(s));
        }
    }
}

/// Blocks of one class.
proof fn lemma_uniform(m: Map<usize, int>, c: int)
    requires
        m.dom().finite(),
        forall|p: usize| #[trigger] m.contains_key(p) ==> m[p] == c,
    ensures
        block_bytes(m) == m.dom().len() * class_bytes(c),
    decreases m.dom().len(),
{
    let k = class_bytes(c);
    if m.dom().len() > 0 {
        let p = m.dom().choose();
        assert(m.contains_key(p));
        lemma_uniform(m.remove(p), c);
        let n = m.dom().len() as int;
        assert(n * k == k + (n - 1) * k) by (nonlinear_arith);
    } else {
        assert(0 * k == 0) by (nonlinear_arith);
    }
}

/// The blocks in one slab take no more bytes than it has.
proof fn lemma_one_slab(v: PoolView, b: usize)
    requires
        v.wf(),
        v.slabs.contains_key(b),
    ensures
        lent_in(v, set![b]).dom().finite(),
        block_bytes(lent_in(v, set![b])) <= SLAB_SIZE,
{
    let m = lent_in(v, set![b]);
    let c = v.slabs[b].class;
    let slots = all_slots(b, c);
    crate::slab::lemma_geometry(c);
    assert forall|p: usize| #[trigger] m.contains_key(p) implies slots.to_set().contains(p) && m[p]
        == c by {
        assert(v.is_lent(p));
        crate::slab::lemma_slot_index(b, c, p);
        assert(slots[crate::slab::slot_index(b as int, c, p as int)] == p);
    }
    vstd::seq_lib::seq_to_set_is_finite(slots);
    vstd::set_lib::lemma_len_subset(m.dom(), slots.to_set());
    slots.lemma_cardinality_of_set();
    lemma_uniform(m, c);
    assert(m.dom().len() * class_bytes(c) <= slots_in(c) * class_bytes(c)) by (nonlinear_arith)
        requires
            m.dom().len() <= slots_in(c),
            class_bytes(c) >= 0,
    ;
}

/// The blocks in some slabs take no more bytes than those have.
proof fn lemma_slabs(v: PoolView, slabs: Set<usize>)
    requires
        v.wf(),
        slabs.finite(),
        slabs.subset_of(v.slabs.dom()),
    ensures
        lent_in(v, slabs).dom().finite(),
        block_bytes(lent_in(v, slabs)) <= slabs.len() * SLAB_SIZE,
    decreases slabs.len(),
{
    let m = lent_in(v, slabs);
    if slabs.len() == 0 {
        assert(m.dom() =~= Set::empty()) by {
            assert forall|p: usize| !m.contains_key(p) by {
                assert(!slabs.contains(base_of(p)));
            }
        }
    } else {
        let b = slabs.choose();
        let rest = slabs.remove(b);
        let here = Set::new(|p: usize| base_of(p) == b);
        lemma_slabs(v, rest);
        lemma_one_slab(v, b);
        assert(m.restrict(here) =~= lent_in(v, set![b]));
        assert(m.remove_keys(here) =~= lent_in(v, rest));
        assert(m.dom() =~= lent_in(v, set![b]).dom().union(lent_in(v, rest).dom()));
        lemma_split(m, here);
    }
}

/// The slabs that are out have room for all blocks in use that are not large: what is active is
/// never less than what is allocated.
pub proof fn law_active_covers_allocated(v: PoolView)
    requires
        v.wf(),
    ensures
        v.lent().dom().finite(),
        block_bytes(v.lent()) <= v.mem.out.len() * SLAB_SIZE,
{
    crate::segment::lemma_few_out(v.mem, v.mem.segments.len() as int);
    vstd::set_lib::lemma_len_subset(v.slabs.dom(), v.mem.out);
    lemma_slabs(v, v.slabs.dom());
    assert(lent_in(v, v.slabs.dom()) =~= v.lent());
}

/// The segments have room for all slabs that are out: what is mapped is never less than what is
/// active.
pub proof fn law_mapped_covers_active(v: PoolView)
    requires
        v.wf(),
    ensures
        v.mem.out.len() * SLAB_SIZE <= v.mem.segments.len() * SEGMENT_SIZE,
{
    crate::segment::lemma_few_out(v.mem, v.mem.segments.len() as int);
}

/// The bytes of blocks are the sum over the blocks: each one more adds the size of its slot.
pub proof fn law_block_bytes_add_up(blocks: Map<usize, int>, p: usize, c: int)
    requires
        blocks.dom().finite(),
        !blocks.contains_key(p),
    ensures
        block_bytes(Map::empty()) == 0,
        block_bytes(blocks.insert(p, c)) == block_bytes(blocks) + class_bytes(c),
{
    let more = blocks.insert(p, c);
    assert(Map::<usize, int>::empty().dom() =~= Set::empty());
    assert(more.dom() =~= blocks.dom().insert(p));
    lemma_pick(more, p);
    assert(more.remove(p) =~= blocks);
}

} // verus!
