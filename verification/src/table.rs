//! The slabs that have been initialised, found by their address.
//!
//! A slab's header and slot words lie in the memory of the slab itself. The table stands for that
//! memory: it holds the state of each initialised slab under the slab's address, for its owner
//! ([`Slab`]) and for any heap that frees into it ([`SlabRef`]).

use std::collections::HashMap;

use vstd::prelude::*;

use crate::size_class::class_bytes;
use crate::slab::slots_in;
use crate::slab::Slab;
use crate::slab::SlabRef;
use crate::slab::SlabView;

verus! {

broadcast use vstd::std_specs::hash::group_hash_axioms;

/// The initialised slabs.
pub struct SlabTable {
    slabs: HashMap<usize, Slab>,
}

impl SlabTable {
    /// Each slab's contents, under its address.
    pub closed spec fn view(&self) -> Map<usize, SlabView> {
        Map::new(|base: usize| self.slabs@.contains_key(base), |base: usize| self.slabs@[base]@)
    }

    /// Each slab is well formed and stands under its own address.
    pub closed spec fn wf(&self) -> bool {
        forall|base: usize| #[trigger]
            self.slabs@.contains_key(base) ==> self.slabs@[base].wf() && self.slabs@[base].base()
                == base
    }

    /// A table without slabs.
    pub fn new() -> (r: SlabTable)
        ensures
            r.wf(),
            r@ == Map::<usize, SlabView>::empty(),
    {
        let r = SlabTable { slabs: HashMap::new() };
        assert(r@ =~= Map::empty());
        r
    }

    /// The slab at `base` has been initialised.
    pub fn contains(&self, base: usize) -> (r: bool)
        ensures
            r == self@.contains_key(base),
    {
        self.slabs.contains_key(&base)
    }

    /// Looks at the slab at `base`.
    pub fn get(&self, base: usize) -> (r: &Slab)
        requires
            self.wf(),
            self@.contains_key(base),
        ensures
            r.wf(),
            r.base() == base,
            r@ == self@[base],
    {
        self.slabs.get(&base).unwrap()
    }

    /// Takes the slab at `base` out of the table.
    pub fn take(&mut self, base: usize) -> (r: Slab)
        requires
            old(self).wf(),
            old(self)@.contains_key(base),
        ensures
            final(self).wf(),
            r.wf(),
            r.base() == base,
            r@ == old(self)@[base],
            final(self)@ == old(self)@.remove(base),
    {
        let r = self.slabs.remove(&base).unwrap();
        assert(self@ =~= old(self)@.remove(base));
        r
    }

    /// Puts a slab under its address.
    pub fn put(&mut self, slab: Slab)
        requires
            old(self).wf(),
            slab.wf(),
        ensures
            final(self).wf(),
            final(self)@ == old(self)@.insert(slab.base(), slab@),
    {
        let base: usize = slab.as_ref().base;
        let ghost state = slab@;
        self.slabs.insert(base, slab);
        assert(self@ =~= old(self)@.insert(base, state));
    }

    /// Pops a slot from the local free list of the slab at `base`.
    pub fn allocate(&mut self, base: usize) -> (r: Option<usize>)
        requires
            old(self).wf(),
            old(self)@.contains_key(base),
        ensures
            final(self).wf(),
            old(self)@[base].local.len() == 0 ==> r is None && final(self)@ == old(self)@,
            old(self)@[base].local.len() > 0 ==> r == Some(old(self)@[base].local[0]),
            old(self)@[base].local.len() > 0 ==> final(self)@ == old(self)@.insert(
                base,
                old(self)@[base].popped(),
            ),
    {
        let mut slab = self.take(base);
        let r = slab.allocate();
        self.put(slab);
        assert(self@ =~= old(self)@.insert(base, self@[base]));
        assert(old(self)@ =~= old(self)@.insert(base, old(self)@[base]));
        r
    }

    /// Returns a slot to the local free list of the slab at `base`.
    pub fn dealloc_local(&mut self, base: usize, ptr: usize)
        requires
            old(self).wf(),
            old(self)@.contains_key(base),
            old(self)@[base].is_out(base, ptr),
        ensures
            final(self).wf(),
            final(self)@ == old(self)@.insert(base, old(self)@[base].pushed(ptr)),
    {
        let mut slab = self.take(base);
        slab.dealloc_local(ptr);
        self.put(slab);
        assert(self@ =~= old(self)@.insert(base, self@[base]));
    }

    /// Drains the remote free list of the slab at `base`; returns the number of slots recovered.
    pub fn drain_remote(&mut self, base: usize) -> (count: u16)
        requires
            old(self).wf(),
            old(self)@.contains_key(base),
        ensures
            final(self).wf(),
            final(self)@ == old(self)@.insert(base, old(self)@[base].drained()),
            count == old(self)@[base].remote.len(),
    {
        let mut slab = self.take(base);
        let count: u16 = slab.drain_remote();
        self.put(slab);
        assert(self@ =~= old(self)@.insert(base, self@[base]));
        count
    }

    /// Puts the slab at `base` under the heap with the given id.
    pub fn set_heap_id(&mut self, base: usize, id: usize)
        requires
            old(self).wf(),
            old(self)@.contains_key(base),
        ensures
            final(self).wf(),
            final(self)@ == old(self)@.insert(base, old(self)@[base].owned_by(id)),
    {
        let mut slab = self.take(base);
        slab.set_heap_id(id);
        self.put(slab);
        assert(self@ =~= old(self)@.insert(base, self@[base]));
    }
}

impl SlabRef {
    /// Size of each slot.
    pub fn slot_size(&self, slabs: &SlabTable) -> (r: usize)
        requires
            slabs.wf(),
            slabs@.contains_key(self.base),
        ensures
            r == class_bytes(slabs@[self.base].class),
    {
        slabs.get(self.base).slot_size()
    }

    /// Number of slots.
    pub fn slot_count(&self, slabs: &SlabTable) -> (r: usize)
        requires
            slabs.wf(),
            slabs@.contains_key(self.base),
        ensures
            r == slots_in(slabs@[self.base].class),
    {
        slabs.get(self.base).slot_count()
    }

    /// The slab's size class.
    pub fn size_class_index(&self, slabs: &SlabTable) -> (r: usize)
        requires
            slabs.wf(),
            slabs@.contains_key(self.base),
        ensures
            r == slabs@[self.base].class,
    {
        slabs.get(self.base).size_class_index()
    }

    /// Id of the heap that owns the slab.
    pub fn heap_id(&self, slabs: &SlabTable) -> (r: usize)
        requires
            slabs.wf(),
            slabs@.contains_key(self.base),
        ensures
            r == slabs@[self.base].heap_id,
    {
        slabs.get(self.base).heap_id()
    }

    /// Push a freed slot onto the remote free list.
    ///
    /// `ptr` must be a slot of this slab that has been handed out and not freed since.
    pub fn dealloc_remote(&self, slabs: &mut SlabTable, ptr: usize)
        requires
            old(slabs).wf(),
            old(slabs)@.contains_key(self.base),
            old(slabs)@[self.base].is_out(self.base, ptr),
        ensures
            final(slabs).wf(),
            final(slabs)@ == old(slabs)@.insert(
                self.base,
                old(slabs)@[self.base].chained_remote(seq![ptr]),
            ),
    {
        let mut slab = slabs.take(self.base);
        slab.dealloc_remote(ptr);
        slabs.put(slab);
        assert(slabs@ =~= old(slabs)@.insert(self.base, slabs@[self.base]));
    }

    /// Pushes the slots `entries[from..to]` onto the remote free list as one chain.
    pub fn push_chain_remote(
        &self,
        slabs: &mut SlabTable,
        entries: &[usize],
        from: usize,
        to: usize,
    )
        requires
            old(slabs).wf(),
            old(slabs)@.contains_key(self.base),
            from < to <= entries.len(),
            entries@.subrange(from as int, to as int).no_duplicates(),
            forall|i: int|
                from <= i < to ==> old(slabs)@[self.base].is_out(self.base, #[trigger] entries[i]),
        ensures
            final(slabs).wf(),
            final(slabs)@ == old(slabs)@.insert(
                self.base,
                old(slabs)@[self.base].chained_remote(entries@.subrange(from as int, to as int)),
            ),
    {
        let mut slab = slabs.take(self.base);
        slab.push_chain_remote(entries, from, to);
        slabs.put(slab);
        assert(slabs@ =~= old(slabs)@.insert(self.base, slabs@[self.base]));
    }
}

} // verus!
