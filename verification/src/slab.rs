//! Slab management: contiguous memory regions serving allocations of a single size class.
//!
//! Each slab is 64KB, aligned to 64KB. Its header holds a local free list, which
//! only the owner touches, and a remote free list, onto which any other heap
//! pushes the slots it frees. Both lists run through the free slots themselves:
//! the first word of a free slot is the address of the next one.
//!
//! - [`Slab`] is the owner handle: header and slot words of one slab.
//! - [`SlabRef`] is the shared handle, recovered from any address inside a slab.

use vstd::prelude::*;

use crate::layout::next_multiple_of;
use crate::layout::round_up;
use crate::size_class::class_bytes;
use crate::size_class::class_size;
use crate::size_class::NUM_CLASSES;

verus! {

/// Size and alignment of a slab.
pub const SLAB_SIZE: usize = 65536;

/// Bytes at the start of a slab that the header takes: three 16-bit sizes and the class index
/// (8 bytes), head and length of the local list, and the head of the remote list. The owner's id
/// is kept beside the slab.
pub const HEADER_SIZE: usize = 32;

/// The start of the slab that the address `p` lies in.
pub open spec fn base_of(p: usize) -> usize {
    (p - p % SLAB_SIZE) as usize
}

/// Offset of the first slot: the header rounded up to a multiple of the slot size.
pub open spec fn slots_start(class: int) -> int {
    round_up(HEADER_SIZE as int, class_bytes(class))
}

/// Number of slots in a slab of the given class.
pub open spec fn slots_in(class: int) -> int {
    (SLAB_SIZE - slots_start(class)) / class_bytes(class)
}

/// Address of slot `i` of the slab at `base`.
pub open spec fn slot_at(base: int, class: int, i: int) -> int {
    base + slots_start(class) + i * class_bytes(class)
}

/// Number of the slot at address `p`.
pub open spec fn slot_index(base: int, class: int, p: int) -> int {
    (p - base - slots_start(class)) / class_bytes(class)
}

/// `p` is the address of a slot of the slab at `base`.
pub open spec fn is_slot(base: usize, class: int, p: usize) -> bool {
    let off = p - base - slots_start(class);
    &&& 0 <= off
    &&& off % class_bytes(class) == 0
    &&& slot_index(base as int, class, p as int) < slots_in(class)
}

/// The slots of a slab from the first to the last.
pub open spec fn all_slots(base: usize, class: int) -> Seq<usize> {
    Seq::new(slots_in(class) as nat, |i: int| slot_at(base as int, class, i) as usize)
}

/// What a slab is made of: its class and owner, and the free slots in list order.
#[verifier::ext_equal]
pub struct SlabView {
    pub class: int,
    pub heap_id: usize,
    pub local: Seq<usize>,
    pub remote: Seq<usize>,
}

impl SlabView {
    /// The slab at `base` lies where a slab can lie, and its two lists hold each slot at most once.
    pub open spec fn wf(self, base: usize) -> bool {
        &&& 0 <= self.class < NUM_CLASSES
        &&& slab_place(base)
        &&& forall|i: int| 0 <= i < self.local.len() ==> is_slot(base, self.class, #[trigger] self.local[i])
        &&& forall|i: int| 0 <= i < self.remote.len() ==> is_slot(base, self.class, #[trigger] self.remote[i])
        &&& self.local.no_duplicates()
        &&& self.remote.no_duplicates()
        &&& forall|p: usize| !(#[trigger] self.local.contains(p) && self.remote.contains(p))
    }

    /// The slot at `p` is neither on the local nor on the remote free list: it has been handed out.
    pub open spec fn is_out(self, base: usize, p: usize) -> bool {
        is_slot(base, self.class, p) && !self.local.contains(p) && !self.remote.contains(p)
    }

    /// Every slot is on the local free list.
    pub open spec fn is_fully_free(self) -> bool {
        self.local.len() == slots_in(self.class)
    }

    /// The slab after the remote list has been moved onto the local one.
    pub open spec fn drained(self) -> SlabView {
        SlabView { local: self.remote.reverse() + self.local, remote: Seq::empty(), ..self }
    }

    /// The slab after the first local slot has been handed out.
    pub open spec fn popped(self) -> SlabView {
        SlabView { local: self.local.skip(1), ..self }
    }

    /// The slab after its owner has freed the slot at `p`.
    pub open spec fn pushed(self, p: usize) -> SlabView {
        SlabView { local: seq![p] + self.local, ..self }
    }

    /// The slab after another heap has freed the slots of `chain`.
    pub open spec fn chained_remote(self, chain: Seq<usize>) -> SlabView {
        SlabView { remote: chain + self.remote, ..self }
    }

    /// The slab under another owner.
    pub open spec fn owned_by(self, id: usize) -> SlabView {
        SlabView { heap_id: id, ..self }
    }
}

/// A slab can lie at `base`: aligned to its size, not at zero, and within the address space.
pub open spec fn slab_place(base: usize) -> bool {
    &&& base > 0
    &&& base % SLAB_SIZE == 0
    &&& base + SLAB_SIZE <= usize::MAX
}

/// A slab with all its slots on the local free list in ascending order and no owner.
pub open spec fn fresh_slab(base: usize, class: int) -> SlabView {
    SlabView { class, heap_id: 0, local: all_slots(base, class), remote: Seq::empty() }
}

/// What the first word of element `i` of a free list holds: the next element, or zero at the end.
pub open spec fn next_of(list: Seq<usize>, i: int) -> usize {
    if i + 1 < list.len() {
        list[i + 1]
    } else {
        0
    }
}

/// Element `i` of the list is linked to its successor.
pub open spec fn linked_at(links: Seq<usize>, base: usize, class: int, list: Seq<usize>, i: int) -> bool {
    links[slot_index(base as int, class, list[i] as int)] == next_of(list, i)
}

/// The words of the slots in `list` link them one after the other, beginning at `head`.
pub open spec fn chained(links: Seq<usize>, base: usize, class: int, head: usize, list: Seq<usize>) -> bool {
    &&& head == next_of(list, -1)
    &&& forall|i: int|
        0 <= i < list.len() ==> #[trigger] linked_at(links, base, class, list, i)
}

/// Owner handle for a slab: the header and the words of its slots.
pub struct Slab {
    base: usize,
    slot_size: u16,
    slot_count: u16,
    slots_offset: u16,
    size_class_index: u8,
    heap_id: usize,
    head: usize,
    free_count: u16,
    remote_head: usize,
    links: Vec<usize>,
    local: Ghost<Seq<usize>>,
    remote: Ghost<Seq<usize>>,
}

impl Slab {
    /// The slab's contents.
    pub closed spec fn view(&self) -> SlabView {
        SlabView {
            class: self.size_class_index as int,
            heap_id: self.heap_id,
            local: self.local@,
            remote: self.remote@,
        }
    }

    /// The slab's address.
    pub closed spec fn base(&self) -> usize {
        self.base
    }

    /// The header fields agree with the class, and the two heads with the two lists.
    pub closed spec fn wf(&self) -> bool {
        &&& self.view().wf(self.base)
        &&& self.slot_size == class_bytes(self.size_class_index as int)
        &&& self.slot_count == slots_in(self.size_class_index as int)
        &&& self.slots_offset == slots_start(self.size_class_index as int)
        &&& self.links.len() == self.slot_count
        &&& self.free_count == self.local@.len()
        &&& chained(self.links@, self.base, self.size_class_index as int, self.head, self.local@)
        &&& chained(self.links@, self.base, self.size_class_index as int, self.remote_head, self.remote@)
    }

    /// The contents of a well-formed slab are well formed, so that what holds of contents holds of
    /// slabs.
    pub proof fn lemma_contents(&self)
        requires
            self.wf(),
        ensures
            self@.wf(self.base()),
    {
    }

    /// Initialize a slab at a 64KB-aligned address.
    ///
    /// Chains all slots into the local free list:
    /// slot\[0\] -> slot\[1\] -> ... -> slot\[N-1\] -> null.
    pub fn init(base: usize, size_class_index: u8) -> (slab: Slab)
        requires
            slab_place(base),
            size_class_index < NUM_CLASSES,
        ensures
            slab.wf(),
            slab.base() == base,
            slab@ == fresh_slab(base, size_class_index as int),
    {
        let ghost class = size_class_index as int;
        proof {
            lemma_geometry(class);
        }
        let slot_size: usize = class_size(size_class_index as usize);
        let slots_offset: usize = next_multiple_of(HEADER_SIZE, slot_size);
        let slot_count: usize = (SLAB_SIZE - slots_offset) / slot_size;
        let mut links: Vec<usize> = Vec::new();
        let mut i: usize = 0;
        while i < slot_count
            invariant
                i <= slot_count,
                links.len() == i,
            decreases slot_count - i,
        {
            links.push(0);
            i = i + 1;
        }
        let ghost slots = all_slots(base, class);
        let mut prev: usize = 0;
        while i > 0
            invariant
                0 <= i <= slot_count,
                links.len() == slot_count,
                class == size_class_index,
                0 <= class < NUM_CLASSES,
                slab_place(base),
                slot_size == class_bytes(class),
                slots_offset == slots_start(class),
                slot_count == slots_in(class),
                slots == all_slots(base, class),
                prev == next_of(slots, i - 1),
                forall|j: int|
                    i <= j < slot_count ==> #[trigger] linked_at(links@, base, class, slots, j),
            decreases i,
        {
            i = i - 1;
            proof {
                lemma_slot(base, class, i as int);
                assert forall|j: int| i < j < slot_count implies slot_index(
                    base as int,
                    class,
                    #[trigger] slots[j] as int,
                ) == j by {
                    lemma_slot(base, class, j);
                }
            }
            let slot: usize = base + slots_offset + i * slot_size;
            let ghost before = links@;
            links.set(i, prev);
            proof {
                assert(slots[i as int] == slot);
                assert forall|j: int| i <= j < slot_count implies #[trigger] linked_at(
                    links@,
                    base,
                    class,
                    slots,
                    j,
                ) by {
                    if j > i {
                        assert(linked_at(before, base, class, slots, j));
                        assert(slot_index(base as int, class, slots[j] as int) == j);
                    }
                }
            }
            prev = slot;
        }
        proof {
            lemma_all_slots(base, class);
        }
        Slab {
            base,
            slot_size: slot_size as u16,
            slot_count: slot_count as u16,
            slots_offset: slots_offset as u16,
            size_class_index,
            heap_id: 0,
            head: prev,
            free_count: slot_count as u16,
            remote_head: 0,
            links,
            local: Ghost(slots),
            remote: Ghost(Seq::empty()),
        }
    }

    /// Number of the slot at `ptr`.
    fn index_of(&self, ptr: usize) -> (i: usize)
        requires
            self.wf(),
            is_slot(self.base, self.size_class_index as int, ptr),
        ensures
            i == slot_index(self.base as int, self.size_class_index as int, ptr as int),
            i < self.links.len(),
    {
        proof {
            lemma_slot_index(self.base, self.size_class_index as int, ptr);
            lemma_geometry(self.size_class_index as int);
        }
        (ptr - self.base - self.slots_offset as usize) / self.slot_size as usize
    }

    /// Get a [`SlabRef`] for this slab.
    pub fn as_ref(&self) -> (r: SlabRef)
        ensures
            r.base == self.base(),
    {
        SlabRef { base: self.base }
    }

    /// Consume the owner handle, returning the slab's address.
    ///
    /// The slab must be fully free (all slots returned) before calling this.
    pub fn into_raw(self) -> (r: usize)
        ensures
            r == self.base(),
    {
        self.base
    }

    /// Size of each slot.
    pub fn slot_size(&self) -> (r: usize)
        requires
            self.wf(),
        ensures
            r == class_bytes(self@.class),
    {
        self.slot_size as usize
    }

    /// Number of slots.
    pub fn slot_count(&self) -> (r: usize)
        requires
            self.wf(),
        ensures
            r == slots_in(self@.class),
    {
        self.slot_count as usize
    }

    /// The slab's size class.
    pub fn size_class_index(&self) -> (r: usize)
        ensures
            r == self@.class,
    {
        self.size_class_index as usize
    }

    /// Id of the heap that owns the slab.
    pub fn heap_id(&self) -> (r: usize)
        ensures
            r == self@.heap_id,
    {
        self.heap_id
    }

    /// Puts the slab under the heap with the given id.
    pub fn set_heap_id(&mut self, id: usize)
        requires
            old(self).wf(),
        ensures
            final(self).wf(),
            final(self).base() == old(self).base(),
            final(self)@ == old(self)@.owned_by(id),
    {
        self.heap_id = id;
    }

    /// Free slots on the local list. Does not include remotely freed slots;
    /// call `drain_remote` first for a complete count.
    pub fn free_count(&self) -> (r: u16)
        requires
            self.wf(),
        ensures
            r == self@.local.len(),
    {
        self.free_count
    }

    /// True when every slot is on the local free list.
    /// Call `drain_remote` first to account for remotely freed slots.
    pub fn is_fully_free(&self) -> (r: bool)
        requires
            self.wf(),
        ensures
            r == self@.is_fully_free(),
    {
        self.free_count == self.slot_count
    }

    /// True when other heaps have freed slots that have not been drained.
    pub fn has_pending_remote(&self) -> (r: bool)
        requires
            self.wf(),
        ensures
            r == (self@.remote.len() > 0),
    {
        proof {
            if self.remote@.len() > 0 {
                lemma_slot_index(self.base, self.size_class_index as int, self.remote@[0]);
            }
        }
        self.remote_head != 0
    }

    /// Pop a slot from the local free list. O(1).
    pub fn allocate(&mut self) -> (r: Option<usize>)
        requires
            old(self).wf(),
        ensures
            final(self).wf(),
            final(self).base() == old(self).base(),
            old(self)@.local.len() == 0 ==> r is None && final(self)@ == old(self)@,
            old(self)@.local.len() > 0 ==> r == Some(old(self)@.local[0]) && final(self)@
                == old(self)@.popped(),
    {
        let ghost class = self.size_class_index as int;
        let ghost list = self.local@;
        proof {
            if list.len() > 0 {
                lemma_slot_index(self.base, class, list[0]);
            }
        }
        let head: usize = self.head;
        if head == 0 {
            return None;
        }
        let i: usize = self.index_of(head);
        proof {
            assert(linked_at(self.links@, self.base, class, list, 0));
        }
        self.head = self.links[i];
        self.free_count = self.free_count - 1;
        self.local = Ghost(list.skip(1));
        proof {
            let rest = list.skip(1);
            assert forall|j: int| 0 <= j < rest.len() implies #[trigger] linked_at(
                self.links@,
                self.base,
                class,
                rest,
                j,
            ) by {
                assert(linked_at(self.links@, self.base, class, list, j + 1));
            }
            assert(forall|p: usize| rest.contains(p) ==> list.contains(p));
        }
        Some(head)
    }

    /// Return a slot to the local free list. O(1).
    pub fn dealloc_local(&mut self, ptr: usize)
        requires
            old(self).wf(),
            old(self)@.is_out(old(self).base(), ptr),
        ensures
            final(self).wf(),
            final(self).base() == old(self).base(),
            final(self)@ == old(self)@.pushed(ptr),
    {
        let ghost class = self.size_class_index as int;
        let ghost list = self.local@;
        let ghost links = self.links@;
        proof {
            lemma_slot_index(self.base, class, ptr);
            lemma_lists_fit(self.view(), self.base);
            lemma_room(self.view(), self.base, ptr);
        }
        let i: usize = self.index_of(ptr);
        self.links.set(i, self.head);
        self.head = ptr;
        self.free_count = self.free_count + 1;
        self.local = Ghost(seq![ptr] + list);
        proof {
            lemma_relink(links, self.base, class, list, ptr, self.links[i as int]);
            lemma_relink(links, self.base, class, self.remote@, ptr, self.links[i as int]);
            lemma_push_front(self.links@, self.base, class, list, ptr);
        }
    }

    /// Drain the remote free list into the local free list.
    ///
    /// Sets the remote head to null, walks the chain, and prepends each
    /// node to the local list. Returns the number of slots recovered.
    pub fn drain_remote(&mut self) -> (count: u16)
        requires
            old(self).wf(),
        ensures
            final(self).wf(),
            final(self).base() == old(self).base(),
            final(self)@ == old(self)@.drained(),
            count == old(self)@.remote.len(),
    {
        let ghost class = self.size_class_index as int;
        let ghost chain = self.remote@;
        let ghost list = self.local@;
        let mut cursor: usize = self.remote_head;
        let mut count: u16 = 0;
        self.remote_head = 0;
        self.remote = Ghost(Seq::empty());
        let ghost mut done: int = 0;
        proof {
            lemma_lists_fit(old(self).view(), self.base);
            assert(chain.skip(0) =~= chain);
            assert(chain.take(0).reverse() + list =~= list);
        }
        while cursor != 0
            invariant
                self.wf(),
                class == self.size_class_index,
                self.base == old(self).base,
                self.heap_id == old(self).heap_id,
                self.size_class_index == old(self).size_class_index,
                old(self).wf(),
                chain == old(self).remote@,
                list == old(self).local@,
                list.len() + chain.len() <= slots_in(class) <= 8188,
                0 <= done <= chain.len(),
                count == done,
                self.remote@ == Seq::<usize>::empty(),
                self.local@ == chain.take(done).reverse() + list,
                chained(self.links@, self.base, class, cursor, chain.skip(done)),
            decreases chain.len() - done,
        {
            let ghost rest = chain.skip(done);
            proof {
                assert(rest.len() > 0);
                assert(rest[0] == chain[done]);
                assert(old(self).view().remote.contains(chain[done]));
                assert(!self.local@.contains(cursor)) by {
                    if self.local@.contains(cursor) {
                        let k = choose|k: int| 0 <= k < self.local@.len() && self.local@[k] == cursor;
                        if k < done {
                            assert(chain.take(done).reverse()[k] == chain[done - 1 - k]);
                            assert(chain[done - 1 - k] == chain[done]);
                        } else {
                            assert(list[k - done] == cursor);
                            assert(old(self).view().local.contains(cursor));
                        }
                    }
                }
                assert(linked_at(self.links@, self.base, class, rest, 0));
            }
            let ghost links = self.links@;
            let ghost cur = self.local@;
            let i: usize = self.index_of(cursor);
            let next: usize = self.links[i];
            self.links.set(i, self.head);
            self.head = cursor;
            self.free_count = self.free_count + 1;
            self.local = Ghost(seq![cursor] + cur);
            proof {
                let tail = chain.skip(done + 1);
                assert(!cur.contains(cursor));
                assert(!tail.contains(cursor)) by {
                    if tail.contains(cursor) {
                        let k = choose|k: int| 0 <= k < tail.len() && tail[k] == cursor;
                        assert(chain[done + 1 + k] == chain[done]);
                    }
                }
                assert forall|j: int| 0 <= j < tail.len() implies #[trigger] linked_at(
                    links,
                    self.base,
                    class,
                    tail,
                    j,
                ) by {
                    assert(linked_at(links, self.base, class, rest, j + 1));
                }
                assert forall|j: int| 0 <= j < tail.len() implies is_slot(
                    self.base,
                    class,
                    #[trigger] tail[j],
                ) by {
                    assert(tail[j] == chain[done + 1 + j]);
                }
                lemma_relink(links, self.base, class, cur, cursor, self.links[i as int]);
                lemma_relink(links, self.base, class, tail, cursor, self.links[i as int]);
                lemma_push_front(self.links@, self.base, class, cur, cursor);
                assert(chain.take(done + 1).reverse() =~= seq![cursor] + chain.take(done).reverse());
                assert(self.local@ =~= chain.take(done + 1).reverse() + list);
                assert(self.remote@ =~= Seq::<usize>::empty());
                done = done + 1;
            }
            count = count + 1;
            cursor = next;
        }
        proof {
            if done < chain.len() {
                assert(chain.skip(done)[0] == chain[done]);
                lemma_slot_index(self.base, class, chain[done]);
            }
            assert(chain.take(done) =~= chain);
        }
        count
    }

    /// Pushes the slots `entries[from..to]` onto the remote free list: chains them one to the
    /// next, links the last one to the present head, and makes the first one the head.
    pub fn push_chain_remote(&mut self, entries: &[usize], from: usize, to: usize)
        requires
            old(self).wf(),
            from < to <= entries.len(),
            entries@.subrange(from as int, to as int).no_duplicates(),
            forall|i: int|
                from <= i < to ==> old(self)@.is_out(old(self).base(), #[trigger] entries[i]),
        ensures
            final(self).wf(),
            final(self).base() == old(self).base(),
            final(self)@ == old(self)@.chained_remote(entries@.subrange(from as int, to as int)),
    {
        let ghost class = self.size_class_index as int;
        let ghost list = self.remote@;
        let ghost run = entries@.subrange(from as int, to as int);
        let mut j: usize = to;
        proof {
            assert(entries@.subrange(j as int, to as int) + list =~= list);
        }
        while j > from
            invariant
                from <= j <= to <= entries.len(),
                self.wf(),
                class == self.size_class_index,
                self.base == old(self).base,
                self.heap_id == old(self).heap_id,
                self.size_class_index == old(self).size_class_index,
                old(self).wf(),
                run == entries@.subrange(from as int, to as int),
                run.no_duplicates(),
                list == old(self).remote@,
                self.local@ == old(self).local@,
                self.remote@ == entries@.subrange(j as int, to as int) + list,
                forall|i: int|
                    from <= i < to ==> old(self)@.is_out(old(self).base(), #[trigger] entries[i]),
            decreases j - from,
        {
            j = j - 1;
            let slot: usize = entries[j];
            let ghost cur = self.remote@;
            proof {
                assert(old(self)@.is_out(old(self).base(), entries[j as int]));
                assert(!cur.contains(slot)) by {
                    if cur.contains(slot) {
                        let k = choose|k: int| 0 <= k < cur.len() && cur[k] == slot;
                        if k < to - j - 1 {
                            assert(cur[k] == entries[j + 1 + k]);
                            assert(run[j - from] == run[j + 1 + k - from]);
                        } else {
                            assert(cur[k] == list[k - (to - j - 1)]);
                        }
                    }
                }
            }
            self.push_remote_slot(slot);
            proof {
                assert(self.remote@ =~= entries@.subrange(j as int, to as int) + list);
            }
        }
        proof {
            assert(entries@.subrange(j as int, to as int) =~= run);
        }
    }

    /// Links one slot in front of the remote free list.
    fn push_remote_slot(&mut self, slot: usize)
        requires
            old(self).wf(),
            old(self)@.is_out(old(self).base(), slot),
        ensures
            final(self).wf(),
            final(self).base() == old(self).base(),
            final(self)@ == old(self)@.chained_remote(seq![slot]),
    {
        let ghost class = self.size_class_index as int;
        let ghost list = self.remote@;
        let ghost links = self.links@;
        proof {
            lemma_slot_index(self.base, class, slot);
        }
        let i: usize = self.index_of(slot);
        self.links.set(i, self.remote_head);
        self.remote_head = slot;
        self.remote = Ghost(seq![slot] + list);
        proof {
            lemma_relink(links, self.base, class, list, slot, self.links[i as int]);
            lemma_relink(links, self.base, class, self.local@, slot, self.links[i as int]);
            lemma_push_front(self.links@, self.base, class, list, slot);
        }
    }

    /// Push a freed slot onto the remote free list.
    pub fn dealloc_remote(&mut self, ptr: usize)
        requires
            old(self).wf(),
            old(self)@.is_out(old(self).base(), ptr),
        ensures
            final(self).wf(),
            final(self).base() == old(self).base(),
            final(self)@ == old(self)@.chained_remote(seq![ptr]),
    {
        self.push_remote_slot(ptr);
    }
}

/// Shared handle to a slab, recovered from an address inside it.
#[derive(Clone, Copy, Debug, PartialEq, Eq, Structural)]
pub struct SlabRef {
    pub base: usize,
}

impl SlabRef {
    /// Recover a [`SlabRef`] from any address within a slab: its low bits are masked off.
    pub fn from_interior_ptr(ptr: usize) -> (r: SlabRef)
        ensures
            r.base == base_of(ptr),
    {
        SlabRef { base: slab_base(ptr) }
    }

    /// The two handles are of the same slab.
    pub fn header_eq(&self, other: &SlabRef) -> (r: bool)
        ensures
            r == (self.base == other.base),
    {
        self.base == other.base
    }
}

/// The start of the slab that `ptr` lies in.
pub fn slab_base(ptr: usize) -> (r: usize)
    ensures
        r == base_of(ptr),
{
    proof {
        assert(ptr & !65535usize == ptr - ptr % 65536) by (bit_vector);
    }
    ptr & !(SLAB_SIZE - 1)
}

/// Writing the word of a slot that is not in a list leaves the list as it was.
proof fn lemma_relink(
    links: Seq<usize>,
    base: usize,
    class: int,
    list: Seq<usize>,
    slot: usize,
    word: usize,
)
    requires
        0 <= class < NUM_CLASSES,
        slab_place(base),
        is_slot(base, class, slot),
        links.len() == slots_in(class),
        !list.contains(slot),
        forall|i: int| 0 <= i < list.len() ==> is_slot(base, class, #[trigger] list[i]),
        forall|i: int| 0 <= i < list.len() ==> #[trigger] linked_at(links, base, class, list, i),
    ensures
        ({
            let after = links.update(slot_index(base as int, class, slot as int), word);
            forall|i: int|
                0 <= i < list.len() ==> #[trigger] linked_at(after, base, class, list, i)
        }),
{
    let k = slot_index(base as int, class, slot as int);
    let after = links.update(k, word);
    lemma_slot_index(base, class, slot);
    assert forall|i: int| 0 <= i < list.len() implies #[trigger] linked_at(
        after,
        base,
        class,
        list,
        i,
    ) by {
        assert(linked_at(links, base, class, list, i));
        lemma_slot_index(base, class, list[i]);
        assert(list[i] != slot);
    }
}

/// A slot whose word holds the head of a list heads the longer list.
proof fn lemma_push_front(links: Seq<usize>, base: usize, class: int, list: Seq<usize>, slot: usize)
    requires
        links[slot_index(base as int, class, slot as int)] == next_of(list, -1),
        !list.contains(slot),
        list.no_duplicates(),
        forall|i: int| 0 <= i < list.len() ==> #[trigger] linked_at(links, base, class, list, i),
    ensures
        chained(links, base, class, slot, seq![slot] + list),
        (seq![slot] + list).no_duplicates(),
        forall|p: usize| #[trigger]
            (seq![slot] + list).contains(p) <==> p == slot || list.contains(p),
{
    let longer = seq![slot] + list;
    assert forall|i: int| 0 <= i < longer.len() implies #[trigger] linked_at(
        links,
        base,
        class,
        longer,
        i,
    ) by {
        if i > 0 {
            assert(linked_at(links, base, class, list, i - 1));
        }
    }
    assert forall|p: usize| #[trigger] longer.contains(p) <==> p == slot || list.contains(p) by {
        if p == slot {
            assert(longer[0] == p);
        }
        if list.contains(p) {
            let k = choose|k: int| 0 <= k < list.len() && list[k] == p;
            assert(longer[k + 1] == p);
        }
    }
}

/// Distinct slots are no more than the slab has.
proof fn lemma_distinct_slots(base: usize, class: int, list: Seq<usize>)
    requires
        0 <= class < NUM_CLASSES,
        slab_place(base),
        list.no_duplicates(),
        forall|i: int| 0 <= i < list.len() ==> is_slot(base, class, #[trigger] list[i]),
    ensures
        list.len() <= slots_in(class),
        list.len() == slots_in(class) ==> forall|p: usize|
            is_slot(base, class, p) ==> list.contains(p),
{
    let slots = all_slots(base, class);
    lemma_all_slots(base, class);
    lemma_geometry(class);
    list.unique_seq_to_set();
    slots.unique_seq_to_set();
    assert(list.to_set().subset_of(slots.to_set())) by {
        assert forall|p: usize| list.to_set().contains(p) implies slots.to_set().contains(p) by {
            assert(list.contains(p));
            let k = choose|k: int| 0 <= k < list.len() && list[k] == p;
            assert(is_slot(base, class, list[k]));
            assert(slots.contains(p));
        }
    }
    vstd::set_lib::lemma_len_subset(list.to_set(), slots.to_set());
    if list.len() == slots_in(class) {
        vstd::set_lib::lemma_subset_equality(list.to_set(), slots.to_set());
        assert forall|p: usize| is_slot(base, class, p) implies list.contains(p) by {
            assert(slots.contains(p));
            assert(slots.to_set().contains(p));
        }
    }
}

/// Both free lists together hold no more slots than the slab has.
pub proof fn lemma_lists_fit(s: SlabView, base: usize)
    requires
        s.wf(base),
    ensures
        s.local.len() + s.remote.len() <= slots_in(s.class) <= 8188,
{
    let both = s.local + s.remote;
    assert(both.no_duplicates()) by {
        assert forall|i: int, j: int| 0 <= i < j < both.len() implies both[i] != both[j] by {
            if i < s.local.len() && j >= s.local.len() {
                assert(s.local.contains(both[i]));
                assert(both[j] == s.remote[j - s.local.len()]);
                assert(s.remote.contains(both[j]));
            }
        }
    }
    lemma_geometry(s.class);
    lemma_distinct_slots(base, s.class, both);
}

/// While a slot is out, the local list is not full.
pub proof fn lemma_room(s: SlabView, base: usize, p: usize)
    requires
        s.wf(base),
        s.is_out(base, p),
    ensures
        s.local.len() < slots_in(s.class),
{
    lemma_distinct_slots(base, s.class, s.local);
}

/// Any address inside a slot leads back to the slab.
pub proof fn law_interior_address_finds_slab(base: usize, class: int, p: usize, k: usize)
    requires
        0 <= class < NUM_CLASSES,
        slab_place(base),
        is_slot(base, class, p),
        p <= k < p + class_bytes(class),
    ensures
        base_of(k) == base,
{
    lemma_slot_index(base, class, p);
    lemma_base_of(base, k);
}

/// The slots lie behind the header and within the slab, each one slot size after the one before,
/// so no two overlap.
pub proof fn law_slots_apart(base: usize, class: int, i: int, j: int)
    requires
        0 <= class < NUM_CLASSES,
        slab_place(base),
        0 <= i < j < slots_in(class),
    ensures
        base + HEADER_SIZE <= slot_at(base as int, class, i),
        slot_at(base as int, class, j) + class_bytes(class) <= base + SLAB_SIZE,
        slot_at(base as int, class, j) - slot_at(base as int, class, i) == (j - i) * class_bytes(
            class,
        ),
        slot_at(base as int, class, i) + class_bytes(class) <= slot_at(base as int, class, j),
{
    lemma_slot(base, class, i);
    lemma_slot(base, class, j);
    lemma_geometry(class);
    let b = class_bytes(class);
    assert(j * b - i * b == (j - i) * b && (j - i) * b >= b) by (nonlinear_arith)
        requires
            j > i,
            b >= 8,
    ;
}

/// A slab with nothing left to drain is fully free exactly when no slot is out.
pub proof fn law_fully_free_iff_none_out(s: SlabView, base: usize)
    requires
        s.wf(base),
        s.remote.len() == 0,
    ensures
        s.is_fully_free() <==> forall|p: usize| !s.is_out(base, p),
{
    lemma_distinct_slots(base, s.class, s.local);
    lemma_all_slots(base, s.class);
    let slots = all_slots(base, s.class);
    lemma_geometry(s.class);
    if forall|p: usize| !s.is_out(base, p) {
        slots.unique_seq_to_set();
        s.local.unique_seq_to_set();
        assert forall|p: usize| slots.to_set().contains(p) implies s.local.to_set().contains(p) by {
            assert(slots.contains(p));
            assert(!s.is_out(base, p));
        }
        vstd::set_lib::lemma_len_subset(slots.to_set(), s.local.to_set());
    }
}

/// Draining gives every slot that was freed remotely, and every slot that was free before, back
/// to the local list exactly once, and leaves nothing to drain.
pub proof fn law_drain_keeps_each_slot_once(s: SlabView, base: usize)
    requires
        s.wf(base),
    ensures
        s.drained().wf(base),
        s.drained().remote.len() == 0,
        s.drained().local.len() == s.local.len() + s.remote.len(),
        forall|p: usize| #[trigger]
            s.drained().local.contains(p) <==> s.local.contains(p) || s.remote.contains(p),
        forall|p: usize| #[trigger] s.drained().is_out(base, p) <==> s.is_out(base, p),
{
    let after = s.drained();
    let back = s.remote.reverse();
    assert forall|p: usize| #[trigger]
        after.local.contains(p) <==> s.local.contains(p) || s.remote.contains(p) by {
        if s.local.contains(p) {
            let k = choose|k: int| 0 <= k < s.local.len() && s.local[k] == p;
            assert(after.local[k + back.len()] == p);
        }
        if s.remote.contains(p) {
            let k = choose|k: int| 0 <= k < s.remote.len() && s.remote[k] == p;
            assert(after.local[s.remote.len() - 1 - k] == p);
        }
        if after.local.contains(p) {
            let k = choose|k: int| 0 <= k < after.local.len() && after.local[k] == p;
            if k < back.len() {
                assert(s.remote[s.remote.len() - 1 - k] == p);
            } else {
                assert(s.local[k - back.len()] == p);
            }
        }
    }
    assert forall|i: int, j: int| 0 <= i < after.local.len() && 0 <= j < after.local.len() && i
        != j implies after.local[i] != after.local[j] by {
        let n = back.len();
        if i < n && j < n {
            assert(s.remote[n - 1 - i] != s.remote[n - 1 - j]);
        } else if i >= n && j >= n {
            assert(s.local[i - n] != s.local[j - n]);
        } else if i < n {
            assert(s.remote.contains(s.remote[n - 1 - i]));
            assert(s.local.contains(s.local[j - n]));
        } else {
            assert(s.remote.contains(s.remote[n - 1 - j]));
            assert(s.local.contains(s.local[i - n]));
        }
    }
}

/// Freeing a slot and allocating again gives the same slot, and the slab as it was.
pub proof fn law_dealloc_then_allocate(s: SlabView, p: usize)
    ensures
        s.pushed(p).local[0] == p,
        s.pushed(p).popped() == s,
{
    assert(s.pushed(p).local.skip(1) =~= s.local);
}

/// Size and place of the slots of a class.
pub proof fn lemma_geometry(class: int)
    requires
        0 <= class < NUM_CLASSES,
    ensures
        8 <= class_bytes(class) <= 32768,
        HEADER_SIZE <= slots_start(class) <= 32768,
        slots_start(class) % class_bytes(class) == 0,
        1 <= slots_in(class) <= 8188,
        slots_start(class) + slots_in(class) * class_bytes(class) <= SLAB_SIZE,
{
    let b = class_bytes(class);
    crate::size_class::lemma_class_bounds(class);
    crate::layout::lemma_round_up(HEADER_SIZE as int, b);
    let s = slots_start(class);
    if b >= HEADER_SIZE {
        assert(b % b == 0) by {
            vstd::arithmetic::div_mod::lemma_mod_self_0(b);
        }
    }
    let n = slots_in(class);
    vstd::arithmetic::div_mod::lemma_fundamental_div_mod(SLAB_SIZE - s, b);
    assert(1 <= n <= 8188 && n * b <= SLAB_SIZE - s) by (nonlinear_arith)
        requires
            8 <= b <= 32768,
            32 <= s <= 32768,
            SLAB_SIZE == 65536,
            SLAB_SIZE - s == b * n + (SLAB_SIZE - s) % b,
            0 <= (SLAB_SIZE - s) % b < b,
    ;
}

/// Slot `i` lies inside the slab, is a slot, and has number `i`.
pub proof fn lemma_slot(base: usize, class: int, i: int)
    requires
        0 <= class < NUM_CLASSES,
        slab_place(base),
        0 <= i < slots_in(class),
    ensures
        base + HEADER_SIZE <= slot_at(base as int, class, i),
        slot_at(base as int, class, i) + class_bytes(class) <= base + SLAB_SIZE,
        is_slot(base, class, slot_at(base as int, class, i) as usize),
        slot_index(base as int, class, slot_at(base as int, class, i)) == i,
        i * class_bytes(class) >= 0,
{
    lemma_geometry(class);
    let b = class_bytes(class);
    let n = slots_in(class);
    assert(0 <= i * b && i * b + b <= n * b) by (nonlinear_arith)
        requires
            0 <= i < n,
            b > 0,
    ;
    vstd::arithmetic::div_mod::lemma_div_multiples_vanish(i, b);
    vstd::arithmetic::div_mod::lemma_mod_multiples_basic(i, b);
    assert(b * i == i * b) by (nonlinear_arith);
}

/// A slot address is that of the slot whose number it has, and masking it gives the slab's base.
pub proof fn lemma_slot_index(base: usize, class: int, p: usize)
    requires
        0 <= class < NUM_CLASSES,
        slab_place(base),
        is_slot(base, class, p),
    ensures
        0 <= slot_index(base as int, class, p as int) < slots_in(class),
        p == slot_at(base as int, class, slot_index(base as int, class, p as int)),
        base + HEADER_SIZE <= p,
        p + class_bytes(class) <= base + SLAB_SIZE,
        base_of(p) == base,
{
    lemma_geometry(class);
    let b = class_bytes(class);
    let off = p - base - slots_start(class);
    let i = slot_index(base as int, class, p as int);
    vstd::arithmetic::div_mod::lemma_fundamental_div_mod(off, b);
    assert(i >= 0) by {
        vstd::arithmetic::div_mod::lemma_div_pos_is_pos(off, b);
    }
    assert(b * i == i * b) by (nonlinear_arith);
    lemma_slot(base, class, i);
    lemma_base_of(base, p);
}

/// Every address of a slab has the slab's base.
pub proof fn lemma_base_of(base: usize, p: usize)
    requires
        slab_place(base),
        base <= p < base + SLAB_SIZE,
    ensures
        base_of(p) == base,
{
    assert(p % SLAB_SIZE == p - base) by {
        vstd::arithmetic::div_mod::lemma_fundamental_div_mod(base as int, SLAB_SIZE as int);
        let q = base as int / SLAB_SIZE as int;
        vstd::arithmetic::div_mod::lemma_fundamental_div_mod_converse(
            p as int,
            SLAB_SIZE as int,
            q,
            p - base,
        );
    }
}

/// The slots of a slab are distinct, and each slot address occurs among them.
pub proof fn lemma_all_slots(base: usize, class: int)
    requires
        0 <= class < NUM_CLASSES,
        slab_place(base),
    ensures
        fresh_slab(base, class).wf(base),
        all_slots(base, class).no_duplicates(),
        forall|p: usize| is_slot(base, class, p) <==> #[trigger] all_slots(base, class).contains(p),
{
    let slots = all_slots(base, class);
    lemma_geometry(class);
    assert forall|i: int| 0 <= i < slots.len() implies is_slot(base, class, #[trigger] slots[i])
        && slot_index(base as int, class, slots[i] as int) == i by {
        lemma_slot(base, class, i);
    }
    assert forall|p: usize| is_slot(base, class, p) implies #[trigger] slots.contains(p) by {
        lemma_slot_index(base, class, p);
        assert(slots[slot_index(base as int, class, p as int)] == p);
    }
}

/// The slots begin at the first multiple of their size behind the header and fill the slab: there
/// is no room for another one.
pub proof fn law_slots_fill_the_slab(class: int)
    requires
        0 <= class < 49,
    ensures
        slots_start(class) % class_bytes(class) == 0,
        32 <= slots_start(class) < 32 + class_bytes(class),
        slots_start(class) + slots_in(class) * class_bytes(class) <= 65536,
        slots_start(class) + (slots_in(class) + 1) * class_bytes(class) > 65536,
{
    let m = class_bytes(class);
    let a = 65536 - slots_start(class);
    crate::size_class::lemma_class_bounds(class);
    crate::layout::lemma_round_up(32, m);
    vstd::arithmetic::div_mod::lemma_fundamental_div_mod(a, m);
    let q = a / m;
    assert(q * m <= a < (q + 1) * m) by (nonlinear_arith)
        requires
            m > 0,
            a == m * q + a % m,
            0 <= a % m < m,
    ;
}

/// The slots of a slab are the addresses at whole slot sizes behind the first one.
pub proof fn law_slot_addresses(base: usize, class: int, p: usize)
    requires
        0 <= class < 49,
    ensures
        is_slot(base, class, p) <==> exists|i: int|
            0 <= i < slots_in(class) && p == base + slots_start(class) + #[trigger] (i
                * class_bytes(class)),
{
    let m = class_bytes(class);
    crate::size_class::lemma_class_bounds(class);
    let off = p - base - slots_start(class);
    let q = off / m;
    vstd::arithmetic::div_mod::lemma_fundamental_div_mod(off, m);
    assert(m * q == q * m) by (nonlinear_arith);
    if is_slot(base, class, p) {
        assert(q >= 0) by (nonlinear_arith)
            requires
                off == q * m,
                off >= 0,
                m > 0,
        ;
        assert(p == base + slots_start(class) + q * m);
    }
    if exists|i: int|
        0 <= i < slots_in(class) && p == base + slots_start(class) + #[trigger] (i * m) {
        let i = choose|i: int|
            0 <= i < slots_in(class) && p == base + slots_start(class) + #[trigger] (i * m);
        assert(off == i * m);
        vstd::arithmetic::div_mod::lemma_fundamental_div_mod_converse(off, m, i, 0);
        assert(off >= 0) by (nonlinear_arith)
            requires
                off == i * m,
                i >= 0,
                m > 0,
        ;
    }
}

/// A new slab has every slot on its local list, in the order of their addresses, and none on the
/// remote list.
pub proof fn law_new_slab_is_all_free(base: usize, class: int)
    requires
        0 <= class < 49,
        slab_place(base),
    ensures
        fresh_slab(base, class).local.len() == slots_in(class),
        forall|i: int|
            0 <= i < slots_in(class) ==> #[trigger] fresh_slab(base, class).local[i] == base
                + slots_start(class) + i * class_bytes(class),
        fresh_slab(base, class).remote.len() == 0,
        fresh_slab(base, class).class == class,
        fresh_slab(base, class).heap_id == 0,
        forall|p: usize| !#[trigger] fresh_slab(base, class).is_out(base, p),
{
    lemma_geometry(class);
    assert forall|i: int| 0 <= i < slots_in(class) implies #[trigger] fresh_slab(
        base,
        class,
    ).local[i] == base + slots_start(class) + i * class_bytes(class) by {
        lemma_slot(base, class, i);
    }
    assert forall|p: usize| !#[trigger] fresh_slab(base, class).is_out(base, p) by {
        if is_slot(base, class, p) {
            lemma_slot_index(base, class, p);
            let i = slot_index(base as int, class, p as int);
            assert(fresh_slab(base, class).local[i] == p);
        }
    }
}

/// A slot is out where it is on neither list. The slab of an address begins at the last multiple of
/// the slab size that is not above it.
pub proof fn law_slot_is_out_or_listed(s: SlabView, base: usize, p: usize)
    ensures
        is_slot(base, s.class, p) ==> (s.is_out(base, p) <==> !s.local.contains(p)
            && !s.remote.contains(p)),
        s.is_out(base, p) ==> is_slot(base, s.class, p),
        base_of(p) % 65536 == 0,
        base_of(p) <= p < base_of(p) + 65536,
{
}

/// How the lists run: a slot is taken from the front of the local list, and one that its owner
/// frees goes to the front; slots that others free go before those on the remote list, and keep
/// their order; draining puts the remote list, turned round, before the local one.
pub proof fn law_lists_run_in_order(s: SlabView, p: usize, chain: Seq<usize>, id: usize)
    ensures
        s.local.len() > 0 ==> {
            &&& s.popped().local.len() == s.local.len() - 1
            &&& forall|i: int|
                0 <= i < s.local.len() - 1 ==> #[trigger] s.popped().local[i] == s.local[i + 1]
        },
        s.popped().remote == s.remote && s.popped().class == s.class && s.popped().heap_id
            == s.heap_id,
        s.pushed(p).local.len() == s.local.len() + 1,
        s.pushed(p).local[0] == p,
        forall|i: int| 0 <= i < s.local.len() ==> #[trigger] s.local[i] == s.pushed(p).local[i + 1],
        s.pushed(p).remote == s.remote && s.pushed(p).class == s.class && s.pushed(p).heap_id
            == s.heap_id,
        s.chained_remote(chain).remote.len() == chain.len() + s.remote.len(),
        forall|i: int|
            0 <= i < chain.len() ==> #[trigger] s.chained_remote(chain).remote[i] == chain[i],
        forall|i: int|
            0 <= i < s.remote.len() ==> #[trigger] s.remote[i] == s.chained_remote(
                chain,
            ).remote[chain.len() + i],
        s.chained_remote(chain).local == s.local && s.chained_remote(chain).class == s.class
            && s.chained_remote(chain).heap_id == s.heap_id,
        s.drained().local.len() == s.remote.len() + s.local.len(),
        forall|i: int|
            0 <= i < s.remote.len() ==> #[trigger] s.drained().local[i]
                == s.remote[s.remote.len() - 1 - i],
        forall|i: int|
            0 <= i < s.local.len() ==> #[trigger] s.local[i] == s.drained().local[s.remote.len()
                + i],
        s.drained().remote.len() == 0 && s.drained().class == s.class && s.drained().heap_id
            == s.heap_id,
        s.owned_by(id).heap_id == id && s.owned_by(id).local == s.local && s.owned_by(id).remote
            == s.remote && s.owned_by(id).class == s.class,
{
}

} // verus!
