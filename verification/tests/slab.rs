//! Slabs and their free lists.

use std::collections::HashSet;

use clmalloc::size_class::class_size;
use clmalloc::slab::Slab;
use clmalloc::slab::SlabRef;
use clmalloc::slab::HEADER_SIZE;
use clmalloc::slab::SLAB_SIZE;
use clmalloc::table::SlabTable;

const BASE: usize = 16 * SLAB_SIZE;

#[test]
fn interior_ptr_recovers_header() {
    let mut slab = Slab::init(BASE, 0);
    let slot0 = slab.allocate().unwrap();
    let slot1 = slab.allocate().unwrap();

    let r0 = SlabRef::from_interior_ptr(slot0);
    let r1 = SlabRef::from_interior_ptr(slot1);
    assert_eq!(r0, slab.as_ref());
    assert_eq!(r1, slab.as_ref());

    slab.dealloc_local(slot1);
    slab.dealloc_local(slot0);
}

#[test]
fn all_slots_same_stride() {
    for class_idx in [0u8, 5, 10, 20, 48] {
        let mut slab = Slab::init(BASE, class_idx);
        let slot_size = slab.slot_size();
        let mut slots = Vec::new();
        while let Some(ptr) = slab.allocate() {
            slots.push(ptr);
        }
        assert!(!slots.is_empty());
        for i in 1..slots.len() {
            let diff = slots[i] - slots[i - 1];
            assert_eq!(
                diff, slot_size,
                "class {class_idx}: spacing {diff} != {slot_size} at {i}"
            );
        }
        for slot in slots {
            slab.dealloc_local(slot);
        }
    }
}

#[test]
fn header_fields_accessible() {
    let slab = Slab::init(BASE, 5);
    assert_eq!(slab.size_class_index(), 5);
    assert!(slab.slot_count() > 0);
    assert_eq!(slab.slot_size(), class_size(5));
}

#[test]
fn slab_is_send_not_sync() {
    fn assert_send<T: Send>() {}
    fn assert_not_sync<T>() {}
    assert_send::<Slab>();
    assert_not_sync::<Slab>();

    fn assert_send_sync<T: Send + Sync>() {}
    assert_send_sync::<SlabRef>();
}

#[test]
fn alloc_dealloc_no_duplicates() {
    let mut slab = Slab::init(BASE, 0);
    let mut seen = HashSet::new();
    let mut slots = Vec::new();

    while let Some(ptr) = slab.allocate() {
        assert!(seen.insert(ptr), "duplicate alloc");
        slots.push(ptr);
    }
    assert_eq!(slots.len(), slab.slot_count());
    assert!(slab.allocate().is_none());

    let half = slots.len() / 2;
    for ptr in slots.drain(..half) {
        slab.dealloc_local(ptr);
    }

    let mut re_seen = HashSet::new();
    for _ in 0..half {
        let ptr = slab.allocate().unwrap();
        assert!(re_seen.insert(ptr), "duplicate re-alloc");
        assert!(seen.contains(&ptr), "unknown slot");
        slots.push(ptr);
    }
    assert!(slab.allocate().is_none());

    for slot in slots {
        slab.dealloc_local(slot);
    }
}

#[test]
fn remote_dealloc_then_drain() {
    let mut slab = Slab::init(BASE, 0);
    let raw = slab.allocate().unwrap();
    let mut table = SlabTable::new();
    table.put(slab);

    SlabRef::from_interior_ptr(raw).dealloc_remote(&mut table, raw);

    let drained = table.drain_remote(BASE);
    assert_eq!(drained, 1);

    let recovered = table.allocate(BASE).unwrap();
    assert_eq!(recovered, raw);
    table.dealloc_local(BASE, recovered);
}

#[test]
fn multi_thread_remote_drain() {
    let mut slab = Slab::init(BASE, 0);
    let n = 16usize;
    let mut raws = Vec::new();
    for _ in 0..n {
        raws.push(slab.allocate().unwrap());
    }
    for &raw in &raws {
        slab.dealloc_remote(raw);
    }

    let drained = slab.drain_remote();
    assert_eq!(drained, n as u16);

    let mut recovered = HashSet::new();
    for _ in 0..n {
        recovered.insert(slab.allocate().unwrap());
    }
    let originals: HashSet<usize> = raws.into_iter().collect();
    assert_eq!(recovered, originals);
}

#[test]
fn fully_free_lifecycle() {
    let mut slab = Slab::init(BASE, 0);
    assert!(slab.is_fully_free());

    let slot = slab.allocate().unwrap();
    assert!(!slab.is_fully_free());

    slab.dealloc_local(slot);
    assert!(slab.is_fully_free());
}

#[test]
fn into_raw_returns_base() {
    let slab = Slab::init(BASE, 0);
    let returned = slab.into_raw();
    assert_eq!(returned, BASE);
}

#[test]
fn concurrent_push() {
    for first in [0usize, 1] {
        let mut slab = Slab::init(BASE, 0);
        let s0 = slab.allocate().unwrap();
        let s1 = slab.allocate().unwrap();
        let order = if first == 0 { [s0, s1] } else { [s1, s0] };
        slab.dealloc_remote(order[0]);
        slab.dealloc_remote(order[1]);

        let drained = slab.drain_remote();
        assert_eq!(drained, 2);
    }
}

#[test]
fn push_drain_interleave() {
    for push_first in [false, true] {
        let mut slab = Slab::init(BASE, 0);
        let raw = slab.allocate().unwrap();

        if push_first {
            slab.dealloc_remote(raw);
        }
        let d1 = slab.drain_remote();
        if !push_first {
            slab.dealloc_remote(raw);
        }
        let d2 = slab.drain_remote();

        assert_eq!(d1 + d2, 1, "slot must appear exactly once across drains");
    }
}

#[test]
fn slots_begin_behind_the_header() {
    for (class, offset, count) in [(0u8, 32usize, 8188usize), (1, 40, 6549), (12, 64, 1023), (48, 32768, 1)] {
        let mut slab = Slab::init(BASE, class);
        assert_eq!(slab.slot_count(), count);
        let first = slab.allocate().unwrap();
        assert_eq!(first, BASE + offset);
        assert!(offset >= HEADER_SIZE);
    }
}

#[test]
fn chain_is_drained_last_slot_first() {
    let mut slab = Slab::init(BASE, 12);
    let slots: Vec<usize> = (0..4).map(|_| slab.allocate().unwrap()).collect();
    assert!(!slab.has_pending_remote());
    slab.push_chain_remote(&slots, 1, 3);
    assert!(slab.has_pending_remote());
    let before = slab.free_count();
    assert_eq!(slab.drain_remote(), 2);
    assert_eq!(slab.free_count(), before + 2);
    assert_eq!(slab.allocate(), Some(slots[2]));
    assert_eq!(slab.allocate(), Some(slots[1]));
}

#[test]
fn freed_slot_is_the_next_one() {
    let mut slab = Slab::init(BASE, 3);
    let a = slab.allocate().unwrap();
    let b = slab.allocate().unwrap();
    slab.dealloc_local(a);
    assert_eq!(slab.allocate(), Some(a));
    assert_ne!(a, b);
}

#[test]
fn shared_handle_reads_the_header() {
    let mut slab = Slab::init(BASE, 7);
    slab.set_heap_id(3);
    assert_eq!(slab.heap_id(), 3);
    let handle = slab.as_ref();
    let mut table = SlabTable::new();
    assert!(!table.contains(BASE));
    table.put(slab);
    assert!(table.contains(BASE));
    assert_eq!(handle.size_class_index(&table), 7);
    assert_eq!(handle.slot_size(&table), class_size(7));
    assert_eq!(handle.slot_count(&table), (SLAB_SIZE - 56) / 28);
    assert_eq!(handle.heap_id(&table), 3);
    table.set_heap_id(BASE, 4);
    assert_eq!(handle.heap_id(&table), 4);
    assert!(handle.header_eq(&SlabRef::from_interior_ptr(BASE + 65535)));
    assert!(!handle.header_eq(&SlabRef::from_interior_ptr(BASE + 65536)));
}
