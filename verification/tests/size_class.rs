//! Size classes.

use clmalloc::size_class::class_index;
use clmalloc::size_class::class_size;
use clmalloc::size_class::MAX_SLAB_SIZE;
use clmalloc::size_class::NUM_CLASSES;
use clmalloc::Layout;
use clmalloc::LayoutError;

#[test]
fn class_is_smallest_fit() {
    for size in 1..=MAX_SLAB_SIZE {
        let layout = Layout::from_size_align(size, 1).unwrap();
        let idx = class_index(layout).unwrap();
        let cs = class_size(idx);
        assert!(cs >= size, "class {idx} size {cs} < requested {size}");
        if idx > 0 {
            let prev = class_size(idx - 1);
            assert!(
                prev < size,
                "previous class {prev} fits {size}, should have picked it"
            );
        }
    }
}

#[test]
fn class_sizes_respect_alignment() {
    for idx in 0..NUM_CLASSES {
        let cs = class_size(idx);
        let max_align = 1usize << cs.trailing_zeros();
        assert!(
            cs % max_align == 0,
            "class {idx} size {cs} not a multiple of its alignment {max_align}"
        );
    }
}

#[test]
fn alignment_requests_get_aligned_class() {
    for align_exp in 0..=12 {
        let align = 1usize << align_exp;
        for size in 1..=MAX_SLAB_SIZE {
            let Ok(layout) = Layout::from_size_align(size, align) else {
                continue;
            };
            if let Some(idx) = class_index(layout) {
                let cs = class_size(idx);
                assert!(
                    cs % align == 0,
                    "size={size} align={align} -> class {idx} size {cs} not aligned"
                );
            }
        }
    }
}

#[test]
fn small_class_waste_within_25_percent() {
    for size in 8..=1024usize {
        let layout = Layout::from_size_align(size, 1).unwrap();
        let idx = class_index(layout).unwrap();
        let cs = class_size(idx);
        let waste_pct = ((cs - size) as f64 / size as f64) * 100.0;
        assert!(
            waste_pct <= 25.0,
            "size {size} -> class size {cs}, waste {waste_pct:.1}% > 25%"
        );
    }
}

#[test]
fn medium_class_waste_within_25_percent() {
    for size in 1025..=MAX_SLAB_SIZE {
        let layout = Layout::from_size_align(size, 1).unwrap();
        let idx = class_index(layout).unwrap();
        let cs = class_size(idx);
        let waste_pct = ((cs - size) as f64 / size as f64) * 100.0;
        assert!(
            waste_pct <= 25.0,
            "size {size} -> class size {cs}, waste {waste_pct:.1}% > 25%"
        );
    }
}

#[test]
fn large_allocations_return_none() {
    for size in [MAX_SLAB_SIZE + 1, 65536, 1 << 20] {
        let layout = Layout::from_size_align(size, 1).unwrap();
        assert!(class_index(layout).is_none(), "size {size} should be large");
    }
}

#[test]
fn dealloc_round_trip() {
    for size in 1..=MAX_SLAB_SIZE {
        let layout = Layout::from_size_align(size, 1).unwrap();
        let idx = class_index(layout).unwrap();
        let cs = class_size(idx);
        let round_trip_layout = Layout::from_size_align(cs, 1).unwrap();
        let idx2 = class_index(round_trip_layout).unwrap();
        assert_eq!(
            idx, idx2,
            "round-trip failed for size {size}: {idx} != {idx2}"
        );
    }
}

#[test]
fn class_sizes_are_monotonic() {
    for i in 1..NUM_CLASSES {
        assert!(
            class_size(i) > class_size(i - 1),
            "class sizes not monotonic at {i}: {} <= {}",
            class_size(i),
            class_size(i - 1)
        );
    }
}

#[test]
fn class_sizes_have_the_documented_values() {
    let first: Vec<usize> = (0..16).map(class_size).collect();
    assert_eq!(
        first,
        [8, 10, 12, 14, 16, 20, 24, 28, 32, 40, 48, 56, 64, 80, 96, 112]
    );
    let last: Vec<usize> = (44..NUM_CLASSES).map(class_size).collect();
    assert_eq!(last, [16384, 20480, 24576, 28672, 32768]);
}

#[test]
fn empty_request_gets_the_first_class() {
    let layout = Layout::from_size_align(0, 64).unwrap();
    assert_eq!(class_index(layout), Some(0));
}

#[test]
fn layouts_that_describe_no_block_are_refused() {
    assert_eq!(Layout::from_size_align(8, 0), Err(LayoutError));
    assert_eq!(Layout::from_size_align(8, 3), Err(LayoutError));
    assert_eq!(Layout::from_size_align(usize::MAX, 1), Err(LayoutError));
    let limit = isize::MAX as usize;
    assert_eq!(Layout::from_size_align(limit, 2), Err(LayoutError));
    assert!(Layout::from_size_align(limit, 1).is_ok());
    let layout = Layout::from_size_align(24, 8).unwrap();
    assert_eq!((layout.size(), layout.align()), (24, 8));
}
