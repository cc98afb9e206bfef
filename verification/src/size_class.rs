//! Size classes bucket allocation requests: every request is served by a slot
//! whose size is one of [`NUM_CLASSES`] fixed sizes.
//!
//! Each power-of-two range is divided into four sub-steps, so class `i` holds
//! slots of `(4 + i % 4) * 2^(i / 4 + 1)` bytes: 8, 10, 12, 14, 16, 20, ... up
//! to 32768.

use vstd::arithmetic::power2::pow2;
use vstd::prelude::*;

use crate::layout::next_multiple_of;
use crate::layout::Layout;

verus! {

/// Size of the smallest class, to which smaller requests are rounded up.
pub const MIN_SIZE: usize = 8;

/// Sub-steps per power-of-2 group (gives <= 25% waste).
pub const SUB_STEPS: usize = 4;

/// Smallest group exponent (2^3 = 8).
pub const MIN_K: usize = 3;

/// Largest regular group exponent (2^14 = 16384).
pub const MAX_K: usize = 14;

/// Number of power-of-2 groups.
pub const NUM_GROUPS: usize = MAX_K - MIN_K + 1;

/// Number of classes below the largest one.
pub const NUM_REGULAR: usize = NUM_GROUPS * SUB_STEPS;

/// Size of the largest class.
pub const MAX_SLAB_SIZE: usize = 32768;

/// Total number of slab-served size classes.
pub const NUM_CLASSES: usize = NUM_REGULAR + 1;

/// The slot size of class `index`.
pub open spec fn class_bytes(index: int) -> int {
    (4 + index % 4) * pow2((index / 4 + 1) as nat) as int
}

/// `index` is the smallest class whose slots hold `bytes` bytes.
pub open spec fn smallest_class(index: int, bytes: int) -> bool {
    &&& 0 <= index < NUM_CLASSES
    &&& bytes <= class_bytes(index)
    &&& index > 0 ==> class_bytes(index - 1) < bytes
}

/// The bytes that a slot needs to hold a block of the given layout: the size
/// rounded up to a multiple of the alignment, and at least [`MIN_SIZE`].
pub open spec fn slot_need(layout: Layout) -> int {
    let rounded = crate::layout::round_up(layout.size as int, layout.align as int);
    if rounded < MIN_SIZE {
        MIN_SIZE as int
    } else {
        rounded
    }
}

/// The class that serves `layout`, or `None` where the request is too large for a slab.
pub open spec fn class_of(layout: Layout) -> Option<int> {
    if slot_need(layout) > MAX_SLAB_SIZE {
        None
    } else {
        Some(choose|i: int| smallest_class(i, slot_need(layout)))
    }
}

/// Two to the power of `k`, for the exponents that occur among the classes.
fn power(k: usize) -> (r: usize)
    requires
        MIN_K <= k <= MAX_K,
    ensures
        r == pow2(k as nat),
{
    proof {
        lemma_small_powers();
        vstd::bits::lemma_u64_shl_is_mul(1, k as u64);
        assert(k == 3 || k == 4 || k == 5 || k == 6 || k == 7 || k == 8 || k == 9 || k == 10 || k
            == 11 || k == 12 || k == 13 || k == 14);
    }
    (1u64 << (k as u64)) as usize
}

/// Bit-arithmetic class index of a size between [`MIN_SIZE`] and [`MAX_SLAB_SIZE`].
pub fn class_index_from_size(size: usize) -> (r: u8)
    requires
        MIN_SIZE <= size <= MAX_SLAB_SIZE,
    ensures
        smallest_class(r as int, size as int),
{
    proof {
        lemma_small_powers();
    }
    if size >= MAX_SLAB_SIZE {
        proof {
            lemma_class_form(48);
            lemma_class_form(47);
        }
        return NUM_REGULAR as u8;
    }
    let lz: u32 = (size as u64).leading_zeros();
    proof {
        lemma_floor_log(size as u64);
        let e = 63 - lz;
        if e < 3 {
            if e < 2 {
                vstd::arithmetic::power2::lemma_pow2_strictly_increases((e + 1) as nat, 3);
            }
        } else if e > 14 {
            if e > 15 {
                vstd::arithmetic::power2::lemma_pow2_strictly_increases(15, e as nat);
            }
        }
        assert(3 <= e <= 14);
    }
    let k: usize = (63 - lz) as usize;
    let base: usize = power(k);
    let step: usize = base / 4;
    proof {
        vstd::arithmetic::power2::lemma_pow2_unfold(k as nat);
        vstd::arithmetic::power2::lemma_pow2_unfold((k - 1) as nat);
        assert(step == pow2((k - 2) as nat));
    }
    let j: usize = (size - base + (step - 1)) / step;
    proof {
        let gap = size - base;
        vstd::arithmetic::div_mod::lemma_fundamental_div_mod(gap + step - 1, step as int);
        assert(gap <= j * step < gap + step) by (nonlinear_arith)
            requires
                step > 0,
                gap + step - 1 == step * j + (gap + step - 1) % (step as int),
                0 <= (gap + step - 1) % (step as int) < step,
        ;
        assert(j <= 4) by (nonlinear_arith)
            requires
                j * step < gap + step,
                gap < 4 * step,
                step > 0,
        ;
        vstd::arithmetic::power2::lemma_pow2_unfold((k - 1) as nat);
        vstd::arithmetic::power2::lemma_pow2_unfold((k - 2) as nat);
        let g = k - 3;
        if j >= 4 {
            let idx = (g + 1) * 4;
            assert((idx - 1) % 4 == 3 && (idx - 1) / 4 == g);
            lemma_class_form(idx);
            lemma_class_form(idx - 1);
            assert(4 * step == j * step) by (nonlinear_arith)
                requires
                    j == 4,
            ;
        } else if j > 0 {
            let idx = g * 4 + j;
            assert((idx - 1) % 4 == j - 1 && (idx - 1) / 4 == g);
            assert((4 + j) * step == 4 * step + j * step) by (nonlinear_arith);
            assert((4 + (j - 1)) * step == 4 * step + j * step - step) by (nonlinear_arith);
            assert(idx % 4 == j && idx / 4 == g);
            assert(class_bytes(idx) == (4 + j) * step);
            assert(class_bytes(idx - 1) == (4 + (j - 1)) * step);
        } else {
            let idx = g * 4;
            assert(idx > 0 ==> (idx - 1) % 4 == 3 && (idx - 1) / 4 == g - 1);
            assert(j * step == 0) by (nonlinear_arith)
                requires
                    j == 0,
            ;
            lemma_class_form(idx);
            if idx > 0 {
                lemma_class_form(idx - 1);
            }
        }
    }
    if j >= SUB_STEPS {
        let next_k: usize = k + 1;
        if next_k > MAX_K {
            return NUM_REGULAR as u8;
        }
        return ((next_k - MIN_K) * SUB_STEPS) as u8;
    }
    ((k - MIN_K) * SUB_STEPS + j) as u8
}

/// Returns the size class index for a layout, or `None` for large allocations.
///
/// Rounds the size up to the next multiple of the alignment, then finds the class by arithmetic.
pub fn class_index(layout: Layout) -> (r: Option<usize>)
    requires
        layout.wf(),
    ensures
        r is None <==> slot_need(layout) > MAX_SLAB_SIZE,
        r matches Some(i) ==> smallest_class(i as int, slot_need(layout)),
        r == (match class_of(layout) {
            None => None::<usize>,
            Some(i) => Some(i as usize),
        }),
{
    let rounded: usize = next_multiple_of(layout.size(), layout.align());
    let size: usize = if rounded < MIN_SIZE {
        MIN_SIZE
    } else {
        rounded
    };
    if size > MAX_SLAB_SIZE {
        return None;
    }
    let index: u8 = class_index_from_size(size);
    proof {
        lemma_class_unique(index as int, choose|i: int| smallest_class(i, size as int), size as int);
    }
    Some(index as usize)
}

/// Returns the allocation size for a size class index.
pub fn class_size(index: usize) -> (r: usize)
    requires
        index < NUM_CLASSES,
    ensures
        r == class_bytes(index as int),
        MIN_SIZE <= r <= MAX_SLAB_SIZE,
{
    proof {
        lemma_small_powers();
        lemma_class_bounds(index as int);
    }
    if index >= NUM_REGULAR {
        return MAX_SLAB_SIZE;
    }
    let group: usize = index / SUB_STEPS;
    let sub: usize = index % SUB_STEPS;
    let k: usize = group + MIN_K;
    let base: usize = power(k);
    let step: usize = base / 4;
    proof {
        vstd::arithmetic::power2::lemma_pow2_unfold(k as nat);
        vstd::arithmetic::power2::lemma_pow2_unfold((k - 1) as nat);
        assert(step == pow2((group + 1) as nat));
        assert((4 + sub) * step == 4 * step + sub * step) by (nonlinear_arith);
        assert(sub * step <= 4 * step) by (nonlinear_arith)
            requires
                0 <= sub < 4,
                step >= 0,
        ;
    }
    base + sub * step
}

/// The powers of two that the classes are built from.
proof fn lemma_small_powers()
    ensures
        pow2(0) == 1,
        pow2(1) == 2,
        pow2(2) == 4,
        pow2(3) == 8,
        pow2(4) == 16,
        pow2(5) == 32,
        pow2(6) == 64,
        pow2(7) == 128,
        pow2(8) == 256,
        pow2(9) == 512,
        pow2(10) == 1024,
        pow2(11) == 2048,
        pow2(12) == 4096,
        pow2(13) == 8192,
        pow2(14) == 16384,
        pow2(15) == 32768,
{
    vstd::arithmetic::power2::lemma2_to64();
}

/// The number of leading zeros says between which powers of two a number lies.
proof fn lemma_floor_log(n: u64)
    requires
        n > 0,
    ensures
        ({
            let lz = vstd::std_specs::bits::u64_leading_zeros(n);
            &&& lz <= 63
            &&& pow2((63 - lz) as nat) <= n < pow2((64 - lz) as nat)
        }),
    decreases n,
{
    reveal_with_fuel(vstd::std_specs::bits::u64_leading_zeros, 2);
    lemma_small_powers();
    if n > 1 {
        lemma_floor_log(n / 2);
        let lz = vstd::std_specs::bits::u64_leading_zeros(n);
        vstd::arithmetic::power2::lemma_pow2_unfold((63 - lz) as nat);
        vstd::arithmetic::power2::lemma_pow2_unfold((64 - lz) as nat);
    }
}

/// The four sizes of a group.
proof fn lemma_class_form(index: int)
    requires
        0 <= index,
    ensures
        ({
            let p = pow2((index / 4 + 1) as nat) as int;
            &&& p > 0
            &&& index % 4 == 0 ==> class_bytes(index) == 4 * p
            &&& index % 4 == 1 ==> class_bytes(index) == 5 * p
            &&& index % 4 == 2 ==> class_bytes(index) == 6 * p
            &&& index % 4 == 3 ==> class_bytes(index) == 7 * p
        }),
{
    let p = pow2((index / 4 + 1) as nat) as int;
    let s = index % 4;
    vstd::arithmetic::power2::lemma_pow2_pos((index / 4 + 1) as nat);
    assert(s == 0 ==> (4 + s) * p == 4 * p) by (nonlinear_arith);
    assert(s == 1 ==> (4 + s) * p == 5 * p) by (nonlinear_arith);
    assert(s == 2 ==> (4 + s) * p == 6 * p) by (nonlinear_arith);
    assert(s == 3 ==> (4 + s) * p == 7 * p) by (nonlinear_arith);
}

/// Every class size lies between [`MIN_SIZE`] and [`MAX_SLAB_SIZE`].
pub proof fn lemma_class_bounds(index: int)
    requires
        0 <= index < NUM_CLASSES,
    ensures
        MIN_SIZE <= class_bytes(index) <= MAX_SLAB_SIZE,
{
    lemma_small_powers();
    lemma_class_form(index);
    let g = index / 4;
    assert(g == 0 || g == 1 || g == 2 || g == 3 || g == 4 || g == 5 || g == 6 || g == 7 || g == 8
        || g == 9 || g == 10 || g == 11 || g == 12);
}

/// Class sizes grow with the index.
pub proof fn lemma_class_monotonic(i: int, j: int)
    requires
        0 <= i < j,
    ensures
        class_bytes(i) < class_bytes(j),
    decreases j - i,
{
    if j == i + 1 {
        vstd::arithmetic::power2::lemma_pow2_unfold((i / 4 + 2) as nat);
        lemma_class_form(i);
        lemma_class_form(j);
    } else {
        lemma_class_monotonic(i, j - 1);
        lemma_class_monotonic(j - 1, j);
    }
}

/// There is one smallest class for a size.
pub proof fn lemma_class_unique(i: int, j: int, bytes: int)
    requires
        smallest_class(i, bytes),
        smallest_class(j, bytes),
    ensures
        i == j,
{
    if i < j {
        if i < j - 1 {
            lemma_class_monotonic(i, j - 1);
        }
    } else if j < i {
        if j < i - 1 {
            lemma_class_monotonic(j, i - 1);
        }
    }
}

/// Every size up to [`MAX_SLAB_SIZE`] has one smallest class, so that a block is freed into the
/// class that it was allocated from.
pub proof fn law_one_class_for_each_size(bytes: int)
    requires
        bytes <= MAX_SLAB_SIZE,
    ensures
        exists|i: int| smallest_class(i, bytes),
        forall|i: int, j: int|
            #![trigger smallest_class(i, bytes), smallest_class(j, bytes)]
            smallest_class(i, bytes) && smallest_class(j, bytes) ==> i == j,
{
    lemma_small_powers();
    lemma_class_form(48);
    lemma_class_search(bytes, 48);
    assert forall|i: int, j: int|
        #![trigger smallest_class(i, bytes), smallest_class(j, bytes)]
        smallest_class(i, bytes) && smallest_class(j, bytes) implies i == j by {
        lemma_class_unique(i, j, bytes);
    }
}

/// Walks down from a class that is large enough to the smallest one.
proof fn lemma_class_search(bytes: int, from: int)
    requires
        0 <= from < NUM_CLASSES,
        bytes <= class_bytes(from),
    ensures
        exists|i: int| smallest_class(i, bytes),
    decreases from,
{
    if from == 0 || class_bytes(from - 1) < bytes {
        assert(smallest_class(from, bytes));
    } else {
        lemma_class_search(bytes, from - 1);
    }
}

/// A slot wastes less than a quarter of the bytes it was asked for.
pub proof fn law_waste_below_a_quarter(index: int, bytes: int)
    requires
        bytes >= MIN_SIZE,
        smallest_class(index, bytes),
    ensures
        4 * (class_bytes(index) - bytes) < bytes,
{
    lemma_small_powers();
    lemma_class_form(index);
    if index > 0 {
        lemma_class_form(index - 1);
        vstd::arithmetic::power2::lemma_pow2_unfold((index / 4 + 1) as nat);
    }
}

/// The size of a class is served by that class: a block can be freed by the size of its slot.
pub proof fn law_class_round_trip(index: int)
    requires
        0 <= index < NUM_CLASSES,
    ensures
        smallest_class(index, class_bytes(index)),
{
    if index > 0 {
        lemma_class_monotonic(index - 1, index);
    }
}

/// A power of two has an exponent.
proof fn lemma_exponent(n: int) -> (e: nat)
    requires
        crate::layout::is_power_of_two(n),
    ensures
        n == pow2(e),
    decreases n,
{
    lemma_small_powers();
    if n == 1 {
        0
    } else {
        let e = lemma_exponent(n / 2);
        vstd::arithmetic::power2::lemma_pow2_unfold(e + 1);
        e + 1
    }
}

/// The class chosen for a layout of at least one byte fits its size and alignment, and no
/// smaller class does.
pub proof fn law_class_is_smallest_fit(layout: Layout, index: int)
    requires
        layout.wf(),
        layout.size > 0,
        smallest_class(index, slot_need(layout)),
    ensures
        class_bytes(index) >= layout.size,
        class_bytes(index) % (layout.align as int) == 0,
        forall|i: int|
            #![trigger class_bytes(i)]
            0 <= i < NUM_CLASSES && class_bytes(i) >= layout.size && class_bytes(i) % (
            layout.align as int) == 0 ==> index <= i,
{
    let align = layout.align as int;
    let need = slot_need(layout);
    let rounded = crate::layout::round_up(layout.size as int, align);
    let a = lemma_exponent(align);
    vstd::arithmetic::power2::lemma_pow2_pos(a);
    crate::layout::lemma_round_up(layout.size as int, align);
    let p = pow2((index / 4 + 1) as nat) as int;
    lemma_small_powers();
    lemma_class_form(index);
    if a <= index / 4 + 1 {
        let q = pow2((index / 4 + 1 - a) as nat) as int;
        vstd::arithmetic::power2::lemma_pow2_adds(a, (index / 4 + 1 - a) as nat);
        let m = 4 + index % 4;
        assert(m * (align * q) == align * (m * q)) by (nonlinear_arith);
        vstd::arithmetic::div_mod::lemma_mod_multiples_basic(m * q, align);
        assert(align * (m * q) == (m * q) * align) by (nonlinear_arith);
    } else {
        let q = pow2((a - (index / 4 + 1)) as nat) as int;
        vstd::arithmetic::power2::lemma_pow2_adds((index / 4 + 1) as nat, (a - (index / 4 + 1)) as nat);
        vstd::arithmetic::power2::lemma_pow2_pos((a - (index / 4 + 1)) as nat);
        if rounded < MIN_SIZE {
            law_class_round_trip(0);
            lemma_class_form(0);
            lemma_class_unique(0, index, need);
            if a > 3 {
                vstd::arithmetic::power2::lemma_pow2_strictly_increases(3, a);
            }
            vstd::arithmetic::div_mod::lemma_small_mod(0, align as nat);
            if rounded < align {
                vstd::arithmetic::div_mod::lemma_small_mod(rounded as nat, align as nat);
            }
            assert(8int % align == 0) by {
                assert(a == 0 || a == 1 || a == 2 || a == 3);
            }
        } else {
            let t = rounded / align;
            vstd::arithmetic::div_mod::lemma_fundamental_div_mod(rounded, align);
            assert(rounded == p * (q * t)) by (nonlinear_arith)
                requires
                    rounded == align * t,
                    align == p * q,
            ;
            if index > 0 {
                lemma_class_form(index - 1);
                vstd::arithmetic::power2::lemma_pow2_unfold((index / 4 + 1) as nat);
            }
            let m = 4 + index % 4;
            let u = q * t;
            assert(u == m) by (nonlinear_arith)
                requires
                    p > 0,
                    p * u <= m * p,
                    p * u > m * p - p,
            ;
            assert(p * m == m * p) by (nonlinear_arith);
        }
    }
    assert forall|i: int|
        #![trigger class_bytes(i)]
        0 <= i < NUM_CLASSES && class_bytes(i) >= layout.size && class_bytes(i) % align
            == 0 implies index <= i by {
        let k = class_bytes(i);
        assert(k % align == 0 && k >= layout.size as int);
        assert(k >= rounded);
        lemma_class_bounds(i);
        if i < index {
            if i < index - 1 {
                lemma_class_monotonic(i, index - 1);
            }
        }
    }
}

/// The slot sizes: four steps of two from eight on, and from there on each is twice the one four
/// classes before.
pub proof fn law_classes_double_every_four(index: int)
    requires
        0 <= index < 45,
    ensures
        class_bytes(0) == 8,
        class_bytes(1) == 10,
        class_bytes(2) == 12,
        class_bytes(3) == 14,
        class_bytes(index + 4) == 2 * class_bytes(index),
        class_bytes(48) == 32768,
{
    lemma_small_powers();
    lemma_class_form(48);
    assert(class_bytes(0) == 4 * pow2(1));
    assert(class_bytes(1) == 5 * pow2(1));
    assert(class_bytes(2) == 6 * pow2(1));
    assert(class_bytes(3) == 7 * pow2(1));
    vstd::arithmetic::power2::lemma_pow2_unfold((index / 4 + 2) as nat);
    let p = pow2((index / 4 + 1) as nat) as int;
    let m = 4 + index % 4;
    assert(m * (2 * p) == 2 * (m * p)) by (nonlinear_arith);
}

/// A layout of at least one byte is served by a class exactly where some class has slots that are
/// large enough and aligned, and then by the first such class.
pub proof fn law_layout_is_served_where_a_class_fits(layout: Layout)
    requires
        layout.wf(),
        layout.size > 0,
    ensures
        class_of(layout) is Some <==> exists|i: int|
            #![trigger class_bytes(i)]
            0 <= i < 49 && class_bytes(i) >= layout.size && class_bytes(i) % (layout.align as int)
                == 0,
        class_of(layout) matches Some(c) ==> {
            &&& 0 <= c < 49
            &&& class_bytes(c) >= layout.size
            &&& class_bytes(c) % (layout.align as int) == 0
            &&& forall|i: int|
                #![trigger class_bytes(i)]
                0 <= i < c ==> class_bytes(i) < layout.size || class_bytes(i) % (
                layout.align as int) != 0
        },
{
    let align = layout.align as int;
    crate::sys::lemma_layout_bounds(layout);
    crate::layout::lemma_round_up(layout.size as int, align);
    let need = slot_need(layout);
    if class_of(layout) is Some {
        law_one_class_for_each_size(need);
        let c = class_of(layout)->0;
        assert(smallest_class(c, need));
        law_class_is_smallest_fit(layout, c);
        assert(class_bytes(c) >= layout.size);
    } else {
        assert forall|i: int|
            #![trigger class_bytes(i)]
            0 <= i < 49 && class_bytes(i) >= layout.size implies class_bytes(i) % align != 0 by {
            lemma_class_bounds(i);
            if class_bytes(i) % align == 0 {
                assert(class_bytes(i) >= crate::layout::round_up(layout.size as int, align));
            }
        }
    }
}

/// A request for no bytes needs the smallest slot, whatever its alignment.
pub proof fn law_empty_layout_needs_least(layout: Layout)
    requires
        layout.wf(),
        layout.size == 0,
    ensures
        class_of(layout) == Some(0int),
{
    let align = layout.align as int;
    crate::layout::law_layout_is_aligned_size(layout);
    let e = choose|e: nat| layout.align == #[trigger] pow2(e);
    vstd::arithmetic::power2::lemma_pow2_pos(e);
    crate::layout::lemma_round_up_step(0, align);
    vstd::arithmetic::div_mod::lemma_small_mod(0, align as nat);
    law_class_round_trip(0);
    lemma_small_powers();
    lemma_class_form(0);
    law_one_class_for_each_size(8);
    let c = class_of(layout)->0;
    assert(smallest_class(0, slot_need(layout)));
    assert(smallest_class(c, slot_need(layout)));
    lemma_class_unique(0, c, 8);
}

} // verus!
