//! Size and alignment of a memory request.

use vstd::prelude::*;

verus! {

/// A power of two: one, or twice a power of two.
pub open spec fn is_power_of_two(n: int) -> bool
    decreases n,
{
    n == 1 || (n > 1 && n % 2 == 0 && is_power_of_two(n / 2))
}

/// The smallest multiple of `m` that is not below `n`.
pub open spec fn round_up(n: int, m: int) -> int {
    ((n + m - 1) / m) * m
}

/// The size and alignment of a block of memory.
#[derive(Clone, Copy, Debug, PartialEq, Eq, Structural)]
pub struct Layout {
    pub size: usize,
    pub align: usize,
}

/// The size and alignment handed to [`Layout::from_size_align`] describe no block.
#[derive(Clone, Copy, Debug, PartialEq, Eq, Structural)]
pub struct LayoutError;

impl Layout {
    /// The alignment is a power of two and the size, rounded up to it, fits in `isize`.
    pub open spec fn wf(&self) -> bool {
        is_power_of_two(self.align as int) && round_up(self.size as int, self.align as int)
            <= isize::MAX
    }

    /// Makes a layout, or refuses a size and alignment that describe no block.
    pub fn from_size_align(size: usize, align: usize) -> (r: Result<Layout, LayoutError>)
        ensures
            r is Ok <==> (Layout { size, align }).wf(),
            r matches Ok(l) ==> l == (Layout { size, align }),
    {
        let mut rest: usize = align;
        while rest > 1 && rest % 2 == 0
            invariant
                is_power_of_two(align as int) == is_power_of_two(rest as int),
            decreases rest,
        {
            rest = rest / 2;
        }
        if rest != 1 {
            return Err(LayoutError);
        }
        proof {
            lemma_round_up_step(size as int, align as int);
        }
        let limit: usize = isize::MAX as usize;
        let excess: usize = size % align;
        if size > limit || (excess != 0 && align - excess > limit - size) {
            return Err(LayoutError);
        }
        Ok(Layout { size, align })
    }

    /// The size in bytes.
    pub fn size(&self) -> (r: usize)
        ensures
            r == self.size,
    {
        self.size
    }

    /// The alignment in bytes.
    pub fn align(&self) -> (r: usize)
        ensures
            r == self.align,
    {
        self.align
    }
}

/// Rounds `n` up to a multiple of `m`.
pub fn next_multiple_of(n: usize, m: usize) -> (r: usize)
    requires
        m > 0,
        round_up(n as int, m as int) <= usize::MAX,
    ensures
        r == round_up(n as int, m as int),
{
    proof {
        lemma_round_up_step(n as int, m as int);
    }
    let excess: usize = n % m;
    if excess == 0 {
        n
    } else {
        n + (m - excess)
    }
}

/// Rounding up adds what is missing to the next multiple.
pub proof fn lemma_round_up_step(n: int, m: int)
    requires
        m > 0,
        n >= 0,
    ensures
        round_up(n, m) == if n % m == 0 {
            n
        } else {
            n - n % m + m
        },
{
    let q = n / m;
    let r = n % m;
    vstd::arithmetic::div_mod::lemma_fundamental_div_mod(n, m);
    if r == 0 {
        assert(n + m - 1 == q * m + (m - 1)) by (nonlinear_arith)
            requires
                n == m * q,
        ;
        vstd::arithmetic::div_mod::lemma_fundamental_div_mod_converse(n + m - 1, m, q, m - 1);
        assert(q * m == m * q) by (nonlinear_arith);
    } else {
        assert(n + m - 1 == (q + 1) * m + (r - 1)) by (nonlinear_arith)
            requires
                n == m * q + r,
        ;
        vstd::arithmetic::div_mod::lemma_fundamental_div_mod_converse(n + m - 1, m, q + 1, r - 1);
        assert((q + 1) * m == m * q + m) by (nonlinear_arith);
    }
}

/// Rounding up gives the least multiple of `m` that is not below `n`.
pub proof fn lemma_round_up(n: int, m: int)
    requires
        m > 0,
    ensures
        n <= round_up(n, m) < n + m,
        round_up(n, m) % m == 0,
        forall|k: int| #![trigger k % m] k % m == 0 && k >= n ==> k >= round_up(n, m),
{
    let q = (n + m - 1) / m;
    vstd::arithmetic::div_mod::lemma_fundamental_div_mod(n + m - 1, m);
    assert(n <= q * m < n + m) by (nonlinear_arith)
        requires
            m > 0,
            n + m - 1 == m * q + (n + m - 1) % m,
            0 <= (n + m - 1) % m < m,
    ;
    vstd::arithmetic::div_mod::lemma_mod_multiples_basic(q, m);
    assert forall|k: int| #![trigger k % m] k % m == 0 && k >= n implies k >= q * m by {
        let j = k / m;
        vstd::arithmetic::div_mod::lemma_fundamental_div_mod(k, m);
        assert(j >= q) by (nonlinear_arith)
            requires
                m > 0,
                k == m * j,
                k >= n,
                q * m < n + m,
        ;
        assert(k >= q * m) by (nonlinear_arith)
            requires
                m > 0,
                k == m * j,
                j >= q,
        ;
    }
}

/// A size and an alignment describe a block exactly where the alignment is a power of two and a
/// multiple of it that is not below the size fits in `isize`.
pub proof fn law_layout_is_aligned_size(layout: Layout)
    ensures
        layout.wf() <==> {
            &&& exists|e: nat| layout.align == #[trigger] vstd::arithmetic::power2::pow2(e)
            &&& exists|k: int|
                #![trigger k % (layout.align as int)]
                k % (layout.align as int) == 0 && layout.size <= k <= isize::MAX
        },
{
    let align = layout.align as int;
    lemma_power_of_two(align);
    if exists|e: nat| align == #[trigger] vstd::arithmetic::power2::pow2(e) {
        let e = choose|e: nat| align == #[trigger] vstd::arithmetic::power2::pow2(e);
        vstd::arithmetic::power2::lemma_pow2_pos(e);
        lemma_round_up(layout.size as int, align);
        let n = round_up(layout.size as int, align);
        if n <= isize::MAX {
            assert(n % align == 0 && layout.size <= n <= isize::MAX);
        }
    }
}

/// The powers of two are those that vstd knows.
proof fn lemma_power_of_two(n: int)
    ensures
        is_power_of_two(n) <==> exists|e: nat| n == #[trigger] vstd::arithmetic::power2::pow2(e),
    decreases n,
{
    vstd::arithmetic::power2::lemma2_to64();
    if n > 1 {
        lemma_power_of_two(n / 2);
        if is_power_of_two(n) {
            let e = choose|e: nat| n / 2 == #[trigger] vstd::arithmetic::power2::pow2(e);
            vstd::arithmetic::power2::lemma_pow2_unfold(e + 1);
            assert(n == vstd::arithmetic::power2::pow2(e + 1));
        }
        if exists|e: nat| n == #[trigger] vstd::arithmetic::power2::pow2(e) {
            let e = choose|e: nat| n == #[trigger] vstd::arithmetic::power2::pow2(e);
            vstd::arithmetic::power2::lemma_pow2_unfold(e);
            assert(n / 2 == vstd::arithmetic::power2::pow2((e - 1) as nat));
        }
    } else if n == 1 {
        assert(n == vstd::arithmetic::power2::pow2(0));
    } else {
        assert forall|e: nat| n != #[trigger] vstd::arithmetic::power2::pow2(e) by {
            vstd::arithmetic::power2::lemma_pow2_pos(e);
        }
    }
}

/// Rounding up gives a multiple, not below the number, and no multiple in between.
pub proof fn law_round_up_is_least_multiple(n: int, m: int, k: int)
    requires
        m > 0,
        k % m == 0,
        k >= n,
    ensures
        round_up(n, m) % m == 0,
        n <= round_up(n, m) <= k,
        round_up(n, m) < n + m,
{
    lemma_round_up(n, m);
}

} // verus!
