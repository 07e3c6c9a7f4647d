//! Fixed-point scale, integer square root, and a fixed-point logarithm.

use vstd::prelude::*;

verus! {

/// Number of fixed-point units that stand for the real value one.
pub const SCALE: u64 = 1_000_000;

/// The natural logarithm of two, in fixed-point units.
pub const LN2_FP: u64 = 693_147;

/// Largest row, column or vector length the numeric routines accept.
pub const MAX_DIM: usize = 0x7FFF_FFFF;

/// Largest fixed-point weight or rating the numeric routines accept.
pub const MAX_WEIGHT: u64 = 0xFFFF_FFFF;

/// `r` is the integer square root of `x`, rounded down.
pub open spec fn is_sqrt_floor(x: int, r: int) -> bool {
    0 <= r && r * r <= x && x < (r + 1) * (r + 1)
}

/// The integer square root of `x`, rounded down.
pub open spec fn sqrt_floor(x: int) -> int {
    choose|r: int| #[trigger] is_sqrt_floor(x, r)
}

/// Every non-negative integer has an integer square root.
pub proof fn lemma_sqrt_exists(x: nat)
    ensures
        exists|r: int| is_sqrt_floor(x as int, r),
    decreases x,
{
    if x == 0 {
        assert(is_sqrt_floor(0, 0));
    } else {
        lemma_sqrt_exists((x - 1) as nat);
        let r = choose|r: int| #[trigger] is_sqrt_floor(x - 1, r);
        if x < (r + 1) * (r + 1) {
            assert(is_sqrt_floor(x as int, r));
        } else {
            assert(is_sqrt_floor(x as int, r + 1)) by (nonlinear_arith)
                requires
                    0 <= r,
                    r * r <= x - 1,
                    x - 1 < (r + 1) * (r + 1),
                    x >= (r + 1) * (r + 1),
            ;
        }
    }
}

/// The integer square root is unique.
pub proof fn lemma_sqrt_unique(x: int, r1: int, r2: int)
    requires
        is_sqrt_floor(x, r1),
        is_sqrt_floor(x, r2),
    ensures
        r1 == r2,
{
    assert(r1 == r2) by (nonlinear_arith)
        requires
            0 <= r1 && r1 * r1 <= x && x < (r1 + 1) * (r1 + 1),
            0 <= r2 && r2 * r2 <= x && x < (r2 + 1) * (r2 + 1),
    ;
}

/// A witness for `is_sqrt_floor` pins down `sqrt_floor`.
pub proof fn lemma_sqrt_is(x: int, r: int)
    requires
        is_sqrt_floor(x, r),
    ensures
        sqrt_floor(x) == r,
{
    let c = choose|c: int| #[trigger] is_sqrt_floor(x, c);
    lemma_sqrt_unique(x, c, r);
}

/// A positive integer has a positive square root.
pub proof fn lemma_sqrt_pos(x: int)
    requires
        x >= 1,
    ensures
        sqrt_floor(x) >= 1,
        sqrt_floor(x) * sqrt_floor(x) <= x,
{
    lemma_sqrt_exists(x as nat);
    let c = choose|c: int| #[trigger] is_sqrt_floor(x, c);
    assert(is_sqrt_floor(x, c));
    if c == 0 {
        assert((c + 1) * (c + 1) == 1) by (nonlinear_arith)
            requires
                c == 0,
        ;
        assert(x < 1);
    }
}

/// Integer square root by bisection.
pub fn isqrt(x: u128) -> (r: u64)
    requires
        x < 0x1000000000000000000000000u128,
    ensures
        is_sqrt_floor(x as int, r as int),
        r as int == sqrt_floor(x as int),
{
    let mut lo: u128 = 0;
    let mut hi: u128 = 0x1000000000000u128;
    assert(0x1000000000000u128 * 0x1000000000000u128 == 0x1000000000000000000000000u128)
        by (nonlinear_arith);
    while lo + 1 < hi
        invariant
            lo < hi,
            hi <= 0x1000000000000u128,
            lo * lo <= x,
            x < hi * hi,
        decreases hi - lo,
    {
        let mid = lo + (hi - lo) / 2;
        assert(lo < mid < hi);
        assert(mid * mid < 0x1000000000000000000000000u128) by (nonlinear_arith)
            requires
                mid < 0x1000000000000u128,
        ;
        if mid * mid <= x {
            lo = mid;
        } else {
            hi = mid;
        }
    }
    assert(is_sqrt_floor(x as int, lo as int));
    proof {
        lemma_sqrt_is(x as int, lo as int);
    }
    lo as u64
}

/// How often `d` can be doubled while staying at or below `n`.
pub open spec fn log2_floor(n: int, d: int) -> int
    decreases n - d when d >= 1
{
    if d < 1 || n < 2 * d {
        0
    } else {
        1 + log2_floor(n, 2 * d)
    }
}

/// `d` doubled until one more doubling would pass `n`.
pub open spec fn norm_den(n: int, d: int) -> int
    decreases n - d when d >= 1
{
    if d < 1 || n < 2 * d {
        d
    } else {
        norm_den(n, 2 * d)
    }
}

pub proof fn lemma_norm_den_bounds(n: int, d: int)
    requires
        1 <= d <= n,
    ensures
        d <= norm_den(n, d) <= n,
        n < 2 * norm_den(n, d),
        log2_floor(n, d) >= 0,
    decreases n - d,
{
    if n < 2 * d {
    } else {
        lemma_norm_den_bounds(n, 2 * d);
    }
}

/// Fixed-point approximation of the natural logarithm of `n / d`:
/// whole multiples of ln 2, with linear interpolation inside the last octave.
pub open spec fn spec_idf(n: int, d: int) -> int {
    log2_floor(n, d) * LN2_FP + (n - norm_den(n, d)) * LN2_FP / norm_den(n, d)
}

/// The logarithm of one is zero.
pub proof fn lemma_idf_zero(n: int)
    requires
        n >= 1,
    ensures
        spec_idf(n, n) == 0,
{
    assert(log2_floor(n, n) == 0);
    assert(norm_den(n, n) == n);
}

/// The approximate logarithm is never negative.
pub proof fn lemma_idf_nonneg(n: int, d: int)
    requires
        1 <= d <= n,
    ensures
        spec_idf(n, d) >= 0,
{
    lemma_norm_den_bounds(n, d);
    let dd = norm_den(n, d);
    assert((n - dd) * LN2_FP >= 0) by (nonlinear_arith)
        requires
            n - dd >= 0,
    ;
    vstd::arithmetic::div_mod::lemma_div_pos_is_pos((n - dd) * LN2_FP as int, dd);
    assert(log2_floor(n, d) * LN2_FP >= 0) by (nonlinear_arith)
        requires
            log2_floor(n, d) >= 0,
    ;
}

/// The approximate logarithm of a ratio of at least two is positive.
pub proof fn lemma_idf_pos(n: int, d: int)
    requires
        1 <= d,
        2 * d <= n,
    ensures
        spec_idf(n, d) >= LN2_FP,
    decreases n - d,
{
    lemma_norm_den_bounds(n, d);
    lemma_norm_den_bounds(n, 2 * d);
    let dd = norm_den(n, d);
    assert(log2_floor(n, d) == 1 + log2_floor(n, 2 * d));
    assert(log2_floor(n, d) >= 1);
    assert((n - dd) * LN2_FP >= 0) by (nonlinear_arith)
        requires
            n - dd >= 0,
    ;
    vstd::arithmetic::div_mod::lemma_div_pos_is_pos((n - dd) * LN2_FP as int, dd);
    assert(log2_floor(n, d) * LN2_FP >= LN2_FP) by (nonlinear_arith)
        requires
            log2_floor(n, d) >= 1,
    ;
}

/// The approximate logarithm stays well under the weight bound.
pub proof fn lemma_idf_bound(n: int, d: int)
    requires
        1 <= d <= n,
        n <= MAX_WEIGHT,
    ensures
        spec_idf(n, d) <= 41 * (LN2_FP as int),
        spec_idf(n, d) <= MAX_WEIGHT,
{
    lemma_norm_den_bounds(n, d);
    let dd = norm_den(n, d);
    lemma_log2_floor_tight(n, d);
    assert(log2_floor(n, d) * LN2_FP <= 40 * (LN2_FP as int)) by (nonlinear_arith)
        requires
            0 <= log2_floor(n, d) <= 40,
    ;
    assert((n - dd) * LN2_FP < dd * (LN2_FP as int)) by (nonlinear_arith)
        requires
            0 <= n - dd < dd,
            LN2_FP > 0,
    ;
    assert((n - dd) * LN2_FP / dd < LN2_FP) by {
        vstd::arithmetic::div_mod::lemma_multiply_divide_lt((n - dd) * (LN2_FP as int), dd, LN2_FP as int);
    }
}

/// Doubling `d` as often as `log2_floor` counts stays within `n`.
pub proof fn lemma_log2_pow(n: int, d: int)
    requires
        1 <= d <= n,
    ensures
        vstd::arithmetic::power2::pow2(log2_floor(n, d) as nat) * d <= n,
    decreases n - d,
{
    if n < 2 * d {
        assert(log2_floor(n, d) == 0);
        assert(vstd::arithmetic::power2::pow2(0) == 1) by {
            vstd::arithmetic::power2::lemma2_to64();
        }
        assert(vstd::arithmetic::power2::pow2(0) * d == d) by (nonlinear_arith)
            requires
                vstd::arithmetic::power2::pow2(0) == 1,
        ;
    } else {
        lemma_log2_pow(n, 2 * d);
        lemma_norm_den_bounds(n, 2 * d);
        let k = log2_floor(n, 2 * d) as nat;
        assert(log2_floor(n, d) == 1 + log2_floor(n, 2 * d));
        assert(log2_floor(n, d) as nat == k + 1);
        assert(vstd::arithmetic::power2::pow2(k + 1) == 2 * vstd::arithmetic::power2::pow2(k)) by {
            vstd::arithmetic::power2::lemma_pow2_unfold((k + 1) as nat);
        }
        assert(vstd::arithmetic::power2::pow2(k + 1) * d == vstd::arithmetic::power2::pow2(k) * (2
            * d)) by (nonlinear_arith)
            requires
                vstd::arithmetic::power2::pow2(k + 1) == 2 * vstd::arithmetic::power2::pow2(k),
        ;
    }
}

/// `log2_floor(n, d)` cannot exceed the bit width of `n`.
pub proof fn lemma_log2_floor_tight(n: int, d: int)
    requires
        1 <= d <= n,
        n <= MAX_WEIGHT,
    ensures
        log2_floor(n, d) <= 40,
{
    lemma_norm_den_bounds(n, d);
    let k = log2_floor(n, d);
    lemma_log2_pow(n, d);
    if k > 40 {
        assert(vstd::arithmetic::power2::pow2(40) < vstd::arithmetic::power2::pow2(k as nat)) by {
            vstd::arithmetic::power2::lemma_pow2_strictly_increases(40, k as nat);
        }
        assert(vstd::arithmetic::power2::pow2(40) == 0x10000000000) by {
            vstd::arithmetic::power2::lemma2_to64_rest();
        }
        assert(vstd::arithmetic::power2::pow2(k as nat) * d >= vstd::arithmetic::power2::pow2(
            k as nat,
        ) * 1) by (nonlinear_arith)
            requires
                d >= 1,
        ;
        assert(false);
    }
}

/// Fixed-point natural logarithm of `n / d`, exactly [`spec_idf`].
pub fn idf_fixed(n: u64, d: u64) -> (r: u64)
    requires
        1 <= d <= n,
        n <= MAX_WEIGHT,
    ensures
        r as int == spec_idf(n as int, d as int),
        r <= MAX_WEIGHT,
{
    let mut k: u64 = 0;
    let mut dd: u64 = d;
    proof {
        lemma_norm_den_bounds(n as int, d as int);
        lemma_log2_floor_tight(n as int, d as int);
    }
    while n >= 2 * dd
        invariant
            1 <= dd <= n <= MAX_WEIGHT,
            1 <= d <= n,
            log2_floor(n as int, d as int) == k + log2_floor(n as int, dd as int),
            norm_den(n as int, d as int) == norm_den(n as int, dd as int),
            k <= 40,
        decreases n - dd,
    {
        proof {
            assert(log2_floor(n as int, dd as int) == 1 + log2_floor(n as int, 2 * (dd as int)));
            assert(norm_den(n as int, dd as int) == norm_den(n as int, 2 * (dd as int)));
            lemma_norm_den_bounds(n as int, 2 * (dd as int));
            lemma_log2_floor_tight(n as int, d as int);
        }
        dd = 2 * dd;
        k = k + 1;
    }
    proof {
        assert(log2_floor(n as int, dd as int) == 0);
        assert(norm_den(n as int, dd as int) == dd);
        lemma_norm_den_bounds(n as int, d as int);
        lemma_idf_bound(n as int, d as int);
        lemma_idf_nonneg(n as int, d as int);
        assert((n - dd) * (LN2_FP as int) < (dd as int) * (LN2_FP as int)) by (nonlinear_arith)
            requires
                0 <= n - dd < dd,
        ;
        vstd::arithmetic::div_mod::lemma_multiply_divide_lt(
            (n - dd) * (LN2_FP as int),
            dd as int,
            LN2_FP as int,
        );
    }
    let frac = ((n - dd) * LN2_FP) / dd;
    k * LN2_FP + frac
}

} // verus!
