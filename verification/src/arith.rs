//! Verified integer roots used by the fixed-point pixel math.
//!
//! Normal renormalization needs a square root and the sRGB transfer curve
//! (an exponent of 12/5) needs a fifth root; both are computed exactly on
//! integers by binary search.

use vstd::prelude::*;

verus! {

/// 2^126: bound that keeps `(r + 1)^2` inside `u128` during the search.
pub const ISQRT_MAX: u128 = 0x4000_0000_0000_0000_0000_0000_0000_0000;

/// 2^125: bound that keeps `(r + 1)^5` inside `u128` during the search.
pub const FIFTH_ROOT_MAX: u128 = 0x2000_0000_0000_0000_0000_0000_0000_0000;

/// The square of an integer.
pub open spec fn sq(n: int) -> int {
    n * n
}

/// The fifth power of an integer.
pub open spec fn pow5(n: int) -> int {
    n * n * n * n * n
}

/// Floor of the mathematical square root of a nonnegative integer.
pub open spec fn floor_sqrt(x: int) -> int {
    choose|r: int| 0 <= r && #[trigger] sq(r) <= x && x < sq(r + 1)
}

/// Floor of the mathematical fifth root of a nonnegative integer.
pub open spec fn floor_5th_root(x: int) -> int {
    choose|r: int| 0 <= r && #[trigger] pow5(r) <= x && x < pow5(r + 1)
}

/// Squaring is monotone on nonnegative integers.
pub proof fn lemma_sq_mono(a: int, b: int)
    requires
        0 <= a <= b,
    ensures
        sq(a) <= sq(b),
{
    assert(a * a <= b * b) by (nonlinear_arith)
        requires
            0 <= a <= b,
    ;
}

/// The fifth power is monotone on nonnegative integers.
pub proof fn lemma_pow5_mono(a: int, b: int)
    requires
        0 <= a <= b,
    ensures
        pow5(a) <= pow5(b),
{
    assert(a * a * a * a * a <= b * b * b * b * b) by (nonlinear_arith)
        requires
            0 <= a <= b,
    ;
}

/// Every nonnegative integer has a floor square root.
pub proof fn lemma_floor_sqrt_exists(x: int)
    requires
        0 <= x,
    ensures
        exists|r: int| 0 <= r && #[trigger] sq(r) <= x && x < sq(r + 1),
    decreases x,
{
    if x == 0 {
        assert(0int <= 0 && sq(0int) <= x < sq(0int + 1));
    } else {
        lemma_floor_sqrt_exists(x - 1);
        let r = choose|r: int| 0 <= r && #[trigger] sq(r) <= x - 1 && x - 1 < sq(r + 1);
        if x < sq(r + 1) {
            assert(0 <= r && sq(r) <= x < sq(r + 1));
        } else {
            assert(x == sq(r + 1));
            assert(sq(r + 1) < sq(r + 2)) by (nonlinear_arith)
                requires
                    0 <= r,
            ;
            assert(0 <= r + 1 && sq(r + 1) <= x < sq(r + 1 + 1));
        }
    }
}

/// Every nonnegative integer has a floor fifth root.
pub proof fn lemma_floor_5th_root_exists(x: int)
    requires
        0 <= x,
    ensures
        exists|r: int| 0 <= r && #[trigger] pow5(r) <= x && x < pow5(r + 1),
    decreases x,
{
    if x == 0 {
        assert(0int <= 0 && pow5(0int) <= x < pow5(0int + 1));
    } else {
        lemma_floor_5th_root_exists(x - 1);
        let r = choose|r: int| 0 <= r && #[trigger] pow5(r) <= x - 1 && x - 1 < pow5(r + 1);
        if x < pow5(r + 1) {
            assert(0 <= r && pow5(r) <= x < pow5(r + 1));
        } else {
            assert(x == pow5(r + 1));
            assert(pow5(r + 1) < pow5(r + 2)) by (nonlinear_arith)
                requires
                    0 <= r,
            ;
            assert(0 <= r + 1 && pow5(r + 1) <= x < pow5(r + 1 + 1));
        }
    }
}

/// A value satisfying the floor-square-root bounds is `floor_sqrt`.
pub proof fn lemma_floor_sqrt_is(x: int, r: int)
    requires
        0 <= r,
        sq(r) <= x < sq(r + 1),
    ensures
        floor_sqrt(x) == r,
{
    let r0 = floor_sqrt(x);
    assert(0 <= r0 && sq(r0) <= x < sq(r0 + 1));
    if r0 < r {
        lemma_sq_mono(r0 + 1, r);
        assert(false);
    }
    if r < r0 {
        lemma_sq_mono(r + 1, r0);
        assert(false);
    }
}

/// A value satisfying the floor-fifth-root bounds is `floor_5th_root`.
pub proof fn lemma_floor_5th_root_is(x: int, r: int)
    requires
        0 <= r,
        pow5(r) <= x < pow5(r + 1),
    ensures
        floor_5th_root(x) == r,
{
    let r0 = floor_5th_root(x);
    assert(0 <= r0 && pow5(r0) <= x < pow5(r0 + 1));
    if r0 < r {
        lemma_pow5_mono(r0 + 1, r);
        assert(false);
    }
    if r < r0 {
        lemma_pow5_mono(r + 1, r0);
        assert(false);
    }
}

/// Floor of the square root: the unique `r` with `r^2 <= x < (r + 1)^2`.
pub fn isqrt(x: u128) -> (r: u128)
    requires
        x < ISQRT_MAX,
    ensures
        r * r <= x,
        x < (r + 1) * (r + 1),
        r == floor_sqrt(x as int),
{
    let mut lo: u128 = 0;
    let mut hi: u128 = 0x8000_0000_0000_0000;  // 2^63
    while hi - lo > 1
        invariant
            lo < hi <= 0x8000_0000_0000_0000,
            lo * lo <= x,
            x < hi * hi,
            x < ISQRT_MAX,
        decreases hi - lo,
    {
        let mid: u128 = lo + (hi - lo) / 2;
        assert(lo < mid < hi);
        assert(mid * mid <= 0x8000_0000_0000_0000u128 * 0x8000_0000_0000_0000u128)
            by (nonlinear_arith)
            requires
                0 < mid <= 0x8000_0000_0000_0000u128,
        ;
        let sq: u128 = mid * mid;
        if sq <= x {
            lo = mid;
        } else {
            hi = mid;
        }
    }
    assert(hi == lo + 1);
    proof {
        lemma_floor_sqrt_is(x as int, lo as int);
    }
    lo
}

/// Floor of the fifth root: the unique `r` with `r^5 <= x < (r + 1)^5`.
pub fn fifth_root(x: u128) -> (r: u128)
    requires
        x < FIFTH_ROOT_MAX,
    ensures
        r * r * r * r * r <= x,
        x < (r + 1) * (r + 1) * (r + 1) * (r + 1) * (r + 1),
        r == floor_5th_root(x as int),
{
    let mut lo: u128 = 0;
    let mut hi: u128 = 0x200_0000;  // 2^25
    assert(0x200_0000u128 * 0x200_0000 * 0x200_0000 * 0x200_0000 * 0x200_0000
        == FIFTH_ROOT_MAX);
    while hi - lo > 1
        invariant
            lo < hi <= 0x200_0000,
            lo * lo * lo * lo * lo <= x,
            x < hi * hi * hi * hi * hi,
            x < FIFTH_ROOT_MAX,
        decreases hi - lo,
    {
        let mid: u128 = lo + (hi - lo) / 2;
        assert(lo < mid < hi);
        assert(mid * mid <= 0x4_0000_0000_0000u128) by (nonlinear_arith)
            requires
                mid <= 0x200_0000u128,
        ;
        let p2: u128 = mid * mid;
        assert(p2 * p2 <= 0x4_0000_0000_0000u128 * 0x4_0000_0000_0000u128) by (nonlinear_arith)
            requires
                p2 <= 0x4_0000_0000_0000u128,
        ;
        let p4: u128 = p2 * p2;
        assert(p4 * mid <= 0x10_0000_0000_0000_0000_0000_0000u128 * 0x200_0000u128)
            by (nonlinear_arith)
            requires
                p4 <= 0x10_0000_0000_0000_0000_0000_0000u128,
                mid <= 0x200_0000u128,
        ;
        let p5: u128 = p4 * mid;
        assert(p5 == mid * mid * mid * mid * mid) by (nonlinear_arith)
            requires
                p2 == mid * mid,
                p4 == p2 * p2,
                p5 == p4 * mid,
        ;
        if p5 <= x {
            lo = mid;
        } else {
            hi = mid;
        }
    }
    assert(hi == lo + 1);
    proof {
        lemma_floor_5th_root_is(x as int, lo as int);
    }
    lo
}

} // verus!
