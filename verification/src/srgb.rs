//! Fixed-point sRGB transfer curve.
//!
//! Linear light is carried as an integer in `[0, LINEAR_ONE]` with
//! `LINEAR_ONE` standing for 1.0.  Decoding follows the standard curve
//! `c <= 0.04045 ? c / 12.92 : ((c + 0.055) / 1.055)^2.4`, evaluated exactly
//! on integers: the exponent 2.4 is 12/5, so `t^2.4 = t^2 * (t^2)^(1/5)`
//! and a verified fifth root finishes the job.  Encoding returns the byte
//! whose decoded value is nearest the given linear value (the smallest such
//! byte on ties), which makes one decode/encode round trip a fixed point —
//! the fact the mipmap generator's color mode relies on.

use vstd::prelude::*;

use crate::arith::{
    fifth_root, floor_5th_root, lemma_floor_5th_root_exists, lemma_pow5_mono, pow5,
    FIFTH_ROOT_MAX,
};

verus! {

/// Fixed-point representation of linear-light 1.0 (2^25).
pub const LINEAR_ONE: u32 = 0x200_0000;

/// Linear-light value of an sRGB-encoded byte, in `[0, LINEAR_ONE]`.
///
/// For `v / 255 <= 0.04045` (that is `v <= 10`) the curve is linear:
/// `v / (255 * 12.92)`, scaled by `LINEAR_ONE` and kept as the exact
/// rational `10 * v / 32946`.  Otherwise `t = (v / 255 + 0.055) / 1.055
/// = (1000 * v + 14025) / 269025` and the result is `t^2 * (t^2)^(1/5)`,
/// all at scale `LINEAR_ONE`.  Pure white decodes to exactly `LINEAR_ONE`.
pub open spec fn srgb_decode_spec(v: u8) -> int {
    let s = LINEAR_ONE as int;
    if v == 255 {
        s
    } else if v <= 10 {
        (v * 10 * s) / 32946
    } else {
        let u = (1000 * v + 14025) * s / 269025;
        let w = (u * u) / s;
        (w * floor_5th_root(w * (s * s * s * s))) / s
    }
}

/// The decoded value of any byte lies in `[0, LINEAR_ONE]`.
pub proof fn lemma_decode_in_range(v: u8)
    ensures
        0 <= srgb_decode_spec(v) <= LINEAR_ONE,
{
    let s = LINEAR_ONE as int;
    if v == 255 {
    } else if v <= 10 {
        assert(0 <= v * 10 * s) by (nonlinear_arith)
            requires
                0 <= v,
                s == LINEAR_ONE as int,
        ;
        assert(v * 10 * s <= 100 * s) by (nonlinear_arith)
            requires
                v <= 10,
                0 < s,
        ;
        vstd::arithmetic::div_mod::lemma_div_pos_is_pos(v * 10 * s, 32946);
        vstd::arithmetic::div_mod::lemma_div_is_ordered(v * 10 * s, 100 * s, 32946);
        assert((100 * s) / 32946 <= s);
    } else {
        let u = (1000 * v + 14025) * s / 269025;
        let w = (u * u) / s;
        let s4 = s * s * s * s;
        assert((1000 * v + 14025) * s <= 269025 * s) by (nonlinear_arith)
            requires
                v <= 255,
                0 < s,
        ;
        assert(0 <= (1000 * v + 14025) * s) by (nonlinear_arith)
            requires
                11 <= v,
                0 < s,
        ;
        vstd::arithmetic::div_mod::lemma_div_pos_is_pos((1000 * v + 14025) * s, 269025);
        vstd::arithmetic::div_mod::lemma_div_is_ordered(
            (1000 * v + 14025) * s,
            269025 * s,
            269025,
        );
        vstd::arithmetic::div_mod::lemma_div_multiples_vanish(s, 269025);
        assert(u <= s);
        assert(0 <= u * u <= s * s) by (nonlinear_arith)
            requires
                0 <= u <= s,
        ;
        vstd::arithmetic::div_mod::lemma_div_pos_is_pos(u * u, s);
        vstd::arithmetic::div_mod::lemma_div_is_ordered(u * u, s * s, s);
        vstd::arithmetic::div_mod::lemma_div_multiples_vanish(s, s);
        assert(0 <= w <= s);
        assert(0 <= w * s4) by (nonlinear_arith)
            requires
                0 <= w,
                0 < s4,
        ;
        lemma_floor_5th_root_exists(w * s4);
        let y = floor_5th_root(w * s4);
        assert(0 <= y && pow5(y) <= w * s4 && w * s4 < pow5(y + 1));
        if y > s {
            lemma_pow5_mono(s + 1, y);
            assert(pow5(s + 1) > s * s4) by (nonlinear_arith)
                requires
                    0 < s,
                    s4 == s * s * s * s,
            ;
            assert(w * s4 <= s * s4) by (nonlinear_arith)
                requires
                    w <= s,
                    0 < s4,
            ;
            assert(false);
        }
        assert(0 <= w * y <= s * s) by (nonlinear_arith)
            requires
                0 <= w <= s,
                0 <= y <= s,
        ;
        vstd::arithmetic::div_mod::lemma_div_pos_is_pos(w * y, s);
        vstd::arithmetic::div_mod::lemma_div_is_ordered(w * y, s * s, s);
        vstd::arithmetic::div_mod::lemma_div_multiples_vanish(s, s);
    }
}

/// Decode an sRGB byte to fixed-point linear light.
pub fn srgb_to_linear(v: u8) -> (r: u32)
    ensures
        r as int == srgb_decode_spec(v),
        r <= LINEAR_ONE,
{
    proof {
        lemma_decode_in_range(v);
    }
    let s64: u64 = LINEAR_ONE as u64;
    if v == 255 {
        LINEAR_ONE
    } else if v <= 10 {
        let n: u64 = (v as u64) * 10 * s64;
        (n / 32946) as u32
    } else {
        let num: u64 = 1000 * (v as u64) + 14025;
        assert(num <= 268025);
        assert(num * s64 <= 268025 * 0x200_0000) by (nonlinear_arith)
            requires
                num <= 268025,
                s64 == 0x200_0000,
        ;
        let u_: u64 = num * s64 / 269025;
        proof {
            vstd::arithmetic::div_mod::lemma_div_is_ordered(
                num as int * s64 as int,
                268025 * s64 as int,
                269025,
            );
            assert((268025 * 0x200_0000) / 269025 < 0x200_0000);
        }
        assert(u_ < s64);
        assert(u_ * u_ <= 0x1FF_FFFFu64 * 0x1FF_FFFFu64) by (nonlinear_arith)
            requires
                u_ <= 0x1FF_FFFFu64,
        ;
        let w: u64 = u_ * u_ / s64;
        proof {
            vstd::arithmetic::div_mod::lemma_div_is_ordered(
                u_ as int * u_ as int,
                0x1FF_FFFFint * 0x1FF_FFFF,
                s64 as int,
            );
            assert((0x1FF_FFFF * 0x1FF_FFFF) / 0x200_0000 < 0x200_0000);
        }
        assert(w < s64);
        // w * 2^100 stays under 2^125 because w <= 2^25.
        let x5: u128 = (w as u128) * 0x10_0000_0000_0000_0000_0000_0000;
        assert((w as u128) * 0x10_0000_0000_0000_0000_0000_0000
            <= 0x1FF_FFFFu128 * 0x10_0000_0000_0000_0000_0000_0000) by (nonlinear_arith)
            requires
                w as u128 <= 0x1FF_FFFFu128,
        ;
        assert(x5 < FIFTH_ROOT_MAX);
        let y: u128 = fifth_root(x5);
        proof {
            if y > s64 {
                lemma_pow5_mono(s64 as int + 1, y as int);
                assert(pow5(s64 as int + 1) > (s64 as int) * (s64 as int) * (s64 as int) * (
                s64 as int) * (s64 as int)) by (nonlinear_arith)
                    requires
                        0 < s64,
                ;
                assert((y as int) * (y as int) * (y as int) * (y as int) * (y as int) == pow5(
                    y as int,
                ));
                assert(false);
            }
            assert(x5 as int == w as int * ((LINEAR_ONE as int) * (LINEAR_ONE as int) * (
            LINEAR_ONE as int) * (LINEAR_ONE as int))) by (nonlinear_arith)
                requires
                    x5 == (w as u128) * 0x10_0000_0000_0000_0000_0000_0000u128,
                    LINEAR_ONE == 0x200_0000u32,
            ;
        }
        let y64: u64 = y as u64;
        assert(w * y64 <= 0x200_0000u64 * 0x200_0000u64) by (nonlinear_arith)
            requires
                w <= 0x200_0000u64,
                y64 <= 0x200_0000u64,
        ;
        let r64: u64 = w * y64 / s64;
        r64 as u32
    }
}

/// Distance between the decoded value of `c` and a linear target.
pub open spec fn dist_to(c: u8, lin: int) -> int {
    vstd::math::abs(srgb_decode_spec(c) - lin) as int
}

/// Clamp a linear value into the representable range `[0, LINEAR_ONE]`.
pub open spec fn clip_linear(lin: int) -> int {
    if lin < 0 {
        0
    } else if lin > LINEAR_ONE {
        LINEAR_ONE as int
    } else {
        lin
    }
}

/// `v` is below `n`, no byte below `n` decodes closer to `lin`, and every
/// byte below `v` decodes strictly farther (so `v` is the first minimizer).
pub open spec fn is_first_min_upto(lin: int, n: int, v: u8) -> bool {
    &&& (v as int) < n
    &&& forall|v2: u8| (v2 as int) < n ==> dist_to(v, lin) <= #[trigger] dist_to(v2, lin)
    &&& forall|v2: u8| v2 < v ==> dist_to(v, lin) < #[trigger] dist_to(v2, lin)
}

/// `v` is the first byte whose decoded value is nearest `lin`.
pub open spec fn is_first_min(lin: int, v: u8) -> bool {
    is_first_min_upto(lin, 256, v)
}

/// The byte whose decoded value is nearest the clamped linear value
/// (smallest such byte on ties).
pub open spec fn srgb_encode_spec(lin: int) -> u8 {
    choose|v: u8| is_first_min(clip_linear(lin), v)
}

/// Among the first `n` bytes there is a first minimizer of the decode
/// distance to `lin`.
pub proof fn lemma_first_min_upto_exists(lin: int, n: int)
    requires
        1 <= n <= 256,
    ensures
        exists|v: u8| #[trigger] is_first_min_upto(lin, n, v),
    decreases n,
{
    if n == 1 {
        assert(is_first_min_upto(lin, 1, 0u8));
    } else {
        lemma_first_min_upto_exists(lin, n - 1);
        let prev = choose|v: u8| #[trigger] is_first_min_upto(lin, n - 1, v);
        let cand = (n - 1) as u8;
        if dist_to(cand, lin) < dist_to(prev, lin) {
            assert(is_first_min_upto(lin, n, cand));
        } else {
            assert(is_first_min_upto(lin, n, prev));
        }
    }
}

/// There is always a first minimizer over the whole byte range.
pub proof fn lemma_first_min_exists(lin: int)
    ensures
        exists|v: u8| #[trigger] is_first_min(lin, v),
{
    lemma_first_min_upto_exists(lin, 256);
    let v = choose|v: u8| #[trigger] is_first_min_upto(lin, 256, v);
    assert(is_first_min(lin, v));
}

/// The first minimizer is unique.
pub proof fn lemma_first_min_unique(lin: int, a: u8, b: u8)
    requires
        is_first_min(lin, a),
        is_first_min(lin, b),
    ensures
        a == b,
{
    if a < b {
        assert(dist_to(b, lin) < dist_to(a, lin));
        assert(dist_to(a, lin) <= dist_to(b, lin));
        assert(false);
    }
    if b < a {
        assert(dist_to(a, lin) < dist_to(b, lin));
        assert(dist_to(b, lin) <= dist_to(a, lin));
        assert(false);
    }
}

/// A witness of the first-minimizer property pins down `srgb_encode_spec`.
pub proof fn lemma_encode_spec_is(lin: int, v: u8)
    requires
        is_first_min(clip_linear(lin), v),
    ensures
        srgb_encode_spec(lin) == v,
{
    let v0 = srgb_encode_spec(lin);
    assert(is_first_min(clip_linear(lin), v0));
    lemma_first_min_unique(clip_linear(lin), v0, v);
}

/// Encode fixed-point linear light as the nearest sRGB byte.
///
/// The input is clamped to `[0, LINEAR_ONE]` first; on ties the smaller
/// byte wins.
pub fn linear_to_srgb(linear: u32) -> (r: u8)
    ensures
        r == srgb_encode_spec(linear as int),
        is_first_min(clip_linear(linear as int), r),
{
    let lin: u32 = if linear > LINEAR_ONE {
        LINEAR_ONE
    } else {
        linear
    };
    assert(lin as int == clip_linear(linear as int));
    let d0: u32 = srgb_to_linear(0);
    let mut best: u8 = 0;
    let mut best_dist: u32 = if d0 >= lin {
        d0 - lin
    } else {
        lin - d0
    };
    let mut vi: u32 = 1;
    while vi <= 255
        invariant
            1 <= vi <= 256,
            (best as int) < vi,
            lin as int == clip_linear(linear as int),
            lin <= LINEAR_ONE,
            best_dist as int == dist_to(best, lin as int),
            forall|v2: u8| (v2 as int) < vi ==> #[trigger] dist_to(v2, lin as int)
                >= best_dist as int,
            forall|v2: u8| v2 < best ==> #[trigger] dist_to(v2, lin as int) > best_dist as int,
        decreases 256 - vi,
    {
        let c: u8 = vi as u8;
        let d: u32 = srgb_to_linear(c);
        let dist: u32 = if d >= lin {
            d - lin
        } else {
            lin - d
        };
        assert(dist as int == dist_to(c, lin as int));
        if dist < best_dist {
            best = c;
            best_dist = dist;
        }
        vi = vi + 1;
    }
    proof {
        assert(is_first_min_upto(lin as int, 256, best));
        lemma_encode_spec_is(linear as int, best);
    }
    best
}

/// One decode/encode round trip of a byte.
pub open spec fn srgb_requant(c: u8) -> u8 {
    srgb_encode_spec(srgb_decode_spec(c))
}

/// Requantization is a fixed point: a byte that came out of one
/// decode/encode round trip comes out of the next one unchanged.
pub proof fn lemma_requant_fixed(c: u8)
    ensures
        srgb_requant(srgb_requant(c)) == srgb_requant(c),
{
    let l1 = srgb_decode_spec(c);
    lemma_decode_in_range(c);
    assert(clip_linear(l1) == l1);
    lemma_first_min_exists(l1);
    let q = srgb_encode_spec(l1);
    assert(is_first_min(l1, q));
    let l2 = srgb_decode_spec(q);
    lemma_decode_in_range(q);
    assert(clip_linear(l2) == l2);
    assert(dist_to(q, l2) == 0);
    assert forall|v2: u8| v2 < q implies dist_to(q, l2) < #[trigger] dist_to(v2, l2) by {
        if dist_to(v2, l2) == 0 {
            assert(srgb_decode_spec(v2) == l2);
            assert(dist_to(v2, l1) == dist_to(q, l1));
            assert(dist_to(q, l1) < dist_to(v2, l1));
            assert(false);
        }
    }
    assert(is_first_min(l2, q));
    lemma_encode_spec_is(l2, q);
}

} // verus!
