//! Height-field to tangent-space-normal conversion, in fixed point.
//!
//! Direction vectors are carried as integer triples at an arbitrary common
//! scale; [`encode_direction`] renormalizes a triple to unit length at scale
//! `NORM_ONE` with a verified integer square root, then packs each component
//! from `[-1, 1]` into a byte, mapping 0.0 to 128.  Heights live in
//! `[0, HEIGHT_ONE]`, the fixed-point image of the `[0, 1]` range that
//! synthesis produces.

use vstd::prelude::*;

use crate::arith::{floor_sqrt, isqrt, lemma_sq_mono, sq, ISQRT_MAX};

verus! {

/// Fixed-point representation of 1.0 for direction components (2^16).
pub const NORM_ONE: i64 = 0x1_0000;

/// Fixed-point representation of a height of 1.0 (2^16).
pub const HEIGHT_ONE: u32 = 0x1_0000;

/// Fixed-point representation of a gradient strength of 1.0 (2^8).
pub const STRENGTH_ONE: u32 = 0x100;

/// Largest direction-component magnitude [`encode_direction`] accepts (2^40).
pub const DIR_COMPONENT_MAX: i64 = 0x100_0000_0000;

/// The norm of an integer direction vector at scale `NORM_ONE`:
/// `floor(sqrt(x^2 + y^2 + z^2) * NORM_ONE)`.
pub open spec fn direction_norm(x: int, y: int, z: int) -> int {
    floor_sqrt((x * x + y * y + z * z) * (NORM_ONE as int * NORM_ONE as int))
}

/// One renormalized component at scale `NORM_ONE`: `c * NORM_ONE / |v|`,
/// computed on the magnitude so that rounding is symmetric around zero.
pub open spec fn scaled_component(c: int, l: int) -> int {
    let m = (vstd::math::abs(c) * (NORM_ONE as int) * (NORM_ONE as int)) / l;
    if c >= 0 {
        m
    } else {
        -m
    }
}

/// Byte encoding of a component `n` in `[-NORM_ONE, NORM_ONE]`:
/// `round((n / NORM_ONE * 0.5 + 0.5) * 255)`.
pub open spec fn byte_of_component(n: int) -> int {
    ((n + NORM_ONE) * 255 + NORM_ONE) / (2 * NORM_ONE as int)
}

/// Full per-component encoding of a direction vector with norm `l`.
pub open spec fn encoded_component(c: int, l: int) -> int {
    byte_of_component(scaled_component(c, l))
}

/// Encode a direction vector as an RGBA8 normal-map pixel.
///
/// The vector is renormalized to unit length before encoding, so opposing
/// normals averaged to a short vector still produce a unit result; the zero
/// vector (exact cancellation) encodes as the flat pixel `(128, 128, 128)`.
/// Alpha is always 255.
pub fn encode_direction(x: i64, y: i64, z: i64) -> (e: [u8; 4])
    requires
        -DIR_COMPONENT_MAX <= x <= DIR_COMPONENT_MAX,
        -DIR_COMPONENT_MAX <= y <= DIR_COMPONENT_MAX,
        -DIR_COMPONENT_MAX <= z <= DIR_COMPONENT_MAX,
    ensures
        x == 0 && y == 0 && z == 0 ==> e@ =~= seq![128u8, 128u8, 128u8, 255u8],
        !(x == 0 && y == 0 && z == 0) ==> {
            let l = direction_norm(x as int, y as int, z as int);
            &&& e@[0] == encoded_component(x as int, l)
            &&& e@[1] == encoded_component(y as int, l)
            &&& e@[2] == encoded_component(z as int, l)
            &&& e@[3] == 255
        },
{
    if x == 0 && y == 0 && z == 0 {
        let e: [u8; 4] = [128, 128, 128, 255];
        assert(e@ =~= seq![128u8, 128u8, 128u8, 255u8]);
        return e;
    }
    let ax: u128 = if x >= 0 {
        x as u128
    } else {
        (-x) as u128
    };
    let ay: u128 = if y >= 0 {
        y as u128
    } else {
        (-y) as u128
    };
    let az: u128 = if z >= 0 {
        z as u128
    } else {
        (-z) as u128
    };
    proof {
        lemma_mag_sq(x as int, ax as int);
        lemma_mag_sq(y as int, ay as int);
        lemma_mag_sq(z as int, az as int);
    }
    let xx: u128 = ax * ax;
    let yy: u128 = ay * ay;
    let zz: u128 = az * az;
    let s: u128 = xx + yy + zz;
    assert(s as int == (x as int) * (x as int) + (y as int) * (y as int) + (z as int) * (
    z as int));
    assert(s >= 1) by {
        if x != 0 {
            assert(ax >= 1);
            assert(xx >= 1) by (nonlinear_arith)
                requires
                    ax >= 1,
                    xx == ax * ax,
            ;
        } else if y != 0 {
            assert(ay >= 1);
            assert(yy >= 1) by (nonlinear_arith)
                requires
                    ay >= 1,
                    yy == ay * ay,
            ;
        } else {
            assert(az >= 1);
            assert(zz >= 1) by (nonlinear_arith)
                requires
                    az >= 1,
                    zz == az * az,
            ;
        }
    }
    let sk: u128 = s * 0x1_0000_0000;
    proof {
        assert(s <= 3 * (0x100_0000_0000int * 0x100_0000_0000));
        assert(sk < ISQRT_MAX) by (nonlinear_arith)
            requires
                sk == s * 0x1_0000_0000u128,
                s <= 3 * (0x100_0000_0000u128 * 0x100_0000_0000),
        ;
    }
    let l: u128 = isqrt(sk);
    proof {
        assert(sk >= 0x1_0000_0000) by (nonlinear_arith)
            requires
                s >= 1,
                sk == s * 0x1_0000_0000u128,
        ;
        assert(sk < (l + 1) * (l + 1));
        if l == 0 {
            assert(sk < 1);
            assert(false);
        }
        assert((x as int) * (x as int) * (NORM_ONE as int * NORM_ONE as int) <= sk as int)
            by (nonlinear_arith)
            requires
                (x as int) * (x as int) <= s as int,
                sk as int == (s as int) * 0x1_0000_0000,
                NORM_ONE == 0x1_0000i64,
        ;
        assert((y as int) * (y as int) * (NORM_ONE as int * NORM_ONE as int) <= sk as int)
            by (nonlinear_arith)
            requires
                (y as int) * (y as int) <= s as int,
                sk as int == (s as int) * 0x1_0000_0000,
                NORM_ONE == 0x1_0000i64,
        ;
        assert((z as int) * (z as int) * (NORM_ONE as int * NORM_ONE as int) <= sk as int)
            by (nonlinear_arith)
            requires
                (z as int) * (z as int) <= s as int,
                sk as int == (s as int) * 0x1_0000_0000,
                NORM_ONE == 0x1_0000i64,
        ;
    }
    let ex: u8 = encode_one(x, l, Ghost(sk as int));
    let ey: u8 = encode_one(y, l, Ghost(sk as int));
    let ez: u8 = encode_one(z, l, Ghost(sk as int));
    let e: [u8; 4] = [ex, ey, ez, 255];
    e
}

/// The computed magnitude squares to the component's square and the square
/// stays below 2^80.
proof fn lemma_mag_sq(c: int, a: int)
    requires
        a == c || a == -c,
        0 <= a <= 0x100_0000_0000,
    ensures
        a * a == c * c,
        a * a <= 0x100_0000_0000 * 0x100_0000_0000,
{
    assert(a * a == c * c) by (nonlinear_arith)
        requires
            a == c || a == -c,
    ;
    assert(a * a <= 0x100_0000_0000 * 0x100_0000_0000) by (nonlinear_arith)
        requires
            0 <= a <= 0x100_0000_0000,
    ;
}

/// One encoded component sits within `l * 65791` of the exact ray
/// `255 * NORM_ONE^2 * c / (NORM_ONE * l)`, in the integer form
/// `NORM_ONE * l * d = 255 * NORM_ONE^2 * c + gamma`.
proof fn lemma_component_affine(c: int, l: int)
    requires
        1 <= l,
        vstd::math::abs(c) * (NORM_ONE as int) <= l,
    ensures
        ({
            let d = 2 * encoded_component(c, l) - 255;
            let gamma = (NORM_ONE as int) * l * d - 255 * ((NORM_ONE as int) * (NORM_ONE as int))
                * c;
            -(65791 * l) <= gamma <= 65791 * l
        }),
{
    let k = NORM_ONE as int;
    let kk = k * k;
    let a = vstd::math::abs(c) as int;
    let num = a * k * k;
    assert(num == a * kk) by (nonlinear_arith)
        requires
            num == a * k * k,
            kk == k * k,
    ;
    vstd::arithmetic::div_mod::lemma_fundamental_div_mod(num, l);
    let m = num / l;
    let r1 = num % l;
    assert(num == l * m + r1 && 0 <= r1 < l);
    assert(0 <= m) by {
        vstd::arithmetic::div_mod::lemma_div_pos_is_pos(num, l);
        assert(0 <= a * k) by (nonlinear_arith)
            requires
                0 <= a,
                0 < k,
        ;
        assert(0 <= num) by (nonlinear_arith)
            requires
                0 <= a * k,
                0 < k,
                num == a * k * k,
        ;
    }
    let n = scaled_component(c, l);
    assert(n == if c >= 0 {
        m
    } else {
        -m
    });
    // n * l == c * kk - sign(c) * r1
    assert(m * l == a * kk - r1) by (nonlinear_arith)
        requires
            num == l * m + r1,
            num == a * kk,
    ;
    let e = byte_of_component(n);
    vstd::arithmetic::div_mod::lemma_fundamental_div_mod((n + k) * 255 + k, 2 * k);
    let r2 = ((n + k) * 255 + k) % (2 * k);
    assert((n + k) * 255 + k == (2 * k) * e + r2 && 0 <= r2 < 2 * k);
    let d = 2 * e - 255;
    // k * d == 255 * n + (k - r2)
    assert(k * d == 255 * n + (k - r2)) by (nonlinear_arith)
        requires
            d == 2 * e - 255,
            (n + k) * 255 + k == (2 * k) * e + r2,
    ;
    let gamma = k * l * d - 255 * kk * c;
    if c >= 0 {
        assert(n * l == c * kk - r1) by (nonlinear_arith)
            requires
                n == m,
                m * l == a * kk - r1,
                a == c,
        ;
        assert(gamma == -255 * r1 + l * (k - r2)) by (nonlinear_arith)
            requires
                gamma == k * l * d - 255 * kk * c,
                k * d == 255 * n + (k - r2),
                n * l == c * kk - r1,
    ;
    } else {
        assert(n * l == c * kk + r1) by (nonlinear_arith)
            requires
                n == -m,
                m * l == a * kk - r1,
                a == -c,
        ;
        assert(gamma == 255 * r1 + l * (k - r2)) by (nonlinear_arith)
            requires
                gamma == k * l * d - 255 * kk * c,
                k * d == 255 * n + (k - r2),
                n * l == c * kk + r1,
        ;
    }
    assert(-(k * l) <= l * (k - r2) <= k * l) by (nonlinear_arith)
        requires
            0 <= r2 < 2 * k,
            1 <= l,
    ;
    assert(-(255 * l) <= 255 * r1 <= 255 * l) by (nonlinear_arith)
        requires
            0 <= r1 < l,
    ;
    assert(-(65791 * l) <= gamma <= 65791 * l) by (nonlinear_arith)
        requires
            gamma == 255 * r1 + l * (k - r2) || gamma == -255 * r1 + l * (k - r2),
            -(255 * l) <= 255 * r1 <= 255 * l,
            -(k * l) <= l * (k - r2) <= k * l,
            k == 0x1_0000,
    ;
}

/// Renormalization law: for every nonzero direction vector, the encoded
/// pixel decodes to a vector whose squared length lies within 2.4% of
/// `255^2` — the decoded normal's length is within about 1.2% of 1.0.
/// The one excluded input is the exact zero vector (perfect cancellation
/// of opposing normals), which encodes as the flat pixel instead.
#[verifier::rlimit(100)]
pub proof fn lemma_encoded_direction_unit(x: int, y: int, z: int)
    requires
        !(x == 0 && y == 0 && z == 0),
        -DIR_COMPONENT_MAX <= x <= DIR_COMPONENT_MAX,
        -DIR_COMPONENT_MAX <= y <= DIR_COMPONENT_MAX,
        -DIR_COMPONENT_MAX <= z <= DIR_COMPONENT_MAX,
    ensures
        ({
            let l = direction_norm(x, y, z);
            let d0 = 2 * encoded_component(x, l) - 255;
            let d1 = 2 * encoded_component(y, l) - 255;
            let d2 = 2 * encoded_component(z, l) - 255;
            63489 <= d0 * d0 + d1 * d1 + d2 * d2 <= 66567
        }),
{
    let k = NORM_ONE as int;
    let kk = k * k;
    let s = x * x + y * y + z * z;
    assert(x * x >= 0 && y * y >= 0 && z * z >= 0) by (nonlinear_arith);
    assert(s >= 1) by {
        if x != 0 {
            assert(x * x >= 1) by (nonlinear_arith)
                requires
                    x != 0,
            ;
        } else if y != 0 {
            assert(y * y >= 1) by (nonlinear_arith)
                requires
                    y != 0,
            ;
        } else {
            assert(z * z >= 1) by (nonlinear_arith)
                requires
                    z != 0,
            ;
        }
    }
    let sk = s * kk;
    assert(sk >= kk) by (nonlinear_arith)
        requires
            s >= 1,
            kk > 0,
            sk == s * kk,
    ;
    crate::arith::lemma_floor_sqrt_exists(sk);
    let l = direction_norm(x, y, z);
    assert(l == floor_sqrt(sk));
    assert(0 <= l && sq(l) <= sk && sk < sq(l + 1)) by {
        let w = choose|r: int| 0 <= r && #[trigger] sq(r) <= sk && sk < sq(r + 1);
        if l < w {
            lemma_sq_mono(l + 1, w);
        }
        if w < l {
            lemma_sq_mono(w + 1, l);
        }
    }
    assert(l >= k) by {
        if l < k {
            lemma_sq_mono(l + 1, k);
            assert(sq(k) == kk);
            assert(false);
        }
    }
    lemma_component_ray(x, s, sk, l);
    lemma_component_ray(y, s, sk, l);
    lemma_component_ray(z, s, sk, l);
    let ax = vstd::math::abs(x) as int;
    let ay = vstd::math::abs(y) as int;
    let az = vstd::math::abs(z) as int;
    assert(ax >= 0 && (x == ax || x == -ax));
    assert(ay >= 0 && (y == ay || y == -ay));
    assert(az >= 0 && (z == az || z == -az));
    lemma_component_affine(x, l);
    lemma_component_affine(y, l);
    lemma_component_affine(z, l);
    let d0 = 2 * encoded_component(x, l) - 255;
    let d1 = 2 * encoded_component(y, l) - 255;
    let d2 = 2 * encoded_component(z, l) - 255;
    let g0 = k * l * d0 - 255 * kk * x;
    let g1 = k * l * d1 - 255 * kk * y;
    let g2 = k * l * d2 - 255 * kk * z;
    let gb = 65791 * l;
    assert(-gb <= g0 <= gb && -gb <= g1 <= gb && -gb <= g2 <= gb);
    assert(255 * kk * ax >= 0 && (255 * kk * x == 255 * kk * ax || 255 * kk * x == -(255 * kk
        * ax))) by (nonlinear_arith)
        requires
            ax >= 0 && (x == ax || x == -ax),
            kk > 0,
    ;
    assert(255 * kk * ay >= 0 && (255 * kk * y == 255 * kk * ay || 255 * kk * y == -(255 * kk
        * ay))) by (nonlinear_arith)
        requires
            ay >= 0 && (y == ay || y == -ay),
            kk > 0,
    ;
    assert(255 * kk * az >= 0 && (255 * kk * z == 255 * kk * az || 255 * kk * z == -(255 * kk
        * az))) by (nonlinear_arith)
        requires
            az >= 0 && (z == az || z == -az),
            kk > 0,
    ;
    lemma_square_affine(255 * kk * x, 255 * kk * ax, g0, gb);
    lemma_square_affine(255 * kk * y, 255 * kk * ay, g1, gb);
    lemma_square_affine(255 * kk * z, 255 * kk * az, g2, gb);
    let xx0 = k * l * d0;
    let xx1 = k * l * d1;
    let xx2 = k * l * d2;
    assert(xx0 == 255 * kk * x + g0 && xx1 == 255 * kk * y + g1 && xx2 == 255 * kk * z + g2);
    // Sum of the exact squares is 65025 * kk * sk.
    assert((255 * kk * x) * (255 * kk * x) == 65025 * (kk * kk) * (x * x)) by (nonlinear_arith);
    assert((255 * kk * y) * (255 * kk * y) == 65025 * (kk * kk) * (y * y)) by (nonlinear_arith);
    assert((255 * kk * z) * (255 * kk * z) == 65025 * (kk * kk) * (z * z)) by (nonlinear_arith);
    assert(65025 * (kk * kk) * (x * x) + 65025 * (kk * kk) * (y * y) + 65025 * (kk * kk) * (z * z)
        == 65025 * kk * sk) by (nonlinear_arith)
        requires
            sk == (x * x + y * y + z * z) * kk,
    ;
    // Cross-term budget: the magnitudes sum to at most 765 * k * l.
    assert(ax * k <= l && ay * k <= l && az * k <= l);
    assert(255 * kk * ax + 255 * kk * ay + 255 * kk * az <= 765 * k * l) by (nonlinear_arith)
        requires
            ax * k <= l,
            ay * k <= l,
            az * k <= l,
            kk == k * k,
            k > 0,
    ;
    let ssum = xx0 * xx0 + xx1 * xx1 + xx2 * xx2;
    assert(2 * (255 * kk * ax) * gb + 2 * (255 * kk * ay) * gb + 2 * (255 * kk * az) * gb <= 2 * (
    765 * k * l) * gb) by (nonlinear_arith)
        requires
            255 * kk * ax + 255 * kk * ay + 255 * kk * az <= 765 * k * l,
            gb >= 0,
    ;
    assert(ssum <= 65025 * kk * sk + 2 * (765 * k * l) * gb + 3 * (gb * gb));
    assert(ssum >= 65025 * kk * sk - 2 * (765 * k * l) * gb);
    // Replace sk by its bracket [l^2, l^2 + 2l].
    assert(l * l <= sk && sk <= l * l + 2 * l) by {
        assert(sq(l) == l * l && sq(l + 1) == (l + 1) * (l + 1));
        assert((l + 1) * (l + 1) == l * l + 2 * l + 1) by (nonlinear_arith);
    }
    // Each error term is a small multiple of kk * l * l.
    assert(65025 * kk * sk <= 65025 * kk * (l * l) + 130050 * kk * l) by (nonlinear_arith)
        requires
            sk <= l * l + 2 * l,
            kk > 0,
    ;
    assert(65025 * kk * sk >= 65025 * kk * (l * l)) by (nonlinear_arith)
        requires
            sk >= l * l,
            kk > 0,
    ;
    assert(130050 * kk * l <= 2 * kk * (l * l)) by (nonlinear_arith)
        requires
            l >= 65025,
            kk > 0,
    ;
    assert(2 * (765 * k * l) * gb <= 1536 * kk * (l * l)) by (nonlinear_arith)
        requires
            gb == 65791 * l,
            kk == k * k,
            k == 0x1_0000,
            l >= 1,
    ;
    assert(3 * (gb * gb) <= 4 * kk * (l * l)) by (nonlinear_arith)
        requires
            gb == 65791 * l,
            kk == k * k,
            k == 0x1_0000,
    ;
    assert(ssum <= 66567 * (kk * (l * l)));
    assert(ssum >= 63489 * (kk * (l * l)));
    // Cancel the positive factor kk * l^2.
    let q = kk * (l * l);
    let dd = d0 * d0 + d1 * d1 + d2 * d2;
    assert(xx0 * xx0 == q * (d0 * d0)) by (nonlinear_arith)
        requires
            xx0 == k * l * d0,
            q == (k * k) * (l * l),
            kk == k * k,
    ;
    assert(xx1 * xx1 == q * (d1 * d1)) by (nonlinear_arith)
        requires
            xx1 == k * l * d1,
            q == (k * k) * (l * l),
            kk == k * k,
    ;
    assert(xx2 * xx2 == q * (d2 * d2)) by (nonlinear_arith)
        requires
            xx2 == k * l * d2,
            q == (k * k) * (l * l),
            kk == k * k,
    ;
    assert(ssum == q * dd) by (nonlinear_arith)
        requires
            ssum == q * (d0 * d0) + q * (d1 * d1) + q * (d2 * d2),
            dd == d0 * d0 + d1 * d1 + d2 * d2,
    ;
    assert(63489 <= dd <= 66567) by (nonlinear_arith)
        requires
            63489 * q <= q * dd <= 66567 * q,
            q > 0,
    ;
    assert(q > 0) by (nonlinear_arith)
        requires
            kk > 0,
            l >= 1,
            q == kk * (l * l),
    ;
}

/// A component's magnitude times `NORM_ONE` never exceeds the norm `l`.
proof fn lemma_component_ray(c: int, s: int, sk: int, l: int)
    requires
        c * c <= s,
        sk == s * ((NORM_ONE as int) * (NORM_ONE as int)),
        0 <= l,
        sq(l) <= sk < sq(l + 1),
    ensures
        vstd::math::abs(c) * (NORM_ONE as int) <= l,
{
    let k = NORM_ONE as int;
    let a = vstd::math::abs(c) as int;
    assert(a >= 0 && (c == a || c == -a));
    assert((a * k) * (a * k) <= sk) by (nonlinear_arith)
        requires
            a >= 0 && (c == a || c == -a),
            c * c <= s,
            sk == s * (k * k),
            k > 0,
    ;
    if a * k > l {
        lemma_sq_mono(l + 1, a * k);
        assert(sq(a * k) == (a * k) * (a * k));
        assert(false);
    }
}

/// Bounds of `(a + g)^2` for `|g| <= gb` and `|a| <= aa`.
proof fn lemma_square_affine(a: int, aa: int, g: int, gb: int)
    requires
        aa >= 0,
        a == aa || a == -aa,
        -gb <= g <= gb,
        0 <= gb,
    ensures
        (a + g) * (a + g) <= a * a + 2 * aa * gb + gb * gb,
        (a + g) * (a + g) >= a * a - 2 * aa * gb,
{
    assert((a + g) * (a + g) == a * a + 2 * (a * g) + g * g) by (nonlinear_arith);
    assert(-(aa * gb) <= a * g <= aa * gb) by (nonlinear_arith)
        requires
            aa >= 0,
            a == aa || a == -aa,
            -gb <= g <= gb,
    ;
    assert(0 <= g * g <= gb * gb) by (nonlinear_arith)
        requires
            -gb <= g <= gb,
    ;
    assert((a + g) * (a + g) <= a * a + 2 * aa * gb + gb * gb && (a + g) * (a + g) >= a * a - 2
        * aa * gb) by (nonlinear_arith)
        requires
            (a + g) * (a + g) == a * a + 2 * (a * g) + g * g,
            -(aa * gb) <= a * g <= aa * gb,
            0 <= g * g <= gb * gb,
    ;
}

/// How to handle pixel neighbours at the texture boundary.
#[derive(Clone, Copy, PartialEq, Eq, Structural, Debug)]
pub enum BoundaryMode {
    /// Wrap indices toroidally — correct for tileable textures.
    Wrap,
    /// Clamp indices to the edge — correct for foliage cards that must not
    /// bleed normals across the transparent border.
    Clamp,
}

/// Index of the neighbour one step down from `i` along an axis of size `dim`.
pub open spec fn nbr_minus(i: int, dim: int, boundary: BoundaryMode) -> int {
    match boundary {
        BoundaryMode::Wrap => (i + dim - 1) % dim,
        BoundaryMode::Clamp => if i == 0 {
            0
        } else {
            i - 1
        },
    }
}

/// Index of the neighbour one step up from `i` along an axis of size `dim`.
pub open spec fn nbr_plus(i: int, dim: int, boundary: BoundaryMode) -> int {
    match boundary {
        BoundaryMode::Wrap => (i + 1) % dim,
        BoundaryMode::Clamp => if i + 1 < dim {
            i + 1
        } else {
            dim - 1
        },
    }
}

/// Distance in samples between the two neighbours the difference is taken
/// over: 2 for a central difference, 1 for a one-sided difference at a
/// clamped edge (and for the degenerate one-pixel axis, where the
/// difference itself is zero).
pub open spec fn sample_span(i: int, dim: int, boundary: BoundaryMode) -> int {
    match boundary {
        BoundaryMode::Wrap => 2,
        BoundaryMode::Clamp => {
            let d = nbr_plus(i, dim, boundary) - nbr_minus(i, dim, boundary);
            if d >= 1 {
                d
            } else {
                1
            }
        },
    }
}

/// Scaled gradient: `d * strength * dim / span`, with `strength` in units
/// of `STRENGTH_ONE` and rounding symmetric around zero.
pub open spec fn scaled_gradient(d: int, strength: int, dim: int, span: int) -> int {
    let m = (vstd::math::abs(d) * strength * dim) / (span * STRENGTH_ONE as int);
    if d >= 0 {
        m
    } else {
        -m
    }
}

/// Horizontal gradient of the height field at `(x, y)`.
pub open spec fn dx_at(
    heights: Seq<u32>,
    w: int,
    h: int,
    x: int,
    y: int,
    strength: int,
    boundary: BoundaryMode,
) -> int {
    let left = heights[y * w + nbr_minus(x, w, boundary)];
    let right = heights[y * w + nbr_plus(x, w, boundary)];
    scaled_gradient(right - left, strength, w, sample_span(x, w, boundary))
}

/// Vertical gradient of the height field at `(x, y)`.
pub open spec fn dy_at(
    heights: Seq<u32>,
    w: int,
    h: int,
    x: int,
    y: int,
    strength: int,
    boundary: BoundaryMode,
) -> int {
    let above = heights[nbr_minus(y, h, boundary) * w + x];
    let below = heights[nbr_plus(y, h, boundary) * w + x];
    scaled_gradient(below - above, strength, h, sample_span(y, h, boundary))
}

/// The byte at offset `j` of the normal map derived from `heights`:
/// the pixel is `encode_direction(-dx, dy, NORM_ONE)` for the gradients at
/// the pixel's coordinates, so channel order is X, Y, Z, alpha.
pub open spec fn normal_map_byte(
    heights: Seq<u32>,
    w: int,
    h: int,
    strength: int,
    boundary: BoundaryMode,
    j: int,
) -> int {
    let p = j / 4;
    let ch = j % 4;
    let x = p % w;
    let y = p / w;
    let dx = dx_at(heights, w, h, x, y, strength, boundary);
    let dy = dy_at(heights, w, h, x, y, strength, boundary);
    let l = direction_norm(-dx, dy, NORM_ONE as int);
    if ch == 0 {
        encoded_component(-dx, l)
    } else if ch == 1 {
        encoded_component(dy, l)
    } else if ch == 2 {
        encoded_component(NORM_ONE as int, l)
    } else {
        255
    }
}

/// Convert a fixed-point height field in `[0, HEIGHT_ONE]` into a
/// tangent-space normal map encoded as RGBA8.
///
/// Central differences are taken over 4-neighbours; indices wrap modulo the
/// dimension under [`BoundaryMode::Wrap`] and clamp with one-sided
/// differences at the edges under [`BoundaryMode::Clamp`], the divisor
/// matching the actual sample spacing in either case.  Gradients are scaled
/// by `strength * dim`, which makes the output resolution-independent, and
/// the normal is `normalize(-dx, dy, 1)` in a right-handed tangent space.
/// A one-pixel axis yields a zero difference over a divisor of one — a flat
/// normal, not a division by zero.
pub fn height_to_normal(
    heights: &Vec<u32>,
    width: u32,
    height: u32,
    strength: u32,
    boundary: BoundaryMode,
) -> (out: Vec<u8>)
    requires
        heights@.len() == width * height,
        width <= 4096,
        height <= 4096,
        strength <= 0x1_0000,
        forall|i: int| 0 <= i < heights@.len() ==> #[trigger] heights@[i] <= HEIGHT_ONE,
    ensures
        out@.len() == width * height * 4,
        forall|j: int| 0 <= j < out@.len() ==> #[trigger] out@[j] == normal_map_byte(
            heights@,
            width as int,
            height as int,
            strength as int,
            boundary,
            j,
        ),
{
    let mut out: Vec<u8> = Vec::new();
    if width == 0 || height == 0 {
        return out;
    }
    let w: usize = width as usize;
    let h: usize = height as usize;
    let mut y: usize = 0;
    while y < h
        invariant
            w == width,
            h == height,
            1 <= w <= 4096,
            1 <= h <= 4096,
            strength <= 0x1_0000,
            y <= h,
            heights@.len() == w * h,
            forall|i: int| 0 <= i < heights@.len() ==> #[trigger] heights@[i] <= HEIGHT_ONE,
            out@.len() == y * w * 4,
            forall|j: int| 0 <= j < out@.len() ==> #[trigger] out@[j] == normal_map_byte(
                heights@,
                w as int,
                h as int,
                strength as int,
                boundary,
                j,
            ),
        decreases h - y,
    {
        let mut x: usize = 0;
        while x < w
            invariant
                w == width,
                h == height,
                1 <= w <= 4096,
                1 <= h <= 4096,
                strength <= 0x1_0000,
                y < h,
                x <= w,
                heights@.len() == w * h,
                forall|i: int| 0 <= i < heights@.len() ==> #[trigger] heights@[i] <= HEIGHT_ONE,
                out@.len() == (y * w + x) * 4,
                forall|j: int| 0 <= j < out@.len() ==> #[trigger] out@[j] == normal_map_byte(
                    heights@,
                    w as int,
                    h as int,
                    strength as int,
                    boundary,
                    j,
                ),
            decreases w - x,
        {
            let (xm, xp, ym, yp): (usize, usize, usize, usize) = match boundary {
                BoundaryMode::Wrap => ((x + w - 1) % w, (x + 1) % w, (y + h - 1) % h, (y + 1) % h),
                BoundaryMode::Clamp => (
                    if x == 0 {
                        0
                    } else {
                        x - 1
                    },
                    if x + 1 < w {
                        x + 1
                    } else {
                        w - 1
                    },
                    if y == 0 {
                        0
                    } else {
                        y - 1
                    },
                    if y + 1 < h {
                        y + 1
                    } else {
                        h - 1
                    },
                ),
            };
            assert(xm as int == nbr_minus(x as int, w as int, boundary));
            assert(xp as int == nbr_plus(x as int, w as int, boundary));
            assert(ym as int == nbr_minus(y as int, h as int, boundary));
            assert(yp as int == nbr_plus(y as int, h as int, boundary));
            let (xd, yd): (u64, u64) = match boundary {
                BoundaryMode::Wrap => (2, 2),
                BoundaryMode::Clamp => (
                    if xp - xm >= 1 {
                        (xp - xm) as u64
                    } else {
                        1
                    },
                    if yp - ym >= 1 {
                        (yp - ym) as u64
                    } else {
                        1
                    },
                ),
            };
            assert(xd as int == sample_span(x as int, w as int, boundary));
            assert(yd as int == sample_span(y as int, h as int, boundary));
            assert(1 <= xd <= 2 && 1 <= yd <= 2);
            assert(xm < w && xp < w && ym < h && yp < h);
            proof {
                lemma_row_index(y as int, xm as int, w as int, h as int);
                lemma_row_index(y as int, xp as int, w as int, h as int);
                lemma_row_index(ym as int, x as int, w as int, h as int);
                lemma_row_index(yp as int, x as int, w as int, h as int);
            }
            let left: u32 = heights[y * w + xm];
            let right: u32 = heights[y * w + xp];
            let above: u32 = heights[ym * w + x];
            let below: u32 = heights[yp * w + x];
            let dx: i64 = gradient_value(right, left, strength, width, xd);
            let dy: i64 = gradient_value(below, above, strength, height, yd);
            proof {
                assert(dx as int == dx_at(
                    heights@,
                    w as int,
                    h as int,
                    x as int,
                    y as int,
                    strength as int,
                    boundary,
                ));
                assert(dy as int == dy_at(
                    heights@,
                    w as int,
                    h as int,
                    x as int,
                    y as int,
                    strength as int,
                    boundary,
                ));
            }
            let e: [u8; 4] = encode_direction(-dx, dy, NORM_ONE);
            let ghost old_out = out@;
            out.push(e[0]);
            out.push(e[1]);
            out.push(e[2]);
            out.push(e[3]);
            proof {
                let p = (y * w + x) as int;
                vstd::arithmetic::div_mod::lemma_fundamental_div_mod_converse(
                    p,
                    w as int,
                    y as int,
                    x as int,
                );
                assert forall|j: int| old_out.len() <= j < out@.len() implies #[trigger] out@[j]
                    == normal_map_byte(
                    heights@,
                    w as int,
                    h as int,
                    strength as int,
                    boundary,
                    j,
                ) by {
                    let ch = j - 4 * p;
                    vstd::arithmetic::div_mod::lemma_fundamental_div_mod_converse(j, 4, p, ch);
                    assert(out@[j] == e@[ch]);
                }
                assert(forall|j: int| 0 <= j < old_out.len() ==> out@[j] == old_out[j]);
            }
            x = x + 1;
        }
        y = y + 1;
        proof {
            assert((y - 1) * w + w == y * w) by (nonlinear_arith)
                requires
                    1 <= y,
            ;
        }
    }
    proof {
        assert(out@.len() == h * w * 4);
    }
    out
}

/// Whether pixel `i` of an RGBA8 buffer is opaque (alpha nonzero).
pub open spec fn opaque_at(albedo: Seq<u8>, i: int) -> bool {
    albedo[4 * i + 3] != 0
}

/// The height of pixel `i` after one dilation pass: a transparent pixel
/// with at least one opaque 4-neighbour takes the average of those
/// neighbours; every other pixel keeps its height.
pub open spec fn dilated_at(heights: Seq<u32>, albedo: Seq<u8>, w: int, h: int, i: int) -> int {
    let x = i % w;
    let y = i / w;
    if opaque_at(albedo, i) {
        heights[i] as int
    } else {
        let s = (if y > 0 && opaque_at(albedo, i - w) {
            heights[i - w] as int
        } else {
            0
        }) + (if y < h - 1 && opaque_at(albedo, i + w) {
            heights[i + w] as int
        } else {
            0
        }) + (if x > 0 && opaque_at(albedo, i - 1) {
            heights[i - 1] as int
        } else {
            0
        }) + (if x < w - 1 && opaque_at(albedo, i + 1) {
            heights[i + 1] as int
        } else {
            0
        });
        let c = (if y > 0 && opaque_at(albedo, i - w) {
            1int
        } else {
            0
        }) + (if y < h - 1 && opaque_at(albedo, i + w) {
            1int
        } else {
            0
        }) + (if x > 0 && opaque_at(albedo, i - 1) {
            1int
        } else {
            0
        }) + (if x < w - 1 && opaque_at(albedo, i + 1) {
            1int
        } else {
            0
        });
        if c > 0 {
            s / c
        } else {
            heights[i] as int
        }
    }
}

/// Dilated height of the pixel at `(x, y)`.
#[verifier::rlimit(50)]
fn dilate_one(heights: &Vec<u32>, albedo: &Vec<u8>, w: usize, h: usize, x: usize, y: usize) -> (v:
    u32)
    requires
        heights@.len() == w * h,
        albedo@.len() == w * h * 4,
        1 <= w <= 4096,
        1 <= h <= 4096,
        x < w,
        y < h,
        forall|i: int| 0 <= i < heights@.len() ==> #[trigger] heights@[i] <= HEIGHT_ONE,
    ensures
        v as int == dilated_at(heights@, albedo@, w as int, h as int, (y * w + x) as int),
        v <= HEIGHT_ONE,
{
    proof {
        lemma_row_index(y as int, x as int, w as int, h as int);
        vstd::arithmetic::div_mod::lemma_fundamental_div_mod_converse(
            (y * w + x) as int,
            w as int,
            y as int,
            x as int,
        );
    }
    let idx: usize = y * w + x;
    let ghost i = idx as int;
    assert(i % (w as int) == x && i / (w as int) == y);
    if albedo[4 * idx + 3] != 0 {
        return heights[idx];
    }
    let mut sum: u32 = 0;
    let mut cnt: u32 = 0;
    proof {
        if y > 0 {
            lemma_row_index(y as int - 1, x as int, w as int, h as int);
            assert((y as int - 1) * (w as int) + x == i - w) by (nonlinear_arith)
                requires
                    i == (y as int) * (w as int) + x,
            ;
        }
        if y < h - 1 {
            lemma_row_index(y as int + 1, x as int, w as int, h as int);
            assert((y as int + 1) * (w as int) + x == i + w) by (nonlinear_arith)
                requires
                    i == (y as int) * (w as int) + x,
            ;
        }
        if x > 0 {
            lemma_row_index(y as int, x as int - 1, w as int, h as int);
        }
        if x < w - 1 {
            lemma_row_index(y as int, x as int + 1, w as int, h as int);
        }
    }
    if y > 0 {
        if albedo[4 * (idx - w) + 3] != 0 {
            sum = sum + heights[idx - w];
            cnt = cnt + 1;
        }
    }
    assert(sum <= cnt * 0x1_0000);
    if y < h - 1 {
        if albedo[4 * (idx + w) + 3] != 0 {
            sum = sum + heights[idx + w];
            cnt = cnt + 1;
        }
    }
    assert(sum <= cnt * 0x1_0000);
    if x > 0 {
        if albedo[4 * (idx - 1) + 3] != 0 {
            sum = sum + heights[idx - 1];
            cnt = cnt + 1;
        }
    }
    assert(sum <= cnt * 0x1_0000);
    if x < w - 1 {
        if albedo[4 * (idx + 1) + 3] != 0 {
            sum = sum + heights[idx + 1];
            cnt = cnt + 1;
        }
    }
    assert(sum <= cnt * 0x1_0000);
    if cnt > 0 {
        proof {
            vstd::arithmetic::div_mod::lemma_div_pos_is_pos(sum as int, cnt as int);
            vstd::arithmetic::div_mod::lemma_div_is_ordered(
                sum as int,
                cnt as int * HEIGHT_ONE as int,
                cnt as int,
            );
            vstd::arithmetic::div_mod::lemma_div_multiples_vanish(
                HEIGHT_ONE as int,
                cnt as int,
            );
        }
        sum / cnt
    } else {
        heights[idx]
    }
}

/// Dilate opaque-pixel heights one step into the transparent border.
///
/// For each transparent pixel (alpha zero in `albedo`) that has at least one
/// opaque 4-connected neighbour, the height becomes the average of those
/// neighbours' heights; all other pixels are unchanged.  All neighbour
/// reads see the heights from before the pass, so the dilation does not
/// cascade.  Run this before [`height_to_normal`] on foliage cards so the
/// difference kernel does not see an artificial cliff at the silhouette.
pub fn dilate_heights(heights: &mut Vec<u32>, albedo: &Vec<u8>, w: usize, h: usize)
    requires
        old(heights)@.len() == w * h,
        albedo@.len() == w * h * 4,
        1 <= w <= 4096,
        1 <= h <= 4096,
        forall|i: int| 0 <= i < old(heights)@.len() ==> #[trigger] old(heights)@[i] <= HEIGHT_ONE,
    ensures
        final(heights)@.len() == w * h,
        forall|i: int| 0 <= i < w * h ==> #[trigger] final(heights)@[i] as int == dilated_at(
            old(heights)@,
            albedo@,
            w as int,
            h as int,
            i,
        ),
        forall|i: int| 0 <= i < w * h ==> #[trigger] final(heights)@[i] <= HEIGHT_ONE,
{
    let mut out: Vec<u32> = Vec::new();
    let mut y: usize = 0;
    while y < h
        invariant
            heights@ == old(heights)@,
            heights@.len() == w * h,
            albedo@.len() == w * h * 4,
            1 <= w <= 4096,
            1 <= h <= 4096,
            y <= h,
            forall|i: int| 0 <= i < heights@.len() ==> #[trigger] heights@[i] <= HEIGHT_ONE,
            out@.len() == y * w,
            forall|i: int| 0 <= i < out@.len() ==> #[trigger] out@[i] as int == dilated_at(
                heights@,
                albedo@,
                w as int,
                h as int,
                i,
            ),
            forall|i: int| 0 <= i < out@.len() ==> #[trigger] out@[i] <= HEIGHT_ONE,
        decreases h - y,
    {
        let mut x: usize = 0;
        while x < w
            invariant
                heights@ == old(heights)@,
                heights@.len() == w * h,
                albedo@.len() == w * h * 4,
                1 <= w <= 4096,
                1 <= h <= 4096,
                y < h,
                x <= w,
                forall|i: int| 0 <= i < heights@.len() ==> #[trigger] heights@[i] <= HEIGHT_ONE,
                out@.len() == y * w + x,
                forall|i: int| 0 <= i < out@.len() ==> #[trigger] out@[i] as int == dilated_at(
                    heights@,
                    albedo@,
                    w as int,
                    h as int,
                    i,
                ),
                forall|i: int| 0 <= i < out@.len() ==> #[trigger] out@[i] <= HEIGHT_ONE,
            decreases w - x,
        {
            let v: u32 = dilate_one(heights, albedo, w, h, x, y);
            out.push(v);
            x = x + 1;
        }
        y = y + 1;
        proof {
            assert((y - 1) * w + w == y * w) by (nonlinear_arith)
                requires
                    1 <= y,
            ;
        }
    }
    proof {
        assert(out@.len() == h * w);
    }
    *heights = out;
}

/// Scaled, sign-symmetric gradient between two height samples.
fn gradient_value(hi: u32, lo: u32, strength: u32, dim: u32, span: u64) -> (g: i64)
    requires
        hi <= HEIGHT_ONE,
        lo <= HEIGHT_ONE,
        strength <= 0x1_0000,
        dim <= 4096,
        1 <= span <= 2,
    ensures
        g as int == scaled_gradient(hi - lo, strength as int, dim as int, span as int),
        -DIR_COMPONENT_MAX <= g <= DIR_COMPONENT_MAX,
{
    let a: u64 = if hi >= lo {
        (hi - lo) as u64
    } else {
        (lo - hi) as u64
    };
    assert(a as int == vstd::math::abs(hi - lo));
    assert(a * (strength as u64) <= 0x1_0000u64 * 0x1_0000) by (nonlinear_arith)
        requires
            a <= 0x1_0000u64,
            strength <= 0x1_0000u32,
    ;
    let num1: u64 = a * (strength as u64);
    assert(num1 * (dim as u64) <= 0x1_0000_0000u64 * 4096) by (nonlinear_arith)
        requires
            num1 <= 0x1_0000_0000u64,
            dim <= 4096u32,
    ;
    let num: u64 = num1 * (dim as u64);
    assert(STRENGTH_ONE as u64 == 256u64);
    let den: u64 = span * (STRENGTH_ONE as u64);
    let m: u64 = num / den;
    proof {
        vstd::arithmetic::div_mod::lemma_div_pos_is_pos(num as int, den as int);
        vstd::arithmetic::div_mod::lemma_div_is_ordered(
            num as int,
            0x1_0000int * 0x1_0000 * 4096,
            den as int,
        );
        vstd::arithmetic::div_mod::lemma_div_is_ordered_by_denominator(
            0x1_0000int * 0x1_0000 * 4096,
            256,
            den as int,
        );
        assert((0x1_0000int * 0x1_0000 * 4096) / 256 <= DIR_COMPONENT_MAX);
    }
    if hi >= lo {
        m as i64
    } else {
        -(m as i64)
    }
}

/// A pixel index `y * w + x` with in-range coordinates is in range.
pub(crate) proof fn lemma_row_index(y: int, x: int, w: int, h: int)
    requires
        0 <= x < w <= 4096,
        0 <= y < h <= 4096,
    ensures
        0 <= y * w + x < w * h,
        y * w + x < 0x100_0000,
{
    assert(y * w + x < w * h) by (nonlinear_arith)
        requires
            0 <= x < w,
            0 <= y < h,
    ;
    assert(0 <= y * w) by (nonlinear_arith)
        requires
            0 <= y,
            0 < w,
    ;
    assert(w * h <= 0x100_0000) by (nonlinear_arith)
        requires
            0 < w <= 4096,
            0 < h <= 4096,
    ;
}

/// Encode one component of a direction vector whose squared norm (already
/// scaled by `NORM_ONE^2`) is `sk` and has floor square root `l`.
fn encode_one(c: i64, l: u128, sk: Ghost<int>) -> (e: u8)
    requires
        -DIR_COMPONENT_MAX <= c <= DIR_COMPONENT_MAX,
        1 <= l,
        sq(l as int) <= sk@,
        sk@ < sq(l as int + 1),
        (c as int) * (c as int) * (NORM_ONE as int * NORM_ONE as int) <= sk@,
        l as int == floor_sqrt(sk@),
    ensures
        e as int == encoded_component(c as int, l as int),
{
    let a: u128 = if c >= 0 {
        c as u128
    } else {
        (-c) as u128
    };
    proof {
        assert(a as int == vstd::math::abs(c as int));
        assert((a as int) * (a as int) == (c as int) * (c as int)) by (nonlinear_arith)
            requires
                a as int == c as int || a as int == -(c as int),
        ;
        // a * NORM_ONE <= l, because (a * NORM_ONE)^2 <= sk < (l + 1)^2.
        assert((a as int) * (NORM_ONE as int) * ((a as int) * (NORM_ONE as int)) == (c as int) * (
        c as int) * (NORM_ONE as int * NORM_ONE as int)) by (nonlinear_arith)
            requires
                (a as int) * (a as int) == (c as int) * (c as int),
        ;
        if (a as int) * (NORM_ONE as int) > l as int {
            lemma_sq_mono(l as int + 1, (a as int) * (NORM_ONE as int));
            assert(false);
        }
        assert((a as int) * (NORM_ONE as int) <= l as int);
        assert(a * 0x1_0000_0000 == (a as int) * (NORM_ONE as int) * (NORM_ONE as int))
            by (nonlinear_arith)
            requires
                a <= 0x100_0000_0000u128,
                NORM_ONE == 0x1_0000i64,
        ;
    }
    let num: u128 = a * 0x1_0000_0000;
    let m: u128 = num / l;
    proof {
        // m <= NORM_ONE: num = (a * NORM_ONE) * NORM_ONE <= l * NORM_ONE.
        assert(num as int <= l as int * (NORM_ONE as int)) by (nonlinear_arith)
            requires
                num as int == (a as int) * (NORM_ONE as int) * (NORM_ONE as int),
                (a as int) * (NORM_ONE as int) <= l as int,
                0 < NORM_ONE,
        ;
        vstd::arithmetic::div_mod::lemma_div_is_ordered(
            num as int,
            l as int * (NORM_ONE as int),
            l as int,
        );
        vstd::arithmetic::div_mod::lemma_div_multiples_vanish(NORM_ONE as int, l as int);
        assert(m as int <= NORM_ONE as int);
        vstd::arithmetic::div_mod::lemma_div_pos_is_pos(num as int, l as int);
    }
    let n: i64 = if c >= 0 {
        m as i64
    } else {
        -(m as i64)
    };
    assert(n as int == scaled_component(c as int, l as int));
    proof {
        assert(0 <= (n + NORM_ONE) * 255 + NORM_ONE) by (nonlinear_arith)
            requires
                -NORM_ONE <= n <= NORM_ONE,
                NORM_ONE == 0x1_0000i64,
        ;
        assert(((n + NORM_ONE) * 255 + NORM_ONE) as int <= (2 * NORM_ONE as int) * 255 + NORM_ONE)
            by (nonlinear_arith)
            requires
                -NORM_ONE <= n <= NORM_ONE,
                NORM_ONE == 0x1_0000i64,
        ;
        vstd::arithmetic::div_mod::lemma_div_is_ordered(
            ((n + NORM_ONE) * 255 + NORM_ONE) as int,
            (2 * NORM_ONE as int) * 255 + NORM_ONE,
            2 * NORM_ONE as int,
        );
        assert(((2 * 0x1_0000int) * 255 + 0x1_0000) / (2int * 0x1_0000) == 255);
        vstd::arithmetic::div_mod::lemma_div_pos_is_pos(
            ((n + NORM_ONE) * 255 + NORM_ONE) as int,
            2 * NORM_ONE as int,
        );
    }
    let eb: i64 = ((n + NORM_ONE) * 255 + NORM_ONE) / (2 * NORM_ONE);
    eb as u8
}

} // verus!
