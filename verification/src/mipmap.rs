//! Colorspace-aware mipmap generation.
//!
//! A mip chain is built by iterative 2x2 box-filter halving, with three
//! distinct averaging rules: raw byte averages for linear planes, averages
//! in linear light for sRGB color planes, and renormalized vector averages
//! for normal maps.  Each level reads the immediately preceding level's
//! region of one growing buffer, clamping source blocks at odd dimensions.

use vstd::prelude::*;

use crate::normal::{direction_norm, encode_direction, encoded_component};
use crate::srgb::{
    lemma_requant_fixed, linear_to_srgb, srgb_decode_spec, srgb_encode_spec, srgb_requant,
    srgb_to_linear,
};

verus! {

/// Controls how mipmap averages are computed for different texture planes.
#[derive(Clone, Copy, PartialEq, Eq, Structural, Debug)]
pub enum MipmapMode {
    /// Albedo: decode from sRGB, average in linear light, re-encode.
    /// Averaging in encoded space would make mipmaps artificially dark.
    Srgb,
    /// Normal map: decode XYZ, average, renormalize, re-encode.  Averaging
    /// without renormalization shrinks or zeroes the normal length.
    Normal,
    /// ORM / linear planes: average raw bytes directly.
    Linear,
}

/// Sum of channel `ch` of a run of RGBA8 pixels.
pub open spec fn sum_ch(pixels: Seq<[u8; 4]>, ch: int) -> int
    decreases pixels.len(),
{
    if pixels.len() == 0 {
        0
    } else {
        sum_ch(pixels.drop_last(), ch) + pixels.last()@[ch]
    }
}

/// Sum of the decoded linear-light values of channel `ch`.
pub open spec fn sum_dec(pixels: Seq<[u8; 4]>, ch: int) -> int
    decreases pixels.len(),
{
    if pixels.len() == 0 {
        0
    } else {
        sum_dec(pixels.drop_last(), ch) + srgb_decode_spec(pixels.last()@[ch])
    }
}

/// Sum of the decoded direction components `2 * byte - 255` of channel `ch`.
pub open spec fn sum_dir(pixels: Seq<[u8; 4]>, ch: int) -> int
    decreases pixels.len(),
{
    if pixels.len() == 0 {
        0
    } else {
        sum_dir(pixels.drop_last(), ch) + (2 * pixels.last()@[ch] - 255)
    }
}

proof fn lemma_sum_ch_extend(s: Seq<[u8; 4]>, i: int, ch: int)
    requires
        0 <= i < s.len(),
    ensures
        sum_ch(s.subrange(0, i + 1), ch) == sum_ch(s.subrange(0, i), ch) + s[i]@[ch],
{
    assert(s.subrange(0, i + 1).drop_last() =~= s.subrange(0, i));
    assert(s.subrange(0, i + 1).last() == s[i]);
}

proof fn lemma_sum_dec_extend(s: Seq<[u8; 4]>, i: int, ch: int)
    requires
        0 <= i < s.len(),
    ensures
        sum_dec(s.subrange(0, i + 1), ch) == sum_dec(s.subrange(0, i), ch) + srgb_decode_spec(
            s[i]@[ch],
        ),
{
    assert(s.subrange(0, i + 1).drop_last() =~= s.subrange(0, i));
    assert(s.subrange(0, i + 1).last() == s[i]);
}

proof fn lemma_sum_dir_extend(s: Seq<[u8; 4]>, i: int, ch: int)
    requires
        0 <= i < s.len(),
    ensures
        sum_dir(s.subrange(0, i + 1), ch) == sum_dir(s.subrange(0, i), ch) + (2 * s[i]@[ch] - 255),
{
    assert(s.subrange(0, i + 1).drop_last() =~= s.subrange(0, i));
    assert(s.subrange(0, i + 1).last() == s[i]);
}

/// Over pixels whose channel `ch` is constant, the channel sum is a product.
pub proof fn lemma_sum_ch_uniform(s: Seq<[u8; 4]>, ch: int, v: u8)
    requires
        forall|i: int| 0 <= i < s.len() ==> #[trigger] s[i]@[ch] == v,
    ensures
        sum_ch(s, ch) == s.len() * v,
    decreases s.len(),
{
    if s.len() == 0 {
    } else {
        lemma_sum_ch_uniform(s.drop_last(), ch, v);
        assert(s.last()@[ch] == v);
        assert(s.len() * v == (s.len() - 1) * v + v) by (nonlinear_arith);
    }
}

/// Over pixels whose channel `ch` is constant, the decoded sum is a product.
pub proof fn lemma_sum_dec_uniform(s: Seq<[u8; 4]>, ch: int, v: u8)
    requires
        forall|i: int| 0 <= i < s.len() ==> #[trigger] s[i]@[ch] == v,
    ensures
        sum_dec(s, ch) == s.len() * srgb_decode_spec(v),
    decreases s.len(),
{
    if s.len() == 0 {
    } else {
        lemma_sum_dec_uniform(s.drop_last(), ch, v);
        assert(s.last()@[ch] == v);
        assert(s.len() * srgb_decode_spec(v) == (s.len() - 1) * srgb_decode_spec(v)
            + srgb_decode_spec(v)) by (nonlinear_arith);
    }
}

/// Average a block of up to four RGBA8 pixels according to `mode`.
///
/// Linear planes average raw bytes; sRGB planes decode color channels to
/// linear light, average, and re-encode (alpha is linear and averages
/// directly); normal maps sum the decoded XYZ vectors and re-encode the
/// renormalized sum, which is the average renormalized.
pub fn average_block(pixels: &[[u8; 4]], mode: MipmapMode) -> (r: [u8; 4])
    requires
        1 <= pixels@.len() <= 4,
    ensures
        mode == MipmapMode::Linear ==> forall|ch: int|
            0 <= ch < 4 ==> #[trigger] r@[ch] == sum_ch(pixels@, ch) / (pixels@.len() as int),
        mode == MipmapMode::Srgb ==> {
            &&& forall|ch: int|
                0 <= ch < 3 ==> #[trigger] r@[ch] == srgb_encode_spec(
                    sum_dec(pixels@, ch) / (pixels@.len() as int),
                )
            &&& r@[3] == sum_ch(pixels@, 3) / (pixels@.len() as int)
        },
        mode == MipmapMode::Normal ==> {
            let sx = sum_dir(pixels@, 0);
            let sy = sum_dir(pixels@, 1);
            let sz = sum_dir(pixels@, 2);
            &&& (sx == 0 && sy == 0 && sz == 0) ==> r@ =~= seq![128u8, 128u8, 128u8, 255u8]
            &&& !(sx == 0 && sy == 0 && sz == 0) ==> {
                let l = direction_norm(sx, sy, sz);
                &&& r@[0] == encoded_component(sx, l)
                &&& r@[1] == encoded_component(sy, l)
                &&& r@[2] == encoded_component(sz, l)
                &&& r@[3] == 255
            }
        },
{
    let n: usize = pixels.len();
    match mode {
        MipmapMode::Linear => {
            let mut s0: u32 = 0;
            let mut s1: u32 = 0;
            let mut s2: u32 = 0;
            let mut s3: u32 = 0;
            let mut i: usize = 0;
            while i < n
                invariant
                    n == pixels@.len(),
                    1 <= n <= 4,
                    i <= n,
                    s0 == sum_ch(pixels@.subrange(0, i as int), 0),
                    s1 == sum_ch(pixels@.subrange(0, i as int), 1),
                    s2 == sum_ch(pixels@.subrange(0, i as int), 2),
                    s3 == sum_ch(pixels@.subrange(0, i as int), 3),
                    s0 <= i * 255 && s1 <= i * 255 && s2 <= i * 255 && s3 <= i * 255,
                decreases n - i,
            {
                let p: [u8; 4] = pixels[i];
                proof {
                    lemma_sum_ch_extend(pixels@, i as int, 0);
                    lemma_sum_ch_extend(pixels@, i as int, 1);
                    lemma_sum_ch_extend(pixels@, i as int, 2);
                    lemma_sum_ch_extend(pixels@, i as int, 3);
                }
                s0 = s0 + p[0] as u32;
                s1 = s1 + p[1] as u32;
                s2 = s2 + p[2] as u32;
                s3 = s3 + p[3] as u32;
                i = i + 1;
            }
            proof {
                assert(pixels@.subrange(0, n as int) =~= pixels@);
                lemma_avg_byte(s0 as int, n as int);
                lemma_avg_byte(s1 as int, n as int);
                lemma_avg_byte(s2 as int, n as int);
                lemma_avg_byte(s3 as int, n as int);
            }
            let nn: u32 = n as u32;
            [(s0 / nn) as u8, (s1 / nn) as u8, (s2 / nn) as u8, (s3 / nn) as u8]
        },
        MipmapMode::Srgb => {
            let mut d0: u32 = 0;
            let mut d1: u32 = 0;
            let mut d2: u32 = 0;
            let mut s3: u32 = 0;
            let mut i: usize = 0;
            while i < n
                invariant
                    n == pixels@.len(),
                    1 <= n <= 4,
                    i <= n,
                    d0 == sum_dec(pixels@.subrange(0, i as int), 0),
                    d1 == sum_dec(pixels@.subrange(0, i as int), 1),
                    d2 == sum_dec(pixels@.subrange(0, i as int), 2),
                    s3 == sum_ch(pixels@.subrange(0, i as int), 3),
                    d0 <= i * (crate::srgb::LINEAR_ONE as int),
                    d1 <= i * (crate::srgb::LINEAR_ONE as int),
                    d2 <= i * (crate::srgb::LINEAR_ONE as int),
                    s3 <= i * 255,
                decreases n - i,
            {
                let p: [u8; 4] = pixels[i];
                proof {
                    lemma_sum_dec_extend(pixels@, i as int, 0);
                    lemma_sum_dec_extend(pixels@, i as int, 1);
                    lemma_sum_dec_extend(pixels@, i as int, 2);
                    lemma_sum_ch_extend(pixels@, i as int, 3);
                }
                d0 = d0 + srgb_to_linear(p[0]);
                d1 = d1 + srgb_to_linear(p[1]);
                d2 = d2 + srgb_to_linear(p[2]);
                s3 = s3 + p[3] as u32;
                i = i + 1;
            }
            proof {
                assert(pixels@.subrange(0, n as int) =~= pixels@);
                lemma_avg_byte(s3 as int, n as int);
                vstd::arithmetic::div_mod::lemma_div_pos_is_pos(d0 as int, n as int);
                vstd::arithmetic::div_mod::lemma_div_pos_is_pos(d1 as int, n as int);
                vstd::arithmetic::div_mod::lemma_div_pos_is_pos(d2 as int, n as int);
            }
            let nn: u32 = n as u32;
            [
                linear_to_srgb(d0 / nn),
                linear_to_srgb(d1 / nn),
                linear_to_srgb(d2 / nn),
                (s3 / nn) as u8,
            ]
        },
        MipmapMode::Normal => {
            let mut sx: i64 = 0;
            let mut sy: i64 = 0;
            let mut sz: i64 = 0;
            let mut i: usize = 0;
            while i < n
                invariant
                    n == pixels@.len(),
                    1 <= n <= 4,
                    i <= n,
                    sx == sum_dir(pixels@.subrange(0, i as int), 0),
                    sy == sum_dir(pixels@.subrange(0, i as int), 1),
                    sz == sum_dir(pixels@.subrange(0, i as int), 2),
                    -255 * i <= sx <= 255 * i,
                    -255 * i <= sy <= 255 * i,
                    -255 * i <= sz <= 255 * i,
                decreases n - i,
            {
                let p: [u8; 4] = pixels[i];
                proof {
                    lemma_sum_dir_extend(pixels@, i as int, 0);
                    lemma_sum_dir_extend(pixels@, i as int, 1);
                    lemma_sum_dir_extend(pixels@, i as int, 2);
                }
                sx = sx + (2 * (p[0] as i64) - 255);
                sy = sy + (2 * (p[1] as i64) - 255);
                sz = sz + (2 * (p[2] as i64) - 255);
                i = i + 1;
            }
            proof {
                assert(pixels@.subrange(0, n as int) =~= pixels@);
            }
            encode_direction(sx, sy, sz)
        },
    }
}

/// The floor average of `n` bytes fits in a byte.
proof fn lemma_avg_byte(s: int, n: int)
    requires
        0 < n,
        0 <= s <= n * 255,
    ensures
        0 <= s / n <= 255,
{
    vstd::arithmetic::div_mod::lemma_div_pos_is_pos(s, n);
    vstd::arithmetic::div_mod::lemma_div_is_ordered(s, n * 255, n);
    vstd::arithmetic::div_mod::lemma_div_multiples_vanish(255, n);
}

/// The next mip dimension: halved, never below one.
pub open spec fn next_dim(d: int) -> int {
    if d >= 2 {
        d / 2
    } else {
        1
    }
}

/// Number of mip levels, the base level included.
pub open spec fn mip_level_count_spec(w: int, h: int) -> int
    recommends
        1 <= w,
        1 <= h,
    decreases w + h when 1 <= w && 1 <= h
{
    if w <= 1 && h <= 1 {
        1
    } else {
        1 + mip_level_count_spec(next_dim(w), next_dim(h))
    }
}

/// Total byte length of a full mip chain of RGBA8 levels.
pub open spec fn mip_total_bytes(w: int, h: int) -> int
    recommends
        1 <= w,
        1 <= h,
    decreases w + h when 1 <= w && 1 <= h
{
    if w <= 1 && h <= 1 {
        4
    } else {
        w * h * 4 + mip_total_bytes(next_dim(w), next_dim(h))
    }
}

/// The level count never exceeds `w + h`.
proof fn lemma_mip_count_bound(w: int, h: int)
    requires
        1 <= w,
        1 <= h,
    ensures
        1 <= mip_level_count_spec(w, h) <= w + h,
    decreases w + h,
{
    if w <= 1 && h <= 1 {
    } else {
        lemma_mip_count_bound(next_dim(w), next_dim(h));
    }
}

/// The chain's total size is linearly bounded by the base size.
proof fn lemma_mip_total_bound(w: int, h: int)
    requires
        1 <= w,
        1 <= h,
    ensures
        4 <= mip_total_bytes(w, h) <= 16 * (w * h) + 32 * (w + h),
    decreases w + h,
{
    if w <= 1 && h <= 1 {
    } else {
        let nw = next_dim(w);
        let nh = next_dim(h);
        lemma_mip_total_bound(nw, nh);
        assert(2 * nw <= w + 1 && 2 * nh <= h + 1);
        assert(w * h * 4 + 16 * (nw * nh) + 32 * (nw + nh) <= 16 * (w * h) + 32 * (w + h))
            by (nonlinear_arith)
            requires
                1 <= w,
                1 <= h,
                w > 1 || h > 1,
                1 <= nw,
                1 <= nh,
                2 * nw <= w + 1,
                2 * nh <= h + 1,
        ;
    }
}

/// All bytes in `[lo, hi)` of `s` follow the 4-byte pixel pattern
/// `(r, g, b, a)`; meaningful when `lo` is 4-byte aligned.
pub open spec fn uniform_bytes(s: Seq<u8>, lo: int, hi: int, r: u8, g: u8, b: u8, a: u8) -> bool {
    forall|j: int|
        lo <= j < hi ==> #[trigger] s[j] == (if j % 4 == 0 {
            r
        } else if j % 4 == 1 {
            g
        } else if j % 4 == 2 {
            b
        } else {
            a
        })
}

/// The channel value that a uniform block averages to under `mode`: color
/// channels of an sRGB plane make one decode/encode round trip; everything
/// else is unchanged.
pub open spec fn requant_channel(mode: MipmapMode, ch: int, v: u8) -> u8 {
    if mode == MipmapMode::Srgb && ch < 3 {
        srgb_requant(v)
    } else {
        v
    }
}

/// The per-byte contribution of a source byte to a block sum: raw bytes
/// for linear planes (and every alpha channel), decoded linear light for
/// sRGB color channels, decoded direction components for normal maps.
pub open spec fn byte_term(mode: MipmapMode, ch: int, b: u8) -> int {
    match mode {
        MipmapMode::Linear => b as int,
        MipmapMode::Srgb => if ch < 3 {
            srgb_decode_spec(b)
        } else {
            b as int
        },
        MipmapMode::Normal => 2 * b - 255,
    }
}

/// The contribution of source pixel `(sx, sy)` of the level at `off`
/// (row length `cw`) to channel `ch` of a block sum.
pub open spec fn block_term(
    s: Seq<u8>,
    off: int,
    cw: int,
    mode: MipmapMode,
    ch: int,
    sx: int,
    sy: int,
) -> int {
    byte_term(mode, ch, s[off + 4 * (sy * cw + sx) + ch])
}

/// Sum of channel `ch` over the 2x2 source block of next-level pixel
/// `(x2, y2)`, clamped to the `cw` by `chh` source level.
pub open spec fn block_sum(
    s: Seq<u8>,
    off: int,
    cw: int,
    chh: int,
    mode: MipmapMode,
    ch: int,
    x2: int,
    y2: int,
) -> int {
    let sx = 2 * x2;
    let sy = 2 * y2;
    block_term(s, off, cw, mode, ch, sx, sy) + (if sx + 1 < cw {
        block_term(s, off, cw, mode, ch, sx + 1, sy)
    } else {
        0
    }) + (if sy + 1 < chh {
        block_term(s, off, cw, mode, ch, sx, sy + 1)
    } else {
        0
    }) + (if sx + 1 < cw && sy + 1 < chh {
        block_term(s, off, cw, mode, ch, sx + 1, sy + 1)
    } else {
        0
    })
}

/// Number of source pixels in the clamped 2x2 block of `(x2, y2)`.
pub open spec fn block_count(cw: int, chh: int, x2: int, y2: int) -> int {
    1 + (if 2 * x2 + 1 < cw {
        1int
    } else {
        0
    }) + (if 2 * y2 + 1 < chh {
        1int
    } else {
        0
    }) + (if 2 * x2 + 1 < cw && 2 * y2 + 1 < chh {
        1int
    } else {
        0
    })
}

/// Channel `ch` of next-level pixel `(x2, y2)`: the mode's average of its
/// clamped 2x2 source block in the level at `off`.
pub open spec fn mip_pixel_byte(
    s: Seq<u8>,
    off: int,
    cw: int,
    chh: int,
    mode: MipmapMode,
    x2: int,
    y2: int,
    ch: int,
) -> int {
    let n = block_count(cw, chh, x2, y2);
    match mode {
        MipmapMode::Linear => block_sum(s, off, cw, chh, mode, ch, x2, y2) / n,
        MipmapMode::Srgb => if ch < 3 {
            srgb_encode_spec(block_sum(s, off, cw, chh, mode, ch, x2, y2) / n) as int
        } else {
            block_sum(s, off, cw, chh, mode, ch, x2, y2) / n
        },
        MipmapMode::Normal => {
            let sx = block_sum(s, off, cw, chh, mode, 0, x2, y2);
            let sy = block_sum(s, off, cw, chh, mode, 1, x2, y2);
            let sz = block_sum(s, off, cw, chh, mode, 2, x2, y2);
            if ch == 3 {
                255
            } else if sx == 0 && sy == 0 && sz == 0 {
                128
            } else {
                let l = direction_norm(sx, sy, sz);
                if ch == 0 {
                    encoded_component(sx, l)
                } else if ch == 1 {
                    encoded_component(sy, l)
                } else {
                    encoded_component(sz, l)
                }
            }
        },
    }
}

/// Unrolled channel sum of a block of at most four pixels.
proof fn lemma_sum_ch_explicit(s: Seq<[u8; 4]>, c: int)
    requires
        1 <= s.len() <= 4,
    ensures
        sum_ch(s, c) == s[0]@[c] + (if s.len() >= 2 {
            s[1]@[c] as int
        } else {
            0
        }) + (if s.len() >= 3 {
            s[2]@[c] as int
        } else {
            0
        }) + (if s.len() >= 4 {
            s[3]@[c] as int
        } else {
            0
        }),
    decreases s.len(),
{
    if s.len() == 1 {
        assert(s.last() == s[0]);
        assert(sum_ch(s.drop_last(), c) == 0);
    } else {
        lemma_sum_ch_explicit(s.drop_last(), c);
        assert(s.last() == s[s.len() - 1]);
    }
}

/// Unrolled decoded channel sum of a block of at most four pixels.
proof fn lemma_sum_dec_explicit(s: Seq<[u8; 4]>, c: int)
    requires
        1 <= s.len() <= 4,
    ensures
        sum_dec(s, c) == srgb_decode_spec(s[0]@[c]) + (if s.len() >= 2 {
            srgb_decode_spec(s[1]@[c])
        } else {
            0
        }) + (if s.len() >= 3 {
            srgb_decode_spec(s[2]@[c])
        } else {
            0
        }) + (if s.len() >= 4 {
            srgb_decode_spec(s[3]@[c])
        } else {
            0
        }),
    decreases s.len(),
{
    if s.len() == 1 {
        assert(s.last() == s[0]);
        assert(sum_dec(s.drop_last(), c) == 0);
    } else {
        lemma_sum_dec_explicit(s.drop_last(), c);
        assert(s.last() == s[s.len() - 1]);
    }
}

/// Unrolled direction-component sum of a block of at most four pixels.
proof fn lemma_sum_dir_explicit(s: Seq<[u8; 4]>, c: int)
    requires
        1 <= s.len() <= 4,
    ensures
        sum_dir(s, c) == (2 * s[0]@[c] - 255) + (if s.len() >= 2 {
            2 * s[1]@[c] - 255
        } else {
            0
        }) + (if s.len() >= 3 {
            2 * s[2]@[c] - 255
        } else {
            0
        }) + (if s.len() >= 4 {
            2 * s[3]@[c] - 255
        } else {
            0
        }),
    decreases s.len(),
{
    if s.len() == 1 {
        assert(s.last() == s[0]);
        assert(sum_dir(s.drop_last(), c) == 0);
    } else {
        lemma_sum_dir_explicit(s.drop_last(), c);
        assert(s.last() == s[s.len() - 1]);
    }
}

/// A byte at a 4-aligned base plus a pixel offset has the expected channel.
proof fn lemma_aligned_channel(base: int, k: int, c: int)
    requires
        base % 4 == 0,
        0 <= k,
        0 <= c < 4,
    ensures
        (base + 4 * k + c) % 4 == c,
{
    vstd::arithmetic::div_mod::lemma_fundamental_div_mod(base, 4);
    assert(base + 4 * k + c == 4 * (base / 4 + k) + c);
    vstd::arithmetic::div_mod::lemma_mod_multiples_vanish(base / 4 + k, c, 4);
}


/// All pixels of a block share the channel values `(r, g, b, a)`.
pub open spec fn block_uniform(block: Seq<[u8; 4]>, r: u8, g: u8, b: u8, a: u8) -> bool {
    forall|i: int|
        0 <= i < block.len() ==> #[trigger] block[i]@[0] == r && block[i]@[1] == g
            && block[i]@[2] == b && block[i]@[3] == a
}

/// Read the source pixel at `(sx, sy)` of the level at `prev_offset` and
/// append it to `block`.
fn read_source_pixel(
    data: &Vec<u8>,
    cw: usize,
    ch: usize,
    prev_offset: usize,
    next_offset: usize,
    sx: usize,
    sy: usize,
    block: &mut Vec<[u8; 4]>,
)
    requires
        1 <= cw <= 4096,
        1 <= ch <= 4096,
        sx < cw,
        sy < ch,
        next_offset == prev_offset + cw * ch * 4,
        prev_offset % 4 == 0,
        data@.len() >= next_offset,
    ensures
        final(block)@.len() == old(block)@.len() + 1,
        forall|k: int| 0 <= k < old(block)@.len() ==> final(block)@[k] == old(block)@[k],
        final(block)@.last()@[0] == data@[prev_offset + (sy * cw + sx) * 4],
        final(block)@.last()@[1] == data@[prev_offset + (sy * cw + sx) * 4 + 1],
        final(block)@.last()@[2] == data@[prev_offset + (sy * cw + sx) * 4 + 2],
        final(block)@.last()@[3] == data@[prev_offset + (sy * cw + sx) * 4 + 3],
        forall|r: u8, g: u8, b: u8, a: u8|
            (#[trigger] uniform_bytes(data@, prev_offset as int, next_offset as int, r, g, b, a)
                && block_uniform(old(block)@, r, g, b, a)) ==> block_uniform(
                final(block)@,
                r,
                g,
                b,
                a,
            ),
{
    proof {
        crate::normal::lemma_row_index(sy as int, sx as int, cw as int, ch as int);
        lemma_aligned_channel(prev_offset as int, (sy * cw + sx) as int, 0);
        lemma_aligned_channel(prev_offset as int, (sy * cw + sx) as int, 1);
        lemma_aligned_channel(prev_offset as int, (sy * cw + sx) as int, 2);
        lemma_aligned_channel(prev_offset as int, (sy * cw + sx) as int, 3);
    }
    let src: usize = prev_offset + (sy * cw + sx) * 4;
    let p: [u8; 4] = [data[src], data[src + 1], data[src + 2], data[src + 3]];
    block.push(p);
}

/// The mode's average of the clamped 2x2 source block of `(x2, y2)`.
#[verifier::rlimit(100)]
fn averaged_pixel(
    data: &Vec<u8>,
    cw: usize,
    ch: usize,
    next_w: usize,
    next_h: usize,
    prev_offset: usize,
    next_offset: usize,
    x2: usize,
    y2: usize,
    mode: MipmapMode,
    cur: Ghost<(u8, u8, u8, u8)>,
) -> (avg: [u8; 4])
    requires
        1 <= cw <= 4096,
        1 <= ch <= 4096,
        next_w as int == next_dim(cw as int),
        next_h as int == next_dim(ch as int),
        next_offset == prev_offset + cw * ch * 4,
        prev_offset % 4 == 0,
        x2 < next_w,
        y2 < next_h,
        data@.len() >= next_offset,
    ensures
        forall|c: int|
            0 <= c < 4 ==> #[trigger] avg@[c] == mip_pixel_byte(
                data@,
                prev_offset as int,
                cw as int,
                ch as int,
                mode,
                x2 as int,
                y2 as int,
                c,
            ),
        (mode != MipmapMode::Normal && uniform_bytes(
            data@,
            prev_offset as int,
            next_offset as int,
            cur@.0,
            cur@.1,
            cur@.2,
            cur@.3,
        )) ==> avg@[0] == requant_channel(mode, 0, cur@.0) && avg@[1] == requant_channel(
            mode,
            1,
            cur@.1,
        ) && avg@[2] == requant_channel(mode, 2, cur@.2) && avg@[3] == cur@.3,
{
    let ghost u_in = mode != MipmapMode::Normal && uniform_bytes(
        data@,
        prev_offset as int,
        next_offset as int,
        cur@.0,
        cur@.1,
        cur@.2,
        cur@.3,
    );
    proof {
        crate::normal::lemma_row_index(y2 as int, x2 as int, next_w as int, next_h as int);
    }
    let sx: usize = x2 * 2;
    let sy: usize = y2 * 2;
    proof {
        assert(sy < ch && sx < cw) by (nonlinear_arith)
            requires
                sx == 2 * x2,
                sy == 2 * y2,
                x2 < next_w as int,
                y2 < next_h as int,
                next_w as int == next_dim(cw as int),
                next_h as int == next_dim(ch as int),
                1 <= cw,
                1 <= ch,
        ;
    }
    let mut block: Vec<[u8; 4]> = Vec::new();
    read_source_pixel(data, cw, ch, prev_offset, next_offset, sx, sy, &mut block);
    if sx + 1 < cw {
        read_source_pixel(data, cw, ch, prev_offset, next_offset, sx + 1, sy, &mut block);
    }
    if sy + 1 < ch {
        read_source_pixel(data, cw, ch, prev_offset, next_offset, sx, sy + 1, &mut block);
    }
    if sx + 1 < cw {
        if sy + 1 < ch {
            read_source_pixel(data, cw, ch, prev_offset, next_offset, sx + 1, sy + 1, &mut block);
        }
    }
    proof {
        if u_in {
            assert(block_uniform(Seq::<[u8; 4]>::empty(), cur@.0, cur@.1, cur@.2, cur@.3));
            assert(block_uniform(block@, cur@.0, cur@.1, cur@.2, cur@.3));
        }
    }
    let avg: [u8; 4] = average_block(block.as_slice(), mode);
    proof {
        if u_in {
            lemma_sum_ch_uniform(block@, 3, cur@.3);
            vstd::arithmetic::div_mod::lemma_div_multiples_vanish(
                cur@.3 as int,
                block@.len() as int,
            );
            if mode == MipmapMode::Linear {
                lemma_sum_ch_uniform(block@, 0, cur@.0);
                lemma_sum_ch_uniform(block@, 1, cur@.1);
                lemma_sum_ch_uniform(block@, 2, cur@.2);
                vstd::arithmetic::div_mod::lemma_div_multiples_vanish(
                    cur@.0 as int,
                    block@.len() as int,
                );
                vstd::arithmetic::div_mod::lemma_div_multiples_vanish(
                    cur@.1 as int,
                    block@.len() as int,
                );
                vstd::arithmetic::div_mod::lemma_div_multiples_vanish(
                    cur@.2 as int,
                    block@.len() as int,
                );
            } else {
                lemma_sum_dec_uniform(block@, 0, cur@.0);
                lemma_sum_dec_uniform(block@, 1, cur@.1);
                lemma_sum_dec_uniform(block@, 2, cur@.2);
                vstd::arithmetic::div_mod::lemma_div_multiples_vanish(
                    srgb_decode_spec(cur@.0),
                    block@.len() as int,
                );
                vstd::arithmetic::div_mod::lemma_div_multiples_vanish(
                    srgb_decode_spec(cur@.1),
                    block@.len() as int,
                );
                vstd::arithmetic::div_mod::lemma_div_multiples_vanish(
                    srgb_decode_spec(cur@.2),
                    block@.len() as int,
                );
            }
            assert(avg@[0] == requant_channel(mode, 0, cur@.0));
            assert(avg@[1] == requant_channel(mode, 1, cur@.1));
            assert(avg@[2] == requant_channel(mode, 2, cur@.2));
            assert(avg@[3] == cur@.3);
        }
        // The gathered block sums are the positional block sums, so the
        // average is exactly the positional per-channel mip byte.
        let c1 = sx + 1 < cw;
        let c2 = sy + 1 < ch;
        assert(block@.len() == block_count(cw as int, ch as int, x2 as int, y2 as int));
        assert forall|c: int| 0 <= c < 4 implies #[trigger] block@[0]@[c] == data@[
            prev_offset + 4 * (sy * cw + sx) + c] by {}
        if c1 {
            assert forall|c: int| 0 <= c < 4 implies #[trigger] block@[1]@[c] == data@[
                prev_offset + 4 * (sy * cw + (sx + 1)) + c] by {}
        }
        if c2 {
            let i = if c1 { 2int } else { 1 };
            assert forall|c: int| 0 <= c < 4 implies #[trigger] block@[i]@[c] == data@[
                prev_offset + 4 * ((sy + 1) * cw + sx) + c] by {}
        }
        if c1 && c2 {
            assert forall|c: int| 0 <= c < 4 implies #[trigger] block@[3]@[c] == data@[
                prev_offset + 4 * ((sy + 1) * cw + (sx + 1)) + c] by {}
        }
        assert forall|c: int| 0 <= c < 4 implies sum_ch(block@, c) == #[trigger] block_sum(
            data@,
            prev_offset as int,
            cw as int,
            ch as int,
            MipmapMode::Linear,
            c,
            x2 as int,
            y2 as int,
        ) by {
            lemma_sum_ch_explicit(block@, c);
        }
        assert forall|c: int| 0 <= c < 4 implies sum_dec(block@, c) == #[trigger] block_sum(
            data@,
            prev_offset as int,
            cw as int,
            ch as int,
            MipmapMode::Srgb,
            c,
            x2 as int,
            y2 as int,
        ) || c == 3 by {
            if c < 3 {
                lemma_sum_dec_explicit(block@, c);
            }
        }
        assert forall|c: int| 0 <= c < 4 implies sum_dir(block@, c) == #[trigger] block_sum(
            data@,
            prev_offset as int,
            cw as int,
            ch as int,
            MipmapMode::Normal,
            c,
            x2 as int,
            y2 as int,
        ) by {
            lemma_sum_dir_explicit(block@, c);
        }
        assert(block_sum(
            data@,
            prev_offset as int,
            cw as int,
            ch as int,
            MipmapMode::Srgb,
            3,
            x2 as int,
            y2 as int,
        ) == block_sum(
            data@,
            prev_offset as int,
            cw as int,
            ch as int,
            MipmapMode::Linear,
            3,
            x2 as int,
            y2 as int,
        ));
        assert forall|c: int| 0 <= c < 4 implies #[trigger] avg@[c] == mip_pixel_byte(
            data@,
            prev_offset as int,
            cw as int,
            ch as int,
            mode,
            x2 as int,
            y2 as int,
            c,
        ) by {}
    }
    avg
}

/// Compute and store one pixel of the next mip level.
fn fill_pixel(
    data: &mut Vec<u8>,
    cw: usize,
    ch: usize,
    next_w: usize,
    next_h: usize,
    prev_offset: usize,
    next_offset: usize,
    x2: usize,
    y2: usize,
    mode: MipmapMode,
    cur: Ghost<(u8, u8, u8, u8)>,
)
    requires
        1 <= cw <= 4096,
        1 <= ch <= 4096,
        next_w as int == next_dim(cw as int),
        next_h as int == next_dim(ch as int),
        next_offset == prev_offset + cw * ch * 4,
        prev_offset % 4 == 0,
        x2 < next_w,
        y2 < next_h,
        old(data)@.len() == next_offset + next_w * next_h * 4,
        old(data)@.len() <= 0x2000_0000,
    ensures
        final(data)@.len() == old(data)@.len(),
        forall|j: int|
            0 <= j < final(data)@.len() && !(next_offset + 4 * (y2 * next_w + x2) <= j
                < next_offset + 4 * (y2 * next_w + x2) + 4) ==> final(data)@[j] == #[trigger] old(
                data,
            )@[j],
        forall|c: int|
            0 <= c < 4 ==> final(data)@[next_offset + 4 * (y2 * next_w + x2) + c]
                == #[trigger] mip_pixel_byte(
                old(data)@,
                prev_offset as int,
                cw as int,
                ch as int,
                mode,
                x2 as int,
                y2 as int,
                c,
            ),
        (mode != MipmapMode::Normal && uniform_bytes(
            old(data)@,
            prev_offset as int,
            next_offset as int,
            cur@.0,
            cur@.1,
            cur@.2,
            cur@.3,
        )) ==> {
            let dst = next_offset + 4 * (y2 * next_w + x2);
            &&& final(data)@[dst] == requant_channel(mode, 0, cur@.0)
            &&& final(data)@[dst + 1] == requant_channel(mode, 1, cur@.1)
            &&& final(data)@[dst + 2] == requant_channel(mode, 2, cur@.2)
            &&& final(data)@[dst + 3] == cur@.3
        },
{
    proof {
        crate::normal::lemma_row_index(y2 as int, x2 as int, next_w as int, next_h as int);
    }
    let avg: [u8; 4] = averaged_pixel(
        data,
        cw,
        ch,
        next_w,
        next_h,
        prev_offset,
        next_offset,
        x2,
        y2,
        mode,
        cur,
    );
    let dst: usize = next_offset + (y2 * next_w + x2) * 4;
    data[dst] = avg[0];
    data[dst + 1] = avg[1];
    data[dst + 2] = avg[2];
    data[dst + 3] = avg[3];
}

/// `mip_pixel_byte` reads only the source level's bytes, so it is the
/// same over any two buffers that agree there.
proof fn lemma_mip_pixel_byte_stable(
    s1: Seq<u8>,
    s2: Seq<u8>,
    off: int,
    cw: int,
    chh: int,
    mode: MipmapMode,
    x2: int,
    y2: int,
    c: int,
)
    requires
        1 <= cw <= 4096,
        1 <= chh <= 4096,
        0 <= x2 && 2 * x2 < cw,
        0 <= y2 && 2 * y2 < chh,
        0 <= off,
        0 <= c < 4,
        forall|j: int| off <= j < off + cw * chh * 4 ==> s1[j] == #[trigger] s2[j],
    ensures
        mip_pixel_byte(s1, off, cw, chh, mode, x2, y2, c) == mip_pixel_byte(
            s2,
            off,
            cw,
            chh,
            mode,
            x2,
            y2,
            c,
        ),
{
    assert forall|sx: int, sy: int, cc: int|
        0 <= sx < cw && 0 <= sy < chh && 0 <= cc < 4 implies #[trigger] block_term(
        s1,
        off,
        cw,
        mode,
        cc,
        sx,
        sy,
    ) == block_term(s2, off, cw, mode, cc, sx, sy) by {
        crate::normal::lemma_row_index(sy, sx, cw, chh);
        assert(s1[off + 4 * (sy * cw + sx) + cc] == s2[off + 4 * (sy * cw + sx) + cc]);
    }
    assert forall|cc: int| 0 <= cc < 4 implies #[trigger] block_sum(
        s1,
        off,
        cw,
        chh,
        mode,
        cc,
        x2,
        y2,
    ) == block_sum(s2, off, cw, chh, mode, cc, x2, y2) by {}
}

/// One more written pixel extends the filled region's per-pixel match.
#[verifier::rlimit(100)]
proof fn lemma_level_progress(
    dnew: Seq<u8>,
    before: Seq<u8>,
    dorig: Seq<u8>,
    prev_offset: int,
    next_offset: int,
    cw: int,
    chh: int,
    nw: int,
    nh: int,
    mode: MipmapMode,
    x2: int,
    y2: int,
)
    requires
        1 <= cw <= 4096,
        1 <= chh <= 4096,
        nw == next_dim(cw),
        nh == next_dim(chh),
        next_offset == prev_offset + cw * chh * 4,
        0 <= prev_offset,
        0 <= x2 < nw,
        0 <= y2 < nh,
        dnew.len() == before.len(),
        before.len() == next_offset + nw * nh * 4,
        before.subrange(0, next_offset) == dorig.subrange(0, next_offset),
        dorig.len() >= next_offset,
        forall|j: int|
            0 <= j < dnew.len() && !(next_offset + 4 * (y2 * nw + x2) <= j < next_offset + 4 * (y2
                * nw + x2) + 4) ==> dnew[j] == #[trigger] before[j],
        forall|c: int|
            0 <= c < 4 ==> dnew[next_offset + 4 * (y2 * nw + x2) + c] == #[trigger] mip_pixel_byte(
                before,
                prev_offset,
                cw,
                chh,
                mode,
                x2,
                y2,
                c,
            ),
        forall|p: int, c: int|
            0 <= p < y2 * nw + x2 && 0 <= c < 4 ==> #[trigger] filled_pixel_matches(
                before,
                dorig,
                prev_offset,
                next_offset,
                cw,
                chh,
                nw,
                mode,
                p,
                c,
            ),
    ensures
        forall|p: int, c: int|
            0 <= p < y2 * nw + x2 + 1 && 0 <= c < 4 ==> #[trigger] filled_pixel_matches(
                dnew,
                dorig,
                prev_offset,
                next_offset,
                cw,
                chh,
                nw,
                mode,
                p,
                c,
            ),
{
    let p0 = y2 * nw + x2;
    crate::normal::lemma_row_index(y2, x2, nw, nh);
    vstd::arithmetic::div_mod::lemma_fundamental_div_mod_converse(p0, nw, y2, x2);
    assert(0 < nw * nh) by (nonlinear_arith)
        requires
            0 < nw,
            0 < nh,
    ;
    assert(next_offset <= before.len());
    assert forall|j: int|
        prev_offset <= j < prev_offset + cw * chh * 4 implies before[j] == #[trigger] dorig[j] by {
        assert(0 <= j < next_offset);
        assert(before.subrange(0, next_offset) == dorig.subrange(0, next_offset));
        assert(before.subrange(0, next_offset)[j] == before[j]);
        assert(dorig.subrange(0, next_offset)[j] == dorig[j]);
    }
    assert(2 * x2 < cw && 2 * y2 < chh) by (nonlinear_arith)
        requires
            x2 < nw,
            y2 < nh,
            nw == next_dim(cw),
            nh == next_dim(chh),
            1 <= cw,
            1 <= chh,
    ;
    lemma_mip_pixel_byte_stable(before, dorig, prev_offset, cw, chh, mode, x2, y2, 0);
    lemma_mip_pixel_byte_stable(before, dorig, prev_offset, cw, chh, mode, x2, y2, 1);
    lemma_mip_pixel_byte_stable(before, dorig, prev_offset, cw, chh, mode, x2, y2, 2);
    lemma_mip_pixel_byte_stable(before, dorig, prev_offset, cw, chh, mode, x2, y2, 3);
    assert forall|p: int, c: int|
        0 <= p < y2 * nw + x2 + 1 && 0 <= c < 4 implies #[trigger] filled_pixel_matches(
        dnew,
        dorig,
        prev_offset,
        next_offset,
        cw,
        chh,
        nw,
        mode,
        p,
        c,
    ) by {
        if p < p0 {
            assert(filled_pixel_matches(
                before,
                dorig,
                prev_offset,
                next_offset,
                cw,
                chh,
                nw,
                mode,
                p,
                c,
            ));
            assert(next_offset + 4 * p + c < next_offset + 4 * p0);
            assert(dnew[next_offset + 4 * p + c] == before[next_offset + 4 * p + c]);
        } else {
            assert(p == p0);
            assert(dnew[next_offset + 4 * p0 + c] == mip_pixel_byte(
                before,
                prev_offset,
                cw,
                chh,
                mode,
                x2,
                y2,
                c,
            ));
            assert(p0 % nw == x2 && p0 / nw == y2);
        }
    }
}

/// Byte `c` of next-level pixel `p` in `s` matches the block average
/// taken over the source buffer `src`.
spec fn filled_pixel_matches(
    s: Seq<u8>,
    src: Seq<u8>,
    prev_offset: int,
    next_offset: int,
    cw: int,
    chh: int,
    nw: int,
    mode: MipmapMode,
    p: int,
    c: int,
) -> bool {
    s[next_offset + 4 * p + c] == mip_pixel_byte(
        src,
        prev_offset,
        cw,
        chh,
        mode,
        p % nw,
        p / nw,
        c,
    )
}

/// Fill one mip level: average 2x2 blocks of the level at `prev_offset`
/// (dimensions `cw` by `ch`) into the region at `next_offset` (dimensions
/// `next_w` by `next_h`), clamping source blocks at odd dimensions.
fn fill_level(
    data: &mut Vec<u8>,
    cw: usize,
    ch: usize,
    next_w: usize,
    next_h: usize,
    prev_offset: usize,
    next_offset: usize,
    mode: MipmapMode,
    cur: Ghost<(u8, u8, u8, u8)>,
)
    requires
        1 <= cw <= 4096,
        1 <= ch <= 4096,
        next_w as int == next_dim(cw as int),
        next_h as int == next_dim(ch as int),
        next_offset == prev_offset + cw * ch * 4,
        prev_offset % 4 == 0,
        old(data)@.len() == next_offset + next_w * next_h * 4,
        old(data)@.len() <= 0x2000_0000,
    ensures
        final(data)@.len() == old(data)@.len(),
        final(data)@.subrange(0, next_offset as int) == old(data)@.subrange(
            0,
            next_offset as int,
        ),
        forall|p: int, c: int|
            0 <= p < next_w * next_h && 0 <= c < 4 ==> #[trigger] filled_pixel_matches(
                final(data)@,
                old(data)@,
                prev_offset as int,
                next_offset as int,
                cw as int,
                ch as int,
                next_w as int,
                mode,
                p,
                c,
            ),
        (mode != MipmapMode::Normal && uniform_bytes(
            old(data)@,
            prev_offset as int,
            next_offset as int,
            cur@.0,
            cur@.1,
            cur@.2,
            cur@.3,
        )) ==> uniform_bytes(
            final(data)@,
            next_offset as int,
            final(data)@.len() as int,
            requant_channel(mode, 0, cur@.0),
            requant_channel(mode, 1, cur@.1),
            requant_channel(mode, 2, cur@.2),
            cur@.3,
        ),
{
    let ghost u_in = mode != MipmapMode::Normal && uniform_bytes(
        old(data)@,
        prev_offset as int,
        next_offset as int,
        cur@.0,
        cur@.1,
        cur@.2,
        cur@.3,
    );
    let ghost q0 = requant_channel(mode, 0, cur@.0);
    let ghost q1 = requant_channel(mode, 1, cur@.1);
    let ghost q2 = requant_channel(mode, 2, cur@.2);
    let mut y2: usize = 0;
    while y2 < next_h
        invariant
            1 <= cw <= 4096,
            1 <= ch <= 4096,
            next_w as int == next_dim(cw as int),
            next_h as int == next_dim(ch as int),
            next_offset == prev_offset + cw * ch * 4,
            prev_offset % 4 == 0,
            data@.len() == next_offset + next_w * next_h * 4,
            old(data)@.len() == data@.len(),
            data@.len() <= 0x2000_0000,
            data@.subrange(0, next_offset as int) == old(data)@.subrange(0, next_offset as int),
            y2 <= next_h,
            u_in ==> uniform_bytes(
                data@,
                prev_offset as int,
                next_offset as int,
                cur@.0,
                cur@.1,
                cur@.2,
                cur@.3,
            ),
            u_in ==> uniform_bytes(
                data@,
                next_offset as int,
                next_offset as int + 4 * (y2 * next_w),
                q0,
                q1,
                q2,
                cur@.3,
            ),
            forall|p: int, c: int|
                0 <= p < y2 * next_w && 0 <= c < 4 ==> #[trigger] filled_pixel_matches(
                    data@,
                    old(data)@,
                    prev_offset as int,
                    next_offset as int,
                    cw as int,
                    ch as int,
                    next_w as int,
                    mode,
                    p,
                    c,
                ),
            q0 == requant_channel(mode, 0, cur@.0),
            q1 == requant_channel(mode, 1, cur@.1),
            q2 == requant_channel(mode, 2, cur@.2),
            u_in == (mode != MipmapMode::Normal && uniform_bytes(
                old(data)@,
                prev_offset as int,
                next_offset as int,
                cur@.0,
                cur@.1,
                cur@.2,
                cur@.3,
            )),
        decreases next_h - y2,
    {
        let mut x2: usize = 0;
        while x2 < next_w
            invariant
                1 <= cw <= 4096,
                1 <= ch <= 4096,
                next_w as int == next_dim(cw as int),
                next_h as int == next_dim(ch as int),
                next_offset == prev_offset + cw * ch * 4,
                prev_offset % 4 == 0,
                data@.len() == next_offset + next_w * next_h * 4,
                old(data)@.len() == data@.len(),
                data@.len() <= 0x2000_0000,
                data@.subrange(0, next_offset as int) == old(data)@.subrange(
                    0,
                    next_offset as int,
                ),
                y2 < next_h,
                x2 <= next_w,
                u_in ==> uniform_bytes(
                    data@,
                    prev_offset as int,
                    next_offset as int,
                    cur@.0,
                    cur@.1,
                    cur@.2,
                    cur@.3,
                ),
                u_in ==> uniform_bytes(
                    data@,
                    next_offset as int,
                    next_offset as int + 4 * (y2 * next_w + x2),
                    q0,
                    q1,
                    q2,
                    cur@.3,
                ),
                forall|p: int, c: int|
                    0 <= p < y2 * next_w + x2 && 0 <= c < 4 ==> #[trigger] filled_pixel_matches(
                        data@,
                        old(data)@,
                        prev_offset as int,
                        next_offset as int,
                        cw as int,
                        ch as int,
                        next_w as int,
                        mode,
                        p,
                        c,
                    ),
                q0 == requant_channel(mode, 0, cur@.0),
                q1 == requant_channel(mode, 1, cur@.1),
                q2 == requant_channel(mode, 2, cur@.2),
                u_in == (mode != MipmapMode::Normal && uniform_bytes(
                    old(data)@,
                    prev_offset as int,
                    next_offset as int,
                    cur@.0,
                    cur@.1,
                    cur@.2,
                    cur@.3,
                )),
            decreases next_w - x2,
        {
            let ghost before = data@;
            fill_pixel(data, cw, ch, next_w, next_h, prev_offset, next_offset, x2, y2, mode, cur);
            proof {
                crate::normal::lemma_row_index(y2 as int, x2 as int, next_w as int, next_h as int);
                let p0 = (y2 * next_w + x2) as int;
                let dst = next_offset as int + 4 * p0;
                assert forall|j: int| 0 <= j < next_offset implies data@[j] == #[trigger] before[j]
                    by {
                    assert(!(dst <= j < dst + 4));
                }
                assert(data@.subrange(0, next_offset as int) =~= before.subrange(
                    0,
                    next_offset as int,
                ));
                assert(data@.subrange(0, next_offset as int) == old(data)@.subrange(
                    0,
                    next_offset as int,
                ));
                assert(0 < next_w * next_h) by (nonlinear_arith)
                    requires
                        0 < next_w,
                        0 < next_h,
                ;
                lemma_level_progress(
                    data@,
                    before,
                    old(data)@,
                    prev_offset as int,
                    next_offset as int,
                    cw as int,
                    ch as int,
                    next_w as int,
                    next_h as int,
                    mode,
                    x2 as int,
                    y2 as int,
                );
                if u_in {
                    assert forall|j: int| prev_offset <= j < next_offset implies #[trigger] data@[j]
                        == (if j % 4 == 0 {
                        cur@.0
                    } else if j % 4 == 1 {
                        cur@.1
                    } else if j % 4 == 2 {
                        cur@.2
                    } else {
                        cur@.3
                    }) by {
                        assert(data@[j] == before[j]);
                    }
                    assert(uniform_bytes(
                        data@,
                        prev_offset as int,
                        next_offset as int,
                        cur@.0,
                        cur@.1,
                        cur@.2,
                        cur@.3,
                    ));
                    lemma_aligned_channel(next_offset as int, (y2 * next_w + x2) as int, 0);
                    lemma_aligned_channel(next_offset as int, (y2 * next_w + x2) as int, 1);
                    lemma_aligned_channel(next_offset as int, (y2 * next_w + x2) as int, 2);
                    lemma_aligned_channel(next_offset as int, (y2 * next_w + x2) as int, 3);
                    assert forall|j: int|
                        next_offset <= j < next_offset + 4 * (y2 * next_w + x2 + 1) implies
                        #[trigger] data@[j] == (if j % 4 == 0 {
                        q0
                    } else if j % 4 == 1 {
                        q1
                    } else if j % 4 == 2 {
                        q2
                    } else {
                        cur@.3
                    }) by {
                        if j < dst {
                            assert(data@[j] == before[j]);
                        } else {
                            assert(dst <= j < dst + 4);
                            assert(j == dst || j == dst + 1 || j == dst + 2 || j == dst + 3);
                        }
                    }
                    assert(uniform_bytes(
                        data@,
                        next_offset as int,
                        next_offset as int + 4 * (y2 * next_w + x2 + 1),
                        q0,
                        q1,
                        q2,
                        cur@.3,
                    ));
                }
            }
            x2 = x2 + 1;
        }
        y2 = y2 + 1;
        proof {
            assert((y2 - 1) * next_w + next_w == y2 * next_w) by (nonlinear_arith)
                requires
                    1 <= y2,
            ;
        }
    }
    proof {
        assert(next_offset as int + 4 * (next_h * next_w) == data@.len());
        assert(next_h * next_w == next_w * next_h) by (nonlinear_arith);
    }
}


/// Dimension of one axis at mip level `k` (level 0 is the base).
pub open spec fn level_dim(d: int, k: int) -> int
    decreases k, when k >= 0
{
    if k <= 0 {
        d
    } else {
        next_dim(level_dim(d, k - 1))
    }
}

/// Byte offset of mip level `k` in the chain of a `w` by `h` base.
pub open spec fn level_offset(w: int, h: int, k: int) -> int
    decreases k, when k >= 0
{
    if k <= 0 {
        0
    } else {
        level_offset(w, h, k - 1) + level_dim(w, k - 1) * level_dim(h, k - 1) * 4
    }
}

/// Byte `c` of pixel `p` of mip level `k` holds the mode's average of the
/// pixel's clamped 2x2 source block in level `k - 1`.
pub open spec fn level_pixel_matches(
    s: Seq<u8>,
    w: int,
    h: int,
    mode: MipmapMode,
    k: int,
    p: int,
    c: int,
) -> bool {
    s[level_offset(w, h, k) + 4 * p + c] == mip_pixel_byte(
        s,
        level_offset(w, h, k - 1),
        level_dim(w, k - 1),
        level_dim(h, k - 1),
        mode,
        p % level_dim(w, k),
        p / level_dim(w, k),
        c,
    )
}

/// Level dimensions stay between one and the base dimension.
proof fn lemma_level_dim_pos(d: int, k: int)
    requires
        1 <= d,
        0 <= k,
    ensures
        1 <= level_dim(d, k) <= d,
    decreases k,
{
    if k > 0 {
        lemma_level_dim_pos(d, k - 1);
    }
}

/// Level offsets are nonnegative.
proof fn lemma_level_offset_nonneg(w: int, h: int, k: int)
    requires
        1 <= w,
        1 <= h,
        0 <= k,
    ensures
        0 <= level_offset(w, h, k),
    decreases k,
{
    if k > 0 {
        lemma_level_offset_nonneg(w, h, k - 1);
        lemma_level_dim_pos(w, k - 1);
        lemma_level_dim_pos(h, k - 1);
        assert(0 < level_dim(w, k - 1) * level_dim(h, k - 1)) by (nonlinear_arith)
            requires
                0 < level_dim(w, k - 1),
                0 < level_dim(h, k - 1),
        ;
    }
}

/// Level offsets are nondecreasing in the level index.
proof fn lemma_level_offset_mono(w: int, h: int, k1: int, k2: int)
    requires
        1 <= w,
        1 <= h,
        0 <= k1 <= k2,
    ensures
        0 <= level_offset(w, h, k1) <= level_offset(w, h, k2),
    decreases k2 - k1,
{
    lemma_level_offset_nonneg(w, h, k1);
    if k1 < k2 {
        lemma_level_offset_mono(w, h, k1 + 1, k2);
        lemma_level_dim_pos(w, k1);
        lemma_level_dim_pos(h, k1);
        assert(0 < level_dim(w, k1) * level_dim(h, k1)) by (nonlinear_arith)
            requires
                0 < level_dim(w, k1),
                0 < level_dim(h, k1),
        ;
    }
}

/// `level_pixel_matches` reads only bytes below the end of level `k`, so
/// it carries over to any buffer that agrees there.
proof fn lemma_level_pixel_stable(
    s1: Seq<u8>,
    s2: Seq<u8>,
    w: int,
    h: int,
    mode: MipmapMode,
    k: int,
    p: int,
    c: int,
)
    requires
        1 <= w <= 4096,
        1 <= h <= 4096,
        1 <= k,
        0 <= c < 4,
        0 <= p < level_dim(w, k) * level_dim(h, k),
        forall|j: int| 0 <= j < level_offset(w, h, k + 1) ==> s1[j] == #[trigger] s2[j],
        level_pixel_matches(s2, w, h, mode, k, p, c),
    ensures
        level_pixel_matches(s1, w, h, mode, k, p, c),
{
    let nw = level_dim(w, k);
    let nh = level_dim(h, k);
    let cw = level_dim(w, k - 1);
    let chh = level_dim(h, k - 1);
    lemma_level_dim_pos(w, k);
    lemma_level_dim_pos(h, k);
    lemma_level_dim_pos(w, k - 1);
    lemma_level_dim_pos(h, k - 1);
    vstd::arithmetic::div_mod::lemma_fundamental_div_mod(p, nw);
    let x2 = p % nw;
    let y2 = p / nw;
    assert(0 <= x2 < nw);
    assert(0 <= y2 && y2 < nh) by {
        vstd::arithmetic::div_mod::lemma_div_pos_is_pos(p, nw);
        if y2 >= nh {
            assert(p >= nw * nh) by (nonlinear_arith)
                requires
                    p == nw * y2 + x2,
                    y2 >= nh,
                    0 <= x2,
                    0 < nw,
            ;
        }
    }
    assert(2 * x2 < cw && 2 * y2 < chh) by (nonlinear_arith)
        requires
            x2 < nw,
            y2 < nh,
            nw == next_dim(cw),
            nh == next_dim(chh),
            1 <= cw,
            1 <= chh,
    ;
    lemma_level_offset_nonneg(w, h, k - 1);
    // Agreement on the whole source level: it ends where level k begins.
    assert(level_offset(w, h, k) == level_offset(w, h, k - 1) + cw * chh * 4);
    assert(level_offset(w, h, k + 1) == level_offset(w, h, k) + nw * nh * 4);
    assert forall|j: int|
        level_offset(w, h, k - 1) <= j < level_offset(w, h, k - 1) + cw * chh * 4 implies s1[j]
        == #[trigger] s2[j] by {
        assert(0 <= j < level_offset(w, h, k + 1)) by (nonlinear_arith)
            requires
                level_offset(w, h, k - 1) <= j,
                j < level_offset(w, h, k),
                level_offset(w, h, k + 1) == level_offset(w, h, k) + nw * nh * 4,
                0 <= level_offset(w, h, k - 1),
                0 < nw,
                0 < nh,
        ;
    }
    lemma_mip_pixel_byte_stable(
        s1,
        s2,
        level_offset(w, h, k - 1),
        cw,
        chh,
        mode,
        x2,
        y2,
        c,
    );
    // The target byte also sits below the end of level k.
    assert(level_offset(w, h, k) + 4 * p + c < level_offset(w, h, k + 1)) by (nonlinear_arith)
        requires
            p < nw * nh,
            0 <= c < 4,
            level_offset(w, h, k + 1) == level_offset(w, h, k) + nw * nh * 4,
    ;
    assert(s1[level_offset(w, h, k) + 4 * p + c] == s2[level_offset(w, h, k) + 4 * p + c]) by {
        assert(0 <= level_offset(w, h, k) + 4 * p + c) by (nonlinear_arith)
            requires
                0 <= level_offset(w, h, k),
                0 <= p,
                0 <= c,
        ;
    }
}

/// Row-major pixel index decomposition within an `nw` by `nh` grid.
proof fn lemma_pixel_coords(p: int, nw: int, nh: int)
    requires
        0 < nw,
        0 < nh,
        0 <= p < nw * nh,
    ensures
        0 <= p % nw < nw,
        0 <= p / nw < nh,
{
    vstd::arithmetic::div_mod::lemma_fundamental_div_mod(p, nw);
    vstd::arithmetic::div_mod::lemma_div_pos_is_pos(p, nw);
    if p / nw >= nh {
        assert(p >= nw * nh) by (nonlinear_arith)
            requires
                p == nw * (p / nw) + p % nw,
                p / nw >= nh,
                0 <= p % nw,
                0 < nw,
        ;
    }
}

/// A level never holds fewer bytes than its own pixels.
proof fn lemma_mip_total_lower(w: int, h: int)
    requires
        1 <= w,
        1 <= h,
    ensures
        w * h * 4 <= mip_total_bytes(w, h),
    decreases w + h,
{
    if w <= 1 && h <= 1 {
    } else {
        lemma_mip_total_lower(next_dim(w), next_dim(h));
        assert(0 < next_dim(w) * next_dim(h)) by (nonlinear_arith)
            requires
                1 <= next_dim(w),
                1 <= next_dim(h),
        ;
        assert(0 < next_dim(w) * next_dim(h) * 4);
    }
}

/// Build the full mip chain from a base RGBA8 image.
///
/// Appends each successively halved level onto the base buffer using a 2x2
/// box filter whose averaging rule is chosen by `mode`; halving continues
/// while either dimension exceeds one, and odd dimensions clamp the source
/// block at the boundary.  Returns the expanded buffer and the total level
/// count, the base included.  The base level comes back unchanged, every
/// pixel of every later level is the mode's average of its source block in
/// the level before it, and a uniform base image is uniform at every
/// level: bit-exact under linear averaging, one decode/encode round trip
/// of each color channel under sRGB averaging.
pub fn generate_mipmaps(data: Vec<u8>, base_width: u32, base_height: u32, mode: MipmapMode) -> (r:
    (Vec<u8>, u32))
    requires
        1 <= base_width <= 4096,
        1 <= base_height <= 4096,
        data@.len() == base_width * base_height * 4,
    ensures
        r.1 as int == mip_level_count_spec(base_width as int, base_height as int),
        r.0@.len() == mip_total_bytes(base_width as int, base_height as int),
        r.0@.subrange(0, data@.len() as int) == data@,
        forall|k: int, p: int, c: int|
            1 <= k < r.1 && 0 <= p < level_dim(base_width as int, k) * level_dim(
                base_height as int,
                k,
            ) && 0 <= c < 4 ==> #[trigger] level_pixel_matches(
                r.0@,
                base_width as int,
                base_height as int,
                mode,
                k,
                p,
                c,
            ),
        (mode != MipmapMode::Normal && uniform_bytes(
            data@,
            0,
            data@.len() as int,
            data@[0],
            data@[1],
            data@[2],
            data@[3],
        )) ==> uniform_bytes(
            r.0@,
            data@.len() as int,
            r.0@.len() as int,
            requant_channel(mode, 0, data@[0]),
            requant_channel(mode, 1, data@[1]),
            requant_channel(mode, 2, data@[2]),
            data@[3],
        ),
{
    let ghost bw = base_width as int;
    let ghost bh = base_height as int;
    let ghost base = data@;
    proof {
        assert(1 <= bw * bh) by (nonlinear_arith)
            requires
                1 <= bw,
                1 <= bh,
        ;
        lemma_mip_total_bound(bw, bh);
        assert(16 * (bw * bh) + 32 * (bw + bh) <= 0x2000_0000) by (nonlinear_arith)
            requires
                1 <= bw <= 4096,
                1 <= bh <= 4096,
        ;
        lemma_mip_count_bound(bw, bh);
    }
    let ghost u_base = mode != MipmapMode::Normal && uniform_bytes(
        base,
        0,
        base.len() as int,
        base[0],
        base[1],
        base[2],
        base[3],
    );
    let ghost rq = (
        requant_channel(mode, 0, base[0]),
        requant_channel(mode, 1, base[1]),
        requant_channel(mode, 2, base[2]),
        base[3],
    );
    let mut buf = data;
    let mut mip_count: u32 = 1;
    let mut cw: usize = base_width as usize;
    let mut ch: usize = base_height as usize;
    let mut prev_offset: usize = 0;
    let ghost mut cur: (u8, u8, u8, u8) = (base[0], base[1], base[2], base[3]);
    while cw > 1 || ch > 1
        invariant
            1 <= cw <= 4096,
            1 <= ch <= 4096,
            bw == base_width as int,
            bh == base_height as int,
            1 <= bw <= 4096,
            1 <= bh <= 4096,
            mip_level_count_spec(bw, bh) <= bw + bh,
            buf@.len() == prev_offset + cw * ch * 4,
            base.len() <= buf@.len(),
            cw as int == level_dim(bw, mip_count - 1),
            ch as int == level_dim(bh, mip_count - 1),
            prev_offset as int == level_offset(bw, bh, mip_count - 1),
            forall|k: int, p: int, c: int|
                1 <= k < mip_count && 0 <= p < level_dim(bw, k) * level_dim(bh, k) && 0 <= c < 4
                    ==> #[trigger] level_pixel_matches(buf@, bw, bh, mode, k, p, c),
            prev_offset % 4 == 0,
            base.len() == bw * bh * 4,
            4 <= base.len(),
            mip_total_bytes(bw, bh) == prev_offset + mip_total_bytes(cw as int, ch as int),
            mip_total_bytes(bw, bh) <= 0x2000_0000,
            mip_level_count_spec(bw, bh) == mip_count - 1 + mip_level_count_spec(
                cw as int,
                ch as int,
            ),
            1 <= mip_count <= 8192,
            buf@.subrange(0, base.len() as int) == base,
            u_base == (mode != MipmapMode::Normal && uniform_bytes(
                base,
                0,
                base.len() as int,
                base[0],
                base[1],
                base[2],
                base[3],
            )),
            rq == (
                requant_channel(mode, 0, base[0]),
                requant_channel(mode, 1, base[1]),
                requant_channel(mode, 2, base[2]),
                base[3],
            ),
            u_base ==> uniform_bytes(
                buf@,
                base.len() as int,
                buf@.len() as int,
                rq.0,
                rq.1,
                rq.2,
                rq.3,
            ),
            u_base ==> uniform_bytes(
                buf@,
                prev_offset as int,
                buf@.len() as int,
                cur.0,
                cur.1,
                cur.2,
                cur.3,
            ),
            u_base ==> (requant_channel(mode, 0, cur.0) == rq.0 && requant_channel(mode, 1, cur.1)
                == rq.1 && requant_channel(mode, 2, cur.2) == rq.2 && cur.3 == rq.3),
        decreases cw + ch,
    {
        let next_w: usize = if cw >= 2 {
            cw / 2
        } else {
            1
        };
        let next_h: usize = if ch >= 2 {
            ch / 2
        } else {
            1
        };
        assert(next_w as int == next_dim(cw as int));
        assert(next_h as int == next_dim(ch as int));
        assert(next_w + next_h < cw + ch);
        let next_offset: usize = buf.len();
        proof {
            lemma_mip_total_lower(next_dim(cw as int), next_dim(ch as int));
            assert(mip_total_bytes(cw as int, ch as int) == cw * ch * 4 + mip_total_bytes(
                next_dim(cw as int),
                next_dim(ch as int),
            ));
            assert(next_offset + next_w * next_h * 4 <= mip_total_bytes(bw, bh));
        }
        let target: usize = next_offset + next_w * next_h * 4;
        let ghost before_grow = buf@;
        while buf.len() < target
            invariant
                next_offset <= buf@.len() <= target,
                buf@.subrange(0, next_offset as int) == before_grow.subrange(
                    0,
                    next_offset as int,
                ),
                before_grow.len() == next_offset,
                target <= 0x2000_0000,
            decreases target - buf@.len(),
        {
            buf.push(0);
            proof {
                assert(buf@.subrange(0, next_offset as int) =~= before_grow.subrange(
                    0,
                    next_offset as int,
                ));
            }
        }
        proof {
            assert(base.len() <= next_offset);
            assert(before_grow.subrange(0, next_offset as int) =~= before_grow);
            assert(buf@.subrange(0, next_offset as int) == before_grow);
            assert(buf@.subrange(0, base.len() as int) =~= base) by {
                assert forall|j: int| 0 <= j < base.len() implies buf@[j] == base[j] by {
                    assert(buf@.subrange(0, next_offset as int)[j] == before_grow[j]);
                    assert(before_grow.subrange(0, base.len() as int)[j] == base[j]);
                }
            }
            if u_base {
                assert forall|j: int| prev_offset <= j < next_offset implies #[trigger] buf@[j]
                    == (if j % 4 == 0 {
                    cur.0
                } else if j % 4 == 1 {
                    cur.1
                } else if j % 4 == 2 {
                    cur.2
                } else {
                    cur.3
                }) by {
                    assert(buf@[j] == before_grow[j]);
                }
                assert(uniform_bytes(
                    buf@,
                    prev_offset as int,
                    next_offset as int,
                    cur.0,
                    cur.1,
                    cur.2,
                    cur.3,
                ));
            }
        }
        let ghost before_fill = buf@;
        fill_level(&mut buf, cw, ch, next_w, next_h, prev_offset, next_offset, mode, Ghost(cur));
        proof {
            assert(base.len() <= next_offset);
            assert(buf@.subrange(0, next_offset as int) == before_fill.subrange(
                0,
                next_offset as int,
            ));
            assert(buf@.subrange(0, base.len() as int) =~= base) by {
                assert forall|j: int| 0 <= j < base.len() implies buf@[j] == base[j] by {
                    assert(buf@.subrange(0, next_offset as int)[j] == before_fill.subrange(
                        0,
                        next_offset as int,
                    )[j]);
                    assert(before_fill.subrange(0, base.len() as int)[j] == base[j]);
                }
            }
            if u_base {
                assert(uniform_bytes(
                    buf@,
                    next_offset as int,
                    buf@.len() as int,
                    requant_channel(mode, 0, cur.0),
                    requant_channel(mode, 1, cur.1),
                    requant_channel(mode, 2, cur.2),
                    cur.3,
                ));
                assert forall|j: int| base.len() <= j < buf@.len() implies #[trigger] buf@[j]
                    == (if j % 4 == 0 {
                    rq.0
                } else if j % 4 == 1 {
                    rq.1
                } else if j % 4 == 2 {
                    rq.2
                } else {
                    rq.3
                }) by {
                    if j < next_offset {
                        assert(buf@.subrange(0, next_offset as int)[j] == before_fill.subrange(
                            0,
                            next_offset as int,
                        )[j]);
                        assert(buf@[j] == before_fill[j]);
                    }
                }
                assert(uniform_bytes(
                    buf@,
                    base.len() as int,
                    buf@.len() as int,
                    rq.0,
                    rq.1,
                    rq.2,
                    rq.3,
                ));
            }
        }
        proof {
            let new_k = mip_count as int;
            assert(level_dim(bw, new_k) == next_w as int);
            assert(level_dim(bh, new_k) == next_h as int);
            assert(level_offset(bw, bh, new_k) == next_offset as int);
            assert forall|j: int| 0 <= j < next_offset implies buf@[j] == #[trigger] before_grow[j]
                by {
                assert(buf@.subrange(0, next_offset as int)[j] == before_fill.subrange(
                    0,
                    next_offset as int,
                )[j]);
                assert(before_fill.subrange(0, next_offset as int)[j] == before_grow[j]);
            }
            assert forall|j: int|
                prev_offset <= j < prev_offset + cw * ch * 4 implies buf@[j]
                == #[trigger] before_fill[j] by {
                assert(buf@.subrange(0, next_offset as int)[j] == before_fill.subrange(
                    0,
                    next_offset as int,
                )[j]);
            }
            assert forall|k: int, p: int, c: int|
                1 <= k < mip_count + 1 && 0 <= p < level_dim(bw, k) * level_dim(bh, k) && 0 <= c
                    < 4 implies #[trigger] level_pixel_matches(buf@, bw, bh, mode, k, p, c) by {
                if k < mip_count {
                    assert(level_pixel_matches(before_grow, bw, bh, mode, k, p, c));
                    lemma_level_offset_mono(bw, bh, k + 1, new_k);
                    assert forall|j: int|
                        0 <= j < level_offset(bw, bh, k + 1) implies buf@[j]
                        == #[trigger] before_grow[j] by {
                        assert(j < next_offset);
                    }
                    lemma_level_pixel_stable(buf@, before_grow, bw, bh, mode, k, p, c);
                } else {
                    assert(k == new_k);
                    assert(filled_pixel_matches(
                        buf@,
                        before_fill,
                        prev_offset as int,
                        next_offset as int,
                        cw as int,
                        ch as int,
                        next_w as int,
                        mode,
                        p,
                        c,
                    ));
                    lemma_pixel_coords(p, next_w as int, next_h as int);
                    let px = p % (next_w as int);
                    let py = p / (next_w as int);
                    assert(2 * px < cw && 2 * py < ch) by (nonlinear_arith)
                        requires
                            px < next_w as int,
                            py < next_h as int,
                            next_w as int == next_dim(cw as int),
                            next_h as int == next_dim(ch as int),
                            1 <= cw,
                            1 <= ch,
                    ;
                    lemma_mip_pixel_byte_stable(
                        buf@,
                        before_fill,
                        prev_offset as int,
                        cw as int,
                        ch as int,
                        mode,
                        px,
                        py,
                        c,
                    );
                }
            }
        }
        prev_offset = next_offset;
        cw = next_w;
        ch = next_h;
        mip_count = mip_count + 1;
        proof {
            if u_base {
                if mode == MipmapMode::Srgb {
                    lemma_requant_fixed(base[0]);
                    lemma_requant_fixed(base[1]);
                    lemma_requant_fixed(base[2]);
                }
            }
            cur = (
                requant_channel(mode, 0, cur.0),
                requant_channel(mode, 1, cur.1),
                requant_channel(mode, 2, cur.2),
                cur.3,
            );
            lemma_mip_count_bound(cw as int, ch as int);
        }
    }
    proof {
        assert(mip_level_count_spec(cw as int, ch as int) == 1);
        assert(mip_total_bytes(cw as int, ch as int) == 4);
        assert(cw * ch * 4 == 4) by (nonlinear_arith)
            requires
                cw == 1usize,
                ch == 1usize,
        ;
        assert(buf@.len() == prev_offset + 4);
    }
    (buf, mip_count)
}

} // verus!
