//! Color-space conversion and chroma subsampling.
//!
//! The decimal coefficients of the conversion are carried in fixed-point
//! integer arithmetic: luma is scaled by 1000 and quantized at once, while
//! chroma is scaled by 10000 and kept at full precision until the 2x2
//! subsampling average, whose truncated mean is only then quantized to a
//! byte. The decode direction reads the subsampled chroma back for every
//! pixel of its 2x2 block (nearest-neighbor upsampling), dequantizes,
//! and clamps each channel into a byte.

use vstd::prelude::*;

use vstd::arithmetic::div_mod::lemma_fundamental_div_mod_converse_div;
use vstd::arithmetic::div_mod::lemma_fundamental_div_mod_converse_mod;
use vstd::arithmetic::div_mod::lemma_div_multiples_vanish;
use crate::delta::views_of;

verus! {

/// Largest scaled chroma sample: 255.245 at scale 10000, reached by the
/// V channel of a pure red pixel.
pub const CHROMA_SCALED_MAX: u32 = 2552450;

/// A scaled chroma plane whose samples all lie in the representable range.
pub open spec fn chroma_ok(p: Seq<u32>) -> bool {
    forall|i: int| 0 <= i < p.len() ==> #[trigger] p[i] <= CHROMA_SCALED_MAX
}

/// Luma of one RGB pixel: 0.299 R + 0.587 G + 0.114 B, truncated.
pub open spec fn luma_of(r: u8, g: u8, b: u8) -> u8 {
    ((299 * r + 587 * g + 114 * b) / 1000) as u8
}

/// Chroma U of one RGB pixel, scaled by 10000, not yet quantized:
/// -0.169 R - 0.331 G + 0.449 B + 128.
pub open spec fn chroma_u_of(r: u8, g: u8, b: u8) -> u32 {
    (4490 * b + 1280000 - 1690 * r - 3310 * g) as u32
}

/// Chroma V of one RGB pixel, scaled by 10000, not yet quantized:
/// 0.499 R - 0.418 G - 0.0813 B + 128.
pub open spec fn chroma_v_of(r: u8, g: u8, b: u8) -> u32 {
    (4990 * r + 1280000 - 4180 * g - 813 * b) as u32
}

/// The luma plane of an interleaved RGB frame, row-major, one byte per
/// pixel.
pub open spec fn luma_plane(f: Seq<u8>, w: nat, h: nat) -> Seq<u8> {
    Seq::new(w * h, |p: int| luma_of(f[3 * p], f[3 * p + 1], f[3 * p + 2]))
}

/// The full-resolution scaled chroma U plane of an interleaved RGB frame.
pub open spec fn chroma_u_plane(f: Seq<u8>, w: nat, h: nat) -> Seq<u32> {
    Seq::new(w * h, |p: int| chroma_u_of(f[3 * p], f[3 * p + 1], f[3 * p + 2]))
}

/// The full-resolution scaled chroma V plane of an interleaved RGB frame.
pub open spec fn chroma_v_plane(f: Seq<u8>, w: nat, h: nat) -> Seq<u32> {
    Seq::new(w * h, |p: int| chroma_v_of(f[3 * p], f[3 * p + 1], f[3 * p + 2]))
}

/// One subsampled chroma byte: the truncated mean of the 2x2 block of
/// scaled samples at block index `b`, quantized from scale 10000.
pub open spec fn subsample_block(p: Seq<u32>, w: nat, b: int) -> u8 {
    let hw = (w / 2) as int;
    let bx = b / hw;
    let by = b % hw;
    let a00 = 2 * bx * w + 2 * by;
    let a10 = (2 * bx + 1) * w + 2 * by;
    (((p[a00] + p[a00 + 1] + p[a10] + p[a10 + 1]) as int) / 40000) as u8
}

/// The subsampled chroma plane: one truncated 2x2 block mean per output
/// sample, row-major over the halved grid.
pub open spec fn subsample_plane(p: Seq<u32>, w: nat, h: nat) -> Seq<u8> {
    Seq::new((w / 2) * (h / 2), |b: int| subsample_block(p, w, b))
}

/// A whole encoded frame in planar YUV 4:2:0 order: the luma plane, then
/// the two subsampled chroma planes.
pub open spec fn frame_to_yuv(f: Seq<u8>, w: nat, h: nat) -> Seq<u8> {
    luma_plane(f, w, h) + subsample_plane(chroma_u_plane(f, w, h), w, h) + subsample_plane(
        chroma_v_plane(f, w, h),
        w,
        h,
    )
}

/// Saturating dequantization of one scaled channel value: clamp to
/// [0, 255] at scale 1000, then truncate to a byte.
pub open spec fn clamp_scaled(s: int) -> u8 {
    if s < 0 {
        0
    } else if s >= 255000 {
        255
    } else {
        (s / 1000) as u8
    }
}

/// The red channel reconstructed from luma and chroma V: Y + 1.402 V'.
pub open spec fn rgb_r(y: u8, v: u8) -> u8 {
    clamp_scaled(1000 * y + 1402 * (v - 128))
}

/// The green channel reconstructed from luma and both chroma samples:
/// Y - 0.344 U' - 0.714 V'.
pub open spec fn rgb_g(y: u8, u: u8, v: u8) -> u8 {
    clamp_scaled(1000 * y - 344 * (u - 128) - 714 * (v - 128))
}

/// The blue channel reconstructed from luma and chroma U: Y + 1.772 U'.
pub open spec fn rgb_b(y: u8, u: u8) -> u8 {
    clamp_scaled(1000 * y + 1772 * (u - 128))
}

/// One byte of the reconstructed interleaved RGB frame. The pixel's luma
/// sits at its own index; its chroma is read from the subsampled plane at
/// the halved coordinates, the implicit nearest-neighbor upsampling.
pub open spec fn rgb_byte(f: Seq<u8>, w: nat, h: nat, idx: int) -> u8 {
    let p = idx / 3;
    let c = idx % 3;
    let j = p / (w as int);
    let k = p % (w as int);
    let ci = (j / 2) * ((w / 2) as int) + k / 2;
    let y = f[p];
    let u = f[w * h + ci];
    let v = f[w * h + (w * h) / 4 + ci];
    if c == 0 {
        rgb_r(y, v)
    } else if c == 1 {
        rgb_g(y, u, v)
    } else {
        rgb_b(y, u)
    }
}

/// A whole planar YUV 4:2:0 frame reconstructed as interleaved RGB.
pub open spec fn yuv_to_rgb_frame(f: Seq<u8>, w: nat, h: nat) -> Seq<u8> {
    Seq::new(w * h * 3, |idx: int| rgb_byte(f, w, h, idx))
}

/// Every video frame reconstructed as interleaved RGB, in order.
pub open spec fn yuv_to_rgb_video(v: Seq<Seq<u8>>, w: nat, h: nat) -> Seq<Seq<u8>> {
    Seq::new(v.len(), |i: int| yuv_to_rgb_frame(v[i], w, h))
}

/// The chroma planes a frame produces are always within the scaled range.
pub proof fn lemma_chroma_planes_ok(f: Seq<u8>, w: nat, h: nat)
    ensures
        chroma_ok(chroma_u_plane(f, w, h)),
        chroma_ok(chroma_v_plane(f, w, h)),
{
    assert forall|i: int| 0 <= i < chroma_u_plane(f, w, h).len() implies #[trigger] chroma_u_plane(
        f,
        w,
        h,
    )[i] <= CHROMA_SCALED_MAX by {}
    assert forall|i: int| 0 <= i < chroma_v_plane(f, w, h).len() implies #[trigger] chroma_v_plane(
        f,
        w,
        h,
    )[i] <= CHROMA_SCALED_MAX by {}
}

/// Converts one interleaved RGB frame to its luma plane and two
/// full-resolution scaled chroma planes, pixel by pixel.
#[verifier::loop_isolation(false)]
pub fn convert_frame_to_yuv(width: usize, height: usize, frame: &Vec<u8>) -> (planes: (
    Vec<u8>,
    Vec<u32>,
    Vec<u32>,
))
    requires
        frame@.len() == width * height * 3,
    ensures
        planes.0@ == luma_plane(frame@, width as nat, height as nat),
        planes.1@ == chroma_u_plane(frame@, width as nat, height as nat),
        planes.2@ == chroma_v_plane(frame@, width as nat, height as nat),
{
    let ghost w = width as nat;
    let ghost h = height as nat;
    let _total = frame.len();
    assert(width * height <= width * height * 3);
    let count: usize = width * height;
    let mut y: Vec<u8> = Vec::with_capacity(count);
    let mut u: Vec<u32> = Vec::with_capacity(count);
    let mut v: Vec<u32> = Vec::with_capacity(count);
    let mut p: usize = 0;
    while p < count
        invariant
            p <= count,
            count == w * h,
            frame@.len() == 3 * count,
            3 * count <= usize::MAX,
            y@ =~= luma_plane(frame@, w, h).take(p as int),
            u@ =~= chroma_u_plane(frame@, w, h).take(p as int),
            v@ =~= chroma_v_plane(frame@, w, h).take(p as int),
        decreases count - p,
    {
        let red = frame[3 * p] as u32;
        let green = frame[3 * p + 1] as u32;
        let blue = frame[3 * p + 2] as u32;
        let pixel_y = (299 * red + 587 * green + 114 * blue) / 1000;
        let pixel_u = (4490 * blue + 1280000) - (1690 * red + 3310 * green);
        let pixel_v = (4990 * red + 1280000) - (4180 * green + 813 * blue);
        y.push(pixel_y as u8);
        u.push(pixel_u);
        v.push(pixel_v);
        proof {
            let pi = p as int;
            assert(pixel_y as u8 == luma_of(frame@[3 * pi], frame@[3 * pi + 1], frame@[3 * pi + 2]));
            assert(pixel_u == chroma_u_of(frame@[3 * pi], frame@[3 * pi + 1], frame@[3 * pi + 2]));
            assert(pixel_v == chroma_v_of(frame@[3 * pi], frame@[3 * pi + 1], frame@[3 * pi + 2]));
            assert(y@ =~= luma_plane(frame@, w, h).take(pi + 1));
            assert(u@ =~= chroma_u_plane(frame@, w, h).take(pi + 1));
            assert(v@ =~= chroma_v_plane(frame@, w, h).take(pi + 1));
        }
        p += 1;
    }
    proof {
        assert(y@ =~= luma_plane(frame@, w, h));
        assert(u@ =~= chroma_u_plane(frame@, w, h));
        assert(v@ =~= chroma_v_plane(frame@, w, h));
    }
    (y, u, v)
}

/// Subsamples one full-resolution scaled chroma plane by non-overlapping
/// 2x2 blocks, each output byte the truncated mean of its block.
#[verifier::loop_isolation(false)]
fn subsample_plane_exec(p: &Vec<u32>, width: usize, height: usize) -> (out: Vec<u8>)
    requires
        crate::dims_ok(width as nat, height as nat),
        p@.len() == width * height,
        chroma_ok(p@),
    ensures
        out@ == subsample_plane(p@, width as nat, height as nat),
{
    let ghost w = width as nat;
    let ghost h = height as nat;
    let ghost target = subsample_plane(p@, w, h);
    let _plane_len = p.len();
    let hw: usize = width / 2;
    let hh: usize = height / 2;
    proof {
        assert(width == 2 * hw) by {
            vstd::arithmetic::div_mod::lemma_fundamental_div_mod(width as int, 2);
        }
        assert(height == 2 * hh) by {
            vstd::arithmetic::div_mod::lemma_fundamental_div_mod(height as int, 2);
        }
    }
    assert(hh * hw <= width * height) by (nonlinear_arith)
        requires
            width == 2 * hw,
            height == 2 * hh,
    ;
    let mut out: Vec<u8> = Vec::new();
    let mut bx: usize = 0;
    let mut b: usize = 0;
    while bx < hh
        invariant
            bx <= hh,
            b == bx * hw,
            width == 2 * hw,
            height == 2 * hh,
            b <= hw * hh,
            out@.len() == b,
            out@ =~= target.take(b as int),
        decreases hh - bx,
    {
        let mut by: usize = 0;
        assert(bx * hw + hw <= hh * hw) by (nonlinear_arith)
            requires
                bx < hh,
                0 <= hw,
        ;
        while by < hw
            invariant
                by <= hw,
                bx < hh,
                b == bx * hw + by,
                b < bx * hw + hw || by == hw,
                bx * hw + hw <= hh * hw,
                out@.len() == b,
                out@ =~= target.take(b as int),
        decreases hw - by,
        {
            let row0: usize = 2 * bx;
            let col0: usize = 2 * by;
            proof {
                assert((row0 + 1) * width + col0 + 1 < width * height
                    && row0 * width + col0 + width == (row0 + 1) * width + col0) by (
                nonlinear_arith)
                    requires
                        width == 2 * hw,
                        height == 2 * hh,
                        bx < hh,
                        by < hw,
                        row0 == 2 * bx,
                        col0 == 2 * by,
                        hw >= 1,
                        hh >= 1,
                ;
            }
            let i00: usize = row0 * width + col0;
            let i10: usize = i00 + width;
            assert(p@[i00 as int] <= CHROMA_SCALED_MAX);
            assert(p@[i00 as int + 1] <= CHROMA_SCALED_MAX);
            assert(p@[i10 as int] <= CHROMA_SCALED_MAX);
            assert(p@[i10 as int + 1] <= CHROMA_SCALED_MAX);
            let sum: u32 = p[i00] + p[i00 + 1] + p[i10] + p[i10 + 1];
            let mean: u32 = sum / 40000;
            out.push(mean as u8);
            proof {
                let bi = b as int;
                lemma_fundamental_div_mod_converse_div(bi, hw as int, bx as int, by as int);
                lemma_fundamental_div_mod_converse_mod(bi, hw as int, bx as int, by as int);
                assert(i10 == (2 * (bi / (hw as int)) + 1) * w + 2 * (bi % (hw as int)));
                assert(mean as u8 == subsample_block(p@, w, bi));
                assert(bi < target.len()) by (nonlinear_arith)
                    requires
                        bi == bx * hw + by,
                        bx < hh,
                        by < hw,
                        target.len() == hw * hh,
                        hw >= 1,
                        hh >= 1,
                ;
                assert(out@ =~= target.take(bi + 1));
            }
            by += 1;
            b += 1;
        }
        proof {
            assert((bx + 1) * hw == bx * hw + hw) by (nonlinear_arith);
        }
        bx += 1;
    }
    proof {
        assert(b == hw * hh) by (nonlinear_arith)
            requires
                b == bx * hw,
                bx == hh,
        ;
        assert(out@ =~= target);
    }
    out
}

/// Subsamples both chroma planes 4:2:0: each is partitioned into 2x2
/// blocks and every block becomes the truncated mean of its four scaled
/// samples, quantized to a byte on a halved row-major grid.
pub fn chroma_subsampling_420(width: usize, height: usize, u: Vec<u32>, v: Vec<u32>) -> (out: (
    Vec<u8>,
    Vec<u8>,
))
    requires
        crate::dims_ok(width as nat, height as nat),
        u@.len() == width * height,
        v@.len() == width * height,
        chroma_ok(u@),
        chroma_ok(v@),
    ensures
        out.0@ == subsample_plane(u@, width as nat, height as nat),
        out.1@ == subsample_plane(v@, width as nat, height as nat),
{
    let u_downsampled = subsample_plane_exec(&u, width, height);
    let v_downsampled = subsample_plane_exec(&v, width, height);
    (u_downsampled, v_downsampled)
}

/// Saturating dequantization of one channel value at scale 1000.
fn clamp_to_byte(s: i32) -> (r: u8)
    ensures
        r == clamp_scaled(s as int),
{
    if s < 0 {
        0
    } else if s >= 255000 {
        255
    } else {
        let su = s as u32;
        (su / 1000) as u8
    }
}

/// Reconstructs one interleaved RGB frame from one planar YUV 4:2:0
/// frame, reading each pixel's chroma from the halved grid.
#[verifier::loop_isolation(false)]
pub fn yuv_frame_to_rgb(f: &Vec<u8>, width: usize, height: usize) -> (rgb: Vec<u8>)
    requires
        crate::dims_ok(width as nat, height as nat),
        f@.len() == crate::chunk::frame_len_yuv(width as nat, height as nat),
        width * height * 3 <= usize::MAX,
    ensures
        rgb@ == yuv_to_rgb_frame(f@, width as nat, height as nat),
{
    let ghost w = width as nat;
    let ghost h = height as nat;
    let ghost target = yuv_to_rgb_frame(f@, w, h);
    let hw: usize = width / 2;
    let hh: usize = height / 2;
    proof {
        assert(width == 2 * hw) by {
            vstd::arithmetic::div_mod::lemma_fundamental_div_mod(width as int, 2);
        }
        assert(height == 2 * hh) by {
            vstd::arithmetic::div_mod::lemma_fundamental_div_mod(height as int, 2);
        }
        assert((w * h) / 4 == hw * hh) by {
            assert(w * h == 4 * (hw * hh)) by (nonlinear_arith)
                requires
                    w == 2 * hw,
                    h == 2 * hh,
            ;
            lemma_div_multiples_vanish((hw * hh) as int, 4);
        }
        assert(w * h <= w * h * 3) by (nonlinear_arith);
    }
    let luma_len: usize = width * height;
    let chroma_len: usize = luma_len / 4;
    proof {
        assert(chroma_len == hw * hh) by {
            lemma_div_multiples_vanish((hw * hh) as int, 4);
            assert(luma_len == 4 * (hw * hh)) by (nonlinear_arith)
                requires
                    luma_len == width * height,
                    width == 2 * hw,
                    height == 2 * hh,
            ;
        }
    }
    let mut rgb: Vec<u8> = Vec::with_capacity(luma_len * 3);
    let mut j: usize = 0;
    let mut p: usize = 0;
    while j < height
        invariant
            j <= height,
            p == j * width,
            p <= luma_len,
            rgb@.len() == 3 * p,
            rgb@ =~= target.take(3 * p as int),
        decreases height - j,
    {
        let mut k: usize = 0;
        assert(j * width + width <= height * width) by (nonlinear_arith)
            requires
                j < height,
                0 <= width,
        ;
        while k < width
            invariant
                k <= width,
                j < height,
                p == j * width + k,
                rgb@.len() == 3 * p,
                rgb@ =~= target.take(3 * p as int),
        decreases width - k,
        {
            proof {
                assert(p < luma_len) by (nonlinear_arith)
                    requires
                        p == j * width + k,
                        j < height,
                        k < width,
                        luma_len == width * height,
                        width >= 1,
                ;
            }
            let cj: usize = j / 2;
            let ck: usize = k / 2;
            proof {
                assert(cj < hh && ck < hw) by {
                    assert(j <= 2 * hh - 1);
                    assert(k <= 2 * hw - 1);
                }
                assert(cj * hw + ck < hw * hh) by (nonlinear_arith)
                    requires
                        cj < hh,
                        ck < hw,
                        hw >= 1,
                        hh >= 1,
                ;
            }
            let ci: usize = cj * hw + ck;
            let pixel_y = f[p] as i32;
            let pixel_u = f[luma_len + ci] as i32 - 128;
            let pixel_v = f[luma_len + chroma_len + ci] as i32 - 128;
            let r = clamp_to_byte(1000 * pixel_y + 1402 * pixel_v);
            let g = clamp_to_byte(1000 * pixel_y - 344 * pixel_u - 714 * pixel_v);
            let b = clamp_to_byte(1000 * pixel_y + 1772 * pixel_u);
            let ghost before = rgb@;
            rgb.push(r);
            rgb.push(g);
            rgb.push(b);
            proof {
                let pi = p as int;
                lemma_fundamental_div_mod_converse_div(pi, width as int, j as int, k as int);
                lemma_fundamental_div_mod_converse_mod(pi, width as int, j as int, k as int);
                assert(cj == (pi / (width as int)) / 2);
                assert(ck == (pi % (width as int)) / 2);
                lemma_triple_index(pi, 0);
                lemma_triple_index(pi, 1);
                lemma_triple_index(pi, 2);
                assert(r == rgb_byte(f@, w, h, 3 * pi));
                assert(g == rgb_byte(f@, w, h, 3 * pi + 1));
                assert(b == rgb_byte(f@, w, h, 3 * pi + 2));
                assert(3 * pi + 2 < target.len()) by (nonlinear_arith)
                    requires
                        pi < luma_len,
                        target.len() == w * h * 3,
                        luma_len == w * h,
                ;
                assert(rgb@ =~= target.take(3 * (pi + 1)));
            }
            k += 1;
            p += 1;
        }
        proof {
            assert((j + 1) * width == j * width + width) by (nonlinear_arith);
        }
        j += 1;
    }
    proof {
        assert(p == luma_len) by (nonlinear_arith)
            requires
                p == j * width,
                j == height,
                luma_len == width * height,
        ;
        assert(rgb@ =~= target);
    }
    rgb
}

/// Index arithmetic for one channel byte inside an interleaved pixel.
proof fn lemma_triple_index(p: int, c: int)
    requires
        0 <= p,
        0 <= c < 3,
    ensures
        (3 * p + c) / 3 == p,
        (3 * p + c) % 3 == c,
{
    lemma_fundamental_div_mod_converse_div(3 * p + c, 3, p, c);
    lemma_fundamental_div_mod_converse_mod(3 * p + c, 3, p, c);
}

/// Reconstructs every frame of a planar YUV 4:2:0 video as interleaved
/// RGB, replacing the video in place.
#[verifier::loop_isolation(false)]
pub fn convert_yuv_to_rgb(frames: &mut Vec<Vec<u8>>, width: usize, height: usize)
    requires
        crate::dims_ok(width as nat, height as nat),
        width * height * 3 <= usize::MAX,
        forall|i: int|
            0 <= i < old(frames)@.len() ==> (#[trigger] old(frames)@[i])@.len()
                == crate::chunk::frame_len_yuv(width as nat, height as nat),
    ensures
        views_of(final(frames)@) == yuv_to_rgb_video(
            views_of(old(frames)@),
            width as nat,
            height as nat,
        ),
{
    let ghost w = width as nat;
    let ghost h = height as nat;
    let ghost dv = views_of(old(frames)@);
    let ghost target = yuv_to_rgb_video(dv, w, h);
    let mut out: Vec<Vec<u8>> = Vec::with_capacity(frames.len());
    let mut index: usize = 0;
    while index < frames.len()
        invariant
            dv == views_of(frames@),
            index <= dv.len(),
            out@.len() == index,
            views_of(out@) =~= target.take(index as int),
        decreases frames@.len() - index,
    {
        let ghost before = out@;
        out.push(yuv_frame_to_rgb(&frames[index], width, height));
        assert(views_of(out@) =~= target.take(index as int + 1)) by {
            assert(forall|i: int|
                0 <= i < index ==> #[trigger] out@[i]@ == views_of(before)[i]);
            assert(out@[index as int]@ == target[index as int]);
        }
        index += 1;
    }
    assert(views_of(out@) =~= target);
    *frames = out;
}

} // verus!
