//! Atkinson error-diffusion dithering: quantizes a grayscale image to
//! pure black/white at a caller-chosen block scale.
//!
//! The working buffer is downsampled by the scale (block means), a
//! row-major diffusion pass binarizes each working pixel at threshold
//! 127.5 and passes an eighth of the quantization error to each of six
//! forward neighbors (three quarters of the error in all; the rest is
//! dropped by design), and the binarized buffer is upsampled back.
//! Accumulation is exact integer arithmetic; each eighth-share is
//! truncated toward zero.

use vstd::prelude::*;
use vstd::arithmetic::div_mod::lemma_fundamental_div_mod;
use crate::gray::GrayImage;
use crate::gray::lemma_row_major_index_in_range;

verus! {

/// Pixels per working cell on an axis of `size` pixels at scale `s`:
/// `ceil(size / s)`.
pub open spec fn work_axis(size: int, s: int) -> int {
    (size + s - 1) / s
}

/// An accumulated value clamped to the representable intensity range.
pub open spec fn clamp255(v: int) -> int {
    if v < 0 {
        0
    } else if v > 255 {
        255
    } else {
        v
    }
}

/// Binarization at threshold 127.5: a clamped value of 128 or more turns
/// white, anything below turns black.
pub open spec fn quant(old: int) -> u8 {
    if old >= 128 {
        255u8
    } else {
        0u8
    }
}

/// One eighth of the quantization error `old - quant(old)`, truncated
/// toward zero.
pub open spec fn diffused_share(old: int) -> int {
    if old >= 128 {
        -((255 - old) / 8)
    } else {
        old / 8
    }
}

/// Adds `e` to each in-bounds neighbor of working pixel `i` (at `(x, y)`
/// of a `w * h` buffer): `(x+1,y)`, `(x+2,y)`, `(x-1,y+1)`, `(x,y+1)`,
/// `(x+1,y+1)`, `(x,y+2)`.
pub open spec fn diffuse(errs: Seq<int>, i: int, w: int, h: int, e: int) -> Seq<int> {
    let x = i % w;
    let y = i / w;
    let s1 = if x + 1 < w {
        errs.update(i + 1, errs[i + 1] + e)
    } else {
        errs
    };
    let s2 = if x + 2 < w {
        s1.update(i + 2, s1[i + 2] + e)
    } else {
        s1
    };
    let s3 = if y + 1 < h && x > 0 {
        s2.update(i + w - 1, s2[i + w - 1] + e)
    } else {
        s2
    };
    let s4 = if y + 1 < h {
        s3.update(i + w, s3[i + w] + e)
    } else {
        s3
    };
    let s5 = if y + 1 < h && x + 1 < w {
        s4.update(i + w + 1, s4[i + w + 1] + e)
    } else {
        s4
    };
    if y + 2 < h {
        s5.update(i + 2 * w, s5[i + 2 * w] + e)
    } else {
        s5
    }
}

/// The diffusion pass from working pixel `i` on: binarizes each pixel in
/// row-major order, diffusing its error forward, and appends the results
/// to `out`.
pub open spec fn atkinson_from(errs: Seq<int>, out: Seq<u8>, i: int, w: int, h: int) -> Seq<u8>
    decreases w * h - i,
{
    if i < 0 || i >= w * h || errs.len() != w * h {
        out
    } else {
        let old = clamp255(errs[i]);
        atkinson_from(
            diffuse(errs, i, w, h, diffused_share(old)),
            out.push(quant(old)),
            i + 1,
            w,
            h,
        )
    }
}

/// In-bounds width of working block `bx`: `s`, or what remains of the
/// axis for a partial block at the edge.
pub open spec fn block_w(size: int, s: int, b: int) -> int {
    if (b + 1) * s <= size {
        s
    } else {
        size - b * s
    }
}

/// Sum of `n` samples of row `y` starting at column `x0`.
pub open spec fn row_sum(pixels: Seq<u8>, w: int, y: int, x0: int, n: int) -> int
    decreases n,
{
    if n <= 0 {
        0
    } else {
        row_sum(pixels, w, y, x0, n - 1) + pixels[y * w + x0 + n - 1]
    }
}

/// Sum of the first `m` rows of block `(bx, by)` at scale `s`, each row
/// `block_w` samples wide.
pub open spec fn block_sum(pixels: Seq<u8>, w: int, s: int, bx: int, by: int, m: int) -> int
    decreases m,
{
    if m <= 0 {
        0
    } else {
        block_sum(pixels, w, s, bx, by, m - 1) + row_sum(
            pixels,
            w,
            by * s + m - 1,
            bx * s,
            block_w(w, s, bx),
        )
    }
}

/// Initial accumulator value of working pixel `i`: the source sample
/// itself at scale 1, else the rounded-down mean of the in-bounds samples
/// of its block.
pub open spec fn init_val(pixels: Seq<u8>, w: int, h: int, s: int, i: int) -> int {
    let ww = work_axis(w, s);
    let bx = i % ww;
    let by = i / ww;
    if s == 1 {
        pixels[i] as int
    } else {
        block_sum(pixels, w, s, bx, by, block_w(h, s, by)) / (block_w(w, s, bx) * block_w(
            h,
            s,
            by,
        ))
    }
}

/// The fully diffused working buffer of a `w * h` image at scale `s`.
pub open spec fn dither_work(pixels: Seq<u8>, w: int, h: int, s: int) -> Seq<u8> {
    let ww = work_axis(w, s);
    let wh = work_axis(h, s);
    atkinson_from(
        Seq::new((ww * wh) as nat, |i: int| init_val(pixels, w, h, s, i)),
        Seq::empty(),
        0,
        ww,
        wh,
    )
}

/// Output pixel `(x, y)`: the binarized value of its working pixel.
pub open spec fn dither_pixel(pixels: Seq<u8>, w: int, h: int, s: int, x: int, y: int) -> u8 {
    let ww = work_axis(w, s);
    let wh = work_axis(h, s);
    let bx = if x / s < ww - 1 {
        x / s
    } else {
        ww - 1
    };
    let by = if y / s < wh - 1 {
        y / s
    } else {
        wh - 1
    };
    dither_work(pixels, w, h, s)[by * ww + bx]
}

/// The scale actually used: a requested scale of zero falls back to 1.
pub open spec fn effective_scale(scale: u32) -> int {
    if scale < 1 {
        1
    } else {
        scale as int
    }
}

/// Sequence of accumulator values as mathematical integers.
pub open spec fn seq_to_int(s: Seq<i128>) -> Seq<int> {
    Seq::new(s.len(), |i: int| s[i] as int)
}

/// Sum of the first `n` accumulator values.
pub open spec fn err_total(s: Seq<int>, n: int) -> int
    decreases n,
{
    if n <= 0 {
        0
    } else {
        err_total(s, n - 1) + s[n - 1]
    }
}

proof fn lemma_err_total_update(s: Seq<int>, k: int, v: int, n: int)
    requires
        0 <= k < n <= s.len(),
    ensures
        err_total(s.update(k, v), n) == err_total(s, n) - s[k] + v,
    decreases n,
{
    if n > 0 {
        if k == n - 1 {
            assert(forall|j: int| 0 <= j < n - 1 ==> s.update(k, v)[j] == s[j]);
            lemma_err_total_congruence(s.update(k, v), s, n - 1);
        } else {
            lemma_err_total_update(s, k, v, n - 1);
        }
    }
}

proof fn lemma_err_total_congruence(a: Seq<int>, b: Seq<int>, n: int)
    requires
        n <= a.len(),
        n <= b.len(),
        forall|j: int| 0 <= j < n ==> a[j] == b[j],
    ensures
        err_total(a, n) == err_total(b, n),
    decreases n,
{
    if n > 0 {
        lemma_err_total_congruence(a, b, n - 1);
    }
}

/// An interior working pixel passes exactly six eighth-shares on: summed
/// over the whole buffer, diffusing `e` from a pixel with two columns of
/// room to the right, one to the left and two rows below adds `6 * e` —
/// three quarters of the full error `8 * e`, the designed loss being the
/// remaining quarter.
pub proof fn lemma_diffuse_conserves_six_shares(errs: Seq<int>, i: int, w: int, h: int, e: int)
    requires
        errs.len() == w * h,
        0 <= i,
        1 <= i % w,
        i % w + 2 < w,
        i / w + 2 < h,
    ensures
        err_total(diffuse(errs, i, w, h, e), w * h) == err_total(errs, w * h) + 6 * e,
{
    let x = i % w;
    let y = i / w;
    lemma_fundamental_div_mod(i, w);
    assert(i + 2 * w < w * h && i + w + 1 < w * h && 0 <= i + w - 1) by (nonlinear_arith)
        requires
            i == w * y + x,
            0 <= x,
            x + 2 < w,
            y + 2 < h,
            0 <= i,
    ;
    let s1 = errs.update(i + 1, errs[i + 1] + e);
    let s2 = s1.update(i + 2, s1[i + 2] + e);
    let s3 = s2.update(i + w - 1, s2[i + w - 1] + e);
    let s4 = s3.update(i + w, s3[i + w] + e);
    let s5 = s4.update(i + w + 1, s4[i + w + 1] + e);
    let s6 = s5.update(i + 2 * w, s5[i + 2 * w] + e);
    lemma_err_total_update(errs, i + 1, errs[i + 1] + e, w * h);
    lemma_err_total_update(s1, i + 2, s1[i + 2] + e, w * h);
    lemma_err_total_update(s2, i + w - 1, s2[i + w - 1] + e, w * h);
    lemma_err_total_update(s3, i + w, s3[i + w] + e, w * h);
    lemma_err_total_update(s4, i + w + 1, s4[i + w + 1] + e, w * h);
    lemma_err_total_update(s5, i + 2 * w, s5[i + 2 * w] + e, w * h);
    assert(diffuse(errs, i, w, h, e) == s6);
}

/// Division facts for the working grid: `ceil(size / s)` cells of `s`
/// pixels cover the axis, the last cell starting inside it.
proof fn lemma_work_axis_bounds(size: int, s: int)
    requires
        1 <= s,
        0 <= size,
    ensures
        0 <= work_axis(size, s) <= size,
        size <= work_axis(size, s) * s,
        size >= 1 ==> 1 <= work_axis(size, s),
        size >= 1 ==> (work_axis(size, s) - 1) * s < size,
{
    let q = work_axis(size, s);
    lemma_fundamental_div_mod(size + s - 1, s);
    let r = (size + s - 1) % s;
    assert(size + s - 1 == s * q + r);
    assert(q * s == size + s - 1 - r) by (nonlinear_arith)
        requires
            size + s - 1 == s * q + r,
    ;
    assert(q >= 0) by (nonlinear_arith)
        requires
            q * s >= size,
            1 <= s,
            0 <= size,
    ;
    assert(q <= size) by (nonlinear_arith)
        requires
            q * s <= size + s - 1,
            1 <= s,
            0 <= size,
            0 <= q,
    ;
    if size >= 1 {
        assert(q >= 1) by (nonlinear_arith)
            requires
                q * s >= size,
                1 <= s,
                1 <= size,
                0 <= q,
        ;
        assert((q - 1) * s < size) by (nonlinear_arith)
            requires
                q * s <= size + s - 1,
                1 <= s,
        ;
    }
}

/// Builds the initial working buffer: the source samples themselves at
/// scale 1, else the rounded-down mean of each block's in-bounds samples.
fn build_work(image: &GrayImage, s: u32) -> (work: Vec<i128>)
    requires
        image.wf(),
        s >= 1,
    ensures
        work@.len() == work_axis(image.spec_width() as int, s as int) * work_axis(
            image.spec_height() as int,
            s as int,
        ),
        forall|j: int| 0 <= j < work@.len() ==> #[trigger] work@[j] == init_val(
            image@,
            image.spec_width() as int,
            image.spec_height() as int,
            s as int,
            j,
        ),
        forall|j: int| 0 <= j < work@.len() ==> 0 <= #[trigger] work@[j] <= 255,
{
    let w_img: u32 = image.width();
    let h_img: u32 = image.height();
    let ghost wi = w_img as int;
    let ghost hi = h_img as int;
    let ghost si = s as int;
    proof {
        lemma_work_axis_bounds(wi, si);
        lemma_work_axis_bounds(hi, si);
    }
    if s == 1 {
        let n: usize = image.len();
        let mut work: Vec<i128> = Vec::new();
        let mut i: usize = 0;
        while i < n
            invariant
                i <= n,
                n == image@.len(),
                image.wf(),
                work@.len() == i,
                forall|j: int| 0 <= j < i ==> #[trigger] work@[j] == image@[j],
            decreases n - i,
        {
            let v: u8 = image.sample(i);
            work.push(v as i128);
            i = i + 1;
        }
        work
    } else {
        let ww: u64 = (w_img as u64 + s as u64 - 1) / s as u64;
        let wh: u64 = (h_img as u64 + s as u64 - 1) / s as u64;
        proof {
            assert(ww * wh < 0x1_0000_0000_0000_0000) by (nonlinear_arith)
                requires
                    0 <= ww <= 0xffff_ffffu32,
                    0 <= wh <= 0xffff_ffffu32,
            ;
        }
        let n: u64 = ww * wh;
        let mut work: Vec<i128> = Vec::new();
        let mut i: u64 = 0;
        while i < n
            invariant
                i <= n,
                n == ww * wh,
                s >= 2,
                ww == work_axis(wi, si),
                wh == work_axis(hi, si),
                wi == image.spec_width(),
                hi == image.spec_height(),
                wi == w_img,
                hi == h_img,
                si == s,
                image.wf(),
                work@.len() == i,
                forall|j: int| 0 <= j < i ==> #[trigger] work@[j] == init_val(
                    image@,
                    wi,
                    hi,
                    si,
                    j,
                ),
                forall|j: int| 0 <= j < i ==> 0 <= #[trigger] work@[j] <= 255,
            decreases n - i,
        {
            proof {
                assert(ww >= 1 && wh >= 1) by (nonlinear_arith)
                    requires
                        i < ww * wh,
                        0 <= i,
                        0 <= ww,
                        0 <= wh,
                ;
                lemma_work_axis_bounds(wi, si);
                lemma_work_axis_bounds(hi, si);
            }
            let bx: u64 = i % ww;
            let by: u64 = i / ww;
            proof {
                lemma_fundamental_div_mod(i as int, ww as int);
                assert(by < wh) by (nonlinear_arith)
                    requires
                        i == ww * by + bx,
                        0 <= bx < ww,
                        i < ww * wh,
                        1 <= ww,
                ;
                assert(bx * si < wi && by * si < hi && bx * si + si <= 0xffff_ffff_0000_0000u64
                    && by * si + si <= 0xffff_ffff_0000_0000u64) by (nonlinear_arith)
                    requires
                        0 <= bx <= work_axis(wi, si) - 1,
                        0 <= by <= work_axis(hi, si) - 1,
                        (work_axis(wi, si) - 1) * si < wi,
                        (work_axis(hi, si) - 1) * si < hi,
                        work_axis(wi, si) >= 1,
                        work_axis(hi, si) >= 1,
                        1 <= si <= 0xffff_ffffu32,
                        wi <= 0xffff_ffffu32,
                        hi <= 0xffff_ffffu32,
                ;
            }
            let bxs: u64 = bx * s as u64;
            let bys: u64 = by * s as u64;
            let bw: u64 = if bxs + s as u64 <= w_img as u64 {
                s as u64
            } else {
                w_img as u64 - bxs
            };
            let bh: u64 = if bys + s as u64 <= h_img as u64 {
                s as u64
            } else {
                h_img as u64 - bys
            };
            proof {
                assert((bx + 1) * si == bx * si + si && (by + 1) * si == by * si + si)
                    by (nonlinear_arith);
                assert(bw == block_w(wi, si, bx as int));
                assert(bh == block_w(hi, si, by as int));
            }
            let mut sum: u128 = 0;
            let mut dy: u64 = 0;
            while dy < bh
                invariant
                    dy <= bh,
                    1 <= bw <= w_img,
                    1 <= bh <= h_img,
                    bxs == bx * si,
                    bys == by * si,
                    bxs + bw <= wi,
                    bys + bh <= hi,
                    bw == block_w(wi, si, bx as int),
                    bh == block_w(hi, si, by as int),
                    wi == image.spec_width(),
                    hi == image.spec_height(),
                    image.wf(),
                    sum == block_sum(image@, wi, si, bx as int, by as int, dy as int),
                    sum <= 255 * (dy * bw),
                decreases bh - dy,
            {
                let y: u64 = bys + dy;
                let mut rs: u64 = 0;
                let mut dx: u64 = 0;
                while dx < bw
                    invariant
                        dx <= bw,
                        1 <= bw,
                        y == bys + dy,
                        bxs + bw <= wi,
                        bys + bh <= hi,
                        dy < bh,
                        wi == image.spec_width(),
                        hi == image.spec_height(),
                        image.wf(),
                        rs == row_sum(image@, wi, y as int, bxs as int, dx as int),
                        rs <= 255 * dx,
                    decreases bw - dx,
                {
                    let px: u8 = image.get((bxs + dx) as u32, y as u32);
                    proof {
                        lemma_row_major_index_in_range(wi, hi, bxs as int + dx, y as int);
                    }
                    rs = rs + px as u64;
                    dx = dx + 1;
                }
                proof {
                    assert(255 * ((dy + 1) * bw) == 255 * (dy * bw) + 255 * bw)
                        by (nonlinear_arith);
                    assert((dy + 1) * bw <= 0xffff_ffff_ffff_ffffu64) by (nonlinear_arith)
                        requires
                            0 <= dy,
                            dy + 1 <= 0xffff_ffffu64,
                            0 <= bw <= 0xffff_ffffu64,
                    ;
                }
                sum = sum + rs as u128;
                dy = dy + 1;
            }
            proof {
                assert(1 <= bw * bh && bw * bh <= 0xffff_ffff_ffff_ffffu64 && 255 * (bh * bw)
                    <= 255 * (bw * bh)) by (nonlinear_arith)
                    requires
                        1 <= bw <= 0xffff_ffffu32,
                        1 <= bh <= 0xffff_ffffu32,
                ;
            }
            let count: u64 = bw * bh;
            proof {
            }
            let mean: u128 = sum / count as u128;
            proof {
                assert(sum / (count as u128) <= 255) by (nonlinear_arith)
                    requires
                        0 <= sum <= 255 * count,
                        1 <= count,
                ;
                assert(mean == init_val(image@, wi, hi, si, i as int));
            }
            work.push(mean as i128);
            i = i + 1;
        }
        work
    }
}

/// Diffusion never changes the buffer's length.
proof fn lemma_diffuse_len(errs: Seq<int>, i: int, w: int, h: int, e: int)
    requires
        errs.len() == w * h,
        0 <= i < w * h,
        0 <= w,
        0 <= h,
    ensures
        diffuse(errs, i, w, h, e).len() == errs.len(),
{
    assert(w >= 1 && h >= 1) by (nonlinear_arith)
        requires
            i < w * h,
            0 <= i,
            0 <= w,
            0 <= h,
    ;
    let x = i % w;
    let y = i / w;
    lemma_fundamental_div_mod(i, w);
    vstd::arithmetic::div_mod::lemma_mod_division_less_than_divisor(i, w);
    assert(0 <= y < h) by (nonlinear_arith)
        requires
            i == w * y + x,
            0 <= x < w,
            0 <= i < w * h,
            1 <= w,
    ;
    assert((x + 1 < w ==> i + 1 < w * h) && (x + 2 < w ==> i + 2 < w * h) && (y + 1 < h && x > 0
        ==> 0 <= i + w - 1 < w * h) && (y + 1 < h ==> i + w < w * h) && (y + 1 < h && x + 1 < w
        ==> i + w + 1 < w * h) && (y + 2 < h ==> i + 2 * w < w * h)) by (nonlinear_arith)
        requires
            i == w * y + x,
            0 <= x < w,
            0 <= y < h,
            1 <= w,
    ;
}

/// The diffusion pass emits only 0 and 255 and one value per working
/// pixel.
pub proof fn lemma_atkinson_bilevel(errs: Seq<int>, out: Seq<u8>, i: int, w: int, h: int)
    requires
        forall|k: int| 0 <= k < out.len() ==> out[k] == 0 || out[k] == 255,
    ensures
        forall|k: int|
            0 <= k < atkinson_from(errs, out, i, w, h).len() ==> atkinson_from(
                errs,
                out,
                i,
                w,
                h,
            )[k] == 0 || atkinson_from(errs, out, i, w, h)[k] == 255,
    decreases w * h - i,
{
    if !(i < 0 || i >= w * h || errs.len() != w * h) {
        let old = clamp255(errs[i]);
        let d = diffuse(errs, i, w, h, diffused_share(old));
        let o2 = out.push(quant(old));
        assert(forall|k: int| 0 <= k < o2.len() ==> o2[k] == 0 || o2[k] == 255);
        lemma_atkinson_bilevel(d, o2, i + 1, w, h);
        assert(atkinson_from(errs, out, i, w, h) == atkinson_from(d, o2, i + 1, w, h));
    } else {
        assert(atkinson_from(errs, out, i, w, h) == out);
    }
}

/// Adds `e` to each in-bounds neighbor of working pixel `i`, keeping the
/// accumulator buffer equal to its `diffuse` image.
fn diffuse_step(errors: &mut Vec<i128>, i: usize, w: u32, h: u32, e: i32, Ghost(b): Ghost<int>)
    requires
        old(errors)@.len() == w * h,
        i < old(errors)@.len(),
        -31 <= e <= 31,
        0 <= b,
        b + 186 < 0x1000_0000_0000_0000_0000_0000_0000,
        forall|j: int| 0 <= j < old(errors)@.len() ==> -b <= #[trigger] old(errors)@[j] <= b,
    ensures
        final(errors)@.len() == old(errors)@.len(),
        seq_to_int(final(errors)@) == diffuse(
            seq_to_int(old(errors)@),
            i as int,
            w as int,
            h as int,
            e as int,
        ),
        forall|j: int|
            0 <= j < final(errors)@.len() ==> -(b + 186) <= #[trigger] final(errors)@[j] <= b
                + 186,
{
    proof {
        assert(w >= 1 && h >= 1) by (nonlinear_arith)
            requires
                i < w * h,
                0 <= i,
        ;
    }
    let x: u64 = i as u64 % w as u64;
    let y: u64 = i as u64 / w as u64;
    let n: usize = errors.len();
    proof {
        lemma_fundamental_div_mod(i as int, w as int);
        assert(y < h) by (nonlinear_arith)
            requires
                i == w * y + x,
                0 <= x < w,
                i < w * h,
                1 <= w,
        ;
        assert((x + 1 < w ==> i + 1 < w * h) && (x + 2 < w ==> i + 2 < w * h) && (y + 1 < h && x
            > 0 ==> 0 <= i + w - 1 < w * h) && (y + 1 < h ==> i + w < w * h) && (y + 1 < h && x
            + 1 < w ==> i + w + 1 < w * h) && (y + 2 < h ==> i + 2 * w < w * h))
            by (nonlinear_arith)
            requires
                i == w * y + x,
                0 <= x < w,
                0 <= y < h,
                1 <= w,
        ;
    }
    let ghost e0 = seq_to_int(errors@);
    if x + 1 < w as u64 {
        let v: i128 = errors[i + 1];
        errors.set(i + 1, v + e as i128);
    }
    proof {
        assert(forall|j: int|
            0 <= j < errors@.len() ==> -(b + 31) <= #[trigger] errors@[j] <= b + 31);
    }
    let ghost s1 = seq_to_int(errors@);
    proof {
        assert(s1 =~= if x + 1 < w {
            e0.update(i + 1, e0[i as int + 1] + e)
        } else {
            e0
        });
    }
    if x + 2 < w as u64 {
        let v: i128 = errors[i + 2];
        errors.set(i + 2, v + e as i128);
    }
    proof {
        assert(forall|j: int|
            0 <= j < errors@.len() ==> -(b + 62) <= #[trigger] errors@[j] <= b + 62);
    }
    let ghost s2 = seq_to_int(errors@);
    proof {
        assert(s2 =~= if x + 2 < w {
            s1.update(i + 2, s1[i as int + 2] + e)
        } else {
            s1
        });
    }
    if y + 1 < h as u64 && x > 0 {
        let v: i128 = errors[i + w as usize - 1];
        errors.set(i + w as usize - 1, v + e as i128);
    }
    proof {
        assert(forall|j: int|
            0 <= j < errors@.len() ==> -(b + 93) <= #[trigger] errors@[j] <= b + 93);
    }
    let ghost s3 = seq_to_int(errors@);
    proof {
        assert(s3 =~= if y + 1 < h && x > 0 {
            s2.update(i + w - 1, s2[i + w - 1] + e)
        } else {
            s2
        });
    }
    if y + 1 < h as u64 {
        let v: i128 = errors[i + w as usize];
        errors.set(i + w as usize, v + e as i128);
    }
    proof {
        assert(forall|j: int|
            0 <= j < errors@.len() ==> -(b + 124) <= #[trigger] errors@[j] <= b + 124);
    }
    let ghost s4 = seq_to_int(errors@);
    proof {
        assert(s4 =~= if y + 1 < h {
            s3.update(i + w, s3[i + w as int] + e)
        } else {
            s3
        });
    }
    if y + 1 < h as u64 && x + 1 < w as u64 {
        let v: i128 = errors[i + w as usize + 1];
        errors.set(i + w as usize + 1, v + e as i128);
    }
    proof {
        assert(forall|j: int|
            0 <= j < errors@.len() ==> -(b + 155) <= #[trigger] errors@[j] <= b + 155);
    }
    let ghost s5 = seq_to_int(errors@);
    proof {
        assert(s5 =~= if y + 1 < h && x + 1 < w {
            s4.update(i + w + 1, s4[i + w as int + 1] + e)
        } else {
            s4
        });
    }
    if y + 2 < h as u64 {
        let v: i128 = errors[i + 2 * w as usize];
        errors.set(i + 2 * w as usize, v + e as i128);
    }
    proof {
        assert(seq_to_int(errors@) =~= if y + 2 < h {
            s5.update(i + 2 * w, s5[i + 2 * w as int] + e)
        } else {
            s5
        });
        assert(i as int % w as int == x && i as int / w as int == y);
    }
}

/// Runs the row-major diffusion pass over a working buffer of `w * h`
/// accumulators, returning the binarized values.
fn atkinson_pass(work: Vec<i128>, w: u32, h: u32) -> (out: Vec<u8>)
    requires
        work@.len() == w * h,
        forall|j: int| 0 <= j < work@.len() ==> 0 <= #[trigger] work@[j] <= 255,
    ensures
        out@ == atkinson_from(seq_to_int(work@), Seq::<u8>::empty(), 0, w as int, h as int),
        out@.len() == work@.len(),
{
    let ghost einit = seq_to_int(work@);
    let mut errors = work;
    let mut out: Vec<u8> = Vec::new();
    let n: usize = errors.len();
    let mut i: usize = 0;
    proof {
        lemma_atkinson_len(einit, Seq::<u8>::empty(), 0, w as int, h as int);
    }
    while i < n
        invariant
            i <= n,
            n == w * h,
            errors@.len() == n,
            out@.len() == i,
            forall|j: int| 0 <= j < n ==> -(255 + 186 * (i as int)) <= #[trigger] errors@[j]
                <= 255 + 186 * (i as int),
            atkinson_from(seq_to_int(errors@), out@, i as int, w as int, h as int)
                == atkinson_from(einit, Seq::<u8>::empty(), 0, w as int, h as int),
        decreases n - i,
    {
        let v: i128 = errors[i];
        let old_val: u32 = if v < 0 {
            0
        } else if v > 255 {
            255
        } else {
            v as u32
        };
        let q: u8 = if old_val >= 128 {
            255
        } else {
            0
        };
        let e: i32 = if old_val >= 128 {
            -(((255 - old_val) / 8) as i32)
        } else {
            (old_val / 8) as i32
        };
        let ghost ecur = seq_to_int(errors@);
        let ghost ocur = out@;
        proof {
            assert(old_val == clamp255(ecur[i as int]));
            assert(q == quant(old_val as int));
            assert(e as int == diffused_share(old_val as int));
        }
        diffuse_step(&mut errors, i, w, h, e, Ghost(255 + 186 * (i as int)));
        out.push(q);
        proof {
            assert(atkinson_from(ecur, ocur, i as int, w as int, h as int) == atkinson_from(
                seq_to_int(errors@),
                out@,
                i as int + 1,
                w as int,
                h as int,
            ));
        }
        i = i + 1;
    }
    out
}

/// The diffusion pass appends exactly one value per remaining working
/// pixel.
pub proof fn lemma_atkinson_len(errs: Seq<int>, out: Seq<u8>, i: int, w: int, h: int)
    requires
        errs.len() == w * h,
        0 <= i <= w * h,
        0 <= w,
        0 <= h,
    ensures
        atkinson_from(errs, out, i, w, h).len() == out.len() + (w * h - i),
    decreases w * h - i,
{
    if i < w * h {
        let old = clamp255(errs[i]);
        let d = diffuse(errs, i, w, h, diffused_share(old));
        lemma_diffuse_len(errs, i, w, h, diffused_share(old));
        lemma_atkinson_len(d, out.push(quant(old)), i + 1, w, h);
    }
}

/// Atkinson dithering at block scale `scale` (a scale of zero acts as 1):
/// a new image of the same size holding only 0 and 255, each pixel the
/// binarized value of its working pixel after the diffusion pass.
pub fn dither_atkinson(image: &GrayImage, scale: u32) -> (out: GrayImage)
    requires
        image.wf(),
    ensures
        out.wf(),
        out.spec_width() == image.spec_width(),
        out.spec_height() == image.spec_height(),
        forall|x: int, y: int|
            0 <= x < image.spec_width() && 0 <= y < image.spec_height() ==> #[trigger] out.pix(
                x,
                y,
            ) == dither_pixel(
                image@,
                image.spec_width() as int,
                image.spec_height() as int,
                effective_scale(scale),
                x,
                y,
            ),
        forall|i: int| 0 <= i < out@.len() ==> #[trigger] out@[i] == 0 || out@[i] == 255,
{
    let s: u32 = if scale < 1 {
        1
    } else {
        scale
    };
    let w_img: u32 = image.width();
    let h_img: u32 = image.height();
    let ghost wi = w_img as int;
    let ghost hi = h_img as int;
    let ghost si = s as int;
    proof {
        lemma_work_axis_bounds(wi, si);
        lemma_work_axis_bounds(hi, si);
    }
    let ww: u32 = ((w_img as u64 + s as u64 - 1) / s as u64) as u32;
    let wh: u32 = ((h_img as u64 + s as u64 - 1) / s as u64) as u32;
    let work = build_work(image, s);
    let ghost winit = seq_to_int(work@);
    proof {
        assert(winit =~= Seq::new(
            (work_axis(wi, si) * work_axis(hi, si)) as nat,
            |j: int| init_val(image@, wi, hi, si, j),
        ));
        lemma_atkinson_len(winit, Seq::<u8>::empty(), 0, ww as int, wh as int);
        lemma_atkinson_bilevel(winit, Seq::<u8>::empty(), 0, ww as int, wh as int);
    }
    let dith = atkinson_pass(work, ww, wh);
    let total: usize = image.len();
    let mut pixels: Vec<u8> = Vec::new();
    let mut i: usize = 0;
    while i < total
        invariant
            i <= total,
            total == wi * hi,
            wi == image.spec_width(),
            hi == image.spec_height(),
            wi == w_img,
            hi == h_img,
            si == effective_scale(scale),
            si == s,
            1 <= si,
            ww == work_axis(wi, si),
            wh == work_axis(hi, si),
            0 <= ww <= wi,
            0 <= wh <= hi,
            image.wf(),
            dith@ == dither_work(image@, wi, hi, si),
            dith@.len() == ww * wh,
            forall|k: int| 0 <= k < dith@.len() ==> #[trigger] dith@[k] == 0 || dith@[k] == 255,
            pixels@.len() == i,
            forall|j: int| 0 <= j < i ==> #[trigger] pixels@[j] == dither_pixel(
                image@,
                wi,
                hi,
                si,
                j % wi,
                j / wi,
            ),
            forall|j: int| 0 <= j < i ==> #[trigger] pixels@[j] == 0 || pixels@[j] == 255,
        decreases total - i,
    {
        proof {
            assert(w_img >= 1 && h_img >= 1) by (nonlinear_arith)
                requires
                    i < wi * hi,
                    0 <= i,
                    0 <= wi,
                    0 <= hi,
                    wi == w_img,
                    hi == h_img,
            ;
            lemma_work_axis_bounds(wi, si);
            lemma_work_axis_bounds(hi, si);
        }
        let x: u64 = i as u64 % w_img as u64;
        let y: u64 = i as u64 / w_img as u64;
        proof {
            lemma_fundamental_div_mod(i as int, wi);
            assert(y < hi) by (nonlinear_arith)
                requires
                    i == wi * y + x,
                    0 <= x < wi,
                    i < wi * hi,
                    1 <= wi,
            ;
        }
        let bxq: u64 = x / s as u64;
        let bx: u64 = if bxq < ww as u64 - 1 {
            bxq
        } else {
            ww as u64 - 1
        };
        let byq: u64 = y / s as u64;
        let by: u64 = if byq < wh as u64 - 1 {
            byq
        } else {
            wh as u64 - 1
        };
        proof {
            lemma_row_major_index_in_range(ww as int, wh as int, bx as int, by as int);
            assert(by * ww + bx < 0x1_0000_0000_0000_0000) by (nonlinear_arith)
                requires
                    0 <= by <= 0xffff_ffffu64,
                    0 <= ww <= 0xffff_ffffu32,
                    0 <= bx <= 0xffff_ffffu64,
            ;
        }
        let k: u64 = by * ww as u64 + bx;
        let v: u8 = dith[k as usize];
        pixels.push(v);
        i = i + 1;
    }
    let out = GrayImage::from_vec(w_img, h_img, pixels).unwrap();
    proof {
        assert forall|x: int, y: int|
            0 <= x < wi && 0 <= y < hi implies #[trigger] out.pix(x, y) == dither_pixel(
            image@,
            wi,
            hi,
            si,
            x,
            y,
        ) by {
            lemma_row_major_index_in_range(wi, hi, x, y);
            vstd::arithmetic::div_mod::lemma_fundamental_div_mod_converse(y * wi + x, wi, y, x);
        }
    }
    out
}

/// Diffusing a zero error changes nothing.
proof fn lemma_diffuse_zero(errs: Seq<int>, i: int, w: int, h: int)
    requires
        errs.len() == w * h,
        0 <= i < w * h,
        0 <= w,
        0 <= h,
    ensures
        diffuse(errs, i, w, h, 0) == errs,
{
    assert(w >= 1 && h >= 1) by (nonlinear_arith)
        requires
            i < w * h,
            0 <= i,
            0 <= w,
            0 <= h,
    ;
    let x = i % w;
    let y = i / w;
    lemma_fundamental_div_mod(i, w);
    vstd::arithmetic::div_mod::lemma_mod_division_less_than_divisor(i, w);
    assert(0 <= y < h) by (nonlinear_arith)
        requires
            i == w * y + x,
            0 <= x < w,
            0 <= i < w * h,
            1 <= w,
    ;
    assert((x + 1 < w ==> i + 1 < w * h) && (x + 2 < w ==> i + 2 < w * h) && (y + 1 < h && x > 0
        ==> 0 <= i + w - 1 < w * h) && (y + 1 < h ==> i + w < w * h) && (y + 1 < h && x + 1 < w
        ==> i + w + 1 < w * h) && (y + 2 < h ==> i + 2 * w < w * h)) by (nonlinear_arith)
        requires
            i == w * y + x,
            0 <= x < w,
            0 <= y < h,
            1 <= w,
    ;
    assert(diffuse(errs, i, w, h, 0) =~= errs);
}

proof fn lemma_row_sum_const(pixels: Seq<u8>, w: int, y: int, x0: int, n: int, v: u8)
    requires
        forall|i: int| 0 <= i < pixels.len() ==> pixels[i] == v,
        0 <= y * w + x0,
        y * w + x0 + n <= pixels.len(),
        0 <= n,
    ensures
        row_sum(pixels, w, y, x0, n) == n * v,
    decreases n,
{
    if n > 0 {
        lemma_row_sum_const(pixels, w, y, x0, n - 1, v);
        assert(n * v == (n - 1) * v + v) by (nonlinear_arith);
    } else {
        assert(n * v == 0) by (nonlinear_arith)
            requires
                n == 0,
        ;
    }
}

proof fn lemma_block_sum_const(
    pixels: Seq<u8>,
    w: int,
    h: int,
    s: int,
    bx: int,
    by: int,
    m: int,
    v: u8,
)
    requires
        forall|i: int| 0 <= i < pixels.len() ==> pixels[i] == v,
        pixels.len() == w * h,
        1 <= s,
        0 <= bx,
        0 <= by,
        bx * s + block_w(w, s, bx) <= w,
        0 <= bx * s,
        1 <= block_w(w, s, bx),
        0 <= m,
        by * s + m <= h,
    ensures
        block_sum(pixels, w, s, bx, by, m) == m * block_w(w, s, bx) * v,
    decreases m,
{
    let bw = block_w(w, s, bx);
    if m > 0 {
        lemma_block_sum_const(pixels, w, h, s, bx, by, m - 1, v);
        let y = by * s + m - 1;
        assert(0 <= y * w && y * w + bx * s + bw <= w * h) by (nonlinear_arith)
            requires
                0 <= y,
                y < h,
                bx * s + bw <= w,
                0 <= bx * s,
                1 <= w,
        ;
        assert(0 <= y && y < h && 1 <= w) by (nonlinear_arith)
            requires
                y == by * s + m - 1,
                0 <= by,
                1 <= s,
                1 <= m,
                by * s + m <= h,
                1 <= bw,
                bx * s + bw <= w,
                0 <= bx * s,
        ;
        lemma_row_sum_const(pixels, w, y, bx * s, bw, v);
        assert(m * bw * v == (m - 1) * bw * v + bw * v) by (nonlinear_arith);
    } else {
        assert(m * bw * v == 0) by (nonlinear_arith)
            requires
                m == 0,
        ;
    }
}

/// On an all-`v` image every initial accumulator is exactly `v`: a block
/// mean of a constant is that constant.
proof fn lemma_init_const(pixels: Seq<u8>, w: int, h: int, s: int, v: u8, j: int)
    requires
        forall|i: int| 0 <= i < pixels.len() ==> pixels[i] == v,
        pixels.len() == w * h,
        1 <= s,
        0 <= w,
        0 <= h,
        0 <= j < work_axis(w, s) * work_axis(h, s),
    ensures
        init_val(pixels, w, h, s, j) == v,
{
    let ww = work_axis(w, s);
    let wh = work_axis(h, s);
    lemma_work_axis_bounds(w, s);
    lemma_work_axis_bounds(h, s);
    assert(ww >= 1 && wh >= 1) by (nonlinear_arith)
        requires
            j < ww * wh,
            0 <= j,
            0 <= ww,
            0 <= wh,
    ;
    let bx = j % ww;
    let by = j / ww;
    lemma_fundamental_div_mod(j, ww);
    assert(by < wh) by (nonlinear_arith)
        requires
            j == ww * by + bx,
            0 <= bx < ww,
            j < ww * wh,
            1 <= ww,
    ;
    if s == 1 {
        assert(w >= 1) by (nonlinear_arith)
            requires
                1 <= ww <= w,
        ;
        assert(j < w * h) by (nonlinear_arith)
            requires
                j < ww * wh,
                ww <= w,
                wh <= h,
                0 <= ww,
                0 <= wh,
        ;
    } else {
        assert(bx * s < w && by * s < h) by (nonlinear_arith)
            requires
                0 <= bx <= ww - 1,
                0 <= by <= wh - 1,
                (ww - 1) * s < w,
                (wh - 1) * s < h,
                1 <= ww,
                1 <= wh,
                1 <= s,
        ;
        let bw = block_w(w, s, bx);
        let bh = block_w(h, s, by);
        assert((bx + 1) * s == bx * s + s && (by + 1) * s == by * s + s) by (nonlinear_arith);
        assert(0 <= bx * s && 0 <= by * s) by (nonlinear_arith)
            requires
                0 <= bx,
                0 <= by,
                1 <= s,
        ;
        assert(bx * s + bw <= w && 1 <= bw && by * s + bh <= h && 1 <= bh);
        lemma_block_sum_const(pixels, w, h, s, bx, by, bh, v);
        assert(bh * bw * v == (bw * bh) * v) by (nonlinear_arith);
        assert(1 <= bw * bh) by (nonlinear_arith)
            requires
                1 <= bw,
                1 <= bh,
        ;
        vstd::arithmetic::div_mod::lemma_div_by_multiple(v as int, bw * bh);
        assert(((bw * bh) * v) as int / (bw * bh) == v);
    }
}

/// On an all-`v` buffer with `v` already pure black or white, the
/// diffusion pass leaves every pixel at `v`: the quantization error is
/// zero everywhere, so nothing is diffused.
proof fn lemma_atkinson_const(errs: Seq<int>, out: Seq<u8>, i: int, w: int, h: int, v: u8)
    requires
        errs.len() == w * h,
        0 <= i <= w * h,
        0 <= w,
        0 <= h,
        v == 0 || v == 255,
        forall|j: int| 0 <= j < errs.len() ==> errs[j] == v,
    ensures
        atkinson_from(errs, out, i, w, h).len() == out.len() + (w * h - i),
        forall|k: int|
            0 <= k < atkinson_from(errs, out, i, w, h).len() ==> atkinson_from(
                errs,
                out,
                i,
                w,
                h,
            )[k] == (if k < out.len() {
                out[k]
            } else {
                v
            }),
    decreases w * h - i,
{
    lemma_atkinson_len(errs, out, i, w, h);
    if i < w * h {
        let old = clamp255(errs[i]);
        assert(old == v);
        assert(quant(old) == v);
        assert(diffused_share(old) == 0);
        lemma_diffuse_zero(errs, i, w, h);
        lemma_atkinson_const(errs, out.push(quant(old)), i + 1, w, h, v);
    }
}

/// Dithering a uniformly black or uniformly white image changes nothing:
/// every output pixel keeps the input value, at any scale.
pub proof fn lemma_dither_constant(pixels: Seq<u8>, w: int, h: int, s: int, v: u8)
    requires
        forall|i: int| 0 <= i < pixels.len() ==> pixels[i] == v,
        pixels.len() == w * h,
        1 <= s,
        0 <= w,
        0 <= h,
        v == 0 || v == 255,
    ensures
        forall|x: int, y: int|
            0 <= x < w && 0 <= y < h ==> #[trigger] dither_pixel(pixels, w, h, s, x, y) == v,
{
    let ww = work_axis(w, s);
    let wh = work_axis(h, s);
    lemma_work_axis_bounds(w, s);
    lemma_work_axis_bounds(h, s);
    let init = Seq::new((ww * wh) as nat, |j: int| init_val(pixels, w, h, s, j));
    assert(0 <= ww * wh) by (nonlinear_arith)
        requires
            0 <= ww,
            0 <= wh,
    ;
    assert forall|j: int| 0 <= j < init.len() implies init[j] == v by {
        lemma_init_const(pixels, w, h, s, v, j);
    }
    lemma_atkinson_const(init, Seq::<u8>::empty(), 0, ww, wh, v);
    assert forall|x: int, y: int|
        0 <= x < w && 0 <= y < h implies #[trigger] dither_pixel(pixels, w, h, s, x, y) == v by {
        assert(ww >= 1 && wh >= 1);
        let bx = if x / s < ww - 1 {
            x / s
        } else {
            ww - 1
        };
        let by = if y / s < wh - 1 {
            y / s
        } else {
            wh - 1
        };
        assert(0 <= bx < ww && 0 <= by < wh);
        lemma_row_major_index_in_range(ww, wh, bx, by);
    }
}

} // verus!
