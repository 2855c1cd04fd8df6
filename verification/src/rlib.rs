//! Supersampling, frame delivery and the shape of a video export.
use vstd::arithmetic::div_mod::{lemma_fundamental_div_mod, lemma_fundamental_div_mod_converse};
use vstd::prelude::*;

use crate::{safe_factor, safe_super_sample};

verus! {

/// Sum of channel bytes `start, start + 4, ..., start + 4 * (n - 1)`: one
/// channel of `n` consecutive RGBA8 pixels.
pub open spec fn row_sum(src: Seq<u8>, start: int, n: int) -> int
    decreases n,
{
    if n <= 0 {
        0
    } else {
        row_sum(src, start, n - 1) + src[start + 4 * (n - 1)]
    }
}

/// Sum over `n` consecutive RGBA8 pixels of a channel byte (from `start`)
/// times the pixel's alpha byte (from `alpha_start`).
pub open spec fn row_weighted_sum(src: Seq<u8>, start: int, alpha_start: int, n: int) -> int
    decreases n,
{
    if n <= 0 {
        0
    } else {
        row_weighted_sum(src, start, alpha_start, n - 1) + src[start + 4 * (n - 1)] * src[alpha_start
            + 4 * (n - 1)]
    }
}

/// Byte offset of the first pixel of row `row` of the block at `(x0, y0)` of
/// an RGBA8 image `src_w` pixels wide.
pub open spec fn block_row_start(src_w: int, x0: int, y0: int, row: int) -> int {
    ((y0 + row) * src_w + x0) * 4
}

/// Sum of channel `c` over the `factor`-wide, `rows`-high block of an RGBA8
/// image `src_w` pixels wide whose top left pixel is `(x0, y0)`.
pub open spec fn block_sum(
    src: Seq<u8>,
    src_w: int,
    x0: int,
    y0: int,
    factor: int,
    rows: int,
    c: int,
) -> int
    decreases rows,
{
    if rows <= 0 {
        0
    } else {
        block_sum(src, src_w, x0, y0, factor, rows - 1, c) + row_sum(
            src,
            block_row_start(src_w, x0, y0, rows - 1) + c,
            factor,
        )
    }
}

/// Sum of channel `c` times alpha over the same block as [`block_sum`].
pub open spec fn block_weighted_sum(
    src: Seq<u8>,
    src_w: int,
    x0: int,
    y0: int,
    factor: int,
    rows: int,
    c: int,
) -> int
    decreases rows,
{
    if rows <= 0 {
        0
    } else {
        block_weighted_sum(src, src_w, x0, y0, factor, rows - 1, c) + row_weighted_sum(
            src,
            block_row_start(src_w, x0, y0, rows - 1) + c,
            block_row_start(src_w, x0, y0, rows - 1) + 3,
            factor,
        )
    }
}

/// The mean of `samples` channel values summing to `sum`, rounded to the
/// nearest integer with halves rounded up.
pub open spec fn rounded_mean(sum: int, samples: int) -> int {
    (2 * sum + samples) / (2 * samples)
}

/// A resolved channel from the sums of one block: alpha (`c == 3`) is the
/// plain mean; a colour channel is the alpha-weighted mean, or the plain mean
/// when the whole block is transparent.
pub open spec fn resolved_channel(sum: int, weighted: int, alpha_sum: int, samples: int, c: int) -> int {
    if c == 3 || alpha_sum == 0 {
        rounded_mean(sum, samples)
    } else {
        rounded_mean(weighted, alpha_sum)
    }
}

/// Channel `c` of destination pixel `(dx, dy)` of a box downsample of the
/// `factor x factor` source block it covers; a factor of zero covers no
/// samples and resolves to zero.
pub open spec fn box_sample(src: Seq<u8>, src_w: int, factor: int, dx: int, dy: int, c: int) -> int {
    if factor == 0 {
        0
    } else {
        resolved_channel(
            block_sum(src, src_w, dx * factor, dy * factor, factor, factor, c),
            block_weighted_sum(src, src_w, dx * factor, dy * factor, factor, factor, c),
            block_sum(src, src_w, dx * factor, dy * factor, factor, factor, 3),
            factor * factor,
            c,
        )
    }
}

proof fn lemma_row_sum_bounds(src: Seq<u8>, start: int, alpha_start: int, n: int)
    requires
        n >= 0,
    ensures
        0 <= row_sum(src, start, n) <= 255 * n,
        0 <= row_weighted_sum(src, start, alpha_start, n) <= 255 * row_sum(src, alpha_start, n),
    decreases n,
{
    if n > 0 {
        lemma_row_sum_bounds(src, start, alpha_start, n - 1);
        let v = src[start + 4 * (n - 1)];
        let a = src[alpha_start + 4 * (n - 1)];
        assert(0 <= v * a <= 255 * a) by (nonlinear_arith)
            requires
                0 <= v <= 255,
                0 <= a,
        ;
    }
}

proof fn lemma_block_sum_bounds(
    src: Seq<u8>,
    src_w: int,
    x0: int,
    y0: int,
    factor: int,
    rows: int,
    c: int,
)
    requires
        rows >= 0,
        factor >= 0,
    ensures
        0 <= block_sum(src, src_w, x0, y0, factor, rows, c) <= 255 * factor * rows,
        0 <= block_weighted_sum(src, src_w, x0, y0, factor, rows, c) <= 255 * block_sum(
            src,
            src_w,
            x0,
            y0,
            factor,
            rows,
            3,
        ),
    decreases rows,
{
    if rows > 0 {
        lemma_block_sum_bounds(src, src_w, x0, y0, factor, rows - 1, c);
        let start = block_row_start(src_w, x0, y0, rows - 1);
        lemma_row_sum_bounds(src, start + c, start + 3, factor);
        lemma_row_sum_bounds(src, start + 3, start + 3, factor);
        assert(255 * factor * (rows - 1) + 255 * factor == 255 * factor * rows) by (nonlinear_arith);
    }
}

proof fn lemma_rounded_mean_byte(sum: int, samples: int)
    requires
        samples > 0,
        0 <= sum <= 255 * samples,
    ensures
        0 <= rounded_mean(sum, samples) <= 255,
{
    assert(0 <= (2 * sum + samples) / (2 * samples) <= 255) by (nonlinear_arith)
        requires
            samples > 0,
            0 <= sum <= 255 * samples,
    ;
}

/// Position of a pixel's channel byte in an RGBA8 image `width` pixels wide.
proof fn lemma_pixel_index_bound(x: int, y: int, c: int, width: int, height: int)
    requires
        0 <= x < width,
        0 <= y < height,
        0 <= c < 4,
    ensures
        0 <= (y * width + x) * 4 + c < width * height * 4,
{
    assert(0 <= (y * width + x) * 4 + c < width * height * 4) by (nonlinear_arith)
        requires
            0 <= x < width,
            0 <= y < height,
            0 <= c < 4,
    ;
}

/// A transparent black `width x height` RGBA8 frame.
fn zeroed_frame(width: u32, height: u32) -> (out: Vec<u8>)
    requires
        width * height * 4 <= u32::MAX,
    ensures
        out@.len() == width * height * 4,
        forall|i: int| 0 <= i < out@.len() ==> #[trigger] out@[i] == 0,
{
    proof {
        assert(0 <= width * height * 4) by (nonlinear_arith);
    }
    let len = (width as usize) * (height as usize) * 4;
    let mut out: Vec<u8> = Vec::new();
    let mut i: usize = 0;
    while i < len
        invariant
            i <= len,
            out@.len() == i,
            forall|k: int| 0 <= k < i ==> #[trigger] out@[k] == 0,
        decreases len - i,
    {
        out.push(0);
        i = i + 1;
    }
    out
}

/// Byte `i` of a `width x height` RGBA8 frame is channel `i % 4` of pixel
/// `((i / 4) % width, (i / 4) / width)`.
proof fn lemma_pixel_of_byte(i: int, width: int, height: int)
    requires
        0 <= i < width * height * 4,
        width > 0,
    ensures
        0 <= (i / 4) % width < width,
        0 <= (i / 4) / width < height,
        0 <= i % 4 < 4,
        (((i / 4) / width) * width + (i / 4) % width) * 4 + i % 4 == i,
{
    lemma_fundamental_div_mod(i, 4);
    lemma_fundamental_div_mod(i / 4, width);
    assert(((i / 4) / width) * width == width * ((i / 4) / width)) by (nonlinear_arith);
    assert(i / 4 < width * height) by (nonlinear_arith)
        requires
            0 <= i < width * height * 4,
            i == 4 * (i / 4) + i % 4,
            0 <= i % 4,
    ;
    assert((i / 4) / width < height) by (nonlinear_arith)
        requires
            0 <= i / 4 < width * height,
            width > 0,
            i / 4 == width * ((i / 4) / width) + (i / 4) % width,
            0 <= (i / 4) % width,
    ;
}

/// What a frame says of each pixel's channels, it says of each byte.
proof fn lemma_bytes_from_pixels(out: Seq<u8>, src: Seq<u8>, src_w: int, factor: int, dst_w: int, dst_h: int)
    requires
        out.len() == dst_w * dst_h * 4,
        dst_w >= 0,
        dst_h >= 0,
        forall|dx: int, dy: int, c: int|
            0 <= dx < dst_w && 0 <= dy < dst_h && 0 <= c < 4 ==> #[trigger] out[(dy * dst_w + dx)
                * 4 + c] == box_sample(src, src_w, factor, dx, dy, c),
    ensures
        forall|i: int|
            0 <= i < out.len() ==> #[trigger] out[i] == box_sample(
                src,
                src_w,
                factor,
                (i / 4) % dst_w,
                (i / 4) / dst_w,
                i % 4,
            ),
{
    assert forall|i: int| 0 <= i < out.len() implies #[trigger] out[i] == box_sample(
        src,
        src_w,
        factor,
        (i / 4) % dst_w,
        (i / 4) / dst_w,
        i % 4,
    ) by {
        if dst_w == 0 {
            assert(dst_w * dst_h * 4 == 0);
        }
        lemma_pixel_of_byte(i, dst_w, dst_h);
        let dx = (i / 4) % dst_w;
        let dy = (i / 4) / dst_w;
        assert(out[(dy * dst_w + dx) * 4 + i % 4] == box_sample(src, src_w, factor, dx, dy, i % 4));
    }
}

/// Box-downsamples a `src_w x src_h` RGBA8 image by an integer `factor` to
/// `dst_w x dst_h`, where `src_w == dst_w * factor` and
/// `src_h == dst_h * factor`, averaging each `factor x factor` block of source
/// pixels into one destination pixel. The average is alpha-weighted, so fully
/// transparent supersamples do not darken partially covered edges: alpha is
/// the plain mean, each colour channel the mean weighted by alpha (the plain
/// mean where the whole block is transparent), rounded to the nearest integer
/// with halves rounded up.
pub fn downsample_box(src: &[u8], src_w: u32, src_h: u32, factor: u8, dst_w: u32, dst_h: u32) -> (out:
    Vec<u8>)
    requires
        src_w == dst_w * factor,
        src_h == dst_h * factor,
        src@.len() == src_w * src_h * 4,
        factor == 0 ==> dst_w * dst_h * 4 <= u32::MAX,
    ensures
        out@.len() == dst_w * dst_h * 4,
        forall|dx: int, dy: int, c: int|
            0 <= dx < dst_w && 0 <= dy < dst_h && 0 <= c < 4 ==> #[trigger] out@[(dy * dst_w + dx)
                * 4 + c] == box_sample(src@, src_w as int, factor as int, dx, dy, c),
        forall|i: int|
            0 <= i < out@.len() ==> #[trigger] out@[i] == box_sample(
                src@,
                src_w as int,
                factor as int,
                (i / 4) % (dst_w as int),
                (i / 4) / (dst_w as int),
                i % 4,
            ),
{
    if factor == 0 {
        let out = zeroed_frame(dst_w, dst_h);
        proof {
            assert forall|dx: int, dy: int, c: int|
                0 <= dx < dst_w && 0 <= dy < dst_h && 0 <= c < 4 implies #[trigger] out@[(dy * dst_w
                    + dx) * 4 + c] == box_sample(src@, src_w as int, factor as int, dx, dy, c) by {
                lemma_pixel_index_bound(dx, dy, c, dst_w as int, dst_h as int);
            }
            lemma_bytes_from_pixels(out@, src@, src_w as int, factor as int, dst_w as int, dst_h as int);
        }
        return out;
    }
    let f = factor as usize;
    let sw = src_w as usize;
    let dw = dst_w as usize;
    let dh = dst_h as usize;
    let src_len = src.len();
    proof {
        assert((factor as u64) * (factor as u64) <= 65025) by (nonlinear_arith)
            requires
                factor <= 255,
        ;
    }
    let samples: u64 = (factor as u64) * (factor as u64);
    let mut out: Vec<u8> = Vec::new();
    let mut dy: usize = 0;
    while dy < dh
        invariant
            f == factor,
            f >= 1,
            sw == src_w,
            dw == dst_w,
            dh == dst_h,
            src_w == dst_w * factor,
            src_h == dst_h * factor,
            src_len == src@.len(),
            src@.len() == src_w * src_h * 4,
            samples == factor * factor,
            samples <= 65025,
            dy <= dh,
            out@.len() == dy * dw * 4,
            forall|x: int, y: int, c: int|
                0 <= x < dw && 0 <= y < dy && 0 <= c < 4 ==> #[trigger] out@[(y * dw + x) * 4 + c]
                    == box_sample(src@, sw as int, f as int, x, y, c),
        decreases dh - dy,
    {
        let mut dx: usize = 0;
        while dx < dw
            invariant
                f == factor,
                f >= 1,
                sw == src_w,
                dw == dst_w,
                dh == dst_h,
                src_w == dst_w * factor,
                src_h == dst_h * factor,
                src_len == src@.len(),
                src@.len() == src_w * src_h * 4,
                samples == factor * factor,
                samples <= 65025,
                dy < dh,
                dx <= dw,
                out@.len() == (dy * dw + dx) * 4,
                forall|x: int, y: int, c: int|
                    0 <= x < dw && 0 <= y < dy && 0 <= c < 4 ==> #[trigger] out@[(y * dw + x) * 4
                        + c] == box_sample(src@, sw as int, f as int, x, y, c),
                forall|x: int, c: int|
                    0 <= x < dx && 0 <= c < 4 ==> #[trigger] out@[(dy * dw + x) * 4 + c]
                        == box_sample(src@, sw as int, f as int, x, dy as int, c),
            decreases dw - dx,
        {
            let mut sums: [u64; 4] = [0, 0, 0, 0];
            let mut weighted: [u64; 4] = [0, 0, 0, 0];
            let mut sy: usize = 0;
            while sy < f
                invariant
                    f == factor,
                    f >= 1,
                    sw == src_w,
                    dw == dst_w,
                    dh == dst_h,
                    src_w == dst_w * factor,
                    src_h == dst_h * factor,
                    src_len == src@.len(),
                    src@.len() == src_w * src_h * 4,
                    dy < dh,
                    dx < dw,
                    sy <= f,
                    forall|c: int|
                        0 <= c < 4 ==> #[trigger] sums@[c] == block_sum(
                            src@,
                            sw as int,
                            dx * f,
                            dy * f,
                            f as int,
                            sy as int,
                            c,
                        ),
                    forall|c: int|
                        0 <= c < 4 ==> #[trigger] weighted@[c] == block_weighted_sum(
                            src@,
                            sw as int,
                            dx * f,
                            dy * f,
                            f as int,
                            sy as int,
                            c,
                        ),
                    forall|c: int| 0 <= c < 4 ==> #[trigger] sums@[c] <= 255 * f * sy,
                    forall|c: int| 0 <= c < 4 ==> #[trigger] weighted@[c] <= 65025 * f * sy,
                decreases f - sy,
            {
                let ghost row_sums = sums@;
                let ghost row_weighted = weighted@;
                proof {
                    assert(dy * f + sy < src_h) by (nonlinear_arith)
                        requires
                            dy < dh,
                            sy < f,
                            src_h == dh * f,
                    ;
                }
                let src_y = dy * f + sy;
                let ghost start = block_row_start(sw as int, dx * f, dy * f, sy as int);
                assert(start == ((src_y as int) * sw + dx * f) * 4);
                let mut sx: usize = 0;
                while sx < f
                    invariant
                        f == factor,
                        f >= 1,
                        sw == src_w,
                        dw == dst_w,
                        src_w == dst_w * factor,
                        src_len == src@.len(),
                        src@.len() == src_w * src_h * 4,
                        dy < dh,
                        dx < dw,
                        sy < f,
                        src_y == dy * f + sy,
                        src_y < src_h,
                        start == ((src_y as int) * sw + dx * f) * 4,
                        sx <= f,
                        forall|c: int|
                            0 <= c < 4 ==> #[trigger] sums@[c] == row_sums[c] + row_sum(
                                src@,
                                start + c,
                                sx as int,
                            ),
                        forall|c: int|
                            0 <= c < 4 ==> #[trigger] weighted@[c] == row_weighted[c]
                                + row_weighted_sum(src@, start + c, start + 3, sx as int),
                        forall|c: int| 0 <= c < 4 ==> #[trigger] row_sums[c] <= 255 * f * sy,
                        forall|c: int| 0 <= c < 4 ==> #[trigger] sums@[c] <= 255 * f * sy + 255 * sx,
                        forall|c: int| 0 <= c < 4 ==> #[trigger] row_weighted[c] <= 65025 * f * sy,
                        forall|c: int|
                            0 <= c < 4 ==> #[trigger] weighted@[c] <= 65025 * f * sy + 65025 * sx,
                    decreases f - sx,
                {
                    proof {
                        assert(dx * f + sx < src_w) by (nonlinear_arith)
                            requires
                                dx < dw,
                                sx < f,
                                src_w == dw * f,
                        ;
                    }
                    let src_x = dx * f + sx;
                    proof {
                        lemma_pixel_index_bound(
                            src_x as int,
                            src_y as int,
                            3,
                            src_w as int,
                            src_h as int,
                        );
                        assert(255 * f * sy + 255 * sx + 255 <= 255 * 255 * 255 * 2) by (
                        nonlinear_arith)
                            requires
                                f <= 255,
                                sy < f,
                                sx < f,
                        ;
                        assert(65025 * f * sy + 65025 * sx + 65025 <= 65025 * 255 * 255 * 2) by (
                        nonlinear_arith)
                            requires
                                f <= 255,
                                sy < f,
                                sx < f,
                        ;
                    }
                    let idx = (src_y * sw + src_x) * 4;
                    assert(start + 4 * sx == idx);
                    let v0 = src[idx] as u64;
                    let v1 = src[idx + 1] as u64;
                    let v2 = src[idx + 2] as u64;
                    let alpha = src[idx + 3] as u64;
                    proof {
                        assert(v0 * alpha <= 65025 && v1 * alpha <= 65025 && v2 * alpha <= 65025
                            && alpha * alpha <= 65025) by (nonlinear_arith)
                            requires
                                v0 <= 255,
                                v1 <= 255,
                                v2 <= 255,
                                alpha <= 255,
                        ;
                    }
                    sums[0] = sums[0] + v0;
                    sums[1] = sums[1] + v1;
                    sums[2] = sums[2] + v2;
                    sums[3] = sums[3] + alpha;
                    weighted[0] = weighted[0] + v0 * alpha;
                    weighted[1] = weighted[1] + v1 * alpha;
                    weighted[2] = weighted[2] + v2 * alpha;
                    weighted[3] = weighted[3] + alpha * alpha;
                    proof {
                        assert forall|c: int| 0 <= c < 4 implies #[trigger] sums@[c] == row_sums[c]
                            + row_sum(src@, start + c, sx + 1) && weighted@[c] == row_weighted[c]
                            + row_weighted_sum(src@, start + c, start + 3, sx + 1) by {
                            assert(start + c + 4 * sx == idx + c);
                            assert(start + 3 + 4 * sx == idx + 3);
                        }
                    }
                    sx = sx + 1;
                }
                proof {
                    assert forall|c: int| 0 <= c < 4 implies #[trigger] sums@[c] == block_sum(
                        src@,
                        sw as int,
                        dx * f,
                        dy * f,
                        f as int,
                        sy + 1,
                        c,
                    ) && weighted@[c] == block_weighted_sum(
                        src@,
                        sw as int,
                        dx * f,
                        dy * f,
                        f as int,
                        sy + 1,
                        c,
                    ) by {
                        assert(block_row_start(sw as int, dx * f, dy * f, sy + 1 - 1) == start);
                    }
                    assert(255 * f * sy + 255 * f == 255 * f * (sy + 1)) by (nonlinear_arith);
                    assert(65025 * f * sy + 65025 * f == 65025 * f * (sy + 1)) by (nonlinear_arith);
                }
                sy = sy + 1;
            }
            let mut c: usize = 0;
            let ghost row_start = out@;
            let ghost x0 = dx * f;
            let ghost y0 = dy * f;
            proof {
                assert(255 * f * f == 255 * samples && samples > 0) by (nonlinear_arith)
                    requires
                        samples == f * f,
                        f >= 1,
                ;
                assert forall|k: int| 0 <= k < 4 implies #[trigger] weighted@[k] <= 255 * sums@[3] by {
                    lemma_block_sum_bounds(src@, sw as int, x0, y0, f as int, f as int, k);
                }
            }
            while c < 4
                invariant
                    f == factor,
                    f >= 1,
                    samples == factor * factor,
                    samples > 0,
                    samples <= 65025,
                    row_start.len() == (dy * dw + dx) * 4,
                    forall|k: int|
                        0 <= k < 4 ==> #[trigger] sums@[k] == block_sum(
                            src@,
                            sw as int,
                            x0,
                            y0,
                            f as int,
                            f as int,
                            k,
                        ),
                    forall|k: int|
                        0 <= k < 4 ==> #[trigger] weighted@[k] == block_weighted_sum(
                            src@,
                            sw as int,
                            x0,
                            y0,
                            f as int,
                            f as int,
                            k,
                        ),
                    c <= 4,
                    out@.len() == row_start.len() + c,
                    forall|k: int| 0 <= k < row_start.len() ==> out@[k] == row_start[k],
                    forall|k: int|
                        0 <= k < c ==> #[trigger] out@[row_start.len() + k] == resolved_channel(
                            sums@[k] as int,
                            weighted@[k] as int,
                            sums@[3] as int,
                            samples as int,
                            k,
                        ),
                    forall|k: int| 0 <= k < 4 ==> 0 <= #[trigger] sums@[k] <= 255 * samples,
                    forall|k: int| 0 <= k < 4 ==> #[trigger] weighted@[k] <= 255 * sums@[3],
                decreases 4 - c,
            {
                let alpha_sum = sums[3];
                let value = if c == 3 || alpha_sum == 0 {
                    proof {
                        lemma_rounded_mean_byte(sums@[c as int] as int, samples as int);
                    }
                    (2 * sums[c] + samples) / (2 * samples)
                } else {
                    proof {
                        lemma_rounded_mean_byte(weighted@[c as int] as int, alpha_sum as int);
                    }
                    (2 * weighted[c] + alpha_sum) / (2 * alpha_sum)
                };
                out.push(value as u8);
                c = c + 1;
            }
            proof {
                assert forall|x: int, y: int, k: int|
                    0 <= x < dw && 0 <= y < dy && 0 <= k < 4 implies #[trigger] out@[(y * dw + x)
                        * 4 + k] == box_sample(src@, sw as int, f as int, x, y, k) by {
                    lemma_pixel_index_bound(x, y, k, dw as int, dy as int);
                    assert(dw * dy * 4 <= (dy * dw + dx) * 4) by (nonlinear_arith);
                    assert(out@[(y * dw + x) * 4 + k] == row_start[(y * dw + x) * 4 + k]);
                }
                assert forall|x: int, k: int|
                    0 <= x < dx + 1 && 0 <= k < 4 implies #[trigger] out@[(dy * dw + x) * 4 + k]
                        == box_sample(src@, sw as int, f as int, x, dy as int, k) by {
                    if x < dx {
                        assert(out@[(dy * dw + x) * 4 + k] == row_start[(dy * dw + x) * 4 + k]);
                    } else {
                        assert((dy * dw + x) * 4 + k == row_start.len() + k);
                    }
                }
            }
            dx = dx + 1;
        }
        proof {
            assert((dy + 1) * dw * 4 == (dy * dw + dw) * 4) by (nonlinear_arith);
            assert forall|x: int, y: int, k: int|
                0 <= x < dw && 0 <= y < dy + 1 && 0 <= k < 4 implies #[trigger] out@[(y * dw + x)
                    * 4 + k] == box_sample(src@, sw as int, f as int, x, y, k) by {
                if y == dy {
                    assert(out@[(dy * dw + x) * 4 + k] == box_sample(
                        src@,
                        sw as int,
                        f as int,
                        x,
                        dy as int,
                        k,
                    ));
                }
            }
        }
        dy = dy + 1;
    }
    proof {
        assert(dh * dw * 4 == dst_w * dst_h * 4) by (nonlinear_arith)
            requires
                dh == dst_h,
                dw == dst_w,
        ;
        lemma_bytes_from_pixels(out@, src@, src_w as int, factor as int, dst_w as int, dst_h as int);
    }
    out
}

/// Whether channel `c` of every pixel of the `factor x factor` block at
/// `(x0, y0)` holds `value`.
pub open spec fn block_is_uniform(
    src: Seq<u8>,
    src_w: int,
    x0: int,
    y0: int,
    factor: int,
    c: int,
    value: u8,
) -> bool {
    forall|sx: int, sy: int|
        0 <= sx < factor && 0 <= sy < factor ==> #[trigger] src[((y0 + sy) * src_w + x0 + sx) * 4
            + c] == value
}

proof fn lemma_row_sum_uniform(src: Seq<u8>, src_w: int, x0: int, y: int, c: int, n: int, value: u8)
    requires
        n >= 0,
        forall|sx: int| 0 <= sx < n ==> #[trigger] src[(y * src_w + x0 + sx) * 4 + c] == value,
    ensures
        row_sum(src, (y * src_w + x0) * 4 + c, n) == value * n,
        row_weighted_sum(src, (y * src_w + x0) * 4 + c, (y * src_w + x0) * 4 + 3, n) == value
            * row_sum(src, (y * src_w + x0) * 4 + 3, n),
    decreases n,
{
    let base = (y * src_w + x0) * 4;
    if n > 0 {
        lemma_row_sum_uniform(src, src_w, x0, y, c, n - 1, value);
        assert(base + c + 4 * (n - 1) == (y * src_w + x0 + (n - 1)) * 4 + c);
        assert(src[(y * src_w + x0 + (n - 1)) * 4 + c] == value);
        let a = src[base + 3 + 4 * (n - 1)] as int;
        let r = row_sum(src, base + 3, n - 1);
        assert(value * (n - 1) + value == value * n) by (nonlinear_arith);
        assert(value * r + value * a == value * (r + a)) by (nonlinear_arith);
    } else {
        assert(value * n == 0) by (nonlinear_arith)
            requires
                n == 0,
        ;
    }
}

proof fn lemma_block_sum_uniform(
    src: Seq<u8>,
    src_w: int,
    x0: int,
    y0: int,
    factor: int,
    rows: int,
    c: int,
    value: u8,
)
    requires
        0 <= rows <= factor,
        block_is_uniform(src, src_w, x0, y0, factor, c, value),
    ensures
        block_sum(src, src_w, x0, y0, factor, rows, c) == value * factor * rows,
        block_weighted_sum(src, src_w, x0, y0, factor, rows, c) == value * block_sum(
            src,
            src_w,
            x0,
            y0,
            factor,
            rows,
            3,
        ),
    decreases rows,
{
    if rows > 0 {
        lemma_block_sum_uniform(src, src_w, x0, y0, factor, rows - 1, c, value);
        let y = y0 + rows - 1;
        assert forall|sx: int| 0 <= sx < factor implies #[trigger] src[(y * src_w + x0 + sx) * 4
            + c] == value by {
            assert(src[((y0 + (rows - 1)) * src_w + x0 + sx) * 4 + c] == value);
        }
        lemma_row_sum_uniform(src, src_w, x0, y, c, factor, value);
        assert(block_row_start(src_w, x0, y0, rows - 1) == (y * src_w + x0) * 4);
        let prev = block_sum(src, src_w, x0, y0, factor, rows - 1, 3);
        let row = row_sum(src, (y * src_w + x0) * 4 + 3, factor);
        assert(value * prev + value * row == value * (prev + row)) by (nonlinear_arith);
        assert(value * factor * (rows - 1) + value * factor == value * factor * rows)
            by (nonlinear_arith);
    } else {
        assert(value * factor * rows == 0) by (nonlinear_arith)
            requires
                rows == 0,
        ;
    }
}

/// `rounded_mean(v * n, n)` is `v`.
proof fn lemma_rounded_mean_of_multiple(v: int, n: int)
    requires
        n >= 1,
    ensures
        rounded_mean(v * n, n) == v,
{
    assert(2 * (v * n) + n == v * (2 * n) + n) by (nonlinear_arith);
    lemma_fundamental_div_mod_converse(2 * (v * n) + n, 2 * n, v, n);
}

/// Downsampling keeps flat colour: a destination channel whose source block
/// holds one value in that channel gets exactly that value, whatever the
/// block's alpha.
pub proof fn box_sample_keeps_uniform_blocks(
    src: Seq<u8>,
    src_w: int,
    factor: int,
    dx: int,
    dy: int,
    c: int,
    value: u8,
)
    requires
        factor >= 1,
        block_is_uniform(src, src_w, dx * factor, dy * factor, factor, c, value),
    ensures
        box_sample(src, src_w, factor, dx, dy, c) == value,
{
    let x0 = dx * factor;
    let y0 = dy * factor;
    lemma_block_sum_uniform(src, src_w, x0, y0, factor, factor, c, value);
    lemma_block_sum_bounds(src, src_w, x0, y0, factor, factor, 3);
    let n = factor * factor;
    assert(n >= 1 && value * factor * factor == value * n) by (nonlinear_arith)
        requires
            factor >= 1,
            n == factor * factor,
    ;
    lemma_rounded_mean_of_multiple(value as int, n);
    let alpha = block_sum(src, src_w, x0, y0, factor, factor, 3);
    if alpha > 0 {
        lemma_rounded_mean_of_multiple(value as int, alpha);
    }
}

/// Downsampling by a factor of one copies the image.
pub proof fn box_sample_factor_one(src: Seq<u8>, src_w: int, dx: int, dy: int, c: int)
    ensures
        box_sample(src, src_w, 1, dx, dy, c) == src[(dy * src_w + dx) * 4 + c],
{
    let base = (dy * src_w + dx) * 4;
    let start = base + c;
    assert(dx * 1 == dx && dy * 1 == dy && 1int * 1int == 1);
    assert(block_row_start(src_w, dx, dy, 0) == base);
    assert(row_sum(src, start, 0) == 0);
    assert(row_sum(src, base + 3, 0) == 0);
    assert(row_weighted_sum(src, start, base + 3, 0) == 0);
    assert(start + 4 * (1 - 1) == start && base + 3 + 4 * (1 - 1) == base + 3);
    assert(block_sum(src, src_w, dx, dy, 1, 0, c) == 0);
    assert(block_sum(src, src_w, dx, dy, 1, 0, 3) == 0);
    assert(block_weighted_sum(src, src_w, dx, dy, 1, 0, c) == 0);
    assert(row_sum(src, start, 1) == src[start]);
    assert(row_sum(src, base + 3, 1) == src[base + 3]);
    assert(row_weighted_sum(src, start, base + 3, 1) == src[start] * src[base + 3]);
    assert(block_sum(src, src_w, dx, dy, 1, 1, c) == src[start]);
    assert(block_sum(src, src_w, dx, dy, 1, 1, 3) == src[base + 3]);
    assert(block_weighted_sum(src, src_w, dx, dy, 1, 1, c) == src[start] * src[base + 3]);
    lemma_rounded_mean_of_multiple(src[start] as int, 1);
    if src[base + 3] > 0 {
        lemma_rounded_mean_of_multiple(src[start] as int, src[base + 3] as int);
    }
}

/// Pixels at byte `i` of two RGBA8 images have the same alpha, and the same
/// channel `c` unless they are fully transparent.
pub open spec fn visibly_equal(a: Seq<u8>, b: Seq<u8>, i: int, c: int) -> bool {
    &&& a[i + 3] == b[i + 3]
    &&& a[i + 3] != 0 ==> a[i + c] == b[i + c]
}

/// Fully transparent supersamples do not tint the result: two blocks whose
/// pixels agree in alpha, and in colour wherever alpha is not zero, give the
/// same colour channels, as long as some pixel of the block is not
/// transparent.
pub proof fn transparent_samples_do_not_tint(
    a: Seq<u8>,
    b: Seq<u8>,
    src_w: int,
    factor: int,
    dx: int,
    dy: int,
    c: int,
)
    requires
        factor >= 1,
        0 <= c < 3,
        forall|sx: int, sy: int|
            0 <= sx < factor && 0 <= sy < factor ==> #[trigger] visibly_equal(
                a,
                b,
                ((dy * factor + sy) * src_w + dx * factor + sx) * 4,
                c,
            ),
        block_sum(a, src_w, dx * factor, dy * factor, factor, factor, 3) > 0,
    ensures
        box_sample(a, src_w, factor, dx, dy, c) == box_sample(b, src_w, factor, dx, dy, c),
{
    let x0 = dx * factor;
    let y0 = dy * factor;
    lemma_blocks_agree(a, b, src_w, x0, y0, factor, factor, c);
}

proof fn lemma_rows_agree(a: Seq<u8>, b: Seq<u8>, base: int, c: int, n: int)
    requires
        n >= 0,
        forall|k: int| 0 <= k < n ==> #[trigger] visibly_equal(a, b, base + 4 * k, c),
    ensures
        row_sum(a, base + 3, n) == row_sum(b, base + 3, n),
        row_weighted_sum(a, base + c, base + 3, n) == row_weighted_sum(b, base + c, base + 3, n),
    decreases n,
{
    if n > 0 {
        lemma_rows_agree(a, b, base, c, n - 1);
        let k = n - 1;
        assert(visibly_equal(a, b, base + 4 * k, c));
        assert(a[base + 4 * k + 3] == b[base + 4 * k + 3]);
        assert(base + c + 4 * k == base + 4 * k + c);
        assert(base + 3 + 4 * k == base + 4 * k + 3);
        if a[base + 4 * k + 3] == 0 {
            assert(a[base + 4 * k + c] * a[base + 4 * k + 3] == 0) by (nonlinear_arith)
                requires
                    a[base + 4 * k + 3] == 0,
            ;
            assert(b[base + 4 * k + c] * b[base + 4 * k + 3] == 0) by (nonlinear_arith)
                requires
                    b[base + 4 * k + 3] == 0,
            ;
        }
    }
}

proof fn lemma_blocks_agree(a: Seq<u8>, b: Seq<u8>, src_w: int, x0: int, y0: int, factor: int, rows: int, c: int)
    requires
        0 <= rows <= factor,
        forall|sx: int, sy: int|
            0 <= sx < factor && 0 <= sy < factor ==> #[trigger] visibly_equal(
                a,
                b,
                ((y0 + sy) * src_w + x0 + sx) * 4,
                c,
            ),
    ensures
        block_sum(a, src_w, x0, y0, factor, rows, 3) == block_sum(b, src_w, x0, y0, factor, rows, 3),
        block_weighted_sum(a, src_w, x0, y0, factor, rows, c) == block_weighted_sum(
            b,
            src_w,
            x0,
            y0,
            factor,
            rows,
            c,
        ),
    decreases rows,
{
    if rows > 0 {
        lemma_blocks_agree(a, b, src_w, x0, y0, factor, rows - 1, c);
        let base = block_row_start(src_w, x0, y0, rows - 1);
        assert forall|k: int| 0 <= k < factor implies #[trigger] visibly_equal(a, b, base + 4 * k, c) by {
            let i = ((y0 + (rows - 1)) * src_w + x0 + k) * 4;
            assert(base + 4 * k == i);
            assert(visibly_equal(a, b, i, c));
        }
        lemma_rows_agree(a, b, base, c, factor);
    }
}

/// Images `a` and `b` agree on every byte but those of pixel `p`.
pub open spec fn differ_only_at_pixel(a: Seq<u8>, b: Seq<u8>, p: int) -> bool {
    &&& a.len() == b.len()
    &&& forall|i: int|
        0 <= i < a.len() && !(4 * p <= i < 4 * p + 4) ==> #[trigger] a[i] == #[trigger] b[i]
}

/// Changing pixel `p` changes a row of `n` pixels starting at pixel `q` by
/// that pixel's contribution when the row covers it, and not at all otherwise.
proof fn lemma_row_sums_one_pixel(a: Seq<u8>, b: Seq<u8>, q: int, c: int, n: int, p: int)
    requires
        differ_only_at_pixel(a, b, p),
        0 <= q,
        0 <= n,
        4 * (q + n) <= a.len(),
        0 <= c < 4,
    ensures
        row_sum(b, 4 * q + c, n) - row_sum(a, 4 * q + c, n) == (if q <= p < q + n {
            b[4 * p + c] - a[4 * p + c]
        } else {
            0
        }),
        row_weighted_sum(b, 4 * q + c, 4 * q + 3, n) - row_weighted_sum(a, 4 * q + c, 4 * q + 3, n)
            == (if q <= p < q + n {
            b[4 * p + c] * b[4 * p + 3] - a[4 * p + c] * a[4 * p + 3]
        } else {
            0
        }),
    decreases n,
{
    if n > 0 {
        lemma_row_sums_one_pixel(a, b, q, c, n - 1, p);
        let k = q + n - 1;
        assert(4 * q + c + 4 * (n - 1) == 4 * k + c);
        assert(4 * q + 3 + 4 * (n - 1) == 4 * k + 3);
        if k != p {
            assert(a[4 * k + c] == b[4 * k + c]);
            assert(a[4 * k + 3] == b[4 * k + 3]);
        }
    }
}

/// Pixel `py * src_w + px` lies in the `f` pixels of row `y` from column `x0`
/// exactly when it is on that row and between those columns.
proof fn lemma_pixel_in_row_run(src_w: int, x0: int, f: int, y: int, px: int, py: int)
    requires
        0 <= x0,
        0 <= f,
        x0 + f <= src_w,
        0 <= px < src_w,
        0 <= py,
        0 <= y,
    ensures
        (y * src_w + x0 <= py * src_w + px < y * src_w + x0 + f) <==> (py == y && x0 <= px < x0 + f),
{
    if py < y {
        assert(py * src_w + px < y * src_w) by (nonlinear_arith)
            requires
                py < y,
                0 <= px < src_w,
        ;
    } else if py > y {
        assert(py * src_w + px >= y * src_w + src_w) by (nonlinear_arith)
            requires
                py > y,
                0 <= px,
                src_w >= 0,
        ;
    }
}

/// The block sums count every pixel of the block once and no pixel outside
/// it: changing one pixel of an image changes the sum of channel `c` over a
/// block by exactly the change of that pixel's channel `c` when the pixel lies
/// in the block, and leaves it unchanged otherwise; the alpha-weighted sum of
/// a colour channel changes by the change of that pixel's channel times alpha.
pub proof fn block_sums_count_each_pixel_once(
    a: Seq<u8>,
    b: Seq<u8>,
    src_w: int,
    x0: int,
    y0: int,
    factor: int,
    rows: int,
    c: int,
    px: int,
    py: int,
)
    requires
        0 <= x0,
        0 <= factor,
        x0 + factor <= src_w,
        0 <= y0,
        0 <= rows,
        (y0 + rows) * src_w * 4 <= a.len(),
        0 <= c < 4,
        0 <= px < src_w,
        0 <= py,
        differ_only_at_pixel(a, b, py * src_w + px),
    ensures
        block_sum(b, src_w, x0, y0, factor, rows, c) - block_sum(a, src_w, x0, y0, factor, rows, c)
            == (if x0 <= px < x0 + factor && y0 <= py < y0 + rows {
            b[4 * (py * src_w + px) + c] - a[4 * (py * src_w + px) + c]
        } else {
            0
        }),
        block_weighted_sum(b, src_w, x0, y0, factor, rows, c) - block_weighted_sum(
            a,
            src_w,
            x0,
            y0,
            factor,
            rows,
            c,
        ) == (if x0 <= px < x0 + factor && y0 <= py < y0 + rows {
            b[4 * (py * src_w + px) + c] * b[4 * (py * src_w + px) + 3] - a[4 * (py * src_w + px)
                + c] * a[4 * (py * src_w + px) + 3]
        } else {
            0
        }),
    decreases rows,
{
    if rows > 0 {
        assert((y0 + rows - 1) * src_w * 4 <= (y0 + rows) * src_w * 4) by (nonlinear_arith)
            requires
                src_w >= 0,
        ;
        block_sums_count_each_pixel_once(a, b, src_w, x0, y0, factor, rows - 1, c, px, py);
        let y = y0 + rows - 1;
        let q = y * src_w + x0;
        assert(0 <= y * src_w) by (nonlinear_arith)
            requires
                y >= 0,
                src_w >= 0,
        ;
        assert(q + factor <= (y0 + rows) * src_w) by (nonlinear_arith)
            requires
                q == y * src_w + x0,
                x0 + factor <= src_w,
                y == y0 + rows - 1,
        ;
        assert(block_row_start(src_w, x0, y0, rows - 1) == 4 * q);
        lemma_row_sums_one_pixel(a, b, q, c, factor, py * src_w + px);
        lemma_pixel_in_row_run(src_w, x0, factor, y, px, py);
    }
}

/// An image whose bytes are all zero has zero block sums: together with
/// [`block_sums_count_each_pixel_once`] this fixes the block sums of every
/// image.
pub proof fn block_sums_of_a_zero_image(
    src: Seq<u8>,
    src_w: int,
    x0: int,
    y0: int,
    factor: int,
    rows: int,
    c: int,
)
    requires
        0 <= x0,
        0 <= factor,
        x0 + factor <= src_w,
        0 <= y0,
        0 <= rows,
        (y0 + rows) * src_w * 4 <= src.len(),
        0 <= c < 4,
        forall|i: int| 0 <= i < src.len() ==> #[trigger] src[i] == 0,
    ensures
        block_sum(src, src_w, x0, y0, factor, rows, c) == 0,
        block_weighted_sum(src, src_w, x0, y0, factor, rows, c) == 0,
    decreases rows,
{
    if rows > 0 {
        assert((y0 + rows - 1) * src_w * 4 <= (y0 + rows) * src_w * 4) by (nonlinear_arith)
            requires
                src_w >= 0,
        ;
        block_sums_of_a_zero_image(src, src_w, x0, y0, factor, rows - 1, c);
        let y = y0 + rows - 1;
        let q = y * src_w + x0;
        assert(0 <= y * src_w) by (nonlinear_arith)
            requires
                y >= 0,
                src_w >= 0,
        ;
        assert(q + factor <= (y0 + rows) * src_w) by (nonlinear_arith)
            requires
                q == y * src_w + x0,
                x0 + factor <= src_w,
                y == y0 + rows - 1,
        ;
        assert(block_row_start(src_w, x0, y0, rows - 1) == 4 * q);
        lemma_zero_row(src, q, c, factor);
    }
}

proof fn lemma_zero_row(src: Seq<u8>, q: int, c: int, n: int)
    requires
        0 <= q,
        0 <= n,
        4 * (q + n) <= src.len(),
        0 <= c < 4,
        forall|i: int| 0 <= i < src.len() ==> #[trigger] src[i] == 0,
    ensures
        row_sum(src, 4 * q + c, n) == 0,
        row_weighted_sum(src, 4 * q + c, 4 * q + 3, n) == 0,
    decreases n,
{
    if n > 0 {
        lemma_zero_row(src, q, c, n - 1);
        assert(src[4 * q + c + 4 * (n - 1)] == 0);
        assert(src[4 * q + 3 + 4 * (n - 1)] == 0);
    }
}

/// Each destination channel is the mean over its whole `factor x factor`
/// block, rounded to the nearest integer with halves rounded up: alpha is the
/// mean of the block's alphas; a colour channel is its alpha-weighted mean, or
/// its plain mean when the whole block is transparent.
pub proof fn box_sample_is_the_rounded_block_mean(
    src: Seq<u8>,
    src_w: int,
    factor: int,
    dx: int,
    dy: int,
    c: int,
)
    requires
        factor >= 1,
        0 <= c < 4,
    ensures
        ({
            let n = factor * factor;
            let sum = block_sum(src, src_w, dx * factor, dy * factor, factor, factor, c);
            let alpha = block_sum(src, src_w, dx * factor, dy * factor, factor, factor, 3);
            let r = box_sample(src, src_w, factor, dx, dy, c);
            (c == 3 || alpha == 0) ==> 2 * n * r <= 2 * sum + n < 2 * n * (r + 1)
        }),
        ({
            let alpha = block_sum(src, src_w, dx * factor, dy * factor, factor, factor, 3);
            let weighted = block_weighted_sum(src, src_w, dx * factor, dy * factor, factor, factor, c);
            let r = box_sample(src, src_w, factor, dx, dy, c);
            (c < 3 && alpha != 0) ==> alpha > 0 && 2 * alpha * r <= 2 * weighted + alpha < 2 * alpha * (
            r + 1)
        }),
{
    let n = factor * factor;
    let sum = block_sum(src, src_w, dx * factor, dy * factor, factor, factor, c);
    let alpha = block_sum(src, src_w, dx * factor, dy * factor, factor, factor, 3);
    let weighted = block_weighted_sum(src, src_w, dx * factor, dy * factor, factor, factor, c);
    lemma_block_sum_bounds(src, src_w, dx * factor, dy * factor, factor, factor, 3);
    assert(n >= 1) by (nonlinear_arith)
        requires
            n == factor * factor,
            factor >= 1,
    ;
    if c == 3 || alpha == 0 {
        lemma_rounding_bracket(sum, n);
    } else {
        lemma_rounding_bracket(weighted, alpha);
    }
}

/// `rounded_mean(sum, samples)` is the integer `r` with
/// `r - 1/2 <= sum / samples < r + 1/2`.
proof fn lemma_rounding_bracket(sum: int, samples: int)
    requires
        samples > 0,
    ensures
        2 * samples * rounded_mean(sum, samples) <= 2 * sum + samples < 2 * samples * (rounded_mean(
            sum,
            samples,
        ) + 1),
{
    let d = 2 * samples;
    let r = (2 * sum + samples) / d;
    lemma_fundamental_div_mod(2 * sum + samples, d);
    vstd::arithmetic::div_mod::lemma_mod_bound(2 * sum + samples, d);
    assert(d * r == 2 * samples * r) by (nonlinear_arith)
        requires
            d == 2 * samples,
    ;
    assert(2 * samples * (r + 1) == 2 * samples * r + d) by (nonlinear_arith)
        requires
            d == 2 * samples,
    ;
}

/// Size and centre offset of the canvas that is actually rendered when the
/// output is supersampled by `factor`: every output quantity scaled by it.
#[derive(Debug, Clone, Copy, PartialEq, Eq, Structural)]
pub struct RenderTarget {
    pub width: u32,
    pub height: u32,
    pub offset_x: i32,
    pub offset_y: i32,
    pub factor: u8,
}

/// The render canvas for an `out_w x out_h` output centred at
/// `(offset_x, offset_y)` and supersampled by `factor`.
pub fn supersampled_target(out_w: u32, out_h: u32, offset_x: i32, offset_y: i32, factor: u8) -> (r:
    RenderTarget)
    requires
        factor >= 1,
        out_w * factor <= u32::MAX,
        out_h * factor <= u32::MAX,
        i32::MIN <= offset_x * factor <= i32::MAX,
        i32::MIN <= offset_y * factor <= i32::MAX,
    ensures
        r.factor == factor,
        r.width == out_w * factor,
        r.height == out_h * factor,
        r.offset_x == offset_x * factor,
        r.offset_y == offset_y * factor,
{
    RenderTarget {
        width: out_w * factor as u32,
        height: out_h * factor as u32,
        offset_x: offset_x * factor as i32,
        offset_y: offset_y * factor as i32,
        factor,
    }
}

/// The render canvas for an `out_w x out_h` output, still or video frame:
/// supersampling is decided on the output size itself (see
/// [`safe_super_sample`]), so the enlarged canvas never exceeds 8192 pixels on
/// either side when it is enlarged at all.
pub fn output_render_target(super_sample: u8, out_w: u32, out_h: u32, offset_x: i32, offset_y: i32) -> (r:
    RenderTarget)
    requires
        i32::MIN <= offset_x * safe_factor(super_sample, out_w, out_h) <= i32::MAX,
        i32::MIN <= offset_y * safe_factor(super_sample, out_w, out_h) <= i32::MAX,
    ensures
        r.factor == safe_factor(super_sample, out_w, out_h),
        r.width == out_w * r.factor,
        r.height == out_h * r.factor,
        r.offset_x == offset_x * r.factor,
        r.offset_y == offset_y * r.factor,
        r.factor > 1 ==> r.width <= 8192 && r.height <= 8192,
{
    let factor = safe_super_sample(super_sample, out_w, out_h);
    supersampled_target(out_w, out_h, offset_x, offset_y, factor)
}

/// What a video export does next.
#[derive(Debug, Clone, Copy, PartialEq, Eq, Structural)]
pub enum ExportStep {
    /// Render animation frame `n`, hand it to the sink and keep it as the last frame.
    RenderFrame(u32),
    /// Hand the last frame to the sink once more (the still ending).
    RepeatLastFrame,
    /// Finish the sink.
    Finish,
    /// Nothing is left to do.
    Done,
}

/// Number of still-ending frames an export writes. An exporter that only
/// remembers frames it actually rendered (`stills_need_rendered_frame`)
/// writes none when the animation has no frame.
pub open spec fn export_stills(total_frames: u32, still_frame_ending: u32, stills_need_rendered_frame: bool) -> nat {
    if stills_need_rendered_frame && total_frames == 0 {
        0
    } else {
        still_frame_ending as nat
    }
}

/// Step `i` of an export of `total` animation frames and `stills` still
/// frames: the animation frames in order, then the stills, then one finish.
pub open spec fn export_step_at(total: nat, stills: nat, i: int) -> ExportStep {
    if 0 <= i < total {
        ExportStep::RenderFrame(i as u32)
    } else if total <= i < total + stills {
        ExportStep::RepeatLastFrame
    } else if i == total + stills {
        ExportStep::Finish
    } else {
        ExportStep::Done
    }
}

/// The whole sequence of sink operations of an export.
pub open spec fn export_plan(total: nat, stills: nat) -> Seq<ExportStep> {
    Seq::new(total + stills + 1, |i: int| export_step_at(total, stills, i))
}

/// Progress through a video export: which animation frame to render next,
/// how many still frames remain, and whether the sink was finished.
pub struct VideoExport {
    total_frames: u32,
    stills: u32,
    position: u64,
}

impl VideoExport {
    /// Number of animation frames.
    pub closed spec fn total(&self) -> nat {
        self.total_frames as nat
    }

    /// Number of still-ending frames.
    pub closed spec fn still_count(&self) -> nat {
        self.stills as nat
    }

    /// Steps already taken.
    pub closed spec fn position(&self) -> nat {
        self.position as nat
    }

    /// The export never runs past the step after its finish.
    pub open spec fn wf(&self) -> bool {
        self.position() <= self.total() + self.still_count() + 1
    }

    /// The step the export is at.
    pub open spec fn current(&self) -> ExportStep {
        export_step_at(self.total(), self.still_count(), self.position() as int)
    }

    /// An export of `total_frames` animation frames followed by
    /// `still_frame_ending` repetitions of the last frame (none when
    /// `stills_need_rendered_frame` and there is no animation frame).
    pub fn new(total_frames: u32, still_frame_ending: u32, stills_need_rendered_frame: bool) -> (r: Self)
        ensures
            r.wf(),
            r.total() == total_frames,
            r.still_count() == export_stills(total_frames, still_frame_ending, stills_need_rendered_frame),
            total_frames > 0 || !stills_need_rendered_frame ==> r.still_count() == still_frame_ending,
            r.position() == 0,
    {
        let stills = if stills_need_rendered_frame && total_frames == 0 {
            0
        } else {
            still_frame_ending
        };
        VideoExport { total_frames, stills, position: 0 }
    }

    /// The step to perform now.
    pub fn next_step(&self) -> (r: ExportStep)
        requires
            self.wf(),
        ensures
            r == self.current(),
    {
        let total = self.total_frames as u64;
        let stills = self.stills as u64;
        if self.position < total {
            ExportStep::RenderFrame(self.position as u32)
        } else if self.position < total + stills {
            ExportStep::RepeatLastFrame
        } else if self.position == total + stills {
            ExportStep::Finish
        } else {
            ExportStep::Done
        }
    }

    /// Records that the current step was performed; after `Done` nothing changes.
    pub fn advance(&mut self)
        requires
            old(self).wf(),
        ensures
            final(self).wf(),
            final(self).total() == old(self).total(),
            final(self).still_count() == old(self).still_count(),
            old(self).current() is Done ==> final(self).position() == old(self).position(),
            !(old(self).current() is Done) ==> final(self).position() == old(self).position() + 1,
    {
        let end = self.total_frames as u64 + self.stills as u64 + 1;
        if self.position < end {
            self.position = self.position + 1;
        }
    }
}

/// Every requested still frame is written: an export with at least one
/// animation frame, or whose exporter can repeat a frame it never rendered,
/// repeats the last frame exactly `still_frame_ending` times after the
/// animation and before the finish; only an exporter that needs a rendered
/// frame and has none writes no still frame.
pub proof fn export_writes_every_requested_still(
    total_frames: u32,
    still_frame_ending: u32,
    stills_need_rendered_frame: bool,
)
    ensures
        total_frames > 0 || !stills_need_rendered_frame ==> export_stills(
            total_frames,
            still_frame_ending,
            stills_need_rendered_frame,
        ) == still_frame_ending,
        stills_need_rendered_frame && total_frames == 0 ==> export_stills(
            total_frames,
            still_frame_ending,
            stills_need_rendered_frame,
        ) == 0,
        total_frames > 0 ==> forall|i: int|
            total_frames <= i < total_frames + still_frame_ending ==> #[trigger] export_plan(
                total_frames as nat,
                export_stills(total_frames, still_frame_ending, stills_need_rendered_frame),
            )[i] == ExportStep::RepeatLastFrame,
        total_frames > 0 ==> export_plan(
            total_frames as nat,
            export_stills(total_frames, still_frame_ending, stills_need_rendered_frame),
        )[total_frames + still_frame_ending] == ExportStep::Finish,
{
}

/// The shape of every export: the animation frames come first, each exactly
/// once and in order; then the still frames; the sink is finished exactly
/// once, as the last operation; after it there is nothing left to do.
pub proof fn export_plan_shape(total: nat, stills: nat)
    ensures
        export_plan(total, stills).len() == total + stills + 1,
        forall|i: int| 0 <= i < total ==> #[trigger] export_plan(total, stills)[i] == ExportStep::RenderFrame(i as u32),
        forall|i: int| total <= i < total + stills ==> #[trigger] export_plan(total, stills)[i] == ExportStep::RepeatLastFrame,
        export_plan(total, stills).last() == ExportStep::Finish,
        forall|i: int, j: int|
            0 <= i < export_plan(total, stills).len() && 0 <= j < export_plan(total, stills).len()
                && export_plan(total, stills)[i] == ExportStep::Finish && export_plan(total, stills)[j]
                == ExportStep::Finish ==> i == j,
        forall|i: int| 0 <= i < export_plan(total, stills).len() ==> !(#[trigger] export_plan(total, stills)[i] is Done),
        forall|i: int| i >= total + stills + 1 ==> #[trigger] export_step_at(total, stills, i) == ExportStep::Done,
{
}

} // verus!
