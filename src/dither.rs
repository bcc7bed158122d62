use vstd::prelude::*;

use crate::canvas::{lemma_next_row, lemma_push_pixel, pixel, raster_before, Canvas};

verus! {

/// The 4 by 4 Bayer matrix, entry at column `col`, row `row`.
pub open spec fn bayer(col: int, row: int) -> int {
    let r = if row == 0 {
        seq![0int, 8, 2, 10]
    } else if row == 1 {
        seq![12int, 4, 14, 6]
    } else if row == 2 {
        seq![3int, 11, 1, 9]
    } else {
        seq![15int, 7, 13, 5]
    };
    r[col]
}

/// The threshold of matrix entry `m`: `(m + 0.5) / 16` of full scale, rounded.
pub open spec fn bayer_threshold(m: int) -> int {
    ((2 * m + 1) * 255 + 16) / 32
}

/// Ordered dithering of sample `v` at `(x, y)`: white when it exceeds the
/// threshold of the matrix tiled over the image.
pub open spec fn ordered_value(v: u8, x: int, y: int) -> u8 {
    if v > bayer_threshold(bayer(x % 4, y % 4)) {
        255
    } else {
        0
    }
}

/// The Bayer matrix entry at column `col`, row `row`.
fn bayer_entry(col: u32, row: u32) -> (m: u32)
    requires
        col < 4,
        row < 4,
    ensures
        m == bayer(col as int, row as int),
        m < 16,
{
    if row == 0 {
        if col == 0 { 0 } else if col == 1 { 8 } else if col == 2 { 2 } else { 10 }
    } else if row == 1 {
        if col == 0 { 12 } else if col == 1 { 4 } else if col == 2 { 14 } else { 6 }
    } else if row == 2 {
        if col == 0 { 3 } else if col == 1 { 11 } else if col == 2 { 1 } else { 9 }
    } else {
        if col == 0 { 15 } else if col == 1 { 7 } else if col == 2 { 13 } else { 5 }
    }
}

/// Ordered dithering with the 4 by 4 Bayer matrix tiled over the image: each sample
/// becomes 255 when it exceeds its cell's threshold, else 0.
pub fn ordered_dither(input: &Canvas) -> (r: Canvas)
    requires
        input.wf(),
    ensures
        r.wf(),
        r.width == input.width,
        r.height == input.height,
        forall|x: int, y: int|
            0 <= x < r.width && 0 <= y < r.height ==> #[trigger] r.at(x, y) == ordered_value(
                input.at(x, y),
                x,
                y,
            ),
{
    let (width, height) = (input.width, input.height);
    let ghost w = width as int;
    let mut out: Vec<u8> = Vec::new();
    let mut y: u32 = 0;
    while y < height
        invariant
            input.wf(),
            width == input.width,
            height == input.height,
            w == width,
            y <= height,
            out@.len() == y * w,
            forall|xx: int, yy: int|
                0 <= xx < w && 0 <= yy && raster_before(xx, yy, 0, y as int) ==> #[trigger] pixel(
                    out@,
                    w,
                    xx,
                    yy,
                ) == ordered_value(input.at(xx, yy), xx, yy),
        decreases height - y,
    {
        let mut x: u32 = 0;
        while x < width
            invariant
                input.wf(),
                width == input.width,
                height == input.height,
                w == width,
                y < height,
                x <= width,
                out@.len() == y * w + x,
                forall|xx: int, yy: int|
                    0 <= xx < w && 0 <= yy && raster_before(xx, yy, x as int, y as int)
                        ==> #[trigger] pixel(out@, w, xx, yy) == ordered_value(
                        input.at(xx, yy),
                        xx,
                        yy,
                    ),
            decreases width - x,
        {
            let m = bayer_entry(x % 4, y % 4);
            let threshold = ((2 * m + 1) * 255 + 16) / 32;
            let v = input.get(x, y);
            let new_value: u8 = if v as u32 > threshold {
                255
            } else {
                0
            };
            proof {
                lemma_push_pixel(out@, new_value, w, x as int, y as int);
            }
            out.push(new_value);
            x += 1;
        }
        proof {
            lemma_next_row(y as int, w);
        }
        y += 1;
    }
    assert(out@.len() == width * height) by (nonlinear_arith)
        requires
            out@.len() == height * w,
            w == width,
    ;
    let r = Canvas { width, height, samples: out };
    assert forall|x: int, y: int| 0 <= x < r.width && 0 <= y < r.height implies #[trigger] r.at(
        x,
        y,
    ) == ordered_value(input.at(x, y), x, y) by {
        assert(raster_before(x, y, 0, height as int));
    }
    r
}

/// One intensity step in the error buffer of error diffusion, which keeps
/// 1/256 of a step.
pub const FS_ONE: i32 = 256;

/// The share `weight / 16` of error `e`, truncated toward zero.
pub open spec fn fs_share(e: int, weight: int) -> int {
    if e >= 0 {
        e * weight / 16
    } else {
        -((-e) * weight / 16)
    }
}

/// The level a buffered value is quantised to: white from mid-grey up, else black.
pub open spec fn fs_level(v: int) -> int {
    if v >= 128 * FS_ONE {
        255 * FS_ONE
    } else {
        0
    }
}

/// The error buffer before any pixel is visited: the samples, scaled.
pub open spec fn fs_start(src: Seq<u8>) -> Seq<int> {
    Seq::new(src.len(), |i: int| src[i] * FS_ONE)
}

/// The buffer after the quantisation error of `(x, y)` is spread to the neighbours
/// not yet visited: 7/16 right, 3/16 below left, 5/16 below, 1/16 below right.
/// Shares that would fall outside the image are dropped.
pub open spec fn fs_spread(b: Seq<int>, w: int, h: int, x: int, y: int) -> Seq<int> {
    let i = y * w + x;
    let e = b[i] - fs_level(b[i]);
    let b1 = if x + 1 < w {
        b.update(i + 1, b[i + 1] + fs_share(e, 7))
    } else {
        b
    };
    let b2 = if x > 0 && y + 1 < h {
        b1.update(i + w - 1, b1[i + w - 1] + fs_share(e, 3))
    } else {
        b1
    };
    let b3 = if y + 1 < h {
        b2.update(i + w, b2[i + w] + fs_share(e, 5))
    } else {
        b2
    };
    if x + 1 < w && y + 1 < h {
        b3.update(i + w + 1, b3[i + w + 1] + fs_share(e, 1))
    } else {
        b3
    }
}

/// The error buffer when `(x, y)` is reached in raster order.
pub open spec fn fs_buffer(src: Seq<u8>, w: int, h: int, x: int, y: int) -> Seq<int>
    decreases y, x,
{
    if y < 0 || x < 0 || (y == 0 && x == 0) {
        fs_start(src)
    } else if x > 0 {
        fs_spread(fs_buffer(src, w, h, x - 1, y), w, h, x - 1, y)
    } else {
        fs_spread(fs_buffer(src, w, h, w - 1, y - 1), w, h, w - 1, y - 1)
    }
}

/// The output of error diffusion at `(x, y)`.
pub open spec fn fs_pixel(src: Seq<u8>, w: int, h: int, x: int, y: int) -> u8 {
    if fs_buffer(src, w, h, x, y)[y * w + x] >= 128 * FS_ONE {
        255
    } else {
        0
    }
}

/// How far the buffered value at `j` has drifted from its sample.
spec fn fs_drift(b: Seq<int>, src: Seq<u8>, j: int) -> int {
    b[j] - src[j] * FS_ONE
}

/// Sixteenths of an error already received by cell `p` of the next row once the
/// current row has been visited up to column `x`.
spec fn below_received(p: int, x: int) -> int {
    if p + 2 <= x {
        9
    } else if p + 1 == x {
        6
    } else if p == x {
        1
    } else {
        0
    }
}

proof fn lemma_share_bound(e: int, weight: int)
    requires
        -32768 <= e <= 32768,
        0 <= weight <= 16,
    ensures
        -2048 * weight <= fs_share(e, weight) <= 2048 * weight,
{
    if e >= 0 {
        assert(e * weight <= 32768 * weight) by (nonlinear_arith)
            requires
                0 <= e <= 32768,
                0 <= weight,
        ;
        assert(0 <= e * weight) by (nonlinear_arith)
            requires
                0 <= e,
                0 <= weight,
        ;
        assert(e * weight / 16 <= 2048 * weight) by (nonlinear_arith)
            requires
                0 <= e * weight <= 32768 * weight,
        ;
        assert(0 <= e * weight / 16) by (nonlinear_arith)
            requires
                0 <= e * weight,
        ;
    } else {
        let f = -e;
        assert(f * weight <= 32768 * weight) by (nonlinear_arith)
            requires
                0 <= f <= 32768,
                0 <= weight,
        ;
        assert(0 <= f * weight) by (nonlinear_arith)
            requires
                0 <= f,
                0 <= weight,
        ;
        assert(f * weight / 16 <= 2048 * weight) by (nonlinear_arith)
            requires
                0 <= f * weight <= 32768 * weight,
        ;
        assert(0 <= f * weight / 16) by (nonlinear_arith)
            requires
                0 <= f * weight,
        ;
    }
}

/// The samples of a buffer of `i32` as integers.
spec fn ints(b: Seq<i32>) -> Seq<int> {
    b.map_values(|v: i32| v as int)
}

/// How far the buffer may have drifted from the samples when column `x` of the row
/// starting at `row` is next: the current cell has received at most a whole error,
/// the rest of the row at most 9/16 of one from the row above, the next row what
/// `below_received` counts, and later rows nothing.
spec fn fs_bounded(b: Seq<int>, src: Seq<u8>, row: int, w: int, x: int, below: bool) -> bool {
    &&& x < w ==> -128 * 256 <= fs_drift(b, src, row + x) <= 128 * 256
    &&& forall|p: int| x < p < w ==> -72 * 256 <= #[trigger] fs_drift(b, src, row + p) <= 72 * 256
    &&& below ==> forall|p: int|
        0 <= p < w ==> -2048 * below_received(p, x) <= #[trigger] fs_drift(b, src, row + w + p)
            <= 2048 * below_received(p, x)
    &&& forall|j: int| row + 2 * w <= j < b.len() ==> #[trigger] b[j] == src[j] * FS_ONE
}

/// Visiting `(x, y)` keeps the buffer within the drift bounds of the next column.
proof fn lemma_spread_bounded(b: Seq<int>, src: Seq<u8>, w: int, h: int, x: int, y: int)
    requires
        b.len() == src.len(),
        0 <= x < w,
        0 <= y < h,
        y * w + w <= b.len(),
        y + 1 < h ==> y * w + 2 * w <= b.len(),
        fs_bounded(b, src, y * w, w, x, y + 1 < h),
    ensures
        fs_spread(b, w, h, x, y).len() == b.len(),
        fs_bounded(fs_spread(b, w, h, x, y), src, y * w, w, x + 1, y + 1 < h),
{
    assert(FS_ONE == 256);
    let row = y * w;
    let i = row + x;
    let below = y + 1 < h;
    assert(-128 * 256 <= fs_drift(b, src, row + x) <= 128 * 256);
    let e = b[i] - fs_level(b[i]);
    lemma_share_bound(e, 7);
    lemma_share_bound(e, 3);
    lemma_share_bound(e, 5);
    lemma_share_bound(e, 1);
    let b1 = if x + 1 < w {
        b.update(i + 1, b[i + 1] + fs_share(e, 7))
    } else {
        b
    };
    let b2 = if x > 0 && below {
        b1.update(i + w - 1, b1[i + w - 1] + fs_share(e, 3))
    } else {
        b1
    };
    let b3 = if below {
        b2.update(i + w, b2[i + w] + fs_share(e, 5))
    } else {
        b2
    };
    let b4 = if x + 1 < w && below {
        b3.update(i + w + 1, b3[i + w + 1] + fs_share(e, 1))
    } else {
        b3
    };
    assert(b4 == fs_spread(b, w, h, x, y));
    if x + 1 < w {
        assert(-72 * 256 <= fs_drift(b, src, row + (x + 1)) <= 72 * 256);
        assert(b4[row + (x + 1)] == b[row + (x + 1)] + fs_share(e, 7));
    }
    assert forall|p: int| x + 1 < p < w implies -72 * 256 <= #[trigger] fs_drift(b4, src, row + p)
        <= 72 * 256 by {
        assert(-72 * 256 <= fs_drift(b, src, row + p) <= 72 * 256);
        assert(b4[row + p] == b[row + p]);
    }
    if below {
        assert forall|p: int| 0 <= p < w implies -2048 * below_received(p, x + 1)
            <= #[trigger] fs_drift(b4, src, row + w + p) <= 2048 * below_received(p, x + 1) by {
            assert(-2048 * below_received(p, x) <= fs_drift(b, src, row + w + p) <= 2048
                * below_received(p, x));
            if p == x - 1 {
                assert(b4[row + w + p] == b[row + w + p] + fs_share(e, 3));
            } else if p == x {
                assert(b4[row + w + p] == b[row + w + p] + fs_share(e, 5));
            } else if p == x + 1 {
                assert(b4[row + w + p] == b[row + w + p] + fs_share(e, 1));
            } else {
                assert(b4[row + w + p] == b[row + w + p]);
            }
        }
    }
    assert forall|j: int| row + 2 * w <= j < b4.len() implies #[trigger] b4[j] == src[j]
        * FS_ONE by {
        assert(b[j] == src[j] * FS_ONE);
        assert(b4[j] == b[j]);
    }
}

/// Visits `(x, y)`: quantises its buffered value and spreads the error.
#[verifier::rlimit(60)]
fn fs_visit(
    buf: &mut Vec<i32>,
    Ghost(src): Ghost<Seq<u8>>,
    row: usize,
    x: usize,
    y: usize,
    w: usize,
    h: usize,
) -> (q: u8)
    requires
        src.len() == old(buf)@.len(),
        0 < w,
        x < w,
        y < h,
        row == y * w,
        row + w <= old(buf)@.len(),
        y + 1 < h ==> row + 2 * w <= old(buf)@.len(),
        fs_bounded(ints(old(buf)@), src, row as int, w as int, x as int, y + 1 < h),
    ensures
        final(buf)@.len() == old(buf)@.len(),
        ints(final(buf)@) == fs_spread(ints(old(buf)@), w as int, h as int, x as int, y as int),
        q == (if old(buf)@[row + x] >= 128 * FS_ONE {
            255u8
        } else {
            0u8
        }),
        fs_bounded(ints(final(buf)@), src, row as int, w as int, x + 1, y + 1 < h),
{
    let ghost b0 = buf@;
    let ghost below = y + 1 < h;
    let ghost (wi, xi, ri) = (w as int, x as int, row as int);
    let ghost m0 = ints(b0);
    let len = buf.len();
    let i = row + x;
    let old_value = buf[i];
    assert(FS_ONE == 256);
    assert(-128 * 256 <= fs_drift(m0, src, ri + xi) <= 128 * 256);
    let level: i32 = if old_value >= 128 * FS_ONE {
        255 * FS_ONE
    } else {
        0
    };
    let e = old_value - level;
    proof {
        lemma_share_bound(e as int, 7);
        lemma_share_bound(e as int, 3);
        lemma_share_bound(e as int, 5);
        lemma_share_bound(e as int, 1);
        if x + 1 < w {
            assert(-72 * 256 <= fs_drift(m0, src, ri + (xi + 1)) <= 72 * 256);
        }
        if below {
            if x > 0 {
                assert(-2048 * 6 <= fs_drift(m0, src, ri + wi + (xi - 1)) <= 2048 * 6);
            }
            assert(-2048 <= fs_drift(m0, src, ri + wi + xi) <= 2048);
            if x + 1 < w {
                assert(fs_drift(m0, src, ri + wi + (xi + 1)) == 0);
            }
        }
    }
    let ghost mut m = m0;
    if x + 1 < w {
        let v = buf[i + 1] + e * 7 / 16;
        buf.set(i + 1, v);
        proof {
            m = m.update(i + 1, m[i + 1] + fs_share(e as int, 7));
        }
    }
    assert(ints(buf@) =~= m);
    if x > 0 && y + 1 < h {
        let v = buf[i + w - 1] + e * 3 / 16;
        buf.set(i + w - 1, v);
        proof {
            m = m.update(i + w - 1, m[i + w - 1] + fs_share(e as int, 3));
        }
    }
    assert(ints(buf@) =~= m);
    if y + 1 < h {
        let v = buf[i + w] + e * 5 / 16;
        buf.set(i + w, v);
        proof {
            m = m.update(i + w, m[i + w] + fs_share(e as int, 5));
        }
    }
    assert(ints(buf@) =~= m);
    if x + 1 < w && y + 1 < h {
        let v = buf[i + w + 1] + e / 16;
        buf.set(i + w + 1, v);
        proof {
            m = m.update(i + w + 1, m[i + w + 1] + fs_share(e as int, 1));
        }
    }
    assert(ints(buf@) =~= m);
    proof {
        lemma_spread_bounded(m0, src, wi, h as int, xi, y as int);
    }
    if old_value >= 128 * FS_ONE {
        255
    } else {
        0
    }
}

proof fn lemma_rows_fit(y: int, w: int, h: int)
    requires
        0 <= y < h,
        0 <= w,
    ensures
        0 <= y * w,
        y * w + w <= h * w,
        (y + 1) * w == y * w + w,
{
    assert(0 <= y * w) by (nonlinear_arith)
        requires
            0 <= y,
            0 <= w,
    ;
    assert(y * w + w <= h * w) by (nonlinear_arith)
        requires
            y < h,
            0 <= w,
    ;
    lemma_next_row(y, w);
}

/// Floyd-Steinberg error diffusion: pixels are visited in raster order, each is
/// set to 0 or 255 by comparing its buffered value with mid-grey, and the
/// difference is spread to the neighbours not yet visited (see `fs_spread`).
pub fn floyd_steinberg_dither(input: &Canvas) -> (r: Canvas)
    requires
        input.wf(),
    ensures
        r.wf(),
        r.width == input.width,
        r.height == input.height,
        forall|x: int, y: int|
            0 <= x < r.width && 0 <= y < r.height ==> #[trigger] r.at(x, y) == fs_pixel(
                input.samples@,
                input.width as int,
                input.height as int,
                x,
                y,
            ),
{
    let (width, height) = (input.width, input.height);
    let n = input.samples.len();
    let ghost src = input.samples@;
    let ghost wi = width as int;
    let ghost hi = height as int;
    if width == 0 || height == 0 {
        assert(width * height == 0) by (nonlinear_arith)
            requires
                width == 0 || height == 0,
        ;
        return Canvas { width, height, samples: Vec::new() };
    }
    let w = width as usize;
    let h = height as usize;
    let mut buf: Vec<i32> = Vec::with_capacity(n);
    let mut i: usize = 0;
    while i < n
        invariant
            n == src.len(),
            src == input.samples@,
            i <= n,
            buf@.len() == i,
            forall|j: int| 0 <= j < i ==> #[trigger] buf@[j] == src[j] * FS_ONE,
        decreases n - i,
    {
        buf.push(input.samples[i] as i32 * FS_ONE);
        i += 1;
    }
    assert(ints(buf@) =~= fs_start(src));
    assert forall|p: int| 0 <= p < wi implies #[trigger] fs_drift(ints(buf@), src, 0 * wi + p) == 0 by {
        assert(0 * wi + p == p);
        assert(p < n) by (nonlinear_arith)
            requires
                0 <= p < wi,
                n == wi * hi,
                0 < hi,
        ;
    }
    let mut out: Vec<u8> = Vec::with_capacity(n);
    let mut y: usize = 0;
    while y < h
        invariant
            input.wf(),
            src == input.samples@,
            wi == width && w == width && 0 < w,
            hi == height && h == height && 0 < h,
            n == src.len(),
            n == wi * hi,
            y <= h,
            buf@.len() == n,
            ints(buf@) == fs_buffer(src, wi, hi, 0, y as int),
            out@.len() == y * wi,
            forall|xx: int, yy: int|
                0 <= xx < wi && 0 <= yy && raster_before(xx, yy, 0, y as int) ==> #[trigger] pixel(
                    out@,
                    wi,
                    xx,
                    yy,
                ) == fs_pixel(src, wi, hi, xx, yy),
            y < h ==> forall|p: int|
                0 <= p < wi ==> -72 * FS_ONE <= #[trigger] fs_drift(ints(buf@), src, y * wi + p) <= 72
                    * FS_ONE,
            forall|j: int| (y + 1) * wi <= j < n ==> #[trigger] ints(buf@)[j] == src[j] * FS_ONE,
        decreases h - y,
    {
        proof {
            lemma_rows_fit(y as int, wi, hi);
        }
        let row = y * w;
        let ghost below = y + 1 < h;
        proof {
            if below {
                lemma_rows_fit(y + 1, wi, hi);
            }
        }
        let mut x: usize = 0;
        while x < w
            invariant
                input.wf(),
                src == input.samples@,
                wi == width && w == width && 0 < w,
                hi == height && h == height && 0 < h,
                n == src.len(),
                n == wi * hi,
                y < h,
                below == (y + 1 < h),
                row == y * wi,
                row + wi <= n,
                below ==> row + 2 * wi <= n,
                x <= w,
                buf@.len() == n,
                ints(buf@) == fs_buffer(src, wi, hi, x as int, y as int),
                out@.len() == y * wi + x,
                forall|xx: int, yy: int|
                    0 <= xx < wi && 0 <= yy && raster_before(xx, yy, x as int, y as int)
                        ==> #[trigger] pixel(out@, wi, xx, yy) == fs_pixel(src, wi, hi, xx, yy),
                fs_bounded(ints(buf@), src, row as int, wi, x as int, below),
            decreases w - x,
        {
            proof {
                lemma_push_pixel(out@, if buf@[row + x] >= 128 * FS_ONE { 255u8 } else { 0u8 }, wi, x as int, y as int);
            }
            let q = fs_visit(&mut buf, Ghost(src), row, x, y, w, h);
            out.push(q);
            x += 1;
        }
        proof {
            lemma_next_row(y as int, wi);
            lemma_next_row(y + 1, wi);
        }
        y += 1;
    }
    assert(out@.len() == width * height) by (nonlinear_arith)
        requires
            out@.len() == hi * wi,
            wi == width,
            hi == height,
    ;
    let r = Canvas { width, height, samples: out };
    assert forall|x: int, y: int| 0 <= x < r.width && 0 <= y < r.height implies #[trigger] r.at(
        x,
        y,
    ) == fs_pixel(src, wi, hi, x, y) by {
        assert(raster_before(x, y, 0, hi));
    }
    r
}

/// Every sample at or above `threshold` turned white, every other black.
pub open spec fn thresholded(s: Seq<u8>, threshold: u8) -> Seq<u8> {
    s.map_values(
        |v: u8|
            if v < threshold {
                0u8
            } else {
                255u8
            },
    )
}

/// Global thresholding: samples below `threshold` become 0, the others 255.
pub fn threshold_canvas(input: &Canvas, threshold: u8) -> (r: Canvas)
    requires
        input.wf(),
    ensures
        r.wf(),
        r.width == input.width,
        r.height == input.height,
        r.samples@ == thresholded(input.samples@, threshold),
{
    let n = input.samples.len();
    let mut out: Vec<u8> = Vec::with_capacity(n);
    let mut i: usize = 0;
    while i < n
        invariant
            n == input.samples@.len(),
            i <= n,
            out@ == thresholded(input.samples@, threshold).subrange(0, i as int),
        decreases n - i,
    {
        let v = if input.samples[i] < threshold {
            0
        } else {
            255
        };
        out.push(v);
        i += 1;
        assert(out@ =~= thresholded(input.samples@, threshold).subrange(0, i as int));
    }
    assert(out@ =~= thresholded(input.samples@, threshold));
    Canvas { width: input.width, height: input.height, samples: out }
}

/// Otsu's threshold of a sequence of samples.
pub uninterp spec fn otsu_level_of(s: Seq<u8>) -> u8;

/// Relies on imageproc::contrast::otsu_level, which computes the threshold from the
/// histogram of the samples. Its sums are `u32`: the weight of all samples and the
/// product of an intensity with its count must fit.
#[verifier::external_body]
fn otsu_level(input: &Canvas) -> (r: u8)
    requires
        input.wf(),
        input.samples@.len() * 255 <= u32::MAX,
    ensures
        r == otsu_level_of(input.samples@),
{
    let img = image::GrayImage::from_raw(input.width, input.height, input.samples.clone());
    imageproc::contrast::otsu_level(&img.unwrap())
}

/// Binarisation at Otsu's threshold: samples below it become 0, the others 255.
pub fn binarize_with_otsu(input: &Canvas) -> (r: Canvas)
    requires
        input.wf(),
        input.samples@.len() * 255 <= u32::MAX,
    ensures
        r.wf(),
        r.width == input.width,
        r.height == input.height,
        r.samples@ == thresholded(input.samples@, otsu_level_of(input.samples@)),
{
    let threshold = otsu_level(input);
    threshold_canvas(input, threshold)
}

/// Ordered dithering keeps full white white and full black black, whatever the
/// matrix entry at the pixel.
pub proof fn lemma_ordered_extremes(x: int, y: int)
    ensures
        ordered_value(255, x, y) == 255,
        ordered_value(0, x, y) == 0,
{
    let (col, row) = (x % 4, y % 4);
    assert(0 <= col < 4 && 0 <= row < 4);
    assert(0 <= bayer(col, row) <= 15);
    assert(8 <= bayer_threshold(bayer(col, row)) <= 247);
}

} // verus!
