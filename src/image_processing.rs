use vstd::prelude::*;

use crate::args::{BinarizeOption, ContrastOption};
use crate::braille::{convert_size, generate_braille, glyph_grid, grid_size};
use crate::canvas::{
    lemma_index_in_bounds,
    lemma_next_row,
    lemma_push_pixel,
    pixel,
    raster_before,
    Canvas,
    RenderError,
};
use crate::contrast::{
    contrast_stretch,
    equalize_histogram,
    equalized,
    invert_image,
    inverted,
    stretched,
};
use crate::dither::{
    binarize_with_otsu,
    floyd_steinberg_dither,
    fs_pixel,
    ordered_dither,
    ordered_value,
    otsu_level_of,
    thresholded,
};

verus! {

/// A cell index of a `w`-wide grid, split into column and row.
pub proof fn lemma_split_index(i: int, w: int, h: int)
    requires
        0 <= i < w * h,
        0 < w,
    ensures
        0 <= i % w < w,
        0 <= i / w < h,
        (i / w) * w + i % w == i,
{
    vstd::arithmetic::div_mod::lemma_fundamental_div_mod(i, w);
    vstd::arithmetic::div_mod::lemma_div_pos_is_pos(i, w);
    assert(i / w < h) by (nonlinear_arith)
        requires
            i == w * (i / w) + i % w,
            0 <= i % w,
            0 <= i < w * h,
            0 < w,
    ;
}

/// A row-major buffer agrees with a per-cell description of it.
proof fn lemma_flat(s: Seq<u8>, t: Seq<u8>, w: int, h: int)
    requires
        s.len() == w * h,
        t.len() == w * h,
        0 < w,
        forall|x: int, y: int| 0 <= x < w && 0 <= y < h ==> #[trigger] pixel(s, w, x, y) == t[y * w + x],
    ensures
        s == t,
{
    assert forall|i: int| 0 <= i < s.len() implies s[i] == t[i] by {
        lemma_split_index(i, w, h);
        assert(pixel(s, w, i % w, i / w) == t[(i / w) * w + i % w]);
    }
    assert(s =~= t);
}

/// `x * src / dst` stays below `src` for `x` below `dst`.
proof fn lemma_scaled_coordinate(x: int, src: int, dst: int)
    requires
        0 <= x < dst,
        0 < src,
    ensures
        0 <= x * src / dst < src,
{
    vstd::arithmetic::div_mod::lemma_fundamental_div_mod(x * src, dst);
    assert(0 <= x * src) by (nonlinear_arith)
        requires
            0 <= x,
            0 < src,
    ;
    vstd::arithmetic::div_mod::lemma_div_pos_is_pos(x * src, dst);
    let q = x * src / dst;
    assert(q < src) by (nonlinear_arith)
        requires
            x * src == dst * q + (x * src) % dst,
            0 <= (x * src) % dst,
            0 <= x < dst,
            0 < src,
    ;
}

proof fn lemma_product_fits(a: int, b: int)
    requires
        0 <= a <= u32::MAX,
        0 <= b <= u32::MAX,
    ensures
        0 <= a * b <= u64::MAX,
{
    assert(0 <= a * b <= u32::MAX * u32::MAX) by (nonlinear_arith)
        requires
            0 <= a <= u32::MAX,
            0 <= b <= u32::MAX,
    ;
}

/// The samples after the contrast stage: at most one of stretch and equalisation,
/// then inversion when asked for.
pub open spec fn preprocessed(s: Seq<u8>, contrast: ContrastOption, invert: bool) -> Seq<u8> {
    let c = match contrast {
        ContrastOption::Off => s,
        ContrastOption::Stretch => stretched(s),
        ContrastOption::Equalize => equalized(s),
    };
    if invert {
        inverted(c)
    } else {
        c
    }
}

/// Nearest-neighbour resampling of a `sw` by `sh` buffer to `tw` by `th`: the cell
/// `(x, y)` takes the source sample at `(x * sw / tw, y * sh / th)`, rounded down.
pub open spec fn resized(s: Seq<u8>, sw: int, sh: int, tw: int, th: int) -> Seq<u8> {
    Seq::new(
        (tw * th) as nat,
        |i: int| pixel(s, sw, (i % tw) * sw / tw, (i / tw) * sh / th),
    )
}

/// The samples after binarisation of a `w` by `h` buffer.
pub open spec fn binarized(s: Seq<u8>, w: int, h: int, mode: BinarizeOption) -> Seq<u8> {
    match mode {
        BinarizeOption::Off => s,
        BinarizeOption::Odith => Seq::new(s.len(), |i: int| ordered_value(s[i], i % w, i / w)),
        BinarizeOption::Fsdith => Seq::new(s.len(), |i: int| fs_pixel(s, w, h, i % w, i / w)),
        BinarizeOption::Otsu => thresholded(s, otsu_level_of(s)),
    }
}

/// Nearest-neighbour resize to `target_w` by `target_h`: output cell `(x, y)` takes
/// the source sample at `(x * width / target_w, y * height / target_h)`, rounded
/// down. A target without area, and a source without area to sample, are refused.
pub fn resize_nearest(input: &Canvas, target_w: u32, target_h: u32) -> (r: Result<
    Canvas,
    RenderError,
>)
    requires
        input.wf(),
        target_w * target_h <= usize::MAX,
    ensures
        target_w == 0 || target_h == 0 ==> r == Err::<Canvas, RenderError>(RenderError::EmptyTarget),
        target_w > 0 && target_h > 0 && (input.width == 0 || input.height == 0) ==> r == Err::<
            Canvas,
            RenderError,
        >(RenderError::DegenerateInput),
        target_w > 0 && target_h > 0 && input.width > 0 && input.height > 0 ==> (r matches Ok(o)
            && o.wf() && o.width == target_w && o.height == target_h && o.samples@ == resized(
            input.samples@,
            input.width as int,
            input.height as int,
            target_w as int,
            target_h as int,
        )),
{
    if target_w == 0 || target_h == 0 {
        return Err(RenderError::EmptyTarget);
    }
    if input.width == 0 || input.height == 0 {
        return Err(RenderError::DegenerateInput);
    }
    let (sw, sh) = (input.width, input.height);
    let ghost (swi, shi, tw, th) = (sw as int, sh as int, target_w as int, target_h as int);
    let mut out: Vec<u8> = Vec::new();
    let mut y: u32 = 0;
    while y < target_h
        invariant
            input.wf(),
            sw == input.width && sh == input.height,
            swi == sw && shi == sh && tw == target_w && th == target_h,
            0 < sw && 0 < sh && 0 < target_w,
            y <= target_h,
            out@.len() == y * tw,
            forall|xx: int, yy: int|
                0 <= xx < tw && 0 <= yy && raster_before(xx, yy, 0, y as int) ==> #[trigger] pixel(
                    out@,
                    tw,
                    xx,
                    yy,
                ) == input.at(xx * swi / tw, yy * shi / th),
        decreases target_h - y,
    {
        proof {
            lemma_scaled_coordinate(y as int, shi, th);
            lemma_product_fits(y as int, shi);
        }
        let sy = (y as u64 * sh as u64 / target_h as u64) as u32;
        let mut x: u32 = 0;
        while x < target_w
            invariant
                input.wf(),
                sw == input.width && sh == input.height,
                swi == sw && shi == sh && tw == target_w && th == target_h,
                0 < sw && 0 < sh && 0 < target_w,
                y < target_h,
                sy == y * shi / th,
                sy < sh,
                x <= target_w,
                out@.len() == y * tw + x,
                forall|xx: int, yy: int|
                    0 <= xx < tw && 0 <= yy && raster_before(xx, yy, x as int, y as int)
                        ==> #[trigger] pixel(out@, tw, xx, yy) == input.at(
                        xx * swi / tw,
                        yy * shi / th,
                    ),
            decreases target_w - x,
        {
            proof {
                lemma_scaled_coordinate(x as int, swi, tw);
                lemma_product_fits(x as int, swi);
            }
            let sx = (x as u64 * sw as u64 / target_w as u64) as u32;
            let v = input.get(sx, sy);
            proof {
                lemma_push_pixel(out@, v, tw, x as int, y as int);
            }
            out.push(v);
            x += 1;
        }
        proof {
            lemma_next_row(y as int, tw);
        }
        y += 1;
    }
    proof {
        let t = resized(input.samples@, swi, shi, tw, th);
        assert(out@.len() == tw * th) by (nonlinear_arith)
            requires
                out@.len() == th * tw,
        ;
        assert forall|x: int, y: int| 0 <= x < tw && 0 <= y < th implies #[trigger] pixel(
            out@,
            tw,
            x,
            y,
        ) == t[y * tw + x] by {
            assert(raster_before(x, y, 0, th));
            lemma_index_in_bounds(x, y, tw, th);
            vstd::arithmetic::div_mod::lemma_fundamental_div_mod_converse(y * tw + x, tw, y, x);
        }
        lemma_flat(out@, t, tw, th);
    }
    Ok(Canvas { width: target_w, height: target_h, samples: out })
}

/// The contrast stage: stretch or equalise as chosen, then invert when asked for.
pub fn preprocess_image(input: &Canvas, contrast_opt: ContrastOption, invert_opt: bool) -> (r:
    Canvas)
    requires
        input.wf(),
        contrast_opt == ContrastOption::Equalize ==> input.samples@.len() <= u32::MAX,
    ensures
        r.wf(),
        r.width == input.width,
        r.height == input.height,
        r.samples@ == preprocessed(input.samples@, contrast_opt, invert_opt),
{
    let img = match contrast_opt {
        ContrastOption::Off => Canvas {
            width: input.width,
            height: input.height,
            samples: input.samples.clone(),
        },
        ContrastOption::Stretch => contrast_stretch(input),
        ContrastOption::Equalize => equalize_histogram(input),
    };
    if invert_opt {
        invert_image(&img)
    } else {
        img
    }
}

/// The binarisation stage in the chosen mode.
pub fn binarize(input: &Canvas, binarize_opt: BinarizeOption) -> (r: Canvas)
    requires
        input.wf(),
        binarize_opt == BinarizeOption::Otsu ==> input.samples@.len() * 255 <= u32::MAX,
    ensures
        r.wf(),
        r.width == input.width,
        r.height == input.height,
        r.samples@ == binarized(
            input.samples@,
            input.width as int,
            input.height as int,
            binarize_opt,
        ),
{
    let ghost (s, w, h) = (input.samples@, input.width as int, input.height as int);
    match binarize_opt {
        BinarizeOption::Off => Canvas {
            width: input.width,
            height: input.height,
            samples: input.samples.clone(),
        },
        BinarizeOption::Odith => {
            let r = ordered_dither(input);
            proof {
                if w > 0 {
                    let t = binarized(s, w, h, binarize_opt);
                    assert forall|x: int, y: int| 0 <= x < w && 0 <= y < h implies #[trigger] pixel(
                        r.samples@,
                        w,
                        x,
                        y,
                    ) == t[y * w + x] by {
                        assert(r.at(x, y) == ordered_value(input.at(x, y), x, y));
                        lemma_index_in_bounds(x, y, w, h);
                        vstd::arithmetic::div_mod::lemma_fundamental_div_mod_converse(
                            y * w + x,
                            w,
                            y,
                            x,
                        );
                    }
                    lemma_flat(r.samples@, t, w, h);
                } else {
                    assert(r.samples@ =~= binarized(s, w, h, binarize_opt));
                }
            }
            r
        },
        BinarizeOption::Fsdith => {
            let r = floyd_steinberg_dither(input);
            proof {
                if w > 0 {
                    let t = binarized(s, w, h, binarize_opt);
                    assert forall|x: int, y: int| 0 <= x < w && 0 <= y < h implies #[trigger] pixel(
                        r.samples@,
                        w,
                        x,
                        y,
                    ) == t[y * w + x] by {
                        assert(r.at(x, y) == fs_pixel(s, w, h, x, y));
                        lemma_index_in_bounds(x, y, w, h);
                        vstd::arithmetic::div_mod::lemma_fundamental_div_mod_converse(
                            y * w + x,
                            w,
                            y,
                            x,
                        );
                    }
                    lemma_flat(r.samples@, t, w, h);
                } else {
                    assert(r.samples@ =~= binarized(s, w, h, binarize_opt));
                }
            }
            r
        },
        BinarizeOption::Otsu => binarize_with_otsu(input),
    }
}

/// The stages run at a size whose counts fit: the target sides in `u32`, its
/// samples in `usize`, the source samples in the `u32` counts of equalisation and
/// the resized ones in the `u32` sums of Otsu's method.
pub open spec fn stages_fit(
    src_len: int,
    cols: int,
    rows: int,
    contrast: ContrastOption,
    mode: BinarizeOption,
) -> bool {
    &&& 2 * cols <= u32::MAX
    &&& 4 * rows <= u32::MAX
    &&& (2 * cols) * (4 * rows) <= usize::MAX
    &&& contrast == ContrastOption::Equalize ==> src_len <= u32::MAX
    &&& mode == BinarizeOption::Otsu ==> (2 * cols) * (4 * rows) * 255 <= u32::MAX
}

/// The image at the end of the pixel stages for a grid of `cols` by `rows` cells.
pub open spec fn processed(
    s: Seq<u8>,
    w: int,
    h: int,
    cols: int,
    rows: int,
    contrast: ContrastOption,
    invert: bool,
    mode: BinarizeOption,
) -> Seq<u8> {
    binarized(resized(preprocessed(s, contrast, invert), w, h, 2 * cols, 4 * rows), 2 * cols, 4 * rows, mode)
}

/// The pixel stages: contrast, then a nearest-neighbour resize to two samples
/// per column and four per row of the grid, then binarisation.
pub fn process_image(
    img: &Canvas,
    cols: u32,
    rows: u32,
    contrast_opt: ContrastOption,
    invert_opt: bool,
    binarize_opt: BinarizeOption,
) -> (r: Result<Canvas, RenderError>)
    requires
        img.wf(),
        stages_fit(img.samples@.len() as int, cols as int, rows as int, contrast_opt, binarize_opt),
    ensures
        cols == 0 || rows == 0 ==> r == Err::<Canvas, RenderError>(RenderError::EmptyTarget),
        cols > 0 && rows > 0 && (img.width == 0 || img.height == 0) ==> r == Err::<
            Canvas,
            RenderError,
        >(RenderError::DegenerateInput),
        cols > 0 && rows > 0 && img.width > 0 && img.height > 0 ==> (r matches Ok(o) && o.wf()
            && o.width == 2 * cols && o.height == 4 * rows && o.samples@ == processed(
            img.samples@,
            img.width as int,
            img.height as int,
            cols as int,
            rows as int,
            contrast_opt,
            invert_opt,
            binarize_opt,
        )),
{
    let pre = preprocess_image(img, contrast_opt, invert_opt);
    let resized_img = resize_nearest(&pre, cols * 2, rows * 4)?;
    Ok(binarize(&resized_img, binarize_opt))
}

/// Whether the stages can run at this size; see `stages_fit`.
fn check_fit(
    src_len: usize,
    cols: u32,
    rows: u32,
    contrast: ContrastOption,
    mode: BinarizeOption,
) -> (r: bool)
    ensures
        r == stages_fit(src_len as int, cols as int, rows as int, contrast, mode),
{
    let (c, rr) = (cols as u64, rows as u64);
    if 2 * c > u32::MAX as u64 || 4 * rr > u32::MAX as u64 {
        return false;
    }
    proof {
        lemma_product_fits(2 * c, 4 * rr);
    }
    let count = (2 * c) * (4 * rr);
    if count > usize::MAX as u64 {
        return false;
    }
    if contrast == ContrastOption::Equalize && src_len as u64 > u32::MAX as u64 {
        return false;
    }
    if mode == BinarizeOption::Otsu && count > u32::MAX as u64 / 255 {
        return false;
    }
    true
}

/// The whole pipeline: resolves the grid size for the image's aspect (see
/// `convert_size`), runs the pixel stages and packs the result into Braille text,
/// one line per cell row.
pub fn render(
    img: &Canvas,
    cols: u32,
    rows: u32,
    contrast_opt: ContrastOption,
    invert_opt: bool,
    binarize_opt: BinarizeOption,
) -> (r: Result<String, RenderError>)
    requires
        img.wf(),
    ensures
        img.width == 0 || img.height == 0 ==> r == Err::<String, RenderError>(
            RenderError::DegenerateInput,
        ),
        img.width > 0 && img.height > 0 ==> ({
            let (c, rr) = grid_size(img.width as int, img.height as int, cols as int, rows as int);
            &&& (c == 0 || rr == 0) ==> r == Err::<String, RenderError>(RenderError::EmptyTarget)
            &&& (c > 0 && rr > 0 && !stages_fit(
                img.samples@.len() as int,
                c as int,
                rr as int,
                contrast_opt,
                binarize_opt,
            )) ==> r == Err::<String, RenderError>(RenderError::TooLarge)
            &&& (c > 0 && rr > 0 && stages_fit(
                img.samples@.len() as int,
                c as int,
                rr as int,
                contrast_opt,
                binarize_opt,
            )) ==> (r matches Ok(t) && t@ == glyph_grid(
                processed(
                    img.samples@,
                    img.width as int,
                    img.height as int,
                    c as int,
                    rr as int,
                    contrast_opt,
                    invert_opt,
                    binarize_opt,
                ),
                2 * c,
                c as nat,
                rr as nat,
            ))
        }),
{
    let (c, rr) = convert_size(img.width, img.height, cols, rows)?;
    if c == 0 || rr == 0 {
        return Err(RenderError::EmptyTarget);
    }
    if !check_fit(img.samples.len(), c, rr, contrast_opt, binarize_opt) {
        return Err(RenderError::TooLarge);
    }
    let out = process_image(img, c, rr, contrast_opt, invert_opt, binarize_opt)?;
    Ok(generate_braille(&out, c, rr))
}

/// Binarisation leaves only black and white: in every mode but `Off` for any image,
/// and with `Off` for an image that is black and white already.
pub proof fn lemma_binarized_two_level(c: Canvas, mode: BinarizeOption)
    requires
        c.wf(),
        mode == BinarizeOption::Off ==> forall|i: int|
            0 <= i < c.samples@.len() ==> c.samples@[i] == 0 || c.samples@[i] == 255,
    ensures
        forall|i: int|
            0 <= i < c.samples@.len() ==> #[trigger] binarized(
                c.samples@,
                c.width as int,
                c.height as int,
                mode,
            )[i] == 0 || binarized(c.samples@, c.width as int, c.height as int, mode)[i] == 255,
{
}

/// `img` pasted at the top-left corner of a white `width` by `height` canvas.
pub fn put_image_into_canvas(img: &Canvas, width: u32, height: u32) -> (r: Canvas)
    requires
        img.wf(),
        img.width <= width,
        img.height <= height,
        width * height <= usize::MAX,
    ensures
        r.wf(),
        r.width == width,
        r.height == height,
        forall|x: int, y: int|
            0 <= x < width && 0 <= y < height ==> #[trigger] r.at(x, y) == if x < img.width && y
                < img.height {
                img.at(x, y)
            } else {
                255
            },
{
    let ghost w = width as int;
    let mut out: Vec<u8> = Vec::new();
    let mut y: u32 = 0;
    while y < height
        invariant
            img.wf(),
            img.width <= width,
            img.height <= height,
            w == width,
            y <= height,
            out@.len() == y * w,
            forall|xx: int, yy: int|
                0 <= xx < w && 0 <= yy && raster_before(xx, yy, 0, y as int) ==> #[trigger] pixel(
                    out@,
                    w,
                    xx,
                    yy,
                ) == if xx < img.width && yy < img.height {
                    img.at(xx, yy)
                } else {
                    255
                },
        decreases height - y,
    {
        let mut x: u32 = 0;
        while x < width
            invariant
                img.wf(),
                img.width <= width,
                img.height <= height,
                w == width,
                y < height,
                x <= width,
                out@.len() == y * w + x,
                forall|xx: int, yy: int|
                    0 <= xx < w && 0 <= yy && raster_before(xx, yy, x as int, y as int)
                        ==> #[trigger] pixel(out@, w, xx, yy) == if xx < img.width && yy
                        < img.height {
                        img.at(xx, yy)
                    } else {
                        255
                    },
            decreases width - x,
        {
            let v = if x < img.width && y < img.height {
                img.get(x, y)
            } else {
                255
            };
            proof {
                lemma_push_pixel(out@, v, w, x as int, y as int);
            }
            out.push(v);
            x += 1;
        }
        proof {
            lemma_next_row(y as int, w);
        }
        y += 1;
    }
    assert(out@.len() == width * height) by (nonlinear_arith)
        requires
            out@.len() == height * w,
            w == width,
    ;
    let r = Canvas { width, height, samples: out };
    assert forall|x: int, y: int| 0 <= x < width && 0 <= y < height implies #[trigger] r.at(x, y)
        == if x < img.width && y < img.height {
        img.at(x, y)
    } else {
        255
    } by {
        assert(raster_before(x, y, 0, height as int));
    }
    r
}

} // verus!
