use vstd::prelude::*;
use vstd::string::StringExecFns;

use crate::canvas::{lemma_next_row, lemma_push_pixel, pixel, raster_before, Canvas};

verus! {

/// The frames' texts, one after another, separated by a line holding a comma
/// (`,` then a line break).
pub open spec fn joined_frames(frames: Seq<Seq<char>>) -> Seq<char>
    decreases frames.len(),
{
    if frames.len() == 0 {
        Seq::empty()
    } else if frames.len() == 1 {
        frames[0]
    } else {
        joined_frames(frames.drop_last()) + ",\n"@ + frames.last()
    }
}

/// Joins rendered frames with `,` and a line break between each two.
pub fn join_frames(frames: &Vec<String>) -> (r: String)
    ensures
        r@ == joined_frames(frames@.map_values(|f: String| f@)),
{
    let ghost fs = frames@.map_values(|f: String| f@);
    let mut out = String::new();
    let mut i: usize = 0;
    while i < frames.len()
        invariant
            fs == frames@.map_values(|f: String| f@),
            i <= frames@.len(),
            out@ == joined_frames(fs.subrange(0, i as int)),
        decreases frames@.len() - i,
    {
        if i > 0 {
            out.append(",\n");
        }
        out.append(frames[i].as_str());
        i += 1;
        assert(fs.subrange(0, i as int).drop_last() =~= fs.subrange(0, i - 1));
        if i == 1 {
            assert(fs.subrange(0, 1)[0] == fs[0]);
        }
    }
    assert(fs.subrange(0, frames@.len() as int) =~= fs);
    out
}

/// A `width` by `height` frame copied out of a decoded plane whose rows start
/// `stride` bytes apart, or `None` when the plane is too short for it.
pub fn frame_from_plane(data: &Vec<u8>, width: u32, height: u32, stride: usize) -> (r: Option<
    Canvas,
>)
    ensures
        (width <= stride && height * stride <= data@.len()) <==> r is Some,
        r matches Some(c) ==> c.wf() && c.width == width && c.height == height && forall|
            x: int,
            y: int,
        | 0 <= x < width && 0 <= y < height ==> #[trigger] c.at(x, y) == data@[y * stride + x],
{
    let len = data.len();
    if (width as usize) > stride {
        return None;
    }
    match (height as usize).checked_mul(stride) {
        None => {
            return None;
        },
        Some(total) => {
            if total > len {
                return None;
            }
        },
    }
    let ghost (w, s) = (width as int, stride as int);
    let mut out: Vec<u8> = Vec::new();
    let mut y: u32 = 0;
    while y < height
        invariant
            len == data@.len(),
            width <= stride,
            height * stride <= len,
            w == width && s == stride,
            y <= height,
            out@.len() == y * w,
            forall|xx: int, yy: int|
                0 <= xx < w && 0 <= yy && raster_before(xx, yy, 0, y as int) ==> #[trigger] pixel(
                    out@,
                    w,
                    xx,
                    yy,
                ) == data@[yy * s + xx],
        decreases height - y,
    {
        assert(y * s + s <= height * s) by (nonlinear_arith)
            requires
                y < height,
                0 <= s,
        ;
        let start = y as usize * stride;
        let mut x: u32 = 0;
        while x < width
            invariant
                len == data@.len(),
                width <= stride,
                w == width && s == stride,
                y < height,
                start == y * s,
                start + s <= len,
                x <= width,
                out@.len() == y * w + x,
                forall|xx: int, yy: int|
                    0 <= xx < w && 0 <= yy && raster_before(xx, yy, x as int, y as int)
                        ==> #[trigger] pixel(out@, w, xx, yy) == data@[yy * s + xx],
            decreases width - x,
        {
            let v = data[start + x as usize];
            proof {
                lemma_push_pixel(out@, v, w, x as int, y as int);
            }
            out.push(v);
            x += 1;
        }
        proof {
            lemma_next_row(y as int, w);
        }
        y += 1;
    }
    assert(out@.len() == width * height) by (nonlinear_arith)
        requires
            out@.len() == height * w,
            w == width,
    ;
    let c = Canvas { width, height, samples: out };
    assert forall|x: int, y: int| 0 <= x < width && 0 <= y < height implies #[trigger] c.at(x, y)
        == data@[y * stride + x] by {
        assert(raster_before(x, y, 0, height as int));
    }
    Some(c)
}

} // verus!
