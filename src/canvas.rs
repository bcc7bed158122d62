use vstd::prelude::*;

verus! {

/// The sample at column `x`, row `y` of a row-major buffer `width` samples wide.
pub open spec fn pixel(s: Seq<u8>, width: int, x: int, y: int) -> u8 {
    s[y * width + x]
}

/// `(xx, yy)` comes before `(x, y)` in raster order (rows top to bottom,
/// each row left to right).
pub open spec fn raster_before(xx: int, yy: int, x: int, y: int) -> bool {
    yy < y || (yy == y && xx < x)
}

/// A cell inside a `width` by `height` grid has a row-major index inside the buffer.
pub proof fn lemma_index_in_bounds(x: int, y: int, width: int, height: int)
    requires
        0 <= x < width,
        0 <= y < height,
    ensures
        0 <= y * width + x < width * height,
        0 <= y * width <= y * width + x,
{
    assert(0 <= y * width) by (nonlinear_arith)
        requires
            0 <= y,
            0 < width,
    ;
    assert(y * width + x < width * height) by (nonlinear_arith)
        requires
            0 <= x < width,
            0 <= y < height,
    ;
}

/// Raster order and row-major indices agree.
pub proof fn lemma_index_order(xx: int, yy: int, x: int, y: int, width: int)
    requires
        0 <= xx < width,
        0 <= x < width,
        0 <= yy,
        raster_before(xx, yy, x, y),
    ensures
        0 <= yy * width + xx < y * width + x,
{
    assert(0 <= yy * width) by (nonlinear_arith)
        requires
            0 <= yy,
            0 < width,
    ;
    if yy < y {
        assert(yy * width + xx < y * width + x) by (nonlinear_arith)
            requires
                0 <= xx < width,
                0 <= x,
                yy < y,
        ;
    }
}

/// The index of the first cell of row `y + 1` is one row past that of row `y`.
pub proof fn lemma_next_row(y: int, width: int)
    ensures
        (y + 1) * width == y * width + width,
{
    assert((y + 1) * width == y * width + width) by (nonlinear_arith);
}

/// Appending the sample of `(x, y)` to a buffer that holds the cells before it in
/// raster order keeps those cells and places the new one.
pub proof fn lemma_push_pixel(out: Seq<u8>, v: u8, width: int, x: int, y: int)
    requires
        0 <= x < width,
        0 <= y,
        out.len() == y * width + x,
    ensures
        pixel(out.push(v), width, x, y) == v,
        forall|xx: int, yy: int|
            0 <= xx < width && 0 <= yy && raster_before(xx, yy, x, y) ==> #[trigger] pixel(
                out.push(v),
                width,
                xx,
                yy,
            ) == pixel(out, width, xx, yy),
{
    assert forall|xx: int, yy: int|
        0 <= xx < width && 0 <= yy && raster_before(xx, yy, x, y) implies #[trigger] pixel(
        out.push(v),
        width,
        xx,
        yy,
    ) == pixel(out, width, xx, yy) by {
        lemma_index_order(xx, yy, x, y, width);
    }
}

/// Why an image cannot be rendered.
#[derive(Debug, Clone, Copy, PartialEq, Eq, Structural)]
pub enum RenderError {
    /// The source image has no area.
    DegenerateInput,
    /// The requested output has no area.
    EmptyTarget,
    /// The requested output, or the input of a stage, exceeds what the stage can
    /// count or address.
    TooLarge,
}

/// A grayscale raster: `width * height` luminance samples in row-major order,
/// 0 for black and 255 for white.
#[derive(Debug)]
pub struct Canvas {
    pub width: u32,
    pub height: u32,
    pub samples: Vec<u8>,
}

impl Canvas {
    /// The buffer holds exactly one sample per cell.
    pub open spec fn wf(&self) -> bool {
        self.samples@.len() == self.width * self.height
    }

    /// The sample at column `x`, row `y`.
    pub open spec fn at(&self, x: int, y: int) -> u8 {
        pixel(self.samples@, self.width as int, x, y)
    }

    /// A canvas over `samples`, or `None` when their number is not `width * height`.
    pub fn new(width: u32, height: u32, samples: Vec<u8>) -> (r: Option<Canvas>)
        ensures
            r is None <==> samples@.len() != width * height,
            r matches Some(c) ==> c.wf() && c.width == width && c.height == height && c.samples@
                == samples@,
    {
        let len = samples.len();
        match (width as usize).checked_mul(height as usize) {
            Some(n) => {
                if n == len {
                    Some(Canvas { width, height, samples })
                } else {
                    None
                }
            },
            None => None,
        }
    }

    /// Whether the buffer holds exactly one sample per cell.
    pub fn is_well_formed(&self) -> (r: bool)
        ensures
            r == self.wf(),
    {
        let len = self.samples.len();
        match (self.width as usize).checked_mul(self.height as usize) {
            Some(n) => n == len,
            None => false,
        }
    }

    /// The sample at column `x`, row `y`.
    pub fn get(&self, x: u32, y: u32) -> (r: u8)
        requires
            self.wf(),
            x < self.width,
            y < self.height,
        ensures
            r == self.at(x as int, y as int),
    {
        let len = self.samples.len();
        proof {
            lemma_index_in_bounds(x as int, y as int, self.width as int, self.height as int);
        }
        self.samples[y as usize * self.width as usize + x as usize]
    }
}

} // verus!
