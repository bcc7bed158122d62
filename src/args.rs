use vstd::prelude::*;

use crate::size::Size;

verus! {

/// Which contrast adjustment runs before resizing.
#[derive(Debug, Clone, Copy, PartialEq, Eq, Structural)]
pub enum ContrastOption {
    /// No contrast adjustment.
    Off,
    Stretch,
    Equalize,
}

/// How the resized image is reduced to black and white.
#[derive(Debug, Clone, Copy, PartialEq, Eq, Structural)]
pub enum BinarizeOption {
    /// Leave the samples as they are.
    Off,
    /// Ordered dithering with a 4 by 4 Bayer matrix.
    Odith,
    /// Floyd-Steinberg error diffusion.
    Fsdith,
    /// A global threshold chosen by Otsu's method.
    Otsu,
}

/// The settings of one run.
pub struct Args {
    /// Input image file path or video file path.
    pub input: String,
    /// Output size in cells, columns by rows; 0 derives a side from the aspect.
    pub size: Size,
    pub contrast: ContrastOption,
    /// Swap light and dark before binarising.
    pub invert: bool,
    pub binarize: BinarizeOption,
    /// Where to write a shell script that prints the result; empty for none.
    pub scriptify: String,
    pub verbose: bool,
}

} // verus!
