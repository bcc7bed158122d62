pub mod args;
pub mod braille;
pub mod canvas;
pub mod contrast;
pub mod dither;
pub mod dot_canvas;
pub mod file_type;
pub mod image_processing;
pub mod scriptify;
pub mod size;
pub mod text;
pub mod video;
