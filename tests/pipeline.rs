use brailler::args::{BinarizeOption, ContrastOption};
use brailler::braille::{braille_char, convert_size, generate_braille};
use brailler::canvas::{Canvas, RenderError};
use brailler::contrast::{contrast_stretch, equalize_histogram, invert_image};
use brailler::dither::{binarize_with_otsu, floyd_steinberg_dither, ordered_dither, threshold_canvas};
use brailler::image_processing::{binarize, preprocess_image, process_image, put_image_into_canvas, render, resize_nearest};

fn canvas(width: u32, height: u32, samples: Vec<u8>) -> Canvas {
    Canvas::new(width, height, samples).expect("sample count matches the size")
}

fn gradient(width: u32, height: u32) -> Canvas {
    let n = (width * height) as usize;
    canvas(width, height, (0..n).map(|i| ((i * 37 + 11) % 256) as u8).collect())
}

#[test]
fn canvas_new_checks_sample_count() {
    assert!(Canvas::new(2, 2, vec![0; 3]).is_none());
    let c = Canvas::new(2, 2, vec![1, 2, 3, 4]).unwrap();
    assert_eq!(c.get(1, 1), 4);
    assert!(c.is_well_formed());
}

#[test]
fn invert_twice_restores_the_image() {
    let c = gradient(5, 3);
    let once = invert_image(&c);
    assert_eq!(once.samples[0], 255 - c.samples[0]);
    let twice = invert_image(&once);
    assert_eq!(twice.samples, c.samples);
}

#[test]
fn stretch_keeps_a_full_range_image() {
    let c = canvas(4, 1, vec![0, 17, 200, 255]);
    assert_eq!(contrast_stretch(&c).samples, c.samples);
}

#[test]
fn stretch_keeps_a_constant_image() {
    let c = canvas(3, 2, vec![90; 6]);
    assert_eq!(contrast_stretch(&c).samples, c.samples);
}

#[test]
fn stretch_maps_the_range_onto_full_scale() {
    let c = canvas(3, 1, vec![50, 100, 150]);
    assert_eq!(contrast_stretch(&c).samples, vec![0, 128, 255]);
}

#[test]
fn equalize_remaps_through_the_cumulative_histogram() {
    let c = canvas(2, 2, vec![0, 0, 255, 255]);
    let e = equalize_histogram(&c);
    assert_eq!(e.samples, vec![127, 127, 255, 255]);
    assert_eq!((e.width, e.height), (2, 2));
}

#[test]
fn preprocess_inverts_only_when_asked() {
    let c = canvas(2, 1, vec![10, 20]);
    assert_eq!(preprocess_image(&c, ContrastOption::Off, false).samples, vec![10, 20]);
    assert_eq!(preprocess_image(&c, ContrastOption::Off, true).samples, vec![245, 235]);
    assert_eq!(preprocess_image(&c, ContrastOption::Stretch, true).samples, vec![255, 0]);
}

#[test]
fn every_binarize_mode_gives_two_levels() {
    let c = gradient(9, 7);
    for mode in [BinarizeOption::Odith, BinarizeOption::Fsdith, BinarizeOption::Otsu] {
        let b = binarize(&c, mode);
        assert!(b.samples.iter().all(|&v| v == 0 || v == 255), "{:?}", mode);
        assert_eq!(b.samples.len(), c.samples.len());
    }
    let two_level = canvas(2, 1, vec![0, 255]);
    assert_eq!(binarize(&two_level, BinarizeOption::Off).samples, vec![0, 255]);
}

#[test]
fn ordered_dither_keeps_extremes() {
    let white = canvas(4, 4, vec![255; 16]);
    assert!(ordered_dither(&white).samples.iter().all(|&v| v == 255));
    let black = canvas(4, 4, vec![0; 16]);
    assert!(ordered_dither(&black).samples.iter().all(|&v| v == 0));
}

#[test]
fn ordered_dither_thresholds_by_matrix_entry() {
    let c = canvas(2, 1, vec![8, 9]);
    assert_eq!(ordered_dither(&c).samples, vec![0, 0]);
    let d = canvas(2, 1, vec![9, 135]);
    assert_eq!(ordered_dither(&d).samples, vec![255, 0]);
    let e = canvas(2, 1, vec![9, 136]);
    assert_eq!(ordered_dither(&e).samples, vec![255, 255]);
}

#[test]
fn floyd_steinberg_two_by_two() {
    let c = canvas(2, 2, vec![200, 50, 50, 200]);
    assert_eq!(floyd_steinberg_dither(&c).samples, vec![255, 0, 0, 255]);
}

#[test]
fn floyd_steinberg_diffuses_mid_grey() {
    let c = canvas(4, 1, vec![128, 100, 100, 100]);
    assert_eq!(floyd_steinberg_dither(&c).samples, vec![255, 0, 0, 255]);
}

#[test]
fn otsu_splits_two_clusters() {
    let c = canvas(2, 2, vec![10, 20, 200, 210]);
    assert_eq!(binarize_with_otsu(&c).samples, vec![0, 255, 255, 255]);
}

#[test]
fn threshold_is_inclusive_above() {
    let c = canvas(3, 1, vec![99, 100, 101]);
    assert_eq!(threshold_canvas(&c, 100).samples, vec![0, 255, 255]);
}

#[test]
fn resize_takes_nearest_sample_rounded_down() {
    let c = canvas(4, 1, vec![10, 20, 30, 40]);
    let r = resize_nearest(&c, 2, 1).unwrap();
    assert_eq!(r.samples, vec![10, 30]);
    let up = resize_nearest(&canvas(2, 1, vec![1, 2]), 4, 2).unwrap();
    assert_eq!(up.samples, vec![1, 1, 2, 2, 1, 1, 2, 2]);
}

#[test]
fn resize_refuses_empty_target_and_source() {
    let c = canvas(2, 2, vec![0; 4]);
    assert_eq!(resize_nearest(&c, 0, 3).unwrap_err(), RenderError::EmptyTarget);
    let empty = canvas(0, 0, vec![]);
    assert_eq!(resize_nearest(&empty, 2, 2).unwrap_err(), RenderError::DegenerateInput);
}

#[test]
fn solid_blocks_encode_to_full_and_blank_patterns() {
    let black = canvas(2, 4, vec![0; 8]);
    assert_eq!(generate_braille(&black, 1, 1), "\u{28FF}\n");
    let white = canvas(2, 4, vec![255; 8]);
    assert_eq!(generate_braille(&white, 1, 1), "\u{2800}\n");
}

#[test]
fn each_dot_has_its_bit() {
    // (dx, dy, bit)
    let table = [(0, 0, 0x01), (1, 0, 0x08), (0, 1, 0x02), (1, 1, 0x10), (0, 2, 0x04), (1, 2, 0x20), (0, 3, 0x40), (1, 3, 0x80)];
    for (dx, dy, bit) in table {
        let mut samples = vec![255u8; 8];
        samples[dy * 2 + dx] = 127;
        let text = generate_braille(&canvas(2, 4, samples), 1, 1);
        let expected = char::from_u32(0x2800 + bit).unwrap();
        assert_eq!(text, format!("{}\n", expected));
    }
}

#[test]
fn glyphs_stay_in_the_braille_block() {
    let c = gradient(8, 8);
    let text = generate_braille(&c, 4, 2);
    assert_eq!(text.lines().count(), 2);
    for ch in text.chars() {
        assert!(ch == '\n' || ('\u{2800}'..='\u{28FF}').contains(&ch));
    }
}

#[test]
fn braille_char_maps_codes() {
    assert_eq!(braille_char(0), '\u{2800}');
    assert_eq!(braille_char(0x5A), '\u{285A}');
    assert_eq!(braille_char(255), '\u{28FF}');
}

#[test]
fn aspect_resolution() {
    let expected_cols = (60.0f64 * (1920.0 / 1080.0 * 2.0)).round() as u32;
    assert_eq!(convert_size(1920, 1080, 0, 0), Ok((expected_cols, 60)));
    assert_eq!(expected_cols, 213);
    let ratio = 800.0f64 / 600.0 * 2.0;
    let rows = (40.0 / ratio).round() as u32;
    assert_eq!(convert_size(800, 600, 40, 0), Ok((40, rows)));
    assert_eq!(convert_size(800, 600, 40, 30), Ok((40, 30)));
    assert_eq!(convert_size(800, 600, 0, 30), Ok((80, 30)));
}

#[test]
fn aspect_refuses_a_source_without_area() {
    assert_eq!(convert_size(100, 0, 10, 10), Err(RenderError::DegenerateInput));
    assert_eq!(convert_size(0, 100, 0, 0), Err(RenderError::DegenerateInput));
}

#[test]
fn end_to_end_white_image() {
    let white = canvas(8, 8, vec![255; 64]);
    let text = render(&white, 4, 2, ContrastOption::Off, false, BinarizeOption::Off).unwrap();
    assert_eq!(text, "\u{2800}\u{2800}\u{2800}\u{2800}\n\u{2800}\u{2800}\u{2800}\u{2800}\n");
}

#[test]
fn end_to_end_inverted_image_is_full() {
    let white = canvas(8, 8, vec![255; 64]);
    let text = render(&white, 4, 2, ContrastOption::Off, true, BinarizeOption::Odith).unwrap();
    assert_eq!(text, "\u{28FF}\u{28FF}\u{28FF}\u{28FF}\n\u{28FF}\u{28FF}\u{28FF}\u{28FF}\n");
}

#[test]
fn render_errors() {
    let empty = canvas(0, 5, vec![]);
    assert_eq!(render(&empty, 4, 2, ContrastOption::Off, false, BinarizeOption::Off), Err(RenderError::DegenerateInput));
    let tall = canvas(1, 1000, vec![0; 1000]);
    assert_eq!(render(&tall, 0, 60, ContrastOption::Off, false, BinarizeOption::Off), Err(RenderError::EmptyTarget));
    let c = canvas(1, 1, vec![0]);
    assert_eq!(render(&c, u32::MAX, 1, ContrastOption::Off, false, BinarizeOption::Off), Err(RenderError::TooLarge));
}

#[test]
fn process_image_sizes_to_the_grid() {
    let c = gradient(10, 10);
    let out = process_image(&c, 3, 2, ContrastOption::Stretch, false, BinarizeOption::Fsdith).unwrap();
    assert_eq!((out.width, out.height), (6, 8));
    assert!(out.samples.iter().all(|&v| v == 0 || v == 255));
    assert_eq!(process_image(&c, 0, 2, ContrastOption::Off, false, BinarizeOption::Off).unwrap_err(), RenderError::EmptyTarget);
}

#[test]
fn pasted_image_keeps_white_margin() {
    let c = canvas(2, 1, vec![1, 2]);
    let p = put_image_into_canvas(&c, 3, 2);
    assert_eq!((p.width, p.height), (3, 2));
    assert_eq!(p.samples, vec![1, 2, 255, 255, 255, 255]);
}
