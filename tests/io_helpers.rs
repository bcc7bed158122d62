use std::io::Read;

use base64::Engine;
use brailler::file_type::{file_type_of_mime, infer_type, starts_with, FileType};
use brailler::scriptify::{generate_bash_script_for_image, generate_bash_script_for_video, IMAGE_HEAD, IMAGE_TAIL, VIDEO_TAIL};
use brailler::size::{Size, SizeError};
use brailler::video::{frame_from_plane, join_frames};

fn decode_payload(script: &str, head: &str, end_marker: &str) -> String {
    let rest = script.strip_prefix(head).expect("script starts with its head");
    let encoded = &rest[..rest.find(end_marker).expect("payload is terminated")];
    let compressed = base64::engine::general_purpose::STANDARD.decode(encoded).expect("valid base64");
    let mut text = String::new();
    flate2::read::GzDecoder::new(&compressed[..]).read_to_string(&mut text).expect("valid gzip");
    text
}

#[test]
fn image_script_round_trips() {
    let script = generate_bash_script_for_image("\u{2800}\u{28FF}\n").unwrap();
    assert!(script.starts_with(IMAGE_HEAD));
    assert!(script.ends_with(IMAGE_TAIL));
    assert_eq!(decode_payload(&script, IMAGE_HEAD, "\nEOF"), "\u{2800}\u{28FF}\n");
}

#[test]
fn video_script_carries_the_delay() {
    let script = generate_bash_script_for_video("a\n,\nb\n", "0.04").unwrap();
    assert!(script.ends_with(&format!("sleep 0.04{}", VIDEO_TAIL)));
    assert_eq!(decode_payload(&script, IMAGE_HEAD, "\nEOF"), "a\n,\nb\n");
}

#[test]
fn png_signature_is_an_image() {
    let png = [0x89u8, b'P', b'N', b'G', 0x0D, 0x0A, 0x1A, 0x0A, 0, 0, 0, 0x0D, b'I', b'H', b'D', b'R'];
    assert_eq!(infer_type(&png), FileType::Image);
    assert_eq!(infer_type(b"plain words"), FileType::Unknown);
    assert_eq!(infer_type(&[]), FileType::Unknown);
}

#[test]
fn mime_prefixes() {
    assert_eq!(file_type_of_mime("video/mp4"), FileType::Video);
    assert_eq!(file_type_of_mime("image/png"), FileType::Image);
    assert_eq!(file_type_of_mime("audio/mpeg"), FileType::Unknown);
    assert_eq!(file_type_of_mime("image"), FileType::Unknown);
    assert!(starts_with("abc", "ab"));
    assert!(!starts_with("ab", "abc"));
}

#[test]
fn size_parsing() {
    assert_eq!(Size::from_str("80x24"), Ok(Size(80, 24)));
    assert_eq!(Size::from_str(" 80 , 24 "), Ok(Size(80, 24)));
    assert_eq!(Size::from_str("+5x6"), Ok(Size(5, 6)));
    assert_eq!(Size::from_str("0x0"), Ok(Size(0, 0)));
    assert_eq!(Size::from_str("80"), Err(SizeError::Shape));
    assert_eq!(Size::from_str("1x2x3"), Err(SizeError::Shape));
    assert_eq!(Size::from_str("ax2"), Err(SizeError::Number));
    assert_eq!(Size::from_str("4294967296x1"), Err(SizeError::Number));
    assert_eq!(Size::from_str("x1"), Err(SizeError::Number));
}

#[test]
fn frames_are_joined_with_comma_lines() {
    let frames = vec!["a\n".to_string(), "b\n".to_string(), "c\n".to_string()];
    assert_eq!(join_frames(&frames), "a\n,\nb\n,\nc\n");
    assert_eq!(join_frames(&vec![]), "");
}

#[test]
fn plane_rows_are_unpadded() {
    let plane = vec![1, 2, 9, 3, 4, 9];
    let c = frame_from_plane(&plane, 2, 2, 3).unwrap();
    assert_eq!(c.samples, vec![1, 2, 3, 4]);
    assert!(frame_from_plane(&plane, 2, 3, 3).is_none());
    assert!(frame_from_plane(&plane, 4, 1, 3).is_none());
}
