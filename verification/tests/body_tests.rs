use ipbeeldbuis::body::{decode_body, BodyError};
use std::io::Write;

fn gzip(data: &[u8]) -> Vec<u8> {
    let mut enc = flate2::write::GzEncoder::new(Vec::new(), flate2::Compression::default());
    enc.write_all(data).expect("write");
    enc.finish().expect("finish")
}

#[test]
fn plain_body_is_decoded_as_utf8() {
    assert_eq!(decode_body(b"#EXTM3U\n").unwrap(), "#EXTM3U\n");
    assert_eq!(decode_body("Téléfilm".as_bytes()).unwrap(), "Téléfilm");
}

#[test]
fn invalid_utf8_is_replaced() {
    assert_eq!(decode_body(&[0x66, 0xff, 0x67]).unwrap(), "f\u{FFFD}g");
}

#[test]
fn empty_and_single_byte_bodies_are_plain() {
    assert_eq!(decode_body(&[]).unwrap(), "");
    assert_eq!(decode_body(&[0x1f]).unwrap(), "\u{1f}");
}

#[test]
fn gzip_body_is_decompressed() {
    let packed = gzip(b"<tv></tv>");
    assert_eq!(packed[0], 0x1f);
    assert_eq!(packed[1], 0x8b);
    assert_eq!(decode_body(&packed).unwrap(), "<tv></tv>");
}

#[test]
fn broken_gzip_body_is_an_error() {
    assert_eq!(decode_body(&[0x1f, 0x8b, 0x00, 0x01]), Err(BodyError::Gzip));
}

#[test]
fn gzip_of_invalid_utf8_is_an_error() {
    let packed = gzip(&[0x66, 0xff]);
    assert_eq!(decode_body(&packed), Err(BodyError::Gzip));
}
