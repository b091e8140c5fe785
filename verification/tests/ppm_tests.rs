use aci_ppm::{ChannelFormat, DecodeError, Frame, Rgba, decode, encode_ppm, parse_header};

fn rgb(r: u8, g: u8, b: u8) -> Rgba {
    Rgba { r, g, b, a: 255 }
}

#[test]
fn rejects_bad_magic() {
    let r = decode(b"XY\n2\n1\n255\nabcdef");
    assert_eq!(r, Err(DecodeError::IncorrectFormat));
}

#[test]
fn rejects_empty_and_short_buffers() {
    assert_eq!(decode(b""), Err(DecodeError::IncorrectFormat));
    assert_eq!(decode(b"P"), Err(DecodeError::IncorrectFormat));
    assert_eq!(decode(b"P5\n1\n1\n255\nx"), Err(DecodeError::IncorrectFormat));
}

#[test]
fn rejects_max_value_100() {
    let r = decode(b"P6\n2\n1\n100\n\xff\x00\x00\x00\xff\x00");
    assert_eq!(r, Err(DecodeError::UnsupportedMaxValue));
}

#[test]
fn rejects_non_digit_dimension() {
    let r = decode(b"P6\n2a\n1\n255\n\xff\x00\x00\x00\xff\x00");
    assert_eq!(r, Err(DecodeError::MalformedDimension));
}

#[test]
fn rejects_oversized_dimension() {
    let r = decode(b"P6\n65536\n1\n255\n");
    assert_eq!(r, Err(DecodeError::MalformedDimension));
}

#[test]
fn rejects_truncated_pixels() {
    let r = decode(b"P6\n2\n1\n255\n\xff\x00\x00");
    assert_eq!(r, Err(DecodeError::TruncatedStream));
}

#[test]
fn decodes_two_pixel_image_and_reencodes_identically() {
    let input: &[u8] = b"P6\n2\n1\n255\n\xff\x00\x00\x00\xff\x00";
    let frame = decode(input).unwrap();
    assert_eq!(frame.width, 2);
    assert_eq!(frame.height, 1);
    assert_eq!(frame.format, ChannelFormat::Rgb24);
    assert_eq!(frame.pixels, vec![rgb(255, 0, 0), rgb(0, 255, 0)]);
    let out = encode_ppm(&frame);
    assert_eq!(out.as_slice(), input);
}

#[test]
fn skips_comment_line() {
    let input: &[u8] = b"P6\n# a note\n2\n1\n255\n\xff\x00\x00\x00\xff\x00";
    let frame = decode(input).unwrap();
    assert_eq!(frame.width, 2);
    assert_eq!(frame.height, 1);
    assert_eq!(frame.pixels[0], rgb(255, 0, 0));
}

#[test]
fn header_offsets_are_exact() {
    let hd = parse_header(b"P6\n12\n34\n255\nrest").unwrap();
    assert_eq!(hd.width, 12);
    assert_eq!(hd.height, 34);
    assert_eq!(hd.pixel_offset, 13);
}

#[test]
fn header_accepts_space_delimiters() {
    let hd = parse_header(b"P6 2 1 255 ").unwrap();
    assert_eq!(hd.width, 2);
    assert_eq!(hd.height, 1);
}

#[test]
fn encode_drops_alpha() {
    let frame = Frame {
        width: 1,
        height: 1,
        format: ChannelFormat::Rgb24,
        pixels: vec![rgb(7, 8, 9)],
    };
    let out = encode_ppm(&frame);
    assert_eq!(out.as_slice(), b"P6\n1\n1\n255\n\x07\x08\x09");
}

#[test]
fn reencode_after_comment_gives_canonical_header() {
    let input: &[u8] = b"P6\n# a note\n2\n1\n255\n\xff\x00\x00\x00\xff\x00";
    let frame = decode(input).unwrap();
    let out = encode_ppm(&frame);
    assert_eq!(out.as_slice(), b"P6\n2\n1\n255\n\xff\x00\x00\x00\xff\x00");
}

#[test]
fn decodes_empty_dimension_as_zero() {
    let frame = decode(b"P6\n\n\n255\n").unwrap();
    assert_eq!(frame.width, 0);
    assert_eq!(frame.height, 0);
    assert!(frame.pixels.is_empty());
}

#[test]
fn header_truncated_before_max_value() {
    assert_eq!(decode(b"P6\n2\n1\n"), Err(DecodeError::TruncatedStream));
}
