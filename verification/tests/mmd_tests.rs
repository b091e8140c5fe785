use aci_ppm::mmd::{assemble, build};
use aci_ppm::container::{decode_mmd, decode_mmd_items, encode_mmd};
use aci_ppm::{AudioSegment, ChannelFormat, DecodeError, Frame, MetaKey, Rgba, StreamItem};

fn rgb(r: u8, g: u8, b: u8) -> Rgba {
    Rgba { r, g, b, a: 255 }
}

fn rgb_frame(width: u16, height: u16, pixels: Vec<Rgba>) -> Frame {
    Frame { width, height, format: ChannelFormat::Rgb24, pixels }
}

#[test]
fn inheritance_two_frames_same_shape() {
    // An RGB image-establishing chunk for a 4x1 image, then an inherit chunk.
    let mut flat: Vec<u8> = vec![b'3', 4, 0, 1, 0];
    flat.extend_from_slice(&[1, 2, 3, 4, 5, 6, 7, 8, 9, 10, 11, 12]);
    flat.push(b'0');
    flat.extend_from_slice(&[21, 22, 23, 24, 25, 26, 27, 28, 29, 30, 31, 32]);
    let items = assemble(&flat).unwrap();
    assert_eq!(items.len(), 2);
    for it in &items {
        match it {
            StreamItem::Image(f) => {
                assert_eq!(f.width, 4);
                assert_eq!(f.height, 1);
                assert_eq!(f.format, ChannelFormat::Rgb24);
            }
            _ => panic!("expected an image item"),
        }
    }
    match (&items[0], &items[1]) {
        (StreamItem::Image(a), StreamItem::Image(b)) => {
            assert_eq!(a.pixels[0], rgb(1, 2, 3));
            assert_eq!(b.pixels[3], rgb(30, 31, 32));
        }
        _ => panic!("expected two image items"),
    }
}

#[test]
fn inherit_chunk_first_is_misplaced() {
    let flat: Vec<u8> = vec![b'0', 1, 2, 3];
    assert_eq!(assemble(&flat), Err(DecodeError::UnknownOrMisplacedChunk));
}

#[test]
fn audio_chunk_first_is_misplaced() {
    let flat: Vec<u8> = vec![b'A', 1, 0, 0, 0, 0, 0];
    assert_eq!(assemble(&flat), Err(DecodeError::UnknownOrMisplacedChunk));
}

#[test]
fn unknown_tag_is_fatal() {
    let mut flat: Vec<u8> = vec![b'3', 1, 0, 1, 0, 9, 9, 9];
    flat.push(b'Z');
    assert_eq!(assemble(&flat), Err(DecodeError::UnknownOrMisplacedChunk));
}

#[test]
fn audio_chunk_of_1600_samples() {
    let mut flat: Vec<u8> = vec![b'3', 1, 0, 1, 0, 9, 9, 9];
    flat.push(b'A');
    // delay = 1600 = 0x640, little endian.
    flat.extend_from_slice(&[0x40, 0x06, 0, 0]);
    for i in 0..1600u32 {
        let s = (i % 65536) as u16;
        flat.push((s % 256) as u8);
        flat.push((s / 256) as u8);
    }
    let items = assemble(&flat).unwrap();
    assert_eq!(items.len(), 2);
    match &items[1] {
        StreamItem::Audio(a) => {
            assert_eq!(a.samples.len(), 1600);
            assert_eq!(a.samples[0], 0);
            assert_eq!(a.samples[1599], 1599);
        }
        _ => panic!("expected an audio item"),
    }
}

#[test]
fn audio_delay_zero_is_invalid() {
    let mut flat: Vec<u8> = vec![b'3', 1, 0, 1, 0, 9, 9, 9];
    flat.push(b'A');
    flat.extend_from_slice(&[0, 0, 0, 0]);
    assert_eq!(assemble(&flat), Err(DecodeError::InvalidAudioLength));
}

#[test]
fn video_delay_zero_is_accepted() {
    let mut flat: Vec<u8> = vec![b'3', 1, 0, 1, 0, 9, 9, 9];
    flat.push(b'D');
    flat.extend_from_slice(&[0, 0, 0, 0]);
    let items = assemble(&flat).unwrap();
    assert_eq!(items[1], StreamItem::Delay(0));
}

#[test]
fn truncated_metadata_chunk() {
    let mut flat: Vec<u8> = vec![b'3', 1, 0, 1, 0, 9, 9, 9];
    flat.push(b't');
    flat.extend_from_slice(&[10, 0, 0, 0]);
    flat.extend_from_slice(b"hello");
    assert_eq!(assemble(&flat), Err(DecodeError::TruncatedStream));
}

#[test]
fn truncated_audio_samples() {
    let mut flat: Vec<u8> = vec![b'3', 1, 0, 1, 0, 9, 9, 9];
    flat.push(b'A');
    flat.extend_from_slice(&[4, 0, 0, 0]);
    flat.extend_from_slice(&[1, 2, 3]);
    assert_eq!(assemble(&flat), Err(DecodeError::TruncatedStream));
}

#[test]
fn truncated_image_plane() {
    let flat: Vec<u8> = vec![b'3', 2, 0, 2, 0, 1, 2, 3];
    assert_eq!(assemble(&flat), Err(DecodeError::TruncatedStream));
}

#[test]
fn empty_stream_is_empty() {
    let items = assemble(&[]).unwrap();
    assert!(items.is_empty());
}

#[test]
fn build_uses_inherit_tag_for_matching_frames() {
    let items = vec![
        StreamItem::Image(rgb_frame(1, 1, vec![rgb(1, 2, 3)])),
        StreamItem::Image(rgb_frame(1, 1, vec![rgb(4, 5, 6)])),
    ];
    let flat = build(&items);
    assert_eq!(flat, vec![b'3', 1, 0, 1, 0, 1, 2, 3, b'0', 4, 5, 6]);
}

#[test]
fn build_reestablishes_on_shape_change() {
    let items = vec![
        StreamItem::Image(rgb_frame(1, 1, vec![rgb(1, 2, 3)])),
        StreamItem::Image(Frame {
            width: 1,
            height: 1,
            format: ChannelFormat::Grayscale8,
            pixels: vec![Rgba { r: 9, g: 9, b: 9, a: 255 }],
        }),
    ];
    let flat = build(&items);
    assert_eq!(flat, vec![b'3', 1, 0, 1, 0, 1, 2, 3, b'1', 1, 0, 1, 0, 9]);
}

#[test]
fn monochrome_plane_is_bit_packed_per_row() {
    let on = Rgba { r: 255, g: 255, b: 255, a: 255 };
    let off = Rgba { r: 0, g: 0, b: 0, a: 255 };
    let items = vec![StreamItem::Image(Frame {
        width: 2,
        height: 2,
        format: ChannelFormat::Monochrome1,
        pixels: vec![on, off, off, on],
    })];
    let flat = build(&items);
    // Each two-bit row is padded to one byte, most significant bit first.
    assert_eq!(flat, vec![b'2', 2, 0, 2, 0, 0x80, 0x40]);
}

#[test]
fn masked_plane_packs_presence_and_color_bits() {
    let red = Rgba { r: 255, g: 0, b: 0, a: 255 };
    let items = vec![StreamItem::Image(Frame {
        width: 1,
        height: 1,
        format: ChannelFormat::MaskedRgb,
        pixels: vec![red],
    })];
    let flat = build(&items);
    // 1 presence bit + 24 color bits = 25 bits, padded to 4 bytes.
    assert_eq!(flat, vec![b'5', 1, 0, 1, 0, 0xff, 0x80, 0x00, 0x00]);
}

#[test]
fn masked_absent_pixel_is_one_clear_bit() {
    let absent = Rgba { r: 0, g: 0, b: 0, a: 0 };
    let items = vec![StreamItem::Image(Frame {
        width: 2,
        height: 1,
        format: ChannelFormat::MaskedRgb,
        pixels: vec![absent, absent],
    })];
    let flat = build(&items);
    assert_eq!(flat, vec![b'5', 2, 0, 1, 0, 0x00]);
}

fn roundtrip(items: Vec<StreamItem>) {
    let packed = encode_mmd(&items);
    let back = decode_mmd_items(&packed).unwrap();
    assert_eq!(back, items);
}

#[test]
fn roundtrip_grayscale() {
    let g = |v: u8| Rgba { r: v, g: v, b: v, a: 255 };
    roundtrip(vec![StreamItem::Image(Frame {
        width: 3,
        height: 2,
        format: ChannelFormat::Grayscale8,
        pixels: vec![g(0), g(50), g(100), g(150), g(200), g(255)],
    })]);
}

#[test]
fn roundtrip_monochrome() {
    let on = Rgba { r: 255, g: 255, b: 255, a: 255 };
    let off = Rgba { r: 0, g: 0, b: 0, a: 255 };
    roundtrip(vec![StreamItem::Image(Frame {
        width: 9,
        height: 2,
        format: ChannelFormat::Monochrome1,
        pixels: vec![
            on, off, on, off, on, off, on, off, on, off, on, off, on, off, on, off, on, off,
        ],
    })]);
}

#[test]
fn roundtrip_rgb() {
    roundtrip(vec![StreamItem::Image(rgb_frame(
        2,
        2,
        vec![rgb(1, 2, 3), rgb(4, 5, 6), rgb(7, 8, 9), rgb(10, 11, 12)],
    ))]);
}

#[test]
fn roundtrip_rgba() {
    roundtrip(vec![StreamItem::Image(Frame {
        width: 2,
        height: 1,
        format: ChannelFormat::Rgba32,
        pixels: vec![Rgba { r: 1, g: 2, b: 3, a: 4 }, Rgba { r: 5, g: 6, b: 7, a: 0 }],
    })]);
}

#[test]
fn roundtrip_masked() {
    let red = Rgba { r: 200, g: 10, b: 20, a: 255 };
    let absent = Rgba { r: 0, g: 0, b: 0, a: 0 };
    roundtrip(vec![StreamItem::Image(Frame {
        width: 3,
        height: 2,
        format: ChannelFormat::MaskedRgb,
        pixels: vec![red, absent, red, absent, absent, red],
    })]);
}

#[test]
fn roundtrip_full_stream() {
    let frame1 = rgb_frame(2, 1, vec![rgb(1, 2, 3), rgb(4, 5, 6)]);
    let frame2 = rgb_frame(2, 1, vec![rgb(7, 8, 9), rgb(10, 11, 12)]);
    roundtrip(vec![
        StreamItem::Image(frame1),
        StreamItem::Delay(0),
        StreamItem::Audio(AudioSegment { samples: vec![5, 65535, 0] }),
        StreamItem::Image(frame2),
        StreamItem::Meta(MetaKey::Title, b"demo".to_vec()),
        StreamItem::Meta(MetaKey::License, b"none".to_vec()),
    ]);
}

#[test]
fn decode_mmd_rejects_garbage() {
    // A final block with the reserved block type: never a valid stream.
    let r = decode_mmd(&[0x07, 0x00, 0x00]);
    assert!(matches!(r, Err(DecodeError::DecompressionFailure)));
}

#[test]
fn container_positions_audio_and_keeps_last_metadata() {
    let items = vec![
        StreamItem::Image(rgb_frame(1, 1, vec![rgb(1, 2, 3)])),
        StreamItem::Audio(AudioSegment { samples: vec![1, 2] }),
        StreamItem::Image(rgb_frame(1, 1, vec![rgb(4, 5, 6)])),
        StreamItem::Audio(AudioSegment { samples: vec![3] }),
        StreamItem::Meta(MetaKey::Artist, b"first".to_vec()),
        StreamItem::Meta(MetaKey::Artist, b"second".to_vec()),
    ];
    let packed = encode_mmd(&items);
    let c = decode_mmd(&packed).unwrap();
    assert_eq!(c.frames.len(), 2);
    assert_eq!(c.frames[1].pixels[0], rgb(4, 5, 6));
    assert_eq!(c.audio.len(), 2);
    assert_eq!(c.audio[0].frame_index, 1);
    assert_eq!(c.audio[0].segment.samples, vec![1, 2]);
    assert_eq!(c.audio[1].frame_index, 2);
    assert_eq!(c.metadata.get(MetaKey::Artist).unwrap().as_slice(), b"second");
    assert!(c.metadata.get(MetaKey::Title).is_none());
}

#[test]
fn roundtrip_zero_size_frame() {
    roundtrip(vec![StreamItem::Image(rgb_frame(0, 0, vec![]))]);
}

#[test]
fn roundtrip_wide_monochrome_row_padding() {
    // Width not a multiple of eight: each row must pad independently.
    let on = Rgba { r: 255, g: 255, b: 255, a: 255 };
    let off = Rgba { r: 0, g: 0, b: 0, a: 255 };
    let mut pixels = Vec::new();
    for i in 0..10 {
        pixels.push(if i % 3 == 0 { on } else { off });
    }
    for i in 0..10 {
        pixels.push(if i % 2 == 0 { off } else { on });
    }
    roundtrip(vec![StreamItem::Image(Frame {
        width: 10,
        height: 2,
        format: ChannelFormat::Monochrome1,
        pixels,
    })]);
}

#[test]
fn delay_value_is_little_endian() {
    let mut flat: Vec<u8> = vec![b'3', 1, 0, 1, 0, 9, 9, 9];
    flat.push(b'D');
    flat.extend_from_slice(&[0x80, 0xbb, 0x00, 0x00]);
    let items = assemble(&flat).unwrap();
    assert_eq!(items[1], StreamItem::Delay(48000));
}

#[test]
fn rebuild_after_assemble_is_identical() {
    let flat: Vec<u8> = vec![
        b'3', 1, 0, 1, 0, 1, 2, 3, b'0', 4, 5, 6, b'D', 0x40, 0x06, 0, 0, b'a', 2, 0, 0, 0, b'h',
        b'i',
    ];
    let items = assemble(&flat).unwrap();
    assert_eq!(build(&items), flat);
}
