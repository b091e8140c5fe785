//! The MMD chunk grammar: the tagged-chunk wire layout, the inheritance
//! rule between image chunks, and the stream assembler and builder that
//! convert between the flat (decompressed) byte sequence and an ordered
//! sequence of stream items.

use vstd::prelude::*;

use crate::error::DecodeError;
use crate::pixel::{ChannelFormat, Rgba};
use crate::plane::{
    decode_plane, encode_plane, lemma_parse_plane_bounds, spec_encode_plane, spec_parse_plane,
};
use crate::stream::{
    AudioSegment, Frame, FrameV, ItemV, MetaKey, StreamItem, items_view, wf_items,
};

verus! {

// ---------------------------------------------------------------------
// Wire integers.
// ---------------------------------------------------------------------
pub open spec fn le16_val(b0: u8, b1: u8) -> u16 {
    (b0 + b1 * 256) as u16
}

pub open spec fn le32_val(b0: u8, b1: u8, b2: u8, b3: u8) -> u32 {
    (b0 + b1 * 256 + b2 * 65536 + b3 * 16777216) as u32
}

pub open spec fn le16_bytes(n: u16) -> Seq<u8> {
    seq![(n % 256) as u8, (n / 256) as u8]
}

pub open spec fn le32_bytes(n: u32) -> Seq<u8> {
    seq![
        (n % 256) as u8,
        ((n / 256) % 256) as u8,
        ((n / 65536) % 256) as u8,
        ((n / 16777216) % 256) as u8,
    ]
}

/// The little-endian byte pairs of a sample run.
pub open spec fn samples_bytes(s: Seq<u16>) -> Seq<u8> {
    Seq::new(
        (s.len() * 2) as nat,
        |i: int|
            if i % 2 == 0 {
                (s[i / 2] % 256) as u8
            } else {
                (s[i / 2] / 256) as u8
            },
    )
}

// ---------------------------------------------------------------------
// Tags.
// ---------------------------------------------------------------------
/// The image-establishing tag byte of a format: ASCII `1` through `5`.
pub open spec fn tag_of_format(f: ChannelFormat) -> u8 {
    match f {
        ChannelFormat::Grayscale8 => 0x31,
        ChannelFormat::Monochrome1 => 0x32,
        ChannelFormat::Rgb24 => 0x33,
        ChannelFormat::Rgba32 => 0x34,
        ChannelFormat::MaskedRgb => 0x35,
    }
}

pub open spec fn format_of_tag(t: u8) -> Option<ChannelFormat> {
    if t == 0x31 {
        Some(ChannelFormat::Grayscale8)
    } else if t == 0x32 {
        Some(ChannelFormat::Monochrome1)
    } else if t == 0x33 {
        Some(ChannelFormat::Rgb24)
    } else if t == 0x34 {
        Some(ChannelFormat::Rgba32)
    } else if t == 0x35 {
        Some(ChannelFormat::MaskedRgb)
    } else {
        None
    }
}

/// The tag byte of a metadata key.
pub open spec fn meta_tag(k: MetaKey) -> u8 {
    match k {
        MetaKey::Title => 0x74,  // 't'
        MetaKey::CreationDate => 0x63,  // 'c'
        MetaKey::Artist => 0x61,  // 'a'
        MetaKey::ArtistUrl => 0x77,  // 'w'
        MetaKey::Publisher => 0x70,  // 'p'
        MetaKey::PublishDate => 0x64,  // 'd'
        MetaKey::PublisherUrl => 0x73,  // 's'
        MetaKey::License => 0x6c,  // 'l'
    }
}

pub open spec fn meta_key_of_tag(t: u8) -> Option<MetaKey> {
    if t == 0x74 {
        Some(MetaKey::Title)
    } else if t == 0x63 {
        Some(MetaKey::CreationDate)
    } else if t == 0x61 {
        Some(MetaKey::Artist)
    } else if t == 0x77 {
        Some(MetaKey::ArtistUrl)
    } else if t == 0x70 {
        Some(MetaKey::Publisher)
    } else if t == 0x64 {
        Some(MetaKey::PublishDate)
    } else if t == 0x73 {
        Some(MetaKey::PublisherUrl)
    } else if t == 0x6c {
        Some(MetaKey::License)
    } else {
        None
    }
}

// ---------------------------------------------------------------------
// Building: items to bytes.
// ---------------------------------------------------------------------
/// The bytes of one chunk, given the current inherited state. An image
/// whose size and format match the state uses the inherit tag `0`; any
/// other image re-establishes size and format.
pub open spec fn chunk_bytes(it: ItemV, cur: Option<(u16, u16, ChannelFormat)>) -> Seq<u8> {
    match it {
        ItemV::Image(f) => if cur == Some((f.width, f.height, f.format)) {
            seq![0x30u8] + spec_encode_plane(f.format, f.width, f.height, f.pixels)
        } else {
            seq![tag_of_format(f.format)] + le16_bytes(f.width) + le16_bytes(f.height)
                + spec_encode_plane(f.format, f.width, f.height, f.pixels)
        },
        ItemV::Audio(s) => seq![0x41u8] + le32_bytes(s.len() as u32) + samples_bytes(s),
        ItemV::Delay(d) => seq![0x44u8] + le32_bytes(d),
        ItemV::Meta(k, v) => seq![meta_tag(k)] + le32_bytes(v.len() as u32) + v,
    }
}

/// The inherited state after a chunk.
pub open spec fn next_cur(it: ItemV, cur: Option<(u16, u16, ChannelFormat)>) -> Option<
    (u16, u16, ChannelFormat),
> {
    match it {
        ItemV::Image(f) => Some((f.width, f.height, f.format)),
        _ => cur,
    }
}

/// The flat byte sequence that a sequence of items builds to.
pub open spec fn spec_build(items: Seq<ItemV>, cur: Option<(u16, u16, ChannelFormat)>) -> Seq<u8>
    decreases items.len(),
{
    if items.len() == 0 {
        Seq::empty()
    } else {
        chunk_bytes(items[0], cur) + spec_build(items.skip(1), next_cur(items[0], cur))
    }
}

// ---------------------------------------------------------------------
// Parsing: bytes to items.
// ---------------------------------------------------------------------
/// Parses one chunk from the front of `bytes`. Yields the item, the new
/// inherited state, and the number of bytes consumed.
pub open spec fn spec_parse_chunk(bytes: Seq<u8>, cur: Option<(u16, u16, ChannelFormat)>) -> Result<
    (ItemV, Option<(u16, u16, ChannelFormat)>, int),
    DecodeError,
>
    recommends
        bytes.len() > 0,
{
    let t = bytes[0];
    if t == 0x30 {
        match cur {
            None => Err(DecodeError::UnknownOrMisplacedChunk),
            Some((w, h, f)) => match spec_parse_plane(f, bytes.skip(1), w, h) {
                None => Err(DecodeError::TruncatedStream),
                Some((px, c)) => Ok(
                    (
                        ItemV::Image(FrameV { width: w, height: h, format: f, pixels: px }),
                        cur,
                        1 + c,
                    ),
                ),
            },
        }
    } else if format_of_tag(t) is Some {
        let f = format_of_tag(t).unwrap();
        if bytes.len() < 5 {
            Err(DecodeError::TruncatedStream)
        } else {
            let w = le16_val(bytes[1], bytes[2]);
            let h = le16_val(bytes[3], bytes[4]);
            match spec_parse_plane(f, bytes.skip(5), w, h) {
                None => Err(DecodeError::TruncatedStream),
                Some((px, c)) => Ok(
                    (
                        ItemV::Image(FrameV { width: w, height: h, format: f, pixels: px }),
                        Some((w, h, f)),
                        5 + c,
                    ),
                ),
            }
        }
    } else if cur is None {
        Err(DecodeError::UnknownOrMisplacedChunk)
    } else if t == 0x44 {
        if bytes.len() < 5 {
            Err(DecodeError::TruncatedStream)
        } else {
            Ok((ItemV::Delay(le32_val(bytes[1], bytes[2], bytes[3], bytes[4])), cur, 5))
        }
    } else if t == 0x41 {
        if bytes.len() < 5 {
            Err(DecodeError::TruncatedStream)
        } else {
            let n = le32_val(bytes[1], bytes[2], bytes[3], bytes[4]);
            if n == 0 {
                Err(DecodeError::InvalidAudioLength)
            } else if bytes.len() < 5 + 2 * n {
                Err(DecodeError::TruncatedStream)
            } else {
                Ok(
                    (
                        ItemV::Audio(
                            Seq::new(n as nat, |i: int| le16_val(bytes[5 + 2 * i], bytes[6 + 2 * i])),
                        ),
                        cur,
                        5 + 2 * n,
                    ),
                )
            }
        }
    } else if meta_key_of_tag(t) is Some {
        let k = meta_key_of_tag(t).unwrap();
        if bytes.len() < 5 {
            Err(DecodeError::TruncatedStream)
        } else {
            let l = le32_val(bytes[1], bytes[2], bytes[3], bytes[4]);
            if bytes.len() < 5 + l {
                Err(DecodeError::TruncatedStream)
            } else {
                Ok((ItemV::Meta(k, bytes.subrange(5, 5 + l)), cur, 5 + l))
            }
        }
    } else {
        Err(DecodeError::UnknownOrMisplacedChunk)
    }
}

/// Drives the chunk grammar over a whole flat byte sequence. The starting
/// state `None` makes the first chunk of a stream establish an image; an
/// exhausted input ends the stream.
pub open spec fn spec_assemble(bytes: Seq<u8>, cur: Option<(u16, u16, ChannelFormat)>) -> Result<
    Seq<ItemV>,
    DecodeError,
>
    decreases bytes.len(),
{
    if bytes.len() == 0 {
        Ok(Seq::empty())
    } else {
        match spec_parse_chunk(bytes, cur) {
            Err(e) => Err(e),
            Ok((it, nc, used)) => if 1 <= used <= bytes.len() {
                match spec_assemble(bytes.skip(used), nc) {
                    Ok(rest) => Ok(seq![it] + rest),
                    Err(e) => Err(e),
                }
            } else {
                Err(DecodeError::TruncatedStream)
            },
        }
    }
}

/// A parsed chunk consumes at least its tag and at most the whole buffer,
/// yields a well-formed item, and establishes an image when none was
/// current.
pub proof fn lemma_parse_chunk_bounds(bytes: Seq<u8>, cur: Option<(u16, u16, ChannelFormat)>)
    requires
        bytes.len() > 0,
    ensures
        spec_parse_chunk(bytes, cur) matches Ok((it, nc, used)) ==> 1 <= used <= bytes.len()
            && crate::stream::wf_item(it) && (cur is None ==> it is Image) && (it is Image ==> nc
            is Some) && (!(it is Image) ==> nc == cur),
{
    let t = bytes[0];
    if t == 0x30 {
        if cur is Some {
            let (w, h, f) = cur.unwrap();
            lemma_parse_plane_bounds(f, bytes.skip(1), w, h);
        }
    } else if format_of_tag(t) is Some {
        if bytes.len() >= 5 {
            let f = format_of_tag(t).unwrap();
            let w = le16_val(bytes[1], bytes[2]);
            let h = le16_val(bytes[3], bytes[4]);
            lemma_parse_plane_bounds(f, bytes.skip(5), w, h);
        }
    }
}


// ---------------------------------------------------------------------
// Executable builder.
// ---------------------------------------------------------------------
fn push_le16(n: u16, out: &mut Vec<u8>)
    ensures
        final(out)@ =~= old(out)@ + le16_bytes(n),
{
    out.push((n % 256) as u8);
    out.push((n / 256) as u8);
}

fn push_le32(n: u32, out: &mut Vec<u8>)
    ensures
        final(out)@ =~= old(out)@ + le32_bytes(n),
{
    out.push((n % 256) as u8);
    out.push(((n / 256) % 256) as u8);
    out.push(((n / 65536) % 256) as u8);
    out.push(((n / 16777216) % 256) as u8);
}

/// The executable image-establishing tag of a format.
fn format_tag(f: ChannelFormat) -> (t: u8)
    ensures
        t == tag_of_format(f),
{
    match f {
        ChannelFormat::Grayscale8 => 0x31,
        ChannelFormat::Monochrome1 => 0x32,
        ChannelFormat::Rgb24 => 0x33,
        ChannelFormat::Rgba32 => 0x34,
        ChannelFormat::MaskedRgb => 0x35,
    }
}

/// The executable tag of a metadata key.
fn meta_key_tag(k: MetaKey) -> (t: u8)
    ensures
        t == meta_tag(k),
{
    match k {
        MetaKey::Title => 0x74,
        MetaKey::CreationDate => 0x63,
        MetaKey::Artist => 0x61,
        MetaKey::ArtistUrl => 0x77,
        MetaKey::Publisher => 0x70,
        MetaKey::PublishDate => 0x64,
        MetaKey::PublisherUrl => 0x73,
        MetaKey::License => 0x6c,
    }
}

/// Writes one chunk for `it` given the inherited state; returns the new
/// state.
fn write_chunk(it: &StreamItem, cur: Option<(u16, u16, ChannelFormat)>, out: &mut Vec<u8>) -> (nc:
    Option<(u16, u16, ChannelFormat)>)
    requires
        crate::stream::wf_item(it@),
    ensures
        final(out)@ =~= old(out)@ + chunk_bytes(it@, cur),
        nc == next_cur(it@, cur),
{
    let ghost pre = old(out)@;
    match it {
        StreamItem::Image(fr) => {
            let inherit = match cur {
                Some((cw, ch, cf)) => cw == fr.width && ch == fr.height && cf == fr.format,
                None => false,
            };
            proof {
                assert(inherit == (cur == Some((fr.width, fr.height, fr.format))));
            }
            let mut nc = cur;
            if inherit {
                out.push(0x30);
            } else {
                let t = format_tag(fr.format);
                out.push(t);
                push_le16(fr.width, out);
                push_le16(fr.height, out);
                nc = Some((fr.width, fr.height, fr.format));
            }
            proof {
                assert(crate::stream::wf_frame(fr@));
            }
            encode_plane(fr.format, fr.width, fr.height, &fr.pixels, out);
            proof {
                assert(out@ =~= pre + chunk_bytes(it@, cur));
            }
            Some((fr.width, fr.height, fr.format))
        },
        StreamItem::Audio(a) => {
            out.push(0x41);
            let cnt = a.samples.len() as u32;
            proof {
                assert(a.samples@.len() <= u32::MAX);
                assert(cnt == a.samples@.len());
            }
            push_le32(cnt, out);
            let ghost abase = out@;
            let m = a.samples.len();
            for j in 0..m
                invariant
                    m == a.samples@.len(),
                    out@ =~= abase + samples_bytes(a.samples@).take(2 * j),
            {
                let s = a.samples[j];
                out.push((s % 256) as u8);
                out.push((s / 256) as u8);
                proof {
                    let sb = samples_bytes(a.samples@);
                    assert(sb[2 * j] == (s % 256) as u8 && sb[2 * j + 1] == (s / 256) as u8);
                    assert(sb.take(2 * (j + 1)) =~= sb.take(2 * j).push(sb[2 * j]).push(
                        sb[2 * j + 1],
                    ));
                }
            }
            proof {
                assert(samples_bytes(a.samples@).take(2 * m) =~= samples_bytes(a.samples@));
                assert(out@ =~= pre + chunk_bytes(it@, cur));
            }
            cur
        },
        StreamItem::Delay(d) => {
            out.push(0x44);
            push_le32(*d, out);
            proof {
                assert(out@ =~= pre + chunk_bytes(it@, cur));
            }
            cur
        },
        StreamItem::Meta(k, v) => {
            let t = meta_key_tag(*k);
            out.push(t);
            let cnt = v.len() as u32;
            proof {
                assert(v@.len() <= u32::MAX);
                assert(cnt == v@.len());
            }
            push_le32(cnt, out);
            let ghost mbase = out@;
            let m = v.len();
            for j in 0..m
                invariant
                    m == v@.len(),
                    out@ =~= mbase + v@.take(j as int),
            {
                out.push(v[j]);
                proof {
                    assert(v@.take(j + 1) =~= v@.take(j as int).push(v@[j as int]));
                }
            }
            proof {
                assert(v@.take(m as int) =~= v@);
                assert(out@ =~= pre + chunk_bytes(it@, cur));
            }
            cur
        },
    }
}

/// Builds the flat (uncompressed) chunk stream for `items`, in order.
///
/// The first frame always carries its image-establishing tag; a later
/// frame uses the inherit tag exactly when its size and format match the
/// current state, mirroring the decoder's inheritance rule.
pub fn build(items: &Vec<StreamItem>) -> (r: Vec<u8>)
    requires
        wf_items(items_view(items@)),
    ensures
        r@ =~= spec_build(items_view(items@), None),
{
    let ghost iv = items_view(items@);
    let mut out: Vec<u8> = Vec::new();
    let mut cur: Option<(u16, u16, ChannelFormat)> = None;
    let n = items.len();
    proof {
        assert(iv.skip(0) =~= iv);
        assert(out@ + spec_build(iv, None) =~= spec_build(iv, None));
    }
    for i in 0..n
        invariant
            n == items@.len(),
            iv == items_view(items@),
            wf_items(iv),
            spec_build(iv, None) =~= out@ + spec_build(iv.skip(i as int), cur),
    {
        let ghost pre = out@;
        let ghost curv = cur;
        proof {
            assert(iv.skip(i as int)[0] == iv[i as int]);
            assert(iv[i as int] == items@[i as int]@);
            assert(crate::stream::wf_item(iv[i as int]));
        }
        cur = write_chunk(&items[i], cur, &mut out);
        proof {
            assert(cur == next_cur(iv[i as int], curv));
            assert(iv.skip(i as int).skip(1) =~= iv.skip(i + 1));
            assert(spec_build(iv.skip(i as int), curv) =~= chunk_bytes(iv[i as int], curv)
                + spec_build(iv.skip(i + 1), cur));
            assert(pre + (chunk_bytes(iv[i as int], curv) + spec_build(iv.skip(i + 1), cur)) =~= (
            pre + chunk_bytes(iv[i as int], curv)) + spec_build(iv.skip(i + 1), cur));
        }
    }
    proof {
        assert(iv.skip(n as int) =~= Seq::<ItemV>::empty());
        assert(spec_build(iv.skip(n as int), cur) =~= Seq::<u8>::empty());
        assert(spec_build(iv, None) =~= out@);
    }
    out
}


// ---------------------------------------------------------------------
// Executable assembler.
// ---------------------------------------------------------------------
fn read_le16(b0: u8, b1: u8) -> (r: u16)
    ensures
        r == le16_val(b0, b1),
{
    b0 as u16 + b1 as u16 * 256
}

fn read_le32(b0: u8, b1: u8, b2: u8, b3: u8) -> (r: u32)
    ensures
        r == le32_val(b0, b1, b2, b3),
{
    b0 as u32 + b1 as u32 * 256 + b2 as u32 * 65536 + b3 as u32 * 16777216
}

/// The executable inverse of the image tag byte.
fn tag_format(t: u8) -> (r: Option<ChannelFormat>)
    ensures
        r == format_of_tag(t),
{
    if t == 0x31 {
        Some(ChannelFormat::Grayscale8)
    } else if t == 0x32 {
        Some(ChannelFormat::Monochrome1)
    } else if t == 0x33 {
        Some(ChannelFormat::Rgb24)
    } else if t == 0x34 {
        Some(ChannelFormat::Rgba32)
    } else if t == 0x35 {
        Some(ChannelFormat::MaskedRgb)
    } else {
        None
    }
}

/// The executable inverse of the metadata tag byte.
fn tag_meta_key(t: u8) -> (r: Option<MetaKey>)
    ensures
        r == meta_key_of_tag(t),
{
    if t == 0x74 {
        Some(MetaKey::Title)
    } else if t == 0x63 {
        Some(MetaKey::CreationDate)
    } else if t == 0x61 {
        Some(MetaKey::Artist)
    } else if t == 0x77 {
        Some(MetaKey::ArtistUrl)
    } else if t == 0x70 {
        Some(MetaKey::Publisher)
    } else if t == 0x64 {
        Some(MetaKey::PublishDate)
    } else if t == 0x73 {
        Some(MetaKey::PublisherUrl)
    } else if t == 0x6c {
        Some(MetaKey::License)
    } else {
        None
    }
}

/// Parses one chunk at byte `offset`; returns the item, the new inherited
/// state, and the offset just after the chunk.
#[verifier::rlimit(100)]
fn parse_chunk(bytes: &[u8], offset: usize, cur: Option<(u16, u16, ChannelFormat)>) -> (r: Result<
    (StreamItem, Option<(u16, u16, ChannelFormat)>, usize),
    DecodeError,
>)
    requires
        offset < bytes@.len(),
    ensures
        match spec_parse_chunk(bytes@.skip(offset as int), cur) {
            Ok((it, nc, used)) => r matches Ok(x) && x.0@ == it && x.1 == nc && x.2 == offset + used
                && x.2 <= bytes@.len(),
            Err(e) => r == Err::<(StreamItem, Option<(u16, u16, ChannelFormat)>, usize), DecodeError>(
                e,
            ),
        },
{
    let ghost sfx = bytes@.skip(offset as int);
    let n = bytes.len();
    let t = bytes[offset];
    proof {
        assert(sfx[0] == bytes@[offset as int]);
        assert(sfx.len() == n - offset);
    }
    if t == 0x30 {
        match cur {
            None => Err(DecodeError::UnknownOrMisplacedChunk),
            Some((w, h, f)) => {
                proof {
                    assert(sfx.skip(1) =~= bytes@.skip(offset + 1));
                }
                match decode_plane(f, bytes, offset + 1, w, h) {
                    Ok((px, end)) => {
                        let frame = Frame { width: w, height: h, format: f, pixels: px };
                        Ok((StreamItem::Image(frame), cur, end))
                    },
                    Err(e) => Err(e),
                }
            },
        }
    } else if let Some(f) = tag_format(t) {
        if n - offset < 5 {
            return Err(DecodeError::TruncatedStream);
        }
        let w = read_le16(bytes[offset + 1], bytes[offset + 2]);
        let h = read_le16(bytes[offset + 3], bytes[offset + 4]);
        proof {
            assert(sfx[1] == bytes@[offset + 1] && sfx[2] == bytes@[offset + 2] && sfx[3]
                == bytes@[offset + 3] && sfx[4] == bytes@[offset + 4]);
            assert(sfx.skip(5) =~= bytes@.skip(offset + 5));
        }
        match decode_plane(f, bytes, offset + 5, w, h) {
            Ok((px, end)) => {
                let frame = Frame { width: w, height: h, format: f, pixels: px };
                Ok((StreamItem::Image(frame), Some((w, h, f)), end))
            },
            Err(e) => Err(e),
        }
    } else if cur.is_none() {
        Err(DecodeError::UnknownOrMisplacedChunk)
    } else if t == 0x44 {
        if n - offset < 5 {
            return Err(DecodeError::TruncatedStream);
        }
        let d = read_le32(
            bytes[offset + 1],
            bytes[offset + 2],
            bytes[offset + 3],
            bytes[offset + 4],
        );
        proof {
            assert(sfx[1] == bytes@[offset + 1] && sfx[2] == bytes@[offset + 2] && sfx[3]
                == bytes@[offset + 3] && sfx[4] == bytes@[offset + 4]);
        }
        Ok((StreamItem::Delay(d), cur, offset + 5))
    } else if t == 0x41 {
        if n - offset < 5 {
            return Err(DecodeError::TruncatedStream);
        }
        let cnt = read_le32(
            bytes[offset + 1],
            bytes[offset + 2],
            bytes[offset + 3],
            bytes[offset + 4],
        );
        proof {
            assert(sfx[1] == bytes@[offset + 1] && sfx[2] == bytes@[offset + 2] && sfx[3]
                == bytes@[offset + 3] && sfx[4] == bytes@[offset + 4]);
        }
        if cnt == 0 {
            return Err(DecodeError::InvalidAudioLength);
        }
        if ((n - offset - 5) as u64) < 2 * (cnt as u64) {
            proof {
                assert(sfx.len() < 5 + 2 * (cnt as int));
            }
            return Err(DecodeError::TruncatedStream);
        }
        let ns = cnt as usize;
        let base = offset + 5;
        let mut samples: Vec<u16> = Vec::new();
        for i in 0..ns
            invariant
                ns == cnt as int,
                cnt >= 1,
                base == offset + 5,
                base + 2 * ns <= n,
                n == bytes@.len(),
                sfx == bytes@.skip(offset as int),
                samples@ =~= Seq::new(i as nat, |j: int| le16_val(sfx[5 + 2 * j], sfx[6 + 2 * j])),
        {
            let s = read_le16(bytes[base + 2 * i], bytes[base + 2 * i + 1]);
            proof {
                assert(sfx[5 + 2 * (i as int)] == bytes@[base + 2 * i] && sfx[6 + 2 * (i as int)]
                    == bytes@[base + 2 * i + 1]);
                assert(Seq::new((i + 1) as nat, |j: int| le16_val(sfx[5 + 2 * j], sfx[6 + 2 * j]))
                    =~= Seq::new(i as nat, |j: int| le16_val(sfx[5 + 2 * j], sfx[6 + 2 * j])).push(
                    le16_val(sfx[5 + 2 * (i as int)], sfx[6 + 2 * (i as int)]),
                ));
            }
            samples.push(s);
        }
        Ok((StreamItem::Audio(AudioSegment { samples }), cur, base + 2 * ns))
    } else if let Some(k) = tag_meta_key(t) {
        if n - offset < 5 {
            return Err(DecodeError::TruncatedStream);
        }
        let cnt = read_le32(
            bytes[offset + 1],
            bytes[offset + 2],
            bytes[offset + 3],
            bytes[offset + 4],
        );
        proof {
            assert(sfx[1] == bytes@[offset + 1] && sfx[2] == bytes@[offset + 2] && sfx[3]
                == bytes@[offset + 3] && sfx[4] == bytes@[offset + 4]);
        }
        if ((n - offset - 5) as u64) < cnt as u64 {
            proof {
                assert(sfx.len() < 5 + cnt as int);
            }
            return Err(DecodeError::TruncatedStream);
        }
        let ml = cnt as usize;
        let base = offset + 5;
        let mut value: Vec<u8> = Vec::new();
        for i in 0..ml
            invariant
                ml == cnt as int,
                base == offset + 5,
                base + ml <= n,
                n == bytes@.len(),
                sfx == bytes@.skip(offset as int),
                value@ =~= sfx.subrange(5, 5 + i),
        {
            let b = bytes[base + i];
            proof {
                assert(sfx[5 + i as int] == bytes@[base + i]);
                assert(sfx.subrange(5, 5 + i + 1) =~= sfx.subrange(5, 5 + i as int).push(
                    sfx[5 + i as int],
                ));
            }
            value.push(b);
        }
        proof {
            assert(value@ =~= sfx.subrange(5, 5 + cnt as int));
        }
        Ok((StreamItem::Meta(k, value), cur, base + ml))
    } else {
        Err(DecodeError::UnknownOrMisplacedChunk)
    }
}

/// Decodes a flat chunk stream into its ordered items, enforcing the
/// grammar: the first chunk must establish an image, an inherit chunk
/// reuses the current size and format, and the stream ends exactly when
/// the input is exhausted.
pub fn assemble(bytes: &[u8]) -> (r: Result<Vec<StreamItem>, DecodeError>)
    ensures
        match spec_assemble(bytes@, None) {
            Ok(items) => r matches Ok(v) && items_view(v@) =~= items,
            Err(e) => r == Err::<Vec<StreamItem>, DecodeError>(e),
        },
{
    let n = bytes.len();
    let mut offset: usize = 0;
    let mut cur: Option<(u16, u16, ChannelFormat)> = None;
    let mut out: Vec<StreamItem> = Vec::new();
    proof {
        assert(bytes@.skip(0) =~= bytes@);
        assert(items_view(out@) =~= Seq::<ItemV>::empty());
        match spec_assemble(bytes@, None) {
            Ok(items) => {
                assert(items_view(out@) + items =~= items);
            },
            Err(_) => {},
        }
    }
    while offset < n
        invariant
            offset <= n,
            n == bytes@.len(),
            match spec_assemble(bytes@.skip(offset as int), cur) {
                Ok(rest) => spec_assemble(bytes@, None) == Ok::<Seq<ItemV>, DecodeError>(
                    items_view(out@) + rest,
                ),
                Err(e) => spec_assemble(bytes@, None) == Err::<Seq<ItemV>, DecodeError>(e),
            },
        decreases n - offset,
    {
        let ghost sfx = bytes@.skip(offset as int);
        let ghost prev = out@;
        let ghost curv = cur;
        match parse_chunk(bytes, offset, cur) {
            Err(e) => {
                return Err(e);
            },
            Ok((item, nc, newoff)) => {
                proof {
                    lemma_parse_chunk_bounds(sfx, curv);
                    let (it, nc2, used) = spec_parse_chunk(sfx, curv).unwrap();
                    assert(sfx.skip(used) =~= bytes@.skip(offset + used));
                }
                out.push(item);
                cur = nc;
                let prevoff = offset;
                offset = newoff;
                proof {
                    let (it, nc2, used) = spec_parse_chunk(sfx, curv).unwrap();
                    assert(items_view(out@) =~= items_view(prev).push(it));
                    match spec_assemble(bytes@.skip(offset as int), cur) {
                        Ok(rest2) => {
                            assert(spec_assemble(sfx, curv) == Ok::<Seq<ItemV>, DecodeError>(
                                seq![it] + rest2,
                            ));
                            assert(items_view(prev) + (seq![it] + rest2) =~= items_view(prev).push(
                                it,
                            ) + rest2);
                        },
                        Err(_) => {},
                    }
                }
            },
        }
    }
    proof {
        assert(bytes@.skip(offset as int).len() == 0);
        assert(spec_assemble(bytes@.skip(offset as int), cur) == Ok::<Seq<ItemV>, DecodeError>(
            Seq::empty(),
        ));
        assert(items_view(out@) + Seq::<ItemV>::empty() =~= items_view(out@));
    }
    Ok(out)
}


// ---------------------------------------------------------------------
// Round trip: assembling a built stream yields the items back.
// ---------------------------------------------------------------------
proof fn lemma_le16_roundtrip(n: u16)
    ensures
        le16_val((n % 256) as u8, (n / 256) as u8) == n,
{
}

proof fn lemma_le32_roundtrip(n: u32)
    ensures
        le32_val(
            (n % 256) as u8,
            ((n / 256) % 256) as u8,
            ((n / 65536) % 256) as u8,
            ((n / 16777216) % 256) as u8,
        ) == n,
{
    assert((n % 256) + ((n / 256) % 256) * 256 + ((n / 65536) % 256) * 65536 + ((n / 16777216)
        % 256) * 16777216 == n) by (bit_vector);
}

/// Parsing one built chunk from the front of a longer stream yields the
/// item, the updated state, and exactly the chunk's length.
#[verifier::spinoff_prover]
#[verifier::rlimit(100)]
proof fn lemma_chunk_roundtrip(it: ItemV, cur: Option<(u16, u16, ChannelFormat)>, ext: Seq<u8>)
    requires
        crate::stream::wf_item(it),
        it is Image || cur is Some,
    ensures
        spec_parse_chunk(chunk_bytes(it, cur) + ext, cur) == Ok::<
            (ItemV, Option<(u16, u16, ChannelFormat)>, int),
            DecodeError,
        >((it, next_cur(it, cur), chunk_bytes(it, cur).len() as int)),
{
    let cb = chunk_bytes(it, cur);
    let bytes = cb + ext;
    match it {
        ItemV::Image(f) => {
            let enc = spec_encode_plane(f.format, f.width, f.height, f.pixels);
            assert(crate::stream::wf_frame(f));
            if cur == Some((f.width, f.height, f.format)) {
                assert(cb =~= seq![0x30u8] + enc);
                assert(bytes[0] == 0x30);
                assert(bytes.skip(1) =~= enc + ext);
                crate::plane::lemma_plane_roundtrip(f.format, f.width, f.height, f.pixels, ext);
                assert(spec_parse_plane(f.format, bytes.skip(1), f.width, f.height) == Some(
                    (f.pixels, enc.len() as int),
                ));
                assert(cb.len() == 1 + enc.len());
            } else {
                let t = tag_of_format(f.format);
                assert(cb =~= seq![t] + le16_bytes(f.width) + le16_bytes(f.height) + enc);
                assert(bytes[0] == t);
                assert(t != 0x30);
                assert(format_of_tag(t) == Some(f.format));
                assert(bytes.len() >= 5);
                assert(bytes[1] == (f.width % 256) as u8 && bytes[2] == (f.width / 256) as u8);
                assert(bytes[3] == (f.height % 256) as u8 && bytes[4] == (f.height / 256) as u8);
                lemma_le16_roundtrip(f.width);
                lemma_le16_roundtrip(f.height);
                assert(le16_val(bytes[1], bytes[2]) == f.width);
                assert(le16_val(bytes[3], bytes[4]) == f.height);
                assert(bytes.skip(5) =~= enc + ext);
                crate::plane::lemma_plane_roundtrip(f.format, f.width, f.height, f.pixels, ext);
                assert(spec_parse_plane(f.format, bytes.skip(5), f.width, f.height) == Some(
                    (f.pixels, enc.len() as int),
                ));
                assert(cb.len() == 5 + enc.len());
            }
        },
        ItemV::Audio(s) => {
            let cnt = s.len() as u32;
            assert(1 <= s.len() <= u32::MAX);
            assert(cnt as int == s.len());
            let sb = samples_bytes(s);
            assert(cb =~= seq![0x41u8] + le32_bytes(cnt) + sb);
            assert(bytes[0] == 0x41);
            assert(format_of_tag(0x41) is None);
            assert(bytes.len() >= 5);
            assert(bytes[1] == (cnt % 256) as u8 && bytes[2] == ((cnt / 256) % 256) as u8
                && bytes[3] == ((cnt / 65536) % 256) as u8 && bytes[4] == ((cnt / 16777216)
                % 256) as u8);
            lemma_le32_roundtrip(cnt);
            assert(le32_val(bytes[1], bytes[2], bytes[3], bytes[4]) == cnt);
            assert(cnt != 0);
            assert(bytes.len() >= 5 + 2 * (cnt as int));
            let parsed = Seq::new(
                cnt as nat,
                |i: int| le16_val(bytes[5 + 2 * i], bytes[6 + 2 * i]),
            );
            assert forall|i: int| 0 <= i < cnt implies parsed[i] == s[i] by {
                assert(bytes[5 + 2 * i] == sb[2 * i]);
                assert(bytes[6 + 2 * i] == sb[2 * i + 1]);
                assert(sb[2 * i] == (s[i] % 256) as u8);
                assert(sb[2 * i + 1] == (s[i] / 256) as u8);
                lemma_le16_roundtrip(s[i]);
            }
            assert(parsed =~= s);
            assert(cb.len() == 5 + 2 * (cnt as int));
        },
        ItemV::Delay(d) => {
            assert(cb =~= seq![0x44u8] + le32_bytes(d));
            assert(bytes[0] == 0x44);
            assert(format_of_tag(0x44) is None);
            assert(bytes.len() >= 5);
            assert(bytes[1] == (d % 256) as u8 && bytes[2] == ((d / 256) % 256) as u8 && bytes[3]
                == ((d / 65536) % 256) as u8 && bytes[4] == ((d / 16777216) % 256) as u8);
            lemma_le32_roundtrip(d);
            assert(cb.len() == 5);
        },
        ItemV::Meta(k, v) => {
            let t = meta_tag(k);
            let cnt = v.len() as u32;
            assert(v.len() <= u32::MAX);
            assert(cnt as int == v.len());
            assert(cb =~= seq![t] + le32_bytes(cnt) + v);
            assert(bytes[0] == t);
            assert(t != 0x30 && t != 0x41 && t != 0x44);
            assert(format_of_tag(t) is None);
            assert(meta_key_of_tag(t) == Some(k));
            assert(bytes.len() >= 5);
            assert(bytes[1] == (cnt % 256) as u8 && bytes[2] == ((cnt / 256) % 256) as u8
                && bytes[3] == ((cnt / 65536) % 256) as u8 && bytes[4] == ((cnt / 16777216)
                % 256) as u8);
            lemma_le32_roundtrip(cnt);
            assert(bytes.len() >= 5 + cnt as int);
            assert(bytes.subrange(5, 5 + cnt as int) =~= v);
            assert(cb.len() == 5 + cnt as int);
        },
    }
}

#[verifier::spinoff_prover]
#[verifier::rlimit(100)]
proof fn lemma_assemble_roundtrip(items: Seq<ItemV>, cur: Option<(u16, u16, ChannelFormat)>)
    requires
        forall|i: int| 0 <= i < items.len() ==> crate::stream::wf_item(#[trigger] items[i]),
        items.len() > 0 ==> (items[0] is Image || cur is Some),
    ensures
        spec_assemble(spec_build(items, cur), cur) == Ok::<Seq<ItemV>, DecodeError>(items),
    decreases items.len(),
{
    if items.len() == 0 {
        assert(spec_build(items, cur) =~= Seq::<u8>::empty());
        assert(spec_assemble(Seq::<u8>::empty(), cur) == Ok::<Seq<ItemV>, DecodeError>(Seq::empty()));
        assert(Seq::<ItemV>::empty() =~= items);
    } else {
        let it = items[0];
        let nc = next_cur(it, cur);
        let cb = chunk_bytes(it, cur);
        let rest_bytes = spec_build(items.skip(1), nc);
        let bytes = spec_build(items, cur);
        assert(bytes =~= cb + rest_bytes);
        lemma_chunk_roundtrip(it, cur, rest_bytes);
        assert(spec_parse_chunk(bytes, cur) == Ok::<(ItemV, Option<(u16, u16, ChannelFormat)>, int), DecodeError>((it, nc, cb.len() as int)));
        assert(cb.len() >= 1) by {
            match it {
                ItemV::Image(f) => {
                    if cur == Some((f.width, f.height, f.format)) {
                        assert(cb =~= seq![0x30u8] + spec_encode_plane(
                            f.format,
                            f.width,
                            f.height,
                            f.pixels,
                        ));
                    }
                },
                _ => {},
            }
        }
        assert(bytes.skip(cb.len() as int) =~= rest_bytes);
        assert(forall|i: int|
            0 <= i < items.skip(1).len() ==> crate::stream::wf_item(#[trigger] items.skip(1)[i]));
        assert(items.skip(1).len() > 0 ==> (items.skip(1)[0] is Image || nc is Some)) by {
            if it is Image {
                assert(nc is Some);
            }
        }
        lemma_assemble_roundtrip(items.skip(1), nc);
        assert(spec_assemble(rest_bytes, nc) == Ok::<Seq<ItemV>, DecodeError>(items.skip(1)));
        assert(seq![it] + items.skip(1) =~= items);
    }
}

/// Round trip: assembling a built stream yields exactly the items that
/// were built, for every well-formed item sequence. In particular a frame
/// written through the inherit rule decodes to the same frame, for every
/// supported channel format.
pub proof fn lemma_stream_roundtrip(items: Seq<ItemV>)
    requires
        wf_items(items),
    ensures
        spec_assemble(spec_build(items, None), None) == Ok::<Seq<ItemV>, DecodeError>(items),
{
    lemma_assemble_roundtrip(items, None);
}


/// Inheritance, the misplaced half: a stream whose first chunk is not an
/// image-establishing one fails with `UnknownOrMisplacedChunk`, whatever
/// its payload.
pub proof fn lemma_misplaced_first_chunk(bytes: Seq<u8>)
    requires
        bytes.len() > 0,
        format_of_tag(bytes[0]) is None,
    ensures
        spec_assemble(bytes, None) == Err::<Seq<ItemV>, DecodeError>(
            DecodeError::UnknownOrMisplacedChunk,
        ),
{
}

/// A sample count of zero is invalid in an audio chunk, while a timing
/// chunk accepts the value zero as the restart marker.
pub proof fn lemma_delay_zero(bytes: Seq<u8>, cur: Option<(u16, u16, ChannelFormat)>)
    requires
        bytes.len() >= 5,
        cur is Some,
        le32_val(bytes[1], bytes[2], bytes[3], bytes[4]) == 0,
    ensures
        bytes[0] == 0x41 ==> spec_parse_chunk(bytes, cur) == Err::<
            (ItemV, Option<(u16, u16, ChannelFormat)>, int),
            DecodeError,
        >(DecodeError::InvalidAudioLength),
        bytes[0] == 0x44 ==> spec_parse_chunk(bytes, cur) == Ok::<
            (ItemV, Option<(u16, u16, ChannelFormat)>, int),
            DecodeError,
        >((ItemV::Delay(0), cur, 5)),
{
}

/// Truncation: a metadata chunk that declares more payload bytes than the
/// stream still holds fails with `TruncatedStream`.
pub proof fn lemma_truncated_meta(bytes: Seq<u8>, cur: Option<(u16, u16, ChannelFormat)>)
    requires
        bytes.len() >= 5,
        cur is Some,
        meta_key_of_tag(bytes[0]) is Some,
        bytes.len() < 5 + le32_val(bytes[1], bytes[2], bytes[3], bytes[4]),
    ensures
        spec_parse_chunk(bytes, cur) == Err::<
            (ItemV, Option<(u16, u16, ChannelFormat)>, int),
            DecodeError,
        >(DecodeError::TruncatedStream),
{
}


/// Whatever assembles from a byte stream is itself a well-formed item
/// sequence: every decoded stream can be built (and so re-encoded) again.
pub proof fn lemma_assembled_wf(bytes: Seq<u8>)
    ensures
        spec_assemble(bytes, None) matches Ok(items) ==> wf_items(items),
{
    lemma_assembled_wf_rec(bytes, None);
}

proof fn lemma_assembled_wf_rec(bytes: Seq<u8>, cur: Option<(u16, u16, ChannelFormat)>)
    ensures
        spec_assemble(bytes, cur) matches Ok(items) ==> (forall|i: int|
            0 <= i < items.len() ==> crate::stream::wf_item(#[trigger] items[i])) && (cur is None
            && items.len() > 0 ==> items[0] is Image),
    decreases bytes.len(),
{
    if bytes.len() > 0 {
        match spec_parse_chunk(bytes, cur) {
            Err(_) => {},
            Ok((it, nc, used)) => {
                lemma_parse_chunk_bounds(bytes, cur);
                if 1 <= used <= bytes.len() {
                    lemma_assembled_wf_rec(bytes.skip(used), nc);
                    match spec_assemble(bytes.skip(used), nc) {
                        Ok(rest) => {
                            let items = seq![it] + rest;
                            assert forall|i: int|
                                0 <= i < items.len() implies crate::stream::wf_item(
                                #[trigger] items[i],
                            ) by {
                                if i == 0 {
                                    assert(items[0] == it);
                                } else {
                                    assert(items[i] == rest[i - 1]);
                                }
                            }
                            assert(items[0] == it);
                        },
                        Err(_) => {},
                    }
                }
            },
        }
    }
}

} // verus!
