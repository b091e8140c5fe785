//! The legacy text-headed PPM format: header parser, decoder, encoder.
//!
//! The wire layout is the ASCII magic `P6`, one whitespace byte, an
//! optional `#`-comment line ending at a newline, then three decimal
//! fields (width, height, max-sample-value), each terminated by a single
//! whitespace byte, followed by the raw `width * height` RGB triples.
//! The only supported max-sample-value is 255.

use vstd::prelude::*;

use crate::error::DecodeError;
use crate::pixel::{ChannelFormat, Rgba};
use crate::plane::{
    decode_plane, encode_plane, lemma_parse_plane_bounds, spec_encode_plane, spec_parse_plane,
};
use crate::stream::{Frame, FrameV, wf_frame};

verus! {

/// The whitespace bytes accepted as field delimiters: space, newline, tab.
pub open spec fn is_space(b: u8) -> bool {
    b == 0x20 || b == 0x0a || b == 0x09
}

pub open spec fn is_digit(b: u8) -> bool {
    0x30 <= b <= 0x39
}

/// Scans from `pos` to just after the next newline.
pub open spec fn spec_skip_comment(bytes: Seq<u8>, pos: int) -> Result<int, DecodeError>
    recommends
        0 <= pos <= bytes.len(),
    decreases bytes.len() - pos,
{
    if pos >= bytes.len() {
        Err(DecodeError::TruncatedStream)
    } else if bytes[pos] == 0x0a {
        Ok(pos + 1)
    } else {
        spec_skip_comment(bytes, pos + 1)
    }
}

/// Parses a decimal field starting at `pos` with accumulator `acc`,
/// consuming the single whitespace delimiter; fails on a non-digit or on a
/// value that does not fit in 16 bits.
pub open spec fn spec_parse_num(bytes: Seq<u8>, pos: int, acc: u16) -> Result<
    (u16, int),
    DecodeError,
>
    recommends
        0 <= pos <= bytes.len(),
    decreases bytes.len() - pos,
{
    if pos >= bytes.len() {
        Err(DecodeError::TruncatedStream)
    } else if is_space(bytes[pos]) {
        Ok((acc, pos + 1))
    } else if !is_digit(bytes[pos]) {
        Err(DecodeError::MalformedDimension)
    } else if acc * 10 + (bytes[pos] - 0x30) > 65535 {
        Err(DecodeError::MalformedDimension)
    } else {
        spec_parse_num(bytes, pos + 1, (acc * 10 + (bytes[pos] - 0x30)) as u16)
    }
}

/// What the header parser returns: the two dimensions and the offset of
/// the first pixel byte.
pub open spec fn spec_parse_header(bytes: Seq<u8>) -> Result<(u16, u16, int), DecodeError> {
    if bytes.len() < 2 || bytes[0] != 0x50 || bytes[1] != 0x36 {
        Err(DecodeError::IncorrectFormat)
    } else if bytes.len() < 3 || !is_space(bytes[2]) {
        Err(DecodeError::IncorrectFormat)
    } else {
        let start = if 3 < bytes.len() && bytes[3] == 0x23 {
            spec_skip_comment(bytes, 4)
        } else {
            Ok(3int)
        };
        match start {
            Err(e) => Err(e),
            Ok(p0) => match spec_parse_num(bytes, p0, 0) {
                Err(e) => Err(e),
                Ok((w, p1)) => match spec_parse_num(bytes, p1, 0) {
                    Err(e) => Err(e),
                    Ok((h, p2)) => match spec_parse_num(bytes, p2, 0) {
                        Err(e) => Err(e),
                        Ok((m, p3)) => if m != 255 {
                            Err(DecodeError::UnsupportedMaxValue)
                        } else {
                            Ok((w, h, p3))
                        },
                    },
                },
            },
        }
    }
}

/// What decoding a whole plain-PPM buffer yields.
pub open spec fn spec_decode_ppm(bytes: Seq<u8>) -> Result<FrameV, DecodeError> {
    match spec_parse_header(bytes) {
        Err(e) => Err(e),
        Ok((w, h, off)) => match spec_parse_plane(
            ChannelFormat::Rgb24,
            bytes.skip(off),
            w,
            h,
        ) {
            None => Err(DecodeError::TruncatedStream),
            Some((px, _)) => Ok(
                FrameV { width: w, height: h, format: ChannelFormat::Rgb24, pixels: px },
            ),
        },
    }
}

/// The decimal digits of `n`, most significant first, no leading zeros.
pub open spec fn dec_digits(n: nat) -> Seq<u8>
    decreases n,
{
    if n < 10 {
        seq![(0x30 + n) as u8]
    } else {
        dec_digits(n / 10) + seq![(0x30 + n % 10) as u8]
    }
}

/// The bytes that encoding a frame as plain PPM produces: the canonical
/// header (newline delimiters, no comment) and the RGB plane.
pub open spec fn spec_encode_ppm(f: FrameV) -> Seq<u8> {
    seq![0x50u8, 0x36u8, 0x0au8] + dec_digits(f.width as nat) + seq![0x0au8] + dec_digits(
        f.height as nat,
    ) + seq![0x0au8, 0x32u8, 0x35u8, 0x35u8, 0x0au8] + spec_encode_plane(
        ChannelFormat::Rgb24,
        f.width,
        f.height,
        f.pixels,
    )
}

/// The parsed PPM header.
pub struct PpmHeader {
    /// Image width in pixels.
    pub width: u16,
    /// Image height in pixels.
    pub height: u16,
    /// Offset of the first pixel byte.
    pub pixel_offset: usize,
}

/// Parses the PPM header of `bytes`.
pub fn parse_header(bytes: &[u8]) -> (r: Result<PpmHeader, DecodeError>)
    ensures
        match spec_parse_header(bytes@) {
            Ok((w, h, off)) => r matches Ok(hd) && hd.width == w && hd.height == h
                && hd.pixel_offset == off && off <= bytes@.len(),
            Err(e) => r == Err::<PpmHeader, DecodeError>(e),
        },
{
    let n = bytes.len();
    if n < 2 || bytes[0] != 0x50 || bytes[1] != 0x36 {
        return Err(DecodeError::IncorrectFormat);
    }
    if n < 3 || !(bytes[2] == 0x20 || bytes[2] == 0x0a || bytes[2] == 0x09) {
        return Err(DecodeError::IncorrectFormat);
    }
    let mut pos: usize = 3;
    if 3 < n && bytes[3] == 0x23 {
        pos = 4;
        while pos < n && bytes[pos] != 0x0a
            invariant
                4 <= pos <= n,
                n == bytes@.len(),
                spec_skip_comment(bytes@, 4) == spec_skip_comment(bytes@, pos as int),
            decreases n - pos,
        {
            pos = pos + 1;
        }
        if pos >= n {
            return Err(DecodeError::TruncatedStream);
        }
        pos = pos + 1;
        proof {
            assert(spec_skip_comment(bytes@, 4) == Ok::<int, DecodeError>(pos as int));
        }
    }
    proof {
        assert(spec_parse_header(bytes@) == (match spec_parse_num(bytes@, pos as int, 0) {
            Err(e) => Err::<(u16, u16, int), DecodeError>(e),
            Ok((w, p1)) => match spec_parse_num(bytes@, p1, 0) {
                Err(e) => Err(e),
                Ok((h, p2)) => match spec_parse_num(bytes@, p2, 0) {
                    Err(e) => Err(e),
                    Ok((m, p3)) => if m != 255 {
                        Err(DecodeError::UnsupportedMaxValue)
                    } else {
                        Ok((w, h, p3))
                    },
                },
            },
        }));
    }
    let (w, pos) = match parse_num(bytes, pos) {
        Ok(v) => v,
        Err(e) => {
            return Err(e);
        },
    };
    let (h, pos) = match parse_num(bytes, pos) {
        Ok(v) => v,
        Err(e) => {
            return Err(e);
        },
    };
    let (m, pos) = match parse_num(bytes, pos) {
        Ok(v) => v,
        Err(e) => {
            return Err(e);
        },
    };
    if m != 255 {
        return Err(DecodeError::UnsupportedMaxValue);
    }
    Ok(PpmHeader { width: w, height: h, pixel_offset: pos })
}

/// Parses one decimal field and its trailing whitespace delimiter.
fn parse_num(bytes: &[u8], start: usize) -> (r: Result<(u16, usize), DecodeError>)
    requires
        start <= bytes@.len(),
    ensures
        match spec_parse_num(bytes@, start as int, 0) {
            Ok((v, p)) => r matches Ok(x) && x.0 == v && x.1 == p && p <= bytes@.len(),
            Err(e) => r == Err::<(u16, usize), DecodeError>(e),
        },
{
    let n = bytes.len();
    let mut pos = start;
    let mut acc: u16 = 0;
    loop
        invariant
            start <= pos <= n,
            n == bytes@.len(),
            spec_parse_num(bytes@, start as int, 0) == spec_parse_num(bytes@, pos as int, acc),
        decreases n - pos,
    {
        if pos >= n {
            return Err(DecodeError::TruncatedStream);
        }
        let b = bytes[pos];
        if b == 0x20 || b == 0x0a || b == 0x09 {
            return Ok((acc, pos + 1));
        }
        if b < 0x30 || b > 0x39 {
            return Err(DecodeError::MalformedDimension);
        }
        let d = (b - 0x30) as u32;
        let next = acc as u32 * 10 + d;
        if next > 65535 {
            return Err(DecodeError::MalformedDimension);
        }
        acc = next as u16;
        pos = pos + 1;
    }
}

/// Decodes a whole plain-PPM buffer into a single RGB frame.
///
/// Trailing bytes after the pixel plane are ignored; the result owns its
/// pixels and does not borrow from `file`.
pub fn decode(file: &[u8]) -> (r: Result<Frame, DecodeError>)
    ensures
        match spec_decode_ppm(file@) {
            Ok(fv) => r matches Ok(fr) && fr@ == fv && fr.wf(),
            Err(e) => r == Err::<Frame, DecodeError>(e),
        },
{
    let hd = match parse_header(file) {
        Ok(h) => h,
        Err(e) => {
            return Err(e);
        },
    };
    let (pixels, _end) = match decode_plane(
        ChannelFormat::Rgb24,
        file,
        hd.pixel_offset,
        hd.width,
        hd.height,
    ) {
        Ok(v) => v,
        Err(_) => {
            return Err(DecodeError::TruncatedStream);
        },
    };
    let frame = Frame { width: hd.width, height: hd.height, format: ChannelFormat::Rgb24, pixels };
    proof {
        let sb = file@.skip(hd.pixel_offset as int);
        lemma_parse_plane_bounds(ChannelFormat::Rgb24, sb, hd.width, hd.height);
        let px = spec_parse_plane(ChannelFormat::Rgb24, sb, hd.width, hd.height).unwrap().0;
        assert forall|i: int| 0 <= i < px.len() implies px[i].a == 255 && px[i]
            == frame@.pixels[i] by {
            assert(px[i] == crate::pixel::pixel_of_bytes(
                ChannelFormat::Rgb24,
                sb.subrange(i * 3, i * 3 + 3),
            ));
        }
        assert(frame.wf());
    }
    Ok(frame)
}

/// Encodes a frame as plain PPM with the canonical header.
///
/// Alpha is dropped: only the red, green and blue channels reach the wire.
pub fn encode_ppm(frame: &Frame) -> (r: Vec<u8>)
    requires
        frame.wf(),
    ensures
        r@ =~= spec_encode_ppm(frame@),
{
    let mut out: Vec<u8> = Vec::new();
    out.push(0x50);
    out.push(0x36);
    out.push(0x0a);
    proof {
        assert(out@ =~= seq![0x50u8, 0x36u8, 0x0au8]);
    }
    push_dec(frame.width, &mut out);
    out.push(0x0a);
    push_dec(frame.height, &mut out);
    out.push(0x0a);
    out.push(0x32);
    out.push(0x35);
    out.push(0x35);
    out.push(0x0a);
    let ghost header = seq![0x50u8, 0x36u8, 0x0au8] + dec_digits(frame.width as nat) + seq![0x0au8]
        + dec_digits(frame.height as nat) + seq![0x0au8, 0x32u8, 0x35u8, 0x35u8, 0x0au8];
    proof {
        assert(out@ =~= header);
    }
    encode_plane(ChannelFormat::Rgb24, frame.width, frame.height, &frame.pixels, &mut out);
    proof {
        assert(out@ =~= header + spec_encode_plane(
            ChannelFormat::Rgb24,
            frame@.width,
            frame@.height,
            frame@.pixels,
        ));
    }
    out
}

/// Appends the decimal digits of `n`.
fn push_dec(n: u16, out: &mut Vec<u8>)
    ensures
        final(out)@ =~= old(out)@ + dec_digits(n as nat),
    decreases n,
{
    if n < 10 {
        out.push(0x30 + n as u8);
    } else {
        push_dec(n / 10, out);
        out.push(0x30 + (n % 10) as u8);
    }
}


// ---------------------------------------------------------------------
// Round trip: decoding an encoded plain-PPM buffer yields the frame.
// ---------------------------------------------------------------------
pub open spec fn pow10(k: nat) -> int
    decreases k,
{
    if k == 0 {
        1
    } else {
        10 * pow10((k - 1) as nat)
    }
}

/// The value of a decimal digit string, most significant digit first.
pub open spec fn str_val(s: Seq<u8>) -> int
    decreases s.len(),
{
    if s.len() == 0 {
        0
    } else {
        str_val(s.drop_last()) * 10 + (s.last() - 0x30)
    }
}

proof fn lemma_pow10_pos(k: nat)
    ensures
        pow10(k) >= 1,
    decreases k,
{
    if k > 0 {
        lemma_pow10_pos((k - 1) as nat);
    }
}

proof fn lemma_str_val_nonneg(s: Seq<u8>)
    requires
        forall|j: int| 0 <= j < s.len() ==> is_digit(#[trigger] s[j]),
    ensures
        str_val(s) >= 0,
    decreases s.len(),
{
    if s.len() > 0 {
        lemma_str_val_nonneg(s.drop_last());
    }
}

/// A digit string's value splits off its leading digit.
proof fn lemma_str_val_front(s: Seq<u8>)
    requires
        s.len() >= 1,
    ensures
        str_val(s) == (s[0] - 0x30) * pow10((s.len() - 1) as nat) + str_val(s.skip(1)),
    decreases s.len(),
{
    if s.len() == 1 {
        assert(s.drop_last() =~= Seq::<u8>::empty());
        assert(s.skip(1) =~= Seq::<u8>::empty());
    } else {
        let hd = s[0] - 0x30;
        let k = s.len() - 1;
        lemma_str_val_front(s.drop_last());
        assert(s.drop_last().skip(1) =~= s.skip(1).drop_last());
        assert(s.drop_last()[0] == s[0]);
        assert(s.skip(1).last() == s.last());
        assert(str_val(s) == str_val(s.drop_last()) * 10 + (s.last() - 0x30));
        assert(str_val(s.drop_last()) == hd * pow10((k - 1) as nat) + str_val(s.skip(1).drop_last()));
        assert((hd * pow10((k - 1) as nat) + str_val(s.skip(1).drop_last())) * 10 == hd * (10
            * pow10((k - 1) as nat)) + str_val(s.skip(1).drop_last()) * 10) by (nonlinear_arith);
        assert(pow10(k as nat) == 10 * pow10((k - 1) as nat));
        assert(str_val(s.skip(1)) == str_val(s.skip(1).drop_last()) * 10 + (s.last() - 0x30));
    }
}

/// Running the field parser over a digit string followed by a delimiter
/// yields the string's value and stops just after the delimiter.
proof fn lemma_parse_digit_string(bytes: Seq<u8>, pos: int, acc: u16, s: Seq<u8>)
    requires
        0 <= pos,
        pos + s.len() + 1 <= bytes.len(),
        forall|j: int| 0 <= j < s.len() ==> bytes[pos + j] == s[j] && is_digit(#[trigger] s[j]),
        is_space(bytes[pos + s.len()]),
        acc * pow10(s.len()) + str_val(s) <= 65535,
    ensures
        spec_parse_num(bytes, pos, acc) == Ok::<(u16, int), DecodeError>(
            ((acc * pow10(s.len()) + str_val(s)) as u16, pos + s.len() + 1),
        ),
    decreases s.len(),
{
    lemma_str_val_nonneg(s);
    if s.len() == 0 {
        assert(is_space(bytes[pos]));
        assert(acc * 1 + 0 == acc) by (nonlinear_arith);
    } else {
        let d = s[0] - 0x30;
        assert(bytes[pos] == s[0] && is_digit(s[0]));
        assert(!is_space(bytes[pos]));
        lemma_str_val_front(s);
        let k = (s.len() - 1) as nat;
        lemma_pow10_pos(k);
        lemma_str_val_nonneg(s.skip(1));
        assert(acc * pow10(s.len()) == (acc * 10) * pow10(k)) by (nonlinear_arith)
            requires
                pow10(s.len()) == 10 * pow10(k),
        ;
        assert((acc * 10 + d) * pow10(k) == (acc * 10) * pow10(k) + d * pow10(k))
            by (nonlinear_arith);
        assert((acc * 10 + d) * pow10(k) + str_val(s.skip(1)) == acc * pow10(s.len()) + str_val(s));
        assert(d * pow10(k) >= 0 && (acc * 10) * pow10(k) >= 0) by (nonlinear_arith)
            requires
                d >= 0 && acc >= 0 && pow10(k) >= 1,
        ;
        assert(acc * 10 + d <= (acc * 10 + d) * pow10(k)) by (nonlinear_arith)
            requires
                pow10(k) >= 1 && acc * 10 + d >= 0,
        ;
        assert(acc * 10 + d <= 65535);
        let acc2 = (acc * 10 + d) as u16;
        assert(forall|j: int|
            0 <= j < s.skip(1).len() ==> bytes[pos + 1 + j] == s.skip(1)[j] && is_digit(
                #[trigger] s.skip(1)[j],
            ));
        lemma_parse_digit_string(bytes, pos + 1, acc2, s.skip(1));
    }
}

/// `dec_digits` writes digits whose value is the number itself.
proof fn lemma_dec_digits(n: nat)
    ensures
        dec_digits(n).len() >= 1,
        forall|j: int| 0 <= j < dec_digits(n).len() ==> is_digit(#[trigger] dec_digits(n)[j]),
        str_val(dec_digits(n)) == n,
    decreases n,
{
    if n < 10 {
        let s = dec_digits(n);
        assert(s =~= seq![(0x30 + n) as u8]);
        assert(s.drop_last() =~= Seq::<u8>::empty());
        assert(str_val(Seq::<u8>::empty()) == 0);
        assert(s.last() == (0x30 + n) as u8);
        assert(str_val(s) == str_val(s.drop_last()) * 10 + (s.last() - 0x30));
    } else {
        lemma_dec_digits(n / 10);
        let s = dec_digits(n);
        let a = dec_digits(n / 10);
        assert(s =~= a + seq![(0x30 + n % 10) as u8]);
        assert(s.drop_last() =~= a);
        assert(s.last() == (0x30 + n % 10) as u8);
        assert(str_val(s) == str_val(a) * 10 + n % 10);
    }
}

/// Round trip: decoding an encoded plain-PPM buffer yields the frame
/// back, for every well-formed RGB frame.
pub proof fn lemma_ppm_roundtrip(f: FrameV)
    requires
        wf_frame(f),
        f.format == ChannelFormat::Rgb24,
    ensures
        spec_decode_ppm(spec_encode_ppm(f)) == Ok::<FrameV, DecodeError>(f),
{
    let wd = dec_digits(f.width as nat);
    let hd = dec_digits(f.height as nat);
    let enc = spec_encode_plane(ChannelFormat::Rgb24, f.width, f.height, f.pixels);
    let bytes = spec_encode_ppm(f);
    let header = seq![0x50u8, 0x36u8, 0x0au8] + wd + seq![0x0au8] + hd + seq![
        0x0au8,
        0x32u8,
        0x35u8,
        0x35u8,
        0x0au8,
    ];
    assert(bytes =~= header + enc);
    lemma_dec_digits(f.width as nat);
    lemma_dec_digits(f.height as nat);
    lemma_pow10_pos(wd.len());
    lemma_pow10_pos(hd.len());
    assert(bytes[0] == 0x50 && bytes[1] == 0x36 && is_space(bytes[2]));
    assert(bytes[3] == wd[0]);
    assert(is_digit(wd[0]));
    assert(bytes[3] != 0x23);
    // Width field.
    assert(forall|j: int| 0 <= j < wd.len() ==> bytes[3 + j] == wd[j] && is_digit(#[trigger] wd[j]));
    assert(bytes[3 + wd.len() as int] == 0x0a);
    assert(0 * pow10(wd.len()) + str_val(wd) == f.width) by (nonlinear_arith)
        requires
            str_val(wd) == f.width,
    ;
    lemma_parse_digit_string(bytes, 3, 0, wd);
    let p1: int = 3 + wd.len() as int + 1;
    assert(spec_parse_num(bytes, 3, 0) == Ok::<(u16, int), DecodeError>((f.width, p1 as int)));
    // Height field.
    assert(forall|j: int|
        0 <= j < hd.len() ==> bytes[p1 + j] == hd[j] && is_digit(#[trigger] hd[j]));
    assert(bytes[p1 + hd.len() as int] == 0x0a);
    assert(0 * pow10(hd.len()) + str_val(hd) == f.height) by (nonlinear_arith)
        requires
            str_val(hd) == f.height,
    ;
    lemma_parse_digit_string(bytes, p1 as int, 0, hd);
    let p2: int = p1 + hd.len() as int + 1;
    assert(spec_parse_num(bytes, p1 as int, 0) == Ok::<(u16, int), DecodeError>(
        (f.height, p2 as int),
    ));
    // Max-value field: the three digits of 255.
    let ms = seq![0x32u8, 0x35u8, 0x35u8];
    assert(forall|j: int|
        0 <= j < ms.len() ==> bytes[p2 + j] == ms[j] && is_digit(#[trigger] ms[j]));
    assert(bytes[p2 + 3int] == 0x0a);
    assert(str_val(ms) == 255) by {
        assert(ms.drop_last() =~= seq![0x32u8, 0x35u8]);
        assert(seq![0x32u8, 0x35u8].drop_last() =~= seq![0x32u8]);
        assert(seq![0x32u8].drop_last() =~= Seq::<u8>::empty());
        assert(str_val(Seq::<u8>::empty()) == 0);
        assert(str_val(seq![0x32u8]) == str_val(seq![0x32u8].drop_last()) * 10 + (
        seq![0x32u8].last() - 0x30));
        assert(str_val(seq![0x32u8]) == 2);
        assert(str_val(seq![0x32u8, 0x35u8]) == 25);
    }
    assert(0 * pow10(3nat) + str_val(ms) == 255) by (nonlinear_arith)
        requires
            str_val(ms) == 255,
    ;
    lemma_parse_digit_string(bytes, p2 as int, 0, ms);
    let p3: int = p2 + 4;
    assert(spec_parse_num(bytes, p2 as int, 0) == Ok::<(u16, int), DecodeError>((255u16, p3 as int)));
    assert(spec_parse_header(bytes) == Ok::<(u16, u16, int), DecodeError>(
        (f.width, f.height, p3 as int),
    ));
    // The pixel plane follows the header exactly.
    assert(p3 == header.len());
    assert(bytes.skip(p3 as int) =~= enc);
    assert(enc =~= enc + Seq::<u8>::empty());
    crate::plane::lemma_plane_roundtrip(
        ChannelFormat::Rgb24,
        f.width,
        f.height,
        f.pixels,
        Seq::empty(),
    );
    assert(spec_parse_plane(ChannelFormat::Rgb24, bytes.skip(p3 as int), f.width, f.height)
        == Some((f.pixels, enc.len() as int)));
    assert(FrameV {
        width: f.width,
        height: f.height,
        format: ChannelFormat::Rgb24,
        pixels: f.pixels,
    } == f);
}


/// Rejection: a buffer that does not begin with the two magic bytes `P6`
/// fails with `IncorrectFormat`, whatever follows them.
pub proof fn lemma_rejects_bad_magic(bytes: Seq<u8>)
    requires
        bytes.len() < 2 || bytes[0] != 0x50 || bytes[1] != 0x36,
    ensures
        spec_decode_ppm(bytes) == Err::<FrameV, DecodeError>(DecodeError::IncorrectFormat),
{
}

} // verus!
