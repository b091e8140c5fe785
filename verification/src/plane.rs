//! The pixel plane codec: converts between a frame's pixel sequence and
//! each format's on-disk plane of bytes.
//!
//! Byte-oriented formats store a fixed number of bytes per pixel. The two
//! bit-oriented formats pack a bit stream most-significant-bit-first, row
//! by row, padding each row to a byte boundary.

use vstd::prelude::*;

use crate::bits::{
    BitCursor, BitWriter, bits_to_bytes, bytes_to_bits, byte_of_bits, bits_of_byte, pad8, pad_len,
    zero_bits, lemma_bytes_bits_id, lemma_bits_bytes_id, lemma_bytes_to_bits_concat,
    lemma_byte_of_bits_of_byte,
};
use crate::error::DecodeError;
use crate::pixel::{
    ChannelFormat, Rgba, bytes_per_pixel, is_byte_format, masked_absent, masked_pixel_bits,
    mono_bit, mono_off, mono_on, mono_pixel, pixel_bytes, pixel_of_bytes, wf_pixel,
};

verus! {

// ---------------------------------------------------------------------
// Spec: what a plane's bytes are.
// ---------------------------------------------------------------------
/// The bit stream of one `MaskedRgb` row.
pub open spec fn masked_bits(row: Seq<Rgba>) -> Seq<bool>
    decreases row.len(),
{
    if row.len() == 0 {
        Seq::empty()
    } else {
        masked_pixel_bits(row[0]) + masked_bits(row.skip(1))
    }
}

/// The unpadded bit stream of one row of a bit-oriented format.
pub open spec fn row_bits(f: ChannelFormat, row: Seq<Rgba>) -> Seq<bool> {
    match f {
        ChannelFormat::Monochrome1 => Seq::new(row.len(), |j: int| mono_bit(row[j])),
        _ => masked_bits(row),
    }
}

/// The whole bit stream of a bit-oriented plane: each row's bits padded to
/// a byte boundary, rows in order.
pub open spec fn plane_bits(f: ChannelFormat, w: u16, pixels: Seq<Rgba>, h: nat) -> Seq<bool>
    recommends
        pixels.len() == w * h,
    decreases h,
{
    if h == 0 {
        Seq::empty()
    } else {
        pad8(row_bits(f, pixels.take(w as int))) + plane_bits(
            f,
            w,
            pixels.skip(w as int),
            (h - 1) as nat,
        )
    }
}

/// The on-disk bytes of a whole plane.
pub open spec fn spec_encode_plane(f: ChannelFormat, w: u16, h: u16, pixels: Seq<Rgba>) -> Seq<u8>
    recommends
        pixels.len() == w * h,
{
    if is_byte_format(f) {
        Seq::new(
            (pixels.len() * bytes_per_pixel(f)) as nat,
            |i: int| pixel_bytes(f, pixels[i / bytes_per_pixel(f)])[i % bytes_per_pixel(f)],
        )
    } else {
        bits_to_bytes(plane_bits(f, w, pixels, h as nat))
    }
}

// ---------------------------------------------------------------------
// Spec: parsing a plane from the front of a byte sequence.
// ---------------------------------------------------------------------
/// Parses `n` masked pixels from the front of a bit stream; yields the
/// pixels and the number of bits consumed.
pub open spec fn spec_parse_masked(bits: Seq<bool>, n: nat) -> Option<(Seq<Rgba>, int)>
    decreases n,
{
    if n == 0 {
        Some((Seq::empty(), 0))
    } else if bits.len() < 1 {
        None
    } else if !bits[0] {
        match spec_parse_masked(bits.skip(1), (n - 1) as nat) {
            Some((px, c)) => Some((seq![masked_absent()] + px, 1 + c)),
            None => None,
        }
    } else if bits.len() >= 25 {
        let p = Rgba {
            r: byte_of_bits(bits.subrange(1, 9)),
            g: byte_of_bits(bits.subrange(9, 17)),
            b: byte_of_bits(bits.subrange(17, 25)),
            a: 255,
        };
        match spec_parse_masked(bits.skip(25), (n - 1) as nat) {
            Some((px, c)) => Some((seq![p] + px, 25 + c)),
            None => None,
        }
    } else {
        None
    }
}

/// Parses one row of `w` pixels from the front of a bit stream.
pub open spec fn spec_parse_row(f: ChannelFormat, bits: Seq<bool>, w: u16) -> Option<
    (Seq<Rgba>, int),
> {
    match f {
        ChannelFormat::Monochrome1 => if bits.len() >= w {
            Some((Seq::new(w as nat, |j: int| mono_pixel(bits[j])), w as int))
        } else {
            None
        },
        _ => spec_parse_masked(bits, w as nat),
    }
}

/// Parses `h` rows from the front of a byte sequence; each row starts at a
/// byte boundary. Yields the pixels and the number of bytes consumed.
pub open spec fn spec_parse_bit_rows(f: ChannelFormat, bytes: Seq<u8>, w: u16, h: nat) -> Option<
    (Seq<Rgba>, int),
>
    decreases h,
{
    if h == 0 {
        Some((Seq::empty(), 0))
    } else {
        match spec_parse_row(f, bytes_to_bits(bytes), w) {
            None => None,
            Some((row, bits_used)) => {
                let bu = (bits_used + 7) / 8;
                match spec_parse_bit_rows(f, bytes.skip(bu), w, (h - 1) as nat) {
                    None => None,
                    Some((rest, used)) => Some((row + rest, bu + used)),
                }
            },
        }
    }
}

/// Parses a whole plane from the front of a byte sequence.
pub open spec fn spec_parse_plane(f: ChannelFormat, bytes: Seq<u8>, w: u16, h: u16) -> Option<
    (Seq<Rgba>, int),
> {
    if is_byte_format(f) {
        let n = w * h;
        let bpp = bytes_per_pixel(f);
        if bytes.len() >= n * bpp {
            Some(
                (
                    Seq::new(n as nat, |i: int| pixel_of_bytes(f, bytes.subrange(i * bpp, i * bpp + bpp))),
                    n * bpp,
                ),
            )
        } else {
            None
        }
    } else {
        spec_parse_bit_rows(f, bytes, w, h as nat)
    }
}

// ---------------------------------------------------------------------
// Bounds of the spec parsers, needed by callers that slice buffers.
// ---------------------------------------------------------------------
pub proof fn lemma_parse_masked_bounds(bits: Seq<bool>, n: nat)
    ensures
        spec_parse_masked(bits, n) matches Some((px, c)) ==> px.len() == n && 0 <= c <= bits.len()
            && forall|i: int|
            0 <= i < px.len() ==> wf_pixel(ChannelFormat::MaskedRgb, #[trigger] px[i]),
    decreases n,
{
    if n > 0 && bits.len() >= 1 {
        if !bits[0] {
            lemma_parse_masked_bounds(bits.skip(1), (n - 1) as nat);
        } else if bits.len() >= 25 {
            lemma_parse_masked_bounds(bits.skip(25), (n - 1) as nat);
        }
    }
}

pub proof fn lemma_parse_bit_rows_bounds(f: ChannelFormat, bytes: Seq<u8>, w: u16, h: nat)
    requires
        !is_byte_format(f),
    ensures
        spec_parse_bit_rows(f, bytes, w, h) matches Some((px, c)) ==> px.len() == w * h && 0 <= c
            <= bytes.len() && forall|i: int|
            0 <= i < px.len() ==> wf_pixel(f, #[trigger] px[i]),
    decreases h,
{
    if h > 0 {
        match spec_parse_row(f, bytes_to_bits(bytes), w) {
            None => {},
            Some((row, bits_used)) => {
                if f is Monochrome1 {
                    assert(row.len() == w && 0 <= bits_used <= bytes_to_bits(bytes).len());
                } else {
                    lemma_parse_masked_bounds(bytes_to_bits(bytes), w as nat);
                }
                let bu = (bits_used + 7) / 8;
                assert(0 <= bu <= bytes.len());
                lemma_parse_bit_rows_bounds(f, bytes.skip(bu), w, (h - 1) as nat);
                assert((w * h - w) == w * (h - 1)) by (nonlinear_arith);
            },
        }
    } else {
        assert(w * h == 0) by (nonlinear_arith)
            requires
                h == 0,
        ;
    }
}

pub proof fn lemma_parse_plane_bounds(f: ChannelFormat, bytes: Seq<u8>, w: u16, h: u16)
    ensures
        spec_parse_plane(f, bytes, w, h) matches Some((px, c)) ==> px.len() == w * h && 0 <= c
            <= bytes.len() && forall|i: int|
            0 <= i < px.len() ==> wf_pixel(f, #[trigger] px[i]),
{
    if is_byte_format(f) {
        if bytes.len() >= w * h * bytes_per_pixel(f) {
            assert(w * h * bytes_per_pixel(f) >= 0) by (nonlinear_arith);
        }
    } else {
        lemma_parse_bit_rows_bounds(f, bytes, w, h as nat);
    }
}


// ---------------------------------------------------------------------
// Helper lemmas on the spec shapes.
// ---------------------------------------------------------------------
/// The bits of a byte-suffix are a suffix of the bits.
pub proof fn lemma_bits_of_skip(bytes: Seq<u8>, s: int)
    requires
        0 <= s <= bytes.len(),
    ensures
        bytes_to_bits(bytes.skip(s)) =~= bytes_to_bits(bytes).skip(s * 8),
{
    assert(bytes.skip(s).len() == bytes.len() - s);
    assert forall|j: int| 0 <= j < (bytes.len() - s) * 8 implies bytes_to_bits(bytes.skip(s))[j]
        == bytes_to_bits(bytes).skip(s * 8)[j] by {
        assert((s * 8 + j) / 8 == s + j / 8 && (s * 8 + j) % 8 == j % 8) by (nonlinear_arith)
            requires
                0 <= j && 0 <= s,
        ;
        assert(bytes.skip(s)[j / 8] == bytes[s + j / 8]);
    }
}

/// Appending one pixel to a byte-format plane appends its bytes.
proof fn lemma_byte_plane_snoc(f: ChannelFormat, pixels: Seq<Rgba>, i: int)
    requires
        is_byte_format(f),
        0 <= i < pixels.len(),
    ensures
        spec_encode_plane(f, 0, 0, pixels.take(i + 1)) =~= spec_encode_plane(
            f,
            0,
            0,
            pixels.take(i),
        ) + pixel_bytes(f, pixels[i]),
{
    let bpp = bytes_per_pixel(f);
    assert(bpp >= 1);
    let a = spec_encode_plane(f, 0, 0, pixels.take(i));
    let b = spec_encode_plane(f, 0, 0, pixels.take(i + 1));
    assert(b.len() == (i + 1) * bpp && a.len() == i * bpp);
    assert forall|idx: int| 0 <= idx < (i + 1) * bpp implies b[idx] == (a + pixel_bytes(
        f,
        pixels[i],
    ))[idx] by {
        if idx < i * bpp {
            assert(0 <= idx / bpp < i && idx % bpp < bpp) by (nonlinear_arith)
                requires
                    0 <= idx < i * bpp && bpp >= 1,
            ;
            assert(pixels.take(i + 1)[idx / bpp] == pixels.take(i)[idx / bpp]);
        } else {
            assert(idx / bpp == i && idx % bpp == idx - i * bpp) by (nonlinear_arith)
                requires
                    i * bpp <= idx < (i + 1) * bpp && bpp >= 1,
            ;
            assert(pixels.take(i + 1)[i] == pixels[i]);
        }
    }
}

/// Appending one pixel to a masked row appends its bits.
proof fn lemma_masked_bits_snoc(row: Seq<Rgba>)
    requires
        row.len() > 0,
    ensures
        masked_bits(row) =~= masked_bits(row.drop_last()) + masked_pixel_bits(row.last()),
    decreases row.len(),
{
    if row.len() == 1 {
        assert(row.skip(1) =~= Seq::<Rgba>::empty());
        assert(row.drop_last() =~= Seq::<Rgba>::empty());
        assert(masked_bits(row) =~= masked_pixel_bits(row[0]) + masked_bits(row.skip(1)));
        assert(masked_bits(row) =~= masked_bits(row.drop_last()) + masked_pixel_bits(row.last()));
    } else {
        let tail = row.skip(1);
        lemma_masked_bits_snoc(tail);
        assert(tail.drop_last() =~= row.drop_last().skip(1));
        assert(tail.last() == row.last());
        assert(row.drop_last()[0] == row[0]);
        assert(row.drop_last().len() > 0);
        assert(masked_bits(row.drop_last()) =~= masked_pixel_bits(row[0]) + masked_bits(
            row.drop_last().skip(1),
        ));
        assert(masked_bits(row) =~= masked_pixel_bits(row[0]) + (masked_bits(tail.drop_last())
            + masked_pixel_bits(tail.last())));
        assert(masked_pixel_bits(row[0]) + (masked_bits(tail.drop_last()) + masked_pixel_bits(
            tail.last(),
        )) =~= (masked_pixel_bits(row[0]) + masked_bits(row.drop_last().skip(1)))
            + masked_pixel_bits(row.last()));
    }
}

/// Padding distributes over a byte-aligned prefix.
proof fn lemma_pad8_aligned_prefix(a: Seq<bool>, b: Seq<bool>)
    requires
        a.len() % 8 == 0,
    ensures
        pad8(a + b) =~= a + pad8(b),
{
    assert(pad_len((a + b).len() as int) == pad_len(b.len() as int));
}

// ---------------------------------------------------------------------
// Executable encoder.
// ---------------------------------------------------------------------
/// Writes the unpadded bits of one row starting at pixel `start`.
fn encode_row_bits(
    f: ChannelFormat,
    w: u16,
    pixels: &Vec<Rgba>,
    start: usize,
    writer: &mut BitWriter,
)
    requires
        !is_byte_format(f),
        old(writer).wf(),
        start + w <= pixels@.len(),
    ensures
        final(writer).wf(),
        final(writer).bits() =~= old(writer).bits() + row_bits(
            f,
            pixels@.subrange(start as int, start + w),
        ),
{
    let plen = pixels.len();
    let ghost base = old(writer).bits();
    let ghost row = pixels@.subrange(start as int, start + w);
    let is_mono = match f {
        ChannelFormat::Monochrome1 => true,
        _ => false,
    };
    for c in 0..w as usize
        invariant
            writer.wf(),
            start + w <= plen,
            plen == pixels@.len(),
            row == pixels@.subrange(start as int, start + w),
            is_mono == (f is Monochrome1),
            !is_byte_format(f),
            writer.bits() =~= base + row_bits(f, row.take(c as int)),
    {
        let p = pixels[start + c];
        proof {
            assert(row.take(c as int + 1).drop_last() =~= row.take(c as int));
            assert(row.take(c as int + 1).last() == row[c as int]);
            assert(row[c as int] == pixels@[start + c]);
        }
        if is_mono {
            proof {
                assert(row_bits(f, row.take(c as int + 1)) =~= row_bits(
                    f,
                    row.take(c as int),
                ).push(mono_bit(row[c as int])));
            }
            writer.push_bit(p.r != 0);
        } else {
            proof {
                lemma_masked_bits_snoc(row.take(c as int + 1));
                assert(row_bits(f, row.take(c as int + 1)) =~= row_bits(f, row.take(c as int))
                    + masked_pixel_bits(row[c as int]));
            }
            if p.a == 0 {
                proof {
                    assert(masked_pixel_bits(row[c as int]) =~= seq![false]);
                    assert(base + row_bits(f, row.take(c as int + 1)) =~= (base + row_bits(
                        f,
                        row.take(c as int),
                    )).push(false));
                }
                writer.push_bit(false);
            } else {
                writer.push_bit(true);
                writer.push_byte_bits(p.r);
                writer.push_byte_bits(p.g);
                writer.push_byte_bits(p.b);
                proof {
                    assert(masked_pixel_bits(row[c as int]) =~= seq![true] + bits_of_byte(p.r)
                        + bits_of_byte(p.g) + bits_of_byte(p.b));
                    assert(writer.bits() =~= base + row_bits(f, row.take(c as int + 1)));
                }
            }
        }
    }
    proof {
        assert(row.take(w as int) =~= row);
    }
}

/// Writes `rows` padded rows starting at pixel `start`.
fn encode_bit_rows(
    f: ChannelFormat,
    w: u16,
    pixels: &Vec<Rgba>,
    start: usize,
    rows: u16,
    writer: &mut BitWriter,
)
    requires
        !is_byte_format(f),
        old(writer).wf(),
        old(writer).nbits() == 0,
        start + w * rows <= pixels@.len(),
    ensures
        final(writer).wf(),
        final(writer).nbits() == 0,
        final(writer).bits() =~= old(writer).bits() + plane_bits(
            f,
            w,
            pixels@.subrange(start as int, start + w * rows),
            rows as nat,
        ),
    decreases rows,
{
    let ghost s = pixels@.subrange(start as int, start + w * rows);
    if rows == 0 {
        proof {
            assert(w * rows == 0) by (nonlinear_arith)
                requires
                    rows == 0,
            ;
            assert(plane_bits(f, w, s, 0nat) =~= Seq::<bool>::empty());
        }
        return ;
    }
    proof {
        assert(w * 1 <= w * rows && w * rows - w == w * (rows - 1)) by (nonlinear_arith)
            requires
                rows >= 1,
        ;
    }
    let plen = pixels.len();
    proof {
        assert(start + w <= plen);
    }
    let ghost base = old(writer).bits();
    encode_row_bits(f, w, pixels, start, writer);
    writer.pad_to_byte();
    proof {
        let rb = row_bits(f, pixels@.subrange(start as int, start + w));
        assert(base.len() % 8 == 0) by {
            assert(base.len() == 8 * old(writer).out@.len() + old(writer).nbits());
        }
        lemma_pad8_aligned_prefix(base, rb);
        assert(writer.bits() =~= base + pad8(rb));
        assert(writer.bits().len() % 8 == 0) by {
            assert(writer.bits().len() == 8 * writer.out@.len() + writer.nbits());
        }
    }
    let ghost mid = writer.bits();
    encode_bit_rows(f, w, pixels, start + w as usize, rows - 1, writer);
    proof {
        let rb = row_bits(f, pixels@.subrange(start as int, start + w));
        let rest = pixels@.subrange(start + w as int, start + w * rows);
        assert(s.take(w as int) =~= pixels@.subrange(start as int, start + w));
        assert(s.skip(w as int) =~= rest);
        assert(plane_bits(f, w, s, rows as nat) =~= pad8(row_bits(f, s.take(w as int)))
            + plane_bits(f, w, s.skip(w as int), (rows - 1) as nat));
        assert(writer.bits() =~= base + pad8(rb) + plane_bits(
            f,
            w,
            rest,
            (rows - 1) as nat,
        ));
        assert(base + pad8(rb) + plane_bits(f, w, rest, (rows - 1) as nat) =~= base + (pad8(rb)
            + plane_bits(f, w, rest, (rows - 1) as nat)));
    }
}

/// Appends the on-disk bytes of a whole plane to `out`.
///
/// The pixels are taken row-major; `pixels` must hold exactly
/// `w * h` samples.
pub fn encode_plane(f: ChannelFormat, w: u16, h: u16, pixels: &Vec<Rgba>, out: &mut Vec<u8>)
    requires
        pixels@.len() == w * h,
    ensures
        final(out)@ =~= old(out)@ + spec_encode_plane(f, w, h, pixels@),
{
    let byte_format = match f {
        ChannelFormat::Grayscale8 | ChannelFormat::Rgb24 | ChannelFormat::Rgba32 => true,
        _ => false,
    };
    if byte_format {
        let n = pixels.len();
        for i in 0..n
            invariant
                is_byte_format(f),
                n == pixels@.len(),
                out@ =~= old(out)@ + spec_encode_plane(f, 0, 0, pixels@.take(i as int)),
        {
            let p = pixels[i];
            match f {
                ChannelFormat::Grayscale8 => {
                    out.push(p.r);
                },
                ChannelFormat::Rgb24 => {
                    out.push(p.r);
                    out.push(p.g);
                    out.push(p.b);
                },
                _ => {
                    out.push(p.r);
                    out.push(p.g);
                    out.push(p.b);
                    out.push(p.a);
                },
            }
            proof {
                lemma_byte_plane_snoc(f, pixels@, i as int);
                assert(out@ =~= old(out)@ + spec_encode_plane(f, 0, 0, pixels@.take(i + 1)));
            }
        }
        proof {
            assert(pixels@.take(n as int) =~= pixels@);
            assert(spec_encode_plane(f, 0, 0, pixels@) =~= spec_encode_plane(f, w, h, pixels@));
        }
    } else {
        let mut writer = BitWriter::new();
        proof {
            assert(w * h == h * w) by (nonlinear_arith);
        }
        encode_bit_rows(f, w, pixels, 0, h, &mut writer);
        proof {
            assert(pixels@.subrange(0, 0 + w * h) =~= pixels@);
        }
        let bytes = writer.into_bytes();
        let ghost added = bytes@;
        proof {
            assert(added =~= bits_to_bytes(plane_bits(f, w, pixels@, h as nat)));
        }
        let mut k: usize = 0;
        let m = bytes.len();
        while k < m
            invariant
                k <= m,
                m == bytes@.len(),
                added == bytes@,
                out@ =~= old(out)@ + added.take(k as int),
            decreases m - k,
        {
            out.push(bytes[k]);
            proof {
                assert(added.take(k as int + 1) =~= added.take(k as int).push(added[k as int]));
            }
            k = k + 1;
        }
        proof {
            assert(added.take(m as int) =~= added);
        }
    }
}


// ---------------------------------------------------------------------
// Executable decoder.
// ---------------------------------------------------------------------
/// Decodes `n` masked pixels through a bit cursor, appending them to `acc`.
#[verifier::rlimit(100)]
fn decode_masked_px(bytes: &[u8], cur: &mut BitCursor, n: u16, acc: &mut Vec<Rgba>) -> (r: Result<
    (),
    DecodeError,
>)
    requires
        old(cur).wf(),
        old(cur).byte_pos <= bytes@.len(),
        old(cur).pos() <= bytes@.len() * 8,
    ensures
        final(cur).wf(),
        final(cur).byte_pos <= bytes@.len(),
        final(cur).pos() <= bytes@.len() * 8,
        match spec_parse_masked(bytes_to_bits(bytes@).skip(old(cur).pos()), n as nat) {
            Some((px, c)) => r is Ok && final(acc)@ =~= old(acc)@ + px
                && final(cur).pos() == old(cur).pos() + c,
            None => r == Err::<(), DecodeError>(DecodeError::TruncatedStream),
        },
    decreases n,
{
    let ghost allbits = bytes_to_bits(bytes@);
    let ghost p0 = old(cur).pos();
    let ghost sbits = allbits.skip(p0);
    if n == 0 {
        proof {
            assert(final(acc)@ =~= old(acc)@ + Seq::<Rgba>::empty());
        }
        return Ok(());
    }
    match cur.read_bit(bytes) {
        Err(e) => {
            proof {
                assert(sbits.len() == 0);
            }
            Err(e)
        },
        Ok(present) => {
            proof {
                assert(sbits[0] == allbits[p0]);
            }
            if !present {
                acc.push(Rgba { r: 0, g: 0, b: 0, a: 0 });
                let ghost acc1 = acc@;
                proof {
                    assert(sbits.skip(1) =~= allbits.skip(p0 + 1));
                }
                let r = decode_masked_px(bytes, cur, n - 1, acc);
                proof {
                    match spec_parse_masked(sbits.skip(1), (n - 1) as nat) {
                        Some((px, c)) => {
                            assert(acc@ =~= acc1 + px);
                            assert(acc1 =~= old(acc)@ + seq![masked_absent()]);
                            assert(old(acc)@ + seq![masked_absent()] + px =~= old(acc)@ + (seq![
                                masked_absent(),
                            ] + px));
                        },
                        None => {},
                    }
                }
                r
            } else {
                let ghost p1 = cur.pos();
                let rr = match cur.read_byte_bits(bytes) {
                    Ok(v) => v,
                    Err(e) => {
                        proof {
                            assert(sbits.len() < 9);
                        }
                        return Err(e);
                    },
                };
                let gg = match cur.read_byte_bits(bytes) {
                    Ok(v) => v,
                    Err(e) => {
                        proof {
                            assert(sbits.len() < 17);
                        }
                        return Err(e);
                    },
                };
                let bb = match cur.read_byte_bits(bytes) {
                    Ok(v) => v,
                    Err(e) => {
                        proof {
                            assert(sbits.len() < 25);
                        }
                        return Err(e);
                    },
                };
                proof {
                    assert(sbits.len() >= 25);
                    assert(sbits.subrange(1, 9) =~= allbits.subrange(p0 + 1, p0 + 9));
                    assert(sbits.subrange(9, 17) =~= allbits.subrange(p0 + 9, p0 + 17));
                    assert(sbits.subrange(17, 25) =~= allbits.subrange(p0 + 17, p0 + 25));
                }
                acc.push(Rgba { r: rr, g: gg, b: bb, a: 255 });
                let ghost acc1 = acc@;
                let ghost px0 = Rgba {
                    r: byte_of_bits(sbits.subrange(1, 9)),
                    g: byte_of_bits(sbits.subrange(9, 17)),
                    b: byte_of_bits(sbits.subrange(17, 25)),
                    a: 255,
                };
                proof {
                    assert(sbits.skip(25) =~= allbits.skip(p0 + 25));
                }
                let r = decode_masked_px(bytes, cur, n - 1, acc);
                proof {
                    match spec_parse_masked(sbits.skip(25), (n - 1) as nat) {
                        Some((px, c)) => {
                            assert(acc@ =~= acc1 + px);
                            assert(acc1 =~= old(acc)@ + seq![px0]);
                            assert(old(acc)@ + seq![px0] + px =~= old(acc)@ + (seq![px0] + px));
                        },
                        None => {},
                    }
                }
                r
            }
        },
    }
}

/// Rounds a bit position up to its byte boundary.
proof fn lemma_align_div(s: int, x: int, q: int)
    requires
        s >= 0,
        x >= 0,
        8 * s + x <= q < 8 * s + x + 8,
        q % 8 == 0,
    ensures
        q == 8 * (s + (x + 7) / 8),
{
    assert(q == 8 * (s + (x + 7) / 8)) by (nonlinear_arith)
        requires
            s >= 0,
            x >= 0,
            8 * s + x <= q < 8 * s + x + 8,
            q % 8 == 0,
    ;
}

/// Decodes `rows` padded rows starting at byte `start`, appending the
/// pixels to `acc`; returns the byte offset after the plane.
fn decode_bit_rows(
    f: ChannelFormat,
    bytes: &[u8],
    start: usize,
    w: u16,
    rows: u16,
    acc: &mut Vec<Rgba>,
) -> (r: Result<usize, DecodeError>)
    requires
        !is_byte_format(f),
        start <= bytes@.len(),
    ensures
        match spec_parse_bit_rows(f, bytes@.skip(start as int), w, rows as nat) {
            Some((px, c)) => r matches Ok(end) && end == start + c && end <= bytes@.len()
                && final(acc)@ =~= old(acc)@ + px,
            None => r == Err::<usize, DecodeError>(DecodeError::TruncatedStream),
        },
    decreases rows,
{
    let ghost allbits = bytes_to_bits(bytes@);
    let ghost sbytes = bytes@.skip(start as int);
    let ghost sbits = bytes_to_bits(sbytes);
    proof {
        lemma_bits_of_skip(bytes@, start as int);
        assert(sbits =~= allbits.skip(start * 8));
    }
    if rows == 0 {
        proof {
            assert(final(acc)@ =~= old(acc)@ + Seq::<Rgba>::empty());
        }
        return Ok(start);
    }
    let mut cur = BitCursor::new_at(start);
    let ghost accbase = acc@;
    let is_mono = match f {
        ChannelFormat::Monochrome1 => true,
        _ => false,
    };
    let ghost rowpx_bits: (Seq<Rgba>, int) = (Seq::empty(), 0);
    if is_mono {
        for c in 0..w as usize
            invariant
                cur.wf(),
                is_mono,
                is_mono == (f is Monochrome1),
                !is_byte_format(f),
                rows >= 1,
                cur.pos() == start * 8 + c,
                cur.byte_pos <= bytes@.len(),
                start <= bytes@.len(),
                start * 8 + c <= bytes@.len() * 8,
                allbits == bytes_to_bits(bytes@),
                sbytes == bytes@.skip(start as int),
                sbits == bytes_to_bits(sbytes),
                sbits =~= allbits.skip(start * 8),
                accbase == old(acc)@,
                acc@ =~= accbase + Seq::new(c as nat, |j: int| mono_pixel(sbits[j])),
        {
            match cur.read_bit(bytes) {
                Ok(b) => {
                    proof {
                        assert(sbits[c as int] == allbits[start * 8 + c]);
                        assert(accbase + Seq::new(
                            (c + 1) as nat,
                            |j: int| mono_pixel(sbits[j]),
                        ) =~= (accbase + Seq::new(c as nat, |j: int| mono_pixel(sbits[j]))).push(
                            mono_pixel(sbits[c as int]),
                        ));
                    }
                    if b {
                        acc.push(Rgba { r: 255, g: 255, b: 255, a: 255 });
                    } else {
                        acc.push(Rgba { r: 0, g: 0, b: 0, a: 255 });
                    }
                },
                Err(e) => {
                    proof {
                        assert(start * 8 + c == bytes@.len() * 8);
                        assert(sbits.len() < w);
                        assert(spec_parse_row(f, sbits, w) is None);
                        assert(spec_parse_bit_rows(f, sbytes, w, rows as nat) is None);
                    }
                    return Err(e);
                },
            }
        }
        proof {
            assert(sbits.len() >= w);
            let row = Seq::new(w as nat, |j: int| mono_pixel(sbits[j]));
            assert(acc@ =~= accbase + row);
            rowpx_bits = (row, w as int);
        }
    } else {
        let ghost pm = spec_parse_masked(sbits, w as nat);
        match decode_masked_px(bytes, &mut cur, w, acc) {
            Ok(()) => {
                proof {
                    rowpx_bits = pm.unwrap();
                }
            },
            Err(e) => {
                return Err(e);
            },
        }
    }
    let ghost row = rowpx_bits.0;
    let ghost used = rowpx_bits.1;
    proof {
        assert(spec_parse_row(f, sbits, w) == Some::<(Seq<Rgba>, int)>((row, used)));
        assert(acc@ =~= accbase + row);
        assert(cur.pos() == start * 8 + used);
        if !is_mono {
            lemma_parse_masked_bounds(sbits, w as nat);
        }
        assert(0 <= used <= sbits.len());
    }
    let blen = bytes.len();
    if cur.bit != 0 {
        proof {
            assert(cur.byte_pos * 8 < cur.pos());
            assert(cur.pos() <= bytes@.len() * 8);
            assert(cur.byte_pos < blen);
        }
    }
    cur.align_to_byte();
    let end_row = cur.byte_pos;
    proof {
        lemma_align_div(start as int, used, cur.pos());
        assert(end_row == start + (used + 7) / 8);
        assert(end_row <= bytes@.len());
        assert(sbytes.skip((used + 7) / 8) =~= bytes@.skip(end_row as int));
    }
    let ghost accmid = acc@;
    let r = decode_bit_rows(f, bytes, end_row, w, rows - 1, acc);
    proof {
        let bu = (used + 7) / 8;
        match spec_parse_bit_rows(f, bytes@.skip(end_row as int), w, (rows - 1) as nat) {
            Some((restpx, cu)) => {
                assert(r matches Ok(end) && end == end_row + cu);
                assert(acc@ =~= accmid + restpx);
                assert(accbase + row + restpx =~= accbase + (row + restpx));
                assert(spec_parse_bit_rows(f, sbytes, w, rows as nat) == Some::<(Seq<Rgba>, int)>(
                    (row + restpx, bu + cu),
                ));
            },
            None => {
                assert(spec_parse_bit_rows(f, sbytes, w, rows as nat) is None);
            },
        }
    }
    r
}


/// Decodes a whole plane starting at byte `start`; returns the pixels and
/// the byte offset just after the plane. Fails with `TruncatedStream` when
/// the buffer holds fewer bytes than the plane needs.
pub fn decode_plane(f: ChannelFormat, bytes: &[u8], start: usize, w: u16, h: u16) -> (r: Result<
    (Vec<Rgba>, usize),
    DecodeError,
>)
    requires
        start <= bytes@.len(),
    ensures
        match spec_parse_plane(f, bytes@.skip(start as int), w, h) {
            Some((px, c)) => r matches Ok(p) && p.0@ =~= px && p.1 == start + c && p.1
                <= bytes@.len(),
            None => r == Err::<(Vec<Rgba>, usize), DecodeError>(DecodeError::TruncatedStream),
        },
{
    let ghost sbytes = bytes@.skip(start as int);
    let byte_format = match f {
        ChannelFormat::Grayscale8 | ChannelFormat::Rgb24 | ChannelFormat::Rgba32 => true,
        _ => false,
    };
    if byte_format {
        let bpp: u64 = match f {
            ChannelFormat::Grayscale8 => 1,
            ChannelFormat::Rgb24 => 3,
            _ => 4,
        };
        proof {
            assert(bpp == bytes_per_pixel(f));
        }
        proof {
            assert((w as u64) * (h as u64) <= 0xffff_ffff && (w as u64) * (h as u64) * bpp <= 4
                * 0xffff_ffff) by (nonlinear_arith)
                requires
                    w <= 0xffff && h <= 0xffff && 1 <= bpp <= 4,
            ;
        }
        let need: u64 = (w as u64) * (h as u64) * bpp;
        proof {
            assert((w as u64) * (h as u64) * bpp == (w * h) as int * bytes_per_pixel(f)
                && (w as u64) * (h as u64) == (w * h) as int) by (nonlinear_arith)
                requires
                    bpp == bytes_per_pixel(f),
            ;
        }
        let avail: u64 = (bytes.len() - start) as u64;
        if avail < need {
            proof {
                assert(sbytes.len() < (w * h) as int * bytes_per_pixel(f));
                assert(spec_parse_plane(f, sbytes, w, h) is None);
            }
            return Err(DecodeError::TruncatedStream);
        }
        let n: usize = ((w as u64) * (h as u64)) as usize;
        proof {
            assert(n == w * h) by (nonlinear_arith)
                requires
                    (w as u64) * (h as u64) == (w * h) as int,
                    (w as u64) * (h as u64) * bpp <= u64::MAX,
                    bpp >= 1,
                    n == ((w as u64) * (h as u64)) as usize,
                    (w as u64) * (h as u64) * bpp <= bytes@.len() - start,
            ;
        }
        let bppu: usize = bpp as usize;
        let mut out: Vec<Rgba> = Vec::new();
        let ghost pxspec = Seq::new(
            (w * h) as nat,
            |i: int|
                pixel_of_bytes(
                    f,
                    sbytes.subrange(i * bytes_per_pixel(f), i * bytes_per_pixel(f) + bytes_per_pixel(f)),
                ),
        );
        let blen = bytes.len();
        for i in 0..n
            invariant
                is_byte_format(f),
                bpp == bytes_per_pixel(f),
                bppu == bpp,
                n == w * h,
                start + n * bpp <= blen,
                blen == bytes@.len(),
                sbytes == bytes@.skip(start as int),
                pxspec == Seq::new(
                    (w * h) as nat,
                    |i: int|
                        pixel_of_bytes(
                            f,
                            sbytes.subrange(
                                i * bytes_per_pixel(f),
                                i * bytes_per_pixel(f) + bytes_per_pixel(f),
                            ),
                        ),
                ),
                out@ =~= pxspec.take(i as int),
        {
            proof {
                assert(i * bpp + bpp <= n * bpp && 0 <= i * bpp) by (nonlinear_arith)
                    requires
                        0 <= i < n,
                        bpp >= 1,
                ;
            }
            let base = start + i * bppu;
            let ghost sb = i * bytes_per_pixel(f);
            proof {
                assert forall|j: int| 0 <= j < bpp implies #[trigger] sbytes.subrange(
                    sb,
                    sb + bpp as int,
                )[j] == bytes@[base + j] by {
                    assert(sbytes[sb + j] == bytes@[start + sb + j]);
                }
            }
            let p = match f {
                ChannelFormat::Grayscale8 => {
                    let g = bytes[base];
                    Rgba { r: g, g: g, b: g, a: 255 }
                },
                ChannelFormat::Rgb24 => {
                    Rgba { r: bytes[base], g: bytes[base + 1], b: bytes[base + 2], a: 255 }
                },
                _ => {
                    Rgba {
                        r: bytes[base],
                        g: bytes[base + 1],
                        b: bytes[base + 2],
                        a: bytes[base + 3],
                    }
                },
            };
            proof {
                assert(p == pixel_of_bytes(f, sbytes.subrange(sb, sb + bytes_per_pixel(f))));
                assert(pxspec.take(i + 1) =~= pxspec.take(i as int).push(pxspec[i as int]));
            }
            out.push(p);
        }
        proof {
            assert(pxspec.take(n as int) =~= pxspec);
            assert(sbytes.len() >= (w * h) as int * bytes_per_pixel(f));
        }
        let end = start + n * bppu;
        Ok((out, end))
    } else {
        let mut out: Vec<Rgba> = Vec::new();
        match decode_bit_rows(f, bytes, start, w, h, &mut out) {
            Ok(end) => {
                proof {
                    assert(out@ =~= Seq::<Rgba>::empty() + spec_parse_bit_rows(
                        f,
                        sbytes,
                        w,
                        h as nat,
                    ).unwrap().0);
                }
                Ok((out, end))
            },
            Err(e) => Err(e),
        }
    }
}


// ---------------------------------------------------------------------
// Round trip: parsing an encoded plane yields the pixels back.
// ---------------------------------------------------------------------
/// Ceiling division by eight agrees with padding to a byte boundary.
proof fn lemma_ceil8(l: int)
    requires
        l >= 0,
    ensures
        (l + 7) / 8 == (l + pad_len(l)) / 8,
        (l + pad_len(l)) % 8 == 0,
{
    assert((l + 7) / 8 == (l + (8 - l % 8) % 8) / 8 && (l + (8 - l % 8) % 8) % 8 == 0)
        by (nonlinear_arith)
        requires
            l >= 0,
    ;
}

/// A padded row is a whole number of bytes.
proof fn lemma_pad8_aligned(s: Seq<bool>)
    ensures
        pad8(s).len() % 8 == 0,
        pad8(s).len() / 8 == (s.len() + 7) / 8,
{
    lemma_ceil8(s.len() as int);
}

/// The whole bit plane is a whole number of bytes.
pub proof fn lemma_plane_bits_aligned(f: ChannelFormat, w: u16, px: Seq<Rgba>, h: nat)
    ensures
        plane_bits(f, w, px, h).len() % 8 == 0,
    decreases h,
{
    if h > 0 {
        lemma_pad8_aligned(row_bits(f, px.take(w as int)));
        lemma_plane_bits_aligned(f, w, px.skip(w as int), (h - 1) as nat);
    }
}

/// `bits_to_bytes` distributes over byte-aligned concatenation.
proof fn lemma_bits_to_bytes_concat(a: Seq<bool>, b: Seq<bool>)
    requires
        a.len() % 8 == 0,
        b.len() % 8 == 0,
    ensures
        bits_to_bytes(a + b) =~= bits_to_bytes(a) + bits_to_bytes(b),
{
    let ab = a + b;
    assert(ab.len() % 8 == 0);
    assert(ab.len() / 8 == a.len() / 8 + b.len() / 8);
    assert forall|k: int| 0 <= k < ab.len() / 8 implies bits_to_bytes(ab)[k] == (bits_to_bytes(a)
        + bits_to_bytes(b))[k] by {
        if k < a.len() / 8 {
            assert(8 * k + 8 <= a.len()) by (nonlinear_arith)
                requires
                    0 <= k < a.len() / 8 && a.len() % 8 == 0,
            ;
            assert(ab.subrange(8 * k, 8 * k + 8) =~= a.subrange(8 * k, 8 * k + 8));
        } else {
            let k2 = k - a.len() / 8;
            assert(8 * k == a.len() + 8 * k2 && 8 * k2 + 8 <= b.len()) by (nonlinear_arith)
                requires
                    a.len() / 8 <= k < a.len() / 8 + b.len() / 8 && a.len() % 8 == 0 && b.len() % 8
                        == 0 && k2 == k - a.len() / 8,
            ;
            assert(ab.subrange(8 * k, 8 * k + 8) =~= b.subrange(8 * k2, 8 * k2 + 8));
        }
    }
}

/// Parsing an encoded masked row from the front of a longer bit stream
/// yields the row and consumes exactly its bits.
proof fn lemma_masked_roundtrip(row: Seq<Rgba>, ext: Seq<bool>)
    requires
        forall|i: int| 0 <= i < row.len() ==> wf_pixel(ChannelFormat::MaskedRgb, #[trigger] row[i]),
        row.len() <= u16::MAX,
    ensures
        spec_parse_masked(masked_bits(row) + ext, row.len() as nat) == Some(
            (row, masked_bits(row).len() as int),
        ),
    decreases row.len(),
{
    let mb = masked_bits(row);
    let bits = mb + ext;
    if row.len() == 0 {
        assert(mb =~= Seq::<bool>::empty());
        assert(spec_parse_masked(bits, 0nat) == Some((Seq::<Rgba>::empty(), 0int)));
        assert(Seq::<Rgba>::empty() =~= row);
    } else {
        let p = row[0];
        let tail = row.skip(1);
        let mbt = masked_bits(tail);
        assert(mb =~= masked_pixel_bits(p) + mbt);
        if p.a == 0 {
            assert(p == masked_absent());
            assert(masked_pixel_bits(p) =~= seq![false]);
            assert(bits[0] == false);
            assert(bits.skip(1) =~= mbt + ext);
            lemma_masked_roundtrip(tail, ext);
            let parsed = spec_parse_masked(bits.skip(1), (row.len() - 1) as nat);
            assert(parsed == Some((tail, mbt.len() as int)));
            assert(seq![masked_absent()] + tail =~= row);
            assert(mb.len() == 1 + mbt.len());
        } else {
            assert(p.a == 255);
            let pb = masked_pixel_bits(p);
            assert(pb =~= seq![true] + bits_of_byte(p.r) + bits_of_byte(p.g) + bits_of_byte(p.b));
            assert(pb.len() == 25);
            assert(bits[0] == true);
            assert(bits.len() >= 25);
            assert(bits.subrange(1, 9) =~= bits_of_byte(p.r));
            assert(bits.subrange(9, 17) =~= bits_of_byte(p.g));
            assert(bits.subrange(17, 25) =~= bits_of_byte(p.b));
            lemma_byte_of_bits_of_byte(p.r);
            lemma_byte_of_bits_of_byte(p.g);
            lemma_byte_of_bits_of_byte(p.b);
            let q = Rgba {
                r: byte_of_bits(bits.subrange(1, 9)),
                g: byte_of_bits(bits.subrange(9, 17)),
                b: byte_of_bits(bits.subrange(17, 25)),
                a: 255,
            };
            assert(q == p);
            assert(bits.skip(25) =~= mbt + ext);
            lemma_masked_roundtrip(tail, ext);
            assert(spec_parse_masked(bits.skip(25), (row.len() - 1) as nat) == Some(
                (tail, mbt.len() as int),
            ));
            assert(seq![p] + tail =~= row);
            assert(mb.len() == 25 + mbt.len());
        }
    }
}

/// Parsing one encoded row from the front of a longer bit stream yields
/// the row and consumes exactly its unpadded bits.
proof fn lemma_row_roundtrip(f: ChannelFormat, row: Seq<Rgba>, ext: Seq<bool>)
    requires
        !is_byte_format(f),
        forall|i: int| 0 <= i < row.len() ==> wf_pixel(f, #[trigger] row[i]),
        row.len() <= u16::MAX,
    ensures
        spec_parse_row(f, row_bits(f, row) + ext, row.len() as u16) == Some(
            (row, row_bits(f, row).len() as int),
        ),
{
    let rb = row_bits(f, row);
    let bits = rb + ext;
    match f {
        ChannelFormat::Monochrome1 => {
            assert(rb.len() == row.len());
            let parsed = Seq::new(row.len(), |j: int| mono_pixel(bits[j]));
            assert forall|j: int| 0 <= j < row.len() implies parsed[j] == row[j] by {
                assert(bits[j] == rb[j]);
                assert(rb[j] == mono_bit(row[j]));
                assert(row[j] == mono_on() || row[j] == mono_off());
            }
            assert(parsed =~= row);
        },
        _ => {
            lemma_masked_roundtrip(row, ext);
        },
    }
}

/// Parsing an encoded plane from the front of a longer byte stream yields
/// the pixels back and consumes exactly the encoded bytes.
pub proof fn lemma_plane_roundtrip(f: ChannelFormat, w: u16, h: u16, px: Seq<Rgba>, ext: Seq<u8>)
    requires
        px.len() == w * h,
        forall|i: int| 0 <= i < px.len() ==> wf_pixel(f, #[trigger] px[i]),
    ensures
        spec_parse_plane(f, spec_encode_plane(f, w, h, px) + ext, w, h) == Some(
            (px, spec_encode_plane(f, w, h, px).len() as int),
        ),
{
    if is_byte_format(f) {
        lemma_byte_plane_roundtrip(f, w, h, px, ext);
    } else {
        lemma_bit_plane_roundtrip(f, w, px, h as nat, ext);
        assert(spec_encode_plane(f, w, h, px) == bits_to_bytes(plane_bits(f, w, px, h as nat)));
    }
}

proof fn lemma_byte_plane_roundtrip(f: ChannelFormat, w: u16, h: u16, px: Seq<Rgba>, ext: Seq<u8>)
    requires
        is_byte_format(f),
        px.len() == w * h,
        forall|i: int| 0 <= i < px.len() ==> wf_pixel(f, #[trigger] px[i]),
    ensures
        spec_parse_plane(f, spec_encode_plane(f, w, h, px) + ext, w, h) == Some(
            (px, spec_encode_plane(f, w, h, px).len() as int),
        ),
{
    let bpp = bytes_per_pixel(f);
    let n = w * h;
    let enc = spec_encode_plane(f, w, h, px);
    let bytes = enc + ext;
    assert(bpp >= 1);
    assert(enc.len() == n * bpp);
    assert(bytes.len() >= n * bpp);
    let parsed = Seq::new(n as nat, |i: int| pixel_of_bytes(f, bytes.subrange(i * bpp, i * bpp + bpp)));
    assert forall|i: int| 0 <= i < n implies parsed[i] == px[i] by {
        assert(0 <= i * bpp && i * bpp + bpp <= n * bpp) by (nonlinear_arith)
            requires
                0 <= i < n && bpp >= 1,
        ;
        let sub = bytes.subrange(i * bpp, i * bpp + bpp);
        assert forall|j: int| 0 <= j < bpp implies sub[j] == pixel_bytes(f, px[i])[j] by {
            let idx = i * bpp + j;
            assert(bytes[idx] == enc[idx]);
            assert(idx / bpp == i && idx % bpp == j) by (nonlinear_arith)
                requires
                    0 <= j < bpp && idx == i * bpp + j && bpp >= 1 && 0 <= i,
            ;
        }
        assert(sub =~= pixel_bytes(f, px[i]));
        assert(wf_pixel(f, px[i]));
        assert(pixel_of_bytes(f, pixel_bytes(f, px[i])) == px[i]);
    }
    assert(parsed =~= px);
}

#[verifier::spinoff_prover]
#[verifier::rlimit(100)]
proof fn lemma_bit_plane_roundtrip(f: ChannelFormat, w: u16, px: Seq<Rgba>, h: nat, ext: Seq<u8>)
    requires
        !is_byte_format(f),
        px.len() == w * h,
        h <= u16::MAX,
        forall|i: int| 0 <= i < px.len() ==> wf_pixel(f, #[trigger] px[i]),
    ensures
        spec_parse_bit_rows(f, bits_to_bytes(plane_bits(f, w, px, h)) + ext, w, h) == Some(
            (px, bits_to_bytes(plane_bits(f, w, px, h)).len() as int),
        ),
    decreases h,
{
    let pb = plane_bits(f, w, px, h);
    let enc = bits_to_bytes(pb);
    let bytes = enc + ext;
    lemma_plane_bits_aligned(f, w, px, h);
    if h == 0 {
        assert(w * h == 0) by (nonlinear_arith)
            requires
                h == 0,
        ;
        assert(pb =~= Seq::<bool>::empty());
        assert(enc =~= Seq::<u8>::empty());
        assert(px =~= Seq::<Rgba>::empty());
        assert(spec_parse_bit_rows(f, bytes, w, 0nat) == Some((Seq::<Rgba>::empty(), 0int)));
    } else {
        assert(w * 1 <= w * h && w * h - w == w * (h - 1)) by (nonlinear_arith)
            requires
                h >= 1,
        ;
        let row = px.take(w as int);
        let rest = px.skip(w as int);
        let rb = row_bits(f, row);
        let prb = pad8(rb);
        let pbrest = plane_bits(f, w, rest, (h - 1) as nat);
        assert(pb =~= prb + pbrest);
        lemma_pad8_aligned(rb);
        lemma_plane_bits_aligned(f, w, rest, (h - 1) as nat);
        lemma_bits_to_bytes_concat(prb, pbrest);
        let rowbytes = bits_to_bytes(prb);
        let restbytes = bits_to_bytes(pbrest);
        assert(enc =~= rowbytes + restbytes);
        assert(bytes =~= rowbytes + (restbytes + ext));
        // The bits of the whole buffer start with the padded row bits.
        lemma_bytes_to_bits_concat(rowbytes, restbytes + ext);
        lemma_bytes_bits_id(prb);
        let tailbits = bytes_to_bits(restbytes + ext);
        assert(bytes_to_bits(bytes) =~= prb + tailbits);
        assert(prb + tailbits =~= rb + (zero_bits(pad_len(rb.len() as int)) + tailbits));
        assert(forall|i: int| 0 <= i < row.len() ==> wf_pixel(f, #[trigger] row[i]));
        lemma_row_roundtrip(f, row, zero_bits(pad_len(rb.len() as int)) + tailbits);
        assert(row.len() == w);
        assert(spec_parse_row(f, bytes_to_bits(bytes), w) == Some((row, rb.len() as int)));
        // Bytes consumed by the row.
        let bu: int = (rb.len() as int + 7) / 8;
        lemma_ceil8(rb.len() as int);
        assert(rowbytes.len() == bu);
        assert(bytes.skip(bu) =~= restbytes + ext);
        lemma_bit_plane_roundtrip(f, w, rest, (h - 1) as nat, ext);
        assert(spec_parse_bit_rows(f, restbytes + ext, w, (h - 1) as nat) == Some(
            (rest, restbytes.len() as int),
        ));
        assert(row + rest =~= px);
        assert(enc.len() == bu + restbytes.len());
    }
}

} // verus!
