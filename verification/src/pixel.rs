//! The canonical pixel sample and the five on-disk pixel encodings.

use vstd::prelude::*;

use crate::bits::{bits_of_byte};

verus! {

/// One canonical pixel: four 8-bit channels.
#[derive(Clone, Copy, Debug, PartialEq, Eq, Structural)]
pub struct Rgba {
    pub r: u8,
    pub g: u8,
    pub b: u8,
    pub a: u8,
}

/// How one pixel is stored on disk.
#[derive(Clone, Copy, Debug, PartialEq, Eq, Structural)]
pub enum ChannelFormat {
    /// One byte per pixel; the byte is the value of all three color channels.
    Grayscale8,
    /// One bit per pixel, on or off, packed most-significant-bit-first with
    /// each row padded to a byte boundary.
    Monochrome1,
    /// Three bytes per pixel: red, green, blue; alpha is implicitly opaque.
    Rgb24,
    /// Four bytes per pixel, stored verbatim.
    Rgba32,
    /// One presence bit per pixel; a set bit is followed by three color
    /// bytes inside the same bit stream, a clear bit by nothing.
    MaskedRgb,
}

pub open spec fn gray_pixel(g: u8) -> Rgba {
    Rgba { r: g, g: g, b: g, a: 255 }
}

pub open spec fn rgb_pixel(r: u8, g: u8, b: u8) -> Rgba {
    Rgba { r, g, b, a: 255 }
}

/// The pixel an "on" monochrome bit decodes to: opaque white.
pub open spec fn mono_on() -> Rgba {
    Rgba { r: 255, g: 255, b: 255, a: 255 }
}

/// The pixel an "off" monochrome bit decodes to: opaque black.
pub open spec fn mono_off() -> Rgba {
    Rgba { r: 0, g: 0, b: 0, a: 255 }
}

/// The pixel an absent masked sample decodes to: fully transparent black.
pub open spec fn masked_absent() -> Rgba {
    Rgba { r: 0, g: 0, b: 0, a: 0 }
}

/// Whether `p` is representable in `f`, i.e. can have been decoded from it
/// and survives re-encoding unchanged.
pub open spec fn wf_pixel(f: ChannelFormat, p: Rgba) -> bool {
    match f {
        ChannelFormat::Grayscale8 => p.g == p.r && p.b == p.r && p.a == 255,
        ChannelFormat::Monochrome1 => p == mono_on() || p == mono_off(),
        ChannelFormat::Rgb24 => p.a == 255,
        ChannelFormat::Rgba32 => true,
        ChannelFormat::MaskedRgb => if p.a == 0 {
            p == masked_absent()
        } else {
            p.a == 255
        },
    }
}

/// Whether `f` stores pixels as whole bytes (as opposed to a bit stream).
pub open spec fn is_byte_format(f: ChannelFormat) -> bool {
    match f {
        ChannelFormat::Grayscale8 | ChannelFormat::Rgb24 | ChannelFormat::Rgba32 => true,
        ChannelFormat::Monochrome1 | ChannelFormat::MaskedRgb => false,
    }
}

/// Bytes per pixel of a byte-oriented format.
pub open spec fn bytes_per_pixel(f: ChannelFormat) -> int {
    match f {
        ChannelFormat::Grayscale8 => 1,
        ChannelFormat::Rgb24 => 3,
        ChannelFormat::Rgba32 => 4,
        _ => 0,
    }
}

/// The on-disk bytes of one pixel of a byte-oriented format.
pub open spec fn pixel_bytes(f: ChannelFormat, p: Rgba) -> Seq<u8>
    recommends
        is_byte_format(f),
{
    match f {
        ChannelFormat::Grayscale8 => seq![p.r],
        ChannelFormat::Rgb24 => seq![p.r, p.g, p.b],
        ChannelFormat::Rgba32 => seq![p.r, p.g, p.b, p.a],
        _ => seq![],
    }
}

/// The pixel decoded from the on-disk bytes of a byte-oriented format.
pub open spec fn pixel_of_bytes(f: ChannelFormat, s: Seq<u8>) -> Rgba
    recommends
        is_byte_format(f),
        s.len() == bytes_per_pixel(f),
{
    match f {
        ChannelFormat::Grayscale8 => gray_pixel(s[0]),
        ChannelFormat::Rgb24 => rgb_pixel(s[0], s[1], s[2]),
        ChannelFormat::Rgba32 => Rgba { r: s[0], g: s[1], b: s[2], a: s[3] },
        _ => masked_absent(),
    }
}

/// The monochrome bit a pixel encodes to: on exactly for opaque white.
pub open spec fn mono_bit(p: Rgba) -> bool {
    p.r != 0
}

/// The pixel a monochrome bit decodes to.
pub open spec fn mono_pixel(b: bool) -> Rgba {
    if b {
        mono_on()
    } else {
        mono_off()
    }
}

/// The bits one masked pixel encodes to: a clear presence bit for an absent
/// pixel (alpha zero), else a set presence bit and the three color bytes.
pub open spec fn masked_pixel_bits(p: Rgba) -> Seq<bool> {
    if p.a == 0 {
        seq![false]
    } else {
        seq![true] + bits_of_byte(p.r) + bits_of_byte(p.g) + bits_of_byte(p.b)
    }
}

} // verus!
