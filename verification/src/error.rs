//! Error kinds shared by the PPM and MMD decoders.

use vstd::prelude::*;

verus! {

/// Why a decode call failed. Decoding is all-or-nothing: no partial result
/// is ever returned together with one of these.
#[derive(Clone, Copy, Debug, PartialEq, Eq, Structural)]
pub enum DecodeError {
    /// The buffer does not start with the expected magic bytes.
    IncorrectFormat,
    /// A non-digit byte appeared inside a decimal field, or the value does
    /// not fit in 16 bits.
    MalformedDimension,
    /// The max-sample-value field of a PPM header is not 255.
    UnsupportedMaxValue,
    /// An illegal chunk tag, or an inherit/audio/delay/metadata tag before
    /// any image-establishing chunk.
    UnknownOrMisplacedChunk,
    /// A chunk or header declares more payload bytes than remain.
    TruncatedStream,
    /// The compressed container could not be decompressed.
    DecompressionFailure,
    /// An audio chunk with a sample count of zero.
    InvalidAudioLength,
}

} // verus!
