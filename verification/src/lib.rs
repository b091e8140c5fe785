//! Codec for PPM images and the MMD multi-chunk container format.
//!
//! The library decodes and encodes raster pixel data in two wire formats:
//! the legacy text-headed binary PPM format, and the chunk-based MMD
//! container, which carries animated frames, 16-bit PCM audio and metadata
//! inside one DEFLATE-compressed byte stream.

pub mod bits;
pub mod compress;
pub mod container;
pub mod error;
pub mod mmd;
pub mod pixel;
pub mod plane;
pub mod ppm;
pub mod stream;

pub use error::DecodeError;
pub use pixel::{ChannelFormat, Rgba};
pub use ppm::{PpmHeader, decode, encode_ppm, parse_header};
pub use stream::{AudioSegment, Frame, MetaKey, StreamItem};
