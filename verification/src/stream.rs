//! The in-memory model of a decoded stream: frames, audio, metadata.

use vstd::prelude::*;

use crate::pixel::{ChannelFormat, Rgba, wf_pixel};

verus! {

/// An immutable pixel buffer of `width * height` canonical samples,
/// row-major, tagged with the format it was decoded from.
#[derive(Clone, Debug, PartialEq, Eq)]
pub struct Frame {
    pub width: u16,
    pub height: u16,
    pub format: ChannelFormat,
    pub pixels: Vec<Rgba>,
}

/// Spec-level value of a [`Frame`].
pub ghost struct FrameV {
    pub width: u16,
    pub height: u16,
    pub format: ChannelFormat,
    pub pixels: Seq<Rgba>,
}

impl View for Frame {
    type V = FrameV;

    open spec fn view(&self) -> FrameV {
        FrameV {
            width: self.width,
            height: self.height,
            format: self.format,
            pixels: self.pixels@,
        }
    }
}

/// A frame is well formed when it holds one pixel per coordinate and each
/// pixel is representable in the frame's format.
pub open spec fn wf_frame(f: FrameV) -> bool {
    f.pixels.len() == f.width * f.height && forall|i: int|
        0 <= i < f.pixels.len() ==> wf_pixel(f.format, #[trigger] f.pixels[i])
}

impl Frame {
    pub open spec fn wf(&self) -> bool {
        wf_frame(self@)
    }
}

/// A run of 16-bit PCM samples at the fixed 48000 Hz rate. The sample words
/// are kept as the unsigned little-endian values found on the wire.
#[derive(Clone, Debug, PartialEq, Eq)]
pub struct AudioSegment {
    pub samples: Vec<u16>,
}

/// An audio segment carries at least one sample and its count fits the
/// 32-bit length field.
pub open spec fn wf_audio(samples: Seq<u16>) -> bool {
    1 <= samples.len() <= u32::MAX
}

/// The fixed set of metadata keys.
#[derive(Clone, Copy, Debug, PartialEq, Eq, Structural)]
pub enum MetaKey {
    Title,
    CreationDate,
    Artist,
    ArtistUrl,
    Publisher,
    PublishDate,
    PublisherUrl,
    License,
}

/// One element of the wire stream, in chunk order.
#[derive(Clone, Debug, PartialEq, Eq)]
pub enum StreamItem {
    /// An image chunk: either size-establishing or inheriting.
    Image(Frame),
    /// An audio chunk.
    Audio(AudioSegment),
    /// A video timing marker; the value 0 means "restart the animation".
    Delay(u32),
    /// A metadata entry; the value is the raw UTF-8 bytes.
    Meta(MetaKey, Vec<u8>),
}

/// Spec-level value of a [`StreamItem`].
pub ghost enum ItemV {
    Image(FrameV),
    Audio(Seq<u16>),
    Delay(u32),
    Meta(MetaKey, Seq<u8>),
}

impl View for StreamItem {
    type V = ItemV;

    open spec fn view(&self) -> ItemV {
        match self {
            StreamItem::Image(f) => ItemV::Image(f@),
            StreamItem::Audio(a) => ItemV::Audio(a.samples@),
            StreamItem::Delay(d) => ItemV::Delay(*d),
            StreamItem::Meta(k, v) => ItemV::Meta(*k, v@),
        }
    }
}

/// The views of a sequence of items.
pub open spec fn items_view(items: Seq<StreamItem>) -> Seq<ItemV> {
    items.map_values(|it: StreamItem| it@)
}

/// Whether an item may be written to a stream: frames well formed, audio
/// non-empty, lengths within their 32-bit fields.
pub open spec fn wf_item(it: ItemV) -> bool {
    match it {
        ItemV::Image(f) => wf_frame(f),
        ItemV::Audio(s) => wf_audio(s),
        ItemV::Delay(_) => true,
        ItemV::Meta(_, v) => v.len() <= u32::MAX,
    }
}

/// Whether a whole item sequence forms a valid stream: every item is well
/// formed and the first chunk, if any, establishes an image.
pub open spec fn wf_items(items: Seq<ItemV>) -> bool {
    (forall|i: int| 0 <= i < items.len() ==> wf_item(#[trigger] items[i])) && (items.len() > 0
        ==> items[0] is Image)
}

} // verus!
