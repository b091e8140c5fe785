//! The terminal decode result: frames, positioned audio, metadata; and
//! the compressed-container entry points.

use vstd::prelude::*;

use crate::compress::{deflate_bytes, deflate_of, inflate_bytes, inflate_of};
use crate::error::DecodeError;
use crate::mmd::{assemble, build, spec_assemble, spec_build};
use crate::pixel::Rgba;
use crate::stream::{
    AudioSegment, Frame, FrameV, ItemV, MetaKey, StreamItem, items_view, wf_items,
};

verus! {

/// The metadata mapping: one optional value per key, last write wins.
pub struct Metadata {
    pub title: Option<Vec<u8>>,
    pub creation_date: Option<Vec<u8>>,
    pub artist: Option<Vec<u8>>,
    pub artist_url: Option<Vec<u8>>,
    pub publisher: Option<Vec<u8>>,
    pub publish_date: Option<Vec<u8>>,
    pub publisher_url: Option<Vec<u8>>,
    pub license: Option<Vec<u8>>,
}

impl Metadata {
    /// The value stored under `k`.
    pub open spec fn spec_get(&self, k: MetaKey) -> Option<Seq<u8>> {
        let field = match k {
            MetaKey::Title => &self.title,
            MetaKey::CreationDate => &self.creation_date,
            MetaKey::Artist => &self.artist,
            MetaKey::ArtistUrl => &self.artist_url,
            MetaKey::Publisher => &self.publisher,
            MetaKey::PublishDate => &self.publish_date,
            MetaKey::PublisherUrl => &self.publisher_url,
            MetaKey::License => &self.license,
        };
        match field {
            Some(v) => Some(v@),
            None => None,
        }
    }

    /// An empty mapping.
    pub fn new() -> (m: Metadata)
        ensures
            forall|k: MetaKey| m.spec_get(k) is None,
    {
        Metadata {
            title: None,
            creation_date: None,
            artist: None,
            artist_url: None,
            publisher: None,
            publish_date: None,
            publisher_url: None,
            license: None,
        }
    }

    /// Stores `v` under `k`, replacing any earlier value.
    pub fn set(&mut self, k: MetaKey, v: Vec<u8>)
        ensures
            final(self).spec_get(k) == Some(v@),
            forall|k2: MetaKey| k2 != k ==> final(self).spec_get(k2) == old(self).spec_get(k2),
    {
        match k {
            MetaKey::Title => self.title = Some(v),
            MetaKey::CreationDate => self.creation_date = Some(v),
            MetaKey::Artist => self.artist = Some(v),
            MetaKey::ArtistUrl => self.artist_url = Some(v),
            MetaKey::Publisher => self.publisher = Some(v),
            MetaKey::PublishDate => self.publish_date = Some(v),
            MetaKey::PublisherUrl => self.publisher_url = Some(v),
            MetaKey::License => self.license = Some(v),
        }
    }

    /// Looks the value of `k` up.
    pub fn get(&self, k: MetaKey) -> (r: Option<&Vec<u8>>)
        ensures
            match r {
                Some(v) => self.spec_get(k) == Some(v@),
                None => self.spec_get(k) is None,
            },
    {
        let field = match k {
            MetaKey::Title => &self.title,
            MetaKey::CreationDate => &self.creation_date,
            MetaKey::Artist => &self.artist,
            MetaKey::ArtistUrl => &self.artist_url,
            MetaKey::Publisher => &self.publisher,
            MetaKey::PublishDate => &self.publish_date,
            MetaKey::PublisherUrl => &self.publisher_url,
            MetaKey::License => &self.license,
        };
        match field {
            Some(v) => Some(v),
            None => None,
        }
    }
}

/// An audio segment and the frame position it was interleaved at: the
/// number of frames that preceded its chunk.
pub struct PositionedAudio {
    pub frame_index: usize,
    pub segment: AudioSegment,
}

/// The aggregate a decoded container yields. It owns its frames and
/// samples exclusively; nothing aliases the input buffer.
pub struct Container {
    pub frames: Vec<Frame>,
    pub audio: Vec<PositionedAudio>,
    pub metadata: Metadata,
}

/// The frames among a stream's items, in order.
pub open spec fn spec_frames(items: Seq<ItemV>) -> Seq<FrameV>
    decreases items.len(),
{
    if items.len() == 0 {
        Seq::empty()
    } else {
        spec_frames(items.drop_last()) + (match items.last() {
            ItemV::Image(f) => seq![f],
            _ => Seq::empty(),
        })
    }
}

/// The audio runs among a stream's items, each with the number of frames
/// before it.
pub open spec fn spec_audio(items: Seq<ItemV>) -> Seq<(int, Seq<u16>)>
    decreases items.len(),
{
    if items.len() == 0 {
        Seq::empty()
    } else {
        spec_audio(items.drop_last()) + (match items.last() {
            ItemV::Audio(s) => seq![(spec_frames(items.drop_last()).len() as int, s)],
            _ => Seq::empty(),
        })
    }
}

/// The last value written under `k`, if any.
pub open spec fn spec_meta(items: Seq<ItemV>, k: MetaKey) -> Option<Seq<u8>>
    decreases items.len(),
{
    if items.len() == 0 {
        None
    } else {
        match items.last() {
            ItemV::Meta(k2, v) => if k2 == k {
                Some(v)
            } else {
                spec_meta(items.drop_last(), k)
            },
            _ => spec_meta(items.drop_last(), k),
        }
    }
}

/// Whether a container holds exactly what a stream's items describe.
pub open spec fn is_collected(c: Container, items: Seq<ItemV>) -> bool {
    &&& c.frames@.map_values(|f: Frame| f@) =~= spec_frames(items)
    &&& c.audio@.map_values(|pa: PositionedAudio| (pa.frame_index as int, pa.segment.samples@))
        =~= spec_audio(items)
    &&& forall|k: MetaKey| c.metadata.spec_get(k) == spec_meta(items, k)
}

fn clone_pixels(v: &Vec<Rgba>) -> (r: Vec<Rgba>)
    ensures
        r@ =~= v@,
{
    let mut out: Vec<Rgba> = Vec::new();
    let n = v.len();
    for i in 0..n
        invariant
            n == v@.len(),
            out@ =~= v@.take(i as int),
    {
        out.push(v[i]);
        proof {
            assert(v@.take(i + 1) =~= v@.take(i as int).push(v@[i as int]));
        }
    }
    proof {
        assert(v@.take(n as int) =~= v@);
    }
    out
}

fn clone_bytes(v: &Vec<u8>) -> (r: Vec<u8>)
    ensures
        r@ =~= v@,
{
    let mut out: Vec<u8> = Vec::new();
    let n = v.len();
    for i in 0..n
        invariant
            n == v@.len(),
            out@ =~= v@.take(i as int),
    {
        out.push(v[i]);
        proof {
            assert(v@.take(i + 1) =~= v@.take(i as int).push(v@[i as int]));
        }
    }
    proof {
        assert(v@.take(n as int) =~= v@);
    }
    out
}

fn clone_samples(v: &Vec<u16>) -> (r: Vec<u16>)
    ensures
        r@ =~= v@,
{
    let mut out: Vec<u16> = Vec::new();
    let n = v.len();
    for i in 0..n
        invariant
            n == v@.len(),
            out@ =~= v@.take(i as int),
    {
        out.push(v[i]);
        proof {
            assert(v@.take(i + 1) =~= v@.take(i as int).push(v@[i as int]));
        }
    }
    proof {
        assert(v@.take(n as int) =~= v@);
    }
    out
}

/// Splits an ordered item sequence into the container aggregate: frames in
/// order, audio with its frame position, metadata with last write winning.
pub fn collect(items: &Vec<StreamItem>) -> (c: Container)
    ensures
        is_collected(c, items_view(items@)),
{
    let ghost iv = items_view(items@);
    let mut frames: Vec<Frame> = Vec::new();
    let mut audio: Vec<PositionedAudio> = Vec::new();
    let mut metadata = Metadata::new();
    let n = items.len();
    proof {
        assert(iv.take(0) =~= Seq::<ItemV>::empty());
        assert(frames@.map_values(|f: Frame| f@) =~= spec_frames(iv.take(0)));
        assert(audio@.map_values(|pa: PositionedAudio| (pa.frame_index as int, pa.segment.samples@))
            =~= spec_audio(iv.take(0)));
    }
    for i in 0..n
        invariant
            n == items@.len(),
            iv == items_view(items@),
            frames@.map_values(|f: Frame| f@) =~= spec_frames(iv.take(i as int)),
            audio@.map_values(
                |pa: PositionedAudio| (pa.frame_index as int, pa.segment.samples@),
            ) =~= spec_audio(iv.take(i as int)),
            forall|k: MetaKey| metadata.spec_get(k) == spec_meta(iv.take(i as int), k),
    {
        let ghost pre_frames = frames@;
        let ghost pre_audio = audio@;
        proof {
            assert(iv.take(i + 1).drop_last() =~= iv.take(i as int));
            assert(iv.take(i + 1).last() == iv[i as int]);
            assert(iv[i as int] == items@[i as int]@);
        }
        match &items[i] {
            StreamItem::Image(fr) => {
                let copy = Frame {
                    width: fr.width,
                    height: fr.height,
                    format: fr.format,
                    pixels: clone_pixels(&fr.pixels),
                };
                proof {
                    assert(copy@ == fr@);
                }
                frames.push(copy);
                proof {
                    assert(frames@.map_values(|f: Frame| f@) =~= pre_frames.map_values(
                        |f: Frame| f@,
                    ).push(fr@));
                }
            },
            StreamItem::Audio(a) => {
                let pos = frames.len();
                let seg = AudioSegment { samples: clone_samples(&a.samples) };
                audio.push(PositionedAudio { frame_index: pos, segment: seg });
                proof {
                    assert(audio@.map_values(
                        |pa: PositionedAudio| (pa.frame_index as int, pa.segment.samples@),
                    ) =~= pre_audio.map_values(
                        |pa: PositionedAudio| (pa.frame_index as int, pa.segment.samples@),
                    ).push((pos as int, a.samples@)));
                    assert(pos as int == spec_frames(iv.take(i as int)).len());
                }
            },
            StreamItem::Delay(_) => {
                // Timing markers shape playback; they add nothing to the
                // aggregate of frames, audio and metadata.
            },
            StreamItem::Meta(k, v) => {
                let copy = clone_bytes(v);
                metadata.set(*k, copy);
            },
        }
        proof {
            assert(frames@.map_values(|f: Frame| f@) =~= spec_frames(iv.take(i + 1)));
            assert(audio@.map_values(
                |pa: PositionedAudio| (pa.frame_index as int, pa.segment.samples@),
            ) =~= spec_audio(iv.take(i + 1)));
        }
    }
    proof {
        assert(iv.take(n as int) =~= iv);
    }
    Container { frames, audio, metadata }
}

/// Decodes a compressed MMD container into its ordered stream items.
pub fn decode_mmd_items(data: &[u8]) -> (r: Result<Vec<StreamItem>, DecodeError>)
    ensures
        match inflate_of(data@) {
            None => r == Err::<Vec<StreamItem>, DecodeError>(DecodeError::DecompressionFailure),
            Some(flat) => match spec_assemble(flat, None) {
                Ok(items) => r matches Ok(v) && items_view(v@) =~= items,
                Err(e) => r == Err::<Vec<StreamItem>, DecodeError>(e),
            },
        },
{
    let flat = match inflate_bytes(data) {
        Some(v) => v,
        None => {
            return Err(DecodeError::DecompressionFailure);
        },
    };
    assemble(flat.as_slice())
}

/// Decodes a compressed MMD container into the container aggregate.
pub fn decode_mmd(data: &[u8]) -> (r: Result<Container, DecodeError>)
    ensures
        match inflate_of(data@) {
            None => r == Err::<Container, DecodeError>(DecodeError::DecompressionFailure),
            Some(flat) => match spec_assemble(flat, None) {
                Ok(items) => r matches Ok(c) && is_collected(c, items),
                Err(e) => r == Err::<Container, DecodeError>(e),
            },
        },
{
    let items = match decode_mmd_items(data) {
        Ok(v) => v,
        Err(e) => {
            return Err(e);
        },
    };
    let c = collect(&items);
    Ok(c)
}

/// Encodes stream items as a compressed MMD container.
pub fn encode_mmd(items: &Vec<StreamItem>) -> (r: Vec<u8>)
    requires
        wf_items(items_view(items@)),
    ensures
        r@ == deflate_of(spec_build(items_view(items@), None)),
        inflate_of(r@) == Some(spec_build(items_view(items@), None)),
{
    let flat = build(items);
    deflate_bytes(flat.as_slice())
}

} // verus!
