//! The compression adapter: DEFLATE as an opaque byte-stream transform.

use vstd::prelude::*;

verus! {

/// The DEFLATE compression of a byte sequence, as computed by the
/// `deflate` crate at its default settings. The result depends on the
/// input alone; its exact bytes are not modelled.
pub uninterp spec fn deflate_of(s: Seq<u8>) -> Seq<u8>;

/// What DEFLATE decompression yields on a byte sequence: `None` when the
/// input is not a valid DEFLATE stream. The result depends on the input
/// alone; its exact value is not modelled.
pub uninterp spec fn inflate_of(s: Seq<u8>) -> Option<Seq<u8>>;

/// Relies on `deflate::deflate_bytes`: compresses `data` as a raw DEFLATE
/// stream. DEFLATE is lossless, so decompressing the result yields `data`
/// again; `inflate::inflate_bytes` is the matching decompressor.
#[verifier::external_body]
pub fn deflate_bytes(data: &[u8]) -> (r: Vec<u8>)
    ensures
        r@ == deflate_of(data@),
        inflate_of(r@) == Some(data@),
{
    deflate::deflate_bytes(data)
}

/// Relies on `inflate::inflate_bytes`: decompresses a raw DEFLATE stream,
/// failing on input that is not one.
#[verifier::external_body]
pub fn inflate_bytes(data: &[u8]) -> (r: Option<Vec<u8>>)
    ensures
        match inflate_of(data@) {
            Some(s) => r matches Some(v) && v@ == s,
            None => r is None,
        },
{
    match inflate::inflate_bytes(data) {
        Ok(v) => Some(v),
        Err(_) => None,
    }
}

} // verus!
