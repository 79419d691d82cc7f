//! The compressed encodings, decoded and encoded in memory by the `zstd` and
//! `flate2` crates.
//!
//! What a decoder or an encoder returns is a function of the bytes it is
//! given. Those results are named here, and the contracts of the engine speak
//! of them by these names.

use std::io::Read;
use std::io::Write;
use vstd::prelude::*;
use vstd::slice::slice_to_vec;
use vstd::utf8::valid_utf8;
use crate::names::Codec;

verus! {

/// What the Zstandard decoder yields for `data`: the bytes it produced before
/// it stopped, and whether it stopped at the clean end of the last frame.
pub uninterp spec fn zstd_decoded(data: Seq<u8>) -> (Seq<u8>, bool);

/// What the multi-member gzip decoder yields for `data`: the bytes it
/// produced before it stopped, and whether it stopped at the clean end of the
/// input.
pub uninterp spec fn gzip_decoded(data: Seq<u8>) -> (Seq<u8>, bool);

/// The Zstandard frame that holds `payload`, compressed at `level`, or `None`
/// where the encoder fails.
pub uninterp spec fn zstd_encoded(payload: Seq<u8>, level: i32) -> Option<Seq<u8>>;

/// The gzip member that holds `payload`, compressed at the default level, or
/// `None` where the encoder fails.
pub uninterp spec fn gzip_encoded(payload: Seq<u8>) -> Option<Seq<u8>>;

/// A frame holds a payload when the Zstandard decoder yields exactly the
/// payload for it: for the frame alone, and, after what came before it, for
/// the frame at the end of any stream that the decoder reads to a clean
/// end.
pub open spec fn frame_holds(frame: Seq<u8>, payload: Seq<u8>) -> bool {
    &&& zstd_decoded(frame) == (payload, true)
    &&& forall|head: Seq<u8>|
        zstd_decoded(head).1 ==> #[trigger] zstd_decoded(head + frame) == (
            zstd_decoded(head).0 + payload,
            true,
        )
}

/// A gzip member holds a payload when the gzip decoder yields exactly the
/// payload for it, and reads it to a clean end.
pub open spec fn member_holds(member: Seq<u8>, payload: Seq<u8>) -> bool {
    gzip_decoded(member) == (payload, true)
}

/// The member that the gzip encoder returns for `payload`, where it
/// returns one, holds the payload.
pub open spec fn member_faithful(payload: Seq<u8>) -> bool {
    gzip_encoded(payload) matches Some(member) ==> member_holds(member, payload)
}

/// The compression level of every Zstandard frame that is written.
pub const ZSTD_LEVEL: i32 = 3;

/// The frame that the encoder returns for `payload`, where it returns one,
/// holds the payload.
pub open spec fn faithful(payload: Seq<u8>) -> bool {
    zstd_encoded(payload, ZSTD_LEVEL) matches Some(frame) ==> frame_holds(frame, payload)
}

/// What decoding `data` with `codec` yields: the decoded bytes up to the
/// first failure, and whether the whole of `data` was decoded.
pub open spec fn decoded(codec: Codec, data: Seq<u8>) -> (Seq<u8>, bool) {
    match codec {
        Codec::Zstd => zstd_decoded(data),
        Codec::Gzip => gzip_decoded(data),
        Codec::Plain => (data, true),
    }
}

/// Runs `zstd::stream::read::Decoder` over `data` and drains it with
/// `read_to_end`, which keeps the bytes read before an error. Trusted: the
/// bytes and the success flag are those named by `zstd_decoded`.
#[verifier::external_body]
pub(crate) fn zstd_decode(data: &[u8]) -> (out: (Vec<u8>, bool))
    ensures
        (out.0@, out.1) == zstd_decoded(data@),
{
    let mut bytes = Vec::new();
    let clean = match zstd::stream::read::Decoder::new(data) {
        Ok(mut decoder) => decoder.read_to_end(&mut bytes).is_ok(),
        Err(_) => false,
    };
    (bytes, clean)
}

/// Runs `flate2::read::MultiGzDecoder` over `data` and drains it with
/// `read_to_end`, which keeps the bytes read before an error. Trusted: the
/// bytes and the success flag are those named by `gzip_decoded`.
#[verifier::external_body]
pub(crate) fn gzip_decode(data: &[u8]) -> (out: (Vec<u8>, bool))
    ensures
        (out.0@, out.1) == gzip_decoded(data@),
{
    let mut bytes = Vec::new();
    let clean = flate2::read::MultiGzDecoder::new(data).read_to_end(&mut bytes).is_ok();
    (bytes, clean)
}

/// Calls `zstd::stream::encode_all`, which compresses `payload` into one
/// frame. Trusted: the frame, or the failure, is that named by
/// `zstd_encoded`; and the frame holds the payload, since compression is
/// lossless and the decoder concatenates the frames of its input.
#[verifier::external_body]
pub(crate) fn zstd_encode(payload: &[u8], level: i32) -> (frame: Option<Vec<u8>>)
    ensures
        match frame {
            Some(bytes) => zstd_encoded(payload@, level) == Some(bytes@) && frame_holds(
                bytes@,
                payload@,
            ),
            None => zstd_encoded(payload@, level) is None,
        },
{
    zstd::stream::encode_all(payload, level).ok()
}

/// Writes `payload` to a `flate2::write::GzEncoder` at
/// `flate2::Compression::default()` and finishes it. Trusted: the member, or
/// the failure, is that named by `gzip_encoded`; and the member holds the
/// payload, since compression is lossless and the decoder reads a gzip file
/// of one member to its end.
#[verifier::external_body]
pub(crate) fn gzip_encode(payload: &[u8]) -> (member: Option<Vec<u8>>)
    ensures
        match member {
            Some(bytes) => gzip_encoded(payload@) == Some(bytes@) && member_holds(
                bytes@,
                payload@,
            ),
            None => gzip_encoded(payload@) is None,
        },
{
    let mut encoder = flate2::write::GzEncoder::new(Vec::new(), flate2::Compression::default());
    match encoder.write_all(payload) {
        Ok(()) => encoder.finish().ok(),
        Err(_) => None,
    }
}

/// Calls `std::str::from_utf8`. Trusted: it accepts exactly the byte
/// sequences that are valid UTF-8.
#[verifier::external_body]
pub(crate) fn is_utf8(bytes: &[u8]) -> (ok: bool)
    ensures
        ok == valid_utf8(bytes@),
{
    std::str::from_utf8(bytes).is_ok()
}

/// The bytes of a stream, as far as they could be decoded.
pub struct Decoded {
    /// The decoded bytes up to the first failure.
    pub bytes: Vec<u8>,
    /// Whether the whole stream was decoded.
    pub clean: bool,
}

/// Decodes `data` with `codec`. Plain text is handed through unchanged.
pub fn decode(codec: Codec, data: &[u8]) -> (out: Decoded)
    ensures
        (out.bytes@, out.clean) == decoded(codec, data@),
{
    match codec {
        Codec::Zstd => {
            let (bytes, clean) = zstd_decode(data);
            Decoded { bytes, clean }
        },
        Codec::Gzip => {
            let (bytes, clean) = gzip_decode(data);
            Decoded { bytes, clean }
        },
        Codec::Plain => Decoded { bytes: slice_to_vec(data), clean: true },
    }
}

} // verus!
