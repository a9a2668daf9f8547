//! Transparent decompression with format fallback: zstandard first, gzip
//! second.

use crate::error::ProgramError;
use vstd::prelude::*;

verus! {

/// What zstandard decoding yields on the given bytes: the decompressed
/// payload, or `None` when the bytes are not a valid zstandard stream.
pub uninterp spec fn zstd_decoded(b: Seq<u8>) -> Option<Seq<u8>>;

/// What multi-member gzip decoding yields on the given bytes: the
/// concatenated decompressed payload, or `None` when the bytes are not a
/// valid gzip stream.
pub uninterp spec fn gzip_decoded(b: Seq<u8>) -> Option<Seq<u8>>;

/// Attempts zstandard decoding.
///
/// Relies on `zstd::stream::decode_all`, which decompresses a complete
/// zstandard stream and fails on any other input; the result depends on the
/// bytes alone.
#[verifier::external_body]
fn try_zstd(raw: &[u8]) -> (r: Option<Vec<u8>>)
    ensures
        match r {
            Some(v) => zstd_decoded(raw@) == Some(v@),
            None => zstd_decoded(raw@) is None,
        },
{
    zstd::stream::decode_all(std::io::Cursor::new(raw)).ok()
}

/// Attempts multi-member gzip decoding.
///
/// Relies on `flate2::read::MultiGzDecoder`, which decodes a gzip stream of
/// one or more members when read to its end and fails on any other input;
/// the result depends on the bytes alone.
#[verifier::external_body]
fn try_gzip(raw: &[u8]) -> (r: Option<Vec<u8>>)
    ensures
        match r {
            Some(v) => gzip_decoded(raw@) == Some(v@),
            None => gzip_decoded(raw@) is None,
        },
{
    let mut dec = flate2::read::MultiGzDecoder::new(raw);
    let mut out: Vec<u8> = Vec::new();
    match std::io::Read::read_to_end(&mut dec, &mut out) {
        Ok(_) => Some(out),
        Err(_) => None,
    }
}

/// The bytes the two-step decompression yields: the zstandard decoding when
/// the input is a zstandard stream, otherwise the gzip decoding, otherwise
/// nothing.
pub open spec fn spec_decompress(raw: Seq<u8>) -> Option<Seq<u8>> {
    if zstd_decoded(raw) is Some {
        zstd_decoded(raw)
    } else {
        gzip_decoded(raw)
    }
}

/// Decompresses a database file's raw bytes, trying zstandard first and
/// falling back to gzip on any zstandard failure. Only when both attempts
/// fail is the input rejected, and then with `DecodeError`.
pub fn decompress(raw: &[u8]) -> (r: Result<Vec<u8>, ProgramError>)
    ensures
        match r {
            Ok(v) => spec_decompress(raw@) == Some(v@),
            Err(e) => e == ProgramError::DecodeError && spec_decompress(raw@) is None,
        },
{
    match try_zstd(raw) {
        Some(v) => Ok(v),
        None => match try_gzip(raw) {
            Some(v) => Ok(v),
            None => Err(ProgramError::DecodeError),
        },
    }
}

} // verus!
