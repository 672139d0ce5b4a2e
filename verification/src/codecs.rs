//! The compression codecs and the text decoding that the assembler takes
//! from outside crates: LZ4 HC for the kernel package, gzip and zstd for
//! compressed kernel inputs, and lossy UTF-8 for header strings.

use vstd::prelude::*;
use vstd::utf8::{decode_utf8, valid_utf8};

use crate::lz4::spec_decompress_lz4_block;

use std::io::Read;

verus! {

#[verifier::external_type_specification]
#[verifier::external_body]
pub struct ExIoError(std::io::Error);

/// The raw LZ4 block that `lzzzz` produces for `data` at its highest HC
/// level, or `None` when it reports a failure.
pub uninterp spec fn spec_lz4_hc_compress(data: Seq<u8>) -> Option<Seq<u8>>;

/// What a gzip decoder reads to the end of `data`, or `None` on an error.
pub uninterp spec fn spec_gzip_decode(data: Seq<u8>) -> Option<Seq<u8>>;

/// What zstd decodes from the frames in `data`, or `None` on an error.
pub uninterp spec fn spec_zstd_decode(data: Seq<u8>) -> Option<Seq<u8>>;

/// The text that lossy UTF-8 decoding makes of `bytes`.
pub uninterp spec fn spec_utf8_lossy(bytes: Seq<u8>) -> Seq<char>;

/// The largest input that LZ4 block compression accepts.
pub const LZ4_MAX_INPUT_SIZE: usize = 0x7E00_0000;

/// Compresses `data` into one raw LZ4 block with
/// `lzzzz::lz4_hc::compress_to_vec` at `CLEVEL_MAX`.
///
/// Trusted: the result is the named compression of `data`; an empty input
/// gives an empty block (the crate returns before compressing); an input
/// of at most `LZ4_MAX_INPUT_SIZE` bytes is compressed, since the crate
/// first reserves `LZ4_compressBound` bytes and liblz4 guarantees success
/// with that much room; and a block it returns for a non-empty input
/// decodes, as an LZ4 block, back to exactly `data`, as the crate's
/// documentation shows by decompressing its output.
#[verifier::external_body]
pub(crate) fn lz4_hc_compress(data: &[u8]) -> (compressed: Option<Vec<u8>>)
    ensures
        match compressed {
            Some(block) => spec_lz4_hc_compress(data@) == Some(block@),
            None => spec_lz4_hc_compress(data@) is None,
        },
        data@.len() == 0 ==> compressed is Some && compressed.unwrap()@.len() == 0,
        data@.len() <= LZ4_MAX_INPUT_SIZE ==> compressed is Some,
        data@.len() > 0 ==> (compressed matches Some(block) ==> spec_decompress_lz4_block(
            block@,
            data@.len() as int,
        ) == Some(data@)),
{
    let mut out = Vec::new();
    match lzzzz::lz4_hc::compress_to_vec(data, &mut out, lzzzz::lz4_hc::CLEVEL_MAX) {
        Ok(_) => Some(out),
        Err(_) => None,
    }
}

/// Reads a gzip stream to its end with `flate2::read::GzDecoder`.
///
/// Trusted: `Ok` holds the named decoding of `data` and `Err` comes exactly
/// when that decoding fails; which `io::Error` is returned is not stated.
#[verifier::external_body]
pub(crate) fn gzip_decode(data: &[u8]) -> (decoded: Result<Vec<u8>, std::io::Error>)
    ensures
        match decoded {
            Ok(out) => spec_gzip_decode(data@) == Some(out@),
            Err(_) => spec_gzip_decode(data@) is None,
        },
{
    let mut out = Vec::new();
    match flate2::read::GzDecoder::new(data).read_to_end(&mut out) {
        Ok(_) => Ok(out),
        Err(err) => Err(err),
    }
}

/// Decodes zstd frames with `zstd::stream::decode_all`.
///
/// Trusted: `Ok` holds the named decoding of `data` and `Err` comes exactly
/// when that decoding fails; which `io::Error` is returned is not stated.
#[verifier::external_body]
pub(crate) fn zstd_decode(data: &[u8]) -> (decoded: Result<Vec<u8>, std::io::Error>)
    ensures
        match decoded {
            Ok(out) => spec_zstd_decode(data@) == Some(out@),
            Err(_) => spec_zstd_decode(data@) is None,
        },
{
    zstd::stream::decode_all(data)
}

/// `String::from_utf8_lossy(bytes).into_owned()`.
///
/// Trusted: the result is the named lossy decoding of `bytes`, which is the
/// plain UTF-8 decoding when `bytes` is valid UTF-8, as std documents.
#[verifier::external_body]
pub(crate) fn utf8_lossy(bytes: &[u8]) -> (text: String)
    ensures
        text@ == spec_utf8_lossy(bytes@),
        valid_utf8(bytes@) ==> text@ == decode_utf8(bytes@),
{
    String::from_utf8_lossy(bytes).into_owned()
}

} // verus!
