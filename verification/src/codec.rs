//! Calls into the hashing, compression and base64 crates.

use vstd::prelude::*;
use vstd::utf8::{encode_utf8, valid_utf8};
use std::io::Write;
use base64::Engine;
use substring::Substring;

verus! {

/// Lower-case hex digits of the SHA-256 digest of the UTF-8 bytes of `input`.
pub uninterp spec fn sha256_hex(input: Seq<char>) -> Seq<char>;

/// `c` is a lower-case hexadecimal digit.
pub open spec fn is_lower_hex(c: char) -> bool {
    ('0' <= c <= '9') || ('a' <= c <= 'f')
}

/// Calls `sha256::digest` on the string. Trusted: the result is the digest
/// of the string's bytes, hex-encoded by the `hex` crate, hence 64 lower-case
/// hex digits; which digits they are is left to the name `sha256_hex`.
#[verifier::external_body]
pub(crate) fn sha256_digest(input: &str) -> (r: String)
    ensures
        r@ == sha256_hex(input@),
        r@.len() == 64,
        forall|i: int| 0 <= i < 64 ==> is_lower_hex(#[trigger] r@[i]),
{
    sha256::digest(input)
}

/// The characters of `s` from index `start` up to, not including, `end`,
/// both clamped to the length; empty when `end <= start`.
pub open spec fn substring_spec(s: Seq<char>, start: int, end: int) -> Seq<char> {
    if end <= start {
        Seq::empty()
    } else {
        let a = if start < s.len() { start } else { s.len() as int };
        let b = if end < s.len() { end } else { s.len() as int };
        s.subrange(a, b)
    }
}

/// Calls `Substring::substring` of the `substring` crate. Trusted: it slices
/// the string between the byte offsets of characters `start` and `end`,
/// each replaced by the string's end when past it, and is empty when
/// `end <= start`.
#[verifier::external_body]
pub(crate) fn substring_of(s: &str, start: usize, end: usize) -> (r: String)
    ensures
        r@ == substring_spec(s@, start as int, end as int),
{
    s.substring(start, end).to_string()
}

/// What the URL-safe base64 engine of `base64`, with the default (padded,
/// canonical) configuration, decodes from the bytes of `s`; `None` on error.
pub uninterp spec fn base64_url_decoded(s: Seq<char>) -> Option<Seq<u8>>;

/// Calls `Engine::decode` of `base64` with the URL-safe alphabet and the
/// default configuration. Trusted: the result, or the error, is a function
/// of the input named `base64_url_decoded`.
#[verifier::external_body]
pub(crate) fn base64_url_decode(s: &str) -> (r: Option<Vec<u8>>)
    ensures
        match r {
            Some(v) => base64_url_decoded(s@) == Some(v@),
            None => base64_url_decoded(s@) is None,
        },
{
    let engine = base64::engine::GeneralPurpose::new(&base64::alphabet::URL_SAFE, Default::default());
    match engine.decode(s) {
        Ok(bytes) => Some(bytes),
        Err(_) => None,
    }
}

/// What the URL-safe padded base64 engine of `base64` encodes `b` to.
pub uninterp spec fn base64_url_encoded(b: Seq<u8>) -> Seq<char>;

/// Calls `Engine::encode` of `base64::engine::general_purpose::URL_SAFE`.
/// Trusted: the result is a function of the input named `base64_url_encoded`,
/// and the URL-safe engine with the default (padded, canonical)
/// configuration, which `base64_url_decode` uses, decodes it back to the
/// input, as the crate documents for an engine and its own output.
#[verifier::external_body]
pub(crate) fn base64_url_encode(b: &[u8]) -> (r: String)
    ensures
        r@ == base64_url_encoded(b@),
        base64_url_decoded(r@) == Some(b@),
{
    base64::engine::general_purpose::URL_SAFE.encode(b)
}

/// What a `flate2` zlib decoder writing into a vector produces from `b`;
/// `None` where writing or finishing fails.
pub uninterp spec fn zlib_inflated(b: Seq<u8>) -> Option<Seq<u8>>;

/// Feeds `bytes` to `flate2::write::ZlibDecoder::new(Vec::new())` with
/// `write_all` and calls `finish`. Trusted: the result, or the failure, is a
/// function of the input named `zlib_inflated`.
#[verifier::external_body]
pub(crate) fn zlib_decompress(bytes: &[u8]) -> (r: Option<Vec<u8>>)
    ensures
        match r {
            Some(v) => zlib_inflated(bytes@) == Some(v@),
            None => zlib_inflated(bytes@) is None,
        },
{
    let mut z = flate2::write::ZlibDecoder::new(Vec::new());
    if z.write_all(bytes).is_err() {
        return None;
    }
    z.finish().ok()
}

/// What a `flate2` zlib encoder at the default level, writing into a
/// vector, produces from `b`; `None` where writing or finishing fails.
pub uninterp spec fn zlib_deflated(b: Seq<u8>) -> Option<Seq<u8>>;

/// Feeds the bytes of `input` to `flate2::write::ZlibEncoder::new(Vec::new(),
/// Compression::default())` with `write_all` and calls `finish`. Trusted: the
/// result, or the failure, is a function of the input named `zlib_deflated`,
/// and a zlib stream that the encoder finished inflates back to the bytes it
/// was fed.
#[verifier::external_body]
pub(crate) fn zlib_compress(input: &str) -> (r: Option<Vec<u8>>)
    ensures
        match r {
            Some(v) => zlib_deflated(encode_utf8(input@)) == Some(v@) && zlib_inflated(v@) == Some(encode_utf8(input@)),
            None => zlib_deflated(encode_utf8(input@)) is None,
        },
{
    let mut encoder = flate2::write::ZlibEncoder::new(Vec::new(), flate2::Compression::default());
    if encoder.write_all(input.as_bytes()).is_err() {
        return None;
    }
    encoder.finish().ok()
}

/// Calls `String::from_utf8` of std. Trusted: it succeeds exactly on valid
/// UTF-8, and then the string's encoding is the input.
#[verifier::external_body]
pub(crate) fn utf8_to_string(bytes: Vec<u8>) -> (r: Option<String>)
    ensures
        r is Some <==> valid_utf8(bytes@),
        r matches Some(s) ==> encode_utf8(s@) == bytes@,
{
    String::from_utf8(bytes).ok()
}

} // verus!
