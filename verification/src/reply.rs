//! Framing of the blockchain service's answers: reading the encoded request
//! and encoding the reply.

use vstd::prelude::*;
use vstd::string::StringExecFns;
use vstd::utf8::{decode_utf8, encode_utf8, encode_utf8_decode_utf8, encode_utf8_valid_utf8, valid_utf8};
use crate::codec::{
    base64_url_decode, base64_url_decoded, base64_url_encode, base64_url_encoded, utf8_to_string,
    zlib_compress, zlib_decompress, zlib_deflated, zlib_inflated,
};

verus! {

/// First line of every answer.
pub open spec fn success_text() -> Seq<char> {
    "CCprojectFor3,851725245278\n"@
}

/// Answer to a request that is refused.
pub open spec fn malformed_text() -> Seq<char> {
    "CCprojectFor3,851725245278\nINVALID"@
}

/// Why a request could not be read.
pub enum Rejection {
    /// The text is no URL-safe base64.
    UrlDecoding,
    /// The bytes are no zlib stream.
    JsonDecoding,
    /// The JSON does not describe a request.
    InvalidFields,
}

/// The detail that the answer to a rejected request ends with.
pub open spec fn rejection_detail(k: Rejection) -> Seq<char> {
    match k {
        Rejection::UrlDecoding => "|0, URL decoding error"@,
        Rejection::JsonDecoding => "|1, JSON decoding error"@,
        Rejection::InvalidFields => "|2, invalid fields in JSON"@,
    }
}

/// The answer to a request rejected for `k`.
pub open spec fn rejection_text(k: Rejection) -> Seq<char> {
    malformed_text() + seq!['|'] + rejection_detail(k)
}

/// The answer to a request that is refused.
pub fn malformed_response() -> (r: String)
    ensures
        r@ == malformed_text(),
{
    String::from_str("CCprojectFor3,851725245278\nINVALID")
}

/// The answer to a request rejected for `k`.
pub fn rejection_response(k: Rejection) -> (r: String)
    ensures
        r@ == rejection_text(k),
{
    let mut r = malformed_response();
    r.append("|");
    let detail = match k {
        Rejection::UrlDecoding => "|0, URL decoding error",
        Rejection::JsonDecoding => "|1, JSON decoding error",
        Rejection::InvalidFields => "|2, invalid fields in JSON",
    };
    r.append(detail);
    proof {
        reveal_strlit("|");
    }
    r
}

/// An answer: the first line, then `body`.
pub fn answer_with(body: &str) -> (r: String)
    ensures
        r@ == success_text() + body@,
{
    let mut r = String::from_str("CCprojectFor3,851725245278\n");
    r.append(body);
    r
}

/// Why a zlib payload could not be read as text.
pub enum DecodeError {
    /// The bytes are no zlib stream.
    Inflate,
    /// The inflated bytes are no UTF-8.
    NotUtf8,
}

/// Inflates a zlib stream and reads the result as UTF-8 text.
pub fn decode_reader(bytes: Vec<u8>) -> (r: Result<String, DecodeError>)
    ensures
        match zlib_inflated(bytes@) {
            None => r matches Err(DecodeError::Inflate),
            Some(plain) => if valid_utf8(plain) {
                r matches Ok(s) && encode_utf8(s@) == plain
            } else {
                r matches Err(DecodeError::NotUtf8)
            },
        },
{
    match zlib_decompress(bytes.as_slice()) {
        None => Err(DecodeError::Inflate),
        Some(plain) => match utf8_to_string(plain) {
            Some(s) => Ok(s),
            None => Err(DecodeError::NotUtf8),
        },
    }
}

/// Deflates the UTF-8 bytes of `input` as a zlib stream.
pub fn compress_string(input: &String) -> (r: Option<Vec<u8>>)
    ensures
        match zlib_deflated(encode_utf8(input@)) {
            None => r is None,
            Some(z) => r matches Some(v) && v@ == z,
        },
        r matches Some(v) ==> zlib_inflated(v@) == Some(encode_utf8(input@)),
{
    zlib_compress(input.as_str())
}

/// What an encoded request holds: its JSON text, or the answer that
/// refuses it, or bytes that are no UTF-8 text.
pub enum Payload {
    Json(String),
    Reply(String),
    NotUtf8,
}

/// The JSON text that an encoded request holds, when it can be read.
pub open spec fn payload_json(encoded: Seq<char>) -> Option<Seq<char>> {
    match base64_url_decoded(encoded) {
        Some(bytes) => match zlib_inflated(bytes) {
            Some(plain) => if valid_utf8(plain) {
                Some(decode_utf8(plain))
            } else {
                None
            },
            None => None,
        },
        None => None,
    }
}

/// Reads an encoded request: URL-safe base64 of a zlib stream of JSON text.
pub fn read_payload(encoded_json: &String) -> (r: Payload)
    ensures
        match base64_url_decoded(encoded_json@) {
            None => r matches Payload::Reply(s) && s@ == rejection_text(Rejection::UrlDecoding),
            Some(bytes) => match zlib_inflated(bytes) {
                None => r matches Payload::Reply(s) && s@ == rejection_text(Rejection::JsonDecoding),
                Some(plain) => if valid_utf8(plain) {
                    r matches Payload::Json(s) && encode_utf8(s@) == plain
                } else {
                    r is NotUtf8
                },
            },
        },
        r matches Payload::Json(s) ==> payload_json(encoded_json@) == Some(s@),
{
    let bytes = match base64_url_decode(encoded_json.as_str()) {
        Some(b) => b,
        None => {
            return Payload::Reply(rejection_response(Rejection::UrlDecoding));
        },
    };
    match decode_reader(bytes) {
        Ok(s) => {
            proof {
                encode_utf8_decode_utf8(s@);
            }
            Payload::Json(s)
        },
        Err(DecodeError::Inflate) => Payload::Reply(rejection_response(Rejection::JsonDecoding)),
        Err(DecodeError::NotUtf8) => Payload::NotUtf8,
    }
}

/// The text after the first line of an answer reads back, as a request
/// is read, to exactly `json`.
pub open spec fn carries_json(answer: Seq<char>, json: Seq<char>) -> bool {
    &&& answer.len() >= success_text().len()
    &&& answer.take(success_text().len() as int) == success_text()
    &&& base64_url_decoded(answer.skip(success_text().len() as int)) matches Some(bytes)
    &&& zlib_inflated(bytes) == Some(encode_utf8(json))
}

/// The answer that carries the JSON text of the extended chain: the first
/// line, then the URL-safe base64 of its zlib stream. `None` where the
/// compression fails. What follows the first line reads back as `json`.
pub fn success_response(json: &String) -> (r: Option<String>)
    ensures
        match zlib_deflated(encode_utf8(json@)) {
            None => r is None,
            Some(z) => r matches Some(s) && s@ == success_text() + base64_url_encoded(z),
        },
        r matches Some(s) ==> carries_json(s@, json@),
{
    let compressed = match compress_string(json) {
        Some(v) => v,
        None => {
            return None;
        },
    };
    let mut r = String::from_str("CCprojectFor3,851725245278\n");
    let encoded = base64_url_encode(compressed.as_slice());
    r.append(encoded.as_str());
    assert(r@.take(success_text().len() as int) =~= success_text());
    assert(r@.skip(success_text().len() as int) =~= encoded@);
    Some(r)
}

/// Reading an answer's payload as a request gives back the JSON text the
/// answer was made from.
pub proof fn lemma_answer_reads_back(answer: Seq<char>, json: Seq<char>)
    requires
        carries_json(answer, json),
    ensures
        payload_json(answer.skip(success_text().len() as int)) == Some(json),
{
    encode_utf8_valid_utf8(json);
    encode_utf8_decode_utf8(json);
}

} // verus!
