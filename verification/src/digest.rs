//! Digests and base64: the outside computations the library names but does
//! not define.

use base64::Engine;
use sha2::Digest;
use vstd::prelude::*;
use crate::text::{hex, hex_text};

verus! {

/// The SHA-256 digest of `data`.
pub uninterp spec fn sha256(data: Seq<u8>) -> Seq<u8>;

/// The SHA-512 digest of `data`.
pub uninterp spec fn sha512(data: Seq<u8>) -> Seq<u8>;

/// The SHA3-384 digest of `data`.
pub uninterp spec fn sha3_384(data: Seq<u8>) -> Seq<u8>;

/// What the standard base64 alphabet with padding decodes `text` to, or the
/// reason why it decodes to nothing.
pub uninterp spec fn standard_decoded(text: Seq<u8>) -> Result<Seq<u8>, Seq<char>>;

/// What the URL-safe base64 alphabet without padding decodes `text` to, or
/// the reason why it decodes to nothing.
pub uninterp spec fn url_decoded(text: Seq<u8>) -> Result<Seq<u8>, Seq<char>>;

/// What the standard base64 alphabet without padding decodes `text` to, or
/// the reason why it decodes to nothing.
pub uninterp spec fn unpadded_decoded(text: Seq<u8>) -> Result<Seq<u8>, Seq<char>>;

/// `data` in the standard base64 alphabet with padding.
pub uninterp spec fn standard_text(data: Seq<u8>) -> Seq<char>;

/// `data` in the URL-safe base64 alphabet without padding.
pub uninterp spec fn url_text(data: Seq<u8>) -> Seq<char>;

/// The contents of bytes decoded, or of the reason why there are none.
pub open spec fn decode_view(r: Result<Vec<u8>, String>) -> Result<Seq<u8>, Seq<char>> {
    match r {
        Ok(b) => Ok(b@),
        Err(e) => Err(e@),
    }
}

/// `sha2::Sha256::digest`: named `sha256`, and always 32 bytes.
#[verifier::external_body]
pub(crate) fn sha256_digest(data: &[u8]) -> (r: Vec<u8>)
    ensures
        r@ == sha256(data@),
        r@.len() == 32,
{
    sha2::Sha256::digest(data).to_vec()
}

/// `sha2::Sha512::digest`: named `sha512`, and always 64 bytes.
#[verifier::external_body]
pub(crate) fn sha512_digest(data: &[u8]) -> (r: Vec<u8>)
    ensures
        r@ == sha512(data@),
        r@.len() == 64,
{
    sha2::Sha512::digest(data).to_vec()
}

/// `sha3::Sha3_384::digest`: named `sha3_384`, and always 48 bytes.
#[verifier::external_body]
pub(crate) fn sha3_384_digest(data: &[u8]) -> (r: Vec<u8>)
    ensures
        r@ == sha3_384(data@),
        r@.len() == 48,
{
    sha3::Sha3_384::digest(data).to_vec()
}

/// `decode` of base64's `STANDARD` engine: named `standard_decoded`.
#[verifier::external_body]
pub(crate) fn decode_standard(text: &[u8]) -> (r: Result<Vec<u8>, String>)
    ensures
        decode_view(r) == standard_decoded(text@),
{
    base64::engine::general_purpose::STANDARD.decode(text).map_err(|e| e.to_string())
}

/// `decode` of base64's `URL_SAFE_NO_PAD` engine: named `url_decoded`.
#[verifier::external_body]
pub(crate) fn decode_url(text: &[u8]) -> (r: Result<Vec<u8>, String>)
    ensures
        decode_view(r) == url_decoded(text@),
{
    base64::engine::general_purpose::URL_SAFE_NO_PAD.decode(text).map_err(|e| e.to_string())
}

/// `decode` of base64's `STANDARD_NO_PAD` engine: named `unpadded_decoded`.
#[verifier::external_body]
pub(crate) fn decode_unpadded(text: &[u8]) -> (r: Result<Vec<u8>, String>)
    ensures
        decode_view(r) == unpadded_decoded(text@),
{
    base64::engine::general_purpose::STANDARD_NO_PAD.decode(text).map_err(|e| e.to_string())
}

/// `encode` of base64's `STANDARD` engine: named `standard_text`.
#[verifier::external_body]
pub(crate) fn encode_standard(data: &[u8]) -> (r: String)
    ensures
        r@ == standard_text(data@),
{
    base64::engine::general_purpose::STANDARD.encode(data)
}

/// `encode` of base64's `URL_SAFE_NO_PAD` engine: named `url_text`. Decoding
/// the text with the same engine gives the data back.
#[verifier::external_body]
pub(crate) fn encode_url(data: &[u8]) -> (r: String)
    ensures
        r@ == url_text(data@),
        (url_decoded(vstd::utf8::encode_utf8(r@)) == Ok::<Seq<u8>, Seq<char>>(data@)),
{
    base64::engine::general_purpose::URL_SAFE_NO_PAD.encode(data)
}

/// The SHA-256 digest of bytes in lower-case hexadecimal.
pub fn hex_sha256(data: &[u8]) -> (r: String)
    ensures
        r@ == hex_text(sha256(data@)),
{
    let d = sha256_digest(data);
    hex(d.as_slice())
}

} // verus!
