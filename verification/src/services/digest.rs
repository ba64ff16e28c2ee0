//! Content hashing and its text form: SHA-256 digests and URL-safe base64.

use base64::Engine;
use sha2::Digest;
use vstd::prelude::*;

verus! {

/// The SHA-256 digest of a byte string.
pub uninterp spec fn sha256_digest(data: Seq<u8>) -> Seq<u8>;

/// The URL-safe base64 text, without padding, of a byte string.
pub uninterp spec fn base64_url_text(data: Seq<u8>) -> Seq<char>;

/// The bytes a text decodes to as URL-safe base64 without padding, or `None`
/// when it is not such a text.
pub uninterp spec fn base64_url_bytes(text: Seq<char>) -> Option<Seq<u8>>;

/// `sha2::Sha256::digest`: the SHA-256 digest of `data`, a 32-byte array.
#[verifier::external_body]
pub(crate) fn sha256(data: &[u8]) -> (r: Vec<u8>)
    ensures
        r@ == sha256_digest(data@),
        r@.len() == 32,
{
    sha2::Sha256::digest(data).to_vec()
}

/// `base64`'s `URL_SAFE_NO_PAD.encode`: the URL-safe base64 text of `data`
/// without padding, which `URL_SAFE_NO_PAD.decode` maps back to `data`.
#[verifier::external_body]
pub(crate) fn encode_base64_url(data: &[u8]) -> (r: String)
    ensures
        r@ == base64_url_text(data@),
        base64_url_bytes(r@) == Some(data@),
{
    base64::engine::general_purpose::URL_SAFE_NO_PAD.encode(data)
}

/// `base64`'s `URL_SAFE_NO_PAD.decode`: the bytes `text` decodes to, or
/// `None` where it returns a decode error.
#[verifier::external_body]
pub(crate) fn decode_base64_url(text: &str) -> (r: Option<Vec<u8>>)
    ensures
        match r {
            Some(bytes) => base64_url_bytes(text@) == Some(bytes@),
            None => base64_url_bytes(text@) == None::<Seq<u8>>,
        },
{
    match base64::engine::general_purpose::URL_SAFE_NO_PAD.decode(text) {
        Ok(bytes) => Some(bytes),
        Err(_) => None,
    }
}

} // verus!
