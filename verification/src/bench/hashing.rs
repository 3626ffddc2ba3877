//! Checksums of canonical texts.
use crate::bench::canonical::{canonical_json, json_text};
use crate::bench::json::Json;
use crate::text::{hex_of, hex_text};
use vstd::prelude::*;

verus! {

/// The SHA-256 digest of the UTF-8 form of a text, as `sha2::Sha256` computes it.
pub uninterp spec fn sha256(text: Seq<char>) -> Seq<u8>;

/// `sha2::Sha256::digest` on the bytes of `text`: a function of the text alone,
/// 32 bytes long.
#[verifier::external_body]
fn digest(text: &str) -> (bytes: Vec<u8>)
    ensures
        bytes@ == sha256(text@),
        bytes@.len() == 32,
{
    <sha2::Sha256 as sha2::Digest>::digest(text.as_bytes()).to_vec()
}

/// The SHA-256 digest of `text` in hexadecimal.
pub fn sha256_hex(text: &str) -> (hex: String)
    ensures
        hex@ == hex_of(sha256(text@)),
{
    hex_text(&digest(text))
}

/// The SHA-256 digest of the canonical text of `value`, in hexadecimal.
pub fn json_digest(value: &Json) -> (hex: String)
    ensures
        hex@ == hex_of(sha256(json_text(value.view()))),
{
    sha256_hex(canonical_json(value).as_str())
}

} // verus!
