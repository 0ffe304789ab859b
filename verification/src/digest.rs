//! SHA-256 fingerprints of texts, written as lower-case hex.

use vstd::prelude::*;
use vstd::utf8::encode_utf8;
use sha2::{Digest, Sha256};
use crate::text::{chars_of, sub_chars, text_of};

verus! {

broadcast use vstd::string::group_string_axioms, vstd::array::group_array_axioms;

/// The SHA-256 digest of `data`.
pub uninterp spec fn sha256_of(data: Seq<u8>) -> [u8; 32];

/// The lower-case hex digit for `n` (below 16).
pub open spec fn hex_digit(n: int) -> char {
    seq!['0', '1', '2', '3', '4', '5', '6', '7', '8', '9', 'a', 'b', 'c', 'd', 'e', 'f'][n]
}

/// `bytes` in lower-case hex, two digits per byte, high half first.
pub open spec fn hex_lower(bytes: Seq<u8>) -> Seq<char> {
    Seq::new(
        2 * bytes.len(),
        |i: int|
            if i % 2 == 0 {
                hex_digit(bytes[i / 2] as int / 16)
            } else {
                hex_digit(bytes[i / 2] as int % 16)
            },
    )
}

/// The fingerprint of a text: the lower-case hex SHA-256 digest of its UTF-8 bytes.
pub open spec fn fingerprint_of(text: Seq<char>) -> Seq<char> {
    hex_lower(sha256_of(encode_utf8(text))@)
}

/// The SHA-256 digest of `data` (`sha2::Sha256::digest`).
#[verifier::external_body]
fn sha256_digest(data: &[u8]) -> (res: [u8; 32])
    ensures
        res == sha256_of(data@),
{
    Sha256::digest(data).into()
}

/// `bytes` in lower-case hex (`hex::encode`).
#[verifier::external_body]
fn hex_encode(bytes: &[u8]) -> (res: String)
    ensures
        res@ == hex_lower(bytes@),
{
    hex::encode(bytes)
}

/// The fingerprint of `text`: 64 lower-case hex digits.
pub fn fingerprint(text: &str) -> (res: String)
    ensures
        res@ == fingerprint_of(text@),
        res@.len() == 64,
{
    let digest = sha256_digest(text.as_bytes());
    proof { lemma_fingerprint_len(text@); }
    hex_encode(digest.as_slice())
}

/// A fingerprint has 64 digits.
pub proof fn lemma_fingerprint_len(text: Seq<char>)
    ensures
        fingerprint_of(text).len() == 64,
{
    let d = sha256_of(encode_utf8(text));
    assert(d@.len() == 32);
}

/// The first eight digits of the fingerprint of `text`.
pub fn short_fingerprint(text: &str) -> (res: String)
    ensures
        res@ == fingerprint_of(text@).take(8),
{
    let full = fingerprint(text);
    let digits = chars_of(full.as_str());
    let head = sub_chars(&digits, 0, 8);
    assert(head@ =~= fingerprint_of(text@).take(8));
    text_of(&head)
}

} // verus!
