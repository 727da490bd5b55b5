//! Digests of byte strings and their hexadecimal text, from the outside
//! hashing and hex crates.

use vstd::prelude::*;

verus! {

/// The SHA-1 digest of a byte string.
pub uninterp spec fn sha1_of(b: Seq<u8>) -> Seq<u8>;

/// The MD5 digest of a byte string.
pub uninterp spec fn md5_of(b: Seq<u8>) -> Seq<u8>;

/// The lowercase hexadecimal digit for a value below sixteen.
pub open spec fn hex_digit(n: int) -> char {
    if n < 10 {
        (48 + n) as char
    } else {
        (87 + n) as char
    }
}

/// Two lowercase hexadecimal digits per byte, high half first.
pub open spec fn hex_text(b: Seq<u8>) -> Seq<char>
    decreases b.len(),
{
    if b.len() == 0 {
        Seq::empty()
    } else {
        hex_text(b.drop_last()) + seq![hex_digit(b.last() as int / 16), hex_digit(b.last() as int % 16)]
    }
}

/// Hex text has two digits per byte.
pub proof fn lemma_hex_text_len(b: Seq<u8>)
    ensures
        hex_text(b).len() == 2 * b.len(),
    decreases b.len(),
{
    if b.len() > 0 {
        lemma_hex_text_len(b.drop_last());
    }
}

/// Relies on `sha1::Sha1` through `digest::Digest::digest`: the 20-byte SHA-1
/// digest of the input.
#[verifier::external_body]
pub(crate) fn sha1_digest(b: &[u8]) -> (r: Vec<u8>)
    ensures
        r@ == sha1_of(b@),
        r@.len() == 20,
{
    <sha1::Sha1 as sha1::Digest>::digest(b).to_vec()
}

/// Relies on `md5::Md5` (package md-5) through `digest::Digest::digest`: the
/// 16-byte MD5 digest of the input.
#[verifier::external_body]
pub(crate) fn md5_digest(b: &[u8]) -> (r: Vec<u8>)
    ensures
        r@ == md5_of(b@),
        r@.len() == 16,
{
    <md5::Md5 as md5::Digest>::digest(b).to_vec()
}

/// Relies on `hex::encode`: each byte as two lowercase hexadecimal digits,
/// high half first.
#[verifier::external_body]
pub(crate) fn hex_encode(b: &[u8]) -> (r: String)
    ensures
        r@ == hex_text(b@),
{
    hex::encode(b)
}

} // verus!
