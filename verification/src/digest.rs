//! Hash functions and digest encodings for `WARC-Block-Digest` and
//! `WARC-Payload-Digest`, each behind one trusted call.
use data_encoding::{BASE32, HEXLOWER_PERMISSIVE};
use digest::Digest;
use vstd::prelude::*;

verus! {

/// MD5 digest of `data` (`md5::Md5`).
pub uninterp spec fn md5_of(data: Seq<u8>) -> Seq<u8>;

/// SHA-1 digest of `data` (`sha1::Sha1`).
pub uninterp spec fn sha1_of(data: Seq<u8>) -> Seq<u8>;

/// SHA-256 digest of `data` (`sha2::Sha256`).
pub uninterp spec fn sha256_of(data: Seq<u8>) -> Seq<u8>;

/// SHA-512 digest of `data` (`sha2::Sha512`).
pub uninterp spec fn sha512_of(data: Seq<u8>) -> Seq<u8>;

/// Text that `data_encoding::BASE32.encode` makes of `data`.
pub uninterp spec fn base32_encoded(data: Seq<u8>) -> Seq<char>;

/// What `data_encoding::BASE32.decode` makes of `text` (`None` on an error).
pub uninterp spec fn base32_decoded(text: Seq<u8>) -> Option<Seq<u8>>;

/// What `data_encoding::HEXLOWER_PERMISSIVE.decode` makes of `text` (`None` on an error).
pub uninterp spec fn hex_decoded(text: Seq<u8>) -> Option<Seq<u8>>;

/// A character of the RFC 4648 base32 alphabet or its padding.
pub open spec fn is_base32_char(c: char) -> bool {
    ('A' <= c && c <= 'Z') || ('2' <= c && c <= '7') || c == '='
}

/// Calls `md5::Md5::digest`. Trusted: the result is the named function of `data`.
#[verifier::external_body]
pub(crate) fn md5(data: &[u8]) -> (r: Vec<u8>)
    ensures
        r@ == md5_of(data@),
{
    md5::Md5::digest(data).to_vec()
}

/// Calls `sha1::Sha1::digest`. Trusted: the result is the named function of `data`.
#[verifier::external_body]
pub(crate) fn sha1(data: &[u8]) -> (r: Vec<u8>)
    ensures
        r@ == sha1_of(data@),
{
    sha1::Sha1::digest(data).to_vec()
}

/// Calls `sha2::Sha256::digest`. Trusted: the result is the named function of `data`.
#[verifier::external_body]
pub(crate) fn sha256(data: &[u8]) -> (r: Vec<u8>)
    ensures
        r@ == sha256_of(data@),
{
    sha2::Sha256::digest(data).to_vec()
}

/// Calls `sha2::Sha512::digest`. Trusted: the result is the named function of `data`.
#[verifier::external_body]
pub(crate) fn sha512(data: &[u8]) -> (r: Vec<u8>)
    ensures
        r@ == sha512_of(data@),
{
    sha2::Sha512::digest(data).to_vec()
}

/// Calls `BASE32.encode` of `data_encoding`. Trusted: the result is the named
/// function of `data`; it is made of RFC 4648 base32 characters and decoding
/// it gives `data` back (the crate documents that its predefined encodings
/// conform to RFC 4648 and that encoding followed by decoding gives the
/// initial data).
#[verifier::external_body]
pub(crate) fn base32_encode(data: &[u8]) -> (r: String)
    ensures
        r@ == base32_encoded(data@),
        forall|i: int| 0 <= i < r@.len() ==> is_base32_char(#[trigger] r@[i]),
        base32_decoded(vstd::utf8::encode_utf8(r@)) == Some(data@),
{
    BASE32.encode(data)
}

/// Calls `BASE32.decode` of `data_encoding`. Trusted: the result is the named
/// function of `text`.
#[verifier::external_body]
pub(crate) fn base32_decode(text: &[u8]) -> (r: Option<Vec<u8>>)
    ensures
        match r {
            Some(v) => base32_decoded(text@) == Some(v@),
            None => base32_decoded(text@) is None,
        },
{
    BASE32.decode(text).ok()
}

/// Calls `HEXLOWER_PERMISSIVE.decode` of `data_encoding`. Trusted: the result
/// is the named function of `text`.
#[verifier::external_body]
pub(crate) fn hex_decode(text: &[u8]) -> (r: Option<Vec<u8>>)
    ensures
        match r {
            Some(v) => hex_decoded(text@) == Some(v@),
            None => hex_decoded(text@) is None,
        },
{
    HEXLOWER_PERMISSIVE.decode(text).ok()
}

} // verus!
