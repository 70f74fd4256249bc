//! Text codecs for header values: lossy UTF-8 and Windows-1252 (the
//! "Latin-1" of HTTP headers), each behind one trusted call.
use encoding::all::WINDOWS_1252;
use encoding::label::encoding_from_whatwg_label;
use encoding::{DecoderTrap, EncoderTrap, Encoding};
use vstd::prelude::*;
use vstd::utf8::{decode_utf8, valid_utf8};

verus! {

/// Characters that `String::from_utf8_lossy` makes of `bytes`.
pub uninterp spec fn utf8_lossy_decoded(bytes: Seq<u8>) -> Seq<char>;

/// Characters that the `encoding` crate's Windows-1252 decoder makes of
/// `bytes`, dropping undefined bytes.
pub uninterp spec fn latin1_decoded(bytes: Seq<u8>) -> Seq<char>;

/// Bytes that the `encoding` crate's Windows-1252 encoder makes of `chars`,
/// dropping unrepresentable characters.
pub uninterp spec fn latin1_encoded(chars: Seq<char>) -> Seq<u8>;

/// Whether the `encoding` crate knows `label` as the WHATWG label of an
/// encoding (`encoding_from_whatwg_label` gives one).
pub uninterp spec fn is_encoding_label(label: Seq<char>) -> bool;

pub open spec fn is_ascii_bytes(bytes: Seq<u8>) -> bool {
    forall|i: int| 0 <= i < bytes.len() ==> #[trigger] bytes[i] < 128u8
}

pub open spec fn is_ascii_text(chars: Seq<char>) -> bool {
    forall|i: int| 0 <= i < chars.len() ==> (#[trigger] chars[i] as u32) < 128u32
}

/// Calls `String::from_utf8_lossy`. Trusted: the result is the function's
/// value on `bytes`; on valid UTF-8 it is the decoded text (the function's
/// documentation says so). What it makes of invalid sequences is left to the name.
#[verifier::external_body]
pub(crate) fn utf8_lossy(bytes: &[u8]) -> (r: String)
    ensures
        r@ == utf8_lossy_decoded(bytes@),
        valid_utf8(bytes@) ==> r@ == decode_utf8(bytes@),
{
    String::from_utf8_lossy(bytes).into_owned()
}

/// Calls `WINDOWS_1252.decode(.., DecoderTrap::Ignore)` of the `encoding` crate
/// (an error becomes the empty string). Trusted: the result is the named
/// function of `bytes`; ASCII bytes decode to themselves (the single-byte
/// decoder writes bytes up to 0x7f as characters unchanged).
#[verifier::external_body]
pub(crate) fn latin1_decode(bytes: &[u8]) -> (r: String)
    ensures
        r@ == latin1_decoded(bytes@),
        is_ascii_bytes(bytes@) ==> r@ == Seq::new(bytes@.len(), |i: int| bytes@[i] as char),
{
    WINDOWS_1252.decode(bytes, DecoderTrap::Ignore).unwrap_or_default()
}

/// Calls `WINDOWS_1252.encode(.., EncoderTrap::Ignore)` of the `encoding` crate
/// (an error becomes the empty vector). Trusted: the result is the named
/// function of `s`; ASCII characters encode to themselves (the single-byte
/// encoder writes characters up to U+007F as bytes unchanged).
#[verifier::external_body]
pub(crate) fn latin1_encode(s: &str) -> (r: Vec<u8>)
    ensures
        r@ == latin1_encoded(s@),
        is_ascii_text(s@) ==> r@ == Seq::new(s@.len(), |i: int| s@[i] as u8),
{
    WINDOWS_1252.encode(s, EncoderTrap::Ignore).unwrap_or_default()
}

/// Calls `encoding::label::encoding_from_whatwg_label`. Trusted: the result
/// is whether the named function holds of `label`, i.e. whether the crate's
/// label table (after trimming white space and lower-casing ASCII) has an
/// encoding for it.
#[verifier::external_body]
pub(crate) fn encoding_label_known(label: &str) -> (r: bool)
    ensures
        r == is_encoding_label(label@),
{
    encoding_from_whatwg_label(label).is_some()
}

} // verus!
