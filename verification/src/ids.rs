//! Fresh record identifiers and the current time, each behind one trusted call.
use vstd::prelude::*;

verus! {

/// A lower-case hexadecimal digit.
pub open spec fn is_lower_hex(c: char) -> bool {
    ('0' <= c && c <= '9') || ('a' <= c && c <= 'f')
}

/// The hyphenated text form of a UUID: 36 characters, hyphens at offsets 8,
/// 13, 18 and 23 and lower-case hexadecimal digits elsewhere.
pub open spec fn is_uuid_text(t: Seq<char>) -> bool {
    &&& t.len() == 36
    &&& forall|i: int|
        0 <= i < 36 ==> if i == 8 || i == 13 || i == 18 || i == 23 {
            #[trigger] t[i] == '-'
        } else {
            is_lower_hex(t[i])
        }
}

/// The `strftime` format of a `WARC-Date` value.
pub open spec fn warc_date_format() -> Seq<char> {
    "%Y-%m-%dT%H:%M:%SZ"@
}

/// An ASCII decimal digit.
pub open spec fn is_digit_char(c: char) -> bool {
    '0' <= c && c <= '9'
}

/// The shape of a `WARC-Date` value, `YYYY-MM-DDThh:mm:ssZ`: 20 characters,
/// `-` at offsets 4 and 7, `T` at 10, `:` at 13 and 16, `Z` at 19 and
/// decimal digits elsewhere.
pub open spec fn is_warc_date_text(t: Seq<char>) -> bool {
    &&& t.len() == 20
    &&& forall|i: int|
        0 <= i < 20 ==> if i == 4 || i == 7 {
            #[trigger] t[i] == '-'
        } else if i == 10 {
            t[i] == 'T'
        } else if i == 13 || i == 16 {
            t[i] == ':'
        } else if i == 19 {
            t[i] == 'Z'
        } else {
            is_digit_char(t[i])
        }
}

/// Seconds from the Unix epoch to the first second of the year 10000: the
/// times whose year `%Y` writes with four digits.
pub open spec fn four_digit_year_limit() -> int {
    253402300800
}

/// What `chrono` renders for the UTC time `secs` seconds after the Unix
/// epoch in the `WARC-Date` format (`None` when `chrono` cannot represent it).
pub uninterp spec fn utc_date_text(secs: u64) -> Option<Seq<char>>;

/// The hyphenated text of the version 4 UUID that `uuid` builds from the
/// random bytes `bytes`.
pub uninterp spec fn uuid_v4_text(bytes: Seq<u8>) -> Seq<char>;

/// Calls `getrandom::fill` on 16 bytes. Trusted: `Some` holds the bytes the
/// operating system's random source gave, `None` that it failed. The bytes
/// are random, so nothing is said of them.
#[verifier::external_body]
pub(crate) fn random_bytes() -> (r: Option<[u8; 16]>) {
    let mut bytes = [0u8; 16];
    match getrandom::fill(&mut bytes) {
        Ok(()) => Some(bytes),
        Err(_) => None,
    }
}

/// Calls `uuid::Builder::from_random_bytes` (what `Uuid::new_v4` does with
/// the bytes it draws) and renders the UUID as text. Trusted: the text is the
/// named function of `bytes`, in the hyphenated lower-case form, which is
/// what `Display` for `Uuid` writes (it formats through `LowerHex` of
/// `Hyphenated`).
#[verifier::external_body]
pub(crate) fn uuid_text(bytes: [u8; 16]) -> (r: String)
    ensures
        r@ == uuid_v4_text(bytes@),
        is_uuid_text(r@),
{
    uuid::Builder::from_random_bytes(bytes).into_uuid().to_string()
}

/// Calls `UNIX_EPOCH.elapsed()` of `std::time`: the whole seconds since the
/// Unix epoch, or `None` when the system clock lies before it. The time
/// depends on the clock, so nothing is said of it.
#[verifier::external_body]
pub(crate) fn unix_seconds_now() -> (r: Option<u64>) {
    match std::time::UNIX_EPOCH.elapsed() {
        Ok(d) => Some(d.as_secs()),
        Err(_) => None,
    }
}

/// Calls `chrono::DateTime::from_timestamp` and renders the time with
/// `format`. Only the `WARC-Date` format is admitted: chrono renders its
/// specifiers without error. Trusted: the result is the named function of
/// `secs`; before the year 10000 it is `Some` and has the `WARC-Date` shape
/// (`from_timestamp` covers those times, `%Y` zero-pads the year to four
/// digits and `%m`, `%d`, `%H`, `%M`, `%S` write two digits each).
#[verifier::external_body]
pub(crate) fn format_utc(secs: u64, format: &str) -> (r: Option<String>)
    requires
        format@ == warc_date_format(),
    ensures
        match r {
            Some(t) => utc_date_text(secs) == Some(t@) && (secs < four_digit_year_limit() ==> is_warc_date_text(
                t@,
            )),
            None => utc_date_text(secs) is None && secs >= four_digit_year_limit(),
        },
{
    match chrono::DateTime::from_timestamp(secs as i64, 0) {
        Some(d) => Some(d.format(format).to_string()),
        None => None,
    }
}

} // verus!
