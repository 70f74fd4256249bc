//! Lossless conversions from records and header maps to the `fastwarc.v1`
//! message model, and the record filters a parse request configures.
//!
//! Header blocks are carried as ordered byte pairs plus the block as written,
//! so no information the parser saw is lost on the way to the wire.
use crate::header::{copy_bytes, decoded, first_value, values_for, written, HeaderEncoding, HeaderMap, HeaderMapModel};
use crate::proto as pb;
use crate::record::{
    content_type_text, opt_text, warc_1_0, warc_1_1, DigestError, DigestErrorKind, WarcRecord,
    WarcRecordModel,
};
use crate::record_type::{type_bits, WarcRecordType};
use vstd::prelude::*;
use vstd::string::StringExecFns;
use vstd::utf8::encode_utf8;

verus! {

/// HTTP payload decoding that the parser applies.
#[derive(Debug, Clone, Copy, PartialEq, Eq, Structural)]
pub enum AutoDecode {
    Disabled,
    TransferEncoding,
    ContentEncoding,
    All,
}

/// Wire record type of a record type (`AnyType` and `NoType` have none).
pub open spec fn pb_record_type(t: WarcRecordType) -> pb::WarcRecordType {
    match t {
        WarcRecordType::WarcInfo => pb::WarcRecordType::Warcinfo,
        WarcRecordType::Response => pb::WarcRecordType::Response,
        WarcRecordType::Resource => pb::WarcRecordType::Resource,
        WarcRecordType::Request => pb::WarcRecordType::Request,
        WarcRecordType::Metadata => pb::WarcRecordType::Metadata,
        WarcRecordType::Revisit => pb::WarcRecordType::Revisit,
        WarcRecordType::Conversion => pb::WarcRecordType::Conversion,
        WarcRecordType::Continuation => pb::WarcRecordType::Continuation,
        WarcRecordType::Unknown => pb::WarcRecordType::Unknown,
        _ => pb::WarcRecordType::Unspecified,
    }
}

/// Record type of a wire record type (`None` for `Unspecified`).
pub open spec fn crate_record_type(t: pb::WarcRecordType) -> Option<WarcRecordType> {
    match t {
        pb::WarcRecordType::Unspecified => None,
        pb::WarcRecordType::Warcinfo => Some(WarcRecordType::WarcInfo),
        pb::WarcRecordType::Response => Some(WarcRecordType::Response),
        pb::WarcRecordType::Resource => Some(WarcRecordType::Resource),
        pb::WarcRecordType::Request => Some(WarcRecordType::Request),
        pb::WarcRecordType::Metadata => Some(WarcRecordType::Metadata),
        pb::WarcRecordType::Revisit => Some(WarcRecordType::Revisit),
        pb::WarcRecordType::Conversion => Some(WarcRecordType::Conversion),
        pb::WarcRecordType::Continuation => Some(WarcRecordType::Continuation),
        pb::WarcRecordType::Unknown => Some(WarcRecordType::Unknown),
    }
}

/// Filter bit of a wire record type number (`None` for unspecified or
/// unrecognised numbers).
pub open spec fn record_type_bit(v: i32) -> Option<u16> {
    match pb::record_type_of_number(v) {
        Some(t) => match crate_record_type(t) {
            Some(c) => Some(type_bits(c)),
            None => None,
        },
        None => None,
    }
}

/// OR of the filter bits of the recognised numbers in `types`.
pub open spec fn bits_or(types: Seq<i32>) -> u16
    decreases types.len(),
{
    if types.len() == 0 {
        0
    } else {
        bits_or(types.drop_last()) | match record_type_bit(types.last()) {
            Some(b) => b,
            None => 0u16,
        }
    }
}

/// Filter bitmask of a list of wire record types: all types if the list
/// names no recognised type.
pub open spec fn types_mask(types: Seq<i32>) -> u16 {
    if bits_or(types) == 0 {
        type_bits(WarcRecordType::AnyType)
    } else {
        bits_or(types)
    }
}

/// Convert a [`WarcRecordType`] to its wire counterpart.
///
/// `NoType` maps to `Unspecified`; the `AnyType` bitmask wildcard never
/// occurs on a parsed record and also maps to `Unspecified`.
pub fn warc_record_type(record_type: WarcRecordType) -> (r: pb::WarcRecordType)
    ensures
        r == pb_record_type(record_type),
{
    match record_type {
        WarcRecordType::WarcInfo => pb::WarcRecordType::Warcinfo,
        WarcRecordType::Response => pb::WarcRecordType::Response,
        WarcRecordType::Resource => pb::WarcRecordType::Resource,
        WarcRecordType::Request => pb::WarcRecordType::Request,
        WarcRecordType::Metadata => pb::WarcRecordType::Metadata,
        WarcRecordType::Revisit => pb::WarcRecordType::Revisit,
        WarcRecordType::Conversion => pb::WarcRecordType::Conversion,
        WarcRecordType::Continuation => pb::WarcRecordType::Continuation,
        WarcRecordType::Unknown => pb::WarcRecordType::Unknown,
        WarcRecordType::AnyType => pb::WarcRecordType::Unspecified,
        WarcRecordType::NoType => pb::WarcRecordType::Unspecified,
    }
}

/// Map a wire record type number to the record type's filter bit.
///
/// Wire numbers are sequential; record types filter by bitmask. Returns
/// `None` for unspecified or unrecognised numbers.
pub fn warc_record_type_bit(value: i32) -> (r: Option<u16>)
    ensures
        r == record_type_bit(value),
{
    let t = match pb::WarcRecordType::from_number(value) {
        Some(t) => t,
        None => pb::WarcRecordType::Unspecified,
    };
    match t {
        pb::WarcRecordType::Unspecified => None,
        pb::WarcRecordType::Warcinfo => Some(WarcRecordType::WarcInfo.bits()),
        pb::WarcRecordType::Response => Some(WarcRecordType::Response.bits()),
        pb::WarcRecordType::Resource => Some(WarcRecordType::Resource.bits()),
        pb::WarcRecordType::Request => Some(WarcRecordType::Request.bits()),
        pb::WarcRecordType::Metadata => Some(WarcRecordType::Metadata.bits()),
        pb::WarcRecordType::Revisit => Some(WarcRecordType::Revisit.bits()),
        pb::WarcRecordType::Conversion => Some(WarcRecordType::Conversion.bits()),
        pb::WarcRecordType::Continuation => Some(WarcRecordType::Continuation.bits()),
        pb::WarcRecordType::Unknown => Some(WarcRecordType::Unknown.bits()),
    }
}

/// OR-combine wire record types into a filter bitmask.
///
/// A list without a recognised type means "any type" (`AnyType`).
pub fn record_types_mask(types: &[i32]) -> (r: u16)
    ensures
        r == types_mask(types@),
{
    let mut mask: u16 = 0;
    let mut i: usize = 0;
    while i < types.len()
        invariant
            i <= types@.len(),
            mask == bits_or(types@.take(i as int)),
        decreases types@.len() - i,
    {
        assert(types@.take(i + 1).drop_last() =~= types@.take(i as int));
        match warc_record_type_bit(types[i]) {
            Some(bit) => {
                mask = mask | bit;
            },
            None => {
                assert(mask | 0u16 == mask) by (bit_vector);
            },
        }
        i = i + 1;
    }
    assert(types@.take(i as int) =~= types@);
    if mask == 0 {
        WarcRecordType::AnyType.bits()
    } else {
        mask
    }
}

/// The nine concrete record types, each with one filter bit.
pub open spec fn is_concrete_type(t: WarcRecordType) -> bool {
    t != WarcRecordType::AnyType && t != WarcRecordType::NoType
}

pub open spec fn is_type_bit(b: u16) -> bool {
    b == 2 || b == 4 || b == 8 || b == 16 || b == 32 || b == 64 || b == 128 || b == 256 || b == 512
}

proof fn lemma_type_bits_meet(a: u16, b: u16)
    by (bit_vector)
    requires
        a == 2 || a == 4 || a == 8 || a == 16 || a == 32 || a == 64 || a == 128 || a == 256 || a == 512,
        b == 2 || b == 4 || b == 8 || b == 16 || b == 32 || b == 64 || b == 128 || b == 256 || b == 512,
    ensures
        (a & b != 0) == (a == b),
        b & 65535u16 != 0,
        0u16 & b == 0,
{
}

proof fn lemma_or_meets(x: u16, y: u16, b: u16)
    by (bit_vector)
    ensures
        ((x | y) & b != 0) == ((x & b != 0) || (y & b != 0)),
{
}

/// The bit of a recognised number is that of the concrete type it names.
proof fn lemma_record_type_bit(v: i32, t: WarcRecordType)
    requires
        is_concrete_type(t),
    ensures
        record_type_bit(v) matches Some(b) ==> is_type_bit(b),
        (record_type_bit(v) == Some(type_bits(t))) == (v == pb::record_type_number(pb_record_type(t))),
{
}

proof fn lemma_bits_or_meets(types: Seq<i32>, t: WarcRecordType)
    requires
        is_concrete_type(t),
    ensures
        (bits_or(types) & type_bits(t) != 0) == types.contains(pb::record_type_number(pb_record_type(t))),
    decreases types.len(),
{
    let b = type_bits(t);
    let n = pb::record_type_number(pb_record_type(t));
    if types.len() == 0 {
        lemma_type_bits_meet(b, b);
    } else {
        let p = types.drop_last();
        lemma_bits_or_meets(p, t);
        let x: u16 = match record_type_bit(types.last()) {
            Some(c) => c,
            None => 0u16,
        };
        lemma_or_meets(bits_or(p), x, b);
        lemma_record_type_bit(types.last(), t);
        lemma_type_bits_meet(b, b);
        if record_type_bit(types.last()) is Some {
            lemma_type_bits_meet(x, b);
        }
        assert(types == p.push(types.last()));
        assert(types.contains(n) == (p.contains(n) || types.last() == n)) by {
            if types.contains(n) && types.last() != n {
                let i = choose|i: int| 0 <= i < types.len() && types[i] == n;
                assert(p[i] == n);
            }
            if p.contains(n) {
                let i = choose|i: int| 0 <= i < p.len() && p[i] == n;
                assert(types[i] == n);
            }
        }
    }
}

/// A concrete record type passes the filter mask of a list of wire record
/// types exactly when the list names it, or names no recognised type at all.
pub proof fn law_types_mask(types: Seq<i32>, t: WarcRecordType)
    requires
        is_concrete_type(t),
    ensures
        (type_bits(t) & types_mask(types) != 0) == (bits_or(types) == 0 || types.contains(
            pb::record_type_number(pb_record_type(t)),
        )),
{
    lemma_bits_or_meets(types, t);
    lemma_type_bits_meet(type_bits(t), type_bits(t));
    let x = type_bits(t);
    let y = bits_or(types);
    assert(x & y == y & x) by (bit_vector);
    if bits_or(types) == 0 {
        assert(!types.contains(pb::record_type_number(pb_record_type(t))));
    }
}

/// Wire encoding of a header encoding.
pub open spec fn pb_encoding(e: HeaderEncoding) -> pb::HeaderEncoding {
    match e {
        HeaderEncoding::Unicode => pb::HeaderEncoding::Unicode,
        HeaderEncoding::Latin1 => pb::HeaderEncoding::Latin1,
    }
}

/// Convert a [`HeaderEncoding`] to its wire counterpart.
pub fn header_encoding(encoding: &HeaderEncoding) -> (r: pb::HeaderEncoding)
    ensures
        r == pb_encoding(*encoding),
{
    match encoding {
        HeaderEncoding::Unicode => pb::HeaderEncoding::Unicode,
        HeaderEncoding::Latin1 => pb::HeaderEncoding::Latin1,
    }
}

/// Payload decoding of a wire number; unrecognised numbers mean none.
pub open spec fn auto_decode_of(v: i32) -> AutoDecode {
    match pb::auto_decode_of_number(v) {
        Some(pb::AutoDecode::TransferEncoding) => AutoDecode::TransferEncoding,
        Some(pb::AutoDecode::ContentEncoding) => AutoDecode::ContentEncoding,
        Some(pb::AutoDecode::All) => AutoDecode::All,
        _ => AutoDecode::Disabled,
    }
}

/// Convert a wire `AutoDecode` number to an [`AutoDecode`].
///
/// Unrecognised values fall back to [`AutoDecode::Disabled`].
pub fn auto_decode(value: i32) -> (r: AutoDecode)
    ensures
        r == auto_decode_of(value),
{
    let d = match pb::AutoDecode::from_number(value) {
        Some(d) => d,
        None => pb::AutoDecode::Unspecified,
    };
    match d {
        pb::AutoDecode::Unspecified => AutoDecode::Disabled,
        pb::AutoDecode::TransferEncoding => AutoDecode::TransferEncoding,
        pb::AutoDecode::ContentEncoding => AutoDecode::ContentEncoding,
        pb::AutoDecode::All => AutoDecode::All,
    }
}

pub open spec fn opt_vec(o: Option<Vec<u8>>) -> Option<Seq<u8>> {
    match o {
        Some(v) => Some(v@),
        None => None,
    }
}

/// `b` carries the header map `h` losslessly: its status line, its fields
/// in order, its encoding and its block as written (the verbatim source
/// bytes of a block that was read and not changed since).
pub open spec fn is_block_of(b: pb::HeaderBlock, h: HeaderMapModel) -> bool {
    &&& opt_vec(b.status_line) == h.status_line
    &&& b.fields@.len() == h.fields.len()
    &&& forall|j: int|
        0 <= j < h.fields.len() ==> (#[trigger] b.fields@[j]).name@ == h.fields[j].0 && b.fields@[j].value@
            == h.fields[j].1
    &&& b.encoding == pb::header_encoding_number(pb_encoding(h.encoding))
    &&& b.raw_block@ == written(h)
}

/// Convert a [`HeaderMap`] to a lossless wire `HeaderBlock`: the fields as
/// ordered raw byte pairs (duplicates and case preserved) and the block as
/// [`HeaderMap::write`] writes it: the verbatim source bytes.
pub fn header_block(headers: &HeaderMap) -> (r: pb::HeaderBlock)
    ensures
        is_block_of(r, headers@),
{
    let mut raw_block: Vec<u8> = Vec::new();
    headers.write(&mut raw_block);
    let status_line = match headers.status_line_bytes() {
        Some(s) => Some(copy_bytes(s)),
        None => None,
    };
    let items = headers.items_bytes();
    let mut fields: Vec<pb::HeaderField> = Vec::new();
    let mut i: usize = 0;
    while i < items.len()
        invariant
            i <= items@.len(),
            crate::header::fields_of(items@) == headers@.fields,
            fields@.len() == i,
            forall|j: int|
                0 <= j < i ==> (#[trigger] fields@[j]).name@ == headers@.fields[j].0 && fields@[j].value@
                    == headers@.fields[j].1,
        decreases items@.len() - i,
    {
        let name = copy_bytes(items[i].0.as_slice());
        let value = copy_bytes(items[i].1.as_slice());
        fields.push(pb::HeaderField { name, value });
        i = i + 1;
    }
    let encoding = header_encoding(&headers.encoding()).number();
    pb::HeaderBlock { status_line, fields, encoding, raw_block }
}

/// Whether payload bytes should be streamed. Unset defaults to true.
pub fn include_payload(config: &pb::ParseWarcConfig) -> (r: bool)
    ensures
        r == (config.include_payload != Some(false)),
{
    match config.include_payload {
        Some(b) => b,
        None => true,
    }
}

/// Whether lossless header blocks should be filled. Unset defaults to true.
pub fn include_headers(config: &pb::ParseWarcConfig) -> (r: bool)
    ensures
        r == (config.include_headers != Some(false)),
{
    match config.include_headers {
        Some(b) => b,
        None => true,
    }
}

/// Whether embedded HTTP headers should be parsed. Unset defaults to true.
pub fn parse_http(config: &pb::ParseWarcConfig) -> (r: bool)
    ensures
        r == (config.parse_http != Some(false)),
{
    match config.parse_http {
        Some(b) => b,
        None => true,
    }
}

/// Number of protocol events packed into one message. Zero means one event
/// per message.
pub fn response_batch_size(config: &pb::ParseWarcConfig) -> (r: usize)
    ensures
        r == if config.response_batch_size == 0 {
            1
        } else {
            config.response_batch_size as int
        },
{
    let n = config.response_batch_size as usize;
    if n == 0 {
        1
    } else {
        n
    }
}

/// `WARC-Record-ID` of a record as text.
pub open spec fn record_id_of(m: WarcRecordModel) -> Option<Seq<char>> {
    match first_value(m.headers.fields, encode_utf8("WARC-Record-ID"@)) {
        Some(v) => Some(decoded(m.headers.encoding, v)),
        None => None,
    }
}

/// HTTP `Content-Type` (without parameters) of a record whose HTTP headers
/// were parsed.
pub open spec fn http_content_type_of(m: WarcRecordModel) -> Option<Seq<char>> {
    match (m.http_parsed, m.http_headers) {
        (true, Some(h)) => content_type_text(h),
        _ => None,
    }
}

/// `r` is the metadata of the record in state `m` at `index`; header data
/// (blocks, content type, charset, record ID) only with `include_headers`.
pub open spec fn is_metadata_of(r: pb::RecordMetadata, m: WarcRecordModel, index: u64, include_headers: bool) -> bool {
    &&& r.record_index == index
    &&& r.record_type == pb::record_type_number(pb_record_type(m.record_type))
    &&& r.content_length == m.content_length
    &&& r.stream_pos == m.stream_pos
    &&& r.is_http == m.is_http
    &&& r.http_parsed == m.http_parsed
    &&& if include_headers {
        &&& r.warc_headers matches Some(b) && is_block_of(b, m.headers)
        &&& match m.http_headers {
            Some(h) => r.http_headers matches Some(b) && is_block_of(b, h),
            None => r.http_headers is None,
        }
        &&& opt_text(r.http_content_type) == http_content_type_of(m)
        &&& opt_text(r.http_charset) == m.http_charset
        &&& opt_text(r.record_id) == record_id_of(m)
    } else {
        &&& r.warc_headers is None
        &&& r.http_headers is None
        &&& r.http_content_type is None
        &&& r.http_charset is None
        &&& r.record_id is None
    }
}

/// Build the `RecordMetadata` for a parsed record.
///
/// When `include_headers` is false, header blocks and the values read from
/// headers are left unset, so a scan that only needs type, length and
/// position skips the lossless header copy.
pub fn record_metadata(record: &WarcRecord, record_index: u64, include_headers: bool) -> (r: pb::RecordMetadata)
    ensures
        is_metadata_of(r, record@, record_index, include_headers),
{
    let (warc_headers, http_headers) = if include_headers {
        let http = match record.http_headers() {
            Some(h) => Some(header_block(h)),
            None => None,
        };
        (Some(header_block(record.headers())), http)
    } else {
        (None, None)
    };
    let http_content_type = if include_headers {
        record.http_content_type()
    } else {
        None
    };
    let http_charset = if include_headers {
        match record.http_charset() {
            Some(c) => Some(String::from_str(c)),
            None => None,
        }
    } else {
        None
    };
    let record_id = if include_headers {
        record.record_id()
    } else {
        None
    };
    pb::RecordMetadata {
        record_index,
        record_type: warc_record_type(record.record_type()).number(),
        warc_headers,
        content_length: record.content_length() as u64,
        stream_pos: record.stream_pos() as u64,
        is_http: record.is_http(),
        http_parsed: record.is_http_parsed(),
        http_headers,
        http_content_type,
        http_charset,
        record_id,
    }
}

/// Wire status of a digest verification outcome.
pub open spec fn digest_status_of(r: Result<bool, DigestError>) -> pb::DigestStatus {
    match r {
        Ok(true) => pb::DigestStatus::Valid,
        Ok(false) => pb::DigestStatus::Mismatch,
        Err(e) => match e.kind_and_message().0 {
            DigestErrorKind::Missing => pb::DigestStatus::NotPresent,
            DigestErrorKind::NoPayload => pb::DigestStatus::NotPresent,
            DigestErrorKind::Unsupported => pb::DigestStatus::UnsupportedAlgorithm,
            DigestErrorKind::FormatError => pb::DigestStatus::FormatError,
            DigestErrorKind::StreamError => pb::DigestStatus::Error,
        },
    }
}

/// Map the outcome of a digest verification to a `DigestStatus` plus the
/// error's message as detail.
pub fn digest_status(result: Result<bool, DigestError>) -> (r: (pb::DigestStatus, Option<String>))
    ensures
        r.0 == digest_status_of(result),
        match result {
            Ok(_) => r.1 is None,
            Err(e) => r.1 matches Some(d) && d@ == e.kind_and_message().1,
        },
{
    match result {
        Ok(true) => (pb::DigestStatus::Valid, None),
        Ok(false) => (pb::DigestStatus::Mismatch, None),
        Err(e) => {
            let detail = String::from_str(e.message());
            let status = match e {
                DigestError::Missing(_) => pb::DigestStatus::NotPresent,
                DigestError::NoPayload(_) => pb::DigestStatus::NotPresent,
                DigestError::Unsupported(_) => pb::DigestStatus::UnsupportedAlgorithm,
                DigestError::FormatError(_) => pb::DigestStatus::FormatError,
                DigestError::StreamError(_) => pb::DigestStatus::Error,
            };
            (status, Some(detail))
        },
    }
}

/// The record has a header named `key` (ignoring ASCII case).
pub open spec fn has_header(m: WarcRecordModel, key: Seq<char>) -> bool {
    values_for(m.headers.fields, encode_utf8(key)).len() > 0
}

/// Whether the built-in filter with wire number `f` keeps the record:
/// HTTP records, concurrent records (`WARC-Concurrent-To`), records with a
/// block or payload digest, WARC/1.0 or WARC/1.1 records. Unspecified and
/// unrecognised numbers keep every record.
pub open spec fn builtin_keeps(m: WarcRecordModel, f: i32) -> bool {
    match pb::builtin_filter_of_number(f) {
        Some(pb::BuiltinFilter::IsHttp) => m.is_http,
        Some(pb::BuiltinFilter::IsConcurrent) => has_header(m, "WARC-Concurrent-To"@),
        Some(pb::BuiltinFilter::HasBlockDigest) => has_header(m, "WARC-Block-Digest"@),
        Some(pb::BuiltinFilter::HasPayloadDigest) => has_header(m, "WARC-Payload-Digest"@),
        Some(pb::BuiltinFilter::IsWarc10) => m.headers.status_line == Some(warc_1_0()),
        Some(pb::BuiltinFilter::IsWarc11) => m.headers.status_line == Some(warc_1_1()),
        _ => true,
    }
}

/// Whether a record passes the configured type, length and built-in filters.
pub open spec fn passes_filters(m: WarcRecordModel, config: pb::ParseWarcConfig) -> bool {
    &&& type_bits(m.record_type) & types_mask(config.record_types@) != 0
    &&& (config.min_content_length matches Some(min) ==> m.content_length >= min)
    &&& (config.max_content_length matches Some(max) ==> m.content_length <= max)
    &&& forall|i: int| 0 <= i < config.filters@.len() ==> builtin_keeps(m, #[trigger] config.filters@[i])
}

/// Whether the record's status line is `line`.
fn status_line_is(record: &WarcRecord, line: &[u8]) -> (r: bool)
    ensures
        r == (record@.headers.status_line == Some(line@)),
{
    match record.headers().status_line_bytes() {
        Some(s) => crate::bytes::bytes_eq(s, line),
        None => false,
    }
}

/// Whether the built-in filter with wire number `f` keeps the record.
fn builtin_filter_keeps(record: &WarcRecord, f: i32) -> (r: bool)
    ensures
        r == builtin_keeps(record@, f),
{
    let filter = match pb::BuiltinFilter::from_number(f) {
        Some(filter) => filter,
        None => pb::BuiltinFilter::Unspecified,
    };
    match filter {
        pb::BuiltinFilter::Unspecified => true,
        pb::BuiltinFilter::IsHttp => record.is_http(),
        pb::BuiltinFilter::IsConcurrent => record.headers().contains_key("WARC-Concurrent-To"),
        pb::BuiltinFilter::HasBlockDigest => record.headers().contains_key("WARC-Block-Digest"),
        pb::BuiltinFilter::HasPayloadDigest => record.headers().contains_key("WARC-Payload-Digest"),
        pb::BuiltinFilter::IsWarc10 => {
            let line: [u8; 8] = [87, 65, 82, 67, 47, 49, 46, 48];
            assert(line@ =~= warc_1_0());
            status_line_is(record, line.as_slice())
        },
        pb::BuiltinFilter::IsWarc11 => {
            let line: [u8; 8] = [87, 65, 82, 67, 47, 49, 46, 49];
            assert(line@ =~= warc_1_1());
            status_line_is(record, line.as_slice())
        },
    }
}

/// Whether a record passes the configured type, length and built-in filters.
pub fn record_passes_filters(record: &mut WarcRecord, config: &pb::ParseWarcConfig) -> (r: bool)
    ensures
        final(record)@ == old(record)@,
        r == passes_filters(old(record)@, *config),
{
    let mask = record_types_mask(config.record_types.as_slice());
    if !record.record_type().matches_bitmask(mask) {
        return false;
    }
    let len = record.content_length() as u64;
    match config.min_content_length {
        Some(min) => {
            if len < min {
                return false;
            }
        },
        None => {},
    }
    match config.max_content_length {
        Some(max) => {
            if len > max {
                return false;
            }
        },
        None => {},
    }
    let mut i: usize = 0;
    while i < config.filters.len()
        invariant
            i <= config.filters@.len(),
            forall|j: int| 0 <= j < i ==> builtin_keeps(record@, #[trigger] config.filters@[j]),
        decreases config.filters@.len() - i,
    {
        if !builtin_filter_keeps(record, config.filters[i]) {
            return false;
        }
        i = i + 1;
    }
    true
}

} // verus!
