//! The `fastwarc.v1` message model of the parse service: its enums with their
//! wire numbers, and its messages as plain structs.
use vstd::prelude::*;

verus! {

/// Record type on the wire. Numbers are sequential from `Unspecified` = 0.
#[derive(Debug, Clone, Copy, PartialEq, Eq, Structural)]
pub enum WarcRecordType {
    Unspecified,
    Warcinfo,
    Response,
    Resource,
    Request,
    Metadata,
    Revisit,
    Conversion,
    Continuation,
    Unknown,
}

/// Wire number of a record type.
pub open spec fn record_type_number(t: WarcRecordType) -> i32 {
    match t {
        WarcRecordType::Unspecified => 0,
        WarcRecordType::Warcinfo => 1,
        WarcRecordType::Response => 2,
        WarcRecordType::Resource => 3,
        WarcRecordType::Request => 4,
        WarcRecordType::Metadata => 5,
        WarcRecordType::Revisit => 6,
        WarcRecordType::Conversion => 7,
        WarcRecordType::Continuation => 8,
        WarcRecordType::Unknown => 9,
    }
}

/// Record type with a wire number (`None` for a number no variant has).
pub open spec fn record_type_of_number(v: i32) -> Option<WarcRecordType> {
    if v == 0 {
        Some(WarcRecordType::Unspecified)
    } else if v == 1 {
        Some(WarcRecordType::Warcinfo)
    } else if v == 2 {
        Some(WarcRecordType::Response)
    } else if v == 3 {
        Some(WarcRecordType::Resource)
    } else if v == 4 {
        Some(WarcRecordType::Request)
    } else if v == 5 {
        Some(WarcRecordType::Metadata)
    } else if v == 6 {
        Some(WarcRecordType::Revisit)
    } else if v == 7 {
        Some(WarcRecordType::Conversion)
    } else if v == 8 {
        Some(WarcRecordType::Continuation)
    } else if v == 9 {
        Some(WarcRecordType::Unknown)
    } else {
        None
    }
}

impl WarcRecordType {
    /// The wire number.
    pub fn number(&self) -> (r: i32)
        ensures
            r == record_type_number(*self),
    {
        match self {
            WarcRecordType::Unspecified => 0,
            WarcRecordType::Warcinfo => 1,
            WarcRecordType::Response => 2,
            WarcRecordType::Resource => 3,
            WarcRecordType::Request => 4,
            WarcRecordType::Metadata => 5,
            WarcRecordType::Revisit => 6,
            WarcRecordType::Conversion => 7,
            WarcRecordType::Continuation => 8,
            WarcRecordType::Unknown => 9,
        }
    }

    /// The variant with a wire number, if any.
    pub fn from_number(v: i32) -> (r: Option<Self>)
        ensures
            r == record_type_of_number(v),
    {
        match v {
            0 => Some(WarcRecordType::Unspecified),
            1 => Some(WarcRecordType::Warcinfo),
            2 => Some(WarcRecordType::Response),
            3 => Some(WarcRecordType::Resource),
            4 => Some(WarcRecordType::Request),
            5 => Some(WarcRecordType::Metadata),
            6 => Some(WarcRecordType::Revisit),
            7 => Some(WarcRecordType::Conversion),
            8 => Some(WarcRecordType::Continuation),
            9 => Some(WarcRecordType::Unknown),
            _ => None,
        }
    }
}

/// Source encoding of a header block on the wire.
#[derive(Debug, Clone, Copy, PartialEq, Eq, Structural)]
pub enum HeaderEncoding {
    Unspecified,
    Unicode,
    Latin1,
}

pub open spec fn header_encoding_number(e: HeaderEncoding) -> i32 {
    match e {
        HeaderEncoding::Unspecified => 0,
        HeaderEncoding::Unicode => 1,
        HeaderEncoding::Latin1 => 2,
    }
}

impl HeaderEncoding {
    /// The wire number.
    pub fn number(&self) -> (r: i32)
        ensures
            r == header_encoding_number(*self),
    {
        match self {
            HeaderEncoding::Unspecified => 0,
            HeaderEncoding::Unicode => 1,
            HeaderEncoding::Latin1 => 2,
        }
    }
}

/// Which HTTP payload encodings the parser removes.
#[derive(Debug, Clone, Copy, PartialEq, Eq, Structural)]
pub enum AutoDecode {
    Unspecified,
    TransferEncoding,
    ContentEncoding,
    All,
}

pub open spec fn auto_decode_of_number(v: i32) -> Option<AutoDecode> {
    if v == 0 {
        Some(AutoDecode::Unspecified)
    } else if v == 1 {
        Some(AutoDecode::TransferEncoding)
    } else if v == 2 {
        Some(AutoDecode::ContentEncoding)
    } else if v == 3 {
        Some(AutoDecode::All)
    } else {
        None
    }
}

impl AutoDecode {
    /// The variant with a wire number, if any.
    pub fn from_number(v: i32) -> (r: Option<Self>)
        ensures
            r == auto_decode_of_number(v),
    {
        match v {
            0 => Some(AutoDecode::Unspecified),
            1 => Some(AutoDecode::TransferEncoding),
            2 => Some(AutoDecode::ContentEncoding),
            3 => Some(AutoDecode::All),
            _ => None,
        }
    }
}

/// Outcome of a digest verification on the wire.
#[derive(Debug, Clone, Copy, PartialEq, Eq, Structural)]
pub enum DigestStatus {
    Unspecified,
    Valid,
    Mismatch,
    NotPresent,
    UnsupportedAlgorithm,
    FormatError,
    Error,
}

/// A record predicate that a client can ask the service to apply.
#[derive(Debug, Clone, Copy, PartialEq, Eq, Structural)]
pub enum BuiltinFilter {
    Unspecified,
    IsHttp,
    IsConcurrent,
    HasBlockDigest,
    HasPayloadDigest,
    IsWarc10,
    IsWarc11,
}

pub open spec fn builtin_filter_of_number(v: i32) -> Option<BuiltinFilter> {
    if v == 0 {
        Some(BuiltinFilter::Unspecified)
    } else if v == 1 {
        Some(BuiltinFilter::IsHttp)
    } else if v == 2 {
        Some(BuiltinFilter::IsConcurrent)
    } else if v == 3 {
        Some(BuiltinFilter::HasBlockDigest)
    } else if v == 4 {
        Some(BuiltinFilter::HasPayloadDigest)
    } else if v == 5 {
        Some(BuiltinFilter::IsWarc10)
    } else if v == 6 {
        Some(BuiltinFilter::IsWarc11)
    } else {
        None
    }
}

impl BuiltinFilter {
    /// The variant with a wire number, if any.
    pub fn from_number(v: i32) -> (r: Option<Self>)
        ensures
            r == builtin_filter_of_number(v),
    {
        match v {
            0 => Some(BuiltinFilter::Unspecified),
            1 => Some(BuiltinFilter::IsHttp),
            2 => Some(BuiltinFilter::IsConcurrent),
            3 => Some(BuiltinFilter::HasBlockDigest),
            4 => Some(BuiltinFilter::HasPayloadDigest),
            5 => Some(BuiltinFilter::IsWarc10),
            6 => Some(BuiltinFilter::IsWarc11),
            _ => None,
        }
    }
}

/// One header field as raw bytes.
#[derive(Debug, Clone, PartialEq, Eq)]
pub struct HeaderField {
    pub name: Vec<u8>,
    pub value: Vec<u8>,
}

/// A header block: the parsed fields in source order plus its verbatim bytes.
#[derive(Debug, Clone, PartialEq, Eq)]
pub struct HeaderBlock {
    pub status_line: Option<Vec<u8>>,
    pub fields: Vec<HeaderField>,
    pub encoding: i32,
    pub raw_block: Vec<u8>,
}

/// Parse and filter options of a `ParseWarc` or `ParseArchive` call.
#[derive(Debug, Clone, PartialEq, Eq, Default)]
pub struct ParseWarcConfig {
    pub parse_http: Option<bool>,
    pub decode_http_payload: i32,
    pub verify_digests: bool,
    pub quirks_mode: bool,
    pub max_header_len: u32,
    pub record_types: Vec<i32>,
    pub min_content_length: Option<u64>,
    pub max_content_length: Option<u64>,
    pub stream_detect: Option<bool>,
    pub input_buffer_size: u32,
    pub filters: Vec<i32>,
    pub include_payload: Option<bool>,
    pub include_headers: Option<bool>,
    pub response_batch_size: u32,
    pub archive_path: String,
    pub payload_chunk_size: u32,
}

/// Everything the service reports of a record before its payload.
#[derive(Debug, Clone, PartialEq, Eq)]
pub struct RecordMetadata {
    pub record_index: u64,
    pub record_type: i32,
    pub warc_headers: Option<HeaderBlock>,
    pub content_length: u64,
    pub stream_pos: u64,
    pub is_http: bool,
    pub http_parsed: bool,
    pub http_headers: Option<HeaderBlock>,
    pub http_content_type: Option<String>,
    pub http_charset: Option<String>,
    pub record_id: Option<String>,
}

/// Opens a record.
#[derive(Debug, Clone, PartialEq, Eq)]
pub struct RecordStart {
    pub metadata: Option<RecordMetadata>,
}

/// A piece of the open record's payload, at `offset` within the payload.
#[derive(Debug, Clone, PartialEq, Eq)]
pub struct PayloadChunk {
    pub offset: u64,
    pub data: Vec<u8>,
}

/// Closes the open record.
#[derive(Debug, Clone, Copy, PartialEq, Eq)]
pub struct RecordEnd {
    pub payload_length: u64,
}

/// A record-level failure; a non-recoverable one ends the stream.
#[derive(Debug, Clone, PartialEq, Eq)]
pub struct RecordError {
    pub stream_pos: u64,
    pub recoverable: bool,
    pub message: String,
}

/// Several protocol events in one message.
#[derive(Debug, PartialEq, Eq)]
pub struct RecordBatch {
    pub items: Vec<ParseWarcResponse>,
}

/// The protocol event a response carries.
#[derive(Debug, PartialEq, Eq)]
pub enum ResponseKind {
    RecordStart(RecordStart),
    PayloadChunk(PayloadChunk),
    RecordEnd(RecordEnd),
    RecordError(RecordError),
    Batch(RecordBatch),
}

/// One message of the `ParseWarc` response stream.
#[derive(Debug, PartialEq, Eq)]
pub struct ParseWarcResponse {
    pub kind: Option<ResponseKind>,
}

/// A kept record with its whole payload.
#[derive(Debug, Clone, PartialEq, Eq, Default)]
pub struct ParsedRecord {
    pub metadata: Option<RecordMetadata>,
    pub payload: Vec<u8>,
}

/// Everything a `ParseArchive` call returns.
#[derive(Debug, Clone, PartialEq, Eq, Default)]
pub struct ParseArchiveResponse {
    pub records: Vec<ParsedRecord>,
    pub errors: Vec<RecordError>,
}

/// A `ParseArchive` call: options and the whole archive.
#[derive(Debug, Clone, PartialEq, Eq, Default)]
pub struct ParseArchiveRequest {
    pub config: Option<ParseWarcConfig>,
    pub archive: Vec<u8>,
}

/// What a `ParseWarc` request message carries.
#[derive(Debug, Clone, PartialEq, Eq)]
pub enum RequestKind {
    Config(ParseWarcConfig),
    Chunk(Vec<u8>),
}

/// One message of the `ParseWarc` request stream.
#[derive(Debug, Clone, PartialEq, Eq)]
pub struct ParseWarcRequest {
    pub kind: Option<RequestKind>,
}

} // verus!
