//! A WARC record: its WARC header block, optional HTTP header block and the
//! reader over its remaining block bytes.
use crate::bytes::{
    bytes_eq, decimal, decimal_bytes, find_from, is_ascii_ws, lemma_line_end_bounds, line_end_from,
    parse_decimal, parse_unsigned, starts_with, trim_ascii, trim_ascii_bounds,
};
use crate::header::{copy_bytes, parse_block_from, set_fields, HeaderEncoding, HeaderMap, HeaderMapModel, Field};
use crate::record_type::{type_from_name, type_name_bytes, WarcRecordType};
use crate::stream_io::{ByteStream, IoError, LimitedBufReadSeek, LimitedModel, StreamModel};
use vstd::prelude::*;
use vstd::utf8::encode_utf8;
use vstd::string::{StrSliceExecFns, StringExecFns};

verus! {

pub open spec fn warc_type_key() -> Seq<u8> {
    seq![87u8, 65, 82, 67, 45, 84, 121, 112, 101]
}

pub open spec fn content_type_key() -> Seq<u8> {
    seq![67u8, 111, 110, 116, 101, 110, 116, 45, 84, 121, 112, 101]
}

pub open spec fn content_length_key() -> Seq<u8> {
    seq![67u8, 111, 110, 116, 101, 110, 116, 45, 76, 101, 110, 103, 116, 104]
}

pub open spec fn application_http() -> Seq<u8> {
    seq![97u8, 112, 112, 108, 105, 99, 97, 116, 105, 111, 110, 47, 104, 116, 116, 112]
}

pub open spec fn warc_1_1() -> Seq<u8> {
    seq![87u8, 65, 82, 67, 47, 49, 46, 49]
}

pub open spec fn warc_1_0() -> Seq<u8> {
    seq![87u8, 65, 82, 67, 47, 49, 46, 48]
}

pub open spec fn warc_0_prefix() -> Seq<u8> {
    seq![87u8, 65, 82, 67, 47, 48, 46]
}

/// A line that starts a WARC record: `WARC/1.1`, `WARC/1.0`, or a legacy
/// (ClueWeb) `WARC/0.x` of at most 9 bytes.
pub open spec fn is_warc_version(t: Seq<u8>) -> bool {
    ||| t == warc_1_1()
    ||| t == warc_1_0()
    ||| (t.len() >= 7 && t.take(7) == warc_0_prefix() && t.len() <= 9)
}

/// Where the search for the first WARC version line ends.
pub enum StartLine {
    /// The version line spans `[start, end)`; `status` is the trimmed line.
    Found { start: int, end: int, status: Seq<u8> },
    /// Only empty (or, in quirks mode, skipped) lines up to the end.
    Eof,
    /// A line that is neither empty nor a version line spans `[start, end)`.
    Invalid { start: int, end: int },
}

/// Search `s` from `pos` for the line that starts a record, skipping empty
/// lines and, in quirks mode, any other line.
pub open spec fn find_warc_start(s: Seq<u8>, pos: int, quirks: bool) -> StartLine
    decreases s.len() - pos,
{
    if pos < 0 || pos >= s.len() {
        StartLine::Eof
    } else {
        let e = line_end_from(s, pos);
        if e <= pos {
            StartLine::Eof
        } else {
            let t = trim_ascii(s.subrange(pos, e));
            if t.len() == 0 {
                find_warc_start(s, e, quirks)
            } else if is_warc_version(t) {
                StartLine::Found { start: pos, end: e, status: t }
            } else if !quirks {
                StartLine::Invalid { start: pos, end: e }
            } else {
                find_warc_start(s, e, quirks)
            }
        }
    }
}

/// Record fields that the WARC headers determine.
pub struct Meta {
    pub record_type: WarcRecordType,
    pub is_http: bool,
    pub content_length: nat,
}

pub open spec fn is_http_content_type(v: Seq<u8>) -> bool {
    v == application_http() || (v.len() >= 17 && v.take(17) == application_http().push(59u8))
}

/// `Content-Length` value; 0 if it is not a decimal number that fits in `usize`.
pub open spec fn content_length_value(v: Seq<u8>) -> nat {
    match parse_unsigned(v, usize::MAX as nat) {
        Some(n) => n,
        None => 0,
    }
}

/// Read `WARC-Type`, `Content-Type` and `Content-Length` (exact, case-sensitive
/// keys) from the fields in order, stopping once three of them were read.
pub open spec fn meta_scan(fields: Seq<Field>, i: int, count: int, m: Meta) -> Meta
    decreases fields.len() - i,
{
    if i < 0 || i >= fields.len() || count >= 3 {
        m
    } else {
        let k = fields[i].0;
        let v = fields[i].1;
        if k == warc_type_key() {
            let t = match type_from_name(v) {
                Some(t) => t,
                None => WarcRecordType::Unknown,
            };
            meta_scan(fields, i + 1, count + 1, Meta { record_type: t, ..m })
        } else if k == content_type_key() {
            meta_scan(fields, i + 1, count + 1, Meta { is_http: is_http_content_type(v), ..m })
        } else if k == content_length_key() {
            meta_scan(fields, i + 1, count + 1, Meta { content_length: content_length_value(v), ..m })
        } else {
            meta_scan(fields, i + 1, count, m)
        }
    }
}

/// Abstract state of a [`WarcRecord`].
pub struct WarcRecordModel {
    pub record_type: WarcRecordType,
    pub headers: HeaderMapModel,
    pub content_length: nat,
    pub is_http: bool,
    pub http_parsed: bool,
    pub http_charset: Option<Seq<char>>,
    pub http_headers: Option<HeaderMapModel>,
    pub reader: Option<LimitedModel>,
    pub reader_original: Option<StreamModel>,
    pub stream_pos: nat,
    pub frozen: bool,
}

/// `b` is `a` after `n` bytes were read from it.
pub open spec fn advanced(a: LimitedModel, n: nat) -> LimitedModel {
    LimitedModel { stream: StreamModel { pos: a.stream.pos + n, ..a.stream }, pos: a.pos + n, ..a }
}

/// `b` reads the bytes of `a`'s stream from `a`'s position plus `n`, limited to `limit` bytes.
pub open spec fn advanced_and_limited(a: LimitedModel, n: nat, limit: nat) -> LimitedModel {
    LimitedModel { stream: StreamModel { pos: a.stream.pos + n, ..a.stream }, limit: limit, pos: 0 }
}

/// State of a record that `new` creates: no type, no headers, no reader.
pub open spec fn empty_model() -> WarcRecordModel {
    WarcRecordModel {
        record_type: WarcRecordType::NoType,
        headers: HeaderMapModel { encoding: HeaderEncoding::Unicode, status_line: None, fields: Seq::empty(), raw: None },
        content_length: 0,
        is_http: false,
        http_parsed: false,
        http_charset: None,
        http_headers: None,
        reader: None,
        reader_original: None,
        stream_pos: 0,
        frozen: false,
    }
}

/// State of record `m` after `attach_reader` with a stream in state `st`:
/// the stream, without a limit, becomes its reader and it is no longer frozen.
pub open spec fn attached_model(m: WarcRecordModel, st: StreamModel) -> WarcRecordModel {
    WarcRecordModel { reader: Some(LimitedModel { stream: st, limit: usize::MAX as nat, pos: 0 }), frozen: false, ..m }
}

/// Outcome of `parse_warc_headers_quirks` on a record in state `old`.
pub open spec fn parse_warc_headers_post(
    old: WarcRecordModel,
    new: WarcRecordModel,
    r: Result<(), IoError>,
    quirks: bool,
) -> bool {
    match old.reader {
        None => r == Err::<(), IoError>(IoError::NoReader) && new == old,
        Some(rd) => {
            let s = rd.remaining();
            let p0 = rd.stream.pos;
            match find_warc_start(s, 0, quirks) {
                StartLine::Eof => {
                    &&& r == Err::<(), IoError>(IoError::UnexpectedEof)
                    &&& new == WarcRecordModel {
                        reader: Some(advanced(rd, s.len())),
                        stream_pos: p0 + s.len(),
                        ..old
                    }
                },
                StartLine::Invalid { start, end } => {
                    &&& r == Err::<(), IoError>(IoError::InvalidHeader)
                    &&& new == WarcRecordModel {
                        reader: Some(advanced(rd, end as nat)),
                        stream_pos: (p0 + start) as nat,
                        ..old
                    }
                },
                StartLine::Found { start, end, status } => {
                    let h0 = HeaderMapModel {
                        encoding: HeaderEncoding::Unicode,
                        status_line: Some(status),
                        fields: Seq::empty(),
                        raw: None,
                    };
                    let (h, block_end) = parse_block_from(s, end, h0, false);
                    let m = meta_scan(
                        h.fields,
                        0,
                        0,
                        Meta {
                            record_type: old.record_type,
                            is_http: old.is_http,
                            content_length: old.content_length,
                        },
                    );
                    &&& r == Ok::<(), IoError>(())
                    &&& new == WarcRecordModel {
                        headers: HeaderMapModel { raw: Some(s.subrange(start, block_end)), ..h },
                        record_type: m.record_type,
                        is_http: m.is_http,
                        content_length: m.content_length,
                        reader: Some(advanced_and_limited(rd, block_end as nat, m.content_length)),
                        stream_pos: (p0 + start) as nat,
                        ..old
                    }
                },
            }
        },
    }
}

/// Result of scanning for the first WARC version line.
enum StartScan {
    Found(usize, usize, Vec<u8>),
    Eof,
    Invalid(usize, usize),
}

/// A WARC record.
pub struct WarcRecord {
    record_type: WarcRecordType,
    headers: HeaderMap,
    content_length: usize,
    is_http: bool,
    http_parsed: bool,
    http_charset: Option<String>,
    http_headers: Option<HeaderMap>,
    reader: Option<LimitedBufReadSeek>,
    reader_original: Option<ByteStream>,
    stream_pos: usize,
    frozen: bool,
}

pub open spec fn opt_text(o: Option<String>) -> Option<Seq<char>> {
    match o {
        Some(s) => Some(s@),
        None => None,
    }
}

pub open spec fn opt_headers(o: Option<HeaderMap>) -> Option<HeaderMapModel> {
    match o {
        Some(h) => Some(h@),
        None => None,
    }
}

pub open spec fn opt_limited(o: Option<LimitedBufReadSeek>) -> Option<LimitedModel> {
    match o {
        Some(r) => Some(r@),
        None => None,
    }
}

pub open spec fn opt_stream(o: Option<ByteStream>) -> Option<StreamModel> {
    match o {
        Some(r) => Some(r@),
        None => None,
    }
}

impl View for WarcRecord {
    type V = WarcRecordModel;

    closed spec fn view(&self) -> WarcRecordModel {
        WarcRecordModel {
            record_type: self.record_type,
            headers: self.headers@,
            content_length: self.content_length as nat,
            is_http: self.is_http,
            http_parsed: self.http_parsed,
            http_charset: opt_text(self.http_charset),
            http_headers: opt_headers(self.http_headers),
            reader: opt_limited(self.reader),
            reader_original: opt_stream(self.reader_original),
            stream_pos: self.stream_pos as nat,
            frozen: self.frozen,
        }
    }
}

/// A record whose attached reader (if any) keeps its position within its
/// limit, and whose HTTP charset, if any, is an encoding label.
pub open spec fn record_wf(m: WarcRecordModel) -> bool {
    &&& m.content_length <= usize::MAX
    &&& (m.http_charset matches Some(c) ==> crate::codec::is_encoding_label(c))
    &&& m.stream_pos <= usize::MAX
    &&& (m.reader matches Some(r) ==> r.wf() && r.limit <= usize::MAX && r.stream.pos <= usize::MAX
        && r.stream.data.len() <= usize::MAX)
}

fn scan_warc_start(s: &[u8], quirks: bool) -> (r: StartScan)
    ensures
        match (r, find_warc_start(s@, 0, quirks)) {
            (StartScan::Found(a, b, t), StartLine::Found { start, end, status }) => a == start && b == end
                && t@ == status,
            (StartScan::Eof, StartLine::Eof) => true,
            (StartScan::Invalid(a, b), StartLine::Invalid { start, end }) => a == start && b == end,
            _ => false,
        },
        match r {
            StartScan::Found(a, b, _) => a < b <= s@.len(),
            StartScan::Invalid(a, b) => a < b <= s@.len(),
            StartScan::Eof => true,
        },
{
    let v11: [u8; 8] = [87, 65, 82, 67, 47, 49, 46, 49];
    let v10: [u8; 8] = [87, 65, 82, 67, 47, 49, 46, 48];
    let v0: [u8; 7] = [87, 65, 82, 67, 47, 48, 46];
    assert(v11@ =~= warc_1_1());
    assert(v10@ =~= warc_1_0());
    assert(v0@ =~= warc_0_prefix());
    let mut pos: usize = 0;
    loop
        invariant
            pos <= s@.len(),
            v11@ == warc_1_1(),
            v10@ == warc_1_0(),
            v0@ == warc_0_prefix(),
            find_warc_start(s@, 0, quirks) == find_warc_start(s@, pos as int, quirks),
        decreases s@.len() - pos,
    {
        if pos >= s.len() {
            return StartScan::Eof;
        }
        let f = crate::bytes::find_byte_from(s, 10, pos);
        let e = if f < s.len() {
            f + 1
        } else {
            s.len()
        };
        proof {
            lemma_line_end_bounds(s@, pos as int);
        }
        let line = vstd::slice::slice_subrange(s, pos, e);
        let (a, b) = trim_ascii_bounds(line);
        let t = vstd::slice::slice_subrange(line, a, b);
        if t.len() == 0 {
            pos = e;
        } else if bytes_eq(t, v11.as_slice()) || bytes_eq(t, v10.as_slice()) || (starts_with(
            t,
            v0.as_slice(),
        ) && t.len() <= 9) {
            return StartScan::Found(pos, e, copy_bytes(t));
        } else if !quirks {
            return StartScan::Invalid(pos, e);
        } else {
            pos = e;
        }
    }
}

impl WarcRecord {
    /// Create a new empty WARC record.
    pub fn new() -> (r: Self)
        ensures
            r@ == empty_model(),
            record_wf(r@),
    {
        WarcRecord {
            record_type: WarcRecordType::NoType,
            headers: HeaderMap::new(HeaderEncoding::Unicode),
            content_length: 0,
            is_http: false,
            http_parsed: false,
            http_charset: None,
            http_headers: None,
            reader: None,
            reader_original: None,
            stream_pos: 0,
            frozen: false,
        }
    }

    /// Attach a buffered reader to this [`WarcRecord`] instance (without a limit).
    pub fn attach_reader(&mut self, reader: ByteStream)
        requires
            record_wf(old(self)@),
        ensures
            record_wf(final(self)@),
            final(self)@ == attached_model(old(self)@, reader@),
    {
        proof {
            reader.lemma_bounds();
        }
        self.reader = Some(LimitedBufReadSeek::new(reader, None));
        self.frozen = false;
    }

    /// Start parsing the WARC record header block. Requires a stream to be set.
    pub fn parse_warc_headers(&mut self) -> (r: Result<(), IoError>)
        requires
            record_wf(old(self)@),
        ensures
            record_wf(final(self)@),
            parse_warc_headers_post(old(self)@, final(self)@, r, false),
    {
        self.parse_warc_headers_quirks(false)
    }

    /// Start parsing the WARC record header block. Requires a stream to be set.
    ///
    /// Skips empty lines before the next `WARC/*` version line; in quirks mode
    /// any other line before it as well. Limits the reader to the
    /// `Content-Length` bytes that follow the header block.
    pub fn parse_warc_headers_quirks(&mut self, quirks_mode: bool) -> (r: Result<(), IoError>)
        requires
            record_wf(old(self)@),
        ensures
            record_wf(final(self)@),
            parse_warc_headers_post(old(self)@, final(self)@, r, quirks_mode),
    {
        let reader = match &mut self.reader {
            Some(reader) => reader,
            None => {
                return Err(IoError::NoReader);
            },
        };
        let p0 = match reader.real_stream_position() {
            Ok(p) => p,
            Err(e) => {
                return Err(e);
            },
        };
        let buf = reader.fill_buf();
        let scan = scan_warc_start(buf, quirks_mode);
        let ghost s = buf@;
        match scan {
            StartScan::Eof => {
                let n = buf.len();
                reader.consume(n);
                self.stream_pos = reader.inner_position();
                Err(IoError::UnexpectedEof)
            },
            StartScan::Invalid(start, end) => {
                reader.consume(end);
                self.stream_pos = p0 as usize + start;
                Err(IoError::InvalidHeader)
            },
            StartScan::Found(start, end, status) => {
                let mut headers = HeaderMap::new(HeaderEncoding::Unicode);
                headers.set_status_line_raw(status);
                let block_end = headers.parse_block(buf, end, false);
                headers.set_raw_block(crate::header::copy_bytes(vstd::slice::slice_subrange(buf, start, block_end)));
                reader.consume(block_end);
                self.stream_pos = p0 as usize + start;
                self.headers = headers;
                self.scan_metadata();
                let limit = self.content_length;
                match &mut self.reader {
                    Some(reader) => reader.set_limit(limit),
                    None => {},
                }
                Ok(())
            },
        }
    }

    /// Read record type, HTTP flag and content length from the WARC headers.
    fn scan_metadata(&mut self)
        ensures
            ({
                let m = meta_scan(
                    old(self)@.headers.fields,
                    0,
                    0,
                    Meta {
                        record_type: old(self)@.record_type,
                        is_http: old(self)@.is_http,
                        content_length: old(self)@.content_length,
                    },
                );
                final(self)@ == WarcRecordModel {
                    record_type: m.record_type,
                    is_http: m.is_http,
                    content_length: m.content_length,
                    ..old(self)@
                }
            }),
    {
        let wt: [u8; 9] = [87, 65, 82, 67, 45, 84, 121, 112, 101];
        let ct: [u8; 12] = [67, 111, 110, 116, 101, 110, 116, 45, 84, 121, 112, 101];
        let cl: [u8; 14] = [67, 111, 110, 116, 101, 110, 116, 45, 76, 101, 110, 103, 116, 104];
        let ah: [u8; 16] = [97, 112, 112, 108, 105, 99, 97, 116, 105, 111, 110, 47, 104, 116, 116, 112];
        let ahs: [u8; 17] = [97, 112, 112, 108, 105, 99, 97, 116, 105, 111, 110, 47, 104, 116, 116, 112, 59];
        assert(wt@ =~= warc_type_key());
        assert(ct@ =~= content_type_key());
        assert(cl@ =~= content_length_key());
        assert(ah@ =~= application_http());
        assert(ahs@ =~= application_http().push(59u8));
        let items = self.headers.items_bytes();
        let ghost f = self@.headers.fields;
        let ghost m0 = Meta {
            record_type: self.record_type,
            is_http: self.is_http,
            content_length: self.content_length as nat,
        };
        let mut record_type = self.record_type;
        let mut is_http = self.is_http;
        let mut content_length = self.content_length;
        let mut parse_count: usize = 0;
        let mut i: usize = 0;
        while i < items.len() && parse_count < 3
            invariant
                crate::header::fields_of(items@) == f,
                i <= items@.len(),
                parse_count <= 3,
                wt@ == warc_type_key(),
                ct@ == content_type_key(),
                cl@ == content_length_key(),
                ah@ == application_http(),
                ahs@ == application_http().push(59u8),
                meta_scan(f, 0, 0, m0) == meta_scan(
                    f,
                    i as int,
                    parse_count as int,
                    Meta { record_type, is_http, content_length: content_length as nat },
                ),
            decreases items@.len() - i,
        {
            let k = items[i].0.as_slice();
            let v = items[i].1.as_slice();
            assert(f[i as int] == (k@, v@));
            if bytes_eq(k, wt.as_slice()) {
                record_type = match WarcRecordType::try_from_bytes(v) {
                    Ok(t) => t,
                    Err(_) => WarcRecordType::Unknown,
                };
                parse_count = parse_count + 1;
            } else if bytes_eq(k, ct.as_slice()) {
                is_http = bytes_eq(v, ah.as_slice()) || starts_with(v, ahs.as_slice());
                parse_count = parse_count + 1;
            } else if bytes_eq(k, cl.as_slice()) {
                content_length = match parse_decimal(v, usize::MAX as u64) {
                    Some(n) => n as usize,
                    None => 0,
                };
                parse_count = parse_count + 1;
            }
            i = i + 1;
        }
        self.record_type = record_type;
        self.is_http = is_http;
        self.content_length = content_length;
    }

    /// Create a new WARC record instance from a buffered reader, with all
    /// WARC headers parsed.
    pub fn from_reader(reader: ByteStream) -> (r: Result<Self, IoError>)
        ensures
            ({
                let fresh = WarcRecordModel {
                    record_type: WarcRecordType::NoType,
                    headers: HeaderMapModel {
                        encoding: HeaderEncoding::Unicode,
                        status_line: None,
                        fields: Seq::empty(),
                        raw: None,
                    },
                    content_length: 0,
                    is_http: false,
                    http_parsed: false,
                    http_charset: None,
                    http_headers: None,
                    reader: Some(LimitedModel { stream: reader@, limit: usize::MAX as nat, pos: 0 }),
                    reader_original: None,
                    stream_pos: 0,
                    frozen: false,
                };
                match r {
                    Ok(rec) => record_wf(rec@) && parse_warc_headers_post(fresh, rec@, Ok(()), false),
                    Err(e) => exists|after: WarcRecordModel| parse_warc_headers_post(fresh, after, Err(e), false),
                }
            }),
    {
        let mut record = WarcRecord::new();
        record.attach_reader(reader);
        match record.parse_warc_headers() {
            Ok(()) => Ok(record),
            Err(e) => Err(e),
        }
    }

    /// Create a new frozen WARC record instance from a byte buffer, with all
    /// WARC headers parsed.
    pub fn from_bytes(payload: Vec<u8>) -> (r: Result<Self, IoError>)
        ensures
            ({
                let fresh = fresh_model(StreamModel { data: payload@, pos: 0 });
                match r {
                    Ok(rec) => record_wf(rec@) && exists|after: WarcRecordModel|
                        parse_warc_headers_post(fresh, after, Ok(()), false) && rec@ == (WarcRecordModel {
                            frozen: true,
                            ..after
                        }),
                    Err(e) => exists|after: WarcRecordModel| parse_warc_headers_post(fresh, after, Err(e), false),
                }
            }),
    {
        let reader = ByteStream::new(payload);
        match WarcRecord::from_reader(reader) {
            Ok(mut record) => {
                let ghost after = record@;
                record.frozen = true;
                Ok(record)
            },
            Err(e) => Err(e),
        }
    }

    /// Set the WARC payload as bytes: replaces the attached reader by one over
    /// `payload`, sets `Content-Length`, and marks the record as frozen.
    pub fn set_bytes_payload(&mut self, payload: Vec<u8>)
        requires
            record_wf(old(self)@),
        ensures
            record_wf(final(self)@),
            final(self)@ == (WarcRecordModel {
                content_length: payload@.len(),
                reader: Some(
                    LimitedModel {
                        stream: StreamModel { data: payload@, pos: 0 },
                        limit: payload@.len(),
                        pos: 0,
                    },
                ),
                headers: HeaderMapModel {
                    fields: set_fields(old(self)@.headers.fields, content_length_key(), decimal(payload@.len())),
                    raw: None,
                    ..old(self)@.headers
                },
                frozen: true,
                ..old(self)@
            }),
    {
        let len = payload.len();
        self.content_length = len;
        let stream = ByteStream::new(payload);
        proof {
            stream.lemma_bounds();
        }
        self.reader = Some(LimitedBufReadSeek::new(stream, Some(len)));
        let cl: [u8; 14] = [67, 111, 110, 116, 101, 110, 116, 45, 76, 101, 110, 103, 116, 104];
        assert(cl@ =~= content_length_key());
        let value = decimal_bytes(len);
        self.headers.set_bytes(cl.as_slice(), value.as_slice());
        self.frozen = true;
    }

    /// Detach an attached buffered reader and hand ownership back to the caller:
    /// the original reader of a frozen record, else the attached one.
    pub fn detach_reader(&mut self) -> (r: Option<ByteStream>)
        requires
            record_wf(old(self)@),
        ensures
            record_wf(final(self)@),
            match old(self)@.reader_original {
                Some(orig) => r matches Some(b) && b@ == orig && final(self)@ == (WarcRecordModel {
                    reader_original: None,
                    frozen: false,
                    ..old(self)@
                }),
                None => match old(self)@.reader {
                    Some(rd) => r matches Some(b) && b@ == rd.stream && final(self)@ == (WarcRecordModel {
                        reader: None,
                        frozen: false,
                        ..old(self)@
                    }),
                    None => r is None && final(self)@ == (WarcRecordModel { frozen: false, ..old(self)@ }),
                },
            },
    {
        self.frozen = false;
        if self.reader_original.is_some() {
            self.reader_original.take()
        } else if self.reader.is_some() {
            match self.reader.take() {
                Some(rd) => Some(rd.into_inner()),
                None => None,
            }
        } else {
            None
        }
    }

    /// Get a mutable reference to the attached buffered reader.
    pub fn reader_mut(&mut self) -> (r: Option<&mut LimitedBufReadSeek>)
        ensures
            match r {
                Some(rd) => {
                    &&& old(self)@.reader == Some(rd@)
                    &&& final(self)@ == (WarcRecordModel { reader: Some(final(rd)@), ..old(self)@ })
                },
                None => old(self)@.reader is None && final(self)@ == old(self)@,
            },
    {
        match &mut self.reader {
            Some(rd) => Some(rd),
            None => None,
        }
    }

    /// Record type (same as `headers['WARC-Type']`).
    pub fn record_type(&self) -> (r: WarcRecordType)
        ensures
            r == self@.record_type,
    {
        self.record_type
    }

    /// Set the WARC record type (and the `WARC-Type` header).
    pub fn set_record_type(&mut self, record_type: WarcRecordType)
        ensures
            final(self)@ == (WarcRecordModel {
                record_type,
                headers: HeaderMapModel {
                    fields: set_fields(
                        old(self)@.headers.fields,
                        warc_type_key(),
                        crate::record_type::type_name_bytes(record_type),
                    ),
                    raw: None,
                    ..old(self)@.headers
                },
                ..old(self)@
            }),
    {
        self.record_type = record_type;
        let wt: [u8; 9] = [87, 65, 82, 67, 45, 84, 121, 112, 101];
        assert(wt@ =~= warc_type_key());
        let name = record_type.name_bytes();
        self.headers.set_bytes(wt.as_slice(), name.as_slice());
    }

    /// "Freeze" a record by baking in the remaining payload stream contents and return
    /// ownership of the attached reader instance.
    ///
    /// A frozen record reads its block from an in-memory copy. Calling this on
    /// a frozen record only hands out the original reader if it is still kept.
    pub fn freeze(&mut self) -> (r: Result<Option<ByteStream>, IoError>)
        requires
            record_wf(old(self)@),
        ensures
            record_wf(final(self)@),
            if old(self)@.frozen {
                r matches Ok(o) && opt_stream(o) == old(self)@.reader_original && final(self)@ == (
                WarcRecordModel { reader_original: None, ..old(self)@ })
            } else {
                match old(self)@.reader {
                    None => r == Err::<Option<ByteStream>, IoError>(IoError::NoReader) && final(self)@ == old(
                        self,
                    )@,
                    Some(rd) => r matches Ok(o) && o matches Some(b) && b@ == advanced(
                        rd,
                        rd.remaining().len(),
                    ).stream && final(self)@ == (WarcRecordModel {
                        reader_original: None,
                        ..frozen_model(old(self)@)
                    }),
                }
            },
    {
        if self.frozen {
            return Ok(self.reader_original.take());
        }
        match self._freeze_internal() {
            Ok(()) => {},
            Err(e) => {
                return Err(e);
            },
        }
        Ok(self.reader_original.take())
    }

    /// Internal [`Self::freeze()`]: keeps the original reader in `reader_original`.
    fn _freeze_internal(&mut self) -> (r: Result<(), IoError>)
        requires
            record_wf(old(self)@),
        ensures
            record_wf(final(self)@),
            freeze_post(old(self)@, final(self)@, r),
    {
        if self.frozen {
            return Ok(());
        }
        let reader = match &mut self.reader {
            Some(reader) => reader,
            None => {
                return Err(IoError::NoReader);
            },
        };
        let mut buf: Vec<u8> = Vec::new();
        let n = reader.read_to_end(&mut buf);
        assert(buf@ =~= old(self)@.reader->0.remaining());
        let new_reader = ByteStream::new(buf);
        let original = reader.replace_reader(new_reader);
        self.content_length = n;
        self.reader_original = Some(original);
        self.frozen = true;
        Ok(())
    }

    /// Record ID (same as `headers().get("WARC-Record-ID")`).
    pub fn record_id(&self) -> (r: Option<String>)
        ensures
            match crate::header::first_value(self@.headers.fields, encode_utf8("WARC-Record-ID"@)) {
                Some(v) => r is Some && r->0@ == crate::header::decoded(self@.headers.encoding, v),
                None => r is None,
            },
    {
        self.headers.get("WARC-Record-ID")
    }

    /// WARC record headers.
    pub fn headers(&self) -> (r: &HeaderMap)
        ensures
            r@ == self@.headers,
    {
        &self.headers
    }

    /// WARC record headers (mutable).
    pub fn headers_mut(&mut self) -> (r: &mut HeaderMap)
        ensures
            r@ == old(self)@.headers,
            final(self)@ == (WarcRecordModel { headers: final(r)@, ..old(self)@ }),
    {
        &mut self.headers
    }

    /// Whether record is an HTTP record.
    pub fn is_http(&self) -> (r: bool)
        ensures
            r == self@.is_http,
    {
        self.is_http
    }

    /// Set whether this record is an HTTP record; an HTTP record also gets
    /// the matching `Content-Type`.
    pub fn set_is_http(&mut self, is_http: bool)
        ensures
            final(self)@ == (WarcRecordModel {
                is_http,
                headers: if is_http {
                    HeaderMapModel {
                        fields: set_fields(
                            old(self)@.headers.fields,
                            content_type_key(),
                            http_content_type_for(old(self)@.record_type),
                        ),
                        raw: None,
                        ..old(self)@.headers
                    }
                } else {
                    old(self)@.headers
                },
                ..old(self)@
            }),
    {
        self.is_http = is_http;
        if is_http {
            let ct: [u8; 12] = [67, 111, 110, 116, 101, 110, 116, 45, 84, 121, 112, 101];
            assert(ct@ =~= content_type_key());
            let value: Vec<u8> = match self.record_type {
                WarcRecordType::Request => vec![
                    97u8, 112, 112, 108, 105, 99, 97, 116, 105, 111, 110, 47, 104, 116, 116, 112, 59, 32,
                    109, 115, 103, 116, 121, 112, 101, 61, 114, 101, 113, 117, 101, 115, 116,
                ],
                WarcRecordType::Response => vec![
                    97u8, 112, 112, 108, 105, 99, 97, 116, 105, 111, 110, 47, 104, 116, 116, 112, 59, 32,
                    109, 115, 103, 116, 121, 112, 101, 61, 114, 101, 115, 112, 111, 110, 115, 101,
                ],
                _ => vec![97u8, 112, 112, 108, 105, 99, 97, 116, 105, 111, 110, 47, 104, 116, 116, 112],
            };
            assert(value@ =~= http_content_type_for(self.record_type));
            self.headers.set_bytes(ct.as_slice(), value.as_slice());
        }
    }

    /// Whether HTTP headers have been parsed.
    pub fn is_http_parsed(&self) -> (r: bool)
        ensures
            r == self@.http_parsed,
    {
        self.http_parsed
    }

    /// HTTP headers if record is an HTTP record and HTTP headers have been parsed yet.
    pub fn http_headers(&self) -> (r: Option<&HeaderMap>)
        ensures
            match self@.http_headers {
                Some(h) => r matches Some(x) && x@ == h,
                None => r is None,
            },
    {
        match &self.http_headers {
            Some(h) => Some(h),
            None => None,
        }
    }

    /// HTTP charset/encoding as returned by the server or `None` if no valid
    /// charset is set. A returned string is the label of an encoding.
    pub fn http_charset(&self) -> (r: Option<&str>)
        ensures
            match self@.http_charset {
                Some(c) => r matches Some(x) && x@ == c,
                None => r is None,
            },
            record_wf(self@) ==> (r matches Some(x) ==> crate::codec::is_encoding_label(x@)),
    {
        match &self.http_charset {
            Some(c) => Some(c.as_str()),
            None => None,
        }
    }

    /// Remaining WARC record length in bytes (not necessarily the same as the `Content-Length` header).
    pub fn content_length(&self) -> (r: usize)
        ensures
            r == self@.content_length,
    {
        self.content_length
    }

    /// WARC record start offset in the original (uncompressed) stream.
    pub fn stream_pos(&self) -> (r: usize)
        ensures
            r == self@.stream_pos,
    {
        self.stream_pos
    }

    /// Whether the record has been frozen.
    pub fn is_frozen(&self) -> (r: bool)
        ensures
            r == self@.frozen,
    {
        self.frozen
    }

    /// Initialize mandatory headers in a fresh WARC record instance: status
    /// line `WARC/1.1`, then `WARC-Type`, `WARC-Date` (the current time),
    /// `WARC-Record-ID` (`record_urn` in angle brackets, or a random
    /// `urn:uuid:` URN if unset) and `Content-Length`.
    ///
    /// `AnyType` and `NoType` are recorded as `Unknown`; without a type the
    /// record has `NoType` (written as `unknown`). When the system clock lies
    /// before the Unix epoch, or a random URN is needed and the random source
    /// fails, the record is left as it is and the error says which.
    pub fn init_headers(
        &mut self,
        content_length: usize,
        record_type: Option<WarcRecordType>,
        record_urn: Option<&[u8]>,
    ) -> (r: Result<(), IoError>)
        requires
            record_wf(old(self)@),
        ensures
            record_wf(final(self)@),
            match r {
                Err(e) => final(self)@ == old(self)@ && (e == IoError::ClockUnavailable || (e
                    == IoError::RandomUnavailable && record_urn is None)),
                Ok(()) => {
                    &&& final(self)@ == (WarcRecordModel {
                        record_type: initial_type(record_type),
                        headers: final(self)@.headers,
                        content_length: content_length as nat,
                        ..old(self)@
                    })
                    &&& exists|date: Seq<u8>, id: Seq<u8>|
                        #[trigger] initial_headers(
                            old(self)@.headers.encoding,
                            initial_type(record_type),
                            date,
                            id,
                            content_length as nat,
                        ) == final(self)@.headers && clock_date(date) && match record_urn {
                            Some(u) => id == bracketed(encode_utf8(crate::codec::utf8_lossy_decoded(u@))),
                            None => exists|b: Seq<u8>|
                                b.len() == 16 && crate::ids::is_uuid_text(#[trigger] crate::ids::uuid_v4_text(b))
                                    && id == bracketed(urn_uuid_prefix() + encode_utf8(crate::ids::uuid_v4_text(b))),
                        }
                },
            },
    {
        let id: Vec<u8> = match record_urn {
            Some(urn) => {
                let text = crate::codec::utf8_lossy(urn);
                let mut v: Vec<u8> = vec![60u8];
                crate::header::push_all(&mut v, text.as_str().as_bytes());
                v.push(62u8);
                assert(v@ =~= bracketed(encode_utf8(crate::codec::utf8_lossy_decoded(urn@))));
                v
            },
            None => {
                let bytes = match crate::ids::random_bytes() {
                    Some(b) => b,
                    None => {
                        return Err(IoError::RandomUnavailable);
                    },
                };
                let t = crate::ids::uuid_text(bytes);
                let mut v: Vec<u8> = vec![60u8, 117, 114, 110, 58, 117, 117, 105, 100, 58];
                crate::header::push_all(&mut v, t.as_str().as_bytes());
                v.push(62u8);
                assert(v@ =~= bracketed(urn_uuid_prefix() + encode_utf8(t@)));
                assert(bytes@.len() == 16);
                v
            },
        };
        let secs = match crate::ids::unix_seconds_now() {
            Some(s) => s,
            None => {
                return Err(IoError::ClockUnavailable);
            },
        };
        let date = match crate::ids::format_utc(secs, "%Y-%m-%dT%H:%M:%SZ") {
            Some(d) => d,
            None => {
                return Err(IoError::ClockUnavailable);
            },
        };
        self.record_type = match record_type {
            Some(WarcRecordType::AnyType) => WarcRecordType::Unknown,
            Some(WarcRecordType::NoType) => WarcRecordType::Unknown,
            Some(t) => t,
            None => WarcRecordType::NoType,
        };
        let ghost enc = self.headers@.encoding;
        self.headers.clear();
        let status: [u8; 8] = [87, 65, 82, 67, 47, 49, 46, 49];
        proof {
            assert(status@ =~= warc_1_1());
            crate::header_laws::lemma_trim_clean(warc_1_1());
            crate::header_laws::lemma_sanitized_identity(warc_1_1(), true);
        }
        self.headers.set_status_line(status.as_slice());
        let type_key: [u8; 9] = [87, 65, 82, 67, 45, 84, 121, 112, 101];
        let name = self.record_type.name_bytes();
        proof {
            assert(type_key@ =~= warc_type_key());
            crate::header_laws::lemma_trim_clean(warc_type_key());
            lemma_type_name_trimmed(self.record_type);
        }
        self.headers._append_bytes_no_sanitize(type_key.as_slice(), name.as_slice());
        let date_key: [u8; 9] = [87, 65, 82, 67, 45, 68, 97, 116, 101];
        proof {
            assert(date_key@ =~= warc_date_key());
            crate::header_laws::lemma_trim_clean(warc_date_key());
        }
        self.headers._append_bytes_no_sanitize(date_key.as_slice(), date.as_str().as_bytes());
        let ghost date_value = trim_ascii(encode_utf8(date@));
        let id_key: [u8; 14] = [87, 65, 82, 67, 45, 82, 101, 99, 111, 114, 100, 45, 73, 68];
        proof {
            assert(id_key@ =~= record_id_key());
            crate::header_laws::lemma_trim_clean(record_id_key());
            crate::header_laws::lemma_trim_clean(id@);
        }
        self.headers._append_bytes_no_sanitize(id_key.as_slice(), id.as_slice());
        let cl_key: [u8; 14] = [67, 111, 110, 116, 101, 110, 116, 45, 76, 101, 110, 103, 116, 104];
        let cl = decimal_bytes(content_length);
        proof {
            assert(cl_key@ =~= content_length_key());
            crate::header_laws::lemma_trim_clean(content_length_key());
            crate::bytes::lemma_decimal_parse(content_length as nat);
            assert(crate::bytes::is_digit(cl@[0]));
            assert(crate::bytes::is_digit(cl@[cl@.len() - 1]));
            crate::header_laws::lemma_trim_clean(cl@);
        }
        self.headers._append_bytes_no_sanitize(cl_key.as_slice(), cl.as_slice());
        self.content_length = content_length;
        let ghost expected = initial_headers(enc, self.record_type, date_value, id@, content_length as nat);
        assert(self.headers@.status_line == expected.status_line);
        assert(self.headers@.encoding == expected.encoding);
        assert(self.headers@.fields[0] == expected.fields[0]);
        assert(self.headers@.fields[1] == expected.fields[1]);
        assert(self.headers@.fields[2] == expected.fields[2]);
        assert(self.headers@.fields[3] == expected.fields[3]);
        assert(self.headers@.fields =~= expected.fields);
        assert(clock_date(date_value)) by {
            assert(crate::ids::utc_date_text(secs) == Some(date@));
        }
        Ok(())
    }
}

/// `date` is a `WARC-Date` value read from the clock: what `chrono` renders
/// for some time in whole seconds after the Unix epoch, with the
/// `YYYY-MM-DDThh:mm:ssZ` shape before the year 10000.
pub open spec fn clock_date(date: Seq<u8>) -> bool {
    exists|secs: u64|
        match #[trigger] crate::ids::utc_date_text(secs) {
            Some(t) => (secs < crate::ids::four_digit_year_limit() ==> crate::ids::is_warc_date_text(t)) && date
                == trim_ascii(encode_utf8(t)),
            None => false,
        }
}

/// Record type that [`WarcRecord::init_headers`] gives a record asked to have `t`.
pub open spec fn initial_type(t: Option<WarcRecordType>) -> WarcRecordType {
    match t {
        Some(WarcRecordType::AnyType) => WarcRecordType::Unknown,
        Some(WarcRecordType::NoType) => WarcRecordType::Unknown,
        Some(t) => t,
        None => WarcRecordType::NoType,
    }
}

pub open spec fn warc_date_key() -> Seq<u8> {
    seq![87u8, 65, 82, 67, 45, 68, 97, 116, 101]
}

pub open spec fn record_id_key() -> Seq<u8> {
    seq![87u8, 65, 82, 67, 45, 82, 101, 99, 111, 114, 100, 45, 73, 68]
}

/// `urn:uuid:`
pub open spec fn urn_uuid_prefix() -> Seq<u8> {
    seq![117u8, 114, 110, 58, 117, 117, 105, 100, 58]
}

/// `urn` in angle brackets.
pub open spec fn bracketed(urn: Seq<u8>) -> Seq<u8> {
    seq![60u8] + urn + seq![62u8]
}

/// Headers of a freshly initialised record: status line `WARC/1.1` and the
/// fields `WARC-Type`, `WARC-Date`, `WARC-Record-ID`, `Content-Length`.
pub open spec fn initial_headers(
    encoding: HeaderEncoding,
    t: WarcRecordType,
    date: Seq<u8>,
    id: Seq<u8>,
    content_length: nat,
) -> HeaderMapModel {
    HeaderMapModel {
        encoding,
        status_line: Some(warc_1_1()),
        fields: seq![
            (warc_type_key(), type_name_bytes(t)),
            (warc_date_key(), date),
            (record_id_key(), id),
            (content_length_key(), decimal(content_length)),
        ],
        raw: None,
    }
}

proof fn lemma_type_name_trimmed(t: WarcRecordType)
    ensures
        trim_ascii(type_name_bytes(t)) == type_name_bytes(t),
{
    crate::header_laws::lemma_trim_clean(type_name_bytes(t));
}

/// Unicode white space (`char::is_whitespace`).
pub open spec fn is_unicode_ws(c: char) -> bool {
    let u = c as u32;
    ||| (9 <= u && u <= 13)
    ||| u == 32
    ||| u == 0x85
    ||| u == 0xA0
    ||| u == 0x1680
    ||| (0x2000 <= u && u <= 0x200A)
    ||| u == 0x2028
    ||| u == 0x2029
    ||| u == 0x202F
    ||| u == 0x205F
    ||| u == 0x3000
}

/// Index of the first `c` at or after `i`, or `s.len()`.
pub open spec fn find_char_from(s: Seq<char>, c: char, i: int) -> int
    decreases s.len() - i,
{
    if i < 0 || i >= s.len() {
        s.len() as int
    } else if s[i] == c {
        i
    } else {
        find_char_from(s, c, i + 1)
    }
}

pub open spec fn wtrim_start_from(s: Seq<char>, i: int) -> int
    decreases s.len() - i,
{
    if 0 <= i < s.len() && is_unicode_ws(s[i]) {
        wtrim_start_from(s, i + 1)
    } else {
        i
    }
}

pub open spec fn wtrim_end_from(s: Seq<char>, lo: int, j: int) -> int
    decreases j - lo,
{
    if lo < j && j <= s.len() && is_unicode_ws(s[j - 1]) {
        wtrim_end_from(s, lo, j - 1)
    } else {
        j
    }
}

/// `str::trim`: text without leading and trailing Unicode white space.
pub open spec fn trim_unicode(s: Seq<char>) -> Seq<char> {
    let a = wtrim_start_from(s, 0);
    s.subrange(a, wtrim_end_from(s, a, s.len() as int))
}

/// Plain content type of an HTTP header block: the `Content-Type` value up
/// to the first `';'`, trimmed.
pub open spec fn content_type_text(h: HeaderMapModel) -> Option<Seq<char>> {
    match crate::header::first_value(h.fields, encode_utf8("Content-Type"@)) {
        None => None,
        Some(v) => {
            let t = crate::header::decoded(h.encoding, v);
            Some(trim_unicode(t.take(find_char_from(t, ';', 0))))
        },
    }
}

/// Index of the first occurrence of `pat` at or after `i`, or `s.len()`.
pub open spec fn find_sub_from(s: Seq<u8>, pat: Seq<u8>, i: int) -> int
    decreases s.len() + 1 - i,
{
    if i < 0 || i + pat.len() > s.len() {
        s.len() as int
    } else if s.subrange(i, i + pat.len()) == pat {
        i
    } else {
        find_sub_from(s, pat, i + 1)
    }
}

pub open spec fn charset_key() -> Seq<u8> {
    seq![99u8, 104, 97, 114, 115, 101, 116, 61]
}

/// Charset named in the `content-type` of an HTTP header block: what follows
/// `charset=` in the lower-cased value, up to `';'`, trimmed, if it is the
/// label of an encoding.
pub open spec fn charset_of(h: HeaderMapModel) -> Option<Seq<char>> {
    match crate::header::first_value(h.fields, encode_utf8("content-type"@)) {
        None => None,
        Some(v) => {
            let ct = crate::bytes::lower_seq(encode_utf8(crate::header::decoded(h.encoding, v)));
            let p = find_sub_from(ct, charset_key(), 0);
            if p >= ct.len() {
                None
            } else {
                let rest = ct.subrange(p + 8, ct.len() as int);
                let part = rest.take(find_from(rest, 59u8, 0));
                let label = crate::codec::utf8_lossy_decoded(trim_ascii(part));
                if crate::codec::is_encoding_label(label) {
                    Some(label)
                } else {
                    None
                }
            }
        },
    }
}

/// State after `parse_http` on a record in state `old` that has a reader.
pub open spec fn http_parsed_model(old: WarcRecordModel) -> WarcRecordModel {
    let rd = old.reader->0;
    let h0 = HeaderMapModel { encoding: HeaderEncoding::Latin1, status_line: None, fields: Seq::empty(), raw: None };
    let (h, n) = parse_block_from(rd.remaining(), 0, h0, true);
    WarcRecordModel {
        http_headers: Some(HeaderMapModel { raw: Some(rd.remaining().take(n)), ..h }),
        http_charset: match charset_of(h) {
            Some(c) => Some(c),
            None => old.http_charset,
        },
        content_length: (old.content_length - n) as nat,
        reader: Some(advanced(rd, n as nat)),
        http_parsed: true,
        ..old
    }
}

/// Whether `parse_http` on a record in state `old` has work to do.
pub open spec fn http_pending(old: WarcRecordModel) -> bool {
    !old.http_parsed && old.is_http
}

/// Length of the HTTP header block that a record in state `m` would parse:
/// the bytes up to and including the empty line that ends it.
pub open spec fn http_header_len(m: WarcRecordModel) -> int {
    parse_block_from(
        m.reader->0.remaining(),
        0,
        HeaderMapModel { encoding: HeaderEncoding::Latin1, status_line: None, fields: Seq::empty(), raw: None },
        true,
    ).1
}

/// HTTP headers are still to be parsed and their block is longer than `max` bytes.
pub open spec fn http_too_long(m: WarcRecordModel, max: nat) -> bool {
    http_pending(m) && m.reader is Some && http_header_len(m) > max
}

/// The HTTP header block fits in the record's remaining length.
pub open spec fn http_block_fits(old: WarcRecordModel) -> bool {
    old.reader matches Some(rd) ==> parse_block_from(
        rd.remaining(),
        0,
        HeaderMapModel { encoding: HeaderEncoding::Latin1, status_line: None, fields: Seq::empty(), raw: None },
        true,
    ).1 <= old.content_length
}

fn find_sub(s: &[u8], pat: &[u8]) -> (r: usize)
    ensures
        r == find_sub_from(s@, pat@, 0),
{
    let mut i: usize = 0;
    while i < s.len() && pat.len() <= s.len() - i
        invariant
            find_sub_from(s@, pat@, 0) == find_sub_from(s@, pat@, i as int),
            i <= s@.len(),
        decreases s@.len() - i,
    {
        if bytes_eq(vstd::slice::slice_subrange(s, i, i + pat.len()), pat) {
            return i;
        }
        i = i + 1;
    }
    if i >= s.len() && pat.len() == 0 {
        assert(s@.subrange(i as int, i as int) =~= pat@);
    }
    s.len()
}

fn is_unicode_whitespace(c: char) -> (r: bool)
    ensures
        r == is_unicode_ws(c),
{
    let u = c as u32;
    (9 <= u && u <= 13) || u == 32 || u == 0x85 || u == 0xA0 || u == 0x1680 || (0x2000 <= u && u
        <= 0x200A) || u == 0x2028 || u == 0x2029 || u == 0x202F || u == 0x205F || u == 0x3000
}

/// Charset named in the `content-type` of `h` (see [`charset_of`]).
fn charset_from(h: &HeaderMap) -> (r: Option<String>)
    ensures
        match charset_of(h@) {
            Some(c) => r matches Some(x) && x@ == c,
            None => r is None,
        },
{
    let ct = match h.get("content-type") {
        Some(v) => v,
        None => {
            return None;
        },
    };
    let l = crate::bytes::to_lower_vec(ct.as_str().as_bytes());
    let key: [u8; 8] = [99, 104, 97, 114, 115, 101, 116, 61];
    assert(key@ =~= charset_key());
    let p = find_sub(l.as_slice(), key.as_slice());
    if p >= l.len() {
        return None;
    }
    proof {
        lemma_find_sub_bounds(l@, key@, 0);
    }
    let rest = vstd::slice::slice_subrange(l.as_slice(), p + 8, l.len());
    let semi = crate::bytes::find_byte_from(rest, 59, 0);
    let part = vstd::slice::slice_subrange(rest, 0, semi);
    let t = crate::bytes::trim_ascii_vec(part);
    let label = crate::codec::utf8_lossy(t.as_slice());
    if crate::codec::encoding_label_known(label.as_str()) {
        Some(label)
    } else {
        None
    }
}

proof fn lemma_find_sub_bounds(s: Seq<u8>, pat: Seq<u8>, i: int)
    requires
        0 <= i,
    ensures
        find_sub_from(s, pat, i) < s.len() ==> find_sub_from(s, pat, i) + pat.len() <= s.len(),
    decreases s.len() + 1 - i,
{
    if !(i + pat.len() > s.len()) && s.subrange(i, i + pat.len()) != pat {
        lemma_find_sub_bounds(s, pat, i + 1);
    }
}

impl WarcRecord {
    /// Read a header block from the attached reader into `target` (see
    /// [`HeaderMap::parse_block`]); returns the number of bytes consumed.
    fn _parse_header_block(&mut self, target: &mut HeaderMap, has_status_line: bool) -> (r: Result<usize, IoError>)
        requires
            record_wf(old(self)@),
        ensures
            record_wf(final(self)@),
            match old(self)@.reader {
                None => r == Err::<usize, IoError>(IoError::NoReader) && final(self)@ == old(self)@
                    && final(target)@ == old(target)@,
                Some(rd) => {
                    let (h, n) = parse_block_from(rd.remaining(), 0, old(target)@, has_status_line);
                    &&& r == Ok::<usize, IoError>(n as usize)
                    &&& 0 <= n <= rd.remaining().len()
                    &&& n <= usize::MAX
                    &&& final(target)@ == HeaderMapModel { raw: Some(rd.remaining().take(n)), ..h }
                    &&& final(self)@ == WarcRecordModel { reader: Some(advanced(rd, n as nat)), ..old(self)@ }
                },
            },
    {
        let reader = match &mut self.reader {
            Some(reader) => reader,
            None => {
                return Err(IoError::NoReader);
            },
        };
        let buf = reader.fill_buf();
        let n = target.parse_block(buf, 0, has_status_line);
        target.set_raw_block(crate::header::copy_bytes(vstd::slice::slice_subrange(buf, 0, n)));
        assert(buf@.subrange(0, n as int) =~= buf@.take(n as int));
        reader.consume(n);
        Ok(n)
    }

    /// Parse the HTTP header block as [`Self::parse_http`] does, unless it
    /// is longer than `max_header_len` bytes: then nothing changes and the
    /// error says the block is too long.
    pub fn parse_http_limited(&mut self, max_header_len: usize) -> (r: Result<(), IoError>)
        requires
            record_wf(old(self)@),
            http_pending(old(self)@) ==> http_block_fits(old(self)@),
        ensures
            record_wf(final(self)@),
            if http_too_long(old(self)@, max_header_len as nat) {
                r == Err::<(), IoError>(IoError::HeaderTooLong) && final(self)@ == old(self)@
            } else if !http_pending(old(self)@) {
                r == Ok::<(), IoError>(()) && final(self)@ == old(self)@
            } else if old(self)@.reader is None {
                r == Err::<(), IoError>(IoError::NoReader) && final(self)@ == old(self)@
            } else {
                r == Ok::<(), IoError>(()) && final(self)@ == http_parsed_model(old(self)@)
            },
    {
        if self.http_parsed || !self.is_http {
            return Ok(());
        }
        match &self.reader {
            Some(reader) => {
                let buf = reader.fill_buf();
                let mut scratch = HeaderMap::new(HeaderEncoding::Latin1);
                let n = scratch.parse_block(buf, 0, true);
                if n > max_header_len {
                    return Err(IoError::HeaderTooLong);
                }
            },
            None => {},
        }
        self.parse_http()
    }

    /// Parse HTTP headers and advance content reader.
    ///
    /// It is safe to call this method multiple times, even if the record is not an HTTP record.
    pub fn parse_http(&mut self) -> (r: Result<(), IoError>)
        requires
            record_wf(old(self)@),
            http_pending(old(self)@) ==> http_block_fits(old(self)@),
        ensures
            record_wf(final(self)@),
            if !http_pending(old(self)@) {
                r == Ok::<(), IoError>(()) && final(self)@ == old(self)@
            } else if old(self)@.reader is None {
                r == Err::<(), IoError>(IoError::NoReader) && final(self)@ == old(self)@
            } else {
                r == Ok::<(), IoError>(()) && final(self)@ == http_parsed_model(old(self)@)
            },
    {
        if self.http_parsed || !self.is_http {
            return Ok(());
        }
        let mut http_headers = HeaderMap::new(HeaderEncoding::Latin1);
        let ghost old_self = self@;
        let ghost h0 = http_headers@;
        assert(h0 == HeaderMapModel { encoding: HeaderEncoding::Latin1, status_line: None, fields: Seq::<Field>::empty(), raw: None });
        let n = match self._parse_header_block(&mut http_headers, true) {
            Ok(n) => n,
            Err(e) => {
                return Err(e);
            },
        };
        assert(http_block_fits(old_self));
        assert(n == parse_block_from(old_self.reader->0.remaining(), 0, h0, true).1);
        assert(n <= old_self.content_length);
        match charset_from(&http_headers) {
            Some(c) => {
                self.http_charset = Some(c);
            },
            None => {},
        }
        self.content_length = self.content_length - n;
        self.http_headers = Some(http_headers);
        self.http_parsed = true;
        Ok(())
    }

    /// Plain HTTP Content-Type without additional fields such as `charset=`.
    pub fn http_content_type(&self) -> (r: Option<String>)
        ensures
            match (self@.http_parsed, self@.http_headers) {
                (true, Some(h)) => match content_type_text(h) {
                    Some(t) => r matches Some(x) && x@ == t,
                    None => r is None,
                },
                _ => r is None,
            },
    {
        if !self.http_parsed {
            return None;
        }
        let h = match &self.http_headers {
            Some(h) => h,
            None => {
                return None;
            },
        };
        let v = match h.get("Content-Type") {
            Some(v) => v,
            None => {
                return None;
            },
        };
        let text = v.as_str();
        let n = text.unicode_len();
        let mut i: usize = 0;
        while i < n && text.get_char(i) != ';'
            invariant
                n == text@.len(),
                i <= n,
                find_char_from(text@, ';', 0) == find_char_from(text@, ';', i as int),
            decreases n - i,
        {
            i = i + 1;
        }
        let mut a: usize = 0;
        while a < i && is_unicode_whitespace(text.get_char(a))
            invariant
                n == text@.len(),
                i == find_char_from(text@, ';', 0),
                a <= i <= n,
                wtrim_start_from(text@.take(i as int), 0) == wtrim_start_from(text@.take(i as int), a as int),
            decreases i - a,
        {
            a = a + 1;
        }
        let mut b: usize = i;
        while b > a && is_unicode_whitespace(text.get_char(b - 1))
            invariant
                n == text@.len(),
                i == find_char_from(text@, ';', 0),
                a <= b <= i <= n,
                wtrim_start_from(text@.take(i as int), 0) == a,
                wtrim_end_from(text@.take(i as int), a as int, i as int) == wtrim_end_from(
                    text@.take(i as int),
                    a as int,
                    b as int,
                ),
            decreases b,
        {
            b = b - 1;
        }
        let part = text.substring_char(a, b);
        assert(part@ =~= trim_unicode(text@.take(i as int)));
        Some(String::from_str(part))
    }
}

pub open spec fn block_digest_key() -> Seq<u8> {
    seq![87u8, 65, 82, 67, 45, 66, 108, 111, 99, 107, 45, 68, 105, 103, 101, 115, 116]
}

pub open spec fn payload_digest_key() -> Seq<u8> {
    seq![87u8, 65, 82, 67, 45, 80, 97, 121, 108, 111, 97, 100, 45, 68, 105, 103, 101, 115, 116]
}

/// `sha1:` followed by the base32 text of a SHA-1 digest.
pub open spec fn sha1_digest_value(digest: Seq<u8>) -> Seq<u8> {
    seq![115u8, 104, 97, 49, 58] + encode_utf8(crate::digest::base32_encoded(digest))
}

/// The HTTP header block, as written, of a record whose HTTP headers were parsed.
pub open spec fn http_block_bytes(m: WarcRecordModel) -> Seq<u8> {
    if m.http_parsed && m.http_headers is Some {
        crate::header::written(m.http_headers->0)
    } else {
        Seq::empty()
    }
}

/// A record (with a reader) with `WARC-Payload-Digest` (if its HTTP headers
/// were parsed) and `WARC-Block-Digest` set to the SHA-1 digests of its
/// remaining payload and of its HTTP header block plus payload, and its reader
/// rewound.
pub open spec fn with_checksums(m: WarcRecordModel) -> WarcRecordModel {
    let rd = m.reader->0;
    let payload = rd.remaining();
    let f1 = if m.http_parsed && m.http_headers is Some {
        set_fields(m.headers.fields, payload_digest_key(), sha1_digest_value(crate::digest::sha1_of(payload)))
    } else {
        m.headers.fields
    };
    let f2 = set_fields(
        f1,
        block_digest_key(),
        sha1_digest_value(crate::digest::sha1_of(http_block_bytes(m) + payload)),
    );
    WarcRecordModel {
        headers: HeaderMapModel { fields: f2, raw: None, ..m.headers },
        reader: Some(rewound(rd)),
        ..m
    }
}

/// `a` sought back to its logical start.
pub open spec fn rewound(a: LimitedModel) -> LimitedModel {
    LimitedModel { stream: StreamModel { pos: (a.stream.pos - a.pos) as nat, ..a.stream }, pos: 0, ..a }
}

/// Bytes written and state reached when the record in state `m` (with a
/// reader) is written out: its header block with the current
/// `Content-Length`, the parsed HTTP header block, the remaining block and the
/// record separator.
pub open spec fn emitted(m: WarcRecordModel) -> (Seq<u8>, WarcRecordModel) {
    let rd = m.reader->0;
    let h = HeaderMapModel {
        fields: set_fields(m.headers.fields, content_length_key(), decimal(m.content_length)),
        raw: None,
        ..m.headers
    };
    let out = crate::header::serialized(h) + http_block_bytes(m) + rd.remaining() + seq![13u8, 10, 13, 10];
    (out, WarcRecordModel { headers: h, reader: Some(advanced(rd, rd.remaining().len())), ..m })
}

/// The SHA-1 digest that `WARC-Block-Digest` gets when checksums are set on
/// a record in state `m`: that of its HTTP header block and remaining block.
pub open spec fn block_sha1(m: WarcRecordModel) -> Seq<u8> {
    crate::digest::sha1_of(http_block_bytes(m) + m.reader->0.remaining())
}

/// The base32 text of the digest `d` is made of base32 characters and
/// decodes back to `d`.
pub open spec fn digest_text_decodes(d: Seq<u8>) -> bool {
    &&& forall|i: int|
        0 <= i < crate::digest::base32_encoded(d).len() ==> crate::digest::is_base32_char(
            #[trigger] crate::digest::base32_encoded(d)[i],
        )
    &&& crate::digest::base32_decoded(encode_utf8(crate::digest::base32_encoded(d))) == Some(d)
}

/// The `WARC-Block-Digest` key as text is the key's bytes.
pub proof fn lemma_block_digest_literal()
    ensures
        encode_utf8("WARC-Block-Digest"@) == block_digest_key(),
{
    reveal_strlit("WARC-Block-Digest");
    let c = "WARC-Block-Digest"@;
    assert(vstd::utf8::is_ascii_chars(c));
    vstd::utf8::is_ascii_chars_encode_utf8(c);
    assert(encode_utf8(c) =~= block_digest_key());
}

/// The state that checksums are computed on when writing a record in state
/// `m`: frozen first unless it is frozen already or has no reader.
pub open spec fn checksum_base(m: WarcRecordModel) -> WarcRecordModel {
    if !m.frozen && m.reader is Some {
        frozen_model(m)
    } else {
        m
    }
}

/// Bytes written and state after writing a record in state `old` (no bytes
/// and the state reached when no reader is attached).
pub open spec fn write_outcome(old: WarcRecordModel, checksum: bool) -> (Option<Seq<u8>>, WarcRecordModel) {
    let pre = if checksum && !old.frozen && old.reader is Some {
        frozen_model(old)
    } else {
        old
    };
    match pre.reader {
        None => (None, pre),
        Some(_) => {
            let m = if checksum {
                with_checksums(pre)
            } else {
                pre
            };
            (Some(emitted(m).0), emitted(m).1)
        },
    }
}

/// Kinds of [`DigestError`].
#[derive(Debug, Clone, Copy, PartialEq, Eq, Structural)]
pub enum DigestErrorKind {
    Missing,
    Unsupported,
    FormatError,
    NoPayload,
    StreamError,
}

/// Failure to verify a record digest, with a message.
#[derive(Debug, Clone)]
pub enum DigestError {
    Missing(String),
    Unsupported(String),
    FormatError(String),
    NoPayload(String),
    StreamError(String),
}

impl DigestError {
    /// The kind of the error and its message.
    pub open spec fn kind_and_message(self) -> (DigestErrorKind, Seq<char>) {
        match self {
            DigestError::Missing(m) => (DigestErrorKind::Missing, m@),
            DigestError::Unsupported(m) => (DigestErrorKind::Unsupported, m@),
            DigestError::FormatError(m) => (DigestErrorKind::FormatError, m@),
            DigestError::NoPayload(m) => (DigestErrorKind::NoPayload, m@),
            DigestError::StreamError(m) => (DigestErrorKind::StreamError, m@),
        }
    }

    /// The error message.
    pub fn message(&self) -> (r: &str)
        ensures
            r@ == self.kind_and_message().1,
    {
        match self {
            DigestError::Missing(m) => m.as_str(),
            DigestError::Unsupported(m) => m.as_str(),
            DigestError::FormatError(m) => m.as_str(),
            DigestError::NoPayload(m) => m.as_str(),
            DigestError::StreamError(m) => m.as_str(),
        }
    }
}

/// Hash algorithms a record digest may name.
#[derive(Debug, Clone, Copy, PartialEq, Eq, Structural)]
pub enum DigestAlgorithm {
    Md5,
    Sha1,
    Sha256,
    Sha512,
}

/// The algorithm named (ignoring ASCII case) `md5`, `sha1`, `sha256` or `sha512`.
pub open spec fn algorithm_named(name: Seq<u8>) -> Option<DigestAlgorithm> {
    let l = crate::bytes::lower_seq(name);
    if l == seq![109u8, 100, 53] {
        Some(DigestAlgorithm::Md5)
    } else if l == seq![115u8, 104, 97, 49] {
        Some(DigestAlgorithm::Sha1)
    } else if l == seq![115u8, 104, 97, 50, 53, 54] {
        Some(DigestAlgorithm::Sha256)
    } else if l == seq![115u8, 104, 97, 53, 49, 50] {
        Some(DigestAlgorithm::Sha512)
    } else {
        None
    }
}

pub open spec fn digest_with(a: DigestAlgorithm, data: Seq<u8>) -> Seq<u8> {
    match a {
        DigestAlgorithm::Md5 => crate::digest::md5_of(data),
        DigestAlgorithm::Sha1 => crate::digest::sha1_of(data),
        DigestAlgorithm::Sha256 => crate::digest::sha256_of(data),
        DigestAlgorithm::Sha512 => crate::digest::sha512_of(data),
    }
}

/// Digest bytes of a digest text: base32, else (non-standard) lower-case hex.
pub open spec fn expected_digest(text: Seq<u8>) -> Option<Seq<u8>> {
    match crate::digest::base32_decoded(text) {
        Some(v) => Some(v),
        None => crate::digest::hex_decoded(text),
    }
}

/// Result of a digest verification: whether the digest matches, or an error.
pub enum VerifyResult {
    Matches(bool),
    Failed(DigestErrorKind, Seq<char>),
}

pub open spec fn verify_result_of(r: Result<bool, DigestError>) -> VerifyResult {
    match r {
        Ok(b) => VerifyResult::Matches(b),
        Err(e) => VerifyResult::Failed(e.kind_and_message().0, e.kind_and_message().1),
    }
}

/// Outcome of verifying the digest text `d` (`algorithm:digest`) against the
/// remaining block of a record in state `old`: the result and the new state.
pub open spec fn verify_outcome(old: WarcRecordModel, d: Seq<u8>, consume: bool) -> (VerifyResult, WarcRecordModel) {
    let c = find_from(d, 58u8, 0);
    if c >= d.len() {
        (VerifyResult::Failed(DigestErrorKind::FormatError, "Invalid digest header formatting (':' not found)"@), old)
    } else {
        let alg = crate::bytes::lower_seq(d.take(c));
        let text = trim_ascii(d.subrange(c + 1, d.len() as int));
        match expected_digest(text) {
            None => (VerifyResult::Failed(DigestErrorKind::FormatError, "Invalid digest encoding"@), old),
            Some(exp) => {
                let needs_freeze = !consume && !old.frozen;
                if needs_freeze && old.reader is None {
                    (
                        VerifyResult::Failed(
                            DigestErrorKind::StreamError,
                            "Failed to freeze record: "@ + "No reader set"@,
                        ),
                        old,
                    )
                } else {
                    let m = if needs_freeze {
                        frozen_model(old)
                    } else {
                        old
                    };
                    match m.reader {
                        None => (VerifyResult::Failed(DigestErrorKind::StreamError, "No reader set"@), m),
                        Some(rd) => match algorithm_named(alg) {
                            None => (
                                VerifyResult::Failed(
                                    DigestErrorKind::Unsupported,
                                    "Unsupported hash algorithm: "@ + crate::codec::utf8_lossy_decoded(alg),
                                ),
                                m,
                            ),
                            Some(a) => {
                                let data = rd.remaining();
                                let after = advanced(rd, data.len());
                                (
                                    VerifyResult::Matches(digest_with(a, data) == exp),
                                    WarcRecordModel {
                                        reader: Some(
                                            if consume {
                                                after
                                            } else {
                                                rewound(after)
                                            },
                                        ),
                                        ..m
                                    },
                                )
                            },
                        },
                    }
                }
            },
        }
    }
}

/// Outcome of `verify_block_digest` on a record in state `old`.
pub open spec fn verify_block_outcome(old: WarcRecordModel, consume: bool) -> (VerifyResult, WarcRecordModel) {
    match crate::header::first_value(old.headers.fields, encode_utf8("WARC-Block-Digest"@)) {
        None => (VerifyResult::Failed(DigestErrorKind::Missing, "Missing WARC-Block-Digest header"@), old),
        Some(v) => verify_outcome(old, encode_utf8(crate::header::decoded(old.headers.encoding, v)), consume),
    }
}

/// Outcome of `verify_payload_digest` on a record in state `old`.
pub open spec fn verify_payload_outcome(old: WarcRecordModel, consume: bool) -> (VerifyResult, WarcRecordModel) {
    if !old.http_parsed || !old.is_http {
        (VerifyResult::Failed(DigestErrorKind::NoPayload, "HTTP payload not parsed or missing"@), old)
    } else {
        match crate::header::first_value(old.headers.fields, encode_utf8("WARC-Payload-Digest"@)) {
            None => (VerifyResult::Failed(DigestErrorKind::Missing, "Missing WARC-Payload-Digest header"@), old),
            Some(v) => verify_outcome(old, encode_utf8(crate::header::decoded(old.headers.encoding, v)), consume),
        }
    }
}

/// The algorithm named by `algorithm` (see [`algorithm_named`]).
fn _get_digest(algorithm: &[u8]) -> (r: Result<DigestAlgorithm, DigestError>)
    ensures
        match algorithm_named(algorithm@) {
            Some(a) => r == Ok::<DigestAlgorithm, DigestError>(a),
            None => r matches Err(e) && e.kind_and_message() == (
                DigestErrorKind::Unsupported,
                "Unsupported hash algorithm: "@ + crate::codec::utf8_lossy_decoded(algorithm@),
            ),
        },
{
    let l = crate::bytes::to_lower_vec(algorithm);
    let md5: [u8; 3] = [109, 100, 53];
    let sha1: [u8; 4] = [115, 104, 97, 49];
    let sha256: [u8; 6] = [115, 104, 97, 50, 53, 54];
    let sha512: [u8; 6] = [115, 104, 97, 53, 49, 50];
    assert(md5@ =~= seq![109u8, 100, 53]);
    assert(sha1@ =~= seq![115u8, 104, 97, 49]);
    assert(sha256@ =~= seq![115u8, 104, 97, 50, 53, 54]);
    assert(sha512@ =~= seq![115u8, 104, 97, 53, 49, 50]);
    if bytes_eq(l.as_slice(), md5.as_slice()) {
        Ok(DigestAlgorithm::Md5)
    } else if bytes_eq(l.as_slice(), sha1.as_slice()) {
        Ok(DigestAlgorithm::Sha1)
    } else if bytes_eq(l.as_slice(), sha256.as_slice()) {
        Ok(DigestAlgorithm::Sha256)
    } else if bytes_eq(l.as_slice(), sha512.as_slice()) {
        Ok(DigestAlgorithm::Sha512)
    } else {
        let mut m = String::from_str("Unsupported hash algorithm: ");
        let name = crate::codec::utf8_lossy(algorithm);
        m.append(name.as_str());
        Err(DigestError::Unsupported(m))
    }
}

/// Digest of `data` with the algorithm `a`.
fn compute_digest(a: DigestAlgorithm, data: &[u8]) -> (r: Vec<u8>)
    ensures
        r@ == digest_with(a, data@),
{
    match a {
        DigestAlgorithm::Md5 => crate::digest::md5(data),
        DigestAlgorithm::Sha1 => crate::digest::sha1(data),
        DigestAlgorithm::Sha256 => crate::digest::sha256(data),
        DigestAlgorithm::Sha512 => crate::digest::sha512(data),
    }
}

/// `sha1:` followed by the base32 text of `digest`; that text decodes back
/// to `digest`.
fn sha1_value(digest: &[u8]) -> (r: Vec<u8>)
    ensures
        r@ == sha1_digest_value(digest@),
        digest_text_decodes(digest@),
{
    let mut v: Vec<u8> = vec![115u8, 104, 97, 49, 58];
    let text = crate::digest::base32_encode(digest);
    crate::header::push_all(&mut v, text.as_str().as_bytes());
    assert(v@ =~= sha1_digest_value(digest@));
    v
}

/// Copy the bytes that `reader` still yields to `writer`, in pieces of at
/// most `chunk_size` bytes (all at once for 0).
fn write_block(reader: &mut LimitedBufReadSeek, writer: &mut Vec<u8>, chunk_size: usize)
    requires
        old(reader)@.wf(),
    ensures
        final(reader)@ == advanced(old(reader)@, old(reader)@.remaining().len()),
        final(writer)@ == old(writer)@ + old(reader)@.remaining(),
{
    let body = reader.fill_buf();
    let total = body.len();
    let step = if chunk_size == 0 {
        total
    } else {
        chunk_size
    };
    let mut off: usize = 0;
    while off < total
        invariant
            total == body@.len(),
            off <= total,
            step > 0 || total == 0,
            writer@ == old(writer)@ + body@.take(off as int),
        decreases total - off,
    {
        let n = if step < total - off {
            step
        } else {
            total - off
        };
        crate::header::push_all(writer, vstd::slice::slice_subrange(body, off, off + n));
        off = off + n;
        assert(writer@ =~= old(writer)@ + body@.take(off as int));
    }
    assert(body@.take(total as int) =~= body@);
    reader.consume(total);
}

impl WarcRecord {
    /// Write WARC record onto a stream (no checksums, block size 16384).
    /// Returns the number of bytes written.
    pub fn write(&mut self, writer: &mut Vec<u8>) -> (r: Result<usize, IoError>)
        requires
            record_wf(old(self)@),
        ensures
            record_wf(final(self)@),
            write_post(old(self)@, final(self)@, old(writer)@, final(writer)@, r, false),
    {
        self.write_with_checksum_block_size(writer, false, 16384)
    }

    /// Write WARC record onto a stream with a given block size (no checksums).
    pub fn write_with_block_size(&mut self, writer: &mut Vec<u8>, block_size: usize) -> (r: Result<usize, IoError>)
        requires
            record_wf(old(self)@),
        ensures
            record_wf(final(self)@),
            write_post(old(self)@, final(self)@, old(writer)@, final(writer)@, r, false),
    {
        self.write_with_checksum_block_size(writer, false, block_size)
    }

    /// Write WARC record onto a stream and calculate SHA-1 block and payload
    /// checksums (block size 16384).
    pub fn write_with_checksum(&mut self, writer: &mut Vec<u8>) -> (r: Result<usize, IoError>)
        requires
            record_wf(old(self)@),
        ensures
            record_wf(final(self)@),
            write_post(old(self)@, final(self)@, old(writer)@, final(writer)@, r, true),
            r is Ok ==> digest_text_decodes(block_sha1(checksum_base(old(self)@))),
    {
        self.write_with_checksum_block_size(writer, true, 16384)
    }

    /// Write WARC record onto a stream: the WARC header block (with the
    /// current `Content-Length`), the parsed HTTP header block if any, the
    /// remaining block bytes in pieces of `chunk_size`, and the record
    /// separator. With `checksum_data` the record is frozen and its SHA-1
    /// `WARC-Block-Digest` (and, for parsed HTTP, `WARC-Payload-Digest`) set
    /// first. Returns the number of bytes written.
    pub fn write_with_checksum_block_size(
        &mut self,
        writer: &mut Vec<u8>,
        checksum_data: bool,
        chunk_size: usize,
    ) -> (r: Result<usize, IoError>)
        requires
            record_wf(old(self)@),
        ensures
            record_wf(final(self)@),
            write_post(old(self)@, final(self)@, old(writer)@, final(writer)@, r, checksum_data),
            checksum_data && r is Ok ==> digest_text_decodes(block_sha1(checksum_base(old(self)@))),
    {
        let start = writer.len();
        if checksum_data {
            match self._freeze_internal() {
                Ok(()) => {},
                Err(e) => {
                    return Err(e);
                },
            }
            if self.reader.is_none() {
                return Err(IoError::NoReader);
            }
            assert(self@ == checksum_base(old(self)@));
            self.set_checksums();
        }
        if self.reader.is_none() {
            return Err(IoError::NoReader);
        }
        self.emit(writer, chunk_size);
        Ok(writer.len() - start)
    }

    /// Write the record (which has a reader) as [`emitted`] says.
    fn emit(&mut self, writer: &mut Vec<u8>, chunk_size: usize)
        requires
            record_wf(old(self)@),
            old(self)@.reader is Some,
        ensures
            record_wf(final(self)@),
            final(writer)@ == old(writer)@ + emitted(old(self)@).0,
            final(self)@ == emitted(old(self)@).1,
    {
        let ghost m = self@;
        let ghost rd = m.reader->0;
        let ghost h = HeaderMapModel {
            fields: set_fields(m.headers.fields, content_length_key(), decimal(m.content_length)),
            raw: None,
            ..m.headers
        };
        let cl: [u8; 14] = [67, 111, 110, 116, 101, 110, 116, 45, 76, 101, 110, 103, 116, 104];
        assert(cl@ =~= content_length_key());
        let value = decimal_bytes(self.content_length);
        self.headers.set_bytes(cl.as_slice(), value.as_slice());
        assert(self.headers@ == h);
        self.headers.write(writer);
        if self.http_parsed {
            match &self.http_headers {
                Some(hh) => {
                    hh.write(writer);
                },
                None => {},
            }
        }
        assert(writer@ =~= old(writer)@ + crate::header::serialized(h) + http_block_bytes(m));
        match &mut self.reader {
            Some(reader) => {
                write_block(reader, writer, chunk_size);
            },
            None => {},
        }
        let sep: [u8; 4] = [13, 10, 13, 10];
        crate::header::push_all(writer, sep.as_slice());
        assert(writer@ =~= old(writer)@ + emitted(m).0);
    }

    /// Set `WARC-Payload-Digest` (for parsed HTTP headers) and
    /// `WARC-Block-Digest` to the SHA-1 digests of the remaining block, and
    /// seek the reader back to its logical start.
    fn set_checksums(&mut self)
        requires
            record_wf(old(self)@),
            old(self)@.reader is Some,
        ensures
            record_wf(final(self)@),
            final(self)@ == with_checksums(old(self)@),
            digest_text_decodes(block_sha1(old(self)@)),
    {
        let payload = match &self.reader {
            Some(reader) => copy_bytes(reader.fill_buf()),
            None => Vec::new(),
        };
        let mut block: Vec<u8> = Vec::new();
        if self.http_parsed {
            match &self.http_headers {
                Some(h) => {
                    h.write(&mut block);
                    let pd = crate::digest::sha1(payload.as_slice());
                    let value = sha1_value(pd.as_slice());
                    let key: [u8; 19] = [
                        87, 65, 82, 67, 45, 80, 97, 121, 108, 111, 97, 100, 45, 68, 105, 103, 101, 115, 116,
                    ];
                    assert(key@ =~= payload_digest_key());
                    self.headers.set_bytes(key.as_slice(), value.as_slice());
                },
                None => {},
            }
        }
        assert(block@ =~= http_block_bytes(old(self)@));
        crate::header::push_all(&mut block, payload.as_slice());
        let bd = crate::digest::sha1(block.as_slice());
        let value = sha1_value(bd.as_slice());
        assert(bd@ == block_sha1(old(self)@));
        let key: [u8; 17] = [87, 65, 82, 67, 45, 66, 108, 111, 99, 107, 45, 68, 105, 103, 101, 115, 116];
        assert(key@ =~= block_digest_key());
        self.headers.set_bytes(key.as_slice(), value.as_slice());
        match &mut self.reader {
            Some(reader) => reader.rewind(),
            None => {},
        }
    }

    /// Verify whether the record's `WARC-Block-Digest` is valid.
    ///
    /// Without `consume` the record is frozen first and its reader rewound
    /// afterwards; with `consume` the rest of the record is read.
    pub fn verify_block_digest(&mut self, consume: bool) -> (r: Result<bool, DigestError>)
        requires
            record_wf(old(self)@),
        ensures
            record_wf(final(self)@),
            (verify_result_of(r), final(self)@) == verify_block_outcome(old(self)@, consume),
            match crate::header::first_value(old(self)@.headers.fields, block_digest_key()) {
                Some(v) => old(self)@.headers.encoding == HeaderEncoding::Unicode && vstd::utf8::valid_utf8(v)
                    ==> (verify_result_of(r), final(self)@) == verify_outcome(old(self)@, v, consume),
                None => true,
            },
    {
        proof {
            lemma_block_digest_literal();
        }
        let digest = match self.headers.get("WARC-Block-Digest") {
            Some(d) => d,
            None => {
                return Err(DigestError::Missing(String::from_str("Missing WARC-Block-Digest header")));
            },
        };
        proof {
            if let Some(v) = crate::header::first_value(self@.headers.fields, block_digest_key()) {
                if self@.headers.encoding == HeaderEncoding::Unicode && vstd::utf8::valid_utf8(v) {
                    vstd::utf8::decode_utf8_encode_utf8(v);
                }
            }
        }
        self._verify_digest(digest.as_str(), consume)
    }

    /// Verify whether the record's `WARC-Payload-Digest` is valid (requires
    /// parsed HTTP headers).
    pub fn verify_payload_digest(&mut self, consume: bool) -> (r: Result<bool, DigestError>)
        requires
            record_wf(old(self)@),
        ensures
            record_wf(final(self)@),
            (verify_result_of(r), final(self)@) == verify_payload_outcome(old(self)@, consume),
    {
        if !self.http_parsed || !self.is_http {
            return Err(DigestError::NoPayload(String::from_str("HTTP payload not parsed or missing")));
        }
        let digest = match self.headers.get("WARC-Payload-Digest") {
            Some(d) => d,
            None => {
                return Err(DigestError::Missing(String::from_str("Missing WARC-Payload-Digest header")));
            },
        };
        self._verify_digest(digest.as_str(), consume)
    }

    /// Internal helper for verifying digests.
    fn _verify_digest(&mut self, digest_str: &str, consume: bool) -> (r: Result<bool, DigestError>)
        requires
            record_wf(old(self)@),
        ensures
            record_wf(final(self)@),
            (verify_result_of(r), final(self)@) == verify_outcome(old(self)@, encode_utf8(digest_str@), consume),
    {
        let d = digest_str.as_bytes();
        let ghost dd = encode_utf8(digest_str@);
        assert(d@ == dd);
        let c = crate::bytes::find_byte_from(d, 58, 0);
        if c >= d.len() {
            return Err(
                DigestError::FormatError(String::from_str("Invalid digest header formatting (':' not found)")),
            );
        }
        let head = vstd::slice::slice_subrange(d, 0, c);
        assert(head@ =~= dd.take(c as int));
        let algorithm = crate::bytes::to_lower_vec(head);
        let tail = vstd::slice::slice_subrange(d, c + 1, d.len());
        let (a, b) = trim_ascii_bounds(tail);
        let text = vstd::slice::slice_subrange(tail, a, b);
        assert(text@ == trim_ascii(dd.subrange(c + 1, dd.len() as int)));
        let expected = match crate::digest::base32_decode(text) {
            Some(v) => v,
            None => match crate::digest::hex_decode(text) {
                Some(v) => v,
                None => {
                    return Err(DigestError::FormatError(String::from_str("Invalid digest encoding")));
                },
            },
        };
        assert(expected_digest(text@) == Some(expected@));
        if !consume && !self.frozen {
            match self._freeze_internal() {
                Ok(()) => {},
                Err(e) => {
                    let mut m = String::from_str("Failed to freeze record: ");
                    assert(e == IoError::NoReader);
                    m.append(e.message());
                    return Err(DigestError::StreamError(m));
                },
            }
        }
        if self.reader.is_none() {
            return Err(DigestError::StreamError(String::from_str("No reader set")));
        }
        let alg = match _get_digest(algorithm.as_slice()) {
            Ok(alg) => alg,
            Err(e) => {
                return Err(e);
            },
        };
        Ok(self.digest_matches(alg, expected.as_slice(), consume))
    }

    /// Whether the digest of the remaining block is `expected`; the block is
    /// read, and without `consume` the reader is sought back afterwards.
    fn digest_matches(&mut self, alg: DigestAlgorithm, expected: &[u8], consume: bool) -> (r: bool)
        requires
            record_wf(old(self)@),
            old(self)@.reader is Some,
        ensures
            record_wf(final(self)@),
            ({
                let rd = old(self)@.reader->0;
                let after = advanced(rd, rd.remaining().len());
                &&& r == (digest_with(alg, rd.remaining()) == expected@)
                &&& final(self)@ == (WarcRecordModel {
                    reader: Some(
                        if consume {
                            after
                        } else {
                            rewound(after)
                        },
                    ),
                    ..old(self)@
                })
            }),
    {
        let mut data: Vec<u8> = Vec::new();
        match &mut self.reader {
            Some(reader) => {
                reader.read_to_end(&mut data);
                if !consume {
                    reader.rewind();
                }
            },
            None => {},
        }
        let digest = compute_digest(alg, data.as_slice());
        bytes_eq(digest.as_slice(), expected)
    }
}

/// Outcome of writing a record: what was written and the record's new state.
pub open spec fn write_post(
    old: WarcRecordModel,
    new: WarcRecordModel,
    out_old: Seq<u8>,
    out_new: Seq<u8>,
    r: Result<usize, IoError>,
    checksum: bool,
) -> bool {
    let (written, state) = write_outcome(old, checksum);
    &&& new == state
    &&& match written {
        None => r == Err::<usize, IoError>(IoError::NoReader) && out_new == out_old,
        Some(w) => r == Ok::<usize, IoError>(w.len() as usize) && out_new == out_old + w,
    }
}

/// A fresh record with `stream` attached and nothing parsed.
pub open spec fn fresh_model(stream: StreamModel) -> WarcRecordModel {
    WarcRecordModel {
        record_type: WarcRecordType::NoType,
        headers: HeaderMapModel { encoding: HeaderEncoding::Unicode, status_line: None, fields: Seq::empty(), raw: None },
        content_length: 0,
        is_http: false,
        http_parsed: false,
        http_charset: None,
        http_headers: None,
        reader: Some(LimitedModel { stream, limit: usize::MAX as nat, pos: 0 }),
        reader_original: None,
        stream_pos: 0,
        frozen: false,
    }
}

/// `Content-Type` of an HTTP record of the given type.
pub open spec fn http_content_type_for(t: WarcRecordType) -> Seq<u8> {
    match t {
        WarcRecordType::Request => application_http() + seq![59u8, 32, 109, 115, 103, 116, 121, 112, 101, 61]
            + seq![114u8, 101, 113, 117, 101, 115, 116],
        WarcRecordType::Response => application_http() + seq![59u8, 32, 109, 115, 103, 116, 121, 112, 101, 61]
            + seq![114u8, 101, 115, 112, 111, 110, 115, 101],
        _ => application_http(),
    }
}

/// A record after its remaining block was copied into memory.
pub open spec fn frozen_model(old: WarcRecordModel) -> WarcRecordModel {
    let rd = old.reader->0;
    let rem = rd.remaining();
    WarcRecordModel {
        content_length: rem.len(),
        reader: Some(LimitedModel { stream: StreamModel { data: rem, pos: 0 }, limit: usize::MAX as nat, pos: 0 }),
        reader_original: Some(advanced(rd, rem.len()).stream),
        frozen: true,
        ..old
    }
}

/// Outcome of freezing a record in state `old`.
pub open spec fn freeze_post(old: WarcRecordModel, new: WarcRecordModel, r: Result<(), IoError>) -> bool {
    if old.frozen {
        r == Ok::<(), IoError>(()) && new == old
    } else {
        match old.reader {
            None => r == Err::<(), IoError>(IoError::NoReader) && new == old,
            Some(_) => r == Ok::<(), IoError>(()) && new == frozen_model(old),
        }
    }
}

} // verus!
