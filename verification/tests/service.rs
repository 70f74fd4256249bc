use fastwarc::bench::{buffer_size, full_echo, jobs, local_file, request_channel_bound, visit_ends};
use fastwarc::convert::{
    auto_decode, digest_status, header_block, include_headers, include_payload, parse_http, record_metadata,
    record_passes_filters, record_types_mask, response_batch_size, warc_record_type, warc_record_type_bit,
    AutoDecode,
};
use fastwarc::header::{HeaderEncoding, HeaderMap};
use fastwarc::proto::{
    self as pb, BuiltinFilter, ParseArchiveRequest, ParseWarcConfig, ParseWarcResponse, RecordBatch, RecordEnd,
    ResponseKind,
};
use fastwarc::record::{DigestError, WarcRecord};
use fastwarc::record_type::WarcRecordType;
use fastwarc::service::{
    collect_archive, fold_response, parse_into, record_error, response, validate_config, validate_limit,
    RequestError, WarcParser,
};
use fastwarc::stream_io::ByteStream;
use fastwarc::transport::{connection_window, stream_window, unix_socket_path};

fn record(kind: &str, extra: &str, block: &[u8]) -> Vec<u8> {
    let mut data = format!(
        "WARC/1.0\r\nWARC-Type: {kind}\r\nWARC-Record-ID: <urn:uuid:{kind}>\r\nWARC-Date: 2020-01-01T00:00:00Z\r\n{extra}Content-Length: {}\r\n\r\n",
        block.len()
    )
    .into_bytes();
    data.extend_from_slice(block);
    data.extend_from_slice(b"\r\n\r\n");
    data
}

fn corrupt_archive() -> Vec<u8> {
    let mut data = record("warcinfo", "", b"ABC");
    data.extend_from_slice(b"NOT-A-WARC-HEADER\r\n\r\n");
    data.extend_from_slice(&record("resource", "", b"X"));
    data
}

fn no_http() -> ParseWarcConfig {
    ParseWarcConfig { parse_http: Some(false), ..Default::default() }
}

/// Records (metadata record type, payload) and errors (recoverable, message) in stream order.
#[derive(Debug, PartialEq)]
enum Outcome {
    Record(i32, Vec<u8>),
    Error(bool, String),
}

fn outcomes(events: &[ParseWarcResponse]) -> Vec<Outcome> {
    let mut out = Vec::new();
    let mut open: Option<(i32, Vec<u8>)> = None;
    for e in events {
        match e.kind.as_ref().unwrap() {
            ResponseKind::RecordStart(s) => {
                assert!(open.is_none());
                open = Some((s.metadata.as_ref().unwrap().record_type, Vec::new()));
            }
            ResponseKind::PayloadChunk(c) => {
                let (_, p) = open.as_mut().unwrap();
                assert_eq!(c.offset, p.len() as u64);
                p.extend_from_slice(&c.data);
            }
            ResponseKind::RecordEnd(end) => {
                let (t, p) = open.take().unwrap();
                assert_eq!(end.payload_length, p.len() as u64);
                out.push(Outcome::Record(t, p));
            }
            ResponseKind::RecordError(err) => out.push(Outcome::Error(err.recoverable, err.message.clone())),
            ResponseKind::Batch(_) => panic!("unexpected batch"),
        }
    }
    assert!(open.is_none());
    out
}

#[test]
fn corrupt_midstream_ends_without_hang() {
    let events = parse_into(ByteStream::new(corrupt_archive()), &no_http());
    assert_eq!(
        outcomes(&events),
        vec![
            Outcome::Record(pb::WarcRecordType::Warcinfo.number(), b"ABC".to_vec()),
            Outcome::Error(false, "Invalid WARC header".to_string()),
        ]
    );
}

#[test]
fn empty_archive() {
    assert!(parse_into(ByteStream::new(Vec::new()), &no_http()).is_empty());
    let r = collect_archive(Vec::new(), &no_http());
    assert!(r.records.is_empty());
    assert!(r.errors.is_empty());
}

#[test]
fn payload_chunks_are_bounded() {
    let data = record("resource", "", b"0123456789");
    let config = ParseWarcConfig { payload_chunk_size: 4, ..no_http() };
    let events = parse_into(ByteStream::new(data), &config);
    assert_eq!(events.len(), 5);
    let sizes: Vec<usize> = events
        .iter()
        .filter_map(|e| match e.kind.as_ref().unwrap() {
            ResponseKind::PayloadChunk(c) => Some(c.data.len()),
            _ => None,
        })
        .collect();
    assert_eq!(sizes, vec![4, 4, 2]);
}

/// Oversized HTTP headers fail recoverably; the following record still parses.
///
/// `max_header_len` applies to both WARC and HTTP headers, so the fixture keeps
/// WARC headers under the cap while the embedded HTTP block exceeds it.
#[test]
fn http_parse_failure_is_recoverable() {
    let http_hdr = format!("HTTP/1.1 200 OK\r\nX: {}\r\n\r\nbody", "A".repeat(400));
    let payload = http_hdr.as_bytes();
    let mut data = format!(
        "WARC/1.0\r\nWARC-Type: response\r\nWARC-Record-ID: <urn:uuid:aaaaaaaa-aaaa-aaaa-aaaa-aaaaaaaaaaaa>\r\nWARC-Date: 2020-01-01T00:00:00Z\r\nContent-Type: application/http; msgtype=response\r\nContent-Length: {}\r\n\r\n",
        payload.len()
    )
    .into_bytes();
    data.extend_from_slice(payload);
    data.extend_from_slice(b"\r\n\r\n");
    data.extend_from_slice(
        b"WARC/1.0\r\nWARC-Type: resource\r\nWARC-Record-ID: <urn:uuid:bbbbbbbb-bbbb-bbbb-bbbb-bbbbbbbbbbbb>\r\nWARC-Date: 2020-01-01T00:00:00Z\r\nContent-Length: 1\r\n\r\nZ\r\n\r\n",
    );

    let config = ParseWarcConfig { parse_http: Some(true), max_header_len: 256, ..Default::default() };
    let events = parse_into(ByteStream::new(data), &config);
    let outcomes = outcomes(&events);
    assert!(
        matches!(
            outcomes.as_slice(),
            [Outcome::Error(recoverable, message), Outcome::Record(t, _)]
                if *recoverable && message.contains("HTTP") && *t == pb::WarcRecordType::Resource.number()
        ),
        "unexpected outcomes: {outcomes:?}"
    );
}

#[test]
fn http_headers_within_the_limit_are_parsed() {
    let http = b"HTTP/1.1 200 OK\r\nContent-Type: text/plain\r\n\r\nbody";
    let mut data = record("response", "Content-Type: application/http; msgtype=response\r\n", http);
    data.extend_from_slice(&record("resource", "", b"Z"));
    let config = ParseWarcConfig { parse_http: Some(true), ..Default::default() };
    let events = parse_into(ByteStream::new(data.clone()), &config);
    assert_eq!(
        outcomes(&events),
        vec![
            Outcome::Record(pb::WarcRecordType::Response.number(), b"body".to_vec()),
            Outcome::Record(pb::WarcRecordType::Resource.number(), b"Z".to_vec()),
        ]
    );
    match events[0].kind.as_ref().unwrap() {
        ResponseKind::RecordStart(s) => {
            let m = s.metadata.as_ref().unwrap();
            assert!(m.is_http && m.http_parsed);
            assert_eq!(m.content_length, 4);
            assert_eq!(m.http_content_type.as_deref(), Some("text/plain"));
            assert_eq!(m.record_index, 0);
            assert_eq!(m.record_id.as_deref(), Some("<urn:uuid:response>"));
        }
        _ => panic!("expected record_start"),
    }
}

#[test]
fn oversized_warc_headers_end_the_stream() {
    let mut data = record("resource", &format!("X-Big: {}\r\n", "B".repeat(300)), b"Z");
    data.extend_from_slice(&record("resource", "", b"Y"));
    let config = ParseWarcConfig { parse_http: Some(false), max_header_len: 256, ..Default::default() };
    let events = parse_into(ByteStream::new(data.clone()), &config);
    assert_eq!(outcomes(&events), vec![Outcome::Error(false, "header block exceeds max_header_len".to_string())]);
    // Within the default limit (32 KiB) both records are read.
    let events = parse_into(ByteStream::new(data), &ParseWarcConfig { parse_http: Some(false), ..Default::default() });
    assert_eq!(outcomes(&events).len(), 2);
}

#[test]
fn payload_decoding_is_refused() {
    let config = ParseWarcConfig { decode_http_payload: 3, ..Default::default() };
    assert_eq!(
        validate_config(&config),
        Err("decode_http_payload is not supported: payloads are streamed as stored".to_string())
    );
    assert!(validate_config(&ParseWarcConfig::default()).is_ok());
}

#[test]
fn filter_content_length_runs_after_http_parse() {
    let http = b"HTTP/1.1 200 OK\r\nContent-Type: text/plain\r\n\r\nbody";
    let data = record("response", "Content-Type: application/http; msgtype=response\r\n", http);
    let config = ParseWarcConfig { parse_http: Some(true), max_content_length: Some(4), ..Default::default() };
    let r = collect_archive(data, &config);
    assert_eq!(r.records.len(), 1);
    assert_eq!(r.records[0].metadata.as_ref().unwrap().content_length, 4);
    assert_eq!(r.records[0].payload, b"body");
}

#[test]
fn filter_record_types_and_builtins() {
    let mut data = record("warcinfo", "", b"A");
    data.extend_from_slice(&record("response", "WARC-Concurrent-To: <urn:x>\r\n", b"BB"));
    data.extend_from_slice(&record("resource", "", b"CCC"));
    let types = ParseWarcConfig { record_types: vec![pb::WarcRecordType::Response.number()], ..no_http() };
    assert_eq!(
        outcomes(&parse_into(ByteStream::new(data.clone()), &types)),
        vec![Outcome::Record(pb::WarcRecordType::Response.number(), b"BB".to_vec())]
    );
    let concurrent = ParseWarcConfig { filters: vec![2], ..no_http() };
    assert_eq!(outcomes(&parse_into(ByteStream::new(data.clone()), &concurrent)).len(), 1);
    let lengths = ParseWarcConfig { min_content_length: Some(2), ..no_http() };
    assert_eq!(outcomes(&parse_into(ByteStream::new(data.clone()), &lengths)).len(), 2);
    let warc10 = ParseWarcConfig { filters: vec![5], ..no_http() };
    assert_eq!(outcomes(&parse_into(ByteStream::new(data.clone()), &warc10)).len(), 3);
    let warc11 = ParseWarcConfig { filters: vec![6], ..no_http() };
    assert!(outcomes(&parse_into(ByteStream::new(data), &warc11)).is_empty());
    assert!(matches!(BuiltinFilter::from_number(2), Some(BuiltinFilter::IsConcurrent)));
}

#[test]
fn verify_digests_skips_bad_records() {
    let good = "WARC-Block-Digest: sha1:VL2MMHO4YXUKFWV63YHTWSBM3GXKSQ2N\r\n";
    let mut data = record("resource", good, b"hello");
    data.extend_from_slice(&record("resource", "", b"hello"));
    data.extend_from_slice(&record("metadata", good, b"other"));
    let config = ParseWarcConfig { verify_digests: true, ..no_http() };
    assert_eq!(
        outcomes(&parse_into(ByteStream::new(data), &config)),
        vec![Outcome::Record(pb::WarcRecordType::Resource.number(), b"hello".to_vec())]
    );
}

#[test]
fn omit_payload_and_headers() {
    let data = record("resource", "", b"xyz");
    let config = ParseWarcConfig { include_payload: Some(false), include_headers: Some(false), ..no_http() };
    let events = parse_into(ByteStream::new(data), &config);
    assert_eq!(events.len(), 2);
    match events[0].kind.as_ref().unwrap() {
        ResponseKind::RecordStart(s) => {
            let m = s.metadata.as_ref().unwrap();
            assert!(m.warc_headers.is_none());
            assert!(m.record_id.is_none());
        }
        _ => panic!("expected record_start"),
    }
    match events[1].kind.as_ref().unwrap() {
        ResponseKind::RecordEnd(end) => assert_eq!(end.payload_length, 3),
        _ => panic!("expected record_end"),
    }
}

#[test]
fn unary_reports_framing_error() {
    let parser = WarcParser::new();
    let request = ParseArchiveRequest { config: Some(no_http()), archive: corrupt_archive() };
    let r = parser.parse_archive(request).unwrap();
    assert_eq!(r.records.len(), 1);
    assert_eq!(r.records[0].payload, b"ABC");
    assert_eq!(r.errors.len(), 1);
    assert!(!r.errors[0].recoverable);
}

#[test]
fn unary_rejections() {
    let parser = WarcParser::new();
    let missing = parser.parse_archive(ParseArchiveRequest { config: None, archive: Vec::new() });
    assert_eq!(missing, Err(RequestError::InvalidArgument("ParseArchive request must set `config`".to_string())));
    let path = ParseWarcConfig { archive_path: "/tmp/a.warc".to_string(), ..Default::default() };
    let r = parser.parse_archive(ParseArchiveRequest { config: Some(path.clone()), archive: Vec::new() });
    assert_eq!(r, Err(RequestError::InvalidArgument("archive_path is only supported by ParseWarc".to_string())));
    assert!(matches!(parser.check_parse_warc(&path), Err(RequestError::PermissionDenied(_))));
    assert!(WarcParser::with_local_files().check_parse_warc(&path).is_ok());
    assert!(WarcParser::with_local_files().allows_local_files());
    assert!(!parser.allows_local_files());
}

#[test]
fn excessive_limits_are_rejected() {
    let header = ParseWarcConfig { max_header_len: 3 << 20, ..Default::default() };
    assert_eq!(validate_config(&header), Err("max_header_len must not exceed 2097152 bytes".to_string()));
    let chunk = ParseWarcConfig { payload_chunk_size: 9 << 20, ..Default::default() };
    assert_eq!(validate_config(&chunk), Err("payload_chunk_size must not exceed 8388608 bytes".to_string()));
    let buffer = ParseWarcConfig { input_buffer_size: 17 << 20, ..Default::default() };
    assert_eq!(validate_config(&buffer), Err("input_buffer_size must not exceed 16777216 bytes".to_string()));
    let bounds = ParseWarcConfig { min_content_length: Some(5), max_content_length: Some(4), ..Default::default() };
    assert_eq!(
        validate_config(&bounds),
        Err("min_content_length must not exceed max_content_length".to_string())
    );
    assert!(validate_config(&ParseWarcConfig::default()).is_ok());
    assert_eq!(validate_limit("x", 11, 10), Err("x must not exceed 10 bytes".to_string()));
    assert!(validate_limit("x", 10, 10).is_ok());
}

#[test]
fn fold_flattens_batches() {
    let mut open = None;
    let mut records = Vec::new();
    let mut errors = Vec::new();
    let start = response(ResponseKind::RecordStart(pb::RecordStart {
        metadata: Some(record_metadata(&WarcRecord::new(), 7, false)),
    }));
    let chunk = response(ResponseKind::PayloadChunk(pb::PayloadChunk { offset: 0, data: b"ab".to_vec() }));
    let end = response(ResponseKind::RecordEnd(RecordEnd { payload_length: 2 }));
    let batch = response(ResponseKind::Batch(RecordBatch { items: vec![start, chunk, end] }));
    fold_response(batch, &mut open, &mut records, &mut errors);
    fold_response(record_error(3, true, "oops".to_string()), &mut open, &mut records, &mut errors);
    assert!(open.is_none());
    assert_eq!(records.len(), 1);
    assert_eq!(records[0].payload, b"ab");
    assert_eq!(records[0].metadata.as_ref().unwrap().record_index, 7);
    assert_eq!(errors.len(), 1);
    assert_eq!(errors[0].message, "oops");
}

#[test]
fn conversions() {
    assert_eq!(warc_record_type(WarcRecordType::WarcInfo), pb::WarcRecordType::Warcinfo);
    assert_eq!(warc_record_type(WarcRecordType::NoType), pb::WarcRecordType::Unspecified);
    assert_eq!(warc_record_type_bit(2), Some(4));
    assert_eq!(warc_record_type_bit(0), None);
    assert_eq!(warc_record_type_bit(99), None);
    assert_eq!(record_types_mask(&[]), 65535);
    assert_eq!(record_types_mask(&[1, 2, 99]), 6);
    assert_eq!(record_types_mask(&[0, 42]), 65535);
    assert_eq!(auto_decode(3), AutoDecode::All);
    assert_eq!(auto_decode(7), AutoDecode::Disabled);
    let config = ParseWarcConfig::default();
    assert!(include_payload(&config) && include_headers(&config) && parse_http(&config));
    assert_eq!(response_batch_size(&config), 1);
    assert_eq!(response_batch_size(&ParseWarcConfig { response_batch_size: 8, ..Default::default() }), 8);
    assert_eq!(digest_status(Ok(true)), (pb::DigestStatus::Valid, None));
    assert_eq!(digest_status(Ok(false)), (pb::DigestStatus::Mismatch, None));
    assert_eq!(
        digest_status(Err(DigestError::Missing("Missing WARC-Block-Digest header".to_string()))),
        (pb::DigestStatus::NotPresent, Some("Missing WARC-Block-Digest header".to_string()))
    );
    assert_eq!(digest_status(Err(DigestError::StreamError("x".to_string()))).0, pb::DigestStatus::Error);
}

#[test]
fn header_block_is_lossless() {
    let mut h = HeaderMap::new(HeaderEncoding::Latin1);
    h.set_status_line(b"HTTP/1.1 200 OK");
    h.append_bytes(b"A", b"1");
    h.append_bytes(b"a", b"2");
    let b = header_block(&h);
    assert_eq!(b.status_line.as_deref(), Some(&b"HTTP/1.1 200 OK"[..]));
    assert_eq!(b.fields.len(), 2);
    assert_eq!(b.fields[1].name, b"a");
    assert_eq!(b.fields[1].value, b"2");
    assert_eq!(b.encoding, 2);
    assert_eq!(b.raw_block, b"HTTP/1.1 200 OK\r\nA: 1\r\na: 2\r\n\r\n");
}

#[test]
fn filters_on_a_record() {
    let mut r = WarcRecord::from_bytes(record("request", "", b"12345")).unwrap();
    let config = ParseWarcConfig { min_content_length: Some(5), max_content_length: Some(5), ..Default::default() };
    assert!(record_passes_filters(&mut r, &config));
    let too_big = ParseWarcConfig { max_content_length: Some(4), ..Default::default() };
    assert!(!record_passes_filters(&mut r, &too_big));
    let http_only = ParseWarcConfig { filters: vec![1], ..Default::default() };
    assert!(!record_passes_filters(&mut r, &http_only));
}

#[test]
fn transport_windows() {
    assert_eq!(connection_window(None), 33554432);
    assert_eq!(stream_window(None), 16777216);
    assert_eq!(connection_window(Some("70000")), 70000);
    assert_eq!(stream_window(Some("65534")), 16777216);
    assert_eq!(stream_window(Some("abc")), 16777216);
    assert_eq!(stream_window(Some("+65535")), 65535);
    assert_eq!(connection_window(Some("4294967296")), 33554432);
    assert_eq!(unix_socket_path("unix:///tmp/a.sock").as_deref(), Some("/tmp/a.sock"));
    assert_eq!(unix_socket_path("unix:rel.sock").as_deref(), Some("rel.sock"));
    assert_eq!(unix_socket_path("/abs/path").as_deref(), Some("/abs/path"));
    assert_eq!(unix_socket_path("[::]:50061"), None);
}

#[test]
fn bench_settings() {
    assert_eq!(request_channel_bound(65536), 256);
    assert_eq!(request_channel_bound(1 << 20), 32);
    assert_eq!(request_channel_bound(64 << 20), 2);
    assert_eq!(request_channel_bound(0), 256);
    assert!(full_echo(Some("1")) && full_echo(Some("true")) && full_echo(Some("TRUE")));
    assert!(!full_echo(Some("yes")) && !full_echo(None));
    assert!(local_file(Some("1")));
    assert_eq!(buffer_size(None), 65536);
    assert_eq!(buffer_size(Some("0")), 65536);
    assert_eq!(buffer_size(Some("4096")), 4096);
    assert_eq!(jobs(Some("3")), 3);
    assert_eq!(jobs(Some("x")), 1);
    let mut ends = Vec::new();
    let inner = response(ResponseKind::RecordEnd(RecordEnd { payload_length: 5 }));
    let batch = response(ResponseKind::Batch(RecordBatch {
        items: vec![inner, response(ResponseKind::RecordEnd(RecordEnd { payload_length: 9 }))],
    }));
    visit_ends(&batch, &mut ends);
    assert_eq!(ends, vec![5, 9]);
}

#[test]
fn records_are_numbered_in_archive_order() {
    let mut data = record("warcinfo", "", b"A");
    data.extend_from_slice(&record("response", "", b"B"));
    data.extend_from_slice(&record("resource", "", b"C"));
    let numbers = |config: &ParseWarcConfig| -> Vec<u64> {
        parse_into(ByteStream::new(data.clone()), config)
            .iter()
            .filter_map(|e| match e.kind.as_ref().unwrap() {
                ResponseKind::RecordStart(s) => Some(s.metadata.as_ref().unwrap().record_index),
                _ => None,
            })
            .collect()
    };
    assert_eq!(numbers(&no_http()), vec![0, 1, 2]);
    let skip_response = ParseWarcConfig {
        record_types: vec![pb::WarcRecordType::Warcinfo.number(), pb::WarcRecordType::Resource.number()],
        ..no_http()
    };
    assert_eq!(numbers(&skip_response), vec![0, 2]);
}

#[test]
fn records_report_their_archive_offsets() {
    let first = record("warcinfo", "", b"A");
    let second = record("response", "", b"BB");
    let mut data = first.clone();
    data.extend_from_slice(b"\r\n");
    data.extend_from_slice(&second);
    let positions: Vec<u64> = parse_into(ByteStream::new(data), &no_http())
        .iter()
        .filter_map(|e| match e.kind.as_ref().unwrap() {
            ResponseKind::RecordStart(s) => Some(s.metadata.as_ref().unwrap().stream_pos),
            _ => None,
        })
        .collect();
    assert_eq!(positions, vec![0, first.len() as u64 + 2]);
}
