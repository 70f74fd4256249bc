use fastwarc::gzip::{decode_archive, gunzip, gzip};
use fastwarc::proto::{ParseWarcConfig, ResponseKind};
use fastwarc::record::WarcRecord;
use fastwarc::service::{collect_archive, parse_into};
use fastwarc::stream_io::ByteStream;

fn record(kind: &str, block: &[u8]) -> Vec<u8> {
    let mut data = format!(
        "WARC/1.0\r\nWARC-Type: {kind}\r\nWARC-Record-ID: <urn:uuid:{kind}>\r\nContent-Length: {}\r\n\r\n",
        block.len()
    )
    .into_bytes();
    data.extend_from_slice(block);
    data.extend_from_slice(b"\r\n\r\n");
    data
}

fn no_http() -> ParseWarcConfig {
    ParseWarcConfig { parse_http: Some(false), ..Default::default() }
}

#[test]
fn gzip_round_trip() {
    let z = gzip(b"hello world", 6).unwrap();
    assert_eq!(&z[..2], &[0x1f, 0x8b]);
    assert_eq!(gunzip(&z).unwrap(), b"hello world".to_vec());
    assert_eq!(gunzip(&gzip(b"", 9).unwrap()).unwrap(), Vec::<u8>::new());
}

#[test]
fn gunzip_joins_members() {
    let mut z = gzip(b"first ", 9).unwrap();
    z.extend_from_slice(&gzip(b"second", 1).unwrap());
    assert_eq!(gunzip(&z).unwrap(), b"first second".to_vec());
}

#[test]
fn gunzip_grows_the_output_buffer() {
    let data: Vec<u8> = (0..300_000u32).map(|i| (i % 7) as u8 + b'a').collect();
    let z = gzip(&data, 9).unwrap();
    assert!(z.len() < data.len());
    assert_eq!(gunzip(&z).unwrap(), data);
}

#[test]
fn gunzip_refuses_invalid_data() {
    assert_eq!(gunzip(b"\x1f\x8bnot really gzip"), None);
    let mut z = gzip(b"abc", 6).unwrap();
    z.extend_from_slice(b"trailing garbage");
    assert_eq!(gunzip(&z), None);
}

#[test]
fn gunzip_of_empty_input_is_empty() {
    assert_eq!(gunzip(b"").unwrap(), Vec::<u8>::new());
}

#[test]
fn gzip_refuses_unknown_level() {
    assert_eq!(gzip(b"abc", 42), None);
}

#[test]
fn decode_archive_detects_gzip() {
    let plain = record("resource", b"X");
    let z = gzip(&plain, 6).unwrap();
    assert_eq!(decode_archive(&z, true).unwrap(), plain);
    assert_eq!(decode_archive(&z, false).unwrap(), z);
    assert_eq!(decode_archive(&plain, true).unwrap(), plain);
    // A truncated member gives what could be decompressed: here nothing.
    assert_eq!(decode_archive(b"\x1f\x8b\x08", true), Some(Vec::new()));
    assert_eq!(decode_archive(b"\x1f\x8b\x00\x00", true), None);
}

#[test]
fn parse_into_reads_gzip_archives() {
    let mut plain = record("warcinfo", b"ABC");
    plain.extend_from_slice(&record("resource", b"hello"));
    let mut z = gzip(&record("warcinfo", b"ABC"), 9).unwrap();
    z.extend_from_slice(&gzip(&record("resource", b"hello"), 9).unwrap());
    let from_plain = parse_into(ByteStream::new(plain.clone()), &no_http());
    let from_gzip = parse_into(ByteStream::new(z.clone()), &no_http());
    assert_eq!(from_plain.len(), 6);
    assert_eq!(from_plain, from_gzip);
    let collected = collect_archive(z, &no_http());
    assert_eq!(collected.records.len(), 2);
    assert_eq!(collected.records[1].payload, b"hello".to_vec());
    assert!(collected.errors.is_empty());
}

#[test]
fn parse_into_without_detection_reads_gzip_as_it_stands() {
    let z = gzip(&record("resource", b"X"), 6).unwrap();
    let config = ParseWarcConfig { stream_detect: Some(false), ..no_http() };
    let events = parse_into(ByteStream::new(z), &config);
    assert_eq!(events.len(), 1);
    match &events[0].kind {
        Some(ResponseKind::RecordError(e)) => assert!(!e.recoverable),
        other => panic!("unexpected event {other:?}"),
    }
}

#[test]
fn parse_into_reports_corrupt_gzip() {
    let events = parse_into(ByteStream::new(b"\x1f\x8b\x08garbage".to_vec()), &no_http());
    assert_eq!(events.len(), 1);
    match &events[0].kind {
        Some(ResponseKind::RecordError(e)) => {
            assert_eq!(e.stream_pos, 0);
            assert!(!e.recoverable);
            assert_eq!(e.message, "Gzip decompression error: data error");
        }
        other => panic!("unexpected event {other:?}"),
    }
    let r = collect_archive(b"\x1f\x8b\x08garbage".to_vec(), &no_http());
    assert!(r.records.is_empty());
    assert_eq!(r.errors.len(), 1);
}

#[test]
fn header_write_gives_the_source_block() {
    let block = b"WARC/1.0\r\nWARC-Type:resource\r\nX: a\r\n b\r\nContent-Length: 0\r\n\r\n";
    let r = WarcRecord::from_reader(ByteStream::new(block.to_vec())).unwrap();
    let mut buf = Vec::new();
    r.headers().write(&mut buf);
    assert_eq!(buf, block.to_vec());
}

fn http_record(content_type: &str) -> Vec<u8> {
    let http = format!("HTTP/1.1 200 OK\r\nContent-Type: {content_type}\r\n\r\nbody");
    let mut data = format!(
        "WARC/1.1\r\nWARC-Type: response\r\nContent-Type: application/http; msgtype=response\r\nContent-Length: {}\r\n\r\n",
        http.len()
    )
    .into_bytes();
    data.extend_from_slice(http.as_bytes());
    data.extend_from_slice(b"\r\n\r\n");
    data
}

#[test]
fn http_charset_is_checked_against_known_labels() {
    let mut r = WarcRecord::from_reader(ByteStream::new(http_record("text/html; charset=no-such-enc"))).unwrap();
    assert!(r.parse_http().is_ok());
    assert_eq!(r.http_charset(), None);
    let mut r = WarcRecord::from_reader(ByteStream::new(http_record("text/html; charset=ISO-8859-1"))).unwrap();
    assert!(r.parse_http().is_ok());
    assert_eq!(r.http_charset(), Some("iso-8859-1"));
}

#[test]
fn corrupt_later_member_keeps_earlier_records() {
    let mut z = gzip(&record("resource", b"first"), 6).unwrap();
    z.extend_from_slice(b"\x1f\x8b\x08garbage");
    let (prefix, whole) = fastwarc::gzip::gunzip_prefix(&z);
    assert!(!whole);
    assert_eq!(prefix, record("resource", b"first"));
    let events = parse_into(ByteStream::new(z.clone()), &no_http());
    assert_eq!(events.len(), 4);
    match &events[3].kind {
        Some(ResponseKind::RecordError(e)) => {
            assert!(!e.recoverable);
            assert_eq!(e.message, "Gzip decompression error: data error");
        }
        other => panic!("unexpected event {other:?}"),
    }
    let r = collect_archive(z, &no_http());
    assert_eq!(r.records.len(), 1);
    assert_eq!(r.records[0].payload, b"first".to_vec());
    assert_eq!(r.errors.len(), 1);
}
