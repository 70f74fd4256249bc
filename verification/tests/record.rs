use fastwarc::record::{DigestError, WarcRecord};
use fastwarc::record_type::WarcRecordType;
use fastwarc::stream_io::{ByteStream, IoError, LimitedBufReadSeek, SeekFrom};

const HTTP_BLOCK: &[u8] = b"HTTP/1.1 200 OK\r\nContent-Type: text/html; charset=utf-8\r\n\r\nbody";

fn response_record(extra: &str) -> Vec<u8> {
    let mut data = format!(
        "WARC/1.1\r\nWARC-Type: response\r\nWARC-Record-ID: <urn:uuid:aaaa>\r\n{}Content-Type: application/http; msgtype=response\r\nContent-Length: {}\r\n\r\n",
        extra,
        HTTP_BLOCK.len()
    )
    .into_bytes();
    data.extend_from_slice(HTTP_BLOCK);
    data.extend_from_slice(b"\r\n\r\n");
    data
}

#[test]
fn parses_warc_headers() {
    let record = WarcRecord::from_bytes(response_record("")).unwrap();
    assert_eq!(record.record_type(), WarcRecordType::Response);
    assert!(record.is_http());
    assert!(!record.is_http_parsed());
    assert_eq!(record.content_length(), 63);
    assert_eq!(record.record_id().as_deref(), Some("<urn:uuid:aaaa>"));
    assert_eq!(record.headers().status_line().as_deref(), Some("WARC/1.1"));
    assert_eq!(record.stream_pos(), 0);
}

#[test]
fn skips_empty_lines_before_header() {
    let mut data = b"\r\n\r\n".to_vec();
    data.extend_from_slice(&response_record(""));
    let record = WarcRecord::from_reader(ByteStream::new(data)).unwrap();
    assert_eq!(record.stream_pos(), 4);
    assert_eq!(record.record_type(), WarcRecordType::Response);
}

#[test]
fn invalid_header_and_end_of_stream() {
    let r = WarcRecord::from_reader(ByteStream::new(b"NOT-A-WARC\r\n".to_vec()));
    assert!(matches!(r, Err(IoError::InvalidHeader)));
    let r = WarcRecord::from_reader(ByteStream::new(b"\r\n\r\n".to_vec()));
    assert!(matches!(r, Err(IoError::UnexpectedEof)));
    let mut record = WarcRecord::new();
    assert!(matches!(record.parse_warc_headers(), Err(IoError::NoReader)));
    assert_eq!(IoError::InvalidHeader.message(), "Invalid WARC header");
}

#[test]
fn quirks_mode_skips_garbage() {
    let mut data = b"garbage line\r\n".to_vec();
    data.extend_from_slice(&response_record(""));
    let mut record = WarcRecord::new();
    record.attach_reader(ByteStream::new(data.clone()));
    assert!(matches!(record.parse_warc_headers_quirks(false), Err(IoError::InvalidHeader)));
    let mut record = WarcRecord::new();
    record.attach_reader(ByteStream::new(data));
    assert!(record.parse_warc_headers_quirks(true).is_ok());
    assert_eq!(record.stream_pos(), 14);
    assert_eq!(record.record_type(), WarcRecordType::Response);
}

#[test]
fn parses_http_headers() {
    let mut record = WarcRecord::from_reader(ByteStream::new(response_record(""))).unwrap();
    record.parse_http().unwrap();
    assert!(record.is_http_parsed());
    let http = record.http_headers().unwrap();
    assert_eq!(http.status_line().as_deref(), Some("HTTP/1.1 200 OK"));
    assert_eq!(http.status_code(), Some(200));
    assert_eq!(http.reason_phrase().as_deref(), Some("OK"));
    assert_eq!(record.http_content_type().as_deref(), Some("text/html"));
    assert_eq!(record.http_charset(), Some("utf-8"));
    assert_eq!(record.content_length(), 4);
    let mut payload = Vec::new();
    record.reader_mut().unwrap().read_to_end(&mut payload);
    assert_eq!(payload, b"body");
}

#[test]
fn block_digest_matches() {
    let digest = "WARC-Block-Digest: sha1:24PS3J473EH2GSY3E5YHEG7P65LZ6JYL\r\n";
    let mut record = WarcRecord::from_reader(ByteStream::new(response_record(digest))).unwrap();
    assert!(matches!(record.verify_block_digest(false), Ok(true)));
    assert!(record.is_frozen());
    // The block can be read again after a non-consuming check.
    assert!(matches!(record.verify_block_digest(true), Ok(true)));
}

#[test]
fn block_digest_mismatch_and_errors() {
    let wrong = "WARC-Block-Digest: sha1:VL2MMHO4YXUKFWV63YHTWSBM3GXKSQ2N\r\n";
    let mut record = WarcRecord::from_reader(ByteStream::new(response_record(wrong))).unwrap();
    assert!(matches!(record.verify_block_digest(false), Ok(false)));

    let mut record = WarcRecord::from_reader(ByteStream::new(response_record(""))).unwrap();
    match record.verify_block_digest(false) {
        Err(e @ DigestError::Missing(_)) => assert_eq!(e.message(), "Missing WARC-Block-Digest header"),
        other => panic!("unexpected {other:?}"),
    }

    let unsupported = "WARC-Block-Digest: crc32:ABCD\r\n";
    let mut record = WarcRecord::from_reader(ByteStream::new(response_record(unsupported))).unwrap();
    match record.verify_block_digest(false) {
        Err(e @ DigestError::Unsupported(_)) => assert_eq!(e.message(), "Unsupported hash algorithm: crc32"),
        other => panic!("unexpected {other:?}"),
    }

    let no_colon = "WARC-Block-Digest: sha1\r\n";
    let mut record = WarcRecord::from_reader(ByteStream::new(response_record(no_colon))).unwrap();
    assert!(matches!(record.verify_block_digest(false), Err(DigestError::FormatError(_))));

    let bad = "WARC-Block-Digest: sha1:!!!!\r\n";
    let mut record = WarcRecord::from_reader(ByteStream::new(response_record(bad))).unwrap();
    assert!(matches!(record.verify_block_digest(false), Err(DigestError::FormatError(_))));

    let mut record = WarcRecord::from_reader(ByteStream::new(response_record(""))).unwrap();
    assert!(matches!(record.verify_payload_digest(false), Err(DigestError::NoPayload(_))));
}

#[test]
fn hex_and_md5_digests() {
    let md5 = "WARC-Block-Digest: md5:ef68b67d4c80b81ba2fe8e1d0b77b875\r\n";
    let mut record = WarcRecord::from_reader(ByteStream::new(response_record(md5))).unwrap();
    assert!(matches!(record.verify_block_digest(true), Ok(true)));
}

#[test]
fn payload_digest_after_http_parse() {
    let digest = "WARC-Payload-Digest: SHA1:AIED6RLZ4CFGCJBFYDA2C7XEPLOXQO4U\r\n";
    let mut record = WarcRecord::from_reader(ByteStream::new(response_record(digest))).unwrap();
    record.parse_http().unwrap();
    assert!(matches!(record.verify_payload_digest(false), Ok(true)));
}

#[test]
fn write_with_checksum_round_trip() {
    let mut record = WarcRecord::new();
    record.init_headers(5, Some(WarcRecordType::Resource), Some(b"urn:test:1")).unwrap();
    record.set_bytes_payload(b"hello".to_vec());
    let mut out = Vec::new();
    let n = record.write_with_checksum(&mut out).unwrap();
    assert_eq!(n, out.len());
    assert_eq!(
        record.headers().get("WARC-Block-Digest").as_deref(),
        Some("sha1:VL2MMHO4YXUKFWV63YHTWSBM3GXKSQ2N")
    );
    assert!(out.ends_with(b"hello\r\n\r\n"));

    let mut back = WarcRecord::from_reader(ByteStream::new(out)).unwrap();
    assert_eq!(back.record_type(), WarcRecordType::Resource);
    assert_eq!(back.record_id().as_deref(), Some("<urn:test:1>"));
    assert_eq!(back.content_length(), 5);
    assert!(matches!(back.verify_block_digest(false), Ok(true)));
}

#[test]
fn write_exact_bytes() {
    let mut record = WarcRecord::new();
    record.set_record_type(WarcRecordType::Metadata);
    record.set_bytes_payload(b"abc".to_vec());
    let mut out = Vec::new();
    let n = record.write_with_block_size(&mut out, 2).unwrap();
    let expected = b"WARC-Type: metadata\r\nContent-Length: 3\r\n\r\nabc\r\n\r\n".to_vec();
    assert_eq!(n, expected.len());
    assert_eq!(out, expected);

    let mut empty = WarcRecord::new();
    let mut out = Vec::new();
    assert!(matches!(empty.write(&mut out), Err(IoError::NoReader)));
    assert!(out.is_empty());
}

#[test]
fn init_headers_fields() {
    let mut record = WarcRecord::new();
    record.init_headers(12, Some(WarcRecordType::AnyType), Some(b"urn:x")).unwrap();
    assert_eq!(record.record_type(), WarcRecordType::Unknown);
    let h = record.headers();
    assert_eq!(h.status_line().as_deref(), Some("WARC/1.1"));
    assert_eq!(h.get("WARC-Type").as_deref(), Some("unknown"));
    assert_eq!(h.get("WARC-Record-ID").as_deref(), Some("<urn:x>"));
    assert_eq!(h.get("Content-Length").as_deref(), Some("12"));
    let date = h.get("WARC-Date").unwrap();
    assert_eq!(date.len(), 20);
    assert!(date.ends_with('Z'));
    assert_eq!(record.content_length(), 12);
    assert_eq!(h.len(), 4);

    let mut fresh = WarcRecord::new();
    fresh.init_headers(0, None, None).unwrap();
    assert_eq!(fresh.record_type(), WarcRecordType::NoType);
    let id = fresh.record_id().unwrap();
    assert!(id.starts_with("<urn:uuid:"));
    assert!(id.ends_with('>'));
    assert_eq!(id.len(), 47);
    assert_eq!(&id[18..19], "-");
}

#[test]
fn freeze_returns_original_stream() {
    let mut data = response_record("");
    data.extend_from_slice(b"NEXT");
    let mut record = WarcRecord::from_reader(ByteStream::new(data)).unwrap();
    let original = record.freeze().unwrap().unwrap();
    assert_eq!(original.fill_buf(), b"\r\n\r\nNEXT");
    assert!(record.is_frozen());
    let mut payload = Vec::new();
    record.reader_mut().unwrap().read_to_end(&mut payload);
    assert_eq!(payload, HTTP_BLOCK);
    assert!(matches!(record.freeze(), Ok(None)));
}

#[test]
fn set_is_http_sets_content_type() {
    let mut record = WarcRecord::new();
    record.set_record_type(WarcRecordType::Request);
    record.set_is_http(true);
    assert!(record.is_http());
    assert_eq!(record.headers().get("Content-Type").as_deref(), Some("application/http; msgtype=request"));
}

#[test]
fn record_type_bits_and_names() {
    assert_eq!(WarcRecordType::Response.as_str(), "response");
    assert!(WarcRecordType::Response.matches_bitmask(4));
    assert!(!WarcRecordType::Response.matches_bitmask(2));
    assert!(WarcRecordType::WarcInfo.matches_bitmask(WarcRecordType::AnyType.bits()));
    assert!(!WarcRecordType::NoType.matches_bitmask(65535));
    assert!(matches!(WarcRecordType::try_from_u16(512), Ok(WarcRecordType::Unknown)));
    assert!(WarcRecordType::try_from_u16(3).is_err());
    assert!(matches!(WarcRecordType::try_from_bytes(b"WarcInfo"), Ok(WarcRecordType::WarcInfo)));
    assert!(WarcRecordType::try_from_bytes(b"other").is_err());
    assert!(matches!(WarcRecordType::try_from_str("REVISIT"), Ok(WarcRecordType::Revisit)));
    assert_eq!(WarcRecordType::try_from_str("revisits"), Err("Invalid enum value."));
}

#[test]
fn limited_reader_stops_at_limit() {
    let mut r = LimitedBufReadSeek::new(ByteStream::new(b"abcdefgh".to_vec()), Some(3));
    assert_eq!(r.fill_buf(), b"abc");
    r.consume(2);
    assert_eq!(r.fill_buf(), b"c");
    assert!(matches!(r.real_stream_position(), Ok(2)));
    r.set_limit(4);
    assert_eq!(r.fill_buf(), b"cdef");
    assert!(matches!(r.seek(SeekFrom::Start(1)), Ok(1)));
    assert_eq!(r.fill_buf(), b"def");
    let mut rest = Vec::new();
    assert_eq!(r.read_to_end(&mut rest), 3);
    assert_eq!(rest, b"def");
    let old = r.replace_reader(ByteStream::new(b"xy".to_vec()));
    assert_eq!(old.fill_buf(), b"gh");
    r.rewind();
    assert_eq!(r.fill_buf(), b"xy");
    let mut unlimited = LimitedBufReadSeek::new(ByteStream::new(b"abc".to_vec()), None);
    unlimited.consume(1);
    assert_eq!(unlimited.into_inner().fill_buf(), b"bc");
}

#[test]
fn limited_reader_reads_into_buffers() {
    let mut r = LimitedBufReadSeek::new(ByteStream::new(b"abcdefgh".to_vec()), Some(5));
    let mut small = [0u8; 2];
    assert_eq!(r.read(&mut small), 2);
    assert_eq!(&small, b"ab");
    let mut large = [9u8; 6];
    assert_eq!(r.read(&mut large), 3);
    assert_eq!(&large, b"cde\x09\x09\x09");
    assert_eq!(r.read(&mut large), 0);
    assert_eq!(r.read(&mut []), 0);
}
