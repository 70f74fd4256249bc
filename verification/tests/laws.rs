use fastwarc::bench::bench_config;
use fastwarc::proto::{ParseWarcConfig, ResponseKind};
use fastwarc::record::WarcRecord;
use fastwarc::service::{collect_archive, parse_into};
use fastwarc::stream_io::ByteStream;

fn record(kind: &str, block: &[u8]) -> Vec<u8> {
    let mut data = format!(
        "WARC/1.0\r\nWARC-Type: {kind}\r\nWARC-Record-ID: <urn:uuid:{kind}>\r\nContent-Length: {}\r\n\r\n",
        block.len()
    )
    .into_bytes();
    data.extend_from_slice(block);
    data.extend_from_slice(b"\r\n\r\n");
    data
}

#[test]
fn from_reader_is_new_attach_parse() {
    let data = record("resource", b"payload");
    let a = WarcRecord::from_reader(ByteStream::new(data.clone())).unwrap();
    let mut b = WarcRecord::new();
    b.attach_reader(ByteStream::new(data));
    assert!(b.parse_warc_headers().is_ok());
    assert_eq!(a.headers().status_line(), b.headers().status_line());
    assert_eq!(a.record_type(), b.record_type());
    assert_eq!(a.is_http(), b.is_http());
    assert_eq!(a.content_length(), b.content_length());
    assert_eq!(a.stream_pos(), b.stream_pos());
    assert!(!a.is_frozen());
    assert!(WarcRecord::from_reader(ByteStream::new(b"garbage\r\n".to_vec())).is_err());
    let mut c = WarcRecord::new();
    c.attach_reader(ByteStream::new(b"garbage\r\n".to_vec()));
    assert!(c.parse_warc_headers().is_err());
}

#[test]
fn freeze_twice_changes_nothing() {
    let mut r = WarcRecord::from_reader(ByteStream::new(record("resource", b"hello"))).unwrap();
    assert!(matches!(r.freeze(), Ok(Some(_))));
    assert!(r.is_frozen());
    assert_eq!(r.content_length(), 5);
    assert!(matches!(r.freeze(), Ok(None)));
    assert_eq!(r.content_length(), 5);
    let mut payload = Vec::new();
    r.reader_mut().unwrap().read_to_end(&mut payload);
    assert_eq!(payload, b"hello".to_vec());
}

#[test]
fn chunks_respect_the_configured_size() {
    let block = vec![b'x'; 10];
    let config = ParseWarcConfig { parse_http: Some(false), payload_chunk_size: 4, ..Default::default() };
    let events = parse_into(ByteStream::new(record("resource", &block)), &config);
    let sizes: Vec<(u64, usize)> = events
        .iter()
        .filter_map(|e| match &e.kind {
            Some(ResponseKind::PayloadChunk(c)) => Some((c.offset, c.data.len())),
            _ => None,
        })
        .collect();
    assert_eq!(sizes, vec![(0, 4), (4, 4), (8, 2)]);
    match &events.last().unwrap().kind {
        Some(ResponseKind::RecordEnd(e)) => assert_eq!(e.payload_length, 10),
        other => panic!("unexpected event {other:?}"),
    }
}

#[test]
fn collected_records_are_the_event_blocks() {
    let mut data = record("warcinfo", b"ABC");
    data.extend_from_slice(&record("resource", b"hello"));
    data.extend_from_slice(b"NOT-A-WARC\r\n\r\n");
    let config = ParseWarcConfig { parse_http: Some(false), ..Default::default() };
    let events = parse_into(ByteStream::new(data.clone()), &config);
    let r = collect_archive(data, &config);
    let starts: Vec<_> = events
        .iter()
        .filter_map(|e| match &e.kind {
            Some(ResponseKind::RecordStart(s)) => Some(s.metadata.clone()),
            _ => None,
        })
        .collect();
    assert_eq!(r.records.len(), starts.len());
    for (rec, meta) in r.records.iter().zip(starts) {
        assert_eq!(rec.metadata, meta);
    }
    assert_eq!(r.records[0].payload, b"ABC".to_vec());
    assert_eq!(r.records[1].payload, b"hello".to_vec());
    assert_eq!(r.errors.len(), 1);
    assert!(!r.errors[0].recoverable);
}

#[test]
fn bench_config_truncates_the_buffer_size() {
    let c = bench_config("x.warc", 4096, false, false);
    assert_eq!(c.input_buffer_size, 4096);
    assert_eq!(c.stream_detect, None);
    assert_eq!(c.max_header_len, 0);
    assert!(c.archive_path.is_empty());
    let big = bench_config("x.warc", (1usize << 32) + 7, true, true);
    assert_eq!(big.input_buffer_size, 7);
    assert_eq!(big.archive_path, "x.warc");
}

#[test]
fn checksums_verify_when_read_back() {
    let data = record("resource", b"hello");
    let mut r = WarcRecord::from_reader(ByteStream::new(data)).unwrap();
    let mut out = Vec::new();
    assert!(r.write_with_checksum(&mut out).is_ok());
    assert_eq!(r.headers().get("WARC-Block-Digest").as_deref(), Some("sha1:VL2MMHO4YXUKFWV63YHTWSBM3GXKSQ2N"));
    // Writing read the block to its end, so this record has nothing left to digest.
    assert!(matches!(r.verify_block_digest(false), Ok(false)));
    let mut back = WarcRecord::from_reader(ByteStream::new(out)).unwrap();
    assert!(matches!(back.verify_block_digest(false), Ok(true)));
}

#[test]
fn init_headers_date_has_the_warc_shape() {
    let mut r = WarcRecord::new();
    assert!(r.init_headers(3, None, None).is_ok());
    let date = r.headers().get("WARC-Date").unwrap();
    let b = date.as_bytes();
    assert_eq!(b.len(), 20);
    for (i, c) in b.iter().enumerate() {
        match i {
            4 | 7 => assert_eq!(*c, b'-'),
            10 => assert_eq!(*c, b'T'),
            13 | 16 => assert_eq!(*c, b':'),
            19 => assert_eq!(*c, b'Z'),
            _ => assert!(c.is_ascii_digit()),
        }
    }
    let id = r.record_id().unwrap();
    assert_eq!(&id[24..25], "4");
}
