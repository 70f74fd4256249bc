use fastwarc::batch::{BatchEmitter, MAX_BATCH_BYTES};
use fastwarc::proto::{
    ParseWarcConfig, ParseWarcRequest, ParseWarcResponse, RecordBatch, RecordEnd, RequestKind, ResponseKind,
};
use fastwarc::service::{input_buffer_size, next_chunk, read_config, response, ChunkStep, RequestError};

fn end(n: u64) -> ParseWarcResponse {
    response(ResponseKind::RecordEnd(RecordEnd { payload_length: n }))
}

fn ends(messages: &[ParseWarcResponse]) -> Vec<u64> {
    let mut out = Vec::new();
    for m in messages {
        match &m.kind {
            Some(ResponseKind::RecordEnd(e)) => out.push(e.payload_length),
            Some(ResponseKind::Batch(RecordBatch { items })) => out.extend(ends(items)),
            _ => panic!("unexpected event"),
        }
    }
    out
}

#[test]
fn unbatched_events_pass_through() {
    let mut emitter = BatchEmitter::new(1);
    let out = emitter.emit(end(1), 10);
    assert_eq!(out, vec![end(1)]);
    assert_eq!(emitter.flush(), None);
}

#[test]
fn batches_fill_up_and_keep_order() {
    let mut emitter = BatchEmitter::new(3);
    let mut sent = Vec::new();
    for n in 0..7 {
        sent.extend(emitter.emit(end(n), 10));
    }
    assert_eq!(sent.len(), 2);
    assert!(matches!(&sent[0].kind, Some(ResponseKind::Batch(b)) if b.items.len() == 3));
    let last = emitter.flush().unwrap();
    assert_eq!(last, end(6));
    sent.push(last);
    assert_eq!(ends(&sent), vec![0, 1, 2, 3, 4, 5, 6]);
    assert_eq!(emitter.flush(), None);
}

#[test]
fn large_events_flush_early() {
    let mut emitter = BatchEmitter::new(100);
    assert!(emitter.emit(end(1), 1000).is_empty());
    let out = emitter.emit(end(2), MAX_BATCH_BYTES);
    assert_eq!(out.len(), 2);
    assert_eq!(out[0], end(1));
    assert_eq!(out[1], end(2));
    assert_eq!(emitter.flush(), None);
}

#[test]
fn request_stream_opening() {
    let config = ParseWarcConfig { verify_digests: true, ..Default::default() };
    let first = ParseWarcRequest { kind: Some(RequestKind::Config(config.clone())) };
    assert_eq!(read_config(Some(first)), Ok(config));
    assert_eq!(
        read_config(None),
        Err(RequestError::InvalidArgument(
            "empty ParseWarc request stream; first message must set `config`".to_string()
        ))
    );
    let chunk_first = ParseWarcRequest { kind: Some(RequestKind::Chunk(vec![1])) };
    assert_eq!(
        read_config(Some(chunk_first)),
        Err(RequestError::InvalidArgument("first ParseWarc request message must set `config`".to_string()))
    );
}

#[test]
fn request_stream_chunks() {
    let chunk = ParseWarcRequest { kind: Some(RequestKind::Chunk(b"abc".to_vec())) };
    assert_eq!(next_chunk(Some(chunk)), ChunkStep::Chunk(b"abc".to_vec()));
    assert_eq!(next_chunk(None), ChunkStep::End);
    let again = ParseWarcRequest { kind: Some(RequestKind::Config(ParseWarcConfig::default())) };
    assert_eq!(
        next_chunk(Some(again)),
        ChunkStep::Reject(RequestError::InvalidArgument(
            "`config` may only be set on the first request message".to_string()
        ))
    );
    assert_eq!(
        next_chunk(Some(ParseWarcRequest { kind: None })),
        ChunkStep::Reject(RequestError::InvalidArgument(
            "ParseWarc request message must set `config` or `chunk`".to_string()
        ))
    );
}

#[test]
fn archive_file_buffer() {
    assert_eq!(input_buffer_size(&ParseWarcConfig::default()), 65536);
    let config = ParseWarcConfig { input_buffer_size: 4096, ..Default::default() };
    assert_eq!(input_buffer_size(&config), 4096);
}
