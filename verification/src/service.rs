//! The parse pipeline of the service: an archive becomes an ordered stream of
//! response events (`record_start`, `payload_chunk`s, `record_end`, or
//! `record_error`), and a stream of events folds into the response of a
//! whole-archive call. Request validation lives here too.
use crate::convert::{
    auto_decode, auto_decode_of, AutoDecode, include_headers, include_payload, is_metadata_of, parse_http, passes_filters, record_metadata,
    record_passes_filters,
};
use crate::header::push_all;
use crate::proto as pb;
use crate::bytes::{find_from, lemma_line_end_bounds, line_end_from, strip_eol, trim_ascii};
use crate::header::{continued, parse_block_from, sanitize, HeaderEncoding, HeaderMapModel};
use crate::record::{
    advanced, find_warc_start, fresh_model, frozen_model, http_block_fits, http_parsed_model, http_too_long, opt_stream, parse_warc_headers_post, record_wf,
    rewound, verify_block_outcome, verify_result_of, StartLine, VerifyResult, WarcRecord, WarcRecordModel,
};
use crate::gzip::{gunzip_prefix, gunzipped_prefix, is_gzip};
use crate::stream_io::{ByteStream, IoError, LimitedBufReadSeek, StreamModel};
use vstd::prelude::*;
use vstd::string::StringExecFns;

verus! {

/// Default payload bytes per `payload_chunk` message: 64 KiB.
pub const DEFAULT_PAYLOAD_CHUNK_SIZE: usize = 65536;

/// Default cap on WARC and HTTP header block length: 32 KiB.
pub const DEFAULT_MAX_HEADER_LEN: usize = 32768;

/// Hard limit for `max_header_len`: 2 MiB.
pub const MAX_HEADER_LEN: usize = 2097152;

/// Hard limit for `payload_chunk_size`: 8 MiB, half the message limit.
pub const MAX_PAYLOAD_CHUNK_SIZE: usize = 8388608;

/// Default read buffer for server-side archive files: 64 KiB.
pub const DEFAULT_INPUT_BUFFER_SIZE: usize = 65536;

/// Hard limit for `input_buffer_size`: 16 MiB, the message limit.
pub const MAX_INPUT_BUFFER_SIZE: usize = 16777216;

/// A record error that ends the stream.
pub open spec fn is_fatal(e: pb::ParseWarcResponse) -> bool {
    e.kind matches Some(pb::ResponseKind::RecordError(err)) && !err.recoverable
}

/// Reading state after an event, from the state before it (`Some(n)`: a
/// record is open with `n` payload bytes so far); `None` if the event may not
/// stand there. Payload chunks occur only when `payload` is streamed.
pub open spec fn event_step(open: Option<nat>, e: pb::ParseWarcResponse, payload: bool) -> Option<Option<nat>> {
    match e.kind {
        Some(pb::ResponseKind::RecordStart(s)) => if open is None && s.metadata is Some {
            Some(Some(0nat))
        } else {
            None
        },
        Some(pb::ResponseKind::PayloadChunk(c)) => match open {
            Some(n) => if payload && c.offset == n && c.data@.len() > 0 {
                Some(Some(n + c.data@.len()))
            } else {
                None
            },
            None => None,
        },
        Some(pb::ResponseKind::RecordEnd(end)) => match open {
            Some(n) => if !payload || end.payload_length == n {
                Some(None)
            } else {
                None
            },
            None => None,
        },
        Some(pb::ResponseKind::RecordError(_)) => if open is None {
            Some(None::<nat>)
        } else {
            None
        },
        _ => None,
    }
}

/// Reading state after the events `s`.
pub open spec fn events_state(s: Seq<pb::ParseWarcResponse>, payload: bool) -> Option<Option<nat>>
    decreases s.len(),
{
    if s.len() == 0 {
        Some(None)
    } else {
        match events_state(s.drop_last(), payload) {
            Some(st) => event_step(st, s.last(), payload),
            None => None,
        }
    }
}

/// `s` is a well-formed response stream: each record opens with
/// `record_start`, carries payload chunks at contiguous offsets and closes
/// with a `record_end` that gives its payload length; errors stand between
/// records, and only the last event may be a non-recoverable error.
pub open spec fn events_ok(s: Seq<pb::ParseWarcResponse>, payload: bool) -> bool {
    &&& events_state(s, payload) == Some(None::<nat>)
    &&& forall|i: int| 0 <= i < s.len() - 1 ==> !is_fatal(#[trigger] s[i])
}

/// The payload bytes that the chunks in `s` carry, in order.
pub open spec fn chunk_bytes(s: Seq<pb::ParseWarcResponse>) -> Seq<u8>
    decreases s.len(),
{
    if s.len() == 0 {
        Seq::empty()
    } else {
        chunk_bytes(s.drop_last()) + match s.last().kind {
            Some(pb::ResponseKind::PayloadChunk(c)) => c.data@,
            _ => Seq::empty(),
        }
    }
}

/// A payload chunk of at most `size` bytes.
pub open spec fn is_chunk_within(e: pb::ParseWarcResponse, size: nat) -> bool {
    e.kind matches Some(pb::ResponseKind::PayloadChunk(c)) && c.data@.len() <= size
}

/// Whether `e` is a payload chunk.
pub open spec fn is_chunk(e: pb::ParseWarcResponse) -> bool {
    e.kind matches Some(pb::ResponseKind::PayloadChunk(_))
}

/// The bytes `e` carries if it is a payload chunk.
pub open spec fn chunk_data(e: pb::ParseWarcResponse) -> Seq<u8> {
    match e.kind {
        Some(pb::ResponseKind::PayloadChunk(c)) => c.data@,
        _ => Seq::empty(),
    }
}

/// The payload that the run of payload chunks starting at event `i` carries.
pub open spec fn chunks_from(s: Seq<pb::ParseWarcResponse>, i: int) -> Seq<u8>
    decreases s.len() - i,
{
    if 0 <= i < s.len() && is_chunk(s[i]) {
        chunk_data(s[i]) + chunks_from(s, i + 1)
    } else {
        Seq::empty()
    }
}

/// Every event from `i` on is a payload chunk.
pub open spec fn all_chunks_from(s: Seq<pb::ParseWarcResponse>, i: int) -> bool {
    forall|j: int| i <= j < s.len() ==> is_chunk(#[trigger] s[j])
}

/// Appending an event extends the run of chunks from `i` only if the run
/// reaches the end.
proof fn lemma_chunks_push(s: Seq<pb::ParseWarcResponse>, e: pb::ParseWarcResponse, i: int)
    requires
        0 <= i <= s.len(),
    ensures
        chunks_from(s.push(e), i) == if all_chunks_from(s, i) {
            chunks_from(s, i) + chunk_data(e)
        } else {
            chunks_from(s, i)
        },
    decreases s.len() - i,
{
    let t = s.push(e);
    if i == s.len() {
        assert(chunks_from(t, i + 1) == Seq::<u8>::empty());
        if is_chunk(e) {
            assert(chunks_from(t, i) =~= chunk_data(e));
        }
        assert(chunks_from(s, i) =~= Seq::<u8>::empty());
    } else {
        assert(t[i] == s[i]);
        lemma_chunks_push(s, e, i + 1);
        if is_chunk(s[i]) {
            assert(all_chunks_from(s, i) == all_chunks_from(s, i + 1)) by {
                if all_chunks_from(s, i + 1) {
                    assert forall|j: int| i <= j < s.len() implies is_chunk(#[trigger] s[j]) by {
                        if j > i {
                            assert(is_chunk(s[j]));
                        }
                    }
                }
            }
            assert(chunks_from(t, i) =~= chunk_data(s[i]) + chunks_from(t, i + 1));
            if all_chunks_from(s, i) {
                assert(chunks_from(t, i) =~= chunks_from(s, i) + chunk_data(e));
            }
        } else {
            assert(!all_chunks_from(s, i));
        }
    }
}

/// Events appended after a run of chunks that ends inside `prev` leave the
/// run as it is.
proof fn lemma_chunks_prefix(prev: Seq<pb::ParseWarcResponse>, out: Seq<pb::ParseWarcResponse>, j: int)
    requires
        0 <= j <= prev.len() <= out.len(),
        out.take(prev.len() as int) == prev,
        !all_chunks_from(prev, j),
    ensures
        chunks_from(out, j) == chunks_from(prev, j),
    decreases prev.len() - j,
{
    if j < prev.len() {
        assert(out[j] == prev[j]);
        if is_chunk(prev[j]) {
            assert(!all_chunks_from(prev, j + 1));
            lemma_chunks_prefix(prev, out, j + 1);
        }
    }
}

/// A stream that stands between records ends with neither a chunk nor a
/// `record_start`.
proof fn lemma_closed_last(s: Seq<pb::ParseWarcResponse>, payload: bool)
    requires
        events_state(s, payload) == Some(None::<nat>),
        s.len() > 0,
    ensures
        !is_chunk(s.last()),
        !is_record_start(s.last()),
{
}

/// A response carrying one event.
pub fn response(kind: pb::ResponseKind) -> (r: pb::ParseWarcResponse)
    ensures
        r.kind == Some(kind),
{
    pb::ParseWarcResponse { kind: Some(kind) }
}

/// A `record_error` event.
pub fn record_error(stream_pos: u64, recoverable: bool, message: String) -> (r: pb::ParseWarcResponse)
    ensures
        r.kind matches Some(pb::ResponseKind::RecordError(e)) && e.stream_pos == stream_pos && e.recoverable
            == recoverable && e.message == message,
{
    response(pb::ResponseKind::RecordError(pb::RecordError { stream_pos, recoverable, message }))
}

/// `s` streams `rest`, from payload offset `offset` on, as chunks of `size`
/// bytes (the last one may be shorter) and then ends with a `record_end`
/// that gives the payload length.
pub open spec fn payload_events(s: Seq<pb::ParseWarcResponse>, offset: nat, rest: Seq<u8>, size: nat) -> bool
    decreases rest.len(),
{
    if rest.len() == 0 {
        s.len() == 1 && ends_with_length(s, 0, offset)
    } else if size == 0 {
        false
    } else {
        let n: nat = if rest.len() < size {
            rest.len()
        } else {
            size
        };
        &&& s.len() > 0
        &&& chunk_at(s[0], offset, rest.take(n as int))
        &&& payload_events(s.drop_first(), offset + n, rest.skip(n as int), size)
    }
}

/// `e` is a payload chunk at payload offset `offset` carrying `data`.
pub open spec fn chunk_at(e: pb::ParseWarcResponse, offset: nat, data: Seq<u8>) -> bool {
    &&& e.kind matches Some(pb::ResponseKind::PayloadChunk(c))
    &&& c.offset == offset
    &&& c.data@ == data
}

/// Number of events [`payload_events`] takes for `len` payload bytes.
pub open spec fn payload_event_count(len: nat, size: nat) -> nat
    decreases len,
{
    if len == 0 || size == 0 {
        1
    } else {
        let n: nat = if len < size {
            len
        } else {
            size
        };
        1 + payload_event_count((len - n) as nat, size)
    }
}

proof fn lemma_payload_event_count(s: Seq<pb::ParseWarcResponse>, offset: nat, rest: Seq<u8>, size: nat)
    requires
        payload_events(s, offset, rest, size),
    ensures
        s.len() == payload_event_count(rest.len(), size),
    decreases rest.len(),
{
    if rest.len() > 0 {
        let n: nat = if rest.len() < size {
            rest.len()
        } else {
            size
        };
        lemma_payload_event_count(s.drop_first(), offset + n, rest.skip(n as int), size);
    }
}

/// A chunk of the next `size` bytes of `rest` followed by the events of the
/// bytes after it are the events of `rest`.
proof fn lemma_payload_step(
    t: Seq<pb::ParseWarcResponse>,
    c: pb::ParseWarcResponse,
    offset: nat,
    rest: Seq<u8>,
    size: nat,
    n: nat,
)
    requires
        rest.len() > 0,
        size > 0,
        n == (if rest.len() < size { rest.len() } else { size }),
        chunk_at(c, offset, rest.take(n as int)),
        payload_events(t, offset + n, rest.skip(n as int), size),
    ensures
        payload_events(seq![c] + t, offset, rest, size),
{
    assert((seq![c] + t).drop_first() =~= t);
    assert((seq![c] + t)[0] == c);
}

/// Stream what `reader` still yields as payload chunks of at most
/// `chunk_size` bytes onto `out`; returns the number of payload bytes.
fn stream_payload(reader: &mut LimitedBufReadSeek, chunk_size: usize, out: &mut Vec<pb::ParseWarcResponse>) -> (r: u64)
    requires
        chunk_size > 0,
        old(reader)@.wf(),
        events_state(old(out)@, true) == Some(Some(0nat)),
    ensures
        final(reader)@.wf(),
        final(reader)@.remaining().len() == 0,
        final(reader)@.stream.data == old(reader)@.stream.data,
        final(reader)@.stream.pos >= old(reader)@.stream.pos,
        final(reader)@.stream.pos == old(reader)@.stream.pos + old(reader)@.remaining().len(),
        r == old(reader)@.remaining().len(),
        forall|t: Seq<pb::ParseWarcResponse>| #[trigger]
            payload_events(t, r as nat, Seq::empty(), chunk_size as nat) ==> payload_events(
                final(out)@.skip(old(out)@.len() as int) + t,
                0,
                old(reader)@.remaining(),
                chunk_size as nat,
            ),
        events_state(final(out)@, true) == Some(Some(r as nat)),
        chunk_bytes(final(out)@) == chunk_bytes(old(out)@) + old(reader)@.remaining(),
        chunks_from(final(out)@, old(out)@.len() as int) == old(reader)@.remaining(),
        final(out)@.len() >= old(out)@.len(),
        final(out)@.take(old(out)@.len() as int) == old(out)@,
        forall|i: int| old(out)@.len() <= i < final(out)@.len() ==> is_chunk_within(#[trigger] final(out)@[i], chunk_size as nat),
{
    let ghost data = reader@.remaining();
    let ghost base = out@.len();
    let mut offset: u64 = 0;
    proof {
        reader.lemma_bounds();
        assert(data.skip(0) =~= data);
        assert forall|t: Seq<pb::ParseWarcResponse>| #[trigger]
            payload_events(t, 0, data.skip(0), chunk_size as nat) implies payload_events(
            out@.skip(base as int) + t,
            0,
            data,
            chunk_size as nat,
        ) by {
            assert(out@.skip(base as int) + t =~= t);
        }
    }
    loop
        invariant
            chunk_size > 0,
            reader@.wf(),
            reader@.stream.data == old(reader)@.stream.data,
            reader@.stream.pos >= old(reader)@.stream.pos,
            reader@.stream.pos == old(reader)@.stream.pos + offset,
            data == old(reader)@.remaining(),
            forall|t: Seq<pb::ParseWarcResponse>| #[trigger]
                payload_events(t, offset as nat, data.skip(offset as int), chunk_size as nat) ==> payload_events(
                    out@.skip(base as int) + t,
                    0,
                    data,
                    chunk_size as nat,
                ),
            offset <= data.len(),
            data.len() <= usize::MAX,
            reader@.remaining() == data.skip(offset as int),
            events_state(out@, true) == Some(Some(offset as nat)),
            chunk_bytes(out@) == chunk_bytes(old(out)@) + data.take(offset as int),
            chunks_from(out@, base as int) == data.take(offset as int),
            out@.len() >= base,
            base == old(out)@.len(),
            out@.take(base as int) == old(out)@,
            forall|i: int| base <= i < out@.len() ==> is_chunk_within(#[trigger] out@[i], chunk_size as nat),
        decreases data.len() - offset,
    {
        let window = reader.fill_buf();
        if window.len() == 0 {
            assert(data.skip(offset as int).len() == 0);
            assert(data.take(offset as int) =~= data);
            assert(data.skip(offset as int) =~= Seq::<u8>::empty());
            return offset;
        }
        let n = if window.len() < chunk_size {
            window.len()
        } else {
            chunk_size
        };
        let bytes = crate::header::copy_bytes(vstd::slice::slice_subrange(window, 0, n));
        reader.consume(n);
        let ghost before = out@;
        out.push(response(pb::ResponseKind::PayloadChunk(pb::PayloadChunk { offset, data: bytes })));
        assert(out@.drop_last() =~= before);
        proof {
            assert(out@ == before.push(out@.last()));
            assert(all_chunks_from(before, base as int)) by {
                assert forall|j: int| base <= j < before.len() implies is_chunk(#[trigger] before[j]) by {
                    assert(is_chunk_within(before[j], chunk_size as nat));
                }
            }
            lemma_chunks_push(before, out@.last(), base as int);
        }
        assert(data.take(offset + n) =~= data.take(offset as int) + bytes@);
        assert(out@.take(base as int) =~= before.take(base as int));
        proof {
            let c = out@.last();
            let rest = data.skip(offset as int);
            assert(rest.take(n as int) =~= bytes@);
            assert(rest.skip(n as int) =~= data.skip(offset + n));
            assert forall|t: Seq<pb::ParseWarcResponse>| #[trigger]
                payload_events(t, (offset + n) as nat, data.skip(offset + n), chunk_size as nat) implies payload_events(
                out@.skip(base as int) + t,
                0,
                data,
                chunk_size as nat,
            ) by {
                lemma_payload_step(t, c, offset as nat, rest, chunk_size as nat, n as nat);
                assert(payload_events(seq![c] + t, offset as nat, rest, chunk_size as nat));
                assert(payload_events(before.skip(base as int) + (seq![c] + t), 0, data, chunk_size as nat));
                assert(out@.skip(base as int) + t =~= before.skip(base as int) + (seq![c] + t));
            }
        }
        assert(reader@.remaining() =~= data.skip(offset + n));
        offset = offset + n as u64;
    }
}

/// `e` is a `record_start` with the metadata of the record in state `m`,
/// numbered `index`.
pub open spec fn start_event_ok(e: pb::ParseWarcResponse, m: WarcRecordModel, index: nat, include_headers: bool) -> bool {
    &&& e.kind matches Some(pb::ResponseKind::RecordStart(st))
    &&& st.metadata matches Some(md)
    &&& md.record_index == index
    &&& is_metadata_of(md, m, md.record_index, include_headers)
}

/// `seg` are the events of the record in state `m`, numbered `index`: its
/// `record_start`, then with `payload` its block as chunks of `size` bytes
/// and a `record_end` with the payload length, else a `record_end` with its
/// content length.
pub open spec fn record_events(
    seg: Seq<pb::ParseWarcResponse>,
    m: WarcRecordModel,
    index: nat,
    payload: bool,
    include_headers: bool,
    size: nat,
) -> bool {
    &&& seg.len() > 0
    &&& start_event_ok(seg[0], m, index, include_headers)
    &&& if payload {
        payload_events(seg.drop_first(), 0, block_of(m), size)
    } else {
        seg.len() == 2 && ends_with_length(seg, 1, m.content_length)
    }
}

/// Number of events [`record_events`] takes.
pub open spec fn record_event_count(m: WarcRecordModel, payload: bool, size: nat) -> nat {
    if payload {
        1 + payload_event_count(block_of(m).len(), size)
    } else {
        2
    }
}

proof fn lemma_record_event_count(
    seg: Seq<pb::ParseWarcResponse>,
    m: WarcRecordModel,
    index: nat,
    payload: bool,
    include_headers: bool,
    size: nat,
)
    requires
        record_events(seg, m, index, payload, include_headers, size),
    ensures
        seg.len() == record_event_count(m, payload, size),
{
    if payload {
        lemma_payload_event_count(seg.drop_first(), 0, block_of(m), size);
    }
}

/// A `record_start` carrying metadata of the record in state `m` at `index`.
pub open spec fn is_start_of(e: pb::ParseWarcResponse, m: WarcRecordModel, index: u64, include_headers: bool) -> bool {
    e.kind matches Some(pb::ResponseKind::RecordStart(st)) && st.metadata matches Some(md) && is_metadata_of(
        md,
        m,
        index,
        include_headers,
    )
}

/// Emit the events of a kept record onto `out`: `record_start` with its
/// metadata, its remaining block as payload chunks (with `include_payload`),
/// and `record_end` with the payload length (without `include_payload`, the
/// record's content length).
fn emit_record(
    record: &mut WarcRecord,
    include_payload: bool,
    include_headers: bool,
    chunk_size: usize,
    index: u64,
    out: &mut Vec<pb::ParseWarcResponse>,
)
    requires
        record_wf(old(record)@),
        chunk_size > 0,
        events_state(old(out)@, include_payload) == Some(None::<nat>),
    ensures
        record_wf(final(record)@),
        final(record)@.reader_original == old(record)@.reader_original,
        final(record)@.frozen == old(record)@.frozen,
        old(record)@.reader matches Some(rd) ==> final(record)@.reader matches Some(rd2) && rd2.stream.data
            == rd.stream.data && rd2.stream.pos >= rd.stream.pos,
        events_state(final(out)@, include_payload) == Some(None::<nat>),
        final(out)@.len() > old(out)@.len(),
        final(out)@.take(old(out)@.len() as int) == old(out)@,
        is_start_of(final(out)@[old(out)@.len() as int], old(record)@, index, include_headers),
        forall|i: int| old(out)@.len() < i < final(out)@.len() ==> !(#[trigger] final(out)@[i].kind is Some
            && final(out)@[i].kind->0 is RecordStart) && !is_fatal(final(out)@[i]),
        include_payload ==> chunk_bytes(final(out)@) == chunk_bytes(old(out)@) + block_of(old(record)@),
        include_payload ==> chunks_from(final(out)@, old(out)@.len() as int + 1) == block_of(old(record)@),
        !include_payload ==> ends_with_length(final(out)@, old(out)@.len() as int + 1, old(record)@.content_length),
        record_events(
            final(out)@.skip(old(out)@.len() as int),
            old(record)@,
            index as nat,
            include_payload,
            include_headers,
            chunk_size as nat,
        ),
        next_stream_of(final(record)@) == next_stream_of(old(record)@),
{
    let ghost base = out@;
    let metadata = record_metadata(record, index, include_headers);
    out.push(response(pb::ResponseKind::RecordStart(pb::RecordStart { metadata: Some(metadata) })));
    assert(out@.drop_last() =~= base);
    let ghost started = out@;
    assert(events_state(started, include_payload) == Some(Some(0nat)));
    assert(chunk_bytes(started) =~= chunk_bytes(base));
    let payload_length: u64 = if include_payload {
        match record.reader_mut() {
            Some(reader) => {
                let n = stream_payload(reader, chunk_size, out);
                proof {
                    reader.lemma_bounds();
                }
                n
            },
            None => 0,
        }
    } else {
        record.content_length() as u64
    };
    let ghost streamed = out@;
    out.push(response(pb::ResponseKind::RecordEnd(pb::RecordEnd { payload_length })));
    assert(out@.drop_last() =~= streamed);
    assert(chunk_bytes(out@) =~= chunk_bytes(streamed));
    proof {
        assert(out@ == streamed.push(out@.last()));
        lemma_chunks_push(streamed, out@.last(), started.len() as int);
        assert(chunk_data(out@.last()) =~= Seq::<u8>::empty());
        if include_payload && old(record)@.reader is None {
            assert(streamed == started);
            assert(chunks_from(started, started.len() as int) =~= Seq::<u8>::empty());
        }
    }
    assert(events_state(out@, include_payload) == Some(None::<nat>));
    assert(streamed.take(started.len() as int) == started);
    assert(out@.take(base.len() as int) =~= base) by {
        assert(started.take(base.len() as int) =~= base);
    }
    assert(out@[base.len() as int] == started[base.len() as int]);
    proof {
        let seg = out@.skip(base.len() as int);
        let end = out@.last();
        assert(seg[0] == out@[base.len() as int]);
        assert(start_event_ok(seg[0], old(record)@, index as nat, include_headers));
        if include_payload {
            assert(payload_events(seq![end], payload_length as nat, Seq::<u8>::empty(), chunk_size as nat)) by {
                assert(seq![end][0] == end);
            }
            if old(record)@.reader is Some {
                assert(seg.drop_first() =~= streamed.skip(started.len() as int) + seq![end]);
            } else {
                assert(seg.drop_first() =~= seq![end]);
                assert(block_of(old(record)@) =~= Seq::<u8>::empty());
            }
        } else {
            assert(seg[1] == out@[base.len() as int + 1]);
        }
    }
    assert forall|i: int| base.len() < i < out@.len() implies !(#[trigger] out@[i].kind is Some
        && out@[i].kind->0 is RecordStart) && !is_fatal(out@[i]) by {
        if i < streamed.len() {
            assert(out@[i] == streamed[i]);
            if include_payload && old(record)@.reader is Some {
                assert(is_chunk_within(streamed[i], chunk_size as nat));
            }
        }
    }
}

/// The block a record still yields fits in its content length.
pub open spec fn block_within(m: WarcRecordModel) -> bool {
    m.reader matches Some(rd) ==> rd.remaining().len() <= m.content_length
}

proof fn lemma_parse_block_bounds(s: Seq<u8>, pos: int, h: HeaderMapModel, expect_first: bool)
    requires
        0 <= pos <= s.len(),
    ensures
        pos <= parse_block_from(s, pos, h, expect_first).1 <= s.len(),
    decreases s.len() - pos,
{
    if pos < s.len() {
        lemma_line_end_bounds(s, pos);
        let e = line_end_from(s, pos);
        let t = strip_eol(s.subrange(pos, e));
        if t.len() == 0 {
        } else if expect_first {
            lemma_parse_block_bounds(
                s,
                e,
                HeaderMapModel { status_line: Some(sanitize(t, true)), raw: None, ..h },
                false,
            );
        } else if t[0] == 32u8 || t[0] == 9u8 {
            lemma_parse_block_bounds(s, e, HeaderMapModel { fields: continued(h.fields, t), raw: None, ..h }, false);
        } else {
            let c = find_from(t, 58u8, 0);
            if c < t.len() {
                let f = (trim_ascii(t.subrange(0, c)), trim_ascii(t.subrange(c + 1, t.len() as int)));
                lemma_parse_block_bounds(s, e, HeaderMapModel { fields: h.fields.push(f), raw: None, ..h }, false);
            } else {
                lemma_parse_block_bounds(s, e, HeaderMapModel { fields: continued(h.fields, t), raw: None, ..h }, false);
            }
        }
    }
}

/// A record whose block fits its content length can have its HTTP headers parsed.
proof fn lemma_block_within_fits(m: WarcRecordModel)
    requires
        block_within(m),
    ensures
        http_block_fits(m),
{
    if m.reader is Some {
        lemma_parse_block_bounds(
            m.reader->0.remaining(),
            0,
            HeaderMapModel { encoding: HeaderEncoding::Latin1, status_line: None, fields: Seq::empty(), raw: None },
            true,
        );
    }
}

/// Verifying the block digest of a fresh (unfrozen, unread) record without
/// consuming it keeps its block within its content length.
proof fn lemma_verify_keeps_within(old: WarcRecordModel)
    requires
        record_wf(old),
        block_within(old),
        !old.frozen,
        old.reader matches Some(rd) ==> rd.pos == 0,
    ensures
        block_within(verify_block_outcome(old, false).1),
{
    if old.reader is Some {
        let rd = old.reader->0;
        let rem = rd.remaining();
        let fz = frozen_model(old);
        let frd = fz.reader->0;
        assert(rem.len() <= usize::MAX);
        assert(frd.stream.rest() =~= rem);
        assert(frd.remaining() =~= rem);
        let after = advanced(frd, rem.len());
        assert(rewound(after) == frd);
    }
}

/// The stream a finished record hands back reads `d` from position `p` or
/// later: its kept original stream, or, unless it is frozen, its attached
/// one.
pub open spec fn returns_stream_over(m: WarcRecordModel, d: Seq<u8>, p: nat) -> bool {
    &&& m.reader_original matches Some(s) ==> s.data == d && s.pos >= p
    &&& !m.frozen ==> (m.reader matches Some(rd) ==> rd.stream.data == d && rd.stream.pos >= p)
}

/// A version line found from `pos` on lies within `s`, after `pos`.
proof fn lemma_start_bounds(s: Seq<u8>, pos: int, quirks: bool)
    requires
        0 <= pos,
    ensures
        find_warc_start(s, pos, quirks) matches StartLine::Found { start, end, status } ==> pos <= start < end
            <= s.len(),
    decreases s.len() - pos,
{
    if pos < s.len() {
        lemma_line_end_bounds(s, pos);
        let e = line_end_from(s, pos);
        if e > pos {
            lemma_start_bounds(s, e, quirks);
        }
    }
}

/// A record whose WARC headers were read from `st` still reads its block
/// from `st`, past the version line, has no parsed HTTP headers and is not
/// frozen; `st` had bytes left to read.
proof fn lemma_headers_read(st: StreamModel, m0: WarcRecordModel, quirks: bool)
    requires
        parse_warc_headers_post(fresh_model(st), m0, Ok::<(), IoError>(()), quirks),
        st.data.len() <= usize::MAX,
    ensures
        !m0.http_parsed,
        !m0.frozen,
        m0.reader_original is None,
        m0.reader matches Some(rd) && rd.stream.data == st.data,
        st.pos < st.data.len(),
        m0.stream_pos >= st.pos,
        returns_stream_over(m0, st.data, m0.stream_pos + 1),
{
    let rd = fresh_model(st).reader->0;
    let s = rd.remaining();
    assert(s == st.rest());
    lemma_start_bounds(s, 0, quirks);
    match find_warc_start(s, 0, quirks) {
        StartLine::Found { start, end, status } => {
            let h0 = HeaderMapModel { encoding: HeaderEncoding::Unicode, status_line: Some(status), fields: Seq::empty(), raw: None };
            lemma_parse_block_bounds(s, end, h0, false);
        },
        _ => {},
    }
}

/// Verifying the block digest without consuming it keeps the stream a
/// record hands back and its HTTP state; a digest that was checked leaves a
/// reader attached.
proof fn lemma_verify_returns_stream(m: WarcRecordModel, d: Seq<u8>, p: nat)
    requires
        returns_stream_over(m, d, p),
        !m.frozen,
    ensures
        returns_stream_over(verify_block_outcome(m, false).1, d, p),
        verify_block_outcome(m, false).1.http_parsed == m.http_parsed,
        verify_block_outcome(m, false).1.is_http == m.is_http,
        verify_block_outcome(m, false).0 is Matches ==> verify_block_outcome(m, false).1.reader is Some,
{
}

/// The stream a finished record in state `m` hands back: the kept original
/// stream of a frozen record; else the kept original stream if there is
/// one, or the attached stream moved past what the reader still yields.
pub open spec fn next_stream_of(m: WarcRecordModel) -> Option<StreamModel> {
    if m.frozen {
        m.reader_original
    } else {
        match m.reader_original {
            Some(s) => Some(s),
            None => match m.reader {
                Some(rd) => Some(StreamModel { pos: rd.stream.pos + rd.remaining().len(), ..rd.stream }),
                None => None,
            },
        }
    }
}

/// Where the stream that a finished record in state `m` hands back stands
/// (0 if it hands none back).
pub open spec fn next_pos(m: WarcRecordModel) -> nat {
    match next_stream_of(m) {
        Some(s) => s.pos,
        None => 0,
    }
}

/// Finish a record and hand back the stream positioned after its block: the
/// original stream of a frozen record, else the attached stream after the
/// rest of the block was skipped.
fn into_next_stream(record: WarcRecord, Ghost(data): Ghost<Seq<u8>>, Ghost(p): Ghost<nat>) -> (r: Option<
    ByteStream,
>)
    requires
        record_wf(record@),
        returns_stream_over(record@, data, p),
    ensures
        opt_stream(r) == next_stream_of(record@),
        r matches Some(b) ==> b@.data == data && b@.pos >= p,
{
    let mut record = record;
    if record.is_frozen() {
        match record.freeze() {
            Ok(original) => original,
            Err(_) => None,
        }
    } else {
        match record.reader_mut() {
            Some(reader) => {
                let n = reader.fill_buf().len();
                reader.consume(n);
                proof {
                    reader.lemma_bounds();
                }
            },
            None => {},
        }
        record.detach_reader()
    }
}

/// Whether `config` asks for payload chunks (unset means yes).
pub open spec fn payload_included(config: pb::ParseWarcConfig) -> bool {
    config.include_payload != Some(false)
}

/// Whether `config` asks for header blocks (unset means yes).
pub open spec fn headers_included(config: pb::ParseWarcConfig) -> bool {
    config.include_headers != Some(false)
}

/// A `record_start` in `e` carries the metadata of a record that passes the
/// filters of `config` and, where HTTP parsing is on, has its HTTP headers
/// parsed if it is an HTTP record.
pub open spec fn start_passes(e: pb::ParseWarcResponse, config: pb::ParseWarcConfig) -> bool {
    (e.kind is Some && e.kind->0 is RecordStart) ==> exists|m: WarcRecordModel, index: u64|
        #[trigger] is_start_of(e, m, index, headers_included(config)) && passes_filters(m, config)
            && (config.parse_http != Some(false) && m.is_http ==> m.http_parsed)
}

/// The record the pipeline keeps of `m0`, a record whose WARC headers were
/// just read: with `verify_digests` its block digest must match (checked
/// without consuming the block), with HTTP parsing on an HTTP record has its
/// HTTP headers parsed, and the result must pass the filters of `config`.
pub open spec fn kept_record(m0: WarcRecordModel, config: pb::ParseWarcConfig) -> Option<WarcRecordModel> {
    if digest_ok(m0, config) && !http_refused(m0, config) && passes_filters(screened(m0, config), config) {
        Some(screened(m0, config))
    } else {
        None
    }
}

/// Whether the digest check of the pipeline lets `m0` through.
pub open spec fn digest_ok(m0: WarcRecordModel, config: pb::ParseWarcConfig) -> bool {
    !config.verify_digests || verify_block_outcome(m0, false).0 == VerifyResult::Matches(true)
}

/// The state the pipeline leaves `m0` in, kept or not: its block digest
/// checked with `verify_digests` (without consuming the block), then, if the
/// digest matched, its HTTP headers parsed with HTTP parsing on for an HTTP
/// record.
pub open spec fn screened(m0: WarcRecordModel, config: pb::ParseWarcConfig) -> WarcRecordModel {
    let m1 = digest_checked(m0, config);
    if digest_ok(m0, config) && config.parse_http != Some(false) && m1.is_http && !http_refused(m0, config) {
        http_parsed_model(m1)
    } else {
        m1
    }
}

/// State of a record in state `m0` after its block digest is checked (with
/// `verify_digests`).
pub open spec fn digest_checked(m0: WarcRecordModel, config: pb::ParseWarcConfig) -> WarcRecordModel {
    if config.verify_digests {
        verify_block_outcome(m0, false).1
    } else {
        m0
    }
}

/// Header block limit a configuration asks for (32 KiB when unset).
pub open spec fn max_header_len_for(config: pb::ParseWarcConfig) -> nat {
    if config.max_header_len == 0 {
        DEFAULT_MAX_HEADER_LEN as nat
    } else {
        config.max_header_len as nat
    }
}

/// The record's HTTP headers are to be parsed, but their block is longer
/// than the configured limit.
pub open spec fn http_refused(m0: WarcRecordModel, config: pb::ParseWarcConfig) -> bool {
    &&& digest_ok(m0, config)
    &&& config.parse_http != Some(false)
    &&& http_too_long(digest_checked(m0, config), max_header_len_for(config))
}

/// The record's WARC header block is longer than the configured limit.
pub open spec fn warc_too_long(m0: WarcRecordModel, config: pb::ParseWarcConfig) -> bool {
    m0.headers.raw matches Some(b) && b.len() > max_header_len_for(config)
}

/// Text of the recoverable error for HTTP headers over the limit.
pub open spec fn http_error_text() -> Seq<char> {
    "failed to parse HTTP headers: "@ + IoError::HeaderTooLong.text()
}

/// A recoverable `record_error` at the position of the record `m` saying
/// that its HTTP headers could not be parsed.
pub open spec fn http_error_event(e: pb::ParseWarcResponse, m: WarcRecordModel) -> bool {
    &&& e.kind matches Some(pb::ResponseKind::RecordError(x))
    &&& x.stream_pos == m.stream_pos
    &&& x.recoverable
    &&& x.message@ == http_error_text()
}

/// Result and state of reading WARC headers from `st` into a fresh record.
pub open spec fn headers_read(st: StreamModel, quirks: bool) -> (Result<(), IoError>, WarcRecordModel) {
    choose|p: (Result<(), IoError>, WarcRecordModel)| parse_warc_headers_post(fresh_model(st), p.1, p.0, quirks)
}

/// Reading headers gives one result and state only.
proof fn lemma_headers_read_is(st: StreamModel, quirks: bool, r: Result<(), IoError>, m: WarcRecordModel)
    requires
        parse_warc_headers_post(fresh_model(st), m, r, quirks),
    ensures
        headers_read(st, quirks) == (r, m),
{
    let w = (r, m);
    assert(parse_warc_headers_post(fresh_model(st), w.1, w.0, quirks));
    let p = headers_read(st, quirks);
    assert(parse_warc_headers_post(fresh_model(st), p.1, p.0, quirks));
}

/// A non-recoverable `record_error` at stream position 0 carrying the text of `err`.
pub open spec fn fatal_event(e: pb::ParseWarcResponse, err: IoError) -> bool {
    &&& e.kind matches Some(pb::ResponseKind::RecordError(x))
    &&& x.stream_pos == 0
    &&& !x.recoverable
    &&& x.message@ == err.text()
}

/// Bytes of `data` left from `pos` on.
pub open spec fn left(data: Seq<u8>, pos: nat) -> nat {
    if pos < data.len() {
        (data.len() - pos) as nat
    } else {
        0
    }
}

/// Payload chunk size a configuration asks for (64 KiB when unset).
pub open spec fn chunk_size_for(config: pb::ParseWarcConfig) -> nat {
    if config.payload_chunk_size == 0 {
        DEFAULT_PAYLOAD_CHUNK_SIZE as nat
    } else {
        config.payload_chunk_size as nat
    }
}

/// `s` is what the pipeline emits for the archive `data` read from `pos` on,
/// numbering records from `index`: the end of the archive ends it; a line
/// that does not start a record ends it with a framing error; else the
/// record read there is checked ([`screened`]), its events are emitted if it
/// is kept ([`record_events`]), and the pipeline goes on where the record
/// hands the stream back.
#[verifier::opaque]
pub open spec fn run_from(
    data: Seq<u8>,
    pos: nat,
    index: nat,
    config: pb::ParseWarcConfig,
    size: nat,
    s: Seq<pb::ParseWarcResponse>,
) -> bool
    decreases left(data, pos),
{
    let (r, m0) = headers_read(StreamModel { data, pos }, config.quirks_mode);
    match r {
        Err(IoError::UnexpectedEof) => s.len() == 0,
        Err(e) => s.len() == 1 && fatal_event(s[0], e),
        Ok(_) => if warc_too_long(m0, config) {
            s.len() == 1 && fatal_event(s[0], IoError::HeaderTooLong)
        } else {
            let m = screened(m0, config);
            let kept = kept_record(m0, config) is Some;
            let refused = http_refused(m0, config);
            let k: int = if kept {
                record_event_count(m, payload_included(config), size) as int
            } else if refused {
                1
            } else {
                0
            };
            let next = next_pos(m);
            &&& k <= s.len()
            &&& (kept ==> record_events(
                s.take(k),
                m,
                index,
                payload_included(config),
                headers_included(config),
                size,
            ))
            &&& (refused ==> http_error_event(s[0], m))
            &&& if pos < data.len() && pos < next {
                run_from(data, next, index + 1, config, size, s.skip(k))
            } else {
                s.len() == k
            }
        },
    }
}

/// The pipeline emits nothing at the end of the archive.
proof fn lemma_run_eof(st: StreamModel, index: nat, config: pb::ParseWarcConfig, size: nat, m: WarcRecordModel)
    requires
        headers_read(st, config.quirks_mode) == (Err::<(), IoError>(IoError::UnexpectedEof), m),
    ensures
        run_from(st.data, st.pos, index, config, size, Seq::empty()),
{
    reveal(run_from);
    assert(st == StreamModel { data: st.data, pos: st.pos });
}

/// The pipeline emits one framing error where no record starts.
proof fn lemma_run_fatal(
    st: StreamModel,
    index: nat,
    config: pb::ParseWarcConfig,
    size: nat,
    m: WarcRecordModel,
    e: IoError,
    ev: pb::ParseWarcResponse,
)
    requires
        (headers_read(st, config.quirks_mode) == (Err::<(), IoError>(e), m) && e != IoError::UnexpectedEof) || (
        headers_read(st, config.quirks_mode) == (Ok::<(), IoError>(()), m) && warc_too_long(m, config) && e
            == IoError::HeaderTooLong),
        fatal_event(ev, e),
    ensures
        run_from(st.data, st.pos, index, config, size, seq![ev]),
{
    reveal(run_from);
    assert(st == StreamModel { data: st.data, pos: st.pos });
    assert(seq![ev][0] == ev);
}

/// The events of the record read at `st` followed by what the pipeline
/// emits after it are what the pipeline emits from `st` on.
proof fn lemma_run_record(
    st: StreamModel,
    index: nat,
    config: pb::ParseWarcConfig,
    size: nat,
    m0: WarcRecordModel,
    seg: Seq<pb::ParseWarcResponse>,
    t: Seq<pb::ParseWarcResponse>,
)
    requires
        headers_read(st, config.quirks_mode) == (Ok::<(), IoError>(()), m0),
        !warc_too_long(m0, config),
        st.pos < st.data.len(),
        http_refused(m0, config) ==> seg.len() == 1 && http_error_event(seg[0], screened(m0, config)),
        kept_record(m0, config) is Some ==> record_events(
            seg,
            screened(m0, config),
            index,
            payload_included(config),
            headers_included(config),
            size,
        ),
        kept_record(m0, config) is None && !http_refused(m0, config) ==> seg.len() == 0,
        st.pos < next_pos(screened(m0, config)) ==> run_from(
            st.data,
            next_pos(screened(m0, config)),
            index + 1,
            config,
            size,
            t,
        ),
        !(st.pos < next_pos(screened(m0, config))) ==> t.len() == 0,
    ensures
        run_from(st.data, st.pos, index, config, size, seg + t),
{
    reveal(run_from);
    assert(st == StreamModel { data: st.data, pos: st.pos });
    if kept_record(m0, config) is Some {
        lemma_record_event_count(
            seg,
            screened(m0, config),
            index,
            payload_included(config),
            headers_included(config),
            size,
        );
    }
    assert((seg + t).take(seg.len() as int) =~= seg);
    assert((seg + t).skip(seg.len() as int) =~= t);
}

/// `e` is a `record_start` with the metadata of the record kept of `m0`.
pub open spec fn keeps(e: pb::ParseWarcResponse, m0: WarcRecordModel, config: pb::ParseWarcConfig) -> bool {
    match (e.kind, kept_record(m0, config)) {
        (Some(pb::ResponseKind::RecordStart(st)), Some(m)) => st.metadata matches Some(md) && is_metadata_of(
            md,
            m,
            md.record_index,
            headers_included(config),
        ),
        _ => false,
    }
}

/// The number a `record_start` gives its record (-1 for other events).
pub open spec fn start_number(e: pb::ParseWarcResponse) -> int {
    match e.kind {
        Some(pb::ResponseKind::RecordStart(st)) => match st.metadata {
            Some(md) => md.record_index as int,
            None => -1,
        },
        _ => -1,
    }
}

/// Whether `e` opens a record.
pub open spec fn is_record_start(e: pb::ParseWarcResponse) -> bool {
    e.kind is Some && e.kind->0 is RecordStart
}

/// Records in `s` are numbered in increasing order.
pub open spec fn numbered_in_order(s: Seq<pb::ParseWarcResponse>) -> bool {
    forall|i: int, j: int|
        0 <= i < j < s.len() && is_record_start(s[i]) && is_record_start(s[j]) ==> #[trigger] start_number(s[i])
            < #[trigger] start_number(s[j])
}

/// The archive offset that a `record_start` gives its record (-1 for other
/// events).
pub open spec fn start_pos(e: pb::ParseWarcResponse) -> int {
    match e.kind {
        Some(pb::ResponseKind::RecordStart(st)) => match st.metadata {
            Some(md) => md.stream_pos as int,
            None => -1,
        },
        _ => -1,
    }
}

/// Records in `s` come in increasing order of their archive offsets.
pub open spec fn positions_in_order(s: Seq<pb::ParseWarcResponse>) -> bool {
    forall|i: int, j: int|
        0 <= i < j < s.len() && is_record_start(s[i]) && is_record_start(s[j]) ==> #[trigger] start_pos(s[i])
            < #[trigger] start_pos(s[j])
}

/// Appending the events of a kept record that lies at or after `bound` to a
/// stream whose records lie before `bound` keeps them in archive order.
proof fn lemma_emitted_positions(
    prev: Seq<pb::ParseWarcResponse>,
    out: Seq<pb::ParseWarcResponse>,
    kept: WarcRecordModel,
    index: u64,
    bound: nat,
    config: pb::ParseWarcConfig,
)
    requires
        out.len() > prev.len(),
        out.take(prev.len() as int) == prev,
        is_start_of(out[prev.len() as int], kept, index, headers_included(config)),
        forall|i: int| prev.len() < i < out.len() ==> !(#[trigger] out[i].kind is Some && out[i].kind->0 is RecordStart),
        kept.stream_pos >= bound,
        forall|i: int| 0 <= i < prev.len() && is_record_start(prev[i]) ==> #[trigger] start_pos(prev[i]) < bound,
        positions_in_order(prev),
    ensures
        forall|i: int| 0 <= i < out.len() && is_record_start(out[i]) ==> #[trigger] start_pos(out[i]) <= kept.stream_pos,
        positions_in_order(out),
{
    let p = prev.len() as int;
    assert(start_pos(out[p]) == kept.stream_pos);
    assert forall|i: int| 0 <= i < out.len() && is_record_start(out[i]) implies #[trigger] start_pos(out[i])
        <= kept.stream_pos by {
        if i < p {
            assert(out[i] == prev[i]);
        } else if i > p {
            assert(!(out[i].kind is Some && out[i].kind->0 is RecordStart));
        }
    }
    assert forall|i: int, j: int|
        0 <= i < j < out.len() && is_record_start(out[i]) && is_record_start(out[j]) implies #[trigger] start_pos(
            out[i],
        ) < #[trigger] start_pos(out[j]) by {
        assert(out[i] == prev[i]);
        if j < p {
            assert(out[j] == prev[j]);
        } else if j > p {
            assert(!(out[j].kind is Some && out[j].kind->0 is RecordStart));
        }
    }
}

/// Appending the events of a kept record numbered `index` to a stream whose
/// records are numbered below `index` keeps the filters, the framing errors
/// and the numbering that [`parse_into`] promises of its events.
proof fn lemma_emitted(
    prev: Seq<pb::ParseWarcResponse>,
    out: Seq<pb::ParseWarcResponse>,
    kept: WarcRecordModel,
    index: u64,
    config: pb::ParseWarcConfig,
)
    requires
        out.len() > prev.len(),
        out.take(prev.len() as int) == prev,
        is_start_of(out[prev.len() as int], kept, index, headers_included(config)),
        forall|i: int| prev.len() < i < out.len() ==> !(#[trigger] out[i].kind is Some && out[i].kind->0 is RecordStart)
            && !is_fatal(out[i]),
        passes_filters(kept, config),
        config.parse_http != Some(false) && kept.is_http ==> kept.http_parsed,
        forall|i: int| 0 <= i < prev.len() ==> start_passes(#[trigger] prev[i], config),
        forall|i: int| 0 <= i < prev.len() ==> !is_fatal(#[trigger] prev[i]),
        forall|i: int| 0 <= i < prev.len() && is_record_start(prev[i]) ==> #[trigger] start_number(prev[i]) < index,
        numbered_in_order(prev),
    ensures
        forall|i: int| 0 <= i < out.len() ==> start_passes(#[trigger] out[i], config) && !is_fatal(out[i]),
        forall|i: int| 0 <= i < out.len() && is_record_start(out[i]) ==> #[trigger] start_number(out[i]) <= index,
        numbered_in_order(out),
{
    let p = prev.len() as int;
    assert forall|i: int| 0 <= i < out.len() implies start_passes(#[trigger] out[i], config) && !is_fatal(out[i]) by {
        if i < p {
            assert(out[i] == prev[i]);
        } else if i == p {
            assert(is_start_of(out[i], kept, index, headers_included(config)));
        } else {
            assert(!(out[i].kind is Some && out[i].kind->0 is RecordStart));
        }
    }
    assert forall|i: int| 0 <= i < out.len() && is_record_start(out[i]) implies #[trigger] start_number(out[i])
        <= index by {
        if i < p {
            assert(out[i] == prev[i]);
        } else if i > p {
            assert(!(out[i].kind is Some && out[i].kind->0 is RecordStart));
        }
    }
    assert forall|i: int, j: int|
        0 <= i < j < out.len() && is_record_start(out[i]) && is_record_start(out[j]) implies #[trigger] start_number(
            out[i],
        ) < #[trigger] start_number(out[j]) by {
        assert(out[i] == prev[i]);
        if j < p {
            assert(out[j] == prev[j]);
        } else if j > p {
            assert(!(out[j].kind is Some && out[j].kind->0 is RecordStart));
        }
    }
}

/// What a finished record still yields of its block.
pub open spec fn block_of(m: WarcRecordModel) -> Seq<u8> {
    match m.reader {
        Some(rd) => rd.remaining(),
        None => Seq::empty(),
    }
}

/// Event `j` of `s` is a `record_end` giving the payload length `n`.
pub open spec fn ends_with_length(s: Seq<pb::ParseWarcResponse>, j: int, n: nat) -> bool {
    &&& 0 <= j < s.len()
    &&& s[j].kind matches Some(pb::ResponseKind::RecordEnd(e))
    &&& e.payload_length == n
}

/// A `record_start` at event `i` of `s` describes the record that the
/// pipeline keeps after reading WARC headers from `data` at some offset.
/// When payload is streamed, the payload chunks that follow it carry exactly
/// the block that record yields; otherwise the `record_end` right after it
/// gives the record's content length.
pub open spec fn record_from(s: Seq<pb::ParseWarcResponse>, i: int, data: Seq<u8>, config: pb::ParseWarcConfig) -> bool {
    is_record_start(s[i]) ==> exists|pos: nat, m0: WarcRecordModel|
        #[trigger] parse_warc_headers_post(
            fresh_model(StreamModel { data, pos }),
            m0,
            Ok::<(), IoError>(()),
            config.quirks_mode,
        ) && keeps(s[i], m0, config) && (payload_included(config) ==> chunks_from(s, i + 1) == block_of(
            kept_record(m0, config)->0,
        )) && (!payload_included(config) ==> ends_with_length(s, i + 1, kept_record(m0, config)->0.content_length))
}

/// Appending an event that neither is a chunk nor opens a record keeps
/// what the records before it are said to come from.
proof fn lemma_event_pushed(
    prev: Seq<pb::ParseWarcResponse>,
    e: pb::ParseWarcResponse,
    data: Seq<u8>,
    config: pb::ParseWarcConfig,
)
    requires
        !is_chunk(e),
        !is_record_start(e),
        events_state(prev, payload_included(config)) == Some(None::<nat>),
        forall|i: int| 0 <= i < prev.len() ==> record_from(prev, i, data, config),
    ensures
        forall|i: int| 0 <= i < prev.len() + 1 ==> record_from(prev.push(e), i, data, config),
{
    let out = prev.push(e);
    if prev.len() > 0 {
        lemma_closed_last(prev, payload_included(config));
    }
    assert forall|i: int| 0 <= i < prev.len() + 1 implies record_from(out, i, data, config) by {
        if i < prev.len() {
            assert(out[i] == prev[i]);
            if is_record_start(prev[i]) {
                assert(record_from(prev, i, data, config));
                let (pos, m0) = choose|pos: nat, m0: WarcRecordModel|
                    #[trigger] parse_warc_headers_post(
                        fresh_model(StreamModel { data, pos }),
                        m0,
                        Ok::<(), IoError>(()),
                        config.quirks_mode,
                    ) && keeps(prev[i], m0, config) && (payload_included(config) ==> chunks_from(prev, i + 1)
                        == block_of(kept_record(m0, config)->0)) && (!payload_included(config) ==> ends_with_length(
                        prev,
                        i + 1,
                        kept_record(m0, config)->0.content_length,
                    ));
                assert(i + 1 < prev.len());
                assert(out[i + 1] == prev[i + 1]);
                lemma_chunks_push(prev, e, i + 1);
                assert(chunk_data(e) =~= Seq::<u8>::empty());
                assert(chunks_from(out, i + 1) =~= chunks_from(prev, i + 1));
            }
        } else {
            assert(out[i] == e);
        }
    }
}

/// Appending the events of the record kept of `m0` (read at `st`) keeps
/// what each record is said to come from.
#[verifier::rlimit(40)]
proof fn lemma_emitted_from(
    prev: Seq<pb::ParseWarcResponse>,
    out: Seq<pb::ParseWarcResponse>,
    m0: WarcRecordModel,
    st: StreamModel,
    config: pb::ParseWarcConfig,
)
    requires
        out.len() > prev.len(),
        out.take(prev.len() as int) == prev,
        events_state(prev, payload_included(config)) == Some(None::<nat>),
        parse_warc_headers_post(fresh_model(st), m0, Ok::<(), IoError>(()), config.quirks_mode),
        kept_record(m0, config) is Some,
        keeps(out[prev.len() as int], m0, config),
        payload_included(config) ==> chunks_from(out, prev.len() as int + 1) == block_of(kept_record(m0, config)->0),
        !payload_included(config) ==> ends_with_length(out, prev.len() as int + 1, kept_record(m0, config)->0.content_length),
        forall|i: int| prev.len() < i < out.len() ==> !(#[trigger] out[i].kind is Some && out[i].kind->0 is RecordStart),
        forall|i: int| 0 <= i < prev.len() ==> record_from(prev, i, st.data, config),
    ensures
        forall|i: int| 0 <= i < out.len() ==> record_from(out, i, st.data, config),
{
    let p = prev.len() as int;
    let data = st.data;
    assert(st == StreamModel { data, pos: st.pos });
    if p > 0 {
        lemma_closed_last(prev, payload_included(config));
    }
    assert forall|i: int| 0 <= i < out.len() implies record_from(out, i, data, config) by {
        if i < p {
            assert(out[i] == prev[i]);
            if is_record_start(prev[i]) {
                assert(record_from(prev, i, data, config));
                let (pos, m1) = choose|pos: nat, m1: WarcRecordModel|
                    #[trigger] parse_warc_headers_post(
                        fresh_model(StreamModel { data, pos }),
                        m1,
                        Ok::<(), IoError>(()),
                        config.quirks_mode,
                    ) && keeps(prev[i], m1, config) && (payload_included(config) ==> chunks_from(prev, i + 1)
                        == block_of(kept_record(m1, config)->0)) && (!payload_included(config) ==> ends_with_length(
                        prev,
                        i + 1,
                        kept_record(m1, config)->0.content_length,
                    ));
                assert(i + 1 < p);
                assert(out[i + 1] == prev[i + 1]);
                assert(!is_chunk(prev[p - 1]));
                assert(!all_chunks_from(prev, i + 1));
                lemma_chunks_prefix(prev, out, i + 1);
            }
        } else if i == p {
            assert(parse_warc_headers_post(
                fresh_model(StreamModel { data, pos: st.pos }),
                m0,
                Ok::<(), IoError>(()),
                config.quirks_mode,
            ));
        } else {
            assert(!(out[i].kind is Some && out[i].kind->0 is RecordStart));
        }
    }
}

/// Check a record whose WARC headers were just read from `st`: its block
/// digest with `verify_digests`, its HTTP headers with HTTP parsing on, then
/// the filters of `config`. Returns whether it is kept and, where its HTTP
/// headers could not be parsed, the message of that error.
fn screen_record(record: &mut WarcRecord, config: &pb::ParseWarcConfig, Ghost(st): Ghost<StreamModel>) -> (r: (
    bool,
    Option<String>,
))
    requires
        record_wf(old(record)@),
        block_within(old(record)@),
        parse_warc_headers_post(fresh_model(st), old(record)@, Ok::<(), IoError>(()), config.quirks_mode),
    ensures
        record_wf(final(record)@),
        returns_stream_over(final(record)@, st.data, old(record)@.stream_pos + 1),
        r.0 ==> r.1 is None && kept_record(old(record)@, *config) == Some(final(record)@),
        final(record)@ == screened(old(record)@, *config),
        r.0 == kept_record(old(record)@, *config) is Some,
        match r.1 {
            Some(msg) => http_refused(old(record)@, *config) && msg@ == http_error_text(),
            None => !http_refused(old(record)@, *config),
        },
{
    let ghost m0 = record@;
    proof {
        lemma_headers_read(st, m0, config.quirks_mode);
    }
    let mut keep = true;
    if config.verify_digests {
        proof {
            lemma_verify_keeps_within(record@);
            lemma_verify_returns_stream(record@, st.data, m0.stream_pos + 1);
        }
        let vr = record.verify_block_digest(false);
        let ghost vres = verify_result_of(vr);
        keep = match vr {
            Ok(valid) => valid,
            Err(_) => false,
        };
        assert(keep == (vres == VerifyResult::Matches(true)));
    }
    let ghost m1 = record@;
    assert(keep ==> m1 == (if config.verify_digests {
        verify_block_outcome(m0, false).1
    } else {
        m0
    }) && (config.verify_digests ==> verify_block_outcome(m0, false).0 == VerifyResult::Matches(true)));
    assert(returns_stream_over(m1, st.data, m0.stream_pos + 1));
    assert(keep ==> !m1.http_parsed && m1.reader is Some);
    let max_len: usize = if config.max_header_len == 0 {
        DEFAULT_MAX_HEADER_LEN
    } else {
        config.max_header_len as usize
    };
    assert(max_len as nat == max_header_len_for(*config));
    assert(m1 == digest_checked(m0, *config) || !keep);
    if keep && parse_http(config) && record.is_http() {
        proof {
            lemma_block_within_fits(record@);
        }
        match record.parse_http_limited(max_len) {
            Ok(()) => {},
            Err(e) => {
                assert(e == IoError::HeaderTooLong);
                let mut message = String::from_str("failed to parse HTTP headers: ");
                message.append(e.message());
                return (false, Some(message));
            },
        }
    }
    assert(keep ==> !http_refused(m0, *config));
    assert(keep ==> record@ == (if config.parse_http != Some(false) && m1.is_http {
        http_parsed_model(m1)
    } else {
        m1
    }));
    if keep {
        keep = record_passes_filters(record, config);
    }
    (keep, None)
}

/// Append a `record_error` event (which neither opens a record nor carries
/// payload) between records, keeping what the events before it are said to
/// come from.
fn push_error_event(
    out: &mut Vec<pb::ParseWarcResponse>,
    ev: pb::ParseWarcResponse,
    Ghost(data): Ghost<Seq<u8>>,
    config: &pb::ParseWarcConfig,
)
    requires
        ev.kind matches Some(pb::ResponseKind::RecordError(_)),
        events_state(old(out)@, payload_included(*config)) == Some(None::<nat>),
        forall|i: int| 0 <= i < old(out)@.len() ==> start_passes(#[trigger] old(out)@[i], *config),
        forall|i: int| 0 <= i < old(out)@.len() ==> #[trigger] record_from(old(out)@, i, data, *config),
        numbered_in_order(old(out)@),
        positions_in_order(old(out)@),
    ensures
        final(out)@ == old(out)@.push(ev),
        events_state(final(out)@, payload_included(*config)) == Some(None::<nat>),
        forall|i: int| 0 <= i < final(out)@.len() ==> start_passes(#[trigger] final(out)@[i], *config),
        forall|i: int| 0 <= i < final(out)@.len() ==> #[trigger] record_from(final(out)@, i, data, *config),
        numbered_in_order(final(out)@),
        positions_in_order(final(out)@),
{
    let ghost prev = out@;
    out.push(ev);
    assert(out@.drop_last() =~= prev);
    assert forall|i: int| 0 <= i < out@.len() implies start_passes(#[trigger] out@[i], *config) by {
        if i < prev.len() {
            assert(out@[i] == prev[i]);
        }
    }
    proof {
        lemma_event_pushed(prev, ev, data, *config);
    }
    assert(numbered_in_order(out@)) by {
        assert forall|i: int, j: int|
            0 <= i < j < out@.len() && is_record_start(out@[i]) && is_record_start(
                out@[j],
            ) implies #[trigger] start_number(out@[i]) < #[trigger] start_number(out@[j]) by {
            assert(out@[i] == prev[i]);
            if j < prev.len() {
                assert(out@[j] == prev[j]);
            }
        }
    }
    assert(positions_in_order(out@)) by {
        assert forall|i: int, j: int|
            0 <= i < j < out@.len() && is_record_start(out@[i]) && is_record_start(
                out@[j],
            ) implies #[trigger] start_pos(out@[i]) < #[trigger] start_pos(out@[j]) by {
            assert(out@[i] == prev[i]);
            if j < prev.len() {
                assert(out@[j] == prev[j]);
            }
        }
    }
}

/// Parse the record that `stream` starts with and append its events to
/// `out`: a framing error, or the events of the record if it is kept.
/// Returns the stream after the record, or `None` where parsing ends (at the
/// end of the archive, after a framing error, or where the record hands no
/// stream back).
#[verifier::rlimit(60)]
fn parse_record(
    stream: ByteStream,
    out: &mut Vec<pb::ParseWarcResponse>,
    index: u64,
    config: &pb::ParseWarcConfig,
    chunk_size: usize,
    with_payload: bool,
    with_headers: bool,
    Ghost(size): Ghost<nat>,
) -> (next: Option<ByteStream>)
    requires
        chunk_size > 0,
        size == chunk_size as nat,
        with_payload == payload_included(*config),
        with_headers == headers_included(*config),
        events_state(old(out)@, with_payload) == Some(None::<nat>),
        forall|i: int| 0 <= i < old(out)@.len() ==> !is_fatal(#[trigger] old(out)@[i]),
        forall|i: int| 0 <= i < old(out)@.len() ==> start_passes(#[trigger] old(out)@[i], *config),
        forall|i: int| 0 <= i < old(out)@.len() ==> #[trigger] record_from(old(out)@, i, stream@.data, *config),
        numbered_in_order(old(out)@),
        positions_in_order(old(out)@),
        forall|i: int|
            0 <= i < old(out)@.len() && is_record_start(old(out)@[i]) ==> #[trigger] start_number(old(out)@[i])
                < index,
        forall|i: int|
            0 <= i < old(out)@.len() && is_record_start(old(out)@[i]) ==> #[trigger] start_pos(old(out)@[i])
                < stream@.pos,
    ensures
        final(out)@.len() >= old(out)@.len(),
        final(out)@ == old(out)@ + final(out)@.skip(old(out)@.len() as int),
        events_state(final(out)@, with_payload) == Some(None::<nat>),
        forall|i: int| 0 <= i < final(out)@.len() - 1 ==> !is_fatal(#[trigger] final(out)@[i]),
        forall|i: int| 0 <= i < final(out)@.len() ==> start_passes(#[trigger] final(out)@[i], *config),
        forall|i: int| 0 <= i < final(out)@.len() ==> #[trigger] record_from(final(out)@, i, stream@.data, *config),
        numbered_in_order(final(out)@),
        positions_in_order(final(out)@),
        next matches Some(b) ==> {
            &&& b@.data == stream@.data
            &&& b@.rest().len() < stream@.rest().len()
            &&& forall|i: int| 0 <= i < final(out)@.len() ==> !is_fatal(#[trigger] final(out)@[i])
            &&& forall|i: int|
                0 <= i < final(out)@.len() && is_record_start(final(out)@[i]) ==> #[trigger] start_number(
                    final(out)@[i],
                ) < index + 1
            &&& forall|i: int|
                0 <= i < final(out)@.len() && is_record_start(final(out)@[i]) ==> #[trigger] start_pos(
                    final(out)@[i],
                ) < b@.pos
            &&& forall|t: Seq<pb::ParseWarcResponse>| #[trigger]
                run_from(stream@.data, b@.pos, index as nat + 1, *config, size, t) ==> run_from(
                    stream@.data,
                    stream@.pos,
                    index as nat,
                    *config,
                    size,
                    final(out)@.skip(old(out)@.len() as int) + t,
                )
        },
        next is None ==> run_from(
            stream@.data,
            stream@.pos,
            index as nat,
            *config,
            size,
            final(out)@.skip(old(out)@.len() as int),
        ),
{
    let ghost out0 = out@;
    let ghost st = stream@;
    let ghost data0 = st.data;
    let mut record = WarcRecord::new();
    proof {
        stream.lemma_bounds();
    }
    record.attach_reader(stream);
    assert(record@ == fresh_model(st));
    let parsed = record.parse_warc_headers_quirks(config.quirks_mode);
    proof {
        lemma_headers_read_is(st, config.quirks_mode, parsed, record@);
    }
    let max_len: usize = if config.max_header_len == 0 {
        DEFAULT_MAX_HEADER_LEN
    } else {
        config.max_header_len as usize
    };
    assert(max_len as nat == max_header_len_for(*config));
    let failure: Option<IoError> = match parsed {
        Ok(()) => match record.headers().raw_len() {
            Some(n) => if n > max_len {
                Some(IoError::HeaderTooLong)
            } else {
                None
            },
            None => None,
        },
        Err(IoError::UnexpectedEof) => {
            proof {
                lemma_run_eof(st, index as nat, *config, size, record@);
                assert(out@.skip(out0.len() as int) =~= Seq::<pb::ParseWarcResponse>::empty());
                assert(out@ =~= out0 + out@.skip(out0.len() as int));
            }
            return None;
        },
        Err(e) => Some(e),
    };
    match failure {
        Some(e) => {
            let ghost prev = out@;
            let ev = record_error(0, false, String::from_str(e.message()));
            proof {
                assert(fatal_event(ev, e));
                lemma_run_fatal(st, index as nat, *config, size, record@, e, ev);
            }
            push_error_event(out, ev, Ghost(data0), config);
            proof {
                assert(out@.skip(out0.len() as int) =~= seq![ev]);
                assert(out@ =~= out0 + out@.skip(out0.len() as int));
            }
            assert forall|i: int| 0 <= i < out@.len() - 1 implies !is_fatal(#[trigger] out@[i]) by {
                assert(out@[i] == prev[i]);
            }
            return None;
        },
        None => {},
    }
    assert(!warc_too_long(record@, *config));
    assert(block_within(record@));
    let ghost m0 = record@;
    proof {
        lemma_headers_read(st, m0, config.quirks_mode);
    }
    let (keep, http_error) = screen_record(&mut record, config, Ghost(st));
    let ghost seg: Seq<pb::ParseWarcResponse> = Seq::empty();
    match http_error {
        Some(message) => {
            let ghost prev = out@;
            let ev = record_error(record.stream_pos() as u64, true, message);
            push_error_event(out, ev, Ghost(data0), config);
            proof {
                seg = seq![ev];
                assert(http_error_event(ev, screened(m0, *config)));
                assert(out@ =~= out0 + seg);
            }
            assert forall|i: int| 0 <= i < out@.len() implies !is_fatal(#[trigger] out@[i]) by {
                if i < prev.len() {
                    assert(out@[i] == prev[i]);
                }
            }
            assert forall|i: int|
                0 <= i < out@.len() && is_record_start(out@[i]) implies #[trigger] start_number(out@[i]) < index + 1 by {
                assert(out@[i] == prev[i]);
            }
        },
        None => {},
    }
    if keep {
        let ghost kept = record@;
        let ghost prev = out@;
        assert(kept_record(m0, *config) == Some(kept));
        emit_record(&mut record, with_payload, with_headers, chunk_size, index, out);
        proof {
            assert(passes_filters(kept, *config));
            assert(config.parse_http != Some(false) && kept.is_http ==> kept.http_parsed);
            lemma_emitted(prev, out@, kept, index, *config);
            lemma_emitted_positions(prev, out@, kept, index, st.pos, *config);
            assert(keeps(out@[prev.len() as int], m0, *config));
            lemma_emitted_from(prev, out@, m0, st, *config);
            seg = out@.skip(prev.len() as int);
            assert(out@ =~= out0 + seg);
        }
    }
    assert(out@ =~= out0 + seg);
    assert(out@.skip(out0.len() as int) =~= seg);
    assert(next_stream_of(record@) == next_stream_of(screened(m0, *config)));
    let next = into_next_stream(record, Ghost(data0), Ghost((m0.stream_pos + 1) as nat));
    match next {
        Some(b) => {
            proof {
                b.lemma_bounds();
                assert(b@.pos == next_pos(screened(m0, *config)));
                assert(st.pos < b@.pos);
                assert(b@.rest().len() < st.rest().len());
                assert forall|t: Seq<pb::ParseWarcResponse>| #[trigger]
                    run_from(data0, b@.pos, index as nat + 1, *config, size, t) implies run_from(
                    data0,
                    st.pos,
                    index as nat,
                    *config,
                    size,
                    seg + t,
                ) by {
                    lemma_run_record(st, index as nat, *config, size, m0, seg, t);
                }
            }
            Some(b)
        },
        None => {
            proof {
                lemma_run_record(st, index as nat, *config, size, m0, seg, Seq::empty());
                assert(seg + Seq::<pb::ParseWarcResponse>::empty() =~= seg);
            }
            None
        },
    }
}

/// Parse an archive read as it stands and emit one ordered event sequence
/// per kept record.
///
/// Each record's WARC headers are parsed (skipping any non-header lines in
/// quirks mode); a WARC header block longer than `max_header_len` (32 KiB
/// when unset) is a framing failure. With `verify_digests`, records whose
/// block digest is missing or does not match are skipped. With HTTP parsing
/// on (the default), HTTP headers are parsed first; an HTTP header block
/// longer than `max_header_len` gives a recoverable `record_error` at the
/// record's position, and parsing goes on with the next record. Records that
/// fail the type, length or built-in filters are skipped silently. A WARC
/// framing failure ends the stream with a non-recoverable `record_error`;
/// the end of the archive ends it cleanly. Records are numbered from 0 in
/// archive order, skipped ones included.
#[verifier::rlimit(60)]
pub fn parse_stream(archive: ByteStream, config: &pb::ParseWarcConfig) -> (r: Vec<pb::ParseWarcResponse>)
    ensures
        events_ok(r@, payload_included(*config)),
        forall|i: int| 0 <= i < r@.len() ==> start_passes(#[trigger] r@[i], *config),
        forall|i: int| 0 <= i < r@.len() ==> #[trigger] record_from(r@, i, archive@.data, *config),
        numbered_in_order(r@),
        positions_in_order(r@),
        run_from(archive@.data, archive@.pos, 0, *config, chunk_size_for(*config), r@),
{
    let chunk_size: usize = if config.payload_chunk_size == 0 {
        DEFAULT_PAYLOAD_CHUNK_SIZE
    } else {
        config.payload_chunk_size as usize
    };
    let with_payload = include_payload(config);
    let with_headers = include_headers(config);
    let mut out: Vec<pb::ParseWarcResponse> = Vec::new();
    let ghost data0 = archive@.data;
    let ghost pos0 = archive@.pos;
    let ghost size = chunk_size_for(*config);
    let mut stream = archive;
    let mut index: u64 = 0;
    proof {
        stream.lemma_bounds();
        assert forall|t: Seq<pb::ParseWarcResponse>| #[trigger]
            run_from(data0, stream@.pos, index as nat, *config, size, t) implies run_from(
            data0,
            pos0,
            0,
            *config,
            size,
            out@ + t,
        ) by {
            assert(out@ + t =~= t);
        }
    }
    let ghost total = stream@.rest().len();
    loop
        invariant_except_break
            forall|i: int| 0 <= i < out@.len() && is_record_start(out@[i]) ==> #[trigger] start_number(out@[i]) < index,
            forall|i: int| 0 <= i < out@.len() && is_record_start(out@[i]) ==> #[trigger] start_pos(out@[i]) < stream@.pos,
            forall|i: int| 0 <= i < out@.len() ==> !is_fatal(#[trigger] out@[i]),
            forall|t: Seq<pb::ParseWarcResponse>| #[trigger]
                run_from(data0, stream@.pos, index as nat, *config, size, t) ==> run_from(
                    data0,
                    pos0,
                    0,
                    *config,
                    size,
                    out@ + t,
                ),
            index + stream@.rest().len() <= total,
            stream@.data == data0,
        invariant
            chunk_size > 0,
            with_payload == payload_included(*config),
            with_headers == headers_included(*config),
            total <= usize::MAX,
            data0 == archive@.data,
            pos0 == archive@.pos,
            size == chunk_size_for(*config),
            size == chunk_size as nat,
            events_state(out@, with_payload) == Some(None::<nat>),
            forall|i: int| 0 <= i < out@.len() ==> start_passes(#[trigger] out@[i], *config),
            forall|i: int| 0 <= i < out@.len() ==> #[trigger] record_from(out@, i, data0, *config),
            numbered_in_order(out@),
            positions_in_order(out@),
        ensures
            events_state(out@, with_payload) == Some(None::<nat>),
            forall|i: int| 0 <= i < out@.len() - 1 ==> !is_fatal(#[trigger] out@[i]),
            forall|i: int| 0 <= i < out@.len() ==> start_passes(#[trigger] out@[i], *config),
            forall|i: int| 0 <= i < out@.len() ==> #[trigger] record_from(out@, i, data0, *config),
            numbered_in_order(out@),
            positions_in_order(out@),
            run_from(data0, pos0, 0, *config, size, out@),
        decreases stream@.rest().len(),
    {
        let ghost out0 = out@;
        let ghost st = stream@;
        proof {
            stream.lemma_bounds();
        }
        match parse_record(stream, &mut out, index, config, chunk_size, with_payload, with_headers, Ghost(size)) {
            Some(next) => {
                let ghost next_index: nat = index as nat + 1;
                proof {
                    let seg = out@.skip(out0.len() as int);
                    assert forall|t: Seq<pb::ParseWarcResponse>| #[trigger]
                        run_from(data0, next@.pos, next_index, *config, size, t) implies run_from(
                        data0,
                        pos0,
                        0,
                        *config,
                        size,
                        out@ + t,
                    ) by {
                        assert(run_from(data0, st.pos, index as nat, *config, size, seg + t));
                        assert(run_from(data0, pos0, 0, *config, size, out0 + (seg + t)));
                        assert(out@ + t =~= out0 + (seg + t));
                    }
                }
                stream = next;
                index = index + 1;
                assert(index as nat == next_index);
                assert(forall|t: Seq<pb::ParseWarcResponse>| #[trigger]
                    run_from(data0, stream@.pos, index as nat, *config, size, t) ==> run_from(
                        data0,
                        pos0,
                        0,
                        *config,
                        size,
                        out@ + t,
                    ));
            },
            None => {
                proof {
                    let seg = out@.skip(out0.len() as int);
                    assert(out@ =~= out0 + seg);
                    assert(run_from(data0, st.pos, index as nat, *config, size, seg));
                }
                break ;
            },
        }
    }
    out
}

/// Whether a configuration asks for input detection (on when unset).
pub open spec fn stream_detect_on(config: pb::ParseWarcConfig) -> bool {
    match config.stream_detect {
        Some(b) => b,
        None => true,
    }
}

/// The stream the pipeline parses for `st`, and whether it holds all of the
/// input: with detection on and the gzip magic bytes next, what the gzip
/// members of the rest of the input decompress to, up to the first that
/// cannot be decompressed; otherwise `st` itself, whole.
pub open spec fn input_stream(st: StreamModel, stream_detect: bool) -> (StreamModel, bool) {
    if stream_detect && is_gzip(st.rest()) {
        let g = gunzipped_prefix(st.rest());
        (StreamModel { data: g.0, pos: 0 }, g.1)
    } else {
        (st, true)
    }
}

/// `s` is what parsing the stream `st` emits (see [`parse_stream`]).
pub open spec fn parsed_from(s: Seq<pb::ParseWarcResponse>, st: StreamModel, config: pb::ParseWarcConfig) -> bool {
    &&& events_ok(s, payload_included(config))
    &&& forall|i: int| 0 <= i < s.len() ==> start_passes(#[trigger] s[i], config)
    &&& forall|i: int| 0 <= i < s.len() ==> #[trigger] record_from(s, i, st.data, config)
    &&& numbered_in_order(s)
    &&& positions_in_order(s)
    &&& run_from(st.data, st.pos, 0, config, chunk_size_for(config), s)
}

/// The last event of `s` ends the stream.
pub open spec fn ends_fatal(s: Seq<pb::ParseWarcResponse>) -> bool {
    s.len() > 0 && is_fatal(s.last())
}

/// `s` is what the pipeline emits for the input stream `st`, of which `whole`
/// says whether it holds all of the input: what parsing `st` emits, followed,
/// where the input was cut short by compressed data that cannot be
/// decompressed and parsing did not end the stream already, by a
/// non-recoverable `record_error` saying so.
pub open spec fn stream_outcome(
    s: Seq<pb::ParseWarcResponse>,
    st: StreamModel,
    whole: bool,
    config: pb::ParseWarcConfig,
) -> bool {
    ||| parsed_from(s, st, config) && (whole || ends_fatal(s))
    ||| {
        &&& !whole
        &&& s.len() > 0
        &&& fatal_event(s.last(), IoError::InvalidData)
        &&& parsed_from(s.drop_last(), st, config)
        &&& !ends_fatal(s.drop_last())
    }
}

/// Parse an archive and emit one ordered event sequence per kept record.
///
/// With `stream_detect` on (the default), gzip input, known by its magic
/// bytes, is decompressed member by member; the stream read is parsed as
/// [`parse_stream`] does. Where a member cannot be decompressed, the
/// records of the members before it are emitted and then a non-recoverable
/// `record_error` ends the stream.
pub fn parse_into(archive: ByteStream, config: &pb::ParseWarcConfig) -> (r: Vec<pb::ParseWarcResponse>)
    ensures
        events_ok(r@, payload_included(*config)),
        stream_outcome(
            r@,
            input_stream(archive@, stream_detect_on(*config)).0,
            input_stream(archive@, stream_detect_on(*config)).1,
            *config,
        ),
{
    let detect = match config.stream_detect {
        Some(b) => b,
        None => true,
    };
    let rest = archive.fill_buf();
    if detect && rest.len() >= 2 && rest[0] == 0x1fu8 && rest[1] == 0x8bu8 {
        let (d, whole) = gunzip_prefix(rest);
        let ghost dd = d@;
        let mut out = parse_stream(ByteStream::new(d), config);
        let ghost s = out@;
        if !whole {
            let n = out.len();
            let fatal_last = n > 0 && match &out[n - 1].kind {
                Some(pb::ResponseKind::RecordError(e)) => !e.recoverable,
                _ => false,
            };
            if !fatal_last {
                out.push(record_error(0, false, String::from_str(IoError::InvalidData.message())));
                proof {
                    assert(out@.drop_last() =~= s);
                    assert(s.len() > 0 ==> s.last() == s[s.len() - 1]);
                    assert(events_state(out@, payload_included(*config)) == Some(None::<nat>));
                    assert forall|i: int| 0 <= i < out@.len() - 1 implies !is_fatal(#[trigger] out@[i]) by {
                        assert(out@[i] == s[i]);
                        if i == s.len() - 1 {
                            assert(s.last() == s[i]);
                        }
                    }
                }
            } else {
                assert(s.last() == s[s.len() - 1]);
            }
        }
        out
    } else {
        parse_stream(archive, config)
    }
}

/// Every payload chunk of `s` carries at most `size` bytes.
pub open spec fn chunks_within(s: Seq<pb::ParseWarcResponse>, size: nat) -> bool {
    forall|i: int| 0 <= i < s.len() && is_chunk(#[trigger] s[i]) ==> chunk_data(s[i]).len() <= size
}

proof fn lemma_payload_events_within(s: Seq<pb::ParseWarcResponse>, offset: nat, rest: Seq<u8>, size: nat)
    requires
        payload_events(s, offset, rest, size),
    ensures
        chunks_within(s, size),
    decreases rest.len(),
{
    if rest.len() > 0 {
        let n: nat = if rest.len() < size {
            rest.len()
        } else {
            size
        };
        lemma_payload_events_within(s.drop_first(), offset + n, rest.skip(n as int), size);
        assert forall|i: int| 0 <= i < s.len() && is_chunk(#[trigger] s[i]) implies chunk_data(s[i]).len()
            <= size by {
            if i > 0 {
                assert(s[i] == s.drop_first()[i - 1]);
            }
        }
    }
}

proof fn lemma_record_events_within(
    seg: Seq<pb::ParseWarcResponse>,
    m: WarcRecordModel,
    index: nat,
    payload: bool,
    include_headers: bool,
    size: nat,
)
    requires
        record_events(seg, m, index, payload, include_headers, size),
    ensures
        chunks_within(seg, size),
{
    if payload {
        lemma_payload_events_within(seg.drop_first(), 0, block_of(m), size);
    }
    assert forall|i: int| 0 <= i < seg.len() && is_chunk(#[trigger] seg[i]) implies chunk_data(seg[i]).len()
        <= size by {
        if i > 0 && payload {
            assert(seg[i] == seg.drop_first()[i - 1]);
        }
    }
}

proof fn lemma_run_within(
    data: Seq<u8>,
    pos: nat,
    index: nat,
    config: pb::ParseWarcConfig,
    size: nat,
    s: Seq<pb::ParseWarcResponse>,
)
    requires
        run_from(data, pos, index, config, size, s),
    ensures
        chunks_within(s, size),
    decreases left(data, pos),
{
    reveal(run_from);
    let (r, m0) = headers_read(StreamModel { data, pos }, config.quirks_mode);
    if r is Ok && !warc_too_long(m0, config) {
        let m = screened(m0, config);
        let kept = kept_record(m0, config) is Some;
        let k: int = if kept {
            record_event_count(m, payload_included(config), size) as int
        } else if http_refused(m0, config) {
            1
        } else {
            0
        };
        let next = next_pos(m);
        if kept {
            lemma_record_events_within(
                s.take(k),
                m,
                index,
                payload_included(config),
                headers_included(config),
                size,
            );
        }
        if pos < data.len() && pos < next {
            lemma_run_within(data, next, index + 1, config, size, s.skip(k));
        }
        assert forall|i: int| 0 <= i < s.len() && is_chunk(#[trigger] s[i]) implies chunk_data(s[i]).len()
            <= size by {
            if i < k && kept {
                assert(s[i] == s.take(k)[i]);
            } else if i < k {
                assert(i == 0);
            } else {
                assert(s[i] == s.skip(k)[i - k]);
            }
        }
    }
}

/// The shape of every event stream that parsing a stream emits (what
/// `parse_stream` returns, and what `parse_into` returns before an added
/// decompression error): each record opens with `record_start`, then carries payload chunks of 1 to the configured
/// chunk size bytes (64 KiB when unset) at offsets counting the payload bytes
/// sent before them from 0, and closes with a `record_end` giving the number
/// of payload bytes sent (the content length when the payload is left out);
/// errors stand between records, and only the last event may end the stream.
pub proof fn law_event_shape(st: StreamModel, config: pb::ParseWarcConfig, s: Seq<pb::ParseWarcResponse>)
    requires
        run_from(st.data, st.pos, 0, config, chunk_size_for(config), s),
        events_ok(s, payload_included(config)),
    ensures
        events_state(s, payload_included(config)) == Some(None::<nat>),
        forall|i: int| 0 <= i < s.len() - 1 ==> !is_fatal(#[trigger] s[i]),
        forall|i: int|
            0 <= i < s.len() && is_chunk(#[trigger] s[i]) ==> 0 < chunk_data(s[i]).len() <= chunk_size_for(config),
{
    lemma_run_within(st.data, st.pos, 0, config, chunk_size_for(config), s);
    assert forall|i: int| 0 <= i < s.len() && is_chunk(#[trigger] s[i]) implies 0 < chunk_data(s[i]).len() by {
        lemma_chunk_nonempty(s, i, payload_included(config));
    }
}

/// A payload chunk in a well-formed event stream carries at least one byte.
proof fn lemma_chunk_nonempty(s: Seq<pb::ParseWarcResponse>, i: int, payload: bool)
    requires
        events_state(s, payload) is Some,
        0 <= i < s.len(),
        is_chunk(s[i]),
    ensures
        0 < chunk_data(s[i]).len(),
    decreases s.len(),
{
    let p = s.drop_last();
    if i == s.len() - 1 {
        assert(s.last() == s[i]);
    } else {
        assert(p[i] == s[i]);
        lemma_chunk_nonempty(p, i, payload);
    }
}

/// What folding response events has gathered: the open record (metadata
/// and payload so far), the closed records and the errors, in order.
pub struct FoldModel {
    pub open: Option<(Option<pb::RecordMetadata>, Seq<u8>)>,
    pub records: Seq<(Option<pb::RecordMetadata>, Seq<u8>)>,
    pub errors: Seq<pb::RecordError>,
}

/// Fold one event: `record_start` opens a record, `payload_chunk` extends
/// the open one, `record_end` closes it, `record_error` drops the open record
/// and is kept, a batch folds its items in order.
pub open spec fn fold_event(st: FoldModel, e: pb::ParseWarcResponse) -> FoldModel
    decreases e,
{
    match e.kind {
        Some(pb::ResponseKind::RecordStart(start)) => FoldModel { open: Some((start.metadata, Seq::empty())), ..st },
        Some(pb::ResponseKind::PayloadChunk(c)) => match st.open {
            Some(r) => FoldModel { open: Some((r.0, r.1 + c.data@)), ..st },
            None => st,
        },
        Some(pb::ResponseKind::RecordEnd(_)) => match st.open {
            Some(r) => FoldModel { open: None, records: st.records.push(r), ..st },
            None => st,
        },
        Some(pb::ResponseKind::RecordError(err)) => FoldModel { open: None, errors: st.errors.push(err), ..st },
        Some(pb::ResponseKind::Batch(b)) => fold_events(st, b.items@),
        None => st,
    }
}

/// Fold events in order.
pub open spec fn fold_events(st: FoldModel, s: Seq<pb::ParseWarcResponse>) -> FoldModel
    decreases s,
{
    if s.len() == 0 {
        st
    } else {
        fold_event(fold_events(st, s.subrange(0, s.len() - 1)), s[s.len() - 1])
    }
}

pub open spec fn record_view(r: pb::ParsedRecord) -> (Option<pb::RecordMetadata>, Seq<u8>) {
    (r.metadata, r.payload@)
}

pub open spec fn fold_model(
    open: Option<pb::ParsedRecord>,
    records: Seq<pb::ParsedRecord>,
    errors: Seq<pb::RecordError>,
) -> FoldModel {
    FoldModel {
        open: match open {
            Some(r) => Some(record_view(r)),
            None => None,
        },
        records: records.map_values(|r: pb::ParsedRecord| record_view(r)),
        errors,
    }
}

/// Fold one response into the open record, the closed records and the errors.
pub fn fold_response(
    response: pb::ParseWarcResponse,
    open: &mut Option<pb::ParsedRecord>,
    records: &mut Vec<pb::ParsedRecord>,
    errors: &mut Vec<pb::RecordError>,
)
    ensures
        fold_model(*final(open), final(records)@, final(errors)@) == fold_event(
            fold_model(*old(open), old(records)@, old(errors)@),
            response,
        ),
    decreases response,
{
    match response.kind {
        Some(pb::ResponseKind::RecordStart(start)) => {
            let payload: Vec<u8> = Vec::new();
            *open = Some(pb::ParsedRecord { metadata: start.metadata, payload });
        },
        Some(pb::ResponseKind::PayloadChunk(chunk)) => {
            match open.take() {
                Some(record) => {
                    let mut record = record;
                    push_all(&mut record.payload, chunk.data.as_slice());
                    *open = Some(record);
                },
                None => {},
            }
        },
        Some(pb::ResponseKind::RecordEnd(_)) => {
            match open.take() {
                Some(record) => {
                    let ghost before = records@;
                    records.push(record);
                    assert(records@.map_values(|r: pb::ParsedRecord| record_view(r)) =~= before.map_values(
                        |r: pb::ParsedRecord| record_view(r),
                    ).push(record_view(record)));
                },
                None => {},
            }
        },
        Some(pb::ResponseKind::RecordError(error)) => {
            open.take();
            errors.push(error);
        },
        Some(pb::ResponseKind::Batch(batch)) => {
            assert(decreases_to!(response => batch.items@));
            let mut items = batch.items;
            let ghost all = items@;
            let ghost start = fold_model(*open, records@, errors@);
            let n = items.len();
            let mut k: usize = 0;
            assert(all.subrange(0, 0) =~= Seq::<pb::ParseWarcResponse>::empty());
            while items.len() > 0
                invariant
                    k <= all.len(),
                    n == all.len(),
                    items@ == all.subrange(k as int, all.len() as int),
                    fold_model(*open, records@, errors@) == fold_events(start, all.subrange(0, k as int)),
                    decreases_to!(response => all),
                decreases items@.len(),
            {
                let item = items.remove(0);
                assert(item == all[k as int]);
                assert(decreases_to!(response => item)) by {
                    assert(decreases_to!(all => all[k as int]));
                }
                fold_response(item, open, records, errors);
                assert(all.subrange(0, k + 1).subrange(0, k as int) =~= all.subrange(0, k as int));
                k = k + 1;
                assert(items@ =~= all.subrange(k as int, all.len() as int));
            }
            assert(all.subrange(0, k as int) =~= all);
        },
        None => {},
    }
}

pub open spec fn empty_fold() -> FoldModel {
    FoldModel { open: None, records: Seq::empty(), errors: Seq::empty() }
}

/// Folding two event sequences one after the other is folding them joined.
pub proof fn law_fold_concat(st: FoldModel, s: Seq<pb::ParseWarcResponse>, t: Seq<pb::ParseWarcResponse>)
    ensures
        fold_events(st, s + t) == fold_events(fold_events(st, s), t),
    decreases t.len(),
{
    if t.len() == 0 {
        assert(s + t =~= s);
    } else {
        let t0 = t.subrange(0, t.len() - 1);
        law_fold_concat(st, s, t0);
        assert((s + t).subrange(0, (s + t).len() - 1) =~= s + t0);
        assert((s + t)[(s + t).len() - 1] == t[t.len() - 1]);
    }
}

/// A batch folds as its items do, in order: folding a batch and then more
/// events is folding its items and then those events. A `record_error`
/// drops the open record and is kept; a `record_end` or `payload_chunk`
/// with no record open changes nothing.
pub proof fn law_fold_batch(
    st: FoldModel,
    b: pb::RecordBatch,
    rest: Seq<pb::ParseWarcResponse>,
    err: pb::RecordError,
    e: pb::ParseWarcResponse,
)
    ensures
        fold_event(st, pb::ParseWarcResponse { kind: Some(pb::ResponseKind::Batch(b)) }) == fold_events(st, b.items@),
        fold_events(st, seq![pb::ParseWarcResponse { kind: Some(pb::ResponseKind::Batch(b)) }] + rest)
            == fold_events(st, b.items@ + rest),
        fold_event(st, pb::ParseWarcResponse { kind: Some(pb::ResponseKind::RecordError(err)) }) == (FoldModel {
            open: None,
            errors: st.errors.push(err),
            ..st
        }),
        st.open is None && (e.kind matches Some(pb::ResponseKind::RecordEnd(_)) || e.kind matches Some(
            pb::ResponseKind::PayloadChunk(_),
        )) ==> fold_event(st, e) == st,
{
    let be = pb::ParseWarcResponse { kind: Some(pb::ResponseKind::Batch(b)) };
    law_fold_concat(st, seq![be], rest);
    law_fold_concat(st, b.items@, rest);
    let one = seq![be];
    let none = one.subrange(0, one.len() - 1);
    assert(none.len() == 0);
    assert(fold_events(st, none) == st);
    assert(one[one.len() - 1] == be);
    assert(fold_events(st, one) == fold_event(st, be));
}

/// Folding a well-formed event stream leaves no record open.
pub proof fn law_fold_closes(s: Seq<pb::ParseWarcResponse>, payload: bool)
    requires
        events_state(s, payload) is Some,
    ensures
        (events_state(s, payload) == Some(None::<nat>)) == (fold_events(empty_fold(), s).open is None),
        events_state(s, payload) matches Some(Some(n)) ==> fold_events(empty_fold(), s).open matches Some(r)
            && (payload ==> r.1.len() == n),
    decreases s.len(),
{
    if s.len() > 0 {
        let p = s.subrange(0, s.len() - 1);
        assert(p =~= s.drop_last());
        let last = s[s.len() - 1];
        assert(s.last() == last);
        assert(events_state(s, payload) == match events_state(p, payload) {
            Some(st) => event_step(st, last, payload),
            None => None,
        });
        assert(fold_events(empty_fold(), s) == fold_event(fold_events(empty_fold(), p), last));
        law_fold_closes(p, payload);
    }
}

/// Number of `record_start` events among the first `i` events of `s`.
pub open spec fn starts_before(s: Seq<pb::ParseWarcResponse>, i: int) -> nat
    decreases i,
{
    if i <= 0 {
        0
    } else {
        starts_before(s, i - 1) + if is_record_start(s[i - 1]) {
            1nat
        } else {
            0nat
        }
    }
}

/// Metadata that the event `e` opens a record with.
pub open spec fn start_metadata(e: pb::ParseWarcResponse) -> Option<pb::RecordMetadata> {
    match e.kind {
        Some(pb::ResponseKind::RecordStart(st)) => st.metadata,
        _ => None,
    }
}

/// The `record_error` events of `s`, in order.
pub open spec fn errors_in(s: Seq<pb::ParseWarcResponse>) -> Seq<pb::RecordError>
    decreases s.len(),
{
    if s.len() == 0 {
        Seq::empty()
    } else {
        match s.last().kind {
            Some(pb::ResponseKind::RecordError(err)) => errors_in(s.drop_last()).push(err),
            _ => errors_in(s.drop_last()),
        }
    }
}

proof fn lemma_starts_push(s: Seq<pb::ParseWarcResponse>, e: pb::ParseWarcResponse, i: int)
    requires
        i <= s.len(),
    ensures
        starts_before(s.push(e), i) == starts_before(s, i),
    decreases i,
{
    if i > 0 {
        lemma_starts_push(s, e, i - 1);
        assert(s.push(e)[i - 1] == s[i - 1]);
    }
}

/// What folding a well-formed prefix holds: the closed records are the
/// blocks of the records opened before, the open one (if any) is the last
/// record opened, with the chunks after it, and the errors are those seen.
pub open spec fn fold_matches_blocks(s: Seq<pb::ParseWarcResponse>, payload: bool) -> bool {
    let f = fold_events(empty_fold(), s);
    &&& f.errors == errors_in(s)
    &&& forall|i: int|
        0 <= i < s.len() && is_record_start(s[i]) && #[trigger] starts_before(s, i) < f.records.len() ==> {
            &&& f.records[starts_before(s, i) as int] == (start_metadata(s[i]), chunks_from(s, i + 1))
            &&& !all_chunks_from(s, i + 1)
        }
    &&& match events_state(s, payload) {
        Some(None) => f.open is None && f.records.len() == starts_before(s, s.len() as int),
        Some(Some(_)) => exists|j: int|
            #![trigger s[j]]
            0 <= j < s.len() && is_record_start(s[j]) && starts_before(s, j) == f.records.len()
                && f.records.len() + 1 == starts_before(s, s.len() as int) && all_chunks_from(s, j + 1)
                && f.open == Some((start_metadata(s[j]), chunks_from(s, j + 1))),
        None => true,
    }
}

#[verifier::rlimit(40)]
proof fn lemma_fold_blocks(s: Seq<pb::ParseWarcResponse>, payload: bool)
    requires
        events_state(s, payload) is Some,
    ensures
        fold_matches_blocks(s, payload),
    decreases s.len(),
{
    if s.len() == 0 {
        return;
    }
    let p = s.drop_last();
    let e = s.last();
    assert(s =~= p.push(e));
    assert(s.subrange(0, s.len() - 1) =~= p);
    assert(events_state(p, payload) is Some);
    lemma_fold_blocks(p, payload);
    let fp = fold_events(empty_fold(), p);
    let f = fold_events(empty_fold(), s);
    assert(f == fold_event(fp, e));
    lemma_starts_push(p, e, p.len() as int);
    assert(starts_before(s, s.len() as int) == starts_before(p, p.len() as int) + if is_record_start(e) {
        1nat
    } else {
        0nat
    });
    assert forall|i: int| 0 <= i < p.len() implies #[trigger] starts_before(s, i) == starts_before(p, i) by {
        lemma_starts_push(p, e, i);
    }
    // closed records keep their blocks
    assert forall|i: int|
        0 <= i < p.len() && is_record_start(p[i]) && #[trigger] starts_before(p, i) < fp.records.len() implies {
            &&& chunks_from(s, i + 1) == chunks_from(p, i + 1)
            &&& !all_chunks_from(s, i + 1)
        } by {
        lemma_chunks_push(p, e, i + 1);
        if all_chunks_from(s, i + 1) {
            assert forall|j: int| i + 1 <= j < p.len() implies is_chunk(#[trigger] p[j]) by {
                assert(s[j] == p[j]);
            }
        }
    }
    let st = events_state(p, payload)->0;
    assert(events_state(s, payload) == event_step(st, e, payload));
    assert(errors_in(s) == match e.kind {
        Some(pb::ResponseKind::RecordError(err)) => errors_in(p).push(err),
        _ => errors_in(p),
    });
    assert(f.records == fp.records || (e.kind matches Some(pb::ResponseKind::RecordEnd(_)) && fp.open is Some
        && f.records == fp.records.push(fp.open->0)));
    let j: int = if st is Some {
        choose|j: int|
            #![trigger p[j]]
            0 <= j < p.len() && is_record_start(p[j]) && starts_before(p, j) == fp.records.len()
                && fp.records.len() + 1 == starts_before(p, p.len() as int) && all_chunks_from(p, j + 1)
                && fp.open == Some((start_metadata(p[j]), chunks_from(p, j + 1)))
    } else {
        0
    };
    if st is Some {
        assert(s[j] == p[j]);
        assert(starts_before(s, j) == starts_before(p, j));
        lemma_chunks_push(p, e, j + 1);
        if is_chunk(e) {
            assert forall|k: int| j + 1 <= k < s.len() implies is_chunk(#[trigger] s[k]) by {
                if k < p.len() {
                    assert(s[k] == p[k]);
                }
            }
        } else {
            assert(chunk_data(e) =~= Seq::<u8>::empty());
            assert(!is_chunk(s[s.len() - 1]));
        }
    }
    assert(f.errors == errors_in(s));
    assert forall|i: int|
        0 <= i < s.len() && is_record_start(s[i]) && #[trigger] starts_before(s, i) < f.records.len() implies {
            &&& f.records[starts_before(s, i) as int] == (start_metadata(s[i]), chunks_from(s, i + 1))
            &&& !all_chunks_from(s, i + 1)
        } by {
        if i < p.len() {
            assert(s[i] == p[i]);
            assert(starts_before(s, i) == starts_before(p, i));
            lemma_starts_monotone(p, i + 1, p.len() as int);
            if starts_before(p, i) < fp.records.len() {
                assert(f.records[starts_before(s, i) as int] == fp.records[starts_before(p, i) as int]);
            } else {
                assert(st is Some);
                if i < j {
                    lemma_starts_monotone(p, i + 1, j);
                } else if i > j {
                    assert(is_chunk(p[i]));
                }
                assert(i == j);
            }
        } else {
            assert(starts_before(s, i) == starts_before(p, p.len() as int));
            assert(f.records == fp.records);
        }
    }
    if st is None {
        assert forall|i: int| 0 <= i < p.len() && is_record_start(p[i]) implies #[trigger] starts_before(p, i)
            < fp.records.len() by {
            lemma_starts_monotone(p, i + 1, p.len() as int);
        }
    }
}

/// The records a well-formed event stream carries are its blocks: the
/// record opened by the `n`-th `record_start` holds that event's metadata
/// and the data of the payload chunks that follow it, joined; there is one
/// record per `record_start`, and the errors are the stream's
/// `record_error` events in order. So folding what the pipeline emits, as
/// `collect_archive` does, keeps every record parsed before a framing error.
pub proof fn law_collected_blocks(s: Seq<pb::ParseWarcResponse>, payload: bool)
    requires
        events_ok(s, payload),
    ensures
        fold_events(empty_fold(), s).open is None,
        fold_events(empty_fold(), s).records.len() == starts_before(s, s.len() as int),
        forall|i: int|
            0 <= i < s.len() && is_record_start(s[i]) ==> fold_events(empty_fold(), s).records[#[trigger] starts_before(
                s,
                i,
            ) as int] == (start_metadata(s[i]), chunks_from(s, i + 1)),
        fold_events(empty_fold(), s).errors == errors_in(s),
{
    lemma_fold_blocks(s, payload);
    assert forall|i: int| 0 <= i < s.len() && is_record_start(s[i]) implies #[trigger] starts_before(s, i)
        < fold_events(empty_fold(), s).records.len() by {
        lemma_starts_monotone(s, i + 1, s.len() as int);
    }
}

proof fn lemma_starts_monotone(s: Seq<pb::ParseWarcResponse>, i: int, j: int)
    requires
        i <= j,
    ensures
        starts_before(s, i) <= starts_before(s, j),
    decreases j - i,
{
    if i < j {
        lemma_starts_monotone(s, i, j - 1);
    }
}

/// What `collect_archive` answers is the blocks of the event stream the
/// pipeline emits for the same input, in order: one record per
/// `record_start` with that event's metadata and the payload its chunks
/// carry, and every `record_error`.
pub proof fn law_collected_archive_blocks(
    r: pb::ParseArchiveResponse,
    st: StreamModel,
    whole: bool,
    config: pb::ParseWarcConfig,
)
    requires
        collected(r, st, whole, config),
    ensures
        exists|events: Seq<pb::ParseWarcResponse>|
            #![trigger events_ok(events, payload_included(config))]
            {
                &&& events_ok(events, payload_included(config))
                &&& stream_outcome(events, st, whole, config)
                &&& r.records@.len() == starts_before(events, events.len() as int)
                &&& forall|i: int|
                    0 <= i < events.len() && is_record_start(events[i]) ==> record_view(
                        #[trigger] r.records@[starts_before(events, i) as int],
                    ) == (start_metadata(events[i]), chunks_from(events, i + 1))
                &&& r.errors@ == errors_in(events)
            },
{
    let events = choose|events: Seq<pb::ParseWarcResponse>|
        #![trigger events_ok(events, payload_included(config))]
        {
            &&& events_ok(events, payload_included(config))
            &&& stream_outcome(events, st, whole, config)
            &&& fold_model(None, r.records@, r.errors@) == fold_events(empty_fold(), events)
        };
    law_collected_blocks(events, payload_included(config));
    let f = fold_events(empty_fold(), events);
    assert(f.records == r.records@.map_values(|x: pb::ParsedRecord| record_view(x)));
    assert forall|i: int| 0 <= i < events.len() && is_record_start(events[i]) implies record_view(
        #[trigger] r.records@[starts_before(events, i) as int],
    ) == (start_metadata(events[i]), chunks_from(events, i + 1)) by {
        lemma_starts_monotone(events, i + 1, events.len() as int);
        assert(f.records[starts_before(events, i) as int] == record_view(r.records@[starts_before(events, i) as int]));
    }
}

/// What folding the events the pipeline emits for the input stream `st`
/// (of which `whole` says whether it holds all of the input) gives: the
/// records and errors of `r`.
pub open spec fn collected(r: pb::ParseArchiveResponse, st: StreamModel, whole: bool, config: pb::ParseWarcConfig) -> bool {
    exists|events: Seq<pb::ParseWarcResponse>|
        #![trigger events_ok(events, payload_included(config))]
        {
            &&& events_ok(events, payload_included(config))
            &&& stream_outcome(events, st, whole, config)
            &&& fold_model(None, r.records@, r.errors@) == fold_events(empty_fold(), events)
        }
}

/// Parse a whole archive and fold its events: every kept record with its
/// metadata and whole payload, and every record-level error, in stream
/// order. A non-recoverable error (a framing error, or gzip data that
/// cannot be decompressed) ends the record list but keeps the records
/// parsed up to that point.
pub fn collect_archive(archive: Vec<u8>, config: &pb::ParseWarcConfig) -> (r: pb::ParseArchiveResponse)
    ensures
        collected(
            r,
            input_stream(StreamModel { data: archive@, pos: 0 }, stream_detect_on(*config)).0,
            input_stream(StreamModel { data: archive@, pos: 0 }, stream_detect_on(*config)).1,
            *config,
        ),
{
    let ghost data = archive@;
    let stream = ByteStream::new(archive);
    proof {
        assert(stream@.rest() =~= data);
    }
    let mut events = parse_into(stream, config);
    let ghost all = events@;
    let n = events.len();
    let mut open: Option<pb::ParsedRecord> = None;
    let mut records: Vec<pb::ParsedRecord> = Vec::new();
    let mut errors: Vec<pb::RecordError> = Vec::new();
    let mut k: usize = 0;
    assert(fold_model(open, records@, errors@) =~= empty_fold()) by {
        assert(records@.map_values(|r: pb::ParsedRecord| record_view(r)) =~= Seq::empty());
    }
    assert(all.subrange(0, 0) =~= Seq::<pb::ParseWarcResponse>::empty());
    while events.len() > 0
        invariant
            k <= all.len(),
            n == all.len(),
            events@ == all.subrange(k as int, all.len() as int),
            fold_model(open, records@, errors@) == fold_events(empty_fold(), all.subrange(0, k as int)),
        decreases events@.len(),
    {
        let event = events.remove(0);
        assert(event == all[k as int]);
        fold_response(event, &mut open, &mut records, &mut errors);
        assert(all.subrange(0, k + 1).subrange(0, k as int) =~= all.subrange(0, k as int));
        k = k + 1;
        assert(events@ =~= all.subrange(k as int, all.len() as int));
    }
    assert(all.subrange(0, k as int) =~= all);
    let r = pb::ParseArchiveResponse { records, errors };
    proof {
        law_fold_closes(all, payload_included(*config));
        let ist = input_stream(StreamModel { data: data, pos: 0 }, stream_detect_on(*config));
        assert(collected(r, ist.0, ist.1, *config));
    }
    r
}

/// Text of the decimal digits of `n`.
pub open spec fn decimal_text(n: nat) -> Seq<char> {
    crate::bytes::decimal(n).map_values(|b: u8| b as char)
}

fn digit_text(d: usize) -> (r: &'static str)
    requires
        d < 10,
    ensures
        r@ == seq![(48 + d) as char],
{
    proof {
        reveal_strlit("0");
        reveal_strlit("1");
        reveal_strlit("2");
        reveal_strlit("3");
        reveal_strlit("4");
        reveal_strlit("5");
        reveal_strlit("6");
        reveal_strlit("7");
        reveal_strlit("8");
        reveal_strlit("9");
    }
    if d == 0 {
        "0"
    } else if d == 1 {
        "1"
    } else if d == 2 {
        "2"
    } else if d == 3 {
        "3"
    } else if d == 4 {
        "4"
    } else if d == 5 {
        "5"
    } else if d == 6 {
        "6"
    } else if d == 7 {
        "7"
    } else if d == 8 {
        "8"
    } else {
        "9"
    }
}

/// Append the decimal digits of `n` to `s`.
fn append_decimal(s: &mut String, n: usize)
    ensures
        final(s)@ == old(s)@ + decimal_text(n as nat),
    decreases n,
{
    if n < 10 {
        s.append(digit_text(n));
        assert(decimal_text(n as nat) =~= seq![(48 + n) as char]);
    } else {
        append_decimal(s, n / 10);
        s.append(digit_text(n % 10));
        assert(decimal_text(n as nat) =~= decimal_text((n / 10) as nat) + seq![(48 + n % 10) as char]);
    }
}

/// Message that rejects a limit: `<name> must not exceed <max> bytes`.
pub open spec fn limit_message(name: Seq<char>, max: nat) -> Seq<char> {
    name + " must not exceed "@ + decimal_text(max) + " bytes"@
}

/// Check that a configured size stays within its hard limit.
pub fn validate_limit(name: &str, value: u32, max: usize) -> (r: Result<(), String>)
    ensures
        if value <= max {
            r is Ok
        } else {
            r matches Err(m) && m@ == limit_message(name@, max as nat)
        },
{
    if value as usize > max {
        let mut m = String::from_str(name);
        m.append(" must not exceed ");
        append_decimal(&mut m, max);
        m.append(" bytes");
        Err(m)
    } else {
        Ok(())
    }
}

/// Message that rejects a minimum content length above the maximum.
pub open spec fn bounds_message() -> Seq<char> {
    "min_content_length must not exceed max_content_length"@
}

/// Why a configuration is rejected, if it is: the first of `max_header_len`,
/// `payload_chunk_size`, `input_buffer_size` over its hard limit, or a
/// minimum content length above the maximum.
/// Message refusing payload decoding, which this server does not perform.
pub open spec fn decoding_refused() -> Seq<char> {
    "decode_http_payload is not supported: payloads are streamed as stored"@
}

pub open spec fn config_problem(config: pb::ParseWarcConfig) -> Option<Seq<char>> {
    if config.max_header_len > MAX_HEADER_LEN {
        Some(limit_message("max_header_len"@, MAX_HEADER_LEN as nat))
    } else if config.payload_chunk_size > MAX_PAYLOAD_CHUNK_SIZE {
        Some(limit_message("payload_chunk_size"@, MAX_PAYLOAD_CHUNK_SIZE as nat))
    } else if config.input_buffer_size > MAX_INPUT_BUFFER_SIZE {
        Some(limit_message("input_buffer_size"@, MAX_INPUT_BUFFER_SIZE as nat))
    } else if config.min_content_length matches Some(min) && config.max_content_length matches Some(max)
        && min > max {
        Some(bounds_message())
    } else if auto_decode_of(config.decode_http_payload) != AutoDecode::Disabled {
        Some(decoding_refused())
    } else {
        None
    }
}

/// Check a parse configuration against the hard limits.
pub fn validate_config(config: &pb::ParseWarcConfig) -> (r: Result<(), String>)
    ensures
        match config_problem(*config) {
            None => r is Ok,
            Some(m) => r matches Err(e) && e@ == m,
        },
{
    match validate_limit("max_header_len", config.max_header_len, MAX_HEADER_LEN) {
        Ok(()) => {},
        Err(e) => {
            return Err(e);
        },
    }
    match validate_limit("payload_chunk_size", config.payload_chunk_size, MAX_PAYLOAD_CHUNK_SIZE) {
        Ok(()) => {},
        Err(e) => {
            return Err(e);
        },
    }
    match validate_limit("input_buffer_size", config.input_buffer_size, MAX_INPUT_BUFFER_SIZE) {
        Ok(()) => {},
        Err(e) => {
            return Err(e);
        },
    }
    match (config.min_content_length, config.max_content_length) {
        (Some(min), Some(max)) => {
            if min > max {
                return Err(String::from_str("min_content_length must not exceed max_content_length"));
            }
        },
        _ => {},
    }
    match auto_decode(config.decode_http_payload) {
        AutoDecode::Disabled => {},
        _ => {
            return Err(String::from_str("decode_http_payload is not supported: payloads are streamed as stored"));
        },
    }
    Ok(())
}

/// Why the service refuses a request.
#[derive(Debug, Clone, PartialEq, Eq)]
pub enum RequestError {
    /// The request breaks the protocol or a limit.
    InvalidArgument(String),
    /// The request asks for something this server does not allow.
    PermissionDenied(String),
}

/// The `fastwarc.v1.WarcService` service.
#[derive(Debug, Clone, Copy, PartialEq, Eq, Structural)]
pub struct WarcParser {
    allow_local_files: bool,
}

impl WarcParser {
    /// Whether clients may name server-side archive files.
    pub closed spec fn local_files_allowed(self) -> bool {
        self.allow_local_files
    }

    /// A parser that rejects server-side archive paths.
    pub fn new() -> (r: Self)
        ensures
            !r.local_files_allowed(),
    {
        WarcParser { allow_local_files: false }
    }

    /// A parser that permits server-side paths. Only use this when every
    /// client is trusted with read access to the server's files.
    pub fn with_local_files() -> (r: Self)
        ensures
            r.local_files_allowed(),
    {
        WarcParser { allow_local_files: true }
    }

    /// Whether clients may name server-side archive files.
    pub fn allows_local_files(&self) -> (r: bool)
        ensures
            r == self.local_files_allowed(),
    {
        self.allow_local_files
    }

    /// Check the configuration of a streaming `ParseWarc` call: it must stay
    /// within the limits, and may name a server-side archive only where this
    /// server allows it.
    pub fn check_parse_warc(&self, config: &pb::ParseWarcConfig) -> (r: Result<(), RequestError>)
        ensures
            match config_problem(*config) {
                Some(m) => r matches Err(RequestError::InvalidArgument(e)) && e@ == m,
                None => if config.archive_path@.len() > 0 && !self.local_files_allowed() {
                    r matches Err(RequestError::PermissionDenied(e)) && e@ == local_files_refused()
                } else {
                    r is Ok
                },
            },
    {
        match validate_config(config) {
            Ok(()) => {},
            Err(e) => {
                return Err(RequestError::InvalidArgument(e));
            },
        }
        if config.archive_path.as_str().unicode_len() > 0 && !self.allow_local_files {
            return Err(
                RequestError::PermissionDenied(
                    String::from_str(
                        "archive_path is disabled on this server; stream the archive as chunks instead",
                    ),
                ),
            );
        }
        Ok(())
    }

    /// Answer a unary `ParseArchive` call: the request must carry a valid
    /// configuration without a server-side path; then the whole archive is
    /// parsed and folded as [`collect_archive`] does.
    pub fn parse_archive(&self, request: pb::ParseArchiveRequest) -> (r: Result<pb::ParseArchiveResponse, RequestError>)
        ensures
            match request.config {
                None => r matches Err(RequestError::InvalidArgument(e)) && e@ == config_missing(),
                Some(c) => match config_problem(c) {
                    Some(m) => r matches Err(RequestError::InvalidArgument(e)) && e@ == m,
                    None => if c.archive_path@.len() > 0 {
                        r matches Err(RequestError::InvalidArgument(e)) && e@ == path_refused()
                    } else {
                        r matches Ok(resp) && collected(
                            resp,
                            input_stream(StreamModel { data: request.archive@, pos: 0 }, stream_detect_on(c)).0,
                            input_stream(StreamModel { data: request.archive@, pos: 0 }, stream_detect_on(c)).1,
                            c,
                        )
                    },
                },
            },
    {
        let config = match request.config {
            Some(c) => c,
            None => {
                return Err(RequestError::InvalidArgument(String::from_str("ParseArchive request must set `config`")));
            },
        };
        match validate_config(&config) {
            Ok(()) => {},
            Err(e) => {
                return Err(RequestError::InvalidArgument(e));
            },
        }
        if config.archive_path.as_str().unicode_len() > 0 {
            return Err(RequestError::InvalidArgument(String::from_str("archive_path is only supported by ParseWarc")));
        }
        Ok(collect_archive(request.archive, &config))
    }
}

pub open spec fn local_files_refused() -> Seq<char> {
    "archive_path is disabled on this server; stream the archive as chunks instead"@
}

pub open spec fn config_missing() -> Seq<char> {
    "ParseArchive request must set `config`"@
}

pub open spec fn path_refused() -> Seq<char> {
    "archive_path is only supported by ParseWarc"@
}

/// The configuration that opens a `ParseWarc` request stream: the first
/// message must carry it.
pub fn read_config(first: Option<pb::ParseWarcRequest>) -> (r: Result<pb::ParseWarcConfig, RequestError>)
    ensures
        match first {
            None => r matches Err(RequestError::InvalidArgument(m)) && m@ == empty_stream(),
            Some(req) => match req.kind {
                Some(pb::RequestKind::Config(c)) => r == Ok::<pb::ParseWarcConfig, RequestError>(c),
                _ => r matches Err(RequestError::InvalidArgument(m)) && m@ == config_first(),
            },
        },
{
    match first {
        None => Err(
            RequestError::InvalidArgument(
                String::from_str("empty ParseWarc request stream; first message must set `config`"),
            ),
        ),
        Some(req) => match req.kind {
            Some(pb::RequestKind::Config(c)) => Ok(c),
            _ => Err(RequestError::InvalidArgument(String::from_str("first ParseWarc request message must set `config`"))),
        },
    }
}

pub open spec fn empty_stream() -> Seq<char> {
    "empty ParseWarc request stream; first message must set `config`"@
}

pub open spec fn config_first() -> Seq<char> {
    "first ParseWarc request message must set `config`"@
}

pub open spec fn config_repeated() -> Seq<char> {
    "`config` may only be set on the first request message"@
}

pub open spec fn kind_missing() -> Seq<char> {
    "ParseWarc request message must set `config` or `chunk`"@
}

/// What a later message of a `ParseWarc` request stream means for the
/// parser.
#[derive(Debug, PartialEq, Eq)]
pub enum ChunkStep {
    /// More archive bytes.
    Chunk(Vec<u8>),
    /// The client finished the archive.
    End,
    /// A protocol violation that ends the call.
    Reject(RequestError),
}

/// Step the request stream after its opening message: a chunk carries more
/// archive bytes, the end of the stream ends the archive, and a second
/// `config` or a message without content is rejected.
pub fn next_chunk(message: Option<pb::ParseWarcRequest>) -> (r: ChunkStep)
    ensures
        match message {
            None => r is End,
            Some(req) => match req.kind {
                Some(pb::RequestKind::Chunk(c)) => r == ChunkStep::Chunk(c),
                Some(pb::RequestKind::Config(_)) => r matches ChunkStep::Reject(RequestError::InvalidArgument(m))
                    && m@ == config_repeated(),
                None => r matches ChunkStep::Reject(RequestError::InvalidArgument(m)) && m@ == kind_missing(),
            },
        },
{
    match message {
        None => ChunkStep::End,
        Some(req) => match req.kind {
            Some(pb::RequestKind::Chunk(c)) => ChunkStep::Chunk(c),
            Some(pb::RequestKind::Config(_)) => ChunkStep::Reject(
                RequestError::InvalidArgument(String::from_str("`config` may only be set on the first request message")),
            ),
            None => ChunkStep::Reject(
                RequestError::InvalidArgument(String::from_str("ParseWarc request message must set `config` or `chunk`")),
            ),
        },
    }
}

/// Read buffer size for a server-side archive file: the configured size, or
/// 64 KiB when unset.
pub fn input_buffer_size(config: &pb::ParseWarcConfig) -> (r: usize)
    ensures
        r == if config.input_buffer_size == 0 {
            DEFAULT_INPUT_BUFFER_SIZE as int
        } else {
            config.input_buffer_size as int
        },
{
    if config.input_buffer_size == 0 {
        DEFAULT_INPUT_BUFFER_SIZE
    } else {
        config.input_buffer_size as usize
    }
}

} // verus!
