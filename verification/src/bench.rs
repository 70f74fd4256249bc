//! Settings of the throughput benchmark client, read from its environment
//! variables, and the payload lengths it counts in responses.
use crate::bytes::{parse_decimal, parse_unsigned};
use crate::proto as pb;
use vstd::prelude::*;
use vstd::string::StrSliceExecFns;
use vstd::utf8::encode_utf8;

verus! {

/// Default size of an uploaded archive chunk: 64 KiB.
pub const DEFAULT_BUFFER_SIZE: usize = 65536;

/// Payload bytes per `payload_chunk` the benchmark asks for: 1 MiB.
pub const BENCH_PAYLOAD_CHUNK_SIZE: u32 = 1048576;

/// Bytes of archive chunks the request channel may hold: 32 MiB.
pub const REQUEST_CHANNEL_BYTES: usize = 33554432;

/// Capacity of the request channel for chunks of `buf_size` bytes: 32 MiB
/// worth of chunks, at least 2 and at most 256.
pub open spec fn channel_bound(buf_size: usize) -> usize {
    let per = if buf_size == 0 {
        1usize
    } else {
        buf_size
    };
    let n = REQUEST_CHANNEL_BYTES / per;
    if n < 2 {
        2
    } else if n > 256 {
        256
    } else {
        n
    }
}

/// Capacity of the request channel for chunks of `buf_size` bytes.
pub fn request_channel_bound(buf_size: usize) -> (r: usize)
    ensures
        r == channel_bound(buf_size),
        2 <= r <= 256,
{
    let per = if buf_size == 0 {
        1
    } else {
        buf_size
    };
    let n = REQUEST_CHANNEL_BYTES / per;
    if n < 2 {
        2
    } else if n > 256 {
        256
    } else {
        n
    }
}

/// A flag variable is set when its value is `1`, `true` or `TRUE`.
pub open spec fn flag_set(value: Option<Seq<char>>) -> bool {
    match value {
        Some(v) => v == "1"@ || v == "true"@ || v == "TRUE"@,
        None => false,
    }
}

pub open spec fn opt_str(value: Option<&str>) -> Option<Seq<char>> {
    match value {
        Some(v) => Some(v@),
        None => None,
    }
}

/// Whether the value of a flag variable sets it.
fn env_flag(value: Option<&str>) -> (r: bool)
    ensures
        r == flag_set(opt_str(value)),
{
    match value {
        Some(v) => {
            let b = v.as_bytes();
            proof {
                reveal_strlit("1");
                reveal_strlit("true");
                reveal_strlit("TRUE");
            }
            let one: [u8; 1] = [49];
            let lower: [u8; 4] = [116, 114, 117, 101];
            let upper: [u8; 4] = [84, 82, 85, 69];
            let r = crate::bytes::bytes_eq(b, one.as_slice()) || crate::bytes::bytes_eq(b, lower.as_slice())
                || crate::bytes::bytes_eq(b, upper.as_slice());
            proof {
                vstd::utf8::encode_utf8_decode_utf8(v@);
                vstd::utf8::encode_utf8_decode_utf8("1"@);
                vstd::utf8::encode_utf8_decode_utf8("true"@);
                vstd::utf8::encode_utf8_decode_utf8("TRUE"@);
                assert(vstd::utf8::is_ascii_chars("1"@));
                assert(vstd::utf8::is_ascii_chars("true"@));
                assert(vstd::utf8::is_ascii_chars("TRUE"@));
                vstd::utf8::is_ascii_chars_encode_utf8("1"@);
                vstd::utf8::is_ascii_chars_encode_utf8("true"@);
                vstd::utf8::is_ascii_chars_encode_utf8("TRUE"@);
                assert(encode_utf8("1"@) =~= one@);
                assert(encode_utf8("true"@) =~= lower@);
                assert(encode_utf8("TRUE"@) =~= upper@);
            }
            r
        },
        None => false,
    }
}

/// Whether every payload byte and header block is streamed back, given the
/// value of `FASTWARC_GRPC_FULL`.
pub fn full_echo(env_value: Option<&str>) -> (r: bool)
    ensures
        r == flag_set(opt_str(env_value)),
{
    env_flag(env_value)
}

/// Whether the server opens the archive from disk, given the value of
/// `FASTWARC_GRPC_LOCAL`.
pub fn local_file(env_value: Option<&str>) -> (r: bool)
    ensures
        r == flag_set(opt_str(env_value)),
{
    env_flag(env_value)
}

/// A positive `usize` that a variable's value gives, else `default`.
pub open spec fn positive_or(value: Option<Seq<char>>, default: usize) -> usize {
    match value {
        Some(v) => match parse_unsigned(encode_utf8(v), usize::MAX as nat) {
            Some(n) => if n > 0 {
                n as usize
            } else {
                default
            },
            None => default,
        },
        None => default,
    }
}

fn env_positive(value: Option<&str>, default: usize) -> (r: usize)
    ensures
        r == positive_or(opt_str(value), default),
{
    match value {
        Some(v) => match parse_decimal(v.as_bytes(), usize::MAX as u64) {
            Some(n) => if n > 0 {
                n as usize
            } else {
                default
            },
            None => default,
        },
        None => default,
    }
}

/// Size of uploaded archive chunks, given the value of `BUFFER_SIZE`.
pub fn buffer_size(env_value: Option<&str>) -> (r: usize)
    ensures
        r == positive_or(opt_str(env_value), DEFAULT_BUFFER_SIZE),
{
    env_positive(env_value, DEFAULT_BUFFER_SIZE)
}

/// Number of concurrent streams, given the value of `FASTWARC_GRPC_JOBS`.
pub fn jobs(env_value: Option<&str>) -> (r: usize)
    ensures
        r == positive_or(opt_str(env_value), 1),
{
    env_positive(env_value, 1)
}

/// The payload lengths of the `record_end` events in a response, batches
/// flattened in order.
pub open spec fn ends_of(e: pb::ParseWarcResponse) -> Seq<u64>
    decreases e,
{
    match e.kind {
        Some(pb::ResponseKind::RecordEnd(end)) => seq![end.payload_length],
        Some(pb::ResponseKind::Batch(b)) => ends_of_all(b.items@),
        _ => Seq::empty(),
    }
}

pub open spec fn ends_of_all(s: Seq<pb::ParseWarcResponse>) -> Seq<u64>
    decreases s,
{
    if s.len() == 0 {
        Seq::empty()
    } else {
        ends_of_all(s.subrange(0, s.len() - 1)) + ends_of(s[s.len() - 1])
    }
}

/// Append the payload lengths of the `record_end` events in `response` to `out`.
pub fn visit_ends(response: &pb::ParseWarcResponse, out: &mut Vec<u64>)
    ensures
        final(out)@ == old(out)@ + ends_of(*response),
    decreases response,
{
    match &response.kind {
        Some(pb::ResponseKind::RecordEnd(end)) => {
            out.push(end.payload_length);
            assert(out@ =~= old(out)@ + ends_of(*response));
        },
        Some(pb::ResponseKind::Batch(batch)) => {
            let ghost all = batch.items@;
            assert(decreases_to!(response => batch.items@));
            let mut k: usize = 0;
            assert(all.subrange(0, 0) =~= Seq::<pb::ParseWarcResponse>::empty());
            assert(out@ =~= old(out)@ + ends_of_all(all.subrange(0, 0)));
            while k < batch.items.len()
                invariant
                    all == batch.items@,
                    k <= all.len(),
                    out@ == old(out)@ + ends_of_all(all.subrange(0, k as int)),
                    decreases_to!(response => all),
                decreases all.len() - k,
            {
                assert(decreases_to!(response => all[k as int])) by {
                    assert(decreases_to!(all => all[k as int]));
                }
                visit_ends(&batch.items[k], out);
                assert(all.subrange(0, k + 1).subrange(0, k as int) =~= all.subrange(0, k as int));
                k = k + 1;
                assert(out@ =~= old(out)@ + ends_of_all(all.subrange(0, k as int)));
            }
            assert(all.subrange(0, k as int) =~= all);
        },
        _ => {
            assert(out@ =~= old(out)@ + ends_of(*response));
        },
    }
}

/// Configuration the benchmark client sends first: no HTTP parsing or
/// digests, 1 MiB payload chunks, batches of 64 events, payload and header
/// echo only with `full`, and the archive path only with `local`.
pub fn bench_config(path: &str, buf_size: usize, full: bool, local: bool) -> (r: pb::ParseWarcConfig)
    ensures
        r.parse_http == Some(false),
        r.decode_http_payload == 0,
        !r.verify_digests,
        !r.quirks_mode,
        r.max_header_len == 0,
        r.min_content_length is None,
        r.max_content_length is None,
        r.stream_detect is None,
        r.input_buffer_size == buf_size as u32,
        r.payload_chunk_size == BENCH_PAYLOAD_CHUNK_SIZE,
        r.include_payload == Some(full),
        r.include_headers == Some(full),
        r.response_batch_size == 64,
        r.archive_path@ == if local {
            path@
        } else {
            Seq::empty()
        },
        r.record_types@.len() == 0,
        r.filters@.len() == 0,
{
    pb::ParseWarcConfig {
        parse_http: Some(false),
        decode_http_payload: 0,
        verify_digests: false,
        quirks_mode: false,
        max_header_len: 0,
        record_types: Vec::new(),
        min_content_length: None,
        max_content_length: None,
        stream_detect: None,
        input_buffer_size: #[verifier::truncate] (buf_size as u32),
        filters: Vec::new(),
        include_payload: Some(full),
        include_headers: Some(full),
        response_batch_size: 64,
        archive_path: if local {
            path.to_string()
        } else {
            String::new()
        },
        payload_chunk_size: BENCH_PAYLOAD_CHUNK_SIZE,
    }
}

} // verus!
