//! Gzip archives: detection by the magic bytes, decompression of all
//! members in turn, and compression into one member. Each member goes
//! through one trusted call into `zlib-rs`; the walk over the members, the
//! growth of the output buffer and the decisions around them are verified.
use vstd::prelude::*;
use zlib_rs::{DeflateConfig, Inflate, InflateFlush, ReturnCode, Status};

verus! {

/// How one run of the gzip inflater over a member ended (the `zlib-rs`
/// status, or a decompression error).
#[derive(PartialEq, Eq, Structural)]
pub enum InflateStatus {
    /// Some progress was made, but the member did not end.
    Progress,
    /// No further progress was possible with the given buffers.
    NoProgress,
    /// The member ended, its checksum included.
    StreamEnd,
    /// The input is not a valid gzip member.
    Failed,
}

/// How one run of the gzip deflater over a whole input ended.
#[derive(PartialEq, Eq, Structural)]
pub enum DeflateStatus {
    /// The whole member was written.
    Done,
    /// The output buffer was too small.
    OutputFull,
    /// Compression refused (such as for an unknown level).
    Failed,
}

/// First output buffer tried for a member: 64 KiB.
pub const FIRST_CAPACITY: usize = 65536;

/// What a fresh `zlib-rs` gzip inflater makes of `input` with an output
/// buffer of `capacity` bytes: its status, the bytes it wrote and the number
/// of input bytes it consumed.
pub uninterp spec fn inflated(input: Seq<u8>, capacity: nat) -> (InflateStatus, Seq<u8>, nat);

/// What `zlib-rs` `compress_slice` makes of `input` as one gzip member at
/// `level` with an output buffer of `capacity` bytes: its status and the
/// bytes it wrote.
pub uninterp spec fn deflated(input: Seq<u8>, level: i32, capacity: nat) -> (DeflateStatus, Seq<u8>);

/// Runs a fresh `zlib_rs::Inflate` (gzip header expected, 32 KiB window)
/// once over `input` into a buffer of `capacity` bytes. Trusted: the result
/// is the named function of the arguments; the inflater writes at most
/// `capacity` bytes and consumes at most the input it was given (its
/// `total_out` and `total_in` count what moved through the buffers).
#[verifier::external_body]
fn inflate_gzip(input: &[u8], capacity: usize) -> (r: (InflateStatus, Vec<u8>, usize))
    requires
        capacity <= isize::MAX,
    ensures
        (r.0, r.1@, r.2 as nat) == inflated(input@, capacity as nat),
        r.1@.len() <= capacity,
        r.2 <= input@.len(),
{
    let mut inflater = Inflate::new(true, 31);
    let mut out = vec![0u8; capacity];
    let status = match inflater.decompress(input, &mut out, InflateFlush::NoFlush) {
        Ok(Status::Ok) => InflateStatus::Progress,
        Ok(Status::BufError) => InflateStatus::NoProgress,
        Ok(Status::StreamEnd) => InflateStatus::StreamEnd,
        Err(_) => InflateStatus::Failed,
    };
    out.truncate(inflater.total_out() as usize);
    (status, out, inflater.total_in() as usize)
}

/// Calls `zlib_rs::compress_slice` with a gzip wrapper (window bits 31) at
/// `level` into a buffer of `capacity` bytes. Trusted: the result is the
/// named function of the arguments, and at most `capacity` bytes are written.
#[verifier::external_body]
fn deflate_gzip(input: &[u8], level: i32, capacity: usize) -> (r: (DeflateStatus, Vec<u8>))
    requires
        capacity <= isize::MAX,
    ensures
        (r.0, r.1@) == deflated(input@, level, capacity as nat),
        r.1@.len() <= capacity,
{
    let mut out = vec![0u8; capacity];
    let config = DeflateConfig { window_bits: 31, ..DeflateConfig::new(level) };
    let (written, code) = zlib_rs::compress_slice(&mut out, input, config);
    let len = written.len();
    let status = match code {
        ReturnCode::Ok => DeflateStatus::Done,
        ReturnCode::BufError => DeflateStatus::OutputFull,
        _ => DeflateStatus::Failed,
    };
    out.truncate(len);
    (status, out)
}

/// `data` begins with the gzip magic bytes 1f 8b.
pub open spec fn is_gzip(data: Seq<u8>) -> bool {
    data.len() >= 2 && data[0] == 0x1fu8 && data[1] == 0x8bu8
}

/// The gzip members of `data` from `pos` on, decompressed and joined as far
/// as they can be, and whether all of them could: an output buffer of
/// `capacity` bytes is tried first for the next member, and a member that
/// fills it without ending is tried again with twice the buffer. A member
/// that stops without filling it, having read all the input, is the last
/// one: the input ran out, and what it gave is kept. Decompression stops,
/// keeping what the members before gave, at a member that is invalid, stops
/// with input left unread (one call reads at most 4 GiB of input), or would
/// need a buffer beyond `isize::MAX` bytes.
pub open spec fn gunzip_run(data: Seq<u8>, pos: int, capacity: int) -> (Seq<u8>, bool)
    decreases data.len() - pos, isize::MAX - capacity,
{
    if pos < 0 || capacity <= 0 || capacity > isize::MAX {
        (Seq::empty(), false)
    } else if pos >= data.len() {
        (Seq::empty(), true)
    } else {
        let run = inflated(data.subrange(pos, data.len() as int), capacity as nat);
        match run.0 {
            InflateStatus::StreamEnd => if run.2 == 0 || pos + run.2 > data.len() {
                (Seq::empty(), false)
            } else {
                let t = gunzip_run(data, pos + run.2, capacity);
                (run.1 + t.0, t.1)
            },
            InflateStatus::Failed => (Seq::empty(), false),
            _ => if run.1.len() < capacity {
                if pos + run.2 < data.len() {
                    (Seq::empty(), false)
                } else {
                    (run.1, true)
                }
            } else if capacity > isize::MAX / 2 {
                (Seq::empty(), false)
            } else {
                gunzip_run(data, pos, capacity * 2)
            },
        }
    }
}

/// What the members of a gzip file `data` decompress to, joined, as far as
/// they can be, and whether all of them could.
pub open spec fn gunzipped_prefix(data: Seq<u8>) -> (Seq<u8>, bool) {
    gunzip_run(data, 0, FIRST_CAPACITY as int)
}

/// The decompressed content of a gzip file `data` (all members in turn),
/// `None` when some member cannot be decompressed.
pub open spec fn gunzipped(data: Seq<u8>) -> Option<Seq<u8>> {
    if gunzipped_prefix(data).1 {
        Some(gunzipped_prefix(data).0)
    } else {
        None
    }
}

/// What an archive reader reads from `data`: with detection on, gzip input is
/// decompressed; anything else is read as it stands.
pub open spec fn decoded_archive(data: Seq<u8>, stream_detect: bool) -> Option<Seq<u8>> {
    if stream_detect && is_gzip(data) {
        gunzipped(data)
    } else {
        Some(data)
    }
}

/// Decompress the gzip members of `data` in turn, as a streaming reader
/// reads them: the joined output of the members up to the first that cannot
/// be decompressed, and whether all could.
pub fn gunzip_prefix(data: &[u8]) -> (r: (Vec<u8>, bool))
    ensures
        (r.0@, r.1) == gunzipped_prefix(data@),
{
    let mut out: Vec<u8> = Vec::new();
    let mut pos: usize = 0;
    let mut capacity: usize = FIRST_CAPACITY;
    while pos < data.len()
        invariant
            pos <= data@.len(),
            0 < capacity <= isize::MAX,
            gunzipped_prefix(data@) == (out@ + gunzip_run(data@, pos as int, capacity as int).0, gunzip_run(
                data@,
                pos as int,
                capacity as int,
            ).1),
        decreases data@.len() - pos, isize::MAX - capacity,
    {
        let rest = vstd::slice::slice_subrange(data, pos, data.len());
        let (status, mut produced, used) = inflate_gzip(rest, capacity);
        let ghost out0 = out@;
        let ghost p0 = produced@;
        match status {
            InflateStatus::StreamEnd => {
                if used == 0 {
                    assert(out@ + Seq::<u8>::empty() =~= out@);
                    return (out, false);
                }
                out.append(&mut produced);
                proof {
                    let g = gunzip_run(data@, pos + used, capacity as int);
                    assert(out0 + (p0 + g.0) =~= out@ + g.0);
                }
                pos = pos + used;
            },
            InflateStatus::Failed => {
                assert(out@ + Seq::<u8>::empty() =~= out@);
                return (out, false);
            },
            _ => {
                if produced.len() < capacity {
                    if used < rest.len() {
                        assert(out@ + Seq::<u8>::empty() =~= out@);
                        return (out, false);
                    }
                    out.append(&mut produced);
                    return (out, true);
                }
                if capacity > (isize::MAX as usize) / 2 {
                    assert(out@ + Seq::<u8>::empty() =~= out@);
                    return (out, false);
                }
                capacity = capacity * 2;
            },
        }
    }
    proof {
        assert(out@ + Seq::<u8>::empty() =~= out@);
    }
    (out, true)
}

/// Decompress every gzip member of `data` in turn and join the results
/// (`GzipReader` read to the end). `None` on invalid compressed data.
pub fn gunzip(data: &[u8]) -> (r: Option<Vec<u8>>)
    ensures
        match r {
            Some(v) => gunzipped(data@) == Some(v@),
            None => gunzipped(data@) is None,
        },
{
    let (out, ok) = gunzip_prefix(data);
    if ok {
        Some(out)
    } else {
        None
    }
}

/// Read an archive as the archive reader does: with `stream_detect` on and
/// the gzip magic bytes at the start, the whole input is decompressed member
/// by member; otherwise it is returned as it stands. `None` when gzip input
/// is invalid.
pub fn decode_archive(archive: &[u8], stream_detect: bool) -> (r: Option<Vec<u8>>)
    ensures
        match r {
            Some(v) => decoded_archive(archive@, stream_detect) == Some(v@),
            None => decoded_archive(archive@, stream_detect) is None,
        },
{
    if stream_detect && archive.len() >= 2 && archive[0] == 0x1fu8 && archive[1] == 0x8bu8 {
        gunzip(archive)
    } else {
        Some(vstd::slice::slice_to_vec(archive))
    }
}

/// The gzip member for `data` at compression `level`, trying output buffers
/// from `capacity` bytes on, twice as large each time the last was too
/// small. `None` when compression is refused or no buffer up to
/// `isize::MAX` bytes sufficed.
pub open spec fn gzip_from(data: Seq<u8>, level: i32, capacity: int) -> Option<Seq<u8>>
    decreases isize::MAX - capacity,
{
    if capacity <= 0 || capacity > isize::MAX {
        None
    } else {
        let run = deflated(data, level, capacity as nat);
        match run.0 {
            DeflateStatus::Done => Some(run.1),
            DeflateStatus::Failed => None,
            DeflateStatus::OutputFull => if capacity > isize::MAX / 2 {
                None
            } else {
                gzip_from(data, level, capacity * 2)
            },
        }
    }
}

/// First output buffer tried when compressing `n` bytes: the input size and
/// room for the gzip header and trailer.
pub open spec fn first_gzip_capacity(n: nat) -> int {
    if n <= isize::MAX - 64 {
        n as int + 64
    } else {
        isize::MAX as int
    }
}

/// Compress `data` into one gzip member at `level` (0 to 9, or -1 for the
/// default), as `GzipWriter` does when it finishes a member. `None` when
/// `zlib-rs` refuses the level.
pub fn gzip(data: &[u8], level: i32) -> (r: Option<Vec<u8>>)
    ensures
        match r {
            Some(v) => gzip_from(data@, level, first_gzip_capacity(data@.len())) == Some(v@),
            None => gzip_from(data@, level, first_gzip_capacity(data@.len())) is None,
        },
{
    let mut capacity: usize = if data.len() <= (isize::MAX as usize) - 64 {
        data.len() + 64
    } else {
        isize::MAX as usize
    };
    loop
        invariant
            0 < capacity <= isize::MAX,
            gzip_from(data@, level, first_gzip_capacity(data@.len())) == gzip_from(data@, level, capacity as int),
        decreases isize::MAX - capacity,
    {
        let (status, produced) = deflate_gzip(data, level, capacity);
        match status {
            DeflateStatus::Done => {
                return Some(produced);
            },
            DeflateStatus::Failed => {
                return None;
            },
            DeflateStatus::OutputFull => {
                if capacity > (isize::MAX as usize) / 2 {
                    return None;
                }
                capacity = capacity * 2;
            },
        }
    }
}

} // verus!
