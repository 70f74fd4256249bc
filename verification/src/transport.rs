//! HTTP/2 window settings for bulk WARC transfer, and where the server listens.
use crate::bytes::{parse_decimal, parse_unsigned};
use vstd::prelude::*;
use vstd::string::StrSliceExecFns;
use vstd::utf8::encode_utf8;

verus! {

/// Connection-level HTTP/2 window: 32 MiB.
///
/// `FASTWARC_HTTP2_CONNECTION_WINDOW` overrides it (bytes, minimum 65535).
pub const HTTP2_CONNECTION_WINDOW: u32 = 33554432;

/// Per-stream HTTP/2 window: 16 MiB. One `ParseWarc` call carries the whole archive.
///
/// `FASTWARC_HTTP2_STREAM_WINDOW` overrides it (bytes, minimum 65535).
pub const HTTP2_STREAM_WINDOW: u32 = 16777216;

/// HTTP/2 DATA frame size: 1 MiB.
pub const HTTP2_MAX_FRAME: u32 = 1048576;

/// gRPC message size limit: 16 MiB.
pub const MAX_MESSAGE_SIZE: usize = 16777216;

/// Smallest window an override may set.
pub const MIN_WINDOW: u32 = 65535;

/// Window that an override text sets: a `u32` of at least 65535, else the default.
pub open spec fn window_from(value: Option<Seq<char>>, default: u32) -> u32 {
    match value {
        Some(v) => match parse_unsigned(encode_utf8(v), u32::MAX as nat) {
            Some(n) => if n >= MIN_WINDOW {
                n as u32
            } else {
                default
            },
            None => default,
        },
        None => default,
    }
}

/// Window given by the override text `value` (the environment variable's
/// value, if set), or `default`.
fn env_window(value: Option<&str>, default: u32) -> (r: u32)
    ensures
        r == window_from(
            match value {
                Some(v) => Some(v@),
                None => None,
            },
            default,
        ),
{
    match value {
        Some(v) => match parse_decimal(v.as_bytes(), 4294967295u64) {
            Some(n) => if n >= 65535 {
                n as u32
            } else {
                default
            },
            None => default,
        },
        None => default,
    }
}

/// Effective connection-level HTTP/2 window, given the value of
/// `FASTWARC_HTTP2_CONNECTION_WINDOW` if it is set.
pub fn connection_window(env_value: Option<&str>) -> (r: u32)
    ensures
        r == window_from(
            match env_value {
                Some(v) => Some(v@),
                None => None,
            },
            HTTP2_CONNECTION_WINDOW,
        ),
{
    env_window(env_value, HTTP2_CONNECTION_WINDOW)
}

/// Effective per-stream HTTP/2 window, given the value of
/// `FASTWARC_HTTP2_STREAM_WINDOW` if it is set.
pub fn stream_window(env_value: Option<&str>) -> (r: u32)
    ensures
        r == window_from(
            match env_value {
                Some(v) => Some(v@),
                None => None,
            },
            HTTP2_STREAM_WINDOW,
        ),
{
    env_window(env_value, HTTP2_STREAM_WINDOW)
}

/// The Unix socket path a listen address names: the rest after `unix://` or
/// `unix:`, or the address itself if it is an absolute path.
pub open spec fn socket_path_of(addr: Seq<char>) -> Option<Seq<char>> {
    if addr.len() >= 7 && addr.take(7) == "unix://"@ {
        Some(addr.skip(7))
    } else if addr.len() >= 5 && addr.take(5) == "unix:"@ {
        Some(addr.skip(5))
    } else if addr.len() > 0 && addr[0] == '/' {
        Some(addr)
    } else {
        None
    }
}

/// Whether `s` starts with `prefix`.
fn has_prefix(s: &str, prefix: &str) -> (r: bool)
    ensures
        r == (prefix@.len() <= s@.len() && s@.take(prefix@.len() as int) == prefix@),
{
    let n = prefix.unicode_len();
    if n > s.unicode_len() {
        return false;
    }
    let mut i: usize = 0;
    while i < n
        invariant
            n == prefix@.len(),
            n <= s@.len(),
            i <= n,
            forall|j: int| 0 <= j < i ==> s@[j] == prefix@[j],
        decreases n - i,
    {
        if s.get_char(i) != prefix.get_char(i) {
            return false;
        }
        i = i + 1;
    }
    assert(s@.take(n as int) =~= prefix@);
    true
}

/// The Unix socket a listen address names: `unix:///path.sock`,
/// `unix:path`, or an absolute filesystem path.
pub fn unix_socket_path(addr: &str) -> (r: Option<String>)
    ensures
        match socket_path_of(addr@) {
            Some(p) => r matches Some(s) && s@ == p,
            None => r is None,
        },
{
    proof {
        reveal_strlit("unix://");
        reveal_strlit("unix:");
    }
    let n = addr.unicode_len();
    if has_prefix(addr, "unix://") {
        return Some(addr.substring_char(7, n).to_string());
    }
    if has_prefix(addr, "unix:") {
        return Some(addr.substring_char(5, n).to_string());
    }
    if n > 0 && addr.get_char(0) == '/' {
        return Some(addr.to_string());
    }
    None
}

} // verus!
