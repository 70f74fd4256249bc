use fastwarc::case_key::CaseInsensitiveKey;
use fastwarc::header::{HeaderEncoding, HeaderMap};

fn sample() -> HeaderMap {
    let mut h = HeaderMap::new(HeaderEncoding::Unicode);
    h.set_status_line(b"HTTP/1.1 404 Not Found");
    h.append("Content-Type", "text/html");
    h.append("X-Tag", "a");
    h.append("x-tag", "b");
    h
}

#[test]
fn get_set_append_remove() {
    let mut h = sample();
    assert_eq!(h.len(), 3);
    assert!(!h.is_empty());
    assert_eq!(h.get("content-type").as_deref(), Some("text/html"));
    assert_eq!(h.get_multiple("X-TAG"), vec!["a".to_string(), "b".to_string()]);
    assert_eq!(h.get_bytes(b"X-Tag"), Some(&b"a"[..]));
    assert_eq!(h.get_bytes_multiple(b"x-tag"), vec![&b"a"[..], &b"b"[..]]);
    assert!(h.contains_key("X-Tag"));
    assert!(!h.contains_key("Missing"));

    h.set("X-Tag", "c");
    assert_eq!(h.get_multiple("x-tag"), vec!["c".to_string()]);
    assert_eq!(h.len(), 2);

    h.set_bytes(b"New-Key", b"  padded  ");
    assert_eq!(h.get("new-key").as_deref(), Some("padded"));

    h.remove("x-tag");
    assert!(!h.contains_key("X-Tag"));
    h.remove_bytes(b"NEW-KEY");
    assert_eq!(h.len(), 1);

    h.clear();
    assert!(h.is_empty());
    assert_eq!(h.status_line(), None);
    assert_eq!(h.encoding(), HeaderEncoding::Unicode);
}

#[test]
fn sanitizes_keys_and_values() {
    let mut h = HeaderMap::new(HeaderEncoding::Unicode);
    h.append("Bad:Key", "line\r\nbreak");
    assert_eq!(h.keys(), vec!["BadKey".to_string()]);
    assert_eq!(h.values(), vec!["line  break".to_string()]);
}

#[test]
fn status_code_and_reason() {
    let h = sample();
    assert_eq!(h.status_line().as_deref(), Some("HTTP/1.1 404 Not Found"));
    assert_eq!(h.status_line_bytes(), Some(&b"HTTP/1.1 404 Not Found"[..]));
    assert_eq!(h.status_code(), Some(404));
    assert_eq!(h.reason_phrase().as_deref(), Some("Not Found"));

    let mut w = HeaderMap::new(HeaderEncoding::Unicode);
    w.set_status_line(b"WARC/1.1");
    assert_eq!(w.status_code(), None);
    assert_eq!(w.reason_phrase(), None);
}

#[test]
fn items_keys_values() {
    let h = sample();
    let items = h.items();
    assert_eq!(items.len(), 3);
    assert_eq!(items[1], ("X-Tag".to_string(), "a".to_string()));
    assert_eq!(h.keys_bytes(), vec![&b"Content-Type"[..], &b"X-Tag"[..], &b"x-tag"[..]]);
    assert_eq!(h.values_bytes(), vec![&b"text/html"[..], &b"a"[..], &b"b"[..]]);
    assert_eq!(h.items_bytes()[2], (b"x-tag".to_vec(), b"b".to_vec()));
}

#[test]
fn write_header_exact_bytes() {
    let h = sample();
    let mut out = Vec::new();
    let n = h.write(&mut out);
    let expected = b"HTTP/1.1 404 Not Found\r\nContent-Type: text/html\r\nX-Tag: a\r\nx-tag: b\r\n\r\n";
    assert_eq!(out, expected.to_vec());
    assert_eq!(n, expected.len());
}

#[test]
fn write_then_parse_round_trip() {
    let h = sample();
    let mut out = Vec::new();
    h.write(&mut out);
    out.extend_from_slice(b"payload");
    let mut back = HeaderMap::new(HeaderEncoding::Unicode);
    let end = back.parse_block(&out, 0, true);
    assert_eq!(&out[end..], b"payload");
    assert_eq!(back.status_line_bytes(), h.status_line_bytes());
    assert_eq!(back.items_bytes(), h.items_bytes());
}

#[test]
fn parse_continuation_lines() {
    let block = b"Key: first\r\n  second\r\nNoColon\r\n\r\nrest";
    let mut h = HeaderMap::new(HeaderEncoding::Latin1);
    let end = h.parse_block(block, 0, false);
    assert_eq!(&block[end..], b"rest");
    assert_eq!(h.len(), 1);
    assert_eq!(h.get_bytes(b"key"), Some(&b"first second NoColon"[..]));
}

#[test]
fn latin1_values_decode() {
    let mut h = HeaderMap::new(HeaderEncoding::Latin1);
    h.append_bytes(b"X-Name", b"caf\xe9");
    assert_eq!(h.get("x-name").as_deref(), Some("caf\u{e9}"));
    h.set("X-Other", "ascii");
    assert_eq!(h.get_bytes(b"x-other"), Some(&b"ascii"[..]));
}

#[test]
fn to_map_joins_repeated_keys() {
    let h = sample();
    let map = h.to_map();
    assert_eq!(map.len(), 2);
    assert_eq!(map[0].0.as_str(), "Content-Type");
    assert_eq!(map[0].1, "text/html");
    assert_eq!(map[1].0.as_str(), "X-Tag");
    assert_eq!(map[1].1, "a,b");
    assert!(map[1].0 == CaseInsensitiveKey::new("X-TAG".to_string()));
    assert!(map[0].0 != map[1].0);
}

#[test]
fn case_insensitive_key() {
    let a = CaseInsensitiveKey::from("Content-Length".to_string());
    let b = CaseInsensitiveKey::new("content-length".to_string());
    assert!(a == b);
    assert_eq!(a.as_str(), "Content-Length");
    assert_eq!(b.into_string(), "content-length");
}
