//! Laws of records: what reading back a written record gives (its headers,
//! its declared length and its block, and block checksums that verify),
//! that `from_reader` is attaching and parsing, and that freezing is
//! idempotent.
use crate::bytes::{
    decimal, eq_ignore_case, find_from, lower_byte, is_ascii_ws, is_digit, lemma_decimal_parse, line_end_from, lower_seq, strip_eol, trim_ascii,
    trim_end_from, trim_start_from,
};
use crate::header::{crlf, first_value, sanitize, serialized, set_fields, set_scan, Field, HeaderMapModel};
use crate::header_laws::{clean_fields, clean_key, clean_status, clean_value};
use crate::record::{
    advanced_and_limited, attached_model, content_length_key, empty_model, frozen_model, content_length_value, content_type_key, emitted, find_warc_start,
    fresh_model, http_block_bytes, is_warc_version, meta_scan, parse_warc_headers_post, record_wf, algorithm_named, digest_text_decodes, sha1_digest_value,
    verify_outcome, digest_with, DigestAlgorithm, VerifyResult, block_digest_key, block_sha1, checksum_base, with_checksums,
    write_outcome, warc_type_key, Meta,
    StartLine, WarcRecordModel,
};
use crate::header::{parse_block_from, HeaderEncoding};
use crate::stream_io::{IoError, LimitedModel, StreamModel};
use crate::digest::{base32_decoded, base32_encoded, is_base32_char, md5_of, sha1_of, sha256_of, sha512_of};
use vstd::prelude::*;
use vstd::utf8::{
    encode_utf8, encode_utf8_valid_utf8, is_ascii_chars, is_ascii_chars_encode_utf8, valid_utf8, valid_utf8_concat,
};

verus! {

/// A key that `meta_scan` counts besides `Content-Length`.
pub open spec fn is_meta_key(k: Seq<u8>) -> bool {
    k == warc_type_key() || k == content_type_key()
}

/// Number of fields named exactly `WARC-Type` or `Content-Type`.
pub open spec fn meta_keys(f: Seq<Field>) -> nat
    decreases f.len(),
{
    if f.len() == 0 {
        0
    } else {
        meta_keys(f.drop_last()) + if is_meta_key(f.last().0) {
            1nat
        } else {
            0nat
        }
    }
}

/// Number of fields named exactly `Content-Length`.
pub open spec fn cl_keys(f: Seq<Field>) -> nat
    decreases f.len(),
{
    if f.len() == 0 {
        0
    } else {
        cl_keys(f.drop_last()) + if f.last().0 == content_length_key() {
            1nat
        } else {
            0nat
        }
    }
}

proof fn lemma_counts_first(f: Seq<Field>)
    requires
        f.len() > 0,
    ensures
        meta_keys(f) == meta_keys(f.drop_first()) + if is_meta_key(f[0].0) {
            1nat
        } else {
            0nat
        },
        cl_keys(f) == cl_keys(f.drop_first()) + if f[0].0 == content_length_key() {
            1nat
        } else {
            0nat
        },
    decreases f.len(),
{
    if f.len() > 1 {
        lemma_counts_first(f.drop_last());
        assert(f.drop_last().drop_first() =~= f.drop_first().drop_last());
        assert(f.drop_last()[0] == f[0]);
        assert(f.drop_first().last() == f.last());
    } else {
        assert(f.drop_first() =~= Seq::<Field>::empty());
        assert(f.drop_last() =~= Seq::<Field>::empty());
    }
}

/// Without `Content-Length` fields ahead, the scan keeps the length it has.
proof fn lemma_meta_scan_keeps(f: Seq<Field>, i: int, count: int, m: Meta)
    requires
        0 <= i <= f.len(),
        cl_keys(f.skip(i)) == 0,
    ensures
        meta_scan(f, i, count, m).content_length == m.content_length,
    decreases f.len() - i,
{
    if i < f.len() && count < 3 {
        lemma_counts_first(f.skip(i));
        assert(f.skip(i).drop_first() =~= f.skip(i + 1));
        assert(f.skip(i)[0] == f[i]);
        let k = f[i].0;
        if k == warc_type_key() {
            lemma_meta_scan_keeps(f, i + 1, count + 1, Meta { record_type: meta_scan_type(f[i].1), ..m });
        } else if k == content_type_key() {
            lemma_meta_scan_keeps(f, i + 1, count + 1, Meta { is_http: crate::record::is_http_content_type(f[i].1), ..m });
        } else {
            lemma_meta_scan_keeps(f, i + 1, count, m);
        }
    }
}

spec fn meta_scan_type(v: Seq<u8>) -> crate::record_type::WarcRecordType {
    match crate::record_type::type_from_name(v) {
        Some(t) => t,
        None => crate::record_type::WarcRecordType::Unknown,
    }
}

/// The scan reads the one `Content-Length` field ahead when it cannot run
/// out of its three reads before it.
proof fn lemma_meta_scan_length(f: Seq<Field>, i: int, count: int, m: Meta, v: Seq<u8>)
    requires
        0 <= i <= f.len(),
        0 <= count,
        count + meta_keys(f.skip(i)) + cl_keys(f.skip(i)) <= 3,
        cl_keys(f.skip(i)) == 1,
        forall|j: int| i <= j < f.len() && f[j].0 == content_length_key() ==> f[j].1 == v,
    ensures
        meta_scan(f, i, count, m).content_length == content_length_value(v),
    decreases f.len() - i,
{
    if i == f.len() {
        assert(f.skip(i) =~= Seq::<Field>::empty());
    } else {
        lemma_counts_first(f.skip(i));
        assert(f.skip(i).drop_first() =~= f.skip(i + 1));
        assert(f.skip(i)[0] == f[i]);
        let k = f[i].0;
        if k == warc_type_key() {
            lemma_meta_scan_length(f, i + 1, count + 1, Meta { record_type: meta_scan_type(f[i].1), ..m }, v);
        } else if k == content_type_key() {
            lemma_meta_scan_length(
                f,
                i + 1,
                count + 1,
                Meta { is_http: crate::record::is_http_content_type(f[i].1), ..m },
                v,
            );
        } else if k == content_length_key() {
            lemma_meta_scan_keeps(f, i + 1, count + 1, Meta { content_length: content_length_value(f[i].1), ..m });
        } else {
            lemma_meta_scan_length(f, i + 1, count, m, v);
        }
    }
}

/// What replacing the `Content-Length` fields (matched ignoring case) by
/// `nf` keeps: every other field in order, its `WARC-Type` and
/// `Content-Type` fields and its clean fields, with `nf` in place of the
/// first match.
proof fn lemma_set_scan_length(f: Seq<Field>, nf: Field)
    requires
        nf.0 == content_length_key(),
    ensures
        ({
            let (r, found) = set_scan(f, lower_seq(content_length_key()), nf);
            &&& meta_keys(r) == meta_keys(f)
            &&& cl_keys(r) == if found {
                1nat
            } else {
                0nat
            }
            &&& forall|j: int| 0 <= j < r.len() && r[j].0 == content_length_key() ==> r[j] == nf
            &&& forall|j: int| 0 <= j < r.len() ==> r[j] == nf || f.contains(r[j])
        }),
    decreases f.len(),
{
    let kl = lower_seq(content_length_key());
    assert(lower_seq(warc_type_key()) != kl) by {
        assert(lower_seq(warc_type_key())[5] != kl[5]);
    }
    assert(lower_seq(content_type_key()) != kl) by {
        assert(lower_seq(content_type_key())[8] != kl[8]);
    }
    if f.len() > 0 {
        let p = f.drop_last();
        lemma_set_scan_length(p, nf);
        let (r0, found0) = set_scan(p, kl, nf);
        let x = f.last();
        let (r, found) = set_scan(f, kl, nf);
        assert forall|j: int| 0 <= j < r0.len() implies r0[j] == nf || f.contains(r0[j]) by {
            if r0[j] != nf {
                let i = choose|i: int| 0 <= i < p.len() && p[i] == r0[j];
                assert(f[i] == p[i]);
            }
        }
        if lower_seq(x.0) != kl {
            assert(r == r0.push(x));
            assert(r.drop_last() =~= r0);
            assert(x.0 != content_length_key());
            assert(f.contains(x)) by {
                assert(f[f.len() - 1] == x);
            }
            assert forall|j: int| 0 <= j < r.len() implies r[j] == nf || f.contains(r[j]) by {
                if j < r0.len() {
                    assert(r[j] == r0[j]);
                }
            }
        } else if !found0 {
            assert(r == r0.push(nf));
            assert(r.drop_last() =~= r0);
            assert(!is_meta_key(x.0));
            assert forall|j: int| 0 <= j < r.len() implies r[j] == nf || f.contains(r[j]) by {
                if j < r0.len() {
                    assert(r[j] == r0[j]);
                }
            }
        } else {
            assert(!is_meta_key(x.0));
        }
    }
}

proof fn lemma_status_line(s: Seq<u8>, tail: Seq<u8>)
    requires
        clean_status(s),
    ensures
        line_end_from(s + crlf() + tail, 0) == s.len() + 2,
        (s + crlf() + tail).subrange(0, s.len() + 2int) == s + crlf(),
        trim_ascii(s + crlf()) == s,
        strip_eol(s + crlf()) == s,
        sanitize(s, true) == s,
{
    let line = s + crlf();
    let w = line + tail;
    assert(w =~= s + crlf() + tail);
    assert forall|j: int| 0 <= j < line.len() - 1 implies #[trigger] line[j] != 10u8 by {
        if j < s.len() {
            assert(line[j] == s[j]);
        }
    }
    assert(w.subrange(0, line.len() as int) =~= line);
    crate::header_laws::lemma_line_at(w, 0, line);
    let n = line.len() as int;
    assert(line[0] == s[0]);
    assert(trim_start_from(line, 0) == 0);
    assert(line[n - 1] == 10u8 && line[n - 2] == 13u8 && line[n - 3] == s.last());
    assert(trim_end_from(line, 0, n - 2) == n - 2);
    assert(trim_end_from(line, 0, n - 1) == n - 2);
    assert(trim_end_from(line, 0, n) == n - 2);
    assert(line.subrange(0, n - 2) =~= s);
    crate::header_laws::lemma_trim_clean(s);
    crate::header_laws::lemma_sanitized_identity(s, true);
}

/// The `Content-Length` field that writing sets: the fields stay clean,
/// it is the one field of that name, and its value reads as the length.
proof fn lemma_length_field(fields: Seq<Field>, cl: nat)
    requires
        clean_fields(fields),
        meta_keys(fields) <= 2,
        cl <= usize::MAX,
    ensures
        ({
            let f = set_fields(fields, content_length_key(), decimal(cl));
            &&& clean_fields(f)
            &&& cl_keys(f) == 1
            &&& meta_keys(f) <= 2
            &&& forall|j: int| 0 <= j < f.len() && f[j].0 == content_length_key() ==> f[j].1 == decimal(cl)
        }),
        content_length_value(decimal(cl)) == cl,
{
    let v = decimal(cl);
    let ck = content_length_key();
    lemma_decimal_parse(cl);
    assert(clean_key(ck));
    crate::header_laws::lemma_clean_key_sanitize(ck);
    assert(is_digit(v[0]) && is_digit(v[v.len() - 1]));
    crate::header_laws::lemma_trim_clean(v);
    assert forall|i: int| 0 <= i < v.len() implies #[trigger] v[i] != 10u8 && v[i] != 13u8 && (false ==> v[i]
        != 58u8) by {
        assert(is_digit(v[i]));
    }
    crate::header_laws::lemma_sanitized_identity(v, false);
    let nf: Field = (ck, v);
    assert(clean_value(v)) by {
        assert forall|i: int| 0 <= i < v.len() implies #[trigger] v[i] != 10u8 && v[i] != 13u8 by {
            assert(is_digit(v[i]));
        }
    }
    lemma_set_scan_length(fields, nf);
    let (r0, found) = set_scan(fields, lower_seq(ck), nf);
    let f = set_fields(fields, ck, v);
    assert(f == if found {
        r0
    } else {
        r0.push(nf)
    });
    if !found {
        assert(f.drop_last() =~= r0);
    }
    assert forall|j: int| 0 <= j < f.len() implies clean_key(#[trigger] f[j].0) && clean_value(f[j].1) by {
        let x = f[j];
        if x != nf {
            if j < r0.len() {
                assert(x == r0[j]);
            }
            let i = choose|i: int| 0 <= i < fields.len() && fields[i] == x;
            assert(clean_key(fields[i].0));
        }
    }
    assert forall|j: int| 0 <= j < f.len() && f[j].0 == ck implies f[j].1 == v by {
        if j < r0.len() {
            assert(f[j] == r0[j]);
        }
    }
    assert(crate::bytes::unsigned_digits(v) == v);
}

/// A written header block with a WARC status line is where a record starts,
/// and reads back as the header map it was written from.
proof fn lemma_read_block(h: HeaderMapModel, body: Seq<u8>, quirks: bool)
    requires
        h.status_line matches Some(s) && is_warc_version(s) && clean_status(s),
        clean_fields(h.fields),
        h.encoding == HeaderEncoding::Unicode,
        h.raw is None,
    ensures
        ({
            let s = h.status_line->0;
            let data = serialized(h) + body;
            let h0 = HeaderMapModel { encoding: HeaderEncoding::Unicode, status_line: Some(s), fields: Seq::empty(), raw: None };
            &&& find_warc_start(data, 0, quirks) == StartLine::Found { start: 0, end: s.len() as int + 2, status: s }
            &&& parse_block_from(data, s.len() as int + 2, h0, false) == (h, serialized(h).len() as int)
        }),
{
    let s = h.status_line->0;
    let data = serialized(h) + body;
    let tail = crate::header::fields_bytes(h.fields) + crlf() + body;
    assert(data =~= s + crlf() + tail);
    lemma_status_line(s, tail);
    crate::header_laws::law_write_parse_roundtrip(h, body);
}

/// A record written from state `m` (see [`emitted`]) reads back, whatever
/// follows it in the stream, with the headers it was written with (its
/// `Content-Length` set, and the written header block kept verbatim), the content length it declared and the block it
/// wrote; for a WARC status line, clean headers read as UTF-8, at most two
/// `WARC-Type` or `Content-Type` fields, and a content length that is the
/// length of the block.
pub proof fn law_write_then_read(
    m: WarcRecordModel,
    rest: Seq<u8>,
    quirks: bool,
    new: WarcRecordModel,
    r: Result<(), IoError>,
)
    requires
        m.reader is Some,
        m.headers.encoding == HeaderEncoding::Unicode,
        m.headers.status_line matches Some(s) && is_warc_version(s) && clean_status(s),
        clean_fields(m.headers.fields),
        meta_keys(m.headers.fields) <= 2,
        m.content_length == http_block_bytes(m).len() + m.reader->0.remaining().len(),
        emitted(m).0.len() + rest.len() <= usize::MAX,
        parse_warc_headers_post(fresh_model(StreamModel { data: emitted(m).0 + rest, pos: 0 }), new, r, quirks),
    ensures
        r == Ok::<(), IoError>(()),
        new.headers == (HeaderMapModel { raw: Some(serialized(emitted(m).1.headers)), ..emitted(m).1.headers }),
        new.content_length == m.content_length,
        new.reader matches Some(rd) && rd.remaining() == http_block_bytes(m) + m.reader->0.remaining(),
{
    let rd = m.reader->0;
    let cl = m.content_length;
    let h = emitted(m).1.headers;
    let block = http_block_bytes(m) + rd.remaining();
    let sep = seq![13u8, 10, 13, 10];
    let out = emitted(m).0;
    let data = out + rest;
    assert(out =~= serialized(h) + block + sep);
    assert(data =~= serialized(h) + (block + sep + rest));
    lemma_length_field(m.headers.fields, cl);
    lemma_read_block(h, block + sep + rest, quirks);
    let fresh = fresh_model(StreamModel { data, pos: 0 });
    let frd = fresh.reader->0;
    assert(frd.stream.rest() =~= data);
    assert(frd.remaining() =~= data);
    assert(h.fields.skip(0) =~= h.fields);
    lemma_meta_scan_length(
        h.fields,
        0,
        0,
        Meta { record_type: fresh.record_type, is_http: fresh.is_http, content_length: fresh.content_length },
        decimal(cl),
    );
    let nr = advanced_and_limited(frd, serialized(h).len(), cl);
    assert(nr.stream.rest() =~= block + sep + rest);
    assert(nr.remaining() =~= block);
    assert(data.subrange(0, serialized(h).len() as int) =~= serialized(h));
}

/// Reading a record with `from_reader` is creating an empty record,
/// attaching the reader and parsing its WARC headers: both start from the
/// same state, so they end in the same state with the same outcome, and the
/// record read is not frozen.
pub proof fn law_from_reader_is_attach_then_parse(
    st: StreamModel,
    a: WarcRecordModel,
    ra: Result<(), IoError>,
    b: WarcRecordModel,
    rb: Result<(), IoError>,
)
    requires
        parse_warc_headers_post(fresh_model(st), a, ra, false),
        parse_warc_headers_post(attached_model(empty_model(), st), b, rb, false),
    ensures
        a == b,
        ra == rb,
        !a.frozen,
{
    assert(attached_model(empty_model(), st) == fresh_model(st));
}

/// Freezing is idempotent. Freezing an unfrozen record that has a reader
/// keeps the block still to be read, as the content of its new in-memory
/// reader and as its content length; once the original reader has been
/// handed out, freezing again hands out nothing and changes nothing.
pub proof fn law_freeze_idempotent(m: WarcRecordModel)
    requires
        record_wf(m),
        !m.frozen,
        m.reader is Some,
    ensures
        ({
            let once = WarcRecordModel { reader_original: None, ..frozen_model(m) };
            &&& once.frozen
            &&& once.content_length == m.reader->0.remaining().len()
            &&& once.reader matches Some(rd) && rd.remaining() == m.reader->0.remaining()
            &&& once.reader_original is None
            &&& WarcRecordModel { reader_original: None, ..once } == once
        }),
{
    let rem = m.reader->0.remaining();
    let rd = LimitedModel { stream: StreamModel { data: rem, pos: 0 }, limit: usize::MAX as nat, pos: 0 };
    assert(rd.stream.rest() =~= rem);
}

/// The digest text `sha1:` and the base32 text of `d`: a clean UTF-8 value
/// whose first `:` follows `sha1` and whose digest part is that base32 text.
proof fn lemma_sha1_text(d: Seq<u8>)
    requires
        digest_text_decodes(d),
    ensures
        ({
            let dv = sha1_digest_value(d);
            let t = encode_utf8(base32_encoded(d));
            &&& find_from(dv, 58u8, 0) == 4
            &&& lower_seq(dv.take(4)) == seq![115u8, 104, 97, 49]
            &&& trim_ascii(dv.subrange(5, dv.len() as int)) == t
            &&& clean_value(dv)
            &&& valid_utf8(dv)
        }),
{
    let b = base32_encoded(d);
    let t = encode_utf8(b);
    let dv = sha1_digest_value(d);
    assert(is_ascii_chars(b)) by {
        assert forall|i: int| 0 <= i < b.len() implies '\0' <= #[trigger] b[i] <= '\u{7f}' by {
            assert(is_base32_char(b[i]));
        }
    }
    is_ascii_chars_encode_utf8(b);
    assert forall|i: int| 0 <= i < t.len() implies #[trigger] t[i] != 58u8 && !is_ascii_ws(t[i]) by {
        assert(is_base32_char(b[i]));
        assert(t[i] == b[i] as u8);
    }
    let p = seq![115u8, 104, 97, 49, 58];
    assert(dv == p + t);
    assert(dv[0] == 115u8 && dv[1] == 104u8 && dv[2] == 97u8 && dv[3] == 49u8 && dv[4] == 58u8);
    assert(find_from(dv, 58u8, 4) == 4);
    assert(find_from(dv, 58u8, 3) == 4);
    assert(find_from(dv, 58u8, 2) == 4);
    assert(find_from(dv, 58u8, 1) == 4);
    assert(find_from(dv, 58u8, 0) == 4);
    assert(lower_seq(dv.take(4)) =~= seq![115u8, 104, 97, 49]);
    assert(dv.subrange(5, dv.len() as int) =~= t);
    crate::header_laws::lemma_trim_clean(t);
    assert forall|i: int| 0 <= i < dv.len() implies #[trigger] dv[i] != 10u8 && dv[i] != 13u8 by {
        if i >= 5 {
            assert(dv[i] == t[i - 5]);
        }
    }
    assert(!is_ascii_ws(dv.last())) by {
        if t.len() > 0 {
            assert(dv.last() == t[t.len() - 1]);
        }
    }
    let pc = seq!['s', 'h', 'a', '1', ':'];
    assert(is_ascii_chars(pc));
    is_ascii_chars_encode_utf8(pc);
    assert(encode_utf8(pc) =~= p);
    encode_utf8_valid_utf8(pc);
    encode_utf8_valid_utf8(b);
    valid_utf8_concat(p, t);
}

/// Verifying `sha1:` and the base32 text of the SHA-1 digest of what an
/// unfrozen record has still to read finds the digest matching.
proof fn lemma_verify_sha1(m: WarcRecordModel, d: Seq<u8>)
    requires
        !m.frozen,
        m.reader is Some,
        digest_text_decodes(d),
        sha1_of(m.reader->0.remaining()) == d,
        m.reader->0.remaining().len() <= usize::MAX,
    ensures
        verify_outcome(m, sha1_digest_value(d), false).0 == VerifyResult::Matches(true),
{
    lemma_sha1_text(d);
    let rd = m.reader->0;
    let rem = rd.remaining();
    let f = frozen_model(m);
    let nr = LimitedModel { stream: StreamModel { data: rem, pos: 0 }, limit: usize::MAX as nat, pos: 0 };
    assert(nr.stream.rest() =~= rem);
    assert(f.reader == Some(nr));
    assert(nr.remaining() == rem);
    assert(algorithm_named(seq![115u8, 104, 97, 49]) == Some(DigestAlgorithm::Sha1)) by {
        assert(lower_seq(seq![115u8, 104, 97, 49]) =~= seq![115u8, 104, 97, 49]);
    }
}

/// What replacing the `WARC-Block-Digest` fields (matched ignoring case) by
/// `nf` keeps: the count of `WARC-Type` and `Content-Type` fields, and every
/// other field.
proof fn lemma_set_scan_digest(f: Seq<Field>, nf: Field)
    requires
        nf.0 == block_digest_key(),
    ensures
        ({
            let (r, found) = set_scan(f, lower_seq(block_digest_key()), nf);
            &&& meta_keys(r) == meta_keys(f)
            &&& forall|j: int| 0 <= j < r.len() ==> r[j] == nf || f.contains(r[j])
        }),
    decreases f.len(),
{
    let kl = lower_seq(block_digest_key());
    assert(lower_seq(warc_type_key()) != kl) by {
        assert(lower_seq(warc_type_key()).len() != kl.len());
    }
    assert(lower_seq(content_type_key()) != kl) by {
        assert(lower_seq(content_type_key()).len() != kl.len());
    }
    assert(!is_meta_key(nf.0)) by {
        assert(block_digest_key().len() != warc_type_key().len());
        assert(block_digest_key().len() != content_type_key().len());
    }
    if f.len() > 0 {
        let p = f.drop_last();
        lemma_set_scan_digest(p, nf);
        let (r0, found0) = set_scan(p, kl, nf);
        let x = f.last();
        let (r, found) = set_scan(f, kl, nf);
        assert forall|j: int| 0 <= j < r0.len() implies r0[j] == nf || f.contains(r0[j]) by {
            if r0[j] != nf {
                let i = choose|i: int| 0 <= i < p.len() && p[i] == r0[j];
                assert(f[i] == p[i]);
            }
        }
        if lower_seq(x.0) != kl {
            assert(r == r0.push(x));
            assert(r.drop_last() =~= r0);
            assert(f.contains(x)) by {
                assert(f[f.len() - 1] == x);
            }
            assert forall|j: int| 0 <= j < r.len() implies r[j] == nf || f.contains(r[j]) by {
                if j < r0.len() {
                    assert(r[j] == r0[j]);
                }
            }
        } else if !found0 {
            assert(r == r0.push(nf));
            assert(r.drop_last() =~= r0);
            assert(!is_meta_key(x.0));
            assert forall|j: int| 0 <= j < r.len() implies r[j] == nf || f.contains(r[j]) by {
                if j < r0.len() {
                    assert(r[j] == r0[j]);
                }
            }
        } else {
            assert(!is_meta_key(x.0));
        }
    }
}

/// Setting `WARC-Block-Digest` to a clean value keeps the fields clean and
/// adds no `WARC-Type` or `Content-Type` field.
proof fn lemma_digest_field(fields: Seq<Field>, v: Seq<u8>)
    requires
        clean_fields(fields),
        meta_keys(fields) <= 2,
        clean_value(v),
    ensures
        clean_fields(set_fields(fields, block_digest_key(), v)),
        meta_keys(set_fields(fields, block_digest_key(), v)) <= 2,
{
    let bk = block_digest_key();
    assert(clean_key(bk));
    crate::header_laws::lemma_clean_key_sanitize(bk);
    crate::header_laws::lemma_trim_clean(v);
    crate::header_laws::lemma_sanitized_identity(v, false);
    let nf: Field = (bk, v);
    lemma_set_scan_digest(fields, nf);
    let (r0, found) = set_scan(fields, lower_seq(bk), nf);
    let f = set_fields(fields, bk, v);
    assert(f == if found {
        r0
    } else {
        r0.push(nf)
    });
    if !found {
        assert(f.drop_last() =~= r0);
        assert(!is_meta_key(nf.0)) by {
            assert(bk.len() != warc_type_key().len());
            assert(bk.len() != content_type_key().len());
        }
    }
    assert forall|j: int| 0 <= j < f.len() implies clean_key(#[trigger] f[j].0) && clean_value(f[j].1) by {
        let x = f[j];
        if x != nf {
            if j < r0.len() {
                assert(x == r0[j]);
            }
            let i = choose|i: int| 0 <= i < fields.len() && fields[i] == x;
            assert(clean_key(fields[i].0));
        }
    }
}

/// The checksums that `write_with_checksum` writes verify when the record
/// is read back: for a record with a reader (if frozen, unread and with its
/// content length that of its block), without parsed HTTP headers and with
/// WARC headers that read back as written, the bytes written
/// read back (whatever follows them) as a record whose `WARC-Block-Digest` is
/// `sha1:` and the base32 text of the SHA-1 digest of the block, and
/// verifying it (without consuming the block) finds it matching.
/// `digest_text_decodes` is what `write_with_checksum` states of that digest;
/// with a UTF-8 digest value, `verify_block_digest` gives `verify_outcome`.
pub proof fn law_checksum_then_verify(
    m0: WarcRecordModel,
    rest: Seq<u8>,
    a: WarcRecordModel,
    ra: Result<(), IoError>,
)
    requires
        record_wf(m0),
        m0.reader is Some,
        m0.frozen ==> m0.reader->0.pos == 0 && m0.content_length == m0.reader->0.remaining().len(),
        !m0.http_parsed,
        m0.headers.encoding == HeaderEncoding::Unicode,
        m0.headers.status_line matches Some(s) && is_warc_version(s) && clean_status(s),
        clean_fields(m0.headers.fields),
        meta_keys(m0.headers.fields) <= 2,
        digest_text_decodes(block_sha1(checksum_base(m0))),
        write_outcome(m0, true).0 matches Some(w) && w.len() + rest.len() <= usize::MAX
            && parse_warc_headers_post(fresh_model(StreamModel { data: w + rest, pos: 0 }), a, ra, false),
    ensures
        ra == Ok::<(), IoError>(()),
        a.headers.encoding == HeaderEncoding::Unicode,
        first_value(a.headers.fields, block_digest_key()) == Some(sha1_digest_value(block_sha1(checksum_base(m0)))),
        valid_utf8(sha1_digest_value(block_sha1(checksum_base(m0)))),
        verify_outcome(a, sha1_digest_value(block_sha1(checksum_base(m0))), false).0 == VerifyResult::Matches(true),
{
    let pre = checksum_base(m0);
    let d = block_sha1(pre);
    let v = sha1_digest_value(d);
    let m = with_checksums(pre);
    let rd = m0.reader->0;
    let rem = rd.remaining();
    assert(rem.len() <= rd.stream.data.len());
    if !m0.frozen {
        let nr = LimitedModel { stream: StreamModel { data: rem, pos: 0 }, limit: usize::MAX as nat, pos: 0 };
        assert(nr.stream.rest() =~= rem);
        assert(nr.remaining() == rem);
        assert(pre.reader == Some(nr));
        assert(m.reader == Some(nr));
    } else {
        assert(pre == m0);
        assert(m.reader == Some(rd));
    }
    assert(pre.reader->0.remaining() == rem);
    assert(m.reader->0.remaining() == rem);
    assert(m.content_length == rem.len());
    assert(http_block_bytes(pre) =~= Seq::<u8>::empty());
    assert(http_block_bytes(pre) + rem =~= rem);
    lemma_sha1_text(d);
    lemma_digest_field(pre.headers.fields, v);
    assert(m.content_length == http_block_bytes(m).len() + m.reader->0.remaining().len()) by {
        assert(http_block_bytes(m) =~= Seq::<u8>::empty());
    }
    assert(write_outcome(m0, true).0 == Some(emitted(m).0));
    law_write_then_read(m, rest, false, a, ra);
    let cl = m.content_length;
    let hf = set_fields(m.headers.fields, content_length_key(), decimal(cl));
    assert(a.headers.fields == hf);
    crate::header_laws::law_set_then_get(m.headers.fields, content_length_key(), decimal(cl), block_digest_key());
    assert(!eq_ignore_case(content_length_key(), block_digest_key())) by {
        assert(content_length_key().len() != block_digest_key().len());
    }
    crate::header_laws::law_set_then_get(pre.headers.fields, block_digest_key(), v, block_digest_key());
    crate::header_laws::lemma_trim_clean(v);
    crate::header_laws::lemma_sanitized_identity(v, false);
    assert(a.reader matches Some(ar) && ar.remaining() == rem);
    assert(!a.frozen);
    lemma_verify_sha1(a, d);
}

proof fn lemma_find_colon(name: Seq<u8>, rest: Seq<u8>, i: int)
    requires
        0 <= i <= name.len(),
        forall|j: int| 0 <= j < name.len() ==> #[trigger] name[j] != 58u8,
    ensures
        find_from(name + seq![58u8] + rest, 58u8, i) == name.len(),
    decreases name.len() - i,
{
    let d = name + seq![58u8] + rest;
    if i < name.len() {
        assert(d[i] == name[i]);
        lemma_find_colon(name, rest, i + 1);
    } else {
        assert(d[i] == 58u8);
    }
}

/// Verifying the digest text `name:text` of an unfrozen record, for a digest
/// algorithm `a` that `name` names, compares what `text` decodes to with the
/// digest of the block still to be read.
proof fn lemma_verify_named(m: WarcRecordModel, name: Seq<u8>, text: Seq<u8>, a: DigestAlgorithm)
    requires
        !m.frozen,
        m.reader is Some,
        m.reader->0.remaining().len() <= usize::MAX,
        forall|j: int| 0 <= j < name.len() ==> #[trigger] name[j] != 58u8,
        algorithm_named(name) == Some(a),
        trim_ascii(text) == text,
        base32_decoded(text) is Some,
    ensures
        verify_outcome(m, name + seq![58u8] + text, false).0 == VerifyResult::Matches(
            base32_decoded(text)->0 == digest_with(a, m.reader->0.remaining()),
        ),
{
    let d = name + seq![58u8] + text;
    lemma_find_colon(name, text, 0);
    assert(d.take(name.len() as int) =~= name);
    assert(d.subrange(name.len() as int + 1, d.len() as int) =~= text);
    assert(lower_seq(name) == lower_seq(lower_seq(name))) by {
        assert(lower_seq(lower_seq(name)) =~= lower_seq(name)) by {
            assert forall|j: int| 0 <= j < name.len() implies lower_byte(lower_byte(name[j])) == lower_byte(
                name[j],
            ) by {}
        }
    }
    let rd = m.reader->0;
    let rem = rd.remaining();
    let nr = LimitedModel { stream: StreamModel { data: rem, pos: 0 }, limit: usize::MAX as nat, pos: 0 };
    assert(nr.stream.rest() =~= rem);
    assert(nr.remaining() == rem);
    assert(frozen_model(m).reader == Some(nr));
}

/// `text` as bytes, for an ASCII literal.
proof fn lemma_ascii_literal(c: Seq<char>)
    requires
        vstd::utf8::is_ascii_chars(c),
    ensures
        encode_utf8(c) == Seq::new(c.len(), |i: int| c[i] as u8),
{
    is_ascii_chars_encode_utf8(c);
    assert(encode_utf8(c) =~= Seq::new(c.len(), |i: int| c[i] as u8));
}

/// Verifying a block digest compares the digest named in the header with
/// the digest of the block by that algorithm: for an unfrozen record whose
/// digest text (trimmed) decodes as base32 to `expected`, `md5:`, `sha1:`,
/// `sha256:` and `sha512:` (in any case of letters) compare `expected` with
/// the MD5, SHA-1, SHA-256 and SHA-512 digest of the block still to be
/// read, and a match is `Matches(true)`.
pub proof fn law_verify_digest_algorithms(m: WarcRecordModel, text: Seq<u8>, expected: Seq<u8>)
    requires
        !m.frozen,
        m.reader is Some,
        m.reader->0.remaining().len() <= usize::MAX,
        trim_ascii(text) == text,
        base32_decoded(text) == Some(expected),
    ensures
        verify_outcome(m, encode_utf8("md5:"@) + text, false).0 == VerifyResult::Matches(
            expected == md5_of(m.reader->0.remaining()),
        ),
        verify_outcome(m, encode_utf8("sha1:"@) + text, false).0 == VerifyResult::Matches(
            expected == sha1_of(m.reader->0.remaining()),
        ),
        verify_outcome(m, encode_utf8("sha256:"@) + text, false).0 == VerifyResult::Matches(
            expected == sha256_of(m.reader->0.remaining()),
        ),
        verify_outcome(m, encode_utf8("SHA256:"@) + text, false).0 == VerifyResult::Matches(
            expected == sha256_of(m.reader->0.remaining()),
        ),
        verify_outcome(m, encode_utf8("sha512:"@) + text, false).0 == VerifyResult::Matches(
            expected == sha512_of(m.reader->0.remaining()),
        ),
{
    reveal_strlit("md5:");
    reveal_strlit("sha1:");
    reveal_strlit("sha256:");
    reveal_strlit("SHA256:");
    reveal_strlit("sha512:");
    let l1 = "md5:"@;
    let l2 = "sha1:"@;
    let l3 = "sha256:"@;
    let l4 = "SHA256:"@;
    let l5 = "sha512:"@;
    assert(vstd::utf8::is_ascii_chars(l1));
    assert(vstd::utf8::is_ascii_chars(l2));
    assert(vstd::utf8::is_ascii_chars(l3));
    assert(vstd::utf8::is_ascii_chars(l4));
    assert(vstd::utf8::is_ascii_chars(l5));
    lemma_ascii_literal(l1);
    lemma_ascii_literal(l2);
    lemma_ascii_literal(l3);
    lemma_ascii_literal(l4);
    lemma_ascii_literal(l5);
    let n1 = seq![109u8, 100, 53];
    let n2 = seq![115u8, 104, 97, 49];
    let n3 = seq![115u8, 104, 97, 50, 53, 54];
    let n4 = seq![83u8, 72, 65, 50, 53, 54];
    let n5 = seq![115u8, 104, 97, 53, 49, 50];
    assert(encode_utf8(l1) =~= n1 + seq![58u8]);
    assert(encode_utf8(l2) =~= n2 + seq![58u8]);
    assert(encode_utf8(l3) =~= n3 + seq![58u8]);
    assert(encode_utf8(l4) =~= n4 + seq![58u8]);
    assert(encode_utf8(l5) =~= n5 + seq![58u8]);
    assert(lower_seq(n1) =~= n1);
    assert(lower_seq(n2) =~= n2);
    assert(lower_seq(n3) =~= n3);
    assert(lower_seq(n4) =~= n3);
    assert(lower_seq(n5) =~= n5);
    lemma_verify_named(m, n1, text, DigestAlgorithm::Md5);
    lemma_verify_named(m, n2, text, DigestAlgorithm::Sha1);
    lemma_verify_named(m, n3, text, DigestAlgorithm::Sha256);
    lemma_verify_named(m, n4, text, DigestAlgorithm::Sha256);
    lemma_verify_named(m, n5, text, DigestAlgorithm::Sha512);
}

} // verus!
