//! What reads of a [`HeaderMap`](crate::header::HeaderMap) give back after its
//! writes, and that a written header block parses back to the same map.
use crate::bytes::{
    eq_ignore_case, find_from, is_ascii_ws, lemma_find_from_bounds, lemma_line_end_prefix,
    lemma_line_end_skip, lemma_trim_end_bounds, lemma_trim_start_bounds, line_end_from, lower_byte,
    lower_seq, strip_eol, trim_ascii, trim_end_from, trim_start_from,
};
use crate::header::{
    continued, crlf, field_bytes, fields_bytes, parse_block_from, sanitize, sanitized_bytes,
    sanitized_byte, serialized, set_fields, set_scan, status_bytes, values_for, without_key, Field,
    HeaderMapModel, status_code_of,
};
use crate::bytes::parse_unsigned;
use crate::codec::is_ascii_bytes;
use vstd::prelude::*;
use vstd::utf8::encode_utf8;

verus! {

/// A header key that sanitizing leaves as it is: non-empty, without white
/// space (so without CR and LF) and without `':'`.
pub open spec fn clean_key(k: Seq<u8>) -> bool {
    &&& k.len() > 0
    &&& forall|i: int| 0 <= i < k.len() ==> !is_ascii_ws(#[trigger] k[i]) && k[i] != 58u8
}

/// A header value that writing and reading back leaves as it is: no CR or LF,
/// no leading or trailing white space.
pub open spec fn clean_value(v: Seq<u8>) -> bool {
    &&& forall|i: int| 0 <= i < v.len() ==> #[trigger] v[i] != 10u8 && v[i] != 13u8
    &&& (v.len() > 0 ==> !is_ascii_ws(v[0]) && !is_ascii_ws(v.last()))
}

/// A status line that writing and reading back leaves as it is.
pub open spec fn clean_status(s: Seq<u8>) -> bool {
    &&& s.len() > 0
    &&& clean_value(s)
    &&& forall|i: int| 0 <= i < s.len() ==> #[trigger] s[i] != 58u8
}

pub open spec fn clean_fields(fields: Seq<Field>) -> bool {
    forall|i: int| 0 <= i < fields.len() ==> clean_key(#[trigger] fields[i].0) && clean_value(fields[i].1)
}

proof fn lemma_trim_start_shift(p: Seq<u8>, v: Seq<u8>, i: int)
    requires
        0 <= i <= v.len(),
    ensures
        trim_start_from(p + v, p.len() + i) == p.len() + trim_start_from(v, i),
    decreases v.len() - i,
{
    if i < v.len() {
        assert((p + v)[p.len() + i] == v[i]);
        if is_ascii_ws(v[i]) {
            lemma_trim_start_shift(p, v, i + 1);
        }
    }
}

proof fn lemma_trim_end_shift(p: Seq<u8>, v: Seq<u8>, lo: int, j: int)
    requires
        0 <= lo <= j <= v.len(),
    ensures
        trim_end_from(p + v, p.len() + lo, p.len() + j) == p.len() + trim_end_from(v, lo, j),
    decreases j - lo,
{
    if lo < j {
        assert((p + v)[p.len() + j - 1] == v[j - 1]);
        if is_ascii_ws(v[j - 1]) {
            lemma_trim_end_shift(p, v, lo, j - 1);
        }
    }
}

/// A clean value is its own trim.
pub proof fn lemma_trim_clean(v: Seq<u8>)
    requires
        v.len() == 0 || (!is_ascii_ws(v[0]) && !is_ascii_ws(v.last())),
    ensures
        trim_ascii(v) == v,
{
    if v.len() > 0 {
        assert(trim_start_from(v, 0) == 0);
        assert(trim_end_from(v, 0, v.len() as int) == v.len());
    }
    assert(trim_ascii(v) =~= v);
}

/// Trimming `" " + v` gives the trim of `v`.
proof fn lemma_trim_space_prefix(v: Seq<u8>)
    ensures
        trim_ascii(seq![32u8] + v) == trim_ascii(v),
{
    let p = seq![32u8];
    let x = p + v;
    assert(x[0] == 32u8);
    lemma_trim_start_shift(p, v, 0);
    assert(trim_start_from(x, 0) == trim_start_from(x, 1));
    let a = trim_start_from(v, 0);
    lemma_trim_start_bounds(v, 0);
    lemma_trim_end_shift(p, v, a, v.len() as int);
    lemma_trim_end_bounds(v, a, v.len() as int);
    let e = trim_end_from(v, a, v.len() as int);
    assert(x.subrange(1 + a, 1 + e) =~= v.subrange(a, e));
}

/// Sanitizing bytes without CR, LF or (for a key) `':'` leaves them as they are.
pub proof fn lemma_sanitized_identity(s: Seq<u8>, is_key: bool)
    requires
        forall|i: int| 0 <= i < s.len() ==> #[trigger] s[i] != 10u8 && s[i] != 13u8 && (is_key ==> s[i] != 58u8),
    ensures
        sanitized_bytes(s, is_key) == s,
    decreases s.len(),
{
    if s.len() > 0 {
        lemma_sanitized_identity(s.drop_last(), is_key);
        assert(s.drop_last() + seq![s.last()] =~= s);
    }
}

/// Sanitizing a clean key leaves it as it is, and so does sanitizing its lower-case form.
pub proof fn lemma_clean_key_sanitize(k: Seq<u8>)
    requires
        clean_key(k),
    ensures
        sanitize(k, true) == k,
        sanitize(lower_seq(k), true) == lower_seq(k),
        clean_key(lower_seq(k)),
{
    lemma_trim_clean(k);
    lemma_sanitized_identity(k, true);
    let l = lower_seq(k);
    assert forall|i: int| 0 <= i < l.len() implies !is_ascii_ws(#[trigger] l[i]) && l[i] != 58u8 by {
        assert(l[i] == lower_byte(k[i]));
    }
    lemma_trim_clean(l);
    lemma_sanitized_identity(l, true);
}

proof fn lemma_set_scan_values(f: Seq<Field>, k: Seq<u8>, nf: Field, k2: Seq<u8>)
    requires
        lower_seq(nf.0) == lower_seq(k),
    ensures
        ({
            let (r, found) = set_scan(f, lower_seq(k), nf);
            &&& eq_ignore_case(k, k2) ==> values_for(r, k2) == if found {
                seq![nf.1]
            } else {
                Seq::<Seq<u8>>::empty()
            }
            &&& !eq_ignore_case(k, k2) ==> values_for(r, k2) == values_for(f, k2)
        }),
    decreases f.len(),
{
    if f.len() > 0 {
        lemma_set_scan_values(f.drop_last(), k, nf, k2);
        let (r0, found0) = set_scan(f.drop_last(), lower_seq(k), nf);
        let last = f.last();
        if lower_seq(last.0) != lower_seq(k) {
            assert(r0.push(last).drop_last() =~= r0);
        } else if !found0 {
            assert(r0.push(nf).drop_last() =~= r0);
            assert(Seq::<Seq<u8>>::empty().push(nf.1) =~= seq![nf.1]);
        }
    }
}

/// After `set_bytes(k, v)` with a clean key, reading `k` gives exactly the
/// sanitized `v`, and reading a key that differs from `k` ignoring ASCII case
/// gives what it gave before.
pub proof fn law_set_then_get(fields: Seq<Field>, k: Seq<u8>, v: Seq<u8>, k2: Seq<u8>)
    requires
        clean_key(k),
    ensures
        values_for(set_fields(fields, k, v), k) == seq![sanitize(v, false)],
        !eq_ignore_case(k, k2) ==> values_for(set_fields(fields, k, v), k2) == values_for(fields, k2),
{
    lemma_clean_key_sanitize(k);
    let nf = (sanitize(k, true), sanitize(v, false));
    lemma_set_scan_values(fields, k, nf, k);
    lemma_set_scan_values(fields, k, nf, k2);
    let (r, found) = set_scan(fields, lower_seq(k), nf);
    if !found {
        assert(r.push(nf).drop_last() =~= r);
        assert(Seq::<Seq<u8>>::empty().push(nf.1) =~= seq![nf.1]);
    }
}

/// After `remove_bytes(k)` with a clean key, reading `k` gives nothing, and
/// reading a key that differs from `k` ignoring ASCII case gives what it gave before.
pub proof fn law_remove_then_get(fields: Seq<Field>, k: Seq<u8>, k2: Seq<u8>)
    requires
        clean_key(k),
    ensures
        values_for(without_key(fields, sanitize(k, true)), k).len() == 0,
        !eq_ignore_case(k, k2) ==> values_for(without_key(fields, sanitize(k, true)), k2) == values_for(
            fields,
            k2,
        ),
    decreases fields.len(),
{
    lemma_clean_key_sanitize(k);
    if fields.len() > 0 {
        law_remove_then_get(fields.drop_last(), k, k2);
        let r0 = without_key(fields.drop_last(), k);
        if !eq_ignore_case(fields.last().0, k) {
            assert(r0.push(fields.last()).drop_last() =~= r0);
        }
    }
}

/// After `append_bytes(k, v)` with a clean key, the values read for `k` are the
/// earlier ones followed by the sanitized `v`.
pub proof fn law_append_then_get_multiple(fields: Seq<Field>, k: Seq<u8>, v: Seq<u8>)
    requires
        clean_key(k),
    ensures
        values_for(fields.push((sanitize(k, true), sanitize(v, false))), k) == values_for(fields, k).push(
            sanitize(v, false),
        ),
{
    lemma_clean_key_sanitize(k);
    let g = fields.push((sanitize(k, true), sanitize(v, false)));
    assert(g.drop_last() =~= fields);
}

proof fn lemma_field_line(f: Field)
    requires
        clean_key(f.0) || f.0.len() == 0,
        clean_value(f.1),
    ensures
        field_bytes(f).len() >= 2,
        field_bytes(f).last() == 10u8,
        forall|j: int| 0 <= j < field_bytes(f).len() - 1 ==> #[trigger] field_bytes(f)[j] != 10u8,
        strip_eol(field_bytes(f)) == if f.0.len() > 0 {
            f.0 + seq![58u8, 32u8] + f.1
        } else {
            f.1
        },
{
    let b = field_bytes(f);
    if f.0.len() > 0 {
        let body = f.0 + seq![58u8, 32u8] + f.1;
        assert(b =~= body + crlf());
        assert forall|j: int| 0 <= j < b.len() - 1 implies #[trigger] b[j] != 10u8 by {
            if j < f.0.len() {
                assert(b[j] == f.0[j]);
            } else if j < f.0.len() + 2 {
            } else if j < body.len() {
                assert(b[j] == f.1[j - f.0.len() - 2]);
            }
        }
        assert(strip_eol(b) =~= body);
    } else {
        assert(b =~= f.1 + crlf());
        assert forall|j: int| 0 <= j < b.len() - 1 implies #[trigger] b[j] != 10u8 by {
            if j < f.1.len() {
                assert(b[j] == f.1[j]);
            }
        }
        assert(strip_eol(b) =~= f.1);
    }
}

/// The fields of a header line that was written from a field with a clean key
/// and value are that field.
proof fn lemma_field_line_parse(f: Field)
    requires
        clean_key(f.0),
        clean_value(f.1),
    ensures
        ({
            let t = strip_eol(field_bytes(f));
            let c = find_from(t, 58u8, 0);
            &&& t.len() > 0
            &&& t[0] != 32u8 && t[0] != 9u8
            &&& c == f.0.len()
            &&& c < t.len()
            &&& trim_ascii(t.subrange(0, c)) == f.0
            &&& trim_ascii(t.subrange(c + 1, t.len() as int)) == f.1
        }),
{
    lemma_field_line(f);
    let t = f.0 + seq![58u8, 32u8] + f.1;
    assert(t[0] == f.0[0]);
    lemma_find_from_bounds(t, 58u8, 0);
    let c = find_from(t, 58u8, 0);
    if c < f.0.len() {
        assert(t[c] == f.0[c]);
    }
    assert(t[f.0.len() as int] == 58u8);
    assert(c == f.0.len());
    assert(t.subrange(0, c) =~= f.0);
    lemma_trim_clean(f.0);
    assert(t.subrange(c + 1, t.len() as int) =~= seq![32u8] + f.1);
    lemma_trim_space_prefix(f.1);
    lemma_trim_clean(f.1);
}

/// Reading a line that starts at `pos` in `w` when `w` holds `line` there.
pub proof fn lemma_line_at(w: Seq<u8>, pos: int, line: Seq<u8>)
    requires
        0 <= pos,
        pos + line.len() <= w.len(),
        w.subrange(pos, pos + line.len()) == line,
        line.len() > 0,
        line.last() == 10u8,
        forall|j: int| 0 <= j < line.len() - 1 ==> #[trigger] line[j] != 10u8,
    ensures
        line_end_from(w, pos) == pos + line.len(),
        w.subrange(pos, line_end_from(w, pos)) == line,
{
    let tail = w.skip(pos);
    assert(tail =~= line + w.skip(pos + line.len()));
    lemma_line_end_prefix(line, w.skip(pos + line.len()));
    lemma_line_end_skip(w, pos);
}

proof fn lemma_fields_parse(w: Seq<u8>, fields: Seq<Field>, base: int, h: HeaderMapModel, i: int)
    requires
        clean_fields(fields),
        0 <= base,
        0 <= i <= fields.len(),
        base + fields_bytes(fields).len() + 2 <= w.len(),
        w.subrange(base, base + fields_bytes(fields).len() + 2) == fields_bytes(fields) + crlf(),
        h.fields == fields.take(i),
        h.raw is None,
    ensures
        parse_block_from(w, base + fields_bytes(fields.take(i)).len(), h, false) == (
            HeaderMapModel { fields: fields, ..h },
            base + fields_bytes(fields).len() + 2,
        ),
    decreases fields.len() - i,
{
    let pos = base + fields_bytes(fields.take(i)).len();
    lemma_fields_bytes_prefix(fields, i);
    if i == fields.len() {
        assert(fields.take(i) =~= fields);
        let line = crlf();
        let lf = fields_bytes(fields).len() as int;
        let big = w.subrange(base, base + lf + 2);
        assert(fields_bytes(fields.take(i)) == fields_bytes(fields));
        assert(big.subrange(lf, lf + 2) =~= line);
        assert(w.subrange(pos, pos + 2) =~= big.subrange(lf, lf + 2));
        lemma_line_at(w, pos, line);
        assert(strip_eol(line) =~= Seq::<u8>::empty());
        assert(h.fields =~= fields);
    } else {
        let f = fields[i];
        lemma_fields_bytes_prefix(fields, i + 1);
        assert(fields.take(i + 1).drop_last() =~= fields.take(i));
        let line = field_bytes(f);
        lemma_field_line(f);
        let whole = fields_bytes(fields) + crlf();
        let next = base + fields_bytes(fields.take(i + 1)).len();
        assert(w.subrange(pos, pos + line.len()) =~= whole.subrange(pos - base, next - base));
        let a = fields_bytes(fields.take(i));
        let b = fields_bytes(fields.take(i + 1));
        assert(b == a + line);
        assert(whole.subrange(0, b.len() as int) =~= fields_bytes(fields).subrange(0, b.len() as int));
        assert(whole.subrange(pos - base, next - base) =~= whole.subrange(0, b.len() as int).subrange(
            a.len() as int,
            b.len() as int,
        ));
        assert(b.subrange(a.len() as int, b.len() as int) =~= line);
        assert(whole.subrange(pos - base, next - base) =~= line);
        lemma_line_at(w, pos, line);
        lemma_field_line_parse(f);
        let h2 = HeaderMapModel { fields: h.fields.push(f), ..h };
        assert(h.fields.push(f) =~= fields.take(i + 1));
        lemma_fields_parse(w, fields, base, h2, i + 1);
    }
}

/// `fields_bytes` of a prefix is a prefix of `fields_bytes`.
proof fn lemma_fields_bytes_prefix(fields: Seq<Field>, i: int)
    requires
        0 <= i <= fields.len(),
    ensures
        fields_bytes(fields.take(i)).len() <= fields_bytes(fields).len(),
        fields_bytes(fields).subrange(0, fields_bytes(fields.take(i)).len() as int) == fields_bytes(
            fields.take(i),
        ),
    decreases fields.len() - i,
{
    if i == fields.len() {
        assert(fields.take(i) =~= fields);
        assert(fields_bytes(fields).subrange(0, fields_bytes(fields).len() as int) =~= fields_bytes(
            fields,
        ));
    } else {
        lemma_fields_bytes_prefix(fields, i + 1);
        assert(fields.take(i + 1).drop_last() =~= fields.take(i));
        let a = fields_bytes(fields.take(i));
        let b = fields_bytes(fields.take(i + 1));
        let c = fields_bytes(fields);
        assert(b == a + field_bytes(fields[i]));
        assert(c.subrange(0, a.len() as int) =~= b.subrange(0, a.len() as int));
        assert(b.subrange(0, a.len() as int) =~= a);
    }
}

/// Reading back a header block rebuilt from its status line and fields
/// gives the header map it was rebuilt from (apart from the verbatim bytes
/// it keeps), whatever follows the block: the rebuilt block is lossless for
/// a clean status line and clean fields.
pub proof fn law_write_parse_roundtrip(m: HeaderMapModel, rest: Seq<u8>)
    requires
        m.status_line is Some,
        clean_status(m.status_line->0),
        clean_fields(m.fields),
    ensures
        parse_block_from(
            serialized(m) + rest,
            0,
            HeaderMapModel { status_line: None, fields: Seq::empty(), raw: None, ..m },
            true,
        ) == (HeaderMapModel { raw: None, ..m }, serialized(m).len() as int),
{
    let s = m.status_line->0;
    let w = serialized(m) + rest;
    let h0 = HeaderMapModel { status_line: None, fields: Seq::empty(), raw: None, ..m };
    let line = s + crlf();
    assert(status_bytes(m.status_line) == line);
    assert forall|j: int| 0 <= j < line.len() - 1 implies #[trigger] line[j] != 10u8 by {
        if j < s.len() {
            assert(line[j] == s[j]);
        }
    }
    assert(w.subrange(0, line.len() as int) =~= line);
    lemma_line_at(w, 0, line);
    assert(strip_eol(line) =~= s);
    lemma_trim_clean(s);
    lemma_sanitized_identity(s, true);
    let h1 = HeaderMapModel { status_line: Some(s), ..h0 };
    let base = line.len() as int;
    assert(w.subrange(base, base + fields_bytes(m.fields).len() + 2) =~= fields_bytes(m.fields) + crlf());
    assert(h1.fields =~= m.fields.take(0));
    assert(fields_bytes(m.fields.take(0)) =~= Seq::<u8>::empty());
    lemma_fields_parse(w, m.fields, base, h1, 0);
}

/// Reading back a written list of header lines (no status line expected) gives
/// the fields that were written.
pub proof fn law_write_parse_fields_roundtrip(m: HeaderMapModel, rest: Seq<u8>)
    requires
        clean_fields(m.fields),
    ensures
        parse_block_from(
            fields_bytes(m.fields) + crlf() + rest,
            0,
            HeaderMapModel { fields: Seq::empty(), raw: None, ..m },
            false,
        ) == (HeaderMapModel { raw: None, ..m }, fields_bytes(m.fields).len() as int + 2),
{
    let w = fields_bytes(m.fields) + crlf() + rest;
    let h0 = HeaderMapModel { fields: Seq::empty(), raw: None, ..m };
    assert(w.subrange(0, fields_bytes(m.fields).len() as int + 2) =~= fields_bytes(m.fields) + crlf());
    assert(h0.fields =~= m.fields.take(0));
    assert(fields_bytes(m.fields.take(0)) =~= Seq::<u8>::empty());
    lemma_fields_parse(w, m.fields, 0, h0, 0);
}

/// The status code of an HTTP status line is the number between its first
/// and second space, whatever the HTTP version: for any status line that
/// starts with `HTTP/` and has a space, whose code bytes (between the first
/// space and the next one, or the end) are ASCII, the code is those bytes
/// read as a decimal number up to 65535, and there is none if they are not
/// one.
pub proof fn law_status_code(m: HeaderMapModel, s: Seq<u8>)
    requires
        m.status_line == Some(s),
        s.len() >= 5,
        s.take(5) == encode_utf8("HTTP/"@),
        find_from(s, 32u8, 0) < s.len(),
        is_ascii_bytes(s.subrange(find_from(s, 32u8, 0) + 1, find_from(s, 32u8, find_from(s, 32u8, 0) + 1))),
    ensures
        status_code_of(m) == match parse_unsigned(
            s.subrange(find_from(s, 32u8, 0) + 1, find_from(s, 32u8, find_from(s, 32u8, 0) + 1)),
            65535,
        ) {
            Some(v) => Some(v as u16),
            None => None,
        },
{
    reveal_strlit("HTTP/");
    let c = "HTTP/"@;
    assert(vstd::utf8::is_ascii_chars(c));
    vstd::utf8::is_ascii_chars_encode_utf8(c);
    assert(encode_utf8(c) =~= seq![72u8, 84u8, 84u8, 80u8, 47u8]);
}

/// A status line without the `HTTP/` prefix, or without a space, has no
/// status code.
pub proof fn law_no_status_code(m: HeaderMapModel, s: Seq<u8>)
    requires
        m.status_line == Some(s),
        !(s.len() >= 5 && s.take(5) == encode_utf8("HTTP/"@)) || find_from(s, 32u8, 0) >= s.len(),
    ensures
        status_code_of(m) is None,
{
    reveal_strlit("HTTP/");
    let c = "HTTP/"@;
    assert(vstd::utf8::is_ascii_chars(c));
    vstd::utf8::is_ascii_chars_encode_utf8(c);
    assert(encode_utf8(c) =~= seq![72u8, 84u8, 84u8, 80u8, 47u8]);
}

} // verus!
