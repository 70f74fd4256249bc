//! Multimap of WARC or HTTP header fields, kept as raw bytes in source order.
use crate::bytes::{
    eq_ignore_ascii_case, eq_ignore_case, bytes_eq, find_byte_from, find_from, lemma_line_end_bounds, line_end_from,
    lower_seq, parse_decimal, parse_unsigned, starts_with, strip_eol, to_lower_vec, trim_ascii,
    trim_ascii_bounds, trim_ascii_vec,
};
use crate::codec::{
    is_ascii_bytes, latin1_decode, latin1_decoded, latin1_encode, latin1_encoded, utf8_lossy, utf8_lossy_decoded,
};
use vstd::prelude::*;
use vstd::utf8::{decode_utf8, encode_utf8, valid_utf8};

verus! {

/// Source encoding of a header block.
#[derive(Debug, Clone, Copy, PartialEq, Eq, Structural)]
pub enum HeaderEncoding {
    Unicode,
    Latin1,
}

impl Default for HeaderEncoding {
    fn default() -> (r: Self)
        ensures
            r == HeaderEncoding::Unicode,
    {
        HeaderEncoding::Unicode
    }
}

/// A header field as (key, value) bytes.
pub type Field = (Seq<u8>, Seq<u8>);

/// Abstract content of a [`HeaderMap`].
pub struct HeaderMapModel {
    pub encoding: HeaderEncoding,
    pub status_line: Option<Seq<u8>>,
    pub fields: Seq<Field>,
    /// The verbatim bytes the block was read from, until it is changed.
    pub raw: Option<Seq<u8>>,
}

/// Text of header bytes in the given source encoding.
pub open spec fn decoded(encoding: HeaderEncoding, bytes: Seq<u8>) -> Seq<char> {
    match encoding {
        HeaderEncoding::Unicode => utf8_lossy_decoded(bytes),
        HeaderEncoding::Latin1 => latin1_decoded(bytes),
    }
}

/// The text that header bytes decode to without any replacement or loss:
/// valid UTF-8 read as UTF-8, and ASCII read as its characters in
/// Windows-1252 (`None` for other bytes).
pub open spec fn plainly_decoded(encoding: HeaderEncoding, bytes: Seq<u8>) -> Option<Seq<char>> {
    match encoding {
        HeaderEncoding::Unicode => if valid_utf8(bytes) {
            Some(decode_utf8(bytes))
        } else {
            None
        },
        HeaderEncoding::Latin1 => if is_ascii_bytes(bytes) {
            Some(Seq::new(bytes.len(), |i: int| bytes[i] as char))
        } else {
            None
        },
    }
}

/// Header bytes of a text in the given source encoding.
pub open spec fn encoded(encoding: HeaderEncoding, text: Seq<char>) -> Seq<u8> {
    match encoding {
        HeaderEncoding::Unicode => encode_utf8(text),
        HeaderEncoding::Latin1 => latin1_encoded(text),
    }
}

/// The byte that replaces `b` when a header key (`is_key`) or value is sanitized.
pub open spec fn sanitized_byte(b: u8, is_key: bool) -> Seq<u8> {
    if b == 13u8 || b == 10u8 {
        seq![32u8]
    } else if b == 58u8 && is_key {
        Seq::empty()
    } else {
        seq![b]
    }
}

pub open spec fn sanitized_bytes(s: Seq<u8>, is_key: bool) -> Seq<u8>
    decreases s.len(),
{
    if s.len() == 0 {
        Seq::empty()
    } else {
        sanitized_bytes(s.drop_last(), is_key) + sanitized_byte(s.last(), is_key)
    }
}

/// A header key or value with leading and trailing white space trimmed, CR and
/// LF turned into spaces, and, for a key, `':'` removed.
pub open spec fn sanitize(value: Seq<u8>, is_key: bool) -> Seq<u8> {
    sanitized_bytes(trim_ascii(value), is_key)
}

/// Values of the fields whose key equals `key` ignoring ASCII case, in order.
pub open spec fn values_for(fields: Seq<Field>, key: Seq<u8>) -> Seq<Seq<u8>>
    decreases fields.len(),
{
    if fields.len() == 0 {
        Seq::empty()
    } else {
        let r = values_for(fields.drop_last(), key);
        if eq_ignore_case(fields.last().0, key) {
            r.push(fields.last().1)
        } else {
            r
        }
    }
}

/// First value for `key`, if any.
pub open spec fn first_value(fields: Seq<Field>, key: Seq<u8>) -> Option<Seq<u8>> {
    let vs = values_for(fields, key);
    if vs.len() > 0 {
        Some(vs[0])
    } else {
        None
    }
}

/// The fields whose key does not equal `key` ignoring ASCII case.
pub open spec fn without_key(fields: Seq<Field>, key: Seq<u8>) -> Seq<Field>
    decreases fields.len(),
{
    if fields.len() == 0 {
        Seq::empty()
    } else {
        let r = without_key(fields.drop_last(), key);
        if eq_ignore_case(fields.last().0, key) {
            r
        } else {
            r.push(fields.last())
        }
    }
}

/// One pass of `set_bytes`: keep fields whose lower-cased key differs from
/// `key_lower`, replace the first match by `new_field`, drop later matches.
pub open spec fn set_scan(fields: Seq<Field>, key_lower: Seq<u8>, new_field: Field) -> (Seq<Field>, bool)
    decreases fields.len(),
{
    if fields.len() == 0 {
        (Seq::empty(), false)
    } else {
        let (r, found) = set_scan(fields.drop_last(), key_lower, new_field);
        if lower_seq(fields.last().0) != key_lower {
            (r.push(fields.last()), found)
        } else if !found {
            (r.push(new_field), true)
        } else {
            (r, true)
        }
    }
}

/// Fields after `set_bytes(key, value)`.
pub open spec fn set_fields(fields: Seq<Field>, key: Seq<u8>, value: Seq<u8>) -> Seq<Field> {
    let new_field = (sanitize(key, true), sanitize(value, false));
    let (r, found) = set_scan(fields, sanitize(lower_seq(key), true), new_field);
    if found {
        r
    } else {
        r.push(new_field)
    }
}

/// Fields after a continuation line `value` is added.
pub open spec fn continued(fields: Seq<Field>, value: Seq<u8>) -> Seq<Field> {
    let t = trim_ascii(value);
    if fields.len() > 0 {
        fields.update(fields.len() - 1, (fields.last().0, fields.last().1 + seq![32u8] + t))
    } else {
        fields.push((Seq::empty(), t))
    }
}

pub open spec fn crlf() -> Seq<u8> {
    seq![13u8, 10u8]
}

/// Serialized status line (nothing if absent or empty).
pub open spec fn status_bytes(status_line: Option<Seq<u8>>) -> Seq<u8> {
    match status_line {
        Some(s) => if s.len() > 0 {
            s + crlf()
        } else {
            Seq::empty()
        },
        None => Seq::empty(),
    }
}

/// Serialized header line (a field without key is written as its value only).
pub open spec fn field_bytes(f: Field) -> Seq<u8> {
    if f.0.len() > 0 {
        f.0 + seq![58u8, 32u8] + f.1 + crlf()
    } else {
        f.1 + crlf()
    }
}

pub open spec fn fields_bytes(fields: Seq<Field>) -> Seq<u8>
    decreases fields.len(),
{
    if fields.len() == 0 {
        Seq::empty()
    } else {
        fields_bytes(fields.drop_last()) + field_bytes(fields.last())
    }
}

/// The header block as [`HeaderMap::write`] writes it: the verbatim bytes
/// it was read from while it is unchanged, else [`serialized`].
pub open spec fn written(m: HeaderMapModel) -> Seq<u8> {
    match m.raw {
        Some(r) => r,
        None => serialized(m),
    }
}

/// The header block rebuilt from its status line and fields.
pub open spec fn serialized(m: HeaderMapModel) -> Seq<u8> {
    status_bytes(m.status_line) + fields_bytes(m.fields) + crlf()
}

/// Status code of an HTTP status line (`"HTTP/..." SP code ...`): the code
/// bytes read as a decimal number, ASCII bytes as they stand and other bytes
/// as the header encoding decodes them.
pub open spec fn status_code_of(m: HeaderMapModel) -> Option<u16> {
    match m.status_line {
        None => None,
        Some(s) => {
            let http = seq![72u8, 84u8, 84u8, 80u8, 47u8];
            let p1 = find_from(s, 32u8, 0);
            if !(s.len() >= 5 && s.take(5) == http) || p1 >= s.len() {
                None
            } else {
                let p2 = find_from(s, 32u8, p1 + 1);
                let code = s.subrange(p1 + 1, p2);
                let digits = if is_ascii_bytes(code) {
                    code
                } else {
                    encode_utf8(decoded(m.encoding, code))
                };
                match parse_unsigned(digits, 65535) {
                    Some(v) => Some(v as u16),
                    None => None,
                }
            }
        },
    }
}

/// The bytes of the status code in an HTTP status line (between its first
/// and second space), if the line is one.
pub open spec fn status_code_bytes(m: HeaderMapModel) -> Option<Seq<u8>> {
    match m.status_line {
        None => None,
        Some(s) => {
            let p1 = find_from(s, 32u8, 0);
            if !(s.len() >= 5 && s.take(5) == seq![72u8, 84u8, 84u8, 80u8, 47u8]) || p1 >= s.len() {
                None
            } else {
                Some(s.subrange(p1 + 1, find_from(s, 32u8, p1 + 1)))
            }
        },
    }
}

/// The bytes of the reason phrase in an HTTP status line (all after its
/// second space), if it has one.
pub open spec fn reason_phrase_bytes(m: HeaderMapModel) -> Option<Seq<u8>> {
    match m.status_line {
        None => None,
        Some(s) => {
            let p1 = find_from(s, 32u8, 0);
            let p2 = find_from(s, 32u8, p1 + 1);
            if !(s.len() >= 5 && s.take(5) == seq![72u8, 84u8, 84u8, 80u8, 47u8]) || p1 >= s.len() || p2
                >= s.len() {
                None
            } else {
                Some(s.subrange(p2 + 1, s.len() as int))
            }
        },
    }
}

/// ASCII bytes decode plainly in either encoding, to text that encodes back
/// to them.
pub proof fn lemma_ascii_plain(encoding: HeaderEncoding, b: Seq<u8>)
    requires
        is_ascii_bytes(b),
    ensures
        plainly_decoded(encoding, b) == Some(Seq::new(b.len(), |i: int| b[i] as char)),
        encode_utf8(Seq::new(b.len(), |i: int| b[i] as char)) == b,
{
    let c = Seq::new(b.len(), |i: int| b[i] as char);
    assert(vstd::utf8::is_ascii_chars(c)) by {
        assert forall|i: int| 0 <= i < c.len() implies '\0' <= #[trigger] c[i] <= '\u{7f}' by {
            assert(b[i] < 128u8);
        }
    }
    vstd::utf8::is_ascii_chars_encode_utf8(c);
    assert forall|i: int| 0 <= i < b.len() implies #[trigger] encode_utf8(c)[i] == b[i] by {
        assert(c[i] as u8 == b[i]);
    }
    assert(encode_utf8(c) =~= b);
    vstd::utf8::encode_utf8_valid_utf8(c);
    vstd::utf8::encode_utf8_decode_utf8(c);
}

/// Reason phrase of an HTTP status line (all after the second space).
pub open spec fn reason_phrase_of(m: HeaderMapModel) -> Option<Seq<char>> {
    match m.status_line {
        None => None,
        Some(s) => {
            let http = seq![72u8, 84u8, 84u8, 80u8, 47u8];
            let p1 = find_from(s, 32u8, 0);
            if !(s.len() >= 5 && s.take(5) == http) || p1 >= s.len() {
                None
            } else {
                let p2 = find_from(s, 32u8, p1 + 1);
                if p2 >= s.len() {
                    None
                } else {
                    Some(decoded(m.encoding, s.subrange(p2 + 1, s.len() as int)))
                }
            }
        },
    }
}

/// Model of the header block in `s` from `pos` on, read line by line into `h`
/// (`expect_first`: the next non-empty line is the status line), and the
/// position after the block's terminating empty line (or the end of `s`).
pub open spec fn parse_block_from(s: Seq<u8>, pos: int, h: HeaderMapModel, expect_first: bool) -> (
    HeaderMapModel,
    int,
)
    decreases s.len() - pos,
{
    if pos < 0 || pos >= s.len() {
        (h, pos)
    } else {
        let e = line_end_from(s, pos);
        if e <= pos {
            (h, pos)
        } else {
            let t = strip_eol(s.subrange(pos, e));
            if t.len() == 0 {
                (h, e)
            } else if expect_first {
                parse_block_from(
                    s,
                    e,
                    HeaderMapModel { status_line: Some(sanitize(t, true)), raw: None, ..h },
                    false,
                )
            } else if t[0] == 32u8 || t[0] == 9u8 {
                parse_block_from(s, e, HeaderMapModel { fields: continued(h.fields, t), raw: None, ..h }, false)
            } else {
                let c = find_from(t, 58u8, 0);
                if c < t.len() {
                    let f = (trim_ascii(t.subrange(0, c)), trim_ascii(t.subrange(c + 1, t.len() as int)));
                    parse_block_from(s, e, HeaderMapModel { fields: h.fields.push(f), raw: None, ..h }, false)
                } else {
                    parse_block_from(s, e, HeaderMapModel { fields: continued(h.fields, t), raw: None, ..h }, false)
                }
            }
        }
    }
}

pub open spec fn pair_view(p: (Vec<u8>, Vec<u8>)) -> Field {
    (p.0@, p.1@)
}

pub open spec fn fields_of(v: Seq<(Vec<u8>, Vec<u8>)>) -> Seq<Field> {
    v.map_values(|p: (Vec<u8>, Vec<u8>)| pair_view(p))
}

pub open spec fn opt_bytes(o: Option<Vec<u8>>) -> Option<Seq<u8>> {
    match o {
        Some(v) => Some(v@),
        None => None,
    }
}

/// Multimap structure representing a WARC or HTTP header block.
///
/// WARC headers should be created with [`HeaderEncoding::Unicode`].
/// HTTP headers should use [`HeaderEncoding::Latin1`]. However, in either case,
/// you should still avoid non-ASCII characters).
#[derive(Debug, Clone)]
pub struct HeaderMap {
    encoding: HeaderEncoding,
    status_line: Option<Vec<u8>>,
    headers: Vec<(Vec<u8>, Vec<u8>)>,
    raw: Option<Vec<u8>>,
}

impl View for HeaderMap {
    type V = HeaderMapModel;

    closed spec fn view(&self) -> HeaderMapModel {
        HeaderMapModel {
            encoding: self.encoding,
            status_line: opt_bytes(self.status_line),
            fields: fields_of(self.headers@),
            raw: opt_bytes(self.raw),
        }
    }
}

proof fn lemma_values_for_step(fields: Seq<Field>, key: Seq<u8>, i: int)
    requires
        0 <= i < fields.len(),
    ensures
        values_for(fields.take(i + 1), key) == if eq_ignore_case(fields[i].0, key) {
            values_for(fields.take(i), key).push(fields[i].1)
        } else {
            values_for(fields.take(i), key)
        },
{
    assert(fields.take(i + 1).drop_last() =~= fields.take(i));
}

/// Values for a key in a prefix of the fields start the values in all fields.
pub proof fn lemma_values_for_prefix(fields: Seq<Field>, key: Seq<u8>, i: int)
    requires
        0 <= i <= fields.len(),
    ensures
        values_for(fields.take(i), key).len() <= values_for(fields, key).len(),
        values_for(fields.take(i), key) == values_for(fields, key).take(
            values_for(fields.take(i), key).len() as int,
        ),
    decreases fields.len() - i,
{
    if i == fields.len() {
        assert(fields.take(i) =~= fields);
        assert(values_for(fields, key).take(values_for(fields, key).len() as int) =~= values_for(
            fields,
            key,
        ));
    } else {
        lemma_values_for_prefix(fields, key, i + 1);
        lemma_values_for_step(fields, key, i);
        let a = values_for(fields.take(i), key);
        let b = values_for(fields.take(i + 1), key);
        let c = values_for(fields, key);
        assert(a =~= c.take(a.len() as int));
    }
}

proof fn lemma_without_key_step(fields: Seq<Field>, key: Seq<u8>, i: int)
    requires
        0 <= i < fields.len(),
    ensures
        without_key(fields.take(i + 1), key) == if eq_ignore_case(fields[i].0, key) {
            without_key(fields.take(i), key)
        } else {
            without_key(fields.take(i), key).push(fields[i])
        },
{
    assert(fields.take(i + 1).drop_last() =~= fields.take(i));
}

proof fn lemma_set_scan_step(fields: Seq<Field>, kl: Seq<u8>, nf: Field, i: int)
    requires
        0 <= i < fields.len(),
    ensures
        set_scan(fields.take(i + 1), kl, nf) == ({
            let (r, found) = set_scan(fields.take(i), kl, nf);
            if lower_seq(fields[i].0) != kl {
                (r.push(fields[i]), found)
            } else if !found {
                (r.push(nf), true)
            } else {
                (r, true)
            }
        }),
{
    assert(fields.take(i + 1).drop_last() =~= fields.take(i));
}

proof fn lemma_fields_bytes_step(fields: Seq<Field>, i: int)
    requires
        0 <= i < fields.len(),
    ensures
        fields_bytes(fields.take(i + 1)) == fields_bytes(fields.take(i)) + field_bytes(fields[i]),
{
    assert(fields.take(i + 1).drop_last() =~= fields.take(i));
}

proof fn lemma_sanitized_step(s: Seq<u8>, is_key: bool, i: int)
    requires
        0 <= i < s.len(),
    ensures
        sanitized_bytes(s.take(i + 1), is_key) == sanitized_bytes(s.take(i), is_key) + sanitized_byte(
            s[i],
            is_key,
        ),
{
    assert(s.take(i + 1).drop_last() =~= s.take(i));
}

/// Copy of a byte vector.
pub(crate) fn copy_bytes(v: &[u8]) -> (r: Vec<u8>)
    ensures
        r@ == v@,
{
    vstd::slice::slice_to_vec(v)
}

/// Append all of `s` to `out`.
pub(crate) fn push_all(out: &mut Vec<u8>, s: &[u8])
    ensures
        final(out)@ == old(out)@ + s@,
{
    let mut i: usize = 0;
    while i < s.len()
        invariant
            i <= s@.len(),
            out@ == old(out)@ + s@.take(i as int),
        decreases s@.len() - i,
    {
        out.push(s[i]);
        i = i + 1;
        assert(out@ =~= old(out)@ + s@.take(i as int));
    }
    assert(s@.take(s@.len() as int) =~= s@);
}

/// Internal helper for trimming leading and trailing white space and
/// removing internal CR and LF characters. Also strips `':'` if `is_key == true`.
pub(crate) fn _sanitize_header_value(value: &[u8], is_key: bool) -> (r: Vec<u8>)
    ensures
        r@ == sanitize(value@, is_key),
{
    let (a, b) = trim_ascii_bounds(value);
    let t = vstd::slice::slice_subrange(value, a, b);
    let mut out: Vec<u8> = Vec::with_capacity(t.len());
    let mut i: usize = 0;
    while i < t.len()
        invariant
            i <= t@.len(),
            out@ == sanitized_bytes(t@.take(i as int), is_key),
        decreases t@.len() - i,
    {
        let c = t[i];
        proof {
            lemma_sanitized_step(t@, is_key, i as int);
        }
        if c == 13 || c == 10 {
            out.push(32);
        } else if c == 58 && is_key {
        } else {
            out.push(c);
        }
        i = i + 1;
        assert(out@ =~= sanitized_bytes(t@.take(i as int), is_key));
    }
    assert(t@.take(t@.len() as int) =~= t@);
    out
}

impl HeaderMap {
    /// Create a new header map with the specified encoding.
    pub fn new(encoding: HeaderEncoding) -> (r: Self)
        ensures
            r@ == (HeaderMapModel { encoding, status_line: None, fields: Seq::empty(), raw: None }),
    {
        let r = HeaderMap { encoding, status_line: None, headers: Vec::new(), raw: None };
        assert(fields_of(r.headers@) =~= Seq::<Field>::empty());
        r
    }

    /// Get the header encoding.
    pub fn encoding(&self) -> (r: HeaderEncoding)
        ensures
            r == self@.encoding,
    {
        self.encoding
    }

    /// Encode a header value as either UTF-8 or Latin1.
    fn _encode(&self, s: &str) -> (r: Vec<u8>)
        ensures
            r@ == encoded(self@.encoding, s@),
    {
        match self.encoding {
            HeaderEncoding::Unicode => copy_bytes(s.as_bytes()),
            HeaderEncoding::Latin1 => latin1_encode(s),
        }
    }

    /// Decode a header value as either Unicode or Latin1.
    /// Decoding is lossy. Invalid characters are replaced.
    fn _decode(&self, b: &[u8]) -> (r: String)
        ensures
            r@ == decoded(self@.encoding, b@),
            plainly_decoded(self@.encoding, b@) matches Some(t) ==> r@ == t,
    {
        match self.encoding {
            HeaderEncoding::Unicode => utf8_lossy(b),
            HeaderEncoding::Latin1 => latin1_decode(b),
        }
    }

    /// Get the header status line.
    pub fn status_line(&self) -> (r: Option<String>)
        ensures
            match self@.status_line {
                Some(s) => r is Some && r->0@ == decoded(self@.encoding, s) && (plainly_decoded(
                    self@.encoding,
                    s,
                ) matches Some(t) ==> r->0@ == t),
                None => r is None,
            },
    {
        match &self.status_line {
            Some(s) => Some(self._decode(s.as_slice())),
            None => None,
        }
    }

    /// Get the raw status line as bytes.
    pub fn status_line_bytes(&self) -> (r: Option<&[u8]>)
        ensures
            match self@.status_line {
                Some(s) => r is Some && r->0@ == s,
                None => r is None,
            },
    {
        match &self.status_line {
            Some(s) => Some(s.as_slice()),
            None => None,
        }
    }

    /// Set status line contents (sanitized like a header key).
    pub fn set_status_line(&mut self, status_line: &[u8])
        ensures
            final(self)@ == (HeaderMapModel {
                status_line: Some(sanitize(status_line@, true)),
                raw: None,
                ..old(self)@
            }),
    {
        self.status_line = Some(_sanitize_header_value(status_line, true));
        self.raw = None;
    }

    /// Set the status line verbatim.
    pub(crate) fn set_status_line_raw(&mut self, status_line: Vec<u8>)
        ensures
            final(self)@ == (HeaderMapModel { status_line: Some(status_line@), raw: None, ..old(self)@ }),
    {
        self.status_line = Some(status_line);
        self.raw = None;
    }

    /// Length of the verbatim block the map was read from, if it is kept.
    pub fn raw_len(&self) -> (r: Option<usize>)
        ensures
            match self@.raw {
                Some(b) => r == Some(b.len() as usize) && b.len() <= usize::MAX,
                None => r is None,
            },
    {
        match &self.raw {
            Some(b) => Some(b.len()),
            None => None,
        }
    }

    /// Keep `raw` as the verbatim bytes the block was read from.
    pub(crate) fn set_raw_block(&mut self, raw: Vec<u8>)
        ensures
            final(self)@ == (HeaderMapModel { raw: Some(raw@), ..old(self)@ }),
    {
        self.raw = Some(raw);
    }

    /// HTTP status code (unset if header block is not an HTTP header block).
    pub fn status_code(&self) -> (r: Option<u16>)
        ensures
            r == status_code_of(self@),
            match status_code_bytes(self@) {
                Some(b) => is_ascii_bytes(b) ==> r == match parse_unsigned(b, 65535) {
                    Some(v) => Some(v as u16),
                    None => None,
                },
                None => true,
            },
    {
        let s = match &self.status_line {
            Some(s) => s.as_slice(),
            None => {
                return None;
            },
        };
        let http: [u8; 5] = [72, 84, 84, 80, 47];
        if !starts_with(s, http.as_slice()) {
            assert(http@ =~= seq![72u8, 84u8, 84u8, 80u8, 47u8]);
            return None;
        }
        assert(http@ =~= seq![72u8, 84u8, 84u8, 80u8, 47u8]);
        let p1 = find_byte_from(s, 32, 0);
        if p1 >= s.len() {
            return None;
        }
        let p2 = find_byte_from(s, 32, p1 + 1);
        let code = vstd::slice::slice_subrange(s, p1 + 1, p2);
        let text = self._decode(code);
        proof {
            if is_ascii_bytes(code@) {
                lemma_ascii_plain(self@.encoding, code@);
            }
        }
        match parse_decimal(text.as_str().as_bytes(), 65535) {
            Some(v) => Some(v as u16),
            None => None,
        }
    }

    /// HTTP reason phrase.
    /// Returns None if the header block is not an HTTP header block or no reason phrase was given.
    pub fn reason_phrase(&self) -> (r: Option<String>)
        ensures
            match reason_phrase_of(self@) {
                Some(t) => r is Some && r->0@ == t,
                None => r is None,
            },
            match reason_phrase_bytes(self@) {
                Some(b) => is_ascii_bytes(b) ==> r is Some && r->0@ == Seq::new(b.len(), |i: int| b[i] as char),
                None => true,
            },
    {
        let s = match &self.status_line {
            Some(s) => s.as_slice(),
            None => {
                return None;
            },
        };
        let http: [u8; 5] = [72, 84, 84, 80, 47];
        assert(http@ =~= seq![72u8, 84u8, 84u8, 80u8, 47u8]);
        if !starts_with(s, http.as_slice()) {
            return None;
        }
        let p1 = find_byte_from(s, 32, 0);
        if p1 >= s.len() {
            return None;
        }
        let p2 = find_byte_from(s, 32, p1 + 1);
        if p2 >= s.len() {
            return None;
        }
        let phrase = vstd::slice::slice_subrange(s, p2 + 1, s.len());
        proof {
            if is_ascii_bytes(phrase@) {
                lemma_ascii_plain(self@.encoding, phrase@);
            }
        }
        Some(self._decode(phrase))
    }

    /// Position of the first field whose key equals `key` ignoring ASCII case.
    fn find_key(&self, key: &[u8]) -> (r: Option<usize>)
        ensures
            match r {
                Some(i) => {
                    &&& i < self@.fields.len()
                    &&& first_value(self@.fields, key@) == Some(self@.fields[i as int].1)
                },
                None => first_value(self@.fields, key@) is None,
            },
    {
        let ghost f = self@.fields;
        let n = self.headers.len();
        let mut i: usize = 0;
        while i < n
            invariant
                n == self.headers@.len(),
                f == fields_of(self.headers@),
                i <= n,
                values_for(f.take(i as int), key@).len() == 0,
            decreases n - i,
        {
            proof {
                lemma_values_for_step(f, key@, i as int);
            }
            assert(f[i as int] == pair_view(self.headers@[i as int]));
            if eq_ignore_ascii_case(self.headers[i].0.as_slice(), key) {
                proof {
                    lemma_values_for_prefix(f, key@, i + 1);
                    assert(values_for(f.take(i + 1), key@) =~= seq![f[i as int].1]);
                    assert(values_for(f, key@).take(1)[0] == values_for(f, key@)[0]);
                }
                return Some(i);
            }
            i = i + 1;
        }
        assert(f.take(n as int) =~= f);
        None
    }

    /// Get value for a (case-insensitive) header key.
    /// If the header is present multiple times, only the first occurrence is returned.
    pub fn get(&self, key: &str) -> (r: Option<String>)
        ensures
            match first_value(self@.fields, encode_utf8(key@)) {
                Some(v) => r is Some && r->0@ == decoded(self@.encoding, v) && (plainly_decoded(
                    self@.encoding,
                    v,
                ) matches Some(t) ==> r->0@ == t),
                None => r is None,
            },
    {
        match self.find_key(key.as_bytes()) {
            Some(i) => Some(self._decode(self.headers[i].1.as_slice())),
            None => None,
        }
    }

    /// Get all values for a (case-insensitive) header key.
    pub fn get_multiple(&self, key: &str) -> (r: Vec<String>)
        ensures
            r@.len() == values_for(self@.fields, encode_utf8(key@)).len(),
            forall|j: int|
                0 <= j < r@.len() ==> #[trigger] r@[j]@ == decoded(
                    self@.encoding,
                    values_for(self@.fields, encode_utf8(key@))[j],
                ),
    {
        let k = key.as_bytes();
        let ghost f = self@.fields;
        let mut out: Vec<String> = Vec::new();
        let n = self.headers.len();
        let mut i: usize = 0;
        while i < n
            invariant
                n == self.headers@.len(),
                f == fields_of(self.headers@),
                i <= n,
                out@.len() == values_for(f.take(i as int), k@).len(),
                forall|j: int|
                    0 <= j < out@.len() ==> #[trigger] out@[j]@ == decoded(
                        self@.encoding,
                        values_for(f.take(i as int), k@)[j],
                    ),
            decreases n - i,
        {
            proof {
                lemma_values_for_step(f, k@, i as int);
            }
            if eq_ignore_ascii_case(self.headers[i].0.as_slice(), k) {
                out.push(self._decode(self.headers[i].1.as_slice()));
            }
            i = i + 1;
        }
        assert(f.take(n as int) =~= f);
        out
    }

    /// Get byte value for a (case-insensitive) header key.
    /// If the header is present multiple times, only the first occurrence is returned.
    pub fn get_bytes(&self, key: &[u8]) -> (r: Option<&[u8]>)
        ensures
            match first_value(self@.fields, key@) {
                Some(v) => r is Some && r->0@ == v,
                None => r is None,
            },
    {
        match self.find_key(key) {
            Some(i) => Some(self.headers[i].1.as_slice()),
            None => None,
        }
    }

    /// Get all byte values for a (case-insensitive) header key.
    pub fn get_bytes_multiple(&self, key: &[u8]) -> (r: Vec<&[u8]>)
        ensures
            r@.len() == values_for(self@.fields, key@).len(),
            forall|j: int| 0 <= j < r@.len() ==> #[trigger] r@[j]@ == values_for(self@.fields, key@)[j],
    {
        let ghost f = self@.fields;
        let mut out: Vec<&[u8]> = Vec::new();
        let n = self.headers.len();
        let mut i: usize = 0;
        while i < n
            invariant
                n == self.headers@.len(),
                f == fields_of(self.headers@),
                i <= n,
                out@.len() == values_for(f.take(i as int), key@).len(),
                forall|j: int|
                    0 <= j < out@.len() ==> #[trigger] out@[j]@ == values_for(f.take(i as int), key@)[j],
            decreases n - i,
        {
            proof {
                lemma_values_for_step(f, key@, i as int);
            }
            if eq_ignore_ascii_case(self.headers[i].0.as_slice(), key) {
                out.push(self.headers[i].1.as_slice());
            }
            i = i + 1;
        }
        assert(f.take(n as int) =~= f);
        out
    }

    /// Check if a (case-insensitive) header key exists.
    pub fn contains_key(&self, key: &str) -> (r: bool)
        ensures
            r == (values_for(self@.fields, encode_utf8(key@)).len() > 0),
    {
        match self.find_key(key.as_bytes()) {
            Some(_) => true,
            None => false,
        }
    }

    /// Insert a new header and overwrite any existing header(s) if the key already exists.
    pub fn set(&mut self, key: &str, value: &str)
        ensures
            final(self)@ == (HeaderMapModel {
                fields: set_fields(
                    old(self)@.fields,
                    encoded(old(self)@.encoding, key@),
                    encoded(old(self)@.encoding, value@),
                ),
                raw: None,
                ..old(self)@
            }),
    {
        let k = self._encode(key);
        let v = self._encode(value);
        self.set_bytes(k.as_slice(), v.as_slice());
    }

    /// Insert a new header and overwrite any existing header(s) if the key already exists.
    ///
    /// If a header already exists, its first occurrence will be updated and
    /// all following occurrences will be dropped.
    pub fn set_bytes(&mut self, key: &[u8], value: &[u8])
        ensures
            final(self)@ == (HeaderMapModel {
                fields: set_fields(old(self)@.fields, key@, value@),
                raw: None,
                ..old(self)@
            }),
    {
        let lowered = to_lower_vec(key);
        let key_lower = _sanitize_header_value(lowered.as_slice(), true);
        let new_key = _sanitize_header_value(key, true);
        let new_value = _sanitize_header_value(value, false);
        let ghost nf: Field = (new_key@, new_value@);
        let ghost f = self@.fields;
        let mut out: Vec<(Vec<u8>, Vec<u8>)> = Vec::new();
        let mut found = false;
        let n = self.headers.len();
        let mut i: usize = 0;
        while i < n
            invariant
                n == self.headers@.len(),
                f == fields_of(self.headers@),
                i <= n,
                (fields_of(out@), found) == set_scan(f.take(i as int), key_lower@, nf),
                nf == (new_key@, new_value@),
            decreases n - i,
        {
            proof {
                lemma_set_scan_step(f, key_lower@, nf, i as int);
            }
            let lk = to_lower_vec(self.headers[i].0.as_slice());
            if !bytes_eq(lk.as_slice(), key_lower.as_slice()) {
                let pair = (copy_bytes(self.headers[i].0.as_slice()), copy_bytes(self.headers[i].1.as_slice()));
                out.push(pair);
                assert(fields_of(out@) =~= set_scan(f.take(i as int), key_lower@, nf).0.push(f[i as int]));
            } else if !found {
                out.push((copy_bytes(new_key.as_slice()), copy_bytes(new_value.as_slice())));
                found = true;
                assert(fields_of(out@) =~= set_scan(f.take(i as int), key_lower@, nf).0.push(nf));
            }
            i = i + 1;
        }
        assert(f.take(n as int) =~= f);
        if !found {
            out.push((new_key, new_value));
            assert(fields_of(out@) =~= set_scan(f, key_lower@, nf).0.push(nf));
        }
        self.headers = out;
        self.raw = None;
    }

    /// Append a header without checking for existing headers with the same name.
    pub fn append(&mut self, key: &str, value: &str)
        ensures
            final(self)@ == (HeaderMapModel {
                fields: old(self)@.fields.push(
                    (
                        sanitize(encoded(old(self)@.encoding, key@), true),
                        sanitize(encoded(old(self)@.encoding, value@), false),
                    ),
                ),
                raw: None,
                ..old(self)@
            }),
    {
        let k = self._encode(key);
        let v = self._encode(value);
        self.append_bytes(k.as_slice(), v.as_slice());
    }

    /// Append a header without checking for existing headers with the same name.
    pub fn append_bytes(&mut self, key: &[u8], value: &[u8])
        ensures
            final(self)@ == (HeaderMapModel {
                fields: old(self)@.fields.push((sanitize(key@, true), sanitize(value@, false))),
                raw: None,
                ..old(self)@
            }),
    {
        let k = _sanitize_header_value(key, true);
        let v = _sanitize_header_value(value, false);
        self.headers.push((k, v));
        self.raw = None;
        assert(fields_of(self.headers@) =~= fields_of(old(self).headers@).push(
            (sanitize(key@, true), sanitize(value@, false)),
        ));
    }

    /// Append a header without sanitization (assumes data is already sanitized).
    /// Still trims leading and trailing white space.
    pub(crate) fn _append_bytes_no_sanitize(&mut self, key: &[u8], value: &[u8])
        ensures
            final(self)@ == (HeaderMapModel {
                fields: old(self)@.fields.push((trim_ascii(key@), trim_ascii(value@))),
                raw: None,
                ..old(self)@
            }),
    {
        let k = trim_ascii_vec(key);
        let v = trim_ascii_vec(value);
        self.headers.push((k, v));
        self.raw = None;
        assert(fields_of(self.headers@) =~= fields_of(old(self).headers@).push(
            (trim_ascii(key@), trim_ascii(value@)),
        ));
    }

    /// Add a continuation line to the last-appended header.
    /// No value sanitization is performed, but white space is trimmed.
    pub(crate) fn _add_continuation_bytes(&mut self, value: &[u8])
        ensures
            final(self)@ == (HeaderMapModel { fields: continued(old(self)@.fields, value@), raw: None, ..old(self)@ }),
    {
        let t = trim_ascii_vec(value);
        self.raw = None;
        let n = self.headers.len();
        if n > 0 {
            let mut last = self.headers.pop().unwrap();
            let ghost old_last = last;
            assert(old_last == old(self).headers@[n - 1]);
            last.1.push(32);
            push_all(&mut last.1, t.as_slice());
            assert(last.1@ =~= old_last.1@ + seq![32u8] + t@);
            self.headers.push(last);
            assert(self.headers@ =~= old(self).headers@.update(n - 1, last));
            assert(fields_of(self.headers@) =~= continued(old(self)@.fields, value@));
        } else {
            self.headers.push((Vec::new(), t));
            assert(fields_of(self.headers@) =~= continued(old(self)@.fields, value@));
        }
    }

    /// Remove a header if it exists.
    pub fn remove(&mut self, key: &str)
        ensures
            final(self)@ == (HeaderMapModel {
                fields: without_key(old(self)@.fields, sanitize(encoded(old(self)@.encoding, key@), true)),
                raw: None,
                ..old(self)@
            }),
    {
        let k = self._encode(key);
        self.remove_bytes(k.as_slice());
    }

    /// Remove all headers with the (case-insensitive, sanitized) key.
    pub fn remove_bytes(&mut self, key: &[u8])
        ensures
            final(self)@ == (HeaderMapModel {
                fields: without_key(old(self)@.fields, sanitize(key@, true)),
                raw: None,
                ..old(self)@
            }),
    {
        let k = _sanitize_header_value(key, true);
        let ghost f = self@.fields;
        let mut out: Vec<(Vec<u8>, Vec<u8>)> = Vec::new();
        let n = self.headers.len();
        let mut i: usize = 0;
        while i < n
            invariant
                n == self.headers@.len(),
                f == fields_of(self.headers@),
                i <= n,
                fields_of(out@) == without_key(f.take(i as int), k@),
            decreases n - i,
        {
            proof {
                lemma_without_key_step(f, k@, i as int);
            }
            if !eq_ignore_ascii_case(self.headers[i].0.as_slice(), k.as_slice()) {
                let pair = (copy_bytes(self.headers[i].0.as_slice()), copy_bytes(self.headers[i].1.as_slice()));
                out.push(pair);
                assert(fields_of(out@) =~= without_key(f.take(i as int), k@).push(f[i as int]));
            }
            i = i + 1;
        }
        assert(f.take(n as int) =~= f);
        self.headers = out;
        self.raw = None;
    }

    /// Keys and values, decoded.
    pub fn items(&self) -> (r: Vec<(String, String)>)
        ensures
            r@.len() == self@.fields.len(),
            forall|j: int|
                0 <= j < r@.len() ==> (#[trigger] r@[j]).0@ == decoded(self@.encoding, self@.fields[j].0)
                    && r@[j].1@ == decoded(self@.encoding, self@.fields[j].1),
    {
        let mut out: Vec<(String, String)> = Vec::new();
        let n = self.headers.len();
        let mut i: usize = 0;
        while i < n
            invariant
                n == self.headers@.len(),
                i <= n,
                out@.len() == i,
                forall|j: int|
                    0 <= j < i ==> (#[trigger] out@[j]).0@ == decoded(self@.encoding, self@.fields[j].0)
                        && out@[j].1@ == decoded(self@.encoding, self@.fields[j].1),
            decreases n - i,
        {
            let k = self._decode(self.headers[i].0.as_slice());
            let v = self._decode(self.headers[i].1.as_slice());
            out.push((k, v));
            i = i + 1;
        }
        out
    }

    /// Zero-copy view of keys and values as bytes.
    pub fn items_bytes(&self) -> (r: &[(Vec<u8>, Vec<u8>)])
        ensures
            fields_of(r@) == self@.fields,
    {
        self.headers.as_slice()
    }

    /// Header keys, decoded.
    pub fn keys(&self) -> (r: Vec<String>)
        ensures
            r@.len() == self@.fields.len(),
            forall|j: int| 0 <= j < r@.len() ==> (#[trigger] r@[j])@ == decoded(self@.encoding, self@.fields[j].0),
    {
        let mut out: Vec<String> = Vec::new();
        let n = self.headers.len();
        let mut i: usize = 0;
        while i < n
            invariant
                n == self.headers@.len(),
                i <= n,
                out@.len() == i,
                forall|j: int| 0 <= j < i ==> (#[trigger] out@[j])@ == decoded(self@.encoding, self@.fields[j].0),
            decreases n - i,
        {
            out.push(self._decode(self.headers[i].0.as_slice()));
            i = i + 1;
        }
        out
    }

    /// Header keys as bytes.
    pub fn keys_bytes(&self) -> (r: Vec<&[u8]>)
        ensures
            r@.len() == self@.fields.len(),
            forall|j: int| 0 <= j < r@.len() ==> (#[trigger] r@[j])@ == self@.fields[j].0,
    {
        let mut out: Vec<&[u8]> = Vec::new();
        let n = self.headers.len();
        let mut i: usize = 0;
        while i < n
            invariant
                n == self.headers@.len(),
                i <= n,
                out@.len() == i,
                forall|j: int| 0 <= j < i ==> (#[trigger] out@[j])@ == self@.fields[j].0,
            decreases n - i,
        {
            out.push(self.headers[i].0.as_slice());
            i = i + 1;
        }
        out
    }

    /// Header values, decoded.
    pub fn values(&self) -> (r: Vec<String>)
        ensures
            r@.len() == self@.fields.len(),
            forall|j: int| 0 <= j < r@.len() ==> (#[trigger] r@[j])@ == decoded(self@.encoding, self@.fields[j].1),
    {
        let mut out: Vec<String> = Vec::new();
        let n = self.headers.len();
        let mut i: usize = 0;
        while i < n
            invariant
                n == self.headers@.len(),
                i <= n,
                out@.len() == i,
                forall|j: int| 0 <= j < i ==> (#[trigger] out@[j])@ == decoded(self@.encoding, self@.fields[j].1),
            decreases n - i,
        {
            out.push(self._decode(self.headers[i].1.as_slice()));
            i = i + 1;
        }
        out
    }

    /// Header values as bytes.
    pub fn values_bytes(&self) -> (r: Vec<&[u8]>)
        ensures
            r@.len() == self@.fields.len(),
            forall|j: int| 0 <= j < r@.len() ==> (#[trigger] r@[j])@ == self@.fields[j].1,
    {
        let mut out: Vec<&[u8]> = Vec::new();
        let n = self.headers.len();
        let mut i: usize = 0;
        while i < n
            invariant
                n == self.headers@.len(),
                i <= n,
                out@.len() == i,
                forall|j: int| 0 <= j < i ==> (#[trigger] out@[j])@ == self@.fields[j].1,
            decreases n - i,
        {
            out.push(self.headers[i].1.as_slice());
            i = i + 1;
        }
        out
    }

    /// Get the number of headers.
    pub fn len(&self) -> (r: usize)
        ensures
            r == self@.fields.len(),
    {
        self.headers.len()
    }

    /// Check if the header map is empty.
    pub fn is_empty(&self) -> (r: bool)
        ensures
            r == (self@.fields.len() == 0),
    {
        self.headers.len() == 0
    }

    /// Clear all headers and the status line.
    pub fn clear(&mut self)
        ensures
            final(self)@ == (HeaderMapModel {
                encoding: old(self)@.encoding,
                status_line: None,
                fields: Seq::empty(),
                raw: None,
            }),
    {
        self.headers.clear();
        self.status_line = None;
        self.raw = None;
        assert(fields_of(self.headers@) =~= Seq::<Field>::empty());
    }

    /// Read a header block from `s`, starting at `start`, line by line into
    /// this map (`has_status_line`: the first non-empty line is the status
    /// line); stops after the first empty line or at the end of `s`.
    /// Returns the position after the last line read.
    pub fn parse_block(&mut self, s: &[u8], start: usize, has_status_line: bool) -> (r: usize)
        requires
            start <= s@.len(),
        ensures
            (final(self)@, r as int) == parse_block_from(s@, start as int, old(self)@, has_status_line),
            start <= r <= s@.len(),
    {
        let mut pos = start;
        let mut expect = has_status_line;
        loop
            invariant
                start <= pos <= s@.len(),
                parse_block_from(s@, start as int, old(self)@, has_status_line) == parse_block_from(
                    s@,
                    pos as int,
                    self@,
                    expect,
                ),
            decreases s@.len() - pos,
        {
            if pos >= s.len() {
                return pos;
            }
            let f = find_byte_from(s, 10, pos);
            let e = if f < s.len() {
                f + 1
            } else {
                s.len()
            };
            proof {
                lemma_line_end_bounds(s@, pos as int);
            }
            assert(e == line_end_from(s@, pos as int));
            let t_end = if e - pos >= 2 && s[e - 2] == 13 && s[e - 1] == 10 {
                e - 2
            } else if e - pos >= 1 && s[e - 1] == 10 {
                e - 1
            } else {
                e
            };
            let t = vstd::slice::slice_subrange(s, pos, t_end);
            assert(t@ =~= strip_eol(s@.subrange(pos as int, e as int)));
            if t.len() == 0 {
                return e;
            }
            if expect {
                self.set_status_line(t);
                expect = false;
            } else if t[0] == 32 || t[0] == 9 {
                self._add_continuation_bytes(t);
            } else {
                let c = find_byte_from(t, 58, 0);
                if c < t.len() {
                    let key = vstd::slice::slice_subrange(t, 0, c);
                    let value = vstd::slice::slice_subrange(t, c + 1, t.len());
                    self._append_bytes_no_sanitize(key, value);
                } else {
                    self._add_continuation_bytes(t);
                }
            }
            pos = e;
        }
    }

    /// Write the header block onto `writer`: the verbatim bytes it was read
    /// from if it is unchanged since, else the block rebuilt from its status
    /// line and fields. Returns the number of bytes written.
    pub fn write(&self, writer: &mut Vec<u8>) -> (r: usize)
        ensures
            final(writer)@ == old(writer)@ + written(self@),
            r == written(self@).len(),
    {
        match &self.raw {
            Some(raw) => {
                push_all(writer, raw.as_slice());
                raw.len()
            },
            None => self.write_fields(writer),
        }
    }

    /// Write the block rebuilt from the status line and the fields.
    fn write_fields(&self, writer: &mut Vec<u8>) -> (r: usize)
        ensures
            final(writer)@ == old(writer)@ + serialized(self@),
            r == serialized(self@).len(),
    {
        let start = writer.len();
        let crlf_arr: [u8; 2] = [13, 10];
        let sep: [u8; 2] = [58, 32];
        assert(crlf_arr@ =~= crlf());
        assert(sep@ =~= seq![58u8, 32u8]);
        match &self.status_line {
            Some(s) => {
                if s.len() > 0 {
                    push_all(writer, s.as_slice());
                    push_all(writer, crlf_arr.as_slice());
                }
            },
            None => {},
        }
        let ghost after_status = writer@;
        assert(after_status =~= old(writer)@ + status_bytes(self@.status_line));
        let ghost f = self@.fields;
        let n = self.headers.len();
        let mut i: usize = 0;
        while i < n
            invariant
                n == self.headers@.len(),
                f == fields_of(self.headers@),
                i <= n,
                crlf_arr@ == crlf(),
                sep@ == seq![58u8, 32u8],
                writer@ == after_status + fields_bytes(f.take(i as int)),
            decreases n - i,
        {
            proof {
                lemma_fields_bytes_step(f, i as int);
            }
            let key = self.headers[i].0.as_slice();
            let value = self.headers[i].1.as_slice();
            if key.len() > 0 {
                push_all(writer, key);
                push_all(writer, sep.as_slice());
            }
            push_all(writer, value);
            push_all(writer, crlf_arr.as_slice());
            i = i + 1;
            assert(writer@ =~= after_status + fields_bytes(f.take(i as int)));
        }
        assert(f.take(n as int) =~= f);
        push_all(writer, crlf_arr.as_slice());
        assert(writer@ =~= old(writer)@ + serialized(self@));
        writer.len() - start
    }
}

} // verus!
