//! Laws of the conversion to the wire model: wire record types and the
//! filter bits they select, and what each built-in filter keeps.
use crate::bytes::eq_ignore_case;
use crate::convert::{builtin_keeps, crate_record_type, pb_record_type, record_type_bit};
use crate::header::{values_for, Field};
use crate::proto as pb;
use crate::record::WarcRecordModel;
use crate::record_type::{type_bits, WarcRecordType};
use vstd::arithmetic::power2::{lemma2_to64, pow2};
use vstd::prelude::*;
use vstd::utf8::encode_utf8;

verus! {

/// A record type that names a WARC-Type (not `AnyType` or `NoType`).
pub open spec fn is_concrete(t: WarcRecordType) -> bool {
    t != WarcRecordType::AnyType && t != WarcRecordType::NoType
}

/// Wire record types number the record types in the order of their filter
/// bits: a concrete record type goes on the wire as the type with number
/// `n` where its filter bit is `2^n`, that wire type reads back as the same
/// record type, and its number selects the record type's filter bit.
/// `AnyType` and `NoType` go on the wire as `Unspecified`.
pub proof fn law_wire_record_type(t: WarcRecordType)
    ensures
        is_concrete(t) ==> type_bits(t) as nat == pow2(pb::record_type_number(pb_record_type(t)) as nat),
        is_concrete(t) ==> crate_record_type(pb_record_type(t)) == Some(t),
        is_concrete(t) ==> record_type_bit(pb::record_type_number(pb_record_type(t))) == Some(type_bits(t)),
        !is_concrete(t) ==> pb_record_type(t) == pb::WarcRecordType::Unspecified,
{
    lemma2_to64();
}

/// The filter bit of wire number `n` is `2^n` for the numbers 1 to 9 of the
/// record types; other numbers select none.
pub proof fn law_wire_type_bit(n: i32)
    ensures
        1 <= n <= 9 ==> (record_type_bit(n) matches Some(b) && b as nat == pow2(n as nat)),
        !(1 <= n <= 9) ==> record_type_bit(n) is None,
{
    lemma2_to64();
}

/// `fields` hold a field whose name is `key`, ignoring ASCII case.
pub open spec fn has_field_named(fields: Seq<Field>, key: Seq<char>) -> bool {
    exists|i: int| 0 <= i < fields.len() && eq_ignore_case(#[trigger] fields[i].0, encode_utf8(key))
}

proof fn lemma_values_nonempty(fields: Seq<Field>, key: Seq<char>)
    ensures
        (values_for(fields, encode_utf8(key)).len() > 0) == has_field_named(fields, key),
    decreases fields.len(),
{
    if fields.len() > 0 {
        let p = fields.drop_last();
        lemma_values_nonempty(p, key);
        if has_field_named(p, key) {
            let i = choose|i: int| 0 <= i < p.len() && eq_ignore_case(#[trigger] p[i].0, encode_utf8(key));
            assert(fields[i] == p[i]);
        }
        if has_field_named(fields, key) && !eq_ignore_case(fields.last().0, encode_utf8(key)) {
            let i = choose|i: int| 0 <= i < fields.len() && eq_ignore_case(#[trigger] fields[i].0, encode_utf8(key));
            assert(i < p.len());
            assert(p[i] == fields[i]);
        }
    }
}

/// `"WARC/1.0"` and `"WARC/1.1"` as bytes.
proof fn lemma_version_literals()
    ensures
        encode_utf8("WARC/1.0"@) == seq![87u8, 65, 82, 67, 47, 49, 46, 48],
        encode_utf8("WARC/1.1"@) == seq![87u8, 65, 82, 67, 47, 49, 46, 49],
{
    reveal_strlit("WARC/1.0");
    reveal_strlit("WARC/1.1");
    let a = "WARC/1.0"@;
    let b = "WARC/1.1"@;
    assert(vstd::utf8::is_ascii_chars(a));
    assert(vstd::utf8::is_ascii_chars(b));
    vstd::utf8::is_ascii_chars_encode_utf8(a);
    vstd::utf8::is_ascii_chars_encode_utf8(b);
    assert(encode_utf8(a) =~= seq![87u8, 65, 82, 67, 47, 49, 46, 48]);
    assert(encode_utf8(b) =~= seq![87u8, 65, 82, 67, 47, 49, 46, 49]);
}

/// What each built-in filter (by wire number) keeps: 1 HTTP records, 2
/// records with a `WARC-Concurrent-To` field, 3 records with a
/// `WARC-Block-Digest` field, 4 records with a `WARC-Payload-Digest` field
/// (field names compared ignoring ASCII case), 5 records whose status line
/// is `WARC/1.0`, 6 those whose status line is `WARC/1.1`; the unspecified
/// filter 0 and unknown numbers keep every record.
pub proof fn law_builtin_filters(m: WarcRecordModel, f: i32)
    ensures
        builtin_keeps(m, 1) == m.is_http,
        builtin_keeps(m, 2) == has_field_named(m.headers.fields, "WARC-Concurrent-To"@),
        builtin_keeps(m, 3) == has_field_named(m.headers.fields, "WARC-Block-Digest"@),
        builtin_keeps(m, 4) == has_field_named(m.headers.fields, "WARC-Payload-Digest"@),
        builtin_keeps(m, 5) == (m.headers.status_line == Some(encode_utf8("WARC/1.0"@))),
        builtin_keeps(m, 6) == (m.headers.status_line == Some(encode_utf8("WARC/1.1"@))),
        !(1 <= f <= 6) ==> builtin_keeps(m, f),
{
    lemma_values_nonempty(m.headers.fields, "WARC-Concurrent-To"@);
    lemma_values_nonempty(m.headers.fields, "WARC-Block-Digest"@);
    lemma_values_nonempty(m.headers.fields, "WARC-Payload-Digest"@);
    lemma_version_literals();
}

} // verus!
