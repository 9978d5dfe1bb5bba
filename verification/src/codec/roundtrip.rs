//! Decoding gives back what was encoded.

use crate::codec::error::CodecError;
use crate::codec::field::{lemma_name_position_at, names_unique, upsert, FieldView};
use crate::codec::le::{
    le_bytes, lemma_le_bytes_len, lemma_le_value_of_bytes, lemma_radix_pow_values,
    lemma_twos_roundtrip, twos,
};
use crate::codec::parse::{
    field_span, lemma_first_zero_at, parse_entries, parse_field, parse_fields, parse_payload,
    parse_prefixed_fields, record_span,
};
use crate::codec::wire::{
    entries_wire, fields_wire, lemma_entries_wire_front, lemma_fields_wire_front, lemma_wire_len,
    payload, prefixed_fields_wire, valid_name, well_formed, wire,
};
use vstd::prelude::*;
use vstd::utf8::{encode_utf8, encode_utf8_decode_utf8, encode_utf8_valid_utf8};

verus! {

/// Every field of the list is well formed.
pub open spec fn fields_well_formed(fields: Seq<FieldView>) -> bool {
    forall|i: int| 0 <= i < fields.len() ==> well_formed(#[trigger] fields[i])
}

/// A well-formed field, encoded and followed by anything, decodes to itself,
/// and the decoder takes exactly the bytes of its encoding.
pub proof fn lemma_field_roundtrip(value: FieldView, trailing: Seq<u8>)
    requires
        well_formed(value),
    ensures
        parse_field(wire(value) + trailing) == Ok::<FieldView, CodecError>(value),
        field_span(wire(value) + trailing) == wire(value).len(),
    decreases value, 1int,
{
    let body = payload(value);
    let bytes = wire(value) + trailing;
    lemma_radix_pow_values();
    lemma_wire_len(value);
    lemma_le_bytes_len(body.len(), 4);
    lemma_le_value_of_bytes(body.len(), 4);
    value.kind().lemma_tag_roundtrip();
    assert(bytes[0] == value.kind().tag());
    assert(bytes.subrange(1, 5) =~= le_bytes(body.len(), 4));
    assert(bytes.subrange(5, 5 + body.len() as int) =~= body);
    lemma_payload_roundtrip(value);
}

/// The payload of a well-formed field decodes to the field.
pub proof fn lemma_payload_roundtrip(value: FieldView)
    requires
        well_formed(value),
    ensures
        parse_payload(value.kind(), payload(value)) == Ok::<FieldView, CodecError>(value),
    decreases value, 0int,
{
    lemma_radix_pow_values();
    match value {
        FieldView::String(text) => {
            encode_utf8_valid_utf8(text);
            encode_utf8_decode_utf8(text);
        },
        FieldView::Byte(v) => {
            lemma_twos_roundtrip(v as int, 1);
            lemma_le_bytes_len(twos(v as int, 1), 1);
            lemma_le_value_of_bytes(twos(v as int, 1), 1);
        },
        FieldView::UByte(v) => {
            lemma_le_bytes_len(v as nat, 1);
            lemma_le_value_of_bytes(v as nat, 1);
        },
        FieldView::Int32(v) => {
            lemma_twos_roundtrip(v as int, 4);
            lemma_le_bytes_len(twos(v as int, 4), 4);
            lemma_le_value_of_bytes(twos(v as int, 4), 4);
        },
        FieldView::UInt32(v) => {
            lemma_le_bytes_len(v as nat, 4);
            lemma_le_value_of_bytes(v as nat, 4);
        },
        FieldView::Int64(v) => {
            lemma_twos_roundtrip(v as int, 8);
            lemma_le_bytes_len(twos(v as int, 8), 8);
            lemma_le_value_of_bytes(twos(v as int, 8), 8);
        },
        FieldView::UInt64(v) => {
            lemma_le_bytes_len(v as nat, 8);
            lemma_le_value_of_bytes(v as nat, 8);
        },
        FieldView::Float32(bits) => {
            lemma_le_bytes_len(bits as nat, 4);
            lemma_le_value_of_bytes(bits as nat, 4);
        },
        FieldView::Float64(bits) => {
            lemma_le_bytes_len(bits as nat, 8);
            lemma_le_value_of_bytes(bits as nat, 8);
        },
        FieldView::Mapping(entries) => {
            assert(Seq::<(Seq<char>, FieldView)>::empty() + entries =~= entries);
            lemma_entries_roundtrip(Seq::empty(), entries);
        },
    }
}

/// Entries with valid, pairwise different names and well-formed values decode,
/// on top of entries `seen` that share no name with them, to `seen` followed
/// by the entries.
pub proof fn lemma_entries_roundtrip(
    seen: Seq<(Seq<char>, FieldView)>,
    more: Seq<(Seq<char>, FieldView)>,
)
    requires
        names_unique(seen + more),
        forall|i: int|
            0 <= i < more.len() ==> valid_name((#[trigger] more[i]).0) && well_formed(more[i].1),
    ensures
        parse_entries(entries_wire(more), seen) == Ok::<Seq<(Seq<char>, FieldView)>, CodecError>(
            seen + more,
        ),
    decreases more, 0int,
{
    if more.len() == 0 {
        assert(seen + more =~= seen);
    } else {
        let first = more[0];
        let tail = more.subrange(1, more.len() as int);
        let name = encode_utf8(first.0);
        let body = entries_wire(more);
        lemma_entries_wire_front(more);
        assert(body == name + seq![0u8] + wire(first.1) + entries_wire(tail));
        lemma_wire_len(first.1);
        assert forall|i: int| 0 <= i < name.len() implies #[trigger] body[i] != 0 by {
            assert(body[i] == name[i]);
        }
        assert(body[name.len() as int] == 0);
        lemma_first_zero_at(body, name.len() as int);
        assert(body.subrange(0, name.len() as int) =~= name);
        encode_utf8_valid_utf8(first.0);
        encode_utf8_decode_utf8(first.0);
        let rest = body.subrange(name.len() as int + 1, body.len() as int);
        assert(rest =~= wire(first.1) + entries_wire(tail));
        lemma_field_roundtrip(first.1, entries_wire(tail));
        assert(rest.subrange(wire(first.1).len() as int, rest.len() as int) =~= entries_wire(
            tail,
        ));
        assert forall|i: int| 0 <= i < seen.len() implies (#[trigger] seen[i]).0 != first.0 by {
            assert((seen + more)[i] == seen[i]);
            assert((seen + more)[seen.len() as int] == first);
        }
        lemma_name_position_at(seen, first.0, seen.len() as int);
        assert(upsert(seen, first.0, first.1) == seen.push(first));
        assert(seen.push(first) + tail =~= seen + more);
        assert forall|i: int| 0 <= i < tail.len() implies valid_name((#[trigger] tail[i]).0)
            && well_formed(tail[i].1) by {
            assert(tail[i] == more[i + 1]);
        }
        lemma_entries_roundtrip(seen.push(first), tail);
    }
}

/// Well-formed fields, encoded one after the other, decode to the same
/// fields in the same order.
pub proof fn lemma_fields_roundtrip(seen: Seq<FieldView>, more: Seq<FieldView>)
    requires
        fields_well_formed(more),
    ensures
        parse_fields(fields_wire(more), seen) == Ok::<Seq<FieldView>, CodecError>(seen + more),
    decreases more.len(),
{
    if more.len() == 0 {
        assert(seen + more =~= seen);
    } else {
        let first = more[0];
        let tail = more.subrange(1, more.len() as int);
        let bytes = fields_wire(more);
        lemma_fields_wire_front(more);
        lemma_wire_len(first);
        lemma_field_roundtrip(first, fields_wire(tail));
        assert(bytes.subrange(wire(first).len() as int, bytes.len() as int) =~= fields_wire(tail));
        assert(seen.push(first) + tail =~= seen + more);
        assert forall|i: int| 0 <= i < tail.len() implies well_formed(#[trigger] tail[i]) by {
            assert(tail[i] == more[i + 1]);
        }
        lemma_fields_roundtrip(seen.push(first), tail);
    }
}

/// A list of well-formed fields behind its length prefix, followed by
/// anything, decodes to the same fields in the same order, where the whole
/// record fits the prefix.
pub proof fn lemma_prefixed_fields_roundtrip(fields: Seq<FieldView>, trailing: Seq<u8>)
    requires
        fields_well_formed(fields),
        4 + fields_wire(fields).len() <= u32::MAX,
    ensures
        parse_prefixed_fields(prefixed_fields_wire(fields) + trailing) == Ok::<
            Seq<FieldView>,
            CodecError,
        >(fields),
        record_span(prefixed_fields_wire(fields) + trailing) == prefixed_fields_wire(fields).len(),
{
    let inner = fields_wire(fields);
    let total = (4 + inner.len()) as nat;
    let bytes = prefixed_fields_wire(fields) + trailing;
    lemma_radix_pow_values();
    lemma_le_bytes_len(total, 4);
    lemma_le_value_of_bytes(total, 4);
    assert(bytes.subrange(0, 4) =~= le_bytes(total, 4));
    assert(bytes.subrange(4, total as int) =~= inner);
    lemma_fields_roundtrip(Seq::empty(), fields);
    assert(Seq::<FieldView>::empty() + fields =~= fields);
}

} // verus!
