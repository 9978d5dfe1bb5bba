//! The wire format, stated over the mathematical values.
//!
//! A field is `tag(1) | payload_length(4, little-endian) | payload`. A map's
//! payload is the concatenation of its entries, each `name | 0x00 | field`.

use crate::codec::field::{names_unique, FieldView};
use crate::codec::le::{le_bytes, twos};
use vstd::prelude::*;
use vstd::utf8::encode_utf8;

verus! {

/// The payload of a field: the bytes that follow the tag and the length.
pub open spec fn payload(value: FieldView) -> Seq<u8>
    decreases value, 0int,
{
    match value {
        FieldView::String(text) => encode_utf8(text),
        FieldView::Byte(v) => le_bytes(twos(v as int, 1), 1),
        FieldView::UByte(v) => le_bytes(v as nat, 1),
        FieldView::Int32(v) => le_bytes(twos(v as int, 4), 4),
        FieldView::UInt32(v) => le_bytes(v as nat, 4),
        FieldView::Int64(v) => le_bytes(twos(v as int, 8), 8),
        FieldView::UInt64(v) => le_bytes(v as nat, 8),
        FieldView::Float32(bits) => le_bytes(bits as nat, 4),
        FieldView::Float64(bits) => le_bytes(bits as nat, 8),
        FieldView::Mapping(entries) => entries_wire(entries),
    }
}

/// The full encoding of a field.
pub open spec fn wire(value: FieldView) -> Seq<u8>
    decreases value, 1int,
{
    seq![value.kind().tag()] + le_bytes(payload(value).len(), 4) + payload(value)
}

/// The encoding of the entries of a map, in order.
pub open spec fn entries_wire(entries: Seq<(Seq<char>, FieldView)>) -> Seq<u8>
    decreases entries, 0int,
{
    if entries.len() == 0 {
        Seq::<u8>::empty()
    } else {
        entries_wire(entries.drop_last()) + (encode_utf8(entries.last().0) + seq![0u8] + wire(
            entries.last().1,
        ))
    }
}

/// The encoding of one entry of a map.
pub open spec fn entry_wire(entry: (Seq<char>, FieldView)) -> Seq<u8> {
    encode_utf8(entry.0) + seq![0u8] + wire(entry.1)
}

/// The encodings of a list of fields, one after the other.
pub open spec fn fields_wire(fields: Seq<FieldView>) -> Seq<u8>
    decreases fields.len(),
{
    if fields.len() == 0 {
        Seq::<u8>::empty()
    } else {
        fields_wire(fields.drop_last()) + wire(fields.last())
    }
}

/// A list of fields behind the length of the whole record, prefix included.
pub open spec fn prefixed_fields_wire(fields: Seq<FieldView>) -> Seq<u8> {
    le_bytes((4 + fields_wire(fields).len()) as nat, 4) + fields_wire(fields)
}

/// Every payload length inside the value fits the 32-bit length prefix.
pub open spec fn encodable(value: FieldView) -> bool
    decreases value,
{
    &&& payload(value).len() <= u32::MAX
    &&& match value {
        FieldView::Mapping(entries) => forall|i: int|
            0 <= i < entries.len() ==> encodable((#[trigger] entries[i]).1),
        _ => true,
    }
}

/// Every field of the list is encodable.
pub open spec fn fields_encodable(fields: Seq<FieldView>) -> bool {
    forall|i: int| 0 <= i < fields.len() ==> encodable(#[trigger] fields[i])
}

/// A name that the decoder can find again: it has at least one byte and no
/// zero byte.
pub open spec fn valid_name(name: Seq<char>) -> bool {
    &&& encode_utf8(name).len() > 0
    &&& forall|i: int| 0 <= i < encode_utf8(name).len() ==> #[trigger] encode_utf8(name)[i] != 0
}

/// A value that the decoder gives back as it was: encodable, and in every
/// map the names are valid and pairwise different.
pub open spec fn well_formed(value: FieldView) -> bool
    decreases value,
{
    &&& payload(value).len() <= u32::MAX
    &&& match value {
        FieldView::Mapping(entries) => {
            &&& names_unique(entries)
            &&& forall|i: int|
                0 <= i < entries.len() ==> valid_name((#[trigger] entries[i]).0) && well_formed(
                    entries[i].1,
                )
        },
        _ => true,
    }
}

pub proof fn lemma_well_formed_encodable(value: FieldView)
    requires
        well_formed(value),
    ensures
        encodable(value),
    decreases value,
{
    match value {
        FieldView::Mapping(entries) => {
            assert forall|i: int| 0 <= i < entries.len() implies encodable(
                (#[trigger] entries[i]).1,
            ) by {
                lemma_well_formed_encodable(entries[i].1);
            }
        },
        _ => {},
    }
}

/// A field takes five bytes more than its payload.
pub proof fn lemma_wire_len(value: FieldView)
    ensures
        wire(value).len() == 5 + payload(value).len(),
{
    crate::codec::le::lemma_le_bytes_len(payload(value).len(), 4);
}

/// Adding an entry at the end adds its encoding at the end.
pub proof fn lemma_entries_wire_push(
    entries: Seq<(Seq<char>, FieldView)>,
    entry: (Seq<char>, FieldView),
)
    ensures
        entries_wire(entries.push(entry)) == entries_wire(entries) + entry_wire(entry),
{
    assert(entries.push(entry).drop_last() =~= entries);
}

/// Adding a field at the end adds its encoding at the end.
pub proof fn lemma_fields_wire_push(fields: Seq<FieldView>, field: FieldView)
    ensures
        fields_wire(fields.push(field)) == fields_wire(fields) + wire(field),
{
    assert(fields.push(field).drop_last() =~= fields);
}

/// The encoding of a map starts with the encoding of its first entry.
pub proof fn lemma_entries_wire_front(entries: Seq<(Seq<char>, FieldView)>)
    requires
        entries.len() > 0,
    ensures
        entries_wire(entries) == entry_wire(entries[0]) + entries_wire(
            entries.subrange(1, entries.len() as int),
        ),
    decreases entries.len(),
{
    let tail = entries.subrange(1, entries.len() as int);
    if entries.len() == 1 {
        assert(entries.drop_last() =~= Seq::<(Seq<char>, FieldView)>::empty());
        assert(entries_wire(entries.drop_last()) =~= Seq::<u8>::empty());
        assert(entries_wire(tail) =~= Seq::<u8>::empty());
        assert(entries_wire(entries) =~= entry_wire(entries[0]) + entries_wire(tail));
    } else {
        lemma_entries_wire_front(entries.drop_last());
        assert(entries.drop_last().subrange(1, entries.len() - 1) =~= tail.drop_last());
        assert(tail.last() == entries.last());
        assert(entries.drop_last()[0] == entries[0]);
        assert(entries_wire(entries) =~= entry_wire(entries[0]) + entries_wire(tail));
    }
}

/// The encoding of a list of fields starts with the encoding of the first.
pub proof fn lemma_fields_wire_front(fields: Seq<FieldView>)
    requires
        fields.len() > 0,
    ensures
        fields_wire(fields) == wire(fields[0]) + fields_wire(
            fields.subrange(1, fields.len() as int),
        ),
    decreases fields.len(),
{
    let tail = fields.subrange(1, fields.len() as int);
    if fields.len() == 1 {
        assert(fields.drop_last() =~= Seq::<FieldView>::empty());
        assert(fields_wire(fields.drop_last()) =~= Seq::<u8>::empty());
        assert(fields_wire(tail) =~= Seq::<u8>::empty());
        assert(fields_wire(fields) =~= wire(fields[0]) + fields_wire(tail));
    } else {
        lemma_fields_wire_front(fields.drop_last());
        assert(fields.drop_last().subrange(1, fields.len() - 1) =~= tail.drop_last());
        assert(tail.last() == fields.last());
        assert(fields.drop_last()[0] == fields[0]);
        assert(fields_wire(fields) =~= wire(fields[0]) + fields_wire(tail));
    }
}

} // verus!
