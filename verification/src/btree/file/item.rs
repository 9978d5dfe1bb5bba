//! Items of the nodes of the file tree, and their encoding.
//!
//! An item is a tag byte and what the tag says: `0`, a separator key, is
//! followed by the key as a field; `1`, a pair, by the length of what
//! follows, that length's four bytes included, by the key as a field and by
//! the values as fields one after the other; `2`, a pointer, by a record
//! reference.

use crate::btree::shape::{ItemKind, ItemShape, NodeItem};
use crate::codec::compare::{key_order, KeyOrder};
use crate::codec::deserialize::{decode_field, decode_fields, Deserialize};
use crate::codec::error::CodecError;
use crate::codec::field::{fields_view, Field, FieldView};
use crate::codec::le::{
    get_le, le_bytes, le_value, lemma_le_bytes_len, lemma_le_value_of_bytes,
    lemma_radix_pow_values, put_bytes, put_le,
};
use crate::codec::parse::{field_span, parse_field, parse_fields};
use crate::codec::roundtrip::{fields_well_formed, lemma_field_roundtrip, lemma_fields_roundtrip};
use crate::codec::serialize::{encode_field, encode_fields, Serialize};
use crate::codec::wire::{encodable, fields_encodable, fields_wire, well_formed, wire};
use crate::record_id::{
    lemma_record_id_roundtrip, parse_record_id, record_id_fits, record_id_span, record_id_wire,
    RecordId, RecordIdView,
};
use vstd::prelude::*;

verus! {

/// An item of a node: a separator key, a key with the values that were put
/// under it, or a reference to a child node.
#[derive(Debug)]
pub enum FileBTreeNodeItem {
    Key(Field),
    Pair(Field, Vec<Field>),
    Pointer(RecordId),
}

/// The mathematical value of a [`FileBTreeNodeItem`].
pub enum FileItemView {
    Key(FieldView),
    Pair(FieldView, Seq<FieldView>),
    Pointer(RecordIdView),
}

impl View for FileBTreeNodeItem {
    type V = FileItemView;

    open spec fn view(&self) -> FileItemView {
        match self {
            FileBTreeNodeItem::Key(key) => FileItemView::Key(key@),
            FileBTreeNodeItem::Pair(key, values) => FileItemView::Pair(key@, fields_view(values@)),
            FileBTreeNodeItem::Pointer(pointer) => FileItemView::Pointer(pointer@),
        }
    }
}

impl ItemShape for FileItemView {
    type Key = Field;

    open spec fn kind(&self) -> ItemKind {
        match self {
            FileItemView::Key(_) => ItemKind::Key,
            FileItemView::Pair(_, _) => ItemKind::Pair,
            FileItemView::Pointer(_) => ItemKind::Pointer,
        }
    }

    open spec fn order_to(&self, key: &Field) -> Option<KeyOrder> {
        match self {
            FileItemView::Key(own) => key_order(*own, key@),
            FileItemView::Pair(own, _) => key_order(*own, key@),
            FileItemView::Pointer(_) => None,
        }
    }
}

impl NodeItem for FileBTreeNodeItem {
    type Shape = FileItemView;

    open spec fn shape(&self) -> FileItemView {
        self@
    }

    fn item_kind(&self) -> (kind: ItemKind) {
        match self {
            FileBTreeNodeItem::Key(_) => ItemKind::Key,
            FileBTreeNodeItem::Pair(_, _) => ItemKind::Pair,
            FileBTreeNodeItem::Pointer(_) => ItemKind::Pointer,
        }
    }

    fn compare_to(&self, key: &Field) -> (order: Option<KeyOrder>) {
        match self {
            FileBTreeNodeItem::Key(own) => own.compare(key),
            FileBTreeNodeItem::Pair(own, _) => own.compare(key),
            FileBTreeNodeItem::Pointer(_) => None,
        }
    }
}

/// The encoding of an item.
pub open spec fn item_wire(item: FileItemView) -> Seq<u8> {
    match item {
        FileItemView::Key(key) => seq![0u8] + wire(key),
        FileItemView::Pair(key, values) => seq![1u8] + le_bytes(
            (4 + wire(key).len() + fields_wire(values).len()) as nat,
            4,
        ) + wire(key) + fields_wire(values),
        FileItemView::Pointer(pointer) => seq![2u8] + record_id_wire(pointer),
    }
}

/// Every length inside the item fits its 32-bit prefix.
pub open spec fn item_fits(item: FileItemView) -> bool {
    match item {
        FileItemView::Key(key) => encodable(key),
        FileItemView::Pair(key, values) => {
            &&& encodable(key)
            &&& fields_encodable(values)
            &&& 4 + wire(key).len() + fields_wire(values).len() <= u32::MAX
        },
        FileItemView::Pointer(pointer) => record_id_fits(pointer),
    }
}

/// An item that the decoder gives back as it was.
pub open spec fn item_well_formed(item: FileItemView) -> bool {
    match item {
        FileItemView::Key(key) => well_formed(key),
        FileItemView::Pair(key, values) => {
            &&& well_formed(key)
            &&& fields_well_formed(values)
            &&& 4 + wire(key).len() + fields_wire(values).len() <= u32::MAX
        },
        FileItemView::Pointer(pointer) => record_id_fits(pointer),
    }
}

/// The number of bytes that the item at the start of `bytes` says it takes.
pub open spec fn item_span(bytes: Seq<u8>) -> int {
    if bytes.len() == 0 {
        0
    } else if bytes[0] == 0 {
        1 + field_span(bytes.skip(1))
    } else if bytes[0] == 1 {
        1 + le_value(bytes.subrange(1, 5)) as int
    } else {
        1 + record_id_span(bytes.skip(1))
    }
}

/// The item at the start of `bytes`; what follows it is not looked at.
pub open spec fn parse_item(bytes: Seq<u8>) -> Result<FileItemView, CodecError> {
    if bytes.len() == 0 {
        Err(CodecError::ShortBuffer)
    } else if bytes[0] == 0 {
        match parse_field(bytes.skip(1)) {
            Ok(key) => Ok(FileItemView::Key(key)),
            Err(error) => Err(error),
        }
    } else if bytes[0] == 1 {
        if bytes.len() < 5 {
            Err(CodecError::ShortBuffer)
        } else {
            let total = le_value(bytes.subrange(1, 5)) as int;
            if total < 4 {
                Err(CodecError::BadLength)
            } else if bytes.len() < 1 + total {
                Err(CodecError::ShortBuffer)
            } else {
                let inner = bytes.subrange(5, 1 + total);
                match parse_field(inner) {
                    Err(error) => Err(error),
                    Ok(key) => {
                        if field_span(inner) > inner.len() {
                            Err(CodecError::ShortBuffer)
                        } else {
                            match parse_fields(
                                inner.subrange(field_span(inner), inner.len() as int),
                                Seq::empty(),
                            ) {
                                Ok(values) => Ok(FileItemView::Pair(key, values)),
                                Err(error) => Err(error),
                            }
                        }
                    },
                }
            }
        }
    } else if bytes[0] == 2 {
        match parse_record_id(bytes.skip(1)) {
            Ok(pointer) => Ok(FileItemView::Pointer(pointer)),
            Err(error) => Err(error),
        }
    } else {
        Err(CodecError::InvalidTag)
    }
}

/// A well-formed item, encoded and followed by anything, decodes to itself,
/// and the decoder takes exactly the bytes of its encoding.
pub proof fn lemma_item_roundtrip(item: FileItemView, trailing: Seq<u8>)
    requires
        item_well_formed(item),
    ensures
        parse_item(item_wire(item) + trailing) == Ok::<FileItemView, CodecError>(item),
        item_span(item_wire(item) + trailing) == item_wire(item).len(),
        item_wire(item).len() > 0,
{
    let bytes = item_wire(item) + trailing;
    match item {
        FileItemView::Key(key) => {
            assert(bytes.skip(1) =~= wire(key) + trailing);
            lemma_field_roundtrip(key, trailing);
        },
        FileItemView::Pair(key, values) => {
            let total = (4 + wire(key).len() + fields_wire(values).len()) as nat;
            lemma_radix_pow_values();
            lemma_le_bytes_len(total, 4);
            lemma_le_value_of_bytes(total, 4);
            assert(bytes.subrange(1, 5) =~= le_bytes(total, 4));
            let inner = bytes.subrange(5, 1 + total as int);
            assert(inner =~= wire(key) + fields_wire(values));
            lemma_field_roundtrip(key, fields_wire(values));
            assert(inner.subrange(wire(key).len() as int, inner.len() as int) =~= fields_wire(
                values,
            ));
            lemma_fields_roundtrip(Seq::empty(), values);
            assert(Seq::<FieldView>::empty() + values =~= values);
        },
        FileItemView::Pointer(pointer) => {
            assert(bytes.skip(1) =~= record_id_wire(pointer) + trailing);
            lemma_record_id_roundtrip(pointer, trailing);
        },
    }
}

/// A copy of a list of fields.
pub fn copy_fields(fields: &Vec<Field>) -> (copies: Vec<Field>)
    ensures
        fields_view(copies@) == fields_view(fields@),
{
    let mut copies: Vec<Field> = Vec::new();
    let mut at: usize = 0;
    while at < fields.len()
        invariant
            at <= fields@.len(),
            copies@.len() == at,
            forall|i: int| 0 <= i < at ==> (#[trigger] copies@[i])@ == fields@[i]@,
        decreases fields@.len() - at,
    {
        copies.push(fields[at].duplicate());
        at = at + 1;
    }
    assert(fields_view(copies@) =~= fields_view(fields@));
    copies
}

impl FileBTreeNodeItem {
    /// The key and the values of a pair.
    pub fn as_pair(&self) -> (pair: (&Field, &Vec<Field>))
        requires
            self@ is Pair,
        ensures
            self@ == FileItemView::Pair(pair.0@, fields_view(pair.1@)),
    {
        match self {
            FileBTreeNodeItem::Pair(key, values) => (key, values),
            _ => vstd::pervasive::unreached(),
        }
    }

    /// The record that a pointer refers to.
    pub fn as_pointer(&self) -> (pointer: &RecordId)
        requires
            self@ is Pointer,
        ensures
            self@ == FileItemView::Pointer(pointer@),
    {
        match self {
            FileBTreeNodeItem::Pointer(pointer) => pointer,
            _ => vstd::pervasive::unreached(),
        }
    }

    /// The key of a separator.
    pub fn as_key(&self) -> (key: &Field)
        requires
            self@ is Key,
        ensures
            self@ == FileItemView::Key(key@),
    {
        match self {
            FileBTreeNodeItem::Key(key) => key,
            _ => vstd::pervasive::unreached(),
        }
    }

    pub fn is_key(&self) -> (yes: bool)
        ensures
            yes == (self@ is Key),
    {
        match self {
            FileBTreeNodeItem::Key(_) => true,
            _ => false,
        }
    }

    pub fn is_pair(&self) -> (yes: bool)
        ensures
            yes == (self@ is Pair),
    {
        match self {
            FileBTreeNodeItem::Pair(_, _) => true,
            _ => false,
        }
    }

    pub fn is_pointer(&self) -> (yes: bool)
        ensures
            yes == (self@ is Pointer),
    {
        match self {
            FileBTreeNodeItem::Pointer(_) => true,
            _ => false,
        }
    }

    /// A copy of the item.
    pub fn cloned(&self) -> (copy: FileBTreeNodeItem)
        ensures
            copy@ == self@,
    {
        match self {
            FileBTreeNodeItem::Key(key) => FileBTreeNodeItem::Key(key.duplicate()),
            FileBTreeNodeItem::Pair(key, values) => FileBTreeNodeItem::Pair(
                key.duplicate(),
                copy_fields(values),
            ),
            FileBTreeNodeItem::Pointer(pointer) => FileBTreeNodeItem::Pointer(pointer.cloned()),
        }
    }

    /// Adds a value behind the values of a pair.
    pub fn push_value(&mut self, value: Field)
        requires
            old(self)@ is Pair,
        ensures
            final(self)@ == FileItemView::Pair(
                old(self)@->Pair_0,
                old(self)@->Pair_1.push(value@),
            ),
    {
        match self {
            FileBTreeNodeItem::Pair(_, values) => {
                let ghost before = fields_view(values@);
                values.push(value);
                assert(fields_view(values@) =~= before.push(value@));
            },
            _ => {},
        }
    }

    /// The item at the start of `from`, with the number of bytes it takes.
    pub fn decode(from: &[u8]) -> (result: Result<(FileBTreeNodeItem, usize), CodecError>)
        ensures
            match result {
                Ok((item, used)) => {
                    &&& parse_item(from@) == Ok::<FileItemView, CodecError>(item@)
                    &&& used == item_span(from@)
                    &&& 0 < used <= from@.len()
                },
                Err(error) => parse_item(from@) == Err::<FileItemView, CodecError>(error),
            },
    {
        if from.len() == 0 {
            return Err(CodecError::ShortBuffer);
        }
        let tag: u8 = from[0];
        if tag == 0 {
            assert(from@.subrange(1, from@.len() as int) =~= from@.skip(1));
            match decode_field(&from[1..from.len()]) {
                Ok((key, used)) => Ok((FileBTreeNodeItem::Key(key), 1 + used)),
                Err(error) => Err(error),
            }
        } else if tag == 1 {
            if from.len() < 5 {
                return Err(CodecError::ShortBuffer);
            }
            let announced: u128 = get_le(from, 1, 4);
            if announced < 4 {
                return Err(CodecError::BadLength);
            }
            if ((from.len() - 1) as u128) < announced {
                return Err(CodecError::ShortBuffer);
            }
            let end: usize = 1 + announced as usize;
            let inner = &from[5..end];
            let (key, used) = match decode_field(inner) {
                Ok(found) => found,
                Err(error) => {
                    return Err(error);
                },
            };
            match decode_fields(&inner[used..inner.len()]) {
                Ok(values) => Ok((FileBTreeNodeItem::Pair(key, values), end)),
                Err(error) => Err(error),
            }
        } else if tag == 2 {
            assert(from@.subrange(1, from@.len() as int) =~= from@.skip(1));
            match RecordId::decode(&from[1..from.len()]) {
                Ok((pointer, used)) => Ok((FileBTreeNodeItem::Pointer(pointer), 1 + used)),
                Err(error) => Err(error),
            }
        } else {
            Err(CodecError::InvalidTag)
        }
    }
}

impl Serialize for FileBTreeNodeItem {
    open spec fn wire_bytes(&self) -> Seq<u8> {
        item_wire(self@)
    }

    open spec fn fits(&self) -> bool {
        item_fits(self@)
    }

    fn serialize(&self) -> (result: Result<Vec<u8>, CodecError>) {
        let mut out: Vec<u8> = Vec::new();
        match self {
            FileBTreeNodeItem::Key(key) => {
                let inner = match encode_field(key) {
                    Ok(inner) => inner,
                    Err(error) => {
                        return Err(error);
                    },
                };
                out.push(0u8);
                put_bytes(&mut out, inner.as_slice());
            },
            FileBTreeNodeItem::Pair(key, values) => {
                let head = match encode_field(key) {
                    Ok(head) => head,
                    Err(error) => {
                        return Err(error);
                    },
                };
                let tail = match encode_fields(values) {
                    Ok(tail) => tail,
                    Err(error) => {
                        return Err(error);
                    },
                };
                if head.len() > (u32::MAX - 4) as usize || tail.len() > (u32::MAX - 4) as usize
                    - head.len() {
                    return Err(CodecError::BadLength);
                }
                out.push(1u8);
                put_le(&mut out, (4 + head.len() + tail.len()) as u128, 4);
                put_bytes(&mut out, head.as_slice());
                put_bytes(&mut out, tail.as_slice());
            },
            FileBTreeNodeItem::Pointer(pointer) => {
                let inner = match pointer.serialize() {
                    Ok(inner) => inner,
                    Err(error) => {
                        return Err(error);
                    },
                };
                out.push(2u8);
                put_bytes(&mut out, inner.as_slice());
            },
        }
        assert(out@ =~= item_wire(self@));
        Ok(out)
    }

    fn size(&self) -> (size: u32) {
        match self {
            FileBTreeNodeItem::Key(key) => {
                let inner: u32 = key.size();
                if inner == u32::MAX {
                    u32::MAX
                } else {
                    inner + 1
                }
            },
            FileBTreeNodeItem::Pair(key, values) => {
                proof {
                    lemma_le_bytes_len(
                        (4 + wire(key@).len() + fields_wire(fields_view(values@)).len()) as nat,
                        4,
                    );
                }
                let head: u64 = key.size() as u64;
                let tail: u64 = crate::codec::serialize::fields_size(values) as u64;
                let whole: u64 = 5 + head + tail;
                if whole > u32::MAX as u64 {
                    u32::MAX
                } else {
                    whole as u32
                }
            },
            FileBTreeNodeItem::Pointer(pointer) => {
                let inner: u32 = pointer.size();
                if inner == u32::MAX {
                    u32::MAX
                } else {
                    inner + 1
                }
            },
        }
    }
}

impl Deserialize for FileBTreeNodeItem {
    open spec fn decodes_to(bytes: Seq<u8>, value: FileBTreeNodeItem) -> bool {
        parse_item(bytes) == Ok::<FileItemView, CodecError>(value@)
    }

    open spec fn decode_error(bytes: Seq<u8>) -> Option<CodecError> {
        match parse_item(bytes) {
            Ok(_) => None,
            Err(error) => Some(error),
        }
    }

    fn deserialize(from: &[u8]) -> (result: Result<FileBTreeNodeItem, CodecError>) {
        match FileBTreeNodeItem::decode(from) {
            Ok((item, _)) => Ok(item),
            Err(error) => Err(error),
        }
    }
}

} // verus!
