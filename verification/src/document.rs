//! Documents: named fields, the unit of what a collection stores.
//!
//! A document is written as the length of its fields in four bytes and then
//! the fields as the entries of a map.

use crate::codec::compare::{fields_equal, find_entry, same_value, str_equal};
use crate::codec::deserialize::decode_entries;
use crate::codec::error::CodecError;
use crate::codec::field::{
    entries_view, lemma_entries_view, lemma_name_position_at, name_position, names_unique, upsert,
    upsert_all, upsert_entry, Field, FieldView,
};
use crate::codec::le::{
    get_le, le_bytes, le_value, lemma_le_bytes_len, lemma_le_value_of_bytes,
    lemma_radix_pow_values, put_bytes, put_le,
};
use crate::codec::parse::parse_entries;
use crate::codec::roundtrip::lemma_entries_roundtrip;
use crate::codec::serialize::saturated;
use crate::codec::wire::{encodable, entries_wire, well_formed};
use vstd::prelude::*;

verus! {

/// The encoding of a document with these fields.
pub open spec fn document_wire(fields: Seq<(Seq<char>, FieldView)>) -> Seq<u8> {
    le_bytes(entries_wire(fields).len(), 4) + entries_wire(fields)
}

/// The number of bytes that the document at the start of `bytes` says it
/// takes, the four bytes of the length included.
pub open spec fn document_span(bytes: Seq<u8>) -> int {
    4 + le_value(bytes.subrange(0, 4)) as int
}

/// The fields of the document at the start of `bytes`; what follows the
/// document is not looked at.
pub open spec fn parse_document(bytes: Seq<u8>) -> Result<Seq<(Seq<char>, FieldView)>, CodecError> {
    if bytes.len() < 4 {
        Err(CodecError::ShortBuffer)
    } else if bytes.len() < document_span(bytes) {
        Err(CodecError::ShortBuffer)
    } else {
        parse_entries(bytes.subrange(4, document_span(bytes)), Seq::empty())
    }
}

/// A document whose fields are well formed as a map, encoded and followed by
/// anything, decodes to the same fields in the same order.
pub proof fn lemma_document_roundtrip(fields: Seq<(Seq<char>, FieldView)>, trailing: Seq<u8>)
    requires
        well_formed(FieldView::Mapping(fields)),
    ensures
        parse_document(document_wire(fields) + trailing) == Ok::<
            Seq<(Seq<char>, FieldView)>,
            CodecError,
        >(fields),
        document_span(document_wire(fields) + trailing) == document_wire(fields).len(),
{
    let body = entries_wire(fields);
    let bytes = document_wire(fields) + trailing;
    lemma_radix_pow_values();
    lemma_le_bytes_len(body.len(), 4);
    lemma_le_value_of_bytes(body.len(), 4);
    assert(bytes.subrange(0, 4) =~= le_bytes(body.len(), 4));
    assert(bytes.subrange(4, 4 + body.len() as int) =~= body);
    assert(Seq::<(Seq<char>, FieldView)>::empty() + fields =~= fields);
    lemma_entries_roundtrip(Seq::empty(), fields);
}

/// A document: fields by name, in the order in which the names were first
/// bound.
#[derive(Debug)]
pub struct Document {
    map: Vec<(String, Field)>,
}

impl View for Document {
    type V = Seq<(Seq<char>, FieldView)>;

    closed spec fn view(&self) -> Seq<(Seq<char>, FieldView)> {
        entries_view(self.map@)
    }
}

impl Document {
    /// A document without fields.
    pub fn new() -> (document: Document)
        ensures
            document@ == Seq::<(Seq<char>, FieldView)>::empty(),
    {
        Document { map: Vec::new() }
    }

    /// Binds `key` to `value`: in place where the name is already bound, at
    /// the end where it is not.
    pub fn append_field(&mut self, key: String, value: Field)
        ensures
            final(self)@ == upsert(old(self)@, key@, value@),
    {
        let _ = upsert_entry(&mut self.map, key, value);
    }

    /// The field named `key`, if there is one.
    pub fn get_field(&self, key: &str) -> (found: Option<&Field>)
        ensures
            match found {
                Some(value) => {
                    let at = name_position(self@, key@);
                    at < self@.len() && value@ == self@[at].1
                },
                None => name_position(self@, key@) == self@.len(),
            },
    {
        proof {
            lemma_entries_view(self.map@);
        }
        find_entry(&self.map, key)
    }

    /// Takes the first field named `key` out, if there is one.
    pub fn remove_field(&mut self, key: &str) -> (removed: Option<Field>)
        ensures
            match removed {
                Some(value) => {
                    let at = name_position(old(self)@, key@);
                    &&& at < old(self)@.len()
                    &&& value@ == old(self)@[at].1
                    &&& final(self)@ == old(self)@.remove(at)
                },
                None => {
                    &&& name_position(old(self)@, key@) == old(self)@.len()
                    &&& final(self)@ == old(self)@
                },
            },
    {
        let ghost before = self@;
        proof {
            lemma_entries_view(self.map@);
        }
        let mut at: usize = 0;
        while at < self.map.len()
            invariant
                at <= self.map@.len(),
                self.map@ == old(self).map@,
                before == entries_view(self.map@),
                before.len() == self.map@.len(),
                forall|i: int|
                    0 <= i < self.map@.len() ==> (#[trigger] before[i]) == (
                        self.map@[i].0@,
                        self.map@[i].1@,
                    ),
                forall|i: int| 0 <= i < at ==> (#[trigger] before[i]).0 != key@,
            decreases self.map@.len() - at,
        {
            if str_equal(self.map[at].0.as_str(), key) {
                proof {
                    lemma_name_position_at(before, key@, at as int);
                }
                let entry = self.map.remove(at);
                proof {
                    lemma_entries_view(self.map@);
                    assert(entries_view(self.map@) =~= before.remove(at as int));
                }
                return Some(entry.1);
            }
            at = at + 1;
        }
        proof {
            lemma_name_position_at(before, key@, at as int);
        }
        None
    }

    /// A document that binds the entries one by one, in order: where a name
    /// comes twice, the later value takes the place of the earlier.
    pub fn new_with_fields(map: Vec<(String, Field)>) -> (document: Document)
        ensures
            document@ == upsert_all(Seq::empty(), entries_view(map@)),
            names_unique(document@),
    {
        match Field::map(map) {
            Field::Mapping(entries) => Document { map: entries },
            _ => Document { map: Vec::new() },
        }
    }

    /// The fields as a map field.
    pub fn into_field(self) -> (field: Field)
        ensures
            field@ == FieldView::Mapping(self@),
    {
        Field::Mapping(self.map)
    }

    /// The fields, in the order in which their names were first bound.
    pub fn fields(&self) -> (fields: &Vec<(String, Field)>)
        ensures
            entries_view(fields@) == self@,
    {
        &self.map
    }

    /// The number of bytes that the fields take, held to `u32::MAX`. The
    /// encoding of the document takes four bytes more.
    pub fn size(&self) -> (size: u32)
        ensures
            size == saturated(entries_wire(self@).len()),
    {
        let mut total: u32 = 0;
        let mut at: usize = 0;
        let ghost all = self@;
        proof {
            lemma_entries_view(self.map@);
        }
        while at < self.map.len()
            invariant
                at <= self.map@.len(),
                all == entries_view(self.map@),
                all.len() == self.map@.len(),
                forall|i: int|
                    0 <= i < self.map@.len() ==> (#[trigger] all[i]) == (
                        self.map@[i].0@,
                        self.map@[i].1@,
                    ),
                total == saturated(entries_wire(all.take(at as int)).len()),
            decreases self.map@.len() - at,
        {
            let entry = &self.map[at];
            let name: usize = entry.0.as_str().as_bytes().len();
            let value: u32 = crate::codec::serialize::field_size(&entry.1);
            proof {
                crate::codec::wire::lemma_entries_wire_push(all.take(at as int), all[at as int]);
                assert(all.take(at as int).push(all[at as int]) =~= all.take(at + 1));
            }
            let wide: u64 = total as u64 + (if name > u32::MAX as usize {
                u32::MAX as u64
            } else {
                name as u64
            }) + 1 + value as u64;
            total = if wide > u32::MAX as u64 {
                u32::MAX
            } else {
                wide as u32
            };
            at = at + 1;
        }
        assert(all.take(at as int) =~= all);
        total
    }

    /// The encoding of the document, or `BadLength` where a length inside it
    /// does not fit its 32-bit prefix.
    pub fn serialize(&self) -> (result: Result<Vec<u8>, CodecError>)
        ensures
            match result {
                Ok(bytes) => encodable(FieldView::Mapping(self@)) && bytes@ == document_wire(self@),
                Err(error) => error == CodecError::BadLength && !encodable(
                    FieldView::Mapping(self@),
                ),
            },
    {
        let ghost all = self@;
        let mut body: Vec<u8> = Vec::new();
        let mut at: usize = 0;
        proof {
            lemma_entries_view(self.map@);
        }
        while at < self.map.len()
            invariant
                at <= self.map@.len(),
                all == entries_view(self.map@),
                all.len() == self.map@.len(),
                forall|i: int|
                    0 <= i < self.map@.len() ==> (#[trigger] all[i]) == (
                        self.map@[i].0@,
                        self.map@[i].1@,
                    ),
                body@ == entries_wire(all.take(at as int)),
                forall|i: int| 0 <= i < at ==> encodable((#[trigger] all[i]).1),
            decreases self.map@.len() - at,
        {
            let entry = &self.map[at];
            let inner = match crate::codec::serialize::encode_field(&entry.1) {
                Ok(inner) => inner,
                Err(error) => {
                    assert(!encodable(all[at as int].1));
                    return Err(error);
                },
            };
            proof {
                crate::codec::wire::lemma_entries_wire_push(all.take(at as int), all[at as int]);
                assert(all.take(at as int).push(all[at as int]) =~= all.take(at + 1));
            }
            put_bytes(&mut body, entry.0.as_str().as_bytes());
            body.push(0u8);
            put_bytes(&mut body, inner.as_slice());
            assert(body@ =~= entries_wire(all.take(at as int)) + crate::codec::wire::entry_wire(
                all[at as int],
            ));
            at = at + 1;
        }
        assert(all.take(at as int) =~= all);
        if body.len() > u32::MAX as usize {
            return Err(CodecError::BadLength);
        }
        let mut out: Vec<u8> = Vec::new();
        put_le(&mut out, body.len() as u128, 4);
        put_bytes(&mut out, body.as_slice());
        Ok(out)
    }

    /// The document at the start of `src`.
    pub fn deserialize(src: &[u8]) -> (result: Result<Document, CodecError>)
        ensures
            match result {
                Ok(document) => parse_document(src@) == Ok::<
                    Seq<(Seq<char>, FieldView)>,
                    CodecError,
                >(document@),
                Err(error) => parse_document(src@) == Err::<
                    Seq<(Seq<char>, FieldView)>,
                    CodecError,
                >(error),
            },
    {
        if src.len() < 4 {
            return Err(CodecError::ShortBuffer);
        }
        let announced: u128 = get_le(src, 0, 4);
        if ((src.len() - 4) as u128) < announced {
            return Err(CodecError::ShortBuffer);
        }
        let end: usize = 4 + announced as usize;
        match decode_entries(&src[4..end]) {
            Ok(map) => Ok(Document { map }),
            Err(error) => Err(error),
        }
    }

    /// Whether the two documents bind the same names to equal fields.
    pub fn same(&self, other: &Document) -> (same: bool)
        ensures
            same == same_value(FieldView::Mapping(self@), FieldView::Mapping(other@)),
    {
        let ghost xs = self@;
        let ghost ys = other@;
        proof {
            lemma_entries_view(self.map@);
            lemma_entries_view(other.map@);
        }
        if self.map.len() != other.map.len() {
            return false;
        }
        let mut at: usize = 0;
        while at < self.map.len()
            invariant
                at <= self.map@.len(),
                xs == entries_view(self.map@),
                ys == entries_view(other.map@),
                xs.len() == self.map@.len(),
                ys.len() == other.map@.len(),
                xs.len() == ys.len(),
                forall|i: int|
                    0 <= i < self.map@.len() ==> (#[trigger] xs[i]) == (
                        self.map@[i].0@,
                        self.map@[i].1@,
                    ),
                forall|i: int|
                    0 <= i < at ==> name_position(ys, (#[trigger] xs[i]).0) < ys.len()
                        && same_value(xs[i].1, ys[name_position(ys, xs[i].0)].1),
            decreases self.map@.len() - at,
        {
            let ghost here = xs[at as int];
            let found = match find_entry(&other.map, self.map[at].0.as_str()) {
                Some(found) => found,
                None => {
                    assert(!(name_position(ys, here.0) < ys.len()));
                    return false;
                },
            };
            if !fields_equal(&self.map[at].1, found) {
                assert(!same_value(here.1, ys[name_position(ys, here.0)].1));
                return false;
            }
            at = at + 1;
        }
        true
    }
}

impl PartialEq for Document {
    fn eq(&self, other: &Document) -> (equal: bool) {
        self.same(other)
    }
}

impl vstd::std_specs::cmp::PartialEqSpecImpl for Document {
    open spec fn obeys_eq_spec() -> bool {
        true
    }

    open spec fn eq_spec(&self, other: &Document) -> bool {
        same_value(FieldView::Mapping(self@), FieldView::Mapping(other@))
    }
}

} // verus!
