//! Encoding values into bytes.

use crate::codec::error::CodecError;
use crate::codec::field::{
    entries_view, fields_view, lemma_entries_view, Field, FieldType, FieldView,
};
use crate::codec::le::{lemma_le_bytes_len, put_bytes, put_le, signed_image};
use crate::codec::wire::{
    encodable, entries_wire, entry_wire, fields_encodable, fields_wire, lemma_entries_wire_push,
    lemma_fields_wire_push, lemma_wire_len, payload, prefixed_fields_wire, wire,
};
use vstd::prelude::*;

verus! {

/// A byte count held to what 32 bits can say.
pub open spec fn saturated(len: nat) -> u32 {
    if len <= u32::MAX {
        len as u32
    } else {
        u32::MAX
    }
}

/// A value with a binary encoding.
pub trait Serialize {
    /// The bytes that stand for the value.
    spec fn wire_bytes(&self) -> Seq<u8>;

    /// Whether every length inside the value fits its 32-bit prefix.
    spec fn fits(&self) -> bool;

    /// The encoding, or `BadLength` where a length does not fit its prefix.
    fn serialize(&self) -> (result: Result<Vec<u8>, CodecError>)
        ensures
            match result {
                Ok(bytes) => self.fits() && bytes@ == self.wire_bytes(),
                Err(error) => error == CodecError::BadLength && !self.fits(),
            },
    ;

    /// The number of bytes of the encoding, held to `u32::MAX`.
    fn size(&self) -> (size: u32)
        ensures
            size == saturated(self.wire_bytes().len()),
    ;
}

/// The sum of two byte counts, each already held to `u32::MAX`, held again.
fn add_saturated(left: u32, right: u32) -> (sum: u32)
    ensures
        sum == saturated((left + right) as nat),
{
    let wide: u64 = left as u64 + right as u64;
    if wide > u32::MAX as u64 {
        u32::MAX
    } else {
        wide as u32
    }
}

/// A length of the machine, held to `u32::MAX`.
fn saturate(len: usize) -> (size: u32)
    ensures
        size == saturated(len as nat),
{
    if len > u32::MAX as usize {
        u32::MAX
    } else {
        len as u32
    }
}

/// The payload of `field`, or `BadLength` where a nested length does not fit.
pub fn encode_payload(field: &Field) -> (result: Result<Vec<u8>, CodecError>)
    ensures
        match result {
            Ok(bytes) => {
                &&& bytes@ == payload(field@)
                &&& (bytes@.len() <= u32::MAX ==> encodable(field@))
            },
            Err(error) => error == CodecError::BadLength && !encodable(field@),
        },
    decreases field, 0int,
{
    let mut out: Vec<u8> = Vec::new();
    match field {
        Field::String(text) => {
            put_bytes(&mut out, text.as_str().as_bytes());
        },
        Field::Byte(value) => {
            proof {
                crate::codec::le::lemma_radix_pow_values();
            }
            put_le(&mut out, signed_image(*value as i128, 1), 1);
        },
        Field::UByte(value) => {
            put_le(&mut out, *value as u128, 1);
        },
        Field::Int32(value) => {
            proof {
                crate::codec::le::lemma_radix_pow_values();
            }
            put_le(&mut out, signed_image(*value as i128, 4), 4);
        },
        Field::UInt32(value) => {
            put_le(&mut out, *value as u128, 4);
        },
        Field::Int64(value) => {
            proof {
                crate::codec::le::lemma_radix_pow_values();
            }
            put_le(&mut out, signed_image(*value as i128, 8), 8);
        },
        Field::UInt64(value) => {
            put_le(&mut out, *value as u128, 8);
        },
        Field::Float32(bits) => {
            put_le(&mut out, *bits as u128, 4);
        },
        Field::Float64(bits) => {
            put_le(&mut out, *bits as u128, 8);
        },
        Field::Mapping(entries) => {
            let ghost all = entries_view(entries@);
            proof {
                lemma_entries_view(entries@);
            }
            let mut at: usize = 0;
            while at < entries.len()
                invariant
                    at <= entries.len(),
                    field@ == FieldView::Mapping(all),
                    all.len() == entries@.len(),
                    forall|i: int|
                        0 <= i < entries@.len() ==> (#[trigger] all[i]) == (
                            entries@[i].0@,
                            entries@[i].1@,
                        ),
                    *field == Field::Mapping(*entries),
                    out@ == entries_wire(all.take(at as int)),
                    forall|i: int| 0 <= i < at ==> encodable((#[trigger] all[i]).1),
                decreases entries.len() - at,
            {
                let entry = &entries[at];
                let inner = match encode_field(&entry.1) {
                    Ok(inner) => inner,
                    Err(error) => {
                        assert(!encodable(all[at as int].1));
                        return Err(error);
                    },
                };
                proof {
                    lemma_entries_wire_push(all.take(at as int), all[at as int]);
                    assert(all.take(at as int).push(all[at as int]) =~= all.take(at + 1));
                }
                put_bytes(&mut out, entry.0.as_str().as_bytes());
                out.push(0u8);
                put_bytes(&mut out, inner.as_slice());
                assert(out@ =~= entries_wire(all.take(at as int)) + entry_wire(all[at as int]));
                at = at + 1;
            }
            assert(all.take(at as int) =~= all);
        },
    }
    Ok(out)
}

/// The encoding of `field`, or `BadLength` where a length does not fit.
pub fn encode_field(field: &Field) -> (result: Result<Vec<u8>, CodecError>)
    ensures
        match result {
            Ok(bytes) => encodable(field@) && bytes@ == wire(field@),
            Err(error) => error == CodecError::BadLength && !encodable(field@),
        },
    decreases field, 1int,
{
    let body = match encode_payload(field) {
        Ok(body) => body,
        Err(error) => {
            return Err(error);
        },
    };
    if body.len() > u32::MAX as usize {
        return Err(CodecError::BadLength);
    }
    let mut out: Vec<u8> = Vec::new();
    out.push(field.field_type().to_tag());
    put_le(&mut out, body.len() as u128, 4);
    put_bytes(&mut out, body.as_slice());
    assert(out@ =~= wire(field@));
    Ok(out)
}

/// The number of bytes of the payload of `field`, held to `u32::MAX`.
pub fn payload_size(field: &Field) -> (size: u32)
    ensures
        size == saturated(payload(field@).len()),
    decreases field, 0int,
{
    match field {
        Field::String(text) => saturate(text.as_str().as_bytes().len()),
        Field::Byte(_) => {
            proof {
                lemma_le_bytes_len(crate::codec::le::twos(field@->Byte_0 as int, 1), 1);
            }
            1
        },
        Field::UByte(value) => {
            proof {
                lemma_le_bytes_len(*value as nat, 1);
            }
            1
        },
        Field::Int32(_) => {
            proof {
                lemma_le_bytes_len(crate::codec::le::twos(field@->Int32_0 as int, 4), 4);
            }
            4
        },
        Field::UInt32(value) => {
            proof {
                lemma_le_bytes_len(*value as nat, 4);
            }
            4
        },
        Field::Int64(_) => {
            proof {
                lemma_le_bytes_len(crate::codec::le::twos(field@->Int64_0 as int, 8), 8);
            }
            8
        },
        Field::UInt64(value) => {
            proof {
                lemma_le_bytes_len(*value as nat, 8);
            }
            8
        },
        Field::Float32(bits) => {
            proof {
                lemma_le_bytes_len(*bits as nat, 4);
            }
            4
        },
        Field::Float64(bits) => {
            proof {
                lemma_le_bytes_len(*bits as nat, 8);
            }
            8
        },
        Field::Mapping(entries) => {
            let ghost all = entries_view(entries@);
            proof {
                lemma_entries_view(entries@);
            }
            let mut total: u32 = 0;
            let mut at: usize = 0;
            while at < entries.len()
                invariant
                    at <= entries.len(),
                    field@ == FieldView::Mapping(all),
                    all.len() == entries@.len(),
                    forall|i: int|
                        0 <= i < entries@.len() ==> (#[trigger] all[i]) == (
                            entries@[i].0@,
                            entries@[i].1@,
                        ),
                    *field == Field::Mapping(*entries),
                    total == saturated(entries_wire(all.take(at as int)).len()),
                decreases entries.len() - at,
            {
                let entry = &entries[at];
                let name_size = saturate(entry.0.as_str().as_bytes().len());
                let value_size = field_size(&entry.1);
                proof {
                    lemma_entries_wire_push(all.take(at as int), all[at as int]);
                    assert(all.take(at as int).push(all[at as int]) =~= all.take(at + 1));
                }
                total = add_saturated(total, name_size);
                total = add_saturated(total, 1);
                total = add_saturated(total, value_size);
                at = at + 1;
            }
            assert(all.take(at as int) =~= all);
            total
        },
    }
}

/// The number of bytes of the encoding of `field`, held to `u32::MAX`.
pub fn field_size(field: &Field) -> (size: u32)
    ensures
        size == saturated(wire(field@).len()),
    decreases field, 1int,
{
    proof {
        lemma_wire_len(field@);
    }
    add_saturated(5, payload_size(field))
}

impl Serialize for Field {
    open spec fn wire_bytes(&self) -> Seq<u8> {
        wire(self@)
    }

    open spec fn fits(&self) -> bool {
        encodable(self@)
    }

    fn serialize(&self) -> (result: Result<Vec<u8>, CodecError>) {
        encode_field(self)
    }

    fn size(&self) -> (size: u32) {
        field_size(self)
    }
}


/// The encodings of `fields` one after the other, with no length before
/// them, or `BadLength` where a field does not fit.
pub fn encode_fields(fields: &Vec<Field>) -> (result: Result<Vec<u8>, CodecError>)
    ensures
        match result {
            Ok(bytes) => fields_encodable(fields_view(fields@)) && bytes@ == fields_wire(
                fields_view(fields@),
            ),
            Err(error) => error == CodecError::BadLength && !fields_encodable(
                fields_view(fields@),
            ),
        },
{
    let ghost all = fields_view(fields@);
    let mut out: Vec<u8> = Vec::new();
    let mut at: usize = 0;
    while at < fields.len()
        invariant
            at <= fields.len(),
            all == fields_view(fields@),
            out@ == fields_wire(all.take(at as int)),
            forall|i: int| 0 <= i < at ==> encodable(#[trigger] all[i]),
        decreases fields.len() - at,
    {
        let inner = match encode_field(&fields[at]) {
            Ok(inner) => inner,
            Err(error) => {
                assert(!encodable(all[at as int]));
                return Err(error);
            },
        };
        proof {
            lemma_fields_wire_push(all.take(at as int), all[at as int]);
            assert(all.take(at as int).push(all[at as int]) =~= all.take(at + 1));
        }
        put_bytes(&mut out, inner.as_slice());
        at = at + 1;
    }
    assert(all.take(at as int) =~= all);
    Ok(out)
}

/// The number of bytes of the encodings of `fields`, held to `u32::MAX`.
pub fn fields_size(fields: &Vec<Field>) -> (size: u32)
    ensures
        size == saturated(fields_wire(fields_view(fields@)).len()),
{
    let ghost all = fields_view(fields@);
    let mut total: u32 = 0;
    let mut at: usize = 0;
    while at < fields.len()
        invariant
            at <= fields.len(),
            all == fields_view(fields@),
            total == saturated(fields_wire(all.take(at as int)).len()),
        decreases fields.len() - at,
    {
        let value_size = field_size(&fields[at]);
        proof {
            lemma_fields_wire_push(all.take(at as int), all[at as int]);
            assert(all.take(at as int).push(all[at as int]) =~= all.take(at + 1));
        }
        total = add_saturated(total, value_size);
        at = at + 1;
    }
    assert(all.take(at as int) =~= all);
    total
}

/// A list of fields is written behind the length of the whole record.
impl Serialize for Vec<Field> {
    open spec fn wire_bytes(&self) -> Seq<u8> {
        prefixed_fields_wire(fields_view(self@))
    }

    open spec fn fits(&self) -> bool {
        &&& fields_encodable(fields_view(self@))
        &&& 4 + fields_wire(fields_view(self@)).len() <= u32::MAX
    }

    fn serialize(&self) -> (result: Result<Vec<u8>, CodecError>) {
        let inner = match encode_fields(self) {
            Ok(inner) => inner,
            Err(error) => {
                return Err(error);
            },
        };
        if inner.len() > (u32::MAX - 4) as usize {
            return Err(CodecError::BadLength);
        }
        let mut out: Vec<u8> = Vec::new();
        put_le(&mut out, (inner.len() + 4) as u128, 4);
        put_bytes(&mut out, inner.as_slice());
        Ok(out)
    }

    fn size(&self) -> (size: u32) {
        proof {
            lemma_le_bytes_len((4 + fields_wire(fields_view(self@)).len()) as nat, 4);
        }
        add_saturated(4, fields_size(self))
    }
}

/// Text is written as its UTF-8 bytes, with no length before them.
impl Serialize for String {
    open spec fn wire_bytes(&self) -> Seq<u8> {
        vstd::utf8::encode_utf8(self@)
    }

    open spec fn fits(&self) -> bool {
        true
    }

    fn serialize(&self) -> (result: Result<Vec<u8>, CodecError>) {
        let mut out: Vec<u8> = Vec::new();
        put_bytes(&mut out, self.as_str().as_bytes());
        Ok(out)
    }

    fn size(&self) -> (size: u32) {
        saturate(self.as_str().as_bytes().len())
    }
}

/// A boolean is one byte: zero for `false`, one for `true`.
impl Serialize for bool {
    open spec fn wire_bytes(&self) -> Seq<u8> {
        seq![if *self { 1u8 } else { 0u8 }]
    }

    open spec fn fits(&self) -> bool {
        true
    }

    fn serialize(&self) -> (result: Result<Vec<u8>, CodecError>) {
        let mut out: Vec<u8> = Vec::new();
        out.push(if *self { 1u8 } else { 0u8 });
        assert(out@ =~= self.wire_bytes());
        Ok(out)
    }

    fn size(&self) -> (size: u32) {
        1
    }
}

/// A type tag is one byte.
impl Serialize for FieldType {
    open spec fn wire_bytes(&self) -> Seq<u8> {
        seq![self.tag()]
    }

    open spec fn fits(&self) -> bool {
        true
    }

    fn serialize(&self) -> (result: Result<Vec<u8>, CodecError>) {
        let mut out: Vec<u8> = Vec::new();
        out.push(self.to_tag());
        assert(out@ =~= self.wire_bytes());
        Ok(out)
    }

    fn size(&self) -> (size: u32) {
        1
    }
}

} // verus!
