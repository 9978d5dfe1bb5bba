//! Decoding bytes into values.

use crate::codec::error::CodecError;
use crate::codec::field::{entries_view, fields_view, upsert_entry, Field, FieldType, FieldView};
use crate::codec::le::{
    copy_range, get_le, lemma_le_value_bound, lemma_radix_pow_values, signed_value,
};
use crate::codec::parse::{
    field_span, first_zero, lemma_first_zero_at, parse_entries, parse_field, parse_fields,
    parse_payload, parse_prefixed_fields,
};
use vstd::prelude::*;
use vstd::utf8::{decode_utf8, valid_utf8};

verus! {

/// A value that can be read back from its binary encoding.
pub trait Deserialize: Sized {
    /// Whether `value` is what `bytes` decodes to.
    spec fn decodes_to(bytes: Seq<u8>, value: Self) -> bool;

    /// The failure that decoding `bytes` ends in, if it ends in one.
    spec fn decode_error(bytes: Seq<u8>) -> Option<CodecError>;

    /// The value at the start of `from`, or the failure.
    fn deserialize(from: &[u8]) -> (result: Result<Self, CodecError>)
        ensures
            match result {
                Ok(value) => Self::decode_error(from@).is_none() && Self::decodes_to(from@, value),
                Err(error) => Self::decode_error(from@) == Some(error),
            },
    ;
}

/// `String::from_utf8` of std: the text that `bytes` spell where they are
/// UTF-8, and nothing where they are not.
#[verifier::external_body]
pub(crate) fn text_from_utf8(bytes: Vec<u8>) -> (text: Option<String>)
    ensures
        match text {
            Some(text) => valid_utf8(bytes@) && text@ == decode_utf8(bytes@),
            None => !valid_utf8(bytes@),
        },
{
    String::from_utf8(bytes).ok()
}

/// The position of the first zero byte of `bytes`, or their number.
pub fn find_zero(bytes: &[u8]) -> (at: usize)
    ensures
        at == first_zero(bytes@),
        at <= bytes@.len(),
{
    let mut at: usize = 0;
    while at < bytes.len()
        invariant
            at <= bytes@.len(),
            forall|i: int| 0 <= i < at ==> #[trigger] bytes@[i] != 0,
        decreases bytes.len() - at,
    {
        if bytes[at] == 0 {
            proof {
                lemma_first_zero_at(bytes@, at as int);
            }
            return at;
        }
        at = at + 1;
    }
    proof {
        lemma_first_zero_at(bytes@, at as int);
    }
    at
}

/// The field at the start of `from`, with the number of bytes it takes.
pub fn decode_field(from: &[u8]) -> (result: Result<(Field, usize), CodecError>)
    ensures
        match result {
            Ok((field, used)) => {
                &&& parse_field(from@) == Ok::<FieldView, CodecError>(field@)
                &&& used == field_span(from@)
                &&& used <= from@.len()
            },
            Err(error) => parse_field(from@) == Err::<FieldView, CodecError>(error),
        },
    decreases from@.len(), 2int,
{
    if from.len() < 1 {
        return Err(CodecError::ShortBuffer);
    }
    let kind = match FieldType::from_tag(from[0]) {
        Some(kind) => kind,
        None => {
            return Err(CodecError::InvalidTag);
        },
    };
    if from.len() < 5 {
        return Err(CodecError::ShortBuffer);
    }
    let announced: u128 = get_le(from, 1, 4);
    if ((from.len() - 5) as u128) < announced {
        return Err(CodecError::ShortBuffer);
    }
    let end: usize = 5 + announced as usize;
    match decode_payload(kind, &from[5..end]) {
        Ok(field) => Ok((field, end)),
        Err(error) => Err(error),
    }
}

/// The value of type `kind` whose payload is exactly `body`.
pub fn decode_payload(kind: FieldType, body: &[u8]) -> (result: Result<Field, CodecError>)
    ensures
        match result {
            Ok(field) => parse_payload(kind, body@) == Ok::<FieldView, CodecError>(field@),
            Err(error) => parse_payload(kind, body@) == Err::<FieldView, CodecError>(error),
        },
    decreases body@.len(), 1int,
{
    proof {
        lemma_radix_pow_values();
        lemma_le_value_bound(body@);
        assert(body@.subrange(0, body@.len() as int) =~= body@);
    }
    match kind {
        FieldType::String => {
            match text_from_utf8(copy_range(body, 0, body.len())) {
                Some(text) => Ok(Field::String(text)),
                None => Err(CodecError::InvalidUtf8),
            }
        },
        FieldType::Byte => {
            if body.len() != 1 {
                Err(CodecError::BadLength)
            } else {
                Ok(Field::Byte(signed_value(get_le(body, 0, 1), 1) as i8))
            }
        },
        FieldType::UByte => {
            if body.len() != 1 {
                Err(CodecError::BadLength)
            } else {
                Ok(Field::UByte(get_le(body, 0, 1) as u8))
            }
        },
        FieldType::Int32 => {
            if body.len() != 4 {
                Err(CodecError::BadLength)
            } else {
                Ok(Field::Int32(signed_value(get_le(body, 0, 4), 4) as i32))
            }
        },
        FieldType::UInt32 => {
            if body.len() != 4 {
                Err(CodecError::BadLength)
            } else {
                Ok(Field::UInt32(get_le(body, 0, 4) as u32))
            }
        },
        FieldType::Int64 => {
            if body.len() != 8 {
                Err(CodecError::BadLength)
            } else {
                Ok(Field::Int64(signed_value(get_le(body, 0, 8), 8) as i64))
            }
        },
        FieldType::UInt64 => {
            if body.len() != 8 {
                Err(CodecError::BadLength)
            } else {
                Ok(Field::UInt64(get_le(body, 0, 8) as u64))
            }
        },
        FieldType::Float32 => {
            if body.len() != 4 {
                Err(CodecError::BadLength)
            } else {
                Ok(Field::Float32(get_le(body, 0, 4) as u32))
            }
        },
        FieldType::Float64 => {
            if body.len() != 8 {
                Err(CodecError::BadLength)
            } else {
                Ok(Field::Float64(get_le(body, 0, 8) as u64))
            }
        },
        FieldType::Mapping => {
            match decode_entries(body) {
                Ok(entries) => Ok(Field::Mapping(entries)),
                Err(error) => Err(error),
            }
        },
    }
}

/// The entries of the map whose payload is exactly `body`.
pub fn decode_entries(body: &[u8]) -> (result: Result<Vec<(String, Field)>, CodecError>)
    ensures
        match result {
            Ok(entries) => parse_entries(body@, Seq::empty()) == Ok::<
                Seq<(Seq<char>, FieldView)>,
                CodecError,
            >(entries_view(entries@)),
            Err(error) => parse_entries(body@, Seq::empty()) == Err::<
                Seq<(Seq<char>, FieldView)>,
                CodecError,
            >(error),
        },
    decreases body@.len(), 0int,
{
    let mut entries: Vec<(String, Field)> = Vec::new();
    let mut at: usize = 0;
    let total: usize = body.len();
    assert(entries_view(entries@) =~= Seq::<(Seq<char>, FieldView)>::empty());
    assert(body@.subrange(0, total as int) =~= body@);
    while at < total
        invariant
            at <= total,
            total == body@.len(),
            parse_entries(body@, Seq::empty()) == parse_entries(
                body@.subrange(at as int, total as int),
                entries_view(entries@),
            ),
        decreases total - at,
    {
        let left = &body[at..total];
        let nul = find_zero(left);
        if nul >= left.len() {
            return Err(CodecError::ShortBuffer);
        }
        if nul == 0 {
            return Err(CodecError::BadLength);
        }
        let name = match text_from_utf8(copy_range(left, 0, nul)) {
            Some(name) => name,
            None => {
                return Err(CodecError::InvalidUtf8);
            },
        };
        let rest = &left[nul + 1..left.len()];
        let (value, used) = match decode_field(rest) {
            Ok(found) => found,
            Err(error) => {
                return Err(error);
            },
        };
        let _ = upsert_entry(&mut entries, name, value);
        proof {
            assert(rest@.subrange(used as int, rest@.len() as int) =~= body@.subrange(
                at + nul + 1 + used,
                total as int,
            ));
        }
        at = at + nul + 1 + used;
    }
    proof {
        assert(body@.subrange(at as int, total as int) =~= Seq::<u8>::empty());
    }
    Ok(entries)
}

/// The fields that `from` holds one after the other, to its end.
pub fn decode_fields(from: &[u8]) -> (result: Result<Vec<Field>, CodecError>)
    ensures
        match result {
            Ok(fields) => parse_fields(from@, Seq::empty()) == Ok::<Seq<FieldView>, CodecError>(
                fields_view(fields@),
            ),
            Err(error) => parse_fields(from@, Seq::empty()) == Err::<Seq<FieldView>, CodecError>(
                error,
            ),
        },
{
    let mut fields: Vec<Field> = Vec::new();
    let mut at: usize = 0;
    let total: usize = from.len();
    assert(fields_view(fields@) =~= Seq::<FieldView>::empty());
    assert(from@.subrange(0, total as int) =~= from@);
    while at < total
        invariant
            at <= total,
            total == from@.len(),
            parse_fields(from@, Seq::empty()) == parse_fields(
                from@.subrange(at as int, total as int),
                fields_view(fields@),
            ),
        decreases total - at,
    {
        let left = &from[at..total];
        let (value, used) = match decode_field(left) {
            Ok(found) => found,
            Err(error) => {
                return Err(error);
            },
        };
        proof {
            assert(left@.subrange(used as int, left@.len() as int) =~= from@.subrange(
                at + used,
                total as int,
            ));
            assert(fields_view(fields@.push(value)) =~= fields_view(fields@).push(value@));
        }
        fields.push(value);
        at = at + used;
    }
    proof {
        assert(from@.subrange(at as int, total as int) =~= Seq::<u8>::empty());
    }
    Ok(fields)
}

/// The fields behind the length prefix at the start of `from`.
pub fn decode_prefixed_fields(from: &[u8]) -> (result: Result<Vec<Field>, CodecError>)
    ensures
        match result {
            Ok(fields) => parse_prefixed_fields(from@) == Ok::<Seq<FieldView>, CodecError>(
                fields_view(fields@),
            ),
            Err(error) => parse_prefixed_fields(from@) == Err::<Seq<FieldView>, CodecError>(error),
        },
{
    if from.len() < 4 {
        return Err(CodecError::ShortBuffer);
    }
    let announced: u128 = get_le(from, 0, 4);
    if announced < 4 {
        return Err(CodecError::BadLength);
    }
    if (from.len() as u128) < announced {
        return Err(CodecError::ShortBuffer);
    }
    decode_fields(&from[4..announced as usize])
}

impl Deserialize for Field {
    open spec fn decodes_to(bytes: Seq<u8>, value: Field) -> bool {
        parse_field(bytes) == Ok::<FieldView, CodecError>(value@)
    }

    open spec fn decode_error(bytes: Seq<u8>) -> Option<CodecError> {
        match parse_field(bytes) {
            Ok(_) => None,
            Err(error) => Some(error),
        }
    }

    fn deserialize(from: &[u8]) -> (result: Result<Field, CodecError>) {
        match decode_field(from) {
            Ok((field, _)) => Ok(field),
            Err(error) => Err(error),
        }
    }
}

impl Deserialize for Vec<Field> {
    open spec fn decodes_to(bytes: Seq<u8>, value: Vec<Field>) -> bool {
        parse_prefixed_fields(bytes) == Ok::<Seq<FieldView>, CodecError>(fields_view(value@))
    }

    open spec fn decode_error(bytes: Seq<u8>) -> Option<CodecError> {
        match parse_prefixed_fields(bytes) {
            Ok(_) => None,
            Err(error) => Some(error),
        }
    }

    fn deserialize(from: &[u8]) -> (result: Result<Vec<Field>, CodecError>) {
        decode_prefixed_fields(from)
    }
}

/// Text takes the whole buffer.
impl Deserialize for String {
    open spec fn decodes_to(bytes: Seq<u8>, value: String) -> bool {
        value@ == decode_utf8(bytes)
    }

    open spec fn decode_error(bytes: Seq<u8>) -> Option<CodecError> {
        if valid_utf8(bytes) {
            None
        } else {
            Some(CodecError::InvalidUtf8)
        }
    }

    fn deserialize(from: &[u8]) -> (result: Result<String, CodecError>) {
        proof {
            assert(from@.subrange(0, from@.len() as int) =~= from@);
        }
        match text_from_utf8(copy_range(from, 0, from.len())) {
            Some(text) => Ok(text),
            None => Err(CodecError::InvalidUtf8),
        }
    }
}

/// A boolean is read from the first byte: zero is `false`, all else `true`.
impl Deserialize for bool {
    open spec fn decodes_to(bytes: Seq<u8>, value: bool) -> bool {
        bytes.len() > 0 && value == (bytes[0] != 0)
    }

    open spec fn decode_error(bytes: Seq<u8>) -> Option<CodecError> {
        if bytes.len() == 0 {
            Some(CodecError::ShortBuffer)
        } else {
            None
        }
    }

    fn deserialize(from: &[u8]) -> (result: Result<bool, CodecError>) {
        if from.len() == 0 {
            Err(CodecError::ShortBuffer)
        } else {
            Ok(from[0] != 0)
        }
    }
}

/// A type tag is read from the first byte.
impl Deserialize for FieldType {
    open spec fn decodes_to(bytes: Seq<u8>, value: FieldType) -> bool {
        bytes.len() > 0 && FieldType::of_tag(bytes[0]) == Some(value)
    }

    open spec fn decode_error(bytes: Seq<u8>) -> Option<CodecError> {
        if bytes.len() == 0 {
            Some(CodecError::ShortBuffer)
        } else if FieldType::of_tag(bytes[0]).is_none() {
            Some(CodecError::InvalidTag)
        } else {
            None
        }
    }

    fn deserialize(from: &[u8]) -> (result: Result<FieldType, CodecError>) {
        if from.len() == 0 {
            return Err(CodecError::ShortBuffer);
        }
        match FieldType::from_tag(from[0]) {
            Some(kind) => Ok(kind),
            None => Err(CodecError::InvalidTag),
        }
    }
}

} // verus!
