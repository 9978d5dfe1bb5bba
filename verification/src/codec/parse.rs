//! What a buffer decodes to, stated over byte sequences.
//!
//! Checks are made in the order in which the bytes are read: a missing byte
//! is `ShortBuffer`, a tag outside the closed set is `InvalidTag`, a payload
//! whose length does not agree with its type is `BadLength`, and text that is
//! not UTF-8 is `InvalidUtf8`.

use crate::codec::error::CodecError;
use crate::codec::field::{upsert, FieldType, FieldView};
use crate::codec::le::{le_value, untwos};
use vstd::prelude::*;
use vstd::utf8::{decode_utf8, valid_utf8};

verus! {

/// The position of the first zero byte, or the length where there is none.
pub open spec fn first_zero(bytes: Seq<u8>) -> int
    decreases bytes.len(),
{
    if bytes.len() == 0 {
        0
    } else if bytes[0] == 0 {
        0
    } else {
        1 + first_zero(bytes.subrange(1, bytes.len() as int))
    }
}

/// The number of bytes that the field at the start of `bytes` says it takes.
pub open spec fn field_span(bytes: Seq<u8>) -> int {
    5 + le_value(bytes.subrange(1, 5)) as int
}

/// The field at the start of `bytes`; what follows it is not looked at.
pub open spec fn parse_field(bytes: Seq<u8>) -> Result<FieldView, CodecError>
    decreases bytes.len(), 2int,
{
    if bytes.len() < 1 {
        Err(CodecError::ShortBuffer)
    } else {
        match FieldType::of_tag(bytes[0]) {
            None => Err(CodecError::InvalidTag),
            Some(kind) => {
                if bytes.len() < 5 {
                    Err(CodecError::ShortBuffer)
                } else if bytes.len() < field_span(bytes) {
                    Err(CodecError::ShortBuffer)
                } else {
                    parse_payload(kind, bytes.subrange(5, field_span(bytes)))
                }
            },
        }
    }
}

/// The value of type `kind` whose payload is exactly `body`.
pub open spec fn parse_payload(kind: FieldType, body: Seq<u8>) -> Result<FieldView, CodecError>
    decreases body.len(), 1int,
{
    match kind {
        FieldType::String => {
            if valid_utf8(body) {
                Ok(FieldView::String(decode_utf8(body)))
            } else {
                Err(CodecError::InvalidUtf8)
            }
        },
        FieldType::Byte => {
            if body.len() != 1 {
                Err(CodecError::BadLength)
            } else {
                Ok(FieldView::Byte(untwos(le_value(body), 1) as i8))
            }
        },
        FieldType::UByte => {
            if body.len() != 1 {
                Err(CodecError::BadLength)
            } else {
                Ok(FieldView::UByte(le_value(body) as u8))
            }
        },
        FieldType::Int32 => {
            if body.len() != 4 {
                Err(CodecError::BadLength)
            } else {
                Ok(FieldView::Int32(untwos(le_value(body), 4) as i32))
            }
        },
        FieldType::UInt32 => {
            if body.len() != 4 {
                Err(CodecError::BadLength)
            } else {
                Ok(FieldView::UInt32(le_value(body) as u32))
            }
        },
        FieldType::Int64 => {
            if body.len() != 8 {
                Err(CodecError::BadLength)
            } else {
                Ok(FieldView::Int64(untwos(le_value(body), 8) as i64))
            }
        },
        FieldType::UInt64 => {
            if body.len() != 8 {
                Err(CodecError::BadLength)
            } else {
                Ok(FieldView::UInt64(le_value(body) as u64))
            }
        },
        FieldType::Float32 => {
            if body.len() != 4 {
                Err(CodecError::BadLength)
            } else {
                Ok(FieldView::Float32(le_value(body) as u32))
            }
        },
        FieldType::Float64 => {
            if body.len() != 8 {
                Err(CodecError::BadLength)
            } else {
                Ok(FieldView::Float64(le_value(body) as u64))
            }
        },
        FieldType::Mapping => {
            match parse_entries(body, Seq::empty()) {
                Ok(entries) => Ok(FieldView::Mapping(entries)),
                Err(error) => Err(error),
            }
        },
    }
}

/// The entries that `body` holds, added one by one to `seen`. An entry whose
/// name is already bound takes the place of the earlier one.
pub open spec fn parse_entries(body: Seq<u8>, seen: Seq<(Seq<char>, FieldView)>) -> Result<
    Seq<(Seq<char>, FieldView)>,
    CodecError,
>
    decreases body.len(), 0int,
{
    if body.len() == 0 {
        Ok(seen)
    } else {
        let nul = first_zero(body);
        if nul < 0 || nul >= body.len() {
            Err(CodecError::ShortBuffer)
        } else if nul == 0 {
            Err(CodecError::BadLength)
        } else if !valid_utf8(body.subrange(0, nul)) {
            Err(CodecError::InvalidUtf8)
        } else {
            let rest = body.subrange(nul + 1, body.len() as int);
            match parse_field(rest) {
                Err(error) => Err(error),
                Ok(value) => {
                    let used = field_span(rest);
                    if used <= rest.len() {
                        parse_entries(
                            rest.subrange(used, rest.len() as int),
                            upsert(seen, decode_utf8(body.subrange(0, nul)), value),
                        )
                    } else {
                        Err(CodecError::ShortBuffer)
                    }
                },
            }
        }
    }
}

/// The fields that `bytes` holds one after the other, added in order to `seen`.
pub open spec fn parse_fields(bytes: Seq<u8>, seen: Seq<FieldView>) -> Result<
    Seq<FieldView>,
    CodecError,
>
    decreases bytes.len(),
{
    if bytes.len() == 0 {
        Ok(seen)
    } else {
        match parse_field(bytes) {
            Err(error) => Err(error),
            Ok(value) => {
                let used = field_span(bytes);
                if used <= bytes.len() {
                    parse_fields(bytes.subrange(used, bytes.len() as int), seen.push(value))
                } else {
                    Err(CodecError::ShortBuffer)
                }
            },
        }
    }
}

/// The number of bytes that the length-prefixed record at the start of
/// `bytes` says it takes, the four bytes of the prefix included.
pub open spec fn record_span(bytes: Seq<u8>) -> int {
    le_value(bytes.subrange(0, 4)) as int
}

/// The list of fields behind a length prefix that counts itself.
pub open spec fn parse_prefixed_fields(bytes: Seq<u8>) -> Result<Seq<FieldView>, CodecError> {
    if bytes.len() < 4 {
        Err(CodecError::ShortBuffer)
    } else if record_span(bytes) < 4 {
        Err(CodecError::BadLength)
    } else if bytes.len() < record_span(bytes) {
        Err(CodecError::ShortBuffer)
    } else {
        parse_fields(bytes.subrange(4, record_span(bytes)), Seq::empty())
    }
}

pub proof fn lemma_first_zero(bytes: Seq<u8>)
    ensures
        0 <= first_zero(bytes) <= bytes.len(),
        first_zero(bytes) < bytes.len() ==> bytes[first_zero(bytes)] == 0,
        forall|i: int| 0 <= i < first_zero(bytes) ==> #[trigger] bytes[i] != 0,
    decreases bytes.len(),
{
    if bytes.len() > 0 && bytes[0] != 0 {
        let tail = bytes.subrange(1, bytes.len() as int);
        lemma_first_zero(tail);
        assert forall|i: int| 0 <= i < first_zero(bytes) implies #[trigger] bytes[i] != 0 by {
            if i > 0 {
                assert(tail[i - 1] == bytes[i]);
            }
        }
    }
}

/// The first zero is where a zero stands with none before it.
pub proof fn lemma_first_zero_at(bytes: Seq<u8>, at: int)
    requires
        0 <= at <= bytes.len(),
        forall|i: int| 0 <= i < at ==> #[trigger] bytes[i] != 0,
        at < bytes.len() ==> bytes[at] == 0,
    ensures
        first_zero(bytes) == at,
{
    lemma_first_zero(bytes);
    let found = first_zero(bytes);
    if found < at {
        assert(bytes[found] != 0);
    } else if found > at {
        assert(bytes[at] != 0);
    }
}

} // verus!
