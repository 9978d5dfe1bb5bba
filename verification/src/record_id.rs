//! References to records: the file that owns the record and the byte offset
//! of the record in it.

use crate::codec::deserialize::{text_from_utf8, Deserialize};
use crate::codec::error::CodecError;
use crate::codec::le::{
    copy_range, get_le, le_bytes, le_value, lemma_le_bytes_len, lemma_le_value_bound,
    lemma_le_value_of_bytes, lemma_radix_pow_values, put_bytes, put_le,
};
use crate::codec::serialize::Serialize;
use vstd::prelude::*;
use vstd::utf8::{
    decode_utf8, encode_utf8, encode_utf8_decode_utf8, encode_utf8_valid_utf8, valid_utf8,
};

verus! {

/// A `(path, offset)` reference to a record. An empty path means the file
/// that holds the reference.
#[derive(Debug, Clone)]
pub struct RecordId {
    path: String,
    offset: u64,
}

/// The mathematical value of a [`RecordId`].
pub struct RecordIdView {
    pub path: Seq<char>,
    pub offset: u64,
}

impl View for RecordId {
    type V = RecordIdView;

    closed spec fn view(&self) -> RecordIdView {
        RecordIdView { path: self.path@, offset: self.offset }
    }
}

/// The encoding of a reference: the length of the whole record, the four
/// bytes of the length included; the path; the offset in eight bytes.
pub open spec fn record_id_wire(id: RecordIdView) -> Seq<u8> {
    le_bytes((12 + encode_utf8(id.path).len()) as nat, 4) + encode_utf8(id.path) + le_bytes(
        id.offset as nat,
        8,
    )
}

/// The length of the whole record fits its 32-bit prefix.
pub open spec fn record_id_fits(id: RecordIdView) -> bool {
    12 + encode_utf8(id.path).len() <= u32::MAX
}

/// The reference at the start of `bytes`; what follows it is not looked at.
pub open spec fn parse_record_id(bytes: Seq<u8>) -> Result<RecordIdView, CodecError> {
    if bytes.len() < 4 {
        Err(CodecError::ShortBuffer)
    } else {
        let total = le_value(bytes.subrange(0, 4)) as int;
        if total < 12 {
            Err(CodecError::BadLength)
        } else if bytes.len() < total {
            Err(CodecError::ShortBuffer)
        } else if !valid_utf8(bytes.subrange(4, total - 8)) {
            Err(CodecError::InvalidUtf8)
        } else {
            Ok(
                RecordIdView {
                    path: decode_utf8(bytes.subrange(4, total - 8)),
                    offset: le_value(bytes.subrange(total - 8, total)) as u64,
                },
            )
        }
    }
}

/// The number of bytes that the reference at the start of `bytes` says it takes.
pub open spec fn record_id_span(bytes: Seq<u8>) -> int {
    le_value(bytes.subrange(0, 4)) as int
}

/// A reference that fits, encoded and followed by anything, decodes to itself,
/// and the decoder takes exactly the bytes of its encoding.
pub proof fn lemma_record_id_roundtrip(id: RecordIdView, trailing: Seq<u8>)
    requires
        record_id_fits(id),
    ensures
        parse_record_id(record_id_wire(id) + trailing) == Ok::<RecordIdView, CodecError>(id),
        record_id_span(record_id_wire(id) + trailing) == record_id_wire(id).len(),
        record_id_wire(id).len() == 12 + encode_utf8(id.path).len(),
{
    let path = encode_utf8(id.path);
    let total = (12 + path.len()) as nat;
    let bytes = record_id_wire(id) + trailing;
    lemma_radix_pow_values();
    lemma_le_bytes_len(total, 4);
    lemma_le_value_of_bytes(total, 4);
    lemma_le_bytes_len(id.offset as nat, 8);
    lemma_le_value_of_bytes(id.offset as nat, 8);
    encode_utf8_valid_utf8(id.path);
    encode_utf8_decode_utf8(id.path);
    assert(bytes.subrange(0, 4) =~= le_bytes(total, 4));
    assert(bytes.subrange(4, total - 8) =~= path);
    assert(bytes.subrange(total - 8, total as int) =~= le_bytes(id.offset as nat, 8));
}

impl RecordId {
    pub fn new(path: String, offset: u64) -> (id: RecordId)
        ensures
            id@ == (RecordIdView { path: path@, offset }),
    {
        RecordId { path, offset }
    }

    pub fn path(&self) -> (path: &str)
        ensures
            path@ == self@.path,
    {
        self.path.as_str()
    }

    pub fn offset(&self) -> (offset: u64)
        ensures
            offset == self@.offset,
    {
        self.offset
    }

    /// A copy of the reference.
    pub fn cloned(&self) -> (copy: RecordId)
        ensures
            copy@ == self@,
    {
        RecordId { path: self.path.clone(), offset: self.offset }
    }

    /// The reference at the start of `from`, with the number of bytes it takes.
    pub fn decode(from: &[u8]) -> (result: Result<(RecordId, usize), CodecError>)
        ensures
            match result {
                Ok((id, used)) => {
                    &&& parse_record_id(from@) == Ok::<RecordIdView, CodecError>(id@)
                    &&& used == record_id_span(from@)
                    &&& 12 <= used <= from@.len()
                },
                Err(error) => parse_record_id(from@) == Err::<RecordIdView, CodecError>(error),
            },
    {
        if from.len() < 4 {
            return Err(CodecError::ShortBuffer);
        }
        let announced: u128 = get_le(from, 0, 4);
        if announced < 12 {
            return Err(CodecError::BadLength);
        }
        if (from.len() as u128) < announced {
            return Err(CodecError::ShortBuffer);
        }
        let total: usize = announced as usize;
        let path = match text_from_utf8(copy_range(from, 4, total - 8)) {
            Some(path) => path,
            None => {
                return Err(CodecError::InvalidUtf8);
            },
        };
        proof {
            lemma_radix_pow_values();
            lemma_le_value_bound(from@.subrange(total - 8, total as int));
        }
        let offset: u64 = get_le(from, total - 8, 8) as u64;
        Ok((RecordId { path, offset }, total))
    }
}

impl Serialize for RecordId {
    open spec fn wire_bytes(&self) -> Seq<u8> {
        record_id_wire(self@)
    }

    open spec fn fits(&self) -> bool {
        record_id_fits(self@)
    }

    fn serialize(&self) -> (result: Result<Vec<u8>, CodecError>) {
        let path = self.path.as_str().as_bytes();
        if path.len() > (u32::MAX - 12) as usize {
            return Err(CodecError::BadLength);
        }
        let mut out: Vec<u8> = Vec::new();
        put_le(&mut out, (path.len() + 12) as u128, 4);
        put_bytes(&mut out, path);
        put_le(&mut out, self.offset as u128, 8);
        Ok(out)
    }

    fn size(&self) -> (size: u32) {
        proof {
            lemma_le_bytes_len((12 + encode_utf8(self@.path).len()) as nat, 4);
            lemma_le_bytes_len(self@.offset as nat, 8);
        }
        let path = self.path.as_str().as_bytes();
        if path.len() > (u32::MAX - 12) as usize {
            u32::MAX
        } else {
            (path.len() + 12) as u32
        }
    }
}

impl Deserialize for RecordId {
    open spec fn decodes_to(bytes: Seq<u8>, value: RecordId) -> bool {
        parse_record_id(bytes) == Ok::<RecordIdView, CodecError>(value@)
    }

    open spec fn decode_error(bytes: Seq<u8>) -> Option<CodecError> {
        match parse_record_id(bytes) {
            Ok(_) => None,
            Err(error) => Some(error),
        }
    }

    fn deserialize(from: &[u8]) -> (result: Result<RecordId, CodecError>) {
        match RecordId::decode(from) {
            Ok((id, _)) => Ok(id),
            Err(error) => Err(error),
        }
    }
}

} // verus!
