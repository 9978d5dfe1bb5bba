//! Integers as fixed-width little-endian bytes: unsigned ones as they are,
//! signed ones in two's complement.

use crate::codec::deserialize::Deserialize;
use crate::codec::error::CodecError;
use crate::codec::le::{
    fits_signed, get_le, le_bytes, le_value, lemma_le_bytes_len, lemma_le_value_bound,
    lemma_le_value_of_bytes, lemma_radix_pow_values, lemma_twos_roundtrip, put_le, signed_image,
    signed_value, twos, untwos,
};
use crate::codec::serialize::Serialize;
use vstd::prelude::*;

verus! {

/// Why `bytes` are not exactly `width` bytes, if they are not: too few are
/// `ShortBuffer`, too many `BadLength`.
pub open spec fn width_error(bytes: Seq<u8>, width: nat) -> Option<CodecError> {
    if bytes.len() < width {
        Some(CodecError::ShortBuffer)
    } else if bytes.len() > width {
        Some(CodecError::BadLength)
    } else {
        None
    }
}

/// An unsigned number, encoded in `width` bytes that can hold it, decodes to
/// itself.
pub proof fn lemma_unsigned_roundtrip(value: nat, width: nat)
    requires
        value < crate::codec::le::radix_pow(width),
    ensures
        le_bytes(value, width).len() == width,
        le_value(le_bytes(value, width)) == value,
{
    lemma_le_bytes_len(value, width);
    lemma_le_value_of_bytes(value, width);
}

/// A signed number, encoded in `width` bytes that can hold it, decodes to
/// itself.
pub proof fn lemma_signed_roundtrip(value: int, width: nat)
    requires
        fits_signed(value, width),
    ensures
        le_bytes(twos(value, width), width).len() == width,
        untwos(le_value(le_bytes(twos(value, width), width)), width) == value,
{
    lemma_twos_roundtrip(value, width);
    lemma_le_bytes_len(twos(value, width), width);
    lemma_le_value_of_bytes(twos(value, width), width);
}

impl Serialize for u8 {
    open spec fn wire_bytes(&self) -> Seq<u8> {
        le_bytes(*self as nat, 1)
    }

    open spec fn fits(&self) -> bool {
        true
    }

    fn serialize(&self) -> (result: Result<Vec<u8>, CodecError>) {
        let mut out: Vec<u8> = Vec::new();
        put_le(&mut out, *self as u128, 1);
        Ok(out)
    }

    fn size(&self) -> (size: u32) {
        proof {
            lemma_le_bytes_len(*self as nat, 1);
        }
        1
    }
}

impl Deserialize for u8 {
    open spec fn decodes_to(bytes: Seq<u8>, value: u8) -> bool {
        value == le_value(bytes)
    }

    open spec fn decode_error(bytes: Seq<u8>) -> Option<CodecError> {
        width_error(bytes, 1)
    }

    fn deserialize(from: &[u8]) -> (result: Result<u8, CodecError>) {
        if from.len() < 1 {
            return Err(CodecError::ShortBuffer);
        }
        if from.len() > 1 {
            return Err(CodecError::BadLength);
        }
        proof {
            lemma_radix_pow_values();
            lemma_le_value_bound(from@);
            assert(from@.subrange(0, 1) =~= from@);
        }
        Ok(get_le(from, 0, 1) as u8)
    }
}

impl Serialize for u16 {
    open spec fn wire_bytes(&self) -> Seq<u8> {
        le_bytes(*self as nat, 2)
    }

    open spec fn fits(&self) -> bool {
        true
    }

    fn serialize(&self) -> (result: Result<Vec<u8>, CodecError>) {
        let mut out: Vec<u8> = Vec::new();
        put_le(&mut out, *self as u128, 2);
        Ok(out)
    }

    fn size(&self) -> (size: u32) {
        proof {
            lemma_le_bytes_len(*self as nat, 2);
        }
        2
    }
}

impl Deserialize for u16 {
    open spec fn decodes_to(bytes: Seq<u8>, value: u16) -> bool {
        value == le_value(bytes)
    }

    open spec fn decode_error(bytes: Seq<u8>) -> Option<CodecError> {
        width_error(bytes, 2)
    }

    fn deserialize(from: &[u8]) -> (result: Result<u16, CodecError>) {
        if from.len() < 2 {
            return Err(CodecError::ShortBuffer);
        }
        if from.len() > 2 {
            return Err(CodecError::BadLength);
        }
        proof {
            lemma_radix_pow_values();
            lemma_le_value_bound(from@);
            assert(from@.subrange(0, 2) =~= from@);
        }
        Ok(get_le(from, 0, 2) as u16)
    }
}

impl Serialize for u32 {
    open spec fn wire_bytes(&self) -> Seq<u8> {
        le_bytes(*self as nat, 4)
    }

    open spec fn fits(&self) -> bool {
        true
    }

    fn serialize(&self) -> (result: Result<Vec<u8>, CodecError>) {
        let mut out: Vec<u8> = Vec::new();
        put_le(&mut out, *self as u128, 4);
        Ok(out)
    }

    fn size(&self) -> (size: u32) {
        proof {
            lemma_le_bytes_len(*self as nat, 4);
        }
        4
    }
}

impl Deserialize for u32 {
    open spec fn decodes_to(bytes: Seq<u8>, value: u32) -> bool {
        value == le_value(bytes)
    }

    open spec fn decode_error(bytes: Seq<u8>) -> Option<CodecError> {
        width_error(bytes, 4)
    }

    fn deserialize(from: &[u8]) -> (result: Result<u32, CodecError>) {
        if from.len() < 4 {
            return Err(CodecError::ShortBuffer);
        }
        if from.len() > 4 {
            return Err(CodecError::BadLength);
        }
        proof {
            lemma_radix_pow_values();
            lemma_le_value_bound(from@);
            assert(from@.subrange(0, 4) =~= from@);
        }
        Ok(get_le(from, 0, 4) as u32)
    }
}

impl Serialize for u64 {
    open spec fn wire_bytes(&self) -> Seq<u8> {
        le_bytes(*self as nat, 8)
    }

    open spec fn fits(&self) -> bool {
        true
    }

    fn serialize(&self) -> (result: Result<Vec<u8>, CodecError>) {
        let mut out: Vec<u8> = Vec::new();
        put_le(&mut out, *self as u128, 8);
        Ok(out)
    }

    fn size(&self) -> (size: u32) {
        proof {
            lemma_le_bytes_len(*self as nat, 8);
        }
        8
    }
}

impl Deserialize for u64 {
    open spec fn decodes_to(bytes: Seq<u8>, value: u64) -> bool {
        value == le_value(bytes)
    }

    open spec fn decode_error(bytes: Seq<u8>) -> Option<CodecError> {
        width_error(bytes, 8)
    }

    fn deserialize(from: &[u8]) -> (result: Result<u64, CodecError>) {
        if from.len() < 8 {
            return Err(CodecError::ShortBuffer);
        }
        if from.len() > 8 {
            return Err(CodecError::BadLength);
        }
        proof {
            lemma_radix_pow_values();
            lemma_le_value_bound(from@);
            assert(from@.subrange(0, 8) =~= from@);
        }
        Ok(get_le(from, 0, 8) as u64)
    }
}

impl Serialize for u128 {
    open spec fn wire_bytes(&self) -> Seq<u8> {
        le_bytes(*self as nat, 16)
    }

    open spec fn fits(&self) -> bool {
        true
    }

    fn serialize(&self) -> (result: Result<Vec<u8>, CodecError>) {
        let mut out: Vec<u8> = Vec::new();
        put_le(&mut out, *self as u128, 16);
        Ok(out)
    }

    fn size(&self) -> (size: u32) {
        proof {
            lemma_le_bytes_len(*self as nat, 16);
        }
        16
    }
}

impl Deserialize for u128 {
    open spec fn decodes_to(bytes: Seq<u8>, value: u128) -> bool {
        value == le_value(bytes)
    }

    open spec fn decode_error(bytes: Seq<u8>) -> Option<CodecError> {
        width_error(bytes, 16)
    }

    fn deserialize(from: &[u8]) -> (result: Result<u128, CodecError>) {
        if from.len() < 16 {
            return Err(CodecError::ShortBuffer);
        }
        if from.len() > 16 {
            return Err(CodecError::BadLength);
        }
        proof {
            lemma_radix_pow_values();
            lemma_le_value_bound(from@);
            assert(from@.subrange(0, 16) =~= from@);
        }
        Ok(get_le(from, 0, 16) as u128)
    }
}

impl Serialize for i8 {
    open spec fn wire_bytes(&self) -> Seq<u8> {
        le_bytes(twos(*self as int, 1), 1)
    }

    open spec fn fits(&self) -> bool {
        true
    }

    fn serialize(&self) -> (result: Result<Vec<u8>, CodecError>) {
        proof {
            lemma_radix_pow_values();
        }
        let mut out: Vec<u8> = Vec::new();
        put_le(&mut out, signed_image(*self as i128, 1), 1);
        Ok(out)
    }

    fn size(&self) -> (size: u32) {
        proof {
            lemma_le_bytes_len(twos(*self as int, 1), 1);
        }
        1
    }
}

impl Deserialize for i8 {
    open spec fn decodes_to(bytes: Seq<u8>, value: i8) -> bool {
        value == untwos(le_value(bytes), 1)
    }

    open spec fn decode_error(bytes: Seq<u8>) -> Option<CodecError> {
        width_error(bytes, 1)
    }

    fn deserialize(from: &[u8]) -> (result: Result<i8, CodecError>) {
        if from.len() < 1 {
            return Err(CodecError::ShortBuffer);
        }
        if from.len() > 1 {
            return Err(CodecError::BadLength);
        }
        proof {
            lemma_radix_pow_values();
            lemma_le_value_bound(from@);
            assert(from@.subrange(0, 1) =~= from@);
        }
        Ok(signed_value(get_le(from, 0, 1), 1) as i8)
    }
}

impl Serialize for i16 {
    open spec fn wire_bytes(&self) -> Seq<u8> {
        le_bytes(twos(*self as int, 2), 2)
    }

    open spec fn fits(&self) -> bool {
        true
    }

    fn serialize(&self) -> (result: Result<Vec<u8>, CodecError>) {
        proof {
            lemma_radix_pow_values();
        }
        let mut out: Vec<u8> = Vec::new();
        put_le(&mut out, signed_image(*self as i128, 2), 2);
        Ok(out)
    }

    fn size(&self) -> (size: u32) {
        proof {
            lemma_le_bytes_len(twos(*self as int, 2), 2);
        }
        2
    }
}

impl Deserialize for i16 {
    open spec fn decodes_to(bytes: Seq<u8>, value: i16) -> bool {
        value == untwos(le_value(bytes), 2)
    }

    open spec fn decode_error(bytes: Seq<u8>) -> Option<CodecError> {
        width_error(bytes, 2)
    }

    fn deserialize(from: &[u8]) -> (result: Result<i16, CodecError>) {
        if from.len() < 2 {
            return Err(CodecError::ShortBuffer);
        }
        if from.len() > 2 {
            return Err(CodecError::BadLength);
        }
        proof {
            lemma_radix_pow_values();
            lemma_le_value_bound(from@);
            assert(from@.subrange(0, 2) =~= from@);
        }
        Ok(signed_value(get_le(from, 0, 2), 2) as i16)
    }
}

impl Serialize for i32 {
    open spec fn wire_bytes(&self) -> Seq<u8> {
        le_bytes(twos(*self as int, 4), 4)
    }

    open spec fn fits(&self) -> bool {
        true
    }

    fn serialize(&self) -> (result: Result<Vec<u8>, CodecError>) {
        proof {
            lemma_radix_pow_values();
        }
        let mut out: Vec<u8> = Vec::new();
        put_le(&mut out, signed_image(*self as i128, 4), 4);
        Ok(out)
    }

    fn size(&self) -> (size: u32) {
        proof {
            lemma_le_bytes_len(twos(*self as int, 4), 4);
        }
        4
    }
}

impl Deserialize for i32 {
    open spec fn decodes_to(bytes: Seq<u8>, value: i32) -> bool {
        value == untwos(le_value(bytes), 4)
    }

    open spec fn decode_error(bytes: Seq<u8>) -> Option<CodecError> {
        width_error(bytes, 4)
    }

    fn deserialize(from: &[u8]) -> (result: Result<i32, CodecError>) {
        if from.len() < 4 {
            return Err(CodecError::ShortBuffer);
        }
        if from.len() > 4 {
            return Err(CodecError::BadLength);
        }
        proof {
            lemma_radix_pow_values();
            lemma_le_value_bound(from@);
            assert(from@.subrange(0, 4) =~= from@);
        }
        Ok(signed_value(get_le(from, 0, 4), 4) as i32)
    }
}

impl Serialize for i64 {
    open spec fn wire_bytes(&self) -> Seq<u8> {
        le_bytes(twos(*self as int, 8), 8)
    }

    open spec fn fits(&self) -> bool {
        true
    }

    fn serialize(&self) -> (result: Result<Vec<u8>, CodecError>) {
        proof {
            lemma_radix_pow_values();
        }
        let mut out: Vec<u8> = Vec::new();
        put_le(&mut out, signed_image(*self as i128, 8), 8);
        Ok(out)
    }

    fn size(&self) -> (size: u32) {
        proof {
            lemma_le_bytes_len(twos(*self as int, 8), 8);
        }
        8
    }
}

impl Deserialize for i64 {
    open spec fn decodes_to(bytes: Seq<u8>, value: i64) -> bool {
        value == untwos(le_value(bytes), 8)
    }

    open spec fn decode_error(bytes: Seq<u8>) -> Option<CodecError> {
        width_error(bytes, 8)
    }

    fn deserialize(from: &[u8]) -> (result: Result<i64, CodecError>) {
        if from.len() < 8 {
            return Err(CodecError::ShortBuffer);
        }
        if from.len() > 8 {
            return Err(CodecError::BadLength);
        }
        proof {
            lemma_radix_pow_values();
            lemma_le_value_bound(from@);
            assert(from@.subrange(0, 8) =~= from@);
        }
        Ok(signed_value(get_le(from, 0, 8), 8) as i64)
    }
}

impl Serialize for i128 {
    open spec fn wire_bytes(&self) -> Seq<u8> {
        le_bytes(twos(*self as int, 16), 16)
    }

    open spec fn fits(&self) -> bool {
        true
    }

    fn serialize(&self) -> (result: Result<Vec<u8>, CodecError>) {
        proof {
            lemma_radix_pow_values();
        }
        let mut out: Vec<u8> = Vec::new();
        put_le(&mut out, signed_image(*self as i128, 16), 16);
        Ok(out)
    }

    fn size(&self) -> (size: u32) {
        proof {
            lemma_le_bytes_len(twos(*self as int, 16), 16);
        }
        16
    }
}

impl Deserialize for i128 {
    open spec fn decodes_to(bytes: Seq<u8>, value: i128) -> bool {
        value == untwos(le_value(bytes), 16)
    }

    open spec fn decode_error(bytes: Seq<u8>) -> Option<CodecError> {
        width_error(bytes, 16)
    }

    fn deserialize(from: &[u8]) -> (result: Result<i128, CodecError>) {
        if from.len() < 16 {
            return Err(CodecError::ShortBuffer);
        }
        if from.len() > 16 {
            return Err(CodecError::BadLength);
        }
        proof {
            lemma_radix_pow_values();
            lemma_le_value_bound(from@);
            assert(from@.subrange(0, 16) =~= from@);
        }
        Ok(signed_value(get_le(from, 0, 16), 16) as i128)
    }
}

} // verus!
