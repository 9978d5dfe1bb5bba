//! Equality and order of fields.
//!
//! Two fields are equal where their tags match and their payloads are equal
//! by the meaning of the tag: floats as IEEE-754 numbers, maps as sets of
//! named fields. Fields of one type other than maps are ordered: text by
//! its UTF-8 bytes, integers and floats by their value.

use crate::codec::field::{
    entries_view, lemma_entries_view, lemma_name_position_at, name_position, Field, FieldView,
};
use vstd::prelude::*;
use vstd::utf8::encode_utf8;

verus! {

/// How one key stands to another.
#[derive(Clone, Copy, Debug, PartialEq, Eq, Structural)]
pub enum KeyOrder {
    Less,
    Equal,
    Greater,
}

/// How one number stands to another.
pub open spec fn int_order(a: int, b: int) -> KeyOrder {
    if a < b {
        KeyOrder::Less
    } else if a > b {
        KeyOrder::Greater
    } else {
        KeyOrder::Equal
    }
}

/// How one byte string stands to another, byte by byte; a proper prefix
/// comes first.
pub open spec fn bytes_order(a: Seq<u8>, b: Seq<u8>) -> KeyOrder
    decreases a.len(),
{
    if a.len() == 0 {
        if b.len() == 0 {
            KeyOrder::Equal
        } else {
            KeyOrder::Less
        }
    } else if b.len() == 0 {
        KeyOrder::Greater
    } else if a[0] < b[0] {
        KeyOrder::Less
    } else if a[0] > b[0] {
        KeyOrder::Greater
    } else {
        bytes_order(a.subrange(1, a.len() as int), b.subrange(1, b.len() as int))
    }
}

/// Whether the bit pattern of a 32-bit float is not a number.
pub open spec fn f32_nan(bits: u32) -> bool {
    bits % 0x8000_0000 > 0x7f80_0000
}

/// Whether the bit pattern of a 64-bit float is not a number.
pub open spec fn f64_nan(bits: u64) -> bool {
    bits % 0x8000_0000_0000_0000 > 0x7ff0_0000_0000_0000
}

/// A number that grows with the value of a 32-bit float which is a number.
pub open spec fn f32_rank(bits: u32) -> int {
    if bits < 0x8000_0000 {
        bits as int
    } else {
        0x8000_0000 - bits
    }
}

/// A number that grows with the value of a 64-bit float which is a number.
pub open spec fn f64_rank(bits: u64) -> int {
    if bits < 0x8000_0000_0000_0000 {
        bits as int
    } else {
        0x8000_0000_0000_0000 - bits
    }
}

/// How key `a` stands to key `b`; nothing where the two are of different
/// types, where they are maps, or where one is a float that is not a number.
#[verifier::opaque]
pub open spec fn key_order(a: FieldView, b: FieldView) -> Option<KeyOrder> {
    match (a, b) {
        (FieldView::String(x), FieldView::String(y)) => Some(
            bytes_order(encode_utf8(x), encode_utf8(y)),
        ),
        (FieldView::Byte(x), FieldView::Byte(y)) => Some(int_order(x as int, y as int)),
        (FieldView::UByte(x), FieldView::UByte(y)) => Some(int_order(x as int, y as int)),
        (FieldView::Int32(x), FieldView::Int32(y)) => Some(int_order(x as int, y as int)),
        (FieldView::UInt32(x), FieldView::UInt32(y)) => Some(int_order(x as int, y as int)),
        (FieldView::Int64(x), FieldView::Int64(y)) => Some(int_order(x as int, y as int)),
        (FieldView::UInt64(x), FieldView::UInt64(y)) => Some(int_order(x as int, y as int)),
        (FieldView::Float32(x), FieldView::Float32(y)) => {
            if f32_nan(x) || f32_nan(y) {
                None
            } else {
                Some(int_order(f32_rank(x), f32_rank(y)))
            }
        },
        (FieldView::Float64(x), FieldView::Float64(y)) => {
            if f64_nan(x) || f64_nan(y) {
                None
            } else {
                Some(int_order(f64_rank(x), f64_rank(y)))
            }
        },
        _ => None,
    }
}

/// Whether a field can be a key: it is no map and no float that is not a number.
pub open spec fn orderable(a: FieldView) -> bool {
    key_order(a, a).is_some()
}

/// Whether two fields are equal.
pub open spec fn same_value(a: FieldView, b: FieldView) -> bool
    decreases a,
{
    match (a, b) {
        (FieldView::String(x), FieldView::String(y)) => x == y,
        (FieldView::Byte(x), FieldView::Byte(y)) => x == y,
        (FieldView::UByte(x), FieldView::UByte(y)) => x == y,
        (FieldView::Int32(x), FieldView::Int32(y)) => x == y,
        (FieldView::UInt32(x), FieldView::UInt32(y)) => x == y,
        (FieldView::Int64(x), FieldView::Int64(y)) => x == y,
        (FieldView::UInt64(x), FieldView::UInt64(y)) => x == y,
        (FieldView::Float32(x), FieldView::Float32(y)) => !f32_nan(x) && !f32_nan(y) && f32_rank(x)
            == f32_rank(y),
        (FieldView::Float64(x), FieldView::Float64(y)) => !f64_nan(x) && !f64_nan(y) && f64_rank(x)
            == f64_rank(y),
        (FieldView::Mapping(x), FieldView::Mapping(y)) => {
            &&& x.len() == y.len()
            &&& forall|i: int|
                0 <= i < x.len() ==> name_position(y, (#[trigger] x[i]).0) < y.len() && same_value(
                    x[i].1,
                    y[name_position(y, x[i].0)].1,
                )
        },
        _ => false,
    }
}

/// A byte string stands equal to itself.
pub proof fn lemma_bytes_order_reflexive(a: Seq<u8>)
    ensures
        bytes_order(a, a) == KeyOrder::Equal,
    decreases a.len(),
{
    if a.len() > 0 {
        lemma_bytes_order_reflexive(a.subrange(1, a.len() as int));
    }
}

/// One byte string stands before another where the other stands behind it,
/// and equal to it where the other stands equal to it.
pub proof fn lemma_bytes_order_flip(a: Seq<u8>, b: Seq<u8>)
    ensures
        (bytes_order(a, b) == KeyOrder::Less) == (bytes_order(b, a) == KeyOrder::Greater),
        (bytes_order(a, b) == KeyOrder::Greater) == (bytes_order(b, a) == KeyOrder::Less),
        (bytes_order(a, b) == KeyOrder::Equal) == (bytes_order(b, a) == KeyOrder::Equal),
    decreases a.len(),
{
    if a.len() > 0 && b.len() > 0 && a[0] == b[0] {
        lemma_bytes_order_flip(a.subrange(1, a.len() as int), b.subrange(1, b.len() as int));
    }
}

/// What stands before or equal to a byte string that stands before or equal
/// to a third stands so to the third.
pub proof fn lemma_bytes_order_chain(a: Seq<u8>, b: Seq<u8>, c: Seq<u8>)
    ensures
        bytes_order(a, b) != KeyOrder::Greater && bytes_order(b, c) != KeyOrder::Greater
            ==> bytes_order(a, c) != KeyOrder::Greater,
        bytes_order(a, b) == KeyOrder::Equal && bytes_order(b, c) == KeyOrder::Equal
            ==> bytes_order(a, c) == KeyOrder::Equal,
        bytes_order(a, b) == KeyOrder::Less && bytes_order(b, c) != KeyOrder::Greater
            ==> bytes_order(a, c) == KeyOrder::Less,
        bytes_order(a, b) != KeyOrder::Greater && bytes_order(b, c) == KeyOrder::Less
            ==> bytes_order(a, c) == KeyOrder::Less,
    decreases a.len(),
{
    if a.len() > 0 && b.len() > 0 && c.len() > 0 && a[0] == b[0] && b[0] == c[0] {
        lemma_bytes_order_chain(
            a.subrange(1, a.len() as int),
            b.subrange(1, b.len() as int),
            c.subrange(1, c.len() as int),
        );
    }
}

/// The order of two keys that can be compared, as it is when nothing is
/// left open.
pub open spec fn key_stands(a: FieldView, b: FieldView) -> KeyOrder {
    key_order(a, b).unwrap()
}

/// Keys of one type that can be ordered can be compared.
pub proof fn lemma_key_order_defined(a: FieldView, b: FieldView)
    requires
        orderable(a),
        orderable(b),
        a.kind() == b.kind(),
    ensures
        key_order(a, b).is_some(),
{
    reveal(key_order);
}

/// Two keys that can be compared can be compared the other way round: one
/// stands before the other where the other stands behind it, and equal to
/// it where the other stands equal to it.
pub proof fn lemma_key_order_flip(a: FieldView, b: FieldView)
    requires
        key_order(a, b).is_some(),
    ensures
        key_order(b, a).is_some(),
        (key_stands(a, b) == KeyOrder::Less) == (key_stands(b, a) == KeyOrder::Greater),
        (key_stands(a, b) == KeyOrder::Greater) == (key_stands(b, a) == KeyOrder::Less),
        (key_stands(a, b) == KeyOrder::Equal) == (key_stands(b, a) == KeyOrder::Equal),
{
    reveal(key_order);
    match (a, b) {
        (FieldView::String(x), FieldView::String(y)) => {
            lemma_bytes_order_flip(encode_utf8(x), encode_utf8(y));
        },
        _ => {},
    }
}

/// Of three keys of which the first can be compared with the second and the
/// second with the third, the first can be compared with the third, and
/// what stands before or equal to a key that stands before or equal to a
/// third stands so to the third.
pub proof fn lemma_key_order_chain(a: FieldView, b: FieldView, c: FieldView)
    requires
        key_order(a, b).is_some(),
        key_order(b, c).is_some(),
    ensures
        key_order(a, c).is_some(),
        key_stands(a, b) != KeyOrder::Greater && key_stands(b, c) != KeyOrder::Greater
            ==> key_stands(a, c) != KeyOrder::Greater,
        key_stands(a, b) == KeyOrder::Equal && key_stands(b, c) == KeyOrder::Equal
            ==> key_stands(a, c) == KeyOrder::Equal,
        key_stands(a, b) == KeyOrder::Less && key_stands(b, c) != KeyOrder::Greater
            ==> key_stands(a, c) == KeyOrder::Less,
        key_stands(a, b) != KeyOrder::Greater && key_stands(b, c) == KeyOrder::Less
            ==> key_stands(a, c) == KeyOrder::Less,
{
    reveal(key_order);
    match (a, b, c) {
        (FieldView::String(x), FieldView::String(y), FieldView::String(z)) => {
            lemma_bytes_order_chain(encode_utf8(x), encode_utf8(y), encode_utf8(z));
        },
        _ => {},
    }
}

/// A key that can be ordered stands equal to itself.
pub proof fn lemma_key_order_reflexive(a: FieldView)
    requires
        orderable(a),
    ensures
        key_order(a, a) == Some(KeyOrder::Equal),
{
    reveal(key_order);
    match a {
        FieldView::String(text) => {
            lemma_bytes_order_reflexive(encode_utf8(text));
        },
        _ => {},
    }
}

/// How the bytes of `a` stand to the bytes of `b`.
pub fn bytes_compare(a: &[u8], b: &[u8]) -> (order: KeyOrder)
    ensures
        order == bytes_order(a@, b@),
{
    let mut at: usize = 0;
    assert(a@.subrange(0, a@.len() as int) =~= a@);
    assert(b@.subrange(0, b@.len() as int) =~= b@);
    while at < a.len() && at < b.len()
        invariant
            at <= a@.len(),
            at <= b@.len(),
            bytes_order(a@, b@) == bytes_order(
                a@.subrange(at as int, a@.len() as int),
                b@.subrange(at as int, b@.len() as int),
            ),
        decreases a@.len() - at,
    {
        let ghost left = a@.subrange(at as int, a@.len() as int);
        let ghost right = b@.subrange(at as int, b@.len() as int);
        assert(left[0] == a@[at as int]);
        assert(right[0] == b@[at as int]);
        if a[at] < b[at] {
            return KeyOrder::Less;
        }
        if a[at] > b[at] {
            return KeyOrder::Greater;
        }
        assert(left.subrange(1, left.len() as int) =~= a@.subrange(at + 1, a@.len() as int));
        assert(right.subrange(1, right.len() as int) =~= b@.subrange(at + 1, b@.len() as int));
        at = at + 1;
    }
    if at < b.len() {
        KeyOrder::Less
    } else if at < a.len() {
        KeyOrder::Greater
    } else {
        KeyOrder::Equal
    }
}

/// How the 32-bit float `a` stands to `b`, both given by their bits and both numbers.
fn f32_compare(a: u32, b: u32) -> (order: KeyOrder)
    requires
        !f32_nan(a),
        !f32_nan(b),
    ensures
        order == int_order(f32_rank(a), f32_rank(b)),
{
    let a_down: bool = a >= 0x8000_0000;
    let b_down: bool = b >= 0x8000_0000;
    let a_size: u32 = a % 0x8000_0000;
    let b_size: u32 = b % 0x8000_0000;
    if a_down && !b_down {
        if a_size == 0 && b_size == 0 {
            KeyOrder::Equal
        } else {
            KeyOrder::Less
        }
    } else if !a_down && b_down {
        if a_size == 0 && b_size == 0 {
            KeyOrder::Equal
        } else {
            KeyOrder::Greater
        }
    } else if a_size == b_size {
        KeyOrder::Equal
    } else if (a_size < b_size) == a_down {
        KeyOrder::Greater
    } else {
        KeyOrder::Less
    }
}

/// How the 64-bit float `a` stands to `b`, both given by their bits and both numbers.
fn f64_compare(a: u64, b: u64) -> (order: KeyOrder)
    requires
        !f64_nan(a),
        !f64_nan(b),
    ensures
        order == int_order(f64_rank(a), f64_rank(b)),
{
    let a_down: bool = a >= 0x8000_0000_0000_0000;
    let b_down: bool = b >= 0x8000_0000_0000_0000;
    let a_size: u64 = a % 0x8000_0000_0000_0000;
    let b_size: u64 = b % 0x8000_0000_0000_0000;
    if a_down && !b_down {
        if a_size == 0 && b_size == 0 {
            KeyOrder::Equal
        } else {
            KeyOrder::Less
        }
    } else if !a_down && b_down {
        if a_size == 0 && b_size == 0 {
            KeyOrder::Equal
        } else {
            KeyOrder::Greater
        }
    } else if a_size == b_size {
        KeyOrder::Equal
    } else if (a_size < b_size) == a_down {
        KeyOrder::Greater
    } else {
        KeyOrder::Less
    }
}

/// How `a` stands to `b` as numbers.
fn i64_compare(a: i64, b: i64) -> (order: KeyOrder)
    ensures
        order == int_order(a as int, b as int),
{
    if a < b {
        KeyOrder::Less
    } else if a > b {
        KeyOrder::Greater
    } else {
        KeyOrder::Equal
    }
}

/// How `a` stands to `b` as numbers.
fn u64_compare(a: u64, b: u64) -> (order: KeyOrder)
    ensures
        order == int_order(a as int, b as int),
{
    if a < b {
        KeyOrder::Less
    } else if a > b {
        KeyOrder::Greater
    } else {
        KeyOrder::Equal
    }
}

/// Whether `a` and `b` are equal.
pub fn fields_equal(a: &Field, b: &Field) -> (equal: bool)
    ensures
        equal == same_value(a@, b@),
    decreases a,
{
    match (a, b) {
        (Field::String(x), Field::String(y)) => *x == *y,
        (Field::Byte(x), Field::Byte(y)) => *x == *y,
        (Field::UByte(x), Field::UByte(y)) => *x == *y,
        (Field::Int32(x), Field::Int32(y)) => *x == *y,
        (Field::UInt32(x), Field::UInt32(y)) => *x == *y,
        (Field::Int64(x), Field::Int64(y)) => *x == *y,
        (Field::UInt64(x), Field::UInt64(y)) => *x == *y,
        (Field::Float32(x), Field::Float32(y)) => {
            if *x % 0x8000_0000 > 0x7f80_0000 || *y % 0x8000_0000 > 0x7f80_0000 {
                false
            } else {
                f32_compare(*x, *y) == KeyOrder::Equal
            }
        },
        (Field::Float64(x), Field::Float64(y)) => {
            if *x % 0x8000_0000_0000_0000 > 0x7ff0_0000_0000_0000 || *y % 0x8000_0000_0000_0000
                > 0x7ff0_0000_0000_0000 {
                false
            } else {
                f64_compare(*x, *y) == KeyOrder::Equal
            }
        },
        (Field::Mapping(x), Field::Mapping(y)) => {
            let ghost xs = entries_view(x@);
            let ghost ys = entries_view(y@);
            proof {
                lemma_entries_view(x@);
                lemma_entries_view(y@);
            }
            if x.len() != y.len() {
                return false;
            }
            let mut at: usize = 0;
            while at < x.len()
                invariant
                    at <= x@.len(),
                    *a == Field::Mapping(*x),
                    a@ == FieldView::Mapping(xs),
                    b@ == FieldView::Mapping(ys),
                    xs == entries_view(x@),
                    ys == entries_view(y@),
                    xs.len() == x@.len(),
                    ys.len() == y@.len(),
                    x@.len() == y@.len(),
                    forall|i: int|
                        0 <= i < x@.len() ==> (#[trigger] xs[i]) == (x@[i].0@, x@[i].1@),
                    forall|i: int|
                        0 <= i < y@.len() ==> (#[trigger] ys[i]) == (y@[i].0@, y@[i].1@),
                    forall|i: int|
                        0 <= i < at ==> name_position(ys, (#[trigger] xs[i]).0) < ys.len()
                            && same_value(xs[i].1, ys[name_position(ys, xs[i].0)].1),
                decreases x@.len() - at,
            {
                let ghost here = xs[at as int];
                let other = match find_entry(y, x[at].0.as_str()) {
                    Some(other) => other,
                    None => {
                        assert(!(name_position(ys, here.0) < ys.len()));
                        return false;
                    },
                };
                proof {
                    assert(decreases_to!(*x => x[at as int]));
                }
                if !fields_equal(&x[at].1, other) {
                    assert(!same_value(here.1, ys[name_position(ys, here.0)].1));
                    return false;
                }
                at = at + 1;
            }
            true
        },
        _ => false,
    }
}

impl Field {
    /// How the key `self` stands to the key `other`; nothing where the two
    /// are not of one orderable type.
    pub fn compare(&self, other: &Field) -> (order: Option<KeyOrder>)
        ensures
            order == key_order(self@, other@),
    {
        reveal(key_order);
        match (self, other) {
            (Field::String(x), Field::String(y)) => Some(
                bytes_compare(x.as_str().as_bytes(), y.as_str().as_bytes()),
            ),
            (Field::Byte(x), Field::Byte(y)) => Some(i64_compare(*x as i64, *y as i64)),
            (Field::UByte(x), Field::UByte(y)) => Some(u64_compare(*x as u64, *y as u64)),
            (Field::Int32(x), Field::Int32(y)) => Some(i64_compare(*x as i64, *y as i64)),
            (Field::UInt32(x), Field::UInt32(y)) => Some(u64_compare(*x as u64, *y as u64)),
            (Field::Int64(x), Field::Int64(y)) => Some(i64_compare(*x, *y)),
            (Field::UInt64(x), Field::UInt64(y)) => Some(u64_compare(*x, *y)),
            (Field::Float32(x), Field::Float32(y)) => {
                if *x % 0x8000_0000 > 0x7f80_0000 || *y % 0x8000_0000 > 0x7f80_0000 {
                    None
                } else {
                    Some(f32_compare(*x, *y))
                }
            },
            (Field::Float64(x), Field::Float64(y)) => {
                if *x % 0x8000_0000_0000_0000 > 0x7ff0_0000_0000_0000 || *y
                    % 0x8000_0000_0000_0000 > 0x7ff0_0000_0000_0000 {
                    None
                } else {
                    Some(f64_compare(*x, *y))
                }
            },
            _ => None,
        }
    }

    /// A copy of the field.
    pub fn duplicate(&self) -> (copy: Field)
        ensures
            copy@ == self@,
        decreases self,
    {
        match self {
            Field::String(text) => Field::String(text.clone()),
            Field::Byte(value) => Field::Byte(*value),
            Field::UByte(value) => Field::UByte(*value),
            Field::Int32(value) => Field::Int32(*value),
            Field::UInt32(value) => Field::UInt32(*value),
            Field::Int64(value) => Field::Int64(*value),
            Field::UInt64(value) => Field::UInt64(*value),
            Field::Float32(bits) => Field::Float32(*bits),
            Field::Float64(bits) => Field::Float64(*bits),
            Field::Mapping(entries) => {
                let mut copies: Vec<(String, Field)> = Vec::new();
                let mut at: usize = 0;
                proof {
                    lemma_entries_view(entries@);
                    lemma_entries_view(copies@);
                }
                while at < entries.len()
                    invariant
                        at <= entries@.len(),
                        *self == Field::Mapping(*entries),
                        copies@.len() == at,
                        forall|i: int|
                            0 <= i < at ==> (#[trigger] copies@[i]).0@ == entries@[i].0@
                                && copies@[i].1@ == entries@[i].1@,
                    decreases entries@.len() - at,
                {
                    let entry = &entries[at];
                    proof {
                        assert(decreases_to!(*self => self->Mapping_0));
                        assert(self->Mapping_0 == *entries);
                        assert(decreases_to!(*entries => entries[at as int]));
                        assert(*entry == entries[at as int]);
                        assert(decreases_to!(entries[at as int] => entries[at as int].1));
                        assert(decreases_to!(*self => entry.1));
                    }
                    let value = Field::duplicate(&entry.1);
                    copies.push((entry.0.clone(), value));
                    at = at + 1;
                }
                proof {
                    lemma_entries_view(entries@);
                    lemma_entries_view(copies@);
                    assert(entries_view(copies@) =~= entries_view(entries@));
                }
                Field::Mapping(copies)
            },
        }
    }

    /// The text of a string field.
    pub fn value_as_string(&self) -> (text: &str)
        requires
            self@ is String,
        ensures
            text@ == self@->String_0,
    {
        match self {
            Field::String(text) => text.as_str(),
            _ => vstd::pervasive::unreached(),
        }
    }

    pub fn value_as_byte(&self) -> (value: i8)
        requires
            self@ is Byte,
        ensures
            value == self@->Byte_0,
    {
        match self {
            Field::Byte(value) => *value,
            _ => vstd::pervasive::unreached(),
        }
    }

    pub fn value_as_ubyte(&self) -> (value: u8)
        requires
            self@ is UByte,
        ensures
            value == self@->UByte_0,
    {
        match self {
            Field::UByte(value) => *value,
            _ => vstd::pervasive::unreached(),
        }
    }

    pub fn value_as_int32(&self) -> (value: i32)
        requires
            self@ is Int32,
        ensures
            value == self@->Int32_0,
    {
        match self {
            Field::Int32(value) => *value,
            _ => vstd::pervasive::unreached(),
        }
    }

    pub fn value_as_uint32(&self) -> (value: u32)
        requires
            self@ is UInt32,
        ensures
            value == self@->UInt32_0,
    {
        match self {
            Field::UInt32(value) => *value,
            _ => vstd::pervasive::unreached(),
        }
    }

    pub fn value_as_int64(&self) -> (value: i64)
        requires
            self@ is Int64,
        ensures
            value == self@->Int64_0,
    {
        match self {
            Field::Int64(value) => *value,
            _ => vstd::pervasive::unreached(),
        }
    }

    pub fn value_as_uint64(&self) -> (value: u64)
        requires
            self@ is UInt64,
        ensures
            value == self@->UInt64_0,
    {
        match self {
            Field::UInt64(value) => *value,
            _ => vstd::pervasive::unreached(),
        }
    }

    /// The IEEE-754 bit pattern of a 32-bit float field.
    pub fn value_as_float32(&self) -> (bits: u32)
        requires
            self@ is Float32,
        ensures
            bits == self@->Float32_0,
    {
        match self {
            Field::Float32(bits) => *bits,
            _ => vstd::pervasive::unreached(),
        }
    }

    /// The IEEE-754 bit pattern of a 64-bit float field.
    pub fn value_as_float64(&self) -> (bits: u64)
        requires
            self@ is Float64,
        ensures
            bits == self@->Float64_0,
    {
        match self {
            Field::Float64(bits) => *bits,
            _ => vstd::pervasive::unreached(),
        }
    }

    /// The entries of a map field, in the order in which they were added.
    pub fn value_as_map(&self) -> (entries: &Vec<(String, Field)>)
        requires
            self@ is Mapping,
        ensures
            entries_view(entries@) == self@->Mapping_0,
    {
        match self {
            Field::Mapping(entries) => entries,
            _ => vstd::pervasive::unreached(),
        }
    }

    /// The value bound to `name` in a map field, if the name is bound.
    pub fn entry(&self, name: &str) -> (found: Option<&Field>)
        requires
            self@ is Mapping,
        ensures
            match found {
                Some(value) => {
                    let at = name_position(self@->Mapping_0, name@);
                    at < self@->Mapping_0.len() && value@ == self@->Mapping_0[at].1
                },
                None => name_position(self@->Mapping_0, name@) == self@->Mapping_0.len(),
            },
    {
        match self {
            Field::Mapping(entries) => {
                proof {
                    lemma_entries_view(entries@);
                }
                find_entry(entries, name)
            },
            _ => vstd::pervasive::unreached(),
        }
    }
}

/// The value bound to `name` in `entries`, if the name is bound.
pub fn find_entry<'a>(entries: &'a Vec<(String, Field)>, name: &str) -> (found: Option<&'a Field>)
    ensures
        match found {
            Some(value) => {
                let at = name_position(entries_view(entries@), name@);
                at < entries@.len() && value@ == entries_view(entries@)[at].1
            },
            None => name_position(entries_view(entries@), name@) == entries@.len(),
        },
{
    let ghost all = entries_view(entries@);
    proof {
        lemma_entries_view(entries@);
    }
    let mut at: usize = 0;
    while at < entries.len()
        invariant
            at <= entries@.len(),
            all == entries_view(entries@),
            all.len() == entries@.len(),
            forall|i: int|
                0 <= i < entries@.len() ==> (#[trigger] all[i]) == (entries@[i].0@, entries@[i].1@),
            forall|i: int| 0 <= i < at ==> (#[trigger] all[i]).0 != name@,
        decreases entries@.len() - at,
    {
        if str_equal(entries[at].0.as_str(), name) {
            proof {
                lemma_name_position_at(all, name@, at as int);
            }
            return Some(&entries[at].1);
        }
        at = at + 1;
    }
    proof {
        lemma_name_position_at(all, name@, at as int);
    }
    None
}

/// Whether two string slices hold the same text.
pub fn str_equal(a: &str, b: &str) -> (equal: bool)
    ensures
        equal == (a@ == b@),
{
    proof {
        vstd::utf8::encode_utf8_decode_utf8(a@);
        vstd::utf8::encode_utf8_decode_utf8(b@);
    }
    let left = a.as_bytes();
    let right = b.as_bytes();
    assert(a@ == b@ ==> left@ == right@);
    if left.len() != right.len() {
        return false;
    }
    let mut at: usize = 0;
    while at < left.len()
        invariant
            at <= left@.len(),
            left@.len() == right@.len(),
            a@ == b@ ==> left@ == right@,
            left@ == encode_utf8(a@),
            right@ == encode_utf8(b@),
            forall|i: int| 0 <= i < at ==> left@[i] == right@[i],
        decreases left@.len() - at,
    {
        if left[at] != right[at] {
            return false;
        }
        at = at + 1;
    }
    proof {
        assert(left@ =~= right@);
        vstd::utf8::encode_utf8_decode_utf8(a@);
        vstd::utf8::encode_utf8_decode_utf8(b@);
    }
    true
}

impl PartialEq for Field {
    fn eq(&self, other: &Field) -> (equal: bool) {
        fields_equal(self, other)
    }
}

impl vstd::std_specs::cmp::PartialEqSpecImpl for Field {
    open spec fn obeys_eq_spec() -> bool {
        true
    }

    open spec fn eq_spec(&self, other: &Field) -> bool {
        same_value(self@, other@)
    }
}

} // verus!
