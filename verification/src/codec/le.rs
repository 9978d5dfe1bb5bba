//! Little-endian fixed-width integers as byte sequences.

use vstd::prelude::*;

verus! {

/// `256^width`: the number of values that `width` bytes can hold.
pub open spec fn radix_pow(width: nat) -> nat
    decreases width,
{
    if width == 0 {
        1
    } else {
        256 * radix_pow((width - 1) as nat)
    }
}

/// The `width` low-order base-256 digits of `value`, least significant first.
pub open spec fn le_bytes(value: nat, width: nat) -> Seq<u8>
    decreases width,
{
    if width == 0 {
        Seq::<u8>::empty()
    } else {
        seq![(value % 256) as u8] + le_bytes(value / 256, (width - 1) as nat)
    }
}

/// The number whose base-256 digits, least significant first, are `bytes`.
pub open spec fn le_value(bytes: Seq<u8>) -> nat
    decreases bytes.len(),
{
    if bytes.len() == 0 {
        0
    } else {
        (bytes[0] as nat) + 256 * le_value(bytes.subrange(1, bytes.len() as int))
    }
}

/// Two's-complement image of a signed value in `width` bytes.
pub open spec fn twos(value: int, width: nat) -> nat {
    if value >= 0 {
        value as nat
    } else {
        (value + radix_pow(width)) as nat
    }
}

/// The signed value whose two's-complement image in `width` bytes is `image`.
pub open spec fn untwos(image: nat, width: nat) -> int {
    if 2 * image < radix_pow(width) {
        image as int
    } else {
        image - radix_pow(width)
    }
}

pub proof fn lemma_radix_pow_values()
    ensures
        radix_pow(0) == 1,
        radix_pow(1) == 0x100,
        radix_pow(2) == 0x1_0000,
        radix_pow(4) == 0x1_0000_0000,
        radix_pow(8) == 0x1_0000_0000_0000_0000,
        radix_pow(16) == 0x1_0000_0000_0000_0000_0000_0000_0000_0000,
{
    reveal_with_fuel(radix_pow, 17);
}

pub proof fn lemma_radix_pow_monotonic(a: nat, b: nat)
    requires
        a <= b,
    ensures
        0 < radix_pow(a) <= radix_pow(b),
    decreases b,
{
    if b == 0 {
    } else if a == b {
        lemma_radix_pow_monotonic((a - 1) as nat, (b - 1) as nat);
    } else {
        lemma_radix_pow_monotonic(a, (b - 1) as nat);
    }
}

pub proof fn lemma_le_bytes_len(value: nat, width: nat)
    ensures
        le_bytes(value, width).len() == width,
    decreases width,
{
    if width > 0 {
        lemma_le_bytes_len(value / 256, (width - 1) as nat);
    }
}

pub proof fn lemma_le_value_bound(bytes: Seq<u8>)
    ensures
        le_value(bytes) < radix_pow(bytes.len()),
    decreases bytes.len(),
{
    if bytes.len() > 0 {
        lemma_le_value_bound(bytes.subrange(1, bytes.len() as int));
    }
}

/// Decoding what was encoded gives the value back when it fits the width.
pub proof fn lemma_le_value_of_bytes(value: nat, width: nat)
    requires
        value < radix_pow(width),
    ensures
        le_value(le_bytes(value, width)) == value,
    decreases width,
{
    if width > 0 {
        let rest = le_bytes(value / 256, (width - 1) as nat);
        let all = le_bytes(value, width);
        lemma_le_bytes_len(value / 256, (width - 1) as nat);
        assert(all.subrange(1, all.len() as int) =~= rest);
        lemma_le_value_of_bytes(value / 256, (width - 1) as nat);
    }
}

/// Encoding what was decoded gives the bytes back.
pub proof fn lemma_le_bytes_of_value(bytes: Seq<u8>)
    ensures
        le_bytes(le_value(bytes), bytes.len()) == bytes,
    decreases bytes.len(),
{
    if bytes.len() > 0 {
        let tail = bytes.subrange(1, bytes.len() as int);
        lemma_le_bytes_of_value(tail);
        let value = le_value(bytes);
        assert(value % 256 == bytes[0] as nat);
        assert(value / 256 == le_value(tail));
        assert(le_bytes(value, bytes.len()) =~= bytes);
    }
}

pub proof fn lemma_twos_roundtrip(value: int, width: nat)
    requires
        -(radix_pow(width) as int) <= 2 * value < radix_pow(width),
    ensures
        twos(value, width) < radix_pow(width),
        untwos(twos(value, width), width) == value,
{
}

pub proof fn lemma_untwos_roundtrip(image: nat, width: nat)
    requires
        image < radix_pow(width),
    ensures
        -(radix_pow(width) as int) <= 2 * untwos(image, width) < radix_pow(width),
        twos(untwos(image, width), width) == image,
{
}

/// Appends the `width` little-endian bytes of `value` to `out`.
pub fn put_le(out: &mut Vec<u8>, value: u128, width: usize)
    requires
        width <= 16,
    ensures
        final(out)@ == old(out)@ + le_bytes(value as nat, width as nat),
{
    let mut rest: u128 = value;
    let mut done: usize = 0;
    while done < width
        invariant
            done <= width,
            out@ + le_bytes(rest as nat, (width - done) as nat) == old(out)@ + le_bytes(
                value as nat,
                width as nat,
            ),
        decreases width - done,
    {
        let digit: u8 = (rest % 256) as u8;
        proof {
            let tail = le_bytes((rest / 256) as nat, (width - done - 1) as nat);
            assert(le_bytes(rest as nat, (width - done) as nat) == seq![digit] + tail);
            assert(out@.push(digit) + tail =~= out@ + (seq![digit] + tail));
        }
        out.push(digit);
        rest = rest / 256;
        done = done + 1;
    }
    assert(out@ + Seq::<u8>::empty() =~= out@);
}

/// Reads the little-endian number held in `from[start .. start + width]`.
pub fn get_le(from: &[u8], start: usize, width: usize) -> (value: u128)
    requires
        width <= 16,
        start + width <= from@.len(),
    ensures
        value as nat == le_value(from@.subrange(start as int, start + width)),
{
    let mut value: u128 = 0;
    let mut left: usize = width;
    let total: usize = from.len();
    let ghost end = start + width;
    while left > 0
        invariant
            left <= width,
            width <= 16,
            end == start + width,
            end <= total,
            total == from@.len(),
            value as nat == le_value(from@.subrange(start + left, end)),
        decreases left,
    {
        let digit: u8 = from[start + left - 1];
        proof {
            let longer = from@.subrange(start + left - 1, end);
            let shorter = from@.subrange(start + left, end);
            assert(longer.subrange(1, longer.len() as int) =~= shorter);
            lemma_le_value_bound(shorter);
            lemma_radix_pow_monotonic((width - left + 1) as nat, 16);
            lemma_radix_pow_values();
        }
        value = value * 256 + digit as u128;
        left = left - 1;
    }
    value
}

/// Whether `width` bytes can hold the signed `value` in two's complement.
pub open spec fn fits_signed(value: int, width: nat) -> bool {
    -(radix_pow(width) as int) <= 2 * value < radix_pow(width)
}

/// `256^width` for the widths below sixteen that integers come in.
fn radix(width: usize) -> (modulus: u128)
    requires
        width == 1 || width == 2 || width == 4 || width == 8,
    ensures
        modulus == radix_pow(width as nat),
{
    proof {
        lemma_radix_pow_values();
    }
    if width == 1 {
        0x100
    } else if width == 2 {
        0x1_0000
    } else if width == 4 {
        0x1_0000_0000
    } else {
        0x1_0000_0000_0000_0000
    }
}

/// The two's-complement image of `value` in `width` bytes.
pub fn signed_image(value: i128, width: usize) -> (image: u128)
    requires
        width == 1 || width == 2 || width == 4 || width == 8 || width == 16,
        fits_signed(value as int, width as nat),
    ensures
        image as nat == twos(value as int, width as nat),
        (image as nat) < radix_pow(width as nat),
{
    proof {
        lemma_radix_pow_values();
    }
    if value >= 0 {
        value as u128
    } else if width == 16 {
        let above_min: u128 = (value - i128::MIN) as u128;
        above_min + 0x8000_0000_0000_0000_0000_0000_0000_0000u128
    } else {
        let modulus: u128 = radix(width);
        (value + modulus as i128) as u128
    }
}

/// The signed value whose two's-complement image in `width` bytes is `image`.
pub fn signed_value(image: u128, width: usize) -> (value: i128)
    requires
        width == 1 || width == 2 || width == 4 || width == 8 || width == 16,
        (image as nat) < radix_pow(width as nat),
    ensures
        value as int == untwos(image as nat, width as nat),
        fits_signed(value as int, width as nat),
{
    proof {
        lemma_radix_pow_values();
    }
    if width == 16 {
        if image < 0x8000_0000_0000_0000_0000_0000_0000_0000u128 {
            image as i128
        } else {
            let above_min: u128 = image - 0x8000_0000_0000_0000_0000_0000_0000_0000u128;
            above_min as i128 + i128::MIN
        }
    } else {
        let modulus: u128 = radix(width);
        if image < modulus / 2 {
            image as i128
        } else {
            image as i128 - modulus as i128
        }
    }
}

/// Appends `bytes` to `out`.
pub fn put_bytes(out: &mut Vec<u8>, bytes: &[u8])
    ensures
        final(out)@ == old(out)@ + bytes@,
{
    out.extend_from_slice(bytes);
}

/// A copy of `from[start .. end]`.
pub fn copy_range(from: &[u8], start: usize, end: usize) -> (bytes: Vec<u8>)
    requires
        start <= end <= from@.len(),
    ensures
        bytes@ == from@.subrange(start as int, end as int),
{
    let mut bytes: Vec<u8> = Vec::new();
    let mut at: usize = start;
    while at < end
        invariant
            start <= at <= end,
            end <= from@.len(),
            bytes@ == from@.subrange(start as int, at as int),
        decreases end - at,
    {
        bytes.push(from[at]);
        at = at + 1;
        assert(bytes@ =~= from@.subrange(start as int, at as int));
    }
    bytes
}

} // verus!
