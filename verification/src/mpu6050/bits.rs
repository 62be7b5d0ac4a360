//! Reading and writing bit fields inside one register byte.

use vstd::prelude::*;

verus! {

/// Position of the lowest bit of a field whose highest bit is `bit_start`
/// and which is `length` bits wide (a field that would reach below bit 0
/// starts at bit 0).
pub open spec fn field_shift(bit_start: u8, length: u8) -> int {
    if bit_start < length {
        0
    } else {
        bit_start - length + 1
    }
}

/// The low `length` bits set.
pub open spec fn low_mask(length: u8) -> u8 {
    ((1u8 << length) - 1) as u8
}

/// The bits of a field of `length` bits that starts at bit `shift`.
pub open spec fn field_mask(shift: u8, length: u8) -> u8 {
    low_mask(length) << shift
}

/// The value held by the field of `length` bits starting at bit `shift`.
pub open spec fn field_value(byte: u8, shift: u8, length: u8) -> u8 {
    (byte >> shift) & low_mask(length)
}

/// `byte` with the field of `length` bits starting at `shift` replaced by
/// the low bits of `data`; every other bit kept.
pub open spec fn with_field(byte: u8, shift: u8, length: u8, data: u8) -> u8 {
    (byte & !field_mask(shift, length)) | ((data << shift) & field_mask(shift, length))
}

/// What `set_bits` makes of `byte`.
pub open spec fn spec_set_bits(byte: u8, bit_start: u8, length: u8, data: u8) -> u8 {
    with_field(byte, field_shift(bit_start, length) as u8, length, data)
}

/// The arguments that `set_bits` accepts: a field narrower than a byte whose
/// lowest bit lies inside the byte.
pub open spec fn valid_field(bit_start: u8, length: u8) -> bool {
    length < 8 && field_shift(bit_start, length) < 8
}

/// Writes `data` into the field of `byte` whose highest bit is `bit_start`
/// and which is `length` bits wide, keeping all other bits.
pub fn set_bits(byte: &mut u8, bit_start: u8, length: u8, data: u8)
    requires
        valid_field(bit_start, length),
    ensures
        *final(byte) == spec_set_bits(*old(byte), bit_start, length, data),
{
    let mask_shift: u8 = if bit_start < length {
        0
    } else {
        bit_start - length + 1
    };
    assert(1u8 << length >= 1) by (bit_vector)
        requires
            length < 8,
    ;
    let mask: u8 = ((1u8 << length) - 1) << mask_shift;
    let shifted: u8 = (data << mask_shift) & mask;
    *byte = (*byte & !mask) | shifted;
}

/// Writing a field leaves every bit outside the field as it was.
pub proof fn lemma_set_bits_keeps_other_bits(byte: u8, bit_start: u8, length: u8, data: u8)
    requires
        valid_field(bit_start, length),
    ensures
        spec_set_bits(byte, bit_start, length, data) & !field_mask(
            field_shift(bit_start, length) as u8,
            length,
        ) == byte & !field_mask(field_shift(bit_start, length) as u8, length),
{
    let s = field_shift(bit_start, length) as u8;
    assert(with_field(byte, s, length, data) & !field_mask(s, length) == byte & !field_mask(
        s,
        length,
    )) by (bit_vector);
}

/// A field that lies inside the byte reads back the low bits of what was
/// written to it.
pub proof fn lemma_set_bits_reads_back(byte: u8, bit_start: u8, length: u8, data: u8)
    requires
        valid_field(bit_start, length),
        bit_start < 8,
    ensures
        field_value(
            spec_set_bits(byte, bit_start, length, data),
            field_shift(bit_start, length) as u8,
            length,
        ) == data & low_mask(length),
{
    let s = field_shift(bit_start, length) as u8;
    assert(s + length <= 8);
    assert(field_value(with_field(byte, s, length, data), s, length) == data & low_mask(length))
        by (bit_vector)
        requires
            length < 8,
            s + length <= 8,
    ;
}

/// Of two writes to the same field only the last one counts.
pub proof fn lemma_set_bits_last_write_wins(
    byte: u8,
    bit_start: u8,
    length: u8,
    first: u8,
    second: u8,
)
    requires
        valid_field(bit_start, length),
    ensures
        spec_set_bits(spec_set_bits(byte, bit_start, length, first), bit_start, length, second)
            == spec_set_bits(byte, bit_start, length, second),
{
    let s = field_shift(bit_start, length) as u8;
    assert(with_field(with_field(byte, s, length, first), s, length, second) == with_field(
        byte,
        s,
        length,
        second,
    )) by (bit_vector);
}

/// Writing a field the value it already holds changes nothing.
pub proof fn lemma_set_bits_same_value(byte: u8, bit_start: u8, length: u8)
    requires
        valid_field(bit_start, length),
        bit_start < 8,
    ensures
        spec_set_bits(
            byte,
            bit_start,
            length,
            field_value(byte, field_shift(bit_start, length) as u8, length),
        ) == byte,
{
    let s = field_shift(bit_start, length) as u8;
    assert(s + length <= 8);
    assert(with_field(byte, s, length, field_value(byte, s, length)) == byte) by (bit_vector)
        requires
            length < 8,
            s + length <= 8,
    ;
}

/// The field a write reaches is bits `bit_start - length + 1 ..= bit_start`:
/// writing all ones into it on a clear byte sets exactly those bits.
pub proof fn lemma_set_bits_field_position(bit_start: u8, length: u8)
    requires
        bit_start < 8,
        1 <= length < 8,
        length <= bit_start + 1,
    ensures
        spec_set_bits(0, bit_start, length, ((1u8 << length) - 1) as u8) == (((1u8 << length) - 1) as u8)
            << ((bit_start + 1 - length) as u8),
{
    let s = (bit_start + 1 - length) as u8;
    assert(field_shift(bit_start, length) == s);
    assert(with_field(0, s, length, low_mask(length)) == low_mask(length) << s) by (bit_vector);
}

/// A one-bit field is the bit `bit_start` itself: writing `data` there sets
/// that bit to `data`'s lowest bit and keeps every other bit.
pub proof fn lemma_set_bits_single_bit(byte: u8, bit_start: u8, data: u8)
    requires
        bit_start < 8,
    ensures
        spec_set_bits(byte, bit_start, 1, data) == (byte & !(1u8 << bit_start)) | ((data & 1)
            << bit_start),
{
    assert(field_shift(bit_start, 1) == bit_start);
    assert(with_field(byte, bit_start, 1, data) == (byte & !(1u8 << bit_start)) | ((data & 1)
        << bit_start)) by (bit_vector)
        requires
            bit_start < 8,
    ;
}

/// Bit by bit: for a field that lies inside the byte, bit `i` of the result
/// is bit `i - (bit_start + 1 - length)` of `data` when `i` lies in
/// `bit_start + 1 - length ..= bit_start`, and bit `i` of the old byte
/// otherwise.
pub proof fn lemma_set_bits_each_bit(byte: u8, bit_start: u8, length: u8, data: u8)
    requires
        bit_start < 8,
        length < 8,
        length <= bit_start + 1,
    ensures
        forall|i: u8|
            i < 8 ==> (#[trigger] ((spec_set_bits(byte, bit_start, length, data) >> i) & 1)) == if (
            bit_start + 1 - length) as u8 <= i && i <= bit_start {
                (data >> ((i - (bit_start + 1 - length)) as u8)) & 1
            } else {
                (byte >> i) & 1
            },
{
    let s = (bit_start + 1 - length) as u8;
    assert(field_shift(bit_start, length) == s);
    let r = with_field(byte, s, length, data);
    assert(forall|i: u8|
        i < 8 ==> (#[trigger] ((r >> i) & 1)) == if s <= i && i <= bit_start {
            (data >> ((i - s) as u8)) & 1
        } else {
            (byte >> i) & 1
        }) by (bit_vector)
        requires
            r == with_field(byte, s, length, data),
            bit_start < 8,
            length < 8,
            s + length == bit_start + 1,
    ;
}

} // verus!
