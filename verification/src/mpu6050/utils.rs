//! Decoding of the sensor's 16-bit two's-complement readings.

use vstd::prelude::*;

verus! {

/// The 16-bit word made of a high and a low byte.
pub open spec fn word(high: u8, low: u8) -> int {
    high * 256 + low
}

/// The signed value of a big-endian 16-bit two's-complement reading.
pub open spec fn word_2c(high: u8, low: u8) -> int {
    if word(high, low) >= 0x8000 {
        word(high, low) - 0x10000
    } else {
        word(high, low)
    }
}

/// Decodes `byte[0]` (high) and `byte[1]` (low) as a signed 16-bit value.
pub fn read_word_2c(byte: &[u8]) -> (value: i32)
    requires
        byte@.len() >= 2,
    ensures
        value == word_2c(byte@[0], byte@[1]),
{
    let high: i32 = byte[0] as i32;
    let low: i32 = byte[1] as i32;
    let mut word: i32 = high * 256 + low;
    if word >= 0x8000 {
        word = -((65535 - word) + 1);
    }
    word
}

/// Decodes the X, Y and Z readings of a three-axis block: six bytes, each
/// axis high byte first.
pub fn read_rot_words(buf: &[u8]) -> (xyz: (i32, i32, i32))
    requires
        buf@.len() >= 6,
    ensures
        xyz.0 == word_2c(buf@[0], buf@[1]),
        xyz.1 == word_2c(buf@[2], buf@[3]),
        xyz.2 == word_2c(buf@[4], buf@[5]),
{
    let x = read_word_2c(&[buf[0], buf[1]]);
    let y = read_word_2c(&[buf[2], buf[3]]);
    let z = read_word_2c(&[buf[4], buf[5]]);
    (x, y, z)
}

/// Every decoded reading lies in the signed 16-bit range.
pub proof fn lemma_word_2c_range(high: u8, low: u8)
    ensures
        -0x8000 <= word_2c(high, low) < 0x8000,
{
}

/// Decoding is one to one: two byte pairs that decode alike are the same pair.
pub proof fn lemma_word_2c_injective(h1: u8, l1: u8, h2: u8, l2: u8)
    requires
        word_2c(h1, l1) == word_2c(h2, l2),
    ensures
        h1 == h2,
        l1 == l2,
{
}

/// Every signed 16-bit value is the decoding of its two's-complement bytes.
pub proof fn lemma_word_2c_encodes(v: int)
    requires
        -0x8000 <= v < 0x8000,
    ensures
        word_2c(
            ((if v < 0 { v + 0x10000 } else { v }) / 256) as u8,
            ((if v < 0 { v + 0x10000 } else { v }) % 256) as u8,
        ) == v,
{
}

} // verus!
