//! Bytes of the MIX computer: six bits each, kept in the low bits of a `u8`.
use vstd::prelude::*;

verus! {

/// A MIX byte. Its value is at most 63; the two high bits of `bits` are unused.
pub struct MixByte {
    pub bits: u8,
}

/// The sign of a MIX word.
#[allow(non_camel_case_types)]
pub enum MixSign {
    PLUS,
    MINUS,
}

/// A MIX word: five bytes and a sign.
pub struct MixWord {
    pub bytes: [MixByte; 5],
    pub sign: MixSign,
}

/// What the bit at `index` is worth: bit 0 is the highest of the six, bit 5 the lowest.
pub open spec fn place_value(index: u8) -> int {
    if index == 0 {
        32
    } else if index == 1 {
        16
    } else if index == 2 {
        8
    } else if index == 3 {
        4
    } else if index == 4 {
        2
    } else {
        1
    }
}

/// The value of two bytes read as one number, the first byte being the high
/// one (big endian, as in the book): the first byte moves up six bits and the
/// second fills the low six.
pub fn doublebyte_value(byte0: &MixByte, byte1: &MixByte) -> (value: u16)
    ensures
        value == ((byte0.bits as u16) << 6) | (byte1.bits as u16),
        byte1.bits <= 63 ==> value == 64 * byte0.bits + byte1.bits,
{
    let high: u16 = byte0.bits as u16;
    let low: u16 = byte1.bits as u16;
    assert(low <= 63 ==> ((high << 6) | low) == 64 * high + low) by (bit_vector)
        requires
            high <= 255,
    ;
    let mut result: u16 = high;
    result = (result << 6) | low;
    result
}

/// The bit at `index` of a byte, as 0 or 1. Index 0 is the highest of the six
/// bits and index 5 the lowest.
pub fn get_bit_at_index(byte: &MixByte, index: u8) -> (bit: u8)
    requires
        index <= 5,
        byte.bits <= 63,
    ensures
        bit == (byte.bits as int / place_value(index)) % 2,
{
    let bits: u8 = byte.bits;
    assert(0b00000001u8 & bits == (bits / 1) % 2) by (bit_vector);
    assert((0b00000010u8 & bits) >> 1 == (bits / 2) % 2) by (bit_vector);
    assert((0b00000100u8 & bits) >> 2 == (bits / 4) % 2) by (bit_vector);
    assert((0b00001000u8 & bits) >> 3 == (bits / 8) % 2) by (bit_vector);
    assert((0b00010000u8 & bits) >> 4 == (bits / 16) % 2) by (bit_vector);
    assert((0b00100000u8 & bits) >> 5 == (bits / 32) % 2) by (bit_vector);
    if index == 5 {
        0b00000001 & bits
    } else if index == 4 {
        (0b00000010 & bits) >> 1
    } else if index == 3 {
        (0b00000100 & bits) >> 2
    } else if index == 2 {
        (0b00001000 & bits) >> 3
    } else if index == 1 {
        (0b00010000 & bits) >> 4
    } else {
        (0b00100000 & bits) >> 5
    }
}

/// The MIX byte with the given value.
pub fn byte(value: u8) -> (made: MixByte)
    requires
        value <= 63,
    ensures
        made.bits == value,
{
    MixByte { bits: value }
}

/// The six bits of a byte give its value back, each bit weighed by its place.
pub proof fn lemma_bits_give_value(bits: u8)
    requires
        bits <= 63,
    ensures
        bits == 32 * ((bits as int / place_value(0)) % 2) + 16 * ((bits as int / place_value(1))
            % 2) + 8 * ((bits as int / place_value(2)) % 2) + 4 * ((bits as int / place_value(3))
            % 2) + 2 * ((bits as int / place_value(4)) % 2) + (bits as int / place_value(5)) % 2,
{
}

/// Steps down a uniformly drawn `u8` to a MIX byte below 63.
pub fn byte_from_sample(sample: u8) -> (made: MixByte)
    ensures
        made.bits == sample % 63,
{
    byte(sample % 63)
}

/// `rand::random::<u8>()`: a `u8` drawn from the thread's random number
/// generator. Nothing is claimed of the value drawn.
#[verifier::external_body]
fn random_u8() -> (sample: u8) {
    rand::random::<u8>()
}

/// A MIX byte drawn at random. The value 63 is never drawn.
pub fn random_byte() -> (made: MixByte)
    ensures
        made.bits < 63,
{
    byte_from_sample(random_u8())
}

} // verus!
