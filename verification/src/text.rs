//! Recognises byte strings that encode text.

use vstd::prelude::*;
use vstd::utf8::codepoint_width_2;
use vstd::utf8::codepoint_width_3;
use vstd::utf8::codepoint_width_4;
use vstd::utf8::is_continuation_byte;
use vstd::utf8::length_of_first_scalar;
use vstd::utf8::pop_first_scalar;
use vstd::utf8::valid_first_scalar;
use vstd::utf8::valid_utf8;

verus! {

/// Tells whether the byte can follow the first one of a character.
fn is_continuation(byte: u8) -> (continuation: bool)
    ensures
        continuation == is_continuation_byte(byte),
{
    0x80 <= byte && byte <= 0xbf
}

/// The code point of two bytes.
fn codepoint_of_2(byte1: u8, byte2: u8) -> (codepoint: u32)
    ensures
        codepoint == codepoint_width_2(byte1, byte2),
{
    (((byte1 & 0x1f) as u32) << 6) | ((byte2 & 0x3f) as u32)
}

/// The code point of three bytes.
fn codepoint_of_3(byte1: u8, byte2: u8, byte3: u8) -> (codepoint: u32)
    ensures
        codepoint == codepoint_width_3(byte1, byte2, byte3),
{
    (((byte1 & 0x0f) as u32) << 12) | (((byte2 & 0x3f) as u32) << 6) | ((byte3 & 0x3f) as u32)
}

/// The code point of four bytes.
fn codepoint_of_4(byte1: u8, byte2: u8, byte3: u8, byte4: u8) -> (codepoint: u32)
    ensures
        codepoint == codepoint_width_4(byte1, byte2, byte3, byte4),
{
    (((byte1 & 0x07) as u32) << 18) | (((byte2 & 0x3f) as u32) << 12) | (((byte3 & 0x3f) as u32)
        << 6) | ((byte4 & 0x3f) as u32)
}

/// The number of bytes of the character that begins at `start`, if one does.
fn character_width(bytes: &[u8], start: usize) -> (width: Option<usize>)
    requires
        start < bytes@.len(),
    ensures
        ({
            let rest = bytes@.skip(start as int);
            match width {
                Some(width) => {
                    &&& valid_first_scalar(rest)
                    &&& width == length_of_first_scalar(rest)
                    &&& 0 < width <= rest.len()
                },
                None => !valid_first_scalar(rest),
            }
        }),
{
    let ghost rest = bytes@.skip(start as int);
    let left: usize = bytes.len() - start;
    let first: u8 = bytes[start];
    assert(first == rest[0]);
    if first <= 0x7f {
        assert(first & 0x7f <= 0x7f) by (bit_vector);
        return Some(1);
    }
    if first < 0xc0 || left < 2 {
        return None;
    }
    let second: u8 = bytes[start + 1];
    assert(second == rest[1]);
    if !is_continuation(second) {
        return None;
    }
    if first <= 0xdf {
        let codepoint: u32 = codepoint_of_2(first, second);
        assert(((((first & 0x1f) as u32) << 6) | ((second & 0x3f) as u32)) < 0x800)
            by (bit_vector);
        return if 0x80 <= codepoint {
            Some(2)
        } else {
            None
        };
    }
    if left < 3 {
        return None;
    }
    let third: u8 = bytes[start + 2];
    assert(third == rest[2]);
    if !is_continuation(third) {
        return None;
    }
    if first <= 0xef {
        let codepoint: u32 = codepoint_of_3(first, second, third);
        return if 0x800 <= codepoint && !(0xd800 <= codepoint && codepoint <= 0xdfff) {
            Some(3)
        } else {
            None
        };
    }
    if first > 0xf7 || left < 4 {
        return None;
    }
    let fourth: u8 = bytes[start + 3];
    assert(fourth == rest[3]);
    if !is_continuation(fourth) {
        return None;
    }
    let codepoint: u32 = codepoint_of_4(first, second, third, fourth);
    if 0x10000 <= codepoint && codepoint <= 0x10ffff {
        Some(4)
    } else {
        None
    }
}

/// Tells whether the bytes are text in UTF-8.
pub fn is_utf8(bytes: &[u8]) -> (valid: bool)
    ensures
        valid == valid_utf8(bytes@),
{
    let mut start: usize = 0;
    assert(bytes@.skip(0) =~= bytes@);
    while start < bytes.len()
        invariant
            start <= bytes@.len(),
            valid_utf8(bytes@) == valid_utf8(bytes@.skip(start as int)),
        decreases bytes@.len() - start,
    {
        let ghost rest = bytes@.skip(start as int);
        match character_width(bytes, start) {
            Some(width) => {
                assert(pop_first_scalar(rest) =~= bytes@.skip(start + width));
                start = start + width;
            },
            None => {
                return false;
            },
        }
    }
    true
}

} // verus!
