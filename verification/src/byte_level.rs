//! GPT-2 byte-level encoding: maps each byte 0x00..0xFF to a unique
//! Unicode character so that BPE merges operate on displayable strings.
//!
//! Printable ASCII and most of the Latin-1 supplement map to themselves;
//! the remaining 68 bytes (0x00-0x20, 0x7F-0xA0, 0xAD) map, in ascending
//! byte order, to U+0100 .. U+0143.

use vstd::prelude::*;

verus! {

/// Whether a byte maps to its own code point.
pub open spec fn maps_to_self(b: u8) -> bool {
    (0x21 <= b && b <= 0x7E) || (0xA1 <= b && b <= 0xAC) || 0xAE <= b
}

/// The code point the byte-level map assigns to byte `b`.
pub open spec fn byte_level_cp(b: u8) -> int {
    if maps_to_self(b) {
        b as int
    } else if b <= 0x20 {
        0x100 + b
    } else if 0x7F <= b && b <= 0xA0 {
        0x100 + 33 + (b - 0x7F)
    } else {
        0x100 + 67int
    }
}

/// Relies on char::from_u32: returns Some exactly for values that are
/// Unicode scalar values, and the resulting char casts back to its input.
#[verifier::external_body]
fn char_from_u32(v: u32) -> (r: Option<char>)
    ensures
        r.is_some() == (v < 0xD800 || (0xE000 <= v && v <= 0x10FFFF)),
        r.is_some() ==> r.unwrap() as u32 == v,
{
    char::from_u32(v)
}

/// The byte-to-character table of the byte-level pre-tokenizer step:
/// entry `b` is the character whose code point is `byte_level_cp(b)`.
pub fn byte_to_char_table() -> (table: Vec<char>)
    ensures
        table@.len() == 256,
        forall|b: int| 0 <= b < 256 ==> (#[trigger] table@[b]) as u32 == byte_level_cp(b as u8),
{
    let mut table: Vec<char> = Vec::new();
    let mut b: usize = 0;
    let mut n: u32 = 0;
    while b < 256
        invariant
            b <= 256,
            table@.len() == b,
            n <= 68,
            b < 256 ==> n as int == (if b <= 0x21 {
                b as int
            } else if b <= 0x7F {
                0x21int
            } else if b <= 0xA1 {
                0x21 + (b - 0x7F)
            } else if b <= 0xAD {
                0x43int
            } else {
                0x44int
            }),
            forall|i: int| 0 <= i < b ==> (#[trigger] table@[i]) as u32 == byte_level_cp(i as u8),
        decreases 256 - b,
    {
        let bb = b as u8;
        let cp: u32 = if (0x21 <= bb && bb <= 0x7E) || (0xA1 <= bb && bb <= 0xAC) || 0xAE <= bb {
            bb as u32
        } else {
            let c = 0x100 + n;
            n += 1;
            c
        };
        let ch = match char_from_u32(cp) {
            Some(c) => c,
            None => {
                proof {
                    assert(false);
                }
                ' '
            },
        };
        table.push(ch);
        b += 1;
    }
    table
}

/// Encodes raw bytes into the byte-level Unicode representation.
pub fn encode_bytes(input: &[u8], table: &Vec<char>) -> (out: Vec<char>)
    requires
        table@.len() == 256,
    ensures
        out@.len() == input@.len(),
        forall|i: int| 0 <= i < input@.len() ==> out@[i] == table@[input@[i] as int],
{
    let mut out: Vec<char> = Vec::new();
    let mut i: usize = 0;
    while i < input.len()
        invariant
            i <= input@.len(),
            out@.len() == i,
            table@.len() == 256,
            forall|j: int| 0 <= j < i ==> out@[j] == table@[input@[j] as int],
        decreases input@.len() - i,
    {
        out.push(table[input[i] as usize]);
        i += 1;
    }
    out
}

} // verus!
