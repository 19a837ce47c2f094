//! The embedded 5 × 8 bitmap font.
//!
//! Each glyph is a 5-wide, 8-tall binary matrix, packed row-major into the
//! low 40 bits of a word: bit `5·row + column` is set where the glyph has a
//! pixel. The set covers the ASCII letters in both cases, the digits, the
//! space, and `.` `,` `'` `"` `!` `?`; any other character has no glyph.

use vstd::prelude::*;

verus! {

/// The packed bit matrix of the glyph for `c`, if `c` has one.
pub open spec fn glyph_bits(c: char) -> Option<u64> {
    match c {
        '0' => Some(0x3a33ae62e),
        '1' => Some(0x7c84210c4),
        '2' => Some(0x7e226422e),
        '3' => Some(0x3a306422e),
        '4' => Some(0x211f4a988),
        '5' => Some(0x3a307843f),
        '6' => Some(0x3a317844c),
        '7' => Some(0x10844423f),
        '8' => Some(0x3a317462e),
        '9' => Some(0x1910f462e),
        'a' => Some(0x7a3e83800),
        'b' => Some(0x3e319b421),
        'c' => Some(0x3a218b800),
        'd' => Some(0x7a31cda10),
        'e' => Some(0x783f8b800),
        'f' => Some(0x84217c5c),
        'g' => Some(0x7c3d18f800),
        'h' => Some(0x46319b421),
        'i' => Some(0x7c8421c04),
        'j' => Some(0x7461087010),
        'k' => Some(0x45274c421),
        'l' => Some(0x608421087),
        'm' => Some(0x4635aac00),
        'n' => Some(0x46318bc00),
        'o' => Some(0x3a318b800),
        'p' => Some(0x85f19b400),
        'q' => Some(0x843d1cd800),
        'r' => Some(0x4219b400),
        's' => Some(0x3e0e0f800),
        't' => Some(0x608427c84),
        'u' => Some(0x7a318c400),
        'v' => Some(0x11518c400),
        'w' => Some(0x7ab58c400),
        'x' => Some(0x454454400),
        'y' => Some(0x7c3d18c400),
        'z' => Some(0x7c4447c00),
        'A' => Some(0x4631fc62e),
        'B' => Some(0x3e317c62f),
        'C' => Some(0x3a210862e),
        'D' => Some(0x3e318c62f),
        'E' => Some(0x7c213843f),
        'F' => Some(0x4213843f),
        'G' => Some(0x3a31c862e),
        'H' => Some(0x4631fc631),
        'I' => Some(0x7c842109f),
        'J' => Some(0x3a3084210),
        'K' => Some(0x452519531),
        'L' => Some(0x7c2108421),
        'M' => Some(0x4631ad771),
        'N' => Some(0x4631cd671),
        'O' => Some(0x3a318c62e),
        'P' => Some(0x4217c62f),
        'Q' => Some(0x59318c62e),
        'R' => Some(0x46317c62f),
        'S' => Some(0x3a307062e),
        'T' => Some(0x10842109f),
        'U' => Some(0x3a318c631),
        'V' => Some(0x114a8c631),
        'W' => Some(0x4775ac631),
        'X' => Some(0x462a22a31),
        'Y' => Some(0x108422a31),
        'Z' => Some(0x7c222221f),
        ' ' => Some(0x0),
        '.' => Some(0x108000000),
        ',' => Some(0x1108000000),
        '\'' => Some(0x1084),
        '"' => Some(0x294a),
        '!' => Some(0x100421084),
        '?' => Some(0x10044422e),
        _ => None,
    }
}

/// Whether the glyph for `c` has a pixel at column gx, row gy.
pub open spec fn glyph_bit(c: char, gx: int, gy: int) -> bool {
    &&& glyph_bits(c) is Some
    &&& (glyph_bits(c)->Some_0 >> ((gy * 5 + gx) as u64)) & 1u64 == 1u64
}

/// Looks up the packed glyph of `c`.
pub fn glyph_lookup(c: char) -> (r: Option<u64>)
    ensures
        r == glyph_bits(c),
{
    match c {
        '0' => Some(0x3a33ae62e),
        '1' => Some(0x7c84210c4),
        '2' => Some(0x7e226422e),
        '3' => Some(0x3a306422e),
        '4' => Some(0x211f4a988),
        '5' => Some(0x3a307843f),
        '6' => Some(0x3a317844c),
        '7' => Some(0x10844423f),
        '8' => Some(0x3a317462e),
        '9' => Some(0x1910f462e),
        'a' => Some(0x7a3e83800),
        'b' => Some(0x3e319b421),
        'c' => Some(0x3a218b800),
        'd' => Some(0x7a31cda10),
        'e' => Some(0x783f8b800),
        'f' => Some(0x84217c5c),
        'g' => Some(0x7c3d18f800),
        'h' => Some(0x46319b421),
        'i' => Some(0x7c8421c04),
        'j' => Some(0x7461087010),
        'k' => Some(0x45274c421),
        'l' => Some(0x608421087),
        'm' => Some(0x4635aac00),
        'n' => Some(0x46318bc00),
        'o' => Some(0x3a318b800),
        'p' => Some(0x85f19b400),
        'q' => Some(0x843d1cd800),
        'r' => Some(0x4219b400),
        's' => Some(0x3e0e0f800),
        't' => Some(0x608427c84),
        'u' => Some(0x7a318c400),
        'v' => Some(0x11518c400),
        'w' => Some(0x7ab58c400),
        'x' => Some(0x454454400),
        'y' => Some(0x7c3d18c400),
        'z' => Some(0x7c4447c00),
        'A' => Some(0x4631fc62e),
        'B' => Some(0x3e317c62f),
        'C' => Some(0x3a210862e),
        'D' => Some(0x3e318c62f),
        'E' => Some(0x7c213843f),
        'F' => Some(0x4213843f),
        'G' => Some(0x3a31c862e),
        'H' => Some(0x4631fc631),
        'I' => Some(0x7c842109f),
        'J' => Some(0x3a3084210),
        'K' => Some(0x452519531),
        'L' => Some(0x7c2108421),
        'M' => Some(0x4631ad771),
        'N' => Some(0x4631cd671),
        'O' => Some(0x3a318c62e),
        'P' => Some(0x4217c62f),
        'Q' => Some(0x59318c62e),
        'R' => Some(0x46317c62f),
        'S' => Some(0x3a307062e),
        'T' => Some(0x10842109f),
        'U' => Some(0x3a318c631),
        'V' => Some(0x114a8c631),
        'W' => Some(0x4775ac631),
        'X' => Some(0x462a22a31),
        'Y' => Some(0x108422a31),
        'Z' => Some(0x7c222221f),
        ' ' => Some(0x0),
        '.' => Some(0x108000000),
        ',' => Some(0x1108000000),
        '\'' => Some(0x1084),
        '"' => Some(0x294a),
        '!' => Some(0x100421084),
        '?' => Some(0x10044422e),
        _ => None,
    }
}

} // verus!
