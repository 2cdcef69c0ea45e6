//! The printable-ASCII subset used for string extraction, and the
//! byte-level uppercase map applied to extracted characters.

use vstd::prelude::*;

verus! {

/// The subset of ASCII bytes that string extraction treats as readable:
/// space, `!#$+,-./`, the digits, `<=>?`, `A`-`Z`, `_`, and `a`-`z`.
pub open spec fn is_readable_byte(b: u8) -> bool {
    b == 32 || b == 33 || b == 35 || b == 36
        || (43 <= b && b <= 57)
        || (60 <= b && b <= 63)
        || (65 <= b && b <= 90)
        || b == 95
        || (97 <= b && b <= 122)
}

/// The uppercased variant of a byte: ASCII lowercase letters map to the
/// corresponding uppercase letter, every other byte is unchanged.
pub open spec fn upper_byte(b: u8) -> u8 {
    if 97 <= b && b <= 122 {
        (b - 32) as u8
    } else {
        b
    }
}

/// A readable byte stays readable after uppercasing, and is never an ASCII
/// lowercase letter afterwards.
pub proof fn lemma_upper_byte_readable(b: u8)
    requires
        is_readable_byte(b),
    ensures
        is_readable_byte(upper_byte(b)),
        !(97 <= upper_byte(b) <= 122),
{
}

/// Whether `b` is in the readable subset.
pub fn byte_is_readable(b: u8) -> (r: bool)
    ensures
        r == is_readable_byte(b),
{
    b == 32 || b == 33 || b == 35 || b == 36
        || (43 <= b && b <= 57)
        || (60 <= b && b <= 63)
        || (65 <= b && b <= 90)
        || b == 95
        || (97 <= b && b <= 122)
}

/// The uppercased variant of `b`.
pub fn byte_to_upper(b: u8) -> (r: u8)
    ensures
        r == upper_byte(b),
{
    if 97 <= b && b <= 122 {
        b - 32
    } else {
        b
    }
}

} // verus!
