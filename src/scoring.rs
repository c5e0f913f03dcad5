use vstd::prelude::*;

verus! {

/// Point value of a letter tile, by upper-case letter.
pub open spec fn value_of(c: char) -> Option<u8> {
    if c == 'R' || c == 'A' || c == 'E' || c == 'I' || c == 'S' || c == 'T' || c == 'O' {
        Some(1u8)
    } else if c == 'L' || c == 'U' || c == 'D' || c == 'N' {
        Some(2u8)
    } else if c == 'H' || c == 'G' || c == 'Y' {
        Some(3u8)
    } else if c == 'C' || c == 'B' || c == 'F' || c == 'P' || c == 'W' || c == 'M' {
        Some(4u8)
    } else if c == 'K' || c == 'V' {
        Some(5u8)
    } else if c == 'X' {
        Some(8u8)
    } else if c == 'Q' || c == 'Z' || c == 'J' {
        Some(10u8)
    } else {
        None
    }
}

/// ASCII upper-casing of one character; other characters are unchanged.
pub open spec fn upper_char(c: char) -> char {
    if 'a' <= c && c <= 'z' {
        ((c as u32 - 32) as u8) as char
    } else {
        c
    }
}

/// The point value of a letter, case-insensitively; `None` for anything
/// that is not an ASCII letter.
pub fn letter_value(ch: char) -> (r: Option<u8>)
    ensures
        r == value_of(upper_char(ch)),
{
    let up = if 'a' <= ch && ch <= 'z' {
        ((ch as u32 - 32) as u8) as char
    } else {
        ch
    };
    match up {
        'R' | 'A' | 'E' | 'I' | 'S' | 'T' | 'O' => Some(1),
        'L' | 'U' | 'D' | 'N' => Some(2),
        'H' | 'G' | 'Y' => Some(3),
        'C' | 'B' | 'F' | 'P' | 'W' | 'M' => Some(4),
        'K' | 'V' => Some(5),
        'X' => Some(8),
        'Q' | 'Z' | 'J' => Some(10),
        _ => None,
    }
}

} // verus!
