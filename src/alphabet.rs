//! The fixed 32-entry symbol alphabet: space, `a`-`z`, `.`, `!`, `?`, then the
//! two control symbols that switch number mode and escape the next symbol.
use vstd::prelude::*;

verus! {

/// Symbol that toggles number mode; after an escape it announces a raw literal.
pub const NUM: u8 = 30;

/// Symbol that escapes the next symbol (uppercase, newline or raw literal).
pub const ESC: u8 = 31;

/// Symbol of the space character; after an escape it stands for a newline.
pub const SPACE: u8 = 0;

/// Position of `c` in the alphabet; the control entries stand as `1` and `2`.
pub open spec fn index_of(c: char) -> Option<u8> {
    if c == ' ' {
        Some(0u8)
    } else if 'a' <= c && c <= 'z' {
        Some((c as u32 - 96) as u8)
    } else if c == '.' {
        Some(27u8)
    } else if c == '!' {
        Some(28u8)
    } else if c == '?' {
        Some(29u8)
    } else if c == '1' {
        Some(30u8)
    } else if c == '2' {
        Some(31u8)
    } else {
        None
    }
}

/// The character at index `i`; the control entries print as `1` and `2`.
pub open spec fn char_of(i: u8) -> char {
    if i == 0 {
        ' '
    } else if i <= 26 {
        ((i + 96) as u8) as char
    } else if i == 27 {
        '.'
    } else if i == 28 {
        '!'
    } else if i == 29 {
        '?'
    } else if i == 30 {
        '1'
    } else {
        '2'
    }
}

/// The whole alphabet as an ordered sequence.
pub open spec fn alphabet() -> Seq<char> {
    Seq::new(32, |i: int| char_of(i as u8))
}

/// Every character of the alphabet maps to an index whose entry is that
/// character, and every index maps back to itself; only the control entries
/// stand at 30 and 31, so the 32 entries are distinct.
pub proof fn lemma_index_char_inverse(c: char, i: u8)
    ensures
        index_of(c) matches Some(j) ==> j < 32 && char_of(j) == c,
        index_of(c) matches Some(j) ==> (j >= 30 <==> (c == '1' || c == '2')),
        i < 32 ==> index_of(char_of(i)) == Some(i),
        i < 32 ==> alphabet()[i as int] == char_of(i),
{
}

/// Index of a character of the alphabet, or `None` for any other character.
pub fn char_to_index(c: char) -> (r: Option<u8>)
    ensures
        r == index_of(c),
{
    if c == ' ' {
        Some(0)
    } else if 'a' <= c && c <= 'z' {
        Some((c as u32 - 96) as u8)
    } else if c == '.' {
        Some(27)
    } else if c == '!' {
        Some(28)
    } else if c == '?' {
        Some(29)
    } else if c == '1' {
        Some(30)
    } else if c == '2' {
        Some(31)
    } else {
        None
    }
}

/// Character of an alphabet index.
pub fn index_to_char(i: u8) -> (r: char)
    requires
        i < 32,
    ensures
        r == char_of(i),
{
    if i == 0 {
        ' '
    } else if i <= 26 {
        (i + 96) as char
    } else if i == 27 {
        '.'
    } else if i == 28 {
        '!'
    } else if i == 29 {
        '?'
    } else if i == 30 {
        '1'
    } else {
        '2'
    }
}

} // verus!
