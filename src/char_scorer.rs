use vstd::prelude::*;

verus! {

/// Code point of the first letter of the alphabet, 'а'.
pub const MIN_LETTER_CODE: u32 = 0x430;

/// Number of slots in a per-letter table: 'а'..='я', one unused code point, then 'ё'.
pub const ALPHABET_SIZE: usize = 34;

/// Point value of each letter, indexed by its offset from 'а'.
/// The slot between 'я' and 'ё' is no letter and holds a marker value.
pub const LOOKUP_TABLE: [i8; 34] = [
    1, 3, 1, 3, 2, 1, 5, 5, 1, 4, 2, 2, 2, 1, 1, 2, 1, 1, 1, 2, 10, 5, 5, 5, 8, 10, 10, 4, 3, 8, 8,
    3, 127, 3,
];

/// A letter of the alphabet: 'а' through 'я', or 'ё'.
pub open spec fn is_letter(c: char) -> bool {
    ('а' <= c && c <= 'я') || c == 'ё'
}

/// Slot of a letter in a per-letter table.
pub open spec fn letter_index(c: char) -> int {
    c as int - MIN_LETTER_CODE as int
}

/// Point value stored in slot `k`.
pub open spec fn index_points(k: int) -> int {
    LOOKUP_TABLE@[k] as int
}

/// Point value of a letter.
pub open spec fn letter_points(c: char) -> int {
    index_points(letter_index(c))
}

/// Point value of a letter.
pub fn get_char_score(c: char) -> (r: i32)
    requires
        is_letter(c),
    ensures
        r == letter_points(c),
        1 <= r <= 10,
{
    let k = (c as u32 - MIN_LETTER_CODE) as usize;
    assert(k < 34);
    LOOKUP_TABLE[k] as i32
}

} // verus!
