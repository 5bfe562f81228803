//! A verified core for the "Letter Boxed" word puzzle: a compact bitset over
//! the 26 uppercase letters, a fixed-capacity sequence of letters with
//! word-boundary metadata, a per-board letter classifier, and the backtracking
//! search that chains dictionary words into complete 12-letter solutions.

use vstd::prelude::*;

pub mod letter_group;
pub mod letter_sequence;
pub mod letter_set;
pub mod solution;
pub mod solver;

pub use letter_group::LetterGroup;
pub use letter_group::LetterGrouping;
pub use letter_sequence::LetterSequence;
pub use letter_set::LetterSet;
pub use solution::Solution;
pub use solver::Strategy;

verus! {

/// Compresses an uppercase ASCII byte to its 0-25 letter number
/// by subtracting the value of `65`.
pub fn compress_letter(ascii_byte: u8) -> (r: u8)
    requires
        65 <= ascii_byte <= 90,
    ensures
        r == ascii_byte - 65,
        r < 26,
{
    ascii_byte - 65
}

/// Decompresses a 0-25 letter number back to its uppercase ASCII byte
/// by adding the value of `65`.
pub fn decompress_letter(letter: u8) -> (r: u8)
    requires
        letter < 26,
    ensures
        r == letter + 65,
        65 <= r <= 90,
{
    letter + 65
}

} // verus!
