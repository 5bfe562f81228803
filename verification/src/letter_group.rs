//! Classifies the letters of a board into its four sides.

use crate::letter_set::ascii_seq_set;
use crate::letter_set::lemma_letter_set_members;
use crate::letter_set::LetterSet;
use vstd::prelude::*;

verus! {

/// The possible classifications of a letter against a board.
///
/// - `Invalid`: the letter does not appear on any of the four sides.
/// - `Group1` through `Group4`: the letter belongs to that side.
#[derive(Debug, Clone, Copy, PartialEq, Eq, Structural)]
pub enum LetterGroup {
    /// A letter that does not belong to any side of the board.
    Invalid,
    /// A letter from the first side.
    Group1,
    /// A letter from the second side.
    Group2,
    /// A letter from the third side.
    Group3,
    /// A letter from the fourth side.
    Group4,
}

/// Two letter groups may stand next to each other within a word exactly
/// when neither is `Invalid` and they differ.
pub open spec fn spec_can_be_adjacent(a: LetterGroup, b: LetterGroup) -> bool {
    a != LetterGroup::Invalid && b != LetterGroup::Invalid && a != b
}

impl LetterGroup {
    /// Determines whether this group can be adjacent to `other` within a
    /// word: `Invalid` can be adjacent to nothing, and every other group can
    /// be adjacent only to a different group.
    pub fn can_be_adjacent_to(self, other: Self) -> (r: bool)
        ensures
            r == spec_can_be_adjacent(self, other),
    {
        !matches!(
            (self, other),
            (_, LetterGroup::Invalid)
                | (LetterGroup::Invalid, _)
                | (LetterGroup::Group1, LetterGroup::Group1)
                | (LetterGroup::Group2, LetterGroup::Group2)
                | (LetterGroup::Group3, LetterGroup::Group3)
                | (LetterGroup::Group4, LetterGroup::Group4)
        )
    }
}

/// A per-board classification table: the four 3-letter sides of a board,
/// each kept as a `LetterSet`. A letter is classified into the first side
/// that holds it, or `Invalid` if none does.
#[derive(Debug, Clone, Copy)]
pub struct LetterGrouping {
    sides: [LetterSet; 4],
}

impl LetterGrouping {
    /// The set of letter numbers on side `k` of the board.
    pub closed spec fn side_set(self, k: int) -> Set<int> {
        self.sides[k]@
    }

    /// The classification of a letter number against this board.
    pub open spec fn spec_group_of(self, letter: int) -> LetterGroup {
        if self.side_set(0).contains(letter) {
            LetterGroup::Group1
        } else if self.side_set(1).contains(letter) {
            LetterGroup::Group2
        } else if self.side_set(2).contains(letter) {
            LetterGroup::Group3
        } else if self.side_set(3).contains(letter) {
            LetterGroup::Group4
        } else {
            LetterGroup::Invalid
        }
    }

    /// Builds the classification table for a board of exactly twelve
    /// distinct uppercase ASCII letters, read as four consecutive sides of
    /// three letters each.
    pub fn new(board: &[u8]) -> (r: Self)
        requires
            board@.len() == 12,
            forall|k: int| 0 <= k < 12 ==> 65 <= #[trigger] board@[k] <= 90,
            forall|k1: int, k2: int| 0 <= k1 < k2 < 12 ==> board@[k1] != board@[k2],
        ensures
            forall|k: int|
                0 <= k < 4 ==> r.side_set(k) == ascii_seq_set(
                    #[trigger] board@.subrange(3 * k, 3 * k + 3),
                ),
    {
        let side1 = LetterSet::from_ascii_slice(slice_part(board, 0));
        let side2 = LetterSet::from_ascii_slice(slice_part(board, 3));
        let side3 = LetterSet::from_ascii_slice(slice_part(board, 6));
        let side4 = LetterSet::from_ascii_slice(slice_part(board, 9));
        LetterGrouping { sides: [side1, side2, side3, side4] }
    }

    /// Classifies a letter number into the side it belongs to, or `Invalid`.
    pub fn group_of(&self, letter: u8) -> (r: LetterGroup)
        ensures
            r == self.spec_group_of(letter as int),
    {
        broadcast use lemma_letter_set_members;

        if letter >= 26 {
            return LetterGroup::Invalid;
        }
        if self.sides[0].has(letter) {
            LetterGroup::Group1
        } else if self.sides[1].has(letter) {
            LetterGroup::Group2
        } else if self.sides[2].has(letter) {
            LetterGroup::Group3
        } else if self.sides[3].has(letter) {
            LetterGroup::Group4
        } else {
            LetterGroup::Invalid
        }
    }
}

/// Borrows the three bytes of one side of a 12-letter board.
fn slice_part(board: &[u8], start: usize) -> (r: &[u8])
    requires
        board@.len() == 12,
        start + 3 <= 12,
    ensures
        r@ == board@.subrange(start as int, start + 3),
{
    vstd::slice::slice_subrange(board, start, start + 3)
}

} // verus!
