//! Word-boundary positions within a chain of letters, encoded as bits.

use vstd::prelude::*;
use vstd::std_specs::bits::axiom_u16_leading_zeros;
use vstd::std_specs::bits::u16_leading_zeros;

verus! {

/// Encodes word boundaries for a chain of letters as individual bits in a
/// single `u16`. A set bit at index `i` means the letter at index `i` is the
/// final letter of a word; that letter is also the first letter of the next
/// word, if any letters follow.
///
/// The view of a `Solution` is the mathematical set of marked indices.
#[derive(Clone, Copy, Debug, Default, PartialEq, Eq, Structural)]
pub struct Solution(u16);

/// The set of indices in `0 <= l < n` whose bit is set in `bits`.
spec fn marks_below(bits: u16, n: int) -> Set<int> {
    Set::new(|l: int| 0 <= l < n && (bits >> (l as u16)) & 1u16 == 1u16)
}

impl View for Solution {
    type V = Set<int>;

    closed spec fn view(&self) -> Set<int> {
        marks_below(self.0, 16)
    }
}

impl Solution {
    /// The index of the final letter in a complete 12-letter chain.
    pub const FINAL_LETTER_INDEX: usize = 11;

    /// Returns a new `Solution` with no word boundaries.
    pub fn empty() -> (r: Self)
        ensures
            r@ == Set::<int>::empty(),
    {
        let r = Solution(0);
        proof {
            assert(forall|l: u16| l < 16 ==> #[trigger] ((0u16 >> l) & 1u16) == 0u16)
                by (bit_vector);
            assert(r@ =~= Set::<int>::empty());
        }
        r
    }

    /// Returns `true` if no word boundaries exist in this solution.
    pub fn is_empty(self) -> (r: bool)
        ensures
            r == (self@ == Set::<int>::empty()),
    {
        proof {
            if self.0 != 0 {
                let bits = self.0;
                let lz = u16_leading_zeros(bits);
                axiom_u16_leading_zeros(bits);
                let j = ((15 - lz) as u16) as u16;
                assert((bits >> j) & 1u16 != 0u16);
                assert((bits >> j) & 1u16 == 1u16) by (bit_vector)
                    requires (bits >> j) & 1u16 != 0u16;
                assert(self@.contains(15 - lz));
            } else {
                assert(forall|l: u16| l < 16 ==> #[trigger] ((0u16 >> l) & 1u16) == 0u16)
                    by (bit_vector);
                assert(self@ =~= Set::<int>::empty());
            }
        }
        self.0 == 0
    }

    /// Returns the total number of word boundaries in this `Solution`.
    ///
    /// A complete chain has only 12 letters and each word has at least 3,
    /// so the count may never exceed 5.
    pub fn word_count(self) -> (r: u32)
        requires
            self@.len() <= 5,
        ensures
            r == self@.len(),
    {
        let mut count: u32 = 0;
        let mut i: u8 = 0;
        proof {
            assert(marks_below(self.0, 0) =~= Set::empty());
        }
        while i < 16
            invariant
                i <= 16,
                marks_below(self.0, i as int).finite(),
                count == marks_below(self.0, i as int).len(),
                count <= i,
            decreases 16 - i,
        {
            proof {
                let bits = self.0;
                let j = i as u16;
                assert((bits & (1u16 << j) > 0) <==> ((bits >> j) & 1u16 == 1u16)) by (bit_vector)
                    requires j < 16;
                if (self.0 >> (i as u16)) & 1u16 == 1u16 {
                    assert(marks_below(self.0, i + 1) =~= marks_below(self.0, i as int).insert(
                        i as int,
                    ));
                } else {
                    assert(marks_below(self.0, i + 1) =~= marks_below(self.0, i as int));
                }
            }
            if self.0 & (1u16 << i) > 0 {
                count += 1;
            }
            i += 1;
        }
        count
    }

    /// Returns a new `Solution` with a boundary bit set at the given
    /// `index`, which must not already be set.
    pub fn mark(self, index: usize) -> (r: Self)
        requires
            index < 16,
            !self@.contains(index as int),
        ensures
            r@ == self@.insert(index as int),
    {
        let r = Solution(self.0 | (1u16 << index));
        proof {
            let b = self.0;
            let j = index as u16;
            assert(forall|l: u16|
                l < 16 ==> ((#[trigger] (((b | (1u16 << j)) >> l) & 1u16) == 1u16) <==> (((b >> l)
                    & 1u16 == 1u16) || l == j))) by (bit_vector)
                requires j < 16;
            assert(r@ =~= self@.insert(index as int));
        }
        r
    }

    /// Returns a new `Solution` with the boundary bit at the given `index`
    /// cleared. The index must be marked, unless the solution is empty.
    pub fn unmark(self, index: usize) -> (r: Self)
        requires
            index < 16,
            self@ == Set::<int>::empty() || self@.contains(index as int),
        ensures
            r@ == self@.remove(index as int),
    {
        let r = Solution(self.0 & !(1u16 << index));
        proof {
            let b = self.0;
            let j = index as u16;
            assert(forall|l: u16|
                l < 16 ==> ((#[trigger] (((b & !(1u16 << j)) >> l) & 1u16) == 1u16) <==> (((b
                    >> l) & 1u16 == 1u16) && l != j))) by (bit_vector)
                requires j < 16;
            assert(r@ =~= self@.remove(index as int));
        }
        r
    }

    /// Extends the current final word by moving the highest boundary bit one
    /// position rightward; on an empty solution, marks index 0.
    pub fn extend_top_word(self) -> (r: Self)
        requires
            forall|m: int| self@.contains(m) ==> m < 15,
        ensures
            self@ == Set::<int>::empty() ==> r@ == Set::<int>::empty().insert(0),
            self@ != Set::<int>::empty() ==> exists|t: int|
                #[trigger] self@.contains(t) && (forall|m: int| self@.contains(m) ==> m <= t)
                    && r@ == self@.remove(t).insert(t + 1),
    {
        let bits = self.0;
        let lz = bits.leading_zeros();
        proof {
            axiom_u16_leading_zeros(bits);
            if bits != 0 {
                let top = 15 - u16_leading_zeros(bits);
                let j = top as u16;
                assert((bits >> j) & 1u16 != 0u16);
                assert((bits >> j) & 1u16 == 1u16) by (bit_vector)
                    requires (bits >> j) & 1u16 != 0u16;
                assert(self@.contains(top));
                // a mark at 15 is excluded, so at least one leading bit is zero
                assert(u16_leading_zeros(bits) >= 1);
                assert forall|m: int| self@.contains(m) implies m <= top by {
                    if m > top {
                        assert((bits >> (m as u16)) & 1u16 == 0u16);
                    }
                }
            } else {
                assert(forall|l: u16| l < 16 ==> #[trigger] ((0u16 >> l) & 1u16) == 0u16)
                    by (bit_vector);
                assert(self@ =~= Set::<int>::empty());
            }
        }
        let index = (16 - lz) as usize;
        if index == 0 {
            let r = self.unmark(0).mark(0);
            proof {
                assert(r@ =~= Set::<int>::empty().insert(0));
            }
            r
        } else {
            proof {
                let top = (index - 1) as int;
                assert(self@.contains(top));
                assert(!self@.remove(top).contains(top + 1));
            }
            let r = self.unmark(index - 1).mark(index);
            proof {
                let top = (index - 1) as int;
                assert(self@.contains(top) && (forall|m: int| self@.contains(m) ==> m <= top)
                    && r@ == self@.remove(top).insert(top + 1));
            }
            r
        }
    }

    /// Returns the `[start, end)` spans of letters that make up each word,
    /// in order. Each span runs from the start of a word to its boundary,
    /// inclusive; each word after the first starts at the boundary letter of
    /// the word before it.
    pub fn word_ranges(self) -> (r: Vec<(usize, usize)>)
        requires
            forall|m: int| self@.contains(m) ==> m <= 11,
        ensures
            r@ == spec_word_ranges(self@),
    {
        let mut r: Vec<(usize, usize)> = Vec::new();
        let mut start: usize = 0;
        let mut i: u8 = 0;
        while i < 16
            invariant
                i <= 16,
                start <= i,
                start < 16,
                spec_word_ranges(self@) == r@ + ranges_from(self@, i as int, start as int),
            decreases 16 - i,
        {
            proof {
                let bits = self.0;
                let j = i as u16;
                assert((bits & (1u16 << j) > 0) <==> ((bits >> j) & 1u16 == 1u16)) by (bit_vector)
                    requires j < 16;
            }
            if self.0 & (1u16 << i) > 0 {
                let ghost r0 = r@;
                r.push((start, (i + 1) as usize));
                proof {
                    assert(self@.contains(i as int));
                    assert(ranges_from(self@, i as int, start as int) == seq![
                        (start, (i + 1) as usize),
                    ] + ranges_from(self@, i as int + 1, i as int));
                    assert(r@ =~= r0.push((start, (i + 1) as usize)));
                    assert(spec_word_ranges(self@) =~= r@ + ranges_from(
                        self@,
                        i as int + 1,
                        i as int,
                    ));
                }
                start = i as usize;
            } else {
                proof {
                    assert(!self@.contains(i as int));
                    assert(ranges_from(self@, i as int, start as int) == ranges_from(
                        self@,
                        i as int + 1,
                        start as int,
                    ));
                }
            }
            i += 1;
        }
        proof {
            assert(ranges_from(self@, 16, start as int) == Seq::<(usize, usize)>::empty());
            assert(spec_word_ranges(self@) =~= r@);
        }
        r
    }
}

/// The word spans determined by the boundary marks at or above index `i`,
/// where the word under construction begins at index `start`: each marked
/// index closes the span begun at `start` and opens the next at itself.
pub open spec fn ranges_from(marks: Set<int>, i: int, start: int) -> Seq<(usize, usize)>
    decreases 16 - i,
{
    if i < 0 || i >= 16 {
        Seq::empty()
    } else if marks.contains(i) {
        seq![(start as usize, (i + 1) as usize)] + ranges_from(marks, i + 1, i)
    } else {
        ranges_from(marks, i + 1, start)
    }
}

/// The word spans of a complete set of boundary marks: scanning from index
/// 0, with the first word beginning at index 0.
pub open spec fn spec_word_ranges(marks: Set<int>) -> Seq<(usize, usize)> {
    ranges_from(marks, 0, 0)
}

/// The marked indices at or above `i`.
spec fn marks_above(marks: Set<int>, i: int) -> Set<int> {
    Set::new(|m: int| i <= m < 16 && marks.contains(m))
}

/// The spans produced from the marks at or above `i` are one per mark.
proof fn lemma_ranges_from_len(marks: Set<int>, i: int, start: int)
    requires
        0 <= i,
    ensures
        marks_above(marks, i).finite(),
        ranges_from(marks, i, start).len() == marks_above(marks, i).len(),
    decreases 16 - i,
{
    if i >= 16 {
        assert(marks_above(marks, i) =~= Set::empty());
    } else if marks.contains(i) {
        lemma_ranges_from_len(marks, i + 1, i);
        assert(marks_above(marks, i) =~= marks_above(marks, i + 1).insert(i));
    } else {
        lemma_ranges_from_len(marks, i + 1, start);
        assert(marks_above(marks, i) =~= marks_above(marks, i + 1));
    }
}

/// A set of boundary marks within a chain yields exactly one word span per
/// mark.
pub proof fn lemma_word_ranges_count(marks: Set<int>)
    requires
        forall|m: int| #[trigger] marks.contains(m) ==> 0 <= m < 16,
    ensures
        marks.finite(),
        spec_word_ranges(marks).len() == marks.len(),
{
    lemma_ranges_from_len(marks, 0, 0);
    assert(marks_above(marks, 0) =~= marks);
}

/// Every span produced from marks below `bound` is nonempty, begins no
/// earlier than `start`, and ends by `bound`.
pub proof fn lemma_ranges_bounds(marks: Set<int>, i: int, start: int, bound: int)
    requires
        0 <= start <= i,
        forall|m: int| #[trigger] marks.contains(m) ==> m < bound,
    ensures
        forall|j: int|
            0 <= j < ranges_from(marks, i, start).len() ==> start <= (
            #[trigger] ranges_from(marks, i, start)[j]).0 < ranges_from(marks, i, start)[j].1
                <= bound,
    decreases 16 - i,
{
    if i < 0 || i >= 16 {
    } else if marks.contains(i) {
        lemma_ranges_bounds(marks, i + 1, i, bound);
        assert(ranges_from(marks, i, start) == seq![(start as usize, (i + 1) as usize)]
            + ranges_from(marks, i + 1, i));
        assert forall|j: int|
            0 <= j < ranges_from(marks, i, start).len() implies start <= (
            #[trigger] ranges_from(marks, i, start)[j]).0 < ranges_from(marks, i, start)[j].1
                <= bound by {
            if j > 0 {
                assert(ranges_from(marks, i, start)[j] == ranges_from(marks, i + 1, i)[j - 1]);
                assert(i <= ranges_from(marks, i + 1, i)[j - 1].0);
            } else {
                assert(ranges_from(marks, i, start)[0] == (start as usize, (i + 1) as usize));
                assert(i < bound);
            }
        }
    } else {
        lemma_ranges_bounds(marks, i + 1, start, bound);
        assert(ranges_from(marks, i, start) == ranges_from(marks, i + 1, start));
    }
}


} // verus!
