//! The central value type: a fixed-capacity sequence of up to 12 distinct
//! letters, carrying its letter membership as a [`LetterSet`] and its
//! internal word boundaries as a [`Solution`].

use crate::letter_group::spec_can_be_adjacent;
use crate::letter_group::LetterGrouping;
use crate::letter_set::LetterSet;
use crate::solution::lemma_ranges_bounds;
use crate::solution::spec_word_ranges;
use crate::solution::Solution;
use vstd::prelude::*;
use vstd::string::StrSliceExecFns;
use vstd::string::StringExecFns;

verus! {

/// The mathematical model of a [`LetterSequence`]: the ordered letter
/// numbers it holds and the set of word-boundary indices.
#[verifier::ext_equal]
pub ghost struct ChainView {
    /// The letter numbers (0-25), in order of appending.
    pub letters: Seq<u8>,
    /// The indices of letters that end a word.
    pub marks: Set<int>,
}

/// The set of letter numbers occurring in a sequence of letter numbers.
pub open spec fn seq_letter_set(s: Seq<u8>) -> Set<int> {
    Set::new(|l: int| 0 <= l < 26 && s.contains(l as u8))
}

/// Well-formedness of a [`ChainView`]: at most 12 letters, every letter a
/// number below 26, all letters distinct, and every word boundary on a
/// letter of the sequence.
pub open spec fn chain_wf(m: ChainView) -> bool {
    &&& m.letters.len() <= 12
    &&& forall|k: int| 0 <= k < m.letters.len() ==> #[trigger] m.letters[k] < 26
    &&& forall|k1: int, k2: int|
        0 <= k1 < k2 < m.letters.len() ==> m.letters[k1] != m.letters[k2]
    &&& forall|b: int| #[trigger] m.marks.contains(b) ==> 0 <= b < m.letters.len()
}

/// `LetterSequence` is a fixed-capacity vector of up to 12 distinct
/// uppercase letters, stored in compressed form (0 for 'A' through 25 for
/// 'Z'), together with the [`LetterSet`] of its membership and the
/// [`Solution`] recording where words end inside it.
///
/// A `LetterSequence` is a plain value: every operation returns a new
/// sequence and leaves the original intact, so partial chains stay valid
/// for sibling branches of a search.
#[derive(Clone, Copy, Debug)]
pub struct LetterSequence {
    letters: [u8; 12],
    count: usize,
    letter_set: LetterSet,
    solution: Solution,
}

impl View for LetterSequence {
    type V = ChainView;

    closed spec fn view(&self) -> ChainView {
        ChainView { letters: self.letters@.take(self.count as int), marks: self.solution@ }
    }
}

impl LetterSequence {
    /// The maximum count of letters that a `LetterSequence` can hold.
    pub const CAPACITY: usize = 12;

    /// The representation invariant: the count fits the capacity, the
    /// letter-set field matches the letters actually stored, and the model
    /// is well formed.
    #[verifier::type_invariant]
    pub closed spec fn inv(self) -> bool {
        &&& self.count <= 12
        &&& self.letter_set@ == seq_letter_set(self@.letters)
        &&& chain_wf(self@)
    }
}

/// The invariant of every constructed `LetterSequence` includes the model
/// well-formedness conditions; with `use_type_invariant`, callers may rely
/// on them of any value they hold.
pub broadcast proof fn lemma_sequence_wf(s: LetterSequence)
    ensures
        #[trigger] s.inv() ==> chain_wf(s@),
{
}

/// Appending one letter number inserts it into the letter set.
pub proof fn lemma_letter_set_push(s: Seq<u8>, b: u8)
    requires
        b < 26,
    ensures
        seq_letter_set(s.push(b)) == seq_letter_set(s).insert(b as int),
{
    let sp = s.push(b);
    assert forall|l: int| #![auto]
        seq_letter_set(sp).contains(l) implies seq_letter_set(s).insert(b as int).contains(
        l,
    ) by {
        let k = choose|k: int| 0 <= k < sp.len() && sp[k] == l as u8;
        if k < s.len() {
            assert(s[k] == l as u8);
        }
    }
    assert forall|l: int| #![auto]
        seq_letter_set(s).insert(b as int).contains(l) implies seq_letter_set(sp).contains(
        l,
    ) by {
        if seq_letter_set(s).contains(l) {
            let k = choose|k: int| 0 <= k < s.len() && s[k] == l as u8;
            assert(sp[k] == l as u8);
        } else {
            assert(sp.last() == l as u8);
        }
    }
    assert(seq_letter_set(sp) =~= seq_letter_set(s).insert(b as int));
}

/// An empty sequence of letters has the empty letter set.
pub proof fn lemma_letter_set_empty(s: Seq<u8>)
    requires
        s.len() == 0,
    ensures
        seq_letter_set(s) == Set::<int>::empty(),
{
    assert(seq_letter_set(s) =~= Set::<int>::empty());
}

/// Two sequences may be chained — the second appended to the first — when
/// they share exactly one letter, that letter is both the last letter of
/// the base and the first letter of the extension, and together they do not
/// exceed the 12 distinct letters of a board.
pub open spec fn spec_can_append(w: ChainView, s: ChainView) -> bool {
    let inter = seq_letter_set(w.letters).intersect(seq_letter_set(s.letters));
    &&& inter.len() == 1
    &&& s.letters.len() > 0
    &&& w.letters.len() > 0
    &&& inter.contains(s.letters.last() as int)
    &&& inter.contains(w.letters[0] as int)
    &&& seq_letter_set(w.letters).union(seq_letter_set(s.letters)).len() <= 12
}

/// The letter set of any sequence is finite.
pub proof fn lemma_letter_set_finite(s: Seq<u8>)
    ensures
        seq_letter_set(s).finite(),
{
    vstd::set_lib::lemma_int_range(0, 26);
    vstd::set_lib::lemma_len_subset(seq_letter_set(s), vstd::set_lib::set_int_range(0, 26));
}

/// A sequence of distinct letter numbers has as many members in its letter
/// set as it has letters.
pub proof fn lemma_distinct_card(s: Seq<u8>)
    requires
        forall|k: int| 0 <= k < s.len() ==> #[trigger] s[k] < 26,
        forall|k1: int, k2: int| 0 <= k1 < k2 < s.len() ==> s[k1] != s[k2],
    ensures
        seq_letter_set(s).finite(),
        seq_letter_set(s).len() == s.len(),
    decreases s.len(),
{
    lemma_letter_set_finite(s);
    if s.len() == 0 {
        lemma_letter_set_empty(s);
    } else {
        let front = s.drop_last();
        let b = s.last();
        assert(s =~= front.push(b));
        lemma_distinct_card(front);
        lemma_letter_set_push(front, b);
        if seq_letter_set(front).contains(b as int) {
            let k = choose|k: int| 0 <= k < front.len() && front[k] == b;
            assert(s[k] == s[s.len() - 1]);
            assert(false);
        }
    }
}

/// Concatenating two sequences unions their letter sets.
pub proof fn lemma_letter_set_concat(a: Seq<u8>, b: Seq<u8>)
    ensures
        seq_letter_set(a + b) == seq_letter_set(a).union(seq_letter_set(b)),
{
    let c = a + b;
    assert forall|l: int| #![auto]
        seq_letter_set(c).contains(l) implies seq_letter_set(a).union(seq_letter_set(b)).contains(
        l,
    ) by {
        let k = choose|k: int| 0 <= k < c.len() && c[k] == l as u8;
        if k < a.len() {
            assert(a[k] == l as u8);
        } else {
            assert(b[k - a.len()] == l as u8);
        }
    }
    assert forall|l: int| #![auto]
        seq_letter_set(a).union(seq_letter_set(b)).contains(l) implies seq_letter_set(c).contains(
        l,
    ) by {
        if seq_letter_set(a).contains(l) {
            let k = choose|k: int| 0 <= k < a.len() && a[k] == l as u8;
            assert(c[k] == l as u8);
        } else {
            let k = choose|k: int| 0 <= k < b.len() && b[k] == l as u8;
            assert(c[a.len() + k] == l as u8);
        }
    }
    assert(seq_letter_set(c) =~= seq_letter_set(a).union(seq_letter_set(b)));
}

/// Splitting off the first letter of a nonempty sequence splits its letter
/// set accordingly.
pub proof fn lemma_letter_set_unshift(s: Seq<u8>)
    requires
        s.len() > 0,
        s[0] < 26,
    ensures
        seq_letter_set(s) == seq_letter_set(s.skip(1)).insert(s[0] as int),
{
    let rest = s.skip(1);
    assert forall|l: int| #![auto]
        seq_letter_set(s).contains(l) implies seq_letter_set(rest).insert(s[0] as int).contains(
        l,
    ) by {
        let k = choose|k: int| 0 <= k < s.len() && s[k] == l as u8;
        if k > 0 {
            assert(rest[k - 1] == l as u8);
        }
    }
    assert forall|l: int| #![auto]
        seq_letter_set(rest).insert(s[0] as int).contains(l) implies seq_letter_set(s).contains(
        l,
    ) by {
        if seq_letter_set(rest).contains(l) {
            let k = choose|k: int| 0 <= k < rest.len() && rest[k] == l as u8;
            assert(s[k + 1] == l as u8);
        } else {
            assert(s[0] == l as u8);
        }
    }
    assert(seq_letter_set(s) =~= seq_letter_set(rest).insert(s[0] as int));
}

/// The letters at positions `k` and `k + 1` lie on two different sides of
/// the board.
pub open spec fn adjacent_ok_at(letters: Seq<u8>, g: LetterGrouping, k: int) -> bool {
    spec_can_be_adjacent(
        g.spec_group_of(letters[k] as int),
        g.spec_group_of(letters[k + 1] as int),
    )
}

/// A sequence of letters forms a board-legal word when every pair of
/// consecutive letters lies on two different sides of the board.
pub open spec fn spec_valid_word(letters: Seq<u8>, g: LetterGrouping) -> bool {
    forall|k: int| 0 <= k < letters.len() - 1 ==> #[trigger] adjacent_ok_at(letters, g, k)
}

/// The character that renders a compressed letter number.
pub open spec fn letter_char(b: u8) -> char {
    "ABCDEFGHIJKLMNOPQRSTUVWXYZ"@[b as int]
}

/// The characters that render the letters of one word span.
pub open spec fn word_chars(letters: Seq<u8>, r: (usize, usize)) -> Seq<char> {
    Seq::new((r.1 - r.0) as nat, |k: int| letter_char(letters[r.0 + k]))
}

/// The characters that render a chain: its word spans in order, separated
/// by single spaces.
pub open spec fn spec_join(letters: Seq<u8>, rs: Seq<(usize, usize)>) -> Seq<char>
    decreases rs.len(),
{
    if rs.len() == 0 {
        Seq::empty()
    } else if rs.len() == 1 {
        word_chars(letters, rs[0])
    } else {
        spec_join(letters, rs.drop_last()) + seq![' '] + word_chars(letters, rs.last())
    }
}

/// Cutting letters from an end of a sequence agrees with slicing: cutting
/// `n` letters from the start leaves the letters of the slice `n..len`,
/// and cutting `n` letters from the end leaves those of the slice
/// `0..len - n`.
pub proof fn lemma_cut_symmetry(letters: Seq<u8>, n: int)
    requires
        0 <= n <= letters.len(),
    ensures
        letters.skip(n) == letters.subrange(n, letters.len() as int),
        letters.take(letters.len() - n) == letters.subrange(0, letters.len() - n),
{
    assert(letters.skip(n) =~= letters.subrange(n, letters.len() as int));
    assert(letters.take(letters.len() - n) =~= letters.subrange(0, letters.len() - n));
}

/// Both members of a one-element set are the same element.
pub proof fn lemma_singleton_members(s: Set<int>, a: int, b: int)
    requires
        s.finite(),
        s.len() == 1,
        s.contains(a),
        s.contains(b),
    ensures
        a == b,
{
    if a != b {
        assert(s.remove(a).contains(b));
        assert(s.remove(a).len() == 0);
        s.remove(a).lemma_len0_is_empty();
    }
}

/// Builds the `LetterSet` of the first `count` letter numbers stored in an
/// array, which must be in range and distinct.
fn compressed_set(letters: &[u8; 12], count: usize) -> (r: LetterSet)
    requires
        count <= 12,
        forall|k: int| 0 <= k < count ==> #[trigger] letters@[k] < 26,
        forall|k1: int, k2: int| 0 <= k1 < k2 < count ==> letters@[k1] != letters@[k2],
    ensures
        r@ == seq_letter_set(letters@.take(count as int)),
{
    let mut r = LetterSet::empty();
    let mut i: usize = 0;
    proof {
        assert(letters@.take(0) =~= Seq::<u8>::empty());
        lemma_letter_set_empty(letters@.take(0));
    }
    while i < count
        invariant
            i <= count <= 12,
            forall|k: int| 0 <= k < count ==> #[trigger] letters@[k] < 26,
            forall|k1: int, k2: int| 0 <= k1 < k2 < count ==> letters@[k1] != letters@[k2],
            r@ == seq_letter_set(letters@.take(i as int)),
        decreases count - i,
    {
        proof {
            assert(forall|k: int|
                0 <= k < i ==> #[trigger] letters@.take(i as int)[k] == letters@[k]);
            if seq_letter_set(letters@.take(i as int)).contains(letters@[i as int] as int) {
                let s = letters@.take(i as int);
                let k = choose|k: int| 0 <= k < s.len() && s[k] == letters@[i as int];
                assert(letters@[k] == letters@[i as int]);
                assert(false);
            }
        }
        let b = letters[i];
        r = r.insert(b);
        proof {
            assert(letters@.take(i + 1) =~= letters@.take(i as int).push(b));
            lemma_letter_set_push(letters@.take(i as int), b);
        }
        i += 1;
    }
    r
}

impl LetterSequence {
    /// Returns an empty `LetterSequence`.
    pub fn empty() -> (r: Self)
        ensures
            r@.letters == Seq::<u8>::empty(),
            r@.marks == Set::<int>::empty(),
    {
        let arr: [u8; 12] = [0; 12];
        let ls = LetterSet::empty();
        let sol = Solution::empty();
        proof {
            assert(arr@.take(0) =~= Seq::<u8>::empty());
            assert(seq_letter_set(arr@.take(0)) =~= Set::<int>::empty());
        }
        LetterSequence { letters: arr, count: 0, letter_set: ls, solution: sol }
    }

    /// Returns the count of letters in the sequence.
    pub fn len(self) -> (r: usize)
        ensures
            r == self@.letters.len(),
    {
        proof {
            use_type_invariant(self);
        }
        self.count
    }

    /// Returns `true` if the sequence contains no letters.
    pub fn is_empty(self) -> (r: bool)
        ensures
            r == (self@.letters.len() == 0),
    {
        proof {
            use_type_invariant(self);
        }
        self.count == 0
    }

    /// Returns `true` if the sequence holds 12 letters, one for each
    /// position of the board.
    pub fn has_all_letters(self) -> (r: bool)
        ensures
            r == (self@.letters.len() == 12),
    {
        proof {
            use_type_invariant(self);
        }
        self.count == 12
    }

    /// Returns the number of word boundaries recorded in the sequence.
    pub fn word_count(self) -> (r: u32)
        requires
            self@.marks.len() <= 5,
        ensures
            r == self@.marks.len(),
    {
        self.solution.word_count()
    }

    /// Returns the compressed first letter of the sequence, which must not
    /// be empty.
    pub fn first_letter(self) -> (r: u8)
        requires
            self@.letters.len() > 0,
        ensures
            r == self@.letters[0],
            r < 26,
    {
        proof {
            use_type_invariant(self);
        }
        self.letters[0]
    }

    /// Returns the compressed last letter of the sequence, which must not
    /// be empty.
    pub fn last_letter(self) -> (r: u8)
        requires
            self@.letters.len() > 0,
        ensures
            r == self@.letters.last(),
            r < 26,
    {
        proof {
            use_type_invariant(self);
        }
        self.letters[self.count - 1]
    }

    /// Returns a new `LetterSequence` with the given uppercase ASCII letter
    /// appended to the end. The sequence must have room, and the letter must
    /// not already be present.
    pub fn with_letter(self, letter: u8) -> (r: Self)
        requires
            self@.letters.len() < 12,
            65 <= letter <= 90,
            !self@.letters.contains((letter - 65) as u8),
        ensures
            r@.letters == self@.letters.push((letter - 65) as u8),
            self@.marks == Set::<int>::empty() ==> r@.marks == Set::<int>::empty().insert(0),
            self@.marks != Set::<int>::empty() ==> exists|t: int|
                #[trigger] self@.marks.contains(t) && (forall|m: int|
                    self@.marks.contains(m) ==> m <= t) && r@.marks == self@.marks.remove(
                    t,
                ).insert(t + 1),
    {
        proof {
            use_type_invariant(self);
            assert(!seq_letter_set(self@.letters).contains((letter - 65) as int));
            assert forall|m: int| self.solution@.contains(m) implies m < 15 by {
                assert(self@.marks.contains(m));
            }
        }
        let compressed = letter - 65;
        let mut letters = self.letters;
        letters[self.count] = compressed;
        let new_set = self.letter_set.insert(compressed);
        let new_sol = self.solution.extend_top_word();
        proof {
            let nl = letters@.take(self.count + 1);
            assert(nl =~= self@.letters.push(compressed));
            assert(seq_letter_set(nl) =~= seq_letter_set(self@.letters).insert(
                compressed as int,
            )) by {
                assert forall|l: int| #![auto]
                    seq_letter_set(nl).contains(l) implies seq_letter_set(
                    self@.letters,
                ).insert(compressed as int).contains(l) by {
                    let k = choose|k: int| 0 <= k < nl.len() && nl[k] == l as u8;
                    if k < self@.letters.len() {
                        assert(self@.letters[k] == l as u8);
                    }
                }
                assert forall|l: int| #![auto]
                    seq_letter_set(self@.letters).insert(compressed as int).contains(
                    l,
                ) implies seq_letter_set(nl).contains(l) by {
                    if seq_letter_set(self@.letters).contains(l) {
                        let k = choose|k: int|
                            0 <= k < self@.letters.len() && self@.letters[k] == l as u8;
                        assert(nl[k] == l as u8);
                    } else {
                        assert(nl.last() == l as u8);
                    }
                }
            }
            let nv = ChainView { letters: nl, marks: new_sol@ };
            if self@.marks == Set::<int>::empty() {
                assert(chain_wf(nv));
            } else {
                assert(self.solution@ != Set::<int>::empty());
                let t = choose|t: int|
                    #[trigger] self@.marks.contains(t) && (forall|m: int|
                        self@.marks.contains(m) ==> m <= t) && new_sol@ == self@.marks.remove(
                        t,
                    ).insert(t + 1);
                assert(forall|b: int| #[trigger] nv.marks.contains(b) ==> 0 <= b < nl.len());
                assert(chain_wf(nv));
            }
        }
        LetterSequence { letters, count: self.count + 1, letter_set: new_set, solution: new_sol }
    }

    /// Creates a new `LetterSequence` from the bytes of a string of at most
    /// 12 distinct uppercase ASCII letters, converting each into its
    /// compressed form.
    pub fn new(letters: &[u8]) -> (r: Self)
        requires
            letters@.len() <= 12,
            forall|k: int| 0 <= k < letters@.len() ==> 65 <= #[trigger] letters@[k] <= 90,
            forall|k1: int, k2: int|
                0 <= k1 < k2 < letters@.len() ==> letters@[k1] != letters@[k2],
        ensures
            r@.letters.len() == letters@.len(),
            forall|k: int|
                0 <= k < letters@.len() ==> #[trigger] r@.letters[k] == letters@[k] - 65,
            letters@.len() == 0 ==> r@.marks == Set::<int>::empty(),
            letters@.len() > 0 ==> r@.marks == Set::<int>::empty().insert(
                letters@.len() - 1,
            ),
    {
        let mut sequence = Self::empty();
        let n = letters.len();
        for i in 0..n
            invariant
                n == letters@.len() <= 12,
                forall|k: int| 0 <= k < letters@.len() ==> 65 <= #[trigger] letters@[k] <= 90,
                forall|k1: int, k2: int|
                    0 <= k1 < k2 < letters@.len() ==> letters@[k1] != letters@[k2],
                sequence@.letters.len() == i,
                forall|k: int|
                    0 <= k < i ==> #[trigger] sequence@.letters[k] == letters@[k] - 65,
                i == 0 ==> sequence@.marks == Set::<int>::empty(),
                i > 0 ==> sequence@.marks == Set::<int>::empty().insert(i - 1),
        {
            proof {
                let b = letters@[i as int];
                if sequence@.letters.contains((b - 65) as u8) {
                    let k = choose|k: int|
                        0 <= k < sequence@.letters.len() && sequence@.letters[k] == (b - 65) as u8;
                    assert(letters@[k] == letters@[i as int]);
                    assert(false);
                }
            }
            let ghost m0 = sequence@.marks;
            sequence = sequence.with_letter(letters[i]);
            proof {
                if m0 != Set::<int>::empty() {
                    let t = choose|t: int|
                        #[trigger] m0.contains(t) && (forall|m: int| m0.contains(m) ==> m <= t)
                            && sequence@.marks == m0.remove(t).insert(t + 1);
                    assert(t == i - 1);
                    assert(sequence@.marks =~= Set::<int>::empty().insert(i as int));
                } else {
                    if i > 0 {
                        assert(m0.contains(i - 1));
                        assert(false);
                    }
                }
            }
        }
        sequence
    }

    /// Returns a new `LetterSequence` with the first `n` letters cut from
    /// the start. The result forgets any word-boundary metadata, which is
    /// meaningless on a sub-slice.
    pub fn cut_from_start(self, n: usize) -> (r: Self)
        requires
            n <= self@.letters.len(),
        ensures
            r@.letters == self@.letters.skip(n as int),
            r@.marks == Set::<int>::empty(),
    {
        proof {
            use_type_invariant(self);
        }
        let new_count = self.count - n;
        let mut arr: [u8; 12] = [0; 12];
        let mut i: usize = 0;
        while i < new_count
            invariant
                i <= new_count,
                n + new_count == self.count,
                self.inv(),
                forall|k: int| 0 <= k < i ==> #[trigger] arr@[k] == self@.letters[n + k],
            decreases new_count - i,
        {
            proof {
                use_type_invariant(self);
            }
            arr[i] = self.letters[n + i];
            i += 1;
        }
        proof {
            use_type_invariant(self);
            assert(forall|k: int|
                0 <= k < new_count ==> #[trigger] arr@.take(new_count as int)[k] == arr@[k]);
            assert(arr@.take(new_count as int) =~= self@.letters.skip(n as int));
        }
        let ls = compressed_set(&arr, new_count);
        let sol = Solution::empty();
        LetterSequence { letters: arr, count: new_count, letter_set: ls, solution: sol }
    }

    /// Returns a new `LetterSequence` with the last `n` letters cut from
    /// the end. The result forgets any word-boundary metadata.
    pub fn cut_from_end(self, n: usize) -> (r: Self)
        requires
            n <= self@.letters.len(),
        ensures
            r@.letters == self@.letters.take(self@.letters.len() - n),
            r@.marks == Set::<int>::empty(),
    {
        proof {
            use_type_invariant(self);
        }
        let new_count = self.count - n;
        let mut arr: [u8; 12] = [0; 12];
        let mut i: usize = 0;
        while i < new_count
            invariant
                i <= new_count,
                new_count + n == self.count,
                self.inv(),
                forall|k: int| 0 <= k < i ==> #[trigger] arr@[k] == self@.letters[k],
            decreases new_count - i,
        {
            proof {
                use_type_invariant(self);
            }
            arr[i] = self.letters[i];
            i += 1;
        }
        proof {
            use_type_invariant(self);
            assert(forall|k: int|
                0 <= k < new_count ==> #[trigger] arr@.take(new_count as int)[k] == arr@[k]);
            assert(arr@.take(new_count as int) =~= self@.letters.take(
                self@.letters.len() - n,
            ));
        }
        let ls = compressed_set(&arr, new_count);
        let sol = Solution::empty();
        LetterSequence { letters: arr, count: new_count, letter_set: ls, solution: sol }
    }

    /// Returns the contiguous sub-sequence of letters in `start..end`. The
    /// result forgets any word-boundary metadata.
    pub fn slice(self, start: usize, end: usize) -> (r: Self)
        requires
            start <= end <= self@.letters.len(),
            start < self@.letters.len() || start == 0,
        ensures
            r@.letters == self@.letters.subrange(start as int, end as int),
            r@.marks == Set::<int>::empty(),
    {
        let len = self.len();
        let front = self.cut_from_start(start);
        let r = front.cut_from_end(len - end);
        proof {
            assert(r@.letters =~= self@.letters.subrange(start as int, end as int));
        }
        r
    }

    /// Returns the count of letters that two sequences have in common.
    pub fn shared_letter_count(self, other: LetterSequence) -> (r: usize)
        ensures
            r == seq_letter_set(self@.letters).intersect(seq_letter_set(other@.letters)).len(),
    {
        proof {
            use_type_invariant(self);
            use_type_invariant(other);
        }
        self.letter_set.intersection(other.letter_set).len()
    }

    /// Returns `true` if `self` can be appended to `other` to form a longer
    /// chain: the two share exactly one letter, which is both the last
    /// letter of `other` and the first letter of `self`, and the union of
    /// their letters fits the 12 letters of a board.
    pub fn can_append_to(self, other: LetterSequence) -> (r: bool)
        ensures
            r == spec_can_append(self@, other@),
    {
        proof {
            use_type_invariant(self);
            use_type_invariant(other);
        }
        let inter = self.letter_set.intersection(other.letter_set);
        if inter.len() != 1 {
            return false;
        }
        proof {
            if other@.letters.len() == 0 {
                lemma_letter_set_empty(other@.letters);
                assert(inter@ =~= Set::<int>::empty());
            }
            if self@.letters.len() == 0 {
                lemma_letter_set_empty(self@.letters);
                assert(inter@ =~= Set::<int>::empty());
            }
        }
        if !inter.has(other.last_letter()) {
            return false;
        }
        if !inter.has(self.first_letter()) {
            return false;
        }
        self.letter_set.union(other.letter_set).len() <= 12
    }

    /// Returns `true` if `self` can be prepended to `other`: that is, if
    /// `other` can be appended to `self`.
    pub fn can_prepend_to(self, other: LetterSequence) -> (r: bool)
        ensures
            r == spec_can_append(other@, self@),
    {
        other.can_append_to(self)
    }

    /// Appends the letters of `self` to `other`, dropping the duplicated
    /// boundary letter, merging the letter sets, and marking the new word
    /// boundary at the final letter of the combined chain.
    pub fn append_to(self, other: LetterSequence) -> (r: Self)
        requires
            spec_can_append(self@, other@),
            self@.letters.len() >= 2,
        ensures
            r@.letters == other@.letters + self@.letters.skip(1),
            r@.marks == other@.marks.insert(
                self@.letters.len() + other@.letters.len() - 2,
            ),
    {
        proof {
            use_type_invariant(self);
            use_type_invariant(other);
            let ws = seq_letter_set(self@.letters);
            let ss = seq_letter_set(other@.letters);
            let inter = ws.intersect(ss);
            lemma_letter_set_finite(self@.letters);
            lemma_letter_set_finite(other@.letters);
            lemma_singleton_members(
                inter,
                other@.letters.last() as int,
                self@.letters[0] as int,
            );
            // the combined letters are distinct across the two parts
            assert forall|k1: int, k2: int|
                0 <= k1 < other@.letters.len() && 1 <= k2 < self@.letters.len() implies other@
                .letters[k1] != self@.letters[k2] by {
                if other@.letters[k1] == self@.letters[k2] {
                    let x = other@.letters[k1];
                    assert(ws.contains(x as int));
                    assert(ss.contains(x as int));
                    lemma_singleton_members(inter, x as int, self@.letters[0] as int);
                    assert(self@.letters[0] == self@.letters[k2]);
                    assert(false);
                }
            }
            let combined = other@.letters + self@.letters.skip(1);
            assert(forall|k: int|
                0 <= k < combined.len() ==> #[trigger] combined[k] < 26);
            assert(forall|k1: int, k2: int|
                0 <= k1 < k2 < combined.len() ==> combined[k1] != combined[k2]);
            // the combined letter set is the union of the parts
            lemma_letter_set_concat(other@.letters, self@.letters.skip(1));
            lemma_letter_set_unshift(self@.letters);
            assert(seq_letter_set(combined) =~= ws.union(ss));
            // hence the combined length fits the board
            lemma_distinct_card(combined);
            assert(combined.len() <= 12);
        }
        let new_count = self.count + other.count - 1;
        let mut arr: [u8; 12] = [0; 12];
        let mut i: usize = 0;
        while i < other.count
            invariant
                i <= other.count,
                other.inv(),
                new_count == self.count + other.count - 1 <= 12,
                forall|k: int| 0 <= k < i ==> #[trigger] arr@[k] == other@.letters[k],
            decreases other.count - i,
        {
            proof {
                use_type_invariant(other);
            }
            arr[i] = other.letters[i];
            i += 1;
        }
        let mut j: usize = 1;
        while j < self.count
            invariant
                1 <= j <= self.count,
                self.inv(),
                other.inv(),
                new_count == self.count + other.count - 1 <= 12,
                forall|k: int| 0 <= k < other.count ==> #[trigger] arr@[k] == other@.letters[k],
                forall|k: int|
                    1 <= k < j ==> #[trigger] arr@[other.count + k - 1] == self@.letters[k],
            decreases self.count - j,
        {
            proof {
                use_type_invariant(self);
                use_type_invariant(other);
            }
            arr[other.count + j - 1] = self.letters[j];
            j += 1;
        }
        let ls = self.letter_set.union(other.letter_set);
        proof {
            use_type_invariant(self);
            use_type_invariant(other);
            assert forall|b: int| #[trigger]
                other.solution@.contains(b) implies 0 <= b < other@.letters.len() by {
                assert(other@.marks.contains(b));
            }
            assert(!other.solution@.contains((self.count + other.count - 2) as int));
        }
        let sol = other.solution.mark(self.count + other.count - 2);
        proof {
            use_type_invariant(self);
            use_type_invariant(other);
            let combined = other@.letters + self@.letters.skip(1);
            assert forall|k: int|
                0 <= k < new_count implies arr@[k] == combined[k] by {
                if k < other.count {
                    assert(arr@[k] == other@.letters[k]);
                } else {
                    let k2 = k - other.count + 1;
                    assert(arr@[other.count + k2 - 1] == self@.letters[k2]);
                    assert(combined[k] == self@.letters.skip(1)[k - other@.letters.len()]);
                }
            }
            assert(arr@.take(new_count as int) =~= combined);
            lemma_letter_set_concat(other@.letters, self@.letters.skip(1));
            lemma_letter_set_unshift(self@.letters);
            assert(seq_letter_set(combined) =~= seq_letter_set(self@.letters).union(
                seq_letter_set(other@.letters),
            ));
            assert(forall|b: int| #[trigger] sol@.contains(b) ==> 0 <= b < combined.len());
        }
        LetterSequence { letters: arr, count: new_count, letter_set: ls, solution: sol }
    }

    /// Prepends the letters of `other` to `self`: the combined chain starts
    /// with `self` and continues with `other`, sharing the boundary letter.
    pub fn prepend_to(self, other: LetterSequence) -> (r: Self)
        requires
            spec_can_append(other@, self@),
            other@.letters.len() >= 2,
        ensures
            r@.letters == self@.letters + other@.letters.skip(1),
            r@.marks == self@.marks.insert(
                other@.letters.len() + self@.letters.len() - 2,
            ),
    {
        other.append_to(self)
    }

    /// Returns `true` if this sequence of letters forms a word that is
    /// legal for the board described by `grouping`: every pair of
    /// consecutive letters lies on two different sides.
    pub fn is_valid_word(self, grouping: &LetterGrouping) -> (r: bool)
        ensures
            r == spec_valid_word(self@.letters, *grouping),
    {
        proof {
            use_type_invariant(self);
        }
        if self.count < 2 {
            return true;
        }
        let mut k: usize = 0;
        while k < self.count - 1
            invariant
                self.inv(),
                2 <= self.count,
                k <= self.count - 1,
                forall|t: int| 0 <= t < k ==> #[trigger] adjacent_ok_at(
                    self@.letters,
                    *grouping,
                    t,
                ),
            decreases self.count - k,
        {
            proof {
                use_type_invariant(self);
                assert(self.letters@[k as int] == self@.letters[k as int]);
                assert(self.letters@[k + 1] == self@.letters[k + 1]);
            }
            let g1 = grouping.group_of(self.letters[k]);
            let g2 = grouping.group_of(self.letters[k + 1]);
            if !g1.can_be_adjacent_to(g2) {
                proof {
                    assert(!adjacent_ok_at(self@.letters, *grouping, k as int));
                }
                return false;
            }
            proof {
                assert(adjacent_ok_at(self@.letters, *grouping, k as int));
            }
            k += 1;
        }
        true
    }

    /// Returns each word of this sequence as its own `LetterSequence`, with
    /// the word boundaries taken from the internal [`Solution`].
    pub fn words(self) -> (r: Vec<LetterSequence>)
        ensures
            r@.len() == spec_word_ranges(self@.marks).len(),
            r@.len() == self@.marks.len(),
            forall|j: int|
                0 <= j < r@.len() ==> (#[trigger] r@[j])@.letters == self@.letters.subrange(
                    spec_word_ranges(self@.marks)[j].0 as int,
                    spec_word_ranges(self@.marks)[j].1 as int,
                ) && r@[j]@.marks == Set::<int>::empty(),
    {
        proof {
            use_type_invariant(self);
            lemma_ranges_bounds(self@.marks, 0, 0, self@.letters.len() as int);
            crate::solution::lemma_word_ranges_count(self@.marks);
        }
        let ranges = self.solution.word_ranges();
        let mut r: Vec<LetterSequence> = Vec::new();
        let n = ranges.len();
        let mut j: usize = 0;
        while j < n
            invariant
                self.inv(),
                n == ranges@.len(),
                j <= n,
                ranges@ == spec_word_ranges(self@.marks),
                forall|t: int|
                    0 <= t < ranges@.len() ==> 0 <= (#[trigger] ranges@[t]).0 < ranges@[t].1
                        <= self@.letters.len(),
                r@.len() == j,
                forall|t: int|
                    0 <= t < j ==> (#[trigger] r@[t])@.letters == self@.letters.subrange(
                        ranges@[t].0 as int,
                        ranges@[t].1 as int,
                    ) && r@[t]@.marks == Set::<int>::empty(),
            decreases n - j,
        {
            let (a, b) = ranges[j];
            let piece = self.slice(a, b);
            r.push(piece);
            j += 1;
        }
        r
    }

    /// Returns a human-readable rendering of the chain, inserting a single
    /// space between words as indicated by the internal [`Solution`]. The
    /// boundary letter appears both at the end of one word and at the start
    /// of the next.
    pub fn solution_string(self) -> (r: String)
        requires
            1 <= self@.marks.len() <= 5,
        ensures
            r@ == spec_join(self@.letters, spec_word_ranges(self@.marks)),
    {
        proof {
            use_type_invariant(self);
            lemma_ranges_bounds(self@.marks, 0, 0, self@.letters.len() as int);
        }
        let ranges = self.solution.word_ranges();
        let alphabet = "ABCDEFGHIJKLMNOPQRSTUVWXYZ";
        let mut s = String::new();
        let n = ranges.len();
        let mut j: usize = 0;
        while j < n
            invariant
                self.inv(),
                n == ranges@.len(),
                j <= n,
                ranges@ == spec_word_ranges(self@.marks),
                forall|t: int|
                    0 <= t < ranges@.len() ==> 0 <= (#[trigger] ranges@[t]).0 < ranges@[t].1
                        <= self@.letters.len(),
                alphabet@ == "ABCDEFGHIJKLMNOPQRSTUVWXYZ"@,
                s@ == spec_join(self@.letters, ranges@.take(j as int)),
            decreases n - j,
        {
            proof {
                reveal_strlit("ABCDEFGHIJKLMNOPQRSTUVWXYZ");
                reveal_strlit(" ");
                assert(ranges@.take(j as int).len() == j);
            }
            if j > 0 {
                s.append(" ");
                proof {
                    assert(" "@ =~= seq![' ']);
                }
            }
            let (a, b) = ranges[j];
            let ghost base = s@;
            let mut k: usize = a;
            proof {
                assert(word_chars(self@.letters, (a, k)) =~= Seq::<char>::empty());
                assert(s@ =~= base + word_chars(self@.letters, (a, k)));
            }
            while k < b
                invariant
                    self.inv(),
                    a <= k <= b,
                    (a, b) == ranges@[j as int],
                    0 <= a < b <= self@.letters.len(),
                    alphabet@ == "ABCDEFGHIJKLMNOPQRSTUVWXYZ"@,
                    s@ == base + word_chars(self@.letters, (a, k)),
                decreases b - k,
            {
                proof {
                    reveal_strlit("ABCDEFGHIJKLMNOPQRSTUVWXYZ");
                    use_type_invariant(self);
                    assert(self.letters@[k as int] == self@.letters[k as int]);
                    assert(self@.letters[k as int] < 26);
                    assert(alphabet.is_ascii());
                }
                let lb = self.letters[k];
                let c = alphabet.substring_ascii(lb as usize, lb as usize + 1);
                let ghost s1 = s@;
                s.append(c);
                proof {
                    assert(c@ =~= seq![letter_char(lb)]);
                    assert(word_chars(self@.letters, (a, (k + 1) as usize)) =~= word_chars(
                        self@.letters,
                        (a, k),
                    ).push(letter_char(self@.letters[k as int])));
                    assert(s@ =~= base + word_chars(self@.letters, (a, (k + 1) as usize)));
                }
                k += 1;
            }
            proof {
                let rs = ranges@;
                assert(rs.take(j + 1).drop_last() =~= rs.take(j as int));
                assert(rs.take(j + 1).last() == rs[j as int]);
                if j == 0 {
                    assert(spec_join(self@.letters, rs.take(1)) == word_chars(
                        self@.letters,
                        rs.take(1)[0],
                    ));
                    assert(s@ =~= spec_join(self@.letters, rs.take(j + 1)));
                } else {
                    assert(spec_join(self@.letters, rs.take(j + 1)) == spec_join(
                        self@.letters,
                        rs.take(j as int),
                    ) + seq![' '] + word_chars(self@.letters, rs[j as int]));
                    assert(s@ =~= spec_join(self@.letters, rs.take(j + 1)));
                }
            }
            j += 1;
        }
        proof {
            assert(ranges@.take(n as int) =~= ranges@);
        }
        s
    }

    /// Returns the compressed letters of the sequence in last-in-first-out
    /// order.
    pub fn letters_rev(self) -> (r: Vec<u8>)
        ensures
            r@.len() == self@.letters.len(),
            forall|k: int|
                0 <= k < r@.len() ==> #[trigger] r@[k] == self@.letters[self@.letters.len() - 1
                    - k],
    {
        proof {
            use_type_invariant(self);
        }
        let mut r: Vec<u8> = Vec::new();
        let mut i: usize = self.count;
        while i > 0
            invariant
                i <= self.count,
                self.inv(),
                r@.len() == self.count - i,
                forall|k: int|
                    0 <= k < r@.len() ==> #[trigger] r@[k] == self@.letters[self@.letters.len()
                        - 1 - k],
            decreases i,
        {
            proof {
                use_type_invariant(self);
            }
            i -= 1;
            r.push(self.letters[i]);
        }
        r
    }

    /// Compares the letters of two sequences. Equality deliberately
    /// excludes the word-boundary metadata: two sequences with identical
    /// letters but different internal word splits are the same board state.
    fn eq_letters(&self, other: &Self) -> (r: bool)
        ensures
            r == (self@.letters == other@.letters),
    {
        proof {
            use_type_invariant(*self);
            use_type_invariant(*other);
        }
        if self.count != other.count {
            proof {
                assert(self@.letters.len() != other@.letters.len());
            }
            return false;
        }
        let mut k: usize = 0;
        while k < self.count
            invariant
                self.inv(),
                other.inv(),
                self.count == other.count,
                k <= self.count,
                forall|t: int| 0 <= t < k ==> self@.letters[t] == #[trigger] other@.letters[t],
            decreases self.count - k,
        {
            proof {
                use_type_invariant(*self);
                use_type_invariant(*other);
                assert(self.letters@[k as int] == self@.letters[k as int]);
                assert(other.letters@[k as int] == other@.letters[k as int]);
            }
            if self.letters[k] != other.letters[k] {
                proof {
                    assert(self@.letters[k as int] != other@.letters[k as int]);
                }
                return false;
            }
            k += 1;
        }
        proof {
            assert(self@.letters =~= other@.letters);
        }
        true
    }

    /// Returns the ASCII bytes of the sequence in first-in-first-out order.
    pub fn ascii_bytes(self) -> (r: Vec<u8>)
        ensures
            r@.len() == self@.letters.len(),
            forall|k: int|
                0 <= k < r@.len() ==> #[trigger] r@[k] == self@.letters[k] + 65,
    {
        proof {
            use_type_invariant(self);
        }
        let mut r: Vec<u8> = Vec::new();
        let mut i: usize = 0;
        while i < self.count
            invariant
                i <= self.count,
                self.inv(),
                r@.len() == i,
                forall|k: int| 0 <= k < i ==> #[trigger] r@[k] == self@.letters[k] + 65,
            decreases self.count - i,
        {
            proof {
                use_type_invariant(self);
                assert(self.letters@[i as int] == self@.letters[i as int]);
                assert(self@.letters[i as int] < 26);
            }
            r.push(self.letters[i] + 65);
            i += 1;
        }
        r
    }
}

impl Default for LetterSequence {
    /// Returns an empty `LetterSequence`.
    fn default() -> (r: Self)
        ensures
            r@.letters == Seq::<u8>::empty(),
            r@.marks == Set::<int>::empty(),
    {
        Self::empty()
    }
}

impl PartialEq for LetterSequence {
    fn eq(&self, other: &Self) -> (r: bool) {
        self.eq_letters(other)
    }
}

impl Eq for LetterSequence {

}

impl vstd::std_specs::cmp::PartialEqSpecImpl for LetterSequence {
    open spec fn obeys_eq_spec() -> bool {
        true
    }

    open spec fn eq_spec(&self, other: &Self) -> bool {
        self@.letters == other@.letters
    }
}

} // verus!
