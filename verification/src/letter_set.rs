//! A compact bitset over the 26 uppercase ASCII letters.

use vstd::prelude::*;

verus! {

/// `LetterSet` is a compact bitset representing uppercase ASCII letters
/// using a single `u32`. Each of the 26 letters corresponds to one bit,
/// with the 6 high bits always zero.
///
/// The view of a `LetterSet` is the mathematical set of letter numbers
/// (0 for 'A' through 25 for 'Z') whose bit is set.
///
/// `LetterSet` is immutable by design: inserting a letter returns a new
/// set, leaving the original intact. There is no removal operation.
#[derive(Clone, Copy, Debug, Default, PartialEq, Eq, Structural)]
pub struct LetterSet(u32);

/// The set of letter numbers in `0 <= l < n` whose bit is set in `bits`.
spec fn bits_below(bits: u32, n: int) -> Set<int> {
    Set::new(|l: int| 0 <= l < n && (bits >> (l as u32)) & 1u32 == 1u32)
}

impl View for LetterSet {
    type V = Set<int>;

    closed spec fn view(&self) -> Set<int> {
        bits_below(self.0, 26)
    }
}

/// The sets of letter numbers below a bound are finite, with no more
/// members than the bound.
proof fn lemma_bits_below_finite(bits: u32, n: int)
    requires
        0 <= n <= 26,
    ensures
        bits_below(bits, n).finite(),
        bits_below(bits, n).len() <= n,
    decreases n,
{
    if n == 0 {
        assert(bits_below(bits, 0) =~= Set::empty());
    } else {
        lemma_bits_below_finite(bits, n - 1);
        if (bits >> ((n - 1) as u32)) & 1u32 == 1u32 {
            assert(bits_below(bits, n) =~= bits_below(bits, n - 1).insert(n - 1));
        } else {
            assert(bits_below(bits, n) =~= bits_below(bits, n - 1));
        }
    }
}

/// A single bit test, in the two forms the code and the view use.
proof fn lemma_bit_test(bits: u32, j: u32)
    requires
        j < 32,
    ensures
        (bits & (1u32 << j) > 0) <==> ((bits >> j) & 1u32 == 1u32),
{
    assert((bits & (1u32 << j) > 0) <==> ((bits >> j) & 1u32 == 1u32)) by (bit_vector)
        requires j < 32;
}

impl LetterSet {
    /// The representation invariant: only the 26 letter bits may be set.
    #[verifier::type_invariant]
    pub closed spec fn inv(self) -> bool {
        self.0 >> 26u32 == 0u32
    }

    /// Returns an empty `LetterSet` with no letters included.
    pub fn empty() -> (r: Self)
        ensures
            r@ == Set::<int>::empty(),
    {
        proof {
            assert(0u32 >> 26u32 == 0u32) by (bit_vector);
        }
        let r = LetterSet(0);
        proof {
            assert(forall|l: u32| l < 26 ==> #[trigger] ((0u32 >> l) & 1u32) == 0u32)
                by (bit_vector);
            assert(r@ =~= Set::<int>::empty());
        }
        r
    }

    /// Compares two `LetterSet` values for equality. Two sets are equal
    /// exactly when they represent the same letters.
    pub fn eq(self, other: Self) -> (r: bool)
        ensures
            r == (self@ == other@),
    {
        let mut i: u8 = 0;
        while i < 26
            invariant
                i <= 26,
                forall|l: int| 0 <= l < i ==> (self@.contains(l) == #[trigger] other@.contains(l)),
            decreases 26 - i,
        {
            if self.has(i) != other.has(i) {
                proof {
                    assert(self@.contains(i as int) != other@.contains(i as int));
                }
                return false;
            }
            i += 1;
        }
        proof {
            assert(self@ =~= other@);
        }
        true
    }

    /// Constructs a new `LetterSet` from the raw packed representation used
    /// by a bit-packed letter sequence: 5-bit letter numbers stacked above a
    /// single terminating one-bit, the empty sequence being the value `1`.
    ///
    /// The packed value must be well formed, and the packed letters must be
    /// distinct, since each is inserted in turn.
    pub fn from_raw_letters(letters: u64) -> (r: Self)
        requires
            raw_wf(letters),
        ensures
            r@ == raw_set(letters),
    {
        let mut rest = letters;
        let mut letter_set = Self::empty();
        proof {
            assert(raw_set(letters) =~= raw_set(rest) + letter_set@);
        }
        while rest != 1
            invariant
                raw_wf(rest),
                raw_set(letters) == raw_set(rest) + letter_set@,
                raw_set(rest).disjoint(letter_set@),
            decreases rest,
        {
            let letter = (rest & 0b1_1111) as u8;
            proof {
                assert(raw_set(rest).contains(letter as int));
            }
            letter_set = letter_set.insert(letter);
            proof {
                assert(rest >> 5u64 < rest) by (bit_vector)
                    requires rest > 1;
                let next = rest >> 5u64;
                assert(raw_set(rest) =~= raw_set(next).insert(letter as int));
                assert(raw_set(letters) =~= raw_set(next) + letter_set@);
                assert(raw_set(next).disjoint(letter_set@));
            }
            rest = rest >> 5u64;
        }
        proof {
            assert(raw_set(letters) =~= letter_set@);
        }
        letter_set
    }

    /// Constructs a `LetterSet` from a slice of uppercase ASCII bytes,
    /// which must be distinct since each is inserted in turn.
    pub fn from_ascii_slice(letters: &[u8]) -> (r: Self)
        requires
            forall|k: int| 0 <= k < letters@.len() ==> 65 <= #[trigger] letters@[k] <= 90,
            forall|k1: int, k2: int|
                0 <= k1 < k2 < letters@.len() ==> letters@[k1] != letters@[k2],
        ensures
            r@ == ascii_seq_set(letters@),
    {
        let mut letter_set = Self::empty();
        let n = letters.len();
        for i in 0..n
            invariant
                n == letters@.len(),
                forall|k: int| 0 <= k < letters@.len() ==> 65 <= #[trigger] letters@[k] <= 90,
                forall|k1: int, k2: int|
                    0 <= k1 < k2 < letters@.len() ==> letters@[k1] != letters@[k2],
                letter_set@ == ascii_seq_set(letters@.take(i as int)),
        {
            let byte = letters[i];
            proof {
                assert(forall|k: int|
                    0 <= k < i ==> letters@.take(i as int)[k] == letters@[k]);
                if ascii_seq_set(letters@.take(i as int)).contains((byte - 65) as int) {
                    let s = letters@.take(i as int);
                    let k = choose|k: int| 0 <= k < s.len() && s[k] == byte;
                    assert(letters@[k] == letters@[i as int]);
                    assert(false);
                }
            }
            letter_set = letter_set.insert(byte - 65);
            proof {
                let sfull = letters@.take(i + 1);
                let spre = letters@.take(i as int);
                let inserted = ascii_seq_set(spre).insert((byte - 65) as int);
                assert(forall|k: int| 0 <= k < i + 1 ==> sfull[k] == letters@[k]);
                assert forall|l: int| #![trigger ascii_seq_set(sfull).contains(l)]
                    ascii_seq_set(sfull).contains(l) implies inserted.contains(l) by {
                    let k = choose|k: int| 0 <= k < sfull.len() && sfull[k] == (l + 65) as u8;
                    if k < i {
                        assert(spre[k] == (l + 65) as u8);
                        assert(spre.contains((l + 65) as u8));
                    }
                }
                assert forall|l: int| #![trigger inserted.contains(l)]
                    inserted.contains(l) implies ascii_seq_set(sfull).contains(l) by {
                    if ascii_seq_set(spre).contains(l) {
                        let k = choose|k: int| 0 <= k < spre.len() && spre[k] == (l + 65) as u8;
                        assert(sfull[k] == (l + 65) as u8);
                        assert(sfull.contains((l + 65) as u8));
                    } else {
                        assert(sfull[i as int] == (l + 65) as u8);
                        assert(sfull.contains((l + 65) as u8));
                    }
                }
                assert(ascii_seq_set(sfull) =~= inserted);
            }
        }
        proof {
            assert(letters@.take(n as int) =~= letters@);
        }
        letter_set
    }

    /// Returns the count of letters contained in the set.
    pub fn len(self) -> (r: usize)
        ensures
            r == self@.len(),
            r <= 26,
    {
        let mut count: usize = 0;
        let mut i: u8 = 0;
        proof {
            assert(bits_below(self.0, 0) =~= Set::empty());
        }
        while i < 26
            invariant
                i <= 26,
                bits_below(self.0, i as int).finite(),
                count == bits_below(self.0, i as int).len(),
                count <= i,
            decreases 26 - i,
        {
            proof {
                lemma_bit_test(self.0, i as u32);
                if (self.0 >> (i as u32)) & 1u32 == 1u32 {
                    assert(bits_below(self.0, i + 1) =~= bits_below(self.0, i as int).insert(
                        i as int,
                    ));
                } else {
                    assert(bits_below(self.0, i + 1) =~= bits_below(self.0, i as int));
                }
            }
            if self.0 & (1u32 << i) > 0 {
                count += 1;
            }
            i += 1;
        }
        count
    }

    /// Returns `true` if the set contains no letters, otherwise `false`.
    pub fn is_empty(self) -> (r: bool)
        ensures
            r == (self@ == Set::<int>::empty()),
    {
        let r = self.len() == 0;
        proof {
            lemma_bits_below_finite(self.0, 26);
            if self@.len() == 0 {
                self@.lemma_len0_is_empty();
            }
        }
        r
    }

    /// Returns `true` if the given letter number is in this `LetterSet`.
    pub fn has(self, letter: u8) -> (r: bool)
        requires
            letter < 26,
        ensures
            r == self@.contains(letter as int),
    {
        proof {
            lemma_bit_test(self.0, letter as u32);
        }
        self.0 & (1u32 << letter) > 0
    }

    /// Returns `true` if the given ASCII byte is an uppercase letter that is
    /// in this `LetterSet`.
    pub fn has_ascii(self, letter: u8) -> (r: bool)
        ensures
            r == (65 <= letter <= 90 && self@.contains((letter - 65) as int)),
    {
        letter >= 65 && letter <= 90 && self.has(letter - 65)
    }

    /// Returns a new `LetterSet` with the given letter number added. The
    /// letter must be in range and not already present.
    pub fn insert(self, letter: u8) -> (r: Self)
        requires
            letter < 26,
            !self@.contains(letter as int),
        ensures
            r@ == self@.insert(letter as int),
    {
        proof {
            use_type_invariant(self);
            let b = self.0;
            let j = letter as u32;
            assert((b | (1u32 << j)) >> 26u32 == 0u32) by (bit_vector)
                requires b >> 26u32 == 0u32, j < 26;
        }
        let r = LetterSet(self.0 | (1u32 << letter));
        proof {
            let b = self.0;
            let j = letter as u32;
            assert(forall|l: u32|
                l < 26 ==> ((#[trigger] (((b | (1u32 << j)) >> l) & 1u32) == 1u32) <==> (((b >> l)
                    & 1u32 == 1u32) || l == j))) by (bit_vector)
                requires j < 26;
            assert(r@ =~= self@.insert(letter as int));
        }
        r
    }

    /// Returns a new `LetterSet` containing only the letters present in both
    /// `self` and `other`.
    pub fn intersection(self, other: LetterSet) -> (r: LetterSet)
        ensures
            r@ == self@.intersect(other@),
    {
        proof {
            use_type_invariant(self);
            let a = self.0;
            let b = other.0;
            assert((a & b) >> 26u32 == 0u32) by (bit_vector)
                requires a >> 26u32 == 0u32;
        }
        let r = LetterSet(self.0 & other.0);
        proof {
            let a = self.0;
            let b = other.0;
            assert(forall|l: u32|
                l < 26 ==> ((#[trigger] (((a & b) >> l) & 1u32) == 1u32) <==> (((a >> l) & 1u32
                    == 1u32) && ((b >> l) & 1u32 == 1u32)))) by (bit_vector);
            assert(r@ =~= self@.intersect(other@));
        }
        r
    }

    /// Returns a new `LetterSet` containing the letters present in either
    /// `self` or `other` (or both).
    pub fn union(self, other: LetterSet) -> (r: LetterSet)
        ensures
            r@ == self@.union(other@),
    {
        proof {
            use_type_invariant(self);
            use_type_invariant(other);
            let a = self.0;
            let b = other.0;
            assert((a | b) >> 26u32 == 0u32) by (bit_vector)
                requires a >> 26u32 == 0u32, b >> 26u32 == 0u32;
        }
        let r = LetterSet(self.0 | other.0);
        proof {
            let a = self.0;
            let b = other.0;
            assert(forall|l: u32|
                l < 26 ==> ((#[trigger] (((a | b) >> l) & 1u32) == 1u32) <==> (((a >> l) & 1u32
                    == 1u32) || ((b >> l) & 1u32 == 1u32)))) by (bit_vector);
            assert(r@ =~= self@.union(other@));
        }
        r
    }

    /// Returns the ASCII bytes contained within this `LetterSet`, in
    /// ascending order.
    pub fn ascii_bytes(self) -> (r: Vec<u8>)
        ensures
            forall|k: int|
                0 <= k < r@.len() ==> 65 <= #[trigger] r@[k] <= 90 && self@.contains(
                    r@[k] - 65,
                ),
            forall|k1: int, k2: int| 0 <= k1 < k2 < r@.len() ==> r@[k1] < r@[k2],
            forall|l: int| 0 <= l < 26 && self@.contains(l) ==> r@.contains((l + 65) as u8),
    {
        let mut r: Vec<u8> = Vec::new();
        let mut i: u8 = 0;
        while i < 26
            invariant
                i <= 26,
                forall|k: int|
                    0 <= k < r@.len() ==> 65 <= #[trigger] r@[k] <= 90 && r@[k] - 65 < i
                        && self@.contains(r@[k] - 65),
                forall|k1: int, k2: int| 0 <= k1 < k2 < r@.len() ==> r@[k1] < r@[k2],
                forall|l: int| 0 <= l < i && self@.contains(l) ==> r@.contains((l + 65) as u8),
            decreases 26 - i,
        {
            let ghost r0 = r@;
            if self.has(i) {
                r.push(i + 65);
            }
            proof {
                assert forall|l: int|
                    0 <= l < i + 1 && self@.contains(l) implies r@.contains((l + 65) as u8) by {
                    if l < i {
                        assert(r0.contains((l + 65) as u8));
                        let k = choose|k: int| 0 <= k < r0.len() && r0[k] == (l + 65) as u8;
                        assert(r@[k] == (l + 65) as u8);
                    } else {
                        assert(r@[r0.len() as int] == (i + 65) as u8);
                    }
                }
            }
            i += 1;
        }
        r
    }
}

/// Well-formedness of the raw packed representation consumed by
/// [`LetterSet::from_raw_letters`]: the terminating one-bit is reachable,
/// every packed letter number is below 26, and the letters are distinct.
pub open spec fn raw_wf(letters: u64) -> bool
    decreases letters via raw_wf_dec
{
    if letters == 1 {
        true
    } else if letters == 0 {
        false
    } else {
        &&& (letters & 0b1_1111) < 26
        &&& raw_wf(letters >> 5u64)
        &&& !raw_set(letters >> 5u64).contains((letters & 0b1_1111) as int)
    }
}

#[via_fn]
proof fn raw_wf_dec(letters: u64) {
    if letters != 0 && letters != 1 {
        assert(letters >> 5u64 < letters) by (bit_vector)
            requires letters > 1;
    }
}

/// The set of letter numbers packed in the raw representation.
pub open spec fn raw_set(letters: u64) -> Set<int>
    decreases letters via raw_set_dec
{
    if letters == 1 || letters == 0 {
        Set::empty()
    } else {
        raw_set(letters >> 5u64).insert((letters & 0b1_1111) as int)
    }
}

#[via_fn]
proof fn raw_set_dec(letters: u64) {
    if letters != 0 && letters != 1 {
        assert(letters >> 5u64 < letters) by (bit_vector)
            requires letters > 1;
    }
}

/// The set of letter numbers whose ASCII byte occurs in the sequence.
pub open spec fn ascii_seq_set(s: Seq<u8>) -> Set<int> {
    Set::new(|l: int| 0 <= l < 26 && s.contains((l + 65) as u8))
}

/// Every member of a `LetterSet` is a letter number below 26.
pub broadcast proof fn lemma_letter_set_members(s: LetterSet, m: int)
    requires
        #[trigger] s@.contains(m),
    ensures
        0 <= m < 26,
{
}

} // verus!
