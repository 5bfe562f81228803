//! The recursive backtracking search that chains board-legal words into
//! complete 12-letter solutions.
//!
//! Three strategies are offered — filter-only, partition, and
//! partition-once — that differ only in how each recursion level narrows
//! the pool of candidate words. All three provably produce the identical
//! sequence of solutions, pinned by the single specification function
//! [`spec_solutions`].

use crate::letter_group::LetterGrouping;
use crate::letter_sequence::chain_wf;
use crate::letter_sequence::seq_letter_set;
use crate::letter_sequence::spec_can_append;
use crate::letter_sequence::spec_valid_word;
use crate::letter_sequence::lemma_letter_set_finite;
use crate::letter_sequence::lemma_singleton_members;
use crate::letter_sequence::ChainView;
use crate::letter_sequence::LetterSequence;
use vstd::prelude::*;

verus! {

broadcast use crate::letter_sequence::lemma_sequence_wf;

/// The models of a sequence of `LetterSequence` values.
pub open spec fn views(s: Seq<LetterSequence>) -> Seq<ChainView> {
    s.map_values(|x: LetterSequence| x@)
}

/// A candidate stays eligible for a chain while it shares at most one
/// letter with it; sharing two or more letters can never lead to a valid
/// extension at any depth.
pub open spec fn small_overlap(w: ChainView, s: ChainView) -> bool {
    seq_letter_set(w.letters).intersect(seq_letter_set(s.letters)).len() <= 1
}

/// The candidates of `pool` that stay eligible for the chain `s`.
pub open spec fn keep_candidates(pool: Seq<ChainView>, s: ChainView) -> Seq<ChainView> {
    pool.filter(|w: ChainView| small_overlap(w, s))
}

/// A candidate word extends a chain when it can be appended to it, is a
/// well-formed word of at least 3 letters, and the combined chain fits the
/// 12 letters of a board.
pub open spec fn extends(w: ChainView, s: ChainView) -> bool {
    &&& spec_can_append(w, s)
    &&& chain_wf(w)
    &&& w.letters.len() >= 3
    &&& s.letters.len() + w.letters.len() - 1 <= 12
}

/// The chain obtained by appending the word `w` to the chain `s`: the
/// duplicated boundary letter is dropped and the final letter of the
/// combined chain is marked as a word boundary.
pub open spec fn append_model(w: ChainView, s: ChainView) -> ChainView {
    ChainView {
        letters: s.letters + w.letters.skip(1),
        marks: s.marks.insert(s.letters.len() + w.letters.len() - 2),
    }
}

/// The solutions reachable from the chain `s` using the words of `pool`:
/// a complete 12-letter chain is itself the one solution; an 11-letter
/// chain is a dead end, since no word adds fewer than 2 letters; otherwise
/// each eligible candidate that extends the chain is tried in order.
pub open spec fn spec_solutions(s: ChainView, pool: Seq<ChainView>) -> Seq<ChainView>
    decreases 12 - s.letters.len(), pool.len() + 1, 0int
        via spec_solutions_dec
{
    if s.letters.len() == 12 {
        seq![s]
    } else if s.letters.len() >= 11 {
        Seq::empty()
    } else {
        sols_upto(s, keep_candidates(pool, s), keep_candidates(pool, s).len() as int)
    }
}

/// The solutions contributed by the first `i` candidates of the pool `f`
/// when extending the chain `s`: each candidate that extends the chain
/// contributes, in order, every solution reachable from the extended chain
/// over the same pool `f`.
pub open spec fn sols_upto(s: ChainView, f: Seq<ChainView>, i: int) -> Seq<ChainView>
    decreases 12 - s.letters.len(), f.len(), i
        via sols_upto_dec
{
    if i <= 0 {
        Seq::empty()
    } else {
        let rest = sols_upto(s, f, i - 1);
        let w = f[i - 1];
        if extends(w, s) {
            rest + spec_solutions(append_model(w, s), f)
        } else {
            rest
        }
    }
}

#[via_fn]
proof fn spec_solutions_dec(s: ChainView, pool: Seq<ChainView>) {
    if s.letters.len() < 11 {
        pool.lemma_filter_len(|w: ChainView| small_overlap(w, s));
    }
}

#[via_fn]
proof fn sols_upto_dec(s: ChainView, f: Seq<ChainView>, i: int) {
    if i > 0 {
        let w = f[i - 1];
        if extends(w, s) {
            assert(append_model(w, s).letters.len() == s.letters.len() + w.letters.len() - 1);
        }
    }
}

/// A word is blocked for a chain when it shares some letter with the chain
/// other than the chain's final letter: it can then never be appended, now
/// or after any further extension.
pub open spec fn blocked(w: ChainView, s: ChainView) -> bool {
    &&& s.letters.len() > 0
    &&& exists|l: int|
        #[trigger] seq_letter_set(w.letters).contains(l) && seq_letter_set(s.letters).contains(
            l,
        ) && l != s.letters.last()
}

/// A blocked word cannot be appended to the chain.
proof fn lemma_blocked_no_append(w: ChainView, s: ChainView)
    requires
        blocked(w, s),
    ensures
        !spec_can_append(w, s),
{
    if spec_can_append(w, s) {
        let inter = seq_letter_set(w.letters).intersect(seq_letter_set(s.letters));
        let l = choose|l: int|
            #[trigger] seq_letter_set(w.letters).contains(l) && seq_letter_set(
                s.letters,
            ).contains(l) && l != s.letters.last();
        lemma_letter_set_finite(w.letters);
        vstd::set_lib::lemma_len_intersect(seq_letter_set(w.letters), seq_letter_set(s.letters));
        lemma_singleton_members(inter, l, s.letters.last() as int);
        assert(false);
    }
}

/// The last letter of a word that extends a chain is a fresh letter: it
/// does not occur in the chain.
proof fn lemma_extension_last_fresh(y: ChainView, s: ChainView)
    requires
        extends(y, s),
    ensures
        !seq_letter_set(s.letters).contains(y.letters.last() as int),
        append_model(y, s).letters.len() > 0,
        append_model(y, s).letters.last() == y.letters.last(),
{
    let inter = seq_letter_set(y.letters).intersect(seq_letter_set(s.letters));
    lemma_letter_set_finite(y.letters);
    vstd::set_lib::lemma_len_intersect(seq_letter_set(y.letters), seq_letter_set(s.letters));
    if seq_letter_set(s.letters).contains(y.letters.last() as int) {
        assert(seq_letter_set(y.letters).contains(y.letters.last() as int));
        lemma_singleton_members(inter, y.letters.last() as int, y.letters[0] as int);
        // then the word would start and end with the same letter
        assert(y.letters[0] == y.letters[y.letters.len() - 1]);
        assert(false);
    }
    let c = append_model(y, s);
    assert(c.letters.last() == y.letters.skip(1).last());
    assert(y.letters.skip(1).last() == y.letters.last());
}

/// Blockedness persists through any extension of the chain.
proof fn lemma_blocked_persists(w: ChainView, y: ChainView, s: ChainView)
    requires
        blocked(w, s),
        extends(y, s),
    ensures
        blocked(w, append_model(y, s)),
{
    let c = append_model(y, s);
    let l = choose|l: int|
        #[trigger] seq_letter_set(w.letters).contains(l) && seq_letter_set(s.letters).contains(
            l,
        ) && l != s.letters.last();
    lemma_extension_last_fresh(y, s);
    crate::letter_sequence::lemma_letter_set_concat(s.letters, y.letters.skip(1));
    assert(seq_letter_set(c.letters).contains(l));
    assert(l != c.letters.last());
    assert(seq_letter_set(w.letters).contains(l) && seq_letter_set(c.letters).contains(l)
        && l != c.letters.last());
}

/// A word that can be appended to a chain now is blocked for every
/// extension of that chain: its connecting letter stays in the chain but
/// can never again be the chain's final letter.
proof fn lemma_appendable_now_blocked_later(w: ChainView, y: ChainView, s: ChainView)
    requires
        spec_can_append(w, s),
        extends(y, s),
    ensures
        blocked(w, append_model(y, s)),
{
    let c = append_model(y, s);
    let l = s.letters.last() as int;
    assert(seq_letter_set(w.letters).contains(l));
    assert(seq_letter_set(s.letters).contains(l)) by {
        assert(s.letters[s.letters.len() - 1] == s.letters.last());
    }
    lemma_extension_last_fresh(y, s);
    crate::letter_sequence::lemma_letter_set_concat(s.letters, y.letters.skip(1));
    assert(seq_letter_set(c.letters).contains(l));
    assert(l != c.letters.last());
    assert(seq_letter_set(w.letters).contains(l) && seq_letter_set(c.letters).contains(l)
        && l != c.letters.last());
}

/// Filtering a pool with two predicates in either order gives the same
/// pool.
proof fn lemma_filter_comm(
    pool: Seq<ChainView>,
    p: spec_fn(ChainView) -> bool,
    q: spec_fn(ChainView) -> bool,
)
    ensures
        pool.filter(p).filter(q) == pool.filter(q).filter(p),
    decreases pool.len(),
{
    broadcast use vstd::seq_lib::group_filter_ensures;
    broadcast use Seq::filter_distributes_over_add;

    reveal_with_fuel(Seq::<ChainView>::filter, 2);
    if pool.len() == 0 {
        assert(pool.filter(p) =~= Seq::<ChainView>::empty());
        assert(pool.filter(q) =~= Seq::<ChainView>::empty());
        assert(pool.filter(p).filter(q) =~= Seq::<ChainView>::empty());
        assert(pool.filter(q).filter(p) =~= Seq::<ChainView>::empty());
    } else {
        let front = pool.drop_last();
        let x = pool.last();
        lemma_filter_comm(front, p, q);
        assert(pool =~= front + seq![x]);
        assert(pool.filter(p) == front.filter(p) + seq![x].filter(p));
        assert(pool.filter(q) == front.filter(q) + seq![x].filter(q));
        assert(pool.filter(p).filter(q) == front.filter(p).filter(q) + seq![x].filter(p).filter(
            q,
        ));
        assert(pool.filter(q).filter(p) == front.filter(q).filter(p) + seq![x].filter(q).filter(
            p,
        ));
        reveal_with_fuel(Seq::filter, 4);
        assert(seq![x].filter(p).filter(q) == seq![x].filter(q).filter(p));
    }
}

/// Removing blocked words from the pool does not change the solutions: a
/// blocked word can never be appended at this node nor at any descendant.
/// This is the invariance that lets the partition strategies shrink their
/// pools, and it is why all strategies return identical solutions.
pub proof fn lemma_prune(s: ChainView, pool: Seq<ChainView>, pred: spec_fn(ChainView) -> bool)
    requires
        forall|w: ChainView| !pred(w) ==> blocked(w, s),
    ensures
        spec_solutions(s, pool) == spec_solutions(s, pool.filter(pred)),
    decreases 12 - s.letters.len(), pool.len() + 1, 1int, 0int,
{
    broadcast use vstd::seq_lib::group_filter_ensures;

    if s.letters.len() >= 11 {
    } else {
        let keep_pred = |w: ChainView| small_overlap(w, s);
        let k1 = keep_candidates(pool, s);
        let k2 = keep_candidates(pool.filter(pred), s);
        lemma_filter_comm(pool, pred, keep_pred);
        assert(k2 == k1.filter(pred));
        lemma_prune_upto(s, k1, pred, k1.len() as int);
        assert(k1.take(k1.len() as int) =~= k1);
    }
}

/// The candidate-walking half of [`lemma_prune`]: walking the first `i`
/// candidates of `f` gives the same solutions as walking the corresponding
/// prefix of `f` with the blocked words removed.
proof fn lemma_prune_upto(s: ChainView, f: Seq<ChainView>, pred: spec_fn(ChainView) -> bool, i: int)
    requires
        0 <= i <= f.len(),
        forall|w: ChainView| !pred(w) ==> blocked(w, s),
    ensures
        sols_upto(s, f, i) == sols_upto(s, f.filter(pred), f.take(i).filter(pred).len() as int),
        f.take(i).filter(pred).len() <= f.filter(pred).len(),
    decreases 12 - s.letters.len(), f.len(), 0int, i,
{
    broadcast use vstd::seq_lib::group_filter_ensures;
    broadcast use Seq::filter_distributes_over_add;

    reveal_with_fuel(Seq::<ChainView>::filter, 2);
    let f2 = f.filter(pred);
    if i <= 0 {
        assert(f.take(0) =~= Seq::<ChainView>::empty());
        assert(f.take(0).filter(pred) =~= Seq::<ChainView>::empty());
    } else {
        lemma_prune_upto(s, f, pred, i - 1);
        let w = f[i - 1];
        assert(f.take(i).drop_last() =~= f.take(i - 1));
        assert(f.take(i).last() == w);
        let j = f.take(i - 1).filter(pred).len() as int;
        if pred(w) {
            assert(f.take(i).filter(pred) == f.take(i - 1).filter(pred).push(w));
            // the next remaining candidate is w itself
            assert(f =~= f.take(i) + f.skip(i));
            assert(f2 == f.take(i).filter(pred) + f.skip(i).filter(pred));
            assert(f2[j] == w);
            if extends(w, s) {
                let child = append_model(w, s);
                assert(child.letters.len() == s.letters.len() + w.letters.len() - 1);
                assert forall|v: ChainView| !pred(v) implies blocked(v, child) by {
                    lemma_blocked_persists(v, w, s);
                }
                lemma_prune(child, f, pred);
                assert(sols_upto(s, f2, j + 1) == sols_upto(s, f2, j) + spec_solutions(
                    child,
                    f2,
                ));
            } else {
                assert(sols_upto(s, f2, j + 1) == sols_upto(s, f2, j));
            }
        } else {
            // w is blocked, so it cannot extend the chain and is absent
            // from the remaining pool
            assert(blocked(w, s));
            lemma_blocked_no_append(w, s);
            assert(!extends(w, s));
            assert(f.take(i).filter(pred) == f.take(i - 1).filter(pred));
        }
    }
}

/// The solutions contributed by walking the first `i` entries of a list
/// `a` of immediately appendable words, where every child search runs over
/// the pool `pool`.
pub open spec fn sols_via(
    s: ChainView,
    a: Seq<ChainView>,
    pool: Seq<ChainView>,
    i: int,
) -> Seq<ChainView>
    decreases i,
{
    if i <= 0 {
        Seq::empty()
    } else {
        let rest = sols_via(s, a, pool, i - 1);
        let w = a[i - 1];
        if extends(w, s) {
            rest + spec_solutions(append_model(w, s), pool)
        } else {
            rest
        }
    }
}

/// Walking a prefix of appendable words depends only on that prefix.
proof fn lemma_sols_via_agree(
    s: ChainView,
    a1: Seq<ChainView>,
    a2: Seq<ChainView>,
    pool: Seq<ChainView>,
    j: int,
)
    requires
        forall|k: int| 0 <= k < j ==> a1[k] == a2[k],
    ensures
        sols_via(s, a1, pool, j) == sols_via(s, a2, pool, j),
    decreases j,
{
    if j > 0 {
        lemma_sols_via_agree(s, a1, a2, pool, j - 1);
    }
}

/// Walking every candidate of a pool and descending at the appendable ones
/// is the same as first splitting off the appendable ones and walking only
/// those.
proof fn lemma_partition_walk(s: ChainView, f: Seq<ChainView>, i: int)
    requires
        0 <= i <= f.len(),
    ensures
        sols_upto(s, f, i) == sols_via(
            s,
            f.take(i).filter(|w: ChainView| spec_can_append(w, s)),
            f,
            f.take(i).filter(|w: ChainView| spec_can_append(w, s)).len() as int,
        ),
    decreases i,
{
    reveal_with_fuel(Seq::<ChainView>::filter, 2);
    let pred = |w: ChainView| spec_can_append(w, s);
    if i <= 0 {
        assert(f.take(0) =~= Seq::<ChainView>::empty());
        assert(f.take(0).filter(pred) =~= Seq::<ChainView>::empty());
    } else {
        lemma_partition_walk(s, f, i - 1);
        let w = f[i - 1];
        assert(f.take(i).drop_last() =~= f.take(i - 1));
        assert(f.take(i).last() == w);
        let a_prev = f.take(i - 1).filter(pred);
        let a_new = f.take(i).filter(pred);
        if pred(w) {
            assert(a_new == a_prev.push(w));
            lemma_sols_via_agree(s, a_prev, a_new, f, a_prev.len() as int);
            assert(a_new[a_new.len() - 1] == w);
        } else {
            assert(a_new == a_prev);
            assert(!extends(w, s));
        }
    }
}

/// Pushing a sequence value appends its model to the models.
proof fn lemma_views_push(s: Seq<LetterSequence>, x: LetterSequence)
    ensures
        views(s.push(x)) == views(s).push(x@),
{
    assert(views(s.push(x)) =~= views(s).push(x@));
}

/// Solves by filtering alone: at each level the candidate pool is reduced
/// to the words still sharing at most one letter with the chain, each
/// appendable word is tried in turn, and every child search reuses the
/// same reduced pool.
pub fn solve_filter_only(
    sequence: LetterSequence,
    solutions: &mut Vec<LetterSequence>,
    valid_words: &[LetterSequence],
)
    requires
        forall|k: int|
            0 <= k < valid_words@.len() ==> (#[trigger] valid_words@[k])@.letters.len() >= 3,
    ensures
        views(final(solutions)@) == views(old(solutions)@) + spec_solutions(
            sequence@,
            views(valid_words@),
        ),
    decreases 12 - sequence@.letters.len(),
{
    proof {
        use_type_invariant(sequence);
    }
    let len = sequence.len();
    if len == 12 {
        let ghost sols0 = solutions@;
        solutions.push(sequence);
        proof {
            lemma_views_push(sols0, sequence);
            assert(views(solutions@) =~= views(old(solutions)@) + seq![sequence@]);
            assert(spec_solutions(sequence@, views(valid_words@)) == seq![sequence@]);
        }
    } else if len == 11 {
        proof {
            assert(spec_solutions(sequence@, views(valid_words@)) == Seq::<ChainView>::empty());
            assert(views(solutions@) =~= views(old(solutions)@) + Seq::<ChainView>::empty());
        }
    } else {
        let ghost pool = views(valid_words@);
        let mut filtered: Vec<LetterSequence> = Vec::new();
        let n = valid_words.len();
        let mut idx: usize = 0;
        proof {
            reveal_with_fuel(Seq::<ChainView>::filter, 2);
            assert(pool.take(0) =~= Seq::<ChainView>::empty());
            assert(views(filtered@) =~= keep_candidates(pool.take(0), sequence@));
        }
        while idx < n
            invariant
                n == valid_words@.len(),
                idx <= n,
                pool == views(valid_words@),
                forall|k: int|
                    0 <= k < valid_words@.len() ==> (
                    #[trigger] valid_words@[k])@.letters.len() >= 3,
                views(filtered@) == keep_candidates(pool.take(idx as int), sequence@),
                forall|k: int|
                    0 <= k < filtered@.len() ==> (#[trigger] filtered@[k])@.letters.len() >= 3,
            decreases n - idx,
        {
            let w = valid_words[idx];
            let ghost f0 = filtered@;
            let keep = w.shared_letter_count(sequence) <= 1;
            if keep {
                filtered.push(w);
            }
            proof {
                reveal_with_fuel(Seq::<ChainView>::filter, 2);
                assert(pool.take(idx + 1).drop_last() =~= pool.take(idx as int));
                assert(pool.take(idx + 1).last() == w@);
                if keep {
                    assert(keep_candidates(pool.take(idx + 1), sequence@) == keep_candidates(
                        pool.take(idx as int),
                        sequence@,
                    ).push(w@));
                    lemma_views_push(f0, w);
                } else {
                    assert(keep_candidates(pool.take(idx + 1), sequence@) == keep_candidates(
                        pool.take(idx as int),
                        sequence@,
                    ));
                }
            }
            idx += 1;
        }
        proof {
            assert(pool.take(n as int) =~= pool);
        }
        let ghost fm = views(filtered@);
        let m = filtered.len();
        let mut t: usize = 0;
        proof {
            assert(views(solutions@) =~= views(old(solutions)@) + sols_upto(sequence@, fm, 0));
        }
        while t < m
            invariant
                m == filtered@.len(),
                t <= m,
                fm == views(filtered@),
                fm == keep_candidates(views(valid_words@), sequence@),
                sequence@.letters.len() < 11,
                forall|k: int|
                    0 <= k < filtered@.len() ==> (#[trigger] filtered@[k])@.letters.len() >= 3,
                views(solutions@) == views(old(solutions)@) + sols_upto(
                    sequence@,
                    fm,
                    t as int,
                ),
            decreases m - t,
        {
            let w = filtered[t];
            if w.can_append_to(sequence) {
                proof {
                    use_type_invariant(w);
                    use_type_invariant(sequence);
                }
                let child = w.append_to(sequence);
                proof {
                    use_type_invariant(child);
                    assert(child@ =~= append_model(w@, sequence@));
                    assert(child@.letters.len() == sequence@.letters.len() + w@.letters.len()
                        - 1);
                    assert(extends(w@, sequence@));
                }
                solve_filter_only(child, solutions, filtered.as_slice());
                proof {
                    assert(fm[t as int] == w@);
                    assert(sols_upto(sequence@, fm, t + 1) == sols_upto(sequence@, fm, t as int)
                        + spec_solutions(append_model(w@, sequence@), fm));
                    assert(views(solutions@) =~= views(old(solutions)@) + sols_upto(
                        sequence@,
                        fm,
                        t + 1,
                    ));
                }
            } else {
                proof {
                    assert(fm[t as int] == w@);
                    assert(!extends(w@, sequence@));
                    assert(sols_upto(sequence@, fm, t + 1) == sols_upto(
                        sequence@,
                        fm,
                        t as int,
                    ));
                }
            }
            t += 1;
        }
        proof {
            assert(m == fm.len());
            assert(spec_solutions(sequence@, views(valid_words@)) == sols_upto(
                sequence@,
                fm,
                m as int,
            ));
        }
    }
}

/// Solves by partitioning at every level: the eligible candidates are
/// split in one pass into those immediately appendable and the rest, and
/// each child search receives only the rest — an appendable word can never
/// be appended again deeper in the same branch.
pub fn solve_partition(
    sequence: LetterSequence,
    solutions: &mut Vec<LetterSequence>,
    valid_words: &[LetterSequence],
)
    requires
        forall|k: int|
            0 <= k < valid_words@.len() ==> (#[trigger] valid_words@[k])@.letters.len() >= 3,
    ensures
        views(final(solutions)@) == views(old(solutions)@) + spec_solutions(
            sequence@,
            views(valid_words@),
        ),
    decreases 12 - sequence@.letters.len(),
{
    proof {
        use_type_invariant(sequence);
    }
    let len = sequence.len();
    if len == 12 {
        let ghost sols0 = solutions@;
        solutions.push(sequence);
        proof {
            lemma_views_push(sols0, sequence);
            assert(views(solutions@) =~= views(old(solutions)@) + seq![sequence@]);
            assert(spec_solutions(sequence@, views(valid_words@)) == seq![sequence@]);
        }
    } else if len == 11 {
        proof {
            assert(spec_solutions(sequence@, views(valid_words@)) == Seq::<ChainView>::empty());
            assert(views(solutions@) =~= views(old(solutions)@) + Seq::<ChainView>::empty());
        }
    } else {
        let ghost pool = views(valid_words@);
        let ghost cp = |w: ChainView| spec_can_append(w, sequence@);
        let ghost np = |w: ChainView| !spec_can_append(w, sequence@);
        let mut appendable: Vec<LetterSequence> = Vec::new();
        let mut remaining: Vec<LetterSequence> = Vec::new();
        let n = valid_words.len();
        let mut idx: usize = 0;
        proof {
            reveal_with_fuel(Seq::<ChainView>::filter, 2);
            assert(pool.take(0) =~= Seq::<ChainView>::empty());
            assert(views(appendable@) =~= keep_candidates(pool.take(0), sequence@).filter(cp));
            assert(views(remaining@) =~= keep_candidates(pool.take(0), sequence@).filter(np));
        }
        while idx < n
            invariant
                n == valid_words@.len(),
                idx <= n,
                pool == views(valid_words@),
                cp == (|w: ChainView| spec_can_append(w, sequence@)),
                np == (|w: ChainView| !spec_can_append(w, sequence@)),
                forall|k: int|
                    0 <= k < valid_words@.len() ==> (
                    #[trigger] valid_words@[k])@.letters.len() >= 3,
                views(appendable@) == keep_candidates(pool.take(idx as int), sequence@).filter(
                    cp,
                ),
                views(remaining@) == keep_candidates(pool.take(idx as int), sequence@).filter(
                    np,
                ),
                forall|k: int|
                    0 <= k < appendable@.len() ==> (
                    #[trigger] appendable@[k])@.letters.len() >= 3,
                forall|k: int|
                    0 <= k < remaining@.len() ==> (
                    #[trigger] remaining@[k])@.letters.len() >= 3,
            decreases n - idx,
        {
            let w = valid_words[idx];
            let ghost a0 = appendable@;
            let ghost r0 = remaining@;
            let keep = w.shared_letter_count(sequence) <= 1;
            let mut went_a = false;
            if keep {
                if w.can_append_to(sequence) {
                    appendable.push(w);
                    went_a = true;
                } else {
                    remaining.push(w);
                }
            }
            proof {
                reveal_with_fuel(Seq::<ChainView>::filter, 2);
                assert(pool.take(idx + 1).drop_last() =~= pool.take(idx as int));
                assert(pool.take(idx + 1).last() == w@);
                let kpre = keep_candidates(pool.take(idx as int), sequence@);
                let knew = keep_candidates(pool.take(idx + 1), sequence@);
                if keep {
                    assert(knew == kpre.push(w@));
                    assert(knew.drop_last() == kpre);
                    assert(knew.last() == w@);
                    if went_a {
                        lemma_views_push(a0, w);
                        assert(views(appendable@) == knew.filter(cp));
                        assert(views(remaining@) == knew.filter(np));
                    } else {
                        lemma_views_push(r0, w);
                        assert(views(appendable@) == knew.filter(cp));
                        assert(views(remaining@) == knew.filter(np));
                    }
                } else {
                    assert(knew == kpre);
                }
            }
            idx += 1;
        }
        proof {
            assert(pool.take(n as int) =~= pool);
        }
        let ghost ka = keep_candidates(pool, sequence@);
        let ghost av = views(appendable@);
        let ghost rv = views(remaining@);
        let m = appendable.len();
        let mut t: usize = 0;
        proof {
            assert(views(solutions@) =~= views(old(solutions)@) + sols_via(
                sequence@,
                av,
                ka,
                0,
            ));
        }
        while t < m
            invariant
                m == appendable@.len(),
                t <= m,
                pool == views(valid_words@),
                ka == keep_candidates(pool, sequence@),
                av == views(appendable@),
                rv == views(remaining@),
                av == ka.filter(cp),
                rv == ka.filter(np),
                cp == (|w: ChainView| spec_can_append(w, sequence@)),
                np == (|w: ChainView| !spec_can_append(w, sequence@)),
                sequence@.letters.len() < 11,
                forall|k: int|
                    0 <= k < appendable@.len() ==> (
                    #[trigger] appendable@[k])@.letters.len() >= 3,
                forall|k: int|
                    0 <= k < remaining@.len() ==> (
                    #[trigger] remaining@[k])@.letters.len() >= 3,
                views(solutions@) == views(old(solutions)@) + sols_via(
                    sequence@,
                    av,
                    ka,
                    t as int,
                ),
            decreases m - t,
        {
            let w = appendable[t];
            proof {
                use_type_invariant(w);
                use_type_invariant(sequence);
                broadcast use vstd::seq_lib::group_filter_ensures;

                assert(av[t as int] == w@);
                assert(cp(w@));
            }
            let child = w.append_to(sequence);
            proof {
                use_type_invariant(child);
                assert(child@ =~= append_model(w@, sequence@));
                assert(child@.letters.len() == sequence@.letters.len() + w@.letters.len() - 1);
                assert(extends(w@, sequence@));
            }
            solve_partition(child, solutions, remaining.as_slice());
            proof {
                assert forall|v: ChainView| !np(v) implies blocked(v, child@) by {
                    lemma_appendable_now_blocked_later(v, w@, sequence@);
                }
                lemma_prune(child@, ka, np);
                assert(spec_solutions(child@, rv) == spec_solutions(child@, ka));
                assert(sols_via(sequence@, av, ka, t + 1) == sols_via(
                    sequence@,
                    av,
                    ka,
                    t as int,
                ) + spec_solutions(append_model(w@, sequence@), ka));
                assert(views(solutions@) =~= views(old(solutions)@) + sols_via(
                    sequence@,
                    av,
                    ka,
                    t + 1,
                ));
            }
            t += 1;
        }
        proof {
            assert(m == av.len());
            lemma_partition_walk(sequence@, ka, ka.len() as int);
            assert(ka.take(ka.len() as int) =~= ka);
            assert(ka.take(ka.len() as int).filter(|w: ChainView| spec_can_append(w, sequence@))
                == ka.filter(cp));
            assert(sols_upto(sequence@, ka, ka.len() as int) == sols_via(
                sequence@,
                av,
                ka,
                m as int,
            ));
            assert(spec_solutions(sequence@, views(valid_words@)) == sols_upto(
                sequence@,
                ka,
                ka.len() as int,
            ));
        }
    }
}

/// Solves by partitioning only at the top level, where the candidate pool
/// is largest and partitioning pays off most: the children continue with
/// the filter-only strategy over the reduced pool.
pub fn solve_partition_once(
    sequence: LetterSequence,
    solutions: &mut Vec<LetterSequence>,
    valid_words: &[LetterSequence],
)
    requires
        forall|k: int|
            0 <= k < valid_words@.len() ==> (#[trigger] valid_words@[k])@.letters.len() >= 3,
    ensures
        views(final(solutions)@) == views(old(solutions)@) + spec_solutions(
            sequence@,
            views(valid_words@),
        ),
    decreases 12 - sequence@.letters.len(),
{
    proof {
        use_type_invariant(sequence);
    }
    let len = sequence.len();
    if len == 12 {
        let ghost sols0 = solutions@;
        solutions.push(sequence);
        proof {
            lemma_views_push(sols0, sequence);
            assert(views(solutions@) =~= views(old(solutions)@) + seq![sequence@]);
            assert(spec_solutions(sequence@, views(valid_words@)) == seq![sequence@]);
        }
    } else if len == 11 {
        proof {
            assert(spec_solutions(sequence@, views(valid_words@)) == Seq::<ChainView>::empty());
            assert(views(solutions@) =~= views(old(solutions)@) + Seq::<ChainView>::empty());
        }
    } else {
        let ghost pool = views(valid_words@);
        let ghost cp = |w: ChainView| spec_can_append(w, sequence@);
        let ghost np = |w: ChainView| !spec_can_append(w, sequence@);
        let mut appendable: Vec<LetterSequence> = Vec::new();
        let mut remaining: Vec<LetterSequence> = Vec::new();
        let n = valid_words.len();
        let mut idx: usize = 0;
        proof {
            reveal_with_fuel(Seq::<ChainView>::filter, 2);
            assert(pool.take(0) =~= Seq::<ChainView>::empty());
            assert(views(appendable@) =~= keep_candidates(pool.take(0), sequence@).filter(cp));
            assert(views(remaining@) =~= keep_candidates(pool.take(0), sequence@).filter(np));
        }
        while idx < n
            invariant
                n == valid_words@.len(),
                idx <= n,
                pool == views(valid_words@),
                cp == (|w: ChainView| spec_can_append(w, sequence@)),
                np == (|w: ChainView| !spec_can_append(w, sequence@)),
                forall|k: int|
                    0 <= k < valid_words@.len() ==> (
                    #[trigger] valid_words@[k])@.letters.len() >= 3,
                views(appendable@) == keep_candidates(pool.take(idx as int), sequence@).filter(
                    cp,
                ),
                views(remaining@) == keep_candidates(pool.take(idx as int), sequence@).filter(
                    np,
                ),
                forall|k: int|
                    0 <= k < appendable@.len() ==> (
                    #[trigger] appendable@[k])@.letters.len() >= 3,
                forall|k: int|
                    0 <= k < remaining@.len() ==> (
                    #[trigger] remaining@[k])@.letters.len() >= 3,
            decreases n - idx,
        {
            let w = valid_words[idx];
            let ghost a0 = appendable@;
            let ghost r0 = remaining@;
            let keep = w.shared_letter_count(sequence) <= 1;
            let mut went_a = false;
            if keep {
                if w.can_append_to(sequence) {
                    appendable.push(w);
                    went_a = true;
                } else {
                    remaining.push(w);
                }
            }
            proof {
                reveal_with_fuel(Seq::<ChainView>::filter, 2);
                assert(pool.take(idx + 1).drop_last() =~= pool.take(idx as int));
                assert(pool.take(idx + 1).last() == w@);
                let kpre = keep_candidates(pool.take(idx as int), sequence@);
                let knew = keep_candidates(pool.take(idx + 1), sequence@);
                if keep {
                    assert(knew == kpre.push(w@));
                    assert(knew.drop_last() == kpre);
                    assert(knew.last() == w@);
                    if went_a {
                        lemma_views_push(a0, w);
                        assert(views(appendable@) == knew.filter(cp));
                        assert(views(remaining@) == knew.filter(np));
                    } else {
                        lemma_views_push(r0, w);
                        assert(views(appendable@) == knew.filter(cp));
                        assert(views(remaining@) == knew.filter(np));
                    }
                } else {
                    assert(knew == kpre);
                }
            }
            idx += 1;
        }
        proof {
            assert(pool.take(n as int) =~= pool);
        }
        let ghost ka = keep_candidates(pool, sequence@);
        let ghost av = views(appendable@);
        let ghost rv = views(remaining@);
        let m = appendable.len();
        let mut t: usize = 0;
        proof {
            assert(views(solutions@) =~= views(old(solutions)@) + sols_via(
                sequence@,
                av,
                ka,
                0,
            ));
        }
        while t < m
            invariant
                m == appendable@.len(),
                t <= m,
                pool == views(valid_words@),
                ka == keep_candidates(pool, sequence@),
                av == views(appendable@),
                rv == views(remaining@),
                av == ka.filter(cp),
                rv == ka.filter(np),
                cp == (|w: ChainView| spec_can_append(w, sequence@)),
                np == (|w: ChainView| !spec_can_append(w, sequence@)),
                sequence@.letters.len() < 11,
                forall|k: int|
                    0 <= k < appendable@.len() ==> (
                    #[trigger] appendable@[k])@.letters.len() >= 3,
                forall|k: int|
                    0 <= k < remaining@.len() ==> (
                    #[trigger] remaining@[k])@.letters.len() >= 3,
                views(solutions@) == views(old(solutions)@) + sols_via(
                    sequence@,
                    av,
                    ka,
                    t as int,
                ),
            decreases m - t,
        {
            let w = appendable[t];
            proof {
                use_type_invariant(w);
                use_type_invariant(sequence);
                broadcast use vstd::seq_lib::group_filter_ensures;

                assert(av[t as int] == w@);
                assert(cp(w@));
            }
            let child = w.append_to(sequence);
            proof {
                use_type_invariant(child);
                assert(child@ =~= append_model(w@, sequence@));
                assert(child@.letters.len() == sequence@.letters.len() + w@.letters.len() - 1);
                assert(extends(w@, sequence@));
            }
            solve_filter_only(child, solutions, remaining.as_slice());
            proof {
                assert forall|v: ChainView| !np(v) implies blocked(v, child@) by {
                    lemma_appendable_now_blocked_later(v, w@, sequence@);
                }
                lemma_prune(child@, ka, np);
                assert(spec_solutions(child@, rv) == spec_solutions(child@, ka));
                assert(sols_via(sequence@, av, ka, t + 1) == sols_via(
                    sequence@,
                    av,
                    ka,
                    t as int,
                ) + spec_solutions(append_model(w@, sequence@), ka));
                assert(views(solutions@) =~= views(old(solutions)@) + sols_via(
                    sequence@,
                    av,
                    ka,
                    t + 1,
                ));
            }
            t += 1;
        }
        proof {
            assert(m == av.len());
            lemma_partition_walk(sequence@, ka, ka.len() as int);
            assert(ka.take(ka.len() as int) =~= ka);
            assert(ka.take(ka.len() as int).filter(|w: ChainView| spec_can_append(w, sequence@))
                == ka.filter(cp));
            assert(sols_upto(sequence@, ka, ka.len() as int) == sols_via(
                sequence@,
                av,
                ka,
                m as int,
            ));
            assert(spec_solutions(sequence@, views(valid_words@)) == sols_upto(
                sequence@,
                ka,
                ka.len() as int,
            ));
        }
    }
}

/// The pruning strategy a search run uses. Every strategy produces the
/// identical sequence of solutions; they differ only in control-flow cost.
#[derive(Debug, Clone, Copy, PartialEq, Eq, Structural)]
pub enum Strategy {
    /// Reduce the pool by the shared-letter filter at every level, and hand
    /// each child the same reduced pool.
    FilterOnly,
    /// Additionally split off the immediately appendable words at every
    /// level, handing each child only the remainder.
    Partition,
    /// Split off the appendable words at the top level only, where the pool
    /// is largest, and continue below with the filter-only strategy.
    PartitionOnce,
}

/// The words of a pool that are board-legal for the given grouping.
pub open spec fn board_words(pool: Seq<ChainView>, g: LetterGrouping) -> Seq<ChainView> {
    pool.filter(|w: ChainView| spec_valid_word(w.letters, g))
}

/// The solutions found by starting a search from each of the first `i`
/// valid words in turn, over the whole valid pool.
pub open spec fn all_solutions(valid: Seq<ChainView>, i: int) -> Seq<ChainView>
    decreases i,
{
    if i <= 0 {
        Seq::empty()
    } else {
        all_solutions(valid, i - 1) + spec_solutions(valid[i - 1], valid)
    }
}

/// Counts every chain of words from `words` that is legal for the board
/// described by `grouping` and uses all 12 of its letters: the dictionary
/// is filtered down to the board-legal words, and a search is started from
/// each of them. The count does not depend on the strategy chosen.
pub fn count_solutions(
    grouping: &LetterGrouping,
    words: &[LetterSequence],
    strategy: Strategy,
) -> (r: usize)
    requires
        forall|k: int| 0 <= k < words@.len() ==> (#[trigger] words@[k])@.letters.len() >= 3,
    ensures
        r == all_solutions(
            board_words(views(words@), *grouping),
            board_words(views(words@), *grouping).len() as int,
        ).len(),
{
    let ghost pool = views(words@);
    let mut valid: Vec<LetterSequence> = Vec::new();
    let n = words.len();
    let mut idx: usize = 0;
    proof {
        reveal_with_fuel(Seq::<ChainView>::filter, 2);
        assert(pool.take(0) =~= Seq::<ChainView>::empty());
        assert(views(valid@) =~= board_words(pool.take(0), *grouping));
    }
    while idx < n
        invariant
            n == words@.len(),
            idx <= n,
            pool == views(words@),
            forall|k: int| 0 <= k < words@.len() ==> (#[trigger] words@[k])@.letters.len() >= 3,
            views(valid@) == board_words(pool.take(idx as int), *grouping),
            forall|k: int| 0 <= k < valid@.len() ==> (#[trigger] valid@[k])@.letters.len() >= 3,
        decreases n - idx,
    {
        let w = words[idx];
        let ghost v0 = valid@;
        let keep = w.is_valid_word(grouping);
        if keep {
            valid.push(w);
        }
        proof {
            reveal_with_fuel(Seq::<ChainView>::filter, 2);
            assert(pool.take(idx + 1).drop_last() =~= pool.take(idx as int));
            assert(pool.take(idx + 1).last() == w@);
            if keep {
                assert(board_words(pool.take(idx + 1), *grouping) == board_words(
                    pool.take(idx as int),
                    *grouping,
                ).push(w@));
                lemma_views_push(v0, w);
            } else {
                assert(board_words(pool.take(idx + 1), *grouping) == board_words(
                    pool.take(idx as int),
                    *grouping,
                ));
            }
        }
        idx += 1;
    }
    proof {
        assert(pool.take(n as int) =~= pool);
    }
    let ghost vv = views(valid@);
    let mut solutions: Vec<LetterSequence> = Vec::new();
    let m = valid.len();
    let mut t: usize = 0;
    proof {
        assert(views(solutions@) =~= all_solutions(vv, 0));
    }
    while t < m
        invariant
            m == valid@.len(),
            t <= m,
            vv == views(valid@),
            forall|k: int| 0 <= k < valid@.len() ==> (#[trigger] valid@[k])@.letters.len() >= 3,
            views(solutions@) == all_solutions(vv, t as int),
        decreases m - t,
    {
        let w = valid[t];
        match strategy {
            Strategy::FilterOnly => solve_filter_only(w, &mut solutions, valid.as_slice()),
            Strategy::Partition => solve_partition(w, &mut solutions, valid.as_slice()),
            Strategy::PartitionOnce => solve_partition_once(w, &mut solutions, valid.as_slice()),
        }
        proof {
            assert(vv[t as int] == w@);
            assert(views(solutions@) =~= all_solutions(vv, t + 1));
        }
        t += 1;
    }
    let r = solutions.len();
    proof {
        assert(views(solutions@).len() == solutions@.len());
        assert(vv == board_words(views(words@), *grouping));
        assert(m == vv.len());
    }
    r
}

} // verus!
