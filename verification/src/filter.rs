//! The candidate pool: the words of a dictionary that the constraints
//! still admit.

use vstd::prelude::*;
use crate::constraints::{
    atom_holds,
    covered_by,
    gathered,
    lemma_covered_within,
    lemma_within_admits,
    ConstraintSet,
    Constraints,
};
use crate::count::letter_count;
use crate::feedback::{feedback, lemma_credits, verdict, Validity};

verus! {

/// The letters of each word of a list, in order.
pub open spec fn spelled(words: Seq<&str>) -> Seq<Seq<char>> {
    Seq::new(words.len(), |k: int| words[k]@)
}

/// The words of the dictionary that the constraints admit, in the
/// dictionary's order.
pub open spec fn candidates(dictionary: Seq<Seq<char>>, cs: Constraints) -> Seq<Seq<char>>
    decreases dictionary.len(),
{
    if dictionary.len() == 0 {
        Seq::empty()
    } else {
        let rest = candidates(dictionary.drop_last(), cs);
        if cs.admits(dictionary.last()) {
            rest.push(dictionary.last())
        } else {
            rest
        }
    }
}

/// The words of the dictionary that have `n` letters, in the dictionary's
/// order.
pub open spec fn sized(dictionary: Seq<Seq<char>>, n: nat) -> Seq<Seq<char>>
    decreases dictionary.len(),
{
    if dictionary.len() == 0 {
        Seq::empty()
    } else {
        let rest = sized(dictionary.drop_last(), n);
        if dictionary.last().len() == n {
            rest.push(dictionary.last())
        } else {
            rest
        }
    }
}

/// Whether `s` can be had from `t` by leaving words out.
pub open spec fn is_subsequence(s: Seq<Seq<char>>, t: Seq<Seq<char>>) -> bool
    decreases s.len() + t.len(),
{
    if s.len() == 0 {
        true
    } else if t.len() == 0 {
        false
    } else {
        ||| (s.last() == t.last() && is_subsequence(s.drop_last(), t.drop_last()))
        ||| is_subsequence(s, t.drop_last())
    }
}

/// The feedback that each of a list of guesses gets against the answer.
pub open spec fn replies(answer: Seq<char>, guesses: Seq<Seq<char>>) -> Seq<Seq<Validity>> {
    Seq::new(guesses.len(), |k: int| feedback(answer, guesses[k]))
}

/// Keeps the words of the dictionary that the constraints admit, in the
/// dictionary's order. The dictionary is left as it is.
pub fn filter<'a>(dictionary: &[&'a str], constraints: &ConstraintSet) -> (pool: Vec<&'a str>)
    ensures
        spelled(pool@) == candidates(spelled(dictionary@), constraints@),
{
    let n: usize = dictionary.len();
    let mut pool: Vec<&'a str> = Vec::new();
    let mut k: usize = 0;
    assert(spelled(dictionary@).take(0) =~= Seq::<Seq<char>>::empty());
    assert(spelled(pool@) =~= Seq::<Seq<char>>::empty());
    while k < n
        invariant
            k <= n,
            n == dictionary@.len(),
            spelled(pool@) == candidates(spelled(dictionary@).take(k as int), constraints@),
        decreases n - k,
    {
        let word: &'a str = dictionary[k];
        let ghost before: Seq<&str> = pool@;
        proof {
            let next: Seq<Seq<char>> = spelled(dictionary@).take(k + 1);
            assert(next.drop_last() =~= spelled(dictionary@).take(k as int));
            assert(next.last() == word@);
        }
        if constraints.admits(word) {
            pool.push(word);
            assert(spelled(pool@) =~= spelled(before).push(word@));
        }
        k += 1;
    }
    assert(spelled(dictionary@).take(n as int) =~= spelled(dictionary@));
    pool
}

/// A word is a candidate exactly when the dictionary holds it and the
/// constraints admit it.
pub proof fn lemma_candidates_member(dictionary: Seq<Seq<char>>, cs: Constraints, w: Seq<char>)
    ensures
        candidates(dictionary, cs).contains(w) <==> dictionary.contains(w) && cs.admits(w),
    decreases dictionary.len(),
{
    if dictionary.len() > 0 {
        let rest: Seq<Seq<char>> = dictionary.drop_last();
        let last: Seq<char> = dictionary.last();
        let pool: Seq<Seq<char>> = candidates(dictionary, cs);
        lemma_candidates_member(rest, cs, w);
        if pool.contains(w) {
            let j: int = choose|j: int| 0 <= j < pool.len() && pool[j] == w;
            if cs.admits(last) && j == pool.len() - 1 {
                assert(dictionary[dictionary.len() - 1] == w);
            } else {
                assert(candidates(rest, cs)[j] == w);
                let i: int = choose|i: int| 0 <= i < rest.len() && rest[i] == w;
                assert(dictionary[i] == w);
            }
        }
        if dictionary.contains(w) && cs.admits(w) {
            let i: int = choose|i: int| 0 <= i < dictionary.len() && dictionary[i] == w;
            if i == dictionary.len() - 1 {
                assert(pool[pool.len() - 1] == w);
            } else {
                assert(rest[i] == w);
                let j: int = choose|j: int|
                    0 <= j < candidates(rest, cs).len() && candidates(rest, cs)[j] == w;
                assert(pool[j] == w);
            }
        }
    }
}

/// The candidates are a subsequence of the dictionary.
pub proof fn lemma_candidates_subsequence(dictionary: Seq<Seq<char>>, cs: Constraints)
    ensures
        is_subsequence(candidates(dictionary, cs), dictionary),
        candidates(dictionary, cs).len() <= dictionary.len(),
    decreases dictionary.len(),
{
    if dictionary.len() > 0 {
        lemma_candidates_subsequence(dictionary.drop_last(), cs);
        if cs.admits(dictionary.last()) {
            assert(candidates(dictionary, cs).drop_last() =~= candidates(
                dictionary.drop_last(),
                cs,
            ));
        }
    }
}

/// More constraints never admit more candidates: what tighter constraints
/// keep of a dictionary is a subsequence of what looser ones keep.
pub proof fn lemma_filter_monotone(
    dictionary: Seq<Seq<char>>,
    loose: Constraints,
    tight: Constraints,
)
    requires
        loose.within(tight),
    ensures
        is_subsequence(candidates(dictionary, tight), candidates(dictionary, loose)),
        candidates(dictionary, tight).len() <= candidates(dictionary, loose).len(),
    decreases dictionary.len(),
{
    if dictionary.len() > 0 {
        let rest: Seq<Seq<char>> = dictionary.drop_last();
        let last: Seq<char> = dictionary.last();
        lemma_filter_monotone(rest, loose, tight);
        if tight.admits(last) {
            lemma_within_admits(loose, tight, last);
            assert(candidates(dictionary, tight).drop_last() =~= candidates(rest, tight));
            assert(candidates(dictionary, loose).drop_last() =~= candidates(rest, loose));
        } else if loose.admits(last) {
            assert(candidates(dictionary, loose).drop_last() =~= candidates(rest, loose));
        }
    }
}

/// More feedback never admits more candidates: if every feedback of one
/// history also occurs in another, the other's pool is a subsequence of
/// the first one's.
pub proof fn lemma_more_feedback_filters_more(
    dictionary: Seq<Seq<char>>,
    fewer: Seq<Seq<Validity>>,
    more: Seq<Seq<Validity>>,
)
    requires
        covered_by(fewer, more),
    ensures
        is_subsequence(
            candidates(dictionary, gathered(more)),
            candidates(dictionary, gathered(fewer)),
        ),
{
    lemma_covered_within(fewer, more);
    lemma_filter_monotone(dictionary, gathered(fewer), gathered(more));
}

/// Tighter constraints that turn away a candidate of the looser ones leave
/// a strictly smaller pool.
pub proof fn lemma_filter_shrinks(
    dictionary: Seq<Seq<char>>,
    loose: Constraints,
    tight: Constraints,
    w: Seq<char>,
)
    requires
        loose.within(tight),
        dictionary.contains(w),
        loose.admits(w),
        !tight.admits(w),
    ensures
        candidates(dictionary, tight).len() < candidates(dictionary, loose).len(),
    decreases dictionary.len(),
{
    let rest: Seq<Seq<char>> = dictionary.drop_last();
    let last: Seq<char> = dictionary.last();
    let i: int = choose|i: int| 0 <= i < dictionary.len() && dictionary[i] == w;
    if tight.admits(last) {
        lemma_within_admits(loose, tight, last);
    }
    if last == w {
        lemma_filter_monotone(rest, loose, tight);
    } else {
        assert(rest[i] == w);
        lemma_filter_shrinks(rest, loose, tight, w);
    }
}

/// Feedback given for a guess against the answer never turns the answer
/// away.
pub proof fn lemma_feedback_admits_answer(cs: Constraints, answer: Seq<char>, guess: Seq<char>)
    requires
        cs.admits(answer),
        answer.len() == guess.len(),
        answer.len() <= usize::MAX,
    ensures
        cs.absorb(feedback(answer, guess)).admits(answer),
{
    let f: Seq<Validity> = feedback(answer, guess);
    let after: Constraints = cs.absorb(f);
    assert forall|a: Validity| #[trigger] after.atoms.contains(a) implies atom_holds(
        a,
        answer,
    ) by {
        if !cs.atoms.contains(a) {
            let i: int = choose|i: int| 0 <= i < f.len() && f[i] == a;
            assert(a == verdict(answer, guess, i));
            lemma_credits(answer, guess, guess[i]);
        }
    }
    assert forall|c: char| #[trigger] after.at_least[c] <= letter_count(
        answer,
        c,
    ) by {
        lemma_credits(answer, guess, c);
        assert(cs.at_least[c] <= letter_count(answer, c));
    }
    assert forall|c: char| (#[trigger] after.at_most[c]) is Some implies letter_count(
        answer,
        c,
    ) <= after.at_most[c]->0 by {
        lemma_credits(answer, guess, c);
        assert(cs.at_most[c] matches Some(m) ==> letter_count(answer, c) <= m);
    }
}

/// The answer is consistent with everything that feedback against it has
/// established, whatever was guessed.
pub proof fn lemma_answer_admitted(answer: Seq<char>, guesses: Seq<Seq<char>>)
    requires
        answer.len() <= usize::MAX,
        forall|k: int| 0 <= k < guesses.len() ==> (#[trigger] guesses[k]).len() == answer.len(),
    ensures
        gathered(replies(answer, guesses)).admits(answer),
    decreases guesses.len(),
{
    if guesses.len() > 0 {
        let earlier: Seq<Seq<char>> = guesses.drop_last();
        assert forall|k: int| 0 <= k < earlier.len() implies (#[trigger] earlier[k]).len()
            == answer.len() by {
            assert(guesses[k].len() == answer.len());
        }
        lemma_answer_admitted(answer, earlier);
        assert(replies(answer, guesses).drop_last() =~= replies(answer, earlier));
        assert(guesses[guesses.len() - 1].len() == answer.len());
        lemma_feedback_admits_answer(gathered(replies(answer, earlier)), answer, guesses.last());
    }
}

/// The answer stays in the pool at every point of a game: a dictionary
/// that holds the answer still holds it after filtering by what the
/// feedback against that answer has established.
pub proof fn lemma_answer_retained(
    dictionary: Seq<Seq<char>>,
    answer: Seq<char>,
    guesses: Seq<Seq<char>>,
)
    requires
        dictionary.contains(answer),
        answer.len() <= usize::MAX,
        forall|k: int| 0 <= k < guesses.len() ==> (#[trigger] guesses[k]).len() == answer.len(),
    ensures
        candidates(dictionary, gathered(replies(answer, guesses))).contains(answer),
{
    lemma_answer_admitted(answer, guesses);
    lemma_candidates_member(dictionary, gathered(replies(answer, guesses)), answer);
}

/// A guess that was not the answer is turned away by its own feedback.
pub proof fn lemma_guess_excluded(cs: Constraints, answer: Seq<char>, guess: Seq<char>)
    requires
        answer.len() == guess.len(),
        answer.len() <= usize::MAX,
        guess != answer,
    ensures
        !cs.absorb(feedback(answer, guess)).admits(guess),
{
    let f: Seq<Validity> = feedback(answer, guess);
    let after: Constraints = cs.absorb(f);
    if forall|i: int| 0 <= i < guess.len() ==> guess[i] == answer[i] {
        assert(guess =~= answer);
    }
    let i: int = choose|i: int| 0 <= i < guess.len() && guess[i] != answer[i];
    let c: char = guess[i];
    assert(f[i] == verdict(answer, guess, i));
    assert(f.contains(f[i]));
    if f[i] is Somewhere {
        assert(after.atoms.contains(f[i]));
        assert(!atom_holds(f[i], guess));
    } else {
        lemma_credits(answer, guess, c);
        assert(after.at_most[c] matches Some(m) && m < letter_count(guess, c));
    }
}

/// A word is among the words of `n` letters exactly when the dictionary
/// holds it and it has `n` letters.
pub proof fn lemma_sized_member(dictionary: Seq<Seq<char>>, n: nat, w: Seq<char>)
    ensures
        sized(dictionary, n).contains(w) <==> dictionary.contains(w) && w.len() == n,
    decreases dictionary.len(),
{
    if dictionary.len() > 0 {
        let rest: Seq<Seq<char>> = dictionary.drop_last();
        let last: Seq<char> = dictionary.last();
        let kept: Seq<Seq<char>> = sized(dictionary, n);
        lemma_sized_member(rest, n, w);
        if kept.contains(w) {
            let j: int = choose|j: int| 0 <= j < kept.len() && kept[j] == w;
            if last.len() == n && j == kept.len() - 1 {
                assert(dictionary[dictionary.len() - 1] == w);
            } else {
                assert(sized(rest, n)[j] == w);
                let i: int = choose|i: int| 0 <= i < rest.len() && rest[i] == w;
                assert(dictionary[i] == w);
            }
        }
        if dictionary.contains(w) && w.len() == n {
            let i: int = choose|i: int| 0 <= i < dictionary.len() && dictionary[i] == w;
            if i == dictionary.len() - 1 {
                assert(kept[kept.len() - 1] == w);
            } else {
                assert(rest[i] == w);
                let j: int = choose|j: int| 0 <= j < sized(rest, n).len() && sized(rest, n)[j] == w;
                assert(kept[j] == w);
            }
        }
    }
}

/// The words of `n` letters of two lists, one after the other, are those
/// of the first followed by those of the second.
pub proof fn lemma_sized_concat(a: Seq<Seq<char>>, b: Seq<Seq<char>>, n: nat)
    ensures
        sized(a + b, n) == sized(a, n) + sized(b, n),
    decreases b.len(),
{
    if b.len() == 0 {
        assert(a + b =~= a);
        assert(sized(a, n) + sized(b, n) =~= sized(a, n));
    } else {
        lemma_sized_concat(a, b.drop_last(), n);
        assert((a + b).drop_last() =~= a + b.drop_last());
        assert((a + b).last() == b.last());
        assert(sized(a + b, n) =~= sized(a, n) + sized(b, n));
    }
}

/// The candidates of two lists, one after the other, are those of the
/// first followed by those of the second.
pub proof fn lemma_candidates_concat(a: Seq<Seq<char>>, b: Seq<Seq<char>>, cs: Constraints)
    ensures
        candidates(a + b, cs) == candidates(a, cs) + candidates(b, cs),
    decreases b.len(),
{
    if b.len() == 0 {
        assert(a + b =~= a);
        assert(candidates(a, cs) + candidates(b, cs) =~= candidates(a, cs));
    } else {
        lemma_candidates_concat(a, b.drop_last(), cs);
        assert((a + b).drop_last() =~= a + b.drop_last());
        assert((a + b).last() == b.last());
        assert(candidates(a + b, cs) =~= candidates(a, cs) + candidates(b, cs));
    }
}

} // verus!
