//! Per-letter feedback for a guess against a hidden answer.
//!
//! A letter of the guess is exactly placed where the answer holds the same
//! letter at the same position. The answer's remaining occurrences of a
//! letter are then handed out, from left to right, to the guess's misplaced
//! occurrences of it; an occurrence that gets none is reported as not
//! present. A letter is therefore never credited more often than the answer
//! holds it.

use vstd::prelude::*;
use crate::count::{
    count_below,
    holds_letter,
    lemma_count_congruent,
    lemma_count_drop_one,
    lemma_count_grows,
    lemma_count_monotone,
    lemma_count_split,
    lemma_count_strict,
    lemma_count_zero,
    letter_count,
};
use crate::text::{chars_of, push_char};

verus! {

/// What one position of a guess says about the answer.
#[derive(Hash, Copy, Clone, PartialEq, Eq, Debug, Structural)]
pub enum Validity {
    /// The answer holds this letter at this position.
    Exact(char, usize),
    /// The answer holds this letter, but not at this position.
    Somewhere(char, usize),
    /// No occurrence of this letter in the answer is left for this position.
    NotPresent(char),
}

impl Validity {
    pub fn exact(c: char, i: usize) -> (v: Self)
        ensures
            v == Validity::Exact(c, i),
    {
        Self::Exact(c, i)
    }

    pub fn somewhere(c: char, i: usize) -> (v: Self)
        ensures
            v == Validity::Somewhere(c, i),
    {
        Self::Somewhere(c, i)
    }

    pub fn not_present(c: char) -> (v: Self)
        ensures
            v == Validity::NotPresent(c),
    {
        Self::NotPresent(c)
    }

    /// The guessed letter that this atom speaks of.
    pub open spec fn letter(self) -> char {
        match self {
            Validity::Exact(c, _) => c,
            Validity::Somewhere(c, _) => c,
            Validity::NotPresent(c) => c,
        }
    }

    /// Whether this atom credits the letter `c` to the answer.
    pub open spec fn credits(self, c: char) -> bool {
        match self {
            Validity::Exact(l, _) => l == c,
            Validity::Somewhere(l, _) => l == c,
            Validity::NotPresent(_) => false,
        }
    }

    /// The guessed letter that this atom speaks of.
    pub fn guessed(&self) -> (c: char)
        ensures
            c == self.letter(),
    {
        match self {
            Validity::Exact(c, _) => *c,
            Validity::Somewhere(c, _) => *c,
            Validity::NotPresent(c) => *c,
        }
    }
}

/// The predicate "the answer holds `c` at `j` and the guess does not".
pub open spec fn unmatched_at(answer: Seq<char>, guess: Seq<char>, c: char) -> spec_fn(int) -> bool {
    |j: int| answer[j] == c && guess[j] != c
}

/// The occurrences of `c` in the answer that no exact match uses up.
pub open spec fn unmatched(answer: Seq<char>, guess: Seq<char>, c: char) -> nat {
    count_below(unmatched_at(answer, guess, c), answer.len() as int)
}

/// The predicate "the guess holds `c` at `j` and the answer does not".
pub open spec fn misplaced_at(answer: Seq<char>, guess: Seq<char>, c: char) -> spec_fn(int) -> bool {
    |j: int| guess[j] == c && answer[j] != c
}

/// The misplaced occurrences of `c` in the guess to the left of `i`.
pub open spec fn misplaced_before(answer: Seq<char>, guess: Seq<char>, c: char, i: int) -> nat {
    count_below(misplaced_at(answer, guess, c), i)
}

/// The feedback atom for position `i` of the guess.
pub open spec fn verdict(answer: Seq<char>, guess: Seq<char>, i: int) -> Validity {
    let c = guess[i];
    if answer[i] == c {
        Validity::Exact(c, i as usize)
    } else if misplaced_before(answer, guess, c, i) < unmatched(answer, guess, c) {
        Validity::Somewhere(c, i as usize)
    } else {
        Validity::NotPresent(c)
    }
}

/// The feedback for a guess against an answer of the same length: one atom
/// per position of the guess.
pub open spec fn feedback(answer: Seq<char>, guess: Seq<char>) -> Seq<Validity> {
    Seq::new(guess.len(), |i: int| verdict(answer, guess, i))
}

/// Whether every atom is an exact match.
pub open spec fn all_exact(f: Seq<Validity>) -> bool {
    forall|i: int| 0 <= i < f.len() ==> f[i] is Exact
}

/// The guessed word that a feedback speaks of.
pub open spec fn letters(f: Seq<Validity>) -> Seq<char> {
    Seq::new(f.len(), |i: int| f[i].letter())
}

/// The predicate "atom `j` of `f` credits the letter `c`".
pub open spec fn credits_at(f: Seq<Validity>, c: char) -> spec_fn(int) -> bool {
    |j: int| f[j].credits(c)
}

/// How many atoms of `f` credit the letter `c` to the answer.
pub open spec fn credit_count(f: Seq<Validity>, c: char) -> nat {
    count_below(credits_at(f, c), f.len() as int)
}

/// The predicate "atom `j` of `f` is an exact match".
pub open spec fn exact_at(f: Seq<Validity>) -> spec_fn(int) -> bool {
    |j: int| f[j] is Exact
}

/// How many atoms of `f` are exact matches.
pub open spec fn exact_count(f: Seq<Validity>) -> nat {
    count_below(exact_at(f), f.len() as int)
}

/// The predicate "answer and guess hold the same letter at `j`".
pub open spec fn agree_at(answer: Seq<char>, guess: Seq<char>) -> spec_fn(int) -> bool {
    |j: int| answer[j] == guess[j]
}

/// At how many positions answer and guess hold the same letter.
pub open spec fn agreements(answer: Seq<char>, guess: Seq<char>) -> nat {
    count_below(agree_at(answer, guess), guess.len() as int)
}

/// The feedbacks that a list of words holds, in order.
pub open spec fn feedbacks(words: Seq<Word>) -> Seq<Seq<Validity>> {
    Seq::new(words.len(), |k: int| words[k]@)
}

/// A letter that no atom speaks of is credited by none.
pub proof fn lemma_unseen_letter(f: Seq<Validity>, c: char)
    requires
        forall|j: int| 0 <= j < f.len() ==> (#[trigger] f[j]).letter() != c,
    ensures
        credit_count(f, c) == 0,
        !f.contains(Validity::NotPresent(c)),
{
    lemma_count_zero(credits_at(f, c), f.len() as int);
    assert forall|j: int| 0 <= j < f.len() implies !#[trigger] credits_at(f, c)(j) by {
        assert(f[j].letter() != c);
    }
}

/// A comparison was asked for between words of different lengths.
#[derive(Copy, Clone, PartialEq, Eq, Debug, Structural)]
pub struct InvalidLengthError {
    /// The number of letters of the answer.
    pub expected: usize,
    /// The number of letters of the guess.
    pub found: usize,
}

/// The feedback for one guess: one atom per letter of the guess.
#[derive(Hash, Clone, PartialEq, Eq, Debug)]
pub struct Word {
    validity: Vec<Validity>,
}

impl View for Word {
    type V = Seq<Validity>;

    closed spec fn view(&self) -> Seq<Validity> {
        self.validity@
    }
}

/// The predicate "answer position `j` holds `c` and is still in the pool".
spec fn in_pool(answer: Seq<char>, used: Seq<bool>, c: char) -> spec_fn(int) -> bool {
    |j: int| !used[j] && answer[j] == c
}

/// The occurrences of `c` in the answer that are still in the pool.
spec fn pool(answer: Seq<char>, used: Seq<bool>, c: char) -> nat {
    count_below(in_pool(answer, used, c), answer.len() as int)
}

/// The occurrences of `c` that the guess's positions left of `i` have drawn
/// from the answer's unmatched ones.
pub open spec fn drawn(answer: Seq<char>, guess: Seq<char>, c: char, i: int) -> nat {
    if misplaced_before(answer, guess, c, i) < unmatched(answer, guess, c) {
        misplaced_before(answer, guess, c, i)
    } else {
        unmatched(answer, guess, c)
    }
}

/// Draws one occurrence of `c` from the pool, if one is left.
fn draw(answer: &Vec<char>, used: &mut Vec<bool>, c: char) -> (found: bool)
    requires
        old(used).len() == answer.len(),
    ensures
        final(used).len() == answer.len(),
        found == (pool(answer@, old(used)@, c) > 0),
        forall|d: char| #[trigger]
            pool(answer@, final(used)@, d) == pool(answer@, old(used)@, d) - if found && d == c {
                1int
            } else {
                0int
            },
{
    let n: usize = answer.len();
    let mut j: usize = 0;
    while j < n
        invariant
            j <= n,
            n == answer.len(),
            used.len() == n,
            used@ == old(used)@,
            forall|k: int| 0 <= k < j ==> !#[trigger] in_pool(answer@, used@, c)(k),
        decreases n - j,
    {
        if !used[j] && answer[j] == c {
            let ghost before: Seq<bool> = used@;
            used.set(j, true);
            proof {
                assert forall|d: char| #[trigger]
                    pool(answer@, used@, d) == pool(answer@, before, d) - if d == c {
                        1int
                    } else {
                        0int
                    } by {
                    if d == c {
                        lemma_count_drop_one(
                            in_pool(answer@, before, c),
                            in_pool(answer@, used@, c),
                            n as int,
                            j as int,
                        );
                    } else {
                        lemma_count_congruent(
                            in_pool(answer@, used@, d),
                            in_pool(answer@, before, d),
                            n as int,
                        );
                    }
                }
                assert(pool(answer@, used@, c) == pool(answer@, before, c) - 1);
            }
            return true;
        }
        j += 1;
    }
    proof {
        lemma_count_zero(in_pool(answer@, used@, c), n as int);
    }
    false
}

impl Word {
    /// The atoms of this feedback, one per position of the guess.
    pub fn atoms(&self) -> (v: &Vec<Validity>)
        ensures
            v@ == self@,
    {
        &self.validity
    }

    /// The guessed word.
    pub fn word(&self) -> (s: String)
        ensures
            s@ == letters(self@),
    {
        let n: usize = self.validity.len();
        let mut s: String = String::new();
        let mut i: usize = 0;
        while i < n
            invariant
                i <= n,
                n == self.validity@.len(),
                s@ == letters(self.validity@).take(i as int),
            decreases n - i,
        {
            push_char(&mut s, self.validity[i].guessed());
            i += 1;
            assert(s@ =~= letters(self.validity@).take(i as int));
        }
        assert(letters(self.validity@).take(n as int) =~= letters(self.validity@));
        s
    }

    /// Compares a guess with the answer.
    ///
    /// Words of different lengths are rejected. Otherwise the feedback has
    /// one atom per letter of the guess; its exact matches are the positions
    /// at which guess and answer agree, and no letter is credited more often
    /// than the answer holds it.
    pub fn compare(answer: &str, word: &str) -> (r: Result<Word, InvalidLengthError>)
        ensures
            match r {
                Ok(w) => {
                    &&& answer@.len() == word@.len()
                    &&& w@ == feedback(answer@, word@)
                    &&& exact_count(w@) == agreements(answer@, word@)
                    &&& forall|c: char| #[trigger]
                        credit_count(w@, c) <= letter_count(answer@, c)
                },
                Err(e) => {
                    &&& answer@.len() != word@.len()
                    &&& e.expected == answer@.len()
                    &&& e.found == word@.len()
                },
            },
    {
        let a: Vec<char> = chars_of(answer);
        let g: Vec<char> = chars_of(word);
        if a.len() != g.len() {
            return Err(InvalidLengthError { expected: a.len(), found: g.len() });
        }
        let n: usize = a.len();
        let mut used: Vec<bool> = Vec::new();
        let mut i: usize = 0;
        while i < n
            invariant
                i <= n,
                n == a@.len(),
                n == g@.len(),
                used@.len() == i,
                forall|j: int| 0 <= j < i ==> used@[j] == (a@[j] == g@[j]),
            decreases n - i,
        {
            used.push(a[i] == g[i]);
            i += 1;
        }
        proof {
            assert forall|c: char| #[trigger]
                pool(a@, used@, c) + drawn(a@, g@, c, 0) == unmatched(a@, g@, c) by {
                lemma_count_congruent(in_pool(a@, used@, c), unmatched_at(a@, g@, c), n as int);
            }
        }
        let mut validity: Vec<Validity> = Vec::new();
        let mut i: usize = 0;
        while i < n
            invariant
                i <= n,
                n == a@.len(),
                n == g@.len(),
                used@.len() == n,
                validity@.len() == i,
                forall|j: int| 0 <= j < i ==> validity@[j] == verdict(a@, g@, j),
                forall|c: char| #[trigger]
                    pool(a@, used@, c) + drawn(a@, g@, c, i as int) == unmatched(a@, g@, c),
            decreases n - i,
        {
            let c: char = g[i];
            let ghost before: Seq<bool> = used@;
            if a[i] == c {
                validity.push(Validity::exact(c, i));
            } else if draw(&a, &mut used, c) {
                validity.push(Validity::somewhere(c, i));
            } else {
                validity.push(Validity::not_present(c));
            }
            proof {
                assert(pool(a@, before, c) + drawn(a@, g@, c, i as int) == unmatched(a@, g@, c));
                assert forall|d: char| #[trigger]
                    pool(a@, used@, d) + drawn(a@, g@, d, i + 1) == unmatched(a@, g@, d) by {
                    assert(pool(a@, before, d) + drawn(a@, g@, d, i as int) == unmatched(
                        a@,
                        g@,
                        d,
                    ));
                    assert(misplaced_before(a@, g@, d, i + 1) == misplaced_before(
                        a@,
                        g@,
                        d,
                        i as int,
                    ) + if misplaced_at(a@, g@, d)(i as int) {
                        1int
                    } else {
                        0int
                    });
                }
            }
            i += 1;
        }
        let w = Word { validity };
        proof {
            assert(w@ =~= feedback(a@, g@));
            lemma_exact_matches(a@, g@);
            assert forall|c: char| #[trigger]
                credit_count(w@, c) <= letter_count(answer@, c) by {
                lemma_credits(a@, g@, c);
            }
        }
        Ok(w)
    }

    /// How many atoms credit the letter `c` to the answer.
    pub fn credits(&self, c: char) -> (n: usize)
        ensures
            n == credit_count(self@, c),
    {
        let len: usize = self.validity.len();
        let mut n: usize = 0;
        let mut i: usize = 0;
        while i < len
            invariant
                i <= len,
                len == self.validity@.len(),
                n <= i,
                n == count_below(credits_at(self.validity@, c), i as int),
            decreases len - i,
        {
            let credited: bool = match self.validity[i] {
                Validity::Exact(l, _) => l == c,
                Validity::Somewhere(l, _) => l == c,
                Validity::NotPresent(_) => false,
            };
            if credited {
                n += 1;
            }
            i += 1;
        }
        n
    }

    /// Whether some atom reports the letter `c` as not present.
    pub fn reports_absent(&self, c: char) -> (b: bool)
        ensures
            b == self@.contains(Validity::NotPresent(c)),
    {
        let len: usize = self.validity.len();
        let mut i: usize = 0;
        while i < len
            invariant
                i <= len,
                len == self.validity@.len(),
                forall|j: int| 0 <= j < i ==> self.validity@[j] != Validity::NotPresent(c),
            decreases len - i,
        {
            if self.validity[i] == Validity::NotPresent(c) {
                return true;
            }
            i += 1;
        }
        false
    }

    /// Whether the guess was the answer.
    pub fn is_exact(&self) -> (b: bool)
        ensures
            b == all_exact(self@),
    {
        let n: usize = self.validity.len();
        let mut i: usize = 0;
        while i < n
            invariant
                i <= n,
                n == self.validity@.len(),
                forall|j: int| 0 <= j < i ==> self.validity@[j] is Exact,
            decreases n - i,
        {
            match self.validity[i] {
                Validity::Exact(_, _) => {},
                _ => {
                    return false;
                },
            }
            i += 1;
        }
        true
    }

    /// Whether two feedbacks hold the same atoms in the same order.
    pub fn same_as(&self, other: &Word) -> (same: bool)
        ensures
            same == (self@ == other@),
    {
        if self.validity.len() != other.validity.len() {
            return false;
        }
        let n: usize = self.validity.len();
        let mut i: usize = 0;
        while i < n
            invariant
                i <= n,
                n == self.validity@.len(),
                n == other.validity@.len(),
                forall|j: int| 0 <= j < i ==> self.validity@[j] == other.validity@[j],
            decreases n - i,
        {
            if self.validity[i] != other.validity[i] {
                return false;
            }
            i += 1;
        }
        assert(self.validity@ =~= other.validity@);
        true
    }

    /// A copy of this feedback.
    pub fn duplicate(&self) -> (w: Word)
        ensures
            w@ == self@,
    {
        let n: usize = self.validity.len();
        let mut validity: Vec<Validity> = Vec::new();
        let mut i: usize = 0;
        while i < n
            invariant
                i <= n,
                n == self.validity@.len(),
                validity@ == self.validity@.take(i as int),
            decreases n - i,
        {
            validity.push(self.validity[i]);
            i += 1;
            assert(validity@ =~= self.validity@.take(i as int));
        }
        assert(self.validity@.take(n as int) =~= self.validity@);
        Word { validity }
    }
}

/// The exact matches of a feedback are the positions at which guess and
/// answer agree.
pub proof fn lemma_exact_matches(answer: Seq<char>, guess: Seq<char>)
    requires
        answer.len() == guess.len(),
    ensures
        exact_count(feedback(answer, guess)) == agreements(answer, guess),
{
    lemma_count_congruent(
        exact_at(feedback(answer, guess)),
        agree_at(answer, guess),
        guess.len() as int,
    );
}

/// The predicate "answer and guess both hold `c` at `j`".
pub open spec fn matched_at(answer: Seq<char>, guess: Seq<char>, c: char) -> spec_fn(int) -> bool {
    |j: int| answer[j] == c && guess[j] == c
}

/// The predicate "the guess's `c` at `j` is misplaced and draws from the
/// pool".
spec fn served_at(answer: Seq<char>, guess: Seq<char>, c: char) -> spec_fn(int) -> bool {
    |j: int|
        guess[j] == c && answer[j] != c && misplaced_before(answer, guess, c, j) < unmatched(
            answer,
            guess,
            c,
        )
}

proof fn lemma_served(answer: Seq<char>, guess: Seq<char>, c: char, i: int)
    requires
        0 <= i,
    ensures
        count_below(served_at(answer, guess, c), i) == drawn(answer, guess, c, i),
    decreases i,
{
    if i > 0 {
        lemma_served(answer, guess, c, i - 1);
    }
}

/// The letters that a feedback credits: the exact matches of a letter, and
/// as many of its misplaced occurrences as the answer has occurrences left.
/// If the feedback reports the letter as not present anywhere, it credits
/// the letter exactly as often as the answer holds it.
pub proof fn lemma_credits(answer: Seq<char>, guess: Seq<char>, c: char)
    requires
        answer.len() == guess.len(),
    ensures
        letter_count(answer, c) == count_below(
            matched_at(answer, guess, c),
            answer.len() as int,
        ) + unmatched(answer, guess, c),
        credit_count(feedback(answer, guess), c) == count_below(
            matched_at(answer, guess, c),
            answer.len() as int,
        ) + drawn(answer, guess, c, answer.len() as int),
        credit_count(feedback(answer, guess), c) <= letter_count(answer, c),
        feedback(answer, guess).contains(Validity::NotPresent(c)) ==> credit_count(
            feedback(answer, guess),
            c,
        ) == letter_count(answer, c),
        feedback(answer, guess).contains(Validity::NotPresent(c)) ==> credit_count(
            feedback(answer, guess),
            c,
        ) < letter_count(guess, c),
        credit_count(feedback(answer, guess), c) <= letter_count(guess, c),
{
    let n: int = answer.len() as int;
    let f: Seq<Validity> = feedback(answer, guess);
    lemma_count_split(
        holds_letter(answer, c),
        matched_at(answer, guess, c),
        unmatched_at(answer, guess, c),
        n,
    );
    lemma_served(answer, guess, c, n);
    lemma_count_split(
        credits_at(f, c),
        matched_at(answer, guess, c),
        served_at(answer, guess, c),
        n,
    );
    lemma_count_monotone(credits_at(f, c), holds_letter(guess, c), n);
    if f.contains(Validity::NotPresent(c)) {
        let i: int = choose|i: int| 0 <= i < f.len() && f[i] == Validity::NotPresent(c);
        assert(f[i] == verdict(answer, guess, i));
        lemma_count_grows(misplaced_at(answer, guess, c), i, n);
        lemma_count_strict(credits_at(f, c), holds_letter(guess, c), n, i);
    }
}

/// A word compared with itself matches exactly at every position.
pub proof fn lemma_self_comparison(w: Seq<char>)
    ensures
        all_exact(feedback(w, w)),
        forall|i: int| 0 <= i < w.len() ==> feedback(w, w)[i] == Validity::Exact(w[i], i as usize),
{
}

/// A feedback is all exact matches only for the answer itself.
pub proof fn lemma_exact_means_answer(answer: Seq<char>, guess: Seq<char>)
    requires
        answer.len() == guess.len(),
    ensures
        all_exact(feedback(answer, guess)) <==> guess == answer,
{
    let f: Seq<Validity> = feedback(answer, guess);
    if all_exact(f) {
        assert forall|i: int| 0 <= i < guess.len() implies guess[i] == answer[i] by {
            assert(f[i] is Exact);
        }
        assert(guess =~= answer);
    }
}

/// A feedback spells out the guess it was given for.
pub proof fn lemma_letters_of_feedback(answer: Seq<char>, guess: Seq<char>)
    ensures
        letters(feedback(answer, guess)) == guess,
{
    assert(letters(feedback(answer, guess)) =~= guess);
}

} // verus!
