//! Solvers: policies that pick the next guess and drive a session to its
//! end.
//!
//! The random solver draws each guess from the words of its lists that
//! have the answer's length and that the feedback so far still admits. A
//! word drawn that way has not been guessed before, and its own feedback
//! turns it away afterwards, so every turn either ends the game or leaves
//! a smaller pool: the solver always returns. Without a cap on guesses,
//! and with the answer among its words, it returns with the game won.

use vstd::prelude::*;
use vstd::string::*;
use crate::constraints::{gathered, lemma_absorb_tightens, ConstraintSet};
use crate::feedback::{
    feedback,
    lemma_exact_means_answer,
    lemma_letters_of_feedback,
    letters,
    Validity,
};
use crate::filter::{
    candidates,
    lemma_candidates_concat,
    lemma_candidates_member,
    lemma_filter_shrinks,
    lemma_guess_excluded,
    lemma_sized_concat,
    lemma_sized_member,
    sized,
    spelled,
};
use crate::puzzle::{
    lemma_candidate_is_fresh,
    lemma_genuine_admits_answer,
    GameState,
    GuessResult,
    Puzzle,
    Session,
};

verus! {

/// How a solver's run ended.
#[derive(Copy, Clone, PartialEq, Eq, Debug, Structural)]
pub enum SolveResult {
    /// The answer was guessed.
    Solved,
    /// The cap on guesses was reached first.
    Lost,
    /// No word was left to guess while the game was still in progress.
    NoCandidates,
}

/// The words that may still be the answer of a session: those of the
/// dictionary that have the answer's length and that the feedback so far
/// admits, in the dictionary's order.
pub open spec fn possible(dictionary: Seq<Seq<char>>, s: Session) -> Seq<Seq<char>> {
    candidates(sized(dictionary, s.answer.len()), gathered(s.history))
}

/// The session as it stood when it held only the first `k` entries of its
/// history.
pub open spec fn at_turn(s: Session, k: int) -> Session {
    Session { answer: s.answer, history: s.history.take(k), cap: s.cap }
}

/// Whether every word recorded from entry `from` on was possible when it
/// was guessed.
pub open spec fn drawn_from_pool(dictionary: Seq<Seq<char>>, s: Session, from: int) -> bool {
    forall|k: int|
        from <= k < s.history.len() ==> possible(dictionary, #[trigger] at_turn(s, k)).contains(
            letters(s.history[k]),
        )
}

/// A policy that drives a session until it ends.
pub trait Solver {
    /// Submits guesses until the game is over or no guess is left. The
    /// answer and the cap stay as they are, nothing recorded is lost, and
    /// the result says where the game stands.
    fn solve(&self, puzzle: &mut Puzzle) -> (r: SolveResult)
        ensures
            final(puzzle)@.answer == old(puzzle)@.answer,
            final(puzzle)@.cap == old(puzzle)@.cap,
            old(puzzle)@.history.is_prefix_of(final(puzzle)@.history),
            r == SolveResult::Solved <==> final(puzzle)@.state() == GameState::Won,
            r == SolveResult::Lost <==> final(puzzle)@.state() == GameState::Lost,
            old(puzzle)@.state() != GameState::InProgress ==> final(puzzle)@.history == old(
                puzzle,
            )@.history,
    ;

    /// The name under which results of this solver are reported:
    /// `solver`, unless the solver gives itself another.
    fn name(&self) -> (name: String)
        default_ensures
            name@ == "solver"@,
    {
        "solver".to_owned()
    }
}

/// The source of chance: `rand::random`, which draws a `usize` from the
/// thread's generator. Nothing is known of the number drawn.
#[verifier::external_body]
fn random_index() -> usize {
    rand::random::<usize>()
}

/// The word that a drawn number picks: the one at the number's remainder
/// by the number of choices, or none where there is no choice.
pub fn pick<'a>(choices: &[&'a str], draw: usize) -> (w: Option<&'a str>)
    ensures
        match w {
            Some(word) => choices@.len() > 0 && word@ == spelled(choices@)[(draw as int) % (
            choices@.len() as int)],
            None => choices@.len() == 0,
        },
{
    let n: usize = choices.len();
    if n == 0 {
        None
    } else {
        Some(choices[draw % n])
    }
}

/// A word drawn at random from the choices, or none where there is no
/// choice.
pub fn rand_word<'a>(choices: &[&'a str]) -> (w: Option<&'a str>)
    ensures
        match w {
            Some(word) => spelled(choices@).contains(word@),
            None => choices@.len() == 0,
        },
{
    let draw: usize = random_index();
    let w: Option<&'a str> = pick(choices, draw);
    proof {
        if w is Some {
            let i: int = (draw as int) % (choices@.len() as int);
            assert(0 <= i < spelled(choices@).len());
        }
    }
    w
}

/// Appends to the pool the words of the list that have `n` letters and
/// that the constraints admit.
fn gather<'a>(pool: &mut Vec<&'a str>, words: &[&'a str], n: usize, constraints: &ConstraintSet)
    ensures
        spelled(final(pool)@) == spelled(old(pool)@) + candidates(
            sized(spelled(words@), n as nat),
            constraints@,
        ),
{
    let len: usize = words.len();
    let mut k: usize = 0;
    assert(spelled(words@).take(0) =~= Seq::<Seq<char>>::empty());
    assert(spelled(pool@) =~= spelled(old(pool)@) + Seq::<Seq<char>>::empty());
    while k < len
        invariant
            k <= len,
            len == words@.len(),
            spelled(pool@) == spelled(old(pool)@) + candidates(
                sized(spelled(words@).take(k as int), n as nat),
                constraints@,
            ),
        decreases len - k,
    {
        let word: &'a str = words[k];
        let ghost before: Seq<&str> = pool@;
        let ghost seen: Seq<Seq<char>> = sized(spelled(words@).take(k as int), n as nat);
        proof {
            let next: Seq<Seq<char>> = spelled(words@).take(k + 1);
            assert(next.drop_last() =~= spelled(words@).take(k as int));
            assert(next.last() == word@);
            assert(seen.push(word@).drop_last() =~= seen);
        }
        if word.unicode_len() == n && constraints.admits(word) {
            pool.push(word);
            assert(spelled(pool@) =~= spelled(before).push(word@));
            assert(spelled(pool@) =~= spelled(old(pool)@) + candidates(
                seen.push(word@),
                constraints@,
            ));
        }
        k += 1;
    }
    assert(spelled(words@).take(len as int) =~= spelled(words@));
}

/// A solver that guesses at random among the words still possible,
/// optionally after a fixed first guess.
pub struct RandomSolver<'a> {
    start_word: Option<String>,
    hard_mode: bool,
    answers: &'a [&'a str],
    guesses: &'a [&'a str],
}

impl<'a> RandomSolver<'a> {
    /// The solver's words: the answer list followed by the list of further
    /// allowed guesses.
    pub closed spec fn words(self) -> Seq<Seq<char>> {
        spelled(self.answers@) + spelled(self.guesses@)
    }

    /// The fixed first guess, if there is one.
    pub closed spec fn opening(self) -> Option<Seq<char>> {
        match self.start_word {
            Some(w) => Some(w@),
            None => None,
        }
    }

    /// Whether every guess after the opening is drawn from the words
    /// still possible.
    pub closed spec fn plays_hard(self) -> bool {
        self.hard_mode
    }

    /// Whether the session `after` can come of the session `before` by
    /// this solver's policy: the fixed first guess, where there is one,
    /// is submitted first, and every word recorded after that was possible
    /// when it was guessed.
    pub open spec fn follows_policy(self, before: Session, after: Session) -> bool {
        match self.opening() {
            None => drawn_from_pool(self.words(), after, before.history.len() as int),
            Some(w) => before.state() == GameState::InProgress ==> {
                &&& before.after(w).history.is_prefix_of(after.history)
                &&& drawn_from_pool(self.words(), after, before.after(w).history.len() as int)
            },
        }
    }

    /// A solver over the two word lists, without a fixed first guess.
    pub fn new(answers: &'a [&'a str], guesses: &'a [&'a str]) -> (solver: Self)
        ensures
            solver.words() == spelled(answers@) + spelled(guesses@),
            solver.opening() is None,
            solver.plays_hard(),
    {
        Self { start_word: None, hard_mode: true, answers, guesses }
    }

    /// A solver over the two word lists whose first guess is `word`,
    /// whether or not its lists hold it.
    pub fn with_start_word(word: &str, answers: &'a [&'a str], guesses: &'a [&'a str]) -> (solver:
        Self)
        ensures
            solver.words() == spelled(answers@) + spelled(guesses@),
            solver.opening() == Some(word@),
            solver.plays_hard(),
    {
        Self { start_word: Some(word.to_owned()), hard_mode: true, answers, guesses }
    }

    /// Whether every guess after the first is drawn from the words still
    /// possible. This solver always plays so.
    pub fn hard_mode(&self) -> (b: bool)
        ensures
            b == self.plays_hard(),
    {
        self.hard_mode
    }

    /// The words that may still be the answer, in the order of the
    /// solver's lists. While the game is in progress none of them has been
    /// guessed before, and the answer is among them if the lists hold it.
    pub fn possibilities(&self, puzzle: &Puzzle) -> (pool: Vec<&'a str>)
        ensures
            spelled(pool@) == possible(self.words(), puzzle@),
            puzzle@.genuine(),
            self.words().contains(puzzle@.answer) ==> spelled(pool@).contains(puzzle@.answer),
            puzzle@.state() == GameState::InProgress ==> forall|k: int|
                0 <= k < pool@.len() ==> puzzle@.accepts(#[trigger] spelled(pool@)[k]),
    {
        let constraints: ConstraintSet = puzzle.validity();
        let n: usize = puzzle.word_length();
        let mut pool: Vec<&'a str> = Vec::new();
        gather(&mut pool, self.answers, n, &constraints);
        gather(&mut pool, self.guesses, n, &constraints);
        proof {
            let a: Seq<Seq<char>> = spelled(self.answers@);
            let b: Seq<Seq<char>> = spelled(self.guesses@);
            lemma_sized_concat(a, b, n as nat);
            lemma_candidates_concat(sized(a, n as nat), sized(b, n as nat), constraints@);
            assert(spelled(pool@) =~= possible(self.words(), puzzle@));
            if self.words().contains(puzzle@.answer) {
                lemma_sized_member(self.words(), n as nat, puzzle@.answer);
                lemma_candidates_member(
                    sized(self.words(), n as nat),
                    constraints@,
                    puzzle@.answer,
                );
            }
            if puzzle@.state() == GameState::InProgress {
                assert forall|k: int| 0 <= k < pool@.len() implies puzzle@.accepts(
                    #[trigger] spelled(pool@)[k],
                ) by {
                    let w: Seq<char> = spelled(pool@)[k];
                    assert(spelled(pool@).contains(w));
                    lemma_candidates_member(sized(self.words(), n as nat), constraints@, w);
                    lemma_sized_member(self.words(), n as nat, w);
                    lemma_candidate_is_fresh(puzzle@, w);
                }
            }
        }
        pool
    }

    /// The next guess: the fixed first guess where this is the opening
    /// turn and one is fixed; otherwise the word that the drawn number
    /// picks among those still possible, or none where none is left.
    pub fn select<'s>(&'s self, puzzle: &Puzzle, opening: bool, draw: usize) -> (w: Option<
        &'s str,
    >)
        ensures
            puzzle@.genuine(),
            match w {
                Some(word) => if opening && self.opening() is Some {
                    word@ == self.opening()->0
                } else {
                    let pool = possible(self.words(), puzzle@);
                    pool.len() > 0 && word@ == pool[(draw as int) % (pool.len() as int)]
                },
                None => !(opening && self.opening() is Some) && possible(
                    self.words(),
                    puzzle@,
                ).len() == 0,
            },
    {
        let pool: Vec<&'a str> = self.possibilities(puzzle);
        if opening {
            match &self.start_word {
                Some(w) => {
                    return Some(w.as_str());
                },
                None => {},
            }
        }
        match pick(pool.as_slice(), draw) {
            Some(word) => Some(word),
            None => None,
        }
    }
}

/// An accepted guess that was not the answer leaves fewer words possible.
pub proof fn lemma_wrong_guess_shrinks_pool(dictionary: Seq<Seq<char>>, s: Session, w: Seq<char>)
    requires
        s.answer.len() <= usize::MAX,
        possible(dictionary, s).contains(w),
        s.outcome(w) is Incorrect,
    ensures
        possible(dictionary, s.after(w)).len() < possible(dictionary, s).len(),
{
    let n: nat = s.answer.len();
    let before = gathered(s.history);
    let f: Seq<Validity> = feedback(s.answer, w);
    let t: Session = s.after(w);
    assert(t.history.drop_last() =~= s.history);
    assert(gathered(t.history) == before.absorb(f));
    lemma_candidates_member(sized(dictionary, n), before, w);
    lemma_absorb_tightens(before, f);
    lemma_exact_means_answer(s.answer, w);
    lemma_guess_excluded(before, s.answer, w);
    lemma_filter_shrinks(sized(dictionary, n), before, gathered(t.history), w);
}

/// An accepted word that was possible extends a history of words that
/// were possible when they were guessed.
pub proof fn lemma_drawn_extends(dictionary: Seq<Seq<char>>, s: Session, w: Seq<char>, from: int)
    requires
        0 <= from,
        drawn_from_pool(dictionary, s, from),
        s.accepts(w),
        possible(dictionary, s).contains(w),
    ensures
        drawn_from_pool(dictionary, s.after(w), from),
{
    let t: Session = s.after(w);
    assert forall|k: int| from <= k < t.history.len() implies possible(
        dictionary,
        #[trigger] at_turn(t, k),
    ).contains(letters(t.history[k])) by {
        assert(t.history.take(k) =~= s.history.take(k));
        if k < s.history.len() {
            assert(at_turn(t, k) == at_turn(s, k));
            assert(t.history[k] == s.history[k]);
        } else {
            assert(s.history.take(k) =~= s.history);
            assert(at_turn(t, k) == s);
            lemma_letters_of_feedback(s.answer, w);
        }
    }
}

impl<'a> Solver for RandomSolver<'a> {
    /// Plays the fixed first guess, if there is one, and then words drawn
    /// at random from those still possible, until the game is over or no
    /// word is left. A result of `NoCandidates` means just that; without a
    /// cap, and with the answer among the solver's words, the game is won.
    fn solve(&self, puzzle: &mut Puzzle) -> (r: SolveResult)
        ensures
            self.follows_policy(old(puzzle)@, final(puzzle)@),
            r == SolveResult::NoCandidates ==> possible(self.words(), final(puzzle)@).len() == 0,
            old(puzzle)@.cap is None && self.words().contains(old(puzzle)@.answer) ==> r
                == SolveResult::Solved,
    {
        let mut first: bool = self.start_word.is_some();
        loop
            invariant
                puzzle@.answer == old(puzzle)@.answer,
                puzzle@.cap == old(puzzle)@.cap,
                old(puzzle)@.history.is_prefix_of(puzzle@.history),
                first ==> self.start_word is Some && puzzle@.history == old(puzzle)@.history,
                old(puzzle)@.state() != GameState::InProgress ==> puzzle@.history == old(
                    puzzle,
                )@.history,
                !first ==> self.follows_policy(old(puzzle)@, puzzle@),
            decreases
                    (if first {
                        1int
                    } else {
                        0int
                    }),
                    possible(self.words(), puzzle@).len(),
        {
            match puzzle.state() {
                GameState::Won => {
                    return SolveResult::Solved;
                },
                GameState::Lost => {
                    return SolveResult::Lost;
                },
                GameState::InProgress => {},
            }
            let ghost s: Session = puzzle@;
            let draw: usize = if first {
                0
            } else {
                random_index()
            };
            let word: &str = match self.select(puzzle, first, draw) {
                Some(word) => word,
                None => {
                    proof {
                        if self.words().contains(s.answer) {
                            let n: nat = s.answer.len();
                            lemma_genuine_admits_answer(s);
                            lemma_sized_member(self.words(), n, s.answer);
                            lemma_candidates_member(
                                sized(self.words(), n),
                                gathered(s.history),
                                s.answer,
                            );
                        }
                    }
                    return SolveResult::NoCandidates;
                },
            };
            let ghost opening: bool = first;
            first = false;
            proof {
                if !opening {
                    let pool = possible(self.words(), s);
                    let n: nat = s.answer.len();
                    let i: int = (draw as int) % (pool.len() as int);
                    assert(pool[i] == word@);
                    assert(pool.contains(word@));
                    lemma_candidates_member(sized(self.words(), n), gathered(s.history), word@);
                    lemma_sized_member(self.words(), n, word@);
                    lemma_candidate_is_fresh(s, word@);
                }
            }
            let result: GuessResult = puzzle.guess(word);
            proof {
                if opening {
                    assert(s == old(puzzle)@);
                } else {
                    let from: int = match self.opening() {
                        None => old(puzzle)@.history.len() as int,
                        Some(w) => old(puzzle)@.after(w).history.len() as int,
                    };
                    lemma_drawn_extends(self.words(), s, word@, from);
                }
            }
            match result {
                GuessResult::Correct => {
                    return SolveResult::Solved;
                },
                _ => {
                    proof {
                        if !opening {
                            lemma_wrong_guess_shrinks_pool(self.words(), s, word@);
                        }
                    }
                },
            }
        }
    }

    /// `random`, followed by a hyphen and the first guess where one is
    /// fixed.
    fn name(&self) -> (name: String)
        ensures
            match self.opening() {
                Some(w) => name@ == "random-"@ + w,
                None => name@ == "random"@,
            },
    {
        match &self.start_word {
            Some(w) => {
                let mut name: String = "random-".to_owned();
                name.append(w.as_str());
                name
            },
            None => "random".to_owned(),
        }
    }
}

} // verus!
