//! A game session: the hidden answer, the guesses accepted so far with
//! their feedback, and an optional cap on the number of guesses.
//!
//! A submitted word is judged in this order. A word of the wrong length is
//! invalid. A word whose feedback the session already holds is a
//! duplicate, also after the game has ended. Any other word is turned
//! away once the game has ended. What is left is accepted: its feedback
//! joins the history, and the game is won if every letter matched, lost
//! if the cap is reached without that.

use vstd::prelude::*;
use crate::constraints::{gathered, lemma_absorb_tightens, lemma_within_admits, ConstraintSet};
use crate::feedback::{
    all_exact,
    feedback,
    feedbacks,
    lemma_exact_means_answer,
    lemma_letters_of_feedback,
    letters,
    Validity,
    Word,
};
use crate::filter::{lemma_answer_admitted, lemma_guess_excluded, replies};

verus! {

/// Where a game stands.
#[derive(Copy, Clone, PartialEq, Eq, Debug, Structural)]
pub enum GameState {
    /// Guesses are still accepted.
    InProgress,
    /// The answer was guessed.
    Won,
    /// The cap on guesses was reached without the answer.
    Lost,
}

/// What became of a submitted word.
#[derive(Clone, PartialEq, Eq, Debug)]
pub enum GuessResult {
    /// The word is the answer; it was recorded and the game is won.
    Correct,
    /// The word is not the answer; it was recorded with this feedback.
    Incorrect(Word),
    /// The word was recorded before; nothing changed.
    Duplicate,
    /// The word has the wrong length; nothing changed.
    Invalid,
    /// The game has ended and takes no new word; nothing changed.
    GameOver,
}

/// What became of a submitted word, with the feedback as a sequence.
pub enum Outcome {
    /// The word is the answer and was recorded.
    Correct,
    /// The word is not the answer and was recorded with this feedback.
    Incorrect(Seq<Validity>),
    /// The word's feedback was recorded before.
    Duplicate,
    /// The word has the wrong length.
    Invalid,
    /// The game has ended and the word is new.
    GameOver,
}

impl View for GuessResult {
    type V = Outcome;

    open spec fn view(&self) -> Outcome {
        match self {
            GuessResult::Correct => Outcome::Correct,
            GuessResult::Incorrect(w) => Outcome::Incorrect(w@),
            GuessResult::Duplicate => Outcome::Duplicate,
            GuessResult::Invalid => Outcome::Invalid,
            GuessResult::GameOver => Outcome::GameOver,
        }
    }
}

/// The words that a history of feedback was given for.
pub open spec fn guessed(history: Seq<Seq<Validity>>) -> Seq<Seq<char>> {
    Seq::new(history.len(), |k: int| letters(history[k]))
}

/// A session as a value: the answer, the feedback recorded so far, oldest
/// first, and the cap on guesses if there is one.
pub struct Session {
    pub answer: Seq<char>,
    pub history: Seq<Seq<Validity>>,
    pub cap: Option<nat>,
}

impl Session {
    /// Where the game stands.
    pub open spec fn state(self) -> GameState {
        if self.history.len() > 0 && all_exact(self.history.last()) {
            GameState::Won
        } else if self.cap is Some && self.history.len() >= self.cap->0 {
            GameState::Lost
        } else {
            GameState::InProgress
        }
    }

    /// What becomes of a submitted word.
    pub open spec fn outcome(self, word: Seq<char>) -> Outcome {
        if word.len() != self.answer.len() {
            Outcome::Invalid
        } else if self.history.contains(feedback(self.answer, word)) {
            Outcome::Duplicate
        } else if self.state() != GameState::InProgress {
            Outcome::GameOver
        } else if all_exact(feedback(self.answer, word)) {
            Outcome::Correct
        } else {
            Outcome::Incorrect(feedback(self.answer, word))
        }
    }

    /// Whether a submitted word is recorded.
    pub open spec fn accepts(self, word: Seq<char>) -> bool {
        self.outcome(word) is Correct || self.outcome(word) is Incorrect
    }

    /// The session after a word was submitted.
    pub open spec fn after(self, word: Seq<char>) -> Session {
        if self.accepts(word) {
            Session {
                answer: self.answer,
                history: self.history.push(feedback(self.answer, word)),
                cap: self.cap,
            }
        } else {
            self
        }
    }

    /// Whether the history is what a game against the answer produces:
    /// every entry is the feedback for a word of the answer's length, and
    /// none but the last can be the winning one.
    pub open spec fn genuine(self) -> bool {
        &&& self.answer.len() <= usize::MAX
        &&& forall|k: int|
            0 <= k < self.history.len() ==> (#[trigger] self.history[k]).len() == self.answer.len()
                && self.history[k] == feedback(self.answer, letters(self.history[k]))
        &&& forall|k: int|
            0 <= k < self.history.len() - 1 ==> !all_exact(#[trigger] self.history[k])
    }
}

/// A game session.
pub struct Puzzle<'a> {
    answer: &'a str,
    length: usize,
    guesses: Vec<Word>,
    max_guesses: Option<usize>,
}

impl<'a> View for Puzzle<'a> {
    type V = Session;

    closed spec fn view(&self) -> Session {
        Session {
            answer: self.answer@,
            history: feedbacks(self.guesses@),
            cap: match self.max_guesses {
                Some(m) => Some(m as nat),
                None => None,
            },
        }
    }
}

impl<'a> Puzzle<'a> {
    #[verifier::type_invariant]
    spec fn well_formed(self) -> bool {
        &&& self.length == self.answer@.len()
        &&& self@.genuine()
    }

    /// A session for the given answer, without a cap on guesses.
    pub fn new(word: &'a str) -> (p: Self)
        ensures
            p@ == (Session { answer: word@, history: Seq::empty(), cap: None }),
    {
        let length: usize = word.unicode_len();
        let p = Self { answer: word, length, guesses: Vec::new(), max_guesses: None };
        assert(p@.history =~= Seq::<Seq<Validity>>::empty());
        p
    }

    /// A session for the given answer that takes at most `max_guesses`
    /// words.
    pub fn with_max_guesses(word: &'a str, max_guesses: usize) -> (p: Self)
        ensures
            p@ == (Session {
                answer: word@,
                history: Seq::empty(),
                cap: Some(max_guesses as nat),
            }),
    {
        let length: usize = word.unicode_len();
        let p = Self { answer: word, length, guesses: Vec::new(), max_guesses: Some(max_guesses) };
        assert(p@.history =~= Seq::<Seq<Validity>>::empty());
        p
    }

    /// The hidden answer.
    pub fn answer(&self) -> (word: &'a str)
        ensures
            word@ == self@.answer,
    {
        self.answer
    }

    /// The number of letters of the answer, and of every word that the
    /// session takes.
    pub fn word_length(&self) -> (n: usize)
        ensures
            n == self@.answer.len(),
    {
        proof {
            use_type_invariant(self);
        }
        self.length
    }

    /// The cap on guesses, if there is one.
    pub fn max_guesses(&self) -> (cap: Option<usize>)
        ensures
            match cap {
                Some(m) => self@.cap == Some(m as nat),
                None => self@.cap is None,
            },
    {
        self.max_guesses
    }

    /// The feedback recorded so far, oldest first.
    pub fn guesses(&self) -> (history: &[Word])
        ensures
            feedbacks(history@) == self@.history,
            self@.genuine(),
    {
        proof {
            use_type_invariant(self);
        }
        self.guesses.as_slice()
    }

    /// Where the game stands.
    pub fn state(&self) -> (s: GameState)
        ensures
            s == self@.state(),
    {
        let n: usize = self.guesses.len();
        if n > 0 && self.guesses[n - 1].is_exact() {
            GameState::Won
        } else {
            match self.max_guesses {
                Some(m) => if n >= m {
                    GameState::Lost
                } else {
                    GameState::InProgress
                },
                None => GameState::InProgress,
            }
        }
    }

    /// What the feedback recorded so far establishes. The answer is
    /// consistent with it.
    pub fn validity(&self) -> (cs: ConstraintSet)
        ensures
            cs@ == gathered(self@.history),
            cs@.admits(self@.answer),
            self@.genuine(),
    {
        proof {
            use_type_invariant(self);
            lemma_genuine_admits_answer(self@);
        }
        ConstraintSet::accumulate(self.guesses.as_slice())
    }

    /// Whether the feedback is already recorded.
    fn recorded(&self, reply: &Word) -> (b: bool)
        ensures
            b == self@.history.contains(reply@),
    {
        let n: usize = self.guesses.len();
        let mut k: usize = 0;
        while k < n
            invariant
                k <= n,
                n == self.guesses@.len(),
                forall|j: int| 0 <= j < k ==> feedbacks(self.guesses@)[j] != reply@,
            decreases n - k,
        {
            if self.guesses[k].same_as(reply) {
                assert(feedbacks(self.guesses@)[k as int] == reply@);
                return true;
            }
            k += 1;
        }
        false
    }

    /// Submits a word.
    pub fn guess(&mut self, word: &str) -> (r: GuessResult)
        ensures
            r@ == old(self)@.outcome(word@),
            final(self)@ == old(self)@.after(word@),
    {
        proof {
            use_type_invariant(&*self);
        }
        let reply: Word = match Word::compare(self.answer, word) {
            Ok(reply) => reply,
            Err(_) => {
                return GuessResult::Invalid;
            },
        };
        if self.recorded(&reply) {
            return GuessResult::Duplicate;
        }
        match self.state() {
            GameState::InProgress => {},
            _ => {
                return GuessResult::GameOver;
            },
        }
        let correct: bool = reply.is_exact();
        let copy: Word = reply.duplicate();
        let mut guesses: Vec<Word> = Vec::new();
        core::mem::swap(&mut self.guesses, &mut guesses);
        let ghost before: Seq<Seq<Validity>> = feedbacks(guesses@);
        guesses.push(reply);
        proof {
            let now: Seq<Seq<Validity>> = feedbacks(guesses@);
            assert(now =~= before.push(feedback(self.answer@, word@)));
            lemma_letters_of_feedback(self.answer@, word@);
            assert forall|k: int| 0 <= k < now.len() implies (#[trigger] now[k]).len()
                == self.answer@.len() && now[k] == feedback(self.answer@, letters(now[k])) by {
                if k < before.len() {
                    assert(now[k] == before[k]);
                }
            }
            assert forall|k: int| 0 <= k < now.len() - 1 implies !all_exact(#[trigger] now[k]) by {
                assert(now[k] == before[k]);
                if k < before.len() - 1 {
                    assert(!all_exact(before[k]));
                }
            }
        }
        self.guesses = guesses;
        if correct {
            GuessResult::Correct
        } else {
            GuessResult::Incorrect(copy)
        }
    }
}

/// A genuine history is the list of replies to the words it was given for.
pub proof fn lemma_genuine_replies(s: Session)
    requires
        s.genuine(),
    ensures
        s.history == replies(s.answer, guessed(s.history)),
        forall|k: int|
            0 <= k < s.history.len() ==> (#[trigger] guessed(s.history)[k]).len()
                == s.answer.len(),
{
    assert(s.history =~= replies(s.answer, guessed(s.history)));
    assert forall|k: int| 0 <= k < s.history.len() implies (#[trigger] guessed(
        s.history,
    )[k]).len() == s.answer.len() by {
        assert(s.history[k].len() == s.answer.len());
    }
}

/// What a genuine history establishes never turns the answer away.
pub proof fn lemma_genuine_admits_answer(s: Session)
    requires
        s.genuine(),
    ensures
        gathered(s.history).admits(s.answer),
{
    lemma_genuine_replies(s);
    lemma_answer_admitted(s.answer, guessed(s.history));
}

/// Submitting a word keeps a genuine session genuine, and only ever adds
/// to its history.
pub proof fn lemma_after_genuine(s: Session, word: Seq<char>)
    requires
        s.genuine(),
    ensures
        s.after(word).genuine(),
        s.after(word).answer == s.answer,
        s.after(word).cap == s.cap,
        s.history.is_prefix_of(s.after(word).history),
{
    let t: Session = s.after(word);
    if s.accepts(word) {
        lemma_letters_of_feedback(s.answer, word);
        assert forall|k: int| 0 <= k < t.history.len() implies (#[trigger] t.history[k]).len()
            == t.answer.len() && t.history[k] == feedback(t.answer, letters(t.history[k])) by {
            if k < s.history.len() {
                assert(t.history[k] == s.history[k]);
            }
        }
        assert forall|k: int| 0 <= k < t.history.len() - 1 implies !all_exact(
            #[trigger] t.history[k],
        ) by {
            assert(t.history[k] == s.history[k]);
            if k < s.history.len() - 1 {
                assert(!all_exact(s.history[k]));
            }
        }
    }
}

/// Duplicate detection: a word that is accepted is recorded once; the
/// same word submitted again is a duplicate and changes nothing.
pub proof fn lemma_duplicate_detection(s: Session, word: Seq<char>)
    requires
        s.accepts(word),
    ensures
        s.after(word).history.len() == s.history.len() + 1,
        s.after(word).outcome(word) is Duplicate,
        s.after(word).after(word) == s.after(word),
{
    let t: Session = s.after(word);
    assert(t.history[s.history.len() as int] == feedback(s.answer, word));
}

/// A word whose feedback is recorded stays a duplicate whatever is
/// submitted afterwards.
pub proof fn lemma_duplicate_persists(s: Session, word: Seq<char>, next: Seq<char>)
    requires
        s.outcome(word) is Duplicate,
    ensures
        s.after(next).outcome(word) is Duplicate,
{
    let t: Session = s.after(next);
    let f: Seq<Validity> = feedback(s.answer, word);
    let k: int = choose|k: int| 0 <= k < s.history.len() && s.history[k] == f;
    if s.accepts(next) {
        assert(t.history[k] == f);
    }
}

/// Two words of the answer's length get the same feedback only if they
/// are the same word.
pub proof fn lemma_same_feedback_same_word(answer: Seq<char>, a: Seq<char>, b: Seq<char>)
    requires
        feedback(answer, a) == feedback(answer, b),
    ensures
        a == b,
{
    lemma_letters_of_feedback(answer, a);
    lemma_letters_of_feedback(answer, b);
}

/// While a game is in progress, no word that the gathered constraints
/// admit has been guessed before.
pub proof fn lemma_candidate_is_fresh(s: Session, w: Seq<char>)
    requires
        s.genuine(),
        s.state() == GameState::InProgress,
        w.len() == s.answer.len(),
        gathered(s.history).admits(w),
    ensures
        !s.history.contains(feedback(s.answer, w)),
        s.accepts(w),
{
    if s.history.contains(feedback(s.answer, w)) {
        let k: int = choose|k: int| 0 <= k < s.history.len() && s.history[k] == feedback(
            s.answer,
            w,
        );
        lemma_letters_of_feedback(s.answer, w);
        assert(!all_exact(s.history[k])) by {
            if k < s.history.len() - 1 {
            } else {
                assert(s.history[k] == s.history.last());
            }
        }
        lemma_exact_means_answer(s.answer, w);
        lemma_history_excludes(s.history, k, s.answer, w);
    }
}

/// What a history establishes turns away every word that one of its
/// entries was given for, unless that word was the answer.
proof fn lemma_history_excludes(
    history: Seq<Seq<Validity>>,
    k: int,
    answer: Seq<char>,
    w: Seq<char>,
)
    requires
        0 <= k < history.len(),
        history[k] == feedback(answer, w),
        w.len() == answer.len(),
        answer.len() <= usize::MAX,
        w != answer,
    ensures
        !gathered(history).admits(w),
    decreases history.len(),
{
    let rest: Seq<Seq<Validity>> = history.drop_last();
    if k == history.len() - 1 {
        lemma_guess_excluded(gathered(rest), answer, w);
    } else {
        assert(rest[k] == history[k]);
        lemma_history_excludes(rest, k, answer, w);
        lemma_absorb_tightens(gathered(rest), history.last());
        if gathered(history).admits(w) {
            lemma_within_admits(gathered(rest), gathered(history), w);
        }
    }
}

} // verus!
