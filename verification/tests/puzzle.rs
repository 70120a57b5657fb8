use wordle::constraints::ConstraintSet;
use wordle::feedback::{Validity, Word};
use wordle::puzzle::{GameState, GuessResult, Puzzle};

#[test]
fn new_session_is_in_progress() {
    let p = Puzzle::new("LIGHT");
    assert_eq!(p.state(), GameState::InProgress);
    assert_eq!(p.answer(), "LIGHT");
    assert_eq!(p.word_length(), 5);
    assert_eq!(p.max_guesses(), None);
    assert!(p.guesses().is_empty());
    assert_eq!(p.validity().len(), 0);
    let p = Puzzle::with_max_guesses("LIGHT", 6);
    assert_eq!(p.state(), GameState::InProgress);
    assert_eq!(p.max_guesses(), Some(6));
}

#[test]
fn wrong_length_is_invalid() {
    let mut p = Puzzle::new("LIGHT");
    assert_eq!(p.guess("LIGHTS"), GuessResult::Invalid);
    assert_eq!(p.guess("LIT"), GuessResult::Invalid);
    assert_eq!(p.guess(""), GuessResult::Invalid);
    assert!(p.guesses().is_empty());
    assert_eq!(p.state(), GameState::InProgress);
}

#[test]
fn incorrect_guess_is_recorded_with_its_feedback() {
    let mut p = Puzzle::new("CRANE");
    let expected = Word::compare("CRANE", "TRACE").unwrap();
    assert_eq!(p.guess("TRACE"), GuessResult::Incorrect(expected.clone()));
    assert_eq!(p.guesses(), &[expected]);
    assert_eq!(p.guesses()[0].word(), "TRACE");
    assert_eq!(p.state(), GameState::InProgress);
}

#[test]
fn correct_guess_wins() {
    let mut p = Puzzle::new("CRANE");
    assert_eq!(p.guess("CRANE"), GuessResult::Correct);
    assert_eq!(p.state(), GameState::Won);
    assert_eq!(p.guesses().len(), 1);
    assert!(p.guesses()[0].is_exact());
}

#[test]
fn same_word_twice_is_a_duplicate() {
    let mut p = Puzzle::new("CRANE");
    assert!(matches!(p.guess("TRACE"), GuessResult::Incorrect(_)));
    assert_eq!(p.guesses().len(), 1);
    assert_eq!(p.guess("TRACE"), GuessResult::Duplicate);
    assert_eq!(p.guesses().len(), 1);
    assert!(matches!(p.guess("BLOCK"), GuessResult::Incorrect(_)));
    assert_eq!(p.guess("TRACE"), GuessResult::Duplicate);
    assert_eq!(p.guesses().len(), 2);
    assert_eq!(p.state(), GameState::InProgress);
}

#[test]
fn the_answer_twice_is_correct_then_duplicate() {
    let mut p = Puzzle::new("CRANE");
    assert_eq!(p.guess("CRANE"), GuessResult::Correct);
    assert_eq!(p.guess("CRANE"), GuessResult::Duplicate);
    assert_eq!(p.guesses().len(), 1);
    assert_eq!(p.state(), GameState::Won);
}

#[test]
fn a_won_game_takes_no_new_word() {
    let mut p = Puzzle::new("CRANE");
    assert!(matches!(p.guess("TRACE"), GuessResult::Incorrect(_)));
    assert_eq!(p.guess("CRANE"), GuessResult::Correct);
    assert_eq!(p.guess("BLOCK"), GuessResult::GameOver);
    assert_eq!(p.guess("TRACE"), GuessResult::Duplicate);
    assert_eq!(p.guess("TOOLONG"), GuessResult::Invalid);
    assert_eq!(p.guesses().len(), 2);
    assert_eq!(p.state(), GameState::Won);
}

#[test]
fn six_misses_lose_a_game_capped_at_six() {
    let mut p = Puzzle::with_max_guesses("LIGHT", 6);
    let misses = ["CRANE", "TRACE", "NIGHT", "SIGHT", "EIGHT", "FIGHT"];
    for (i, g) in misses.iter().enumerate() {
        assert_eq!(p.state(), GameState::InProgress);
        assert!(matches!(p.guess(g), GuessResult::Incorrect(_)));
        assert_eq!(p.guesses().len(), i + 1);
    }
    assert_eq!(p.state(), GameState::Lost);
    assert_eq!(p.guess("MIGHT"), GuessResult::GameOver);
    assert_eq!(p.guess("LIGHT"), GuessResult::GameOver);
    assert_eq!(p.guesses().len(), 6);
    assert_eq!(p.state(), GameState::Lost);
    assert_eq!(p.guess("NIGHT"), GuessResult::Duplicate);
    assert_eq!(p.guesses().len(), 6);
}

#[test]
fn the_answer_on_the_last_guess_wins() {
    let mut p = Puzzle::with_max_guesses("LIGHT", 2);
    assert!(matches!(p.guess("NIGHT"), GuessResult::Incorrect(_)));
    assert_eq!(p.state(), GameState::InProgress);
    assert_eq!(p.guess("LIGHT"), GuessResult::Correct);
    assert_eq!(p.state(), GameState::Won);
}

#[test]
fn rejected_words_do_not_count_against_the_cap() {
    let mut p = Puzzle::with_max_guesses("LIGHT", 2);
    assert!(matches!(p.guess("NIGHT"), GuessResult::Incorrect(_)));
    assert_eq!(p.guess("NIGHT"), GuessResult::Duplicate);
    assert_eq!(p.guess("NIGHTS"), GuessResult::Invalid);
    assert_eq!(p.state(), GameState::InProgress);
    assert!(matches!(p.guess("SIGHT"), GuessResult::Incorrect(_)));
    assert_eq!(p.state(), GameState::Lost);
}

#[test]
fn a_cap_of_zero_is_lost_from_the_start() {
    let mut p = Puzzle::with_max_guesses("LIGHT", 0);
    assert_eq!(p.state(), GameState::Lost);
    assert_eq!(p.guess("LIGHT"), GuessResult::GameOver);
    assert!(p.guesses().is_empty());
}

#[test]
fn validity_is_recomputed_from_the_history() {
    let mut p = Puzzle::new("SPEED");
    let mut step = ConstraintSet::new();
    for g in ["EERIE", "CRANE", "THESE"] {
        if let GuessResult::Incorrect(w) = p.guess(g) {
            step.absorb(&w);
        } else {
            panic!("expected a miss");
        }
        let cs = p.validity();
        assert_eq!(cs.atoms(), step.atoms());
        for c in "ABCDEFGHIJKLMNOPQRSTUVWXYZ".chars() {
            assert_eq!(cs.bound(c), step.bound(c));
        }
        assert!(cs.admits("SPEED"));
    }
    assert!(p.validity().contains(Validity::Somewhere('E', 0)));
    assert!(p.validity().contains(Validity::Exact('E', 2)));
}
