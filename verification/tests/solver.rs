use wordle::puzzle::{GameState, GuessResult, Puzzle};
use wordle::solver::{pick, rand_word, RandomSolver, SolveResult, Solver};

const ANSWERS: [&str; 6] = ["CRANE", "SPEED", "LIGHT", "STEEP", "THESE", "NIGHT"];
const GUESSES: [&str; 5] = ["EERIE", "TRACE", "GEESE", "SIGHT", "ELDER"];

struct GiveUp;

impl Solver for GiveUp {
    fn solve(&self, puzzle: &mut Puzzle) -> SolveResult {
        match puzzle.state() {
            GameState::Won => SolveResult::Solved,
            GameState::Lost => SolveResult::Lost,
            GameState::InProgress => SolveResult::NoCandidates,
        }
    }
}

#[test]
fn pick_takes_the_remainder() {
    let choices = ["A", "B", "C"];
    assert_eq!(pick(&choices, 0), Some("A"));
    assert_eq!(pick(&choices, 7), Some("B"));
    assert_eq!(pick(&choices, 2), Some("C"));
    assert_eq!(pick(&choices, usize::MAX), Some(choices[usize::MAX % 3]));
    assert_eq!(pick(&[], 3), None);
}

#[test]
fn rand_word_draws_from_the_choices() {
    for _ in 0..200 {
        let w = rand_word(&ANSWERS).unwrap();
        assert!(ANSWERS.contains(&w));
    }
    assert_eq!(rand_word(&["ONLY"]), Some("ONLY"));
    assert_eq!(rand_word(&[]), None);
}

#[test]
fn rand_word_varies() {
    let mut seen: Vec<&str> = Vec::new();
    for _ in 0..2000 {
        let w = rand_word(&ANSWERS).unwrap();
        if !seen.contains(&w) {
            seen.push(w);
        }
    }
    assert!(seen.len() > 1);
}

#[test]
fn names() {
    assert_eq!(RandomSolver::new(&ANSWERS, &GUESSES).name(), "random");
    assert_eq!(
        RandomSolver::with_start_word("CRANE", &ANSWERS, &GUESSES).name(),
        "random-CRANE"
    );
    assert_eq!(GiveUp.name(), "solver");
    assert!(RandomSolver::new(&ANSWERS, &GUESSES).hard_mode());
}

#[test]
fn possibilities_start_with_every_word_of_the_right_length() {
    let answers = ["CRANE", "SPEED", "TOOLONG", "LIGHT"];
    let guesses = ["EERIE", "ABC", "TRACE"];
    let solver = RandomSolver::new(&answers, &guesses);
    let p = Puzzle::new("SPEED");
    assert_eq!(solver.possibilities(&p), vec!["CRANE", "SPEED", "LIGHT", "EERIE", "TRACE"]);
}

#[test]
fn possibilities_follow_the_feedback() {
    let solver = RandomSolver::new(&ANSWERS, &GUESSES);
    let mut p = Puzzle::new("SPEED");
    assert!(matches!(p.guess("EERIE"), GuessResult::Incorrect(_)));
    assert_eq!(solver.possibilities(&p), vec!["SPEED", "STEEP", "THESE"]);
    assert!(matches!(p.guess("THESE"), GuessResult::Incorrect(_)));
    assert_eq!(solver.possibilities(&p), vec!["SPEED"]);
}

#[test]
fn select_plays_the_opening_only_first() {
    let solver = RandomSolver::with_start_word("ZZZZZ", &ANSWERS, &GUESSES);
    let p = Puzzle::new("SPEED");
    assert_eq!(solver.select(&p, true, 3), Some("ZZZZZ"));
    assert_eq!(solver.select(&p, false, 3), Some("STEEP"));
    assert_eq!(solver.select(&p, false, 11 + 4), Some("THESE"));
    let plain = RandomSolver::new(&ANSWERS, &GUESSES);
    assert_eq!(plain.select(&p, true, 1), Some("SPEED"));
}

#[test]
fn select_picks_among_the_possible() {
    let solver = RandomSolver::new(&ANSWERS, &GUESSES);
    let mut p = Puzzle::new("SPEED");
    assert!(matches!(p.guess("EERIE"), GuessResult::Incorrect(_)));
    assert_eq!(solver.select(&p, false, 0), Some("SPEED"));
    assert_eq!(solver.select(&p, false, 1), Some("STEEP"));
    assert_eq!(solver.select(&p, false, 2), Some("THESE"));
    assert_eq!(solver.select(&p, false, 3), Some("SPEED"));
}

#[test]
fn select_reports_an_empty_pool() {
    let solver = RandomSolver::new(&[], &[]);
    let p = Puzzle::new("SPEED");
    assert_eq!(solver.select(&p, false, 0), None);
    assert_eq!(solver.select(&p, true, 0), None);
    let opening = RandomSolver::with_start_word("CRANE", &[], &[]);
    assert_eq!(opening.select(&p, true, 0), Some("CRANE"));
    assert_eq!(opening.select(&p, false, 0), None);
}

#[test]
fn solve_finds_every_answer() {
    let solver = RandomSolver::new(&ANSWERS, &GUESSES);
    for _ in 0..20 {
        for answer in ANSWERS {
            let mut p = Puzzle::new(answer);
            assert_eq!(solver.solve(&mut p), SolveResult::Solved);
            assert_eq!(p.state(), GameState::Won);
            let history = p.guesses();
            assert!(history.len() <= ANSWERS.len() + GUESSES.len());
            assert_eq!(history[history.len() - 1].word(), answer);
            for (i, w) in history.iter().enumerate() {
                assert_eq!(w.is_exact(), i == history.len() - 1);
            }
        }
    }
}

#[test]
fn solve_starts_with_the_start_word() {
    let solver = RandomSolver::with_start_word("QUERY", &ANSWERS, &GUESSES);
    for answer in ANSWERS {
        let mut p = Puzzle::new(answer);
        assert_eq!(solver.solve(&mut p), SolveResult::Solved);
        assert_eq!(p.guesses()[0].word(), "QUERY");
        assert!(p.guesses().len() >= 2);
    }
    let lucky = RandomSolver::with_start_word("LIGHT", &ANSWERS, &GUESSES);
    let mut p = Puzzle::new("LIGHT");
    assert_eq!(lucky.solve(&mut p), SolveResult::Solved);
    assert_eq!(p.guesses().len(), 1);
}

#[test]
fn solve_never_repeats_a_guess() {
    let solver = RandomSolver::new(&ANSWERS, &GUESSES);
    for _ in 0..50 {
        let mut p = Puzzle::new("NIGHT");
        assert_eq!(solver.solve(&mut p), SolveResult::Solved);
        let words: Vec<String> = p.guesses().iter().map(|w| w.word()).collect();
        for (i, w) in words.iter().enumerate() {
            assert!(!words[..i].contains(w));
        }
    }
}

#[test]
fn solve_reports_when_no_candidate_is_left() {
    let solver = RandomSolver::new(&["CRANE", "LIGHT"], &["NIGHT"]);
    let mut p = Puzzle::new("SPEED");
    assert_eq!(solver.solve(&mut p), SolveResult::NoCandidates);
    assert_eq!(p.state(), GameState::InProgress);
    assert!(solver.possibilities(&p).is_empty());

    let empty = RandomSolver::new(&[], &[]);
    let mut p = Puzzle::new("SPEED");
    assert_eq!(empty.solve(&mut p), SolveResult::NoCandidates);
    assert!(p.guesses().is_empty());
}

#[test]
fn solve_stops_at_the_cap() {
    let solver = RandomSolver::with_start_word("CRANE", &ANSWERS, &GUESSES);
    let mut p = Puzzle::with_max_guesses("SPEED", 1);
    assert_eq!(solver.solve(&mut p), SolveResult::Lost);
    assert_eq!(p.state(), GameState::Lost);
    assert_eq!(p.guesses().len(), 1);

    let mut p = Puzzle::with_max_guesses("SPEED", 0);
    assert_eq!(solver.solve(&mut p), SolveResult::Lost);
    assert!(p.guesses().is_empty());
}

#[test]
fn solve_on_a_finished_game_changes_nothing() {
    let solver = RandomSolver::new(&ANSWERS, &GUESSES);
    let mut p = Puzzle::new("SPEED");
    assert_eq!(p.guess("SPEED"), GuessResult::Correct);
    assert_eq!(solver.solve(&mut p), SolveResult::Solved);
    assert_eq!(p.guesses().len(), 1);
}

#[test]
fn solve_with_an_invalid_start_word_goes_on() {
    let solver = RandomSolver::with_start_word("TOOLONG", &ANSWERS, &GUESSES);
    let mut p = Puzzle::new("LIGHT");
    assert_eq!(solver.solve(&mut p), SolveResult::Solved);
    assert!(p.guesses().iter().all(|w| w.word() != "TOOLONG"));
}

#[test]
fn solve_continues_a_game_under_way() {
    let solver = RandomSolver::with_start_word("CRANE", &ANSWERS, &GUESSES);
    let mut p = Puzzle::new("LIGHT");
    assert!(matches!(p.guess("CRANE"), GuessResult::Incorrect(_)));
    assert!(matches!(p.guess("NIGHT"), GuessResult::Incorrect(_)));
    assert_eq!(solver.solve(&mut p), SolveResult::Solved);
    assert_eq!(p.guesses()[0].word(), "CRANE");
    assert_eq!(p.guesses()[1].word(), "NIGHT");
    assert_eq!(p.guesses()[p.guesses().len() - 1].word(), "LIGHT");
}
