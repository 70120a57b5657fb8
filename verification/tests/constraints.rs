use wordle::constraints::{ConstraintSet, LetterBound};
use wordle::feedback::{Validity, Word};

fn reply(answer: &str, guess: &str) -> Word {
    Word::compare(answer, guess).unwrap()
}

fn same_constraints(a: &ConstraintSet, b: &ConstraintSet) -> bool {
    let letters = "ABCDEFGHIJKLMNOPQRSTUVWXYZ";
    a.len() == b.len()
        && a.atoms().iter().all(|x| b.contains(*x))
        && b.atoms().iter().all(|x| a.contains(*x))
        && letters.chars().all(|c| a.bound(c) == b.bound(c))
}

#[test]
fn empty_set_holds_nothing() {
    let cs = ConstraintSet::new();
    assert_eq!(cs.len(), 0);
    assert!(cs.atoms().is_empty());
    assert_eq!(cs.bound('A'), LetterBound { letter: 'A', at_least: 0, at_most: None });
    assert!(cs.admits("ANYTHING"));
    assert!(cs.admits(""));
}

#[test]
fn accumulate_of_nothing_is_empty() {
    let cs = ConstraintSet::accumulate(&[]);
    assert!(same_constraints(&cs, &ConstraintSet::new()));
}

#[test]
fn atoms_are_kept_once() {
    let cs = ConstraintSet::accumulate(&[reply("SPEED", "EERIE")]);
    assert_eq!(
        cs.atoms(),
        &vec![
            Validity::Somewhere('E', 0),
            Validity::Somewhere('E', 1),
            Validity::NotPresent('R'),
            Validity::NotPresent('I'),
            Validity::NotPresent('E'),
        ]
    );
    assert_eq!(cs.len(), 5);
    let cs = ConstraintSet::accumulate(&[reply("LIGHT", "ZZZZZ")]);
    assert_eq!(cs.atoms(), &vec![Validity::NotPresent('Z')]);
    assert_eq!(cs.len(), 1);
}

#[test]
fn atoms_of_different_guesses_coexist() {
    let cs = ConstraintSet::accumulate(&[
        reply("CRANE", "TRACE"),
        reply("CRANE", "BLOCK"),
        reply("CRANE", "CRIMP"),
    ]);
    assert!(cs.contains(Validity::Exact('A', 2)));
    assert!(cs.contains(Validity::Somewhere('C', 3)));
    assert!(cs.contains(Validity::NotPresent('B')));
    assert!(cs.contains(Validity::Exact('C', 0)));
    assert!(cs.contains(Validity::NotPresent('P')));
    assert!(!cs.contains(Validity::NotPresent('C')));
    assert!(!cs.contains(Validity::Exact('A', 3)));
}

#[test]
fn bounds_follow_each_feedback() {
    let cs = ConstraintSet::accumulate(&[reply("SPEED", "EERIE")]);
    assert_eq!(cs.bound('E'), LetterBound { letter: 'E', at_least: 2, at_most: Some(2) });
    assert_eq!(cs.bound('R'), LetterBound { letter: 'R', at_least: 0, at_most: Some(0) });
    assert_eq!(cs.bound('I'), LetterBound { letter: 'I', at_least: 0, at_most: Some(0) });
    assert_eq!(cs.bound('S'), LetterBound { letter: 'S', at_least: 0, at_most: None });

    let cs = ConstraintSet::accumulate(&[reply("SPEED", "ERASE")]);
    assert_eq!(cs.bound('E'), LetterBound { letter: 'E', at_least: 2, at_most: None });
    assert_eq!(cs.bound('S'), LetterBound { letter: 'S', at_least: 1, at_most: None });
    assert_eq!(cs.bound('A'), LetterBound { letter: 'A', at_least: 0, at_most: Some(0) });
}

#[test]
fn bounds_take_the_tightest_of_all_feedback() {
    // ABCDE has one E. The first guess caps E at one; the second credits
    // E at another place, which must not raise the cap.
    let cs = ConstraintSet::accumulate(&[reply("ABCDE", "EEXXX"), reply("ABCDE", "XXEXX")]);
    assert_eq!(cs.bound('E'), LetterBound { letter: 'E', at_least: 1, at_most: Some(1) });
    assert_eq!(cs.bound('X'), LetterBound { letter: 'X', at_least: 0, at_most: Some(0) });
    assert!(cs.admits("ABCDE"));
    assert!(!cs.admits("QEQEQ"));
    assert!(cs.admits("QEQQQ"));
}

#[test]
fn accumulation_is_idempotent() {
    let histories: Vec<Vec<Word>> = vec![
        vec![],
        vec![reply("SPEED", "EERIE")],
        vec![reply("CRANE", "TRACE"), reply("CRANE", "BLOCK")],
        vec![reply("LEVEL", "ELLLE"), reply("LEVEL", "LLAMA"), reply("LEVEL", "EAGLE")],
    ];
    for h in histories {
        let mut twice: Vec<Word> = h.clone();
        twice.extend(h.iter().cloned());
        let once = ConstraintSet::accumulate(&h);
        let again = ConstraintSet::accumulate(&twice);
        assert!(same_constraints(&once, &again));
        assert_eq!(once.atoms(), again.atoms());
    }
}

#[test]
fn accumulation_does_not_depend_on_order() {
    let a = reply("LEVEL", "ELLLE");
    let b = reply("LEVEL", "LLAMA");
    let c = reply("LEVEL", "EAGLE");
    let one = ConstraintSet::accumulate(&[a.clone(), b.clone(), c.clone()]);
    let two = ConstraintSet::accumulate(&[c.clone(), a.clone(), b.clone()]);
    let three = ConstraintSet::accumulate(&[b, c, a]);
    assert!(same_constraints(&one, &two));
    assert!(same_constraints(&one, &three));
}

#[test]
fn absorbing_step_by_step_agrees_with_accumulate() {
    let h = vec![reply("CRANE", "TRACE"), reply("CRANE", "BLOCK"), reply("CRANE", "NANNY")];
    let mut step = ConstraintSet::new();
    for w in &h {
        step.absorb(w);
    }
    assert!(same_constraints(&step, &ConstraintSet::accumulate(&h)));
    let before = step.len();
    step.absorb(&h[1]);
    assert_eq!(step.len(), before);
    assert!(same_constraints(&step, &ConstraintSet::accumulate(&h)));
}

#[test]
fn constraints_only_grow() {
    let h = vec![reply("CRANE", "TRACE"), reply("CRANE", "BLOCK"), reply("CRANE", "NANNY")];
    let mut cs = ConstraintSet::new();
    let mut held: Vec<Validity> = Vec::new();
    for w in &h {
        cs.absorb(w);
        for a in &held {
            assert!(cs.contains(*a));
        }
        held = cs.atoms().clone();
    }
}

#[test]
fn exact_atom_fixes_the_position() {
    let cs = ConstraintSet::accumulate(&[reply("CRANE", "CXXXX")]);
    assert!(cs.contains(Validity::Exact('C', 0)));
    assert!(cs.admits("CRANE"));
    assert!(cs.admits("CCCCC"));
    assert!(!cs.admits("ACORN"));
    assert!(!cs.admits("CRAXE"));
    assert!(!cs.admits(""));
}

#[test]
fn misplaced_atom_bans_the_position_and_asks_for_the_letter() {
    let cs = ConstraintSet::accumulate(&[reply("CRANE", "EXXXX")]);
    assert!(cs.contains(Validity::Somewhere('E', 0)));
    assert!(cs.admits("CRANE"));
    assert!(!cs.admits("EARLY"));
    assert!(!cs.admits("CRANK"));
    // A position beyond the word's end bans nothing.
    let cs = ConstraintSet::accumulate(&[reply("ABCDE", "XXXXA")]);
    assert!(cs.admits("AB"));
    assert!(!cs.admits("BB"));
}

#[test]
fn absent_atom_bans_the_letter() {
    let cs = ConstraintSet::accumulate(&[reply("CRANE", "TXXXX")]);
    assert!(cs.admits("CRANE"));
    assert!(!cs.admits("TRACE"));
    assert!(!cs.admits("CRAFT"));
}

#[test]
fn repeated_letters_are_bounded_by_count() {
    let cs = ConstraintSet::accumulate(&[reply("SPEED", "EERIE")]);
    assert!(cs.admits("SPEED"));
    assert!(cs.admits("STEEP"));
    assert!(cs.admits("THESE"));
    assert!(!cs.admits("CREEP"));
    assert!(!cs.admits("ELDER"));
    assert!(!cs.admits("GEESE"));
    assert!(!cs.admits("SPEND"));
    assert!(!cs.admits("EERIE"));
}
