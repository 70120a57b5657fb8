use wordle::constraints::ConstraintSet;
use wordle::feedback::Word;
use wordle::filter::filter;

fn reply(answer: &str, guess: &str) -> Word {
    Word::compare(answer, guess).unwrap()
}

fn is_subsequence(s: &[&str], t: &[&str]) -> bool {
    let mut rest = t.iter();
    s.iter().all(|w| rest.any(|x| x == w))
}

const WORDS: [&str; 12] = [
    "CRANE", "TRACE", "SPEED", "STEEP", "THESE", "GEESE", "ELDER", "LIGHT", "NIGHT", "CREEP",
    "SPEND", "EERIE",
];

#[test]
fn no_constraints_keep_everything() {
    assert_eq!(filter(&WORDS, &ConstraintSet::new()), WORDS.to_vec());
    assert_eq!(filter(&[], &ConstraintSet::new()), Vec::<&str>::new());
}

#[test]
fn filter_keeps_order_and_repeats() {
    let cs = ConstraintSet::accumulate(&[reply("LIGHT", "NIGHT")]);
    let dictionary = ["NIGHT", "LIGHT", "SIGHT", "LIGHT", "TIGHT", "EIGHT"];
    // Nothing caps T, so a second T is in order.
    assert_eq!(filter(&dictionary, &cs), vec!["LIGHT", "SIGHT", "LIGHT", "TIGHT", "EIGHT"]);
    // The dictionary is left as it was.
    assert_eq!(dictionary, ["NIGHT", "LIGHT", "SIGHT", "LIGHT", "TIGHT", "EIGHT"]);
}

#[test]
fn filter_by_one_feedback() {
    let cs = ConstraintSet::accumulate(&[reply("SPEED", "EERIE")]);
    assert_eq!(filter(&WORDS, &cs), vec!["SPEED", "STEEP", "THESE"]);
}

#[test]
fn filter_by_several_feedbacks() {
    let cs = ConstraintSet::accumulate(&[reply("SPEED", "EERIE"), reply("SPEED", "THESE")]);
    assert_eq!(filter(&WORDS, &cs), vec!["SPEED"]);
}

#[test]
fn more_constraints_never_admit_more() {
    let answer = "SPEED";
    let guesses = ["CRANE", "EERIE", "LIGHT", "THESE", "STEEP"];
    let mut history: Vec<Word> = Vec::new();
    let mut pool: Vec<&str> = filter(&WORDS, &ConstraintSet::accumulate(&history));
    for g in guesses {
        history.push(reply(answer, g));
        let next = filter(&WORDS, &ConstraintSet::accumulate(&history));
        assert!(is_subsequence(&next, &pool));
        assert!(is_subsequence(&next, &WORDS));
        pool = next;
    }
    assert_eq!(pool, vec!["SPEED"]);
}

#[test]
fn later_credit_does_not_widen_the_pool() {
    let first = ConstraintSet::accumulate(&[reply("ABCDE", "EEXXX")]);
    let both = ConstraintSet::accumulate(&[reply("ABCDE", "EEXXX"), reply("ABCDE", "QQEQQ")]);
    let dictionary = ["ABCDE", "ZEZEZ", "ZZZEZ", "ZEZZZ", "EZZZZ", "ZZEZZ"];
    // One E, and not in front. The surplus E at the second place is
    // reported without a position, so it bans no place.
    assert_eq!(filter(&dictionary, &first), vec!["ABCDE", "ZZZEZ", "ZEZZZ", "ZZEZZ"]);
    assert_eq!(filter(&dictionary, &both), vec!["ABCDE", "ZZZEZ", "ZEZZZ"]);
}

#[test]
fn the_answer_is_always_kept() {
    for answer in WORDS {
        let mut history: Vec<Word> = Vec::new();
        for g in WORDS {
            history.push(reply(answer, g));
            let pool = filter(&WORDS, &ConstraintSet::accumulate(&history));
            assert!(pool.contains(&answer));
        }
    }
}

#[test]
fn a_wrong_guess_is_turned_away_by_its_own_feedback() {
    for answer in WORDS {
        for g in WORDS {
            let cs = ConstraintSet::accumulate(&[reply(answer, g)]);
            assert_eq!(cs.admits(g), g == answer);
        }
    }
}
