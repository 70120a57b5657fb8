//! What a game's feedback has established about the answer.
//!
//! Every atom of every feedback is kept, each once. Beside the atoms stand
//! two bounds for each letter, drawn from each feedback as a whole: the
//! answer holds a letter at least as often as any one feedback credits it,
//! and at most as often as a feedback credits it that also reports it as not
//! present.

use vstd::prelude::*;
use vstd::string::*;
use crate::count::letter_count;
use crate::feedback::{credit_count, feedbacks, lemma_unseen_letter, Validity, Word};
use crate::text::{chars_of, count_letter};

verus! {

/// The larger of two counts.
pub open spec fn larger(a: nat, b: nat) -> nat {
    if a >= b {
        a
    } else {
        b
    }
}

/// An upper bound lowered to `k` where it was higher or missing.
pub open spec fn lowered(bound: Option<nat>, k: nat) -> Option<nat> {
    match bound {
        Some(m) => if m <= k {
            Some(m)
        } else {
            Some(k)
        },
        None => Some(k),
    }
}

/// Whether a word is in line with one atom, taken by itself.
pub open spec fn atom_holds(a: Validity, w: Seq<char>) -> bool {
    match a {
        Validity::Exact(c, i) => i < w.len() && w[i as int] == c,
        Validity::Somewhere(c, i) => (i < w.len() ==> w[i as int] != c) && letter_count(w, c) > 0,
        Validity::NotPresent(_) => true,
    }
}

/// The constraints that feedback has put on the answer.
#[verifier::ext_equal]
pub struct Constraints {
    /// The atoms seen so far.
    pub atoms: Set<Validity>,
    /// For every letter, how often the answer holds it at least.
    pub at_least: Map<char, nat>,
    /// For every letter, how often the answer holds it at most, where
    /// feedback has said so.
    pub at_most: Map<char, Option<nat>>,
}

impl Constraints {
    /// The constraints before any feedback.
    pub open spec fn empty() -> Constraints {
        Constraints {
            atoms: Set::empty(),
            at_least: Map::total(|c: char| 0nat),
            at_most: Map::total(|c: char| None::<nat>),
        }
    }

    /// The constraints after one more feedback.
    pub open spec fn absorb(self, f: Seq<Validity>) -> Constraints {
        Constraints {
            atoms: self.atoms.union(f.to_set()),
            at_least: Map::total(|c: char| larger(self.at_least[c], credit_count(f, c))),
            at_most: Map::total(
                |c: char|
                    if f.contains(Validity::NotPresent(c)) {
                        lowered(self.at_most[c], credit_count(f, c))
                    } else {
                        self.at_most[c]
                    },
            ),
        }
    }

    /// Whether a word is consistent with these constraints: it is in line
    /// with every exact and misplaced atom, and holds every letter as often
    /// as the bounds allow.
    pub open spec fn admits(self, w: Seq<char>) -> bool {
        &&& forall|a: Validity| #[trigger] self.atoms.contains(a) ==> atom_holds(a, w)
        &&& forall|c: char| #[trigger] self.at_least[c] <= letter_count(w, c)
        &&& forall|c: char| #[trigger]
            self.at_most[c] matches Some(m) ==> letter_count(w, c) <= m
    }

    /// Whether `other` holds every atom of `self` and bounds every letter at
    /// least as tightly.
    pub open spec fn within(self, other: Constraints) -> bool {
        &&& self.atoms.subset_of(other.atoms)
        &&& forall|c: char| #[trigger] self.at_least[c] <= other.at_least[c]
        &&& forall|c: char| #[trigger]
            self.at_most[c] matches Some(m) ==> (other.at_most[c] matches Some(k) && k <= m)
    }

    /// Whether every letter has both bounds defined.
    pub open spec fn total(self) -> bool {
        &&& self.at_least.dom() == Set::<char>::full()
        &&& self.at_most.dom() == Set::<char>::full()
    }
}

/// The constraints gathered from a history of feedback, oldest first.
pub open spec fn gathered(history: Seq<Seq<Validity>>) -> Constraints
    decreases history.len(),
{
    if history.len() == 0 {
        Constraints::empty()
    } else {
        gathered(history.drop_last()).absorb(history.last())
    }
}

/// Gathered constraints bound every letter.
pub proof fn lemma_gathered_total(history: Seq<Seq<Validity>>)
    ensures
        gathered(history).total(),
    decreases history.len(),
{
    if history.len() > 0 {
        lemma_gathered_total(history.drop_last());
    }
}

/// More feedback only tightens: what was gathered before lies within what
/// is gathered after.
pub proof fn lemma_absorb_tightens(cs: Constraints, f: Seq<Validity>)
    ensures
        cs.within(cs.absorb(f)),
{
}

/// A word that tighter constraints admit is admitted by looser ones.
pub proof fn lemma_within_admits(loose: Constraints, tight: Constraints, w: Seq<char>)
    requires
        loose.within(tight),
        tight.admits(w),
    ensures
        loose.admits(w),
{
    assert forall|c: char| #[trigger] loose.at_least[c] <= letter_count(w, c) by {
        assert(tight.at_least[c] <= letter_count(w, c));
    }
    assert forall|c: char| (#[trigger] loose.at_most[c]) is Some implies letter_count(w, c)
        <= loose.at_most[c]->0 by {
        assert(tight.at_most[c] matches Some(k) ==> letter_count(w, c) <= k);
    }
}

/// The atoms gathered from a history are the atoms of its feedbacks.
pub proof fn lemma_gathered_atoms(history: Seq<Seq<Validity>>, a: Validity)
    ensures
        gathered(history).atoms.contains(a) <==> exists|k: int|
            0 <= k < history.len() && #[trigger] history[k].contains(a),
    decreases history.len(),
{
    if history.len() > 0 {
        let rest: Seq<Seq<Validity>> = history.drop_last();
        lemma_gathered_atoms(rest, a);
        if gathered(history).atoms.contains(a) {
            if history.last().contains(a) {
                assert(history[history.len() - 1].contains(a));
            } else {
                let k: int = choose|k: int| 0 <= k < rest.len() && #[trigger] rest[k].contains(a);
                assert(history[k].contains(a));
            }
        }
        if exists|k: int| 0 <= k < history.len() && #[trigger] history[k].contains(a) {
            let k: int = choose|k: int| 0 <= k < history.len() && #[trigger] history[k].contains(a);
            if k < rest.len() {
                assert(rest[k].contains(a));
            }
        }
    }
}

/// A letter's lower bound is the largest number of credits that any one
/// feedback of the history gives it.
pub proof fn lemma_gathered_at_least(history: Seq<Seq<Validity>>, c: char)
    ensures
        forall|k: int|
            0 <= k < history.len() ==> credit_count(#[trigger] history[k], c) <= gathered(
                history,
            ).at_least[c],
        gathered(history).at_least[c] == 0 || exists|k: int|
            0 <= k < history.len() && credit_count(#[trigger] history[k], c) == gathered(
                history,
            ).at_least[c],
    decreases history.len(),
{
    if history.len() > 0 {
        let rest: Seq<Seq<Validity>> = history.drop_last();
        lemma_gathered_at_least(rest, c);
        let bound: nat = gathered(history).at_least[c];
        assert forall|k: int| 0 <= k < history.len() implies credit_count(
            #[trigger] history[k],
            c,
        ) <= bound by {
            if k < rest.len() {
                assert(credit_count(rest[k], c) <= gathered(rest).at_least[c]);
            }
        }
        if bound != 0 {
            if bound == credit_count(history.last(), c) {
                assert(credit_count(history[history.len() - 1], c) == bound);
            } else {
                let k: int = choose|k: int|
                    0 <= k < rest.len() && credit_count(#[trigger] rest[k], c) == gathered(
                        rest,
                    ).at_least[c];
                assert(credit_count(history[k], c) == bound);
            }
        }
    }
}

/// Whether a feedback caps the letter `c` at `m`: it reports the letter as
/// not present and credits it `m` times.
pub open spec fn caps(f: Seq<Validity>, c: char, m: nat) -> bool {
    f.contains(Validity::NotPresent(c)) && credit_count(f, c) == m
}

/// A letter has an upper bound once a feedback reports it as not present;
/// the bound is the smallest number of credits among such feedbacks.
pub proof fn lemma_gathered_at_most(history: Seq<Seq<Validity>>, c: char)
    ensures
        match gathered(history).at_most[c] {
            None => forall|k: int|
                0 <= k < history.len() ==> !(#[trigger] history[k]).contains(
                    Validity::NotPresent(c),
                ),
            Some(m) => {
                &&& forall|k: int|
                    0 <= k < history.len() && (#[trigger] history[k]).contains(
                        Validity::NotPresent(c),
                    ) ==> m <= credit_count(history[k], c)
                &&& exists|k: int| 0 <= k < history.len() && caps(#[trigger] history[k], c, m)
            },
        },
    decreases history.len(),
{
    if history.len() > 0 {
        let rest: Seq<Seq<Validity>> = history.drop_last();
        let last: Seq<Validity> = history.last();
        lemma_gathered_at_most(rest, c);
        match gathered(history).at_most[c] {
            None => {
                assert forall|k: int| 0 <= k < history.len() implies !(#[trigger] history[k]).contains(
                    Validity::NotPresent(c)) by {
                    if k < rest.len() {
                        assert(!rest[k].contains(Validity::NotPresent(c)));
                    }
                }
            },
            Some(m) => {
                assert forall|k: int|
                    0 <= k < history.len() && (#[trigger] history[k]).contains(
                        Validity::NotPresent(c),
                    ) implies m <= credit_count(history[k], c) by {
                    if k < rest.len() {
                        assert(rest[k].contains(Validity::NotPresent(c)));
                    }
                }
                if caps(last, c, m) {
                    assert(caps(history[history.len() - 1], c, m));
                } else {
                    assert(gathered(rest).at_most[c] == Some(m));
                    let k: int = choose|k: int| 0 <= k < rest.len() && caps(#[trigger] rest[k], c, m);
                    assert(caps(history[k], c, m));
                }
            },
        }
    }
}

/// Whether every feedback of `h1` also occurs in `h2`.
pub open spec fn covered_by(h1: Seq<Seq<Validity>>, h2: Seq<Seq<Validity>>) -> bool {
    forall|k: int| 0 <= k < h1.len() ==> h2.contains(#[trigger] h1[k])
}

/// A history that another one covers gathers constraints that lie within
/// the other's.
pub proof fn lemma_covered_within(h1: Seq<Seq<Validity>>, h2: Seq<Seq<Validity>>)
    requires
        covered_by(h1, h2),
    ensures
        gathered(h1).within(gathered(h2)),
{
    let g1: Constraints = gathered(h1);
    let g2: Constraints = gathered(h2);
    assert forall|a: Validity| g1.atoms.contains(a) implies g2.atoms.contains(a) by {
        lemma_gathered_atoms(h1, a);
        lemma_gathered_atoms(h2, a);
        let k: int = choose|k: int| 0 <= k < h1.len() && #[trigger] h1[k].contains(a);
        let j: int = choose|j: int| 0 <= j < h2.len() && h2[j] == h1[k];
        assert(h2[j].contains(a));
    }
    assert forall|c: char| #[trigger] g1.at_least[c] <= g2.at_least[c] by {
        lemma_gathered_at_least(h1, c);
        lemma_gathered_at_least(h2, c);
        if g1.at_least[c] != 0 {
            let k: int = choose|k: int|
                0 <= k < h1.len() && credit_count(#[trigger] h1[k], c) == g1.at_least[c];
            let j: int = choose|j: int| 0 <= j < h2.len() && h2[j] == h1[k];
            assert(credit_count(h2[j], c) <= g2.at_least[c]);
        }
    }
    assert forall|c: char| (#[trigger] g1.at_most[c]) is Some implies (g2.at_most[c] is Some
        && g2.at_most[c]->0 <= g1.at_most[c]->0) by {
        lemma_gathered_at_most(h1, c);
        lemma_gathered_at_most(h2, c);
        let m: nat = g1.at_most[c]->0;
        let k: int = choose|k: int| 0 <= k < h1.len() && caps(#[trigger] h1[k], c, m);
        let j: int = choose|j: int| 0 <= j < h2.len() && h2[j] == h1[k];
        assert(h2[j].contains(Validity::NotPresent(c)));
    }
}

/// The gathered constraints depend only on which feedbacks a history holds,
/// not on their order or on how often each occurs.
pub proof fn lemma_gathered_by_content(h1: Seq<Seq<Validity>>, h2: Seq<Seq<Validity>>)
    requires
        covered_by(h1, h2),
        covered_by(h2, h1),
    ensures
        gathered(h1) == gathered(h2),
{
    let g1: Constraints = gathered(h1);
    let g2: Constraints = gathered(h2);
    lemma_covered_within(h1, h2);
    lemma_covered_within(h2, h1);
    lemma_gathered_total(h1);
    lemma_gathered_total(h2);
    assert(g1.atoms =~= g2.atoms);
    assert forall|c: char| g1.at_least[c] == g2.at_least[c] by {
        assert(g1.at_least[c] <= g2.at_least[c]);
        assert(g2.at_least[c] <= g1.at_least[c]);
    }
    assert(g1.at_least =~= g2.at_least);
    assert forall|c: char| g1.at_most[c] == g2.at_most[c] by {
        assert(g1.at_most[c] matches Some(m) ==> (g2.at_most[c] matches Some(k) && k <= m));
        assert(g2.at_most[c] matches Some(m) ==> (g1.at_most[c] matches Some(k) && k <= m));
    }
    assert(g1.at_most =~= g2.at_most);
}

/// Feeding a history twice gathers what feeding it once does.
pub proof fn lemma_gathered_idempotent(history: Seq<Seq<Validity>>)
    ensures
        gathered(history + history) == gathered(history),
{
    let twice: Seq<Seq<Validity>> = history + history;
    assert forall|k: int| 0 <= k < twice.len() implies history.contains(#[trigger] twice[k]) by {
        if k < history.len() {
            assert(history[k] == twice[k]);
        } else {
            assert(history[k - history.len()] == twice[k]);
        }
    }
    assert forall|k: int| 0 <= k < history.len() implies twice.contains(#[trigger] history[k]) by {
        assert(twice[k] == history[k]);
    }
    lemma_gathered_by_content(twice, history);
}

/// The order in which feedback arrives does not matter.
pub proof fn lemma_gathered_commutes(h1: Seq<Seq<Validity>>, h2: Seq<Seq<Validity>>)
    ensures
        gathered(h1 + h2) == gathered(h2 + h1),
{
    let x: Seq<Seq<Validity>> = h1 + h2;
    let y: Seq<Seq<Validity>> = h2 + h1;
    assert forall|k: int| 0 <= k < x.len() implies y.contains(#[trigger] x[k]) by {
        if k < h1.len() {
            assert(y[h2.len() + k] == x[k]);
        } else {
            assert(y[k - h1.len()] == x[k]);
        }
    }
    assert forall|k: int| 0 <= k < y.len() implies x.contains(#[trigger] y[k]) by {
        if k < h2.len() {
            assert(x[h1.len() + k] == y[k]);
        } else {
            assert(x[k - h2.len()] == y[k]);
        }
    }
    lemma_gathered_by_content(x, y);
}

/// The bounds that a set of constraints keeps for one letter.
#[derive(Copy, Clone, PartialEq, Eq, Debug)]
pub struct LetterBound {
    /// The letter.
    pub letter: char,
    /// How often the answer holds the letter at least.
    pub at_least: usize,
    /// How often the answer holds the letter at most, if known.
    pub at_most: Option<usize>,
}

impl LetterBound {
    /// The upper bound as a number of occurrences.
    pub open spec fn ceiling(self) -> Option<nat> {
        match self.at_most {
            Some(m) => Some(m as nat),
            None => None,
        }
    }

    /// Whether a word holds the letter as often as these bounds allow.
    pub open spec fn allows(self, w: Seq<char>) -> bool {
        &&& self.at_least <= letter_count(w, self.letter)
        &&& self.at_most matches Some(m) ==> letter_count(w, self.letter) <= m
    }
}

/// The bounds kept for the letter `c`: those of the last entry for it, or
/// none at all.
spec fn bound_of(bounds: Seq<LetterBound>, c: char) -> LetterBound
    decreases bounds.len(),
{
    if bounds.len() == 0 {
        LetterBound { letter: c, at_least: 0, at_most: None }
    } else if bounds.last().letter == c {
        bounds.last()
    } else {
        bound_of(bounds.drop_last(), c)
    }
}

/// Whether no two entries speak of the same letter.
spec fn distinct_letters(bounds: Seq<LetterBound>) -> bool {
    forall|i: int, j: int|
        0 <= i < j < bounds.len() ==> (#[trigger] bounds[i]).letter != (#[trigger] bounds[j]).letter
}

proof fn lemma_bound_of_letter(bounds: Seq<LetterBound>, c: char)
    ensures
        bound_of(bounds, c).letter == c,
    decreases bounds.len(),
{
    if bounds.len() > 0 && bounds.last().letter != c {
        lemma_bound_of_letter(bounds.drop_last(), c);
    }
}

proof fn lemma_bound_missing(bounds: Seq<LetterBound>, c: char)
    requires
        forall|k: int| 0 <= k < bounds.len() ==> (#[trigger] bounds[k]).letter != c,
    ensures
        bound_of(bounds, c) == (LetterBound { letter: c, at_least: 0, at_most: None }),
    decreases bounds.len(),
{
    if bounds.len() > 0 {
        assert(bounds[bounds.len() - 1].letter != c);
        assert forall|k: int| 0 <= k < bounds.drop_last().len() implies (
        #[trigger] bounds.drop_last()[k]).letter != c by {
            assert(bounds[k].letter != c);
        }
        lemma_bound_missing(bounds.drop_last(), c);
    }
}

proof fn lemma_bound_found(bounds: Seq<LetterBound>, k: int)
    requires
        distinct_letters(bounds),
        0 <= k < bounds.len(),
    ensures
        bound_of(bounds, bounds[k].letter) == bounds[k],
    decreases bounds.len(),
{
    if k < bounds.len() - 1 {
        assert(bounds[k].letter != bounds[bounds.len() - 1].letter);
        assert(bounds.drop_last()[k] == bounds[k]);
        assert forall|i: int, j: int| 0 <= i < j < bounds.drop_last().len() implies (
        #[trigger] bounds.drop_last()[i]).letter != (#[trigger] bounds.drop_last()[j]).letter by {
            assert(bounds[i].letter != bounds[j].letter);
        }
        lemma_bound_found(bounds.drop_last(), k);
    }
}

/// The bound kept for a letter is that of some entry, or none.
proof fn lemma_bound_cases(bounds: Seq<LetterBound>, c: char)
    ensures
        bound_of(bounds, c) == (LetterBound { letter: c, at_least: 0, at_most: None }) || exists|
            k: int,
        | 0 <= k < bounds.len() && #[trigger] bounds[k] == bound_of(bounds, c),
    decreases bounds.len(),
{
    if bounds.len() > 0 {
        if bounds.last().letter == c {
            assert(bounds[bounds.len() - 1] == bound_of(bounds, c));
        } else {
            lemma_bound_cases(bounds.drop_last(), c);
            if bound_of(bounds, c) != (LetterBound { letter: c, at_least: 0, at_most: None }) {
                let k: int = choose|k: int|
                    0 <= k < bounds.drop_last().len() && #[trigger] bounds.drop_last()[k]
                        == bound_of(bounds.drop_last(), c);
                assert(bounds[k] == bound_of(bounds, c));
            }
        }
    }
}

/// The lower bound kept for the letter `c`.
spec fn floor_of(bounds: Seq<LetterBound>, c: char) -> nat {
    bound_of(bounds, c).at_least as nat
}

/// The upper bound kept for the letter `c`.
spec fn ceiling_of(bounds: Seq<LetterBound>, c: char) -> Option<nat> {
    bound_of(bounds, c).ceiling()
}

/// Replacing the entry for one letter leaves the bounds of every other
/// letter as they were.
proof fn lemma_bound_replaced(bounds: Seq<LetterBound>, k: int, entry: LetterBound, d: char)
    requires
        0 <= k < bounds.len(),
        entry.letter == bounds[k].letter,
        d != entry.letter,
    ensures
        bound_of(bounds.update(k, entry), d) == bound_of(bounds, d),
    decreases bounds.len(),
{
    let after: Seq<LetterBound> = bounds.update(k, entry);
    if k == bounds.len() - 1 {
        assert(after.drop_last() =~= bounds.drop_last());
    } else {
        assert(after.last() == bounds.last());
        assert(after.drop_last() =~= bounds.drop_last().update(k, entry));
        if bounds.last().letter != d {
            lemma_bound_replaced(bounds.drop_last(), k, entry, d);
        }
    }
}

/// Replacing an entry by one for the same letter keeps the letters
/// distinct.
proof fn lemma_distinct_replaced(bounds: Seq<LetterBound>, k: int, entry: LetterBound)
    requires
        distinct_letters(bounds),
        0 <= k < bounds.len(),
        entry.letter == bounds[k].letter,
    ensures
        distinct_letters(bounds.update(k, entry)),
{
    let after: Seq<LetterBound> = bounds.update(k, entry);
    assert forall|i: int, j: int| 0 <= i < j < after.len() implies (#[trigger] after[i]).letter != (
    #[trigger] after[j]).letter by {
        assert(bounds[i].letter != bounds[j].letter);
    }
}

/// An entry for a letter that has none yet keeps the letters distinct.
proof fn lemma_distinct_pushed(bounds: Seq<LetterBound>, entry: LetterBound)
    requires
        distinct_letters(bounds),
        forall|k: int| 0 <= k < bounds.len() ==> (#[trigger] bounds[k]).letter != entry.letter,
    ensures
        distinct_letters(bounds.push(entry)),
{
    let after: Seq<LetterBound> = bounds.push(entry);
    assert forall|i: int, j: int| 0 <= i < j < after.len() implies (#[trigger] after[i]).letter != (
    #[trigger] after[j]).letter by {
        if j < bounds.len() {
            assert(bounds[i].letter != bounds[j].letter);
        } else {
            assert(bounds[i].letter != entry.letter);
        }
    }
}

/// The atoms of a list that grew by one are the atoms it had and the new
/// one.
proof fn lemma_pushed_atoms(atoms: Seq<Validity>, a: Validity)
    ensures
        atoms.push(a).to_set() == atoms.to_set().insert(a),
{
    let after: Seq<Validity> = atoms.push(a);
    assert forall|x: Validity| after.to_set().contains(x) <==> atoms.to_set().insert(a).contains(
        x,
    ) by {
        if after.contains(x) {
            let j: int = choose|j: int| 0 <= j < after.len() && after[j] == x;
            if j < atoms.len() {
                assert(atoms[j] == x);
            }
        }
        if atoms.contains(x) {
            let j: int = choose|j: int| 0 <= j < atoms.len() && atoms[j] == x;
            assert(after[j] == x);
        }
        if x == a {
            assert(after[atoms.len() as int] == a);
        }
    }
    assert(after.to_set() =~= atoms.to_set().insert(a));
}

/// Whether one of the first `i` atoms of `f` speaks of the letter `d`.
spec fn seen(f: Seq<Validity>, d: char, i: int) -> bool {
    exists|j: int| 0 <= j < i && (#[trigger] f[j]).letter() == d
}

/// The bounds of the letter `d` while a feedback is being absorbed: those
/// letters that the first `i` atoms speak of have their bounds tightened,
/// the others not yet.
spec fn staged(
    now: Seq<LetterBound>,
    before: Seq<LetterBound>,
    f: Seq<Validity>,
    d: char,
    i: int,
) -> bool {
    if seen(f, d, i) {
        &&& floor_of(now, d) == larger(floor_of(before, d), credit_count(f, d))
        &&& ceiling_of(now, d) == if f.contains(Validity::NotPresent(d)) {
            lowered(ceiling_of(before, d), credit_count(f, d))
        } else {
            ceiling_of(before, d)
        }
    } else {
        &&& floor_of(now, d) == floor_of(before, d)
        &&& ceiling_of(now, d) == ceiling_of(before, d)
    }
}

/// The index of the entry for the letter `c`, if there is one.
fn find(bounds: &Vec<LetterBound>, c: char) -> (r: Option<usize>)
    ensures
        match r {
            Some(k) => k < bounds@.len() && bounds@[k as int].letter == c,
            None => forall|k: int| 0 <= k < bounds@.len() ==> (#[trigger] bounds@[k]).letter != c,
        },
{
    let n: usize = bounds.len();
    let mut i: usize = 0;
    while i < n
        invariant
            i <= n,
            n == bounds@.len(),
            forall|k: int| 0 <= k < i ==> (#[trigger] bounds@[k]).letter != c,
        decreases n - i,
    {
        if bounds[i].letter == c {
            return Some(i);
        }
        i += 1;
    }
    None
}

/// Whether the list holds the atom.
fn holds_atom(atoms: &Vec<Validity>, atom: Validity) -> (b: bool)
    ensures
        b == atoms@.contains(atom),
{
    let n: usize = atoms.len();
    let mut i: usize = 0;
    while i < n
        invariant
            i <= n,
            n == atoms@.len(),
            forall|j: int| 0 <= j < i ==> atoms@[j] != atom,
        decreases n - i,
    {
        if atoms[i] == atom {
            return true;
        }
        i += 1;
    }
    false
}

/// Raises the lower bound of the letter `c` to `k` and, if `capped`, lowers
/// its upper bound to `k`.
fn tighten(bounds: &mut Vec<LetterBound>, c: char, k: usize, capped: bool)
    requires
        distinct_letters(old(bounds)@),
    ensures
        distinct_letters(final(bounds)@),
        forall|d: char|
            d != c ==> #[trigger] bound_of(final(bounds)@, d) == bound_of(old(bounds)@, d),
        floor_of(final(bounds)@, c) == larger(floor_of(old(bounds)@, c), k as nat),
        ceiling_of(final(bounds)@, c) == if capped {
            lowered(ceiling_of(old(bounds)@, c), k as nat)
        } else {
            ceiling_of(old(bounds)@, c)
        },
{
    let ghost before: Seq<LetterBound> = bounds@;
    match find(bounds, c) {
        Some(idx) => {
            let held: LetterBound = bounds[idx];
            let at_least: usize = if held.at_least >= k {
                held.at_least
            } else {
                k
            };
            let at_most: Option<usize> = if capped {
                match held.at_most {
                    Some(m) => if m <= k {
                        Some(m)
                    } else {
                        Some(k)
                    },
                    None => Some(k),
                }
            } else {
                held.at_most
            };
            let entry = LetterBound { letter: c, at_least, at_most };
            bounds.set(idx, entry);
            proof {
                lemma_distinct_replaced(before, idx as int, entry);
                lemma_bound_found(before, idx as int);
                lemma_bound_found(bounds@, idx as int);
                assert forall|d: char| d != c implies #[trigger] bound_of(bounds@, d) == bound_of(
                    before,
                    d,
                ) by {
                    lemma_bound_replaced(before, idx as int, entry, d);
                }
            }
        },
        None => {
            let entry = LetterBound {
                letter: c,
                at_least: k,
                at_most: if capped {
                    Some(k)
                } else {
                    None
                },
            };
            bounds.push(entry);
            proof {
                lemma_distinct_pushed(before, entry);
                lemma_bound_missing(before, c);
                assert(bounds@.drop_last() =~= before);
            }
        },
    }
}

/// A set of constraints: the atoms of all feedback absorbed so far, each
/// kept once, and the bounds that the feedback puts on each letter.
pub struct ConstraintSet {
    atoms: Vec<Validity>,
    bounds: Vec<LetterBound>,
}

impl View for ConstraintSet {
    type V = Constraints;

    closed spec fn view(&self) -> Constraints {
        Constraints {
            atoms: self.atoms@.to_set(),
            at_least: Map::total(|c: char| floor_of(self.bounds@, c)),
            at_most: Map::total(|c: char| ceiling_of(self.bounds@, c)),
        }
    }
}

impl ConstraintSet {
    #[verifier::type_invariant]
    spec fn well_formed(self) -> bool {
        &&& self.atoms@.no_duplicates()
        &&& distinct_letters(self.bounds@)
    }

    /// The constraints before any feedback.
    pub fn new() -> (cs: Self)
        ensures
            cs@ == Constraints::empty(),
    {
        let cs = ConstraintSet { atoms: Vec::new(), bounds: Vec::new() };
        proof {
            assert(cs@.atoms =~= Constraints::empty().atoms);
            assert(cs@.at_least =~= Constraints::empty().at_least);
            assert(cs@.at_most =~= Constraints::empty().at_most);
        }
        cs
    }

    /// The atoms held, each once, in the order in which they first came.
    pub fn atoms(&self) -> (v: &Vec<Validity>)
        ensures
            v@.to_set() == self@.atoms,
            v@.no_duplicates(),
    {
        proof {
            use_type_invariant(self);
        }
        &self.atoms
    }

    /// The number of distinct atoms held.
    pub fn len(&self) -> (n: usize)
        ensures
            self@.atoms.finite(),
            n == self@.atoms.len(),
    {
        proof {
            use_type_invariant(self);
            self.atoms@.unique_seq_to_set();
            vstd::seq_lib::seq_to_set_is_finite(self.atoms@);
        }
        self.atoms.len()
    }

    /// Whether the atom is held.
    pub fn contains(&self, atom: Validity) -> (b: bool)
        ensures
            b == self@.atoms.contains(atom),
    {
        holds_atom(&self.atoms, atom)
    }

    /// The bounds kept for the letter `c`.
    pub fn bound(&self, c: char) -> (b: LetterBound)
        ensures
            b.letter == c,
            b.at_least == self@.at_least[c],
            b.ceiling() == self@.at_most[c],
    {
        proof {
            use_type_invariant(self);
        }
        match find(&self.bounds, c) {
            Some(k) => {
                proof {
                    lemma_bound_found(self.bounds@, k as int);
                }
                self.bounds[k]
            },
            None => {
                proof {
                    lemma_bound_missing(self.bounds@, c);
                }
                LetterBound { letter: c, at_least: 0, at_most: None }
            },
        }
    }

    /// Takes in one more feedback.
    pub fn absorb(&mut self, word: &Word)
        ensures
            final(self)@ == old(self)@.absorb(word@),
    {
        proof {
            use_type_invariant(&*self);
        }
        let mut held: Vec<Validity> = Vec::new();
        let mut bounds: Vec<LetterBound> = Vec::new();
        core::mem::swap(&mut self.atoms, &mut held);
        core::mem::swap(&mut self.bounds, &mut bounds);
        let atoms: &Vec<Validity> = word.atoms();
        let n: usize = atoms.len();
        let mut i: usize = 0;
        assert(atoms@.take(0) =~= Seq::<Validity>::empty());
        assert(held@.to_set() =~= old(self).atoms@.to_set().union(atoms@.take(0).to_set()));
        while i < n
            invariant
                i <= n,
                n == atoms@.len(),
                held@.no_duplicates(),
                held@.to_set() == old(self).atoms@.to_set().union(atoms@.take(i as int).to_set()),
            decreases n - i,
        {
            let a: Validity = atoms[i];
            proof {
                assert(atoms@.take(i + 1) =~= atoms@.take(i as int).push(a));
                lemma_pushed_atoms(atoms@.take(i as int), a);
                lemma_pushed_atoms(held@, a);
            }
            if !holds_atom(&held, a) {
                held.push(a);
            }
            i += 1;
            assert(held@.to_set() =~= old(self).atoms@.to_set().union(
                atoms@.take(i as int).to_set(),
            ));
        }
        assert(atoms@.take(n as int) =~= atoms@);
        let mut i: usize = 0;
        while i < n
            invariant
                i <= n,
                n == atoms@.len(),
                atoms@ == word@,
                distinct_letters(bounds@),
                forall|d: char| #[trigger] staged(bounds@, old(self).bounds@, word@, d, i as int),
            decreases n - i,
        {
            let c: char = atoms[i].guessed();
            let k: usize = word.credits(c);
            let capped: bool = word.reports_absent(c);
            let ghost before: Seq<LetterBound> = bounds@;
            tighten(&mut bounds, c, k, capped);
            proof {
                assert forall|d: char| #[trigger]
                    staged(bounds@, old(self).bounds@, word@, d, i + 1) by {
                    assert(staged(before, old(self).bounds@, word@, d, i as int));
                    if d == c {
                        assert(word@[i as int].letter() == d);
                    } else {
                        assert(bound_of(bounds@, d) == bound_of(before, d));
                        if seen(word@, d, i + 1) {
                            let j: int = choose|j: int|
                                0 <= j < i + 1 && (#[trigger] word@[j]).letter() == d;
                            assert(j < i);
                        }
                    }
                }
            }
            i += 1;
        }
        self.atoms = held;
        self.bounds = bounds;
        proof {
            let goal: Constraints = old(self)@.absorb(word@);
            assert forall|d: char| floor_of(self.bounds@, d) == goal.at_least[d] && ceiling_of(
                self.bounds@,
                d,
            ) == goal.at_most[d] by {
                assert(staged(self.bounds@, old(self).bounds@, word@, d, n as int));
                if !seen(word@, d, n as int) {
                    lemma_unseen_letter(word@, d);
                }
            }
            assert(self@.at_least =~= goal.at_least);
            assert(self@.at_most =~= goal.at_most);
            assert(self@.atoms =~= goal.atoms);
        }
    }

    /// The constraints that a history of feedback establishes.
    pub fn accumulate(history: &[Word]) -> (cs: Self)
        ensures
            cs@ == gathered(feedbacks(history@)),
    {
        let mut cs = ConstraintSet::new();
        let n: usize = history.len();
        let mut k: usize = 0;
        assert(feedbacks(history@).take(0) =~= Seq::<Seq<Validity>>::empty());
        while k < n
            invariant
                k <= n,
                n == history@.len(),
                cs@ == gathered(feedbacks(history@).take(k as int)),
            decreases n - k,
        {
            cs.absorb(&history[k]);
            proof {
                let next: Seq<Seq<Validity>> = feedbacks(history@).take(k + 1);
                assert(next.drop_last() =~= feedbacks(history@).take(k as int));
                assert(next.last() == history@[k as int]@);
            }
            k += 1;
        }
        assert(feedbacks(history@).take(n as int) =~= feedbacks(history@));
        cs
    }

    /// Whether a word is consistent with these constraints.
    pub fn admits(&self, word: &str) -> (b: bool)
        ensures
            b == self@.admits(word@),
    {
        proof {
            use_type_invariant(self);
        }
        let w: Vec<char> = chars_of(word);
        let len: usize = w.len();
        let n: usize = self.atoms.len();
        let mut k: usize = 0;
        while k < n
            invariant
                k <= n,
                n == self.atoms@.len(),
                len == w@.len(),
                w@ == word@,
                forall|j: int| 0 <= j < k ==> atom_holds(#[trigger] self.atoms@[j], w@),
            decreases n - k,
        {
            let holds: bool = match self.atoms[k] {
                Validity::Exact(c, i) => i < len && w[i] == c,
                Validity::Somewhere(c, i) => (i >= len || w[i] != c) && count_letter(&w, c) > 0,
                Validity::NotPresent(_) => true,
            };
            if !holds {
                assert(self@.atoms.contains(self.atoms@[k as int]));
                return false;
            }
            k += 1;
        }
        let m: usize = self.bounds.len();
        let mut k: usize = 0;
        while k < m
            invariant
                k <= m,
                m == self.bounds@.len(),
                w@ == word@,
                distinct_letters(self.bounds@),
                forall|j: int| 0 <= j < k ==> (#[trigger] self.bounds@[j]).allows(w@),
            decreases m - k,
        {
            let entry: LetterBound = self.bounds[k];
            let held: usize = count_letter(&w, entry.letter);
            let allowed: bool = entry.at_least <= held && match entry.at_most {
                Some(top) => held <= top,
                None => true,
            };
            if !allowed {
                proof {
                    lemma_bound_found(self.bounds@, k as int);
                    assert(self@.at_least[entry.letter] == entry.at_least);
                    assert(self@.at_most[entry.letter] == entry.ceiling());
                }
                return false;
            }
            k += 1;
        }
        proof {
            assert forall|a: Validity| #[trigger] self@.atoms.contains(a) implies atom_holds(
                a,
                word@,
            ) by {
                let j: int = choose|j: int| 0 <= j < self.atoms@.len() && self.atoms@[j] == a;
                assert(atom_holds(self.atoms@[j], w@));
            }
            assert forall|c: char|
                self@.at_least[c] <= letter_count(word@, c) && (self@.at_most[c] matches Some(top)
                    ==> letter_count(word@, c) <= top) by {
                lemma_bound_cases(self.bounds@, c);
                lemma_bound_of_letter(self.bounds@, c);
                if bound_of(self.bounds@, c) != (LetterBound {
                    letter: c,
                    at_least: 0,
                    at_most: None,
                }) {
                    let j: int = choose|j: int|
                        0 <= j < self.bounds@.len() && #[trigger] self.bounds@[j] == bound_of(
                            self.bounds@,
                            c,
                        );
                    assert(self.bounds@[j].allows(w@));
                }
            }
        }
        true
    }
}

} // verus!
