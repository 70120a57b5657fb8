//! Counting the positions of a range at which a predicate holds.

use vstd::prelude::*;

verus! {

/// The number of indices in `0..n` at which `p` holds.
pub open spec fn count_below(p: spec_fn(int) -> bool, n: int) -> nat
    decreases n,
{
    if n <= 0 {
        0
    } else {
        count_below(p, n - 1) + if p(n - 1) {
            1nat
        } else {
            0nat
        }
    }
}

/// The predicate "position `j` of `w` holds the letter `c`".
pub open spec fn holds_letter(w: Seq<char>, c: char) -> spec_fn(int) -> bool {
    |j: int| w[j] == c
}

/// How many times the letter `c` occurs in `w`.
pub open spec fn letter_count(w: Seq<char>, c: char) -> nat {
    count_below(holds_letter(w, c), w.len() as int)
}

/// A longer range counts at least as much as a shorter one.
pub proof fn lemma_count_grows(p: spec_fn(int) -> bool, m: int, n: int)
    requires
        m <= n,
    ensures
        count_below(p, m) <= count_below(p, n),
    decreases n - m,
{
    if m < n {
        lemma_count_grows(p, m, n - 1);
    }
}

/// Predicates that agree on `0..n` have the same count there.
pub proof fn lemma_count_congruent(p: spec_fn(int) -> bool, q: spec_fn(int) -> bool, n: int)
    requires
        forall|j: int| 0 <= j < n ==> #[trigger] p(j) == q(j),
    ensures
        count_below(p, n) == count_below(q, n),
    decreases n,
{
    if n > 0 {
        lemma_count_congruent(p, q, n - 1);
    }
}

/// A predicate that implies another on `0..n` counts no more than it.
pub proof fn lemma_count_monotone(p: spec_fn(int) -> bool, q: spec_fn(int) -> bool, n: int)
    requires
        forall|j: int| 0 <= j < n && #[trigger] p(j) ==> q(j),
    ensures
        count_below(p, n) <= count_below(q, n),
    decreases n,
{
    if n > 0 {
        lemma_count_monotone(p, q, n - 1);
    }
}

/// A predicate that implies another on `0..n` and fails at an index where
/// the other holds counts strictly less.
pub proof fn lemma_count_strict(
    p: spec_fn(int) -> bool,
    q: spec_fn(int) -> bool,
    n: int,
    k: int,
)
    requires
        forall|j: int| 0 <= j < n && #[trigger] p(j) ==> q(j),
        0 <= k < n,
        q(k),
        !p(k),
    ensures
        count_below(p, n) < count_below(q, n),
    decreases n,
{
    if k == n - 1 {
        lemma_count_monotone(p, q, n - 1);
    } else {
        lemma_count_strict(p, q, n - 1, k);
    }
}

/// The count is zero exactly when the predicate holds nowhere in `0..n`.
pub proof fn lemma_count_zero(p: spec_fn(int) -> bool, n: int)
    ensures
        count_below(p, n) == 0 <==> (forall|j: int| 0 <= j < n ==> !#[trigger] p(j)),
    decreases n,
{
    if n > 0 {
        lemma_count_zero(p, n - 1);
        if count_below(p, n) == 0 {
            assert forall|j: int| 0 <= j < n implies !#[trigger] p(j) by {
                if j < n - 1 {
                }
            }
        } else if forall|j: int| 0 <= j < n ==> !#[trigger] p(j) {
            assert(!p(n - 1));
            assert(forall|j: int| 0 <= j < n - 1 ==> !#[trigger] p(j));
        }
    }
}

/// The count of a disjoint union is the sum of the counts of its parts.
pub proof fn lemma_count_split(
    p: spec_fn(int) -> bool,
    q: spec_fn(int) -> bool,
    r: spec_fn(int) -> bool,
    n: int,
)
    requires
        forall|j: int| 0 <= j < n ==> (#[trigger] p(j) <==> q(j) || r(j)),
        forall|j: int| 0 <= j < n ==> !(#[trigger] q(j) && r(j)),
    ensures
        count_below(p, n) == count_below(q, n) + count_below(r, n),
    decreases n,
{
    if n > 0 {
        lemma_count_split(p, q, r, n - 1);
        assert(p(n - 1) <==> q(n - 1) || r(n - 1));
        assert(!(q(n - 1) && r(n - 1)));
    }
}

/// Switching the predicate off at one index where it held lowers the count
/// by one.
pub proof fn lemma_count_drop_one(
    p: spec_fn(int) -> bool,
    q: spec_fn(int) -> bool,
    n: int,
    k: int,
)
    requires
        0 <= k < n,
        p(k),
        !q(k),
        forall|j: int| 0 <= j < n && j != k ==> #[trigger] p(j) == q(j),
    ensures
        count_below(q, n) + 1 == count_below(p, n),
    decreases n,
{
    if k == n - 1 {
        lemma_count_congruent(p, q, n - 1);
    } else {
        lemma_count_drop_one(p, q, n - 1, k);
        assert(p(n - 1) == q(n - 1));
    }
}

} // verus!
