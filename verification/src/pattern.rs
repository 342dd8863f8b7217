//! The answer of the game to one guess: one symbol per letter of the guess.

use vstd::prelude::*;

verus! {

/// What the game says of one letter of a guess.
#[derive(Debug, Clone, Copy, PartialEq, Eq, Structural)]
pub enum Correctness {
    /// The hidden word holds this letter at this position.
    Correct,
    /// The hidden word holds this letter at another position that no other
    /// letter of the guess has claimed.
    Misplaced,
    /// The hidden word has no unclaimed occurrence of this letter.
    Absent,
}

/// The number of positions below `n` at which `a` holds `c` and `b` holds
/// another letter.
pub open spec fn off_place(a: Seq<char>, b: Seq<char>, c: char, n: int) -> nat
    decreases n,
{
    if n <= 0 {
        0
    } else {
        off_place(a, b, c, n - 1) + if a[n - 1] == c && b[n - 1] != c {
            1nat
        } else {
            0nat
        }
    }
}

/// The symbol for position `i` of `guess` when `target` is the hidden word.
///
/// A letter that is not in place is `Misplaced` as long as the target has
/// more out-of-place occurrences of it than the guess has to the left of `i`.
pub open spec fn symbol_at(target: Seq<char>, guess: Seq<char>, i: int) -> Correctness {
    let c = guess[i];
    if target[i] == c {
        Correctness::Correct
    } else if off_place(guess, target, c, i) < off_place(target, guess, c, target.len() as int) {
        Correctness::Misplaced
    } else {
        Correctness::Absent
    }
}

/// The whole answer to `guess` when `target` is the hidden word.
pub open spec fn pattern_of(target: Seq<char>, guess: Seq<char>) -> Seq<Correctness> {
    Seq::new(guess.len(), |i: int| symbol_at(target, guess, i))
}

proof fn lemma_off_place_monotone(a: Seq<char>, b: Seq<char>, c: char, m: int, n: int)
    requires
        m <= n,
    ensures
        off_place(a, b, c, m) <= off_place(a, b, c, n),
    decreases n - m,
{
    if m < n {
        lemma_off_place_monotone(a, b, c, m, n - 1);
    }
}

/// An out-of-place occurrence at `j` is counted by every longer prefix.
proof fn lemma_off_place_rank_below(a: Seq<char>, b: Seq<char>, c: char, j: int, n: int)
    requires
        0 <= j < n,
        a[j] == c,
        b[j] != c,
    ensures
        off_place(a, b, c, j) < off_place(a, b, c, n),
{
    assert(off_place(a, b, c, j + 1) == off_place(a, b, c, j) + 1);
    lemma_off_place_monotone(a, b, c, j + 1, n);
}

/// Every rank below the count belongs to some out-of-place occurrence.
proof fn lemma_off_place_rank_exists(a: Seq<char>, b: Seq<char>, c: char, r: int, n: int) -> (j: int)
    requires
        0 <= r < off_place(a, b, c, n),
    ensures
        0 <= j < n,
        a[j] == c,
        b[j] != c,
        off_place(a, b, c, j) == r,
    decreases n,
{
    if n <= 0 {
        0
    } else if a[n - 1] == c && b[n - 1] != c && off_place(a, b, c, n - 1) == r {
        n - 1
    } else {
        lemma_off_place_rank_exists(a, b, c, r, n - 1)
    }
}

/// The letters of `a` other than `c` do not change the count of `c`.
proof fn lemma_off_place_skip(a: Seq<char>, b: Seq<char>, c: char, n: int)
    requires
        n >= 0,
        a[n] != c || b[n] == c,
    ensures
        off_place(a, b, c, n + 1) == off_place(a, b, c, n),
{
}

/// Whether target position `j` has been claimed once the guess positions
/// below `i` are settled.
spec fn claimed(target: Seq<char>, guess: Seq<char>, j: int, i: int) -> bool {
    target[j] == guess[j] || off_place(target, guess, target[j], j) < off_place(
        guess,
        target,
        target[j],
        i,
    )
}

/// Derives the answer to `guess` against the hidden word `target`.
///
/// Letters in place are settled first and claim their own position in the
/// target. Every other letter of the guess, from left to right, claims the
/// leftmost unclaimed position of the target that holds it, and is `Absent`
/// when there is none.
pub fn compute_pattern(target: &Vec<char>, guess: &Vec<char>) -> (pattern: Vec<Correctness>)
    requires
        target@.len() == guess@.len(),
    ensures
        pattern@ == pattern_of(target@, guess@),
{
    let n = guess.len();
    let mut pattern: Vec<Correctness> = Vec::new();
    let mut used: Vec<bool> = Vec::new();
    let mut i: usize = 0;
    while i < n
        invariant
            n == guess@.len(),
            n == target@.len(),
            i <= n,
            pattern@.len() == i,
            used@.len() == i,
            forall|k: int| 0 <= k < i ==> used@[k] == (guess@[k] == target@[k]),
            forall|k: int|
                0 <= k < i ==> pattern@[k] == if guess@[k] == target@[k] {
                    Correctness::Correct
                } else {
                    Correctness::Absent
                },
        decreases n - i,
    {
        if guess[i] == target[i] {
            pattern.push(Correctness::Correct);
            used.push(true);
        } else {
            pattern.push(Correctness::Absent);
            used.push(false);
        }
        i += 1;
    }
    i = 0;
    while i < n
        invariant
            n == guess@.len(),
            n == target@.len(),
            i <= n,
            pattern@.len() == n,
            used@.len() == n,
            forall|j: int| 0 <= j < n ==> used@[j] == claimed(target@, guess@, j, i as int),
            forall|k: int| 0 <= k < i ==> pattern@[k] == symbol_at(target@, guess@, k),
            forall|k: int|
                i <= k < n ==> pattern@[k] == if guess@[k] == target@[k] {
                    Correctness::Correct
                } else {
                    Correctness::Absent
                },
        decreases n - i,
    {
        let c = guess[i];
        if c != target[i] {
            let ghost demand = off_place(guess@, target@, c, i as int);
            let mut j: usize = 0;
            while j < n && (used[j] || target[j] != c)
                invariant
                    n == target@.len(),
                    used@.len() == n,
                    j <= n,
                    forall|k: int| 0 <= k < j ==> used@[k] || target@[k] != c,
                decreases n - j,
            {
                j += 1;
            }
            if j < n {
                proof {
                    let rank = off_place(target@, guess@, c, j as int);
                    assert(!claimed(target@, guess@, j as int, i as int));
                    if rank > demand {
                        let k = lemma_off_place_rank_exists(target@, guess@, c, demand as int, j as int);
                        assert(!claimed(target@, guess@, k, i as int));
                    }
                    assert(rank == demand);
                    lemma_off_place_rank_below(target@, guess@, c, j as int, n as int);
                    assert forall|k: int| 0 <= k < n implies (k == j || used@[k]) == claimed(
                        target@,
                        guess@,
                        k,
                        i + 1,
                    ) by {
                        if target@[k] != c {
                            lemma_off_place_skip(guess@, target@, target@[k], i as int);
                        } else if target@[k] != guess@[k] {
                            if k < j {
                                lemma_off_place_rank_below(target@, guess@, c, k, j as int);
                            } else if k > j {
                                lemma_off_place_rank_below(target@, guess@, c, j as int, k);
                            }
                        }
                    }
                }
                used.set(j, true);
                pattern.set(i, Correctness::Misplaced);
            } else {
                proof {
                    let supply = off_place(target@, guess@, c, n as int);
                    if demand < supply {
                        let k = lemma_off_place_rank_exists(target@, guess@, c, demand as int, n as int);
                        assert(!claimed(target@, guess@, k, i as int));
                    }
                    assert forall|k: int| 0 <= k < n implies used@[k] == claimed(
                        target@,
                        guess@,
                        k,
                        i + 1,
                    ) by {
                        if target@[k] != c {
                            lemma_off_place_skip(guess@, target@, target@[k], i as int);
                        } else if target@[k] != guess@[k] {
                            lemma_off_place_rank_below(target@, guess@, c, k, n as int);
                        }
                    }
                }
            }
        } else {
            proof {
                assert forall|k: int| 0 <= k < n implies used@[k] == claimed(
                    target@,
                    guess@,
                    k,
                    i + 1,
                ) by {
                    lemma_off_place_skip(guess@, target@, target@[k], i as int);
                }
            }
        }
        i += 1;
    }
    pattern
}

/// Whether two answers hold the same symbols in the same order.
pub fn same_pattern(a: &Vec<Correctness>, b: &Vec<Correctness>) -> (same: bool)
    ensures
        same == (a@ == b@),
{
    if a.len() != b.len() {
        return false;
    }
    let mut i: usize = 0;
    while i < a.len()
        invariant
            a@.len() == b@.len(),
            i <= a@.len(),
            forall|k: int| 0 <= k < i ==> a@[k] == b@[k],
        decreases a@.len() - i,
    {
        if a[i] != b[i] {
            return false;
        }
        i += 1;
    }
    assert(a@ =~= b@);
    true
}

/// A word guessed against itself is answered `Correct` at every position.
pub proof fn lemma_own_guess_all_correct(w: Seq<char>)
    ensures
        pattern_of(w, w).len() == w.len(),
        forall|i: int| 0 <= i < w.len() ==> pattern_of(w, w)[i] == Correctness::Correct,
{
}

proof fn lemma_off_place_of_missing_letter(a: Seq<char>, b: Seq<char>, c: char, n: int)
    requires
        forall|j: int| 0 <= j < n ==> a[j] != c,
    ensures
        off_place(a, b, c, n) == 0,
    decreases n,
{
    if n > 0 {
        lemma_off_place_of_missing_letter(a, b, c, n - 1);
    }
}

/// A guess that shares no letter with the target is answered `Absent` at
/// every position.
pub proof fn lemma_foreign_guess_all_absent(target: Seq<char>, guess: Seq<char>)
    requires
        target.len() == guess.len(),
        forall|i: int, j: int|
            0 <= i < guess.len() && 0 <= j < target.len() ==> guess[i] != target[j],
    ensures
        pattern_of(target, guess).len() == guess.len(),
        forall|i: int|
            0 <= i < guess.len() ==> pattern_of(target, guess)[i] == Correctness::Absent,
{
    assert forall|i: int| 0 <= i < guess.len() implies pattern_of(target, guess)[i]
        == Correctness::Absent by {
        lemma_off_place_of_missing_letter(target, guess, guess[i], target.len() as int);
    }
}

/// The number of positions below `n` at which `s` holds `c`.
pub open spec fn occurrences(s: Seq<char>, c: char, n: int) -> nat
    decreases n,
{
    if n <= 0 {
        0
    } else {
        occurrences(s, c, n - 1) + if s[n - 1] == c {
            1nat
        } else {
            0nat
        }
    }
}

/// The number of positions below `n` at which the guess holds `c` and is
/// answered `Correct` or `Misplaced`.
pub open spec fn credited(target: Seq<char>, guess: Seq<char>, c: char, n: int) -> nat
    decreases n,
{
    if n <= 0 {
        0
    } else {
        credited(target, guess, c, n - 1) + if guess[n - 1] == c && symbol_at(target, guess, n - 1)
            != Correctness::Absent {
            1nat
        } else {
            0nat
        }
    }
}

/// The number of positions below `n` at which both words hold `c`.
spec fn in_place(a: Seq<char>, b: Seq<char>, c: char, n: int) -> nat
    decreases n,
{
    if n <= 0 {
        0
    } else {
        in_place(a, b, c, n - 1) + if a[n - 1] == c && b[n - 1] == c {
            1nat
        } else {
            0nat
        }
    }
}

proof fn lemma_occurrences_split(a: Seq<char>, b: Seq<char>, c: char, n: int)
    ensures
        occurrences(a, c, n) == in_place(a, b, c, n) + off_place(a, b, c, n),
    decreases n,
{
    if n > 0 {
        lemma_occurrences_split(a, b, c, n - 1);
    }
}

proof fn lemma_credit_bound(target: Seq<char>, guess: Seq<char>, c: char, n: int)
    requires
        0 <= n <= guess.len(),
    ensures
        credited(target, guess, c, n) <= in_place(target, guess, c, n) + off_place(
            guess,
            target,
            c,
            n,
        ),
        credited(target, guess, c, n) <= in_place(target, guess, c, n) + off_place(
            target,
            guess,
            c,
            target.len() as int,
        ),
    decreases n,
{
    if n > 0 {
        lemma_credit_bound(target, guess, c, n - 1);
    }
}

/// No letter is credited more often than the target holds it: each letter
/// of the target answers for one letter of the guess at most.
pub proof fn lemma_letters_claimed_once(target: Seq<char>, guess: Seq<char>, c: char)
    requires
        target.len() == guess.len(),
    ensures
        credited(target, guess, c, guess.len() as int) <= occurrences(
            target,
            c,
            target.len() as int,
        ),
{
    lemma_credit_bound(target, guess, c, guess.len() as int);
    lemma_occurrences_split(target, guess, c, target.len() as int);
}

} // verus!
