//! How a guess splits the words that are still possible.
//!
//! Each answer that the guess could get keeps some of the candidates. The
//! sizes of these groups are all that the entropy of the guess depends on:
//! with `n` candidates, a group of size `s` has probability `s / n`.

use crate::filter::{eligible, is_consistent, is_eligible};
use crate::guess::consistent;
use crate::pattern::{compute_pattern, pattern_of, same_pattern, Correctness};
use crate::product::{
    enumerable, enumerate_patterns, enumerated, free_positions, lemma_pow3_monotone, nth_pattern,
    pow3, symbols,
};
use crate::word::chars_of;
use vstd::arithmetic::div_mod::{
    lemma_fundamental_div_mod, lemma_fundamental_div_mod_converse, lemma_mod_bound,
};
use vstd::prelude::*;

verus! {

/// The number of candidates that answering `pattern` to `guess` leaves
/// possible.
pub open spec fn bucket_size(candidates: Seq<&str>, guess: Seq<char>, pattern: Seq<Correctness>) -> nat {
    candidates.filter(is_consistent(guess, pattern)).len()
}

/// The bucket size of every answer, in the order in which the answers are
/// enumerated.
pub open spec fn all_bucket_sizes(candidates: Seq<&str>, guess: Seq<char>, first_fixed: bool) -> Seq<
    nat,
> {
    Seq::new(
        pow3(free_positions(guess.len(), first_fixed)),
        |k: int| bucket_size(candidates, guess, enumerated(guess.len(), first_fixed, k)),
    )
}

/// The predicate that holds of the numbers above zero.
pub open spec fn positive() -> spec_fn(nat) -> bool {
    |n: nat| n > 0
}

/// The sizes of the groups into which `guess` splits the candidates: the
/// bucket sizes without the empty buckets.
pub open spec fn partition(candidates: Seq<&str>, guess: Seq<char>, first_fixed: bool) -> Seq<nat> {
    all_bucket_sizes(candidates, guess, first_fixed).filter(positive())
}

/// Machine numbers as natural numbers.
pub open spec fn as_nats(sizes: Seq<usize>) -> Seq<nat> {
    Seq::new(sizes.len(), |i: int| sizes[i] as nat)
}

/// The sum of a sequence of sizes.
pub open spec fn total(sizes: Seq<nat>) -> nat
    decreases sizes.len(),
{
    if sizes.len() == 0 {
        0
    } else {
        total(sizes.drop_last()) + sizes.last()
    }
}

/// Whether `answers` holds, for each of the first candidates, the answer that
/// `guess` gets against it, and nothing for a candidate of another length.
spec fn answers_of(
    answers: Seq<Option<Vec<Correctness>>>,
    candidates: Seq<&str>,
    guess: Seq<char>,
) -> bool {
    &&& answers.len() <= candidates.len()
    &&& forall|i: int|
        0 <= i < answers.len() ==> match #[trigger] answers[i] {
            Some(answer) => candidates[i]@.len() == guess.len() && answer@ == pattern_of(
                candidates[i]@,
                guess,
            ),
            None => candidates[i]@.len() != guess.len(),
        }
}

/// Counts, for every answer that `guess` could get, the candidates that the
/// answer would leave, and returns the counts that are not zero, in the
/// order in which the answers are enumerated.
///
/// With `first_fixed` only the answers that start with `Correct` are
/// enumerated.
pub fn partition_sizes(guess: &str, candidates: &Vec<&str>, first_fixed: bool) -> (sizes: Vec<
    usize,
>)
    requires
        enumerable(guess@.len(), first_fixed),
    ensures
        as_nats(sizes@) == partition(candidates@, guess@, first_fixed),
{
    let played = chars_of(guess);
    let length = played.len();
    let mut answers: Vec<Option<Vec<Correctness>>> = Vec::new();
    let mut c: usize = 0;
    while c < candidates.len()
        invariant
            c <= candidates@.len(),
            answers@.len() == c,
            played@ == guess@,
            length == guess@.len(),
            answers_of(answers@, candidates@, guess@),
        decreases candidates@.len() - c,
    {
        let letters = chars_of(candidates[c]);
        if letters.len() == length {
            answers.push(Some(compute_pattern(&letters, &played)));
        } else {
            answers.push(None);
        }
        c += 1;
    }
    let patterns = enumerate_patterns(length, first_fixed);
    let ghost all = all_bucket_sizes(candidates@, guess@, first_fixed);
    let mut sizes: Vec<usize> = Vec::new();
    let mut k: usize = 0;
    proof {
        reveal(Seq::filter);
        assert(all.take(0) =~= Seq::<nat>::empty());
        assert(as_nats(sizes@) =~= Seq::<nat>::empty());
    }
    while k < patterns.len()
        invariant
            k <= patterns@.len(),
            length == guess@.len(),
            answers@.len() == candidates@.len(),
            all == all_bucket_sizes(candidates@, guess@, first_fixed),
            all.len() == patterns@.len(),
            forall|j: int|
                0 <= j < patterns@.len() ==> (#[trigger] patterns@[j])@ == enumerated(
                    length as nat,
                    first_fixed,
                    j,
                ),
            answers_of(answers@, candidates@, guess@),
            as_nats(sizes@) == all.take(k as int).filter(positive()),
        decreases patterns@.len() - k,
    {
        let pattern = &patterns[k];
        let ghost keep = is_consistent(guess@, pattern@);
        let mut count: usize = 0;
        let mut i: usize = 0;
        proof {
            reveal(Seq::filter);
            assert(candidates@.take(0) =~= Seq::<&str>::empty());
        }
        while i < answers.len()
            invariant
                i <= answers@.len(),
                length == guess@.len(),
                answers@.len() == candidates@.len(),
                keep == is_consistent(guess@, pattern@),
                answers_of(answers@, candidates@, guess@),
                count <= i,
                count == candidates@.take(i as int).filter(keep).len(),
            decreases answers@.len() - i,
        {
            proof {
                assert(candidates@.take(i + 1) =~= candidates@.take(i as int).push(
                    candidates@[i as int],
                ));
                candidates@.take(i as int).lemma_filter_push(candidates@[i as int], keep);
            }
            let hit = match &answers[i] {
                Some(answer) => same_pattern(answer, pattern),
                None => false,
            };
            if hit {
                count += 1;
            }
            i += 1;
        }
        proof {
            assert(candidates@.take(i as int) =~= candidates@);
            assert(count as nat == all[k as int]);
            assert(all.take(k + 1) =~= all.take(k as int).push(all[k as int]));
            all.take(k as int).lemma_filter_push(all[k as int], positive());
        }
        if count > 0 {
            let ghost before = sizes@;
            sizes.push(count);
            assert(as_nats(sizes@) =~= as_nats(before).push(count as nat));
        }
        k += 1;
    }
    assert(all.take(k as int) =~= all);
    sizes
}

/// The base-3 digit that stands for a symbol when answers are enumerated.
pub open spec fn digit(symbol: Correctness) -> int {
    match symbol {
        Correctness::Correct => 0,
        Correctness::Misplaced => 1,
        Correctness::Absent => 2,
    }
}

/// The place of an answer among the answers of its length.
pub open spec fn index_of(pattern: Seq<Correctness>) -> int
    decreases pattern.len(),
{
    if pattern.len() == 0 {
        0
    } else {
        digit(pattern[0]) * pow3((pattern.len() - 1) as nat) + index_of(pattern.drop_first())
    }
}

/// Every answer stands at its own place in the enumeration.
pub proof fn lemma_index_of_is_place(pattern: Seq<Correctness>)
    ensures
        0 <= index_of(pattern) < pow3(pattern.len()),
        nth_pattern(pattern.len(), index_of(pattern)) == pattern,
    decreases pattern.len(),
{
    if pattern.len() > 0 {
        let rest = pattern.drop_first();
        let m = pow3(rest.len()) as int;
        let d = digit(pattern[0]);
        let r = index_of(rest);
        lemma_index_of_is_place(rest);
        lemma_pow3_monotone(0, rest.len());
        assert(index_of(pattern) == d * m + r);
        assert(0 <= d * m <= 2 * m) by (nonlinear_arith)
            requires
                0 <= d <= 2,
                m >= 1,
        ;
        lemma_fundamental_div_mod_converse(d * m + r, m, d, r);
        assert(symbols()[d] == pattern[0]);
        assert(seq![pattern[0]] + rest =~= pattern);
    }
}

/// The answer at place `k` has `n` symbols and no other place.
pub proof fn lemma_place_is_index_of(n: nat, k: int)
    requires
        0 <= k < pow3(n),
    ensures
        nth_pattern(n, k).len() == n,
        index_of(nth_pattern(n, k)) == k,
    decreases n,
{
    if n > 0 {
        let m = pow3((n - 1) as nat) as int;
        lemma_pow3_monotone(0, (n - 1) as nat);
        let d = k / m;
        let r = k % m;
        lemma_fundamental_div_mod(k, m);
        lemma_mod_bound(k, m);
        assert(0 <= d < 3) by (nonlinear_arith)
            requires
                k == m * d + r,
                0 <= r < m,
                0 <= k < 3 * m,
        ;
        lemma_place_is_index_of((n - 1) as nat, r);
        let pattern = nth_pattern(n, k);
        assert(pattern.drop_first() =~= nth_pattern((n - 1) as nat, r));
        assert(pattern[0] == symbols()[d]);
        assert(digit(symbols()[d]) == d);
        assert(d * m == m * d) by (nonlinear_arith);
    }
}

/// Setting one entry changes the sum by the difference.
proof fn lemma_total_update(sizes: Seq<nat>, i: int, v: nat)
    requires
        0 <= i < sizes.len(),
    ensures
        total(sizes.update(i, v)) + sizes[i] == total(sizes) + v,
    decreases sizes.len(),
{
    let changed = sizes.update(i, v);
    if i == sizes.len() - 1 {
        assert(changed.drop_last() =~= sizes.drop_last());
    } else {
        lemma_total_update(sizes.drop_last(), i, v);
        assert(changed.drop_last() =~= sizes.drop_last().update(i, v));
    }
}

proof fn lemma_total_of_zeros(sizes: Seq<nat>)
    requires
        forall|i: int| 0 <= i < sizes.len() ==> sizes[i] == 0,
    ensures
        total(sizes) == 0,
    decreases sizes.len(),
{
    if sizes.len() > 0 {
        lemma_total_of_zeros(sizes.drop_last());
    }
}

/// Leaving out the zeros does not change the sum.
proof fn lemma_total_without_zeros(sizes: Seq<nat>)
    ensures
        total(sizes.filter(positive())) == total(sizes),
    decreases sizes.len(),
{
    reveal(Seq::filter);
    if sizes.len() > 0 {
        lemma_total_without_zeros(sizes.drop_last());
        let kept = sizes.drop_last().filter(positive());
        if sizes.last() > 0 {
            assert(kept.push(sizes.last()).drop_last() =~= kept);
        }
    }
}

/// A sum of sizes that are all at least one is at least their number.
proof fn lemma_total_at_least_len(sizes: Seq<nat>)
    requires
        forall|i: int| 0 <= i < sizes.len() ==> sizes[i] >= 1,
    ensures
        total(sizes) >= sizes.len(),
    decreases sizes.len(),
{
    if sizes.len() > 0 {
        lemma_total_at_least_len(sizes.drop_last());
    }
}

/// No entry is above the sum.
proof fn lemma_total_bounds_entry(sizes: Seq<nat>, i: int)
    requires
        0 <= i < sizes.len(),
    ensures
        sizes[i] <= total(sizes),
    decreases sizes.len(),
{
    if i < sizes.len() - 1 {
        lemma_total_bounds_entry(sizes.drop_last(), i);
    }
}

/// The first letter that every candidate must share with the guess when the
/// first symbol is pinned.
pub open spec fn pinned_letter(guess: Seq<char>, first_fixed: bool) -> Option<char> {
    if first_fixed {
        Some(guess[0])
    } else {
        None
    }
}

/// Whether every candidate has the length of the guess and, when the first
/// symbol is pinned, its first letter.
pub open spec fn comparable(candidates: Seq<&str>, guess: Seq<char>, first_fixed: bool) -> bool {
    forall|i: int|
        0 <= i < candidates.len() ==> eligible(
            (#[trigger] candidates[i])@,
            guess.len() as int,
            pinned_letter(guess, first_fixed),
        )
}

/// The place of the one enumerated answer that a comparable word gives.
proof fn lemma_own_bucket(word: Seq<char>, guess: Seq<char>, first_fixed: bool) -> (place: int)
    requires
        first_fixed ==> guess.len() >= 1,
        eligible(word, guess.len() as int, pinned_letter(guess, first_fixed)),
    ensures
        0 <= place < pow3(free_positions(guess.len(), first_fixed)),
        forall|k: int|
            0 <= k < pow3(free_positions(guess.len(), first_fixed)) ==> (consistent(
                guess,
                #[trigger] enumerated(guess.len(), first_fixed, k),
                word,
            ) <==> k == place),
{
    let answer = pattern_of(word, guess);
    let free = free_positions(guess.len(), first_fixed);
    let tail = if first_fixed {
        answer.drop_first()
    } else {
        answer
    };
    let place = index_of(tail);
    lemma_index_of_is_place(tail);
    if first_fixed {
        assert(answer[0] == Correctness::Correct);
        assert(seq![Correctness::Correct] + tail =~= answer);
    }
    assert(enumerated(guess.len(), first_fixed, place) == answer);
    assert forall|k: int| 0 <= k < pow3(free) implies (consistent(
        guess,
        #[trigger] enumerated(guess.len(), first_fixed, k),
        word,
    ) <==> k == place) by {
        lemma_place_is_index_of(free, k);
        if enumerated(guess.len(), first_fixed, k) == answer {
            if first_fixed {
                assert((seq![Correctness::Correct] + nth_pattern(free, k)).drop_first()
                    =~= nth_pattern(free, k));
            }
            assert(nth_pattern(free, k) == tail);
        }
    }
    place
}

/// A word that cannot be compared with the guess gives no enumerated answer.
proof fn lemma_no_bucket(word: Seq<char>, guess: Seq<char>, first_fixed: bool, k: int)
    requires
        first_fixed ==> guess.len() >= 1,
        !eligible(word, guess.len() as int, pinned_letter(guess, first_fixed)),
        0 <= k < pow3(free_positions(guess.len(), first_fixed)),
    ensures
        !consistent(guess, enumerated(guess.len(), first_fixed, k), word),
{
    if word.len() == guess.len() {
        assert(pattern_of(word, guess)[0] != Correctness::Correct);
        assert(enumerated(guess.len(), first_fixed, k)[0] == Correctness::Correct);
    }
}

/// The bucket sizes add up to the number of candidates that can be compared
/// with the guess: each of these is in exactly one bucket, and the others
/// are in none.
pub proof fn lemma_buckets_cover(candidates: Seq<&str>, guess: Seq<char>, first_fixed: bool)
    requires
        first_fixed ==> guess.len() >= 1,
    ensures
        total(all_bucket_sizes(candidates, guess, first_fixed)) == candidates.filter(
            is_eligible(guess.len() as int, pinned_letter(guess, first_fixed)),
        ).len(),
    decreases candidates.len(),
{
    let fits = is_eligible(guess.len() as int, pinned_letter(guess, first_fixed));
    let sizes = all_bucket_sizes(candidates, guess, first_fixed);
    reveal(Seq::filter);
    if candidates.len() == 0 {
        lemma_total_of_zeros(sizes);
    } else {
        let rest = candidates.drop_last();
        let last = candidates.last();
        let before = all_bucket_sizes(rest, guess, first_fixed);
        lemma_buckets_cover(rest, guess, first_fixed);
        assert(candidates =~= rest.push(last));
        if fits(last) {
            let place = lemma_own_bucket(last@, guess, first_fixed);
            assert forall|k: int| 0 <= k < sizes.len() implies sizes[k] == before.update(
                place,
                before[place] + 1,
            )[k] by {
                rest.lemma_filter_push(
                    last,
                    is_consistent(guess, enumerated(guess.len(), first_fixed, k)),
                );
            }
            assert(sizes =~= before.update(place, before[place] + 1));
            lemma_total_update(before, place, before[place] + 1);
        } else {
            assert forall|k: int| 0 <= k < sizes.len() implies sizes[k] == before[k] by {
                lemma_no_bucket(last@, guess, first_fixed, k);
                rest.lemma_filter_push(
                    last,
                    is_consistent(guess, enumerated(guess.len(), first_fixed, k)),
                );
            }
            assert(sizes =~= before);
        }
    }
}

/// A filter that every word passes keeps the length.
proof fn lemma_filter_keeps_all(words: Seq<&str>, keep: spec_fn(&str) -> bool)
    requires
        forall|i: int| 0 <= i < words.len() ==> keep(#[trigger] words[i]),
    ensures
        words.filter(keep).len() == words.len(),
    decreases words.len(),
{
    reveal(Seq::filter);
    if words.len() > 0 {
        lemma_filter_keeps_all(words.drop_last(), keep);
    }
}

/// What holds of the groups into which a guess splits the candidates: no
/// group is empty or larger than the candidate set, the groups are at most
/// as many as the candidates, and their sizes add up to the number of
/// candidates where all of them can be compared with the guess, to less
/// where some cannot.
///
/// So the probabilities `size / candidates.len()` are each above zero and at
/// most one, and among comparable candidates they add up to one.
pub proof fn lemma_partition_is_exact(candidates: Seq<&str>, guess: Seq<char>, first_fixed: bool)
    requires
        first_fixed ==> guess.len() >= 1,
    ensures
        total(partition(candidates, guess, first_fixed)) <= candidates.len(),
        comparable(candidates, guess, first_fixed) <==> total(
            partition(candidates, guess, first_fixed),
        ) == candidates.len(),
        partition(candidates, guess, first_fixed).len() <= candidates.len(),
        forall|i: int|
            0 <= i < partition(candidates, guess, first_fixed).len() ==> 1 <= (#[trigger] partition(
                candidates,
                guess,
                first_fixed,
            )[i]) <= candidates.len(),
{
    let fits = is_eligible(guess.len() as int, pinned_letter(guess, first_fixed));
    let sizes = all_bucket_sizes(candidates, guess, first_fixed);
    let groups = partition(candidates, guess, first_fixed);
    lemma_buckets_cover(candidates, guess, first_fixed);
    lemma_total_without_zeros(sizes);
    candidates.lemma_filter_len(fits);
    if comparable(candidates, guess, first_fixed) {
        lemma_filter_keeps_all(candidates, fits);
    } else {
        let i = choose|i: int|
            0 <= i < candidates.len() && !eligible(
                (#[trigger] candidates[i])@,
                guess.len() as int,
                pinned_letter(guess, first_fixed),
            );
        lemma_filter_drops(candidates, fits, i);
    }
    assert forall|i: int| 0 <= i < groups.len() implies 1 <= (#[trigger] groups[i])
        <= candidates.len() by {
        sizes.lemma_filter_pred(positive(), i);
        lemma_total_bounds_entry(groups, i);
    }
    lemma_total_at_least_len(groups);
}

/// A filter that some word fails shortens the sequence.
proof fn lemma_filter_drops(words: Seq<&str>, keep: spec_fn(&str) -> bool, i: int)
    requires
        0 <= i < words.len(),
        !keep(words[i]),
    ensures
        words.filter(keep).len() < words.len(),
    decreases words.len(),
{
    reveal(Seq::filter);
    if i == words.len() - 1 {
        words.drop_last().lemma_filter_len(keep);
    } else {
        lemma_filter_drops(words.drop_last(), keep, i);
    }
}

/// A single candidate is a single group of one where it can be compared
/// with the guess, and no group where it cannot: either way the guess tells
/// nothing new.
pub proof fn lemma_single_candidate_single_group(
    candidates: Seq<&str>,
    guess: Seq<char>,
    first_fixed: bool,
)
    requires
        first_fixed ==> guess.len() >= 1,
        candidates.len() == 1,
    ensures
        partition(candidates, guess, first_fixed) == if comparable(
            candidates,
            guess,
            first_fixed,
        ) {
            seq![1nat]
        } else {
            Seq::<nat>::empty()
        },
{
    let groups = partition(candidates, guess, first_fixed);
    lemma_partition_is_exact(candidates, guess, first_fixed);
    if groups.len() > 0 {
        assert(groups[0] == 1);
        assert(groups.drop_last().len() == 0);
        assert(total(groups) == total(groups.drop_last()) + groups.last());
        assert(total(groups.drop_last()) == 0);
        assert(groups =~= seq![1nat]);
    } else {
        assert(total(groups) == 0);
        assert(groups =~= Seq::<nat>::empty());
    }
}

} // verus!
