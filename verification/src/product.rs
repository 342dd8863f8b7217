//! Every answer of a given length, in a fixed order.

use crate::pattern::Correctness;
use itertools::Itertools;
use vstd::prelude::*;

verus! {

/// The sequences held by a vector of vectors.
pub open spec fn rows(v: Seq<Vec<Correctness>>) -> Seq<Seq<Correctness>> {
    Seq::new(v.len(), |i: int| v[i]@)
}

/// The number of ways to pick one item from each axis.
pub open spec fn tuple_count(axes: Seq<Seq<Correctness>>) -> nat
    decreases axes.len(),
{
    if axes.len() == 0 {
        1
    } else {
        axes[0].len() * tuple_count(axes.drop_first())
    }
}

/// The pick number `k` in lexicographic order, the last axis varying
/// fastest: the item of the first axis is `k` divided by the number of picks
/// from the other axes, and the remainder numbers the pick from those.
pub open spec fn tuple_at(axes: Seq<Seq<Correctness>>, k: int) -> Seq<Correctness>
    decreases axes.len(),
{
    if axes.len() == 0 {
        Seq::empty()
    } else {
        let inner = tuple_count(axes.drop_first()) as int;
        seq![axes[0][k / inner]] + tuple_at(axes.drop_first(), k % inner)
    }
}

/// Calls `Itertools::multi_cartesian_product` on the axes and collects what
/// it yields.
///
/// Trusted: the iterator yields each pick of one item per axis exactly once,
/// in lexicographic order with the last axis varying fastest. With no axis
/// it yields the empty pick alone, and with an empty axis it yields nothing.
#[verifier::external_body]
fn cartesian_product(axes: Vec<Vec<Correctness>>) -> (tuples: Vec<Vec<Correctness>>)
    requires
        tuple_count(rows(axes@)) <= usize::MAX,
    ensures
        tuples@.len() == tuple_count(rows(axes@)),
        forall|k: int|
            0 <= k < tuples@.len() ==> (#[trigger] tuples@[k])@ == tuple_at(rows(axes@), k),
{
    axes.into_iter().multi_cartesian_product().collect()
}

/// The three symbols in the order in which answers are enumerated.
pub open spec fn symbols() -> Seq<Correctness> {
    seq![Correctness::Correct, Correctness::Misplaced, Correctness::Absent]
}

/// Three to the power `n`.
pub open spec fn pow3(n: nat) -> nat
    decreases n,
{
    if n == 0 {
        1
    } else {
        3 * pow3((n - 1) as nat)
    }
}

/// The answer number `k` among the answers of `n` symbols: its symbols are
/// the base-3 digits of `k`, the most significant first, with `Correct` for
/// 0, `Misplaced` for 1 and `Absent` for 2.
pub open spec fn nth_pattern(n: nat, k: int) -> Seq<Correctness>
    decreases n,
{
    if n == 0 {
        Seq::empty()
    } else {
        let inner = pow3((n - 1) as nat) as int;
        seq![symbols()[k / inner]] + nth_pattern((n - 1) as nat, k % inner)
    }
}

/// The number of symbols that are not pinned.
pub open spec fn free_positions(length: nat, first_fixed: bool) -> nat {
    if first_fixed {
        (length - 1) as nat
    } else {
        length
    }
}

/// Whether the answers of `length` symbols can be listed: a pinned first
/// symbol needs a first position, and the number of answers must fit the
/// machine's word.
pub open spec fn enumerable(length: nat, first_fixed: bool) -> bool {
    &&& first_fixed ==> length >= 1
    &&& pow3(free_positions(length, first_fixed)) <= usize::MAX
}

/// The answer number `k` of `length` symbols. With the first symbol pinned
/// it is `Correct` followed by answer `k` of the other positions.
pub open spec fn enumerated(length: nat, first_fixed: bool, k: int) -> Seq<Correctness> {
    if first_fixed {
        seq![Correctness::Correct] + nth_pattern((length - 1) as nat, k)
    } else {
        nth_pattern(length, k)
    }
}

/// Powers of three are at least one and grow with the exponent.
pub proof fn lemma_pow3_monotone(m: nat, n: nat)
    requires
        m <= n,
    ensures
        1 <= pow3(m) <= pow3(n),
    decreases n,
{
    if n > 0 {
        if m < n {
            lemma_pow3_monotone(m, (n - 1) as nat);
        } else {
            lemma_pow3_monotone((m - 1) as nat, (n - 1) as nat);
        }
    }
}

/// With the three symbols on every axis, the picks are the answers.
proof fn lemma_uniform_axes(axes: Seq<Seq<Correctness>>)
    requires
        forall|i: int| 0 <= i < axes.len() ==> axes[i] == symbols(),
    ensures
        tuple_count(axes) == pow3(axes.len()),
        forall|k: int| tuple_at(axes, k) == nth_pattern(axes.len(), k),
    decreases axes.len(),
{
    if axes.len() > 0 {
        let rest = axes.drop_first();
        lemma_uniform_axes(rest);
        assert forall|k: int| tuple_at(axes, k) == nth_pattern(axes.len(), k) by {
            let inner = tuple_count(rest) as int;
            assert(tuple_at(rest, k % inner) == nth_pattern(rest.len(), k % inner));
        }
    }
}

/// Three to the power of the number of free positions, where the answers
/// can be listed.
pub fn pattern_count(length: usize, first_fixed: bool) -> (count: Option<usize>)
    ensures
        count is Some <==> enumerable(length as nat, first_fixed),
        count matches Some(c) ==> c == pow3(free_positions(length as nat, first_fixed)),
{
    if first_fixed && length == 0 {
        return None;
    }
    let free = if first_fixed {
        length - 1
    } else {
        length
    };
    let mut count: usize = 1;
    let mut i: usize = 0;
    while i < free
        invariant
            i <= free,
            free == free_positions(length as nat, first_fixed),
            first_fixed ==> length >= 1,
            count == pow3(i as nat),
        decreases free - i,
    {
        match count.checked_mul(3) {
            Some(next) => {
                count = next;
            },
            None => {
                proof {
                    assert(pow3((i + 1) as nat) == 3 * pow3(i as nat));
                    lemma_pow3_monotone((i + 1) as nat, free as nat);
                }
                return None;
            },
        }
        i += 1;
    }
    Some(count)
}

/// Lists every answer of `length` symbols, in the order of `enumerated`.
pub fn enumerate_patterns(length: usize, first_fixed: bool) -> (patterns: Vec<Vec<Correctness>>)
    requires
        enumerable(length as nat, first_fixed),
    ensures
        patterns@.len() == pow3(free_positions(length as nat, first_fixed)),
        forall|k: int|
            0 <= k < patterns@.len() ==> (#[trigger] patterns@[k])@ == enumerated(
                length as nat,
                first_fixed,
                k,
            ),
{
    let free = if first_fixed {
        length - 1
    } else {
        length
    };
    let mut axes: Vec<Vec<Correctness>> = Vec::new();
    let mut i: usize = 0;
    while i < free
        invariant
            i <= free,
            axes@.len() == i,
            forall|a: int| 0 <= a < i ==> (#[trigger] axes@[a])@ == symbols(),
        decreases free - i,
    {
        let mut axis: Vec<Correctness> = Vec::new();
        axis.push(Correctness::Correct);
        axis.push(Correctness::Misplaced);
        axis.push(Correctness::Absent);
        assert(axis@ =~= symbols());
        axes.push(axis);
        i += 1;
    }
    proof {
        lemma_uniform_axes(rows(axes@));
    }
    let tuples = cartesian_product(axes);
    if !first_fixed {
        return tuples;
    }
    let mut patterns: Vec<Vec<Correctness>> = Vec::new();
    let mut k: usize = 0;
    while k < tuples.len()
        invariant
            first_fixed,
            free == length - 1,
            k <= tuples@.len(),
            patterns@.len() == k,
            forall|j: int|
                0 <= j < tuples@.len() ==> (#[trigger] tuples@[j])@ == nth_pattern(free as nat, j),
            forall|j: int|
                0 <= j < k ==> (#[trigger] patterns@[j])@ == enumerated(length as nat, true, j),
        decreases tuples@.len() - k,
    {
        let tail = &tuples[k];
        let mut pattern: Vec<Correctness> = Vec::new();
        pattern.push(Correctness::Correct);
        let mut p: usize = 0;
        while p < tail.len()
            invariant
                p <= tail@.len(),
                pattern@ == seq![Correctness::Correct] + tail@.take(p as int),
            decreases tail@.len() - p,
        {
            pattern.push(tail[p]);
            assert(tail@.take(p + 1) =~= tail@.take(p as int).push(tail@[p as int]));
            p += 1;
        }
        assert(tail@.take(p as int) =~= tail@);
        patterns.push(pattern);
        k += 1;
    }
    patterns
}

} // verus!
