//! Ranking the guesses by their scores.
//!
//! An entropy is a real number, and this crate holds none. A caller hands in,
//! for each guess, an integer that orders as its entropy does: a higher
//! entropy has a higher score.

use vstd::prelude::*;

verus! {

/// Whether position `x` is ranked before position `y`: it has the higher
/// score, or the same score and comes first in the list.
pub open spec fn outranks(scores: Seq<u64>, x: int, y: int) -> bool {
    scores[x] > scores[y] || (scores[x] == scores[y] && x < y)
}

/// Whether `order` ranks the first `n` positions of `scores`: it holds each
/// of them, and nothing else, from the highest score down, equal scores in
/// the order of the list.
pub open spec fn ranks(scores: Seq<u64>, order: Seq<usize>, n: int) -> bool {
    &&& order.len() == n
    &&& forall|i: usize| i < n ==> #[trigger] order.contains(i)
    &&& forall|a: int| 0 <= a < order.len() ==> (#[trigger] order[a]) < n
    &&& forall|a: int, b: int|
        0 <= a < b < order.len() ==> outranks(scores, order[a] as int, order[b] as int)
}

/// The positions of `scores` from the highest score down, so that the best
/// guess comes first. Positions with the same score keep the order of the
/// list.
pub fn ranked(scores: &Vec<u64>) -> (order: Vec<usize>)
    ensures
        ranks(scores@, order@, scores@.len() as int),
{
    let mut order: Vec<usize> = Vec::new();
    let mut i: usize = 0;
    while i < scores.len()
        invariant
            i <= scores@.len(),
            ranks(scores@, order@, i as int),
        decreases scores@.len() - i,
    {
        let score = scores[i];
        let mut place: usize = 0;
        while place < order.len() && scores[order[place]] >= score
            invariant
                i < scores@.len(),
                score == scores@[i as int],
                ranks(scores@, order@, i as int),
                place <= order@.len(),
                forall|a: int| 0 <= a < place ==> scores@[order@[a] as int] >= score,
            decreases order@.len() - place,
        {
            place += 1;
        }
        let ghost before = order@;
        order.insert(place, i);
        proof {
            assert forall|k: usize| k < i + 1 implies #[trigger] order@.contains(k) by {
                if k < i {
                    assert(before.contains(k));
                    let a = choose|a: int| 0 <= a < before.len() && before[a] == k;
                    if a < place {
                        assert(order@[a] == k);
                    } else {
                        assert(order@[a + 1] == k);
                    }
                } else {
                    assert(order@[place as int] == k);
                }
            }
            assert forall|a: int, b: int| 0 <= a < b < order@.len() implies outranks(
                scores@,
                order@[a] as int,
                order@[b] as int,
            ) by {
                if b < place {
                    assert(outranks(scores@, before[a] as int, before[b] as int));
                } else if b == place {
                    assert(before[a] < i);
                } else if a < place {
                    assert(outranks(scores@, before[a] as int, before[b - 1] as int));
                } else if a == place {
                    if b - 1 > place {
                        assert(outranks(scores@, before[place as int] as int, before[b - 1] as int));
                    }
                } else {
                    assert(outranks(scores@, before[a - 1] as int, before[b - 1] as int));
                }
            }
        }
        i += 1;
    }
    order
}

/// The first position of a ranking holds a score that none exceeds.
pub proof fn lemma_first_is_best(scores: Seq<u64>, order: Seq<usize>)
    requires
        ranks(scores, order, scores.len() as int),
        0 < scores.len() <= usize::MAX,
    ensures
        forall|i: int| 0 <= i < scores.len() ==> scores[order[0] as int] >= #[trigger] scores[i],
{
    assert forall|i: int| 0 <= i < scores.len() implies scores[order[0] as int]
        >= #[trigger] scores[i] by {
        assert(order.contains(i as usize));
        let a = choose|a: int| 0 <= a < order.len() && order[a] == i as usize;
        if a > 0 {
            assert(outranks(scores, order[0] as int, order[a] as int));
        }
    }
}

} // verus!
