//! The order in which a ranking lists its candidates, and the sort that
//! finds it.

use crate::message::MessageResult;
use crate::number::rank_of;
use crate::ranking::{descends, lemma_ranked_descends, outranks, placed, ranked};
use vstd::prelude::*;

verus! {

/// Whether the candidate at `i` stands before the one at `j` in the
/// ranking: it outranks it, or they tie and it came first.
pub open spec fn precedes(candidates: Seq<MessageResult>, i: int, j: int) -> bool {
    ||| outranks(candidates[i], candidates[j])
    ||| !outranks(candidates[j], candidates[i]) && i < j
}

/// Whether `position` is an entry of `order`.
pub open spec fn lists(order: Seq<usize>, position: int) -> bool {
    exists|k: int| 0 <= k < order.len() && #[trigger] order[k] == position
}

/// Whether `order` lists each position from `lo` up to `hi` once, every
/// entry standing before those behind it.
pub open spec fn is_order(
    candidates: Seq<MessageResult>,
    order: Seq<usize>,
    lo: int,
    hi: int,
) -> bool {
    &&& order.len() == hi - lo
    &&& forall|k: int| 0 <= k < order.len() ==> lo <= #[trigger] order[k] < hi
    &&& forall|x: int| lo <= x < hi ==> #[trigger] lists(order, x)
    &&& forall|a: int, b: int|
        0 <= a < b < order.len() ==> precedes(
            candidates,
            #[trigger] order[a] as int,
            #[trigger] order[b] as int,
        )
}

/// The candidates in the order that `order` lists their positions.
pub open spec fn gathered(candidates: Seq<MessageResult>, order: Seq<usize>) -> Seq<MessageResult> {
    Seq::new(order.len(), |k: int| candidates[order[k] as int])
}

/// Putting a result in at the place where what it outranks begins is
/// placing it.
proof fn lemma_placed_is_insert(ranking: Seq<MessageResult>, result: MessageResult, at: int)
    requires
        0 <= at <= ranking.len(),
        forall|j: int| 0 <= j < at ==> !outranks(result, #[trigger] ranking[j]),
        forall|j: int| at <= j < ranking.len() ==> outranks(result, #[trigger] ranking[j]),
    ensures
        placed(ranking, result) == ranking.insert(at, result),
    decreases ranking.len(),
{
    if ranking.len() == 0 || at == ranking.len() {
        assert(ranking.push(result) =~= ranking.insert(at, result));
    } else {
        lemma_placed_is_insert(ranking.drop_last(), result, at);
        assert(ranking.drop_last().insert(at, result).push(ranking.last()) =~= ranking.insert(
            at,
            result,
        ));
    }
}

/// An order of all the candidates gathers them into their ranking.
pub proof fn lemma_order_gathers_ranking(candidates: Seq<MessageResult>, order: Seq<usize>)
    requires
        is_order(candidates, order, 0, candidates.len() as int),
    ensures
        gathered(candidates, order) == ranked(candidates),
    decreases candidates.len(),
{
    if candidates.len() == 0 {
        assert(gathered(candidates, order) =~= ranked(candidates));
    } else {
        let last = candidates.len() - 1;
        assert(lists(order, last));
        let at = choose|k: int| 0 <= k < order.len() && #[trigger] order[k] == last;
        let before = candidates.drop_last();
        let rest = order.remove(at);
        assert forall|k: int| 0 <= k < rest.len() implies 0 <= #[trigger] rest[k] < last by {
            if k < at {
                assert(precedes(candidates, order[k] as int, order[at] as int));
            } else {
                assert(precedes(candidates, order[at] as int, order[k + 1] as int));
            }
        }
        assert forall|x: int| 0 <= x < last implies #[trigger] lists(rest, x) by {
            assert(lists(order, x));
            let k = choose|k: int| 0 <= k < order.len() && #[trigger] order[k] == x;
            if k < at {
                assert(rest[k] == x);
            } else {
                assert(rest[k - 1] == x);
            }
        }
        assert forall|a: int, b: int| 0 <= a < b < rest.len() implies precedes(
            before,
            #[trigger] rest[a] as int,
            #[trigger] rest[b] as int,
        ) by {
            let a_old = if a < at { a } else { a + 1 };
            let b_old = if b < at { b } else { b + 1 };
            assert(precedes(candidates, order[a_old] as int, order[b_old] as int));
        }
        assert(is_order(before, rest, 0, before.len() as int));
        lemma_order_gathers_ranking(before, rest);
        let ranking = gathered(before, rest);
        assert forall|j: int| 0 <= j < at implies !outranks(
            candidates[last],
            #[trigger] ranking[j],
        ) by {
            assert(precedes(candidates, order[j] as int, order[at] as int));
        }
        assert forall|j: int| at <= j < ranking.len() implies outranks(
            candidates[last],
            #[trigger] ranking[j],
        ) by {
            assert(precedes(candidates, order[at] as int, order[j + 1] as int));
        }
        lemma_placed_is_insert(ranking, candidates[last], at);
        assert(ranking.insert(at, candidates[last]) =~= gathered(candidates, order));
    }
}

/// Where `result` goes in `ranking`: behind the last entry that it does
/// not outrank.
pub open spec fn place_of(ranking: Seq<MessageResult>, result: MessageResult) -> int
    decreases ranking.len(),
{
    if ranking.len() == 0 || !outranks(result, ranking.last()) {
        ranking.len() as int
    } else {
        place_of(ranking.drop_last(), result)
    }
}

/// Placing a result puts it in at its place; it outranks every entry behind
/// that place and, in a ranking that descends, none before it.
proof fn lemma_place_of(ranking: Seq<MessageResult>, result: MessageResult)
    ensures
        0 <= place_of(ranking, result) <= ranking.len(),
        placed(ranking, result) == ranking.insert(place_of(ranking, result), result),
        forall|j: int|
            place_of(ranking, result) <= j < ranking.len() ==> outranks(
                result,
                #[trigger] ranking[j],
            ),
        descends(ranking) ==> forall|j: int|
            0 <= j < place_of(ranking, result) ==> !outranks(result, #[trigger] ranking[j]),
    decreases ranking.len(),
{
    if ranking.len() == 0 || !outranks(result, ranking.last()) {
        assert(ranking.push(result) =~= ranking.insert(ranking.len() as int, result));
        if descends(ranking) {
            assert forall|j: int| 0 <= j < ranking.len() implies !outranks(
                result,
                #[trigger] ranking[j],
            ) by {
                if j < ranking.len() - 1 {
                    assert(!outranks(ranking[ranking.len() - 1], ranking[j]));
                }
            }
        }
    } else {
        let front = ranking.drop_last();
        lemma_place_of(front, result);
        let at = place_of(front, result);
        assert(front.insert(at, result).push(ranking.last()) =~= ranking.insert(at, result));
        assert forall|j: int| at <= j < ranking.len() implies outranks(
            result,
            #[trigger] ranking[j],
        ) by {
            if j < front.len() {
                assert(front[j] == ranking[j]);
            }
        }
        if descends(ranking) {
            assert(descends(front)) by {
                assert forall|a: int, b: int| 0 <= a < b < front.len() implies !outranks(
                    #[trigger] front[b],
                    #[trigger] front[a],
                ) by {
                    assert(!outranks(ranking[b], ranking[a]));
                }
            }
            assert forall|j: int| 0 <= j < at implies !outranks(result, #[trigger] ranking[j]) by {
                assert(front[j] == ranking[j]);
            }
        }
    }
}

/// Every ranking is gathered by an order of its candidates: a ranking is
/// the candidates sorted so that none is outranked by one behind it, with
/// those that tie left in the order they came in.
pub proof fn lemma_ranking_has_order(candidates: Seq<MessageResult>) -> (order: Seq<usize>)
    requires
        candidates.len() <= usize::MAX,
    ensures
        is_order(candidates, order, 0, candidates.len() as int),
        gathered(candidates, order) == ranked(candidates),
    decreases candidates.len(),
{
    if candidates.len() == 0 {
        let order = Seq::<usize>::empty();
        assert(gathered(candidates, order) =~= ranked(candidates));
        order
    } else {
        let last = (candidates.len() - 1) as usize;
        let front = candidates.drop_last();
        let rest = lemma_ranking_has_order(front);
        let ranking = ranked(front);
        lemma_ranked_descends(front);
        lemma_place_of(ranking, candidates.last());
        let at = place_of(ranking, candidates.last());
        let order = rest.insert(at, last);
        assert forall|x: int| 0 <= x < candidates.len() implies #[trigger] lists(order, x) by {
            if x == last {
                assert(order[at] == x);
            } else {
                assert(lists(rest, x));
                let k = choose|k: int| 0 <= k < rest.len() && #[trigger] rest[k] == x;
                if k < at {
                    assert(order[k] == x);
                } else {
                    assert(order[k + 1] == x);
                }
            }
        }
        assert forall|a: int, b: int| 0 <= a < b < order.len() implies precedes(
            candidates,
            #[trigger] order[a] as int,
            #[trigger] order[b] as int,
        ) by {
            if b == at {
                assert(ranking[a] == candidates[rest[a] as int]);
            } else if a == at {
                assert(ranking[b - 1] == candidates[rest[b - 1] as int]);
            } else {
                let a_old = if a < at { a } else { a - 1 };
                let b_old = if b < at { b } else { b - 1 };
                assert(precedes(front, rest[a_old] as int, rest[b_old] as int));
            }
        }
        assert(gathered(candidates, order) =~= ranking.insert(at, candidates.last()));
        order
    }
}

/// Decides [`precedes`].
fn comes_before(candidates: &Vec<MessageResult>, i: usize, j: usize) -> (first: bool)
    requires
        i < candidates.len(),
        j < candidates.len(),
    ensures
        first == precedes(candidates@, i as int, j as int),
{
    let score_i: i64 = rank_of(candidates[i].score);
    let score_j: i64 = rank_of(candidates[j].score);
    if score_i != score_j {
        return score_i > score_j;
    }
    let correct_i: i64 = rank_of(candidates[i].correct);
    let correct_j: i64 = rank_of(candidates[j].correct);
    if correct_i != correct_j {
        return correct_i > correct_j;
    }
    i < j
}

/// Whether every entry of `order` is a position in `candidates` and stands
/// before the entries behind it.
spec fn is_run(candidates: Seq<MessageResult>, order: Seq<usize>) -> bool {
    &&& forall|k: int| 0 <= k < order.len() ==> #[trigger] order[k] < candidates.len()
    &&& forall|a: int, b: int|
        0 <= a < b < order.len() ==> precedes(
            candidates,
            #[trigger] order[a] as int,
            #[trigger] order[b] as int,
        )
}

/// Merges two runs that share no position into one run of all their
/// positions.
fn merge(candidates: &Vec<MessageResult>, left: &Vec<usize>, right: &Vec<usize>) -> (merged: Vec<
    usize,
>)
    requires
        is_run(candidates@, left@),
        is_run(candidates@, right@),
        forall|a: int, b: int|
            0 <= a < left.len() && 0 <= b < right.len() ==> #[trigger] left[a]
                != #[trigger] right[b],
    ensures
        is_run(candidates@, merged@),
        merged.len() == left.len() + right.len(),
        forall|a: int| 0 <= a < left.len() ==> merged@.contains(#[trigger] left[a]),
        forall|b: int| 0 <= b < right.len() ==> merged@.contains(#[trigger] right[b]),
        forall|k: int|
            0 <= k < merged.len() ==> left@.contains(#[trigger] merged[k]) || right@.contains(
                merged[k],
            ),
{
    let mut merged: Vec<usize> = Vec::new();
    let mut i: usize = 0;
    let mut j: usize = 0;
    while i < left.len() || j < right.len()
        invariant
            is_run(candidates@, left@),
            is_run(candidates@, right@),
            forall|a: int, b: int|
                0 <= a < left.len() && 0 <= b < right.len() ==> #[trigger] left[a]
                    != #[trigger] right[b],
            i <= left.len(),
            j <= right.len(),
            merged.len() == i + j,
            is_run(candidates@, merged@),
            forall|k: int, a: int|
                0 <= k < merged.len() && i <= a < left.len() ==> precedes(
                    candidates@,
                    #[trigger] merged[k] as int,
                    #[trigger] left[a] as int,
                ),
            forall|k: int, b: int|
                0 <= k < merged.len() && j <= b < right.len() ==> precedes(
                    candidates@,
                    #[trigger] merged[k] as int,
                    #[trigger] right[b] as int,
                ),
            forall|a: int| 0 <= a < i ==> merged@.contains(#[trigger] left[a]),
            forall|b: int| 0 <= b < j ==> merged@.contains(#[trigger] right[b]),
            forall|k: int|
                0 <= k < merged.len() ==> left@.contains(#[trigger] merged[k]) || right@.contains(
                    merged[k],
                ),
        decreases left.len() - i + right.len() - j,
    {
        let ghost before = merged@;
        let from_left: bool = if j >= right.len() {
            true
        } else if i >= left.len() {
            false
        } else {
            comes_before(candidates, left[i], right[j])
        };
        if from_left {
            let next: usize = left[i];
            proof {
                assert forall|b: int| j <= b < right.len() implies precedes(
                    candidates@,
                    next as int,
                    #[trigger] right[b] as int,
                ) by {
                    if b > j {
                        assert(precedes(candidates@, right[j as int] as int, right[b] as int));
                    }
                }
                assert forall|a: int| i < a < left.len() implies precedes(
                    candidates@,
                    next as int,
                    #[trigger] left[a] as int,
                ) by {
                    assert(precedes(candidates@, left[i as int] as int, left[a] as int));
                }
            }
            merged.push(next);
            i = i + 1;
        } else {
            let next: usize = right[j];
            proof {
                assert forall|a: int| i <= a < left.len() implies precedes(
                    candidates@,
                    next as int,
                    #[trigger] left[a] as int,
                ) by {
                    assert(left[i as int] != right[j as int]);
                    if a > i {
                        assert(precedes(candidates@, left[i as int] as int, left[a] as int));
                    }
                }
                assert forall|b: int| j < b < right.len() implies precedes(
                    candidates@,
                    next as int,
                    #[trigger] right[b] as int,
                ) by {
                    assert(precedes(candidates@, right[j as int] as int, right[b] as int));
                }
            }
            merged.push(next);
            j = j + 1;
        }
        proof {
            let last = merged.len() - 1;
            assert(merged@ == before.push(merged[last]));
            assert(is_run(candidates@, merged@)) by {
                assert forall|a: int, b: int| 0 <= a < b < merged.len() implies precedes(
                    candidates@,
                    #[trigger] merged[a] as int,
                    #[trigger] merged[b] as int,
                ) by {
                    if b < last {
                        assert(precedes(candidates@, before[a] as int, before[b] as int));
                    }
                }
            }
            assert forall|a: int| 0 <= a < i implies merged@.contains(#[trigger] left[a]) by {
                if a < i - 1 || !from_left {
                    let k = choose|k: int| 0 <= k < before.len() && before[k] == left[a];
                    assert(merged[k] == left[a]);
                } else {
                    assert(merged[last] == left[a]);
                }
            }
            assert forall|b: int| 0 <= b < j implies merged@.contains(#[trigger] right[b]) by {
                if b < j - 1 || from_left {
                    let k = choose|k: int| 0 <= k < before.len() && before[k] == right[b];
                    assert(merged[k] == right[b]);
                } else {
                    assert(merged[last] == right[b]);
                }
            }
            assert forall|k: int| 0 <= k < merged.len() implies left@.contains(
                #[trigger] merged[k],
            ) || right@.contains(merged[k]) by {
                if k < last {
                    assert(merged[k] == before[k]);
                } else if from_left {
                    assert(left[i - 1] == merged[k]);
                } else {
                    assert(right[j - 1] == merged[k]);
                }
            }
        }
    }
    merged
}

/// Orders the positions from `lo` up to `hi` by merging the orders of the
/// two halves.
pub(crate) fn sort_range(candidates: &Vec<MessageResult>, lo: usize, hi: usize) -> (order: Vec<
    usize,
>)
    requires
        lo <= hi <= candidates.len(),
    ensures
        is_order(candidates@, order@, lo as int, hi as int),
    decreases hi - lo,
{
    if hi - lo == 0 {
        return Vec::new();
    }
    if hi - lo == 1 {
        let mut order: Vec<usize> = Vec::new();
        order.push(lo);
        assert(order@[0] == lo);
        assert(lists(order@, lo as int));
        return order;
    }
    let mid: usize = lo + (hi - lo) / 2;
    let left = sort_range(candidates, lo, mid);
    let right = sort_range(candidates, mid, hi);
    let order = merge(candidates, &left, &right);
    proof {
        assert forall|k: int| 0 <= k < order.len() implies lo <= #[trigger] order[k] < hi by {
            if left@.contains(order[k]) {
                let a = choose|a: int| 0 <= a < left.len() && left[a] == order[k];
                assert(lo <= left[a] < mid);
            } else {
                let b = choose|b: int| 0 <= b < right.len() && right[b] == order[k];
                assert(mid <= right[b] < hi);
            }
        }
        assert forall|x: int| lo <= x < hi implies #[trigger] lists(order@, x) by {
            if x < mid {
                assert(lists(left@, x));
                let a = choose|a: int| 0 <= a < left.len() && left[a] == x;
                assert(order@.contains(left[a]));
            } else {
                assert(lists(right@, x));
                let b = choose|b: int| 0 <= b < right.len() && right[b] == x;
                assert(order@.contains(right[b]));
            }
            let k = choose|k: int| 0 <= k < order.len() && order[k] == x;
            assert(order[k] == x);
        }
    }
    order
}

} // verus!
