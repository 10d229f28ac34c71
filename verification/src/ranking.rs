//! The ranking of scored records: best score first, ties broken by the
//! recognition confidence, what still ties kept in the order it came in.

use crate::message::MessageResult;
use crate::number::rank_key;
use crate::order::{gathered, is_order, lemma_order_gathers_ranking, sort_range};
use vstd::prelude::*;

verus! {

/// Whether `a` ranks strictly above `b`: by a higher score or, with the same
/// score, by a higher confidence.
pub open spec fn outranks(a: MessageResult, b: MessageResult) -> bool {
    ||| rank_key(a.score) > rank_key(b.score)
    ||| rank_key(a.score) == rank_key(b.score) && rank_key(a.correct) > rank_key(b.correct)
}

/// `ranking` with `result` put in: behind every result that it does not
/// outrank, before all that it outranks.
pub open spec fn placed(ranking: Seq<MessageResult>, result: MessageResult) -> Seq<MessageResult>
    decreases ranking.len(),
{
    if ranking.len() == 0 || !outranks(result, ranking.last()) {
        ranking.push(result)
    } else {
        placed(ranking.drop_last(), result).push(ranking.last())
    }
}

/// The ranking of `candidates`: each of them, in the order given, placed
/// in the ranking of those before it.
pub open spec fn ranked(candidates: Seq<MessageResult>) -> Seq<MessageResult>
    decreases candidates.len(),
{
    if candidates.len() == 0 {
        Seq::empty()
    } else {
        placed(ranked(candidates.drop_last()), candidates.last())
    }
}

/// The first `take` entries of `ranking`, or all of it if it has fewer.
pub open spec fn top(ranking: Seq<MessageResult>, take: usize) -> Seq<MessageResult> {
    if take <= ranking.len() {
        ranking.take(take as int)
    } else {
        ranking
    }
}

/// Placing a result adds it to the ranking and keeps everything else: the
/// ranking grows by one, and it holds what it held before and the result.
pub proof fn lemma_placed_holds(ranking: Seq<MessageResult>, result: MessageResult)
    ensures
        placed(ranking, result).len() == ranking.len() + 1,
        placed(ranking, result).to_multiset() == ranking.to_multiset().insert(result),
    decreases ranking.len(),
{
    broadcast use vstd::seq_lib::group_to_multiset_ensures;

    if ranking.len() == 0 || !outranks(result, ranking.last()) {
    } else {
        let front = ranking.drop_last();
        lemma_placed_holds(front, result);
        assert(ranking == front.push(ranking.last()));
        assert(front.to_multiset().insert(result).insert(ranking.last())
            =~= front.to_multiset().insert(ranking.last()).insert(result));
    }
}

/// A ranking holds exactly the candidates it was made of, each as often as
/// it was given.
pub proof fn lemma_ranked_holds(candidates: Seq<MessageResult>)
    ensures
        ranked(candidates).len() == candidates.len(),
        ranked(candidates).to_multiset() == candidates.to_multiset(),
    decreases candidates.len(),
{
    broadcast use vstd::seq_lib::group_to_multiset_ensures;

    if candidates.len() == 0 {
        assert(ranked(candidates) =~= candidates);
    } else {
        let front = candidates.drop_last();
        lemma_ranked_holds(front);
        lemma_placed_holds(ranked(front), candidates.last());
        assert(candidates == front.push(candidates.last()));
    }
}

/// Whether no entry of `ranking` is outranked by an entry behind it.
pub open spec fn descends(ranking: Seq<MessageResult>) -> bool {
    forall|a: int, b: int|
        0 <= a < b < ranking.len() ==> !outranks(#[trigger] ranking[b], #[trigger] ranking[a])
}

/// Placing a result in a ranking that descends gives one that descends, made
/// of the result and of what the ranking held.
proof fn lemma_placed_descends(ranking: Seq<MessageResult>, result: MessageResult)
    requires
        descends(ranking),
    ensures
        descends(placed(ranking, result)),
        forall|k: int|
            0 <= k < placed(ranking, result).len() ==> #[trigger] placed(ranking, result)[k]
                == result || ranking.contains(placed(ranking, result)[k]),
    decreases ranking.len(),
{
    let after = placed(ranking, result);
    if ranking.len() == 0 || !outranks(result, ranking.last()) {
        assert forall|a: int, b: int| 0 <= a < b < after.len() implies !outranks(
            #[trigger] after[b],
            #[trigger] after[a],
        ) by {
            if b == ranking.len() && a < ranking.len() - 1 {
                assert(!outranks(ranking[ranking.len() - 1], ranking[a]));
            }
        }
        assert forall|k: int| 0 <= k < after.len() implies #[trigger] after[k] == result
            || ranking.contains(after[k]) by {
            if k < ranking.len() {
                assert(ranking[k] == after[k]);
            }
        }
    } else {
        let front = ranking.drop_last();
        let middle = placed(front, result);
        lemma_placed_descends(front, result);
        lemma_placed_holds(front, result);
        assert forall|k: int| 0 <= k < after.len() implies #[trigger] after[k] == result
            || ranking.contains(after[k]) by {
            if k < middle.len() {
                if middle[k] != result {
                    let j = choose|j: int| 0 <= j < front.len() && front[j] == middle[k];
                    assert(ranking[j] == after[k]);
                }
            } else {
                assert(ranking[ranking.len() - 1] == after[k]);
            }
        }
        assert forall|a: int, b: int| 0 <= a < b < after.len() implies !outranks(
            #[trigger] after[b],
            #[trigger] after[a],
        ) by {
            if b == middle.len() {
                if middle[a] != result {
                    let j = choose|j: int| 0 <= j < front.len() && front[j] == middle[a];
                    assert(!outranks(ranking[ranking.len() - 1], ranking[j]));
                }
            } else {
                assert(!outranks(middle[b], middle[a]));
            }
        }
    }
}

/// Every ranking descends, and so does every beginning of one.
pub proof fn lemma_ranked_descends(candidates: Seq<MessageResult>)
    ensures
        descends(ranked(candidates)),
        forall|take: usize| descends(#[trigger] top(ranked(candidates), take)),
    decreases candidates.len(),
{
    if candidates.len() > 0 {
        lemma_ranked_descends(candidates.drop_last());
        lemma_placed_descends(ranked(candidates.drop_last()), candidates.last());
    }
    assert forall|take: usize| descends(#[trigger] top(ranked(candidates), take)) by {
        lemma_top_descends(ranked(candidates), take);
    }
}

/// The beginning of a ranking that descends descends.
pub proof fn lemma_top_descends(ranking: Seq<MessageResult>, take: usize)
    requires
        descends(ranking),
    ensures
        descends(top(ranking, take)),
{
    let results = top(ranking, take);
    assert forall|a: int, b: int| 0 <= a < b < results.len() implies !outranks(
        #[trigger] results[b],
        #[trigger] results[a],
    ) by {
        assert(!outranks(ranking[b], ranking[a]));
    }
}

/// Of two results that a ranking returns, the earlier one has the higher
/// score, or the same score and a confidence that is not lower.
pub proof fn lemma_results_descend(candidates: Seq<MessageResult>, take: usize, a: int, b: int)
    requires
        0 <= a < b < top(ranked(candidates), take).len(),
    ensures
        ({
            let earlier = top(ranked(candidates), take)[a];
            let later = top(ranked(candidates), take)[b];
            ||| rank_key(earlier.score) > rank_key(later.score)
            ||| rank_key(earlier.score) == rank_key(later.score) && rank_key(earlier.correct)
                >= rank_key(later.correct)
        }),
{
    lemma_ranked_descends(candidates);
    let ranking = ranked(candidates);
    assert(!outranks(ranking[b], ranking[a]));
}

/// How many results a ranking returns: `take` of them, or all the
/// candidates if there are fewer; none if `take` is 0.
pub proof fn lemma_results_len(candidates: Seq<MessageResult>, take: usize)
    ensures
        top(ranked(candidates), take).len() == if take <= candidates.len() {
            take as int
        } else {
            candidates.len() as int
        },
        take == 0 ==> top(ranked(candidates), take) == Seq::<MessageResult>::empty(),
{
    lemma_ranked_holds(candidates);
    if take == 0 {
        assert(top(ranked(candidates), take) =~= Seq::<MessageResult>::empty());
    }
}

/// Asking for more results extends the answer: what a smaller `take`
/// returns is the beginning of what a larger one returns.
pub proof fn lemma_results_extend(candidates: Seq<MessageResult>, fewer: usize, more: usize)
    requires
        fewer <= more,
    ensures
        top(ranked(candidates), fewer).is_prefix_of(top(ranked(candidates), more)),
        top(ranked(candidates), fewer) == top(top(ranked(candidates), more), fewer),
{
    let ranking = ranked(candidates);
    assert(top(ranking, fewer) =~= top(top(ranking, more), fewer));
}

/// Outranking orders the results: nothing outranks itself, it is passed
/// on along a chain, and so is not outranking. Any two results are thus
/// ranked one above the other, or tie.
pub proof fn lemma_outranks_orders(a: MessageResult, b: MessageResult, c: MessageResult)
    ensures
        !outranks(a, a),
        outranks(a, b) ==> !outranks(b, a),
        outranks(a, b) && outranks(b, c) ==> outranks(a, c),
        !outranks(a, b) && !outranks(b, c) ==> !outranks(a, c),
{
}

/// Ranks the scored records and returns the best `take` of them, or all of
/// them if there are fewer: the highest score first, among equal scores the
/// highest confidence first, and among records that tie in both the one that
/// stands first in `candidates`.
///
/// Scores and confidences compare by [`rank_key`]; one that is not a number
/// ranks below every number.
pub fn rank(candidates: &Vec<MessageResult>, take: usize) -> (results: Vec<MessageResult>)
    ensures
        results@ == top(ranked(candidates@), take),
{
    let order = sort_range(candidates, 0, candidates.len());
    proof {
        lemma_order_gathers_ranking(candidates@, order@);
    }
    let count: usize = if take <= order.len() {
        take
    } else {
        order.len()
    };
    let mut results: Vec<MessageResult> = Vec::with_capacity(count);
    let mut k: usize = 0;
    while k < count
        invariant
            k <= count <= order.len(),
            is_order(candidates@, order@, 0, candidates.len() as int),
            results@ == gathered(candidates@, order@).take(k as int),
        decreases count - k,
    {
        results.push(candidates[order[k]]);
        k = k + 1;
        assert(results@ =~= gathered(candidates@, order@).take(k as int));
    }
    assert(gathered(candidates@, order@).take(order.len() as int) =~= gathered(
        candidates@,
        order@,
    ));
    results
}

} // verus!
