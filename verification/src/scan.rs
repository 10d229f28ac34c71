//! The scan of the corpus with a scorer, and what a search makes of it.

use crate::message::{corpus_view, Message, MessageResult, MessageView};
use crate::ranking::{lemma_results_len, ranked, top};
use crate::scorer::{score_one, scored, SimilarityMethod};
use rayon::iter::{IntoParallelRefIterator, ParallelIterator};
use vstd::prelude::*;

verus! {

/// What a scan of `corpus` finds: the records that the scorer's filter lets
/// pass, each with its score, in the order of the corpus.
pub open spec fn survivors<S: SimilarityMethod>(corpus: Seq<MessageView>, scorer: &S) -> Seq<
    MessageResult,
>
    decreases corpus.len(),
{
    if corpus.len() == 0 {
        Seq::empty()
    } else {
        let before = survivors(corpus.drop_last(), scorer);
        match scored(scorer, corpus.last()) {
            Some(result) => before.push(result),
            None => before,
        }
    }
}

/// What a search of `corpus` returns: the best `take` of the ranking of
/// what a scan finds.
pub open spec fn search_results<S: SimilarityMethod>(
    corpus: Seq<MessageView>,
    scorer: &S,
    take: usize,
) -> Seq<MessageResult> {
    top(ranked(survivors(corpus, scorer)), take)
}

/// A scan is decided by the corpus and by what the scorer answers on its
/// texts: two scorers that agree on every text of the corpus find the same
/// records with the same scores, and their searches return the same results
/// in the same order.
pub proof fn lemma_search_is_determined<S: SimilarityMethod, T: SimilarityMethod>(
    corpus: Seq<MessageView>,
    first: &S,
    second: &T,
    take: usize,
)
    requires
        forall|i: int|
            0 <= i < corpus.len() ==> first.accepts(#[trigger] corpus[i].message)
                == second.accepts(corpus[i].message),
        forall|i: int|
            0 <= i < corpus.len() && first.accepts(#[trigger] corpus[i].message) ==> first.score(
                corpus[i].message,
            ) == second.score(corpus[i].message),
    ensures
        survivors(corpus, first) == survivors(corpus, second),
        search_results(corpus, first, take) == search_results(corpus, second, take),
    decreases corpus.len(),
{
    if corpus.len() > 0 {
        let before = corpus.drop_last();
        assert forall|i: int| 0 <= i < before.len() implies first.accepts(
            #[trigger] before[i].message,
        ) == second.accepts(before[i].message) by {
            assert(before[i] == corpus[i]);
        }
        assert forall|i: int|
            0 <= i < before.len() && first.accepts(
                #[trigger] before[i].message,
            ) implies first.score(before[i].message) == second.score(before[i].message) by {
            assert(before[i] == corpus[i]);
        }
        lemma_search_is_determined(before, first, second, take);
        assert(corpus.last() == corpus[corpus.len() - 1]);
    }
}

/// How many results a search returns: `take` of them, or as many as there
/// are records that pass the scorer's filter if those are fewer.
pub proof fn lemma_search_len<S: SimilarityMethod>(
    corpus: Seq<MessageView>,
    scorer: &S,
    take: usize,
)
    ensures
        search_results(corpus, scorer, take).len() == if take <= survivors(corpus, scorer).len() {
            take as int
        } else {
            survivors(corpus, scorer).len() as int
        },
        survivors(corpus, scorer).len() <= corpus.len(),
    decreases corpus.len(),
{
    lemma_results_len(survivors(corpus, scorer), take);
    if corpus.len() > 0 {
        lemma_search_len(corpus.drop_last(), scorer, take);
    }
}

/// Runs [`score_one`] on every record, on rayon's worker pool.
///
/// Calls `par_iter`, `map` and `collect` of rayon. A parallel iterator over a
/// vector is indexed, `map` keeps it so, and collecting an indexed iterator
/// into a vector writes each item at its index: the result has one entry per
/// record, in the order of the records, whichever worker computed it.
#[verifier::external_body]
fn score_all<S: SimilarityMethod + Sync>(scorer: &S, messages: &Vec<Message>) -> (results: Vec<
    Option<MessageResult>,
>)
    ensures
        results@.len() == messages@.len(),
        forall|i: int|
            0 <= i < messages@.len() ==> #[trigger] results@[i] == scored(scorer, messages@[i]@),
{
    messages.par_iter().map(|message| score_one(scorer, message)).collect()
}

/// Filters every record and scores those that pass; the records are handed
/// out to worker threads, and what comes back is put in the order of the
/// corpus.
pub fn scan<S: SimilarityMethod + Sync>(messages: &Vec<Message>, scorer: &S) -> (found: Vec<
    MessageResult,
>)
    ensures
        found@ == survivors(corpus_view(messages@), scorer),
{
    let results = score_all(scorer, messages);
    let ghost corpus = corpus_view(messages@);
    let mut found: Vec<MessageResult> = Vec::new();
    let mut i: usize = 0;
    while i < results.len()
        invariant
            i <= results.len() == messages.len(),
            corpus == corpus_view(messages@),
            forall|k: int|
                0 <= k < messages@.len() ==> #[trigger] results@[k] == scored(
                    scorer,
                    messages@[k]@,
                ),
            found@ == survivors(corpus.take(i as int), scorer),
        decreases results.len() - i,
    {
        assert(corpus.take(i + 1).drop_last() == corpus.take(i as int));
        assert(corpus.take(i + 1).last() == messages@[i as int]@);
        match results[i] {
            Some(result) => {
                found.push(result);
            },
            None => {},
        }
        i = i + 1;
    }
    assert(corpus.take(corpus.len() as int) == corpus);
    found
}

} // verus!
