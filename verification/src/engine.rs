//! The search engine: the corpus, and for each matching mode the rankings
//! that have been computed so far.
//!
//! A ranking is remembered whole, under the normalised query it answers, and
//! cut to the number of results asked for only when it is handed out. So a
//! query that was first asked with a small `take` is answered in full when it
//! is asked again with a larger one. What is remembered stays: records that
//! are loaded later do not show in the answer to a query that was asked
//! before.

use crate::message::{corpus_view, Message, MessageResult, MessageView};
use crate::query::{convert_query, without_whitespace};
use crate::ranking::{
    descends, lemma_ranked_descends, lemma_ranked_holds, lemma_top_descends, rank, ranked, top,
};
use crate::scorer::SimilarityMethod;
use crate::scan::{scan, search_results, survivors};
use vstd::hash_map::StringHashMap;
use vstd::prelude::*;

verus! {

/// The two ways of matching a query against a text.
#[derive(Clone, Copy, Debug)]
pub enum Mode {
    /// How close the whole text is to the whole query.
    Similar,
    /// How well the query matches somewhere inside the text.
    PartialContains,
}

/// Whether every ranking that `memory` holds descends: in none of them an
/// entry is outranked by one behind it.
pub open spec fn all_descend(memory: Map<Seq<char>, Seq<MessageResult>>) -> bool {
    forall|key: Seq<char>| memory.contains_key(key) ==> descends(#[trigger] memory[key])
}

/// What a [`SearchEngine`] is to the contracts.
pub struct EngineView {
    /// The records, in the order they were loaded.
    pub corpus: Seq<MessageView>,
    /// The rankings remembered for whole-text matching, by normalised query.
    pub similar: Map<Seq<char>, Seq<MessageResult>>,
    /// The rankings remembered for matching inside the text.
    pub contains: Map<Seq<char>, Seq<MessageResult>>,
}

impl EngineView {
    /// Whether everything remembered is a ranking that descends.
    pub open spec fn well_formed(self) -> bool {
        all_descend(self.similar) && all_descend(self.contains)
    }

    /// The rankings remembered for `mode`.
    pub open spec fn remembered(self, mode: Mode) -> Map<Seq<char>, Seq<MessageResult>> {
        match mode {
            Mode::Similar => self.similar,
            Mode::PartialContains => self.contains,
        }
    }

    /// The engine after `records` have been loaded: they stand behind the
    /// records that were there, and nothing else has changed.
    pub open spec fn loaded(self, records: Seq<MessageView>) -> EngineView {
        EngineView { corpus: self.corpus + records, ..self }
    }

    /// The ranking that answers the query `key` in `mode` when a scan would
    /// give the ranking `fresh`: the one remembered for the query, or else
    /// `fresh`.
    pub open spec fn answer_with(
        self,
        mode: Mode,
        key: Seq<char>,
        fresh: Seq<MessageResult>,
    ) -> Seq<MessageResult> {
        if self.remembered(mode).contains_key(key) {
            self.remembered(mode)[key]
        } else {
            fresh
        }
    }

    /// The engine after the query `key` has been answered in `mode` when a
    /// scan gave the ranking `fresh`: the ranking that answered the query is
    /// remembered for it, and that is `fresh` only if none was remembered.
    pub open spec fn remembering(
        self,
        mode: Mode,
        key: Seq<char>,
        fresh: Seq<MessageResult>,
    ) -> EngineView {
        let ranking = self.answer_with(mode, key, fresh);
        match mode {
            Mode::Similar => EngineView { similar: self.similar.insert(key, ranking), ..self },
            Mode::PartialContains => EngineView {
                contains: self.contains.insert(key, ranking),
                ..self
            },
        }
    }

    /// The whole ranking that answers the query `key` in `mode`: the one
    /// remembered for it, or else the ranking of what `scorer` finds in the
    /// corpus.
    pub open spec fn ranking_for<S: SimilarityMethod>(
        self,
        mode: Mode,
        key: Seq<char>,
        scorer: &S,
    ) -> Seq<MessageResult> {
        self.answer_with(mode, key, ranked(survivors(self.corpus, scorer)))
    }

    /// The engine after the query `key` has been answered in `mode`: the
    /// ranking that answered it is remembered under `key` for that mode.
    pub open spec fn answered<S: SimilarityMethod>(
        self,
        mode: Mode,
        key: Seq<char>,
        scorer: &S,
    ) -> EngineView {
        self.remembering(mode, key, ranked(survivors(self.corpus, scorer)))
    }
}

/// A query that has been answered is answered the same way from then on:
/// the ranking that answered it is the one remembered, whatever a later scan
/// would find and whatever is loaded in between, and answering it again
/// changes nothing.
pub proof fn lemma_answer_is_remembered(
    engine: EngineView,
    mode: Mode,
    key: Seq<char>,
    first: Seq<MessageResult>,
    second: Seq<MessageResult>,
    records: Seq<MessageView>,
)
    ensures
        ({
            let after = engine.remembering(mode, key, first);
            &&& after.remembered(mode).contains_key(key)
            &&& after.answer_with(mode, key, second) == engine.answer_with(mode, key, first)
            &&& after.loaded(records).answer_with(mode, key, second) == engine.answer_with(
                mode,
                key,
                first,
            )
            &&& after.remembering(mode, key, second) == after
        }),
{
    let after = engine.remembering(mode, key, first);
    let again = after.remembering(mode, key, second);
    assert(again.similar =~= after.similar);
    assert(again.contains =~= after.contains);
}

/// Asking the same query twice in one mode gives the same results both
/// times, whether or not records were loaded in between: the second call is
/// answered by what the first one remembered.
pub proof fn lemma_asking_twice<S: SimilarityMethod, T: SimilarityMethod>(
    engine: EngineView,
    mode: Mode,
    key: Seq<char>,
    first: &S,
    second: &T,
    records: Seq<MessageView>,
    take: usize,
)
    ensures
        ({
            let after = engine.answered(mode, key, first);
            &&& top(after.ranking_for(mode, key, second), take) == top(
                engine.ranking_for(mode, key, first),
                take,
            )
            &&& top(after.loaded(records).ranking_for(mode, key, second), take) == top(
                engine.ranking_for(mode, key, first),
                take,
            )
            &&& after.answered(mode, key, second) == after
        }),
{
    lemma_answer_is_remembered(
        engine,
        mode,
        key,
        ranked(survivors(engine.corpus, first)),
        ranked(survivors(engine.answered(mode, key, first).corpus, second)),
        records,
    );
    lemma_answer_is_remembered(
        engine,
        mode,
        key,
        ranked(survivors(engine.corpus, first)),
        ranked(survivors(engine.answered(mode, key, first).loaded(records).corpus, second)),
        records,
    );
}

/// An engine that remembers only rankings that descend answers with
/// results that descend, and goes on remembering only such rankings.
pub proof fn lemma_answers_descend(
    engine: EngineView,
    mode: Mode,
    key: Seq<char>,
    fresh: Seq<MessageResult>,
    take: usize,
    records: Seq<MessageView>,
)
    requires
        engine.well_formed(),
        descends(fresh),
    ensures
        descends(top(engine.answer_with(mode, key, fresh), take)),
        engine.remembering(mode, key, fresh).well_formed(),
        engine.loaded(records).well_formed(),
{
    lemma_top_descends(engine.answer_with(mode, key, fresh), take);
}

/// The two modes remember apart. Answering a query in one mode leaves the
/// corpus and what the other mode remembers as they were, so a query that
/// the other mode has not answered yet is still answered by that mode's own
/// scan, also where both modes are asked the same query.
pub proof fn lemma_modes_remember_apart(
    engine: EngineView,
    mode: Mode,
    other: Mode,
    key: Seq<char>,
    fresh: Seq<MessageResult>,
    other_key: Seq<char>,
    other_fresh: Seq<MessageResult>,
)
    requires
        mode != other,
    ensures
        ({
            let after = engine.remembering(mode, key, fresh);
            &&& after.corpus == engine.corpus
            &&& after.remembered(other) == engine.remembered(other)
            &&& after.answer_with(other, other_key, other_fresh) == engine.answer_with(
                other,
                other_key,
                other_fresh,
            )
            &&& !engine.remembered(other).contains_key(other_key) ==> after.answer_with(
                other,
                other_key,
                other_fresh,
            ) == other_fresh
        }),
{
}

/// Loading only appends. After two loads the corpus holds what it held, then
/// the records of the first load, then those of the second, each as it was
/// handed in; what is remembered is untouched.
pub proof fn lemma_loading_appends(
    engine: EngineView,
    first: Seq<MessageView>,
    second: Seq<MessageView>,
)
    ensures
        ({
            let after = engine.loaded(first).loaded(second);
            &&& after.corpus.len() == engine.corpus.len() + first.len() + second.len()
            &&& forall|i: int|
                0 <= i < engine.corpus.len() ==> #[trigger] after.corpus[i] == engine.corpus[i]
            &&& forall|i: int|
                0 <= i < first.len() ==> #[trigger] after.corpus[engine.corpus.len() + i]
                    == first[i]
            &&& forall|i: int|
                0 <= i < second.len() ==> #[trigger] after.corpus[engine.corpus.len()
                    + first.len() + i] == second[i]
            &&& after.similar == engine.similar
            &&& after.contains == engine.contains
        }),
{
}

/// The corpus and the remembered rankings.
pub struct SearchEngine {
    messages: Vec<Message>,
    similar: StringHashMap<Vec<MessageResult>>,
    contains: StringHashMap<Vec<MessageResult>>,
}

/// The rankings of a cache as sequences.
spec fn rankings(cache: Map<Seq<char>, Vec<MessageResult>>) -> Map<Seq<char>, Seq<MessageResult>> {
    cache.map_values(|ranking: Vec<MessageResult>| ranking@)
}

impl View for SearchEngine {
    type V = EngineView;

    closed spec fn view(&self) -> EngineView {
        EngineView {
            corpus: corpus_view(self.messages@),
            similar: rankings(self.similar@),
            contains: rankings(self.contains@),
        }
    }
}

impl SearchEngine {
    #[verifier::type_invariant]
    spec fn remembers_rankings(self) -> bool {
        self@.well_formed()
    }

    /// An engine with no records that remembers nothing.
    pub fn new() -> (engine: SearchEngine)
        ensures
            engine@.corpus == Seq::<MessageView>::empty(),
            engine@.similar == Map::<Seq<char>, Seq<MessageResult>>::empty(),
            engine@.contains == Map::<Seq<char>, Seq<MessageResult>>::empty(),
            engine@.well_formed(),
    {
        let engine = SearchEngine {
            messages: Vec::new(),
            similar: StringHashMap::new(),
            contains: StringHashMap::new(),
        };
        assert(engine@.corpus =~= Seq::<MessageView>::empty());
        assert(engine@.similar =~= Map::<Seq<char>, Seq<MessageResult>>::empty());
        assert(engine@.contains =~= Map::<Seq<char>, Seq<MessageResult>>::empty());
        engine
    }

    /// The records of the corpus, in the order they were loaded.
    pub fn messages(&self) -> (messages: &Vec<Message>)
        ensures
            corpus_view(messages@) == self@.corpus,
            self@.well_formed(),
    {
        proof {
            use_type_invariant(self);
        }
        &self.messages
    }
}

/// Copies the first `take` entries of `ranking`, or all of it if it has
/// fewer.
fn first(ranking: &Vec<MessageResult>, take: usize) -> (results: Vec<MessageResult>)
    ensures
        results@ == top(ranking@, take),
{
    let count: usize = if take <= ranking.len() {
        take
    } else {
        ranking.len()
    };
    let mut results: Vec<MessageResult> = Vec::with_capacity(count);
    let mut k: usize = 0;
    while k < count
        invariant
            k <= count <= ranking.len(),
            results@ == ranking@.take(k as int),
        decreases count - k,
    {
        results.push(ranking[k]);
        k = k + 1;
        assert(results@ =~= ranking@.take(k as int));
    }
    assert(ranking@.take(ranking.len() as int) =~= ranking@);
    results
}

/// Takes the engine apart, leaving an empty one in its place, so that a
/// part of it can be changed and the engine put together again.
fn take_apart(engine: &mut SearchEngine) -> (taken: SearchEngine)
    ensures
        taken == *old(engine),
{
    let mut taken = SearchEngine::new();
    core::mem::swap(engine, &mut taken);
    taken
}

/// Puts `ranking` into what is remembered for `mode`, under `key`.
fn store(engine: &mut SearchEngine, mode: Mode, key: String, ranking: Vec<MessageResult>)
    requires
        descends(ranking@),
    ensures
        final(engine)@ == match mode {
            Mode::Similar => EngineView {
                similar: old(engine)@.similar.insert(key@, ranking@),
                ..old(engine)@
            },
            Mode::PartialContains => EngineView {
                contains: old(engine)@.contains.insert(key@, ranking@),
                ..old(engine)@
            },
        },
        final(engine)@.well_formed(),
{
    proof {
        use_type_invariant(&*engine);
    }
    let SearchEngine { messages, mut similar, mut contains } = take_apart(engine);
    match mode {
        Mode::Similar => {
            similar.insert(key, ranking);
            assert(rankings(similar@) =~= old(engine)@.similar.insert(key@, ranking@));
        },
        Mode::PartialContains => {
            contains.insert(key, ranking);
            assert(rankings(contains@) =~= old(engine)@.contains.insert(key@, ranking@));
        },
    }
    *engine = SearchEngine { messages, similar, contains };
}

/// Ranks `found`, remembers the ranking for the query `key`, which has not
/// been answered in `mode` so far, and returns its first `take` entries.
fn settle(
    engine: &mut SearchEngine,
    mode: Mode,
    key: String,
    found: &Vec<MessageResult>,
    take: usize,
) -> (results: Vec<MessageResult>)
    requires
        !old(engine)@.remembered(mode).contains_key(key@),
    ensures
        results@ == top(ranked(found@), take),
        final(engine)@ == old(engine)@.remembering(mode, key@, ranked(found@)),
        final(engine)@.well_formed(),
        descends(results@),
{
    proof {
        lemma_ranked_holds(found@);
        lemma_ranked_descends(found@);
    }
    let ranking = rank(found, found.len());
    assert(ranking@ =~= ranked(found@));
    let results = first(&ranking, take);
    store(engine, mode, key, ranking);
    results
}

/// Looks up the ranking remembered for the normal form `key` in `mode`.
fn lookup<'a>(engine: &'a SearchEngine, mode: Mode, key: &str) -> (found: Option<
    &'a Vec<MessageResult>,
>)
    ensures
        engine@.well_formed(),
        match found {
            Some(ranking) => engine@.remembered(mode).contains_key(key@) && ranking@
                == engine@.remembered(mode)[key@],
            None => !engine@.remembered(mode).contains_key(key@),
        },
{
    proof {
        use_type_invariant(engine);
    }
    match mode {
        Mode::Similar => engine.similar.get(key),
        Mode::PartialContains => engine.contains.get(key),
    }
}

/// Appends `messages` to the corpus. The records that were there stay as
/// they are and keep their places; what has been remembered stays too.
pub fn load_messages(engine: &mut SearchEngine, messages: Vec<Message>)
    ensures
        final(engine)@ == old(engine)@.loaded(corpus_view(messages@)),
        final(engine)@.well_formed(),
{
    proof {
        use_type_invariant(&*engine);
    }
    let mut added = messages;
    let SearchEngine { messages: mut held, similar, contains } = take_apart(engine);
    held.append(&mut added);
    assert(corpus_view(held@) =~= old(engine)@.corpus + corpus_view(messages@));
    *engine = SearchEngine { messages: held, similar, contains };
}

/// Searches the corpus with `scorer` and returns the best `take` results:
/// every record that passes the scorer's filter, ranked by score and then by
/// confidence, cut off after `take` entries. Nothing is remembered and
/// nothing remembered is used.
pub fn search<S: SimilarityMethod + Sync>(
    engine: &SearchEngine,
    scorer: &S,
    take: usize,
) -> (results: Vec<MessageResult>)
    ensures
        results@ == search_results(engine@.corpus, scorer, take),
        descends(results@),
{
    let found = scan(&engine.messages, scorer);
    proof {
        lemma_ranked_descends(found@);
    }
    rank(&found, take)
}

/// Answers `query` in `mode` from what is remembered, if it has been
/// answered before: the first `take` entries of the ranking remembered for
/// its normal form. Nothing is scanned and nothing changes.
pub fn recall(engine: &SearchEngine, mode: Mode, query: &str, take: usize) -> (answer: Option<
    Vec<MessageResult>,
>)
    ensures
        answer is Some <==> engine@.remembered(mode).contains_key(without_whitespace(query@)),
        answer matches Some(results) ==> results@ == top(
            engine@.remembered(mode)[without_whitespace(query@)],
            take,
        ) && descends(results@),
{
    let key = convert_query(query);
    match lookup(engine, mode, key.as_str()) {
        Some(ranking) => {
            proof {
                lemma_top_descends(ranking@, take);
            }
            Some(first(ranking, take))
        },
        None => None,
    }
}

/// Answers `query` in `mode` with what a scan has found, and remembers the
/// answer.
///
/// If the query has been answered in the meantime, the ranking remembered
/// for it stays and answers this call too: of several scans for one query
/// the first to be remembered wins. Otherwise `found` is ranked and the
/// ranking is remembered whole. Either way the first `take` entries are
/// returned.
pub fn remember(
    engine: &mut SearchEngine,
    mode: Mode,
    query: &str,
    found: &Vec<MessageResult>,
    take: usize,
) -> (results: Vec<MessageResult>)
    ensures
        results@ == top(
            old(engine)@.answer_with(mode, without_whitespace(query@), ranked(found@)),
            take,
        ),
        final(engine)@ == old(engine)@.remembering(
            mode,
            without_whitespace(query@),
            ranked(found@),
        ),
        final(engine)@.well_formed(),
        descends(results@),
{
    let key = convert_query(query);
    match lookup(engine, mode, key.as_str()) {
        Some(ranking) => {
            proof {
                let memory = engine@.remembered(mode);
                assert(memory.insert(key@, ranking@) =~= memory);
                lemma_top_descends(ranking@, take);
            }
            return first(ranking, take);
        },
        None => {},
    }
    settle(engine, mode, key, found, take)
}

/// Answers `query` in `mode`, asking for the best `take` results.
///
/// The query is normalised with [`convert_query`]. If a ranking is
/// remembered for the normalised query in this mode, its first `take`
/// entries are the answer and `scorer` is not consulted. Otherwise the corpus
/// is scanned with `scorer`, which has to be the scorer of this mode for the
/// normalised query; what it finds is ranked and remembered whole, and the
/// first `take` entries are the answer.
pub fn search_cached<S: SimilarityMethod + Sync>(
    engine: &mut SearchEngine,
    mode: Mode,
    scorer: &S,
    query: &str,
    take: usize,
) -> (results: Vec<MessageResult>)
    ensures
        results@ == top(old(engine)@.ranking_for(mode, without_whitespace(query@), scorer), take),
        final(engine)@ == old(engine)@.answered(mode, without_whitespace(query@), scorer),
        final(engine)@.well_formed(),
        descends(results@),
{
    let key = convert_query(query);
    match lookup(engine, mode, key.as_str()) {
        Some(ranking) => {
            proof {
                let memory = engine@.remembered(mode);
                assert(memory.insert(key@, ranking@) =~= memory);
                lemma_top_descends(ranking@, take);
            }
            return first(ranking, take);
        },
        None => {},
    }
    let found = scan(&engine.messages, scorer);
    settle(engine, mode, key, &found, take)
}

/// Answers `query` by how close each whole text is to it: see
/// [`search_cached`] with [`Mode::Similar`].
pub fn search_similar<S: SimilarityMethod + Sync>(
    engine: &mut SearchEngine,
    scorer: &S,
    query: &str,
    take: usize,
) -> (results: Vec<MessageResult>)
    ensures
        results@ == top(
            old(engine)@.ranking_for(Mode::Similar, without_whitespace(query@), scorer),
            take,
        ),
        final(engine)@ == old(engine)@.answered(Mode::Similar, without_whitespace(query@), scorer),
        final(engine)@.well_formed(),
        descends(results@),
{
    search_cached(engine, Mode::Similar, scorer, query, take)
}

/// Answers `query` by how well it matches inside each text: see
/// [`search_cached`] with [`Mode::PartialContains`].
pub fn search_partial_contains<S: SimilarityMethod + Sync>(
    engine: &mut SearchEngine,
    scorer: &S,
    query: &str,
    take: usize,
) -> (results: Vec<MessageResult>)
    ensures
        results@ == top(
            old(engine)@.ranking_for(Mode::PartialContains, without_whitespace(query@), scorer),
            take,
        ),
        final(engine)@ == old(engine)@.answered(
            Mode::PartialContains,
            without_whitespace(query@),
            scorer,
        ),
        final(engine)@.well_formed(),
        descends(results@),
{
    search_cached(engine, Mode::PartialContains, scorer, query, take)
}

} // verus!
