use fast_search::{
    load_messages, recall, remember, scan, search, search_cached, search_partial_contains,
    search_similar, FnScorer, Message, MessageResult, Mode, SearchEngine,
};
use std::sync::atomic::{AtomicUsize, Ordering};

fn message(id: usize, text: &str, correct: f64) -> Message {
    Message {
        article_id: id,
        page: 1.0f64.to_bits(),
        message: text.to_string(),
        correct: correct.to_bits(),
        rects: [0.0f64.to_bits(), 0.0f64.to_bits(), 10.0f64.to_bits(), 5.0f64.to_bits()],
    }
}

fn ids(results: &Vec<MessageResult>) -> Vec<usize> {
    results.iter().map(|r| r.id).collect()
}

/// How many characters two texts share at the same place, out of the
/// longer one's length, in percent.
fn likeness(query: &str, text: &str) -> f64 {
    let same = query.chars().zip(text.chars()).filter(|(a, b)| a == b).count();
    let longer = query.chars().count().max(text.chars().count()).max(1);
    100.0 * same as f64 / longer as f64
}

/// 100 if the text holds the query, else 0.
fn containment(query: &str, text: &str) -> f64 {
    if text.contains(query) {
        100.0
    } else {
        0.0
    }
}

#[test]
fn containment_query_returns_both_and_orders_the_tie_by_confidence() {
    let mut engine = SearchEngine::new();
    load_messages(
        &mut engine,
        vec![message(1, "goodbye world", 0.5), message(2, "hello world", 0.9)],
    );
    let scorer = FnScorer::new(
        |text: &str| text.contains("world"),
        |text: &str| containment("world", text).to_bits(),
    );
    let results = search_partial_contains(&mut engine, &scorer, "world", 2);
    assert_eq!(ids(&results), vec![2, 1]);
    assert_eq!(f64::from_bits(results[0].correct), 0.9);
    assert_eq!(f64::from_bits(results[1].correct), 0.5);
    assert_eq!(f64::from_bits(results[0].score), 100.0);
    assert_eq!(f64::from_bits(results[1].score), 100.0);
}

#[test]
fn search_ranks_what_passes_and_cuts_it_off() {
    let mut engine = SearchEngine::new();
    load_messages(
        &mut engine,
        vec![
            message(1, "abcd", 0.5),
            message(2, "abxx", 0.5),
            message(3, "zzzz", 0.5),
            message(4, "abcx", 0.5),
            message(5, "q", 0.5),
        ],
    );
    let scorer = FnScorer::new(
        |text: &str| text.len() == 4,
        |text: &str| likeness("abcd", text).to_bits(),
    );
    let all = search(&engine, &scorer, 10);
    assert_eq!(ids(&all), vec![1, 4, 2, 3]);
    let scores: Vec<f64> = all.iter().map(|r| f64::from_bits(r.score)).collect();
    assert_eq!(scores, vec![100.0, 75.0, 50.0, 0.0]);
    assert_eq!(ids(&search(&engine, &scorer, 2)), vec![1, 4]);
    assert!(search(&engine, &scorer, 0).is_empty());
}

#[test]
fn search_is_the_same_every_time() {
    let mut engine = SearchEngine::new();
    load_messages(
        &mut engine,
        (0..5_000).map(|i| message(i, &format!("entry {}", i % 97), (i % 7) as f64)).collect(),
    );
    let scorer = FnScorer::new(
        |text: &str| !text.ends_with('3'),
        |text: &str| likeness("entry 42", text).to_bits(),
    );
    let first = ids(&search(&engine, &scorer, 25));
    assert_eq!(first.len(), 25);
    for _ in 0..4 {
        assert_eq!(ids(&search(&engine, &scorer, 25)), first);
    }
}

#[test]
fn search_does_not_remember() {
    let mut engine = SearchEngine::new();
    load_messages(&mut engine, vec![message(1, "one", 0.5)]);
    let calls = AtomicUsize::new(0);
    let scorer = FnScorer::new(
        |_: &str| {
            calls.fetch_add(1, Ordering::SeqCst);
            true
        },
        |_: &str| 1.0f64.to_bits(),
    );
    search(&engine, &scorer, 1);
    search(&engine, &scorer, 1);
    assert_eq!(calls.load(Ordering::SeqCst), 2);
}

#[test]
fn asking_twice_gives_the_same_answer_without_a_second_scan() {
    let mut engine = SearchEngine::new();
    load_messages(
        &mut engine,
        vec![message(1, "abcd", 0.1), message(2, "abcf", 0.9), message(3, "abce", 0.9)],
    );
    let calls = AtomicUsize::new(0);
    let scorer = FnScorer::new(
        |_: &str| {
            calls.fetch_add(1, Ordering::SeqCst);
            true
        },
        |text: &str| likeness("abcx", text).to_bits(),
    );
    let first = search_similar(&mut engine, &scorer, "abcx", 3);
    assert_eq!(calls.load(Ordering::SeqCst), 3);
    let second = search_similar(&mut engine, &scorer, "abcx", 3);
    assert_eq!(calls.load(Ordering::SeqCst), 3);
    assert_eq!(ids(&first), vec![2, 3, 1]);
    assert_eq!(ids(&second), ids(&first));
    let scores_first: Vec<u64> = first.iter().map(|r| r.score).collect();
    let scores_second: Vec<u64> = second.iter().map(|r| r.score).collect();
    assert_eq!(scores_first, scores_second);
}

#[test]
fn a_remembered_query_is_not_scored_again_even_by_another_scorer() {
    let mut engine = SearchEngine::new();
    load_messages(&mut engine, vec![message(1, "aa", 0.1), message(2, "ab", 0.2)]);
    let scorer = FnScorer::new(|_: &str| true, |text: &str| likeness("ab", text).to_bits());
    let other = FnScorer::new(|_: &str| false, |_: &str| 0);
    assert_eq!(ids(&search_similar(&mut engine, &scorer, "ab", 5)), vec![2, 1]);
    assert_eq!(ids(&search_similar(&mut engine, &other, "ab", 5)), vec![2, 1]);
}

#[test]
fn the_two_modes_do_not_share_what_they_remember() {
    let mut engine = SearchEngine::new();
    load_messages(
        &mut engine,
        vec![message(1, "world", 0.5), message(2, "hello world", 0.9), message(3, "word", 0.7)],
    );
    let whole = FnScorer::new(|_: &str| true, |text: &str| likeness("world", text).to_bits());
    let inside = FnScorer::new(
        |text: &str| text.contains("world"),
        |text: &str| containment("world", text).to_bits(),
    );
    let similar = search_similar(&mut engine, &whole, "world", 3);
    let contained = search_partial_contains(&mut engine, &inside, "world", 3);
    assert_eq!(ids(&similar), vec![1, 3, 2]);
    assert_eq!(ids(&contained), vec![2, 1]);
    // Each mode still answers from its own memory.
    let nothing = FnScorer::new(|_: &str| false, |_: &str| 0);
    assert_eq!(ids(&search_similar(&mut engine, &nothing, "world", 3)), vec![1, 3, 2]);
    assert_eq!(ids(&search_partial_contains(&mut engine, &nothing, "world", 3)), vec![2, 1]);
}

#[test]
fn a_query_remembered_in_one_mode_is_scanned_in_the_other() {
    let mut engine = SearchEngine::new();
    load_messages(&mut engine, vec![message(1, "alpha", 0.5), message(2, "beta", 0.5)]);
    let calls = AtomicUsize::new(0);
    let counting = FnScorer::new(
        |_: &str| {
            calls.fetch_add(1, Ordering::SeqCst);
            true
        },
        |text: &str| (text.len() as f64).to_bits(),
    );
    search_cached(&mut engine, Mode::PartialContains, &counting, "alpha", 2);
    assert_eq!(calls.load(Ordering::SeqCst), 2);
    search_cached(&mut engine, Mode::Similar, &counting, "alpha", 2);
    assert_eq!(calls.load(Ordering::SeqCst), 4);
    search_cached(&mut engine, Mode::Similar, &counting, "alpha", 2);
    search_cached(&mut engine, Mode::PartialContains, &counting, "alpha", 2);
    assert_eq!(calls.load(Ordering::SeqCst), 4);
}

#[test]
fn a_larger_take_extends_a_remembered_answer() {
    let mut engine = SearchEngine::new();
    load_messages(
        &mut engine,
        (0..20).map(|i| message(i, &format!("t{}", i), (i % 5) as f64)).collect(),
    );
    let scorer = FnScorer::new(
        |text: &str| text != "t7",
        |text: &str| ((text.len() * 10) as f64).to_bits(),
    );
    let one = search_similar(&mut engine, &scorer, "t", 1);
    assert_eq!(ids(&one), vec![14]);
    let nothing = FnScorer::new(|_: &str| false, |_: &str| 0);
    let five = search_similar(&mut engine, &nothing, "t", 5);
    assert_eq!(ids(&five), vec![14, 19, 13, 18, 12]);
    let all = search_similar(&mut engine, &nothing, "t", 100);
    assert_eq!(all.len(), 19);
    assert_eq!(ids(&all)[..5].to_vec(), ids(&five));
    assert!(search_similar(&mut engine, &nothing, "t", 0).is_empty());
}

#[test]
fn queries_are_remembered_by_their_normal_form() {
    let mut engine = SearchEngine::new();
    load_messages(&mut engine, vec![message(1, "ab", 0.5), message(2, "cd", 0.5)]);
    let scorer = FnScorer::new(|_: &str| true, |text: &str| likeness("ab", text).to_bits());
    let nothing = FnScorer::new(|_: &str| false, |_: &str| 0);
    assert_eq!(ids(&search_similar(&mut engine, &scorer, " a b ", 2)), vec![1, 2]);
    assert_eq!(ids(&search_similar(&mut engine, &nothing, "ab", 2)), vec![1, 2]);
    assert_eq!(ids(&search_similar(&mut engine, &nothing, "a\tb\n", 2)), vec![1, 2]);
    assert!(search_similar(&mut engine, &nothing, "a-b", 2).is_empty());
}

#[test]
fn loading_twice_appends_every_record_as_it_was_given() {
    let mut engine = SearchEngine::new();
    assert!(engine.messages().is_empty());
    let first = vec![message(10, "one", 0.1), message(11, "two", 0.2), message(12, "three", 0.3)];
    let second = vec![message(20, "four", 0.4), message(10, "one", 0.1)];
    load_messages(&mut engine, first.clone());
    assert_eq!(engine.messages().len(), 3);
    load_messages(&mut engine, second.clone());
    assert_eq!(engine.messages().len(), 5);
    let expected: Vec<Message> = first.into_iter().chain(second.into_iter()).collect();
    for (held, given) in engine.messages().iter().zip(expected.iter()) {
        assert_eq!(held.article_id, given.article_id);
        assert_eq!(held.page, given.page);
        assert_eq!(held.message, given.message);
        assert_eq!(held.correct, given.correct);
        assert_eq!(held.rects, given.rects);
    }
}

#[test]
fn loading_nothing_changes_nothing() {
    let mut engine = SearchEngine::new();
    load_messages(&mut engine, vec![message(1, "one", 0.1)]);
    load_messages(&mut engine, Vec::new());
    assert_eq!(engine.messages().len(), 1);
}

#[test]
fn a_scan_sees_the_records_of_every_load() {
    let mut engine = SearchEngine::new();
    load_messages(&mut engine, vec![message(1, "x", 0.1), message(2, "x", 0.2)]);
    load_messages(&mut engine, vec![message(3, "x", 0.3)]);
    let scorer = FnScorer::new(|_: &str| true, |_: &str| 1.0f64.to_bits());
    assert_eq!(ids(&search(&engine, &scorer, 10)), vec![3, 2, 1]);
}

#[test]
fn what_is_remembered_stays_when_records_are_loaded() {
    let mut engine = SearchEngine::new();
    load_messages(&mut engine, vec![message(1, "old", 0.1)]);
    let scorer = FnScorer::new(|_: &str| true, |_: &str| 1.0f64.to_bits());
    assert_eq!(ids(&search_similar(&mut engine, &scorer, "old", 10)), vec![1]);
    load_messages(&mut engine, vec![message(2, "new", 0.9)]);
    assert_eq!(ids(&search_similar(&mut engine, &scorer, "old", 10)), vec![1]);
    assert_eq!(ids(&search_similar(&mut engine, &scorer, "other", 10)), vec![2, 1]);
    assert_eq!(ids(&search(&engine, &scorer, 10)), vec![2, 1]);
}

#[test]
fn a_new_engine_answers_with_nothing() {
    let mut engine = SearchEngine::new();
    let scorer = FnScorer::new(|_: &str| true, |_: &str| 1.0f64.to_bits());
    assert!(search(&engine, &scorer, 3).is_empty());
    assert!(search_similar(&mut engine, &scorer, "q", 3).is_empty());
    assert!(search_partial_contains(&mut engine, &scorer, "q", 3).is_empty());
}

#[test]
fn recall_knows_only_what_has_been_answered() {
    let mut engine = SearchEngine::new();
    load_messages(&mut engine, vec![message(1, "ab", 0.5), message(2, "cd", 0.9)]);
    assert!(recall(&engine, Mode::Similar, "ab", 5).is_none());
    let scorer = FnScorer::new(|_: &str| true, |text: &str| likeness("ab", text).to_bits());
    search_similar(&mut engine, &scorer, "ab", 1);
    assert_eq!(ids(&recall(&engine, Mode::Similar, "ab", 5).unwrap()), vec![1, 2]);
    assert_eq!(ids(&recall(&engine, Mode::Similar, " a b", 1).unwrap()), vec![1]);
    assert!(recall(&engine, Mode::Similar, "ab", 0).unwrap().is_empty());
    assert!(recall(&engine, Mode::PartialContains, "ab", 5).is_none());
    assert!(recall(&engine, Mode::Similar, "cd", 5).is_none());
}

#[test]
fn remember_ranks_what_was_found_and_keeps_it() {
    let mut engine = SearchEngine::new();
    load_messages(
        &mut engine,
        vec![message(1, "abc", 0.2), message(2, "abd", 0.8), message(3, "xbc", 0.8)],
    );
    let scorer = FnScorer::new(|_: &str| true, |text: &str| likeness("abd", text).to_bits());
    let found = scan(engine.messages(), &scorer);
    assert_eq!(ids(&found), vec![1, 2, 3]);
    let results = remember(&mut engine, Mode::Similar, "a b d", &found, 2);
    assert_eq!(ids(&results), vec![2, 1]);
    assert_eq!(ids(&recall(&engine, Mode::Similar, "abd", 9).unwrap()), vec![2, 1, 3]);
}

#[test]
fn remember_lets_the_first_answer_win() {
    let mut engine = SearchEngine::new();
    let first = vec![
        MessageResult { id: 1, page: 0, correct: 0, score: 1.0f64.to_bits(), rects: [0; 4] },
        MessageResult { id: 2, page: 0, correct: 0, score: 2.0f64.to_bits(), rects: [0; 4] },
    ];
    let second = vec![
        MessageResult { id: 3, page: 0, correct: 0, score: 3.0f64.to_bits(), rects: [0; 4] },
    ];
    assert_eq!(ids(&remember(&mut engine, Mode::PartialContains, "q", &first, 5)), vec![2, 1]);
    assert_eq!(ids(&remember(&mut engine, Mode::PartialContains, "q", &second, 5)), vec![2, 1]);
    assert_eq!(ids(&recall(&engine, Mode::PartialContains, "q", 5).unwrap()), vec![2, 1]);
    assert_eq!(ids(&remember(&mut engine, Mode::Similar, "q", &second, 5)), vec![3]);
}

#[test]
fn recall_and_remember_answer_as_a_cached_search_does() {
    let corpus: Vec<Message> =
        (0..300).map(|i| message(i, &format!("w{}", i % 17), (i % 3) as f64)).collect();
    let scorer = FnScorer::new(
        |text: &str| text.len() == 3,
        |text: &str| likeness("w12", text).to_bits(),
    );
    let mut whole = SearchEngine::new();
    load_messages(&mut whole, corpus.clone());
    let expected = ids(&search_partial_contains(&mut whole, &scorer, "w 12", 40));

    let mut split = SearchEngine::new();
    load_messages(&mut split, corpus);
    assert!(recall(&split, Mode::PartialContains, "w 12", 40).is_none());
    let found = scan(split.messages(), &scorer);
    let got = ids(&remember(&mut split, Mode::PartialContains, "w 12", &found, 40));
    assert_eq!(got, expected);
    assert_eq!(got.len(), 40);
    assert_eq!(ids(&recall(&split, Mode::PartialContains, "w12", 40).unwrap()), expected);
}
