//! The contract of a scorer, and what a scorer makes of one record.

use crate::message::{project, projection, Message, MessageResult, MessageView};
use vstd::prelude::*;

verus! {

/// A scorer bound to one query and one matching mode.
///
/// Both methods are functions of the scorer and the candidate text alone:
/// `accepts` and `score` name what they return, so that a scan can be
/// described without running it.
pub trait SimilarityMethod {
    /// Whether a candidate text passes the cheap filter that precedes scoring.
    spec fn accepts(&self, text: Seq<char>) -> bool;

    /// The similarity of a candidate text to the query, as the bit pattern
    /// of a real number; a higher number is a closer match.
    spec fn score(&self, text: Seq<char>) -> u64;

    /// Decides whether `text` is scored at all.
    fn filter(&self, text: &str) -> (pass: bool)
        ensures
            pass == self.accepts(text@),
    ;

    /// Scores `text` against the query.
    fn similarity(&self, text: &str) -> (score: u64)
        ensures
            score == self.score(text@),
    ;
}

/// Whether `f` can be called on every text and answers by the characters
/// of the text alone: whatever it may return for one text it returns for
/// every text with the same characters.
pub open spec fn is_function_of_text<R, F: Fn(&str) -> R>(f: F) -> bool {
    &&& forall|text: &str| #[trigger] call_requires(f, (text,))
    &&& forall|a: &str, b: &str, x: R, y: R|
        a@ == b@ && #[trigger] call_ensures(f, (a,), x) && #[trigger] call_ensures(f, (b,), y)
            ==> x == y
}

/// Whether `f` may return `result` for a text with the characters `text`.
pub open spec fn may_return<R, F: Fn(&str) -> R>(f: F, text: Seq<char>, result: R) -> bool {
    exists|other: &str| other@ == text && #[trigger] call_ensures(f, (other,), result)
}

/// A scorer made of two functions: the filter and the measure.
pub struct FnScorer<F: Fn(&str) -> bool, G: Fn(&str) -> u64> {
    pass: F,
    measure: G,
}

impl<F: Fn(&str) -> bool, G: Fn(&str) -> u64> FnScorer<F, G> {
    #[verifier::type_invariant]
    spec fn well_formed(self) -> bool {
        is_function_of_text(self.pass) && is_function_of_text(self.measure)
    }

    /// Makes a scorer that filters with `pass` and scores with `measure`.
    pub fn new(pass: F, measure: G) -> (scorer: Self)
        requires
            is_function_of_text(pass),
            is_function_of_text(measure),
        ensures
            forall|text: &str, passed: bool|
                call_ensures(pass, (text,), passed) ==> scorer.accepts(text@) == passed,
            forall|text: &str, score: u64|
                call_ensures(measure, (text,), score) ==> scorer.score(text@) == score,
    {
        let scorer = FnScorer { pass, measure };
        assert forall|text: &str, passed: bool| call_ensures(pass, (text,), passed) implies
            scorer.accepts(text@) == passed by {
            if scorer.accepts(text@) {
                let other = choose|other: &str|
                    other@ == text@ && call_ensures(scorer.pass, (other,), true);
                assert(call_ensures(pass, (other,), true));
            }
        }
        assert forall|text: &str, score: u64| call_ensures(measure, (text,), score) implies
            scorer.score(text@) == score by {
            let chosen = scorer.score(text@);
            assert(may_return(scorer.measure, text@, score));
            let other = choose|other: &str|
                other@ == text@ && call_ensures(scorer.measure, (other,), chosen);
            assert(call_ensures(measure, (other,), chosen));
        }
        scorer
    }
}

impl<F: Fn(&str) -> bool, G: Fn(&str) -> u64> SimilarityMethod for FnScorer<F, G> {
    closed spec fn accepts(&self, text: Seq<char>) -> bool {
        may_return(self.pass, text, true)
    }

    closed spec fn score(&self, text: Seq<char>) -> u64 {
        choose|score: u64| may_return(self.measure, text, score)
    }

    fn filter(&self, text: &str) -> (pass: bool) {
        proof {
            use_type_invariant(self);
        }
        let pass = (self.pass)(text);
        proof {
            if self.accepts(text@) {
                let other = choose|other: &str|
                    other@ == text@ && call_ensures(self.pass, (other,), true);
                assert(call_ensures(self.pass, (other,), true));
            }
        }
        pass
    }

    fn similarity(&self, text: &str) -> (score: u64) {
        proof {
            use_type_invariant(self);
        }
        let score = (self.measure)(text);
        proof {
            let chosen = self.score(text@);
            assert(may_return(self.measure, text@, score));
            let other = choose|other: &str|
                other@ == text@ && call_ensures(self.measure, (other,), chosen);
            assert(call_ensures(self.measure, (other,), chosen));
        }
        score
    }
}

/// What a scan makes of one record: nothing if the scorer's filter rejects
/// its text, else the record with its score.
pub open spec fn scored<S: SimilarityMethod>(scorer: &S, message: MessageView) -> Option<
    MessageResult,
> {
    if scorer.accepts(message.message) {
        Some(projection(message, scorer.score(message.message)))
    } else {
        None
    }
}

/// Filters one record and, if it passes, scores it.
pub fn score_one<S: SimilarityMethod>(scorer: &S, message: &Message) -> (result: Option<
    MessageResult,
>)
    ensures
        result == scored(scorer, message@),
{
    if scorer.filter(message.message.as_str()) {
        Some(project(message, scorer.similarity(message.message.as_str())))
    } else {
        None
    }
}

} // verus!
