//! The records of the corpus and the results that a search returns.

use vstd::prelude::*;

verus! {

/// One recognised text fragment of the corpus.
///
/// `page`, `correct` and the four coordinates of `rects` are real numbers,
/// held as bit patterns (see [`crate::number`]).
#[derive(Debug)]
pub struct Message {
    /// The identifier that the caller gave the fragment.
    pub article_id: usize,
    /// The page the fragment was read from.
    pub page: u64,
    /// The recognised text.
    pub message: String,
    /// How confident the recognition was; it only breaks ties.
    pub correct: u64,
    /// Left, top, right and bottom of the fragment on its page.
    pub rects: [u64; 4],
}

/// What a [`Message`] is to the contracts: its fields, the text as its
/// sequence of characters.
pub struct MessageView {
    /// The identifier.
    pub article_id: usize,
    /// The page, as a bit pattern.
    pub page: u64,
    /// The characters of the text.
    pub message: Seq<char>,
    /// The confidence, as a bit pattern.
    pub correct: u64,
    /// The rectangle, as four bit patterns.
    pub rects: [u64; 4],
}

impl View for Message {
    type V = MessageView;

    open spec fn view(&self) -> MessageView {
        MessageView {
            article_id: self.article_id,
            page: self.page,
            message: self.message@,
            correct: self.correct,
            rects: self.rects,
        }
    }
}

impl Clone for Message {
    fn clone(&self) -> (copy: Message)
        ensures
            copy@ == self@,
    {
        Message {
            article_id: self.article_id,
            page: self.page,
            message: self.message.clone(),
            correct: self.correct,
            rects: self.rects,
        }
    }
}

/// The views of a sequence of records, in the same order.
pub open spec fn corpus_view(messages: Seq<Message>) -> Seq<MessageView> {
    Seq::new(messages.len(), |i: int| messages[i]@)
}

/// One record together with the score that a search gave it.
#[derive(Clone, Copy, Debug)]
pub struct MessageResult {
    /// The record's identifier.
    pub id: usize,
    /// The record's page.
    pub page: u64,
    /// The record's recognition confidence.
    pub correct: u64,
    /// The similarity of the record's text to the query.
    pub score: u64,
    /// The record's rectangle.
    pub rects: [u64; 4],
}

/// The result that stands for `message` once it has been given `score`.
pub open spec fn projection(message: MessageView, score: u64) -> MessageResult {
    MessageResult {
        id: message.article_id,
        page: message.page,
        correct: message.correct,
        score,
        rects: message.rects,
    }
}

/// Pairs a record with its score.
pub fn project(message: &Message, score: u64) -> (result: MessageResult)
    ensures
        result == projection(message@, score),
{
    MessageResult {
        id: message.article_id,
        page: message.page,
        correct: message.correct,
        score,
        rects: message.rects,
    }
}

} // verus!
