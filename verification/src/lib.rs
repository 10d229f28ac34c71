//! An in-memory fuzzy text search over a corpus of short recognised text
//! fragments: query normalisation, a memoised scan with one of two matching
//! modes, and a deterministic top-K ranking.

pub mod engine;
pub mod message;
pub mod number;
pub mod order;
pub mod query;
pub mod ranking;
pub mod scan;
pub mod scorer;

pub use engine::{
    load_messages, recall, remember, search, search_cached, search_partial_contains,
    search_similar, Mode, SearchEngine,
};
pub use message::{Message, MessageResult};
pub use query::convert_query;
pub use ranking::rank;
pub use scan::scan;
pub use scorer::{FnScorer, SimilarityMethod};
