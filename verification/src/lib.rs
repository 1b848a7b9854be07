//! Word-frequency analytics over free-form text.
//!
//! The engine tokenizes text on whitespace, normalizes each token to its
//! lowercase alphabetic-only form, counts occurrences of each normalized
//! word, and exposes a ranked (stop-word-free, count-descending) view
//! together with total word and grapheme-aware character counts.
#![verifier::loop_isolation(false)]

pub mod analytics;
pub mod book;
pub mod stop_words;
pub mod text;

pub use analytics::Analytics;
pub use book::Book;
