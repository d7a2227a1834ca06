//! A small keyword search engine over short web documents.
//!
//! Documents are tokenized into normalized token sequences, persisted by a
//! swappable document store, and answered to keyword queries with a list of
//! matching documents ranked by integer fixed-point cosine similarity.

pub mod ranking;
pub mod similarity;
pub mod storage;
pub mod tokenizer;

pub use similarity::cosine_similarity;
