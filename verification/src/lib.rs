//! An index over a collection of text documents, and ranked search in it.
//!
//! Text is normalized into tokens (`text_processing`). Documents are ingested
//! into an inverted index with a weight for each term and a norm for each
//! document (`index_storage`). The index is written as JSON and read back
//! (`persistence`). A query is answered with the documents that hold one of
//! its tokens, ranked by the cosine of the angle between the weight vectors
//! of document and query (`query_processing`, `scoring`, `ranking`).
//!
//! Numbers are exact. A weight is the ratio of two counts, a norm is kept as
//! its components, and a score is computed as a fraction of unbounded natural
//! numbers, the square of the cosine. Nothing is rounded, so each function
//! says exactly what it returns. The contracts speak of the mathematical
//! model in `model`; `laws` and `cosine` hold what follows from them.
//!
//! The contracts in `unicode` and `json` are not proved. They say what the
//! standard library and the crates `unicode-segmentation`, `stop-words` and
//! `serde_json` are relied on to do.

pub mod algebra;
pub mod bignat;
pub mod cosine;
pub mod document;
pub mod file_handler;
pub mod fraction;
pub mod index_storage;
pub mod json;
pub mod json_serialization;
pub mod laws;
pub mod lookup;
pub mod model;
pub mod persistence;
pub mod query_processing;
pub mod ranking;
pub mod scoring;
pub mod search_result;
pub mod seq_facts;
pub mod soundness;
pub mod text_processing;
pub mod unicode;
pub mod validation;
pub mod weight;

pub use index_storage::Index;
pub use query_processing::search;
