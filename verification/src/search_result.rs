//! What a search returns for each document it found.

use crate::document::Document;
use crate::fraction::Fraction;
use crate::weight::{NormPart, ScorePart, TermWeight};
use vstd::prelude::*;

verus! {

/// The exact parts of a document's score for a query. The raw score is the
/// sum of the matches; the score is the raw score divided by the product of
/// the document's norm and the query's norm, where a norm is the square root
/// of the sum of the squares of its components and a document without a
/// stored norm has the norm one.
#[derive(Debug)]
pub struct Score {
    /// One part for each term of the query that the document holds.
    pub matches: Vec<ScorePart>,
    /// The components of the document's stored norm, if it has one.
    pub document_norm: Option<Vec<NormPart>>,
    /// The components of the query's norm: its weight vector.
    pub query_norm: Vec<TermWeight>,
}

/// The mathematical content of a `Score`.
pub struct ScoreContent {
    pub matches: Seq<ScorePart>,
    pub document_norm: Option<Seq<NormPart>>,
    pub query_norm: Seq<TermWeight>,
}

impl DeepView for Score {
    type V = ScoreContent;

    open spec fn deep_view(&self) -> ScoreContent {
        ScoreContent {
            matches: self.matches.deep_view(),
            document_norm: self.document_norm.deep_view(),
            query_norm: self.query_norm.deep_view(),
        }
    }
}

/// A document found by a search.
#[derive(Debug)]
pub struct SearchResult {
    pub document: Document,
    /// The square of the score, exactly. The results are ranked by it.
    pub score: Fraction,
    /// The parts from which the score was computed.
    pub parts: Score,
    pub query_tokens: Vec<String>,
    pub matched_lines: Vec<String>,
    pub file_type: String,
}

impl Score {
    /// A score without parts.
    pub fn new() -> (score: Score)
        ensures
            score.deep_view() == (ScoreContent {
                matches: Seq::empty(),
                document_norm: None,
                query_norm: Seq::empty(),
            }),
    {
        let score = Score { matches: Vec::new(), document_norm: None, query_norm: Vec::new() };
        assert(score.matches.deep_view() =~= Seq::empty());
        assert(score.query_norm.deep_view() =~= Seq::empty());
        score
    }
}

impl SearchResult {
    /// A result for a document with the given score and nothing else.
    pub fn new(document_path: Document, score: Fraction) -> (result: SearchResult)
        ensures
            result.document == document_path,
            result.score == score,
            result.parts.deep_view() == (ScoreContent {
                matches: Seq::empty(),
                document_norm: None,
                query_norm: Seq::empty(),
            }),
            result.query_tokens@.len() == 0,
            result.matched_lines@.len() == 0,
            result.file_type@.len() == 0,
    {
        SearchResult {
            document: document_path,
            score,
            parts: Score::new(),
            query_tokens: Vec::new(),
            matched_lines: Vec::new(),
            file_type: String::new(),
        }
    }
}

} // verus!
