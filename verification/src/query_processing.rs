//! Queries: from a raw query to its tokens, its weight vector, the candidate
//! documents, and their ranking.

use crate::document::{Document, Term};
use crate::index_storage::Index;
use crate::json_serialization::Duplicate;
use crate::lookup::find;
use crate::model::{
    lemma_position, lookup, position, upsert, weight_of, Inverted, Norms, Postings, Weights,
};
use crate::ranking::{documents_of, ranked, sort_by_score};
use crate::scoring::{score_square, score_square_of};
use crate::search_result::{Score, ScoreContent, SearchResult};
use crate::seq_facts::lemma_filter_next;
use crate::soundness::lemma_sound_answers;
use crate::text_processing::{chars_of, normalize, normalized};
use crate::unicode::{is_whitespace, is_whitespace_char, string_of};
use crate::weight::{ScorePart, TermWeight, Weight};
use vstd::prelude::*;

verus! {

/// The run of characters that are not whitespace at the end of a text.
pub open spec fn open_word(text: Seq<char>) -> Seq<char>
    decreases text.len(),
{
    if text.len() == 0 || is_whitespace_char(text.last()) {
        Seq::empty()
    } else {
        open_word(text.drop_last()).push(text.last())
    }
}

/// The words of a text that whitespace has ended, in order.
pub open spec fn closed_words(text: Seq<char>) -> Seq<Seq<char>>
    decreases text.len(),
{
    if text.len() == 0 {
        Seq::empty()
    } else if is_whitespace_char(text.last()) && open_word(text.drop_last()).len() > 0 {
        closed_words(text.drop_last()).push(open_word(text.drop_last()))
    } else {
        closed_words(text.drop_last())
    }
}

/// The maximal runs of characters that are not whitespace, in order.
pub open spec fn words(text: Seq<char>) -> Seq<Seq<char>> {
    if open_word(text).len() > 0 {
        closed_words(text).push(open_word(text))
    } else {
        closed_words(text)
    }
}

/// Splits a query at whitespace.
pub fn tokenize_query(query: &str) -> (tokens: Vec<String>)
    ensures
        tokens.deep_view() == words(query@),
{
    let chars = chars_of(query);
    let mut tokens: Vec<String> = Vec::new();
    let mut word: Vec<char> = Vec::new();
    let mut i: usize = 0;
    assert(tokens.deep_view() =~= Seq::empty());
    while i < chars.len()
        invariant
            i <= chars.len(),
            chars@ == query@,
            tokens.deep_view() == closed_words(chars@.subrange(0, i as int)),
            word@ == open_word(chars@.subrange(0, i as int)),
        decreases chars.len() - i,
    {
        proof {
            let next = chars@.subrange(0, i + 1);
            assert(next.drop_last() =~= chars@.subrange(0, i as int));
            assert(next.last() == chars@[i as int]);
        }
        if is_whitespace(chars[i]) {
            if word.len() > 0 {
                let ghost before = tokens.deep_view();
                let token = string_of(&word);
                tokens.push(token);
                assert(tokens.deep_view() =~= before.push(word@));
                word = Vec::new();
            }
        } else {
            word.push(chars[i]);
        }
        i += 1;
    }
    assert(chars@.subrange(0, i as int) =~= chars@);
    if word.len() > 0 {
        let ghost before = tokens.deep_view();
        let token = string_of(&word);
        tokens.push(token);
        assert(tokens.deep_view() =~= before.push(word@));
    }
    tokens
}

/// The weight vector of a query: each distinct token, in order of first
/// occurrence, with the number of its occurrences and its weight.
pub open spec fn query_weights(tokens: Seq<Seq<char>>, weights: Weights) -> Seq<
    (Seq<char>, TermWeight),
>
    decreases tokens.len(),
{
    if tokens.len() == 0 {
        Seq::empty()
    } else {
        let before = query_weights(tokens.drop_last(), weights);
        let seen: int = match lookup(before, tokens.last()) {
            Some(entry) => entry.count as int,
            None => 0,
        };
        upsert(
            before,
            tokens.last(),
            TermWeight { count: (seen + 1) as u64, weight: weight_of(weights, tokens.last()) },
        )
    }
}

/// No term of a weight vector is counted more often than there are tokens.
pub proof fn lemma_query_weights_counts(tokens: Seq<Seq<char>>, weights: Weights)
    ensures
        forall|i: int|
            0 <= i < query_weights(tokens, weights).len() ==> (#[trigger] query_weights(
                tokens,
                weights,
            )[i]).1.count <= tokens.len(),
    decreases tokens.len(),
{
    if tokens.len() > 0 {
        let before = query_weights(tokens.drop_last(), weights);
        lemma_query_weights_counts(tokens.drop_last(), weights);
        lemma_position(before, tokens.last());
        let after = query_weights(tokens, weights);
        assert forall|i: int| 0 <= i < after.len() implies (#[trigger] after[i]).1.count
            <= tokens.len() by {
            if i < before.len() && i != position(before, tokens.last()) {
                assert(after[i] == before[i]);
            } else if i < before.len() {
                assert(before[i].1.count <= tokens.len() - 1);
            }
        }
    }
}

/// The weight vector of the given tokens under the weights of an index.
pub fn weigh_tokens(tokens: &Vec<String>, index: &Index) -> (vector: Vec<(Term, TermWeight)>)
    ensures
        vector.deep_view() == query_weights(tokens.deep_view(), index.weights()),
{
    let mut vector: Vec<(Term, TermWeight)> = Vec::new();
    let mut i: usize = 0;
    assert(vector.deep_view() =~= Seq::empty());
    while i < tokens.len()
        invariant
            i <= tokens.len(),
            vector.deep_view() == query_weights(
                tokens.deep_view().subrange(0, i as int),
                index.weights(),
            ),
        decreases tokens.len() - i,
    {
        let ghost before = vector.deep_view();
        proof {
            let next = tokens.deep_view().subrange(0, i + 1);
            assert(next.drop_last() =~= tokens.deep_view().subrange(0, i as int));
            assert(next.last() == tokens[i as int]@);
            lemma_position(before, tokens[i as int]@);
            lemma_position(index.weights(), tokens[i as int]@);
            lemma_query_weights_counts(tokens.deep_view().subrange(0, i as int), index.weights());
        }
        let weight = match find(&index.idf, &tokens[i]) {
            Some(k) => index.idf[k].1,
            None => Weight::one(),
        };
        match find(&vector, &tokens[i]) {
            Some(at) => {
                assert(before[at as int].1.count <= i);
                let entry = TermWeight { count: vector[at].1.count + 1, weight };
                vector[at].1 = entry;
                assert(vector.deep_view() =~= upsert(before, tokens[i as int]@, entry));
            },
            None => {
                let entry = TermWeight { count: 1, weight };
                vector.push((Term(tokens[i].clone()), entry));
                assert(vector.deep_view() =~= upsert(before, tokens[i as int]@, entry));
            },
        }
        i += 1;
    }
    assert(tokens.deep_view().subrange(0, i as int) =~= tokens.deep_view());
    vector
}

/// The weight vector of a query: the query is normalized, and each of its
/// tokens adds the token's weight once.
pub fn calculate_query_tfidf(query: &str, index: &Index) -> (vector: Vec<(Term, TermWeight)>)
    ensures
        vector.deep_view() == query_weights(normalized(query@), index.weights()),
{
    let tokens = normalize(query);
    weigh_tokens(&tokens, index)
}

/// A query: its text, its normalized tokens and its weight vector.
pub struct Query {
    pub raw: String,
    pub tokens: Vec<String>,
    pub tf_idf: Vec<(Term, TermWeight)>,
}

impl Query {
    /// Normalizes a query and weighs its tokens under the index.
    pub fn new(query: &str, index: &Index) -> (made: Query)
        ensures
            made.raw@ == query@,
            made.tokens.deep_view() == normalized(query@),
            made.tf_idf.deep_view() == query_weights(normalized(query@), index.weights()),
    {
        let tokens = normalize(query);
        let tf_idf = weigh_tokens(&tokens, index);
        Query { raw: query.to_owned(), tokens, tf_idf }
    }
}

/// The documents found so far, and after them those of the postings that
/// were not among them, in the order of the postings.
pub open spec fn with_documents(found: Seq<Seq<char>>, postings: Postings) -> Seq<Seq<char>>
    decreases postings.len(),
{
    if postings.len() == 0 {
        found
    } else {
        let before = with_documents(found, postings.drop_last());
        if before.contains(postings.last().0) {
            before
        } else {
            before.push(postings.last().0)
        }
    }
}

/// The candidate documents of a query: every document that holds one of its
/// tokens, once, in the order in which tokens and postings bring them up.
pub open spec fn candidates(tokens: Seq<Seq<char>>, index: Inverted) -> Seq<Seq<char>>
    decreases tokens.len(),
{
    if tokens.len() == 0 {
        Seq::empty()
    } else {
        let before = candidates(tokens.drop_last(), index);
        match lookup(index, tokens.last()) {
            Some(postings) => with_documents(before, postings),
            None => before,
        }
    }
}

/// Whether a list of documents holds the one with the given path.
pub fn contains_document(documents: &Vec<Document>, path: &String) -> (found: bool)
    ensures
        found == documents.deep_view().contains(path@),
{
    let mut i: usize = 0;
    while i < documents.len()
        invariant
            i <= documents.len(),
            forall|k: int| 0 <= k < i ==> documents.deep_view()[k] != path@,
        decreases documents.len() - i,
    {
        if documents[i].path == *path {
            assert(documents.deep_view()[i as int] == path@);
            return true;
        }
        i += 1;
    }
    false
}

/// The candidate documents of a query: the union, over its tokens, of the
/// documents that hold the token.
pub fn retrieve_candidate_documents(query: &Query, index: &Index) -> (found: Vec<Document>)
    ensures
        found.deep_view() == candidates(query.tokens.deep_view(), index.postings()),
{
    let mut found: Vec<Document> = Vec::new();
    let mut i: usize = 0;
    assert(found.deep_view() =~= Seq::empty());
    while i < query.tokens.len()
        invariant
            i <= query.tokens.len(),
            found.deep_view() == candidates(
                query.tokens.deep_view().subrange(0, i as int),
                index.postings(),
            ),
        decreases query.tokens.len() - i,
    {
        proof {
            let next = query.tokens.deep_view().subrange(0, i + 1);
            assert(next.drop_last() =~= query.tokens.deep_view().subrange(0, i as int));
            assert(next.last() == query.tokens[i as int]@);
            lemma_position(index.postings(), query.tokens[i as int]@);
        }
        match find(&index.inverted_index, &query.tokens[i]) {
            Some(at) => {
                let ghost before = found.deep_view();
                let ghost held = index.postings()[at as int].1;
                let mut j: usize = 0;
                assert(held.subrange(0, 0) =~= Seq::empty());
                while j < index.inverted_index[at].1.len()
                    invariant
                        at < index.inverted_index.len(),
                        j <= index.inverted_index[at as int].1.len(),
                        held == index.postings()[at as int].1,
                        held.len() == index.inverted_index[at as int].1.len(),
                        found.deep_view() == with_documents(before, held.subrange(0, j as int)),
                    decreases index.inverted_index[at as int].1.len() - j,
                {
                    proof {
                        let next = held.subrange(0, j + 1);
                        assert(next.drop_last() =~= held.subrange(0, j as int));
                        assert(next.last() == held[j as int]);
                    }
                    if !contains_document(&found, &index.inverted_index[at].1[j].0.path) {
                        let ghost so_far = found.deep_view();
                        found.push(index.inverted_index[at].1[j].0.clone());
                        assert(found.deep_view() =~= so_far.push(held[j as int].0));
                    }
                    j += 1;
                }
                assert(held.subrange(0, j as int) =~= held);
            },
            None => {},
        }
        i += 1;
    }
    assert(query.tokens.deep_view().subrange(0, i as int) =~= query.tokens.deep_view());
    found
}

/// The parts of a document's raw score: one for each term of the weight
/// vector that the document holds, in the vector's order.
pub open spec fn score_parts(
    vector: Seq<(Seq<char>, TermWeight)>,
    index: Inverted,
    weights: Weights,
    document: Seq<char>,
) -> Seq<ScorePart>
    decreases vector.len(),
{
    if vector.len() == 0 {
        Seq::empty()
    } else {
        let before = score_parts(vector.drop_last(), index, weights, document);
        let held = match lookup(index, vector.last().0) {
            Some(postings) => lookup(postings, document),
            None => None,
        };
        match held {
            Some(count) => before.push(
                ScorePart {
                    query: vector.last().1,
                    frequency: count,
                    weight: weight_of(weights, vector.last().0),
                },
            ),
            None => before,
        }
    }
}

/// The second components of a weight vector, in order.
pub open spec fn term_weights(vector: Seq<(Seq<char>, TermWeight)>) -> Seq<TermWeight> {
    vector.map_values(|entry: (Seq<char>, TermWeight)| entry.1)
}

/// The score of a document for a weight vector, in exact parts.
pub open spec fn score_view(
    vector: Seq<(Seq<char>, TermWeight)>,
    index: Inverted,
    weights: Weights,
    norms: Norms,
    document: Seq<char>,
) -> ScoreContent {
    ScoreContent {
        matches: score_parts(vector, index, weights, document),
        document_norm: lookup(norms, document),
        query_norm: term_weights(vector),
    }
}

/// The documents, among the given ones, that hold a term of the weight
/// vector.
pub open spec fn matching(
    documents: Seq<Seq<char>>,
    vector: Seq<(Seq<char>, TermWeight)>,
    index: Inverted,
    weights: Weights,
) -> Seq<Seq<char>> {
    documents.filter(|d: Seq<char>| score_parts(vector, index, weights, d).len() > 0)
}

/// The exact parts of a document's score for a weight vector.
pub fn score_document(
    document: &Document,
    query_tfidf: &Vec<(Term, TermWeight)>,
    index: &Index,
) -> (score: Score)
    ensures
        score.deep_view() == score_view(
            query_tfidf.deep_view(),
            index.postings(),
            index.weights(),
            index.norms(),
            document@,
        ),
{
    let ghost vector = query_tfidf.deep_view();
    let mut matches: Vec<ScorePart> = Vec::new();
    let mut query_norm: Vec<TermWeight> = Vec::new();
    let mut i: usize = 0;
    assert(matches.deep_view() =~= Seq::empty());
    while i < query_tfidf.len()
        invariant
            i <= query_tfidf.len(),
            vector == query_tfidf.deep_view(),
            matches.deep_view() == score_parts(
                vector.subrange(0, i as int),
                index.postings(),
                index.weights(),
                document@,
            ),
            query_norm.deep_view() == term_weights(vector.subrange(0, i as int)),
        decreases query_tfidf.len() - i,
    {
        let ghost term = vector[i as int].0;
        proof {
            let next = vector.subrange(0, i + 1);
            assert(next.drop_last() =~= vector.subrange(0, i as int));
            assert(next.last() == vector[i as int]);
            lemma_position(index.postings(), term);
            lemma_position(index.weights(), term);
        }
        let entry = query_tfidf[i].1;
        let ghost norm_before = query_norm.deep_view();
        query_norm.push(entry);
        assert(query_norm.deep_view() =~= term_weights(vector.subrange(0, i + 1))) by {
            assert(query_norm.deep_view() =~= norm_before.push(entry));
        }
        match find(&index.inverted_index, &query_tfidf[i].0.0) {
            Some(at) => {
                proof {
                    lemma_position(index.postings()[at as int].1, document@);
                }
                match find(&index.inverted_index[at].1, &document.path) {
                    Some(j) => {
                        let weight = match find(&index.idf, &query_tfidf[i].0.0) {
                            Some(k) => index.idf[k].1,
                            None => Weight::one(),
                        };
                        let part = ScorePart {
                            query: entry,
                            frequency: index.inverted_index[at].1[j].1,
                            weight,
                        };
                        let ghost before = matches.deep_view();
                        matches.push(part);
                        assert(matches.deep_view() =~= before.push(part));
                    },
                    None => {},
                }
            },
            None => {},
        }
        i += 1;
    }
    assert(vector.subrange(0, i as int) =~= vector);
    proof {
        lemma_position(index.norms(), document@);
    }
    let document_norm = match find(&index.document_norms, &document.path) {
        Some(k) => Some(index.document_norms[k].1.duplicate()),
        None => None,
    };
    Score { matches, document_norm, query_norm }
}

/// Whether a result is the scored form of its document: its parts are the
/// document's score for the weight vector, and its score is their value.
pub open spec fn is_scored(
    result: SearchResult,
    vector: Seq<(Seq<char>, TermWeight)>,
    index: &Index,
) -> bool {
    &&& result.parts.deep_view() == score_view(
        vector,
        index.postings(),
        index.weights(),
        index.norms(),
        result.document@,
    )
    &&& result.score.deep_view() == score_square(result.parts.deep_view())
}

/// Scores the candidate documents that hold a term of the weight vector, in
/// the order of the candidates.
pub fn rank_documents(
    candidate_documents: &Vec<Document>,
    query_tfidf: &Vec<(Term, TermWeight)>,
    index: &Index,
) -> (results: Vec<SearchResult>)
    ensures
        documents_of(results@) == matching(
            candidate_documents.deep_view(),
            query_tfidf.deep_view(),
            index.postings(),
            index.weights(),
        ),
        forall|i: int|
            0 <= i < results.len() ==> is_scored(
                #[trigger] results@[i],
                query_tfidf.deep_view(),
                index,
            ),
        forall|i: int|
            0 <= i < results.len() ==> (#[trigger] results@[i]).query_tokens@.len() == 0
                && results@[i].matched_lines@.len() == 0 && results@[i].file_type@.len() == 0,
{
    let ghost documents = candidate_documents.deep_view();
    let ghost vector = query_tfidf.deep_view();
    let ghost holds = |d: Seq<char>|
        score_parts(vector, index.postings(), index.weights(), d).len() > 0;
    let mut results: Vec<SearchResult> = Vec::new();
    let mut i: usize = 0;
    assert(documents_of(results@) =~= Seq::empty());
    assert(documents.subrange(0, 0) =~= Seq::empty());
    while i < candidate_documents.len()
        invariant
            i <= candidate_documents.len(),
            documents == candidate_documents.deep_view(),
            vector == query_tfidf.deep_view(),
            holds == |d: Seq<char>|
                score_parts(vector, index.postings(), index.weights(), d).len() > 0,
            documents_of(results@) == documents.subrange(0, i as int).filter(holds),
            forall|k: int| 0 <= k < results.len() ==> is_scored(#[trigger] results@[k], vector, index),
            forall|k: int|
                0 <= k < results.len() ==> (#[trigger] results@[k]).query_tokens@.len() == 0
                    && results@[k].matched_lines@.len() == 0 && results@[k].file_type@.len() == 0,
        decreases candidate_documents.len() - i,
    {
        proof {
            lemma_filter_next(documents, holds, i as int);
        }
        let parts = score_document(&candidate_documents[i], query_tfidf, index);
        if parts.matches.len() > 0 {
            let score = score_square_of(&parts);
            let ghost before = results@;
            let result = SearchResult {
                document: candidate_documents[i].clone(),
                score,
                parts,
                query_tokens: Vec::new(),
                matched_lines: Vec::new(),
                file_type: String::new(),
            };
            results.push(result);
            assert(documents_of(results@) =~= documents_of(before).push(documents[i as int]));
        }
        i += 1;
    }
    assert(documents.subrange(0, i as int) =~= documents);
    results
}

/// The documents that a search for the given tokens finds, in the order in
/// which they are scored.
pub open spec fn found_documents(tokens: Seq<Seq<char>>, index: &Index) -> Seq<Seq<char>> {
    matching(
        candidates(tokens, index.postings()),
        query_weights(tokens, index.weights()),
        index.postings(),
        index.weights(),
    )
}

/// Whether results answer a search for the given tokens: they are the found
/// documents, each scored, in ranked order.
pub open spec fn answers(results: Seq<SearchResult>, tokens: Seq<Seq<char>>, index: &Index) -> bool {
    &&& ranked(results)
    &&& documents_of(results).to_multiset() == found_documents(tokens, index).to_multiset()
    &&& forall|i: int|
        0 <= i < results.len() ==> is_scored(
            #[trigger] results[i],
            query_weights(tokens, index.weights()),
            index,
        )
}

/// Answers a query: normalizes it, scores every document that holds one of
/// its tokens, and orders the results by score, highest first, and among
/// equal scores by path. Each result carries the tokens of the query.
pub fn search(query: &str, index: &Index) -> (results: Vec<SearchResult>)
    ensures
        answers(results@, normalized(query@), index),
        results.len() == found_documents(normalized(query@), index).len(),
        forall|i: int|
            0 <= i < results.len() ==> (#[trigger] results@[i]).query_tokens.deep_view()
                == normalized(query@) && results@[i].matched_lines@.len() == 0
                && results@[i].file_type@.len() == 0,
        index.sound() ==> forall|i: int|
            0 <= i < results.len() ==> (#[trigger] results@[i]).score.deep_view().den > 0,
{
    let query = Query::new(query, index);
    let candidate_documents = retrieve_candidate_documents(&query, index);
    let mut scored = rank_documents(&candidate_documents, &query.tf_idf, index);
    let ghost vector = query.tf_idf.deep_view();
    let ghost tokens = query.tokens.deep_view();
    let ghost documents = documents_of(scored@);
    let mut i: usize = 0;
    while i < scored.len()
        invariant
            i <= scored.len(),
            tokens == query.tokens.deep_view(),
            documents_of(scored@) == documents,
            forall|k: int| 0 <= k < scored.len() ==> is_scored(#[trigger] scored@[k], vector, index),
            forall|k: int| 0 <= k < i ==> (#[trigger] scored@[k]).query_tokens.deep_view() == tokens,
            forall|k: int|
                0 <= k < scored.len() ==> (#[trigger] scored@[k]).matched_lines@.len() == 0
                    && scored@[k].file_type@.len() == 0,
        decreases scored.len() - i,
    {
        let ghost before = scored@;
        scored[i].query_tokens = query.tokens.duplicate();
        proof {
            assert forall|k: int| 0 <= k < scored.len() implies is_scored(
                #[trigger] scored@[k],
                vector,
                index,
            ) by {
                if k != i {
                    assert(scored@[k] == before[k]);
                } else {
                    assert(is_scored(before[k], vector, index));
                }
            }
            assert forall|k: int| 0 <= k < i + 1 implies (
            #[trigger] scored@[k]).query_tokens.deep_view() == tokens by {
                if k != i {
                    assert(scored@[k] == before[k]);
                }
            }
            assert forall|k: int| 0 <= k < scored.len() implies (
            #[trigger] scored@[k]).matched_lines@.len() == 0 && scored@[k].file_type@.len()
                == 0 by {
                if k != i {
                    assert(scored@[k] == before[k]);
                } else {
                    assert(before[k].matched_lines@.len() == 0);
                }
            }
            assert(documents_of(scored@) =~= documents_of(before)) by {
                assert forall|k: int| 0 <= k < scored.len() implies documents_of(scored@)[k]
                    == documents_of(before)[k] by {
                    if k != i {
                        assert(scored@[k] == before[k]);
                    }
                }
            }
        }
        i += 1;
    }
    let results = sort_by_score(scored);
    proof {
        results@.to_multiset_ensures();
        scored@.to_multiset_ensures();
        documents_of(results@).to_multiset_ensures();
        documents.to_multiset_ensures();
        assert forall|k: int| 0 <= k < results.len() implies is_scored(
            #[trigger] results@[k],
            vector,
            index,
        ) && results@[k].query_tokens.deep_view() == tokens && results@[k].matched_lines@.len()
            == 0 && results@[k].file_type@.len() == 0 by {
            assert(results@.contains(results@[k]));
            assert(results@.to_multiset().count(results@[k]) > 0);
            assert(scored@.contains(results@[k]));
            let j = choose|j: int| 0 <= j < scored@.len() && scored@[j] == results@[k];
            assert(is_scored(scored@[j], vector, index));
        }
        assert(documents_of(results@).len() == results.len());
        if index.sound() {
            assert(tokens.len() == query.tokens.len());
            lemma_sound_answers(results@, tokens, index);
        }
    }
    results
}

} // verus!
