//! What holds of the index and of searches, whatever their inputs.

use crate::cosine::lemma_score_at_most_one;
use crate::index_storage::Index;
use crate::json_serialization::{
    collected, collected_inverted, lemma_collected_inverted_table, lemma_collected_table,
};
use crate::model::{
    document_frequency, finalized, finalized_index, frequency, ingested_all, inverted_wf, keys,
    lemma_finalized_weight, lemma_lookup_upsert, lemma_position, lemma_position_unique,
    lemma_upsert_unique, lookup, norm_parts, position, unique_keys, upsert, weight_of, weights_wf,
    IndexView, Inverted, Postings, Weights,
};
use crate::query_processing::{
    answers, candidates, found_documents, is_scored, query_weights, score_parts, score_view,
    with_documents,
};
use crate::ranking::{
    documents_of, key_precedes, keys_of, keys_ranked, lemma_ranking_is_unique, precedes,
};
use crate::scoring::score_square;
use crate::search_result::SearchResult;
use crate::seq_facts::{lemma_filter_keeps_all, lemma_filter_no_duplicates, lemma_mapped_multisets};
use crate::weight::{TermWeight, Weight};
use vstd::prelude::*;

verus! {

/// Every ingestion is counted: after a batch of documents the count has
/// grown by the size of the batch, whether or not a document came twice.
pub proof fn lemma_ingestions_are_counted(
    index: IndexView,
    batch: Seq<(Seq<char>, Seq<Seq<char>>)>,
)
    ensures
        ingested_all(index, batch).documents == index.documents + batch.len(),
        ingested_all(index, batch).weights == index.weights,
    decreases batch.len(),
{
    if batch.len() > 0 {
        lemma_ingestions_are_counted(index, batch.drop_last());
    }
}

/// In a well-formed index a term has a frequency in a document exactly where
/// the document stands in the term's postings.
pub proof fn lemma_frequency_is_membership(index: Inverted, term: Seq<char>, document: Seq<char>)
    requires
        inverted_wf(index),
    ensures
        frequency(index, term, document) > 0 <==> (match lookup(index, term) {
            Some(postings) => keys(postings).contains(document),
            None => false,
        }),
{
    lemma_position(index, term);
    let at = position(index, term);
    if at >= 0 {
        let postings = index[at].1;
        lemma_position(postings, document);
        let within = position(postings, document);
        if within >= 0 {
            assert(postings[within].1 >= 1);
            assert(keys(postings)[within] == document);
        } else {
            assert forall|j: int| 0 <= j < keys(postings).len() implies keys(postings)[j]
                != document by {
                assert(postings[j].0 != document);
            }
        }
    }
}

/// The document frequency of a term is the number of distinct documents in
/// which the term has a frequency.
pub proof fn lemma_document_frequency_counts_documents(index: Inverted, term: Seq<char>)
    requires
        inverted_wf(index),
    ensures
        Set::new(|d: Seq<char>| frequency(index, term, d) > 0).finite(),
        Set::new(|d: Seq<char>| frequency(index, term, d) > 0).len() == document_frequency(
            index,
            term,
        ),
{
    let holders = Set::new(|d: Seq<char>| frequency(index, term, d) > 0);
    lemma_position(index, term);
    let at = position(index, term);
    if at >= 0 {
        let postings = index[at].1;
        let listed = keys(postings);
        assert(listed.no_duplicates()) by {
            assert forall|i: int, j: int|
                0 <= i < listed.len() && 0 <= j < listed.len() && i != j implies listed[i]
                != listed[j] by {
                if i < j {
                    assert(postings[i].0 != postings[j].0);
                } else {
                    assert(postings[j].0 != postings[i].0);
                }
            }
        }
        assert(holders =~= listed.to_set()) by {
            assert forall|d: Seq<char>| holders.contains(d) <==> listed.to_set().contains(d) by {
                lemma_frequency_is_membership(index, term, d);
            }
        }
        listed.unique_seq_to_set();
    } else {
        assert(holders =~= Set::empty()) by {
            assert forall|d: Seq<char>| !holders.contains(d) by {
                lemma_frequency_is_membership(index, term, d);
            }
        }
    }
}

/// Whether a document stands in the postings of a term.
pub open spec fn holds_term(index: Inverted, term: Seq<char>, document: Seq<char>) -> bool {
    match lookup(index, term) {
        Some(postings) => keys(postings).contains(document),
        None => false,
    }
}

/// A key is listed exactly where it has a position.
pub proof fn lemma_listed_has_position<V>(entries: Seq<(Seq<char>, V)>, key: Seq<char>)
    ensures
        keys(entries).contains(key) <==> position(entries, key) >= 0,
{
    lemma_position(entries, key);
    let at = position(entries, key);
    if at >= 0 {
        assert(keys(entries)[at] == key);
    } else {
        assert forall|j: int| 0 <= j < keys(entries).len() implies keys(entries)[j] != key by {
            assert(entries[j].0 != key);
        }
    }
}

/// Adding the documents of postings to a list adds exactly those documents,
/// and none twice.
pub proof fn lemma_with_documents(found: Seq<Seq<char>>, postings: Postings, document: Seq<char>)
    ensures
        with_documents(found, postings).contains(document) <==> found.contains(document) || keys(
            postings,
        ).contains(document),
        found.no_duplicates() ==> with_documents(found, postings).no_duplicates(),
    decreases postings.len(),
{
    if postings.len() > 0 {
        let front = postings.drop_last();
        let before = with_documents(found, front);
        let last = postings.last().0;
        lemma_with_documents(found, front, document);
        assert(keys(postings) =~= keys(front).push(last));
        if keys(postings).contains(document) {
            let j = choose|j: int| 0 <= j < keys(postings).len() && keys(postings)[j] == document;
            if j < front.len() {
                assert(keys(front)[j] == document);
            }
        }
        if keys(front).contains(document) {
            let j = choose|j: int| 0 <= j < keys(front).len() && keys(front)[j] == document;
            assert(keys(postings)[j] == document);
        }
        assert(keys(postings)[postings.len() - 1] == last);
        if !before.contains(last) {
            let after = before.push(last);
            assert(after[before.len() as int] == last);
            if after.contains(document) {
                let j = choose|j: int| 0 <= j < after.len() && after[j] == document;
                if j < before.len() {
                    assert(before[j] == document);
                }
            }
            if before.contains(document) {
                let j = choose|j: int| 0 <= j < before.len() && before[j] == document;
                assert(after[j] == document);
            }
            if found.no_duplicates() {
                assert forall|i: int, j: int|
                    0 <= i < after.len() && 0 <= j < after.len() && i != j implies after[i]
                    != after[j] by {
                    if i < before.len() && j < before.len() {
                        assert(before[i] != before[j]);
                    } else if i < before.len() {
                        assert(before[i] == after[i]);
                    } else {
                        assert(before[j] == after[j]);
                    }
                }
            }
        }
    } else {
        assert(keys(postings) =~= Seq::<Seq<char>>::empty());
    }
}

/// The candidates of a query are exactly the documents that stand in the
/// postings of one of its tokens, each once.
pub proof fn lemma_candidates(tokens: Seq<Seq<char>>, index: Inverted, document: Seq<char>)
    ensures
        candidates(tokens, index).contains(document) <==> exists|i: int|
            0 <= i < tokens.len() && holds_term(index, #[trigger] tokens[i], document),
        candidates(tokens, index).no_duplicates(),
    decreases tokens.len(),
{
    if tokens.len() > 0 {
        let front = tokens.drop_last();
        let before = candidates(front, index);
        lemma_candidates(front, index, document);
        match lookup(index, tokens.last()) {
            Some(postings) => {
                lemma_with_documents(before, postings, document);
            },
            None => {},
        }
        if candidates(tokens, index).contains(document) {
            if before.contains(document) {
                let i = choose|i: int|
                    0 <= i < front.len() && holds_term(index, #[trigger] front[i], document);
                assert(tokens[i] == front[i]);
            } else {
                assert(holds_term(index, tokens[tokens.len() - 1], document));
            }
        }
        if exists|i: int| 0 <= i < tokens.len() && holds_term(index, #[trigger] tokens[i], document) {
            let i = choose|i: int|
                0 <= i < tokens.len() && holds_term(index, #[trigger] tokens[i], document);
            if i < front.len() {
                assert(front[i] == tokens[i]);
            }
        }
    } else {
        assert(!candidates(tokens, index).contains(document));
    }
}

/// A document has score parts exactly where it stands in the postings of a
/// term of the weight vector.
pub proof fn lemma_score_parts(
    vector: Seq<(Seq<char>, TermWeight)>,
    index: Inverted,
    weights: Weights,
    document: Seq<char>,
)
    ensures
        score_parts(vector, index, weights, document).len() > 0 <==> exists|k: int|
            0 <= k < vector.len() && holds_term(index, (#[trigger] vector[k]).0, document),
    decreases vector.len(),
{
    if vector.len() > 0 {
        let front = vector.drop_last();
        lemma_score_parts(front, index, weights, document);
        match lookup(index, vector.last().0) {
            Some(postings) => {
                lemma_listed_has_position(postings, document);
            },
            None => {},
        }
        if exists|k: int|
            0 <= k < vector.len() && holds_term(index, (#[trigger] vector[k]).0, document) {
            let k = choose|k: int|
                0 <= k < vector.len() && holds_term(index, (#[trigger] vector[k]).0, document);
            if k < front.len() {
                assert(front[k] == vector[k]);
            }
        }
        if exists|k: int|
            0 <= k < front.len() && holds_term(index, (#[trigger] front[k]).0, document) {
            let k = choose|k: int|
                0 <= k < front.len() && holds_term(index, (#[trigger] front[k]).0, document);
            assert(vector[k] == front[k]);
        }
        if holds_term(index, vector.last().0, document) {
            assert(holds_term(index, vector[vector.len() - 1].0, document));
        }
    }
}

/// Every token of a query is a term of its weight vector.
pub proof fn lemma_tokens_are_weighed(tokens: Seq<Seq<char>>, weights: Weights, i: int)
    requires
        0 <= i < tokens.len(),
    ensures
        position(query_weights(tokens, weights), tokens[i]) >= 0,
    decreases tokens.len(),
{
    let front = tokens.drop_last();
    let before = query_weights(front, weights);
    let seen: int = match lookup(before, tokens.last()) {
        Some(entry) => entry.count as int,
        None => 0,
    };
    let entry = TermWeight {
        count: (seen + 1) as u64,
        weight: weight_of(weights, tokens.last()),
    };
    lemma_lookup_upsert(before, tokens.last(), entry, tokens[i]);
    lemma_position(before, tokens.last());
    if i < front.len() {
        assert(front[i] == tokens[i]);
        lemma_tokens_are_weighed(front, weights, i);
    }
}

/// A search finds exactly the documents in which one of the query's tokens
/// has a frequency, and finds none of them twice.
pub proof fn lemma_found_documents(tokens: Seq<Seq<char>>, index: &Index, document: Seq<char>)
    requires
        inverted_wf(index.postings()),
    ensures
        found_documents(tokens, index) == candidates(tokens, index.postings()),
        found_documents(tokens, index).no_duplicates(),
        found_documents(tokens, index).contains(document) <==> exists|i: int|
            0 <= i < tokens.len() && frequency(index.postings(), #[trigger] tokens[i], document)
                > 0,
{
    let postings = index.postings();
    let weights = index.weights();
    let vector = query_weights(tokens, weights);
    let all = candidates(tokens, postings);
    let pred = |d: Seq<char>| score_parts(vector, postings, weights, d).len() > 0;
    assert forall|n: int| 0 <= n < all.len() implies pred(#[trigger] all[n]) by {
        let d = all[n];
        assert(all.contains(d));
        lemma_candidates(tokens, postings, d);
        let i = choose|i: int|
            0 <= i < tokens.len() && holds_term(postings, #[trigger] tokens[i], d);
        lemma_tokens_are_weighed(tokens, weights, i);
        lemma_position(vector, tokens[i]);
        let k = position(vector, tokens[i]);
        assert(holds_term(postings, vector[k].0, d));
        lemma_score_parts(vector, postings, weights, d);
    }
    lemma_filter_keeps_all(all, pred);
    lemma_candidates(tokens, postings, document);
    if all.contains(document) {
        let i = choose|i: int|
            0 <= i < tokens.len() && holds_term(postings, #[trigger] tokens[i], document);
        lemma_frequency_is_membership(postings, tokens[i], document);
    }
    if exists|i: int|
        0 <= i < tokens.len() && frequency(postings, #[trigger] tokens[i], document) > 0 {
        let i = choose|i: int|
            0 <= i < tokens.len() && frequency(postings, #[trigger] tokens[i], document) > 0;
        lemma_frequency_is_membership(postings, tokens[i], document);
        assert(holds_term(postings, tokens[i], document));
    }
}

/// A search for a single token finds exactly the documents in which the
/// token has a frequency.
pub proof fn lemma_single_token_search(token: Seq<char>, index: &Index)
    requires
        inverted_wf(index.postings()),
    ensures
        found_documents(seq![token], index).to_set() == Set::new(
            |d: Seq<char>| frequency(index.postings(), token, d) > 0,
        ),
{
    let found = found_documents(seq![token], index);
    let holders = Set::new(|d: Seq<char>| frequency(index.postings(), token, d) > 0);
    assert forall|d: Seq<char>| found.to_set().contains(d) <==> holders.contains(d) by {
        lemma_found_documents(seq![token], index, d);
        if found.contains(d) {
            let i = choose|i: int|
                0 <= i < 1 && frequency(index.postings(), #[trigger] seq![token][i], d) > 0;
            assert(seq![token][i] == token);
        }
        if holders.contains(d) {
            assert(seq![token][0] == token);
        }
    }
    assert(found.to_set() =~= holders);
}

/// A search without tokens finds nothing.
pub proof fn lemma_empty_query_finds_nothing(index: &Index)
    ensures
        found_documents(Seq::empty(), index).len() == 0,
{
    reveal(Seq::filter);
}

/// A search finds nothing where none of its tokens is a term of the index.
pub proof fn lemma_unknown_tokens_find_nothing(tokens: Seq<Seq<char>>, index: &Index)
    requires
        forall|i: int| 0 <= i < tokens.len() ==> position(index.postings(), #[trigger] tokens[i])
            < 0,
    ensures
        found_documents(tokens, index).len() == 0,
{
    lemma_no_candidates(tokens, index.postings());
    reveal(Seq::filter);
}

/// Tokens that are no terms of the index have no candidates.
pub proof fn lemma_no_candidates(tokens: Seq<Seq<char>>, index: Inverted)
    requires
        forall|i: int| 0 <= i < tokens.len() ==> position(index, #[trigger] tokens[i]) < 0,
    ensures
        candidates(tokens, index).len() == 0,
    decreases tokens.len(),
{
    if tokens.len() > 0 {
        let front = tokens.drop_last();
        assert(forall|i: int| 0 <= i < front.len() ==> front[i] == tokens[i]);
        lemma_no_candidates(front, index);
        assert(position(index, tokens[tokens.len() - 1]) < 0);
    }
}

/// The tables of a well-formed index survive being written as lists of pairs
/// and collected again.
pub proof fn lemma_tables_round_trip(index: &Index)
    requires
        index.wf(),
    ensures
        collected_inverted(index.postings()) == index.postings(),
        collected(index.weights()) == index.weights(),
        collected(index.norms()) == index.norms(),
{
    lemma_collected_inverted_table(index.postings());
    lemma_collected_table(index.weights());
    lemma_collected_table(index.norms());
}

/// Entering a pair that is listed already changes nothing.
pub proof fn lemma_upsert_same<V>(entries: Seq<(Seq<char>, V)>, key: Seq<char>, value: V)
    requires
        lookup(entries, key) == Some(value),
    ensures
        upsert(entries, key, value) == entries,
{
    lemma_position(entries, key);
    assert(upsert(entries, key, value) =~= entries);
}

/// Finalizing weights that list every term of the index with its final
/// weight changes nothing.
pub proof fn lemma_finalized_again(weights: Weights, index: Inverted, documents: u64, upto: int)
    requires
        0 <= upto <= index.len(),
        forall|i: int|
            0 <= i < upto ==> lookup(weights, (#[trigger] index[i]).0) == Some(
                Weight { num: documents, den: index[i].1.len() as u64 },
            ),
    ensures
        finalized(weights, index.subrange(0, upto), documents) == weights,
    decreases upto,
{
    let part = index.subrange(0, upto);
    if upto > 0 {
        lemma_finalized_again(weights, index, documents, upto - 1);
        assert(part.drop_last() =~= index.subrange(0, upto - 1));
        assert(part.last() == index[upto - 1]);
        lemma_upsert_same(
            weights,
            index[upto - 1].0,
            Weight { num: documents, den: index[upto - 1].1.len() as u64 },
        );
    }
}

/// Finalizing twice is finalizing once: without an ingestion in between, a
/// second finalization changes nothing.
pub proof fn lemma_finalization_is_idempotent(index: IndexView)
    requires
        unique_keys(index.postings),
    ensures
        finalized_index(finalized_index(index)) == finalized_index(index),
{
    let documents = index.documents as u64;
    let once = finalized(index.weights, index.postings, documents);
    assert forall|i: int| 0 <= i < index.postings.len() implies lookup(
        once,
        (#[trigger] index.postings[i]).0,
    ) == Some(Weight { num: documents, den: index.postings[i].1.len() as u64 }) by {
        lemma_finalized_weight(index.weights, index.postings, documents, index.postings[i].0);
        lemma_position_unique(index.postings, i);
    }
    lemma_finalized_again(once, index.postings, documents, index.postings.len() as int);
    assert(index.postings.subrange(0, index.postings.len() as int) =~= index.postings);
}

/// A weight vector lists no term twice, and lists each term under its
/// weight.
pub proof fn lemma_query_weights_wf(tokens: Seq<Seq<char>>, weights: Weights)
    ensures
        unique_keys(query_weights(tokens, weights)),
        forall|k: int|
            0 <= k < query_weights(tokens, weights).len() ==> (#[trigger] query_weights(
                tokens,
                weights,
            )[k]).1.weight == weight_of(weights, query_weights(tokens, weights)[k].0),
    decreases tokens.len(),
{
    if tokens.len() > 0 {
        let before = query_weights(tokens.drop_last(), weights);
        let after = query_weights(tokens, weights);
        lemma_query_weights_wf(tokens.drop_last(), weights);
        let seen: int = match lookup(before, tokens.last()) {
            Some(entry) => entry.count as int,
            None => 0,
        };
        let entry = TermWeight {
            count: (seen + 1) as u64,
            weight: weight_of(weights, tokens.last()),
        };
        lemma_upsert_unique(before, tokens.last(), entry);
        lemma_position(before, tokens.last());
        assert forall|k: int| 0 <= k < after.len() implies (#[trigger] after[k]).1.weight
            == weight_of(weights, after[k].0) by {
            if k < before.len() && k != position(before, tokens.last()) {
                assert(after[k] == before[k]);
            }
        }
    }
}

/// The cosine bound: a result for a document whose stored norm is the norm
/// of its weight vector under the weights as they are has a score of at most
/// one.
pub proof fn lemma_result_at_most_one(
    result: SearchResult,
    tokens: Seq<Seq<char>>,
    index: &Index,
)
    requires
        weights_wf(index.weights()),
        is_scored(result, query_weights(tokens, index.weights()), index),
        lookup(index.norms(), result.document@) == Some(
            norm_parts(index.postings(), index.weights(), result.document@),
        ),
    ensures
        result.score.deep_view().num <= result.score.deep_view().den,
{
    lemma_query_weights_wf(tokens, index.weights());
    lemma_score_at_most_one(
        query_weights(tokens, index.weights()),
        index.postings(),
        index.weights(),
        index.norms(),
        result.document@,
    );
}

/// A search names no document twice.
pub proof fn lemma_answers_are_distinct(
    results: Seq<SearchResult>,
    tokens: Seq<Seq<char>>,
    index: &Index,
)
    requires
        documents_of(results).to_multiset() == found_documents(tokens, index).to_multiset(),
    ensures
        documents_of(results).no_duplicates(),
{
    let found = found_documents(tokens, index);
    lemma_candidates(tokens, index.postings(), Seq::empty());
    lemma_filter_no_duplicates(
        candidates(tokens, index.postings()),
        |d: Seq<char>|
            score_parts(
                query_weights(tokens, index.weights()),
                index.postings(),
                index.weights(),
                d,
            ).len() > 0,
    );
    found.lemma_multiset_has_no_duplicates();
    documents_of(results).lemma_multiset_has_no_duplicates_conv();
}

/// The answer to a search is determined: two answers to the same search of
/// the same index name the same documents with the same scores in the same
/// order.
pub proof fn lemma_search_is_determined(
    a: Seq<SearchResult>,
    b: Seq<SearchResult>,
    tokens: Seq<Seq<char>>,
    index: &Index,
)
    requires
        answers(a, tokens, index),
        answers(b, tokens, index),
    ensures
        keys_of(a) == keys_of(b),
{
    let vector = query_weights(tokens, index.weights());
    let key = |d: Seq<char>|
        (
            score_square(
                score_view(vector, index.postings(), index.weights(), index.norms(), d),
            ),
            d,
        );
    assert(keys_of(a) =~= documents_of(a).map_values(key)) by {
        assert forall|i: int| 0 <= i < a.len() implies keys_of(a)[i] == key(
            documents_of(a)[i],
        ) by {
            assert(is_scored(a[i], vector, index));
        }
    }
    assert(keys_of(b) =~= documents_of(b).map_values(key)) by {
        assert forall|i: int| 0 <= i < b.len() implies keys_of(b)[i] == key(
            documents_of(b)[i],
        ) by {
            assert(is_scored(b[i], vector, index));
        }
    }
    lemma_mapped_multisets(documents_of(a), documents_of(b), key);
    lemma_answers_are_distinct(a, tokens, index);
    assert forall|i: int, j: int| 0 <= i < j < keys_of(a).len() implies (#[trigger] keys_of(
        a,
    )[i]).1 != (#[trigger] keys_of(a)[j]).1 by {
        assert(documents_of(a)[i] != documents_of(a)[j]);
    }
    assert(keys_ranked(keys_of(a))) by {
        assert forall|i: int, j: int| 0 <= i < j < keys_of(a).len() implies key_precedes(
            keys_of(a)[i],
            keys_of(a)[j],
        ) by {
            assert(precedes(a[i], a[j]));
        }
    }
    assert(keys_ranked(keys_of(b))) by {
        assert forall|i: int, j: int| 0 <= i < j < keys_of(b).len() implies key_precedes(
            keys_of(b)[i],
            keys_of(b)[j],
        ) by {
            assert(precedes(b[i], b[j]));
        }
    }
    lemma_ranking_is_unique(keys_of(a), keys_of(b));
}

} // verus!
