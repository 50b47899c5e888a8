//! Soundness of an index: what ingestion and finalization keep true beyond
//! well-formedness, and why the scores of a sound index all have a value.

use crate::cosine::{is_match, labelled_parts, lemma_labelled_parts, lemma_weight_of_wf};
use crate::fraction::{sum, FractionView};
use crate::index_storage::Index;
use crate::laws::{lemma_found_documents, lemma_query_weights_wf, lemma_tokens_are_weighed};
use crate::model::{
    finalized, finalized_index, fits, frequency, index_wf, ingested, inverted_wf,
    lemma_finalized_wf, lemma_ingestion_adds_occurrences, lemma_lookup_upsert, lemma_position,
    lemma_upsert_unique, lemma_with_tokens_wf, lookup, norm_parts, parts_wf, position, upsert,
    weight_of, weights_wf, IndexView, Inverted, Weights,
};
use crate::query_processing::{
    answers, found_documents, is_scored, lemma_query_weights_counts, query_weights, score_parts,
    score_view, term_weights,
};
use crate::ranking::documents_of;
use crate::search_result::SearchResult;
use crate::scoring::{
    component_square, norm_square, query_norm_square, raw_score, score_square, term_square,
};
use crate::weight::{NormPart, ScorePart, TermWeight, Weight};
use vstd::prelude::*;

verus! {

/// Whether a document occurs in the index: whether some term has a frequency
/// in it.
pub open spec fn occurs(index: Inverted, document: Seq<char>) -> bool {
    exists|term: Seq<char>| frequency(index, term, document) > 0
}

/// Every weight of the table is above zero.
pub open spec fn positive_weights(weights: Weights) -> bool {
    forall|i: int| 0 <= i < weights.len() ==> (#[trigger] weights[i]).1.num > 0
}

/// Every component is above zero: its frequency and its weight are.
pub open spec fn positive_parts(parts: Seq<NormPart>) -> bool {
    forall|j: int|
        0 <= j < parts.len() ==> (#[trigger] parts[j]).frequency >= 1 && parts[j].weight.num > 0
}

/// An index is sound when it is well formed, its weights and the components
/// of its norms are above zero, every document that occurs in it has a norm
/// with a component, and its count of documents is above zero where it
/// lists a term.
pub open spec fn sound(index: IndexView) -> bool {
    &&& index_wf(index)
    &&& positive_weights(index.weights)
    &&& forall|i: int| 0 <= i < index.norms.len() ==> positive_parts((#[trigger] index.norms[i]).1)
    &&& forall|document: Seq<char>| #[trigger]
        occurs(index.postings, document) ==> lookup(index.norms, document) is Some && lookup(
            index.norms,
            document,
        )->0.len() > 0
    &&& index.postings.len() > 0 ==> index.documents > 0
    &&& index.documents <= u64::MAX
}

/// Under weights above zero every term's weight is above zero.
pub proof fn lemma_weight_of_positive(weights: Weights, term: Seq<char>)
    requires
        positive_weights(weights),
    ensures
        weight_of(weights, term).num > 0,
{
    lemma_position(weights, term);
    let at = position(weights, term);
    if at >= 0 {
        assert(weights[at].1.num > 0);
    }
}

/// A document that stands in the postings of a term has a component in its
/// norm.
pub proof fn lemma_norm_parts_has(index: Inverted, weights: Weights, document: Seq<char>, at: int)
    requires
        0 <= at < index.len(),
        lookup(index[at].1, document) is Some,
    ensures
        norm_parts(index, weights, document).len() > 0,
    decreases index.len(),
{
    if at < index.len() - 1 {
        assert(index.drop_last()[at] == index[at]);
        lemma_norm_parts_has(index.drop_last(), weights, document, at);
    }
}

/// The components of a norm taken from a well-formed index under weights
/// above zero are above zero and have denominators.
pub proof fn lemma_norm_parts_positive(index: Inverted, weights: Weights, document: Seq<char>)
    requires
        inverted_wf(index),
        weights_wf(weights),
        positive_weights(weights),
    ensures
        positive_parts(norm_parts(index, weights, document)),
        parts_wf(norm_parts(index, weights, document)),
    decreases index.len(),
{
    if index.len() > 0 {
        let front = index.drop_last();
        assert(inverted_wf(front)) by {
            assert(forall|i: int| 0 <= i < front.len() ==> front[i] == index[i]);
            assert forall|i: int, j: int|
                0 <= i < front.len() && 0 <= j < front[i].1.len() implies (
            #[trigger] front[i].1[j]).1 >= 1 by {
                assert(index[i].1[j].1 >= 1);
            }
        }
        lemma_norm_parts_positive(front, weights, document);
        let before = norm_parts(front, weights, document);
        let all = norm_parts(index, weights, document);
        let last = index[index.len() - 1];
        lemma_position(last.1, document);
        lemma_weight_of_positive(weights, last.0);
        lemma_weight_of_wf(weights, last.0);
        let within = position(last.1, document);
        if within >= 0 {
            assert(index[index.len() - 1].1[within].1 >= 1);
        }
        assert forall|j: int| 0 <= j < all.len() implies (#[trigger] all[j]).frequency >= 1
            && all[j].weight.num > 0 && all[j].weight.wf() by {
            if j < before.len() {
                assert(all[j] == before[j]);
            }
        }
    }
}

/// Ingestion keeps an index sound, where the counters can take the tokens.
pub proof fn lemma_ingested_sound(
    index: IndexView,
    document: Seq<char>,
    tokens: Seq<Seq<char>>,
)
    requires
        sound(index),
        index.documents < u64::MAX,
        fits(index.postings, tokens, document),
    ensures
        sound(ingested(index, document, tokens)),
{
    let after = ingested(index, document, tokens);
    let parts = norm_parts(after.postings, index.weights, document);
    lemma_with_tokens_wf(index.postings, tokens, document);
    lemma_norm_parts_positive(after.postings, index.weights, document);
    lemma_upsert_unique(index.norms, document, parts);
    lemma_position(index.norms, document);
    let at = position(index.norms, document);
    assert forall|i: int| 0 <= i < after.norms.len() implies positive_parts(
        (#[trigger] after.norms[i]).1,
    ) && parts_wf(after.norms[i].1) by {
        if i < index.norms.len() && i != at {
            assert(after.norms[i] == index.norms[i]);
            assert(positive_parts(index.norms[i].1));
            assert(parts_wf(index.norms[i].1));
        }
    }
    assert forall|other: Seq<char>| #[trigger] occurs(after.postings, other) implies lookup(
        after.norms,
        other,
    ) is Some && lookup(after.norms, other)->0.len() > 0 by {
        let term = choose|term: Seq<char>| frequency(after.postings, term, other) > 0;
        lemma_lookup_upsert(index.norms, document, parts, other);
        if other == document {
            lemma_position(after.postings, term);
            let place = position(after.postings, term);
            lemma_position(after.postings[place].1, document);
            lemma_norm_parts_has(after.postings, index.weights, document, place);
        } else {
            lemma_ingestion_adds_occurrences(index.postings, tokens, document, term, other);
            assert(frequency(index.postings, term, other) > 0);
            assert(occurs(index.postings, other));
        }
    }
}

/// Finalization gives weights above zero, where the count of documents is.
pub proof fn lemma_finalized_positive(weights: Weights, index: Inverted, documents: u64)
    requires
        positive_weights(weights),
        documents > 0,
    ensures
        positive_weights(finalized(weights, index, documents)),
    decreases index.len(),
{
    if index.len() > 0 {
        let front = index.drop_last();
        lemma_finalized_positive(weights, front, documents);
        let before = finalized(weights, front, documents);
        let weight = Weight { num: documents, den: index.last().1.len() as u64 };
        let after = upsert(before, index.last().0, weight);
        lemma_position(before, index.last().0);
        assert forall|i: int| 0 <= i < after.len() implies (#[trigger] after[i]).1.num > 0 by {
            if i < before.len() && i != position(before, index.last().0) {
                assert(after[i] == before[i]);
            }
        }
    }
}

/// Finalization keeps an index sound, where no term stands in more documents
/// than a counter holds.
pub proof fn lemma_finalized_sound(index: IndexView)
    requires
        sound(index),
        forall|i: int|
            0 <= i < index.postings.len() ==> (#[trigger] index.postings[i]).1.len() <= u64::MAX,
    ensures
        sound(finalized_index(index)),
{
    if index.postings.len() > 0 {
        lemma_finalized_positive(index.weights, index.postings, index.documents as u64);
    }
    lemma_finalized_wf(index.weights, index.postings, index.documents as u64);
}

/// A sum of fractions above zero is above zero.
pub proof fn lemma_sum_positive(a: FractionView, b: FractionView)
    requires
        a.den > 0,
        b.num > 0,
        b.den > 0,
    ensures
        sum(a, b).num > 0,
        sum(a, b).den > 0,
{
    let (an, ad) = (a.num as int, a.den as int);
    let (bn, bd) = (b.num as int, b.den as int);
    assert(an * bd >= 0) by (nonlinear_arith)
        requires
            an >= 0,
            bd > 0,
    ;
    assert(bn * ad > 0) by (nonlinear_arith)
        requires
            bn > 0,
            ad > 0,
    ;
    assert(ad * bd > 0) by (nonlinear_arith)
        requires
            ad > 0,
            bd > 0,
    ;
}

/// The square of a norm with a component, all components above zero, is
/// above zero.
pub proof fn lemma_norm_square_positive(parts: Seq<NormPart>)
    requires
        positive_parts(parts),
        parts_wf(parts),
    ensures
        norm_square(parts).den > 0,
        parts.len() > 0 ==> norm_square(parts).num > 0,
    decreases parts.len(),
{
    if parts.len() > 0 {
        let front = parts.drop_last();
        assert(forall|j: int| 0 <= j < front.len() ==> front[j] == parts[j]);
        lemma_norm_square_positive(front);
        let last = parts[parts.len() - 1];
        let value = (last.frequency as int) * (last.weight.num as int);
        let bottom = last.weight.den as int;
        assert(value > 0) by (nonlinear_arith)
            requires
                last.frequency >= 1,
                last.weight.num > 0,
                value == (last.frequency as int) * (last.weight.num as int),
        ;
        assert(value * value > 0) by (nonlinear_arith)
            requires
                value > 0,
        ;
        assert(bottom * bottom > 0) by (nonlinear_arith)
            requires
                bottom > 0,
        ;
        lemma_sum_positive(norm_square(front), component_square(last));
    }
}

/// The square of the norm of a weight vector with an entry, all entries
/// above zero, is above zero.
pub proof fn lemma_query_norm_square_positive(vector: Seq<TermWeight>)
    requires
        forall|k: int|
            0 <= k < vector.len() ==> (#[trigger] vector[k]).count >= 1 && vector[k].weight.num > 0
                && vector[k].weight.den > 0,
    ensures
        query_norm_square(vector).den > 0,
        vector.len() > 0 ==> query_norm_square(vector).num > 0,
    decreases vector.len(),
{
    if vector.len() > 0 {
        let front = vector.drop_last();
        assert(forall|k: int| 0 <= k < front.len() ==> front[k] == vector[k]);
        lemma_query_norm_square_positive(front);
        let last = vector[vector.len() - 1];
        let value = (last.count as int) * (last.weight.num as int);
        let bottom = last.weight.den as int;
        assert(value > 0) by (nonlinear_arith)
            requires
                last.count >= 1,
                last.weight.num > 0,
                value == (last.count as int) * (last.weight.num as int),
        ;
        assert(value * value > 0) by (nonlinear_arith)
            requires
                value > 0,
        ;
        assert(bottom * bottom > 0) by (nonlinear_arith)
            requires
                bottom > 0,
        ;
        lemma_sum_positive(query_norm_square(front), term_square(last));
    }
}

/// A raw score whose parts have denominators has one.
pub proof fn lemma_raw_score_has_denominator(parts: Seq<ScorePart>)
    requires
        forall|i: int|
            0 <= i < parts.len() ==> (#[trigger] parts[i]).query.weight.den > 0
                && parts[i].weight.den > 0,
    ensures
        raw_score(parts).den > 0,
    decreases parts.len(),
{
    if parts.len() > 0 {
        let front = parts.drop_last();
        assert(forall|i: int| 0 <= i < front.len() ==> front[i] == parts[i]);
        lemma_raw_score_has_denominator(front);
        let last = parts[parts.len() - 1];
        let (x, y) = (last.query.weight.den as int, last.weight.den as int);
        let z = raw_score(front).den as int;
        assert(x * y > 0) by (nonlinear_arith)
            requires
                x > 0,
                y > 0,
        ;
        assert(z * (x * y) > 0) by (nonlinear_arith)
            requires
                z > 0,
                x * y > 0,
        ;
    }
}

/// Every entry of a weight vector counts at least one occurrence, where the
/// tokens are no more than a counter holds.
pub proof fn lemma_query_weights_count(tokens: Seq<Seq<char>>, weights: Weights)
    requires
        tokens.len() <= u64::MAX,
    ensures
        forall|k: int|
            0 <= k < query_weights(tokens, weights).len() ==> (#[trigger] query_weights(
                tokens,
                weights,
            )[k]).1.count >= 1,
    decreases tokens.len(),
{
    if tokens.len() > 0 {
        let before = query_weights(tokens.drop_last(), weights);
        let after = query_weights(tokens, weights);
        lemma_query_weights_count(tokens.drop_last(), weights);
        lemma_query_weights_counts(tokens.drop_last(), weights);
        lemma_position(before, tokens.last());
        let at = position(before, tokens.last());
        assert forall|k: int| 0 <= k < after.len() implies (#[trigger] after[k]).1.count >= 1 by {
            if k < before.len() && k != at {
                assert(after[k] == before[k]);
            } else if k < before.len() {
                assert(before[k].1.count <= tokens.len() - 1);
            }
        }
    }
}

/// In a sound index every document found for a query has a score with a
/// value: the square of its score has a denominator.
pub proof fn lemma_sound_scores(
    index: IndexView,
    tokens: Seq<Seq<char>>,
    document: Seq<char>,
    at: int,
)
    requires
        sound(index),
        tokens.len() <= u64::MAX,
        0 <= at < tokens.len(),
        frequency(index.postings, tokens[at], document) > 0,
    ensures
        score_square(
            score_view(
                query_weights(tokens, index.weights),
                index.postings,
                index.weights,
                index.norms,
                document,
            ),
        ).den > 0,
{
    let vector = query_weights(tokens, index.weights);
    let parts = score_parts(vector, index.postings, index.weights, document);
    let labelled = labelled_parts(vector, index.postings, index.weights, document);
    lemma_labelled_parts(vector, index.postings, index.weights, document);
    lemma_query_weights_wf(tokens, index.weights);
    lemma_query_weights_count(tokens, index.weights);
    assert forall|i: int| 0 <= i < parts.len() implies (#[trigger] parts[i]).query.weight.den > 0
        && parts[i].weight.den > 0 by {
        assert(labelled.map_values(|entry: (Seq<char>, ScorePart)| entry.1)[i] == labelled[i].1);
        assert(is_match(vector, index.postings, index.weights, document, labelled[i]));
        let k = choose|k: int|
            0 <= k < vector.len() && (#[trigger] vector[k]).0 == labelled[i].0 && vector[k].1
                == labelled[i].1.query;
        lemma_weight_of_wf(index.weights, labelled[i].0);
    }
    lemma_raw_score_has_denominator(parts);
    // the document's norm
    assert(occurs(index.postings, document));
    lemma_position(index.norms, document);
    let place = position(index.norms, document);
    let norm = index.norms[place].1;
    assert(positive_parts(norm));
    assert(parts_wf(norm));
    lemma_norm_square_positive(norm);
    // the query's norm
    let entries = term_weights(vector);
    lemma_tokens_are_weighed(tokens, index.weights, at);
    assert forall|k: int| 0 <= k < entries.len() implies (#[trigger] entries[k]).count >= 1
        && entries[k].weight.num > 0 && entries[k].weight.den > 0 by {
        assert(entries[k] == vector[k].1);
        lemma_weight_of_positive(index.weights, vector[k].0);
        lemma_weight_of_wf(index.weights, vector[k].0);
    }
    lemma_query_norm_square_positive(entries);
    let raw = raw_score(parts).den as int;
    let below = norm_square(norm).num as int;
    let beside = query_norm_square(entries).num as int;
    assert(raw * raw * below * beside > 0) by (nonlinear_arith)
        requires
            raw > 0,
            below > 0,
            beside > 0,
    ;
}

/// An index with nothing in it is sound.
pub proof fn lemma_empty_sound(index: IndexView)
    requires
        index.postings.len() == 0,
        index.weights.len() == 0,
        index.norms.len() == 0,
        index.documents <= u64::MAX,
    ensures
        sound(index),
{
    assert forall|document: Seq<char>| !occurs(index.postings, document) by {
        assert forall|term: Seq<char>| frequency(index.postings, term, document) == 0 by {
            lemma_position(index.postings, term);
        }
    }
}

/// Every answer of a sound index has a score with a value.
pub proof fn lemma_sound_answers(results: Seq<SearchResult>, tokens: Seq<Seq<char>>, index: &Index)
    requires
        sound(index@),
        tokens.len() <= u64::MAX,
        answers(results, tokens, index),
    ensures
        forall|i: int| 0 <= i < results.len() ==> (#[trigger] results[i]).score.deep_view().den > 0,
{
    let found = found_documents(tokens, index);
    documents_of(results).to_multiset_ensures();
    found.to_multiset_ensures();
    assert forall|i: int| 0 <= i < results.len() implies (
    #[trigger] results[i]).score.deep_view().den > 0 by {
        let document = results[i].document@;
        assert(documents_of(results)[i] == document);
        assert(documents_of(results).contains(document));
        assert(found.to_multiset().count(document) > 0);
        assert(found.contains(document));
        lemma_found_documents(tokens, index, document);
        let at = choose|at: int|
            0 <= at < tokens.len() && frequency(index.postings(), #[trigger] tokens[at], document)
                > 0;
        lemma_sound_scores(index@, tokens, document, at);
        assert(is_scored(results[i], query_weights(tokens, index.weights()), index));
    }
}

} // verus!
