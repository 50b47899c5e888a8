//! The mathematical model of the index: association lists over character
//! sequences, in insertion order, and what ingestion and finalization do to
//! them.

use crate::weight::{NormPart, Weight};
use vstd::prelude::*;

verus! {

/// The documents that hold a term, each with the term's frequency in it.
pub type Postings = Seq<(Seq<char>, u32)>;

/// The inverted index: each term with its postings.
pub type Inverted = Seq<(Seq<char>, Postings)>;

/// The weight table: each listed term with its weight.
pub type Weights = Seq<(Seq<char>, Weight)>;

/// The norm table: each listed document with the components of its norm.
pub type Norms = Seq<(Seq<char>, Seq<NormPart>)>;

/// The keys of an association list, in order.
pub open spec fn keys<V>(entries: Seq<(Seq<char>, V)>) -> Seq<Seq<char>> {
    entries.map_values(|e: (Seq<char>, V)| e.0)
}

/// The first position at which a key stands, or -1 where it stands nowhere.
pub open spec fn position<V>(entries: Seq<(Seq<char>, V)>, key: Seq<char>) -> int
    decreases entries.len(),
{
    if entries.len() == 0 {
        -1
    } else {
        let before = position(entries.drop_last(), key);
        if before >= 0 {
            before
        } else if entries.last().0 == key {
            entries.len() - 1
        } else {
            -1
        }
    }
}

/// The value that stands under a key.
pub open spec fn lookup<V>(entries: Seq<(Seq<char>, V)>, key: Seq<char>) -> Option<V> {
    let at = position(entries, key);
    if at >= 0 {
        Some(entries[at].1)
    } else {
        None
    }
}

/// The list with the value under the key replaced, or the pair added at the
/// end where the key was not listed.
pub open spec fn upsert<V>(entries: Seq<(Seq<char>, V)>, key: Seq<char>, value: V) -> Seq<
    (Seq<char>, V),
> {
    let at = position(entries, key);
    if at >= 0 {
        entries.update(at, (key, value))
    } else {
        entries.push((key, value))
    }
}

/// No key is listed twice.
pub open spec fn unique_keys<V>(entries: Seq<(Seq<char>, V)>) -> bool {
    forall|i: int, j: int|
        0 <= i < j < entries.len() ==> (#[trigger] entries[i]).0 != (#[trigger] entries[j]).0
}

/// How often a term occurs in a document; zero where none is recorded.
pub open spec fn frequency(index: Inverted, term: Seq<char>, document: Seq<char>) -> nat {
    match lookup(index, term) {
        Some(postings) => match lookup(postings, document) {
            Some(count) => count as nat,
            None => 0,
        },
        None => 0,
    }
}

/// In how many documents a term is recorded.
pub open spec fn document_frequency(index: Inverted, term: Seq<char>) -> nat {
    match lookup(index, term) {
        Some(postings) => postings.len(),
        None => 0,
    }
}

/// An inverted index is well formed when no term and, within a term, no
/// document is listed twice, every listed term has a document, and every
/// recorded frequency is at least one.
pub open spec fn inverted_wf(index: Inverted) -> bool {
    &&& unique_keys(index)
    &&& forall|i: int|
        0 <= i < index.len() ==> {
            &&& unique_keys((#[trigger] index[i]).1)
            &&& index[i].1.len() > 0
        }
    &&& forall|i: int, j: int|
        0 <= i < index.len() && 0 <= j < index[i].1.len() ==> (#[trigger] index[i].1[j]).1 >= 1
}

/// Every recorded frequency is at most the bound.
pub open spec fn frequencies_below(index: Inverted, bound: int) -> bool {
    forall|i: int, j: int|
        0 <= i < index.len() && 0 <= j < index[i].1.len() ==> (#[trigger] index[i].1[j]).1
            <= bound
}

/// The postings with one more occurrence in the document.
pub open spec fn postings_with_occurrence(postings: Postings, document: Seq<char>) -> Postings {
    match lookup(postings, document) {
        Some(count) => upsert(postings, document, (count + 1) as u32),
        None => postings.push((document, 1u32)),
    }
}

/// The index with one more occurrence of the term in the document.
pub open spec fn with_token(index: Inverted, term: Seq<char>, document: Seq<char>) -> Inverted {
    match lookup(index, term) {
        Some(postings) => upsert(index, term, postings_with_occurrence(postings, document)),
        None => index.push((term, seq![(document, 1u32)])),
    }
}

/// The index with one more occurrence in the document for each token, taken
/// in order.
pub open spec fn with_tokens(index: Inverted, tokens: Seq<Seq<char>>, document: Seq<char>) -> Inverted
    decreases tokens.len(),
{
    if tokens.len() == 0 {
        index
    } else {
        with_token(with_tokens(index, tokens.drop_last(), document), tokens.last(), document)
    }
}

/// How often a token occurs among tokens.
pub open spec fn occurrences(tokens: Seq<Seq<char>>, token: Seq<char>) -> nat
    decreases tokens.len(),
{
    if tokens.len() == 0 {
        0
    } else {
        occurrences(tokens.drop_last(), token) + if tokens.last() == token {
            1nat
        } else {
            0nat
        }
    }
}

/// Whether the counters of a document can take the tokens: whether each
/// term's frequency in the document, with the term's occurrences among the
/// tokens, stays within the machine's counter.
pub open spec fn fits(index: Inverted, tokens: Seq<Seq<char>>, document: Seq<char>) -> bool {
    forall|term: Seq<char>| #[trigger]
        occurrences(tokens, term) + frequency(index, term, document) <= u32::MAX
}

/// The weight of a term: what the table lists, or one.
pub open spec fn weight_of(weights: Weights, term: Seq<char>) -> Weight {
    match lookup(weights, term) {
        Some(weight) => weight,
        None => Weight::unit(),
    }
}

/// The components of a document's norm: for each term recorded for the
/// document, in index order, its frequency and its current weight. The norm
/// is the square root of the sum of the squares of `frequency * weight`.
pub open spec fn norm_parts(index: Inverted, weights: Weights, document: Seq<char>) -> Seq<
    NormPart,
>
    decreases index.len(),
{
    if index.len() == 0 {
        Seq::empty()
    } else {
        let before = norm_parts(index.drop_last(), weights, document);
        match lookup(index.last().1, document) {
            Some(count) => before.push(
                NormPart { frequency: count, weight: weight_of(weights, index.last().0) },
            ),
            None => before,
        }
    }
}

/// The weight table after finalization: each term of the index, in order,
/// gets the weight `documents / document frequency`.
pub open spec fn finalized(weights: Weights, index: Inverted, documents: u64) -> Weights
    decreases index.len(),
{
    if index.len() == 0 {
        weights
    } else {
        upsert(
            finalized(weights, index.drop_last(), documents),
            index.last().0,
            Weight { num: documents, den: index.last().1.len() as u64 },
        )
    }
}

/// The mathematical content of an index.
pub struct IndexView {
    pub postings: Inverted,
    pub weights: Weights,
    pub norms: Norms,
    pub documents: nat,
}

/// Every frequency of the postings is at least one.
pub open spec fn counts_positive(postings: Postings) -> bool {
    forall|j: int| 0 <= j < postings.len() ==> (#[trigger] postings[j]).1 >= 1
}

/// Every weight of the table has a denominator.
pub open spec fn weights_wf(weights: Weights) -> bool {
    forall|i: int| 0 <= i < weights.len() ==> (#[trigger] weights[i]).1.wf()
}

/// Every weight among the components has a denominator.
pub open spec fn parts_wf(parts: Seq<NormPart>) -> bool {
    forall|j: int| 0 <= j < parts.len() ==> (#[trigger] parts[j]).weight.wf()
}

/// An index is well formed when its inverted index is, no table lists a key
/// twice, and every weight has a denominator.
pub open spec fn index_wf(index: IndexView) -> bool {
    &&& inverted_wf(index.postings)
    &&& unique_keys(index.weights)
    &&& unique_keys(index.norms)
    &&& weights_wf(index.weights)
    &&& forall|i: int| 0 <= i < index.norms.len() ==> parts_wf((#[trigger] index.norms[i]).1)
}

/// The index after the ingestion of a document given as its tokens: one more
/// document is counted, each token is one more occurrence, and the document's
/// norm is taken anew, under the weights as they are.
pub open spec fn ingested(index: IndexView, document: Seq<char>, tokens: Seq<Seq<char>>) -> IndexView {
    let postings = with_tokens(index.postings, tokens, document);
    IndexView {
        postings,
        weights: index.weights,
        norms: upsert(index.norms, document, norm_parts(postings, index.weights, document)),
        documents: index.documents + 1,
    }
}

/// The index after finalization: its weights are finalized, nothing else
/// changes.
pub open spec fn finalized_index(index: IndexView) -> IndexView {
    IndexView {
        postings: index.postings,
        weights: finalized(index.weights, index.postings, index.documents as u64),
        norms: index.norms,
        documents: index.documents,
    }
}

/// The index after the ingestion of several documents, in order.
pub open spec fn ingested_all(
    index: IndexView,
    batch: Seq<(Seq<char>, Seq<Seq<char>>)>,
) -> IndexView
    decreases batch.len(),
{
    if batch.len() == 0 {
        index
    } else {
        ingested(ingested_all(index, batch.drop_last()), batch.last().0, batch.last().1)
    }
}

/// Where `position` points, the key stands, and it stands nowhere before.
pub proof fn lemma_position<V>(entries: Seq<(Seq<char>, V)>, key: Seq<char>)
    ensures
        -1 <= position(entries, key) < entries.len(),
        position(entries, key) >= 0 ==> entries[position(entries, key)].0 == key,
        forall|j: int| 0 <= j < position(entries, key) ==> (#[trigger] entries[j]).0 != key,
        position(entries, key) == -1 ==> forall|j: int|
            0 <= j < entries.len() ==> (#[trigger] entries[j]).0 != key,
    decreases entries.len(),
{
    if entries.len() > 0 {
        let front = entries.drop_last();
        lemma_position(front, key);
        assert(forall|j: int| 0 <= j < front.len() ==> front[j] == entries[j]);
    }
}

/// The first place at which a key stands is its position.
pub proof fn lemma_position_at<V>(entries: Seq<(Seq<char>, V)>, key: Seq<char>, at: int)
    requires
        0 <= at < entries.len(),
        entries[at].0 == key,
        forall|j: int| 0 <= j < at ==> (#[trigger] entries[j]).0 != key,
    ensures
        position(entries, key) == at,
{
    lemma_position(entries, key);
}

/// A key that stands nowhere has no position.
pub proof fn lemma_position_absent<V>(entries: Seq<(Seq<char>, V)>, key: Seq<char>)
    requires
        forall|j: int| 0 <= j < entries.len() ==> (#[trigger] entries[j]).0 != key,
    ensures
        position(entries, key) == -1,
{
    lemma_position(entries, key);
}

/// In a list without repeated keys, each key's position is where it stands.
pub proof fn lemma_position_unique<V>(entries: Seq<(Seq<char>, V)>, at: int)
    requires
        unique_keys(entries),
        0 <= at < entries.len(),
    ensures
        position(entries, entries[at].0) == at,
{
    lemma_position(entries, entries[at].0);
}

/// After `upsert`, the key holds the new value and every other key holds
/// what it held.
pub proof fn lemma_lookup_upsert<V>(
    entries: Seq<(Seq<char>, V)>,
    key: Seq<char>,
    value: V,
    other: Seq<char>,
)
    ensures
        lookup(upsert(entries, key, value), other) == if other == key {
            Some(value)
        } else {
            lookup(entries, other)
        },
        position(upsert(entries, key, value), other) == if other == key && position(
            entries,
            key,
        ) < 0 {
            entries.len() as int
        } else {
            position(entries, other)
        },
{
    let after = upsert(entries, key, value);
    lemma_position(entries, key);
    lemma_position(entries, other);
    lemma_position(after, other);
    let at = position(entries, key);
    if at >= 0 {
        assert(forall|j: int| 0 <= j < entries.len() ==> (#[trigger] after[j]).0 == entries[j].0);
        let was = position(entries, other);
        if was >= 0 {
            assert(after[was].0 == other);
            assert forall|j: int| 0 <= j < was implies (#[trigger] after[j]).0 != other by {
                assert(entries[j].0 != other);
            }
            lemma_position_at(after, other, was);
        } else {
            assert forall|j: int| 0 <= j < after.len() implies (#[trigger] after[j]).0
                != other by {
                assert(entries[j].0 != other);
            }
            lemma_position_absent(after, other);
        }
    } else {
        assert(after.drop_last() =~= entries);
    }
}

/// `upsert` keeps a list free of repeated keys.
pub proof fn lemma_upsert_unique<V>(entries: Seq<(Seq<char>, V)>, key: Seq<char>, value: V)
    requires
        unique_keys(entries),
    ensures
        unique_keys(upsert(entries, key, value)),
{
    let after = upsert(entries, key, value);
    lemma_position(entries, key);
    let at = position(entries, key);
    if at >= 0 {
        assert forall|i: int, j: int| 0 <= i < j < after.len() implies (#[trigger] after[i]).0 != (
        #[trigger] after[j]).0 by {
            assert(after[i].0 == entries[i].0);
            assert(after[j].0 == entries[j].0);
        }
    } else {
        assert forall|i: int, j: int| 0 <= i < j < after.len() implies (#[trigger] after[i]).0 != (
        #[trigger] after[j]).0 by {
            if j < entries.len() {
                assert(after[i] == entries[i]);
                assert(after[j] == entries[j]);
            } else {
                assert(after[i] == entries[i]);
                assert(entries[i].0 != key);
            }
        }
    }
}

/// One more occurrence raises the frequency of that term in that document by
/// one and leaves every other frequency as it was.
pub proof fn lemma_with_token_frequency(
    index: Inverted,
    term: Seq<char>,
    document: Seq<char>,
    other_term: Seq<char>,
    other_document: Seq<char>,
)
    requires
        frequency(index, term, document) < u32::MAX,
    ensures
        frequency(with_token(index, term, document), other_term, other_document) == frequency(
            index,
            other_term,
            other_document,
        ) + if other_term == term && other_document == document {
            1nat
        } else {
            0nat
        },
{
    lemma_position(index, term);
    match lookup(index, term) {
        Some(held) => {
            let grown = postings_with_occurrence(held, document);
            lemma_lookup_upsert(index, term, grown, other_term);
            lemma_position(held, document);
            match lookup(held, document) {
                Some(count) => {
                    lemma_lookup_upsert(held, document, (count + 1) as u32, other_document);
                },
                None => {
                    assert(grown.drop_last() =~= held);
                    lemma_position(held, other_document);
                },
            }
        },
        None => {
            let after = index.push((term, seq![(document, 1u32)]));
            assert(after.drop_last() =~= index);
            lemma_position(index, other_term);
            let single = seq![(document, 1u32)];
            assert(single.drop_last() =~= Seq::<(Seq<char>, u32)>::empty());
            assert(position(single.drop_last(), other_document) == -1);
        },
    }
}

/// One more occurrence keeps the index well formed.
pub proof fn lemma_with_token_wf(index: Inverted, term: Seq<char>, document: Seq<char>)
    requires
        inverted_wf(index),
        frequency(index, term, document) < u32::MAX,
    ensures
        inverted_wf(with_token(index, term, document)),
{
    let after = with_token(index, term, document);
    lemma_position(index, term);
    match lookup(index, term) {
        Some(held) => {
            let at = position(index, term);
            let grown = postings_with_occurrence(held, document);
            lemma_upsert_unique(index, term, grown);
            lemma_position(held, document);
            assert(unique_keys(held)) by {
                assert(index[at].1 == held);
            }
            match lookup(held, document) {
                Some(count) => {
                    lemma_upsert_unique(held, document, (count + 1) as u32);
                },
                None => {
                    assert forall|i: int, j: int| 0 <= i < j < grown.len() implies (
                    #[trigger] grown[i]).0 != (#[trigger] grown[j]).0 by {
                        if j < held.len() {
                            assert(grown[i] == held[i]);
                            assert(grown[j] == held[j]);
                        } else {
                            assert(grown[i] == held[i]);
                        }
                    }
                },
            }
            assert forall|i: int| 0 <= i < after.len() implies {
                &&& unique_keys((#[trigger] after[i]).1)
                &&& after[i].1.len() > 0
            } by {
                if i != at {
                    assert(after[i] == index[i]);
                }
            }
            assert forall|i: int, j: int|
                0 <= i < after.len() && 0 <= j < after[i].1.len() implies (
            #[trigger] after[i].1[j]).1 >= 1 by {
                if i != at {
                    assert(after[i] == index[i]);
                    assert(index[i].1[j].1 >= 1);
                } else {
                    if j < held.len() {
                        assert(index[at].1[j].1 >= 1);
                    }
                }
            }
        },
        None => {
            assert forall|i: int, j: int| 0 <= i < j < after.len() implies (#[trigger] after[i]).0 != (
            #[trigger] after[j]).0 by {
                if j < index.len() {
                    assert(after[i] == index[i]);
                    assert(after[j] == index[j]);
                } else {
                    assert(after[i] == index[i]);
                }
            }
            assert forall|i: int| 0 <= i < after.len() implies {
                &&& unique_keys((#[trigger] after[i]).1)
                &&& after[i].1.len() > 0
            } by {
                if i < index.len() {
                    assert(after[i] == index[i]);
                }
            }
            assert forall|i: int, j: int|
                0 <= i < after.len() && 0 <= j < after[i].1.len() implies (
            #[trigger] after[i].1[j]).1 >= 1 by {
                if i < index.len() {
                    assert(after[i] == index[i]);
                    assert(index[i].1[j].1 >= 1);
                }
            }
        },
    }
}

/// Under a bound on every frequency, each frequency is at most the bound.
pub proof fn lemma_frequency_below(
    index: Inverted,
    bound: int,
    term: Seq<char>,
    document: Seq<char>,
)
    requires
        frequencies_below(index, bound),
        bound >= 0,
    ensures
        frequency(index, term, document) <= bound,
{
    lemma_position(index, term);
    let at = position(index, term);
    if at >= 0 {
        lemma_position(index[at].1, document);
        let within = position(index[at].1, document);
        if within >= 0 {
            assert(index[at].1[within].1 <= bound);
        }
    }
}

/// After finalization a term of the index weighs `documents / document
/// frequency`, and a term outside the index weighs what it weighed.
pub proof fn lemma_finalized_weight(
    weights: Weights,
    index: Inverted,
    documents: u64,
    term: Seq<char>,
)
    requires
        unique_keys(index),
    ensures
        lookup(finalized(weights, index, documents), term) == if position(index, term) >= 0 {
            Some(Weight { num: documents, den: document_frequency(index, term) as u64 })
        } else {
            lookup(weights, term)
        },
    decreases index.len(),
{
    lemma_position(index, term);
    if index.len() > 0 {
        let front = index.drop_last();
        let last = index.last();
        assert(unique_keys(front)) by {
            assert forall|i: int, j: int| 0 <= i < j < front.len() implies (#[trigger] front[i]).0
                != (#[trigger] front[j]).0 by {
                assert(front[i] == index[i]);
                assert(front[j] == index[j]);
            }
        }
        lemma_finalized_weight(weights, front, documents, term);
        lemma_lookup_upsert(
            finalized(weights, front, documents),
            last.0,
            Weight { num: documents, den: last.1.len() as u64 },
            term,
        );
        lemma_position(front, term);
        if term == last.0 {
            lemma_position_unique(index, index.len() - 1);
        } else {
            let at = position(front, term);
            if at >= 0 {
                assert(front[at] == index[at]);
            }
        }
    }
}

/// Finalization keeps a weight table free of repeated keys and of zero
/// denominators, where every term of the index has a document.
pub proof fn lemma_finalized_wf(weights: Weights, index: Inverted, documents: u64)
    requires
        unique_keys(weights),
        forall|i: int| 0 <= i < weights.len() ==> (#[trigger] weights[i]).1.wf(),
        forall|i: int| 0 <= i < index.len() ==> 0 < (#[trigger] index[i]).1.len() <= u64::MAX,
    ensures
        unique_keys(finalized(weights, index, documents)),
        forall|i: int|
            0 <= i < finalized(weights, index, documents).len() ==> (#[trigger] finalized(
                weights,
                index,
                documents,
            )[i]).1.wf(),
    decreases index.len(),
{
    if index.len() > 0 {
        let front = index.drop_last();
        let last = index.last();
        assert(forall|i: int| 0 <= i < front.len() ==> front[i] == index[i]);
        lemma_finalized_wf(weights, front, documents);
        let before = finalized(weights, front, documents);
        let weight = Weight { num: documents, den: last.1.len() as u64 };
        lemma_upsert_unique(before, last.0, weight);
        lemma_position(before, last.0);
        let after = upsert(before, last.0, weight);
        assert forall|i: int| 0 <= i < after.len() implies (#[trigger] after[i]).1.wf() by {
            if i < before.len() && i != position(before, last.0) {
                assert(after[i] == before[i]);
            }
        }
    }
}

/// A token occurs among tokens at most as often as there are tokens, and
/// occurs at all exactly where it is one of them.
pub proof fn lemma_occurrences(tokens: Seq<Seq<char>>, token: Seq<char>)
    ensures
        occurrences(tokens, token) <= tokens.len(),
        occurrences(tokens, token) > 0 <==> tokens.contains(token),
    decreases tokens.len(),
{
    if tokens.len() > 0 {
        let front = tokens.drop_last();
        lemma_occurrences(front, token);
        if front.contains(token) {
            let i = choose|i: int| 0 <= i < front.len() && front[i] == token;
            assert(tokens[i] == token);
        }
        if tokens.last() == token {
            assert(tokens[tokens.len() - 1] == token);
        }
        if tokens.contains(token) {
            let i = choose|i: int| 0 <= i < tokens.len() && tokens[i] == token;
            if i < front.len() {
                assert(front[i] == token);
            }
        }
    }
}

/// A token occurs among the first tokens at most as often as among all.
pub proof fn lemma_occurrences_prefix(tokens: Seq<Seq<char>>, upto: int, token: Seq<char>)
    requires
        0 <= upto <= tokens.len(),
    ensures
        occurrences(tokens.subrange(0, upto), token) <= occurrences(tokens, token),
    decreases tokens.len(),
{
    if upto == tokens.len() {
        assert(tokens.subrange(0, upto) =~= tokens);
    } else {
        let front = tokens.drop_last();
        lemma_occurrences_prefix(front, upto, token);
        assert(front.subrange(0, upto) =~= tokens.subrange(0, upto));
    }
}

/// Counters that can take the tokens can take the first of them.
pub proof fn lemma_fits_prefix(
    index: Inverted,
    tokens: Seq<Seq<char>>,
    upto: int,
    document: Seq<char>,
)
    requires
        fits(index, tokens, document),
        0 <= upto <= tokens.len(),
    ensures
        fits(index, tokens.subrange(0, upto), document),
{
    let first = tokens.subrange(0, upto);
    assert forall|term: Seq<char>| #[trigger]
        occurrences(first, term) + frequency(index, term, document) <= u32::MAX by {
        lemma_occurrences_prefix(tokens, upto, term);
        assert(occurrences(tokens, term) + frequency(index, term, document) <= u32::MAX);
    }
}

/// Ingestion adds to each frequency of the document the occurrences of the
/// term among the tokens, and changes no frequency of another document. The
/// counter of the last token has room for it when its turn comes.
pub proof fn lemma_ingestion_adds_occurrences(
    index: Inverted,
    tokens: Seq<Seq<char>>,
    document: Seq<char>,
    term: Seq<char>,
    other: Seq<char>,
)
    requires
        fits(index, tokens, document),
    ensures
        frequency(with_tokens(index, tokens, document), term, other) == frequency(
            index,
            term,
            other,
        ) + if other == document {
            occurrences(tokens, term)
        } else {
            0nat
        },
        tokens.len() > 0 ==> frequency(
            with_tokens(index, tokens.drop_last(), document),
            tokens.last(),
            document,
        ) < u32::MAX,
    decreases tokens.len(),
{
    if tokens.len() > 0 {
        let front = tokens.drop_last();
        let before = with_tokens(index, front, document);
        assert(front =~= tokens.subrange(0, tokens.len() - 1));
        lemma_fits_prefix(index, tokens, tokens.len() - 1, document);
        lemma_ingestion_adds_occurrences(index, front, document, tokens.last(), document);
        lemma_ingestion_adds_occurrences(index, front, document, term, other);
        assert(occurrences(tokens, tokens.last()) + frequency(index, tokens.last(), document)
            <= u32::MAX);
        lemma_with_token_frequency(before, tokens.last(), document, term, other);
    }
}

/// Ingestion keeps the inverted index well formed, where the counters can
/// take the tokens.
pub proof fn lemma_with_tokens_wf(index: Inverted, tokens: Seq<Seq<char>>, document: Seq<char>)
    requires
        inverted_wf(index),
        fits(index, tokens, document),
    ensures
        inverted_wf(with_tokens(index, tokens, document)),
    decreases tokens.len(),
{
    if tokens.len() > 0 {
        let front = tokens.drop_last();
        assert(front =~= tokens.subrange(0, tokens.len() - 1));
        lemma_fits_prefix(index, tokens, tokens.len() - 1, document);
        lemma_with_tokens_wf(index, front, document);
        lemma_ingestion_adds_occurrences(index, tokens, document, tokens.last(), document);
        lemma_with_token_wf(with_tokens(index, front, document), tokens.last(), document);
    }
}

} // verus!
