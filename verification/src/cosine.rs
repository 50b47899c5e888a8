//! The bound on scores: where a document's norm was taken under the weights
//! that the query is weighed with, no score exceeds one.

use crate::algebra::{lemma_distribute, lemma_regroup, lemma_rotate};
use crate::fraction::{sum, whole, FractionView};
use crate::model::{
    lemma_position, lookup, norm_parts, position, unique_keys, weight_of, weights_wf, Inverted,
    Norms, Weights,
};
use crate::query_processing::{score_parts, score_view, term_weights};
use crate::scoring::{
    component_square, lemma_aligned_sums, norm_square, part_value, query_norm_square, raw_score,
    score_square, term_square,
};
use crate::search_result::ScoreContent;
use crate::weight::{NormPart, ScorePart, TermWeight};
use vstd::prelude::*;

verus! {

/// The sum of fractions, taken in order.
pub open spec fn total(values: Seq<FractionView>) -> FractionView
    decreases values.len(),
{
    if values.len() == 0 {
        whole(0)
    } else {
        sum(total(values.drop_last()), values.last())
    }
}

/// Whether a fraction is at most another, both having denominators.
pub open spec fn no_more(a: FractionView, b: FractionView) -> bool {
    a.num * b.den <= b.num * a.den
}

/// The sum of two fractions does not depend on their order.
pub proof fn lemma_sum_commutes(a: FractionView, b: FractionView)
    ensures
        sum(a, b) == sum(b, a),
{
    assert(a.den * b.den == b.den * a.den) by (nonlinear_arith);
}

/// The sum of three fractions does not depend on their grouping.
pub proof fn lemma_sum_associates(a: FractionView, b: FractionView, c: FractionView)
    ensures
        sum(sum(a, b), c) == sum(a, sum(b, c)),
{
    let (an, ad) = (a.num as int, a.den as int);
    let (bn, bd) = (b.num as int, b.den as int);
    let (cn, cd) = (c.num as int, c.den as int);
    lemma_distribute(an * bd, bn * ad, cd);
    lemma_distribute(bn * cd, cn * bd, ad);
    lemma_rotate(an, bd, cd);
    lemma_rotate(bn, ad, cd);
    lemma_rotate(cn, ad, bd);
    lemma_rotate(cn, bd, ad);
    lemma_rotate(ad, bd, cd);
}

/// A larger summand gives a larger sum.
pub proof fn lemma_sum_grows(a: FractionView, larger: FractionView, b: FractionView)
    requires
        no_more(a, larger),
    ensures
        no_more(sum(a, b), sum(larger, b)),
{
    let (an, ad) = (a.num as int, a.den as int);
    let (ln, ld) = (larger.num as int, larger.den as int);
    let (bn, bd) = (b.num as int, b.den as int);
    let gap = ln * ad - an * ld;
    lemma_distribute(ln * bd, bn * ld, ad * bd);
    lemma_distribute(an * bd, bn * ad, ld * bd);
    lemma_regroup(ln, bd, ad, bd);
    lemma_regroup(an, bd, ld, bd);
    lemma_regroup(bn, ld, ad, bd);
    lemma_regroup(bn, ad, ld, bd);
    lemma_distribute(ln * ad, an * ld, bd * bd);
    assert((ln * bd + bn * ld) * (ad * bd) - (an * bd + bn * ad) * (ld * bd) == gap * (bd * bd));
    assert(gap * (bd * bd) >= 0) by (nonlinear_arith)
        requires
            gap >= 0,
    ;
}

/// A sum of fractions with denominators has a denominator.
pub proof fn lemma_total_has_denominator(values: Seq<FractionView>)
    requires
        forall|i: int| 0 <= i < values.len() ==> (#[trigger] values[i]).den > 0,
    ensures
        total(values).den > 0,
    decreases values.len(),
{
    if values.len() > 0 {
        let front = values.drop_last();
        assert(forall|i: int| 0 <= i < front.len() ==> front[i] == values[i]);
        lemma_total_has_denominator(front);
        let (x, y) = (total(front).den as int, values.last().den as int);
        assert(x * y > 0) by (nonlinear_arith)
            requires
                x > 0,
                y > 0,
        ;
    }
}

/// A sum is the sum of the rest and any one of its summands.
pub proof fn lemma_total_without(values: Seq<FractionView>, at: int)
    requires
        0 <= at < values.len(),
    ensures
        total(values) == sum(total(values.remove(at)), values[at]),
    decreases values.len(),
{
    let front = values.drop_last();
    let last = values.last();
    if at == values.len() - 1 {
        assert(values.remove(at) =~= front);
    } else {
        lemma_total_without(front, at);
        let rest = front.remove(at);
        assert(values.remove(at) =~= rest.push(last));
        assert(values.remove(at).drop_last() =~= rest);
        assert(front[at] == values[at]);
        // total(values) == (rest + values[at]) + last == (rest + last) + values[at]
        lemma_sum_associates(total(rest), values[at], last);
        lemma_sum_commutes(values[at], last);
        lemma_sum_associates(total(rest), last, values[at]);
    }
}

/// The values of labelled fractions, in order.
pub open spec fn values_of(labelled: Seq<(Seq<char>, FractionView)>) -> Seq<FractionView> {
    labelled.map_values(|entry: (Seq<char>, FractionView)| entry.1)
}

/// A sum over some of the summands of another sum is at most that sum: where
/// each labelled fraction of the first is one of the second, and no label of
/// the first comes twice.
pub proof fn lemma_part_is_no_more(
    part: Seq<(Seq<char>, FractionView)>,
    whole_list: Seq<(Seq<char>, FractionView)>,
)
    requires
        unique_keys(part),
        forall|i: int| 0 <= i < part.len() ==> whole_list.contains(#[trigger] part[i]),
        forall|i: int| 0 <= i < whole_list.len() ==> (#[trigger] whole_list[i]).1.den > 0,
    ensures
        no_more(total(values_of(part)), total(values_of(whole_list))),
    decreases part.len(),
{
    let all = values_of(whole_list);
    if part.len() == 0 {
        assert(total(values_of(part)) == whole(0));
        assert(0 * total(all).den == 0) by (nonlinear_arith);
    } else {
        let last = part.last();
        assert(whole_list.contains(part[part.len() - 1]));
        let at = choose|at: int| 0 <= at < whole_list.len() && whole_list[at] == last;
        let front = part.drop_last();
        let rest = whole_list.remove(at);
        assert forall|i: int, j: int| 0 <= i < j < front.len() implies (#[trigger] front[i]).0 != (
        #[trigger] front[j]).0 by {
            assert(front[i] == part[i]);
            assert(front[j] == part[j]);
        }
        assert forall|i: int| 0 <= i < front.len() implies rest.contains(#[trigger] front[i]) by {
            assert(front[i] == part[i]);
            assert(whole_list.contains(part[i]));
            let k = choose|k: int| 0 <= k < whole_list.len() && whole_list[k] == part[i];
            assert(part[i].0 != part[part.len() - 1].0);
            assert(k != at);
            if k < at {
                assert(rest[k] == whole_list[k]);
            } else {
                assert(rest[k - 1] == whole_list[k]);
            }
        }
        assert forall|i: int| 0 <= i < rest.len() implies (#[trigger] rest[i]).1.den > 0 by {
            if i < at {
                assert(rest[i] == whole_list[i]);
            } else {
                assert(rest[i] == whole_list[i + 1]);
            }
        }
        lemma_part_is_no_more(front, rest);
        assert(values_of(part).drop_last() =~= values_of(front));
        assert(values_of(part).last() == last.1);
        assert(all.remove(at) =~= values_of(rest));
        assert(all[at] == last.1);
        lemma_total_without(all, at);
        lemma_sum_grows(total(values_of(front)), total(values_of(rest)), last.1);
    }
}

/// The raw score is the sum of what the matches add.
pub proof fn lemma_raw_score_is_total(parts: Seq<ScorePart>)
    ensures
        raw_score(parts) == total(parts.map_values(|part: ScorePart| part_value(part))),
    decreases parts.len(),
{
    let values = parts.map_values(|part: ScorePart| part_value(part));
    if parts.len() > 0 {
        lemma_raw_score_is_total(parts.drop_last());
        assert(values.drop_last() =~= parts.drop_last().map_values(
            |part: ScorePart| part_value(part),
        ));
    }
}

/// The square of a norm is the sum of the squares of its components.
pub proof fn lemma_norm_square_is_total(parts: Seq<NormPart>)
    ensures
        norm_square(parts) == total(parts.map_values(|part: NormPart| component_square(part))),
    decreases parts.len(),
{
    let values = parts.map_values(|part: NormPart| component_square(part));
    if parts.len() > 0 {
        lemma_norm_square_is_total(parts.drop_last());
        assert(values.drop_last() =~= parts.drop_last().map_values(
            |part: NormPart| component_square(part),
        ));
    }
}

/// The square of a query's norm is the sum of the squares of its components.
pub proof fn lemma_query_norm_square_is_total(vector: Seq<TermWeight>)
    ensures
        query_norm_square(vector) == total(
            vector.map_values(|entry: TermWeight| term_square(entry)),
        ),
    decreases vector.len(),
{
    let values = vector.map_values(|entry: TermWeight| term_square(entry));
    if vector.len() > 0 {
        lemma_query_norm_square_is_total(vector.drop_last());
        assert(values.drop_last() =~= vector.drop_last().map_values(
            |entry: TermWeight| term_square(entry),
        ));
    }
}

/// The frequency of a term in a document, where the index records one.
pub open spec fn held(index: Inverted, term: Seq<char>, document: Seq<char>) -> Option<u32> {
    match lookup(index, term) {
        Some(postings) => lookup(postings, document),
        None => None,
    }
}

/// The matches of a document, each with its term, in the order of the weight
/// vector.
pub open spec fn labelled_parts(
    vector: Seq<(Seq<char>, TermWeight)>,
    index: Inverted,
    weights: Weights,
    document: Seq<char>,
) -> Seq<(Seq<char>, ScorePart)>
    decreases vector.len(),
{
    if vector.len() == 0 {
        Seq::empty()
    } else {
        let before = labelled_parts(vector.drop_last(), index, weights, document);
        match held(index, vector.last().0, document) {
            Some(count) => before.push(
                (
                    vector.last().0,
                    ScorePart {
                        query: vector.last().1,
                        frequency: count,
                        weight: weight_of(weights, vector.last().0),
                    },
                ),
            ),
            None => before,
        }
    }
}

/// Whether a labelled match is the match of an entry of the weight vector.
pub open spec fn is_match(
    vector: Seq<(Seq<char>, TermWeight)>,
    index: Inverted,
    weights: Weights,
    document: Seq<char>,
    entry: (Seq<char>, ScorePart),
) -> bool {
    &&& exists|k: int|
        0 <= k < vector.len() && (#[trigger] vector[k]).0 == entry.0 && vector[k].1
            == entry.1.query
    &&& entry.1.weight == weight_of(weights, entry.0)
    &&& held(index, entry.0, document) == Some(entry.1.frequency)
}

/// The labelled matches are the matches, each is the match of an entry of the
/// weight vector, and no term comes twice where the vector has none twice.
pub proof fn lemma_labelled_parts(
    vector: Seq<(Seq<char>, TermWeight)>,
    index: Inverted,
    weights: Weights,
    document: Seq<char>,
)
    ensures
        labelled_parts(vector, index, weights, document).map_values(
            |entry: (Seq<char>, ScorePart)| entry.1,
        ) == score_parts(vector, index, weights, document),
        forall|i: int|
            0 <= i < labelled_parts(vector, index, weights, document).len() ==> is_match(
                vector,
                index,
                weights,
                document,
                #[trigger] labelled_parts(vector, index, weights, document)[i],
            ),
        unique_keys(vector) ==> unique_keys(labelled_parts(vector, index, weights, document)),
    decreases vector.len(),
{
    let all = labelled_parts(vector, index, weights, document);
    if vector.len() > 0 {
        let front = vector.drop_last();
        let before = labelled_parts(front, index, weights, document);
        lemma_labelled_parts(front, index, weights, document);
        assert(all.map_values(|entry: (Seq<char>, ScorePart)| entry.1) =~= score_parts(
            vector,
            index,
            weights,
            document,
        ));
        assert forall|i: int| 0 <= i < all.len() implies is_match(
            vector,
            index,
            weights,
            document,
            #[trigger] all[i],
        ) by {
            if i < before.len() {
                assert(all[i] == before[i]);
                assert(is_match(front, index, weights, document, before[i]));
                let k = choose|k: int|
                    0 <= k < front.len() && (#[trigger] front[k]).0 == before[i].0 && front[k].1
                        == before[i].1.query;
                assert(vector[k] == front[k]);
            } else {
                assert(vector[vector.len() - 1] == vector.last());
            }
        }
        if unique_keys(vector) {
            assert forall|a: int, b: int| 0 <= a < b < front.len() implies (#[trigger] front[a]).0
                != (#[trigger] front[b]).0 by {
                assert(front[a] == vector[a]);
                assert(front[b] == vector[b]);
            }
            assert forall|a: int, b: int| 0 <= a < b < all.len() implies (#[trigger] all[a]).0 != (
            #[trigger] all[b]).0 by {
                assert(all[a] == before[a]);
                if b < before.len() {
                    assert(all[b] == before[b]);
                } else {
                    assert(is_match(front, index, weights, document, before[a]));
                    let k = choose|k: int|
                        0 <= k < front.len() && (#[trigger] front[k]).0 == before[a].0
                            && front[k].1 == before[a].1.query;
                    assert(vector[k] == front[k]);
                    assert(vector[k].0 != vector[vector.len() - 1].0);
                }
            }
        }
    } else {
        assert(all.map_values(|entry: (Seq<char>, ScorePart)| entry.1) =~= score_parts(
            vector,
            index,
            weights,
            document,
        ));
    }
}

/// The components of a document's norm, each with its term, in the order of
/// the index.
pub open spec fn labelled_norm(index: Inverted, weights: Weights, document: Seq<char>) -> Seq<
    (Seq<char>, NormPart),
>
    decreases index.len(),
{
    if index.len() == 0 {
        Seq::empty()
    } else {
        let before = labelled_norm(index.drop_last(), weights, document);
        match lookup(index.last().1, document) {
            Some(count) => before.push(
                (
                    index.last().0,
                    NormPart { frequency: count, weight: weight_of(weights, index.last().0) },
                ),
            ),
            None => before,
        }
    }
}

/// The labelled components are the components of the norm, each under the
/// weight of its term.
pub proof fn lemma_labelled_norm(index: Inverted, weights: Weights, document: Seq<char>)
    ensures
        labelled_norm(index, weights, document).map_values(
            |entry: (Seq<char>, NormPart)| entry.1,
        ) == norm_parts(index, weights, document),
        forall|i: int|
            0 <= i < labelled_norm(index, weights, document).len() ==> (#[trigger] labelled_norm(
                index,
                weights,
                document,
            )[i]).1.weight == weight_of(weights, labelled_norm(index, weights, document)[i].0),
    decreases index.len(),
{
    let all = labelled_norm(index, weights, document);
    if index.len() > 0 {
        lemma_labelled_norm(index.drop_last(), weights, document);
        let before = labelled_norm(index.drop_last(), weights, document);
        assert forall|i: int| 0 <= i < all.len() implies (#[trigger] all[i]).1.weight == weight_of(
            weights,
            all[i].0,
        ) by {
            if i < before.len() {
                assert(all[i] == before[i]);
            }
        }
    }
    assert(all.map_values(|entry: (Seq<char>, NormPart)| entry.1) =~= norm_parts(
        index,
        weights,
        document,
    ));
}

/// Under a well-formed weight table every term's weight has a denominator.
pub proof fn lemma_weight_of_wf(weights: Weights, term: Seq<char>)
    requires
        weights_wf(weights),
    ensures
        weight_of(weights, term).den > 0,
{
    lemma_position(weights, term);
    let at = position(weights, term);
    if at >= 0 {
        assert(weights[at].1.wf());
    }
}

/// A term that the document holds has its component among the labelled
/// components.
pub proof fn lemma_labelled_norm_holds(
    index: Inverted,
    weights: Weights,
    document: Seq<char>,
    term: Seq<char>,
)
    requires
        held(index, term, document) is Some,
    ensures
        labelled_norm(index, weights, document).contains(
            (
                term,
                NormPart {
                    frequency: held(index, term, document)->0,
                    weight: weight_of(weights, term),
                },
            ),
        ),
    decreases index.len(),
{
    lemma_position(index, term);
    let at = position(index, term);
    let all = labelled_norm(index, weights, document);
    let wanted = (
        term,
        NormPart { frequency: held(index, term, document)->0, weight: weight_of(weights, term) },
    );
    let front = index.drop_last();
    let before = labelled_norm(front, weights, document);
    if at == index.len() - 1 {
        assert(index.last() == index[at]);
        assert(all == before.push(wanted));
        assert(all[before.len() as int] == wanted);
    } else {
        assert(position(front, term) == at);
        assert(front[at] == index[at]);
        lemma_labelled_norm_holds(front, weights, document, term);
        let j = choose|j: int| 0 <= j < before.len() && before[j] == wanted;
        assert(all[j] == wanted);
    }
}

/// The component of a document's weight vector that a match was made with.
pub open spec fn component_of(part: ScorePart) -> NormPart {
    NormPart { frequency: part.frequency, weight: part.weight }
}

/// Where the document's norm was taken under the weights that the query is
/// weighed with, the score is at most one: its square has a numerator that
/// is at most its denominator.
pub proof fn lemma_score_at_most_one(
    vector: Seq<(Seq<char>, TermWeight)>,
    index: Inverted,
    weights: Weights,
    norms: Norms,
    document: Seq<char>,
)
    requires
        weights_wf(weights),
        unique_keys(vector),
        forall|k: int|
            0 <= k < vector.len() ==> (#[trigger] vector[k]).1.weight == weight_of(
                weights,
                vector[k].0,
            ),
        lookup(norms, document) == Some(norm_parts(index, weights, document)),
    ensures
        score_square(score_view(vector, index, weights, norms, document)).num <= score_square(
            score_view(vector, index, weights, norms, document),
        ).den,
{
    let parts = score_parts(vector, index, weights, document);
    let labelled = labelled_parts(vector, index, weights, document);
    let doc_labelled = labelled_norm(index, weights, document);
    let full_norm = norm_parts(index, weights, document);
    lemma_labelled_parts(vector, index, weights, document);
    lemma_labelled_norm(index, weights, document);
    assert(labelled.len() == parts.len());
    assert forall|i: int| 0 <= i < parts.len() implies (#[trigger] parts[i]) == labelled[i].1 by {
        assert(labelled.map_values(|entry: (Seq<char>, ScorePart)| entry.1)[i] == labelled[i].1);
    }
    // the matched components alone are aligned vectors
    let matched_norm = parts.map_values(|part: ScorePart| component_of(part));
    let matched_query = parts.map_values(|part: ScorePart| part.query);
    let matched = ScoreContent {
        matches: parts,
        document_norm: Some(matched_norm),
        query_norm: matched_query,
    };
    assert forall|i: int| 0 <= i < parts.len() implies {
        &&& (#[trigger] matched.matches[i]).query == matched.query_norm[i]
        &&& matched.matches[i].frequency == matched.document_norm->0[i].frequency
        &&& matched.matches[i].weight == matched.document_norm->0[i].weight
        &&& matched.matches[i].weight == matched.query_norm[i].weight
        &&& matched.matches[i].weight.den > 0
    } by {
        assert(is_match(vector, index, weights, document, labelled[i]));
        let k = choose|k: int|
            0 <= k < vector.len() && (#[trigger] vector[k]).0 == labelled[i].0 && vector[k].1
                == labelled[i].1.query;
        lemma_weight_of_wf(weights, labelled[i].0);
    }
    lemma_aligned_sums(matched);
    // the document's side: the matched components are some of all components
    let part_d = labelled.map_values(
        |entry: (Seq<char>, ScorePart)| (entry.0, component_square(component_of(entry.1))),
    );
    let all_d = doc_labelled.map_values(
        |entry: (Seq<char>, NormPart)| (entry.0, component_square(entry.1)),
    );
    assert forall|a: int, b: int| 0 <= a < b < part_d.len() implies (#[trigger] part_d[a]).0 != (
    #[trigger] part_d[b]).0 by {
        assert(labelled[a].0 != labelled[b].0);
    }
    assert forall|i: int| 0 <= i < part_d.len() implies all_d.contains(#[trigger] part_d[i]) by {
        assert(is_match(vector, index, weights, document, labelled[i]));
        lemma_labelled_norm_holds(index, weights, document, labelled[i].0);
        let wanted = (labelled[i].0, component_of(labelled[i].1));
        let j = choose|j: int| 0 <= j < doc_labelled.len() && doc_labelled[j] == wanted;
        assert(all_d[j] == part_d[i]);
    }
    assert forall|i: int| 0 <= i < all_d.len() implies (#[trigger] all_d[i]).1.den > 0 by {
        lemma_weight_of_wf(weights, doc_labelled[i].0);
        let d = doc_labelled[i].1.weight.den as int;
        assert(d * d > 0) by (nonlinear_arith)
            requires
                d > 0,
        ;
    }
    lemma_part_is_no_more(part_d, all_d);
    assert(values_of(part_d) =~= matched_norm.map_values(
        |part: NormPart| component_square(part),
    ));
    assert(values_of(all_d) =~= full_norm.map_values(|part: NormPart| component_square(part))) by {
        assert forall|i: int| 0 <= i < all_d.len() implies values_of(all_d)[i] == component_square(
            full_norm[i],
        ) by {
            assert(doc_labelled.map_values(|entry: (Seq<char>, NormPart)| entry.1)[i]
                == doc_labelled[i].1);
        }
    }
    lemma_norm_square_is_total(matched_norm);
    lemma_norm_square_is_total(full_norm);
    // the query's side: the matched entries are some of all entries
    let part_q = labelled.map_values(
        |entry: (Seq<char>, ScorePart)| (entry.0, term_square(entry.1.query)),
    );
    let all_q = vector.map_values(
        |entry: (Seq<char>, TermWeight)| (entry.0, term_square(entry.1)),
    );
    assert forall|a: int, b: int| 0 <= a < b < part_q.len() implies (#[trigger] part_q[a]).0 != (
    #[trigger] part_q[b]).0 by {
        assert(labelled[a].0 != labelled[b].0);
    }
    assert forall|i: int| 0 <= i < part_q.len() implies all_q.contains(#[trigger] part_q[i]) by {
        assert(is_match(vector, index, weights, document, labelled[i]));
        let k = choose|k: int|
            0 <= k < vector.len() && (#[trigger] vector[k]).0 == labelled[i].0 && vector[k].1
                == labelled[i].1.query;
        assert(all_q[k] == part_q[i]);
    }
    assert forall|i: int| 0 <= i < all_q.len() implies (#[trigger] all_q[i]).1.den > 0 by {
        lemma_weight_of_wf(weights, vector[i].0);
        let d = vector[i].1.weight.den as int;
        assert(d * d > 0) by (nonlinear_arith)
            requires
                d > 0,
        ;
    }
    lemma_part_is_no_more(part_q, all_q);
    assert(values_of(part_q) =~= matched_query.map_values(|entry: TermWeight| term_square(entry)));
    assert(values_of(all_q) =~= term_weights(vector).map_values(
        |entry: TermWeight| term_square(entry),
    ));
    lemma_query_norm_square_is_total(matched_query);
    lemma_query_norm_square_is_total(term_weights(vector));
    // together
    let raw = raw_score(parts);
    let near_d = norm_square(matched_norm);
    let near_q = query_norm_square(matched_query);
    let far_d = norm_square(full_norm);
    let far_q = query_norm_square(term_weights(vector));
    lemma_bound_carries(
        raw.num as int,
        raw.den as int,
        near_q.num as int,
        near_d.num as int,
        far_q.num as int,
        far_q.den as int,
        far_d.num as int,
        far_d.den as int,
    );
}

/// The bound for the matched components carries over to all components: the
/// sums of squares over all are at least those over the matched.
proof fn lemma_bound_carries(
    s: int,
    e: int,
    a: int,
    b: int,
    qn: int,
    qd: int,
    dn: int,
    dd: int,
)
    requires
        0 <= s,
        0 < e,
        0 <= a,
        0 <= b,
        0 <= qn,
        0 <= qd,
        0 <= dn,
        0 <= dd,
        s * s <= a * b,
        a * qd <= qn * e,
        b * dd <= dn * e,
    ensures
        s * s * dd * qd <= e * e * dn * qn,
{
    let left = a * qd;
    let right = b * dd;
    let top = qn * e;
    let other = dn * e;
    assert(0 <= left) by (nonlinear_arith)
        requires
            0 <= a,
            0 <= qd,
            left == a * qd,
    ;
    assert(0 <= right) by (nonlinear_arith)
        requires
            0 <= b,
            0 <= dd,
            right == b * dd,
    ;
    assert(left * right <= top * other) by (nonlinear_arith)
        requires
            0 <= left <= top,
            0 <= right <= other,
    ;
    assert(0 <= dd * qd) by (nonlinear_arith)
        requires
            0 <= dd,
            0 <= qd,
    ;
    assert((s * s) * (dd * qd) <= (a * b) * (dd * qd)) by (nonlinear_arith)
        requires
            s * s <= a * b,
            0 <= dd * qd,
    ;
    lemma_regroup(a, b, dd, qd);
    assert((a * dd) * (b * qd) == left * right) by {
        lemma_regroup(a, dd, b, qd);
        lemma_regroup(a, qd, b, dd);
        assert(b * a == a * b) by (nonlinear_arith);
        assert(dd * qd == qd * dd) by (nonlinear_arith);
    }
    lemma_regroup(qn, e, dn, e);
    assert(top * other == (qn * dn) * (e * e));
    assert((s * s) * (dd * qd) == s * s * dd * qd) by (nonlinear_arith);
    assert((qn * dn) * (e * e) == e * e * dn * qn) by (nonlinear_arith);
}

} // verus!
