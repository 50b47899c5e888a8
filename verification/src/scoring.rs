//! The value of a score, computed exactly: the cosine of the angle between
//! the weight vectors of a document and a query, squared.

use crate::algebra::lemma_regroup;
use crate::bignat::BigNat;
use crate::fraction::{sum, whole, Fraction, FractionView};
use crate::search_result::{Score, ScoreContent};
use crate::weight::{NormPart, ScorePart, TermWeight};
use vstd::prelude::*;

verus! {

/// What one matched term adds to the raw score: the term's weight in the
/// query, times its frequency in the document, times its weight.
pub open spec fn part_value(part: ScorePart) -> FractionView {
    FractionView {
        num: (part.query.count as nat) * (part.query.weight.num as nat) * (part.frequency as nat)
            * (part.weight.num as nat),
        den: (part.query.weight.den as nat) * (part.weight.den as nat),
    }
}

/// The raw score: the sum of what the matched terms add.
pub open spec fn raw_score(parts: Seq<ScorePart>) -> FractionView
    decreases parts.len(),
{
    if parts.len() == 0 {
        whole(0)
    } else {
        sum(raw_score(parts.drop_last()), part_value(parts.last()))
    }
}

/// The square of one component of a document's weight vector.
pub open spec fn component_square(part: NormPart) -> FractionView {
    FractionView {
        num: ((part.frequency as nat) * (part.weight.num as nat)) * ((part.frequency as nat) * (
        part.weight.num as nat)),
        den: (part.weight.den as nat) * (part.weight.den as nat),
    }
}

/// The square of a document's norm: the sum of the squares of its components.
pub open spec fn norm_square(parts: Seq<NormPart>) -> FractionView
    decreases parts.len(),
{
    if parts.len() == 0 {
        whole(0)
    } else {
        sum(norm_square(parts.drop_last()), component_square(parts.last()))
    }
}

/// The square of one component of a query's weight vector.
pub open spec fn term_square(entry: TermWeight) -> FractionView {
    FractionView {
        num: ((entry.count as nat) * (entry.weight.num as nat)) * ((entry.count as nat) * (
        entry.weight.num as nat)),
        den: (entry.weight.den as nat) * (entry.weight.den as nat),
    }
}

/// The square of a query's norm: the sum of the squares of its components.
pub open spec fn query_norm_square(vector: Seq<TermWeight>) -> FractionView
    decreases vector.len(),
{
    if vector.len() == 0 {
        whole(0)
    } else {
        sum(query_norm_square(vector.drop_last()), term_square(vector.last()))
    }
}

/// The square of the document's norm as the score uses it: one where the
/// document has no stored norm.
pub open spec fn document_norm_square(norm: Option<Seq<NormPart>>) -> FractionView {
    match norm {
        Some(parts) => norm_square(parts),
        None => whole(1),
    }
}

/// The square of a score: the square of the raw score, over the product of
/// the squares of the two norms. It has no denominator, and so no value,
/// where one of the norms is zero.
pub open spec fn score_square(score: ScoreContent) -> FractionView {
    let raw = raw_score(score.matches);
    let document = document_norm_square(score.document_norm);
    let query = query_norm_square(score.query_norm);
    FractionView {
        num: raw.num * raw.num * document.den * query.den,
        den: raw.den * raw.den * document.num * query.num,
    }
}

/// The raw score of the given matches.
pub fn raw_score_of(parts: &Vec<ScorePart>) -> (raw: Fraction)
    ensures
        raw.deep_view() == raw_score(parts.deep_view()),
{
    let mut raw = Fraction::from_u64(0);
    let mut i: usize = 0;
    while i < parts.len()
        invariant
            i <= parts.len(),
            raw.deep_view() == raw_score(parts.deep_view().subrange(0, i as int)),
        decreases parts.len() - i,
    {
        proof {
            let next = parts.deep_view().subrange(0, i + 1);
            assert(next.drop_last() =~= parts.deep_view().subrange(0, i as int));
            assert(next.last() == parts[i as int]);
        }
        let part = parts[i];
        let num = BigNat::from_u64(part.query.count).mul(
            &BigNat::from_u64(part.query.weight.num),
        ).mul(&BigNat::from_u64(part.frequency as u64)).mul(&BigNat::from_u64(part.weight.num));
        let den = BigNat::from_u64(part.query.weight.den).mul(&BigNat::from_u64(part.weight.den));
        raw = raw.plus(&Fraction { num, den });
        i += 1;
    }
    assert(parts.deep_view().subrange(0, i as int) =~= parts.deep_view());
    raw
}

/// The square of the norm with the given components.
pub fn norm_square_of(parts: &Vec<NormPart>) -> (square: Fraction)
    ensures
        square.deep_view() == norm_square(parts.deep_view()),
{
    let mut square = Fraction::from_u64(0);
    let mut i: usize = 0;
    while i < parts.len()
        invariant
            i <= parts.len(),
            square.deep_view() == norm_square(parts.deep_view().subrange(0, i as int)),
        decreases parts.len() - i,
    {
        proof {
            let next = parts.deep_view().subrange(0, i + 1);
            assert(next.drop_last() =~= parts.deep_view().subrange(0, i as int));
            assert(next.last() == parts[i as int]);
        }
        let part = parts[i];
        let component = BigNat::from_u64(part.frequency as u64).mul(
            &BigNat::from_u64(part.weight.num),
        );
        let bottom = BigNat::from_u64(part.weight.den);
        square = square.plus(&Fraction { num: component.mul(&component), den: bottom.mul(&bottom) });
        i += 1;
    }
    assert(parts.deep_view().subrange(0, i as int) =~= parts.deep_view());
    square
}

/// The square of the norm of the given weight vector of a query.
pub fn query_norm_square_of(vector: &Vec<TermWeight>) -> (square: Fraction)
    ensures
        square.deep_view() == query_norm_square(vector.deep_view()),
{
    let mut square = Fraction::from_u64(0);
    let mut i: usize = 0;
    while i < vector.len()
        invariant
            i <= vector.len(),
            square.deep_view() == query_norm_square(vector.deep_view().subrange(0, i as int)),
        decreases vector.len() - i,
    {
        proof {
            let next = vector.deep_view().subrange(0, i + 1);
            assert(next.drop_last() =~= vector.deep_view().subrange(0, i as int));
            assert(next.last() == vector[i as int]);
        }
        let entry = vector[i];
        let component = BigNat::from_u64(entry.count).mul(&BigNat::from_u64(entry.weight.num));
        let bottom = BigNat::from_u64(entry.weight.den);
        square = square.plus(&Fraction { num: component.mul(&component), den: bottom.mul(&bottom) });
        i += 1;
    }
    assert(vector.deep_view().subrange(0, i as int) =~= vector.deep_view());
    square
}

/// The square of a score, from its parts.
pub fn score_square_of(score: &Score) -> (square: Fraction)
    ensures
        square.deep_view() == score_square(score.deep_view()),
{
    let raw = raw_score_of(&score.matches);
    let document = match &score.document_norm {
        Some(parts) => norm_square_of(parts),
        None => Fraction::from_u64(1),
    };
    let query = query_norm_square_of(&score.query_norm);
    Fraction {
        num: raw.num.mul(&raw.num).mul(&document.den).mul(&query.den),
        den: raw.den.mul(&raw.den).mul(&document.num).mul(&query.num),
    }
}

/// Whether a score is that of two weight vectors over the same terms, given
/// in full: the document's norm and the query's norm have a component for
/// each term, under one weight, and each match is the product of the two.
pub open spec fn aligned(score: ScoreContent) -> bool {
    &&& score.document_norm is Some
    &&& score.document_norm->0.len() == score.matches.len()
    &&& score.query_norm.len() == score.matches.len()
    &&& forall|i: int|
        0 <= i < score.matches.len() ==> {
            &&& (#[trigger] score.matches[i]).query == score.query_norm[i]
            &&& score.matches[i].frequency == score.document_norm->0[i].frequency
            &&& score.matches[i].weight == score.document_norm->0[i].weight
            &&& score.matches[i].weight == score.query_norm[i].weight
            &&& score.matches[i].weight.den > 0
        }
}

/// Where the square of one number is at most the product of two others, twice
/// its product with two factors is at most what the two others give with the
/// squares of the factors, crosswise.
proof fn lemma_cross_terms(s: int, a: int, b: int, u: int, v: int)
    requires
        0 <= s,
        0 <= a,
        0 <= b,
        0 <= u,
        0 <= v,
        s * s <= a * b,
    ensures
        2 * (s * (u * v)) <= a * (v * v) + b * (u * u),
{
    let x = a * (v * v);
    let y = b * (u * u);
    let z = s * (u * v);
    let w = (u * u) * (v * v);
    assert(0 <= v * v) by (nonlinear_arith);
    assert(0 <= u * u) by (nonlinear_arith);
    assert(0 <= u * v) by (nonlinear_arith)
        requires
            0 <= u,
            0 <= v,
    ;
    assert(0 <= x) by (nonlinear_arith)
        requires
            0 <= a,
            0 <= v * v,
            x == a * (v * v),
    ;
    assert(0 <= y) by (nonlinear_arith)
        requires
            0 <= b,
            0 <= u * u,
            y == b * (u * u),
    ;
    assert(0 <= z) by (nonlinear_arith)
        requires
            0 <= s,
            0 <= u * v,
            z == s * (u * v),
    ;
    assert(0 <= w) by (nonlinear_arith)
        requires
            0 <= u * u,
            0 <= v * v,
            w == (u * u) * (v * v),
    ;
    // x * y == (a * b) * w
    lemma_regroup(a, v * v, b, u * u);
    assert((v * v) * (u * u) == w) by (nonlinear_arith)
        requires
            w == (u * u) * (v * v),
    ;
    assert(x * y == (a * b) * w);
    // z * z == (s * s) * w
    lemma_regroup(s, u * v, s, u * v);
    lemma_regroup(u, v, u, v);
    assert(z * z == (s * s) * w);
    assert((s * s) * w <= (a * b) * w) by (nonlinear_arith)
        requires
            s * s <= a * b,
            0 <= w,
    ;
    assert(z * z <= x * y);
    assert((x + y) * (x + y) - (2 * z) * (2 * z) == (x - y) * (x - y) + 4 * (x * y - z * z))
        by (nonlinear_arith);
    assert((x - y) * (x - y) >= 0) by (nonlinear_arith);
    assert((2 * z) * (2 * z) <= (x + y) * (x + y));
    assert(2 * z <= x + y) by (nonlinear_arith)
        requires
            (2 * z) * (2 * z) <= (x + y) * (x + y),
            0 <= z,
            0 <= x + y,
    ;
}

/// One step of the bound: a product added to the sum, and its factors'
/// squares added to the two sums of squares, keep the square of the first at
/// most the product of the others.
proof fn lemma_bound_step(s: int, a: int, b: int, u: int, v: int, e: int, big: int)
    requires
        0 <= s,
        0 <= a,
        0 <= b,
        0 <= u,
        0 <= v,
        0 < e,
        0 < big,
        s * s <= a * b,
    ensures
        (s * e + (u * v) * big) * (s * e + (u * v) * big) <= (a * e + (u * u) * big) * (b * e + (v
            * v) * big),
{
    lemma_cross_terms(s, a, b, u, v);
    let x = a * (v * v);
    let y = b * (u * u);
    let z = s * (u * v);
    let w = (u * u) * (v * v);
    let k = e * big;
    let p = s * e;
    let q = (u * v) * big;
    let a1 = a * e;
    let a2 = (u * u) * big;
    let b1 = b * e;
    let b2 = (v * v) * big;
    assert((p + q) * (p + q) == p * p + 2 * (p * q) + q * q) by (nonlinear_arith);
    assert((a1 + a2) * (b1 + b2) == a1 * b1 + a1 * b2 + a2 * b1 + a2 * b2) by (nonlinear_arith);
    lemma_regroup(s, e, s, e);
    assert(p * p == (s * s) * (e * e));
    lemma_regroup(s, e, u * v, big);
    assert(p * q == z * k);
    lemma_regroup(u * v, big, u * v, big);
    lemma_regroup(u, v, u, v);
    assert(q * q == w * (big * big));
    lemma_regroup(a, e, b, e);
    assert(a1 * b1 == (a * b) * (e * e));
    lemma_regroup(a, e, v * v, big);
    assert(a1 * b2 == x * k);
    lemma_regroup(u * u, big, b, e);
    assert(a2 * b1 == ((u * u) * b) * (big * e));
    assert((u * u) * b == y) by (nonlinear_arith)
        requires
            y == b * (u * u),
    ;
    assert(big * e == k) by (nonlinear_arith)
        requires
            k == e * big,
    ;
    assert(a2 * b1 == y * k);
    lemma_regroup(u * u, big, v * v, big);
    assert(a2 * b2 == w * (big * big));
    assert(0 < k) by (nonlinear_arith)
        requires
            0 < e,
            0 < big,
            k == e * big,
    ;
    assert(0 <= e * e) by (nonlinear_arith);
    assert((s * s) * (e * e) <= (a * b) * (e * e)) by (nonlinear_arith)
        requires
            s * s <= a * b,
            0 <= e * e,
    ;
    assert(2 * (z * k) <= (x + y) * k) by (nonlinear_arith)
        requires
            2 * z <= x + y,
            0 < k,
    ;
    assert((x + y) * k == x * k + y * k) by (nonlinear_arith);
}

/// The sums of aligned vectors share their denominator, and the square of the
/// sum of products is at most the product of the sums of squares.
pub proof fn lemma_aligned_sums(score: ScoreContent)
    requires
        aligned(score),
    ensures
        raw_score(score.matches).den > 0,
        raw_score(score.matches).den == norm_square(score.document_norm->0).den,
        raw_score(score.matches).den == query_norm_square(score.query_norm).den,
        raw_score(score.matches).num * raw_score(score.matches).num <= query_norm_square(
            score.query_norm,
        ).num * norm_square(score.document_norm->0).num,
    decreases score.matches.len(),
{
    let matches = score.matches;
    let norm = score.document_norm->0;
    let query = score.query_norm;
    if matches.len() > 0 {
        let front = ScoreContent {
            matches: matches.drop_last(),
            document_norm: Some(norm.drop_last()),
            query_norm: query.drop_last(),
        };
        assert(aligned(front)) by {
            assert forall|i: int| 0 <= i < front.matches.len() implies {
                &&& (#[trigger] front.matches[i]).query == front.query_norm[i]
                &&& front.matches[i].frequency == front.document_norm->0[i].frequency
                &&& front.matches[i].weight == front.document_norm->0[i].weight
                &&& front.matches[i].weight == front.query_norm[i].weight
                &&& front.matches[i].weight.den > 0
            } by {
                assert(front.matches[i] == matches[i]);
            }
        }
        lemma_aligned_sums(front);
        let last = matches.last();
        assert(last == matches[matches.len() - 1]);
        let count = last.query.count as int;
        let top = last.weight.num as int;
        let bottom = last.weight.den as int;
        let often = last.frequency as int;
        let u = count * top;
        let v = often * top;
        let e = bottom * bottom;
        let s = raw_score(front.matches).num as int;
        let a = query_norm_square(front.query_norm).num as int;
        let b = norm_square(front.document_norm->0).num as int;
        let big = raw_score(front.matches).den as int;
        assert(0 <= u) by (nonlinear_arith)
            requires
                0 <= count,
                0 <= top,
                u == count * top,
        ;
        assert(0 <= v) by (nonlinear_arith)
            requires
                0 <= often,
                0 <= top,
                v == often * top,
        ;
        assert(0 < e) by (nonlinear_arith)
            requires
                0 < bottom,
                e == bottom * bottom,
        ;
        assert(part_value(last).num == u * v) by (nonlinear_arith)
            requires
                part_value(last).num == ((count * top) * often) * top,
                u == count * top,
                v == often * top,
        ;
        assert(part_value(last).den == e);
        assert(term_square(query.last()).num == u * u);
        assert(term_square(query.last()).den == e);
        assert(component_square(norm.last()).num == v * v);
        assert(component_square(norm.last()).den == e);
        lemma_bound_step(s, a, b, u, v, e, big);
        assert(big * e > 0) by (nonlinear_arith)
            requires
                big > 0,
                e > 0,
        ;
    }
}

/// The cosine of the angle between two weight vectors is at most one: the
/// score of aligned vectors, squared, has a numerator that is at most its
/// denominator.
pub proof fn lemma_cosine_at_most_one(score: ScoreContent)
    requires
        aligned(score),
    ensures
        score_square(score).num <= score_square(score).den,
{
    lemma_aligned_sums(score);
    let raw = raw_score(score.matches);
    let document = norm_square(score.document_norm->0);
    let query = query_norm_square(score.query_norm);
    let s = raw.num as int;
    let big = raw.den as int;
    let a = query.num as int;
    let b = document.num as int;
    assert(s * s * big * big <= big * big * b * a) by (nonlinear_arith)
        requires
            s * s <= a * b,
            0 < big,
    ;
}

} // verus!
