//! The order of search results: by score, highest first; among equal scores
//! by the document's path, in the order of its characters.

use crate::fraction::{at_least, lemma_at_least_total, lemma_at_least_transitive, FractionView};
use crate::search_result::SearchResult;
use crate::text_processing::chars_of;
use vstd::prelude::*;

verus! {

/// Whether a text stands at or before another in the order of their
/// characters: the first differing character decides, and a text stands
/// before its extensions.
pub open spec fn text_le(a: Seq<char>, b: Seq<char>) -> bool
    decreases a.len(),
{
    if a.len() == 0 {
        true
    } else if b.len() == 0 {
        false
    } else if a[0] != b[0] {
        (a[0] as int) < (b[0] as int)
    } else {
        text_le(a.drop_first(), b.drop_first())
    }
}

/// Of two texts, one stands at or before the other.
pub proof fn lemma_text_le_total(a: Seq<char>, b: Seq<char>)
    ensures
        text_le(a, b) || text_le(b, a),
    decreases a.len(),
{
    if a.len() > 0 && b.len() > 0 {
        if a[0] == b[0] {
            lemma_text_le_total(a.drop_first(), b.drop_first());
        }
    }
}

/// The order of texts is transitive.
pub proof fn lemma_text_le_transitive(a: Seq<char>, b: Seq<char>, c: Seq<char>)
    requires
        text_le(a, b),
        text_le(b, c),
    ensures
        text_le(a, c),
    decreases a.len(),
{
    if a.len() > 0 && b.len() > 0 && c.len() > 0 && a[0] == b[0] && b[0] == c[0] {
        lemma_text_le_transitive(a.drop_first(), b.drop_first(), c.drop_first());
    }
}

/// Two texts that stand at or before each other are the same text.
pub proof fn lemma_text_le_antisymmetric(a: Seq<char>, b: Seq<char>)
    requires
        text_le(a, b),
        text_le(b, a),
    ensures
        a == b,
    decreases a.len(),
{
    if a.len() == 0 || b.len() == 0 {
        assert(a.len() == 0 && b.len() == 0);
        assert(a =~= b);
    } else {
        let rest_a = a.drop_first();
        let rest_b = b.drop_first();
        assert(a[0] == b[0]);
        lemma_text_le_antisymmetric(rest_a, rest_b);
        assert(a.len() == b.len()) by {
            assert(rest_a.len() == a.len() - 1);
            assert(rest_b.len() == b.len() - 1);
        }
        assert forall|i: int| 0 <= i < a.len() implies a[i] == b[i] by {
            if i > 0 {
                assert(rest_a[i - 1] == a[i]);
                assert(rest_b[i - 1] == b[i]);
            }
        }
        assert(a =~= b);
    }
}

proof fn lemma_text_le_skip(a: Seq<char>, b: Seq<char>, n: int)
    requires
        0 <= n <= a.len(),
        n <= b.len(),
        forall|k: int| 0 <= k < n ==> a[k] == b[k],
    ensures
        text_le(a, b) == text_le(a.subrange(n, a.len() as int), b.subrange(n, b.len() as int)),
    decreases n,
{
    if n == 0 {
        assert(a.subrange(0, a.len() as int) =~= a);
        assert(b.subrange(0, b.len() as int) =~= b);
    } else {
        let a1 = a.drop_first();
        let b1 = b.drop_first();
        assert forall|k: int| 0 <= k < n - 1 implies a1[k] == b1[k] by {
            assert(a1[k] == a[k + 1]);
            assert(b1[k] == b[k + 1]);
        }
        lemma_text_le_skip(a1, b1, n - 1);
        assert(a1.subrange(n - 1, a1.len() as int) =~= a.subrange(n, a.len() as int));
        assert(b1.subrange(n - 1, b1.len() as int) =~= b.subrange(n, b.len() as int));
        assert(a[0] == b[0]);
    }
}

/// Whether a text stands at or before another.
pub fn text_at_or_before(a: &String, b: &String) -> (le: bool)
    ensures
        le == text_le(a@, b@),
{
    let left = chars_of(a.as_str());
    let right = chars_of(b.as_str());
    let mut i: usize = 0;
    while i < left.len() && i < right.len()
        invariant
            i <= left.len(),
            i <= right.len(),
            left@ == a@,
            right@ == b@,
            forall|k: int| 0 <= k < i ==> left@[k] == right@[k],
        decreases left.len() - i,
    {
        if left[i] != right[i] {
            proof {
                let x = left@[i as int];
                let y = right@[i as int];
                let rest_left = left@.subrange(i as int, left@.len() as int);
                let rest_right = right@.subrange(i as int, right@.len() as int);
                lemma_text_le_skip(left@, right@, i as int);
                assert(rest_left[0] == x);
                assert(rest_right[0] == y);
                assert(text_le(rest_left, rest_right) == ((x as int) < (y as int)));
            }
            let here: char = left[i];
            let there: char = right[i];
            return here < there;
        }
        i += 1;
    }
    proof {
        lemma_text_le_skip(left@, right@, i as int);
    }
    left.len() <= right.len()
}

/// What decides the place of a result: its score and the path of its
/// document.
pub type RankKey = (FractionView, Seq<char>);

/// The key of a result.
pub open spec fn rank_key(result: SearchResult) -> RankKey {
    (result.score.deep_view(), result.document@)
}

/// Whether a key may stand before another: its score is higher, or the
/// scores are equal and its path stands at or before the other's.
pub open spec fn key_precedes(a: RankKey, b: RankKey) -> bool {
    !at_least(b.0, a.0) || (at_least(a.0, b.0) && text_le(a.1, b.1))
}

/// Whether a result may stand before another.
pub open spec fn precedes(a: SearchResult, b: SearchResult) -> bool {
    key_precedes(rank_key(a), rank_key(b))
}

/// Of two keys, one may stand before the other.
pub proof fn lemma_precedes_total(a: RankKey, b: RankKey)
    ensures
        key_precedes(a, b) || key_precedes(b, a),
{
    lemma_text_le_total(a.1, b.1);
}

/// A key that may stand before a second, which may stand before a third,
/// may stand before the third.
pub proof fn lemma_precedes_transitive(a: RankKey, b: RankKey, c: RankKey)
    requires
        key_precedes(a, b),
        key_precedes(b, c),
    ensures
        key_precedes(a, c),
{
    let (x, y, z) = (a.0, b.0, c.0);
    lemma_at_least_total(x, y);
    lemma_at_least_total(y, z);
    if at_least(z, x) {
        if at_least(x, y) {
            lemma_at_least_transitive(z, x, y);
        }
        if at_least(y, z) {
            lemma_at_least_transitive(y, z, x);
        }
        assert(at_least(y, x) && at_least(z, y));
        lemma_at_least_transitive(x, y, z);
        lemma_text_le_transitive(a.1, b.1, c.1);
    }
}

/// Two keys that may each stand before the other have the same path.
pub proof fn lemma_precedes_both_ways(a: RankKey, b: RankKey)
    requires
        key_precedes(a, b),
        key_precedes(b, a),
    ensures
        a.1 == b.1,
{
    lemma_at_least_total(a.0, b.0);
    lemma_text_le_antisymmetric(a.1, b.1);
}

/// Each result may stand before all that follow it.
pub open spec fn ranked(results: Seq<SearchResult>) -> bool {
    forall|i: int, j: int| 0 <= i < j < results.len() ==> precedes(results[i], results[j])
}

/// Each key may stand before all that follow it.
pub open spec fn keys_ranked(keys: Seq<RankKey>) -> bool {
    forall|i: int, j: int| 0 <= i < j < keys.len() ==> key_precedes(keys[i], keys[j])
}

/// The paths of the documents of the results, in order.
pub open spec fn documents_of(results: Seq<SearchResult>) -> Seq<Seq<char>> {
    results.map_values(|r: SearchResult| r.document@)
}

/// The keys of the results, in order.
pub open spec fn keys_of(results: Seq<SearchResult>) -> Seq<RankKey> {
    results.map_values(|r: SearchResult| rank_key(r))
}

/// The ranking is determined: keys of distinct paths can be ranked in one
/// order only.
pub proof fn lemma_ranking_is_unique(a: Seq<RankKey>, b: Seq<RankKey>)
    requires
        keys_ranked(a),
        keys_ranked(b),
        a.to_multiset() == b.to_multiset(),
        forall|i: int, j: int| 0 <= i < j < a.len() ==> (#[trigger] a[i]).1 != (#[trigger] a[j]).1,
    ensures
        a == b,
    decreases a.len(),
{
    a.to_multiset_ensures();
    b.to_multiset_ensures();
    if a.len() == 0 {
        assert(a =~= b);
    } else {
        assert(a.contains(a[0]));
        assert(b.to_multiset().count(a[0]) > 0);
        assert(b.contains(a[0]));
        let j = choose|j: int| 0 <= j < b.len() && b[j] == a[0];
        assert(b.contains(b[0]));
        assert(a.to_multiset().count(b[0]) > 0);
        assert(a.contains(b[0]));
        let i = choose|i: int| 0 <= i < a.len() && a[i] == b[0];
        if i > 0 && j > 0 {
            assert(key_precedes(a[0], a[i]));
            assert(key_precedes(b[0], b[j]));
            lemma_precedes_both_ways(a[0], b[0]);
            assert(a[0].1 != a[i].1);
        }
        assert(a[0] == b[0]);
        let rest_a = a.remove(0);
        let rest_b = b.remove(0);
        assert(rest_a.to_multiset() =~= rest_b.to_multiset());
        assert forall|x: int, y: int| 0 <= x < y < rest_a.len() implies key_precedes(
            rest_a[x],
            rest_a[y],
        ) by {
            assert(rest_a[x] == a[x + 1]);
            assert(rest_a[y] == a[y + 1]);
        }
        assert forall|x: int, y: int| 0 <= x < y < rest_b.len() implies key_precedes(
            rest_b[x],
            rest_b[y],
        ) by {
            assert(rest_b[x] == b[x + 1]);
            assert(rest_b[y] == b[y + 1]);
        }
        assert forall|x: int, y: int| 0 <= x < y < rest_a.len() implies (#[trigger] rest_a[x]).1 != (
        #[trigger] rest_a[y]).1 by {
            assert(rest_a[x] == a[x + 1]);
            assert(rest_a[y] == a[y + 1]);
        }
        lemma_ranking_is_unique(rest_a, rest_b);
        assert(a =~= b) by {
            assert(a.len() == b.len());
            assert forall|k: int| 0 <= k < a.len() implies a[k] == b[k] by {
                if k > 0 {
                    assert(rest_a[k - 1] == a[k]);
                    assert(rest_b[k - 1] == b[k]);
                }
            }
        }
    }
}

/// Whether a result may stand before another.
pub fn may_precede(a: &SearchResult, b: &SearchResult) -> (before: bool)
    ensures
        before == precedes(*a, *b),
{
    let above = a.score.at_least(&b.score);
    let below = b.score.at_least(&a.score);
    !below || (above && text_at_or_before(&a.document.path, &b.document.path))
}

/// Orders results by score, highest first, and among equal scores by path.
pub fn sort_by_score(results: Vec<SearchResult>) -> (sorted: Vec<SearchResult>)
    ensures
        ranked(sorted@),
        sorted@.to_multiset() == results@.to_multiset(),
        documents_of(sorted@).to_multiset() == documents_of(results@).to_multiset(),
{
    broadcast use vstd::multiset::group_multiset_axioms;

    let mut rest = results;
    let mut sorted: Vec<SearchResult> = Vec::new();
    proof {
        assert(sorted@.to_multiset() =~= vstd::multiset::Multiset::empty()) by {
            sorted@.to_multiset_ensures();
        }
        assert(documents_of(sorted@) =~= Seq::empty());
        assert(documents_of(sorted@).to_multiset() =~= vstd::multiset::Multiset::empty()) by {
            documents_of(sorted@).to_multiset_ensures();
        }
    }
    while rest.len() > 0
        invariant
            ranked(sorted@),
            sorted@.to_multiset().add(rest@.to_multiset()) == results@.to_multiset(),
            documents_of(sorted@).to_multiset().add(documents_of(rest@).to_multiset())
                == documents_of(results@).to_multiset(),
        decreases rest.len(),
    {
        let ghost rest_before = rest@;
        let ghost sorted_before = sorted@;
        let next = rest.pop().unwrap();
        let mut at: usize = 0;
        while at < sorted.len() && !may_precede(&next, &sorted[at])
            invariant
                at <= sorted.len(),
                sorted@ == sorted_before,
                forall|k: int| 0 <= k < at ==> precedes(#[trigger] sorted@[k], next),
            decreases sorted.len() - at,
        {
            proof {
                lemma_precedes_total(rank_key(next), rank_key(sorted@[at as int]));
            }
            at += 1;
        }
        sorted.insert(at, next);
        proof {
            assert forall|i: int, j: int| 0 <= i < j < sorted@.len() implies precedes(
                sorted@[i],
                sorted@[j],
            ) by {
                if j == at {
                    assert(sorted@[i] == sorted_before[i]);
                } else if i == at {
                    assert(sorted@[j] == sorted_before[j - 1]);
                    if j - 1 > at {
                        assert(precedes(sorted_before[at as int], sorted_before[j - 1]));
                        lemma_precedes_transitive(
                            rank_key(next),
                            rank_key(sorted_before[at as int]),
                            rank_key(sorted_before[j - 1]),
                        );
                    }
                } else {
                    let a = if i < at { i } else { i - 1 };
                    let b = if j < at { j } else { j - 1 };
                    assert(sorted@[i] == sorted_before[a]);
                    assert(sorted@[j] == sorted_before[b]);
                }
            }
            to_multiset_insert_at(sorted_before, at as int, next);
            assert(rest_before =~= rest@.push(next));
            rest@.to_multiset_ensures();
            assert(documents_of(sorted@) =~= documents_of(sorted_before).insert(
                at as int,
                next.document@,
            ));
            to_multiset_insert_at(documents_of(sorted_before), at as int, next.document@);
            assert(documents_of(rest_before) =~= documents_of(rest@).push(next.document@));
            documents_of(rest@).to_multiset_ensures();
            assert(sorted@.to_multiset().add(rest@.to_multiset()) =~= sorted_before.to_multiset().add(
                rest_before.to_multiset(),
            ));
            assert(documents_of(sorted@).to_multiset().add(documents_of(rest@).to_multiset())
                =~= documents_of(sorted_before).to_multiset().add(
                documents_of(rest_before).to_multiset(),
            ));
        }
    }
    proof {
        rest@.to_multiset_ensures();
        documents_of(rest@).to_multiset_ensures();
        assert(rest@.to_multiset() =~= vstd::multiset::Multiset::empty());
        assert(documents_of(rest@).to_multiset() =~= vstd::multiset::Multiset::empty());
        assert(sorted@.to_multiset().add(rest@.to_multiset()) =~= sorted@.to_multiset());
        assert(documents_of(sorted@).to_multiset().add(documents_of(rest@).to_multiset())
            =~= documents_of(sorted@).to_multiset());
    }
    sorted
}

/// Inserting into a sequence adds the element to its multiset.
proof fn to_multiset_insert_at<A>(s: Seq<A>, at: int, a: A)
    requires
        0 <= at <= s.len(),
    ensures
        s.insert(at, a).to_multiset() == s.to_multiset().insert(a),
{
    vstd::seq_lib::to_multiset_insert(s, at, a);
}

} // verus!
