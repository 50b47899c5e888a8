//! Checking at run time that an index is well formed.

use crate::document::{Document, Term};
use crate::index_storage::Index;
use crate::lookup::Key;
use crate::model::{counts_positive, inverted_wf, parts_wf, unique_keys, weights_wf};
use crate::weight::{NormPart, Weight};
use vstd::prelude::*;

verus! {

/// Whether no key is listed twice.
pub fn has_unique_keys<K: Key, V: DeepView>(entries: &Vec<(K, V)>) -> (unique: bool)
    ensures
        unique == unique_keys(entries.deep_view()),
{
    let ghost view = entries.deep_view();
    let mut i: usize = 0;
    while i < entries.len()
        invariant
            i <= entries.len(),
            view == entries.deep_view(),
            forall|a: int, b: int| 0 <= a < b < view.len() && a < i ==> (#[trigger] view[a]).0 != (
            #[trigger] view[b]).0,
        decreases entries.len() - i,
    {
        let mut j: usize = i + 1;
        while j < entries.len()
            invariant
                i < j <= entries.len(),
                view == entries.deep_view(),
                forall|b: int| i < b < j ==> view[i as int].0 != (#[trigger] view[b]).0,
            decreases entries.len() - j,
        {
            if *entries[i].0.text() == *entries[j].0.text() {
                assert(view[i as int].0 == view[j as int].0);
                return false;
            }
            j += 1;
        }
        i += 1;
    }
    true
}

/// Whether the postings of a term are well formed: no document twice, at
/// least one document, every frequency at least one.
pub fn postings_are_valid(postings: &Vec<(Document, u32)>) -> (valid: bool)
    ensures
        valid == (unique_keys(postings.deep_view()) && postings.len() > 0 && counts_positive(
            postings.deep_view(),
        )),
{
    if postings.len() == 0 || !has_unique_keys(postings) {
        return false;
    }
    let mut j: usize = 0;
    while j < postings.len()
        invariant
            j <= postings.len(),
            forall|k: int| 0 <= k < j ==> (#[trigger] postings.deep_view()[k]).1 >= 1,
        decreases postings.len() - j,
    {
        if postings[j].1 == 0 {
            assert(postings.deep_view()[j as int].1 == 0);
            return false;
        }
        j += 1;
    }
    true
}

/// Whether an inverted index is well formed.
pub fn inverted_is_valid(inverted_index: &Vec<(Term, Vec<(Document, u32)>)>) -> (valid: bool)
    ensures
        valid == inverted_wf(inverted_index.deep_view()),
{
    let ghost view = inverted_index.deep_view();
    if !has_unique_keys(inverted_index) {
        return false;
    }
    let mut i: usize = 0;
    while i < inverted_index.len()
        invariant
            i <= inverted_index.len(),
            view == inverted_index.deep_view(),
            unique_keys(view),
            forall|k: int|
                0 <= k < i ==> unique_keys((#[trigger] view[k]).1) && view[k].1.len() > 0
                    && counts_positive(view[k].1),
        decreases inverted_index.len() - i,
    {
        if !postings_are_valid(&inverted_index[i].1) {
            proof {
                let held = view[i as int].1;
                if unique_keys(held) && held.len() > 0 {
                    let j = choose|j: int| 0 <= j < held.len() && !((#[trigger] held[j]).1 >= 1);
                    assert(view[i as int].1[j].1 < 1);
                }
            }
            return false;
        }
        i += 1;
    }
    proof {
        assert forall|a: int, b: int| 0 <= a < view.len() && 0 <= b < view[a].1.len() implies (
        #[trigger] view[a].1[b]).1 >= 1 by {
            assert(counts_positive(view[a].1));
        }
    }
    true
}

/// Whether a weight table is well formed: no term twice, no weight without
/// a denominator.
pub fn weights_are_valid(weights: &Vec<(Term, Weight)>) -> (valid: bool)
    ensures
        valid == (unique_keys(weights.deep_view()) && weights_wf(weights.deep_view())),
{
    if !has_unique_keys(weights) {
        return false;
    }
    let mut i: usize = 0;
    while i < weights.len()
        invariant
            i <= weights.len(),
            forall|k: int| 0 <= k < i ==> (#[trigger] weights.deep_view()[k]).1.wf(),
        decreases weights.len() - i,
    {
        if weights[i].1.den == 0 {
            assert(!weights.deep_view()[i as int].1.wf());
            return false;
        }
        i += 1;
    }
    true
}

/// Whether every weight among the components of a norm has a denominator.
pub fn parts_are_valid(parts: &Vec<NormPart>) -> (valid: bool)
    ensures
        valid == parts_wf(parts.deep_view()),
{
    let mut j: usize = 0;
    while j < parts.len()
        invariant
            j <= parts.len(),
            forall|k: int| 0 <= k < j ==> (#[trigger] parts.deep_view()[k]).weight.wf(),
        decreases parts.len() - j,
    {
        if parts[j].weight.den == 0 {
            assert(!parts.deep_view()[j as int].weight.wf());
            return false;
        }
        j += 1;
    }
    true
}

/// Whether a norm table is well formed: no document twice, no weight without
/// a denominator.
pub fn norms_are_valid(norms: &Vec<(Document, Vec<NormPart>)>) -> (valid: bool)
    ensures
        valid == (unique_keys(norms.deep_view()) && forall|i: int|
            0 <= i < norms.deep_view().len() ==> parts_wf((#[trigger] norms.deep_view()[i]).1)),
{
    if !has_unique_keys(norms) {
        return false;
    }
    let mut i: usize = 0;
    while i < norms.len()
        invariant
            i <= norms.len(),
            forall|k: int| 0 <= k < i ==> parts_wf((#[trigger] norms.deep_view()[k]).1),
        decreases norms.len() - i,
    {
        if !parts_are_valid(&norms[i].1) {
            assert(!parts_wf(norms.deep_view()[i as int].1));
            return false;
        }
        i += 1;
    }
    true
}

impl Index {
    /// Whether the index is well formed.
    pub fn is_well_formed(&self) -> (valid: bool)
        ensures
            valid == self.wf(),
    {
        inverted_is_valid(&self.inverted_index) && weights_are_valid(&self.idf) && norms_are_valid(
            &self.document_norms,
        )
    }
}

} // verus!
