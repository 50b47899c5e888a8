//! Searching the association lists of the index.

use crate::document::{Document, Term};
use crate::model::{lemma_position_absent, lemma_position_at, position};
use vstd::prelude::*;

verus! {

/// A key of an association list: a value that stands for a text.
pub trait Key: DeepView<V = Seq<char>> + Sized {
    /// The text the key stands for.
    fn text(&self) -> (text: &String)
        ensures
            text@ == self.deep_view(),
    ;
}

impl Key for Term {
    fn text(&self) -> (text: &String) {
        &self.0
    }
}

impl Key for Document {
    fn text(&self) -> (text: &String) {
        &self.path
    }
}

/// The place of a key in an association list.
pub fn find<K: Key, V: DeepView>(entries: &Vec<(K, V)>, key: &String) -> (found: Option<usize>)
    ensures
        match found {
            Some(at) => position(entries.deep_view(), key@) == at,
            None => position(entries.deep_view(), key@) == -1,
        },
{
    let mut i: usize = 0;
    while i < entries.len()
        invariant
            i <= entries.len(),
            forall|j: int| 0 <= j < i ==> (#[trigger] entries.deep_view()[j]).0 != key@,
        decreases entries.len() - i,
    {
        if *entries[i].0.text() == *key {
            proof {
                assert(entries.deep_view()[i as int].0 == key@);
                lemma_position_at(entries.deep_view(), key@, i as int);
            }
            return Some(i);
        }
        assert(entries.deep_view()[i as int].0 != key@);
        i += 1;
    }
    proof {
        lemma_position_absent(entries.deep_view(), key@);
    }
    None
}

} // verus!
