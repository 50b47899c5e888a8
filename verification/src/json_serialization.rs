//! Between the tables of the index and the lists of pairs in which they are
//! persisted. A table lists no key twice; a list of pairs may, and then the
//! later pair wins.

use crate::document::{Document, Term};
use crate::lookup::{find, Key};
use crate::model::{lemma_position, lemma_upsert_unique, position, unique_keys, upsert, Inverted};
use crate::weight::{NormPart, TermWeight, Weight};
use vstd::prelude::*;

verus! {

/// A value of which an equal one can be made.
pub trait Duplicate: DeepView + Sized {
    fn duplicate(&self) -> (copy: Self)
        ensures
            copy.deep_view() == self.deep_view(),
    ;
}

impl Duplicate for u32 {
    fn duplicate(&self) -> (copy: u32) {
        *self
    }
}

impl Duplicate for String {
    fn duplicate(&self) -> (copy: String) {
        self.clone()
    }
}

impl Duplicate for TermWeight {
    fn duplicate(&self) -> (copy: TermWeight) {
        *self
    }
}

impl Duplicate for Weight {
    fn duplicate(&self) -> (copy: Weight) {
        *self
    }
}

impl Duplicate for NormPart {
    fn duplicate(&self) -> (copy: NormPart) {
        *self
    }
}

impl Duplicate for Term {
    fn duplicate(&self) -> (copy: Term) {
        self.clone()
    }
}

impl Duplicate for Document {
    fn duplicate(&self) -> (copy: Document) {
        self.clone()
    }
}

impl<A: Duplicate, B: Duplicate> Duplicate for (A, B) {
    fn duplicate(&self) -> (copy: (A, B)) {
        (self.0.duplicate(), self.1.duplicate())
    }
}

impl<T: Duplicate> Duplicate for Vec<T> {
    fn duplicate(&self) -> (copy: Vec<T>) {
        let mut copy: Vec<T> = Vec::new();
        let mut i: usize = 0;
        while i < self.len()
            invariant
                i <= self.len(),
                copy.deep_view() == self.deep_view().subrange(0, i as int),
            decreases self.len() - i,
        {
            let ghost before = copy.deep_view();
            let item = self[i].duplicate();
            copy.push(item);
            assert(copy.deep_view() =~= before.push(item.deep_view()));
            assert(self.deep_view().subrange(0, i + 1) =~= before.push(self[i as int].deep_view()));
            i += 1;
        }
        assert(self.deep_view().subrange(0, i as int) =~= self.deep_view());
        copy
    }
}

/// The table that a list of pairs gives: the pairs are entered in order, and
/// a pair whose key is listed already replaces the value under it.
pub open spec fn collected<V>(pairs: Seq<(Seq<char>, V)>) -> Seq<(Seq<char>, V)>
    decreases pairs.len(),
{
    if pairs.len() == 0 {
        pairs
    } else {
        upsert(collected(pairs.drop_last()), pairs.last().0, pairs.last().1)
    }
}

/// The inverted index that a list of pairs gives: as `collected`, with each
/// term's postings collected too.
pub open spec fn collected_inverted(pairs: Inverted) -> Inverted
    decreases pairs.len(),
{
    if pairs.len() == 0 {
        pairs
    } else {
        upsert(collected_inverted(pairs.drop_last()), pairs.last().0, collected(pairs.last().1))
    }
}

/// A collected table lists no key twice.
pub proof fn lemma_collected_unique<V>(pairs: Seq<(Seq<char>, V)>)
    ensures
        unique_keys(collected(pairs)),
    decreases pairs.len(),
{
    if pairs.len() > 0 {
        lemma_collected_unique(pairs.drop_last());
        lemma_upsert_unique(collected(pairs.drop_last()), pairs.last().0, pairs.last().1);
    }
}

/// A collected inverted index lists no term twice and, within a term, no
/// document twice.
pub proof fn lemma_collected_inverted_unique(pairs: Inverted)
    ensures
        unique_keys(collected_inverted(pairs)),
        forall|i: int|
            0 <= i < collected_inverted(pairs).len() ==> unique_keys(
                (#[trigger] collected_inverted(pairs)[i]).1,
            ),
    decreases pairs.len(),
{
    if pairs.len() > 0 {
        let before = collected_inverted(pairs.drop_last());
        let held = collected(pairs.last().1);
        let after = collected_inverted(pairs);
        lemma_collected_inverted_unique(pairs.drop_last());
        lemma_collected_unique(pairs.last().1);
        lemma_upsert_unique(before, pairs.last().0, held);
        lemma_position(before, pairs.last().0);
        assert forall|i: int| 0 <= i < after.len() implies unique_keys((#[trigger] after[i]).1) by {
            if i < before.len() && i != position(before, pairs.last().0) {
                assert(after[i] == before[i]);
            }
        }
    }
}

/// The pairs of a table, collected, are the table.
pub proof fn lemma_collected_table<V>(table: Seq<(Seq<char>, V)>)
    requires
        unique_keys(table),
    ensures
        collected(table) == table,
    decreases table.len(),
{
    if table.len() > 0 {
        let front = table.drop_last();
        assert forall|i: int, j: int| 0 <= i < j < front.len() implies (#[trigger] front[i]).0 != (
        #[trigger] front[j]).0 by {
            assert(front[i] == table[i]);
            assert(front[j] == table[j]);
        }
        lemma_collected_table(front);
        lemma_position(front, table.last().0);
        if position(front, table.last().0) >= 0 {
            let at = position(front, table.last().0);
            assert(front[at] == table[at]);
            assert(table[at].0 != table[table.len() - 1].0);
        }
        assert(front.push(table.last()) =~= table);
    }
}

/// The pairs of a well-formed inverted index, collected, are that index.
pub proof fn lemma_collected_inverted_table(index: Inverted)
    requires
        unique_keys(index),
        forall|i: int| 0 <= i < index.len() ==> unique_keys((#[trigger] index[i]).1),
    ensures
        collected_inverted(index) == index,
    decreases index.len(),
{
    if index.len() > 0 {
        let front = index.drop_last();
        assert forall|i: int, j: int| 0 <= i < j < front.len() implies (#[trigger] front[i]).0 != (
        #[trigger] front[j]).0 by {
            assert(front[i] == index[i]);
            assert(front[j] == index[j]);
        }
        assert forall|i: int| 0 <= i < front.len() implies unique_keys((#[trigger] front[i]).1) by {
            assert(front[i] == index[i]);
        }
        lemma_collected_inverted_table(front);
        lemma_collected_table(index.last().1);
        lemma_position(front, index.last().0);
        if position(front, index.last().0) >= 0 {
            let at = position(front, index.last().0);
            assert(front[at] == index[at]);
            assert(index[at].0 != index[index.len() - 1].0);
        }
        assert(front.push(index.last()) =~= index);
    }
}

/// The pairs of a table, in the table's order.
pub fn serialize_hashmap_to_vec<K: Key + Duplicate, V: Duplicate>(table: &Vec<(K, V)>) -> (pairs:
    Vec<(K, V)>)
    ensures
        pairs.deep_view() == table.deep_view(),
{
    table.duplicate()
}

/// The pairs of an inverted index: each term with the pairs of its postings.
pub fn serialize_inverted_index(inverted_index: &Vec<(Term, Vec<(Document, u32)>)>) -> (pairs: Vec<
    (Term, Vec<(Document, u32)>),
>)
    ensures
        pairs.deep_view() == inverted_index.deep_view(),
{
    inverted_index.duplicate()
}

/// The table that a list of pairs gives.
pub fn deserialize_vec_to_hashmap<K: Key + Duplicate, V: Duplicate>(pairs: &Vec<(K, V)>) -> (table:
    Vec<(K, V)>)
    ensures
        table.deep_view() == collected(pairs.deep_view()),
        unique_keys(table.deep_view()),
{
    let mut table: Vec<(K, V)> = Vec::new();
    let mut i: usize = 0;
    assert(pairs.deep_view().subrange(0, 0) =~= Seq::empty());
    assert(table.deep_view() =~= Seq::empty());
    while i < pairs.len()
        invariant
            i <= pairs.len(),
            table.deep_view() == collected(pairs.deep_view().subrange(0, i as int)),
        decreases pairs.len() - i,
    {
        let ghost before = table.deep_view();
        let ghost pair = pairs.deep_view()[i as int];
        proof {
            let next = pairs.deep_view().subrange(0, i + 1);
            assert(next.drop_last() =~= pairs.deep_view().subrange(0, i as int));
            assert(next.last() == pair);
            lemma_position(before, pair.0);
        }
        let value = pairs[i].1.duplicate();
        match find(&table, pairs[i].0.text()) {
            Some(at) => {
                table[at].1 = value;
                assert(table.deep_view() =~= upsert(before, pair.0, pair.1));
            },
            None => {
                table.push((pairs[i].0.duplicate(), value));
                assert(table.deep_view() =~= upsert(before, pair.0, pair.1));
            },
        }
        i += 1;
    }
    proof {
        assert(pairs.deep_view().subrange(0, i as int) =~= pairs.deep_view());
        lemma_collected_unique(pairs.deep_view());
    }
    table
}

/// The inverted index that a list of pairs gives.
pub fn deserialize_inverted_index(pairs: &Vec<(Term, Vec<(Document, u32)>)>) -> (table: Vec<
    (Term, Vec<(Document, u32)>),
>)
    ensures
        table.deep_view() == collected_inverted(pairs.deep_view()),
{
    let mut table: Vec<(Term, Vec<(Document, u32)>)> = Vec::new();
    let mut i: usize = 0;
    assert(pairs.deep_view().subrange(0, 0) =~= Seq::empty());
    assert(table.deep_view() =~= Seq::empty());
    while i < pairs.len()
        invariant
            i <= pairs.len(),
            table.deep_view() == collected_inverted(pairs.deep_view().subrange(0, i as int)),
        decreases pairs.len() - i,
    {
        let ghost before = table.deep_view();
        let ghost pair = pairs.deep_view()[i as int];
        proof {
            let next = pairs.deep_view().subrange(0, i + 1);
            assert(next.drop_last() =~= pairs.deep_view().subrange(0, i as int));
            assert(next.last() == pair);
            lemma_position(before, pair.0);
        }
        let held = deserialize_vec_to_hashmap(&pairs[i].1);
        match find(&table, pairs[i].0.text()) {
            Some(at) => {
                table[at].1 = held;
                assert(table.deep_view() =~= upsert(before, pair.0, collected(pair.1)));
            },
            None => {
                table.push((pairs[i].0.duplicate(), held));
                assert(table.deep_view() =~= upsert(before, pair.0, collected(pair.1)));
            },
        }
        i += 1;
    }
    assert(pairs.deep_view().subrange(0, i as int) =~= pairs.deep_view());
    table
}

} // verus!
