//! The index: per-term postings with frequencies, per-term weights,
//! per-document norms and the count of ingested documents.

use crate::document::{Document, Term};
use crate::lookup::find;
use crate::model::{
    document_frequency, finalized, finalized_index, fits, frequencies_below, frequency, index_wf,
    ingested, lemma_finalized_weight, lemma_finalized_wf, lemma_fits_prefix, lemma_frequency_below,
    lemma_ingestion_adds_occurrences, lemma_occurrences, lemma_position, lemma_upsert_unique,
    lemma_with_token_wf, norm_parts, occurrences, position, upsert, weight_of, with_token,
    with_tokens, IndexView, Inverted, Norms, Weights,
};
use crate::soundness::{lemma_empty_sound, lemma_finalized_sound, lemma_ingested_sound, sound};
use crate::text_processing::{normalize, normalized};
use crate::weight::{NormPart, Weight};
use vstd::prelude::*;

verus! {

/// How often a token occurs among tokens.
pub fn count_occurrences(tokens: &Vec<String>, token: &String) -> (count: usize)
    ensures
        count == occurrences(tokens.deep_view(), token@),
{
    let mut count: usize = 0;
    let mut i: usize = 0;
    while i < tokens.len()
        invariant
            i <= tokens.len(),
            count <= i,
            count == occurrences(tokens.deep_view().subrange(0, i as int), token@),
        decreases tokens.len() - i,
    {
        proof {
            let next = tokens.deep_view().subrange(0, i + 1);
            assert(next.drop_last() =~= tokens.deep_view().subrange(0, i as int));
            assert(next.last() == tokens[i as int]@);
        }
        if tokens[i] == *token {
            count += 1;
        }
        i += 1;
    }
    assert(tokens.deep_view().subrange(0, i as int) =~= tokens.deep_view());
    count
}

/// The index of a collection: what each term occurs in and how often, what
/// each term weighs, how long each document's weight vector is, and how many
/// documents were ingested. The tables are lists of pairs in the order in
/// which their keys first came.
pub struct Index {
    /// Each term with the documents that hold it and its frequency in each.
    pub inverted_index: Vec<(Term, Vec<(Document, u32)>)>,
    /// The weight of each term, as the last finalization left it.
    pub idf: Vec<(Term, Weight)>,
    /// The components of each document's norm, as its last ingestion left them.
    pub document_norms: Vec<(Document, Vec<NormPart>)>,
    /// How many ingestions there were.
    pub num_docs: usize,
}

impl View for Index {
    type V = IndexView;

    open spec fn view(&self) -> IndexView {
        IndexView {
            postings: self.postings(),
            weights: self.weights(),
            norms: self.norms(),
            documents: self.num_docs as nat,
        }
    }
}

impl Index {
    /// The inverted index as a mathematical association list.
    pub open spec fn postings(&self) -> Inverted {
        self.inverted_index.deep_view()
    }

    /// The weight table as a mathematical association list.
    pub open spec fn weights(&self) -> Weights {
        self.idf.deep_view()
    }

    /// The norm table as a mathematical association list.
    pub open spec fn norms(&self) -> Norms {
        self.document_norms.deep_view()
    }

    /// No table lists a key twice, every listed term has a document, every
    /// frequency is at least one, and every weight has a denominator.
    pub open spec fn wf(&self) -> bool {
        index_wf(self@)
    }

    /// Beyond well-formedness: no weight and no component of a norm is zero,
    /// and every document that occurs in the index has a norm with a
    /// component. Ingestion and finalization keep it; the scores of a sound
    /// index all have a value.
    pub open spec fn sound(&self) -> bool {
        sound(self@)
    }

    /// An index with nothing in it.
    pub fn new() -> (index: Index)
        ensures
            index.wf(),
            index.postings() == Seq::<(Seq<char>, Seq<(Seq<char>, u32)>)>::empty(),
            index.weights() == Seq::<(Seq<char>, Weight)>::empty(),
            index.norms() == Seq::<(Seq<char>, Seq<NormPart>)>::empty(),
            index.num_docs == 0,
            index.sound(),
    {
        let index = Index {
            inverted_index: Vec::new(),
            idf: Vec::new(),
            document_norms: Vec::new(),
            num_docs: 0,
        };
        assert(index.postings() =~= Seq::empty());
        assert(index.weights() =~= Seq::empty());
        assert(index.norms() =~= Seq::empty());
        proof {
            lemma_empty_sound(index@);
        }
        index
    }

    /// Records one more occurrence of a token in a document.
    pub fn insert_token(&mut self, token: &str, document: &Document)
        requires
            frequency(old(self).postings(), token@, document@) < u32::MAX,
        ensures
            final(self).postings() == with_token(old(self).postings(), token@, document@),
            final(self).idf == old(self).idf,
            final(self).document_norms == old(self).document_norms,
            final(self).num_docs == old(self).num_docs,
    {
        let term = token.to_owned();
        let ghost before = self.postings();
        proof {
            lemma_position(before, token@);
        }
        match find(&self.inverted_index, &term) {
            Some(i) => {
                let ghost held = before[i as int].1;
                proof {
                    lemma_position(held, document@);
                }
                match find(&self.inverted_index[i].1, &document.path) {
                    Some(j) => {
                        self.inverted_index[i].1[j].1 += 1;
                        assert(self.postings() =~= with_token(before, token@, document@)) by {
                            assert(self.postings()[i as int].1 =~= held.update(
                                j as int,
                                (document@, (held[j as int].1 + 1) as u32),
                            ));
                        }
                    },
                    None => {
                        self.inverted_index[i].1.push((document.clone(), 1));
                        assert(self.postings() =~= with_token(before, token@, document@)) by {
                            assert(self.postings()[i as int].1 =~= held.push((document@, 1u32)));
                        }
                    },
                }
            },
            None => {
                let mut held: Vec<(Document, u32)> = Vec::new();
                held.push((document.clone(), 1));
                assert(held.deep_view() =~= seq![(document@, 1u32)]);
                self.inverted_index.push((Term(term), held));
                assert(self.postings() =~= with_token(before, token@, document@));
            },
        }
    }

    /// How often a term occurs in a document; zero where none is recorded.
    pub fn term_frequency(&self, term: &Term, document: &Document) -> (count: u32)
        ensures
            count == frequency(self.postings(), term@, document@),
    {
        self.frequency_of(&term.0, &document.path)
    }

    /// How often the term of the given text occurs in the document of the
    /// given path; zero where none is recorded.
    pub fn frequency_of(&self, term: &String, path: &String) -> (count: u32)
        ensures
            count == frequency(self.postings(), term@, path@),
    {
        proof {
            lemma_position(self.postings(), term@);
        }
        match find(&self.inverted_index, term) {
            Some(at) => {
                proof {
                    lemma_position(self.postings()[at as int].1, path@);
                }
                match find(&self.inverted_index[at].1, path) {
                    Some(within) => self.inverted_index[at].1[within].1,
                    None => 0,
                }
            },
            None => 0,
        }
    }

    /// In how many documents a term is recorded.
    pub fn document_frequency(&self, term: &Term) -> (count: usize)
        ensures
            count == document_frequency(self.postings(), term@),
    {
        proof {
            lemma_position(self.postings(), term@);
        }
        match find(&self.inverted_index, &term.0) {
            Some(at) => self.inverted_index[at].1.len(),
            None => 0,
        }
    }

    /// The weight of a term: what the last finalization gave it, or one.
    pub fn weight(&self, term: &Term) -> (weight: Weight)
        ensures
            weight == weight_of(self.weights(), term@),
    {
        proof {
            lemma_position(self.weights(), term@);
        }
        match find(&self.idf, &term.0) {
            Some(at) => self.idf[at].1,
            None => Weight::one(),
        }
    }

    /// Whether the counters can take the document: the count of documents
    /// can grow by one, and each term's frequency in the document can grow
    /// by the term's occurrences among the tokens.
    pub open spec fn has_room(&self, document: Seq<char>, tokens: Seq<Seq<char>>) -> bool {
        &&& self.num_docs < usize::MAX
        &&& fits(self.postings(), tokens, document)
    }

    /// The largest frequency that the index records; zero where it records
    /// none.
    pub fn max_frequency(&self) -> (largest: u32)
        ensures
            frequencies_below(self.postings(), largest as int),
            largest == 0 || exists|i: int, j: int|
                0 <= i < self.postings().len() && 0 <= j < self.postings()[i].1.len() && (
                #[trigger] self.postings()[i].1[j]).1 == largest,
    {
        let mut largest: u32 = 0;
        let mut i: usize = 0;
        while i < self.inverted_index.len()
            invariant
                i <= self.inverted_index.len(),
                forall|a: int, b: int|
                    0 <= a < i && 0 <= b < self.postings()[a].1.len() ==> (
                    #[trigger] self.postings()[a].1[b]).1 <= largest,
                largest == 0 || exists|a: int, b: int|
                    0 <= a < self.postings().len() && 0 <= b < self.postings()[a].1.len() && (
                    #[trigger] self.postings()[a].1[b]).1 == largest,
            decreases self.inverted_index.len() - i,
        {
            let mut j: usize = 0;
            while j < self.inverted_index[i as usize].1.len()
                invariant
                    i < self.inverted_index.len(),
                    j <= self.inverted_index[i as int].1.len(),
                    self.postings()[i as int].1.len() == self.inverted_index[i as int].1.len(),
                    forall|a: int, b: int|
                        0 <= a < i && 0 <= b < self.postings()[a].1.len() ==> (
                        #[trigger] self.postings()[a].1[b]).1 <= largest,
                    forall|b: int| 0 <= b < j ==> (#[trigger] self.postings()[i as int].1[b]).1
                        <= largest,
                    largest == 0 || exists|a: int, b: int|
                        0 <= a < self.postings().len() && 0 <= b < self.postings()[a].1.len() && (
                        #[trigger] self.postings()[a].1[b]).1 == largest,
                decreases self.inverted_index[i as int].1.len() - j,
            {
                let count = self.inverted_index[i].1[j].1;
                if count > largest {
                    largest = count;
                    assert(self.postings()[i as int].1[j as int].1 == largest);
                }
                j += 1;
            }
            i += 1;
        }
        largest
    }

    /// Takes the components of a document's norm from the index as it
    /// stands, and stores them under the document.
    pub fn update_document_norm(&mut self, document: &Document)
        requires
            old(self).wf(),
        ensures
            final(self).wf(),
            final(self).norms() == upsert(
                old(self).norms(),
                document@,
                norm_parts(old(self).postings(), old(self).weights(), document@),
            ),
            final(self).inverted_index == old(self).inverted_index,
            final(self).idf == old(self).idf,
            final(self).num_docs == old(self).num_docs,
    {
        let mut parts: Vec<NormPart> = Vec::new();
        let mut i: usize = 0;
        while i < self.inverted_index.len()
            invariant
                i <= self.inverted_index.len(),
                *self == *old(self),
                self.wf(),
                parts.deep_view() == norm_parts(
                    self.postings().subrange(0, i as int),
                    self.weights(),
                    document@,
                ),
                forall|k: int| 0 <= k < parts.len() ==> (#[trigger] parts[k]).weight.wf(),
            decreases self.inverted_index.len() - i,
        {
            proof {
                let next = self.postings().subrange(0, i + 1);
                assert(next.drop_last() =~= self.postings().subrange(0, i as int));
                assert(next.last() == self.postings()[i as int]);
                lemma_position(self.postings()[i as int].1, document@);
                lemma_position(self.weights(), self.postings()[i as int].0);
            }
            match find(&self.inverted_index[i].1, &document.path) {
                Some(j) => {
                    let weight = match find(&self.idf, &self.inverted_index[i].0.0) {
                        Some(k) => {
                            assert(self.weights()[k as int].1.wf());
                            self.idf[k].1
                        },
                        None => Weight::one(),
                    };
                    let ghost before = parts.deep_view();
                    let part = NormPart { frequency: self.inverted_index[i].1[j].1, weight };
                    parts.push(part);
                    assert(parts.deep_view() =~= before.push(part));
                },
                None => {},
            }
            i += 1;
        }
        assert(self.postings().subrange(0, i as int) =~= self.postings());
        let ghost norms = self.norms();
        proof {
            lemma_position(norms, document@);
            lemma_upsert_unique(norms, document@, parts.deep_view());
        }
        match find(&self.document_norms, &document.path) {
            Some(k) => {
                self.document_norms[k].1 = parts;
                assert(self.norms() =~= upsert(norms, document@, parts.deep_view()));
            },
            None => {
                self.document_norms.push((document.clone(), parts));
                assert(self.norms() =~= upsert(norms, document@, parts.deep_view()));
            },
        }
        proof {
            let after = self.norms();
            let at = position(norms, document@);
            assert forall|a: int, b: int|
                0 <= a < after.len() && 0 <= b < after[a].1.len() implies (
            #[trigger] after[a].1[b]).weight.wf() by {
                if a < norms.len() && a != at {
                    assert(after[a] == norms[a]);
                    assert(norms[a].1[b].weight.wf());
                } else {
                    assert(after[a].1 == parts.deep_view());
                    assert(parts[b].weight.wf());
                }
            }
        }
    }

    /// Ingests a document given as its tokens: counts the ingestion, records
    /// one occurrence per token, and refreshes the document's norm.
    pub fn store_tokens(&mut self, document: &Document, tokens: &Vec<String>)
        requires
            old(self).wf(),
            old(self).has_room(document@, tokens.deep_view()),
        ensures
            final(self).wf(),
            final(self)@ == ingested(old(self)@, document@, tokens.deep_view()),
            final(self).idf == old(self).idf,
            old(self).sound() ==> final(self).sound(),
    {
        proof {
            if self.sound() {
                lemma_ingested_sound(self@, document@, tokens.deep_view());
            }
        }
        self.num_docs += 1;
        let mut i: usize = 0;
        while i < tokens.len()
            invariant
                i <= tokens.len(),
                fits(old(self).postings(), tokens.deep_view(), document@),
                self.wf(),
                self.num_docs == old(self).num_docs + 1,
                self.idf == old(self).idf,
                self.document_norms == old(self).document_norms,
                self.postings() == with_tokens(
                    old(self).postings(),
                    tokens.deep_view().subrange(0, i as int),
                    document@,
                ),
            decreases tokens.len() - i,
        {
            proof {
                let next = tokens.deep_view().subrange(0, i + 1);
                assert(next.drop_last() =~= tokens.deep_view().subrange(0, i as int));
                assert(next.last() == tokens[i as int]@);
                lemma_fits_prefix(old(self).postings(), tokens.deep_view(), i + 1, document@);
                lemma_ingestion_adds_occurrences(
                    old(self).postings(),
                    next,
                    document@,
                    tokens[i as int]@,
                    document@,
                );
                lemma_with_token_wf(self.postings(), tokens[i as int]@, document@);
            }
            self.insert_token(tokens[i].as_str(), document);
            i += 1;
        }
        assert(tokens.deep_view().subrange(0, i as int) =~= tokens.deep_view());
        self.update_document_norm(document);
    }

    /// Whether the counters of a document can take the tokens.
    pub fn can_count(&self, document: &Document, tokens: &Vec<String>) -> (room: bool)
        ensures
            room == fits(self.postings(), tokens.deep_view(), document@),
    {
        let ghost index = self.postings();
        let ghost all = tokens.deep_view();
        // Where even the fullest counter of the index could take every token,
        // no term needs a look.
        let largest = self.max_frequency();
        if tokens.len() <= (u32::MAX - largest) as usize {
            proof {
                assert forall|term: Seq<char>| #[trigger]
                    occurrences(all, term) + frequency(index, term, document@) <= u32::MAX by {
                    lemma_occurrences(all, term);
                    lemma_frequency_below(index, largest as int, term, document@);
                }
            }
            return true;
        }
        let mut i: usize = 0;
        while i < tokens.len()
            invariant
                i <= tokens.len(),
                index == self.postings(),
                all == tokens.deep_view(),
                forall|k: int|
                    0 <= k < i ==> occurrences(all, #[trigger] all[k]) + frequency(
                        index,
                        all[k],
                        document@,
                    ) <= u32::MAX,
            decreases tokens.len() - i,
        {
            let held = self.frequency_of(&tokens[i], &document.path);
            let often = count_occurrences(tokens, &tokens[i]);
            if often > (u32::MAX - held) as usize {
                assert(occurrences(all, all[i as int]) + frequency(index, all[i as int], document@)
                    > u32::MAX);
                return false;
            }
            i += 1;
        }
        proof {
            assert forall|term: Seq<char>| #[trigger]
                occurrences(all, term) + frequency(index, term, document@) <= u32::MAX by {
                lemma_occurrences(all, term);
                if all.contains(term) {
                    let k = choose|k: int| 0 <= k < all.len() && all[k] == term;
                    assert(occurrences(all, all[k]) + frequency(index, all[k], document@)
                        <= u32::MAX);
                }
            }
        }
        true
    }

    /// Ingests a document: normalizes its text and stores the tokens. Where
    /// a counter cannot take them, nothing is stored and the result is
    /// `false`: where the count of documents is at the machine's limit, or a
    /// term's frequency in this document would pass it.
    pub fn store_processed_text_in_index(&mut self, document: &Document, text: &str) -> (stored:
        bool)
        requires
            old(self).wf(),
        ensures
            final(self).wf(),
            stored == old(self).has_room(document@, normalized(text@)),
            stored ==> final(self)@ == ingested(old(self)@, document@, normalized(text@)),
            !stored ==> *final(self) == *old(self),
            old(self).sound() ==> final(self).sound(),
    {
        let tokens = normalize(text);
        if self.num_docs < usize::MAX && self.can_count(document, &tokens) {
            self.store_tokens(document, &tokens);
            true
        } else {
            false
        }
    }

    /// Finalizes the weights: every term of the index gets the weight
    /// `num_docs / document frequency`.
    pub fn calculate_idf(&mut self)
        requires
            old(self).wf(),
        ensures
            final(self).wf(),
            final(self)@ == finalized_index(old(self)@),
            forall|term: Seq<char>|
                position(old(self).postings(), term) >= 0 ==> #[trigger] weight_of(
                    final(self).weights(),
                    term,
                ) == (Weight {
                    num: old(self).num_docs as u64,
                    den: document_frequency(old(self).postings(), term) as u64,
                }),
            forall|term: Seq<char>|
                position(old(self).postings(), term) < 0 ==> #[trigger] weight_of(
                    final(self).weights(),
                    term,
                ) == weight_of(old(self).weights(), term),
            final(self).inverted_index == old(self).inverted_index,
            final(self).document_norms == old(self).document_norms,
            final(self).num_docs == old(self).num_docs,
            old(self).sound() ==> final(self).sound(),
    {
        let documents = self.num_docs as u64;
        let mut i: usize = 0;
        while i < self.inverted_index.len()
            invariant
                i <= self.inverted_index.len(),
                old(self).wf(),
                documents == old(self).num_docs as u64,
                self.inverted_index == old(self).inverted_index,
                self.document_norms == old(self).document_norms,
                self.num_docs == old(self).num_docs,
                self.weights() == finalized(
                    old(self).weights(),
                    self.postings().subrange(0, i as int),
                    documents,
                ),
            decreases self.inverted_index.len() - i,
        {
            let ghost before = self.weights();
            proof {
                let next = self.postings().subrange(0, i + 1);
                assert(next.drop_last() =~= self.postings().subrange(0, i as int));
                assert(next.last() == self.postings()[i as int]);
                lemma_position(before, self.postings()[i as int].0);
            }
            let weight = Weight { num: documents, den: self.inverted_index[i].1.len() as u64 };
            match find(&self.idf, &self.inverted_index[i].0.0) {
                Some(k) => {
                    self.idf[k].1 = weight;
                    assert(self.weights() =~= upsert(before, self.postings()[i as int].0, weight));
                },
                None => {
                    let term = self.inverted_index[i].0.clone();
                    self.idf.push((term, weight));
                    assert(self.weights() =~= upsert(before, self.postings()[i as int].0, weight));
                },
            }
            i += 1;
        }
        proof {
            assert(self.postings().subrange(0, i as int) =~= self.postings());
            assert forall|k: int| 0 <= k < self.postings().len() implies 0 < (
            #[trigger] self.postings()[k]).1.len() <= u64::MAX by {
                assert(self.postings()[k].1.len() == self.inverted_index[k].1.len());
            }
            lemma_finalized_wf(old(self).weights(), old(self).postings(), documents);
            if old(self).sound() {
                assert forall|k: int| 0 <= k < old(self)@.postings.len() implies (
                #[trigger] old(self)@.postings[k]).1.len() <= u64::MAX by {
                    assert(self.postings()[k].1.len() == self.inverted_index[k].1.len());
                }
                lemma_finalized_sound(old(self)@);
            }
            assert forall|term: Seq<char>|
                position(old(self).postings(), term) >= 0 implies #[trigger] weight_of(
                self.weights(),
                term,
            ) == (Weight {
                num: old(self).num_docs as u64,
                den: document_frequency(old(self).postings(), term) as u64,
            }) by {
                lemma_finalized_weight(old(self).weights(), old(self).postings(), documents, term);
            }
            assert forall|term: Seq<char>|
                position(old(self).postings(), term) < 0 implies #[trigger] weight_of(
                self.weights(),
                term,
            ) == weight_of(old(self).weights(), term) by {
                lemma_finalized_weight(old(self).weights(), old(self).postings(), documents, term);
            }
        }
    }
}

} // verus!
