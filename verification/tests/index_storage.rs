use indexer::document::{Document, Term};
use indexer::index_storage::{count_occurrences, Index};
use indexer::json_serialization::{
    deserialize_inverted_index, deserialize_vec_to_hashmap, serialize_hashmap_to_vec,
    serialize_inverted_index,
};
use indexer::weight::{NormPart, Weight};

fn build_index_with_3_docs() -> Index {
    let mut index = Index::new();
    let text = "This is a test sentence.";
    let document = Document::new("test.txt".to_owned());
    assert!(index.store_processed_text_in_index(&document, text));

    let text = "This is another test sentence.";
    let document = Document::new("test2.txt".to_owned());
    assert!(index.store_processed_text_in_index(&document, text));

    let text = "This is a third test sentence.";
    let document = Document::new("test3.txt".to_owned());
    assert!(index.store_processed_text_in_index(&document, text));

    index.calculate_idf();
    index
}

fn postings_of(index: &Index, term: &str) -> Option<Vec<(String, u32)>> {
    index
        .inverted_index
        .iter()
        .find(|entry| entry.0 .0 == term)
        .map(|entry| entry.1.iter().map(|(d, f)| (d.path.clone(), *f)).collect())
}

fn weight_in(index: &Index, term: &str) -> Option<Weight> {
    index.idf.iter().find(|entry| entry.0 .0 == term).map(|entry| entry.1)
}

fn norm_in(index: &Index, path: &str) -> Option<Vec<NormPart>> {
    index
        .document_norms
        .iter()
        .find(|entry| entry.0.path == path)
        .map(|entry| entry.1.clone())
}

const ONE: Weight = Weight { num: 1, den: 1 };

#[test]
fn test_store_processed_text_in_index() {
    let mut index = Index::new();
    let text = "This is a test sentence.";
    let document = Document::new("test.txt".to_owned());

    index.calculate_idf();
    assert!(index.store_processed_text_in_index(&document, text));

    assert_eq!(index.num_docs, 1);
    assert_eq!(index.inverted_index.len(), 2);

    for term in ["test", "sentence"] {
        assert_eq!(postings_of(&index, term), Some(vec![("test.txt".to_owned(), 1)]));
    }
    for term in ["This", "this", "is", "a", "sentence."] {
        assert_eq!(postings_of(&index, term), None);
    }
}

#[test]
fn test_calculate_idf() {
    let mut index = build_index_with_3_docs();
    index.calculate_idf();

    for (term, documents) in [("test", 3), ("sentence", 3), ("another", 1), ("third", 1)] {
        assert_eq!(postings_of(&index, term).unwrap().len(), documents);
        assert_eq!(
            weight_in(&index, term),
            Some(Weight {
                num: 3,
                den: documents as u64
            })
        );
    }
    assert_eq!(index.idf.len(), 4);
    assert_eq!(weight_in(&index, "This"), None);
}

#[test]
fn a_new_index_is_empty() {
    let index = Index::new();
    assert!(index.inverted_index.is_empty());
    assert!(index.idf.is_empty());
    assert!(index.document_norms.is_empty());
    assert_eq!(index.num_docs, 0);
    assert_eq!(index.max_frequency(), 0);
}

#[test]
fn every_ingestion_is_counted() {
    let mut index = Index::new();
    for n in 0..5 {
        assert_eq!(index.num_docs, n);
        let document = Document::new(format!("doc{}.txt", n % 2));
        assert!(index.store_processed_text_in_index(&document, "common words here"));
    }
    assert_eq!(index.num_docs, 5);
    // two distinct documents hold each term, however often they came
    assert_eq!(
        postings_of(&index, "common"),
        Some(vec![("doc0.txt".to_owned(), 3), ("doc1.txt".to_owned(), 2)])
    );
    index.calculate_idf();
    assert_eq!(weight_in(&index, "common"), Some(Weight { num: 5, den: 2 }));
}

#[test]
fn the_index_answers_for_terms_and_documents() {
    let mut index = build_index_with_3_docs();
    let test = Term("test".to_owned());
    let another = Term("another".to_owned());
    let absent = Term("absent".to_owned());
    let second = Document::new("test2.txt".to_owned());
    let first = Document::new("test.txt".to_owned());
    assert_eq!(index.term_frequency(&test, &second), 1);
    assert_eq!(index.term_frequency(&another, &second), 1);
    assert_eq!(index.term_frequency(&another, &first), 0);
    assert_eq!(index.term_frequency(&absent, &first), 0);
    assert_eq!(index.term_frequency(&test, &Document::new("elsewhere".to_owned())), 0);
    assert_eq!(index.document_frequency(&test), 3);
    assert_eq!(index.document_frequency(&another), 1);
    assert_eq!(index.document_frequency(&absent), 0);
    assert_eq!(index.weight(&test), Weight { num: 3, den: 3 });
    assert_eq!(index.weight(&another), Weight { num: 3, den: 1 });
    assert_eq!(index.weight(&absent), ONE);
    assert!(index.store_processed_text_in_index(&second, "another another"));
    assert_eq!(index.term_frequency(&another, &second), 3);
    assert_eq!(index.document_frequency(&another), 1);
}

#[test]
fn frequencies_accumulate() {
    let mut index = Index::new();
    let document = Document::new("a".to_owned());
    assert!(index.store_processed_text_in_index(&document, "apple apple banana"));
    assert_eq!(postings_of(&index, "apple"), Some(vec![("a".to_owned(), 2)]));
    assert_eq!(postings_of(&index, "banana"), Some(vec![("a".to_owned(), 1)]));
    assert_eq!(index.max_frequency(), 2);
    assert_eq!(
        norm_in(&index, "a"),
        Some(vec![
            NormPart {
                frequency: 2,
                weight: ONE
            },
            NormPart {
                frequency: 1,
                weight: ONE
            },
        ])
    );
    assert!(index.store_processed_text_in_index(&document, "apple cherry"));
    assert_eq!(index.num_docs, 2);
    assert_eq!(postings_of(&index, "apple"), Some(vec![("a".to_owned(), 3)]));
    assert_eq!(index.document_norms.len(), 1);
    assert_eq!(norm_in(&index, "a").unwrap().len(), 3);
}

#[test]
fn an_empty_document_is_counted_and_has_an_empty_norm() {
    let mut index = Index::new();
    let document = Document::new("empty.txt".to_owned());
    assert!(index.store_processed_text_in_index(&document, "the a of !!!"));
    assert_eq!(index.num_docs, 1);
    assert!(index.inverted_index.is_empty());
    assert_eq!(norm_in(&index, "empty.txt"), Some(Vec::new()));
    index.calculate_idf();
    assert!(index.idf.is_empty());
}

#[test]
fn norms_use_the_weights_of_their_moment() {
    let mut index = Index::new();
    assert!(index.store_processed_text_in_index(&Document::new("a".to_owned()), "apple banana"));
    assert!(index.store_processed_text_in_index(&Document::new("b".to_owned()), "apple"));
    index.calculate_idf();
    assert!(index.store_processed_text_in_index(&Document::new("c".to_owned()), "apple cherry apple"));
    assert_eq!(
        norm_in(&index, "c"),
        Some(vec![
            NormPart {
                frequency: 2,
                weight: Weight { num: 2, den: 2 }
            },
            NormPart {
                frequency: 1,
                weight: ONE
            },
        ])
    );
    // the weights stay as finalized until the next finalization
    assert_eq!(weight_in(&index, "apple"), Some(Weight { num: 2, den: 2 }));
    assert_eq!(weight_in(&index, "cherry"), None);
    index.calculate_idf();
    assert_eq!(weight_in(&index, "apple"), Some(Weight { num: 3, den: 3 }));
    assert_eq!(weight_in(&index, "banana"), Some(Weight { num: 3, den: 1 }));
    assert_eq!(weight_in(&index, "cherry"), Some(Weight { num: 3, den: 1 }));
    let before = serialize_hashmap_to_vec(&index.idf);
    index.calculate_idf();
    let after = serialize_hashmap_to_vec(&index.idf);
    assert_eq!(before, after);
}

#[test]
fn tokens_can_be_stored_directly() {
    let mut index = Index::new();
    let document = Document::new("raw".to_owned());
    let tokens = vec!["x".to_owned(), "y".to_owned(), "x".to_owned()];
    index.store_tokens(&document, &tokens);
    assert_eq!(index.num_docs, 1);
    assert_eq!(postings_of(&index, "x"), Some(vec![("raw".to_owned(), 2)]));
    index.insert_token("x", &document);
    index.insert_token("z", &Document::new("other".to_owned()));
    assert_eq!(postings_of(&index, "x"), Some(vec![("raw".to_owned(), 3)]));
    assert_eq!(postings_of(&index, "z"), Some(vec![("other".to_owned(), 1)]));
    index.update_document_norm(&Document::new("other".to_owned()));
    assert_eq!(
        norm_in(&index, "other"),
        Some(vec![NormPart {
            frequency: 1,
            weight: ONE
        }])
    );
}

#[test]
fn a_full_counter_refuses_the_document() {
    let mut index = Index::new();
    let document = Document::new("big".to_owned());
    let other = Document::new("small".to_owned());
    index
        .inverted_index
        .push((Term("apple".to_owned()), vec![(document.clone(), u32::MAX - 1)]));
    assert_eq!(index.max_frequency(), u32::MAX - 1);
    // two more occurrences do not fit the counter of this term in this document
    assert!(!index.store_processed_text_in_index(&document, "apple apple"));
    assert_eq!(index.num_docs, 0);
    assert_eq!(postings_of(&index, "apple"), Some(vec![("big".to_owned(), u32::MAX - 1)]));
    assert!(index.document_norms.is_empty());
    // one more does
    assert!(index.store_processed_text_in_index(&document, "apple"));
    assert_eq!(postings_of(&index, "apple"), Some(vec![("big".to_owned(), u32::MAX)]));
    assert!(!index.store_processed_text_in_index(&document, "pear apple"));
    assert_eq!(index.num_docs, 1);
    // a full counter stands in the way of its own term and document only
    assert!(index.store_processed_text_in_index(&document, "pear"));
    assert!(index.store_processed_text_in_index(&document, "pear pear cherry"));
    assert!(index.store_processed_text_in_index(&other, "apple apple pear"));
    assert!(index.store_processed_text_in_index(&document, ""));
    assert_eq!(index.num_docs, 5);
    assert_eq!(
        postings_of(&index, "apple"),
        Some(vec![("big".to_owned(), u32::MAX), ("small".to_owned(), 2)])
    );
    assert_eq!(
        postings_of(&index, "pear"),
        Some(vec![("big".to_owned(), 3), ("small".to_owned(), 1)])
    );
    // the count of documents has its limit too
    let mut full = Index::new();
    full.num_docs = usize::MAX;
    assert!(!full.store_processed_text_in_index(&document, "apple"));
    assert!(!full.store_processed_text_in_index(&document, ""));
    assert_eq!(full.num_docs, usize::MAX);
    assert!(full.inverted_index.is_empty());
}

#[test]
fn counters_are_asked_term_by_term() {
    let strings = |words: &[&str]| -> Vec<String> { words.iter().map(|w| w.to_string()).collect() };
    let mut index = Index::new();
    let document = Document::new("d".to_owned());
    let other = Document::new("e".to_owned());
    index.inverted_index.push((
        Term("a".to_owned()),
        vec![(document.clone(), u32::MAX - 2), (other.clone(), 1)],
    ));
    index
        .inverted_index
        .push((Term("b".to_owned()), vec![(document.clone(), u32::MAX)]));
    assert!(index.can_count(&document, &strings(&[])));
    assert!(index.can_count(&document, &strings(&["a"])));
    assert!(index.can_count(&document, &strings(&["a", "c", "a"])));
    assert!(!index.can_count(&document, &strings(&["a", "c", "a", "a"])));
    assert!(!index.can_count(&document, &strings(&["b"])));
    assert!(!index.can_count(&document, &strings(&["c", "c", "b", "c"])));
    assert!(index.can_count(&document, &strings(&["c", "c", "c", "d"])));
    assert!(index.can_count(&other, &strings(&["a", "b", "a", "b", "a", "a"])));
    assert_eq!(count_occurrences(&strings(&["x", "y", "x", "x"]), &"x".to_string()), 3);
    assert_eq!(count_occurrences(&strings(&["x", "y"]), &"z".to_string()), 0);
    assert_eq!(count_occurrences(&strings(&[]), &"z".to_string()), 0);
    assert_eq!(index.frequency_of(&"a".to_string(), &"d".to_string()), u32::MAX - 2);
    assert_eq!(index.frequency_of(&"a".to_string(), &"e".to_string()), 1);
    assert_eq!(index.frequency_of(&"a".to_string(), &"f".to_string()), 0);
    assert_eq!(index.frequency_of(&"c".to_string(), &"d".to_string()), 0);
}

#[test]
fn tables_survive_the_round_trip() {
    let index = build_index_with_3_docs();
    let pairs = serialize_inverted_index(&index.inverted_index);
    let back = deserialize_inverted_index(&pairs);
    assert_eq!(back, index.inverted_index);
    let back = deserialize_vec_to_hashmap(&serialize_hashmap_to_vec(&index.idf));
    assert_eq!(back, index.idf);
    let back = deserialize_vec_to_hashmap(&serialize_hashmap_to_vec(&index.document_norms));
    assert_eq!(back, index.document_norms);
}

#[test]
fn a_later_pair_replaces_an_earlier_one() {
    let pairs = vec![
        (Term("a".to_owned()), 1u32),
        (Term("b".to_owned()), 2),
        (Term("a".to_owned()), 3),
    ];
    let table = deserialize_vec_to_hashmap(&pairs);
    let seen: Vec<(String, u32)> = table.iter().map(|(t, v)| (t.0.clone(), *v)).collect();
    assert_eq!(seen, vec![("a".to_owned(), 3), ("b".to_owned(), 2)]);
    let nested = vec![
        (
            Term("t".to_owned()),
            vec![(Document::new("x".to_owned()), 1u32), (Document::new("x".to_owned()), 5)],
        ),
        (Term("t".to_owned()), vec![(Document::new("y".to_owned()), 2u32)]),
        (
            Term("u".to_owned()),
            vec![(Document::new("x".to_owned()), 1u32), (Document::new("x".to_owned()), 5)],
        ),
    ];
    let table = deserialize_inverted_index(&nested);
    let seen: Vec<(String, Vec<(String, u32)>)> = table
        .iter()
        .map(|(t, p)| (t.0.clone(), p.iter().map(|(d, f)| (d.path.clone(), *f)).collect()))
        .collect();
    assert_eq!(
        seen,
        vec![
            ("t".to_owned(), vec![("y".to_owned(), 2)]),
            ("u".to_owned(), vec![("x".to_owned(), 5)]),
        ]
    );
    assert!(deserialize_inverted_index(&Vec::new()).is_empty());
}
