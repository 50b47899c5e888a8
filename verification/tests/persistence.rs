use indexer::document::{Document, Term};
use indexer::file_handler::{same_text, FileHandler, MarkdownHandler, PlainTextHandler};
use indexer::index_storage::Index;
use indexer::persistence::{Field, Json, LoadError};
use indexer::weight::{NormPart, Weight};

fn build_index_with_3_docs() -> Index {
    let mut index = Index::new();
    let text = "This is a test sentence.";
    let document = Document::new("test.txt".to_owned());
    assert!(index.store_processed_text_in_index(&document, text));

    let text = "This is another test sentence.";
    let document = Document::new("test2.txt".to_owned());
    assert!(index.store_processed_text_in_index(&document, text));

    let text = "This is a third test sentence.";
    let document = Document::new("test3.txt".to_owned());
    assert!(index.store_processed_text_in_index(&document, text));

    index.calculate_idf();
    index
}

fn load(text: &str) -> Result<Index, LoadError> {
    Index::load_index_from_json(text)
}

fn failure(text: &str) -> LoadError {
    match load(text) {
        Ok(index) => panic!("loaded {:?}", index.inverted_index),
        Err(error) => error,
    }
}

const EMPTY: &str = r#"{"inverted_index":[],"idf":[],"document_norms":[],"num_docs":0}"#;

#[test]
fn test_load_index_from_json_file() {
    let expected_index = build_index_with_3_docs();
    let text = expected_index.save_index_to_json();

    let index = Index::load_index_from_json(&text).unwrap();

    assert_eq!(expected_index.inverted_index, index.inverted_index);
    assert_eq!(expected_index.idf, index.idf);
    assert_eq!(expected_index.document_norms, index.document_norms);
    assert_eq!(expected_index.num_docs, index.num_docs);
}

#[test]
fn the_persisted_form_has_four_fields() {
    let mut index = Index::new();
    assert!(index.store_processed_text_in_index(&Document::new("d.txt".to_owned()), "blue car blue"));
    index.calculate_idf();
    assert_eq!(
        index.save_index_to_json(),
        concat_all(&[
            r#"{"document_norms":[[{"path":"d.txt"},[[2,[1,1]],[1,[1,1]]]]],"#,
            r#""idf":[["blue",[1,1]],["car",[1,1]]],"#,
            r#""inverted_index":[["blue",[[{"path":"d.txt"},2]]],["car",[[{"path":"d.txt"},1]]]],"#,
            r#""num_docs":1}"#,
        ])
    );
    assert_eq!(
        Index::new().save_index_to_json(),
        r#"{"document_norms":[],"idf":[],"inverted_index":[],"num_docs":0}"#
    );
}

fn concat_all(parts: &[&str]) -> String {
    parts.iter().map(|p| p.to_string()).collect()
}

#[test]
fn an_empty_index_loads() {
    let index = load(EMPTY).unwrap();
    assert!(index.inverted_index.is_empty());
    assert!(index.idf.is_empty());
    assert!(index.document_norms.is_empty());
    assert_eq!(index.num_docs, 0);
    assert!(index.is_well_formed());
}

#[test]
fn a_loaded_index_holds_what_the_text_says() {
    let text = r#"{
        "num_docs": 7,
        "extra": null,
        "inverted_index": [["apple", [[{"path": "a", "more": 1}, 3], [{"path": "b"}, 1]]]],
        "idf": [["apple", [7, 2]]],
        "document_norms": [[{"path": "a"}, [[3, [1, 1]]]], [{"path": "b"}, []]]
    }"#;
    let index = load(text).unwrap();
    assert_eq!(index.num_docs, 7);
    assert_eq!(index.inverted_index.len(), 1);
    assert_eq!(index.inverted_index[0].0 .0, "apple");
    let held: Vec<(String, u32)> = index.inverted_index[0]
        .1
        .iter()
        .map(|(d, f)| (d.path.clone(), *f))
        .collect();
    assert_eq!(held, vec![("a".to_owned(), 3), ("b".to_owned(), 1)]);
    assert_eq!(index.idf[0].1, Weight { num: 7, den: 2 });
    assert_eq!(
        index.document_norms[0].1,
        vec![NormPart {
            frequency: 3,
            weight: Weight { num: 1, den: 1 }
        }]
    );
    assert!(index.document_norms[1].1.is_empty());
}

#[test]
fn a_later_pair_replaces_an_earlier_one_on_load() {
    let text = r#"{"inverted_index":[["t",[[{"path":"x"},1],[{"path":"x"},4]]],["t",[[{"path":"y"},2]]]],
        "idf":[["t",[1,1]],["t",[5,3]]],"document_norms":[],"num_docs":2}"#;
    let index = load(text).unwrap();
    assert_eq!(index.inverted_index.len(), 1);
    assert_eq!(index.inverted_index[0].1.len(), 1);
    assert_eq!(index.inverted_index[0].1[0].0.path, "y");
    assert_eq!(index.idf.len(), 1);
    assert_eq!(index.idf[0].1, Weight { num: 5, den: 3 });
}

#[test]
fn text_that_is_no_json_is_refused() {
    assert_eq!(failure(""), LoadError::NotJson);
    assert_eq!(failure("{"), LoadError::NotJson);
    assert_eq!(failure("not json"), LoadError::NotJson);
    assert_eq!(failure(r#"{"num_docs":1,}"#), LoadError::NotJson);
}

#[test]
fn a_missing_field_is_refused() {
    assert_eq!(
        failure(r#"{"idf":[],"document_norms":[],"num_docs":0}"#),
        LoadError::Invalid(Field::InvertedIndex)
    );
    assert_eq!(
        failure(r#"{"inverted_index":[],"document_norms":[],"num_docs":0}"#),
        LoadError::Invalid(Field::Idf)
    );
    assert_eq!(
        failure(r#"{"inverted_index":[],"idf":[],"num_docs":0}"#),
        LoadError::Invalid(Field::DocumentNorms)
    );
    assert_eq!(
        failure(r#"{"inverted_index":[],"idf":[],"document_norms":[]}"#),
        LoadError::Invalid(Field::NumDocs)
    );
    assert_eq!(failure("{}"), LoadError::Invalid(Field::InvertedIndex));
    assert_eq!(failure("[]"), LoadError::Invalid(Field::InvertedIndex));
    assert_eq!(failure("null"), LoadError::Invalid(Field::InvertedIndex));
    assert_eq!(failure("3"), LoadError::Invalid(Field::InvertedIndex));
}

#[test]
fn a_field_of_the_wrong_type_is_refused() {
    assert_eq!(
        failure(r#"{"inverted_index":{},"idf":[],"document_norms":[],"num_docs":0}"#),
        LoadError::Invalid(Field::InvertedIndex)
    );
    assert_eq!(
        failure(r#"{"inverted_index":[],"idf":"x","document_norms":[],"num_docs":0}"#),
        LoadError::Invalid(Field::Idf)
    );
    assert_eq!(
        failure(r#"{"inverted_index":[],"idf":[],"document_norms":7,"num_docs":0}"#),
        LoadError::Invalid(Field::DocumentNorms)
    );
    for count in ["-1", "1.5", "\"1\"", "null", "[1]", "1e3", "18446744073709551616"] {
        let text = format!(
            r#"{{"inverted_index":[],"idf":[],"document_norms":[],"num_docs":{}}}"#,
            count
        );
        assert_eq!(failure(&text), LoadError::Invalid(Field::NumDocs));
    }
    // the four fields are looked at before any entry
    assert_eq!(
        failure(r#"{"inverted_index":[1],"idf":[],"document_norms":[],"num_docs":-1}"#),
        LoadError::Invalid(Field::NumDocs)
    );
}

#[test]
fn an_entry_of_the_wrong_form_is_refused() {
    for entry in [
        "1",
        "[]",
        r#"["t"]"#,
        r#"["t",[],1]"#,
        r#"[1,[]]"#,
        r#"["t",{}]"#,
        r#"["t",[1]]"#,
        r#"["t",[["x",1]]]"#,
        r#"["t",[[["x","y"],1]]]"#,
        r#"["t",[[{"file":"x"},1]]]"#,
        r#"["t",[[{"path":1},1]]]"#,
        r#"["t",[[{"path":"x"},"1"]]]"#,
        r#"["t",[[{"path":"x"},-1]]]"#,
        r#"["t",[[{"path":"x"},1.0]]]"#,
        r#"["t",[[{"path":"x"},4294967296]]]"#,
        r#"["t",[[{"path":"x"}]]]"#,
    ] {
        let text = format!(
            r#"{{"inverted_index":[{}],"idf":[],"document_norms":[],"num_docs":1}}"#,
            entry
        );
        assert_eq!(failure(&text), LoadError::Malformed(Field::InvertedIndex));
    }
    for entry in ["1", r#"["t"]"#, r#"["t",1.5]"#, r#"["t",[1]]"#, r#"["t",[1,2,3]]"#, r#"[{"path":"t"},[1,2]]"#] {
        let text = format!(
            r#"{{"inverted_index":[],"idf":[{}],"document_norms":[],"num_docs":1}}"#,
            entry
        );
        assert_eq!(failure(&text), LoadError::Malformed(Field::Idf));
    }
    for entry in ["1", r#"["d",[]]"#, r#"[{"path":"d"},2.5]"#, r#"[{"path":"d"},[[1,1]]]"#, r#"[{"path":"d"},[[1,[1]]]]"#] {
        let text = format!(
            r#"{{"inverted_index":[],"idf":[],"document_norms":[{}],"num_docs":1}}"#,
            entry
        );
        assert_eq!(failure(&text), LoadError::Malformed(Field::DocumentNorms));
    }
    // the tables are read in order
    assert_eq!(
        failure(r#"{"inverted_index":[1],"idf":[1],"document_norms":[1],"num_docs":1}"#),
        LoadError::Malformed(Field::InvertedIndex)
    );
}

#[test]
fn tables_of_the_right_types_load_whatever_they_hold() {
    let index = load(r#"{"inverted_index":[["x",[]]],"idf":[],"document_norms":[],"num_docs":1}"#)
        .unwrap();
    assert_eq!(index.inverted_index, vec![(Term("x".to_owned()), Vec::new())]);
    assert_eq!(index.num_docs, 1);
    assert!(!index.is_well_formed());
    assert!(indexer::search("x", &index).is_empty());

    let index = load(
        r#"{"inverted_index":[["t",[[{"path":"x"},0]]]],"idf":[],"document_norms":[],"num_docs":1}"#,
    )
    .unwrap();
    assert_eq!(
        index.inverted_index,
        vec![(Term("t".to_owned()), vec![(Document::new("x".to_owned()), 0)])]
    );
    assert!(!index.is_well_formed());

    let index =
        load(r#"{"inverted_index":[],"idf":[["t",[1,0]]],"document_norms":[],"num_docs":0}"#)
            .unwrap();
    assert_eq!(index.idf, vec![(Term("t".to_owned()), Weight { num: 1, den: 0 })]);
    assert!(!index.is_well_formed());

    let index = load(
        r#"{"inverted_index":[],"idf":[],"document_norms":[[{"path":"x"},[[1,[1,0]]]]],"num_docs":7}"#,
    )
    .unwrap();
    assert_eq!(index.document_norms.len(), 1);
    assert_eq!(index.num_docs, 7);
    assert!(!index.is_well_formed());
}

#[test]
fn a_document_is_read_from_an_object_or_from_an_array() {
    let text = r#"{"inverted_index":[["t",[[["a"],2],[{"path":"b","size":3},1]]]],
        "idf":[],"document_norms":[[["a"],[]]],"num_docs":2}"#;
    let index = load(text).unwrap();
    assert_eq!(
        index.inverted_index,
        vec![(
            Term("t".to_owned()),
            vec![(Document::new("a".to_owned()), 2), (Document::new("b".to_owned()), 1)]
        )]
    );
    assert_eq!(index.document_norms, vec![(Document::new("a".to_owned()), Vec::new())]);
    assert!(index.is_well_formed());
    for document in [r#"[]"#, r#"["a","b"]"#, r#"[1]"#, r#"[["a"]]"#, r#""a""#, r#"{"paths":"a"}"#] {
        let text = format!(
            r#"{{"inverted_index":[["t",[[{},1]]]],"idf":[],"document_norms":[],"num_docs":1}}"#,
            document
        );
        assert_eq!(failure(&text), LoadError::Malformed(Field::InvertedIndex));
    }
    // a term is read from a string only
    let text = r#"{"inverted_index":[[["t"],[]]],"idf":[],"document_norms":[],"num_docs":1}"#;
    assert_eq!(failure(text), LoadError::Malformed(Field::InvertedIndex));
}

#[test]
fn errors_say_what_failed() {
    assert_eq!(LoadError::NotJson.message(), "Invalid JSON");
    assert_eq!(
        LoadError::Invalid(Field::InvertedIndex).message(),
        "Invalid 'inverted_index' value in JSON"
    );
    assert_eq!(LoadError::Invalid(Field::Idf).message(), "Invalid 'idf' value in JSON");
    assert_eq!(
        LoadError::Invalid(Field::DocumentNorms).message(),
        "Invalid 'document_norms' value in JSON"
    );
    assert_eq!(LoadError::Invalid(Field::NumDocs).message(), "Invalid 'num_docs' value in JSON");
    assert_eq!(
        LoadError::Malformed(Field::Idf).message(),
        "Invalid entry in 'idf' in JSON"
    );
    assert_eq!(Field::NumDocs.name(), "num_docs");
}

#[test]
fn parts_are_written_and_read() {
    let weight = Weight { num: 3, den: 2 };
    assert_eq!(weight.encode().to_string(), "[3,2]");
    assert_eq!(Weight::decode(&weight.encode()), Some(weight));
    let part = NormPart {
        frequency: 4,
        weight,
    };
    assert_eq!(part.encode().to_string(), "[4,[3,2]]");
    assert_eq!(NormPart::decode(&part.encode()), Some(part));
    assert_eq!(Term("a \"b\"".to_owned()).encode().to_string(), r#""a \"b\"""#);
    assert_eq!(
        Document::new("dir/é.txt".to_owned()).encode().to_string(),
        r#"{"path":"dir/é.txt"}"#
    );
    let document = Document::decode(&Document::new("p".to_owned()).encode()).unwrap();
    assert_eq!(document.path, "p");
    assert_eq!(u32::decode(&7u64.encode()), Some(7));
    assert_eq!(u32::decode(&(u32::MAX as u64 + 1).encode()), None);
    assert_eq!(u64::decode(&u64::MAX.encode()), Some(u64::MAX));
    assert_eq!(<Vec<u32>>::decode(&vec![1u32, 2, 3].encode()), Some(vec![1, 2, 3]));
    assert_eq!(<Vec<u32>>::decode(&Vec::<u32>::new().encode()), Some(Vec::new()));
    assert_eq!(<Vec<u32>>::decode(&7u32.encode()), None);
}

#[test]
fn an_index_made_by_hand_is_checked() {
    let mut index = build_index_with_3_docs();
    assert!(index.is_well_formed());
    index.idf.push((Term("test".to_owned()), Weight { num: 1, den: 1 }));
    assert!(!index.is_well_formed());
    index.idf.pop();
    index.idf[0].1.den = 0;
    assert!(!index.is_well_formed());
    index.idf[0].1.den = 1;
    index.inverted_index[0].1[0].1 = 0;
    assert!(!index.is_well_formed());
    index.inverted_index[0].1[0].1 = 1;
    let again = index.inverted_index[0].1[0].0.clone();
    index.inverted_index[0].1.push((again, 2));
    assert!(!index.is_well_formed());
    index.inverted_index[0].1.pop();
    index.document_norms[0].1[0].weight.den = 0;
    assert!(!index.is_well_formed());
    index.document_norms[0].1[0].weight.den = 1;
    index.inverted_index.push((Term("empty".to_owned()), Vec::new()));
    assert!(!index.is_well_formed());
    index.inverted_index.pop();
    assert!(index.is_well_formed());
}

#[test]
fn handlers_take_their_extension() {
    assert!(MarkdownHandler.can_handle("md"));
    assert!(!MarkdownHandler.can_handle("txt"));
    assert!(!MarkdownHandler.can_handle("MD"));
    assert!(!MarkdownHandler.can_handle(""));
    assert!(PlainTextHandler.can_handle("txt"));
    assert!(!PlainTextHandler.can_handle("md"));
    assert!(!PlainTextHandler.can_handle("text"));
    assert!(same_text("", ""));
    assert!(same_text("é", "é"));
    assert!(!same_text("a", "b"));
    assert!(!same_text("a", "ab"));
}
