use indexer::bignat::BigNat;
use indexer::document::{Document, Term};
use indexer::fraction::Fraction;
use indexer::index_storage::Index;
use indexer::query_processing::{
    calculate_query_tfidf, rank_documents, retrieve_candidate_documents, score_document, search,
    tokenize_query, Query,
};
use indexer::ranking::{may_precede, sort_by_score, text_at_or_before};
use indexer::search_result::{Score, SearchResult};
use indexer::weight::{NormPart, ScorePart, TermWeight, Weight};

fn ratio(weight: &Weight) -> f64 {
    weight.num as f64 / weight.den as f64
}

fn norm(parts: &[NormPart]) -> f64 {
    parts
        .iter()
        .map(|part| (part.frequency as f64 * ratio(&part.weight)).powi(2))
        .sum::<f64>()
        .sqrt()
}

fn value(score: &Score) -> f64 {
    let raw: f64 = score
        .matches
        .iter()
        .map(|part| {
            part.query.count as f64 * ratio(&part.query.weight)
                * (part.frequency as f64 * ratio(&part.weight))
        })
        .sum();
    let document_norm = match &score.document_norm {
        Some(parts) => norm(parts),
        None => 1.0,
    };
    let query_norm = score
        .query_norm
        .iter()
        .map(|entry| (entry.count as f64 * ratio(&entry.weight)).powi(2))
        .sum::<f64>()
        .sqrt();
    raw / (document_norm * query_norm)
}

fn as_float(number: &BigNat) -> f64 {
    number
        .limbs
        .iter()
        .rev()
        .fold(0.0, |above, limb| above * 4294967296.0 + *limb as f64)
}

fn score_of(result: &SearchResult) -> f64 {
    (as_float(&result.score.num) / as_float(&result.score.den)).sqrt()
}

fn scored(path: &str, num: u64, den: u64) -> SearchResult {
    SearchResult::new(
        Document::new(path.to_owned()),
        Fraction {
            num: BigNat::from_u64(num),
            den: BigNat::from_u64(den),
        },
    )
}

fn two_documents() -> (Index, Document, Document) {
    let mut index = Index::new();
    let document1 = Document {
        path: "doc1.txt".to_owned(),
    };
    let document2 = Document {
        path: "doc2.txt".to_owned(),
    };
    assert!(index.store_processed_text_in_index(&document1, "this is a sample document"));
    assert!(index.store_processed_text_in_index(&document2, "another example document"));
    index.calculate_idf();
    (index, document1, document2)
}

fn paths(results: &[SearchResult]) -> Vec<String> {
    results.iter().map(|r| r.document.path.clone()).collect()
}

#[test]
fn test_tokenize_query() {
    let query = "simple query";
    let tokens = tokenize_query(query);
    assert_eq!(tokens, vec!["simple", "query"]);
}

#[test]
fn query_processing_test_tokenize_query() {
    let query = "simple query";
    let tokens = tokenize_query(query);
    assert_eq!(tokens, vec!["simple", "query"]);
}

#[test]
fn tokenize_query_splits_at_any_whitespace() {
    assert_eq!(tokenize_query("  one\ttwo\n\nthree  "), vec!["one", "two", "three"]);
    assert_eq!(tokenize_query("one"), vec!["one"]);
    assert!(tokenize_query("").is_empty());
    assert!(tokenize_query(" \t ").is_empty());
    assert_eq!(tokenize_query("Keep, Case!"), vec!["Keep,", "Case!"]);
}

#[test]
fn test_calculate_query_tfidf() {
    let index = Index::new();
    let query = "this is a query";
    let query_tfidf = calculate_query_tfidf(query, &index);
    assert_eq!(query_tfidf.len(), 1);
    assert_eq!(query_tfidf[0].0 .0, "query");
    assert_eq!(
        query_tfidf[0].1,
        TermWeight {
            count: 1,
            weight: Weight { num: 1, den: 1 }
        }
    );
}

#[test]
fn query_weights_count_repeated_tokens() {
    let (index, _, _) = two_documents();
    let query_tfidf = calculate_query_tfidf("sample document sample unseen sample", &index);
    let terms: Vec<&str> = query_tfidf.iter().map(|e| e.0 .0.as_str()).collect();
    assert_eq!(terms, vec!["sample", "document", "unseen"]);
    assert_eq!(
        query_tfidf[0].1,
        TermWeight {
            count: 3,
            weight: Weight { num: 2, den: 1 }
        }
    );
    assert_eq!(
        query_tfidf[1].1,
        TermWeight {
            count: 1,
            weight: Weight { num: 2, den: 2 }
        }
    );
    assert_eq!(
        query_tfidf[2].1,
        TermWeight {
            count: 1,
            weight: Weight { num: 1, den: 1 }
        }
    );
}

#[test]
fn query_new_normalizes() {
    let (index, _, _) = two_documents();
    let query = Query::new("The SAMPLE, documents?", &index);
    assert_eq!(query.raw, "The SAMPLE, documents?");
    assert_eq!(query.tokens, vec!["sample", "documents"]);
    assert_eq!(query.tf_idf.len(), 2);
}

#[test]
fn test_retrieve_candidate_documents() {
    let (index, document1, _) = two_documents();

    let query = Query::new("sample", &index);
    let candidate_documents = retrieve_candidate_documents(&query, &index);

    let found: Vec<String> = candidate_documents.iter().map(|d| d.path.clone()).collect();
    assert_eq!(found, vec![document1.path]);
}

#[test]
fn candidates_are_the_union_over_the_tokens() {
    let (index, _, _) = two_documents();
    let query = Query::new("example sample document", &index);
    let found: Vec<String> = retrieve_candidate_documents(&query, &index)
        .iter()
        .map(|d| d.path.clone())
        .collect();
    assert_eq!(found, vec!["doc2.txt", "doc1.txt"]);
    let query = Query::new("document document", &index);
    let found: Vec<String> = retrieve_candidate_documents(&query, &index)
        .iter()
        .map(|d| d.path.clone())
        .collect();
    assert_eq!(found, vec!["doc1.txt", "doc2.txt"]);
}

#[test]
fn test_rank_documents() {
    let (index, document1, document2) = two_documents();

    let query = Query::new("sample document", &index);
    let candidate_documents = retrieve_candidate_documents(&query, &index);

    let ranked_docs = rank_documents(&candidate_documents, &query.tf_idf, &index);

    assert_eq!(paths(&ranked_docs), vec![document1.path, document2.path]);
    let first = score_of(&ranked_docs[0]);
    let second = score_of(&ranked_docs[1]);
    assert!((first - 5.0 / (2f64.sqrt() * 5f64.sqrt())).abs() < 1e-12);
    assert!((second - 1.0 / (3f64.sqrt() * 5f64.sqrt())).abs() < 1e-12);
    assert!((first - value(&ranked_docs[0].parts)).abs() < 1e-12);
    assert!((second - value(&ranked_docs[1].parts)).abs() < 1e-12);
    assert!(ranked_docs[0].query_tokens.is_empty());
}

#[test]
fn score_parts_are_exact() {
    let (index, document1, _) = two_documents();
    let query = Query::new("sample document", &index);
    let score = score_document(&document1, &query.tf_idf, &index);
    let sample = TermWeight {
        count: 1,
        weight: Weight { num: 2, den: 1 },
    };
    let document = TermWeight {
        count: 1,
        weight: Weight { num: 2, den: 2 },
    };
    assert_eq!(
        score.matches,
        vec![
            ScorePart {
                query: sample,
                frequency: 1,
                weight: Weight { num: 2, den: 1 }
            },
            ScorePart {
                query: document,
                frequency: 1,
                weight: Weight { num: 2, den: 2 }
            },
        ]
    );
    let one = Weight { num: 1, den: 1 };
    assert_eq!(
        score.document_norm,
        Some(vec![
            NormPart {
                frequency: 1,
                weight: one
            },
            NormPart {
                frequency: 1,
                weight: one
            },
        ])
    );
    assert_eq!(score.query_norm, vec![sample, document]);
    let stranger = Document::new("elsewhere.txt".to_owned());
    let score = score_document(&stranger, &query.tf_idf, &index);
    assert!(score.matches.is_empty());
    assert_eq!(score.document_norm, None);
}

#[test]
fn test_search() {
    let (index, document1, document2) = two_documents();

    let query = "sample document";
    let search_results = search(query, &index);

    assert_eq!(paths(&search_results), vec![document1.path, document2.path]);
    assert!((score_of(&search_results[0]) - 1.5811388300841895).abs() < 1e-9);
    assert!((score_of(&search_results[1]) - 0.2581988897471611).abs() < 1e-9);
    // the squares are exact: 25/10 and 1/15, as they were formed
    assert_eq!(as_float(&search_results[0].score.num) * 10.0, as_float(&search_results[0].score.den) * 25.0);
    assert_eq!(as_float(&search_results[1].score.num) * 15.0, as_float(&search_results[1].score.den));
    for result in &search_results {
        assert_eq!(result.query_tokens, vec!["sample", "document"]);
    }
}

#[test]
fn test_sort_vectors() {
    let results = vec![
        scored("path1.txt", 5, 10),
        scored("path2.txt", 2, 10),
        scored("path3", 8, 10),
    ];
    let results = sort_by_score(results);
    println!("Sorted results: {:?}", results);

    assert!(score_of(&results[0]) > score_of(&results[1]));
    assert_eq!(paths(&results), vec!["path3", "path1.txt", "path2.txt"]);
}

#[test]
fn equal_scores_are_ordered_by_path() {
    let results = vec![
        scored("b.txt", 7, 10),
        scored("a.txt", 14, 20),
        scored("c.txt", 9, 10),
        scored("a", 21, 30),
        scored("é.txt", 7, 10),
    ];
    let results = sort_by_score(results);
    assert_eq!(paths(&results), vec!["c.txt", "a", "a.txt", "b.txt", "é.txt"]);
    assert!(sort_by_score(Vec::new()).is_empty());
}

#[test]
fn a_score_without_a_denominator_ranks_first() {
    let results = vec![
        scored("finite", u64::MAX, 1),
        scored("z", 0, 0),
        scored("a", 5, 0),
        scored("nothing", 0, 7),
    ];
    let results = sort_by_score(results);
    assert_eq!(paths(&results), vec!["a", "z", "finite", "nothing"]);
}

#[test]
fn texts_are_ordered_by_their_characters() {
    let le = |a: &str, b: &str| text_at_or_before(&a.to_string(), &b.to_string());
    assert!(le("", ""));
    assert!(le("", "a"));
    assert!(!le("a", ""));
    assert!(le("a", "a"));
    assert!(le("a", "ab"));
    assert!(!le("ab", "a"));
    assert!(le("ab", "b"));
    assert!(!le("b", "ab"));
    assert!(le("z", "é"));
    assert!(!le("é", "z"));
    let high = scored("z", 2, 1);
    let low = scored("a", 1, 1);
    assert!(may_precede(&high, &low));
    assert!(!may_precede(&low, &high));
}

#[test]
fn self_similarity_ordering() {
    let mut index = Index::new();
    let doc1 = Document::new("doc1".to_owned());
    let doc2 = Document::new("doc2".to_owned());
    let doc3 = Document::new("doc3".to_owned());
    assert!(index.store_processed_text_in_index(&doc1, "apple apple banana"));
    assert!(index.store_processed_text_in_index(&doc2, "apple apple apple banana banana"));
    assert!(index.store_processed_text_in_index(&doc3, "banana"));
    index.calculate_idf();

    let results = search("apple banana", &index);
    assert_eq!(paths(&results), vec!["doc1", "doc2", "doc3"]);
    let scores: Vec<f64> = results.iter().map(score_of).collect();
    assert!(scores[0] > scores[1] && scores[1] > scores[2]);
    // raw 1.5 * 2 * 1.5 + 1 * 1 * 1 = 5.5, norms sqrt(5) and sqrt(3.25)
    assert!((scores[0] - 5.5 / (5f64.sqrt() * 3.25f64.sqrt())).abs() < 1e-12);
    assert!((scores[0] - 1.3644).abs() < 1e-3);
    assert!((scores[1] - 8.75 / (13f64.sqrt() * 3.25f64.sqrt())).abs() < 1e-12);
    assert!((scores[2] - 1.0 / 3.25f64.sqrt()).abs() < 1e-12);
}

#[test]
fn a_single_term_finds_exactly_its_documents() {
    let mut index = Index::new();
    for (path, text) in [
        ("a", "red green"),
        ("b", "green blue"),
        ("c", "blue"),
        ("d", "green green"),
    ] {
        assert!(index.store_processed_text_in_index(&Document::new(path.to_owned()), text));
    }
    index.calculate_idf();
    let mut found = paths(&search("green", &index));
    found.sort();
    assert_eq!(found, vec!["a", "b", "d"]);
    let mut found = paths(&search("blue", &index));
    found.sort();
    assert_eq!(found, vec!["b", "c"]);
    assert_eq!(paths(&search("red", &index)), vec!["a"]);
}

#[test]
fn nothing_is_found_without_a_match() {
    let (index, _, _) = two_documents();
    assert!(search("", &index).is_empty());
    assert!(search("the and of", &index).is_empty());
    assert!(search("?!,.", &index).is_empty());
    assert!(search("absent", &index).is_empty());
    assert!(search("sample", &Index::new()).is_empty());
    let query = Query::new("absent", &index);
    assert!(retrieve_candidate_documents(&query, &index).is_empty());
    assert_eq!(query.tf_idf[0].0 .0, Term("absent".to_owned()).0);
}

#[test]
fn scores_of_consistent_norms_are_at_most_one() {
    let mut index = Index::new();
    let doc = Document::new("only".to_owned());
    assert!(index.store_processed_text_in_index(&doc, "apple apple banana cherry"));
    index.calculate_idf();
    for query in ["apple", "banana cherry", "apple banana cherry", "apple apple banana"] {
        let results = search(query, &index);
        assert_eq!(results.len(), 1);
        let score = score_of(&results[0]);
        assert!((0.0..=1.0 + 1e-6).contains(&score));
        assert!(BigNat::le(&results[0].score.num, &results[0].score.den));
    }
}

#[test]
fn the_scores_of_a_built_index_have_a_value() {
    let mut index = Index::new();
    for (path, text) in [("a", "red green"), ("b", "green blue"), ("c", "")] {
        assert!(index.store_processed_text_in_index(&Document::new(path.to_owned()), text));
    }
    index.calculate_idf();
    assert!(index.store_processed_text_in_index(&Document::new("d".to_owned()), "green pink"));
    index.calculate_idf();
    for query in ["green", "red blue", "pink green green", "blue"] {
        let results = search(query, &index);
        assert!(!results.is_empty());
        for result in &results {
            assert!(!result.score.den.is_zero());
            assert!(score_of(result).is_finite());
            assert!(score_of(result) > 0.0);
        }
    }
}

#[test]
fn the_same_search_gives_the_same_answer() {
    let (index, _, _) = two_documents();
    let first = search("document sample example", &index);
    let second = search("document sample example", &index);
    assert_eq!(paths(&first), paths(&second));
    assert_eq!(format!("{:?}", first), format!("{:?}", second));
    // tokens in another order weigh the same terms: the ranking stands
    let third = search("example sample document", &index);
    assert_eq!(paths(&first), paths(&third));
}
