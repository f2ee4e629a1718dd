use se::index::{build_index, count_frequencies, parse_doc_id, IndexError, Posting, RawDocument};
use se::query::search;
use se::snippet::{get_snippet, SnippetError};
use se::text::{normalize, normalize_token};

fn doc(name: &str, text: &str) -> RawDocument {
    RawDocument { name: String::from(name), text: String::from(text) }
}

#[test]
fn index_built_correctly() {
    let docs = vec![doc("1", "to be or not to be"), doc("2", "neither a borrower nor a lender be")];
    let index = build_index(Some(&docs));
    assert!(index.is_ok());
}

#[test]
fn finds_something_for_query() {
    let docs = vec![doc("1", "to be or not to be"), doc("2", "neither a borrower nor a lender be")];
    let query = String::from("to");
    let index = build_index(Some(&docs)).unwrap();
    let results = search(&query, &index);
    assert!(results.len() > 0);
}

#[test]
fn normalizes_single_document() {
    let terms = normalize("The cat sat. The cat ran.");
    let expected: Vec<String> =
        vec!["the", "cat", "sat", "the", "cat", "ran"].into_iter().map(String::from).collect();
    assert_eq!(terms, expected);
}

#[test]
fn frequencies_of_single_document() {
    let terms = normalize("The cat sat. The cat ran.");
    let freqs = count_frequencies(&terms);
    assert_eq!(freqs.len(), 4);
    for f in &freqs {
        let expected: u32 = match f.term.as_str() {
            "the" => 2,
            "cat" => 2,
            "sat" => 1,
            "ran" => 1,
            other => panic!("unexpected term {}", other),
        };
        assert_eq!(f.count, expected);
    }
}

#[test]
fn single_document_query() {
    let docs = vec![doc("1", "The cat sat. The cat ran.")];
    let index = build_index(Some(&docs)).unwrap();
    let results = search(&String::from("cat"), &index);
    assert_eq!(results, vec![Posting { id: 1, tf: 2 }]);
}

#[test]
fn results_ranked_by_frequency() {
    let docs = vec![doc("1", "dog dog dog"), doc("2", "dog")];
    let index = build_index(Some(&docs)).unwrap();
    let results = search(&String::from("dog"), &index);
    assert_eq!(results, vec![Posting { id: 1, tf: 3 }, Posting { id: 2, tf: 1 }]);
}

#[test]
fn ranking_is_descending_across_many_documents() {
    let docs = vec![
        doc("10", "ant"),
        doc("11", "ant ant ant ant"),
        doc("12", "ant ant"),
        doc("13", "ant ant ant"),
    ];
    let index = build_index(Some(&docs)).unwrap();
    let results = search(&String::from("ant"), &index);
    assert_eq!(results.len(), 4);
    for pair in results.windows(2) {
        assert!(pair[0].tf >= pair[1].tf);
    }
}

#[test]
fn absent_term_yields_empty_result() {
    let docs = vec![doc("1", "The cat sat. The cat ran.")];
    let index = build_index(Some(&docs)).unwrap();
    let results = search(&String::from("xyz123"), &index);
    assert!(results.is_empty());
}

#[test]
fn query_is_not_renormalized() {
    let docs = vec![doc("1", "The cat sat.")];
    let index = build_index(Some(&docs)).unwrap();
    assert!(search(&String::from("Cat"), &index).is_empty());
    assert!(search(&String::from("cat."), &index).is_empty());
    assert_eq!(search(&String::from("cat"), &index).len(), 1);
}

#[test]
fn rebuild_yields_identical_results() {
    let docs = vec![doc("1", "dog dog cat"), doc("2", "dog bird")];
    let first = build_index(Some(&docs)).unwrap();
    let second = build_index(Some(&docs)).unwrap();
    for term in ["dog", "cat", "bird", "fish"] {
        assert_eq!(search(&String::from(term), &first), search(&String::from(term), &second));
    }
}

#[test]
fn missing_store_is_reported() {
    match build_index(None) {
        Err(IndexError::EmptyOrMissingStore) => (),
        _ => panic!("a missing store must fail the build"),
    }
}

#[test]
fn non_numeric_name_aborts_build() {
    let docs = vec![doc("1", "perfectly fine"), doc("abc", "bad name")];
    match build_index(Some(&docs)) {
        Err(IndexError::MalformedDocument) => (),
        _ => panic!("a non-numeric document name must fail the whole build"),
    }
}

#[test]
fn short_document_has_no_snippet_but_is_searchable() {
    let text = String::from("short text with a cat");
    let docs = vec![doc("1", text.as_str())];
    let index = build_index(Some(&docs)).unwrap();
    let results = search(&String::from("cat"), &index);
    assert_eq!(results, vec![Posting { id: 1, tf: 1 }]);
    assert_eq!(get_snippet(Some(&text)), Err(SnippetError::DocumentTooShort));
}

#[test]
fn snippet_is_eighty_characters_and_ellipsis() {
    let text: String = "abcdefghij".repeat(10);
    let snippet = get_snippet(Some(&text)).unwrap();
    let expected = format!("{}{}", "abcdefghij".repeat(8), "...");
    assert_eq!(snippet, expected);
}

#[test]
fn snippet_of_exactly_eighty_characters() {
    let text: String = "x".repeat(80);
    let snippet = get_snippet(Some(&text)).unwrap();
    assert_eq!(snippet, format!("{}...", "x".repeat(80)));
}

#[test]
fn vanished_document_is_reported() {
    assert_eq!(get_snippet(None), Err(SnippetError::DocumentUnavailable));
}

#[test]
fn token_normalization_cases() {
    assert_eq!(normalize_token("The"), String::from("the"));
    assert_eq!(normalize_token("MiXeD,."), String::from("mixed"));
    assert_eq!(normalize_token(",.,..dog.,"), String::from("dog"));
    assert_eq!(normalize_token("..."), String::from(""));
    assert_eq!(normalize_token("a.b,c"), String::from("a.b,c"));
}

#[test]
fn empty_and_whitespace_texts_have_no_terms() {
    assert!(normalize("").is_empty());
    assert!(normalize(" \t\n  ").is_empty());
}

#[test]
fn document_names_parse_as_integers() {
    assert_eq!(parse_doc_id("12"), Some(12));
    assert_eq!(parse_doc_id("007"), Some(7));
    assert_eq!(parse_doc_id("+7"), Some(7));
    assert_eq!(parse_doc_id("0"), Some(0));
    assert_eq!(parse_doc_id("4294967295"), Some(u32::MAX));
    assert_eq!(parse_doc_id("4294967296"), None);
    assert_eq!(parse_doc_id("abc"), None);
    assert_eq!(parse_doc_id(""), None);
    assert_eq!(parse_doc_id("+"), None);
    assert_eq!(parse_doc_id("1a"), None);
    assert_eq!(parse_doc_id("-1"), None);
}
