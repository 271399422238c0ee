use stract_core::query::{Query, SearchQuery};

fn parse(query: &str) -> Query {
    Query::parse(SearchQuery { query: query.to_string(), ..Default::default() })
}

#[test]
fn simple_parse() {
    let query = parse("this is a simple query the the the the the the the the the the the the the");

    assert_eq!(
        query.simple_terms(),
        &vec![
            "this".to_string(),
            "is".to_string(),
            "a".to_string(),
            "simple".to_string(),
            "query".to_string(),
            "the".to_string(),
            "the".to_string(),
            "the".to_string(),
            "the".to_string(),
            "the".to_string(),
            "the".to_string(),
            "the".to_string(),
            "the".to_string(),
            "the".to_string(),
            "the".to_string(),
        ]
    );
}

#[test]
fn parse_trailing_leading_whitespace() {
    let query = parse("   this is a simple query   ");

    assert_eq!(
        query.simple_terms(),
        &vec![
            "this".to_string(),
            "is".to_string(),
            "a".to_string(),
            "simple".to_string(),
            "query".to_string(),
        ]
    );
}

#[test]
fn parse_weird_characters() {
    let terms = parse("123").simple_terms().to_vec();
    assert_eq!(terms, vec!["123".to_string()]);

    let terms = parse("123 33").simple_terms().to_vec();
    assert_eq!(terms, vec!["123".to_string(), "33".to_string()]);

    let terms = parse("term! term# $").simple_terms().to_vec();
    assert_eq!(
        terms,
        vec!["term!".to_string(), "term#".to_string(), "$".to_string()]
    );
}

#[test]
fn simple_terms_phrase() {
    let terms = parse("\"test term\"").simple_terms().to_vec();

    assert_eq!(terms, vec!["test".to_string(), "term".to_string()]);
}

#[test]
fn empty_query() {
    let query = parse("");

    assert!(query.is_empty())
}

#[test]
fn query_term_only_special_char() {
    let query = parse("&");

    assert!(!query.is_empty());
}

#[test]
fn offset_follows_page() {
    let q = Query::parse(SearchQuery {
        query: "test".to_string(),
        page: 3,
        num_results: 20,
        ..Default::default()
    });
    assert_eq!(q.offset(), 60);
    assert_eq!(q.num_results(), 20);
}
