use stract_core::defaults;
use stract_core::optic::Optic;
use stract_core::pattern::{parse_pattern, pattern_matches, ChainKind};
use stract_core::query::{Query, SearchQuery};
use stract_core::term::{parse_terms, TermKind};
use stract_core::tokenize::{site_tokens_of, tokens_of, ws_split};

fn toks(s: &str) -> Vec<Vec<u8>> {
    tokens_of(s.as_bytes())
}

#[test]
fn default_tokenizer_lowercases_and_splits() {
    let t = toks("Hello, World! don't 123");
    let words: Vec<&[u8]> = t.iter().map(|w| w.as_slice()).collect();
    assert_eq!(
        words,
        vec![
            b"hello".as_slice(),
            b"world".as_slice(),
            b"don".as_slice(),
            b"t".as_slice(),
            b"123".as_slice(),
        ]
    );
}

#[test]
fn site_tokenizer_splits_at_url_boundaries() {
    let t = site_tokens_of("www.the-first.com/example".as_bytes());
    let words: Vec<&[u8]> = t.iter().map(|w| w.as_slice()).collect();
    assert_eq!(
        words,
        vec![
            b"www".as_slice(),
            b"the-first".as_slice(),
            b"com".as_slice(),
            b"example".as_slice(),
        ]
    );
}

#[test]
fn whitespace_split_keeps_tokens_verbatim() {
    let t = ws_split("  term!  $ ".as_bytes());
    let words: Vec<&[u8]> = t.iter().map(|w| w.as_slice()).collect();
    assert_eq!(words, vec![b"term!".as_slice(), b"$".as_slice()]);
}

#[test]
fn term_parser_reads_operators() {
    let ts = parse_terms("test -site:x.com intitle:news \"a b\"".as_bytes());
    assert_eq!(ts.len(), 4);
    assert_eq!(ts[0].kind, TermKind::Simple);
    assert!(!ts[0].negated);
    assert_eq!(ts[1].kind, TermKind::Site);
    assert!(ts[1].negated);
    assert_eq!(ts[1].text, b"x.com".to_vec());
    assert_eq!(ts[2].kind, TermKind::InTitle);
    assert_eq!(ts[2].text, b"news".to_vec());
    assert_eq!(ts[3].kind, TermKind::Phrase);
    assert_eq!(ts[3].text, b"a b".to_vec());
}

#[test]
fn pattern_anchor_semantics() {
    let field = toks("this is an example website");

    // |X| matches only the full value.
    let p = parse_pattern("|this is an example website|".as_bytes(), ChainKind::Word);
    assert!(pattern_matches(&p, &field));
    let p = parse_pattern("|this is|".as_bytes(), ChainKind::Word);
    assert!(!pattern_matches(&p, &field));

    // |X matches a prefix, X| a suffix, X any consecutive run.
    let p = parse_pattern("|this is".as_bytes(), ChainKind::Word);
    assert!(pattern_matches(&p, &field));
    let p = parse_pattern("|is".as_bytes(), ChainKind::Word);
    assert!(!pattern_matches(&p, &field));
    let p = parse_pattern("example website|".as_bytes(), ChainKind::Word);
    assert!(pattern_matches(&p, &field));
    let p = parse_pattern("an example|".as_bytes(), ChainKind::Word);
    assert!(!pattern_matches(&p, &field));
    let p = parse_pattern("is an".as_bytes(), ChainKind::Word);
    assert!(pattern_matches(&p, &field));
    let p = parse_pattern("this an".as_bytes(), ChainKind::Word);
    assert!(!pattern_matches(&p, &field));

    // * matches any run of tokens.
    let p = parse_pattern("*".as_bytes(), ChainKind::Word);
    assert!(pattern_matches(&p, &field));
    let p = parse_pattern("|this * website|".as_bytes(), ChainKind::Word);
    assert!(pattern_matches(&p, &field));
    let p = parse_pattern("|this * nothing|".as_bytes(), ChainKind::Word);
    assert!(!pattern_matches(&p, &field));
}

#[test]
fn term_duplicates_cap_at_ten() {
    let mut text = String::new();
    for _ in 0..25 {
        text.push_str("spam ");
    }
    let q = Query::parse(SearchQuery {
        query: text,
        ..Default::default()
    });
    assert_eq!(q.terms().len(), 10);
}

#[test]
fn optic_parse_rejects_garbage() {
    assert!(Optic::parse("Rule {").is_err());
    assert!(Optic::parse("Nonsense(\"x\")").is_err());
    assert!(Optic::parse("Rule { Matches { Title(\"unterminated }").is_err());
    assert!(Optic::parse("").is_ok());
}

#[test]
fn optic_parse_reads_hosts_and_rules() {
    let o = Optic::parse(
        "Like(Site(\"a.com\")); Dislike(Site(\"b.com\")); Block(Site(\"c.com\")); DiscardNonMatching; Rule { Matches { Title(\"x\") }, Action(Downrank(2)) }",
    )
    .unwrap();
    assert_eq!(o.host_rankings.liked, vec!["a.com".to_string()]);
    assert_eq!(o.host_rankings.disliked, vec!["b.com".to_string()]);
    assert_eq!(o.host_rankings.blocked, vec!["c.com".to_string()]);
    assert!(o.discard_non_matching);
    assert_eq!(o.rules.len(), 1);
}

#[test]
fn default_values_hold() {
    assert_eq!(defaults::Collector::max_docs_considered(), 250_000);
    assert_eq!(defaults::Snippet::desired_num_chars(), 275);
    assert_eq!(defaults::Snippet::delta_num_chars(), 50);
    assert_eq!(defaults::Snippet::min_passage_width(), 20);
    assert_eq!(defaults::Snippet::empty_query_snippet_words(), 50);
    assert_eq!(defaults::Snippet::min_description_words(), 10);
    assert_eq!(defaults::Snippet::min_body_length(), 256);
    assert_eq!(defaults::Snippet::min_body_length_homepage(), 1024);
    assert_eq!(defaults::Crawler::robots_txt_cache_sec(), 3600);
    assert_eq!(defaults::Crawler::min_crawl_delay_ms(), 5_000);
    assert_eq!(defaults::Crawler::max_crawl_delay_ms(), 60_000);
    assert_eq!(defaults::Crawler::max_url_slowdown_retry(), 3);
    assert_eq!(defaults::Crawler::max_redirects(), 5);
    assert!(!defaults::Crawler::dry_run());
    assert_eq!(defaults::WebgraphServer::max_similar_hosts(), 1_000);
    assert!(defaults::SearchQuery::flatten_response());
    assert!(!defaults::SearchQuery::return_ranking_signals());
    assert!(!defaults::SearchQuery::safe_search());
    assert!(!defaults::SearchQuery::count_results());
    assert!(defaults::Widgets::calculator_fetch_currencies_exchange());
}

#[test]
fn stemmer_reduces_plurals() {
    let st = stract_core::stem::english_stemmer();
    let stemmed = stract_core::stem::stem_word(&st, &b"runners".to_vec());
    assert_eq!(stemmed, b"runner".to_vec());
}

#[test]
fn url_parts_normalize() {
    let parts = stract_core::urls::parse_url_parts("https://www.Example.com").unwrap();
    assert_eq!(parts.normalized, "https://www.example.com/");
    assert_eq!(parts.host, "www.example.com");
    assert_eq!(parts.path, "/");
    assert!(!parts.has_query);
    assert!(stract_core::urls::parse_url_parts("not a url").is_none());
}

#[test]
fn timestamps_in_range_are_representable() {
    assert!(stract_core::dates::timestamp_representable(0));
    assert!(stract_core::dates::timestamp_representable(1_700_000_000));
    assert!(!stract_core::dates::timestamp_representable(i64::MAX));
}

#[test]
fn count_results_reports_exact_matches() {
    let mut index = stract_core::index::InvertedIndex::open();
    index.prepare_writer();
    for i in 0..30 {
        index
            .insert(stract_core::webpage::Webpage {
                url: format!("https://www.site{}.com", i),
                title: "Test website".to_string(),
                clean_body: "plain test text".to_string(),
                all_body: "plain test text".to_string(),
                description: None,
                dmoz_description: None,
                microformat_tags: vec![],
                schema_org_paths: vec![],
                schema_org_json: String::new(),
                keywords: vec![],
                recipe_first_ingredient_tag_id: None,
                safety_classification: None,
                inserted_at: 0,
                last_updated: 0,
                region: 0,
                host_centrality: 0,
                page_centrality: 0,
                fetch_time_ms: 0,
                pre_computed_score: 0,
                node_id: None,
                likely_has_ads: false,
                likely_has_paywall: false,
            })
            .unwrap();
    }
    index.commit();

    let q = Query::parse(SearchQuery {
        query: "test".to_string(),
        count_results: true,
        ..Default::default()
    });
    let initial = index.search_initial(&q);
    assert_eq!(initial.num_websites, Some(30));
    assert_eq!(initial.top_websites.len(), 20);

    // With one segment the short-circuit budget covers it whole, so
    // the top pointers agree with and without counting.
    let q2 = Query::parse(SearchQuery {
        query: "test".to_string(),
        count_results: false,
        ..Default::default()
    });
    let shortcut = index.search_initial(&q2);
    assert_eq!(shortcut.num_websites, None);
    assert_eq!(shortcut.top_websites, initial.top_websites);
}

#[test]
fn merged_rankings_drop_duplicate_hosts() {
    let mut a = stract_core::optic::HostRankings {
        liked: vec!["a.com".to_string()],
        disliked: vec![],
        blocked: vec!["c.com".to_string()],
    };
    let b = stract_core::optic::HostRankings {
        liked: vec!["a.com".to_string(), "b.com".to_string()],
        disliked: vec!["d.com".to_string()],
        blocked: vec!["c.com".to_string()],
    };
    a.merge_into(b);
    assert_eq!(a.liked, vec!["a.com".to_string(), "b.com".to_string()]);
    assert_eq!(a.disliked, vec!["d.com".to_string()]);
    assert_eq!(a.blocked, vec!["c.com".to_string()]);
}

#[test]
fn optic_parse_reads_fractional_boosts() {
    let o = Optic::parse(
        "Rule { Matches { Title(\"x\") }, Action(Boost(2.5)) }",
    )
    .unwrap();
    assert_eq!(o.rules.len(), 1);
    assert_eq!(
        o.rules[0].action,
        stract_core::optic::Action::Boost(2500),
    );
}

#[test]
fn optic_parse_requires_closing_quote() {
    assert!(Optic::parse("Rule { Matches { Title(\"x) } }").is_err());
}

#[test]
fn description_falls_back_to_dmoz() {
    let mut page = stract_core::collect::RetrievedWebpage {
        title: String::new(),
        url: String::new(),
        body: String::new(),
        snippet: stract_core::collect::TextSnippet { fragments: vec![] },
        dirty_body: String::new(),
        description: None,
        dmoz_description: Some("from the directory".to_string()),
        updated_time: None,
        schema_org_json: String::new(),
        region: 0,
        likely_has_ads: false,
        likely_has_paywall: false,
        recipe_first_ingredient_tag_id: None,
        keywords: vec![],
    };
    assert_eq!(page.description(), Some(&"from the directory".to_string()));
    page.description = Some("its own".to_string());
    assert_eq!(page.description(), Some(&"its own".to_string()));
    page.description = None;
    page.dmoz_description = None;
    assert_eq!(page.description(), None);
}
