use stract_core::collect::{RetrievedWebpage, SnippetConfig};
use stract_core::index::InvertedIndex;
use stract_core::query::{Query, SearchQuery};
use stract_core::schema::Label;
use stract_core::webpage::Webpage;

const CONTENT: &str = "this is the best example website ever this is the best example website ever this is the best example website ever this is the best example website ever this is the best example website ever this is the best example website ever";

fn page(url: &str, title: &str, body: &str) -> Webpage {
    Webpage {
        url: url.to_string(),
        title: title.to_string(),
        clean_body: body.to_string(),
        all_body: format!("{} {}", title, body),
        description: None,
        dmoz_description: None,
        microformat_tags: vec![],
        schema_org_paths: vec![],
        schema_org_json: String::new(),
        keywords: vec![],
        recipe_first_ingredient_tag_id: None,
        safety_classification: None,
        inserted_at: 0,
        last_updated: 0,
        region: 0,
        host_centrality: 0,
        page_centrality: 0,
        fetch_time_ms: 500,
        pre_computed_score: 0,
        node_id: None,
        likely_has_ads: false,
        likely_has_paywall: false,
    }
}

fn run(index: &InvertedIndex, sq: SearchQuery) -> Vec<RetrievedWebpage> {
    let q = Query::parse(sq);
    let initial = index.search_initial(&q);
    index.retrieve_websites(&initial.top_websites, &q, &SnippetConfig::built_in())
}

fn fresh() -> InvertedIndex {
    let mut index = InvertedIndex::open();
    index.prepare_writer();
    index
}

#[test]
fn not_query() {
    let mut index = fresh();
    index
        .insert(page(
            "https://www.first.com",
            "Test website",
            "This is a test website",
        ))
        .expect("failed to insert webpage");
    index
        .insert(page(
            "https://www.second.com",
            "Test test",
            "This test page does not contain the forbidden word",
        ))
        .expect("failed to insert webpage");
    index.commit();

    let result = run(
        &index,
        SearchQuery {
            query: "test -website".to_string(),
            ..Default::default()
        },
    );
    assert_eq!(result.len(), 1);
    assert_eq!(result[0].url, "https://www.second.com/");
}

#[test]
fn site_query() {
    let mut index = fresh();
    index
        .insert(page(
            "https://www.first.com",
            "Test website",
            "This is a test website",
        ))
        .expect("failed to insert webpage");
    index
        .insert(page(
            "https://www.second.com",
            "Test test",
            "This test page does not contain the forbidden word",
        ))
        .expect("failed to insert webpage");
    index.commit();

    let result = run(
        &index,
        SearchQuery {
            query: "test site:first.com".to_string(),
            ..Default::default()
        },
    );
    assert_eq!(result.len(), 1);
    assert_eq!(result[0].url, "https://www.first.com/");

    let result = run(
        &index,
        SearchQuery {
            query: "test site:www.first.com".to_string(),
            ..Default::default()
        },
    );
    assert_eq!(result.len(), 1);
    assert_eq!(result[0].url, "https://www.first.com/");

    let result = run(
        &index,
        SearchQuery {
            query: "test -site:first.com".to_string(),
            ..Default::default()
        },
    );
    assert_eq!(result.len(), 1);
    assert_eq!(result[0].url, "https://www.second.com/");
}

#[test]
fn title_query() {
    let mut index = fresh();
    index
        .insert(page(
            "https://www.first.com",
            "Test website",
            "This is a test website",
        ))
        .expect("failed to insert webpage");
    index
        .insert(page(
            "https://www.second.com",
            "Test test",
            "This is a test website",
        ))
        .expect("failed to insert webpage");
    index.commit();

    let result = run(
        &index,
        SearchQuery {
            query: "intitle:website".to_string(),
            ..Default::default()
        },
    );
    assert_eq!(result.len(), 1);
    assert_eq!(result[0].url, "https://www.first.com/");
}

#[test]
fn url_query() {
    let mut index = fresh();
    index
        .insert(page(
            "https://www.first.com/forum",
            "Test website",
            "This is a test website",
        ))
        .expect("failed to insert webpage");
    index
        .insert(page(
            "https://www.second.com",
            "Test test",
            "This is a test website",
        ))
        .expect("failed to insert webpage");
    index.commit();

    let result = run(
        &index,
        SearchQuery {
            query: "test inurl:forum".to_string(),
            ..Default::default()
        },
    );
    assert_eq!(result.len(), 1);
    assert_eq!(result[0].url, "https://www.first.com/forum");
}

#[test]
fn site_query_split_domain() {
    let mut index = fresh();
    index
        .insert(page(
            "https://www.the-first.com",
            "Test website",
            "This is a test website",
        ))
        .expect("failed to insert webpage");
    index
        .insert(page(
            "https://www.second.com",
            "Test test",
            "This test page does not contain the forbidden word",
        ))
        .expect("failed to insert webpage");
    index.commit();

    let result = run(
        &index,
        SearchQuery {
            query: "test site:first.com".to_string(),
            ..Default::default()
        },
    );
    assert_eq!(result.len(), 0);

    let result = run(
        &index,
        SearchQuery {
            query: "test site:the-first.com".to_string(),
            ..Default::default()
        },
    );
    assert_eq!(result.len(), 1);
    assert_eq!(result[0].url, "https://www.the-first.com/");

    let result = run(
        &index,
        SearchQuery {
            query: "test site:www.the-first.com".to_string(),
            ..Default::default()
        },
    );
    assert_eq!(result.len(), 1);
    assert_eq!(result[0].url, "https://www.the-first.com/");
}

#[test]
fn phrase_query() {
    let mut index = fresh();
    index
        .insert(page(
            "https://www.first.com",
            "Test website",
            "This is a test website",
        ))
        .expect("failed to insert webpage");
    index
        .insert(page(
            "https://www.second.com",
            "Test test",
            "This is a bad test website",
        ))
        .expect("failed to insert webpage");
    index.commit();

    let result = run(
        &index,
        SearchQuery {
            query: "\"Test website\"".to_string(),
            ..Default::default()
        },
    );
    assert_eq!(result.len(), 1);
    assert_eq!(result[0].url, "https://www.first.com/");

    let result = run(
        &index,
        SearchQuery {
            query: "\"Test website\" site:www.second.com".to_string(),
            ..Default::default()
        },
    );
    assert_eq!(result.len(), 0);
}

#[test]
fn match_compound_words() {
    let mut index = fresh();
    index
        .insert(page(
            "https://www.first.com",
            "Test website",
            "This is a test website",
        ))
        .expect("failed to insert webpage");
    index
        .insert(page(
            "https://www.second.com",
            "Testwebsite",
            "This is a testwebsite",
        ))
        .expect("failed to insert webpage");
    index.commit();

    let result = run(
        &index,
        SearchQuery {
            query: "testwebsite".to_string(),
            ..Default::default()
        },
    );
    assert_eq!(result.len(), 2);

    let result = run(
        &index,
        SearchQuery {
            query: "test website".to_string(),
            ..Default::default()
        },
    );
    assert_eq!(result.len(), 2);
}

#[test]
fn safe_search() {
    let mut index = fresh();
    let mut sfw = page("https://www.sfw.com", "Test website", "sfw");
    sfw.safety_classification = Some(Label::Sfw);
    index.insert(sfw).expect("failed to insert webpage");

    let mut nsfw = page("https://www.nsfw.com", "Test website", "nsfw");
    nsfw.safety_classification = Some(Label::Nsfw);
    index.insert(nsfw).expect("failed to insert webpage");

    index.commit();

    let result = run(
        &index,
        SearchQuery {
            query: "test".to_string(),
            safe_search: false,
            ..Default::default()
        },
    );
    assert_eq!(result.len(), 2);

    let result = run(
        &index,
        SearchQuery {
            query: "test".to_string(),
            safe_search: true,
            ..Default::default()
        },
    );
    assert_eq!(result.len(), 1);
    assert_eq!(result[0].url, "https://www.sfw.com/");
}

#[test]
fn suffix_domain_prefix_path_site_operator() {
    let mut index = fresh();
    index
        .insert(page(
            "https://www.first.com/example",
            "Test website",
            "This is a test website",
        ))
        .expect("failed to insert webpage");
    index
        .insert(page(
            "https://www.second.com",
            "Test test",
            "This is a test website",
        ))
        .expect("failed to insert webpage");
    index
        .insert(page(
            "https://www.third.io",
            "Test test",
            "This is a test website",
        ))
        .expect("failed to insert webpage");
    index.commit();

    let result = run(
        &index,
        SearchQuery {
            query: "test site:.com".to_string(),
            ..Default::default()
        },
    );
    assert_eq!(result.len(), 2);

    let result = run(
        &index,
        SearchQuery {
            query: "test site:.com/example".to_string(),
            ..Default::default()
        },
    );
    assert_eq!(result.len(), 1);

    let result = run(
        &index,
        SearchQuery {
            query: "test site:first.com/example".to_string(),
            ..Default::default()
        },
    );
    assert_eq!(result.len(), 1);

    let result = run(
        &index,
        SearchQuery {
            query: "test site:first.com".to_string(),
            ..Default::default()
        },
    );
    assert_eq!(result.len(), 1);

    let result = run(
        &index,
        SearchQuery {
            query: "test site:www.first.com".to_string(),
            ..Default::default()
        },
    );
    assert_eq!(result.len(), 1);
}

#[test]
fn commit_required_for_visibility() {
    let mut index = fresh();
    index
        .insert(page(
            "https://www.first.com",
            "Test website",
            CONTENT,
        ))
        .expect("failed to insert webpage");

    let before = run(
        &index,
        SearchQuery {
            query: "test".to_string(),
            ..Default::default()
        },
    );
    assert_eq!(before.len(), 0);

    index.commit();

    let after = run(
        &index,
        SearchQuery {
            query: "test".to_string(),
            ..Default::default()
        },
    );
    assert_eq!(after.len(), 1);
}

#[test]
fn retrieved_keywords_keep_their_text() {
    let mut index = fresh();
    let mut p = page("https://www.kw.com", "Keyword test website", CONTENT);
    p.keywords = vec!["rust".to_string(), "search".to_string()];
    index.insert(p).expect("failed to insert webpage");
    index.commit();

    let res = run(
        &index,
        SearchQuery {
            query: "website".to_string(),
            ..Default::default()
        },
    );
    assert_eq!(res.len(), 1);
    assert_eq!(res[0].keywords, vec!["rust".to_string(), "search".to_string()]);
}

#[test]
fn snippet_words_come_from_the_source() {
    let mut index = fresh();
    index
        .insert(page("https://www.sn.com", "Snippet test website", CONTENT))
        .expect("failed to insert webpage");
    index.commit();

    let res = run(
        &index,
        SearchQuery {
            query: "website".to_string(),
            ..Default::default()
        },
    );
    assert_eq!(res.len(), 1);
    let words: Vec<String> = res[0]
        .snippet
        .fragments
        .iter()
        .map(|f| f.text.clone())
        .collect();
    assert!(!words.is_empty());
    // the snippet takes the leading words of the body
    assert_eq!(words[0], "this");
    assert_eq!(words[1], "is");
    assert_eq!(words[2], "the");
    assert!(res[0].snippet.fragments.iter().any(|f| f.highlighted));
}

#[test]
fn merge_orders_segments_largest_first() {
    let mut small = fresh();
    small
        .insert(page("https://www.one.com", "Test website", CONTENT))
        .expect("failed to insert webpage");
    small.commit();

    let mut big = fresh();
    big.insert(page("https://www.two.com", "Test website", CONTENT))
        .expect("failed to insert webpage");
    big.insert(page("https://www.three.com", "Test website", CONTENT))
        .expect("failed to insert webpage");
    big.commit();

    let merged = small.merge(big);
    assert_eq!(merged.segments.len(), 2);
    assert!(merged.segments[0].docs.len() >= merged.segments[1].docs.len());
    assert_eq!(merged.segments[0].docs.len(), 2);
}

#[test]
fn host_node_reads_back() {
    let mut index = fresh();
    let mut p = page("https://www.node.com", "Node test website", CONTENT);
    p.node_id = Some(42);
    index.insert(p).expect("failed to insert webpage");
    index.commit();

    let q = Query::parse(SearchQuery {
        query: "website".to_string(),
        ..Default::default()
    });
    let initial = index.search_initial(&q);
    assert_eq!(initial.top_websites.len(), 1);
    assert_eq!(index.website_host_node(&initial.top_websites[0]), Some(Some(42)));
}
