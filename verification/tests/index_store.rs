use stract_core::collect::{RetrievedWebpage, SnippetConfig};
use stract_core::index::InvertedIndex;
use stract_core::query::{Query, SearchQuery};
use stract_core::webpage::Webpage;

const CONTENT: &str = "this is the best example website ever this is the best example website ever this is the best example website ever this is the best example website ever this is the best example website ever this is the best example website ever";

fn page(url: &str, title: &str, body: &str) -> Webpage {
    Webpage {
        url: url.to_string(),
        title: title.to_string(),
        clean_body: body.to_string(),
        all_body: format!("{} {}", title, body),
        description: None,
        dmoz_description: None,
        microformat_tags: vec![],
        schema_org_paths: vec![],
        schema_org_json: String::new(),
        keywords: vec![],
        recipe_first_ingredient_tag_id: None,
        safety_classification: None,
        inserted_at: 0,
        last_updated: 0,
        region: 0,
        host_centrality: 0,
        page_centrality: 0,
        fetch_time_ms: 500,
        pre_computed_score: 0,
        node_id: None,
        likely_has_ads: false,
        likely_has_paywall: false,
    }
}

fn run(index: &InvertedIndex, sq: SearchQuery) -> Vec<RetrievedWebpage> {
    let q = Query::parse(sq);
    let initial = index.search_initial(&q);
    index.retrieve_websites(&initial.top_websites, &q, &SnippetConfig::built_in())
}

fn fresh() -> InvertedIndex {
    let mut index = InvertedIndex::open();
    index.prepare_writer();
    index
}

#[test]
fn simple_search() {
    let mut index = fresh();

    let result = run(
        &index,
        SearchQuery {
            query: "test".to_string(),
            ..Default::default()
        },
    );
    assert_eq!(result.len(), 0);

    index
        .insert(page("https://www.example.com", "Test website", CONTENT))
        .expect("failed to insert webpage");
    index.commit();

    let result = run(
        &index,
        SearchQuery {
            query: "test".to_string(),
            ..Default::default()
        },
    );
    assert_eq!(result.len(), 1);
    assert_eq!(result[0].url, "https://www.example.com/");
}

#[test]
fn document_not_matching() {
    let mut index = fresh();
    index
        .insert(page("https://www.example.com", "Test website", CONTENT))
        .expect("failed to insert webpage");
    index.commit();

    let result = run(
        &index,
        SearchQuery {
            query: "this query should not match".to_string(),
            ..Default::default()
        },
    );
    assert_eq!(result.len(), 0);
}

#[test]
fn english_stemming() {
    let mut index = fresh();
    index
        .insert(page(
            "https://www.example.com",
            "Website for runners",
            CONTENT,
        ))
        .expect("failed to insert webpage");
    index.commit();

    let result = run(
        &index,
        SearchQuery {
            query: "runner".to_string(),
            ..Default::default()
        },
    );
    assert_eq!(result.len(), 1);
    assert_eq!(result[0].url, "https://www.example.com/");
}

#[test]
fn stemmed_query_english() {
    let mut index = fresh();
    index
        .insert(page("https://www.example.com", "Fast runner", CONTENT))
        .expect("failed to insert webpage");
    index.commit();

    let result = run(
        &index,
        SearchQuery {
            query: "runners".to_string(),
            ..Default::default()
        },
    );
    assert_eq!(result.len(), 1);
    assert_eq!(result[0].url, "https://www.example.com/");
}

#[test]
fn not_searchable_backlinks() {
    let mut index = fresh();
    index
        .insert(page(
            "https://www.a.com",
            "Website A",
            &format!("B site is great {}", CONTENT),
        ))
        .expect("failed to insert webpage");
    index
        .insert(page("https://www.b.com", "Website B", CONTENT))
        .expect("failed to insert webpage");
    index.commit();

    let result = run(
        &index,
        SearchQuery {
            query: "great site".to_string(),
            ..Default::default()
        },
    );
    assert_eq!(result.len(), 1);
    assert_eq!(result[0].url, "https://www.a.com/");
}

#[test]
fn limited_top_docs() {
    let mut index = fresh();
    for _ in 0..100 {
        index
            .insert(page(
                "https://www.example.com",
                "Website for runners",
                CONTENT,
            ))
            .expect("failed to insert webpage");
    }
    index.commit();

    let result = run(
        &index,
        SearchQuery {
            query: "runner".to_string(),
            ..Default::default()
        },
    );
    assert_eq!(result.len(), 20);
}

#[test]
fn host_search() {
    let mut index = fresh();
    index
        .insert(page("https://www.dr.dk", "News website", CONTENT))
        .expect("failed to insert webpage");
    index.commit();

    let result = run(
        &index,
        SearchQuery {
            query: "dr".to_string(),
            ..Default::default()
        },
    );
    assert_eq!(result.len(), 1);
    assert_eq!(result[0].url, "https://www.dr.dk/");
}

#[test]
fn merge() {
    let mut index1 = fresh();
    index1
        .insert(page("https://www.example.com", "Test website", CONTENT))
        .expect("failed to insert webpage");
    index1.commit();

    let mut index2 = fresh();
    index2
        .insert(page("https://www.example.com", "Test website", CONTENT))
        .expect("failed to insert webpage");
    index2.commit();

    let mut index = index1.merge(index2);
    index.prepare_writer();
    index.commit();

    let result = run(
        &index,
        SearchQuery {
            query: "website".to_string(),
            ..Default::default()
        },
    );
    assert_eq!(result.len(), 2);
    assert_eq!(result[0].url, "https://www.example.com/");
    assert_eq!(result[1].url, "https://www.example.com/");
}

#[test]
fn match_across_fields() {
    let mut index = fresh();

    let result = run(
        &index,
        SearchQuery {
            query: "example test".to_string(),
            ..Default::default()
        },
    );
    assert_eq!(result.len(), 0);

    index
        .insert(page("https://www.example.com", "Test website", CONTENT))
        .expect("failed to insert webpage");
    index.commit();

    let result = run(
        &index,
        SearchQuery {
            query: "example test".to_string(),
            ..Default::default()
        },
    );
    assert_eq!(result.len(), 1);
    assert_eq!(result[0].url, "https://www.example.com/");
}

#[test]
fn get_webpage() {
    let mut index = fresh();
    index
        .insert(page("https://www.example.com", "News website", CONTENT))
        .expect("failed to insert webpage");
    index.commit();

    let webpage = index.get_webpage("https://www.example.com").unwrap();
    assert_eq!(webpage.title, "News website".to_string());
    assert_eq!(webpage.url, "https://www.example.com/".to_string());
}

#[test]
fn get_homepage() {
    let mut index = fresh();
    index
        .insert(page("https://www.example.com", "News website", CONTENT))
        .expect("failed to insert webpage");
    index.commit();

    let webpage = index.get_homepage("https://www.example.com").unwrap();
    assert_eq!(webpage.title, "News website".to_string());
    assert_eq!(webpage.url, "https://www.example.com/".to_string());
}

#[test]
fn insertion_time_deletion() {
    let mut index = fresh();

    let now = chrono::Utc::now().timestamp() as u64;
    let inserted_at = now - 4 * 24 * 60 * 60;
    let cutoff = inserted_at + 60 * 60;

    let mut a = page("https://www.a.com", "News website", &format!("{} test", CONTENT));
    a.inserted_at = inserted_at;
    let mut b = page("https://www.b.com", "News website", &format!("{} test", CONTENT));
    b.inserted_at = now;

    index.insert(a).unwrap();
    index.insert(b).unwrap();
    index.commit();

    let result = run(
        &index,
        SearchQuery {
            query: "test".to_string(),
            ..Default::default()
        },
    );
    assert_eq!(result.len(), 2);

    index.delete_all_before(cutoff);
    index.commit();

    let result = run(
        &index,
        SearchQuery {
            query: "test".to_string(),
            ..Default::default()
        },
    );
    assert_eq!(result.len(), 1);
    assert_eq!(result[0].url, "https://www.b.com/");
}

#[test]
fn merge_into_max_segments_counts() {
    let mut index = fresh();
    for i in 0..6 {
        index
            .insert(page(
                &format!("https://www.site{}.com", i),
                "Test website",
                CONTENT,
            ))
            .expect("failed to insert webpage");
        index.commit();
    }
    assert_eq!(index.num_segments(), 6);

    index.merge_into_max_segments(3);
    assert!(index.num_segments() <= 2);

    let result = run(
        &index,
        SearchQuery {
            query: "test".to_string(),
            ..Default::default()
        },
    );
    assert_eq!(result.len(), 6);
}

#[test]
fn merge_into_even_cap_packs_into_half_rounded_up() {
    let mut index = fresh();
    for i in 0..6 {
        index
            .insert(page(
                &format!("https://www.even{}.com", i),
                "Test website",
                CONTENT,
            ))
            .expect("failed to insert webpage");
        index.commit();
    }
    assert_eq!(index.num_segments(), 6);

    // half of k + 1, rounded up: two bins for k = 2
    index.merge_into_max_segments(2);
    assert_eq!(index.num_segments(), 2);
}

#[test]
fn merge_into_keeps_a_single_segment_bin() {
    let mut index = fresh();
    for i in 0..3 {
        index
            .insert(page(
                &format!("https://www.keep{}.com", i),
                "Test website",
                CONTENT,
            ))
            .expect("failed to insert webpage");
        index.commit();
    }
    let kept_id = index.segments[1].id;

    index.merge_into_max_segments(2);
    assert_eq!(index.num_segments(), 2);
    // the bin that got a single segment keeps it as it was
    assert!(index.segments.iter().any(|s| s.id == kept_id && s.docs.len() == 1));
}
