use stract_core::collect::{RetrievedWebpage, SnippetConfig};
use stract_core::index::InvertedIndex;
use stract_core::optic::{HostRankings, Optic, RankingCoeff};
use stract_core::query::{Query, SearchQuery};
use stract_core::webpage::Webpage;

const CONTENT: &str = "this is the best example website ever this is the best example website ever this is the best example website ever this is the best example website ever this is the best example website ever this is the best example website ever";

fn page(url: &str, title: &str, body: &str) -> Webpage {
    Webpage {
        url: url.to_string(),
        title: title.to_string(),
        clean_body: body.to_string(),
        all_body: format!("{} {}", title, body),
        description: None,
        dmoz_description: None,
        microformat_tags: vec![],
        schema_org_paths: vec![],
        schema_org_json: String::new(),
        keywords: vec![],
        recipe_first_ingredient_tag_id: None,
        safety_classification: None,
        inserted_at: 0,
        last_updated: 0,
        region: 0,
        host_centrality: 0,
        page_centrality: 0,
        fetch_time_ms: 500,
        pre_computed_score: 0,
        node_id: None,
        likely_has_ads: false,
        likely_has_paywall: false,
    }
}

fn run(index: &InvertedIndex, sq: SearchQuery) -> Vec<RetrievedWebpage> {
    let q = Query::parse(sq);
    let initial = index.search_initial(&q);
    index.retrieve_websites(&initial.top_websites, &q, &SnippetConfig::built_in())
}

fn fresh() -> InvertedIndex {
    let mut index = InvertedIndex::open();
    index.prepare_writer();
    index
}

#[test]
fn discard_and_boost_hosts() {
    let mut index = fresh();
    index
        .insert(page(
            "https://www.a.com",
            "Website A",
            &format!("{} example example example", CONTENT),
        ))
        .expect("failed to insert webpage");
    let mut b = page("https://www.b.com", "Website B", CONTENT);
    b.host_centrality = 10;
    index.insert(b).expect("failed to insert webpage");
    index.commit();

    let res = run(
        &index,
        SearchQuery {
            query: "website".to_string(),
            optic: Some(Optic {
                rankings: vec![RankingCoeff {
                    target: "host_centrality".to_string(),
                    value: 1_000_000,
                }],
                rules: vec![],
                discard_non_matching: false,
                host_rankings: HostRankings {
                    liked: vec![],
                    disliked: vec![],
                    blocked: vec![],
                },
            }),
            ..Default::default()
        },
    );

    assert_eq!(res.len(), 2);
    assert_eq!(res[0].url, "https://www.b.com/");
    assert_eq!(res[1].url, "https://www.a.com/");

    let res = run(
        &index,
        SearchQuery {
            query: "website".to_string(),
            optic: Some(
                Optic::parse(
                    r#"
                        Rule {
                            Matches {
                                Domain("b.com")
                            },
                            Action(Discard)
                        }
                    "#,
                )
                .unwrap(),
            ),
            ..Default::default()
        },
    );

    assert_eq!(res.len(), 1);
    assert_eq!(res[0].url, "https://www.a.com/");

    let res = run(
        &index,
        SearchQuery {
            query: "website".to_string(),
            optic: Some(
                Optic::parse(
                    r#"
                        Rule {
                            Matches {
                                Domain("a.com")
                            },
                            Action(Boost(100))
                        }
                    "#,
                )
                .unwrap(),
            ),
            ..Default::default()
        },
    );

    assert_eq!(res.len(), 2);
    assert_eq!(res[0].url, "https://www.a.com/");
    assert_eq!(res[1].url, "https://www.b.com/");
}

#[test]
fn empty_discard() {
    let mut index = fresh();
    index
        .insert(page(
            "https://www.a.com/this/is/a/pattern",
            "Website A",
            &format!("{} example example example", CONTENT),
        ))
        .expect("failed to insert webpage");
    index
        .insert(page("https://www.b.com/this/is/b/pattern", "Website B", CONTENT))
        .expect("failed to insert webpage");
    index
        .insert(page("https://www.c.com/this/is/c/pattern", "Website B", CONTENT))
        .expect("failed to insert webpage");
    index.commit();

    let res = run(
        &index,
        SearchQuery {
            query: "website".to_string(),
            optic: Some(
                Optic::parse(
                    r#"
                    DiscardNonMatching;
                    Rule {
                        Matches {
                            Domain("a.com")
                        },
                        Action(Boost(6))
                    };
                    Rule {
                        Matches {
                            Domain("b.com")
                        },
                        Action(Boost(1))
                    };
                "#,
                )
                .unwrap(),
            ),
            ..Default::default()
        },
    );

    assert_eq!(res.len(), 2);
    assert_eq!(res[0].url, "https://www.a.com/this/is/a/pattern");
}

#[test]
fn schema_org_search() {
    let mut index = fresh();
    let mut a = page(
        "https://www.a.com/",
        "Website A",
        &format!("{} example example example", CONTENT),
    );
    a.schema_org_paths = vec!["ImageObject".to_string()];
    index.insert(a).expect("failed to insert webpage");

    let mut b = page("https://www.b.com/", "Website B", CONTENT);
    b.schema_org_paths = vec![
        "BlogPosting".to_string(),
        "BlogPosting.comment".to_string(),
        "UserComments".to_string(),
        "UserComments.url".to_string(),
        "UserComments.creator".to_string(),
        "Person".to_string(),
        "Person.name".to_string(),
        "UserComments.commentTime".to_string(),
    ];
    index.insert(b).expect("failed to insert webpage");
    index.commit();

    let res = run(
        &index,
        SearchQuery {
            query: "website".to_string(),
            optic: Some(
                Optic::parse(
                    r#"
                        DiscardNonMatching;
                        Rule {
                            Matches {
                                Schema("BlogPosting")
                            }
                        }
                    "#,
                )
                .unwrap(),
            ),
            ..Default::default()
        },
    );
    assert_eq!(res.len(), 1);
    assert_eq!(res[0].url, "https://www.b.com/");

    let res = run(
        &index,
        SearchQuery {
            query: "website".to_string(),
            optic: Some(
                Optic::parse(
                    r#"
                        DiscardNonMatching;
                        Rule {
                            Matches {
                                Schema("BlogPosting.comment")
                            }
                        }
                    "#,
                )
                .unwrap(),
            ),
            ..Default::default()
        },
    );
    assert_eq!(res.len(), 1);
    assert_eq!(res[0].url, "https://www.b.com/");

    let res = run(
        &index,
        SearchQuery {
            query: "website".to_string(),
            optic: Some(
                Optic::parse(
                    r#"
                        DiscardNonMatching;
                        Rule {
                            Matches {
                                Schema("ImageObject")
                            }
                        }
                    "#,
                )
                .unwrap(),
            ),
            ..Default::default()
        },
    );
    assert_eq!(res.len(), 1);
    assert_eq!(res[0].url, "https://www.a.com/");

    let res = run(
        &index,
        SearchQuery {
            query: "website".to_string(),
            optic: Some(
                Optic::parse(
                    r#"
                        DiscardNonMatching;
                        Rule {
                            Matches {
                                Schema("Person")
                            }
                        }
                    "#,
                )
                .unwrap(),
            ),
            ..Default::default()
        },
    );
    assert_eq!(res.len(), 1);
    assert_eq!(res[0].url, "https://www.b.com/");
}

#[test]
fn pattern_same_phrase() {
    let mut index = fresh();
    index
        .insert(page(
            "https://chat.stackoverflow.com",
            "Website A",
            &format!("{} example example example", CONTENT),
        ))
        .expect("failed to insert webpage");
    index.commit();

    let res = run(
        &index,
        SearchQuery {
            query: "site:stackoverflow.com".to_string(),
            optic: Some(
                Optic::parse(
                    r#"
                    DiscardNonMatching;
                    Rule {
                        Matches {
                            Site("a.com")
                        },
                        Action(Boost(6))
                    };
                    Rule {
                        Matches {
                            Site("stackoverflow.blog")
                        },
                        Matches {
                            Site("chat.b.eu")
                        },
                        Action(Boost(1))
                    };
                "#,
                )
                .unwrap(),
            ),
            ..Default::default()
        },
    );

    assert_eq!(res.len(), 0);
}

#[test]
fn discard_all_discard_like() {
    let mut index = fresh();
    index
        .insert(page(
            "https://a.com",
            "Website A",
            &format!("{} example example example", CONTENT),
        ))
        .expect("failed to insert webpage");
    index
        .insert(page(
            "https://b.com/",
            "Website B",
            &format!("{} example example example", CONTENT),
        ))
        .expect("failed to insert webpage");
    index.commit();

    let res = run(
        &index,
        SearchQuery {
            query: "example".to_string(),
            optic: Some(
                Optic::parse(
                    r#"
                    DiscardNonMatching;
                    Rule {
                        Matches {
                            Site("b.com")
                        }
                    };
                "#,
                )
                .unwrap(),
            ),
            host_rankings: Some(HostRankings {
                liked: vec!["a.com".to_string()],
                disliked: vec![],
                blocked: vec![],
            }),
            ..Default::default()
        },
    );

    assert_eq!(res.len(), 1);
    assert_eq!(res[0].url, "https://b.com/");
}

#[test]
fn special_pattern_syntax() {
    let mut index = fresh();
    index
        .insert(page(
            "https://example.com",
            "This is an example website",
            &format!("{} This is an example", CONTENT),
        ))
        .expect("failed to insert webpage");
    index.commit();

    let res = run(
        &index,
        SearchQuery {
            query: "example".to_string(),
            ..Default::default()
        },
    );
    assert_eq!(res.len(), 1);
    assert_eq!(res[0].url, "https://example.com/");

    let res = run(
        &index,
        SearchQuery {
            query: "example".to_string(),
            optic: Some(Optic::parse("Rule { Matches { Title(\"is\") }, Action(Discard) }").unwrap()),
            ..Default::default()
        },
    );
    assert_eq!(res.len(), 0);

    let res = run(
        &index,
        SearchQuery {
            query: "example".to_string(),
            optic: Some(Optic::parse("Rule { Matches { Title(\"|is\") }, Action(Discard) }").unwrap()),
            ..Default::default()
        },
    );
    assert_eq!(res.len(), 1);

    let res = run(
        &index,
        SearchQuery {
            query: "example".to_string(),
            optic: Some(Optic::parse("Rule { Matches { Title(\"|This\") }, Action(Discard) }").unwrap()),
            ..Default::default()
        },
    );
    assert_eq!(res.len(), 0);

    let res = run(
        &index,
        SearchQuery {
            query: "example".to_string(),
            optic: Some(
                Optic::parse("Rule { Matches { Title(\"|This an\") }, Action(Discard) }").unwrap(),
            ),
            ..Default::default()
        },
    );
    assert_eq!(res.len(), 1);

    let res = run(
        &index,
        SearchQuery {
            query: "example".to_string(),
            optic: Some(
                Optic::parse("Rule { Matches { Title(\"|This * an\") }, Action(Discard) }").unwrap(),
            ),
            ..Default::default()
        },
    );
    assert_eq!(res.len(), 0);

    let res = run(
        &index,
        SearchQuery {
            query: "example".to_string(),
            optic: Some(
                Optic::parse("Rule { Matches { Site(\"example.com\") }, Action(Discard) }").unwrap(),
            ),
            ..Default::default()
        },
    );
    assert_eq!(res.len(), 0);

    let res = run(
        &index,
        SearchQuery {
            query: "example".to_string(),
            optic: Some(
                Optic::parse("Rule { Matches { Site(\"|example.com\") }, Action(Discard) }").unwrap(),
            ),
            ..Default::default()
        },
    );
    assert_eq!(res.len(), 0);

    let res = run(
        &index,
        SearchQuery {
            query: "example".to_string(),
            optic: Some(
                Optic::parse("Rule { Matches { Site(\"|example.com|\") }, Action(Discard) }").unwrap(),
            ),
            ..Default::default()
        },
    );
    assert_eq!(res.len(), 0);

    let res = run(
        &index,
        SearchQuery {
            query: "example".to_string(),
            optic: Some(
                Optic::parse("Rule { Matches { Title(\"website.com|\") }, Action(Discard) }").unwrap(),
            ),
            ..Default::default()
        },
    );
    assert_eq!(res.len(), 1);
}

#[test]
fn active_optic_with_blocked_hosts() {
    let mut index = fresh();
    index
        .insert(page(
            "https://example.com",
            "This is an example website",
            &format!("{} This is an example", CONTENT),
        ))
        .expect("failed to insert webpage");
    index.commit();

    let res = run(
        &index,
        SearchQuery {
            query: "example".to_string(),
            optic: Some(
                Optic::parse(
                    "DiscardNonMatching; Rule { Matches { Title(\"is\") }, Action(Boost(0)) }",
                )
                .unwrap(),
            ),
            ..Default::default()
        },
    );
    assert_eq!(res.len(), 1);

    let res = run(
        &index,
        SearchQuery {
            query: "example".to_string(),
            optic: Some(
                Optic::parse(
                    "DiscardNonMatching; Rule { Matches { Title(\"is\") }, Action(Boost(0)) }",
                )
                .unwrap(),
            ),
            host_rankings: Some(HostRankings {
                liked: vec![],
                disliked: vec![],
                blocked: vec![String::from("example.com")],
            }),
            ..Default::default()
        },
    );
    assert_eq!(res.len(), 0);
}

#[test]
fn empty_optic_noop() {
    let mut index = fresh();
    index
        .insert(page(
            "https://example.com",
            "This is an example website",
            &format!("{} This is an example", CONTENT),
        ))
        .expect("failed to insert webpage");
    index.commit();

    let res = run(
        &index,
        SearchQuery {
            query: "example".to_string(),
            optic: Some(Optic::parse("").unwrap()),
            ..Default::default()
        },
    );
    assert_eq!(res.len(), 1);

    let res = run(
        &index,
        SearchQuery {
            query: "example".to_string(),
            optic: Some(Optic::parse("Rule { Matches { Title(\"\") }, Action(Discard) }").unwrap()),
            ..Default::default()
        },
    );
    assert_eq!(res.len(), 1);
}

#[test]
fn wildcard_edge_cases() {
    let mut index = fresh();
    index
        .insert(page(
            "https://example.com",
            "This is an example website",
            &format!("{} This is an example", CONTENT),
        ))
        .expect("failed to insert webpage");
    index
        .insert(page(
            "https://example.com",
            "Another thing with no words in common",
            &format!("{} This is an example", CONTENT),
        ))
        .expect("failed to insert webpage");
    index.commit();

    let res = run(
        &index,
        SearchQuery {
            query: "example".to_string(),
            optic: Some(Optic::parse("Rule { Matches { Title(\"*\") }, Action(Discard) }").unwrap()),
            ..Default::default()
        },
    );
    assert_eq!(res.len(), 0);

    let res = run(
        &index,
        SearchQuery {
            query: "example".to_string(),
            optic: Some(Optic::parse("Rule { Matches { Title(\"* is\") }, Action(Discard) }").unwrap()),
            ..Default::default()
        },
    );
    assert_eq!(res.len(), 1);

    let res = run(
        &index,
        SearchQuery {
            query: "example".to_string(),
            optic: Some(
                Optic::parse("Rule { Matches { Title(\"* This is\") }, Action(Discard) }").unwrap(),
            ),
            ..Default::default()
        },
    );
    assert_eq!(res.len(), 1);

    let res = run(
        &index,
        SearchQuery {
            query: "example".to_string(),
            optic: Some(
                Optic::parse("Rule { Matches { Title(\"example *\") }, Action(Discard) }").unwrap(),
            ),
            ..Default::default()
        },
    );
    assert_eq!(res.len(), 1);

    let res = run(
        &index,
        SearchQuery {
            query: "example".to_string(),
            optic: Some(
                Optic::parse("Rule { Matches { Title(\"example website *\") }, Action(Discard) }")
                    .unwrap(),
            ),
            ..Default::default()
        },
    );
    assert_eq!(res.len(), 1);
}

#[test]
fn empty_double_anchor() {
    let mut index = fresh();
    let mut p = page("https://example.com/", "This is an example website", "Test");
    p.clean_body = String::new();
    index.insert(p).expect("failed to insert webpage");
    index.commit();

    let res = run(
        &index,
        SearchQuery {
            query: "example".to_string(),
            ..Default::default()
        },
    );
    assert_eq!(res.len(), 1);

    let res = run(
        &index,
        SearchQuery {
            query: "example".to_string(),
            optic: Some(
                Optic::parse(
                    "DiscardNonMatching; Rule { Matches { Content(\"||\") }, Action(Boost(0)) }",
                )
                .unwrap(),
            ),
            ..Default::default()
        },
    );
    assert_eq!(res.len(), 1);

    let res = run(
        &index,
        SearchQuery {
            query: "example".to_string(),
            optic: Some(
                Optic::parse(
                    "DiscardNonMatching; Rule { Matches { Content(\"|\") }, Action(Boost(0)) }",
                )
                .unwrap(),
            ),
            ..Default::default()
        },
    );
    assert_eq!(res.len(), 1);
}

#[test]
fn indieweb_search() {
    let mut index = fresh();
    let mut p = page(
        "https://example.com/",
        "This is an example indie website",
        "Microformats are amazing This is the content of the article",
    );
    p.microformat_tags = vec![
        "h-entry".to_string(),
        "p-name".to_string(),
        "e-content".to_string(),
        "u-url".to_string(),
        "u-author".to_string(),
        "dt-published".to_string(),
    ];
    index.insert(p).expect("failed to insert webpage");

    index
        .insert(page(
            "https://non-indie-example.com/",
            "This is an example non-indie website",
            "example example example",
        ))
        .expect("failed to insert webpage");
    index.commit();

    let res = run(
        &index,
        SearchQuery {
            query: "example".to_string(),
            ..Default::default()
        },
    );
    assert_eq!(res.len(), 2);

    let res = run(
        &index,
        SearchQuery {
            query: "example".to_string(),
            optic: Some(
                Optic::parse("DiscardNonMatching; Rule { Matches { MicroformatTag(\"|h-*\") } }")
                    .unwrap(),
            ),
            ..Default::default()
        },
    );
    assert_eq!(res.len(), 1);
    assert_eq!(res[0].url, "https://example.com/");
}

#[test]
fn site_double_anchor() {
    let mut index = fresh();
    index
        .insert(page(
            "https://example.com/test",
            "This is an example site",
            "test example",
        ))
        .expect("failed to insert webpage");
    index
        .insert(page(
            "https://another-example.com/",
            "This is another sample website",
            "example example example",
        ))
        .expect("failed to insert webpage");
    index.commit();

    let res = run(
        &index,
        SearchQuery {
            query: "example".to_string(),
            ..Default::default()
        },
    );
    assert_eq!(res.len(), 2);

    let res = run(
        &index,
        SearchQuery {
            query: "example".to_string(),
            optic: Some(
                Optic::parse("DiscardNonMatching; Rule { Matches { Site(\"|example.com|\") } }")
                    .unwrap(),
            ),
            ..Default::default()
        },
    );
    assert_eq!(res.len(), 1);
    assert_eq!(res[0].url, "https://example.com/test");

    let res = run(
        &index,
        SearchQuery {
            query: "example".to_string(),
            optic: Some(
                Optic::parse("Rule { Matches { Site(\"|example.com|\") }, Action(Discard) }").unwrap(),
            ),
            ..Default::default()
        },
    );
    assert_eq!(res.len(), 1);
    assert_eq!(res[0].url, "https://another-example.com/");
}

#[test]
fn apostrophe_token() {
    let mut index = fresh();
    index
        .insert(page("https://example.com/", "Mikkel's collection", "test example"))
        .expect("failed to insert webpage");
    index
        .insert(page(
            "https://another-example.com/",
            "Another's collection",
            "test example",
        ))
        .expect("failed to insert webpage");
    index
        .insert(page("https://a-third-example.com/", "A thirds's site", "test example"))
        .expect("failed to insert webpage");
    index.commit();

    let res = run(
        &index,
        SearchQuery {
            query: "example".to_string(),
            optic: Some(
                Optic::parse("Rule { Matches { Title(\"*'s collection\") }, Action(Discard) }")
                    .unwrap(),
            ),
            ..Default::default()
        },
    );
    assert_eq!(res.len(), 1);
    assert_eq!(res[0].url, "https://a-third-example.com/");
}

#[test]
fn discard_double_matching() {
    let mut index = fresh();
    index
        .insert(page("https://example.com/", "Mikkel's collection", "test example"))
        .expect("failed to insert webpage");
    index
        .insert(page(
            "https://another-example.com/",
            "Another's collection",
            "test example",
        ))
        .expect("failed to insert webpage");
    index
        .insert(page("https://a-third-example.com/", "A thirds's site", "test example"))
        .expect("failed to insert webpage");
    index.commit();

    let res = run(
        &index,
        SearchQuery {
            query: "example".to_string(),
            optic: Some(
                Optic::parse("DiscardNonMatching; Rule { Matches { Title(\"*'s collection\") }, Action(Discard) }; Rule { Matches { Site(\"*.com\") } }")
                    .unwrap(),
            ),
            ..Default::default()
        },
    );
    assert_eq!(res.len(), 1);
    assert_eq!(res[0].url, "https://a-third-example.com/");
}

#[test]
fn optic_empty_discard() {
    let mut index = fresh();
    index
        .insert(page(
            "https://www.a.com/this/is/a/pattern",
            "Website A",
            &format!("{} example example example", CONTENT),
        ))
        .expect("failed to insert webpage");
    index
        .insert(page("https://www.b.com/this/is/b/pattern", "Website B", CONTENT))
        .expect("failed to insert webpage");
    index
        .insert(page("https://www.c.com/this/is/c/pattern", "Website B", CONTENT))
        .expect("failed to insert webpage");
    index.commit();

    let res = run(
        &index,
        SearchQuery {
            query: "website".to_string(),
            optic: Some(
                Optic::parse(
                    r#"
                    DiscardNonMatching;
                    Rule {
                        Matches {
                            Domain("a.com")
                        },
                        Action(Boost(6))
                    };
                    Rule {
                        Matches {
                            Domain("b.com")
                        },
                        Action(Boost(1))
                    };
                "#,
                )
                .unwrap(),
            ),
            ..Default::default()
        },
    );

    assert_eq!(res.len(), 2);
    assert_eq!(res[0].url, "https://www.a.com/this/is/a/pattern");
}

#[test]
fn optic_schema_org_search() {
    let mut index = fresh();
    let mut a = page(
        "https://www.a.com/",
        "Website A",
        &format!("{} example example example", CONTENT),
    );
    a.schema_org_paths = vec!["ImageObject".to_string()];
    index.insert(a).expect("failed to insert webpage");

    let mut b = page("https://www.b.com/", "Website B", CONTENT);
    b.schema_org_paths = vec![
        "BlogPosting".to_string(),
        "BlogPosting.comment".to_string(),
        "UserComments".to_string(),
        "Person".to_string(),
        "Person.name".to_string(),
    ];
    index.insert(b).expect("failed to insert webpage");
    index.commit();

    let res = run(
        &index,
        SearchQuery {
            query: "website".to_string(),
            optic: Some(
                Optic::parse(
                    "DiscardNonMatching; Rule { Matches { Schema(\"BlogPosting\") } }",
                )
                .unwrap(),
            ),
            ..Default::default()
        },
    );
    assert_eq!(res.len(), 1);
    assert_eq!(res[0].url, "https://www.b.com/");

    let res = run(
        &index,
        SearchQuery {
            query: "website".to_string(),
            optic: Some(
                Optic::parse(
                    "DiscardNonMatching; Rule { Matches { Schema(\"ImageObject\") } }",
                )
                .unwrap(),
            ),
            ..Default::default()
        },
    );
    assert_eq!(res.len(), 1);
    assert_eq!(res[0].url, "https://www.a.com/");
}

#[test]
fn optic_pattern_same_phrase() {
    let mut index = fresh();
    index
        .insert(page(
            "https://chat.stackoverflow.com",
            "Website A",
            &format!("{} example example example", CONTENT),
        ))
        .expect("failed to insert webpage");
    index.commit();

    let res = run(
        &index,
        SearchQuery {
            query: "site:stackoverflow.com".to_string(),
            optic: Some(
                Optic::parse(
                    r#"
                    DiscardNonMatching;
                    Rule {
                        Matches {
                            Site("a.com")
                        },
                        Action(Boost(6))
                    };
                    Rule {
                        Matches {
                            Site("stackoverflow.blog")
                        },
                        Action(Boost(1))
                    };
                    Rule {
                        Matches {
                            Site("chat.b.eu")
                        },
                        Action(Boost(1))
                    };
                "#,
                )
                .unwrap(),
            ),
            ..Default::default()
        },
    );

    assert_eq!(res.len(), 0);
}

#[test]
fn optic_discard_all_discard_like() {
    let mut index = fresh();
    index
        .insert(page(
            "https://a.com/page",
            "Website A",
            &format!("{} example example example", CONTENT),
        ))
        .expect("failed to insert webpage");
    index
        .insert(page(
            "https://b.com/page",
            "Website B",
            &format!("{} example example example", CONTENT),
        ))
        .expect("failed to insert webpage");
    index.commit();

    let res = run(
        &index,
        SearchQuery {
            query: "example".to_string(),
            optic: Some(
                Optic::parse(
                    "DiscardNonMatching; Rule { Matches { Site(\"b.com\") } };",
                )
                .unwrap(),
            ),
            host_rankings: Some(HostRankings {
                liked: vec!["a.com".to_string()],
                disliked: vec![],
                blocked: vec![],
            }),
            ..Default::default()
        },
    );

    assert_eq!(res.len(), 1);
    assert_eq!(res[0].url, "https://b.com/page");
}
