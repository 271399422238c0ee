//! Built-in default values, grouped by the subsystem that reads them.
//! Ratio-valued defaults, such as the duplicate-suppression penalties,
//! live with their floating-point consumers outside the library.

use vstd::prelude::*;

verus! {

/// Defaults of the top-k collector.
pub struct Collector;

impl Collector {
    /// How many candidate documents a collection considers at most.
    pub fn max_docs_considered() -> (r: usize)
        ensures
            r == 250000,
    {
        250_000
    }
}

/// Defaults of snippet generation.
pub struct Snippet;

impl Snippet {
    /// The wanted snippet length in characters.
    pub fn desired_num_chars() -> (r: usize)
        ensures
            r == 275,
    {
        275
    }

    /// How far the snippet length may stray from the wanted one.
    pub fn delta_num_chars() -> (r: usize)
        ensures
            r == 50,
    {
        50
    }

    /// The narrowest passage a snippet keeps.
    pub fn min_passage_width() -> (r: usize)
        ensures
            r == 20,
    {
        20
    }

    /// How many words an empty query's snippet takes.
    pub fn empty_query_snippet_words() -> (r: usize)
        ensures
            r == 50,
    {
        50
    }

    /// The fewest words a description must have to serve as a snippet.
    pub fn min_description_words() -> (r: usize)
        ensures
            r == 10,
    {
        10
    }

    /// Bodies shorter than this make the snippet read the description.
    pub fn min_body_length() -> (r: usize)
        ensures
            r == 256,
    {
        256
    }

    /// The body threshold for homepages.
    pub fn min_body_length_homepage() -> (r: usize)
        ensures
            r == 1024,
    {
        1024
    }
}

/// Defaults of the crawler's politeness machinery.
pub struct Crawler;

impl Crawler {
    /// How long a robots ruling stays cached, in seconds.
    pub fn robots_txt_cache_sec() -> (r: u64)
        ensures
            r == 3600,
    {
        60 * 60
    }

    /// The shortest pause between fetches of one host, in
    /// milliseconds.
    pub fn min_crawl_delay_ms() -> (r: u64)
        ensures
            r == 5000,
    {
        5_000
    }

    /// The longest pause between fetches of one host, in milliseconds.
    pub fn max_crawl_delay_ms() -> (r: u64)
        ensures
            r == 60000,
    {
        60_000
    }

    /// How often a slowed-down URL is retried.
    pub fn max_url_slowdown_retry() -> (r: u8)
        ensures
            r == 3,
    {
        3
    }

    /// How many redirects a fetch follows.
    pub fn max_redirects() -> (r: usize)
        ensures
            r == 5,
    {
        5
    }

    /// Whether the crawler only pretends to fetch.
    pub fn dry_run() -> (r: bool)
        ensures
            !r,
    {
        false
    }
}

/// Defaults of the host-graph server.
pub struct WebgraphServer;

impl WebgraphServer {
    /// How many similar hosts a lookup yields at most.
    pub fn max_similar_hosts() -> (r: usize)
        ensures
            r == 1000,
    {
        1_000
    }
}

/// Defaults of the search request.
pub struct SearchQuery;

impl SearchQuery {
    /// Whether the response comes flattened.
    pub fn flatten_response() -> (r: bool)
        ensures
            r,
    {
        true
    }

    /// Whether per-signal scores come back with each result.
    pub fn return_ranking_signals() -> (r: bool)
        ensures
            !r,
    {
        false
    }

    /// Whether safe search is on.
    pub fn safe_search() -> (r: bool)
        ensures
            !r,
    {
        false
    }

    /// Whether the exact match count is wanted.
    pub fn count_results() -> (r: bool)
        ensures
            !r,
    {
        false
    }
}

/// Defaults of the widget handlers.
pub struct Widgets;

impl Widgets {
    /// Whether the calculator fetches currency exchange rates.
    pub fn calculator_fetch_currencies_exchange() -> (r: bool)
        ensures
            r,
    {
        true
    }
}

} // verus!
