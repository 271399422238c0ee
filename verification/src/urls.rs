//! URL handling through the `url` crate: parsing and normalisation of
//! the URLs that documents and lookups carry, reduced to plain string
//! parts the verified logic can work on.

use vstd::prelude::*;

verus! {

/// Whether the `url` crate accepts the string as an absolute URL.
pub uninterp spec fn url_parses(s: Seq<char>) -> bool;

/// The normalised serialisation of a parsed URL (scheme, lowercased
/// host, path with a trailing slash on a bare host, and so on).
pub uninterp spec fn url_normal_of(s: Seq<char>) -> Seq<char>;

/// The host part of a parsed URL, empty where it has none.
pub uninterp spec fn url_host_of(s: Seq<char>) -> Seq<char>;

/// The path part of a parsed URL.
pub uninterp spec fn url_path_of(s: Seq<char>) -> Seq<char>;

/// Whether a parsed URL carries a query string.
pub uninterp spec fn url_has_query(s: Seq<char>) -> bool;

/// The plain parts of a parsed URL.
pub struct UrlParts {
    pub normalized: String,
    pub host: String,
    pub path: String,
    pub has_query: bool,
}

/// Relies on url::Url::parse, and on its as_str, host_str, path and
/// query accessors, which read the parsed value: each part is a
/// function of the input string alone.
#[verifier::external_body]
pub fn parse_url_parts(s: &str) -> (r: Option<UrlParts>)
    ensures
        r is Some <==> url_parses(s@),
        r is Some ==> r->Some_0.normalized@ == url_normal_of(s@),
        r is Some ==> r->Some_0.host@ == url_host_of(s@),
        r is Some ==> r->Some_0.path@ == url_path_of(s@),
        r is Some ==> r->Some_0.has_query == url_has_query(s@),
{
    match url::Url::parse(s) {
        Ok(u) => Some(
            UrlParts {
                normalized: u.as_str().to_string(),
                host: u.host_str().unwrap_or("").to_string(),
                path: u.path().to_string(),
                has_query: u.query().is_some(),
            },
        ),
        Err(_) => None,
    }
}

/// Whether a URL with this path and query is a homepage: the path is
/// the bare slash and no query string follows.
pub fn is_homepage_parts(p: &UrlParts) -> (r: bool)
    ensures
        r == spec_is_homepage(*p),
{
    let slash = String::from_str("/");
    proof {
        reveal_strlit("/");
        assert(slash@ =~= seq!['/']);
    }
    p.path.eq(&slash) && !p.has_query
}

/// A homepage: the path is `/` and there is no query string.
pub open spec fn spec_is_homepage(p: UrlParts) -> bool {
    p.path@ == seq!['/'] && !p.has_query
}

} // verus!
