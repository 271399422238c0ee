//! The webpage input record and its conversion into an indexed
//! document: each text field runs through its analysis chain, the URL
//! is parsed and normalised, and the body is stemmed for the stemmed
//! field.

use vstd::prelude::*;
use vstd::utf8::encode_utf8;

use crate::schema::{Document, Label};
use crate::stem::{is_english, stem_of, stem_word};
use crate::tokenize::{
    json_tokens_of, site_tokens_of, spec_json_tokens, spec_site_tokens, spec_tokens, tokens_of,
    toks_view,
};
use crate::urls::{
    is_homepage_parts, parse_url_parts, url_host_of, url_normal_of, url_parses, url_path_of,
};

verus! {

/// A webpage as the indexer receives it: plain field values, already
/// enriched upstream.
pub struct Webpage {
    pub url: String,
    pub title: String,
    pub clean_body: String,
    pub all_body: String,
    pub description: Option<String>,
    pub dmoz_description: Option<String>,
    pub microformat_tags: Vec<String>,
    pub schema_org_paths: Vec<String>,
    pub schema_org_json: String,
    pub keywords: Vec<String>,
    pub recipe_first_ingredient_tag_id: Option<String>,
    pub safety_classification: Option<Label>,
    pub inserted_at: u64,
    pub last_updated: u64,
    pub region: u64,
    pub host_centrality: u64,
    pub page_centrality: u64,
    pub fetch_time_ms: u64,
    pub pre_computed_score: u64,
    pub node_id: Option<u64>,
    pub likely_has_ads: bool,
    pub likely_has_paywall: bool,
}

/// The bytes of a string value.
pub open spec fn str_bytes(s: Seq<char>) -> Seq<u8> {
    encode_utf8(s)
}

/// The bytes of an optional string value, empty where it is absent.
pub open spec fn opt_bytes(s: Option<String>) -> Seq<u8> {
    match s {
        Some(v) => encode_utf8(v@),
        None => Seq::empty(),
    }
}

/// The concatenated word tokens of a list of tag strings.
pub open spec fn spec_tags_tokens(tags: Seq<String>) -> Seq<Seq<u8>>
    decreases tags.len(),
{
    if tags.len() == 0 {
        Seq::empty()
    } else {
        spec_tags_tokens(tags.drop_last()) + spec_tokens(encode_utf8(tags.last()@))
    }
}

/// The concatenated path tokens of a list of schema.org paths.
pub open spec fn spec_paths_tokens(paths: Seq<String>) -> Seq<Seq<u8>>
    decreases paths.len(),
{
    if paths.len() == 0 {
        Seq::empty()
    } else {
        spec_paths_tokens(paths.drop_last()) + spec_json_tokens(encode_utf8(paths.last()@))
    }
}

/// The stems of a token list, position by position.
pub open spec fn spec_stemmed(ts: Seq<Seq<u8>>) -> Seq<Seq<u8>> {
    ts.map_values(|t: Seq<u8>| stem_of(t))
}

/// The domain tokens of a host: its last two labels.
pub open spec fn spec_domain_tokens(site: Seq<Seq<u8>>) -> Seq<Seq<u8>> {
    if site.len() <= 2 {
        site
    } else {
        site.skip(site.len() - 2)
    }
}

/// The site-operator token sequence of a URL: host labels, then path
/// segments.
pub open spec fn spec_site_url_tokens(s: Seq<char>) -> Seq<Seq<u8>> {
    spec_site_tokens(str_bytes(url_host_of(s))) + spec_site_tokens(str_bytes(url_path_of(s)))
}

/// What the indexed document of a webpage holds, field by field.
pub open spec fn spec_indexed(w: Webpage, d: Document) -> bool {
    let host = url_host_of(w.url@);
    let site = spec_site_tokens(str_bytes(host));
    &&& toks_view(d.title_tokens) == spec_tokens(str_bytes(w.title@))
    &&& toks_view(d.body_tokens) == spec_tokens(str_bytes(w.clean_body@))
    &&& toks_view(d.stemmed_body_tokens) == spec_stemmed(
        spec_tokens(str_bytes(w.title@)) + spec_tokens(str_bytes(w.clean_body@)),
    )
    &&& toks_view(d.all_body_tokens) == spec_tokens(str_bytes(w.all_body@))
    &&& d.url_exact@ == url_normal_of(w.url@)
    &&& toks_view(d.url_tokens) == spec_tokens(str_bytes(url_normal_of(w.url@)))
    &&& toks_view(d.site_tokens) == site
    &&& toks_view(d.site_url_tokens) == spec_site_url_tokens(w.url@)
    &&& toks_view(d.domain_tokens) == spec_domain_tokens(site)
    &&& toks_view(d.description_tokens) == spec_tokens(opt_bytes(w.description))
    &&& toks_view(d.dmoz_description_tokens) == spec_tokens(opt_bytes(w.dmoz_description))
    &&& toks_view(d.microformat_tokens) == spec_tags_tokens(w.microformat_tags@)
    &&& toks_view(d.schema_tokens) == spec_paths_tokens(w.schema_org_paths@)
    &&& d.title@ == w.title@
    &&& d.clean_body@ == w.clean_body@
    &&& d.all_body@ == w.all_body@
    &&& d.description@ == (match w.description {
        Some(v) => v@,
        None => Seq::<char>::empty(),
    })
    &&& d.dmoz_description@ == (match w.dmoz_description {
        Some(v) => v@,
        None => Seq::<char>::empty(),
    })
    &&& d.schema_org_json@ == w.schema_org_json@
    &&& d.keywords@ == spec_joined_lines(w.keywords@)
    &&& d.recipe_first_ingredient_tag_id@ == (match w.recipe_first_ingredient_tag_id {
        Some(v) => v@,
        None => Seq::<char>::empty(),
    })
    &&& d.site_if_homepage@ == (if spec_url_homepage(w.url@) {
        host
    } else {
        Seq::<char>::empty()
    })
    &&& d.safety_classification == w.safety_classification
    &&& d.insertion_timestamp == w.inserted_at
    &&& d.pre_computed_score == w.pre_computed_score
    &&& d.host_centrality == w.host_centrality
    &&& d.page_centrality == w.page_centrality
    &&& d.fetch_time_ms == w.fetch_time_ms
    &&& d.region == w.region
    &&& d.last_updated == w.last_updated
    &&& d.host_node_id == (match w.node_id {
        Some(n) => n,
        None => u64::MAX,
    })
    &&& d.likely_has_ads == w.likely_has_ads
    &&& d.likely_has_paywall == w.likely_has_paywall
}

/// Whether the URL names a homepage: path `/` and no query.
pub open spec fn spec_url_homepage(s: Seq<char>) -> bool {
    url_path_of(s) == seq!['/'] && !crate::urls::url_has_query(s)
}

/// Concatenates the word tokens of every tag.
fn tags_tokens(tags: &Vec<String>) -> (r: Vec<Vec<u8>>)
    ensures
        toks_view(r) == spec_tags_tokens(tags@),
{
    let mut out: Vec<Vec<u8>> = Vec::new();
    let mut i: usize = 0;
    while i < tags.len()
        invariant
            i <= tags@.len(),
            toks_view(out) == spec_tags_tokens(tags@.take(i as int)),
        decreases tags@.len() - i,
    {
        proof {
            assert(tags@.take(i + 1).drop_last() =~= tags@.take(i as int));
            assert(tags@.take(i + 1).last() == tags@[i as int]);
        }
        let mut toks = tokens_of(tags[i].as_str().as_bytes());
        out.append(&mut toks);
        proof {
            assert(toks_view(out) =~= spec_tags_tokens(tags@.take(i + 1)));
        }
        i = i + 1;
    }
    proof {
        assert(tags@.take(tags@.len() as int) =~= tags@);
    }
    out
}

/// Concatenates the path tokens of every schema.org path.
fn paths_tokens(paths: &Vec<String>) -> (r: Vec<Vec<u8>>)
    ensures
        toks_view(r) == spec_paths_tokens(paths@),
{
    let mut out: Vec<Vec<u8>> = Vec::new();
    let mut i: usize = 0;
    while i < paths.len()
        invariant
            i <= paths@.len(),
            toks_view(out) == spec_paths_tokens(paths@.take(i as int)),
        decreases paths@.len() - i,
    {
        proof {
            assert(paths@.take(i + 1).drop_last() =~= paths@.take(i as int));
            assert(paths@.take(i + 1).last() == paths@[i as int]);
        }
        let mut toks = json_tokens_of(paths[i].as_str().as_bytes());
        out.append(&mut toks);
        proof {
            assert(toks_view(out) =~= spec_paths_tokens(paths@.take(i + 1)));
        }
        i = i + 1;
    }
    proof {
        assert(paths@.take(paths@.len() as int) =~= paths@);
    }
    out
}

/// Stems every token of a list.
fn stem_all(st: &rust_stemmers::Stemmer, ts: &Vec<Vec<u8>>) -> (r: Vec<Vec<u8>>)
    requires
        is_english(*st),
    ensures
        toks_view(r) == spec_stemmed(toks_view(*ts)),
{
    let mut out: Vec<Vec<u8>> = Vec::new();
    let mut i: usize = 0;
    while i < ts.len()
        invariant
            is_english(*st),
            i <= ts@.len(),
            out@.len() == i,
            forall|k: int| 0 <= k < i ==> (#[trigger] out@[k])@ == stem_of(ts@[k]@),
        decreases ts@.len() - i,
    {
        let s = stem_word(st, &ts[i]);
        out.push(s);
        i = i + 1;
    }
    proof {
        assert forall|k: int| 0 <= k < ts@.len() implies toks_view(out)[k] == spec_stemmed(
            toks_view(*ts),
        )[k] by {
            assert(toks_view(out)[k] == out@[k]@);
            assert(toks_view(*ts)[k] == ts@[k]@);
            assert(spec_stemmed(toks_view(*ts))[k] == stem_of(toks_view(*ts)[k]));
        }
        assert(toks_view(out) =~= spec_stemmed(toks_view(*ts)));
    }
    out
}

/// The last two site tokens: the registrable domain of common hosts.
fn domain_tokens_of(site: &Vec<Vec<u8>>) -> (r: Vec<Vec<u8>>)
    ensures
        toks_view(r) == spec_domain_tokens(toks_view(*site)),
{
    let mut out: Vec<Vec<u8>> = Vec::new();
    let start: usize = if site.len() <= 2 {
        0
    } else {
        site.len() - 2
    };
    let mut i: usize = start;
    while i < site.len()
        invariant
            start <= i <= site@.len(),
            out@.len() == i - start,
            forall|k: int| 0 <= k < out@.len() ==> (#[trigger] out@[k])@ == site@[start + k]@,
        decreases site@.len() - i,
    {
        let mut t: Vec<u8> = Vec::new();
        let src = &site[i];
        let mut j: usize = 0;
        while j < src.len()
            invariant
                j <= src@.len(),
                i < site@.len(),
                src@ == site@[i as int]@,
                t@ =~= src@.take(j as int),
            decreases src@.len() - j,
        {
            t.push(src[j]);
            proof {
                assert(t@ =~= src@.take(j + 1));
            }
            j = j + 1;
        }
        proof {
            assert(t@ =~= src@);
        }
        out.push(t);
        i = i + 1;
    }
    proof {
        assert forall|k: int| 0 <= k < out@.len() implies toks_view(out)[k] == spec_domain_tokens(
            toks_view(*site),
        )[k] by {
            assert(toks_view(out)[k] == out@[k]@);
            assert(toks_view(*site)[start + k] == site@[start + k]@);
        }
        assert(toks_view(out) =~= spec_domain_tokens(toks_view(*site)));
    }
    out
}

/// Takes an optional string, giving the empty string where it is
/// absent.
fn opt_string(s: Option<String>) -> (r: String)
    ensures
        r@ == (match s {
            Some(v) => v@,
            None => Seq::<char>::empty(),
        }),
{
    match s {
        Some(v) => v,
        None => String::new(),
    }
}

impl Webpage {
    /// Converts the webpage into an indexed document. Fails exactly
    /// when the URL does not parse.
    pub fn into_document(self, st: &rust_stemmers::Stemmer) -> (r: Result<Document, ()>)
        requires
            is_english(*st),
        ensures
            r is Ok <==> url_parses(self.url@),
            r is Ok ==> spec_indexed(self, r->Ok_0),
    {
        let parts = match parse_url_parts(self.url.as_str()) {
            Some(p) => p,
            None => {
                return Err(());
            },
        };
        let title_tokens = tokens_of(self.title.as_str().as_bytes());
        let body_tokens = tokens_of(self.clean_body.as_str().as_bytes());
        let mut stem_src = tokens_of(self.title.as_str().as_bytes());
        let mut body_for_stem = tokens_of(self.clean_body.as_str().as_bytes());
        let ghost g_t = toks_view(stem_src);
        let ghost g_b = toks_view(body_for_stem);
        let ghost v_t = stem_src@;
        stem_src.append(&mut body_for_stem);
        proof {
            assert forall|k: int| 0 <= k < stem_src@.len() implies toks_view(stem_src)[k] == (g_t
                + g_b)[k] by {
                assert(toks_view(stem_src)[k] == stem_src@[k]@);
                if k < v_t.len() {
                    assert(stem_src@[k] == v_t[k]);
                    assert(g_t[k] == v_t[k]@);
                } else {
                    assert(g_b[k - v_t.len()] == stem_src@[k]@);
                }
            }
            assert(toks_view(stem_src) =~= g_t + g_b);
        }
        let stemmed_body_tokens = stem_all(st, &stem_src);
        let all_body_tokens = tokens_of(self.all_body.as_str().as_bytes());
        let url_tokens = tokens_of(parts.normalized.as_str().as_bytes());
        let site_tokens = site_tokens_of(parts.host.as_str().as_bytes());
        let mut site_url_tokens = site_tokens_of(parts.host.as_str().as_bytes());
        let mut path_tokens = site_tokens_of(parts.path.as_str().as_bytes());
        let ghost va = site_url_tokens@;
        let ghost ga = toks_view(site_url_tokens);
        let ghost gb = toks_view(path_tokens);
        site_url_tokens.append(&mut path_tokens);
        proof {
            assert forall|k: int| 0 <= k < site_url_tokens@.len() implies toks_view(
                site_url_tokens,
            )[k] == (ga + gb)[k] by {
                assert(toks_view(site_url_tokens)[k] == site_url_tokens@[k]@);
                if k < va.len() {
                    assert(site_url_tokens@[k] == va[k]);
                    assert(ga[k] == va[k]@);
                } else {
                    assert(gb[k - va.len()] == site_url_tokens@[k]@);
                }
            }
            assert(toks_view(site_url_tokens) =~= ga + gb);
            assert(toks_view(site_url_tokens) =~= spec_site_url_tokens(self.url@));
        }
        let domain_tokens = domain_tokens_of(&site_tokens);
        let description = opt_string(self.description);
        let dmoz_description = opt_string(self.dmoz_description);
        let description_tokens = tokens_of(description.as_str().as_bytes());
        let dmoz_description_tokens = tokens_of(dmoz_description.as_str().as_bytes());
        let microformat_tokens = tags_tokens(&self.microformat_tags);
        let schema_tokens = paths_tokens(&self.schema_org_paths);
        let homepage = is_homepage_parts(&parts);
        let site_if_homepage = if homepage {
            parts.host
        } else {
            String::new()
        };
        let keywords = join_lines(&self.keywords);
        Ok(
            Document {
                title_tokens,
                body_tokens,
                stemmed_body_tokens,
                all_body_tokens,
                url_tokens,
                site_url_tokens,
                site_tokens,
                domain_tokens,
                description_tokens,
                dmoz_description_tokens,
                microformat_tokens,
                schema_tokens,
                url_exact: parts.normalized,
                site_if_homepage,
                title: self.title,
                clean_body: self.clean_body,
                all_body: self.all_body,
                description,
                dmoz_description,
                schema_org_json: self.schema_org_json,
                keywords,
                recipe_first_ingredient_tag_id: opt_string(self.recipe_first_ingredient_tag_id),
                safety_classification: self.safety_classification,
                insertion_timestamp: self.inserted_at,
                pre_computed_score: self.pre_computed_score,
                host_centrality: self.host_centrality,
                page_centrality: self.page_centrality,
                fetch_time_ms: self.fetch_time_ms,
                region: self.region,
                last_updated: self.last_updated,
                host_node_id: match self.node_id {
                    Some(n) => n,
                    None => u64::MAX,
                },
                likely_has_ads: self.likely_has_ads,
                likely_has_paywall: self.likely_has_paywall,
            },
        )
    }
}

/// The keyword lines joined with a newline between them.
pub open spec fn spec_joined_lines(ks: Seq<String>) -> Seq<char>
    decreases ks.len(),
{
    if ks.len() == 0 {
        Seq::empty()
    } else if ks.len() == 1 {
        ks[0]@
    } else {
        spec_joined_lines(ks.drop_last()) + seq!['\n'] + ks.last()@
    }
}

/// Joins the keywords with newlines, as the stored field holds them.
fn join_lines(ks: &Vec<String>) -> (r: String)
    ensures
        r@ == spec_joined_lines(ks@),
{
    let mut out = String::new();
    let mut i: usize = 0;
    while i < ks.len()
        invariant
            i <= ks@.len(),
            out@ == spec_joined_lines(ks@.take(i as int)),
        decreases ks@.len() - i,
    {
        proof {
            assert(ks@.take(i + 1).drop_last() =~= ks@.take(i as int));
            assert(ks@.take(i + 1).last() == ks@[i as int]);
        }
        if i > 0 {
            out.append("\n");
            proof {
                reveal_strlit("\n");
            }
        }
        out.append(ks[i].as_str());
        proof {
            assert(out@ =~= spec_joined_lines(ks@.take(i + 1)));
        }
        i = i + 1;
    }
    proof {
        assert(ks@.take(ks@.len() as int) =~= ks@);
    }
    out
}

} // verus!
