//! The fixed field schema of a web document: text fields with their
//! analysis chains, fast fields read during scoring, and the indexed
//! document itself with its mathematical view.

use vstd::prelude::*;

use crate::pattern::ChainKind;
use crate::tokenize::toks_view;

verus! {

/// The text fields of the schema.
#[derive(Clone, Copy, PartialEq, Eq, Structural, Debug)]
pub enum TextField {
    Title,
    CleanBody,
    StemmedCleanBody,
    AllBody,
    Url,
    UrlNoTokenizer,
    UrlForSiteOperator,
    Site,
    SiteIfHomepageNoTokenizer,
    Domain,
    Description,
    DmozDescription,
    MicroformatTags,
    FlattenedSchemaOrgJson,
    SchemaOrgJson,
    Keywords,
    RecipeFirstIngredientTagId,
    SafetyClassification,
    InsertionTimestamp,
}

/// The fast fields of the schema, stored column-wise for lookup during
/// scoring.
#[derive(Clone, Copy, PartialEq, Eq, Structural, Debug)]
pub enum FastField {
    PreComputedScore,
    HostCentrality,
    PageCentrality,
    FetchTimeMs,
    Region,
    LastUpdated,
    HostNodeID,
    LikelyHasAds,
    LikelyHasPaywall,
}

/// The safety classification a document carries.
#[derive(Clone, Copy, PartialEq, Eq, Structural, Debug)]
pub enum Label {
    Sfw,
    Nsfw,
}

impl TextField {
    /// The analysis chain that reduces a pattern aimed at this field.
    pub fn chain(&self) -> (r: ChainKind)
        ensures
            r == spec_field_chain(*self),
    {
        match self {
            TextField::UrlForSiteOperator => ChainKind::SiteUrl,
            TextField::Site => ChainKind::SiteUrl,
            TextField::FlattenedSchemaOrgJson => ChainKind::JsonPath,
            _ => ChainKind::Word,
        }
    }
}

/// The analysis chain of each text field.
pub open spec fn spec_field_chain(f: TextField) -> ChainKind {
    match f {
        TextField::UrlForSiteOperator => ChainKind::SiteUrl,
        TextField::Site => ChainKind::SiteUrl,
        TextField::FlattenedSchemaOrgJson => ChainKind::JsonPath,
        _ => ChainKind::Word,
    }
}

/// An indexed document: per-field token lists for matching, stored
/// values for retrieval, and fast fields for scoring.
pub struct Document {
    pub title_tokens: Vec<Vec<u8>>,
    pub body_tokens: Vec<Vec<u8>>,
    pub stemmed_body_tokens: Vec<Vec<u8>>,
    pub all_body_tokens: Vec<Vec<u8>>,
    pub url_tokens: Vec<Vec<u8>>,
    pub site_url_tokens: Vec<Vec<u8>>,
    pub site_tokens: Vec<Vec<u8>>,
    pub domain_tokens: Vec<Vec<u8>>,
    pub description_tokens: Vec<Vec<u8>>,
    pub dmoz_description_tokens: Vec<Vec<u8>>,
    pub microformat_tokens: Vec<Vec<u8>>,
    pub schema_tokens: Vec<Vec<u8>>,
    pub url_exact: String,
    pub site_if_homepage: String,
    pub title: String,
    pub clean_body: String,
    pub all_body: String,
    pub description: String,
    pub dmoz_description: String,
    pub schema_org_json: String,
    pub keywords: String,
    pub recipe_first_ingredient_tag_id: String,
    pub safety_classification: Option<Label>,
    pub insertion_timestamp: u64,
    pub pre_computed_score: u64,
    pub host_centrality: u64,
    pub page_centrality: u64,
    pub fetch_time_ms: u64,
    pub region: u64,
    pub last_updated: u64,
    pub host_node_id: u64,
    pub likely_has_ads: bool,
    pub likely_has_paywall: bool,
}

/// The mathematical view of an indexed document.
pub struct DocModel {
    pub title_tokens: Seq<Seq<u8>>,
    pub body_tokens: Seq<Seq<u8>>,
    pub stemmed_body_tokens: Seq<Seq<u8>>,
    pub all_body_tokens: Seq<Seq<u8>>,
    pub url_tokens: Seq<Seq<u8>>,
    pub site_url_tokens: Seq<Seq<u8>>,
    pub site_tokens: Seq<Seq<u8>>,
    pub domain_tokens: Seq<Seq<u8>>,
    pub description_tokens: Seq<Seq<u8>>,
    pub dmoz_description_tokens: Seq<Seq<u8>>,
    pub microformat_tokens: Seq<Seq<u8>>,
    pub schema_tokens: Seq<Seq<u8>>,
    pub url_exact: Seq<char>,
    pub site_if_homepage: Seq<char>,
    pub title: Seq<char>,
    pub clean_body: Seq<char>,
    pub all_body: Seq<char>,
    pub description: Seq<char>,
    pub dmoz_description: Seq<char>,
    pub schema_org_json: Seq<char>,
    pub keywords: Seq<char>,
    pub recipe_first_ingredient_tag_id: Seq<char>,
    pub safety_classification: Option<Label>,
    pub insertion_timestamp: u64,
    pub pre_computed_score: u64,
    pub host_centrality: u64,
    pub page_centrality: u64,
    pub fetch_time_ms: u64,
    pub region: u64,
    pub last_updated: u64,
    pub host_node_id: u64,
    pub likely_has_ads: bool,
    pub likely_has_paywall: bool,
}

impl View for Document {
    type V = DocModel;

    open spec fn view(&self) -> DocModel {
        DocModel {
            title_tokens: toks_view(self.title_tokens),
            body_tokens: toks_view(self.body_tokens),
            stemmed_body_tokens: toks_view(self.stemmed_body_tokens),
            all_body_tokens: toks_view(self.all_body_tokens),
            url_tokens: toks_view(self.url_tokens),
            site_url_tokens: toks_view(self.site_url_tokens),
            site_tokens: toks_view(self.site_tokens),
            domain_tokens: toks_view(self.domain_tokens),
            description_tokens: toks_view(self.description_tokens),
            dmoz_description_tokens: toks_view(self.dmoz_description_tokens),
            microformat_tokens: toks_view(self.microformat_tokens),
            schema_tokens: toks_view(self.schema_tokens),
            url_exact: self.url_exact@,
            site_if_homepage: self.site_if_homepage@,
            title: self.title@,
            clean_body: self.clean_body@,
            all_body: self.all_body@,
            description: self.description@,
            dmoz_description: self.dmoz_description@,
            schema_org_json: self.schema_org_json@,
            keywords: self.keywords@,
            recipe_first_ingredient_tag_id: self.recipe_first_ingredient_tag_id@,
            safety_classification: self.safety_classification,
            insertion_timestamp: self.insertion_timestamp,
            pre_computed_score: self.pre_computed_score,
            host_centrality: self.host_centrality,
            page_centrality: self.page_centrality,
            fetch_time_ms: self.fetch_time_ms,
            region: self.region,
            last_updated: self.last_updated,
            host_node_id: self.host_node_id,
            likely_has_ads: self.likely_has_ads,
            likely_has_paywall: self.likely_has_paywall,
        }
    }
}

/// The token list a matching field reads.
pub open spec fn spec_field_tokens(d: DocModel, f: TextField) -> Seq<Seq<u8>> {
    match f {
        TextField::Title => d.title_tokens,
        TextField::CleanBody => d.body_tokens,
        TextField::StemmedCleanBody => d.stemmed_body_tokens,
        TextField::AllBody => d.all_body_tokens,
        TextField::Url => d.url_tokens,
        TextField::UrlForSiteOperator => d.site_url_tokens,
        TextField::Site => d.site_tokens,
        TextField::Domain => d.domain_tokens,
        TextField::Description => d.description_tokens,
        TextField::DmozDescription => d.dmoz_description_tokens,
        TextField::MicroformatTags => d.microformat_tokens,
        TextField::FlattenedSchemaOrgJson => d.schema_tokens,
        _ => Seq::empty(),
    }
}

/// Whether pattern and term operators can aim at this field.
pub open spec fn spec_is_match_field(f: TextField) -> bool {
    match f {
        TextField::UrlNoTokenizer => false,
        TextField::SiteIfHomepageNoTokenizer => false,
        TextField::SchemaOrgJson => false,
        TextField::Keywords => false,
        TextField::RecipeFirstIngredientTagId => false,
        TextField::SafetyClassification => false,
        TextField::InsertionTimestamp => false,
        _ => true,
    }
}

impl Document {
    /// The token list of a matching field.
    pub fn field_tokens(&self, f: TextField) -> (r: &Vec<Vec<u8>>)
        requires
            spec_is_match_field(f),
        ensures
            toks_view(*r) == spec_field_tokens(self@, f),
    {
        match f {
            TextField::Title => &self.title_tokens,
            TextField::CleanBody => &self.body_tokens,
            TextField::StemmedCleanBody => &self.stemmed_body_tokens,
            TextField::AllBody => &self.all_body_tokens,
            TextField::Url => &self.url_tokens,
            TextField::UrlForSiteOperator => &self.site_url_tokens,
            TextField::Site => &self.site_tokens,
            TextField::Domain => &self.domain_tokens,
            TextField::Description => &self.description_tokens,
            TextField::DmozDescription => &self.dmoz_description_tokens,
            TextField::MicroformatTags => &self.microformat_tokens,
            TextField::FlattenedSchemaOrgJson => &self.schema_tokens,
            _ => &self.title_tokens,
        }
    }
}

} // verus!
