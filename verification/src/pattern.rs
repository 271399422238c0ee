//! Optic string patterns: `|` anchors the start or end of a field
//! value, `*` matches a run of zero or more tokens, and plain tokens
//! match consecutively. A pattern is reduced against a field's analysis
//! chain before matching; one that keeps no token and no wildcard
//! reduces to nothing and the matcher that carries it is pruned.

use vstd::prelude::*;

use crate::tokenize::{bytes_eq, json_tokens_of, site_tokens_of, spec_json_tokens, spec_site_tokens, spec_tokens, tokens_of, toks_view};

verus! {

/// One element of a reduced pattern: a literal token or a wildcard gap.
pub enum PatternItem {
    Raw(Vec<u8>),
    Wild,
}

/// The mathematical form of a pattern element.
pub enum ItemModel {
    Tok(Seq<u8>),
    Wild,
}

/// View of a reduced item list.
pub open spec fn items_model(items: Seq<PatternItem>) -> Seq<ItemModel> {
    items.map_values(
        |it: PatternItem|
            match it {
                PatternItem::Raw(t) => ItemModel::Tok(t@),
                PatternItem::Wild => ItemModel::Wild,
            },
    )
}

/// A reduced pattern: whether each side is anchored, and the tokens and
/// wildcards in between.
pub struct Pattern {
    pub start_anchor: bool,
    pub end_anchor: bool,
    pub items: Vec<PatternItem>,
}

/// Whether `items[ii..]` matches the token run `ts[ti..]`. With
/// `end_open` the run may stop before the end of `ts`; otherwise it
/// must reach it exactly.
pub open spec fn match_core(
    items: Seq<ItemModel>,
    end_open: bool,
    ts: Seq<Seq<u8>>,
    ii: int,
    ti: int,
) -> bool
    decreases items.len() - ii, ts.len() - ti,
    when 0 <= ii <= items.len() && 0 <= ti <= ts.len()
{
    if ii == items.len() {
        end_open || ti == ts.len()
    } else {
        match items[ii] {
            ItemModel::Tok(t) => ti < ts.len() && ts[ti] == t && match_core(
                items,
                end_open,
                ts,
                ii + 1,
                ti + 1,
            ),
            ItemModel::Wild => match_core(items, end_open, ts, ii + 1, ti) || (ti < ts.len()
                && match_core(items, end_open, ts, ii, ti + 1)),
        }
    }
}

/// Whether the items match `ts` starting at `j`, reaching the end of
/// `ts` unless the end is unanchored.
pub open spec fn items_match_from(
    items: Seq<ItemModel>,
    end_anchor: bool,
    ts: Seq<Seq<u8>>,
    j: int,
) -> bool {
    match_core(items, !end_anchor, ts, 0, j)
}

/// Whether a reduced pattern, given as its anchors and items, matches a
/// field's full token sequence: an anchored side must meet the boundary
/// of the value, an unanchored one admits any run of tokens before or
/// after.
pub open spec fn spec_items_matches(
    start_anchor: bool,
    end_anchor: bool,
    items: Seq<ItemModel>,
    ts: Seq<Seq<u8>>,
) -> bool {
    if start_anchor {
        items_match_from(items, end_anchor, ts, 0)
    } else {
        exists|j: int| 0 <= j <= ts.len() && #[trigger] items_match_from(items, end_anchor, ts, j)
    }
}

/// Whether a reduced pattern matches a field's full token sequence.
pub open spec fn spec_pattern_matches(p: Pattern, ts: Seq<Seq<u8>>) -> bool {
    spec_items_matches(p.start_anchor, p.end_anchor, items_model(p.items@), ts)
}

/// A pattern that keeps no token and no wildcard: it reduces to
/// nothing, and the matcher that carries it is pruned.
pub open spec fn spec_pattern_is_empty(p: Pattern) -> bool {
    p.items@.len() == 0
}

impl Pattern {
    /// Whether this pattern reduces to nothing.
    pub fn is_empty(&self) -> (r: bool)
        ensures
            r == spec_pattern_is_empty(*self),
    {
        self.items.len() == 0
    }
}

/// Recursive matcher for `items[ii..]` against `ts[ti..]`.
fn match_core_exec(
    items: &Vec<PatternItem>,
    end_open: bool,
    ts: &Vec<Vec<u8>>,
    ii: usize,
    ti: usize,
) -> (r: bool)
    requires
        ii <= items@.len(),
        ti <= ts@.len(),
    ensures
        r == match_core(items_model(items@), end_open, toks_view(*ts), ii as int, ti as int),
    decreases items@.len() - ii, ts@.len() - ti,
{
    if ii == items.len() {
        end_open || ti == ts.len()
    } else {
        match &items[ii] {
            PatternItem::Raw(t) => {
                if ti < ts.len() && bytes_eq(t.as_slice(), ts[ti].as_slice()) {
                    match_core_exec(items, end_open, ts, ii + 1, ti + 1)
                } else {
                    false
                }
            },
            PatternItem::Wild => {
                if match_core_exec(items, end_open, ts, ii + 1, ti) {
                    true
                } else if ti < ts.len() {
                    match_core_exec(items, end_open, ts, ii, ti + 1)
                } else {
                    false
                }
            },
        }
    }
}

/// Whether `p` matches the token sequence `ts`.
pub fn pattern_matches(p: &Pattern, ts: &Vec<Vec<u8>>) -> (r: bool)
    ensures
        r == spec_pattern_matches(*p, toks_view(*ts)),
{
    if p.start_anchor {
        match_core_exec(&p.items, !p.end_anchor, ts, 0, 0)
    } else {
        let mut j: usize = 0;
        loop
            invariant
                !p.start_anchor,
                j <= ts@.len(),
                forall|k: int|
                    0 <= k < j ==> !#[trigger] items_match_from(
                        items_model(p.items@),
                        p.end_anchor,
                        toks_view(*ts),
                        k,
                    ),
            decreases ts@.len() - j + 1,
        {
            if match_core_exec(&p.items, !p.end_anchor, ts, 0, j) {
                proof {
                    assert(items_match_from(
                        items_model(p.items@),
                        p.end_anchor,
                        toks_view(*ts),
                        j as int,
                    ));
                }
                return true;
            }
            if j == ts.len() {
                proof {
                    assert(forall|k: int|
                        0 <= k <= toks_view(*ts).len() ==> !#[trigger] items_match_from(
                            items_model(p.items@),
                            p.end_anchor,
                            toks_view(*ts),
                            k,
                        ));
                }
                return false;
            }
            j = j + 1;
        }
    }
}

/// The analysis chain a pattern is reduced against: most fields use
/// the default word chain, the site-operator fields split at URL
/// boundaries, and the schema.org field keeps each path whole.
#[derive(Clone, Copy, PartialEq, Eq, Structural)]
pub enum ChainKind {
    Word,
    SiteUrl,
    JsonPath,
}

/// The tokens a chain makes of a run of raw pattern text.
pub open spec fn chain_tokens(s: Seq<u8>, chain: ChainKind) -> Seq<Seq<u8>> {
    match chain {
        ChainKind::Word => spec_tokens(s),
        ChainKind::SiteUrl => spec_site_tokens(s),
        ChainKind::JsonPath => spec_json_tokens(s),
    }
}

/// Token sequences lifted to pattern items.
pub open spec fn toks_items(ts: Seq<Seq<u8>>) -> Seq<ItemModel> {
    ts.map_values(|t: Seq<u8>| ItemModel::Tok(t))
}

/// Left fold of the pattern reducer: items already finished, and the
/// run of raw text still open. `|` flushes the open run; `*` flushes it
/// and adds a wildcard; every other byte extends it.
pub open spec fn pat_fold(s: Seq<u8>, site: ChainKind) -> (Seq<ItemModel>, Seq<u8>)
    decreases s.len(),
{
    if s.len() == 0 {
        (Seq::empty(), Seq::empty())
    } else {
        let r = pat_fold(s.drop_last(), site);
        let b = s.last();
        if b == 0x7c {
            (r.0 + toks_items(chain_tokens(r.1, site)), Seq::empty())
        } else if b == 0x2a {
            (r.0 + toks_items(chain_tokens(r.1, site)) + seq![ItemModel::Wild], Seq::empty())
        } else {
            (r.0, r.1.push(b))
        }
    }
}

/// The reduced items of a raw pattern string.
pub open spec fn spec_pattern_items(s: Seq<u8>, site: ChainKind) -> Seq<ItemModel> {
    let r = pat_fold(s, site);
    r.0 + toks_items(chain_tokens(r.1, site))
}

/// Whether the pattern anchors the start of the field value: it opens
/// with `|`.
pub open spec fn spec_start_anchor(s: Seq<u8>) -> bool {
    s.len() > 0 && s[0] == 0x7c
}

/// Whether the pattern anchors the end of the field value: it closes
/// with `|` that does not also open it.
pub open spec fn spec_end_anchor(s: Seq<u8>) -> bool {
    s.len() > 1 && s.last() == 0x7c
}

/// Appends the tokens of one raw text run as literal items.
fn push_chain_tokens(items: &mut Vec<PatternItem>, run: &[u8], site: ChainKind)
    ensures
        items_model(final(items)@) == items_model(old(items)@) + toks_items(
            chain_tokens(run@, site),
        ),
{
    let toks: Vec<Vec<u8>> = match site {
        ChainKind::Word => tokens_of(run),
        ChainKind::SiteUrl => site_tokens_of(run),
        ChainKind::JsonPath => json_tokens_of(run),
    };
    let ghost target = chain_tokens(run@, site);
    let ghost mut k: int = 0;
    let mut toks = toks;
    proof {
        assert(toks_view(toks) == target);
    }
    let ghost base = items_model(items@);
    while toks.len() > 0
        invariant
            0 <= k <= target.len(),
            toks_view(toks) =~= target.subrange(k, target.len() as int),
            items_model(items@) =~= base + toks_items(target.take(k)),
        decreases toks@.len(),
    {
        let ghost pre = toks@;
        let ghost pre_view = toks_view(toks);
        proof {
            assert(pre_view.len() == pre.len());
            assert(pre_view[0] == pre[0]@);
            assert(k < target.len());
        }
        let t = toks.remove(0);
        proof {
            assert(t@ == target[k]);
            assert(toks@ =~= pre.remove(0));
            assert forall|m: int| 0 <= m < toks@.len() implies toks_view(toks)[m] == target[k + 1
                + m] by {
                assert(toks_view(toks)[m] == toks@[m]@);
                assert(toks@[m] == pre[m + 1]);
                assert(pre_view[m + 1] == pre[m + 1]@);
                assert(pre_view[m + 1] == target.subrange(k, target.len() as int)[m + 1]);
            }
        }
        let ghost pre_items = items_model(items@);
        items.push(PatternItem::Raw(t));
        proof {
            assert(items_model(items@) =~= pre_items.push(ItemModel::Tok(t@)));
            assert(target.take(k + 1) =~= target.take(k).push(target[k]));
            assert(toks_items(target.take(k + 1)) =~= toks_items(target.take(k)).push(
                ItemModel::Tok(target[k]),
            ));
            assert(items_model(items@) =~= base + toks_items(target.take(k + 1)));
            assert(toks_view(toks) =~= target.subrange(k + 1, target.len() as int));
            k = k + 1;
        }
    }
    proof {
        assert(target.take(target.len() as int) =~= target);
        assert(items_model(items@) =~= base + toks_items(target));
    }
}

/// Reduces a raw pattern string against a field's analysis chain.
pub fn parse_pattern(s: &[u8], site: ChainKind) -> (r: Pattern)
    ensures
        r.start_anchor == spec_start_anchor(s@),
        r.end_anchor == spec_end_anchor(s@),
        items_model(r.items@) == spec_pattern_items(s@, site),
{
    let start_anchor = s.len() > 0 && s[0] == 0x7c;
    let end_anchor = s.len() > 1 && s[s.len() - 1] == 0x7c;
    let mut items: Vec<PatternItem> = Vec::new();
    let mut cur: Vec<u8> = Vec::new();
    let mut i: usize = 0;
    while i < s.len()
        invariant
            i <= s.len(),
            (items_model(items@), cur@) == pat_fold(s@.take(i as int), site),
        decreases s.len() - i,
    {
        proof {
            assert(s@.take(i + 1).drop_last() =~= s@.take(i as int));
            assert(s@.take(i + 1).last() == s@[i as int]);
        }
        let b = s[i];
        if b == 0x7c {
            push_chain_tokens(&mut items, cur.as_slice(), site);
            cur = Vec::new();
        } else if b == 0x2a {
            push_chain_tokens(&mut items, cur.as_slice(), site);
            items.push(PatternItem::Wild);
            cur = Vec::new();
            proof {
                assert(items_model(items@) =~= pat_fold(s@.take(i + 1), site).0);
            }
        } else {
            cur.push(b);
        }
        i = i + 1;
    }
    proof {
        assert(s@.take(s@.len() as int) =~= s@);
    }
    push_chain_tokens(&mut items, cur.as_slice(), site);
    Pattern { start_anchor, end_anchor, items }
}

/// Whether every item of a reduced pattern is a literal token.
pub open spec fn all_toks(items: Seq<ItemModel>) -> bool {
    forall|i: int| 0 <= i < items.len() ==> items[i] is Tok
}

/// The token a literal item carries.
pub open spec fn item_tok(it: ItemModel) -> Seq<u8> {
    match it {
        ItemModel::Tok(t) => t,
        ItemModel::Wild => Seq::empty(),
    }
}

/// The token sequence of a wildcard-free pattern.
pub open spec fn items_toks(items: Seq<ItemModel>) -> Seq<Seq<u8>> {
    items.map_values(|it: ItemModel| item_tok(it))
}

/// A run of literal items matches at `ti` exactly when the
/// corresponding tokens stand consecutively at `ti`, reaching the end
/// of the value unless the end is open.
proof fn lemma_toks_match(
    items: Seq<ItemModel>,
    end_open: bool,
    ts: Seq<Seq<u8>>,
    ii: int,
    ti: int,
)
    requires
        0 <= ii <= items.len(),
        0 <= ti <= ts.len(),
        all_toks(items),
    ensures
        match_core(items, end_open, ts, ii, ti) <==> (ti + (items.len() - ii) <= ts.len() && (
        end_open || ti + (items.len() - ii) == ts.len()) && (forall|k: int|
            0 <= k < items.len() - ii ==> #[trigger] ts[ti + k] == item_tok(items[ii + k]))),
    decreases items.len() - ii,
{
    let n = items.len() - ii;
    if ii < items.len() {
        let t = item_tok(items[ii]);
        assert(items[ii] is Tok);
        if ti < ts.len() {
            lemma_toks_match(items, end_open, ts, ii + 1, ti + 1);
            if match_core(items, end_open, ts, ii, ti) {
                assert(ts[ti] == t);
                assert forall|k: int|
                    0 <= k < n implies #[trigger] ts[ti + k] == item_tok(items[ii + k]) by {
                    if k > 0 {
                        assert(ts[(ti + 1) + (k - 1)] == item_tok(items[(ii + 1) + (k - 1)]));
                        assert(ti + k == (ti + 1) + (k - 1));
                        assert(ii + k == (ii + 1) + (k - 1));
                    } else {
                        assert(ti + k == ti && ii + k == ii);
                    }
                }
            } else {
                if ti + n <= ts.len() && (end_open || ti + n == ts.len()) && (forall|k: int|
                    0 <= k < n ==> #[trigger] ts[ti + k] == item_tok(items[ii + k])) {
                    assert(ts[ti + 0] == item_tok(items[ii + 0]));
                    assert(ts[ti] == t);
                    assert forall|k: int|
                        0 <= k < n - 1 implies #[trigger] ts[(ti + 1) + k] == item_tok(
                        items[(ii + 1) + k],
                    ) by {
                        assert(ts[ti + (k + 1)] == item_tok(items[ii + (k + 1)]));
                        assert((ti + 1) + k == ti + (k + 1));
                        assert((ii + 1) + k == ii + (k + 1));
                    }
                    assert(match_core(items, end_open, ts, ii + 1, ti + 1));
                    assert(false);
                }
            }
        } else {
            assert(!match_core(items, end_open, ts, ii, ti));
            assert(ti + n > ts.len());
        }
    }
}

/// Anchors on both sides: a wildcard-free pattern `|X|` matches a
/// value exactly when the full tokenised value is `X`.
pub proof fn lemma_anchors_exact(p: Pattern, ts: Seq<Seq<u8>>)
    requires
        p.start_anchor,
        p.end_anchor,
        all_toks(items_model(p.items@)),
    ensures
        spec_pattern_matches(p, ts) <==> ts =~= items_toks(items_model(p.items@)),
{
    let items = items_model(p.items@);
    let n = items.len() as int;
    lemma_toks_match(items, false, ts, 0, 0);
    if spec_pattern_matches(p, ts) {
        assert forall|k: int| 0 <= k < ts.len() implies ts[k] == items_toks(items)[k] by {
            assert(ts[0 + k] == item_tok(items[0 + k]));
        }
        assert(ts =~= items_toks(items));
    }
    if ts =~= items_toks(items) {
        assert forall|k: int| 0 <= k < n implies #[trigger] ts[0 + k] == item_tok(
            items[0 + k],
        ) by {
            assert(items_toks(items)[0 + k] == item_tok(items[0 + k]));
        }
        assert(spec_pattern_matches(p, ts));
    }
}

/// Start anchor only: a wildcard-free pattern `|X` matches a value
/// exactly when `X` is a prefix of its tokens.
pub proof fn lemma_anchor_prefix(p: Pattern, ts: Seq<Seq<u8>>)
    requires
        p.start_anchor,
        !p.end_anchor,
        all_toks(items_model(p.items@)),
    ensures
        spec_pattern_matches(p, ts) <==> (p.items@.len() <= ts.len() && ts.take(
            p.items@.len() as int,
        ) =~= items_toks(items_model(p.items@))),
{
    let items = items_model(p.items@);
    let n = items.len() as int;
    lemma_toks_match(items, true, ts, 0, 0);
    if spec_pattern_matches(p, ts) {
        assert forall|k: int| 0 <= k < n implies ts.take(n)[k] == items_toks(items)[k] by {
            assert(ts[0 + k] == item_tok(items[0 + k]));
        }
        assert(ts.take(n) =~= items_toks(items));
    }
    if n <= ts.len() && ts.take(n) =~= items_toks(items) {
        assert forall|k: int| 0 <= k < n implies #[trigger] ts[0 + k] == item_tok(
            items[0 + k],
        ) by {
            assert(ts.take(n)[k] == ts[k]);
            assert(items_toks(items)[0 + k] == item_tok(items[0 + k]));
        }
        assert(spec_pattern_matches(p, ts));
    }
}

/// End anchor only: a wildcard-free pattern `X|` matches a value
/// exactly when `X` is a suffix of its tokens.
pub proof fn lemma_anchor_suffix(p: Pattern, ts: Seq<Seq<u8>>)
    requires
        !p.start_anchor,
        p.end_anchor,
        all_toks(items_model(p.items@)),
    ensures
        spec_pattern_matches(p, ts) <==> (p.items@.len() <= ts.len() && ts.subrange(
            ts.len() - p.items@.len(),
            ts.len() as int,
        ) =~= items_toks(items_model(p.items@))),
{
    let items = items_model(p.items@);
    let n = items.len() as int;
    if spec_pattern_matches(p, ts) {
        let j = choose|j: int|
            0 <= j <= ts.len() && #[trigger] items_match_from(items, p.end_anchor, ts, j);
        lemma_toks_match(items, false, ts, 0, j);
        assert(j + n == ts.len());
        assert forall|m: int|
            0 <= m < n implies ts.subrange(ts.len() - n, ts.len() as int)[m] == items_toks(
            items,
        )[m] by {
            assert(ts[j + m] == item_tok(items[0 + m]));
        }
        assert(ts.subrange(ts.len() - n, ts.len() as int) =~= items_toks(items));
    }
    if p.items@.len() <= ts.len() && ts.subrange(ts.len() - n, ts.len() as int) =~= items_toks(
        items,
    ) {
        let j = ts.len() - n;
        lemma_toks_match(items, false, ts, 0, j);
        assert forall|k: int| 0 <= k < n implies #[trigger] ts[j + k] == item_tok(
            items[0 + k],
        ) by {
            assert(ts.subrange(ts.len() - n, ts.len() as int)[k] == ts[j + k]);
            assert(items_toks(items)[k] == item_tok(items[k]));
        }
        assert(items_match_from(items, p.end_anchor, ts, j));
        assert(spec_pattern_matches(p, ts));
    }
}

/// No anchors: a wildcard-free pattern `X` matches a value exactly when
/// `X` stands consecutively somewhere in its tokens.
pub proof fn lemma_unanchored(p: Pattern, ts: Seq<Seq<u8>>)
    requires
        !p.start_anchor,
        !p.end_anchor,
        all_toks(items_model(p.items@)),
    ensures
        spec_pattern_matches(p, ts) <==> (exists|j: int|
            0 <= j && j + p.items@.len() <= ts.len() && #[trigger] ts.subrange(
                j,
                j + p.items@.len(),
            ) =~= items_toks(items_model(p.items@))),
{
    let items = items_model(p.items@);
    let n = items.len() as int;
    if spec_pattern_matches(p, ts) {
        let j = choose|j: int|
            0 <= j <= ts.len() && #[trigger] items_match_from(items, p.end_anchor, ts, j);
        lemma_toks_match(items, true, ts, 0, j);
        assert forall|m: int| 0 <= m < n implies ts.subrange(j, j + n)[m] == items_toks(
            items,
        )[m] by {
            assert(ts[j + m] == item_tok(items[0 + m]));
        }
        assert(ts.subrange(j, j + n) =~= items_toks(items));
    }
    if exists|j: int|
        0 <= j && j + n <= ts.len() && #[trigger] ts.subrange(j, j + n) =~= items_toks(items) {
        let j = choose|j: int|
            0 <= j && j + n <= ts.len() && #[trigger] ts.subrange(j, j + n) =~= items_toks(items);
        lemma_toks_match(items, true, ts, 0, j);
        assert forall|k: int| 0 <= k < n implies #[trigger] ts[j + k] == item_tok(
            items[0 + k],
        ) by {
            assert(ts.subrange(j, j + n)[k] == ts[j + k]);
            assert(items_toks(items)[k] == item_tok(items[k]));
        }
        assert(items_match_from(items, p.end_anchor, ts, j));
        assert(spec_pattern_matches(p, ts));
    }
}

proof fn lemma_wild_tail(items: Seq<ItemModel>, end_open: bool, ts: Seq<Seq<u8>>, ii: int, ti: int)
    requires
        0 <= ii < items.len(),
        0 <= ti <= ts.len(),
        items[ii] is Wild,
        ii + 1 == items.len(),
    ensures
        match_core(items, end_open, ts, ii, ti),
    decreases ts.len() - ti,
{
    if end_open || ti == ts.len() {
        assert(match_core(items, end_open, ts, ii + 1, ti));
    } else {
        lemma_wild_tail(items, end_open, ts, ii, ti + 1);
        assert(match_core(items, end_open, ts, ii, ti + 1));
    }
}

/// A pattern that is one wildcard matches every value, whatever its
/// anchors: `*` admits any run of tokens.
pub proof fn lemma_wild_matches_all(p: Pattern, ts: Seq<Seq<u8>>)
    requires
        p.items@.len() == 1,
        items_model(p.items@)[0] is Wild,
    ensures
        spec_pattern_matches(p, ts),
{
    lemma_wild_tail(items_model(p.items@), !p.end_anchor, ts, 0, 0);
    assert(items_match_from(items_model(p.items@), p.end_anchor, ts, 0));
}

} // verus!
