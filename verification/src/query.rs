//! The compiled query: parsed terms with duplicate capping, simple
//! terms for highlighting, the operator tree with safe-search and
//! optic clauses, and the merged host rankings and coefficients.

use vstd::prelude::*;
use vstd::utf8::encode_utf8;

use crate::operator::{op_matches, op_wf, Occur, Operator};
use crate::optic::{
    spec_optic_allows, HostRankings, Optic, SignalCoefficient,
};
use crate::schema::{DocModel, Label};
use crate::term::{parse_terms, spec_parse_terms, terms_model, Term, TermModel};
use crate::tokenize::{spec_ws_split, toks_view, ws_split};

verus! {

/// Upper bound on how many times one exact term is kept in a parsed
/// query.
pub const MAX_SIMILAR_TERMS: usize = 10;

/// How often `t` occurs in `ts`.
pub open spec fn spec_count(ts: Seq<TermModel>, t: TermModel) -> int
    decreases ts.len(),
{
    if ts.len() == 0 {
        0int
    } else {
        spec_count(ts.drop_last(), t) + if ts.last() == t {
            1int
        } else {
            0int
        }
    }
}

/// The term list with exact duplicates capped: an occurrence is kept
/// only while fewer than ten equal terms came before it.
pub open spec fn spec_dedup(ts: Seq<TermModel>) -> Seq<TermModel>
    decreases ts.len(),
{
    if ts.len() == 0 {
        Seq::empty()
    } else {
        let p = spec_dedup(ts.drop_last());
        if spec_count(ts.drop_last(), ts.last()) < MAX_SIMILAR_TERMS {
            p.push(ts.last())
        } else {
            p
        }
    }
}

/// Counts in a kept list never exceed counts in the full list.
proof fn lemma_dedup_count_le(ts: Seq<TermModel>, t: TermModel)
    ensures
        spec_count(spec_dedup(ts), t) <= spec_count(ts, t),
        spec_count(spec_dedup(ts), t) >= 0,
        spec_count(ts, t) >= 0,
    decreases ts.len(),
{
    if ts.len() > 0 {
        lemma_dedup_count_le(ts.drop_last(), t);
        let p = spec_dedup(ts.drop_last());
        if spec_count(ts.drop_last(), ts.last()) < MAX_SIMILAR_TERMS {
            assert(spec_dedup(ts) == p.push(ts.last()));
            assert(spec_dedup(ts).drop_last() =~= p);
            assert(spec_dedup(ts).last() == ts.last());
        }
    }
}

/// Deduplication of tokens: however a query reads, no term stands more
/// than ten times in the capped term list.
pub proof fn lemma_term_dedup_cap(ts: Seq<TermModel>, t: TermModel)
    ensures
        spec_count(spec_dedup(ts), t) <= MAX_SIMILAR_TERMS,
    decreases ts.len(),
{
    if ts.len() > 0 {
        lemma_term_dedup_cap(ts.drop_last(), t);
        lemma_dedup_count_le(ts.drop_last(), t);
        let p = spec_dedup(ts.drop_last());
        if spec_count(ts.drop_last(), ts.last()) < MAX_SIMILAR_TERMS {
            assert(spec_dedup(ts) == p.push(ts.last()));
            assert(spec_dedup(ts).drop_last() =~= p);
            assert(spec_dedup(ts).last() == ts.last());
            if ts.last() == t {
                assert(spec_count(spec_dedup(ts), t) == spec_count(p, t) + 1);
                assert(spec_count(p, t) <= spec_count(ts.drop_last(), t));
            }
        }
    }
}

/// Looks up the count of `t` in the association list, which carries
/// one entry per distinct term.
fn count_lookup(counts: &Vec<(Term, u64)>, t: &Term, ghost(prefix): Ghost<Seq<TermModel>>) -> (r:
    u64)
    requires
        forall|k: int|
            0 <= k < counts@.len() ==> (#[trigger] counts@[k].1) as int == spec_count(
                prefix,
                counts@[k].0@,
            ),
        forall|m: TermModel|
            (forall|k: int| 0 <= k < counts@.len() ==> (#[trigger] counts@[k].0)@ != m)
                ==> spec_count(prefix, m) == 0,
    ensures
        r as int == spec_count(prefix, t@),
{
    let mut k: usize = 0;
    while k < counts.len()
        invariant
            k <= counts@.len(),
            forall|q: int|
                0 <= q < counts@.len() ==> (#[trigger] counts@[q].1) as int == spec_count(
                    prefix,
                    counts@[q].0@,
                ),
            forall|m: TermModel|
                (forall|q: int| 0 <= q < counts@.len() ==> (#[trigger] counts@[q].0)@ != m)
                    ==> spec_count(prefix, m) == 0,
            forall|q: int| 0 <= q < k ==> (#[trigger] counts@[q].0)@ != t@,
        decreases counts@.len() - k,
    {
        if counts[k].0 == *t {
            return counts[k].1;
        }
        k = k + 1;
    }
    0
}

/// Appending an occurrence raises exactly its own count.
proof fn lemma_count_push(prefix: Seq<TermModel>, t: TermModel)
    ensures
        forall|m: TermModel|
            #[trigger] spec_count(prefix.push(t), m) == spec_count(prefix, m) + (if m == t {
                1int
            } else {
                0int
            }),
{
    assert forall|m: TermModel|
        #[trigger] spec_count(prefix.push(t), m) == spec_count(prefix, m) + (if m == t {
            1int
        } else {
            0int
        }) by {
        assert(prefix.push(t).drop_last() =~= prefix);
        assert(prefix.push(t).last() == t);
    }
}

/// Records one more occurrence of `t`.
fn count_bump(counts: &mut Vec<(Term, u64)>, t: Term, ghost(prefix): Ghost<Seq<TermModel>>)
    requires
        spec_count(prefix, t@) < usize::MAX,
        forall|a: int, b: int|
            0 <= a < b < old(counts)@.len() ==> (#[trigger] old(counts)@[a].0)@ != (
            #[trigger] old(counts)@[b].0)@,
        forall|k: int|
            0 <= k < old(counts)@.len() ==> (#[trigger] old(counts)@[k].1) as int == spec_count(
                prefix,
                old(counts)@[k].0@,
            ),
        forall|m: TermModel|
            (forall|k: int| 0 <= k < old(counts)@.len() ==> (#[trigger] old(counts)@[k].0)@ != m)
                ==> spec_count(prefix, m) == 0,
    ensures
        forall|a: int, b: int|
            0 <= a < b < final(counts)@.len() ==> (#[trigger] final(counts)@[a].0)@ != (
            #[trigger] final(counts)@[b].0)@,
        forall|k: int|
            0 <= k < final(counts)@.len() ==> (#[trigger] final(counts)@[k].1) as int == spec_count(
                prefix.push(t@),
                final(counts)@[k].0@,
            ),
        forall|m: TermModel|
            (forall|k: int|
                0 <= k < final(counts)@.len() ==> (#[trigger] final(counts)@[k].0)@ != m)
                ==> spec_count(prefix.push(t@), m) == 0,
{
    let mut k: usize = 0;
    let n = counts.len();
    while k < n
        invariant
            k <= n,
            n == counts@.len(),
            forall|a: int, b: int|
                0 <= a < b < counts@.len() ==> (#[trigger] counts@[a].0)@ != (
                #[trigger] counts@[b].0)@,
            forall|q: int|
                0 <= q < counts@.len() ==> (#[trigger] counts@[q].1) as int == spec_count(
                    prefix,
                    counts@[q].0@,
                ),
            forall|m: TermModel|
                (forall|q: int| 0 <= q < counts@.len() ==> (#[trigger] counts@[q].0)@ != m)
                    ==> spec_count(prefix, m) == 0,
            forall|q: int| 0 <= q < k ==> (#[trigger] counts@[q].0)@ != t@,
            spec_count(prefix, t@) < usize::MAX,
        decreases n - k,
    {
        if counts[k].0 == t {
            let ghost pre = counts@;
            let c = counts[k].1;
            proof {
                assert(counts@[k as int].0@ == t@);
                assert(c as int == spec_count(prefix, t@));
                assert(c < u64::MAX);
            }
            counts.set(k, (t, c + 1));
            proof {
                lemma_count_push(prefix, t@);
                assert(counts@ =~= pre.update(k as int, (counts@[k as int].0, (c + 1) as u64)));
                assert(counts@[k as int].0@ == t@);
                assert forall|q: int| 0 <= q < counts@.len() && q != k implies counts@[q]
                    == pre[q] by {}
                assert forall|q: int|
                    0 <= q < counts@.len() implies (#[trigger] counts@[q].1) as int == spec_count(
                    prefix.push(t@),
                    counts@[q].0@,
                ) by {
                    if q != k {
                        assert(counts@[q] == pre[q]);
                        if counts@[q].0@ == t@ {
                            assert(false);
                        }
                    }
                }
                assert forall|m: TermModel|
                    (forall|q: int| 0 <= q < counts@.len() ==> (#[trigger] counts@[q].0)@ != m)
                        implies spec_count(prefix.push(t@), m) == 0 by {
                    assert(counts@[k as int].0@ != m);
                    assert(m != t@);
                    assert forall|q: int|
                        0 <= q < pre.len() implies (#[trigger] pre[q].0)@ != m by {
                        if q == k {
                            assert(pre[q].0@ == t@);
                        } else {
                            assert(counts@[q].0 == pre[q].0);
                        }
                    }
                }
            }
            return ;
        }
        k = k + 1;
    }
    let ghost pre = counts@;
    counts.push((t, 1));
    proof {
        lemma_count_push(prefix, t@);
        assert(counts@[pre.len() as int].0@ == t@);
        assert(spec_count(prefix, counts@[pre.len() as int].0@) == 0);
        assert forall|q: int|
            0 <= q < counts@.len() implies (#[trigger] counts@[q].1) as int == spec_count(
            prefix.push(t@),
            counts@[q].0@,
        ) by {
            if q < pre.len() {
                assert(counts@[q] == pre[q]);
            }
        }
        assert forall|m: TermModel|
            (forall|q: int| 0 <= q < counts@.len() ==> (#[trigger] counts@[q].0)@ != m)
                implies spec_count(prefix.push(t@), m) == 0 by {
            assert(counts@[pre.len() as int].0@ != m);
            assert(m != t@);
            assert forall|q: int| 0 <= q < pre.len() implies (#[trigger] pre[q].0)@ != m by {
                assert(counts@[q] == pre[q]);
            }
        }
    }
}

/// Caps exact duplicates: each term is kept only while fewer than ten
/// equal terms came before it.
pub fn dedup_terms(ts: Vec<Term>) -> (r: Vec<Term>)
    ensures
        terms_model(r@) == spec_dedup(terms_model(ts@)),
{
    let ghost full = terms_model(ts@);
    let total: usize = ts.len();
    let mut out: Vec<Term> = Vec::new();
    let mut counts: Vec<(Term, u64)> = Vec::new();
    let mut ts = ts;
    let ghost mut i: int = 0;
    while ts.len() > 0
        invariant
            0 <= i <= full.len(),
            full.len() == total,
            i + ts@.len() == full.len(),
            terms_model(ts@) =~= full.subrange(i, full.len() as int),
            terms_model(out@) =~= spec_dedup(full.take(i)),
            forall|a: int, b: int|
                0 <= a < b < counts@.len() ==> (#[trigger] counts@[a].0)@ != (
                #[trigger] counts@[b].0)@,
            forall|k: int|
                0 <= k < counts@.len() ==> (#[trigger] counts@[k].1) as int == spec_count(
                    full.take(i),
                    counts@[k].0@,
                ),
            forall|m: TermModel|
                (forall|k: int| 0 <= k < counts@.len() ==> (#[trigger] counts@[k].0)@ != m)
                    ==> spec_count(full.take(i), m) == 0,
        decreases ts@.len(),
    {
        let ghost pre_ts = ts@;
        let ghost pre_tm = terms_model(ts@);
        let t = ts.remove(0);
        proof {
            assert(pre_tm[0] == pre_ts[0]@);
            assert(t@ == full[i]);
            assert forall|q: int| 0 <= q < ts@.len() implies terms_model(ts@)[q] == full[i + 1
                + q] by {
                assert(ts@[q] == pre_ts[q + 1]);
                assert(terms_model(ts@)[q] == ts@[q]@);
                assert(pre_tm[q + 1] == pre_ts[q + 1]@);
                assert(pre_tm[q + 1] == full.subrange(i, full.len() as int)[q + 1]);
            }
            assert(terms_model(ts@) =~= full.subrange(i + 1, full.len() as int));
            lemma_count_le_len(full.take(i), t@);
            assert(spec_count(full.take(i), t@) <= i);
            assert(i < total);
        }
        let c = count_lookup(&counts, &t, Ghost(full.take(i)));
        let keep = c < MAX_SIMILAR_TERMS as u64;
        let ghost pre_out = terms_model(out@);
        if keep {
            let t2 = Term { kind: t.kind, negated: t.negated, text: clone_bytes(&t.text) };
            proof {
                assert(t2@ == t@);
            }
            out.push(t2);
        }
        count_bump(&mut counts, t, Ghost(full.take(i)));
        proof {
            assert(full.take(i + 1).drop_last() =~= full.take(i));
            assert(full.take(i + 1).last() == full[i]);
            if keep {
                assert(terms_model(out@) =~= pre_out.push(full[i]));
                assert(terms_model(out@) =~= spec_dedup(full.take(i + 1)));
            } else {
                assert(terms_model(out@) =~= spec_dedup(full.take(i + 1)));
            }
            assert(full.take(i).push(full[i]) =~= full.take(i + 1));
            i = i + 1;
        }
    }
    proof {
        assert(full.take(full.len() as int) =~= full);
    }
    out
}

/// How many occurrences a term can have at most: the length of the
/// list.
proof fn lemma_count_le_len(ts: Seq<TermModel>, t: TermModel)
    ensures
        0 <= spec_count(ts, t) <= ts.len(),
    decreases ts.len(),
{
    if ts.len() > 0 {
        lemma_count_le_len(ts.drop_last(), t);
    }
}

/// The search request as the caller hands it over.
pub struct SearchQuery {
    pub query: String,
    pub page: usize,
    pub num_results: usize,
    pub optic: Option<Optic>,
    pub host_rankings: Option<HostRankings>,
    pub selected_region: Option<u64>,
    pub safe_search: bool,
    pub count_results: bool,
    pub return_ranking_signals: bool,
}

impl Default for SearchQuery {
    /// An empty query over the first twenty results, without safe
    /// search or counting.
    fn default() -> (r: SearchQuery)
        ensures
            r.query@.len() == 0,
            r.page == 0,
            r.num_results == 20,
            r.optic is None,
            r.host_rankings is None,
            r.selected_region is None,
            !r.safe_search,
            !r.count_results,
            !r.return_ranking_signals,
    {
        SearchQuery {
            query: String::new(),
            page: 0,
            num_results: 20,
            optic: None,
            host_rankings: None,
            selected_region: None,
            safe_search: false,
            count_results: false,
            return_ranking_signals: false,
        }
    }
}

/// The flattened bytes of a token list: the compound token a window of
/// terms builds.
pub open spec fn spec_flat(ts: Seq<Seq<u8>>) -> Seq<u8>
    decreases ts.len(),
{
    if ts.len() == 0 {
        Seq::empty()
    } else {
        spec_flat(ts.drop_last()) + ts.last()
    }
}

/// The compound contribution of one term: its analysed tokens run
/// together, empty for anything but a plain term.
pub open spec fn spec_term_flat(tm: TermModel) -> Seq<u8> {
    if tm.kind == crate::term::TermKind::Simple && !tm.negated {
        spec_flat(crate::tokenize::spec_tokens(tm.text))
    } else {
        Seq::empty()
    }
}

/// The compound token of a window of terms.
pub open spec fn spec_window_compound(ts: Seq<TermModel>, lo: int, w: int) -> Seq<u8>
    decreases w,
{
    if w <= 0 {
        Seq::empty()
    } else {
        spec_window_compound(ts, lo, w - 1) + spec_term_flat(ts[lo + w - 1])
    }
}

/// The compound tokens of every sliding window of width two or three
/// that holds position `i`.
pub open spec fn spec_compounds(ts: Seq<TermModel>, i: int) -> Seq<Seq<u8>> {
    let c22 = if 0 <= i - 1 && i + 1 <= ts.len() {
        seq![spec_window_compound(ts, i - 1, 2)]
    } else {
        Seq::<Seq<u8>>::empty()
    };
    let c21 = if i + 2 <= ts.len() {
        seq![spec_window_compound(ts, i, 2)]
    } else {
        Seq::<Seq<u8>>::empty()
    };
    let c33 = if 0 <= i - 2 && i + 1 <= ts.len() {
        seq![spec_window_compound(ts, i - 2, 3)]
    } else {
        Seq::<Seq<u8>>::empty()
    };
    let c32 = if 0 <= i - 1 && i + 2 <= ts.len() {
        seq![spec_window_compound(ts, i - 1, 3)]
    } else {
        Seq::<Seq<u8>>::empty()
    };
    let c31 = if i + 3 <= ts.len() {
        seq![spec_window_compound(ts, i, 3)]
    } else {
        Seq::<Seq<u8>>::empty()
    };
    c22 + c21 + c33 + c32 + c31
}

/// Copies a byte string.
pub fn clone_bytes(v: &Vec<u8>) -> (r: Vec<u8>)
    ensures
        r@ == v@,
{
    let mut out: Vec<u8> = Vec::new();
    let mut i: usize = 0;
    while i < v.len()
        invariant
            i <= v@.len(),
            out@ =~= v@.take(i as int),
        decreases v@.len() - i,
    {
        out.push(v[i]);
        proof {
            assert(out@ =~= v@.take(i + 1));
        }
        i = i + 1;
    }
    proof {
        assert(v@.take(v@.len() as int) =~= v@);
    }
    out
}

/// Whether one analysed token of a plain term matches the document:
/// a should-union over the default field group, and over the n-gram
/// compounds of title and body for compound words.
pub open spec fn spec_simple_tok_matches(tok: Seq<u8>, d: DocModel) -> bool {
    ||| d.title_tokens.contains(tok)
    ||| d.body_tokens.contains(tok)
    ||| d.stemmed_body_tokens.contains(crate::stem::stem_of(tok))
    ||| d.all_body_tokens.contains(tok)
    ||| d.description_tokens.contains(tok)
    ||| d.dmoz_description_tokens.contains(tok)
    ||| d.url_tokens.contains(tok)
    ||| d.site_tokens.contains(tok)
    ||| d.domain_tokens.contains(tok)
    ||| crate::tokenize::spec_has_ngram(d.title_tokens, 2, tok)
    ||| crate::tokenize::spec_has_ngram(d.body_tokens, 2, tok)
    ||| crate::tokenize::spec_has_ngram(d.title_tokens, 3, tok)
    ||| crate::tokenize::spec_has_ngram(d.body_tokens, 3, tok)
}

/// Whether an ordered run of tokens matches the document: it must
/// stand in the title, and in the body too whenever the document has
/// one. A run in body text under another title does not count.
pub open spec fn spec_phrase_matches(toks: Seq<Seq<u8>>, d: DocModel) -> bool {
    crate::operator::spec_has_phrase(d.title_tokens, toks) && (d.body_tokens.len() == 0
        || crate::operator::spec_has_phrase(d.body_tokens, toks))
}

/// Whether a compound token matches the document: as a whole token of
/// title or body, or as a run of adjacent tokens there.
pub open spec fn spec_compound_matches(c: Seq<u8>, d: DocModel) -> bool {
    ||| d.title_tokens.contains(c)
    ||| d.body_tokens.contains(c)
    ||| crate::tokenize::spec_has_ngram(d.title_tokens, 2, c)
    ||| crate::tokenize::spec_has_ngram(d.body_tokens, 2, c)
    ||| crate::tokenize::spec_has_ngram(d.title_tokens, 3, c)
    ||| crate::tokenize::spec_has_ngram(d.body_tokens, 3, c)
}

/// The field-operator view of a `site:`, `intitle:` or `inurl:` term.
pub open spec fn spec_term_matching(tm: TermModel) -> crate::optic::MatchingModel {
    crate::optic::MatchingModel {
        location: (match tm.kind {
            crate::term::TermKind::Site => crate::optic::MatchLocation::Site,
            crate::term::TermKind::InTitle => crate::optic::MatchLocation::Title,
            _ => crate::optic::MatchLocation::Url,
        }),
        pattern: tm.text,
    }
}

/// A field-operator term whose pattern reduces to nothing: it is
/// pruned and gates nothing.
pub open spec fn spec_term_pruned(tm: TermModel) -> bool {
    match tm.kind {
        crate::term::TermKind::Site => crate::optic::spec_matching_pruned(spec_term_matching(tm)),
        crate::term::TermKind::InTitle => crate::optic::spec_matching_pruned(
            spec_term_matching(tm),
        ),
        crate::term::TermKind::InUrl => crate::optic::spec_matching_pruned(spec_term_matching(tm)),
        _ => false,
    }
}

/// Whether one term's clause accepts the document. A plain term of one
/// token runs over the default field group; one of several tokens is
/// matched as an ordered run; a phrase is matched as an ordered run;
/// field operators run their pattern over their field. Compounds of
/// adjacent plain terms extend an unnegated plain term.
pub open spec fn spec_term_clause(tm: TermModel, comps: Seq<Seq<u8>>, d: DocModel) -> bool {
    let toks = crate::tokenize::spec_tokens(tm.text);
    match tm.kind {
        crate::term::TermKind::Simple => {
            let base = if toks.len() == 1 {
                spec_simple_tok_matches(toks[0], d)
            } else if toks.len() > 1 {
                spec_phrase_matches(toks, d)
            } else {
                false
            };
            base || (!tm.negated && (exists|k: int|
                0 <= k < comps.len() && spec_compound_matches(#[trigger] comps[k], d)))
        },
        crate::term::TermKind::Phrase => spec_phrase_matches(toks, d),
        _ => crate::optic::spec_matching_matches(spec_term_matching(tm), d),
    }
}

/// Whether the compiled base query accepts the document: some plain
/// clause gates it, every unnegated clause holds, no negated clause
/// holds, and under safe search the document is not classified NSFW.
pub open spec fn spec_query_matches(ts: Seq<TermModel>, safe: bool, d: DocModel) -> bool {
    &&& (exists|i: int|
        0 <= i < ts.len() && !(#[trigger] ts[i]).negated && !spec_term_pruned(ts[i]))
    &&& (forall|i: int|
        0 <= i < ts.len() && !(#[trigger] ts[i]).negated && !spec_term_pruned(ts[i])
            ==> spec_term_clause(ts[i], spec_compounds(ts, i), d))
    &&& (forall|i: int|
        0 <= i < ts.len() && (#[trigger] ts[i]).negated && !spec_term_pruned(ts[i])
            ==> !spec_term_clause(ts[i], spec_compounds(ts, i), d))
    &&& (safe ==> d.safety_classification != Some(Label::Nsfw))
}

/// Appends the flattened compound contribution of one term.
fn push_term_flat(out: &mut Vec<u8>, t: &Term)
    ensures
        final(out)@ == old(out)@ + spec_term_flat(t@),
{
    if matches!(t.kind, crate::term::TermKind::Simple) && !t.negated {
        let toks = crate::tokenize::tokens_of(t.text.as_slice());
        let ghost gtoks = toks_view(toks);
        let ghost base = out@;
        let mut k: usize = 0;
        while k < toks.len()
            invariant
                k <= toks@.len(),
                gtoks == toks_view(toks),
                out@ =~= base + spec_flat(gtoks.take(k as int)),
            decreases toks@.len() - k,
        {
            let t0 = &toks[k];
            proof {
                assert(t0@ == gtoks[k as int]);
            }
            let mut j: usize = 0;
            while j < t0.len()
                invariant
                    j <= t0@.len(),
                    out@ =~= base + spec_flat(gtoks.take(k as int)) + t0@.take(j as int),
                decreases t0@.len() - j,
            {
                out.push(t0[j]);
                proof {
                    assert(t0@.take(j + 1) =~= t0@.take(j as int).push(t0@[j as int]));
                    assert(out@ =~= base + spec_flat(gtoks.take(k as int)) + t0@.take(j + 1));
                }
                j = j + 1;
            }
            proof {
                assert(t0@.take(t0@.len() as int) =~= t0@);
                assert(gtoks.take(k + 1).drop_last() =~= gtoks.take(k as int));
                assert(gtoks.take(k + 1).last() == gtoks[k as int]);
                assert(out@ =~= base + spec_flat(gtoks.take(k + 1)));
            }
            k = k + 1;
        }
        proof {
            assert(gtoks.take(gtoks.len() as int) =~= gtoks);
            assert(spec_term_flat(t@) == spec_flat(gtoks));
        }
    } else {
        proof {
            assert(spec_term_flat(t@) =~= Seq::<u8>::empty());
            assert(out@ =~= out@ + spec_term_flat(t@));
        }
    }
}

/// The compound token of the window of terms `[lo, lo + w)`.
fn window_compound(ts: &Vec<Term>, lo: usize, w: usize) -> (r: Vec<u8>)
    requires
        lo + w <= ts@.len(),
    ensures
        r@ == spec_window_compound(terms_model(ts@), lo as int, w as int),
{
    let n: usize = ts.len();
    let mut out: Vec<u8> = Vec::new();
    let mut k: usize = 0;
    while k < w
        invariant
            k <= w,
            lo + w <= n,
            n == ts@.len(),
            out@ == spec_window_compound(terms_model(ts@), lo as int, k as int),
        decreases w - k,
    {
        proof {
            assert(terms_model(ts@)[lo + k] == ts@[lo + k as int]@);
        }
        push_term_flat(&mut out, &ts[lo + k]);
        k = k + 1;
    }
    out
}

/// The compound tokens of every sliding window of width two or three
/// holding the term at `i`.
fn build_compounds(ts: &Vec<Term>, i: usize) -> (r: Vec<Vec<u8>>)
    requires
        i < ts@.len(),
    ensures
        toks_view(r) == spec_compounds(terms_model(ts@), i as int),
{
    let n = ts.len();
    let mut out: Vec<Vec<u8>> = Vec::new();
    if i >= 1 {
        out.push(window_compound(ts, i - 1, 2));
    }
    if n >= 2 && i <= n - 2 {
        out.push(window_compound(ts, i, 2));
    }
    if i >= 2 {
        out.push(window_compound(ts, i - 2, 3));
    }
    if i >= 1 && n >= 2 && i <= n - 2 {
        out.push(window_compound(ts, i - 1, 3));
    }
    if n >= 3 && i <= n - 3 {
        out.push(window_compound(ts, i, 3));
    }
    proof {
        assert(toks_view(out) =~= spec_compounds(terms_model(ts@), i as int));
    }
    out
}

/// The score weight a plain term carries on each field, in
/// thousandths.
pub const TITLE_WEIGHT: u64 = 10000;

pub const BODY_WEIGHT: u64 = 1000;

pub const STEMMED_WEIGHT: u64 = 500;

pub const FIELD_WEIGHT: u64 = 1000;

/// The union of field operators of one analysed token of a plain
/// term.
fn simple_tok_union(tok: &Vec<u8>, st: &rust_stemmers::Stemmer) -> (r: Operator)
    requires
        crate::stem::is_english(*st),
    ensures
        op_wf(r),
        forall|d: DocModel| #[trigger] op_matches(r, d) == spec_simple_tok_matches(tok@, d),
{
    let stemmed = crate::stem::stem_word(st, tok);
    let r = crate::optic::union2(
        Operator::TermOp {
            field: crate::schema::TextField::Title,
            token: clone_bytes(tok),
            weight: TITLE_WEIGHT,
        },
        crate::optic::union2(
            Operator::TermOp {
                field: crate::schema::TextField::CleanBody,
                token: clone_bytes(tok),
                weight: BODY_WEIGHT,
            },
            crate::optic::union2(
                Operator::TermOp {
                    field: crate::schema::TextField::StemmedCleanBody,
                    token: stemmed,
                    weight: STEMMED_WEIGHT,
                },
                crate::optic::union2(
                    Operator::TermOp {
                        field: crate::schema::TextField::AllBody,
                        token: clone_bytes(tok),
                        weight: STEMMED_WEIGHT,
                    },
                    crate::optic::union2(
                        Operator::TermOp {
                            field: crate::schema::TextField::Description,
                            token: clone_bytes(tok),
                            weight: FIELD_WEIGHT,
                        },
                        crate::optic::union2(
                            Operator::TermOp {
                                field: crate::schema::TextField::DmozDescription,
                                token: clone_bytes(tok),
                                weight: STEMMED_WEIGHT,
                            },
                            crate::optic::union2(
                                Operator::TermOp {
                                    field: crate::schema::TextField::Url,
                                    token: clone_bytes(tok),
                                    weight: FIELD_WEIGHT,
                                },
                                crate::optic::union2(
                                    Operator::TermOp {
                                        field: crate::schema::TextField::Site,
                                        token: clone_bytes(tok),
                                        weight: FIELD_WEIGHT,
                                    },
                                    crate::optic::union2(
                                        Operator::TermOp {
                                            field: crate::schema::TextField::Domain,
                                            token: clone_bytes(tok),
                                            weight: FIELD_WEIGHT,
                                        },
                                        crate::optic::union2(
                                            Operator::NgramOp {
                                                field: crate::schema::TextField::Title,
                                                n: 2,
                                                token: clone_bytes(tok),
                                            },
                                            crate::optic::union2(
                                                Operator::NgramOp {
                                                    field: crate::schema::TextField::CleanBody,
                                                    n: 2,
                                                    token: clone_bytes(tok),
                                                },
                                                crate::optic::union2(
                                                    Operator::NgramOp {
                                                        field: crate::schema::TextField::Title,
                                                        n: 3,
                                                        token: clone_bytes(tok),
                                                    },
                                                    Operator::NgramOp {
                                                        field: crate::schema::TextField::CleanBody,
                                                        n: 3,
                                                        token: clone_bytes(tok),
                                                    },
                                                ),
                                            ),
                                        ),
                                    ),
                                ),
                            ),
                        ),
                    ),
                ),
            ),
        ),
    );
    r
}

/// Copies a token list.
pub fn clone_toks(v: &Vec<Vec<u8>>) -> (r: Vec<Vec<u8>>)
    ensures
        toks_view(r) == toks_view(*v),
{
    let mut out: Vec<Vec<u8>> = Vec::new();
    let mut i: usize = 0;
    while i < v.len()
        invariant
            i <= v@.len(),
            out@.len() == i,
            forall|k: int| 0 <= k < i ==> (#[trigger] out@[k])@ == v@[k]@,
        decreases v@.len() - i,
    {
        out.push(clone_bytes(&v[i]));
        i = i + 1;
    }
    proof {
        assert forall|k: int| 0 <= k < v@.len() implies toks_view(out)[k] == toks_view(*v)[k] by {
            assert(toks_view(out)[k] == out@[k]@);
            assert(toks_view(*v)[k] == v@[k]@);
        }
        assert(toks_view(out) =~= toks_view(*v));
    }
    out
}

/// The operator of a phrase: the ordered run must stand in the title,
/// and in the body of any document that has one.
fn phrase_union(toks: &Vec<Vec<u8>>) -> (r: Operator)
    ensures
        op_wf(r),
        forall|d: DocModel| #[trigger] op_matches(r, d) == spec_phrase_matches(toks_view(*toks), d),
{
    let mut cs: Vec<(Occur, Operator)> = Vec::new();
    cs.push(
        (
            Occur::Must,
            Operator::PhraseOp { field: crate::schema::TextField::Title, tokens: clone_toks(toks) },
        ),
    );
    cs.push(
        (
            Occur::Must,
            Operator::BodyEmptyOrPhrase { tokens: clone_toks(toks) },
        ),
    );
    let ghost gcs = cs@;
    let r = Operator::Bool(cs);
    proof {
        assert(r->Bool_0@ == gcs);
        assert forall|k: int| 0 <= k < r->Bool_0@.len() implies op_wf(
            (#[trigger] r->Bool_0@[k]).1,
        ) by {
            if k == 0 {
                assert(gcs[0].1 is PhraseOp);
            } else {
                assert(gcs[k] == gcs[1]);
            }
        }
        assert(op_wf(r));
        assert forall|d: DocModel| #[trigger] op_matches(r, d) == spec_phrase_matches(
            toks_view(*toks),
            d,
        ) by {
            if op_matches(r, d) {
                assert(op_matches(gcs[0].1, d));
                assert(op_matches(gcs[1].1, d));
            }
            if spec_phrase_matches(toks_view(*toks), d) {
                assert forall|k: int|
                    0 <= k < gcs.len() && (#[trigger] gcs[k]).0 == Occur::Must implies op_matches(
                    gcs[k].1,
                    d,
                ) by {
                    if k == 0 {
                    } else {
                        assert(gcs[k] == gcs[1]);
                    }
                }
                assert(gcs[0].0 == Occur::Must);
                assert(op_matches(r, d));
            }
        }
    }
    r
}

/// The union of compound operators of one compound token.
fn compound_union(c: &Vec<u8>) -> (r: Operator)
    ensures
        op_wf(r),
        forall|d: DocModel| #[trigger] op_matches(r, d) == spec_compound_matches(c@, d),
{
    crate::optic::union2(
        Operator::TermOp {
            field: crate::schema::TextField::Title,
            token: clone_bytes(c),
            weight: BODY_WEIGHT,
        },
        crate::optic::union2(
            Operator::TermOp {
                field: crate::schema::TextField::CleanBody,
                token: clone_bytes(c),
                weight: BODY_WEIGHT,
            },
            crate::optic::union2(
                Operator::NgramOp {
                    field: crate::schema::TextField::Title,
                    n: 2,
                    token: clone_bytes(c),
                },
                crate::optic::union2(
                    Operator::NgramOp {
                        field: crate::schema::TextField::CleanBody,
                        n: 2,
                        token: clone_bytes(c),
                    },
                    crate::optic::union2(
                        Operator::NgramOp {
                            field: crate::schema::TextField::Title,
                            n: 3,
                            token: clone_bytes(c),
                        },
                        Operator::NgramOp {
                            field: crate::schema::TextField::CleanBody,
                            n: 3,
                            token: clone_bytes(c),
                        },
                    ),
                ),
            ),
        ),
    )
}

/// Compiles one term into its clause. A pruned field operator yields
/// nothing; everything else gates the query as a `Must`, or as a
/// `MustNot` when negated.
fn compile_term(t: &Term, comps: &Vec<Vec<u8>>, st: &rust_stemmers::Stemmer) -> (r: Option<
    (Occur, Operator),
>)
    requires
        crate::stem::is_english(*st),
    ensures
        r is Some <==> !spec_term_pruned(t@),
        r is Some ==> r->Some_0.0 == (if t.negated {
            Occur::MustNot
        } else {
            Occur::Must
        }),
        r is Some ==> op_wf(r->Some_0.1),
        r is Some ==> forall|d: DocModel| #[trigger] op_matches(r->Some_0.1, d)
            == spec_term_clause(t@, toks_view(*comps), d),
{
    let occur = if t.negated {
        Occur::MustNot
    } else {
        Occur::Must
    };
    match t.kind {
        crate::term::TermKind::Simple => {
            let toks = crate::tokenize::tokens_of(t.text.as_slice());
            let base = if toks.len() == 1 {
                simple_tok_union(&toks[0], st)
            } else if toks.len() > 1 {
                phrase_union(&toks)
            } else {
                Operator::Bool(Vec::new())
            };
            let ghost gbase = base;
            if !t.negated && comps.len() > 0 {
                let mut cops: Vec<Operator> = Vec::new();
                let mut i: usize = 0;
                while i < comps.len()
                    invariant
                        i <= comps@.len(),
                        crate::optic::ops_wf(cops@),
                        cops@.len() == i,
                        forall|d: DocModel| #[trigger] crate::optic::ops_any_match(cops@, d) == (
                        exists|k: int|
                            0 <= k < i && spec_compound_matches(
                                #[trigger] toks_view(*comps)[k],
                                d,
                            )),
                    decreases comps@.len() - i,
                {
                    let ghost pre = cops@;
                    let cu = compound_union(&comps[i]);
                    cops.push(cu);
                    proof {
                        crate::optic::lemma_any_push(pre, cu, cops@);
                        assert forall|d: DocModel|
                            #[trigger] crate::optic::ops_any_match(cops@, d) == (exists|k: int|
                                0 <= k < i + 1 && spec_compound_matches(
                                    #[trigger] toks_view(*comps)[k],
                                    d,
                                )) by {
                            if crate::optic::ops_any_match(cops@, d) && !crate::optic::ops_any_match(
                                pre,
                                d,
                            ) {
                                assert(spec_compound_matches(toks_view(*comps)[i as int], d));
                            }
                            if exists|k: int|
                                0 <= k < i + 1 && spec_compound_matches(
                                    #[trigger] toks_view(*comps)[k],
                                    d,
                                ) {
                                let k = choose|k: int|
                                    0 <= k < i + 1 && spec_compound_matches(
                                        #[trigger] toks_view(*comps)[k],
                                        d,
                                    );
                                if k < i {
                                    assert(crate::optic::ops_any_match(pre, d));
                                }
                            }
                        }
                    }
                    i = i + 1;
                }
                let ghost gcops = cops@;
                let call = crate::optic::bool_any(cops);
                let r = crate::optic::union2(base, call);
                proof {
                    assert forall|d: DocModel| #[trigger] op_matches(r, d) == spec_term_clause(
                        t@,
                        toks_view(*comps),
                        d,
                    ) by {
                        assert(op_matches(r, d) == (op_matches(gbase, d) || op_matches(call, d)));
                        assert(op_matches(call, d) == crate::optic::ops_any_match(gcops, d));
                    }
                }
                Some((occur, r))
            } else {
                proof {
                    assert forall|d: DocModel| #[trigger] op_matches(gbase, d) == spec_term_clause(
                        t@,
                        toks_view(*comps),
                        d,
                    ) by {
                        if t.negated {
                        } else {
                            assert(toks_view(*comps).len() == 0);
                        }
                    }
                }
                Some((occur, base))
            }
        },
        crate::term::TermKind::Phrase => {
            let toks = crate::tokenize::tokens_of(t.text.as_slice());
            let r = phrase_union(&toks);
            Some((occur, r))
        },
        crate::term::TermKind::Site => {
            match crate::optic::compile_matching_bytes(
                crate::optic::MatchLocation::Site,
                t.text.as_slice(),
            ) {
                Some(op) => Some((occur, op)),
                None => None,
            }
        },
        crate::term::TermKind::InTitle => {
            match crate::optic::compile_matching_bytes(
                crate::optic::MatchLocation::Title,
                t.text.as_slice(),
            ) {
                Some(op) => Some((occur, op)),
                None => None,
            }
        },
        crate::term::TermKind::InUrl => {
            match crate::optic::compile_matching_bytes(
                crate::optic::MatchLocation::Url,
                t.text.as_slice(),
            ) {
                Some(op) => Some((occur, op)),
                None => None,
            }
        },
    }
}

/// Whether every `Must` clause of a list accepts the document.
pub open spec fn musts_match(cs: Seq<(Occur, Operator)>, d: DocModel) -> bool {
    forall|i: int|
        0 <= i < cs.len() && (#[trigger] cs[i]).0 == Occur::Must ==> op_matches(cs[i].1, d)
}

/// Whether no `MustNot` clause of a list accepts the document.
pub open spec fn mustnots_clean(cs: Seq<(Occur, Operator)>, d: DocModel) -> bool {
    forall|i: int|
        0 <= i < cs.len() && (#[trigger] cs[i]).0 == Occur::MustNot ==> !op_matches(cs[i].1, d)
}

/// Whether some clause of a list is a `Must`.
pub open spec fn has_must(cs: Seq<(Occur, Operator)>) -> bool {
    exists|i: int| 0 <= i < cs.len() && (#[trigger] cs[i]).0 == Occur::Must
}

/// Pushing one clause extends the gating conjunctions by its own.
proof fn lemma_push_gate(
    pre: Seq<(Occur, Operator)>,
    oc: Occur,
    op: Operator,
    post: Seq<(Occur, Operator)>,
)
    requires
        post =~= pre.push((oc, op)),
    ensures
        forall|d: DocModel| #[trigger] musts_match(post, d) == (musts_match(pre, d) && (oc
            == Occur::Must ==> op_matches(op, d))),
        forall|d: DocModel| #[trigger] mustnots_clean(post, d) == (mustnots_clean(pre, d) && (oc
            == Occur::MustNot ==> !op_matches(op, d))),
        has_must(post) == (has_must(pre) || oc == Occur::Must),
{
    assert forall|d: DocModel| #[trigger] musts_match(post, d) == (musts_match(pre, d) && (oc
        == Occur::Must ==> op_matches(op, d))) by {
        if musts_match(post, d) {
            assert forall|i: int|
                0 <= i < pre.len() && (#[trigger] pre[i]).0 == Occur::Must implies op_matches(
                pre[i].1,
                d,
            ) by {
                assert(post[i] == pre[i]);
                assert(op_matches(post[i].1, d));
            }
            assert(post[pre.len() as int] == (oc, op));
        } else {
            let i = choose|i: int|
                0 <= i < post.len() && (#[trigger] post[i]).0 == Occur::Must && !op_matches(
                    post[i].1,
                    d,
                );
            if i < pre.len() {
                assert(pre[i] == post[i]);
            }
        }
    }
    assert forall|d: DocModel| #[trigger] mustnots_clean(post, d) == (mustnots_clean(pre, d) && (oc
        == Occur::MustNot ==> !op_matches(op, d))) by {
        if mustnots_clean(post, d) {
            assert forall|i: int|
                0 <= i < pre.len() && (#[trigger] pre[i]).0 == Occur::MustNot implies !op_matches(
                pre[i].1,
                d,
            ) by {
                assert(post[i] == pre[i]);
                assert(!op_matches(post[i].1, d));
            }
            assert(post[pre.len() as int] == (oc, op));
        } else {
            let i = choose|i: int|
                0 <= i < post.len() && (#[trigger] post[i]).0 == Occur::MustNot && op_matches(
                    post[i].1,
                    d,
                );
            if i < pre.len() {
                assert(pre[i] == post[i]);
            }
        }
    }
    if has_must(pre) {
        let i = choose|i: int| 0 <= i < pre.len() && (#[trigger] pre[i]).0 == Occur::Must;
        assert(post[i] == pre[i]);
        assert(has_must(post));
    }
    if oc == Occur::Must {
        assert(post[pre.len() as int].0 == Occur::Must);
        assert(has_must(post));
    }
    if has_must(post) && !has_must(pre) && oc != Occur::Must {
        let i = choose|i: int| 0 <= i < post.len() && (#[trigger] post[i]).0 == Occur::Must;
        if i < pre.len() {
            assert(pre[i] == post[i]);
        }
        assert(false);
    }
}

/// Position `i` of the capped term list gates positively: unnegated
/// and not pruned.
pub open spec fn term_gates(ts: Seq<TermModel>, i: int) -> bool {
    !ts[i].negated && !spec_term_pruned(ts[i])
}

/// The compiled base query of the capped terms with the safe-search
/// clause: its matches are exactly `spec_query_matches`.
fn compile_base(terms: &Vec<Term>, safe: bool, st: &rust_stemmers::Stemmer) -> (r: Operator)
    requires
        crate::stem::is_english(*st),
    ensures
        op_wf(r),
        forall|d: DocModel| #[trigger] op_matches(r, d) == spec_query_matches(
            terms_model(terms@),
            safe,
            d,
        ),
{
    let ghost gt = terms_model(terms@);
    let mut cs: Vec<(Occur, Operator)> = Vec::new();
    let mut i: usize = 0;
    while i < terms.len()
        invariant
            crate::stem::is_english(*st),
            i <= terms@.len(),
            gt == terms_model(terms@),
            gt.len() == terms@.len(),
            crate::optic::clauses_wf(cs@),
            forall|k: int| 0 <= k < cs@.len() ==> (#[trigger] cs@[k]).0 != Occur::Should,
            has_must(cs@) == (exists|k: int| 0 <= k < i && #[trigger] term_gates(gt, k)),
            forall|d: DocModel| #[trigger] musts_match(cs@, d) == (forall|k: int|
                0 <= k < i && #[trigger] term_gates(gt, k) ==> spec_term_clause(
                    gt[k],
                    spec_compounds(gt, k),
                    d,
                )),
            forall|d: DocModel| #[trigger] mustnots_clean(cs@, d) == (forall|k: int|
                0 <= k < i && (#[trigger] gt[k]).negated && !spec_term_pruned(gt[k])
                    ==> !spec_term_clause(gt[k], spec_compounds(gt, k), d)),
        decreases terms@.len() - i,
    {
        let comps = build_compounds(terms, i);
        proof {
            assert(gt[i as int] == terms@[i as int]@);
        }
        let ghost pre = cs@;
        match compile_term(&terms[i], &comps, st) {
            Some((oc, op)) => {
                let ghost gop = op;
                cs.push((oc, op));
                proof {
                    lemma_push_gate(pre, oc, gop, cs@);
                    assert(term_gates(gt, i as int) == (oc == Occur::Must));
                    assert(has_must(cs@) == (exists|k: int|
                        0 <= k < i + 1 && #[trigger] term_gates(gt, k))) by {
                        if has_must(cs@) {
                            if oc == Occur::Must {
                                assert(term_gates(gt, i as int));
                            } else {
                                let k = choose|k: int|
                                    0 <= k < i && #[trigger] term_gates(gt, k);
                                assert(term_gates(gt, k));
                            }
                        }
                        if exists|k: int| 0 <= k < i + 1 && #[trigger] term_gates(gt, k) {
                            let k = choose|k: int| 0 <= k < i + 1 && #[trigger] term_gates(gt, k);
                            if k < i {
                                assert(has_must(pre));
                            } else {
                                assert(oc == Occur::Must);
                            }
                        }
                    }
                    assert forall|d: DocModel| #[trigger] musts_match(cs@, d) == (forall|k: int|
                        0 <= k < i + 1 && #[trigger] term_gates(gt, k) ==> spec_term_clause(
                            gt[k],
                            spec_compounds(gt, k),
                            d,
                        )) by {
                        if musts_match(cs@, d) {
                            assert forall|k: int|
                                0 <= k < i + 1 && #[trigger] term_gates(gt, k)
                                    implies spec_term_clause(gt[k], spec_compounds(gt, k), d) by {
                                if k == i {
                                    assert(oc == Occur::Must);
                                    assert(op_matches(gop, d));
                                }
                            }
                        } else {
                            if (forall|k: int|
                                0 <= k < i + 1 && #[trigger] term_gates(gt, k)
                                    ==> spec_term_clause(gt[k], spec_compounds(gt, k), d)) {
                                if oc == Occur::Must {
                                    assert(term_gates(gt, i as int));
                                    assert(spec_term_clause(
                                        gt[i as int],
                                        spec_compounds(gt, i as int),
                                        d,
                                    ));
                                }
                                assert(false);
                            }
                        }
                    }
                    assert forall|d: DocModel| #[trigger] mustnots_clean(cs@, d) == (forall|k: int|
                        0 <= k < i + 1 && (#[trigger] gt[k]).negated && !spec_term_pruned(gt[k])
                            ==> !spec_term_clause(gt[k], spec_compounds(gt, k), d)) by {
                        if mustnots_clean(cs@, d) {
                            assert forall|k: int|
                                0 <= k < i + 1 && (#[trigger] gt[k]).negated && !spec_term_pruned(
                                    gt[k],
                                ) implies !spec_term_clause(gt[k], spec_compounds(gt, k), d) by {
                                if k == i {
                                    assert(oc == Occur::MustNot);
                                    assert(!op_matches(gop, d));
                                }
                            }
                        } else {
                            if (forall|k: int|
                                0 <= k < i + 1 && (#[trigger] gt[k]).negated && !spec_term_pruned(
                                    gt[k],
                                ) ==> !spec_term_clause(gt[k], spec_compounds(gt, k), d)) {
                                if oc == Occur::MustNot {
                                    assert((gt[i as int]).negated);
                                    assert(!spec_term_clause(
                                        gt[i as int],
                                        spec_compounds(gt, i as int),
                                        d,
                                    ));
                                }
                                assert(false);
                            }
                        }
                    }
                }
            },
            None => {
                proof {
                    assert(spec_term_pruned(gt[i as int]));
                    assert(!term_gates(gt, i as int));
                    assert(has_must(cs@) == (exists|k: int|
                        0 <= k < i + 1 && #[trigger] term_gates(gt, k))) by {
                        if exists|k: int| 0 <= k < i + 1 && #[trigger] term_gates(gt, k) {
                            let k = choose|k: int| 0 <= k < i + 1 && #[trigger] term_gates(gt, k);
                            assert(k < i);
                        }
                    }
                }
            },
        }
        i = i + 1;
    }
    let ghost pre_safety = cs@;
    if safe {
        cs.push((Occur::MustNot, Operator::SafetyNsfw));
        proof {
            lemma_push_gate(pre_safety, Occur::MustNot, Operator::SafetyNsfw, cs@);
        }
    }
    let ghost gcs = cs@;
    let r = Operator::Bool(cs);
    proof {
        assert(r->Bool_0@ == gcs);
        assert forall|k: int| 0 <= k < r->Bool_0@.len() implies op_wf(
            (#[trigger] r->Bool_0@[k]).1,
        ) by {
            assert(crate::optic::clauses_wf(gcs));
        }
        assert(op_wf(r));
        assert forall|d: DocModel| #[trigger] op_matches(r, d) == spec_query_matches(
            gt,
            safe,
            d,
        ) by {
            assert(op_matches(r, d) == (gcs.len() > 0 && musts_match(gcs, d) && mustnots_clean(
                gcs,
                d,
            ) && has_must(gcs))) by {
                if gcs.len() > 0 && musts_match(gcs, d) && mustnots_clean(gcs, d) && has_must(
                    gcs,
                ) {
                    assert(op_matches(r, d));
                }
                if op_matches(r, d) {
                    assert(musts_match(gcs, d));
                    assert(mustnots_clean(gcs, d));
                    assert(has_must(gcs) || (exists|i: int|
                        0 <= i < gcs.len() && gcs[i].0 == Occur::Should && op_matches(
                            #[trigger] gcs[i].1,
                            d,
                        )));
                    if !has_must(gcs) {
                        let i = choose|i: int|
                            0 <= i < gcs.len() && gcs[i].0 == Occur::Should && op_matches(
                                #[trigger] gcs[i].1,
                                d,
                            );
                        assert(mustnots_clean(pre_safety, d) ==> true);
                        if i < pre_safety.len() {
                            assert(gcs[i] == pre_safety[i]);
                            assert(false);
                        } else {
                            assert(gcs[i].0 == Occur::MustNot);
                            assert(false);
                        }
                    }
                }
            }
            if has_must(gcs) {
                assert(gcs.len() > 0);
            }
            assert(musts_match(pre_safety, d) == (forall|k: int|
                0 <= k < gt.len() && #[trigger] term_gates(gt, k) ==> spec_term_clause(
                    gt[k],
                    spec_compounds(gt, k),
                    d,
                )));
            assert(mustnots_clean(pre_safety, d) == (forall|k: int|
                0 <= k < gt.len() && (#[trigger] gt[k]).negated && !spec_term_pruned(gt[k])
                    ==> !spec_term_clause(gt[k], spec_compounds(gt, k), d)));
            assert(has_must(pre_safety) == (exists|k: int|
                0 <= k < gt.len() && #[trigger] term_gates(gt, k)));
            if safe {
                assert(musts_match(gcs, d) == musts_match(pre_safety, d));
                assert(mustnots_clean(gcs, d) == (mustnots_clean(pre_safety, d)
                    && d.safety_classification != Some(Label::Nsfw)));
                assert(has_must(gcs) == has_must(pre_safety));
            } else {
                assert(gcs == pre_safety);
            }
            assert(spec_query_matches(gt, safe, d) == ((exists|k: int|
                0 <= k < gt.len() && #[trigger] term_gates(gt, k)) && musts_match(pre_safety, d)
                && mustnots_clean(pre_safety, d) && (safe ==> d.safety_classification != Some(
                Label::Nsfw,
            )))) by {
                assert forall|k: int|
                    0 <= k < gt.len() implies (term_gates(gt, k) == (!(#[trigger] gt[k]).negated
                        && !spec_term_pruned(gt[k]))) by {}
            }
        }
    }
    r
}

/// A root clause followed by an optic's clauses scores the root's own
/// score extended by the optic's fold.
proof fn lemma_bool_score_prepend(
    v: Vec<(Occur, Operator)>,
    cls: Seq<(Occur, Operator)>,
    root: Operator,
    d: DocModel,
    n: int,
)
    requires
        v@ =~= seq![(Occur::Must, root)] + cls,
        0 <= n <= cls.len(),
    ensures
        crate::operator::bool_score_upto(v, d, n + 1) == crate::optic::clauses_score_from(
            cls,
            d,
            n,
            (if op_matches(root, d) {
                crate::operator::sat_add(0, crate::operator::op_score(root, d))
            } else {
                0int
            }),
        ),
    decreases n,
{
    let ghost r0 = if op_matches(root, d) {
        crate::operator::sat_add(0, crate::operator::op_score(root, d))
    } else {
        0int
    };
    if n == 0 {
        assert(v@[0] == (Occur::Must, root));
        assert(crate::operator::bool_score_upto(v, d, 0) == 0);
        assert(crate::operator::bool_score_upto(v, d, 1) == r0);
        assert(crate::optic::clauses_score_from(cls, d, 0, r0) == r0);
    } else {
        lemma_bool_score_prepend(v, cls, root, d, n - 1);
        assert(v@[n] == cls[n - 1]);
        assert(crate::operator::bool_score_upto(v, d, n + 1) == (if v@[n].0 != Occur::MustNot
            && op_matches(v@[n].1, d) {
            crate::operator::sat_add(
                crate::operator::bool_score_upto(v, d, n),
                crate::operator::op_score(v@[n].1, d),
            )
        } else {
            crate::operator::bool_score_upto(v, d, n)
        }));
        assert(crate::optic::clauses_score_from(cls, d, n, r0) == (if cls[n - 1].0
            != Occur::MustNot && op_matches(cls[n - 1].1, d) {
            crate::operator::sat_add(
                crate::optic::clauses_score_from(cls, d, n - 1, r0),
                crate::operator::op_score(cls[n - 1].1, d),
            )
        } else {
            crate::optic::clauses_score_from(cls, d, n - 1, r0)
        }));
    }
}

/// Grafts one optic's clauses under the root: the previous tree must
/// hold, and the optic must let the document through; a document it
/// lets through scores the previous tree's score extended by the
/// optic's boosts.
fn attach_optic(root: Operator, o: &Optic) -> (r: Operator)
    requires
        op_wf(root),
    ensures
        op_wf(r),
        forall|d: DocModel| #[trigger] op_matches(r, d) == (op_matches(root, d)
            && spec_optic_allows(*o, d)),
        forall|d: DocModel|
            #[trigger] op_matches(r, d) ==> crate::operator::op_score(r, d)
                == crate::optic::spec_optic_score(
                *o,
                d,
                crate::operator::op_score(root, d),
            ),
{
    let ghost groot = root;
    let mut cls = o.compile();
    let ghost gcls = cls@;
    let mut cs: Vec<(Occur, Operator)> = Vec::new();
    cs.push((Occur::Must, root));
    cs.append(&mut cls);
    let ghost gcs = cs@;
    let ghost gcsv = cs;
    let r = Operator::Bool(cs);
    proof {
        assert(gcs =~= seq![(Occur::Must, groot)] + gcls);
        assert(r->Bool_0@ == gcs);
        assert forall|k: int| 0 <= k < gcs.len() implies op_wf((#[trigger] gcs[k]).1) by {
            if k > 0 {
                assert(gcs[k] == gcls[k - 1]);
                assert(crate::optic::clauses_wf(gcls));
                assert(op_wf(gcls[k - 1].1));
            }
        }
        assert(op_wf(r));
        assert forall|d: DocModel| #[trigger] op_matches(r, d) == (op_matches(groot, d)
            && spec_optic_allows(*o, d)) by {
            assert(crate::optic::clauses_allow(gcls, d) == spec_optic_allows(*o, d));
            if op_matches(groot, d) && crate::optic::clauses_allow(gcls, d) {
                assert forall|k: int|
                    0 <= k < gcs.len() && (#[trigger] gcs[k]).0 == Occur::Must implies op_matches(
                    gcs[k].1,
                    d,
                ) by {
                    if k > 0 {
                        assert(gcs[k] == gcls[k - 1]);
                    }
                }
                assert forall|k: int|
                    0 <= k < gcs.len() && (#[trigger] gcs[k]).0 == Occur::MustNot
                    implies !op_matches(gcs[k].1, d) by {
                    assert(gcs[k] == gcls[k - 1]);
                }
                assert(gcs[0].0 == Occur::Must);
                assert(op_matches(r, d));
            }
            if op_matches(r, d) {
                assert(gcs[0] == (Occur::Must, groot));
                assert(op_matches(groot, d));
                assert forall|k: int|
                    0 <= k < gcls.len() && (#[trigger] gcls[k]).0 == Occur::Must
                    implies op_matches(gcls[k].1, d) by {
                    assert(gcs[k + 1] == gcls[k]);
                    assert(op_matches(gcs[k + 1].1, d));
                }
                assert forall|k: int|
                    0 <= k < gcls.len() && (#[trigger] gcls[k]).0 == Occur::MustNot
                    implies !op_matches(gcls[k].1, d) by {
                    assert(gcs[k + 1] == gcls[k]);
                    assert(!op_matches(gcs[k + 1].1, d));
                }
            }
        }
        assert forall|d: DocModel| #[trigger] op_matches(r, d) implies crate::operator::op_score(
            r,
            d,
        ) == crate::optic::spec_optic_score(*o, d, crate::operator::op_score(groot, d)) by {
            assert(op_matches(groot, d));
            lemma_bool_score_prepend(gcsv, gcls, groot, d, gcls.len() as int);
            assert(crate::operator::op_score(r, d) == crate::operator::bool_score_upto(
                gcsv,
                d,
                gcls.len() as int + 1,
            ));
            crate::operator::lemma_op_score_range(groot, d);
            assert(crate::operator::sat_add(0, crate::operator::op_score(groot, d))
                == crate::operator::op_score(groot, d));
            assert(crate::optic::clauses_score_from(
                gcls,
                d,
                gcls.len() as int,
                crate::operator::op_score(groot, d),
            ) == crate::optic::spec_optic_score(*o, d, crate::operator::op_score(groot, d)));
        }
    }
    r
}

/// The simple textual terms of a term list: the text of every unnegated
/// plain term, and the whitespace pieces of every phrase, in order.
pub open spec fn spec_simple_terms(ts: Seq<TermModel>) -> Seq<Seq<u8>>
    decreases ts.len(),
{
    if ts.len() == 0 {
        Seq::empty()
    } else {
        spec_simple_terms(ts.drop_last()) + (if ts.last().kind == crate::term::TermKind::Simple
            && !ts.last().negated {
            seq![ts.last().text]
        } else if ts.last().kind == crate::term::TermKind::Phrase {
            spec_ws_split(ts.last().text)
        } else {
            Seq::<Seq<u8>>::empty()
        })
    }
}

/// Relies on String::from_utf8_lossy: valid input comes back byte for
/// byte.
#[verifier::external_body]
pub(crate) fn bytes_to_string(v: &Vec<u8>) -> (r: String)
    ensures
        vstd::utf8::valid_utf8(v@) ==> encode_utf8(r@) == v@,
{
    String::from_utf8_lossy(v.as_slice()).into_owned()
}

/// The byte views of a string list.
pub open spec fn strings_bytes(ss: Seq<String>) -> Seq<Seq<u8>> {
    ss.map_values(|s: String| encode_utf8(s@))
}

/// Builds the simple textual terms of the capped list, for snippet
/// highlighting.
fn build_simple_terms(terms: &Vec<Term>) -> (r: Vec<String>)
    ensures
        r@.len() == spec_simple_terms(terms_model(terms@)).len(),
        forall|k: int|
            0 <= k < r@.len() && vstd::utf8::valid_utf8(
                spec_simple_terms(terms_model(terms@))[k],
            ) ==> encode_utf8((#[trigger] r@[k])@) == spec_simple_terms(terms_model(terms@))[k],
{
    let ghost gt = terms_model(terms@);
    let mut out: Vec<String> = Vec::new();
    let mut i: usize = 0;
    while i < terms.len()
        invariant
            i <= terms@.len(),
            gt == terms_model(terms@),
            gt.len() == terms@.len(),
            out@.len() == spec_simple_terms(gt.take(i as int)).len(),
            forall|k: int|
                0 <= k < out@.len() && vstd::utf8::valid_utf8(
                    spec_simple_terms(gt.take(i as int))[k],
                ) ==> encode_utf8((#[trigger] out@[k])@) == spec_simple_terms(gt.take(i as int))[k],
        decreases terms@.len() - i,
    {
        proof {
            assert(gt.take(i + 1).drop_last() =~= gt.take(i as int));
            assert(gt.take(i + 1).last() == gt[i as int]);
            assert(gt[i as int] == terms@[i as int]@);
        }
        let ghost pre = out@;
        let ghost pre_spec = spec_simple_terms(gt.take(i as int));
        let t = &terms[i];
        if matches!(t.kind, crate::term::TermKind::Simple) && !t.negated {
            out.push(bytes_to_string(&t.text));
        } else if matches!(t.kind, crate::term::TermKind::Phrase) {
            let pieces = ws_split(t.text.as_slice());
            let ghost gp = toks_view(pieces);
            let mut j: usize = 0;
            let mut pieces = pieces;
            while pieces.len() > 0
                invariant
                    out@.len() == pre.len() + gp.len() - pieces@.len(),
                    pieces@.len() <= gp.len(),
                    forall|q: int|
                        0 <= q < pre.len() ==> #[trigger] out@[q] == pre[q],
                    forall|q: int|
                        pre.len() <= q < out@.len() && vstd::utf8::valid_utf8(
                            gp[q - pre.len()],
                        ) ==> encode_utf8((#[trigger] out@[q])@) == gp[q - pre.len()],
                    gp.len() - pieces@.len() >= 0,
                    pieces@.map_values(|p: Vec<u8>| p@) =~= gp.subrange(
                        gp.len() - pieces@.len(),
                        gp.len() as int,
                    ),
                decreases pieces@.len(),
            {
                let ghost pk = gp.len() - pieces@.len();
                let ghost pre_pieces = pieces@;
                let ghost pre_view = pieces@.map_values(|p: Vec<u8>| p@);
                let piece = pieces.remove(0);
                proof {
                    assert(pre_view[0] == pre_pieces[0]@);
                    assert(piece@ == gp[pk]);
                    assert forall|m: int|
                        0 <= m < pieces@.len() implies pieces@.map_values(|p: Vec<u8>| p@)[m]
                        == #[trigger] gp.subrange(pk + 1, gp.len() as int)[m] by {
                        assert(gp.subrange(pk + 1, gp.len() as int)[m] == gp[pk + 1 + m]);
                        assert(pieces@[m] == pre_pieces[m + 1]);
                        assert(pieces@.map_values(|p: Vec<u8>| p@)[m] == pieces@[m]@);
                        assert(pre_view[m + 1] == pre_pieces[m + 1]@);
                        assert(pre_view[m + 1] == gp.subrange(pk, gp.len() as int)[m + 1]);
                    }
                    assert(pieces@.map_values(|p: Vec<u8>| p@) =~= gp.subrange(
                        pk + 1,
                        gp.len() as int,
                    ));
                }
                out.push(bytes_to_string(&piece));
            }
        }
        proof {
            assert(spec_simple_terms(gt.take(i + 1)).len() == pre_spec.len() + (
            if gt[i as int].kind == crate::term::TermKind::Simple && !gt[i as int].negated {
                1int
            } else if gt[i as int].kind == crate::term::TermKind::Phrase {
                spec_ws_split(gt[i as int].text).len() as int
            } else {
                0int
            }));
            assert forall|k: int|
                0 <= k < out@.len() && vstd::utf8::valid_utf8(
                    spec_simple_terms(gt.take(i + 1))[k],
                ) implies encode_utf8((#[trigger] out@[k])@) == spec_simple_terms(
                gt.take(i + 1),
            )[k] by {
                if k < pre_spec.len() {
                    assert(out@[k] == pre[k]);
                    assert(spec_simple_terms(gt.take(i + 1))[k] == pre_spec[k]);
                } else {
                    assert(spec_simple_terms(gt.take(i + 1))[k] == (if gt[i as int].kind
                        == crate::term::TermKind::Simple && !gt[i as int].negated {
                        seq![gt[i as int].text]
                    } else {
                        spec_ws_split(gt[i as int].text)
                    })[k - pre_spec.len()]);
                }
            }
        }
        i = i + 1;
    }
    proof {
        assert(gt.take(gt.len() as int) =~= gt);
    }
    out
}

/// The liked hosts of the optics, joined setwise in order.
pub open spec fn spec_all_liked(os: Seq<Optic>) -> Seq<String>
    decreases os.len(),
{
    if os.len() == 0 {
        Seq::empty()
    } else {
        crate::optic::spec_union_hosts(
            spec_all_liked(os.drop_last()),
            os.last().host_rankings.liked@,
        )
    }
}

/// The disliked hosts of the optics, joined setwise in order.
pub open spec fn spec_all_disliked(os: Seq<Optic>) -> Seq<String>
    decreases os.len(),
{
    if os.len() == 0 {
        Seq::empty()
    } else {
        crate::optic::spec_union_hosts(
            spec_all_disliked(os.drop_last()),
            os.last().host_rankings.disliked@,
        )
    }
}

/// The blocked hosts of the optics, joined setwise in order.
pub open spec fn spec_all_blocked(os: Seq<Optic>) -> Seq<String>
    decreases os.len(),
{
    if os.len() == 0 {
        Seq::empty()
    } else {
        crate::optic::spec_union_hosts(
            spec_all_blocked(os.drop_last()),
            os.last().host_rankings.blocked@,
        )
    }
}

/// Copies a string list.
fn clone_strings(v: &Vec<String>) -> (r: Vec<String>)
    ensures
        r@ == v@,
{
    let mut out: Vec<String> = Vec::new();
    let mut i: usize = 0;
    while i < v.len()
        invariant
            i <= v@.len(),
            out@ =~= v@.take(i as int),
        decreases v@.len() - i,
    {
        out.push(v[i].clone());
        proof {
            assert(out@ =~= v@.take(i + 1));
        }
        i = i + 1;
    }
    proof {
        assert(v@.take(v@.len() as int) =~= v@);
    }
    out
}

/// The saturating product of page size and page number: the offset of
/// the first wanted result.
pub open spec fn spec_offset(num_results: usize, page: usize) -> int {
    if num_results * page > usize::MAX {
        usize::MAX as int
    } else {
        num_results * page
    }
}

/// The score the applied optics fold onto the base tree's score,
/// optic by optic, in application order.
pub open spec fn spec_optics_score_fold(os: Seq<Optic>, n: int, d: DocModel, acc: int) -> int
    decreases n,
{
    if n <= 0 {
        acc
    } else {
        crate::optic::spec_optic_score(os[n - 1], d, spec_optics_score_fold(os, n - 1, d, acc))
    }
}

/// The compiled form of a search request.
pub struct Query {
    pub terms: Vec<Term>,
    pub simple_terms_text: Vec<String>,
    pub root: Operator,
    pub host_rankings: HostRankings,
    pub offset: usize,
    pub region: Option<u64>,
    pub optics: Vec<Optic>,
    pub top_n: usize,
    pub count_results: bool,
    pub safe: bool,
    pub base: Ghost<Operator>,
}

impl Query {
    /// The compiled tree gates exactly as the capped terms, safe-search
    /// flag and applied optics say; a document it accepts scores the
    /// base text tree's score extended, optic by optic, with the
    /// boosts and downranks of the matching keeper rules.
    pub open spec fn inv(self) -> bool {
        &&& op_wf(self.root)
        &&& forall|d: DocModel|
            #[trigger] op_matches(self.root, d) == (spec_query_matches(
                terms_model(self.terms@),
                self.safe,
                d,
            ) && (forall|k: int|
                0 <= k < self.optics@.len() ==> spec_optic_allows(
                    #[trigger] self.optics@[k],
                    d,
                )))
        &&& forall|d: DocModel| #[trigger] op_matches(self.root, d) ==> op_matches(self.base@, d)
        &&& forall|d: DocModel|
            #[trigger] op_matches(self.root, d) ==> crate::operator::op_score(self.root, d)
                == spec_optics_score_fold(
                self.optics@,
                self.optics@.len() as int,
                d,
                crate::operator::op_score(self.base@, d),
            )
    }

    /// The capped terms of the query.
    pub open spec fn spec_terms(self) -> Seq<TermModel> {
        terms_model(self.terms@)
    }

    /// The applied optics.
    pub open spec fn spec_optics(self) -> Seq<Optic> {
        self.optics@
    }

    /// The safe-search flag the query was compiled with.
    pub open spec fn spec_safe(self) -> bool {
        self.safe
    }

    /// The compiled root operator.
    pub open spec fn spec_root(self) -> Operator {
        self.root
    }

    /// Compiles a search request: parses the query string, caps exact
    /// duplicates, compiles the terms and the safe-search clause, and
    /// grafts the host-ranking and caller optics onto the tree.
    pub fn parse(sq: SearchQuery) -> (q: Query)
        ensures
            q.inv(),
            q.spec_terms() == spec_dedup(
                spec_parse_terms(encode_utf8(sq.query@)),
            ),
            q.spec_safe() == sq.safe_search,
            q.spec_optics().len() == (if sq.host_rankings is Some {
                1int
            } else {
                0int
            }) + (if sq.optic is Some {
                1int
            } else {
                0int
            }),
            sq.host_rankings is Some ==> q.spec_optics()[0].host_rankings
                == sq.host_rankings->Some_0 && q.spec_optics()[0].rules@.len() == 0
                && !q.spec_optics()[0].discard_non_matching,
            sq.optic is Some ==> q.spec_optics().last() == sq.optic->Some_0,
            q.spec_offset() == spec_offset(sq.num_results, sq.page),
            q.spec_top_n() == sq.num_results,
            q.spec_count_results() == sq.count_results,
            q.spec_region() == sq.selected_region,
            q.spec_host_rankings().liked@ == spec_all_liked(q.spec_optics()),
            q.spec_host_rankings().disliked@ == spec_all_disliked(q.spec_optics()),
            q.spec_host_rankings().blocked@ == spec_all_blocked(q.spec_optics()),
            q.spec_simple_terms_text()@.len() == spec_simple_terms(q.spec_terms()).len(),
            forall|k: int|
                0 <= k < q.spec_simple_terms_text()@.len() && vstd::utf8::valid_utf8(
                    spec_simple_terms(q.spec_terms())[k],
                ) ==> encode_utf8((#[trigger] q.spec_simple_terms_text()@[k])@)
                    == spec_simple_terms(q.spec_terms())[k],
    {
        let st = crate::stem::english_stemmer();
        let parsed = parse_terms(sq.query.as_str().as_bytes());
        let terms = dedup_terms(parsed);
        let base = compile_base(&terms, sq.safe_search, &st);
        let mut optics: Vec<Optic> = Vec::new();
        match sq.host_rankings {
            Some(hr) => {
                optics.push(hr.into_optic());
            },
            None => {},
        }
        match sq.optic {
            Some(o) => {
                optics.push(o);
            },
            None => {},
        }
        let ghost gbase = base;
        let ghost gterms = terms_model(terms@);
        let mut root = base;
        let mut oi: usize = 0;
        while oi < optics.len()
            invariant
                oi <= optics@.len(),
                op_wf(root),
                forall|d: DocModel|
                    #[trigger] op_matches(root, d) == (op_matches(gbase, d) && (forall|k: int|
                        0 <= k < oi ==> spec_optic_allows(#[trigger] optics@[k], d))),
                forall|d: DocModel|
                    #[trigger] op_matches(root, d) ==> crate::operator::op_score(root, d)
                        == spec_optics_score_fold(
                        optics@,
                        oi as int,
                        d,
                        crate::operator::op_score(gbase, d),
                    ),
            decreases optics@.len() - oi,
        {
            let ghost pre_root = root;
            root = attach_optic(root, &optics[oi]);
            proof {
                assert forall|d: DocModel|
                    #[trigger] op_matches(root, d) == (op_matches(gbase, d) && (forall|k: int|
                        0 <= k < oi + 1 ==> spec_optic_allows(#[trigger] optics@[k], d))) by {
                    assert(op_matches(root, d) == (op_matches(pre_root, d) && spec_optic_allows(
                        optics@[oi as int],
                        d,
                    )));
                    if op_matches(root, d) {
                        assert forall|k: int|
                            0 <= k < oi + 1 implies spec_optic_allows(
                            #[trigger] optics@[k],
                            d,
                        ) by {
                            if k < oi {
                                assert(op_matches(pre_root, d));
                            }
                        }
                    }
                }
                assert forall|d: DocModel|
                    #[trigger] op_matches(root, d) implies crate::operator::op_score(root, d)
                    == spec_optics_score_fold(
                    optics@,
                    oi + 1,
                    d,
                    crate::operator::op_score(gbase, d),
                ) by {
                    assert(op_matches(pre_root, d));
                    assert(crate::operator::op_score(root, d) == crate::optic::spec_optic_score(
                        optics@[oi as int],
                        d,
                        crate::operator::op_score(pre_root, d),
                    ));
                }
            }
            oi = oi + 1;
        }
        let mut hr = HostRankings::new();
        let mut hi: usize = 0;
        while hi < optics.len()
            invariant
                hi <= optics@.len(),
                hr.liked@ =~= spec_all_liked(optics@.take(hi as int)),
                hr.disliked@ =~= spec_all_disliked(optics@.take(hi as int)),
                hr.blocked@ =~= spec_all_blocked(optics@.take(hi as int)),
            decreases optics@.len() - hi,
        {
            proof {
                assert(optics@.take(hi + 1).drop_last() =~= optics@.take(hi as int));
                assert(optics@.take(hi + 1).last() == optics@[hi as int]);
            }
            let other = HostRankings {
                liked: clone_strings(&optics[hi].host_rankings.liked),
                disliked: clone_strings(&optics[hi].host_rankings.disliked),
                blocked: clone_strings(&optics[hi].host_rankings.blocked),
            };
            hr.merge_into(other);
            hi = hi + 1;
        }
        proof {
            assert(optics@.take(optics@.len() as int) =~= optics@);
        }
        proof {
            assert forall|d: DocModel|
                #[trigger] op_matches(root, d) == (spec_query_matches(
                    gterms,
                    sq.safe_search,
                    d,
                ) && (forall|k: int|
                    0 <= k < optics@.len() ==> spec_optic_allows(
                        #[trigger] optics@[k],
                        d,
                    ))) by {
                assert(op_matches(gbase, d) == spec_query_matches(gterms, sq.safe_search, d));
            }
        }
        let simple_terms_text = build_simple_terms(&terms);
        let offset = match sq.num_results.checked_mul(sq.page) {
            Some(v) => v,
            None => usize::MAX,
        };
        let ghost groot = root;
        let ghost goptics = optics@;
        let q = Query {
            terms,
            simple_terms_text,
            root,
            host_rankings: hr,
            offset,
            region: sq.selected_region,
            optics,
            top_n: sq.num_results,
            count_results: sq.count_results,
            safe: sq.safe_search,
            base: Ghost(gbase),
        };
        proof {
            assert(q.root == groot);
            assert(q.base@ == gbase);
            assert(terms_model(q.terms@) == gterms);
            assert(q.optics@ == goptics);
            assert forall|d: DocModel|
                #[trigger] op_matches(q.root, d) == (spec_query_matches(
                    terms_model(q.terms@),
                    q.safe,
                    d,
                ) && (forall|k: int|
                    0 <= k < q.optics@.len() ==> spec_optic_allows(
                        #[trigger] q.optics@[k],
                        d,
                    ))) by {
                assert(op_matches(groot, d) == (spec_query_matches(gterms, sq.safe_search, d) && (
                forall|k: int|
                    0 <= k < goptics.len() ==> spec_optic_allows(#[trigger] goptics[k], d))));
            }
            assert forall|d: DocModel|
                #[trigger] op_matches(q.root, d) implies op_matches(q.base@, d)
                && crate::operator::op_score(q.root, d) == spec_optics_score_fold(
                q.optics@,
                q.optics@.len() as int,
                d,
                crate::operator::op_score(q.base@, d),
            ) by {
                assert(op_matches(groot, d));
                assert(op_matches(gbase, d));
                assert(crate::operator::op_score(groot, d) == spec_optics_score_fold(
                    goptics,
                    goptics.len() as int,
                    d,
                    crate::operator::op_score(gbase, d),
                ));
            }
            assert(q.inv());
        }
        q
    }

    pub open spec fn spec_offset(self) -> int {
        self.offset as int
    }

    pub open spec fn spec_top_n(self) -> int {
        self.top_n as int
    }

    pub open spec fn spec_count_results(self) -> bool {
        self.count_results
    }

    pub open spec fn spec_region(self) -> Option<u64> {
        self.region
    }

    pub open spec fn spec_host_rankings(self) -> HostRankings {
        self.host_rankings
    }

    pub open spec fn spec_simple_terms_text(self) -> Vec<String> {
        self.simple_terms_text
    }

    /// Whether counting exact matches was asked for.
    pub fn count_results(&self) -> (r: bool)
        ensures
            r == self.spec_count_results(),
    {
        self.count_results
    }

    /// The simple textual terms, for snippet highlighting.
    pub fn simple_terms(&self) -> (r: &Vec<String>)
        ensures
            r == self.spec_simple_terms_text(),
    {
        &self.simple_terms_text
    }

    /// The capped terms.
    pub fn terms(&self) -> (r: &Vec<Term>)
        ensures
            terms_model(r@) == self.spec_terms(),
    {
        &self.terms
    }

    /// The applied optics.
    pub fn optics(&self) -> (r: &Vec<Optic>)
        ensures
            r@ == self.spec_optics(),
    {
        &self.optics
    }

    /// Whether no term at all was parsed.
    pub fn is_empty(&self) -> (r: bool)
        ensures
            r == (self.spec_terms().len() == 0),
    {
        self.terms.len() == 0
    }

    /// The wanted page size.
    pub fn num_results(&self) -> (r: usize)
        ensures
            r as int == self.spec_top_n(),
    {
        self.top_n
    }

    /// The offset of the first wanted result.
    pub fn offset(&self) -> (r: usize)
        ensures
            r as int == self.spec_offset(),
    {
        self.offset
    }

    /// The region filter, where one was selected.
    pub fn region(&self) -> (r: Option<u64>)
        ensures
            r == self.spec_region(),
    {
        self.region
    }

    /// The host rankings merged over every applied optic.
    pub fn host_rankings(&self) -> (r: &HostRankings)
        ensures
            r == self.spec_host_rankings(),
    {
        &self.host_rankings
    }

    /// The compiled root operator.
    pub fn root(&self) -> (r: &Operator)
        ensures
            r == self.spec_root(),
    {
        &self.root
    }

    /// The coefficient overrides merged over every applied optic, or
    /// nothing where no optic was applied.
    pub fn signal_coefficients(&self) -> (r: Option<SignalCoefficient>)
        ensures
            r is Some <==> self.spec_optics().len() > 0,
            r is Some ==> r->Some_0 == spec_coeffs_fold(
                self.spec_optics(),
                self.spec_optics().len() as int,
            ),
    {
        if self.optics.len() == 0 {
            return None;
        }
        let mut acc = SignalCoefficient::new();
        let mut i: usize = 0;
        while i < self.optics.len()
            invariant
                i <= self.optics@.len(),
                acc == spec_coeffs_fold(self.optics@, i as int),
            decreases self.optics@.len() - i,
        {
            let c = SignalCoefficient::from_optic(&self.optics[i]);
            acc.merge_into(c);
            proof {
                assert(acc == spec_coeffs_fold(self.optics@, i + 1));
            }
            i = i + 1;
        }
        Some(acc)
    }
}

/// The coefficient overrides of the first `n` optics, merged in order.
pub open spec fn spec_coeffs_fold(os: Seq<Optic>, n: int) -> SignalCoefficient
    decreases n,
{
    if n <= 0 {
        SignalCoefficient {
            host_centrality: None,
            page_centrality: None,
            pre_computed_score: None,
        }
    } else {
        let p = spec_coeffs_fold(os, n - 1);
        let c = spec_optic_coeffs(os[n - 1]);
        SignalCoefficient {
            host_centrality: crate::optic::spec_merge_coeff(p.host_centrality, c.host_centrality),
            page_centrality: crate::optic::spec_merge_coeff(p.page_centrality, c.page_centrality),
            pre_computed_score: crate::optic::spec_merge_coeff(
                p.pre_computed_score,
                c.pre_computed_score,
            ),
        }
    }
}

/// The coefficient overrides one optic's ranking blocks give.
pub open spec fn spec_optic_coeffs(o: Optic) -> SignalCoefficient {
    SignalCoefficient {
        host_centrality: (if crate::optic::spec_coeff_named(o.rankings@, "host_centrality"@) {
            Some(crate::optic::spec_coeff_sum(o.rankings@, "host_centrality"@) as i64)
        } else {
            None
        }),
        page_centrality: (if crate::optic::spec_coeff_named(o.rankings@, "page_centrality"@) {
            Some(crate::optic::spec_coeff_sum(o.rankings@, "page_centrality"@) as i64)
        } else {
            None
        }),
        pre_computed_score: (if crate::optic::spec_coeff_named(
            o.rankings@,
            "pre_computed_score"@,
        ) {
            Some(crate::optic::spec_coeff_sum(o.rankings@, "pre_computed_score"@) as i64)
        } else {
            None
        }),
    }
}

/// Discard dominates boost: when a rule with `Action(Discard)` of any
/// applied optic accepts a document, the compiled query refuses that
/// document, whatever boosts or downranks other rules give it.
pub proof fn lemma_query_discard_dominates(q: Query, oi: int, ri: int, d: DocModel)
    requires
        q.inv(),
        0 <= oi < q.spec_optics().len(),
        0 <= ri < q.spec_optics()[oi].rules@.len(),
        q.spec_optics()[oi].rules@[ri].action is Discard,
        crate::optic::spec_rule_matches(
            crate::optic::rule_blocks_model(q.spec_optics()[oi].rules@[ri]),
            d,
        ),
    ensures
        !op_matches(q.spec_root(), d),
{
    crate::optic::lemma_discard_dominates(q.spec_optics()[oi], ri, d);
}

/// Boosts score: under one applied optic without
/// `DiscardNonMatching`, a document the compiled tree accepts scores
/// the base text tree's score extended, rule by rule, with the boost
/// of every keeper rule that accepts it and the negated downrank of
/// every downranking rule that does; a discard rule never scores.
pub proof fn lemma_boost_scores(q: Query, d: DocModel)
    requires
        q.inv(),
        op_matches(q.spec_root(), d),
        q.spec_optics().len() == 1,
        !q.spec_optics()[0].discard_non_matching,
    ensures
        crate::operator::op_score(q.spec_root(), d) == crate::optic::spec_keeper_score_from(
            q.spec_optics()[0],
            q.spec_optics()[0].rules@.len() as int,
            d,
            crate::operator::op_score(q.base@, d),
        ),
{
    let acc = crate::operator::op_score(q.base@, d);
    assert(spec_optics_score_fold(q.optics@, 0, d, acc) == acc);
    assert(spec_optics_score_fold(q.optics@, 1, d, acc) == crate::optic::spec_optic_score(
        q.optics@[0],
        d,
        acc,
    ));
    assert(crate::optic::spec_optic_score(q.optics@[0], d, acc)
        == crate::optic::spec_keeper_score_from(
        q.optics@[0],
        q.optics@[0].rules@.len() as int,
        d,
        acc,
    ));
}

/// Safe search excludes every document classified NSFW from the
/// matches of the compiled tree.
pub proof fn lemma_safe_search_excludes_nsfw(q: Query, d: DocModel)
    requires
        q.inv(),
        q.spec_safe(),
        d.safety_classification == Some(Label::Nsfw),
    ensures
        !op_matches(q.spec_root(), d),
{
}

} // verus!
