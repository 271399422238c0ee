//! Top-k collection over the segment store: scoring with coefficient
//! overrides, bounded collection ordered by score, per-segment
//! short-circuiting, and the exact-count mode.

use vstd::prelude::*;

use crate::index::{all_docs, seg_docs, InvertedIndex, Segment};
use crate::operator::{op_matches, op_score, sat64, sat_add, sat_add_exec, Operator};
use crate::optic::SignalCoefficient;
use crate::defaults;
use crate::query::Query;
use crate::schema::DocModel;

verus! {

/// Content signatures carried by a collected pointer, for duplicate
/// suppression downstream.
#[derive(Clone, Copy, PartialEq, Eq, Structural, Debug)]
pub struct Hashes {
    pub site: u64,
    pub title: u64,
    pub url: u64,
    pub url_without_tld: u64,
}

/// The address of a document: its segment's position and its position
/// inside the segment.
#[derive(Clone, Copy, PartialEq, Eq, Structural, Debug)]
pub struct DocAddress {
    pub segment: u32,
    pub doc_id: u32,
}

/// A collected result: score, content signatures and address.
#[derive(Clone, Copy, PartialEq, Eq, Structural, Debug)]
pub struct WebsitePointer {
    pub score: i64,
    pub hashes: Hashes,
    pub address: DocAddress,
}

/// What the first collection phase returns: the top pointers, and the
/// exact number of matches where counting was asked for.
pub struct InitialSearchResult {
    pub num_websites: Option<usize>,
    pub top_websites: Vec<WebsitePointer>,
}

/// The polynomial signature of a byte string, over a fixed prime.
pub open spec fn spec_hash_fold(s: Seq<u8>) -> int
    decreases s.len(),
{
    if s.len() == 0 {
        0int
    } else {
        (spec_hash_fold(s.drop_last()) * 31 + s.last()) % 1000000007
    }
}

/// Signature of a byte string.
pub fn hash_bytes(s: &[u8]) -> (r: u64)
    ensures
        r as int == spec_hash_fold(s@),
{
    let mut h: u64 = 0;
    let mut i: usize = 0;
    while i < s.len()
        invariant
            i <= s.len(),
            h as int == spec_hash_fold(s@.take(i as int)),
            h < 1000000007,
        decreases s.len() - i,
    {
        proof {
            assert(s@.take(i + 1).drop_last() =~= s@.take(i as int));
            assert(s@.take(i + 1).last() == s@[i as int]);
        }
        h = (h * 31 + s[i] as u64) % 1000000007;
        i = i + 1;
    }
    proof {
        assert(s@.take(s@.len() as int) =~= s@);
    }
    h
}

/// The signature of a token list: the tokens hashed in order with a
/// separator.
pub open spec fn spec_toks_hash(ts: Seq<Seq<u8>>) -> int
    decreases ts.len(),
{
    if ts.len() == 0 {
        0int
    } else {
        (spec_toks_hash(ts.drop_last()) * 131 + spec_hash_fold(ts.last())) % 1000000007
    }
}

/// Signature of a token list.
pub fn hash_toks(ts: &Vec<Vec<u8>>) -> (r: u64)
    ensures
        r as int == spec_toks_hash(crate::tokenize::toks_view(*ts)),
{
    let ghost gt = crate::tokenize::toks_view(*ts);
    let mut h: u64 = 0;
    let mut i: usize = 0;
    while i < ts.len()
        invariant
            i <= ts@.len(),
            gt == crate::tokenize::toks_view(*ts),
            gt.len() == ts@.len(),
            h as int == spec_toks_hash(gt.take(i as int)),
            h < 1000000007,
        decreases ts@.len() - i,
    {
        proof {
            assert(gt.take(i + 1).drop_last() =~= gt.take(i as int));
            assert(gt.take(i + 1).last() == gt[i as int]);
            assert(gt[i as int] == ts@[i as int]@);
        }
        let th = hash_bytes(ts[i].as_slice());
        h = (h * 131 + th % 1000000007) % 1000000007;
        i = i + 1;
    }
    proof {
        assert(gt.take(gt.len() as int) =~= gt);
    }
    h
}

/// The effective coefficients of the three fast-field signals: the
/// built-in default of one, or the optic override.
pub open spec fn spec_coeff3(c: Option<SignalCoefficient>) -> (int, int, int) {
    match c {
        None => (1int, 1int, 1int),
        Some(sc) => (
            (match sc.host_centrality {
                Some(v) => v as int,
                None => 1int,
            }),
            (match sc.page_centrality {
                Some(v) => v as int,
                None => 1int,
            }),
            (match sc.pre_computed_score {
                Some(v) => v as int,
                None => 1int,
            }),
        ),
    }
}

/// Saturating product of a coefficient and a fast-field value.
pub open spec fn spec_sat_mul(a: int, b: int) -> int {
    sat64(a * b)
}

/// Saturating product.
pub fn sat_mul_exec(a: i64, b: u64) -> (r: i64)
    ensures
        r as int == spec_sat_mul(a as int, b as int),
{
    proof {
        assert((a as int) * (b as int) <= i128::MAX && (a as int) * (b as int) >= i128::MIN)
            by (nonlinear_arith)
            requires
                i64::MIN <= a as int <= i64::MAX,
                0 <= b as int <= u64::MAX,
        {}
    }
    let p: i128 = (a as i128) * (b as i128);
    if p > i64::MAX as i128 {
        i64::MAX
    } else if p < i64::MIN as i128 {
        i64::MIN
    } else {
        p as i64
    }
}

/// The total score of a document: the tree's score plus the weighted
/// fast-field signals, saturating at the machine range.
pub open spec fn spec_total_score(root: Operator, c: (int, int, int), d: DocModel) -> int {
    sat_add(
        op_score(root, d),
        sat_add(
            spec_sat_mul(c.0, d.host_centrality as int),
            sat_add(
                spec_sat_mul(c.1, d.page_centrality as int),
                spec_sat_mul(c.2, d.pre_computed_score as int),
            ),
        ),
    )
}

/// The content signatures of a document.
pub open spec fn spec_doc_hashes(d: DocModel) -> Hashes {
    Hashes {
        site: spec_toks_hash(d.site_tokens) as u64,
        title: spec_toks_hash(d.title_tokens) as u64,
        url: spec_hash_fold(vstd::utf8::encode_utf8(d.url_exact)) as u64,
        url_without_tld: spec_toks_hash(d.domain_tokens) as u64,
    }
}

/// The pointer a matching document collects into.
pub open spec fn spec_pointer(root: Operator, c: (int, int, int), d: DocModel, si: int, j: int) -> WebsitePointer {
    WebsitePointer {
        score: spec_total_score(root, c, d) as i64,
        hashes: spec_doc_hashes(d),
        address: DocAddress { segment: si as u32, doc_id: j as u32 },
    }
}

/// Strict priority between collected pointers: higher score first,
/// then the earlier address.
pub open spec fn spec_prio_gt(a: WebsitePointer, b: WebsitePointer) -> bool {
    ||| a.score > b.score
    ||| (a.score == b.score && a.address.segment < b.address.segment)
    ||| (a.score == b.score && a.address.segment == b.address.segment && a.address.doc_id
        < b.address.doc_id)
}

/// Inserts a pointer at its ordered place.
pub open spec fn spec_ins(r: Seq<WebsitePointer>, p: WebsitePointer) -> Seq<WebsitePointer>
    decreases r.len(),
{
    if r.len() == 0 {
        seq![p]
    } else if spec_prio_gt(p, r[0]) {
        seq![p] + r
    } else {
        seq![r[0]] + spec_ins(r.drop_first(), p)
    }
}

/// Inserts a pointer at its ordered place and keeps the best `cap`.
pub open spec fn spec_insert_capped(r: Seq<WebsitePointer>, p: WebsitePointer, cap: int) -> Seq<
    WebsitePointer,
> {
    let full = spec_ins(r, p);
    if full.len() <= cap {
        full
    } else {
        full.take(cap)
    }
}

/// Splitting the ordered insertion at the first dominated position.
proof fn lemma_ins_split(r: Seq<WebsitePointer>, p: WebsitePointer, pos: int)
    requires
        0 <= pos <= r.len(),
        forall|k: int| 0 <= k < pos ==> !spec_prio_gt(p, #[trigger] r[k]),
        pos < r.len() ==> spec_prio_gt(p, r[pos]),
    ensures
        spec_ins(r, p) =~= r.take(pos) + seq![p] + r.skip(pos),
    decreases r.len(),
{
    if r.len() == 0 {
        assert(spec_ins(r, p) =~= seq![p]);
    } else if spec_prio_gt(p, r[0]) {
        assert(pos == 0);
        assert(spec_ins(r, p) =~= r.take(0) + seq![p] + r.skip(0));
    } else {
        assert(pos >= 1);
        assert forall|k: int| 0 <= k < pos - 1 implies !spec_prio_gt(
            p,
            #[trigger] r.drop_first()[k],
        ) by {
            assert(r.drop_first()[k] == r[k + 1]);
        }
        if pos - 1 < r.drop_first().len() {
            assert(r.drop_first()[pos - 1] == r[pos]);
        }
        lemma_ins_split(r.drop_first(), p, pos - 1);
        assert(spec_ins(r, p) =~= seq![r[0]] + (r.drop_first().take(pos - 1) + seq![p]
            + r.drop_first().skip(pos - 1)));
        assert forall|k: int| 0 <= k < pos implies r.take(pos)[k] == (seq![r[0]]
            + r.drop_first().take(pos - 1))[k] by {
            if k > 0 {
                assert(r.drop_first().take(pos - 1)[k - 1] == r[k]);
            }
        }
        assert(r.take(pos) =~= seq![r[0]] + r.drop_first().take(pos - 1));
        assert(r.skip(pos) =~= r.drop_first().skip(pos - 1));
    }
}

/// The first position the pointer stands before.
fn find_pos(r: &Vec<WebsitePointer>, p: WebsitePointer) -> (pos: usize)
    ensures
        pos <= r@.len(),
        forall|k: int| 0 <= k < pos ==> !spec_prio_gt(p, #[trigger] r@[k]),
        pos < r@.len() ==> spec_prio_gt(p, r@[pos as int]),
{
    let mut pos: usize = 0;
    while pos < r.len()
        invariant
            pos <= r@.len(),
            forall|k: int| 0 <= k < pos ==> !spec_prio_gt(p, #[trigger] r@[k]),
        decreases r@.len() - pos,
    {
        let q = r[pos];
        let gt = p.score > q.score || (p.score == q.score && (p.address.segment < q.address.segment
            || (p.address.segment == q.address.segment && p.address.doc_id < q.address.doc_id)));
        if gt {
            proof {
                assert(spec_prio_gt(p, r@[pos as int]));
            }
            return pos;
        }
        proof {
            assert(!spec_prio_gt(p, r@[pos as int]));
        }
        pos = pos + 1;
    }
    pos
}

/// Inserts a pointer into the ordered list, keeping the best `cap`.
fn insert_capped(r: &mut Vec<WebsitePointer>, p: WebsitePointer, cap: usize)
    ensures
        final(r)@ == spec_insert_capped(old(r)@, p, cap as int),
{
    let pos = find_pos(r, p);
    proof {
        lemma_ins_split(r@, p, pos as int);
    }
    let ghost pre = r@;
    r.insert(pos, p);
    proof {
        assert(r@ =~= pre.take(pos as int) + seq![p] + pre.skip(pos as int));
        assert(r@ =~= spec_ins(pre, p));
    }
    if r.len() > cap {
        r.truncate(cap);
        proof {
            assert(r@ =~= spec_ins(pre, p).take(cap as int));
        }
    }
}

/// The collection state after scanning the first `n` documents of
/// segment `si`: every matching document inserted in order, the best
/// `cap` kept.
pub open spec fn spec_scan_seg(
    docs: Seq<DocModel>,
    si: int,
    n: int,
    root: Operator,
    c: (int, int, int),
    acc: Seq<WebsitePointer>,
    cap: int,
    left: int,
) -> (Seq<WebsitePointer>, int)
    decreases n,
{
    if n <= 0 {
        (acc, left)
    } else {
        let prev = spec_scan_seg(docs, si, n - 1, root, c, acc, cap, left);
        if op_matches(root, docs[n - 1]) && prev.1 > 0 {
            (
                spec_insert_capped(prev.0, spec_pointer(root, c, docs[n - 1], si, n - 1), cap),
                prev.1 - 1,
            )
        } else {
            prev
        }
    }
}

/// How many documents of a segment the scan reads: all of them, or the
/// short-circuit budget.
pub open spec fn spec_scan_len(len: int, budget: Option<int>) -> int {
    match budget {
        None => len,
        Some(b) => if b < len {
            b
        } else {
            len
        },
    }
}

/// The collection state after scanning the first `n` segments: the
/// collected pointers and how many of the candidate budget remain.
pub open spec fn spec_scan(
    segs: Seq<Segment>,
    n: int,
    root: Operator,
    c: (int, int, int),
    budget: Option<int>,
    cap: int,
    left: int,
) -> (Seq<WebsitePointer>, int)
    decreases n,
{
    if n <= 0 {
        (Seq::empty(), left)
    } else {
        let prev = spec_scan(segs, n - 1, root, c, budget, cap, left);
        spec_scan_seg(
            seg_docs(segs[n - 1]),
            n - 1,
            spec_scan_len(seg_docs(segs[n - 1]).len() as int, budget),
            root,
            c,
            prev.0,
            cap,
            prev.1,
        )
    }
}

/// How many documents of the first `n` of a list the tree accepts.
pub open spec fn spec_match_count(docs: Seq<DocModel>, n: int, root: Operator) -> int
    decreases n,
{
    if n <= 0 {
        0int
    } else {
        spec_match_count(docs, n - 1, root) + (if op_matches(root, docs[n - 1]) {
            1int
        } else {
            0int
        })
    }
}

/// How many documents of the whole store the tree accepts.
pub open spec fn spec_total_matches(segs: Seq<Segment>, n: int, root: Operator) -> int
    decreases n,
{
    if n <= 0 {
        0int
    } else {
        spec_total_matches(segs, n - 1, root) + spec_match_count(
            seg_docs(segs[n - 1]),
            seg_docs(segs[n - 1]).len() as int,
            root,
        )
    }
}

/// The effective coefficients as machine values.
fn coeff3(c: &Option<SignalCoefficient>) -> (r: (i64, i64, i64))
    ensures
        (r.0 as int, r.1 as int, r.2 as int) == spec_coeff3(*c),
{
    match c {
        None => (1, 1, 1),
        Some(sc) => (
            (match sc.host_centrality {
                Some(v) => v,
                None => 1,
            }),
            (match sc.page_centrality {
                Some(v) => v,
                None => 1,
            }),
            (match sc.pre_computed_score {
                Some(v) => v,
                None => 1,
            }),
        ),
    }
}

impl InvertedIndex {
    /// Runs the first collection phase: scans every committed segment
    /// with the compiled tree, collecting the best `offset + top_n`
    /// matches by score. Without counting, each segment's scan is cut
    /// short at `total_docs / num_segments` documents; with counting,
    /// every document is read and the exact number of matches comes
    /// back too.
    pub fn search_initial(&self, q: &Query) -> (r: InitialSearchResult)
        requires
            self.inv(),
            q.inv(),
            q.spec_offset() + q.spec_top_n() <= usize::MAX,
            self.segments@.len() <= u32::MAX,
            forall|i: int|
                0 <= i < self.segments@.len() ==> (#[trigger] self.segments@[i]).docs@.len()
                    <= u32::MAX,
            spec_docs_upto(self.segments@, self.segments@.len() as int) <= usize::MAX,
        ensures
            r.num_websites is Some <==> q.spec_count_results(),
            q.spec_count_results() ==> r.num_websites->Some_0 as int == spec_total_matches(
                self.segments@,
                self.segments@.len() as int,
                q.spec_root(),
            ),
            r.top_websites@ == spec_scan(
                self.segments@,
                self.segments@.len() as int,
                q.spec_root(),
                spec_coeff3(spec_opt_coeffs(*q)),
                spec_budget(*q, self.segments@),
                q.spec_offset() + q.spec_top_n(),
                250000,
            ).0,
    {
        let coeffs = q.signal_coefficients();
        let ghost gco = spec_coeff3(spec_opt_coeffs(*q));
        proof {
            assert(coeffs == spec_opt_coeffs(*q));
        }
        let c3 = coeff3(&coeffs);
        proof {
            assert((c3.0 as int, c3.1 as int, c3.2 as int) == gco);
        }
        let cap = q.offset() + q.num_results();
        let mut considered: usize = defaults::Collector::max_docs_considered();
        let budget: Option<usize> = if q.count_results() {
            None
        } else {
            let mut total: usize = 0;
            let mut k: usize = 0;
            while k < self.segments.len()
                invariant
                    k <= self.segments@.len(),
                    total as int == spec_docs_upto(self.segments@, k as int),
                    spec_docs_upto(self.segments@, self.segments@.len() as int) <= usize::MAX,
                    forall|i: int|
                        0 <= i < self.segments@.len() ==> (
                        #[trigger] self.segments@[i]).docs@.len() <= u32::MAX,
                    spec_docs_upto(self.segments@, k as int) <= k * (u32::MAX as int),
                    k <= u32::MAX,
                    self.segments@.len() <= u32::MAX,
                decreases self.segments@.len() - k,
            {
                proof {
                    assert(spec_docs_upto(self.segments@, k + 1) == spec_docs_upto(
                        self.segments@,
                        k as int,
                    ) + self.segments@[k as int].docs@.len());
                    assert((k + 1) * (u32::MAX as int) == k * (u32::MAX as int) + (
                    u32::MAX as int)) by (nonlinear_arith);
                }
                proof {
                    lemma_docs_upto_mono(self.segments@, k + 1, self.segments@.len() as int);
                    lemma_docs_upto_mono(self.segments@, 0, k as int);
                }
                total = total + self.segments[k].docs.len();
                k = k + 1;
            }
            if self.segments.len() == 0 {
                None
            } else {
                Some(total / self.segments.len())
            }
        };
        proof {
            assert((match budget {
                None => None::<int>,
                Some(b) => Some(b as int),
            }) == spec_budget(*q, self.segments@));
        }
        let mut acc: Vec<WebsitePointer> = Vec::new();
        let mut count: usize = 0;
        let mut si: usize = 0;
        while si < self.segments.len()
            invariant
                self.inv(),
                q.inv(),
                si <= self.segments@.len(),
                self.segments@.len() <= u32::MAX,
                forall|i: int|
                    0 <= i < self.segments@.len() ==> (#[trigger] self.segments@[i]).docs@.len()
                        <= u32::MAX,
                (c3.0 as int, c3.1 as int, c3.2 as int) == gco,
                (acc@, considered as int) == spec_scan(
                    self.segments@,
                    si as int,
                    q.spec_root(),
                    gco,
                    spec_budget(*q, self.segments@),
                    cap as int,
                    250000,
                ),
                q.spec_count_results() ==> count as int == spec_total_matches(
                    self.segments@,
                    si as int,
                    q.spec_root(),
                ),
                count as int <= spec_docs_upto(self.segments@, si as int),
                spec_docs_upto(self.segments@, self.segments@.len() as int) <= usize::MAX,
                si <= u32::MAX,
                (match budget {
                    None => None::<int>,
                    Some(b) => Some(b as int),
                }) == spec_budget(*q, self.segments@),
            decreases self.segments@.len() - si,
        {
            let seg = &self.segments[si];
            let n_docs = seg.docs.len();
            let limit: usize = match budget {
                None => n_docs,
                Some(b) => if b < n_docs {
                    b
                } else {
                    n_docs
                },
            };
            proof {
                assert(limit as int == spec_scan_len(
                    seg_docs(self.segments@[si as int]).len() as int,
                    spec_budget(*q, self.segments@),
                ));
            }
            let ghost pre_acc = acc@;
            let ghost pre_left = considered;
            let mut j: usize = 0;
            while j < limit
                invariant
                    self.inv(),
                    q.inv(),
                    si < self.segments@.len(),
                    (c3.0 as int, c3.1 as int, c3.2 as int) == gco,
                    j <= limit,
                    limit <= self.segments@[si as int].docs@.len(),
                    seg == self.segments@[si as int],
                    (acc@, considered as int) == spec_scan_seg(
                        seg_docs(self.segments@[si as int]),
                        si as int,
                        j as int,
                        q.spec_root(),
                        gco,
                        pre_acc,
                        cap as int,
                        pre_left as int,
                    ),
                decreases limit - j,
            {
                let d = &seg.docs[j];
                proof {
                    assert(seg_docs(self.segments@[si as int])[j as int] == d@);
                }
                let (m, tree_score) = crate::operator::eval_op(q.root(), d);
                if m && considered > 0 {
                    let sig = sat_add_exec(
                        sat_mul_exec(c3.0, d.host_centrality),
                        sat_add_exec(
                            sat_mul_exec(c3.1, d.page_centrality),
                            sat_mul_exec(c3.2, d.pre_computed_score),
                        ),
                    );
                    let score = sat_add_exec(tree_score, sig);
                    let site_h = hash_toks(&d.site_tokens);
                    let title_h = hash_toks(&d.title_tokens);
                    let url_h = hash_bytes(d.url_exact.as_str().as_bytes());
                    let tld_h = hash_toks(&d.domain_tokens);
                    let p = WebsitePointer {
                        score,
                        hashes: Hashes {
                            site: site_h,
                            title: title_h,
                            url: url_h,
                            url_without_tld: tld_h,
                        },
                        address: DocAddress { segment: si as u32, doc_id: j as u32 },
                    };
                    proof {
                        assert(p == spec_pointer(
                            q.spec_root(),
                            gco,
                            seg_docs(self.segments@[si as int])[j as int],
                            si as int,
                            j as int,
                        ));
                    }
                    insert_capped(&mut acc, p, cap);
                    considered = considered - 1;
                }
                j = j + 1;
            }
            proof {
                assert(spec_docs_upto(self.segments@, si + 1) == spec_docs_upto(
                    self.segments@,
                    si as int,
                ) + self.segments@[si as int].docs@.len());
            }
            if q.count_results() {
                let mut j2: usize = 0;
                let mut seg_count: usize = 0;
                while j2 < n_docs
                    invariant
                        self.inv(),
                        q.inv(),
                        si < self.segments@.len(),
                        j2 <= n_docs,
                        n_docs == self.segments@[si as int].docs@.len(),
                        n_docs <= u32::MAX,
                        seg == self.segments@[si as int],
                        seg_count as int == spec_match_count(
                            seg_docs(self.segments@[si as int]),
                            j2 as int,
                            q.spec_root(),
                        ),
                        seg_count <= j2,
                    decreases n_docs - j2,
                {
                    let d = &seg.docs[j2];
                    proof {
                        assert(seg_docs(self.segments@[si as int])[j2 as int] == d@);
                    }
                    let (m, _) = crate::operator::eval_op(q.root(), d);
                    if m {
                        seg_count = seg_count + 1;
                    }
                    j2 = j2 + 1;
                }
                proof {
                    lemma_match_count_bound(
                        seg_docs(self.segments@[si as int]),
                        seg_docs(self.segments@[si as int]).len() as int,
                        q.spec_root(),
                    );
                    assert(seg_docs(self.segments@[si as int]).len()
                        == self.segments@[si as int].docs@.len());
                }
                proof {
                    lemma_docs_upto_mono(self.segments@, si + 1, self.segments@.len() as int);
                    lemma_docs_upto_mono(self.segments@, 0, si as int);
                }
                count = count + seg_count;
            }
            si = si + 1;
        }
        let num = if q.count_results() {
            Some(count)
        } else {
            None
        };
        InitialSearchResult { num_websites: num, top_websites: acc }
    }
}

/// The number of documents in the first `n` segments.
pub open spec fn spec_docs_upto(segs: Seq<Segment>, n: int) -> int
    decreases n,
{
    if n <= 0 {
        0int
    } else {
        spec_docs_upto(segs, n - 1) + segs[n - 1].docs@.len()
    }
}

/// Document counts grow with the number of segments read.
proof fn lemma_docs_upto_mono(segs: Seq<Segment>, a: int, b: int)
    requires
        a <= b,
    ensures
        spec_docs_upto(segs, a) <= spec_docs_upto(segs, b),
    decreases b - a,
{
    if a < b {
        lemma_docs_upto_mono(segs, a, b - 1);
    }
}

/// The per-segment short-circuit budget of a query over a store: none
/// with counting on, else the total document count over the segment
/// count.
pub open spec fn spec_budget(q: Query, segs: Seq<Segment>) -> Option<int> {
    if q.spec_count_results() || segs.len() == 0 {
        None
    } else {
        Some(spec_docs_upto(segs, segs.len() as int) / segs.len() as int)
    }
}

/// The coefficient overrides of a query.
pub open spec fn spec_opt_coeffs(q: Query) -> Option<SignalCoefficient> {
    if q.spec_optics().len() == 0 {
        None
    } else {
        Some(crate::query::spec_coeffs_fold(q.spec_optics(), q.spec_optics().len() as int))
    }
}

/// A match count never exceeds the number of documents read.
proof fn lemma_match_count_bound(docs: Seq<DocModel>, n: int, root: Operator)
    ensures
        0 <= spec_match_count(docs, n, root) <= (if n >= 0 {
            n
        } else {
            0
        }),
    decreases n,
{
    if n > 0 {
        lemma_match_count_bound(docs, n - 1, root);
    }
}

/// Commit atomicity, buffering half: collection and counting read the
/// committed segments alone, so two stores with the same segments give
/// a search the same outcome, whatever `insert` has buffered.
pub proof fn lemma_search_ignores_buffer(
    a: InvertedIndex,
    b: InvertedIndex,
    root: Operator,
    c: (int, int, int),
    budget: Option<int>,
    cap: int,
    left: int,
)
    requires
        a.segments == b.segments,
    ensures
        spec_scan(a.segments@, a.segments@.len() as int, root, c, budget, cap, left) == spec_scan(
            b.segments@,
            b.segments@.len() as int,
            root,
            c,
            budget,
            cap,
            left,
        ),
        spec_total_matches(a.segments@, a.segments@.len() as int, root) == spec_total_matches(
            b.segments@,
            b.segments@.len() as int,
            root,
        ),
{
}

/// Commit atomicity, visibility half: a document that stood in the
/// buffer and that no registered tombstone takes is live the moment
/// `commit` returns, and a matching one counts among the matches.
pub proof fn lemma_commit_exposes_buffer(
    live: Seq<DocModel>,
    buffered: Seq<DocModel>,
    ts: Seq<crate::index::Tombstone>,
    d: DocModel,
)
    requires
        buffered.contains(d),
        !crate::index::spec_deleted(ts, d),
    ensures
        (crate::index::spec_survivors(live, ts) + crate::index::spec_survivors(
            buffered,
            ts,
        )).contains(d),
{
    lemma_survivors_keep(buffered, ts, d);
    let i = choose|i: int|
        0 <= i < crate::index::spec_survivors(buffered, ts).len()
            && crate::index::spec_survivors(buffered, ts)[i] == d;
    assert((crate::index::spec_survivors(live, ts) + crate::index::spec_survivors(buffered, ts))[
        crate::index::spec_survivors(live, ts).len() + i] == d);
}

/// A document that no tombstone takes survives filtering.
proof fn lemma_survivors_keep(docs: Seq<DocModel>, ts: Seq<crate::index::Tombstone>, d: DocModel)
    requires
        docs.contains(d),
        !crate::index::spec_deleted(ts, d),
    ensures
        crate::index::spec_survivors(docs, ts).contains(d),
    decreases docs.len(),
{
    if docs.len() > 0 {
        if docs.last() == d {
            assert(crate::index::spec_survivors(docs, ts).last() == d);
        } else {
            let i = choose|i: int| 0 <= i < docs.len() && docs[i] == d;
            assert(docs.drop_last()[i] == d);
            lemma_survivors_keep(docs.drop_last(), ts, d);
            let j = choose|j: int|
                0 <= j < crate::index::spec_survivors(docs.drop_last(), ts).len()
                    && crate::index::spec_survivors(docs.drop_last(), ts)[j] == d;
            assert(crate::index::spec_survivors(docs, ts)[j] == d);
        }
    }
}

/// One piece of a generated snippet: a run of text, highlighted where
/// it matched a simple term.
pub struct TextSnippetFragment {
    pub text: String,
    pub highlighted: bool,
}

/// A generated snippet: its fragments in display order.
pub struct TextSnippet {
    pub fragments: Vec<TextSnippetFragment>,
}

/// A collected result with the fast-field signals the ranking
/// pipeline reads.
pub struct RankingWebsite {
    pub pointer: WebsitePointer,
    pub host_centrality: u64,
    pub page_centrality: u64,
    pub pre_computed_score: u64,
    pub title: String,
}

/// A result hydrated from the stored fields.
pub struct RetrievedWebpage {
    pub title: String,
    pub url: String,
    pub body: String,
    pub snippet: TextSnippet,
    pub dirty_body: String,
    pub description: Option<String>,
    pub dmoz_description: Option<String>,
    pub updated_time: Option<u64>,
    pub schema_org_json: String,
    pub region: u64,
    pub likely_has_ads: bool,
    pub likely_has_paywall: bool,
    pub recipe_first_ingredient_tag_id: Option<String>,
    pub keywords: Vec<String>,
}

/// The keyword lines of the stored field: split at newlines, kept
/// verbatim.
pub open spec fn spec_split_lines(s: Seq<u8>) -> Seq<Seq<u8>>
    decreases s.len(),
{
    if s.len() == 0 {
        seq![Seq::empty()]
    } else {
        let p = spec_split_lines(s.drop_last());
        if s.last() == 0x0a {
            p.push(Seq::empty())
        } else {
            p.update(p.len() - 1, p.last().push(s.last()))
        }
    }
}

/// Lines have at least one piece.
proof fn lemma_split_lines_nonempty(s: Seq<u8>)
    ensures
        spec_split_lines(s).len() >= 1,
    decreases s.len(),
{
    if s.len() > 0 {
        lemma_split_lines_nonempty(s.drop_last());
    }
}

/// Splits the stored keyword field at newlines.
fn split_lines(s: &[u8]) -> (r: Vec<Vec<u8>>)
    ensures
        crate::tokenize::toks_view(r) == spec_split_lines(s@),
{
    let mut done: Vec<Vec<u8>> = Vec::new();
    let mut cur: Vec<u8> = Vec::new();
    let mut i: usize = 0;
    while i < s.len()
        invariant
            i <= s.len(),
            spec_split_lines(s@.take(i as int)).len() >= 1,
            crate::tokenize::toks_view(done).push(cur@) =~~= spec_split_lines(s@.take(i as int)),
        decreases s.len() - i,
    {
        proof {
            assert(s@.take(i + 1).drop_last() =~= s@.take(i as int));
            assert(s@.take(i + 1).last() == s@[i as int]);
            lemma_split_lines_nonempty(s@.take(i + 1));
        }
        let b = s[i];
        if b == 0x0a {
            done.push(cur);
            cur = Vec::new();
            proof {
                assert(crate::tokenize::toks_view(done).push(cur@) =~~= spec_split_lines(
                    s@.take(i + 1),
                ));
            }
        } else {
            cur.push(b);
            proof {
                let ghost p = spec_split_lines(s@.take(i as int));
                assert(p.update(p.len() - 1, p.last().push(s@[i as int])) =~~= crate::tokenize::toks_view(
                    done,
                ).push(cur@));
            }
        }
        i = i + 1;
    }
    proof {
        assert(s@.take(s@.len() as int) =~= s@);
    }
    done.push(cur);
    done
}

/// The snippet dimensions and thresholds in force.
pub struct SnippetConfig {
    pub desired_num_chars: usize,
    pub delta_num_chars: usize,
    pub min_passage_width: usize,
    pub empty_query_snippet_words: usize,
    pub min_description_words: usize,
    pub min_body_length: usize,
    pub min_body_length_homepage: usize,
}

impl SnippetConfig {
    /// The built-in snippet defaults.
    pub fn built_in() -> (r: SnippetConfig)
        ensures
            r.desired_num_chars == 275,
            r.delta_num_chars == 50,
            r.min_passage_width == 20,
            r.empty_query_snippet_words == 50,
            r.min_description_words == 10,
            r.min_body_length == 256,
            r.min_body_length_homepage == 1024,
    {
        SnippetConfig {
            desired_num_chars: 275,
            delta_num_chars: 50,
            min_passage_width: 20,
            empty_query_snippet_words: 50,
            min_description_words: 10,
            min_body_length: 256,
            min_body_length_homepage: 1024,
        }
    }
}

/// The number of whitespace words of a string.
pub open spec fn spec_word_count(s: Seq<char>) -> int {
    crate::tokenize::spec_ws_split(vstd::utf8::encode_utf8(s)).len() as int
}

/// Counts the whitespace words of a string.
fn word_count(s: &str) -> (r: usize)
    ensures
        r as int == spec_word_count(s@),
{
    let ws = crate::tokenize::ws_split(s.as_bytes());
    ws.len()
}

/// Which text the snippet reads: with no simple terms, the description
/// when it has enough words, else the body; with terms, the description
/// exactly when the body is shorter than the threshold for the page
/// kind and the description has enough words.
pub open spec fn spec_snippet_uses_description(
    simple_terms_len: int,
    body: Seq<char>,
    desc: Option<Seq<char>>,
    homepage: bool,
    conf: SnippetConfig,
) -> bool {
    let desc_words = (match desc {
        Some(s) => spec_word_count(s),
        None => 0int,
    });
    if simple_terms_len == 0 {
        desc is Some && desc_words >= conf.min_description_words
    } else {
        let min_body = if homepage {
            conf.min_body_length_homepage as int
        } else {
            conf.min_body_length as int
        };
        spec_word_count(body) < min_body && desc_words >= conf.min_description_words
    }
}

/// Decides which text the snippet reads, per the thresholds in force.
pub fn snippet_uses_description(
    simple_terms_len: usize,
    body: &str,
    desc: &Option<String>,
    homepage: bool,
    conf: &SnippetConfig,
) -> (r: bool)
    ensures
        r == spec_snippet_uses_description(
            simple_terms_len as int,
            body@,
            (match desc {
                Some(d) => Some(d@),
                None => None,
            }),
            homepage,
            *conf,
        ),
{
    let desc_words = match desc {
        Some(d) => word_count(d.as_str()),
        None => 0,
    };
    if simple_terms_len == 0 {
        matches!(desc, Some(_)) && desc_words >= conf.min_description_words
    } else {
        let min_body = if homepage {
            conf.min_body_length_homepage
        } else {
            conf.min_body_length
        };
        word_count(body) < min_body && desc_words >= conf.min_description_words
    }
}

/// Whether a word counts as a hit of the simple terms: its analysed
/// tokens equal some term's.
pub open spec fn spec_word_hit(w: Seq<u8>, terms: Seq<String>) -> bool {
    exists|i: int|
        0 <= i < terms.len() && crate::tokenize::spec_tokens(w) == crate::tokenize::spec_tokens(
            #[trigger] vstd::utf8::encode_utf8(terms[i]@),
        )
}

/// Whether a word counts as a hit.
fn word_hit(w: &Vec<u8>, terms: &Vec<String>) -> (r: bool)
    ensures
        r == spec_word_hit(w@, terms@),
{
    let wt = crate::tokenize::tokens_of(w.as_slice());
    let mut i: usize = 0;
    while i < terms.len()
        invariant
            i <= terms@.len(),
            crate::tokenize::toks_view(wt) == crate::tokenize::spec_tokens(w@),
            forall|k: int|
                0 <= k < i ==> crate::tokenize::spec_tokens(w@) != crate::tokenize::spec_tokens(
                    #[trigger] vstd::utf8::encode_utf8(terms@[k]@),
                ),
        decreases terms@.len() - i,
    {
        let tt = crate::tokenize::tokens_of(terms[i].as_str().as_bytes());
        if toks_eq(&wt, &tt) {
            proof {
                assert(crate::tokenize::spec_tokens(w@) == crate::tokenize::spec_tokens(
                    vstd::utf8::encode_utf8(terms@[i as int]@),
                ));
            }
            return true;
        }
        i = i + 1;
    }
    false
}

/// Compares two token lists.
fn toks_eq(a: &Vec<Vec<u8>>, b: &Vec<Vec<u8>>) -> (r: bool)
    ensures
        r == (crate::tokenize::toks_view(*a) == crate::tokenize::toks_view(*b)),
{
    if a.len() != b.len() {
        proof {
            assert(crate::tokenize::toks_view(*a).len() != crate::tokenize::toks_view(*b).len());
        }
        return false;
    }
    let mut i: usize = 0;
    while i < a.len()
        invariant
            i <= a@.len(),
            a@.len() == b@.len(),
            forall|k: int|
                0 <= k < i ==> crate::tokenize::toks_view(*a)[k] == crate::tokenize::toks_view(
                    *b,
                )[k],
        decreases a@.len() - i,
    {
        if !crate::tokenize::bytes_eq(a[i].as_slice(), b[i].as_slice()) {
            proof {
                assert(crate::tokenize::toks_view(*a)[i as int] != crate::tokenize::toks_view(
                    *b,
                )[i as int]);
            }
            return false;
        }
        proof {
            assert(crate::tokenize::toks_view(*a)[i as int] == crate::tokenize::toks_view(
                *b,
            )[i as int]);
        }
        i = i + 1;
    }
    proof {
        assert(crate::tokenize::toks_view(*a) =~= crate::tokenize::toks_view(*b));
    }
    true
}

/// The words a snippet takes from its source: whole words while their
/// lengths, with one separator between them, stay within the wanted
/// character count.
pub open spec fn spec_snippet_take(ws: Seq<Seq<u8>>, n: int, budget: int) -> int
    decreases ws.len() - n,
{
    if n < 0 || n >= ws.len() {
        if n < 0 {
            0int
        } else {
            n
        }
    } else {
        let cost = ws[n].len() + (if n > 0 {
            1int
        } else {
            0int
        });
        if cost <= budget {
            spec_snippet_take(ws, n + 1, budget - cost)
        } else {
            n
        }
    }
}

/// Builds the snippet of a text: its first words within the wanted
/// character count, one fragment per word, highlighted where the word
/// hits a simple term. The full engine scores sliding windows against
/// the terms, within `delta_num_chars` of the wanted length and with
/// passages at least `min_passage_width` wide; this model takes the
/// leading window, so those two thresholds go unused here.
fn generate_snippet(text: &str, terms: &Vec<String>, conf: &SnippetConfig) -> (r: TextSnippet)
    ensures
        r.fragments@.len() == spec_snippet_take(
            crate::tokenize::spec_ws_split(vstd::utf8::encode_utf8(text@)),
            0,
            conf.desired_num_chars as int,
        ),
        forall|k: int|
            0 <= k < r.fragments@.len() ==> (#[trigger] r.fragments@[k]).highlighted
                == spec_word_hit(
                crate::tokenize::spec_ws_split(vstd::utf8::encode_utf8(text@))[k],
                terms@,
            ),
        forall|k: int|
            0 <= k < r.fragments@.len() && vstd::utf8::valid_utf8(
                crate::tokenize::spec_ws_split(vstd::utf8::encode_utf8(text@))[k],
            ) ==> vstd::utf8::encode_utf8((#[trigger] r.fragments@[k]).text@)
                == crate::tokenize::spec_ws_split(vstd::utf8::encode_utf8(text@))[k],
{
    let words = crate::tokenize::ws_split(text.as_bytes());
    let ghost gw = crate::tokenize::toks_view(words);
    let take = snippet_take(&words, conf.desired_num_chars);
    let mut frags: Vec<TextSnippetFragment> = Vec::new();
    let mut i: usize = 0;
    while i < take
        invariant
            i <= take,
            take <= words@.len(),
            gw == crate::tokenize::toks_view(words),
            gw.len() == words@.len(),
            frags@.len() == i,
            forall|k: int|
                0 <= k < i ==> (#[trigger] frags@[k]).highlighted == spec_word_hit(gw[k], terms@),
            forall|k: int|
                0 <= k < i && vstd::utf8::valid_utf8(gw[k]) ==> vstd::utf8::encode_utf8(
                    (#[trigger] frags@[k]).text@,
                ) == gw[k],
        decreases take - i,
    {
        let w = &words[i];
        proof {
            assert(gw[i as int] == w@);
        }
        let hit = word_hit(w, terms);
        frags.push(
            TextSnippetFragment { text: crate::query::bytes_to_string(w), highlighted: hit },
        );
        i = i + 1;
    }
    TextSnippet { fragments: frags }
}

/// How many leading words fit the wanted character count.
fn snippet_take(words: &Vec<Vec<u8>>, desired: usize) -> (r: usize)
    ensures
        r <= words@.len(),
        r as int == spec_snippet_take(crate::tokenize::toks_view(*words), 0, desired as int),
{
    let ghost gw = crate::tokenize::toks_view(*words);
    let mut i: usize = 0;
    let mut budget: usize = desired;
    while i < words.len()
        invariant
            i <= words@.len(),
            gw == crate::tokenize::toks_view(*words),
            gw.len() == words@.len(),
            spec_snippet_take(gw, 0, desired as int) == spec_snippet_take(
                gw,
                i as int,
                budget as int,
            ),
        decreases words@.len() - i,
    {
        let w = &words[i];
        proof {
            assert(gw[i as int] == w@);
        }
        let sep: usize = if i > 0 {
            1
        } else {
            0
        };
        if budget < sep || w.len() > budget - sep {
            proof {
                assert(spec_snippet_take(gw, i as int, budget as int) == i);
            }
            return i;
        }
        let cost = w.len() + sep;
        proof {
            assert(spec_snippet_take(gw, i as int, budget as int) == spec_snippet_take(
                gw,
                i + 1,
                budget - cost,
            ));
        }
        budget = budget - cost;
        i = i + 1;
    }
    proof {
        assert(spec_snippet_take(gw, i as int, budget as int) == i);
    }
    i
}

/// The documents of a list that the compiled tree accepts, in order.
pub open spec fn spec_matching_docs(docs: Seq<DocModel>, root: Operator) -> Seq<DocModel>
    decreases docs.len(),
{
    if docs.len() == 0 {
        Seq::empty()
    } else {
        let p = spec_matching_docs(docs.drop_last(), root);
        if op_matches(root, docs.last()) {
            p.push(docs.last())
        } else {
            p
        }
    }
}

/// The matching documents of a list are its multiset filtered by the
/// tree.
proof fn lemma_matching_docs_filter(docs: Seq<DocModel>, root: Operator)
    ensures
        spec_matching_docs(docs, root).to_multiset() =~= docs.to_multiset().filter(
            |d: DocModel| op_matches(root, d),
        ),
    decreases docs.len(),
{
    broadcast use vstd::multiset::group_multiset_axioms;
    broadcast use vstd::seq_lib::group_to_multiset_ensures;

    let pred = |d: DocModel| op_matches(root, d);
    if docs.len() == 0 {
        assert(spec_matching_docs(docs, root).to_multiset().len() == 0);
        assert forall|v: DocModel|
            #[trigger] docs.to_multiset().filter(pred).count(v) == 0 by {
            assert(docs.to_multiset().len() == 0);
        }
    } else {
        let p = docs.drop_last();
        lemma_matching_docs_filter(p, root);
        assert(p.push(docs.last()) =~= docs);
        assert(docs.to_multiset() =~= p.to_multiset().insert(docs.last()));
        if op_matches(root, docs.last()) {
            assert(spec_matching_docs(docs, root) =~= spec_matching_docs(p, root).push(
                docs.last(),
            ));
            assert(spec_matching_docs(docs, root).to_multiset() =~= spec_matching_docs(
                p,
                root,
            ).to_multiset().insert(docs.last()));
        }
        assert forall|v: DocModel|
            #[trigger] spec_matching_docs(docs, root).to_multiset().count(v)
                == docs.to_multiset().filter(pred).count(v) by {
            assert(spec_matching_docs(p, root).to_multiset().count(v) == p.to_multiset().filter(
                pred,
            ).count(v));
        }
    }
}

/// Merge preserves hits: two stores whose live documents agree as a
/// multiset give any compiled tree the same matching documents, as a
/// multiset. The merges keep the live documents exactly, so results
/// before and after a merge agree.
pub proof fn lemma_merge_preserves_hits(a: InvertedIndex, b: InvertedIndex, root: Operator)
    requires
        a.spec_live_docs().to_multiset() == b.spec_live_docs().to_multiset(),
    ensures
        spec_matching_docs(a.spec_live_docs(), root).to_multiset() == spec_matching_docs(
            b.spec_live_docs(),
            root,
        ).to_multiset(),
{
    broadcast use vstd::multiset::group_multiset_axioms;

    lemma_matching_docs_filter(a.spec_live_docs(), root);
    lemma_matching_docs_filter(b.spec_live_docs(), root);
}

/// Short-circuit safety, covered-budget form: when the per-segment
/// budget reaches every segment's length, collection with the short
/// circuit reads every document and agrees with collection without it.
pub proof fn lemma_short_circuit_covered(
    segs: Seq<Segment>,
    n: int,
    root: Operator,
    c: (int, int, int),
    b: int,
    cap: int,
    left: int,
)
    requires
        forall|i: int| 0 <= i < segs.len() ==> seg_docs(#[trigger] segs[i]).len() <= b,
        n <= segs.len(),
    ensures
        spec_scan(segs, n, root, c, Some(b), cap, left) == spec_scan(
            segs,
            n,
            root,
            c,
            None,
            cap,
            left,
        ),
    decreases n,
{
    if n > 0 {
        lemma_short_circuit_covered(segs, n - 1, root, c, b, cap, left);
        assert(spec_scan_len(seg_docs(segs[n - 1]).len() as int, Some(b)) == spec_scan_len(
            seg_docs(segs[n - 1]).len() as int,
            None,
        ));
    }
}

/// An optional stored string: absent where the store holds it empty.
fn opt_of_stored(s: &String) -> (r: Option<String>)
    ensures
        r is Some <==> s@.len() > 0,
        r is Some ==> r->Some_0@ == s@,
{
    if s.as_str().is_empty() {
        None
    } else {
        Some(s.clone())
    }
}

/// What retrieval reads out of one stored document. The snippet is
/// filled afterwards.
pub open spec fn spec_retrieved(d: DocModel, r: RetrievedWebpage) -> bool {
    &&& r.title@ == d.title
    &&& r.url@ == d.url_exact
    &&& r.body@ == d.clean_body
    &&& r.dirty_body@ == d.all_body
    &&& (r.description is Some <==> d.description.len() > 0)
    &&& (r.description is Some ==> r.description->0@ == d.description)
    &&& (r.dmoz_description is Some <==> d.dmoz_description.len() > 0)
    &&& (r.dmoz_description is Some ==> r.dmoz_description->0@ == d.dmoz_description)
    &&& r.updated_time == (if d.last_updated != 0 && d.last_updated <= i64::MAX
        && crate::dates::timestamp_valid(d.last_updated as i64) {
        Some(d.last_updated)
    } else {
        None
    })
    &&& r.schema_org_json@ == d.schema_org_json
    &&& r.region == d.region
    &&& r.likely_has_ads == d.likely_has_ads
    &&& r.likely_has_paywall == d.likely_has_paywall
    &&& (r.recipe_first_ingredient_tag_id is Some <==> d.recipe_first_ingredient_tag_id.len() > 0)
    &&& (r.recipe_first_ingredient_tag_id is Some ==> r.recipe_first_ingredient_tag_id->0@
        == d.recipe_first_ingredient_tag_id)
    &&& r.keywords@.len() == spec_split_lines(vstd::utf8::encode_utf8(d.keywords)).len()
    &&& (forall|k: int|
        0 <= k < r.keywords@.len() && vstd::utf8::valid_utf8(
            spec_split_lines(vstd::utf8::encode_utf8(d.keywords))[k],
        ) ==> vstd::utf8::encode_utf8((#[trigger] r.keywords@[k])@) == spec_split_lines(
            vstd::utf8::encode_utf8(d.keywords),
        )[k])
}

impl RetrievedWebpage {
    /// Hydrates a result from one stored document; the snippet starts
    /// empty. An update time of zero, or one chrono cannot represent,
    /// reads back as none; empty optional fields read back as none;
    /// the stored keyword lines split at newlines.
    pub fn from_doc(d: &crate::schema::Document) -> (r: RetrievedWebpage)
        ensures
            spec_retrieved(d@, r),
            r.snippet.fragments@.len() == 0,
    {
        let last = d.last_updated;
        let updated_time = if last != 0 && last <= i64::MAX as u64 && crate::dates::timestamp_representable(last as i64) {
            Some(last)
        } else {
            None
        };
        let keyword_lines = split_lines(d.keywords.as_str().as_bytes());
        let ghost glines = spec_split_lines(vstd::utf8::encode_utf8(d@.keywords));
        proof {
            assert(crate::tokenize::toks_view(keyword_lines) == glines);
        }
        let mut keywords: Vec<String> = Vec::new();
        let mut i: usize = 0;
        while i < keyword_lines.len()
            invariant
                i <= keyword_lines@.len(),
                keywords@.len() == i,
                crate::tokenize::toks_view(keyword_lines) == glines,
                keyword_lines@.len() == glines.len(),
                forall|k: int|
                    0 <= k < i && vstd::utf8::valid_utf8(glines[k]) ==> vstd::utf8::encode_utf8(
                        (#[trigger] keywords@[k])@,
                    ) == glines[k],
            decreases keyword_lines@.len() - i,
        {
            proof {
                assert(keyword_lines@[i as int]@ == glines[i as int]);
            }
            keywords.push(crate::query::bytes_to_string(&keyword_lines[i]));
            i = i + 1;
        }
        RetrievedWebpage {
            title: d.title.clone(),
            url: d.url_exact.clone(),
            body: d.clean_body.clone(),
            snippet: TextSnippet { fragments: Vec::new() },
            dirty_body: d.all_body.clone(),
            description: opt_of_stored(&d.description),
            dmoz_description: opt_of_stored(&d.dmoz_description),
            updated_time,
            schema_org_json: d.schema_org_json.clone(),
            region: d.region,
            likely_has_ads: d.likely_has_ads,
            likely_has_paywall: d.likely_has_paywall,
            recipe_first_ingredient_tag_id: opt_of_stored(&d.recipe_first_ingredient_tag_id),
            keywords,
        }
    }

    /// The page's description, falling back to the directory one
    /// where the page itself carries none.
    pub fn description(&self) -> (r: Option<&String>)
        ensures
            (r is Some) == (self.description is Some || self.dmoz_description is Some),
            self.description is Some ==> r is Some && r->0@ == self.description->0@,
            self.description is None && self.dmoz_description is Some ==> r is Some && r->0@
                == self.dmoz_description->0@,
    {
        match &self.description {
            Some(d) => Some(d),
            None => match &self.dmoz_description {
                Some(d) => Some(d),
                None => None,
            },
        }
    }
}

impl InvertedIndex {
    /// Hydrates the collected pointers into result records with
    /// snippets: one page per pointer whose address still resolves, in
    /// pointer order; a dangling pointer is dropped silently. Each page
    /// reads its document's stored fields back exactly, and its snippet
    /// follows the policy: with no simple terms it takes the leading
    /// words of the description, falling back to the body where the
    /// description is absent or too short; otherwise it reads the
    /// description exactly when the body is short for the page kind and
    /// the description is long enough, and the body otherwise.
    pub fn retrieve_websites(
        &self,
        websites: &Vec<WebsitePointer>,
        q: &Query,
        conf: &SnippetConfig,
    ) -> (r: Vec<RetrievedWebpage>)
        ensures
            r@.len() == spec_resolved_docs(self.segments@, websites@).len(),
            forall|k: int|
                0 <= k < r@.len() ==> spec_page_result(
                    spec_resolved_docs(self.segments@, websites@)[k],
                    #[trigger] r@[k],
                    q.simple_terms_text@,
                    *conf,
                ),
    {
        let ghost segs = self.segments@;
        let ghost gp = websites@;
        let ghost gterms = q.simple_terms_text@;
        let mut out: Vec<RetrievedWebpage> = Vec::new();
        let mut i: usize = 0;
        while i < websites.len()
            invariant
                i <= gp.len(),
                gp == websites@,
                segs == self.segments@,
                gterms == q.simple_terms_text@,
                out@.len() == spec_resolved_docs(segs, gp.take(i as int)).len(),
                forall|k: int|
                    0 <= k < out@.len() ==> spec_page_result(
                        spec_resolved_docs(segs, gp.take(i as int))[k],
                        #[trigger] out@[k],
                        gterms,
                        *conf,
                    ),
            decreases gp.len() - i,
        {
            proof {
                assert(gp.take(i + 1).drop_last() =~= gp.take(i as int));
                assert(gp.take(i + 1).last() == gp[i as int]);
            }
            let ptr = &websites[i];
            let si = ptr.address.segment as usize;
            let mut pushed = false;
            if si < self.segments.len() {
                let seg = &self.segments[si];
                let di = ptr.address.doc_id as usize;
                if di < seg.docs.len() {
                    let d = &seg.docs[di];
                    proof {
                        assert(spec_resolves(segs, gp[i as int]));
                        assert(spec_doc_at(segs, gp[i as int]) == d@);
                    }
                    let mut page = RetrievedWebpage::from_doc(d);
                    let homepage = match crate::urls::parse_url_parts(page.url.as_str()) {
                        Some(parts) => crate::urls::is_homepage_parts(&parts),
                        None => false,
                    };
                    proof {
                        assert(homepage == spec_doc_homepage(d@));
                    }
                    let terms = q.simple_terms();
                    let use_desc = snippet_uses_description(
                        terms.len(),
                        page.body.as_str(),
                        &page.description,
                        homepage,
                        conf,
                    );
                    let ghost src = spec_snippet_source(d@, gterms.len() as int, *conf);
                    proof {
                        if use_desc && page.description is Some {
                            assert(page.description->Some_0@ == src);
                        } else {
                            if use_desc {
                                assert(d@.description.len() == 0);
                            }
                            assert(page.body@ == src);
                        }
                    }
                    if terms.len() == 0 {
                        let snip = if use_desc {
                            match &page.description {
                                Some(desc) => first_words_snippet(
                                    desc.as_str(),
                                    conf.empty_query_snippet_words,
                                ),
                                None => first_words_snippet(
                                    page.body.as_str(),
                                    conf.empty_query_snippet_words,
                                ),
                            }
                        } else {
                            first_words_snippet(page.body.as_str(), conf.empty_query_snippet_words)
                        };
                        page.snippet = snip;
                    } else {
                        let snip = if use_desc {
                            match &page.description {
                                Some(desc) => generate_snippet(desc.as_str(), terms, conf),
                                None => generate_snippet(page.body.as_str(), terms, conf),
                            }
                        } else {
                            generate_snippet(page.body.as_str(), terms, conf)
                        };
                        page.snippet = snip;
                    }
                    proof {
                        assert(spec_retrieved(d@, page));
                        assert(spec_page_result(d@, page, gterms, *conf));
                    }
                    let ghost pre_out = out@;
                    let ghost gpage = page;
                    out.push(page);
                    pushed = true;
                    proof {
                        assert(spec_resolved_docs(segs, gp.take(i + 1)) =~= spec_resolved_docs(
                            segs,
                            gp.take(i as int),
                        ).push(d@));
                        assert forall|k: int| 0 <= k < out@.len() implies spec_page_result(
                            spec_resolved_docs(segs, gp.take(i + 1))[k],
                            #[trigger] out@[k],
                            gterms,
                            *conf,
                        ) by {
                            if k < pre_out.len() {
                                assert(out@[k] == pre_out[k]);
                                assert(spec_resolved_docs(segs, gp.take(i + 1))[k]
                                    == spec_resolved_docs(segs, gp.take(i as int))[k]);
                            } else {
                                assert(out@[k] == gpage);
                            }
                        }
                    }
                }
            }
            proof {
                if !pushed {
                    assert(!spec_resolves(segs, gp[i as int]));
                    assert(spec_resolved_docs(segs, gp.take(i + 1)) =~= spec_resolved_docs(
                        segs,
                        gp.take(i as int),
                    ));
                }
            }
            i = i + 1;
        }
        proof {
            assert(gp.take(gp.len() as int) =~= gp);
        }
        out
    }

    /// Reads the host graph node of a collected pointer's page: none
    /// outside when the pointer no longer resolves, none inside when
    /// the page was stored without a node (the sentinel value marks
    /// that).
    pub fn website_host_node(&self, website: &WebsitePointer) -> (r: Option<Option<u64>>)
        ensures
            (r is Some) == spec_resolves(self.segments@, *website),
            spec_resolves(self.segments@, *website) ==> r == Some(
                if spec_doc_at(self.segments@, *website).host_node_id == u64::MAX {
                    None
                } else {
                    Some(spec_doc_at(self.segments@, *website).host_node_id)
                },
            ),
    {
        let si = website.address.segment as usize;
        if si >= self.segments.len() {
            return None;
        }
        let seg = &self.segments[si];
        let di = website.address.doc_id as usize;
        if di >= seg.docs.len() {
            return None;
        }
        let id = seg.docs[di].host_node_id;
        proof {
            assert(spec_doc_at(self.segments@, *website) == seg.docs@[di as int]@);
        }
        if id == u64::MAX {
            Some(None)
        } else {
            Some(Some(id))
        }
    }

    /// Hydrates the collected pointers into light ranking records:
    /// one record per pointer whose address still resolves, in pointer
    /// order, carrying that document's stored fast fields and title. A
    /// dangling pointer is dropped silently.
    pub fn retrieve_ranking_websites(&self, pointers: &Vec<WebsitePointer>) -> (r: Vec<
        RankingWebsite,
    >)
        ensures
            r@.len() == spec_resolved_ptrs(self.segments@, pointers@).len(),
            forall|k: int|
                0 <= k < r@.len() ==> (#[trigger] r@[k]).pointer == spec_resolved_ptrs(
                    self.segments@,
                    pointers@,
                )[k],
            forall|k: int|
                0 <= k < r@.len() ==> {
                    let d = spec_resolved_docs(self.segments@, pointers@)[k];
                    (#[trigger] r@[k]).host_centrality == d.host_centrality && r@[k].page_centrality
                        == d.page_centrality && r@[k].pre_computed_score == d.pre_computed_score
                        && r@[k].title@ == d.title
                },
    {
        let ghost segs = self.segments@;
        let ghost gp = pointers@;
        let mut out: Vec<RankingWebsite> = Vec::new();
        let mut i: usize = 0;
        while i < pointers.len()
            invariant
                i <= gp.len(),
                gp == pointers@,
                segs == self.segments@,
                out@.len() == spec_resolved_ptrs(segs, gp.take(i as int)).len(),
                out@.len() == spec_resolved_docs(segs, gp.take(i as int)).len(),
                forall|k: int|
                    0 <= k < out@.len() ==> (#[trigger] out@[k]).pointer == spec_resolved_ptrs(
                        segs,
                        gp.take(i as int),
                    )[k],
                forall|k: int|
                    0 <= k < out@.len() ==> {
                        let d = spec_resolved_docs(segs, gp.take(i as int))[k];
                        (#[trigger] out@[k]).host_centrality == d.host_centrality
                            && out@[k].page_centrality == d.page_centrality
                            && out@[k].pre_computed_score == d.pre_computed_score && out@[k].title@
                            == d.title
                    },
            decreases gp.len() - i,
        {
            proof {
                assert(gp.take(i + 1).drop_last() =~= gp.take(i as int));
                assert(gp.take(i + 1).last() == gp[i as int]);
            }
            let ptr = pointers[i];
            let si = ptr.address.segment as usize;
            let mut pushed = false;
            if si < self.segments.len() {
                let seg = &self.segments[si];
                let di = ptr.address.doc_id as usize;
                if di < seg.docs.len() {
                    let d = &seg.docs[di];
                    proof {
                        assert(spec_resolves(segs, gp[i as int]));
                        assert(spec_doc_at(segs, gp[i as int]) == d@);
                    }
                    out.push(
                        RankingWebsite {
                            pointer: ptr,
                            host_centrality: d.host_centrality,
                            page_centrality: d.page_centrality,
                            pre_computed_score: d.pre_computed_score,
                            title: d.title.clone(),
                        },
                    );
                    pushed = true;
                }
            }
            proof {
                if !pushed {
                    assert(!spec_resolves(segs, gp[i as int]));
                    assert(spec_resolved_ptrs(segs, gp.take(i + 1)) =~= spec_resolved_ptrs(
                        segs,
                        gp.take(i as int),
                    ));
                    assert(spec_resolved_docs(segs, gp.take(i + 1)) =~= spec_resolved_docs(
                        segs,
                        gp.take(i as int),
                    ));
                }
            }
            i = i + 1;
        }
        proof {
            assert(gp.take(gp.len() as int) =~= gp);
        }
        out
    }

    /// Looks a stored page up by its exact URL, normalised the same way
    /// the indexer stored it: the first hit, or nothing.
    pub fn get_webpage(&self, url: &str) -> (r: Option<RetrievedWebpage>)
        ensures
            r is Some ==> spec_found_by_url(
                self.spec_live_docs(),
                r->Some_0,
                crate::urls::url_normal_of(url@),
            ),
            !crate::urls::url_parses(url@) ==> r is None,
            crate::urls::url_parses(url@) && (exists|d: DocModel|
                self.spec_live_docs().contains(d) && (#[trigger] d.url_exact)
                    == crate::urls::url_normal_of(url@)) ==> r is Some,
    {
        let parts = match crate::urls::parse_url_parts(url) {
            Some(p) => p,
            None => {
                return None;
            },
        };
        let mut si: usize = 0;
        while si < self.segments.len()
            invariant
                si <= self.segments@.len(),
                crate::urls::url_parses(url@),
                parts.normalized@ == crate::urls::url_normal_of(url@),
                forall|a: int, b: int|
                    0 <= a < si && 0 <= b < self.segments@[a].docs@.len() ==> (
                    #[trigger] self.segments@[a].docs@[b])@.url_exact != parts.normalized@,
            decreases self.segments@.len() - si,
        {
            let seg = &self.segments[si];
            let mut di: usize = 0;
            while di < seg.docs.len()
                invariant
                    si < self.segments@.len(),
                    di <= seg.docs@.len(),
                    seg == self.segments@[si as int],
                    crate::urls::url_parses(url@),
                    parts.normalized@ == crate::urls::url_normal_of(url@),
                    forall|a: int, b: int|
                        0 <= a < si && 0 <= b < self.segments@[a].docs@.len() ==> (
                        #[trigger] self.segments@[a].docs@[b])@.url_exact != parts.normalized@,
                    forall|b: int|
                        0 <= b < di ==> (#[trigger] self.segments@[si as int].docs@[b])@.url_exact
                            != parts.normalized@,
                decreases seg.docs@.len() - di,
            {
                let d = &seg.docs[di];
                if d.url_exact.eq(&parts.normalized) {
                    let page = RetrievedWebpage::from_doc(d);
                    proof {
                        lemma_live_contains(self.segments@, si as int, di as int);
                        assert(self.spec_live_docs().contains(d@));
                        assert(d@.url_exact == crate::urls::url_normal_of(url@));
                        assert(spec_found_by_url(
                            self.spec_live_docs(),
                            page,
                            crate::urls::url_normal_of(url@),
                        )) by {
                            assert(self.spec_live_docs().contains(d@) && spec_retrieved(d@, page)
                                && d@.url_exact == crate::urls::url_normal_of(url@));
                        }
                    }
                    return Some(page);
                }
                proof {
                    assert((self.segments@[si as int].docs@[di as int])@.url_exact
                        != parts.normalized@);
                }
                di = di + 1;
            }
            proof {
                assert forall|a: int, b: int|
                    0 <= a < si + 1 && 0 <= b < self.segments@[a].docs@.len() implies (
                #[trigger] self.segments@[a].docs@[b])@.url_exact != parts.normalized@ by {}
            }
            si = si + 1;
        }
        proof {
            if exists|d: DocModel|
                self.spec_live_docs().contains(d) && (#[trigger] d.url_exact)
                    == crate::urls::url_normal_of(url@) {
                let d = choose|d: DocModel|
                    self.spec_live_docs().contains(d) && (#[trigger] d.url_exact)
                        == crate::urls::url_normal_of(url@);
                lemma_live_index(self.segments@, d);
                assert(false);
            }
        }
        None
    }

    /// Looks the stored homepage of a host up: the first page whose
    /// homepage-host field carries the URL's host, or nothing.
    pub fn get_homepage(&self, url: &str) -> (r: Option<RetrievedWebpage>)
        ensures
            r is Some ==> spec_found_by_host(
                self.spec_live_docs(),
                r->Some_0,
                crate::urls::url_host_of(url@),
            ),
            !crate::urls::url_parses(url@) ==> r is None,
            crate::urls::url_parses(url@) && crate::urls::url_host_of(url@).len() > 0 && (exists|
                d: DocModel,
            |
                self.spec_live_docs().contains(d) && (#[trigger] d.site_if_homepage)
                    == crate::urls::url_host_of(url@)) ==> r is Some,
    {
        let parts = match crate::urls::parse_url_parts(url) {
            Some(p) => p,
            None => {
                return None;
            },
        };
        if parts.host.as_str().is_empty() {
            return None;
        }
        let mut si: usize = 0;
        while si < self.segments.len()
            invariant
                si <= self.segments@.len(),
                crate::urls::url_parses(url@),
                parts.host@ == crate::urls::url_host_of(url@),
                forall|a: int, b: int|
                    0 <= a < si && 0 <= b < self.segments@[a].docs@.len() ==> (
                    #[trigger] self.segments@[a].docs@[b])@.site_if_homepage != parts.host@,
            decreases self.segments@.len() - si,
        {
            let seg = &self.segments[si];
            let mut di: usize = 0;
            while di < seg.docs.len()
                invariant
                    si < self.segments@.len(),
                    di <= seg.docs@.len(),
                    seg == self.segments@[si as int],
                    crate::urls::url_parses(url@),
                    parts.host@ == crate::urls::url_host_of(url@),
                    forall|a: int, b: int|
                        0 <= a < si && 0 <= b < self.segments@[a].docs@.len() ==> (
                        #[trigger] self.segments@[a].docs@[b])@.site_if_homepage != parts.host@,
                    forall|b: int|
                        0 <= b < di ==> (
                        #[trigger] self.segments@[si as int].docs@[b])@.site_if_homepage
                            != parts.host@,
                decreases seg.docs@.len() - di,
            {
                let d = &seg.docs[di];
                if d.site_if_homepage.eq(&parts.host) {
                    let page = RetrievedWebpage::from_doc(d);
                    proof {
                        lemma_live_contains(self.segments@, si as int, di as int);
                        assert(self.spec_live_docs().contains(d@));
                        assert(d@.site_if_homepage == crate::urls::url_host_of(url@));
                        assert(spec_found_by_host(
                            self.spec_live_docs(),
                            page,
                            crate::urls::url_host_of(url@),
                        )) by {
                            assert(self.spec_live_docs().contains(d@) && spec_retrieved(d@, page)
                                && d@.site_if_homepage == crate::urls::url_host_of(url@));
                        }
                    }
                    return Some(page);
                }
                proof {
                    assert((self.segments@[si as int].docs@[di as int])@.site_if_homepage
                        != parts.host@);
                }
                di = di + 1;
            }
            proof {
                assert forall|a: int, b: int|
                    0 <= a < si + 1 && 0 <= b < self.segments@[a].docs@.len() implies (
                #[trigger] self.segments@[a].docs@[b])@.site_if_homepage != parts.host@ by {}
            }
            si = si + 1;
        }
        proof {
            if exists|d: DocModel|
                self.spec_live_docs().contains(d) && (#[trigger] d.site_if_homepage)
                    == crate::urls::url_host_of(url@) {
                let d = choose|d: DocModel|
                    self.spec_live_docs().contains(d) && (#[trigger] d.site_if_homepage)
                        == crate::urls::url_host_of(url@);
                lemma_live_index(self.segments@, d);
                assert(false);
            }
        }
        None
    }
}

/// Whether a collected pointer's address still resolves in the store.
pub open spec fn spec_resolves(segs: Seq<Segment>, p: WebsitePointer) -> bool {
    p.address.segment < segs.len() && p.address.doc_id < segs[p.address.segment as int].docs@.len()
}

/// The document a resolvable pointer addresses.
pub open spec fn spec_doc_at(segs: Seq<Segment>, p: WebsitePointer) -> DocModel {
    segs[p.address.segment as int].docs@[p.address.doc_id as int]@
}

/// The documents of the resolvable pointers, in pointer order; a
/// dangling pointer is dropped silently.
pub open spec fn spec_resolved_docs(segs: Seq<Segment>, ptrs: Seq<WebsitePointer>) -> Seq<DocModel>
    decreases ptrs.len(),
{
    if ptrs.len() == 0 {
        Seq::empty()
    } else {
        let p = spec_resolved_docs(segs, ptrs.drop_last());
        if spec_resolves(segs, ptrs.last()) {
            p.push(spec_doc_at(segs, ptrs.last()))
        } else {
            p
        }
    }
}

/// The resolvable pointers themselves, in order.
pub open spec fn spec_resolved_ptrs(segs: Seq<Segment>, ptrs: Seq<WebsitePointer>) -> Seq<
    WebsitePointer,
>
    decreases ptrs.len(),
{
    if ptrs.len() == 0 {
        Seq::empty()
    } else {
        let p = spec_resolved_ptrs(segs, ptrs.drop_last());
        if spec_resolves(segs, ptrs.last()) {
            p.push(ptrs.last())
        } else {
            p
        }
    }
}

/// Whether the stored URL names a homepage: it parses, its path is
/// the bare slash and it has no query string.
pub open spec fn spec_doc_homepage(d: DocModel) -> bool {
    crate::urls::url_parses(d.url_exact) && crate::webpage::spec_url_homepage(d.url_exact)
}

/// The text the snippet of a document reads, per the policy in force.
pub open spec fn spec_snippet_source(d: DocModel, terms_len: int, conf: SnippetConfig) -> Seq<
    char,
> {
    let desc = if d.description.len() > 0 {
        Some(d.description)
    } else {
        None
    };
    if spec_snippet_uses_description(terms_len, d.clean_body, desc, spec_doc_homepage(d), conf)
        && d.description.len() > 0 {
        d.description
    } else {
        d.clean_body
    }
}

/// The page a resolvable pointer hydrates into: every stored field
/// read back per `spec_retrieved`, and the snippet built from the
/// policy-chosen source: with no simple terms, its leading words,
/// unhighlighted; with terms, one fragment per word within the wanted
/// character count, highlighted exactly on term hits.
pub open spec fn spec_page_result(
    d: DocModel,
    page: RetrievedWebpage,
    terms: Seq<String>,
    conf: SnippetConfig,
) -> bool {
    let words = crate::tokenize::spec_ws_split(
        vstd::utf8::encode_utf8(spec_snippet_source(d, terms.len() as int, conf)),
    );
    &&& spec_retrieved(d, page)
    &&& (terms.len() == 0 ==> page.snippet.fragments@.len() == spec_capped_len(
        words.len() as int,
        conf.empty_query_snippet_words as int,
    ) && (forall|j: int|
        0 <= j < page.snippet.fragments@.len() ==> !(
        #[trigger] page.snippet.fragments@[j]).highlighted))
    &&& (terms.len() > 0 ==> page.snippet.fragments@.len() == spec_snippet_take(
        words,
        0,
        conf.desired_num_chars as int,
    ) && (forall|j: int|
        0 <= j < page.snippet.fragments@.len() ==> (
        #[trigger] page.snippet.fragments@[j]).highlighted == spec_word_hit(words[j], terms)))
    &&& (forall|j: int|
        0 <= j < page.snippet.fragments@.len() && vstd::utf8::valid_utf8(words[j])
            ==> vstd::utf8::encode_utf8((#[trigger] page.snippet.fragments@[j]).text@)
            == words[j])
}

/// Some live document with the given exact URL reads back as this
/// page.
pub open spec fn spec_found_by_url(live: Seq<DocModel>, page: RetrievedWebpage, u: Seq<char>) -> bool {
    exists|d: DocModel|
        #[trigger] live.contains(d) && spec_retrieved(d, page) && d.url_exact == u
}

/// Some live document whose homepage-host field carries the host reads
/// back as this page.
pub open spec fn spec_found_by_host(live: Seq<DocModel>, page: RetrievedWebpage, h: Seq<char>) -> bool {
    exists|d: DocModel|
        #[trigger] live.contains(d) && spec_retrieved(d, page) && d.site_if_homepage == h
}

/// A snippet of the first words of a text, unhighlighted: one
/// fragment per word, capped at `n` words.
fn first_words_snippet(text: &str, n: usize) -> (r: TextSnippet)
    ensures
        r.fragments@.len() == spec_capped_len(
            crate::tokenize::spec_ws_split(vstd::utf8::encode_utf8(text@)).len() as int,
            n as int,
        ),
        forall|j: int|
            0 <= j < r.fragments@.len() ==> !(#[trigger] r.fragments@[j]).highlighted,
        forall|j: int|
            0 <= j < r.fragments@.len() && vstd::utf8::valid_utf8(
                crate::tokenize::spec_ws_split(vstd::utf8::encode_utf8(text@))[j],
            ) ==> vstd::utf8::encode_utf8((#[trigger] r.fragments@[j]).text@)
                == crate::tokenize::spec_ws_split(vstd::utf8::encode_utf8(text@))[j],
{
    let words = crate::tokenize::ws_split(text.as_bytes());
    let ghost gw = crate::tokenize::toks_view(words);
    let mut frags: Vec<TextSnippetFragment> = Vec::new();
    let mut i: usize = 0;
    while i < words.len() && i < n
        invariant
            frags@.len() == i,
            i <= n,
            i <= words@.len(),
            gw == crate::tokenize::toks_view(words),
            gw.len() == words@.len(),
            forall|j: int| 0 <= j < frags@.len() ==> !(#[trigger] frags@[j]).highlighted,
            forall|j: int|
                0 <= j < i && vstd::utf8::valid_utf8(gw[j]) ==> vstd::utf8::encode_utf8(
                    (#[trigger] frags@[j]).text@,
                ) == gw[j],
        decreases words@.len() - i,
    {
        proof {
            assert(gw[i as int] == words@[i as int]@);
        }
        frags.push(
            TextSnippetFragment {
                text: crate::query::bytes_to_string(&words[i]),
                highlighted: false,
            },
        );
        i = i + 1;
    }
    TextSnippet { fragments: frags }
}

/// A length capped at `n`.
pub open spec fn spec_capped_len(len: int, n: int) -> int {
    if len <= n {
        len
    } else {
        n
    }
}

/// A live document stands at some valid address.
proof fn lemma_live_index(segs: Seq<Segment>, d: DocModel)
    requires
        all_docs(segs).contains(d),
    ensures
        exists|si: int, di: int|
            0 <= si < segs.len() && 0 <= di < segs[si].docs@.len() && (#[trigger] segs[si].docs@[
            di])@ == d,
    decreases segs.len(),
{
    let k = choose|k: int| 0 <= k < all_docs(segs).len() && all_docs(segs)[k] == d;
    let head_len = all_docs(segs.drop_last()).len() as int;
    if k < head_len {
        assert(all_docs(segs.drop_last())[k] == d);
        lemma_live_index(segs.drop_last(), d);
        let (si, di) = choose|si: int, di: int|
            0 <= si < segs.drop_last().len() && 0 <= di < segs.drop_last()[si].docs@.len() && (
            #[trigger] segs.drop_last()[si].docs@[di])@ == d;
        assert(segs.drop_last()[si] == segs[si]);
        assert((segs[si].docs@[di])@ == d);
    } else {
        let di = k - head_len;
        assert(seg_docs(segs.last())[di] == d);
        let si = segs.len() - 1;
        assert((segs[si].docs@[di])@ == d);
    }
}

/// A document at a valid address is among the live documents.
proof fn lemma_live_contains(segs: Seq<Segment>, si: int, di: int)
    requires
        0 <= si < segs.len(),
        0 <= di < segs[si].docs@.len(),
    ensures
        all_docs(segs).contains(segs[si].docs@[di]@),
    decreases segs.len(),
{
    if si == segs.len() - 1 {
        assert(seg_docs(segs.last())[di] == segs[si].docs@[di]@);
        assert(all_docs(segs)[all_docs(segs.drop_last()).len() + di] == segs[si].docs@[di]@);
    } else {
        lemma_live_contains(segs.drop_last(), si, di);
        assert(segs.drop_last()[si] == segs[si]);
        let k = choose|k: int|
            0 <= k < all_docs(segs.drop_last()).len() && all_docs(segs.drop_last())[k] == segs[
                si].docs@[di]@;
        assert(all_docs(segs)[k] == segs[si].docs@[di]@);
    }
}

} // verus!
