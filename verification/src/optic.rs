//! The optic rule language: rules of field patterns with boost,
//! downrank and discard actions, host rankings, and ranking
//! coefficients, compiled into operators grafted onto the query tree.

use vstd::prelude::*;
use vstd::utf8::encode_utf8;

use crate::operator::{op_matches, op_score, op_wf, sat_add, Occur, Operator};
use crate::pattern::{
    parse_pattern, spec_end_anchor, spec_items_matches, spec_pattern_items, spec_start_anchor,
    ChainKind, ItemModel, Pattern,
};
use crate::schema::{spec_field_tokens, DocModel, TextField};

verus! {

/// The field group a matching aims at.
#[derive(Clone, Copy, PartialEq, Eq, Structural, Debug)]
pub enum MatchLocation {
    Site,
    Url,
    Domain,
    Title,
    Description,
    Content,
    MicroformatTag,
    Schema,
}

/// One matcher of a rule: a pattern on a field group.
pub struct Matching {
    pub location: MatchLocation,
    pub pattern: String,
}

/// The mathematical view of a matcher.
pub struct MatchingModel {
    pub location: MatchLocation,
    pub pattern: Seq<u8>,
}

impl View for Matching {
    type V = MatchingModel;

    open spec fn view(&self) -> MatchingModel {
        MatchingModel { location: self.location, pattern: encode_utf8(self.pattern@) }
    }
}

/// What a matched rule does to a document.
#[derive(Clone, Copy, PartialEq, Eq, Structural, Debug)]
pub enum Action {
    /// Add the given score, in thousandths, to a matched document.
    Boost(u64),
    /// Subtract the given score, in thousandths, from a matched
    /// document.
    Downrank(u64),
    /// Drop a matched document from the results altogether.
    Discard,
}

/// A rule: one or more `Matches` blocks (matched as an OR; the
/// matchers inside one block must all hold) and an action.
pub struct Rule {
    pub matches: Vec<Vec<Matching>>,
    pub action: Action,
}

/// One ranking coefficient override: a named signal and its value in
/// thousandths.
pub struct RankingCoeff {
    pub target: String,
    pub value: i64,
}

/// Liked, disliked and blocked hosts. Blocked hosts compile to discard
/// rules; liked and disliked hosts feed a host-similarity signal.
pub struct HostRankings {
    pub liked: Vec<String>,
    pub disliked: Vec<String>,
    pub blocked: Vec<String>,
}

/// A compiled optic program.
pub struct Optic {
    pub rankings: Vec<RankingCoeff>,
    pub rules: Vec<Rule>,
    pub discard_non_matching: bool,
    pub host_rankings: HostRankings,
}

/// The analysis chain of the field group a matching aims at.
pub open spec fn spec_location_chain(loc: MatchLocation) -> ChainKind {
    match loc {
        MatchLocation::Site => ChainKind::SiteUrl,
        MatchLocation::Schema => ChainKind::JsonPath,
        _ => ChainKind::Word,
    }
}

/// The text field a matching aims at. `Site` and `Description` have
/// their own treatment.
pub open spec fn spec_location_field(loc: MatchLocation) -> TextField {
    match loc {
        MatchLocation::Site => TextField::UrlForSiteOperator,
        MatchLocation::Url => TextField::Url,
        MatchLocation::Domain => TextField::Domain,
        MatchLocation::Title => TextField::Title,
        MatchLocation::Description => TextField::Description,
        MatchLocation::Content => TextField::CleanBody,
        MatchLocation::MicroformatTag => TextField::MicroformatTags,
        MatchLocation::Schema => TextField::FlattenedSchemaOrgJson,
    }
}

/// The reduced items of a matcher's pattern.
pub open spec fn spec_matching_items(m: MatchingModel) -> Seq<ItemModel> {
    spec_pattern_items(m.pattern, spec_location_chain(m.location))
}

/// A matcher whose pattern reduces to nothing: it is pruned.
pub open spec fn spec_matching_pruned(m: MatchingModel) -> bool {
    spec_matching_items(m).len() == 0
}

/// Whether a matcher accepts a document. A site pattern anchored on
/// both sides matches the host exactly; any other site pattern runs
/// over host and path. A description pattern runs over both
/// description fields.
pub open spec fn spec_matching_matches(m: MatchingModel, d: DocModel) -> bool {
    let sa = spec_start_anchor(m.pattern);
    let ea = spec_end_anchor(m.pattern);
    let items = spec_matching_items(m);
    match m.location {
        MatchLocation::Site => {
            if sa && ea {
                spec_items_matches(sa, ea, items, d.site_tokens)
            } else {
                spec_items_matches(sa, ea, items, d.site_url_tokens)
            }
        },
        MatchLocation::Description => spec_items_matches(sa, ea, items, d.description_tokens)
            || spec_items_matches(sa, ea, items, d.dmoz_description_tokens),
        _ => spec_items_matches(sa, ea, items, spec_field_tokens(d, spec_location_field(m.location))),
    }
}

/// A union of two branches: matches when either does.
pub(crate) fn union2(a: Operator, b: Operator) -> (r: Operator)
    requires
        op_wf(a),
        op_wf(b),
    ensures
        op_wf(r),
        forall|d: DocModel| #[trigger] op_matches(r, d) == (op_matches(a, d) || op_matches(b, d)),
{
    let ghost ga = a;
    let ghost gb = b;
    let mut branches: Vec<Operator> = Vec::new();
    branches.push(a);
    branches.push(b);
    let r = Operator::Union(branches);
    proof {
        assert(r->Union_0@ =~= seq![ga, gb]);
        assert forall|i: int| 0 <= i < r->Union_0@.len() implies op_wf(
            #[trigger] r->Union_0@[i],
        ) by {
            if i == 0 {
                assert(r->Union_0@[0] == ga);
            } else {
                assert(r->Union_0@[1] == gb);
            }
        }
        assert forall|d: DocModel| #[trigger] op_matches(r, d) == (op_matches(ga, d) || op_matches(
            gb,
            d,
        )) by {
            if op_matches(ga, d) {
                assert(op_matches(r->Union_0@[0], d));
            }
            if op_matches(gb, d) {
                assert(op_matches(r->Union_0@[1], d));
            }
            if op_matches(r, d) {
                let i = choose|i: int|
                    0 <= i < r->Union_0@.len() && op_matches(#[trigger] r->Union_0@[i], d);
                assert(i == 0 || i == 1);
            }
        }
    }
    r
}

/// Compiles one matcher, given as a location and raw pattern bytes; a
/// pruned matcher yields nothing.
pub fn compile_matching_bytes(location: MatchLocation, pattern: &[u8]) -> (r: Option<Operator>)
    ensures
        r is Some <==> !spec_matching_pruned(MatchingModel { location, pattern: pattern@ }),
        r is Some ==> op_wf(r->Some_0),
        r is Some ==> forall|d: DocModel| #[trigger] op_matches(r->Some_0, d)
            == spec_matching_matches(MatchingModel { location, pattern: pattern@ }, d),
{
    let chain = match location {
        MatchLocation::Site => ChainKind::SiteUrl,
        MatchLocation::Schema => ChainKind::JsonPath,
        _ => ChainKind::Word,
    };
    let p = parse_pattern(pattern, chain);
    if p.is_empty() {
        return None;
    }
    match location {
        MatchLocation::Site => {
            if p.start_anchor && p.end_anchor {
                Some(Operator::PatternOp { field: TextField::Site, pattern: p })
            } else {
                Some(Operator::PatternOp { field: TextField::UrlForSiteOperator, pattern: p })
            }
        },
        MatchLocation::Description => {
            let p2 = parse_pattern(pattern, ChainKind::Word);
            Some(
                union2(
                    Operator::PatternOp { field: TextField::Description, pattern: p },
                    Operator::PatternOp { field: TextField::DmozDescription, pattern: p2 },
                ),
            )
        },
        MatchLocation::Url => Some(Operator::PatternOp { field: TextField::Url, pattern: p }),
        MatchLocation::Domain => Some(Operator::PatternOp { field: TextField::Domain, pattern: p }),
        MatchLocation::Title => Some(Operator::PatternOp { field: TextField::Title, pattern: p }),
        MatchLocation::Content => Some(
            Operator::PatternOp { field: TextField::CleanBody, pattern: p },
        ),
        MatchLocation::MicroformatTag => Some(
            Operator::PatternOp { field: TextField::MicroformatTags, pattern: p },
        ),
        MatchLocation::Schema => Some(
            Operator::PatternOp { field: TextField::FlattenedSchemaOrgJson, pattern: p },
        ),
    }
}

/// Compiles one matcher; a pruned matcher yields nothing.
pub fn compile_matching(m: &Matching) -> (r: Option<Operator>)
    ensures
        r is Some <==> !spec_matching_pruned(m@),
        r is Some ==> op_wf(r->Some_0),
        r is Some ==> forall|d: DocModel| #[trigger] op_matches(r->Some_0, d)
            == spec_matching_matches(m@, d),
{
    compile_matching_bytes(m.location, m.pattern.as_str().as_bytes())
}

/// The views of a block's matchers.
pub open spec fn matchings_model(ms: Seq<Matching>) -> Seq<MatchingModel> {
    ms.map_values(|m: Matching| m@)
}

/// A block with at least one matcher left after pruning.
pub open spec fn spec_block_live(b: Seq<MatchingModel>) -> bool {
    exists|i: int| 0 <= i < b.len() && !spec_matching_pruned(#[trigger] b[i])
}

/// Whether a block accepts a document: it is live, and every unpruned
/// matcher of it accepts the document.
pub open spec fn spec_block_matches(b: Seq<MatchingModel>, d: DocModel) -> bool {
    spec_block_live(b) && (forall|i: int|
        0 <= i < b.len() && !spec_matching_pruned(#[trigger] b[i]) ==> spec_matching_matches(
            b[i],
            d,
        ))
}

/// A rule with at least one live block.
pub open spec fn spec_rule_live(blocks: Seq<Seq<MatchingModel>>) -> bool {
    exists|i: int| 0 <= i < blocks.len() && spec_block_live(#[trigger] blocks[i])
}

/// Whether a rule accepts a document: one of its blocks does.
pub open spec fn spec_rule_matches(blocks: Seq<Seq<MatchingModel>>, d: DocModel) -> bool {
    exists|i: int| 0 <= i < blocks.len() && spec_block_matches(#[trigger] blocks[i], d)
}

/// The views of a rule's blocks.
pub open spec fn rule_blocks_model(r: Rule) -> Seq<Seq<MatchingModel>> {
    r.matches@.map_values(|b: Vec<Matching>| matchings_model(b@))
}

/// Whether every operator of a list is well-formed.
pub open spec fn ops_wf(ops: Seq<Operator>) -> bool {
    forall|i: int| 0 <= i < ops.len() ==> op_wf(#[trigger] ops[i])
}

/// Whether every operator of a list accepts the document.
pub open spec fn ops_all_match(ops: Seq<Operator>, d: DocModel) -> bool {
    forall|i: int| 0 <= i < ops.len() ==> op_matches(#[trigger] ops[i], d)
}

/// Whether some operator of a list accepts the document.
pub open spec fn ops_any_match(ops: Seq<Operator>, d: DocModel) -> bool {
    exists|i: int| 0 <= i < ops.len() && op_matches(#[trigger] ops[i], d)
}

/// A conjunction of operators: matches when all branches do.
fn bool_all(ops: Vec<Operator>) -> (r: Operator)
    requires
        ops_wf(ops@),
        ops@.len() > 0,
    ensures
        op_wf(r),
        forall|d: DocModel| #[trigger] op_matches(r, d) == ops_all_match(ops@, d),
{
    let ghost gops = ops@;
    let mut ops = ops;
    let mut cs: Vec<(Occur, Operator)> = Vec::new();
    while ops.len() > 0
        invariant
            cs@.len() + ops@.len() == gops.len(),
            ops@ =~= gops.subrange(cs@.len() as int, gops.len() as int),
            forall|i: int| 0 <= i < cs@.len() ==> #[trigger] cs@[i] == (Occur::Must, gops[i]),
        decreases ops@.len(),
    {
        let op = ops.remove(0);
        proof {
            assert(op == gops[cs@.len() as int]);
        }
        cs.push((Occur::Must, op));
        proof {
            assert(ops@ =~= gops.subrange(cs@.len() as int, gops.len() as int));
        }
    }
    let r = Operator::Bool(cs);
    proof {
        assert(r->Bool_0@.len() == gops.len());
        assert forall|d: DocModel| #[trigger] op_matches(r, d) == ops_all_match(gops, d) by {
            assert(ops_wf(gops));
            if ops_all_match(gops, d) {
                assert forall|i: int|
                    0 <= i < r->Bool_0@.len() && r->Bool_0@[i].0 == Occur::Must implies op_matches(
                    #[trigger] r->Bool_0@[i].1,
                    d,
                ) by {
                    assert(r->Bool_0@[i] == (Occur::Must, gops[i]));
                    assert(op_matches(gops[i], d));
                }
                assert(r->Bool_0@[0].0 == Occur::Must);
                assert(op_matches(r, d));
            }
            if op_matches(r, d) {
                assert forall|i: int| 0 <= i < gops.len() implies op_matches(
                    #[trigger] gops[i],
                    d,
                ) by {
                    assert(r->Bool_0@[i] == (Occur::Must, gops[i]));
                    assert(op_matches(r->Bool_0@[i].1, d));
                }
            }
        }
    }
    r
}

/// A disjunction of operators: matches when some branch does.
pub(crate) fn bool_any(ops: Vec<Operator>) -> (r: Operator)
    requires
        ops_wf(ops@),
    ensures
        op_wf(r),
        forall|d: DocModel| #[trigger] op_matches(r, d) == ops_any_match(ops@, d),
        forall|d: DocModel| #[trigger] op_score(r, d) == crate::operator::union_score_upto(
            ops,
            d,
            ops@.len() as int,
        ),
{
    let ghost gops = ops@;
    let r = Operator::Union(ops);
    proof {
        assert(r->Union_0@ == gops);
        assert forall|d: DocModel| #[trigger] op_matches(r, d) == ops_any_match(gops, d) by {
            if op_matches(r, d) {
                let i = choose|i: int|
                    0 <= i < r->Union_0@.len() && op_matches(#[trigger] r->Union_0@[i], d);
                assert(op_matches(gops[i], d));
            }
            if ops_any_match(gops, d) {
                let i = choose|i: int| 0 <= i < gops.len() && op_matches(#[trigger] gops[i], d);
                assert(op_matches(r->Union_0@[i], d));
            }
        }
    }
    r
}

/// Compiles one `Matches` block: the conjunction of its unpruned
/// matchers. A block with no matcher left is pruned.
pub fn compile_block(b: &Vec<Matching>) -> (r: Option<Operator>)
    ensures
        r is Some <==> spec_block_live(matchings_model(b@)),
        r is Some ==> op_wf(r->Some_0),
        r is Some ==> forall|d: DocModel| #[trigger] op_matches(r->Some_0, d) == spec_block_matches(
            matchings_model(b@),
            d,
        ),
{
    let ghost bm = matchings_model(b@);
    let mut ops: Vec<Operator> = Vec::new();
    let mut i: usize = 0;
    while i < b.len()
        invariant
            i <= b@.len(),
            bm == matchings_model(b@),
            bm.len() == b@.len(),
            ops_wf(ops@),
            (ops@.len() > 0) <==> (exists|k: int|
                0 <= k < i && !spec_matching_pruned(#[trigger] bm[k])),
            forall|d: DocModel| #[trigger] ops_all_match(ops@, d) == (forall|k: int|
                0 <= k < i && !spec_matching_pruned(#[trigger] bm[k]) ==> spec_matching_matches(
                    bm[k],
                    d,
                )),
        decreases b@.len() - i,
    {
        let ghost pre_ops = ops@;
        proof {
            assert(bm[i as int] == b@[i as int]@);
        }
        match compile_matching(&b[i]) {
            Some(op) => {
                ops.push(op);
                proof {
                    assert(!spec_matching_pruned(bm[i as int]));
                    assert forall|d: DocModel| #[trigger] ops_all_match(ops@, d) == (forall|k: int|
                        0 <= k < i + 1 && !spec_matching_pruned(#[trigger] bm[k])
                            ==> spec_matching_matches(bm[k], d)) by {
                        assert(ops@ =~= pre_ops.push(op));
                        if ops_all_match(ops@, d) {
                            assert forall|q: int| 0 <= q < pre_ops.len() implies op_matches(
                                #[trigger] pre_ops[q],
                                d,
                            ) by {
                                assert(ops@[q] == pre_ops[q]);
                                assert(op_matches(ops@[q], d));
                            }
                            assert(ops_all_match(pre_ops, d));
                            assert(op_matches(ops@[pre_ops.len() as int], d));
                            assert(spec_matching_matches(bm[i as int], d));
                        } else {
                            let q = choose|q: int|
                                0 <= q < ops@.len() && !op_matches(#[trigger] ops@[q], d);
                            if q < pre_ops.len() {
                                assert(pre_ops[q] == ops@[q]);
                                assert(!ops_all_match(pre_ops, d));
                            } else {
                                assert(ops@[q] == op);
                                assert(!spec_matching_matches(bm[i as int], d));
                            }
                        }
                    }
                }
            },
            None => {
                proof {
                    assert(spec_matching_pruned(bm[i as int]));
                    assert forall|d: DocModel| #[trigger] ops_all_match(ops@, d) == (forall|k: int|
                        0 <= k < i + 1 && !spec_matching_pruned(#[trigger] bm[k])
                            ==> spec_matching_matches(bm[k], d)) by {}
                }
            },
        }
        i = i + 1;
    }
    if ops.len() == 0 {
        proof {
            assert(!spec_block_live(bm));
        }
        None
    } else {
        proof {
            assert(spec_block_live(bm));
        }
        let r = bool_all(ops);
        Some(r)
    }
}

/// Caps a thousandths value at the machine range.
fn millis_to_i64(b: u64) -> (r: i64)
    ensures
        r as int == if b <= i64::MAX as u64 {
            b as int
        } else {
            i64::MAX as int
        },
{
    if b > i64::MAX as u64 {
        i64::MAX
    } else {
        b as i64
    }
}

/// How a compiled rule joins the query tree: as a scored `Should`
/// clause carrying its boost, or as a `MustNot` clause for a discard.
pub struct CompiledRule {
    pub occur: Occur,
    pub op: Operator,
}

/// The score a rule's action gives a matched document, in
/// thousandths: the boost, the negated downrank, and nothing for a
/// discard; magnitudes cap at the machine range.
pub open spec fn spec_action_boost(a: Action) -> int {
    match a {
        Action::Boost(b) => if b <= i64::MAX as u64 {
            b as int
        } else {
            i64::MAX as int
        },
        Action::Downrank(b) => if b <= i64::MAX as u64 {
            -(b as int)
        } else {
            -(i64::MAX as int)
        },
        Action::Discard => 0,
    }
}

/// Compiles one rule: the disjunction of its live blocks, joined per
/// its action. A rule with no live block is pruned. A missing action
/// parses as `Boost(0)`, a keeper under `DiscardNonMatching`.
pub fn compile_rule(r: &Rule) -> (res: Option<CompiledRule>)
    ensures
        res is Some <==> spec_rule_live(rule_blocks_model(*r)),
        res is Some ==> op_wf(res->Some_0.op),
        res is Some ==> res->Some_0.occur == (if r.action is Discard {
            Occur::MustNot
        } else {
            Occur::Should
        }),
        res is Some ==> forall|d: DocModel| #[trigger] op_matches(res->Some_0.op, d)
            == spec_rule_matches(rule_blocks_model(*r), d),
        res is Some && !(r.action is Discard) ==> forall|d: DocModel|
            #[trigger] op_score(res->Some_0.op, d) == (if spec_rule_matches(
                rule_blocks_model(*r),
                d,
            ) {
                spec_action_boost(r.action)
            } else {
                0int
            }),
{
    let ghost rm = rule_blocks_model(*r);
    let mut ops: Vec<Operator> = Vec::new();
    let mut i: usize = 0;
    while i < r.matches.len()
        invariant
            i <= r.matches@.len(),
            rm == rule_blocks_model(*r),
            rm.len() == r.matches@.len(),
            ops_wf(ops@),
            (ops@.len() > 0) <==> (exists|k: int|
                0 <= k < i && spec_block_live(#[trigger] rm[k])),
            forall|d: DocModel| #[trigger] ops_any_match(ops@, d) == (exists|k: int|
                0 <= k < i && spec_block_matches(#[trigger] rm[k], d)),
        decreases r.matches@.len() - i,
    {
        let ghost pre_ops = ops@;
        proof {
            assert(rm[i as int] == matchings_model(r.matches@[i as int]@));
        }
        match compile_block(&r.matches[i]) {
            Some(op) => {
                ops.push(op);
                proof {
                    assert(spec_block_live(rm[i as int]));
                    assert forall|d: DocModel| #[trigger] ops_any_match(ops@, d) == (exists|k: int|
                        0 <= k < i + 1 && spec_block_matches(#[trigger] rm[k], d)) by {
                        assert(ops@ =~= pre_ops.push(op));
                        if ops_any_match(ops@, d) {
                            let q = choose|q: int|
                                0 <= q < ops@.len() && op_matches(#[trigger] ops@[q], d);
                            if q < pre_ops.len() {
                                assert(op_matches(pre_ops[q], d));
                                assert(ops_any_match(pre_ops, d));
                            } else {
                                assert(ops@[q] == op);
                                assert(spec_block_matches(rm[i as int], d));
                            }
                        }
                        if exists|k: int| 0 <= k < i + 1 && spec_block_matches(#[trigger] rm[k], d) {
                            let k = choose|k: int|
                                0 <= k < i + 1 && spec_block_matches(#[trigger] rm[k], d);
                            if k < i {
                                assert(ops_any_match(pre_ops, d));
                                let q = choose|q: int|
                                    0 <= q < pre_ops.len() && op_matches(#[trigger] pre_ops[q], d);
                                assert(op_matches(ops@[q], d));
                                assert(ops_any_match(ops@, d));
                            } else {
                                assert(op_matches(ops@[pre_ops.len() as int], d));
                                assert(ops_any_match(ops@, d));
                            }
                        }
                    }
                }
            },
            None => {
                proof {
                    assert(!spec_block_live(rm[i as int]));
                }
            },
        }
        i = i + 1;
    }
    if ops.len() == 0 {
        proof {
            assert(!spec_rule_live(rm));
        }
        return None;
    }
    proof {
        assert(spec_rule_live(rm));
    }
    let ghost gops = ops@;
    let sub = bool_any(ops);
    let ghost gsub = sub;
    match r.action {
        Action::Boost(b) => {
            let b = millis_to_i64(b);
            let cr = Operator::ConstOp { boost_millis: b, inner: Box::new(sub) };
            proof {
                assert forall|d: DocModel| #[trigger] op_matches(cr, d) == spec_rule_matches(
                    rm,
                    d,
                ) by {
                    assert(op_matches(cr, d) == op_matches(gsub, d));
                    assert(op_matches(gsub, d) == ops_any_match(gops, d));
                }
            }
            Some(CompiledRule { occur: Occur::Should, op: cr })
        },
        Action::Downrank(b) => {
            let b = millis_to_i64(b);
            let cr = Operator::ConstOp { boost_millis: -b, inner: Box::new(sub) };
            proof {
                assert forall|d: DocModel| #[trigger] op_matches(cr, d) == spec_rule_matches(
                    rm,
                    d,
                ) by {
                    assert(op_matches(cr, d) == op_matches(gsub, d));
                    assert(op_matches(gsub, d) == ops_any_match(gops, d));
                }
            }
            Some(CompiledRule { occur: Occur::Should, op: cr })
        },
        Action::Discard => Some(CompiledRule { occur: Occur::MustNot, op: sub }),
    }
}

/// The discard rule a blocked host compiles to: its site pattern is
/// the host anchored on both sides.
pub open spec fn spec_blocked_blocks(h: Seq<char>) -> Seq<Seq<MatchingModel>> {
    seq![
        seq![
            MatchingModel {
                location: MatchLocation::Site,
                pattern: encode_utf8(seq!['|'] + h + seq!['|']),
            },
        ],
    ]
}

/// No discard rule of the optic accepts the document: neither a
/// `Action(Discard)` rule nor a blocked host.
pub open spec fn spec_optic_no_discard(o: Optic, d: DocModel) -> bool {
    &&& (forall|i: int|
        0 <= i < o.rules@.len() && (#[trigger] o.rules@[i]).action is Discard
            ==> !spec_rule_matches(rule_blocks_model(o.rules@[i]), d))
    &&& (forall|i: int|
        0 <= i < o.host_rankings.blocked@.len() ==> !spec_rule_matches(
            spec_blocked_blocks((#[trigger] o.host_rankings.blocked@[i])@),
            d,
        ))
}

/// The optic has a live rule that is not a discard: a keeper.
pub open spec fn spec_optic_has_keeper(o: Optic) -> bool {
    exists|i: int|
        0 <= i < o.rules@.len() && !((#[trigger] o.rules@[i]).action is Discard) && spec_rule_live(
            rule_blocks_model(o.rules@[i]),
        )
}

/// Some keeper rule of the optic accepts the document.
pub open spec fn spec_optic_kept(o: Optic, d: DocModel) -> bool {
    exists|i: int|
        0 <= i < o.rules@.len() && !((#[trigger] o.rules@[i]).action is Discard)
            && spec_rule_matches(rule_blocks_model(o.rules@[i]), d)
}

/// Whether the optic lets the document through: no discard rule
/// accepts it, and under `DiscardNonMatching` with at least one keeper
/// left after pruning, some keeper accepts it. A discard always wins
/// over a keep.
pub open spec fn spec_optic_allows(o: Optic, d: DocModel) -> bool {
    spec_optic_no_discard(o, d) && ((o.discard_non_matching && spec_optic_has_keeper(o))
        ==> spec_optic_kept(o, d))
}

/// The score a clause list adds for a document when it hangs under
/// the query root, folded in clause order onto `acc`: a matching
/// clause that is not a `MustNot` adds its own score, saturating.
pub open spec fn clauses_score_from(
    cs: Seq<(Occur, Operator)>,
    d: DocModel,
    n: int,
    acc: int,
) -> int
    decreases n,
{
    if n <= 0 || n > cs.len() {
        acc
    } else {
        let prev = clauses_score_from(cs, d, n - 1, acc);
        if cs[n - 1].0 != Occur::MustNot && op_matches(cs[n - 1].1, d) {
            sat_add(prev, op_score(cs[n - 1].1, d))
        } else {
            prev
        }
    }
}

/// The saturated sum, from zero, of the boosts of the keeper rules
/// that accept the document, in rule order.
pub open spec fn spec_keeper_score(o: Optic, n: int, d: DocModel) -> int
    decreases n,
{
    if n <= 0 {
        0int
    } else {
        let prev = spec_keeper_score(o, n - 1, d);
        let r = o.rules@[n - 1];
        if !(r.action is Discard) && spec_rule_matches(rule_blocks_model(r), d) {
            sat_add(prev, spec_action_boost(r.action))
        } else {
            prev
        }
    }
}

/// The same fold started from `acc`, as the keeper rules join the
/// root directly.
pub open spec fn spec_keeper_score_from(o: Optic, n: int, d: DocModel, acc: int) -> int
    decreases n,
{
    if n <= 0 {
        acc
    } else {
        let prev = spec_keeper_score_from(o, n - 1, d, acc);
        let r = o.rules@[n - 1];
        if !(r.action is Discard) && spec_rule_matches(rule_blocks_model(r), d) {
            sat_add(prev, spec_action_boost(r.action))
        } else {
            prev
        }
    }
}

/// What the compiled clauses score onto `acc`: under
/// `DiscardNonMatching` with a keeper left, the single keeper union
/// adds the keepers' saturated sum when one of them accepts the
/// document; otherwise each keeper clause adds its own boost in rule
/// order. Discard clauses never score.
pub open spec fn spec_optic_score(o: Optic, d: DocModel, acc: int) -> int {
    if o.discard_non_matching && spec_optic_has_keeper(o) {
        if spec_optic_kept(o, d) {
            sat_add(acc, spec_keeper_score(o, o.rules@.len() as int, d))
        } else {
            acc
        }
    } else {
        spec_keeper_score_from(o, o.rules@.len() as int, d, acc)
    }
}

/// A clause fold reads only the clauses before `n`, so a push beyond
/// them changes nothing.
proof fn lemma_clauses_score_stable(
    cs1: Seq<(Occur, Operator)>,
    cs2: Seq<(Occur, Operator)>,
    d: DocModel,
    n: int,
    acc: int,
)
    requires
        0 <= n <= cs1.len(),
        cs1.len() <= cs2.len(),
        forall|k: int| 0 <= k < n ==> cs1[k] == #[trigger] cs2[k],
    ensures
        clauses_score_from(cs1, d, n, acc) == clauses_score_from(cs2, d, n, acc),
    decreases n,
{
    if n > 0 {
        lemma_clauses_score_stable(cs1, cs2, d, n - 1, acc);
    }
}

/// A run of `MustNot` clauses scores nothing.
proof fn lemma_clauses_score_mustnots(cs: Seq<(Occur, Operator)>, d: DocModel, n: int, acc: int)
    requires
        0 <= n <= cs.len(),
        forall|k: int| 0 <= k < n ==> (#[trigger] cs[k]).0 == Occur::MustNot,
    ensures
        clauses_score_from(cs, d, n, acc) == acc,
    decreases n,
{
    if n > 0 {
        lemma_clauses_score_mustnots(cs, d, n - 1, acc);
    }
}

/// A union fold reads only the branches before `n`.
proof fn lemma_union_score_stable(
    v1: Vec<Operator>,
    v2: Vec<Operator>,
    d: DocModel,
    n: int,
)
    requires
        0 <= n <= v1@.len(),
        v1@.len() <= v2@.len(),
        forall|k: int| 0 <= k < n ==> v1@[k] == #[trigger] v2@[k],
    ensures
        crate::operator::union_score_upto(v1, d, n) == crate::operator::union_score_upto(v2, d, n),
    decreases n,
{
    if n > 0 {
        lemma_union_score_stable(v1, v2, d, n - 1);
    }
}

/// Whether every clause of a compiled list is well-formed.
pub open spec fn clauses_wf(cs: Seq<(Occur, Operator)>) -> bool {
    forall|i: int| 0 <= i < cs.len() ==> op_wf((#[trigger] cs[i]).1)
}

/// Whether a clause list lets a document through: every `Must` clause
/// accepts it and no `MustNot` clause does. `Should` clauses only
/// score.
pub open spec fn clauses_allow(cs: Seq<(Occur, Operator)>, d: DocModel) -> bool {
    &&& (forall|i: int|
        0 <= i < cs.len() && (#[trigger] cs[i]).0 == Occur::Must ==> op_matches(cs[i].1, d))
    &&& (forall|i: int|
        0 <= i < cs.len() && (#[trigger] cs[i]).0 == Occur::MustNot ==> !op_matches(cs[i].1, d))
}

/// Builds the fully anchored site pattern of a blocked host.
fn blocked_pattern(h: &String) -> (r: String)
    ensures
        r@ == seq!['|'] + h@ + seq!['|'],
{
    let mut s = String::from_str("|");
    proof {
        reveal_strlit("|");
    }
    s.append(h.as_str());
    s.append("|");
    proof {
        assert(s@ =~= seq!['|'] + h@ + seq!['|']);
    }
    s
}

impl Optic {
    /// Compiles the optic into the clauses grafted onto the query
    /// tree: discard rules and blocked hosts become `MustNot` clauses;
    /// keeper rules become scored `Should` clauses, or one `Must`
    /// union of all keepers under `DiscardNonMatching`.
    pub fn compile(&self) -> (cs: Vec<(Occur, Operator)>)
        ensures
            clauses_wf(cs@),
            forall|d: DocModel| #[trigger] clauses_allow(cs@, d) == spec_optic_allows(*self, d),
            forall|d: DocModel, acc: int|
                #[trigger] clauses_score_from(cs@, d, cs@.len() as int, acc) == spec_optic_score(
                    *self,
                    d,
                    acc,
                ),
    {
        let mut dops: Vec<Operator> = Vec::new();
        let mut i: usize = 0;
        while i < self.rules.len()
            invariant
                i <= self.rules@.len(),
                ops_wf(dops@),
                forall|d: DocModel| #[trigger] ops_any_match(dops@, d) == (exists|k: int|
                    0 <= k < i && (#[trigger] self.rules@[k]).action is Discard
                        && spec_rule_matches(rule_blocks_model(self.rules@[k]), d)),
            decreases self.rules@.len() - i,
        {
            let ghost pre = dops@;
            let rule = &self.rules[i];
            if matches!(rule.action, Action::Discard) {
                match compile_rule(rule) {
                    Some(cr) => {
                        dops.push(cr.op);
                        proof {
                            lemma_any_push(pre, cr.op, dops@);
                            assert forall|d: DocModel| #[trigger] ops_any_match(dops@, d) == (
                            exists|k: int|
                                0 <= k < i + 1 && (#[trigger] self.rules@[k]).action is Discard
                                    && spec_rule_matches(
                                    rule_blocks_model(self.rules@[k]),
                                    d,
                                )) by {
                                if ops_any_match(dops@, d) {
                                    if ops_any_match(pre, d) {
                                    } else {
                                        assert(spec_rule_matches(
                                            rule_blocks_model(self.rules@[i as int]),
                                            d,
                                        ));
                                    }
                                }
                                if exists|k: int|
                                    0 <= k < i + 1 && (#[trigger] self.rules@[k]).action is Discard
                                        && spec_rule_matches(rule_blocks_model(self.rules@[k]), d) {
                                    let k = choose|k: int|
                                        0 <= k < i + 1 && (
                                        #[trigger] self.rules@[k]).action is Discard
                                            && spec_rule_matches(
                                            rule_blocks_model(self.rules@[k]),
                                            d,
                                        );
                                    if k < i {
                                        assert(ops_any_match(pre, d));
                                    }
                                }
                            }
                        }
                    },
                    None => {
                        proof {
                            lemma_dead_rule_never_matches(rule_blocks_model(self.rules@[i as int]));
                        }
                    },
                }
            }
            i = i + 1;
        }
        let mut bi: usize = 0;
        while bi < self.host_rankings.blocked.len()
            invariant
                bi <= self.host_rankings.blocked@.len(),
                ops_wf(dops@),
                forall|d: DocModel| #[trigger] ops_any_match(dops@, d) == ((exists|k: int|
                    0 <= k < self.rules@.len() && (#[trigger] self.rules@[k]).action is Discard
                        && spec_rule_matches(rule_blocks_model(self.rules@[k]), d)) || (exists|
                    k: int,
                |
                    0 <= k < bi && spec_rule_matches(
                        spec_blocked_blocks((#[trigger] self.host_rankings.blocked@[k])@),
                        d,
                    ))),
            decreases self.host_rankings.blocked@.len() - bi,
        {
            let ghost pre = dops@;
            let host = &self.host_rankings.blocked[bi];
            let pat = blocked_pattern(host);
            let ghost gpat = pat@;
            let mut ms: Vec<Matching> = Vec::new();
            ms.push(Matching { location: MatchLocation::Site, pattern: pat });
            let mut blocks: Vec<Vec<Matching>> = Vec::new();
            blocks.push(ms);
            let block_rule = Rule { matches: blocks, action: Action::Discard };
            proof {
                assert(block_rule.matches@.len() == 1);
                assert(block_rule.matches@[0]@.len() == 1);
                assert(block_rule.matches@[0]@[0]@ == MatchingModel {
                    location: MatchLocation::Site,
                    pattern: encode_utf8(gpat),
                });
                assert(matchings_model(block_rule.matches@[0]@) =~= spec_blocked_blocks(host@)[0]);
                assert(rule_blocks_model(block_rule) =~~= spec_blocked_blocks(host@));
            }
            match compile_rule(&block_rule) {
                Some(cr) => {
                    dops.push(cr.op);
                    proof {
                        lemma_any_push(pre, cr.op, dops@);
                        assert forall|d: DocModel| #[trigger] ops_any_match(dops@, d) == ((exists|
                            k: int,
                        |
                            0 <= k < self.rules@.len() && (
                            #[trigger] self.rules@[k]).action is Discard && spec_rule_matches(
                                rule_blocks_model(self.rules@[k]),
                                d,
                            )) || (exists|k: int|
                            0 <= k < bi + 1 && spec_rule_matches(
                                spec_blocked_blocks((#[trigger] self.host_rankings.blocked@[k])@),
                                d,
                            ))) by {
                            if ops_any_match(dops@, d) && !ops_any_match(pre, d) {
                                assert(spec_rule_matches(spec_blocked_blocks(host@), d));
                            }
                            if exists|k: int|
                                0 <= k < bi + 1 && spec_rule_matches(
                                    spec_blocked_blocks(
                                        (#[trigger] self.host_rankings.blocked@[k])@,
                                    ),
                                    d,
                                ) {
                                let k = choose|k: int|
                                    0 <= k < bi + 1 && spec_rule_matches(
                                        spec_blocked_blocks(
                                            (#[trigger] self.host_rankings.blocked@[k])@,
                                        ),
                                        d,
                                    );
                                if k < bi {
                                    assert(ops_any_match(pre, d));
                                }
                            }
                        }
                    }
                },
                None => {
                    proof {
                        lemma_dead_rule_never_matches(spec_blocked_blocks(host@));
                    }
                },
            }
            bi = bi + 1;
        }
        let ghost gdops = dops@;
        let mut cs: Vec<(Occur, Operator)> = Vec::new();
        let mut dops = dops;
        while dops.len() > 0
            invariant
                cs@.len() + dops@.len() == gdops.len(),
                dops@ =~= gdops.subrange(cs@.len() as int, gdops.len() as int),
                ops_wf(gdops),
                forall|i: int|
                    0 <= i < cs@.len() ==> #[trigger] cs@[i] == (Occur::MustNot, gdops[i]),
            decreases dops@.len(),
        {
            let op = dops.remove(0);
            proof {
                assert(op == gdops[cs@.len() as int]);
            }
            cs.push((Occur::MustNot, op));
            proof {
                assert(dops@ =~= gdops.subrange(cs@.len() as int, gdops.len() as int));
            }
        }
        proof {
            assert(cs@.len() == gdops.len());
        }
        proof {
            assert forall|d: DocModel, acc: int|
                #[trigger] clauses_score_from(cs@, d, cs@.len() as int, acc) == acc by {
                lemma_clauses_score_mustnots(cs@, d, cs@.len() as int, acc);
            }
        }
        if self.discard_non_matching {
            let mut kops: Vec<Operator> = Vec::new();
            let mut ki: usize = 0;
            while ki < self.rules.len()
                invariant
                    ki <= self.rules@.len(),
                    ops_wf(kops@),
                    (kops@.len() > 0) <==> (exists|k: int|
                        0 <= k < ki && !((#[trigger] self.rules@[k]).action is Discard)
                            && spec_rule_live(rule_blocks_model(self.rules@[k]))),
                    forall|d: DocModel| #[trigger] ops_any_match(kops@, d) == (exists|k: int|
                        0 <= k < ki && !((#[trigger] self.rules@[k]).action is Discard)
                            && spec_rule_matches(rule_blocks_model(self.rules@[k]), d)),
                    forall|d: DocModel|
                        #[trigger] crate::operator::union_score_upto(
                            kops,
                            d,
                            kops@.len() as int,
                        ) == spec_keeper_score(*self, ki as int, d),
                decreases self.rules@.len() - ki,
            {
                let ghost pre = kops@;
                let ghost gprevec = kops;
                let rule = &self.rules[ki];
                if !matches!(rule.action, Action::Discard) {
                    match compile_rule(rule) {
                        Some(cr) => {
                            let ghost gop = cr.op;
                            kops.push(cr.op);
                            proof {
                                lemma_any_push(pre, gop, kops@);
                                assert forall|d: DocModel| #[trigger] ops_any_match(kops@, d) == (
                                exists|k: int|
                                    0 <= k < ki + 1 && !((
                                    #[trigger] self.rules@[k]).action is Discard)
                                        && spec_rule_matches(
                                        rule_blocks_model(self.rules@[k]),
                                        d,
                                    )) by {
                                    if ops_any_match(kops@, d) && !ops_any_match(pre, d) {
                                        assert(spec_rule_matches(
                                            rule_blocks_model(self.rules@[ki as int]),
                                            d,
                                        ));
                                    }
                                    if exists|k: int|
                                        0 <= k < ki + 1 && !((
                                        #[trigger] self.rules@[k]).action is Discard)
                                            && spec_rule_matches(
                                            rule_blocks_model(self.rules@[k]),
                                            d,
                                        ) {
                                        let k = choose|k: int|
                                            0 <= k < ki + 1 && !((
                                            #[trigger] self.rules@[k]).action is Discard)
                                                && spec_rule_matches(
                                                rule_blocks_model(self.rules@[k]),
                                                d,
                                            );
                                        if k < ki {
                                            assert(ops_any_match(pre, d));
                                        }
                                    }
                                }
                                assert forall|d: DocModel|
                                    #[trigger] crate::operator::union_score_upto(
                                        kops,
                                        d,
                                        kops@.len() as int,
                                    ) == spec_keeper_score(*self, ki + 1, d) by {
                                    lemma_union_score_stable(gprevec, kops, d, pre.len() as int);
                                    assert(kops@[kops@.len() - 1] == gop);
                                    assert(op_matches(gop, d) == spec_rule_matches(
                                        rule_blocks_model(self.rules@[ki as int]),
                                        d,
                                    ));
                                    assert(op_score(gop, d) == (if spec_rule_matches(
                                        rule_blocks_model(self.rules@[ki as int]),
                                        d,
                                    ) {
                                        spec_action_boost(self.rules@[ki as int].action)
                                    } else {
                                        0int
                                    }));
                                }
                            }
                        },
                        None => {
                            proof {
                                lemma_dead_rule_never_matches(
                                    rule_blocks_model(self.rules@[ki as int]),
                                );
                                assert forall|d: DocModel|
                                    #[trigger] crate::operator::union_score_upto(
                                        kops,
                                        d,
                                        kops@.len() as int,
                                    ) == spec_keeper_score(*self, ki + 1, d) by {}
                            }
                        },
                    }
                } else {
                    proof {
                        assert forall|d: DocModel|
                            #[trigger] crate::operator::union_score_upto(
                                kops,
                                d,
                                kops@.len() as int,
                            ) == spec_keeper_score(*self, ki + 1, d) by {}
                    }
                }
                ki = ki + 1;
            }
            let ghost gkops = kops@;
            let ghost gkvec = kops;
            let ghost pre_keeper_cs = cs@;
            if kops.len() > 0 {
                let keeper = bool_any(kops);
                let ghost gkeeper = keeper;
                cs.push((Occur::Must, keeper));
                proof {
                    assert(cs@ =~= pre_keeper_cs.push((Occur::Must, gkeeper)));
                    assert(spec_optic_has_keeper(*self));
                    assert forall|d: DocModel| #[trigger] clauses_allow(cs@, d)
                        == spec_optic_allows(*self, d) by {
                        lemma_clauses_split(pre_keeper_cs, gkeeper, cs@, gdops, d);
                        assert(op_matches(gkeeper, d) == ops_any_match(gkops, d));
                    }
                    assert forall|d: DocModel, acc: int|
                        #[trigger] clauses_score_from(cs@, d, cs@.len() as int, acc)
                        == spec_optic_score(*self, d, acc) by {
                        lemma_clauses_score_split(pre_keeper_cs, gkeeper, cs@, d, acc);
                        assert(op_matches(gkeeper, d) == ops_any_match(gkops, d));
                        assert(op_score(gkeeper, d) == crate::operator::union_score_upto(
                            gkvec,
                            d,
                            gkops.len() as int,
                        ));
                        assert(crate::operator::union_score_upto(gkvec, d, gkops.len() as int)
                            == spec_keeper_score(*self, self.rules@.len() as int, d));
                        assert(ops_any_match(gkops, d) == spec_optic_kept(*self, d));
                    }
                }
            } else {
                proof {
                    assert(!spec_optic_has_keeper(*self));
                    assert forall|d: DocModel| #[trigger] clauses_allow(cs@, d)
                        == spec_optic_allows(*self, d) by {
                        lemma_clauses_shoulds(pre_keeper_cs, cs@, gdops, d);
                    }
                    assert forall|d: DocModel, acc: int|
                        #[trigger] clauses_score_from(cs@, d, cs@.len() as int, acc)
                        == spec_optic_score(*self, d, acc) by {
                        lemma_clauses_score_mustnots(cs@, d, cs@.len() as int, acc);
                        assert forall|i: int|
                            0 <= i < self.rules@.len() implies (
                        #[trigger] self.rules@[i]).action is Discard || !spec_rule_matches(
                            rule_blocks_model(self.rules@[i]),
                            d,
                        ) by {
                            if !(self.rules@[i].action is Discard) {
                                assert(!spec_rule_live(rule_blocks_model(self.rules@[i])));
                                lemma_dead_rule_never_matches(rule_blocks_model(self.rules@[i]));
                            }
                        }
                        lemma_keeper_score_dead(*self, self.rules@.len() as int, d, acc);
                    }
                }
            }
        } else {
            let ghost pre_keeper_cs = cs@;
            let ghost base_len = cs@.len();
            let mut ri: usize = 0;
            while ri < self.rules.len()
                invariant
                    ri <= self.rules@.len(),
                    cs@.len() >= base_len,
                    cs@.subrange(0, base_len as int) =~= pre_keeper_cs,
                    pre_keeper_cs.len() == base_len,
                    forall|i: int|
                        base_len <= i < cs@.len() ==> (#[trigger] cs@[i]).0 == Occur::Should,
                    forall|i: int| 0 <= i < cs@.len() ==> op_wf((#[trigger] cs@[i]).1),
                    forall|d: DocModel, acc: int|
                        #[trigger] clauses_score_from(cs@, d, cs@.len() as int, acc)
                            == spec_keeper_score_from(*self, ri as int, d, acc),
                decreases self.rules@.len() - ri,
            {
                let ghost pre_cs = cs@;
                let rule = &self.rules[ri];
                if !matches!(rule.action, Action::Discard) {
                    match compile_rule(rule) {
                        Some(cr) => {
                            let ghost gop = cr.op;
                            cs.push((Occur::Should, cr.op));
                            proof {
                                assert(cs@.subrange(0, base_len as int) =~= pre_keeper_cs);
                                assert forall|d: DocModel, acc: int|
                                    #[trigger] clauses_score_from(cs@, d, cs@.len() as int, acc)
                                    == spec_keeper_score_from(*self, ri + 1, d, acc) by {
                                    lemma_clauses_score_stable(
                                        pre_cs,
                                        cs@,
                                        d,
                                        pre_cs.len() as int,
                                        acc,
                                    );
                                    assert(cs@[cs@.len() - 1] == (Occur::Should, gop));
                                    assert(op_matches(gop, d) == spec_rule_matches(
                                        rule_blocks_model(self.rules@[ri as int]),
                                        d,
                                    ));
                                    assert(op_score(gop, d) == (if spec_rule_matches(
                                        rule_blocks_model(self.rules@[ri as int]),
                                        d,
                                    ) {
                                        spec_action_boost(self.rules@[ri as int].action)
                                    } else {
                                        0int
                                    }));
                                }
                            }
                        },
                        None => {
                            proof {
                                lemma_dead_rule_never_matches(
                                    rule_blocks_model(self.rules@[ri as int]),
                                );
                                assert forall|d: DocModel, acc: int|
                                    #[trigger] clauses_score_from(cs@, d, cs@.len() as int, acc)
                                    == spec_keeper_score_from(*self, ri + 1, d, acc) by {}
                            }
                        },
                    }
                } else {
                    proof {
                        assert forall|d: DocModel, acc: int|
                            #[trigger] clauses_score_from(cs@, d, cs@.len() as int, acc)
                            == spec_keeper_score_from(*self, ri + 1, d, acc) by {}
                    }
                }
                ri = ri + 1;
            }
            proof {
                assert forall|d: DocModel| #[trigger] clauses_allow(cs@, d) == spec_optic_allows(
                    *self,
                    d,
                ) by {
                    lemma_clauses_shoulds(pre_keeper_cs, cs@, gdops, d);
                }
            }
        }
        cs
    }
}

/// Rules that are discards, or that accept nothing, score nothing.
proof fn lemma_keeper_score_dead(o: Optic, n: int, d: DocModel, acc: int)
    requires
        0 <= n <= o.rules@.len(),
        forall|i: int|
            0 <= i < n ==> (#[trigger] o.rules@[i]).action is Discard || !spec_rule_matches(
                rule_blocks_model(o.rules@[i]),
                d,
            ),
    ensures
        spec_keeper_score_from(o, n, d, acc) == acc,
    decreases n,
{
    if n > 0 {
        lemma_keeper_score_dead(o, n - 1, d, acc);
    }
}

/// A rule with no live block accepts no document.
proof fn lemma_dead_rule_never_matches(blocks: Seq<Seq<MatchingModel>>)
    requires
        !spec_rule_live(blocks),
    ensures
        forall|d: DocModel| !spec_rule_matches(blocks, d),
{
    assert forall|d: DocModel| !spec_rule_matches(blocks, d) by {
        if spec_rule_matches(blocks, d) {
            let i = choose|i: int|
                0 <= i < blocks.len() && spec_block_matches(#[trigger] blocks[i], d);
            assert(spec_block_live(blocks[i]));
        }
    }
}

/// Pushing an operator extends a disjunction by its own matches.
pub(crate) proof fn lemma_any_push(pre: Seq<Operator>, op: Operator, post: Seq<Operator>)
    requires
        post =~= pre.push(op),
    ensures
        forall|d: DocModel| #[trigger] ops_any_match(post, d) == (ops_any_match(pre, d)
            || op_matches(op, d)),
{
    assert forall|d: DocModel| #[trigger] ops_any_match(post, d) == (ops_any_match(pre, d)
        || op_matches(op, d)) by {
        if ops_any_match(post, d) {
            let q = choose|q: int| 0 <= q < post.len() && op_matches(#[trigger] post[q], d);
            if q < pre.len() {
                assert(op_matches(pre[q], d));
            } else {
                assert(post[q] == op);
            }
        }
        if ops_any_match(pre, d) {
            let q = choose|q: int| 0 <= q < pre.len() && op_matches(#[trigger] pre[q], d);
            assert(op_matches(post[q], d));
        }
        if op_matches(op, d) {
            assert(op_matches(post[pre.len() as int], d));
        }
    }
}

/// A list of `MustNot` clauses followed by one `Must` clause lets a
/// document through exactly when no `MustNot` operator matches and the
/// `Must` operator does.
proof fn lemma_clauses_split(
    base: Seq<(Occur, Operator)>,
    keeper: Operator,
    cs: Seq<(Occur, Operator)>,
    dops: Seq<Operator>,
    d: DocModel,
)
    requires
        cs =~= base.push((Occur::Must, keeper)),
        base.len() == dops.len(),
        forall|i: int| 0 <= i < base.len() ==> #[trigger] base[i] == (Occur::MustNot, dops[i]),
    ensures
        clauses_allow(cs, d) == (!ops_any_match(dops, d) && op_matches(keeper, d)),
{
    if clauses_allow(cs, d) {
        assert(cs[base.len() as int].0 == Occur::Must);
        assert(op_matches(keeper, d));
        if ops_any_match(dops, d) {
            let q = choose|q: int| 0 <= q < dops.len() && op_matches(#[trigger] dops[q], d);
            assert(cs[q] == (Occur::MustNot, dops[q]));
            assert(false);
        }
    }
    if !ops_any_match(dops, d) && op_matches(keeper, d) {
        assert forall|i: int|
            0 <= i < cs.len() && (#[trigger] cs[i]).0 == Occur::MustNot implies !op_matches(
            cs[i].1,
            d,
        ) by {
            assert(i < base.len());
            assert(cs[i] == (Occur::MustNot, dops[i]));
            if op_matches(dops[i], d) {
                assert(ops_any_match(dops, d));
            }
        }
        assert forall|i: int|
            0 <= i < cs.len() && (#[trigger] cs[i]).0 == Occur::Must implies op_matches(
            cs[i].1,
            d,
        ) by {
            if i < base.len() {
                assert(cs[i] == (Occur::MustNot, dops[i]));
            } else {
                assert(cs[i].1 == keeper);
            }
        }
    }
}

/// A run of `MustNot` clauses followed by one `Must` clause scores
/// exactly that clause's own score when it matches.
proof fn lemma_clauses_score_split(
    base: Seq<(Occur, Operator)>,
    keeper: Operator,
    cs: Seq<(Occur, Operator)>,
    d: DocModel,
    acc: int,
)
    requires
        cs =~= base.push((Occur::Must, keeper)),
        forall|k: int| 0 <= k < base.len() ==> (#[trigger] base[k]).0 == Occur::MustNot,
    ensures
        clauses_score_from(cs, d, cs.len() as int, acc) == (if op_matches(keeper, d) {
            sat_add(acc, op_score(keeper, d))
        } else {
            acc
        }),
{
    assert forall|k: int| 0 <= k < base.len() implies base[k] == #[trigger] cs[k] by {}
    lemma_clauses_score_stable(base, cs, d, base.len() as int, acc);
    lemma_clauses_score_mustnots(base, d, base.len() as int, acc);
    assert(cs[cs.len() - 1] == (Occur::Must, keeper));
}

/// A list of `MustNot` clauses followed by `Should` clauses lets a
/// document through exactly when no `MustNot` operator matches.
proof fn lemma_clauses_shoulds(
    base: Seq<(Occur, Operator)>,
    cs: Seq<(Occur, Operator)>,
    dops: Seq<Operator>,
    d: DocModel,
)
    requires
        cs.len() >= base.len(),
        cs.subrange(0, base.len() as int) =~= base,
        base.len() == dops.len(),
        forall|i: int| 0 <= i < base.len() ==> #[trigger] base[i] == (Occur::MustNot, dops[i]),
        forall|i: int| base.len() <= i < cs.len() ==> (#[trigger] cs[i]).0 == Occur::Should,
    ensures
        clauses_allow(cs, d) == !ops_any_match(dops, d),
{
    assert forall|i: int| 0 <= i < base.len() implies #[trigger] cs[i] == (
        Occur::MustNot,
        dops[i],
    ) by {
        assert(cs.subrange(0, base.len() as int)[i] == cs[i]);
    }
    if clauses_allow(cs, d) {
        if ops_any_match(dops, d) {
            let q = choose|q: int| 0 <= q < dops.len() && op_matches(#[trigger] dops[q], d);
            assert(cs[q] == (Occur::MustNot, dops[q]));
            assert(false);
        }
    }
    if !ops_any_match(dops, d) {
        assert forall|i: int|
            0 <= i < cs.len() && (#[trigger] cs[i]).0 == Occur::MustNot implies !op_matches(
            cs[i].1,
            d,
        ) by {
            assert(i < base.len());
            if op_matches(dops[i], d) {
                assert(ops_any_match(dops, d));
            }
        }
        assert forall|i: int|
            0 <= i < cs.len() && (#[trigger] cs[i]).0 == Occur::Must implies op_matches(
            cs[i].1,
            d,
        ) by {
            assert(i < base.len());
            assert(cs[i] == (Occur::MustNot, dops[i]));
        }
    }
}

/// Discard dominates boost: when any rule with `Action(Discard)`
/// accepts a document, the optic refuses that document, whatever its
/// boost and downrank rules say.
pub proof fn lemma_discard_dominates(o: Optic, i: int, d: DocModel)
    requires
        0 <= i < o.rules@.len(),
        o.rules@[i].action is Discard,
        spec_rule_matches(rule_blocks_model(o.rules@[i]), d),
    ensures
        !spec_optic_allows(o, d),
{
}

/// The hosts of `add` joined onto `base` in order, skipping any whose
/// text already stands in the list built so far: a setwise union that
/// keeps first occurrences.
pub open spec fn spec_union_hosts(base: Seq<String>, add: Seq<String>) -> Seq<String>
    decreases add.len(),
{
    if add.len() == 0 {
        base
    } else {
        let p = spec_union_hosts(base, add.drop_last());
        if exists|i: int| 0 <= i < p.len() && p[i]@ == add.last()@ {
            p
        } else {
            p.push(add.last())
        }
    }
}

/// Appends each host of `src` whose text is not already present.
fn join_host_lists(dst: &mut Vec<String>, src: Vec<String>)
    ensures
        final(dst)@ == spec_union_hosts(old(dst)@, src@),
{
    let ghost base = dst@;
    let ghost gsrc = src@;
    let mut i: usize = 0;
    while i < src.len()
        invariant
            i <= gsrc.len(),
            src@ == gsrc,
            dst@ == spec_union_hosts(base, gsrc.take(i as int)),
        decreases gsrc.len() - i,
    {
        proof {
            assert(gsrc.take(i + 1).drop_last() =~= gsrc.take(i as int));
            assert(gsrc.take(i + 1).last() == gsrc[i as int]);
        }
        let mut found = false;
        let mut j: usize = 0;
        while j < dst.len()
            invariant
                j <= dst@.len(),
                src@ == gsrc,
                i < gsrc.len(),
                found == (exists|q: int| 0 <= q < j && dst@[q]@ == gsrc[i as int]@),
                dst@ == spec_union_hosts(base, gsrc.take(i as int)),
            decreases dst@.len() - j,
        {
            if dst[j] == src[i] {
                found = true;
                proof {
                    assert(dst@[j as int]@ == gsrc[i as int]@);
                }
            }
            j = j + 1;
        }
        if !found {
            dst.push(src[i].clone());
        }
        i = i + 1;
    }
    proof {
        assert(gsrc.take(gsrc.len() as int) =~= gsrc);
    }
}

impl HostRankings {
    /// Extends these rankings by another set: each list takes the
    /// other's hosts that it does not already name, in order.
    pub fn merge_into(&mut self, other: HostRankings)
        ensures
            final(self).liked@ == spec_union_hosts(old(self).liked@, other.liked@),
            final(self).disliked@ == spec_union_hosts(old(self).disliked@, other.disliked@),
            final(self).blocked@ == spec_union_hosts(old(self).blocked@, other.blocked@),
    {
        join_host_lists(&mut self.liked, other.liked);
        join_host_lists(&mut self.disliked, other.disliked);
        join_host_lists(&mut self.blocked, other.blocked);
    }

    /// Empty rankings.
    pub fn new() -> (r: HostRankings)
        ensures
            r.liked@.len() == 0,
            r.disliked@.len() == 0,
            r.blocked@.len() == 0,
    {
        HostRankings { liked: Vec::new(), disliked: Vec::new(), blocked: Vec::new() }
    }

    /// The optic these rankings stand for on their own: no rules, no
    /// coefficients, only the host lists.
    pub fn into_optic(self) -> (r: Optic)
        ensures
            r.rankings@.len() == 0,
            r.rules@.len() == 0,
            !r.discard_non_matching,
            r.host_rankings == self,
    {
        Optic {
            rankings: Vec::new(),
            rules: Vec::new(),
            discard_non_matching: false,
            host_rankings: self,
        }
    }
}

/// A per-signal coefficient override; a signal that no ranking block
/// names keeps its built-in default.
pub struct SignalCoefficient {
    pub host_centrality: Option<i64>,
    pub page_centrality: Option<i64>,
    pub pre_computed_score: Option<i64>,
}

/// The saturated sum of the values of every ranking entry aimed at the
/// named signal.
pub open spec fn spec_coeff_sum(rs: Seq<RankingCoeff>, name: Seq<char>) -> int
    decreases rs.len(),
{
    if rs.len() == 0 {
        0
    } else {
        let p = spec_coeff_sum(rs.drop_last(), name);
        if rs.last().target@ == name {
            crate::operator::sat_add(p, rs.last().value as int)
        } else {
            p
        }
    }
}

/// Whether some ranking entry aims at the named signal.
pub open spec fn spec_coeff_named(rs: Seq<RankingCoeff>, name: Seq<char>) -> bool {
    exists|i: int| 0 <= i < rs.len() && (#[trigger] rs[i]).target@ == name
}

/// Sums the ranking entries aimed at one signal; yields nothing when
/// none aims at it.
fn coeff_for(rs: &Vec<RankingCoeff>, name: &String) -> (r: Option<i64>)
    ensures
        r is Some <==> spec_coeff_named(rs@, name@),
        r is Some ==> r->Some_0 as int == spec_coeff_sum(rs@, name@),
{
    let mut sum: i64 = 0;
    let mut found = false;
    let mut i: usize = 0;
    while i < rs.len()
        invariant
            i <= rs@.len(),
            found <==> (exists|k: int| 0 <= k < i && (#[trigger] rs@[k]).target@ == name@),
            sum as int == spec_coeff_sum(rs@.take(i as int), name@),
        decreases rs@.len() - i,
    {
        proof {
            assert(rs@.take(i + 1).drop_last() =~= rs@.take(i as int));
            assert(rs@.take(i + 1).last() == rs@[i as int]);
        }
        if rs[i].target.eq(name) {
            sum = crate::operator::sat_add_exec(sum, rs[i].value);
            found = true;
            proof {
                assert((rs@[i as int]).target@ == name@);
            }
        } else {
            proof {
                assert(!((rs@[i as int]).target@ == name@));
            }
        }
        i = i + 1;
    }
    proof {
        assert(rs@.take(rs@.len() as int) =~= rs@);
    }
    if found {
        Some(sum)
    } else {
        None
    }
}

impl SignalCoefficient {
    /// No overrides.
    pub fn new() -> (r: SignalCoefficient)
        ensures
            r.host_centrality is None,
            r.page_centrality is None,
            r.pre_computed_score is None,
    {
        SignalCoefficient { host_centrality: None, page_centrality: None, pre_computed_score: None }
    }

    /// Reads the coefficient overrides out of one optic's ranking
    /// blocks: entries aimed at one signal sum.
    pub fn from_optic(optic: &Optic) -> (r: SignalCoefficient)
        ensures
            r.host_centrality is Some <==> spec_coeff_named(
                optic.rankings@,
                "host_centrality"@,
            ),
            r.host_centrality is Some ==> r.host_centrality->0 as int == spec_coeff_sum(
                optic.rankings@,
                "host_centrality"@,
            ),
            r.page_centrality is Some <==> spec_coeff_named(
                optic.rankings@,
                "page_centrality"@,
            ),
            r.page_centrality is Some ==> r.page_centrality->0 as int == spec_coeff_sum(
                optic.rankings@,
                "page_centrality"@,
            ),
            r.pre_computed_score is Some <==> spec_coeff_named(
                optic.rankings@,
                "pre_computed_score"@,
            ),
            r.pre_computed_score is Some ==> r.pre_computed_score->0 as int == spec_coeff_sum(
                optic.rankings@,
                "pre_computed_score"@,
            ),
    {
        let hc = coeff_for(&optic.rankings, &String::from_str("host_centrality"));
        let pc = coeff_for(&optic.rankings, &String::from_str("page_centrality"));
        let ps = coeff_for(&optic.rankings, &String::from_str("pre_computed_score"));
        SignalCoefficient { host_centrality: hc, page_centrality: pc, pre_computed_score: ps }
    }

    /// Merges another coefficient set into this one: overrides of the
    /// same signal sum, saturating at the machine range.
    pub fn merge_into(&mut self, other: SignalCoefficient)
        ensures
            final(self).host_centrality == spec_merge_coeff(
                old(self).host_centrality,
                other.host_centrality,
            ),
            final(self).page_centrality == spec_merge_coeff(
                old(self).page_centrality,
                other.page_centrality,
            ),
            final(self).pre_computed_score == spec_merge_coeff(
                old(self).pre_computed_score,
                other.pre_computed_score,
            ),
    {
        self.host_centrality = merge_coeff(self.host_centrality, other.host_centrality);
        self.page_centrality = merge_coeff(self.page_centrality, other.page_centrality);
        self.pre_computed_score = merge_coeff(self.pre_computed_score, other.pre_computed_score);
    }
}

/// Merging two optional overrides: both present sum, one present
/// stands, none stays none.
pub open spec fn spec_merge_coeff(a: Option<i64>, b: Option<i64>) -> Option<i64> {
    match (a, b) {
        (Some(x), Some(y)) => Some(crate::operator::sat_add(x as int, y as int) as i64),
        (Some(x), None) => Some(x),
        (None, y) => y,
    }
}

/// Merges two optional overrides.
fn merge_coeff(a: Option<i64>, b: Option<i64>) -> (r: Option<i64>)
    ensures
        r == spec_merge_coeff(a, b),
{
    match (a, b) {
        (Some(x), Some(y)) => {
            let s = crate::operator::sat_add_exec(x, y);
            proof {
                assert(s == crate::operator::sat_add(x as int, y as int) as i64);
            }
            Some(s)
        },
        (Some(x), None) => Some(x),
        (None, y) => y,
    }
}

} // verus!
