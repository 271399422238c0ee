//! The compiled operator tree: a closed sum of boolean, term, phrase,
//! n-gram, pattern, constant-boost and union operators, with its
//! matching and scoring semantics over an indexed document.

use vstd::prelude::*;

use crate::pattern::{pattern_matches, spec_pattern_matches, Pattern};
use crate::schema::{spec_field_tokens, spec_is_match_field, DocModel, Document, Label, TextField};
use crate::tokenize::{bytes_eq, ngram_at, spec_has_ngram, spec_ngram_at, toks_view};

verus! {

/// How a clause takes part in a boolean operator.
#[derive(Clone, Copy, PartialEq, Eq, Structural, Debug)]
pub enum Occur {
    Must,
    Should,
    MustNot,
}

/// One node of the compiled tree.
pub enum Operator {
    /// Boolean combination: all `Must` hold, no `MustNot` holds, and
    /// where no `Must` stands, at least one `Should` holds. An empty
    /// combination matches nothing.
    Bool(Vec<(Occur, Operator)>),
    /// One analysed token on one field, with its score weight.
    TermOp { field: TextField, token: Vec<u8>, weight: u64 },
    /// An ordered run of tokens on one field.
    PhraseOp { field: TextField, tokens: Vec<Vec<u8>> },
    /// A compound of `n` adjacent tokens of a field, for compound-word
    /// matching through the n-gram chains.
    NgramOp { field: TextField, n: u64, token: Vec<u8> },
    /// An optic pattern on one field.
    PatternOp { field: TextField, pattern: Pattern },
    /// The document's body is empty, or carries the ordered run: how a
    /// phrase reads against body text.
    BodyEmptyOrPhrase { tokens: Vec<Vec<u8>> },
    /// A matched document contributes a fixed score, positive for a
    /// boost and negative for a downrank.
    ConstOp { boost_millis: i64, inner: Box<Operator> },
    /// At least one branch matches; matching branches add their scores.
    Union(Vec<Operator>),
    /// The document is classified as not safe for work.
    SafetyNsfw,
}

/// Whether an operator accepts a document.
pub open spec fn op_matches(op: Operator, d: DocModel) -> bool
    decreases op,
{
    match op {
        Operator::Bool(cs) => {
            &&& cs@.len() > 0
            &&& (forall|i: int|
                0 <= i < cs@.len() && cs@[i].0 == Occur::Must ==> op_matches(#[trigger] cs@[i].1, d))
            &&& (forall|i: int|
                0 <= i < cs@.len() && cs@[i].0 == Occur::MustNot ==> !op_matches(
                    #[trigger] cs@[i].1,
                    d,
                ))
            &&& ((exists|i: int| 0 <= i < cs@.len() && cs@[i].0 == Occur::Must) || (exists|i: int|
                0 <= i < cs@.len() && cs@[i].0 == Occur::Should && op_matches(
                    #[trigger] cs@[i].1,
                    d,
                )))
        },
        Operator::TermOp { field, token, weight } => spec_field_tokens(d, field).contains(token@),
        Operator::PhraseOp { field, tokens } => spec_has_phrase(
            spec_field_tokens(d, field),
            toks_view(tokens),
        ),
        Operator::NgramOp { field, n, token } => spec_has_ngram(
            spec_field_tokens(d, field),
            n as int,
            token@,
        ),
        Operator::PatternOp { field, pattern } => spec_pattern_matches(
            pattern,
            spec_field_tokens(d, field),
        ),
        Operator::BodyEmptyOrPhrase { tokens } => d.body_tokens.len() == 0 || spec_has_phrase(
            d.body_tokens,
            toks_view(tokens),
        ),
        Operator::ConstOp { boost_millis, inner } => op_matches(*inner, d),
        Operator::Union(cs) => exists|i: int|
            0 <= i < cs@.len() && op_matches(#[trigger] cs@[i], d),
        Operator::SafetyNsfw => d.safety_classification == Some(Label::Nsfw),
    }
}

/// Whether the run `ph` stands consecutively in `ts`.
pub open spec fn spec_has_phrase(ts: Seq<Seq<u8>>, ph: Seq<Seq<u8>>) -> bool {
    exists|j: int|
        0 <= j && j + ph.len() <= ts.len() && #[trigger] ts.subrange(j, j + ph.len()) =~= ph
}

/// Whether an operator aims only at matching fields.
pub open spec fn op_wf(op: Operator) -> bool
    decreases op,
{
    match op {
        Operator::Bool(cs) => forall|i: int|
            0 <= i < cs@.len() ==> op_wf(#[trigger] cs@[i].1),
        Operator::TermOp { field, .. } => spec_is_match_field(field),
        Operator::PhraseOp { field, .. } => spec_is_match_field(field),
        Operator::NgramOp { field, .. } => spec_is_match_field(field),
        Operator::PatternOp { field, .. } => spec_is_match_field(field),
        Operator::BodyEmptyOrPhrase { .. } => true,
        Operator::ConstOp { inner, .. } => op_wf(*inner),
        Operator::Union(cs) => forall|i: int| 0 <= i < cs@.len() ==> op_wf(#[trigger] cs@[i]),
        Operator::SafetyNsfw => true,
    }
}

/// Clamps a mathematical score into the machine range.
pub open spec fn sat64(x: int) -> int {
    if x > i64::MAX {
        i64::MAX as int
    } else if x < i64::MIN {
        i64::MIN as int
    } else {
        x
    }
}

/// Saturating score addition.
pub open spec fn sat_add(a: int, b: int) -> int {
    sat64(a + b)
}

/// The score an operator contributes for a document, in thousandths.
/// A clause that does not match contributes nothing; sums saturate at
/// the machine range.
pub open spec fn op_score(op: Operator, d: DocModel) -> int
    decreases op, 1int,
{
    match op {
        Operator::Bool(cs) => bool_score_upto(cs, d, cs@.len() as int),
        Operator::TermOp { field, token, weight } => {
            if spec_field_tokens(d, field).contains(token@) {
                sat64(weight as int)
            } else {
                0
            }
        },
        Operator::PhraseOp { field, tokens } => {
            if spec_has_phrase(spec_field_tokens(d, field), toks_view(tokens)) {
                1000
            } else {
                0
            }
        },
        Operator::NgramOp { field, n, token } => {
            if spec_has_ngram(spec_field_tokens(d, field), n as int, token@) {
                1000
            } else {
                0
            }
        },
        Operator::PatternOp { field, pattern } => {
            if spec_pattern_matches(pattern, spec_field_tokens(d, field)) {
                1000
            } else {
                0
            }
        },
        Operator::BodyEmptyOrPhrase { tokens } => {
            if spec_has_phrase(d.body_tokens, toks_view(tokens)) {
                1000
            } else {
                0
            }
        },
        Operator::ConstOp { boost_millis, inner } => {
            if op_matches(*inner, d) {
                boost_millis as int
            } else {
                0
            }
        },
        Operator::Union(cs) => union_score_upto(cs, d, cs@.len() as int),
        Operator::SafetyNsfw => 0,
    }
}

/// The saturated score of the first `n` clauses of a boolean operator:
/// matching clauses that are not `MustNot` add their scores.
pub open spec fn bool_score_upto(cs: Vec<(Occur, Operator)>, d: DocModel, n: int) -> int
    decreases cs, 0int, n,
{
    if n <= 0 || n > cs@.len() {
        0
    } else {
        let prev = bool_score_upto(cs, d, n - 1);
        let (occur, op) = cs@[n - 1];
        if occur != Occur::MustNot && op_matches(op, d) {
            sat_add(prev, op_score(op, d))
        } else {
            prev
        }
    }
}

/// The saturated score of the first `n` branches of a union.
pub open spec fn union_score_upto(cs: Vec<Operator>, d: DocModel, n: int) -> int
    decreases cs, 0int, n,
{
    if n <= 0 || n > cs@.len() {
        0
    } else {
        let prev = union_score_upto(cs, d, n - 1);
        let op = cs@[n - 1];
        if op_matches(op, d) {
            sat_add(prev, op_score(op, d))
        } else {
            prev
        }
    }
}

/// Clause-score folds stay within the machine range.
pub proof fn lemma_bool_score_range(cs: Vec<(Occur, Operator)>, d: DocModel, n: int)
    ensures
        i64::MIN <= bool_score_upto(cs, d, n) <= i64::MAX,
    decreases n,
{
    if n > 0 && n <= cs@.len() {
        lemma_bool_score_range(cs, d, n - 1);
    }
}

/// Union-score folds stay within the machine range.
pub proof fn lemma_union_score_range(cs: Vec<Operator>, d: DocModel, n: int)
    ensures
        i64::MIN <= union_score_upto(cs, d, n) <= i64::MAX,
    decreases n,
{
    if n > 0 && n <= cs@.len() {
        lemma_union_score_range(cs, d, n - 1);
    }
}

/// Every operator's score stays within the machine range.
pub proof fn lemma_op_score_range(op: Operator, d: DocModel)
    ensures
        i64::MIN <= op_score(op, d) <= i64::MAX,
{
    match op {
        Operator::Bool(cs) => {
            lemma_bool_score_range(cs, d, cs@.len() as int);
        },
        Operator::Union(cs) => {
            lemma_union_score_range(cs, d, cs@.len() as int);
        },
        _ => {},
    }
}

/// Saturating addition on machine scores.
pub fn sat_add_exec(a: i64, b: i64) -> (r: i64)
    ensures
        r as int == sat_add(a as int, b as int),
{
    if b >= 0 {
        if a > i64::MAX - b {
            i64::MAX
        } else {
            a + b
        }
    } else {
        if a < i64::MIN - b {
            i64::MIN
        } else {
            a + b
        }
    }
}

/// Whether `tok` occurs in `ts`.
fn toks_contain(ts: &Vec<Vec<u8>>, tok: &Vec<u8>) -> (r: bool)
    ensures
        r == toks_view(*ts).contains(tok@),
{
    let mut i: usize = 0;
    while i < ts.len()
        invariant
            i <= ts@.len(),
            forall|k: int| 0 <= k < i ==> toks_view(*ts)[k] != tok@,
        decreases ts@.len() - i,
    {
        if bytes_eq(ts[i].as_slice(), tok.as_slice()) {
            proof {
                assert(toks_view(*ts)[i as int] == tok@);
            }
            return true;
        }
        i = i + 1;
    }
    proof {
        if toks_view(*ts).contains(tok@) {
            let k = choose|k: int| 0 <= k < toks_view(*ts).len() && toks_view(*ts)[k] == tok@;
            assert(false);
        }
    }
    false
}

/// Whether `ph` stands at position `j` of `ts`.
fn phrase_at(ts: &Vec<Vec<u8>>, ph: &Vec<Vec<u8>>, j: usize) -> (r: bool)
    requires
        j + ph@.len() <= ts@.len(),
    ensures
        r == (toks_view(*ts).subrange(j as int, j + toks_view(*ph).len()) == toks_view(*ph)),
{
    let total: usize = ts.len();
    let n: usize = ph.len();
    let mut k: usize = 0;
    while k < n
        invariant
            k <= n,
            n == ph@.len(),
            total == ts@.len(),
            j + n <= total,
            forall|q: int| 0 <= q < k ==> toks_view(*ts)[j + q] == toks_view(*ph)[q],
        decreases n - k,
    {
        if !bytes_eq(ts[j + k].as_slice(), ph[k].as_slice()) {
            proof {
                assert(toks_view(*ts)[j + k] != toks_view(*ph)[k as int]);
                assert(toks_view(*ts).subrange(j as int, j + toks_view(*ph).len())[k as int]
                    == toks_view(*ts)[j + k]);
            }
            return false;
        }
        proof {
            assert(toks_view(*ts)[j + k] == toks_view(*ph)[k as int]);
        }
        k = k + 1;
    }
    proof {
        assert forall|q: int|
            0 <= q < toks_view(*ph).len() implies toks_view(*ts).subrange(
            j as int,
            j + toks_view(*ph).len(),
        )[q] == toks_view(*ph)[q] by {
            assert(toks_view(*ts)[j + q] == toks_view(*ph)[q]);
        }
        assert(toks_view(*ts).subrange(j as int, j + toks_view(*ph).len()) =~= toks_view(*ph));
    }
    true
}

/// Whether the run `ph` stands consecutively in `ts`.
fn has_phrase(ts: &Vec<Vec<u8>>, ph: &Vec<Vec<u8>>) -> (r: bool)
    ensures
        r == spec_has_phrase(toks_view(*ts), toks_view(*ph)),
{
    let n = ph.len();
    if n > ts.len() {
        proof {
            assert(!spec_has_phrase(toks_view(*ts), toks_view(*ph)));
        }
        return false;
    }
    if n == 0 {
        proof {
            assert(toks_view(*ts).subrange(0, 0 + toks_view(*ph).len() as int) =~= toks_view(
                *ph,
            ));
        }
        return true;
    }
    let total: usize = ts.len();
    let mut j: usize = 0;
    while j <= total - n
        invariant
            n == ph@.len(),
            total == ts@.len(),
            1 <= n <= total,
            j <= total - n + 1,
            forall|m: int|
                0 <= m < j ==> #[trigger] toks_view(*ts).subrange(m, m + toks_view(*ph).len())
                    != toks_view(*ph),
        decreases total - n - j + 1,
    {
        if phrase_at(ts, ph, j) {
            return true;
        }
        j = j + 1;
    }
    proof {
        if spec_has_phrase(toks_view(*ts), toks_view(*ph)) {
            let m = choose|m: int|
                0 <= m && m + toks_view(*ph).len() <= toks_view(*ts).len()
                    && #[trigger] toks_view(*ts).subrange(m, m + toks_view(*ph).len()) =~= toks_view(
                    *ph,
                );
            assert(false);
        }
    }
    false
}

/// Whether some `n` adjacent tokens of `ts` concatenate to `tok`.
fn has_ngram(ts: &Vec<Vec<u8>>, n: u64, tok: &Vec<u8>) -> (r: bool)
    ensures
        r == spec_has_ngram(toks_view(*ts), n as int, tok@),
{
    if n > ts.len() as u64 {
        proof {
            assert(!spec_has_ngram(toks_view(*ts), n as int, tok@));
        }
        return false;
    }
    let nn = n as usize;
    if nn == 0 {
        let r = tok.len() == 0;
        proof {
            if r {
                assert(spec_ngram_at(toks_view(*ts), 0, 0) == tok@);
            } else {
                assert(forall|m: int| spec_ngram_at(toks_view(*ts), m, 0) =~= Seq::<u8>::empty());
            }
        }
        return r;
    }
    let total: usize = ts.len();
    let mut i: usize = 0;
    while i <= total - nn
        invariant
            nn == n,
            total == ts@.len(),
            1 <= nn <= total,
            i <= total - nn + 1,
            forall|m: int|
                0 <= m < i ==> spec_ngram_at(toks_view(*ts), m, n as int) != tok@,
        decreases ts@.len() - nn - i + 1,
    {
        let g = ngram_at(ts, i, nn);
        if bytes_eq(g.as_slice(), tok.as_slice()) {
            proof {
                assert(spec_ngram_at(toks_view(*ts), i as int, n as int) == tok@);
            }
            return true;
        }
        i = i + 1;
    }
    proof {
        if spec_has_ngram(toks_view(*ts), n as int, tok@) {
            let m = choose|m: int|
                0 <= m && m + n <= toks_view(*ts).len() && spec_ngram_at(
                    toks_view(*ts),
                    m,
                    n as int,
                ) == tok@;
            assert(false);
        }
    }
    false
}

/// Evaluates an operator on a document: whether it matches, and the
/// score it contributes.
pub fn eval_op(op: &Operator, d: &Document) -> (r: (bool, i64))
    requires
        op_wf(*op),
    ensures
        r.0 == op_matches(*op, d@),
        r.1 as int == op_score(*op, d@),
    decreases *op,
{
    match op {
        Operator::Bool(cs) => {
            let mut i: usize = 0;
            let mut musts_ok = true;
            let mut has_must = false;
            let mut should_match = false;
            let mut mustnot_clean = true;
            let mut score: i64 = 0;
            while i < cs.len()
                invariant
                    op_wf(*op),
                    op == Operator::Bool(*cs),
                    i <= cs@.len(),
                    musts_ok <==> (forall|k: int|
                        0 <= k < i && cs@[k].0 == Occur::Must ==> op_matches(
                            #[trigger] cs@[k].1,
                            d@,
                        )),
                    mustnot_clean <==> (forall|k: int|
                        0 <= k < i && cs@[k].0 == Occur::MustNot ==> !op_matches(
                            #[trigger] cs@[k].1,
                            d@,
                        )),
                    has_must <==> (exists|k: int| 0 <= k < i && (#[trigger] cs@[k]).0 == Occur::Must),
                    should_match <==> (exists|k: int|
                        0 <= k < i && (#[trigger] cs@[k]).0 == Occur::Should && op_matches(
                            cs@[k].1,
                            d@,
                        )),
                    score as int == bool_score_upto(*cs, d@, i as int),
                decreases cs@.len() - i,
            {
                proof {
                    assert(op is Bool && op->Bool_0 == *cs);
                    assert(op_wf(op->Bool_0@[i as int].1));
                    assert(decreases_to!(*op => op->Bool_0@[i as int].1));
                }
                let (occur, child) = &cs[i];
                let (m, s) = eval_op(child, d);
                match occur {
                    Occur::Must => {
                        has_must = true;
                        if !m {
                            musts_ok = false;
                        }
                        if m {
                            score = sat_add_exec(score, s);
                        }
                    },
                    Occur::Should => {
                        if m {
                            should_match = true;
                            score = sat_add_exec(score, s);
                        }
                    },
                    Occur::MustNot => {
                        if m {
                            mustnot_clean = false;
                        }
                    },
                }
                i = i + 1;
            }
            let matched = cs.len() > 0 && musts_ok && mustnot_clean && (has_must || should_match);
            (matched, score)
        },
        Operator::TermOp { field, token, weight } => {
            let ts = d.field_tokens(*field);
            let m = toks_contain(ts, token);
            let w = *weight;
            let s: i64 = if m {
                if w > i64::MAX as u64 {
                    i64::MAX
                } else {
                    w as i64
                }
            } else {
                0
            };
            (m, s)
        },
        Operator::PhraseOp { field, tokens } => {
            let ts = d.field_tokens(*field);
            let m = has_phrase(ts, tokens);
            (m, if m { 1000 } else { 0 })
        },
        Operator::NgramOp { field, n, token } => {
            let ts = d.field_tokens(*field);
            let m = has_ngram(ts, *n, token);
            (m, if m { 1000 } else { 0 })
        },
        Operator::PatternOp { field, pattern } => {
            let ts = d.field_tokens(*field);
            let m = pattern_matches(pattern, ts);
            (m, if m { 1000 } else { 0 })
        },
        Operator::BodyEmptyOrPhrase { tokens } => {
            let ph = has_phrase(&d.body_tokens, tokens);
            let m = d.body_tokens.len() == 0 || ph;
            (m, if ph { 1000 } else { 0 })
        },
        Operator::ConstOp { boost_millis, inner } => {
            let (m, _) = eval_op(inner, d);
            (m, if m { *boost_millis } else { 0 })
        },
        Operator::Union(cs) => {
            let mut i: usize = 0;
            let mut any = false;
            let mut score: i64 = 0;
            while i < cs.len()
                invariant
                    op_wf(*op),
                    op == Operator::Union(*cs),
                    i <= cs@.len(),
                    any <==> (exists|k: int|
                        0 <= k < i && op_matches(#[trigger] cs@[k], d@)),
                    score as int == union_score_upto(*cs, d@, i as int),
                decreases cs@.len() - i,
            {
                proof {
                    assert(op is Union && op->Union_0 == *cs);
                    assert(op_wf(op->Union_0@[i as int]));
                    assert(decreases_to!(*op => op->Union_0@[i as int]));
                }
                let (m, s) = eval_op(&cs[i], d);
                if m {
                    any = true;
                    score = sat_add_exec(score, s);
                }
                i = i + 1;
            }
            (any, score)
        },
        Operator::SafetyNsfw => {
            let m = match d.safety_classification {
                Some(Label::Nsfw) => true,
                _ => false,
            };
            (m, 0)
        },
    }
}

} // verus!
