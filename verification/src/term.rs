//! The query string parser: whitespace separates terms, quotes open
//! phrases, `-` negates, and `site:`, `intitle:` and `inurl:` aim a
//! term at one field.

use vstd::prelude::*;

use crate::tokenize::{bytes_eq, is_ws, is_ws_exec};

verus! {

/// What a parsed term is.
#[derive(Clone, Copy, PartialEq, Eq, Structural, Debug)]
pub enum TermKind {
    /// A plain token, kept verbatim.
    Simple,
    /// The inner text of a quoted phrase, matched as an ordered run.
    Phrase,
    /// A `site:` operator; its text is a URL-like pattern.
    Site,
    /// An `intitle:` operator.
    InTitle,
    /// An `inurl:` operator.
    InUrl,
}

/// One parsed term of a query.
pub struct Term {
    pub kind: TermKind,
    pub negated: bool,
    pub text: Vec<u8>,
}

/// The mathematical view of a term.
pub struct TermModel {
    pub kind: TermKind,
    pub negated: bool,
    pub text: Seq<u8>,
}

impl View for Term {
    type V = TermModel;

    open spec fn view(&self) -> TermModel {
        TermModel { kind: self.kind, negated: self.negated, text: self.text@ }
    }
}

impl PartialEq for Term {
    fn eq(&self, other: &Term) -> (r: bool) {
        self.kind == other.kind && self.negated == other.negated && bytes_eq(
            self.text.as_slice(),
            other.text.as_slice(),
        )
    }
}

impl vstd::std_specs::cmp::PartialEqSpecImpl for Term {
    open spec fn obeys_eq_spec() -> bool {
        true
    }

    open spec fn eq_spec(&self, other: &Term) -> bool {
        self@ == other@
    }
}

/// The byte sequences of the operator prefixes.
pub open spec fn site_prefix() -> Seq<u8> {
    seq![115u8, 105u8, 116u8, 101u8, 58u8]
}

pub open spec fn intitle_prefix() -> Seq<u8> {
    seq![105u8, 110u8, 116u8, 105u8, 116u8, 108u8, 101u8, 58u8]
}

pub open spec fn inurl_prefix() -> Seq<u8> {
    seq![105u8, 110u8, 117u8, 114u8, 108u8, 58u8]
}

/// Classifies a whitespace token without its negation sign.
pub open spec fn spec_classify_base(t: Seq<u8>, negated: bool) -> TermModel {
    if t.len() >= 5 && t.take(5) == site_prefix() {
        TermModel { kind: TermKind::Site, negated, text: t.skip(5) }
    } else if t.len() >= 8 && t.take(8) == intitle_prefix() {
        TermModel { kind: TermKind::InTitle, negated, text: t.skip(8) }
    } else if t.len() >= 6 && t.take(6) == inurl_prefix() {
        TermModel { kind: TermKind::InUrl, negated, text: t.skip(6) }
    } else {
        TermModel { kind: TermKind::Simple, negated, text: t }
    }
}

/// Classifies a whitespace token: a leading `-` on a token of at least
/// two bytes negates what follows.
pub open spec fn spec_classify(t: Seq<u8>) -> TermModel {
    if t.len() >= 2 && t[0] == 0x2d {
        spec_classify_base(t.skip(1), true)
    } else {
        spec_classify_base(t, false)
    }
}

/// Left fold of the query parser: terms finished, the token still
/// open, and whether a phrase is open. A quote at the start of a token
/// opens a phrase, which runs over whitespace to the closing quote or
/// the end of the input.
pub open spec fn parse_fold(s: Seq<u8>) -> (Seq<TermModel>, Seq<u8>, bool)
    decreases s.len(),
{
    if s.len() == 0 {
        (Seq::empty(), Seq::empty(), false)
    } else {
        let r = parse_fold(s.drop_last());
        let b = s.last();
        if r.2 {
            if b == 0x22 {
                (
                    r.0.push(TermModel { kind: TermKind::Phrase, negated: false, text: r.1 }),
                    Seq::empty(),
                    false,
                )
            } else {
                (r.0, r.1.push(b), true)
            }
        } else {
            if b == 0x22 && r.1.len() == 0 {
                (r.0, Seq::empty(), true)
            } else if is_ws(b) {
                if r.1.len() > 0 {
                    (r.0.push(spec_classify(r.1)), Seq::empty(), false)
                } else {
                    r
                }
            } else {
                (r.0, r.1.push(b), false)
            }
        }
    }
}

/// The terms of a query string.
pub open spec fn spec_parse_terms(s: Seq<u8>) -> Seq<TermModel> {
    let r = parse_fold(s);
    if r.2 {
        r.0.push(TermModel { kind: TermKind::Phrase, negated: false, text: r.1 })
    } else if r.1.len() > 0 {
        r.0.push(spec_classify(r.1))
    } else {
        r.0
    }
}

/// View of a term vector.
pub open spec fn terms_model(ts: Seq<Term>) -> Seq<TermModel> {
    ts.map_values(|t: Term| t@)
}

/// Whether `pre` is the prefix of `t`.
fn has_prefix(t: &Vec<u8>, pre: &[u8]) -> (r: bool)
    ensures
        r == (t@.len() >= pre@.len() && t@.take(pre@.len() as int) == pre@),
{
    if t.len() < pre.len() {
        return false;
    }
    let mut i: usize = 0;
    while i < pre.len()
        invariant
            i <= pre@.len(),
            pre@.len() <= t@.len(),
            forall|k: int| 0 <= k < i ==> t@[k] == pre@[k],
        decreases pre@.len() - i,
    {
        if t[i] != pre[i] {
            proof {
                assert(t@.take(pre@.len() as int)[i as int] != pre@[i as int]);
            }
            return false;
        }
        i = i + 1;
    }
    proof {
        assert(t@.take(pre@.len() as int) =~= pre@);
    }
    true
}

/// The bytes of `t` from `from` on.
fn tail_of(t: &Vec<u8>, from: usize) -> (r: Vec<u8>)
    requires
        from <= t@.len(),
    ensures
        r@ == t@.skip(from as int),
{
    let mut out: Vec<u8> = Vec::new();
    let mut i: usize = from;
    while i < t.len()
        invariant
            from <= i <= t@.len(),
            out@ =~= t@.subrange(from as int, i as int),
        decreases t@.len() - i,
    {
        out.push(t[i]);
        proof {
            assert(out@ =~= t@.subrange(from as int, i + 1));
        }
        i = i + 1;
    }
    proof {
        assert(t@.subrange(from as int, t@.len() as int) =~= t@.skip(from as int));
    }
    out
}

/// Classifies one whitespace token into a term.
fn classify(t: Vec<u8>) -> (r: Term)
    ensures
        r@ == spec_classify(t@),
{
    let site_p: [u8; 5] = [115, 105, 116, 101, 58];
    let intitle_p: [u8; 8] = [105, 110, 116, 105, 116, 108, 101, 58];
    let inurl_p: [u8; 6] = [105, 110, 117, 114, 108, 58];
    proof {
        assert(site_p@ =~= site_prefix());
        assert(intitle_p@ =~= intitle_prefix());
        assert(inurl_p@ =~= inurl_prefix());
    }
    let (base, negated) = if t.len() >= 2 && t[0] == 0x2d {
        (tail_of(&t, 1), true)
    } else {
        (t, false)
    };
    if has_prefix(&base, site_p.as_slice()) {
        let text = tail_of(&base, 5);
        Term { kind: TermKind::Site, negated, text }
    } else if has_prefix(&base, intitle_p.as_slice()) {
        let text = tail_of(&base, 8);
        Term { kind: TermKind::InTitle, negated, text }
    } else if has_prefix(&base, inurl_p.as_slice()) {
        let text = tail_of(&base, 6);
        Term { kind: TermKind::InUrl, negated, text }
    } else {
        Term { kind: TermKind::Simple, negated, text: base }
    }
}

/// Parses a query string into its terms.
pub fn parse_terms(s: &[u8]) -> (r: Vec<Term>)
    ensures
        terms_model(r@) == spec_parse_terms(s@),
{
    let mut done: Vec<Term> = Vec::new();
    let mut cur: Vec<u8> = Vec::new();
    let mut in_phrase = false;
    let mut i: usize = 0;
    while i < s.len()
        invariant
            i <= s.len(),
            (terms_model(done@), cur@, in_phrase) == parse_fold(s@.take(i as int)),
        decreases s.len() - i,
    {
        proof {
            assert(s@.take(i + 1).drop_last() =~= s@.take(i as int));
            assert(s@.take(i + 1).last() == s@[i as int]);
        }
        let ghost pre_done = terms_model(done@);
        let b = s[i];
        if in_phrase {
            if b == 0x22 {
                done.push(Term { kind: TermKind::Phrase, negated: false, text: cur });
                cur = Vec::new();
                in_phrase = false;
                proof {
                    assert(terms_model(done@) =~= parse_fold(s@.take(i + 1)).0);
                }
            } else {
                cur.push(b);
            }
        } else {
            if b == 0x22 && cur.len() == 0 {
                in_phrase = true;
            } else if is_ws_exec(b) {
                if cur.len() > 0 {
                    let term = classify(cur);
                    done.push(term);
                    cur = Vec::new();
                    proof {
                        assert(terms_model(done@) =~= parse_fold(s@.take(i + 1)).0);
                    }
                }
            } else {
                cur.push(b);
            }
        }
        i = i + 1;
    }
    proof {
        assert(s@.take(s@.len() as int) =~= s@);
    }
    if in_phrase {
        done.push(Term { kind: TermKind::Phrase, negated: false, text: cur });
        proof {
            assert(terms_model(done@) =~= spec_parse_terms(s@));
        }
    } else if cur.len() > 0 {
        let term = classify(cur);
        done.push(term);
        proof {
            assert(terms_model(done@) =~= spec_parse_terms(s@));
        }
    }
    done
}

} // verus!
