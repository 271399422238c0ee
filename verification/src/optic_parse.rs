//! The textual form of optic programs: a lexer for its tokens and a
//! recursive-descent reader for its statements, each held to a
//! specification of the grammar. A program that does not fit it is
//! refused whole.

use vstd::prelude::*;

use crate::optic::{Action, HostRankings, MatchLocation, Matching, Optic, RankingCoeff, Rule};
use crate::tokenize::{is_ws_exec};

verus! {

/// Why an optic program was refused.
#[derive(Clone, Copy, PartialEq, Eq, Structural, Debug)]
pub enum OpticError {
    /// The program does not fit the optic grammar.
    InvalidOptic,
}

impl OpticError {
    /// A short reading of the error.
    pub fn message(&self) -> (r: &'static str) {
        "the optic program does not fit the grammar"
    }
}

/// One token of the optic language.
pub enum OpticToken {
    Ident(Vec<u8>),
    Text(Vec<u8>),
    Number(u64),
    LBrace,
    RBrace,
    LParen,
    RParen,
    Comma,
    Semicolon,
}

/// The mathematical view of one token.
pub enum TokModel {
    Ident(Seq<u8>),
    Text(Seq<u8>),
    Number(u64),
    LBrace,
    RBrace,
    LParen,
    RParen,
    Comma,
    Semicolon,
}

/// The view of a token.
pub open spec fn tok_model(t: OpticToken) -> TokModel {
    match t {
        OpticToken::Ident(v) => TokModel::Ident(v@),
        OpticToken::Text(v) => TokModel::Text(v@),
        OpticToken::Number(n) => TokModel::Number(n),
        OpticToken::LBrace => TokModel::LBrace,
        OpticToken::RBrace => TokModel::RBrace,
        OpticToken::LParen => TokModel::LParen,
        OpticToken::RParen => TokModel::RParen,
        OpticToken::Comma => TokModel::Comma,
        OpticToken::Semicolon => TokModel::Semicolon,
    }
}

/// The views of a token list.
pub open spec fn toks_model(ts: Seq<OpticToken>) -> Seq<TokModel> {
    ts.map_values(|t: OpticToken| tok_model(t))
}

/// Whether a byte continues an identifier.
pub open spec fn spec_ident_byte(b: u8) -> bool {
    (97 <= b && b <= 122) || (65 <= b && b <= 90) || (48 <= b && b <= 57) || b == 0x5f
}

/// Whether a byte is a decimal digit.
pub open spec fn spec_digit(b: u8) -> bool {
    48 <= b && b <= 57
}

/// The first position at or after `i` holding a closing quote; the
/// text's end where none follows.
pub open spec fn spec_scan_quote(s: Seq<u8>, i: int) -> int
    decreases s.len() - i,
{
    if i < 0 || i >= s.len() {
        i
    } else if s[i] == 0x22 {
        i
    } else {
        spec_scan_quote(s, i + 1)
    }
}

/// The first position at or after `i` that does not continue an
/// identifier.
pub open spec fn spec_scan_ident(s: Seq<u8>, i: int) -> int
    decreases s.len() - i,
{
    if i < 0 || i >= s.len() {
        i
    } else if spec_ident_byte(s[i]) {
        spec_scan_ident(s, i + 1)
    } else {
        i
    }
}

/// The first position at or after `i` that is not a digit.
pub open spec fn spec_scan_digits(s: Seq<u8>, i: int) -> int
    decreases s.len() - i,
{
    if i < 0 || i >= s.len() {
        i
    } else if spec_digit(s[i]) {
        spec_scan_digits(s, i + 1)
    } else {
        i
    }
}

/// The numeric value of the digit run `s[i..j]`, read left to right.
pub open spec fn spec_digits_val(s: Seq<u8>, i: int, j: int) -> int
    decreases j - i,
{
    if i < 0 || j <= i {
        0
    } else {
        spec_digits_val(s, i, j - 1) * 10 + ((s[j - 1] as int) - 48)
    }
}

/// The thousandths the fraction digits `s[i..j]` contribute: the
/// first counts hundreds, the next tens, the next ones; any further
/// digits are dropped.
pub open spec fn spec_frac_val(s: Seq<u8>, i: int, j: int, scale: int) -> int
    decreases j - i,
{
    if i < 0 || j <= i {
        0
    } else {
        (if scale > 0 {
            ((s[i] as int) - 48) * scale
        } else {
            0
        }) + spec_frac_val(s, i + 1, j, scale / 10)
    }
}

/// A scan end, clamped into the text so that at least one byte was
/// read.
pub open spec fn spec_past(j: int, lo: int, hi: int) -> int {
    if j < lo {
        lo
    } else if j > hi {
        hi
    } else {
        j
    }
}

/// Prefixes a token onto a lex result.
pub open spec fn spec_lex_cons(t: TokModel, rest: Option<Seq<TokModel>>) -> Option<
    Seq<TokModel>,
> {
    match rest {
        Option::None => None,
        Option::Some(ts) => Some(seq![t] + ts),
    }
}

/// The token stream of the program text from position `i` on: none
/// where an unreadable byte, an unclosed quote or an overlong number
/// refuses the program.
pub open spec fn spec_lex_from(s: Seq<u8>, i: int) -> Option<Seq<TokModel>>
    decreases s.len() - i,
{
    if i < 0 || i >= s.len() {
        Some(Seq::empty())
    } else {
        let b = s[i];
        if crate::tokenize::is_ws(b) {
            spec_lex_from(s, i + 1)
        } else if b == 0x7b {
            spec_lex_cons(TokModel::LBrace, spec_lex_from(s, i + 1))
        } else if b == 0x7d {
            spec_lex_cons(TokModel::RBrace, spec_lex_from(s, i + 1))
        } else if b == 0x28 {
            spec_lex_cons(TokModel::LParen, spec_lex_from(s, i + 1))
        } else if b == 0x29 {
            spec_lex_cons(TokModel::RParen, spec_lex_from(s, i + 1))
        } else if b == 0x2c {
            spec_lex_cons(TokModel::Comma, spec_lex_from(s, i + 1))
        } else if b == 0x3b {
            spec_lex_cons(TokModel::Semicolon, spec_lex_from(s, i + 1))
        } else if b == 0x22 {
            let j = spec_past(spec_scan_quote(s, i + 1), i + 1, s.len() as int);
            if j >= s.len() {
                None
            } else {
                spec_lex_cons(TokModel::Text(s.subrange(i + 1, j)), spec_lex_from(s, j + 1))
            }
        } else if spec_digit(b) {
            let j = spec_past(spec_scan_digits(s, i), i + 1, s.len() as int);
            if spec_digits_val(s, i, j - 1) >= 1000000000 {
                None
            } else {
                let whole = spec_digits_val(s, i, j);
                if j < s.len() && s[j] == 0x2e {
                    let fe = spec_past(spec_scan_digits(s, j + 1), j + 1, s.len() as int);
                    spec_lex_cons(
                        TokModel::Number(
                            (whole * 1000 + spec_frac_val(s, j + 1, fe, 100)) as u64,
                        ),
                        spec_lex_from(s, fe),
                    )
                } else {
                    spec_lex_cons(TokModel::Number((whole * 1000) as u64), spec_lex_from(s, j))
                }
            }
        } else if spec_ident_byte(b) {
            let j = spec_past(spec_scan_ident(s, i), i + 1, s.len() as int);
            spec_lex_cons(TokModel::Ident(s.subrange(i, j)), spec_lex_from(s, j))
        } else {
            None
        }
    }
}

/// A digit scan stays within the text and reads digits only.
proof fn lemma_scan_digits_props(s: Seq<u8>, i: int)
    requires
        0 <= i <= s.len(),
    ensures
        i <= spec_scan_digits(s, i) <= s.len(),
        forall|k: int| i <= k < spec_scan_digits(s, i) ==> spec_digit(#[trigger] s[k]),
    decreases s.len() - i,
{
    if i < s.len() && spec_digit(s[i]) {
        lemma_scan_digits_props(s, i + 1);
    }
}

/// A digit run's value is non-negative and grows with its length.
proof fn lemma_digits_val_mono(s: Seq<u8>, i: int, a: int, b: int)
    requires
        0 <= i <= a <= b,
        forall|k: int| i <= k < b ==> spec_digit(#[trigger] s[k]),
    ensures
        0 <= spec_digits_val(s, i, a) <= spec_digits_val(s, i, b),
    decreases b - i + b - a,
{
    if a < b {
        lemma_digits_val_mono(s, i, b - 1, b - 1);
        lemma_digits_val_mono(s, i, a, b - 1);
        assert(spec_digits_val(s, i, b) == spec_digits_val(s, i, b - 1) * 10 + ((s[b - 1] as int)
            - 48));
    } else if a > i {
        lemma_digits_val_mono(s, i, a - 1, a - 1);
        assert(spec_digits_val(s, i, a) == spec_digits_val(s, i, a - 1) * 10 + ((s[a - 1] as int)
            - 48));
    }
}

/// Appending one token appends its view.
proof fn lemma_toks_model_push(ts: Seq<OpticToken>, t: OpticToken)
    ensures
        toks_model(ts.push(t)) =~= toks_model(ts) + seq![tok_model(t)],
{
}

/// Whether a byte continues an identifier.
fn is_ident_byte(b: u8) -> (r: bool)
    ensures
        r == spec_ident_byte(b),
{
    (97 <= b && b <= 122) || (65 <= b && b <= 90) || (48 <= b && b <= 57) || b == 0x5f
}

/// Splits an optic program into tokens, exactly as `spec_lex_from`
/// reads the bytes: quoted text keeps its bytes verbatim; numbers
/// read as thousandths, with up to three fractional digits kept; an
/// unreadable byte, an unclosed quote or an overlong whole part
/// refuses the program.
pub fn lex_optic(s: &[u8]) -> (r: Result<Vec<OpticToken>, OpticError>)
    ensures
        (r is Ok) == (spec_lex_from(s@, 0) is Some),
        r is Ok ==> toks_model(r->Ok_0@) == spec_lex_from(s@, 0)->0,
{
    let mut out: Vec<OpticToken> = Vec::new();
    let mut i: usize = 0;
    while i < s.len()
        invariant
            i <= s.len(),
            (spec_lex_from(s@, 0) is Some) == (spec_lex_from(s@, i as int) is Some),
            spec_lex_from(s@, 0) is Some ==> spec_lex_from(s@, 0)->0 == toks_model(out@)
                + spec_lex_from(s@, i as int)->0,
        decreases s.len() - i,
    {
        let ghost i0 = i as int;
        let ghost pre_out = out@;
        let b = s[i];
        if is_ws_exec(b) {
            i = i + 1;
            proof {
                assert(spec_lex_from(s@, i0) == spec_lex_from(s@, i as int));
            }
        } else if b == 0x7b || b == 0x7d || b == 0x28 || b == 0x29 || b == 0x2c || b == 0x3b {
            let tok = if b == 0x7b {
                OpticToken::LBrace
            } else if b == 0x7d {
                OpticToken::RBrace
            } else if b == 0x28 {
                OpticToken::LParen
            } else if b == 0x29 {
                OpticToken::RParen
            } else if b == 0x2c {
                OpticToken::Comma
            } else {
                OpticToken::Semicolon
            };
            let ghost tm = tok_model(tok);
            out.push(tok);
            i = i + 1;
            proof {
                assert(spec_lex_from(s@, i0) == spec_lex_cons(tm, spec_lex_from(s@, i as int)));
                lemma_toks_model_push(pre_out, out@.last());
                if spec_lex_from(s@, 0) is Some {
                    assert(toks_model(out@) + spec_lex_from(s@, i as int)->0 =~= toks_model(
                        pre_out,
                    ) + (seq![tm] + spec_lex_from(s@, i as int)->0));
                }
            }
        } else if b == 0x22 {
            let mut t: Vec<u8> = Vec::new();
            i = i + 1;
            while i < s.len() && s[i] != 0x22
                invariant
                    0 <= i0 < i <= s.len(),
                    t@ =~= s@.subrange(i0 + 1, i as int),
                    spec_scan_quote(s@, i0 + 1) == spec_scan_quote(s@, i as int),
                decreases s.len() - i,
            {
                proof {
                    assert(spec_scan_quote(s@, i as int) == spec_scan_quote(s@, i + 1));
                }
                t.push(s[i]);
                proof {
                    assert(t@ =~= s@.subrange(i0 + 1, i + 1));
                }
                i = i + 1;
            }
            proof {
                assert(spec_scan_quote(s@, i as int) == i as int);
            }
            let ghost j = spec_past(spec_scan_quote(s@, i0 + 1), i0 + 1, s@.len() as int);
            if i >= s.len() {
                proof {
                    assert(j >= s@.len());
                    assert(spec_lex_from(s@, i0) is None);
                }
                return Err(OpticError::InvalidOptic);
            }
            i = i + 1;
            let ghost tm = TokModel::Text(t@);
            out.push(OpticToken::Text(t));
            proof {
                assert(j == i - 1);
                assert(tm == TokModel::Text(s@.subrange(i0 + 1, j)));
                assert(spec_lex_from(s@, i0) == spec_lex_cons(tm, spec_lex_from(s@, i as int)));
                lemma_toks_model_push(pre_out, out@.last());
                if spec_lex_from(s@, 0) is Some {
                    assert(toks_model(out@) + spec_lex_from(s@, i as int)->0 =~= toks_model(
                        pre_out,
                    ) + (seq![tm] + spec_lex_from(s@, i as int)->0));
                }
            }
        } else if 48 <= b && b <= 57 {
            let mut whole: u64 = 0;
            proof {
                lemma_scan_digits_props(s@, i0);
            }
            while i < s.len() && 48 <= s[i] && s[i] <= 57
                invariant
                    0 <= i0 <= i <= s.len(),
                    i0 < s@.len(),
                    (spec_lex_from(s@, 0) is Some) == (spec_lex_from(s@, i0) is Some),
                    48 <= s@[i0] <= 57,
                    whole <= 9999999999,
                    whole as int == spec_digits_val(s@, i0, i as int),
                    i > i0 ==> spec_digits_val(s@, i0, i - 1) < 1000000000,
                    spec_scan_digits(s@, i0) == spec_scan_digits(s@, i as int),
                decreases s.len() - i,
            {
                proof {
                    assert(spec_scan_digits(s@, i as int) == spec_scan_digits(s@, i + 1));
                }
                let digit = (s[i] - 48) as u64;
                if whole >= 1000000000 {
                    proof {
                        lemma_scan_digits_props(s@, i0);
                        lemma_scan_digits_props(s@, i + 1);
                        let j = spec_past(spec_scan_digits(s@, i0), i0 + 1, s@.len() as int);
                        assert(spec_scan_digits(s@, i + 1) >= i + 1);
                        assert(j >= i + 1);
                        lemma_digits_val_mono(s@, i0, i as int, j - 1);
                        assert(spec_digits_val(s@, i0, j - 1) >= 1000000000);
                        assert(spec_lex_from(s@, i0) is None);
                    }
                    return Err(OpticError::InvalidOptic);
                }
                whole = whole * 10 + digit;
                proof {
                    assert(spec_digits_val(s@, i0, i + 1) == spec_digits_val(s@, i0, i as int)
                        * 10 + ((s@[i as int] as int) - 48));
                }
                i = i + 1;
            }
            proof {
                assert(i > i0);
                assert(spec_scan_digits(s@, i as int) == i as int);
            }
            let ghost j = spec_past(spec_scan_digits(s@, i0), i0 + 1, s@.len() as int);
            proof {
                assert(j == i as int);
                assert(spec_digits_val(s@, i0, j - 1) < 1000000000);
            }
            let mut millis: u64 = whole * 1000;
            let ghost gwhole = whole as int;
            let ghost mut fend = j;
            if i < s.len() && s[i] == 0x2e {
                i = i + 1;
                let ghost fs = i as int;
                let mut scale: u64 = 100;
                proof {
                    lemma_scan_digits_props(s@, fs);
                    fend = spec_past(spec_scan_digits(s@, fs), fs, s@.len() as int);
                    assert(fend == spec_scan_digits(s@, fs));
                }
                while i < s.len() && 48 <= s[i] && s[i] <= 57
                    invariant
                        0 <= i0 < fs <= i <= s.len(),
                        scale == 100 || scale == 10 || scale == 1 || scale == 0,
                        spec_scan_digits(s@, fs) == spec_scan_digits(s@, i as int),
                        fend == spec_scan_digits(s@, fs),
                        gwhole == whole as int,
                        gwhole <= 9999999999,
                        millis as int + spec_frac_val(s@, i as int, fend, scale as int)
                            == gwhole * 1000 + spec_frac_val(s@, fs, fend, 100),
                        millis as int <= gwhole * 1000 + (if scale == 100 {
                            0int
                        } else if scale == 10 {
                            900int
                        } else if scale == 1 {
                            990int
                        } else {
                            999int
                        }),
                    decreases s.len() - i,
                {
                    proof {
                        assert(spec_scan_digits(s@, i as int) == spec_scan_digits(s@, i + 1));
                        lemma_scan_digits_props(s@, i + 1);
                        assert(spec_scan_digits(s@, i + 1) >= i + 1);
                        assert(fend >= i + 1);
                    }
                    let digit = (s[i] - 48) as u64;
                    proof {
                        assert(digit * scale <= 900) by (nonlinear_arith)
                            requires
                                digit <= 9,
                                scale <= 100,
                        {}
                    }
                    let add = digit * scale;
                    proof {
                        if scale == 10 {
                            assert(digit * scale <= 90) by (nonlinear_arith)
                                requires
                                    digit <= 9,
                                    scale == 10,
                            {}
                        }
                        if scale == 1 {
                            assert(digit * scale <= 9) by (nonlinear_arith)
                                requires
                                    digit <= 9,
                                    scale == 1,
                            {}
                        }
                        assert(spec_frac_val(s@, i as int, fend, scale as int) == (if scale > 0 {
                            ((s@[i as int] as int) - 48) * (scale as int)
                        } else {
                            0int
                        }) + spec_frac_val(s@, i + 1, fend, scale as int / 10));
                    }
                    if scale > 0 && millis <= u64::MAX - add {
                        millis = millis + add;
                    }
                    scale = scale / 10;
                    i = i + 1;
                }
                proof {
                    assert(spec_scan_digits(s@, i as int) == i as int);
                    assert(fend == i as int);
                    assert(spec_frac_val(s@, i as int, fend, scale as int) == 0);
                }
            }
            let ghost tm = TokModel::Number(millis);
            out.push(OpticToken::Number(millis));
            proof {
                if j < s@.len() && s@[j] == 0x2e {
                    assert(millis as int == gwhole * 1000 + spec_frac_val(
                        s@,
                        j + 1,
                        fend,
                        100,
                    ));
                } else {
                    assert(fend == j);
                    assert(millis as int == gwhole * 1000);
                }
                assert(spec_lex_from(s@, i0) == spec_lex_cons(tm, spec_lex_from(s@, i as int)));
                lemma_toks_model_push(pre_out, out@.last());
                if spec_lex_from(s@, 0) is Some {
                    assert(toks_model(out@) + spec_lex_from(s@, i as int)->0 =~= toks_model(
                        pre_out,
                    ) + (seq![tm] + spec_lex_from(s@, i as int)->0));
                }
            }
        } else if is_ident_byte(b) {
            let mut t: Vec<u8> = Vec::new();
            while i < s.len() && is_ident_byte(s[i])
                invariant
                    0 <= i0 <= i <= s.len(),
                    spec_ident_byte(s@[i0]),
                    i0 < s@.len(),
                    t@ =~= s@.subrange(i0, i as int),
                    spec_scan_ident(s@, i0) == spec_scan_ident(s@, i as int),
                decreases s.len() - i,
            {
                proof {
                    assert(spec_scan_ident(s@, i as int) == spec_scan_ident(s@, i + 1));
                }
                t.push(s[i]);
                proof {
                    assert(t@ =~= s@.subrange(i0, i + 1));
                }
                i = i + 1;
            }
            proof {
                assert(spec_scan_ident(s@, i as int) == i as int);
                assert(spec_scan_ident(s@, i0) >= i0 + 1) by {
                    assert(spec_scan_ident(s@, i0) == spec_scan_ident(s@, i0 + 1));
                    assert(spec_scan_ident(s@, i0 + 1) >= i0 + 1) by {
                        lemma_scan_ident_lower(s@, i0 + 1);
                    }
                }
                assert(i as int >= i0 + 1);
            }
            let ghost tm = TokModel::Ident(t@);
            out.push(OpticToken::Ident(t));
            proof {
                let j = spec_past(spec_scan_ident(s@, i0), i0 + 1, s@.len() as int);
                assert(j == i as int);
                assert(tm == TokModel::Ident(s@.subrange(i0, j)));
                assert(spec_lex_from(s@, i0) == spec_lex_cons(tm, spec_lex_from(s@, i as int)));
                lemma_toks_model_push(pre_out, out@.last());
                if spec_lex_from(s@, 0) is Some {
                    assert(toks_model(out@) + spec_lex_from(s@, i as int)->0 =~= toks_model(
                        pre_out,
                    ) + (seq![tm] + spec_lex_from(s@, i as int)->0));
                }
            }
        } else {
            proof {
                assert(spec_lex_from(s@, i0) is None);
            }
            return Err(OpticError::InvalidOptic);
        }
    }
    proof {
        assert(spec_lex_from(s@, i as int) == Some(Seq::<TokModel>::empty()));
        if spec_lex_from(s@, 0) is Some {
            assert(spec_lex_from(s@, 0)->0 =~= toks_model(out@));
        }
    }
    Ok(out)
}

/// An identifier scan on an in-range position moves only forward.
proof fn lemma_scan_ident_lower(s: Seq<u8>, i: int)
    requires
        0 <= i,
    ensures
        spec_scan_ident(s, i) >= i,
    decreases s.len() - i,
{
    if i < s.len() && spec_ident_byte(s[i]) {
        lemma_scan_ident_lower(s, i + 1);
    }
}

/// Whether a token is the given identifier word.
pub open spec fn spec_tok_word(t: TokModel, w: Seq<char>) -> bool {
    t is Ident && t->Ident_0 == vstd::utf8::encode_utf8(w)
}

/// The view of a rule read from text.
pub struct RuleModel {
    pub blocks: Seq<Seq<crate::optic::MatchingModel>>,
    pub action: Action,
}

/// The view of an optic read from text.
pub struct OpticModel {
    pub rankings: Seq<(Seq<u8>, i64)>,
    pub rules: Seq<RuleModel>,
    pub discard_non_matching: bool,
    pub liked: Seq<Seq<u8>>,
    pub disliked: Seq<Seq<u8>>,
    pub blocked: Seq<Seq<u8>>,
}

/// Whether a built string carries the bytes the text gave, where they
/// form valid text; the reader keeps unreadable bytes only lossily.
pub open spec fn str_fits(x: String, b: Seq<u8>) -> bool {
    vstd::utf8::valid_utf8(b) ==> vstd::utf8::encode_utf8(x@) == b
}

/// Whether each built string carries its bytes.
pub open spec fn strs_fit(xs: Seq<String>, bs: Seq<Seq<u8>>) -> bool {
    xs.len() == bs.len() && (forall|i: int| 0 <= i < xs.len() ==> str_fits(xs[i], #[trigger] bs[i]))
}

/// Whether a built matcher is the one the text gave.
pub open spec fn matching_fits(m: Matching, mm: crate::optic::MatchingModel) -> bool {
    m.location == mm.location && str_fits(m.pattern, mm.pattern)
}

/// Whether each built matcher is the one the text gave.
pub open spec fn matchings_fit(ms: Seq<Matching>, mms: Seq<crate::optic::MatchingModel>) -> bool {
    ms.len() == mms.len() && (forall|i: int|
        0 <= i < ms.len() ==> matching_fits(ms[i], #[trigger] mms[i]))
}

/// Whether a built rule is the one the text gave.
pub open spec fn rule_fits(r: Rule, rm: RuleModel) -> bool {
    &&& r.action == rm.action
    &&& r.matches@.len() == rm.blocks.len()
    &&& (forall|i: int|
        0 <= i < r.matches@.len() ==> matchings_fit((#[trigger] r.matches@[i])@, rm.blocks[i]))
}

/// Whether each built rule is the one the text gave.
pub open spec fn rules_fit(rs: Seq<Rule>, rms: Seq<RuleModel>) -> bool {
    rs.len() == rms.len() && (forall|i: int| 0 <= i < rs.len() ==> rule_fits(rs[i], #[trigger] rms[i]))
}

/// Whether each built coefficient is the one the text gave.
pub open spec fn coeffs_fit(cs: Seq<RankingCoeff>, cms: Seq<(Seq<u8>, i64)>) -> bool {
    cs.len() == cms.len() && (forall|i: int|
        0 <= i < cs.len() ==> str_fits(cs[i].target, (#[trigger] cms[i]).0) && cs[i].value
            == cms[i].1)
}

/// Whether a built optic is the one the text gave.
pub open spec fn optic_fits(o: Optic, om: OpticModel) -> bool {
    &&& rules_fit(o.rules@, om.rules)
    &&& coeffs_fit(o.rankings@, om.rankings)
    &&& o.discard_non_matching == om.discard_non_matching
    &&& strs_fit(o.host_rankings.liked@, om.liked)
    &&& strs_fit(o.host_rankings.disliked@, om.disliked)
    &&& strs_fit(o.host_rankings.blocked@, om.blocked)
}

/// The match location named by the token, if any.
pub open spec fn spec_read_location(toks: Seq<TokModel>, at: int) -> Option<MatchLocation> {
    if at < 0 || at >= toks.len() {
        None
    } else if spec_tok_word(toks[at], "Site"@) {
        Some(MatchLocation::Site)
    } else if spec_tok_word(toks[at], "Url"@) {
        Some(MatchLocation::Url)
    } else if spec_tok_word(toks[at], "Domain"@) {
        Some(MatchLocation::Domain)
    } else if spec_tok_word(toks[at], "Title"@) {
        Some(MatchLocation::Title)
    } else if spec_tok_word(toks[at], "Description"@) {
        Some(MatchLocation::Description)
    } else if spec_tok_word(toks[at], "Content"@) {
        Some(MatchLocation::Content)
    } else if spec_tok_word(toks[at], "MicroformatTag"@) {
        Some(MatchLocation::MicroformatTag)
    } else if spec_tok_word(toks[at], "Schema"@) {
        Some(MatchLocation::Schema)
    } else {
        None
    }
}

/// The matchers of a `Matches` block read from just inside its brace:
/// a comma-separated run of `Location("pattern")`, closed by the
/// brace, and the position just past it.
pub open spec fn spec_read_matchings(toks: Seq<TokModel>, at: int) -> Option<
    (Seq<crate::optic::MatchingModel>, int),
>
    decreases toks.len() - at,
{
    if at < 0 || at >= toks.len() {
        None
    } else if toks[at] is RBrace {
        Some((Seq::empty(), at + 1))
    } else if spec_read_location(toks, at) is Some {
        let loc = spec_read_location(toks, at)->0;
        if at + 3 < toks.len() && toks[at + 1] is LParen && toks[at + 2] is Text && toks[at
            + 3] is RParen {
            let m = crate::optic::MatchingModel { location: loc, pattern: toks[at + 2]->Text_0 };
            let a2 = at + 4;
            if a2 < toks.len() && toks[a2] is Comma {
                match spec_read_matchings(toks, a2 + 1) {
                    Option::None => None,
                    Option::Some(r) => Some((seq![m] + r.0, r.1)),
                }
            } else if a2 < toks.len() && toks[a2] is RBrace {
                Some((seq![m], a2 + 1))
            } else {
                None
            }
        } else {
            None
        }
    } else {
        None
    }
}

/// A read block ends past where it began, within the tokens.
proof fn lemma_read_matchings_bounds(toks: Seq<TokModel>, at: int)
    requires
        0 <= at,
    ensures
        spec_read_matchings(toks, at) is Some ==> at < (spec_read_matchings(toks, at)->0).1
            <= toks.len(),
    decreases toks.len() - at,
{
    if 0 <= at < toks.len() && !(toks[at] is RBrace) && spec_read_matchings(toks, at) is Some {
        lemma_read_matchings_bounds(toks, at + 5);
    }
}

/// One `Matches { ... }` block, from its keyword on.
pub open spec fn spec_read_matches_block(toks: Seq<TokModel>, at: int) -> Option<
    (Seq<crate::optic::MatchingModel>, int),
> {
    if 0 <= at < toks.len() && spec_tok_word(toks[at], "Matches"@) && at + 1 < toks.len()
        && toks[at + 1] is LBrace {
        spec_read_matchings(toks, at + 2)
    } else {
        None
    }
}

/// An `Action(...)` argument: what it sets and the position just past
/// its closing parenthesis.
pub open spec fn spec_read_action(toks: Seq<TokModel>, at: int) -> Option<(Action, int)> {
    if at < 0 {
        None
    } else if at < toks.len() && spec_tok_word(toks[at], "Discard"@) {
        Some((Action::Discard, at + 1))
    } else if at < toks.len() && spec_tok_word(toks[at], "Boost"@) && at + 3 < toks.len()
        && toks[at + 1] is LParen && toks[at + 2] is Number && toks[at + 3] is RParen {
        Some((Action::Boost(toks[at + 2]->Number_0), at + 4))
    } else if at < toks.len() && spec_tok_word(toks[at], "Downrank"@) && at + 3 < toks.len()
        && toks[at + 1] is LParen && toks[at + 2] is Number && toks[at + 3] is RParen {
        Some((Action::Downrank(toks[at + 2]->Number_0), at + 4))
    } else {
        None
    }
}

/// The body of a `Rule { ... }` from just inside its brace: `Matches`
/// blocks and `Action` settings in any order, each with an optional
/// trailing comma, closed by the brace. A later action replaces an
/// earlier one; a rule without one acts as a zero boost.
pub open spec fn spec_read_rule(
    toks: Seq<TokModel>,
    at: int,
    blocks: Seq<Seq<crate::optic::MatchingModel>>,
    action: Action,
) -> Option<(RuleModel, int)>
    decreases toks.len() - at,
{
    if at < 0 || at >= toks.len() {
        None
    } else if toks[at] is RBrace {
        Some((RuleModel { blocks, action }, at + 1))
    } else if spec_tok_word(toks[at], "Action"@) {
        if at + 1 < toks.len() && toks[at + 1] is LParen && spec_read_action(toks, at
            + 2) is Some {
            let r = spec_read_action(toks, at + 2)->0;
            let a1 = spec_past(r.1, at + 3, toks.len() as int);
            if a1 < toks.len() && toks[a1] is RParen {
                let a2 = if a1 + 1 < toks.len() && toks[a1 + 1] is Comma {
                    a1 + 2
                } else {
                    a1 + 1
                };
                spec_read_rule(toks, a2, blocks, r.0)
            } else {
                None
            }
        } else {
            None
        }
    } else {
        match spec_read_matches_block(toks, at) {
            Option::None => None,
            Option::Some(r) => {
                let a1 = spec_past(r.1, at + 1, toks.len() as int);
                let a2 = if a1 < toks.len() && toks[a1] is Comma {
                    a1 + 1
                } else {
                    a1
                };
                spec_read_rule(toks, a2, blocks.push(r.0), action)
            },
        }
    }
}

/// A read rule body ends past where it began, within the tokens.
proof fn lemma_read_rule_bounds(
    toks: Seq<TokModel>,
    at: int,
    blocks: Seq<Seq<crate::optic::MatchingModel>>,
    action: Action,
)
    requires
        0 <= at,
    ensures
        spec_read_rule(toks, at, blocks, action) is Some ==> at < (spec_read_rule(toks, at, blocks, action)->0).1 <= toks.len(),
    decreases toks.len() - at,
{
    if 0 <= at < toks.len() && !(toks[at] is RBrace) {
        if spec_tok_word(toks[at], "Action"@) {
            if at + 1 < toks.len() && toks[at + 1] is LParen && spec_read_action(toks, at
                + 2) is Some {
                let r = spec_read_action(toks, at + 2)->0;
                let a1 = spec_past(r.1, at + 3, toks.len() as int);
                if a1 < toks.len() && toks[a1] is RParen {
                    let a2 = if a1 + 1 < toks.len() && toks[a1 + 1] is Comma {
                        a1 + 2
                    } else {
                        a1 + 1
                    };
                    lemma_read_rule_bounds(toks, a2, blocks, r.0);
                }
            }
        } else {
            match spec_read_matches_block(toks, at) {
                Option::None => {},
                Option::Some(r) => {
                    let a1 = spec_past(r.1, at + 1, toks.len() as int);
                    let a2 = if a1 < toks.len() && toks[a1] is Comma {
                        a1 + 1
                    } else {
                        a1
                    };
                    lemma_read_rule_bounds(toks, a2, blocks.push(r.0), action);
                },
            }
        }
    }
}

/// A `Like`, `Dislike` or `Block` statement's argument:
/// `(Site("host"))`, giving the host bytes and the position just past
/// the closing parenthesis.
pub open spec fn spec_read_site_arg(toks: Seq<TokModel>, at: int) -> Option<(Seq<u8>, int)> {
    if 0 <= at && at + 4 < toks.len() && toks[at] is LParen && spec_tok_word(
        toks[at + 1],
        "Site"@,
    ) && toks[at + 2] is LParen && toks[at + 3] is Text && toks[at + 4] is RParen && at + 5
        < toks.len() && toks[at + 5] is RParen {
        Some((toks[at + 3]->Text_0, at + 6))
    } else {
        None
    }
}

/// The value a signal coefficient reads as: the whole part of its
/// thousandths, capped at the largest signed value.
pub open spec fn spec_coeff_value(n: u64) -> i64 {
    if n / 1000 > i64::MAX as u64 {
        i64::MAX
    } else {
        (n / 1000) as i64
    }
}

/// The body of a `Ranking { ... }` from just inside its brace: a run
/// of `Signal("name") value` entries, each with an optional trailing
/// comma, closed by the brace.
pub open spec fn spec_read_signals(toks: Seq<TokModel>, at: int) -> Option<
    (Seq<(Seq<u8>, i64)>, int),
>
    decreases toks.len() - at,
{
    if at < 0 || at >= toks.len() {
        None
    } else if toks[at] is RBrace {
        Some((Seq::empty(), at + 1))
    } else if spec_tok_word(toks[at], "Signal"@) && at + 4 < toks.len() && toks[at
        + 1] is LParen && toks[at + 2] is Text && toks[at + 3] is RParen && toks[at
        + 4] is Number {
        let entry = (toks[at + 2]->Text_0, spec_coeff_value(toks[at + 4]->Number_0));
        let a1 = if at + 5 < toks.len() && toks[at + 5] is Comma {
            at + 6
        } else {
            at + 5
        };
        match spec_read_signals(toks, a1) {
            Option::None => None,
            Option::Some(r) => Some((seq![entry] + r.0, r.1)),
        }
    } else {
        None
    }
}

/// A read ranking body ends past where it began, within the tokens.
proof fn lemma_read_signals_bounds(toks: Seq<TokModel>, at: int)
    requires
        0 <= at,
    ensures
        spec_read_signals(toks, at) is Some ==> at < (spec_read_signals(toks, at)->0).1
            <= toks.len(),
    decreases toks.len() - at,
{
    if 0 <= at < toks.len() && !(toks[at] is RBrace) && spec_tok_word(toks[at], "Signal"@) && at
        + 4 < toks.len() && toks[at + 1] is LParen && toks[at + 2] is Text && toks[at
        + 3] is RParen && toks[at + 4] is Number {
        let a1 = if at + 5 < toks.len() && toks[at + 5] is Comma {
            at + 6
        } else {
            at + 5
        };
        lemma_read_signals_bounds(toks, a1);
    }
}

/// The empty optic, before any statement is read.
pub open spec fn spec_empty_optic_model() -> OpticModel {
    OpticModel {
        rankings: Seq::empty(),
        rules: Seq::empty(),
        discard_non_matching: false,
        liked: Seq::empty(),
        disliked: Seq::empty(),
        blocked: Seq::empty(),
    }
}

/// One statement of an optic program, applied to what was read so
/// far: the updated program and the position just past the statement.
pub open spec fn spec_read_statement(toks: Seq<TokModel>, at: int, acc: OpticModel) -> Option<
    (OpticModel, int),
> {
    if at < 0 || at >= toks.len() {
        None
    } else if spec_tok_word(toks[at], "DiscardNonMatching"@) {
        Some((OpticModel { discard_non_matching: true, ..acc }, at + 1))
    } else if spec_tok_word(toks[at], "Rule"@) {
        if at + 1 < toks.len() && toks[at + 1] is LBrace {
            match spec_read_rule(toks, at + 2, Seq::empty(), Action::Boost(0)) {
                Option::None => None,
                Option::Some(r) => Some((OpticModel { rules: acc.rules.push(r.0), ..acc }, r.1)),
            }
        } else {
            None
        }
    } else if spec_tok_word(toks[at], "Like"@) {
        match spec_read_site_arg(toks, at + 1) {
            Option::None => None,
            Option::Some(r) => Some((OpticModel { liked: acc.liked.push(r.0), ..acc }, r.1)),
        }
    } else if spec_tok_word(toks[at], "Dislike"@) {
        match spec_read_site_arg(toks, at + 1) {
            Option::None => None,
            Option::Some(r) => Some((OpticModel { disliked: acc.disliked.push(r.0), ..acc }, r.1)),
        }
    } else if spec_tok_word(toks[at], "Block"@) {
        match spec_read_site_arg(toks, at + 1) {
            Option::None => None,
            Option::Some(r) => Some((OpticModel { blocked: acc.blocked.push(r.0), ..acc }, r.1)),
        }
    } else if spec_tok_word(toks[at], "Ranking"@) {
        if at + 1 < toks.len() && toks[at + 1] is LBrace {
            match spec_read_signals(toks, at + 2) {
                Option::None => None,
                Option::Some(r) => Some(
                    (OpticModel { rankings: acc.rankings + r.0, ..acc }, r.1),
                ),
            }
        } else {
            None
        }
    } else {
        None
    }
}

/// The program read from position `at` on: statements separated by
/// semicolons, where the semicolon after a statement may be left out
/// only at the program's end.
pub open spec fn spec_parse_optic_from(toks: Seq<TokModel>, at: int, acc: OpticModel) -> Option<
    OpticModel,
>
    decreases toks.len() - at,
{
    if at < 0 {
        None
    } else if at >= toks.len() {
        Some(acc)
    } else if toks[at] is Semicolon {
        spec_parse_optic_from(toks, at + 1, acc)
    } else {
        match spec_read_statement(toks, at, acc) {
            Option::None => None,
            Option::Some(r) => {
                let a1 = spec_past(r.1, at + 1, toks.len() as int);
                if a1 < toks.len() && toks[a1] is Semicolon {
                    spec_parse_optic_from(toks, a1 + 1, r.0)
                } else if a1 >= toks.len() {
                    Some(r.0)
                } else {
                    None
                }
            },
        }
    }
}

/// A read statement ends past where it began, within the tokens.
proof fn lemma_read_statement_bounds(toks: Seq<TokModel>, at: int, acc: OpticModel)
    requires
        0 <= at,
    ensures
        spec_read_statement(toks, at, acc) is Some ==> at < (spec_read_statement(toks, at, acc)->0).1
            <= toks.len(),
{
    if 0 <= at < toks.len() {
        if spec_tok_word(toks[at], "Rule"@) {
            if at + 1 < toks.len() && toks[at + 1] is LBrace {
                lemma_read_rule_bounds(toks, at + 2, Seq::empty(), Action::Boost(0));
            }
        } else if spec_tok_word(toks[at], "Ranking"@) {
            if at + 1 < toks.len() && toks[at + 1] is LBrace {
                lemma_read_signals_bounds(toks, at + 2);
            }
        }
    }
}

/// What the whole program text reads as: none where the lexer or the
/// statement grammar refuses it.
pub open spec fn spec_parse_optic(s: Seq<u8>) -> Option<OpticModel> {
    match spec_lex_from(s, 0) {
        Option::None => None,
        Option::Some(toks) => spec_parse_optic_from(toks, 0, spec_empty_optic_model()),
    }
}

/// Whether an identifier token reads as the given ASCII word.
fn ident_is(t: &OpticToken, word: &str) -> (r: bool)
    ensures
        r == spec_tok_word(tok_model(*t), word@),
{
    match t {
        OpticToken::Ident(v) => crate::tokenize::bytes_eq(v.as_slice(), word.as_bytes()),
        _ => false,
    }
}

/// A cursor over the token stream.
struct Cursor {
    toks: Vec<OpticToken>,
    at: usize,
}

impl Cursor {
    spec fn inv(self) -> bool {
        self.at <= self.toks@.len()
    }

    fn done(&self) -> (r: bool)
        requires
            self.inv(),
        ensures
            r == (self.at == self.toks@.len()),
    {
        self.at == self.toks.len()
    }

    /// Reads one expected punctuation token.
    fn eat_lbrace(&mut self) -> (r: Result<(), OpticError>)
        requires
            old(self).inv(),
        ensures
            final(self).inv(),
            final(self).toks == old(self).toks,
            r is Ok ==> final(self).at == old(self).at + 1,
            r is Err ==> final(self).at == old(self).at,
            (r is Ok) == (old(self).at < old(self).toks@.len() && toks_model(old(self).toks@)[
                old(self).at as int
            ] is LBrace),
    {
        proof {
            if self.at < self.toks@.len() {
                assert(toks_model(self.toks@)[self.at as int] == tok_model(
                    self.toks@[self.at as int],
                ));
            }
        }
        if self.at < self.toks.len() && matches!(self.toks[self.at], OpticToken::LBrace) {
            self.at = self.at + 1;
            Ok(())
        } else {
            Err(OpticError::InvalidOptic)
        }
    }

    fn eat_rbrace(&mut self) -> (r: Result<(), OpticError>)
        requires
            old(self).inv(),
        ensures
            final(self).inv(),
            final(self).toks == old(self).toks,
            r is Ok ==> final(self).at == old(self).at + 1,
            r is Err ==> final(self).at == old(self).at,
            (r is Ok) == (old(self).at < old(self).toks@.len() && toks_model(old(self).toks@)[
                old(self).at as int
            ] is RBrace),
    {
        proof {
            if self.at < self.toks@.len() {
                assert(toks_model(self.toks@)[self.at as int] == tok_model(
                    self.toks@[self.at as int],
                ));
            }
        }
        if self.at < self.toks.len() && matches!(self.toks[self.at], OpticToken::RBrace) {
            self.at = self.at + 1;
            Ok(())
        } else {
            Err(OpticError::InvalidOptic)
        }
    }

    fn eat_lparen(&mut self) -> (r: Result<(), OpticError>)
        requires
            old(self).inv(),
        ensures
            final(self).inv(),
            final(self).toks == old(self).toks,
            r is Ok ==> final(self).at == old(self).at + 1,
            r is Err ==> final(self).at == old(self).at,
            (r is Ok) == (old(self).at < old(self).toks@.len() && toks_model(old(self).toks@)[
                old(self).at as int
            ] is LParen),
    {
        proof {
            if self.at < self.toks@.len() {
                assert(toks_model(self.toks@)[self.at as int] == tok_model(
                    self.toks@[self.at as int],
                ));
            }
        }
        if self.at < self.toks.len() && matches!(self.toks[self.at], OpticToken::LParen) {
            self.at = self.at + 1;
            Ok(())
        } else {
            Err(OpticError::InvalidOptic)
        }
    }

    fn eat_rparen(&mut self) -> (r: Result<(), OpticError>)
        requires
            old(self).inv(),
        ensures
            final(self).inv(),
            final(self).toks == old(self).toks,
            r is Ok ==> final(self).at == old(self).at + 1,
            r is Err ==> final(self).at == old(self).at,
            (r is Ok) == (old(self).at < old(self).toks@.len() && toks_model(old(self).toks@)[
                old(self).at as int
            ] is RParen),
    {
        proof {
            if self.at < self.toks@.len() {
                assert(toks_model(self.toks@)[self.at as int] == tok_model(
                    self.toks@[self.at as int],
                ));
            }
        }
        if self.at < self.toks.len() && matches!(self.toks[self.at], OpticToken::RParen) {
            self.at = self.at + 1;
            Ok(())
        } else {
            Err(OpticError::InvalidOptic)
        }
    }

    /// Reads a quoted text token.
    fn eat_text(&mut self) -> (r: Result<String, OpticError>)
        requires
            old(self).inv(),
        ensures
            final(self).inv(),
            final(self).toks == old(self).toks,
            r is Ok ==> final(self).at == old(self).at + 1,
            r is Err ==> final(self).at == old(self).at,
            (r is Ok) == (old(self).at < old(self).toks@.len() && toks_model(old(self).toks@)[
                old(self).at as int
            ] is Text),
            r is Ok ==> str_fits(
                r->Ok_0,
                toks_model(old(self).toks@)[old(self).at as int]->Text_0,
            ),
    {
        proof {
            if self.at < self.toks@.len() {
                assert(toks_model(self.toks@)[self.at as int] == tok_model(
                    self.toks@[self.at as int],
                ));
            }
        }
        if self.at < self.toks.len() {
            let is_text = matches!(self.toks[self.at], OpticToken::Text(_));
            if is_text {
                let v = match &self.toks[self.at] {
                    OpticToken::Text(v) => crate::query::bytes_to_string(v),
                    _ => String::new(),
                };
                self.at = self.at + 1;
                return Ok(v);
            }
        }
        Err(OpticError::InvalidOptic)
    }

    /// Reads a number token, in thousandths.
    fn eat_number(&mut self) -> (r: Result<u64, OpticError>)
        requires
            old(self).inv(),
        ensures
            final(self).inv(),
            final(self).toks == old(self).toks,
            r is Ok ==> final(self).at == old(self).at + 1,
            r is Err ==> final(self).at == old(self).at,
            (r is Ok) == (old(self).at < old(self).toks@.len() && toks_model(old(self).toks@)[
                old(self).at as int
            ] is Number),
            r is Ok ==> r->Ok_0 == toks_model(old(self).toks@)[old(self).at as int]->Number_0,
    {
        proof {
            if self.at < self.toks@.len() {
                assert(toks_model(self.toks@)[self.at as int] == tok_model(
                    self.toks@[self.at as int],
                ));
            }
        }
        if self.at < self.toks.len() {
            let n = match &self.toks[self.at] {
                OpticToken::Number(n) => Some(*n),
                _ => None,
            };
            match n {
                Some(n) => {
                    self.at = self.at + 1;
                    return Ok(n);
                },
                None => {},
            }
        }
        Err(OpticError::InvalidOptic)
    }

    /// Whether the next token is the given word; reads it when so.
    fn eat_word(&mut self, w: &str) -> (r: bool)
        requires
            old(self).inv(),
        ensures
            final(self).inv(),
            final(self).toks == old(self).toks,
            r ==> final(self).at == old(self).at + 1,
            !r ==> final(self).at == old(self).at,
            r == (old(self).at < old(self).toks@.len() && spec_tok_word(
                toks_model(old(self).toks@)[old(self).at as int],
                w@,
            )),
    {
        proof {
            if self.at < self.toks@.len() {
                assert(toks_model(self.toks@)[self.at as int] == tok_model(
                    self.toks@[self.at as int],
                ));
            }
        }
        if self.at < self.toks.len() && ident_is(&self.toks[self.at], w) {
            self.at = self.at + 1;
            true
        } else {
            false
        }
    }

    /// Whether the next token is a comma; reads it when so.
    fn eat_comma(&mut self) -> (r: bool)
        requires
            old(self).inv(),
        ensures
            final(self).inv(),
            final(self).toks == old(self).toks,
            r ==> final(self).at == old(self).at + 1,
            !r ==> final(self).at == old(self).at,
            r == (old(self).at < old(self).toks@.len() && toks_model(old(self).toks@)[
                old(self).at as int
            ] is Comma),
    {
        proof {
            if self.at < self.toks@.len() {
                assert(toks_model(self.toks@)[self.at as int] == tok_model(
                    self.toks@[self.at as int],
                ));
            }
        }
        if self.at < self.toks.len() && matches!(self.toks[self.at], OpticToken::Comma) {
            self.at = self.at + 1;
            true
        } else {
            false
        }
    }

    /// Whether the next token is a semicolon; reads it when so.
    fn eat_semicolon(&mut self) -> (r: bool)
        requires
            old(self).inv(),
        ensures
            final(self).inv(),
            final(self).toks == old(self).toks,
            r ==> final(self).at == old(self).at + 1,
            !r ==> final(self).at == old(self).at,
            r == (old(self).at < old(self).toks@.len() && toks_model(old(self).toks@)[
                old(self).at as int
            ] is Semicolon),
    {
        proof {
            if self.at < self.toks@.len() {
                assert(toks_model(self.toks@)[self.at as int] == tok_model(
                    self.toks@[self.at as int],
                ));
            }
        }
        if self.at < self.toks.len() && matches!(self.toks[self.at], OpticToken::Semicolon) {
            self.at = self.at + 1;
            true
        } else {
            false
        }
    }
}

/// Reads a match location name.
fn read_location(c: &mut Cursor) -> (r: Result<MatchLocation, OpticError>)
    requires
        old(c).inv(),
    ensures
        final(c).inv(),
        final(c).toks == old(c).toks,
        r is Ok ==> final(c).at == old(c).at + 1,
        r is Err ==> final(c).at == old(c).at,
        (r is Ok) == (spec_read_location(toks_model(old(c).toks@), old(c).at as int) is Some),
        r is Ok ==> r->Ok_0 == spec_read_location(toks_model(old(c).toks@), old(c).at as int)->0,
{
    if c.eat_word("Site") {
        Ok(MatchLocation::Site)
    } else if c.eat_word("Url") {
        Ok(MatchLocation::Url)
    } else if c.eat_word("Domain") {
        Ok(MatchLocation::Domain)
    } else if c.eat_word("Title") {
        Ok(MatchLocation::Title)
    } else if c.eat_word("Description") {
        Ok(MatchLocation::Description)
    } else if c.eat_word("Content") {
        Ok(MatchLocation::Content)
    } else if c.eat_word("MicroformatTag") {
        Ok(MatchLocation::MicroformatTag)
    } else if c.eat_word("Schema") {
        Ok(MatchLocation::Schema)
    } else {
        Err(OpticError::InvalidOptic)
    }
}

/// Reads one `Matches { ... }` block: a comma-separated run of
/// `Location("pattern")` matchers, exactly as `spec_read_matches_block`
/// reads the tokens.
fn read_matches_block(c: &mut Cursor) -> (r: Result<Vec<Matching>, OpticError>)
    requires
        old(c).inv(),
    ensures
        final(c).inv(),
        final(c).toks == old(c).toks,
        r is Ok ==> final(c).at > old(c).at,
        r is Err ==> final(c).at >= old(c).at,
        (r is Ok) == (spec_read_matches_block(toks_model(old(c).toks@), old(c).at as int) is Some),
        r is Ok ==> matchings_fit(
            r->Ok_0@,
            (spec_read_matches_block(toks_model(old(c).toks@), old(c).at as int)->0).0,
        ) && final(c).at == (spec_read_matches_block(toks_model(old(c).toks@), old(c).at as int)->0).1,
{
    let ghost gtm = toks_model(old(c).toks@);
    let ghost a0 = old(c).at as int;
    if !c.eat_word("Matches") {
        return Err(OpticError::InvalidOptic);
    }
    match c.eat_lbrace() {
        Ok(()) => {},
        Err(e) => {
            return Err(e);
        },
    }
    let ghost start = a0 + 2;
    proof {
        assert(spec_read_matches_block(gtm, a0) == spec_read_matchings(gtm, start));
    }
    let mut ms: Vec<Matching> = Vec::new();
    let ghost mut done: Seq<crate::optic::MatchingModel> = Seq::empty();
    loop
        invariant
            c.inv(),
            c.toks == old(c).toks,
            c.at > old(c).at,
            gtm == toks_model(c.toks@),
            a0 == old(c).at as int,
            spec_read_matches_block(gtm, a0) == spec_read_matchings(gtm, start),
            (spec_read_matchings(gtm, start) is Some) == (spec_read_matchings(
                gtm,
                c.at as int,
            ) is Some),
            spec_read_matchings(gtm, start) is Some ==> (spec_read_matchings(gtm, start)->0).0
                == done + (spec_read_matchings(gtm, c.at as int)->0).0 && (spec_read_matchings(
                gtm,
                start,
            )->0).1 == (spec_read_matchings(gtm, c.at as int)->0).1,
            ms@.len() == done.len(),
            matchings_fit(ms@, done),
        decreases c.toks@.len() - c.at,
    {
        let ghost at0 = c.at as int;
        match c.eat_rbrace() {
            Ok(()) => {
                proof {
                    assert(spec_read_matchings(gtm, at0) == Some((
                        Seq::<crate::optic::MatchingModel>::empty(),
                        at0 + 1,
                    )));
                    if spec_read_matchings(gtm, start) is Some {
                        assert((spec_read_matchings(gtm, start)->0).0 =~= done);
                    }
                }
                return Ok(ms);
            },
            Err(_) => {},
        }
        let loc = match read_location(c) {
            Ok(l) => l,
            Err(e) => {
                proof {
                    assert(spec_read_matchings(gtm, at0) is None);
                }
                return Err(e);
            },
        };
        match c.eat_lparen() {
            Ok(()) => {},
            Err(e) => {
                proof {
                    assert(spec_read_matchings(gtm, at0) is None);
                }
                return Err(e);
            },
        }
        let pat = match c.eat_text() {
            Ok(p) => p,
            Err(e) => {
                proof {
                    assert(spec_read_matchings(gtm, at0) is None);
                }
                return Err(e);
            },
        };
        match c.eat_rparen() {
            Ok(()) => {},
            Err(e) => {
                proof {
                    assert(spec_read_matchings(gtm, at0) is None);
                }
                return Err(e);
            },
        }
        let ghost mm = crate::optic::MatchingModel {
            location: loc,
            pattern: gtm[at0 + 2]->Text_0,
        };
        ms.push(Matching { location: loc, pattern: pat });
        proof {
            assert(matching_fits(ms@.last(), mm));
            done = done.push(mm);
            assert(matchings_fit(ms@, done));
        }
        if !c.eat_comma() {
            match c.eat_rbrace() {
                Ok(()) => {
                    proof {
                        assert(spec_read_matchings(gtm, at0) == Some((seq![mm], at0 + 5)));
                        if spec_read_matchings(gtm, start) is Some {
                            assert((spec_read_matchings(gtm, start)->0).0 =~= done);
                        }
                    }
                    return Ok(ms);
                },
                Err(e) => {
                    proof {
                        assert(spec_read_matchings(gtm, at0) is None);
                    }
                    return Err(e);
                },
            }
        }
        proof {
            assert(spec_read_matchings(gtm, at0) is Some ==> spec_read_matchings(gtm, at0)
                == spec_lex_join(mm, spec_read_matchings(gtm, at0 + 5)));
            assert((spec_read_matchings(gtm, at0) is Some) == (spec_read_matchings(
                gtm,
                at0 + 5,
            ) is Some));
            if spec_read_matchings(gtm, start) is Some {
                assert((spec_read_matchings(gtm, start)->0).0 =~= done + (spec_read_matchings(
                    gtm,
                    c.at as int,
                )->0).0);
            }
        }
    }
}

/// Prefixes a matcher onto a block result.
pub open spec fn spec_lex_join(
    m: crate::optic::MatchingModel,
    rest: Option<(Seq<crate::optic::MatchingModel>, int)>,
) -> Option<(Seq<crate::optic::MatchingModel>, int)> {
    match rest {
        Option::None => None,
        Option::Some(r) => Some((seq![m] + r.0, r.1)),
    }
}

/// Reads a `Rule { ... }` statement: one or more `Matches` blocks and
/// an optional `Action(...)`, exactly as `spec_read_rule` reads the
/// tokens past the brace; a missing action reads as `Boost(0)`.
fn read_rule(c: &mut Cursor) -> (r: Result<Rule, OpticError>)
    requires
        old(c).inv(),
    ensures
        final(c).inv(),
        final(c).toks == old(c).toks,
        final(c).at >= old(c).at,
        (r is Ok) == (old(c).at < old(c).toks@.len() && toks_model(old(c).toks@)[
            old(c).at as int
        ] is LBrace && spec_read_rule(
            toks_model(old(c).toks@),
            old(c).at + 1,
            Seq::empty(),
            Action::Boost(0),
        ) is Some),
        r is Ok ==> rule_fits(
            r->Ok_0,
            (spec_read_rule(
                toks_model(old(c).toks@),
                old(c).at + 1,
                Seq::empty(),
                Action::Boost(0),
            )->0).0,
        ) && final(c).at == (spec_read_rule(
            toks_model(old(c).toks@),
            old(c).at + 1,
            Seq::empty(),
            Action::Boost(0),
        )->0).1,
{
    let ghost gtm = toks_model(old(c).toks@);
    let ghost start = old(c).at + 1;
    match c.eat_lbrace() {
        Ok(()) => {},
        Err(e) => {
            return Err(e);
        },
    }
    let mut blocks: Vec<Vec<Matching>> = Vec::new();
    let mut action = Action::Boost(0);
    let ghost mut gblocks: Seq<Seq<crate::optic::MatchingModel>> = Seq::empty();
    loop
        invariant
            c.inv(),
            c.toks == old(c).toks,
            c.at > old(c).at,
            gtm == toks_model(c.toks@),
            start == old(c).at + 1,
            old(c).at < old(c).toks@.len(),
            gtm[old(c).at as int] is LBrace,
            spec_read_rule(gtm, start, Seq::empty(), Action::Boost(0)) == spec_read_rule(
                gtm,
                c.at as int,
                gblocks,
                action,
            ),
            blocks@.len() == gblocks.len(),
            forall|i: int|
                0 <= i < blocks@.len() ==> matchings_fit((#[trigger] blocks@[i])@, gblocks[i]),
        decreases c.toks@.len() - c.at,
    {
        let ghost at0 = c.at as int;
        match c.eat_rbrace() {
            Ok(()) => {
                proof {
                    assert(spec_read_rule(gtm, at0, gblocks, action) == Some((
                        RuleModel { blocks: gblocks, action },
                        at0 + 1,
                    )));
                }
                return Ok(Rule { matches: blocks, action });
            },
            Err(_) => {},
        }
        if c.eat_word("Action") {
            match c.eat_lparen() {
                Ok(()) => {},
                Err(e) => {
                    proof {
                        assert(spec_read_rule(gtm, at0, gblocks, action) is None);
                    }
                    return Err(e);
                },
            }
            if c.eat_word("Discard") {
                action = Action::Discard;
            } else if c.eat_word("Boost") {
                match c.eat_lparen() {
                    Ok(()) => {},
                    Err(e) => {
                        proof {
                            assert(spec_read_action(gtm, at0 + 2) is None);
                            assert(spec_read_rule(gtm, at0, gblocks, action) is None);
                        }
                        return Err(e);
                    },
                }
                let n = match c.eat_number() {
                    Ok(n) => n,
                    Err(e) => {
                        proof {
                            assert(spec_read_action(gtm, at0 + 2) is None);
                            assert(spec_read_rule(gtm, at0, gblocks, action) is None);
                        }
                        return Err(e);
                    },
                };
                match c.eat_rparen() {
                    Ok(()) => {},
                    Err(e) => {
                        proof {
                            assert(spec_read_action(gtm, at0 + 2) is None);
                            assert(spec_read_rule(gtm, at0, gblocks, action) is None);
                        }
                        return Err(e);
                    },
                }
                action = Action::Boost(n);
            } else if c.eat_word("Downrank") {
                match c.eat_lparen() {
                    Ok(()) => {},
                    Err(e) => {
                        proof {
                            assert(spec_read_action(gtm, at0 + 2) is None);
                            assert(spec_read_rule(gtm, at0, gblocks, action) is None);
                        }
                        return Err(e);
                    },
                }
                let n = match c.eat_number() {
                    Ok(n) => n,
                    Err(e) => {
                        proof {
                            assert(spec_read_action(gtm, at0 + 2) is None);
                            assert(spec_read_rule(gtm, at0, gblocks, action) is None);
                        }
                        return Err(e);
                    },
                };
                match c.eat_rparen() {
                    Ok(()) => {},
                    Err(e) => {
                        proof {
                            assert(spec_read_action(gtm, at0 + 2) is None);
                            assert(spec_read_rule(gtm, at0, gblocks, action) is None);
                        }
                        return Err(e);
                    },
                }
                action = Action::Downrank(n);
            } else {
                proof {
                    assert(spec_read_action(gtm, at0 + 2) is None);
                    assert(spec_read_rule(gtm, at0, gblocks, action) is None);
                }
                return Err(OpticError::InvalidOptic);
            }
            let ghost ra = spec_read_action(gtm, at0 + 2)->0;
            proof {
                assert(spec_read_action(gtm, at0 + 2) is Some);
                assert(ra.0 == action);
                assert(ra.1 == c.at as int);
                assert(spec_past(ra.1, at0 + 3, gtm.len() as int) == ra.1);
            }
            match c.eat_rparen() {
                Ok(()) => {},
                Err(e) => {
                    proof {
                        assert(spec_read_rule(gtm, at0, gblocks, action) is None);
                    }
                    return Err(e);
                },
            }
            let _ = c.eat_comma();
            proof {
                assert(spec_read_rule(gtm, at0, gblocks, action) == spec_read_rule(
                    gtm,
                    c.at as int,
                    gblocks,
                    action,
                ));
            }
        } else {
            let block = match read_matches_block(c) {
                Ok(b) => b,
                Err(e) => {
                    proof {
                        assert(spec_read_matches_block(gtm, at0) is None);
                        assert(spec_read_rule(gtm, at0, gblocks, action) is None);
                    }
                    return Err(e);
                },
            };
            let ghost rb = spec_read_matches_block(gtm, at0)->0;
            proof {
                lemma_read_matchings_bounds(gtm, at0 + 2);
                assert(rb.1 == c.at as int);
                assert(spec_past(rb.1, at0 + 1, gtm.len() as int) == rb.1);
            }
            let ghost pre_blocks = blocks@;
            let ghost pre_g = gblocks;
            blocks.push(block);
            let _ = c.eat_comma();
            proof {
                assert(spec_read_rule(gtm, at0, pre_g, action) == spec_read_rule(
                    gtm,
                    c.at as int,
                    pre_g.push(rb.0),
                    action,
                ));
                gblocks = pre_g.push(rb.0);
                assert(forall|i: int|
                    0 <= i < pre_blocks.len() ==> blocks@[i] == #[trigger] pre_blocks[i]);
                assert(matchings_fit(blocks@[blocks@.len() - 1]@, rb.0));
            }
        }
    }
}

/// Reads a `Like`, `Dislike` or `Block` host statement's argument,
/// exactly as `spec_read_site_arg` reads the tokens.
fn read_site_arg(c: &mut Cursor) -> (r: Result<String, OpticError>)
    requires
        old(c).inv(),
    ensures
        final(c).inv(),
        final(c).toks == old(c).toks,
        final(c).at >= old(c).at,
        (r is Ok) == (spec_read_site_arg(toks_model(old(c).toks@), old(c).at as int) is Some),
        r is Ok ==> str_fits(
            r->Ok_0,
            (spec_read_site_arg(toks_model(old(c).toks@), old(c).at as int)->0).0,
        ) && final(c).at == (spec_read_site_arg(toks_model(old(c).toks@), old(c).at as int)->0).1,
{
    match c.eat_lparen() {
        Ok(()) => {},
        Err(e) => {
            return Err(e);
        },
    }
    if !c.eat_word("Site") {
        return Err(OpticError::InvalidOptic);
    }
    match c.eat_lparen() {
        Ok(()) => {},
        Err(e) => {
            return Err(e);
        },
    }
    let host = match c.eat_text() {
        Ok(h) => h,
        Err(e) => {
            return Err(e);
        },
    };
    match c.eat_rparen() {
        Ok(()) => {},
        Err(e) => {
            return Err(e);
        },
    }
    match c.eat_rparen() {
        Ok(()) => {},
        Err(e) => {
            return Err(e);
        },
    }
    Ok(host)
}

/// Prefixes a signal entry onto a ranking result.
pub open spec fn spec_sig_join(
    e: (Seq<u8>, i64),
    rest: Option<(Seq<(Seq<u8>, i64)>, int)>,
) -> Option<(Seq<(Seq<u8>, i64)>, int)> {
    match rest {
        Option::None => None,
        Option::Some(r) => Some((seq![e] + r.0, r.1)),
    }
}

/// Reads a `Ranking { Signal("name") number ... }` statement's body,
/// exactly as `spec_read_signals` reads the tokens past the brace;
/// the entries join the list in order.
fn read_ranking(c: &mut Cursor, rankings: &mut Vec<RankingCoeff>) -> (r: Result<(), OpticError>)
    requires
        old(c).inv(),
    ensures
        final(c).inv(),
        final(c).toks == old(c).toks,
        final(c).at >= old(c).at,
        (r is Ok) == (old(c).at < old(c).toks@.len() && toks_model(old(c).toks@)[
            old(c).at as int
        ] is LBrace && spec_read_signals(toks_model(old(c).toks@), old(c).at + 1) is Some),
        r is Ok ==> final(rankings)@.len() == old(rankings)@.len() + (spec_read_signals(
            toks_model(old(c).toks@),
            old(c).at + 1,
        )->0).0.len(),
        r is Ok ==> (forall|i: int|
            0 <= i < old(rankings)@.len() ==> final(rankings)@[i] == old(rankings)@[i]),
        r is Ok ==> coeffs_fit(
            final(rankings)@.skip(old(rankings)@.len() as int),
            (spec_read_signals(toks_model(old(c).toks@), old(c).at + 1)->0).0,
        ),
        r is Ok ==> final(c).at == (spec_read_signals(
            toks_model(old(c).toks@),
            old(c).at + 1,
        )->0).1,
{
    let ghost gtm = toks_model(old(c).toks@);
    let ghost start = old(c).at + 1;
    match c.eat_lbrace() {
        Ok(()) => {},
        Err(e) => {
            return Err(e);
        },
    }
    let ghost base = rankings@;
    let ghost mut done: Seq<(Seq<u8>, i64)> = Seq::empty();
    proof {
        assert(rankings@.skip(base.len() as int) =~= Seq::<RankingCoeff>::empty());
    }
    loop
        invariant
            c.inv(),
            c.toks == old(c).toks,
            c.at > old(c).at,
            gtm == toks_model(c.toks@),
            start == old(c).at + 1,
            old(c).at < old(c).toks@.len(),
            gtm[old(c).at as int] is LBrace,
            base == old(rankings)@,
            rankings@.len() == base.len() + done.len(),
            forall|i: int| 0 <= i < base.len() ==> rankings@[i] == base[i],
            coeffs_fit(rankings@.skip(base.len() as int), done),
            (spec_read_signals(gtm, start) is Some) == (spec_read_signals(
                gtm,
                c.at as int,
            ) is Some),
            spec_read_signals(gtm, start) is Some ==> (spec_read_signals(gtm, start)->0).0 == done
                + (spec_read_signals(gtm, c.at as int)->0).0 && (spec_read_signals(
                gtm,
                start,
            )->0).1 == (spec_read_signals(gtm, c.at as int)->0).1,
        decreases c.toks@.len() - c.at,
    {
        let ghost at0 = c.at as int;
        match c.eat_rbrace() {
            Ok(()) => {
                proof {
                    assert(spec_read_signals(gtm, at0) == Some((
                        Seq::<(Seq<u8>, i64)>::empty(),
                        at0 + 1,
                    )));
                    if spec_read_signals(gtm, start) is Some {
                        assert((spec_read_signals(gtm, start)->0).0 =~= done);
                    }
                }
                return Ok(());
            },
            Err(_) => {},
        }
        if !c.eat_word("Signal") {
            proof {
                assert(spec_read_signals(gtm, at0) is None);
            }
            return Err(OpticError::InvalidOptic);
        }
        match c.eat_lparen() {
            Ok(()) => {},
            Err(e) => {
                proof {
                    assert(spec_read_signals(gtm, at0) is None);
                }
                return Err(e);
            },
        }
        let name = match c.eat_text() {
            Ok(n) => n,
            Err(e) => {
                proof {
                    assert(spec_read_signals(gtm, at0) is None);
                }
                return Err(e);
            },
        };
        match c.eat_rparen() {
            Ok(()) => {},
            Err(e) => {
                proof {
                    assert(spec_read_signals(gtm, at0) is None);
                }
                return Err(e);
            },
        }
        let n = match c.eat_number() {
            Ok(n) => n,
            Err(e) => {
                proof {
                    assert(spec_read_signals(gtm, at0) is None);
                }
                return Err(e);
            },
        };
        let value: i64 = if n / 1000 > i64::MAX as u64 {
            i64::MAX
        } else {
            (n / 1000) as i64
        };
        let ghost entry = (gtm[at0 + 2]->Text_0, spec_coeff_value(n));
        let ghost pre = rankings@;
        rankings.push(RankingCoeff { target: name, value });
        let _ = c.eat_comma();
        proof {
            assert(value == spec_coeff_value(n));
            done = done.push(entry);
            assert(rankings@.skip(base.len() as int) =~= pre.skip(base.len() as int).push(
                rankings@.last(),
            ));
            assert(coeffs_fit(rankings@.skip(base.len() as int), done));
            assert(spec_read_signals(gtm, at0) is Some ==> spec_read_signals(gtm, at0)
                == spec_sig_join(entry, spec_read_signals(gtm, c.at as int)));
            assert((spec_read_signals(gtm, at0) is Some) == (spec_read_signals(
                gtm,
                c.at as int,
            ) is Some));
            if spec_read_signals(gtm, start) is Some {
                assert((spec_read_signals(gtm, start)->0).0 =~= done + (spec_read_signals(
                    gtm,
                    c.at as int,
                )->0).0);
            }
        }
    }
}

impl Optic {
    /// Reads an optic program from its textual form, exactly as
    /// `spec_parse_optic` reads the bytes: the returned optic carries
    /// the statements the text names, and a program outside the
    /// grammar is refused whole, so the underlying query is then not
    /// run.
    #[verifier::rlimit(100)]
    pub fn parse(s: &str) -> (r: Result<Optic, OpticError>)
        ensures
            (r is Ok) == (spec_parse_optic(vstd::utf8::encode_utf8(s@)) is Some),
            r is Ok ==> optic_fits(r->Ok_0, spec_parse_optic(vstd::utf8::encode_utf8(s@))->0),
    {
        let ghost bytes = vstd::utf8::encode_utf8(s@);
        let toks = match lex_optic(s.as_bytes()) {
            Ok(t) => t,
            Err(e) => {
                proof {
                    assert(spec_lex_from(bytes, 0) is None);
                }
                return Err(e);
            },
        };
        let ghost gtm = toks_model(toks@);
        proof {
            assert(spec_parse_optic(bytes) == spec_parse_optic_from(
                gtm,
                0,
                spec_empty_optic_model(),
            ));
        }
        let mut c = Cursor { toks, at: 0 };
        let mut rules: Vec<Rule> = Vec::new();
        let mut rankings: Vec<RankingCoeff> = Vec::new();
        let mut discard_non_matching = false;
        let mut liked: Vec<String> = Vec::new();
        let mut disliked: Vec<String> = Vec::new();
        let mut blocked: Vec<String> = Vec::new();
        let ghost mut gacc = spec_empty_optic_model();
        loop
            invariant
                c.inv(),
                gtm == toks_model(c.toks@),
                bytes == vstd::utf8::encode_utf8(s@),
                spec_parse_optic(bytes) == spec_parse_optic_from(gtm, c.at as int, gacc),
                rules_fit(rules@, gacc.rules),
                coeffs_fit(rankings@, gacc.rankings),
                discard_non_matching == gacc.discard_non_matching,
                strs_fit(liked@, gacc.liked),
                strs_fit(disliked@, gacc.disliked),
                strs_fit(blocked@, gacc.blocked),
            decreases c.toks@.len() - c.at,
        {
            let ghost at0 = c.at as int;
            let ghost pre_acc = gacc;
            if c.done() {
                proof {
                    assert(spec_parse_optic_from(gtm, at0, gacc) == Some(gacc));
                }
                return Ok(
                    Optic {
                        rankings,
                        rules,
                        discard_non_matching,
                        host_rankings: HostRankings { liked, disliked, blocked },
                    },
                );
            }
            if c.eat_semicolon() {
                proof {
                    assert(spec_parse_optic_from(gtm, at0, gacc) == spec_parse_optic_from(
                        gtm,
                        at0 + 1,
                        gacc,
                    ));
                }
                continue ;
            }
            if c.eat_word("DiscardNonMatching") {
                discard_non_matching = true;
                proof {
                    gacc = OpticModel { discard_non_matching: true, ..pre_acc };
                    assert(spec_read_statement(gtm, at0, pre_acc) == Some((gacc, at0 + 1)));
                }
            } else if c.eat_word("Rule") {
                let rule = match read_rule(&mut c) {
                    Ok(rl) => rl,
                    Err(e) => {
                        proof {
                            assert(spec_read_statement(gtm, at0, pre_acc) is None);
                            assert(spec_parse_optic_from(gtm, at0, pre_acc) is None);
                        }
                        return Err(e);
                    },
                };
                let ghost rm = (spec_read_rule(
                    gtm,
                    at0 + 2,
                    Seq::empty(),
                    Action::Boost(0),
                )->0).0;
                let ghost pre_rules = rules@;
                rules.push(rule);
                proof {
                    gacc = OpticModel { rules: pre_acc.rules.push(rm), ..pre_acc };
                    assert(spec_read_statement(gtm, at0, pre_acc) == Some((
                        gacc,
                        (spec_read_rule(gtm, at0 + 2, Seq::empty(), Action::Boost(0))->0).1,
                    )));
                    assert(forall|i: int|
                        0 <= i < pre_rules.len() ==> rules@[i] == #[trigger] pre_rules[i]);
                    assert(rule_fits(rules@[rules@.len() - 1], rm));
                    assert(rules_fit(rules@, gacc.rules));
                }
            } else if c.eat_word("Like") {
                let host = match read_site_arg(&mut c) {
                    Ok(h) => h,
                    Err(e) => {
                        proof {
                            assert(spec_read_statement(gtm, at0, pre_acc) is None);
                            assert(spec_parse_optic_from(gtm, at0, pre_acc) is None);
                        }
                        return Err(e);
                    },
                };
                let ghost hb = (spec_read_site_arg(gtm, at0 + 1)->0).0;
                let ghost pre_hosts = liked@;
                liked.push(host);
                proof {
                    gacc = OpticModel { liked: pre_acc.liked.push(hb), ..pre_acc };
                    assert(spec_read_statement(gtm, at0, pre_acc) == Some((
                        gacc,
                        (spec_read_site_arg(gtm, at0 + 1)->0).1,
                    )));
                    assert(forall|i: int|
                        0 <= i < pre_hosts.len() ==> liked@[i] == #[trigger] pre_hosts[i]);
                    assert(strs_fit(liked@, gacc.liked));
                }
            } else if c.eat_word("Dislike") {
                let host = match read_site_arg(&mut c) {
                    Ok(h) => h,
                    Err(e) => {
                        proof {
                            assert(spec_read_statement(gtm, at0, pre_acc) is None);
                            assert(spec_parse_optic_from(gtm, at0, pre_acc) is None);
                        }
                        return Err(e);
                    },
                };
                let ghost hb = (spec_read_site_arg(gtm, at0 + 1)->0).0;
                let ghost pre_hosts = disliked@;
                disliked.push(host);
                proof {
                    gacc = OpticModel { disliked: pre_acc.disliked.push(hb), ..pre_acc };
                    assert(spec_read_statement(gtm, at0, pre_acc) == Some((
                        gacc,
                        (spec_read_site_arg(gtm, at0 + 1)->0).1,
                    )));
                    assert(forall|i: int|
                        0 <= i < pre_hosts.len() ==> disliked@[i] == #[trigger] pre_hosts[i]);
                    assert(strs_fit(disliked@, gacc.disliked));
                }
            } else if c.eat_word("Block") {
                let host = match read_site_arg(&mut c) {
                    Ok(h) => h,
                    Err(e) => {
                        proof {
                            assert(spec_read_statement(gtm, at0, pre_acc) is None);
                            assert(spec_parse_optic_from(gtm, at0, pre_acc) is None);
                        }
                        return Err(e);
                    },
                };
                let ghost hb = (spec_read_site_arg(gtm, at0 + 1)->0).0;
                let ghost pre_hosts = blocked@;
                blocked.push(host);
                proof {
                    gacc = OpticModel { blocked: pre_acc.blocked.push(hb), ..pre_acc };
                    assert(spec_read_statement(gtm, at0, pre_acc) == Some((
                        gacc,
                        (spec_read_site_arg(gtm, at0 + 1)->0).1,
                    )));
                    assert(forall|i: int|
                        0 <= i < pre_hosts.len() ==> blocked@[i] == #[trigger] pre_hosts[i]);
                    assert(strs_fit(blocked@, gacc.blocked));
                }
            } else if c.eat_word("Ranking") {
                let ghost pre_coeffs = rankings@;
                match read_ranking(&mut c, &mut rankings) {
                    Ok(()) => {},
                    Err(e) => {
                        proof {
                            assert(spec_read_statement(gtm, at0, pre_acc) is None);
                            assert(spec_parse_optic_from(gtm, at0, pre_acc) is None);
                        }
                        return Err(e);
                    },
                }
                let ghost sig = spec_read_signals(gtm, at0 + 2)->0;
                proof {
                    gacc = OpticModel { rankings: pre_acc.rankings + sig.0, ..pre_acc };
                    assert(spec_read_statement(gtm, at0, pre_acc) == Some((gacc, sig.1)));
                    assert(coeffs_fit(rankings@, gacc.rankings)) by {
                        assert(rankings@.len() == pre_coeffs.len() + sig.0.len());
                        assert(gacc.rankings.len() == pre_coeffs.len() + sig.0.len());
                        assert forall|i: int|
                            0 <= i < rankings@.len() implies str_fits(
                            rankings@[i].target,
                            (#[trigger] gacc.rankings[i]).0,
                        ) && rankings@[i].value == gacc.rankings[i].1 by {
                            if i < pre_coeffs.len() {
                                assert(rankings@[i] == pre_coeffs[i]);
                                assert(gacc.rankings[i] == pre_acc.rankings[i]);
                            } else {
                                assert(rankings@.skip(pre_coeffs.len() as int)[i
                                    - pre_coeffs.len()] == rankings@[i]);
                                assert(gacc.rankings[i] == sig.0[i - pre_coeffs.len()]);
                            }
                        }
                    }
                }
            } else {
                proof {
                    assert(spec_read_statement(gtm, at0, pre_acc) is None);
                    assert(spec_parse_optic_from(gtm, at0, pre_acc) is None);
                }
                return Err(OpticError::InvalidOptic);
            }
            proof {
                lemma_read_statement_bounds(gtm, at0, pre_acc);
                assert((spec_read_statement(gtm, at0, pre_acc)->0).1 == c.at as int);
                assert(spec_past(c.at as int, at0 + 1, gtm.len() as int) == c.at as int);
            }
            let ghost a1 = c.at as int;
            if !c.eat_semicolon() {
                if !c.done() {
                    proof {
                        assert(spec_parse_optic_from(gtm, at0, pre_acc) is None);
                    }
                    return Err(OpticError::InvalidOptic);
                }
                proof {
                    assert(a1 >= gtm.len());
                    assert(spec_parse_optic_from(gtm, at0, pre_acc) == Some(gacc));
                    assert(spec_parse_optic_from(gtm, c.at as int, gacc) == Some(gacc));
                }
            } else {
                proof {
                    assert(spec_parse_optic_from(gtm, at0, pre_acc) == spec_parse_optic_from(
                        gtm,
                        a1 + 1,
                        gacc,
                    ));
                }
            }
        }
    }
}

} // verus!
