//! Byte-level analysis chains: the default word tokenizer (lowercase,
//! split at non-word bytes), the whitespace splitter used by the query
//! parser and the snippet builder, and n-gram composition for
//! compound-word matching.

use vstd::prelude::*;

verus! {

/// Lowercases an ASCII letter; leaves every other byte unchanged.
pub open spec fn norm_byte(b: u8) -> u8 {
    if 65 <= b && b <= 90 {
        (b + 32) as u8
    } else {
        b
    }
}

/// A byte that belongs to a word token after normalisation: ASCII
/// letters and digits, and every non-ASCII byte (so multi-byte
/// characters pass through whole).
pub open spec fn is_word_byte(b: u8) -> bool {
    (97 <= b && b <= 122) || (48 <= b && b <= 57) || b >= 0x80
}

/// ASCII whitespace as the query parser sees it.
pub open spec fn is_ws(b: u8) -> bool {
    b == 0x20 || b == 0x09 || b == 0x0a || b == 0x0d
}

/// Left fold of the word tokenizer: the tokens already finished and the
/// word run still open after reading `s`.
pub open spec fn tok_fold(s: Seq<u8>) -> (Seq<Seq<u8>>, Seq<u8>)
    decreases s.len(),
{
    if s.len() == 0 {
        (Seq::empty(), Seq::empty())
    } else {
        let r = tok_fold(s.drop_last());
        let b = norm_byte(s.last());
        if is_word_byte(b) {
            (r.0, r.1.push(b))
        } else if r.1.len() > 0 {
            (r.0.push(r.1), Seq::empty())
        } else {
            r
        }
    }
}

/// The default analysis chain: maximal runs of word bytes, lowercased.
pub open spec fn spec_tokens(s: Seq<u8>) -> Seq<Seq<u8>> {
    let r = tok_fold(s);
    if r.1.len() > 0 {
        r.0.push(r.1)
    } else {
        r.0
    }
}

/// Left fold of the whitespace splitter: pieces finished and the piece
/// still open. Bytes are kept verbatim.
pub open spec fn ws_fold(s: Seq<u8>) -> (Seq<Seq<u8>>, Seq<u8>)
    decreases s.len(),
{
    if s.len() == 0 {
        (Seq::empty(), Seq::empty())
    } else {
        let r = ws_fold(s.drop_last());
        let b = s.last();
        if !is_ws(b) {
            (r.0, r.1.push(b))
        } else if r.1.len() > 0 {
            (r.0.push(r.1), Seq::empty())
        } else {
            r
        }
    }
}

/// Split at ASCII whitespace, keeping the pieces verbatim.
pub open spec fn spec_ws_split(s: Seq<u8>) -> Seq<Seq<u8>> {
    let r = ws_fold(s);
    if r.1.len() > 0 {
        r.0.push(r.1)
    } else {
        r.0
    }
}

/// Exec lowercasing of one byte.
pub fn norm_byte_exec(b: u8) -> (r: u8)
    ensures
        r == norm_byte(b),
{
    if 65 <= b && b <= 90 {
        b + 32
    } else {
        b
    }
}

/// Exec test for a word byte.
pub fn is_word_byte_exec(b: u8) -> (r: bool)
    ensures
        r == is_word_byte(b),
{
    (97 <= b && b <= 122) || (48 <= b && b <= 57) || b >= 0x80
}

/// Exec test for ASCII whitespace.
pub fn is_ws_exec(b: u8) -> (r: bool)
    ensures
        r == is_ws(b),
{
    b == 0x20 || b == 0x09 || b == 0x0a || b == 0x0d
}

/// View of a vector of byte tokens as a sequence of byte sequences.
pub open spec fn toks_view(v: Vec<Vec<u8>>) -> Seq<Seq<u8>> {
    v@.map_values(|t: Vec<u8>| t@)
}

/// Runs the default analysis chain over `s`.
pub fn tokens_of(s: &[u8]) -> (r: Vec<Vec<u8>>)
    ensures
        toks_view(r) == spec_tokens(s@),
{
    let mut done: Vec<Vec<u8>> = Vec::new();
    let mut cur: Vec<u8> = Vec::new();
    let mut i: usize = 0;
    while i < s.len()
        invariant
            i <= s.len(),
            (toks_view(done), cur@) == tok_fold(s@.take(i as int)),
        decreases s.len() - i,
    {
        proof {
            assert(s@.take(i + 1).drop_last() =~= s@.take(i as int));
            assert(s@.take(i + 1).last() == s@[i as int]);
        }
        let b = norm_byte_exec(s[i]);
        if is_word_byte_exec(b) {
            cur.push(b);
            proof {
                assert(toks_view(done) == tok_fold(s@.take(i + 1)).0);
            }
        } else if cur.len() > 0 {
            done.push(cur);
            cur = Vec::new();
            proof {
                assert(toks_view(done) =~= tok_fold(s@.take(i + 1)).0);
            }
        }
        i = i + 1;
    }
    proof {
        assert(s@.take(s@.len() as int) =~= s@);
    }
    if cur.len() > 0 {
        done.push(cur);
        proof {
            assert(toks_view(done) =~= spec_tokens(s@));
        }
    }
    done
}

/// Splits `s` at ASCII whitespace.
pub fn ws_split(s: &[u8]) -> (r: Vec<Vec<u8>>)
    ensures
        toks_view(r) == spec_ws_split(s@),
{
    let mut done: Vec<Vec<u8>> = Vec::new();
    let mut cur: Vec<u8> = Vec::new();
    let mut i: usize = 0;
    while i < s.len()
        invariant
            i <= s.len(),
            (toks_view(done), cur@) == ws_fold(s@.take(i as int)),
        decreases s.len() - i,
    {
        proof {
            assert(s@.take(i + 1).drop_last() =~= s@.take(i as int));
            assert(s@.take(i + 1).last() == s@[i as int]);
        }
        let b = s[i];
        if !is_ws_exec(b) {
            cur.push(b);
            proof {
                assert(toks_view(done) == ws_fold(s@.take(i + 1)).0);
            }
        } else if cur.len() > 0 {
            done.push(cur);
            cur = Vec::new();
            proof {
                assert(toks_view(done) =~= ws_fold(s@.take(i + 1)).0);
            }
        }
        i = i + 1;
    }
    proof {
        assert(s@.take(s@.len() as int) =~= s@);
    }
    if cur.len() > 0 {
        done.push(cur);
        proof {
            assert(toks_view(done) =~= spec_ws_split(s@));
        }
    }
    done
}

/// The concatenation of `n` adjacent tokens starting at `i`, as one
/// compound token.
pub open spec fn spec_ngram_at(toks: Seq<Seq<u8>>, i: int, n: int) -> Seq<u8>
    decreases n,
{
    if n <= 0 {
        Seq::empty()
    } else {
        toks[i] + spec_ngram_at(toks, i + 1, n - 1)
    }
}

/// Whether `t` is the concatenation of `n` adjacent tokens somewhere in
/// `toks`: the n-gram fields hold exactly these compounds.
pub open spec fn spec_has_ngram(toks: Seq<Seq<u8>>, n: int, t: Seq<u8>) -> bool {
    exists|i: int| 0 <= i && i + n <= toks.len() && spec_ngram_at(toks, i, n) == t
}

/// Concatenates the byte tokens `toks[i..i+n]`.
pub fn ngram_at(toks: &Vec<Vec<u8>>, i: usize, n: usize) -> (r: Vec<u8>)
    requires
        i + n <= toks@.len(),
    ensures
        r@ == spec_ngram_at(toks_view(*toks), i as int, n as int),
{
    let total: usize = toks.len();
    let mut out: Vec<u8> = Vec::new();
    let mut k: usize = 0;
    while k < n
        invariant
            k <= n,
            i + n <= total,
            total == toks@.len(),
            out@ == spec_ngram_prefix(toks_view(*toks), i as int, k as int),
        decreases n - k,
    {
        let t = &toks[i + k];
        let mut j: usize = 0;
        while j < t.len()
            invariant
                j <= t@.len(),
                i + k < toks@.len(),
                t@ == toks_view(*toks)[i + k],
                out@ == spec_ngram_prefix(toks_view(*toks), i as int, k as int) + t@.take(
                    j as int,
                ),
            decreases t@.len() - j,
        {
            out.push(t[j]);
            proof {
                assert(t@.take(j + 1) =~= t@.take(j as int).push(t@[j as int]));
            }
            j = j + 1;
        }
        proof {
            assert(t@.take(t@.len() as int) =~= t@);
            lemma_ngram_prefix_step(toks_view(*toks), i as int, k as int);
        }
        k = k + 1;
    }
    proof {
        lemma_ngram_prefix_full(toks_view(*toks), i as int, n as int);
    }
    out
}

/// The concatenation of the first `k` of `n` tokens of an n-gram.
pub open spec fn spec_ngram_prefix(toks: Seq<Seq<u8>>, i: int, k: int) -> Seq<u8>
    decreases k,
{
    if k <= 0 {
        Seq::empty()
    } else {
        spec_ngram_prefix(toks, i, k - 1) + toks[i + k - 1]
    }
}

proof fn lemma_ngram_prefix_step(toks: Seq<Seq<u8>>, i: int, k: int)
    requires
        k >= 0,
    ensures
        spec_ngram_prefix(toks, i, k) + toks[i + k] == spec_ngram_prefix(toks, i, k + 1),
{
}

/// The left-fold and right-fold views of an n-gram agree.
proof fn lemma_ngram_prefix_full(toks: Seq<Seq<u8>>, i: int, n: int)
    requires
        n >= 0,
    ensures
        spec_ngram_prefix(toks, i, n) == spec_ngram_at(toks, i, n),
    decreases n,
{
    if n > 0 {
        lemma_ngram_prefix_full(toks, i, n - 1);
        lemma_ngram_at_unsnoc(toks, i, n);
    } else {
        assert(spec_ngram_prefix(toks, i, 0) =~= spec_ngram_at(toks, i, 0));
    }
}

proof fn lemma_ngram_at_unsnoc(toks: Seq<Seq<u8>>, i: int, n: int)
    requires
        n >= 1,
    ensures
        spec_ngram_at(toks, i, n) == spec_ngram_at(toks, i, n - 1) + toks[i + n - 1],
    decreases n,
{
    if n == 1 {
        assert(spec_ngram_at(toks, i + 1, 0) =~= Seq::<u8>::empty());
        assert(spec_ngram_at(toks, i, 1) =~= toks[i] + Seq::<u8>::empty());
        assert(toks[i] + Seq::<u8>::empty() =~= toks[i]);
        assert(spec_ngram_at(toks, i, 0) + toks[i] =~= toks[i]);
    } else {
        lemma_ngram_at_unsnoc(toks, i + 1, n - 1);
        assert(spec_ngram_at(toks, i, n) == toks[i] + spec_ngram_at(toks, i + 1, n - 1));
        assert(spec_ngram_at(toks, i, n - 1) == toks[i] + spec_ngram_at(toks, i + 1, n - 2));
        assert(toks[i] + (spec_ngram_at(toks, i + 1, n - 2) + toks[i + n - 1]) =~= (toks[i]
            + spec_ngram_at(toks, i + 1, n - 2)) + toks[i + n - 1]);
    }
}

/// Separators of the site-operator chain: label and segment boundaries
/// of a URL. Hyphens stay inside a label, so `the-first` is one token.
pub open spec fn is_site_sep(b: u8) -> bool {
    b == 0x2e || b == 0x2f || b == 0x3a || is_ws(b)
}

/// Left fold of the site-operator tokenizer.
pub open spec fn site_fold(s: Seq<u8>) -> (Seq<Seq<u8>>, Seq<u8>)
    decreases s.len(),
{
    if s.len() == 0 {
        (Seq::empty(), Seq::empty())
    } else {
        let r = site_fold(s.drop_last());
        let b = norm_byte(s.last());
        if !is_site_sep(b) {
            (r.0, r.1.push(b))
        } else if r.1.len() > 0 {
            (r.0.push(r.1), Seq::empty())
        } else {
            r
        }
    }
}

/// The site-operator analysis chain: lowercased host labels and path
/// segments, split at `.`, `/` and `:`.
pub open spec fn spec_site_tokens(s: Seq<u8>) -> Seq<Seq<u8>> {
    let r = site_fold(s);
    if r.1.len() > 0 {
        r.0.push(r.1)
    } else {
        r.0
    }
}

/// Exec test for a site-operator separator.
pub fn is_site_sep_exec(b: u8) -> (r: bool)
    ensures
        r == is_site_sep(b),
{
    b == 0x2e || b == 0x2f || b == 0x3a || is_ws_exec(b)
}

/// Runs the site-operator analysis chain over `s`.
pub fn site_tokens_of(s: &[u8]) -> (r: Vec<Vec<u8>>)
    ensures
        toks_view(r) == spec_site_tokens(s@),
{
    let mut done: Vec<Vec<u8>> = Vec::new();
    let mut cur: Vec<u8> = Vec::new();
    let mut i: usize = 0;
    while i < s.len()
        invariant
            i <= s.len(),
            (toks_view(done), cur@) == site_fold(s@.take(i as int)),
        decreases s.len() - i,
    {
        proof {
            assert(s@.take(i + 1).drop_last() =~= s@.take(i as int));
            assert(s@.take(i + 1).last() == s@[i as int]);
        }
        let b = norm_byte_exec(s[i]);
        if !is_site_sep_exec(b) {
            cur.push(b);
            proof {
                assert(toks_view(done) == site_fold(s@.take(i + 1)).0);
            }
        } else if cur.len() > 0 {
            done.push(cur);
            cur = Vec::new();
            proof {
                assert(toks_view(done) =~= site_fold(s@.take(i + 1)).0);
            }
        }
        i = i + 1;
    }
    proof {
        assert(s@.take(s@.len() as int) =~= s@);
    }
    if cur.len() > 0 {
        done.push(cur);
        proof {
            assert(toks_view(done) =~= spec_site_tokens(s@));
        }
    }
    done
}

/// The schema.org path chain: the whole entry, lowercased, as one
/// token; an empty entry yields none.
pub open spec fn spec_json_tokens(s: Seq<u8>) -> Seq<Seq<u8>> {
    if s.len() > 0 {
        seq![s.map_values(|b: u8| norm_byte(b))]
    } else {
        Seq::empty()
    }
}

/// Runs the schema.org path chain over `s`.
pub fn json_tokens_of(s: &[u8]) -> (r: Vec<Vec<u8>>)
    ensures
        toks_view(r) == spec_json_tokens(s@),
{
    let mut out: Vec<Vec<u8>> = Vec::new();
    if s.len() == 0 {
        proof {
            assert(toks_view(out) =~= spec_json_tokens(s@));
        }
        return out;
    }
    let mut t: Vec<u8> = Vec::new();
    let mut i: usize = 0;
    while i < s.len()
        invariant
            i <= s.len(),
            t@ == s@.take(i as int).map_values(|b: u8| norm_byte(b)),
        decreases s.len() - i,
    {
        t.push(norm_byte_exec(s[i]));
        proof {
            assert(s@.take(i + 1) =~= s@.take(i as int).push(s@[i as int]));
            assert(s@.take(i + 1).map_values(|b: u8| norm_byte(b)) =~= s@.take(
                i as int,
            ).map_values(|b: u8| norm_byte(b)).push(norm_byte(s@[i as int])));
        }
        i = i + 1;
    }
    proof {
        assert(s@.take(s@.len() as int) =~= s@);
    }
    out.push(t);
    proof {
        assert(toks_view(out) =~= spec_json_tokens(s@));
    }
    out
}

/// Compares two byte strings.

pub fn bytes_eq(a: &[u8], b: &[u8]) -> (r: bool)
    ensures
        r == (a@ == b@),
{
    if a.len() != b.len() {
        proof {
            assert(a@.len() != b@.len());
        }
        return false;
    }
    let mut i: usize = 0;
    while i < a.len()
        invariant
            i <= a@.len(),
            a@.len() == b@.len(),
            forall|j: int| 0 <= j < i ==> a@[j] == b@[j],
        decreases a@.len() - i,
    {
        if a[i] != b[i] {
            return false;
        }
        i = i + 1;
    }
    proof {
        assert(a@ =~= b@);
    }
    true
}

} // verus!
