//! English stemming for the stemmed body field, through the snowball
//! stemmer of the `rust_stemmers` crate.

use vstd::prelude::*;

verus! {

/// What the English snowball stemmer makes of a lowercased word: a
/// function of the word alone.
pub uninterp spec fn stem_of(w: Seq<u8>) -> Seq<u8>;

/// Whether a stemmer value runs the English algorithm.
pub uninterp spec fn is_english(st: rust_stemmers::Stemmer) -> bool;

#[verifier::external_type_specification]
#[verifier::external_body]
pub struct ExStemmer(rust_stemmers::Stemmer);

/// Relies on rust_stemmers::Stemmer::create with the English
/// algorithm.
#[verifier::external_body]
pub fn english_stemmer() -> (r: rust_stemmers::Stemmer)
    ensures
        is_english(r),
{
    rust_stemmers::Stemmer::create(rust_stemmers::Algorithm::English)
}

/// Relies on rust_stemmers::Stemmer::stem: the stem depends on the
/// word alone, and an English stemmer computes `stem_of`.
#[verifier::external_body]
pub fn stem_word(st: &rust_stemmers::Stemmer, w: &Vec<u8>) -> (r: Vec<u8>)
    ensures
        is_english(*st) ==> r@ == stem_of(w@),
{
    st.stem(&String::from_utf8_lossy(w.as_slice())).into_owned().into_bytes()
}

} // verus!
