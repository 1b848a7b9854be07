//! The stop-word predicate: common words excluded from the ranked view
//! (but still counted in the frequency table and in the totals).

use vstd::prelude::*;

verus! {

/// Whether `w` is one of the curated common words that the ranked view
/// leaves out.
pub open spec fn spec_is_stopword(w: Seq<char>) -> bool {
    ||| w == "the"@
    ||| w == "a"@
    ||| w == "an"@
    ||| w == "and"@
    ||| w == "or"@
    ||| w == "but"@
    ||| w == "of"@
    ||| w == "to"@
    ||| w == "in"@
    ||| w == "on"@
    ||| w == "at"@
    ||| w == "by"@
    ||| w == "for"@
    ||| w == "with"@
    ||| w == "as"@
    ||| w == "is"@
    ||| w == "are"@
    ||| w == "was"@
    ||| w == "were"@
    ||| w == "be"@
    ||| w == "it"@
    ||| w == "this"@
    ||| w == "that"@
    ||| w == "over"@
    ||| w == "under"@
}

/// Whether `w` reads the same as the literal `lit`.
fn eq_lit(w: &String, lit: &str) -> (r: bool)
    ensures
        r == (w@ == lit@),
{
    let s: String = lit.to_owned();
    *w == s
}

/// Whether `word` is a stop word.
pub fn is_stopword(word: &String) -> (r: bool)
    ensures
        r == spec_is_stopword(word@),
{
    eq_lit(word, "the") || eq_lit(word, "a") || eq_lit(word, "an") || eq_lit(word, "and")
        || eq_lit(word, "or") || eq_lit(word, "but") || eq_lit(word, "of") || eq_lit(word, "to")
        || eq_lit(word, "in") || eq_lit(word, "on") || eq_lit(word, "at") || eq_lit(word, "by")
        || eq_lit(word, "for") || eq_lit(word, "with") || eq_lit(word, "as") || eq_lit(word, "is")
        || eq_lit(word, "are") || eq_lit(word, "was") || eq_lit(word, "were") || eq_lit(word, "be")
        || eq_lit(word, "it") || eq_lit(word, "this") || eq_lit(word, "that") || eq_lit(
        word,
        "over",
    ) || eq_lit(word, "under")
}

} // verus!
