//! The text model: whitespace tokenization and word normalization.
//!
//! A token is a maximal run of non-whitespace characters; a normalized
//! word is a token with its non-alphabetic characters removed and the
//! remainder lowercased. Whitespace and alphabetic classification, case
//! folding, and grapheme segmentation are Unicode notions computed by
//! outside code; each is named by an uninterpreted spec function and
//! reached through a single trusted wrapper.

use vstd::prelude::*;

verus! {

/// Whether `c` has the Unicode White_Space property, as
/// `char::is_whitespace` decides it.
pub uninterp spec fn is_white_char(c: char) -> bool;

/// Whether `c` has the Unicode Alphabetic property, as
/// `char::is_alphabetic` decides it.
pub uninterp spec fn is_alpha_char(c: char) -> bool;

/// The lowercase form of `s`, as `str::to_lowercase` computes it.
/// May differ in length from `s` (some characters lowercase to more
/// than one character).
pub uninterp spec fn lower_of(s: Seq<char>) -> Seq<char>;

/// The number of extended grapheme clusters of `s` under UAX #29, as
/// `unicode_segmentation` computes it.
pub uninterp spec fn grapheme_count(s: Seq<char>) -> nat;

/// Relies on `char::is_whitespace`: the Unicode White_Space property,
/// a function of the character alone.
#[verifier::external_body]
pub fn white_char(c: char) -> (r: bool)
    ensures
        r == is_white_char(c),
{
    c.is_whitespace()
}

/// Relies on `char::is_alphabetic`: the Unicode Alphabetic property,
/// a function of the character alone.
#[verifier::external_body]
pub fn alpha_char(c: char) -> (r: bool)
    ensures
        r == is_alpha_char(c),
{
    c.is_alphabetic()
}

/// Relies on `str::to_lowercase`: the result is the concatenation of
/// the lowercase mappings of the characters of `s`, so it depends on
/// those characters alone, and an empty string stays empty.
#[verifier::external_body]
pub fn lowercase(s: &String) -> (r: String)
    ensures
        r@ == lower_of(s@),
        s@.len() == 0 ==> r@.len() == 0,
{
    s.to_lowercase()
}

/// Relies on `UnicodeSegmentation::graphemes(true)`: an iterator over
/// the extended grapheme clusters of the string, which partition it
/// into non-empty pieces, so their number is a function of the
/// characters alone, zero exactly for the empty string, and at most
/// the number of characters.
#[verifier::external_body]
pub fn grapheme_len(s: &String) -> (n: usize)
    ensures
        n == grapheme_count(s@),
        (n == 0) <==> (s@.len() == 0),
        n <= s@.len(),
{
    unicode_segmentation::UnicodeSegmentation::graphemes(s.as_str(), true).count()
}

/// Relies on `str::chars`: the characters of the string, in order.
#[verifier::external_body]
pub fn chars_of(s: &String) -> (v: Vec<char>)
    ensures
        v@ == s@,
{
    s.chars().collect()
}

/// Relies on `String`'s `FromIterator<char>`: collecting characters
/// builds the string of exactly those characters, in order.
#[verifier::external_body]
pub fn string_from_chars(v: &Vec<char>) -> (s: String)
    ensures
        s@ == v@,
{
    v.iter().collect()
}

/// The pending token `cur` as a sequence of tokens: nothing if it is
/// empty, else the one token.
pub open spec fn flush(cur: Seq<char>) -> Seq<Seq<char>> {
    if cur.len() == 0 {
        Seq::empty()
    } else {
        seq![cur]
    }
}

/// The whitespace-delimited tokens of `s`, given that the characters
/// of `cur` were already read as the start of a token.
pub open spec fn tokens_from(s: Seq<char>, cur: Seq<char>) -> Seq<Seq<char>>
    decreases s.len(),
{
    if s.len() == 0 {
        flush(cur)
    } else if is_white_char(s[0]) {
        flush(cur) + tokens_from(s.drop_first(), Seq::empty())
    } else {
        tokens_from(s.drop_first(), cur.push(s[0]))
    }
}

/// The whitespace-delimited tokens of `s`: the maximal runs of
/// non-whitespace characters, in order.
pub open spec fn tokens(s: Seq<char>) -> Seq<Seq<char>> {
    tokens_from(s, Seq::empty())
}

/// The subsequence of alphabetic characters of `s`.
pub open spec fn filter_alpha(s: Seq<char>) -> Seq<char>
    decreases s.len(),
{
    if s.len() == 0 {
        Seq::empty()
    } else if is_alpha_char(s.last()) {
        filter_alpha(s.drop_last()).push(s.last())
    } else {
        filter_alpha(s.drop_last())
    }
}

/// The normalized form of a token: its alphabetic characters, lowercased.
pub open spec fn normalize(t: Seq<char>) -> Seq<char> {
    lower_of(filter_alpha(t))
}

/// The views of a sequence of character vectors.
pub open spec fn views_of(ts: Seq<Vec<char>>) -> Seq<Seq<char>> {
    ts.map_values(|t: Vec<char>| t@)
}

/// The normalized forms of the tokens of `s`, in token order.
pub open spec fn norm_tokens(s: Seq<char>) -> Seq<Seq<char>> {
    tokens(s).map_values(|t: Seq<char>| normalize(t))
}

/// There are no more tokens than characters: each token consumes at
/// least one character of the input.
pub proof fn lemma_tokens_len(s: Seq<char>, cur: Seq<char>)
    ensures
        tokens_from(s, cur).len() <= s.len() + flush(cur).len(),
        flush(cur).len() <= 1,
    decreases s.len(),
{
    if s.len() == 0 {
    } else if is_white_char(s[0]) {
        lemma_tokens_len(s.drop_first(), Seq::empty());
    } else {
        lemma_tokens_len(s.drop_first(), cur.push(s[0]));
    }
}

/// Splits `chars` into its whitespace-delimited tokens.
pub fn split_tokens(chars: &Vec<char>) -> (toks: Vec<Vec<char>>)
    ensures
        views_of(toks@) == tokens(chars@),
{
    let n = chars.len();
    let mut i: usize = 0;
    let mut cur: Vec<char> = Vec::new();
    let mut out: Vec<Vec<char>> = Vec::new();
    proof {
        assert(chars@.skip(0) =~= chars@);
        assert(views_of(out@) + tokens_from(chars@, cur@) =~~= tokens(chars@));
    }
    while i < n
        invariant
            i <= n,
            views_of(out@) + tokens_from(chars@.skip(i as int), cur@) =~~= tokens(chars@),
        decreases n - i,
    {
        let c = chars[i];
        proof {
            assert(chars@.skip(i as int)[0] == chars@[i as int]);
            assert(chars@.skip(i as int).drop_first() =~= chars@.skip(i as int + 1));
        }
        if white_char(c) {
            let ghost prev_out = out@;
            let ghost prev_cur = cur@;
            if cur.len() > 0 {
                out.push(cur);
                cur = Vec::new();
            }
            proof {
                assert(cur@ =~= Seq::<char>::empty());
                assert(views_of(out@) =~~= views_of(prev_out) + flush(prev_cur));
                assert(tokens_from(chars@.skip(i as int), prev_cur) == flush(prev_cur)
                    + tokens_from(chars@.skip(i as int + 1), Seq::empty()));
                assert(views_of(out@) + tokens_from(chars@.skip(i as int + 1), cur@)
                    =~~= views_of(prev_out) + tokens_from(chars@.skip(i as int), prev_cur));
            }
        } else {
            cur.push(c);
        }
        i = i + 1;
    }
    proof {
        assert(chars@.skip(n as int) =~= Seq::<char>::empty());
    }
    let ghost prev_out = out@;
    let ghost prev_cur = cur@;
    if cur.len() > 0 {
        out.push(cur);
    }
    proof {
        assert(views_of(out@) =~~= views_of(prev_out) + flush(prev_cur));
    }
    out
}

/// Normalizes one token: keeps its alphabetic characters and lowercases
/// them.
pub fn normalize_token(t: &Vec<char>) -> (w: String)
    ensures
        w@ == normalize(t@),
{
    let n = t.len();
    let mut i: usize = 0;
    let mut kept: Vec<char> = Vec::new();
    proof {
        assert(t@.take(0) =~= Seq::<char>::empty());
    }
    while i < n
        invariant
            i <= n,
            kept@ == filter_alpha(t@.take(i as int)),
        decreases n - i,
    {
        let c = t[i];
        proof {
            assert(t@.take(i as int + 1).drop_last() =~= t@.take(i as int));
            assert(t@.take(i as int + 1).last() == t@[i as int]);
        }
        if alpha_char(c) {
            kept.push(c);
        }
        i = i + 1;
    }
    proof {
        assert(t@.take(n as int) =~= t@);
    }
    let s = string_from_chars(&kept);
    lowercase(&s)
}

} // verus!
