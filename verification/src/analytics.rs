//! The analytics engine: a frequency table over the normalized words of
//! a text, and a ranked, stop-word-free view of it.
//!
//! The table is a vector of (word, count) pairs with pairwise-distinct
//! keys, one per distinct normalized word, each count the number of
//! tokens normalizing to that word. The ranked view drops stop words
//! and is sorted by count, descending; ties keep their first-encountered
//! order (the sort below is a stable selection of maxima).

use vstd::prelude::*;
use vstd::multiset::Multiset;
use vstd::seq_lib::group_to_multiset_ensures;
use crate::stop_words::is_stopword;
use crate::stop_words::spec_is_stopword;
use crate::text::chars_of;
use crate::text::grapheme_count;
use crate::text::grapheme_len;
use crate::text::norm_tokens;
use crate::text::normalize;
use crate::text::normalize_token;
use crate::text::split_tokens;
use crate::text::tokens;
use crate::text::views_of;
use crate::text::lemma_tokens_len;

verus! {

/// The views of a sequence of (word, count) pairs.
pub open spec fn view_pairs(s: Seq<(String, u32)>) -> Seq<(Seq<char>, u32)> {
    s.map_values(|p: (String, u32)| (p.0@, p.1))
}

/// The views of a sequence of words.
pub open spec fn str_views(s: Seq<String>) -> Seq<Seq<char>> {
    s.map_values(|w: String| w@)
}

/// How many times `w` occurs in `words`.
pub open spec fn count_in(words: Seq<Seq<char>>, w: Seq<char>) -> nat
    decreases words.len(),
{
    if words.len() == 0 {
        0
    } else {
        count_in(words.drop_last(), w) + (if words.last() == w {
            1nat
        } else {
            0nat
        })
    }
}

/// The sum of the counts of a table.
pub open spec fn sum_counts(t: Seq<(Seq<char>, u32)>) -> int
    decreases t.len(),
{
    if t.len() == 0 {
        0
    } else {
        sum_counts(t.drop_last()) + t.last().1
    }
}

/// The total character count of a table: for each entry, the grapheme
/// count of its word times its count.
pub open spec fn char_count_of(t: Seq<(Seq<char>, u32)>) -> int
    decreases t.len(),
{
    if t.len() == 0 {
        0
    } else {
        char_count_of(t.drop_last()) + grapheme_count(t.last().0) * t.last().1
    }
}

/// The entries of `t` whose word is not a stop word, in table order.
pub open spec fn ranked_of(t: Seq<(Seq<char>, u32)>) -> Seq<(Seq<char>, u32)>
    decreases t.len(),
{
    if t.len() == 0 {
        Seq::empty()
    } else if spec_is_stopword(t.last().0) {
        ranked_of(t.drop_last())
    } else {
        ranked_of(t.drop_last()).push(t.last())
    }
}

/// The keys of `t` are pairwise distinct.
pub open spec fn unique_keys(t: Seq<(Seq<char>, u32)>) -> bool {
    forall|i: int, j: int| 0 <= i < j < t.len() ==> t[i].0 != t[j].0
}

/// The counts of `s` are non-increasing.
pub open spec fn sorted_desc(s: Seq<(Seq<char>, u32)>) -> bool {
    forall|i: int, j: int| 0 <= i <= j < s.len() ==> s[i].1 >= s[j].1
}

/// `t` is the frequency table of `words`: every entry counts its word's
/// occurrences, and every word that occurs has an entry.
pub open spec fn counts_match(t: Seq<(Seq<char>, u32)>, words: Seq<Seq<char>>) -> bool {
    &&& forall|i: int|
        0 <= i < t.len() ==> (#[trigger] t[i]).1 == count_in(words, t[i].0)
    &&& forall|w: Seq<char>|
        count_in(words, w) > 0 ==> exists|i: int| 0 <= i < t.len() && (#[trigger] t[i]).0 == w
}

/// Appending one word raises its own count by one and no other.
proof fn lemma_count_in_snoc(words: Seq<Seq<char>>, x: Seq<char>, w: Seq<char>)
    ensures
        count_in(words.push(x), w) == count_in(words, w) + (if x == w {
            1nat
        } else {
            0nat
        }),
{
    assert(words.push(x).drop_last() =~= words);
    assert(words.push(x).last() == x);
}

/// A word occurs at most once per element.
proof fn lemma_count_in_le(words: Seq<Seq<char>>, w: Seq<char>)
    ensures
        count_in(words, w) <= words.len(),
    decreases words.len(),
{
    if words.len() > 0 {
        lemma_count_in_le(words.drop_last(), w);
    }
}

/// The count sum of a prefix is at most the count sum of the whole.
proof fn lemma_sum_take_le(t: Seq<(Seq<char>, u32)>, i: int)
    requires
        0 <= i <= t.len(),
    ensures
        sum_counts(t.take(i)) <= sum_counts(t),
    decreases t.len(),
{
    if i == t.len() {
        assert(t.take(i) =~= t);
    } else {
        assert(t.take(i) =~= t.drop_last().take(i));
        lemma_sum_take_le(t.drop_last(), i);
    }
}

/// Every term of the character count is non-negative.
proof fn lemma_ccount_term_nonneg(w: Seq<char>, c: u32)
    ensures
        grapheme_count(w) * c >= 0,
{
    let g = grapheme_count(w);
    assert(g * c >= 0) by (nonlinear_arith)
        requires
            g >= 0,
            c >= 0,
    ;
}

/// The character count of a prefix is at most that of the whole.
proof fn lemma_ccount_take_le(t: Seq<(Seq<char>, u32)>, i: int)
    requires
        0 <= i <= t.len(),
    ensures
        char_count_of(t.take(i)) <= char_count_of(t),
    decreases t.len(),
{
    if i == t.len() {
        assert(t.take(i) =~= t);
    } else {
        assert(t.take(i) =~= t.drop_last().take(i));
        lemma_ccount_take_le(t.drop_last(), i);
        lemma_ccount_term_nonneg(t.last().0, t.last().1);
    }
}

/// Replacing one entry changes the count sum by the difference of the
/// counts.
proof fn lemma_sum_update(t: Seq<(Seq<char>, u32)>, i: int, e: (Seq<char>, u32))
    requires
        0 <= i < t.len(),
    ensures
        sum_counts(t.update(i, e)) == sum_counts(t) - t[i].1 + e.1,
    decreases t.len(),
{
    if i == t.len() - 1 {
        assert(t.update(i, e).drop_last() =~= t.drop_last());
    } else {
        assert(t.update(i, e).drop_last() =~= t.drop_last().update(i, e));
        lemma_sum_update(t.drop_last(), i, e);
    }
}

/// The index of the entry of `map` whose word reads as `w`, if any.
fn find_key(map: &Vec<(String, u32)>, w: &String) -> (r: Option<usize>)
    ensures
        match r {
            Some(j) => j < map@.len() && map@[j as int].0@ == w@,
            None => forall|k: int| 0 <= k < map@.len() ==> (#[trigger] map@[k]).0@ != w@,
        },
{
    let n = map.len();
    let mut i: usize = 0;
    while i < n
        invariant
            i <= n,
            forall|k: int| 0 <= k < i ==> (#[trigger] map@[k]).0@ != w@,
        decreases n - i,
    {
        if map[i].0 == *w {
            return Some(i);
        }
        i = i + 1;
    }
    None
}

/// Sorts the entries by count, descending; the entries themselves are
/// kept (as a multiset). Entries of equal count keep their relative
/// order, since each round removes the first maximum of what remains.
fn sort_by_count_desc(v: &mut Vec<(String, u32)>)
    ensures
        view_pairs(final(v)@).to_multiset() == view_pairs(old(v)@).to_multiset(),
        sorted_desc(view_pairs(final(v)@)),
{
    broadcast use group_to_multiset_ensures;

    let ghost orig = view_pairs(v@);
    let mut out: Vec<(String, u32)> = Vec::new();
    proof {
        assert(view_pairs(out@).to_multiset().add(view_pairs(v@).to_multiset())
            =~= orig.to_multiset());
    }
    while v.len() > 0
        invariant
            view_pairs(out@).to_multiset().add(view_pairs(v@).to_multiset())
                == orig.to_multiset(),
            sorted_desc(view_pairs(out@)),
            forall|a: int, b: int|
                0 <= a < out@.len() && 0 <= b < v@.len() ==> (#[trigger] view_pairs(out@)[a]).1
                    >= (#[trigger] view_pairs(v@)[b]).1,
        decreases v@.len(),
    {
        let mut mi: usize = 0;
        let mut k: usize = 1;
        while k < v.len()
            invariant
                mi < v@.len(),
                k <= v@.len(),
                forall|b: int| 0 <= b < k ==> v@[mi as int].1 >= (#[trigger] v@[b]).1,
            decreases v@.len() - k,
        {
            if v[k].1 > v[mi].1 {
                mi = k;
            }
            k = k + 1;
        }
        let ghost pv = view_pairs(v@);
        let ghost pout = view_pairs(out@);
        let ghost x = pv[mi as int];
        let e = v.remove(mi);
        out.push(e);
        proof {
            assert(view_pairs(v@) =~~= pv.remove(mi as int));
            assert(view_pairs(out@) =~~= pout.push(x));
            assert(pv.contains(x));
            assert(pv.to_multiset().count(x) > 0);
            assert(pout.push(x).to_multiset().add(pv.remove(mi as int).to_multiset())
                =~= pout.to_multiset().add(pv.to_multiset()));
        }
    }
    proof {
        assert(view_pairs(v@).to_multiset() =~= Multiset::<(Seq<char>, u32)>::empty());
        assert(view_pairs(out@).to_multiset().add(Multiset::<(Seq<char>, u32)>::empty())
            =~= view_pairs(out@).to_multiset());
    }
    *v = out;
}

/// The engine: the frequency table of a text and its ranked view,
/// computed once at construction and never changed.
pub struct Analytics {
    /// One (word, count) entry per distinct normalized word, in order
    /// of first encounter.
    pub word_map: Vec<(String, u32)>,
    /// The non-stop-word entries of `word_map`, sorted by count,
    /// descending; equal counts keep their first-encountered order.
    pub sorted_words: Vec<(String, u32)>,
}

impl Analytics {
    /// The frequency table, as sequences of characters.
    pub open spec fn table(&self) -> Seq<(Seq<char>, u32)> {
        view_pairs(self.word_map@)
    }

    /// The ranked view, as sequences of characters.
    pub open spec fn ranked(&self) -> Seq<(Seq<char>, u32)> {
        view_pairs(self.sorted_words@)
    }

    /// Well-formedness: distinct keys with positive counts whose sum
    /// fits a `u32`, and a ranked view that holds exactly the
    /// non-stop-word entries of the table, sorted by count, descending.
    pub open spec fn wf(&self) -> bool {
        &&& unique_keys(self.table())
        &&& forall|i: int| 0 <= i < self.table().len() ==> (#[trigger] self.table()[i]).1 >= 1
        &&& sum_counts(self.table()) <= u32::MAX
        &&& sorted_desc(self.ranked())
        &&& forall|i: int|
            0 <= i < self.ranked().len() ==> !spec_is_stopword((#[trigger] self.ranked()[i]).0)
        &&& self.ranked().to_multiset() == ranked_of(self.table()).to_multiset()
    }

    /// Builds the engine over `content`: splits it into
    /// whitespace-delimited tokens, normalizes each, counts them, and
    /// derives the ranked view.
    ///
    /// The table counts exactly the normalized tokens of `content`,
    /// and the counts sum to the number of tokens. Counts are `u32`,
    /// so the text may hold at most `u32::MAX` characters (it cannot
    /// have more tokens than characters).
    pub fn new(content: &String) -> (result: Analytics)
        requires
            content@.len() <= u32::MAX,
        ensures
            result.wf(),
            counts_match(result.table(), norm_tokens(content@)),
            sum_counts(result.table()) == tokens(content@).len(),
    {
        let chars = chars_of(content);
        let toks = split_tokens(&chars);
        proof {
            lemma_tokens_len(chars@, Seq::empty());
        }
        let ghost nt = norm_tokens(content@);

        let tn = toks.len();
        let mut words: Vec<String> = Vec::new();
        let mut k: usize = 0;
        proof {
            assert(str_views(words@) =~~= nt.take(0));
        }
        while k < tn
            invariant
                k <= tn,
                tn == toks@.len(),
                str_views(words@) == nt.take(k as int),
            decreases tn - k,
        {
            let ghost pw = str_views(words@);
            let w = normalize_token(&toks[k]);
            words.push(w);
            proof {
                assert(nt[k as int] == normalize(views_of(toks@)[k as int]));
                assert(str_views(words@) =~~= pw.push(normalize(toks@[k as int]@)));
                assert(nt.take(k as int + 1) =~~= nt.take(k as int).push(nt[k as int]));
            }
            k = k + 1;
        }
        proof {
            assert(nt.take(tn as int) =~= nt);
        }

        let ghost ws = str_views(words@);
        let m = words.len();
        let mut word_map: Vec<(String, u32)> = Vec::new();
        let mut j: usize = 0;
        proof {
            assert(ws.take(0) =~= Seq::<Seq<char>>::empty());
            assert(view_pairs(word_map@) =~= Seq::<(Seq<char>, u32)>::empty());
        }
        while j < m
            invariant
                j <= m,
                m == words@.len(),
                ws == str_views(words@),
                unique_keys(view_pairs(word_map@)),
                forall|i: int|
                    0 <= i < word_map@.len() ==> (#[trigger] view_pairs(word_map@)[i]).1 >= 1,
                counts_match(view_pairs(word_map@), ws.take(j as int)),
                sum_counts(view_pairs(word_map@)) == j,
            decreases m - j,
        {
            let ghost prev = view_pairs(word_map@);
            let ghost ntj = ws.take(j as int);
            let ghost ntj1 = ws.take(j as int + 1);
            let ghost wj = ws[j as int];
            proof {
                assert(ntj1 =~= ntj.push(wj));
                assert(wj == words@[j as int]@);
            }
            match find_key(&word_map, &words[j]) {
                Some(idx) => {
                    let c = word_map[idx].1;
                    proof {
                        lemma_count_in_le(ntj, prev[idx as int].0);
                        assert(tokens(content@).len() <= content@.len());
                    }
                    word_map[idx].1 = c + 1;
                    proof {
                        let newt = view_pairs(word_map@);
                        assert(prev[idx as int].0 == wj);
                        assert(newt =~~= prev.update(
                            idx as int,
                            (prev[idx as int].0, (c + 1) as u32),
                        ));
                        lemma_sum_update(prev, idx as int, (prev[idx as int].0, (c + 1) as u32));
                        assert forall|i2: int| 0 <= i2 < newt.len() implies (#[trigger] newt[i2]).1
                            == count_in(ntj1, newt[i2].0) by {
                            lemma_count_in_snoc(ntj, wj, newt[i2].0);
                            if i2 != idx {
                                assert(newt[i2] == prev[i2]);
                                assert(prev[i2].0 != wj);
                            }
                        }
                        assert forall|w2: Seq<char>| count_in(ntj1, w2) > 0 implies exists|i2: int|
                            0 <= i2 < newt.len() && (#[trigger] newt[i2]).0 == w2 by {
                            lemma_count_in_snoc(ntj, wj, w2);
                            if w2 == wj {
                                assert(newt[idx as int].0 == w2);
                            } else {
                                let i0 = choose|i0: int|
                                    0 <= i0 < prev.len() && (#[trigger] prev[i0]).0 == w2;
                                assert(newt[i0].0 == w2);
                            }
                        }
                    }
                },
                None => {
                    let w = words[j].clone();
                    word_map.push((w, 1));
                    proof {
                        let newt = view_pairs(word_map@);
                        assert(newt =~~= prev.push((wj, 1u32)));
                        assert(count_in(ntj, wj) == 0) by {
                            if count_in(ntj, wj) > 0 {
                                let i0 = choose|i0: int|
                                    0 <= i0 < prev.len() && (#[trigger] prev[i0]).0 == wj;
                            }
                        }
                        assert(newt.drop_last() =~= prev);
                        assert forall|i2: int| 0 <= i2 < newt.len() implies (#[trigger] newt[i2]).1
                            == count_in(ntj1, newt[i2].0) by {
                            lemma_count_in_snoc(ntj, wj, newt[i2].0);
                            if i2 < prev.len() {
                                assert(newt[i2] == prev[i2]);
                                assert(prev[i2].0 != wj);
                            }
                        }
                        assert forall|w2: Seq<char>| count_in(ntj1, w2) > 0 implies exists|i2: int|
                            0 <= i2 < newt.len() && (#[trigger] newt[i2]).0 == w2 by {
                            lemma_count_in_snoc(ntj, wj, w2);
                            if w2 == wj {
                                assert(newt[prev.len() as int].0 == w2);
                            } else {
                                let i0 = choose|i0: int|
                                    0 <= i0 < prev.len() && (#[trigger] prev[i0]).0 == w2;
                                assert(newt[i0].0 == w2);
                            }
                        }
                    }
                },
            }
            j = j + 1;
        }
        proof {
            assert(ws.take(m as int) =~= ws);
        }

        let rn = word_map.len();
        let mut ranked: Vec<(String, u32)> = Vec::new();
        let mut q: usize = 0;
        proof {
            assert(view_pairs(word_map@).take(0) =~= Seq::<(Seq<char>, u32)>::empty());
            assert(view_pairs(ranked@) =~= Seq::<(Seq<char>, u32)>::empty());
        }
        while q < rn
            invariant
                q <= rn,
                rn == word_map@.len(),
                view_pairs(ranked@) == ranked_of(view_pairs(word_map@).take(q as int)),
            decreases rn - q,
        {
            let ghost tq1 = view_pairs(word_map@).take(q as int + 1);
            proof {
                assert(tq1.drop_last() =~= view_pairs(word_map@).take(q as int));
                assert(tq1.last() == view_pairs(word_map@)[q as int]);
            }
            let sw = is_stopword(&word_map[q].0);
            if !sw {
                let ghost prevr = view_pairs(ranked@);
                let wq = word_map[q].0.clone();
                let cq = word_map[q].1;
                ranked.push((wq, cq));
                proof {
                    assert(view_pairs(ranked@) =~~= prevr.push(
                        (word_map@[q as int].0@, word_map@[q as int].1),
                    ));
                }
            }
            q = q + 1;
        }
        proof {
            assert(view_pairs(word_map@).take(rn as int) =~= view_pairs(word_map@));
        }
        let ghost pre_sort = view_pairs(ranked@);

        sort_by_count_desc(&mut ranked);

        proof {
            broadcast use group_to_multiset_ensures;

            assert forall|i: int| 0 <= i < view_pairs(ranked@).len() implies !spec_is_stopword(
                (#[trigger] view_pairs(ranked@)[i]).0,
            ) by {
                let e = view_pairs(ranked@)[i];
                assert(view_pairs(ranked@).contains(e));
                assert(pre_sort.to_multiset().count(e) > 0);
                assert(pre_sort.contains(e));
                let ghost w = choose|b: int| 0 <= b < pre_sort.len() && pre_sort[b] == e;
                lemma_ranked_of_no_stopword(view_pairs(word_map@));
            }
        }

        let result = Analytics { word_map, sorted_words: ranked };
        result
    }

    /// The occurrence count of `word`, exactly as normalized: the count
    /// of the table entry whose key reads as `word`, or nothing when no
    /// entry does.
    pub fn get_count(&self, word: &String) -> (r: Option<u32>)
        requires
            self.wf(),
        ensures
            match r {
                Some(c) => exists|j: int|
                    0 <= j < self.table().len() && #[trigger] self.table()[j] == (word@, c),
                None => forall|j: int|
                    0 <= j < self.table().len() ==> (#[trigger] self.table()[j]).0 != word@,
            },
    {
        match find_key(&self.word_map, word) {
            Some(j) => {
                let c = self.word_map[j].1;
                proof {
                    assert(self.table()[j as int] == (word@, c));
                }
                Some(c)
            },
            None => None,
        }
    }

    /// The first `amount` ranked entries (all of them when fewer
    /// exist), each with its 1-based rank.
    pub fn get_top_words(&self, amount: u32) -> (r: Vec<(usize, String, u32)>)
        requires
            self.wf(),
        ensures
            r@.len() == vstd::math::min(amount as int, self.ranked().len() as int),
            forall|i: int|
                0 <= i < r@.len() ==> (#[trigger] r@[i]).0 == i + 1 && r@[i].1@
                    == self.ranked()[i].0 && r@[i].2 == self.ranked()[i].1,
    {
        let len = self.sorted_words.len();
        let take_n = if (amount as usize) < len {
            amount as usize
        } else {
            len
        };
        let mut r: Vec<(usize, String, u32)> = Vec::new();
        let mut i: usize = 0;
        while i < take_n
            invariant
                i <= take_n,
                take_n <= self.sorted_words@.len(),
                r@.len() == i,
                forall|k: int|
                    0 <= k < i ==> (#[trigger] r@[k]).0 == k + 1 && r@[k].1@
                        == self.ranked()[k].0 && r@[k].2 == self.ranked()[k].1,
            decreases take_n - i,
        {
            let w = self.sorted_words[i].0.clone();
            let c = self.sorted_words[i].1;
            r.push((i + 1, w, c));
            i = i + 1;
        }
        r
    }

    /// The sum of all counts in the table: the total number of tokens
    /// of the analyzed text, stop words and empty words included.
    pub fn get_total_word_count(&self) -> (r: u32)
        requires
            self.wf(),
        ensures
            r == sum_counts(self.table()),
    {
        let n = self.word_map.len();
        let mut acc: u32 = 0;
        let mut i: usize = 0;
        proof {
            assert(self.table().take(0) =~= Seq::<(Seq<char>, u32)>::empty());
        }
        while i < n
            invariant
                i <= n,
                n == self.word_map@.len(),
                acc == sum_counts(self.table().take(i as int)),
            decreases n - i,
        {
            proof {
                assert(self.table().take(i as int + 1).drop_last() =~= self.table().take(i as int));
                assert(self.table().take(i as int + 1).last() == self.table()[i as int]);
                lemma_sum_take_le(self.table(), i as int + 1);
            }
            let c = self.word_map[i].1;
            acc = acc + c;
            i = i + 1;
        }
        proof {
            assert(self.table().take(n as int) =~= self.table());
        }
        acc
    }

    /// The character count as a checked sum; nothing when the sum
    /// exceeds `usize`.
    fn sum_graphemes(&self) -> (r: Option<usize>)
        ensures
            match r {
                Some(n) => n == char_count_of(self.table()),
                None => char_count_of(self.table()) > usize::MAX,
            },
    {
        let n = self.word_map.len();
        let mut acc: usize = 0;
        let mut i: usize = 0;
        proof {
            assert(self.table().take(0) =~= Seq::<(Seq<char>, u32)>::empty());
        }
        while i < n
            invariant
                i <= n,
                n == self.word_map@.len(),
                acc == char_count_of(self.table().take(i as int)),
            decreases n - i,
        {
            proof {
                assert(self.table().take(i as int + 1).drop_last() =~= self.table().take(i as int));
                assert(self.table().take(i as int + 1).last() == self.table()[i as int]);
            }
            let g = grapheme_len(&self.word_map[i].0);
            let c = self.word_map[i].1;
            match g.checked_mul(c as usize) {
                Some(prod) => {
                    match acc.checked_add(prod) {
                        Some(s) => {
                            acc = s;
                        },
                        None => {
                            proof {
                                lemma_ccount_take_le(self.table(), i as int + 1);
                            }
                            return None;
                        },
                    }
                },
                None => {
                    proof {
                        lemma_ccount_take_le(self.table(), i as int + 1);
                    }
                    return None;
                },
            }
            i = i + 1;
        }
        proof {
            assert(self.table().take(n as int) =~= self.table());
        }
        Some(acc)
    }

    /// The total character count of the analyzed text's normalized
    /// words: for each table entry, the number of extended grapheme
    /// clusters of its word (user-perceived characters, not code
    /// points) times its count.
    pub fn get_character_count(&self) -> (r: usize)
        requires
            self.wf(),
            char_count_of(self.table()) <= usize::MAX,
        ensures
            r == char_count_of(self.table()),
    {
        match self.sum_graphemes() {
            Some(n) => n,
            None => vstd::pervasive::unreached(),
        }
    }

    /// The total character count, or nothing when it exceeds `usize`;
    /// callers that cannot bound the sum use this entry point.
    pub fn try_character_count(&self) -> (r: Option<usize>)
        requires
            self.wf(),
        ensures
            match r {
                Some(n) => n == char_count_of(self.table()) && char_count_of(self.table())
                    <= usize::MAX,
                None => char_count_of(self.table()) > usize::MAX,
            },
    {
        match self.sum_graphemes() {
            Some(_) => Some(self.get_character_count()),
            None => None,
        }
    }
}

/// No entry of the ranked view of any table is a stop word.
pub proof fn lemma_ranked_of_no_stopword(t: Seq<(Seq<char>, u32)>)
    ensures
        forall|i: int|
            0 <= i < ranked_of(t).len() ==> !spec_is_stopword((#[trigger] ranked_of(t)[i]).0),
    decreases t.len(),
{
    if t.len() > 0 {
        lemma_ranked_of_no_stopword(t.drop_last());
        let r = ranked_of(t);
        let rp = ranked_of(t.drop_last());
        assert forall|i: int| 0 <= i < r.len() implies !spec_is_stopword(
            (#[trigger] r[i]).0,
        ) by {
            if spec_is_stopword(t.last().0) || i < r.len() - 1 {
                assert(r[i] == rp[i]);
            } else {
                assert(r[i] == t.last());
            }
        }
    }
}

/// A frequency table with distinct keys and positive counts answers
/// lookups exactly: a word has an entry exactly when it occurs, and
/// that entry carries its occurrence count.
pub proof fn lemma_counts_complete(t: Seq<(Seq<char>, u32)>, words: Seq<Seq<char>>, w: Seq<char>)
    requires
        counts_match(t, words),
        forall|i: int| 0 <= i < t.len() ==> (#[trigger] t[i]).1 >= 1,
    ensures
        (exists|j: int| 0 <= j < t.len() && (#[trigger] t[j]).0 == w) <==> count_in(words, w) > 0,
        forall|j: int|
            0 <= j < t.len() && (#[trigger] t[j]).0 == w ==> t[j].1 == count_in(words, w),
{
}

} // verus!
