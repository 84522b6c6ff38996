//! Laws of ingestion: properties that hold for every text, proved over the
//! specifications that the operations of the bag state.

use crate::bag::{count_of, is_bag, lemma_count_of_sorted, occurrences, total};
use crate::text::{
    has_upper, is_accepted, is_space, is_valid_word, lemma_token_end, lower_of, normalize,
    token_end, tokens, tokens_from, trim, trim_end, trim_start, words_in, words_of,
};
use vstd::prelude::*;

verus! {

proof fn lemma_words_in_len(toks: Seq<Seq<char>>)
    ensures
        words_in(toks).len() == toks.filter(|t: Seq<char>| is_accepted(t)).len(),
    decreases toks.len(),
{
    if toks.len() > 0 {
        let rest = toks.drop_first();
        lemma_words_in_len(rest);
        assert(toks =~= seq![toks[0]] + rest);
        rest.lemma_filter_prepend(toks[0], |t: Seq<char>| is_accepted(t));
    }
}

/// The number of words that ingesting `s` counts is the number of its
/// whitespace-separated tokens that, trimmed of leading and trailing
/// non-letters, are non-empty and made of letters only.
pub proof fn law_counted_words_are_accepted_tokens(s: Seq<char>)
    ensures
        words_of(s).len() == tokens(s).filter(|t: Seq<char>| is_accepted(t)).len(),
{
    lemma_words_in_len(tokens(s));
}

proof fn lemma_words_in_concat(x: Seq<Seq<char>>, y: Seq<Seq<char>>)
    ensures
        words_in(x + y) == words_in(x) + words_in(y),
    decreases x.len(),
{
    if x.len() == 0 {
        assert(x + y =~= y);
    } else {
        assert((x + y).drop_first() =~= x.drop_first() + y);
        lemma_words_in_concat(x.drop_first(), y);
        assert((x + y)[0] == x[0]);
        if is_accepted(x[0]) {
            assert(words_in(x + y) =~= words_in(x) + words_in(y));
        }
    }
}

proof fn lemma_token_end_shift(p: Seq<char>, q: Seq<char>, j: int)
    requires
        0 <= j <= q.len(),
    ensures
        token_end(p + q, p.len() + j) == p.len() + token_end(q, j),
    decreases q.len() - j,
{
    if j < q.len() {
        assert((p + q)[p.len() + j] == q[j]);
        lemma_token_end_shift(p, q, j + 1);
    }
}

proof fn lemma_tokens_from_shift(p: Seq<char>, q: Seq<char>, j: int)
    requires
        0 <= j <= q.len(),
    ensures
        tokens_from(p + q, p.len() + j) == tokens_from(q, j),
    decreases q.len() - j,
{
    let s = p + q;
    if j < q.len() {
        assert(s[p.len() + j] == q[j]);
        if is_space(q[j]) {
            lemma_tokens_from_shift(p, q, j + 1);
        } else {
            lemma_token_end(q, j + 1);
            lemma_token_end_shift(p, q, j);
            let e = token_end(q, j);
            assert(s.subrange(p.len() + j, p.len() + e) =~= q.subrange(j, e));
            lemma_tokens_from_shift(p, q, e);
        }
    }
}

proof fn lemma_token_end_prefix(a: Seq<char>, r: Seq<char>, i: int)
    requires
        0 <= i <= a.len(),
        r.len() > 0,
        is_space(r[0]),
    ensures
        token_end(a + r, i) == token_end(a, i),
    decreases a.len() - i,
{
    if i < a.len() {
        assert((a + r)[i] == a[i]);
        lemma_token_end_prefix(a, r, i + 1);
    } else {
        assert((a + r)[i] == r[0]);
    }
}

proof fn lemma_tokens_from_split(a: Seq<char>, r: Seq<char>, b: Seq<char>, i: int)
    requires
        0 <= i <= a.len(),
        r.len() == 1,
        is_space(r[0]),
    ensures
        tokens_from(a + r + b, i) == tokens_from(a, i) + tokens_from(b, 0),
    decreases a.len() - i,
{
    let s = a + r + b;
    assert(s =~= a + (r + b));
    if i == a.len() {
        assert(s[i] == r[0]);
        assert(s =~= (a + r) + b);
        lemma_tokens_from_shift(a + r, b, 0);
        assert(tokens_from(a, i) =~= Seq::<Seq<char>>::empty());
        assert(tokens_from(a, i) + tokens_from(b, 0) =~= tokens_from(b, 0));
    } else {
        assert(s[i] == a[i]);
        if is_space(a[i]) {
            lemma_tokens_from_split(a, r, b, i + 1);
        } else {
            lemma_token_end(a, i + 1);
            lemma_token_end_prefix(a, r + b, i);
            let e = token_end(a, i);
            assert(s.subrange(i, e) =~= a.subrange(i, e));
            lemma_tokens_from_split(a, r, b, e);
            assert(tokens_from(s, i) =~= tokens_from(a, i) + tokens_from(b, 0));
        }
    }
}

/// Ingesting `a` and then `b` counts the same words as ingesting `a` and
/// `b` joined by one whitespace character: the words of the joined text are
/// those of `a` followed by those of `b`, so each word occurs as often.
pub proof fn law_chaining(a: Seq<char>, b: Seq<char>, sep: char)
    requires
        is_space(sep),
    ensures
        words_of(a + seq![sep] + b) == words_of(a) + words_of(b),
        forall|k: Seq<char>|
            #[trigger] occurrences(words_of(a + seq![sep] + b), k) == occurrences(words_of(a), k)
                + occurrences(words_of(b), k),
{
    lemma_tokens_from_split(a, seq![sep], b, 0);
    lemma_words_in_concat(tokens(a), tokens(b));
    assert forall|k: Seq<char>|
        #[trigger] occurrences(words_of(a + seq![sep] + b), k) == occurrences(words_of(a), k)
            + occurrences(words_of(b), k) by {
        lemma_occurrences_concat(words_of(a), words_of(b), k);
    }
}

proof fn lemma_occurrences_concat(x: Seq<Seq<char>>, y: Seq<Seq<char>>, k: Seq<char>)
    ensures
        occurrences(x + y, k) == occurrences(x, k) + occurrences(y, k),
    decreases y.len(),
{
    if y.len() == 0 {
        assert(x + y =~= x);
    } else {
        assert((x + y).drop_last() =~= x + y.drop_last());
        lemma_occurrences_concat(x, y.drop_last(), k);
    }
}

/// A text made of one word, with no whitespace in it, counts that word in
/// its normal form once. So a word that holds an uppercase letter and its
/// lowercase form, where that form is itself a word without uppercase
/// letters, add one occurrence of the same word.
pub proof fn law_case_variants_share_a_word(u: Seq<char>, w: Seq<char>)
    requires
        is_valid_word(u),
        has_upper(u),
        forall|i: int| 0 <= i < u.len() ==> !is_space(#[trigger] u[i]),
        w == lower_of(u),
        is_valid_word(w),
        !has_upper(w),
        forall|i: int| 0 <= i < w.len() ==> !is_space(#[trigger] w[i]),
    ensures
        words_of(u) == seq![w],
        words_of(w) == seq![w],
{
    lemma_single_word(u);
    lemma_single_word(w);
}

proof fn lemma_single_word(u: Seq<char>)
    requires
        is_valid_word(u),
        forall|i: int| 0 <= i < u.len() ==> !is_space(#[trigger] u[i]),
    ensures
        words_of(u) == seq![normalize(u)],
{
    lemma_token_end(u, 0);
    let e = token_end(u, 0);
    if e < u.len() {
        assert(!is_space(u[e]));
    }
    assert(e == u.len());
    assert(u.subrange(0, u.len() as int) =~= u);
    assert(tokens_from(u, u.len() as int) =~= Seq::<Seq<char>>::empty());
    assert(tokens(u) =~= seq![u]);
    assert(trim_start(u) == u);
    assert(trim_end(u) == u);
    assert(trim(u) == u);
    assert(seq![u].drop_first() =~= Seq::<Seq<char>>::empty());
    assert(is_accepted(seq![u][0]));
    assert(words_in(seq![u]) =~= seq![normalize(u)] + words_in(Seq::<Seq<char>>::empty()));
    assert(words_of(u) =~= seq![normalize(u)]);
}

proof fn lemma_len_within_total(s: Seq<(Seq<char>, nat)>)
    requires
        forall|i: int| 0 <= i < s.len() ==> #[trigger] s[i].1 >= 1,
    ensures
        s.len() <= total(s),
        s.len() == total(s) <==> forall|i: int| 0 <= i < s.len() ==> #[trigger] s[i].1 == 1,
    decreases s.len(),
{
    if s.len() > 0 {
        let d = s.drop_last();
        assert forall|i: int| 0 <= i < d.len() implies #[trigger] d[i].1 >= 1 by {
            assert(d[i] == s[i]);
        }
        lemma_len_within_total(d);
        if forall|i: int| 0 <= i < s.len() ==> #[trigger] s[i].1 == 1 {
            assert forall|i: int| 0 <= i < d.len() implies #[trigger] d[i].1 == 1 by {
                assert(d[i] == s[i]);
            }
        }
        if forall|i: int| 0 <= i < d.len() ==> #[trigger] d[i].1 == 1 {
            if s.last().1 == 1 {
                assert forall|i: int| 0 <= i < s.len() implies #[trigger] s[i].1 == 1 by {
                    if i < d.len() {
                        assert(d[i] == s[i]);
                    }
                }
            }
        }
    }
}

proof fn lemma_occurrences_once(ws: Seq<Seq<char>>, k: Seq<char>)
    ensures
        occurrences(ws, k) >= 1 <==> exists|a: int| 0 <= a < ws.len() && #[trigger] ws[a] == k,
    decreases ws.len(),
{
    if ws.len() > 0 {
        let d = ws.drop_last();
        lemma_occurrences_once(d, k);
        if exists|a: int| 0 <= a < ws.len() && #[trigger] ws[a] == k {
            let a = choose|a: int| 0 <= a < ws.len() && #[trigger] ws[a] == k;
            if a < d.len() {
                assert(d[a] == k);
            }
        }
        if occurrences(d, k) >= 1 {
            let a = choose|a: int| 0 <= a < d.len() && #[trigger] d[a] == k;
            assert(ws[a] == k);
        }
        if ws.last() == k {
            assert(ws[ws.len() - 1] == k);
        }
    }
}

proof fn lemma_occurrences_twice(ws: Seq<Seq<char>>, k: Seq<char>)
    ensures
        occurrences(ws, k) >= 2 <==> exists|a: int, b: int|
            0 <= a < b < ws.len() && #[trigger] ws[a] == k && #[trigger] ws[b] == k,
    decreases ws.len(),
{
    if ws.len() > 0 {
        let d = ws.drop_last();
        let n = ws.len() - 1;
        lemma_occurrences_twice(d, k);
        lemma_occurrences_once(d, k);
        if exists|a: int, b: int|
            0 <= a < b < ws.len() && #[trigger] ws[a] == k && #[trigger] ws[b] == k {
            let (a, b) = choose|a: int, b: int|
                0 <= a < b < ws.len() && #[trigger] ws[a] == k && #[trigger] ws[b] == k;
            assert(d[a] == k);
            if b < n {
                assert(d[b] == k);
            }
        }
        if occurrences(d, k) >= 2 {
            let (a, b) = choose|a: int, b: int|
                0 <= a < b < d.len() && #[trigger] d[a] == k && #[trigger] d[b] == k;
            assert(ws[a] == k && ws[b] == k);
        }
        if ws.last() == k && occurrences(d, k) >= 1 {
            let a = choose|a: int| 0 <= a < d.len() && #[trigger] d[a] == k;
            assert(ws[a] == k && ws[n] == k);
        }
    }
}

/// A bag never holds more distinct words than occurrences; it holds as many
/// exactly when every word it counted came once. Stated of a bag whose
/// counts are those of the sequence `ws` of counted words.
pub proof fn law_distinct_words_within_count(s: Seq<(Seq<char>, nat)>, ws: Seq<Seq<char>>)
    requires
        is_bag(s),
        forall|k: Seq<char>| #[trigger] count_of(s, k) == occurrences(ws, k),
        total(s) == ws.len(),
    ensures
        s.len() <= total(s),
        s.len() == total(s) <==> ws.no_duplicates(),
{
    lemma_len_within_total(s);
    if s.len() == total(s) {
        assert forall|a: int, b: int|
            0 <= a < ws.len() && 0 <= b < ws.len() && a != b implies ws[a] != ws[b] by {
            if ws[a] == ws[b] {
                let k = ws[a];
                lemma_occurrences_twice(ws, k);
                if a < b {
                    assert(ws[a] == k && ws[b] == k);
                } else {
                    assert(ws[b] == k && ws[a] == k);
                }
                assert(count_of(s, k) >= 2);
                lemma_count_of_sorted(s, k);
                let i = choose|i: int| 0 <= i < s.len() && #[trigger] s[i].0 == k;
                assert(s[i].1 == 1);
            }
        }
    }
    if ws.no_duplicates() {
        assert forall|i: int| 0 <= i < s.len() implies #[trigger] s[i].1 == 1 by {
            let k = s[i].0;
            lemma_count_of_sorted(s, k);
            assert(count_of(s, k) == s[i].1);
            lemma_occurrences_twice(ws, k);
            if s[i].1 >= 2 {
                let (a, b) = choose|a: int, b: int|
                    0 <= a < b < ws.len() && #[trigger] ws[a] == k && #[trigger] ws[b] == k;
                assert(ws[a] == ws[b]);
            }
        }
    }
}

} // verus!
