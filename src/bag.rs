//! The bag: each distinct word with the number of times it occurred, kept
//! in lexicographic order of the words.

use crate::order::{compare, lemma_lex_irreflexive, lemma_lex_total, lemma_lex_transitive, lex_lt};
use crate::text::{
    chars_of, has_upper, held_as_found, is_accepted, is_lowered, is_valid_word, normalize, tokens,
    trim, views, words_in, words_in_text, words_of, Word,
};
use std::cmp::Ordering;
use vstd::prelude::*;

verus! {

/// Whether the words of `s` are in strictly increasing lexicographic order,
/// hence distinct.
pub open spec fn keys_sorted(s: Seq<(Seq<char>, nat)>) -> bool {
    forall|i: int, j: int| 0 <= i < j < s.len() ==> lex_lt(#[trigger] s[i].0, #[trigger] s[j].0)
}

/// Whether `k` is the counted form of some word.
pub open spec fn is_key(k: Seq<char>) -> bool {
    exists|w: Seq<char>| is_valid_word(w) && #[trigger] normalize(w) == k
}

/// What a bag holds: words in increasing order, each the counted form of a
/// word, each with a count of at least one.
pub open spec fn is_bag(s: Seq<(Seq<char>, nat)>) -> bool {
    &&& keys_sorted(s)
    &&& forall|i: int| 0 <= i < s.len() ==> #[trigger] s[i].1 >= 1 && is_key(s[i].0)
}

/// The count that `s` gives the word `k`: 0 where `k` is absent.
pub open spec fn count_of(s: Seq<(Seq<char>, nat)>, k: Seq<char>) -> nat
    decreases s.len(),
{
    if s.len() == 0 {
        0
    } else {
        count_of(s.drop_last(), k) + if s.last().0 == k {
            s.last().1
        } else {
            0
        }
    }
}

/// The sum of the counts of `s`.
pub open spec fn total(s: Seq<(Seq<char>, nat)>) -> nat
    decreases s.len(),
{
    if s.len() == 0 {
        0
    } else {
        total(s.drop_last()) + s.last().1
    }
}

/// The number of times `k` occurs in `ws`.
pub open spec fn occurrences(ws: Seq<Seq<char>>, k: Seq<char>) -> nat
    decreases ws.len(),
{
    if ws.len() == 0 {
        0
    } else {
        occurrences(ws.drop_last(), k) + if ws.last() == k {
            1nat
        } else {
            0
        }
    }
}

proof fn lemma_update(s: Seq<(Seq<char>, nat)>, p: int, k: Seq<char>, c: nat)
    requires
        0 <= p < s.len(),
        s[p] == (k, c),
    ensures
        forall|x: Seq<char>|
            #[trigger] count_of(s.update(p, (k, c + 1)), x) == count_of(s, x) + if x == k {
                1nat
            } else {
                0
            },
        total(s.update(p, (k, c + 1))) == total(s) + 1,
    decreases s.len(),
{
    let t = s.update(p, (k, (c + 1) as nat));
    if p == s.len() - 1 {
        assert(t.drop_last() =~= s.drop_last());
    } else {
        assert(t.drop_last() =~= s.drop_last().update(p, (k, (c + 1) as nat)));
        lemma_update(s.drop_last(), p, k, c);
    }
    assert forall|x: Seq<char>|
        #[trigger] count_of(t, x) == count_of(s, x) + if x == k {
            1nat
        } else {
            0
        } by {
        assert(count_of(t, x) == count_of(t.drop_last(), x) + if t.last().0 == x {
            t.last().1
        } else {
            0
        });
    }
}

proof fn lemma_insert(s: Seq<(Seq<char>, nat)>, p: int, k: Seq<char>)
    requires
        0 <= p <= s.len(),
    ensures
        forall|x: Seq<char>|
            #[trigger] count_of(s.insert(p, (k, 1nat)), x) == count_of(s, x) + if x == k {
                1nat
            } else {
                0
            },
        total(s.insert(p, (k, 1nat))) == total(s) + 1,
    decreases s.len(),
{
    let t = s.insert(p, (k, 1nat));
    if p == s.len() {
        assert(t.drop_last() =~= s);
    } else {
        assert(t.drop_last() =~= s.drop_last().insert(p, (k, 1nat)));
        lemma_insert(s.drop_last(), p, k);
    }
    assert forall|x: Seq<char>|
        #[trigger] count_of(t, x) == count_of(s, x) + if x == k {
            1nat
        } else {
            0
        } by {
        assert(count_of(t, x) == count_of(t.drop_last(), x) + if t.last().0 == x {
            t.last().1
        } else {
            0
        });
    }
}

/// In a bag with distinct words, the count of `k` is that of its entry, or
/// 0 where it has none.
pub proof fn lemma_count_of_sorted(s: Seq<(Seq<char>, nat)>, k: Seq<char>)
    requires
        keys_sorted(s),
    ensures
        forall|i: int| 0 <= i < s.len() && #[trigger] s[i].0 == k ==> count_of(s, k) == s[i].1,
        (forall|i: int| 0 <= i < s.len() ==> #[trigger] s[i].0 != k) ==> count_of(s, k) == 0,
    decreases s.len(),
{
    if s.len() > 0 {
        let d = s.drop_last();
        lemma_count_of_sorted(d, k);
        assert forall|i: int| 0 <= i < d.len() implies #[trigger] d[i].0 != s.last().0 by {
            assert(lex_lt(s[i].0, s[s.len() - 1].0));
            lemma_lex_irreflexive(s[i].0);
        }
        assert forall|i: int| 0 <= i < s.len() && #[trigger] s[i].0 == k implies count_of(s, k)
            == s[i].1 by {
            if i < s.len() - 1 {
                assert(d[i].0 == k);
            }
        }
        if forall|i: int| 0 <= i < s.len() ==> #[trigger] s[i].0 != k {
            assert(s[s.len() - 1].0 != k);
        }
    }
}

proof fn lemma_insert_keeps_bag(s: Seq<(Seq<char>, nat)>, p: int, k: Seq<char>)
    requires
        is_bag(s),
        0 <= p <= s.len(),
        forall|i: int| 0 <= i < p ==> lex_lt(#[trigger] s[i].0, k),
        forall|i: int| p <= i < s.len() ==> !lex_lt(#[trigger] s[i].0, k),
        p < s.len() ==> s[p].0 != k,
        is_key(k),
    ensures
        is_bag(s.insert(p, (k, 1nat))),
{
    let t = s.insert(p, (k, 1nat));
    assert forall|i: int, j: int| 0 <= i < j < t.len() implies lex_lt(
        #[trigger] t[i].0,
        #[trigger] t[j].0,
    ) by {
        if j == p {
        } else if i == p {
            lemma_lex_total(s[p].0, k);
            if j > p + 1 {
                lemma_lex_transitive(k, s[p].0, s[j - 1].0);
            }
        } else if i < p && j > p {
            lemma_lex_total(s[p].0, k);
            if j > p + 1 {
                lemma_lex_transitive(k, s[p].0, s[j - 1].0);
            }
            lemma_lex_transitive(s[i].0, k, s[j - 1].0);
        } else if i < p {
            assert(t[i] == s[i] && t[j] == s[j]);
        } else {
            assert(t[i] == s[i - 1] && t[j] == s[j - 1]);
        }
    }
    assert forall|i: int| 0 <= i < t.len() implies #[trigger] t[i].1 >= 1 && is_key(t[i].0) by {
        if i > p {
            assert(t[i] == s[i - 1]);
        }
    }
}

proof fn lemma_entry_within_total(s: Seq<(Seq<char>, nat)>, i: int)
    requires
        0 <= i < s.len(),
    ensures
        s[i].1 <= total(s),
    decreases s.len(),
{
    if i < s.len() - 1 {
        lemma_entry_within_total(s.drop_last(), i);
    }
}

proof fn lemma_total_prefix(s: Seq<(Seq<char>, nat)>, i: int)
    requires
        0 <= i <= s.len(),
    ensures
        total(s.take(i)) <= total(s),
    decreases s.len() - i,
{
    if i < s.len() {
        assert(s.take(i + 1).drop_last() =~= s.take(i));
        lemma_total_prefix(s, i + 1);
    } else {
        assert(s.take(i) =~= s);
    }
}

proof fn lemma_words_are_keys(toks: Seq<Seq<char>>)
    ensures
        forall|i: int| 0 <= i < words_in(toks).len() ==> is_key(#[trigger] words_in(toks)[i]),
    decreases toks.len(),
{
    if toks.len() > 0 {
        let rest = words_in(toks.drop_first());
        lemma_words_are_keys(toks.drop_first());
        if is_accepted(toks[0]) {
            let w = trim(toks[0]);
            assert(is_key(normalize(w)));
            assert forall|i: int| 0 <= i < words_in(toks).len() implies is_key(
                #[trigger] words_in(toks)[i],
            ) by {
                if i > 0 {
                    assert(words_in(toks)[i] == rest[i - 1]);
                }
            }
        }
    }
}

/// A bag of words: each distinct word of the ingested texts with the number
/// of times it occurred. A word is kept borrowed from the text it came from
/// unless it had to be lowercased.
#[derive(Debug, Clone)]
pub struct Bbow<'a> {
    words: Vec<Word<'a>>,
    counts: Vec<usize>,
}

impl<'a> View for Bbow<'a> {
    type V = Seq<(Seq<char>, nat)>;

    /// The words with their counts, in increasing order of the words.
    closed spec fn view(&self) -> Seq<(Seq<char>, nat)> {
        Seq::new(self.words.len() as nat, |i: int| (self.words@[i]@, self.counts@[i] as nat))
    }
}

impl<'a> Bbow<'a> {
    pub closed spec fn wf(&self) -> bool {
        &&& self.words.len() == self.counts.len()
        &&& is_bag(self@)
        &&& total(self@) <= usize::MAX
        &&& forall|i: int| 0 <= i < self.words.len() ==> held_as_found(#[trigger] self.words@[i])
    }

    /// An empty bag.
    pub fn new() -> (r: Self)
        ensures
            r.wf(),
            r@ == Seq::<(Seq<char>, nat)>::empty(),
    {
        let r = Bbow { words: Vec::new(), counts: Vec::new() };
        assert(r@ =~= Seq::<(Seq<char>, nat)>::empty());
        r
    }

    /// Where `w` stands or would stand: the number of words before it, and
    /// whether the word there is `w`.
    fn find(&self, w: &Vec<char>) -> (r: (usize, bool))
        requires
            self.wf(),
        ensures
            r.0 <= self@.len(),
            forall|i: int| 0 <= i < r.0 ==> lex_lt(#[trigger] self@[i].0, w@),
            forall|i: int| r.0 <= i < self@.len() ==> !lex_lt(#[trigger] self@[i].0, w@),
            r.1 == (r.0 < self@.len() && self@[r.0 as int].0 == w@),
    {
        let ghost s = self@;
        let mut lo: usize = 0;
        let mut hi: usize = self.words.len();
        while lo < hi
            invariant
                s == self@,
                self.wf(),
                lo <= hi <= s.len(),
                forall|i: int| 0 <= i < lo ==> lex_lt(#[trigger] s[i].0, w@),
                forall|i: int| hi <= i < s.len() ==> !lex_lt(#[trigger] s[i].0, w@),
            decreases hi - lo,
        {
            let mid = lo + (hi - lo) / 2;
            let key = chars_of(self.words[mid].as_str());
            assert(key@ == s[mid as int].0);
            match compare(&key, w) {
                Ordering::Less => {
                    assert forall|i: int| 0 <= i <= mid implies lex_lt(#[trigger] s[i].0, w@) by {
                        if i < mid {
                            lemma_lex_transitive(s[i].0, s[mid as int].0, w@);
                        }
                    }
                    lo = mid + 1;
                },
                _ => {
                    assert forall|i: int| mid <= i < s.len() implies !lex_lt(
                        #[trigger] s[i].0,
                        w@,
                    ) by {
                        if i > mid && lex_lt(s[i].0, w@) {
                            lemma_lex_transitive(s[mid as int].0, s[i].0, w@);
                        }
                    }
                    hi = mid;
                },
            }
        }
        if lo < self.words.len() {
            let key = chars_of(self.words[lo].as_str());
            let same = match compare(&key, w) {
                Ordering::Equal => true,
                _ => false,
            };
            (lo, same)
        } else {
            (lo, false)
        }
    }

    /// Counts one more occurrence of `w`.
    fn add_word(&mut self, w: Word<'a>)
        requires
            old(self).wf(),
            total(old(self)@) < usize::MAX,
            is_key(w@),
            held_as_found(w),
        ensures
            final(self).wf(),
            forall|x: Seq<char>|
                #[trigger] count_of(final(self)@, x) == count_of(old(self)@, x) + if x == w@ {
                    1nat
                } else {
                    0
                },
            total(final(self)@) == total(old(self)@) + 1,
    {
        let ghost s = self@;
        let key = chars_of(w.as_str());
        let (p, found) = self.find(&key);
        if found {
            proof {
                lemma_count_of_sorted(s, w@);
                lemma_update(s, p as int, w@, s[p as int].1);
                lemma_entry_within_total(s, p as int);
            }
            let c = self.counts[p];
            self.counts.set(p, c + 1);
            assert(forall|i: int|
                0 <= i < self.words.len() ==> held_as_found(#[trigger] self.words@[i]));
            assert(self@ =~= s.update(p as int, (w@, (s[p as int].1 + 1) as nat)));
        } else {
            proof {
                lemma_insert(s, p as int, w@);
            }
            let ghost k = w@;
            let ghost before = self.words@;
            let ghost held = w;
            self.words.insert(p, w);
            assert(self.words@ == before.insert(p as int, held));
            assert forall|i: int| 0 <= i < self.words.len() implies held_as_found(
                #[trigger] self.words@[i],
            ) by {
                if i > p {
                    assert(self.words@[i] == before[i - 1]);
                }
            }
            self.counts.insert(p, 1);
            let ghost t = s.insert(p as int, (k, 1nat));
            assert(self@ =~= t);
            proof {
                lemma_insert_keeps_bag(s, p as int, k);
            }
        }
    }

    /// Adds the words of `target` to the bag, counting each occurrence, and
    /// returns the bag, so that calls can be chained over several texts.
    /// Counts are `usize`: the total after the call, which grows by at most
    /// one per character of `target`, must fit.
    pub fn extend_from_text(self, target: &'a str) -> (r: Self)
        requires
            self.wf(),
            total(self@) + target@.len() <= usize::MAX,
        ensures
            r.wf(),
            is_bag(r@),
            forall|k: Seq<char>|
                #[trigger] count_of(r@, k) == count_of(self@, k) + occurrences(words_of(target@), k),
            total(r@) == total(self@) + words_of(target@).len(),
            total(r@) == total(self@) + tokens(target@).filter(|t: Seq<char>| is_accepted(t)).len(),
    {
        proof {
            crate::laws::law_counted_words_are_accepted_tokens(target@);
        }
        let mut bag = self;
        let ws = words_in_text(target);
        proof {
            lemma_words_are_keys(tokens(target@));
        }
        let ghost all = words_of(target@);
        let ghost found = ws@;
        assert(all.take(0) =~= Seq::<Seq<char>>::empty());
        for w in it: ws.into_iter()
            invariant
                bag.wf(),
                it.seq() == found,
                views(found) == all,
                all.len() <= target@.len(),
                forall|i: int| 0 <= i < found.len() ==> held_as_found(#[trigger] found[i]),
                forall|i: int| 0 <= i < all.len() ==> is_key(#[trigger] all[i]),
                total(bag@) == total(self@) + it.index(),
                total(self@) + target@.len() <= usize::MAX,
                forall|k: Seq<char>|
                    #[trigger] count_of(bag@, k) == count_of(self@, k) + occurrences(
                        all.take(it.index() as int),
                        k,
                    ),
        {
            let ghost i = it.index() as int;
            assert(w == found[i]);
            assert(views(found)[i] == found[i]@);
            assert(all.take(i + 1).drop_last() =~= all.take(i));
            bag.add_word(w);
        }
        assert(all.take(all.len() as int) =~= all);
        bag
    }

    /// The number of occurrences of `keyword` counted in the bag; 0 for a
    /// keyword that is not in the counted form (lowercase, no punctuation).
    pub fn match_count(&self, keyword: &str) -> (r: usize)
        requires
            self.wf(),
        ensures
            r == count_of(self@, keyword@),
    {
        let key = chars_of(keyword);
        let (p, found) = self.find(&key);
        proof {
            lemma_count_of_sorted(self@, keyword@);
            lemma_lex_irreflexive(keyword@);
        }
        if found {
            self.counts[p]
        } else {
            assert forall|i: int| 0 <= i < self@.len() implies #[trigger] self@[i].0 != keyword@ by {
                if i >= p && self@[i].0 == keyword@ {
                    if i > p {
                        assert(lex_lt(self@[p as int].0, self@[i].0));
                    }
                    lemma_lex_total(self@[p as int].0, keyword@);
                }
            }
            0
        }
    }

    /// The distinct words of the bag, in lexicographic order.
    pub fn words(&self) -> (r: Vec<&str>)
        requires
            self.wf(),
        ensures
            r.len() == self@.len(),
            forall|i: int| 0 <= i < r.len() ==> (#[trigger] r@[i])@ == self@[i].0,
            forall|i: int, j: int| 0 <= i < j < r.len() ==> lex_lt(#[trigger] r@[i]@, #[trigger] r@[j]@),
    {
        let mut r: Vec<&str> = Vec::new();
        let mut i: usize = 0;
        while i < self.words.len()
            invariant
                self.wf(),
                i <= self@.len(),
                r.len() == i,
                forall|k: int| 0 <= k < i ==> (#[trigger] r@[k])@ == self@[k].0,
            decreases self@.len() - i,
        {
            r.push(self.words[i].as_str());
            i = i + 1;
        }
        r
    }

    /// The distinct words of the bag in lexicographic order, each with
    /// whether it is borrowed from an ingested text (`true`) or held as an
    /// owned lowercase copy (`false`).
    pub fn word_origins(&self) -> (r: Vec<(&str, bool)>)
        requires
            self.wf(),
        ensures
            r.len() == self@.len(),
            forall|i: int| 0 <= i < r.len() ==> (#[trigger] r@[i]).0@ == self@[i].0,
            forall|i: int|
                0 <= i < r.len() ==> if (#[trigger] r@[i]).1 {
                    is_valid_word(self@[i].0) && !has_upper(self@[i].0)
                } else {
                    is_lowered(self@[i].0)
                },
    {
        let mut r: Vec<(&str, bool)> = Vec::new();
        let mut i: usize = 0;
        while i < self.words.len()
            invariant
                self.wf(),
                i <= self@.len(),
                r.len() == i,
                forall|k: int| 0 <= k < i ==> (#[trigger] r@[k]).0@ == self@[k].0,
                forall|k: int|
                    0 <= k < i ==> if (#[trigger] r@[k]).1 {
                        is_valid_word(self@[k].0) && !has_upper(self@[k].0)
                    } else {
                        is_lowered(self@[k].0)
                    },
            decreases self@.len() - i,
        {
            let w = &self.words[i];
            assert(held_as_found(self.words@[i as int]));
            r.push((w.as_str(), w.is_borrowed()));
            i = i + 1;
        }
        r
    }

    /// The number of word occurrences counted, repeats included.
    pub fn count(&self) -> (r: usize)
        requires
            self.wf(),
        ensures
            r == total(self@),
    {
        let ghost s = self@;
        let mut sum: usize = 0;
        let mut i: usize = 0;
        assert(s.take(0) =~= Seq::<(Seq<char>, nat)>::empty());
        while i < self.counts.len()
            invariant
                s == self@,
                self.wf(),
                i <= s.len(),
                sum == total(s.take(i as int)),
            decreases s.len() - i,
        {
            proof {
                assert(s.take(i + 1).drop_last() =~= s.take(i as int));
                lemma_total_prefix(s, i + 1);
            }
            sum = sum + self.counts[i];
            i = i + 1;
        }
        assert(s.take(i as int) =~= s);
        sum
    }

    /// The number of distinct words in the bag.
    pub fn len(&self) -> (r: usize)
        requires
            self.wf(),
        ensures
            r == self@.len(),
    {
        self.words.len()
    }

    /// Whether the bag holds no word.
    pub fn is_empty(&self) -> (r: bool)
        requires
            self.wf(),
        ensures
            r == (self@.len() == 0),
    {
        self.words.len() == 0
    }
}

impl<'a> Default for Bbow<'a> {
    fn default() -> (r: Self)
        ensures
            r.wf(),
            r@ == Seq::<(Seq<char>, nat)>::empty(),
    {
        Bbow::new()
    }
}

} // verus!
