//! Characters, tokens and words: the rules that decide which spans of a text
//! count as words, and the form in which a word is kept.

use vstd::prelude::*;

verus! {

/// Whether `c` has the Unicode `Alphabetic` property (see `letter`).
pub uninterp spec fn is_letter(c: char) -> bool;

/// Whether `c` has the Unicode `Uppercase` property (see `upper`).
pub uninterp spec fn is_upper(c: char) -> bool;

/// The lowercase mapping of a string (see `lowercase`).
pub uninterp spec fn lower_of(s: Seq<char>) -> Seq<char>;

/// Relies on `char::is_alphabetic`: whether `c` is a letter.
#[verifier::external_body]
fn letter(c: char) -> (r: bool)
    ensures
        r == is_letter(c),
{
    c.is_alphabetic()
}

/// Relies on `char::is_uppercase`: whether `c` is an uppercase letter.
#[verifier::external_body]
fn upper(c: char) -> (r: bool)
    ensures
        r == is_upper(c),
{
    c.is_uppercase()
}

/// Relies on `str::to_lowercase`: the lowercase form of `s`, which depends
/// on the characters of `s` alone.
#[verifier::external_body]
fn lowercase(s: &str) -> (r: String)
    ensures
        r@ == lower_of(s@),
{
    s.to_lowercase()
}

/// The Unicode `White_Space` property, the class that separates tokens.
pub open spec fn is_space(c: char) -> bool {
    let u = c as u32;
    (0x09 <= u <= 0x0d) || u == 0x20 || u == 0x85 || u == 0xa0 || u == 0x1680 || (0x2000 <= u
        <= 0x200a) || u == 0x2028 || u == 0x2029 || u == 0x202f || u == 0x205f || u == 0x3000
}

/// Whether `c` separates tokens.
pub fn is_space_char(c: char) -> (r: bool)
    ensures
        r == is_space(c),
{
    let u = c as u32;
    (0x09 <= u && u <= 0x0d) || u == 0x20 || u == 0x85 || u == 0xa0 || u == 0x1680 || (0x2000
        <= u && u <= 0x200a) || u == 0x2028 || u == 0x2029 || u == 0x202f || u == 0x205f || u
        == 0x3000
}

/// The index just past the run of non-whitespace characters of `s` that
/// starts at `i`.
pub open spec fn token_end(s: Seq<char>, i: int) -> int
    decreases s.len() - i,
{
    if i >= s.len() || is_space(s[i]) {
        i
    } else {
        token_end(s, i + 1)
    }
}

pub proof fn lemma_token_end(s: Seq<char>, i: int)
    requires
        0 <= i <= s.len(),
    ensures
        i <= token_end(s, i) <= s.len(),
        forall|k: int| i <= k < token_end(s, i) ==> !is_space(#[trigger] s[k]),
        token_end(s, i) < s.len() ==> is_space(s[token_end(s, i)]),
    decreases s.len() - i,
{
    if i < s.len() && !is_space(s[i]) {
        lemma_token_end(s, i + 1);
    }
}

/// The tokens of `s` from index `i` on: the maximal runs of non-whitespace
/// characters, in order.
pub open spec fn tokens_from(s: Seq<char>, i: int) -> Seq<Seq<char>>
    decreases s.len() - i,
    via tokens_from_decreases
{
    if i < 0 || i >= s.len() {
        seq![]
    } else if is_space(s[i]) {
        tokens_from(s, i + 1)
    } else {
        seq![s.subrange(i, token_end(s, i))] + tokens_from(s, token_end(s, i))
    }
}

#[via_fn]
proof fn tokens_from_decreases(s: Seq<char>, i: int) {
    if 0 <= i < s.len() && !is_space(s[i]) {
        lemma_token_end(s, i + 1);
    }
}

/// The whitespace-separated tokens of `s`.
pub open spec fn tokens(s: Seq<char>) -> Seq<Seq<char>> {
    tokens_from(s, 0)
}

/// `t` without its leading non-letters.
pub open spec fn trim_start(t: Seq<char>) -> Seq<char>
    decreases t.len(),
{
    if t.len() > 0 && !is_letter(t[0]) {
        trim_start(t.drop_first())
    } else {
        t
    }
}

/// `t` without its trailing non-letters.
pub open spec fn trim_end(t: Seq<char>) -> Seq<char>
    decreases t.len(),
{
    if t.len() > 0 && !is_letter(t.last()) {
        trim_end(t.drop_last())
    } else {
        t
    }
}

/// `t` without its leading and trailing non-letters.
pub open spec fn trim(t: Seq<char>) -> Seq<char> {
    trim_end(trim_start(t))
}

/// A word is non-empty and made of letters only.
pub open spec fn is_valid_word(w: Seq<char>) -> bool {
    w.len() > 0 && forall|i: int| 0 <= i < w.len() ==> is_letter(#[trigger] w[i])
}

pub open spec fn has_upper(w: Seq<char>) -> bool {
    exists|i: int| 0 <= i < w.len() && is_upper(#[trigger] w[i])
}

/// The form in which a word is counted: lowercased if it holds an
/// uppercase letter, else as it stands.
pub open spec fn normalize(w: Seq<char>) -> Seq<char> {
    if has_upper(w) {
        lower_of(w)
    } else {
        w
    }
}

/// Whether a token is accepted: trimmed, it is a word.
pub open spec fn is_accepted(t: Seq<char>) -> bool {
    is_valid_word(trim(t))
}

/// The counted words of a sequence of tokens: each accepted token,
/// trimmed and normalized, in order.
pub open spec fn words_in(toks: Seq<Seq<char>>) -> Seq<Seq<char>>
    decreases toks.len(),
{
    if toks.len() == 0 {
        seq![]
    } else if is_accepted(toks[0]) {
        seq![normalize(trim(toks[0]))] + words_in(toks.drop_first())
    } else {
        words_in(toks.drop_first())
    }
}

/// The counted words of the text `s`, in order of appearance.
pub open spec fn words_of(s: Seq<char>) -> Seq<Seq<char>> {
    words_in(tokens(s))
}

/// A word as a bag holds it: borrowed from the ingested text where it needed
/// no change, or an owned lowercase copy.
#[derive(Debug, Clone)]
pub enum Word<'a> {
    Borrowed(&'a str),
    Owned(String),
}

impl<'a> View for Word<'a> {
    type V = Seq<char>;

    open spec fn view(&self) -> Seq<char> {
        match self {
            Word::Borrowed(s) => s@,
            Word::Owned(s) => s@,
        }
    }
}

impl<'a> Word<'a> {
    pub fn as_str(&self) -> (r: &str)
        ensures
            r@ == self@,
    {
        match self {
            Word::Borrowed(s) => s,
            Word::Owned(s) => s.as_str(),
        }
    }

    /// Whether the word points into an ingested text.
    pub fn is_borrowed(&self) -> (r: bool)
        ensures
            r == (self is Borrowed),
    {
        match self {
            Word::Borrowed(_) => true,
            Word::Owned(_) => false,
        }
    }
}

/// Whether `k` is the lowercase form of a word that holds an uppercase
/// letter.
pub open spec fn is_lowered(k: Seq<char>) -> bool {
    exists|w: Seq<char>| is_valid_word(w) && has_upper(w) && #[trigger] lower_of(w) == k
}

/// What the way a word is held says of it: a borrowed word is a word with
/// no uppercase letter, as it stood in the text; an owned one is the
/// lowercase form of a word that had one.
pub open spec fn held_as_found<'a>(w: Word<'a>) -> bool {
    match w {
        Word::Borrowed(_) => is_valid_word(w@) && !has_upper(w@),
        Word::Owned(_) => is_lowered(w@),
    }
}

pub open spec fn views<'a>(ws: Seq<Word<'a>>) -> Seq<Seq<char>> {
    ws.map_values(|w: Word<'a>| w@)
}

/// The characters of `s`, in order.
pub fn chars_of(s: &str) -> (r: Vec<char>)
    ensures
        r@ == s@,
{
    let mut r: Vec<char> = Vec::new();
    for c in it: s.chars()
        invariant
            it.seq() == s@,
            r@ == it.seq().take(it.index() as int),
    {
        r.push(c);
    }
    r
}

/// Whether `word` is non-empty and made of letters only.
pub fn is_word(word: &str) -> (r: bool)
    ensures
        r == is_valid_word(word@),
{
    let mut ok = !word.is_empty();
    for c in it: word.chars()
        invariant
            it.seq() == word@,
            ok == (word@.len() > 0 && forall|k: int|
                0 <= k < it.index() ==> is_letter(#[trigger] word@[k])),
    {
        ok = ok && letter(c);
    }
    ok
}

/// Whether `word` holds an uppercase letter.
pub fn has_uppercase(word: &str) -> (r: bool)
    ensures
        r == has_upper(word@),
{
    let mut found = false;
    for c in it: word.chars()
        invariant
            it.seq() == word@,
            found == (exists|k: int| 0 <= k < it.index() && is_upper(#[trigger] word@[k])),
    {
        found = found || upper(c);
    }
    found
}

/// The counted words of `text`, in order of appearance: each trimmed
/// accepted token, borrowed from `text` where it holds no uppercase letter,
/// lowercased into an owned copy where it does.
pub fn words_in_text<'a>(text: &'a str) -> (r: Vec<Word<'a>>)
    ensures
        views(r@) == words_of(text@),
        r.len() <= text@.len(),
        forall|k: int| 0 <= k < r.len() ==> held_as_found(#[trigger] r@[k]),
{
    let cs = chars_of(text);
    let n = cs.len();
    let mut out: Vec<Word<'a>> = Vec::new();
    let mut i: usize = 0;
    while i < n
        invariant
            cs@ == text@,
            n == cs@.len(),
            i <= n,
            out.len() <= i,
            forall|k: int| 0 <= k < out.len() ==> held_as_found(#[trigger] out@[k]),
            views(out@) + words_in(tokens_from(cs@, i as int)) == words_of(text@),
        decreases n - i,
    {
        if is_space_char(cs[i]) {
            i = i + 1;
        } else {
            let mut j: usize = i + 1;
            while j < n && !is_space_char(cs[j])
                invariant
                    cs@ == text@,
                    n == cs@.len(),
                    i < j <= n,
                    token_end(cs@, i as int) == token_end(cs@, j as int),
                decreases n - j,
            {
                j = j + 1;
            }
            let ghost tok = cs@.subrange(i as int, j as int);
            let mut a: usize = i;
            while a < j && !letter(cs[a])
                invariant
                    cs@ == text@,
                    n == cs@.len(),
                    i <= a <= j <= n,
                    trim_start(tok) == trim_start(cs@.subrange(a as int, j as int)),
                decreases j - a,
            {
                assert(cs@.subrange(a as int, j as int).drop_first() =~= cs@.subrange(
                    a + 1,
                    j as int,
                ));
                a = a + 1;
            }
            let mut b: usize = j;
            while b > a && !letter(cs[b - 1])
                invariant
                    cs@ == text@,
                    n == cs@.len(),
                    i <= a <= b <= j <= n,
                    trim_start(tok) == cs@.subrange(a as int, j as int),
                    trim(tok) == trim_end(cs@.subrange(a as int, b as int)),
                decreases b - a,
            {
                assert(cs@.subrange(a as int, b as int).drop_last() =~= cs@.subrange(
                    a as int,
                    b - 1,
                ));
                b = b - 1;
            }
            let word = text.substring_char(a, b);
            assert(word@ == trim(tok));
            let ghost rest = tokens_from(cs@, j as int);
            assert(tokens_from(cs@, i as int) == seq![tok] + rest);
            assert((seq![tok] + rest).drop_first() =~= rest);
            if is_word(word) {
                let w = if has_uppercase(word) {
                    Word::Owned(lowercase(word))
                } else {
                    Word::Borrowed(word)
                };
                assert(views(out@.push(w)) =~= views(out@).push(w@));
                assert(views(out@.push(w)) + words_in(rest) =~= views(out@) + words_in(
                    tokens_from(cs@, i as int),
                ));
                out.push(w);
            }
            i = j;
        }
    }
    out
}

} // verus!
