//! Splitting text into lowercase words.

use vstd::prelude::*;

verus! {

/// Whether a character is white space: the code points with Unicode's
/// `White_Space` property, those `char::is_whitespace` accepts.
pub open spec fn is_space(c: char) -> bool {
    ('\u{9}' <= c && c <= '\u{d}') || c == ' ' || c == '\u{85}' || c == '\u{a0}' || c
        == '\u{1680}' || ('\u{2000}' <= c && c <= '\u{200a}') || c == '\u{2028}' || c
        == '\u{2029}' || c == '\u{202f}' || c == '\u{205f}' || c == '\u{3000}'
}

/// Whether a character is alphabetic or numeric, as `char::is_alphanumeric` decides.
pub uninterp spec fn is_alnum(c: char) -> bool;

/// The full lowercase mapping of a string, as `str::to_lowercase` computes it.
pub uninterp spec fn lower_of(s: Seq<char>) -> Seq<char>;

/// Whether a character is white space.
pub fn char_is_space(c: char) -> (r: bool)
    ensures
        r == is_space(c),
{
    ('\u{9}' <= c && c <= '\u{d}') || c == ' ' || c == '\u{85}' || c == '\u{a0}' || c
        == '\u{1680}' || ('\u{2000}' <= c && c <= '\u{200a}') || c == '\u{2028}' || c
        == '\u{2029}' || c == '\u{202f}' || c == '\u{205f}' || c == '\u{3000}'
}

/// Relies on `char::is_alphanumeric`.
#[verifier::external_body]
fn char_is_alnum(c: char) -> (r: bool)
    ensures
        r == is_alnum(c),
{
    c.is_alphanumeric()
}

/// Relies on `str::to_lowercase`: the result depends on the characters alone.
#[verifier::external_body]
fn lowercase(s: &str) -> (r: String)
    ensures
        r@ == lower_of(s@),
{
    s.to_lowercase()
}

/// Relies on `str::chars`: the characters of the string, in order.
#[verifier::external_body]
pub(crate) fn chars_of(s: &str) -> (r: Vec<char>)
    ensures
        r@ == s@,
{
    s.chars().collect()
}

/// Relies on `String: FromIterator<char>`: the string of these characters.
#[verifier::external_body]
pub(crate) fn string_of(cs: &Vec<char>) -> (r: String)
    ensures
        r@ == cs@,
{
    cs.iter().collect()
}

/// The character sequences of a list of strings.
pub open spec fn views(v: Seq<String>) -> Seq<Seq<char>> {
    v.map_values(|s: String| s@)
}

/// The maximal runs of non-space characters of `s`, in order.
pub open spec fn words_of(s: Seq<char>) -> Seq<Seq<char>>
    decreases s.len(),
{
    if s.len() == 0 {
        seq![]
    } else {
        let prev = s.drop_last();
        let c = s.last();
        let ws = words_of(prev);
        if is_space(c) {
            ws
        } else if prev.len() > 0 && !is_space(prev.last()) {
            ws.drop_last().push(ws.last().push(c))
        } else {
            ws.push(seq![c])
        }
    }
}

/// `p` without its leading non-alphanumeric characters.
pub open spec fn trim_start(p: Seq<char>) -> Seq<char>
    decreases p.len(),
{
    if p.len() > 0 && !is_alnum(p[0]) {
        trim_start(p.drop_first())
    } else {
        p
    }
}

/// `p` without its trailing non-alphanumeric characters.
pub open spec fn trim_end(p: Seq<char>) -> Seq<char>
    decreases p.len(),
{
    if p.len() > 0 && !is_alnum(p.last()) {
        trim_end(p.drop_last())
    } else {
        p
    }
}

/// A word stripped of surrounding punctuation and lowercased.
pub open spec fn normalize_word(p: Seq<char>) -> Seq<char> {
    lower_of(trim_end(trim_start(p)))
}

/// The normalized words, with those that became empty left out.
pub open spec fn tokens_from(ws: Seq<Seq<char>>) -> Seq<Seq<char>>
    decreases ws.len(),
{
    if ws.len() == 0 {
        seq![]
    } else {
        let t = normalize_word(ws.last());
        let rest = tokens_from(ws.drop_last());
        if t.len() > 0 {
            rest.push(t)
        } else {
            rest
        }
    }
}

/// The tokens of a text: its words, trimmed of punctuation, lowercased,
/// empty ones dropped.
pub open spec fn tokens_of(s: Seq<char>) -> Seq<Seq<char>> {
    tokens_from(words_of(s))
}

/// A text has at least as many characters as words.
proof fn lemma_words_len(s: Seq<char>)
    ensures
        words_of(s).len() <= s.len(),
        s.len() > 0 && !is_space(s.last()) ==> words_of(s).len() > 0,
    decreases s.len(),
{
    if s.len() > 0 {
        lemma_words_len(s.drop_last());
    }
}

/// A text of white space alone has no words, hence no tokens.
pub proof fn lemma_blank_text_no_tokens(s: Seq<char>)
    requires
        forall|i: int| 0 <= i < s.len() ==> is_space(#[trigger] s[i]),
    ensures
        words_of(s).len() == 0,
        tokens_of(s).len() == 0,
    decreases s.len(),
{
    if s.len() > 0 {
        let d = s.drop_last();
        assert forall|i: int| 0 <= i < d.len() implies is_space(#[trigger] d[i]) by {
            assert(d[i] == s[i]);
        }
        lemma_blank_text_no_tokens(d);
        assert(is_space(s[s.len() - 1]));
    }
}

/// Normalizing never yields more tokens than there were words.
proof fn lemma_tokens_from_len(ws: Seq<Seq<char>>)
    ensures
        tokens_from(ws).len() <= ws.len(),
    decreases ws.len(),
{
    if ws.len() > 0 {
        lemma_tokens_from_len(ws.drop_last());
    }
}

/// A text has at least as many characters as tokens.
pub proof fn lemma_tokens_len(s: Seq<char>)
    ensures
        tokens_of(s).len() <= s.len(),
{
    lemma_words_len(s);
    lemma_tokens_from_len(words_of(s));
}

/// Appends the token of the word `cs[a..b]`, if it is not empty.
fn push_token(cs: &Vec<char>, a: usize, b: usize, out: &mut Vec<String>)
    requires
        a < b <= cs.len(),
    ensures
        ({
            let t = normalize_word(cs@.subrange(a as int, b as int));
            views(final(out)@) == if t.len() > 0 {
                views(old(out)@).push(t)
            } else {
                views(old(out)@)
            }
        }),
{
    let ghost w = cs@.subrange(a as int, b as int);
    let mut lo: usize = a;
    while lo < b && !char_is_alnum(cs[lo])
        invariant
            a <= lo <= b <= cs.len(),
            w == cs@.subrange(a as int, b as int),
            trim_start(w) == trim_start(cs@.subrange(lo as int, b as int)),
        decreases b - lo,
    {
        assert(cs@.subrange(lo as int, b as int).drop_first() =~= cs@.subrange(lo + 1, b as int));
        lo += 1;
    }
    assert(trim_start(w) == cs@.subrange(lo as int, b as int));
    let mut hi: usize = b;
    while hi > lo && !char_is_alnum(cs[hi - 1])
        invariant
            a <= lo <= hi <= b <= cs.len(),
            trim_end(trim_start(w)) == trim_end(cs@.subrange(lo as int, hi as int)),
        decreases hi - lo,
    {
        assert(cs@.subrange(lo as int, hi as int).drop_last() =~= cs@.subrange(
            lo as int,
            hi - 1,
        ));
        hi -= 1;
    }
    assert(trim_end(trim_start(w)) == cs@.subrange(lo as int, hi as int));
    let mut piece: Vec<char> = Vec::new();
    let mut j: usize = lo;
    while j < hi
        invariant
            lo <= j <= hi <= cs.len(),
            piece@ == cs@.subrange(lo as int, j as int),
        decreases hi - j,
    {
        piece.push(cs[j]);
        assert(piece@ =~= cs@.subrange(lo as int, j + 1));
        j += 1;
    }
    let s = string_of(&piece);
    let t = lowercase(s.as_str());
    if t.as_str().unicode_len() > 0 {
        let ghost before = out@;
        out.push(t);
        assert(views(out@) =~= views(before).push(t@));
    }
}

/// Splits text into tokens: on white space, each piece stripped of leading and
/// trailing non-alphanumeric characters and lowercased; empty pieces dropped.
pub fn tokenize(text: &str) -> (r: Vec<String>)
    ensures
        views(r@) == tokens_of(text@),
{
    let cs = chars_of(text);
    let n = cs.len();
    let mut out: Vec<String> = Vec::new();
    let mut start: usize = 0;
    let mut i: usize = 0;
    assert(views(out@) =~= seq![]);
    assert(cs@.take(0) =~= seq![]);
    while i < n
        invariant
            cs@ == text@,
            n == cs.len(),
            start <= i <= n,
            forall|k: int| start <= k < i ==> !is_space(#[trigger] cs@[k]),
            start < i ==> words_of(cs@.take(i as int)).len() > 0 && words_of(cs@.take(i as int)).last()
                == cs@.subrange(start as int, i as int) && tokens_from(
                words_of(cs@.take(i as int)).drop_last(),
            ) == views(out@),
            start == i ==> tokens_from(words_of(cs@.take(i as int))) == views(out@),
            start == i && i > 0 ==> is_space(cs@[i - 1]),
        decreases n - i,
    {
        let c = cs[i];
        let ghost prev = cs@.take(i as int);
        let ghost ws = words_of(prev);
        assert(cs@.take(i + 1).drop_last() =~= prev);
        assert(cs@.take(i + 1).last() == c);
        if char_is_space(c) {
            assert(words_of(cs@.take(i + 1)) == ws);
            if start < i {
                push_token(&cs, start, i, &mut out);
            }
            start = i + 1;
        } else {
            if start < i {
                assert(prev.last() == cs@[i - 1]);
                let ghost nws = ws.drop_last().push(ws.last().push(c));
                assert(words_of(cs@.take(i + 1)) == nws);
                assert(nws.drop_last() =~= ws.drop_last());
                assert(cs@.subrange(start as int, i as int).push(c) =~= cs@.subrange(
                    start as int,
                    i + 1,
                ));
            } else {
                assert(words_of(cs@.take(i + 1)) == ws.push(seq![c]));
                assert(ws.push(seq![c]).drop_last() =~= ws);
                assert(cs@.subrange(start as int, i + 1) =~= seq![c]);
            }
        }
        i += 1;
    }
    if start < n {
        push_token(&cs, start, n, &mut out);
    }
    assert(cs@.take(n as int) =~= text@);
    out
}

} // verus!
