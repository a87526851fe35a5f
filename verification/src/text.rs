//! Character-level helpers shared by the parsers of the library: ASCII
//! whitespace, lines, words, and the bridges between `&str`, `String` and
//! `Vec<char>`.
use vstd::prelude::*;

verus! {

/// ASCII whitespace as `u8::is_ascii_whitespace` defines it: space,
/// horizontal tab, line feed, form feed and carriage return.
pub open spec fn is_ascii_space(c: char) -> bool {
    c == ' ' || c == '\t' || c == '\n' || c == '\x0C' || c == '\r'
}

/// Number of leading characters of `s` that are not ASCII whitespace.
pub open spec fn word_len(s: Seq<char>) -> nat
    decreases s.len(),
{
    if s.len() == 0 || is_ascii_space(s[0]) {
        0
    } else {
        1 + word_len(s.drop_first())
    }
}

/// Number of leading characters of `s` before the first line feed.
pub open spec fn line_len(s: Seq<char>) -> nat
    decreases s.len(),
{
    if s.len() == 0 || s[0] == '\n' {
        0
    } else {
        1 + line_len(s.drop_first())
    }
}

pub proof fn lemma_word_len_bound(s: Seq<char>)
    ensures
        word_len(s) <= s.len(),
        s.len() > 0 && !is_ascii_space(s[0]) ==> word_len(s) >= 1,
    decreases s.len(),
{
    if s.len() > 0 && !is_ascii_space(s[0]) {
        lemma_word_len_bound(s.drop_first());
    }
}

pub proof fn lemma_line_len_bound(s: Seq<char>)
    ensures
        line_len(s) <= s.len(),
    decreases s.len(),
{
    if s.len() > 0 && s[0] != '\n' {
        lemma_line_len_bound(s.drop_first());
    }
}

/// The maximal runs of non-whitespace characters of `s`, in order: what
/// `str::split_ascii_whitespace` yields.
pub open spec fn words(s: Seq<char>) -> Seq<Seq<char>>
    decreases s.len(),
{
    if s.len() == 0 {
        seq![]
    } else if is_ascii_space(s[0]) {
        words(s.drop_first())
    } else {
        let n = word_len(s);
        proof {
            lemma_word_len_bound(s);
        }
        seq![s.take(n as int)] + words(s.skip(n as int))
    }
}

/// A run of `m` characters with no whitespace, ended by whitespace or by
/// the end of `s`, is the leading word of `s`.
pub proof fn lemma_word_len_exact(s: Seq<char>, m: int)
    requires
        0 <= m <= s.len(),
        forall|k: int| 0 <= k < m ==> !is_ascii_space(#[trigger] s[k]),
        m == s.len() || is_ascii_space(s[m]),
    ensures
        word_len(s) == m,
    decreases m,
{
    if m > 0 {
        let t = s.drop_first();
        assert forall|k: int| 0 <= k < m - 1 implies !is_ascii_space(#[trigger] t[k]) by {
            assert(t[k] == s[k + 1]);
        }
        if m < s.len() {
            assert(t[m - 1] == s[m]);
        }
        lemma_word_len_exact(t, m - 1);
    }
}

/// A run of `m` characters with no line feed, ended by a line feed or by
/// the end of `s`, is the first line of `s`.
pub proof fn lemma_line_len_exact(s: Seq<char>, m: int)
    requires
        0 <= m <= s.len(),
        forall|k: int| 0 <= k < m ==> #[trigger] s[k] != '\n',
        m == s.len() || s[m] == '\n',
    ensures
        line_len(s) == m,
    decreases m,
{
    if m > 0 {
        let t = s.drop_first();
        assert forall|k: int| 0 <= k < m - 1 implies #[trigger] t[k] != '\n' by {
            assert(t[k] == s[k + 1]);
        }
        if m < s.len() {
            assert(t[m - 1] == s[m]);
        }
        lemma_line_len_exact(t, m - 1);
    }
}

/// Trailing whitespace adds no word.
pub proof fn lemma_words_trailing_space(s: Seq<char>, c: char)
    requires
        is_ascii_space(c),
    ensures
        words(s + seq![c]) == words(s),
    decreases s.len(),
{
    let t = s + seq![c];
    if s.len() == 0 {
        assert(t.drop_first() =~= Seq::<char>::empty());
        assert(words(t) =~= words(Seq::<char>::empty()));
    } else if is_ascii_space(s[0]) {
        assert(t.drop_first() =~= s.drop_first() + seq![c]);
        lemma_words_trailing_space(s.drop_first(), c);
    } else {
        lemma_word_len_append(s, c);
        lemma_word_len_bound(s);
        let n: int = word_len(s) as int;
        assert(t.take(n) =~= s.take(n));
        assert(t.skip(n) =~= s.skip(n) + seq![c]);
        lemma_words_trailing_space(s.skip(n), c);
    }
}

/// The leading word of a text does not grow by trailing whitespace.
proof fn lemma_word_len_append(s: Seq<char>, c: char)
    requires
        is_ascii_space(c),
    ensures
        word_len(s + seq![c]) == word_len(s),
    decreases s.len(),
{
    let t = s + seq![c];
    if s.len() == 0 {
        assert(t[0] == c);
    } else if !is_ascii_space(s[0]) {
        assert(t.drop_first() =~= s.drop_first() + seq![c]);
        lemma_word_len_append(s.drop_first(), c);
    }
}

/// A non-empty text with no space, tab, line feed, form feed or carriage
/// return.
pub open spec fn is_plain_word(w: Seq<char>) -> bool {
    &&& w.len() > 0
    &&& forall|k: int|
        0 <= k < w.len() ==> #[trigger] w[k] != ' ' && w[k] != '\t' && w[k] != '\n' && w[k]
            != '\x0C' && w[k] != '\r'
}

/// A plain word followed by nothing, or by whitespace, is read whole.
proof fn lemma_words_lead(w: Seq<char>, t: Seq<char>)
    requires
        is_plain_word(w),
        t.len() == 0 || is_ascii_space(t[0]),
    ensures
        words(w + t) == seq![w] + words(t),
{
    let s = w + t;
    assert forall|k: int| 0 <= k < w.len() implies !is_ascii_space(#[trigger] s[k]) by {
        assert(s[k] == w[k]);
    }
    if w.len() < s.len() {
        assert(s[w.len() as int] == t[0]);
    }
    lemma_word_len_exact(s, w.len() as int);
    assert(!is_ascii_space(s[0]));
    assert(s.take(w.len() as int) =~= w);
    assert(s.skip(w.len() as int) =~= t);
}

/// Any plain word, however long, is one word.
pub proof fn law_plain_word_is_one_word(w: Seq<char>)
    requires
        is_plain_word(w),
    ensures
        words(w) == seq![w],
{
    lemma_words_lead(w, Seq::<char>::empty());
    assert(w + Seq::<char>::empty() =~= w);
    assert(words(Seq::<char>::empty()) =~= Seq::<Seq<char>>::empty());
    assert(seq![w] + Seq::<Seq<char>>::empty() =~= seq![w]);
}

/// Space, tab, line feed, form feed and carriage return each end a word:
/// a plain word, one of them, then any text reads as that word followed by
/// the words of the text.
pub proof fn law_word_then_separator(w: Seq<char>, c: char, s: Seq<char>)
    requires
        is_plain_word(w),
        c == ' ' || c == '\t' || c == '\n' || c == '\x0C' || c == '\r',
    ensures
        words(w + seq![c] + s) == seq![w] + words(s),
{
    let t = seq![c] + s;
    assert(w + seq![c] + s =~= w + t);
    assert(t[0] == c);
    lemma_words_lead(w, t);
    assert(t.drop_first() =~= s);
}

/// `std`'s `String::push`: appends one character.
#[verifier::external_body]
pub(crate) fn push_char(s: &mut String, c: char)
    ensures
        final(s)@ == old(s)@.push(c),
{
    s.push(c);
}

/// `std`'s equality of string slices, which compares their characters.
#[verifier::external_body]
pub(crate) fn same_text(a: &str, b: &str) -> (r: bool)
    ensures
        r == (a@ == b@),
{
    a == b
}

pub(crate) fn is_ascii_space_char(c: char) -> (r: bool)
    ensures
        r == is_ascii_space(c),
{
    c == ' ' || c == '\t' || c == '\n' || c == '\x0C' || c == '\r'
}

/// The characters of `s`, one element per Unicode scalar value.
pub(crate) fn chars_of(s: &str) -> (v: Vec<char>)
    ensures
        v@ == s@,
{
    let mut v: Vec<char> = Vec::new();
    for c in it: s.chars()
        invariant
            v@ == it.seq().take(it.index()),
    {
        v.push(c);
    }
    v
}

/// The text made of `cs[lo..hi]`.
pub(crate) fn string_of(cs: &Vec<char>, lo: usize, hi: usize) -> (s: String)
    requires
        lo <= hi <= cs.len(),
    ensures
        s@ == cs@.subrange(lo as int, hi as int),
{
    let mut s = String::new();
    let mut i = lo;
    while i < hi
        invariant
            lo <= i <= hi <= cs.len(),
            s@ == cs@.subrange(lo as int, i as int),
        decreases hi - i,
    {
        push_char(&mut s, cs[i]);
        assert(cs@.subrange(lo as int, i + 1) =~= cs@.subrange(lo as int, i as int).push(cs@[i as int]));
        i = i + 1;
    }
    s
}

/// Index of the first line feed at or after `lo`, or `cs.len()` if none.
pub(crate) fn line_end(cs: &Vec<char>, lo: usize) -> (j: usize)
    requires
        lo <= cs.len(),
    ensures
        lo <= j <= cs.len(),
        j - lo == line_len(cs@.skip(lo as int)),
        j < cs.len() ==> cs@[j as int] == '\n',
{
    let mut j = lo;
    while j < cs.len() && cs[j] != '\n'
        invariant
            lo <= j <= cs.len(),
            forall|k: int| lo <= k < j ==> #[trigger] cs@[k] != '\n',
        decreases cs.len() - j,
    {
        j = j + 1;
    }
    proof {
        let t = cs@.skip(lo as int);
        assert forall|k: int| 0 <= k < j - lo implies #[trigger] t[k] != '\n' by {
            assert(t[k] == cs@[lo + k]);
        }
        if j < cs.len() {
            assert(t[j - lo] == cs@[j as int]);
        }
        lemma_line_len_exact(t, j - lo);
    }
    j
}

/// Index of the first whitespace at or after `lo` and before `hi`, or `hi`.
pub(crate) fn word_end(cs: &Vec<char>, lo: usize, hi: usize) -> (j: usize)
    requires
        lo <= hi <= cs.len(),
    ensures
        lo <= j <= hi,
        j - lo == word_len(cs@.subrange(lo as int, hi as int)),
{
    let mut j = lo;
    while j < hi && !is_ascii_space_char(cs[j])
        invariant
            lo <= j <= hi <= cs.len(),
            forall|k: int| lo <= k < j ==> !is_ascii_space(#[trigger] cs@[k]),
        decreases hi - j,
    {
        j = j + 1;
    }
    proof {
        let t = cs@.subrange(lo as int, hi as int);
        assert forall|k: int| 0 <= k < j - lo implies !is_ascii_space(#[trigger] t[k]) by {
            assert(t[k] == cs@[lo + k]);
        }
        if j < hi {
            assert(t[j - lo] == cs@[j as int]);
        }
        lemma_word_len_exact(t, j - lo);
    }
    j
}

/// The views of a list of strings.
pub open spec fn texts(v: Seq<String>) -> Seq<Seq<char>> {
    v.map_values(|w: String| w@)
}

/// The words of `cs[lo..hi]`, as `split_ascii_whitespace` yields them.
pub(crate) fn words_in(cs: &Vec<char>, lo: usize, hi: usize) -> (ws: Vec<String>)
    requires
        lo <= hi <= cs.len(),
    ensures
        texts(ws@) == words(cs@.subrange(lo as int, hi as int)),
{
    let mut ws: Vec<String> = Vec::new();
    let mut i = lo;
    while i < hi
        invariant
            lo <= i <= hi <= cs.len(),
            texts(ws@) + words(cs@.subrange(i as int, hi as int)) == words(
                cs@.subrange(lo as int, hi as int),
            ),
        decreases hi - i,
    {
        let ghost t = cs@.subrange(i as int, hi as int);
        if is_ascii_space_char(cs[i]) {
            assert(t.drop_first() =~= cs@.subrange(i + 1, hi as int));
            i = i + 1;
        } else {
            let j = word_end(cs, i, hi);
            let w = string_of(cs, i, j);
            let ghost old_ws = ws@;
            ws.push(w);
            proof {
                assert(t.take(j - i) =~= cs@.subrange(i as int, j as int));
                assert(t.skip(j - i) =~= cs@.subrange(j as int, hi as int));
                assert(texts(ws@) =~= texts(old_ws).push(w@));
                assert(texts(ws@) + words(cs@.subrange(j as int, hi as int)) =~= texts(old_ws) + (
                seq![t.take(j - i)] + words(t.skip(j - i))));
            }
            i = j;
        }
    }
    assert(cs@.subrange(hi as int, hi as int) =~= Seq::<char>::empty());
    assert(texts(ws@) + Seq::<Seq<char>>::empty() =~= texts(ws@));
    ws
}

} // verus!
