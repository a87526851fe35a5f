//! Link scripts: each line `property < var` or `property > var` ties a
//! property of a body to a named variable. With `<` the property takes the
//! variable's value; with `>` the variable takes the property's value.
use vstd::prelude::*;

use crate::text::{
    chars_of, is_ascii_space, is_plain_word, law_plain_word_is_one_word, law_word_then_separator,
    lemma_line_len_bound, lemma_line_len_exact, lemma_words_trailing_space, line_end, line_len,
    same_text, texts, words, words_in,
};

verus! {

/// One link as written: the first three words of a line.
#[derive(Debug, PartialEq, Eq)]
pub struct Link {
    pub property: String,
    pub dir: String,
    pub var: String,
}

impl View for Link {
    type V = (Seq<char>, Seq<char>, Seq<char>);

    open spec fn view(&self) -> (Seq<char>, Seq<char>, Seq<char>) {
        (self.property@, self.dir@, self.var@)
    }
}

/// The link of one line: its first three words, if it has three or more.
pub open spec fn link_of_line(line: Seq<char>) -> Seq<(Seq<char>, Seq<char>, Seq<char>)> {
    let w = words(line);
    if w.len() >= 3 {
        seq![(w[0], w[1], w[2])]
    } else {
        seq![]
    }
}

/// The links of a text, line by line (lines end at a line feed).
pub open spec fn links_of(s: Seq<char>) -> Seq<(Seq<char>, Seq<char>, Seq<char>)>
    decreases s.len(),
{
    if s.len() == 0 {
        seq![]
    } else {
        let n = line_len(s);
        proof {
            lemma_line_len_bound(s);
        }
        link_of_line(s.take(n as int)) + if n < s.len() {
            links_of(s.skip(n + 1int))
        } else {
            seq![]
        }
    }
}

/// The views of a list of links.
pub open spec fn link_views(v: Seq<Link>) -> Seq<(Seq<char>, Seq<char>, Seq<char>)> {
    v.map_values(|l: Link| l@)
}

/// Reads every line of `text` and keeps, for each line of three words or
/// more, its first three words; shorter lines are skipped. Lines end at
/// `\n`; a `\r` before it is whitespace like any other.
pub fn parse_links(text: &str) -> (links: Vec<Link>)
    ensures
        link_views(links@) == links_of(text@),
{
    let cs = chars_of(text);
    let n = cs.len();
    let mut links: Vec<Link> = Vec::new();
    let mut i: usize = 0;
    assert(cs@.skip(0) =~= cs@);
    assert(link_views(links@) + links_of(cs@) =~= links_of(cs@));
    while i < n
        invariant
            n == cs.len(),
            cs@ == text@,
            i <= n,
            link_views(links@) + links_of(cs@.skip(i as int)) == links_of(cs@),
        decreases n - i,
    {
        let j = line_end(&cs, i);
        let ws = words_in(&cs, i, j);
        let ghost t = cs@.skip(i as int);
        let ghost old_links = links@;
        proof {
            assert(t.take(j - i) =~= cs@.subrange(i as int, j as int));
        }
        if ws.len() >= 3 {
            let link = Link { property: ws[0].clone(), dir: ws[1].clone(), var: ws[2].clone() };
            proof {
                assert(texts(ws@)[0] == ws@[0]@);
                assert(texts(ws@)[1] == ws@[1]@);
                assert(texts(ws@)[2] == ws@[2]@);
            }
            links.push(link);
        }
        proof {
            assert(link_views(links@) =~= link_views(old_links) + link_of_line(t.take(j - i)));
        }
        if j < n {
            assert(t.skip(j - i + 1) =~= cs@.skip(j + 1));
            i = j + 1;
        } else {
            assert(cs@.skip(n as int) =~= Seq::<char>::empty());
            i = n;
        }
    }
    assert(cs@.skip(n as int) =~= Seq::<char>::empty());
    assert(link_views(links@) + Seq::empty() =~= link_views(links@));
    links
}

/// The property of a body that a link names.
#[derive(Debug, Clone, Copy, PartialEq, Eq, Structural)]
pub enum Property {
    X,
    Y,
    Rx,
    Ry,
    Rot,
    Mass,
    Vx,
    Vy,
    Va,
    Restitution,
    LinDamp,
    AngDamp,
    Inertia,
    H,
    S,
    L,
    A,
    Sides,
    Cmx,
    Cmy,
}

/// The property a word names, if any.
pub open spec fn property_named(name: Seq<char>) -> Option<Property> {
    if name == "x"@ {
        Some(Property::X)
    } else if name == "y"@ {
        Some(Property::Y)
    } else if name == "rx"@ {
        Some(Property::Rx)
    } else if name == "ry"@ {
        Some(Property::Ry)
    } else if name == "rot"@ {
        Some(Property::Rot)
    } else if name == "mass"@ {
        Some(Property::Mass)
    } else if name == "vx"@ {
        Some(Property::Vx)
    } else if name == "vy"@ {
        Some(Property::Vy)
    } else if name == "va"@ {
        Some(Property::Va)
    } else if name == "restitution"@ {
        Some(Property::Restitution)
    } else if name == "lindamp"@ {
        Some(Property::LinDamp)
    } else if name == "angdamp"@ {
        Some(Property::AngDamp)
    } else if name == "inertia"@ {
        Some(Property::Inertia)
    } else if name == "h"@ {
        Some(Property::H)
    } else if name == "s"@ {
        Some(Property::S)
    } else if name == "l"@ {
        Some(Property::L)
    } else if name == "a"@ {
        Some(Property::A)
    } else if name == "sides"@ {
        Some(Property::Sides)
    } else if name == "cmx"@ {
        Some(Property::Cmx)
    } else if name == "cmy"@ {
        Some(Property::Cmy)
    } else {
        None
    }
}

impl Property {
    /// The property named `name`: `x`, `y`, `rx`, `ry`, `rot`, `mass`, `vx`,
    /// `vy`, `va`, `restitution`, `lindamp`, `angdamp`, `inertia`, `h`, `s`,
    /// `l`, `a`, `sides`, `cmx` or `cmy`; `None` for any other word.
    pub fn from_name(name: &str) -> (p: Option<Property>)
        ensures
            p == property_named(name@),
    {
        if same_text(name, "x") {
            Some(Property::X)
        } else if same_text(name, "y") {
            Some(Property::Y)
        } else if same_text(name, "rx") {
            Some(Property::Rx)
        } else if same_text(name, "ry") {
            Some(Property::Ry)
        } else if same_text(name, "rot") {
            Some(Property::Rot)
        } else if same_text(name, "mass") {
            Some(Property::Mass)
        } else if same_text(name, "vx") {
            Some(Property::Vx)
        } else if same_text(name, "vy") {
            Some(Property::Vy)
        } else if same_text(name, "va") {
            Some(Property::Va)
        } else if same_text(name, "restitution") {
            Some(Property::Restitution)
        } else if same_text(name, "lindamp") {
            Some(Property::LinDamp)
        } else if same_text(name, "angdamp") {
            Some(Property::AngDamp)
        } else if same_text(name, "inertia") {
            Some(Property::Inertia)
        } else if same_text(name, "h") {
            Some(Property::H)
        } else if same_text(name, "s") {
            Some(Property::S)
        } else if same_text(name, "l") {
            Some(Property::L)
        } else if same_text(name, "a") {
            Some(Property::A)
        } else if same_text(name, "sides") {
            Some(Property::Sides)
        } else if same_text(name, "cmx") {
            Some(Property::Cmx)
        } else if same_text(name, "cmy") {
            Some(Property::Cmy)
        } else {
            None
        }
    }
}

/// Which way a link carries a value.
#[derive(Debug, Clone, Copy, PartialEq, Eq, Structural)]
pub enum Direction {
    /// `<`: the property takes the variable's value.
    FromVariable,
    /// `>`: the variable takes the property's value.
    ToVariable,
}

/// The direction a word names, if any.
pub open spec fn direction_named(word: Seq<char>) -> Option<Direction> {
    if word == "<"@ {
        Some(Direction::FromVariable)
    } else if word == ">"@ {
        Some(Direction::ToVariable)
    } else {
        None
    }
}

impl Direction {
    /// `<` or `>`; `None` for any other word.
    pub fn from_symbol(word: &str) -> (d: Option<Direction>)
        ensures
            d == direction_named(word@),
    {
        if same_text(word, "<") {
            Some(Direction::FromVariable)
        } else if same_text(word, ">") {
            Some(Direction::ToVariable)
        } else {
            None
        }
    }
}

/// The polygon side count that a linked value sets: clamped to `3..=128`.
pub fn clamp_sides(n: u32) -> (sides: u32)
    ensures
        3 <= sides <= 128,
        sides == if n < 3 {
            3
        } else if n > 128 {
            128
        } else {
            n
        },
{
    if n < 3 {
        3
    } else if n > 128 {
        128
    } else {
        n
    }
}

/// The link text of a body.
pub struct Links(pub String);

impl Links {
    /// The links written in this text, in order.
    pub fn parse(&self) -> (links: Vec<Link>)
        ensures
            link_views(links@) == links_of(self.0@),
    {
        parse_links(self.0.as_str())
    }
}

impl Default for Links {
    fn default() -> (l: Links)
        ensures
            l.0@ == Seq::<char>::empty(),
    {
        Links(String::new())
    }
}

/// The number of sides of a body's polygon.
pub struct Sides(pub u32);

/// A line feed that ends a line splits the links of a text: the links of
/// two texts joined by a line feed are the links of the first followed by
/// the links of the second.
pub proof fn law_links_of_joined_lines(a: Seq<char>, b: Seq<char>)
    ensures
        links_of(a + seq!['\n'] + b) == links_of(a) + links_of(b),
    decreases a.len(),
{
    let s = a + seq!['\n'] + b;
    let t = seq!['\n'] + b;
    assert(s =~= a + t);
    lemma_line_len_append(a, t);
    lemma_line_len_bound(a);
    let m: int = line_len(a) as int;
    if m < a.len() {
        assert(s.take(m) =~= a.take(m));
        assert(s.skip(m + 1) =~= a.skip(m + 1) + seq!['\n'] + b);
        law_links_of_joined_lines(a.skip(m + 1), b);
        assert(links_of(s) =~= link_of_line(a.take(m)) + (links_of(a.skip(m + 1))
            + links_of(b)));
    } else {
        assert(t[0] == '\n');
        assert(line_len(t) == 0);
        assert(s.take(a.len() as int) =~= a);
        assert(s.skip(a.len() + 1int) =~= b);
        if a.len() == 0 {
            assert(words(a) =~= Seq::<Seq<char>>::empty());
            assert(links_of(a) =~= Seq::empty());
        } else {
            assert(a.take(m) =~= a);
        }
        assert(links_of(s) =~= links_of(a) + links_of(b));
    }
}

/// Three plain words separated by spaces make one link, each word kept
/// whole: property, direction, variable.
pub proof fn law_three_words_make_a_link(p: Seq<char>, d: Seq<char>, v: Seq<char>)
    requires
        is_plain_word(p),
        is_plain_word(d),
        is_plain_word(v),
    ensures
        links_of(p + seq![' '] + d + seq![' '] + v) == seq![(p, d, v)],
{
    let dv = d + seq![' '] + v;
    let s = p + seq![' '] + dv;
    assert(p + seq![' '] + d + seq![' '] + v =~= s);
    law_word_then_separator(p, ' ', dv);
    law_word_then_separator(d, ' ', v);
    law_plain_word_is_one_word(v);
    assert(words(s) =~= seq![p, d, v]);
    assert forall|k: int| 0 <= k < s.len() implies #[trigger] s[k] != '\n' by {
        if k < p.len() {
            assert(s[k] == p[k]);
        } else if k == p.len() {
            assert(s[k] == ' ');
        } else if k < p.len() + 1 + d.len() {
            assert(s[k] == d[k - p.len() - 1]);
        } else if k == p.len() + 1 + d.len() {
            assert(s[k] == ' ');
        } else {
            assert(s[k] == v[k - p.len() - 2 - d.len()]);
        }
    }
    lemma_line_len_exact(s, s.len() as int);
    assert(s.take(s.len() as int) =~= s);
    assert(links_of(s) =~= link_of_line(s));
}

/// Words after the third change nothing: three plain words, then a space
/// and any text without a line feed, make the link of the three words.
pub proof fn law_extra_words_are_ignored(p: Seq<char>, d: Seq<char>, v: Seq<char>, rest: Seq<char>)
    requires
        is_plain_word(p),
        is_plain_word(d),
        is_plain_word(v),
        forall|k: int| 0 <= k < rest.len() ==> #[trigger] rest[k] != '\n',
    ensures
        links_of(p + seq![' '] + d + seq![' '] + v + seq![' '] + rest) == seq![(p, d, v)],
{
    let vr = v + seq![' '] + rest;
    let dvr = d + seq![' '] + vr;
    let s = p + seq![' '] + dvr;
    assert(p + seq![' '] + d + seq![' '] + v + seq![' '] + rest =~= s);
    law_word_then_separator(p, ' ', dvr);
    law_word_then_separator(d, ' ', vr);
    law_word_then_separator(v, ' ', rest);
    let w = words(s);
    assert(w =~= seq![p, d, v] + words(rest));
    assert(w[0] == p && w[1] == d && w[2] == v);
    assert forall|k: int| 0 <= k < s.len() implies #[trigger] s[k] != '\n' by {
        let pl = p.len() as int;
        let dl = d.len() as int;
        let vl = v.len() as int;
        if k < pl {
            assert(s[k] == p[k]);
        } else if k == pl {
            assert(s[k] == ' ');
        } else if k < pl + 1 + dl {
            assert(s[k] == d[k - pl - 1]);
        } else if k == pl + 1 + dl {
            assert(s[k] == ' ');
        } else if k < pl + 2 + dl + vl {
            assert(s[k] == v[k - pl - 2 - dl]);
        } else if k == pl + 2 + dl + vl {
            assert(s[k] == ' ');
        } else {
            assert(s[k] == rest[k - pl - 3 - dl - vl]);
        }
    }
    lemma_line_len_exact(s, s.len() as int);
    assert(s.take(s.len() as int) =~= s);
    assert(links_of(s) =~= link_of_line(s));
}

/// A line of one or two plain words is no link.
pub proof fn law_short_lines_are_no_links(p: Seq<char>, d: Seq<char>)
    requires
        is_plain_word(p),
        is_plain_word(d),
    ensures
        links_of(p) == Seq::<(Seq<char>, Seq<char>, Seq<char>)>::empty(),
        links_of(p + seq![' '] + d) == Seq::<(Seq<char>, Seq<char>, Seq<char>)>::empty(),
{
    law_plain_word_is_one_word(p);
    law_plain_word_is_one_word(d);
    law_word_then_separator(p, ' ', d);
    let s = p + seq![' '] + d;
    assert(words(s) =~= seq![p, d]);
    assert forall|k: int| 0 <= k < s.len() implies #[trigger] s[k] != '\n' by {
        if k < p.len() {
            assert(s[k] == p[k]);
        } else if k == p.len() {
            assert(s[k] == ' ');
        } else {
            assert(s[k] == d[k - p.len() - 1]);
        }
    }
    lemma_line_len_exact(s, s.len() as int);
    assert(s.take(s.len() as int) =~= s);
    assert forall|k: int| 0 <= k < p.len() implies #[trigger] p[k] != '\n' by {}
    lemma_line_len_exact(p, p.len() as int);
    assert(p.take(p.len() as int) =~= p);
    assert(links_of(s) =~= link_of_line(s));
    assert(links_of(p) =~= link_of_line(p));
}

/// A line may end in `\r\n` as well as in `\n`: the links read the same.
pub proof fn law_crlf_reads_as_lf(a: Seq<char>, b: Seq<char>)
    ensures
        links_of(a + seq!['\r', '\n'] + b) == links_of(a + seq!['\n'] + b),
{
    let ar = a + seq!['\r'];
    assert(a + seq!['\r', '\n'] + b =~= ar + seq!['\n'] + b);
    law_links_of_joined_lines(ar, b);
    law_links_of_joined_lines(a, b);
    lemma_links_of_trailing_space(a, '\r');
}

/// Whitespace other than a line feed at the end of a text adds no link.
proof fn lemma_links_of_trailing_space(a: Seq<char>, c: char)
    requires
        is_ascii_space(c),
        c != '\n',
    ensures
        links_of(a + seq![c]) == links_of(a),
    decreases a.len(),
{
    let s = a + seq![c];
    lemma_line_len_append(a, seq![c]);
    lemma_line_len_bound(a);
    let m: int = line_len(a) as int;
    if m < a.len() {
        assert(s.take(m) =~= a.take(m));
        assert(s.skip(m + 1) =~= a.skip(m + 1) + seq![c]);
        lemma_links_of_trailing_space(a.skip(m + 1), c);
    } else {
        assert(line_len(seq![c]) == 1) by {
            assert(seq![c][0] == c);
            assert(seq![c].drop_first() =~= Seq::<char>::empty());
            assert(line_len(Seq::<char>::empty()) == 0);
        }
        assert(s.take(s.len() as int) =~= s);
        lemma_words_trailing_space(a, c);
        if a.len() == 0 {
            assert(words(a) =~= Seq::<Seq<char>>::empty());
        } else {
            assert(a.take(m) =~= a);
        }
        assert(links_of(s) =~= link_of_line(s));
        assert(links_of(a) =~= link_of_line(a));
    }
}

/// How the first line of a text is found again in a longer text.
proof fn lemma_line_len_append(a: Seq<char>, t: Seq<char>)
    ensures
        line_len(a) < a.len() ==> line_len(a + t) == line_len(a),
        line_len(a) >= a.len() ==> line_len(a + t) == a.len() + line_len(t),
    decreases a.len(),
{
    lemma_line_len_bound(a);
    if a.len() == 0 {
        assert(a + t =~= t);
    } else if a[0] == '\n' {
        assert((a + t)[0] == '\n');
    } else {
        assert((a + t).drop_first() =~= a.drop_first() + t);
        lemma_line_len_append(a.drop_first(), t);
    }
}

} // verus!
