//! Collision scripts: the code a body runs when one of its collisions
//! starts. Where the code holds a `$`, the readings of the body are written
//! into it first: `$x`, `$y`, `$rx`, `$ry`, `$rot`, `$vx`, `$vy`, `$va`,
//! `$mass` and `$inertia`, each replaced, in that order, everywhere it
//! occurs.
use vstd::prelude::*;

use crate::text::{chars_of, string_of};

verus! {

/// `s` with every occurrence of `pat` replaced by `rep`, scanning from the
/// left and resuming after each replaced occurrence, as `str::replace`
/// does for a non-empty pattern. An empty pattern replaces nothing.
pub open spec fn replace_all(s: Seq<char>, pat: Seq<char>, rep: Seq<char>) -> Seq<char>
    decreases s.len(),
{
    if s.len() == 0 {
        seq![]
    } else if pat.len() > 0 && pat.len() <= s.len() && s.take(pat.len() as int) == pat {
        rep + replace_all(s.skip(pat.len() as int), pat, rep)
    } else {
        seq![s[0]] + replace_all(s.drop_first(), pat, rep)
    }
}

/// The readings of a body, each already written as text.
pub struct Readings {
    pub x: String,
    pub y: String,
    pub rx: String,
    pub ry: String,
    pub rot: String,
    pub vx: String,
    pub vy: String,
    pub va: String,
    pub mass: String,
    pub inertia: String,
}

/// The code with the readings written into it, placeholder by placeholder.
pub open spec fn substituted(code: Seq<char>, r: Readings) -> Seq<char> {
    let c = replace_all(code, "$x"@, r.x@);
    let c = replace_all(c, "$y"@, r.y@);
    let c = replace_all(c, "$rx"@, r.rx@);
    let c = replace_all(c, "$ry"@, r.ry@);
    let c = replace_all(c, "$rot"@, r.rot@);
    let c = replace_all(c, "$vx"@, r.vx@);
    let c = replace_all(c, "$vy"@, r.vy@);
    let c = replace_all(c, "$va"@, r.va@);
    let c = replace_all(c, "$mass"@, r.mass@);
    replace_all(c, "$inertia"@, r.inertia@)
}

/// Whether `pat` occurs in `s` at index `i`.
fn occurs_at(s: &Vec<char>, i: usize, pat: &Vec<char>) -> (r: bool)
    requires
        i <= s.len(),
    ensures
        r == (i + pat.len() <= s.len() && s@.subrange(i as int, i + pat.len()) == pat@),
{
    if pat.len() > s.len() - i {
        return false;
    }
    let mut k: usize = 0;
    while k < pat.len()
        invariant
            i + pat.len() <= s.len(),
            k <= pat.len(),
            forall|m: int| 0 <= m < k ==> s@[i + m] == pat@[m],
        decreases pat.len() - k,
    {
        if s[i + k] != pat[k] {
            assert(s@.subrange(i as int, i + pat.len())[k as int] != pat@[k as int]);
            return false;
        }
        k = k + 1;
    }
    assert(s@.subrange(i as int, i + pat.len()) =~= pat@);
    true
}

/// `s` with every occurrence of `pat` replaced by `rep` (see `replace_all`).
fn replace_chars(s: &Vec<char>, pat: &Vec<char>, rep: &Vec<char>) -> (out: Vec<char>)
    ensures
        out@ == replace_all(s@, pat@, rep@),
{
    let n = s.len();
    let mut out: Vec<char> = Vec::new();
    let mut i: usize = 0;
    assert(s@.skip(0) =~= s@);
    while i < n
        invariant
            n == s.len(),
            i <= n,
            out@ + replace_all(s@.skip(i as int), pat@, rep@) == replace_all(s@, pat@, rep@),
        decreases n - i,
    {
        let ghost t = s@.skip(i as int);
        let ghost before = out@;
        if pat.len() > 0 && occurs_at(s, i, pat) {
            assert(t.take(pat.len() as int) =~= s@.subrange(i as int, i + pat.len()));
            assert(t.skip(pat.len() as int) =~= s@.skip(i + pat.len()));
            let mut k: usize = 0;
            while k < rep.len()
                invariant
                    k <= rep.len(),
                    out@ == before + rep@.take(k as int),
                decreases rep.len() - k,
            {
                out.push(rep[k]);
                assert(rep@.take(k + 1) =~= rep@.take(k as int).push(rep@[k as int]));
                k = k + 1;
            }
            assert(rep@.take(rep.len() as int) =~= rep@);
            assert(out@ + replace_all(s@.skip(i + pat.len()), pat@, rep@) =~= before + (rep@
                + replace_all(t.skip(pat.len() as int), pat@, rep@)));
            i = i + pat.len();
        } else {
            proof {
                if pat.len() > 0 && pat.len() <= t.len() {
                    assert(t.take(pat.len() as int) =~= s@.subrange(i as int, i + pat.len()));
                }
            }
            assert(t.drop_first() =~= s@.skip(i + 1));
            out.push(s[i]);
            assert(out@ + replace_all(s@.skip(i + 1), pat@, rep@) =~= before + (seq![t[0]]
                + replace_all(t.drop_first(), pat@, rep@)));
            i = i + 1;
        }
    }
    assert(s@.skip(n as int) =~= Seq::<char>::empty());
    assert(out@ + Seq::<char>::empty() =~= out@);
    out
}

/// `cs` with every occurrence of `pat` replaced by the characters of `rep`.
fn replace_text(cs: &Vec<char>, pat: &str, rep: &String) -> (out: Vec<char>)
    ensures
        out@ == replace_all(cs@, pat@, rep@),
{
    let p = chars_of(pat);
    let r = chars_of(rep.as_str());
    replace_chars(cs, &p, &r)
}

/// Whether the code holds a `$`, so that the readings of the body are
/// written into it before it runs.
pub fn needs_readings(code: &str) -> (b: bool)
    ensures
        b == code@.contains('$'),
{
    let cs = chars_of(code);
    let mut i: usize = 0;
    while i < cs.len()
        invariant
            cs@ == code@,
            i <= cs.len(),
            forall|k: int| 0 <= k < i ==> cs@[k] != '$',
        decreases cs.len() - i,
    {
        if cs[i] == '$' {
            assert(code@[i as int] == '$');
            return true;
        }
        i = i + 1;
    }
    false
}

/// The code with the readings written into it: `$x`, `$y`, `$rx`, `$ry`,
/// `$rot`, `$vx`, `$vy`, `$va`, `$mass`, then `$inertia`, each replaced
/// everywhere by its reading.
pub fn substitute_readings(code: &str, readings: &Readings) -> (s: String)
    ensures
        s@ == substituted(code@, *readings),
{
    let c = chars_of(code);
    let c = replace_text(&c, "$x", &readings.x);
    let c = replace_text(&c, "$y", &readings.y);
    let c = replace_text(&c, "$rx", &readings.rx);
    let c = replace_text(&c, "$ry", &readings.ry);
    let c = replace_text(&c, "$rot", &readings.rot);
    let c = replace_text(&c, "$vx", &readings.vx);
    let c = replace_text(&c, "$vy", &readings.vy);
    let c = replace_text(&c, "$va", &readings.va);
    let c = replace_text(&c, "$mass", &readings.mass);
    let c = replace_text(&c, "$inertia", &readings.inertia);
    string_of(&c, 0, c.len())
}

/// The collision code of a body.
pub struct Code(pub String);

impl Default for Code {
    fn default() -> (c: Code)
        ensures
            c.0@ == Seq::<char>::empty(),
    {
        Code(String::new())
    }
}

/// Replacing a pattern that starts with `$` leaves a text without `$`
/// unchanged.
proof fn lemma_replace_absent(s: Seq<char>, pat: Seq<char>, rep: Seq<char>)
    requires
        pat.len() > 0,
        pat[0] == '$',
        !s.contains('$'),
    ensures
        replace_all(s, pat, rep) == s,
    decreases s.len(),
{
    if s.len() > 0 {
        if pat.len() <= s.len() && s.take(pat.len() as int) == pat {
            assert(s.take(pat.len() as int)[0] == s[0]);
            assert(s.contains(s[0]));
        }
        let t = s.drop_first();
        assert(!t.contains('$')) by {
            if t.contains('$') {
                let k = choose|k: int| 0 <= k < t.len() && t[k] == '$';
                assert(s[k + 1] == '$');
            }
        }
        lemma_replace_absent(t, pat, rep);
        assert(seq![s[0]] + t =~= s);
    }
}

/// A code without `$` runs as written: writing readings into it would not
/// change it.
pub proof fn law_code_without_dollar_is_unchanged(code: Seq<char>, r: Readings)
    requires
        !code.contains('$'),
    ensures
        substituted(code, r) == code,
{
    reveal_strlit("$x");
    reveal_strlit("$y");
    reveal_strlit("$rx");
    reveal_strlit("$ry");
    reveal_strlit("$rot");
    reveal_strlit("$vx");
    reveal_strlit("$vy");
    reveal_strlit("$va");
    reveal_strlit("$mass");
    reveal_strlit("$inertia");
    lemma_replace_absent(code, "$x"@, r.x@);
    lemma_replace_absent(code, "$y"@, r.y@);
    lemma_replace_absent(code, "$rx"@, r.rx@);
    lemma_replace_absent(code, "$ry"@, r.ry@);
    lemma_replace_absent(code, "$rot"@, r.rot@);
    lemma_replace_absent(code, "$vx"@, r.vx@);
    lemma_replace_absent(code, "$vy"@, r.vy@);
    lemma_replace_absent(code, "$va"@, r.va@);
    lemma_replace_absent(code, "$mass"@, r.mass@);
    lemma_replace_absent(code, "$inertia"@, r.inertia@);
}

/// A text with no line feed.
pub open spec fn has_no_line_feed(s: Seq<char>) -> bool {
    forall|k: int| 0 <= k < s.len() ==> #[trigger] s[k] != '\n'
}

/// A text that starts with the pattern starts, once replaced, with the
/// replacement, and the rest is replaced on its own.
pub proof fn law_replace_at_pattern(pat: Seq<char>, s: Seq<char>, rep: Seq<char>)
    requires
        pat.len() > 0,
    ensures
        replace_all(pat + s, pat, rep) == rep + replace_all(s, pat, rep),
{
    let t = pat + s;
    assert(t.take(pat.len() as int) =~= pat);
    assert(t.skip(pat.len() as int) =~= s);
}

/// A pattern without a line feed is replaced line by line: replacing in two
/// lines joined by a line feed is replacing in each line.
pub proof fn law_replace_by_lines(a: Seq<char>, b: Seq<char>, pat: Seq<char>, rep: Seq<char>)
    requires
        has_no_line_feed(pat),
    ensures
        replace_all(a + seq!['\n'] + b, pat, rep) == replace_all(a, pat, rep) + seq!['\n']
            + replace_all(b, pat, rep),
    decreases a.len(),
{
    let s = a + seq!['\n'] + b;
    let plen = pat.len() as int;
    if a.len() == 0 {
        assert(s[0] == '\n');
        if pat.len() > 0 && pat.len() <= s.len() {
            assert(s.take(plen)[0] == s[0]);
            assert(pat[0] != '\n');
        }
        assert(s.drop_first() =~= b);
        assert(replace_all(a, pat, rep) =~= Seq::<char>::empty());
        assert(replace_all(s, pat, rep) =~= replace_all(a, pat, rep) + seq!['\n'] + replace_all(
            b,
            pat,
            rep,
        ));
    } else if pat.len() > 0 && pat.len() <= a.len() && a.take(plen) == pat {
        assert(s.take(plen) =~= a.take(plen));
        assert(s.skip(plen) =~= a.skip(plen) + seq!['\n'] + b);
        law_replace_by_lines(a.skip(plen), b, pat, rep);
        assert(replace_all(s, pat, rep) =~= rep + (replace_all(a.skip(plen), pat, rep) + seq![
            '\n',
        ] + replace_all(b, pat, rep)));
    } else {
        if pat.len() > 0 && pat.len() <= s.len() {
            if plen <= a.len() {
                assert(s.take(plen) =~= a.take(plen));
            } else {
                assert(s.take(plen)[a.len() as int] == '\n');
                assert(pat[a.len() as int] != '\n');
            }
        }
        assert(s[0] == a[0]);
        assert(s.drop_first() =~= a.drop_first() + seq!['\n'] + b);
        law_replace_by_lines(a.drop_first(), b, pat, rep);
        assert(replace_all(s, pat, rep) =~= seq![a[0]] + (replace_all(a.drop_first(), pat, rep)
            + seq!['\n'] + replace_all(b, pat, rep)));
    }
}

/// Readings are written into every line of the code: the code of two lines
/// joined by a line feed, with readings written in, is each line with
/// readings written in, joined by the line feed.
pub proof fn law_readings_by_lines(a: Seq<char>, b: Seq<char>, r: Readings)
    ensures
        substituted(a + seq!['\n'] + b, r) == substituted(a, r) + seq!['\n'] + substituted(b, r),
{
    reveal_strlit("$x");
    reveal_strlit("$y");
    reveal_strlit("$rx");
    reveal_strlit("$ry");
    reveal_strlit("$rot");
    reveal_strlit("$vx");
    reveal_strlit("$vy");
    reveal_strlit("$va");
    reveal_strlit("$mass");
    reveal_strlit("$inertia");
    let a1 = replace_all(a, "$x"@, r.x@);
    let b1 = replace_all(b, "$x"@, r.x@);
    law_replace_by_lines(a, b, "$x"@, r.x@);
    let a2 = replace_all(a1, "$y"@, r.y@);
    let b2 = replace_all(b1, "$y"@, r.y@);
    law_replace_by_lines(a1, b1, "$y"@, r.y@);
    let a3 = replace_all(a2, "$rx"@, r.rx@);
    let b3 = replace_all(b2, "$rx"@, r.rx@);
    law_replace_by_lines(a2, b2, "$rx"@, r.rx@);
    let a4 = replace_all(a3, "$ry"@, r.ry@);
    let b4 = replace_all(b3, "$ry"@, r.ry@);
    law_replace_by_lines(a3, b3, "$ry"@, r.ry@);
    let a5 = replace_all(a4, "$rot"@, r.rot@);
    let b5 = replace_all(b4, "$rot"@, r.rot@);
    law_replace_by_lines(a4, b4, "$rot"@, r.rot@);
    let a6 = replace_all(a5, "$vx"@, r.vx@);
    let b6 = replace_all(b5, "$vx"@, r.vx@);
    law_replace_by_lines(a5, b5, "$vx"@, r.vx@);
    let a7 = replace_all(a6, "$vy"@, r.vy@);
    let b7 = replace_all(b6, "$vy"@, r.vy@);
    law_replace_by_lines(a6, b6, "$vy"@, r.vy@);
    let a8 = replace_all(a7, "$va"@, r.va@);
    let b8 = replace_all(b7, "$va"@, r.va@);
    law_replace_by_lines(a7, b7, "$va"@, r.va@);
    let a9 = replace_all(a8, "$mass"@, r.mass@);
    let b9 = replace_all(b8, "$mass"@, r.mass@);
    law_replace_by_lines(a8, b8, "$mass"@, r.mass@);
    law_replace_by_lines(a9, b9, "$inertia"@, r.inertia@);
}

/// A text in which the pattern occurs nowhere is left as it is.
pub proof fn law_replace_without_occurrence(s: Seq<char>, pat: Seq<char>, rep: Seq<char>)
    requires
        forall|k: int| 0 <= k && k + pat.len() <= s.len() ==> #[trigger] s.subrange(k, k + pat.len()) != pat,
    ensures
        replace_all(s, pat, rep) == s,
    decreases s.len(),
{
    if s.len() > 0 {
        if pat.len() > 0 && pat.len() <= s.len() {
            assert(s.take(pat.len() as int) =~= s.subrange(0int, 0int + pat.len()));
        }
        let t = s.drop_first();
        assert forall|k: int| 0 <= k && k + pat.len() <= t.len() implies #[trigger] t.subrange(
            k,
            k + pat.len(),
        ) != pat by {
            assert(t.subrange(k, k + pat.len()) =~= s.subrange(k + 1, k + 1 + pat.len()));
        }
        law_replace_without_occurrence(t, pat, rep);
        assert(seq![s[0]] + t =~= s);
    }
}

} // verus!
