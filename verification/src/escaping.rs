//! Escaped text is read back as what was escaped.
use vstd::prelude::*;

use crate::markup;
use crate::text;

verus! {

/// What `f` writes for the characters of `s`, one after the other.
pub open spec fn flat(s: Seq<char>, f: spec_fn(char) -> Seq<char>) -> Seq<char>
    decreases s.len(),
{
    if s.len() == 0 {
        Seq::empty()
    } else {
        f(s[0]) + flat(s.drop_first(), f)
    }
}

/// What `f` writes, with `q` where it writes `p`.
pub open spec fn instead(f: spec_fn(char) -> Seq<char>, p: Seq<char>, q: Seq<char>) -> spec_fn(
    char,
) -> Seq<char> {
    |c: char|
        if f(c) == p {
            q
        } else {
            f(c)
        }
}

/// `x` is `p`, or no `p` starts inside it.
pub open spec fn apart(x: Seq<char>, p: Seq<char>) -> bool {
    x == p || (x.len() > 0 && (forall|k: int| 1 <= k < x.len() ==> #[trigger] x[k] != p[0]) && (
    exists|m: int| 0 <= m < x.len() && m < p.len() && #[trigger] x[m] != p[m]))
}

pub proof fn lemma_find_shift(a: Seq<char>, b: Seq<char>, p: Seq<char>, j: int)
    requires
        0 <= j,
    ensures
        text::spec_find(a + b, p, a.len() + j) == match text::spec_find(b, p, j) {
            Some(k) => Some(a.len() + k),
            None => None,
        },
    decreases b.len() + 1 - j,
{
    let t = a + b;
    let i = a.len() + j;
    if i + p.len() <= t.len() {
        assert(t.subrange(i, i + p.len()) =~= b.subrange(j, j + p.len()));
        if !text::is_at(b, p, j) {
            lemma_find_shift(a, b, p, j + 1);
        }
    }
}

proof fn lemma_replace_shift(a: Seq<char>, b: Seq<char>, p: Seq<char>, q: Seq<char>, j: int)
    requires
        0 <= j <= b.len(),
        p.len() > 0,
    ensures
        text::replace_from(a + b, p, q, a.len() + j) == text::replace_from(b, p, q, j),
    decreases b.len() - j,
{
    let t = a + b;
    lemma_find_shift(a, b, p, j);
    text::lemma_find(b, p, j);
    match text::spec_find(b, p, j) {
        Some(k) => {
            lemma_replace_shift(a, b, p, q, k + p.len());
            assert(t.subrange(a.len() + j, a.len() + k) =~= b.subrange(j, k));
        },
        None => {
            assert(t.subrange(a.len() + j, t.len() as int) =~= b.subrange(j, b.len() as int));
        },
    }
}

proof fn lemma_replace_at(p: Seq<char>, rest: Seq<char>, q: Seq<char>)
    requires
        p.len() > 0,
    ensures
        text::spec_replace(p + rest, p, q) == q + text::spec_replace(rest, p, q),
{
    let t = p + rest;
    assert(t.subrange(0, p.len() as int) =~= p);
    assert(text::spec_find(t, p, 0) == Some(0int));
    lemma_replace_shift(p, rest, p, q, 0);
    assert(t.subrange(0, 0) + q =~= q);
}

proof fn lemma_replace_past(t: Seq<char>, p: Seq<char>, q: Seq<char>)
    requires
        p.len() > 0,
        t.len() > 0,
        !text::is_at(t, p, 0),
    ensures
        text::spec_replace(t, p, q) == seq![t[0]] + text::spec_replace(t.drop_first(), p, q),
{
    let head = seq![t[0]];
    let rest = t.drop_first();
    assert(head + rest =~= t);
    lemma_replace_shift(head, rest, p, q, 0);
    text::lemma_find(t, p, 0);
    text::lemma_find(t, p, 1);
    assert(text::spec_replace(t, p, q) == head + text::replace_from(t, p, q, 1)) by {
        match text::spec_find(t, p, 0) {
            Some(k) => {
                assert(t.subrange(0, k) =~= head + t.subrange(1, k));
                assert(head + t.subrange(1, k) + q + text::replace_from(t, p, q, k + p.len())
                    =~= head + (t.subrange(1, k) + q + text::replace_from(t, p, q, k + p.len())));
            },
            None => {
                if 1 + p.len() <= t.len() {
                    assert(text::spec_find(t, p, 1) is None);
                }
                assert(t.subrange(0, t.len() as int) =~= head + t.subrange(1, t.len() as int));
            },
        }
    }
}

proof fn lemma_replace_skips(y: Seq<char>, rest: Seq<char>, p: Seq<char>, q: Seq<char>)
    requires
        p.len() > 0,
        forall|k: int| 0 <= k < y.len() ==> #[trigger] y[k] != p[0],
    ensures
        text::spec_replace(y + rest, p, q) == y + text::spec_replace(rest, p, q),
    decreases y.len(),
{
    let t = y + rest;
    if y.len() == 0 {
        assert(t =~= rest);
        assert(y + text::spec_replace(rest, p, q) =~= text::spec_replace(rest, p, q));
    } else {
        let z = y.drop_first();
        if text::is_at(t, p, 0) {
            assert(t.subrange(0, p.len() as int)[0] == p[0]);
            assert(t[0] == y[0]);
        }
        lemma_replace_past(t, p, q);
        assert(t.drop_first() =~= z + rest);
        assert forall|k: int| 0 <= k < z.len() implies #[trigger] z[k] != p[0] by {
            assert(z[k] == y[k + 1]);
        }
        lemma_replace_skips(z, rest, p, q);
        assert(seq![y[0]] + z =~= y);
        assert(seq![y[0]] + (z + text::spec_replace(rest, p, q)) =~= y + text::spec_replace(
            rest,
            p,
            q,
        ));
    }
}

proof fn lemma_replace_apart(x: Seq<char>, rest: Seq<char>, p: Seq<char>, q: Seq<char>)
    requires
        p.len() > 0,
        apart(x, p),
        x != p,
    ensures
        text::spec_replace(x + rest, p, q) == x + text::spec_replace(rest, p, q),
{
    let t = x + rest;
    let m = choose|m: int| 0 <= m < x.len() && m < p.len() && #[trigger] x[m] != p[m];
    if text::is_at(t, p, 0) {
        assert(t.subrange(0, p.len() as int)[m] == p[m]);
        assert(t[m] == x[m]);
    }
    lemma_replace_past(t, p, q);
    let z = x.drop_first();
    assert(t.drop_first() =~= z + rest);
    assert forall|k: int| 0 <= k < z.len() implies #[trigger] z[k] != p[0] by {
        assert(z[k] == x[k + 1]);
    }
    lemma_replace_skips(z, rest, p, q);
    assert(seq![x[0]] + (z + text::spec_replace(rest, p, q)) =~= x + text::spec_replace(
        rest,
        p,
        q,
    ));
}

/// A replacement in what `f` writes replaces what it writes for single
/// characters.
proof fn lemma_replace_flat(
    s: Seq<char>,
    f: spec_fn(char) -> Seq<char>,
    p: Seq<char>,
    q: Seq<char>,
)
    requires
        p.len() > 0,
        forall|c: char| apart(#[trigger] f(c), p),
    ensures
        text::spec_replace(flat(s, f), p, q) == flat(s, instead(f, p, q)),
    decreases s.len(),
{
    if s.len() == 0 {
        let none = Seq::<char>::empty();
        assert(none.subrange(0, 0) =~= none);
    } else {
        let rest = flat(s.drop_first(), f);
        lemma_replace_flat(s.drop_first(), f, p, q);
        assert(apart(f(s[0]), p));
        if f(s[0]) == p {
            lemma_replace_at(p, rest, q);
        } else {
            lemma_replace_apart(f(s[0]), rest, p, q);
        }
    }
}

pub proof fn lemma_flat_same(
    s: Seq<char>,
    f: spec_fn(char) -> Seq<char>,
    g: spec_fn(char) -> Seq<char>,
)
    requires
        forall|k: int| 0 <= k < s.len() ==> f(#[trigger] s[k]) == g(s[k]),
    ensures
        flat(s, f) == flat(s, g),
    decreases s.len(),
{
    if s.len() > 0 {
        let r = s.drop_first();
        assert forall|k: int| 0 <= k < r.len() implies f(#[trigger] r[k]) == g(r[k]) by {
            assert(r[k] == s[k + 1]);
        }
        lemma_flat_same(r, f, g);
        assert(f(s[0]) == g(s[0]));
    }
}

pub proof fn lemma_flat_plain(s: Seq<char>)
    ensures
        flat(s, |c: char| seq![c]) == s,
    decreases s.len(),
{
    if s.len() > 0 {
        lemma_flat_plain(s.drop_first());
        assert(seq![s[0]] + s.drop_first() =~= s);
    }
}

/// What escaping writes for a character, of an attribute's value or of text.
pub open spec fn entity(c: char, attr: bool) -> Seq<char> {
    if c == '&' {
        "&amp;"@
    } else if c == '<' {
        "&lt;"@
    } else if c == '>' {
        "&gt;"@
    } else if c == '"' && attr {
        "&quot;"@
    } else {
        seq![c]
    }
}

proof fn lemma_apart_one(c: char, p: Seq<char>)
    requires
        p.len() > 0,
        c != p[0] || p.len() == 1,
    ensures
        apart(seq![c], p),
{
    if c == p[0] {
        assert(seq![c] =~= p);
    } else {
        assert(seq![c][0] != p[0]);
    }
}

proof fn lemma_apart_entity(x: Seq<char>, p: Seq<char>, m: int)
    requires
        0 <= m < x.len(),
        m < p.len(),
        x[m] != p[m],
        forall|k: int| 1 <= k < x.len() ==> #[trigger] x[k] != p[0],
    ensures
        apart(x, p),
{
}

proof fn lemma_entities()
    ensures
        "&amp;"@ == seq!['&', 'a', 'm', 'p', ';'],
        "&lt;"@ == seq!['&', 'l', 't', ';'],
        "&gt;"@ == seq!['&', 'g', 't', ';'],
        "&quot;"@ == seq!['&', 'q', 'u', 'o', 't', ';'],
        "&apos;"@ == seq!['&', 'a', 'p', 'o', 's', ';'],
        "&#39;"@ == seq!['&', '#', '3', '9', ';'],
        "&"@ == seq!['&'],
        "<"@ == seq!['<'],
        ">"@ == seq!['>'],
        "\""@ == seq!['"'],
        "'"@ == seq!['\''],
{
    reveal_strlit("&amp;");
    reveal_strlit("&lt;");
    reveal_strlit("&gt;");
    reveal_strlit("&quot;");
    reveal_strlit("&apos;");
    reveal_strlit("&#39;");
    reveal_strlit("&");
    reveal_strlit("<");
    reveal_strlit(">");
    reveal_strlit("\"");
    reveal_strlit("'");
    assert("&amp;"@ =~= seq!['&', 'a', 'm', 'p', ';']);
    assert("&lt;"@ =~= seq!['&', 'l', 't', ';']);
    assert("&gt;"@ =~= seq!['&', 'g', 't', ';']);
    assert("&quot;"@ =~= seq!['&', 'q', 'u', 'o', 't', ';']);
    assert("&apos;"@ =~= seq!['&', 'a', 'p', 'o', 's', ';']);
    assert("&#39;"@ =~= seq!['&', '#', '3', '9', ';']);
    assert("&"@ =~= seq!['&']);
    assert("<"@ =~= seq!['<']);
    assert(">"@ =~= seq!['>']);
    assert("\""@ =~= seq!['"']);
    assert("'"@ =~= seq!['\'']);
}

proof fn lemma_all_apart_ones(f: spec_fn(char) -> Seq<char>, c: char, p: Seq<char>)
    requires
        p.len() == 1,
        f(c) == seq![c] || f(c) == "&amp;"@ || f(c) == "&lt;"@ || f(c) == "&gt;"@,
        p[0] != '&' || f(c) == seq![c],
        p[0] == '&' || p[0] == '<' || p[0] == '>' || p[0] == '"',
    ensures
        apart(f(c), p),
{
    lemma_entities();
    if f(c) == seq![c] {
        lemma_apart_one(c, p);
    } else {
        lemma_apart_entity(f(c), p, 0);
    }
}

/// What is written for a character once the first `n` of the replacements of an
/// escape are made.
spec fn half_escaped(c: char, n: int) -> Seq<char> {
    if c == '&' && n >= 1 {
        "&amp;"@
    } else if c == '<' && n >= 2 {
        "&lt;"@
    } else if c == '>' && n >= 3 {
        "&gt;"@
    } else if c == '"' && n >= 4 {
        "&quot;"@
    } else {
        seq![c]
    }
}

spec fn escaped_mark(n: int) -> (Seq<char>, Seq<char>) {
    if n == 0 {
        ("&"@, "&amp;"@)
    } else if n == 1 {
        ("<"@, "&lt;"@)
    } else if n == 2 {
        (">"@, "&gt;"@)
    } else {
        ("\""@, "&quot;"@)
    }
}

proof fn lemma_escape_step(s: Seq<char>, n: int)
    requires
        0 <= n < 4,
    ensures
        text::spec_replace(
            flat(s, |c: char| half_escaped(c, n)),
            escaped_mark(n).0,
            escaped_mark(n).1,
        ) == flat(s, |c: char| half_escaped(c, n + 1)),
{
    let (p, q) = escaped_mark(n);
    let f = |c: char| half_escaped(c, n);
    let g = |c: char| half_escaped(c, n + 1);
    lemma_entities();
    assert forall|c: char| apart(#[trigger] f(c), p) by {
        lemma_all_apart_ones(f, c, p);
    }
    lemma_replace_flat(s, f, p, q);
    assert forall|k: int| 0 <= k < s.len() implies instead(f, p, q)(#[trigger] s[k]) == g(
        s[k],
    ) by {
        let c = s[k];
        if f(c) == p {
            assert(f(c).len() == 1);
            assert(seq![c][0] == c);
        } else {
            assert(seq![c] =~= p <==> c == p[0]);
        }
    }
    lemma_flat_same(s, instead(f, p, q), g);
}

/// Escaping writes each character by itself, or an entity for it.
pub proof fn lemma_escape(s: Seq<char>)
    ensures
        markup::spec_escape_text(s) == flat(s, |c: char| entity(c, false)),
        markup::spec_escape_attr(s) == flat(s, |c: char| entity(c, true)),
{
    lemma_flat_plain(s);
    lemma_flat_same(s, |c: char| seq![c], |c: char| half_escaped(c, 0));
    lemma_escape_step(s, 0);
    lemma_escape_step(s, 1);
    lemma_escape_step(s, 2);
    lemma_escape_step(s, 3);
    lemma_flat_same(s, |c: char| half_escaped(c, 3), |c: char| entity(c, false));
    lemma_flat_same(s, |c: char| half_escaped(c, 4), |c: char| entity(c, true));
}

/// What stands for a character once the first `n` of the replacements of a
/// reading are made.
spec fn half_read(c: char, attr: bool, n: int) -> Seq<char> {
    if c == '&' && n < 6 {
        "&amp;"@
    } else if c == '<' && n < 1 {
        "&lt;"@
    } else if c == '>' && n < 2 {
        "&gt;"@
    } else if c == '"' && attr && n < 3 {
        "&quot;"@
    } else {
        seq![c]
    }
}

spec fn read_mark(n: int) -> (Seq<char>, Seq<char>) {
    if n == 0 {
        ("&lt;"@, "<"@)
    } else if n == 1 {
        ("&gt;"@, ">"@)
    } else if n == 2 {
        ("&quot;"@, "\""@)
    } else if n == 3 {
        ("&apos;"@, "'"@)
    } else if n == 4 {
        ("&#39;"@, "'"@)
    } else {
        ("&amp;"@, "&"@)
    }
}

proof fn lemma_half_read_apart(c: char, attr: bool, n: int)
    requires
        0 <= n < 6,
    ensures
        apart(half_read(c, attr, n), read_mark(n).0),
        half_read(c, attr, n + 1) == if half_read(c, attr, n) == read_mark(n).0 {
            read_mark(n).1
        } else {
            half_read(c, attr, n)
        },
{
    lemma_entities();
    let x = half_read(c, attr, n);
    let p = read_mark(n).0;
    if x == seq![c] {
        assert(c != '&');
        lemma_apart_one(c, p);
        assert(x.len() != p.len());
    } else if x != p {
        if x == "&amp;"@ {
            assert(x[1] == 'a' && x[2] == 'm');
            if n == 3 {
                lemma_apart_entity(x, p, 2);
            } else {
                lemma_apart_entity(x, p, 1);
            }
        } else {
            lemma_apart_entity(x, p, 1);
        }
    } else {
        assert(read_mark(n).1 =~= seq![c]);
    }
}

proof fn lemma_read_step(s: Seq<char>, attr: bool, n: int)
    requires
        0 <= n < 6,
    ensures
        text::spec_replace(
            flat(s, |c: char| half_read(c, attr, n)),
            read_mark(n).0,
            read_mark(n).1,
        ) == flat(s, |c: char| half_read(c, attr, n + 1)),
{
    let (p, q) = read_mark(n);
    let f = |c: char| half_read(c, attr, n);
    let g = |c: char| half_read(c, attr, n + 1);
    lemma_entities();
    assert forall|c: char| apart(#[trigger] f(c), p) by {
        lemma_half_read_apart(c, attr, n);
    }
    lemma_replace_flat(s, f, p, q);
    assert forall|k: int| 0 <= k < s.len() implies instead(f, p, q)(#[trigger] s[k]) == g(
        s[k],
    ) by {
        lemma_half_read_apart(s[k], attr, n);
    }
    lemma_flat_same(s, instead(f, p, q), g);
}

proof fn lemma_flat_has(s: Seq<char>, f: spec_fn(char) -> Seq<char>, k: int, c: char)
    requires
        0 <= k < s.len(),
        f(s[k]).contains(c),
    ensures
        flat(s, f).contains(c),
    decreases s.len(),
{
    let head = f(s[0]);
    let tail = flat(s.drop_first(), f);
    if k == 0 {
        let j = choose|j: int| 0 <= j < head.len() && head[j] == c;
        assert((head + tail)[j] == c);
    } else {
        assert(s.drop_first()[k - 1] == s[k]);
        lemma_flat_has(s.drop_first(), f, k - 1, c);
        let j = choose|j: int| 0 <= j < tail.len() && tail[j] == c;
        assert((head + tail)[head.len() + j] == c);
    }
}

proof fn lemma_unescape_flat(s: Seq<char>, attr: bool)
    ensures
        markup::spec_unescape(flat(s, |c: char| entity(c, attr))) == s,
{
    let f = |c: char| entity(c, attr);
    let t = flat(s, f);
    lemma_flat_plain(s);
    if !t.contains('&') {
        assert forall|k: int| 0 <= k < s.len() implies f(#[trigger] s[k]) == seq![s[k]] by {
            lemma_entities();
            if f(s[k]) != seq![s[k]] {
                assert(f(s[k])[0] == '&');
                lemma_flat_has(s, f, k, '&');
            }
        }
        lemma_flat_same(s, f, |c: char| seq![c]);
    } else {
        lemma_flat_same(s, f, |c: char| half_read(c, attr, 0));
        lemma_read_step(s, attr, 0);
        lemma_read_step(s, attr, 1);
        lemma_read_step(s, attr, 2);
        lemma_read_step(s, attr, 3);
        lemma_read_step(s, attr, 4);
        lemma_read_step(s, attr, 5);
        lemma_flat_same(s, |c: char| half_read(c, attr, 6), |c: char| seq![c]);
    }
}

/// Reading undoes escaping, of text and of an attribute's value.
pub proof fn unescaping_undoes_escaping(s: Seq<char>)
    ensures
        markup::spec_unescape(markup::spec_escape_text(s)) == s,
        markup::spec_unescape(markup::spec_escape_attr(s)) == s,
{
    lemma_escape(s);
    lemma_unescape_flat(s, false);
    lemma_unescape_flat(s, true);
}

proof fn lemma_flat_lacks(s: Seq<char>, attr: bool)
    ensures
        !flat(s, |c: char| entity(c, attr)).contains('<'),
        !flat(s, |c: char| entity(c, attr)).contains('>'),
        attr ==> !flat(s, |c: char| entity(c, attr)).contains('"'),
    decreases s.len(),
{
    if s.len() > 0 {
        lemma_flat_lacks(s.drop_first(), attr);
        lemma_entities();
        let f = |c: char| entity(c, attr);
        let head = entity(s[0], attr);
        let tail = flat(s.drop_first(), f);
        let t = head + tail;
        assert(flat(s, f) == t);
        assert forall|k: int| 0 <= k < t.len() implies (#[trigger] t[k]) != '<' && t[k] != '>' && (
        attr ==> t[k] != '"') by {
            if k < head.len() {
                assert(t[k] == head[k]);
            } else {
                assert(t[k] == tail[k - head.len()]);
                assert(tail.contains(tail[k - head.len()]));
            }
        }
    }
}

/// Escaped text holds no markup: no `<`, no `>`, and in an attribute's value no
/// `"`.
pub proof fn escaping_leaves_no_markup(s: Seq<char>)
    ensures
        !markup::spec_escape_text(s).contains('<'),
        !markup::spec_escape_text(s).contains('>'),
        !markup::spec_escape_attr(s).contains('<'),
        !markup::spec_escape_attr(s).contains('>'),
        !markup::spec_escape_attr(s).contains('"'),
{
    lemma_escape(s);
    lemma_flat_lacks(s, false);
    lemma_flat_lacks(s, true);
}

} // verus!
