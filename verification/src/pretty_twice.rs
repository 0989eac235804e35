//! Re-indenting a document that is re-indented changes nothing.
use vstd::prelude::*;

use crate::markup::Token;
use crate::pretty::{Last, Pen};
use crate::tidy::{from, has_tag, is_piece, is_tidy, piece, tail};
use crate::version_read::is_prolog;
use crate::{markup, pretty, text, tidy};

verus! {

// ---------------------------------------------------------------- white space in the middle

/// The pattern holds no white space.
spec fn is_solid(p: Seq<char>) -> bool {
    p.len() > 0 && forall|k: int| 0 <= k < p.len() ==> !text::is_white(#[trigger] p[k])
}

/// White space that parts what is before it from `v`.
spec fn parts(w: Seq<char>, v: Seq<char>) -> bool {
    text::all_white(w) && (w.len() > 0 || v.len() == 0)
}

proof fn lemma_at_gap(u: Seq<char>, w: Seq<char>, v: Seq<char>, p: Seq<char>, k: int)
    requires
        is_solid(p),
        parts(w, v),
        0 <= k,
    ensures
        text::is_at(u + w + v, p, k) == (text::is_at(u, p, k) || (k >= u.len() + w.len() && text::is_at(
            v,
            p,
            k - u.len() - w.len(),
        ))),
{
    let s = u + w + v;
    let n = (u.len() + w.len()) as int;
    if k + p.len() <= u.len() {
        assert(s.subrange(k, k + p.len()) =~= u.subrange(k, k + p.len()));
    } else if k >= n {
        if k + p.len() <= s.len() {
            assert(s.subrange(k, k + p.len()) =~= v.subrange(k - n, k - n + p.len()));
        }
    } else if text::is_at(s, p, k) {
        let m = if k < u.len() {
            u.len() as int
        } else {
            k
        };
        assert(s.subrange(k, k + p.len())[m - k] == p[m - k]);
        assert(s[m] == w[m - u.len()]);
    }
}

/// Where the pattern is first found: in the one text, or else in the other.
spec fn found_in(u: Seq<char>, v: Seq<char>, p: Seq<char>) -> Option<(bool, int)> {
    match text::spec_find(u, p, 0) {
        Some(k) => Some((true, k + p.len())),
        None => match text::spec_find(v, p, 0) {
            Some(k) => Some((false, k + p.len())),
            None => None,
        },
    }
}

spec fn char_in(u: Seq<char>, v: Seq<char>, c: char) -> Option<(bool, int)> {
    match text::spec_find_char(u, c, 0) {
        Some(k) => Some((true, k + 1)),
        None => match text::spec_find_char(v, c, 0) {
            Some(k) => Some((false, k + 1)),
            None => None,
        },
    }
}

/// The place in the whole text.
spec fn placed(u: Seq<char>, w: Seq<char>, r: Option<(bool, int)>) -> Option<int> {
    match r {
        Some((true, e)) => Some(e),
        Some((false, e)) => Some(u.len() + w.len() + e),
        None => None,
    }
}

spec fn in_range(u: Seq<char>, v: Seq<char>, r: Option<(bool, int)>) -> bool {
    match r {
        Some((true, e)) => 0 < e <= u.len(),
        Some((false, e)) => 0 < e <= v.len(),
        None => true,
    }
}

proof fn lemma_find_gap(u: Seq<char>, w: Seq<char>, v: Seq<char>, p: Seq<char>)
    requires
        is_solid(p),
        parts(w, v),
    ensures
        markup::plus(text::spec_find(u + w + v, p, 0), p.len() as int) == placed(u, w, found_in(u, v, p)),
        in_range(u, v, found_in(u, v, p)),
{
    let s = u + w + v;
    let n = (u.len() + w.len()) as int;
    text::lemma_find(s, p, 0);
    text::lemma_find(u, p, 0);
    text::lemma_find(v, p, 0);
    if let Some(k) = text::spec_find(u, p, 0) {
        lemma_at_gap(u, w, v, p, k);
        let h = text::spec_find(s, p, 0)->0;
        lemma_at_gap(u, w, v, p, h);
    } else if let Some(k) = text::spec_find(v, p, 0) {
        lemma_at_gap(u, w, v, p, n + k);
        let h = text::spec_find(s, p, 0)->0;
        lemma_at_gap(u, w, v, p, h);
    } else if let Some(h) = text::spec_find(s, p, 0) {
        lemma_at_gap(u, w, v, p, h);
    }
}

proof fn lemma_char_gap(u: Seq<char>, w: Seq<char>, v: Seq<char>, c: char)
    requires
        !text::is_white(c),
        parts(w, v),
    ensures
        markup::plus(text::spec_find_char(u + w + v, c, 0), 1) == placed(u, w, char_in(u, v, c)),
        in_range(u, v, char_in(u, v, c)),
{
    let s = u + w + v;
    let n = (u.len() + w.len()) as int;
    text::lemma_find_char(s, c, 0);
    text::lemma_find_char(u, c, 0);
    text::lemma_find_char(v, c, 0);
    if let Some(k) = text::spec_find_char(u, c, 0) {
        assert(s[k] == u[k]);
        let h = text::spec_find_char(s, c, 0)->0;
        if h < k {
            assert(s[h] == u[h]);
        }
    } else if let Some(k) = text::spec_find_char(v, c, 0) {
        assert(s[n + k] == v[k]);
        let h = text::spec_find_char(s, c, 0)->0;
        if h < u.len() {
            assert(s[h] == u[h]);
        } else if h < n {
            assert(s[h] == w[h - u.len()]);
        } else {
            assert(s[h] == v[h - n]);
        }
    } else if let Some(h) = text::spec_find_char(s, c, 0) {
        if h < u.len() {
            assert(s[h] == u[h]);
        } else if h < n {
            assert(s[h] == w[h - u.len()]);
        } else {
            assert(s[h] == v[h - n]);
        }
    }
}

/// The pattern stands at the start.
proof fn lemma_start_gap(u: Seq<char>, w: Seq<char>, v: Seq<char>, p: Seq<char>)
    requires
        is_solid(p),
        parts(w, v),
        u.len() > 0,
    ensures
        text::is_at(u + w + v, p, 0) == text::is_at(u, p, 0),
{
    lemma_at_gap(u, w, v, p, 0);
}

// ---------------------------------------------------------------- asides

/// Where the aside that `u` starts ends.
spec fn aside_end(u: Seq<char>, v: Seq<char>) -> Option<(bool, int)> {
    if text::is_at(u, "<!--"@, 0) {
        found_in(u, v, "-->"@)
    } else if text::is_at(u, "<![CDATA["@, 0) {
        found_in(u, v, "]]>"@)
    } else if text::is_at(u, "<?"@, 0) {
        found_in(u, v, "?>"@)
    } else if text::is_at(u, "<!"@, 0) {
        char_in(u, v, '>')
    } else {
        None
    }
}

proof fn lemma_skipped_gap(u: Seq<char>, w: Seq<char>, v: Seq<char>)
    requires
        parts(w, v),
        u.len() > 0,
    ensures
        markup::skipped(u + w + v, 0) == placed(u, w, aside_end(u, v)),
        in_range(u, v, aside_end(u, v)),
{
    reveal_strlit("<!--");
    reveal_strlit("<![CDATA[");
    reveal_strlit("<?");
    reveal_strlit("<!");
    reveal_strlit("-->");
    reveal_strlit("]]>");
    reveal_strlit("?>");
    lemma_start_gap(u, w, v, "<!--"@);
    lemma_start_gap(u, w, v, "<![CDATA["@);
    lemma_start_gap(u, w, v, "<?"@);
    lemma_start_gap(u, w, v, "<!"@);
    lemma_find_gap(u, w, v, "-->"@);
    lemma_find_gap(u, w, v, "]]>"@);
    lemma_find_gap(u, w, v, "?>"@);
    lemma_char_gap(u, w, v, '>');
}

proof fn lemma_find_cut(s: Seq<char>, p: Seq<char>)
    requires
        text::spec_find(s, p, 0) is Some,
    ensures
        ({
            let k = text::spec_find(s, p, 0)->0;
            0 <= k && k + p.len() <= s.len() && text::spec_find(s.subrange(0, k + p.len()), p, 0)
                == Some(k)
        }),
{
    let k = text::spec_find(s, p, 0)->0;
    text::lemma_find(s, p, 0);
    let c = s.subrange(0, k + p.len());
    text::lemma_find(c, p, 0);
    assert(c.subrange(k, k + p.len()) =~= s.subrange(k, k + p.len()));
    assert(text::is_at(c, p, k));
    let h = text::spec_find(c, p, 0)->0;
    assert(c.subrange(h, h + p.len()) =~= s.subrange(h, h + p.len()));
    assert(text::is_at(s, p, h));
}

proof fn lemma_at_cut(s: Seq<char>, p: Seq<char>, e: int)
    requires
        0 <= e <= s.len(),
    ensures
        text::is_at(s.subrange(0, e), p, 0) == (text::is_at(s, p, 0) && p.len() <= e),
{
    if p.len() <= e {
        assert(s.subrange(0, e).subrange(0, p.len() as int) =~= s.subrange(0, p.len() as int));
    }
}

/// An aside ends where it ends, whatever follows.
proof fn lemma_skipped_cut(s: Seq<char>)
    requires
        markup::skipped(s, 0) is Some,
    ensures
        ({
            let e = markup::skipped(s, 0)->0;
            3 <= e <= s.len() && markup::skipped(s.subrange(0, e), 0) == Some(e)
        }),
{
    reveal_strlit("<!--");
    reveal_strlit("<![CDATA[");
    reveal_strlit("<?");
    reveal_strlit("<!");
    reveal_strlit("-->");
    reveal_strlit("]]>");
    reveal_strlit("?>");
    let e = markup::skipped(s, 0)->0;
    if text::is_at(s, "<!--"@, 0) {
        lemma_find_cut(s, "-->"@);
        text::lemma_find(s, "-->"@, 0);
        let k = e - 3;
        assert(s.subrange(0, 4)[0] == s[0] && s.subrange(0, 4)[1] == s[1]);
        assert(s.subrange(k, k + 3)[0] == s[k]);
    } else if text::is_at(s, "<![CDATA["@, 0) {
        lemma_find_cut(s, "]]>"@);
        text::lemma_find(s, "]]>"@, 0);
        let k = e - 3;
        assert forall|m: int| 0 <= m < 9 implies #[trigger] s[m] != ']' by {
            assert(s.subrange(0, 9)[m] == "<![CDATA["@[m]);
        }
        assert(s.subrange(k, k + 3)[0] == s[k]);
    } else if text::is_at(s, "<?"@, 0) {
        lemma_find_cut(s, "?>"@);
        text::lemma_find(s, "?>"@, 0);
        let k = e - 2;
        assert(s.subrange(0, 2)[0] == s[0]);
        assert(s.subrange(k, k + 2)[0] == s[k]);
    } else {
        text::lemma_find_char(s, '>', 0);
        let c = s.subrange(0, e);
        text::lemma_find_char(c, '>', 0);
        assert(c[e - 1] == '>');
        assert(s.subrange(0, 2)[0] == s[0] && s.subrange(0, 2)[1] == s[1]);
    }
    lemma_at_cut(s, "<!--"@, e);
    lemma_at_cut(s, "<![CDATA["@, e);
    lemma_at_cut(s, "<?"@, e);
    lemma_at_cut(s, "<!"@, e);
}

pub proof fn lemma_white_prolog(w: Seq<char>)
    requires
        text::all_white(w),
    ensures
        is_prolog(w),
    decreases w.len(),
{
    if w.contains('<') {
        let k = choose|k: int| 0 <= k < w.len() && w[k] == '<';
        assert(text::is_white(w[k]));
    }
    tidy::lemma_plain(w);
    if w.len() > 0 {
        assert(text::is_white(w[0]));
        assert(tail(w) =~= w.subrange(1, w.len() as int));
        assert forall|k: int| 0 <= k < tail(w).len() implies text::is_white(#[trigger] tail(w)[k]) by {
            assert(tail(w)[k] == w[k + 1]);
        }
        lemma_white_prolog(tail(w));
    }
}

proof fn lemma_prolog_join(x: Seq<char>, y: Seq<char>)
    requires
        is_prolog(x),
    ensures
        is_prolog(x + y) == is_prolog(y),
{
    tidy::lemma_has_tag_join(x, y);
    if is_prolog(y) {
        tidy::lemma_tidy_join(x, y);
    }
    if is_prolog(x + y) {
        tidy::lemma_cut_join(x, y, 0);
        tidy::lemma_tidy_cut(x + y, x.len() as int);
        assert(from(x + y, x.len() as int) =~= y);
    }
}

/// White space in a text without tags may be any other.
proof fn lemma_prolog_gap(u: Seq<char>, w: Seq<char>, x: Seq<char>, v: Seq<char>)
    requires
        text::all_white(w),
        text::all_white(x),
        u.len() > 0 ==> parts(w, v) && parts(x, v),
        is_prolog(u + w + v),
    ensures
        is_prolog(u + x + v),
    decreases u.len(), 1int,
{
    let s = u + w + v;
    let t = u + x + v;
    if u.len() == 0 {
        lemma_white_prolog(w);
        lemma_white_prolog(x);
        assert(s =~= w + v);
        assert(t =~= x + v);
        lemma_prolog_join(w, v);
        lemma_prolog_join(x, v);
    } else {
        tidy::lemma_tail(s);
        tidy::lemma_tidy_tail(s);
        if u[0] != '<' {
            let r = u.subrange(1, u.len() as int);
            assert(tail(s) =~= r + w + v);
            assert(tail(t) =~= r + x + v);
            assert(is_prolog(tail(s)));
            lemma_prolog_gap(r, w, x, v);
            reveal(is_tidy);
        } else {
            lemma_aside_gap(u, w, x, v);
        }
    }
}

proof fn lemma_aside_gap(u: Seq<char>, w: Seq<char>, x: Seq<char>, v: Seq<char>)
    requires
        parts(w, v),
        parts(x, v),
        is_prolog(u + w + v),
        u.len() > 0,
        u[0] == '<',
    ensures
        is_prolog(u + x + v),
    decreases u.len(), 0int,
{
    let s = u + w + v;
    let t = u + x + v;
    tidy::lemma_tail(s);
    tidy::lemma_tidy_tail(s);
    let c = piece(s);
    assert(tidy::is_aside(s));
    if u.len() == 1 {
        if w.len() > 0 {
            assert(s[1] == w[0]);
            assert(text::is_white(w[0]));
        }
    }
    assert(u[1] == s[1]);
    assert(tidy::is_aside(c));
    tidy::lemma_piece_at(s, 0, c);
    lemma_skipped_gap(u, w, v);
    lemma_skipped_gap(u, x, v);
    lemma_skipped_cut(t);
    let e = markup::skipped(t, 0)->0;
    let d = t.subrange(0, e);
    assert(t[0] == '<' && t[1] == s[1]);
    assert(is_piece(d)) by {
        reveal(is_piece);
        assert(d[0] == t[0] && d[1] == t[1]);
    }
    tidy::lemma_piece_first(t, d);
    assert(is_prolog(tail(s)));
    match aside_end(u, v) {
        Some((true, k)) => {
            let r = u.subrange(k, u.len() as int);
            assert(tail(s) =~= r + w + v);
            assert(tail(t) =~= r + x + v);
            lemma_prolog_gap(r, w, x, v);
        },
        Some((false, k)) => {
            assert(tail(s) =~= v.subrange(k, v.len() as int));
            assert(tail(t) =~= v.subrange(k, v.len() as int));
        },
        None => {},
    }
    reveal(is_tidy);
}

// ---------------------------------------------------------------- markup alone

/// The text is made of markup that is no tag, and white space.
spec fn is_markup(s: Seq<char>) -> bool {
    pretty::markup_rest(text::spec_trim_start(s))
}

proof fn lemma_trim_start_is(s: Seq<char>, a: Seq<char>, b: Seq<char>)
    requires
        s == a + b,
        text::all_white(a),
        b.len() > 0 ==> !text::is_white(b[0]),
    ensures
        text::spec_trim_start(s) == b,
{
    lemma_skip_is(s, a.len() as int, 0);
    assert(s.subrange(a.len() as int, s.len() as int) =~= b);
}

proof fn lemma_skip_is(s: Seq<char>, n: int, i: int)
    requires
        0 <= i <= n <= s.len(),
        forall|k: int| i <= k < n ==> text::is_white(#[trigger] s[k]),
        n < s.len() ==> !text::is_white(s[n]),
    ensures
        text::skip_white(s, i) == n,
    decreases n - i,
{
    if i < n {
        assert(text::is_white(s[i]));
        lemma_skip_is(s, n, i + 1);
    }
}

proof fn lemma_skips(s: Seq<char>, i: int)
    requires
        0 <= i <= s.len(),
    ensures
        i <= text::skip_white(s, i) <= s.len(),
        forall|k: int| i <= k < text::skip_white(s, i) ==> text::is_white(#[trigger] s[k]),
        text::skip_white(s, i) < s.len() ==> !text::is_white(s[text::skip_white(s, i)]),
    decreases s.len() - i,
{
    if i < s.len() && text::is_white(s[i]) {
        lemma_skips(s, i + 1);
    }
}

/// The white space at the start, and the rest.
proof fn lemma_trim_parts(s: Seq<char>) -> (a: Seq<char>)
    ensures
        s == a + text::spec_trim_start(s),
        text::all_white(a),
        text::spec_trim_start(s).len() > 0 ==> !text::is_white(text::spec_trim_start(s)[0]),
{
    lemma_skips(s, 0);
    let n = text::skip_white(s, 0);
    assert(s =~= s.subrange(0, n) + s.subrange(n, s.len() as int));
    s.subrange(0, n)
}

proof fn lemma_white_join(a: Seq<char>, b: Seq<char>)
    requires
        text::all_white(a),
        text::all_white(b),
    ensures
        text::all_white(a + b),
{
    assert forall|k: int| 0 <= k < (a + b).len() implies text::is_white(#[trigger] (a + b)[k]) by {
        if k < a.len() {
            assert(text::is_white(a[k]));
        } else {
            assert(text::is_white(b[k - a.len()]));
        }
    }
}

proof fn lemma_trim_start_join(u: Seq<char>, y: Seq<char>)
    ensures
        text::spec_trim_start(u).len() > 0 ==> text::spec_trim_start(u + y) == text::spec_trim_start(u) + y,
        text::spec_trim_start(u).len() == 0 ==> text::spec_trim_start(u + y) == text::spec_trim_start(y),
{
    let a = lemma_trim_parts(u);
    let b = text::spec_trim_start(u);
    if b.len() > 0 {
        assert(u + y =~= a + (b + y));
        lemma_trim_start_is(u + y, a, b + y);
    } else {
        let c = lemma_trim_parts(y);
        assert(a =~= u);
        lemma_white_join(u, c);
        assert(u + y =~= (u + c) + text::spec_trim_start(y));
        lemma_trim_start_is(u + y, u + c, text::spec_trim_start(y));
    }
}

proof fn lemma_all_white_trims(w: Seq<char>)
    requires
        text::all_white(w),
    ensures
        text::spec_trim_start(w).len() == 0,
{
    assert(w + Seq::<char>::empty() =~= w);
    lemma_trim_start_is(w, w, Seq::empty());
}

spec fn declared_end(u: Seq<char>, v: Seq<char>) -> Option<(bool, int)> {
    if text::is_at(u, "!--"@, 0) {
        found_in(u, v, "-->"@)
    } else if text::is_at(u, "?"@, 0) {
        found_in(u, v, "?>"@)
    } else if text::is_at(u, "!"@, 0) {
        char_in(u, v, '>')
    } else {
        None
    }
}

proof fn lemma_declared_gap(u: Seq<char>, w: Seq<char>, v: Seq<char>)
    requires
        parts(w, v),
    ensures
        pretty::declaration_end(u + w + v) == placed(u, w, declared_end(u, v)),
        in_range(u, v, declared_end(u, v)),
{
    reveal_strlit("!--");
    reveal_strlit("?");
    reveal_strlit("!");
    reveal_strlit("-->");
    reveal_strlit("?>");
    lemma_at_gap(u, w, v, "!--"@, 0);
    lemma_at_gap(u, w, v, "?"@, 0);
    lemma_at_gap(u, w, v, "!"@, 0);
    lemma_find_gap(u, w, v, "-->"@);
    lemma_find_gap(u, w, v, "?>"@);
    lemma_char_gap(u, w, v, '>');
    if u.len() + w.len() == 0 {
        assert(v.len() == 0);
    }
}

/// Markup stays markup, whatever white space stands in it.
proof fn lemma_markup_gap(u: Seq<char>, w: Seq<char>, x: Seq<char>, v: Seq<char>)
    requires
        text::all_white(w),
        text::all_white(x),
        u.len() > 0 ==> parts(w, v) && parts(x, v),
    ensures
        is_markup(u + w + v) == is_markup(u + x + v),
    decreases u.len(),
{
    let s = u + w + v;
    let t = u + x + v;
    let b = text::spec_trim_start(u);
    assert(s =~= u + (w + v));
    assert(t =~= u + (x + v));
    lemma_trim_start_join(u, w + v);
    lemma_trim_start_join(u, x + v);
    lemma_trim_start_join(w, v);
    lemma_trim_start_join(x, v);
    lemma_all_white_trims(w);
    lemma_all_white_trims(x);
    if b.len() > 0 {
        let a = lemma_trim_parts(u);
        let r = b.subrange(1, b.len() as int);
        let s1 = b + (w + v);
        let t1 = b + (x + v);
        assert(s1.subrange(1, s1.len() as int) =~= r + w + v);
        assert(t1.subrange(1, t1.len() as int) =~= r + x + v);
        lemma_declared_gap(r, w, v);
        lemma_declared_gap(r, x, v);
        match declared_end(r, v) {
            Some((true, k)) => {
                let q = r.subrange(k, r.len() as int);
                assert((r + w + v).subrange(k, (r + w + v).len() as int) =~= q + w + v);
                assert((r + x + v).subrange(k, (r + x + v).len() as int) =~= q + x + v);
                lemma_markup_gap(q, w, x, v);
            },
            Some((false, k)) => {
                let i = r.len() + w.len() + k;
                let j = r.len() + x.len() + k;
                let q = v.subrange(k, v.len() as int);
                assert((r + w + v).subrange(i, (r + w + v).len() as int) =~= q);
                assert((r + x + v).subrange(j, (r + x + v).len() as int) =~= q);
            },
            None => {},
        }
        assert(s1[0] == b[0] && t1[0] == b[0]);
    }
}

proof fn lemma_backs(s: Seq<char>, i: int, j: int)
    requires
        0 <= i <= j <= s.len(),
    ensures
        i <= text::back_white(s, i, j) <= j,
        forall|k: int| text::back_white(s, i, j) <= k < j ==> text::is_white(#[trigger] s[k]),
    decreases j - i,
{
    if i < j && text::is_white(s[j - 1]) {
        lemma_backs(s, i, j - 1);
    }
}

proof fn lemma_markup_only(s: Seq<char>)
    ensures
        pretty::spec_markup_only(s) == is_markup(s),
{
    lemma_skips(s, 0);
    let n = s.len() as int;
    let i = text::skip_white(s, 0);
    lemma_backs(s, i, n);
    let j = text::back_white(s, i, n);
    let y = s.subrange(i, j);
    let c = s.subrange(j, n);
    let none = Seq::<char>::empty();
    assert(text::spec_trim_start(s) =~= y + c);
    assert(y + c =~= y + c + none);
    assert(y =~= y + none + none);
    lemma_markup_gap(y, c, none, none);
    lemma_trim_start_is(y + c, none, y + c);
    if y.len() > 0 {
        assert(y[0] == s[i]);
    }
    lemma_trim_start_is(y, none, y);
}

// ---------------------------------------------------------------- lines

/// A text of markup and white space, closed.
spec fn keeps(s: Seq<char>) -> bool {
    is_prolog(s) && is_markup(s)
}

proof fn lemma_keeps_gap(u: Seq<char>, w: Seq<char>, x: Seq<char>, v: Seq<char>)
    requires
        text::all_white(w),
        text::all_white(x),
        u.len() > 0 ==> parts(w, v) && parts(x, v),
        keeps(u + w + v),
    ensures
        keeps(u + x + v),
{
    lemma_prolog_gap(u, w, x, v);
    lemma_markup_gap(u, w, x, v);
}

/// ASCII white space alone.
pub open spec fn is_blank(w: Seq<char>) -> bool {
    forall|k: int| 0 <= k < w.len() ==> text::is_ascii_white(#[trigger] w[k])
}

pub proof fn lemma_blank_white(w: Seq<char>)
    requires
        is_blank(w),
    ensures
        text::all_white(w),
{
    assert forall|k: int| 0 <= k < w.len() implies text::is_white(#[trigger] w[k]) by {
        assert(text::is_ascii_white(w[k]));
    }
}

proof fn lemma_blank_join(a: Seq<char>, b: Seq<char>)
    requires
        is_blank(a),
        is_blank(b),
    ensures
        is_blank(a + b),
{
    assert forall|k: int| 0 <= k < (a + b).len() implies text::is_ascii_white(#[trigger] (a + b)[k]) by {
        if k < a.len() {
            assert(text::is_ascii_white(a[k]));
        } else {
            assert(text::is_ascii_white(b[k - a.len()]));
        }
    }
}

proof fn lemma_indent_blank(n: int)
    ensures
        is_blank(pretty::indent(n)),
        !pretty::indent(n).contains('\n'),
        forall|k: int| 0 <= k < pretty::indent(n).len() ==> #[trigger] pretty::indent(n)[k] == ' ',
    decreases n,
{
    reveal_strlit("  ");
    if n > 0 {
        lemma_indent_blank(n - 1);
        assert forall|k: int| 0 <= k < pretty::indent(n).len() implies #[trigger] pretty::indent(n)[k]
            == ' ' by {
            if k < pretty::indent(n - 1).len() {
                assert(pretty::indent(n)[k] == pretty::indent(n - 1)[k]);
            } else {
                assert(pretty::indent(n)[k] == "  "@[k - pretty::indent(n - 1).len()]);
            }
        }
    }
}

/// The text ends in something to be seen, or is empty.
spec fn is_ready(o: Seq<char>) -> bool {
    o.len() > 0 ==> !text::is_ascii_white(o.last())
}

/// What starts a line behind `o`.
spec fn line_start(o: Seq<char>, depth: int) -> Seq<char> {
    if o.len() == 0 {
        pretty::indent(depth)
    } else {
        seq!['\n'] + pretty::indent(depth)
    }
}

proof fn lemma_line_start(o: Seq<char>, depth: int)
    requires
        is_ready(o),
    ensures
        pretty::spec_newline(o, depth) == o + line_start(o, depth),
        is_blank(line_start(o, depth)),
        text::all_white(line_start(o, depth)),
{
    reveal_strlit("\n");
    lemma_indent_blank(depth);
    assert("\n"@ =~= seq!['\n']);
    if o.len() > 0 {
        assert(pretty::without_blanks(o) == o);
        if text::spec_ends(o, "\n"@) {
            assert(o.subrange(o.len() - 1, o.len() as int)[0] == o.last());
        }
        assert(o + "\n"@ + pretty::indent(depth) =~= o + (seq!['\n'] + pretty::indent(depth)));
        lemma_blank_join(seq!['\n'], pretty::indent(depth));
    }
    lemma_blank_white(line_start(o, depth));
}

proof fn lemma_skip_ascii_is(s: Seq<char>, n: int, i: int)
    requires
        0 <= i <= n <= s.len(),
        forall|k: int| i <= k < n ==> text::is_ascii_white(#[trigger] s[k]),
        n < s.len() ==> !text::is_ascii_white(s[n]),
    ensures
        text::skip_ascii(s, i) == n,
    decreases n - i,
{
    if i < n {
        assert(text::is_ascii_white(s[i]));
        lemma_skip_ascii_is(s, n, i + 1);
    }
}

proof fn lemma_back_ascii_is(s: Seq<char>, i: int, n: int, j: int)
    requires
        0 <= i < n <= j <= s.len(),
        forall|k: int| n <= k < j ==> text::is_ascii_white(#[trigger] s[k]),
        !text::is_ascii_white(s[n - 1]),
    ensures
        text::back_ascii(s, i, j) == n,
    decreases j - n,
{
    if n < j {
        assert(text::is_ascii_white(s[j - 1]));
        lemma_back_ascii_is(s, i, n, j - 1);
    }
}

/// What is trimmed is what stands between the white space.
pub proof fn lemma_ascii_trim_is(s: Seq<char>, a: Seq<char>, y: Seq<char>, b: Seq<char>)
    requires
        s == a + y + b,
        is_blank(a),
        is_blank(b),
        y.len() > 0,
    ensures
        !text::is_ascii_white(y[0]) ==> text::spec_ascii_trim_start(s) == y + b,
        !text::is_ascii_white(y.last()) ==> text::spec_ascii_trim_end(s) == a + y,
        !text::is_ascii_white(y[0]) && !text::is_ascii_white(y.last()) ==> text::spec_ascii_trim(s) == y,
{
    let i = a.len() as int;
    let j = (a.len() + y.len()) as int;
    let n = s.len() as int;
    assert forall|k: int| 0 <= k < i implies text::is_ascii_white(#[trigger] s[k]) by {
        assert(s[k] == a[k]);
    }
    assert forall|k: int| j <= k < n implies text::is_ascii_white(#[trigger] s[k]) by {
        assert(s[k] == b[k - j]);
    }
    assert(s[i] == y[0]);
    assert(s[j - 1] == y.last());
    if !text::is_ascii_white(y[0]) {
        lemma_skip_ascii_is(s, i, 0);
        assert(s.subrange(i, n) =~= y + b);
    }
    if !text::is_ascii_white(y.last()) {
        lemma_back_ascii_is(s, 0, j, n);
        assert(s.subrange(0, j) =~= a + y);
        lemma_back_ascii_is(s, i, j, n);
        assert(s.subrange(i, j) =~= y);
    }
}

proof fn lemma_skips_ascii(s: Seq<char>, i: int)
    requires
        0 <= i <= s.len(),
    ensures
        i <= text::skip_ascii(s, i) <= s.len(),
        forall|k: int| i <= k < text::skip_ascii(s, i) ==> text::is_ascii_white(#[trigger] s[k]),
        text::skip_ascii(s, i) < s.len() ==> !text::is_ascii_white(s[text::skip_ascii(s, i)]),
    decreases s.len() - i,
{
    if i < s.len() && text::is_ascii_white(s[i]) {
        lemma_skips_ascii(s, i + 1);
    }
}

proof fn lemma_backs_ascii(s: Seq<char>, i: int, j: int)
    requires
        0 <= i <= j <= s.len(),
    ensures
        i <= text::back_ascii(s, i, j) <= j,
        forall|k: int| text::back_ascii(s, i, j) <= k < j ==> text::is_ascii_white(#[trigger] s[k]),
        i < text::back_ascii(s, i, j) ==> !text::is_ascii_white(s[text::back_ascii(s, i, j) - 1]),
    decreases j - i,
{
    if i < j && text::is_ascii_white(s[j - 1]) {
        lemma_backs_ascii(s, i, j - 1);
    }
}

/// The text to be seen, and the white space around it.
pub proof fn lemma_ascii_parts(s: Seq<char>) -> (r: (Seq<char>, Seq<char>))
    ensures
        s == r.0 + text::spec_ascii_trim(s) + r.1,
        is_blank(r.0),
        is_blank(r.1),
        ({
            let y = text::spec_ascii_trim(s);
            y.len() > 0 ==> !text::is_ascii_white(y[0]) && !text::is_ascii_white(y.last())
        }),
        text::spec_ascii_trim(s).len() == 0 <==> is_blank(s),
{
    let n = s.len() as int;
    lemma_skips_ascii(s, 0);
    let i = text::skip_ascii(s, 0);
    lemma_backs_ascii(s, i, n);
    let j = text::back_ascii(s, i, n);
    let a = s.subrange(0, i);
    let b = s.subrange(j, n);
    let y = text::spec_ascii_trim(s);
    assert(s =~= a + y + b);
    if y.len() > 0 {
        assert(y[0] == s[i]);
        assert(y.last() == s[j - 1]);
    } else {
        lemma_blank_join(a, b);
        assert(s =~= a + b);
    }
    (a, b)
}

/// The pieces from `k` on, each behind a line break.
spec fn broken(v: Seq<Seq<char>>, k: int) -> Seq<char>
    decreases v.len() - k,
{
    if 0 <= k < v.len() {
        seq!['\n'] + v[k] + broken(v, k + 1)
    } else {
        Seq::empty()
    }
}

proof fn lemma_broken_shift(x: Seq<char>, v: Seq<Seq<char>>, k: int)
    requires
        0 <= k,
    ensures
        broken(seq![x] + v, k + 1) == broken(v, k),
    decreases v.len() - k,
{
    if k < v.len() {
        lemma_broken_shift(x, v, k + 1);
        assert((seq![x] + v)[k + 1] == v[k]);
    }
}

proof fn lemma_split_broken(s: Seq<char>, i: int)
    requires
        0 <= i <= s.len(),
    ensures
        broken(text::split_from(s, '\n', i), 0) == seq!['\n'] + from(s, i),
        forall|k: int|
            0 <= k < text::split_from(s, '\n', i).len() ==> !(#[trigger] text::split_from(s, '\n', i)[k]).contains('\n'),
    decreases s.len() - i,
{
    text::lemma_find_char(s, '\n', i);
    let v = text::split_from(s, '\n', i);
    match text::spec_find_char(s, '\n', i) {
        Some(e) if i <= e < s.len() => {
            let x = s.subrange(i, e);
            let r = text::split_from(s, '\n', e + 1);
            lemma_split_broken(s, e + 1);
            lemma_broken_shift(x, r, 0);
            assert(v[0] == x);
            assert(broken(v, 0) == seq!['\n'] + v[0] + broken(v, 1));
            assert(seq!['\n'] + x + (seq!['\n'] + from(s, e + 1)) =~= seq!['\n'] + from(s, i));
            assert forall|k: int| 0 <= k < v.len() implies !(#[trigger] v[k]).contains('\n') by {
                if k > 0 {
                    assert(v[k] == r[k - 1]);
                }
            }
        },
        _ => {
            assert(v[0] == from(s, i));
            assert(broken(v, 1) =~= Seq::<char>::empty());
            assert(broken(v, 0) == seq!['\n'] + v[0] + broken(v, 1));
            assert(broken(v, 0) =~= seq!['\n'] + from(s, i));
        },
    }
}

/// Only the lines that are written count.
proof fn lemma_lines_same(o: Seq<char>, v: Seq<Seq<char>>, w: Seq<Seq<char>>, depth: int, n: int)
    requires
        n <= v.len(),
        n <= w.len(),
        forall|k: int| 0 <= k < n ==> #[trigger] v[k] == w[k],
    ensures
        pretty::lines_written(o, v, depth, n) == pretty::lines_written(o, w, depth, n),
    decreases n,
{
    if n > 0 {
        lemma_lines_same(o, v, w, depth, n - 1);
        assert(v[n - 1] == w[n - 1]);
    }
}

/// The text `h`, written line by line behind `o`, is itself.
spec fn is_laid(o: Seq<char>, h: Seq<char>, depth: int) -> bool {
    pretty::lines_written(
        o,
        text::spec_split(h, '\n'),
        depth,
        text::spec_split(h, '\n').len() as int,
    ) == o + h
}

/// One line more.
proof fn lemma_laid_more(o: Seq<char>, h: Seq<char>, depth: int, x: Seq<char>)
    requires
        !x.contains('\n'),
    ensures
        ({
            let v = text::spec_split(h, '\n');
            let w = text::spec_split(h.push('\n') + x, '\n');
            w.len() == v.len() + 1 && w.last() == x && pretty::lines_written(
                o,
                w,
                depth,
                v.len() as int,
            ) == pretty::lines_written(o, v, depth, v.len() as int)
        }),
{
    let v = text::spec_split(h, '\n');
    let w = text::spec_split(h.push('\n') + x, '\n');
    text::split_distributes(h, x, '\n');
    text::lemma_split_none(x, '\n');
    assert(w == v + seq![x]);
    lemma_lines_same(o, w, v, depth, v.len() as int);
}

proof fn lemma_laid_tail(o: Seq<char>, h: Seq<char>, depth: int, x: Seq<char>)
    requires
        is_laid(o, h, depth),
        is_blank(x),
        !x.contains('\n'),
    ensures
        ({
            let w = text::spec_split(h.push('\n') + x, '\n');
            pretty::lines_written(o, w, depth, w.len() as int) == o + h
        }),
{
    lemma_laid_more(o, h, depth, x);
    let _ = lemma_ascii_parts(x);
}

proof fn lemma_laid_line(o: Seq<char>, h: Seq<char>, depth: int, l: Seq<char>)
    requires
        is_laid(o, h, depth),
        is_ready(o + h),
        !l.contains('\n'),
        l.len() > 0,
        !text::is_ascii_white(l[0]),
        !text::is_ascii_white(l.last()),
    ensures
        is_laid(o, h + line_start(o + h, depth) + l, depth),
{
    let pad = pretty::indent(depth);
    let none = Seq::<char>::empty();
    lemma_indent_blank(depth);
    lemma_line_start(o + h, depth);
    let x = pad + l;
    assert(!x.contains('\n')) by {
        if x.contains('\n') {
            let k = choose|k: int| 0 <= k < x.len() && x[k] == '\n';
            if k < pad.len() {
                assert(pad.contains(pad[k]));
            } else {
                assert(l.contains(l[k - pad.len()]));
            }
        }
    }
    assert(x =~= pad + l + none);
    lemma_ascii_trim_is(x, pad, l, none);
    let g = h + line_start(o + h, depth) + l;
    if (o + h).len() == 0 {
        assert(h =~= none && o =~= none);
        assert(g =~= x);
        text::lemma_split_none(x, '\n');
        let v = text::spec_split(g, '\n');
        assert(v[0] == x);
        assert(pretty::lines_written(o, v, depth, 0) == o);
        assert(o + h =~= o);
        assert(pretty::lines_written(o, v, depth, 1) == pretty::spec_newline(o, depth) + l);
        assert(o + line_start(o, depth) + l =~= o + g);
    } else {
        assert(g =~= h.push('\n') + x);
        lemma_laid_more(o, h, depth, x);
        assert(o + h + line_start(o + h, depth) + l =~= o + g);
    }
}

/// Writing markup line by line: what is behind `o` is laid out, and stays markup
/// with what is left.
proof fn lemma_lines(o: Seq<char>, v: Seq<Seq<char>>, depth: int, n: int) -> (h: Seq<char>)
    requires
        is_ready(o),
        0 <= n <= v.len(),
        forall|k: int| 0 <= k < v.len() ==> !(#[trigger] v[k]).contains('\n'),
        keeps(broken(v, 0)),
    ensures
        pretty::lines_written(o, v, depth, n) == o + h,
        is_ready(o + h),
        is_laid(o, h, depth),
        keeps(h + broken(v, n)),
    decreases n,
{
    let none = Seq::<char>::empty();
    if n == 0 {
        assert(o + none =~= o);
        assert(none + broken(v, 0) =~= broken(v, 0));
        text::lemma_split_none(none, '\n');
        let w = text::spec_split(none, '\n');
        assert(w[0] == none);
        assert(pretty::lines_written(o, w, depth, 0) == o);
        let _ = lemma_ascii_parts(none);
        none
    } else {
        let h = lemma_lines(o, v, depth, n - 1);
        let x = v[n - 1];
        let l = text::spec_ascii_trim(x);
        let (a, b) = lemma_ascii_parts(x);
        assert(!x.contains('\n'));
        lemma_next_line(o, h, v, depth, n, a, b);
        if l.len() == 0 {
            h
        } else {
            let pre = line_start(o + h, depth);
            let g = h + pre + l;
            lemma_line_start(o + h, depth);
            assert(!l.contains('\n')) by {
                if l.contains('\n') {
                    let k = choose|k: int| 0 <= k < l.len() && l[k] == '\n';
                    assert(x[a.len() + k] == '\n');
                }
            }
            lemma_laid_line(o, h, depth, l);
            assert(o + h + pre + l =~= o + g);
            assert((o + g).last() == l.last());
            g
        }
    }
}

proof fn lemma_next_line(
    o: Seq<char>,
    h: Seq<char>,
    v: Seq<Seq<char>>,
    depth: int,
    n: int,
    a: Seq<char>,
    b: Seq<char>,
)
    requires
        0 < n <= v.len(),
        is_ready(o + h),
        is_blank(a),
        is_blank(b),
        v[n - 1] == a + text::spec_ascii_trim(v[n - 1]) + b,
        keeps(h + broken(v, n - 1)),
    ensures
        text::spec_ascii_trim(v[n - 1]).len() == 0 ==> keeps(h + broken(v, n)),
        text::spec_ascii_trim(v[n - 1]).len() > 0 ==> keeps(
            h + line_start(o + h, depth) + text::spec_ascii_trim(v[n - 1]) + broken(v, n),
        ),
{
    let none = Seq::<char>::empty();
    let nl = seq!['\n'];
    let l = text::spec_ascii_trim(v[n - 1]);
    let rest = broken(v, n);
    let left = if n < v.len() {
        v[n] + broken(v, n + 1)
    } else {
        none
    };
    let brk = if n < v.len() {
        nl
    } else {
        none
    };
    assert(rest =~= brk + left);
    assert(broken(v, n - 1) == nl + v[n - 1] + rest);
    assert(is_blank(nl));
    assert(is_blank(brk));
    if l.len() == 0 {
        let w = nl + a + b + brk;
        lemma_blank_join(nl, a);
        lemma_blank_join(nl + a, b);
        lemma_blank_join(nl + a + b, brk);
        lemma_blank_white(w);
        lemma_blank_white(brk);
        assert(h + broken(v, n - 1) =~= h + w + left);
        lemma_keeps_gap(h, w, brk, left);
        assert(h + brk + left =~= h + rest);
    } else {
        let pre = line_start(o + h, depth);
        lemma_line_start(o + h, depth);
        let w = nl + a;
        lemma_blank_join(nl, a);
        lemma_blank_white(w);
        let y = l + b + rest;
        assert(h + broken(v, n - 1) =~= h + w + y);
        lemma_keeps_gap(h, w, pre, y);
        let u = h + pre + l;
        let z = b + brk;
        lemma_blank_join(b, brk);
        lemma_blank_white(z);
        lemma_blank_white(brk);
        assert(h + pre + y =~= u + z + left);
        lemma_keeps_gap(u, z, brk, left);
        assert(u + brk + left =~= u + rest);
    }
}

// ---------------------------------------------------------------- the text between two tags

proof fn lemma_seen(o: Seq<char>, g: Seq<char>, h: Seq<char>)
    requires
        text::visible(o + h) == text::visible(o) + text::visible(g),
        !is_blank(g),
    ensures
        !is_blank(h),
{
    if is_blank(h) {
        text::lemma_visible_none(h);
        text::lemma_visible_add(o, h);
        assert(text::visible(o) + Seq::<char>::empty() =~= text::visible(o));
        assert(text::visible(g).len() == 0);
        let k = choose|k: int| 0 <= k < g.len() && !text::is_ascii_white(#[trigger] g[k]);
        let a = g.subrange(0, k);
        let m = g.subrange(k, k + 1);
        let b = g.subrange(k + 1, g.len() as int);
        assert(g =~= a + (m + b));
        text::lemma_visible_add(a, m + b);
        text::lemma_visible_add(m, b);
        assert(text::visible(m).len() == 1) by {
            reveal_with_fuel(Seq::filter, 2);
            assert(m.len() == 1 && m.last() == g[k]);
        }
    }
}

/// White space around `y` may be any other: the text stays closed, and stays markup
/// or does not become it.
proof fn lemma_around(
    g: Seq<char>,
    a: Seq<char>,
    y: Seq<char>,
    b: Seq<char>,
    pre: Seq<char>,
    post: Seq<char>,
)
    requires
        g == a + y + b,
        is_blank(a),
        is_blank(b),
        is_blank(pre),
        is_blank(post),
        is_prolog(g),
    ensures
        is_prolog(pre + y + post),
        pretty::spec_markup_only(pre + y + post) == pretty::spec_markup_only(g),
        is_blank(pre + y + post) == is_blank(g),
{
    let none = Seq::<char>::empty();
    lemma_blank_white(a);
    lemma_blank_white(b);
    lemma_blank_white(pre);
    lemma_blank_white(post);
    assert(g =~= none + a + (y + b));
    lemma_prolog_gap(none, a, pre, y + b);
    lemma_markup_gap(none, a, pre, y + b);
    let u = pre + y;
    assert(none + pre + (y + b) =~= u + b + none);
    lemma_prolog_gap(u, b, post, none);
    lemma_markup_gap(u, b, post, none);
    assert(u + post + none =~= pre + y + post);
    lemma_markup_only(g);
    lemma_markup_only(pre + y + post);
    if is_blank(g) {
        assert forall|k: int| 0 <= k < y.len() implies text::is_ascii_white(#[trigger] y[k]) by {
            assert(g[a.len() + k] == y[k]);
        }
        lemma_blank_join(pre, y);
        lemma_blank_join(pre + y, post);
    }
    if is_blank(pre + y + post) {
        assert forall|k: int| 0 <= k < y.len() implies text::is_ascii_white(#[trigger] y[k]) by {
            assert((pre + y + post)[pre.len() + k] == y[k]);
        }
        lemma_blank_join(a, y);
        lemma_blank_join(a + y, b);
    }
}

/// The line that a block's tag starts, if it starts one.
spec fn lifted(o: Seq<char>, lift: Option<int>) -> Seq<char> {
    match lift {
        Some(d) => pretty::spec_newline(o, d),
        None => o,
    }
}

/// The text `h` stands in place of `g`, and is written as it stands.
spec fn is_again(p: Pen, g: Seq<char>, nb: bool, lift: Option<int>, h: Seq<char>) -> bool {
    let q = pretty::text_written(p, g, nb);
    let r = pretty::text_written(p, h, nb);
    &&& is_prolog(h)
    &&& lifted(q.out, lift) == p.out + h
    &&& lifted(r.out, lift) == p.out + h
    &&& q.last == r.last
    &&& q.depth == r.depth
    &&& q.verbatim == r.verbatim
}

spec fn lifts(p: Pen, g: Seq<char>, nb: bool, lift: Option<int>) -> bool {
    &&& is_ready(p.out)
    &&& is_prolog(g)
    &&& lift is Some ==> nb
    &&& nb && lift is None ==> pretty::text_written(p, g, nb).last == Last::Inline
}

proof fn lemma_again_blank(p: Pen, g: Seq<char>, nb: bool, lift: Option<int>) -> (h: Seq<char>)
    requires
        lifts(p, g, nb, lift),
        is_blank(g),
    ensures
        is_again(p, g, nb, lift, h),
{
    let none = Seq::<char>::empty();
    let _ = lemma_ascii_parts(g);
    if p.last == Last::Inline && !nb {
        g
    } else {
        match lift {
            Some(d) => {
                let h = line_start(p.out, d);
                lemma_line_start(p.out, d);
                lemma_white_prolog(h);
                let _ = lemma_ascii_parts(h);
                h
            },
            None => {
                let _ = lemma_ascii_parts(none);
                lemma_white_prolog(none);
                assert(p.out + none =~= p.out);
                none
            },
        }
    }
}

/// Markup that is written line by line.
proof fn lemma_lined(p: Pen, g: Seq<char>, nb: bool) -> (h: Seq<char>)
    requires
        is_ready(p.out),
        is_prolog(g),
        !is_blank(g),
        pretty::spec_markup_only(g),
        p.last != Last::Inline || nb,
    ensures
        pretty::text_written(p, g, nb) == (Pen { out: p.out + h, last: Last::BlockClose, ..p }),
        is_ready(p.out + h),
        is_laid(p.out, h, p.depth),
        keeps(h),
        !is_blank(h),
{
    let none = Seq::<char>::empty();
    let v = text::spec_split(g, '\n');
    let n = v.len() as int;
    let nl = seq!['\n'];
    let _ = lemma_ascii_parts(g);
    lemma_split_broken(g, 0);
    assert(from(g, 0) =~= g);
    lemma_markup_only(g);
    assert(is_blank(nl));
    lemma_blank_white(nl);
    assert(g =~= none + none + g);
    assert(text::all_white(none));
    lemma_keeps_gap(none, none, nl, g);
    assert(none + nl + g =~= nl + g);
    let h = lemma_lines(p.out, v, p.depth, n);
    assert(broken(v, n) =~= none);
    assert(h + none =~= h);
    pretty::lemma_text_written(p, g, nb);
    lemma_seen(p.out, g, h);
    h
}

proof fn lemma_again_lined(p: Pen, g: Seq<char>, nb: bool, lift: Option<int>) -> (r: Seq<char>)
    requires
        lifts(p, g, nb, lift),
        !is_blank(g),
        pretty::spec_markup_only(g),
        p.last != Last::Inline || nb,
    ensures
        is_again(p, g, nb, lift, r),
{
    let none = Seq::<char>::empty();
    let h = lemma_lined(p, g, nb);
    match lift {
        Some(d) => {
            lemma_line_start(p.out + h, d);
            lemma_indent_blank(d);
            let pad = pretty::indent(d);
            let w = seq!['\n'] + pad;
            let r = h + w;
            assert(w == line_start(p.out + h, d));
            assert(r =~= h.push('\n') + pad);
            lemma_laid_tail(p.out, h, p.depth, pad);
            lemma_markup_tail(h, w);
            let _ = lemma_ascii_parts(r);
            assert(p.out + h + w =~= p.out + r);
            r
        },
        None => {
            let _ = lemma_ascii_parts(h);
            lemma_markup_only(h);
            h
        },
    }
}

/// Markup and white space behind it.
proof fn lemma_markup_tail(h: Seq<char>, w: Seq<char>)
    requires
        keeps(h),
        is_blank(w),
        !is_blank(h),
    ensures
        keeps(h + w),
        pretty::spec_markup_only(h + w),
        !is_blank(h + w),
{
    let none = Seq::<char>::empty();
    lemma_blank_white(w);
    assert(h =~= h + none + none);
    assert(text::all_white(none));
    lemma_keeps_gap(h, none, w, none);
    assert(h + w + none =~= h + w);
    lemma_markup_only(h + w);
    if is_blank(h + w) {
        assert forall|k: int| 0 <= k < h.len() implies text::is_ascii_white(#[trigger] h[k]) by {
            assert((h + w)[k] == h[k]);
        }
    }
}

/// What stands before text in a block.
spec fn text_start(p: Pen) -> Seq<char> {
    if p.last == Last::BlockClose {
        line_start(p.out, p.depth)
    } else {
        Seq::empty()
    }
}

/// Text that stands between white space where it is trimmed.
spec fn is_parted(p: Pen, nb: bool, x: Seq<char>, y: Seq<char>, z: Seq<char>) -> bool {
    &&& is_blank(x)
    &&& is_blank(z)
    &&& y.len() > 0
    &&& if p.last == Last::Inline {
        x.len() == 0
    } else {
        !text::is_ascii_white(y[0])
    }
    &&& if nb {
        !text::is_ascii_white(y.last())
    } else {
        z.len() == 0
    }
}

/// What text that is no markup is written as.
proof fn lemma_text_form(p: Pen, nb: bool, x: Seq<char>, y: Seq<char>, z: Seq<char>)
    requires
        is_ready(p.out),
        is_parted(p, nb, x, y, z),
        !is_blank(x + y + z),
        !pretty::spec_markup_only(x + y + z),
    ensures
        pretty::text_written(p, x + y + z, nb) == (Pen {
            out: p.out + text_start(p) + y,
            last: Last::Inline,
            ..p
        }),
{
    let g = x + y + z;
    let _ = lemma_ascii_parts(g);
    lemma_line_start(p.out, p.depth);
    lemma_ascii_trim_is(g, x, y, z);
    if p.last == Last::Inline {
        assert(x + y =~= y);
    }
    if !nb {
        assert(y + z =~= y);
        if p.last == Last::Inline {
            assert(g =~= y);
        }
    }
    if p.last != Last::BlockClose {
        assert(p.out + text_start(p) =~= p.out);
    }
}

/// The parts of text that is no markup.
proof fn lemma_text_parts(p: Pen, g: Seq<char>, nb: bool) -> (r: (Seq<char>, Seq<char>, Seq<char>))
    requires
        !is_blank(g),
        p.last != Last::Inline || nb,
    ensures
        g == r.0 + r.1 + r.2,
        is_parted(p, nb, r.0, r.1, r.2),
{
    let none = Seq::<char>::empty();
    let (a, b) = lemma_ascii_parts(g);
    let l = text::spec_ascii_trim(g);
    if p.last == Last::Inline {
        assert(g =~= none + (a + l) + b);
        (none, a + l, b)
    } else if nb {
        (a, l, b)
    } else {
        assert(g =~= a + (l + b) + none);
        (a, l + b, none)
    }
}

proof fn lemma_again_text(p: Pen, g: Seq<char>, nb: bool, lift: Option<int>) -> (r: Seq<char>)
    requires
        lifts(p, g, nb, lift),
        !is_blank(g),
        !pretty::spec_markup_only(g),
        p.last != Last::Inline || nb,
    ensures
        is_again(p, g, nb, lift, r),
{
    let (x, y, z) = lemma_text_parts(p, g, nb);
    let pre = text_start(p);
    lemma_line_start(p.out, p.depth);
    lemma_text_form(p, nb, x, y, z);
    let o = p.out + pre + y;
    let post = match lift {
        Some(d) => line_start(o, d),
        None => Seq::empty(),
    };
    if let Some(d) = lift {
        assert(o.last() == y.last());
        lemma_line_start(o, d);
    }
    assert(lifted(o, lift) =~= o + post);
    let h = pre + y + post;
    lemma_around(g, x, y, z, pre, post);
    lemma_text_form(p, nb, pre, y, post);
    assert(o + post =~= p.out + h);
    h
}

/// What stands between two tags is written as it stands, once it is written.
proof fn lemma_again(p: Pen, g: Seq<char>, nb: bool, lift: Option<int>) -> (r: Seq<char>)
    requires
        lifts(p, g, nb, lift),
    ensures
        is_again(p, g, nb, lift, r),
{
    if is_blank(g) {
        lemma_again_blank(p, g, nb, lift)
    } else if p.last == Last::Inline && !nb {
        let _ = lemma_ascii_parts(g);
        g
    } else if pretty::spec_markup_only(g) && (p.last != Last::Inline || nb) {
        lemma_again_lined(p, g, nb, lift)
    } else {
        lemma_again_text(p, g, nb, lift)
    }
}

// ---------------------------------------------------------------- the text behind the last tag

/// A document ends in a line break.
spec fn ended(o: Seq<char>) -> Seq<char> {
    if text::spec_ends(o, "\n"@) {
        o
    } else {
        o + "\n"@
    }
}

proof fn lemma_ended(o: Seq<char>) -> (x: Seq<char>)
    ensures
        ended(o) == o + x,
        is_blank(x),
        x.len() > 0 || text::spec_ends(o, "\n"@),
        is_ready(o) ==> x == seq!['\n'],
        forall|y: Seq<char>| #[trigger] ended(y + x) == y + x || x.len() == 0,
{
    reveal_strlit("\n");
    assert("\n"@ =~= seq!['\n']);
    if o.len() > 0 && text::spec_ends(o, "\n"@) {
        assert(o.subrange(o.len() - 1, o.len() as int)[0] == o.last());
    }
    assert forall|y: Seq<char>| #[trigger] ended(y + "\n"@) == y + "\n"@ by {
        let z = y + "\n"@;
        assert(z.subrange(z.len() - 1, z.len() as int) =~= "\n"@);
    }
    if text::spec_ends(o, "\n"@) {
        assert(o + Seq::<char>::empty() =~= o);
        Seq::empty()
    } else {
        "\n"@
    }
}

/// The text `h` stands in place of `g` at the end, and is written as it stands.
spec fn is_end_again(p: Pen, g: Seq<char>, h: Seq<char>) -> bool {
    &&& is_prolog(h)
    &&& ended(put_text(p, g, false).out) == p.out + h
    &&& ended(put_text(p, h, false).out) == p.out + h
}

/// What a text is written as, in a verbatim element or outside.
#[verifier::opaque]
spec fn put_text(p: Pen, g: Seq<char>, nb: bool) -> Pen {
    if p.verbatim is Some {
        Pen { out: p.out + g, ..p }
    } else {
        pretty::text_written(p, g, nb)
    }
}

/// Text that is written as it is, with a line break where one lacks.
proof fn lemma_end_raw(p: Pen, g: Seq<char>) -> (h: Seq<char>)
    requires
        is_prolog(g),
        p.verbatim is Some || p.last == Last::Inline,
    ensures
        is_end_again(p, g, h),
{
    reveal(put_text);
    let none = Seq::<char>::empty();
    let _ = lemma_ascii_parts(g);
    let x = lemma_ended(p.out + g);
    let h = g + x;
    assert(p.out + g + x =~= p.out + h);
    lemma_around(g, none, g, none, none, x);
    assert(none + g + x =~= h);
    let _ = lemma_ascii_parts(h);
    if x.len() == 0 {
        assert(h =~= g);
    } else {
        assert(ended((p.out + g) + x) == (p.out + g) + x);
    }
    h
}

proof fn lemma_end_lined(p: Pen, g: Seq<char>) -> (h: Seq<char>)
    requires
        is_ready(p.out),
        is_prolog(g),
        p.verbatim is None,
        p.last != Last::Inline,
        !is_blank(g),
        pretty::spec_markup_only(g),
    ensures
        is_end_again(p, g, h),
{
    reveal(put_text);
    let none = Seq::<char>::empty();
    let m = lemma_lined(p, g, false);
    let x = lemma_ended(p.out + m);
    let h = m + x;
    assert(h =~= m.push('\n') + none);
    lemma_laid_tail(p.out, m, p.depth, none);
    lemma_markup_tail(m, x);
    let _ = lemma_ascii_parts(h);
    assert(p.out + m + x =~= p.out + h);
    h
}

proof fn lemma_end_text(p: Pen, g: Seq<char>) -> (h: Seq<char>)
    requires
        is_ready(p.out),
        is_prolog(g),
        p.verbatim is None,
        p.last != Last::Inline,
        !is_blank(g),
        !pretty::spec_markup_only(g),
    ensures
        is_end_again(p, g, h),
{
    reveal(put_text);
    let none = Seq::<char>::empty();
    let (x, y, z) = lemma_text_parts(p, g, false);
    let pre = text_start(p);
    lemma_line_start(p.out, p.depth);
    lemma_text_form(p, false, x, y, z);
    let o = p.out + pre + y;
    let w = lemma_ended(o);
    let m = y + w;
    lemma_around(g, x, y, z, pre, w);
    let h = pre + m + none;
    assert(h =~= pre + y + w);
    lemma_text_form(p, false, pre, m, none);
    assert(p.out + pre + m =~= o + w);
    assert(o + w =~= p.out + h);
    if w.len() == 0 {
        assert(o + w =~= o);
    }
    h
}

proof fn lemma_end_again(p: Pen, g: Seq<char>) -> (h: Seq<char>)
    requires
        is_ready(p.out),
        is_prolog(g),
    ensures
        is_end_again(p, g, h),
{
    reveal(put_text);
    if p.verbatim is Some || p.last == Last::Inline {
        lemma_end_raw(p, g)
    } else if is_blank(g) {
        let x = lemma_ended(p.out);
        let _ = lemma_ascii_parts(g);
        let _ = lemma_ascii_parts(x);
        lemma_blank_white(x);
        lemma_white_prolog(x);
        x
    } else if pretty::spec_markup_only(g) {
        lemma_end_lined(p, g)
    } else {
        lemma_end_text(p, g)
    }
}

// ---------------------------------------------------------------- tag by tag

/// What a tag is written as, in a verbatim element or outside.
#[verifier::opaque]
spec fn put_tag(p: Pen, c: Seq<char>) -> Pen {
    let closing = c[1] == '/';
    let self_closing = c[c.len() - 2] == '/';
    match p.verbatim {
        Some((v, n)) => pretty::verbatim_written(p, c, v, n, tidy::piece_name(c), closing, self_closing),
        None => pretty::tag_written(p, c, tidy::piece_name(c), closing, self_closing),
    }
}

spec fn is_block_tag(c: Seq<char>) -> bool {
    markup::spec_is_block(tidy::piece_name(c))
}

/// The state once the tidy text `s` is written.
spec fn run(s: Seq<char>, p: Pen) -> Pen
    decreases s.len(),
    via run_shrinks
{
    let g = tidy::lead(s);
    let r = from(s, g.len() as int);
    if g.len() >= s.len() {
        put_text(p, g, false)
    } else {
        run(tail(r), put_tag(put_text(p, g, is_block_tag(piece(r))), piece(r)))
    }
}

#[via_fn]
proof fn run_shrinks(s: Seq<char>, p: Pen) {
    let g = tidy::lead(s);
    if g.len() < s.len() {
        tidy::lemma_tail(from(s, g.len() as int));
    }
}

proof fn lemma_piece_prolog(c: Seq<char>)
    requires
        is_piece(c),
        tidy::is_aside(c),
    ensures
        is_prolog(c),
{
    tidy::lemma_ends(c);
    assert(c.subrange(0, c.len() as int) =~= c);
    tidy::lemma_piece_first(c, c);
    assert(tail(c) =~= Seq::<char>::empty());
    assert(is_tidy(tail(c)) && !has_tag(tail(c))) by {
        reveal(is_tidy);
    }
    reveal(is_tidy);
}

/// A tidy text is its lead and what starts with its first tag.
proof fn lemma_lead_parts(s: Seq<char>)
    requires
        is_tidy(s),
    ensures
        ({
            let g = tidy::lead(s);
            let r = from(s, g.len() as int);
            &&& g.len() <= s.len()
            &&& is_prolog(g)
            &&& s == g + r
            &&& is_tidy(r)
            &&& r.len() > 0 ==> r[0] == '<' && is_piece(piece(r)) && !tidy::is_aside(piece(r)) && r == piece(r)
                + tail(r) && is_tidy(tail(r))
        }),
    decreases s.len(),
{
    let g = tidy::lead(s);
    let r = from(s, g.len() as int);
    let none = Seq::<char>::empty();
    if s.len() == 0 {
        lemma_white_prolog(none);
        assert(s =~= g + r);
        assert(r =~= s);
    } else {
        tidy::lemma_tail(s);
        tidy::lemma_tidy_tail(s);
        let m = tidy::lead(tail(s));
        if s[0] != '<' {
            lemma_lead_parts(tail(s));
            let c = seq![s[0]];
            assert(tail(c) =~= none);
            assert(is_prolog(c)) by {
                lemma_white_prolog(none);
                reveal(is_tidy);
            }
            lemma_prolog_join(c, m);
            assert(s =~= c + tail(s));
            assert(g == c + m);
            assert(r =~= from(tail(s), m.len() as int));
            assert(s =~= g + r);
        } else if tidy::is_aside(s) {
            lemma_lead_parts(tail(s));
            let c = piece(s);
            lemma_piece_prolog(c);
            lemma_prolog_join(c, m);
            assert(s =~= c + tail(s));
            assert(g == c + m);
            assert(r =~= from(tail(s), m.len() as int));
            assert(s =~= g + r);
        } else {
            lemma_white_prolog(none);
            assert(r =~= s);
            assert(s =~= g + r);
            assert(piece(s)[1] == s[1]);
        }
    }
}

proof fn lemma_put_nothing(p: Pen, nb: bool)
    ensures
        put_text(p, Seq::empty(), nb) == p,
{
    reveal(put_text);
    let none = Seq::<char>::empty();
    let _ = lemma_ascii_parts(none);
    assert(p.out + none =~= p.out);
}

/// Writing a document is writing it tag by tag.
#[verifier::rlimit(40)]
proof fn lemma_run(t: Seq<char>, v: Seq<Token>, k: int, i: int)
    requires
        0 <= i <= t.len(),
        0 <= k <= v.len(),
        is_tidy(from(t, i)),
        v == v.take(k) + markup::tokens_from(t, i, i),
    ensures
        run(from(t, i), pretty::written(t, v, k)) == pretty::written(t, v, v.len() as int),
    decreases t.len() - i,
{
    reveal(put_text);
    reveal(put_tag);
    let s = from(t, i);
    let g = tidy::lead(s);
    let r = from(s, g.len() as int);
    let p = pretty::written(t, v, k);
    let j = i + g.len();
    let w = markup::tokens_from(t, i, i);
    lemma_lead_parts(s);
    assert(t.subrange(i, j) =~= (g + r).subrange(0, g.len() as int));
    assert((g + r).subrange(0, g.len() as int) =~= g);
    crate::version_read::lemma_past_prolog(t, g, i, i);
    if r.len() == 0 {
        assert(j == t.len());
        assert(w == markup::text_token(i, j));
        if g.len() == 0 {
            assert(g =~= Seq::<char>::empty());
            lemma_put_nothing(p, false);
        } else {
            assert(v[k] == w[0]);
            assert(pretty::written(t, v, k + 1) == pretty::token_written(t, v, k, p));
        }
    } else {
        let c = piece(r);
        let e = j + c.len();
        let nb = is_block_tag(c);
        tidy::lemma_ends(c);
        assert(t.subrange(j, e) =~= r.subrange(0, c.len() as int)) by {
            assert(r =~= from(t, j));
        }
        assert(r.subrange(0, c.len() as int) =~= c);
        tidy::lemma_piece_at(t, j, c);
        assert(t.subrange(j, e)[c.len() - 2] == t[e - 2]);
        let tag = crate::version_read::tag_token(c, j);
        let rest = markup::tokens_from(t, e, e);
        assert(w == markup::text_token(i, j) + seq![tag] + rest);
        let q = put_text(p, g, nb);
        let m = if g.len() == 0 {
            k
        } else {
            k + 1
        };
        assert(v[m] == tag) by {
            assert(v[m] == w[m - k]);
        }
        if g.len() == 0 {
            assert(g =~= Seq::<char>::empty());
            lemma_put_nothing(p, nb);
        } else {
            assert(v[k] == w[0]);
            assert(pretty::block_at(v, k + 1) == nb);
            assert(pretty::written(t, v, k + 1) == pretty::token_written(t, v, k, p));
        }
        assert(pretty::written(t, v, m) == q);
        assert(pretty::written(t, v, m + 1) == pretty::token_written(t, v, m, q));
        assert(pretty::written(t, v, m + 1) == put_tag(q, c));
        assert(v.take(m + 1) + rest =~= v) by {
            assert(v =~= v.take(k) + (markup::text_token(i, j) + seq![tag] + rest));
        }
        assert(from(t, e) =~= tail(r)) by {
            assert(from(t, e) =~= r.subrange(c.len() as int, r.len() as int));
            assert((c + tail(r)).subrange(c.len() as int, r.len() as int) =~= tail(r));
        }
        lemma_run(t, v, m + 1, e);
    }
}

/// The line that a block's tag starts.
spec fn lift_of(q: Pen, c: Seq<char>) -> Option<int> {
    if !is_block_tag(c) {
        None
    } else if c[1] != '/' {
        Some(q.depth)
    } else if q.last != Last::Inline {
        Some(pretty::shallower(q.depth))
    } else {
        None
    }
}

/// The text before a tag, and the tag, are written as they stand.
proof fn lemma_tag_again(p: Pen, g: Seq<char>, c: Seq<char>) -> (h: Seq<char>)
    requires
        is_ready(p.out),
        is_prolog(g),
        is_piece(c),
    ensures
        ({
            let nb = is_block_tag(c);
            let q = put_tag(put_text(p, g, nb), c);
            &&& is_prolog(h)
            &&& q.out == p.out + h + c
            &&& is_ready(q.out)
            &&& put_tag(put_text(p, h, nb), c) == q
        }),
{
    reveal(put_text);
    reveal(put_tag);
    let nb = is_block_tag(c);
    let q = put_text(p, g, nb);
    tidy::lemma_ends(c);
    if p.verbatim is Some {
        assert((p.out + g + c).last() == c.last());
        g
    } else {
        let lift = lift_of(q, c);
        let h = lemma_again(p, g, nb, lift);
        assert((p.out + h + c).last() == c.last());
        assert(put_tag(q, c).out == lifted(q.out, lift) + c);
        let s = put_text(p, h, nb);
        assert(put_tag(s, c).out == lifted(s.out, lift) + c);
        assert(put_tag(s, c) =~= put_tag(q, c));
        h
    }
}

/// What follows the first tag is written from there on.
proof fn lemma_run_on(a: Seq<char>, c: Seq<char>, b: Seq<char>, p: Pen)
    requires
        is_prolog(a),
        is_piece(c),
        !tidy::is_aside(c),
        is_tidy(b),
    ensures
        is_tidy(a + (c + b)),
        run(a + (c + b), p) == run(b, put_tag(put_text(p, a, is_block_tag(c)), c)),
{
    let none = Seq::<char>::empty();
    let m = c + b;
    let h = a + m;
    tidy::lemma_ends(c);
    assert(m.subrange(0, c.len() as int) =~= c);
    tidy::lemma_piece_first(m, c);
    assert(tail(m) =~= b);
    assert(is_tidy(m)) by {
        reveal(is_tidy);
    }
    tidy::lemma_tidy_join(a, m);
    tidy::lemma_lead_join(a, m);
    assert(tidy::lead(m) =~= none);
    assert(a + none =~= a);
    assert(from(h, a.len() as int) =~= m);
}

/// What is written of a tidy text is tidy, and is written as it stands.
proof fn lemma_settled(s: Seq<char>, p: Pen) -> (h: Seq<char>)
    requires
        is_tidy(s),
        is_ready(p.out),
    ensures
        is_tidy(h),
        ended(run(s, p).out) == p.out + h,
        ended(run(h, p).out) == p.out + h,
    decreases s.len(),
{
    let none = Seq::<char>::empty();
    let g = tidy::lead(s);
    let r = from(s, g.len() as int);
    lemma_lead_parts(s);
    if r.len() == 0 {
        let h = lemma_end_again(p, g);
        tidy::lemma_lead_join(h, none);
        h
    } else {
        let c = piece(r);
        let a = lemma_tag_again(p, g, c);
        let q = put_tag(put_text(p, g, is_block_tag(c)), c);
        tidy::lemma_tail(r);
        let b = lemma_settled(tail(r), q);
        let h = a + (c + b);
        lemma_run_on(a, c, b, p);
        assert(p.out + a + c + b =~= p.out + h);
        h
    }
}

/// Re-indenting a document that is re-indented changes nothing, where its markup is
/// closed; it then stays closed.
pub proof fn re_indenting_twice_is_re_indenting_once(t: Seq<char>)
    requires
        is_tidy(t),
    ensures
        pretty::spec_pretty_xhtml(pretty::spec_pretty_xhtml(t)) == pretty::spec_pretty_xhtml(t),
        is_tidy(pretty::spec_pretty_xhtml(t)),
{
    let p = Pen { out: Seq::empty(), depth: 0, verbatim: None, last: Last::BlockClose };
    let h = lemma_settled(t, p);
    lemma_pretty(t);
    lemma_pretty(h);
    assert(p.out + h =~= h);
}

proof fn lemma_pretty(t: Seq<char>)
    requires
        is_tidy(t),
    ensures
        pretty::spec_pretty_xhtml(t) == ended(
            run(t, Pen { out: Seq::empty(), depth: 0, verbatim: None, last: Last::BlockClose }).out,
        ),
{
    let v = markup::spec_tokens(t);
    assert(from(t, 0) =~= t);
    assert(v =~= v.take(0) + v);
    lemma_run(t, v, 0, 0);
}

} // verus!
