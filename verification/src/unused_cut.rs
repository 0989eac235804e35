//! Once the unused rules are cut from a stylesheet, none is unused.
use vstd::prelude::*;

use crate::css::{CssItem, CssKind};
use crate::{css, manifest, text, unused_css};

verus! {

// ---------------------------------------------------------------- the same text elsewhere

/// What stands in `t` from `i` up to `n` stands in `s`, `d` further on.
spec fn agrees(t: Seq<char>, s: Seq<char>, d: int, i: int, n: int) -> bool {
    forall|k: int| i <= k < n ==> s[k + d] == #[trigger] t[k]
}

/// What is read up to `e` of a text that ends at `b` is read the same of one that
/// ends at `c`: it stops before the end, or the ends are the same.
spec fn reads(b: int, c: int, d: int, e: int) -> bool {
    (e < b && e + d <= c) || c == b + d
}

/// The end of what has to agree, where a search stops at `e`.
spec fn past(b: int, e: int) -> int {
    if e < b {
        e + 1
    } else {
        b
    }
}

proof fn lemma_comment_same(t: Seq<char>, i: int, b: int, s: Seq<char>, d: int, c: int)
    requires
        0 <= i <= b <= t.len(),
        0 <= i + d,
        c <= s.len(),
        agrees(t, s, d, i, css::comment_end(t, i, b)),
        reads(b, c, d, css::comment_end(t, i, b)),
    ensures
        css::comment_end(s, i + d, c) == css::comment_end(t, i, b) + d,
    decreases b - i,
{
    css::lemma_comment_end(t, i, b);
    if i + 2 <= b {
        if t[i] == '*' && t[i + 1] == '/' {
        } else {
            css::lemma_comment_end(t, i + 1, b);
            lemma_comment_far(t, i + 1, b);
            lemma_comment_same(t, i + 1, b, s, d, c);
        }
    }
}

proof fn lemma_comment_far(t: Seq<char>, i: int, b: int)
    requires
        0 <= i <= b <= t.len(),
    ensures
        css::comment_end(t, i, b) == b || css::comment_end(t, i, b) >= i + 2,
        css::comment_end(t, i, b) < b ==> t[css::comment_end(t, i, b) - 1] == '/',
    decreases b - i,
{
    if i + 2 <= b && !(t[i] == '*' && t[i + 1] == '/') {
        lemma_comment_far(t, i + 1, b);
    }
}

proof fn lemma_string_same(t: Seq<char>, q: char, i: int, b: int, s: Seq<char>, d: int, c: int)
    requires
        0 <= i <= b <= t.len(),
        0 <= i + d,
        c <= s.len(),
        agrees(t, s, d, i, css::string_end(t, q, i, b)),
        reads(b, c, d, css::string_end(t, q, i, b)),
    ensures
        css::string_end(s, q, i + d, c) == css::string_end(t, q, i, b) + d,
    decreases b - i,
{
    css::lemma_string_end(t, q, i, b);
    if i < b {
        if t[i] == '\\' {
            if i + 2 <= b {
                css::lemma_string_end(t, q, i + 2, b);
                lemma_string_same(t, q, i + 2, b, s, d, c);
            }
        } else if t[i] != q {
            css::lemma_string_end(t, q, i + 1, b);
            lemma_string_same(t, q, i + 1, b, s, d, c);
        }
    }
}

/// What is read as one at `i`, where something is sought and found at `e`.
proof fn lemma_unit_same(t: Seq<char>, i: int, b: int, s: Seq<char>, d: int, c: int, e: int)
    requires
        0 <= i < b <= t.len(),
        0 <= i + d,
        c <= s.len(),
        i < e <= b,
        css::unit_end(t, i, b) <= e,
        agrees(t, s, d, i, past(b, e)),
        (e < b && e + 1 + d <= c) || c == b + d,
    ensures
        css::unit_end(s, i + d, c) == css::unit_end(t, i, b) + d,
        css::bare(s, i + d, c) == css::bare(t, i, b),
{
    assert(s[i + d] == t[i]);
    if i + 1 < b {
        assert(s[i + 1 + d] == t[i + 1]);
    }
    assert(css::comment_at(s, i + d, c) == css::comment_at(t, i, b));
    if css::comment_at(t, i, b) {
        lemma_comment_same(t, i + 2, b, s, d, c);
    } else if t[i] == '"' || t[i] == '\'' {
        lemma_string_same(t, t[i], i + 1, b, s, d, c);
    }
}

proof fn lemma_stop_same(t: Seq<char>, i: int, b: int, depth: int, s: Seq<char>, d: int, c: int)
    requires
        0 <= i <= b <= t.len(),
        0 <= i + d,
        c <= s.len(),
        ({
            let e = css::stop_from(t, i, b, depth);
            agrees(t, s, d, i, past(b, e)) && ((e < b && e + 1 + d <= c) || c == b + d)
        }),
    ensures
        css::stop_from(s, i + d, c, depth) == css::stop_from(t, i, b, depth) + d,
    decreases b - i,
{
    let e = css::stop_from(t, i, b, depth);
    css::lemma_stop_from(t, i, b, depth);
    if i < b {
        css::lemma_unit_end(t, i, b);
        let u = css::unit_end(t, i, b);
        assert(s[i + d] == t[i]);
        if !css::bare(t, i, b) {
            css::lemma_stop_from(t, u, b, depth);
            lemma_unit_same(t, i, b, s, d, c, e);
            lemma_stop_same(t, u, b, depth, s, d, c);
        } else if depth == 0 && (t[i] == '{' || t[i] == '}' || t[i] == ';') {
        } else {
            css::lemma_stop_from(t, i + 1, b, css::nested(t[i], depth));
            lemma_unit_same(t, i, b, s, d, c, e);
            lemma_stop_same(t, i + 1, b, css::nested(t[i], depth), s, d, c);
        }
    }
}

proof fn lemma_close_same(t: Seq<char>, i: int, b: int, depth: int, s: Seq<char>, d: int, c: int)
    requires
        0 <= i <= b <= t.len(),
        0 <= i + d,
        c <= s.len(),
        ({
            let e = css::close_from(t, i, b, depth);
            agrees(t, s, d, i, past(b, e)) && ((e < b && e + 1 + d <= c) || c == b + d)
        }),
    ensures
        css::close_from(s, i + d, c, depth) == css::close_from(t, i, b, depth) + d,
    decreases b - i,
{
    let e = css::close_from(t, i, b, depth);
    css::lemma_close_from(t, i, b, depth);
    if i < b {
        css::lemma_unit_end(t, i, b);
        let u = css::unit_end(t, i, b);
        assert(s[i + d] == t[i]);
        if !css::bare(t, i, b) {
            css::lemma_close_from(t, u, b, depth);
            lemma_unit_same(t, i, b, s, d, c, e);
            lemma_close_same(t, u, b, depth, s, d, c);
        } else if t[i] == '}' && depth <= 0 {
        } else {
            let next = if t[i] == '{' {
                depth + 1
            } else if t[i] == '}' {
                depth - 1
            } else {
                depth
            };
            css::lemma_close_from(t, i + 1, b, next);
            lemma_unit_same(t, i, b, s, d, c, e);
            lemma_close_same(t, i + 1, b, next, s, d, c);
        }
    }
}

proof fn lemma_ident_same(t: Seq<char>, i: int, b: int, s: Seq<char>, d: int, c: int)
    requires
        0 <= i <= b <= t.len(),
        0 <= i + d,
        c <= s.len(),
        ({
            let e = css::ident_end(t, i, b);
            agrees(t, s, d, i, past(b, e)) && ((e < b && e + 1 + d <= c) || c == b + d)
        }),
    ensures
        css::ident_end(s, i + d, c) == css::ident_end(t, i, b) + d,
    decreases b - i,
{
    css::lemma_ident_end(t, i, b);
    if i < b {
        assert(s[i + d] == t[i]);
        if css::ident_char(t[i]) {
            css::lemma_ident_end(t, i + 1, b);
            lemma_ident_same(t, i + 1, b, s, d, c);
        }
    }
}

/// The item, `d` further on.
spec fn moved(k: CssItem, d: int) -> CssItem {
    CssItem {
        start: k.start + d,
        end: k.end + d,
        kind: match k.kind {
            CssKind::Rule { prelude, inner } => CssKind::Rule {
                prelude: (prelude.0 + d, prelude.1 + d),
                inner: (inner.0 + d, inner.1 + d),
            },
            CssKind::Group { name, prelude, inner } => CssKind::Group {
                name,
                prelude: (prelude.0 + d, prelude.1 + d),
                inner: (inner.0 + d, inner.1 + d),
            },
            CssKind::Block { name, prelude, inner } => CssKind::Block {
                name,
                prelude: (prelude.0 + d, prelude.1 + d),
                inner: (inner.0 + d, inner.1 + d),
            },
            other => other,
        },
    }
}

/// An item is read the same elsewhere.
proof fn lemma_item_same(t: Seq<char>, i: int, b: int, s: Seq<char>, d: int, c: int)
    requires
        0 <= i < b <= t.len(),
        t[i] != '}',
        t[i] != ';',
        0 <= i + d,
        c <= s.len(),
        agrees(t, s, d, i, css::item_at(t, i, b).end),
        reads(b, c, d, css::item_at(t, i, b).end),
    ensures
        css::item_at(s, i + d, c) == moved(css::item_at(t, i, b), d),
{
    let e = css::item_at(t, i, b).end;
    css::lemma_item_at(t, i, b);
    assert(s[i + d] == t[i]);
    if css::comment_at(t, i, b) {
        lemma_comment_far(t, i + 2, b);
        css::lemma_comment_end(t, i + 2, b);
        assert(s[i + 1 + d] == t[i + 1]);
        lemma_comment_same(t, i + 2, b, s, d, c);
    } else {
        let at = t[i] == '@';
        css::lemma_ident_end(t, i + 1, b);
        let n = if at {
            css::ident_end(t, i + 1, b)
        } else {
            i
        };
        css::lemma_stop_from(t, n, b, 0);
        let p = css::stop_from(t, n, b, 0);
        assert(p < b ==> p < e);
        if t[i] == '/' && i + 1 < b {
            assert(p > i) by {
                css::lemma_unit_end(t, i, b);
                css::lemma_stop_from(t, i + 1, b, css::nested(t[i], 0));
            }
            assert(s[i + 1 + d] == t[i + 1]);
        }
        assert(!css::comment_at(s, i + d, c));
        if at {
            lemma_ident_same(t, i + 1, b, s, d, c);
            lemma_sub_same(t, s, d, i + 1, n);
        }
        lemma_stop_same(t, n, b, 0, s, d, c);
        if p < b {
            assert(s[p + d] == t[p]);
            if t[p] == '{' {
                css::lemma_close_from(t, p + 1, b, 0);
                lemma_close_same(t, p + 1, b, 0, s, d, c);
            }
        }
    }
}

proof fn lemma_sub_same(t: Seq<char>, s: Seq<char>, d: int, i: int, n: int)
    requires
        0 <= i <= n <= t.len(),
        0 <= i + d,
        n + d <= s.len(),
        agrees(t, s, d, i, n),
    ensures
        s.subrange(i + d, n + d) == t.subrange(i, n),
{
    assert forall|k: int| 0 <= k < n - i implies #[trigger] s.subrange(i + d, n + d)[k] == t.subrange(
        i,
        n,
    )[k] by {
        assert(s[(i + k) + d] == t[i + k]);
    }
    assert(s.subrange(i + d, n + d) =~= t.subrange(i, n));
}

proof fn lemma_not_comments(v: Seq<CssItem>, n: int)
    requires
        0 <= n <= v.len(),
    ensures
        unused_css::not_comments(v, n) > 0 ==> exists|k: int|
            0 <= k < n && !((#[trigger] v[k]).kind is Comment),
        unused_css::not_comments(v, n) >= 0,
    decreases n,
{
    if n > 0 {
        lemma_not_comments(v, n - 1);
        if !(v[n - 1].kind is Comment) {
            assert(0 <= n - 1 < n && !(v[n - 1].kind is Comment));
        }
    }
}

/// A group in which nothing is cut is not cut.
proof fn lemma_not_all_cut(t: Seq<char>, a: int, b: int)
    ensures
        ({
            let body = css::scan_from(t, a, b);
            !(unused_css::not_comments(body, body.len() as int) > 0 && unused_css::all_cut(
                body,
                Seq::empty(),
            ))
        }),
{
    let body = css::scan_from(t, a, b);
    lemma_not_comments(body, body.len() as int);
    if unused_css::not_comments(body, body.len() as int) > 0 {
        let k = choose|k: int| 0 <= k < body.len() && !((#[trigger] body[k]).kind is Comment);
        assert(!Seq::<(int, int)>::empty().contains((body[k].start, body[k].end)));
    }
}

spec fn is_skipped(c: char) -> bool {
    text::is_ascii_white(c) || c == '}' || c == ';'
}

/// Where nothing is unused, nothing is unused of the same text elsewhere.
proof fn lemma_unused_same(
    t: Seq<char>,
    i: int,
    b: int,
    matched: Seq<Seq<char>>,
    s: Seq<char>,
    d: int,
)
    requires
        0 <= i <= b <= t.len(),
        0 <= i + d,
        b + d <= s.len(),
        agrees(t, s, d, i, b),
        unused_css::unused_from(t, i, b, matched).len() == 0,
    ensures
        unused_css::unused_from(s, i + d, b + d, matched).len() == 0,
    decreases b - i,
{
    if i < b {
        assert(s[i + d] == t[i]);
        if is_skipped(t[i]) {
            lemma_unused_same(t, i + 1, b, matched, s, d);
        } else {
            let item = css::item_at(t, i, b);
            css::lemma_item_at(t, i, b);
            lemma_item_same(t, i, b, s, d, b + d);
            lemma_unused_same(t, item.end, b, matched, s, d);
            match item.kind {
                CssKind::Rule { prelude, inner } => {
                    lemma_sub_same(t, s, d, prelude.0, prelude.1);
                },
                CssKind::Group { name, prelude, inner } => {
                    lemma_unused_same(t, inner.0, inner.1, matched, s, d);
                    lemma_not_all_cut(s, inner.0 + d, inner.1 + d);
                    assert(unused_css::unused_from(s, inner.0 + d, inner.1 + d, matched)
                        =~= Seq::<(int, int)>::empty());
                },
                _ => {},
            }
        }
    }
}

// ---------------------------------------------------------------- the cut

/// No group is cut in part: of each, nothing is unused, or all.
pub open spec fn cuts_whole(t: Seq<char>, i: int, b: int, matched: Seq<Seq<char>>) -> bool
    decreases b - i,
{
    if i < 0 || i >= b || b > t.len() {
        true
    } else if text::is_ascii_white(t[i]) || t[i] == '}' || t[i] == ';' {
        cuts_whole(t, i + 1, b, matched)
    } else {
        let item = css::item_at(t, i, b);
        proof {
            css::lemma_item_at(t, i, b);
        }
        (match item.kind {
            CssKind::Group { inner, .. } => {
                let inside = unused_css::unused_from(t, inner.0, inner.1, matched);
                let body = css::scan_from(t, inner.0, inner.1);
                inside.len() == 0 || (unused_css::not_comments(body, body.len() as int) > 0
                    && unused_css::all_cut(body, inside))
            },
            _ => true,
        }) && cuts_whole(t, item.end, b, matched)
    }
}

/// The item at `i` is cut.
spec fn is_cut_at(t: Seq<char>, i: int, b: int, matched: Seq<Seq<char>>) -> bool {
    let item = css::item_at(t, i, b);
    match item.kind {
        CssKind::Rule { prelude, .. } => !unused_css::spec_rule_used(
            t.subrange(prelude.0, prelude.1),
            matched,
        ),
        CssKind::Group { inner, .. } => unused_css::unused_from(t, inner.0, inner.1, matched).len() > 0,
        _ => false,
    }
}

/// What is unused from an item on.
proof fn lemma_unused_step(t: Seq<char>, i: int, b: int, matched: Seq<Seq<char>>)
    requires
        0 <= i < b <= t.len(),
        !is_skipped(t[i]),
        cuts_whole(t, i, b, matched),
    ensures
        ({
            let e = css::item_at(t, i, b).end;
            let rest = unused_css::unused_from(t, e, b, matched);
            &&& i < e <= b
            &&& cuts_whole(t, e, b, matched)
            &&& unused_css::unused_from(t, i, b, matched) == if is_cut_at(t, i, b, matched) {
                seq![(i, e)] + rest
            } else {
                rest
            }
        }),
{
    css::lemma_item_at(t, i, b);
    let item = css::item_at(t, i, b);
    let rest = unused_css::unused_from(t, item.end, b, matched);
    if let CssKind::Group { name, prelude, inner } = item.kind {
        let inside = unused_css::unused_from(t, inner.0, inner.1, matched);
        if inside.len() == 0 {
            lemma_not_all_cut(t, inner.0, inner.1);
            assert(inside =~= Seq::<(int, int)>::empty());
            assert(inside + rest =~= rest);
        }
    }
}

/// The unused rules stand in order, from `i` on.
proof fn lemma_unused_ahead(t: Seq<char>, i: int, b: int, matched: Seq<Seq<char>>)
    requires
        0 <= i <= b <= t.len(),
        cuts_whole(t, i, b, matched),
        unused_css::unused_from(t, i, b, matched).len() > 0,
    ensures
        ({
            let v = unused_css::unused_from(t, i, b, matched);
            i <= v[0].0 < v[0].1 <= b
        }),
    decreases b - i,
{
    if i < b {
        if is_skipped(t[i]) {
            lemma_unused_ahead(t, i + 1, b, matched);
        } else {
            lemma_unused_step(t, i, b, matched);
            if !is_cut_at(t, i, b, matched) {
                lemma_unused_ahead(t, css::item_at(t, i, b).end, b, matched);
            }
        }
    }
}

/// How an item ends that ends before the text does.
proof fn lemma_item_last(t: Seq<char>, i: int, b: int)
    requires
        0 <= i < b <= t.len(),
        t[i] != '}',
        t[i] != ';',
        css::item_at(t, i, b).end < b,
    ensures
        !text::is_white(t[css::item_at(t, i, b).end - 1]),
{
    css::lemma_item_at(t, i, b);
    if css::comment_at(t, i, b) {
        lemma_comment_far(t, i + 2, b);
    } else {
        css::lemma_ident_end(t, i + 1, b);
        let n = if t[i] == '@' {
            css::ident_end(t, i + 1, b)
        } else {
            i
        };
        lemma_stop_char(t, n, b, 0);
        let p = css::stop_from(t, n, b, 0);
        if p < b && t[p] == '{' {
            css::lemma_stop_from(t, n, b, 0);
            lemma_close_char(t, p + 1, b, 0);
        }
    }
}

proof fn lemma_stop_char(t: Seq<char>, i: int, b: int, depth: int)
    requires
        0 <= i <= b <= t.len(),
    ensures
        ({
            let e = css::stop_from(t, i, b, depth);
            e < b ==> t[e] == '{' || t[e] == '}' || t[e] == ';'
        }),
    decreases b - i,
{
    if i < b {
        css::lemma_unit_end(t, i, b);
        if !css::bare(t, i, b) {
            lemma_stop_char(t, css::unit_end(t, i, b), b, depth);
        } else {
            lemma_stop_char(t, i + 1, b, css::nested(t[i], depth));
        }
    }
}

proof fn lemma_close_char(t: Seq<char>, i: int, b: int, depth: int)
    requires
        0 <= i <= b <= t.len(),
    ensures
        ({
            let e = css::close_from(t, i, b, depth);
            e < b ==> t[e] == '}'
        }),
    decreases b - i,
{
    if i < b {
        css::lemma_unit_end(t, i, b);
        if !css::bare(t, i, b) {
            lemma_close_char(t, css::unit_end(t, i, b), b, depth);
        } else if t[i] == '{' {
            lemma_close_char(t, i + 1, b, depth + 1);
        } else if t[i] == '}' {
            if depth > 0 {
                lemma_close_char(t, i + 1, b, depth - 1);
            }
        } else {
            lemma_close_char(t, i + 1, b, depth);
        }
    }
}

/// Over white space to the first unused rule.
proof fn lemma_to_first(t: Seq<char>, i: int, b: int, matched: Seq<Seq<char>>, x: int, y: int)
    requires
        0 <= i <= x < b <= t.len(),
        cuts_whole(t, i, b, matched),
        unused_css::unused_from(t, i, b, matched).len() > 0,
        unused_css::unused_from(t, i, b, matched)[0] == (x, y),
        forall|k: int| i <= k < x ==> text::is_white(#[trigger] t[k]),
    ensures
        unused_css::unused_from(t, i, b, matched) == seq![(x, y)] + unused_css::unused_from(
            t,
            y,
            b,
            matched,
        ),
        x < y <= b,
        cuts_whole(t, y, b, matched),
    decreases x - i,
{
    if is_skipped(t[i]) {
        if i == x {
            lemma_unused_ahead(t, i + 1, b, matched);
        } else {
            lemma_to_first(t, i + 1, b, matched, x, y);
        }
    } else {
        lemma_unused_step(t, i, b, matched);
        let e = css::item_at(t, i, b).end;
        if !is_cut_at(t, i, b, matched) {
            lemma_unused_ahead(t, e, b, matched);
            lemma_item_last(t, i, b);
            assert(text::is_white(t[e - 1]));
        } else {
            let rest = unused_css::unused_from(t, e, b, matched);
            assert((seq![(i, e)] + rest)[0] == (i, e));
        }
    }
}

proof fn lemma_line_tail(t: Seq<char>, i: int, matched: Seq<Seq<char>>)
    requires
        0 <= i <= t.len(),
        cuts_whole(t, i, t.len() as int, matched),
    ensures
        unused_css::line_tail(t, i) matches Some(e) ==> i <= e <= t.len() && cuts_whole(
            t,
            e,
            t.len() as int,
            matched,
        ) && unused_css::unused_from(t, i, t.len() as int, matched) == unused_css::unused_from(
            t,
            e,
            t.len() as int,
            matched,
        ),
    decreases t.len() - i,
{
    if i < t.len() {
        let b = t.len() as int;
        if t[i] == ' ' || t[i] == '\t' {
            lemma_line_tail(t, i + 1, matched);
        } else if t[i] == '\r' && i + 1 < b && t[i + 1] == '\n' {
            assert(cuts_whole(t, i + 1, b, matched) == cuts_whole(t, i + 2, b, matched));
            assert(unused_css::unused_from(t, i + 1, b, matched) == unused_css::unused_from(
                t,
                i + 2,
                b,
                matched,
            ));
        }
    }
}

/// Where a cut starts and ends.
proof fn lemma_cut_span(t: Seq<char>, pos: int, x: int, y: int)
    requires
        0 <= pos <= x < y <= t.len(),
    ensures
        ({
            let (a, e) = unused_css::cut_span(t, pos, x, y);
            &&& pos <= a <= x
            &&& e == y || unused_css::line_tail(t, y) == Some(e)
            &&& forall|k: int| a <= k < x ==> text::is_white(#[trigger] t[k])
        }),
{
    let line = manifest::line_start(t, x);
    lemma_rfind_char(t, '\n', x);
    if text::all_white(t.subrange(line, x)) {
        assert forall|k: int| line <= k < x implies text::is_white(#[trigger] t[k]) by {
            assert(t.subrange(line, x)[k - line] == t[k]);
        }
    }
}

proof fn lemma_rfind_char(t: Seq<char>, c: char, i: int)
    requires
        0 <= i <= t.len(),
    ensures
        text::spec_rfind_char(t, c, i) matches Some(k) ==> 0 <= k < i,
    decreases i,
{
    if i > 0 {
        lemma_rfind_char(t, c, i - 1);
    }
}

/// What is left of a stylesheet from `i` on holds no unused rule.
proof fn lemma_left(
    t: Seq<char>,
    matched: Seq<Seq<char>>,
    v: Seq<(int, int)>,
    left: Seq<char>,
    at: int,
    pos: int,
    idx: int,
    i: int,
)
    requires
        0 <= pos <= i <= t.len(),
        0 <= idx <= v.len(),
        0 <= at <= left.len(),
        v.subrange(idx, v.len() as int) == unused_css::unused_from(t, i, t.len() as int, matched),
        cuts_whole(t, i, t.len() as int, matched),
        left.subrange(at, left.len() as int) == unused_css::cut_spans(t, v, pos, idx),
        idx < v.len() ==> i <= unused_css::cut_span(t, pos, v[idx].0, v[idx].1).0,
    ensures
        unused_css::unused_from(left, at + i - pos, left.len() as int, matched).len() == 0,
    decreases t.len() - i, v.len() - idx,
{
    let b = t.len() as int;
    let d = at - pos;
    let n = left.len() as int;
    let w = v.subrange(idx, v.len() as int);
    if idx == v.len() {
        let r = t.subrange(pos, b);
        assert(unused_css::cut_spans(t, v, pos, idx) == r);
        assert(left.subrange(at, n).len() == r.len());
        assert(n == b + d);
        assert forall|k: int| i <= k < b implies left[k + d] == #[trigger] t[k] by {
            assert(left.subrange(at, n)[k - pos] == r[k - pos]);
        }
        lemma_unused_same(t, i, b, matched, left, d);
    } else {
        let (x, y) = v[idx];
        assert(w[0] == (x, y));
        lemma_unused_ahead(t, i, b, matched);
        lemma_cut_span(t, pos, x, y);
        let (a, e) = unused_css::cut_span(t, pos, x, y);
        let rest = unused_css::cut_spans(t, v, e, idx + 1);
        assert(left.subrange(at, n) == t.subrange(pos, a) + rest);
        assert forall|k: int| pos <= k < a implies left[k + d] == #[trigger] t[k] by {
            assert(left.subrange(at, n)[k - pos] == (t.subrange(pos, a) + rest)[k - pos]);
        }
        assert(left.subrange(at, n).len() == (a - pos) + rest.len());
        if i == a {
            lemma_to_first(t, i, b, matched, x, y);
            lemma_line_tail(t, y, matched);
            assert(v.subrange(idx + 1, v.len() as int) =~= unused_css::unused_from(t, e, b, matched)) by {
                let u = unused_css::unused_from(t, y, b, matched);
                assert(v.subrange(idx + 1, v.len() as int) =~= w.subrange(1, w.len() as int));
                assert((seq![(x, y)] + u).subrange(1, w.len() as int) =~= u);
            }
            assert(left.subrange(at + a - pos, n) =~= rest) by {
                assert(left.subrange(at + a - pos, n) =~= left.subrange(at, n).subrange(a - pos, n - at));
            }
            if idx + 1 < v.len() {
                let (x2, y2) = v[idx + 1];
                assert(v.subrange(idx + 1, v.len() as int)[0] == (x2, y2));
                lemma_unused_ahead(t, e, b, matched);
                lemma_cut_span(t, e, x2, y2);
            }
            lemma_left(t, matched, v, left, at + a - pos, e, idx + 1, e);
        } else {
            assert(left[i + d] == t[i]);
            if is_skipped(t[i]) {
                lemma_left(t, matched, v, left, at, pos, idx, i + 1);
            } else {
                lemma_left_item(t, matched, v, left, at, pos, idx, i);
                let item = css::item_at(t, i, b);
                lemma_left(t, matched, v, left, at, pos, idx, item.end);
            }
        }
    }
}

/// An item that is left is read as it was.
proof fn lemma_left_item(
    t: Seq<char>,
    matched: Seq<Seq<char>>,
    v: Seq<(int, int)>,
    left: Seq<char>,
    at: int,
    pos: int,
    idx: int,
    i: int,
)
    requires
        0 <= pos <= i < t.len(),
        0 <= idx < v.len(),
        0 <= at <= left.len(),
        v.subrange(idx, v.len() as int) == unused_css::unused_from(t, i, t.len() as int, matched),
        cuts_whole(t, i, t.len() as int, matched),
        !is_skipped(t[i]),
        ({
            let a = unused_css::cut_span(t, pos, v[idx].0, v[idx].1).0;
            &&& i < a
            &&& a + at - pos <= left.len()
            &&& agrees(t, left, at - pos, pos, a)
        }),
    ensures
        ({
            let e = css::item_at(t, i, t.len() as int).end;
            let n = left.len() as int;
            let j = at + i - pos;
            &&& i < e <= unused_css::cut_span(t, pos, v[idx].0, v[idx].1).0
            &&& cuts_whole(t, e, t.len() as int, matched)
            &&& v.subrange(idx, v.len() as int) == unused_css::unused_from(t, e, t.len() as int, matched)
            &&& unused_css::unused_from(left, at + e - pos, n, matched).len() == 0
                ==> unused_css::unused_from(left, j, n, matched).len() == 0
        }),
{
    let b = t.len() as int;
    let d = at - pos;
    let n = left.len() as int;
    let w = v.subrange(idx, v.len() as int);
    let (x, y) = v[idx];
    assert(w[0] == (x, y));
    lemma_unused_ahead(t, i, b, matched);
    lemma_cut_span(t, pos, x, y);
    let a = unused_css::cut_span(t, pos, x, y).0;
    lemma_unused_step(t, i, b, matched);
    css::lemma_item_at(t, i, b);
    let item = css::item_at(t, i, b);
    let e = item.end;
    let rest = unused_css::unused_from(t, e, b, matched);
    if is_cut_at(t, i, b, matched) {
        assert((seq![(i, e)] + rest)[0] == (i, e));
    }
    lemma_unused_ahead(t, e, b, matched);
    lemma_item_last(t, i, b);
    assert(e <= a) by {
        if e > a {
            assert(text::is_white(t[e - 1]));
        }
    }
    lemma_item_same(t, i, b, left, d, n);
    assert(left[i + d] == t[i]);
    match item.kind {
        CssKind::Rule { prelude, inner } => {
            lemma_sub_same(t, left, d, prelude.0, prelude.1);
        },
        CssKind::Group { name, prelude, inner } => {
            lemma_unused_same(t, inner.0, inner.1, matched, left, d);
            lemma_not_all_cut(left, inner.0 + d, inner.1 + d);
            assert(unused_css::unused_from(left, inner.0 + d, inner.1 + d, matched)
                =~= Seq::<(int, int)>::empty());
        },
        _ => {},
    }
}

/// Once the unused rules are cut from a stylesheet, none is unused, where no group of
/// rules is cut in part.
pub proof fn nothing_is_unused_once_it_is_cut(t: Seq<char>, matched: Seq<Seq<char>>)
    requires
        cuts_whole(t, 0, t.len() as int, matched),
    ensures
        unused_css::spec_unused_spans(
            unused_css::cut_spans(t, unused_css::spec_unused_spans(t, matched), 0, 0),
            matched,
        ).len() == 0,
{
    let v = unused_css::spec_unused_spans(t, matched);
    let left = unused_css::cut_spans(t, v, 0, 0);
    assert(v.subrange(0, v.len() as int) =~= v);
    assert(left.subrange(0, left.len() as int) =~= left);
    if v.len() > 0 {
        lemma_unused_ahead(t, 0, t.len() as int, matched);
        lemma_cut_span(t, 0, v[0].0, v[0].1);
    }
    lemma_left(t, matched, v, left, 0, 0, 0, 0);
}

} // verus!
