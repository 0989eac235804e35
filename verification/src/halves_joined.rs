//! A document that is cut directly under its body and put together again is the
//! document, but for the white space where it was cut and where the body ends.
use vstd::prelude::*;

use crate::markup::Token;
use crate::pretty_twice::{is_blank, lemma_ascii_parts, lemma_ascii_trim_is, lemma_blank_white, lemma_white_prolog};
use crate::split_doc::{Move, Pair, Place};
use crate::tidy::{from, is_tidy, piece, tail};
use crate::{markup, split_doc, structure, text, tidy, version_read};

verus! {

// ---------------------------------------------------------------- the body of a tidy text

/// The piece is a tag of the body.
pub open spec fn is_body_tag(c: Seq<char>) -> bool {
    !tidy::is_aside(c) && tidy::piece_name(c) == "body"@
}

/// A tag of the body stands in the tidy text.
pub open spec fn has_body_tag(s: Seq<char>) -> bool
    decreases s.len(),
    via has_body_tag_shrinks
{
    s.len() > 0 && ((s[0] == '<' && is_body_tag(piece(s))) || has_body_tag(tail(s)))
}

#[via_fn]
proof fn has_body_tag_shrinks(s: Seq<char>) {
    if s.len() > 0 {
        tidy::lemma_tail(s);
    }
}

/// The text ends in the start tag of the body, and no end tag of one stands in it.
pub open spec fn opens_body(x: Seq<char>) -> bool
    decreases x.len(),
    via opens_body_shrinks
{
    x.len() > 0 && if x[0] == '<' && is_body_tag(piece(x)) {
        x[1] != '/' && (tail(x).len() == 0 || opens_body(tail(x)))
    } else {
        opens_body(tail(x))
    }
}

#[via_fn]
proof fn opens_body_shrinks(x: Seq<char>) {
    if x.len() > 0 {
        tidy::lemma_tail(x);
    }
}

/// The text starts with the end tag of the body.
pub open spec fn closes_body(z: Seq<char>) -> bool {
    z.len() > 0 && z[0] == '<' && z[1] == '/' && is_body_tag(piece(z))
}

/// The body of the tidy text `s`, which stands at `i`.
spec fn body_in(s: Seq<char>, i: int, open: Option<(int, int)>) -> Option<(int, int, int, int)>
    decreases s.len(),
    via body_in_shrinks
{
    if s.len() == 0 {
        None
    } else {
        let e = i + s.len() - tail(s).len();
        if s[0] == '<' && is_body_tag(piece(s)) {
            if s[1] != '/' {
                body_in(tail(s), e, Some((i, e)))
            } else {
                match open {
                    Some((a, b)) => Some((a, b, i, e)),
                    None => body_in(tail(s), e, open),
                }
            }
        } else {
            body_in(tail(s), e, open)
        }
    }
}

#[via_fn]
proof fn body_in_shrinks(s: Seq<char>, i: int, open: Option<(int, int)>) {
    if s.len() > 0 {
        tidy::lemma_tail(s);
    }
}

/// The body is sought piece by piece.
#[verifier::rlimit(40)]
proof fn lemma_body_from(
    t: Seq<char>,
    v: Seq<Token>,
    k: int,
    i: int,
    f: int,
    open: Option<(int, int)>,
)
    requires
        0 <= f <= i <= t.len(),
        0 <= k <= v.len(),
        is_tidy(from(t, i)),
        v == v.take(k) + markup::tokens_from(t, i, f),
    ensures
        markup::body_from(v, k, open) == body_in(from(t, i), i, open),
    decreases t.len() - i,
{
    let s = from(t, i);
    let w = markup::tokens_from(t, i, f);
    if s.len() == 0 {
        if f < i {
            assert(v[k] == w[0]);
            assert(v.len() == k + 1);
            assert(markup::body_from(v, k + 1, open) is None);
        }
    } else {
        tidy::lemma_tail(s);
        tidy::lemma_tidy_tail(s);
        assert(s[0] == t[i]);
        if s[0] != '<' {
            assert(from(t, i + 1) =~= tail(s));
            lemma_body_from(t, v, k, i + 1, f, open);
        } else {
            let c = piece(s);
            let e = i + c.len();
            tidy::lemma_ends(c);
            assert(t.subrange(i, e) =~= s.subrange(0, c.len() as int));
            assert(from(t, e) =~= tail(s));
            tidy::lemma_piece_at(t, i, c);
            if tidy::is_aside(c) {
                lemma_body_from(t, v, k, e, f, open);
            } else {
                let tag = version_read::tag_token(c, i);
                let rest = markup::tokens_from(t, e, e);
                assert(t.subrange(i, e)[c.len() - 2] == t[e - 2]);
                assert(w == markup::text_token(f, i) + seq![tag] + rest);
                let m = if f < i {
                    k + 1
                } else {
                    k
                };
                assert(v[m] == w[m - k]);
                if f < i {
                    assert(v[k] == w[0]);
                    assert(markup::body_from(v, k, open) == markup::body_from(v, k + 1, open));
                }
                assert(v.take(m + 1) + rest =~= v) by {
                    assert(v =~= v.take(k) + (markup::text_token(f, i) + seq![tag] + rest));
                }
                let next = if is_body_tag(c) && c[1] != '/' {
                    Some((i, e))
                } else {
                    open
                };
                lemma_body_from(t, v, m + 1, e, e, next);
            }
        }
    }
}

proof fn lemma_body_span(t: Seq<char>)
    requires
        is_tidy(t),
    ensures
        markup::spec_body_span(t) == body_in(t, 0, None),
{
    let v = markup::spec_tokens(t);
    assert(from(t, 0) =~= t);
    assert(v =~= v.take(0) + v);
    lemma_body_from(t, v, 0, 0, 0, None);
}

/// What holds no tag of the body is passed over.
proof fn lemma_body_past(y: Seq<char>, z: Seq<char>, i: int, open: Option<(int, int)>)
    requires
        is_tidy(y),
        !has_body_tag(y),
    ensures
        body_in(y + z, i, open) == body_in(z, i + y.len(), open),
    decreases y.len(),
{
    if y.len() == 0 {
        assert(y + z =~= z);
    } else {
        tidy::lemma_tail(y);
        tidy::lemma_tidy_tail(y);
        tidy::lemma_join_tail(y, z);
        lemma_body_past(tail(y), z, i + y.len() - tail(y).len(), open);
    }
}

/// Where the start tag of the body stands.
pub open spec fn body_start(x: Seq<char>) -> int
    decreases x.len(),
    via body_start_shrinks
{
    if x.len() == 0 || (is_body_tag(piece(x)) && x[0] == '<' && tail(x).len() == 0) {
        0
    } else {
        x.len() - tail(x).len() + body_start(tail(x))
    }
}

#[via_fn]
proof fn body_start_shrinks(x: Seq<char>) {
    if x.len() > 0 {
        tidy::lemma_tail(x);
    }
}

proof fn lemma_body_opened(x: Seq<char>, y: Seq<char>, i: int, open: Option<(int, int)>)
    requires
        is_tidy(x),
        opens_body(x),
    ensures
        body_in(x + y, i, open) == body_in(y, i + x.len(), Some((i + body_start(x), i + x.len()))),
    decreases x.len(),
{
    tidy::lemma_tail(x);
    tidy::lemma_tidy_tail(x);
    tidy::lemma_join_tail(x, y);
    let e = i + x.len() - tail(x).len();
    if x[0] == '<' && is_body_tag(piece(x)) && tail(x).len() == 0 {
        assert(tail(x) + y =~= y);
    } else if x[0] == '<' && is_body_tag(piece(x)) {
        lemma_body_opened(tail(x), y, e, Some((i, e)));
    } else {
        lemma_body_opened(tail(x), y, e, open);
    }
}

proof fn lemma_opens_end(x: Seq<char>)
    requires
        is_tidy(x),
        opens_body(x),
    ensures
        x.last() == '>',
    decreases x.len(),
{
    reveal_with_fuel(opens_body, 2);
    tidy::lemma_tail(x);
    tidy::lemma_tidy_tail(x);
    if x[0] == '<' && is_body_tag(piece(x)) && tail(x).len() == 0 {
        tidy::lemma_ends(piece(x));
        assert(piece(x) + tail(x) =~= piece(x));
    } else {
        lemma_opens_end(tail(x));
        assert(tail(x).len() > 0);
        let d = x.len() - tail(x).len();
        assert(tail(x) =~= x.subrange(d, x.len() as int));
        assert(x.last() == tail(x).last());
    }
}

/// The body of a text made of a start, an inside and an end.
proof fn lemma_body_of(x: Seq<char>, y: Seq<char>, z: Seq<char>)
    requires
        is_tidy(x),
        is_tidy(y),
        is_tidy(z),
        opens_body(x),
        !has_body_tag(y),
        closes_body(z),
    ensures
        is_tidy(x + (y + z)),
        markup::spec_body_span(x + (y + z)) == Some(
            (
                body_start(x),
                x.len() as int,
                (x.len() + y.len()) as int,
                (x.len() + y.len() + piece(z).len()) as int,
            ),
        ),
{
    tidy::lemma_tidy_join(y, z);
    tidy::lemma_tidy_join(x, y + z);
    lemma_body_span(x + (y + z));
    lemma_body_opened(x, y + z, 0, None);
    let open = Some((body_start(x), x.len() as int));
    lemma_body_past(y, z, x.len() as int, open);
    tidy::lemma_tail(z);
    tidy::lemma_tidy_tail(z);
}

// ---------------------------------------------------------------- white space at the ends

proof fn lemma_tidy_trimmed(u: Seq<char>, w: Seq<char>)
    requires
        is_tidy(u + w),
        is_blank(w),
    ensures
        is_tidy(u),
        has_body_tag(u) == has_body_tag(u + w),
    decreases u.len(),
{
    let s = u + w;
    if u.len() == 0 {
        assert(s =~= w);
        assert(is_tidy(u)) by {
            reveal(is_tidy);
        }
        lemma_no_body_tag(w);
    } else {
        tidy::lemma_tail(s);
        tidy::lemma_tidy_tail(s);
        assert(s[0] == u[0]);
        if u[0] != '<' {
            let r = u.subrange(1, u.len() as int);
            assert(tail(s) =~= r + w);
            assert(tail(u) =~= r);
            lemma_tidy_trimmed(r, w);
        } else {
            let c = piece(s);
            tidy::lemma_ends(c);
            let n = c.len() as int;
            assert(s[n - 1] == c[n - 1]);
            if n > u.len() {
                assert(s[n - 1] == w[n - 1 - u.len()]);
            }
            assert(u.subrange(0, n) =~= c);
            tidy::lemma_piece_first(u, c);
            let r = u.subrange(n, u.len() as int);
            assert(tail(s) =~= r + w);
            assert(tail(u) =~= r);
            lemma_tidy_trimmed(r, w);
        }
        reveal(is_tidy);
    }
}

proof fn lemma_no_body_tag(w: Seq<char>)
    requires
        is_blank(w),
    ensures
        !has_body_tag(w),
        is_tidy(w),
    decreases w.len(),
{
    lemma_blank_white(w);
    lemma_white_prolog(w);
    if w.len() > 0 {
        assert(text::is_ascii_white(w[0]));
        let r = tail(w);
        assert forall|k: int| 0 <= k < r.len() implies text::is_ascii_white(#[trigger] r[k]) by {
            assert(r[k] == w[k + 1]);
        }
        lemma_no_body_tag(r);
    }
}

proof fn lemma_body_tag_join(x: Seq<char>, y: Seq<char>)
    requires
        is_tidy(x),
    ensures
        has_body_tag(x + y) == (has_body_tag(x) || has_body_tag(y)),
    decreases x.len(),
{
    if x.len() == 0 {
        assert(x + y =~= y);
    } else {
        tidy::lemma_tail(x);
        tidy::lemma_tidy_tail(x);
        tidy::lemma_join_tail(x, y);
        lemma_body_tag_join(tail(x), y);
    }
}

/// White space before a tidy text.
proof fn lemma_tidy_led(w: Seq<char>, u: Seq<char>)
    requires
        is_tidy(w + u),
        is_blank(w),
    ensures
        is_tidy(u),
        has_body_tag(u) == has_body_tag(w + u),
{
    lemma_no_body_tag(w);
    lemma_body_tag_join(w, u);
    tidy::lemma_cut_join(w, u, 0);
    tidy::lemma_tidy_cut(w + u, w.len() as int);
    assert(from(w + u, w.len() as int) =~= u);
}

/// The text without white space at its end, and that white space.
proof fn lemma_end_parts(s: Seq<char>) -> (r: (Seq<char>, Seq<char>))
    ensures
        s == r.0 + r.1,
        is_blank(r.1),
        r.0.len() > 0 ==> !text::is_ascii_white(r.0.last()),
{
    let (a, b) = lemma_ascii_parts(s);
    let l = text::spec_ascii_trim(s);
    let none = Seq::<char>::empty();
    if l.len() == 0 {
        assert(s =~= none + s);
        (none, s)
    } else {
        (a + l, b)
    }
}

/// The inside of a body, trimmed, between a line break and its end.
proof fn lemma_inside(y: Seq<char>, w: Seq<char>, u: Seq<char>)
    requires
        y == w + u,
        is_blank(w),
        u.len() > 0 ==> !text::is_ascii_white(u[0]),
    ensures
        text::spec_ascii_trim(seq!['\n'] + u) == text::spec_ascii_trim(y),
{
    let none = Seq::<char>::empty();
    let nl = seq!['\n'];
    assert(is_blank(nl));
    if u.len() == 0 {
        assert(y =~= w);
        assert(nl + u =~= nl);
        let _ = lemma_ascii_parts(nl);
        let _ = lemma_ascii_parts(y);
        assert(text::spec_ascii_trim(nl) =~= text::spec_ascii_trim(y));
    } else {
        let (m, b) = lemma_end_parts(u);
        if m.len() == 0 {
            assert(u[0] == b[0]);
        }
        assert(m[0] == u[0]);
        assert(nl + u =~= nl + m + b);
        assert(y =~= w + m + b);
        lemma_ascii_trim_is(nl + u, nl, m, b);
        lemma_ascii_trim_is(y, w, m, b);
    }
}

/// The first half: the document up to the cut, a line break, and the end.
proof fn lemma_first_half(x: Seq<char>, y: Seq<char>, z: Seq<char>) -> (m: Seq<char>)
    requires
        is_tidy(x),
        is_tidy(y),
        is_tidy(z),
        opens_body(x),
        !has_body_tag(y),
        closes_body(z),
    ensures
        ({
            let h = text::spec_ascii_trim_end(x + y) + seq!['\n'] + z;
            &&& text::spec_ascii_trim_end(x + y) == x + m
            &&& text::spec_ascii_trim_end(x + m + seq!['\n']) == x + m
            &&& h == x + (m + seq!['\n'] + z)
            &&& markup::spec_body_span(h) matches Some(s) && s.2 == x.len() + m.len() + 1
        }),
{
    let none = Seq::<char>::empty();
    let nl = seq!['\n'];
    assert(is_blank(nl));
    lemma_opens_end(x);
    let (m, w) = lemma_end_parts(y);
    lemma_tidy_trimmed(m, w);
    lemma_no_body_tag(nl);
    tidy::lemma_tidy_join(m, nl);
    lemma_body_tag_join(m, nl);
    lemma_body_of(x, m + nl, z);
    let xm = x + m;
    assert(xm.last() == if m.len() > 0 { m.last() } else { x.last() });
    assert(x + y =~= none + xm + w);
    lemma_ascii_trim_is(x + y, none, xm, w);
    assert(none + xm =~= xm);
    assert(xm + nl =~= none + xm + nl);
    lemma_ascii_trim_is(xm + nl, none, xm, nl);
    assert(xm + nl + z =~= x + (m + nl + z));
    m
}

/// The second half: the start, a line break, and the document from the cut on.
proof fn lemma_second_half(x: Seq<char>, u: Seq<char>, z: Seq<char>) -> (v: Seq<char>)
    requires
        is_tidy(x),
        is_tidy(u),
        is_tidy(z),
        opens_body(x),
        !has_body_tag(u),
        closes_body(z),
    ensures
        ({
            let h = x + seq!['\n'] + text::spec_ascii_trim_start(u + z);
            &&& text::spec_ascii_trim(seq!['\n'] + v) == text::spec_ascii_trim(u)
            &&& h == x + (seq!['\n'] + v + z)
            &&& markup::spec_body_span(h) matches Some(s) && s.1 == x.len() && s.2 == x.len() + 1 + v.len()
        }),
{
    let none = Seq::<char>::empty();
    let nl = seq!['\n'];
    assert(is_blank(nl));
    lemma_no_body_tag(nl);
    let (a0, b0) = lemma_ascii_parts(u);
    let l = text::spec_ascii_trim(u);
    let v = if l.len() == 0 {
        none
    } else {
        l + b0
    };
    let f = if l.len() == 0 {
        u
    } else {
        a0
    };
    assert(u =~= f + v);
    lemma_tidy_led(f, v);
    tidy::lemma_tidy_join(nl, v);
    lemma_body_tag_join(nl, v);
    lemma_body_of(x, nl + v, z);
    let vz = v + z;
    assert(vz[0] == if l.len() > 0 { l[0] } else { z[0] });
    assert(u + z =~= f + vz + none);
    lemma_ascii_trim_is(u + z, f, vz, none);
    assert(vz + none =~= vz);
    assert(x + nl + vz =~= x + (nl + v + z));
    lemma_inside(u, f, v);
    v
}

// ---------------------------------------------------------------- the law

/// The pair of documents that a cut leaves.
pub open spec fn pair_of(
    halves: (Seq<char>, Seq<char>),
    a: (int, int, int, int),
    b: (int, int, int, int),
    opf_path: Seq<char>,
    next: Seq<char>,
    next_id: Seq<char>,
) -> Pair {
    Pair {
        opf_path,
        next,
        next_id,
        a: halves.0,
        a_close: a.2,
        b: halves.1,
        b_open_end: b.1,
        b_close: b.2,
    }
}

/// A document is cut directly under its body, between `y` and `u`, and its halves are
/// put together again: each half has a body, and what comes out is the document, with
/// one line break where it was cut and one where its body ends. `x` is the document
/// up to its body, `z` what stands from the end of the body on.
pub proof fn halves_put_together_are_the_document(
    x: Seq<char>,
    y: Seq<char>,
    u: Seq<char>,
    z: Seq<char>,
    path: Seq<char>,
    next: Seq<char>,
    opf_path: Seq<char>,
    next_id: Seq<char>,
)
    requires
        is_tidy(x),
        is_tidy(y),
        is_tidy(u),
        is_tidy(z),
        opens_body(x),
        !has_body_tag(y),
        !has_body_tag(u),
        closes_body(z),
        structure::spec_dir_of(next) == structure::spec_dir_of(path),
    ensures
        ({
            let t = x + (y + u + z);
            let at = (x.len() + y.len()) as int;
            let close = (x.len() + y.len() + u.len()) as int;
            let h = split_doc::halves(
                t,
                x.len() as int,
                close,
                Place { at, ancestors: Seq::empty() },
            );
            &&& markup::spec_body_span(t) matches Some(s) && s.1 == x.len() && s.2 == close
            &&& markup::spec_body_span(h.0) matches Some(a) && markup::spec_body_span(h.1) matches Some(b)
                && split_doc::joined(pair_of(h, a, b, opf_path, next, next_id), path)
                == text::spec_ascii_trim_end(x + y) + "\n"@ + text::spec_ascii_trim(u) + "\n"@ + z
        }),
{
    reveal_strlit("\n");
    let none = Seq::<char>::empty();
    let nl = seq!['\n'];
    assert("\n"@ =~= nl);
    assert(is_blank(nl));
    let t = x + (y + u + z);
    let at = (x.len() + y.len()) as int;
    let close = (x.len() + y.len() + u.len()) as int;
    let cut = Place { at, ancestors: Seq::empty() };
    let h = split_doc::halves(t, x.len() as int, close, cut);
    tidy::lemma_tidy_join(y, u);
    lemma_body_tag_join(y, u);
    lemma_body_of(x, y + u, z);
    let m = lemma_first_half(x, y, z);
    let v = lemma_second_half(x, u, z);
    assert(t.subrange(0, at) =~= x + y);
    assert(t.subrange(close, t.len() as int) =~= z);
    assert(split_doc::closers(cut.ancestors) =~= none);
    assert(x + m + nl + none + z =~= x + m + nl + z);
    assert(t.subrange(at, t.len() as int) =~= u + z);
    assert(t.subrange(0, x.len() as int) =~= x);
    assert(split_doc::openers(cut.ancestors, 0) =~= none);
    assert(x + nl + none =~= x + nl);
    let a_close = (x.len() + m.len() + 1) as int;
    let b_close = (x.len() + 1 + v.len()) as int;
    assert(h.0.subrange(0, a_close) =~= x + m + nl);
    assert(h.0.subrange(a_close, h.0.len() as int) =~= z);
    assert(h.1.subrange(x.len() as int, b_close) =~= nl + v);
}

// ---------------------------------------------------------------- links

/// A link that `doc` writes to `to` with the fragment leads there.
pub open spec fn leads_there(doc: Seq<char>, to: Seq<char>, frag: Seq<char>) -> bool {
    let href = split_doc::link_to(doc, to, frag);
    &&& split_doc::link_target(doc, href) == to
    &&& split_doc::bare_fragment(href) == frag
    &&& !text::spec_contains(href, "://"@)
    &&& !text::spec_starts(href, "mailto:"@)
}

/// A link that followed an id into the second half is led back when the halves are
/// put together: it is the link to the first document with the same fragment, which it
/// was, if it was written that way.
pub proof fn a_link_that_followed_is_led_back(
    doc: Seq<char>,
    path: Seq<char>,
    next: Seq<char>,
    out: Move,
    back: Move,
    name: Seq<char>,
    value: Seq<char>,
)
    requires
        path != next,
        out.to == next,
        out.ids is Some,
        back.from.contains(next),
        back.ids is None,
        back.to == path,
        split_doc::moved_link(doc, out, name, value) is Some,
        leads_there(doc, next, split_doc::bare_fragment(value)),
        leads_there(doc, path, split_doc::bare_fragment(value)),
    ensures
        ({
            let moved = split_doc::moved_link(doc, out, name, value)->0;
            &&& split_doc::link_target(doc, moved) == next
            &&& split_doc::moved_link(doc, back, name, moved) matches Some(w) && w == split_doc::link_to(
                doc,
                path,
                split_doc::bare_fragment(value),
            ) && split_doc::link_target(doc, w) == path && split_doc::bare_fragment(w)
                == split_doc::bare_fragment(value)
        }),
{
    reveal_strlit("#");
}

} // verus!
