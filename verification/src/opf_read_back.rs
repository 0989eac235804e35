//! What is set in a plainly written package document is what is read from it.
use vstd::prelude::*;

use crate::plain_opf::{field_close, field_open, is_between, is_plain_opf, opens_field};
use crate::tidy::{from, is_tidy, lead, local, piece, tail, told};
use crate::{escaping, markup, metadata_edit, opf, plain_opf, text, tidy};

verus! {

// ---------------------------------------------------------------- finding a field

/// The start tag of the field stands at `y`.
pub open spec fn opens_at(t: Seq<char>, n: Seq<char>, y: int) -> bool {
    let open = field_open(n);
    text::is_at(t, open, y) && y + open.len() < t.len() && metadata_edit::tag_edge(
        t,
        y + open.len(),
    )
}

pub proof fn lemma_local(n: Seq<char>)
    requires
        tidy::is_field(n),
    ensures
        opf::spec_local("dc:"@ + n) == n,
{
    plain_opf::lemma_end_tag(n);
    reveal_strlit("dc:");
    let s = "dc:"@ + n;
    lemma_rfind_colon(s, s.len() as int);
    assert(s.subrange(3, s.len() as int) =~= n);
}

proof fn lemma_rfind_colon(s: Seq<char>, i: int)
    requires
        3 <= i <= s.len(),
        s[2] == ':',
        forall|k: int| 3 <= k < s.len() ==> #[trigger] s[k] != ':',
    ensures
        text::spec_rfind_char(s, ':', i) == Some(2int),
    decreases i,
{
    if i > 3 {
        assert(s[i - 1] != ':');
        lemma_rfind_colon(s, i - 1);
    }
}

/// The piece that a start tag of a field is, by its name.
pub proof fn lemma_field_name(c: Seq<char>, n: Seq<char>)
    requires
        tidy::is_piece(c),
        tidy::is_field(n),
        text::is_at(c, field_open(n), 0),
        field_open(n).len() < c.len(),
        !markup::name_char(c[field_open(n).len() as int]),
    ensures
        opens_field(c),
        local(c) == n,
{
    let open = field_open(n);
    plain_opf::lemma_end_tag(n);
    tidy::lemma_ends(c);
    reveal_strlit("<dc:");
    reveal_strlit("dc:");
    let k = open.len() as int;
    assert forall|i: int| 0 <= i < k implies c[i] == #[trigger] open[i] by {
        assert(c.subrange(0, k)[i] == open[i]);
    }
    assert(c[1] == open[1]);
    assert forall|i: int| 1 <= i < k implies markup::name_char(#[trigger] c[i]) by {
        assert(c[i] == open[i]);
    }
    crate::reading::lemma_name_end_is(c, 1, k);
    let name = c.subrange(1, k);
    assert(name =~= "dc:"@ + n) by {
        assert forall|i: int| 0 <= i < name.len() implies name[i] == #[trigger] ("dc:"@ + n)[i] by {
            assert(name[i] == open[i + 1]);
        }
    }
    assert(text::spec_lower(name) =~= name) by {
        assert forall|i: int| 0 <= i < name.len() implies text::lower(#[trigger] name[i])
            == name[i] by {
            assert(name[i] == open[i + 1]);
        }
    }
    lemma_local(n);
}

/// The piece that a start tag of a field is.
proof fn lemma_field_piece(c: Seq<char>, n: Seq<char>)
    requires
        tidy::is_piece(c),
        tidy::is_field(n),
        text::is_at(c, field_open(n), 0),
        metadata_edit::tag_edge(c, field_open(n).len() as int),
    ensures
        opens_field(c),
        local(c) == n,
        field_open(n).len() < c.len(),
{
    let open = field_open(n);
    plain_opf::lemma_end_tag(n);
    tidy::lemma_ends(c);
    reveal_strlit("<dc:");
    let k = open.len() as int;
    assert(k < c.len()) by {
        if k >= c.len() {
            assert(c.subrange(0, k)[c.len() - 1] == open[c.len() - 1]);
        }
    }
    lemma_field_name(c, n);
}

/// The element that starts where a field is found.
pub proof fn lemma_field_at(t: Seq<char>, n: Seq<char>, x: int)
    requires
        is_plain_opf(t),
        tidy::is_field(n),
        0 <= x,
        text::is_at(t, field_open(n), x),
        metadata_edit::tag_edge(t, x + field_open(n).len()) || n == "identifier"@,
    ensures
        ({
            let s = from(t, x);
            let c = piece(s);
            let m = lead(tail(s));
            &&& is_between(t, x)
            &&& x < t.len()
            &&& is_plain_opf(t.subrange(0, x))
            &&& is_plain_opf(s)
            &&& plain_opf::unit_is_plain(s)
            &&& plain_opf::starts_element(s)
            &&& opens_field(c)
            &&& local(c) == n
            &&& s[0] == '<'
            &&& text::spec_find_char(t, '>', x) == Some(x + c.len() - 1)
            &&& t[x + c.len() - 2] != '/'
            &&& c.len() >= 3
            &&& opens_at(t, n, x)
            &&& text::spec_find(t, field_close(n), x + c.len()) == Some(
                (x + c.len() + m.len()) as int,
            )
        }),
{
    let open = field_open(n);
    plain_opf::lemma_end_tag(n);
    reveal_strlit("<dc:");
    reveal_strlit("</dc:");
    reveal_strlit("</meta>");
    assert forall|i: int| 0 <= i < open.len() implies t[x + i] == #[trigger] open[i] by {
        assert(t.subrange(x, x + open.len())[i] == open[i]);
    }
    assert(t[x + 0] == open[0] && t[x + 1] == open[1]);
    assert(t.subrange(x, x + 4) =~= open.subrange(0, 4));
    assert(open.subrange(0, 4) =~= "<dc:"@);
    plain_opf::lemma_between(t, x);
    plain_opf::lemma_plain_cut(t, x);
    let s = from(t, x);
    tidy::lemma_tidy_tail(s);
    let c = piece(s);
    tidy::lemma_ends(c);
    lemma_piece_in(t, x);
    lemma_open_in_piece(t, x, open);
    if n == "identifier"@ {
        reveal_strlit("identifier");
        reveal_strlit("<dc:identifier");
        assert(field_open(n) =~= "<dc:identifier"@);
    } else {
        let k = open.len() as int;
        assert(k < c.len());
        assert(c[k] == t[x + k]);
        lemma_field_piece(c, n);
    }
    reveal(plain_opf::is_named);
    lemma_named_edge(t, x, n);
    plain_opf::lemma_unit_element(s);
    let m = lead(tail(s));
    let e = field_close(n);
    let a = (x + c.len()) as int;
    assert(tail(s) =~= from(t, a));
    assert(from(t, a).subrange(0, (m.len() + e.len()) as int) =~= m + e);
    lemma_find_close(t, a, m, e);
}

proof fn lemma_named_edge(t: Seq<char>, x: int, n: Seq<char>)
    requires
        0 <= x,
        x < t.len(),
        tidy::is_field(n),
        tidy::is_piece(piece(from(t, x))),
        plain_opf::is_named(piece(from(t, x))),
        local(piece(from(t, x))) == n,
        text::is_at(t, piece(from(t, x)), x),
    ensures
        opens_at(t, n, x),
        t[x + piece(from(t, x)).len() - 2] != '/',
{
    reveal(plain_opf::is_named);
    let c = piece(from(t, x));
    let open = field_open(n);
    plain_opf::lemma_end_tag(n);
    tidy::lemma_ends(c);
    reveal_strlit("<dc:");
    let k = open.len() as int;
    assert(k < c.len()) by {
        if k >= c.len() {
            assert(c.subrange(0, k)[c.len() - 1] == open[c.len() - 1]);
        }
    }
    assert forall|i: int| 0 <= i < c.len() implies t[x + i] == #[trigger] c[i] by {
        assert(t.subrange(x, x + c.len())[i] == c[i]);
    }
    assert(t.subrange(x, x + k) =~= c.subrange(0, k));
    assert(t[x + k] == c[k]);
    assert(t[x + (c.len() - 2)] == c[c.len() - 2]);
}

/// A piece stands in the text that it was cut from.
pub proof fn lemma_piece_in(t: Seq<char>, x: int)
    requires
        0 <= x < t.len(),
        t[x] == '<',
        is_tidy(from(t, x)),
    ensures
        text::is_at(t, piece(from(t, x)), x),
        tidy::is_bare(piece(from(t, x))) ==> text::spec_find_char(t, '>', x) == Some(
            (x + piece(from(t, x)).len() - 1) as int,
        ),
        piece(from(t, x)).len() >= 3,
        x + piece(from(t, x)).len() <= t.len(),
        from(t, x)[0] == '<',
{
    let s = from(t, x);
    tidy::lemma_tidy_tail(s);
    tidy::lemma_tail(s);
    let c = piece(s);
    tidy::lemma_ends(c);
    assert(t.subrange(x, x + c.len()) =~= c);
    assert(s[0] == '<');
    if tidy::is_bare(c) {
        reveal(tidy::is_bare);
        assert forall|k: int| 0 <= k < c.len() implies t[x + k] == #[trigger] c[k] by {
            assert(t.subrange(x, x + c.len())[k] == c[k]);
        }
        let g = x + c.len() - 1;
        assert(t[x + (c.len() - 1)] == '>');
        assert forall|k: int| x <= k < g implies #[trigger] t[k] != '>' by {
            assert(t[x + (k - x)] == c[k - x]);
        }
        crate::read_back::lemma_find_char_is(t, '>', x, g);
    }
}

/// What stands at the start of a piece, and holds no `>`, stands in the piece.
pub proof fn lemma_open_in_piece(t: Seq<char>, x: int, p: Seq<char>)
    requires
        0 <= x < t.len(),
        t[x] == '<',
        is_tidy(from(t, x)),
        text::is_at(t, p, x),
        forall|i: int| 0 <= i < p.len() ==> #[trigger] p[i] != '>',
    ensures
        text::is_at(piece(from(t, x)), p, 0),
        p.len() < piece(from(t, x)).len(),
{
    lemma_piece_in(t, x);
    let c = piece(from(t, x));
    tidy::lemma_tidy_tail(from(t, x));
    tidy::lemma_ends(c);
    assert forall|i: int| 0 <= i < c.len() implies t[x + i] == #[trigger] c[i] by {
        assert(t.subrange(x, x + c.len())[i] == c[i]);
    }
    if p.len() >= c.len() {
        let k = c.len() - 1;
        assert(t.subrange(x, x + p.len())[k] == p[k]);
        assert(t[x + k] == c[k]);
    }
    assert(c.subrange(0, p.len() as int) =~= t.subrange(x, x + p.len()));
}

/// The end tag of an element is the first behind its text.
pub proof fn lemma_find_close(t: Seq<char>, a: int, m: Seq<char>, e: Seq<char>)
    requires
        0 <= a <= t.len(),
        !m.contains('<'),
        e.len() > 0,
        e[0] == '<',
        m.len() + e.len() <= t.len() - a,
        from(t, a).subrange(0, (m.len() + e.len()) as int) == m + e,
    ensures
        text::spec_find(t, e, a) == Some((a + m.len()) as int),
{
    let b = (a + m.len()) as int;
    let w = from(t, a).subrange(0, (m.len() + e.len()) as int);
    assert(t.subrange(b, b + e.len()) =~= w.subrange(m.len() as int, w.len() as int));
    assert((m + e).subrange(m.len() as int, w.len() as int) =~= e);
    assert forall|k: int| a <= k < b implies !#[trigger] text::is_at(t, e, k) by {
        if text::is_at(t, e, k) {
            assert(t.subrange(k, k + e.len())[0] == t[k]);
            assert(w[k - a] == t[k]);
            assert((m + e)[k - a] == m[k - a]);
            assert(m.contains(m[k - a]));
        }
    }
    metadata_edit::lemma_find_is(t, e, a, b);
}

proof fn lemma_one_told(name: Seq<char>, value: Seq<char>, n: Seq<char>)
    ensures
        tidy::first_told(seq![(name, value)], n) == if name == n {
            Some(value)
        } else {
            None
        },
        tidy::all_told(seq![(name, value)], n) == if name == n {
            seq![value]
        } else {
            Seq::empty()
        },
{
    let v = seq![(name, value)];
    let none = v.drop_first();
    assert(none.len() == 0);
    assert(tidy::first_told(none, n) is None);
    assert(tidy::all_told(none, n) =~= Seq::empty());
    assert(seq![value] + tidy::all_told(none, n) =~= seq![value]);
}

/// A plain text in which no start tag of a field stands does not tell it.
pub proof fn lemma_untold(s: Seq<char>, n: Seq<char>)
    requires
        is_plain_opf(s),
        tidy::is_field(n),
        forall|y: int| !#[trigger] opens_at(s, n, y),
    ensures
        tidy::first_told(told(s), n) is None,
        tidy::all_told(told(s), n).len() == 0,
    decreases s.len(),
{
    if s.len() > 0 {
        plain_opf::lemma_unit(s);
        let k = plain_opf::unit_len(s);
        let u = s.subrange(0, k);
        let r = from(s, k);
        let c = piece(s);
        if plain_opf::starts_element(s) && opens_field(c) && local(c) == n {
            assert(from(s, 0) =~= s);
            tidy::lemma_tidy_tail(s);
            lemma_piece_in(s, 0);
            lemma_named_edge(s, 0, n);
        }
        assert forall|y: int| !#[trigger] opens_at(r, n, y) by {
            if opens_at(r, n, y) {
                let open = field_open(n);
                assert(s.subrange(k + y, k + y + open.len()) =~= r.subrange(y, y + open.len()));
                assert(opens_at(s, n, k + y));
            }
        }
        lemma_untold(r, n);
        tidy::lemma_told_join(u, r);
        tidy::lemma_first_told_join(told(u), told(r), n);
        if told(u).len() > 0 {
            lemma_one_told(told(u)[0].0, told(u)[0].1, n);
            assert(told(u) =~= seq![(told(u)[0].0, told(u)[0].1)]);
        }
        tidy::lemma_first_all(told(s), n);
    }
}

// ---------------------------------------------------------------- setting a field

/// What is told of the names besides `n`, and all else that is read, is the
/// same of the two texts.
pub open spec fn agree_besides(t: Seq<char>, u: Seq<char>, n: Seq<char>) -> bool {
    &&& forall|o: Seq<char>|
        o != n ==> #[trigger] tidy::first_told(told(u), o) == tidy::first_told(told(t), o)
    &&& forall|o: Seq<char>|
        o != n ==> #[trigger] tidy::all_told(told(u), o) == tidy::all_told(told(t), o)
    &&& tidy::refs(u) == tidy::refs(t)
    &&& tidy::has_package(u) == tidy::has_package(t)
    &&& has_metadata_end(u) == has_metadata_end(t)
}

/// The package document has an end of its metadata.
pub open spec fn has_metadata_end(t: Seq<char>) -> bool {
    tidy::has_piece(t, "</metadata>"@)
}

/// The first start tag of a field from `f` on, as the field is sought.
proof fn lemma_content(t: Seq<char>, n: Seq<char>, f: int) -> (x: int)
    requires
        is_plain_opf(t),
        tidy::is_field(n),
        0 <= f <= t.len(),
        forall|y: int| y < f ==> !#[trigger] opens_at(t, n, y),
    ensures
        match metadata_edit::content_from(t, field_open(n), field_close(n), f) {
            Some((a, b)) => {
                let c = piece(from(t, x));
                &&& 0 <= x < t.len()
                &&& text::is_at(t, field_open(n), x)
                &&& opens_at(t, n, x)
                &&& forall|y: int| y < x ==> !#[trigger] opens_at(t, n, y)
                &&& a == x + c.len()
                &&& b == a + lead(tail(from(t, x))).len()
            },
            None => forall|y: int| !#[trigger] opens_at(t, n, y),
        },
    decreases t.len() - f,
{
    let open = field_open(n);
    plain_opf::lemma_end_tag(n);
    text::lemma_find(t, open, f);
    match text::spec_find(t, open, f) {
        None => {
            assert forall|y: int| !#[trigger] opens_at(t, n, y) by {
            }
            0
        },
        Some(x) => {
            if metadata_edit::tag_edge(t, x + open.len()) {
                lemma_field_at(t, n, x);
                assert forall|y: int| y < x implies !#[trigger] opens_at(t, n, y) by {
                }
                x
            } else {
                assert forall|y: int| y < x + open.len() implies !#[trigger] opens_at(t, n, y) by {
                    if opens_at(t, n, y) && y > x {
                        assert(t.subrange(x, x + open.len())[y - x] == open[y - x]);
                        assert(t.subrange(y, y + open.len())[0] == t[y]);
                        assert(markup::name_char(open[y - x]));
                    }
                }
                lemma_content(t, n, x + open.len())
            }
        },
    }
}

/// A part of a text that no start tag of the field stands in.
pub proof fn lemma_untold_before(t: Seq<char>, n: Seq<char>, x: int)
    requires
        is_plain_opf(t),
        tidy::is_field(n),
        is_between(t, x),
        forall|y: int| y < x ==> !#[trigger] opens_at(t, n, y),
    ensures
        tidy::first_told(told(t.subrange(0, x)), n) is None,
        tidy::all_told(told(t.subrange(0, x)), n).len() == 0,
{
    plain_opf::lemma_plain_cut(t, x);
    let a = t.subrange(0, x);
    let open = field_open(n);
    assert forall|y: int| !#[trigger] opens_at(a, n, y) by {
        if opens_at(a, n, y) {
            assert(t.subrange(y, y + open.len()) =~= a.subrange(y, y + open.len()));
            assert(opens_at(t, n, y));
        }
    }
    lemma_untold(a, n);
}

/// What a plain text tells in three parts.
pub proof fn lemma_three(x: Seq<char>, u: Seq<char>, y: Seq<char>)
    requires
        is_plain_opf(x),
        is_plain_opf(u),
        is_plain_opf(y),
    ensures
        is_plain_opf(x + u + y),
        told(x + u + y) == told(x) + told(u) + told(y),
        tidy::refs(x + u + y) == tidy::refs(x) + tidy::refs(u) + tidy::refs(y),
        tidy::has_package(x + u + y) == (tidy::has_package(x) || tidy::has_package(u)
            || tidy::has_package(y)),
        has_metadata_end(x + u + y) == (has_metadata_end(x) || has_metadata_end(u)
            || has_metadata_end(y)),
{
    plain_opf::lemma_plain_join(x, u);
    plain_opf::lemma_plain_join(x + u, y);
    tidy::lemma_has_piece_join(x, u, "</metadata>"@);
    tidy::lemma_has_piece_join(x + u, y, "</metadata>"@);
    plain_opf::lemma_plain_settled(x);
    plain_opf::lemma_plain_settled(x + u);
    tidy::lemma_told_join(x, u);
    tidy::lemma_told_join(x + u, y);
    tidy::lemma_refs_join(x, u);
    tidy::lemma_refs_join(x + u, y);
}

/// The text with a unit of the field in the place of another, or of none.
pub proof fn lemma_exchanged(
    x: Seq<char>,
    u: Seq<char>,
    w: Seq<char>,
    y: Seq<char>,
    n: Seq<char>,
)
    requires
        is_plain_opf(x),
        is_plain_opf(u),
        is_plain_opf(w),
        is_plain_opf(y),
        tidy::refs(u) == tidy::refs(w),
        tidy::has_package(u) == tidy::has_package(w),
        has_metadata_end(u) == has_metadata_end(w),
        forall|o: Seq<char>|
            o != n ==> #[trigger] tidy::first_told(told(u), o) is None && tidy::all_told(
                told(u),
                o,
            ).len() == 0,
        forall|o: Seq<char>|
            o != n ==> #[trigger] tidy::first_told(told(w), o) is None && tidy::all_told(
                told(w),
                o,
            ).len() == 0,
    ensures
        is_plain_opf(x + w + y),
        agree_besides(x + u + y, x + w + y, n),
        tidy::first_told(told(x), n) is None && tidy::first_told(told(w), n) is Some
            ==> tidy::first_told(told(x + w + y), n) == tidy::first_told(told(w), n),
{
    lemma_three(x, u, y);
    lemma_three(x, w, y);
    assert forall|o: Seq<char>| o != n implies #[trigger] tidy::first_told(
        told(x + w + y),
        o,
    ) == tidy::first_told(told(x + u + y), o) && tidy::all_told(told(x + w + y), o)
        == tidy::all_told(told(x + u + y), o) by {
        tidy::lemma_first_told_join(told(x), told(u), o);
        tidy::lemma_first_told_join(told(x) + told(u), told(y), o);
        tidy::lemma_first_told_join(told(x), told(w), o);
        tidy::lemma_first_told_join(told(x) + told(w), told(y), o);
        assert(tidy::first_told(told(u), o) is None && tidy::first_told(told(w), o) is None);
        assert(tidy::all_told(told(x), o) + tidy::all_told(told(u), o) =~= tidy::all_told(
            told(x),
            o,
        ));
        assert(tidy::all_told(told(x), o) + tidy::all_told(told(w), o) =~= tidy::all_told(
            told(x),
            o,
        ));
    }
    assert forall|o: Seq<char>| o != n implies #[trigger] tidy::all_told(told(x + w + y), o)
        == tidy::all_told(told(x + u + y), o) by {
        assert(tidy::first_told(told(x + w + y), o) == tidy::first_told(told(x + u + y), o));
    }
    tidy::lemma_first_told_join(told(x), told(w), n);
    tidy::lemma_first_told_join(told(x) + told(w), told(y), n);
}

/// Text without markup is plain, and tells nothing.
pub proof fn lemma_text_plain(s: Seq<char>)
    requires
        !s.contains('<'),
    ensures
        is_plain_opf(s),
        told(s).len() == 0,
        tidy::refs(s).len() == 0,
        !tidy::has_package(s),
        !has_metadata_end(s),
    decreases s.len(),
{
    tidy::lemma_plain(s);
    if s.len() > 0 {
        assert(s.contains(s[0]));
        let r = from(s, 1);
        assert(tail(s) =~= r);
        assert forall|x: int| 0 <= x < r.len() implies #[trigger] r[x] != '<' by {
            assert(r[x] == s[x + 1]);
            assert(s.contains(s[x + 1]));
        }
        lemma_text_plain(r);
    }
}

/// An element of a field.
pub proof fn lemma_field_element(c: Seq<char>, n: Seq<char>, esc: Seq<char>)
    requires
        tidy::is_piece(c),
        tidy::is_bare(c),
        tidy::is_field(n),
        text::is_at(c, field_open(n), 0),
        metadata_edit::tag_edge(c, field_open(n).len() as int),
        c[c.len() - 2] != '/',
        !esc.contains('<'),
    ensures
        ({
            let u = c + esc + field_close(n);
            &&& is_plain_opf(u)
            &&& told(u) == seq![(n, text::spec_trim(markup::spec_unescape(esc)))]
            &&& tidy::refs(u).len() == 0
            &&& !tidy::has_package(u)
            &&& !has_metadata_end(u)
        }),
{
    let e = field_close(n);
    let u = c + esc + e;
    lemma_field_piece(c, n);
    plain_opf::lemma_end_tag(n);
    tidy::lemma_ends(c);
    plain_opf::lemma_element(c, esc, e);
    plain_opf::lemma_element_before(c, esc, e, Seq::empty());
    assert(u + Seq::<char>::empty() =~= u);
    assert(esc + e + Seq::<char>::empty() =~= esc + e);
    assert(plain_opf::is_named(c)) by {
        reveal(plain_opf::is_named);
    }
    if text::is_at(c, "<dc:identifier"@, 0) {
        lemma_identifier(c, n);
    }
    assert(plain_opf::unit_is_plain(u));
    plain_opf::lemma_nothing();
    assert(from(u, plain_opf::unit_len(u)) =~= Seq::<char>::empty());
    assert(plain_opf::is_plain(u));
    lemma_no_ref(c, n);
    lemma_no_end(c, n);
    tidy::lemma_tidy_tail(u);
    lemma_text_plain(esc);
    plain_opf::lemma_one_piece(e, Seq::empty());
    assert(e + Seq::<char>::empty() =~= e);
    assert(!has_metadata_end(tail(e)));
    assert(!has_metadata_end(e));
    tidy::lemma_has_piece_join(esc, e, "</metadata>"@);
}

/// A start tag of a field is taken for that of an identifier only where it is.
proof fn lemma_identifier(c: Seq<char>, n: Seq<char>)
    requires
        tidy::is_field(n),
        text::is_at(c, field_open(n), 0),
        text::is_at(c, "<dc:identifier"@, 0),
    ensures
        n == "identifier"@,
{
    reveal(tidy::is_field);
    reveal_strlit("<dc:");
    reveal_strlit("<dc:identifier");
    reveal_strlit("title");
    reveal_strlit("language");
    reveal_strlit("creator");
    reveal_strlit("publisher");
    reveal_strlit("date");
    reveal_strlit("identifier");
    let o = field_open(n);
    assert(c.subrange(0, o.len() as int)[4] == o[4]);
    assert(c.subrange(0, 14)[4] == 'i');
    assert(o[4] == n[0]);
}

/// A field is no reference and no package.
proof fn lemma_no_ref(c: Seq<char>, n: Seq<char>)
    requires
        tidy::is_piece(c),
        tidy::is_field(n),
        local(c) == n,
    ensures
        tidy::refs(c).len() == 0,
        !tidy::has_package(c),
{
    tidy::lemma_names_differ();
    reveal(tidy::is_field);
    plain_opf::lemma_one_piece(c, Seq::empty());
    let none = tail(c);
    assert(tidy::refs(none).len() == 0 && !tidy::has_package(none));
}

/// A field's tags do not end the metadata.
proof fn lemma_no_end(c: Seq<char>, n: Seq<char>)
    requires
        tidy::is_field(n),
        text::is_at(c, field_open(n), 0),
    ensures
        c != "</metadata>"@,
        field_close(n) != "</metadata>"@,
{
    plain_opf::lemma_end_tag(n);
    reveal_strlit("</metadata>");
    reveal_strlit("<dc:");
    reveal_strlit("</dc:");
    let o = field_open(n);
    assert(c.subrange(0, o.len() as int)[1] == o[1]);
    assert(field_close(n)[2] == 'd');
    assert("</metadata>"@[1] == '/' && "</metadata>"@[2] == 'm');
}

/// What an insertion at the end of the metadata comes to.
#[verifier::rlimit(40)]
pub proof fn lemma_inserted(t: Seq<char>, w: Seq<char>, n: Seq<char>)
    requires
        is_plain_opf(t),
        has_metadata_end(t),
        is_plain_opf(w),
        tidy::refs(w).len() == 0,
        !tidy::has_package(w),
        !has_metadata_end(w),
        forall|o: Seq<char>|
            o != n ==> #[trigger] tidy::first_told(told(w), o) is None && tidy::all_told(
                told(w),
                o,
            ).len() == 0,
    ensures
        ({
            let new = metadata_edit::injected(t, w);
            &&& is_plain_opf(new)
            &&& agree_besides(t, new, n)
            &&& has_metadata_end(new)
            &&& tidy::first_told(told(t), n) is None && tidy::first_told(told(w), n) is Some
                ==> tidy::first_told(told(new), n) == tidy::first_told(told(w), n)
            &&& tidy::all_told(told(t), n).len() == 0 ==> tidy::all_told(told(new), n)
                == tidy::all_told(told(w), n)
        }),
{
    let q = "</metadata>"@;
    let j = tidy::lemma_has_piece(t, q);
    metadata_edit::lemma_rfind_is(t, q, j);
    let k = text::spec_rfind(t, q, t.len() as int)->0;
    metadata_edit::lemma_rfind(t, q, t.len() as int);
    reveal_strlit("</metadata>");
    reveal_strlit("</dc:");
    reveal_strlit("</meta>");
    assert forall|i: int| 0 <= i < 11 implies t[k + i] == #[trigger] q[i] by {
        assert(t.subrange(k, k + 11)[i] == q[i]);
    }
    assert(t[k + 0] == q[0] && t[k + 2] == q[2] && t[k + 6] == q[6]);
    plain_opf::lemma_between(t, k);
    plain_opf::lemma_plain_cut(t, k);
    let a = t.subrange(0, k);
    let y = from(t, k);
    let pad = "  "@;
    let nl = "\n"@;
    reveal_strlit("  ");
    reveal_strlit("\n");
    assert(!pad.contains('<'));
    assert(!nl.contains('<'));
    lemma_text_plain(pad);
    lemma_text_plain(nl);
    lemma_three(pad, w, nl);
    let u = pad + w + nl;
    let none = Seq::<char>::empty();
    plain_opf::lemma_nothing();
    lemma_text_plain(none);
    assert(told(pad) + told(w) + told(nl) =~= told(w));
    assert(tidy::refs(u) =~= tidy::refs(none));
    lemma_exchanged(a, none, u, y, n);
    assert(a + none + y =~= t);
    assert(metadata_edit::injected(t, w) =~= a + u + y);
    lemma_three(a, u, y);
    lemma_three(a, none, y);
    tidy::lemma_first_told_join(told(a), told(u), n);
    tidy::lemma_first_told_join(told(a) + told(u), told(y), n);
    tidy::lemma_first_told_join(told(a), told(none), n);
    tidy::lemma_first_told_join(told(a) + told(none), told(y), n);
    if tidy::all_told(told(t), n).len() == 0 {
        assert(tidy::all_told(told(a), n) =~= Seq::empty());
        assert(tidy::all_told(told(y), n) =~= Seq::empty());
        assert(tidy::all_told(told(a + u + y), n) =~= tidy::all_told(told(u), n));
    }
}

/// What is told of one field is told of no other.
pub proof fn lemma_only(w: Seq<char>, n: Seq<char>, value: Seq<char>)
    requires
        told(w) == seq![(n, value)],
    ensures
        forall|o: Seq<char>|
            o != n ==> #[trigger] tidy::first_told(told(w), o) is None && tidy::all_told(
                told(w),
                o,
            ).len() == 0,
        tidy::first_told(told(w), n) == Some(value),
        tidy::all_told(told(w), n) == seq![value],
{
    assert forall|o: Seq<char>| o != n implies #[trigger] tidy::first_told(told(w), o) is None
        && tidy::all_told(told(w), o).len() == 0 by {
        lemma_one_told(n, value, o);
    }
    lemma_one_told(n, value, n);
}

/// The new start tag of a field.
proof fn lemma_new_tag(n: Seq<char>)
    requires
        tidy::is_field(n),
    ensures
        ({
            let c = field_open(n) + seq!['>'];
            &&& tidy::is_piece(c)
            &&& tidy::is_bare(c)
            &&& text::is_at(c, field_open(n), 0)
            &&& metadata_edit::tag_edge(c, field_open(n).len() as int)
            &&& c[c.len() - 2] != '/'
        }),
{
    plain_opf::lemma_end_tag(n);
    reveal(tidy::is_piece);
    reveal(tidy::is_bare);
    reveal_strlit("<dc:");
    let o = field_open(n);
    let c = o + seq!['>'];
    assert(c.subrange(0, o.len() as int) =~= o);
    assert forall|k: int| 1 <= k < c.len() - 1 implies markup::name_char(#[trigger] c[k]) by {
        assert(c[k] == o[k]);
    }
    crate::reading::lemma_name_end_is(c, 1, c.len() - 1);
    assert(markup::tag_close(c, c.len() - 1, None) == Some(c.len() - 1));
    assert(markup::name_char(c[c.len() - 2]));
}

/// Three parts that stand one behind the other from `x` on.
proof fn lemma_parts(t: Seq<char>, x: int, c: Seq<char>, m: Seq<char>, e: Seq<char>)
    requires
        0 <= x,
        x + c.len() + m.len() + e.len() <= t.len(),
        t.subrange(x, (x + c.len() + m.len() + e.len()) as int) == c + m + e,
    ensures
        ({
            let pre = t.subrange(0, x);
            let y = from(t, (x + c.len() + m.len() + e.len()) as int);
            &&& t == pre + (c + m + e) + y
            &&& t.subrange(0, (x + c.len()) as int) == pre + c
            &&& from(t, (x + c.len() + m.len()) as int) == e + y
        }),
{
    let pre = t.subrange(0, x);
    let k = (x + c.len() + m.len() + e.len()) as int;
    let y = from(t, k);
    let u = c + m + e;
    assert forall|i: int| 0 <= i < u.len() implies t[x + i] == #[trigger] u[i] by {
        assert(t.subrange(x, k)[i] == u[i]);
    }
    assert(t =~= pre + u + y);
    assert(t.subrange(0, (x + c.len()) as int) =~= pre + c) by {
        assert forall|i: int| 0 <= i < c.len() implies t[x + i] == #[trigger] c[i] by {
            assert(t[x + i] == u[i]);
        }
    }
    let b = (x + c.len() + m.len()) as int;
    assert(from(t, b) =~= e + y) by {
        assert forall|i: int| 0 <= i < e.len() implies t[b + i] == #[trigger] e[i] by {
            assert(t[x + (c.len() + m.len() + i)] == u[c.len() + m.len() + i]);
        }
    }
}

/// The start tag of a field's element, as it stands in the text.
proof fn lemma_field_tag(t: Seq<char>, n: Seq<char>, x: int)
    requires
        is_plain_opf(t),
        tidy::is_field(n),
        0 <= x < t.len(),
        t[x] == '<',
        is_tidy(from(t, x)),
        opens_at(t, n, x),
        t[x + piece(from(t, x)).len() - 2] != '/',
    ensures
        ({
            let c = piece(from(t, x));
            &&& tidy::is_piece(c)
            &&& c.len() >= 3
            &&& text::is_at(c, field_open(n), 0)
            &&& metadata_edit::tag_edge(c, field_open(n).len() as int)
            &&& c[c.len() - 2] != '/'
        }),
{
    let open = field_open(n);
    let c = piece(from(t, x));
    lemma_piece_in(t, x);
    tidy::lemma_tidy_tail(from(t, x));
    plain_opf::lemma_end_tag(n);
    reveal_strlit("<dc:");
    lemma_open_in_piece(t, x, open);
    let i = open.len() as int;
    assert(c[i] == t[x + i]) by {
        assert(t.subrange(x, x + c.len())[i] == t[x + i]);
    }
    let j = c.len() - 2;
    assert(c[j] == t[x + j]) by {
        assert(t.subrange(x, x + c.len())[j] == t[x + j]);
    }
}

/// The element that starts at `x`, and what stands around it.
pub proof fn lemma_field_unit(t: Seq<char>, n: Seq<char>, x: int)
    requires
        is_plain_opf(t),
        tidy::is_field(n),
        0 <= x,
        text::is_at(t, field_open(n), x),
        metadata_edit::tag_edge(t, x + field_open(n).len()) || n == "identifier"@,
    ensures
        ({
            let s = from(t, x);
            let c = piece(s);
            let m = lead(tail(s));
            let e = field_close(n);
            let pre = t.subrange(0, x);
            let y = from(t, (x + c.len() + m.len() + e.len()) as int);
            &&& x + c.len() + m.len() + e.len() <= t.len()
            &&& is_plain_opf(pre)
            &&& is_plain_opf(y)
            &&& t == pre + (c + m + e) + y
            &&& tidy::is_piece(c)
            &&& tidy::is_bare(c)
            &&& c.len() >= 3
            &&& text::is_at(c, field_open(n), 0)
            &&& metadata_edit::tag_edge(c, field_open(n).len() as int)
            &&& c[c.len() - 2] != '/'
            &&& !m.contains('<')
            &&& t.subrange(0, (x + c.len()) as int) == pre + c
            &&& from(t, (x + c.len() + m.len()) as int) == e + y
        }),
{
    let e = field_close(n);
    lemma_field_at(t, n, x);
    let s = from(t, x);
    let c = piece(s);
    let m = lead(tail(s));
    plain_opf::lemma_unit_element(s);
    let k = plain_opf::unit_len(s);
    assert(s[0] == t[x]);
    lemma_field_tag(t, n, x);
    let y = from(s, k);
    assert(is_plain_opf(y)) by {
        plain_opf::lemma_unit(s);
        assert(is_between(y, 0));
        assert(is_between(s, k));
        plain_opf::lemma_plain_cut(s, k);
    }
    assert(y =~= from(t, x + k));
    assert(t.subrange(x, x + k) =~= s.subrange(0, k));
    lemma_parts(t, x, c, m, e);
}

/// The text of a field's element is exchanged.
pub proof fn lemma_set_at(t: Seq<char>, n: Seq<char>, x: int, value: Seq<char>)
    requires
        is_plain_opf(t),
        tidy::is_field(n),
        0 <= x,
        text::is_at(t, field_open(n), x),
        metadata_edit::tag_edge(t, x + field_open(n).len()) || n == "identifier"@,
    ensures
        ({
            let c = piece(from(t, x));
            let m = lead(tail(from(t, x)));
            let a = (x + c.len()) as int;
            let new = t.subrange(0, a) + markup::spec_escape_text(value) + from(
                t,
                (a + m.len()) as int,
            );
            &&& is_plain_opf(new)
            &&& agree_besides(t, new, n)
            &&& tidy::first_told(told(t.subrange(0, x)), n) is None ==> tidy::first_told(
                told(new),
                n,
            ) == Some(text::spec_trim(value))
        }),
{
    let esc = markup::spec_escape_text(value);
    escaping::unescaping_undoes_escaping(value);
    escaping::escaping_leaves_no_markup(value);
    lemma_field_unit(t, n, x);
    let c = piece(from(t, x));
    let m = lead(tail(from(t, x)));
    let e = field_close(n);
    let pre = t.subrange(0, x);
    let y = from(t, (x + c.len() + m.len() + e.len()) as int);
    let u = c + m + e;
    let w = c + esc + e;
    lemma_field_element(c, n, m);
    lemma_field_element(c, n, esc);
    lemma_only(u, n, text::spec_trim(markup::spec_unescape(m)));
    lemma_only(w, n, text::spec_trim(value));
    assert(tidy::refs(u) =~= tidy::refs(w));
    lemma_exchanged(pre, u, w, y, n);
    let a = (x + c.len()) as int;
    let new = t.subrange(0, a) + esc + from(t, (a + m.len()) as int);
    assert(new =~= pre + w + y);
}

/// An element of a field is added at the end of the metadata.
pub proof fn lemma_add_field(t: Seq<char>, n: Seq<char>, c: Seq<char>, value: Seq<char>)
    requires
        is_plain_opf(t),
        has_metadata_end(t),
        tidy::is_field(n),
        tidy::is_piece(c),
        tidy::is_bare(c),
        text::is_at(c, field_open(n), 0),
        metadata_edit::tag_edge(c, field_open(n).len() as int),
        c[c.len() - 2] != '/',
    ensures
        ({
            let new = metadata_edit::injected(
                t,
                c + markup::spec_escape_text(value) + field_close(n),
            );
            &&& is_plain_opf(new)
            &&& has_metadata_end(new)
            &&& agree_besides(t, new, n)
            &&& tidy::first_told(told(t), n) is None ==> tidy::first_told(told(new), n) == Some(
                text::spec_trim(value),
            )
        }),
{
    let esc = markup::spec_escape_text(value);
    escaping::unescaping_undoes_escaping(value);
    escaping::escaping_leaves_no_markup(value);
    let w = c + esc + field_close(n);
    lemma_field_element(c, n, esc);
    lemma_only(w, n, text::spec_trim(value));
    lemma_inserted(t, w, n);
}

/// A field that is set in a plain package document is read from it, and nothing
/// else that is read changes.
pub proof fn lemma_set_single(t: Seq<char>, n: Seq<char>, value: Seq<char>)
    requires
        is_plain_opf(t),
        has_metadata_end(t),
        tidy::is_field(n),
    ensures
        ({
            let new = metadata_edit::spec_set_single(t, n, value);
            &&& is_plain_opf(new)
            &&& has_metadata_end(new)
            &&& agree_besides(t, new, n)
            &&& tidy::first_told(told(new), n) == Some(text::spec_trim(value))
        }),
{
    let x = lemma_content(t, n, 0);
    match metadata_edit::dc_content(t, n) {
        Some((a, b)) => {
            lemma_field_at(t, n, x);
            lemma_set_at(t, n, x, value);
            lemma_untold_before(t, n, x);
        },
        None => {
            lemma_untold(t, n);
            lemma_new_tag(n);
            let c = field_open(n) + seq!['>'];
            let esc = markup::spec_escape_text(value);
            lemma_add_field(t, n, c, value);
            reveal_strlit(">");
            assert(">"@ =~= seq!['>']);
            assert("<dc:"@ + n + ">"@ + esc + "</dc:"@ + n + ">"@ =~= c + esc + field_close(n));
        },
    }
}

} // verus!
