//! Package documents that are written tag by tag, and what a reader makes of each tag.
use vstd::prelude::*;

use crate::opf::Opf;
use crate::reading::{are_attrs, attr_text, attr_texts, attrs_read, is_plain_name};
use crate::tidy::{behind, is_tidy, read, tail};
use crate::{markup, opf, plain_opf, reading, spine_read, text, tidy};

verus! {

/// Reading the text leads from the one state to the other, whatever follows.
pub open spec fn is_read(x: Seq<char>, p: Opf, q: Opf) -> bool {
    is_tidy(x) && tidy::is_settled(x) && read(x, p) == q
}

pub proof fn lemma_join(x: Seq<char>, y: Seq<char>, p: Opf, q: Opf, r: Opf)
    requires
        is_read(x, p, q),
        is_read(y, q, r),
    ensures
        is_read(x + y, p, r),
{
    tidy::lemma_tidy_join(x, y);
    tidy::lemma_told_join(x, y);
    spine_read::lemma_read_join(x, y, p);
}

/// Text between tags is read as nothing.
pub proof fn lemma_text(w: Seq<char>, p: Opf)
    requires
        !w.contains('<'),
    ensures
        is_read(w, p, p),
    decreases w.len(),
{
    tidy::lemma_plain(w);
    if w.len() > 0 {
        assert(w.contains(w[0]));
        let r = w.subrange(1, w.len() as int);
        assert(tail(w) =~= r);
        assert(!r.contains('<')) by {
            if r.contains('<') {
                let k = choose|k: int| 0 <= k < r.len() && r[k] == '<';
                assert(w[k + 1] == '<');
            }
        }
        lemma_text(r, p);
    }
}

pub proof fn lemma_line_end(x: Seq<char>, p: Opf, q: Opf)
    requires
        is_read(x, p, q),
    ensures
        is_read(x + seq!['\n'], p, q),
{
    lemma_text(seq!['\n'], q);
    lemma_join(x, seq!['\n'], p, q, q);
}

// ---------------------------------------------------------------- tags

/// A start tag.
pub open spec fn start_tag(name: Seq<char>, v: Seq<(Seq<char>, Seq<char>)>, alone: bool) -> Seq<char> {
    seq!['<'] + name + attr_texts(v) + tag_shut(alone)
}

pub open spec fn tag_shut(alone: bool) -> Seq<char> {
    if alone {
        seq!['/', '>']
    } else {
        seq!['>']
    }
}

pub open spec fn end_tag(name: Seq<char>) -> Seq<char> {
    seq!['<', '/'] + name + seq!['>']
}

proof fn lemma_close_attrs(c: Seq<char>, i: int, v: Seq<(Seq<char>, Seq<char>)>)
    requires
        0 <= i,
        are_attrs(v),
        text::is_at(c, attr_texts(v), i),
    ensures
        markup::tag_close(c, i, None) == markup::tag_close(c, i + attr_texts(v).len(), None),
        v.len() > 0 ==> c[i] == ' ',
    decreases v.len(),
{
    if v.len() > 0 {
        let h = attr_text(v[0].0, v[0].1);
        let w = v.drop_first();
        let r = attr_texts(w);
        let n = h.len() as int;
        let all = attr_texts(v);
        assert(are_attrs(w)) by {
            assert forall|k: int| 0 <= k < w.len() implies reading::is_raw_name((#[trigger] w[k]).0)
                && !w[k].1.contains('"') by {
                assert(w[k] == v[k + 1]);
            }
        }
        assert(reading::is_raw_name(v[0].0) && !v[0].1.contains('"'));
        let s = c.subrange(i, i + all.len());
        assert(all == h + r);
        assert(c.subrange(i, i + n) =~= s.subrange(0, n));
        assert((h + r).subrange(0, n) =~= h);
        assert(c.subrange(i + n, i + n + r.len()) =~= s.subrange(n, n + r.len()));
        assert((h + r).subrange(n, n + r.len()) =~= r);
        reading::lemma_close_attr(c, i, v[0].0, v[0].1);
        lemma_close_attrs(c, i + n, w);
    }
}

/// A written start tag is a piece, by its name.
pub proof fn lemma_start(name: Seq<char>, v: Seq<(Seq<char>, Seq<char>)>, alone: bool)
    requires
        is_plain_name(name),
        are_attrs(v),
    ensures
        ({
            let c = start_tag(name, v, alone);
            &&& tidy::is_piece(c)
            &&& tidy::is_start(c)
            &&& tidy::piece_name(c) == name
        }),
{
    let c = start_tag(name, v, alone);
    let n = name.len() as int;
    let a = attr_texts(v);
    assert(markup::name_char(name[0]));
    assert(c[0] == '<' && c[1] == name[0]);
    assert forall|k: int| 1 <= k < 1 + n implies markup::name_char(#[trigger] c[k]) by {
        assert(c[k] == name[k - 1]);
    }
    let b = 1 + n;
    let e = (b + a.len()) as int;
    assert(c.subrange(b, e) =~= a);
    lemma_close_attrs(c, b, v);
    if v.len() == 0 {
        assert(a.len() == 0);
    }
    assert(c[e] == if alone { '/' } else { '>' });
    if alone {
        assert(c[e + 1] == '>');
    }
    assert(!markup::name_char(c[b]));
    reading::lemma_name_end_is(c, 1, b);
    reveal_with_fuel(markup::tag_close, 3);
    assert(markup::tag_close(c, b, None) == Some(c.len() - 1));
    reveal(tidy::is_piece);
    assert(c.subrange(1, b) =~= name);
    assert(text::spec_lower(name) =~= name) by {
        assert forall|k: int| 0 <= k < n implies text::lower(#[trigger] name[k]) == name[k] by {
            assert(markup::name_char(name[k]) && text::lower(name[k]) == name[k]);
        }
    }
}

/// The attributes of a written start tag are read back.
pub proof fn lemma_attrs(name: Seq<char>, v: Seq<(Seq<char>, Seq<char>)>, alone: bool)
    requires
        is_plain_name(name),
        are_attrs(v),
        v.len() > 0,
    ensures
        markup::spec_attributes(start_tag(name, v, alone)) == attrs_read(v),
{
    assert(reading::is_raw_name(name)) by {
        assert forall|k: int| 0 <= k < name.len() implies markup::name_char(#[trigger] name[k]) by {}
    }
    if alone {
        assert(start_tag(name, v, true) =~= reading::empty_tag(name, v));
        reading::lemma_empty_tag(name, v);
    } else {
        let tag = start_tag(name, v, false);
        let inner = name + attr_texts(v);
        reading::lemma_attr_edges(v);
        assert(markup::name_char(name[0]));
        assert(inner[0] == name[0]);
        assert(inner.last() == attr_texts(v).last());
        reveal_with_fuel(text::skip_char, 3);
        reveal_with_fuel(text::back_char, 3);
        assert(tag[0] == '<' && tag[1] == inner[0]);
        let a = text::spec_trim_start_char(tag, '<');
        assert(a =~= inner + seq!['>']);
        assert(a[0] == inner[0]);
        assert(text::spec_trim_start_char(a, '/') =~= a);
        let n = a.len() as int;
        assert(a[n - 1] == '>' && a[n - 2] == inner.last());
        let b = text::spec_trim_end_char(a, '>');
        assert(b =~= inner);
        assert(text::spec_trim_end_char(b, '/') =~= inner);
        assert(markup::tag_inside(tag) == inner);
        assert forall|k: int| 0 <= k < name.len() implies !text::is_ascii_white(#[trigger] inner[k]) by {
            assert(inner[k] == name[k]);
            assert(markup::name_char(name[k]));
        }
        assert(inner[name.len() as int] == attr_texts(v)[0]);
        reading::lemma_stop(inner, false, 0, name.len() as int);
        assert(inner.subrange(name.len() as int, inner.len() as int) =~= attr_texts(v));
        reading::lemma_attributes(v);
    }
}

/// A start tag of an element that is not read for its text.
pub proof fn lemma_tag(name: Seq<char>, v: Seq<(Seq<char>, Seq<char>)>, alone: bool, p: Opf)
    requires
        is_plain_name(name),
        are_attrs(v),
        !tidy::is_field(opf::spec_local(name)),
    ensures
        is_read(
            start_tag(name, v, alone),
            p,
            opf::tag_met(p, name, start_tag(name, v, alone), Seq::empty()),
        ),
{
    let c = start_tag(name, v, alone);
    lemma_start(name, v, alone);
    plain_opf::lemma_one_piece(c, Seq::empty());
    tidy::lemma_ends(c);
    let none = tail(c);
    assert(c + Seq::<char>::empty() =~= c);
    let q = opf::tag_met(p, name, c, behind(none));
    assert(read(none, q) == q);
    assert(tidy::is_settled(none));
    reveal(tidy::is_field);
}

pub proof fn lemma_end(name: Seq<char>)
    requires
        is_plain_name(name),
    ensures
        tidy::is_piece(end_tag(name)),
        end_tag(name)[1] == '/',
{
    let c = end_tag(name);
    let n = name.len() as int;
    assert forall|k: int| 2 <= k < 2 + n implies markup::name_char(#[trigger] c[k]) by {
        assert(c[k] == name[k - 2]);
        assert(markup::name_char(name[k - 2]));
    }
    assert(c[2 + n] == '>');
    reading::lemma_name_end_is(c, 2, 2 + n);
    assert(markup::tag_close(c, 2 + n, None) == Some(2 + n));
    reveal(tidy::is_piece);
}

/// An end tag changes nothing.
pub proof fn lemma_end_read(name: Seq<char>, p: Opf)
    requires
        is_plain_name(name),
    ensures
        is_read(end_tag(name), p, p),
{
    let e = end_tag(name);
    lemma_end(name);
    plain_opf::lemma_end_piece(e, Seq::empty());
    plain_opf::lemma_one_piece(e, Seq::empty());
    assert(e + Seq::<char>::empty() =~= e);
    assert(read(tail(e), p) == p);
}

/// An element that holds text alone.
pub open spec fn element(name: Seq<char>, v: Seq<(Seq<char>, Seq<char>)>, m: Seq<char>) -> Seq<char> {
    start_tag(name, v, false) + m + end_tag(name)
}

pub proof fn lemma_element(name: Seq<char>, v: Seq<(Seq<char>, Seq<char>)>, m: Seq<char>, p: Opf)
    requires
        is_plain_name(name),
        are_attrs(v),
        !m.contains('<'),
    ensures
        is_read(
            element(name, v, m),
            p,
            opf::tag_met(
                p,
                name,
                start_tag(name, v, false),
                text::spec_trim(markup::spec_unescape(m)),
            ),
        ),
{
    let c = start_tag(name, v, false);
    let e = end_tag(name);
    let w = element(name, v, m);
    lemma_start(name, v, false);
    lemma_end(name);
    plain_opf::lemma_element(c, m, e);
    let q = opf::tag_met(p, name, c, text::spec_trim(markup::spec_unescape(m)));
    lemma_text(m, q);
    lemma_end_read(name, q);
    lemma_join(m, e, q, q, q);
    tidy::lemma_ends(c);
    assert(w[1] == c[1]);
    assert(tidy::is_start(w));
}

/// An aside changes nothing.
pub proof fn lemma_aside(c: Seq<char>, p: Opf)
    requires
        tidy::is_piece(c),
        tidy::is_aside(c),
    ensures
        is_read(c, p, p),
{
    plain_opf::lemma_one_piece(c, Seq::empty());
    tidy::lemma_ends(c);
    assert(c + Seq::<char>::empty() =~= c);
    assert(read(tail(c), p) == p);
    assert(tidy::is_settled(tail(c)));
}

} // verus!
