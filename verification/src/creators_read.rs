//! The authors and the ASIN that are set in a plainly written package document
//! are what is read from it.
use vstd::prelude::*;

use crate::opf_read_back::{agree_besides, has_metadata_end};
use crate::plain_opf::{field_close, field_open, is_between, is_plain_opf, opens_field};
use crate::tidy::{from, lead, local, piece, tail, told};
use crate::{escaping, markup, metadata_edit, opf_read_back, plain_opf, reading, text, tidy};

verus! {

// ---------------------------------------------------------------- the ASIN

proof fn lemma_identifier_tags()
    ensures
        field_open("identifier"@) == "<dc:identifier"@,
        field_close("identifier"@) == "</dc:identifier>"@,
        tidy::is_field("identifier"@),
        field_open("creator"@) == "<dc:creator"@,
        field_close("creator"@) == "</dc:creator>"@,
        tidy::is_field("creator"@),
        "<dc:creator"@.len() == 11,
        "</dc:creator>"@.len() == 13,
{
    reveal(tidy::is_field);
    reveal_strlit("identifier");
    reveal_strlit("creator");
    reveal_strlit("<dc:");
    reveal_strlit("</dc:");
    reveal_strlit(">");
    reveal_strlit("<dc:identifier");
    reveal_strlit("</dc:identifier>");
    reveal_strlit("<dc:creator");
    reveal_strlit("</dc:creator>");
    assert(field_open("identifier"@) =~= "<dc:identifier"@);
    assert(field_close("identifier"@) =~= "</dc:identifier>"@);
    assert(field_open("creator"@) =~= "<dc:creator"@);
    assert(field_close("creator"@) =~= "</dc:creator>"@);
}

/// Where the ASIN stands in a plain package document.
proof fn lemma_asin(t: Seq<char>, f: int) -> (x: int)
    requires
        is_plain_opf(t),
        0 <= f <= t.len(),
    ensures
        metadata_edit::asin_from(t, f) matches Some((a, b)) ==> {
            &&& 0 <= x
            &&& text::is_at(t, "<dc:identifier"@, x)
            &&& a == x + piece(from(t, x)).len()
            &&& b == a + lead(tail(from(t, x))).len()
        },
    decreases t.len() - f,
{
    lemma_identifier_tags();
    let n = "identifier"@;
    text::lemma_find(t, "<dc:identifier"@, f);
    match text::spec_find(t, "<dc:identifier"@, f) {
        None => 0,
        Some(x) => {
            opf_read_back::lemma_field_at(t, n, x);
            let c = piece(from(t, x));
            let g = x + c.len() - 1;
            text::lemma_find_char(t, '>', x);
            let e = text::spec_find(t, "</dc:identifier>"@, g + 1);
            if metadata_edit::is_asin(t.subrange(x, g)) && !metadata_edit::closes_itself(t, g) && e is Some {
                x
            } else {
                lemma_asin(t, g + 1)
            }
        },
    }
}

proof fn lemma_asin_piece()
    ensures
        ({
            let c = "<dc:identifier opf:scheme=\"ASIN\">"@;
            &&& tidy::is_piece(c)
            &&& tidy::is_bare(c)
            &&& text::is_at(c, "<dc:identifier"@, 0)
            &&& metadata_edit::tag_edge(c, 14)
            &&& c[c.len() - 2] != '/'
            &&& "<dc:identifier"@.len() == 14
        }),
{
    reveal(tidy::is_piece);
    reveal(tidy::is_bare);
    reveal_strlit("<dc:identifier");
    reveal_strlit("<dc:identifier opf:scheme=\"ASIN\">");
    let c = "<dc:identifier opf:scheme=\"ASIN\">"@;
    assert(c.len() == 33);
    assert(c.subrange(0, 14) =~= "<dc:identifier"@);
    reading::lemma_name_end_is(c, 1, 14);
    reading::lemma_close_plain(c, 14, 26);
    reading::lemma_close_inside(c, 27, 31);
    assert(markup::tag_close(c, 26, None) == markup::tag_close(c, 27, Some('"')));
    assert(markup::tag_close(c, 32, None) == Some(32int));
}

/// Setting the ASIN leaves what is read of the other fields.
pub proof fn lemma_set_asin(t: Seq<char>, asin: Seq<char>)
    requires
        is_plain_opf(t),
        has_metadata_end(t),
    ensures
        ({
            let new = metadata_edit::spec_set_asin(t, asin);
            &&& is_plain_opf(new)
            &&& has_metadata_end(new)
            &&& agree_besides(t, new, "identifier"@)
        }),
{
    lemma_identifier_tags();
    let n = "identifier"@;
    let x = lemma_asin(t, 0);
    match metadata_edit::asin_from(t, 0) {
        Some((a, b)) => {
            opf_read_back::lemma_set_at(t, n, x, asin);
        },
        None => {
            lemma_asin_piece();
            let c = "<dc:identifier opf:scheme=\"ASIN\">"@;
            opf_read_back::lemma_add_field(t, n, c, asin);
        },
    }
}

// ---------------------------------------------------------------- the run

/// The start tag of the `n`th creator of a run.
spec fn run_tag(n: int) -> Seq<char> {
    "<dc:creator id=\"creator"@ + text::decimal(n as nat) + "\">"@
}

proof fn lemma_run_tag(n: int)
    requires
        0 < n,
    ensures
        ({
            let c = run_tag(n);
            &&& tidy::is_piece(c)
            &&& tidy::is_bare(c)
            &&& text::is_at(c, "<dc:creator"@, 0)
            &&& metadata_edit::tag_edge(c, 11)
            &&& c[c.len() - 2] != '/'
        }),
{
    reveal(tidy::is_piece);
    reveal(tidy::is_bare);
    reveal_strlit("<dc:creator");
    reveal_strlit("<dc:creator id=\"creator");
    reveal_strlit("\">");
    crate::creators_read_back::lemma_digits(n as nat);
    let o = "<dc:creator id=\"creator"@;
    let d = text::decimal(n as nat);
    let c = run_tag(n);
    let e = (23 + d.len()) as int;
    assert(c.len() == e + 2);
    assert(c.subrange(0, 11) =~= "<dc:creator"@);
    assert forall|k: int| 0 <= k < 23 implies c[k] == #[trigger] o[k] by {
    }
    assert forall|k: int| 23 <= k < e implies '0' <= #[trigger] c[k] <= '9' by {
        assert(c[k] == d[k - 23]);
    }
    assert(c[e] == '"' && c[e + 1] == '>');
    assert forall|k: int| 1 <= k < 11 implies markup::name_char(#[trigger] c[k]) by {
        assert(c[k] == o[k]);
    }
    assert(c[11] == o[11] && c[12] == o[12] && c[13] == o[13] && c[14] == o[14] && c[15] == o[15]);
    reading::lemma_name_end_is(c, 1, 11);
    reading::lemma_close_plain(c, 11, 15);
    assert forall|k: int| 16 <= k < e implies #[trigger] c[k] != '"' by {
        if k < 23 {
            assert(c[k] == o[k]);
        }
    }
    reading::lemma_close_inside(c, 16, e);
    assert(markup::tag_close(c, 15, None) == markup::tag_close(c, 16, Some('"')));
    assert(markup::tag_close(c, e + 1, None) == Some(e + 1));
    assert forall|k: int| 0 < k < c.len() - 1 implies (#[trigger] c[k]) != '<' && c[k] != '>' by {
        if k < 23 {
            assert(c[k] == o[k]);
        }
    }
}

/// The authors as they are read.
pub open spec fn trimmed(v: Seq<Seq<char>>) -> Seq<Seq<char>> {
    v.map_values(|s: Seq<char>| text::spec_trim(s))
}

/// A text tells creators alone.
#[verifier::opaque]
spec fn tells_creators(w: Seq<char>, v: Seq<Seq<char>>) -> bool {
    &&& is_plain_opf(w)
    &&& tidy::refs(w).len() == 0
    &&& !tidy::has_package(w)
    &&& !has_metadata_end(w)
    &&& tidy::all_told(told(w), "creator"@) == v
    &&& forall|o: Seq<char>|
        o != "creator"@ ==> #[trigger] tidy::first_told(told(w), o) is None && tidy::all_told(
            told(w),
            o,
        ).len() == 0
}

proof fn lemma_tells_both(x: Seq<char>, v: Seq<Seq<char>>, y: Seq<char>, w: Seq<Seq<char>>)
    requires
        tells_creators(x, v),
        tells_creators(y, w),
    ensures
        tells_creators(x + y, v + w),
{
    reveal(tells_creators);
    let none = Seq::<char>::empty();
    plain_opf::lemma_nothing();
    opf_read_back::lemma_text_plain(none);
    opf_read_back::lemma_three(x, y, none);
    assert(x + y + none =~= x + y);
    assert(told(x) + told(y) + told(none) =~= told(x) + told(y));
    assert(tidy::refs(x + y).len() == 0);
    assert forall|o: Seq<char>| o != "creator"@ implies #[trigger] tidy::first_told(
        told(x + y),
        o,
    ) is None && tidy::all_told(told(x + y), o).len() == 0 by {
        tidy::lemma_first_told_join(told(x), told(y), o);
        assert(tidy::first_told(told(x), o) is None && tidy::first_told(told(y), o) is None);
    }
    tidy::lemma_first_told_join(told(x), told(y), "creator"@);
}

proof fn lemma_tells_none(s: Seq<char>)
    requires
        !s.contains('<'),
    ensures
        tells_creators(s, Seq::empty()),
{
    reveal(tells_creators);
    opf_read_back::lemma_text_plain(s);
    assert(told(s) =~= Seq::empty());
    assert(tidy::all_told(told(s), "creator"@) =~= Seq::empty());
}

/// An element of a run tells its author.
proof fn lemma_run_unit(author: Seq<char>, n: int)
    requires
        0 < n,
    ensures
        tells_creators(
            run_tag(n) + markup::spec_escape_text(author) + "</dc:creator>"@,
            seq![text::spec_trim(author)],
        ),
{
    reveal(tells_creators);
    lemma_identifier_tags();
    lemma_run_tag(n);
    let c = run_tag(n);
    let esc = markup::spec_escape_text(author);
    escaping::escaping_leaves_no_markup(author);
    escaping::unescaping_undoes_escaping(author);
    let w = c + esc + "</dc:creator>"@;
    opf_read_back::lemma_field_element(c, "creator"@, esc);
    opf_read_back::lemma_only(w, "creator"@, text::spec_trim(author));
}

/// A run tells its authors.
proof fn lemma_run_tells(v: Seq<Seq<char>>, n: int)
    requires
        0 <= n <= v.len(),
    ensures
        tells_creators(metadata_edit::creators_to(v, n), trimmed(v.take(n))),
    decreases n,
{
    if n == 0 {
        let none = metadata_edit::creators_to(v, 0);
        assert(none =~= Seq::<char>::empty());
        lemma_tells_none(none);
        assert(trimmed(v.take(0)) =~= Seq::empty());
    } else {
        lemma_run_tells(v, n - 1);
        let before = metadata_edit::creators_to(v, n - 1);
        let value = text::spec_trim(v[n - 1]);
        let esc = markup::spec_escape_text(v[n - 1]);
        let w = run_tag(n) + esc + "</dc:creator>"@;
        lemma_run_unit(v[n - 1], n);
        let sep = if n > 1 {
            "\n    "@
        } else {
            Seq::<char>::empty()
        };
        reveal_strlit("\n    ");
        assert(!sep.contains('<'));
        lemma_tells_none(sep);
        lemma_tells_both(before, trimmed(v.take(n - 1)), sep, Seq::empty());
        lemma_tells_both(
            before + sep,
            trimmed(v.take(n - 1)) + Seq::<Seq<char>>::empty(),
            w,
            seq![value],
        );
        assert(metadata_edit::creators_to(v, n) =~= before + sep + w);
        assert(trimmed(v.take(n)) =~= trimmed(v.take(n - 1)) + Seq::<Seq<char>>::empty() + seq![
            value,
        ]);
    }
}

// ---------------------------------------------------------------- the creators that go

/// Two texts that agree still do behind the same text.
proof fn lemma_agree_behind(p: Seq<char>, y: Seq<char>, r: Seq<char>, n: Seq<char>)
    requires
        is_plain_opf(p),
        is_plain_opf(y),
        is_plain_opf(r),
        agree_besides(y, r, n),
    ensures
        is_plain_opf(p + r),
        agree_besides(p + y, p + r, n),
        tidy::all_told(told(p), n).len() == 0 && tidy::all_told(told(r), n).len() == 0
            ==> tidy::all_told(told(p + r), n).len() == 0,
{
    let none = Seq::<char>::empty();
    plain_opf::lemma_nothing();
    opf_read_back::lemma_text_plain(none);
    opf_read_back::lemma_three(p, y, none);
    opf_read_back::lemma_three(p, r, none);
    assert(p + y + none =~= p + y);
    assert(p + r + none =~= p + r);
    assert(told(p) + told(y) + told(none) =~= told(p) + told(y));
    assert(told(p) + told(r) + told(none) =~= told(p) + told(r));
    assert(tidy::refs(p) + tidy::refs(y) + tidy::refs(none) =~= tidy::refs(p) + tidy::refs(y));
    assert(tidy::refs(p) + tidy::refs(r) + tidy::refs(none) =~= tidy::refs(p) + tidy::refs(r));
    assert forall|o: Seq<char>| o != n implies #[trigger] tidy::first_told(told(p + r), o)
        == tidy::first_told(told(p + y), o) by {
        tidy::lemma_first_told_join(told(p), told(y), o);
        tidy::lemma_first_told_join(told(p), told(r), o);
        assert(tidy::first_told(told(r), o) == tidy::first_told(told(y), o));
    }
    assert forall|o: Seq<char>| o != n implies #[trigger] tidy::all_told(told(p + r), o)
        == tidy::all_told(told(p + y), o) by {
        tidy::lemma_first_told_join(told(p), told(y), o);
        tidy::lemma_first_told_join(told(p), told(r), o);
        assert(tidy::all_told(told(r), o) == tidy::all_told(told(y), o));
    }
    tidy::lemma_first_told_join(told(p), told(r), n);
}

/// A text without a unit of the field agrees with the text that has it.
proof fn lemma_agree_without(p: Seq<char>, u: Seq<char>, y: Seq<char>, n: Seq<char>)
    requires
        is_plain_opf(p),
        is_plain_opf(u),
        is_plain_opf(y),
        tidy::refs(u).len() == 0,
        !tidy::has_package(u),
        !has_metadata_end(u),
        forall|o: Seq<char>|
            o != n ==> #[trigger] tidy::first_told(told(u), o) is None && tidy::all_told(
                told(u),
                o,
            ).len() == 0,
    ensures
        is_plain_opf(p + y),
        agree_besides(p + u + y, p + y, n),
{
    let none = Seq::<char>::empty();
    plain_opf::lemma_nothing();
    opf_read_back::lemma_text_plain(none);
    assert(told(none) =~= Seq::empty());
    assert(tidy::refs(u) =~= tidy::refs(none));
    opf_read_back::lemma_exchanged(p, u, none, y, n);
    assert(p + none + y =~= p + y);
}

/// In a plain package document a creator closes itself nowhere.
proof fn lemma_creator_edge(t: Seq<char>, a: int)
    requires
        is_plain_opf(t),
        0 <= a,
        text::is_at(t, "<dc:creator"@, a),
        metadata_edit::name_edge(t, a + 11),
    ensures
        metadata_edit::tag_edge(t, a + 11),
        a + 11 < t.len(),
{
    lemma_identifier_tags();
    let n = "creator"@;
    let open = "<dc:creator"@;
    plain_opf::lemma_end_tag(n);
    reveal_strlit("<dc:");
    reveal_strlit("</dc:");
    reveal_strlit("</meta>");
    assert forall|i: int| 0 <= i < 11 implies t[a + i] == #[trigger] open[i] by {
        assert(t.subrange(a, a + 11)[i] == open[i]);
    }
    assert(open[0] == field_open(n)[0] && open[1] == field_open(n)[1]);
    assert(t[a + 0] == open[0] && t[a + 1] == open[1]);
    assert(markup::name_char(field_open(n)[1]));
    assert(t.subrange(a, a + 4) =~= open.subrange(0, 4));
    assert(open.subrange(0, 4) =~= field_open(n).subrange(0, 4));
    assert(field_open(n).subrange(0, 4) =~= "<dc:"@);
    plain_opf::lemma_between(t, a);
    plain_opf::lemma_plain_cut(t, a);
    let s = from(t, a);
    tidy::lemma_tidy_tail(s);
    let c = piece(s);
    opf_read_back::lemma_piece_in(t, a);
    opf_read_back::lemma_open_in_piece(t, a, open);
    assert(c[11] == t[a + 11]) by {
        assert(t.subrange(a, a + c.len())[11] == t[a + 11]);
    }
    if !metadata_edit::tag_edge(t, a + 11) {
        opf_read_back::lemma_field_name(c, n);
        reveal(plain_opf::is_named);
        assert(plain_opf::unit_is_plain(s));
    }
}

/// The unit of a creator that is found at `a`, and its end.
proof fn lemma_creator_unit(t: Seq<char>, a: int)
    requires
        is_plain_opf(t),
        0 <= a,
        text::is_at(t, "<dc:creator"@, a),
        metadata_edit::tag_edge(t, a + 11),
    ensures
        ({
            let g = text::spec_find_char(t, '>', a)->0;
            let end = metadata_edit::creator_end(t, g);
            let u = t.subrange(a, end);
            &&& text::spec_find_char(t, '>', a) is Some
            &&& a <= g < t.len()
            &&& a < end <= t.len()
            &&& is_between(t, a)
            &&& is_between(t, end)
            &&& opf_read_back::opens_at(t, "creator"@, a)
            &&& is_plain_opf(u)
            &&& is_plain_opf(from(t, end))
            &&& tidy::refs(u).len() == 0
            &&& !tidy::has_package(u)
            &&& !has_metadata_end(u)
            &&& forall|o: Seq<char>|
                o != "creator"@ ==> #[trigger] tidy::first_told(told(u), o) is None
                    && tidy::all_told(told(u), o).len() == 0
        }),
{
    lemma_identifier_tags();
    let n = "creator"@;
    opf_read_back::lemma_field_at(t, n, a);
    opf_read_back::lemma_field_unit(t, n, a);
    let s = from(t, a);
    let c = piece(s);
    let m = lead(tail(s));
    let e = "</dc:creator>"@;
    let g = a + c.len() - 1;
    text::lemma_find_char(t, '>', a);
    assert(text::spec_find(t, e, g) == text::spec_find(t, e, g + 1)) by {
        plain_opf::lemma_end_tag(n);
        if text::is_at(t, e, g) {
            assert(t.subrange(g, g + 13)[0] == t[g]);
        }
    }
    let end = metadata_edit::creator_end(t, g);
    assert(end == a + c.len() + m.len() + 13);
    let u = c + m + e;
    assert(t.subrange(a, end) =~= u);
    opf_read_back::lemma_field_element(c, n, m);
    opf_read_back::lemma_only(u, n, text::spec_trim(markup::spec_unescape(m)));
    plain_opf::lemma_between_next(t, a);
    plain_opf::lemma_unit_element(s);
}

/// A creator that is left out, with those behind it.
proof fn lemma_creator_gone(t: Seq<char>, copied: int, a: int, behind: Seq<char>)
    requires
        is_plain_opf(t),
        is_between(t, copied),
        0 <= copied <= a,
        text::is_at(t, "<dc:creator"@, a),
        metadata_edit::tag_edge(t, a + 11),
        forall|i: int| copied <= i < a ==> !#[trigger] opf_read_back::opens_at(t, "creator"@, i),
        is_plain_opf(behind),
        agree_besides(
            from(t, metadata_edit::creator_end(t, text::spec_find_char(t, '>', a)->0)),
            behind,
            "creator"@,
        ),
        tidy::all_told(told(behind), "creator"@).len() == 0,
    ensures
        is_plain_opf(t.subrange(copied, a) + behind),
        agree_besides(from(t, copied), t.subrange(copied, a) + behind, "creator"@),
        tidy::all_told(told(t.subrange(copied, a) + behind), "creator"@).len() == 0,
{
    let n = "creator"@;
    lemma_creator_unit(t, a);
    let end = metadata_edit::creator_end(t, text::spec_find_char(t, '>', a)->0);
    let p = t.subrange(copied, a);
    let u = t.subrange(a, end);
    let y = from(t, end);
    lemma_untold_piece(t, copied, a);
    assert(from(t, copied) =~= p + u + y);
    lemma_agree_without(p, u, y, n);
    lemma_agree_behind(p, y, behind, n);
    lemma_agree_chain(from(t, copied), p + y, p + behind, n);
}

/// The text behind what is written, once the creators from `scan` on are left
/// out.
#[verifier::rlimit(60)]
proof fn lemma_uncreated(t: Seq<char>, scan: int, s: metadata_edit::Uncreated) -> (rest: Seq<char>)
    requires
        is_plain_opf(t),
        0 <= s.copied <= scan <= t.len(),
        is_between(t, s.copied),
        s.first is Some,
        forall|i: int|
            s.copied <= i < scan ==> !#[trigger] opf_read_back::opens_at(t, "creator"@, i),
    ensures
        ({
            let end = metadata_edit::uncreated_from(t, scan, s);
            &&& end.out + from(t, end.copied) == s.out + rest
            &&& end.first == s.first
        }),
        is_plain_opf(rest),
        agree_besides(from(t, s.copied), rest, "creator"@),
        tidy::all_told(told(rest), "creator"@).len() == 0,
    decreases t.len() - scan,
{
    lemma_identifier_tags();
    let n = "creator"@;
    let open = "<dc:creator"@;
    plain_opf::lemma_plain_cut(t, s.copied);
    text::lemma_find(t, open, scan);
    let here = from(t, s.copied);
    match text::spec_find(t, open, scan) {
        None => {
            assert forall|y: int| !#[trigger] opf_read_back::opens_at(here, n, y) by {
                if opf_read_back::opens_at(here, n, y) {
                    assert(t.subrange(s.copied + y, s.copied + y + 11) =~= here.subrange(y, y + 11));
                    assert(opf_read_back::opens_at(t, n, s.copied + y));
                }
            }
            opf_read_back::lemma_untold(here, n);
            here
        },
        Some(a) => {
            if !metadata_edit::name_edge(t, a + 11) {
                assert forall|i: int| s.copied <= i < a + 11 implies !#[trigger] opf_read_back::opens_at(
                    t,
                    n,
                    i,
                ) by {
                    if opf_read_back::opens_at(t, n, i) && i > a {
                        lemma_inside_open(t, a, i);
                    }
                }
                lemma_uncreated(t, a + 11, s)
            } else {
                lemma_creator_edge(t, a);
                lemma_creator_unit(t, a);
                let g = text::spec_find_char(t, '>', a)->0;
                let end = metadata_edit::creator_end(t, g);
                let p = t.subrange(s.copied, a);
                let next = metadata_edit::Uncreated {
                    out: s.out + p,
                    copied: end,
                    first: s.first,
                    ids: match markup::spec_attr_value(t.subrange(a, g), "id"@) {
                        Some(id) => s.ids.push(id),
                        None => s.ids,
                    },
                };
                let behind = lemma_uncreated(t, end, next);
                assert forall|i: int| s.copied <= i < a implies !#[trigger] opf_read_back::opens_at(
                    t,
                    n,
                    i,
                ) by {
                }
                lemma_creator_gone(t, s.copied, a, behind);
                let rest = p + behind;
                assert(s.out + rest =~= next.out + behind);
                rest
            }
        },
    }
}

proof fn lemma_agree_chain(a: Seq<char>, b: Seq<char>, c: Seq<char>, n: Seq<char>)
    requires
        agree_besides(a, b, n),
        agree_besides(b, c, n),
    ensures
        agree_besides(a, c, n),
{
    assert forall|o: Seq<char>| o != n implies #[trigger] tidy::first_told(told(c), o)
        == tidy::first_told(told(a), o) by {
        assert(tidy::first_told(told(b), o) == tidy::first_told(told(a), o));
    }
    assert forall|o: Seq<char>| o != n implies #[trigger] tidy::all_told(told(c), o)
        == tidy::all_told(told(a), o) by {
        assert(tidy::all_told(told(b), o) == tidy::all_told(told(a), o));
    }
}

/// Inside the start of a creator's tag no other starts.
proof fn lemma_inside_open(t: Seq<char>, a: int, i: int)
    requires
        0 <= a < i < a + 11,
        text::is_at(t, "<dc:creator"@, a),
    ensures
        !text::is_at(t, "<dc:creator"@, i),
{
    lemma_identifier_tags();
    let open = "<dc:creator"@;
    plain_opf::lemma_end_tag("creator"@);
    assert(t.subrange(a, a + 11)[i - a] == open[i - a]);
    if text::is_at(t, open, i) {
        assert(t.subrange(i, i + 11)[0] == t[i]);
        assert(markup::name_char(field_open("creator"@)[i - a]));
    }
}

/// A piece of a text between two places names no creator, where none starts.
proof fn lemma_untold_piece(t: Seq<char>, a: int, b: int)
    requires
        is_plain_opf(t),
        is_between(t, a),
        is_between(t, b),
        0 <= a <= b,
        forall|i: int| a <= i < b ==> !#[trigger] opf_read_back::opens_at(t, "creator"@, i),
    ensures
        is_plain_opf(t.subrange(a, b)),
        tidy::all_told(told(t.subrange(a, b)), "creator"@).len() == 0,
{
    lemma_identifier_tags();
    let n = "creator"@;
    plain_opf::lemma_plain_cut(t, a);
    plain_opf::lemma_plain_cut(t, b);
    let here = from(t, a);
    plain_opf::lemma_between_from(t, a, b);
    plain_opf::lemma_plain_cut(here, b - a);
    assert(here.subrange(0, b - a) =~= t.subrange(a, b));
    assert forall|y: int| y < b - a implies !#[trigger] opf_read_back::opens_at(here, n, y) by {
        if opf_read_back::opens_at(here, n, y) {
            assert(t.subrange(a + y, a + y + 11) =~= here.subrange(y, y + 11));
            assert(opf_read_back::opens_at(t, n, a + y));
        }
    }
    opf_read_back::lemma_untold_before(here, n, b - a);
}

/// The text that is left without its creators: where the first of them stood,
/// and what is left behind it; nothing where there is none.
proof fn lemma_first(t: Seq<char>, scan: int) -> (r: Option<(int, Seq<char>)>)
    requires
        is_plain_opf(t),
        0 <= scan <= t.len(),
        forall|i: int| i < scan ==> !#[trigger] opf_read_back::opens_at(t, "creator"@, i),
    ensures
        ({
            let start = metadata_edit::Uncreated {
                out: Seq::empty(),
                copied: 0,
                first: None,
                ids: Seq::empty(),
            };
            let end = metadata_edit::uncreated_from(t, scan, start);
            match r {
                None => end == start && forall|i: int|
                    !#[trigger] opf_read_back::opens_at(t, "creator"@, i),
                Some((a, rest)) => {
                    &&& 0 <= a <= t.len()
                    &&& is_between(t, a)
                    &&& forall|i: int| i < a ==> !#[trigger] opf_read_back::opens_at(t, "creator"@, i)
                    &&& end.first == Some(a)
                    &&& end.out + from(t, end.copied) == t.subrange(0, a) + rest
                    &&& is_plain_opf(rest)
                    &&& agree_besides(t, t.subrange(0, a) + rest, "creator"@)
                    &&& tidy::all_told(told(rest), "creator"@).len() == 0
                },
            }
        }),
    decreases t.len() - scan,
{
    lemma_identifier_tags();
    let n = "creator"@;
    let open = "<dc:creator"@;
    text::lemma_find(t, open, scan);
    match text::spec_find(t, open, scan) {
        None => None,
        Some(a) => {
            if !metadata_edit::name_edge(t, a + 11) {
                assert forall|i: int| i < a + 11 implies !#[trigger] opf_read_back::opens_at(
                    t,
                    n,
                    i,
                ) by {
                    if opf_read_back::opens_at(t, n, i) && i > a {
                        lemma_inside_open(t, a, i);
                    }
                }
                lemma_first(t, a + 11)
            } else {
                lemma_creator_edge(t, a);
                lemma_creator_unit(t, a);
                let g = text::spec_find_char(t, '>', a)->0;
                let end = metadata_edit::creator_end(t, g);
                let next = metadata_edit::Uncreated {
                    out: Seq::<char>::empty() + t.subrange(0, a),
                    copied: end,
                    first: Some(a),
                    ids: match markup::spec_attr_value(t.subrange(a, g), "id"@) {
                        Some(id) => Seq::<Seq<char>>::empty().push(id),
                        None => Seq::<Seq<char>>::empty(),
                    },
                };
                assert(next.out =~= t.subrange(0, a));
                let rest = lemma_uncreated(t, end, next);
                assert forall|i: int| i < a implies !#[trigger] opf_read_back::opens_at(t, n, i) by {
                }
                assert(is_between(t, 0));
                lemma_creator_gone(t, 0, a, rest);
                assert(from(t, 0) =~= t);
                Some((a, rest))
            }
        },
    }
}

// ---------------------------------------------------------------- what refined them

/// A `meta` element tells nothing.
#[verifier::rlimit(80)]
proof fn lemma_meta_tells_nothing(w: Seq<char>, a: int)
    requires
        is_plain_opf(w),
        0 <= a,
        text::is_at(w, "<meta"@, a),
        metadata_edit::meta_edge(w, a + 5),
    ensures
        ({
            let g = text::spec_find_char(w, '>', a)->0;
            let end = metadata_edit::meta_end(w, g);
            let u = w.subrange(a, end);
            &&& text::spec_find_char(w, '>', a) is Some
            &&& a <= g < w.len()
            &&& g < end <= w.len()
            &&& is_between(w, a)
            &&& is_between(w, end)
            &&& is_plain_opf(u)
            &&& told(u).len() == 0
            &&& tidy::refs(u).len() == 0
            &&& !tidy::has_package(u)
            &&& !has_metadata_end(u)
        }),
{
    let open = "<meta"@;
    reveal_strlit("<meta");
    reveal_strlit("</meta>");
    reveal_strlit("</dc:");
    assert forall|i: int| 0 <= i < 5 implies w[a + i] == #[trigger] open[i] by {
        assert(w.subrange(a, a + 5)[i] == open[i]);
    }
    assert(w[a + 0] == open[0] && w[a + 1] == open[1]);
    plain_opf::lemma_between(w, a);
    plain_opf::lemma_plain_cut(w, a);
    let s = from(w, a);
    tidy::lemma_tidy_tail(s);
    let c = piece(s);
    opf_read_back::lemma_piece_in(w, a);
    opf_read_back::lemma_open_in_piece(w, a, open);
    tidy::lemma_ends(c);
    assert forall|i: int| 0 <= i < c.len() implies w[a + i] == #[trigger] c[i] by {
        assert(w.subrange(a, a + c.len())[i] == c[i]);
    }
    assert(c[5] == w[a + 5]);
    lemma_meta_name(c);
    let g = a + c.len() - 1;
    text::lemma_find_char(w, '>', a);
    plain_opf::lemma_between_next(w, a);
    plain_opf::lemma_unit(s);
    let k = plain_opf::unit_len(s);
    let j = c.len() - 2;
    assert(w[a + j] == c[j]);
    reveal(plain_opf::opens_meta);
    assert(c[1] == open[1]) by {
        assert(w[a + 1] == c[1]);
    }
    lemma_meta_alone(c);
    if plain_opf::opens_meta(c) {
        plain_opf::lemma_unit_element(s);
        let m = lead(tail(s));
        let e = "</meta>"@;
        assert(tail(s) =~= from(w, g + 1));
        assert(from(w, g + 1).subrange(0, (m.len() + e.len()) as int) =~= m + e);
        opf_read_back::lemma_find_close(w, g + 1, m, e);
        plain_opf::lemma_element(c, m, e);
        plain_opf::lemma_meta_end();
        lemma_meta_ends(c, m);
    }
    let end = metadata_edit::meta_end(w, g);
    assert(end == a + k);
    let u = w.subrange(a, end);
    assert(u =~= s.subrange(0, k));
}

proof fn lemma_meta_name(c: Seq<char>)
    requires
        tidy::is_piece(c),
        text::is_at(c, "<meta"@, 0),
        5 < c.len(),
        metadata_edit::meta_edge(c, 5),
    ensures
        !opens_field(c),
        local(c) == "meta"@,
        tidy::is_start(c),
{
    reveal_strlit("<meta");
    reveal_strlit("meta");
    let open = "<meta"@;
    assert forall|i: int| 0 <= i < 5 implies c[i] == #[trigger] open[i] by {
        assert(c.subrange(0, 5)[i] == open[i]);
    }
    assert(c[1] == open[1] && c[2] == open[2] && c[3] == open[3] && c[4] == open[4]);
    reading::lemma_name_end_is(c, 1, 5);
    let name = c.subrange(1, 5);
    assert(text::spec_lower(name) =~= "meta"@);
    let m = "meta"@;
    assert(m[0] != ':' && m[1] != ':' && m[2] != ':' && m[3] != ':');
    assert(text::spec_rfind_char(m, ':', 4) is None) by {
        reveal_with_fuel(text::spec_rfind_char, 6);
    }
    assert(crate::opf::spec_local(m) == m);
    reveal(tidy::is_field);
    reveal_strlit("title");
    reveal_strlit("language");
    reveal_strlit("creator");
    reveal_strlit("publisher");
    reveal_strlit("date");
    reveal_strlit("identifier");
    assert(m[0] == 'm' && "date"@[0] == 'd');
}

/// The start tag of a `meta` element, by itself.
proof fn lemma_meta_alone(c: Seq<char>)
    requires
        tidy::is_piece(c),
        text::is_at(c, "<meta"@, 0),
        5 < c.len(),
        metadata_edit::meta_edge(c, 5),
    ensures
        tidy::refs(c).len() == 0,
        !tidy::has_package(c),
        !has_metadata_end(c),
{
    lemma_meta_name(c);
    plain_opf::lemma_one_piece(c, Seq::empty());
    let none = tail(c);
    assert(tidy::refs(none).len() == 0 && !tidy::has_package(none) && !has_metadata_end(none));
    reveal_strlit("meta");
    reveal_strlit("itemref");
    reveal_strlit("package");
    reveal_strlit("</metadata>");
    reveal_strlit("<meta");
    tidy::lemma_ends(c);
    assert(c.subrange(0, 5)[1] == 'm');
    assert(c[1] == 'm');
    assert("</metadata>"@[1] == '/');
    assert("meta"@.len() == 4 && "itemref"@.len() == 7 && "package"@.len() == 7);
}

/// A `meta` element does not end the metadata.
proof fn lemma_meta_ends(c: Seq<char>, m: Seq<char>)
    requires
        tidy::is_piece(c),
        tidy::is_start(c),
        !m.contains('<'),
        !has_metadata_end(c),
    ensures
        !has_metadata_end(c + m + "</meta>"@),
{
    let e = "</meta>"@;
    plain_opf::lemma_meta_end();
    plain_opf::lemma_one_piece(c, Seq::empty());
    plain_opf::lemma_one_piece(e, Seq::empty());
    assert(e + Seq::<char>::empty() =~= e);
    let none = tail(e);
    assert(!has_metadata_end(none));
    reveal_strlit("</metadata>");
    assert("</metadata>"@.len() == 11);
    assert(!has_metadata_end(e));
    opf_read_back::lemma_text_plain(m);
    tidy::lemma_has_piece_join(c, m, "</metadata>"@);
    tidy::lemma_tidy_join(c, m);
    tidy::lemma_has_piece_join(c + m, e, "</metadata>"@);
}

/// The text is plain and tells nothing.
spec fn tells_nothing(u: Seq<char>) -> bool {
    &&& is_plain_opf(u)
    &&& told(u).len() == 0
    &&& tidy::refs(u).len() == 0
    &&& !tidy::has_package(u)
    &&& !has_metadata_end(u)
}

/// What is cut for an element that refines a creator, and what stands around
/// it.
proof fn lemma_cut(w: Seq<char>, a: int, copied: int) -> (f: int)
    requires
        is_plain_opf(w),
        text::is_at(w, "<meta"@, a),
        metadata_edit::meta_edge(w, a + 5),
        0 <= copied <= a,
        is_between(w, copied),
    ensures
        ({
            let g = text::spec_find_char(w, '>', a)->0;
            let end = metadata_edit::meta_end(w, g);
            let (x, y) = metadata_edit::meta_cut(w, a, end);
            &&& f == (if x < copied {
                copied
            } else {
                x
            })
            &&& copied <= f <= a
            &&& g < y <= w.len()
            &&& is_between(w, f)
            &&& is_between(w, y)
            &&& tells_nothing(w.subrange(f, y))
        }),
{
    lemma_meta_tells_nothing(w, a);
    let g = text::spec_find_char(w, '>', a)->0;
    let end = metadata_edit::meta_end(w, g);
    let (x, y) = metadata_edit::meta_cut(w, a, end);
    crate::creators_read_back::lemma_line(w, a);
    let line = crate::manifest::line_start(w, a);
    let f = if x < copied {
        copied
    } else {
        x
    };
    assert forall|i: int| f <= i < a implies (#[trigger] w[i]) != '>' && w[i] != '<' by {
        if x != a {
            assert(w.subrange(line, a)[i - line] == w[i]);
        }
    }
    plain_opf::lemma_between_back(w, f, a);
    if y != end {
        let s = from(w, end);
        assert(s[0] == w[end]);
        plain_opf::lemma_between_next(w, end);
    }
    let lead_in = w.subrange(f, a);
    assert(!lead_in.contains('<')) by {
        assert forall|i: int| 0 <= i < lead_in.len() implies #[trigger] lead_in[i] != '<' by {
            assert(lead_in[i] == w[f + i]);
        }
    }
    let tail_out = w.subrange(end, y);
    assert(!tail_out.contains('<')) by {
        assert forall|i: int| 0 <= i < tail_out.len() implies #[trigger] tail_out[i] != '<' by {
            assert(tail_out[i] == w[end + i]);
        }
    }
    let u = w.subrange(a, end);
    opf_read_back::lemma_text_plain(lead_in);
    opf_read_back::lemma_text_plain(tail_out);
    opf_read_back::lemma_three(lead_in, u, tail_out);
    assert(w.subrange(f, y) =~= lead_in + u + tail_out);
    f
}

/// Two texts from which the same is read.
pub open spec fn agree(t: Seq<char>, u: Seq<char>) -> bool {
    &&& told(u) == told(t)
    &&& tidy::refs(u) == tidy::refs(t)
    &&& tidy::has_package(u) == tidy::has_package(t)
    &&& has_metadata_end(u) == has_metadata_end(t)
}

/// A text without a part that tells nothing.
proof fn lemma_cut_agrees(p: Seq<char>, u: Seq<char>, y: Seq<char>, r: Seq<char>)
    requires
        is_plain_opf(p),
        tells_nothing(u),
        is_plain_opf(y),
        is_plain_opf(r),
        agree(y, r),
    ensures
        is_plain_opf(p + r),
        agree(p + u + y, p + r),
{
    let none = Seq::<char>::empty();
    opf_read_back::lemma_text_plain(none);
    opf_read_back::lemma_three(p, u, y);
    opf_read_back::lemma_three(p, none, r);
    assert(p + none + r =~= p + r);
    assert(told(u) =~= told(none));
    assert(tidy::refs(u) =~= tidy::refs(none));
}

/// A cut that tells nothing leaves what is read.
proof fn lemma_cut_out(w: Seq<char>, copied: int, f: int, y: int, r: Seq<char>)
    requires
        is_plain_opf(w),
        is_between(w, copied),
        is_between(w, f),
        is_between(w, y),
        0 <= copied <= f <= y,
        tells_nothing(w.subrange(f, y)),
        is_plain_opf(r),
        agree(from(w, y), r),
    ensures
        is_plain_opf(w.subrange(copied, f) + r),
        agree(from(w, copied), w.subrange(copied, f) + r),
{
    let p = w.subrange(copied, f);
    let t = from(w, copied);
    plain_opf::lemma_plain_cut(w, copied);
    plain_opf::lemma_plain_cut(w, y);
    plain_opf::lemma_between_from(w, copied, f);
    plain_opf::lemma_plain_cut(t, f - copied);
    assert(t.subrange(0, f - copied) =~= p);
    lemma_cut_agrees(p, w.subrange(f, y), from(w, y), r);
    assert(t =~= p + w.subrange(f, y) + from(w, y));
}

/// Pruning what refined the creators leaves what is read.
#[verifier::rlimit(30)]
proof fn lemma_unrefined(w: Seq<char>, ids: Seq<Seq<char>>, scan: int, copied: int)
    requires
        is_plain_opf(w),
        0 <= copied <= scan <= w.len(),
        is_between(w, copied),
    ensures
        is_plain_opf(metadata_edit::unrefined_from(w, ids, scan, copied)),
        agree(from(w, copied), metadata_edit::unrefined_from(w, ids, scan, copied)),
    decreases w.len() - scan,
{
    reveal_strlit("<meta");
    reveal_strlit("</meta>");
    plain_opf::lemma_plain_cut(w, copied);
    text::lemma_find(w, "<meta"@, scan);
    if let Some(a) = text::spec_find(w, "<meta"@, scan) {
        if !metadata_edit::meta_edge(w, a + 5) {
            lemma_unrefined(w, ids, a + 5, copied);
        } else {
            lemma_meta_tells_nothing(w, a);
            let g = text::spec_find_char(w, '>', a)->0;
            let end = metadata_edit::meta_end(w, g);
            if metadata_edit::refines_one(w.subrange(a, g + 1), ids) {
                let (x, y) = metadata_edit::meta_cut(w, a, end);
                let f = lemma_cut(w, a, copied);
                lemma_unrefined(w, ids, y, y);
                lemma_cut_out(w, copied, f, y, metadata_edit::unrefined_from(w, ids, y, y));
            } else {
                lemma_unrefined(w, ids, end, copied);
            }
        }
    }
}

/// The authors that are set in a plain package document are those that are read
/// from it, and nothing else that is read changes.
pub proof fn lemma_set_creators(t: Seq<char>, authors: Seq<Seq<char>>)
    requires
        is_plain_opf(t),
        has_metadata_end(t),
    ensures
        ({
            let new = metadata_edit::spec_set_creators(t, authors);
            &&& is_plain_opf(new)
            &&& agree_besides(t, new, "creator"@)
            &&& tidy::all_told(told(new), "creator"@) == trimmed(authors)
        }),
{
    lemma_identifier_tags();
    let n = "creator"@;
    let s = metadata_edit::uncreated(t);
    let run = metadata_edit::creators_to(authors, authors.len() as int);
    lemma_run_tells(authors, authors.len() as int);
    reveal(tells_creators);
    assert(authors.take(authors.len() as int) =~= authors);
    assert forall|i: int| i < 0 implies !#[trigger] opf_read_back::opens_at(t, n, i) by {
    }
    let out = s.out + from(t, s.copied);
    match lemma_first(t, 0) {
        Some((a, rest)) => {
            let p = t.subrange(0, a);
            plain_opf::lemma_plain_cut(t, a);
            opf_read_back::lemma_untold_before(t, n, a);
            assert(out.subrange(0, a) =~= p);
            assert(from(out, a) =~= rest);
            let w = p + run + rest;
            let none = Seq::<char>::empty();
            opf_read_back::lemma_text_plain(none);
            assert(told(none) =~= Seq::empty());
            assert(tidy::refs(none) =~= tidy::refs(run));
            opf_read_back::lemma_exchanged(p, none, run, rest, n);
            assert(p + none + rest =~= p + rest);
            lemma_agree_chain(t, p + rest, w, n);
            opf_read_back::lemma_three(p, run, rest);
            tidy::lemma_first_told_join(told(p), told(run), n);
            tidy::lemma_first_told_join(told(p) + told(run), told(rest), n);
            assert(tidy::all_told(told(w), n) =~= trimmed(authors));
            if s.ids.len() > 0 {
                assert(is_between(w, 0));
                lemma_unrefined(w, s.ids, 0, 0);
                assert(from(w, 0) =~= w);
            }
        },
        None => {
            assert(out =~= t);
            opf_read_back::lemma_untold(t, n);
            opf_read_back::lemma_inserted(t, run, n);
        },
    }
}

} // verus!
