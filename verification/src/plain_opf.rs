//! Package documents that are plainly written: tidy, and with each field in an
//! element of its own, `<dc:name>` to `</dc:name>`, that holds text alone.
use vstd::prelude::*;

use crate::tidy::{from, is_tidy, lead, local, piece, tail, told};
use crate::{markup, metadata_edit, text, tidy};

verus! {

/// The start tag of a field.
pub open spec fn field_open(n: Seq<char>) -> Seq<char> {
    "<dc:"@ + n
}

/// The end tag of a field.
pub open spec fn field_close(n: Seq<char>) -> Seq<char> {
    "</dc:"@ + n + ">"@
}

/// The piece is the start tag of a field.
pub open spec fn opens_field(c: Seq<char>) -> bool {
    tidy::is_start(c) && tidy::is_field(local(c))
}

/// The piece is the start tag of a `meta` element that holds text.
#[verifier::opaque]
pub open spec fn opens_meta(c: Seq<char>) -> bool {
    tidy::is_start(c) && text::is_at(c, "<meta"@, 0) && metadata_edit::meta_edge(c, 5) && c[c.len()
        - 2] != '/'
}

/// The end tag that the element which the piece starts has to have.
pub open spec fn end_tag(c: Seq<char>) -> Seq<char> {
    if opens_field(c) {
        field_close(local(c))
    } else {
        "</meta>"@
    }
}

/// The start tag of a field is written as the field is sought.
#[verifier::opaque]
pub open spec fn is_named(c: Seq<char>) -> bool {
    let open = field_open(local(c));
    &&& text::is_at(c, open, 0)
    &&& metadata_edit::tag_edge(c, open.len() as int)
    &&& c[c.len() - 2] != '/'
}

/// At `x` stands what is sought when metadata are written: the start of a field, of
/// a `meta` element, or the end of the metadata.
pub open spec fn is_sought(s: Seq<char>, x: int) -> bool {
    text::is_at(s, "<dc:"@, x) || text::is_at(s, "<meta"@, x) || text::is_at(s, "</metadata>"@, x)
}

/// The comment, instruction or declaration holds nothing that is sought.
#[verifier::opaque]
pub open spec fn is_quiet(c: Seq<char>) -> bool {
    forall|k: int| 0 < k < c.len() ==> !#[trigger] is_sought(c, k)
}

/// The length of the unit that `s` starts with: an element that holds text, a
/// piece that does not, or a character.
pub open spec fn unit_len(s: Seq<char>) -> int {
    let c = piece(s);
    if s[0] != '<' {
        1
    } else if opens_field(c) || opens_meta(c) {
        (c.len() + lead(tail(s)).len() + end_tag(c).len()) as int
    } else {
        c.len() as int
    }
}

/// The unit that `s` starts with is plainly written.
pub open spec fn unit_is_plain(s: Seq<char>) -> bool {
    let c = piece(s);
    s[0] == '<' ==> {
        &&& if tidy::is_aside(c) {
            is_quiet(c)
        } else {
            tidy::is_bare(c)
        }
        &&& opens_field(c) ==> is_named(c)
        &&& text::is_at(c, "<dc:identifier"@, 0) ==> opens_field(c) && local(c) == "identifier"@
        &&& opens_field(c) || opens_meta(c) ==> !lead(tail(s)).contains('<') && text::is_at(
            tail(s),
            end_tag(c),
            lead(tail(s)).len() as int,
        )
    }
}

/// The text is plainly written, unit by unit.
pub open spec fn is_plain(s: Seq<char>) -> bool
    decreases s.len(),
    via is_plain_shrinks
{
    s.len() == 0 || (unit_is_plain(s) && is_plain(from(s, unit_len(s))))
}

#[via_fn]
proof fn is_plain_shrinks(s: Seq<char>) {
    if s.len() > 0 && unit_is_plain(s) {
        lemma_unit_len(s);
    }
}

/// A package document that is plainly written.
pub open spec fn is_plain_opf(t: Seq<char>) -> bool {
    is_tidy(t) && is_plain(t)
}

proof fn lemma_unit_len(s: Seq<char>)
    requires
        s.len() > 0,
        unit_is_plain(s),
    ensures
        0 < unit_len(s) <= s.len(),
{
    tidy::lemma_tail(s);
}

/// `k` stands between two units.
pub open spec fn is_between(s: Seq<char>, k: int) -> bool
    decreases s.len(),
    via is_between_shrinks
{
    k == 0 || (k > 0 && s.len() > 0 && unit_is_plain(s) && unit_len(s) <= k && is_between(
        from(s, unit_len(s)),
        k - unit_len(s),
    ))
}

#[via_fn]
proof fn is_between_shrinks(s: Seq<char>, k: int) {
    if s.len() > 0 && unit_is_plain(s) {
        lemma_unit_len(s);
    }
}

pub proof fn lemma_end_tag(n: Seq<char>)
    requires
        tidy::is_field(n),
    ensures
        tidy::is_piece(field_close(n)),
        tidy::is_bare(field_close(n)),
        !tidy::is_start(field_close(n)),
        !tidy::is_aside(field_close(n)),
        field_close(n).len() == n.len() + 6,
        field_close(n)[0] == '<',
        field_close(n)[1] == '/',
        field_open(n).len() == n.len() + 4,
        field_open(n)[0] == '<',
        forall|k: int|
            0 <= k < n.len() ==> markup::name_char(#[trigger] n[k]) && n[k] != ':' && text::lower(
                n[k],
            ) == n[k],
        forall|k: int|
            1 <= k < field_open(n).len() ==> markup::name_char(#[trigger] field_open(n)[k])
                && text::lower(field_open(n)[k]) == field_open(n)[k],
{
    reveal(tidy::is_piece);
    reveal(tidy::is_bare);
    reveal(tidy::is_field);
    reveal_strlit("title");
    reveal_strlit("language");
    reveal_strlit("creator");
    reveal_strlit("publisher");
    reveal_strlit("date");
    reveal_strlit("identifier");
    reveal_strlit("<dc:");
    reveal_strlit("</dc:");
    reveal_strlit(">");
    let c = field_close(n);
    let o = field_open(n);
    assert forall|k: int| 0 <= k < n.len() implies markup::name_char(#[trigger] n[k]) && n[k] != ':'
        && text::lower(n[k]) == n[k] by {
    }
    assert forall|k: int| 1 <= k < o.len() implies markup::name_char(#[trigger] o[k])
        && text::lower(o[k]) == o[k] by {
        if k >= 4 {
            assert(o[k] == n[k - 4]);
        }
    }
    assert forall|k: int| 2 <= k < c.len() - 1 implies markup::name_char(#[trigger] c[k]) by {
        if k >= 5 {
            assert(c[k] == n[k - 5]);
        }
    }
    crate::reading::lemma_name_end_is(c, 2, c.len() - 1);
    assert(markup::tag_close(c, c.len() - 1, None) == Some(c.len() - 1));
}

pub proof fn lemma_meta_end()
    ensures
        tidy::is_piece("</meta>"@),
        tidy::is_bare("</meta>"@),
        !tidy::is_start("</meta>"@),
        !tidy::is_aside("</meta>"@),
        "</meta>"@.len() == 7,
        "</meta>"@[0] == '<',
        "</meta>"@[1] == '/',
{
    reveal(tidy::is_piece);
    reveal(tidy::is_bare);
    reveal_strlit("</meta>");
    let c = "</meta>"@;
    crate::reading::lemma_name_end_is(c, 2, c.len() - 1);
    assert(markup::tag_close(c, c.len() - 1, None) == Some(c.len() - 1));
}

/// A single piece.
pub proof fn lemma_one_piece(c: Seq<char>, y: Seq<char>)
    requires
        tidy::is_piece(c),
    ensures
        is_tidy(c),
        piece(c + y) == c,
        tail(c + y) == y,
        (c + y)[0] == '<',
        (c + y)[1] == c[1],
        piece(c) == c,
        tail(c).len() == 0,
{
    let s = c + y;
    tidy::lemma_ends(c);
    assert(s.subrange(0, c.len() as int) =~= c);
    tidy::lemma_piece_first(s, c);
    assert(tail(s) =~= y);
    assert(c.subrange(0, c.len() as int) =~= c);
    tidy::lemma_piece_first(c, c);
    reveal(tidy::is_tidy);
    assert(is_tidy(tail(c)));
}

// ---------------------------------------------------------------- units

/// An end tag tells nothing.
pub proof fn lemma_end_piece(e: Seq<char>, y: Seq<char>)
    requires
        tidy::is_piece(e),
        e[1] == '/',
    ensures
        e.len() >= 3,
        e[0] == '<',
        is_tidy(e),
        told(e).len() == 0,
        tidy::refs(e).len() == 0,
        !tidy::has_package(e),
        tidy::has_tag(e),
        tidy::is_settled(e),
        lead(e + y).len() == 0,
        tidy::has_tag(e + y),
{
    tidy::lemma_ends(e);
    lemma_one_piece(e, y);
    lemma_one_piece(e, Seq::empty());
    assert(e + Seq::<char>::empty() =~= e);
    let none = tail(e);
    assert(told(none).len() == 0 && tidy::refs(none).len() == 0 && !tidy::has_package(none)
        && tidy::is_settled(none));
}

/// A piece that tells nothing.
proof fn lemma_quiet_piece(c: Seq<char>)
    requires
        tidy::is_piece(c),
        !opens_field(c),
    ensures
        is_tidy(c),
        told(c).len() == 0,
        tidy::is_settled(c),
{
    lemma_one_piece(c, Seq::empty());
    let none = tail(c);
    assert(told(none).len() == 0 && tidy::is_settled(none));
}

/// An element that holds text alone.
pub proof fn lemma_element(c: Seq<char>, m: Seq<char>, e: Seq<char>)
    requires
        tidy::is_piece(c),
        tidy::is_start(c),
        !m.contains('<'),
        tidy::is_piece(e),
        e[1] == '/',
    ensures
        ({
            let w = c + m + e;
            &&& is_tidy(w)
            &&& tidy::is_settled(w)
            &&& piece(w) == c
            &&& tail(w) == m + e
            &&& w[0] == '<'
            &&& lead(m + e) == m
            &&& tidy::refs(w) == tidy::refs(c)
            &&& tidy::has_package(w) == tidy::has_package(c)
            &&& tidy::is_field(local(c)) ==> told(w) == seq![
                (local(c), text::spec_trim(markup::spec_unescape(m))),
            ]
            &&& !tidy::is_field(local(c)) ==> told(w).len() == 0
        }),
{
    let w = c + m + e;
    let r = m + e;
    assert(w =~= c + r);
    lemma_one_piece(c, r);
    tidy::lemma_plain(m);
    lemma_end_piece(e, Seq::empty());
    assert(e + Seq::<char>::empty() =~= e);
    lemma_no_tag(m);
    tidy::lemma_lead_join(m, e);
    assert(m + lead(e) =~= m);
    tidy::lemma_tidy_join(m, e);
    tidy::lemma_tidy_join(c, r);
    lemma_text_settled(m);
    tidy::lemma_told_join(m, e);
    tidy::lemma_refs_join(m, e);
    tidy::lemma_refs_join(c, r);
    assert(told(r) =~= Seq::empty());
    assert(tidy::refs(r) =~= Seq::empty());
    assert(tidy::refs(c) + tidy::refs(r) =~= tidy::refs(c));
    tidy::lemma_has_tag_join(m, e);
    assert(told(w) =~= if tidy::is_field(local(c)) {
        seq![(local(c), text::spec_trim(markup::spec_unescape(m)))]
    } else {
        Seq::empty()
    });
}

proof fn lemma_no_tag(m: Seq<char>)
    requires
        !m.contains('<'),
    ensures
        !tidy::has_tag(m),
    decreases m.len(),
{
    if m.len() > 0 {
        assert(m.contains(m[0]));
        let r = tail(m);
        assert forall|x: int| 0 <= x < r.len() implies #[trigger] r[x] != '<' by {
            assert(r[x] == m[x + 1]);
            assert(m.contains(m[x + 1]));
        }
        lemma_no_tag(r);
    }
}

proof fn lemma_text_settled(m: Seq<char>)
    requires
        !m.contains('<'),
    ensures
        tidy::is_settled(m),
    decreases m.len(),
{
    if m.len() > 0 {
        assert(m.contains(m[0]));
        let r = tail(m);
        assert forall|x: int| 0 <= x < r.len() implies #[trigger] r[x] != '<' by {
            assert(r[x] == m[x + 1]);
            assert(m.contains(m[x + 1]));
        }
        lemma_text_settled(r);
    }
}

/// The unit that `s` starts with is an element.
pub open spec fn starts_element(s: Seq<char>) -> bool {
    s[0] == '<' && (opens_field(piece(s)) || opens_meta(piece(s)))
}

/// The parts of an element that a plain text starts with.
pub proof fn lemma_unit_element(s: Seq<char>)
    requires
        is_tidy(s),
        s.len() > 0,
        unit_is_plain(s),
        starts_element(s),
    ensures
        ({
            let c = piece(s);
            let m = lead(tail(s));
            let e = end_tag(c);
            let w = c + m + e;
            &&& unit_len(s) == w.len()
            &&& 0 < w.len() <= s.len()
            &&& s.subrange(0, unit_len(s)) == w
            &&& s == w + from(s, unit_len(s))
            &&& tidy::is_piece(c)
            &&& tidy::is_start(c)
            &&& tidy::is_piece(e)
            &&& e[0] == '<'
            &&& e[1] == '/'
            &&& !m.contains('<')
            &&& is_tidy(from(s, unit_len(s)))
            &&& tail(s) == m + e + from(s, unit_len(s))
        }),
{
    lemma_unit_len(s);
    tidy::lemma_tail(s);
    tidy::lemma_tidy_tail(s);
    let c = piece(s);
    let m = lead(tail(s));
    let e = end_tag(c);
    let r = tail(s);
    let n = unit_len(s);
    assert(s[1] == c[1]);
    if opens_field(c) {
        lemma_end_tag(local(c));
    } else {
        reveal(opens_meta);
        lemma_meta_end();
    }
    lemma_lead_prefix(r);
    assert(r.subrange(0, m.len() as int) == m);
    assert(r.subrange(m.len() as int, (m.len() + e.len()) as int) == e);
    lemma_cut_behind(r, m, e);
    assert(r =~= m + e + from(r, (m.len() + e.len()) as int));
    assert(from(s, n) =~= from(r, (m.len() + e.len()) as int));
    assert(s.subrange(0, n) =~= c + m + e);
    assert(s =~= c + m + e + from(s, n));
}

/// An element that other text follows.
pub proof fn lemma_element_before(c: Seq<char>, m: Seq<char>, e: Seq<char>, y: Seq<char>)
    requires
        tidy::is_piece(c),
        !m.contains('<'),
        tidy::is_piece(e),
        e[1] == '/',
    ensures
        ({
            let s = c + m + e + y;
            &&& s.len() > 0
            &&& s[0] == '<'
            &&& piece(s) == c
            &&& tail(s) == m + e + y
            &&& lead(tail(s)) == m
            &&& text::is_at(tail(s), e, m.len() as int)
        }),
{
    let s = c + m + e + y;
    tidy::lemma_ends(c);
    lemma_one_piece(c, m + e + y);
    assert(s =~= c + (m + e + y));
    lemma_end_piece(e, y);
    lemma_no_tag(m);
    tidy::lemma_plain(m);
    tidy::lemma_lead_join(m, e + y);
    assert(m + e + y =~= m + (e + y));
    assert(m + lead(e + y) =~= m);
    assert((m + e + y).subrange(m.len() as int, (m.len() + e.len()) as int) =~= e);
}

/// A plain unit by itself is plain, and so is one that other text follows.
proof fn lemma_unit_again(s: Seq<char>, y: Seq<char>)
    requires
        is_tidy(s),
        is_tidy(y),
        s.len() > 0,
        unit_is_plain(s),
    ensures
        ({
            let u = s.subrange(0, unit_len(s));
            &&& is_tidy(u)
            &&& tidy::is_settled(u)
            &&& unit_len(u + y) == unit_len(s)
            &&& unit_is_plain(u + y)
            &&& starts_element(s) && opens_field(piece(s)) ==> told(u) == seq![
                (local(piece(s)), text::spec_trim(markup::spec_unescape(lead(tail(s))))),
            ]
            &&& !(starts_element(s) && opens_field(piece(s))) ==> told(u).len() == 0
        }),
{
    lemma_unit_len(s);
    tidy::lemma_tidy_tail(s);
    let u = s.subrange(0, unit_len(s));
    if starts_element(s) {
        lemma_unit_element(s);
        let c = piece(s);
        let m = lead(tail(s));
        let e = end_tag(c);
        lemma_element(c, m, e);
        lemma_element_before(c, m, e, y);
    } else if s[0] != '<' {
        assert(u =~= seq![s[0]]);
        assert(!u.contains('<')) by {
            assert(u[0] != '<');
        }
        tidy::lemma_plain(u);
        lemma_text_settled(u);
        assert((u + y)[0] == s[0]);
    } else {
        let c = piece(s);
        assert(s[1] == c[1]);
        assert(u =~= c);
        lemma_one_piece(c, y);
        lemma_quiet_piece(c);
    }
}

/// The unit that a plain text starts with, and what follows it.
pub proof fn lemma_unit(s: Seq<char>)
    requires
        is_tidy(s),
        s.len() > 0,
        unit_is_plain(s),
    ensures
        ({
            let n = unit_len(s);
            let u = s.subrange(0, n);
            &&& 0 < n <= s.len()
            &&& is_plain_opf(u)
            &&& is_tidy(from(s, n))
            &&& s == u + from(s, n)
            &&& tidy::is_settled(u)
            &&& starts_element(s) && opens_field(piece(s)) ==> told(u) == seq![
                (local(piece(s)), text::spec_trim(markup::spec_unescape(lead(tail(s))))),
            ]
            &&& !(starts_element(s) && opens_field(piece(s))) ==> told(u).len() == 0
            &&& s[0] == '<' && !starts_element(s) ==> u == piece(s)
        }),
{
    lemma_unit_len(s);
    tidy::lemma_tail(s);
    tidy::lemma_tidy_tail(s);
    let n = unit_len(s);
    let u = s.subrange(0, n);
    let none = Seq::<char>::empty();
    lemma_nothing();
    lemma_unit_again(s, none);
    assert(u + none =~= u);
    assert(from(u, n) =~= none);
    assert(is_plain(u));
    assert(s =~= u + from(s, n));
    if starts_element(s) {
        lemma_unit_element(s);
    } else {
        assert(from(s, n) =~= tail(s));
    }
}

pub proof fn lemma_nothing()
    ensures
        is_plain_opf(Seq::empty()),
        told(Seq::empty()).len() == 0,
{
    reveal(tidy::is_tidy);
}

/// The text before the first tag is the start of the text.
proof fn lemma_lead_prefix(s: Seq<char>)
    requires
        is_tidy(s),
    ensures
        lead(s).len() <= s.len(),
        s.subrange(0, lead(s).len() as int) == lead(s),
    decreases s.len(),
{
    if s.len() == 0 {
        assert(s.subrange(0, 0) =~= lead(s));
    } else {
        tidy::lemma_tail(s);
        tidy::lemma_tidy_tail(s);
        lemma_lead_prefix(tail(s));
        let n = lead(tail(s)).len() as int;
        if s[0] != '<' {
            assert(s.subrange(0, 1 + n) =~= seq![s[0]] + tail(s).subrange(0, n));
        } else if tidy::is_aside(s) {
            assert(s.subrange(0, piece(s).len() + n) =~= piece(s) + tail(s).subrange(0, n));
        } else {
            assert(s.subrange(0, 0) =~= lead(s));
        }
    }
}

/// What follows plain text and a piece in a tidy text is tidy.
proof fn lemma_cut_behind(r: Seq<char>, m: Seq<char>, e: Seq<char>)
    requires
        is_tidy(r),
        !m.contains('<'),
        tidy::is_piece(e),
        m.len() + e.len() <= r.len(),
        r.subrange(0, m.len() as int) == m,
        r.subrange(m.len() as int, (m.len() + e.len()) as int) == e,
    ensures
        is_tidy(from(r, ((m.len() + e.len()) as int) as int)),
    decreases m.len(),
{
    let k = (m.len() + e.len()) as int;
    tidy::lemma_ends(e);
    tidy::lemma_tidy_tail(r);
    if m.len() == 0 {
        tidy::lemma_piece_first(r, e);
    } else {
        let w = m.subrange(1, m.len() as int);
        let q = tail(r);
        assert(m[0] == r.subrange(0, m.len() as int)[0]);
        assert(m.contains(m[0]));
        assert forall|x: int| 0 <= x < w.len() implies #[trigger] w[x] != '<' by {
            assert(w[x] == m[x + 1]);
            assert(m.contains(m[x + 1]));
        }
        assert(q.subrange(0, w.len() as int) =~= r.subrange(0, m.len() as int).subrange(
            1,
            m.len() as int,
        ));
        assert(q.subrange(w.len() as int, k - 1) =~= r.subrange(m.len() as int, k));
        lemma_cut_behind(q, w, e);
        assert(from(q, k - 1) =~= from(r, k));
    }
}

/// Plain texts, put together, are plain.
pub proof fn lemma_plain_join(x: Seq<char>, y: Seq<char>)
    requires
        is_plain_opf(x),
        is_plain_opf(y),
    ensures
        is_plain_opf(x + y),
    decreases x.len(),
{
    tidy::lemma_tidy_join(x, y);
    if x.len() == 0 {
        assert(x + y =~= y);
    } else {
        lemma_unit(x);
        let n = unit_len(x);
        let u = x.subrange(0, n);
        let r = from(x, n);
        lemma_plain_join(r, y);
        tidy::lemma_tidy_join(r, y);
        lemma_unit_again(x, r + y);
        assert(x + y =~= u + (r + y));
        assert(from(x + y, n) =~= r + y);
    }
}

/// In a plain text the text of every field ends.
pub proof fn lemma_plain_settled(s: Seq<char>)
    requires
        is_plain_opf(s),
    ensures
        tidy::is_settled(s),
    decreases s.len(),
{
    if s.len() > 0 {
        lemma_unit(s);
        let n = unit_len(s);
        lemma_plain_settled(from(s, n));
        tidy::lemma_told_join(s.subrange(0, n), from(s, n));
    }
}

/// A plain text, cut between its units, is plain on both sides.
pub proof fn lemma_plain_cut(s: Seq<char>, k: int)
    requires
        is_plain_opf(s),
        is_between(s, k),
    ensures
        0 <= k <= s.len(),
        is_plain_opf(s.subrange(0, k)),
        is_plain_opf(from(s, k)),
        s == s.subrange(0, k) + from(s, k),
    decreases s.len(),
{
    if k == 0 {
        lemma_nothing();
        assert(s.subrange(0, 0) =~= Seq::<char>::empty());
        assert(from(s, 0) =~= s);
        assert(s =~= s.subrange(0, 0) + from(s, 0));
    } else {
        lemma_unit(s);
        let n = unit_len(s);
        let u = s.subrange(0, n);
        let r = from(s, n);
        lemma_plain_cut(r, k - n);
        assert(from(s, k) =~= from(r, k - n));
        lemma_plain_join(u, r.subrange(0, k - n));
        assert(s.subrange(0, k) =~= u + r.subrange(0, k - n));
        assert(s =~= s.subrange(0, k) + from(s, k));
    }
}

/// What stands in a piece and holds no `>` but at its end stands in it wholly.
proof fn lemma_within(s: Seq<char>, c: Seq<char>, x: int, p: Seq<char>)
    requires
        text::is_at(s, c, 0),
        c.len() > 0,
        c.last() == '>',
        0 <= x < c.len(),
        text::is_at(s, p, x),
        p.len() > 0,
        forall|k: int| 0 <= k < p.len() - 1 ==> #[trigger] p[k] != '>',
    ensures
        text::is_at(c, p, x),
{
    let n = c.len() as int;
    assert(s.subrange(0, n)[n - 1] == s[n - 1]);
    if x + p.len() > n {
        assert(s.subrange(x, x + p.len())[n - 1 - x] == p[n - 1 - x]);
    }
    assert(c.subrange(x, x + p.len()) =~= s.subrange(x, x + p.len()));
}

/// An end tag is not what is sought.
proof fn lemma_end_unsought(s: Seq<char>, x: int)
    requires
        0 <= x,
        text::is_at(s, "</dc:"@, x) || text::is_at(s, "</meta>"@, x),
    ensures
        !is_sought(s, x),
{
    reveal_strlit("<dc:");
    reveal_strlit("<meta");
    reveal_strlit("</metadata>");
    reveal_strlit("</dc:");
    reveal_strlit("</meta>");
    if text::is_at(s, "</dc:"@, x) {
        assert(s.subrange(x, x + 5)[1] == s[x + 1] && s.subrange(x, x + 5)[2] == s[x + 2]);
    } else {
        assert(s.subrange(x, x + 7)[1] == s[x + 1] && s.subrange(x, x + 7)[6] == s[x + 6]);
    }
    if text::is_at(s, "<dc:"@, x) {
        assert(s.subrange(x, x + 4)[1] == s[x + 1]);
    }
    if text::is_at(s, "<meta"@, x) {
        assert(s.subrange(x, x + 5)[1] == s[x + 1]);
    }
    if text::is_at(s, "</metadata>"@, x) {
        assert(s.subrange(x, x + 11)[2] == s[x + 2] && s.subrange(x, x + 11)[6] == s[x + 6]);
    }
}

/// Inside an aside that a text starts with nothing is sought.
proof fn lemma_inside_aside(s: Seq<char>, x: int)
    requires
        is_plain_opf(s),
        s.len() > 0,
        s[0] == '<',
        tidy::is_aside(piece(s)),
        0 < x < piece(s).len(),
    ensures
        !is_sought(s, x),
{
    let c = piece(s);
    tidy::lemma_tidy_tail(s);
    tidy::lemma_ends(c);
    assert(s.subrange(0, c.len() as int) =~= c);
    reveal_strlit("<dc:");
    reveal_strlit("<meta");
    reveal_strlit("</metadata>");
    reveal(is_quiet);
    assert(!is_sought(c, x));
    if text::is_at(s, "<dc:"@, x) {
        lemma_within(s, c, x, "<dc:"@);
    }
    if text::is_at(s, "<meta"@, x) {
        lemma_within(s, c, x, "<meta"@);
    }
    if text::is_at(s, "</metadata>"@, x) {
        lemma_within(s, c, x, "</metadata>"@);
    }
}

/// Inside a unit nothing is sought.
#[verifier::rlimit(30)]
proof fn lemma_inside_unit(s: Seq<char>, x: int)
    requires
        is_plain_opf(s),
        s.len() > 0,
        s[0] == '<',
        0 < x < unit_len(s),
        s[x] == '<',
    ensures
        !is_sought(s, x),
{
    let c = piece(s);
    tidy::lemma_tidy_tail(s);
    if starts_element(s) {
        lemma_unit_element(s);
        let m = lead(tail(s));
        let e = end_tag(c);
        lemma_meta_end();
        if opens_field(c) {
            lemma_end_tag(local(c));
        }
        lemma_opens_tag(c);
        let w = c + m + e;
        assert(s[x] == w[x]);
        if x < c.len() {
            assert(w[x] == c[x]);
            tidy::lemma_inner(c, x);
        } else if x < c.len() + m.len() {
            assert(w[x] == m[x - c.len()]);
            assert(m.contains(m[x - c.len()]));
        } else {
            let i = x - c.len() - m.len();
            assert(w[x] == e[i]);
            if i > 0 {
                tidy::lemma_inner(e, i);
            }
            assert(s.subrange(x, x + e.len()) =~= e);
            reveal_strlit("</dc:");
            if opens_field(c) {
                assert(s.subrange(x, x + 5) =~= e.subrange(0, 5));
                assert(e.subrange(0, 5) =~= "</dc:"@);
            }
            lemma_end_unsought(s, x);
        }
    } else if tidy::is_aside(c) {
        lemma_inside_aside(s, x);
    } else {
        assert(s[x] == c[x]);
        tidy::lemma_inner(c, x);
    }
}

proof fn lemma_opens_tag(c: Seq<char>)
    requires
        opens_field(c) || opens_meta(c),
    ensures
        !tidy::is_aside(c),
{
    reveal(opens_meta);
}

/// What is sought stands between two units.
pub proof fn lemma_between(s: Seq<char>, x: int)
    requires
        is_plain_opf(s),
        is_sought(s, x),
    ensures
        is_between(s, x),
        0 <= x < s.len(),
        s[x] == '<',
    decreases s.len(),
{
    reveal_strlit("<dc:");
    reveal_strlit("<meta");
    reveal_strlit("</metadata>");
    assert(s[x] == '<') by {
        if text::is_at(s, "<dc:"@, x) {
            assert(s.subrange(x, x + 4)[0] == s[x]);
        } else if text::is_at(s, "<meta"@, x) {
            assert(s.subrange(x, x + 5)[0] == s[x]);
        } else {
            assert(s.subrange(x, x + 11)[0] == s[x]);
        }
    }
    if x > 0 {
        lemma_unit(s);
        let n = unit_len(s);
        assert(x >= n) by {
            if x < n && s[0] == '<' {
                lemma_inside_unit(s, x);
            }
        }
        let r = from(s, n);
        if text::is_at(s, "<dc:"@, x) {
            assert(s.subrange(x, x + 4) =~= r.subrange(x - n, x - n + 4));
        }
        if text::is_at(s, "<meta"@, x) {
            assert(s.subrange(x, x + 5) =~= r.subrange(x - n, x - n + 5));
        }
        if text::is_at(s, "</metadata>"@, x) {
            assert(s.subrange(x, x + 11) =~= r.subrange(x - n, x - n + 11));
        }
        lemma_between(r, x - n);
    }
}

/// Behind a unit stands the next.
pub proof fn lemma_between_next(s: Seq<char>, x: int)
    requires
        is_plain_opf(s),
        is_between(s, x),
        x < s.len(),
    ensures
        is_between(s, x + unit_len(from(s, x))),
        unit_is_plain(from(s, x)),
        0 < unit_len(from(s, x)) <= s.len() - x,
    decreases s.len(),
{
    lemma_unit(s);
    let n = unit_len(s);
    if x == 0 {
        assert(from(s, 0) =~= s);
        assert(is_between(from(s, n), 0));
    } else {
        lemma_between_next(from(s, n), x - n);
        assert(from(from(s, n), x - n) =~= from(s, x));
    }
}

/// Between two places between units, the second is one for what starts at the
/// first.
pub proof fn lemma_between_from(s: Seq<char>, a: int, b: int)
    requires
        is_plain_opf(s),
        is_between(s, a),
        is_between(s, b),
        a <= b,
    ensures
        is_between(from(s, a), b - a),
    decreases s.len(),
{
    if a == 0 {
        assert(from(s, 0) =~= s);
    } else {
        lemma_unit(s);
        lemma_plain_cut(s, a);
        let n = unit_len(s);
        lemma_between_from(from(s, n), a - n, b - n);
        assert(from(from(s, n), a - n) =~= from(s, a));
    }
}

/// In text before a place between units every place is one.
pub proof fn lemma_between_back(s: Seq<char>, f: int, a: int)
    requires
        is_plain_opf(s),
        is_between(s, a),
        0 <= f <= a,
        forall|i: int| f <= i < a ==> (#[trigger] s[i]) != '>',
    ensures
        is_between(s, f),
    decreases s.len(),
{
    if f > 0 {
        lemma_unit(s);
        lemma_plain_cut(s, a);
        let n = unit_len(s);
        if n <= f {
            assert forall|i: int| f - n <= i < a - n implies (#[trigger] from(s, n)[i]) != '>' by {
                assert(from(s, n)[i] == s[i + n]);
            }
            lemma_between_back(from(s, n), f - n, a - n);
        } else if s[0] == '<' {
            lemma_unit_ends(s);
            assert(s[n - 1] == '>');
        }
    }
}

/// A unit that starts with a piece ends with one.
proof fn lemma_unit_ends(s: Seq<char>)
    requires
        is_tidy(s),
        s.len() > 0,
        s[0] == '<',
        unit_is_plain(s),
    ensures
        s[unit_len(s) - 1] == '>',
{
    let n = unit_len(s);
    tidy::lemma_tidy_tail(s);
    if starts_element(s) {
        lemma_unit_element(s);
        let e = end_tag(piece(s));
        tidy::lemma_ends(e);
        let w = piece(s) + lead(tail(s)) + e;
        assert(s.subrange(0, n)[n - 1] == w[n - 1]);
        assert(w[n - 1] == e[e.len() - 1]);
    } else {
        tidy::lemma_ends(piece(s));
        assert(s[n - 1] == piece(s)[n - 1]);
    }
}

} // verus!
