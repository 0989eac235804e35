//! A page of links is read as its links: each label with the document that it leads to.
use vstd::prelude::*;

use crate::toc::Toc;
use crate::{escaping, headings_read, markup, metadata_edit, read_back, structure, text, toc, toc_repair};

verus! {

/// A link: what stands before it, where it leads, and its label.
pub struct Link {
    pub before: Seq<char>,
    pub href: Seq<char>,
    pub label: Seq<char>,
}

/// The link as it is written.
pub open spec fn link_text(l: Link) -> Seq<char> {
    "<a href=\""@ + l.href + "\">"@ + markup::spec_escape_text(l.label) + "</a>"@
}

/// The page from the `k`-th link on.
pub open spec fn page(v: Seq<Link>, tail: Seq<char>, k: int) -> Seq<char>
    decreases v.len() - k,
{
    if 0 <= k < v.len() {
        v[k].before + link_text(v[k]) + page(v, tail, k + 1)
    } else {
        tail
    }
}

/// No link stands in the text.
pub open spec fn is_linkless(s: Seq<char>) -> bool {
    !text::spec_contains(s, "<a "@)
}

/// A target that can be written as it is.
pub open spec fn is_target(h: Seq<char>) -> bool {
    !h.contains('"') && !h.contains('>') && !h.contains('\'')
}

pub open spec fn are_links(v: Seq<Link>, tail: Seq<char>) -> bool {
    &&& is_linkless(tail)
    &&& forall|k: int| 0 <= k < v.len() ==> is_linkless((#[trigger] v[k]).before) && is_target(v[k].href)
}

/// The links from the `k`-th on that lead to another document of the spine.
pub open spec fn leading(
    v: Seq<Link>,
    dir: Seq<char>,
    files: Seq<Seq<char>>,
    own: Seq<char>,
    k: int,
) -> Seq<(Seq<char>, Seq<char>)>
    decreases v.len() - k,
{
    if 0 <= k < v.len() {
        let file = structure::spec_basename(v[k].href);
        (if file != own && files.contains(file) {
            seq![(v[k].label, structure::spec_resolve_href(dir, v[k].href))]
        } else {
            Seq::empty()
        }) + leading(v, dir, files, own, k + 1)
    } else {
        Seq::empty()
    }
}

/// The pattern of a link is not found over the edge of a text without one.
proof fn lemma_edge(a: Seq<char>, b: Seq<char>, m: int)
    requires
        is_linkless(a),
        0 <= m < a.len(),
        b.len() > 0 ==> b[0] == '<' || a.len() - m > 2,
    ensures
        !text::is_at(a + b, "<a "@, m),
{
    reveal_strlit("<a ");
    let p = "<a "@;
    let t = a + b;
    text::lemma_find(a, p, 0);
    if text::is_at(t, p, m) {
        let s = t.subrange(m, m + 3);
        assert(s[0] == t[m] && s[1] == t[m + 1] && s[2] == t[m + 2]);
        if m + 3 <= a.len() {
            assert(a.subrange(m, m + 3) =~= s);
            assert(text::is_at(a, p, m));
        } else {
            assert(t[a.len() as int] == b[0]);
        }
    }
}

proof fn lemma_first_link(t: Seq<char>, a: Seq<char>, i: int, rest: Seq<char>)
    requires
        is_linkless(a),
        0 <= i <= t.len(),
        t.subrange(i, t.len() as int) == a + "<a href=\""@ + rest,
    ensures
        text::spec_find(t, "<a "@, i) == Some((i + a.len()) as int),
{
    reveal_strlit("<a ");
    reveal_strlit("<a href=\"");
    let p = "<a "@;
    let u = t.subrange(i, t.len() as int);
    let b = "<a href=\""@ + rest;
    assert(u =~= a + b);
    let n = (i + a.len()) as int;
    assert(t.subrange(n, n + 3) =~= u.subrange(a.len() as int, (a.len() + 3) as int));
    assert(u.subrange(a.len() as int, (a.len() + 3) as int) =~= p);
    assert forall|m: int| i <= m < n implies !#[trigger] text::is_at(t, p, m) by {
        if text::is_at(t, p, m) {
            lemma_edge(a, b, m - i);
            assert(u.subrange(m - i, m - i + 3) =~= t.subrange(m, m + 3));
            assert(text::is_at(u, p, m - i));
        }
    }
    metadata_edit::lemma_find_is(t, p, i, n);
}

proof fn lemma_no_link(t: Seq<char>, a: Seq<char>, i: int)
    requires
        is_linkless(a),
        0 <= i <= t.len(),
        t.subrange(i, t.len() as int) == a,
    ensures
        text::spec_find(t, "<a "@, i) is None,
{
    reveal_strlit("<a ");
    let p = "<a "@;
    text::lemma_find(t, p, i);
    text::lemma_find(a, p, 0);
    if let Some(m) = text::spec_find(t, p, i) {
        assert(a.subrange(m - i, m - i + 3) =~= t.subrange(m, m + 3));
        assert(text::is_at(a, p, m - i));
    }
}

/// The target is read from the link's tag.
proof fn lemma_target(h: Seq<char>)
    requires
        is_target(h),
    ensures
        markup::spec_attr_value("href=\""@ + h + "\""@, "href"@) == Some(h),
{
    reveal_strlit("href=\"");
    reveal_strlit("\"");
    reveal_strlit("href");
    let t = "href=\""@ + h + "\""@;
    let needle = "href"@.push('=');
    assert(t.subrange(0, 5) =~= needle);
    assert(text::is_at(t, needle, 0));
    assert(text::spec_find(t, needle, 0) == Some(0int));
    let n = h.len() as int;
    assert(t[5] == '"' && t[6 + n] == '"');
    assert forall|k: int| 6 <= k < 6 + n implies #[trigger] t[k] != '"' by {
        assert(t[k] == h[k - 6]);
        assert(h.contains(h[k - 6]));
    }
    read_back::lemma_find_char_is(t, '"', 6, 6 + n);
    assert(t.subrange(6, 6 + n) =~= h);
}

/// What a link gives, and where the search for the next goes on.
proof fn lemma_link(
    t: Seq<char>,
    l: Link,
    i: int,
    rest: Seq<char>,
    dir: Seq<char>,
    files: Seq<Seq<char>>,
    own: Seq<char>,
)
    requires
        is_linkless(l.before),
        is_target(l.href),
        0 <= i <= t.len(),
        t.subrange(i, t.len() as int) == l.before + link_text(l) + rest,
    ensures
        ({
            let g = i + l.before.len() + 10 + l.href.len();
            let file = structure::spec_basename(l.href);
            &&& i < g < t.len()
            &&& structure::links_from(t, dir, files, own, i) == (if file != own && files.contains(file) {
                seq![(l.label, structure::spec_resolve_href(dir, l.href))]
            } else {
                Seq::empty()
            }) + structure::links_from(t, dir, files, own, g)
            &&& t.subrange(g, t.len() as int) == ">"@ + markup::spec_escape_text(l.label) + "</a>"@ + rest
        }),
{
    reveal_strlit("<a href=\"");
    reveal_strlit("\">");
    reveal_strlit("</a>");
    reveal_strlit("<a ");
    reveal_strlit(">");
    reveal_strlit("href=\"");
    reveal_strlit("\"");
    let esc = markup::spec_escape_text(l.label);
    escaping::escaping_leaves_no_markup(l.label);
    escaping::unescaping_undoes_escaping(l.label);
    let u = t.subrange(i, t.len() as int);
    let m = l.before.len() as int;
    let n = l.href.len() as int;
    let r = l.href + "\">"@ + esc + "</a>"@ + rest;
    assert(u =~= l.before + "<a href=\""@ + r);
    lemma_first_link(t, l.before, i, r);
    let p = i + m;
    let g = p + 10 + n;
    assert(u[m + 9 + n] == '"' && u[m + 10 + n] == '>');
    assert(t[g] == u[g - i]);
    assert forall|k: int| p + 3 <= k < g implies #[trigger] t[k] != '>' by {
        assert(t[k] == u[k - i]);
        if k - p >= 9 && k - p < 9 + n {
            assert(u[k - i] == l.href[k - p - 9]);
            assert(l.href.contains(l.href[k - p - 9]));
        }
    }
    read_back::lemma_find_char_is(t, '>', p + 3, g);
    assert(t.subrange(p + 3, g) =~= "href=\""@ + l.href + "\""@) by {
        assert(t.subrange(p + 3, g) =~= u.subrange(m + 3, m + 10 + n));
    }
    lemma_target(l.href);
    let w = t.subrange(g, t.len() as int);
    assert(w =~= u.subrange(m + 10 + n, u.len() as int));
    assert(w =~= ">"@ + esc + "</a>"@ + rest);
    lemma_label(t, g, esc, rest);
}

proof fn lemma_label(t: Seq<char>, g: int, esc: Seq<char>, rest: Seq<char>)
    requires
        0 <= g < t.len(),
        t.subrange(g, t.len() as int) == ">"@ + esc + "</a>"@ + rest,
        !esc.contains('<'),
    ensures
        structure::link_label(t, g) == markup::spec_unescape(esc),
{
    reveal_strlit("</a>");
    reveal_strlit(">");
    let p = "</a>"@;
    let w = t.subrange(g, t.len() as int);
    let n = esc.len() as int;
    assert(t.subrange(g + 1 + n, g + 1 + n + 4) =~= w.subrange(1 + n, 1 + n + 4));
    assert(w.len() == 1 + n + 4 + rest.len());
    assert(w.subrange(1 + n, 1 + n + 4) =~= p);
    assert(text::is_at(t, p, g + 1 + n));
    assert forall|k: int| g + 1 <= k < g + 1 + n implies !#[trigger] text::is_at(t, p, k) by {
        if text::is_at(t, p, k) {
            assert(t.subrange(k, k + 4)[0] == t[k]);
            assert(t[k] == w[k - g]);
            assert(w[k - g] == esc[k - g - 1]);
            assert(esc.contains(esc[k - g - 1]));
        }
    }
    metadata_edit::lemma_find_is(t, p, g + 1, g + 1 + n);
    assert(t.subrange(g + 1, g + 1 + n) =~= w.subrange(1, 1 + n));
    assert(w.subrange(1, 1 + n) =~= esc);
    headings_read::lemma_strip_none(esc, 0);
    assert(esc.subrange(0, n) =~= esc);
}

/// Behind a link no other is found before what follows it.
proof fn lemma_behind(
    t: Seq<char>,
    g: int,
    esc: Seq<char>,
    rest: Seq<char>,
    dir: Seq<char>,
    files: Seq<Seq<char>>,
    own: Seq<char>,
)
    requires
        0 <= g < t.len(),
        t.subrange(g, t.len() as int) == ">"@ + esc + "</a>"@ + rest,
        !esc.contains('<'),
    ensures
        structure::links_from(t, dir, files, own, g) == structure::links_from(
            t,
            dir,
            files,
            own,
            g + 1 + esc.len() + 4,
        ),
        t.subrange(g + 1 + esc.len() + 4, t.len() as int) == rest,
        g + 1 + esc.len() + 4 <= t.len(),
{
    reveal_strlit("</a>");
    reveal_strlit(">");
    reveal_strlit("<a ");
    let p = "<a "@;
    let w = t.subrange(g, t.len() as int);
    let n = esc.len() as int;
    let e = g + 1 + n + 4;
    assert(t.subrange(e, t.len() as int) =~= w.subrange(1 + n + 4, w.len() as int));
    assert(w.subrange(1 + n + 4, w.len() as int) =~= rest);
    assert forall|k: int| g <= k < e implies !#[trigger] text::is_at(t, p, k) by {
        if text::is_at(t, p, k) {
            let s = t.subrange(k, k + 3);
            assert(s[0] == t[k] && s[1] == t[k + 1]);
            assert(t[k] == w[k - g] && t[k + 1] == w[k + 1 - g]);
            if k > g && k < g + 1 + n {
                assert(w[k - g] == esc[k - g - 1]);
                assert(esc.contains(esc[k - g - 1]));
            }
        }
    }
    text::lemma_find(t, p, e);
    text::lemma_find(t, p, g);
    match text::spec_find(t, p, e) {
        Some(k) => {
            metadata_edit::lemma_find_is(t, p, g, k);
        },
        None => {
            if let Some(k) = text::spec_find(t, p, g) {
                assert(text::is_at(t, p, k));
            }
        },
    }
}

proof fn lemma_page(
    t: Seq<char>,
    v: Seq<Link>,
    tail: Seq<char>,
    i: int,
    k: int,
    dir: Seq<char>,
    files: Seq<Seq<char>>,
    own: Seq<char>,
)
    requires
        are_links(v, tail),
        0 <= k <= v.len(),
        0 <= i <= t.len(),
        t.subrange(i, t.len() as int) == page(v, tail, k),
    ensures
        structure::links_from(t, dir, files, own, i) == leading(v, dir, files, own, k),
    decreases v.len() - k,
{
    if k < v.len() {
        let l = v[k];
        assert(is_linkless(l.before) && is_target(l.href));
        let rest = page(v, tail, k + 1);
        let esc = markup::spec_escape_text(l.label);
        escaping::escaping_leaves_no_markup(l.label);
        lemma_link(t, l, i, rest, dir, files, own);
        let g = i + l.before.len() + 10 + l.href.len();
        lemma_behind(t, g, esc, rest, dir, files, own);
        lemma_page(t, v, tail, g + 1 + esc.len() + 4, k + 1, dir, files, own);
    } else {
        lemma_no_link(t, tail, i);
    }
}

/// A page of links is read as its links to other documents of the spine, in order: the
/// label of each, and the document and the place in it that it leads to.
pub proof fn a_page_of_links_is_read_as_its_links(
    v: Seq<Link>,
    tail: Seq<char>,
    dir: Seq<char>,
    files: Seq<Seq<char>>,
    own: Seq<char>,
)
    requires
        are_links(v, tail),
    ensures
        structure::links_from(page(v, tail, 0), dir, files, own, 0) == leading(v, dir, files, own, 0),
{
    let t = page(v, tail, 0);
    assert(t.subrange(0, t.len() as int) =~= t);
    lemma_page(t, v, tail, 0, 0, dir, files, own);
}

/// The entries for links that each lead to a place of their own.
pub open spec fn link_entries(v: Seq<(Seq<char>, Seq<char>)>) -> Seq<Toc> {
    v.map_values(
        |l: (Seq<char>, Seq<char>)| toc_repair::leaf(toc_repair::spec_clean_label(l.0), l.1),
    )
}

proof fn lemma_label_for(v: Seq<(Seq<char>, Seq<char>)>, k: int, i: int)
    requires
        0 <= i <= k < v.len(),
        forall|a: int, b: int| 0 <= a < b < v.len() ==> (#[trigger] v[a]).1 != (#[trigger] v[b]).1,
        toc_repair::spec_clean_label(v[k].0).len() > 0,
    ensures
        toc_repair::label_for(v, v[k].1, i) == toc_repair::spec_clean_label(v[k].0),
    decreases k - i,
{
    if i < k {
        assert(v[i].1 != v[k].1);
        lemma_label_for(v, k, i + 1);
    }
}

proof fn lemma_deduped(v: Seq<(Seq<char>, Seq<char>)>, n: int)
    requires
        0 <= n <= v.len(),
        forall|a: int, b: int| 0 <= a < b < v.len() ==> (#[trigger] v[a]).1 != (#[trigger] v[b]).1,
        forall|k: int| 0 <= k < v.len() ==> headings_read::unspaced((#[trigger] v[k]).0, 0).len() > 0,
    ensures
        toc_repair::deduped_to(v, n) == link_entries(v).take(n),
    decreases n,
{
    let all = link_entries(v);
    if n > 0 {
        lemma_deduped(v, n - 1);
        let before = toc_repair::deduped_to(v, n - 1);
        let href = v[n - 1].1;
        assert(!toc_repair::leads_to(before, href)) by {
            if toc_repair::leads_to(before, href) {
                let i = choose|i: int| 0 <= i < before.len() && (#[trigger] before[i]).href == href;
                assert(before[i] == all[i]);
                assert(v[i].1 != v[n - 1].1);
            }
        }
        assert(headings_read::unspaced(v[n - 1].0, 0).len() > 0);
        headings_read::a_label_keeps_its_text(v[n - 1].0);
        lemma_label_for(v, n - 1, 0);
        assert(all.take(n) =~= all.take(n - 1).push(all[n - 1]));
    } else {
        assert(all.take(0) =~= Seq::empty());
    }
}

/// Links that each lead to a place of their own, with labels that are not blank, are an
/// entry each, in order, under their labels.
pub proof fn each_link_is_an_entry(v: Seq<(Seq<char>, Seq<char>)>)
    requires
        forall|a: int, b: int| 0 <= a < b < v.len() ==> (#[trigger] v[a]).1 != (#[trigger] v[b]).1,
        forall|k: int| 0 <= k < v.len() ==> headings_read::unspaced((#[trigger] v[k]).0, 0).len() > 0,
    ensures
        toc_repair::spec_dedup(v) == link_entries(v),
{
    lemma_deduped(v, v.len() as int);
    assert(link_entries(v).take(v.len() as int) =~= link_entries(v));
}

} // verus!
