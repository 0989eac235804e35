//! A document that opens with a heading, of whatever level, is labelled by it, and a
//! book that tells its chapters by headings alone gets an entry for each.
use vstd::prelude::*;

use crate::archive::Part;
use crate::opf::Book;
use crate::toc::Toc;
use crate::{escaping, markup, metadata_edit, nav_doc, package, read_back, text, toc, toc_repair, toc_shape};

verus! {

// ---------------------------------------------------------------- labels

proof fn lemma_closed_plain(s: Seq<char>, i: int)
    requires
        0 <= i <= s.len(),
        forall|k: int| 0 <= k < s.len() ==> !nav_doc::is_markup_space(#[trigger] s[k]),
    ensures
        toc_repair::closed_up(s, i, false) == s.subrange(i, s.len() as int),
    decreases s.len() - i,
{
    if i < s.len() {
        lemma_closed_plain(s, i + 1);
        assert(seq![s[i]] + s.subrange(i + 1, s.len() as int) =~= s.subrange(i, s.len() as int));
    } else {
        assert(s.subrange(i, i) =~= Seq::empty());
    }
}

/// The text of a label from `i` on without its markup space.
pub open spec fn unspaced(s: Seq<char>, i: int) -> Seq<char>
    decreases s.len() - i,
{
    if i < 0 || i >= s.len() {
        Seq::empty()
    } else if s[i] == ' ' || s[i] == '\n' || s[i] == '\r' || s[i] == '\t' {
        unspaced(s, i + 1)
    } else {
        seq![s[i]] + unspaced(s, i + 1)
    }
}

proof fn lemma_unspaced_join(a: Seq<char>, b: Seq<char>, i: int)
    requires
        0 <= i <= a.len(),
    ensures
        unspaced(a + b, i) == unspaced(a, i) + unspaced(b, 0),
    decreases a.len() - i,
{
    if i < a.len() {
        assert((a + b)[i] == a[i]);
        lemma_unspaced_join(a, b, i + 1);
        assert(seq![a[i]] + (unspaced(a, i + 1) + unspaced(b, 0)) =~= seq![a[i]] + unspaced(a, i + 1)
            + unspaced(b, 0));
    } else {
        lemma_unspaced_shift(a, b, 0);
        assert(unspaced(a, i) + unspaced(b, 0) =~= unspaced(b, 0));
    }
}

proof fn lemma_unspaced_shift(a: Seq<char>, b: Seq<char>, j: int)
    requires
        0 <= j <= b.len(),
    ensures
        unspaced(a + b, a.len() + j) == unspaced(b, j),
    decreases b.len() - j,
{
    if j < b.len() {
        assert((a + b)[a.len() + j] == b[j]);
        lemma_unspaced_shift(a, b, j + 1);
    }
}

/// Closing up loses no character but markup space, and leaves no two spaces in a row.
proof fn lemma_closed(s: Seq<char>, i: int, gap: bool)
    requires
        0 <= i <= s.len(),
    ensures
        ({
            let r = toc_repair::closed_up(s, i, gap);
            &&& unspaced(r, 0) == unspaced(s, i)
            &&& forall|k: int|
                0 <= k < r.len() ==> #[trigger] r[k] != '\n' && r[k] != '\r' && r[k] != '\t'
            &&& forall|k: int| 0 < k < r.len() ==> !(#[trigger] r[k] == ' ' && r[k - 1] == ' ')
            &&& gap && r.len() > 0 ==> r[0] != ' '
        }),
    decreases s.len() - i,
{
    let r = toc_repair::closed_up(s, i, gap);
    if i < s.len() {
        if nav_doc::is_markup_space(s[i]) {
            lemma_closed(s, i + 1, true);
            let q = toc_repair::closed_up(s, i + 1, true);
            if !gap {
                lemma_unspaced_join(seq![' '], q, 0);
                assert(unspaced(seq![' '], 0) =~= Seq::empty()) by {
                    assert(unspaced(seq![' '], 1) =~= Seq::empty());
                }
                assert(Seq::<char>::empty() + unspaced(q, 0) =~= unspaced(q, 0));
                assert forall|k: int| 0 <= k < r.len() implies #[trigger] r[k] != '\n' && r[k] != '\r' && r[k]
                    != '\t' by {
                    if k > 0 {
                        assert(r[k] == q[k - 1]);
                    }
                }
                assert forall|k: int| 0 < k < r.len() implies !(#[trigger] r[k] == ' ' && r[k - 1] == ' ') by {
                    assert(r[k] == q[k - 1]);
                    if k > 1 {
                        assert(r[k - 1] == q[k - 2]);
                    }
                }
            }
        } else {
            lemma_closed(s, i + 1, false);
            let q = toc_repair::closed_up(s, i + 1, false);
            let c = seq![s[i]];
            lemma_unspaced_join(c, q, 0);
            assert(unspaced(c, 1) =~= Seq::empty());
            assert(unspaced(c, 0) =~= c);
            assert forall|k: int| 0 <= k < r.len() implies #[trigger] r[k] != '\n' && r[k] != '\r' && r[k]
                != '\t' by {
                if k > 0 {
                    assert(r[k] == q[k - 1]);
                }
            }
            assert forall|k: int| 0 < k < r.len() implies !(#[trigger] r[k] == ' ' && r[k - 1] == ' ') by {
                assert(r[k] == q[k - 1]);
                if k > 1 {
                    assert(r[k - 1] == q[k - 2]);
                }
            }
        }
    }
}

proof fn lemma_skip_markup(s: Seq<char>, i: int)
    requires
        0 <= i <= s.len(),
    ensures
        i <= nav_doc::skip_markup(s, i) <= s.len(),
        forall|k: int| i <= k < nav_doc::skip_markup(s, i) ==> nav_doc::is_markup_space(#[trigger] s[k]),
        nav_doc::skip_markup(s, i) < s.len() ==> !nav_doc::is_markup_space(s[nav_doc::skip_markup(s, i)]),
    decreases s.len() - i,
{
    if i < s.len() && nav_doc::is_markup_space(s[i]) {
        lemma_skip_markup(s, i + 1);
    }
}

proof fn lemma_back_markup(s: Seq<char>, i: int, j: int)
    requires
        0 <= i <= j <= s.len(),
    ensures
        i <= nav_doc::back_markup(s, i, j) <= j,
        forall|k: int| nav_doc::back_markup(s, i, j) <= k < j ==> nav_doc::is_markup_space(#[trigger] s[k]),
        i < nav_doc::back_markup(s, i, j) ==> !nav_doc::is_markup_space(s[nav_doc::back_markup(s, i, j) - 1]),
    decreases j - i,
{
    if i < j && nav_doc::is_markup_space(s[j - 1]) {
        lemma_back_markup(s, i, j - 1);
    }
}

proof fn lemma_unspaced_none(s: Seq<char>, i: int)
    requires
        0 <= i <= s.len(),
        forall|k: int| 0 <= k < s.len() ==> nav_doc::is_markup_space(#[trigger] s[k]),
    ensures
        unspaced(s, i) == Seq::<char>::empty(),
    decreases s.len() - i,
{
    if i < s.len() {
        assert(nav_doc::is_markup_space(s[i]));
        lemma_unspaced_none(s, i + 1);
    }
}

/// A label keeps every character but markup space, in order; of that it holds single
/// spaces between others alone. Text without markup space is its own label.
pub proof fn a_label_keeps_its_text(s: Seq<char>)
    ensures
        ({
            let r = toc_repair::spec_clean_label(s);
            &&& unspaced(r, 0) == unspaced(s, 0)
            &&& forall|k: int|
                0 <= k < r.len() ==> #[trigger] r[k] != '\n' && r[k] != '\r' && r[k] != '\t'
            &&& forall|k: int| 0 < k < r.len() ==> !(#[trigger] r[k] == ' ' && r[k - 1] == ' ')
            &&& r.len() > 0 ==> r[0] != ' ' && r.last() != ' '
        }),
        (forall|k: int|
            0 <= k < s.len() ==> #[trigger] s[k] != ' ' && s[k] != '\n' && s[k] != '\r' && s[k] != '\t')
            ==> toc_repair::spec_clean_label(s) == s,
{
    let c = toc_repair::closed_up(s, 0, false);
    let n = c.len() as int;
    lemma_closed(s, 0, false);
    lemma_skip_markup(c, 0);
    let i = nav_doc::skip_markup(c, 0);
    lemma_back_markup(c, i, n);
    let j = nav_doc::back_markup(c, i, n);
    let r = c.subrange(i, j);
    let a = c.subrange(0, i);
    let b = c.subrange(j, n);
    assert(c =~= a + (r + b));
    lemma_unspaced_join(a, r + b, 0);
    lemma_unspaced_join(r, b, 0);
    lemma_unspaced_none(a, 0);
    lemma_unspaced_none(b, 0);
    assert(Seq::<char>::empty() + (unspaced(r, 0) + Seq::<char>::empty()) =~= unspaced(r, 0));
    assert forall|k: int| 0 < k < r.len() implies !(#[trigger] r[k] == ' ' && r[k - 1] == ' ') by {
        assert(r[k] == c[i + k] && r[k - 1] == c[i + k - 1]);
    }
    if r.len() > 0 {
        assert(r[0] == c[i] && r.last() == c[j - 1]);
    }
    if forall|k: int|
        0 <= k < s.len() ==> #[trigger] s[k] != ' ' && s[k] != '\n' && s[k] != '\r' && s[k] != '\t' {
        lemma_closed_plain(s, 0);
        assert(c =~= s);
        if s.len() > 0 {
            assert(s[0] != ' ' && s[n - 1] != ' ');
        }
        assert(r =~= s);
    }
}

// ---------------------------------------------------------------- headings

/// A document that opens with a heading: what stands before its body, what stands
/// before the heading, the heading's level, what its tag holds behind its name, its
/// text, and what follows it.
pub struct Headed {
    pub before: Seq<char>,
    pub between: Seq<char>,
    pub level: char,
    pub attrs: Seq<char>,
    pub text: Seq<char>,
    pub rest: Seq<char>,
}

/// The heading as it is written.
pub open spec fn heading(d: Headed) -> Seq<char> {
    "<h"@ + seq![d.level] + d.attrs + ">"@ + markup::spec_escape_text(d.text) + "</h"@ + seq![d.level] + ">"@
}

/// The document as it is written.
pub open spec fn document(d: Headed) -> Seq<char> {
    d.before + "<body"@ + d.between + heading(d) + d.rest
}

/// No heading starts in the text.
pub open spec fn is_headless(s: Seq<char>) -> bool {
    forall|k: int|
        0 <= k < s.len() - 2 ==> !(#[trigger] s[k] == '<' && (s[k + 1] == 'h' || s[k + 1] == 'H')
            && '0' <= s[k + 2] <= '9')
}

pub open spec fn is_headed(d: Headed) -> bool {
    &&& !text::spec_contains(d.before, "<body"@)
    &&& is_headless(d.between)
    &&& '1' <= d.level <= '6'
    &&& d.attrs.len() > 0 ==> text::is_ascii_white(d.attrs[0])
    &&& !d.attrs.contains('>')
    &&& unspaced(d.text, 0).len() > 0
}

/// The id that the heading's tag holds.
pub open spec fn heading_id(d: Headed) -> Option<Seq<char>> {
    markup::spec_attr_value("<h"@ + seq![d.level] + d.attrs, "id"@)
}

proof fn lemma_body(a: Seq<char>, b: Seq<char>)
    requires
        !text::spec_contains(a, "<body"@),
    ensures
        text::spec_find(a + "<body"@ + b, "<body"@, 0) == Some(a.len() as int),
{
    reveal_strlit("<body");
    let p = "<body"@;
    let t = a + p + b;
    let n = a.len() as int;
    text::lemma_find(t, p, 0);
    text::lemma_find(a, p, 0);
    assert(t.subrange(n, n + 5) =~= p);
    assert(text::is_at(t, p, n));
    let k = text::spec_find(t, p, 0)->0;
    if k < n {
        if k + 5 <= n {
            assert(t.subrange(k, k + 5) =~= a.subrange(k, k + 5));
            assert(text::is_at(a, p, k));
        } else {
            assert(t[n] == '<');
            assert(t.subrange(k, k + 5)[n - k] == t[n]);
        }
    }
}

proof fn lemma_past_headless(t: Seq<char>, s: Seq<char>, i: int)
    requires
        is_headless(s),
        0 <= i <= s.len(),
        t.len() >= s.len() + 3,
        t.subrange(0, s.len() as int) == s,
        t[s.len() as int] == '<',
    ensures
        toc_repair::heading_from(t, i) == toc_repair::heading_from(t, s.len() as int),
    decreases s.len() - i,
{
    if i < s.len() {
        let n = s.len() as int;
        assert(t.subrange(0, n)[i] == t[i]);
        if i + 1 < n {
            assert(t.subrange(0, n)[i + 1] == t[i + 1]);
        }
        if i + 2 < n {
            assert(t.subrange(0, n)[i + 2] == t[i + 2]);
            assert(!(s[i] == '<' && (s[i + 1] == 'h' || s[i + 1] == 'H') && '0' <= s[i + 2] <= '9'));
        }
        assert(!toc_repair::heading_at(t, i));
        lemma_past_headless(t, s, i + 1);
    }
}

pub proof fn lemma_strip_none(s: Seq<char>, i: int)
    requires
        0 <= i <= s.len(),
        !s.contains('<'),
    ensures
        toc::stripped_from(s, i) == s.subrange(i, s.len() as int),
    decreases s.len() - i,
{
    if i < s.len() {
        assert(s.contains(s[i]));
        lemma_strip_none(s, i + 1);
        assert(seq![s[i]] + s.subrange(i + 1, s.len() as int) =~= s.subrange(i, s.len() as int));
    } else {
        assert(s.subrange(i, i) =~= Seq::empty());
    }
}

proof fn lemma_lower(c: char)
    ensures
        text::lower(c) == '<' ==> c == '<',
{
}

proof fn lemma_lower_join(a: Seq<char>, b: Seq<char>)
    ensures
        text::spec_lower(a + b) == text::spec_lower(a) + text::spec_lower(b),
{
    assert(text::spec_lower(a + b) =~= text::spec_lower(a) + text::spec_lower(b));
}

proof fn lemma_first_there(x: Seq<char>, close: Seq<char>, y: Seq<char>)
    requires
        forall|k: int| 0 <= k < x.len() ==> #[trigger] x[k] != '<',
        close.len() > 0,
        close[0] == '<',
    ensures
        text::spec_find(x + close + y, close, 0) == Some(x.len() as int),
{
    let t = x + close + y;
    let n = x.len() as int;
    assert(t.subrange(n, n + close.len()) =~= close);
    assert forall|m: int| 0 <= m < n implies !text::is_at(t, close, m) by {
        if text::is_at(t, close, m) {
            assert(t.subrange(m, m + close.len())[0] == t[m]);
            assert(t[m] == x[m]);
        }
    }
    metadata_edit::lemma_find_is(t, close, 0, n);
}

/// The end tag behind a text without tags is the first.
proof fn lemma_end_tag(x: Seq<char>, close: Seq<char>, y: Seq<char>)
    requires
        !x.contains('<'),
        close.len() > 0,
        close[0] == '<',
        text::spec_lower(close) == close,
    ensures
        text::spec_find(text::spec_lower(x + close + y), close, 0) == Some(x.len() as int),
{
    lemma_lower_join(x + close, y);
    lemma_lower_join(x, close);
    let a = text::spec_lower(x);
    assert forall|k: int| 0 <= k < a.len() implies #[trigger] a[k] != '<' by {
        lemma_lower(x[k]);
        assert(x.contains(x[k]));
    }
    lemma_first_there(a, close, text::spec_lower(y));
}

/// The heading's tag, its text and its end, in the document's body.
proof fn lemma_heading_at(t: Seq<char>, i: int, level: char, attrs: Seq<char>, x: Seq<char>, rest: Seq<char>)
    requires
        0 <= i,
        i <= t.len(),
        t.subrange(i, t.len() as int) == "<h"@ + seq![level] + attrs + ">"@ + (x + ("</h"@ + seq![level]
            + ">"@) + rest),
        '1' <= level <= '6',
        attrs.len() > 0 ==> text::is_ascii_white(attrs[0]),
        !attrs.contains('>'),
        !x.contains('<'),
        toc_repair::spec_clean_label(markup::spec_unescape(x)).len() > 0,
    ensures
        toc_repair::heading_from(t, i) == Some(
            (
                toc_repair::spec_clean_label(markup::spec_unescape(x)),
                markup::spec_attr_value("<h"@ + seq![level] + attrs, "id"@),
            ),
        ),
        t.len() >= i + 3,
        t[i] == '<',
{
    reveal_strlit("<h");
    reveal_strlit("</h");
    reveal_strlit(">");
    let n = t.len() as int;
    let m = attrs.len() as int;
    let open = "<h"@ + seq![level] + attrs;
    let close = "</h"@ + seq![level] + ">"@;
    let u = t.subrange(i, n);
    let g = i + 3 + m;
    let y = x + close + rest;
    assert(u == open + ">"@ + y);
    assert(u[0] == '<' && u[1] == 'h' && u[2] == level && u[3 + m] == '>');
    assert(t[i] == u[0] && t[i + 1] == u[1] && t[i + 2] == u[2] && t[g] == u[3 + m]);
    if m > 0 {
        assert(u[3] == attrs[0]);
        assert(t[i + 3] == u[3]);
    }
    assert(toc_repair::heading_at(t, i));
    assert forall|k: int| i <= k < g implies #[trigger] t[k] != '>' by {
        assert(t[k] == u[k - i]);
        if k >= i + 3 {
            assert(u[k - i] == attrs[k - i - 3]);
            assert(attrs.contains(attrs[k - i - 3]));
        }
    }
    read_back::lemma_find_char_is(t, '>', i, g);
    assert(t.subrange(g + 1, n) =~= u.subrange(4 + m, n - i));
    assert(u.subrange(4 + m, n - i) =~= y);
    assert(text::spec_lower(close) =~= close);
    lemma_end_tag(x, close, rest);
    assert(toc_repair::heading_close(t, i) =~= close);
    assert(t.subrange(g + 1, g + 1 + x.len()) =~= y.subrange(0, x.len() as int));
    assert(y.subrange(0, x.len() as int) =~= x);
    lemma_strip_none(x, 0);
    assert(x.subrange(0, x.len() as int) =~= x);
    assert(t.subrange(i, g) =~= u.subrange(0, 3 + m));
    assert(u.subrange(0, 3 + m) =~= open);
}

/// A document that opens with a heading, of any of the six levels, is labelled by the
/// heading's text, and by its id where it has one.
pub proof fn a_heading_of_any_level_labels_its_document(d: Headed)
    requires
        is_headed(d),
    ensures
        toc_repair::spec_first_heading(document(d)) == Some(
            (toc_repair::spec_clean_label(d.text), heading_id(d)),
        ),
        toc_repair::spec_clean_label(d.text).len() > 0,
{
    reveal_strlit("<body");
    let x = markup::spec_escape_text(d.text);
    escaping::escaping_leaves_no_markup(d.text);
    escaping::unescaping_undoes_escaping(d.text);
    a_label_keeps_its_text(d.text);
    let all = document(d);
    let h = heading(d);
    let t = d.between + h + d.rest;
    assert(all =~= d.before + "<body"@ + t);
    lemma_body(d.before, t);
    assert(all.subrange((d.before.len() + 5) as int, all.len() as int) =~= t);
    let i = d.between.len() as int;
    let open = "<h"@ + seq![d.level] + d.attrs;
    let close = "</h"@ + seq![d.level] + ">"@;
    assert(h + d.rest =~= open + ">"@ + (x + close + d.rest));
    assert(t.subrange(i, t.len() as int) =~= h + d.rest);
    lemma_heading_at(t, i, d.level, d.attrs, x, d.rest);
    assert(t.subrange(0, i) =~= d.between);
    lemma_past_headless(t, d.between, 0);
}

// ---------------------------------------------------------------- the proposal

/// The entry for a document that opens with a heading.
pub open spec fn heading_entry(path: Seq<char>, d: Headed) -> Toc {
    toc_repair::leaf(
        toc_repair::spec_clean_label(d.text),
        match heading_id(d) {
            Some(id) => path + "#"@ + id,
            None => path,
        },
    )
}

/// The documents of the spine are those, in order, each of them once.
pub open spec fn is_spine_of(p: Seq<Part>, spine: Seq<(Seq<char>, Seq<char>)>, docs: Seq<Headed>) -> bool {
    &&& docs.len() == spine.len()
    &&& forall|i: int|
        0 <= i < docs.len() ==> is_headed(#[trigger] docs[i]) && package::spec_text(p, spine[i].0) == Some(
            document(docs[i]),
        ) && !spine[i].0.contains('#')
    &&& forall|i: int, j: int|
        0 <= i < j < spine.len() ==> (#[trigger] spine[i]).0 != (#[trigger] spine[j]).0
}

/// The entries for the documents.
pub open spec fn heading_entries(spine: Seq<(Seq<char>, Seq<char>)>, docs: Seq<Headed>) -> Seq<Toc> {
    Seq::new(docs.len(), |i: int| heading_entry(spine[i].0, docs[i]))
}

proof fn lemma_headings(
    p: Seq<Part>,
    spine: Seq<(Seq<char>, Seq<char>)>,
    docs: Seq<Headed>,
    n: int,
)
    requires
        is_spine_of(p, spine, docs),
        0 <= n <= docs.len(),
    ensures
        toc_repair::headings_to(p, spine, n) == heading_entries(spine, docs).take(n),
    decreases n,
{
    let all = heading_entries(spine, docs);
    if n > 0 {
        lemma_headings(p, spine, docs, n - 1);
        let d = docs[n - 1];
        assert(is_headed(d));
        a_heading_of_any_level_labels_its_document(d);
        assert(all.take(n) =~= all.take(n - 1).push(all[n - 1]));
    } else {
        assert(all.take(0) =~= Seq::empty());
    }
}

proof fn lemma_document(path: Seq<char>, d: Headed)
    requires
        !path.contains('#'),
    ensures
        toc_shape::document(heading_entry(path, d).href) == path,
{
    reveal_strlit("#");
    let h = heading_entry(path, d).href;
    text::lemma_find_char(h, '#', 0);
    match heading_id(d) {
        Some(id) => {
            assert(h[path.len() as int] == '#');
            let k = text::spec_find_char(h, '#', 0)->0;
            if k < path.len() {
                assert(h[k] == path[k]);
                assert(path.contains(path[k]));
            }
            assert(h.subrange(0, path.len() as int) =~= path);
        },
        None => {
            if let Some(k) = text::spec_find_char(h, '#', 0) {
                assert(path.contains(path[k]));
            }
        },
    }
}

proof fn lemma_place(spine: Seq<(Seq<char>, Seq<char>)>, i: int, n: int)
    requires
        0 <= i < n <= spine.len(),
        forall|a: int, b: int|
            0 <= a < b < spine.len() ==> (#[trigger] spine[a]).0 != (#[trigger] spine[b]).0,
    ensures
        toc_shape::place_in(spine, spine[i].0, n) == Some(i),
    decreases n,
{
    if i < n - 1 {
        assert(spine[i].0 != spine[n - 1].0);
        lemma_place(spine, i, n - 1);
    }
}

proof fn lemma_behind_all(v: Seq<Toc>, spine: Seq<(Seq<char>, Seq<char>)>, k: int, i: int)
    requires
        0 <= i <= v.len(),
        forall|j: int|
            0 <= j < v.len() ==> toc_shape::place_of(spine, #[trigger] v[j]) == Some(j),
        v.len() <= k,
    ensures
        toc_shape::place_behind(v, spine, k, i) == v.len(),
    decreases v.len() - i,
{
    if i < v.len() {
        assert(toc_shape::place_of(spine, v[i]) == Some(i));
        lemma_behind_all(v, spine, k, i + 1);
    }
}

proof fn lemma_merged(v: Seq<Toc>, spine: Seq<(Seq<char>, Seq<char>)>, n: int)
    requires
        0 <= n <= v.len(),
        forall|j: int|
            0 <= j < v.len() ==> toc_shape::place_of(spine, #[trigger] v[j]) == Some(j),
    ensures
        toc_shape::merged_to(Seq::empty(), v, spine, n) == v.take(n),
    decreases n,
{
    if n > 0 {
        lemma_merged(v, spine, n - 1);
        let w = v.take(n - 1);
        let none = Seq::<Toc>::empty();
        assert(toc::spec_flatten(none) =~= Seq::empty());
        assert(!toc_shape::reaches(none, toc_shape::document(v[n - 1].href)));
        assert forall|j: int| 0 <= j < w.len() implies toc_shape::place_of(spine, #[trigger] w[j])
            == Some(j) by {
            assert(w[j] == v[j]);
        }
        lemma_behind_all(w, spine, n - 1, 0);
        assert(toc_shape::place_of(spine, v[n - 1]) == Some(n - 1));
        assert(toc_shape::joined(w, spine, v[n - 1]) =~= v.take(n));
    } else {
        assert(v.take(0) =~= Seq::empty());
    }
}

/// A book that declares no table of contents and has no contents page, but opens each
/// document with a heading, gets one entry for each document, labelled by its heading
/// and leading to it, in the order of the spine. Only the levels may differ, and white
/// space before a label.
pub proof fn each_headed_document_is_proposed(
    p: Seq<Part>,
    b: Book,
    base: Seq<char>,
    opf: Seq<char>,
    docs: Seq<Headed>,
)
    requires
        is_spine_of(p, package::spec_spine_documents(b, base), docs),
        docs.len() >= 3,
        toc_repair::spec_existing_declared(p, b, base).len() == 0,
        toc_repair::spec_contents(p, b, base, opf).len() < 3,
    ensures
        toc_shape::listed(toc_repair::spec_propose(p, b, base, opf)) == toc_shape::listed(
            heading_entries(package::spec_spine_documents(b, base), docs),
        ),
        toc_shape::targets(toc_repair::spec_propose(p, b, base, opf)).len() == docs.len(),
{
    let spine = package::spec_spine_documents(b, base);
    let all = heading_entries(spine, docs);
    let n = docs.len() as int;
    lemma_headings(p, spine, docs, n);
    assert(all.take(n) =~= all);
    let declared = toc_repair::spec_existing_declared(p, b, base);
    assert(declared =~= Seq::empty());
    assert(toc_repair::spec_count_chapters(declared) < 3) by {
        assert(toc::spec_flatten(declared) =~= Seq::empty());
    }
    assert(toc_repair::derived(p, b, base, opf) == all);
    assert forall|j: int| 0 <= j < all.len() implies toc_shape::place_of(spine, #[trigger] all[j]) == Some(
        j,
    ) by {
        assert(is_headed(docs[j]));
        lemma_document(spine[j].0, docs[j]);
        lemma_place(spine, j, n);
    }
    lemma_merged(all, spine, n);
    let groups = toc_repair::spec_volume_groups(p, spine, toc_repair::documents(all));
    toc_shape::nesting_keeps_every_label(all, groups);
    toc_shape::nesting_keeps_every_target(all, groups);
    lemma_flat_targets(all);
}

proof fn lemma_flat_targets(v: Seq<Toc>)
    requires
        forall|i: int| 0 <= i < v.len() ==> (#[trigger] v[i]).children.len() == 0,
    ensures
        toc_shape::targets(v).len() == v.len(),
    decreases v.len(),
{
    if v.len() > 0 {
        toc_shape::lemma_targets_last(v);
        lemma_flat_targets(v.drop_last());
        assert(v.last().children.len() == 0);
        assert(v.last().children =~= Seq::empty());
        assert(toc_shape::targets(v.last().children) =~= Seq::empty());
    }
}

} // verus!
