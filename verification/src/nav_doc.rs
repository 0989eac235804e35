//! The two navigation documents an EPUB ships, written from a chapter list.
use vstd::prelude::*;

use crate::markup;
use crate::structure;
use crate::text;
use crate::toc;
use crate::markup::{escape_attr, escape_text};
use crate::structure::relativize;
use crate::text::{add_text, chars_of, copy, decimal_of, put, put_str, same, string_of, trim};
use crate::toc::{Landmark, LandmarkType, Mark, Toc, TocEntry};

verus! {

/// White space as markup has it: space, tab, line feed, carriage return.
pub open spec fn is_markup_space(c: char) -> bool {
    c == ' ' || c == '\n' || c == '\r' || c == '\t'
}

/// The first position from `i` on that holds no markup space, or the end.
pub open spec fn skip_markup(s: Seq<char>, i: int) -> int
    decreases s.len() - i,
{
    if 0 <= i < s.len() && is_markup_space(s[i]) {
        skip_markup(s, i + 1)
    } else {
        i
    }
}

/// The end of `s` cut at `j` once the markup space before it is dropped, at `i`
/// at the least.
pub open spec fn back_markup(s: Seq<char>, i: int, j: int) -> int
    decreases j - i,
{
    if 0 <= i < j <= s.len() && is_markup_space(s[j - 1]) {
        back_markup(s, i, j - 1)
    } else {
        j
    }
}

/// `s` without markup space at its ends; an ideographic space stays.
pub open spec fn spec_trim_markup(s: Seq<char>) -> Seq<char> {
    let i = skip_markup(s, 0);
    s.subrange(i, back_markup(s, i, s.len() as int))
}

/// `s` without markup space at its ends; an ideographic space stays.
pub fn trim_markup_space(s: &str) -> (r: String)
    ensures
        r@ == spec_trim_markup(s@),
{
    let t = chars_of(s);
    let mut i: usize = 0;
    while i < t.len() && (t[i] == ' ' || t[i] == '\n' || t[i] == '\r' || t[i] == '\t')
        invariant
            i <= t@.len(),
            skip_markup(t@, 0) == skip_markup(t@, i as int),
        decreases t@.len() - i,
    {
        i = i + 1;
    }
    let mut j: usize = t.len();
    while i < j && (t[j - 1] == ' ' || t[j - 1] == '\n' || t[j - 1] == '\r' || t[j - 1] == '\t')
        invariant
            i <= j <= t@.len(),
            back_markup(t@, i as int, t@.len() as int) == back_markup(t@, i as int, j as int),
        decreases j,
    {
        j = j - 1;
    }
    string_of(&t[i..j])
}

/// A link to the entry, its href written from the directory `base`.
pub open spec fn entry_link(e: Toc, base: Seq<char>) -> Seq<char> {
    "<li><a href=\""@ + markup::spec_escape_attr(structure::spec_relativize(base, e.href)) + "\">"@
        + markup::spec_escape_text(spec_trim_markup(e.title)) + "</a>"@
}

/// The list items of the entries.
pub open spec fn list_items(v: Seq<Toc>, base: Seq<char>) -> Seq<char>
    decreases v,
{
    if v.len() == 0 {
        Seq::empty()
    } else {
        let e = v.last();
        let head = list_items(v.drop_last(), base) + entry_link(e, base);
        if e.children.len() == 0 {
            head + "</li>\n"@
        } else {
            head + "\n"@ + ("<ol>\n"@ + list_items(e.children, base) + "</ol>\n"@) + "</li>\n"@
        }
    }
}

/// The ordered list of the entries.
pub open spec fn ordered_list(v: Seq<Toc>, base: Seq<char>) -> Seq<char> {
    "<ol>\n"@ + list_items(v, base) + "</ol>\n"@
}

/// The `nav` element for a table of contents, hrefs written from `base`.
pub open spec fn spec_render_toc_nav(v: Seq<Toc>, base: Seq<char>) -> Seq<char> {
    "<nav epub:type=\"toc\" role=\"doc-toc\" id=\"toc\">\n<h1>Contents</h1>\n"@ + ordered_list(
        v,
        base,
    ) + "</nav>"@
}

fn entry_link_of(e: &TocEntry, base_dir: &str) -> (r: Vec<char>)
    ensures
        r@ == entry_link(toc::toc(*e), base_dir@),
{
    let mut out = chars_of("<li><a href=\"");
    put_str(&mut out, &escape_attr(&relativize(base_dir, &e.href)));
    put_str(&mut out, "\">");
    put_str(&mut out, &escape_text(&trim_markup_space(&e.title)));
    put_str(&mut out, "</a>");
    out
}

fn render_ol(v: &Vec<TocEntry>, base_dir: &str, out: &mut Vec<char>)
    ensures
        final(out)@ == old(out)@ + ordered_list(toc::tocs(v@), base_dir@),
    decreases v,
{
    let ghost all = toc::tocs(v@);
    proof {
        toc::lemma_tocs(v@);
    }
    put_str(out, "<ol>\n");
    let ghost start = out@;
    assert(start + list_items(all.take(0), base_dir@) =~= start);
    let mut i: usize = 0;
    while i < v.len()
        invariant
            i <= v@.len(),
            all == toc::tocs(v@),
            all.len() == v@.len(),
            forall|k: int| 0 <= k < v@.len() ==> #[trigger] all[k] == toc::toc(v@[k]),
            out@ == start + list_items(all.take(i as int), base_dir@),
        decreases v@.len() - i,
    {
        let e = &v[i];
        let ghost ev = all[i as int];
        proof {
            toc::lemma_tocs(e.children@);
        }
        assert(ev == toc::toc(v@[i as int]));
        assert(all.take(i + 1).drop_last() =~= all.take(i as int));
        put(out, &entry_link_of(e, base_dir));
        if e.children.len() == 0 {
            put_str(out, "</li>\n");
        } else {
            put_str(out, "\n");
            render_ol(&e.children, base_dir, out);
            put_str(out, "</li>\n");
        }
        assert(out@ =~= start + list_items(all.take(i + 1), base_dir@));
        i = i + 1;
    }
    assert(all.take(v@.len() as int) =~= all);
    put_str(out, "</ol>\n");
    assert(out@ =~= old(out)@ + ordered_list(all, base_dir@));
}

/// The `nav` element for a table of contents, hrefs written from `base_dir`.
pub fn render_toc_nav(entries: &Vec<TocEntry>, base_dir: &str) -> (r: String)
    ensures
        r@ == spec_render_toc_nav(toc::tocs(entries@), base_dir@),
{
    let mut out = chars_of("<nav epub:type=\"toc\" role=\"doc-toc\" id=\"toc\">\n<h1>Contents</h1>\n");
    render_ol(entries, base_dir, &mut out);
    put_str(&mut out, "</nav>");
    string_of(&out)
}

/// The EPUB 3 name of a landmark's type.
pub open spec fn spec_epub_type(t: LandmarkType) -> Seq<char> {
    match t {
        LandmarkType::Cover => "cover"@,
        LandmarkType::TitlePage => "titlepage"@,
        LandmarkType::Toc => "toc"@,
        LandmarkType::StartReading | LandmarkType::BodyMatter => "bodymatter"@,
        LandmarkType::FrontMatter => "frontmatter"@,
        LandmarkType::BackMatter => "backmatter"@,
        LandmarkType::Acknowledgements => "acknowledgments"@,
        LandmarkType::Bibliography => "bibliography"@,
        LandmarkType::Glossary => "glossary"@,
        LandmarkType::Index => "index"@,
        LandmarkType::Preface => "preface"@,
        LandmarkType::Endnotes => "endnotes"@,
        LandmarkType::Loi => "loi"@,
        LandmarkType::Lot => "lot"@,
    }
}

/// The EPUB 3 name of a landmark's type.
pub fn landmark_epub_type(t: LandmarkType) -> (r: &'static str)
    ensures
        r@ == spec_epub_type(t),
{
    match t {
        LandmarkType::Cover => "cover",
        LandmarkType::TitlePage => "titlepage",
        LandmarkType::Toc => "toc",
        LandmarkType::StartReading | LandmarkType::BodyMatter => "bodymatter",
        LandmarkType::FrontMatter => "frontmatter",
        LandmarkType::BackMatter => "backmatter",
        LandmarkType::Acknowledgements => "acknowledgments",
        LandmarkType::Bibliography => "bibliography",
        LandmarkType::Glossary => "glossary",
        LandmarkType::Index => "index",
        LandmarkType::Preface => "preface",
        LandmarkType::Endnotes => "endnotes",
        LandmarkType::Loi => "loi",
        LandmarkType::Lot => "lot",
    }
}

/// A landmark's own label, or the words for its type where that is blank.
pub open spec fn mark_label(m: Mark) -> Seq<char> {
    let own = text::spec_trim(m.label);
    if own.len() == 0 {
        toc::spec_default_label(m.landmark_type)
    } else {
        own
    }
}

/// A list item for a landmark.
pub open spec fn mark_item(m: Mark, base: Seq<char>) -> Seq<char> {
    "<li><a epub:type=\""@ + spec_epub_type(m.landmark_type) + "\" href=\""@
        + markup::spec_escape_attr(structure::spec_relativize(base, m.href)) + "\">"@
        + markup::spec_escape_text(spec_trim_markup(mark_label(m))) + "</a></li>\n"@
}

/// The list items of the first `n` landmarks.
pub open spec fn mark_items(v: Seq<Mark>, base: Seq<char>, n: int) -> Seq<char>
    decreases n,
{
    if n <= 0 {
        Seq::empty()
    } else {
        mark_items(v, base, n - 1) + mark_item(v[n - 1], base)
    }
}

/// The `nav` element for landmarks, hrefs written from `base`.
pub open spec fn spec_render_landmarks_nav(v: Seq<Mark>, base: Seq<char>) -> Seq<char> {
    "<nav epub:type=\"landmarks\" id=\"landmarks\" hidden=\"hidden\">\n<h2>Landmarks</h2>\n<ol>\n"@
        + mark_items(v, base, v.len() as int) + "</ol>\n</nav>"@
}

fn mark_item_of(l: &Landmark, base_dir: &str) -> (r: Vec<char>)
    ensures
        r@ == mark_item(l@, base_dir@),
{
    let own = chars_of(&l.label);
    let own = trim(&own);
    let label = if own.len() == 0 {
        chars_of(l.landmark_type.default_label())
    } else {
        copy(own)
    };
    let mut out = chars_of("<li><a epub:type=\"");
    put_str(&mut out, landmark_epub_type(l.landmark_type));
    put_str(&mut out, "\" href=\"");
    put_str(&mut out, &escape_attr(&relativize(base_dir, &l.href)));
    put_str(&mut out, "\">");
    put_str(&mut out, &escape_text(&trim_markup_space(&string_of(&label))));
    put_str(&mut out, "</a></li>\n");
    out
}

/// The `nav` element for landmarks, hrefs written from `base_dir`.
pub fn render_landmarks_nav(landmarks: &Vec<Landmark>, base_dir: &str) -> (r: String)
    ensures
        r@ == spec_render_landmarks_nav(toc::marks(landmarks@), base_dir@),
{
    let ghost all = toc::marks(landmarks@);
    let mut out = chars_of(
        "<nav epub:type=\"landmarks\" id=\"landmarks\" hidden=\"hidden\">\n<h2>Landmarks</h2>\n<ol>\n",
    );
    let ghost start = out@;
    assert(start + mark_items(all, base_dir@, 0) =~= start);
    let mut i: usize = 0;
    while i < landmarks.len()
        invariant
            i <= landmarks@.len(),
            all == toc::marks(landmarks@),
            out@ == start + mark_items(all, base_dir@, i as int),
        decreases landmarks@.len() - i,
    {
        let l = &landmarks[i];
        assert(all[i as int] == l@);
        put(&mut out, &mark_item_of(l, base_dir));
        assert(out@ =~= start + mark_items(all, base_dir@, i + 1));
        i = i + 1;
    }
    put_str(&mut out, "</ol>\n</nav>");
    string_of(&out)
}

/// A minimal EPUB 3 navigation document around `toc_nav`.
pub open spec fn spec_render_nav_doc(
    toc_nav: Seq<char>,
    lang: Seq<char>,
    title: Seq<char>,
) -> Seq<char> {
    "<?xml version=\"1.0\" encoding=\"utf-8\"?>\n<!DOCTYPE html>\n<html xmlns=\"http://www.w3.org/1999/xhtml\" xmlns:epub=\"http://www.idpf.org/2007/ops\" lang=\""@
        + lang + "\" xml:lang=\""@ + lang
        + "\">\n<head>\n<meta charset=\"utf-8\"/>\n<title>"@ + markup::spec_escape_text(title)
        + "</title>\n</head>\n<body>\n"@ + toc_nav + "\n</body>\n</html>\n"@
}

/// A minimal EPUB 3 navigation document around `toc_nav`.
pub fn render_nav_doc(toc_nav: &str, lang: &str, title: &str) -> (r: String)
    ensures
        r@ == spec_render_nav_doc(toc_nav@, lang@, title@),
{
    let mut out = chars_of(
        "<?xml version=\"1.0\" encoding=\"utf-8\"?>\n<!DOCTYPE html>\n<html xmlns=\"http://www.w3.org/1999/xhtml\" xmlns:epub=\"http://www.idpf.org/2007/ops\" lang=\"",
    );
    put_str(&mut out, lang);
    put_str(&mut out, "\" xml:lang=\"");
    put_str(&mut out, lang);
    put_str(&mut out, "\">\n<head>\n<meta charset=\"utf-8\"/>\n<title>");
    put_str(&mut out, &escape_text(title));
    put_str(&mut out, "</title>\n</head>\n<body>\n");
    put_str(&mut out, toc_nav);
    put_str(&mut out, "\n</body>\n</html>\n");
    string_of(&out)
}

// ---------------------------------------------------------------- the NCX

/// The place of `x` in `v`, counted from one; zero where it is not in it.
pub open spec fn place(v: Seq<Seq<char>>, x: Seq<char>, i: int) -> int
    decreases v.len() - i,
{
    if i < 0 || i >= v.len() {
        0
    } else if v[i] == x {
        i + 1
    } else {
        place(v, x, i + 1)
    }
}

/// `v` with `x` in it.
pub open spec fn known(v: Seq<Seq<char>>, x: Seq<char>) -> Seq<Seq<char>> {
    if v.contains(x) {
        v
    } else {
        v.push(x)
    }
}

/// What is written of a navigation map: the text, how many points it holds, and
/// the targets they name, each once.
#[verifier::ext_equal]
pub struct Points {
    pub out: Seq<char>,
    pub count: int,
    pub targets: Seq<Seq<char>>,
}

/// The start of a navigation point.
pub open spec fn point_head(id: int, order: int, title: Seq<char>, src: Seq<char>) -> Seq<char> {
    "<navPoint id=\"navPoint-"@ + text::decimal(id as nat) + "\" playOrder=\""@ + text::decimal(
        order as nat,
    ) + "\">\n<navLabel><text>"@ + markup::spec_escape_text(spec_trim_markup(title))
        + "</text></navLabel>\n<content src=\""@ + markup::spec_escape_attr(src) + "\"/>\n"@
}

/// The navigation points of the entries behind what is already written: each has
/// a number of its own, and points on one target share its place in the order of
/// play.
pub open spec fn points(v: Seq<Toc>, base: Seq<char>, p: Points) -> Points
    decreases v,
{
    if v.len() == 0 {
        p
    } else {
        let q = points(v.drop_last(), base, p);
        let e = v.last();
        let src = structure::spec_relativize(base, e.href);
        let targets = known(q.targets, src);
        let inner = points(
            e.children,
            base,
            Points {
                out: q.out + point_head(q.count + 1, place(targets, src, 0), e.title, src),
                count: q.count + 1,
                targets,
            },
        );
        Points { out: inner.out + "</navPoint>\n"@, ..inner }
    }
}

/// The `navMap` element of the entries, hrefs written from `base`.
pub open spec fn spec_render_navmap(v: Seq<Toc>, base: Seq<char>) -> Seq<char> {
    points(
        v,
        base,
        Points { out: "<navMap>\n"@, count: 0, targets: Seq::empty() },
    ).out + "</navMap>"@
}

fn place_of(v: &mut Vec<Vec<char>>, x: &[char]) -> (r: usize)
    ensures
        text::texts(final(v)@) == known(text::texts(old(v)@), x@),
        r == place(text::texts(final(v)@), x@, 0),
{
    let ghost all = text::texts(v@);
    let n = v.len();
    let mut i: usize = 0;
    while i < n
        invariant
            n == v@.len() == all.len(),
            i <= n,
            all == text::texts(v@),
            v@ == old(v)@,
            forall|k: int| 0 <= k < i ==> #[trigger] all[k] != x@,
            place(all, x@, 0) == place(all, x@, i as int),
        decreases n - i,
    {
        assert(all[i as int] == v@[i as int]@);
        if same(&v[i], x) {
            assert(all.contains(x@));
            return i + 1;
        }
        i = i + 1;
    }
    add_text(v, copy(x));
    proof {
        lemma_place_push(all, x@, 0);
        assert(!all.contains(x@));
    }
    let m = v.len();
    n + 1
}

proof fn lemma_place_push(v: Seq<Seq<char>>, x: Seq<char>, i: int)
    requires
        0 <= i <= v.len(),
        forall|k: int| i <= k < v.len() ==> #[trigger] v[k] != x,
    ensures
        place(v.push(x), x, i) == v.len() + 1,
    decreases v.len() - i,
{
    if i < v.len() {
        assert(v.push(x)[i] == v[i]);
        lemma_place_push(v, x, i + 1);
    }
}

fn render_navpoints(
    v: &Vec<TocEntry>,
    base_dir: &str,
    out: &mut Vec<char>,
    count: usize,
    targets: &mut Vec<Vec<char>>,
) -> (r: usize)
    requires
        count <= old(out)@.len(),
    ensures
        (Points {
            out: final(out)@,
            count: r as int,
            targets: text::texts(final(targets)@),
        }) == points(
            toc::tocs(v@),
            base_dir@,
            Points { out: old(out)@, count: count as int, targets: text::texts(old(targets)@) },
        ),
        r <= final(out)@.len(),
    decreases v,
{
    let ghost all = toc::tocs(v@);
    let ghost p0 = Points {
        out: out@,
        count: count as int,
        targets: text::texts(targets@),
    };
    proof {
        toc::lemma_tocs(v@);
    }
    let mut n: usize = count;
    let mut i: usize = 0;
    while i < v.len()
        invariant
            i <= v@.len(),
            all == toc::tocs(v@),
            all.len() == v@.len(),
            forall|k: int| 0 <= k < v@.len() ==> #[trigger] all[k] == toc::toc(v@[k]),
            n <= out@.len(),
            (Points { out: out@, count: n as int, targets: text::texts(targets@) }) == points(
                all.take(i as int),
                base_dir@,
                p0,
            ),
        decreases v@.len() - i,
    {
        let e = &v[i];
        let ghost ev = all[i as int];
        assert(ev == toc::toc(v@[i as int]));
        assert(all.take(i + 1).drop_last() =~= all.take(i as int));
        let src = relativize(base_dir, &e.href);
        let order = place_of(targets, &chars_of(&src));
        let ghost before = out@;
        proof {
            reveal_strlit("<navPoint id=\"navPoint-");
        }
        put_str(out, "<navPoint id=\"navPoint-");
        let room = out.len();
        n = n + 1;
        put(out, &decimal_of(n));
        put_str(out, "\" playOrder=\"");
        put(out, &decimal_of(order));
        put_str(out, "\">\n<navLabel><text>");
        put_str(out, &escape_text(&trim_markup_space(&e.title)));
        put_str(out, "</text></navLabel>\n<content src=\"");
        put_str(out, &escape_attr(&src));
        put_str(out, "\"/>\n");
        assert(out@ =~= before + point_head(n as int, order as int, ev.title, src@));
        n = render_navpoints(&e.children, base_dir, out, n, targets);
        put_str(out, "</navPoint>\n");
        i = i + 1;
    }
    assert(all.take(v@.len() as int) =~= all);
    n
}

/// The `navMap` element of the entries, hrefs written from `base_dir`.
pub fn render_navmap(entries: &Vec<TocEntry>, base_dir: &str) -> (r: String)
    ensures
        r@ == spec_render_navmap(toc::tocs(entries@), base_dir@),
{
    let mut out = chars_of("<navMap>\n");
    let mut targets: Vec<Vec<char>> = Vec::new();
    assert(text::texts(targets@) =~= Seq::<Seq<char>>::empty());
    render_navpoints(entries, base_dir, &mut out, 0, &mut targets);
    put_str(&mut out, "</navMap>");
    string_of(&out)
}

/// A minimal NCX around `navmap`.
pub open spec fn spec_render_ncx(
    navmap: Seq<char>,
    uid: Seq<char>,
    title: Seq<char>,
    depth: int,
) -> Seq<char> {
    "<?xml version=\"1.0\" encoding=\"utf-8\"?>\n<!DOCTYPE ncx PUBLIC \"-//NISO//DTD ncx 2005-1//EN\" \"http://www.daisy.org/z3986/2005/ncx-2005-1.dtd\">\n<ncx xmlns=\"http://www.daisy.org/z3986/2005/ncx/\" version=\"2005-1\">\n<head>\n<meta name=\"dtb:uid\" content=\""@
        + markup::spec_escape_attr(uid) + "\"/>\n<meta name=\"dtb:depth\" content=\""@
        + text::decimal(depth as nat)
        + "\"/>\n<meta name=\"dtb:totalPageCount\" content=\"0\"/>\n<meta name=\"dtb:maxPageNumber\" content=\"0\"/>\n</head>\n<docTitle><text>"@
        + markup::spec_escape_text(title) + "</text></docTitle>\n"@ + navmap + "\n</ncx>\n"@
}

/// A minimal NCX around `navmap`.
pub fn render_ncx(navmap: &str, uid: &str, title: &str, depth: usize) -> (r: String)
    ensures
        r@ == spec_render_ncx(navmap@, uid@, title@, depth as int),
{
    let mut out = chars_of(
        "<?xml version=\"1.0\" encoding=\"utf-8\"?>\n<!DOCTYPE ncx PUBLIC \"-//NISO//DTD ncx 2005-1//EN\" \"http://www.daisy.org/z3986/2005/ncx-2005-1.dtd\">\n<ncx xmlns=\"http://www.daisy.org/z3986/2005/ncx/\" version=\"2005-1\">\n<head>\n<meta name=\"dtb:uid\" content=\"",
    );
    put_str(&mut out, &escape_attr(uid));
    put_str(&mut out, "\"/>\n<meta name=\"dtb:depth\" content=\"");
    put(&mut out, &decimal_of(depth));
    put_str(
        &mut out,
        "\"/>\n<meta name=\"dtb:totalPageCount\" content=\"0\"/>\n<meta name=\"dtb:maxPageNumber\" content=\"0\"/>\n</head>\n<docTitle><text>",
    );
    put_str(&mut out, &escape_text(title));
    put_str(&mut out, "</text></docTitle>\n");
    put_str(&mut out, navmap);
    put_str(&mut out, "\n</ncx>\n");
    string_of(&out)
}

/// How deep the entries nest: a flat list is one level.
pub open spec fn spec_depth(v: Seq<Toc>) -> nat
    decreases v,
{
    if v.len() == 0 {
        0
    } else {
        let a = spec_depth(v.drop_last());
        let b = 1 + spec_depth(v.last().children);
        if a < b {
            b
        } else {
            a
        }
    }
}

/// The deepest level below the one that `path` stands on.
fn depth_below(v: &Vec<TocEntry>, path: &mut Vec<u8>) -> (r: usize)
    ensures
        final(path)@ == old(path)@,
        r == old(path)@.len() + spec_depth(toc::tocs(v@)),
    decreases v,
{
    let ghost all = toc::tocs(v@);
    proof {
        toc::lemma_tocs(v@);
    }
    let here = path.len();
    let mut best: usize = here;
    let mut i: usize = 0;
    while i < v.len()
        invariant
            i <= v@.len(),
            all == toc::tocs(v@),
            all.len() == v@.len(),
            forall|k: int| 0 <= k < v@.len() ==> #[trigger] all[k] == toc::toc(v@[k]),
            path@ == old(path)@,
            here == path@.len(),
            best == here + spec_depth(all.take(i as int)),
        decreases v@.len() - i,
    {
        assert(all[i as int] == toc::toc(v@[i as int]));
        assert(all.take(i + 1).drop_last() =~= all.take(i as int));
        path.push(0);
        let d = depth_below(&v[i].children, path);
        path.pop();
        assert(path@ =~= old(path)@);
        if best < d {
            best = d;
        }
        i = i + 1;
    }
    assert(all.take(v@.len() as int) =~= all);
    best
}

/// How deep the entries nest: a flat list is one level.
pub fn depth(entries: &Vec<TocEntry>) -> (r: usize)
    ensures
        r == spec_depth(toc::tocs(entries@)),
{
    let mut path: Vec<u8> = Vec::new();
    depth_below(entries, &mut path)
}

proof fn lemma_place(v: Seq<Seq<char>>, x: Seq<char>, i: int)
    requires
        0 <= i <= v.len(),
        exists|k: int| i <= k < v.len() && #[trigger] v[k] == x,
    ensures
        i < place(v, x, i) <= v.len(),
        v[place(v, x, i) - 1] == x,
        forall|w: Seq<char>| place(v.push(w), x, i) == place(v, x, i),
    decreases v.len() - i,
{
    if v[i] != x {
        lemma_place(v, x, i + 1);
    }
    assert forall|w: Seq<char>| place(v.push(w), x, i) == place(v, x, i) by {
        assert(v.push(w)[i] == v[i]);
    }
}

/// A target keeps its place in the order of play however many targets follow it,
/// so that points on one target share a place; two targets never do.
pub proof fn one_target_has_one_place(v: Seq<Seq<char>>, x: Seq<char>, y: Seq<char>)
    requires
        v.contains(x),
    ensures
        place(known(v, y), x, 0) == place(v, x, 0),
        x != y ==> place(known(v, y), y, 0) != place(v, x, 0),
{
    let k = choose|k: int| 0 <= k < v.len() && v[k] == x;
    lemma_place(v, x, 0);
    if v.contains(y) {
        let j = choose|j: int| 0 <= j < v.len() && v[j] == y;
        lemma_place(v, y, 0);
    } else {
        assert(forall|k: int| 0 <= k < v.len() ==> #[trigger] v[k] != y);
        lemma_place_push(v, y, 0);
    }
}

} // verus!
