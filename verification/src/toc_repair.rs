//! Table-of-contents repair: deriving a chapter list from the book's own
//! Contents page or headings, and writing it into the navigation document and
//! the NCX in place.
//!
//! Hrefs of entries are absolute zip paths; the writer writes each from the
//! directory of the document it goes into.
use vstd::prelude::*;

use crate::codec;
use crate::edit;
use crate::fresh::fresh;
use crate::fresh;
use crate::manifest;
use crate::markup;
use crate::metadata_edit;
use crate::nav_doc;
use crate::package;
use crate::page_shape;
use crate::structure;
use crate::text;
use crate::toc;
use crate::toc_shape;
use crate::upgrade;
use crate::archive::Part;
use crate::codec::{bytes_of, percent_decode};
use crate::edit::EpubPackage;
use crate::error::{Error, ErrorKind, Fault, refuse};
use crate::manifest::ids_of;
use crate::markup::{attr_value, escape_attr, unescape};
use crate::nav_doc::{
    depth, render_nav_doc, render_navmap, render_ncx, render_toc_nav, trim_markup_space,
};
use crate::opf::{Book, OpfData};
use crate::package::{Found, PackageDoc, abs_path, member_text, package_doc, spine_documents};
use crate::page_shape::is_image_only_page;
use crate::structure::{
    MIN_SECTION_CONTENTS_LINKS, basename, dir_of, internal_links, relativize, resolve_href,
    split_fragment, strip_fragment,
};
use crate::text::{
    add_str, add_text, ascii_white, chars_of, copy, find, find_char, find_str, is, join2, list_has,
    lowered, put, put_str, rfind_str, same, starts_str, str_is, string_of, trim, trim_start_char,
};
use crate::toc::{
    Landmark, LandmarkType, Mark, Toc, TocEntry, copy_entries, flat_count, flatten, nav_kind,
    parse_nav_landmarks, parse_nav_toc, parse_ncx, parse_opf_guide, same_entries, strip_tags,
};
use crate::toc_shape::{
    Volume, VolumeGroup, merge_by_document_order, nest_by_volume_groups, nest_levels,
};
use crate::upgrade::{resolve_marks, uid_given};

verus! {

// ---------------------------------------------------------------- the declared table of contents

/// The entries with every href resolved from the directory `dir`; a fragment
/// alone and an empty href stay.
pub open spec fn spec_rebase(v: Seq<Toc>, dir: Seq<char>) -> Seq<Toc>
    decreases v,
{
    if v.len() == 0 {
        Seq::empty()
    } else {
        let e = v.last();
        spec_rebase(v.drop_last(), dir).push(
            Toc {
                title: e.title,
                href: if text::spec_starts(e.href, "#"@) || e.href.len() == 0 {
                    e.href
                } else {
                    structure::spec_resolve_href(dir, e.href)
                },
                children: spec_rebase(e.children, dir),
            },
        )
    }
}

/// The entries with every href resolved from the directory `base_dir`.
pub fn rebase_to_absolute(v: &Vec<TocEntry>, base_dir: &str) -> (r: Vec<TocEntry>)
    ensures
        toc::tocs(r@) == spec_rebase(toc::tocs(v@), base_dir@),
    decreases v,
{
    let ghost all = toc::tocs(v@);
    proof {
        toc::lemma_tocs(v@);
    }
    let mut out: Vec<TocEntry> = Vec::new();
    let mut i: usize = 0;
    while i < v.len()
        invariant
            i <= v@.len(),
            all == toc::tocs(v@),
            all.len() == v@.len(),
            forall|k: int| 0 <= k < v@.len() ==> #[trigger] all[k] == toc::toc(v@[k]),
            toc::tocs(out@) == spec_rebase(all.take(i as int), base_dir@),
        decreases v@.len() - i,
    {
        let e = &v[i];
        assert(all[i as int] == toc::toc(v@[i as int]));
        assert(all.take(i + 1).drop_last() =~= all.take(i as int));
        let h = chars_of(&e.href);
        let href = if starts_str(&h, "#") || h.len() == 0 {
            e.href.clone()
        } else {
            resolve_href(base_dir, &e.href)
        };
        let t = TocEntry {
            title: e.title.clone(),
            href,
            children: rebase_to_absolute(&e.children, base_dir),
        };
        proof {
            toc::lemma_tocs_push(out@, t);
        }
        out.push(t);
        i = i + 1;
    }
    assert(all.take(v@.len() as int) =~= all);
    out
}

/// The entries that the NCX or the navigation document at `href` lists, hrefs
/// absolute; none where there is no such member.
pub open spec fn declared_at(p: Seq<Part>, base: Seq<char>, href: Seq<char>, ncx: bool) -> Seq<Toc> {
    let abs = package::spec_abs(base, href);
    match package::spec_text(p, abs) {
        Some(t) => spec_rebase(
            if ncx {
                toc::spec_parse_ncx(t)
            } else {
                toc::spec_parse_nav_toc(t)
            },
            structure::spec_dir_of(abs),
        ),
        None => Seq::empty(),
    }
}

/// The declared table of contents as the NCX has it and as the navigation
/// document has it.
pub open spec fn spec_declared_documents(p: Seq<Part>, b: Book, base: Seq<char>) -> (
    Seq<Toc>,
    Seq<Toc>,
) {
    (
        match b.ncx_href {
            Some(h) => declared_at(p, base, h, true),
            None => Seq::empty(),
        },
        match b.nav_href {
            Some(h) => declared_at(p, base, h, false),
            None => Seq::empty(),
        },
    )
}

/// The declared table of contents: the richer of the two documents, the NCX
/// where they are equal.
pub open spec fn spec_existing_declared(p: Seq<Part>, b: Book, base: Seq<char>) -> Seq<Toc> {
    let (ncx, nav) = spec_declared_documents(p, b, base);
    if toc::spec_flat_count(ncx) >= toc::spec_flat_count(nav) {
        ncx
    } else {
        nav
    }
}

fn read_declared(pkg: &EpubPackage, opf_base: &str, href: &str, ncx: bool) -> (r: Vec<TocEntry>)
    ensures
        toc::tocs(r@) == declared_at(pkg@, opf_base@, href@, ncx),
{
    let abs = abs_path(opf_base, href);
    match member_text(pkg, &abs) {
        Some(t) => {
            let entries = if ncx {
                parse_ncx(&t)
            } else {
                parse_nav_toc(&t)
            };
            rebase_to_absolute(&entries, &dir_of(&abs))
        },
        None => Vec::new(),
    }
}

/// The declared table of contents as the NCX has it and as the navigation
/// document has it.
pub fn declared_toc_documents(pkg: &EpubPackage, opf: &OpfData, opf_base: &str) -> (r: (
    Vec<TocEntry>,
    Vec<TocEntry>,
))
    ensures
        (toc::tocs(r.0@), toc::tocs(r.1@)) == spec_declared_documents(pkg@, opf@, opf_base@),
{
    let ncx = match &opf.ncx_href {
        Some(h) => read_declared(pkg, opf_base, h, true),
        None => Vec::new(),
    };
    let nav = match &opf.nav_href {
        Some(h) => read_declared(pkg, opf_base, h, false),
        None => Vec::new(),
    };
    (ncx, nav)
}

/// The declared table of contents: the richer of the two documents.
pub fn existing_declared_toc(pkg: &EpubPackage, opf: &OpfData, opf_base: &str) -> (r: Vec<TocEntry>)
    ensures
        toc::tocs(r@) == spec_existing_declared(pkg@, opf@, opf_base@),
{
    let (ncx, nav) = declared_toc_documents(pkg, opf, opf_base);
    if flat_count(&ncx) >= flat_count(&nav) {
        ncx
    } else {
        nav
    }
}

// ---------------------------------------------------------------- labels

/// The fewest links that make a page a contents page, or headings that make a
/// table of contents.
pub const MIN_CHAPTER_LINKS: usize = 3;

/// The label from `i` on with each run of markup space made one space; `gap`
/// says that one was just written.
pub open spec fn closed_up(s: Seq<char>, i: int, gap: bool) -> Seq<char>
    decreases s.len() - i,
{
    if i < 0 || i >= s.len() {
        Seq::empty()
    } else if nav_doc::is_markup_space(s[i]) {
        if gap {
            closed_up(s, i + 1, true)
        } else {
            seq![' '] + closed_up(s, i + 1, true)
        }
    } else {
        seq![s[i]] + closed_up(s, i + 1, false)
    }
}

/// A link's text as a label: runs of markup space made one space, none at the
/// ends. Wide spaces stay.
pub open spec fn spec_clean_label(s: Seq<char>) -> Seq<char> {
    nav_doc::spec_trim_markup(closed_up(s, 0, false))
}

/// A link's text as a label.
pub fn clean_label(raw: &[char]) -> (r: String)
    ensures
        r@ == spec_clean_label(raw@),
{
    let mut out: Vec<char> = Vec::new();
    let mut gap = false;
    let mut i: usize = 0;
    while i < raw.len()
        invariant
            i <= raw@.len(),
            out@ + closed_up(raw@, i as int, gap) == closed_up(raw@, 0, false),
        decreases raw@.len() - i,
    {
        let c = raw[i];
        let ghost before = out@;
        let ghost was = gap;
        if c == ' ' || c == '\n' || c == '\r' || c == '\t' {
            if !gap {
                out.push(' ');
                gap = true;
            }
        } else {
            out.push(c);
            gap = false;
        }
        assert(before + closed_up(raw@, i as int, was) =~= out@ + closed_up(raw@, i + 1, gap));
        i = i + 1;
    }
    assert(out@ + closed_up(raw@, i as int, gap) =~= out@);
    trim_markup_space(&string_of(&out))
}

/// An entry with nothing below it.
pub open spec fn leaf(title: Seq<char>, href: Seq<char>) -> Toc {
    Toc { title, href, children: Seq::empty() }
}

/// An entry leads to the href.
pub open spec fn leads_to(v: Seq<Toc>, href: Seq<char>) -> bool {
    exists|i: int| 0 <= i < v.len() && (#[trigger] v[i]).href == href
}

/// The label for a target: the first among the links to it from `i` on that is
/// not blank, the filename where all are.
pub open spec fn label_for(v: Seq<(Seq<char>, Seq<char>)>, href: Seq<char>, i: int) -> Seq<char>
    decreases v.len() - i,
{
    if i < 0 || i >= v.len() {
        structure::spec_basename(href)
    } else if v[i].1 == href && spec_clean_label(v[i].0).len() > 0 {
        spec_clean_label(v[i].0)
    } else {
        label_for(v, href, i + 1)
    }
}

/// The targets of the first `n` links as entries, one for each, with the label
/// that the links give it.
pub open spec fn deduped_to(v: Seq<(Seq<char>, Seq<char>)>, n: int) -> Seq<Toc>
    decreases n,
{
    if n <= 0 {
        Seq::empty()
    } else {
        let before = deduped_to(v, n - 1);
        let href = v[n - 1].1;
        if leads_to(before, href) {
            before
        } else {
            before.push(leaf(label_for(v, href, 0), href))
        }
    }
}

/// The links as entries, one for each target.
pub open spec fn spec_dedup(v: Seq<(Seq<char>, Seq<char>)>) -> Seq<Toc> {
    deduped_to(v, v.len() as int)
}

fn leads_to_of(v: &Vec<TocEntry>, href: &str) -> (r: bool)
    ensures
        r == leads_to(toc::tocs(v@), href@),
{
    let ghost vs = toc::tocs(v@);
    proof {
        toc::lemma_tocs(v@);
    }
    let mut i: usize = 0;
    while i < v.len()
        invariant
            i <= v@.len(),
            vs == toc::tocs(v@),
            vs.len() == v@.len(),
            forall|k: int| 0 <= k < v@.len() ==> #[trigger] vs[k] == toc::toc(v@[k]),
            forall|k: int| 0 <= k < i ==> (#[trigger] vs[k]).href != href@,
        decreases v@.len() - i,
    {
        assert(vs[i as int] == toc::toc(v@[i as int]));
        if str_is(&v[i].href, href) {
            return true;
        }
        i = i + 1;
    }
    false
}

fn push_leaf(v: &mut Vec<TocEntry>, title: String, href: String)
    ensures
        toc::tocs(final(v)@) == toc::tocs(old(v)@).push(leaf(title@, href@)),
{
    let ghost before = toc::tocs(v@);
    let e = TocEntry { title, href, children: Vec::new() };
    proof {
        toc::lemma_tocs_push(v@, e);
        assert(toc::toc(e) =~= leaf(title@, href@));
    }
    v.push(e);
}

fn label_of(links: &Vec<(String, String)>, href: &str) -> (r: String)
    ensures
        r@ == label_for(edit::pairs(links@), href@, 0),
{
    let ghost all = edit::pairs(links@);
    let mut i: usize = 0;
    while i < links.len()
        invariant
            i <= links@.len(),
            all == edit::pairs(links@),
            label_for(all, href@, 0) == label_for(all, href@, i as int),
        decreases links@.len() - i,
    {
        assert(all[i as int] == (links@[i as int].0@, links@[i as int].1@));
        if str_is(&links[i].1, href) {
            let clean = clean_label(&chars_of(&links[i].0));
            if chars_of(&clean).len() > 0 {
                return clean;
            }
        }
        i = i + 1;
    }
    basename(href)
}

/// The links as entries, one for each target, in order and with the first label
/// that is not blank; the filename is the last resort.
pub fn dedup_entries(links: &Vec<(String, String)>) -> (r: Vec<TocEntry>)
    ensures
        toc::tocs(r@) == spec_dedup(edit::pairs(links@)),
{
    let ghost all = edit::pairs(links@);
    let mut out: Vec<TocEntry> = Vec::new();
    let mut i: usize = 0;
    while i < links.len()
        invariant
            i <= links@.len(),
            all == edit::pairs(links@),
            toc::tocs(out@) == deduped_to(all, i as int),
        decreases links@.len() - i,
    {
        assert(all[i as int] == (links@[i as int].0@, links@[i as int].1@));
        let href = &links[i].1;
        if !leads_to_of(&out, href) {
            let title = label_of(links, href);
            push_leaf(&mut out, title, href.clone());
        }
        i = i + 1;
    }
    assert(all.len() == links@.len());
    out
}

// ---------------------------------------------------------------- headings

/// A heading's tag starts at `i`.
pub open spec fn heading_at(t: Seq<char>, i: int) -> bool {
    &&& 0 <= i
    &&& i + 2 < t.len()
    &&& t[i] == '<'
    &&& t[i + 1] == 'h' || t[i + 1] == 'H'
    &&& '1' <= t[i + 2] <= '6'
    &&& metadata_edit::tag_edge(t, i + 3)
}

/// The end tag of the heading whose tag starts at `i`, in small letters.
pub open spec fn heading_close(t: Seq<char>, i: int) -> Seq<char> {
    "</h"@ + seq![t[i + 2]] + ">"@
}

/// The first heading from `i` on that carries text: its text and its id. A
/// heading without an end ends the search.
pub open spec fn heading_from(t: Seq<char>, i: int) -> Option<(Seq<char>, Option<Seq<char>>)>
    decreases t.len() - i,
{
    if i < 0 || i + 2 >= t.len() {
        None
    } else if !heading_at(t, i) {
        heading_from(t, i + 1)
    } else {
        match text::spec_find_char(t, '>', i) {
            None => None,
            Some(g) => match text::spec_find(
                text::spec_lower(t.subrange(g + 1, t.len() as int)),
                heading_close(t, i),
                0,
            ) {
                None => None,
                Some(c) => {
                    let label = spec_clean_label(
                        markup::spec_unescape(
                            toc::spec_strip_tags(t.subrange(g + 1, g + 1 + c)),
                        ),
                    );
                    if label.len() > 0 {
                        Some((label, markup::spec_attr_value(t.subrange(i, g), "id"@)))
                    } else {
                        heading_from(t, i + 1)
                    }
                },
            },
        }
    }
}

/// The first heading of a document that carries text.
pub open spec fn spec_first_heading(t: Seq<char>) -> Option<(Seq<char>, Option<Seq<char>>)> {
    heading_from(
        match text::spec_find(t, "<body"@, 0) {
            Some(k) => t.subrange(k + 5, t.len() as int),
            None => t,
        },
        0,
    )
}

pub open spec fn heading_said(r: Option<(String, Option<String>)>) -> Option<
    (Seq<char>, Option<Seq<char>>),
> {
    match r {
        Some((a, b)) => Some((a@, text::opt_str(b))),
        None => None,
    }
}

fn heading_in(t: &[char]) -> (r: Option<(String, Option<String>)>)
    ensures
        heading_said(r) == heading_from(t@, 0),
{
    let n = t.len();
    if n < 3 {
        return None;
    }
    let mut i: usize = 0;
    while i < n - 2
        invariant
            3 <= n == t@.len(),
            i <= n,
            heading_from(t@, 0) == heading_from(t@, i as int),
        decreases n - i,
    {
        if t[i] == '<' && (t[i + 1] == 'h' || t[i + 1] == 'H') && '1' <= t[i + 2] && t[i + 2] <= '6'
            && (i + 3 >= n || t[i + 3] == '>' || ascii_white(t[i + 3])) {
            let g = match find_char(t, '>', i) {
                Some(g) => g,
                None => {
                    return None;
                },
            };
            let rest = &t[g + 1..n];
            let mut close = chars_of("</h");
            close.push(t[i + 2]);
            put_str(&mut close, ">");
            assert(close@ =~= heading_close(t@, i as int));
            let low = lowered(rest);
            assert(low@.len() == rest@.len());
            let c = match find(&low, &close, 0) {
                Some(c) => c,
                None => {
                    return None;
                },
            };
            let inside = unescape(&string_of(&strip_tags(&t[g + 1..g + 1 + c])));
            let label = clean_label(&chars_of(&inside));
            if chars_of(&label).len() > 0 {
                return Some((label, attr_value(&string_of(&t[i..g]), "id")));
            }
        }
        i = i + 1;
    }
    None
}

/// The text and the id of a document's first heading that carries text.
pub fn first_heading(xhtml: &str) -> (r: Option<(String, Option<String>)>)
    ensures
        heading_said(r) == spec_first_heading(xhtml@),
{
    let t = chars_of(xhtml);
    let n = t.len();
    proof {
        reveal_strlit("<body");
    }
    match find_str(&t, "<body", 0) {
        Some(k) => heading_in(&t[k + 5..n]),
        None => heading_in(&t),
    }
}

/// The entries for the first `n` documents of the spine that open with a
/// heading.
pub open spec fn headings_to(p: Seq<Part>, spine: Seq<(Seq<char>, Seq<char>)>, n: int) -> Seq<Toc>
    decreases n,
{
    if n <= 0 {
        Seq::empty()
    } else {
        let before = headings_to(p, spine, n - 1);
        let abs = spine[n - 1].0;
        match package::spec_text(p, abs) {
            Some(t) => match spec_first_heading(t) {
                Some((label, Some(id))) => before.push(leaf(label, abs + "#"@ + id)),
                Some((label, None)) => before.push(leaf(label, abs)),
                None => before,
            },
            None => before,
        }
    }
}

fn propose_from_headings(pkg: &EpubPackage, spine: &Vec<(String, String)>) -> (r: Vec<TocEntry>)
    ensures
        toc::tocs(r@) == headings_to(pkg@, edit::pairs(spine@), spine@.len() as int),
{
    let ghost ss = edit::pairs(spine@);
    let mut out: Vec<TocEntry> = Vec::new();
    let mut i: usize = 0;
    while i < spine.len()
        invariant
            i <= spine@.len(),
            ss == edit::pairs(spine@),
            toc::tocs(out@) == headings_to(pkg@, ss, i as int),
        decreases spine@.len() - i,
    {
        assert(ss[i as int] == (spine@[i as int].0@, spine@[i as int].1@));
        let abs = &spine[i].0;
        if let Some(t) = member_text(pkg, abs) {
            if let Some((label, id)) = first_heading(&t) {
                let href = match id {
                    Some(id) => {
                        let mut h = chars_of(abs);
                        put_str(&mut h, "#");
                        put_str(&mut h, &id);
                        string_of(&h)
                    },
                    None => abs.clone(),
                };
                push_leaf(&mut out, label, href);
            }
        }
        i = i + 1;
    }
    out
}

// ---------------------------------------------------------------- chapters

/// A label of front or back matter, which is no chapter.
pub open spec fn spec_is_front_matter(title: Seq<char>) -> bool {
    let s = text::spec_lower(text::spec_trim(title));
    s.len() == 0 || s == "cover"@ || s == "cover page"@ || s == "title page"@ || s == "titlepage"@
        || s == "half title"@ || s == "contents"@ || s == "table of contents"@ || s == "toc"@ || s
        == "copyright"@ || s == "copyright page"@ || s == "dedication"@ || s == "colophon"@ || s
        == "\u{8868}\u{7d19}"@ || s == "\u{6249}"@ || s == "\u{76ee}\u{6b21}"@ || s
        == "\u{5965}\u{4ed8}"@ || s == "\u{53e3}\u{7d75}"@
}

/// Whether a label is one of front or back matter.
pub fn is_front_matter(title: &str) -> (r: bool)
    ensures
        r == spec_is_front_matter(title@),
{
    let c = chars_of(title);
    let s = lowered(trim(&c));
    s.len() == 0 || is(&s, "cover") || is(&s, "cover page") || is(&s, "title page") || is(
        &s,
        "titlepage",
    ) || is(&s, "half title") || is(&s, "contents") || is(&s, "table of contents") || is(
        &s,
        "toc",
    ) || is(&s, "copyright") || is(&s, "copyright page") || is(&s, "dedication") || is(
        &s,
        "colophon",
    ) || is(&s, "\u{8868}\u{7d19}") || is(&s, "\u{6249}") || is(&s, "\u{76ee}\u{6b21}") || is(
        &s,
        "\u{5965}\u{4ed8}",
    ) || is(&s, "\u{53e3}\u{7d75}")
}

/// How many of the first `n` entries are chapters.
pub open spec fn chapters_to(v: Seq<(Seq<char>, Seq<char>)>, n: int) -> int
    decreases n,
{
    if n <= 0 {
        0
    } else {
        chapters_to(v, n - 1) + if spec_is_front_matter(v[n - 1].0) {
            0int
        } else {
            1
        }
    }
}

/// How many of the entries, those below others too, are chapters.
pub open spec fn spec_count_chapters(v: Seq<Toc>) -> int {
    let flat = toc::spec_flatten(v);
    chapters_to(flat, flat.len() as int)
}

fn count_chapters(v: &Vec<TocEntry>) -> (r: usize)
    ensures
        r == spec_count_chapters(toc::tocs(v@)),
{
    let flat = flatten(v);
    let ghost all = edit::pairs(flat@);
    let mut n: usize = 0;
    let mut i: usize = 0;
    while i < flat.len()
        invariant
            i <= flat@.len(),
            all == edit::pairs(flat@),
            n <= i,
            n == chapters_to(all, i as int),
        decreases flat@.len() - i,
    {
        assert(all[i as int] == (flat@[i as int].0@, flat@[i as int].1@));
        if !is_front_matter(&flat[i].0) {
            n = n + 1;
        }
        i = i + 1;
    }
    n
}

// ---------------------------------------------------------------- the contents page

/// The landmarks of the navigation document, then those of the guide, as zip
/// paths.
pub open spec fn spec_book_landmarks(p: Seq<Part>, b: Book, base: Seq<char>, opf: Seq<char>) -> Seq<
    Mark,
> {
    let guide = toc::spec_parse_opf_guide(opf);
    (match b.nav_href {
        Some(h) => {
            let abs = package::spec_abs(base, h);
            match package::spec_text(p, abs) {
                Some(t) => {
                    let v = toc::spec_parse_nav_landmarks(t);
                    upgrade::marks_resolved(v, structure::spec_dir_of(abs), v.len() as int)
                },
                None => Seq::empty(),
            }
        },
        None => Seq::empty(),
    }) + upgrade::marks_resolved(guide, base, guide.len() as int)
}

/// The filename that the first landmark of the table of contents from `i` on
/// names.
pub open spec fn toc_mark(v: Seq<Mark>, i: int) -> Option<Seq<char>>
    decreases v.len() - i,
{
    if i < 0 || i >= v.len() {
        None
    } else if v[i].landmark_type == LandmarkType::Toc {
        Some(structure::spec_basename(v[i].href))
    } else {
        toc_mark(v, i + 1)
    }
}

fn append_marks(a: &mut Vec<Landmark>, b: Vec<Landmark>)
    ensures
        toc::marks(final(a)@) == toc::marks(old(a)@) + toc::marks(b@),
{
    let ghost first = toc::marks(a@);
    let ghost all = toc::marks(b@);
    let mut i: usize = 0;
    assert(first + all.take(0) =~= first);
    while i < b.len()
        invariant
            i <= b@.len(),
            all == toc::marks(b@),
            toc::marks(a@) == first + all.take(i as int),
        decreases b@.len() - i,
    {
        assert(all[i as int] == b@[i as int]@);
        let l = Landmark {
            landmark_type: b[i].landmark_type,
            href: b[i].href.clone(),
            label: b[i].label.clone(),
        };
        proof {
            toc::lemma_marks_push(a@, l);
        }
        a.push(l);
        assert((first + all.take(i as int)).push(all[i as int]) =~= first + all.take(i + 1));
        i = i + 1;
    }
    assert(all.take(b@.len() as int) =~= all);
}

fn book_landmarks(pkg: &EpubPackage, opf: &OpfData, base: &str, opf_text: &str) -> (r: Vec<Landmark>)
    ensures
        toc::marks(r@) == spec_book_landmarks(pkg@, opf@, base@, opf_text@),
{
    let mut out: Vec<Landmark> = Vec::new();
    assert(toc::marks(out@) =~= Seq::<Mark>::empty());
    if let Some(h) = &opf.nav_href {
        let abs = abs_path(base, h);
        if let Some(t) = member_text(pkg, &abs) {
            let v = parse_nav_landmarks(&t);
            assert(toc::marks(v@).len() == v@.len());
            out = resolve_marks(v, &dir_of(&abs));
        }
    }
    let guide = parse_opf_guide(opf_text);
    assert(toc::marks(guide@).len() == guide@.len());
    append_marks(&mut out, resolve_marks(guide, base));
    out
}

fn toc_landmark_basename(pkg: &EpubPackage, opf: &OpfData, base: &str, opf_text: &str) -> (r: Option<
    String,
>)
    ensures
        text::opt_str(r) == toc_mark(spec_book_landmarks(pkg@, opf@, base@, opf_text@), 0),
{
    let v = book_landmarks(pkg, opf, base, opf_text);
    let ghost all = toc::marks(v@);
    let mut i: usize = 0;
    while i < v.len()
        invariant
            i <= v@.len(),
            all == toc::marks(v@),
            all == spec_book_landmarks(pkg@, opf@, base@, opf_text@),
            toc_mark(all, 0) == toc_mark(all, i as int),
        decreases v@.len() - i,
    {
        assert(all[i as int] == v@[i as int]@);
        if v[i].landmark_type == LandmarkType::Toc {
            return Some(basename(&v[i].href));
        }
        i = i + 1;
    }
    None
}

/// The filenames of the spine.
pub open spec fn files_of(spine: Seq<(Seq<char>, Seq<char>)>) -> Seq<Seq<char>> {
    spine.map_values(|s: (Seq<char>, Seq<char>)| s.1)
}

/// The entries for the links that the document `i` of the spine makes to others.
pub open spec fn page_entries(p: Seq<Part>, spine: Seq<(Seq<char>, Seq<char>)>, i: int) -> Seq<Toc> {
    match package::spec_text(p, spine[i].0) {
        Some(t) => spec_dedup(
            structure::links_from(
                t,
                structure::spec_dir_of(spine[i].0),
                files_of(spine),
                spine[i].1,
                0,
            ),
        ),
        None => Seq::empty(),
    }
}

/// The richest page of links among the first `n` documents, and the first of
/// them that the landmark names and that has enough.
pub open spec fn contents_to(
    p: Seq<Part>,
    spine: Seq<(Seq<char>, Seq<char>)>,
    mark: Option<Seq<char>>,
    n: int,
) -> (Seq<Toc>, Option<Seq<Toc>>)
    decreases n,
{
    if n <= 0 {
        (Seq::empty(), None)
    } else {
        let (best, hit) = contents_to(p, spine, mark, n - 1);
        let v = page_entries(p, spine, n - 1);
        (
            if v.len() > best.len() {
                v
            } else {
                best
            },
            if hit is None && mark == Some(spine[n - 1].1) && v.len() >= MIN_CHAPTER_LINKS {
                Some(v)
            } else {
                hit
            },
        )
    }
}

/// The entries of the contents page: of the page that a landmark names, else of
/// the richest page of links.
pub open spec fn spec_contents(p: Seq<Part>, b: Book, base: Seq<char>, opf: Seq<char>) -> Seq<Toc> {
    let spine = package::spec_spine_documents(b, base);
    let (best, hit) = contents_to(
        p,
        spine,
        toc_mark(spec_book_landmarks(p, b, base, opf), 0),
        spine.len() as int,
    );
    match hit {
        Some(v) => v,
        None => best,
    }
}

pub fn file_names(spine: &Vec<(String, String)>) -> (r: Vec<String>)
    ensures
        text::strs(r@) == files_of(edit::pairs(spine@)),
{
    let ghost all = files_of(edit::pairs(spine@));
    let mut out: Vec<String> = Vec::new();
    let mut i: usize = 0;
    assert(text::strs(out@) =~= all.take(0));
    while i < spine.len()
        invariant
            i <= spine@.len(),
            all == files_of(edit::pairs(spine@)),
            text::strs(out@) == all.take(i as int),
        decreases spine@.len() - i,
    {
        add_str(&mut out, spine[i].1.clone());
        assert(all[i as int] == spine@[i as int].1@);
        assert(all.take(i + 1) =~= all.take(i as int).push(all[i as int]));
        i = i + 1;
    }
    assert(all.take(spine@.len() as int) =~= all);
    out
}

fn page_entries_of(pkg: &EpubPackage, spine: &Vec<(String, String)>, files: &Vec<String>, i: usize) -> (r:
    Vec<TocEntry>)
    requires
        i < spine@.len(),
        text::strs(files@) == files_of(edit::pairs(spine@)),
    ensures
        toc::tocs(r@) == page_entries(pkg@, edit::pairs(spine@), i as int),
{
    let ghost ss = edit::pairs(spine@);
    assert(ss[i as int] == (spine@[i as int].0@, spine@[i as int].1@));
    match member_text(pkg, &spine[i].0) {
        Some(t) => dedup_entries(
            &internal_links(&t, &dir_of(&spine[i].0), files, &spine[i].1),
        ),
        None => Vec::new(),
    }
}

/// The entries of the contents page: of the page that a landmark names, else of
/// the richest page of links.
pub fn contents_page_links(pkg: &EpubPackage, opf: &OpfData, opf_base: &str, opf_str: &str) -> (r: Vec<
    TocEntry,
>)
    ensures
        toc::tocs(r@) == spec_contents(pkg@, opf@, opf_base@, opf_str@),
{
    let spine = spine_documents(opf, opf_base);
    let files = file_names(&spine);
    let mark = toc_landmark_basename(pkg, opf, opf_base, opf_str);
    let ghost ss = edit::pairs(spine@);
    let ghost ms = text::opt_str(mark);
    let mut best: Vec<TocEntry> = Vec::new();
    let mut hit: Option<Vec<TocEntry>> = None;
    let mut i: usize = 0;
    while i < spine.len()
        invariant
            i <= spine@.len(),
            ss == edit::pairs(spine@),
            ms == text::opt_str(mark),
            text::strs(files@) == files_of(ss),
            (
                toc::tocs(best@),
                match hit {
                    Some(v) => Some(toc::tocs(v@)),
                    None => None,
                },
            ) == contents_to(pkg@, ss, ms, i as int),
        decreases spine@.len() - i,
    {
        assert(ss[i as int] == (spine@[i as int].0@, spine@[i as int].1@));
        let v = page_entries_of(pkg, &spine, &files, i);
        proof {
            toc::lemma_tocs(v@);
            toc::lemma_tocs(best@);
        }
        let named = match &mark {
            Some(m) => str_is(m, &spine[i].1),
            None => false,
        };
        if hit.is_none() && named && v.len() >= MIN_CHAPTER_LINKS {
            hit = Some(copy_entries(&v));
        }
        if v.len() > best.len() {
            best = v;
        }
        i = i + 1;
    }
    assert(ss.len() == spine@.len());
    match hit {
        Some(v) => v,
        None => best,
    }
}

// ---------------------------------------------------------------- volumes

/// The document `i` of the spine starts a volume: the table of contents points
/// at it, and it is a page of pictures.
pub open spec fn is_start(
    p: Seq<Part>,
    spine: Seq<(Seq<char>, Seq<char>)>,
    targets: Seq<Seq<char>>,
    i: int,
) -> bool {
    targets.contains(spine[i].0) && (package::spec_text(p, spine[i].0) matches Some(t)
        && page_shape::spec_image_only(t))
}

/// The places before `n` that start volumes; the first document starts none.
pub open spec fn starts_to(
    p: Seq<Part>,
    spine: Seq<(Seq<char>, Seq<char>)>,
    targets: Seq<Seq<char>>,
    n: int,
) -> Seq<int>
    decreases n,
{
    if n <= 1 {
        Seq::empty()
    } else if is_start(p, spine, targets, n - 1) {
        starts_to(p, spine, targets, n - 1).push(n - 1)
    } else {
        starts_to(p, spine, targets, n - 1)
    }
}

/// The documents that the first `n` entries open.
pub open spec fn documents_to(v: Seq<Toc>, n: int) -> Seq<Seq<char>>
    decreases n,
{
    if n <= 0 {
        Seq::empty()
    } else {
        documents_to(v, n - 1).push(toc_shape::document(v[n - 1].href))
    }
}

/// The documents that the entries open.
pub open spec fn documents(v: Seq<Toc>) -> Seq<Seq<char>> {
    documents_to(v, v.len() as int)
}

/// The first contents page from `i` up to `end` as the members of a volume: the
/// documents that it links, and itself.
pub open spec fn members_from(p: Seq<Part>, spine: Seq<(Seq<char>, Seq<char>)>, i: int, end: int) -> Option<
    Seq<Seq<char>>,
>
    decreases end - i,
{
    if i < 0 || i >= end {
        None
    } else {
        let links = page_entries(p, spine, i);
        if links.len() < structure::MIN_SECTION_CONTENTS_LINKS {
            members_from(p, spine, i + 1, end)
        } else {
            Some(documents(links).push(spine[i].0))
        }
    }
}

/// The volumes that the first `n` starts open.
pub open spec fn groups_to(
    p: Seq<Part>,
    spine: Seq<(Seq<char>, Seq<char>)>,
    starts: Seq<int>,
    n: int,
) -> Seq<Volume>
    decreases n,
{
    if n <= 0 {
        Seq::empty()
    } else {
        let before = groups_to(p, spine, starts, n - 1);
        let end = if n < starts.len() {
            starts[n]
        } else {
            spine.len() as int
        };
        match members_from(p, spine, starts[n - 1], end) {
            Some(members) => before.push(Volume { start: spine[starts[n - 1]].0, members }),
            None => before,
        }
    }
}

/// The volumes that a book evidences about itself: each opens with a page of
/// pictures that the table of contents points at, and holds a contents page. One
/// alone is no volume structure.
pub open spec fn spec_volume_groups(
    p: Seq<Part>,
    spine: Seq<(Seq<char>, Seq<char>)>,
    targets: Seq<Seq<char>>,
) -> Seq<Volume> {
    let starts = starts_to(p, spine, targets, spine.len() as int);
    let groups = groups_to(p, spine, starts, starts.len() as int);
    if starts.len() < 2 || groups.len() < 2 {
        Seq::empty()
    } else {
        groups
    }
}

fn documents_of(v: &Vec<TocEntry>) -> (r: Vec<Vec<char>>)
    ensures
        text::texts(r@) == documents(toc::tocs(v@)),
{
    let ghost vs = toc::tocs(v@);
    proof {
        toc::lemma_tocs(v@);
    }
    let mut out: Vec<Vec<char>> = Vec::new();
    let mut i: usize = 0;
    assert(text::texts(out@) =~= Seq::<Seq<char>>::empty());
    while i < v.len()
        invariant
            i <= v@.len(),
            vs == toc::tocs(v@),
            vs.len() == v@.len(),
            forall|k: int| 0 <= k < v@.len() ==> #[trigger] vs[k] == toc::toc(v@[k]),
            text::texts(out@) == documents_to(vs, i as int),
        decreases v@.len() - i,
    {
        assert(vs[i as int] == toc::toc(v@[i as int]));
        add_text(&mut out, chars_of(&strip_fragment(&v[i].href)));
        i = i + 1;
    }
    out
}

fn starts_of(pkg: &EpubPackage, spine: &Vec<(String, String)>, targets: &Vec<Vec<char>>) -> (r: Vec<
    usize,
>)
    ensures
        toc_shape::ints(r@) == starts_to(
            pkg@,
            edit::pairs(spine@),
            text::texts(targets@),
            spine@.len() as int,
        ),
        forall|k: int| 0 <= k < r@.len() ==> (#[trigger] r@[k]) < spine@.len(),
        forall|k: int, l: int| 0 <= k < l < r@.len() ==> (#[trigger] r@[k]) < (#[trigger] r@[l]),
{
    let ghost ss = edit::pairs(spine@);
    let ghost ts = text::texts(targets@);
    let mut out: Vec<usize> = Vec::new();
    assert(toc_shape::ints(out@) =~= Seq::<int>::empty());
    let mut i: usize = 1;
    while i < spine.len()
        invariant
            1 <= i,
            i <= spine@.len() || spine@.len() == 0,
            ss == edit::pairs(spine@),
            ts == text::texts(targets@),
            toc_shape::ints(out@) == starts_to(
                pkg@,
                ss,
                ts,
                if i <= spine@.len() {
                    i as int
                } else {
                    spine@.len() as int
                },
            ),
            forall|k: int| 0 <= k < out@.len() ==> (#[trigger] out@[k]) < i && out@[k]
                < spine@.len(),
            forall|k: int, l: int|
                0 <= k < l < out@.len() ==> (#[trigger] out@[k]) < (#[trigger] out@[l]),
        decreases spine@.len() - i,
    {
        assert(ss[i as int] == (spine@[i as int].0@, spine@[i as int].1@));
        if list_has(targets, &chars_of(&spine[i].0)) {
            if let Some(t) = member_text(pkg, &spine[i].0) {
                if is_image_only_page(&t) {
                    let ghost before = toc_shape::ints(out@);
                    out.push(i);
                    assert(toc_shape::ints(out@) =~= before.push(i as int));
                }
            }
        }
        i = i + 1;
    }
    out
}

spec fn texts_said(r: Option<Vec<Vec<char>>>) -> Option<Seq<Seq<char>>> {
    match r {
        Some(v) => Some(text::texts(v@)),
        None => None,
    }
}

fn members_of(
    pkg: &EpubPackage,
    spine: &Vec<(String, String)>,
    files: &Vec<String>,
    from: usize,
    end: usize,
) -> (r: Option<Vec<Vec<char>>>)
    requires
        from <= end <= spine@.len(),
        text::strs(files@) == files_of(edit::pairs(spine@)),
    ensures
        texts_said(r) == members_from(pkg@, edit::pairs(spine@), from as int, end as int),
{
    let ghost ss = edit::pairs(spine@);
    let mut i: usize = from;
    while i < end
        invariant
            from <= i <= end <= spine@.len(),
            ss == edit::pairs(spine@),
            text::strs(files@) == files_of(ss),
            members_from(pkg@, ss, from as int, end as int) == members_from(
                pkg@,
                ss,
                i as int,
                end as int,
            ),
        decreases end - i,
    {
        assert(ss[i as int] == (spine@[i as int].0@, spine@[i as int].1@));
        let links = page_entries_of(pkg, spine, files, i);
        proof {
            toc::lemma_tocs(links@);
        }
        if links.len() >= MIN_SECTION_CONTENTS_LINKS {
            let mut members = documents_of(&links);
            add_text(&mut members, chars_of(&spine[i].0));
            return Some(members);
        }
        i = i + 1;
    }
    None
}

/// The volumes that a book evidences about itself, in the order of the spine.
pub fn volume_groups(pkg: &EpubPackage, spine: &Vec<(String, String)>, targets: &Vec<Vec<char>>) -> (r:
    Vec<VolumeGroup>)
    ensures
        toc_shape::volumes(r@) == spec_volume_groups(
            pkg@,
            edit::pairs(spine@),
            text::texts(targets@),
        ),
{
    let ghost ss = edit::pairs(spine@);
    let files = file_names(spine);
    let starts = starts_of(pkg, spine, targets);
    let ghost st = toc_shape::ints(starts@);
    assert(st.len() == starts@.len());
    assert(ss.len() == spine@.len());
    let mut out: Vec<VolumeGroup> = Vec::new();
    assert(toc_shape::volumes(out@) =~= Seq::<Volume>::empty());
    if starts.len() < 2 {
        return out;
    }
    let mut n: usize = 0;
    while n < starts.len()
        invariant
            n <= starts@.len(),
            ss == edit::pairs(spine@),
            ss.len() == spine@.len(),
            text::strs(files@) == files_of(ss),
            st == toc_shape::ints(starts@),
            st.len() == starts@.len(),
            forall|k: int| 0 <= k < starts@.len() ==> (#[trigger] starts@[k]) < spine@.len(),
            forall|k: int, l: int|
                0 <= k < l < starts@.len() ==> (#[trigger] starts@[k]) < (#[trigger] starts@[l]),
            toc_shape::volumes(out@) == groups_to(pkg@, ss, st, n as int),
        decreases starts@.len() - n,
    {
        assert(st[n as int] == starts@[n as int]);
        let start = starts[n];
        let end = if n < starts.len() - 1 {
            assert(st[n + 1] == starts@[n + 1]);
            starts[n + 1]
        } else {
            spine.len()
        };
        assert(ss[start as int] == (spine@[start as int].0@, spine@[start as int].1@));
        if let Some(members) = members_of(pkg, spine, &files, start, end) {
            let g = VolumeGroup { start: spine[start].0.clone(), members };
            let ghost gv = g@;
            let ghost before = toc_shape::volumes(out@);
            out.push(g);
            assert(toc_shape::volumes(out@) =~= before.push(gv));
        }
        n = n + 1;
    }
    assert(toc_shape::volumes(out@).len() == out@.len());
    if out.len() < 2 {
        let none: Vec<VolumeGroup> = Vec::new();
        assert(toc_shape::volumes(none@) =~= Seq::<Volume>::empty());
        none
    } else {
        out
    }
}

// ---------------------------------------------------------------- the proposal

/// What the book itself says of its chapters beside the declared table of
/// contents: its contents page, else, where that declares too few chapters, its
/// headings.
pub open spec fn derived(p: Seq<Part>, b: Book, base: Seq<char>, opf: Seq<char>) -> Seq<Toc> {
    let spine = package::spec_spine_documents(b, base);
    let contents = spec_contents(p, b, base, opf);
    let headings = headings_to(p, spine, spine.len() as int);
    if contents.len() >= MIN_CHAPTER_LINKS {
        contents
    } else if spec_count_chapters(spec_existing_declared(p, b, base)) >= MIN_CHAPTER_LINKS {
        Seq::empty()
    } else if headings.len() >= MIN_CHAPTER_LINKS {
        headings
    } else {
        Seq::empty()
    }
}

/// The table of contents that is proposed for a package: every declared entry,
/// the derived ones among them, and the levels that the book evidences.
pub open spec fn spec_propose(p: Seq<Part>, b: Book, base: Seq<char>, opf: Seq<char>) -> Seq<Toc> {
    let spine = package::spec_spine_documents(b, base);
    let entries = toc_shape::spec_merge(
        spec_existing_declared(p, b, base),
        derived(p, b, base, opf),
        spine,
    );
    toc_shape::spec_nest_levels(entries, spec_volume_groups(p, spine, documents(entries)))
}

/// The table of contents that is proposed for a package.
pub fn propose_from_pkg(pkg: &EpubPackage, opf: &OpfData, opf_base: &str, opf_str: &str) -> (r: Vec<
    TocEntry,
>)
    ensures
        toc::tocs(r@) == spec_propose(pkg@, opf@, opf_base@, opf_str@),
{
    let declared = existing_declared_toc(pkg, opf, opf_base);
    let spine = spine_documents(opf, opf_base);
    assert(edit::pairs(spine@).len() == spine@.len());
    let contents = contents_page_links(pkg, opf, opf_base, opf_str);
    proof {
        toc::lemma_tocs(contents@);
    }
    let found = if contents.len() >= MIN_CHAPTER_LINKS {
        contents
    } else if count_chapters(&declared) >= MIN_CHAPTER_LINKS {
        Vec::new()
    } else {
        let headings = propose_from_headings(pkg, &spine);
        proof {
            toc::lemma_tocs(headings@);
        }
        if headings.len() >= MIN_CHAPTER_LINKS {
            headings
        } else {
            Vec::new()
        }
    };
    assert(toc::tocs(found@) =~= derived(pkg@, opf@, opf_base@, opf_str@));
    let entries = merge_by_document_order(declared, found, &spine);
    let targets = documents_of(&entries);
    let groups = volume_groups(pkg, &spine, &targets);
    nest_levels(entries, &groups)
}

/// The package and its package document, where the bytes hold an EPUB.
pub open spec fn read_book(bytes: Seq<u8>) -> Result<(Seq<Part>, Found), Fault> {
    match edit::spec_parse(bytes) {
        None => Err(Fault::Archive),
        Some(p) => match package::spec_package_doc(p) {
            Err(f) => Err(f),
            Ok(d) => Ok((p, d)),
        },
    }
}

pub open spec fn book_said(r: Result<(EpubPackage, PackageDoc), Error>) -> Result<
    (Seq<Part>, Found),
    Fault,
> {
    match r {
        Ok((p, d)) => Ok((p@, d@)),
        Err(e) => Err(e@),
    }
}

pub fn read_book_of(bytes: &[u8]) -> (r: Result<(EpubPackage, PackageDoc), Error>)
    ensures
        book_said(r) == read_book(bytes@),
        r matches Ok((_, d)) ==> d.base@ == d@.base(),
{
    match EpubPackage::parse(bytes) {
        Err(e) => Err(e),
        Ok(p) => match package_doc(&p) {
            Err(e) => Err(e),
            Ok(d) => Ok((p, d)),
        },
    }
}

pub open spec fn tocs_result(r: Result<Vec<TocEntry>, Error>) -> Result<Seq<Toc>, Fault> {
    match r {
        Ok(v) => Ok(toc::tocs(v@)),
        Err(e) => Err(e@),
    }
}

/// The table of contents that is proposed for an EPUB.
pub open spec fn spec_propose_toc(bytes: Seq<u8>) -> Result<Seq<Toc>, Fault> {
    match read_book(bytes) {
        Err(f) => Err(f),
        Ok((p, d)) => Ok(spec_propose(p, d.book, d.base(), d.text)),
    }
}

/// A chapter list from the EPUB's own structure, for `set_toc`: its declared
/// table of contents, and what its contents page or its headings add. Empty
/// where nothing is found.
pub fn propose_toc(epub_bytes: &[u8]) -> (r: Result<Vec<TocEntry>, Error>)
    ensures
        tocs_result(r) == spec_propose_toc(epub_bytes@),
{
    match read_book_of(epub_bytes) {
        Err(e) => Err(e),
        Ok((p, d)) => Ok(propose_from_pkg(&p, &d.opf, &d.base, &d.text)),
    }
}

/// How much structure a declared table of contents has lost. All zeros: nothing
/// to restore.
#[derive(Debug, Clone, Copy, PartialEq, Eq, Structural)]
pub struct Flattening {
    /// Volumes that the book evidences about itself but that stand at the same
    /// depth as their own chapters.
    pub volumes: usize,
    /// Declared top-level entries that belong under one of those volumes.
    pub misplaced: usize,
}

impl Default for Flattening {
    fn default() -> (r: Flattening)
        ensures
            r.volumes == 0,
            r.misplaced == 0,
    {
        Flattening { volumes: 0, misplaced: 0 }
    }
}

/// How many of the first `n` entries have entries below them.
pub open spec fn parents_to(v: Seq<Toc>, n: int) -> int
    decreases n,
{
    if n <= 0 {
        0
    } else {
        parents_to(v, n - 1) + if v[n - 1].children.len() > 0 {
            1int
        } else {
            0
        }
    }
}

/// The volumes that a declared table of contents has lost, and how many of its
/// entries belong under them.
pub open spec fn flattening(p: Seq<Part>, b: Book, base: Seq<char>) -> (int, int) {
    let declared = spec_existing_declared(p, b, base);
    let spine = package::spec_spine_documents(b, base);
    let nested = toc_shape::spec_nest_by_volumes(
        declared,
        spec_volume_groups(p, spine, documents(declared)),
    );
    if declared.len() < 2 || !toc_shape::is_flat(declared) {
        (0, 0)
    } else {
        (parents_to(nested, nested.len() as int), declared.len() - nested.len())
    }
}

pub open spec fn flattening_result(r: Result<Flattening, Error>) -> Result<(int, int), Fault> {
    match r {
        Ok(f) => Ok((f.volumes as int, f.misplaced as int)),
        Err(e) => Err(e@),
    }
}

/// The volumes that an EPUB's declared table of contents has lost.
pub open spec fn spec_flattening(bytes: Seq<u8>) -> Result<(int, int), Fault> {
    match read_book(bytes) {
        Err(f) => Err(f),
        Ok((p, d)) => Ok(flattening(p, d.book, d.base())),
    }
}

fn parents_of(v: &Vec<TocEntry>) -> (r: usize)
    ensures
        r == parents_to(toc::tocs(v@), v@.len() as int),
{
    let ghost vs = toc::tocs(v@);
    proof {
        toc::lemma_tocs(v@);
    }
    let mut n: usize = 0;
    let mut i: usize = 0;
    while i < v.len()
        invariant
            i <= v@.len(),
            vs == toc::tocs(v@),
            vs.len() == v@.len(),
            forall|k: int| 0 <= k < v@.len() ==> #[trigger] vs[k] == toc::toc(v@[k]),
            n <= i,
            n == parents_to(vs, i as int),
        decreases v@.len() - i,
    {
        assert(vs[i as int] == toc::toc(v@[i as int]));
        proof {
            toc::lemma_tocs(v@[i as int].children@);
        }
        if v[i].children.len() > 0 {
            n = n + 1;
        }
        i = i + 1;
    }
    n
}

proof fn lemma_forest_len(v: Seq<Toc>, d: Seq<int>, a: int, b: int)
    requires
        a <= b,
    ensures
        toc_shape::forest(v, d, a, b).len() <= b - a,
    decreases b - a,
{
    if a < b {
        let j = toc_shape::next_up(d, a + 1, b, d[a]);
        toc_shape::lemma_next_up(d, a + 1, b, d[a]);
        lemma_forest_len(v, d, j, b);
    }
}

/// How much structure an EPUB's declared table of contents has lost, by the rule
/// that the repair restores it by: a book that lists every volume and every
/// chapter at one depth.
pub fn declared_toc_flattening(epub_bytes: &[u8]) -> (r: Result<Flattening, Error>)
    ensures
        flattening_result(r) == spec_flattening(epub_bytes@),
{
    let (p, d) = match read_book_of(epub_bytes) {
        Ok(b) => b,
        Err(e) => {
            return Err(e);
        },
    };
    let declared = existing_declared_toc(&p, &d.opf, &d.base);
    let ghost ds = toc::tocs(declared@);
    proof {
        toc::lemma_tocs(declared@);
    }
    if declared.len() < 2 || parents_of(&declared) > 0 {
        proof {
            if declared@.len() >= 2 {
                lemma_parents(ds, ds.len() as int);
            }
        }
        return Ok(Flattening { volumes: 0, misplaced: 0 });
    }
    proof {
        lemma_parents(ds, ds.len() as int);
    }
    let spine = spine_documents(&d.opf, &d.base);
    let targets = documents_of(&declared);
    let groups = volume_groups(&p, &spine, &targets);
    let n = declared.len();
    let nested = nest_by_volume_groups(declared, &groups);
    proof {
        toc::lemma_tocs(nested@);
        lemma_forest_len(
            ds,
            toc_shape::volume_depths(
                ds,
                toc_shape::volumes(groups@),
                ds.len() as int,
            ).1,
            0,
            ds.len() as int,
        );
    }
    Ok(Flattening { volumes: parents_of(&nested), misplaced: n - nested.len() })
}

proof fn lemma_parents(v: Seq<Toc>, n: int)
    requires
        0 <= n <= v.len(),
    ensures
        parents_to(v, n) >= 0,
        parents_to(v, n) == 0 <==> forall|i: int|
            0 <= i < n ==> (#[trigger] v[i]).children.len() == 0,
    decreases n,
{
    if n > 0 {
        lemma_parents(v, n - 1);
    }
}

proof fn lemma_target_of_entry(v: Seq<Toc>, k: int, x: Seq<char>)
    requires
        0 <= k < v.len(),
        x == v[k].href || toc_shape::targets(v[k].children).contains(x),
    ensures
        toc_shape::targets(v).contains(x),
    decreases v.len(),
{
    let front = v.drop_last();
    let a = toc_shape::targets(front);
    let c = toc_shape::targets(v.last().children);
    toc_shape::lemma_targets_last(v);
    let all = a.push(v.last().href) + c;
    if k == v.len() - 1 {
        if x == v[k].href {
            assert(all[a.len() as int] == x);
        } else {
            let j = choose|j: int| 0 <= j < c.len() && c[j] == x;
            assert(all[a.len() + 1 + j] == x);
        }
    } else {
        assert(front[k] == v[k]);
        lemma_target_of_entry(front, k, x);
        let j = choose|j: int| 0 <= j < a.len() && a[j] == x;
        assert(all[j] == x);
    }
}

proof fn lemma_entry_of_target(v: Seq<Toc>, x: Seq<char>) -> (k: int)
    requires
        toc_shape::targets(v).contains(x),
    ensures
        0 <= k < v.len(),
        x == v[k].href || toc_shape::targets(v[k].children).contains(x),
    decreases v.len(),
{
    let all = toc_shape::targets(v);
    let j = choose|j: int| 0 <= j < all.len() && all[j] == x;
    if v.len() == 0 {
        assert(all.len() == 0);
        0
    } else {
        toc_shape::lemma_targets_last(v);
        let a = toc_shape::targets(v.drop_last());
        let c = toc_shape::targets(v.last().children);
        if j < a.len() {
            assert(a[j] == x);
            let k = lemma_entry_of_target(v.drop_last(), x);
            assert(v[k] == v.drop_last()[k]);
            k
        } else if j == a.len() {
            v.len() - 1
        } else {
            assert(c[j - a.len() - 1] == x);
            v.len() - 1
        }
    }
}

/// A proposal drops no target that the declared table of contents has.
pub proof fn a_proposal_keeps_every_declared_target(
    p: Seq<Part>,
    b: Book,
    base: Seq<char>,
    opf: Seq<char>,
    x: Seq<char>,
)
    requires
        toc_shape::targets(spec_existing_declared(p, b, base)).contains(x),
    ensures
        toc_shape::targets(spec_propose(p, b, base, opf)).contains(x),
{
    let declared = spec_existing_declared(p, b, base);
    let found = derived(p, b, base, opf);
    let spine = package::spec_spine_documents(b, base);
    let entries = toc_shape::spec_merge(declared, found, spine);
    toc_shape::a_merge_keeps_every_declared_entry(declared, found, spine);
    let k = lemma_entry_of_target(declared, x);
    assert(declared.contains(declared[k]));
    let m = choose|m: int| 0 <= m < entries.len() && entries[m] == declared[k];
    lemma_target_of_entry(entries, m, x);
    toc_shape::nesting_keeps_every_target(
        entries,
        spec_volume_groups(p, spine, documents(entries)),
    );
}

/// An entry is listed among those it stands with, and so is what stands below it.
proof fn lemma_listed_entry(v: Seq<Toc>, k: int, x: (Seq<char>, Seq<char>))
    requires
        0 <= k < v.len(),
        x == (text::spec_trim_start(v[k].title), v[k].href) || toc_shape::listed(
            v[k].children,
        ).contains(x),
    ensures
        toc_shape::listed(v).contains(x),
    decreases v.len(),
{
    let front = v.drop_last();
    let a = toc_shape::listed(front);
    let c = toc_shape::listed(v.last().children);
    toc_shape::lemma_listed_last(v);
    let all = a.push((text::spec_trim_start(v.last().title), v.last().href)) + c;
    if k == v.len() - 1 {
        if x == (text::spec_trim_start(v[k].title), v[k].href) {
            assert(all[a.len() as int] == x);
        } else {
            let j = choose|j: int| 0 <= j < c.len() && c[j] == x;
            assert(all[a.len() + 1 + j] == x);
        }
    } else {
        assert(front[k] == v[k]);
        lemma_listed_entry(front, k, x);
        let j = choose|j: int| 0 <= j < a.len() && a[j] == x;
        assert(all[j] == x);
    }
}

proof fn lemma_entry_listed(v: Seq<Toc>, x: (Seq<char>, Seq<char>)) -> (k: int)
    requires
        toc_shape::listed(v).contains(x),
    ensures
        0 <= k < v.len(),
        x == (text::spec_trim_start(v[k].title), v[k].href) || toc_shape::listed(
            v[k].children,
        ).contains(x),
    decreases v.len(),
{
    let all = toc_shape::listed(v);
    let j = choose|j: int| 0 <= j < all.len() && all[j] == x;
    if v.len() == 0 {
        assert(all.len() == 0);
        0
    } else {
        toc_shape::lemma_listed_last(v);
        let a = toc_shape::listed(v.drop_last());
        let c = toc_shape::listed(v.last().children);
        if j < a.len() {
            assert(a[j] == x);
            let k = lemma_entry_listed(v.drop_last(), x);
            assert(v[k] == v.drop_last()[k]);
            k
        } else if j == a.len() {
            v.len() - 1
        } else {
            assert(c[j - a.len() - 1] == x);
            v.len() - 1
        }
    }
}

/// A proposal drops no entry that the declared table of contents has: each
/// target comes with its label. White space before a label, which indents it,
/// is not counted.
pub proof fn a_proposal_keeps_every_declared_entry(
    p: Seq<Part>,
    b: Book,
    base: Seq<char>,
    opf: Seq<char>,
    x: (Seq<char>, Seq<char>),
)
    requires
        toc_shape::listed(spec_existing_declared(p, b, base)).contains(x),
    ensures
        toc_shape::listed(spec_propose(p, b, base, opf)).contains(x),
{
    let declared = spec_existing_declared(p, b, base);
    let found = derived(p, b, base, opf);
    let spine = package::spec_spine_documents(b, base);
    let entries = toc_shape::spec_merge(declared, found, spine);
    toc_shape::a_merge_keeps_every_declared_entry(declared, found, spine);
    let k = lemma_entry_listed(declared, x);
    assert(declared.contains(declared[k]));
    let m = choose|m: int| 0 <= m < entries.len() && entries[m] == declared[k];
    lemma_listed_entry(entries, m, x);
    toc_shape::nesting_keeps_every_label(
        entries,
        spec_volume_groups(p, spine, documents(entries)),
    );
}

pub proof fn lemma_same_documents(a: Seq<Toc>, b: Seq<Toc>, n: int)
    requires
        0 <= n <= a.len() == b.len(),
        forall|i: int|
            0 <= i < a.len() ==> toc_shape::document((#[trigger] a[i]).href) == toc_shape::document(
                b[i].href,
            ),
    ensures
        documents_to(a, n) == documents_to(b, n),
    decreases n,
{
    if n > 0 {
        lemma_same_documents(a, b, n - 1);
        assert(toc_shape::document(a[n - 1].href) == toc_shape::document(b[n - 1].href));
    }
}

/// A proposal has every volume that the book evidences about itself: the rule
/// that measures how flat a table of contents is would move nothing in it.
pub proof fn a_proposal_has_its_volumes(p: Seq<Part>, b: Book, base: Seq<char>, opf: Seq<char>)
    ensures
        ({
            let v = spec_propose(p, b, base, opf);
            let groups = spec_volume_groups(p, package::spec_spine_documents(b, base), documents(v));
            toc_shape::spec_nest_by_volumes(v, groups) == v
        }),
{
    let spine = package::spec_spine_documents(b, base);
    let entries = toc_shape::spec_merge(
        spec_existing_declared(p, b, base),
        derived(p, b, base, opf),
        spine,
    );
    let groups = spec_volume_groups(p, spine, documents(entries));
    let v = spec_propose(p, b, base, opf);
    toc_shape::a_nested_list_has_its_volumes(entries, groups);
    if toc_shape::is_flat(v) {
        lemma_same_documents(v, entries, v.len() as int);
    }
}

// ---------------------------------------------------------------- fragments

/// The fragment that an href names, without its `#`.
pub open spec fn fragment_id(href: Seq<char>) -> Seq<char> {
    text::spec_trim_start_char(structure::spec_split_fragment(href).1, '#')
}

/// The value that is quoted at `i`, up to the same quote or the end.
pub open spec fn quoted_at(t: Seq<char>, i: int) -> Option<Seq<char>> {
    if i < t.len() && (t[i] == '"' || t[i] == '\'') {
        Some(
            t.subrange(
                i + 1,
                match text::spec_find_char(t, t[i], i + 1) {
                    Some(q) => q,
                    None => t.len() as int,
                },
            ),
        )
    } else {
        None
    }
}

/// The attribute has the value somewhere in the text.
pub open spec fn says(t: Seq<char>, attr: Seq<char>, value: Seq<char>) -> bool {
    exists|k: int| #[trigger]
        text::is_at(t, attr, k) && quoted_at(t, k + attr.len()) == Some(value)
}

/// The document defines the id as a target.
pub open spec fn spec_defines_fragment(t: Seq<char>, id: Seq<char>) -> bool {
    says(t, "id="@, id) || says(t, "name="@, id)
}

/// The fragment is kept: its document defines it, or is not there.
pub open spec fn is_defined(p: Seq<Part>, doc: Seq<char>, id: Seq<char>) -> bool {
    match package::spec_text(p, codec::spec_percent_decode(doc)) {
        None => true,
        Some(t) => spec_defines_fragment(t, codec::spec_percent_decode(id)),
    }
}

/// The href without a fragment that its document does not define. One that names
/// no document stays.
pub open spec fn href_resolved(p: Seq<Part>, href: Seq<char>) -> Seq<char> {
    let doc = toc_shape::document(href);
    let id = fragment_id(href);
    if id.len() == 0 || doc.len() == 0 || is_defined(p, doc, id) {
        href
    } else {
        doc
    }
}

/// The entries, each without a fragment that its document does not define.
pub open spec fn spec_resolve_fragments(p: Seq<Part>, v: Seq<Toc>) -> Seq<Toc>
    decreases v,
{
    if v.len() == 0 {
        Seq::empty()
    } else {
        let e = v.last();
        spec_resolve_fragments(p, v.drop_last()).push(
            Toc {
                title: e.title,
                href: href_resolved(p, e.href),
                children: spec_resolve_fragments(p, e.children),
            },
        )
    }
}

fn fragment_id_of(href: &str) -> (r: Vec<char>)
    ensures
        r@ == fragment_id(href@),
{
    let f = chars_of(&split_fragment(href).1);
    copy(trim_start_char(&f, '#'))
}

fn says_of(t: &[char], attr: &str, value: &[char]) -> (r: bool)
    ensures
        r == says(t@, attr@, value@),
{
    let n = t.len();
    let len = chars_of(attr).len();
    let mut i: usize = 0;
    loop
        invariant
            n == t@.len(),
            len == attr@.len(),
            i <= n,
            forall|k: int|
                k < i ==> !(#[trigger] text::is_at(t@, attr@, k) && quoted_at(
                    t@,
                    k + attr@.len(),
                ) == Some(value@)),
        decreases n - i,
    {
        let k = match find_str(t, attr, i) {
            Some(k) => k,
            None => {
                proof {
                    text::lemma_find(t@, attr@, i as int);
                }
                return false;
            },
        };
        proof {
            text::lemma_find(t@, attr@, i as int);
        }
        let a = k + len;
        if a < n && (t[a] == '"' || t[a] == '\'') {
            let q = match find_char(t, t[a], a + 1) {
                Some(q) => q,
                None => n,
            };
            if same(&t[a + 1..q], value) {
                assert(text::is_at(t@, attr@, k as int) && quoted_at(t@, k + attr@.len()) == Some(
                    value@,
                ));
                return true;
            }
        }
        if k == n {
            assert(forall|j: int| j > n ==> !text::is_at(t@, attr@, j));
            return false;
        }
        i = k + 1;
    }
}

/// Whether a document defines the id as a target: as an `id`, or as the older
/// `name`.
pub fn defines_fragment(xhtml: &str, id: &str) -> (r: bool)
    ensures
        r == spec_defines_fragment(xhtml@, id@),
{
    let t = chars_of(xhtml);
    let v = chars_of(id);
    says_of(&t, "id=", &v) || says_of(&t, "name=", &v)
}

fn resolve_href_in(pkg: &EpubPackage, href: &str) -> (r: String)
    ensures
        r@ == href_resolved(pkg@, href@),
{
    let doc = strip_fragment(href);
    let id = fragment_id_of(href);
    if id.len() == 0 || chars_of(&doc).len() == 0 {
        return string_of(&chars_of(href));
    }
    let defined = match member_text(pkg, &percent_decode(&doc)) {
        None => true,
        Some(t) => defines_fragment(&t, &percent_decode(&string_of(&id))),
    };
    if defined {
        string_of(&chars_of(href))
    } else {
        doc
    }
}

/// The entries, each without a fragment that its document does not define: it
/// leads to the document then. An href whose document is not in the package
/// stays.
pub fn resolve_fragments(pkg: &EpubPackage, v: &Vec<TocEntry>) -> (r: Vec<TocEntry>)
    ensures
        toc::tocs(r@) == spec_resolve_fragments(pkg@, toc::tocs(v@)),
    decreases v,
{
    let ghost all = toc::tocs(v@);
    proof {
        toc::lemma_tocs(v@);
    }
    let mut out: Vec<TocEntry> = Vec::new();
    let mut i: usize = 0;
    while i < v.len()
        invariant
            i <= v@.len(),
            all == toc::tocs(v@),
            all.len() == v@.len(),
            forall|k: int| 0 <= k < v@.len() ==> #[trigger] all[k] == toc::toc(v@[k]),
            toc::tocs(out@) == spec_resolve_fragments(pkg@, all.take(i as int)),
        decreases v@.len() - i,
    {
        assert(all[i as int] == toc::toc(v@[i as int]));
        assert(all.take(i + 1).drop_last() =~= all.take(i as int));
        let e = TocEntry {
            title: v[i].title.clone(),
            href: resolve_href_in(pkg, &v[i].href),
            children: resolve_fragments(pkg, &v[i].children),
        };
        proof {
            toc::lemma_tocs_push(out@, e);
        }
        out.push(e);
        i = i + 1;
    }
    assert(all.take(v@.len() as int) =~= all);
    out
}

// ---------------------------------------------------------------- splicing

/// A `nav` start tag is that of a table of contents.
pub fn nav_tag_is_toc(start_tag: &str) -> (r: bool)
    ensures
        r == toc::nav_of_kind(start_tag@, "toc"@),
{
    nav_kind(start_tag, "toc")
}

/// The text with something inserted before the last place of the anchor, at the
/// end where there is none.
pub open spec fn inserted(t: Seq<char>, anchor: Seq<char>, new: Seq<char>) -> Seq<char> {
    match text::spec_rfind(t, anchor, t.len() as int) {
        Some(k) => t.subrange(0, k) + new + t.subrange(k, t.len() as int),
        None => t + new,
    }
}

fn insert_before(t: &[char], anchor: &str, new: &[char]) -> (r: Vec<char>)
    ensures
        r@ == inserted(t@, anchor@, new@),
{
    match rfind_str(t, anchor, t.len()) {
        Some(k) => {
            let mut out = copy(&t[0..k]);
            put(&mut out, new);
            put(&mut out, &t[k..t.len()]);
            out
        },
        None => join2(t, new),
    }
}

/// The place of the first table of contents from `from` on.
pub open spec fn toc_nav_from(t: Seq<char>, from: int) -> Option<(int, int)>
    decreases t.len() - from,
{
    match text::spec_find(t, "<nav"@, from) {
        Some(a) if 0 <= from <= a && a + 4 <= t.len() => if !metadata_edit::tag_edge(t, a + 4) {
            toc_nav_from(t, a + 4)
        } else {
            match text::spec_find_char(t, '>', a) {
                Some(g) if a <= g < t.len() => if toc::nav_of_kind(t.subrange(a, g + 1), "toc"@) {
                    match text::spec_find(t, "</nav>"@, g + 1) {
                        Some(c) => Some((a, c + 6)),
                        None => None,
                    }
                } else {
                    toc_nav_from(t, g + 1)
                },
                _ => None,
            }
        },
        _ => None,
    }
}

/// The navigation document with a new table of contents: in the place of the old
/// one, else at the end of the body.
pub open spec fn spec_splice_toc_nav(t: Seq<char>, new: Seq<char>) -> Seq<char> {
    match toc_nav_from(t, 0) {
        Some((a, b)) => t.subrange(0, a) + new + t.subrange(b, t.len() as int),
        None => inserted(t, "</body>"@, new + "\n"@),
    }
}

/// The place of the navigation map.
pub open spec fn navmap_span(t: Seq<char>) -> Option<(int, int)> {
    match text::spec_find(t, "<navMap"@, 0) {
        Some(a) if metadata_edit::tag_edge(t, a + 7) => match text::spec_find(t, "</navMap>"@, a) {
            Some(c) => Some((a, c + 9)),
            None => None,
        },
        _ => None,
    }
}

/// The NCX with a new navigation map: in the place of the old one, else at the
/// end.
pub open spec fn spec_splice_navmap(t: Seq<char>, new: Seq<char>) -> Seq<char> {
    match navmap_span(t) {
        Some((a, b)) => t.subrange(0, a) + new + t.subrange(b, t.len() as int),
        None => inserted(t, "</ncx>"@, new + "\n"@),
    }
}

fn find_toc_nav_span(t: &[char]) -> (r: Option<(usize, usize)>)
    ensures
        markup::span2(r) == toc_nav_from(t@, 0),
        r matches Some((a, b)) ==> a <= b <= t@.len(),
{
    let n = t.len();
    proof {
        reveal_strlit("<nav");
        reveal_strlit("</nav>");
    }
    let mut from: usize = 0;
    loop
        invariant
            n == t@.len(),
            "<nav"@.len() == 4,
            "</nav>"@.len() == 6,
            from <= n,
            toc_nav_from(t@, 0) == toc_nav_from(t@, from as int),
        decreases n - from,
    {
        let a = match find_str(t, "<nav", from) {
            Some(a) => a,
            None => {
                return None;
            },
        };
        let behind = a + 4;
        if !(behind >= n || t[behind] == '>' || ascii_white(t[behind])) {
            from = behind;
        } else {
            let g = match find_char(t, '>', a) {
                Some(g) => g,
                None => {
                    return None;
                },
            };
            if nav_tag_is_toc(&string_of(&t[a..g + 1])) {
                return match find_str(t, "</nav>", g + 1) {
                    Some(c) => Some((a, c + 6)),
                    None => None,
                };
            }
            from = g + 1;
        }
    }
}

/// The navigation document with a new table of contents; everything else in it
/// stays.
pub fn splice_toc_nav(nav_xhtml: &str, new_nav: &str) -> (r: String)
    ensures
        r@ == spec_splice_toc_nav(nav_xhtml@, new_nav@),
{
    let t = chars_of(nav_xhtml);
    let new = chars_of(new_nav);
    match find_toc_nav_span(&t) {
        Some((a, b)) => {
            let mut out = copy(&t[0..a]);
            put(&mut out, &new);
            put(&mut out, &t[b..t.len()]);
            string_of(&out)
        },
        None => string_of(&insert_before(&t, "</body>", &join2(&new, &chars_of("\n")))),
    }
}

fn splice_navmap(ncx_xml: &str, new_navmap: &str) -> (r: String)
    ensures
        r@ == spec_splice_navmap(ncx_xml@, new_navmap@),
{
    let t = chars_of(ncx_xml);
    let n = t.len();
    let new = chars_of(new_navmap);
    proof {
        reveal_strlit("<navMap");
        reveal_strlit("</navMap>");
    }
    if let Some(a) = find_str(&t, "<navMap", 0) {
        let behind = a + 7;
        if behind >= n || t[behind] == '>' || ascii_white(t[behind]) {
            if let Some(c) = find_str(&t, "</navMap>", a) {
                let mut out = copy(&t[0..a]);
                put(&mut out, &new);
                put(&mut out, &t[c + 9..n]);
                return string_of(&out);
            }
        }
    }
    string_of(&insert_before(&t, "</ncx>", &join2(&new, &chars_of("\n"))))
}

// ---------------------------------------------------------------- the package document

/// A new item for the manifest.
pub open spec fn new_item(
    id: Seq<char>,
    href: Seq<char>,
    media_type: Seq<char>,
    props: Seq<char>,
) -> Seq<char> {
    "  <item id=\""@ + markup::spec_escape_attr(id) + "\" href=\""@ + markup::spec_escape_attr(href)
        + "\" media-type=\""@ + media_type + "\""@ + props + "/>\n"@
}

fn new_item_of(id: &str, href: &str, media_type: &str, props: &str) -> (r: Vec<char>)
    ensures
        r@ == new_item(id@, href@, media_type@, props@),
{
    let mut out = chars_of("  <item id=\"");
    put_str(&mut out, &escape_attr(id));
    put_str(&mut out, "\" href=\"");
    put_str(&mut out, &escape_attr(href));
    put_str(&mut out, "\" media-type=\"");
    put_str(&mut out, media_type);
    put_str(&mut out, "\"");
    put_str(&mut out, props);
    put_str(&mut out, "/>\n");
    out
}

/// The package document whose spine names the NCX, where it names none.
pub open spec fn spine_named(t: Seq<char>, id: Seq<char>) -> Seq<char> {
    match text::spec_find(t, "<spine"@, 0) {
        None => t,
        Some(a) => match text::spec_find_char(t, '>', a) {
            None => t,
            Some(g) => if markup::spec_attr_value(t.subrange(a, g), "toc"@) is Some {
                t
            } else {
                t.subrange(0, a) + "<spine toc=\""@ + markup::spec_escape_attr(id) + "\""@
                    + t.subrange(a + 6, t.len() as int)
            },
        },
    }
}

fn ensure_spine_toc(t: &[char], id: &str) -> (r: Vec<char>)
    ensures
        r@ == spine_named(t@, id@),
{
    let n = t.len();
    proof {
        reveal_strlit("<spine");
    }
    let a = match find_str(t, "<spine", 0) {
        Some(a) => a,
        None => {
            return copy(t);
        },
    };
    let g = match find_char(t, '>', a) {
        Some(g) => g,
        None => {
            return copy(t);
        },
    };
    if attr_value(&string_of(&t[a..g]), "toc").is_some() {
        return copy(t);
    }
    assert(a + 6 <= n);
    let mut out = copy(&t[0..a]);
    put_str(&mut out, "<spine toc=\"");
    put_str(&mut out, &escape_attr(id));
    put_str(&mut out, "\"");
    put(&mut out, &t[a + 6..n]);
    out
}

// ---------------------------------------------------------------- writing

/// A package in the course of a repair: its members, and the package document
/// where it is to change.
#[verifier::ext_equal]
pub struct Repair {
    pub p: Seq<Part>,
    pub text: Option<Seq<char>>,
}

/// The title that new documents carry.
pub open spec fn title_of(b: Book) -> Seq<char> {
    if b.title.len() == 0 {
        "Contents"@
    } else {
        b.title
    }
}

/// The language that new documents carry.
pub open spec fn language_of(b: Book) -> Seq<char> {
    if b.language.len() == 0 {
        "en"@
    } else {
        b.language
    }
}

/// The zip path of the document that the href names, else of the file in the
/// package document's directory.
pub open spec fn doc_path(base: Seq<char>, href: Option<Seq<char>>, file: Seq<char>) -> Seq<char> {
    match href {
        Some(h) => package::spec_abs(base, h),
        None => base + file,
    }
}

/// The package once its navigation document has the entries. One that is missing
/// is written where the package is not EPUB 2.
pub open spec fn nav_repaired(p: Seq<Part>, d: Found, v: Seq<Toc>) -> Repair {
    let abs = doc_path(d.base(), d.book.nav_href, "nav.xhtml"@);
    let new = nav_doc::spec_render_toc_nav(v, structure::spec_dir_of(abs));
    match package::spec_text(p, abs) {
        Some(t) => Repair {
            p: edit::spec_set(p, abs, vstd::utf8::encode_utf8(spec_splice_toc_nav(t, new))),
            text: None,
        },
        None => if text::spec_starts(d.book.version, "2"@) {
            Repair { p, text: None }
        } else {
            let id = fresh::spec_fresh(
                manifest::item_ids(d.book.items),
                "nav"@,
                "-"@,
                Seq::empty(),
            );
            Repair {
                p: edit::spec_set(
                    p,
                    abs,
                    vstd::utf8::encode_utf8(
                        nav_doc::spec_render_nav_doc(
                            new,
                            language_of(d.book),
                            title_of(d.book),
                        ),
                    ),
                ),
                text: Some(
                    inserted(
                        d.text,
                        "</manifest>"@,
                        new_item(
                            id,
                            structure::spec_relativize(d.base(), abs),
                            "application/xhtml+xml"@,
                            " properties=\"nav\""@,
                        ),
                    ),
                ),
            }
        },
    }
}

/// The identifier that a new NCX carries: the one that the package names.
pub open spec fn ncx_uid(b: Book) -> Seq<char> {
    match upgrade::given_uid(b) {
        Some(u) => u,
        None => "urn:uuid:bokai-repaired-toc"@,
    }
}

/// The package once its NCX has the entries. One that is missing is written
/// where the package is EPUB 2.
pub open spec fn ncx_repaired(s: Repair, d: Found, v: Seq<Toc>) -> Repair {
    let abs = doc_path(d.base(), d.book.ncx_href, "toc.ncx"@);
    let new = nav_doc::spec_render_navmap(v, structure::spec_dir_of(abs));
    match package::spec_text(s.p, abs) {
        Some(t) => Repair {
            p: edit::spec_set(s.p, abs, vstd::utf8::encode_utf8(spec_splice_navmap(t, new))),
            ..s
        },
        None => if !text::spec_starts(d.book.version, "2"@) {
            s
        } else {
            let id = fresh::spec_fresh(
                manifest::item_ids(d.book.items),
                "ncx"@,
                "-"@,
                Seq::empty(),
            );
            Repair {
                p: edit::spec_set(
                    s.p,
                    abs,
                    vstd::utf8::encode_utf8(
                        nav_doc::spec_render_ncx(
                            new,
                            ncx_uid(d.book),
                            title_of(d.book),
                            nav_doc::spec_depth(v) as int,
                        ),
                    ),
                ),
                text: Some(
                    spine_named(
                        inserted(
                            match s.text {
                                Some(t) => t,
                                None => d.text,
                            },
                            "</manifest>"@,
                            new_item(
                                id,
                                structure::spec_relativize(d.base(), abs),
                                "application/x-dtbncx+xml"@,
                                Seq::empty(),
                            ),
                        ),
                        id,
                    ),
                ),
            }
        },
    }
}

/// The package once its navigation document and its NCX have the entries.
pub open spec fn toc_set(p: Seq<Part>, d: Found, v: Seq<Toc>) -> Seq<Part> {
    let w = spec_resolve_fragments(p, v);
    let s = ncx_repaired(nav_repaired(p, d, w), d, w);
    match s.text {
        Some(t) => edit::spec_replace(s.p, d.path, vstd::utf8::encode_utf8(t)),
        None => s.p,
    }
}

fn title_in(opf: &OpfData) -> (r: String)
    ensures
        r@ == title_of(opf@),
{
    if chars_of(&opf.metadata.title).len() == 0 {
        string_of(&chars_of("Contents"))
    } else {
        opf.metadata.title.clone()
    }
}

pub fn language_in(opf: &OpfData) -> (r: String)
    ensures
        r@ == language_of(opf@),
{
    if chars_of(&opf.metadata.language).len() == 0 {
        string_of(&chars_of("en"))
    } else {
        opf.metadata.language.clone()
    }
}

fn doc_path_of(base: &str, href: &Option<String>, file: &str) -> (r: String)
    ensures
        r@ == doc_path(base@, text::opt_str(*href), file@),
{
    match href {
        Some(h) => abs_path(base, h),
        None => string_of(&join2(&chars_of(base), &chars_of(file))),
    }
}

fn repair_nav(pkg: &mut EpubPackage, d: &PackageDoc, v: &Vec<TocEntry>) -> (r: Option<Vec<char>>)
    requires
        d.base@ == d@.base(),
    ensures
        (Repair { p: final(pkg)@, text: text::opt_text(r) }) == nav_repaired(
            old(pkg)@,
            d@,
            toc::tocs(v@),
        ),
{
    let abs = doc_path_of(&d.base, &d.opf.nav_href, "nav.xhtml");
    let new = render_toc_nav(v, &dir_of(&abs));
    match member_text(pkg, &abs) {
        Some(t) => {
            pkg.set(&abs, bytes_of(&splice_toc_nav(&t, &new)));
            None
        },
        None => {
            if starts_str(&chars_of(&d.opf.version), "2") {
                return None;
            }
            let id = string_of(&fresh(&ids_of(&d.opf), &chars_of("nav"), "-", &Vec::new()));
            let item = new_item_of(
                &id,
                &relativize(&d.base, &abs),
                "application/xhtml+xml",
                " properties=\"nav\"",
            );
            let text = insert_before(&chars_of(&d.text), "</manifest>", &item);
            let doc = render_nav_doc(&new, &language_in(&d.opf), &title_in(&d.opf));
            pkg.set(&abs, bytes_of(&doc));
            Some(text)
        },
    }
}

fn repair_ncx(
    pkg: &mut EpubPackage,
    d: &PackageDoc,
    v: &Vec<TocEntry>,
    text: Option<Vec<char>>,
) -> (r: Option<Vec<char>>)
    requires
        d.base@ == d@.base(),
    ensures
        (Repair { p: final(pkg)@, text: text::opt_text(r) }) == ncx_repaired(
            Repair { p: old(pkg)@, text: text::opt_text(text) },
            d@,
            toc::tocs(v@),
        ),
{
    let abs = doc_path_of(&d.base, &d.opf.ncx_href, "toc.ncx");
    let new = render_navmap(v, &dir_of(&abs));
    match member_text(pkg, &abs) {
        Some(t) => {
            pkg.set(&abs, bytes_of(&splice_navmap(&t, &new)));
            text
        },
        None => {
            if !starts_str(&chars_of(&d.opf.version), "2") {
                return text;
            }
            let id = string_of(&fresh(&ids_of(&d.opf), &chars_of("ncx"), "-", &Vec::new()));
            proof {
                reveal_strlit("");
                assert(""@ =~= Seq::<char>::empty());
            }
            let item = new_item_of(
                &id,
                &relativize(&d.base, &abs),
                "application/x-dtbncx+xml",
                "",
            );
            let before = match text {
                Some(t) => t,
                None => chars_of(&d.text),
            };
            let listed = insert_before(&before, "</manifest>", &item);
            let named = ensure_spine_toc(&listed, &id);
            let uid = match uid_given(&d.opf) {
                Some(u) => u,
                None => string_of(&chars_of("urn:uuid:bokai-repaired-toc")),
            };
            let doc = render_ncx(&new, &uid, &title_in(&d.opf), depth(v));
            pkg.set(&abs, bytes_of(&doc));
            Some(named)
        },
    }
}

/// What comes back of writing a table of contents into an EPUB.
pub open spec fn toc_written(r: Result<Vec<u8>, Error>, bytes: Seq<u8>, v: Seq<Toc>) -> bool {
    if v.len() == 0 {
        r matches Err(e) && e@ == Fault::Said(
            ErrorKind::InvalidInput,
            "refusing to write an empty TOC"@,
        )
    } else {
        match read_book(bytes) {
            Err(f) => r matches Err(e) && e@ == f,
            Ok((p, d)) => edit::written(r, toc_set(p, d, v)),
        }
    }
}

/// Writes the entries into the EPUB's navigation document and its NCX, in place
/// of what those hold. A document that the EPUB's version asks for and that is
/// missing is written and listed. Hrefs are zip paths, and a fragment that its
/// document does not define is dropped. No entries at all are refused.
pub fn set_toc(epub_bytes: &[u8], entries: &Vec<TocEntry>) -> (r: Result<Vec<u8>, Error>)
    ensures
        toc_written(r, epub_bytes@, toc::tocs(entries@)),
{
    proof {
        toc::lemma_tocs(entries@);
    }
    if entries.len() == 0 {
        return Err(refuse(ErrorKind::InvalidInput, "refusing to write an empty TOC"));
    }
    let (mut pkg, d) = match read_book_of(epub_bytes) {
        Ok(b) => b,
        Err(e) => {
            return Err(e);
        },
    };
    let v = resolve_fragments(&pkg, entries);
    let text = repair_nav(&mut pkg, &d, &v);
    let text = repair_ncx(&mut pkg, &d, &v, text);
    if let Some(t) = text {
        pkg.replace(&d.path, bytes_of(&string_of(&t)));
    }
    pkg.into_bytes()
}

/// What comes back of a repair of an EPUB's table of contents.
pub open spec fn toc_repaired(r: Result<Vec<u8>, Error>, bytes: Seq<u8>) -> bool {
    match read_book(bytes) {
        Err(f) => r matches Err(e) && e@ == f,
        Ok((p, d)) => {
            let v = spec_propose(p, d.book, d.base(), d.text);
            let (ncx, nav) = spec_declared_documents(p, d.book, d.base());
            if v.len() == 0 {
                r matches Err(e) && e@ == Fault::Said(
                    ErrorKind::NotFound,
                    "no declared TOC and no in-book chapter list to rebuild one from"@,
                )
            } else if v == nav && (ncx.len() == 0 || v == ncx) {
                r matches Err(e) && e@ == Fault::Said(
                    ErrorKind::AlreadyExists,
                    "the declared TOC already lists everything the book evidences"@,
                )
            } else {
                toc_written(r, bytes, v)
            }
        },
    }
}

/// Repairs an EPUB's table of contents: what `propose_toc` proposes is written.
/// Refused where nothing is proposed, and where the EPUB has it all already.
pub fn repair_toc(epub_bytes: &[u8]) -> (r: Result<Vec<u8>, Error>)
    ensures
        toc_repaired(r, epub_bytes@),
{
    let (p, d) = match read_book_of(epub_bytes) {
        Ok(b) => b,
        Err(e) => {
            return Err(e);
        },
    };
    let v = propose_from_pkg(&p, &d.opf, &d.base, &d.text);
    proof {
        toc::lemma_tocs(v@);
    }
    if v.len() == 0 {
        return Err(
            refuse(
                ErrorKind::NotFound,
                "no declared TOC and no in-book chapter list to rebuild one from",
            ),
        );
    }
    let (ncx, nav) = declared_toc_documents(&p, &d.opf, &d.base);
    proof {
        toc::lemma_tocs(ncx@);
    }
    if same_entries(&v, &nav) && (ncx.len() == 0 || same_entries(&v, &ncx)) {
        return Err(
            refuse(
                ErrorKind::AlreadyExists,
                "the declared TOC already lists everything the book evidences",
            ),
        );
    }
    set_toc(epub_bytes, &v)
}

proof fn lemma_childless(v: Seq<Toc>, n: int)
    requires
        n <= v.len(),
    ensures
        parents_to(v, n) >= 0,
        toc_shape::is_flat(v) ==> parents_to(v, n) == 0,
    decreases n,
{
    if n > 0 {
        lemma_childless(v, n - 1);
        if toc_shape::is_flat(v) {
            assert(v[n - 1].children.len() == 0);
        }
    }
}

/// The diagnosis and the repair agree: the measure says that nothing is
/// misplaced exactly where the repair's own rule leaves the declared table of
/// contents as it is, and then it counts no volume.
pub proof fn the_measure_is_the_repairs_own_rule(p: Seq<Part>, b: Book, base: Seq<char>)
    ensures
        ({
            let declared = spec_existing_declared(p, b, base);
            let nested = toc_shape::spec_nest_by_volumes(
                declared,
                spec_volume_groups(
                    p,
                    package::spec_spine_documents(b, base),
                    documents(declared),
                ),
            );
            let (volumes, misplaced) = flattening(p, b, base);
            &&& misplaced == 0 ==> volumes == 0
            &&& declared.len() >= 2 ==> (misplaced == 0 <==> nested == declared)
            &&& declared.len() >= 2 && toc_shape::is_flat(declared) ==> misplaced == declared.len()
                - nested.len()
        }),
{
    let declared = spec_existing_declared(p, b, base);
    let groups = spec_volume_groups(p, package::spec_spine_documents(b, base), documents(declared));
    if toc_shape::is_flat(declared) {
        toc_shape::nesting_that_moves_nothing_changes_nothing(declared, groups);
        lemma_childless(declared, declared.len() as int);
    }
}

/// Writing a table of contents touches the navigation document, the NCX and the
/// package document alone.
pub proof fn a_written_toc_leaves_the_other_members(
    p: Seq<Part>,
    d: Found,
    v: Seq<Toc>,
    name: Seq<char>,
)
    requires
        name != d.path,
        name != doc_path(d.base(), d.book.nav_href, "nav.xhtml"@),
        name != doc_path(d.base(), d.book.ncx_href, "toc.ncx"@),
    ensures
        edit::spec_get(toc_set(p, d, v), name) == edit::spec_get(p, name),
{
    let w = spec_resolve_fragments(p, v);
    let nav = doc_path(d.base(), d.book.nav_href, "nav.xhtml"@);
    let ncx = doc_path(d.base(), d.book.ncx_href, "toc.ncx"@);
    let s = nav_repaired(p, d, w);
    assert forall|b: Seq<u8>| edit::spec_get(#[trigger] edit::spec_set(p, nav, b), name)
        == edit::spec_get(p, name) by {
        edit::setting_changes_one_member(p, nav, b, name);
    }
    assert(edit::spec_get(s.p, name) == edit::spec_get(p, name));
    assert forall|b: Seq<u8>| edit::spec_get(#[trigger] edit::spec_set(s.p, ncx, b), name)
        == edit::spec_get(s.p, name) by {
        edit::setting_changes_one_member(s.p, ncx, b, name);
    }
    let r = ncx_repaired(s, d, w);
    assert(edit::spec_get(r.p, name) == edit::spec_get(p, name));
    if let Some(t) = r.text {
        edit::replacing_is_surgical(r.p, d.path, vstd::utf8::encode_utf8(t), name);
    }
}

/// A spliced table of contents leaves the rest of the navigation document as it
/// is: the text before the old one and the text behind it.
pub proof fn splicing_keeps_what_is_around(t: Seq<char>, new: Seq<char>)
    ensures
        toc_nav_from(t, 0) matches Some((a, b)) ==> 0 <= a <= b <= t.len() && spec_splice_toc_nav(
            t,
            new,
        ) == t.subrange(0, a) + new + t.subrange(b, t.len() as int),
        toc_nav_from(t, 0) is None ==> exists|k: int|
            0 <= k <= t.len() && spec_splice_toc_nav(t, new) == #[trigger] t.subrange(0, k) + (new
                + "\n"@) + t.subrange(k, t.len() as int),
{
    lemma_toc_nav_span(t, 0);
    if toc_nav_from(t, 0) is None {
        metadata_edit::lemma_rfind(t, "</body>"@, t.len() as int);
        let n = t.len() as int;
        if text::spec_rfind(t, "</body>"@, n) is None {
            assert(t.subrange(0, n) + (new + "\n"@) + t.subrange(n, n) =~= t + (new + "\n"@));
        }
    }
}

proof fn lemma_toc_nav_span(t: Seq<char>, from: int)
    requires
        0 <= from,
    ensures
        toc_nav_from(t, from) matches Some((a, b)) ==> from <= a <= b <= t.len(),
    decreases t.len() - from,
{
    reveal_strlit("<nav");
    reveal_strlit("</nav>");
    text::lemma_find(t, "<nav"@, from);
    if let Some(a) = text::spec_find(t, "<nav"@, from) {
        if !metadata_edit::tag_edge(t, a + 4) {
            lemma_toc_nav_span(t, a + 4);
        } else {
            text::lemma_find_char(t, '>', a);
            if let Some(g) = text::spec_find_char(t, '>', a) {
                text::lemma_find(t, "</nav>"@, g + 1);
                lemma_toc_nav_span(t, g + 1);
            }
        }
    }
}

} // verus!
