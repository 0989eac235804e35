//! Restoring the stylesheets of a book that a converter flattened, by a reference book of the same
//! publisher.
use vstd::prelude::*;

use crate::codec;
use crate::css;
use crate::edit;
use crate::flattened;
use crate::manifest;
use crate::package;
use crate::reference_styles;
use crate::residuals;
use crate::restyle;
use crate::rewrite_styles;
use crate::split_doc;
use crate::structure;
use crate::style_diff;
use crate::style_plan;
use crate::stylesheet;
use crate::text;
use crate::archive::Part;
use crate::codec::{append_bytes, bytes_of, percent_decode, slice_copy};
use crate::css::{Kind, scan};
use crate::edit::EpubPackage;
use crate::error::{Error, ErrorKind, Fault, refuse};
use crate::flattened::{Flattened, FlattenedStyles, detect};
use crate::manifest::{add_manifest_item, remove_manifest_item};
use crate::package::{Found, PackageDoc, member_text, package_doc, spine_documents};
use crate::reference_styles::{RefRule, Reference, Ruled, Styles, add_one};
use crate::residuals::{Residual, render_residual};
use crate::restyle::{Mapper, Mapping};
use crate::rewrite_styles::{Placed, Setting, Walk, Walked, walk};
use crate::split_doc::stylesheet_links;
use crate::structure::{basename, dir_of, relativize};
use crate::style_diff::{Chapter, Diff, StyleDiff, compare_chapters, material_diffs_in};
use crate::style_plan::{DocPlan, PagePlan, enforce_singletons, plan_document};
use crate::stylesheet::{
    StyleRule, essential, find_pair, flat_classes_of, flat_decls_of, last_value_of, put_pair,
    rules_of,
};
use crate::text::{add_str, chars_of, has_str, join2, str_is, string_of, strs_have};

verus! {

// ---------------------------------------------------------------- the flattened book

/// What the first `n` classes of a stylesheet declare, as far as it matters.
pub open spec fn table_to(rules_here: Seq<StyleRule>, classes: Seq<Seq<char>>, n: int) -> Seq<
    (Seq<char>, Seq<(Seq<char>, Seq<char>)>),
>
    decreases n,
{
    if n <= 0 {
        Seq::empty()
    } else {
        table_to(rules_here, classes, n - 1).push(
            (
                classes[n - 1],
                stylesheet::essentials(
                    stylesheet::flat_decls(rules_here, classes[n - 1], rules_here.len() as int),
                    false,
                ),
            ),
        )
    }
}

/// The directions of writing that the first `n` classes of a stylesheet set.
pub open spec fn modes_to(rules_here: Seq<StyleRule>, classes: Seq<Seq<char>>, n: int) -> Seq<
    (Seq<char>, Seq<char>),
>
    decreases n,
{
    if n <= 0 {
        Seq::empty()
    } else {
        let before = modes_to(rules_here, classes, n - 1);
        let d = stylesheet::flat_decls(rules_here, classes[n - 1], rules_here.len() as int);
        match stylesheet::last_value(d, "writing-mode"@, d.len() as int) {
            Some(m) => before.push((classes[n - 1], m)),
            None => before,
        }
    }
}

/// What the classes of a stylesheet declare.
pub open spec fn sheet_table(css: Seq<char>) -> Seq<(Seq<char>, Seq<(Seq<char>, Seq<char>)>)> {
    let v = stylesheet::sheet_rules(css);
    let c = stylesheet::flat_classes(v, v.len() as int);
    table_to(v, c, c.len() as int)
}

/// The directions of writing that the classes of a stylesheet set.
pub open spec fn sheet_modes(css: Seq<char>) -> Seq<(Seq<char>, Seq<char>)> {
    let v = stylesheet::sheet_rules(css);
    let c = stylesheet::flat_classes(v, v.len() as int);
    modes_to(v, c, c.len() as int)
}

/// What the classes of the first `n` stylesheets declare.
pub open spec fn flat_table(p: Seq<Part>, sheets: Seq<Seq<char>>, n: int) -> Seq<
    (Seq<char>, Seq<(Seq<char>, Seq<char>)>),
>
    decreases n,
{
    if n <= 0 {
        Seq::empty()
    } else {
        flat_table(p, sheets, n - 1) + match package::spec_text(p, sheets[n - 1]) {
            Some(t) => sheet_table(t),
            None => Seq::empty(),
        }
    }
}

/// The directions of writing that the classes of the first `n` stylesheets set.
pub open spec fn flat_axes(p: Seq<Part>, sheets: Seq<Seq<char>>, n: int) -> Seq<(Seq<char>, Seq<char>)>
    decreases n,
{
    if n <= 0 {
        Seq::empty()
    } else {
        flat_axes(p, sheets, n - 1) + match package::spec_text(p, sheets[n - 1]) {
            Some(t) => sheet_modes(t),
            None => Seq::empty(),
        }
    }
}

fn add_table(
    table: &mut Vec<(String, Vec<(String, String)>)>,
    axes: &mut Vec<(String, String)>,
    css: &str,
)
    ensures
        restyle::flat_said(final(table)@) == restyle::flat_said(old(table)@) + sheet_table(css@),
        edit::pairs(final(axes)@) == edit::pairs(old(axes)@) + sheet_modes(css@),
{
    let v = rules_of(css);
    let ghost rs = stylesheet::rules(v@);
    assert(rs.len() == v@.len());
    let c = flat_classes_of(&v);
    let ghost cs = text::strs(c@);
    let n = c.len();
    assert(cs.len() == n);
    let ghost t0 = restyle::flat_said(table@);
    let ghost a0 = edit::pairs(axes@);
    assert(t0 + table_to(rs, cs, 0) =~= t0);
    assert(a0 + modes_to(rs, cs, 0) =~= a0);
    let mut i: usize = 0;
    while i < n
        invariant
            i <= n,
            n == c@.len(),
            rs == stylesheet::rules(v@),
            rs.len() == v@.len(),
            cs == text::strs(c@),
            restyle::flat_said(table@) == t0 + table_to(rs, cs, i as int),
            edit::pairs(axes@) == a0 + modes_to(rs, cs, i as int),
        decreases n - i,
    {
        assert(cs[i as int] == c@[i as int]@);
        let d = flat_decls_of(&v, &c[i]);
        let ghost ds = edit::pairs(d@);
        assert(ds.len() == d@.len());
        let e = essential(&d, false);
        let x = (c[i].clone(), e);
        let ghost before = restyle::flat_said(table@);
        let ghost xv = (x.0@, edit::pairs(x.1@));
        table.push(x);
        assert(restyle::flat_said(table@) =~= before.push(xv));
        assert(before.push(xv) =~= t0 + table_to(rs, cs, i + 1));
        if let Some(m) = last_value_of(&d, "writing-mode") {
            let ghost ab = edit::pairs(axes@);
            let ghost mv = m@;
            axes.push((c[i].clone(), m));
            assert(edit::pairs(axes@) =~= ab.push((cs[i as int], mv)));
            assert(edit::pairs(axes@) =~= a0 + modes_to(rs, cs, i + 1));
        }
        i += 1;
    }
}

fn read_flat(pkg: &EpubPackage, sheets: &Vec<String>) -> (r: (
    Vec<(String, Vec<(String, String)>)>,
    Vec<(String, String)>,
))
    ensures
        restyle::flat_said(r.0@) == flat_table(pkg@, text::strs(sheets@), sheets@.len() as int),
        edit::pairs(r.1@) == flat_axes(pkg@, text::strs(sheets@), sheets@.len() as int),
{
    let ghost ss = text::strs(sheets@);
    let n = sheets.len();
    let mut table: Vec<(String, Vec<(String, String)>)> = Vec::new();
    let mut axes: Vec<(String, String)> = Vec::new();
    assert(restyle::flat_said(table@) =~= Seq::empty());
    assert(edit::pairs(axes@) =~= Seq::empty());
    let mut i: usize = 0;
    while i < n
        invariant
            i <= n,
            n == sheets@.len(),
            ss == text::strs(sheets@),
            restyle::flat_said(table@) == flat_table(pkg@, ss, i as int),
            edit::pairs(axes@) == flat_axes(pkg@, ss, i as int),
        decreases n - i,
    {
        assert(ss[i as int] == sheets@[i as int]@);
        match member_text(pkg, &sheets[i]) {
            Some(t) => {
                add_table(&mut table, &mut axes, &t);
            },
            None => {
                assert(restyle::flat_said(table@) =~= restyle::flat_said(table@) + Seq::empty());
                assert(edit::pairs(axes@) =~= edit::pairs(axes@) + Seq::empty());
            },
        }
        i += 1;
    }
    (table, axes)
}

/// An item of a stylesheet that speaks of more than pages.
pub open spec fn is_style(k: css::CssKind) -> bool {
    match k {
        css::CssKind::Rule { .. } => true,
        css::CssKind::Group { .. } => true,
        css::CssKind::Block { name, .. } => name == "font-face"@,
        _ => false,
    }
}

/// A stylesheet speaks of pages alone.
pub open spec fn page_rules_only(t: Seq<char>) -> bool {
    text::spec_contains(t, "@page"@) && forall|i: int|
        0 <= i < css::spec_scan(t).len() ==> !is_style((#[trigger] css::spec_scan(t)[i]).kind)
}

fn only_page_rules(text: &str) -> (r: bool)
    ensures
        r == page_rules_only(text@),
{
    let t = chars_of(text);
    if !has_str(&t, "@page") {
        return false;
    }
    let v = scan(&t);
    let ghost all = css::items(v@);
    let n = v.len();
    assert(all.len() == n);
    let mut i: usize = 0;
    while i < n
        invariant
            i <= n,
            n == v@.len(),
            t@ == text@,
            all == css::items(v@),
            all == css::spec_scan(t@),
            all.len() == n,
            forall|k: int| 0 <= k < i ==> !is_style((#[trigger] all[k]).kind),
        decreases n - i,
    {
        assert(all[i as int] == v@[i as int]@);
        let style = match &v[i].kind {
            Kind::Rule { .. } => true,
            Kind::Group { .. } => true,
            Kind::Block { name, .. } => str_is(name, "font-face"),
            _ => false,
        };
        if style {
            assert(is_style(all[i as int].kind));
            return false;
        }
        i += 1;
    }
    true
}

/// The stylesheets that a document links, as zip paths.
pub open spec fn links_of(t: Seq<char>, path: Seq<char>) -> Seq<Seq<char>> {
    split_doc::spec_stylesheet_links(t, structure::spec_dir_of(path)).map_values(
        |h: Seq<char>| codec::spec_percent_decode(h),
    )
}

fn linked_sheets(text: &str, path: &str) -> (r: Vec<String>)
    ensures
        text::strs(r@) == links_of(text@, path@),
{
    let v = stylesheet_links(text, &dir_of(path));
    let ghost all = text::texts(v@);
    let ghost want = all.map_values(|h: Seq<char>| codec::spec_percent_decode(h));
    let n = v.len();
    assert(all.len() == n);
    let mut out: Vec<String> = Vec::new();
    assert(text::strs(out@) =~= want.take(0));
    let mut i: usize = 0;
    while i < n
        invariant
            i <= n,
            n == v@.len(),
            all == text::texts(v@),
            all.len() == n,
            want == all.map_values(|h: Seq<char>| codec::spec_percent_decode(h)),
            text::strs(out@) == want.take(i as int),
        decreases n - i,
    {
        assert(all[i as int] == v@[i as int]@);
        let x = percent_decode(&string_of(&v[i]));
        assert(want[i as int] == x@);
        add_str(&mut out, x);
        assert(want.take(i + 1) =~= want.take(i as int).push(want[i as int]));
        i += 1;
    }
    assert(want.take(n as int) =~= want);
    out
}

/// Some are in both lists.
pub open spec fn meet(a: Seq<Seq<char>>, b: Seq<Seq<char>>) -> bool {
    exists|i: int| 0 <= i < a.len() && b.contains(#[trigger] a[i])
}

fn lists_meet(a: &Vec<String>, b: &Vec<String>) -> (r: bool)
    ensures
        r == meet(text::strs(a@), text::strs(b@)),
{
    let ghost all = text::strs(a@);
    let n = a.len();
    assert(all.len() == n);
    let mut i: usize = 0;
    while i < n
        invariant
            i <= n,
            n == a@.len(),
            all == text::strs(a@),
            all.len() == n,
            forall|k: int| 0 <= k < i ==> !text::strs(b@).contains(#[trigger] all[k]),
        decreases n - i,
    {
        assert(all[i as int] == a@[i as int]@);
        if strs_have(b, &chars_of(&a[i])) {
            return true;
        }
        i += 1;
    }
    false
}

/// The stylesheets that go, with the first `n` of those that a document links and that speak of
/// pages alone.
pub open spec fn pages_gone(
    p: Seq<Part>,
    gone: Seq<Seq<char>>,
    links: Seq<Seq<char>>,
    n: int,
) -> Seq<Seq<char>>
    decreases n,
{
    if n <= 0 {
        gone
    } else {
        let before = pages_gone(p, gone, links, n - 1);
        if package::spec_text(p, links[n - 1]) matches Some(t) && page_rules_only(t) {
            reference_styles::with_one(before, links[n - 1])
        } else {
            before
        }
    }
}

fn add_pages_gone(pkg: &EpubPackage, gone: &mut Vec<String>, links: &Vec<String>)
    ensures
        text::strs(final(gone)@) == pages_gone(
            pkg@,
            text::strs(old(gone)@),
            text::strs(links@),
            links@.len() as int,
        ),
{
    let ghost start = text::strs(gone@);
    let ghost ls = text::strs(links@);
    let n = links.len();
    let mut i: usize = 0;
    while i < n
        invariant
            i <= n,
            n == links@.len(),
            ls == text::strs(links@),
            text::strs(gone@) == pages_gone(pkg@, start, ls, i as int),
        decreases n - i,
    {
        assert(ls[i as int] == links@[i as int]@);
        if let Some(t) = member_text(pkg, &links[i]) {
            if only_page_rules(&t) {
                add_one(gone, &links[i]);
            }
        }
        i += 1;
    }
}

/// The documents of the first `n` places of the spine that link a flattened stylesheet, with their
/// text; and the stylesheets that go.
pub open spec fn flat_docs_to(
    p: Seq<Part>,
    spine: Seq<(Seq<char>, Seq<char>)>,
    sheets: Seq<Seq<char>>,
    n: int,
) -> (Seq<(Seq<char>, Seq<char>)>, Seq<Seq<char>>)
    decreases n,
{
    if n <= 0 {
        (Seq::empty(), sheets)
    } else {
        let (docs, gone) = flat_docs_to(p, spine, sheets, n - 1);
        let path = spine[n - 1].0;
        match package::spec_text(p, path) {
            Some(t) => {
                let links = links_of(t, path);
                if meet(links, sheets) {
                    (docs.push((path, t)), pages_gone(p, gone, links, links.len() as int))
                } else {
                    (docs, gone)
                }
            },
            None => (docs, gone),
        }
    }
}

fn flat_documents(pkg: &EpubPackage, spine: &Vec<(String, String)>, sheets: &Vec<String>) -> (r: (
    Vec<(String, String)>,
    Vec<String>,
))
    ensures
        (edit::pairs(r.0@), text::strs(r.1@)) == flat_docs_to(
            pkg@,
            edit::pairs(spine@),
            text::strs(sheets@),
            spine@.len() as int,
        ),
{
    let ghost ss = edit::pairs(spine@);
    let ghost fs = text::strs(sheets@);
    let n = spine.len();
    let mut docs: Vec<(String, String)> = Vec::new();
    assert(edit::pairs(docs@) =~= Seq::empty());
    let mut gone: Vec<String> = sheets.clone();
    assert(text::strs(gone@) =~= fs);
    let mut i: usize = 0;
    while i < n
        invariant
            i <= n,
            n == spine@.len(),
            ss == edit::pairs(spine@),
            fs == text::strs(sheets@),
            (edit::pairs(docs@), text::strs(gone@)) == flat_docs_to(pkg@, ss, fs, i as int),
        decreases n - i,
    {
        assert(ss[i as int] == (spine@[i as int].0@, spine@[i as int].1@));
        if let Some(t) = member_text(pkg, &spine[i].0) {
            let links = linked_sheets(&t, &spine[i].0);
            assert(text::strs(links@).len() == links@.len());
            if lists_meet(&links, sheets) {
                let ghost before = edit::pairs(docs@);
                let ghost tv = t@;
                docs.push((spine[i].0.clone(), t));
                assert(edit::pairs(docs@) =~= before.push((ss[i as int].0, tv)));
                add_pages_gone(pkg, &mut gone, &links);
            }
        }
        i += 1;
    }
    (docs, gone)
}

// ---------------------------------------------------------------- rewriting

/// The plans for the first `n` documents.
pub open spec fn plans_to(
    r: Styles,
    docs: Seq<(Seq<char>, Seq<char>)>,
    table: Seq<(Seq<char>, Seq<(Seq<char>, Seq<char>)>)>,
    axes: Seq<(Seq<char>, Seq<char>)>,
    n: int,
) -> Seq<PagePlan>
    decreases n,
{
    if n <= 0 {
        Seq::empty()
    } else {
        plans_to(r, docs, table, axes, n - 1).push(
            style_plan::planned(r, docs[n - 1].1, table, axes),
        )
    }
}

fn plan_documents(
    r: &Reference,
    docs: &Vec<(String, String)>,
    table: &Vec<(String, Vec<(String, String)>)>,
    axes: &Vec<(String, String)>,
) -> (v: Vec<DocPlan>)
    ensures
        style_plan::plans(v@) == style_plan::singles_to(
            r@,
            plans_to(
                r@,
                edit::pairs(docs@),
                restyle::flat_said(table@),
                edit::pairs(axes@),
                docs@.len() as int,
            ),
            r@.kinds.len() as int,
        ),
        v@.len() == docs@.len(),
{
    let ghost ds = edit::pairs(docs@);
    let ghost ts = restyle::flat_said(table@);
    let ghost xs = edit::pairs(axes@);
    let n = docs.len();
    let mut out: Vec<DocPlan> = Vec::new();
    assert(style_plan::plans(out@) =~= Seq::empty());
    let mut i: usize = 0;
    while i < n
        invariant
            i <= n,
            n == docs@.len(),
            out@.len() == i,
            ds == edit::pairs(docs@),
            ts == restyle::flat_said(table@),
            xs == edit::pairs(axes@),
            style_plan::plans(out@) == plans_to(r@, ds, ts, xs, i as int),
        decreases n - i,
    {
        assert(ds[i as int] == (docs@[i as int].0@, docs@[i as int].1@));
        let p = plan_document(&docs[i].1, table, axes, r);
        let ghost pv = p@;
        let ghost before = style_plan::plans(out@);
        out.push(p);
        assert(style_plan::plans(out@) =~= before.push(pv));
        i += 1;
    }
    proof {
        style_plan::lemma_singles_len(r@, style_plan::plans(out@), r@.kinds.len() as int);
    }
    let ghost made = style_plan::plans(out@);
    assert(made.len() == n);
    enforce_singletons(&mut out, r);
    assert(style_plan::plans(out@).len() == out@.len());
    out
}

/// The zip path that a stylesheet of the reference gets.
pub open spec fn path_here(dir: Seq<char>, sheet: Seq<char>) -> Seq<char> {
    dir + structure::spec_basename(sheet)
}

fn path_here_of(dir: &str, sheet: &str) -> (r: String)
    ensures
        r@ == path_here(dir@, sheet@),
{
    string_of(&join2(&chars_of(dir), &chars_of(&basename(sheet))))
}

/// The rules of the stylesheet at the path.
pub open spec fn rules_at(r: Styles, path: Seq<char>) -> Seq<Ruled> {
    match reference_styles::entry_at(r.entries, path, 0) {
        Some(i) => r.entries[i].1,
        None => Seq::empty(),
    }
}

/// The walk through one document by its plan.
pub open spec fn document_walked(
    r: Styles,
    rules_so_far: Seq<(Seq<char>, Seq<char>, Seq<(Seq<char>, Seq<char>)>)>,
    doc: (Seq<char>, Seq<char>),
    plan: PagePlan,
    table: Seq<(Seq<char>, Seq<(Seq<char>, Seq<char>)>)>,
    dir: Seq<char>,
    gone: Seq<Seq<char>>,
) -> Walked {
    rewrite_styles::walked(
        rules_so_far,
        doc.1,
        Mapping {
            flat: table,
            rules: rules_at(r, plan.entry),
            vocabulary: r.vocabulary,
            kinds: r.kinds,
            kind: plan.kind,
        },
        Placed {
            dir: structure::spec_dir_of(doc.0),
            axis: plan.axis,
            removed: gone,
            link: structure::spec_relativize(
                structure::spec_dir_of(doc.0),
                path_here(dir, plan.entry),
            ),
        },
    )
}

/// `v` with those of `more`, the first `n`, whose names it does not have.
pub open spec fn merged_to(
    v: Seq<(Seq<char>, Seq<char>)>,
    more: Seq<(Seq<char>, Seq<char>)>,
    n: int,
) -> Seq<(Seq<char>, Seq<char>)>
    decreases n,
{
    if n <= 0 {
        v
    } else {
        let before = merged_to(v, more, n - 1);
        if stylesheet::value_in(before, more[n - 1].0) is Some {
            before
        } else {
            stylesheet::put_from(before, more[n - 1].0, more[n - 1].1, 0)
        }
    }
}

fn merge_pairs(v: &mut Vec<(String, String)>, more: &Vec<(String, String)>)
    ensures
        edit::pairs(final(v)@) == merged_to(
            edit::pairs(old(v)@),
            edit::pairs(more@),
            more@.len() as int,
        ),
{
    let ghost start = edit::pairs(v@);
    let ghost ms = edit::pairs(more@);
    let n = more.len();
    let mut i: usize = 0;
    while i < n
        invariant
            i <= n,
            n == more@.len(),
            ms == edit::pairs(more@),
            edit::pairs(v@) == merged_to(start, ms, i as int),
        decreases n - i,
    {
        assert(ms[i as int] == (more@[i as int].0@, more@[i as int].1@));
        if find_pair(v, &more[i].0).is_none() {
            put_pair(v, &chars_of(&more[i].0), &chars_of(&more[i].1));
        }
        i += 1;
    }
}

/// What rewriting some documents comes to: the rules for what is left undone, the documents' new
/// texts, and which classes became which.
#[verifier::ext_equal]
pub struct Rewriting {
    pub residuals: Seq<(Seq<char>, Seq<char>, Seq<(Seq<char>, Seq<char>)>)>,
    pub texts: Seq<Seq<char>>,
    pub classes: Seq<(Seq<char>, Seq<char>)>,
}

/// The first `n` documents rewritten.
pub open spec fn rewritten_to(
    r: Styles,
    docs: Seq<(Seq<char>, Seq<char>)>,
    plans: Seq<PagePlan>,
    table: Seq<(Seq<char>, Seq<(Seq<char>, Seq<char>)>)>,
    dir: Seq<char>,
    gone: Seq<Seq<char>>,
    n: int,
) -> Rewriting
    decreases n,
{
    if n <= 0 {
        Rewriting { residuals: Seq::empty(), texts: Seq::empty(), classes: Seq::empty() }
    } else {
        let before = rewritten_to(r, docs, plans, table, dir, gone, n - 1);
        let w = document_walked(r, before.residuals, docs[n - 1], plans[n - 1], table, dir, gone);
        Rewriting {
            residuals: w.residuals,
            texts: before.texts.push(w.out),
            classes: merged_to(before.classes, w.renamed, w.renamed.len() as int),
        }
    }
}

/// The documents rewritten.
pub struct Rewritten {
    pub residuals: Vec<Residual>,
    pub texts: Vec<String>,
    pub classes: Vec<(String, String)>,
}

impl View for Rewritten {
    type V = Rewriting;

    open spec fn view(&self) -> Rewriting {
        Rewriting {
            residuals: residuals::residuals(self.residuals@),
            texts: text::strs(self.texts@),
            classes: edit::pairs(self.classes@),
        }
    }
}

fn rewrite_document(
    r: &Reference,
    so_far: Vec<Residual>,
    path: &str,
    text: &str,
    plan: &DocPlan,
    table: &Vec<(String, Vec<(String, String)>)>,
    dir: &str,
    gone: &Vec<String>,
) -> (w: Walk)
    ensures
        w@ == document_walked(
            r@,
            residuals::residuals(so_far@),
            (path@, text@),
            plan@,
            restyle::flat_said(table@),
            dir@,
            text::strs(gone@),
        ),
{
    let here = dir_of(path);
    let link = relativize(&here, &path_here_of(dir, &plan.entry));
    let none: Vec<RefRule> = Vec::new();
    assert(reference_styles::ruled(none@) =~= Seq::empty());
    let rules_here: &Vec<RefRule> = match r.entry_place(&plan.entry) {
        Some(k) => {
            assert(r@.entries[k as int] == (
                r.entries@[k as int].0@,
                reference_styles::ruled(r.entries@[k as int].1@),
            ));
            &r.entries[k].1
        },
        None => &none,
    };
    let kind = match &plan.kind {
        Some(k) => Some(k.clone()),
        None => None,
    };
    let axis = match &plan.axis {
        Some(a) => Some(a.clone()),
        None => None,
    };
    let m = Mapper {
        flat: table,
        rules: rules_here,
        vocabulary: &r.vocabulary,
        kinds: &r.kinds,
        kind,
    };
    let s = Setting { dir: &here, axis, removed: gone, link: &link };
    walk(so_far, text, &m, &s)
}

fn rewrite_documents(
    r: &Reference,
    docs: &Vec<(String, String)>,
    plans: &Vec<DocPlan>,
    table: &Vec<(String, Vec<(String, String)>)>,
    dir: &str,
    gone: &Vec<String>,
) -> (out: Rewritten)
    requires
        plans@.len() == docs@.len(),
    ensures
        out@ == rewritten_to(
            r@,
            edit::pairs(docs@),
            style_plan::plans(plans@),
            restyle::flat_said(table@),
            dir@,
            text::strs(gone@),
            docs@.len() as int,
        ),
        out.texts@.len() == docs@.len(),
{
    let ghost ds = edit::pairs(docs@);
    let ghost ps = style_plan::plans(plans@);
    let ghost ts = restyle::flat_said(table@);
    let ghost gs = text::strs(gone@);
    let n = docs.len();
    let mut so_far: Vec<Residual> = Vec::new();
    let mut texts: Vec<String> = Vec::new();
    let mut classes: Vec<(String, String)> = Vec::new();
    assert(residuals::residuals(so_far@) =~= Seq::empty());
    assert(text::strs(texts@) =~= Seq::empty());
    assert(edit::pairs(classes@) =~= Seq::empty());
    let mut i: usize = 0;
    while i < n
        invariant
            i <= n,
            n == docs@.len(),
            n == plans@.len(),
            texts@.len() == i,
            ds == edit::pairs(docs@),
            ps == style_plan::plans(plans@),
            ts == restyle::flat_said(table@),
            gs == text::strs(gone@),
            (Rewriting {
                residuals: residuals::residuals(so_far@),
                texts: text::strs(texts@),
                classes: edit::pairs(classes@),
            }) == rewritten_to(r@, ds, ps, ts, dir@, gs, i as int),
        decreases n - i,
    {
        assert(ds[i as int] == (docs@[i as int].0@, docs@[i as int].1@));
        assert(ps[i as int] == plans@[i as int]@);
        let w = rewrite_document(
            r,
            so_far,
            &docs[i].0,
            &docs[i].1,
            &plans[i],
            table,
            dir,
            gone,
        );
        let ghost wv = w@;
        let Walk { stack: _, residuals, out, linked: _, hits: _, left: _, renamed } = w;
        so_far = residuals;
        let ghost before = text::strs(texts@);
        add_str(&mut texts, string_of(&out));
        assert(text::strs(texts@) =~= before.push(wv.out));
        assert(edit::pairs(renamed@).len() == renamed@.len());
        merge_pairs(&mut classes, &renamed);
        i += 1;
    }
    Rewritten { residuals: so_far, texts, classes }
}

// ---------------------------------------------------------------- the restored book

/// The content of a stylesheet of the reference, with the rules for what is left undone behind it
/// where documents link it.
pub open spec fn sheet_content(
    rp: Seq<Part>,
    r: Styles,
    sheet: Seq<char>,
    css: Seq<char>,
) -> Seq<u8> {
    let own = match edit::spec_get(rp, sheet) {
        Some(b) => b,
        None => Seq::empty(),
    };
    if reference_styles::entry_at(r.entries, sheet, 0) is Some && css.len() > 0 {
        own + vstd::utf8::encode_utf8(css)
    } else {
        own
    }
}

/// The package with the first `n` stylesheets of the reference in it.
pub open spec fn sheets_added(
    p: Seq<Part>,
    rp: Seq<Part>,
    r: Styles,
    dir: Seq<char>,
    css: Seq<char>,
    n: int,
) -> Result<Seq<Part>, Fault>
    decreases n,
{
    if n <= 0 {
        Ok(p)
    } else {
        match sheets_added(p, rp, r, dir, css, n - 1) {
            Err(f) => Err(f),
            Ok(before) => {
                let here = path_here(dir, r.sheets[n - 1]);
                match manifest::spec_add_item(
                    edit::spec_set(before, here, sheet_content(rp, r, r.sheets[n - 1], css)),
                    here,
                    "text/css"@,
                ) {
                    Ok((_, q)) => Ok(q),
                    Err(f) => Err(f),
                }
            },
        }
    }
}

/// The path is that of a stylesheet of the reference.
pub open spec fn is_new(r: Styles, dir: Seq<char>, path: Seq<char>) -> bool {
    exists|i: int| 0 <= i < r.sheets.len() && path_here(dir, #[trigger] r.sheets[i]) == path
}

/// The package without the first `n` stylesheets that go.
pub open spec fn sheets_gone(
    p: Seq<Part>,
    r: Styles,
    dir: Seq<char>,
    gone: Seq<Seq<char>>,
    n: int,
) -> Result<Seq<Part>, Fault>
    decreases n,
{
    if n <= 0 {
        Ok(p)
    } else {
        match sheets_gone(p, r, dir, gone, n - 1) {
            Err(f) => Err(f),
            Ok(before) => if is_new(r, dir, gone[n - 1]) {
                Ok(before)
            } else {
                match manifest::spec_remove_item(
                    edit::spec_remove(before, gone[n - 1]),
                    gone[n - 1],
                ) {
                    Ok((_, q)) => Ok(q),
                    Err(f) => Err(f),
                }
            },
        }
    }
}

/// The package with the new texts of the first `n` documents.
pub open spec fn texts_set(
    p: Seq<Part>,
    docs: Seq<(Seq<char>, Seq<char>)>,
    texts: Seq<Seq<char>>,
    n: int,
) -> Seq<Part>
    decreases n,
{
    if n <= 0 {
        p
    } else {
        edit::spec_replace(
            texts_set(p, docs, texts, n - 1),
            docs[n - 1].0,
            vstd::utf8::encode_utf8(texts[n - 1]),
        )
    }
}

fn sheet_bytes(reference_pkg: &EpubPackage, r: &Reference, sheet: &str, css: &str) -> (b: Vec<u8>)
    ensures
        b@ == sheet_content(reference_pkg@, r@, sheet@, css@),
{
    let mut out: Vec<u8> = match reference_pkg.get(sheet) {
        Some(b) => slice_copy(b),
        None => Vec::new(),
    };
    let ghost own = out@;
    if r.entry_place(sheet).is_some() && chars_of(css).len() > 0 {
        append_bytes(&mut out, &bytes_of(css));
    }
    out
}

/// What comes of a change of a package.
pub open spec fn changed(r: Result<(), Error>, p: Seq<Part>, want: Result<Seq<Part>, Fault>) -> bool {
    match want {
        Ok(q) => r is Ok && p == q,
        Err(f) => r matches Err(e) && e@ == f,
    }
}

fn add_sheets(
    pkg: &mut EpubPackage,
    reference_pkg: &EpubPackage,
    r: &Reference,
    dir: &str,
    css: &str,
) -> (x: Result<(), Error>)
    ensures
        changed(
            x,
            final(pkg)@,
            sheets_added(
                old(pkg)@,
                reference_pkg@,
                r@,
                dir@,
                css@,
                r@.sheets.len() as int,
            ),
        ),
{
    let ghost start = pkg@;
    let ghost all = r@.sheets;
    let ghost rp = reference_pkg@;
    let n = r.sheets.len();
    assert(all.len() == n);
    let mut i: usize = 0;
    while i < n
        invariant
            i <= n,
            n == r.sheets@.len(),
            all == r@.sheets,
            all.len() == n,
            rp == reference_pkg@,
            start == old(pkg)@,
            sheets_added(start, rp, r@, dir@, css@, i as int) == Ok::<Seq<Part>, Fault>(pkg@),
        decreases n - i,
    {
        assert(all[i as int] == r.sheets@[i as int]@);
        let here = path_here_of(dir, &r.sheets[i]);
        pkg.set(&here, sheet_bytes(reference_pkg, r, &r.sheets[i], css));
        let ghost before = pkg@;
        let added = add_manifest_item(pkg, &here, "text/css");
        if let Err(e) = added {
            proof {
                assert(sheets_added(start, rp, r@, dir@, css@, i + 1) == Err::<Seq<Part>, Fault>(
                    e@,
                ));
                lemma_added_stops(start, rp, r@, dir@, css@, i + 1, n as int);
            }
            return Err(e);
        }
        i += 1;
    }
    Ok(())
}

proof fn lemma_added_stops(
    p: Seq<Part>,
    rp: Seq<Part>,
    r: Styles,
    dir: Seq<char>,
    css: Seq<char>,
    k: int,
    n: int,
)
    requires
        0 <= k <= n,
        sheets_added(p, rp, r, dir, css, k) is Err,
    ensures
        sheets_added(p, rp, r, dir, css, n) == sheets_added(p, rp, r, dir, css, k),
    decreases n - k,
{
    if k < n {
        lemma_added_stops(p, rp, r, dir, css, k, n - 1);
    }
}

proof fn lemma_gone_stops(
    p: Seq<Part>,
    r: Styles,
    dir: Seq<char>,
    gone: Seq<Seq<char>>,
    k: int,
    n: int,
)
    requires
        0 <= k <= n,
        sheets_gone(p, r, dir, gone, k) is Err,
    ensures
        sheets_gone(p, r, dir, gone, n) == sheets_gone(p, r, dir, gone, k),
    decreases n - k,
{
    if k < n {
        lemma_gone_stops(p, r, dir, gone, k, n - 1);
    }
}

fn is_new_path(r: &Reference, dir: &str, path: &str) -> (x: bool)
    ensures
        x == is_new(r@, dir@, path@),
{
    let ghost all = r@.sheets;
    let n = r.sheets.len();
    assert(all.len() == n);
    let mut i: usize = 0;
    while i < n
        invariant
            i <= n,
            n == r.sheets@.len(),
            all == r@.sheets,
            all.len() == n,
            forall|k: int| 0 <= k < i ==> path_here(dir@, #[trigger] all[k]) != path@,
        decreases n - i,
    {
        assert(all[i as int] == r.sheets@[i as int]@);
        if str_is(&path_here_of(dir, &r.sheets[i]), path) {
            assert(path_here(dir@, all[i as int]) == path@);
            return true;
        }
        i += 1;
    }
    false
}

fn remove_sheets(pkg: &mut EpubPackage, r: &Reference, dir: &str, gone: &Vec<String>) -> (x: Result<
    (),
    Error,
>)
    ensures
        changed(
            x,
            final(pkg)@,
            sheets_gone(old(pkg)@, r@, dir@, text::strs(gone@), gone@.len() as int),
        ),
{
    let ghost start = pkg@;
    let ghost gs = text::strs(gone@);
    let n = gone.len();
    let mut i: usize = 0;
    while i < n
        invariant
            i <= n,
            n == gone@.len(),
            gs == text::strs(gone@),
            start == old(pkg)@,
            sheets_gone(start, r@, dir@, gs, i as int) == Ok::<Seq<Part>, Fault>(pkg@),
        decreases n - i,
    {
        assert(gs[i as int] == gone@[i as int]@);
        if !is_new_path(r, dir, &gone[i]) {
            pkg.remove(&gone[i]);
            let cut = remove_manifest_item(pkg, &gone[i]);
            if let Err(e) = cut {
                proof {
                    assert(sheets_gone(start, r@, dir@, gs, i + 1) == Err::<Seq<Part>, Fault>(e@));
                    lemma_gone_stops(start, r@, dir@, gs, i + 1, n as int);
                }
                return Err(e);
            }
        }
        i += 1;
    }
    Ok(())
}

fn set_texts(pkg: &mut EpubPackage, docs: &Vec<(String, String)>, texts: &Vec<String>)
    requires
        texts@.len() == docs@.len(),
    ensures
        final(pkg)@ == texts_set(
            old(pkg)@,
            edit::pairs(docs@),
            text::strs(texts@),
            docs@.len() as int,
        ),
{
    let ghost start = pkg@;
    let ghost ds = edit::pairs(docs@);
    let ghost ts = text::strs(texts@);
    let n = docs.len();
    let mut i: usize = 0;
    while i < n
        invariant
            i <= n,
            n == docs@.len(),
            n == texts@.len(),
            ds == edit::pairs(docs@),
            ts == text::strs(texts@),
            pkg@ == texts_set(start, ds, ts, i as int),
        decreases n - i,
    {
        assert(ds[i as int] == (docs@[i as int].0@, docs@[i as int].1@));
        assert(ts[i as int] == texts@[i as int]@);
        pkg.replace(&docs[i].0, bytes_of(&texts[i]));
        i += 1;
    }
}

/// A restored book, before it is known what the change changes for a reader.
pub struct Restoration {
    pub bytes: Vec<u8>,
    /// The documents that were rewritten.
    pub documents: Vec<String>,
    /// Which classes became which.
    pub classes: Vec<(String, String)>,
    /// The names of the rules for what is left undone.
    pub residual: Vec<String>,
    /// Those rules.
    pub residual_css: String,
    /// The texts of the documents before and after.
    pub rewritten: Vec<(String, String)>,
}

/// A restored book, with what the change changes for a reader.
pub struct Restored {
    pub bytes: Vec<u8>,
    /// The documents that were rewritten.
    pub documents: Vec<String>,
    /// Which classes became which.
    pub classes: Vec<(String, String)>,
    /// The names of the rules for what is left undone.
    pub residual: Vec<String>,
    /// Those rules.
    pub residual_css: String,
    /// What the change changes for a reader.
    pub diffs: Vec<StyleDiff>,
}

/// What changes for a reader of the first `n` documents, as they are shown before and after.
pub open spec fn shown_changes(
    documents: Seq<Seq<char>>,
    before: Seq<Chapter>,
    after: Seq<Chapter>,
    n: int,
) -> Seq<Diff>
    decreases n,
{
    if n <= 0 {
        Seq::empty()
    } else {
        style_diff::compared(
            shown_changes(documents, before, after, n - 1),
            documents[n - 1],
            style_diff::shown(before[n - 1].blocks@),
            style_diff::shown(after[n - 1].blocks@),
            style_diff::shown(before[n - 1].runs@),
            style_diff::shown(after[n - 1].runs@),
        )
    }
}

impl Restoration {
    /// The restored book, with the differences between its documents as they were shown `before`
    /// and as they are shown `after`, each document in its place.
    pub fn compared(self, before: &Vec<Chapter>, after: &Vec<Chapter>) -> (r: Restored)
        requires
            before@.len() == self.documents@.len(),
            after@.len() == self.documents@.len(),
        ensures
            style_diff::diffs(r.diffs@) == shown_changes(
                text::strs(self.documents@),
                before@,
                after@,
                self.documents@.len() as int,
            ),
            r.bytes == self.bytes,
            r.documents == self.documents,
            r.classes == self.classes,
            r.residual == self.residual,
            r.residual_css == self.residual_css,
    {
        let ghost all = text::strs(self.documents@);
        let n = self.documents.len();
        let mut diffs: Vec<StyleDiff> = Vec::new();
        assert(style_diff::diffs(diffs@) =~= Seq::<Diff>::empty());
        let mut i: usize = 0;
        while i < n
            invariant
                i <= n,
                n == self.documents@.len(),
                n == before@.len(),
                n == after@.len(),
                all == text::strs(self.documents@),
                style_diff::diffs(diffs@) == shown_changes(all, before@, after@, i as int),
            decreases n - i,
        {
            assert(all[i as int] == self.documents@[i as int]@);
            compare_chapters(&self.documents[i], &before[i], &after[i], &mut diffs);
            i += 1;
        }
        Restored {
            bytes: self.bytes,
            documents: self.documents,
            classes: self.classes,
            residual: self.residual,
            residual_css: self.residual_css,
            diffs,
        }
    }
}

impl Restored {
    /// How often differences that a reader sees are seen.
    pub fn material_diffs(&self) -> (r: u128)
        ensures
            r == style_diff::material_to(style_diff::diffs(self.diffs@), self.diffs@.len() as int),
    {
        material_diffs_in(&self.diffs)
    }
}

/// What restoring a book comes to.
#[verifier::ext_equal]
pub struct Restoring {
    pub parts: Seq<Part>,
    pub docs: Seq<(Seq<char>, Seq<char>)>,
    pub rewriting: Rewriting,
    pub css: Seq<char>,
}

/// The book with the members `p` and the package document `d`, flattened as `f` says, restored by
/// the reference `r` with the members `rp`.
pub open spec fn restoring(
    p: Seq<Part>,
    d: Found,
    f: Flattened,
    rp: Seq<Part>,
    r: Styles,
) -> Result<Restoring, Fault> {
    let k = f.sheets.len() as int;
    let table = flat_table(p, f.sheets, k);
    let axes = flat_axes(p, f.sheets, k);
    let dir = structure::spec_dir_of(f.sheets[0]);
    let spine = package::spec_spine_documents(d.book, d.base());
    let (docs, gone) = flat_docs_to(p, spine, f.sheets, spine.len() as int);
    let n = docs.len() as int;
    let plans = style_plan::singles_to(
        r,
        plans_to(r, docs, table, axes, n),
        r.kinds.len() as int,
    );
    let w = rewritten_to(r, docs, plans, table, dir, gone, n);
    let css = residuals::sheet_to(w.residuals, w.residuals.len() as int);
    match sheets_added(p, rp, r, dir, css, r.sheets.len() as int) {
        Err(e) => Err(e),
        Ok(a) => match sheets_gone(a, r, dir, gone, gone.len() as int) {
            Err(e) => Err(e),
            Ok(b) => Ok(
                Restoring { parts: texts_set(b, docs, w.texts, n), docs, rewriting: w, css },
            ),
        },
    }
}

/// What restoring an EPUB by another comes to: refused where the first is not flattened, the second
/// is, or links no stylesheet.
pub open spec fn spec_restore(bytes: Seq<u8>, reference: Seq<u8>) -> Result<Restoring, Fault> {
    match edit::spec_parse(bytes) {
        None => Err(Fault::Archive),
        Some(p) => match flattened::detected(p) {
            None => Err(Fault::Said(ErrorKind::InvalidInput, "no flattened stylesheet"@)),
            Some(f) => match edit::spec_parse(reference) {
                None => Err(Fault::Archive),
                Some(rp) => if flattened::detected(rp) is Some {
                    Err(
                        Fault::Said(
                            ErrorKind::InvalidInput,
                            "the reference book is flattened too"@,
                        ),
                    )
                } else {
                    match package::spec_package_doc(rp) {
                        Err(e) => Err(e),
                        Ok(rd) => {
                            let r = reference_styles::loaded(rp, rd);
                            if r.entries.len() == 0 {
                                Err(
                                    Fault::Said(
                                        ErrorKind::InvalidInput,
                                        "the reference book links no stylesheet"@,
                                    ),
                                )
                            } else {
                                match package::spec_package_doc(p) {
                                    Err(e) => Err(e),
                                    Ok(d) => restoring(p, d, f, rp, r),
                                }
                            }
                        },
                    }
                },
            },
        },
    }
}

/// What comes back of restoring an EPUB.
pub open spec fn restored(r: Result<Restoration, Error>, want: Result<Restoring, Fault>) -> bool {
    match want {
        Err(f) => r matches Err(e) && e@ == f,
        Ok(x) => match r {
            Ok(z) => {
                &&& edit::written(Ok(z.bytes), x.parts)
                &&& text::strs(z.documents@) == x.docs.map_values(
                    |d: (Seq<char>, Seq<char>)| d.0,
                )
                &&& edit::pairs(z.classes@) == x.rewriting.classes
                &&& text::strs(z.residual@) == x.rewriting.residuals.map_values(
                    |v: (Seq<char>, Seq<char>, Seq<(Seq<char>, Seq<char>)>)| v.0,
                )
                &&& z.residual_css@ == x.css
                &&& edit::pairs(z.rewritten@) == Seq::new(
                    x.docs.len(),
                    |i: int| (x.docs[i].1, x.rewriting.texts[i]),
                )
            },
            Err(e) => edit::written(Err(e), x.parts),
        },
    }
}

fn paths_of(docs: &Vec<(String, String)>) -> (r: Vec<String>)
    ensures
        text::strs(r@) == edit::pairs(docs@).map_values(|d: (Seq<char>, Seq<char>)| d.0),
{
    let ghost all = edit::pairs(docs@);
    let ghost want = all.map_values(|d: (Seq<char>, Seq<char>)| d.0);
    let n = docs.len();
    assert(all.len() == n);
    let mut out: Vec<String> = Vec::new();
    assert(text::strs(out@) =~= want.take(0));
    let mut i: usize = 0;
    while i < n
        invariant
            i <= n,
            n == docs@.len(),
            all == edit::pairs(docs@),
            all.len() == n,
            want == all.map_values(|d: (Seq<char>, Seq<char>)| d.0),
            text::strs(out@) == want.take(i as int),
        decreases n - i,
    {
        assert(all[i as int] == (docs@[i as int].0@, docs@[i as int].1@));
        let x = docs[i].0.clone();
        assert(want[i as int] == x@);
        add_str(&mut out, x);
        assert(want.take(i + 1) =~= want.take(i as int).push(want[i as int]));
        i += 1;
    }
    assert(want.take(n as int) =~= want);
    out
}

fn names_of(v: &Vec<Residual>) -> (r: Vec<String>)
    ensures
        text::strs(r@) == residuals::residuals(v@).map_values(
            |x: (Seq<char>, Seq<char>, Seq<(Seq<char>, Seq<char>)>)| x.0,
        ),
{
    let ghost all = residuals::residuals(v@);
    let ghost want = all.map_values(
        |x: (Seq<char>, Seq<char>, Seq<(Seq<char>, Seq<char>)>)| x.0,
    );
    let n = v.len();
    assert(all.len() == n);
    let mut out: Vec<String> = Vec::new();
    assert(text::strs(out@) =~= want.take(0));
    let mut i: usize = 0;
    while i < n
        invariant
            i <= n,
            n == v@.len(),
            all == residuals::residuals(v@),
            all.len() == n,
            want == all.map_values(
                |x: (Seq<char>, Seq<char>, Seq<(Seq<char>, Seq<char>)>)| x.0,
            ),
            text::strs(out@) == want.take(i as int),
        decreases n - i,
    {
        let x = v[i].name.clone();
        assert(all[i as int].0 == x@);
        assert(want[i as int] == x@);
        add_str(&mut out, x);
        assert(want.take(i + 1) =~= want.take(i as int).push(want[i as int]));
        i += 1;
    }
    assert(want.take(n as int) =~= want);
    out
}

fn both_texts(docs: &Vec<(String, String)>, texts: &Vec<String>) -> (r: Vec<(String, String)>)
    requires
        texts@.len() == docs@.len(),
    ensures
        edit::pairs(r@) == Seq::new(
            edit::pairs(docs@).len(),
            |i: int| (edit::pairs(docs@)[i].1, text::strs(texts@)[i]),
        ),
{
    let ghost ds = edit::pairs(docs@);
    let ghost ts = text::strs(texts@);
    let ghost want = Seq::new(ds.len(), |i: int| (ds[i].1, ts[i]));
    let n = docs.len();
    assert(ds.len() == n && ts.len() == n);
    let mut out: Vec<(String, String)> = Vec::new();
    assert(edit::pairs(out@) =~= want.take(0));
    let mut i: usize = 0;
    while i < n
        invariant
            i <= n,
            n == docs@.len(),
            n == texts@.len(),
            ds == edit::pairs(docs@),
            ts == text::strs(texts@),
            ds.len() == n,
            ts.len() == n,
            want == Seq::new(ds.len(), |k: int| (ds[k].1, ts[k])),
            edit::pairs(out@) == want.take(i as int),
        decreases n - i,
    {
        assert(ds[i as int] == (docs@[i as int].0@, docs@[i as int].1@));
        assert(ts[i as int] == texts@[i as int]@);
        let x = (docs[i].1.clone(), texts[i].clone());
        let ghost before = edit::pairs(out@);
        out.push(x);
        assert(edit::pairs(out@) =~= before.push(want[i as int]));
        assert(want.take(i + 1) =~= want.take(i as int).push(want[i as int]));
        i += 1;
    }
    assert(want.take(n as int) =~= want);
    out
}

fn restore(
    mut pkg: EpubPackage,
    d: &PackageDoc,
    f: &FlattenedStyles,
    reference_pkg: &EpubPackage,
    r: &Reference,
) -> (x: Result<Restoration, Error>)
    requires
        d.base@ == d@.base(),
        f.sheets@.len() > 0,
    ensures
        restored(x, restoring(pkg@, d@, f@, reference_pkg@, r@)),
{
    let ghost p = pkg@;
    assert(f@.sheets.len() == f.sheets@.len());
    assert(f@.sheets[0] == f.sheets@[0]@);
    let (table, axes) = read_flat(&pkg, &f.sheets);
    let dir = dir_of(&f.sheets[0]);
    let spine = spine_documents(&d.opf, &d.base);
    assert(edit::pairs(spine@).len() == spine@.len());
    let (docs, gone) = flat_documents(&pkg, &spine, &f.sheets);
    assert(edit::pairs(docs@).len() == docs@.len());
    assert(text::strs(gone@).len() == gone@.len());
    let plans = plan_documents(r, &docs, &table, &axes);
    let out = rewrite_documents(r, &docs, &plans, &table, &dir, &gone);
    let ghost w = out@;
    assert(residuals::residuals(out.residuals@).len() == out.residuals@.len());
    let css = render_residual(&out.residuals);
    if let Err(e) = add_sheets(&mut pkg, reference_pkg, r, &dir, &css) {
        return Err(e);
    }
    if let Err(e) = remove_sheets(&mut pkg, r, &dir, &gone) {
        return Err(e);
    }
    set_texts(&mut pkg, &docs, &out.texts);
    let documents = paths_of(&docs);
    let residual = names_of(&out.residuals);
    let rewritten = both_texts(&docs, &out.texts);
    match pkg.into_bytes() {
        Ok(bytes) => Ok(
            Restoration {
                bytes,
                documents,
                classes: out.classes,
                residual,
                residual_css: css,
                rewritten,
            },
        ),
        Err(e) => Err(e),
    }
}

/// Restore the stylesheets of a flattened EPUB by a reference: its documents get the classes of the
/// reference that declare what theirs did, its stylesheets take the place of the flattened ones,
/// and what none of its classes declares goes into rules of its own. What the change changes for a
/// reader comes of `Restoration::compared`, once the documents have been shown before and after.
pub fn restore_styles(epub_bytes: &[u8], reference_bytes: &[u8]) -> (x: Result<Restoration, Error>)
    ensures
        restored(x, spec_restore(epub_bytes@, reference_bytes@)),
{
    let pkg = match EpubPackage::parse(epub_bytes) {
        Ok(p) => p,
        Err(e) => {
            return Err(e);
        },
    };
    let f = match detect(&pkg) {
        Some(f) => f,
        None => {
            return Err(refuse(ErrorKind::InvalidInput, "no flattened stylesheet"));
        },
    };
    let reference_pkg = match EpubPackage::parse(reference_bytes) {
        Ok(p) => p,
        Err(e) => {
            return Err(e);
        },
    };
    if detect(&reference_pkg).is_some() {
        return Err(refuse(ErrorKind::InvalidInput, "the reference book is flattened too"));
    }
    let rd = match package_doc(&reference_pkg) {
        Ok(d) => d,
        Err(e) => {
            return Err(e);
        },
    };
    let r = Reference::load(&reference_pkg, &rd);
    assert(r@.entries.len() == r.entries@.len());
    if r.entries.len() == 0 {
        return Err(refuse(ErrorKind::InvalidInput, "the reference book links no stylesheet"));
    }
    let d = match package_doc(&pkg) {
        Ok(d) => d,
        Err(e) => {
            return Err(e);
        },
    };
    assert(f@.sheets.len() == f.sheets@.len());
    restore(pkg, &d, &f, &reference_pkg, &r)
}

/// A book that is not flattened is not restored, and a flattened one is not restored by another
/// flattened one.
pub proof fn only_a_flattened_book_is_restored(bytes: Seq<u8>, reference: Seq<u8>)
    requires
        edit::spec_parse(bytes) is Some,
        edit::spec_parse(reference) is Some,
    ensures
        flattened::detected(edit::spec_parse(bytes).unwrap()) is None ==> spec_restore(
            bytes,
            reference,
        ) == Err::<Restoring, Fault>(
            Fault::Said(ErrorKind::InvalidInput, "no flattened stylesheet"@),
        ),
        flattened::detected(edit::spec_parse(bytes).unwrap()) is Some && flattened::detected(
            edit::spec_parse(reference).unwrap(),
        ) is Some ==> spec_restore(bytes, reference) == Err::<Restoring, Fault>(
            Fault::Said(ErrorKind::InvalidInput, "the reference book is flattened too"@),
        ),
{
}

} // verus!
