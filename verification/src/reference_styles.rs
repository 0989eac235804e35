//! The stylesheets of a reference book: its rules, and how its documents use them.
use vstd::prelude::*;

use crate::css;
use crate::edit;
use crate::markup;
use crate::package;
use crate::reach;
use crate::spine_repair;
use crate::split_doc;
use crate::structure;
use crate::stylesheet;
use crate::text;
use crate::archive::Part;
use crate::css::{Kind, scan};
use crate::edit::EpubPackage;
use crate::markup::{Tok, Token, class_list, tokens_of};
use crate::package::{Found, PackageDoc, member_text, spine_documents};
use crate::reach::{add_name, unquoted_of};
use crate::spine_repair::not_behind_of;
use crate::split_doc::stylesheet_links;
use crate::structure::{dir_of, resolve_href};
use crate::stylesheet::{
    Shape, SheetRule, Shp, StyleRule, append_pairs, essential, find_pair, rules_of,
};
use crate::text::{
    add_str, chars_of, copy, find_char, find_str, same, starts_str, str_is, string_of, strs_have,
    trim, words,
};

verus! {

/// How much a selector weighs: its classes first, then its tags.
#[derive(Clone, Copy)]
pub struct Weight {
    pub classes: u128,
    pub tags: u128,
}

/// `a` weighs more than `b`.
pub open spec fn heavier(a: Weight, b: Weight) -> bool {
    a.classes > b.classes || (a.classes == b.classes && a.tags > b.tags)
}

pub fn outweighs(a: Weight, b: Weight) -> (r: bool)
    ensures
        r == heavier(a, b),
{
    a.classes > b.classes || (a.classes == b.classes && a.tags > b.tags)
}

/// A rule of the reference for one selector.
pub struct RefRule {
    pub shape: Shape,
    pub decls: Vec<(String, String)>,
    pub writing_mode: Option<String>,
    pub weight: Weight,
}

/// What a `RefRule` says.
#[verifier::ext_equal]
pub struct Ruled {
    pub shape: Shp,
    pub decls: Seq<(Seq<char>, Seq<char>)>,
    pub mode: Option<Seq<char>>,
    pub weight: Weight,
}

impl View for RefRule {
    type V = Ruled;

    open spec fn view(&self) -> Ruled {
        Ruled {
            shape: self.shape@,
            decls: edit::pairs(self.decls@),
            mode: text::opt_str(self.writing_mode),
            weight: self.weight,
        }
    }
}

pub open spec fn ruled(v: Seq<RefRule>) -> Seq<Ruled> {
    v.map_values(|r: RefRule| r@)
}

/// The weight of a selector.
pub open spec fn weight_of(s: Shp) -> Weight {
    Weight {
        classes: (s.classes.len() + s.context_classes.len()) as u128,
        tags: (s.context_tags.len() + if s.tag is Some {
            1int
        } else {
            0
        }) as u128,
    }
}

/// The first value that the declarations from `i` on give the property.
pub open spec fn first_value(v: Seq<(Seq<char>, Seq<char>)>, name: Seq<char>) -> Option<Seq<char>> {
    stylesheet::value_in(v, name)
}

/// What a rule says as one of the reference.
pub open spec fn as_reference(r: StyleRule) -> Ruled {
    Ruled {
        shape: r.shape,
        decls: stylesheet::essentials(r.decls, true),
        mode: first_value(r.decls, "writing-mode"@),
        weight: weight_of(r.shape),
    }
}

fn reference_rule(r: SheetRule) -> (s: RefRule)
    ensures
        s@ == as_reference(r@),
{
    let mode = match find_pair(&r.decls, "writing-mode") {
        Some(i) => Some(r.decls[i].1.clone()),
        None => None,
    };
    let ghost sh = r.shape@;
    assert(sh.classes.len() == r.shape.classes@.len());
    assert(sh.context_classes.len() == r.shape.context_classes@.len());
    assert(sh.context_tags.len() == r.shape.context_tags@.len());
    let own: u128 = if r.shape.tag.is_some() {
        1
    } else {
        0
    };
    let weight = Weight {
        classes: r.shape.classes.len() as u128 + r.shape.context_classes.len() as u128,
        tags: r.shape.context_tags.len() as u128 + own,
    };
    let decls = essential(&r.decls, true);
    RefRule { shape: r.shape, decls, writing_mode: mode, weight }
}

// ---------------------------------------------------------------- imports

/// What an `@import` imports, where its words stand in `s`.
pub open spec fn import_href(s: Seq<char>) -> Option<Seq<char>> {
    match text::spec_find(s, "url("@, 0) {
        Some(a) => match text::spec_find_char(s, ')', a + 4) {
            Some(b) => Some(reach::unquoted(text::spec_trim(s.subrange(a + 4, b)))),
            None => None,
        },
        None => {
            let end = match text::spec_find_char(s, ';', 0) {
                Some(k) => k,
                None => s.len() as int,
            };
            let words = text::spec_words(s.subrange(0, end));
            if words.len() > 0 {
                Some(reach::unquoted(words[0]))
            } else {
                None
            }
        },
    }
}

fn import_href_of(s: &[char]) -> (r: Option<Vec<char>>)
    ensures
        text::opt_text(r) == import_href(s@),
{
    let n = s.len();
    proof {
        reveal_strlit("url(");
        text::lemma_find(s@, "url("@, 0);
    }
    if let Some(a) = find_str(s, "url(", 0) {
        proof {
            text::lemma_find_char(s@, ')', a + 4);
        }
        return match find_char(s, ')', a + 4) {
            Some(b) => Some(copy(unquoted_of(trim(&s[a + 4..b])))),
            None => None,
        };
    }
    proof {
        text::lemma_find_char(s@, ';', 0);
    }
    let end = match find_char(s, ';', 0) {
        Some(k) => k,
        None => n,
    };
    let w = words(&s[0..end]);
    assert(text::texts(w@).len() == w@.len());
    if w.len() > 0 {
        assert(text::texts(w@)[0] == w@[0]@);
        Some(copy(unquoted_of(&w[0])))
    } else {
        None
    }
}

/// The stylesheets that the first `n` items of the one at `path` import.
pub open spec fn imports_to(t: Seq<char>, v: Seq<css::CssItem>, path: Seq<char>, n: int) -> Seq<Seq<char>>
    decreases n,
{
    if n <= 0 {
        Seq::empty()
    } else {
        let before = imports_to(t, v, path, n - 1);
        let s = t.subrange(v[n - 1].start, v[n - 1].end);
        if v[n - 1].kind is Statement && text::spec_starts(s, "@import"@) {
            match import_href(s.subrange(7, s.len() as int)) {
                Some(h) => before.push(
                    structure::spec_resolve_href(structure::spec_dir_of(path), h),
                ),
                None => before,
            }
        } else {
            before
        }
    }
}

/// The stylesheets that the one at `path` imports, as zip paths.
pub open spec fn imports(p: Seq<Part>, path: Seq<char>) -> Seq<Seq<char>> {
    match package::spec_text(p, path) {
        Some(t) => imports_to(t, css::spec_scan(t), path, css::spec_scan(t).len() as int),
        None => Seq::empty(),
    }
}

/// The stylesheets that the one at `path` imports.
fn css_import_targets(pkg: &EpubPackage, path: &str) -> (r: Vec<String>)
    ensures
        text::strs(r@) == imports(pkg@, path@),
{
    let mut out: Vec<String> = Vec::new();
    assert(text::strs(out@) =~= Seq::empty());
    let text = match member_text(pkg, path) {
        Some(t) => t,
        None => {
            return out;
        },
    };
    let t = chars_of(&text);
    let v = scan(&t);
    let ghost all = css::items(v@);
    let n = v.len();
    assert(all.len() == n);
    let dir = dir_of(path);
    proof {
        reveal_strlit("@import");
    }
    let mut i: usize = 0;
    while i < n
        invariant
            i <= n,
            n == v@.len(),
            all == css::items(v@),
            all.len() == n,
            "@import"@.len() == 7,
            dir@ == structure::spec_dir_of(path@),
            css::items_fit(all, 0, t@.len() as int),
            text::strs(out@) == imports_to(t@, all, path@, i as int),
        decreases n - i,
    {
        assert(all[i as int] == v@[i as int]@);
        let s = &t[v[i].start..v[i].end];
        let statement = match &v[i].kind {
            Kind::Statement => true,
            _ => false,
        };
        if statement && starts_str(s, "@import") {
            if let Some(h) = import_href_of(&s[7..s.len()]) {
                let abs = resolve_href(&dir, &string_of(&h));
                let ghost before = text::strs(out@);
                let ghost av = abs@;
                add_str(&mut out, abs);
                assert(text::strs(out@) =~= before.push(av));
            }
        }
        i += 1;
    }
    out
}

/// The stylesheet at `path` with those it imports before it, each once: what was met, and the
/// order in which their rules count. `fuel` bounds how deep imports are followed.
pub open spec fn visited(
    p: Seq<Part>,
    path: Seq<char>,
    seen: Seq<Seq<char>>,
    out: Seq<Seq<char>>,
    fuel: nat,
) -> (Seq<Seq<char>>, Seq<Seq<char>>)
    decreases fuel, 0int,
{
    if fuel == 0 || seen.contains(path) || edit::member_at(p, path, 0) is None {
        (seen, out)
    } else {
        let list = imports(p, path);
        let (s, o) = all_visited(p, list, 0, seen.push(path), out, (fuel - 1) as nat);
        (s, o.push(path))
    }
}

/// The stylesheets of the list from `i` on, with those they import.
pub open spec fn all_visited(
    p: Seq<Part>,
    list: Seq<Seq<char>>,
    i: int,
    seen: Seq<Seq<char>>,
    out: Seq<Seq<char>>,
    fuel: nat,
) -> (Seq<Seq<char>>, Seq<Seq<char>>)
    decreases fuel, list.len() - i + 1,
{
    if i < 0 || i >= list.len() {
        (seen, out)
    } else {
        let (s, o) = visited(p, list[i], seen, out, fuel);
        all_visited(p, list, i + 1, s, o, fuel)
    }
}

fn visit(
    pkg: &EpubPackage,
    path: &str,
    seen: &mut Vec<String>,
    out: &mut Vec<String>,
    fuel: usize,
)
    ensures
        (text::strs(final(seen)@), text::strs(final(out)@)) == visited(
            pkg@,
            path@,
            text::strs(old(seen)@),
            text::strs(old(out)@),
            fuel as nat,
        ),
    decreases fuel, 0int,
{
    let name = chars_of(path);
    if fuel == 0 || strs_have(seen, &name) || !pkg.contains(path) {
        return;
    }
    let list = css_import_targets(pkg, path);
    add_str(seen, string_of(&name));
    visit_all(pkg, &list, seen, out, fuel - 1);
    add_str(out, string_of(&name));
}

fn visit_all(
    pkg: &EpubPackage,
    list: &Vec<String>,
    seen: &mut Vec<String>,
    out: &mut Vec<String>,
    fuel: usize,
)
    ensures
        (text::strs(final(seen)@), text::strs(final(out)@)) == all_visited(
            pkg@,
            text::strs(list@),
            0,
            text::strs(old(seen)@),
            text::strs(old(out)@),
            fuel as nat,
        ),
    decreases fuel, 1int,
{
    let ghost all = text::strs(list@);
    let ghost want = all_visited(pkg@, all, 0, text::strs(seen@), text::strs(out@), fuel as nat);
    let n = list.len();
    assert(all.len() == n);
    let mut i: usize = 0;
    while i < n
        invariant
            i <= n,
            n == list@.len(),
            all == text::strs(list@),
            all.len() == n,
            want == all_visited(pkg@, all, i as int, text::strs(seen@), text::strs(out@), fuel as nat),
        decreases n - i,
    {
        assert(all[i as int] == list@[i as int]@);
        visit(pkg, &list[i], seen, out, fuel);
        i += 1;
    }
}

/// The stylesheets that count for the entry at `path`, in the order in which their rules count.
pub open spec fn cascade(p: Seq<Part>, path: Seq<char>) -> Seq<Seq<char>> {
    visited(p, path, Seq::empty(), Seq::empty(), p.len()).1
}

/// The rules of the first `n` stylesheets.
pub open spec fn cascade_rules(p: Seq<Part>, sheets: Seq<Seq<char>>, n: int) -> Seq<Ruled>
    decreases n,
{
    if n <= 0 {
        Seq::empty()
    } else {
        cascade_rules(p, sheets, n - 1) + match package::spec_text(p, sheets[n - 1]) {
            Some(t) => stylesheet::sheet_rules(t).map_values(|r: StyleRule| as_reference(r)),
            None => Seq::empty(),
        }
    }
}

/// The rules that count for the entry at `path`.
pub open spec fn entry_rules(p: Seq<Part>, path: Seq<char>) -> Seq<Ruled> {
    cascade_rules(p, cascade(p, path), cascade(p, path).len() as int)
}

fn add_sheet_rules(out: &mut Vec<RefRule>, css: &str)
    ensures
        ruled(final(out)@) == ruled(old(out)@) + stylesheet::sheet_rules(css@).map_values(
            |r: StyleRule| as_reference(r),
        ),
{
    let v = rules_of(css);
    let ghost all = stylesheet::rules(v@);
    let ghost want = all.map_values(|r: StyleRule| as_reference(r));
    let ghost start = ruled(out@);
    let n = v.len();
    assert(all.len() == n);
    let mut v = v;
    let ghost vs = v@;
    let mut i: usize = 0;
    assert(start + want.take(0) =~= start);
    assert(v@ =~= vs.subrange(0, n as int));
    while i < n
        invariant
            i <= n,
            n == vs.len(),
            v@ == vs.subrange(i as int, n as int),
            all == stylesheet::rules(vs),
            all.len() == n,
            want == all.map_values(|r: StyleRule| as_reference(r)),
            ruled(out@) == start + want.take(i as int),
        decreases n - i,
    {
        assert(all[i as int] == vs[i as int]@);
        assert(v@[0] == vs[i as int]);
        let r = v.remove(0);
        assert(v@ =~= vs.subrange(i + 1, n as int));
        let rr = reference_rule(r);
        let ghost rv = rr@;
        let ghost before = ruled(out@);
        out.push(rr);
        assert(ruled(out@) =~= before.push(rv));
        assert(want[i as int] == rv);
        assert(before.push(rv) =~= start + want.take(i + 1));
        i += 1;
    }
    assert(want.take(n as int) =~= want);
}

/// The rules that count for the entry at `path`.
fn rules_of_entry(pkg: &EpubPackage, path: &str) -> (r: Vec<RefRule>)
    ensures
        ruled(r@) == entry_rules(pkg@, path@),
{
    let mut seen: Vec<String> = Vec::new();
    let mut sheets: Vec<String> = Vec::new();
    assert(text::strs(seen@) =~= Seq::empty());
    assert(text::strs(sheets@) =~= Seq::empty());
    assert(pkg@.len() == pkg.entries@.len());
    visit(pkg, path, &mut seen, &mut sheets, pkg.entries.len());
    let ghost all = text::strs(sheets@);
    let n = sheets.len();
    assert(all.len() == n);
    let mut out: Vec<RefRule> = Vec::new();
    assert(ruled(out@) =~= Seq::empty());
    let mut i: usize = 0;
    while i < n
        invariant
            i <= n,
            n == sheets@.len(),
            all == text::strs(sheets@),
            ruled(out@) == cascade_rules(pkg@, all, i as int),
        decreases n - i,
    {
        assert(all[i as int] == sheets@[i as int]@);
        match member_text(pkg, &sheets[i]) {
            Some(t) => {
                add_sheet_rules(&mut out, &t);
            },
            None => {
                assert(ruled(out@) =~= ruled(out@) + Seq::empty());
            },
        }
        i += 1;
    }
    out
}

// ---------------------------------------------------------------- documents

/// The classes of the first `n` tags of a document but `html` and `body`, each with its tag.
pub open spec fn classes_to(t: Seq<char>, v: Seq<Token>, n: int) -> Seq<(Seq<char>, Seq<char>)>
    decreases n,
{
    if n <= 0 {
        Seq::empty()
    } else {
        classes_to(t, v, n - 1) + match v[n - 1] {
            Token::Tag { start, end, name, closing, .. } if !closing && name != "html"@ && name
                != "body"@ => markup::spec_class_list(t.subrange(start, end)).map_values(
                |c: Seq<char>| (name, c),
            ),
            _ => Seq::empty(),
        }
    }
}

/// The classes of a document's elements, each with the tag that has it.
pub open spec fn tag_classes(t: Seq<char>) -> Seq<(Seq<char>, Seq<char>)> {
    let v = markup::spec_tokens(t);
    classes_to(t, v, v.len() as int)
}

fn add_tagged(out: &mut Vec<(String, String)>, tag: &str, classes: &Vec<String>)
    ensures
        edit::pairs(final(out)@) == edit::pairs(old(out)@) + text::strs(classes@).map_values(
            |c: Seq<char>| (tag@, c),
        ),
{
    let ghost start = edit::pairs(out@);
    let ghost all = text::strs(classes@);
    let ghost want = all.map_values(|c: Seq<char>| (tag@, c));
    let n = classes.len();
    assert(all.len() == n);
    let mut i: usize = 0;
    assert(start + want.take(0) =~= start);
    while i < n
        invariant
            i <= n,
            n == classes@.len(),
            all == text::strs(classes@),
            all.len() == n,
            want == all.map_values(|c: Seq<char>| (tag@, c)),
            edit::pairs(out@) == start + want.take(i as int),
        decreases n - i,
    {
        assert(all[i as int] == classes@[i as int]@);
        let a = string_of(&chars_of(tag));
        let b = classes[i].clone();
        let ghost before = edit::pairs(out@);
        out.push((a, b));
        assert(want[i as int] == (tag@, all[i as int]));
        assert(edit::pairs(out@) =~= before.push(want[i as int]));
        assert(before.push(want[i as int]) =~= start + want.take(i + 1));
        i += 1;
    }
    assert(want.take(n as int) =~= want);
}

/// The classes of a document's elements, each with the tag that has it.
pub fn all_classes(text: &str) -> (r: Vec<(String, String)>)
    ensures
        edit::pairs(r@) == tag_classes(text@),
{
    let t = chars_of(text);
    let v = tokens_of(&t);
    let ghost ks = markup::spec_tokens(t@);
    proof {
        markup::tokens_tile_the_text(t@);
        markup::lemma_tiles_bound(ks, 0, t@.len() as int);
    }
    let mut out: Vec<(String, String)> = Vec::new();
    assert(edit::pairs(out@) =~= Seq::empty());
    let mut i: usize = 0;
    while i < v.len()
        invariant
            i <= v@.len(),
            ks == markup::spec_tokens(t@),
            markup::toks(v@) == ks,
            forall|k: int|
                0 <= k < ks.len() ==> 0 <= (#[trigger] ks[k]).start() && ks[k].end() <= t@.len()
                    && ks[k].start() < ks[k].end(),
            edit::pairs(out@) == classes_to(t@, ks, i as int),
        decreases v@.len() - i,
    {
        assert(ks[i as int] == v@[i as int]@);
        let mut met = false;
        if let Tok::Tag { start, end, name, closing, .. } = &v[i] {
            if !*closing && !str_is(name, "html") && !str_is(name, "body") {
                let list = class_list(&string_of(&t[*start..*end]));
                add_tagged(&mut out, name, &list);
                met = true;
            }
        }
        if !met {
            assert(edit::pairs(out@) =~= edit::pairs(out@) + Seq::empty());
        }
        i += 1;
    }
    out
}

/// The first class of the first element from the token `i` on with the tag.
pub open spec fn first_class_from(t: Seq<char>, v: Seq<Token>, tag: Seq<char>, i: int) -> Option<Seq<char>>
    decreases v.len() - i,
{
    if i < 0 || i >= v.len() {
        None
    } else {
        match v[i] {
            Token::Tag { start, end, name, closing, .. } if !closing && name == tag => {
                let list = markup::spec_class_list(t.subrange(start, end));
                if list.len() > 0 {
                    Some(list[0])
                } else {
                    None
                }
            },
            _ => first_class_from(t, v, tag, i + 1),
        }
    }
}

/// The first class of the first element of a document with the tag.
pub open spec fn first_class(t: Seq<char>, tag: Seq<char>) -> Option<Seq<char>> {
    first_class_from(t, markup::spec_tokens(t), tag, 0)
}

/// The first class of the first element of a document with the tag.
pub fn first_class_of(text: &str, tag: &str) -> (r: Option<String>)
    ensures
        text::opt_str(r) == first_class(text@, tag@),
{
    let t = chars_of(text);
    let v = tokens_of(&t);
    let ghost ks = markup::spec_tokens(t@);
    proof {
        markup::tokens_tile_the_text(t@);
        markup::lemma_tiles_bound(ks, 0, t@.len() as int);
    }
    let mut i: usize = 0;
    while i < v.len()
        invariant
            i <= v@.len(),
            ks == markup::spec_tokens(t@),
            t@ == text@,
            markup::toks(v@) == ks,
            forall|k: int|
                0 <= k < ks.len() ==> 0 <= (#[trigger] ks[k]).start() && ks[k].end() <= t@.len()
                    && ks[k].start() < ks[k].end(),
            first_class_from(t@, ks, tag@, i as int) == first_class(text@, tag@),
        decreases v@.len() - i,
    {
        assert(ks[i as int] == v@[i as int]@);
        if let Tok::Tag { start, end, name, closing, .. } = &v[i] {
            if !*closing && str_is(name, tag) {
                let list = class_list(&string_of(&t[*start..*end]));
                assert(text::strs(list@).len() == list@.len());
                if list.len() > 0 {
                    assert(text::strs(list@)[0] == list@[0]@);
                    return Some(list[0].clone());
                }
                return None;
            }
        }
        i += 1;
    }
    None
}

/// A document of the reference: the kind of page that its body names, the axis that its root
/// names, and the stylesheet that it links first.
pub struct RefDoc {
    pub kind: Option<String>,
    pub axis: Option<String>,
    pub entry: Option<String>,
}

/// What a `RefDoc` says.
#[verifier::ext_equal]
pub struct Page {
    pub kind: Option<Seq<char>>,
    pub axis: Option<Seq<char>>,
    pub entry: Option<Seq<char>>,
}

impl View for RefDoc {
    type V = Page;

    open spec fn view(&self) -> Page {
        Page {
            kind: text::opt_str(self.kind),
            axis: text::opt_str(self.axis),
            entry: text::opt_str(self.entry),
        }
    }
}

pub open spec fn pages(v: Seq<RefDoc>) -> Seq<Page> {
    v.map_values(|d: RefDoc| d@)
}

/// The document at `path` with the text `t`.
pub open spec fn page_of(p: Seq<Part>, path: Seq<char>, t: Seq<char>) -> Page {
    let links = split_doc::spec_stylesheet_links(t, structure::spec_dir_of(path));
    Page {
        kind: first_class(t, "body"@),
        axis: first_class(t, "html"@),
        entry: if links.len() > 0 && edit::member_at(p, links[0], 0) is Some {
            Some(links[0])
        } else {
            None
        },
    }
}

/// The documents of the first `n` places of the spine.
pub open spec fn pages_to(p: Seq<Part>, spine: Seq<(Seq<char>, Seq<char>)>, n: int) -> Seq<Page>
    decreases n,
{
    if n <= 0 {
        Seq::empty()
    } else {
        match package::spec_text(p, spine[n - 1].0) {
            Some(t) => pages_to(p, spine, n - 1).push(page_of(p, spine[n - 1].0, t)),
            None => pages_to(p, spine, n - 1),
        }
    }
}

/// The classes of the documents of the first `n` places of the spine, each with its tag.
pub open spec fn vocabulary_to(p: Seq<Part>, spine: Seq<(Seq<char>, Seq<char>)>, n: int) -> Seq<
    (Seq<char>, Seq<char>),
>
    decreases n,
{
    if n <= 0 {
        Seq::empty()
    } else {
        vocabulary_to(p, spine, n - 1) + match package::spec_text(p, spine[n - 1].0) {
            Some(t) => tag_classes(t),
            None => Seq::empty(),
        }
    }
}

fn page(pkg: &EpubPackage, path: &str, text: &str) -> (r: RefDoc)
    ensures
        r@ == page_of(pkg@, path@, text@),
{
    let links = stylesheet_links(text, &dir_of(path));
    assert(text::texts(links@).len() == links@.len());
    let mut entry: Option<String> = None;
    if links.len() > 0 {
        assert(text::texts(links@)[0] == links@[0]@);
        let first = string_of(&links[0]);
        if pkg.contains(&first) {
            entry = Some(first);
        }
    }
    RefDoc { kind: first_class_of(text, "body"), axis: first_class_of(text, "html"), entry }
}

fn read_pages(
    pkg: &EpubPackage,
    spine: &Vec<(String, String)>,
    vocabulary: &mut Vec<(String, String)>,
) -> (r: Vec<RefDoc>)
    requires
        old(vocabulary)@.len() == 0,
    ensures
        pages(r@) == pages_to(pkg@, edit::pairs(spine@), spine@.len() as int),
        edit::pairs(final(vocabulary)@) == vocabulary_to(
            pkg@,
            edit::pairs(spine@),
            spine@.len() as int,
        ),
{
    let ghost ss = edit::pairs(spine@);
    let n = spine.len();
    let mut out: Vec<RefDoc> = Vec::new();
    assert(pages(out@) =~= Seq::empty());
    assert(edit::pairs(vocabulary@) =~= Seq::empty());
    let mut i: usize = 0;
    while i < n
        invariant
            i <= n,
            n == spine@.len(),
            ss == edit::pairs(spine@),
            pages(out@) == pages_to(pkg@, ss, i as int),
            edit::pairs(vocabulary@) == vocabulary_to(pkg@, ss, i as int),
        decreases n - i,
    {
        assert(ss[i as int] == (spine@[i as int].0@, spine@[i as int].1@));
        match member_text(pkg, &spine[i].0) {
            Some(t) => {
                let d = page(pkg, &spine[i].0, &t);
                let ghost dv = d@;
                let ghost before = pages(out@);
                out.push(d);
                assert(pages(out@) =~= before.push(dv));
                append_pairs(vocabulary, &all_classes(&t));
            },
            None => {
                assert(edit::pairs(vocabulary@) =~= edit::pairs(vocabulary@) + Seq::empty());
            },
        }
        i += 1;
    }
    out
}

// ---------------------------------------------------------------- the reference

/// `v`, in order, with `x` in it once.
pub open spec fn with_one(v: Seq<Seq<char>>, x: Seq<char>) -> Seq<Seq<char>> {
    if v.contains(x) {
        v
    } else {
        reach::with_name(v, x, 0)
    }
}

pub fn add_one(v: &mut Vec<String>, x: &String)
    ensures
        text::strs(final(v)@) == with_one(text::strs(old(v)@), x@),
{
    if !strs_have(v, &chars_of(x)) {
        add_name(v, x);
    }
}

/// The stylesheets that the first `n` documents link first, each once, in order.
pub open spec fn entries_to(v: Seq<Page>, n: int) -> Seq<Seq<char>>
    decreases n,
{
    if n <= 0 {
        Seq::empty()
    } else {
        match v[n - 1].entry {
            Some(e) => with_one(entries_to(v, n - 1), e),
            None => entries_to(v, n - 1),
        }
    }
}

/// The kinds that the first `n` documents name, each once, in order.
pub open spec fn kinds_to(v: Seq<Page>, n: int) -> Seq<Seq<char>>
    decreases n,
{
    if n <= 0 {
        Seq::empty()
    } else {
        match v[n - 1].kind {
            Some(k) => with_one(kinds_to(v, n - 1), k),
            None => kinds_to(v, n - 1),
        }
    }
}

/// The rules of a list of entries: each entry with its own.
pub open spec fn entry_tables(p: Seq<Part>, entries: Seq<Seq<char>>) -> Seq<(Seq<char>, Seq<Ruled>)> {
    entries.map_values(|e: Seq<char>| (e, entry_rules(p, e)))
}

/// The classes that the first `n` rules give a body alone, with those in `kinds`.
pub open spec fn body_kinds(v: Seq<Ruled>, kinds: Seq<Seq<char>>, n: int) -> Seq<Seq<char>>
    decreases n,
{
    if n <= 0 {
        kinds
    } else {
        let before = body_kinds(v, kinds, n - 1);
        let s = v[n - 1].shape;
        if s.tag == Some("body"@) && s.classes.len() == 1 {
            with_one(before, s.classes[0])
        } else {
            before
        }
    }
}

/// A rule with a declaration selects an element by the class.
pub open spec fn is_styled(v: Seq<Ruled>, class: Seq<char>) -> bool {
    exists|i: int|
        0 <= i < v.len() && (#[trigger] v[i]).shape.classes.contains(class) && (v[i].decls.len()
            > 0 || v[i].mode is Some)
}

/// A rule of one of the first `n` entries does.
pub open spec fn is_styled_to(v: Seq<(Seq<char>, Seq<Ruled>)>, class: Seq<char>, n: int) -> bool
    decreases n,
{
    n > 0 && (is_styled(v[n - 1].1, class) || is_styled_to(v, class, n - 1))
}

/// The classes that the rules of the first `n` entries give a body alone, with those in `kinds`.
pub open spec fn body_kinds_to(
    v: Seq<(Seq<char>, Seq<Ruled>)>,
    kinds: Seq<Seq<char>>,
    n: int,
) -> Seq<Seq<char>>
    decreases n,
{
    if n <= 0 {
        kinds
    } else {
        body_kinds(v[n - 1].1, body_kinds_to(v, kinds, n - 1), v[n - 1].1.len() as int)
    }
}

/// An element of the documents has the class.
pub open spec fn is_used(vocabulary: Seq<(Seq<char>, Seq<char>)>, class: Seq<char>) -> bool {
    exists|i: int| 0 <= i < vocabulary.len() && (#[trigger] vocabulary[i]).1 == class
}

/// The first `n` of the classes of elements round another, with those in `kinds`: one that selects
/// nothing by itself and that no element has is a kind of page.
pub open spec fn context_kinds(
    classes: Seq<Seq<char>>,
    all: Seq<(Seq<char>, Seq<Ruled>)>,
    vocabulary: Seq<(Seq<char>, Seq<char>)>,
    kinds: Seq<Seq<char>>,
    n: int,
) -> Seq<Seq<char>>
    decreases n,
{
    if n <= 0 {
        kinds
    } else {
        let before = context_kinds(classes, all, vocabulary, kinds, n - 1);
        let c = classes[n - 1];
        if !is_styled_to(all, c, all.len() as int) && !is_used(vocabulary, c) {
            with_one(before, c)
        } else {
            before
        }
    }
}

/// The kinds that the contexts of the first `n` rules name, with those in `kinds`.
pub open spec fn kinds_in_contexts(
    v: Seq<Ruled>,
    all: Seq<(Seq<char>, Seq<Ruled>)>,
    vocabulary: Seq<(Seq<char>, Seq<char>)>,
    kinds: Seq<Seq<char>>,
    n: int,
) -> Seq<Seq<char>>
    decreases n,
{
    if n <= 0 {
        kinds
    } else {
        let c = v[n - 1].shape.context_classes;
        context_kinds(
            c,
            all,
            vocabulary,
            kinds_in_contexts(v, all, vocabulary, kinds, n - 1),
            c.len() as int,
        )
    }
}

/// The kinds that the contexts of the rules of the first `n` entries name, with those in `kinds`.
pub open spec fn kinds_in_entries(
    all: Seq<(Seq<char>, Seq<Ruled>)>,
    vocabulary: Seq<(Seq<char>, Seq<char>)>,
    kinds: Seq<Seq<char>>,
    n: int,
) -> Seq<Seq<char>>
    decreases n,
{
    if n <= 0 {
        kinds
    } else {
        kinds_in_contexts(
            all[n - 1].1,
            all,
            vocabulary,
            kinds_in_entries(all, vocabulary, kinds, n - 1),
            all[n - 1].1.len() as int,
        )
    }
}

/// The styles of a reference book.
pub struct Reference {
    /// The stylesheets that documents link, in order of path, each with the rules that count.
    pub entries: Vec<(String, Vec<RefRule>)>,
    /// These and all that they import, in order of path.
    pub sheets: Vec<String>,
    pub docs: Vec<RefDoc>,
    /// The kinds of page, in order.
    pub kinds: Vec<String>,
    /// The classes that elements have, each with its tag.
    pub vocabulary: Vec<(String, String)>,
}

/// What a `Reference` says.
#[verifier::ext_equal]
pub struct Styles {
    pub entries: Seq<(Seq<char>, Seq<Ruled>)>,
    pub sheets: Seq<Seq<char>>,
    pub pages: Seq<Page>,
    pub kinds: Seq<Seq<char>>,
    pub vocabulary: Seq<(Seq<char>, Seq<char>)>,
}

pub open spec fn entries_said(v: Seq<(String, Vec<RefRule>)>) -> Seq<(Seq<char>, Seq<Ruled>)> {
    v.map_values(|e: (String, Vec<RefRule>)| (e.0@, ruled(e.1@)))
}

impl View for Reference {
    type V = Styles;

    open spec fn view(&self) -> Styles {
        Styles {
            entries: entries_said(self.entries@),
            sheets: text::strs(self.sheets@),
            pages: pages(self.docs@),
            kinds: text::strs(self.kinds@),
            vocabulary: edit::pairs(self.vocabulary@),
        }
    }
}

/// The first `n` of the stylesheets, each once, in order.
pub open spec fn in_order_to(v: Seq<Seq<char>>, n: int) -> Seq<Seq<char>>
    decreases n,
{
    if n <= 0 {
        Seq::empty()
    } else {
        with_one(in_order_to(v, n - 1), v[n - 1])
    }
}

/// The styles of the book with the members `p` and the package document `d`.
pub open spec fn loaded(p: Seq<Part>, d: Found) -> Styles {
    let spine = package::spec_spine_documents(d.book, d.base());
    let n = spine.len() as int;
    let docs = pages_to(p, spine, n);
    let vocabulary = vocabulary_to(p, spine, n);
    let paths = entries_to(docs, docs.len() as int);
    let entries = entry_tables(p, paths);
    let m = entries.len() as int;
    let seen = all_visited(p, paths, 0, Seq::empty(), Seq::empty(), p.len()).0;
    Styles {
        entries,
        sheets: in_order_to(seen, seen.len() as int),
        pages: docs,
        kinds: kinds_in_entries(
            entries,
            vocabulary,
            body_kinds_to(entries, kinds_to(docs, docs.len() as int), m),
            m,
        ),
        vocabulary,
    }
}

fn entry_paths_of(v: &Vec<RefDoc>) -> (r: Vec<String>)
    ensures
        text::strs(r@) == entries_to(pages(v@), v@.len() as int),
{
    let ghost all = pages(v@);
    let n = v.len();
    let mut out: Vec<String> = Vec::new();
    assert(text::strs(out@) =~= Seq::empty());
    let mut i: usize = 0;
    while i < n
        invariant
            i <= n,
            n == v@.len(),
            all == pages(v@),
            text::strs(out@) == entries_to(all, i as int),
        decreases n - i,
    {
        assert(all[i as int] == v@[i as int]@);
        if let Some(e) = &v[i].entry {
            add_one(&mut out, e);
        }
        i += 1;
    }
    out
}

fn page_kinds_of(v: &Vec<RefDoc>) -> (r: Vec<String>)
    ensures
        text::strs(r@) == kinds_to(pages(v@), v@.len() as int),
{
    let ghost all = pages(v@);
    let n = v.len();
    let mut out: Vec<String> = Vec::new();
    assert(text::strs(out@) =~= Seq::empty());
    let mut i: usize = 0;
    while i < n
        invariant
            i <= n,
            n == v@.len(),
            all == pages(v@),
            text::strs(out@) == kinds_to(all, i as int),
        decreases n - i,
    {
        assert(all[i as int] == v@[i as int]@);
        if let Some(k) = &v[i].kind {
            add_one(&mut out, k);
        }
        i += 1;
    }
    out
}

fn load_entries(pkg: &EpubPackage, paths: &Vec<String>) -> (r: Vec<(String, Vec<RefRule>)>)
    ensures
        entries_said(r@) == entry_tables(pkg@, text::strs(paths@)),
{
    let ghost all = text::strs(paths@);
    let ghost want = entry_tables(pkg@, all);
    let n = paths.len();
    assert(all.len() == n);
    let mut out: Vec<(String, Vec<RefRule>)> = Vec::new();
    assert(entries_said(out@) =~= want.take(0));
    let mut i: usize = 0;
    while i < n
        invariant
            i <= n,
            n == paths@.len(),
            all == text::strs(paths@),
            all.len() == n,
            want == entry_tables(pkg@, all),
            entries_said(out@) == want.take(i as int),
        decreases n - i,
    {
        assert(all[i as int] == paths@[i as int]@);
        let rules_here = rules_of_entry(pkg, &paths[i]);
        let x = (paths[i].clone(), rules_here);
        assert(want[i as int] == (x.0@, ruled(x.1@)));
        let ghost before = entries_said(out@);
        out.push(x);
        assert(entries_said(out@) =~= before.push(want[i as int]));
        assert(want.take(i + 1) =~= want.take(i as int).push(want[i as int]));
        i += 1;
    }
    assert(want.take(n as int) =~= want);
    out
}

fn is_styled_of(v: &Vec<RefRule>, class: &[char]) -> (r: bool)
    ensures
        r == is_styled(ruled(v@), class@),
{
    let ghost all = ruled(v@);
    let n = v.len();
    assert(all.len() == n);
    let mut i: usize = 0;
    while i < n
        invariant
            i <= n,
            n == v@.len(),
            all == ruled(v@),
            all.len() == n,
            forall|k: int|
                0 <= k < i ==> !((#[trigger] all[k]).shape.classes.contains(class@) && (
                all[k].decls.len() > 0 || all[k].mode is Some)),
        decreases n - i,
    {
        assert(all[i as int] == v@[i as int]@);
        assert(v@[i as int]@.decls.len() == v@[i as int].decls@.len());
        if strs_have(&v[i].shape.classes, class) && (v[i].decls.len() > 0
            || v[i].writing_mode.is_some()) {
            return true;
        }
        i += 1;
    }
    false
}

fn is_styled_in(v: &Vec<(String, Vec<RefRule>)>, class: &[char]) -> (r: bool)
    ensures
        r == is_styled_to(entries_said(v@), class@, v@.len() as int),
{
    let ghost all = entries_said(v@);
    let mut n: usize = v.len();
    while n > 0
        invariant
            n <= v@.len(),
            all == entries_said(v@),
            is_styled_to(all, class@, n as int) == is_styled_to(all, class@, v@.len() as int),
        decreases n,
    {
        assert(all[n - 1] == (v@[n - 1].0@, ruled(v@[n - 1].1@)));
        if is_styled_of(&v[n - 1].1, class) {
            return true;
        }
        n -= 1;
    }
    false
}

pub fn is_used_in(v: &Vec<(String, String)>, class: &[char]) -> (r: bool)
    ensures
        r == is_used(edit::pairs(v@), class@),
{
    let ghost all = edit::pairs(v@);
    let n = v.len();
    assert(all.len() == n);
    let mut i: usize = 0;
    while i < n
        invariant
            i <= n,
            n == v@.len(),
            all == edit::pairs(v@),
            all.len() == n,
            forall|k: int| 0 <= k < i ==> (#[trigger] all[k]).1 != class@,
        decreases n - i,
    {
        assert(all[i as int] == (v@[i as int].0@, v@[i as int].1@));
        if same(&chars_of(&v[i].1), class) {
            return true;
        }
        i += 1;
    }
    false
}

fn add_body_kinds(kinds: &mut Vec<String>, v: &Vec<RefRule>)
    ensures
        text::strs(final(kinds)@) == body_kinds(
            ruled(v@),
            text::strs(old(kinds)@),
            v@.len() as int,
        ),
{
    let ghost all = ruled(v@);
    let ghost start = text::strs(kinds@);
    let n = v.len();
    let mut i: usize = 0;
    while i < n
        invariant
            i <= n,
            n == v@.len(),
            all == ruled(v@),
            text::strs(kinds@) == body_kinds(all, start, i as int),
        decreases n - i,
    {
        assert(all[i as int] == v@[i as int]@);
        let s = &v[i].shape;
        assert(s@.classes.len() == s.classes@.len());
        let on_body = match &s.tag {
            Some(t) => str_is(t, "body"),
            None => false,
        };
        if on_body && s.classes.len() == 1 {
            assert(s@.classes[0] == s.classes@[0]@);
            add_one(kinds, &s.classes[0]);
        }
        i += 1;
    }
}

fn add_context_kinds(
    kinds: &mut Vec<String>,
    classes: &Vec<String>,
    entries: &Vec<(String, Vec<RefRule>)>,
    vocabulary: &Vec<(String, String)>,
)
    ensures
        text::strs(final(kinds)@) == context_kinds(
            text::strs(classes@),
            entries_said(entries@),
            edit::pairs(vocabulary@),
            text::strs(old(kinds)@),
            classes@.len() as int,
        ),
{
    let ghost all = entries_said(entries@);
    let ghost vs = edit::pairs(vocabulary@);
    let ghost cs = text::strs(classes@);
    let ghost start = text::strs(kinds@);
    assert(all.len() == entries@.len());
    let n = classes.len();
    let mut i: usize = 0;
    while i < n
        invariant
            i <= n,
            n == classes@.len(),
            all == entries_said(entries@),
            all.len() == entries@.len(),
            vs == edit::pairs(vocabulary@),
            cs == text::strs(classes@),
            text::strs(kinds@) == context_kinds(cs, all, vs, start, i as int),
        decreases n - i,
    {
        assert(cs[i as int] == classes@[i as int]@);
        let c = chars_of(&classes[i]);
        if !is_styled_in(entries, &c) && !is_used_in(vocabulary, &c) {
            add_one(kinds, &classes[i]);
        }
        i += 1;
    }
}

fn add_entry_kinds(
    kinds: &mut Vec<String>,
    v: &Vec<RefRule>,
    entries: &Vec<(String, Vec<RefRule>)>,
    vocabulary: &Vec<(String, String)>,
)
    ensures
        text::strs(final(kinds)@) == kinds_in_contexts(
            ruled(v@),
            entries_said(entries@),
            edit::pairs(vocabulary@),
            text::strs(old(kinds)@),
            v@.len() as int,
        ),
{
    let ghost all = entries_said(entries@);
    let ghost vs = edit::pairs(vocabulary@);
    let ghost rs = ruled(v@);
    let ghost start = text::strs(kinds@);
    let n = v.len();
    let mut i: usize = 0;
    while i < n
        invariant
            i <= n,
            n == v@.len(),
            all == entries_said(entries@),
            vs == edit::pairs(vocabulary@),
            rs == ruled(v@),
            text::strs(kinds@) == kinds_in_contexts(rs, all, vs, start, i as int),
        decreases n - i,
    {
        assert(rs[i as int] == v@[i as int]@);
        let list = &v[i].shape.context_classes;
        assert(v@[i as int]@.shape.context_classes.len() == list@.len());
        add_context_kinds(kinds, list, entries, vocabulary);
        i += 1;
    }
}

fn kinds_of(
    docs: &Vec<RefDoc>,
    entries: &Vec<(String, Vec<RefRule>)>,
    vocabulary: &Vec<(String, String)>,
) -> (r: Vec<String>)
    ensures
        text::strs(r@) == kinds_in_entries(
            entries_said(entries@),
            edit::pairs(vocabulary@),
            body_kinds_to(
                entries_said(entries@),
                kinds_to(pages(docs@), docs@.len() as int),
                entries@.len() as int,
            ),
            entries@.len() as int,
        ),
{
    let ghost all = entries_said(entries@);
    let ghost vs = edit::pairs(vocabulary@);
    let n = entries.len();
    let mut kinds = page_kinds_of(docs);
    let ghost first = text::strs(kinds@);
    let mut i: usize = 0;
    while i < n
        invariant
            i <= n,
            n == entries@.len(),
            all == entries_said(entries@),
            text::strs(kinds@) == body_kinds_to(all, first, i as int),
        decreases n - i,
    {
        assert(all[i as int] == (entries@[i as int].0@, ruled(entries@[i as int].1@)));
        let rules_here = &entries[i].1;
        assert(ruled(rules_here@).len() == rules_here@.len());
        add_body_kinds(&mut kinds, rules_here);
        i += 1;
    }
    let ghost second = text::strs(kinds@);
    i = 0;
    while i < n
        invariant
            i <= n,
            n == entries@.len(),
            all == entries_said(entries@),
            vs == edit::pairs(vocabulary@),
            text::strs(kinds@) == kinds_in_entries(all, vs, second, i as int),
        decreases n - i,
    {
        assert(all[i as int] == (entries@[i as int].0@, ruled(entries@[i as int].1@)));
        let rules_here = &entries[i].1;
        assert(ruled(rules_here@).len() == rules_here@.len());
        add_entry_kinds(&mut kinds, rules_here, entries, vocabulary);
        i += 1;
    }
    kinds
}

impl Reference {
    /// Read the styles of a package.
    pub fn load(pkg: &EpubPackage, d: &PackageDoc) -> (r: Reference)
        requires
            d.base@ == d@.base(),
        ensures
            r@ == loaded(pkg@, d@),
    {
        let spine = spine_documents(&d.opf, &d.base);
        assert(edit::pairs(spine@).len() == spine@.len());
        let mut vocabulary: Vec<(String, String)> = Vec::new();
        let docs = read_pages(pkg, &spine, &mut vocabulary);
        assert(pages(docs@).len() == docs@.len());
        let paths = entry_paths_of(&docs);
        let entries = load_entries(pkg, &paths);
        assert(entries_said(entries@).len() == entries@.len());
        let mut seen: Vec<String> = Vec::new();
        let mut order: Vec<String> = Vec::new();
        assert(text::strs(seen@) =~= Seq::empty());
        assert(text::strs(order@) =~= Seq::empty());
        assert(pkg@.len() == pkg.entries@.len());
        visit_all(pkg, &paths, &mut seen, &mut order, pkg.entries.len());
        let sheets = in_order(&seen);
        assert(text::strs(seen@).len() == seen@.len());
        let kinds = kinds_of(&docs, &entries, &vocabulary);
        Reference { entries, sheets, docs, kinds, vocabulary }
    }
}

fn in_order(v: &Vec<String>) -> (r: Vec<String>)
    ensures
        text::strs(r@) == in_order_to(text::strs(v@), v@.len() as int),
{
    let ghost all = text::strs(v@);
    let n = v.len();
    let mut out: Vec<String> = Vec::new();
    assert(text::strs(out@) =~= Seq::empty());
    let mut i: usize = 0;
    while i < n
        invariant
            i <= n,
            n == v@.len(),
            all == text::strs(v@),
            text::strs(out@) == in_order_to(all, i as int),
        decreases n - i,
    {
        assert(all[i as int] == v@[i as int]@);
        add_one(&mut out, &v[i]);
        i += 1;
    }
    out
}

// ---------------------------------------------------------------- choosing by use

/// How many of the first `n` are `x`.
pub open spec fn count_to(v: Seq<Seq<char>>, x: Seq<char>, n: int) -> int
    decreases n,
{
    if n <= 0 {
        0
    } else {
        count_to(v, x, n - 1) + if v[n - 1] == x {
            1int
        } else {
            0
        }
    }
}

/// The most common among the first `n`; of several as common, the first in order.
pub open spec fn commonest_to(v: Seq<Seq<char>>, n: int) -> Option<Seq<char>>
    decreases n,
{
    if n <= 0 {
        None
    } else {
        let x = v[n - 1];
        match commonest_to(v, n - 1) {
            None => Some(x),
            Some(b) => {
                let cx = count_to(v, x, v.len() as int);
                let cb = count_to(v, b, v.len() as int);
                if cx > cb || (cx == cb && spine_repair::not_behind(x, b, 0)) {
                    Some(x)
                } else {
                    Some(b)
                }
            },
        }
    }
}

/// The most common of some texts; of several as common, the first in order.
pub open spec fn commonest(v: Seq<Seq<char>>) -> Option<Seq<char>> {
    commonest_to(v, v.len() as int)
}

fn count_of(v: &Vec<String>, x: &[char]) -> (r: usize)
    ensures
        r == count_to(text::strs(v@), x@, v@.len() as int),
{
    let ghost all = text::strs(v@);
    let n = v.len();
    let mut count: usize = 0;
    let mut i: usize = 0;
    while i < n
        invariant
            i <= n,
            n == v@.len(),
            all == text::strs(v@),
            count <= i,
            count == count_to(all, x@, i as int),
        decreases n - i,
    {
        assert(all[i as int] == v@[i as int]@);
        if same(&chars_of(&v[i]), x) {
            count += 1;
        }
        i += 1;
    }
    count
}

fn commonest_of(v: &Vec<String>) -> (r: Option<String>)
    ensures
        text::opt_str(r) == commonest(text::strs(v@)),
{
    let ghost all = text::strs(v@);
    let n = v.len();
    assert(all.len() == n);
    let mut best: Option<Vec<char>> = None;
    let mut i: usize = 0;
    while i < n
        invariant
            i <= n,
            n == v@.len(),
            all == text::strs(v@),
            all.len() == n,
            text::opt_text(best) == commonest_to(all, i as int),
        decreases n - i,
    {
        assert(all[i as int] == v@[i as int]@);
        let x = chars_of(&v[i]);
        let better = match &best {
            None => true,
            Some(b) => {
                let cx = count_of(v, &x);
                let cb = count_of(v, b);
                cx > cb || (cx == cb && not_behind_of(&x, b))
            },
        };
        if better {
            best = Some(x);
        }
        i += 1;
    }
    match best {
        Some(b) => Some(string_of(&b)),
        None => None,
    }
}

/// The kinds of the first `n` documents.
pub open spec fn all_kinds(v: Seq<Page>, n: int) -> Seq<Seq<char>>
    decreases n,
{
    if n <= 0 {
        Seq::empty()
    } else {
        match v[n - 1].kind {
            Some(k) => all_kinds(v, n - 1).push(k),
            None => all_kinds(v, n - 1),
        }
    }
}

/// The axes of the first `n` documents of the kind.
pub open spec fn axes_of_kind(v: Seq<Page>, kind: Option<Seq<char>>, n: int) -> Seq<Seq<char>>
    decreases n,
{
    if n <= 0 {
        Seq::empty()
    } else {
        match v[n - 1].axis {
            Some(a) if v[n - 1].kind == kind => axes_of_kind(v, kind, n - 1).push(a),
            _ => axes_of_kind(v, kind, n - 1),
        }
    }
}

/// The stylesheets of the first `n` documents of the kind.
pub open spec fn sheets_of_kind(v: Seq<Page>, kind: Option<Seq<char>>, n: int) -> Seq<Seq<char>>
    decreases n,
{
    if n <= 0 {
        Seq::empty()
    } else {
        match v[n - 1].entry {
            Some(e) if v[n - 1].kind == kind => sheets_of_kind(v, kind, n - 1).push(e),
            _ => sheets_of_kind(v, kind, n - 1),
        }
    }
}

/// How many of the first `n` documents are of the kind.
pub open spec fn kind_count_to(v: Seq<Page>, kind: Seq<char>, n: int) -> int
    decreases n,
{
    if n <= 0 {
        0
    } else {
        kind_count_to(v, kind, n - 1) + if v[n - 1].kind == Some(kind) {
            1int
        } else {
            0
        }
    }
}

/// The place of an entry.
pub open spec fn entry_at(v: Seq<(Seq<char>, Seq<Ruled>)>, path: Seq<char>, i: int) -> Option<int>
    decreases v.len() - i,
{
    if i < 0 || i >= v.len() {
        None
    } else if v[i].0 == path {
        Some(i)
    } else {
        entry_at(v, path, i + 1)
    }
}

/// A rule sets the axis by one class alone.
pub open spec fn sets_axis(r: Ruled, mode: Seq<char>) -> bool {
    r.mode == Some(mode) && r.shape.tag is None && r.shape.classes.len() == 1
        && r.shape.context_classes.len() == 0
}

/// The class that the rules from `i` on set the axis by.
pub open spec fn axis_from(v: Seq<Ruled>, mode: Seq<char>, i: int) -> Option<Seq<char>>
    decreases v.len() - i,
{
    if i < 0 || i >= v.len() {
        None
    } else if sets_axis(v[i], mode) {
        Some(v[i].shape.classes[0])
    } else {
        axis_from(v, mode, i + 1)
    }
}

impl Styles {
    /// How many documents are of the kind.
    pub open spec fn kind_count(self, kind: Seq<char>) -> int {
        kind_count_to(self.pages, kind, self.pages.len() as int)
    }

    /// The kind that most documents are of.
    pub open spec fn default_kind(self) -> Option<Seq<char>> {
        commonest(all_kinds(self.pages, self.pages.len() as int))
    }

    /// The stylesheets that documents of the kind link, in order.
    pub open spec fn entries_for_kind(self, kind: Option<Seq<char>>) -> Seq<Seq<char>> {
        let v = sheets_of_kind(self.pages, kind, self.pages.len() as int);
        in_order_to(v, v.len() as int)
    }

    /// The stylesheet that most documents of the kind link, else the first there is.
    pub open spec fn entry_for_kind(self, kind: Option<Seq<char>>) -> Option<Seq<char>> {
        match commonest(sheets_of_kind(self.pages, kind, self.pages.len() as int)) {
            Some(e) => Some(e),
            None => if self.entries.len() > 0 {
                Some(self.entries[0].0)
            } else {
                None
            },
        }
    }

    /// The class of the root for a page of the kind: the one that most such pages have, else the
    /// one that the stylesheet sets the axis by.
    pub open spec fn axis(self, kind: Option<Seq<char>>, entry: Seq<char>, mode: Seq<char>) -> Option<
        Seq<char>,
    > {
        match commonest(axes_of_kind(self.pages, kind, self.pages.len() as int)) {
            Some(a) => Some(a),
            None => match entry_at(self.entries, entry, 0) {
                Some(i) => axis_from(self.entries[i].1, mode, 0),
                None => None,
            },
        }
    }
}

pub open spec fn opt_ref(s: Option<&str>) -> Option<Seq<char>> {
    match s {
        Some(x) => Some(x@),
        None => None,
    }
}

fn same_kind(a: &Option<String>, b: Option<&str>) -> (r: bool)
    ensures
        r == (text::opt_str(*a) == opt_ref(b)),
{
    match (a, b) {
        (Some(x), Some(y)) => str_is(x, y),
        (None, None) => true,
        _ => false,
    }
}

impl Reference {
    /// How many documents are of the kind.
    pub fn kind_count(&self, kind: &str) -> (r: usize)
        ensures
            r == self@.kind_count(kind@),
    {
        let ghost all = self@.pages;
        let n = self.docs.len();
        assert(all.len() == n);
        let mut count: usize = 0;
        let mut i: usize = 0;
        while i < n
            invariant
                i <= n,
                n == self.docs@.len(),
                all == pages(self.docs@),
                count <= i,
                count == kind_count_to(all, kind@, i as int),
            decreases n - i,
        {
            assert(all[i as int] == self.docs@[i as int]@);
            if same_kind(&self.docs[i].kind, Some(kind)) {
                count += 1;
            }
            i += 1;
        }
        count
    }

    /// The kind that most documents are of.
    pub fn default_kind(&self) -> (r: Option<String>)
        ensures
            text::opt_str(r) == self@.default_kind(),
    {
        let ghost all = self@.pages;
        let n = self.docs.len();
        assert(all.len() == n);
        let mut list: Vec<String> = Vec::new();
        assert(text::strs(list@) =~= Seq::empty());
        let mut i: usize = 0;
        while i < n
            invariant
                i <= n,
                n == self.docs@.len(),
                all == pages(self.docs@),
                text::strs(list@) == all_kinds(all, i as int),
            decreases n - i,
        {
            assert(all[i as int] == self.docs@[i as int]@);
            if let Some(k) = &self.docs[i].kind {
                add_str(&mut list, k.clone());
            }
            i += 1;
        }
        commonest_of(&list)
    }

    fn sheets_for(&self, kind: Option<&str>) -> (r: Vec<String>)
        ensures
            text::strs(r@) == sheets_of_kind(self@.pages, opt_ref(kind), self@.pages.len() as int),
    {
        let ghost all = self@.pages;
        let n = self.docs.len();
        assert(all.len() == n);
        let mut list: Vec<String> = Vec::new();
        assert(text::strs(list@) =~= Seq::empty());
        let mut i: usize = 0;
        while i < n
            invariant
                i <= n,
                n == self.docs@.len(),
                all == pages(self.docs@),
                text::strs(list@) == sheets_of_kind(all, opt_ref(kind), i as int),
            decreases n - i,
        {
            assert(all[i as int] == self.docs@[i as int]@);
            if let Some(e) = &self.docs[i].entry {
                if same_kind(&self.docs[i].kind, kind) {
                    add_str(&mut list, e.clone());
                }
            }
            i += 1;
        }
        list
    }

    /// The stylesheets that documents of the kind link, in order.
    pub fn entries_for_kind(&self, kind: Option<&str>) -> (r: Vec<String>)
        ensures
            text::strs(r@) == self@.entries_for_kind(opt_ref(kind)),
    {
        let v = self.sheets_for(kind);
        assert(text::strs(v@).len() == v@.len());
        in_order(&v)
    }

    /// The stylesheet that most documents of the kind link, else the first there is.
    pub fn entry_for_kind(&self, kind: Option<&str>) -> (r: Option<String>)
        ensures
            text::opt_str(r) == self@.entry_for_kind(opt_ref(kind)),
    {
        let v = self.sheets_for(kind);
        if let Some(e) = commonest_of(&v) {
            return Some(e);
        }
        assert(self@.entries.len() == self.entries@.len());
        if self.entries.len() > 0 {
            assert(self@.entries[0] == (self.entries@[0].0@, ruled(self.entries@[0].1@)));
            Some(self.entries[0].0.clone())
        } else {
            None
        }
    }

    /// The place of the entry at `path`.
    pub fn entry_place(&self, path: &str) -> (r: Option<usize>)
        ensures
            text::pos(r) == entry_at(self@.entries, path@, 0),
            r matches Some(i) ==> i < self.entries@.len(),
    {
        let ghost all = self@.entries;
        let n = self.entries.len();
        assert(all.len() == n);
        let mut i: usize = 0;
        while i < n
            invariant
                i <= n,
                n == self.entries@.len(),
                all == entries_said(self.entries@),
                all.len() == n,
                entry_at(all, path@, i as int) == entry_at(all, path@, 0),
            decreases n - i,
        {
            assert(all[i as int] == (self.entries@[i as int].0@, ruled(self.entries@[i as int].1@)));
            if str_is(&self.entries[i].0, path) {
                return Some(i);
            }
            i += 1;
        }
        None
    }

    fn axis_for_kind(&self, kind: Option<&str>) -> (r: Option<String>)
        ensures
            text::opt_str(r) == commonest(
                axes_of_kind(self@.pages, opt_ref(kind), self@.pages.len() as int),
            ),
    {
        let ghost all = self@.pages;
        let n = self.docs.len();
        assert(all.len() == n);
        let mut list: Vec<String> = Vec::new();
        assert(text::strs(list@) =~= Seq::empty());
        let mut i: usize = 0;
        while i < n
            invariant
                i <= n,
                n == self.docs@.len(),
                all == pages(self.docs@),
                text::strs(list@) == axes_of_kind(all, opt_ref(kind), i as int),
            decreases n - i,
        {
            assert(all[i as int] == self.docs@[i as int]@);
            if let Some(a) = &self.docs[i].axis {
                if same_kind(&self.docs[i].kind, kind) {
                    add_str(&mut list, a.clone());
                }
            }
            i += 1;
        }
        commonest_of(&list)
    }

    /// The class of the root for a page of the kind.
    pub fn axis(&self, kind: Option<&str>, entry: &str, mode: &str) -> (r: Option<String>)
        ensures
            text::opt_str(r) == self@.axis(opt_ref(kind), entry@, mode@),
    {
        if let Some(a) = self.axis_for_kind(kind) {
            return Some(a);
        }
        let k = match self.entry_place(entry) {
            Some(k) => k,
            None => {
                return None;
            },
        };
        assert(self@.entries[k as int] == (
            self.entries@[k as int].0@,
            ruled(self.entries@[k as int].1@),
        ));
        let v = &self.entries[k].1;
        let ghost all = ruled(v@);
        let n = v.len();
        assert(all.len() == n);
        let mut i: usize = 0;
        while i < n
            invariant
                i <= n,
                n == v@.len(),
                all == ruled(v@),
                all.len() == n,
                axis_from(all, mode@, i as int) == self@.axis(opt_ref(kind), entry@, mode@),
            decreases n - i,
        {
            assert(all[i as int] == v@[i as int]@);
            let s = &v[i].shape;
            assert(s@.classes.len() == s.classes@.len());
            assert(s@.context_classes.len() == s.context_classes@.len());
            let here = match &v[i].writing_mode {
                Some(m) => str_is(m, mode),
                None => false,
            };
            if here && s.tag.is_none() && s.classes.len() == 1 && s.context_classes.len() == 0 {
                assert(s@.classes[0] == s.classes@[0]@);
                return Some(s.classes[0].clone());
            }
            i += 1;
        }
        None
    }
}

} // verus!
