//! Cutting a content document in two at a block boundary, and folding the next
//! spine document into one. Both retarget ids and links and update the manifest
//! and the spine.
use vstd::prelude::*;

use crate::edit;
use crate::error;
use crate::fresh;
use crate::manifest;
use crate::markup;
use crate::opf;
use crate::package;
use crate::spine_repair;
use crate::structure;
use crate::text;
use crate::archive::Part;
use crate::codec::bytes_of;
use crate::edit::{Changes, EpubPackage, Log};
use crate::error::{Error, ErrorKind, Fault, refuse, refuse_named};
use crate::fresh::numbered;
use crate::manifest::{
    Listed, Member, MemberRole, add_manifest_item, first_for_of, insert_itemref_after, members,
    remove_itemref, remove_manifest_item, set_item_properties,
};
use crate::markup::{
    TagEdit, Tok, Token, attr_value, attributes, body_span, content_properties, escape_attr,
    is_block, is_void, position_of, rewrite_tags, set_attr, tokens_of,
};
use crate::opf::{item_named_in, or_empty_of, parse_opf};
use crate::package::{Found, PackageDoc, member_text, spine_documents};
use crate::spine_repair::not_behind_of;
use crate::structure::{dir_of, last_part, relativize, resolve_href, split_fragment};
use crate::text::{
    add_text, ascii_trim, ascii_trim_end, ascii_trim_start, chars_of, copy, decimal_of, find_str,
    has_str, join, list_has, lowered, put, put_str, replace_str, rfind_char, same, same_nocase,
    starts_str, str_is, string_of, words,
};

verus! {

// ---------------------------------------------------------------- texts

/// The text of a member; one that is not there is refused.
pub open spec fn text_or_fault(p: Seq<Part>, path: Seq<char>) -> Result<Seq<char>, Fault> {
    match package::spec_text(p, path) {
        Some(t) => Ok(t),
        None => Err(Fault::Said(ErrorKind::NotFound, "no member "@ + path + ""@)),
    }
}

/// The text of a member; one that is not there is refused.
pub fn text_or_error(pkg: &EpubPackage, path: &str) -> (r: Result<String, Error>)
    ensures
        error::str_result(r) == text_or_fault(pkg@, path@),
{
    match member_text(pkg, path) {
        Some(t) => Ok(t),
        None => Err(refuse_named(ErrorKind::NotFound, "no member ", path, "")),
    }
}

// ---------------------------------------------------------------- ids

/// `v`, in lexicographic order and without repeats, with `x` in it.
pub open spec fn with_id(v: Seq<Seq<char>>, x: Seq<char>, i: int) -> Seq<Seq<char>>
    decreases v.len() - i,
{
    if i < 0 || i >= v.len() {
        v.push(x)
    } else if v[i] == x {
        v
    } else if spine_repair::not_behind(x, v[i], 0) {
        v.subrange(0, i).push(x) + v.subrange(i, v.len() as int)
    } else {
        with_id(v, x, i + 1)
    }
}

/// The ids that the start tags among the first `n` tokens define.
pub open spec fn ids_to(t: Seq<char>, v: Seq<Token>, n: int) -> Seq<Seq<char>>
    decreases n,
{
    if n <= 0 {
        Seq::empty()
    } else {
        let before = ids_to(t, v, n - 1);
        match v[n - 1] {
            Token::Tag { start, end, closing, .. } if !closing => match markup::spec_attr_value(
                t.subrange(start, end),
                "id"@,
            ) {
                Some(id) => with_id(before, id, 0),
                None => before,
            },
            _ => before,
        }
    }
}

/// The ids that a text defines, in lexicographic order, each once.
pub open spec fn spec_ids_in(t: Seq<char>) -> Seq<Seq<char>> {
    let v = markup::spec_tokens(t);
    ids_to(t, v, v.len() as int)
}

fn add_id(v: &mut Vec<Vec<char>>, x: Vec<char>)
    ensures
        text::texts(final(v)@) == with_id(text::texts(old(v)@), x@, 0),
{
    let ghost all = text::texts(v@);
    let n = v.len();
    let mut i: usize = 0;
    while i < n
        invariant
            i <= n == v@.len() == all.len(),
            v@ == old(v)@,
            all == text::texts(v@),
            with_id(all, x@, 0) == with_id(all, x@, i as int),
        decreases n - i,
    {
        assert(all[i as int] == v@[i as int]@);
        if same(&v[i], &x) {
            return;
        }
        if not_behind_of(&x, &v[i]) {
            let ghost xv = x@;
            v.insert(i, x);
            assert(text::texts(v@) =~= all.subrange(0, i as int).push(xv) + all.subrange(
                i as int,
                n as int,
            ));
            return;
        }
        i = i + 1;
    }
    add_text(v, x);
}

/// The ids that a text defines, in lexicographic order, each once.
pub fn ids_in(t: &[char]) -> (r: Vec<Vec<char>>)
    ensures
        text::texts(r@) == spec_ids_in(t@),
{
    let v = tokens_of(t);
    proof {
        markup::tokens_tile_the_text(t@);
        markup::lemma_tiles_bound(markup::spec_tokens(t@), 0, t@.len() as int);
    }
    let ghost ks = markup::spec_tokens(t@);
    let mut out: Vec<Vec<char>> = Vec::new();
    assert(text::texts(out@) =~= Seq::<Seq<char>>::empty());
    let mut i: usize = 0;
    while i < v.len()
        invariant
            i <= v@.len(),
            ks == markup::spec_tokens(t@),
            markup::toks(v@) == ks,
            forall|k: int|
                0 <= k < ks.len() ==> 0 <= (#[trigger] ks[k]).start() && ks[k].end() <= t@.len()
                    && ks[k].start() < ks[k].end(),
            text::texts(out@) == ids_to(t@, ks, i as int),
        decreases v@.len() - i,
    {
        assert(ks[i as int] == v@[i as int]@);
        if let Tok::Tag { start, end, closing, .. } = &v[i] {
            if !*closing {
                if let Some(id) = attr_value(&string_of(&t[*start..*end]), "id") {
                    add_id(&mut out, chars_of(&id));
                }
            }
        }
        i = i + 1;
    }
    out
}

// ---------------------------------------------------------------- links

/// An attribute that can name another document.
pub open spec fn is_link(name: Seq<char>) -> bool {
    name == "href"@ || name == "src"@ || name == "xlink:href"@ || name == "poster"@ || name
        == "data"@
}

fn link_attr(name: &str) -> (r: bool)
    ensures
        r == is_link(name@),
{
    str_is(name, "href") || str_is(name, "src") || str_is(name, "xlink:href") || str_is(
        name,
        "poster",
    ) || str_is(name, "data")
}

/// A rule for links: one to a document of `from`, with a fragment that is (or
/// is not) among `ids` where those are given, goes to the document `to`.
#[verifier::ext_equal]
pub struct Move {
    pub from: Seq<Seq<char>>,
    pub ids: Option<(Seq<Seq<char>>, bool)>,
    pub to: Seq<char>,
}

/// The rule applies to a link to the document with the fragment.
pub open spec fn applies(m: Move, target: Seq<char>, frag: Seq<char>) -> bool {
    m.from.contains(target) && match m.ids {
        Some((ids, inside)) => frag.len() > 0 && ids.contains(frag) == inside,
        None => true,
    }
}

/// The fragment of an href, without its `#`.
pub open spec fn bare_fragment(href: Seq<char>) -> Seq<char> {
    let frag = structure::spec_split_fragment(href).1;
    if text::spec_starts(frag, "#"@) {
        frag.subrange(1, frag.len() as int)
    } else {
        frag
    }
}

/// The document that a link names.
pub open spec fn link_target(doc: Seq<char>, value: Seq<char>) -> Seq<char> {
    let path = structure::spec_split_fragment(value).0;
    if path.len() == 0 {
        doc
    } else {
        structure::spec_resolve_href(structure::spec_dir_of(doc), path)
    }
}

/// A link of the document `doc` to `to` with a fragment; the fragment alone where
/// it names something in the document itself.
pub open spec fn link_to(doc: Seq<char>, to: Seq<char>, frag: Seq<char>) -> Seq<char> {
    let path = if to == doc && frag.len() > 0 {
        Seq::empty()
    } else {
        text::spec_replace(
            structure::spec_relativize(structure::spec_dir_of(doc), to),
            " "@,
            "%20"@,
        )
    };
    if frag.len() > 0 {
        path + "#"@ + frag
    } else {
        path
    }
}

/// What the rule makes of an attribute's value, where it changes it. A link to
/// the whole of a document that it leads to already stays as it is written.
pub open spec fn moved_link(doc: Seq<char>, m: Move, name: Seq<char>, value: Seq<char>) -> Option<
    Seq<char>,
> {
    if !is_link(name) || value.len() == 0 || text::spec_contains(value, "://"@) || text::spec_starts(
        value,
        "mailto:"@,
    ) {
        None
    } else {
        let frag = bare_fragment(value);
        if !applies(m, link_target(doc, value), frag) {
            None
        } else {
            let href = link_to(doc, m.to, frag);
            if href.len() == 0 || href == value || (frag.len() == 0 && link_target(doc, value)
                == m.to) {
                None
            } else {
                Some(href)
            }
        }
    }
}

/// The tag once the rule is applied to the first `n` of its attributes, where
/// that changes it.
pub open spec fn tag_moved(
    doc: Seq<char>,
    m: Move,
    tag: Seq<char>,
    attrs: Seq<(Seq<char>, Seq<char>)>,
    n: int,
) -> Option<Seq<char>>
    decreases n,
{
    if n <= 0 {
        None
    } else {
        let before = tag_moved(doc, m, tag, attrs, n - 1);
        match moved_link(doc, m, attrs[n - 1].0, attrs[n - 1].1) {
            Some(href) => Some(
                markup::spec_set_attr(
                    match before {
                        Some(t) => t,
                        None => tag,
                    },
                    attrs[n - 1].0,
                    Some(href),
                ),
            ),
            None => before,
        }
    }
}

/// What the rule makes of a tag.
pub open spec fn move_edit(doc: Seq<char>, m: Move, tag: Seq<char>) -> Option<Seq<char>> {
    let attrs = markup::spec_attributes(tag);
    tag_moved(doc, m, tag, attrs, attrs.len() as int)
}

/// The text of the document `doc` with the rule applied to its links.
pub open spec fn spec_retarget(t: Seq<char>, doc: Seq<char>, m: Move) -> Seq<char> {
    markup::spec_rewrite_tags(|name: Seq<char>, tag: Seq<char>| move_edit(doc, m, tag), t)
}

/// A rule for links.
struct LinkMove {
    from: Vec<Vec<char>>,
    ids: Option<(Vec<Vec<char>>, bool)>,
    to: String,
}

impl LinkMove {
    spec fn says(self) -> Move {
        Move {
            from: text::texts(self.from@),
            ids: match self.ids {
                Some((v, b)) => Some((text::texts(v@), b)),
                None => None,
            },
            to: self.to@,
        }
    }

    fn applies(&self, target: &str, frag: &[char]) -> (r: bool)
        ensures
            r == applies(self.says(), target@, frag@),
    {
        list_has(&self.from, &chars_of(target)) && match &self.ids {
            Some((ids, inside)) => frag.len() > 0 && list_has(ids, frag) == *inside,
            None => true,
        }
    }
}

fn moved_link_of(doc: &str, m: &LinkMove, name: &str, value: &str) -> (r: Option<String>)
    ensures
        text::opt_str(r) == moved_link(doc@, m.says(), name@, value@),
{
    let v = chars_of(value);
    if !link_attr(name) || v.len() == 0 || has_str(&v, "://") || starts_str(&v, "mailto:") {
        return None;
    }
    proof {
        reveal_strlit("#");
        reveal_strlit(" ");
    }
    let (path, frag) = split_fragment(value);
    let frag = chars_of(&frag);
    let frag: &[char] = if starts_str(&frag, "#") {
        &frag[1..frag.len()]
    } else {
        &frag
    };
    let dir = dir_of(doc);
    let target = if chars_of(&path).len() == 0 {
        string_of(&chars_of(doc))
    } else {
        resolve_href(&dir, &path)
    };
    if !m.applies(&target, frag) {
        return None;
    }
    if frag.len() == 0 && str_is(&m.to, &target) {
        return None;
    }
    let mut href = if str_is(&m.to, doc) && frag.len() > 0 {
        Vec::new()
    } else {
        replace_str(&chars_of(&relativize(&dir, &m.to)), " ", "%20")
    };
    if frag.len() > 0 {
        put_str(&mut href, "#");
        put(&mut href, frag);
    }
    assert(href@ =~= link_to(doc@, m.to@, frag@));
    if href.len() == 0 || same(&href, &v) {
        None
    } else {
        Some(string_of(&href))
    }
}

struct Retarget<'a> {
    doc: &'a str,
    rule: &'a LinkMove,
}

impl<'a> TagEdit for Retarget<'a> {
    closed spec fn edited(&self, name: Seq<char>, tag: Seq<char>) -> Option<Seq<char>> {
        move_edit(self.doc@, self.rule.says(), tag)
    }

    fn edit(&self, name: &str, tag: &str) -> (r: Option<String>) {
        let a = attributes(tag);
        let ghost attrs = markup::attrs(a@);
        let mut out: Option<String> = None;
        let mut i: usize = 0;
        while i < a.len()
            invariant
                i <= a@.len(),
                attrs == markup::attrs(a@),
                text::opt_str(out) == tag_moved(
                    self.doc@,
                    self.rule.says(),
                    tag@,
                    attrs,
                    i as int,
                ),
            decreases a@.len() - i,
        {
            assert(attrs[i as int] == (a@[i as int].name@, a@[i as int].value@));
            if let Some(href) = moved_link_of(self.doc, self.rule, &a[i].name, &a[i].value) {
                let new = match &out {
                    Some(t) => set_attr(t, &a[i].name, Some(&href)),
                    None => set_attr(tag, &a[i].name, Some(&href)),
                };
                out = Some(new);
            }
            i = i + 1;
        }
        out
    }
}

fn retarget(text: &str, doc: &str, rule: &LinkMove) -> (r: String)
    ensures
        r@ == spec_retarget(text@, doc@, rule.says()),
{
    let e = Retarget { doc, rule };
    assert(markup::edit_fn(&e) =~= (|name: Seq<char>, tag: Seq<char>|
        move_edit(doc@, rule.says(), tag)));
    rewrite_tags(text, &e)
}

// ---------------------------------------------------------------- links from another directory

/// What an attribute's value becomes when its document moves from the directory
/// `from` to the directory `to`, where it changes.
pub open spec fn rebased_link(from: Seq<char>, to: Seq<char>, name: Seq<char>, value: Seq<char>) -> Option<
    Seq<char>,
> {
    if !is_link(name) || value.len() == 0 || text::spec_contains(value, "://"@) || text::spec_starts(
        value,
        "#"@,
    ) || text::spec_starts(value, "mailto:"@) {
        None
    } else {
        let (path, frag) = structure::spec_split_fragment(value);
        let href = text::spec_replace(
            structure::spec_relativize(to, structure::spec_resolve_href(from, path)),
            " "@,
            "%20"@,
        ) + frag;
        if href != value {
            Some(href)
        } else {
            None
        }
    }
}

/// The tag once the first `n` of its attributes are rebased, where that changes
/// it.
pub open spec fn tag_rebased(
    from: Seq<char>,
    to: Seq<char>,
    tag: Seq<char>,
    attrs: Seq<(Seq<char>, Seq<char>)>,
    n: int,
) -> Option<Seq<char>>
    decreases n,
{
    if n <= 0 {
        None
    } else {
        let before = tag_rebased(from, to, tag, attrs, n - 1);
        match rebased_link(from, to, attrs[n - 1].0, attrs[n - 1].1) {
            Some(href) => Some(
                markup::spec_set_attr(
                    match before {
                        Some(t) => t,
                        None => tag,
                    },
                    attrs[n - 1].0,
                    Some(href),
                ),
            ),
            None => before,
        }
    }
}

/// What moving a document makes of a tag.
pub open spec fn rebase_edit(from: Seq<char>, to: Seq<char>, tag: Seq<char>) -> Option<Seq<char>> {
    let attrs = markup::spec_attributes(tag);
    tag_rebased(from, to, tag, attrs, attrs.len() as int)
}

/// The text with its links written from the directory `to` and not from `from`.
pub open spec fn spec_rebase_to(t: Seq<char>, from: Seq<char>, to: Seq<char>) -> Seq<char> {
    markup::spec_rewrite_tags(|name: Seq<char>, tag: Seq<char>| rebase_edit(from, to, tag), t)
}

struct Rebase<'a> {
    from: &'a str,
    to: &'a str,
}

fn rebased_link_of(from: &str, to: &str, name: &str, value: &str) -> (r: Option<String>)
    ensures
        text::opt_str(r) == rebased_link(from@, to@, name@, value@),
{
    let v = chars_of(value);
    if !link_attr(name) || v.len() == 0 || has_str(&v, "://") || starts_str(&v, "#") || starts_str(
        &v,
        "mailto:",
    ) {
        return None;
    }
    proof {
        reveal_strlit(" ");
    }
    let (path, frag) = split_fragment(value);
    let abs = resolve_href(from, &path);
    let mut href = replace_str(&chars_of(&relativize(to, &abs)), " ", "%20");
    put_str(&mut href, &frag);
    if same(&href, &v) {
        None
    } else {
        Some(string_of(&href))
    }
}

impl<'a> TagEdit for Rebase<'a> {
    closed spec fn edited(&self, name: Seq<char>, tag: Seq<char>) -> Option<Seq<char>> {
        rebase_edit(self.from@, self.to@, tag)
    }

    fn edit(&self, name: &str, tag: &str) -> (r: Option<String>) {
        let a = attributes(tag);
        let ghost attrs = markup::attrs(a@);
        let mut out: Option<String> = None;
        let mut i: usize = 0;
        while i < a.len()
            invariant
                i <= a@.len(),
                attrs == markup::attrs(a@),
                text::opt_str(out) == tag_rebased(self.from@, self.to@, tag@, attrs, i as int),
            decreases a@.len() - i,
        {
            assert(attrs[i as int] == (a@[i as int].name@, a@[i as int].value@));
            if let Some(href) = rebased_link_of(self.from, self.to, &a[i].name, &a[i].value) {
                let new = match &out {
                    Some(t) => set_attr(t, &a[i].name, Some(&href)),
                    None => set_attr(tag, &a[i].name, Some(&href)),
                };
                out = Some(new);
            }
            i = i + 1;
        }
        out
    }
}

fn rebase_to(text: &str, from: &str, to: &str) -> (r: String)
    ensures
        r@ == spec_rebase_to(text@, from@, to@),
{
    let e = Rebase { from, to };
    assert(markup::edit_fn(&e) =~= (|name: Seq<char>, tag: Seq<char>|
        rebase_edit(from@, to@, tag)));
    rewrite_tags(text, &e)
}

/// The stylesheets that the first `n` tokens link, as zip paths.
pub open spec fn sheets_to(t: Seq<char>, v: Seq<Token>, dir: Seq<char>, n: int) -> Seq<Seq<char>>
    decreases n,
{
    if n <= 0 {
        Seq::empty()
    } else {
        let before = sheets_to(t, v, dir, n - 1);
        match v[n - 1] {
            Token::Tag { start, end, name, closing, .. } if !closing && name == "link"@ => {
                let tag = t.subrange(start, end);
                let rel = text::spec_lower(opf::or_empty(markup::spec_attr_value(tag, "rel"@)));
                match markup::spec_attr_value(tag, "href"@) {
                    Some(href) if text::spec_words(rel).contains("stylesheet"@) => before.push(
                        structure::spec_resolve_href(dir, href),
                    ),
                    _ => before,
                }
            },
            _ => before,
        }
    }
}

/// The stylesheets that a document in the directory `dir` links, as zip paths.
pub open spec fn spec_stylesheet_links(t: Seq<char>, dir: Seq<char>) -> Seq<Seq<char>> {
    let v = markup::spec_tokens(t);
    sheets_to(t, v, dir, v.len() as int)
}

/// The stylesheets that a document in the directory `doc_dir` links.
pub fn stylesheet_links(text: &str, doc_dir: &str) -> (r: Vec<Vec<char>>)
    ensures
        text::texts(r@) == spec_stylesheet_links(text@, doc_dir@),
{
    let t = chars_of(text);
    let v = tokens_of(&t);
    proof {
        markup::tokens_tile_the_text(t@);
        markup::lemma_tiles_bound(markup::spec_tokens(t@), 0, t@.len() as int);
    }
    let ghost ks = markup::spec_tokens(t@);
    let mut out: Vec<Vec<char>> = Vec::new();
    assert(text::texts(out@) =~= Seq::<Seq<char>>::empty());
    let mut i: usize = 0;
    while i < v.len()
        invariant
            i <= v@.len(),
            ks == markup::spec_tokens(t@),
            markup::toks(v@) == ks,
            forall|k: int|
                0 <= k < ks.len() ==> 0 <= (#[trigger] ks[k]).start() && ks[k].end() <= t@.len()
                    && ks[k].start() < ks[k].end(),
            text::texts(out@) == sheets_to(t@, ks, doc_dir@, i as int),
        decreases v@.len() - i,
    {
        assert(ks[i as int] == v@[i as int]@);
        if let Tok::Tag { start, end, name, closing, .. } = &v[i] {
            if !*closing && str_is(name, "link") {
                let tag = string_of(&t[*start..*end]);
                let rel = lowered(&chars_of(&or_empty_of(attr_value(&tag, "rel"))));
                if let Some(href) = attr_value(&tag, "href") {
                    if list_has(&words(&rel), &chars_of("stylesheet")) {
                        add_text(&mut out, chars_of(&resolve_href(doc_dir, &href)));
                    }
                }
            }
        }
        i = i + 1;
    }
    out
}

// ---------------------------------------------------------------- where to cut

/// A place to cut, and the elements that are open there, outermost first, each
/// with its name and its start tag.
#[verifier::ext_equal]
pub struct Place {
    pub at: int,
    pub ancestors: Seq<(Seq<char>, Seq<char>)>,
}

/// The open elements once an end tag is met: up to the one it closes.
pub open spec fn closed_to(stack: Seq<(Seq<char>, Seq<char>)>, name: Seq<char>) -> Seq<
    (Seq<char>, Seq<char>),
>
    decreases stack.len(),
{
    if stack.len() == 0 {
        stack
    } else if stack.last().0 == name {
        stack.drop_last()
    } else {
        closed_to(stack.drop_last(), name)
    }
}

/// The last block that starts at `offset` or before it, among the tokens from
/// `i` on of a text that starts at `from`.
pub open spec fn cut_from(
    s: Seq<char>,
    v: Seq<Token>,
    from: int,
    offset: int,
    i: int,
    stack: Seq<(Seq<char>, Seq<char>)>,
    best: Option<Place>,
) -> Option<Place>
    decreases v.len() - i,
{
    if i < 0 || i >= v.len() {
        best
    } else {
        match v[i] {
            Token::Tag { start, end, name, closing, self_closing } => if from + start > offset {
                best
            } else if closing {
                cut_from(s, v, from, offset, i + 1, closed_to(stack, name), best)
            } else {
                cut_from(
                    s,
                    v,
                    from,
                    offset,
                    i + 1,
                    if !self_closing && !markup::spec_is_void(name) {
                        stack.push((name, s.subrange(start, end)))
                    } else {
                        stack
                    },
                    if markup::spec_is_block(name) {
                        Some(Place { at: from + start, ancestors: stack })
                    } else {
                        best
                    },
                )
            },
            _ => cut_from(s, v, from, offset, i + 1, stack, best),
        }
    }
}

/// Where a document whose body's inside stands from `from` to `to` is cut for
/// the position `offset`: before the last block that starts at it or before it.
pub open spec fn spec_split_point(t: Seq<char>, from: int, to: int, offset: int) -> Option<Place> {
    let s = t.subrange(from, to);
    cut_from(s, markup::spec_tokens(s), from, offset, 0, Seq::empty(), None)
}

struct Cut {
    at: usize,
    ancestors: Vec<(String, String)>,
}

spec fn place(c: Option<Cut>) -> Option<Place> {
    match c {
        Some(c) => Some(Place { at: c.at as int, ancestors: edit::pairs(c.ancestors@) }),
        None => None,
    }
}

fn copy_pairs(v: &Vec<(String, String)>) -> (r: Vec<(String, String)>)
    ensures
        edit::pairs(r@) == edit::pairs(v@),
{
    let mut out: Vec<(String, String)> = Vec::new();
    let mut i: usize = 0;
    while i < v.len()
        invariant
            i <= v@.len(),
            edit::pairs(out@) == edit::pairs(v@).take(i as int),
        decreases v@.len() - i,
    {
        let ghost before = edit::pairs(out@);
        out.push((v[i].0.clone(), v[i].1.clone()));
        assert(edit::pairs(out@) =~= before.push((v@[i as int].0@, v@[i as int].1@)));
        assert(edit::pairs(v@)[i as int] == (v@[i as int].0@, v@[i as int].1@));
        assert(edit::pairs(v@).take(i + 1) =~= edit::pairs(v@).take(i as int).push(
            edit::pairs(v@)[i as int],
        ));
        i = i + 1;
    }
    assert(edit::pairs(v@).take(v@.len() as int) =~= edit::pairs(v@));
    out
}

fn close_to(stack: &mut Vec<(String, String)>, name: &str)
    ensures
        edit::pairs(final(stack)@) == closed_to(edit::pairs(old(stack)@), name@),
{
    while stack.len() > 0
        invariant_except_break
            closed_to(edit::pairs(old(stack)@), name@) == closed_to(
                edit::pairs(stack@),
                name@,
            ),
        ensures
            edit::pairs(stack@) == closed_to(edit::pairs(old(stack)@), name@),
        decreases stack@.len(),
    {
        let ghost before = edit::pairs(stack@);
        let ghost raw = stack@;
        let top = stack.pop().unwrap();
        assert(before.last() == (top.0@, top.1@));
        assert(edit::pairs(stack@) =~= before.drop_last());
        if str_is(&top.0, name) {
            break;
        }
    }
}

fn split_point(t: &[char], from: usize, to: usize, offset: usize) -> (r: Option<Cut>)
    requires
        from <= to <= t@.len(),
    ensures
        place(r) == spec_split_point(t@, from as int, to as int, offset as int),
        r matches Some(c) ==> from <= c.at <= to,
{
    let s = &t[from..to];
    let v = tokens_of(s);
    proof {
        markup::tokens_tile_the_text(s@);
        markup::lemma_tiles_bound(markup::spec_tokens(s@), 0, s@.len() as int);
    }
    let ghost ks = markup::spec_tokens(s@);
    let n = s.len();
    let mut stack: Vec<(String, String)> = Vec::new();
    let mut best: Option<Cut> = None;
    assert(edit::pairs(stack@) =~= Seq::<(Seq<char>, Seq<char>)>::empty());
    let mut i: usize = 0;
    while i < v.len()
        invariant_except_break
            i <= v@.len(),
            from <= to,
            s@.len() == to - from,
            ks == markup::spec_tokens(s@),
            markup::toks(v@) == ks,
            forall|k: int|
                0 <= k < ks.len() ==> 0 <= (#[trigger] ks[k]).start() && ks[k].end() <= s@.len()
                    && ks[k].start() < ks[k].end(),
            cut_from(
                s@,
                ks,
                from as int,
                offset as int,
                i as int,
                edit::pairs(stack@),
                place(best),
            ) == cut_from(s@, ks, from as int, offset as int, 0, Seq::empty(), None),
            best matches Some(c) ==> from <= c.at <= to,
        ensures
            place(best) == cut_from(s@, ks, from as int, offset as int, 0, Seq::empty(), None),
            best matches Some(c) ==> from <= c.at <= to,
        decreases v@.len() - i,
    {
        assert(ks[i as int] == v@[i as int]@);
        if let Tok::Tag { start, end, name, closing, self_closing } = &v[i] {
            if from + *start > offset {
                break;
            }
            if *closing {
                close_to(&mut stack, name);
            } else {
                if is_block(name) {
                    best = Some(Cut { at: from + *start, ancestors: copy_pairs(&stack) });
                }
                if !*self_closing && !is_void(name) {
                    let ghost before = edit::pairs(stack@);
                    stack.push((name.clone(), string_of(&s[*start..*end])));
                    assert(edit::pairs(stack@) =~= before.push(
                        (name@, s@.subrange(*start as int, *end as int)),
                    ));
                }
            }
        }
        i = i + 1;
    }
    best
}

/// The first `n` tokens hold start tags and blank text alone.
pub open spec fn opens_only(t: Seq<char>, v: Seq<Token>, n: int) -> bool {
    forall|i: int|
        0 <= i < n ==> match #[trigger] v[i] {
            Token::Text { start, end } => text::spec_ascii_trim(t.subrange(start, end)).len() == 0,
            Token::Tag { closing, .. } => !closing,
        }
}

/// How many of the first `n` tokens are tags.
pub open spec fn tags_to(v: Seq<Token>, n: int) -> int
    decreases n,
{
    if n <= 0 {
        0
    } else {
        tags_to(v, n - 1) + match v[n - 1] {
            Token::Tag { .. } => 1int,
            _ => 0,
        }
    }
}

/// The text holds start tags alone, and no more than `ancestors` of them.
pub open spec fn spec_only_open_tags(t: Seq<char>, ancestors: int) -> bool {
    let v = markup::spec_tokens(t);
    opens_only(t, v, v.len() as int) && tags_to(v, v.len() as int) <= ancestors
}

fn only_open_tags(t: &[char], ancestors: usize) -> (r: bool)
    ensures
        r == spec_only_open_tags(t@, ancestors as int),
{
    let v = tokens_of(t);
    proof {
        markup::tokens_tile_the_text(t@);
        markup::lemma_tiles_bound(markup::spec_tokens(t@), 0, t@.len() as int);
    }
    let ghost ks = markup::spec_tokens(t@);
    let mut opens: usize = 0;
    let mut i: usize = 0;
    while i < v.len()
        invariant
            i <= v@.len(),
            ks == markup::spec_tokens(t@),
            markup::toks(v@) == ks,
            forall|k: int|
                0 <= k < ks.len() ==> 0 <= (#[trigger] ks[k]).start() && ks[k].end() <= t@.len()
                    && ks[k].start() < ks[k].end(),
            opens_only(t@, ks, i as int),
            opens <= i,
            opens == tags_to(ks, i as int),
        decreases v@.len() - i,
    {
        assert(ks[i as int] == v@[i as int]@);
        match &v[i] {
            Tok::Text { start, end } => {
                if ascii_trim(&t[*start..*end]).len() > 0 {
                    return false;
                }
            },
            Tok::Tag { closing, .. } => {
                if *closing {
                    return false;
                }
                opens = opens + 1;
            },
        }
        i = i + 1;
    }
    opens <= ancestors
}

/// A name for a new document beside `path` that no member has.
pub open spec fn spec_free_sibling(p: Seq<Part>, path: Seq<char>) -> Seq<char> {
    let slash = text::spec_rfind_char(path, '/', path.len() as int);
    let dir = match slash {
        Some(k) if k > 0 => path.subrange(0, k + 1),
        _ => Seq::empty(),
    };
    let file = structure::last_segment(path);
    let (stem, ext) = match text::spec_rfind_char(file, '.', file.len() as int) {
        Some(k) => (file.subrange(0, k), file.subrange(k, file.len() as int)),
        None => (file, ".xhtml"@),
    };
    fresh::spec_numbered(edit::spec_names(p), dir + stem, "-"@, ext)
}

fn free_sibling_name(pkg: &EpubPackage, path: &str) -> (r: String)
    ensures
        r@ == spec_free_sibling(pkg@, path@),
        !edit::spec_names(pkg@).contains(r@),
{
    let t = chars_of(path);
    let slash = rfind_char(&t, '/', t.len());
    let mut pre: Vec<char> = Vec::new();
    let file: &[char] = match slash {
        Some(k) => {
            if k > 0 {
                put(&mut pre, &t[0..k + 1]);
            }
            &t[k + 1..t.len()]
        },
        None => &t,
    };
    assert(file@ =~= structure::last_segment(t@));
    let ghost dir = pre@;
    let ext: Vec<char>;
    match rfind_char(file, '.', file.len()) {
        Some(k) => {
            put(&mut pre, &file[0..k]);
            ext = copy(&file[k..file.len()]);
        },
        None => {
            put(&mut pre, file);
            ext = chars_of(".xhtml");
        },
    }
    proof {
        fresh::a_numbered_name_is_free(edit::spec_names(pkg@), pre@, "-"@, ext@);
    }
    string_of(&numbered(&pkg.names(), &pre, "-", &ext))
}

// ---------------------------------------------------------------- links of the other documents

/// A member whose links are kept up to date.
pub open spec fn is_linking(role: MemberRole) -> bool {
    role == MemberRole::Text || role == MemberRole::Nav || role == MemberRole::Ncx
}

/// What comes back, and the package then, once the rule is applied to the listed
/// members from `i` on but `one` and `two`.
pub open spec fn relinked(
    p: Seq<Part>,
    log: Log,
    v: Seq<Listed>,
    one: Seq<char>,
    two: Seq<char>,
    m: Move,
    i: int,
) -> (Result<Log, Fault>, Seq<Part>)
    decreases v.len() - i,
{
    if i < 0 || i >= v.len() {
        (Ok(log), p)
    } else if v[i].path == one || v[i].path == two || !is_linking(v[i].role) {
        relinked(p, log, v, one, two, m, i + 1)
    } else {
        match text_or_fault(p, v[i].path) {
            Err(f) => (Err(f), p),
            Ok(doc) => {
                let out = spec_retarget(doc, v[i].path, m);
                if out == doc {
                    relinked(p, log, v, one, two, m, i + 1)
                } else {
                    relinked(
                        edit::spec_replace(p, v[i].path, vstd::utf8::encode_utf8(out)),
                        log.touched(v[i].path),
                        v,
                        one,
                        two,
                        m,
                        i + 1,
                    )
                }
            },
        }
    }
}

fn relink(
    pkg: &mut EpubPackage,
    changes: &mut Changes,
    v: &Vec<Member>,
    one: &str,
    two: &str,
    rule: &LinkMove,
) -> (r: Result<(), Error>)
    ensures
        match relinked(
            old(pkg)@,
            old(changes)@,
            manifest::listed(v@),
            one@,
            two@,
            rule.says(),
            0,
        ) {
            (Ok(log), p) => r is Ok && final(changes)@ == log && final(pkg)@ == p,
            (Err(f), p) => r matches Err(e) && e@ == f && final(pkg)@ == p,
        },
{
    let ghost all = manifest::listed(v@);
    let mut i: usize = 0;
    while i < v.len()
        invariant
            i <= v@.len(),
            all == manifest::listed(v@),
            relinked(pkg@, changes@, all, one@, two@, rule.says(), i as int) == relinked(
                old(pkg)@,
                old(changes)@,
                all,
                one@,
                two@,
                rule.says(),
                0,
            ),
        decreases v@.len() - i,
    {
        assert(all[i as int] == v@[i as int]@);
        let m = &v[i];
        if !str_is(&m.path, one) && !str_is(&m.path, two) && (m.role == MemberRole::Text || m.role
            == MemberRole::Nav || m.role == MemberRole::Ncx) {
            let doc = match text_or_error(pkg, &m.path) {
                Ok(t) => t,
                Err(e) => {
                    return Err(e);
                },
            };
            let out = retarget(&doc, &m.path, rule);
            if !str_is(&out, &doc) {
                pkg.replace(&m.path, bytes_of(&out));
                changes.touch(&m.path);
            }
        }
        i = i + 1;
    }
    Ok(())
}

// ---------------------------------------------------------------- splitting

/// The end tags of the open elements, innermost first.
pub open spec fn closers(v: Seq<(Seq<char>, Seq<char>)>) -> Seq<char>
    decreases v.len(),
{
    if v.len() == 0 {
        Seq::empty()
    } else {
        "</"@ + v.last().0 + ">\n"@ + closers(v.drop_last())
    }
}

/// The start tags of the first `n` open elements without their ids, outermost
/// first.
pub open spec fn openers(v: Seq<(Seq<char>, Seq<char>)>, n: int) -> Seq<char>
    decreases n,
{
    if n <= 0 {
        Seq::empty()
    } else {
        openers(v, n - 1) + markup::spec_set_attr(v[n - 1].1, "id"@, None) + "\n"@
    }
}

fn closers_of(v: &Vec<(String, String)>) -> (r: Vec<char>)
    ensures
        r@ == closers(edit::pairs(v@)),
{
    let ghost all = edit::pairs(v@);
    let mut out: Vec<char> = Vec::new();
    let mut n: usize = v.len();
    assert(all.take(n as int) =~= all);
    while n > 0
        invariant
            n <= v@.len(),
            all == edit::pairs(v@),
            out@ + closers(all.take(n as int)) == closers(all),
        decreases n,
    {
        let ghost before = out@;
        let ghost front = all.take(n as int);
        assert(front.last() == (v@[n - 1].0@, v@[n - 1].1@));
        assert(front.drop_last() =~= all.take(n - 1));
        put_str(&mut out, "</");
        put_str(&mut out, &v[n - 1].0);
        put_str(&mut out, ">\n");
        n = n - 1;
        assert(out@ + closers(all.take(n as int)) =~= before + closers(front));
    }
    assert(out@ + closers(all.take(0)) =~= out@);
    out
}

fn openers_of(v: &Vec<(String, String)>) -> (r: Vec<char>)
    ensures
        r@ == openers(edit::pairs(v@), v@.len() as int),
{
    let ghost all = edit::pairs(v@);
    let mut out: Vec<char> = Vec::new();
    let mut n: usize = 0;
    while n < v.len()
        invariant
            n <= v@.len(),
            all == edit::pairs(v@),
            out@ == openers(all, n as int),
        decreases v@.len() - n,
    {
        assert(all[n as int] == (v@[n as int].0@, v@[n as int].1@));
        put_str(&mut out, &set_attr(&v[n].1, "id", None));
        put_str(&mut out, "\n");
        n = n + 1;
    }
    out
}

/// What a split does: the new document's path, the manifest id of the one that
/// is split, the package document's path, the ids that move, and the two texts,
/// links not yet moved.
#[verifier::ext_equal]
pub struct Plan {
    pub opf_path: Seq<char>,
    pub own_id: Seq<char>,
    pub new_path: Seq<char>,
    pub moved: Seq<Seq<char>>,
    pub first: Seq<char>,
    pub second: Seq<char>,
}

/// The text before the cut, its open elements closed, and the text from the
/// cut on, with the head of the document and those elements opened anew.
pub open spec fn halves(t: Seq<char>, open_end: int, close: int, cut: Place) -> (
    Seq<char>,
    Seq<char>,
) {
    (
        text::spec_ascii_trim_end(t.subrange(0, cut.at)) + "\n"@ + closers(cut.ancestors)
            + t.subrange(close, t.len() as int),
        t.subrange(0, open_end) + "\n"@ + openers(cut.ancestors, cut.ancestors.len() as int)
            + text::spec_ascii_trim_start(t.subrange(cut.at, t.len() as int)),
    )
}

/// Where the document's text is cut for a line and a column.
pub open spec fn cut_for(t: Seq<char>, path: Seq<char>, line: int, col: int) -> Result<
    (int, int, Place),
    Fault,
> {
    match markup::spec_position_of(t, line, col) {
        None => Err(
            Fault::Said(
                ErrorKind::InvalidInput,
                path + " has no line "@ + text::decimal(line as nat),
            ),
        ),
        Some(offset) => match markup::spec_body_span(t) {
            None => Err(Fault::Said(ErrorKind::InvalidData, ""@ + path + " has no <body>"@)),
            Some((_, open_end, close, _)) => match spec_split_point(t, open_end, close, offset) {
                None => Err(
                    Fault::Said(
                        ErrorKind::InvalidInput,
                        "put the cursor inside the block that should start the new document"@,
                    ),
                ),
                Some(cut) => {
                    let before = t.subrange(open_end, cut.at);
                    if text::spec_ascii_trim(before).len() == 0 || spec_only_open_tags(
                        before,
                        cut.ancestors.len() as int,
                    ) {
                        Err(
                            Fault::Said(
                                ErrorKind::InvalidInput,
                                "the cursor is in the first block; nothing would stay in this document"@,
                            ),
                        )
                    } else {
                        Ok((open_end, close, cut))
                    }
                },
            },
        },
    }
}

/// The package document as the members hold it: its path, its text and what it
/// says.
pub open spec fn package_text(p: Seq<Part>) -> Result<Found, Fault> {
    match edit::spec_opf_path(p) {
        Err(f) => Err(f),
        Ok(path) => match text_or_fault(p, path) {
            Err(f) => Err(f),
            Ok(text) => match opf::spec_parse_opf(text) {
                Err(f) => Err(f),
                Ok(book) => Ok(Found { path, text, book }),
            },
        },
    }
}

/// What a split of the document at a line and a column does.
pub open spec fn split_plan(p: Seq<Part>, path: Seq<char>, line: int, col: int) -> Result<
    Plan,
    Fault,
> {
    match text_or_fault(p, path) {
        Err(f) => Err(f),
        Ok(t) => match cut_for(t, path, line, col) {
            Err(f) => Err(f),
            Ok((open_end, close, cut)) => match package_text(p) {
                Err(f) => Err(f),
                Ok(d) => match manifest::first_for(d.book.items, d.base(), path, 0) {
                    None => Err(
                        Fault::Said(
                            ErrorKind::InvalidData,
                            ""@ + path + " is not in the manifest"@,
                        ),
                    ),
                    Some(item) => {
                        let (first, second) = halves(t, open_end, close, cut);
                        Ok(
                            Plan {
                                opf_path: d.path,
                                own_id: item.id,
                                new_path: spec_free_sibling(p, path),
                                moved: spec_ids_in(t.subrange(cut.at, close)),
                                first,
                                second,
                            },
                        )
                    },
                },
            },
        },
    }
}

/// The rule of a split for every document: a link to an id that moves follows it.
pub open spec fn follow(plan: Plan, path: Seq<char>) -> Move {
    Move { from: seq![path], ids: Some((plan.moved, true)), to: plan.new_path }
}

/// The other rule of a split for the new document: a link to an id that stays
/// goes back.
pub open spec fn stay(plan: Plan, path: Seq<char>) -> Move {
    Move { from: seq![plan.new_path], ids: Some((plan.moved, false)), to: path }
}

/// The new document with its links mended by both rules.
pub open spec fn second_linked(path: Seq<char>, plan: Plan) -> Seq<char> {
    spec_retarget(
        spec_retarget(plan.second, plan.new_path, follow(plan, path)),
        plan.new_path,
        stay(plan, path),
    )
}

/// The package once both halves stand in it.
pub open spec fn halved(p: Seq<Part>, path: Seq<char>, plan: Plan) -> Seq<Part> {
    edit::spec_set(
        edit::spec_replace(
            p,
            path,
            vstd::utf8::encode_utf8(spec_retarget(plan.first, path, follow(plan, path))),
        ),
        plan.new_path,
        vstd::utf8::encode_utf8(second_linked(path, plan)),
    )
}

/// The package document once the new document is in the spine, with the
/// properties that its content needs.
pub open spec fn spined(t: Seq<char>, content: Seq<char>, own_id: Seq<char>, new_id: Seq<char>) -> Result<
    Seq<char>,
    Fault,
> {
    let props = markup::spec_content_properties(content);
    let t2 = if props.len() > 0 {
        manifest::spec_set_item_properties(t, new_id, text::spec_join(props, " "@))
    } else {
        t
    };
    manifest::spec_insert_itemref(t2, own_id, new_id)
}

/// The last steps of a split: the new document enters the manifest and the
/// spine.
pub open spec fn split_entered(
    p: Seq<Part>,
    log: Log,
    line: int,
    plan: Plan,
) -> (Result<Log, Fault>, Seq<Part>) {
    match manifest::spec_add_item(p, plan.new_path, "application/xhtml+xml"@) {
        Err(f) => (Err(f), p),
        Ok((new_id, q)) => match text_or_fault(q, plan.opf_path) {
            Err(f) => (Err(f), q),
            Ok(t) => match spined(
                t,
                opf::or_empty(package::spec_text(q, plan.new_path)),
                plan.own_id,
                new_id,
            ) {
                Err(f) => (Err(f), q),
                Ok(out) => (
                    Ok(
                        log.touched(plan.opf_path).noted(
                            structure::last_segment(plan.new_path) + " now starts at line "@
                                + text::decimal(line as nat) + "; "@ + text::decimal(
                                plan.moved.len(),
                            ) + " id(s) moved with it"@,
                        ),
                    ),
                    edit::spec_replace(q, plan.opf_path, vstd::utf8::encode_utf8(out)),
                ),
            },
        },
    }
}

/// What comes back of a split, and the package then. Where the document cannot
/// be cut there, the package is as it was.
pub open spec fn spec_split_document(p: Seq<Part>, path: Seq<char>, line: int, col: int) -> (
    Result<Log, Fault>,
    Seq<Part>,
) {
    match split_plan(p, path, line, col) {
        Err(f) => (Err(f), p),
        Ok(plan) => {
            let q = halved(p, path, plan);
            let log = edit::no_changes().touched(path).with_added(
                plan.new_path,
                "application/xhtml+xml"@,
            );
            match manifest::spec_members(q) {
                Err(f) => (Err(f), q),
                Ok(v) => match relinked(q, log, v, path, plan.new_path, follow(plan, path), 0) {
                    (Err(f), q2) => (Err(f), q2),
                    (Ok(log2), q2) => split_entered(q2, log2, line, plan),
                },
            }
        },
    }
}

struct SplitPlan {
    opf_path: String,
    own_id: String,
    new_path: String,
    moved: Vec<Vec<char>>,
    first: String,
    second: String,
}

impl SplitPlan {
    spec fn says(self) -> Plan {
        Plan {
            opf_path: self.opf_path@,
            own_id: self.own_id@,
            new_path: self.new_path@,
            moved: text::texts(self.moved@),
            first: self.first@,
            second: self.second@,
        }
    }
}

fn copy_texts(v: &Vec<Vec<char>>) -> (r: Vec<Vec<char>>)
    ensures
        text::texts(r@) == text::texts(v@),
{
    let ghost all = text::texts(v@);
    let mut out: Vec<Vec<char>> = Vec::new();
    let mut i: usize = 0;
    while i < v.len()
        invariant
            i <= v@.len(),
            all == text::texts(v@),
            text::texts(out@) == all.take(i as int),
        decreases v@.len() - i,
    {
        assert(all[i as int] == v@[i as int]@);
        add_text(&mut out, copy(&v[i]));
        assert(all.take(i + 1) =~= all.take(i as int).push(all[i as int]));
        i = i + 1;
    }
    assert(all.take(v@.len() as int) =~= all);
    out
}

fn one_text(s: &str) -> (r: Vec<Vec<char>>)
    ensures
        text::texts(r@) == seq![s@],
{
    let mut v: Vec<Vec<char>> = Vec::new();
    add_text(&mut v, chars_of(s));
    assert(text::texts(v@) =~= seq![s@]);
    v
}

/// A cut with the place where the inside of the body starts and ends.
spec fn cut_result(r: Result<(usize, usize, Cut), Error>) -> Result<(int, int, Place), Fault> {
    match r {
        Ok((a, b, c)) => Ok(
            (a as int, b as int, Place { at: c.at as int, ancestors: edit::pairs(c.ancestors@) }),
        ),
        Err(e) => Err(e@),
    }
}

fn find_cut(text: &str, path: &str, line: usize, col: usize) -> (r: Result<
    (usize, usize, Cut),
    Error,
>)
    ensures
        cut_result(r) == cut_for(text@, path@, line as int, col as int),
        r matches Ok((a, b, c)) ==> a <= c.at <= b <= text@.len(),
{
    let t = chars_of(text);
    let offset = match position_of(&t, line, col) {
        Some(o) => o,
        None => {
            let number = string_of(&decimal_of(line));
            return Err(refuse_named(ErrorKind::InvalidInput, path, " has no line ", &number));
        },
    };
    let (open_end, close) = match body_span(text) {
        Some((_, b, c, _)) => (b, c),
        None => {
            return Err(refuse_named(ErrorKind::InvalidData, "", path, " has no <body>"));
        },
    };
    let cut = match split_point(&t, open_end, close, offset) {
        Some(c) => c,
        None => {
            return Err(
                refuse(
                    ErrorKind::InvalidInput,
                    "put the cursor inside the block that should start the new document",
                ),
            );
        },
    };
    let before = &t[open_end..cut.at];
    if ascii_trim(before).len() == 0 || only_open_tags(before, cut.ancestors.len()) {
        return Err(
            refuse(
                ErrorKind::InvalidInput,
                "the cursor is in the first block; nothing would stay in this document",
            ),
        );
    }
    Ok((open_end, close, cut))
}

fn halves_of(t: &[char], open_end: usize, close: usize, cut: &Cut) -> (r: (String, String))
    requires
        open_end <= cut.at <= close <= t@.len(),
    ensures
        (r.0@, r.1@) == halves(
            t@,
            open_end as int,
            close as int,
            Place { at: cut.at as int, ancestors: edit::pairs(cut.ancestors@) },
        ),
{
    let mut first = copy(ascii_trim_end(&t[0..cut.at]));
    put_str(&mut first, "\n");
    put(&mut first, &closers_of(&cut.ancestors));
    put(&mut first, &t[close..t.len()]);
    let mut second = copy(&t[0..open_end]);
    put_str(&mut second, "\n");
    put(&mut second, &openers_of(&cut.ancestors));
    put(&mut second, ascii_trim_start(&t[cut.at..t.len()]));
    (string_of(&first), string_of(&second))
}

/// Finds and reads the package document.
pub fn read_package(pkg: &EpubPackage) -> (r: Result<PackageDoc, Error>)
    ensures
        package::doc_result(r) == package_text(pkg@),
        r matches Ok(d) ==> d.base@ == d@.base(),
{
    let path = match pkg.opf_path() {
        Ok(p) => p,
        Err(e) => {
            return Err(e);
        },
    };
    let text = match text_or_error(pkg, &path) {
        Ok(t) => t,
        Err(e) => {
            return Err(e);
        },
    };
    match parse_opf(&text) {
        Ok(opf) => {
            let base = dir_of(&path);
            Ok(PackageDoc { path, base, text, opf })
        },
        Err(e) => Err(e),
    }
}

spec fn plan_result(r: Result<SplitPlan, Error>) -> Result<Plan, Fault> {
    match r {
        Ok(p) => Ok(p.says()),
        Err(e) => Err(e@),
    }
}

fn plan_split(pkg: &EpubPackage, path: &str, line: usize, col: usize) -> (r: Result<
    SplitPlan,
    Error,
>)
    ensures
        plan_result(r) == split_plan(pkg@, path@, line as int, col as int),
{
    let text = match text_or_error(pkg, path) {
        Ok(t) => t,
        Err(e) => {
            return Err(e);
        },
    };
    let (open_end, close, cut) = match find_cut(&text, path, line, col) {
        Ok(c) => c,
        Err(e) => {
            return Err(e);
        },
    };
    let d = match read_package(pkg) {
        Ok(d) => d,
        Err(e) => {
            return Err(e);
        },
    };
    let own_id = match first_for_of(&d.opf, &d.base, path) {
        Some(k) => d.opf.manifest[k].id.clone(),
        None => {
            return Err(
                refuse_named(ErrorKind::InvalidData, "", path, " is not in the manifest"),
            );
        },
    };
    let t = chars_of(&text);
    let new_path = free_sibling_name(pkg, path);
    let moved = ids_in(&t[cut.at..close]);
    let (first, second) = halves_of(&t, open_end, close, &cut);
    let plan = SplitPlan { opf_path: d.path, own_id, new_path, moved, first, second };
    assert(Ok::<Plan, Fault>(plan.says()) == split_plan(pkg@, path@, line as int, col as int));
    Ok(plan)
}

/// The words, one space between them.
pub fn lits_joined(v: &Vec<&'static str>) -> (r: String)
    ensures
        r@ == text::spec_join(markup::lits(v@), " "@),
{
    let ghost all = markup::lits(v@);
    let mut out: Vec<Vec<char>> = Vec::new();
    let mut i: usize = 0;
    while i < v.len()
        invariant
            i <= v@.len(),
            all == markup::lits(v@),
            text::texts(out@) == all.take(i as int),
        decreases v@.len() - i,
    {
        assert(all[i as int] == v@[i as int]@);
        add_text(&mut out, chars_of(v[i]));
        assert(all.take(i + 1) =~= all.take(i as int).push(all[i as int]));
        i = i + 1;
    }
    assert(all.take(v@.len() as int) =~= all);
    string_of(&join(&out, " "))
}

fn enter_spine(t: String, content: &str, own_id: &str, new_id: &str) -> (r: Result<String, Error>)
    ensures
        error::str_result(r) == spined(t@, content@, own_id@, new_id@),
{
    let props = content_properties(content);
    assert(markup::lits(props@).len() == props@.len());
    if props.len() > 0 {
        let t2 = set_item_properties(&t, new_id, &lits_joined(&props));
        insert_itemref_after(&t2, own_id, new_id)
    } else {
        insert_itemref_after(&t, own_id, new_id)
    }
}

/// What came back and the package then.
pub open spec fn outcome(r: Result<Changes, Error>, p: Seq<Part>) -> (
    Result<Log, Fault>,
    Seq<Part>,
) {
    (edit::changes_result(r), p)
}

fn enter_split(pkg: &mut EpubPackage, mut changes: Changes, line: usize, plan: &SplitPlan) -> (r:
    Result<Changes, Error>)
    ensures
        outcome(r, final(pkg)@) == split_entered(
            old(pkg)@,
            changes@,
            line as int,
            plan.says(),
        ),
{
    let new_id = match add_manifest_item(pkg, &plan.new_path, "application/xhtml+xml") {
        Ok(id) => id,
        Err(e) => {
            return Err(e);
        },
    };
    let t = match text_or_error(pkg, &plan.opf_path) {
        Ok(t) => t,
        Err(e) => {
            return Err(e);
        },
    };
    let content = or_empty_of(member_text(pkg, &plan.new_path));
    let out = match enter_spine(t, &content, &plan.own_id, &new_id) {
        Ok(o) => o,
        Err(e) => {
            return Err(e);
        },
    };
    pkg.replace(&plan.opf_path, bytes_of(&out));
    changes.touch(&plan.opf_path);
    let mut note = chars_of(&last_part(&plan.new_path));
    put_str(&mut note, " now starts at line ");
    put(&mut note, &decimal_of(line));
    put_str(&mut note, "; ");
    put(&mut note, &decimal_of(plan.moved.len()));
    put_str(&mut note, " id(s) moved with it");
    assert(plan.says().moved.len() == plan.moved@.len());
    changes.note(&string_of(&note));
    Ok(changes)
}

/// Cuts a document in two before the block that stands at a line and a column.
/// The second half becomes a document of its own behind the first in the spine,
/// and links follow the ids that move.
pub fn split_document(pkg: &mut EpubPackage, path: &str, line: usize, col: usize) -> (r: Result<
    Changes,
    Error,
>)
    ensures
        outcome(r, final(pkg)@) == spec_split_document(
            old(pkg)@,
            path@,
            line as int,
            col as int,
        ),
{
    let plan = match plan_split(pkg, path, line, col) {
        Ok(p) => p,
        Err(e) => {
            return Err(e);
        },
    };
    let ghost said = plan.says();
    let follow_rule = LinkMove {
        from: one_text(path),
        ids: Some((copy_texts(&plan.moved), true)),
        to: plan.new_path.clone(),
    };
    assert(follow_rule.says() =~= follow(said, path@));
    let stay_rule = LinkMove {
        from: one_text(&plan.new_path),
        ids: Some((copy_texts(&plan.moved), false)),
        to: string_of(&chars_of(path)),
    };
    assert(stay_rule.says() =~= stay(said, path@));
    let first = retarget(&plan.first, path, &follow_rule);
    let second = retarget(&plan.second, &plan.new_path, &follow_rule);
    let second = retarget(&second, &plan.new_path, &stay_rule);
    let mut changes = Changes::default();
    pkg.replace(path, bytes_of(&first));
    changes.touch(path);
    pkg.set(&plan.new_path, bytes_of(&second));
    changes.add(&plan.new_path, "application/xhtml+xml");
    let v = match members(pkg) {
        Ok(v) => v,
        Err(e) => {
            return Err(e);
        },
    };
    match relink(pkg, &mut changes, &v, path, &plan.new_path, &follow_rule) {
        Ok(_) => {},
        Err(e) => {
            return Err(e);
        },
    }
    enter_split(pkg, changes, line, &plan)
}

// ---------------------------------------------------------------- merging

/// The place from `i` on of the document in the spine.
pub open spec fn spine_at(v: Seq<(Seq<char>, Seq<char>)>, path: Seq<char>, i: int) -> Option<int>
    decreases v.len() - i,
{
    if i < 0 || i >= v.len() {
        None
    } else if v[i].0 == path {
        Some(i)
    } else {
        spine_at(v, path, i + 1)
    }
}

fn spine_at_of(v: &Vec<(String, String)>, path: &str) -> (r: Option<usize>)
    ensures
        text::pos(r) == spine_at(edit::pairs(v@), path@, 0),
        r matches Some(k) ==> k < v@.len(),
{
    let ghost all = edit::pairs(v@);
    let mut i: usize = 0;
    while i < v.len()
        invariant
            i <= v@.len(),
            all == edit::pairs(v@),
            spine_at(all, path@, 0) == spine_at(all, path@, i as int),
        decreases v@.len() - i,
    {
        assert(all[i as int] == (v@[i as int].0@, v@[i as int].1@));
        if str_is(&v[i].0, path) {
            return Some(i);
        }
        i = i + 1;
    }
    None
}

/// The first `n` of `a` that are (or are not) in `b`.
pub open spec fn among(a: Seq<Seq<char>>, b: Seq<Seq<char>>, inside: bool, n: int) -> Seq<Seq<char>>
    decreases n,
{
    if n <= 0 {
        Seq::empty()
    } else if b.contains(a[n - 1]) == inside {
        among(a, b, inside, n - 1).push(a[n - 1])
    } else {
        among(a, b, inside, n - 1)
    }
}

/// Those of `a` that are (or are not) in `b`, in order.
pub fn among_of(a: &Vec<Vec<char>>, b: &Vec<Vec<char>>, inside: bool) -> (r: Vec<Vec<char>>)
    ensures
        text::texts(r@) == among(text::texts(a@), text::texts(b@), inside, a@.len() as int),
{
    let ghost xs = text::texts(a@);
    let mut out: Vec<Vec<char>> = Vec::new();
    assert(text::texts(out@) =~= Seq::<Seq<char>>::empty());
    let mut i: usize = 0;
    while i < a.len()
        invariant
            i <= a@.len(),
            xs == text::texts(a@),
            text::texts(out@) == among(xs, text::texts(b@), inside, i as int),
        decreases a@.len() - i,
    {
        assert(xs[i as int] == a@[i as int]@);
        if list_has(b, &a[i]) == inside {
            add_text(&mut out, copy(&a[i]));
        }
        i = i + 1;
    }
    out
}

/// Two documents that can be merged: the package document, the next one's path
/// and manifest id, and the two texts with the places of their bodies.
#[verifier::ext_equal]
pub struct Pair {
    pub opf_path: Seq<char>,
    pub next: Seq<char>,
    pub next_id: Seq<char>,
    pub a: Seq<char>,
    pub a_close: int,
    pub b: Seq<char>,
    pub b_open_end: int,
    pub b_close: int,
}

/// The document behind `path` in the spine, and its manifest id.
pub open spec fn next_in(d: Found, path: Seq<char>) -> Result<(Seq<char>, Seq<char>), Fault> {
    let spine = package::spec_spine_documents(d.book, d.base());
    match spine_at(spine, path, 0) {
        None => Err(
            Fault::Said(ErrorKind::InvalidInput, ""@ + path + " is not in the spine"@),
        ),
        Some(k) => if k + 1 >= spine.len() {
            Err(
                Fault::Said(
                    ErrorKind::InvalidInput,
                    ""@ + path + " is the last document in the spine"@,
                ),
            )
        } else {
            let next = spine[k + 1].0;
            let next_id = match manifest::first_for(d.book.items, d.base(), next, 0) {
                Some(item) => item.id,
                None => Seq::empty(),
            };
            let next_type = match opf::item_named(d.book.items, next_id, 0) {
                Some(item) => item.media_type,
                None => Seq::empty(),
            };
            if text::spec_lower(next_type) != text::spec_lower("application/xhtml+xml"@) {
                Err(
                    Fault::Said(
                        ErrorKind::InvalidInput,
                        next + " is "@ + next_type + ", not an XHTML document"@,
                    ),
                )
            } else {
                Ok((next, next_id))
            }
        },
    }
}

/// The document and the one behind it, where the two can be merged: no id is
/// defined in both.
pub open spec fn merge_pair(p: Seq<Part>, path: Seq<char>) -> Result<Pair, Fault> {
    match package_text(p) {
        Err(f) => Err(f),
        Ok(d) => match next_in(d, path) {
            Err(f) => Err(f),
            Ok((next, next_id)) => match (text_or_fault(p, path), text_or_fault(p, next)) {
                (Err(f), _) => Err(f),
                (Ok(_), Err(f)) => Err(f),
                (Ok(a), Ok(b)) => match (markup::spec_body_span(a), markup::spec_body_span(b)) {
                    (None, _) => Err(
                        Fault::Said(ErrorKind::InvalidData, ""@ + path + " has no <body>"@),
                    ),
                    (Some(_), None) => Err(
                        Fault::Said(ErrorKind::InvalidData, ""@ + next + " has no <body>"@),
                    ),
                    (Some((_, _, a_close, _)), Some((_, b_open_end, b_close, _))) => {
                        let ids = spec_ids_in(b);
                        let clash = among(ids, spec_ids_in(a), true, ids.len() as int);
                        if clash.len() > 0 {
                            Err(
                                Fault::Said(
                                    ErrorKind::InvalidInput,
                                    "both documents define id "@ + text::spec_join(clash, ", "@)
                                        + "; rename it first"@,
                                ),
                            )
                        } else {
                            Ok(
                                Pair {
                                    opf_path: d.path,
                                    next,
                                    next_id,
                                    a,
                                    a_close,
                                    b,
                                    b_open_end,
                                    b_close,
                                },
                            )
                        }
                    },
                },
            },
        },
    }
}

/// The link tags for the first `n` stylesheets, from the directory `dir`.
pub open spec fn link_tags(v: Seq<Seq<char>>, dir: Seq<char>, n: int) -> Seq<char>
    decreases n,
{
    if n <= 0 {
        Seq::empty()
    } else {
        link_tags(v, dir, n - 1) + "<link rel=\"stylesheet\" type=\"text/css\" href=\""@
            + markup::spec_escape_attr(structure::spec_relativize(dir, v[n - 1])) + "\"/>\n"@
    }
}

fn link_tags_of(v: &Vec<Vec<char>>, dir: &str) -> (r: Vec<char>)
    ensures
        r@ == link_tags(text::texts(v@), dir@, v@.len() as int),
{
    let ghost all = text::texts(v@);
    let mut out: Vec<char> = Vec::new();
    let mut n: usize = 0;
    while n < v.len()
        invariant
            n <= v@.len(),
            all == text::texts(v@),
            out@ == link_tags(all, dir@, n as int),
        decreases v@.len() - n,
    {
        assert(all[n as int] == v@[n as int]@);
        put_str(&mut out, "<link rel=\"stylesheet\" type=\"text/css\" href=\"");
        put_str(&mut out, &escape_attr(&relativize(dir, &string_of(&v[n]))));
        put_str(&mut out, "\"/>\n");
        n = n + 1;
    }
    out
}

/// The text of the two documents in one, links not yet moved: the inside of the
/// second's body stands at the end of the first's.
pub open spec fn joined(m: Pair, path: Seq<char>) -> Seq<char> {
    let a_dir = structure::spec_dir_of(path);
    let b_dir = structure::spec_dir_of(m.next);
    let inside = text::spec_ascii_trim(m.b.subrange(m.b_open_end, m.b_close));
    let body = if a_dir != b_dir {
        spec_rebase_to(inside, b_dir, a_dir)
    } else {
        inside
    };
    text::spec_ascii_trim_end(m.a.subrange(0, m.a_close)) + "\n"@ + body + "\n"@ + m.a.subrange(
        m.a_close,
        m.a.len() as int,
    )
}

/// The stylesheets that only the second document links.
pub open spec fn new_sheets(m: Pair, path: Seq<char>) -> Seq<Seq<char>> {
    let b = spec_stylesheet_links(m.b, structure::spec_dir_of(m.next));
    among(
        b,
        spec_stylesheet_links(m.a, structure::spec_dir_of(path)),
        false,
        b.len() as int,
    )
}

/// The merged text with links to the stylesheets of the second document, and
/// what is noted of them.
pub open spec fn with_sheets(m: Pair, path: Seq<char>, t: Seq<char>, log: Log) -> (Seq<char>, Log) {
    let sheets = new_sheets(m, path);
    match text::spec_find(t, "</head>"@, 0) {
        Some(k) if sheets.len() > 0 => (
            t.subrange(0, k) + link_tags(
                sheets,
                structure::spec_dir_of(path),
                sheets.len() as int,
            ) + t.subrange(k, t.len() as int),
            log.noted(
                text::decimal(sheets.len()) + " stylesheet link(s) carried over from "@
                    + structure::last_segment(m.next),
            ),
        ),
        _ => (t, log),
    }
}

/// The rule of a merge for the merged document: its links to both of the two
/// are links into it.
pub open spec fn inward(m: Pair, path: Seq<char>) -> Move {
    Move { from: seq![m.next, path], ids: None, to: path }
}

/// The rule of a merge for the others: a link to the second document is one to
/// the first.
pub open spec fn redirect(m: Pair, path: Seq<char>) -> Move {
    Move { from: seq![m.next], ids: None, to: path }
}

/// The last steps of a merge: the second document leaves the manifest, the
/// spine and the package.
pub open spec fn merge_left(p: Seq<Part>, log: Log, path: Seq<char>, m: Pair) -> (
    Result<Log, Fault>,
    Seq<Part>,
) {
    match manifest::spec_remove_item(p, m.next) {
        Err(f) => (Err(f), p),
        Ok((_, q)) => match text_or_fault(q, m.opf_path) {
            Err(f) => (Err(f), q),
            Ok(t) => {
                let out = spec_retarget(
                    manifest::spec_remove_itemref(t, m.next_id),
                    m.opf_path,
                    redirect(m, path),
                );
                (
                    Ok(
                        log.touched(m.opf_path).dropped(m.next).noted(
                            structure::last_segment(m.next) + " folded into "@
                                + structure::last_segment(path),
                        ),
                    ),
                    edit::spec_remove(
                        edit::spec_replace(q, m.opf_path, vstd::utf8::encode_utf8(out)),
                        m.next,
                    ),
                )
            },
        },
    }
}

/// What comes back of a merge, and the package then. Where the two documents
/// cannot be merged, the package is as it was.
pub open spec fn spec_merge_with_next(p: Seq<Part>, path: Seq<char>) -> (
    Result<Log, Fault>,
    Seq<Part>,
) {
    match merge_pair(p, path) {
        Err(f) => (Err(f), p),
        Ok(m) => {
            let (t, log) = with_sheets(m, path, joined(m, path), edit::no_changes());
            let q = edit::spec_replace(
                p,
                path,
                vstd::utf8::encode_utf8(spec_retarget(t, path, inward(m, path))),
            );
            match manifest::spec_members(q) {
                Err(f) => (Err(f), q),
                Ok(v) => match relinked(
                    q,
                    log.touched(path),
                    v,
                    path,
                    m.next,
                    redirect(m, path),
                    0,
                ) {
                    (Err(f), q2) => (Err(f), q2),
                    (Ok(log2), q2) => merge_left(q2, log2, path, m),
                },
            }
        },
    }
}

struct MergePair {
    opf_path: String,
    next: String,
    next_id: String,
    a: String,
    a_close: usize,
    b: String,
    b_open_end: usize,
    b_close: usize,
}

impl MergePair {
    spec fn says(self) -> Pair {
        Pair {
            opf_path: self.opf_path@,
            next: self.next@,
            next_id: self.next_id@,
            a: self.a@,
            a_close: self.a_close as int,
            b: self.b@,
            b_open_end: self.b_open_end as int,
            b_close: self.b_close as int,
        }
    }

    spec fn fits(self) -> bool {
        self.a_close <= self.a@.len() && self.b_open_end <= self.b_close <= self.b@.len()
    }
}

spec fn next_result(r: Result<(String, String), Error>) -> Result<(Seq<char>, Seq<char>), Fault> {
    match r {
        Ok((a, b)) => Ok((a@, b@)),
        Err(e) => Err(e@),
    }
}

fn next_of(d: &PackageDoc, path: &str) -> (r: Result<(String, String), Error>)
    requires
        d.base@ == d@.base(),
    ensures
        next_result(r) == next_in(d@, path@),
{
    let spine = spine_documents(&d.opf, &d.base);
    let ghost all = edit::pairs(spine@);
    assert(all.len() == spine@.len());
    let k = match spine_at_of(&spine, path) {
        Some(k) => k,
        None => {
            return Err(refuse_named(ErrorKind::InvalidInput, "", path, " is not in the spine"));
        },
    };
    let n = spine.len();
    if k == n - 1 {
        return Err(
            refuse_named(
                ErrorKind::InvalidInput,
                "",
                path,
                " is the last document in the spine",
            ),
        );
    }
    assert(all[k + 1] == (spine@[k + 1].0@, spine@[k + 1].1@));
    let next = spine[k + 1].0.clone();
    let next_id = match first_for_of(&d.opf, &d.base, &next) {
        Some(i) => d.opf.manifest[i].id.clone(),
        None => string_of(&Vec::new()),
    };
    let next_type = match item_named_in(&d.opf.manifest, &next_id) {
        Some(i) => d.opf.manifest[i].media_type.clone(),
        None => string_of(&Vec::new()),
    };
    if !same_nocase(&chars_of(&next_type), &chars_of("application/xhtml+xml")) {
        let mut words = chars_of(&next);
        put_str(&mut words, " is ");
        put_str(&mut words, &next_type);
        put_str(&mut words, ", not an XHTML document");
        return Err(Error::Said(ErrorKind::InvalidInput, string_of(&words)));
    }
    Ok((next, next_id))
}

spec fn pair_result(r: Result<MergePair, Error>) -> Result<Pair, Fault> {
    match r {
        Ok(p) => Ok(p.says()),
        Err(e) => Err(e@),
    }
}

fn pair_of(pkg: &EpubPackage, path: &str) -> (r: Result<MergePair, Error>)
    ensures
        pair_result(r) == merge_pair(pkg@, path@),
        r matches Ok(m) ==> m.fits(),
{
    let d = match read_package(pkg) {
        Ok(d) => d,
        Err(e) => {
            return Err(e);
        },
    };
    let (next, next_id) = match next_of(&d, path) {
        Ok(n) => n,
        Err(e) => {
            return Err(e);
        },
    };
    let a = match text_or_error(pkg, path) {
        Ok(t) => t,
        Err(e) => {
            return Err(e);
        },
    };
    let b = match text_or_error(pkg, &next) {
        Ok(t) => t,
        Err(e) => {
            return Err(e);
        },
    };
    let a_close = match body_span(&a) {
        Some((_, _, c, _)) => c,
        None => {
            return Err(refuse_named(ErrorKind::InvalidData, "", path, " has no <body>"));
        },
    };
    let (b_open_end, b_close) = match body_span(&b) {
        Some((_, o, c, _)) => (o, c),
        None => {
            return Err(refuse_named(ErrorKind::InvalidData, "", &next, " has no <body>"));
        },
    };
    let ids = ids_in(&chars_of(&b));
    let clash = among_of(&ids, &ids_in(&chars_of(&a)), true);
    assert(text::texts(clash@).len() == clash@.len());
    assert(text::texts(ids@).len() == ids@.len());
    if clash.len() > 0 {
        return Err(
            refuse_named(
                ErrorKind::InvalidInput,
                "both documents define id ",
                &string_of(&join(&clash, ", ")),
                "; rename it first",
            ),
        );
    }
    Ok(MergePair { opf_path: d.path, next, next_id, a, a_close, b, b_open_end, b_close })
}

fn joined_of(m: &MergePair, path: &str) -> (r: Vec<char>)
    requires
        m.fits(),
    ensures
        r@ == joined(m.says(), path@),
{
    let a = chars_of(&m.a);
    let b = chars_of(&m.b);
    let a_dir = dir_of(path);
    let b_dir = dir_of(&m.next);
    let inside = ascii_trim(&b[m.b_open_end..m.b_close]);
    let mut out = copy(ascii_trim_end(&a[0..m.a_close]));
    put_str(&mut out, "\n");
    if str_is(&a_dir, &b_dir) {
        put(&mut out, inside);
    } else {
        put_str(&mut out, &rebase_to(&string_of(inside), &b_dir, &a_dir));
    }
    put_str(&mut out, "\n");
    put(&mut out, &a[m.a_close..a.len()]);
    out
}

fn add_sheets(m: &MergePair, path: &str, t: Vec<char>, changes: &mut Changes) -> (r: Vec<char>)
    ensures
        (r@, final(changes)@) == with_sheets(m.says(), path@, t@, old(changes)@),
{
    let a_dir = dir_of(path);
    let b_sheets = stylesheet_links(&m.b, &dir_of(&m.next));
    assert(text::texts(b_sheets@).len() == b_sheets@.len());
    let sheets = among_of(&b_sheets, &stylesheet_links(&m.a, &a_dir), false);
    assert(text::texts(sheets@).len() == sheets@.len());
    if sheets.len() == 0 {
        return t;
    }
    match find_str(&t, "</head>", 0) {
        None => t,
        Some(k) => {
            let mut out = copy(&t[0..k]);
            put(&mut out, &link_tags_of(&sheets, &a_dir));
            put(&mut out, &t[k..t.len()]);
            let mut note = decimal_of(sheets.len());
            put_str(&mut note, " stylesheet link(s) carried over from ");
            put_str(&mut note, &last_part(&m.next));
            changes.note(&string_of(&note));
            out
        },
    }
}

fn leave_merged(pkg: &mut EpubPackage, mut changes: Changes, path: &str, m: &MergePair) -> (r: Result<
    Changes,
    Error,
>)
    ensures
        outcome(r, final(pkg)@) == merge_left(old(pkg)@, changes@, path@, m.says()),
{
    match remove_manifest_item(pkg, &m.next) {
        Ok(_) => {},
        Err(e) => {
            return Err(e);
        },
    }
    let t = match text_or_error(pkg, &m.opf_path) {
        Ok(t) => t,
        Err(e) => {
            return Err(e);
        },
    };
    let rule = LinkMove {
        from: one_text(&m.next),
        ids: None,
        to: string_of(&chars_of(path)),
    };
    assert(rule.says() =~= redirect(m.says(), path@));
    let out = retarget(&remove_itemref(&t, &m.next_id), &m.opf_path, &rule);
    pkg.replace(&m.opf_path, bytes_of(&out));
    changes.touch(&m.opf_path);
    pkg.remove(&m.next);
    changes.drop(&m.next);
    let mut note = chars_of(&last_part(&m.next));
    put_str(&mut note, " folded into ");
    put_str(&mut note, &last_part(path));
    changes.note(&string_of(&note));
    Ok(changes)
}

/// Folds the next document of the spine into this one: its content, its
/// stylesheets, and the links to it.
#[verifier::rlimit(60)]
pub fn merge_with_next(pkg: &mut EpubPackage, path: &str) -> (r: Result<Changes, Error>)
    ensures
        outcome(r, final(pkg)@) == spec_merge_with_next(old(pkg)@, path@),
{
    let m = match pair_of(pkg, path) {
        Ok(m) => m,
        Err(e) => {
            return Err(e);
        },
    };
    let ghost said = m.says();
    let mut both = one_text(&m.next);
    add_text(&mut both, chars_of(path));
    let inward_rule = LinkMove { from: both, ids: None, to: string_of(&chars_of(path)) };
    assert(inward_rule.says() =~= inward(said, path@));
    let rule = LinkMove {
        from: one_text(&m.next),
        ids: None,
        to: string_of(&chars_of(path)),
    };
    assert(rule.says() =~= redirect(said, path@));
    let mut changes = Changes::default();
    let t = joined_of(&m, path);
    let t = add_sheets(&m, path, t, &mut changes);
    let merged = retarget(&string_of(&t), path, &inward_rule);
    pkg.replace(path, bytes_of(&merged));
    changes.touch(path);
    let v = match members(pkg) {
        Ok(v) => v,
        Err(e) => {
            return Err(e);
        },
    };
    match relink(pkg, &mut changes, &v, path, &m.next, &rule) {
        Ok(_) => {},
        Err(e) => {
            return Err(e);
        },
    }
    leave_merged(pkg, changes, path, &m)
}

// ---------------------------------------------------------------- accounting

proof fn lemma_relinking_accounted(
    old_p: Seq<Part>,
    p: Seq<Part>,
    log: Log,
    v: Seq<Listed>,
    one: Seq<char>,
    two: Seq<char>,
    m: Move,
    i: int,
)
    requires
        edit::accounts_for(log, old_p, p),
    ensures
        relinked(p, log, v, one, two, m, i).0 matches Ok(end) ==> edit::accounts_for(
            end,
            old_p,
            relinked(p, log, v, one, two, m, i).1,
        ),
    decreases v.len() - i,
{
    if 0 <= i < v.len() {
        if v[i].path == one || v[i].path == two || !is_linking(v[i].role) {
            lemma_relinking_accounted(old_p, p, log, v, one, two, m, i + 1);
        } else if let Ok(doc) = text_or_fault(p, v[i].path) {
            let out = spec_retarget(doc, v[i].path, m);
            if out == doc {
                lemma_relinking_accounted(old_p, p, log, v, one, two, m, i + 1);
            } else {
                let data = vstd::utf8::encode_utf8(out);
                edit::lemma_accounts_replace(log, old_p, p, v[i].path, data);
                lemma_relinking_accounted(
                    old_p,
                    edit::spec_replace(p, v[i].path, data),
                    log.touched(v[i].path),
                    v,
                    one,
                    two,
                    m,
                    i + 1,
                );
            }
        }
    }
}

/// The member that says where the package document is.
pub open spec fn container() -> Seq<char> {
    "META-INF/container.xml"@
}

proof fn lemma_entering_accounted(old_p: Seq<Part>, p: Seq<Part>, log: Log, line: int, plan: Plan)
    requires
        edit::accounts_for(log, old_p, p),
        edit::spec_opf_path(old_p) == Ok::<Seq<char>, Fault>(plan.opf_path),
    ensures
        split_entered(p, log, line, plan).0 matches Ok(end) ==> (!end.names(
            container(),
        ) ==> edit::accounts_for(end, old_p, split_entered(p, log, line, plan).1)),
{
    if let Ok((new_id, q)) = manifest::spec_add_item(p, plan.new_path, "application/xhtml+xml"@) {
        if let Ok(t) = text_or_fault(q, plan.opf_path) {
            let content = opf::or_empty(package::spec_text(q, plan.new_path));
            if let Ok(out) = spined(t, content, plan.own_id, new_id) {
                let end = log.touched(plan.opf_path);
                let note = structure::last_segment(plan.new_path) + " now starts at line "@
                    + text::decimal(line as nat) + "; "@ + text::decimal(plan.moved.len())
                    + " id(s) moved with it"@;
                let data = vstd::utf8::encode_utf8(out);
                edit::lemma_names_grow(log, plan.opf_path, note, note, container());
                edit::lemma_names_grow(end, plan.opf_path, note, note, container());
                if !end.noted(note).names(container()) {
                    assert(edit::spec_get(p, container()) == edit::spec_get(old_p, container()));
                    let d = package::spec_package_doc(p)->Ok_0;
                    assert(d.path == plan.opf_path);
                    let r = edit::spec_replace(q, plan.opf_path, data);
                    assert forall|name: Seq<char>| !end.names(name) implies #[trigger] edit::spec_get(
                        r,
                        name,
                    ) == edit::spec_get(old_p, name) by {
                        edit::lemma_names_grow(log, plan.opf_path, note, note, name);
                        assert(edit::spec_get(p, name) == edit::spec_get(old_p, name));
                        edit::replacing_is_surgical(q, plan.opf_path, data, name);
                        assert forall|b: Seq<u8>| edit::spec_get(
                            #[trigger] edit::spec_replace(p, plan.opf_path, b),
                            name,
                        ) == edit::spec_get(p, name) by {
                            edit::replacing_is_surgical(p, plan.opf_path, b, name);
                        }
                    }
                    edit::lemma_accounts_note(end, old_p, r, note);
                }
            }
        }
    }
}

/// A split accounts for what it does: where the changes do not name the
/// container document, a member that they do not name keeps its content.
pub proof fn a_split_accounts_for_its_changes(p: Seq<Part>, path: Seq<char>, line: int, col: int)
    ensures
        spec_split_document(p, path, line, col).0 matches Ok(log) ==> (!log.names(
            container(),
        ) ==> edit::accounts_for(log, p, spec_split_document(p, path, line, col).1)),
{
    if let Ok(plan) = split_plan(p, path, line, col) {
        let first = vstd::utf8::encode_utf8(spec_retarget(plan.first, path, follow(plan, path)));
        let second = vstd::utf8::encode_utf8(second_linked(path, plan));
        let half = edit::spec_replace(p, path, first);
        let xhtml = "application/xhtml+xml"@;
        let log = edit::no_changes().touched(path);
        edit::lemma_accounts_replace(edit::no_changes(), p, p, path, first);
        edit::lemma_accounts_set(log, p, half, plan.new_path, xhtml, second);
        let q = halved(p, path, plan);
        let log = log.with_added(plan.new_path, xhtml);
        if let Ok(v) = manifest::spec_members(q) {
            let m = follow(plan, path);
            lemma_relinking_accounted(p, q, log, v, path, plan.new_path, m, 0);
            if let (Ok(log2), q2) = relinked(q, log, v, path, plan.new_path, m, 0) {
                lemma_entering_accounted(p, q2, log2, line, plan);
            }
        }
    }
}

proof fn lemma_leaving_accounted(
    old_p: Seq<Part>,
    p: Seq<Part>,
    log: Log,
    path: Seq<char>,
    m: Pair,
)
    requires
        edit::accounts_for(log, old_p, p),
        edit::spec_opf_path(old_p) == Ok::<Seq<char>, Fault>(m.opf_path),
    ensures
        merge_left(p, log, path, m).0 matches Ok(end) ==> (!end.names(
            container(),
        ) ==> edit::accounts_for(end, old_p, merge_left(p, log, path, m).1)),
{
    if let Ok((_, q)) = manifest::spec_remove_item(p, m.next) {
        if let Ok(t) = text_or_fault(q, m.opf_path) {
            let out = spec_retarget(
                manifest::spec_remove_itemref(t, m.next_id),
                m.opf_path,
                redirect(m, path),
            );
            let data = vstd::utf8::encode_utf8(out);
            let mid = log.touched(m.opf_path);
            let end = mid.dropped(m.next);
            let note = structure::last_segment(m.next) + " folded into "@ + structure::last_segment(
                path,
            );
            edit::lemma_names_grow(log, m.opf_path, note, note, container());
            edit::lemma_names_grow(mid, m.next, note, note, container());
            edit::lemma_names_grow(end, m.next, note, note, container());
            if !end.noted(note).names(container()) {
                assert(edit::spec_get(p, container()) == edit::spec_get(old_p, container()));
                let r = edit::spec_replace(q, m.opf_path, data);
                assert forall|name: Seq<char>| !mid.names(name) implies #[trigger] edit::spec_get(
                    r,
                    name,
                ) == edit::spec_get(old_p, name) by {
                    edit::lemma_names_grow(log, m.opf_path, note, note, name);
                    assert(edit::spec_get(p, name) == edit::spec_get(old_p, name));
                    edit::replacing_is_surgical(q, m.opf_path, data, name);
                    assert forall|b: Seq<u8>| edit::spec_get(
                        #[trigger] edit::spec_replace(p, m.opf_path, b),
                        name,
                    ) == edit::spec_get(p, name) by {
                        edit::replacing_is_surgical(p, m.opf_path, b, name);
                    }
                }
                edit::lemma_accounts_remove(mid, old_p, r, m.next);
                edit::lemma_accounts_note(end, old_p, edit::spec_remove(r, m.next), note);
            }
        }
    }
}

/// A merge accounts for what it does: where the changes do not name the
/// container document, a member that they do not name keeps its content.
pub proof fn a_merge_accounts_for_its_changes(p: Seq<Part>, path: Seq<char>)
    ensures
        spec_merge_with_next(p, path).0 matches Ok(log) ==> (!log.names(
            container(),
        ) ==> edit::accounts_for(log, p, spec_merge_with_next(p, path).1)),
{
    if let Ok(m) = merge_pair(p, path) {
        let (t, log) = with_sheets(m, path, joined(m, path), edit::no_changes());
        edit::lemma_accounts_note(
            edit::no_changes(),
            p,
            p,
            text::decimal(new_sheets(m, path).len()) + " stylesheet link(s) carried over from "@
                + structure::last_segment(m.next),
        );
        let data = vstd::utf8::encode_utf8(spec_retarget(t, path, inward(m, path)));
        edit::lemma_accounts_replace(log, p, p, path, data);
        let q = edit::spec_replace(p, path, data);
        if let Ok(v) = manifest::spec_members(q) {
            let rule = redirect(m, path);
            lemma_relinking_accounted(
                p,
                q,
                log.touched(path),
                v,
                path,
                m.next,
                rule,
                0,
            );
            if let (Ok(log2), q2) = relinked(q, log.touched(path), v, path, m.next, rule, 0) {
                lemma_leaving_accounted(p, q2, log2, path, m);
            }
        }
    }
}

// ---------------------------------------------------------------- nothing is lost

/// A split loses nothing that can be seen: what stands before the cut is in the
/// first document and what stands from the cut on is in the second, in order,
/// beside the head and the tags that the two share.
pub proof fn a_split_keeps_what_is_visible(t: Seq<char>, open_end: int, close: int, cut: Place)
    requires
        0 <= open_end <= cut.at <= close <= t.len(),
    ensures
        text::visible(halves(t, open_end, close, cut).0) == text::visible(t.subrange(0, cut.at))
            + text::visible(closers(cut.ancestors)) + text::visible(
            t.subrange(close, t.len() as int),
        ),
        text::visible(halves(t, open_end, close, cut).1) == text::visible(t.subrange(0, open_end))
            + text::visible(openers(cut.ancestors, cut.ancestors.len() as int)) + text::visible(
            t.subrange(cut.at, t.len() as int),
        ),
{
    reveal_strlit("\n");
    let n = t.len() as int;
    let nl = "\n"@;
    text::lemma_visible_none(nl);
    let a = text::spec_ascii_trim_end(t.subrange(0, cut.at));
    let b = closers(cut.ancestors);
    let c = t.subrange(close, n);
    text::trimming_keeps_what_is_visible(t.subrange(0, cut.at));
    text::lemma_visible_add(a, nl);
    text::lemma_visible_add(a + nl, b);
    text::lemma_visible_add(a + nl + b, c);
    assert(text::visible(a) + text::visible(nl) =~= text::visible(a));
    let d = t.subrange(0, open_end);
    let e = openers(cut.ancestors, cut.ancestors.len() as int);
    let f = text::spec_ascii_trim_start(t.subrange(cut.at, n));
    text::trimming_keeps_what_is_visible(t.subrange(cut.at, n));
    text::lemma_visible_add(d, nl);
    text::lemma_visible_add(d + nl, e);
    text::lemma_visible_add(d + nl + e, f);
    assert(text::visible(d) + text::visible(nl) =~= text::visible(d));
}

/// A merge loses nothing that can be seen: the body of the second document, its
/// hrefs rewritten where it moves to another directory, follows that of the
/// first.
pub proof fn a_merge_keeps_what_is_visible(m: Pair, path: Seq<char>)
    requires
        0 <= m.a_close <= m.a.len(),
        0 <= m.b_open_end <= m.b_close <= m.b.len(),
    ensures
        ({
            let inside = m.b.subrange(m.b_open_end, m.b_close);
            let same = structure::spec_dir_of(path) == structure::spec_dir_of(m.next);
            let moved = spec_rebase_to(
                text::spec_ascii_trim(inside),
                structure::spec_dir_of(m.next),
                structure::spec_dir_of(path),
            );
            text::visible(joined(m, path)) == text::visible(m.a.subrange(0, m.a_close)) + (if same {
                text::visible(inside)
            } else {
                text::visible(moved)
            }) + text::visible(m.a.subrange(m.a_close, m.a.len() as int))
        }),
{
    reveal_strlit("\n");
    let nl = "\n"@;
    text::lemma_visible_none(nl);
    let a_dir = structure::spec_dir_of(path);
    let b_dir = structure::spec_dir_of(m.next);
    let inside = text::spec_ascii_trim(m.b.subrange(m.b_open_end, m.b_close));
    let body = if a_dir != b_dir {
        spec_rebase_to(inside, b_dir, a_dir)
    } else {
        inside
    };
    let a = text::spec_ascii_trim_end(m.a.subrange(0, m.a_close));
    let z = m.a.subrange(m.a_close, m.a.len() as int);
    text::trimming_keeps_what_is_visible(m.a.subrange(0, m.a_close));
    text::trimming_keeps_what_is_visible(m.b.subrange(m.b_open_end, m.b_close));
    text::lemma_visible_add(a, nl);
    text::lemma_visible_add(a + nl, body);
    text::lemma_visible_add(a + nl + body, nl);
    text::lemma_visible_add(a + nl + body + nl, z);
    assert(text::visible(a) + text::visible(nl) =~= text::visible(a));
    let ab = text::visible(a) + text::visible(body);
    assert(ab + text::visible(nl) =~= ab);
}

} // verus!
