//! Giving the elements of a document the classes of a reference.
use vstd::prelude::*;

use crate::codec;
use crate::edit;
use crate::markup;
use crate::residuals;
use crate::restyle;
use crate::structure;
use crate::stylesheet;
use crate::text;
use crate::codec::percent_decode;
use crate::markup::{Tok, Token, attr_value, class_list, is_void, set_attr, tokens_of};
use crate::residuals::{Residual, choose_classes};
use crate::restyle::{Choice, Chosen, Element, Key, Mapper, Mapping, capped_sum};
use crate::structure::resolve_href;
use crate::stylesheet::{copy_pairs, find_pair, put_pair};
use crate::text::{
    add_str, add_text, blank, chars_of, copy, is, is_nocase, join, put, put_str, rfind_char, same,
    starts_str, str_is, string_of, strs_have, trim, trim_end_char, trim_start_char,
};

verus! {

/// An open element: its tag, the classes it was given, what it hands down, and whether its own tags
/// are left out.
pub struct Frame {
    pub tag: String,
    pub classes: Vec<String>,
    pub inherited: Vec<(String, String)>,
    pub unwrap: bool,
}

/// What a `Frame` says.
#[verifier::ext_equal]
pub struct Open {
    pub tag: Seq<char>,
    pub classes: Seq<Seq<char>>,
    pub inherited: Seq<(Seq<char>, Seq<char>)>,
    pub unwrap: bool,
}

impl View for Frame {
    type V = Open;

    open spec fn view(&self) -> Open {
        Open {
            tag: self.tag@,
            classes: text::strs(self.classes@),
            inherited: edit::pairs(self.inherited@),
            unwrap: self.unwrap,
        }
    }
}

pub open spec fn frames(v: Seq<Frame>) -> Seq<Open> {
    v.map_values(|f: Frame| f@)
}

/// What a document is rewritten by: the directory it stands in, the class of its root, the
/// stylesheets that go, and the link that takes their place.
pub struct Setting<'a> {
    pub dir: &'a str,
    pub axis: Option<String>,
    pub removed: &'a Vec<String>,
    pub link: &'a str,
}

/// What a `Setting` says.
#[verifier::ext_equal]
pub struct Placed {
    pub dir: Seq<char>,
    pub axis: Option<Seq<char>>,
    pub removed: Seq<Seq<char>>,
    pub link: Seq<char>,
}

impl<'a> Setting<'a> {
    pub open spec fn view(&self) -> Placed {
        Placed {
            dir: self.dir@,
            axis: text::opt_str(self.axis),
            removed: text::strs(self.removed@),
            link: self.link@,
        }
    }
}

/// A document on its way: the open elements, the rules for what is left undone, what is written,
/// whether the new stylesheet is linked, how many rules spoke of the kind of page, how many
/// declarations were left undone, and which classes became which.
pub struct Walk {
    pub stack: Vec<Frame>,
    pub residuals: Vec<Residual>,
    pub out: Vec<char>,
    pub linked: bool,
    pub hits: u128,
    pub left: u128,
    pub renamed: Vec<(String, String)>,
}

/// What a `Walk` says.
#[verifier::ext_equal]
pub struct Walked {
    pub stack: Seq<Open>,
    pub residuals: Seq<(Seq<char>, Seq<char>, Seq<(Seq<char>, Seq<char>)>)>,
    pub out: Seq<char>,
    pub linked: bool,
    pub hits: int,
    pub left: int,
    pub renamed: Seq<(Seq<char>, Seq<char>)>,
}

impl View for Walk {
    type V = Walked;

    open spec fn view(&self) -> Walked {
        Walked {
            stack: frames(self.stack@),
            residuals: residuals::residuals(self.residuals@),
            out: self.out@,
            linked: self.linked,
            hits: self.hits as int,
            left: self.left as int,
            renamed: edit::pairs(self.renamed@),
        }
    }
}

/// A property that elements hand down.
pub open spec fn is_inherited(n: Seq<char>) -> bool {
    n == "font-family"@ || n == "font-weight"@ || n == "font-style"@ || n == "font-variant"@ || n
        == "text-align"@ || n == "text-align-last"@ || n == "color"@ || n == "letter-spacing"@ || n
        == "word-spacing"@ || n == "white-space"@ || n == "line-break"@ || n == "word-break"@ || n
        == "overflow-wrap"@ || n == "text-indent"@ || n == "text-transform"@ || n
        == "text-orientation"@ || n == "text-emphasis-style"@ || n == "text-emphasis-color"@ || n
        == "text-emphasis-position"@ || n == "list-style-type"@ || n == "visibility"@
}

fn inherits(n: &[char]) -> (r: bool)
    ensures
        r == is_inherited(n@),
{
    is(n, "font-family") || is(n, "font-weight") || is(n, "font-style") || is(n, "font-variant")
        || is(n, "text-align") || is(n, "text-align-last") || is(n, "color") || is(
        n,
        "letter-spacing",
    ) || is(n, "word-spacing") || is(n, "white-space") || is(n, "line-break") || is(
        n,
        "word-break",
    ) || is(n, "overflow-wrap") || is(n, "text-indent") || is(n, "text-transform") || is(
        n,
        "text-orientation",
    ) || is(n, "text-emphasis-style") || is(n, "text-emphasis-color") || is(
        n,
        "text-emphasis-position",
    ) || is(n, "list-style-type") || is(n, "visibility")
}

/// What is handed down, with the first `n` of an element's own declarations.
pub open spec fn handed_to(
    d: Seq<(Seq<char>, Seq<char>)>,
    own: Seq<(Seq<char>, Seq<char>)>,
    n: int,
) -> Seq<(Seq<char>, Seq<char>)>
    decreases n,
{
    if n <= 0 {
        d
    } else {
        let before = handed_to(d, own, n - 1);
        if is_inherited(own[n - 1].0) {
            stylesheet::put_from(before, own[n - 1].0, own[n - 1].1, 0)
        } else {
            before
        }
    }
}

fn hand_down(d: &mut Vec<(String, String)>, own: &Vec<(String, String)>)
    ensures
        edit::pairs(final(d)@) == handed_to(
            edit::pairs(old(d)@),
            edit::pairs(own@),
            own@.len() as int,
        ),
{
    let ghost start = edit::pairs(d@);
    let ghost os = edit::pairs(own@);
    let n = own.len();
    let mut i: usize = 0;
    while i < n
        invariant
            i <= n,
            n == own@.len(),
            os == edit::pairs(own@),
            edit::pairs(d@) == handed_to(start, os, i as int),
        decreases n - i,
    {
        assert(os[i as int] == (own@[i as int].0@, own@[i as int].1@));
        let name = chars_of(&own[i].0);
        if inherits(&name) {
            put_pair(d, &name, &chars_of(&own[i].1));
        }
        i += 1;
    }
}

/// The classes of the first `n` open elements.
pub open spec fn classes_round(v: Seq<Open>, n: int) -> Seq<Seq<char>>
    decreases n,
{
    if n <= 0 {
        Seq::empty()
    } else {
        classes_round(v, n - 1) + v[n - 1].classes
    }
}

/// The tags of the open elements.
pub open spec fn tags_round(v: Seq<Open>) -> Seq<Seq<char>> {
    v.map_values(|f: Open| f.tag)
}

pub open spec fn as_list(o: Option<Seq<char>>) -> Seq<Seq<char>> {
    match o {
        Some(x) => seq![x],
        None => Seq::empty(),
    }
}

/// What an element inherits.
pub open spec fn handed(v: Seq<Open>) -> Seq<(Seq<char>, Seq<char>)> {
    if v.len() > 0 {
        v.last().inherited
    } else {
        Seq::empty()
    }
}

/// The element that a start tag opens.
pub open spec fn element_of(
    stack: Seq<Open>,
    raw: Seq<char>,
    name: Seq<char>,
    kind: Option<Seq<char>>,
    axis: Option<Seq<char>>,
) -> Element {
    Element {
        tag: name,
        classes: markup::spec_class_list(raw),
        ancestors: classes_round(stack, stack.len() as int) + as_list(kind) + as_list(axis),
        ancestor_tags: tags_round(stack),
        inherited: handed(stack),
    }
}

fn append_strs(out: &mut Vec<String>, v: &Vec<String>)
    ensures
        text::strs(final(out)@) == text::strs(old(out)@) + text::strs(v@),
{
    let ghost start = text::strs(out@);
    let ghost all = text::strs(v@);
    let n = v.len();
    assert(all.len() == n);
    let mut i: usize = 0;
    assert(start + all.take(0) =~= start);
    while i < n
        invariant
            i <= n,
            n == v@.len(),
            all == text::strs(v@),
            all.len() == n,
            text::strs(out@) == start + all.take(i as int),
        decreases n - i,
    {
        let x = v[i].clone();
        assert(all[i as int] == x@);
        add_str(out, x);
        assert((start + all.take(i as int)).push(all[i as int]) =~= start + all.take(i + 1));
        i += 1;
    }
    assert(all.take(n as int) =~= all);
}

fn key_of(
    stack: &Vec<Frame>,
    raw: &str,
    name: &String,
    kind: &Option<String>,
    axis: &Option<String>,
) -> (r: Key)
    ensures
        r@ == element_of(frames(stack@), raw@, name@, text::opt_str(*kind), text::opt_str(*axis)),
{
    let ghost fs = frames(stack@);
    let n = stack.len();
    assert(fs.len() == n);
    let mut ancestors: Vec<String> = Vec::new();
    let mut ancestor_tags: Vec<String> = Vec::new();
    assert(text::strs(ancestors@) =~= Seq::empty());
    assert(text::strs(ancestor_tags@) =~= tags_round(fs).take(0));
    let mut i: usize = 0;
    while i < n
        invariant
            i <= n,
            n == stack@.len(),
            fs == frames(stack@),
            fs.len() == n,
            text::strs(ancestors@) == classes_round(fs, i as int),
            text::strs(ancestor_tags@) == tags_round(fs).take(i as int),
        decreases n - i,
    {
        assert(fs[i as int] == stack@[i as int]@);
        append_strs(&mut ancestors, &stack[i].classes);
        let t = stack[i].tag.clone();
        assert(tags_round(fs)[i as int] == t@);
        add_str(&mut ancestor_tags, t);
        assert(tags_round(fs).take(i + 1) =~= tags_round(fs).take(i as int).push(
            tags_round(fs)[i as int],
        ));
        i += 1;
    }
    assert(tags_round(fs).take(n as int) =~= tags_round(fs));
    let ghost round = text::strs(ancestors@);
    if let Some(k) = kind {
        add_str(&mut ancestors, k.clone());
    }
    assert(text::strs(ancestors@) =~= round + as_list(text::opt_str(*kind)));
    let ghost more = text::strs(ancestors@);
    if let Some(a) = axis {
        add_str(&mut ancestors, a.clone());
    }
    assert(text::strs(ancestors@) =~= more + as_list(text::opt_str(*axis)));
    let inherited: Vec<(String, String)> = if n > 0 {
        assert(fs[n - 1] == stack@[n - 1]@);
        copy_pairs(&stack[n - 1].inherited)
    } else {
        let none: Vec<(String, String)> = Vec::new();
        assert(edit::pairs(none@) =~= Seq::empty());
        none
    };
    Key { tag: name.clone(), classes: class_list(raw), ancestors, ancestor_tags, inherited }
}

/// The classes that an element is given: a body has the kind of its page, and a root its axis.
pub open spec fn given_classes(
    name: Seq<char>,
    chosen: Seq<Seq<char>>,
    kind: Option<Seq<char>>,
    axis: Option<Seq<char>>,
) -> Seq<Seq<char>> {
    if name == "body"@ {
        match kind {
            Some(k) if !chosen.contains(k) => seq![k] + chosen,
            _ => chosen,
        }
    } else if name == "html"@ {
        as_list(axis)
    } else {
        chosen
    }
}

fn given_classes_of(
    name: &str,
    chosen: Vec<String>,
    kind: &Option<String>,
    axis: &Option<String>,
) -> (r: Vec<String>)
    ensures
        text::strs(r@) == given_classes(name@, text::strs(chosen@), text::opt_str(*kind), text::opt_str(*axis)),
{
    if str_is(name, "body") {
        if let Some(k) = kind {
            if !strs_have(&chosen, &chars_of(k)) {
                let mut out: Vec<String> = Vec::new();
                assert(text::strs(out@) =~= Seq::empty());
                add_str(&mut out, k.clone());
                append_strs(&mut out, &chosen);
                assert(text::strs(out@) =~= seq![k@] + text::strs(chosen@));
                return out;
            }
        }
        chosen
    } else if str_is(name, "html") {
        let mut out: Vec<String> = Vec::new();
        assert(text::strs(out@) =~= Seq::empty());
        if let Some(a) = axis {
            add_str(&mut out, a.clone());
        }
        assert(text::strs(out@) =~= as_list(text::opt_str(*axis)));
        out
    } else {
        chosen
    }
}

/// What stands in a tag behind its name.
pub open spec fn behind_name(raw: Seq<char>, name: Seq<char>) -> Seq<char> {
    let a = text::spec_trim_start_char(raw, '<');
    let b = text::spec_trim_end_char(a, '>');
    let inner = text::spec_trim(text::spec_trim_end_char(b, '/'));
    if name.len() <= inner.len() {
        text::spec_trim(inner.subrange(name.len() as int, inner.len() as int))
    } else {
        Seq::empty()
    }
}

/// A tag has no attribute but its class.
pub open spec fn only_class(raw: Seq<char>, name: Seq<char>) -> bool {
    let rest = behind_name(raw, name);
    text::spec_starts(rest, "class="@) && (markup::spec_attr_value(raw, "class"@) matches Some(c) && (
    rest == "class=\""@ + c + "\""@ || rest == "class='"@ + c + "'"@))
}

fn only_class_attr(raw: &str, name: &str) -> (r: bool)
    ensures
        r == only_class(raw@, name@),
{
    let t = chars_of(raw);
    let k = chars_of(name).len();
    let a = trim_start_char(&t, '<');
    let b = trim_end_char(a, '>');
    let inner = trim(trim_end_char(b, '/'));
    let n = inner.len();
    let none: Vec<char> = Vec::new();
    let rest: &[char] = if k <= n {
        trim(&inner[k..n])
    } else {
        assert(none@ =~= Seq::empty());
        &none
    };
    assert(rest@ =~= behind_name(raw@, name@));
    if !starts_str(rest, "class=") {
        return false;
    }
    match attr_value(raw, "class") {
        Some(c) => {
            let mut x = chars_of("class=\"");
            put_str(&mut x, &c);
            put_str(&mut x, "\"");
            let mut y = chars_of("class='");
            put_str(&mut y, &c);
            put_str(&mut y, "'");
            same(rest, &x) || same(rest, &y)
        },
        None => false,
    }
}

/// A tag links a stylesheet that goes.
pub open spec fn links_removed(raw: Seq<char>, name: Seq<char>, s: Placed) -> bool {
    name == "link"@ && (markup::spec_attr_value(raw, "rel"@) matches Some(r) && text::spec_lower(r)
        == text::spec_lower("stylesheet"@)) && (markup::spec_attr_value(raw, "href"@) matches Some(h)
        && s.removed.contains(
        structure::spec_resolve_href(s.dir, codec::spec_percent_decode(h)),
    ))
}

fn is_removed_link(raw: &str, name: &str, s: &Setting) -> (r: bool)
    ensures
        r == links_removed(raw@, name@, s@),
{
    if !str_is(name, "link") {
        return false;
    }
    let sheet = match attr_value(raw, "rel") {
        Some(r) => is_nocase(&chars_of(&r), "stylesheet"),
        None => false,
    };
    if !sheet {
        return false;
    }
    match attr_value(raw, "href") {
        Some(h) => strs_have(
            s.removed,
            &chars_of(&resolve_href(s.dir, &percent_decode(&h))),
        ),
        None => false,
    }
}

/// What is written without a blank line at its end.
pub open spec fn without_blank_line(out: Seq<char>) -> Seq<char> {
    match text::spec_rfind_char(out, '\n', out.len() as int) {
        Some(k) if text::all_white(out.subrange(k, out.len() as int)) => out.subrange(0, k),
        _ => out,
    }
}

/// What is written, and whether the new stylesheet is linked, once a start tag is written.
pub open spec fn tag_written(
    out: Seq<char>,
    linked: bool,
    raw: Seq<char>,
    name: Seq<char>,
    classes: Seq<Seq<char>>,
    unwrap: bool,
    s: Placed,
) -> (Seq<char>, bool) {
    if links_removed(raw, name, s) {
        if linked {
            (without_blank_line(out), true)
        } else {
            (out + markup::spec_set_attr(raw, "href"@, Some(s.link)), true)
        }
    } else if unwrap {
        (out, linked)
    } else if markup::spec_class_list(raw) == classes {
        (out + raw, linked)
    } else {
        (
            out + markup::spec_set_attr(
                raw,
                "class"@,
                if classes.len() == 0 {
                    None
                } else {
                    Some(text::spec_join(classes, " "@))
                },
            ),
            linked,
        )
    }
}

fn same_strs(a: &Vec<String>, b: &Vec<String>) -> (r: bool)
    ensures
        r == (text::strs(a@) == text::strs(b@)),
{
    let ghost sa = text::strs(a@);
    let ghost sb = text::strs(b@);
    let n = a.len();
    assert(sa.len() == n && sb.len() == b@.len());
    if b.len() != n {
        return false;
    }
    let mut i: usize = 0;
    while i < n
        invariant
            i <= n,
            n == a@.len(),
            n == b@.len(),
            sa == text::strs(a@),
            sb == text::strs(b@),
            sa.len() == n,
            sb.len() == n,
            forall|k: int| 0 <= k < i ==> #[trigger] sa[k] == sb[k],
        decreases n - i,
    {
        assert(sa[i as int] == a@[i as int]@);
        assert(sb[i as int] == b@[i as int]@);
        if !str_is(&a[i], &b[i]) {
            return false;
        }
        i += 1;
    }
    assert(sa =~= sb);
    true
}

fn texts_of(v: &Vec<String>) -> (r: Vec<Vec<char>>)
    ensures
        text::texts(r@) == text::strs(v@),
{
    let ghost all = text::strs(v@);
    let n = v.len();
    assert(all.len() == n);
    let mut out: Vec<Vec<char>> = Vec::new();
    assert(text::texts(out@) =~= all.take(0));
    let mut i: usize = 0;
    while i < n
        invariant
            i <= n,
            n == v@.len(),
            all == text::strs(v@),
            all.len() == n,
            text::texts(out@) == all.take(i as int),
        decreases n - i,
    {
        let x = chars_of(&v[i]);
        assert(all[i as int] == x@);
        add_text(&mut out, x);
        assert(all.take(i + 1) =~= all.take(i as int).push(all[i as int]));
        i += 1;
    }
    assert(all.take(n as int) =~= all);
    out
}

/// The names with a blank between them.
pub fn joined_names(v: &Vec<String>) -> (r: String)
    ensures
        r@ == text::spec_join(text::strs(v@), " "@),
{
    string_of(&join(&texts_of(v), " "))
}

fn write_tag(
    out: &mut Vec<char>,
    linked: bool,
    raw: &str,
    name: &str,
    classes: &Vec<String>,
    unwrap: bool,
    s: &Setting,
) -> (r: bool)
    ensures
        (final(out)@, r) == tag_written(
            old(out)@,
            linked,
            raw@,
            name@,
            text::strs(classes@),
            unwrap,
            s@,
        ),
{
    assert(text::strs(classes@).len() == classes@.len());
    if is_removed_link(raw, name, s) {
        if linked {
            let n = out.len();
            if let Some(k) = rfind_char(out, '\n', n) {
                if blank(&out[k..n]) {
                    let shorter = copy(&out[0..k]);
                    *out = shorter;
                }
            }
        } else {
            put_str(out, &set_attr(raw, "href", Some(s.link)));
        }
        return true;
    }
    if unwrap {
        return linked;
    }
    if same_strs(&class_list(raw), classes) {
        put_str(out, raw);
        return linked;
    }
    if classes.len() == 0 {
        put_str(out, &set_attr(raw, "class", None));
    } else {
        let value = joined_names(classes);
        put_str(out, &set_attr(raw, "class", Some(&value)));
    }
    linked
}

/// Which classes became which, with one more; the first for the same classes counts.
pub open spec fn renamed_with(
    v: Seq<(Seq<char>, Seq<char>)>,
    from: Seq<Seq<char>>,
    to: Seq<Seq<char>>,
) -> Seq<(Seq<char>, Seq<char>)> {
    let name = text::spec_join(from, " "@);
    if name.len() == 0 || stylesheet::value_in(v, name) is Some {
        v
    } else {
        stylesheet::put_from(v, name, text::spec_join(to, " "@), 0)
    }
}

fn add_renamed(v: &mut Vec<(String, String)>, from: &Vec<String>, to: &Vec<String>)
    ensures
        edit::pairs(final(v)@) == renamed_with(
            edit::pairs(old(v)@),
            text::strs(from@),
            text::strs(to@),
        ),
{
    let name = joined_names(from);
    let chars = chars_of(&name);
    if chars.len() == 0 || find_pair(v, &name).is_some() {
        return;
    }
    put_pair(v, &chars, &chars_of(&joined_names(to)));
}

/// How many declarations a choice leaves undone.
pub open spec fn undone(c: Chosen) -> int {
    match c.residual {
        Some((_, d)) => d.len() as int,
        None => 0,
    }
}

/// The walk behind a start tag.
pub open spec fn opened(
    w: Walked,
    raw: Seq<char>,
    name: Seq<char>,
    self_closing: bool,
    m: Mapping,
    s: Placed,
) -> Walked {
    let e = element_of(w.stack, raw, name, m.kind, s.axis);
    let (rules, c) = residuals::settled(w.residuals, m, e);
    let classes = given_classes(name, c.classes, m.kind, s.axis);
    let unwrap = name == "span"@ && classes.len() == 0 && e.classes.len() > 0 && only_class(
        raw,
        name,
    );
    let (out, linked) = tag_written(w.out, w.linked, raw, name, classes, unwrap, s);
    Walked {
        stack: if self_closing || markup::spec_is_void(name) {
            w.stack
        } else {
            w.stack.push(
                Open {
                    tag: name,
                    classes,
                    inherited: handed_to(handed(w.stack), c.own, c.own.len() as int),
                    unwrap,
                },
            )
        },
        residuals: rules,
        out,
        linked,
        hits: restyle::capped(w.hits + c.hits),
        left: restyle::capped(w.left + undone(c)),
        renamed: renamed_with(w.renamed, e.classes, c.classes),
    }
}

fn open_element(w: &mut Walk, raw: &str, name: &String, self_closing: bool, m: &Mapper, s: &Setting)
    ensures
        final(w)@ == opened(old(w)@, raw@, name@, self_closing, m@, s@),
{
    let ghost start = w@;
    let key = key_of(&w.stack, raw, name, &m.kind, &s.axis);
    let mut inherited = copy_pairs(&key.inherited);
    let choice = choose_classes(&mut w.residuals, m, &key);
    let ghost c = choice@;
    let Choice { classes: chosen, residual, context_hits, own } = choice;
    add_renamed(&mut w.renamed, &key.classes, &chosen);
    let left: u128 = match &residual {
        Some((_, d)) => {
            assert(edit::pairs(d@).len() == d@.len());
            d.len() as u128
        },
        None => 0,
    };
    let classes = given_classes_of(name, chosen, &m.kind, &s.axis);
    assert(text::strs(classes@).len() == classes@.len());
    assert(text::strs(key.classes@).len() == key.classes@.len());
    let unwrap = str_is(name, "span") && classes.len() == 0 && key.classes.len() > 0
        && only_class_attr(raw, name);
    assert(edit::pairs(own@).len() == own@.len());
    hand_down(&mut inherited, &own);
    w.linked = write_tag(&mut w.out, w.linked, raw, name, &classes, unwrap, s);
    w.hits = capped_sum(w.hits, context_hits);
    w.left = capped_sum(w.left, left);
    if !self_closing && !is_void(name) {
        let f = Frame { tag: name.clone(), classes, inherited, unwrap };
        let ghost fv = f@;
        let ghost before = frames(w.stack@);
        w.stack.push(f);
        assert(frames(w.stack@) =~= before.push(fv));
    }
}

/// The last of the first `n` open elements with the tag.
pub open spec fn last_open(v: Seq<Open>, name: Seq<char>, n: int) -> Option<int>
    decreases n,
{
    if n <= 0 {
        None
    } else if v[n - 1].tag == name {
        Some(n - 1)
    } else {
        last_open(v, name, n - 1)
    }
}

/// The walk behind an end tag: it closes the last open element with its name and all in it. The end
/// tag of an element whose tags are left out is left out too.
pub open spec fn closed(w: Walked, raw: Seq<char>, name: Seq<char>) -> Walked {
    match last_open(w.stack, name, w.stack.len() as int) {
        Some(i) => Walked {
            stack: w.stack.subrange(0, i),
            out: if w.stack[i].unwrap {
                w.out
            } else {
                w.out + raw
            },
            ..w
        },
        None => Walked { out: w.out + raw, ..w },
    }
}

fn close_element(w: &mut Walk, raw: &str, name: &str)
    ensures
        final(w)@ == closed(old(w)@, raw@, name@),
{
    let ghost fs = frames(w.stack@);
    assert(fs.len() == w.stack@.len());
    let mut n: usize = w.stack.len();
    while n > 0
        invariant
            n <= w.stack@.len(),
            *w == *old(w),
            fs == frames(w.stack@),
            fs.len() == w.stack@.len(),
            last_open(fs, name@, n as int) == last_open(fs, name@, fs.len() as int),
        decreases n,
    {
        assert(fs[n - 1] == w.stack@[n - 1]@);
        if str_is(&w.stack[n - 1].tag, name) {
            let unwrap = w.stack[n - 1].unwrap;
            w.stack.truncate(n - 1);
            assert(frames(w.stack@) =~= fs.subrange(0, n - 1));
            if !unwrap {
                put_str(&mut w.out, raw);
            }
            return;
        }
        n -= 1;
    }
    put_str(&mut w.out, raw);
}

/// The walk behind one token.
pub open spec fn stepped(w: Walked, t: Seq<char>, tok: Token, m: Mapping, s: Placed) -> Walked {
    match tok {
        Token::Text { start, end } => Walked { out: w.out + t.subrange(start, end), ..w },
        Token::Tag { start, end, name, closing, self_closing } => if closing {
            closed(w, t.subrange(start, end), name)
        } else {
            opened(w, t.subrange(start, end), name, self_closing, m, s)
        },
    }
}

/// The walk behind the first `n` tokens.
pub open spec fn walked_to(w: Walked, t: Seq<char>, v: Seq<Token>, m: Mapping, s: Placed, n: int) -> Walked
    decreases n,
{
    if n <= 0 {
        w
    } else {
        stepped(walked_to(w, t, v, m, s, n - 1), t, v[n - 1], m, s)
    }
}

/// The walk through a document, with the rules there are already.
#[verifier::opaque]
pub open spec fn walked(
    rules: Seq<(Seq<char>, Seq<char>, Seq<(Seq<char>, Seq<char>)>)>,
    t: Seq<char>,
    m: Mapping,
    s: Placed,
) -> Walked {
    let v = markup::spec_tokens(t);
    walked_to(
        Walked {
            stack: Seq::empty(),
            residuals: rules,
            out: Seq::empty(),
            linked: false,
            hits: 0,
            left: 0,
            renamed: Seq::empty(),
        },
        t,
        v,
        m,
        s,
        v.len() as int,
    )
}

/// Walk through a document.
pub fn walk(rules: Vec<Residual>, text: &str, m: &Mapper, s: &Setting) -> (r: Walk)
    ensures
        r@ == walked(residuals::residuals(rules@), text@, m@, s@),
{
    proof {
        reveal(walked);
    }
    let t = chars_of(text);
    let v = tokens_of(&t);
    let ghost ks = markup::spec_tokens(t@);
    proof {
        markup::tokens_tile_the_text(t@);
        markup::lemma_tiles_bound(ks, 0, t@.len() as int);
    }
    let mut w = Walk {
        stack: Vec::new(),
        residuals: rules,
        out: Vec::new(),
        linked: false,
        hits: 0,
        left: 0,
        renamed: Vec::new(),
    };
    let ghost start = w@;
    assert(start.stack =~= Seq::empty());
    assert(start.renamed =~= Seq::empty());
    let mut i: usize = 0;
    while i < v.len()
        invariant
            i <= v@.len(),
            ks == markup::spec_tokens(t@),
            markup::toks(v@) == ks,
            forall|k: int|
                0 <= k < ks.len() ==> 0 <= (#[trigger] ks[k]).start() && ks[k].end() <= t@.len()
                    && ks[k].start() < ks[k].end(),
            w@ == walked_to(start, t@, ks, m@, s@, i as int),
        decreases v@.len() - i,
    {
        assert(ks[i as int] == v@[i as int]@);
        match &v[i] {
            Tok::Text { start: a, end: b } => {
                put(&mut w.out, &t[*a..*b]);
            },
            Tok::Tag { start: a, end: b, name, closing, self_closing } => {
                let raw = string_of(&t[*a..*b]);
                if *closing {
                    close_element(&mut w, &raw, name);
                } else {
                    open_element(&mut w, &raw, name, *self_closing, m, s);
                }
            },
        }
        i += 1;
    }
    assert(ks.len() == v@.len());
    w
}

} // verus!
