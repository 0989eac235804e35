//! `upgrade_to_epub3` rewrites an EPUB 2 package's version, metadata,
//! navigation document, manifest properties and DOCTYPEs in place. Bodies,
//! stylesheets, images and fonts pass through byte for byte.
use vstd::prelude::*;

use crate::codec;
use crate::edit;
use crate::fresh;
use crate::manifest;
use crate::markup;
use crate::nav_doc;
use crate::opf;
use crate::package;
use crate::pretty;
use crate::split_doc;
use crate::structure;
use crate::text;
use crate::toc;
use crate::toc_repair;
use crate::archive::Part;
use crate::codec::{append_bytes, bytes_of, in_units_of, slice_copy, unit_text_of, wide_of};
use crate::edit::{Changes, EpubPackage, Log};
use crate::error::{Error, ErrorKind, Fault, refuse, refuse_named};
use crate::fresh::{counted, fresh};
use crate::manifest::{
    Listed, Member, MemberRole, item_indent_of, item_place_of, members, set_item_properties,
};
use crate::markup::{
    Attr, TagEdit, Tok, Token, attr_value, attributes, content_properties, escape_attr,
    escape_text, rewrite_tags, set_attr, tokens_of,
};
use crate::nav_doc::{render_landmarks_nav, render_nav_doc, render_toc_nav};
use crate::opf::{Book, OpfData, OpfItem, item_named_in, local};
use crate::package::{Found, PackageDoc, abs_path, member_text};
use crate::split_doc::{among_of, ids_in, read_package, text_or_error};
use crate::structure::{dir_of, relativize, resolve_href};
use crate::text::{
    add_str, add_text, ascii_digit, chars_of, copy, decimal_of, decimal_of_sum, ends_str,
    find_char, find_str, has_str, is, join, join2, lowered, put, put_str, replace_str, rfind_char,
    same_nocase, starts_str, str_is, string_of, strings_of, trim, words,
};
use crate::toc::{Landmark, Mark, Toc, TocEntry, flat_count, parse_ncx, parse_opf_guide};
use crate::toc_repair::rebase_to_absolute;

verus! {

// ---------------------------------------------------------------- dates

/// A date and time as `dcterms:modified` writes it: UTC, to the second, where
/// the text says as much.
pub open spec fn spec_normalize_datetime(text: Seq<char>) -> Seq<char> {
    let s = text::spec_trim(text);
    let b = vstd::utf8::encode_utf8(s);
    if b.len() == 10 && b[4] == 45 && b[7] == 45 {
        s + "T00:00:00Z"@
    } else if b.len() == 19 && b[10] == 84 {
        s + "Z"@
    } else if text::spec_ends(s, "+00:00"@) {
        s.subrange(0, s.len() - 6) + "Z"@
    } else if s.len() == 4 && all_digits(s) {
        s + "-01-01T00:00:00Z"@
    } else {
        s
    }
}

/// Every character is an ASCII digit.
pub open spec fn all_digits(s: Seq<char>) -> bool {
    forall|i: int| 0 <= i < s.len() ==> text::is_ascii_digit(#[trigger] s[i])
}

fn digits_only(s: &[char]) -> (r: bool)
    ensures
        r == all_digits(s@),
{
    let mut i: usize = 0;
    while i < s.len()
        invariant
            i <= s@.len(),
            forall|k: int| 0 <= k < i ==> text::is_ascii_digit(#[trigger] s@[k]),
        decreases s@.len() - i,
    {
        if !ascii_digit(s[i]) {
            return false;
        }
        i = i + 1;
    }
    true
}

/// A date and time as `dcterms:modified` writes it.
pub fn normalize_datetime(text: &[char]) -> (r: Vec<char>)
    ensures
        r@ == spec_normalize_datetime(text@),
{
    let s = trim(text);
    let mut out: Vec<char>;
    proof {
        reveal_strlit("+00:00");
    }
    let b = bytes_of(&string_of(s));
    if b.len() == 10 && b[4] == 45 && b[7] == 45 {
        out = copy(s);
        put_str(&mut out, "T00:00:00Z");
    } else if b.len() == 19 && b[10] == 84 {
        out = copy(s);
        put_str(&mut out, "Z");
    } else if ends_str(s, "+00:00") {
        out = copy(&s[0..s.len() - 6]);
        put_str(&mut out, "Z");
    } else if s.len() == 4 && digits_only(s) {
        out = copy(s);
        put_str(&mut out, "-01-01T00:00:00Z");
    } else {
        out = copy(s);
    }
    out
}

// ---------------------------------------------------------------- elements

/// The text right behind the token `i`, trimmed.
pub open spec fn element_text(t: Seq<char>, v: Seq<Token>, i: int) -> Seq<char> {
    if i + 1 < v.len() {
        match v[i + 1] {
            Token::Text { start, end } => text::spec_trim(t.subrange(start, end)),
            _ => Seq::empty(),
        }
    } else {
        Seq::empty()
    }
}

/// The end of the element of which tokens go on at `i`, `depth` start tags deep.
pub open spec fn element_end(t: Seq<char>, v: Seq<Token>, i: int, depth: int) -> int
    decreases v.len() - i,
{
    if i < 0 || i >= v.len() {
        t.len() as int
    } else {
        match v[i] {
            Token::Tag { end, closing, self_closing, .. } => if closing {
                if depth <= 1 {
                    end
                } else {
                    element_end(t, v, i + 1, depth - 1)
                }
            } else if !self_closing {
                element_end(t, v, i + 1, depth + 1)
            } else if depth == 0 {
                end
            } else {
                element_end(t, v, i + 1, depth)
            },
            _ => element_end(t, v, i + 1, depth),
        }
    }
}

fn element_text_of(t: &[char], v: &Vec<Tok>, i: usize) -> (r: Vec<char>)
    requires
        i < v@.len(),
        markup::toks(v@) == markup::spec_tokens(t@),
    ensures
        r@ == element_text(t@, markup::toks(v@), i as int),
{
    proof {
        markup::tokens_tile_the_text(t@);
        markup::lemma_tiles_bound(markup::spec_tokens(t@), 0, t@.len() as int);
    }
    if i < v.len() - 1 {
        assert(markup::toks(v@)[i + 1] == v@[i + 1]@);
        if let Tok::Text { start, end } = &v[i + 1] {
            return copy(trim(&t[*start..*end]));
        }
    }
    Vec::new()
}

fn element_end_of(t: &[char], v: &Vec<Tok>, a: usize) -> (r: usize)
    requires
        a < v@.len(),
        v@[a as int] is Tag,
        markup::toks(v@) == markup::spec_tokens(t@),
    ensures
        r == element_end(t@, markup::toks(v@), a as int, 0),
        markup::toks(v@)[a as int].end() <= r <= t@.len(),
{
    let ghost ks = markup::spec_tokens(t@);
    proof {
        markup::tokens_tile_the_text(t@);
        markup::lemma_tiles_bound(ks, 0, t@.len() as int);
    }
    let mut depth: usize = 0;
    let mut i: usize = a;
    while i < v.len()
        invariant
            a <= i <= v@.len(),
            ks == markup::spec_tokens(t@),
            markup::toks(v@) == ks,
            markup::tiles(ks, 0, t@.len() as int),
            forall|k: int|
                0 <= k < ks.len() ==> 0 <= (#[trigger] ks[k]).start() && ks[k].end() <= t@.len()
                    && ks[k].start() < ks[k].end(),
            a < ks.len(),
            i > a ==> ks[a as int].end() <= ks[i - 1].end(),
            depth <= i - a,
            element_end(t@, ks, a as int, 0) == element_end(t@, ks, i as int, depth as int),
        decreases v@.len() - i,
    {
        assert(ks[i as int] == v@[i as int]@);
        assert(ks[a as int].end() <= ks[i as int].end()) by {
            if i > a {
                assert(ks[i - 1].end() == ks[i as int].start());
            }
        }
        if let Tok::Tag { end, closing, self_closing, .. } = &v[i] {
            if *closing {
                if depth <= 1 {
                    return *end;
                }
                depth = depth - 1;
            } else if !*self_closing {
                depth = depth + 1;
            } else if depth == 0 {
                return *end;
            }
        }
        i = i + 1;
    }
    t.len()
}

// ---------------------------------------------------------------- one element of the metadata

/// The attributes among the first `n` that carry the `opf:` prefix.
pub open spec fn opf_attrs_to(v: Seq<(Seq<char>, Seq<char>)>, n: int) -> Seq<(Seq<char>, Seq<char>)>
    decreases n,
{
    if n <= 0 {
        Seq::empty()
    } else if text::spec_starts(v[n - 1].0, "opf:"@) {
        opf_attrs_to(v, n - 1).push(v[n - 1])
    } else {
        opf_attrs_to(v, n - 1)
    }
}

/// The attributes of a tag that carry the `opf:` prefix.
pub open spec fn opf_attrs(tag: Seq<char>) -> Seq<(Seq<char>, Seq<char>)> {
    let v = markup::spec_attributes(tag);
    opf_attrs_to(v, v.len() as int)
}

/// The meta elements that say of the element `id` what an `opf:` attribute said.
pub open spec fn refining(local: Seq<char>, id: Seq<char>, a: (Seq<char>, Seq<char>)) -> Seq<
    Seq<char>,
> {
    if a.0 == "opf:role"@ && (local == "creator"@ || local == "contributor"@) {
        seq![
            "<meta refines=\"#"@ + markup::spec_escape_attr(id)
                + "\" property=\"role\" scheme=\"marc:relators\">"@ + markup::spec_escape_text(a.1)
                + "</meta>"@,
        ]
    } else if a.0 == "opf:file-as"@ {
        seq![
            "<meta refines=\"#"@ + markup::spec_escape_attr(id) + "\" property=\"file-as\">"@
                + markup::spec_escape_text(a.1) + "</meta>"@,
        ]
    } else if a.0 == "opf:scheme"@ && local == "identifier"@ {
        seq![
            "<meta refines=\"#"@ + markup::spec_escape_attr(id)
                + "\" property=\"identifier-type\">"@ + markup::spec_escape_text(a.1)
                + "</meta>"@,
        ]
    } else {
        Seq::empty()
    }
}

/// The tag without its first `n` `opf:` attributes.
pub open spec fn bared_to(tag: Seq<char>, v: Seq<(Seq<char>, Seq<char>)>, n: int) -> Seq<char>
    decreases n,
{
    if n <= 0 {
        tag
    } else {
        markup::spec_set_attr(bared_to(tag, v, n - 1), v[n - 1].0, None)
    }
}

/// The meta elements for the first `n` `opf:` attributes of the element `id`.
pub open spec fn refined_to(
    local: Seq<char>,
    id: Option<Seq<char>>,
    v: Seq<(Seq<char>, Seq<char>)>,
    n: int,
) -> Seq<Seq<char>>
    decreases n,
{
    if n <= 0 {
        Seq::empty()
    } else {
        refined_to(local, id, v, n - 1) + match id {
            Some(x) => refining(local, x, v[n - 1]),
            None => Seq::empty(),
        }
    }
}

/// Some `opf:` attribute is not `opf:event`.
pub open spec fn more_than_events(v: Seq<(Seq<char>, Seq<char>)>) -> bool {
    exists|i: int| 0 <= i < v.len() && (#[trigger] v[i]).0 != "opf:event"@
}

/// An element that meta elements refine.
pub open spec fn refinable(local: Seq<char>) -> bool {
    local == "creator"@ || local == "contributor"@ || local == "title"@ || local == "identifier"@
}

fn opf_attrs_of(tag: &str) -> (r: Vec<Attr>)
    ensures
        markup::attrs(r@) == opf_attrs(tag@),
{
    let v = attributes(tag);
    let ghost all = markup::attrs(v@);
    let mut out: Vec<Attr> = Vec::new();
    assert(markup::attrs(out@) =~= Seq::<(Seq<char>, Seq<char>)>::empty());
    let mut i: usize = 0;
    while i < v.len()
        invariant
            i <= v@.len(),
            all == markup::attrs(v@),
            markup::attrs(out@) == opf_attrs_to(all, i as int),
        decreases v@.len() - i,
    {
        assert(all[i as int] == (v@[i as int].name@, v@[i as int].value@));
        if starts_str(&chars_of(&v[i].name), "opf:") {
            let ghost before = markup::attrs(out@);
            out.push(Attr { name: v[i].name.clone(), value: v[i].value.clone() });
            assert(markup::attrs(out@) =~= before.push(all[i as int]));
        }
        i = i + 1;
    }
    assert(all.len() == v@.len());
    out
}

fn refine(out: &mut Vec<Vec<char>>, local: &str, id: &str, name: &str, value: &str)
    ensures
        text::texts(final(out)@) == text::texts(old(out)@) + refining(
            local@,
            id@,
            (name@, value@),
        ),
{
    let ghost before = text::texts(out@);
    let mut meta = chars_of("<meta refines=\"#");
    put_str(&mut meta, &escape_attr(id));
    if str_is(name, "opf:role") && (str_is(local, "creator") || str_is(local, "contributor")) {
        put_str(&mut meta, "\" property=\"role\" scheme=\"marc:relators\">");
    } else if str_is(name, "opf:file-as") {
        put_str(&mut meta, "\" property=\"file-as\">");
    } else if str_is(name, "opf:scheme") && str_is(local, "identifier") {
        put_str(&mut meta, "\" property=\"identifier-type\">");
    } else {
        assert(before + refining(local@, id@, (name@, value@)) =~= before);
        return;
    }
    put_str(&mut meta, &escape_text(value));
    put_str(&mut meta, "</meta>");
    let ghost m = meta@;
    add_text(out, meta);
    assert(text::texts(out@) =~= before + seq![m]);
}

fn bared_of(tag: &str, v: &Vec<Attr>) -> (r: String)
    ensures
        r@ == bared_to(tag@, markup::attrs(v@), v@.len() as int),
{
    let ghost all = markup::attrs(v@);
    let mut out = string_of(&chars_of(tag));
    let mut i: usize = 0;
    while i < v.len()
        invariant
            i <= v@.len(),
            all == markup::attrs(v@),
            out@ == bared_to(tag@, all, i as int),
        decreases v@.len() - i,
    {
        assert(all[i as int] == (v@[i as int].name@, v@[i as int].value@));
        out = set_attr(&out, &v[i].name, None);
        i = i + 1;
    }
    out
}

fn refine_all(out: &mut Vec<Vec<char>>, local: &str, id: &Option<String>, v: &Vec<Attr>)
    ensures
        text::texts(final(out)@) == text::texts(old(out)@) + refined_to(
            local@,
            text::opt_str(*id),
            markup::attrs(v@),
            v@.len() as int,
        ),
{
    let ghost all = markup::attrs(v@);
    let ghost first = text::texts(out@);
    let mut i: usize = 0;
    assert(first + refined_to(local@, text::opt_str(*id), all, 0) =~= first);
    while i < v.len()
        invariant
            i <= v@.len(),
            all == markup::attrs(v@),
            text::texts(out@) == first + refined_to(local@, text::opt_str(*id), all, i as int),
        decreases v@.len() - i,
    {
        assert(all[i as int] == (v@[i as int].name@, v@[i as int].value@));
        let ghost so_far = refined_to(local@, text::opt_str(*id), all, i as int);
        match id {
            Some(x) => {
                refine(out, local, x, &v[i].name, &v[i].value);
                let ghost more = refining(local@, x@, all[i as int]);
                assert((first + so_far) + more =~= first + (so_far + more));
            },
            None => {
                assert(first + (so_far + Seq::<Seq<char>>::empty()) =~= first + so_far);
            },
        }
        i = i + 1;
    }
}

fn has_more_than_events(v: &Vec<Attr>) -> (r: bool)
    ensures
        r == more_than_events(markup::attrs(v@)),
{
    let ghost all = markup::attrs(v@);
    let mut i: usize = 0;
    while i < v.len()
        invariant
            i <= v@.len(),
            all == markup::attrs(v@),
            forall|k: int| 0 <= k < i ==> (#[trigger] all[k]).0 == "opf:event"@,
        decreases v@.len() - i,
    {
        assert(all[i as int] == (v@[i as int].name@, v@[i as int].value@));
        if !str_is(&v[i].name, "opf:event") {
            return true;
        }
        i = i + 1;
    }
    false
}

// ---------------------------------------------------------------- the metadata

/// The metadata in the course of its upgrade: what is written and up to where
/// the source is dealt with, from where on tags count again, the meta elements
/// to add, the date of modification, the cover's id, the identifier's value and
/// the first identifier's id, how many dates were met and how many attributes
/// dropped, the ids in use, and the notes.
#[verifier::ext_equal]
pub struct Work {
    pub out: Seq<char>,
    pub pos: int,
    pub skip: int,
    pub refines: Seq<Seq<char>>,
    pub modified: Option<Seq<char>>,
    pub cover: Option<Seq<char>>,
    pub uid: Option<Seq<char>>,
    pub first_id: Option<Seq<char>>,
    pub dates: int,
    pub dropped: int,
    pub ids: Seq<Seq<char>>,
    pub notes: Seq<Seq<char>>,
}

/// The element of the token `i`, which starts at `start`, is left out.
pub open spec fn left_out(t: Seq<char>, v: Seq<Token>, i: int, start: int, s: Work) -> Work {
    let end = element_end(t, v, i, 0);
    Work { out: s.out + t.subrange(s.pos, start), pos: end, skip: end, ..s }
}

/// An identifier is met: the first of them gives the package its own.
pub open spec fn identified(s: Work, local: Seq<char>, id: Option<Seq<char>>, text: Seq<char>) -> Work {
    if local == "identifier"@ && s.first_id is None {
        Work {
            first_id: id,
            uid: if s.uid is None {
                Some(text)
            } else {
                s.uid
            },
            ..s
        }
    } else {
        s
    }
}

/// An element stays: its `opf:` attributes become meta elements that refine it.
pub open spec fn kept(t: Seq<char>, v: Seq<Token>, i: int, s: Work) -> Work {
    match v[i] {
        Token::Tag { start, end, name, self_closing, .. } => {
            let tag = t.subrange(start, end);
            let local = opf::spec_local(name);
            let text = element_text(t, v, i);
            let own = markup::spec_attr_value(tag, "id"@);
            let a = opf_attrs(tag);
            if a.len() == 0 {
                identified(s, local, own, text)
            } else {
                let needs = refinable(local) && more_than_events(a) && own is None;
                let fresh = fresh::spec_counted(s.ids, local);
                let id = if needs {
                    Some(fresh)
                } else {
                    own
                };
                let base = if needs {
                    markup::spec_set_attr(tag, "id"@, Some(fresh))
                } else {
                    tag
                };
                let new_tag = bared_to(base, a, a.len() as int);
                let s2 = identified(
                    Work {
                        ids: if needs {
                            s.ids.push(fresh)
                        } else {
                            s.ids
                        },
                        dropped: s.dropped + a.len(),
                        refines: s.refines + refined_to(local, id, a, a.len() as int),
                        ..s
                    },
                    local,
                    id,
                    text,
                );
                if self_closing || new_tag != tag {
                    Work { out: s2.out + t.subrange(s2.pos, start) + new_tag, pos: end, ..s2 }
                } else {
                    s2
                }
            }
        },
        _ => s,
    }
}

/// The metadata once the token `i`, a date, is met. A date of modification
/// becomes `dcterms:modified`, and of other dates only the first stays.
pub open spec fn date_met(
    t: Seq<char>,
    v: Seq<Token>,
    i: int,
    has_modified: bool,
    start: int,
    tag: Seq<char>,
    s: Work,
) -> Work {
    if markup::spec_attr_value(tag, "opf:event"@) == Some("modification"@) {
        let modified = if !has_modified && s.modified is None {
            Some(spec_normalize_datetime(element_text(t, v, i)))
        } else {
            s.modified
        };
        left_out(t, v, i, start, Work { modified, ..s })
    } else if s.dates >= 1 {
        let note = "a second dc:date ("@ + element_text(t, v, i) + ") dropped"@;
        left_out(
            t,
            v,
            i,
            start,
            Work { dates: s.dates + 1, notes: s.notes.push(note), ..s },
        )
    } else {
        kept(t, v, i, Work { dates: s.dates + 1, ..s })
    }
}

/// The metadata once the token `i` is met.
pub open spec fn met(t: Seq<char>, v: Seq<Token>, i: int, has_modified: bool, s: Work) -> Work {
    match v[i] {
        Token::Tag { start, end, name, closing, .. } if start >= s.skip && !closing => {
            let tag = t.subrange(start, end);
            let local = opf::spec_local(name);
            if local == "meta"@ && markup::spec_attr_value(tag, "name"@) == Some("cover"@) {
                Work { cover: markup::spec_attr_value(tag, "content"@), ..s }
            } else if local == "date"@ {
                date_met(t, v, i, has_modified, start, tag, s)
            } else {
                kept(t, v, i, s)
            }
        },
        _ => s,
    }
}

/// The metadata once the first `n` tokens are met.
pub open spec fn met_to(
    t: Seq<char>,
    v: Seq<Token>,
    has_modified: bool,
    s: Work,
    n: int,
) -> Work
    decreases n,
{
    if n <= 0 {
        s
    } else {
        met(t, v, n - 1, has_modified, met_to(t, v, has_modified, s, n - 1))
    }
}

struct MetaWork {
    out: Vec<char>,
    pos: usize,
    skip: usize,
    refines: Vec<Vec<char>>,
    modified: Option<Vec<char>>,
    cover: Option<String>,
    uid: Option<String>,
    first_id: Option<String>,
    dates: usize,
    dropped: u128,
    ids: Vec<String>,
    notes: Vec<String>,
}

impl MetaWork {
    spec fn says(self) -> Work {
        Work {
            out: self.out@,
            pos: self.pos as int,
            skip: self.skip as int,
            refines: text::texts(self.refines@),
            modified: text::opt_text(self.modified),
            cover: text::opt_str(self.cover),
            uid: text::opt_str(self.uid),
            first_id: text::opt_str(self.first_id),
            dates: self.dates as int,
            dropped: self.dropped as int,
            ids: text::strs(self.ids@),
            notes: text::strs(self.notes@),
        }
    }

    fn leave_out(&mut self, t: &[char], v: &Vec<Tok>, i: usize, start: usize)
        requires
            i < v@.len(),
            v@[i as int] is Tag,
            markup::toks(v@) == markup::spec_tokens(t@),
            old(self).pos <= start <= t@.len(),
        ensures
            final(self).says() == left_out(
                t@,
                markup::toks(v@),
                i as int,
                start as int,
                old(self).says(),
            ),
            final(self).pos <= t@.len(),
    {
        let end = element_end_of(t, v, i);
        put(&mut self.out, &t[self.pos..start]);
        self.pos = end;
        self.skip = end;
        assert(self.says() =~= left_out(
            t@,
            markup::toks(v@),
            i as int,
            start as int,
            old(self).says(),
        ));
    }

    fn identify(&mut self, local: &str, id: &Option<String>, text: &[char])
        ensures
            final(self).says() == identified(
                old(self).says(),
                local@,
                text::opt_str(*id),
                text@,
            ),
            final(self).pos == old(self).pos,
    {
        if str_is(local, "identifier") && self.first_id.is_none() {
            self.first_id = match id {
                Some(x) => Some(x.clone()),
                None => None,
            };
            if self.uid.is_none() {
                self.uid = Some(string_of(text));
            }
        }
        assert(self.says() =~= identified(old(self).says(), local@, text::opt_str(*id), text@));
    }

    fn keep(&mut self, t: &[char], v: &Vec<Tok>, i: usize)
        requires
            i < v@.len(),
            markup::toks(v@) == markup::spec_tokens(t@),
            old(self).pos <= markup::toks(v@)[i as int].start(),
            old(self).dropped <= i * (usize::MAX as int),
        ensures
            final(self).says() == kept(t@, markup::toks(v@), i as int, old(self).says()),
            final(self).pos == old(self).pos || final(self).pos == markup::toks(
                v@,
            )[i as int].end(),
            final(self).dropped <= (i + 1) * (usize::MAX as int),
    {
        let ghost ks = markup::spec_tokens(t@);
        let n = v.len();
        proof {
            assert(i < n);
            markup::tokens_tile_the_text(t@);
            markup::lemma_tiles_bound(ks, 0, t@.len() as int);
            assert(ks[i as int] == v@[i as int]@);
            text::lemma_count(i as int, self.dropped as int, 0);
        }
        if let Tok::Tag { start, end, name, self_closing, .. } = &v[i] {
            let tag = string_of(&t[*start..*end]);
            let local_name = local(name);
            let text = element_text_of(t, v, i);
            let own = attr_value(&tag, "id");
            let a = opf_attrs_of(&tag);
            assert(markup::attrs(a@).len() == a@.len());
            if a.len() == 0 {
                self.identify(&local_name, &own, &text);
                return;
            }
            let can = str_is(&local_name, "creator") || str_is(&local_name, "contributor")
                || str_is(&local_name, "title") || str_is(&local_name, "identifier");
            let needs = can && has_more_than_events(&a) && own.is_none();
            let mut id = own;
            let mut base = string_of(&chars_of(&tag));
            if needs {
                let fresh = string_of(&counted(&self.ids, &chars_of(&local_name)));
                base = set_attr(&tag, "id", Some(&fresh));
                id = Some(fresh.clone());
                add_str(&mut self.ids, fresh);
            }
            let new_tag = bared_of(&base, &a);
            proof {
                text::lemma_count(i as int, self.dropped as int, a@.len() as int);
            }
            self.dropped = self.dropped + a.len() as u128;
            refine_all(&mut self.refines, &local_name, &id, &a);
            self.identify(&local_name, &id, &text);
            if *self_closing || !str_is(&new_tag, &tag) {
                put(&mut self.out, &t[self.pos..*start]);
                put_str(&mut self.out, &new_tag);
                self.pos = *end;
            }
        }
    }

    fn meet_date(
        &mut self,
        t: &[char],
        v: &Vec<Tok>,
        i: usize,
        has_modified: bool,
        start: usize,
        tag: &str,
    )
        requires
            i < v@.len(),
            v@[i as int] is Tag,
            markup::toks(v@) == markup::spec_tokens(t@),
            start == markup::toks(v@)[i as int].start(),
            old(self).pos <= start <= t@.len(),
            old(self).dropped <= i * (usize::MAX as int),
            old(self).dates <= i,
        ensures
            final(self).says() == date_met(
                t@,
                markup::toks(v@),
                i as int,
                has_modified,
                start as int,
                tag@,
                old(self).says(),
            ),
            final(self).pos <= markup::toks(v@)[i as int].end() || final(self).pos
                <= final(self).skip,
            final(self).dropped <= (i + 1) * (usize::MAX as int),
            final(self).dates <= i + 1,
            final(self).pos <= t@.len(),
    {
        let ghost ks = markup::spec_tokens(t@);
        let ghost first = self.says();
        let n = v.len();
        proof {
            assert(i < n);
            markup::tokens_tile_the_text(t@);
            markup::lemma_tiles_bound(ks, 0, t@.len() as int);
            text::lemma_count(i as int, self.dropped as int, 0);
        }
        if attr_is(tag, "opf:event", "modification") {
            if !has_modified && self.modified.is_none() {
                self.modified = Some(normalize_datetime(&element_text_of(t, v, i)));
            }
            self.leave_out(t, v, i, start);
        } else if self.dates >= 1 {
            self.dates = self.dates + 1;
            let mut note = chars_of("a second dc:date (");
            put(&mut note, &element_text_of(t, v, i));
            put_str(&mut note, ") dropped");
            add_str(&mut self.notes, string_of(&note));
            self.leave_out(t, v, i, start);
        } else {
            self.dates = self.dates + 1;
            assert(self.says() =~= (Work { dates: first.dates + 1, ..first }));
            self.keep(t, v, i);
        }
    }

    fn meet(&mut self, t: &[char], v: &Vec<Tok>, i: usize, has_modified: bool)
        requires
            i < v@.len(),
            markup::toks(v@) == markup::spec_tokens(t@),
            old(self).pos <= markup::toks(v@)[i as int].start() || old(self).pos <= old(self).skip,
            old(self).dropped <= i * (usize::MAX as int),
            old(self).dates <= i,
            old(self).pos <= t@.len(),
        ensures
            final(self).says() == met(
                t@,
                markup::toks(v@),
                i as int,
                has_modified,
                old(self).says(),
            ),
            final(self).pos <= markup::toks(v@)[i as int].end() || final(self).pos
                <= final(self).skip,
            final(self).dropped <= (i + 1) * (usize::MAX as int),
            final(self).dates <= i + 1,
            final(self).pos <= t@.len(),
    {
        let ghost ks = markup::spec_tokens(t@);
        let ghost first = self.says();
        let n = v.len();
        proof {
            assert(i < n);
            markup::tokens_tile_the_text(t@);
            markup::lemma_tiles_bound(ks, 0, t@.len() as int);
            assert(ks[i as int] == v@[i as int]@);
            text::lemma_count(i as int, self.dropped as int, 0);
        }
        if let Tok::Tag { start, end, name, closing, .. } = &v[i] {
            if *start >= self.skip && !*closing {
                let tag = string_of(&t[*start..*end]);
                let local_name = local(name);
                if str_is(&local_name, "meta") && attr_is(&tag, "name", "cover") {
                    self.cover = attr_value(&tag, "content");
                } else if str_is(&local_name, "date") {
                    self.meet_date(t, v, i, has_modified, *start, &tag);
                } else {
                    self.keep(t, v, i);
                }
            }
        }
    }
}

/// The attribute has the value.
fn attr_is(tag: &str, name: &str, value: &str) -> (r: bool)
    ensures
        r == (markup::spec_attr_value(tag@, name@) == Some(value@)),
{
    match attr_value(tag, name) {
        Some(x) => str_is(&x, value),
        None => false,
    }
}

/// The end of the run of spaces and tabs from `i` on.
pub open spec fn blanks_end(s: Seq<char>, i: int) -> int
    decreases s.len() - i,
{
    if 0 <= i < s.len() && (s[i] == ' ' || s[i] == '\t') {
        blanks_end(s, i + 1)
    } else {
        i
    }
}

/// The indentation of the last line of a text that is indented, else four
/// spaces.
pub open spec fn last_indent(t: Seq<char>) -> Seq<char> {
    match text::spec_rfind_char(t, '\n', t.len() as int) {
        Some(k) if blanks_end(t, k + 1) > k + 1 => t.subrange(k + 1, blanks_end(t, k + 1)),
        _ => "    "@,
    }
}

/// The first `n` lines, each indented.
pub open spec fn lines_to(v: Seq<Seq<char>>, indent: Seq<char>, n: int) -> Seq<char>
    decreases n,
{
    if n <= 0 {
        Seq::empty()
    } else {
        lines_to(v, indent, n - 1) + indent + v[n - 1] + "\n"@
    }
}

/// `out` with the meta elements behind it, each on a line of its own, and the
/// indentation of the end tag.
pub open spec fn with_lines(out: Seq<char>, v: Seq<Seq<char>>, indent: Seq<char>) -> Seq<char> {
    let base = pretty::without_blanks(out);
    let start = if text::spec_ends(base, "\n"@) {
        base
    } else {
        base + "\n"@
    };
    let close = if indent.len() < 2 {
        Seq::empty()
    } else {
        indent.subrange(2, indent.len() as int)
    };
    start + lines_to(v, indent, v.len() as int) + close
}

fn last_indent_of(t: &[char]) -> (r: Vec<char>)
    ensures
        r@ == last_indent(t@),
{
    if let Some(k) = rfind_char(t, '\n', t.len()) {
        let mut i: usize = k + 1;
        while i < t.len() && (t[i] == ' ' || t[i] == '\t')
            invariant
                k + 1 <= i <= t@.len(),
                blanks_end(t@, k + 1) == blanks_end(t@, i as int),
            decreases t@.len() - i,
        {
            i = i + 1;
        }
        if i > k + 1 {
            return copy(&t[k + 1..i]);
        }
    }
    chars_of("    ")
}

fn drop_blanks(out: &mut Vec<char>)
    ensures
        final(out)@ == pretty::without_blanks(old(out)@),
{
    loop
        invariant
            pretty::without_blanks(old(out)@) == pretty::without_blanks(out@),
        decreases out@.len(),
    {
        let n = out.len();
        if n == 0 || !(out[n - 1] == ' ' || out[n - 1] == '\t') {
            return;
        }
        let ghost before = out@;
        out.pop();
        assert(out@ =~= before.drop_last());
    }
}

fn put_lines(out: &mut Vec<char>, v: &Vec<Vec<char>>, indent: &[char])
    ensures
        final(out)@ == with_lines(old(out)@, text::texts(v@), indent@),
{
    drop_blanks(out);
    if !ends_str(out, "\n") {
        put_str(out, "\n");
    }
    let ghost start = out@;
    let ghost all = text::texts(v@);
    let mut i: usize = 0;
    while i < v.len()
        invariant
            i <= v@.len(),
            all == text::texts(v@),
            out@ == start + lines_to(all, indent@, i as int),
        decreases v@.len() - i,
    {
        assert(all[i as int] == v@[i as int]@);
        let ghost so_far = lines_to(all, indent@, i as int);
        put(out, indent);
        put(out, &v[i]);
        put_str(out, "\n");
        assert(out@ =~= start + (so_far + indent@ + all[i as int] + "\n"@));
        i = i + 1;
    }
    assert(all.len() == v@.len());
    if indent.len() >= 2 {
        put(out, &indent[2..indent.len()]);
    } else {
        assert(out@ =~= out@ + Seq::<char>::empty());
    }
}

// ---------------------------------------------------------------- the package's identifier

/// The first start tag among the tokens from `i` on with the name.
pub open spec fn tag_named(t: Seq<char>, v: Seq<Token>, name: Seq<char>, i: int) -> Option<Seq<char>>
    decreases v.len() - i,
{
    if i < 0 || i >= v.len() {
        None
    } else if markup::start_tag(v[i]) && markup::tag_name(v[i]) == name {
        Some(t.subrange(v[i].start(), v[i].end()))
    } else {
        tag_named(t, v, name, i + 1)
    }
}

/// The start tag of the package, empty where there is none.
pub open spec fn spec_package_tag(t: Seq<char>) -> Seq<char> {
    opf::or_empty(tag_named(t, markup::spec_tokens(t), "package"@, 0))
}

fn package_tag(t: &[char]) -> (r: String)
    ensures
        r@ == spec_package_tag(t@),
{
    let v = tokens_of(t);
    let ghost ks = markup::spec_tokens(t@);
    proof {
        markup::tokens_tile_the_text(t@);
        markup::lemma_tiles_bound(ks, 0, t@.len() as int);
    }
    let mut i: usize = 0;
    while i < v.len()
        invariant
            i <= v@.len(),
            ks == markup::spec_tokens(t@),
            markup::toks(v@) == ks,
            forall|k: int|
                0 <= k < ks.len() ==> 0 <= (#[trigger] ks[k]).start() && ks[k].end() <= t@.len()
                    && ks[k].start() < ks[k].end(),
            tag_named(t@, ks, "package"@, 0) == tag_named(t@, ks, "package"@, i as int),
        decreases v@.len() - i,
    {
        assert(ks[i as int] == v@[i as int]@);
        if let Tok::Tag { start, end, name, closing, .. } = &v[i] {
            if !*closing && str_is(name, "package") {
                return string_of(&t[*start..*end]);
            }
        }
        i = i + 1;
    }
    string_of(&Vec::new())
}

/// What naming the package's identifier makes of a tag.
pub open spec fn unique_edit(id: Seq<char>, name: Seq<char>, tag: Seq<char>) -> Option<Seq<char>> {
    if name == "package"@ {
        Some(markup::spec_set_attr(tag, "unique-identifier"@, Some(id)))
    } else {
        None
    }
}

/// The package document with the package's identifier named.
pub open spec fn unique_set(t: Seq<char>, id: Seq<char>) -> Seq<char> {
    markup::spec_rewrite_tags(|name: Seq<char>, tag: Seq<char>| unique_edit(id, name, tag), t)
}

struct SetUnique<'a> {
    id: &'a str,
}

impl<'a> TagEdit for SetUnique<'a> {
    closed spec fn edited(&self, name: Seq<char>, tag: Seq<char>) -> Option<Seq<char>> {
        unique_edit(self.id@, name, tag)
    }

    fn edit(&self, name: &str, tag: &str) -> (r: Option<String>) {
        if str_is(name, "package") {
            Some(set_attr(tag, "unique-identifier", Some(self.id)))
        } else {
            None
        }
    }
}

fn set_unique(text: &str, id: &str) -> (r: String)
    ensures
        r@ == unique_set(text@, id@),
{
    let e = SetUnique { id };
    assert(markup::edit_fn(&e) =~= (|name: Seq<char>, tag: Seq<char>|
        unique_edit(id@, name, tag)));
    rewrite_tags(text, &e)
}

/// The package document with its identifier named, where it is not: the first
/// identifier with an id, else the first of all, which gets one.
pub open spec fn with_identifier(t: Seq<char>, first_id: Option<Seq<char>>) -> Seq<char> {
    if markup::spec_attr_value(spec_package_tag(t), "unique-identifier"@) is Some {
        t
    } else {
        match (first_id, text::spec_find(t, "<dc:identifier"@, 0)) {
            (Some(id), _) => unique_set(t, id),
            (None, Some(k)) => unique_set(
                t.subrange(0, k) + "<dc:identifier id=\"pub-id\""@ + t.subrange(
                    k + 14,
                    t.len() as int,
                ),
                "pub-id"@,
            ),
            (None, None) => t,
        }
    }
}

fn name_identifier(t: Vec<char>, first_id: &Option<String>) -> (r: String)
    ensures
        r@ == with_identifier(t@, text::opt_str(*first_id)),
{
    if attr_value(&package_tag(&t), "unique-identifier").is_some() {
        return string_of(&t);
    }
    match first_id {
        Some(id) => set_unique(&string_of(&t), id),
        None => match find_str(&t, "<dc:identifier", 0) {
            Some(k) => {
                proof {
                    reveal_strlit("<dc:identifier");
                }
                let mut out = copy(&t[0..k]);
                put_str(&mut out, "<dc:identifier id=\"pub-id\"");
                put(&mut out, &t[k + 14..t.len()]);
                set_unique(&string_of(&out), "pub-id")
            },
            None => string_of(&t),
        },
    }
}

// ---------------------------------------------------------------- the metadata as a whole

/// What the upgrade of the metadata gives: the package document, the
/// identifier's value, the cover's id, and notes.
#[verifier::ext_equal]
pub struct Upgraded {
    pub text: Seq<char>,
    pub uid: Option<Seq<char>>,
    pub cover: Option<Seq<char>>,
    pub notes: Seq<Seq<char>>,
}

/// The work before any element is met.
pub open spec fn work_begun(t: Seq<char>, uid: Option<Seq<char>>) -> Work {
    Work {
        out: Seq::empty(),
        pos: 0,
        skip: 0,
        refines: Seq::empty(),
        modified: None,
        cover: None,
        uid,
        first_id: None,
        dates: 0,
        dropped: 0,
        ids: split_doc::spec_ids_in(t),
        notes: Seq::empty(),
    }
}

/// The work once every element of the metadata, from `a` to `b`, is met.
pub open spec fn work_done(t: Seq<char>, uid: Option<Seq<char>>, a: int, b: int) -> Work {
    let region = t.subrange(a, b);
    let v = markup::spec_tokens(region);
    met_to(
        region,
        v,
        text::spec_contains(region, "dcterms:modified"@),
        work_begun(t, uid),
        v.len() as int,
    )
}

/// The meta elements that the upgrade adds: those that refine, and
/// `dcterms:modified` where it is missing, `now` where no date was given.
pub open spec fn metas_added(s: Work, has_modified: bool, now: Seq<char>) -> Seq<Seq<char>> {
    if has_modified {
        s.refines
    } else {
        s.refines.push(
            "<meta property=\"dcterms:modified\">"@ + match s.modified {
                Some(m) => m,
                None => now,
            } + "</meta>"@,
        )
    }
}

/// What the upgrade of the metadata from `a` to `b` gives.
pub open spec fn metadata_upgraded(
    t: Seq<char>,
    uid: Option<Seq<char>>,
    now: Seq<char>,
    a: int,
    b: int,
) -> Upgraded {
    let region = t.subrange(a, b);
    let s = work_done(t, uid, a, b);
    let out = with_lines(
        s.out + region.subrange(s.pos, region.len() as int),
        metas_added(s, text::spec_contains(region, "dcterms:modified"@), now),
        last_indent(region),
    );
    Upgraded {
        text: with_identifier(t.subrange(0, a) + out + t.subrange(b, t.len() as int), s.first_id),
        uid: s.uid,
        cover: s.cover,
        notes: if s.dropped > 0 {
            s.notes.push(
                text::decimal(s.dropped as nat)
                    + " opf: attribute(s) rewritten as refining meta elements"@,
            )
        } else {
            s.notes
        },
    }
}

/// What the upgrade of the metadata gives.
pub open spec fn spec_upgrade_metadata(t: Seq<char>, uid: Option<Seq<char>>, now: Seq<char>) -> Upgraded {
    match text::spec_find(t, "<metadata"@, 0) {
        None => Upgraded { text: t, uid, cover: None, notes: Seq::empty() },
        Some(a) => match text::spec_find(t, "</metadata>"@, a) {
            None => Upgraded { text: t, uid, cover: None, notes: Seq::empty() },
            Some(b) => metadata_upgraded(t, uid, now, a, b),
        },
    }
}

struct Metadata3 {
    text: String,
    uid: Option<String>,
    cover: Option<String>,
    notes: Vec<String>,
}

impl Metadata3 {
    spec fn says(self) -> Upgraded {
        Upgraded {
            text: self.text@,
            uid: text::opt_str(self.uid),
            cover: text::opt_str(self.cover),
            notes: text::strs(self.notes@),
        }
    }
}

fn do_work(t: &[char], uid: Option<String>, a: usize, b: usize, has_modified: bool) -> (r: MetaWork)
    requires
        a <= b <= t@.len(),
        has_modified == text::spec_contains(
            t@.subrange(a as int, b as int),
            "dcterms:modified"@,
        ),
    ensures
        r.says() == work_done(t@, text::opt_str(uid), a as int, b as int),
        r.pos <= b - a,
{
    let region = &t[a..b];
    let v = tokens_of(region);
    let ghost ks = markup::spec_tokens(region@);
    proof {
        markup::tokens_tile_the_text(region@);
        markup::lemma_tiles_bound(ks, 0, region@.len() as int);
    }
    let mut w = MetaWork {
        out: Vec::new(),
        pos: 0,
        skip: 0,
        refines: Vec::new(),
        modified: None,
        cover: None,
        uid,
        first_id: None,
        dates: 0,
        dropped: 0,
        ids: strings_of(&ids_in(t)),
        notes: Vec::new(),
    };
    let ghost begun = work_begun(t@, text::opt_str(uid));
    assert(w.says() =~= begun);
    let mut i: usize = 0;
    while i < v.len()
        invariant
            i <= v@.len(),
            ks == markup::spec_tokens(region@),
            markup::toks(v@) == ks,
            markup::tiles(ks, 0, region@.len() as int),
            w.says() == met_to(region@, ks, has_modified, begun, i as int),
            w.pos <= w.skip || (i == 0 && w.pos == 0) || (i > 0 && w.pos <= ks[i - 1].end()),
            w.pos <= region@.len(),
            w.dropped <= i * (usize::MAX as int),
            w.dates <= i,
        decreases v@.len() - i,
    {
        proof {
            if i > 0 {
                assert(ks[i - 1].end() == ks[i as int].start());
            } else {
                assert(ks[0].start() == 0);
            }
        }
        w.meet(region, &v, i, has_modified);
        i = i + 1;
    }
    w
}

fn upgrade_metadata(opf: &str, uid: Option<String>, now: &str) -> (r: Metadata3)
    ensures
        r.says() == spec_upgrade_metadata(opf@, text::opt_str(uid), now@),
{
    let t = chars_of(opf);
    let a = match find_str(&t, "<metadata", 0) {
        Some(a) => a,
        None => {
            let r = Metadata3 { text: string_of(&t), uid, cover: None, notes: Vec::new() };
            assert(r.notes@.len() == 0);
            assert(text::strs(r.notes@) =~= Seq::<Seq<char>>::empty());
            return r;
        },
    };
    let b = match find_str(&t, "</metadata>", a) {
        Some(b) => b,
        None => {
            let r = Metadata3 { text: string_of(&t), uid, cover: None, notes: Vec::new() };
            assert(text::strs(r.notes@) =~= Seq::<Seq<char>>::empty());
            return r;
        },
    };
    let region = &t[a..b];
    let has_modified = has_str(region, "dcterms:modified");
    let mut w = do_work(&t, uid, a, b, has_modified);
    let ghost s = w.says();
    let mut out: Vec<char> = Vec::new();
    put(&mut out, &w.out);
    put(&mut out, &region[w.pos..region.len()]);
    assert(out@ =~= s.out + region@.subrange(s.pos, region@.len() as int));
    if w.dropped > 0 {
        let mut note = decimal_of_sum(w.dropped);
        put_str(&mut note, " opf: attribute(s) rewritten as refining meta elements");
        add_str(&mut w.notes, string_of(&note));
    }
    if !has_modified {
        let mut meta = chars_of("<meta property=\"dcterms:modified\">");
        match &w.modified {
            Some(m) => {
                put(&mut meta, m);
            },
            None => {
                put_str(&mut meta, now);
            },
        }
        put_str(&mut meta, "</meta>");
        add_text(&mut w.refines, meta);
    }
    assert(text::texts(w.refines@) == metas_added(s, has_modified, now@));
    put_lines(&mut out, &w.refines, &last_indent_of(region));
    let mut all = copy(&t[0..a]);
    put(&mut all, &out);
    put(&mut all, &t[b..t.len()]);
    let text = name_identifier(all, &w.first_id);
    Metadata3 { text, uid: w.uid, cover: w.cover, notes: w.notes }
}

// ---------------------------------------------------------------- the package's version

/// What the new version makes of a tag.
pub open spec fn version_edit(name: Seq<char>, tag: Seq<char>) -> Option<Seq<char>> {
    if name == "package"@ {
        let out = markup::spec_set_attr(tag, "version"@, Some("3.0"@));
        if markup::spec_attr_value(out, "unique-identifier"@) is None {
            Some(markup::spec_set_attr(out, "unique-identifier"@, Some("pub-id"@)))
        } else {
            Some(out)
        }
    } else {
        None
    }
}

/// The package document with the new version.
pub open spec fn version_set(t: Seq<char>) -> Seq<char> {
    markup::spec_rewrite_tags(|name: Seq<char>, tag: Seq<char>| version_edit(name, tag), t)
}

struct SetVersion {}

impl TagEdit for SetVersion {
    closed spec fn edited(&self, name: Seq<char>, tag: Seq<char>) -> Option<Seq<char>> {
        version_edit(name, tag)
    }

    fn edit(&self, name: &str, tag: &str) -> (r: Option<String>) {
        if !str_is(name, "package") {
            return None;
        }
        let out = set_attr(tag, "version", Some("3.0"));
        if attr_value(&out, "unique-identifier").is_none() {
            Some(set_attr(&out, "unique-identifier", Some("pub-id")))
        } else {
            Some(out)
        }
    }
}

fn set_version(text: &str) -> (r: String)
    ensures
        r@ == version_set(text@),
{
    let e = SetVersion {  };
    assert(markup::edit_fn(&e) =~= (|name: Seq<char>, tag: Seq<char>| version_edit(name, tag)));
    rewrite_tags(text, &e)
}

// ---------------------------------------------------------------- manifest properties

/// The tag of the item with the id, among the tokens from `i` on.
pub open spec fn item_tag_from(t: Seq<char>, v: Seq<Token>, id: Seq<char>, i: int) -> Option<Seq<char>>
    decreases v.len() - i,
{
    if i < 0 || i >= v.len() {
        None
    } else {
        let tag = t.subrange(v[i].start(), v[i].end());
        if markup::start_tag(v[i]) && markup::tag_name(v[i]) == "item"@ && markup::spec_attr_value(
            tag,
            "id"@,
        ) == Some(id) {
            Some(tag)
        } else {
            item_tag_from(t, v, id, i + 1)
        }
    }
}

/// The properties of the item with the id.
pub open spec fn spec_item_properties(t: Seq<char>, id: Seq<char>) -> Seq<Seq<char>> {
    match item_tag_from(t, markup::spec_tokens(t), id, 0) {
        Some(tag) => match markup::spec_attr_value(tag, "properties"@) {
            Some(p) => text::spec_words(p),
            None => Seq::empty(),
        },
        None => Seq::empty(),
    }
}

fn item_properties(text: &str, id: &str) -> (r: Vec<Vec<char>>)
    ensures
        text::texts(r@) == spec_item_properties(text@, id@),
{
    let t = chars_of(text);
    let v = tokens_of(&t);
    let ghost ks = markup::spec_tokens(t@);
    proof {
        markup::tokens_tile_the_text(t@);
        markup::lemma_tiles_bound(ks, 0, t@.len() as int);
    }
    let mut i: usize = 0;
    while i < v.len()
        invariant
            i <= v@.len(),
            t@ == text@,
            ks == markup::spec_tokens(t@),
            markup::toks(v@) == ks,
            forall|k: int|
                0 <= k < ks.len() ==> 0 <= (#[trigger] ks[k]).start() && ks[k].end() <= t@.len()
                    && ks[k].start() < ks[k].end(),
            item_tag_from(t@, ks, id@, 0) == item_tag_from(t@, ks, id@, i as int),
        decreases v@.len() - i,
    {
        assert(ks[i as int] == v@[i as int]@);
        if let Tok::Tag { start, end, name, closing, .. } = &v[i] {
            if !*closing && str_is(name, "item") {
                let tag = string_of(&t[*start..*end]);
                if attr_is(&tag, "id", id) {
                    return match attr_value(&tag, "properties") {
                        Some(p) => words(&chars_of(&p)),
                        None => {
                            let none: Vec<Vec<char>> = Vec::new();
                            assert(text::texts(none@) =~= Seq::<Seq<char>>::empty());
                            none
                        },
                    };
                }
            }
        }
        i = i + 1;
    }
    let none: Vec<Vec<char>> = Vec::new();
    assert(text::texts(none@) =~= Seq::<Seq<char>>::empty());
    none
}

/// The properties that a listed member needs: those of its content, and that of
/// the cover.
pub open spec fn needed(m: Listed, content: Seq<char>, cover: Option<Seq<char>>) -> Seq<Seq<char>> {
    (if m.role == MemberRole::Text || m.role == MemberRole::Nav {
        markup::spec_content_properties(content)
    } else {
        Seq::empty()
    }) + markup::only_if(cover is Some && cover == m.id && m.role == MemberRole::Image, "cover-image"@)
}

/// The package document once the listed members from `i` on have the properties
/// they need, and how many of those were declared anew.
pub open spec fn declared_from(
    p: Seq<Part>,
    v: Seq<Listed>,
    cover: Option<Seq<char>>,
    t: Seq<char>,
    count: int,
    i: int,
) -> Result<(Seq<char>, int), Fault>
    decreases v.len() - i,
{
    if i < 0 || i >= v.len() {
        Ok((t, count))
    } else {
        match v[i].id {
            None => declared_from(p, v, cover, t, count, i + 1),
            Some(id) => {
                let reads = v[i].role == MemberRole::Text || v[i].role == MemberRole::Nav;
                match split_doc::text_or_fault(p, v[i].path) {
                    Err(f) if reads => Err(f),
                    content => {
                        let props = needed(
                            v[i],
                            match content {
                                Ok(c) => c,
                                Err(_) => Seq::empty(),
                            },
                            cover,
                        );
                        let existing = spec_item_properties(t, id);
                        let new = split_doc::among(props, existing, false, props.len() as int);
                        if new.len() > 0 {
                            declared_from(
                                p,
                                v,
                                cover,
                                manifest::spec_set_item_properties(
                                    t,
                                    id,
                                    text::spec_join(existing + new, " "@),
                                ),
                                count + new.len(),
                                i + 1,
                            )
                        } else {
                            declared_from(p, v, cover, t, count, i + 1)
                        }
                    },
                }
            },
        }
    }
}

fn content_needs(content: &str, out: &mut Vec<Vec<char>>)
    requires
        old(out)@.len() == 0,
    ensures
        text::texts(final(out)@) == markup::spec_content_properties(content@),
{
    let v = content_properties(content);
    let ghost all = markup::lits(v@);
    let mut i: usize = 0;
    assert(text::texts(out@) =~= all.take(0));
    while i < v.len()
        invariant
            i <= v@.len(),
            all == markup::lits(v@),
            text::texts(out@) == all.take(i as int),
        decreases v@.len() - i,
    {
        assert(all[i as int] == v@[i as int]@);
        add_text(out, chars_of(v[i]));
        assert(all.take(i + 1) =~= all.take(i as int).push(all[i as int]));
        i = i + 1;
    }
    assert(all.take(v@.len() as int) =~= all);
}

fn needs_of(m: &Member, content: &str, cover: &Option<String>) -> (r: Vec<Vec<char>>)
    ensures
        text::texts(r@) == needed(m@, content@, text::opt_str(*cover)),
{
    let mut props: Vec<Vec<char>> = Vec::new();
    if m.role == MemberRole::Text || m.role == MemberRole::Nav {
        content_needs(content, &mut props);
    } else {
        assert(text::texts(props@) =~= Seq::<Seq<char>>::empty());
    }
    let ghost before = text::texts(props@);
    let is_cover = match (cover, &m.id) {
        (Some(c), Some(id)) => str_is(c, id) && m.role == MemberRole::Image,
        _ => false,
    };
    if is_cover {
        add_text(&mut props, chars_of("cover-image"));
    }
    assert(text::texts(props@) =~= before + markup::only_if(is_cover, "cover-image"@));
    props
}

fn append_texts(a: &mut Vec<Vec<char>>, b: &Vec<Vec<char>>)
    ensures
        text::texts(final(a)@) == text::texts(old(a)@) + text::texts(b@),
{
    let ghost first = text::texts(a@);
    let ghost all = text::texts(b@);
    let mut i: usize = 0;
    assert(first + all.take(0) =~= first);
    while i < b.len()
        invariant
            i <= b@.len(),
            all == text::texts(b@),
            text::texts(a@) == first + all.take(i as int),
        decreases b@.len() - i,
    {
        assert(all[i as int] == b@[i as int]@);
        add_text(a, copy(&b[i]));
        assert((first + all.take(i as int)).push(all[i as int]) =~= first + all.take(i + 1));
        i = i + 1;
    }
    assert(all.take(b@.len() as int) =~= all);
}

spec fn declared_result(r: Result<(String, u128), Error>) -> Result<(Seq<char>, int), Fault> {
    match r {
        Ok((t, n)) => Ok((t@, n as int)),
        Err(e) => Err(e@),
    }
}

fn declare(pkg: &EpubPackage, v: &Vec<Member>, cover: &Option<String>, text: &str) -> (r: Result<
    (String, u128),
    Error,
>)
    ensures
        declared_result(r) == declared_from(
            pkg@,
            manifest::listed(v@),
            text::opt_str(*cover),
            text@,
            0,
            0,
        ),
{
    let ghost all = manifest::listed(v@);
    let ghost cv = text::opt_str(*cover);
    let mut out = string_of(&chars_of(text));
    let mut count: u128 = 0;
    let mut i: usize = 0;
    while i < v.len()
        invariant
            i <= v@.len(),
            all == manifest::listed(v@),
            cv == text::opt_str(*cover),
            count <= i * (usize::MAX as int),
            declared_from(pkg@, all, cv, out@, count as int, i as int) == declared_from(
                pkg@,
                all,
                cv,
                text@,
                0,
                0,
            ),
        decreases v@.len() - i,
    {
        let m = &v[i];
        let n = v.len();
        assert(all[i as int] == v@[i as int]@);
        proof {
            assert(i < n);
            text::lemma_count(i as int, count as int, 0);
        }
        if let Some(id) = &m.id {
            let reads = m.role == MemberRole::Text || m.role == MemberRole::Nav;
            let mut content = string_of(&Vec::new());
            if reads {
                content = match text_or_error(pkg, &m.path) {
                    Ok(t) => t,
                    Err(e) => {
                        return Err(e);
                    },
                };
            }
            let props = needs_of(m, &content, cover);
            let mut merged = item_properties(&out, id);
            let new = among_of(&props, &merged, false);
            assert(text::texts(props@).len() == props@.len());
            assert(text::texts(new@).len() == new@.len());
            if new.len() > 0 {
                append_texts(&mut merged, &new);
                proof {
                    text::lemma_count(i as int, count as int, new@.len() as int);
                }
                count = count + new.len() as u128;
                out = set_item_properties(&out, id, &string_of(&join(&merged, " ")));
            }
        }
        i = i + 1;
    }
    Ok((out, count))
}

// ---------------------------------------------------------------- font types

/// The media type of today for a font's old one.
pub open spec fn font_type(t: Seq<char>) -> Option<Seq<char>> {
    let mt = text::spec_lower(t);
    if mt == "application/x-font-ttf"@ || mt == "application/x-font-truetype"@ || mt
        == "application/truetype"@ {
        Some("font/ttf"@)
    } else if mt == "application/x-font-opentype"@ || mt == "application/vnd.ms-opentype"@ || mt
        == "application/x-font-otf"@ {
        Some("font/otf"@)
    } else if mt == "application/font-woff"@ || mt == "application/x-font-woff"@ {
        Some("font/woff"@)
    } else if mt == "application/font-woff2"@ {
        Some("font/woff2"@)
    } else {
        None
    }
}

/// What the font types of today make of a tag.
pub open spec fn font_edit(name: Seq<char>, tag: Seq<char>) -> Option<Seq<char>> {
    if name == "item"@ {
        match markup::spec_attr_value(tag, "media-type"@) {
            Some(mt) => match font_type(mt) {
                Some(new) => Some(markup::spec_set_attr(tag, "media-type"@, Some(new))),
                None => None,
            },
            None => None,
        }
    } else {
        None
    }
}

/// The package document with the font types of today.
pub open spec fn fonts_set(t: Seq<char>) -> Seq<char> {
    markup::spec_rewrite_tags(|name: Seq<char>, tag: Seq<char>| font_edit(name, tag), t)
}

/// How many of the first `n` tokens have an old font type.
pub open spec fn fonts_to(t: Seq<char>, v: Seq<Token>, n: int) -> int
    decreases n,
{
    if n <= 0 {
        0
    } else {
        fonts_to(t, v, n - 1) + if markup::start_tag(v[n - 1]) && font_edit(
            markup::tag_name(v[n - 1]),
            t.subrange(v[n - 1].start(), v[n - 1].end()),
        ) is Some {
            1int
        } else {
            0
        }
    }
}

/// The changes with what is noted of fonts.
pub open spec fn fonts_noted(t: Seq<char>, log: Log) -> Log {
    let v = markup::spec_tokens(t);
    let n = fonts_to(t, v, v.len() as int);
    if n > 0 {
        log.noted(text::decimal(n as nat) + " font media type(s) modernized"@)
    } else {
        log
    }
}

struct FontTypes {}

impl TagEdit for FontTypes {
    closed spec fn edited(&self, name: Seq<char>, tag: Seq<char>) -> Option<Seq<char>> {
        font_edit(name, tag)
    }

    fn edit(&self, name: &str, tag: &str) -> (r: Option<String>) {
        if !str_is(name, "item") {
            return None;
        }
        let mt = match attr_value(tag, "media-type") {
            Some(m) => lowered(&chars_of(&m)),
            None => {
                return None;
            },
        };
        let new = if is(&mt, "application/x-font-ttf") || is(&mt, "application/x-font-truetype")
            || is(&mt, "application/truetype") {
            "font/ttf"
        } else if is(&mt, "application/x-font-opentype") || is(&mt, "application/vnd.ms-opentype")
            || is(&mt, "application/x-font-otf") {
            "font/otf"
        } else if is(&mt, "application/font-woff") || is(&mt, "application/x-font-woff") {
            "font/woff"
        } else if is(&mt, "application/font-woff2") {
            "font/woff2"
        } else {
            return None;
        };
        Some(set_attr(tag, "media-type", Some(new)))
    }
}

fn count_fonts(t: &[char]) -> (r: usize)
    ensures
        r == fonts_to(t@, markup::spec_tokens(t@), markup::spec_tokens(t@).len() as int),
{
    let v = tokens_of(t);
    let ghost ks = markup::spec_tokens(t@);
    proof {
        markup::tokens_tile_the_text(t@);
        markup::lemma_tiles_bound(ks, 0, t@.len() as int);
    }
    let e = FontTypes {  };
    let mut n: usize = 0;
    let mut i: usize = 0;
    while i < v.len()
        invariant
            i <= v@.len(),
            ks == markup::spec_tokens(t@),
            markup::toks(v@) == ks,
            forall|k: int|
                0 <= k < ks.len() ==> 0 <= (#[trigger] ks[k]).start() && ks[k].end() <= t@.len()
                    && ks[k].start() < ks[k].end(),
            n <= i,
            n == fonts_to(t@, ks, i as int),
        decreases v@.len() - i,
    {
        assert(ks[i as int] == v@[i as int]@);
        if let Tok::Tag { start, end, name, closing, .. } = &v[i] {
            if !*closing && e.edit(name, &string_of(&t[*start..*end])).is_some() {
                n = n + 1;
            }
        }
        i = i + 1;
    }
    n
}

fn fix_font_types(text: &str, changes: &mut Changes) -> (r: String)
    ensures
        r@ == fonts_set(text@),
        final(changes)@ == fonts_noted(text@, old(changes)@),
{
    let e = FontTypes {  };
    assert(markup::edit_fn(&e) =~= (|name: Seq<char>, tag: Seq<char>| font_edit(name, tag)));
    let n = count_fonts(&chars_of(text));
    if n > 0 {
        let mut note = decimal_of(n);
        put_str(&mut note, " font media type(s) modernized");
        changes.note(&string_of(&note));
    }
    rewrite_tags(text, &e)
}

// ---------------------------------------------------------------- the navigation document

/// The entries of the NCX, as zip paths.
pub open spec fn spec_ncx_entries(p: Seq<Part>, b: Book, base: Seq<char>) -> Seq<Toc> {
    match b.ncx_href {
        None => Seq::empty(),
        Some(href) => {
            let path = package::spec_abs(base, href);
            match package::spec_text(p, path) {
                None => Seq::empty(),
                Some(t) => toc_repair::spec_rebase(
                    toc::spec_parse_ncx(t),
                    structure::spec_dir_of(path),
                ),
            }
        },
    }
}

/// The first XHTML document of the spine from `i` on.
pub open spec fn first_document(b: Book, i: int) -> Option<OpfItem>
    decreases b.spine.len() - i,
{
    if i < 0 || i >= b.spine.len() {
        None
    } else {
        match opf::item_named(b.items, b.spine[i], 0) {
            Some(item) if text::spec_lower(item.media_type) == text::spec_lower(
                "application/xhtml+xml"@,
            ) => Some(item),
            _ => first_document(b, i + 1),
        }
    }
}

/// One entry for the first document of the spine.
pub open spec fn first_entry(b: Book, base: Seq<char>) -> Seq<Toc> {
    match first_document(b, 0) {
        Some(item) => seq![
            Toc {
                title: if b.title.len() == 0 {
                    "Start"@
                } else {
                    b.title
                },
                href: package::spec_abs(base, item.href),
                children: Seq::empty(),
            },
        ],
        None => Seq::empty(),
    }
}

/// The entries of the new navigation document.
pub open spec fn nav_entries(p: Seq<Part>, b: Book, base: Seq<char>) -> Seq<Toc> {
    let v = spec_ncx_entries(p, b, base);
    if v.len() == 0 {
        first_entry(b, base)
    } else {
        v
    }
}

/// The first `n` landmarks as zip paths.
pub open spec fn marks_resolved(v: Seq<Mark>, base: Seq<char>, n: int) -> Seq<Mark>
    decreases n,
{
    if n <= 0 {
        Seq::empty()
    } else {
        marks_resolved(v, base, n - 1).push(
            Mark { href: structure::spec_resolve_href(base, v[n - 1].href), ..v[n - 1] },
        )
    }
}

/// The landmarks of the new navigation document.
pub open spec fn nav_marks(t: Seq<char>, base: Seq<char>) -> Seq<Mark> {
    let v = toc::spec_parse_opf_guide(t);
    marks_resolved(v, base, v.len() as int)
}

/// The text of the new navigation document.
pub open spec fn nav_text(b: Book, v: Seq<Toc>, marks: Seq<Mark>, dir: Seq<char>) -> Seq<char> {
    nav_doc::spec_render_nav_doc(
        nav_doc::spec_render_toc_nav(v, dir) + if marks.len() > 0 {
            "\n"@ + nav_doc::spec_render_landmarks_nav(marks, dir)
        } else {
            Seq::empty()
        },
        if b.language.len() == 0 {
            "en"@
        } else {
            b.language
        },
        if b.title.len() == 0 {
            "Contents"@
        } else {
            b.title
        },
    )
}

/// The package document with the navigation document in its manifest.
pub open spec fn nav_listed(t: Seq<char>, href: Seq<char>) -> Seq<char> {
    match text::spec_find(t, "</manifest>"@, 0) {
        None => t,
        Some(close) => {
            let a = manifest::item_place(t, close);
            let id = fresh::spec_fresh(split_doc::spec_ids_in(t), "nav"@, "-"@, Seq::empty());
            t.subrange(0, a) + manifest::item_indent(t, close) + "<item href=\""@
                + markup::spec_escape_attr(href) + "\" id=\""@ + markup::spec_escape_attr(id)
                + "\" media-type=\"application/xhtml+xml\" properties=\"nav\"/>\n"@ + t.subrange(
                a,
                t.len() as int,
            )
        },
    }
}

/// A package in the course of its upgrade: its members, the changes so far, and
/// the package document's text.
#[verifier::ext_equal]
pub struct Stage {
    pub p: Seq<Part>,
    pub log: Log,
    pub text: Seq<char>,
}

/// What is noted of a new navigation document.
pub open spec fn nav_note(v: Seq<Toc>, marks: Seq<Mark>) -> Seq<char> {
    let n = toc::spec_flat_count(v);
    "navigation document written with "@ + text::decimal(n) + " entr"@ + (if n == 1 {
        "y"@
    } else {
        "ies"@
    }) + " and "@ + text::decimal(marks.len()) + " landmark(s)"@
}

/// The upgrade once there is a navigation document: written from the NCX and
/// the guide where the package has none.
pub open spec fn nav_written(s: Stage, b: Book, base: Seq<char>) -> Stage {
    let v = nav_entries(s.p, b, base);
    if b.nav_href is Some || v.len() == 0 {
        s
    } else {
        let marks = nav_marks(s.text, base);
        let path = fresh::spec_fresh(edit::spec_names(s.p), base + "nav"@, "-"@, ".xhtml"@);
        let dir = structure::spec_dir_of(path);
        Stage {
            p: edit::spec_set(
                s.p,
                path,
                vstd::utf8::encode_utf8(nav_text(b, v, marks, dir)),
            ),
            log: s.log.with_added(path, "application/xhtml+xml"@).noted(nav_note(v, marks)),
            text: nav_listed(
                s.text,
                text::spec_replace(structure::spec_relativize(base, path), " "@, "%20"@),
            ),
        }
    }
}

fn ncx_entries(pkg: &EpubPackage, opf: &OpfData, base: &str) -> (r: Vec<TocEntry>)
    ensures
        toc::tocs(r@) == spec_ncx_entries(pkg@, opf@, base@),
{
    if let Some(href) = &opf.ncx_href {
        let path = abs_path(base, href);
        if let Some(t) = member_text(pkg, &path) {
            return rebase_to_absolute(&parse_ncx(&t), &dir_of(&path));
        }
    }
    Vec::new()
}

fn first_document_entry(opf: &OpfData, base: &str) -> (r: Vec<TocEntry>)
    ensures
        toc::tocs(r@) == first_entry(opf@, base@),
{
    let mut out: Vec<TocEntry> = Vec::new();
    let mut i: usize = 0;
    while i < opf.spine_ids.len()
        invariant
            i <= opf.spine_ids@.len(),
            out@.len() == 0,
            first_document(opf@, 0) == first_document(opf@, i as int),
        decreases opf.spine_ids@.len() - i,
    {
        assert(opf@.spine[i as int] == opf.spine_ids@[i as int]@);
        if let Some(k) = item_named_in(&opf.manifest, &opf.spine_ids[i]) {
            if same_nocase(
                &chars_of(&opf.manifest[k].media_type),
                &chars_of("application/xhtml+xml"),
            ) {
                let title = if chars_of(&opf.metadata.title).len() == 0 {
                    string_of(&chars_of("Start"))
                } else {
                    opf.metadata.title.clone()
                };
                let e = TocEntry {
                    title,
                    href: abs_path(base, &opf.manifest[k].href),
                    children: Vec::new(),
                };
                proof {
                    toc::lemma_tocs_push(out@, e);
                }
                let ghost ev = toc::toc(e);
                out.push(e);
                assert(toc::tocs(out@) =~= seq![ev]);
                assert(ev =~= first_entry(opf@, base@)[0]);
                return out;
            }
        }
        i = i + 1;
    }
    out
}

/// The landmarks as zip paths.
pub fn resolve_marks(v: Vec<Landmark>, base: &str) -> (r: Vec<Landmark>)
    ensures
        toc::marks(r@) == marks_resolved(toc::marks(v@), base@, v@.len() as int),
{
    let ghost all = toc::marks(v@);
    let mut out: Vec<Landmark> = Vec::new();
    assert(toc::marks(out@) =~= Seq::<Mark>::empty());
    let mut i: usize = 0;
    while i < v.len()
        invariant
            i <= v@.len(),
            all == toc::marks(v@),
            toc::marks(out@) == marks_resolved(all, base@, i as int),
        decreases v@.len() - i,
    {
        assert(all[i as int] == v@[i as int]@);
        let l = Landmark {
            landmark_type: v[i].landmark_type,
            href: resolve_href(base, &v[i].href),
            label: v[i].label.clone(),
        };
        proof {
            toc::lemma_marks_push(out@, l);
        }
        out.push(l);
        i = i + 1;
    }
    out
}

fn nav_text_of(opf: &OpfData, v: &Vec<TocEntry>, marks: &Vec<Landmark>, dir: &str) -> (r: String)
    ensures
        r@ == nav_text(opf@, toc::tocs(v@), toc::marks(marks@), dir@),
{
    let mut body = chars_of(&render_toc_nav(v, dir));
    assert(toc::marks(marks@).len() == marks@.len());
    let ghost before = body@;
    if marks.len() > 0 {
        put_str(&mut body, "\n");
        put_str(&mut body, &render_landmarks_nav(marks, dir));
        assert(body@ =~= before + ("\n"@ + nav_doc::spec_render_landmarks_nav(
            toc::marks(marks@),
            dir@,
        )));
    } else {
        assert(body@ =~= before + Seq::<char>::empty());
    }
    let title = if chars_of(&opf.metadata.title).len() == 0 {
        string_of(&chars_of("Contents"))
    } else {
        opf.metadata.title.clone()
    };
    let lang = if chars_of(&opf.metadata.language).len() == 0 {
        string_of(&chars_of("en"))
    } else {
        opf.metadata.language.clone()
    };
    render_nav_doc(&string_of(&body), &lang, &title)
}

fn list_nav(text: &str, href: &str) -> (r: String)
    ensures
        r@ == nav_listed(text@, href@),
{
    let t = chars_of(text);
    match find_str(&t, "</manifest>", 0) {
        None => string_of(&t),
        Some(close) => {
            let a = item_place_of(&t, close);
            let ids = strings_of(&ids_in(&t));
            let id = fresh(&ids, &chars_of("nav"), "-", &Vec::new());
            let mut out = copy(&t[0..a]);
            put(&mut out, &item_indent_of(&t, close));
            put_str(&mut out, "<item href=\"");
            put_str(&mut out, &escape_attr(href));
            put_str(&mut out, "\" id=\"");
            put_str(&mut out, &escape_attr(&string_of(&id)));
            put_str(
                &mut out,
                "\" media-type=\"application/xhtml+xml\" properties=\"nav\"/>\n",
            );
            put(&mut out, &t[a..t.len()]);
            string_of(&out)
        },
    }
}

fn note_nav(changes: &mut Changes, v: &Vec<TocEntry>, marks: &Vec<Landmark>)
    ensures
        final(changes)@ == old(changes)@.noted(nav_note(toc::tocs(v@), toc::marks(marks@))),
{
    let n = flat_count(v);
    let mut note = chars_of("navigation document written with ");
    put(&mut note, &decimal_of(n));
    put_str(&mut note, " entr");
    if n == 1 {
        put_str(&mut note, "y");
    } else {
        put_str(&mut note, "ies");
    }
    put_str(&mut note, " and ");
    assert(toc::marks(marks@).len() == marks@.len());
    put(&mut note, &decimal_of(marks.len()));
    put_str(&mut note, " landmark(s)");
    changes.note(&string_of(&note));
}

fn write_nav(
    pkg: &mut EpubPackage,
    changes: &mut Changes,
    text: String,
    opf: &OpfData,
    base: &str,
) -> (r: String)
    ensures
        (Stage { p: final(pkg)@, log: final(changes)@, text: r@ }) == nav_written(
            Stage { p: old(pkg)@, log: old(changes)@, text: text@ },
            opf@,
            base@,
        ),
{
    if opf.nav_href.is_some() {
        return text;
    }
    let mut v = ncx_entries(pkg, opf, base);
    proof {
        toc::lemma_tocs(v@);
    }
    if v.len() == 0 {
        v = first_document_entry(opf, base);
    }
    proof {
        toc::lemma_tocs(v@);
    }
    if v.len() == 0 {
        return text;
    }
    let guide = parse_opf_guide(&text);
    assert(toc::marks(guide@).len() == guide@.len());
    let marks = resolve_marks(guide, base);
    let path = string_of(
        &fresh(
            &pkg.names(),
            &join2(&chars_of(base), &chars_of("nav")),
            "-",
            &chars_of(".xhtml"),
        ),
    );
    let content = nav_text_of(opf, &v, &marks, &dir_of(&path));
    pkg.set(&path, bytes_of(&content));
    changes.add(&path, "application/xhtml+xml");
    note_nav(changes, &v, &marks);
    proof {
        reveal_strlit(" ");
    }
    let href = string_of(&replace_str(&chars_of(&relativize(base, &path)), " ", "%20"));
    list_nav(&text, &href)
}

// ---------------------------------------------------------------- the NCX and the documents

/// What naming the book makes of a tag of the NCX.
pub open spec fn uid_edit(uid: Seq<char>, name: Seq<char>, tag: Seq<char>) -> Option<Seq<char>> {
    if name == "meta"@ && markup::spec_attr_value(tag, "name"@) == Some("dtb:uid"@) {
        Some(markup::spec_set_attr(tag, "content"@, Some(uid)))
    } else {
        None
    }
}

/// The NCX with the book's identifier.
pub open spec fn uid_set(t: Seq<char>, uid: Seq<char>) -> Seq<char> {
    markup::spec_rewrite_tags(|name: Seq<char>, tag: Seq<char>| uid_edit(uid, name, tag), t)
}

struct SetUid<'a> {
    uid: &'a str,
}

impl<'a> TagEdit for SetUid<'a> {
    closed spec fn edited(&self, name: Seq<char>, tag: Seq<char>) -> Option<Seq<char>> {
        uid_edit(self.uid@, name, tag)
    }

    fn edit(&self, name: &str, tag: &str) -> (r: Option<String>) {
        if str_is(name, "meta") && attr_is(tag, "name", "dtb:uid") {
            Some(set_attr(tag, "content", Some(self.uid)))
        } else {
            None
        }
    }
}

/// The upgrade once the NCX has the book's identifier.
pub open spec fn ncx_fixed(p: Seq<Part>, log: Log, b: Book, base: Seq<char>, uid: Option<Seq<char>>) -> (
    Seq<Part>,
    Log,
) {
    match (b.ncx_href, uid) {
        (Some(href), Some(id)) => {
            let path = package::spec_abs(base, href);
            match package::spec_text(p, path) {
                Some(t) if uid_set(t, id) != t => (
                    edit::spec_replace(p, path, vstd::utf8::encode_utf8(uid_set(t, id))),
                    log.touched(path),
                ),
                _ => (p, log),
            }
        },
        _ => (p, log),
    }
}

fn fix_ncx(
    pkg: &mut EpubPackage,
    changes: &mut Changes,
    opf: &OpfData,
    base: &str,
    uid: &Option<String>,
)
    ensures
        (final(pkg)@, final(changes)@) == ncx_fixed(
            old(pkg)@,
            old(changes)@,
            opf@,
            base@,
            text::opt_str(*uid),
        ),
{
    if let (Some(href), Some(id)) = (&opf.ncx_href, uid) {
        let path = abs_path(base, href);
        if let Some(t) = member_text(pkg, &path) {
            let e = SetUid { uid: id };
            assert(markup::edit_fn(&e) =~= (|name: Seq<char>, tag: Seq<char>|
                uid_edit(id@, name, tag)));
            let out = rewrite_tags(&t, &e);
            if !str_is(&out, &t) {
                pkg.replace(&path, bytes_of(&out));
                changes.touch(&path);
            }
        }
    }
}

/// Where the first DOCTYPE of a document stands, if it is not that of HTML.
pub open spec fn old_doctype(t: Seq<char>) -> Option<(int, int)> {
    match text::spec_find(text::spec_lower(t), "<!doctype"@, 0) {
        None => None,
        Some(a) => match text::spec_find_char(t, '>', a) {
            None => None,
            Some(g) => if text::spec_lower(t.subrange(a, g + 1)) == text::spec_lower(
                "<!DOCTYPE html>"@,
            ) {
                None
            } else {
                Some((a, g + 1))
            },
        },
    }
}

/// A document with its DOCTYPE set to HTML.
pub open spec fn spec_html5_doctype(t: Seq<char>) -> Seq<char> {
    match old_doctype(t) {
        None => t,
        Some((a, b)) => t.subrange(0, a) + "<!DOCTYPE html>"@ + t.subrange(b, t.len() as int),
    }
}

fn old_doctype_of(t: &[char]) -> (r: Option<(usize, usize)>)
    ensures
        match r {
            Some((a, b)) => old_doctype(t@) == Some((a as int, b as int)) && a <= b <= t@.len(),
            None => old_doctype(t@) is None,
        },
{
    let low = lowered(t);
    assert(low@.len() == t@.len());
    let a = match find_str(&low, "<!doctype", 0) {
        Some(a) => a,
        None => {
            return None;
        },
    };
    let g = match find_char(t, '>', a) {
        Some(g) => g,
        None => {
            return None;
        },
    };
    let n = t.len();
    assert(g < n);
    if same_nocase(&t[a..g + 1], &chars_of("<!DOCTYPE html>")) {
        None
    } else {
        Some((a, g + 1))
    }
}

/// A document with its DOCTYPE set to HTML.
pub fn html5_doctype(text: &str) -> (r: String)
    ensures
        r@ == spec_html5_doctype(text@),
{
    let t = chars_of(text);
    let (a, b) = match old_doctype_of(&t) {
        Some(x) => x,
        None => {
            return string_of(&t);
        },
    };
    let mut out = copy(&t[0..a]);
    put_str(&mut out, "<!DOCTYPE html>");
    put(&mut out, &t[b..t.len()]);
    string_of(&out)
}

/// A document's bytes with its DOCTYPE set to HTML. The declaration is written in
/// ASCII, and is found in the units that the bytes are made of, be they bytes or
/// those of UTF-16: all others stay.
pub open spec fn spec_html5_bytes(b: Seq<u8>) -> Seq<u8> {
    match old_doctype(codec::unit_text(b)) {
        None => b,
        Some((x, y)) => b.subrange(0, codec::unit_start(b, x)) + codec::in_units(
            "<!DOCTYPE html>"@,
            codec::wide(b),
        ) + b.subrange(codec::unit_start(b, y), b.len() as int),
    }
}

/// The bytes hold a DOCTYPE that is to be set.
pub open spec fn has_old_doctype(b: Seq<u8>) -> bool {
    old_doctype(codec::unit_text(b)) is Some
}

/// A document's bytes with its DOCTYPE set to HTML, where that changes them.
fn html5_bytes(b: &[u8]) -> (r: Option<Vec<u8>>)
    ensures
        match r {
            Some(v) => has_old_doctype(b@) && v@ == spec_html5_bytes(b@),
            None => !has_old_doctype(b@),
        },
{
    let t = unit_text_of(b);
    let (x, y) = match old_doctype_of(&t) {
        Some(span) => span,
        None => {
            return None;
        },
    };
    let w = wide_of(b);
    let n = b.len();
    let (from, to) = if w.is_some() {
        assert(t@.len() == n / 2);
        (x + x, y + y)
    } else {
        (x, y)
    };
    let mut out = slice_copy(&b[0..from]);
    append_bytes(&mut out, &in_units_of(&chars_of("<!DOCTYPE html>"), w));
    append_bytes(&mut out, &b[to..n]);
    Some(out)
}

/// What comes back, and the package then, once the listed documents from `i` on
/// have an HTML DOCTYPE; those that were added have one.
pub open spec fn doctypes_from(p: Seq<Part>, log: Log, v: Seq<Listed>, count: int, i: int) -> (
    Result<Log, Fault>,
    Seq<Part>,
)
    decreases v.len() - i,
{
    if i < 0 || i >= v.len() {
        (
            Ok(
                if count > 0 {
                    log.noted(
                        text::decimal(count as nat) + " document DOCTYPE(s) set to HTML"@,
                    )
                } else {
                    log
                },
            ),
            p,
        )
    } else if !(v[i].role == MemberRole::Text || v[i].role == MemberRole::Nav) || edit::was_added(
        log.added,
        v[i].path,
    ) {
        doctypes_from(p, log, v, count, i + 1)
    } else {
        match edit::spec_get(p, v[i].path) {
            None => (
                Err(Fault::Said(ErrorKind::NotFound, "no member "@ + v[i].path + ""@)),
                p,
            ),
            Some(b) => {
                if has_old_doctype(b) {
                    doctypes_from(
                        edit::spec_replace(p, v[i].path, spec_html5_bytes(b)),
                        log.touched(v[i].path),
                        v,
                        count + 1,
                        i + 1,
                    )
                } else {
                    doctypes_from(p, log, v, count, i + 1)
                }
            },
        }
    }
}

fn fix_doctypes(pkg: &mut EpubPackage, changes: &mut Changes, v: &Vec<Member>) -> (r: Result<
    (),
    Error,
>)
    ensures
        match doctypes_from(old(pkg)@, old(changes)@, manifest::listed(v@), 0, 0) {
            (Ok(log), p) => r is Ok && final(changes)@ == log && final(pkg)@ == p,
            (Err(f), p) => r matches Err(e) && e@ == f && final(pkg)@ == p,
        },
{
    let ghost all = manifest::listed(v@);
    let mut count: usize = 0;
    let mut i: usize = 0;
    while i < v.len()
        invariant
            i <= v@.len(),
            all == manifest::listed(v@),
            count <= i,
            doctypes_from(pkg@, changes@, all, count as int, i as int) == doctypes_from(
                old(pkg)@,
                old(changes)@,
                all,
                0,
                0,
            ),
        decreases v@.len() - i,
    {
        assert(all[i as int] == v@[i as int]@);
        let m = &v[i];
        if (m.role == MemberRole::Text || m.role == MemberRole::Nav) && !changes.added_here(
            &m.path,
        ) {
            let fixed = match pkg.get(&m.path) {
                Some(b) => html5_bytes(b),
                None => {
                    return Err(refuse_named(ErrorKind::NotFound, "no member ", &m.path, ""));
                },
            };
            if let Some(data) = fixed {
                count = count + 1;
                pkg.replace(&m.path, data);
                changes.touch(&m.path);
            }
        }
        i = i + 1;
    }
    if count > 0 {
        let mut note = decimal_of(count);
        put_str(&mut note, " document DOCTYPE(s) set to HTML");
        changes.note(&string_of(&note));
    }
    Ok(())
}

// ---------------------------------------------------------------- the upgrade

/// The changes with the first `n` notes.
pub open spec fn noted_to(log: Log, notes: Seq<Seq<char>>, n: int) -> Log
    decreases n,
{
    if n <= 0 {
        log
    } else {
        noted_to(log, notes, n - 1).noted(notes[n - 1])
    }
}

/// What is noted of declared properties.
pub open spec fn declared_noted(log: Log, n: int) -> Log {
    if n > 0 {
        log.noted(
            text::decimal(n as nat) + " manifest propert"@ + (if n == 1 {
                "y"@
            } else {
                "ies"@
            }) + " declared"@,
        )
    } else {
        log
    }
}

/// The identifier that the package names, where it is not empty.
pub open spec fn given_uid(b: Book) -> Option<Seq<char>> {
    match b.unique_identifier {
        Some(u) if u.len() > 0 => Some(u),
        _ => None,
    }
}

/// The last steps of an upgrade, once the package document is written.
pub open spec fn upgrade_ended(s: Stage, d: Found, uid: Option<Seq<char>>) -> (
    Result<Log, Fault>,
    Seq<Part>,
) {
    let q = edit::spec_replace(s.p, d.path, vstd::utf8::encode_utf8(s.text));
    let (q2, log2) = ncx_fixed(q, s.log.touched(d.path), d.book, d.base(), uid);
    match manifest::spec_members(q2) {
        Err(f) => (Err(f), q2),
        Ok(v) => doctypes_from(q2, log2, v, 0, 0),
    }
}

/// The upgrade of the package document `d`.
pub open spec fn upgrade_of(p: Seq<Part>, d: Found, now: Seq<char>) -> (Result<Log, Fault>, Seq<Part>) {
    let m = spec_upgrade_metadata(d.text, given_uid(d.book), now);
    let log = noted_to(edit::no_changes(), m.notes, m.notes.len() as int);
    match manifest::spec_members(p) {
        Err(f) => (Err(f), p),
        Ok(v) => match declared_from(p, v, m.cover, version_set(m.text), 0, 0) {
            Err(f) => (Err(f), p),
            Ok((t, n)) => upgrade_ended(
                nav_written(
                    Stage {
                        p,
                        log: fonts_noted(t, declared_noted(log, n)),
                        text: fonts_set(t),
                    },
                    d.book,
                    d.base(),
                ),
                d,
                m.uid,
            ),
        },
    }
}

/// What comes back of an upgrade at the time `now`, and the package then.
pub open spec fn spec_upgrade_to_epub3(p: Seq<Part>, now: Seq<char>) -> (
    Result<Log, Fault>,
    Seq<Part>,
) {
    match split_doc::package_text(p) {
        Err(f) => (Err(f), p),
        Ok(d) => if text::spec_starts(d.book.version, "3"@) {
            (
                Err(Fault::Said(ErrorKind::InvalidInput, "the package is already EPUB 3"@)),
                p,
            )
        } else {
            upgrade_of(p, d, now)
        },
    }
}

fn note_all(changes: &mut Changes, notes: &Vec<String>)
    ensures
        final(changes)@ == noted_to(old(changes)@, text::strs(notes@), notes@.len() as int),
{
    let ghost all = text::strs(notes@);
    let ghost first = changes@;
    let mut i: usize = 0;
    while i < notes.len()
        invariant
            i <= notes@.len(),
            all == text::strs(notes@),
            changes@ == noted_to(first, all, i as int),
        decreases notes@.len() - i,
    {
        assert(all[i as int] == notes@[i as int]@);
        changes.note(&notes[i]);
        i = i + 1;
    }
}

fn note_declared(changes: &mut Changes, n: u128)
    ensures
        final(changes)@ == declared_noted(old(changes)@, n as int),
{
    if n > 0 {
        let mut note = decimal_of_sum(n);
        put_str(&mut note, " manifest propert");
        if n == 1 {
            put_str(&mut note, "y");
        } else {
            put_str(&mut note, "ies");
        }
        put_str(&mut note, " declared");
        changes.note(&string_of(&note));
    }
}

fn end_upgrade(
    pkg: &mut EpubPackage,
    mut changes: Changes,
    text: &str,
    d: &PackageDoc,
    uid: &Option<String>,
) -> (r: Result<Changes, Error>)
    requires
        d.base@ == d@.base(),
    ensures
        split_doc::outcome(r, final(pkg)@) == upgrade_ended(
            Stage { p: old(pkg)@, log: changes@, text: text@ },
            d@,
            text::opt_str(*uid),
        ),
{
    let mut changes = changes;
    pkg.replace(&d.path, bytes_of(text));
    changes.touch(&d.path);
    fix_ncx(pkg, &mut changes, &d.opf, &d.base, uid);
    match members(pkg) {
        Ok(v) => match fix_doctypes(pkg, &mut changes, &v) {
            Ok(_) => Ok(changes),
            Err(e) => Err(e),
        },
        Err(e) => Err(e),
    }
}

/// The identifier that the package names, where it is not empty.
pub fn uid_given(opf: &OpfData) -> (r: Option<String>)
    ensures
        text::opt_str(r) == given_uid(opf@),
{
    if let Some(u) = &opf.unique_identifier {
        if chars_of(u).len() > 0 {
            return Some(u.clone());
        }
    }
    None
}

fn upgrade_doc(pkg: &mut EpubPackage, d: &PackageDoc, now: &str) -> (r: Result<Changes, Error>)
    requires
        d.base@ == d@.base(),
    ensures
        split_doc::outcome(r, final(pkg)@) == upgrade_of(old(pkg)@, d@, now@),
{
    let m = upgrade_metadata(&d.text, uid_given(&d.opf), now);
    let mut changes = Changes::default();
    note_all(&mut changes, &m.notes);
    assert(text::strs(m.notes@).len() == m.notes@.len());
    let v = match members(pkg) {
        Ok(v) => v,
        Err(e) => {
            return Err(e);
        },
    };
    let (t, n) = match declare(pkg, &v, &m.cover, &set_version(&m.text)) {
        Ok(x) => x,
        Err(e) => {
            return Err(e);
        },
    };
    note_declared(&mut changes, n);
    let t = fix_font_types(&t, &mut changes);
    let t = write_nav(pkg, &mut changes, t, &d.opf, &d.base);
    end_upgrade(pkg, changes, &t, d, &m.uid)
}

/// Upgrades an EPUB 2 package to EPUB 3. Where the metadata gives no date of
/// modification, `now` is written: a date and time in UTC, as ISO 8601 has it.
pub fn upgrade_to_epub3(pkg: &mut EpubPackage, now: &str) -> (r: Result<Changes, Error>)
    ensures
        split_doc::outcome(r, final(pkg)@) == spec_upgrade_to_epub3(old(pkg)@, now@),
{
    let d = match read_package(pkg) {
        Ok(d) => d,
        Err(e) => {
            return Err(e);
        },
    };
    if starts_str(&chars_of(&d.opf.version), "3") {
        return Err(refuse(ErrorKind::InvalidInput, "the package is already EPUB 3"));
    }
    upgrade_doc(pkg, &d, now)
}

// ---------------------------------------------------------------- what an upgrade leaves alone

proof fn lemma_doctypes_accounted(
    old_p: Seq<Part>,
    p: Seq<Part>,
    log: Log,
    v: Seq<Listed>,
    count: int,
    i: int,
)
    requires
        edit::accounts_for(log, old_p, p),
    ensures
        doctypes_from(p, log, v, count, i).0 matches Ok(end) ==> edit::accounts_for(
            end,
            old_p,
            doctypes_from(p, log, v, count, i).1,
        ),
    decreases v.len() - i,
{
    if i < 0 || i >= v.len() {
        edit::lemma_accounts_note(
            log,
            old_p,
            p,
            text::decimal(count as nat) + " document DOCTYPE(s) set to HTML"@,
        );
    } else if !(v[i].role == MemberRole::Text || v[i].role == MemberRole::Nav) || edit::was_added(
        log.added,
        v[i].path,
    ) {
        lemma_doctypes_accounted(old_p, p, log, v, count, i + 1);
    } else if let Some(b) = edit::spec_get(p, v[i].path) {
        if has_old_doctype(b) {
            let data = spec_html5_bytes(b);
            edit::lemma_accounts_replace(log, old_p, p, v[i].path, data);
            lemma_doctypes_accounted(
                old_p,
                edit::spec_replace(p, v[i].path, data),
                log.touched(v[i].path),
                v,
                count + 1,
                i + 1,
            );
        } else {
            lemma_doctypes_accounted(old_p, p, log, v, count, i + 1);
        }
    }
}

proof fn lemma_notes_accounted(p: Seq<Part>, log: Log, notes: Seq<Seq<char>>, n: int)
    requires
        edit::accounts_for(log, p, p),
    ensures
        edit::accounts_for(noted_to(log, notes, n), p, p),
    decreases n,
{
    if n > 0 {
        lemma_notes_accounted(p, log, notes, n - 1);
        edit::lemma_accounts_note(noted_to(log, notes, n - 1), p, p, notes[n - 1]);
    }
}

proof fn lemma_nav_accounted(p: Seq<Part>, s: Stage, b: Book, base: Seq<char>)
    requires
        edit::accounts_for(s.log, p, s.p),
    ensures
        edit::accounts_for(nav_written(s, b, base).log, p, nav_written(s, b, base).p),
{
    let v = nav_entries(s.p, b, base);
    if b.nav_href is None && v.len() > 0 {
        let marks = nav_marks(s.text, base);
        let path = fresh::spec_fresh(edit::spec_names(s.p), base + "nav"@, "-"@, ".xhtml"@);
        let data = vstd::utf8::encode_utf8(nav_text(b, v, marks, structure::spec_dir_of(path)));
        edit::lemma_accounts_set(s.log, p, s.p, path, "application/xhtml+xml"@, data);
        edit::lemma_accounts_note(
            s.log.with_added(path, "application/xhtml+xml"@),
            p,
            edit::spec_set(s.p, path, data),
            nav_note(v, marks),
        );
    }
}

proof fn lemma_end_accounted(p: Seq<Part>, s: Stage, d: Found, uid: Option<Seq<char>>)
    requires
        edit::accounts_for(s.log, p, s.p),
    ensures
        upgrade_ended(s, d, uid).0 matches Ok(end) ==> edit::accounts_for(
            end,
            p,
            upgrade_ended(s, d, uid).1,
        ),
{
    let data = vstd::utf8::encode_utf8(s.text);
    let q = edit::spec_replace(s.p, d.path, data);
    edit::lemma_accounts_replace(s.log, p, s.p, d.path, data);
    let log = s.log.touched(d.path);
    let (q2, log2) = ncx_fixed(q, log, d.book, d.base(), uid);
    if let (Some(href), Some(id)) = (d.book.ncx_href, uid) {
        let path = package::spec_abs(d.base(), href);
        if let Some(t) = package::spec_text(q, path) {
            edit::lemma_accounts_replace(
                log,
                p,
                q,
                path,
                vstd::utf8::encode_utf8(uid_set(t, id)),
            );
        }
    }
    if let Ok(v) = manifest::spec_members(q2) {
        lemma_doctypes_accounted(p, q2, log2, v, 0, 0);
    }
}

/// An upgrade accounts for what it does: a member that the changes do not name
/// keeps its content.
pub proof fn an_upgrade_accounts_for_its_changes(p: Seq<Part>, now: Seq<char>)
    ensures
        spec_upgrade_to_epub3(p, now).0 matches Ok(log) ==> edit::accounts_for(
            log,
            p,
            spec_upgrade_to_epub3(p, now).1,
        ),
{
    if let Ok(d) = split_doc::package_text(p) {
        let m = spec_upgrade_metadata(d.text, given_uid(d.book), now);
        let log = noted_to(edit::no_changes(), m.notes, m.notes.len() as int);
        lemma_notes_accounted(p, edit::no_changes(), m.notes, m.notes.len() as int);
        if let Ok(v) = manifest::spec_members(p) {
            if let Ok((t, n)) = declared_from(p, v, m.cover, version_set(m.text), 0, 0) {
                edit::lemma_accounts_note(
                    log,
                    p,
                    p,
                    text::decimal(n as nat) + " manifest propert"@ + (if n == 1 {
                        "y"@
                    } else {
                        "ies"@
                    }) + " declared"@,
                );
                lemma_fonts_accounted(p, t, declared_noted(log, n));
                let s = Stage {
                    p,
                    log: fonts_noted(t, declared_noted(log, n)),
                    text: fonts_set(t),
                };
                lemma_nav_accounted(p, s, d.book, d.base());
                lemma_end_accounted(p, nav_written(s, d.book, d.base()), d, m.uid);
            }
        }
    }
}

proof fn lemma_fonts_accounted(p: Seq<Part>, t: Seq<char>, log: Log)
    requires
        edit::accounts_for(log, p, p),
    ensures
        edit::accounts_for(fonts_noted(t, log), p, p),
{
    let v = markup::spec_tokens(t);
    let n = fonts_to(t, v, v.len() as int);
    edit::lemma_accounts_note(
        log,
        p,
        p,
        text::decimal(n as nat) + " font media type(s) modernized"@,
    );
}

proof fn lemma_doctype_span(t: Seq<char>)
    ensures
        old_doctype(t) matches Some((a, y)) ==> 0 <= a && a + 9 < y <= t.len() && text::spec_lower(
            t.subrange(a, a + 9),
        ) == "<!doctype"@ && t[y - 1] == '>' && forall|k: int| a <= k < y - 1 ==> t[k] != '>',
{
    reveal_strlit("<!doctype");
    let low = text::spec_lower(t);
    text::lemma_find(low, "<!doctype"@, 0);
    if let Some((a, y)) = old_doctype(t) {
        let g = y - 1;
        text::lemma_find_char(t, '>', a);
        assert(text::spec_lower(t.subrange(a, a + 9)) =~= low.subrange(a, a + 9));
        assert(a + 9 <= g) by {
            if g < a + 9 {
                assert(low.subrange(a, a + 9)[g - a] == low[g]);
            }
        }
    }
}

/// Setting the DOCTYPE replaces one declaration and keeps the text on both sides
/// of it.
pub proof fn setting_the_doctype_keeps_the_rest(t: Seq<char>)
    ensures
        spec_html5_doctype(t) == t || exists|a: int, g: int|
            0 <= a && a + 9 <= g < t.len() && text::spec_lower(#[trigger] t.subrange(a, a + 9))
                == "<!doctype"@ && #[trigger] t[g] == '>' && (forall|k: int|
                a <= k < g ==> t[k] != '>') && spec_html5_doctype(t) == t.subrange(0, a)
                + "<!DOCTYPE html>"@ + t.subrange(g + 1, t.len() as int),
{
    if let Some((a, y)) = old_doctype(t) {
        lemma_doctype_span(t);
        assert(text::spec_lower(t.subrange(a, a + 9)) == "<!doctype"@ && t[y - 1] == '>');
    }
}

/// Setting the DOCTYPE of a document, whatever its encoding, replaces one
/// declaration and keeps every byte on both sides of it.
pub proof fn setting_the_doctype_keeps_the_bytes(b: Seq<u8>)
    ensures
        spec_html5_bytes(b) == b || exists|a: int, g: int|
            0 <= a && a + 9 <= g < codec::unit_text(b).len() && codec::unit_start(b, g + 1) <= b.len()
                && text::spec_lower(#[trigger] codec::unit_text(b).subrange(a, a + 9))
                == "<!doctype"@ && #[trigger] codec::unit_text(b)[g] == '>' && spec_html5_bytes(b)
                == b.subrange(0, codec::unit_start(b, a)) + codec::in_units(
                "<!DOCTYPE html>"@,
                codec::wide(b),
            ) + b.subrange(codec::unit_start(b, g + 1), b.len() as int),
{
    let t = codec::unit_text(b);
    if let Some((a, y)) = old_doctype(t) {
        lemma_doctype_span(t);
        assert(text::spec_lower(t.subrange(a, a + 9)) == "<!doctype"@ && t[y - 1] == '>');
    }
}

/// The listed members have different paths.
pub open spec fn paths_differ(v: Seq<Listed>) -> bool {
    forall|i: int, j: int| 0 <= i < j < v.len() ==> (#[trigger] v[i]).path != (#[trigger] v[j]).path
}

/// One of the listed members from `i` on has the path.
pub open spec fn listed_from(v: Seq<Listed>, path: Seq<char>, i: int) -> bool {
    exists|k: int| i <= k < v.len() && (#[trigger] v[k]).path == path
}

/// A member's content, or the same document with its DOCTYPE set to HTML.
pub open spec fn same_but_doctype(before: Option<Seq<u8>>, after: Option<Seq<u8>>) -> bool {
    after == before || (before matches Some(b) && after == Some(spec_html5_bytes(b)))
}

proof fn lemma_doctypes_only(
    p: Seq<Part>,
    log: Log,
    v: Seq<Listed>,
    count: int,
    i: int,
    name: Seq<char>,
)
    requires
        0 <= i,
        paths_differ(v),
    ensures
        ({
            let after = edit::spec_get(doctypes_from(p, log, v, count, i).1, name);
            &&& same_but_doctype(edit::spec_get(p, name), after)
            &&& after == edit::spec_get(p, name) || listed_from(v, name, i)
        }),
    decreases v.len() - i,
{
    if i < v.len() {
        if !(v[i].role == MemberRole::Text || v[i].role == MemberRole::Nav) || edit::was_added(
            log.added,
            v[i].path,
        ) {
            lemma_doctypes_only(p, log, v, count, i + 1, name);
        } else if let Some(b) = edit::spec_get(p, v[i].path) {
            if has_old_doctype(b) {
                let data = spec_html5_bytes(b);
                let q = edit::spec_replace(p, v[i].path, data);
                edit::replacing_is_surgical(p, v[i].path, data, name);
                lemma_doctypes_only(q, log.touched(v[i].path), v, count + 1, i + 1, name);
                if name == v[i].path {
                    assert(!listed_from(v, name, i + 1));
                }
            } else {
                lemma_doctypes_only(p, log, v, count, i + 1, name);
            }
        }
    }
}

proof fn lemma_listed_differ(p: Seq<Part>)
    requires
        edit::names_differ(p),
    ensures
        manifest::spec_members(p) matches Ok(v) ==> paths_differ(v),
{
    if let Ok(v) = manifest::spec_members(p) {
        assert forall|i: int, j: int| 0 <= i < j < v.len() implies (#[trigger] v[i]).path != (
        #[trigger] v[j]).path by {
            assert(v[i].path == p[i].name);
            assert(v[j].path == p[j].name);
        }
    }
}

proof fn lemma_replace_differ(p: Seq<Part>, name: Seq<char>, data: Seq<u8>)
    requires
        edit::names_differ(p),
    ensures
        edit::names_differ(edit::spec_replace(p, name, data)),
{
    let q = edit::spec_replace(p, name, data);
    edit::replacing_is_surgical(p, name, data, name);
    assert forall|i: int, j: int| 0 <= i < j < q.len() implies (#[trigger] q[i]).name != (
    #[trigger] q[j]).name by {
        assert(edit::spec_names(q)[i] == edit::spec_names(p)[i]);
        assert(edit::spec_names(q)[j] == edit::spec_names(p)[j]);
        assert(edit::spec_names(q).len() == edit::spec_names(p).len());
        assert(p[i].name != p[j].name);
    }
}

/// Writing a navigation document leaves the members that there are.
pub proof fn lemma_nav_keeps(s: Stage, b: Book, base: Seq<char>, name: Seq<char>)
    requires
        edit::spec_get(s.p, name) is Some,
    ensures
        edit::spec_get(nav_written(s, b, base).p, name) == edit::spec_get(s.p, name),
{
    let entries = nav_entries(s.p, b, base);
    if b.nav_href is None && entries.len() > 0 {
        let names = edit::spec_names(s.p);
        let path = fresh::spec_fresh(names, base + "nav"@, "-"@, ".xhtml"@);
        fresh::a_fresh_name_is_free(names, base + "nav"@, "-"@, ".xhtml"@);
        edit::lemma_member_at(s.p, name, 0);
        assert(names[edit::member_at(s.p, name, 0)->0] == name);
        let dir = structure::spec_dir_of(path);
        let data = vstd::utf8::encode_utf8(nav_text(b, entries, nav_marks(s.text, base), dir));
        edit::setting_changes_one_member(s.p, path, data, name);
    }
}

proof fn lemma_nav_passes(s: Stage, b: Book, base: Seq<char>, name: Seq<char>)
    requires
        edit::names_differ(s.p),
        edit::spec_get(s.p, name) is Some,
    ensures
        edit::names_differ(nav_written(s, b, base).p),
        edit::spec_get(nav_written(s, b, base).p, name) == edit::spec_get(s.p, name),
{
    let entries = nav_entries(s.p, b, base);
    if b.nav_href is None && entries.len() > 0 {
        let names = edit::spec_names(s.p);
        let path = fresh::spec_fresh(names, base + "nav"@, "-"@, ".xhtml"@);
        fresh::a_fresh_name_is_free(names, base + "nav"@, "-"@, ".xhtml"@);
        edit::lemma_member_at(s.p, name, 0);
        edit::lemma_member_at(s.p, path, 0);
        assert(names[edit::member_at(s.p, name, 0)->0] == name);
        if let Some(j) = edit::member_at(s.p, path, 0) {
            assert(names[j] == path);
        }
        let dir = structure::spec_dir_of(path);
        let data = vstd::utf8::encode_utf8(nav_text(b, entries, nav_marks(s.text, base), dir));
        edit::setting_changes_one_member(s.p, path, data, name);
        let q = edit::spec_set(s.p, path, data);
        assert forall|i: int, j: int| 0 <= i < j < q.len() implies (#[trigger] q[i]).name != (
        #[trigger] q[j]).name by {
            assert(names[i] == q[i].name);
        }
    }
}

proof fn lemma_end_passes(s: Stage, d: Found, uid: Option<Seq<char>>, name: Seq<char>)
    requires
        edit::names_differ(s.p),
        name != d.path,
        d.book.ncx_href matches Some(href) ==> package::spec_abs(d.base(), href) != name,
    ensures
        same_but_doctype(
            edit::spec_get(s.p, name),
            edit::spec_get(upgrade_ended(s, d, uid).1, name),
        ),
{
    let data = vstd::utf8::encode_utf8(s.text);
    let q = edit::spec_replace(s.p, d.path, data);
    edit::replacing_is_surgical(s.p, d.path, data, name);
    lemma_replace_differ(s.p, d.path, data);
    let (q2, log2) = ncx_fixed(q, s.log.touched(d.path), d.book, d.base(), uid);
    if let (Some(href), Some(id)) = (d.book.ncx_href, uid) {
        let path = package::spec_abs(d.base(), href);
        if let Some(t) = package::spec_text(q, path) {
            let data = vstd::utf8::encode_utf8(uid_set(t, id));
            edit::replacing_is_surgical(q, path, data, name);
            lemma_replace_differ(q, path, data);
        }
    }
    lemma_listed_differ(q2);
    if let Ok(v) = manifest::spec_members(q2) {
        lemma_doctypes_only(q2, log2, v, 0, 0, name);
    }
}

/// An upgrade passes the bodies through, and the stylesheets, images and fonts:
/// a member that is neither the package document nor the NCX keeps its content,
/// but for the DOCTYPE of a document.
#[verifier::rlimit(40)]
pub proof fn an_upgrade_passes_the_members_through(p: Seq<Part>, now: Seq<char>, name: Seq<char>)
    requires
        edit::names_differ(p),
        edit::spec_get(p, name) is Some,
        edit::spec_opf_path(p) != Ok::<Seq<char>, Fault>(name),
        split_doc::package_text(p) matches Ok(d) ==> (d.book.ncx_href matches Some(href)
            ==> package::spec_abs(d.base(), href) != name),
    ensures
        same_but_doctype(
            edit::spec_get(p, name),
            edit::spec_get(spec_upgrade_to_epub3(p, now).1, name),
        ),
{
    if let Ok(d) = split_doc::package_text(p) {
        let m = spec_upgrade_metadata(d.text, given_uid(d.book), now);
        let log = noted_to(edit::no_changes(), m.notes, m.notes.len() as int);
        if let Ok(v) = manifest::spec_members(p) {
            if let Ok((t, n)) = declared_from(p, v, m.cover, version_set(m.text), 0, 0) {
                let s = Stage {
                    p,
                    log: fonts_noted(t, declared_noted(log, n)),
                    text: fonts_set(t),
                };
                lemma_nav_passes(s, d.book, d.base(), name);
                lemma_end_passes(nav_written(s, d.book, d.base()), d, m.uid, name);
            }
        }
    }
}

} // verus!
