//! Surgical in-place metadata edit for an EPUB's package document: sets title,
//! authors, language, publisher, date and ASIN on its Dublin Core elements
//! without touching the rest of the book.
//!
//! A single-valued field has its text replaced in place, or the element is
//! appended to `<metadata>`. Authors replace the whole run of `<dc:creator>`
//! elements, and what refined a replaced creator goes with it. A `None` field is
//! left untouched.
use vstd::prelude::*;

use crate::edit;
use crate::escaping;
use crate::manifest;
use crate::markup;
use crate::text;
use crate::archive::Part;
use crate::codec::{bytes_of, slice_copy, utf8_text};
use crate::edit::EpubPackage;
use crate::error::{Error, ErrorKind, Fault};
use crate::manifest::line_start_of;
use crate::markup::{attr_value, escape_text};
use crate::text::{
    add_str, ascii_white, blank, chars_of, copy, decimal_of, find, find_char, find_str, has_str,
    join2, lowered, put, put_str, rfind_str, starts_str, string_of, strs_have,
};

verus! {

/// Which metadata fields to set. `None` leaves a field untouched.
#[derive(Debug, Clone)]
pub struct MetadataPatch {
    pub title: Option<String>,
    /// Replaces the full ordered author list.
    pub authors: Option<Vec<String>>,
    pub language: Option<String>,
    pub publisher: Option<String>,
    /// Publication date.
    pub date: Option<String>,
    pub asin: Option<String>,
}

/// What a `MetadataPatch` says.
#[verifier::ext_equal]
pub struct Patch {
    pub title: Option<Seq<char>>,
    pub authors: Option<Seq<Seq<char>>>,
    pub language: Option<Seq<char>>,
    pub publisher: Option<Seq<char>>,
    pub date: Option<Seq<char>>,
    pub asin: Option<Seq<char>>,
}

impl View for MetadataPatch {
    type V = Patch;

    open spec fn view(&self) -> Patch {
        Patch {
            title: text::opt_str(self.title),
            authors: match self.authors {
                Some(v) => Some(text::strs(v@)),
                None => None,
            },
            language: text::opt_str(self.language),
            publisher: text::opt_str(self.publisher),
            date: text::opt_str(self.date),
            asin: text::opt_str(self.asin),
        }
    }
}

/// The patch sets no field.
pub open spec fn spec_is_empty(p: Patch) -> bool {
    p.title is None && p.authors is None && p.language is None && p.publisher is None && p.date
        is None && p.asin is None
}

impl Default for MetadataPatch {
    fn default() -> (r: MetadataPatch)
        ensures
            spec_is_empty(r@),
    {
        MetadataPatch {
            title: None,
            authors: None,
            language: None,
            publisher: None,
            date: None,
            asin: None,
        }
    }
}

impl MetadataPatch {
    /// Whether the patch sets no field.
    pub fn is_empty(&self) -> (r: bool)
        ensures
            r == spec_is_empty(self@),
    {
        self.title.is_none() && self.authors.is_none() && self.language.is_none()
            && self.publisher.is_none() && self.date.is_none() && self.asin.is_none()
    }
}

// ---------------------------------------------------------------- single fields

/// The name of a tag ends before `i`: at the end of the text, a `>`, or white
/// space.
pub open spec fn tag_edge(t: Seq<char>, i: int) -> bool {
    i >= t.len() || t[i] == '>' || text::is_ascii_white(t[i])
}

/// The name of an element ends before `i`, whether or not it closes itself
/// there.
pub open spec fn name_edge(t: Seq<char>, i: int) -> bool {
    tag_edge(t, i) || t[i] == '/'
}

/// The tag that ends with the `>` at `g` closes itself.
pub open spec fn closes_itself(t: Seq<char>, g: int) -> bool {
    g > 0 && t[g - 1] == '/'
}

/// The inside of the first element from `from` on that `open` starts and `close`
/// ends, one that closes itself passed over.
pub open spec fn content_from(t: Seq<char>, open: Seq<char>, close: Seq<char>, from: int) -> Option<
    (int, int),
>
    decreases t.len() - from,
{
    match text::spec_find(t, open, from) {
        Some(a) if 0 <= from <= a && a + open.len() <= t.len() && open.len() > 0 => if tag_edge(
            t,
            a + open.len(),
        ) {
            match text::spec_find_char(t, '>', a) {
                Some(g) if a <= g < t.len() => if closes_itself(t, g) {
                    content_from(t, open, close, g + 1)
                } else {
                    match text::spec_find(t, close, g + 1) {
                        Some(e) => Some((g + 1, e)),
                        None => None,
                    }
                },
                _ => None,
            }
        } else {
            content_from(t, open, close, a + open.len())
        },
        _ => None,
    }
}

/// The inside of the first `<dc:tag>` element.
pub open spec fn dc_content(t: Seq<char>, tag: Seq<char>) -> Option<(int, int)> {
    content_from(t, "<dc:"@ + tag, "</dc:"@ + tag + ">"@, 0)
}

/// The package document with the element at the end of its metadata; as it was
/// where that has no end.
pub open spec fn injected(t: Seq<char>, element: Seq<char>) -> Seq<char> {
    match text::spec_rfind(t, "</metadata>"@, t.len() as int) {
        Some(k) => t.subrange(0, k) + "  "@ + element + "\n"@ + t.subrange(k, t.len() as int),
        None => t,
    }
}

/// The package document with the text of the first `<dc:tag>` element set, or
/// the element appended.
pub open spec fn spec_set_single(t: Seq<char>, tag: Seq<char>, value: Seq<char>) -> Seq<char> {
    match dc_content(t, tag) {
        Some((a, b)) => t.subrange(0, a) + markup::spec_escape_text(value) + t.subrange(
            b,
            t.len() as int,
        ),
        None => injected(
            t,
            "<dc:"@ + tag + ">"@ + markup::spec_escape_text(value) + "</dc:"@ + tag + ">"@,
        ),
    }
}

fn edge_at(t: &[char], i: usize) -> (r: bool)
    ensures
        r == tag_edge(t@, i as int),
{
    i >= t.len() || t[i] == '>' || ascii_white(t[i])
}

fn content_of(t: &[char], open: &[char], close: &[char]) -> (r: Option<(usize, usize)>)
    requires
        open@.len() > 0,
    ensures
        markup::span2(r) == content_from(t@, open@, close@, 0),
        r matches Some((a, b)) ==> a <= b <= t@.len(),
{
    let n = t.len();
    let mut from: usize = 0;
    loop
        invariant
            n == t@.len(),
            from <= n,
            open@.len() > 0,
            content_from(t@, open@, close@, 0) == content_from(t@, open@, close@, from as int),
        decreases n - from,
    {
        let a = match find(t, open, from) {
            Some(a) => a,
            None => {
                return None;
            },
        };
        let behind = a + open.len();
        if edge_at(t, behind) {
            let g = match find_char(t, '>', a) {
                Some(g) => g,
                None => {
                    return None;
                },
            };
            if g > 0 && t[g - 1] == '/' {
                from = g + 1;
            } else {
                return match find(t, close, g + 1) {
                    Some(e) => Some((g + 1, e)),
                    None => None,
                };
            }
        } else {
            from = behind;
        }
    }
}

fn inject_into_metadata(t: &[char], element: &[char]) -> (r: Vec<char>)
    ensures
        r@ == injected(t@, element@),
{
    match rfind_str(t, "</metadata>", t.len()) {
        Some(k) => {
            let mut out = copy(&t[0..k]);
            put_str(&mut out, "  ");
            put(&mut out, element);
            put_str(&mut out, "\n");
            put(&mut out, &t[k..t.len()]);
            out
        },
        None => copy(t),
    }
}

/// The package document with the text of the first `<dc:tag>` element set,
/// attributes kept; the element is appended to `<metadata>` where there is none.
pub fn set_single(opf: &str, tag: &str, value: &str) -> (r: String)
    ensures
        r@ == spec_set_single(opf@, tag@, value@),
{
    let t = chars_of(opf);
    let open = join2(&chars_of("<dc:"), &chars_of(tag));
    let mut close = join2(&chars_of("</dc:"), &chars_of(tag));
    put_str(&mut close, ">");
    proof {
        reveal_strlit("<dc:");
    }
    match content_of(&t, &open, &close) {
        Some((a, b)) => {
            let mut out = copy(&t[0..a]);
            put_str(&mut out, &escape_text(value));
            put(&mut out, &t[b..t.len()]);
            string_of(&out)
        },
        None => {
            let mut element = join2(&chars_of("<dc:"), &chars_of(tag));
            put_str(&mut element, ">");
            put_str(&mut element, &escape_text(value));
            put_str(&mut element, "</dc:");
            put_str(&mut element, tag);
            put_str(&mut element, ">");
            string_of(&inject_into_metadata(&t, &element))
        },
    }
}

// ---------------------------------------------------------------- the ASIN

/// The tag, up to its `>`, is that of an ASIN.
pub open spec fn is_asin(tag: Seq<char>) -> bool {
    let s = text::spec_lower(tag);
    text::spec_contains(s, "scheme=\"asin\""@) || text::spec_contains(s, "scheme='asin'"@)
        || text::spec_contains(s, "scheme=\"mobi-asin\""@) || text::spec_contains(
        s,
        "scheme='mobi-asin'"@,
    ) || text::spec_contains(s, "id=\"asin\""@) || text::spec_contains(s, "id='asin'"@)
}

/// The inside of the first ASIN from `from` on.
pub open spec fn asin_from(t: Seq<char>, from: int) -> Option<(int, int)>
    decreases t.len() - from,
{
    match text::spec_find(t, "<dc:identifier"@, from) {
        Some(a) if 0 <= from <= a => match text::spec_find_char(t, '>', a) {
            Some(g) if a <= g < t.len() => {
                let e = text::spec_find(t, "</dc:identifier>"@, g + 1);
                if is_asin(t.subrange(a, g)) && !closes_itself(t, g) && e is Some {
                    Some((g + 1, e->0))
                } else {
                    asin_from(t, g + 1)
                }
            },
            _ => None,
        },
        _ => None,
    }
}

/// The package document with its ASIN set, or one appended.
pub open spec fn spec_set_asin(t: Seq<char>, asin: Seq<char>) -> Seq<char> {
    match asin_from(t, 0) {
        Some((a, b)) => t.subrange(0, a) + markup::spec_escape_text(asin) + t.subrange(
            b,
            t.len() as int,
        ),
        None => injected(
            t,
            "<dc:identifier opf:scheme=\"ASIN\">"@ + markup::spec_escape_text(asin)
                + "</dc:identifier>"@,
        ),
    }
}

fn names_asin(tag: &[char]) -> (r: bool)
    ensures
        r == is_asin(tag@),
{
    let s = lowered(tag);
    has_str(&s, "scheme=\"asin\"") || has_str(&s, "scheme='asin'") || has_str(
        &s,
        "scheme=\"mobi-asin\"",
    ) || has_str(&s, "scheme='mobi-asin'") || has_str(&s, "id=\"asin\"") || has_str(
        &s,
        "id='asin'",
    )
}

fn asin_of(t: &[char]) -> (r: Option<(usize, usize)>)
    ensures
        markup::span2(r) == asin_from(t@, 0),
        r matches Some((a, b)) ==> a <= b <= t@.len(),
{
    let n = t.len();
    let mut from: usize = 0;
    loop
        invariant
            n == t@.len(),
            from <= n,
            asin_from(t@, 0) == asin_from(t@, from as int),
        decreases n - from,
    {
        let a = match find_str(t, "<dc:identifier", from) {
            Some(a) => a,
            None => {
                return None;
            },
        };
        let g = match find_char(t, '>', a) {
            Some(g) => g,
            None => {
                return None;
            },
        };
        if names_asin(&t[a..g]) && !(g > 0 && t[g - 1] == '/') {
            if let Some(e) = find_str(t, "</dc:identifier>", g + 1) {
                return Some((g + 1, e));
            }
        }
        from = g + 1;
    }
}

/// The package document with its ASIN set, or one appended.
pub fn set_asin(opf: &str, asin: &str) -> (r: String)
    ensures
        r@ == spec_set_asin(opf@, asin@),
{
    let t = chars_of(opf);
    match asin_of(&t) {
        Some((a, b)) => {
            let mut out = copy(&t[0..a]);
            put_str(&mut out, &escape_text(asin));
            put(&mut out, &t[b..t.len()]);
            string_of(&out)
        },
        None => {
            let mut element = chars_of("<dc:identifier opf:scheme=\"ASIN\">");
            put_str(&mut element, &escape_text(asin));
            put_str(&mut element, "</dc:identifier>");
            string_of(&inject_into_metadata(&t, &element))
        },
    }
}

// ---------------------------------------------------------------- creators

/// The elements for the first `n` authors, each on a line of its own.
pub open spec fn creators_to(v: Seq<Seq<char>>, n: int) -> Seq<char>
    decreases n,
{
    if n <= 0 {
        Seq::empty()
    } else {
        creators_to(v, n - 1) + (if n > 1 {
            "\n    "@
        } else {
            Seq::empty()
        }) + "<dc:creator id=\"creator"@ + text::decimal(n as nat) + "\">"@
            + markup::spec_escape_text(v[n - 1]) + "</dc:creator>"@
    }
}

/// The text without its creators: what is written, up to where the source is
/// dealt with, where the first of them stood, and their ids.
#[verifier::ext_equal]
pub struct Uncreated {
    pub out: Seq<char>,
    pub copied: int,
    pub first: Option<int>,
    pub ids: Seq<Seq<char>>,
}

/// The end of the creator that starts at `a`, whose tag ends with the `>` at
/// `g`.
pub open spec fn creator_end(t: Seq<char>, g: int) -> int {
    if closes_itself(t, g) {
        g + 1
    } else {
        match text::spec_find(t, "</dc:creator>"@, g) {
            Some(c) => c + 13,
            None => g + 1,
        }
    }
}

/// The creators from `scan` on left out.
pub open spec fn uncreated_from(t: Seq<char>, scan: int, s: Uncreated) -> Uncreated
    decreases t.len() - scan,
{
    match text::spec_find(t, "<dc:creator"@, scan) {
        Some(a) if 0 <= scan <= a && a + 11 <= t.len() => if !name_edge(t, a + 11) {
            uncreated_from(t, a + 11, s)
        } else {
            match text::spec_find_char(t, '>', a) {
                Some(g) if a <= g < t.len() => {
                    let end = creator_end(t, g);
                    let out = s.out + t.subrange(s.copied, a);
                    let next = Uncreated {
                        out,
                        copied: end,
                        first: match s.first {
                            Some(f) => Some(f),
                            None => Some(out.len() as int),
                        },
                        ids: match markup::spec_attr_value(t.subrange(a, g), "id"@) {
                            Some(id) => s.ids.push(id),
                            None => s.ids,
                        },
                    };
                    proof {
                        reveal_strlit("</dc:creator>");
                        text::lemma_find(t, "</dc:creator>"@, g);
                    }
                    uncreated_from(t, end, next)
                },
                _ => s,
            }
        },
        _ => s,
    }
}

/// The text without its creators.
pub open spec fn uncreated(t: Seq<char>) -> Uncreated {
    uncreated_from(
        t,
        0,
        Uncreated { out: Seq::empty(), copied: 0, first: None, ids: Seq::empty() },
    )
}

/// The end of the `meta` element whose tag ends with the `>` at `g`.
pub open spec fn meta_end(t: Seq<char>, g: int) -> int {
    if closes_itself(t, g) {
        g + 1
    } else {
        match text::spec_find(t, "</meta>"@, g + 1) {
            Some(c) => c + 7,
            None => g + 1,
        }
    }
}

/// The element refines one of the ids.
pub open spec fn refines_one(tag: Seq<char>, ids: Seq<Seq<char>>) -> bool {
    match markup::spec_attr_value(tag, "refines"@) {
        Some(v) => text::spec_starts(v, "#"@) && ids.contains(v.subrange(1, v.len() as int)),
        None => false,
    }
}

/// The name `meta` ends before `i`.
pub open spec fn meta_edge(t: Seq<char>, i: int) -> bool {
    i >= t.len() || t[i] == '>' || t[i] == '/' || text::is_ascii_white(t[i])
}

/// What is cut for a `meta` element from `a` to `end`: its line, where it stands
/// first on it.
pub open spec fn meta_cut(t: Seq<char>, a: int, end: int) -> (int, int) {
    let line = manifest::line_start(t, a);
    (
        if text::all_white(t.subrange(line, a)) {
            line
        } else {
            a
        },
        if end < t.len() && t[end] == '\n' {
            end + 1
        } else {
            end
        },
    )
}

/// The text from `copied` on, without the `meta` elements from `scan` on that
/// refine one of the ids.
pub open spec fn unrefined_from(t: Seq<char>, ids: Seq<Seq<char>>, scan: int, copied: int) -> Seq<char>
    decreases t.len() - scan,
{
    match text::spec_find(t, "<meta"@, scan) {
        Some(a) if 0 <= scan <= a && a + 5 <= t.len() => if !meta_edge(t, a + 5) {
            unrefined_from(t, ids, a + 5, copied)
        } else {
            match text::spec_find_char(t, '>', a) {
                Some(g) if a <= g < t.len() => {
                    let end = meta_end(t, g);
                    proof {
                        reveal_strlit("</meta>");
                        text::lemma_find(t, "</meta>"@, g + 1);
                    }
                    if refines_one(t.subrange(a, g + 1), ids) {
                        let (x, y) = meta_cut(t, a, end);
                        let from = if x < copied {
                            copied
                        } else {
                            x
                        };
                        t.subrange(copied, from) + unrefined_from(t, ids, y, y)
                    } else {
                        unrefined_from(t, ids, end, copied)
                    }
                },
                _ => t.subrange(copied, t.len() as int),
            }
        },
        _ => t.subrange(copied, t.len() as int),
    }
}

/// The text without the `meta` elements that refine one of the ids.
pub open spec fn unrefined(t: Seq<char>, ids: Seq<Seq<char>>) -> Seq<char> {
    if ids.len() == 0 {
        t
    } else {
        unrefined_from(t, ids, 0, 0)
    }
}

/// The package document with its run of creators replaced by the authors.
pub open spec fn spec_set_creators(t: Seq<char>, authors: Seq<Seq<char>>) -> Seq<char> {
    let new = creators_to(authors, authors.len() as int);
    let s = uncreated(t);
    let out = s.out + t.subrange(s.copied, t.len() as int);
    unrefined(
        match s.first {
            Some(k) => out.subrange(0, k) + new + out.subrange(k, out.len() as int),
            None => injected(out, new),
        },
        s.ids,
    )
}

fn creators_of(v: &Vec<String>) -> (r: Vec<char>)
    ensures
        r@ == creators_to(text::strs(v@), v@.len() as int),
{
    let ghost all = text::strs(v@);
    let mut out: Vec<char> = Vec::new();
    let mut i: usize = 0;
    while i < v.len()
        invariant
            i <= v@.len(),
            all == text::strs(v@),
            out@ == creators_to(all, i as int),
        decreases v@.len() - i,
    {
        assert(all[i as int] == v@[i as int]@);
        let ghost before = out@;
        if i > 0 {
            put_str(&mut out, "\n    ");
        } else {
            assert(out@ =~= before + Seq::<char>::empty());
        }
        put_str(&mut out, "<dc:creator id=\"creator");
        put(&mut out, &decimal_of(i + 1));
        put_str(&mut out, "\">");
        put_str(&mut out, &escape_text(&v[i]));
        put_str(&mut out, "</dc:creator>");
        i = i + 1;
    }
    out
}

struct Stripped {
    out: Vec<char>,
    copied: usize,
    first: Option<usize>,
    ids: Vec<String>,
}

impl Stripped {
    spec fn says(self) -> Uncreated {
        Uncreated {
            out: self.out@,
            copied: self.copied as int,
            first: text::pos(self.first),
            ids: text::strs(self.ids@),
        }
    }
}

fn strip_creators(t: &[char]) -> (r: Stripped)
    ensures
        r.says() == uncreated(t@),
        r.copied <= t@.len(),
        r.first matches Some(k) ==> k <= r.out@.len(),
{
    let n = t.len();
    let mut s = Stripped { out: Vec::new(), copied: 0, first: None, ids: Vec::new() };
    let mut scan: usize = 0;
    proof {
        reveal_strlit("<dc:creator");
        reveal_strlit("</dc:creator>");
        assert(text::strs(s.ids@) =~= Seq::<Seq<char>>::empty());
    }
    loop
        invariant
            n == t@.len(),
            "<dc:creator"@.len() == 11,
            "</dc:creator>"@.len() == 13,
            s.copied <= scan <= n,
            s.first matches Some(k) ==> k <= s.out@.len(),
            uncreated(t@) == uncreated_from(t@, scan as int, s.says()),
        decreases n - scan,
    {
        let a = match find_str(t, "<dc:creator", scan) {
            Some(a) => a,
            None => {
                return s;
            },
        };
        if !(edge_at(t, a + 11) || t[a + 11] == '/') {
            scan = a + 11;
        } else {
            let g = match find_char(t, '>', a) {
                Some(g) => g,
                None => {
                    return s;
                },
            };
            let end = if g > 0 && t[g - 1] == '/' {
                g + 1
            } else {
                match find_str(t, "</dc:creator>", g) {
                    Some(c) => c + 13,
                    None => g + 1,
                }
            };
            assert(end == creator_end(t@, g as int));
            let ghost before = s.says();
            if let Some(id) = attr_value(&string_of(&t[a..g]), "id") {
                add_str(&mut s.ids, id);
            }
            put(&mut s.out, &t[s.copied..a]);
            if s.first.is_none() {
                s.first = Some(s.out.len());
            }
            s.copied = end;
            scan = end;
        }
    }
}

fn refines_any(tag: &str, ids: &Vec<String>) -> (r: bool)
    ensures
        r == refines_one(tag@, text::strs(ids@)),
{
    match attr_value(tag, "refines") {
        Some(v) => {
            let c = chars_of(&v);
            proof {
                reveal_strlit("#");
            }
            starts_str(&c, "#") && strs_have(ids, &c[1..c.len()])
        },
        None => false,
    }
}

fn strip_meta_refines(t: &[char], ids: &Vec<String>) -> (r: Vec<char>)
    ensures
        r@ == unrefined(t@, text::strs(ids@)),
{
    let ghost is = text::strs(ids@);
    assert(is.len() == ids@.len());
    if ids.len() == 0 {
        return copy(t);
    }
    let n = t.len();
    let mut out: Vec<char> = Vec::new();
    let mut scan: usize = 0;
    let mut copied: usize = 0;
    proof {
        reveal_strlit("<meta");
        reveal_strlit("</meta>");
    }
    loop
        invariant
            n == t@.len(),
            is == text::strs(ids@),
            is.len() > 0,
            "<meta"@.len() == 5,
            "</meta>"@.len() == 7,
            copied <= scan <= n,
            out@ + unrefined_from(t@, is, scan as int, copied as int) == unrefined(t@, is),
        decreases n - scan,
    {
        let ghost before = out@;
        let ghost old_scan = scan as int;
        let ghost old_copied = copied as int;
        let a = match find_str(t, "<meta", scan) {
            Some(a) => a,
            None => {
                put(&mut out, &t[copied..n]);
                return out;
            },
        };
        let behind = a + 5;
        if !(behind >= n || t[behind] == '>' || t[behind] == '/' || ascii_white(t[behind])) {
            scan = behind;
        } else {
            let g = match find_char(t, '>', a) {
                Some(g) => g,
                None => {
                    put(&mut out, &t[copied..n]);
                    return out;
                },
            };
            let end = if g > 0 && t[g - 1] == '/' {
                g + 1
            } else {
                match find_str(t, "</meta>", g + 1) {
                    Some(c) => c + 7,
                    None => g + 1,
                }
            };
            assert(end == meta_end(t@, g as int));
            if refines_any(&string_of(&t[a..g + 1]), ids) {
                let line = line_start_of(t, a);
                let x = if blank(&t[line..a]) {
                    line
                } else {
                    a
                };
                let y = if end < n && t[end] == '\n' {
                    end + 1
                } else {
                    end
                };
                let from = if x < copied {
                    copied
                } else {
                    x
                };
                put(&mut out, &t[copied..from]);
                copied = y;
                scan = y;
                assert(out@ + unrefined_from(t@, is, scan as int, copied as int) =~= before
                    + unrefined_from(t@, is, old_scan, old_copied));
            } else {
                scan = end;
            }
        }
    }
}

/// The package document with its run of creators replaced by the authors, one
/// element each, where the first of them stood; what refined a creator that
/// went goes with it.
pub fn set_creators(opf: &str, authors: &Vec<String>) -> (r: String)
    ensures
        r@ == spec_set_creators(opf@, text::strs(authors@)),
{
    let t = chars_of(opf);
    let new = creators_of(authors);
    assert(text::strs(authors@).len() == authors@.len());
    let s = strip_creators(&t);
    let mut out = copy(&s.out);
    put(&mut out, &t[s.copied..t.len()]);
    let with_new = match s.first {
        Some(k) => {
            let mut w = copy(&out[0..k]);
            put(&mut w, &new);
            put(&mut w, &out[k..out.len()]);
            w
        },
        None => inject_into_metadata(&out, &new),
    };
    string_of(&strip_meta_refines(&with_new, &s.ids))
}

// ---------------------------------------------------------------- a patch

/// The text with a field set, where the patch sets it.
pub open spec fn single_set(t: Seq<char>, tag: Seq<char>, value: Option<Seq<char>>) -> Seq<char> {
    match value {
        Some(v) => spec_set_single(t, tag, v),
        None => t,
    }
}

/// The package document with every field of the patch set.
pub open spec fn spec_rewrite_metadata(t: Seq<char>, p: Patch) -> Seq<char> {
    let a = single_set(t, "title"@, p.title);
    let b = single_set(a, "language"@, p.language);
    let c = single_set(b, "publisher"@, p.publisher);
    let d = single_set(c, "date"@, p.date);
    let e = match p.asin {
        Some(x) => spec_set_asin(d, x),
        None => d,
    };
    match p.authors {
        Some(v) => spec_set_creators(e, v),
        None => e,
    }
}

fn set_given(t: String, tag: &str, value: &Option<String>) -> (r: String)
    ensures
        r@ == single_set(t@, tag@, text::opt_str(*value)),
{
    match value {
        Some(v) => set_single(&t, tag, v),
        None => t,
    }
}

/// The package document with every field of the patch set.
pub fn rewrite_metadata(opf: &str, patch: &MetadataPatch) -> (r: String)
    ensures
        r@ == spec_rewrite_metadata(opf@, patch@),
{
    let s = set_given(string_of(&chars_of(opf)), "title", &patch.title);
    let s = set_given(s, "language", &patch.language);
    let s = set_given(s, "publisher", &patch.publisher);
    let s = set_given(s, "date", &patch.date);
    let s = match &patch.asin {
        Some(a) => set_asin(&s, a),
        None => s,
    };
    match &patch.authors {
        Some(v) => set_creators(&s, v),
        None => s,
    }
}

/// The package once every field of the patch is set in the package document
/// `t`.
pub open spec fn patched(p: Seq<Part>, path: Seq<char>, t: Seq<char>, patch: Patch) -> Seq<Part> {
    edit::spec_replace(p, path, vstd::utf8::encode_utf8(spec_rewrite_metadata(t, patch)))
}

/// The package and its package document, where the bytes hold an EPUB whose
/// package document can be found: its path and its bytes.
pub open spec fn opened(bytes: Seq<u8>) -> Result<(Seq<Part>, Seq<char>, Seq<u8>), Fault> {
    match edit::spec_parse(bytes) {
        None => Err(Fault::Archive),
        Some(p) => match edit::spec_opf_path(p) {
            Err(f) => Err(f),
            Ok(path) => match edit::spec_opf_bytes(p) {
                Err(f) => Err(f),
                Ok(b) => Ok((p, path, b)),
            },
        },
    }
}

/// Sets the fields of the patch in the EPUB's package document, and gives the
/// repackaged bytes; an empty patch gives the bytes as they are. A package
/// document that is not UTF-8 is refused.
pub fn edit_metadata(epub_bytes: &[u8], patch: &MetadataPatch) -> (r: Result<Vec<u8>, Error>)
    ensures
        spec_is_empty(patch@) ==> (r matches Ok(b) && b@ == epub_bytes@),
        !spec_is_empty(patch@) ==> match opened(epub_bytes@) {
            Err(f) => r matches Err(e) && e@ == f,
            Ok((p, path, b)) => if vstd::utf8::valid_utf8(b) {
                edit::written(r, patched(p, path, vstd::utf8::decode_utf8(b), patch@))
            } else {
                r matches Err(e) && e@ matches Fault::Said(kind, m) && kind
                    == ErrorKind::InvalidData && text::spec_starts(m, "OPF not UTF-8: "@)
            },
        },
{
    if patch.is_empty() {
        return Ok(slice_copy(epub_bytes));
    }
    let mut pkg = match EpubPackage::parse(epub_bytes) {
        Ok(p) => p,
        Err(e) => {
            return Err(e);
        },
    };
    let path = match pkg.opf_path() {
        Ok(p) => p,
        Err(e) => {
            return Err(e);
        },
    };
    let opf = match pkg.opf_bytes() {
        Ok(b) => utf8_text(b),
        Err(e) => {
            return Err(e);
        },
    };
    match opf {
        Ok(t) => {
            proof {
                vstd::utf8::encode_utf8_decode_utf8(t@);
            }
            let out = rewrite_metadata(&t, patch);
            pkg.replace(&path, bytes_of(&out));
            pkg.into_bytes()
        },
        Err(reason) => {
            let mut words = chars_of("OPF not UTF-8: ");
            put_str(&mut words, &reason);
            assert(words@.subrange(0, "OPF not UTF-8: "@.len() as int) =~= "OPF not UTF-8: "@);
            Err(Error::Said(ErrorKind::InvalidData, string_of(&words)))
        },
    }
}

// ---------------------------------------------------------------- what is set is read back

/// The name of an element: no character that ends a name.
pub open spec fn is_element_name(tag: Seq<char>) -> bool {
    &&& tag.len() > 0
    &&& forall|i: int|
        0 <= i < tag.len() ==> (#[trigger] tag[i]) != '<' && tag[i] != '>' && tag[i] != '/'
            && !text::is_ascii_white(tag[i])
}

pub proof fn lemma_find_is(t: Seq<char>, p: Seq<char>, i: int, k: int)
    requires
        0 <= i <= k,
        text::is_at(t, p, k),
        forall|m: int| i <= m < k ==> !#[trigger] text::is_at(t, p, m),
    ensures
        text::spec_find(t, p, i) == Some(k),
{
    text::lemma_find(t, p, i);
    if let Some(x) = text::spec_find(t, p, i) {
        assert(text::is_at(t, p, x));
    }
}

/// The search for the end of an element's text, when that text is replaced.
proof fn lemma_replaced_close(t: Seq<char>, a: int, b: int, esc: Seq<char>, close: Seq<char>)
    requires
        0 <= a <= b <= t.len(),
        text::is_at(t, close, b),
        close.len() > 0,
        close[0] == '<',
        !esc.contains('<'),
    ensures
        text::spec_find(
            t.subrange(0, a) + esc + t.subrange(b, t.len() as int),
            close,
            a,
        ) == Some(a + esc.len()),
{
    let new = t.subrange(0, a) + esc + t.subrange(b, t.len() as int);
    let e = a + esc.len();
    assert(new.subrange(e, e + close.len()) =~= t.subrange(b, b + close.len()));
    assert forall|m: int| a <= m < e implies !#[trigger] text::is_at(new, close, m) by {
        if text::is_at(new, close, m) {
            assert(new.subrange(m, m + close.len())[0] == '<');
            assert(new[m] == esc[m - a]);
            assert(esc.contains(esc[m - a]));
        }
    }
    lemma_find_is(new, close, a, e);
}

pub proof fn lemma_same_find(t: Seq<char>, new: Seq<char>, p: Seq<char>, a: int, i: int, k: int)
    requires
        0 <= a <= t.len(),
        a <= new.len(),
        new.subrange(0, a) == t.subrange(0, a),
        0 <= i,
        text::spec_find(t, p, i) == Some(k),
        k + p.len() <= a,
    ensures
        text::spec_find(new, p, i) == Some(k),
{
    text::lemma_find(t, p, i);
    assert forall|m: int| i <= m <= k implies text::is_at(new, p, m) == #[trigger] text::is_at(
        t,
        p,
        m,
    ) by {
        assert(new.subrange(m, m + p.len()) =~= new.subrange(0, a).subrange(m, m + p.len()));
        assert(t.subrange(m, m + p.len()) =~= t.subrange(0, a).subrange(m, m + p.len()));
    }
    assert forall|m: int| i <= m < k implies !#[trigger] text::is_at(new, p, m) by {
        assert(!text::is_at(t, p, m));
    }
    assert(text::is_at(t, p, k));
    lemma_find_is(new, p, i, k);
}

pub proof fn lemma_same_find_char(t: Seq<char>, new: Seq<char>, c: char, a: int, i: int, k: int)
    requires
        0 <= a <= t.len(),
        a <= new.len(),
        new.subrange(0, a) == t.subrange(0, a),
        0 <= i,
        text::spec_find_char(t, c, i) == Some(k),
        k < a,
    ensures
        text::spec_find_char(new, c, i) == Some(k),
{
    text::lemma_find_char(t, c, i);
    text::lemma_find_char(new, c, i);
    assert(new[k] == new.subrange(0, a)[k] && t[k] == t.subrange(0, a)[k]);
    if let Some(x) = text::spec_find_char(new, c, i) {
        if x < k {
            assert(new[x] == new.subrange(0, a)[x] && t[x] == t.subrange(0, a)[x]);
        }
    }
}

proof fn lemma_content_place(
    t: Seq<char>,
    open: Seq<char>,
    close: Seq<char>,
    from: int,
    esc: Seq<char>,
)
    requires
        0 <= from,
        open.len() > 0,
        !open.contains('>'),
        close.len() > 0,
        close[0] == '<',
        !esc.contains('<'),
        content_from(t, open, close, from) is Some,
    ensures
        ({
            let (a, b) = content_from(t, open, close, from)->0;
            &&& from < a <= b <= t.len()
            &&& text::is_at(t, close, b)
            &&& content_from(
                t.subrange(0, a) + esc + t.subrange(b, t.len() as int),
                open,
                close,
                from,
            ) == Some((a, a + esc.len()))
        }),
    decreases t.len() - from,
{
    let (a, b) = content_from(t, open, close, from)->0;
    text::lemma_find(t, open, from);
    let x = text::spec_find(t, open, from)->0;
    let new = t.subrange(0, a) + esc + t.subrange(b, t.len() as int);
    text::lemma_find_char(t, '>', x);
    if tag_edge(t, x + open.len()) {
        let g = text::spec_find_char(t, '>', x)->0;
        if g < x + open.len() {
            assert(t.subrange(x, x + open.len())[g - x] == open[g - x]);
            assert(open.contains(open[g - x]));
        }
        if closes_itself(t, g) {
            lemma_content_place(t, open, close, g + 1, esc);
        } else {
            text::lemma_find(t, close, g + 1);
            lemma_replaced_close(t, a, b, esc, close);
        }
        assert(new.subrange(0, a) =~= t.subrange(0, a));
        lemma_same_find(t, new, open, a, from, x);
        lemma_same_find_char(t, new, '>', a, x, g);
        assert(new[x + open.len()] == t[x + open.len()]);
        if g > 0 {
            assert(new[g - 1] == t[g - 1]);
        }
    } else {
        lemma_content_place(t, open, close, x + open.len(), esc);
        assert(new.subrange(0, a) =~= t.subrange(0, a));
        lemma_same_find(t, new, open, a, from, x);
        assert(new[x + open.len()] == t[x + open.len()]);
    }
}

proof fn lemma_element_content(
    pre: Seq<char>,
    open: Seq<char>,
    esc: Seq<char>,
    close: Seq<char>,
    post: Seq<char>,
)
    requires
        open.len() > 0,
        !open.contains('>'),
        open.last() != '/',
        close.len() > 0,
        close[0] == '<',
        !esc.contains('<'),
        forall|m: int|
            0 <= m < pre.len() ==> !#[trigger] text::is_at(
                pre + (open + seq!['>'] + esc + close) + post,
                open,
                m,
            ),
    ensures
        ({
            let new = pre + (open + seq!['>'] + esc + close) + post;
            let a = pre.len() + open.len() + 1int;
            &&& content_from(new, open, close, 0) == Some((a, a + esc.len()))
            &&& new.subrange(a, a + esc.len()) == esc
        }),
{
    let element = open + seq!['>'] + esc + close;
    let new = pre + element + post;
    let x = pre.len() as int;
    let g = x + open.len();
    let e = g + 1 + esc.len();
    assert(new.subrange(x, g) =~= open);
    assert(new[g] == '>');
    assert(new.subrange(g + 1, e) =~= esc);
    assert(new.subrange(e, e + close.len()) =~= close);
    lemma_find_is(new, open, 0, x);
    assert(text::spec_find_char(new, '>', x) == Some(g)) by {
        text::lemma_find_char(new, '>', x);
        let h = text::spec_find_char(new, '>', x)->0;
        if h < g {
            assert(new[h] == new.subrange(x, g)[h - x]);
            assert(open.contains(open[h - x]));
        }
    }
    assert(new[g - 1] == new.subrange(x, g)[open.len() - 1]);
    assert forall|m: int| g + 1 <= m < e implies !#[trigger] text::is_at(new, close, m) by {
        if text::is_at(new, close, m) {
            assert(new.subrange(m, m + close.len())[0] == close[0]);
            assert(new[m] == new.subrange(g + 1, e)[m - g - 1]);
            assert(esc.contains(esc[m - g - 1]));
        }
    }
    lemma_find_is(new, close, g + 1, e);
}

proof fn lemma_unmentioned(
    t: Seq<char>,
    open: Seq<char>,
    k: int,
    rest: Seq<char>,
)
    requires
        text::spec_find(t, open, 0) is None,
        0 <= k <= t.len(),
        open.len() > 0,
        !open.contains(' '),
    ensures
        forall|m: int|
            0 <= m < k + 2 ==> !#[trigger] text::is_at(
                t.subrange(0, k) + "  "@ + rest,
                open,
                m,
            ),
{
    reveal_strlit("  ");
    let new = t.subrange(0, k) + "  "@ + rest;
    text::lemma_find(t, open, 0);
    assert forall|m: int| 0 <= m < k + 2 implies !#[trigger] text::is_at(new, open, m) by {
        if text::is_at(new, open, m) {
            if m + open.len() <= k {
                assert(new.subrange(m, m + open.len()) =~= t.subrange(m, m + open.len()));
                assert(text::is_at(t, open, m));
            } else {
                let i = if m < k {
                    k
                } else {
                    m
                };
                assert(new[i] == ' ');
                assert(new.subrange(m, m + open.len())[i - m] == open[i - m]);
                assert(open.contains(open[i - m]));
            }
        }
    }
}

/// What is injected, in pieces.
proof fn lemma_injected(t: Seq<char>, k: int, element: Seq<char>)
    requires
        text::spec_rfind(t, "</metadata>"@, t.len() as int) == Some(k),
    ensures
        injected(t, element) == (t.subrange(0, k) + "  "@) + element + ("\n"@ + t.subrange(
            k,
            t.len() as int,
        )),
{
    assert(injected(t, element) =~= (t.subrange(0, k) + "  "@) + element + ("\n"@ + t.subrange(
        k,
        t.len() as int,
    )));
}

/// An element, in pieces.
proof fn lemma_element(tag: Seq<char>, esc: Seq<char>)
    ensures
        "<dc:"@ + tag + ">"@ + esc + "</dc:"@ + tag + ">"@ == ("<dc:"@ + tag) + seq!['>'] + esc + (
        "</dc:"@ + tag + ">"@),
{
    reveal_strlit(">");
    assert(">"@ =~= seq!['>']);
    assert("<dc:"@ + tag + ">"@ + esc + "</dc:"@ + tag + ">"@ =~= ("<dc:"@ + tag) + seq!['>'] + esc
        + ("</dc:"@ + tag + ">"@));
}

proof fn lemma_injected_content(t: Seq<char>, tag: Seq<char>, value: Seq<char>)
    requires
        is_element_name(tag),
        text::spec_find(t, "<dc:"@ + tag, 0) is None,
        text::spec_rfind(t, "</metadata>"@, t.len() as int) is Some,
    ensures
        ({
            let new = spec_set_single(t, tag, value);
            let esc = markup::spec_escape_text(value);
            &&& dc_content(new, tag) matches Some((a, b)) && new.subrange(a, b) == esc
        }),
{
    let open = "<dc:"@ + tag;
    let close = "</dc:"@ + tag + ">"@;
    let esc = markup::spec_escape_text(value);
    let k = text::spec_rfind(t, "</metadata>"@, t.len() as int)->0;
    lemma_rfind(t, "</metadata>"@, t.len() as int);
    assert(dc_content(t, tag) is None);
    lemma_opening(tag);
    escaping::escaping_leaves_no_markup(value);
    let element = open + seq!['>'] + esc + close;
    let pre = t.subrange(0, k) + "  "@;
    let post = "\n"@ + t.subrange(k, t.len() as int);
    lemma_unmentioned(t, open, k, element + post);
    assert(pre + (element + post) =~= pre + element + post);
    assert(pre.len() == k + 2) by {
        reveal_strlit("  ");
    }
    lemma_element_content(pre, open, esc, close, post);
    lemma_element(tag, esc);
    lemma_injected(t, k, element);
}

proof fn lemma_opening(tag: Seq<char>)
    requires
        is_element_name(tag),
    ensures
        ({
            let open = "<dc:"@ + tag;
            &&& !open.contains('>')
            &&& !open.contains(' ')
            &&& open.last() != '/'
            &&& ("</dc:"@ + tag + ">"@)[0] == '<'
        }),
{
    reveal_strlit("<dc:");
    reveal_strlit("</dc:");
    let open = "<dc:"@ + tag;
    assert forall|i: int| 0 <= i < open.len() implies (#[trigger] open[i]) != '>' && open[i]
        != ' ' && (i == open.len() - 1 ==> open[i] != '/') by {
        if i >= 4 {
            assert(open[i] == tag[i - 4]);
        }
    }
}

pub proof fn lemma_rfind_is(s: Seq<char>, p: Seq<char>, k: int)
    requires
        text::is_at(s, p, k),
    ensures
        text::spec_rfind(s, p, s.len() as int) is Some,
{
    lemma_rfind_from(s, p, s.len() as int, k);
}

proof fn lemma_rfind_from(s: Seq<char>, p: Seq<char>, i: int, k: int)
    requires
        text::is_at(s, p, k),
        k <= i,
    ensures
        text::spec_rfind(s, p, i) is Some,
    decreases i,
{
    if i > k && !text::is_at(s, p, i) {
        lemma_rfind_from(s, p, i - 1, k);
    }
}

pub proof fn lemma_rfind(s: Seq<char>, p: Seq<char>, i: int)
    ensures
        text::spec_rfind(s, p, i) matches Some(k) ==> 0 <= k <= i && text::is_at(s, p, k),
    decreases i + 1,
{
    if i >= 0 && !text::is_at(s, p, i) {
        lemma_rfind(s, p, i - 1);
    }
}

/// A field that is set is read back: the first element of the name then holds
/// the value, escaped, and nothing outside its text has changed. The package
/// document either has the element or does not mention it, and then has a place
/// for it.
pub proof fn a_set_field_is_read_back(t: Seq<char>, tag: Seq<char>, value: Seq<char>)
    requires
        is_element_name(tag),
        dc_content(t, tag) is Some || (text::spec_find(t, "<dc:"@ + tag, 0) is None
            && text::spec_rfind(t, "</metadata>"@, t.len() as int) is Some),
    ensures
        ({
            let new = spec_set_single(t, tag, value);
            &&& dc_content(new, tag) matches Some((a, b)) && new.subrange(a, b)
                == markup::spec_escape_text(value)
            &&& dc_content(t, tag) matches Some((a, b)) ==> dc_content(new, tag) == Some(
                (a, a + markup::spec_escape_text(value).len()),
            ) && new == t.subrange(0, a) + markup::spec_escape_text(value) + t.subrange(
                b,
                t.len() as int,
            )
        }),
        markup::spec_unescape(markup::spec_escape_text(value)) == value,
{
    escaping::unescaping_undoes_escaping(value);
    escaping::escaping_leaves_no_markup(value);
    if let Some((a, b)) = dc_content(t, tag) {
        let open = "<dc:"@ + tag;
        let close = "</dc:"@ + tag + ">"@;
        let esc = markup::spec_escape_text(value);
        lemma_opening(tag);
        lemma_content_place(t, open, close, 0, esc);
        let new = spec_set_single(t, tag, value);
        assert(new.subrange(a, a + esc.len()) =~= esc);
    } else {
        lemma_injected_content(t, tag, value);
    }
}

/// An edit of the metadata passes every member but the package document
/// through.
pub proof fn a_patch_touches_only_the_package_document(
    p: Seq<Part>,
    path: Seq<char>,
    t: Seq<char>,
    patch: Patch,
    name: Seq<char>,
)
    requires
        name != path,
    ensures
        edit::spec_get(patched(p, path, t, patch), name) == edit::spec_get(p, name),
        edit::spec_names(patched(p, path, t, patch)) == edit::spec_names(p),
{
    edit::replacing_is_surgical(
        p,
        path,
        vstd::utf8::encode_utf8(spec_rewrite_metadata(t, patch)),
        name,
    );
}

/// A patch that sets no field leaves the package document as it is.
pub proof fn an_empty_patch_changes_nothing(t: Seq<char>, patch: Patch)
    requires
        spec_is_empty(patch),
    ensures
        spec_rewrite_metadata(t, patch) == t,
{
}

proof fn lemma_asin_place(t: Seq<char>, from: int, esc: Seq<char>)
    requires
        0 <= from,
        !esc.contains('<'),
        asin_from(t, from) is Some,
    ensures
        ({
            let (a, b) = asin_from(t, from)->0;
            &&& from < a <= b <= t.len()
            &&& text::is_at(t, "</dc:identifier>"@, b)
            &&& asin_from(t.subrange(0, a) + esc + t.subrange(b, t.len() as int), from) == Some(
                (a, a + esc.len()),
            )
        }),
    decreases t.len() - from,
{
    let open = "<dc:identifier"@;
    let close = "</dc:identifier>"@;
    reveal_strlit("<dc:identifier");
    reveal_strlit("</dc:identifier>");
    let (a, b) = asin_from(t, from)->0;
    let new = t.subrange(0, a) + esc + t.subrange(b, t.len() as int);
    text::lemma_find(t, open, from);
    let x = text::spec_find(t, open, from)->0;
    text::lemma_find_char(t, '>', x);
    let g = text::spec_find_char(t, '>', x)->0;
    text::lemma_find(t, close, g + 1);
    if g < x + open.len() {
        assert(t.subrange(x, x + open.len())[g - x] == open[g - x]);
    }
    let e = text::spec_find(t, close, g + 1);
    let here = is_asin(t.subrange(x, g)) && !closes_itself(t, g) && e is Some;
    if here {
        lemma_replaced_close(t, a, b, esc, close);
    } else {
        lemma_asin_place(t, g + 1, esc);
        text::lemma_find(t, close, b);
        assert(e is Some) by {
            if e is None {
                assert(text::is_at(t, close, b));
            }
        }
    }
    assert(new.subrange(0, a) =~= t.subrange(0, a));
    lemma_same_find(t, new, open, a, from, x);
    lemma_same_find_char(t, new, '>', a, x, g);
    assert(new.subrange(x, g) =~= t.subrange(x, g));
    assert(new[g - 1] == t[g - 1]);
}

/// An ASIN that the package document has is read back once it is set, and nothing
/// outside its text has changed.
pub proof fn a_set_asin_is_read_back(t: Seq<char>, asin: Seq<char>)
    requires
        asin_from(t, 0) is Some,
    ensures
        ({
            let (a, b) = asin_from(t, 0)->0;
            let esc = markup::spec_escape_text(asin);
            let new = spec_set_asin(t, asin);
            &&& asin_from(new, 0) == Some((a, a + esc.len()))
            &&& new.subrange(a, a + esc.len()) == esc
            &&& new == t.subrange(0, a) + esc + t.subrange(b, t.len() as int)
        }),
        markup::spec_unescape(markup::spec_escape_text(asin)) == asin,
{
    let esc = markup::spec_escape_text(asin);
    escaping::unescaping_undoes_escaping(asin);
    escaping::escaping_leaves_no_markup(asin);
    lemma_asin_place(t, 0, esc);
    let (a, b) = asin_from(t, 0)->0;
    assert(spec_set_asin(t, asin).subrange(a, a + esc.len()) =~= esc);
}

} // verus!
