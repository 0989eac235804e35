//! Writing the volumes of a collection as EPUBs of their own.
//!
//! Content documents are copied across as they are; only the three documents that describe the book,
//! the package document, the navigation document and the NCX, are written fresh for each volume.
use vstd::prelude::*;

use crate::edit;
use crate::fresh::fresh;
use crate::fresh;
use crate::markup;
use crate::nav_doc;
use crate::opf;
use crate::package;
use crate::page_shape;
use crate::reach;
use crate::split;
use crate::structure;
use crate::text;
use crate::toc;
use crate::toc_repair;
use crate::toc_shape;
use crate::volume_number;
use crate::archive::Part;
use crate::codec::{bytes_of, utf8_text};
use crate::edit::EpubPackage;
use crate::error::{Error, ErrorKind, Fault, refuse};
use crate::markup::{escape_attr, escape_text};
use crate::nav_doc::{depth, render_nav_doc, render_navmap, render_ncx, render_toc_nav};
use crate::opf::{Book, OpfData, element_attr_of, meta_content_of};
use crate::package::{Found, PackageDoc, member_text, package_doc, spine_documents};
use crate::page_shape::image_only_source;
use crate::reach::reachable_resources;
use crate::split::{Cut, CutAt};
use crate::structure::{basename, dir_of, relativize, resolve_href, strip_fragment};
use crate::text::{
    add_str, chars_of, decimal_of, ends_str, find_char, find_str, has_char, is, join2, lowered,
    put, put_str, rfind_char, starts_str, str_is, string_of, strs_have,
};
use crate::toc::{Toc, TocEntry, copy_entry};
use crate::toc_repair::{language_in, propose_from_pkg, read_book_of};
use crate::toc_shape::merge_by_document_order;
use crate::volume_number::{Number, trim_number};

verus! {

// ---------------------------------------------------------------- links

/// A link leads out of the volume: to a document that it does not hold. A fragment alone stays in
/// its document.
pub open spec fn leaves(href: Seq<char>, dir: Seq<char>, kept: Seq<Seq<char>>) -> bool {
    let target = toc_shape::document(structure::spec_resolve_href(dir, href));
    !text::spec_starts(href, "#"@) && !href.contains(':') && target.len() > 0 && !kept.contains(target)
        && text::spec_ends(target, "html"@)
}

fn leaves_volume(href: &[char], dir: &str, kept: &Vec<String>) -> (r: bool)
    ensures
        r == leaves(href@, dir@, text::strs(kept@)),
{
    let target = chars_of(&strip_fragment(&resolve_href(dir, &string_of(href))));
    !starts_str(href, "#") && !has_char(href, ':') && target.len() > 0 && !strs_have(kept, &target)
        && ends_str(&target, "html")
}

/// The document from `i` on without the `href` of the links that lead out of the volume.
pub open spec fn unlinked_from(t: Seq<char>, dir: Seq<char>, kept: Seq<Seq<char>>, i: int) -> Seq<char>
    decreases t.len() - i,
{
    proof {
        reveal_strlit("href=\"");
    }
    match text::spec_find(t, "href=\""@, i) {
        Some(p) if 0 <= i <= p && p + 6 <= t.len() => match text::spec_find_char(t, '"', p + 6) {
            Some(end) if p + 6 <= end < t.len() => (if leaves(t.subrange(p + 6, end), dir, kept) {
                t.subrange(i, p)
            } else {
                t.subrange(i, end + 1)
            }) + unlinked_from(t, dir, kept, end + 1),
            _ => t.subrange(i, t.len() as int),
        },
        _ => t.subrange(i, t.len() as int),
    }
}

/// A link of the document from `i` on leads out of the volume.
pub open spec fn any_leaves(t: Seq<char>, dir: Seq<char>, kept: Seq<Seq<char>>, i: int) -> bool
    decreases t.len() - i,
{
    proof {
        reveal_strlit("href=\"");
    }
    match text::spec_find(t, "href=\""@, i) {
        Some(p) if 0 <= i <= p && p + 6 <= t.len() => match text::spec_find_char(t, '"', p + 6) {
            Some(end) if p + 6 <= end < t.len() => leaves(t.subrange(p + 6, end), dir, kept)
                || any_leaves(t, dir, kept, end + 1),
            _ => false,
        },
        _ => false,
    }
}

fn unlink(t: &[char], dir: &str, kept: &Vec<String>) -> (r: Option<Vec<char>>)
    ensures
        match r {
            Some(s) => any_leaves(t@, dir@, text::strs(kept@), 0) && s@ == unlinked_from(
                t@,
                dir@,
                text::strs(kept@),
                0,
            ),
            None => !any_leaves(t@, dir@, text::strs(kept@), 0),
        },
{
    let ghost ks = text::strs(kept@);
    let n = t.len();
    let mut out: Vec<char> = Vec::new();
    let mut changed = false;
    let mut i: usize = 0;
    proof {
        reveal_strlit("href=\"");
    }
    assert(out@ + unlinked_from(t@, dir@, ks, 0) =~= unlinked_from(t@, dir@, ks, 0));
    loop
        invariant
            i <= n,
            n == t@.len(),
            ks == text::strs(kept@),
            "href=\""@.len() == 6,
            out@ + unlinked_from(t@, dir@, ks, i as int) == unlinked_from(t@, dir@, ks, 0),
            (changed || any_leaves(t@, dir@, ks, i as int)) == any_leaves(t@, dir@, ks, 0),
        ensures
            i <= n,
            changed == any_leaves(t@, dir@, ks, 0),
            out@ + t@.subrange(i as int, n as int) == unlinked_from(t@, dir@, ks, 0),
        decreases n - i,
    {
        proof {
            text::lemma_find(t@, "href=\""@, i as int);
        }
        let p = match find_str(t, "href=\"", i) {
            Some(p) => p,
            None => {
                break;
            },
        };
        let from = p + 6;
        proof {
            text::lemma_find_char(t@, '"', from as int);
        }
        let end = match find_char(t, '"', from) {
            Some(end) => end,
            None => {
                break;
            },
        };
        let ghost before = out@;
        let ghost rest = unlinked_from(t@, dir@, ks, end + 1);
        if leaves_volume(&t[from..end], dir, kept) {
            changed = true;
            put(&mut out, &t[i..p]);
            assert(before + (t@.subrange(i as int, p as int) + rest) =~= out@ + rest);
        } else {
            put(&mut out, &t[i..end + 1]);
            assert(before + (t@.subrange(i as int, end + 1) + rest) =~= out@ + rest);
        }
        i = end + 1;
    }
    if !changed {
        return None;
    }
    put(&mut out, &t[i..n]);
    Some(out)
}

/// The content of a document without the links that lead out of the volume; nothing where it has
/// none, or is not UTF-8.
pub open spec fn unlinked(data: Seq<u8>, dir: Seq<char>, kept: Seq<Seq<char>>) -> Option<Seq<u8>> {
    if vstd::utf8::valid_utf8(data) {
        let t = vstd::utf8::decode_utf8(data);
        if any_leaves(t, dir, kept, 0) {
            Some(vstd::utf8::encode_utf8(unlinked_from(t, dir, kept, 0)))
        } else {
            None
        }
    } else {
        None
    }
}

/// What bytes are said.
pub open spec fn bytes_said(r: Option<Vec<u8>>) -> Option<Seq<u8>> {
    match r {
        Some(b) => Some(b@),
        None => None,
    }
}

/// Strip the `href` from links that leave the volume, and keep their text.
fn unlink_outside(content: &[u8], dir: &str, kept: &Vec<String>) -> (r: Option<Vec<u8>>)
    ensures
        bytes_said(r) == unlinked(content@, dir@, text::strs(kept@)),
{
    match utf8_text(content) {
        Ok(s) => {
            proof {
                vstd::utf8::encode_utf8_decode_utf8(s@);
            }
            match unlink(&chars_of(&s), dir, kept) {
                Some(t) => Some(bytes_of(&string_of(&t))),
                None => None,
            }
        },
        Err(_) => None,
    }
}

// ---------------------------------------------------------------- the chapter list

/// The entries that lead to the documents, nesting kept. One that does not, but with something
/// below it that does, is replaced by what is below it.
pub open spec fn carved(v: Seq<Toc>, kept: Seq<Seq<char>>) -> Seq<Toc>
    decreases v,
{
    if v.len() == 0 {
        Seq::empty()
    } else {
        let e = v.last();
        let below = carved(e.children, kept);
        carved(v.drop_last(), kept) + if kept.contains(toc_shape::document(e.href)) {
            seq![Toc { title: e.title, href: e.href, children: below }]
        } else {
            below
        }
    }
}

fn append_entries(a: &mut Vec<TocEntry>, b: Vec<TocEntry>)
    ensures
        toc::tocs(final(a)@) == toc::tocs(old(a)@) + toc::tocs(b@),
{
    let ghost bs = toc::tocs(b@);
    let ghost start = toc::tocs(a@);
    proof {
        toc::lemma_tocs(b@);
    }
    let n = b.len();
    let mut i: usize = 0;
    assert(start + bs.take(0) =~= start);
    while i < n
        invariant
            i <= n,
            n == b@.len(),
            bs == toc::tocs(b@),
            bs.len() == n,
            forall|k: int| 0 <= k < b@.len() ==> #[trigger] bs[k] == toc::toc(b@[k]),
            toc::tocs(a@) == start + bs.take(i as int),
        decreases n - i,
    {
        let e = copy_entry(&b[i]);
        assert(bs[i as int] == toc::toc(b@[i as int]));
        proof {
            toc::lemma_tocs_push(a@, e);
        }
        a.push(e);
        assert(start + bs.take(i + 1) =~= (start + bs.take(i as int)).push(bs[i as int]));
        i += 1;
    }
    assert(bs.take(n as int) =~= bs);
}

/// The chapter list restricted to the documents that a volume holds.
pub fn carve(v: &Vec<TocEntry>, kept: &Vec<String>) -> (r: Vec<TocEntry>)
    ensures
        toc::tocs(r@) == carved(toc::tocs(v@), text::strs(kept@)),
    decreases v,
{
    let ghost all = toc::tocs(v@);
    let ghost ks = text::strs(kept@);
    proof {
        toc::lemma_tocs(v@);
    }
    let mut out: Vec<TocEntry> = Vec::new();
    let mut i: usize = 0;
    while i < v.len()
        invariant
            i <= v@.len(),
            all == toc::tocs(v@),
            all.len() == v@.len(),
            ks == text::strs(kept@),
            forall|k: int| 0 <= k < v@.len() ==> #[trigger] all[k] == toc::toc(v@[k]),
            toc::tocs(out@) == carved(all.take(i as int), ks),
        decreases v@.len() - i,
    {
        let e = &v[i];
        assert(all[i as int] == toc::toc(v@[i as int]));
        assert(all.take(i + 1).drop_last() =~= all.take(i as int));
        let below = carve(&e.children, kept);
        let doc = chars_of(&strip_fragment(&e.href));
        if strs_have(kept, &doc) {
            let t = TocEntry { title: e.title.clone(), href: e.href.clone(), children: below };
            proof {
                toc::lemma_tocs_push(out@, t);
            }
            let ghost before = toc::tocs(out@);
            out.push(t);
            assert(before.push(toc::toc(t)) =~= before + seq![toc::toc(t)]);
        } else {
            append_entries(&mut out, below);
        }
        i = i + 1;
    }
    assert(all.take(v@.len() as int) =~= all);
    out
}

/// The chapter list of a volume: what the collection's says of it, with what the volume evidences
/// about itself.
pub open spec fn volume_entries(p: Seq<Part>, base: Seq<char>, named: Seq<Toc>) -> Seq<Toc> {
    match package::spec_package_doc(p) {
        Err(_) => named,
        Ok(d) => {
            let own = toc_repair::spec_propose(p, d.book, base, d.text);
            if own.len() == 0 {
                named
            } else {
                toc_shape::spec_merge(named, own, package::spec_spine_documents(d.book, base))
            }
        },
    }
}

/// The chapter list of a volume.
fn volume_toc(volume: &EpubPackage, opf_base: &str, named: Vec<TocEntry>) -> (r: Vec<TocEntry>)
    ensures
        toc::tocs(r@) == volume_entries(volume@, opf_base@, toc::tocs(named@)),
{
    let d = match package_doc(volume) {
        Ok(d) => d,
        Err(_) => {
            return named;
        },
    };
    let own = propose_from_pkg(volume, &d.opf, opf_base, &d.text);
    proof {
        toc::lemma_tocs(own@);
    }
    if own.len() == 0 {
        return named;
    }
    let spine = spine_documents(&d.opf, opf_base);
    merge_by_document_order(named, own, &spine)
}

// ---------------------------------------------------------------- the package document

/// The extension of a name.
pub open spec fn suffix(name: Seq<char>) -> Option<Seq<char>> {
    match text::spec_rfind_char(name, '.', name.len() as int) {
        Some(k) => Some(name.subrange(k + 1, name.len() as int)),
        None => None,
    }
}

/// The media type of an image, a sound or a film, by its extension.
pub open spec fn known_type(ext: Seq<char>) -> Seq<char> {
    let e = text::spec_lower(ext);
    if e == "jpg"@ || e == "jpeg"@ {
        "image/jpeg"@
    } else if e == "png"@ {
        "image/png"@
    } else if e == "gif"@ {
        "image/gif"@
    } else if e == "webp"@ {
        "image/webp"@
    } else if e == "bmp"@ {
        "image/bmp"@
    } else if e == "mp3"@ {
        "audio/mpeg"@
    } else if e == "m4a"@ {
        "audio/mp4"@
    } else if e == "mp4"@ {
        "video/mp4"@
    } else {
        "application/octet-stream"@
    }
}

/// The media type that a manifest declares for a resource, by its name alone.
pub open spec fn type_of(abs: Seq<char>) -> Seq<char> {
    match suffix(structure::spec_basename(abs)) {
        Some(e) => if e == "css"@ {
            "text/css"@
        } else if e == "xhtml"@ || e == "html"@ || e == "htm"@ {
            "application/xhtml+xml"@
        } else if e == "ncx"@ {
            "application/x-dtbncx+xml"@
        } else if e == "js"@ {
            "text/javascript"@
        } else if e == "svg"@ {
            "image/svg+xml"@
        } else if e == "otf"@ {
            "font/otf"@
        } else if e == "ttf"@ {
            "font/ttf"@
        } else if e == "woff"@ {
            "font/woff"@
        } else if e == "woff2"@ {
            "font/woff2"@
        } else {
            known_type(e)
        },
        None => "application/octet-stream"@,
    }
}

fn known_type_of(ext: &[char]) -> (r: &'static str)
    ensures
        r@ == known_type(ext@),
{
    let e = lowered(ext);
    if is(&e, "jpg") || is(&e, "jpeg") {
        "image/jpeg"
    } else if is(&e, "png") {
        "image/png"
    } else if is(&e, "gif") {
        "image/gif"
    } else if is(&e, "webp") {
        "image/webp"
    } else if is(&e, "bmp") {
        "image/bmp"
    } else if is(&e, "mp3") {
        "audio/mpeg"
    } else if is(&e, "m4a") {
        "audio/mp4"
    } else if is(&e, "mp4") {
        "video/mp4"
    } else {
        "application/octet-stream"
    }
}

/// The media type that a manifest declares for a resource, by its name alone.
pub fn media_type(abs: &str) -> (r: &'static str)
    ensures
        r@ == type_of(abs@),
{
    let name = chars_of(&basename(abs));
    let n = name.len();
    let e: &[char] = match rfind_char(&name, '.', n) {
        Some(k) => &name[k + 1..n],
        None => {
            return "application/octet-stream";
        },
    };
    if is(e, "css") {
        "text/css"
    } else if is(e, "xhtml") || is(e, "html") || is(e, "htm") {
        "application/xhtml+xml"
    } else if is(e, "ncx") {
        "application/x-dtbncx+xml"
    } else if is(e, "js") {
        "text/javascript"
    } else if is(e, "svg") {
        "image/svg+xml"
    } else if is(e, "otf") {
        "font/otf"
    } else if is(e, "ttf") {
        "font/ttf"
    } else if is(e, "woff") {
        "font/woff"
    } else if is(e, "woff2") {
        "font/woff2"
    } else {
        known_type_of(e)
    }
}

/// Between an opening and a closing text.
pub open spec fn line(open: Seq<char>, s: Seq<char>, close: Seq<char>) -> Seq<char> {
    open + s + close
}

fn put_line(out: &mut Vec<char>, open: &str, s: &str, close: &str)
    ensures
        final(out)@ == old(out)@ + line(open@, s@, close@),
{
    let ghost before = out@;
    put_str(out, open);
    put_str(out, s);
    put_str(out, close);
    assert(out@ =~= before + line(open@, s@, close@));
}

/// What a volume is described by.
#[verifier::ext_equal]
pub struct Described {
    pub uid: Seq<char>,
    pub label: Seq<char>,
    pub number: Number,
    pub series: Option<Seq<char>>,
    pub now: Seq<char>,
    pub mode: Option<Seq<char>>,
    pub ppd: Option<Seq<char>>,
}

/// A volume's title, identifier and place in the series.
pub struct Description<'a> {
    pub uid: &'a str,
    pub label: &'a str,
    pub number: Number,
    pub series: Option<&'a str>,
    pub now: &'a str,
    pub mode: Option<String>,
    pub ppd: Option<String>,
}

impl<'a> Description<'a> {
    pub open spec fn view(&self) -> Described {
        Described {
            uid: self.uid@,
            label: self.label@,
            number: self.number,
            series: match self.series {
                Some(s) => Some(s@),
                None => None,
            },
            now: self.now@,
            mode: text::opt_str(self.mode),
            ppd: text::opt_str(self.ppd),
        }
    }
}

/// The creators, the first `n` of them.
pub open spec fn creators_to(authors: Seq<Seq<char>>, n: int) -> Seq<char>
    decreases n,
{
    if n <= 0 {
        Seq::empty()
    } else {
        creators_to(authors, n - 1) + line(
            "<dc:creator>"@,
            markup::spec_escape_text(authors[n - 1]),
            "</dc:creator>\n"@,
        )
    }
}

/// An element for a value that there may be.
pub open spec fn optional(open: Seq<char>, s: Option<Seq<char>>, close: Seq<char>) -> Seq<char> {
    match s {
        Some(x) => line(open, markup::spec_escape_text(x), close),
        None => Seq::empty(),
    }
}

/// The place of a volume in its series.
pub open spec fn series_meta(series: Option<Seq<char>>, number: Number) -> Seq<char> {
    match series {
        Some(s) => line(
            "<meta property=\"belongs-to-collection\" id=\"series\">"@,
            markup::spec_escape_text(s),
            "</meta>\n<meta refines=\"#series\" property=\"collection-type\">series</meta>\n"@,
        ) + line(
            "<meta refines=\"#series\" property=\"group-position\">"@,
            volume_number::number_text(number),
            "</meta>\n"@,
        ),
        None => Seq::empty(),
    }
}

/// The identifier, the title, the language and the creators of a volume.
pub open spec fn naming_text(b: Book, lang: Seq<char>, d: Described) -> Seq<char> {
    line("<dc:identifier id=\"uid\">"@, d.uid, "</dc:identifier>\n"@) + line(
        "<dc:title>"@,
        markup::spec_escape_text(d.label),
        "</dc:title>\n"@,
    ) + line("<dc:language>"@, lang, "</dc:language>\n"@) + creators_to(
        b.authors,
        b.authors.len() as int,
    )
}

/// The metadata of a volume behind its creators.
pub open spec fn dating_text(b: Book, d: Described) -> Seq<char> {
    optional("<dc:publisher>"@, b.publisher, "</dc:publisher>\n"@) + optional(
        "<dc:date>"@,
        b.date,
        "</dc:date>\n"@,
    ) + line("<meta property=\"dcterms:modified\">"@, d.now, "</meta>\n"@) + series_meta(
        d.series,
        d.number,
    ) + match d.mode {
        Some(m) => line(
            "<meta name=\"primary-writing-mode\" content=\""@,
            markup::spec_escape_attr(m),
            "\"/>\n"@,
        ),
        None => Seq::empty(),
    }
}

/// The metadata of a volume: the collection's, with this volume's title, identifier and place in
/// the series.
pub open spec fn metadata_text(b: Book, lang: Seq<char>, d: Described) -> Seq<char> {
    naming_text(b, lang, d) + dating_text(b, d)
}

fn put_creators(out: &mut Vec<char>, authors: &Vec<String>)
    ensures
        final(out)@ == old(out)@ + creators_to(text::strs(authors@), authors@.len() as int),
{
    let ghost start = out@;
    let ghost all = text::strs(authors@);
    let n = authors.len();
    let mut i: usize = 0;
    assert(start + creators_to(all, 0) =~= start);
    while i < n
        invariant
            i <= n,
            n == authors@.len(),
            all == text::strs(authors@),
            out@ == start + creators_to(all, i as int),
        decreases n - i,
    {
        assert(all[i as int] == authors@[i as int]@);
        let s = escape_text(&authors[i]);
        put_line(out, "<dc:creator>", &s, "</dc:creator>\n");
        assert(out@ =~= start + creators_to(all, i + 1));
        i += 1;
    }
}

fn put_optional(out: &mut Vec<char>, open: &str, s: &Option<String>, close: &str)
    ensures
        final(out)@ == old(out)@ + optional(open@, text::opt_str(*s), close@),
{
    match s {
        Some(x) => {
            let e = escape_text(x);
            put_line(out, open, &e, close);
        },
        None => {
            assert(out@ =~= out@ + optional(open@, None, close@));
        },
    }
}

fn put_series(out: &mut Vec<char>, series: Option<&str>, number: Number)
    ensures
        final(out)@ == old(out)@ + series_meta(
            match series {
                Some(s) => Some(s@),
                None => None,
            },
            number,
        ),
{
    let ghost start = out@;
    match series {
        Some(s) => {
            let e = escape_text(s);
            put_line(
                out,
                "<meta property=\"belongs-to-collection\" id=\"series\">",
                &e,
                "</meta>\n<meta refines=\"#series\" property=\"collection-type\">series</meta>\n",
            );
            let n = string_of(&trim_number(number));
            put_line(
                out,
                "<meta refines=\"#series\" property=\"group-position\">",
                &n,
                "</meta>\n",
            );
            assert(out@ =~= start + series_meta(Some(s@), number));
        },
        None => {
            assert(out@ =~= start + series_meta(None, number));
        },
    }
}

fn put_naming(out: &mut Vec<char>, opf: &OpfData, lang: &str, d: &Description)
    ensures
        final(out)@ == old(out)@ + naming_text(opf@, lang@, d@),
{
    let ghost start = out@;
    put_line(out, "<dc:identifier id=\"uid\">", d.uid, "</dc:identifier>\n");
    let label = escape_text(d.label);
    put_line(out, "<dc:title>", &label, "</dc:title>\n");
    put_line(out, "<dc:language>", lang, "</dc:language>\n");
    put_creators(out, &opf.metadata.authors);
    assert(out@ =~= start + naming_text(opf@, lang@, d@));
}

fn put_dating(out: &mut Vec<char>, opf: &OpfData, d: &Description)
    ensures
        final(out)@ == old(out)@ + dating_text(opf@, d@),
{
    let ghost start = out@;
    put_optional(out, "<dc:publisher>", &opf.metadata.publisher, "</dc:publisher>\n");
    put_optional(out, "<dc:date>", &opf.metadata.date, "</dc:date>\n");
    put_line(out, "<meta property=\"dcterms:modified\">", d.now, "</meta>\n");
    put_series(out, d.series, d.number);
    if let Some(m) = &d.mode {
        let e = escape_attr(m);
        put_line(out, "<meta name=\"primary-writing-mode\" content=\"", &e, "\"/>\n");
    }
    assert(out@ =~= start + dating_text(opf@, d@));
}

fn put_metadata(out: &mut Vec<char>, opf: &OpfData, lang: &str, d: &Description)
    ensures
        final(out)@ == old(out)@ + metadata_text(opf@, lang@, d@),
{
    let ghost start = out@;
    put_naming(out, opf, lang, d);
    put_dating(out, opf, d);
    assert(out@ =~= start + metadata_text(opf@, lang@, d@));
}

/// A manifest item with the number `n`.
pub open spec fn numbered_item(
    kind: Seq<char>,
    n: int,
    base: Seq<char>,
    abs: Seq<char>,
    media: Seq<char>,
    props: Seq<char>,
) -> Seq<char> {
    "<item id=\""@ + kind + text::decimal(n as nat) + "\" href=\""@ + markup::spec_escape_attr(
        structure::spec_relativize(base, abs),
    ) + "\" media-type=\""@ + media + "\""@ + props + "/>\n"@
}

fn put_item(
    out: &mut Vec<char>,
    kind: &str,
    n: usize,
    base: &str,
    abs: &str,
    media: &str,
    props: &str,
)
    ensures
        final(out)@ == old(out)@ + numbered_item(kind@, n as int, base@, abs@, media@, props@),
{
    let ghost start = out@;
    put_str(out, "<item id=\"");
    put_str(out, kind);
    put(out, &decimal_of(n));
    put_str(out, "\" href=\"");
    put_str(out, &escape_attr(&relativize(base, abs)));
    put_str(out, "\" media-type=\"");
    put_str(out, media);
    put_str(out, "\"");
    put_str(out, props);
    put_str(out, "/>\n");
    assert(out@ =~= start + numbered_item(kind@, n as int, base@, abs@, media@, props@));
}

/// The manifest items of the first `n` documents.
pub open spec fn document_items(base: Seq<char>, docs: Seq<Seq<char>>, n: int) -> Seq<char>
    decreases n,
{
    if n <= 0 {
        Seq::empty()
    } else {
        document_items(base, docs, n - 1) + numbered_item(
            "d"@,
            n - 1,
            base,
            docs[n - 1],
            "application/xhtml+xml"@,
            Seq::empty(),
        )
    }
}

/// The spine of the first `n` documents.
pub open spec fn itemrefs(n: int) -> Seq<char>
    decreases n,
{
    if n <= 0 {
        Seq::empty()
    } else {
        itemrefs(n - 1) + line("<itemref idref=\"d"@, text::decimal((n - 1) as nat), "\"/>\n"@)
    }
}

/// The manifest items of the first `n` resources.
pub open spec fn resource_items(
    base: Seq<char>,
    resources: Seq<Seq<char>>,
    cover: Option<Seq<char>>,
    n: int,
) -> Seq<char>
    decreases n,
{
    if n <= 0 {
        Seq::empty()
    } else {
        let abs = resources[n - 1];
        resource_items(base, resources, cover, n - 1) + numbered_item(
            "r"@,
            n - 1,
            base,
            abs,
            type_of(abs),
            if cover == Some(abs) {
                " properties=\"cover-image\""@
            } else {
                Seq::empty()
            },
        )
    }
}

fn put_document_items(out: &mut Vec<char>, base: &str, docs: &Vec<String>)
    ensures
        final(out)@ == old(out)@ + document_items(base@, text::strs(docs@), docs@.len() as int),
{
    let ghost start = out@;
    let ghost all = text::strs(docs@);
    let n = docs.len();
    let mut i: usize = 0;
    assert(start + document_items(base@, all, 0) =~= start);
    while i < n
        invariant
            i <= n,
            n == docs@.len(),
            all == text::strs(docs@),
            out@ == start + document_items(base@, all, i as int),
        decreases n - i,
    {
        assert(all[i as int] == docs@[i as int]@);
        proof {
            reveal_strlit("");
            assert(""@ =~= Seq::<char>::empty());
        }
        put_item(out, "d", i, base, &docs[i], "application/xhtml+xml", "");
        assert(out@ =~= start + document_items(base@, all, i + 1));
        i += 1;
    }
}

fn put_itemrefs(out: &mut Vec<char>, n: usize)
    ensures
        final(out)@ == old(out)@ + itemrefs(n as int),
{
    let ghost start = out@;
    let mut i: usize = 0;
    assert(start + itemrefs(0) =~= start);
    while i < n
        invariant
            i <= n,
            out@ == start + itemrefs(i as int),
        decreases n - i,
    {
        let k = string_of(&decimal_of(i));
        put_line(out, "<itemref idref=\"d", &k, "\"/>\n");
        assert(out@ =~= start + itemrefs(i + 1));
        i += 1;
    }
}

fn put_resource_items(
    out: &mut Vec<char>,
    base: &str,
    resources: &Vec<String>,
    cover: &Option<String>,
)
    ensures
        final(out)@ == old(out)@ + resource_items(
            base@,
            text::strs(resources@),
            text::opt_str(*cover),
            resources@.len() as int,
        ),
{
    let ghost start = out@;
    let ghost all = text::strs(resources@);
    let ghost cv = text::opt_str(*cover);
    let n = resources.len();
    let mut i: usize = 0;
    assert(start + resource_items(base@, all, cv, 0) =~= start);
    while i < n
        invariant
            i <= n,
            n == resources@.len(),
            all == text::strs(resources@),
            cv == text::opt_str(*cover),
            out@ == start + resource_items(base@, all, cv, i as int),
        decreases n - i,
    {
        assert(all[i as int] == resources@[i as int]@);
        proof {
            reveal_strlit("");
            assert(""@ =~= Seq::<char>::empty());
        }
        let is_cover = match cover {
            Some(c) => str_is(c, &resources[i]),
            None => false,
        };
        let props: &str = if is_cover {
            " properties=\"cover-image\""
        } else {
            ""
        };
        put_item(out, "r", i, base, &resources[i], media_type(&resources[i]), props);
        assert(out@ =~= start + resource_items(base@, all, cv, i + 1));
        i += 1;
    }
}

/// The manifest of a volume: the navigation document, the NCX, the documents and the resources
/// that they reach, and nothing else.
pub open spec fn manifest_text(
    base: Seq<char>,
    nav: Seq<char>,
    ncx: Seq<char>,
    docs: Seq<Seq<char>>,
    resources: Seq<Seq<char>>,
    cover: Option<Seq<char>>,
) -> Seq<char> {
    line(
        "<item id=\"nav\" href=\""@,
        markup::spec_escape_attr(structure::spec_relativize(base, nav)),
        "\" media-type=\"application/xhtml+xml\" properties=\"nav\"/>\n"@,
    ) + line(
        "<item id=\"ncx\" href=\""@,
        markup::spec_escape_attr(structure::spec_relativize(base, ncx)),
        "\" media-type=\"application/x-dtbncx+xml\"/>\n"@,
    ) + document_items(base, docs, docs.len() as int) + resource_items(
        base,
        resources,
        cover,
        resources.len() as int,
    )
}

/// The package document of a volume.
pub open spec fn opf_text(
    b: Book,
    base: Seq<char>,
    lang: Seq<char>,
    d: Described,
    docs: Seq<Seq<char>>,
    resources: Seq<Seq<char>>,
    nav: Seq<char>,
    ncx: Seq<char>,
    cover: Option<Seq<char>>,
) -> Seq<char> {
    line(
        "<?xml version=\"1.0\" encoding=\"utf-8\"?>\n<package xmlns=\"http://www.idpf.org/2007/opf\" version=\"3.0\" unique-identifier=\"uid\" xml:lang=\""@,
        lang,
        "\">\n<metadata xmlns:dc=\"http://purl.org/dc/elements/1.1/\">\n"@,
    ) + metadata_text(b, lang, d) + "</metadata>\n<manifest>\n"@ + manifest_text(
        base,
        nav,
        ncx,
        docs,
        resources,
        cover,
    ) + "</manifest>\n<spine toc=\"ncx\""@ + (match d.ppd {
        Some(x) => line(
            " page-progression-direction=\""@,
            markup::spec_escape_attr(x),
            "\""@,
        ),
        None => Seq::empty(),
    }) + ">\n"@ + itemrefs(docs.len() as int) + "</spine>\n</package>\n"@
}

fn put_manifest(
    out: &mut Vec<char>,
    base: &str,
    nav: &str,
    ncx: &str,
    docs: &Vec<String>,
    resources: &Vec<String>,
    cover: &Option<String>,
)
    ensures
        final(out)@ == old(out)@ + manifest_text(
            base@,
            nav@,
            ncx@,
            text::strs(docs@),
            text::strs(resources@),
            text::opt_str(*cover),
        ),
{
    let ghost start = out@;
    assert(text::strs(docs@).len() == docs@.len());
    assert(text::strs(resources@).len() == resources@.len());
    let a = escape_attr(&relativize(base, nav));
    put_line(
        out,
        "<item id=\"nav\" href=\"",
        &a,
        "\" media-type=\"application/xhtml+xml\" properties=\"nav\"/>\n",
    );
    let b = escape_attr(&relativize(base, ncx));
    put_line(
        out,
        "<item id=\"ncx\" href=\"",
        &b,
        "\" media-type=\"application/x-dtbncx+xml\"/>\n",
    );
    put_document_items(out, base, docs);
    put_resource_items(out, base, resources, cover);
    assert(out@ =~= start + manifest_text(
        base@,
        nav@,
        ncx@,
        text::strs(docs@),
        text::strs(resources@),
        text::opt_str(*cover),
    ));
}

/// The package document of a volume: the collection's metadata with this volume's title,
/// identifier and place in the series, and a manifest and spine of what the volume has.
fn volume_opf(
    opf: &OpfData,
    base: &str,
    lang: &str,
    d: &Description,
    docs: &Vec<String>,
    resources: &Vec<String>,
    nav: &str,
    ncx: &str,
    cover: &Option<String>,
) -> (r: String)
    ensures
        r@ == opf_text(
            opf@,
            base@,
            lang@,
            d@,
            text::strs(docs@),
            text::strs(resources@),
            nav@,
            ncx@,
            text::opt_str(*cover),
        ),
{
    let mut out: Vec<char> = Vec::new();
    assert(text::strs(docs@).len() == docs@.len());
    put_line(
        &mut out,
        "<?xml version=\"1.0\" encoding=\"utf-8\"?>\n<package xmlns=\"http://www.idpf.org/2007/opf\" version=\"3.0\" unique-identifier=\"uid\" xml:lang=\"",
        lang,
        "\">\n<metadata xmlns:dc=\"http://purl.org/dc/elements/1.1/\">\n",
    );
    put_metadata(&mut out, opf, lang, d);
    put_str(&mut out, "</metadata>\n<manifest>\n");
    put_manifest(&mut out, base, nav, ncx, docs, resources, cover);
    put_str(&mut out, "</manifest>\n<spine toc=\"ncx\"");
    if let Some(x) = &d.ppd {
        let e = escape_attr(x);
        put_line(&mut out, " page-progression-direction=\"", &e, "\"");
    }
    put_str(&mut out, ">\n");
    put_itemrefs(&mut out, docs.len());
    put_str(&mut out, "</spine>\n</package>\n");
    let r = string_of(&out);
    assert(r@ =~= opf_text(
        opf@,
        base@,
        lang@,
        d@,
        text::strs(docs@),
        text::strs(resources@),
        nav@,
        ncx@,
        text::opt_str(*cover),
    ));
    r
}

// ---------------------------------------------------------------- a volume

/// The image that a volume's cover page shows.
pub open spec fn cover_image(p: Seq<Part>, page: Option<Seq<char>>) -> Option<Seq<char>> {
    match page {
        Some(path) => match package::spec_text(p, path) {
            Some(t) => match page_shape::spec_image_only_source(t) {
                Some(src) => {
                    let abs = structure::spec_resolve_href(structure::spec_dir_of(path), src);
                    if edit::member_at(p, abs, 0) is Some {
                        Some(abs)
                    } else {
                        None
                    }
                },
                None => None,
            },
            None => None,
        },
        None => None,
    }
}

fn cover_image_of(pkg: &EpubPackage, page: &Option<String>) -> (r: Option<String>)
    ensures
        text::opt_str(r) == cover_image(pkg@, text::opt_str(*page)),
{
    if let Some(path) = page {
        if let Some(t) = member_text(pkg, path) {
            if let Some(src) = image_only_source(&t) {
                let abs = resolve_href(&dir_of(path), &src);
                if pkg.contains(&abs) {
                    return Some(abs);
                }
            }
        }
    }
    None
}

/// The package once the links of the first `n` documents that lead out of the volume are taken
/// out.
pub open spec fn closed_to(p: Seq<Part>, docs: Seq<Seq<char>>, n: int) -> Seq<Part>
    decreases n,
{
    if n <= 0 {
        p
    } else {
        let before = closed_to(p, docs, n - 1);
        match edit::spec_get(before, docs[n - 1]) {
            Some(data) => match unlinked(data, structure::spec_dir_of(docs[n - 1]), docs) {
                Some(new) => edit::spec_replace(before, docs[n - 1], new),
                None => before,
            },
            None => before,
        }
    }
}

fn close_links(pkg: &mut EpubPackage, docs: &Vec<String>)
    ensures
        final(pkg)@ == closed_to(old(pkg)@, text::strs(docs@), docs@.len() as int),
{
    let ghost start = pkg@;
    let ghost ds = text::strs(docs@);
    let n = docs.len();
    let mut i: usize = 0;
    while i < n
        invariant
            i <= n,
            n == docs@.len(),
            ds == text::strs(docs@),
            pkg@ == closed_to(start, ds, i as int),
        decreases n - i,
    {
        assert(ds[i as int] == docs@[i as int]@);
        let dir = dir_of(&docs[i]);
        let new = match pkg.get(&docs[i]) {
            Some(data) => unlink_outside(data, &dir, docs),
            None => None,
        };
        if let Some(b) = new {
            pkg.replace(&docs[i], b);
        }
        i += 1;
    }
}

/// The documents of a cut.
pub open spec fn cut_documents(spine: Seq<(Seq<char>, Seq<char>)>, cut: CutAt) -> Seq<Seq<char>> {
    let end = cut.spine_index + cut.documents;
    let to = if end <= spine.len() {
        end
    } else {
        spine.len() as int
    };
    spine.subrange(cut.spine_index, to).map_values(|s: (Seq<char>, Seq<char>)| s.0)
}

/// The documents of the spine.
pub open spec fn spine_paths(spine: Seq<(Seq<char>, Seq<char>)>) -> Seq<Seq<char>> {
    spine.map_values(|s: (Seq<char>, Seq<char>)| s.0)
}

fn spine_paths_of(spine: &Vec<(String, String)>) -> (r: Vec<String>)
    ensures
        text::strs(r@) == spine_paths(edit::pairs(spine@)),
{
    let ghost all = spine_paths(edit::pairs(spine@));
    let n = spine.len();
    let mut out: Vec<String> = Vec::new();
    let mut i: usize = 0;
    assert(text::strs(out@) =~= all.take(0));
    while i < n
        invariant
            i <= n,
            n == spine@.len(),
            all == spine_paths(edit::pairs(spine@)),
            text::strs(out@) == all.take(i as int),
        decreases n - i,
    {
        add_str(&mut out, spine[i].0.clone());
        assert(all[i as int] == spine@[i as int].0@);
        assert(all.take(i + 1) =~= all.take(i as int).push(all[i as int]));
        i += 1;
    }
    assert(all.take(n as int) =~= all);
    out
}

/// The resources of a volume's documents: what they reach beside the documents of the book.
pub open spec fn volume_resources(p: Seq<Part>, d: Found, docs: Seq<Seq<char>>) -> Seq<Seq<char>> {
    reach::resources(
        p,
        (reach::Scope { docs, spine: spine_paths(package::spec_spine_documents(d.book, d.base())) }),
    )
}

fn documents_of(spine: &Vec<(String, String)>, cut: &Cut) -> (r: Vec<String>)
    requires
        cut.spine_index <= spine@.len(),
    ensures
        text::strs(r@) == cut_documents(edit::pairs(spine@), cut@),
{
    let ghost ss = edit::pairs(spine@);
    let len = spine.len();
    assert(ss.len() == len);
    let from = cut.spine_index;
    let to = if cut.documents <= len - from {
        from + cut.documents
    } else {
        len
    };
    let ghost want = cut_documents(ss, cut@);
    assert(want.len() == to - from);
    let mut out: Vec<String> = Vec::new();
    assert(text::strs(out@) =~= want.take(0));
    let mut i: usize = from;
    while i < to
        invariant
            from <= i <= to <= len,
            len == spine@.len(),
            ss == edit::pairs(spine@),
            ss.len() == len,
            want.len() == to - from,
            want == ss.subrange(from as int, to as int).map_values(
                |s: (Seq<char>, Seq<char>)| s.0,
            ),
            text::strs(out@) == want.take(i - from),
        decreases to - i,
    {
        assert(ss[i as int] == (spine@[i as int].0@, spine@[i as int].1@));
        assert(want[i - from] == ss[i as int].0);
        let x = spine[i].0.clone();
        add_str(&mut out, x);
        assert(want.take(i - from + 1) =~= want.take(i - from).push(want[i - from]));
        i += 1;
    }
    assert(want.take(to - from) =~= want);
    out
}

/// What is asked of a volume beside its cut: its identifier, the name of the series, and the time.
#[verifier::ext_equal]
pub struct Asked {
    pub uuid: Seq<char>,
    pub series: Option<Seq<char>>,
    pub now: Seq<char>,
}

/// The names of the navigation document and of the NCX that are written for a volume: names that
/// nothing it carries has.
pub open spec fn nav_path(base: Seq<char>, taken: Seq<Seq<char>>) -> Seq<char> {
    fresh::spec_fresh(taken, base + "nav"@, "-"@, ".xhtml"@)
}

pub open spec fn ncx_path(base: Seq<char>, taken: Seq<Seq<char>>) -> Seq<char> {
    fresh::spec_fresh(taken, base + "toc"@, "-"@, ".ncx"@)
}

/// What describes the volume of a cut.
pub open spec fn described(d: Found, cut: CutAt, a: Asked) -> Described {
    let v = markup::spec_tokens(d.text);
    Described {
        uid: "urn:uuid:"@ + a.uuid,
        label: cut.label,
        number: cut.number,
        series: a.series,
        now: a.now,
        mode: opf::meta_content(d.text, v, "primary-writing-mode"@, 0),
        ppd: opf::element_attr(d.text, v, "spine"@, "page-progression-direction"@, 0),
    }
}

/// The members of a volume before its chapter list: the documents of its cut and what they reach,
/// with the links closed and a package document of its own.
pub open spec fn bound(
    p: Seq<Part>,
    d: Found,
    cut: CutAt,
    a: Asked,
    docs: Seq<Seq<char>>,
    resources: Seq<Seq<char>>,
) -> Seq<Part> {
    let taken = (docs + resources).push(d.path);
    let kept = taken.push("mimetype"@).push("META-INF/container.xml"@);
    let subset = edit::kept_to(p, kept, p.len() as int);
    edit::spec_replace(
        closed_to(subset, docs, docs.len() as int),
        d.path,
        vstd::utf8::encode_utf8(
            opf_text(
                d.book,
                d.base(),
                toc_repair::language_of(d.book),
                described(d, cut, a),
                docs,
                resources,
                nav_path(d.base(), taken),
                ncx_path(d.base(), taken),
                cover_image(p, cut.cover),
            ),
        ),
    )
}

/// The members of a volume: what is bound, with a navigation document and an NCX for its chapter
/// list.
#[verifier::opaque]
pub open spec fn volume_parts(p: Seq<Part>, d: Found, toc: Seq<Toc>, cut: CutAt, a: Asked) -> Seq<Part> {
    let docs = cut_documents(package::spec_spine_documents(d.book, d.base()), cut);
    let resources = volume_resources(p, d, docs);
    let taken = (docs + resources).push(d.path);
    let nav = nav_path(d.base(), taken);
    let ncx = ncx_path(d.base(), taken);
    let body = bound(p, d, cut, a, docs, resources);
    let entries = volume_entries(body, d.base(), carved(toc, docs));
    let with_nav = edit::spec_set(
        body,
        nav,
        vstd::utf8::encode_utf8(
            nav_doc::spec_render_nav_doc(
                nav_doc::spec_render_toc_nav(entries, structure::spec_dir_of(nav)),
                toc_repair::language_of(d.book),
                cut.label,
            ),
        ),
    );
    edit::spec_set(
        with_nav,
        ncx,
        vstd::utf8::encode_utf8(
            nav_doc::spec_render_ncx(
                nav_doc::spec_render_navmap(entries, structure::spec_dir_of(ncx)),
                "urn:uuid:"@ + a.uuid,
                cut.label,
                if nav_doc::spec_depth(entries) > 1 {
                    nav_doc::spec_depth(entries) as int
                } else {
                    1
                },
            ),
        ),
    )
}

/// A list with more names behind it.
fn joined(a: &Vec<String>, b: &Vec<String>) -> (r: Vec<String>)
    ensures
        text::strs(r@) == text::strs(a@) + text::strs(b@),
{
    let mut out = a.clone();
    let ghost sa = text::strs(a@);
    let ghost sb = text::strs(b@);
    assert(text::strs(out@) =~= sa);
    let n = b.len();
    assert(sb.len() == n);
    let mut i: usize = 0;
    assert(sa + sb.take(0) =~= sa);
    while i < n
        invariant
            i <= n,
            n == b@.len(),
            sb == text::strs(b@),
            sb.len() == n,
            text::strs(out@) == sa + sb.take(i as int),
        decreases n - i,
    {
        let x = b[i].clone();
        assert(sb[i as int] == x@);
        add_str(&mut out, x);
        assert((sa + sb.take(i as int)).push(sb[i as int]) =~= sa + sb.take(i + 1));
        i += 1;
    }
    assert(sb.take(n as int) =~= sb);
    out
}

/// Bind a volume: the members of the package that it keeps, its links closed, and its package
/// document.
fn bind(
    pkg: &EpubPackage,
    d: &PackageDoc,
    cut: &Cut,
    uid: &str,
    series: Option<&str>,
    now: &str,
    docs: &Vec<String>,
    resources: &Vec<String>,
    nav: &str,
    ncx: &str,
    Ghost(uuid): Ghost<Seq<char>>,
) -> (r: EpubPackage)
    requires
        d.base@ == d@.base(),
        uid@ == "urn:uuid:"@ + uuid,
        nav@ == nav_path(
            d@.base(),
            (text::strs(docs@) + text::strs(resources@)).push(d@.path),
        ),
        ncx@ == ncx_path(
            d@.base(),
            (text::strs(docs@) + text::strs(resources@)).push(d@.path),
        ),
    ensures
        r@ == bound(
            pkg@,
            d@,
            cut@,
            Asked { uuid, series: text::opt_slice(series), now: now@ },
            text::strs(docs@),
            text::strs(resources@),
        ),
{
    let ghost a = Asked { uuid, series: text::opt_slice(series), now: now@ };
    let mut kept = joined(docs, resources);
    add_str(&mut kept, d.path.clone());
    add_str(&mut kept, string_of(&chars_of("mimetype")));
    add_str(&mut kept, string_of(&chars_of("META-INF/container.xml")));
    let t = chars_of(&d.text);
    let about = Description {
        uid,
        label: &cut.label,
        number: cut.number,
        series,
        now,
        mode: meta_content_of(&t, "primary-writing-mode"),
        ppd: element_attr_of(&t, "spine", "page-progression-direction"),
    };
    assert(about@ =~= described(d@, cut@, a));
    let cover = cover_image_of(pkg, &cut.cover);
    let lang = language_in(&d.opf);
    let text = volume_opf(
        &d.opf,
        &d.base,
        &lang,
        &about,
        docs,
        resources,
        nav,
        ncx,
        &cover,
    );
    assert(text::strs(docs@).len() == docs@.len());
    let mut volume = pkg.subset(&kept);
    close_links(&mut volume, docs);
    volume.replace(&d.path, bytes_of(&text));
    volume
}

/// One volume as an EPUB.
fn volume(
    pkg: &EpubPackage,
    d: &PackageDoc,
    spine: &Vec<(String, String)>,
    toc: &Vec<TocEntry>,
    cut: &Cut,
    uuid: &str,
    series: Option<&str>,
    now: &str,
) -> (r: Result<Vec<u8>, Error>)
    requires
        d.base@ == d@.base(),
        edit::pairs(spine@) == package::spec_spine_documents(d@.book, d@.base()),
        cut.spine_index <= spine@.len(),
    ensures
        edit::written(
            r,
            volume_parts(
                pkg@,
                d@,
                toc::tocs(toc@),
                cut@,
                Asked { uuid: uuid@, series: text::opt_slice(series), now: now@ },
            ),
        ),
{
    proof {
        reveal(volume_parts);
    }
    let docs = documents_of(spine, cut);
    let resources = reachable_resources(pkg, &docs, &spine_paths_of(spine));
    let mut taken = joined(&docs, &resources);
    add_str(&mut taken, d.path.clone());
    let base = chars_of(&d.base);
    let nav = string_of(
        &fresh(&taken, &join2(&base, &chars_of("nav")), "-", &chars_of(".xhtml")),
    );
    let ncx = string_of(&fresh(&taken, &join2(&base, &chars_of("toc")), "-", &chars_of(".ncx")));
    let uid = string_of(&join2(&chars_of("urn:uuid:"), &chars_of(uuid)));
    let mut volume = bind(
        pkg,
        d,
        cut,
        &uid,
        series,
        now,
        &docs,
        &resources,
        &nav,
        &ncx,
        Ghost(uuid@),
    );
    let entries = volume_toc(&volume, &d.base, carve(toc, &docs));
    let lang = language_in(&d.opf);
    let nav_text = render_nav_doc(&render_toc_nav(&entries, &dir_of(&nav)), &lang, &cut.label);
    volume.set(&nav, bytes_of(&nav_text));
    let deep = depth(&entries);
    let levels = if deep > 1 {
        deep
    } else {
        1
    };
    let ncx_text = render_ncx(&render_navmap(&entries, &dir_of(&ncx)), &uid, &cut.label, levels);
    volume.set(&ncx, bytes_of(&ncx_text));
    volume.into_bytes()
}

/// A cut starts behind the end of the spine.
pub open spec fn past_end(cuts: Seq<CutAt>, len: int) -> bool {
    exists|i: int| 0 <= i < cuts.len() && (#[trigger] cuts[i]).spine_index > len
}

fn any_past_end(cuts: &Vec<Cut>, len: usize) -> (r: bool)
    ensures
        r == past_end(split::cuts_said(cuts@), len as int),
{
    let ghost all = split::cuts_said(cuts@);
    let n = cuts.len();
    assert(all.len() == n);
    let mut i: usize = 0;
    while i < n
        invariant
            i <= n,
            n == cuts@.len(),
            all == split::cuts_said(cuts@),
            all.len() == n,
            forall|k: int| 0 <= k < i ==> (#[trigger] all[k]).spine_index <= len,
        decreases n - i,
    {
        assert(all[i as int] == cuts@[i as int]@);
        if cuts[i].spine_index > len {
            return true;
        }
        i += 1;
    }
    false
}

/// The members of the volume of the `i`-th cut.
pub open spec fn volume_at(
    p: Seq<Part>,
    d: Found,
    cuts: Seq<CutAt>,
    series: Option<Seq<char>>,
    uuids: Seq<Seq<char>>,
    now: Seq<char>,
    i: int,
) -> Seq<Part> {
    volume_parts(
        p,
        d,
        toc_repair::spec_propose(p, d.book, d.base(), d.text),
        cuts[i],
        Asked { uuid: uuids[i], series, now },
    )
}

/// Writing the members stops with the error.
pub open spec fn stopped_by(e: Error, p: Seq<Part>) -> bool {
    edit::written(Err(e), p)
}

/// What comes back of splitting an EPUB: refused where a cut starts behind the end of the spine;
/// else one archive for each cut, or what stopped one of them.
pub open spec fn split_done(
    r: Result<Vec<Vec<u8>>, Error>,
    bytes: Seq<u8>,
    cuts: Seq<CutAt>,
    series: Option<Seq<char>>,
    uuids: Seq<Seq<char>>,
    now: Seq<char>,
) -> bool {
    match toc_repair::read_book(bytes) {
        Err(f) => r matches Err(e) && e@ == f,
        Ok((p, d)) => if past_end(
            cuts,
            package::spec_spine_documents(d.book, d.base()).len() as int,
        ) {
            r matches Err(e) && e@ == Fault::Said(
                ErrorKind::InvalidInput,
                "a cut starts behind the end of the spine"@,
            )
        } else {
            match r {
                Ok(v) => v@.len() == cuts.len() && forall|i: int|
                    0 <= i < cuts.len() ==> edit::written(
                        Ok(#[trigger] v@[i]),
                        volume_at(p, d, cuts, series, uuids, now, i),
                    ),
                Err(e) => exists|i: int|
                    0 <= i < cuts.len() && #[trigger] stopped_by(
                        e,
                        volume_at(p, d, cuts, series, uuids, now, i),
                    ),
            }
        },
    }
}

/// Write one EPUB per cut, in the same order.
///
/// `series`, when given, is the collection's name and goes into every volume identically; each
/// volume's position in it is the number of its cut. `uuids` names the volumes, and `now` is the
/// time of writing.
///
/// Every volume is self-contained: its own range of the spine, the resources that those documents
/// reach and no others, a chapter list carved from the collection's, and its own identifier. A link
/// into a document of another volume keeps its text and loses its target.
pub fn split(
    epub_bytes: &[u8],
    cuts: &Vec<Cut>,
    series: Option<&str>,
    uuids: &Vec<String>,
    now: &str,
) -> (r: Result<Vec<Vec<u8>>, Error>)
    requires
        uuids@.len() == cuts@.len(),
    ensures
        split_done(
            r,
            epub_bytes@,
            split::cuts_said(cuts@),
            text::opt_slice(series),
            text::strs(uuids@),
            now@,
        ),
{
    let (p, d) = match read_book_of(epub_bytes) {
        Ok(b) => b,
        Err(e) => {
            return Err(e);
        },
    };
    let ghost cs = split::cuts_said(cuts@);
    let ghost us = text::strs(uuids@);
    let ghost ser = text::opt_slice(series);
    let spine = spine_documents(&d.opf, &d.base);
    assert(edit::pairs(spine@).len() == spine@.len());
    if any_past_end(cuts, spine.len()) {
        return Err(
            refuse(ErrorKind::InvalidInput, "a cut starts behind the end of the spine"),
        );
    }
    let toc = propose_from_pkg(&p, &d.opf, &d.base, &d.text);
    let n = cuts.len();
    assert(cs.len() == n);
    let mut out: Vec<Vec<u8>> = Vec::new();
    let mut i: usize = 0;
    while i < n
        invariant
            i <= n,
            n == cuts@.len(),
            n == uuids@.len(),
            cs == split::cuts_said(cuts@),
            cs.len() == n,
            us == text::strs(uuids@),
            ser == text::opt_slice(series),
            d.base@ == d@.base(),
            edit::pairs(spine@) == package::spec_spine_documents(d@.book, d@.base()),
            edit::pairs(spine@).len() == spine@.len(),
            !past_end(cs, spine@.len() as int),
            toc_repair::read_book(epub_bytes@) == Ok::<(Seq<Part>, Found), Fault>((p@, d@)),
            toc::tocs(toc@) == toc_repair::spec_propose(p@, d@.book, d@.base(), d@.text),
            out@.len() == i,
            forall|k: int|
                0 <= k < i ==> edit::written(
                    Ok(#[trigger] out@[k]),
                    volume_at(p@, d@, cs, ser, us, now@, k),
                ),
        decreases n - i,
    {
        assert(cs[i as int] == cuts@[i as int]@);
        assert(us[i as int] == uuids@[i as int]@);
        assert(cs[i as int].spine_index <= spine@.len());
        match volume(&p, &d, &spine, &toc, &cuts[i], &uuids[i], series, now) {
            Ok(b) => {
                out.push(b);
            },
            Err(e) => {
                assert(stopped_by(e, volume_at(p@, d@, cs, ser, us, now@, i as int)));
                assert(toc_repair::read_book(epub_bytes@)->Ok_0.0 == p@);
                assert(toc_repair::read_book(epub_bytes@)->Ok_0.1 == d@);
                return Err(e);
            },
        }
        i += 1;
    }
    Ok(out)
}

/// What the identifier of a volume is made from: that of the collection and the volume's number.
pub open spec fn volume_key(identifier: Seq<char>, number: Number) -> Seq<char> {
    identifier + "#"@ + volume_number::number_text(number)
}

/// What the identifier of a volume is made from.
pub fn volume_name(identifier: &str, number: Number) -> (r: String)
    ensures
        r@ == volume_key(identifier@, number),
{
    let mut out = chars_of(identifier);
    put_str(&mut out, "#");
    put(&mut out, &trim_number(number));
    string_of(&out)
}

/// The entries that lead to the documents.
pub open spec fn leading(v: Seq<(Seq<char>, Seq<char>)>, kept: Seq<Seq<char>>) -> Seq<
    (Seq<char>, Seq<char>),
> {
    v.filter(|e: (Seq<char>, Seq<char>)| kept.contains(toc_shape::document(e.1)))
}

proof fn lemma_leading_add(
    a: Seq<(Seq<char>, Seq<char>)>,
    b: Seq<(Seq<char>, Seq<char>)>,
    kept: Seq<Seq<char>>,
)
    ensures
        leading(a + b, kept) == leading(a, kept) + leading(b, kept),
{
    Seq::filter_distributes_over_add(
        a,
        b,
        |e: (Seq<char>, Seq<char>)| kept.contains(toc_shape::document(e.1)),
    );
}

proof fn lemma_flatten_add(a: Seq<Toc>, b: Seq<Toc>)
    ensures
        toc::spec_flatten(a + b) == toc::spec_flatten(a) + toc::spec_flatten(b),
    decreases b.len(),
{
    if b.len() == 0 {
        assert(a + b =~= a);
        assert(toc::spec_flatten(a) + toc::spec_flatten(b) =~= toc::spec_flatten(a));
    } else {
        lemma_flatten_add(a, b.drop_last());
        assert((a + b).drop_last() =~= a + b.drop_last());
        assert((a + b).last() == b.last());
        assert(toc::spec_flatten(a + b) =~= toc::spec_flatten(a) + toc::spec_flatten(b));
    }
}

/// A volume loses no chapter that leads into it, and gains none: its chapter list is that of the
/// collection without the entries that lead elsewhere, in the same order.
pub proof fn carving_keeps_what_leads_into_the_volume(v: Seq<Toc>, kept: Seq<Seq<char>>)
    ensures
        toc::spec_flatten(carved(v, kept)) == leading(toc::spec_flatten(v), kept),
    decreases v,
{
    if v.len() == 0 {
        assert(leading(toc::spec_flatten(v), kept) =~= Seq::empty()) by {
            reveal(Seq::filter);
        }
    } else {
        let e = v.last();
        let front = toc::spec_flatten(v.drop_last());
        let own = seq![(e.title, e.href)];
        let below = toc::spec_flatten(e.children);
        carving_keeps_what_leads_into_the_volume(v.drop_last(), kept);
        carving_keeps_what_leads_into_the_volume(e.children, kept);
        assert(toc::spec_flatten(v) =~= front + own + below);
        lemma_leading_add(front + own, below, kept);
        lemma_leading_add(front, own, kept);
        let part = if kept.contains(toc_shape::document(e.href)) {
            seq![Toc { title: e.title, href: e.href, children: carved(e.children, kept) }]
        } else {
            carved(e.children, kept)
        };
        lemma_flatten_add(carved(v.drop_last(), kept), part);
        assert(leading(own, kept) =~= if kept.contains(toc_shape::document(e.href)) {
            own
        } else {
            Seq::empty()
        }) by {
            reveal_with_fuel(Seq::filter, 2);
            assert(own.drop_last() =~= Seq::empty());
            assert(own.last() == (e.title, e.href));
        }
        if kept.contains(toc_shape::document(e.href)) {
            assert(part.drop_last() =~= Seq::<Toc>::empty());
            assert(toc::spec_flatten(part.drop_last()) =~= Seq::empty());
            assert(part.last().children == carved(e.children, kept));
            assert(toc::spec_flatten(part) =~= own + leading(below, kept));
        }
        assert(toc::spec_flatten(carved(v, kept)) =~= leading(toc::spec_flatten(v), kept));
    }
}

// ---------------------------------------------------------------- what a volume carries

pub proof fn lemma_kept_get(p: Seq<Part>, names: Seq<Seq<char>>, n: int, name: Seq<char>)
    requires
        0 <= n <= p.len(),
    ensures
        edit::spec_get(edit::kept_to(p, names, n), name) == if names.contains(name) {
            edit::spec_get(p.take(n), name)
        } else {
            None
        },
    decreases n,
{
    if n > 0 {
        lemma_kept_get(p, names, n - 1, name);
        assert(p.take(n) =~= p.take(n - 1).push(p[n - 1]));
        edit::lemma_get_push(p.take(n - 1), p[n - 1], name);
        edit::lemma_get_push(edit::kept_to(p, names, n - 1), p[n - 1], name);
    } else {
        assert(p.take(0) =~= Seq::<Part>::empty());
    }
}

/// The content of a document of the volume: byte for byte, or without the links
/// that lead out of it.
pub open spec fn content_closed(data: Seq<u8>, name: Seq<char>, docs: Seq<Seq<char>>) -> Seq<u8> {
    match unlinked(data, structure::spec_dir_of(name), docs) {
        Some(new) => new,
        None => data,
    }
}

pub proof fn lemma_closed_get(p: Seq<Part>, docs: Seq<Seq<char>>, n: int, name: Seq<char>)
    requires
        0 <= n <= docs.len(),
        docs.no_duplicates(),
    ensures
        edit::spec_get(closed_to(p, docs, n), name) == match edit::spec_get(p, name) {
            Some(data) if docs.take(n).contains(name) => Some(content_closed(data, name, docs)),
            _ => edit::spec_get(p, name),
        },
    decreases n,
{
    if n > 0 {
        lemma_closed_get(p, docs, n - 1, name);
        let before = closed_to(p, docs, n - 1);
        let doc = docs[n - 1];
        assert(docs.take(n) =~= docs.take(n - 1).push(doc));
        if let Some(data) = edit::spec_get(before, doc) {
            if let Some(new) = unlinked(data, structure::spec_dir_of(doc), docs) {
                edit::replacing_is_surgical(before, doc, new, name);
            }
        }
        if name == doc {
            if docs.take(n - 1).contains(doc) {
                let k = choose|k: int| 0 <= k < n - 1 && #[trigger] docs.take(n - 1)[k] == doc;
                assert(docs[k] == docs[n - 1]);
            }
            assert(docs.take(n)[n - 1] == doc);
        } else if docs.take(n).contains(name) {
            let k = choose|k: int| 0 <= k < n && #[trigger] docs.take(n)[k] == name;
            assert(docs.take(n - 1)[k] == name);
        } else if docs.take(n - 1).contains(name) {
            let k = choose|k: int| 0 <= k < n - 1 && #[trigger] docs.take(n - 1)[k] == name;
            assert(docs.take(n)[k] == name);
        }
    } else {
        assert(docs.take(0) =~= Seq::<Seq<char>>::empty());
    }
}

/// A volume carries its pages and what they reach over as they were: the
/// documents of its cut byte for byte, but for links that lead out of it, and
/// every resource byte for byte. It holds no other member of the collection but
/// those that describe a book.
pub proof fn a_volume_carries_its_members_over(
    p: Seq<Part>,
    d: Found,
    toc: Seq<Toc>,
    cut: CutAt,
    a: Asked,
    name: Seq<char>,
)
    requires
        cut_documents(package::spec_spine_documents(d.book, d.base()), cut).no_duplicates(),
        name != d.path,
        name != "mimetype"@,
        name != "META-INF/container.xml"@,
        edit::spec_get(p, name) is Some,
    ensures
        ({
            let docs = cut_documents(package::spec_spine_documents(d.book, d.base()), cut);
            let resources = volume_resources(p, d, docs);
            let data = edit::spec_get(p, name)->0;
            let carried = edit::spec_get(volume_parts(p, d, toc, cut, a), name);
            &&& docs.contains(name) ==> carried == Some(content_closed(data, name, docs))
            &&& resources.contains(name) && !docs.contains(name) ==> carried == Some(data)
            &&& !resources.contains(name) && !docs.contains(name) && carried is Some ==> {
                let taken = (docs + resources).push(d.path);
                name == nav_path(d.base(), taken) || name == ncx_path(d.base(), taken)
            }
        }),
{
    reveal(volume_parts);
    let docs = cut_documents(package::spec_spine_documents(d.book, d.base()), cut);
    let resources = volume_resources(p, d, docs);
    let taken = (docs + resources).push(d.path);
    let kept = taken.push("mimetype"@).push("META-INF/container.xml"@);
    let nav = nav_path(d.base(), taken);
    let ncx = ncx_path(d.base(), taken);
    let subset = edit::kept_to(p, kept, p.len() as int);
    let body = bound(p, d, cut, a, docs, resources);
    let held = docs.contains(name) || resources.contains(name);
    assert(kept.contains(name) == held && (held ==> taken.contains(name))) by {
        lemma_taken(docs, resources, d.path, name);
    }
    lemma_kept_get(p, kept, p.len() as int, name);
    assert(p.take(p.len() as int) =~= p);
    lemma_closed_get(subset, docs, docs.len() as int, name);
    assert(docs.take(docs.len() as int) =~= docs);
    let closed = closed_to(subset, docs, docs.len() as int);
    assert forall|b: Seq<u8>| edit::spec_get(
        #[trigger] edit::spec_replace(closed, d.path, b),
        name,
    ) == edit::spec_get(closed, name) by {
        edit::replacing_is_surgical(closed, d.path, b, name);
    }
    assert(edit::spec_get(body, name) == edit::spec_get(closed, name));
    fresh::a_fresh_name_is_free(taken, d.base() + "nav"@, "-"@, ".xhtml"@);
    fresh::a_fresh_name_is_free(taken, d.base() + "toc"@, "-"@, ".ncx"@);
    assert forall|q: Seq<Part>, b: Seq<u8>| name != nav implies edit::spec_get(
        #[trigger] edit::spec_set(q, nav, b),
        name,
    ) == edit::spec_get(q, name) by {
        edit::setting_changes_one_member(q, nav, b, name);
    }
    assert forall|q: Seq<Part>, b: Seq<u8>| name != ncx implies edit::spec_get(
        #[trigger] edit::spec_set(q, ncx, b),
        name,
    ) == edit::spec_get(q, name) by {
        edit::setting_changes_one_member(q, ncx, b, name);
    }
}

proof fn lemma_taken(
    docs: Seq<Seq<char>>,
    resources: Seq<Seq<char>>,
    path: Seq<char>,
    name: Seq<char>,
)
    requires
        name != path,
        name != "mimetype"@,
        name != "META-INF/container.xml"@,
    ensures
        ({
            let taken = (docs + resources).push(path);
            let held = docs.contains(name) || resources.contains(name);
            &&& taken.contains(name) == held
            &&& taken.push("mimetype"@).push("META-INF/container.xml"@).contains(name) == held
        }),
{
    let both = docs + resources;
    let taken = both.push(path);
    let kept = taken.push("mimetype"@).push("META-INF/container.xml"@);
    let n = both.len() as int;
    if docs.contains(name) {
        let k = choose|k: int| 0 <= k < docs.len() && docs[k] == name;
        assert(taken[k] == name && kept[k] == name);
    }
    if resources.contains(name) {
        let k = choose|k: int| 0 <= k < resources.len() && resources[k] == name;
        assert(taken[docs.len() + k] == name && kept[docs.len() + k] == name);
    }
    if kept.contains(name) {
        let k = choose|k: int| 0 <= k < kept.len() && kept[k] == name;
        assert(k < n);
        if k < docs.len() {
            assert(docs[k] == name);
        } else {
            assert(resources[k - docs.len()] == name);
        }
    }
    if taken.contains(name) {
        let k = choose|k: int| 0 <= k < taken.len() && taken[k] == name;
        assert(kept[k] == name);
    }
}

/// A volume holds no document of another volume.
pub proof fn a_volume_holds_no_other_document(
    p: Seq<Part>,
    d: Found,
    toc: Seq<Toc>,
    cut: CutAt,
    a: Asked,
    name: Seq<char>,
)
    requires
        cut_documents(package::spec_spine_documents(d.book, d.base()), cut).no_duplicates(),
        spine_paths(package::spec_spine_documents(d.book, d.base())).contains(name),
        !cut_documents(package::spec_spine_documents(d.book, d.base()), cut).contains(name),
        name != d.path,
        name != "mimetype"@,
        name != "META-INF/container.xml"@,
        edit::spec_get(p, name) is Some,
    ensures
        ({
            let docs = cut_documents(package::spec_spine_documents(d.book, d.base()), cut);
            let taken = (docs + volume_resources(p, d, docs)).push(d.path);
            edit::spec_get(volume_parts(p, d, toc, cut, a), name) is Some ==> name == nav_path(
                d.base(),
                taken,
            ) || name == ncx_path(d.base(), taken)
        }),
{
    let spine = package::spec_spine_documents(d.book, d.base());
    let docs = cut_documents(spine, cut);
    a_volume_carries_its_members_over(p, d, toc, cut, a, name);
    reach::no_document_is_a_resource(
        p,
        (reach::Scope { docs, spine: spine_paths(spine) }),
        name,
    );
}

} // verus!
