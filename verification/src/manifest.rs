//! The members of an EPUB as its package document has them, and editing that
//! document's manifest and spine in place.
use vstd::prelude::*;

use crate::codec;
use crate::edit;
use crate::error;
use crate::escaping;
use crate::fresh::fresh;
use crate::fresh;
use crate::markup;
use crate::opf;
use crate::package;
use crate::reading;
use crate::spine_repair;
use crate::structure;
use crate::text;
use crate::archive::Part;
use crate::codec::{bytes_of, decode_text};
use crate::edit::EpubPackage;
use crate::error::{Error, ErrorKind, Fault, refuse, refuse_named};
use crate::markup::{TagEdit, attr_value, escape_attr, rewrite_tags, set_attr};
use crate::opf::{Opf, OpfData, OpfItem, item_named_in};
use crate::package::{Found, PackageDoc, abs_path, package_doc};
use crate::spine_repair::flatten_declared;
use crate::structure::{basename, dir_of, relativize};
use crate::text::{
    add_str, ascii_alnum, ascii_alpha, blank, chars_of, copy, ends_str, find_char, find_str,
    has_str, is, join2, lowered, put, put_str, replace_str, rfind_char, rfind_str, starts_str,
    str_is, string_of, trim,
};

verus! {

#[derive(Debug, Clone, Copy, PartialEq, Eq, Structural)]
pub enum MemberRole {
    Text,
    Style,
    Image,
    Font,
    Audio,
    Video,
    Nav,
    Ncx,
    Opf,
    Container,
    Other,
}

/// The word for a role.
pub open spec fn spec_role_word(r: MemberRole) -> Seq<char> {
    match r {
        MemberRole::Text => "text"@,
        MemberRole::Style => "style"@,
        MemberRole::Image => "image"@,
        MemberRole::Font => "font"@,
        MemberRole::Audio => "audio"@,
        MemberRole::Video => "video"@,
        MemberRole::Nav => "nav"@,
        MemberRole::Ncx => "ncx"@,
        MemberRole::Opf => "opf"@,
        MemberRole::Container => "container"@,
        MemberRole::Other => "other"@,
    }
}

impl MemberRole {
    /// The word for the role.
    pub fn as_str(self) -> (r: &'static str)
        ensures
            r@ == spec_role_word(self),
    {
        match self {
            MemberRole::Text => "text",
            MemberRole::Style => "style",
            MemberRole::Image => "image",
            MemberRole::Font => "font",
            MemberRole::Audio => "audio",
            MemberRole::Video => "video",
            MemberRole::Nav => "nav",
            MemberRole::Ncx => "ncx",
            MemberRole::Opf => "opf",
            MemberRole::Container => "container",
            MemberRole::Other => "other",
        }
    }
}

/// A member of an EPUB with what the package document says of it.
#[derive(Debug)]
pub struct Member {
    pub path: String,
    pub id: Option<String>,
    pub media_type: Option<String>,
    pub role: MemberRole,
    pub spine_index: Option<usize>,
    pub label: Option<String>,
    pub size: usize,
    pub text: bool,
}

/// What a `Member` says.
#[verifier::ext_equal]
pub struct Listed {
    pub path: Seq<char>,
    pub id: Option<Seq<char>>,
    pub media_type: Option<Seq<char>>,
    pub role: MemberRole,
    pub spine_index: Option<int>,
    pub label: Option<Seq<char>>,
    pub size: int,
    pub text: bool,
}

impl View for Member {
    type V = Listed;

    open spec fn view(&self) -> Listed {
        Listed {
            path: self.path@,
            id: text::opt_str(self.id),
            media_type: text::opt_str(self.media_type),
            role: self.role,
            spine_index: text::pos(self.spine_index),
            label: text::opt_str(self.label),
            size: self.size as int,
            text: self.text,
        }
    }
}

pub open spec fn listed(v: Seq<Member>) -> Seq<Listed> {
    v.map_values(|m: Member| m@)
}

// ---------------------------------------------------------------- roles

/// What follows the last `.` of a path, or the path where there is none.
pub open spec fn ext_of(path: Seq<char>) -> Seq<char> {
    match text::spec_rfind_char(path, '.', path.len() as int) {
        Some(k) => path.subrange(k + 1, path.len() as int),
        None => path,
    }
}

fn extension(path: &[char]) -> (r: &[char])
    ensures
        r@ == ext_of(path@),
{
    match rfind_char(path, '.', path.len()) {
        Some(k) => &path[k + 1..path.len()],
        None => path,
    }
}

/// The role that a media type gives.
pub open spec fn role_by_type(m: Seq<char>) -> MemberRole {
    if m == "application/xhtml+xml"@ || m == "text/html"@ {
        MemberRole::Text
    } else if m == "text/css"@ {
        MemberRole::Style
    } else if m == "application/x-dtbncx+xml"@ {
        MemberRole::Ncx
    } else if text::spec_starts(m, "image/"@) {
        MemberRole::Image
    } else if text::spec_starts(m, "audio/"@) {
        MemberRole::Audio
    } else if text::spec_starts(m, "video/"@) {
        MemberRole::Video
    } else if text::spec_starts(m, "font/"@) || text::spec_starts(m, "application/font"@)
        || text::spec_starts(m, "application/x-font"@) || m == "application/vnd.ms-opentype"@ {
        MemberRole::Font
    } else {
        MemberRole::Other
    }
}

fn role_of_type(m: &[char]) -> (r: MemberRole)
    ensures
        r == role_by_type(m@),
{
    if is(m, "application/xhtml+xml") || is(m, "text/html") {
        MemberRole::Text
    } else if is(m, "text/css") {
        MemberRole::Style
    } else if is(m, "application/x-dtbncx+xml") {
        MemberRole::Ncx
    } else if starts_str(m, "image/") {
        MemberRole::Image
    } else if starts_str(m, "audio/") {
        MemberRole::Audio
    } else if starts_str(m, "video/") {
        MemberRole::Video
    } else if starts_str(m, "font/") || starts_str(m, "application/font") || starts_str(
        m,
        "application/x-font",
    ) || is(m, "application/vnd.ms-opentype") {
        MemberRole::Font
    } else {
        MemberRole::Other
    }
}

/// The role that a file extension gives.
pub open spec fn role_by_ext(e: Seq<char>) -> MemberRole {
    if e == "xhtml"@ || e == "html"@ || e == "htm"@ {
        MemberRole::Text
    } else if e == "css"@ {
        MemberRole::Style
    } else if e == "ncx"@ {
        MemberRole::Ncx
    } else if e == "jpg"@ || e == "jpeg"@ || e == "png"@ || e == "gif"@ || e == "webp"@ || e
        == "svg"@ || e == "bmp"@ {
        MemberRole::Image
    } else if e == "ttf"@ || e == "otf"@ || e == "woff"@ || e == "woff2"@ {
        MemberRole::Font
    } else if e == "mp3"@ || e == "m4a"@ || e == "ogg"@ || e == "aac"@ {
        MemberRole::Audio
    } else if e == "mp4"@ || e == "webm"@ || e == "m4v"@ {
        MemberRole::Video
    } else {
        MemberRole::Other
    }
}

fn role_of_ext(e: &[char]) -> (r: MemberRole)
    ensures
        r == role_by_ext(e@),
{
    if is(e, "xhtml") || is(e, "html") || is(e, "htm") {
        MemberRole::Text
    } else if is(e, "css") {
        MemberRole::Style
    } else if is(e, "ncx") {
        MemberRole::Ncx
    } else if is(e, "jpg") || is(e, "jpeg") || is(e, "png") || is(e, "gif") || is(e, "webp") || is(
        e,
        "svg",
    ) || is(e, "bmp") {
        MemberRole::Image
    } else if is(e, "ttf") || is(e, "otf") || is(e, "woff") || is(e, "woff2") {
        MemberRole::Font
    } else if is(e, "mp3") || is(e, "m4a") || is(e, "ogg") || is(e, "aac") {
        MemberRole::Audio
    } else if is(e, "mp4") || is(e, "webm") || is(e, "m4v") {
        MemberRole::Video
    } else {
        MemberRole::Other
    }
}

/// The role of a member, given where the package document, the navigation
/// document and the NCX stand: those first, then its media type, then its
/// extension.
pub open spec fn spec_role_of(
    path: Seq<char>,
    media_type: Option<Seq<char>>,
    opf_path: Seq<char>,
    nav_path: Option<Seq<char>>,
    ncx_path: Option<Seq<char>>,
) -> MemberRole {
    if path == opf_path {
        MemberRole::Opf
    } else if path == "mimetype"@ || text::spec_starts(path, "META-INF/"@) {
        MemberRole::Container
    } else if nav_path == Some(path) {
        MemberRole::Nav
    } else if ncx_path == Some(path) {
        MemberRole::Ncx
    } else {
        match media_type {
            Some(m) => role_by_type(text::spec_lower(text::spec_trim(m))),
            None => role_by_ext(text::spec_lower(ext_of(path))),
        }
    }
}

fn is_opt(o: &Option<String>, path: &str) -> (r: bool)
    ensures
        r == (text::opt_str(*o) == Some(path@)),
{
    match o {
        Some(s) => str_is(s, path),
        None => false,
    }
}

fn role_of(
    path: &str,
    media_type: &Option<String>,
    opf_path: &str,
    nav_path: &Option<String>,
    ncx_path: &Option<String>,
) -> (r: MemberRole)
    ensures
        r == spec_role_of(
            path@,
            text::opt_str(*media_type),
            opf_path@,
            text::opt_str(*nav_path),
            text::opt_str(*ncx_path),
        ),
{
    let p = chars_of(path);
    if str_is(path, opf_path) {
        MemberRole::Opf
    } else if str_is(path, "mimetype") || starts_str(&p, "META-INF/") {
        MemberRole::Container
    } else if is_opt(nav_path, path) {
        MemberRole::Nav
    } else if is_opt(ncx_path, path) {
        MemberRole::Ncx
    } else {
        match media_type {
            Some(m) => role_of_type(&lowered(trim(&chars_of(m)))),
            None => role_of_ext(&lowered(extension(&p))),
        }
    }
}

/// Whether a member is text that an editor can show.
pub open spec fn spec_is_text(
    role: MemberRole,
    media_type: Option<Seq<char>>,
    path: Seq<char>,
) -> bool {
    match role {
        MemberRole::Text | MemberRole::Style | MemberRole::Nav | MemberRole::Ncx | MemberRole::Opf
        | MemberRole::Container => true,
        MemberRole::Font | MemberRole::Audio | MemberRole::Video => false,
        MemberRole::Image => (media_type matches Some(m) && text::spec_contains(m, "svg"@))
            || text::spec_ends(path, ".svg"@),
        MemberRole::Other => {
            let m = text::spec_lower(opf::or_empty(media_type));
            let e = ext_of(path);
            text::spec_starts(m, "text/"@) || text::spec_contains(m, "xml"@) || text::spec_contains(
                m,
                "json"@,
            ) || text::spec_contains(m, "javascript"@) || e == "xml"@ || e == "txt"@ || e == "js"@
                || e == "json"@ || e == "smil"@ || e == "pls"@
        },
    }
}

fn is_text(role: MemberRole, media_type: &Option<String>, path: &str) -> (r: bool)
    ensures
        r == spec_is_text(role, text::opt_str(*media_type), path@),
{
    let p = chars_of(path);
    match role {
        MemberRole::Text | MemberRole::Style | MemberRole::Nav | MemberRole::Ncx | MemberRole::Opf
        | MemberRole::Container => true,
        MemberRole::Font | MemberRole::Audio | MemberRole::Video => false,
        MemberRole::Image => {
            let svg = match media_type {
                Some(m) => has_str(&chars_of(m), "svg"),
                None => false,
            };
            svg || ends_str(&p, ".svg")
        },
        MemberRole::Other => {
            let m = match media_type {
                Some(m) => lowered(&chars_of(m)),
                None => Vec::new(),
            };
            assert(media_type is None ==> m@ =~= text::spec_lower(Seq::<char>::empty()));
            let e = extension(&p);
            starts_str(&m, "text/") || has_str(&m, "xml") || has_str(&m, "json") || has_str(
                &m,
                "javascript",
            ) || is(e, "xml") || is(e, "txt") || is(e, "js") || is(e, "json") || is(e, "smil") || is(
                e,
                "pls",
            )
        },
    }
}

// ---------------------------------------------------------------- the members

/// The last of the first `n` manifest items that names the path.
pub open spec fn item_for(items: Seq<OpfItem>, base: Seq<char>, path: Seq<char>, n: int) -> Option<
    OpfItem,
>
    decreases n,
{
    if n <= 0 {
        None
    } else if package::spec_abs(base, items[n - 1].href) == path {
        Some(items[n - 1])
    } else {
        item_for(items, base, path, n - 1)
    }
}

/// The first place from `i` on at which the spine names the path.
pub open spec fn spine_place(
    items: Seq<OpfItem>,
    spine: Seq<Seq<char>>,
    base: Seq<char>,
    path: Seq<char>,
    i: int,
) -> Option<int>
    decreases spine.len() - i,
{
    if i < 0 || i >= spine.len() {
        None
    } else {
        match opf::item_named(items, spine[i], 0) {
            Some(item) => if package::spec_abs(base, item.href) == path {
                Some(i)
            } else {
                spine_place(items, spine, base, path, i + 1)
            },
            None => spine_place(items, spine, base, path, i + 1),
        }
    }
}

/// The label of the first entry from `i` on that names a file of the name.
pub open spec fn label_for(flat: Seq<(Seq<char>, Seq<char>)>, file: Seq<char>, i: int) -> Option<
    Seq<char>,
>
    decreases flat.len() - i,
{
    if i < 0 || i >= flat.len() {
        None
    } else if structure::spec_basename(flat[i].1) == file {
        Some(flat[i].0)
    } else {
        label_for(flat, file, i + 1)
    }
}

pub open spec fn abs_opt(base: Seq<char>, href: Option<Seq<char>>) -> Option<Seq<char>> {
    match href {
        Some(h) => Some(package::spec_abs(base, h)),
        None => None,
    }
}

/// A member as it is listed.
pub open spec fn listed_as(
    d: Found,
    flat: Seq<(Seq<char>, Seq<char>)>,
    path: Seq<char>,
    size: int,
) -> Listed {
    let b = d.book;
    let item = item_for(b.items, d.base(), path, b.items.len() as int);
    let media_type = match item {
        Some(i) => Some(i.media_type),
        None => None,
    };
    let role = spec_role_of(
        path,
        media_type,
        d.path,
        abs_opt(d.base(), b.nav_href),
        abs_opt(d.base(), b.ncx_href),
    );
    Listed {
        path,
        id: match item {
            Some(i) => Some(i.id),
            None => None,
        },
        media_type,
        role,
        spine_index: spine_place(b.items, b.spine, d.base(), path, 0),
        label: label_for(flat, structure::spec_basename(path), 0),
        size,
        text: spec_is_text(role, media_type, path),
    }
}

/// The size of the member's content: that of the first with the name.
pub open spec fn size_of(p: Seq<Part>, path: Seq<char>) -> int {
    match edit::spec_get(p, path) {
        Some(d) => d.len() as int,
        None => 0,
    }
}

/// Every member, listed in order.
pub open spec fn spec_members(p: Seq<Part>) -> Result<Seq<Listed>, Fault> {
    match package::spec_package_doc(p) {
        Err(f) => Err(f),
        Ok(d) => {
            let flat = spine_repair::spec_flatten_declared(p, d.book, d.base());
            Ok(p.map_values(|m: Part| listed_as(d, flat, m.name, size_of(p, m.name))))
        },
    }
}

pub open spec fn members_result(r: Result<Vec<Member>, Error>) -> Result<Seq<Listed>, Fault> {
    match r {
        Ok(v) => Ok(listed(v@)),
        Err(e) => Err(e@),
    }
}

fn item_for_of(opf: &OpfData, base: &str, path: &str) -> (r: Option<usize>)
    ensures
        match r {
            Some(k) => k < opf.manifest@.len() && item_for(
                opf@.items,
                base@,
                path@,
                opf@.items.len() as int,
            ) == Some(opf.manifest@[k as int]@),
            None => item_for(opf@.items, base@, path@, opf@.items.len() as int) is None,
        },
{
    let mut n: usize = opf.manifest.len();
    while n > 0
        invariant
            n <= opf.manifest@.len(),
            item_for(opf@.items, base@, path@, opf@.items.len() as int) == item_for(
                opf@.items,
                base@,
                path@,
                n as int,
            ),
        decreases n,
    {
        assert(opf@.items[n - 1] == opf.manifest@[n - 1]@);
        if str_is(&abs_path(base, &opf.manifest[n - 1].href), path) {
            return Some(n - 1);
        }
        n = n - 1;
    }
    None
}

fn spine_place_of(opf: &OpfData, base: &str, path: &str) -> (r: Option<usize>)
    ensures
        text::pos(r) == spine_place(opf@.items, opf@.spine, base@, path@, 0),
        r matches Some(i) ==> i < opf@.spine.len(),
{
    let mut i: usize = 0;
    while i < opf.spine_ids.len()
        invariant
            i <= opf.spine_ids@.len(),
            spine_place(opf@.items, opf@.spine, base@, path@, 0) == spine_place(
                opf@.items,
                opf@.spine,
                base@,
                path@,
                i as int,
            ),
        decreases opf.spine_ids@.len() - i,
    {
        assert(opf@.spine[i as int] == opf.spine_ids@[i as int]@);
        if let Some(k) = item_named_in(&opf.manifest, &opf.spine_ids[i]) {
            if str_is(&abs_path(base, &opf.manifest[k].href), path) {
                return Some(i);
            }
        }
        i = i + 1;
    }
    None
}

fn label_of(flat: &Vec<(String, String)>, file: &str) -> (r: Option<String>)
    ensures
        text::opt_str(r) == label_for(edit::pairs(flat@), file@, 0),
{
    let ghost all = edit::pairs(flat@);
    let mut i: usize = 0;
    while i < flat.len()
        invariant
            i <= flat@.len(),
            all == edit::pairs(flat@),
            label_for(all, file@, 0) == label_for(all, file@, i as int),
        decreases flat@.len() - i,
    {
        assert(all[i as int] == (flat@[i as int].0@, flat@[i as int].1@));
        if str_is(&basename(&flat[i].1), file) {
            return Some(flat[i].0.clone());
        }
        i = i + 1;
    }
    None
}

fn abs_of(base: &str, href: &Option<String>) -> (r: Option<String>)
    ensures
        text::opt_str(r) == abs_opt(base@, text::opt_str(*href)),
{
    match href {
        Some(h) => Some(abs_path(base, h)),
        None => None,
    }
}

fn member_of(pkg: &EpubPackage, d: &PackageDoc, flat: &Vec<(String, String)>, path: &String) -> (r:
    Member)
    requires
        d.base@ == d@.base(),
    ensures
        r@ == listed_as(d@, edit::pairs(flat@), path@, size_of(pkg@, path@)),
{
    let (id, media_type) = match item_for_of(&d.opf, &d.base, path) {
        Some(k) => (
            Some(d.opf.manifest[k].id.clone()),
            Some(d.opf.manifest[k].media_type.clone()),
        ),
        None => (None, None),
    };
    let nav_path = abs_of(&d.base, &d.opf.nav_href);
    let ncx_path = abs_of(&d.base, &d.opf.ncx_href);
    let role = role_of(path, &media_type, &d.path, &nav_path, &ncx_path);
    let text = is_text(role, &media_type, path);
    let size = match pkg.get(path) {
        Some(b) => b.len(),
        None => 0,
    };
    Member {
        path: path.clone(),
        id,
        media_type,
        role,
        spine_index: spine_place_of(&d.opf, &d.base, path),
        label: label_of(flat, &basename(path)),
        size,
        text,
    }
}

/// Every member of the package, listed in order.
pub fn members(pkg: &EpubPackage) -> (r: Result<Vec<Member>, Error>)
    ensures
        members_result(r) == spec_members(pkg@),
{
    let d = match package_doc(pkg) {
        Ok(d) => d,
        Err(e) => {
            return Err(e);
        },
    };
    let flat = flatten_declared(pkg, &d.opf, &d.base);
    let ghost fs = edit::pairs(flat@);
    let ghost all = pkg@.map_values(
        |m: Part| listed_as(d@, fs, m.name, size_of(pkg@, m.name)),
    );
    let names = pkg.names();
    assert(text::strs(names@).len() == edit::spec_names(pkg@).len());
    let mut out: Vec<Member> = Vec::new();
    let mut i: usize = 0;
    while i < names.len()
        invariant
            i <= names@.len(),
            text::strs(names@) == edit::spec_names(pkg@),
            d.base@ == d@.base(),
            fs == edit::pairs(flat@),
            all == pkg@.map_values(|m: Part| listed_as(d@, fs, m.name, size_of(pkg@, m.name))),
            names@.len() == all.len(),
            listed(out@) == all.take(i as int),
        decreases names@.len() - i,
    {
        assert(edit::spec_names(pkg@)[i as int] == text::strs(names@)[i as int]);
        assert(pkg@[i as int].name == names@[i as int]@);
        let m = member_of(pkg, &d, &flat, &names[i]);
        let ghost mv = m@;
        let ghost before = listed(out@);
        out.push(m);
        assert(listed(out@) =~= before.push(mv));
        assert(all.take(i + 1) =~= all.take(i as int).push(all[i as int]));
        i = i + 1;
    }
    assert(all.take(names@.len() as int) =~= all);
    Ok(out)
}

// ---------------------------------------------------------------- editing the manifest

/// The start of the line that `i` stands on.
pub open spec fn line_start(t: Seq<char>, i: int) -> int {
    match text::spec_rfind_char(t, '\n', i) {
        Some(k) => k + 1,
        None => 0,
    }
}

/// The start of the line that `i` stands on.
pub fn line_start_of(t: &[char], i: usize) -> (r: usize)
    requires
        i <= t@.len(),
    ensures
        r == line_start(t@, i as int),
        r <= i,
{
    match rfind_char(t, '\n', i) {
        Some(k) => k + 1,
        None => 0,
    }
}

/// Nothing but white space stands before `i` on its line.
pub open spec fn starts_line(t: Seq<char>, i: int) -> bool {
    text::all_white(t.subrange(line_start(t, i), i))
}

/// Where a new item goes into a manifest that ends at `close`: on a line before
/// that of the end tag, or right before the tag where something else stands on
/// its line.
pub open spec fn item_place(t: Seq<char>, close: int) -> int {
    if starts_line(t, close) {
        line_start(t, close)
    } else {
        close
    }
}

/// The indentation that a new manifest item gets: that of the last item where it
/// stands alone on its line, else two spaces more than the end tag's; none where
/// it gets no line of its own.
pub open spec fn item_indent(t: Seq<char>, close: int) -> Seq<char> {
    let end_indent = t.subrange(line_start(t, close), close);
    if !starts_line(t, close) {
        Seq::empty()
    } else {
        match text::spec_rfind(t.take(close), "<item"@, close) {
            Some(i) => {
                let own = t.subrange(line_start(t, i), i);
                if text::all_white(own) {
                    own
                } else {
                    end_indent + "  "@
                }
            },
            None => end_indent + "  "@,
        }
    }
}

/// An item as it is written into the manifest.
pub open spec fn item_tag(href: Seq<char>, id: Seq<char>, media_type: Seq<char>) -> Seq<char> {
    "<item href=\""@ + markup::spec_escape_attr(href) + "\" id=\""@ + markup::spec_escape_attr(id)
        + "\" media-type=\""@ + markup::spec_escape_attr(media_type) + "\"/>\n"@
}

/// The package document with an item added at the end of its manifest.
pub open spec fn spec_insert_item(
    t: Seq<char>,
    href: Seq<char>,
    id: Seq<char>,
    media_type: Seq<char>,
) -> Result<Seq<char>, Fault> {
    match text::spec_find(t, "</manifest>"@, 0) {
        None => Err(
            Fault::Said(ErrorKind::InvalidData, "package document has no </manifest>"@),
        ),
        Some(close) => {
            let a = item_place(t, close);
            Ok(
                t.subrange(0, a) + item_indent(t, close) + item_tag(href, id, media_type)
                    + t.subrange(a, t.len() as int),
            )
        },
    }
}

/// Where a new item goes into a manifest that ends at `close`.
pub fn item_place_of(t: &[char], close: usize) -> (r: usize)
    requires
        close <= t@.len(),
    ensures
        r == item_place(t@, close as int),
        r <= close,
{
    let a = line_start_of(t, close);
    if blank(&t[a..close]) {
        a
    } else {
        close
    }
}

/// The indentation of a new item of a manifest that ends at `close`.
pub fn item_indent_of(t: &[char], close: usize) -> (r: Vec<char>)
    requires
        close <= t@.len(),
    ensures
        r@ == item_indent(t@, close as int),
{
    let a = line_start_of(t, close);
    if !blank(&t[a..close]) {
        return Vec::new();
    }
    let head = &t[0..close];
    assert(head@ =~= t@.take(close as int));
    if let Some(i) = rfind_str(head, "<item", close) {
        let own = &t[line_start_of(t, i)..i];
        if blank(own) {
            return copy(own);
        }
    }
    join2(&t[a..close], &chars_of("  "))
}

/// The package document with an item added at the end of its manifest.
pub fn insert_item(opf: &str, href: &str, id: &str, media_type: &str) -> (r: Result<String, Error>)
    ensures
        error::str_result(r) == spec_insert_item(opf@, href@, id@, media_type@),
{
    let t = chars_of(opf);
    let close = match find_str(&t, "</manifest>", 0) {
        Some(c) => c,
        None => {
            return Err(refuse(ErrorKind::InvalidData, "package document has no </manifest>"));
        },
    };
    let a = item_place_of(&t, close);
    let indent = item_indent_of(&t, close);
    let mut out: Vec<char> = Vec::new();
    put(&mut out, &t[0..a]);
    put(&mut out, &indent);
    let ghost before = out@;
    put_str(&mut out, "<item href=\"");
    put_str(&mut out, &escape_attr(href));
    put_str(&mut out, "\" id=\"");
    put_str(&mut out, &escape_attr(id));
    put_str(&mut out, "\" media-type=\"");
    put_str(&mut out, &escape_attr(media_type));
    put_str(&mut out, "\"/>\n");
    assert(out@ =~= before + item_tag(href@, id@, media_type@));
    put(&mut out, &t[a..t.len()]);
    Ok(string_of(&out))
}

/// A character that an id can hold, and `_` for every other.
pub open spec fn id_char(c: char) -> char {
    if text::is_ascii_alnum(c) || c == '_' || c == '-' {
        c
    } else {
        '_'
    }
}

/// What the id for a path starts with: the file's stem, made of characters that
/// an id can hold, with a `_` before it where it could not start one.
pub open spec fn id_base(path: Seq<char>) -> Seq<char> {
    let file = structure::last_segment(path);
    let stem = match text::spec_rfind_char(file, '.', file.len() as int) {
        Some(k) => file.subrange(0, k),
        None => file,
    };
    let base = stem.map_values(|c: char| id_char(c));
    if base.len() > 0 && (text::is_ascii_alpha(base[0]) || base[0] == '_') {
        base
    } else {
        seq!['_'] + base
    }
}

pub open spec fn item_ids(items: Seq<OpfItem>) -> Seq<Seq<char>> {
    items.map_values(|i: OpfItem| i.id)
}

/// An id for a path that no item of the manifest has.
pub open spec fn spec_unique_id(items: Seq<OpfItem>, path: Seq<char>) -> Seq<char> {
    fresh::spec_fresh(item_ids(items), id_base(path), ""@, Seq::empty())
}

/// The ids of the manifest.
pub fn ids_of(opf: &OpfData) -> (r: Vec<String>)
    ensures
        text::strs(r@) == item_ids(opf@.items),
{
    let ghost all = item_ids(opf@.items);
    let mut out: Vec<String> = Vec::new();
    let mut i: usize = 0;
    while i < opf.manifest.len()
        invariant
            i <= opf.manifest@.len(),
            all == item_ids(opf@.items),
            text::strs(out@) == all.take(i as int),
        decreases opf.manifest@.len() - i,
    {
        assert(opf@.items[i as int] == opf.manifest@[i as int]@);
        assert(all[i as int] == opf.manifest@[i as int].id@);
        add_str(&mut out, opf.manifest[i].id.clone());
        assert(all.take(i + 1) =~= all.take(i as int).push(all[i as int]));
        i = i + 1;
    }
    assert(all.take(opf.manifest@.len() as int) =~= all);
    out
}

/// An id for a path that no item of the manifest has.
pub fn unique_id(opf: &OpfData, path: &str) -> (r: String)
    ensures
        r@ == spec_unique_id(opf@.items, path@),
        !item_ids(opf@.items).contains(r@),
{
    let p = chars_of(path);
    let file: &[char] = match rfind_char(&p, '/', p.len()) {
        Some(k) => &p[k + 1..p.len()],
        None => &p,
    };
    assert(file@ =~= structure::last_segment(p@));
    let stem = match rfind_char(file, '.', file.len()) {
        Some(k) => &file[0..k],
        None => file,
    };
    let mut base: Vec<char> = Vec::new();
    let mut i: usize = 0;
    while i < stem.len()
        invariant
            i <= stem@.len(),
            base@ == stem@.take(i as int).map_values(|c: char| id_char(c)),
        decreases stem@.len() - i,
    {
        let c = stem[i];
        base.push(
            if ascii_alnum(c) || c == '_' || c == '-' {
                c
            } else {
                '_'
            },
        );
        assert(base@ =~= stem@.take(i + 1).map_values(|c: char| id_char(c)));
        i = i + 1;
    }
    assert(stem@.take(stem@.len() as int) =~= stem@);
    if !(base.len() > 0 && (ascii_alpha(base[0]) || base[0] == '_')) {
        let ghost was = base@;
        let mut lead: Vec<char> = Vec::new();
        lead.push('_');
        put(&mut lead, &base);
        base = lead;
        assert(base@ =~= seq!['_'] + was);
    }
    let empty: Vec<char> = Vec::new();
    proof {
        fresh::a_fresh_name_is_free(item_ids(opf@.items), base@, ""@, Seq::empty());
        assert(empty@ =~= Seq::<char>::empty());
    }
    string_of(&fresh(&ids_of(opf), &base, "", &empty))
}

/// The first item from `i` on that names the path.
pub open spec fn first_for(
    items: Seq<OpfItem>,
    base: Seq<char>,
    path: Seq<char>,
    i: int,
) -> Option<OpfItem>
    decreases items.len() - i,
{
    if i < 0 || i >= items.len() {
        None
    } else if package::spec_abs(base, items[i].href) == path {
        Some(items[i])
    } else {
        first_for(items, base, path, i + 1)
    }
}

/// The place of the first item that names the path.
pub fn first_for_of(opf: &OpfData, base: &str, path: &str) -> (r: Option<usize>)
    ensures
        match r {
            Some(k) => k < opf.manifest@.len() && first_for(opf@.items, base@, path@, 0) == Some(
                opf.manifest@[k as int]@,
            ),
            None => first_for(opf@.items, base@, path@, 0) is None,
        },
{
    let mut i: usize = 0;
    while i < opf.manifest.len()
        invariant
            i <= opf.manifest@.len(),
            first_for(opf@.items, base@, path@, 0) == first_for(
                opf@.items,
                base@,
                path@,
                i as int,
            ),
        decreases opf.manifest@.len() - i,
    {
        assert(opf@.items[i as int] == opf.manifest@[i as int]@);
        if str_is(&abs_path(base, &opf.manifest[i].href), path) {
            return Some(i);
        }
        i = i + 1;
    }
    None
}

/// The id under which a path is registered, and the package once it is: as it
/// was where the manifest names the path already.
pub open spec fn spec_add_item(p: Seq<Part>, path: Seq<char>, media_type: Seq<char>) -> Result<
    (Seq<char>, Seq<Part>),
    Fault,
> {
    match package::spec_package_doc(p) {
        Err(f) => Err(f),
        Ok(d) => match first_for(d.book.items, d.base(), path, 0) {
            Some(item) => Ok((item.id, p)),
            None => {
                let id = spec_unique_id(d.book.items, path);
                let href = text::spec_replace(
                    structure::spec_relativize(d.base(), path),
                    " "@,
                    "%20"@,
                );
                match spec_insert_item(d.text, href, id, media_type) {
                    Err(f) => Err(f),
                    Ok(t) => Ok(
                        (id, edit::spec_replace(p, d.path, vstd::utf8::encode_utf8(t))),
                    ),
                }
            },
        },
    }
}

/// Registers a path in the manifest, once, and gives the id it has there.
pub fn add_manifest_item(pkg: &mut EpubPackage, path: &str, media_type: &str) -> (r: Result<
    String,
    Error,
>)
    ensures
        match spec_add_item(old(pkg)@, path@, media_type@) {
            Ok((id, p)) => r matches Ok(s) && s@ == id && final(pkg)@ == p,
            Err(f) => r matches Err(e) && e@ == f && final(pkg)@ == old(pkg)@,
        },
{
    let d = match package_doc(pkg) {
        Ok(d) => d,
        Err(e) => {
            return Err(e);
        },
    };
    if let Some(k) = first_for_of(&d.opf, &d.base, path) {
        return Ok(d.opf.manifest[k].id.clone());
    }
    let id = unique_id(&d.opf, path);
    proof {
        reveal_strlit(" ");
    }
    let href = string_of(&replace_str(&chars_of(&relativize(&d.base, path)), " ", "%20"));
    match insert_item(&d.text, &href, &id, media_type) {
        Err(e) => Err(e),
        Ok(t) => {
            pkg.replace(&d.path, bytes_of(&t));
            Ok(id)
        },
    }
}

// ---------------------------------------------------------------- taking an item out

/// A tag that starts as an item's.
pub open spec fn is_item_tag(tag: Seq<char>) -> bool {
    text::spec_starts(tag, "<item "@) || text::spec_starts(tag, "<item\n"@) || text::spec_starts(
        tag,
        "<item\t"@,
    )
}

/// The tag of the first item from `i` on that names the path: where it starts
/// and ends.
pub open spec fn item_span(t: Seq<char>, base: Seq<char>, path: Seq<char>, i: int) -> Option<
    (int, int),
>
    decreases t.len() - i,
{
    match text::spec_find(t, "<item"@, i) {
        Some(a) if 0 <= i <= a < t.len() => match text::spec_find_char(t, '>', a) {
            Some(g) if a <= g < t.len() => {
                let tag = t.subrange(a, g + 1);
                if is_item_tag(tag) && (markup::spec_attr_value(tag, "href"@) matches Some(h)
                    && package::spec_abs(base, h) == path) {
                    Some((a, g + 1))
                } else {
                    item_span(t, base, path, g + 1)
                }
            },
            _ => None,
        },
        _ => None,
    }
}

/// The text without the item whose tag stands from `a` to `b`: with its end tag
/// where it has one, and with its line where it stands alone on it.
pub open spec fn item_cut(t: Seq<char>, a: int, b: int) -> Seq<char> {
    let line = line_start(t, a);
    let from = if text::all_white(t.subrange(line, a)) {
        line
    } else {
        a
    };
    let end = if text::spec_ends(t.subrange(a, b), "/>"@) {
        b
    } else {
        match text::spec_find(t, "</item>"@, b) {
            Some(c) => c + 7,
            None => b,
        }
    };
    let to = if from == line && text::spec_starts(t.subrange(end, t.len() as int), "\n"@) {
        end + 1
    } else {
        end
    };
    t.subrange(0, from) + t.subrange(to, t.len() as int)
}

/// The package once no item names the path, and whether one did.
pub open spec fn spec_remove_item(p: Seq<Part>, path: Seq<char>) -> Result<
    (bool, Seq<Part>),
    Fault,
> {
    match edit::spec_opf_path(p) {
        Err(f) => Err(f),
        Ok(opf_path) => match edit::spec_opf_bytes(p) {
            Err(f) => Err(f),
            Ok(bytes) => {
                let t = codec::text_in(bytes);
                match item_span(t, structure::spec_dir_of(opf_path), path, 0) {
                    Some((a, b)) => Ok(
                        (
                            true,
                            edit::spec_replace(
                                p,
                                opf_path,
                                vstd::utf8::encode_utf8(item_cut(t, a, b)),
                            ),
                        ),
                    ),
                    None => Ok((false, p)),
                }
            },
        },
    }
}

fn item_span_of(t: &[char], base: &str, path: &str) -> (r: Option<(usize, usize)>)
    ensures
        markup::span2(r) == item_span(t@, base@, path@, 0),
        r matches Some((a, b)) ==> a < b <= t@.len(),
{
    let n = t.len();
    proof {
        reveal_strlit("<item");
    }
    let mut i: usize = 0;
    loop
        invariant
            n == t@.len(),
            "<item"@.len() == 5,
            i <= n,
            item_span(t@, base@, path@, 0) == item_span(t@, base@, path@, i as int),
        decreases n - i,
    {
        let a = match find_str(t, "<item", i) {
            Some(a) => a,
            None => {
                return None;
            },
        };
        let g = match find_char(t, '>', a) {
            Some(g) => g,
            None => {
                return None;
            },
        };
        let raw = &t[a..g + 1];
        if starts_str(raw, "<item ") || starts_str(raw, "<item\n") || starts_str(raw, "<item\t") {
            if let Some(h) = attr_value(&string_of(raw), "href") {
                if str_is(&abs_path(base, &h), path) {
                    return Some((a, g + 1));
                }
            }
        }
        i = g + 1;
    }
}

fn cut_item(t: &[char], a: usize, b: usize) -> (r: Vec<char>)
    requires
        a <= b <= t@.len(),
    ensures
        r@ == item_cut(t@, a as int, b as int),
{
    let n = t.len();
    let line = line_start_of(t, a);
    let from = if blank(&t[line..a]) {
        line
    } else {
        a
    };
    proof {
        reveal_strlit("</item>");
        reveal_strlit("\n");
    }
    let end = if ends_str(&t[a..b], "/>") {
        b
    } else {
        match find_str(t, "</item>", b) {
            Some(c) => c + 7,
            None => b,
        }
    };
    let to = if from == line && starts_str(&t[end..n], "\n") {
        end + 1
    } else {
        end
    };
    join2(&t[0..from], &t[to..n])
}

/// Takes the item that names the path out of the manifest, and says whether
/// there was one.
pub fn remove_manifest_item(pkg: &mut EpubPackage, path: &str) -> (r: Result<bool, Error>)
    ensures
        match spec_remove_item(old(pkg)@, path@) {
            Ok((b, p)) => r matches Ok(x) && x == b && final(pkg)@ == p,
            Err(f) => r matches Err(e) && e@ == f && final(pkg)@ == old(pkg)@,
        },
{
    let opf_path = match pkg.opf_path() {
        Ok(p) => p,
        Err(e) => {
            return Err(e);
        },
    };
    let t = match pkg.opf_bytes() {
        Ok(b) => chars_of(&decode_text(b)),
        Err(e) => {
            return Err(e);
        },
    };
    match item_span_of(&t, &dir_of(&opf_path), path) {
        Some((a, b)) => {
            let out = string_of(&cut_item(&t, a, b));
            pkg.replace(&opf_path, bytes_of(&out));
            Ok(true)
        },
        None => Ok(false),
    }
}

// ---------------------------------------------------------------- properties

/// What setting the `properties` of the item `id` makes of a tag.
pub open spec fn properties_edit(
    id: Seq<char>,
    properties: Seq<char>,
    name: Seq<char>,
    tag: Seq<char>,
) -> Option<Seq<char>> {
    if name == "item"@ && markup::spec_attr_value(tag, "id"@) == Some(id) {
        Some(markup::spec_set_attr(tag, "properties"@, Some(properties)))
    } else {
        None
    }
}

struct SetProperties<'a> {
    id: &'a str,
    properties: &'a str,
}

impl<'a> TagEdit for SetProperties<'a> {
    closed spec fn edited(&self, name: Seq<char>, tag: Seq<char>) -> Option<Seq<char>> {
        properties_edit(self.id@, self.properties@, name, tag)
    }

    fn edit(&self, name: &str, tag: &str) -> (r: Option<String>) {
        if str_is(name, "item") {
            if let Some(id) = attr_value(tag, "id") {
                if str_is(&id, self.id) {
                    return Some(set_attr(tag, "properties", Some(self.properties)));
                }
            }
        }
        None
    }
}

/// The package document with the `properties` of the item `id` set.
pub open spec fn spec_set_item_properties(
    t: Seq<char>,
    id: Seq<char>,
    properties: Seq<char>,
) -> Seq<char> {
    markup::spec_rewrite_tags(
        |name: Seq<char>, tag: Seq<char>| properties_edit(id, properties, name, tag),
        t,
    )
}

/// The package document with the `properties` of the item `id` set.
pub fn set_item_properties(opf: &str, id: &str, properties: &str) -> (r: String)
    ensures
        r@ == spec_set_item_properties(opf@, id@, properties@),
{
    let e = SetProperties { id, properties };
    assert(markup::edit_fn(&e) =~= (|name: Seq<char>, tag: Seq<char>|
        properties_edit(id@, properties@, name, tag)));
    rewrite_tags(opf, &e)
}

// ---------------------------------------------------------------- the spine

/// The `itemref` tag from `i` on that names the id.
pub open spec fn itemref_from(t: Seq<char>, id: Seq<char>, i: int) -> Option<(int, int)>
    decreases t.len() - i,
{
    match text::spec_find(t, "<itemref"@, i) {
        Some(a) if 0 <= i <= a < t.len() => match text::spec_find_char(t, '>', a) {
            Some(g) if a <= g < t.len() => if markup::spec_attr_value(
                t.subrange(a, g + 1),
                "idref"@,
            ) == Some(id) {
                Some((a, g + 1))
            } else {
                itemref_from(t, id, g + 1)
            },
            _ => None,
        },
        _ => None,
    }
}

/// The place of the `itemref` tag that names the id.
pub fn itemref_span(t: &[char], id: &str) -> (r: Option<(usize, usize)>)
    ensures
        markup::span2(r) == itemref_from(t@, id@, 0),
        r matches Some((a, b)) ==> a < b <= t@.len(),
{
    let n = t.len();
    proof {
        reveal_strlit("<itemref");
    }
    let mut i: usize = 0;
    loop
        invariant
            n == t@.len(),
            "<itemref"@.len() == 8,
            i <= n,
            itemref_from(t@, id@, 0) == itemref_from(t@, id@, i as int),
        decreases n - i,
    {
        let a = match find_str(t, "<itemref", i) {
            Some(a) => a,
            None => {
                return None;
            },
        };
        let g = match find_char(t, '>', a) {
            Some(g) => g,
            None => {
                return None;
            },
        };
        if let Some(x) = attr_value(&string_of(&t[a..g + 1]), "idref") {
            if str_is(&x, id) {
                return Some((a, g + 1));
            }
        }
        i = g + 1;
    }
}

/// The package document with an `itemref` for `new` behind that for `after`, as
/// linear as it is and on a line of its own where it has one.
pub open spec fn spec_insert_itemref(t: Seq<char>, after: Seq<char>, new: Seq<char>) -> Result<
    Seq<char>,
    Fault,
> {
    match itemref_from(t, after, 0) {
        None => Err(
            Fault::Said(
                ErrorKind::InvalidData,
                "the spine has no itemref for "@ + after + ""@,
            ),
        ),
        Some((a, b)) => {
            let linear = match markup::spec_attr_value(t.subrange(a, b), "linear"@) {
                Some(l) => " linear=\""@ + markup::spec_escape_attr(l) + "\""@,
                None => Seq::empty(),
            };
            let indent = t.subrange(line_start(t, a), a);
            let sep = if text::all_white(indent) {
                "\n"@ + indent
            } else {
                Seq::empty()
            };
            Ok(
                t.subrange(0, b) + sep + "<itemref idref=\""@ + markup::spec_escape_attr(new)
                    + "\""@ + linear + "/>"@ + t.subrange(b, t.len() as int),
            )
        },
    }
}

/// The package document with an `itemref` for `new_id` behind that for
/// `after_id`.
pub fn insert_itemref_after(opf: &str, after_id: &str, new_id: &str) -> (r: Result<String, Error>)
    ensures
        error::str_result(r) == spec_insert_itemref(opf@, after_id@, new_id@),
{
    let t = chars_of(opf);
    let (a, b) = match itemref_span(&t, after_id) {
        Some(s) => s,
        None => {
            return Err(
                refuse_named(
                    ErrorKind::InvalidData,
                    "the spine has no itemref for ",
                    after_id,
                    "",
                ),
            );
        },
    };
    let mut linear: Vec<char> = Vec::new();
    if let Some(l) = attr_value(&string_of(&t[a..b]), "linear") {
        put_str(&mut linear, " linear=\"");
        put_str(&mut linear, &escape_attr(&l));
        put_str(&mut linear, "\"");
        assert(linear@ =~= " linear=\""@ + markup::spec_escape_attr(l@) + "\""@);
    }
    let indent = &t[line_start_of(&t, a)..a];
    let mut out = copy(&t[0..b]);
    if blank(indent) {
        let sep = join2(&chars_of("\n"), indent);
        put(&mut out, &sep);
    }
    put_str(&mut out, "<itemref idref=\"");
    put_str(&mut out, &escape_attr(new_id));
    put_str(&mut out, "\"");
    put(&mut out, &linear);
    put_str(&mut out, "/>");
    put(&mut out, &t[b..t.len()]);
    assert(Ok::<Seq<char>, Fault>(out@) =~= spec_insert_itemref(opf@, after_id@, new_id@)) by {
        let linear = match markup::spec_attr_value(t@.subrange(a as int, b as int), "linear"@) {
            Some(l) => " linear=\""@ + markup::spec_escape_attr(l) + "\""@,
            None => Seq::empty(),
        };
        let ind = t@.subrange(line_start(t@, a as int), a as int);
        let sep = if text::all_white(ind) {
            "\n"@ + ind
        } else {
            Seq::empty()
        };
        assert(out@ =~= t@.subrange(0, b as int) + sep + "<itemref idref=\""@
            + markup::spec_escape_attr(new_id@) + "\""@ + linear + "/>"@ + t@.subrange(
            b as int,
            t@.len() as int,
        ));
    }
    Ok(string_of(&out))
}

/// The package document without the `itemref` for the id; with its line where it
/// stands alone on it.
pub open spec fn spec_remove_itemref(t: Seq<char>, id: Seq<char>) -> Seq<char> {
    match itemref_from(t, id, 0) {
        None => t,
        Some((a, b)) => {
            let line = line_start(t, a);
            let rest = t.subrange(b, t.len() as int);
            match text::spec_find_char(rest, '\n', 0) {
                Some(i) if text::all_white(t.subrange(line, a)) && text::spec_trim(
                    rest.subrange(0, i),
                ).len() == 0 => t.subrange(0, line) + rest.subrange(i + 1, rest.len() as int),
                _ => t.subrange(0, a) + rest,
            }
        },
    }
}

/// The package document without the `itemref` for the id.
pub fn remove_itemref(opf: &str, id: &str) -> (r: String)
    ensures
        r@ == spec_remove_itemref(opf@, id@),
{
    let t = chars_of(opf);
    match itemref_span(&t, id) {
        None => string_of(&t),
        Some((a, b)) => {
            let line = line_start_of(&t, a);
            let rest = &t[b..t.len()];
            if blank(&t[line..a]) {
                if let Some(i) = find_char(rest, '\n', 0) {
                    if trim(&rest[0..i]).len() == 0 {
                        return string_of(&join2(&t[0..line], &rest[i + 1..rest.len()]));
                    }
                }
            }
            string_of(&join2(&t[0..a], rest))
        },
    }
}

// ---------------------------------------------------------------- reading an item back

/// The attributes of a written item.
pub open spec fn item_attrs(href: Seq<char>, id: Seq<char>, media_type: Seq<char>) -> Seq<
    (Seq<char>, Seq<char>),
> {
    seq![
        ("href"@, markup::spec_escape_attr(href)),
        ("id"@, markup::spec_escape_attr(id)),
        ("media-type"@, markup::spec_escape_attr(media_type)),
    ]
}

pub proof fn lemma_three_texts(
    a: (Seq<char>, Seq<char>),
    b: (Seq<char>, Seq<char>),
    c: (Seq<char>, Seq<char>),
)
    ensures
        reading::attr_texts(seq![a, b, c]) == reading::attr_text(a.0, a.1) + reading::attr_text(
            b.0,
            b.1,
        ) + reading::attr_text(c.0, c.1),
{
    let v = seq![a, b, c];
    let w = v.drop_first();
    let x = w.drop_first();
    assert(v[0] == a && w[0] == b && x[0] == c);
    let none = x.drop_first();
    assert(none =~= Seq::empty());
    assert(reading::attr_texts(none) =~= Seq::<char>::empty());
    assert(reading::attr_texts(x) =~= reading::attr_text(c.0, c.1));
    assert(reading::attr_texts(w) =~= reading::attr_text(b.0, b.1) + reading::attr_text(c.0, c.1));
    assert(reading::attr_texts(v) =~= reading::attr_text(a.0, a.1) + reading::attr_text(b.0, b.1)
        + reading::attr_text(c.0, c.1));
}

pub proof fn lemma_item_text(href: Seq<char>, id: Seq<char>, media_type: Seq<char>)
    ensures
        item_tag(href, id, media_type).drop_last() == reading::empty_tag(
            "item"@,
            item_attrs(href, id, media_type),
        ),
{
    reveal_strlit("<item href=\"");
    reveal_strlit("\" id=\"");
    reveal_strlit("\" media-type=\"");
    reveal_strlit("\"/>\n");
    reveal_strlit("item");
    reveal_strlit("href");
    reveal_strlit("id");
    reveal_strlit("media-type");
    let a = markup::spec_escape_attr(href);
    let b = markup::spec_escape_attr(id);
    let c = markup::spec_escape_attr(media_type);
    assert("<item href=\""@ =~= seq!['<'] + "item"@ + (seq![' '] + "href"@ + seq!['=', '"']));
    assert("\" id=\""@ =~= seq!['"'] + (seq![' '] + "id"@ + seq!['=', '"']));
    assert("\" media-type=\""@ =~= seq!['"'] + (seq![' '] + "media-type"@ + seq!['=', '"']));
    assert("\"/>\n"@ =~= seq!['"'] + seq!['/', '>'] + seq!['\n']);
    lemma_three_texts(("href"@, a), ("id"@, b), ("media-type"@, c));
    assert(item_tag(href, id, media_type) =~= reading::empty_tag(
        "item"@,
        item_attrs(href, id, media_type),
    ) + seq!['\n']);
}

pub proof fn lemma_item_attrs(href: Seq<char>, id: Seq<char>, media_type: Seq<char>)
    ensures
        reading::is_raw_name("item"@),
        reading::are_attrs(item_attrs(href, id, media_type)),
        reading::attrs_read(item_attrs(href, id, media_type)) == seq![
            ("href"@, href),
            ("id"@, id),
            ("media-type"@, media_type),
        ],
        "href"@ != "id"@,
        "href"@ != "media-type"@,
        "id"@ != "media-type"@,
        "properties"@ != "href"@,
        "properties"@ != "id"@,
        "properties"@ != "media-type"@,
{
    reveal_strlit("item");
    reveal_strlit("href");
    reveal_strlit("id");
    reveal_strlit("media-type");
    reveal_strlit("properties");
    escaping::escaping_leaves_no_markup(href);
    escaping::escaping_leaves_no_markup(id);
    escaping::escaping_leaves_no_markup(media_type);
    escaping::unescaping_undoes_escaping(href);
    escaping::unescaping_undoes_escaping(id);
    escaping::unescaping_undoes_escaping(media_type);
    assert(reading::attrs_read(item_attrs(href, id, media_type)) =~= seq![
        ("href"@, href),
        ("id"@, id),
        ("media-type"@, media_type),
    ]);
    assert("href"@.len() == 4 && "id"@.len() == 2 && "media-type"@.len() == 10);
    assert("properties"@.len() == 10 && "properties"@[0] == 'p' && "media-type"@[0] == 'm');
}

/// An item that is written into a manifest is read back: the attributes of its
/// tag are the href, the id and the media type.
pub proof fn a_written_item_is_read_back(href: Seq<char>, id: Seq<char>, media_type: Seq<char>)
    ensures
        ({
            let tag = item_tag(href, id, media_type).drop_last();
            &&& opf::spec_attr(tag, "href"@) == Some(href)
            &&& opf::spec_attr(tag, "id"@) == Some(id)
            &&& opf::spec_attr(tag, "media-type"@) == Some(media_type)
            &&& opf::spec_attr(tag, "properties"@) is None
        }),
{
    lemma_item_text(href, id, media_type);
    lemma_item_attrs(href, id, media_type);
    reading::lemma_empty_tag("item"@, item_attrs(href, id, media_type));
    let read = seq![("href"@, href), ("id"@, id), ("media-type"@, media_type)];
    assert(read[0] == ("href"@, href) && read[1] == ("id"@, id) && read[2] == (
        "media-type"@,
        media_type,
    ));
    reveal_with_fuel(opf::first_named, 4);
}

} // verus!
