//! Reading the package document and the container that names it.
use vstd::prelude::*;

use crate::codec;
use crate::edit;
use crate::error;
use crate::markup;
use crate::text;
use crate::codec::decode_text;
use crate::error::{Error, ErrorKind, Fault, refuse};
use crate::markup::{Attr, Tok, Token, attr_value, attributes, tokens_of, unescape};
use crate::text::{add_str, chars_of, list_has, rfind_char, str_is, string_of, trim, words};

verus! {

/// One entry of the manifest.
pub struct ManifestItem {
    pub id: String,
    pub href: String,
    pub media_type: String,
    pub properties: String,
}

/// The metadata that the rest of the library reads.
pub struct Metadata {
    pub title: String,
    pub language: String,
    pub authors: Vec<String>,
    pub publisher: Option<String>,
    pub date: Option<String>,
    pub identifier: String,
}

/// A package document as read.
pub struct OpfData {
    pub version: String,
    pub unique_identifier: Option<String>,
    pub manifest: Vec<ManifestItem>,
    pub spine_ids: Vec<String>,
    pub nav_href: Option<String>,
    pub ncx_href: Option<String>,
    pub metadata: Metadata,
}

/// What a `ManifestItem` says.
#[verifier::ext_equal]
pub struct OpfItem {
    pub id: Seq<char>,
    pub href: Seq<char>,
    pub media_type: Seq<char>,
    pub properties: Seq<char>,
}

impl View for ManifestItem {
    type V = OpfItem;

    open spec fn view(&self) -> OpfItem {
        OpfItem {
            id: self.id@,
            href: self.href@,
            media_type: self.media_type@,
            properties: self.properties@,
        }
    }
}

pub open spec fn manifest_items(v: Seq<ManifestItem>) -> Seq<OpfItem> {
    v.map_values(|i: ManifestItem| i@)
}

/// What a package document says, as its tags are met.
#[verifier::ext_equal]
pub struct Opf {
    pub package: bool,
    pub version: Seq<char>,
    pub uid: Option<Seq<char>>,
    pub items: Seq<OpfItem>,
    pub spine: Seq<Seq<char>>,
    pub toc: Option<Seq<char>>,
    pub title: Option<Seq<char>>,
    pub language: Option<Seq<char>>,
    pub authors: Seq<Seq<char>>,
    pub publisher: Option<Seq<char>>,
    pub date: Option<Seq<char>>,
    pub identifiers: Seq<(Seq<char>, Seq<char>)>,
}

/// The value of the first attribute called `name`, entities read.
pub open spec fn first_named(v: Seq<(Seq<char>, Seq<char>)>, name: Seq<char>, i: int) -> Option<
    Seq<char>,
>
    decreases v.len() - i,
{
    if i < 0 || i >= v.len() {
        None
    } else if v[i].0 == name {
        Some(v[i].1)
    } else {
        first_named(v, name, i + 1)
    }
}

pub open spec fn spec_attr(tag: Seq<char>, name: Seq<char>) -> Option<Seq<char>> {
    first_named(markup::spec_attributes(tag), name, 0)
}

/// The value of the first of `v` called `name`.
pub fn named(v: &Vec<Attr>, name: &str) -> (r: Option<String>)
    ensures
        text::opt_str(r) == first_named(markup::attrs(v@), name@, 0),
{
    let mut i: usize = 0;
    while i < v.len()
        invariant
            i <= v@.len(),
            first_named(markup::attrs(v@), name@, 0) == first_named(
                markup::attrs(v@),
                name@,
                i as int,
            ),
        decreases v@.len() - i,
    {
        assert(markup::attrs(v@)[i as int] == (v@[i as int].name@, v@[i as int].value@));
        if str_is(&v[i].name, name) {
            return Some(v[i].value.clone());
        }
        i = i + 1;
    }
    None
}

/// An element's name without its prefix.
pub open spec fn spec_local(name: Seq<char>) -> Seq<char> {
    match text::spec_rfind_char(name, ':', name.len() as int) {
        Some(k) => name.subrange(k + 1, name.len() as int),
        None => name,
    }
}

/// An element's name without its prefix.
pub fn local(name: &str) -> (r: String)
    ensures
        r@ == spec_local(name@),
{
    let t = chars_of(name);
    match rfind_char(&t, ':', t.len()) {
        Some(k) => string_of(&t[k + 1..t.len()]),
        None => string_of(&t),
    }
}

/// The text right behind the token `i`, trimmed, entities read.
pub open spec fn text_behind(t: Seq<char>, v: Seq<Token>, i: int) -> Seq<char> {
    if i + 1 < v.len() {
        match v[i + 1] {
            Token::Text { start, end } => text::spec_trim(
                markup::spec_unescape(t.subrange(start, end)),
            ),
            _ => Seq::empty(),
        }
    } else {
        Seq::empty()
    }
}

/// The manifest with `item` in it; an item with the same id is replaced.
pub open spec fn with_item(items: Seq<OpfItem>, item: OpfItem, i: int) -> Seq<OpfItem>
    decreases items.len() - i,
{
    if i < 0 || i >= items.len() {
        items.push(item)
    } else if items[i].id == item.id {
        items.update(i, item)
    } else {
        with_item(items, item, i + 1)
    }
}

/// The text of an optional value, empty where there is none.
pub open spec fn or_empty(o: Option<Seq<char>>) -> Seq<char> {
    match o {
        Some(s) => s,
        None => Seq::empty(),
    }
}

/// The first of two.
pub open spec fn keep_first(o: Option<Seq<char>>, s: Seq<char>) -> Option<Seq<char>> {
    match o {
        Some(x) => Some(x),
        None => Some(s),
    }
}

/// The state once the start tag `tag` called `name`, with `behind` as its text,
/// is met.
pub open spec fn tag_met(p: Opf, name: Seq<char>, tag: Seq<char>, behind: Seq<char>) -> Opf {
    let n = spec_local(name);
    if n == "package"@ {
        if p.package {
            p
        } else {
            Opf {
                package: true,
                version: or_empty(spec_attr(tag, "version"@)),
                uid: spec_attr(tag, "unique-identifier"@),
                ..p
            }
        }
    } else if n == "item"@ {
        match (spec_attr(tag, "id"@), spec_attr(tag, "href"@)) {
            (Some(id), Some(href)) => Opf {
                items: with_item(
                    p.items,
                    OpfItem {
                        id,
                        href,
                        media_type: or_empty(spec_attr(tag, "media-type"@)),
                        properties: or_empty(spec_attr(tag, "properties"@)),
                    },
                    0,
                ),
                ..p
            },
            _ => p,
        }
    } else if n == "spine"@ {
        Opf { toc: spec_attr(tag, "toc"@), ..p }
    } else if n == "itemref"@ {
        match spec_attr(tag, "idref"@) {
            Some(id) => Opf { spine: p.spine.push(id), ..p },
            None => p,
        }
    } else if n == "title"@ {
        Opf { title: keep_first(p.title, behind), ..p }
    } else if n == "language"@ {
        Opf { language: keep_first(p.language, behind), ..p }
    } else if n == "creator"@ {
        Opf { authors: p.authors.push(behind), ..p }
    } else if n == "publisher"@ {
        Opf { publisher: keep_first(p.publisher, behind), ..p }
    } else if n == "date"@ {
        Opf { date: keep_first(p.date, behind), ..p }
    } else if n == "identifier"@ {
        Opf { identifiers: p.identifiers.push((or_empty(spec_attr(tag, "id"@)), behind)), ..p }
    } else {
        p
    }
}

/// The state once the first `n` tokens are met.
pub open spec fn met(t: Seq<char>, v: Seq<Token>, n: int) -> Opf
    decreases n,
{
    if n <= 0 {
        Opf {
            package: false,
            version: Seq::empty(),
            uid: None,
            items: Seq::empty(),
            spine: Seq::empty(),
            toc: None,
            title: None,
            language: None,
            authors: Seq::empty(),
            publisher: None,
            date: None,
            identifiers: Seq::empty(),
        }
    } else {
        let p = met(t, v, n - 1);
        match v[n - 1] {
            Token::Tag { start, end, name, closing, .. } => if closing {
                p
            } else {
                tag_met(p, name, t.subrange(start, end), text_behind(t, v, n - 1))
            },
            _ => p,
        }
    }
}

/// What the package document `t` says.
pub open spec fn opf_of(t: Seq<char>) -> Opf {
    let v = markup::spec_tokens(t);
    met(t, v, v.len() as int)
}

/// The first item from `i` on with the id.
pub open spec fn item_named(items: Seq<OpfItem>, id: Seq<char>, i: int) -> Option<OpfItem>
    decreases items.len() - i,
{
    if i < 0 || i >= items.len() {
        None
    } else if items[i].id == id {
        Some(items[i])
    } else {
        item_named(items, id, i + 1)
    }
}

/// The href of the first item from `i` on that declares the navigation document.
pub open spec fn nav_in(items: Seq<OpfItem>, i: int) -> Option<Seq<char>>
    decreases items.len() - i,
{
    if i < 0 || i >= items.len() {
        None
    } else if text::spec_words(items[i].properties).contains("nav"@) {
        Some(items[i].href)
    } else {
        nav_in(items, i + 1)
    }
}

/// The href of the first item from `i` on that is an NCX by its media type.
pub open spec fn ncx_in(items: Seq<OpfItem>, i: int) -> Option<Seq<char>>
    decreases items.len() - i,
{
    if i < 0 || i >= items.len() {
        None
    } else if items[i].media_type == "application/x-dtbncx+xml"@ {
        Some(items[i].href)
    } else {
        ncx_in(items, i + 1)
    }
}

/// The value of the first identifier from `i` on with the id.
pub open spec fn identifier_named(
    v: Seq<(Seq<char>, Seq<char>)>,
    id: Seq<char>,
    i: int,
) -> Option<Seq<char>>
    decreases v.len() - i,
{
    if i < 0 || i >= v.len() {
        None
    } else if v[i].0 == id {
        Some(v[i].1)
    } else {
        identifier_named(v, id, i + 1)
    }
}

impl Opf {
    /// The href of the navigation document.
    pub open spec fn nav_href(self) -> Option<Seq<char>> {
        nav_in(self.items, 0)
    }

    /// The href of the NCX: the item that the spine names, else the first of its
    /// media type.
    pub open spec fn ncx_href(self) -> Option<Seq<char>> {
        match self.toc {
            Some(id) => match item_named(self.items, id, 0) {
                Some(item) => Some(item.href),
                None => ncx_in(self.items, 0),
            },
            None => ncx_in(self.items, 0),
        }
    }

    /// The identifier that the package names as its own.
    pub open spec fn unique_identifier(self) -> Option<Seq<char>> {
        match self.uid {
            Some(id) => identifier_named(self.identifiers, id, 0),
            None => None,
        }
    }

    /// The package's own identifier, else the first one.
    pub open spec fn identifier(self) -> Seq<char> {
        match self.unique_identifier() {
            Some(s) => s,
            None => if self.identifiers.len() > 0 {
                self.identifiers[0].1
            } else {
                Seq::empty()
            },
        }
    }
}

/// What an `OpfData` says.
#[verifier::ext_equal]
pub struct Book {
    pub version: Seq<char>,
    pub unique_identifier: Option<Seq<char>>,
    pub items: Seq<OpfItem>,
    pub spine: Seq<Seq<char>>,
    pub nav_href: Option<Seq<char>>,
    pub ncx_href: Option<Seq<char>>,
    pub title: Seq<char>,
    pub language: Seq<char>,
    pub authors: Seq<Seq<char>>,
    pub publisher: Option<Seq<char>>,
    pub date: Option<Seq<char>>,
    pub identifier: Seq<char>,
}

impl View for OpfData {
    type V = Book;

    open spec fn view(&self) -> Book {
        Book {
            version: self.version@,
            unique_identifier: text::opt_str(self.unique_identifier),
            items: manifest_items(self.manifest@),
            spine: text::strs(self.spine_ids@),
            nav_href: text::opt_str(self.nav_href),
            ncx_href: text::opt_str(self.ncx_href),
            title: self.metadata.title@,
            language: self.metadata.language@,
            authors: text::strs(self.metadata.authors@),
            publisher: text::opt_str(self.metadata.publisher),
            date: text::opt_str(self.metadata.date),
            identifier: self.metadata.identifier@,
        }
    }
}

impl Opf {
    /// What is read of a package document in the end.
    pub open spec fn book(self) -> Book {
        Book {
            version: self.version,
            unique_identifier: self.unique_identifier(),
            items: self.items,
            spine: self.spine,
            nav_href: self.nav_href(),
            ncx_href: self.ncx_href(),
            title: or_empty(self.title),
            language: or_empty(self.language),
            authors: self.authors,
            publisher: self.publisher,
            date: self.date,
            identifier: self.identifier(),
        }
    }
}

/// What a package document says; one without a package element is refused.
pub open spec fn spec_parse_opf(t: Seq<char>) -> Result<Book, Fault> {
    let p = opf_of(t);
    if p.package {
        Ok(p.book())
    } else {
        Err(Fault::Said(ErrorKind::Other, "no package element in the package document"@))
    }
}

pub open spec fn book_result(r: Result<OpfData, Error>) -> Result<Book, Fault> {
    match r {
        Ok(d) => Ok(d@),
        Err(e) => Err(e@),
    }
}

proof fn lemma_items_push(v: Seq<ManifestItem>, x: ManifestItem)
    ensures
        manifest_items(v.push(x)) == manifest_items(v).push(x@),
{
    assert(manifest_items(v.push(x)) =~= manifest_items(v).push(x@));
}

fn add_item(items: &mut Vec<ManifestItem>, item: ManifestItem)
    ensures
        manifest_items(final(items)@) == with_item(manifest_items(old(items)@), item@, 0),
{
    let ghost all = manifest_items(items@);
    let mut i: usize = 0;
    while i < items.len()
        invariant
            i <= items@.len(),
            items@ == old(items)@,
            all == manifest_items(items@),
            with_item(all, item@, 0) == with_item(all, item@, i as int),
        decreases items@.len() - i,
    {
        assert(all[i as int] == items@[i as int]@);
        if str_is(&items[i].id, &item.id) {
            let ghost iv = item@;
            items.set(i, item);
            assert(manifest_items(items@) =~= all.update(i as int, iv));
            return;
        }
        i = i + 1;
    }
    proof {
        lemma_items_push(items@, item);
    }
    items.push(item);
}

pub fn text_behind_of(t: &[char], v: &Vec<Tok>, i: usize) -> (r: String)
    requires
        i < v@.len(),
        markup::toks(v@) == markup::spec_tokens(t@),
    ensures
        r@ == text_behind(t@, markup::toks(v@), i as int),
{
    proof {
        markup::tokens_tile_the_text(t@);
        markup::lemma_tiles_bound(markup::spec_tokens(t@), 0, t@.len() as int);
    }
    if v.len() - i > 1 {
        assert(markup::toks(v@)[i + 1] == v@[i + 1]@);
        match &v[i + 1] {
            Tok::Text { start, end } => {
                let s = unescape(&string_of(&t[*start..*end]));
                string_of(trim(&chars_of(&s)))
            },
            Tok::Tag { .. } => String::new(),
        }
    } else {
        String::new()
    }
}

pub fn or_empty_of(o: Option<String>) -> (r: String)
    ensures
        r@ == or_empty(text::opt_str(o)),
{
    match o {
        Some(s) => s,
        None => String::new(),
    }
}

fn keep_first_of(o: Option<String>, s: String) -> (r: Option<String>)
    ensures
        text::opt_str(r) == keep_first(text::opt_str(o), s@),
{
    match o {
        Some(x) => Some(x),
        None => Some(s),
    }
}

/// The parts of a package document as its tags are met.
struct Reading {
    package: bool,
    version: String,
    uid: Option<String>,
    items: Vec<ManifestItem>,
    spine: Vec<String>,
    toc: Option<String>,
    title: Option<String>,
    language: Option<String>,
    authors: Vec<String>,
    publisher: Option<String>,
    date: Option<String>,
    identifiers: Vec<(String, String)>,
}

impl Reading {
    spec fn says(self) -> Opf {
        Opf {
            package: self.package,
            version: self.version@,
            uid: text::opt_str(self.uid),
            items: manifest_items(self.items@),
            spine: text::strs(self.spine@),
            toc: text::opt_str(self.toc),
            title: text::opt_str(self.title),
            language: text::opt_str(self.language),
            authors: text::strs(self.authors@),
            publisher: text::opt_str(self.publisher),
            date: text::opt_str(self.date),
            identifiers: edit::pairs(self.identifiers@),
        }
    }

    fn meet(self, name: &str, tag: &str, behind: String) -> (r: Reading)
        ensures
            r.says() == tag_met(self.says(), name@, tag@, behind@),
    {
        let mut p = self;
        let n = local(name);
        let a = attributes(tag);
        if str_is(&n, "package") {
            if !p.package {
                p.package = true;
                p.version = or_empty_of(named(&a, "version"));
                p.uid = named(&a, "unique-identifier");
            }
        } else if str_is(&n, "item") {
            if let (Some(id), Some(href)) = (named(&a, "id"), named(&a, "href")) {
                let media_type = or_empty_of(named(&a, "media-type"));
                let properties = or_empty_of(named(&a, "properties"));
                let mut items = p.items;
                add_item(&mut items, ManifestItem { id, href, media_type, properties });
                p.items = items;
            }
        } else if str_is(&n, "spine") {
            p.toc = named(&a, "toc");
        } else if str_is(&n, "itemref") {
            if let Some(id) = named(&a, "idref") {
                let mut spine = p.spine;
                add_str(&mut spine, id);
                p.spine = spine;
            }
        } else if str_is(&n, "title") {
            p.title = keep_first_of(p.title, behind);
        } else if str_is(&n, "language") {
            p.language = keep_first_of(p.language, behind);
        } else if str_is(&n, "creator") {
            let mut authors = p.authors;
            add_str(&mut authors, behind);
            p.authors = authors;
        } else if str_is(&n, "publisher") {
            p.publisher = keep_first_of(p.publisher, behind);
        } else if str_is(&n, "date") {
            p.date = keep_first_of(p.date, behind);
        } else if str_is(&n, "identifier") {
            let id = or_empty_of(named(&a, "id"));
            let ghost was = p.identifiers@;
            let ghost x = (id, behind);
            let mut identifiers = p.identifiers;
            identifiers.push((id, behind));
            p.identifiers = identifiers;
            assert(edit::pairs(p.identifiers@) =~= edit::pairs(was).push((x.0@, x.1@)));
        }
        p
    }
}

/// The position of the manifest item with the id.
pub fn item_named_in(items: &Vec<ManifestItem>, id: &str) -> (r: Option<usize>)
    ensures
        match r {
            Some(k) => k < items@.len() && item_named(manifest_items(items@), id@, 0) == Some(
                items@[k as int]@,
            ),
            None => item_named(manifest_items(items@), id@, 0) is None,
        },
{
    let ghost all = manifest_items(items@);
    let mut i: usize = 0;
    while i < items.len()
        invariant
            i <= items@.len(),
            all == manifest_items(items@),
            item_named(all, id@, 0) == item_named(all, id@, i as int),
        decreases items@.len() - i,
    {
        assert(all[i as int] == items@[i as int]@);
        if str_is(&items[i].id, id) {
            return Some(i);
        }
        i = i + 1;
    }
    None
}

fn nav_of(items: &Vec<ManifestItem>) -> (r: Option<String>)
    ensures
        text::opt_str(r) == nav_in(manifest_items(items@), 0),
{
    let ghost all = manifest_items(items@);
    let mut i: usize = 0;
    while i < items.len()
        invariant
            i <= items@.len(),
            all == manifest_items(items@),
            nav_in(all, 0) == nav_in(all, i as int),
        decreases items@.len() - i,
    {
        assert(all[i as int] == items@[i as int]@);
        let ws = words(&chars_of(&items[i].properties));
        if list_has(&ws, &chars_of("nav")) {
            return Some(items[i].href.clone());
        }
        i = i + 1;
    }
    None
}

fn ncx_of(items: &Vec<ManifestItem>) -> (r: Option<String>)
    ensures
        text::opt_str(r) == ncx_in(manifest_items(items@), 0),
{
    let ghost all = manifest_items(items@);
    let mut i: usize = 0;
    while i < items.len()
        invariant
            i <= items@.len(),
            all == manifest_items(items@),
            ncx_in(all, 0) == ncx_in(all, i as int),
        decreases items@.len() - i,
    {
        assert(all[i as int] == items@[i as int]@);
        if str_is(&items[i].media_type, "application/x-dtbncx+xml") {
            return Some(items[i].href.clone());
        }
        i = i + 1;
    }
    None
}

fn identifier_of(v: &Vec<(String, String)>, id: &str) -> (r: Option<String>)
    ensures
        text::opt_str(r) == identifier_named(edit::pairs(v@), id@, 0),
{
    let ghost all = edit::pairs(v@);
    let mut i: usize = 0;
    while i < v.len()
        invariant
            i <= v@.len(),
            all == edit::pairs(v@),
            identifier_named(all, id@, 0) == identifier_named(all, id@, i as int),
        decreases v@.len() - i,
    {
        assert(all[i as int] == (v@[i as int].0@, v@[i as int].1@));
        if str_is(&v[i].0, id) {
            return Some(v[i].1.clone());
        }
        i = i + 1;
    }
    None
}

/// Reads a package document.
pub fn parse_opf(text: &str) -> (r: Result<OpfData, Error>)
    ensures
        book_result(r) == spec_parse_opf(text@),
{
    let t = chars_of(text);
    let v = tokens_of(&t);
    proof {
        markup::tokens_tile_the_text(t@);
        markup::lemma_tiles_bound(markup::spec_tokens(t@), 0, t@.len() as int);
    }
    let ghost ks = markup::spec_tokens(t@);
    let mut p = Reading {
        package: false,
        version: String::new(),
        uid: None,
        items: Vec::new(),
        spine: Vec::new(),
        toc: None,
        title: None,
        language: None,
        authors: Vec::new(),
        publisher: None,
        date: None,
        identifiers: Vec::new(),
    };
    assert(p.says() =~= met(t@, ks, 0));
    let mut i: usize = 0;
    while i < v.len()
        invariant
            i <= v@.len(),
            ks == markup::spec_tokens(t@),
            markup::toks(v@) == ks,
            forall|k: int|
                0 <= k < ks.len() ==> 0 <= (#[trigger] ks[k]).start() && ks[k].end() <= t@.len()
                    && ks[k].start() < ks[k].end(),
            p.says() == met(t@, ks, i as int),
        decreases v@.len() - i,
    {
        assert(ks[i as int] == v@[i as int]@);
        if let Tok::Tag { start, end, name, closing, .. } = &v[i] {
            if !*closing {
                let behind = text_behind_of(&t, &v, i);
                p = p.meet(name, &string_of(&t[*start..*end]), behind);
            }
        }
        i = i + 1;
    }
    if !p.package {
        return Err(
            refuse(ErrorKind::Other, "no package element in the package document"),
        );
    }
    let unique_identifier = match &p.uid {
        Some(id) => identifier_of(&p.identifiers, id),
        None => None,
    };
    let identifier = match &unique_identifier {
        Some(s) => s.clone(),
        None => if p.identifiers.len() > 0 {
            assert(edit::pairs(p.identifiers@)[0] == (p.identifiers@[0].0@, p.identifiers@[0].1@));
            p.identifiers[0].1.clone()
        } else {
            String::new()
        },
    };
    let nav_href = nav_of(&p.items);
    let ncx_href = match &p.toc {
        Some(id) => match item_named_in(&p.items, id) {
            Some(k) => Some(p.items[k].href.clone()),
            None => ncx_of(&p.items),
        },
        None => ncx_of(&p.items),
    };
    let Reading { version, items, spine, title, language, authors, publisher, date, .. } = p;
    let d = OpfData {
            version,
            unique_identifier,
            manifest: items,
            spine_ids: spine,
            nav_href,
            ncx_href,
            metadata: Metadata {
                title: or_empty_of(title),
                language: or_empty_of(language),
                authors,
                publisher,
                date,
                identifier,
            },
    };
    assert(d@ =~= met(t@, ks, ks.len() as int).book());
    Ok(d)
}

/// Where the package document stands, among the tokens from `i` on.
pub open spec fn rootfile_from(t: Seq<char>, v: Seq<Token>, i: int) -> Option<Seq<char>>
    decreases v.len() - i,
{
    if i < 0 || i >= v.len() {
        None
    } else {
        match v[i] {
            Token::Tag { start, end, name, closing, .. } => if !closing && spec_local(name)
                == "rootfile"@ && spec_attr(t.subrange(start, end), "full-path"@) is Some {
                spec_attr(t.subrange(start, end), "full-path"@)
            } else {
                rootfile_from(t, v, i + 1)
            },
            _ => rootfile_from(t, v, i + 1),
        }
    }
}

/// The path of the package document that a container names.
pub open spec fn spec_parse_container(bytes: Seq<u8>) -> Result<Seq<char>, Fault> {
    let t = codec::text_in(bytes);
    match rootfile_from(t, markup::spec_tokens(t), 0) {
        Some(p) => Ok(p),
        None => Err(Fault::Said(ErrorKind::InvalidData, "container.xml names no rootfile"@)),
    }
}

/// Reads the path of the package document out of a container.
pub fn parse_container_xml(bytes: &[u8]) -> (r: Result<String, Error>)
    ensures
        error::str_result(r) == spec_parse_container(bytes@),
{
    let t = chars_of(&decode_text(bytes));
    let v = tokens_of(&t);
    proof {
        markup::tokens_tile_the_text(t@);
        markup::lemma_tiles_bound(markup::spec_tokens(t@), 0, t@.len() as int);
    }
    let ghost ks = markup::spec_tokens(t@);
    let mut i: usize = 0;
    while i < v.len()
        invariant
            i <= v@.len(),
            ks == markup::spec_tokens(t@),
            markup::toks(v@) == ks,
            forall|k: int|
                0 <= k < ks.len() ==> 0 <= (#[trigger] ks[k]).start() && ks[k].end() <= t@.len()
                    && ks[k].start() < ks[k].end(),
            t@ == codec::text_in(bytes@),
            rootfile_from(t@, ks, 0) == rootfile_from(t@, ks, i as int),
        decreases v@.len() - i,
    {
        assert(ks[i as int] == v@[i as int]@);
        if let Tok::Tag { start, end, name, closing, .. } = &v[i] {
            if !*closing && str_is(&local(name), "rootfile") {
                let a = attributes(&string_of(&t[*start..*end]));
                if let Some(p) = named(&a, "full-path") {
                    return Ok(p);
                }
            }
        }
        i = i + 1;
    }
    Err(refuse(ErrorKind::InvalidData, "container.xml names no rootfile"))
}

/// What the first `<meta>` from the token `i` on with the name says.
pub open spec fn meta_content(t: Seq<char>, v: Seq<Token>, named: Seq<char>, i: int) -> Option<
    Seq<char>,
>
    decreases v.len() - i,
{
    if i < 0 || i >= v.len() {
        None
    } else {
        let tag = t.subrange(v[i].start(), v[i].end());
        if markup::start_tag(v[i]) && spec_local(markup::tag_name(v[i])) == "meta"@
            && markup::spec_attr_value(tag, "name"@) == Some(named) {
            markup::spec_attr_value(tag, "content"@)
        } else {
            meta_content(t, v, named, i + 1)
        }
    }
}

/// What the attribute of the first element from the token `i` on called `element`
/// says.
pub open spec fn element_attr(
    t: Seq<char>,
    v: Seq<Token>,
    element: Seq<char>,
    attr: Seq<char>,
    i: int,
) -> Option<Seq<char>>
    decreases v.len() - i,
{
    if i < 0 || i >= v.len() {
        None
    } else if markup::start_tag(v[i]) && spec_local(markup::tag_name(v[i])) == element {
        markup::spec_attr_value(t.subrange(v[i].start(), v[i].end()), attr)
    } else {
        element_attr(t, v, element, attr, i + 1)
    }
}

/// What the first `<meta>` with the name says.
pub fn meta_content_of(t: &[char], named: &str) -> (r: Option<String>)
    ensures
        text::opt_str(r) == meta_content(t@, markup::spec_tokens(t@), named@, 0),
{
    let v = tokens_of(t);
    let ghost ks = markup::spec_tokens(t@);
    proof {
        markup::tokens_tile_the_text(t@);
        markup::lemma_tiles_bound(ks, 0, t@.len() as int);
    }
    let mut i: usize = 0;
    while i < v.len()
        invariant
            i <= v@.len(),
            ks == markup::spec_tokens(t@),
            markup::toks(v@) == ks,
            forall|k: int|
                0 <= k < ks.len() ==> 0 <= (#[trigger] ks[k]).start() && ks[k].end() <= t@.len()
                    && ks[k].start() < ks[k].end(),
            meta_content(t@, ks, named@, 0) == meta_content(t@, ks, named@, i as int),
        decreases v@.len() - i,
    {
        assert(ks[i as int] == v@[i as int]@);
        if let Tok::Tag { start, end, name, closing, .. } = &v[i] {
            if !*closing && str_is(&local(name), "meta") {
                let tag = string_of(&t[*start..*end]);
                if let Some(n) = attr_value(&tag, "name") {
                    if str_is(&n, named) {
                        return attr_value(&tag, "content");
                    }
                }
            }
        }
        i = i + 1;
    }
    None
}

/// What the attribute of the first element called `element` says.
pub fn element_attr_of(t: &[char], element: &str, attr: &str) -> (r: Option<String>)
    ensures
        text::opt_str(r) == element_attr(t@, markup::spec_tokens(t@), element@, attr@, 0),
{
    let v = tokens_of(t);
    let ghost ks = markup::spec_tokens(t@);
    proof {
        markup::tokens_tile_the_text(t@);
        markup::lemma_tiles_bound(ks, 0, t@.len() as int);
    }
    let mut i: usize = 0;
    while i < v.len()
        invariant
            i <= v@.len(),
            ks == markup::spec_tokens(t@),
            markup::toks(v@) == ks,
            forall|k: int|
                0 <= k < ks.len() ==> 0 <= (#[trigger] ks[k]).start() && ks[k].end() <= t@.len()
                    && ks[k].start() < ks[k].end(),
            element_attr(t@, ks, element@, attr@, 0) == element_attr(
                t@,
                ks,
                element@,
                attr@,
                i as int,
            ),
        decreases v@.len() - i,
    {
        assert(ks[i as int] == v@[i as int]@);
        if let Tok::Tag { start, end, name, closing, .. } = &v[i] {
            if !*closing && str_is(&local(name), element) {
                let tag = string_of(&t[*start..*end]);
                return attr_value(&tag, attr);
            }
        }
        i = i + 1;
    }
    None
}

} // verus!
