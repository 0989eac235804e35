//! Tables of contents and landmarks, and reading them out of the two navigation
//! documents.
use vstd::prelude::*;

use crate::edit;
use crate::markup;
use crate::nav_doc;
use crate::opf;
use crate::text;
use crate::markup::{Tok, Token, attr_value, attributes, tokens_of, unescape};
use crate::nav_doc::trim_markup_space;
use crate::opf::{local, named, or_empty_of};
use crate::text::{chars_of, find_char, find_str, list_has, lowered, str_is, string_of, words};

verus! {

/// One entry of a table of contents, with the entries below it.
#[derive(Debug)]
pub struct TocEntry {
    pub title: String,
    pub href: String,
    pub children: Vec<TocEntry>,
}

/// What a `TocEntry` says.
#[verifier::ext_equal]
pub struct Toc {
    pub title: Seq<char>,
    pub href: Seq<char>,
    pub children: Seq<Toc>,
}

pub open spec fn toc(e: TocEntry) -> Toc
    decreases e,
{
    Toc { title: e.title@, href: e.href@, children: tocs(e.children@) }
}

pub open spec fn tocs(v: Seq<TocEntry>) -> Seq<Toc>
    decreases v,
{
    if v.len() == 0 {
        Seq::empty()
    } else {
        tocs(v.drop_last()).push(toc(v.last()))
    }
}

pub proof fn lemma_tocs_push(v: Seq<TocEntry>, x: TocEntry)
    ensures
        tocs(v.push(x)) == tocs(v).push(toc(x)),
{
    assert(v.push(x).drop_last() =~= v);
}

pub proof fn lemma_tocs(v: Seq<TocEntry>)
    ensures
        tocs(v).len() == v.len(),
        forall|i: int| 0 <= i < v.len() ==> #[trigger] tocs(v)[i] == toc(v[i]),
    decreases v.len(),
{
    if v.len() > 0 {
        lemma_tocs(v.drop_last());
        assert forall|i: int| 0 <= i < v.len() implies #[trigger] tocs(v)[i] == toc(v[i]) by {
            if i < v.len() - 1 {
                assert(tocs(v)[i] == tocs(v.drop_last())[i]);
            }
        }
    }
}

pub proof fn lemma_tocs_take(v: Seq<TocEntry>, n: int)
    requires
        0 <= n <= v.len(),
    ensures
        tocs(v.take(n)) == tocs(v).take(n),
{
    lemma_tocs(v);
    lemma_tocs(v.take(n));
    assert(tocs(v.take(n)) =~= tocs(v).take(n)) by {
        assert forall|i: int| 0 <= i < n implies tocs(v.take(n))[i] == tocs(v)[i] by {
            assert(v.take(n)[i] == v[i]);
        }
    }
}

impl TocEntry {
    /// An entry with nothing below it.
    pub fn new(title: String, href: String) -> (r: TocEntry)
        ensures
            toc(r) == (Toc { title: title@, href: href@, children: Seq::empty() }),
            r.title@ == title@,
            r.href@ == href@,
            r.children@.len() == 0,
    {
        TocEntry { title, href, children: Vec::new() }
    }
}

/// The entries with those below each behind it, as titles and hrefs.
pub open spec fn spec_flatten(v: Seq<Toc>) -> Seq<(Seq<char>, Seq<char>)>
    decreases v,
{
    if v.len() == 0 {
        Seq::empty()
    } else {
        spec_flatten(v.drop_last()).push((v.last().title, v.last().href)) + spec_flatten(
            v.last().children,
        )
    }
}

/// The number of entries, those below others counted.
pub open spec fn spec_flat_count(v: Seq<Toc>) -> nat {
    spec_flatten(v).len()
}

fn flatten_into(v: &Vec<TocEntry>, out: &mut Vec<(String, String)>)
    ensures
        edit::pairs(final(out)@) == edit::pairs(old(out)@) + spec_flatten(tocs(v@)),
    decreases v,
{
    let ghost all = tocs(v@);
    proof {
        lemma_tocs(v@);
    }
    let mut i: usize = 0;
    assert(edit::pairs(out@) =~= edit::pairs(old(out)@) + spec_flatten(all.take(0)));
    while i < v.len()
        invariant
            i <= v@.len(),
            all == tocs(v@),
            all.len() == v@.len(),
            forall|k: int| 0 <= k < v@.len() ==> #[trigger] all[k] == toc(v@[k]),
            edit::pairs(out@) == edit::pairs(old(out)@) + spec_flatten(all.take(i as int)),
        decreases v@.len() - i,
    {
        let ghost e = all[i as int];
        assert(e == toc(v@[i as int]));
        assert(all.take(i + 1).drop_last() =~= all.take(i as int));
        let ghost before = edit::pairs(out@);
        out.push((v[i].title.clone(), v[i].href.clone()));
        assert(edit::pairs(out@) =~= before.push((e.title, e.href)));
        flatten_into(&v[i].children, out);
        assert(edit::pairs(out@) =~= edit::pairs(old(out)@) + spec_flatten(all.take(i + 1)));
        i = i + 1;
    }
    assert(all.take(v@.len() as int) =~= all);
}

/// The entries with those below each behind it, as titles and hrefs.
pub fn flatten(v: &Vec<TocEntry>) -> (r: Vec<(String, String)>)
    ensures
        edit::pairs(r@) == spec_flatten(tocs(v@)),
{
    let mut out: Vec<(String, String)> = Vec::new();
    flatten_into(v, &mut out);
    assert(edit::pairs(out@) =~= spec_flatten(tocs(v@)));
    out
}

/// The number of entries, those below others counted.
pub fn flat_count(v: &Vec<TocEntry>) -> (r: usize)
    ensures
        r == spec_flat_count(tocs(v@)),
{
    flatten(v).len()
}

/// A copy of an entry.
pub fn copy_entry(e: &TocEntry) -> (r: TocEntry)
    ensures
        toc(r) == toc(*e),
    decreases e,
{
    TocEntry { title: e.title.clone(), href: e.href.clone(), children: copy_entries(&e.children) }
}

/// A copy of a list of entries.
pub fn copy_entries(v: &Vec<TocEntry>) -> (r: Vec<TocEntry>)
    ensures
        tocs(r@) == tocs(v@),
    decreases v,
{
    let mut out: Vec<TocEntry> = Vec::new();
    let mut i: usize = 0;
    while i < v.len()
        invariant
            i <= v@.len(),
            tocs(out@) == tocs(v@.take(i as int)),
        decreases v@.len() - i,
    {
        let e = copy_entry(&v[i]);
        proof {
            lemma_tocs_push(out@, e);
            lemma_tocs_push(v@.take(i as int), v@[i as int]);
            assert(v@.take(i as int).push(v@[i as int]) =~= v@.take(i + 1));
        }
        out.push(e);
        i = i + 1;
    }
    assert(v@.take(v@.len() as int) =~= v@);
    out
}

/// Whether two entries say the same.
fn same_entry(a: &TocEntry, b: &TocEntry) -> (r: bool)
    ensures
        r == (toc(*a) == toc(*b)),
    decreases a,
{
    str_is(&a.title, &b.title) && str_is(&a.href, &b.href) && same_entries(&a.children, &b.children)
}

/// Whether two lists of entries say the same.
pub fn same_entries(a: &Vec<TocEntry>, b: &Vec<TocEntry>) -> (r: bool)
    ensures
        r == (tocs(a@) == tocs(b@)),
    decreases a,
{
    proof {
        lemma_tocs(a@);
        lemma_tocs(b@);
    }
    if a.len() != b.len() {
        return false;
    }
    let mut i: usize = 0;
    while i < a.len()
        invariant
            i <= a@.len(),
            a@.len() == b@.len(),
            tocs(a@).len() == a@.len(),
            tocs(b@).len() == b@.len(),
            forall|k: int| 0 <= k < a@.len() ==> #[trigger] tocs(a@)[k] == toc(a@[k]),
            forall|k: int| 0 <= k < b@.len() ==> #[trigger] tocs(b@)[k] == toc(b@[k]),
            forall|k: int| 0 <= k < i ==> tocs(a@)[k] == tocs(b@)[k],
        decreases a@.len() - i,
    {
        if !same_entry(&a[i], &b[i]) {
            assert(tocs(a@)[i as int] != tocs(b@)[i as int]);
            return false;
        }
        assert(tocs(a@)[i as int] == tocs(b@)[i as int]);
        i = i + 1;
    }
    assert(tocs(a@) =~= tocs(b@));
    true
}

// ---------------------------------------------------------------- building a tree

/// The entries that are open while a document is read, outermost first, and
/// those that are done.
#[verifier::ext_equal]
pub struct Growth {
    pub open: Seq<Toc>,
    pub done: Seq<Toc>,
}

/// The innermost open entry closed: it is added to the one around it.
pub open spec fn closed(g: Growth) -> Growth {
    if g.open.len() == 0 {
        g
    } else if g.open.len() == 1 {
        Growth { open: Seq::empty(), done: g.done.push(g.open[0]) }
    } else {
        let n = g.open.len() as int;
        let parent = g.open[n - 2];
        Growth {
            open: g.open.take(n - 2).push(
                Toc { children: parent.children.push(g.open[n - 1]), ..parent },
            ),
            ..g
        }
    }
}

/// The innermost open entry changed.
pub open spec fn retitled(g: Growth, title: Seq<char>) -> Growth {
    if g.open.len() > 0 && g.open.last().title.len() == 0 {
        Growth { open: g.open.drop_last().push(Toc { title, ..g.open.last() }), ..g }
    } else {
        g
    }
}

/// The innermost open entry given the href, where it has none.
pub open spec fn targeted(g: Growth, href: Seq<char>) -> Growth {
    if g.open.len() > 0 && g.open.last().href.len() == 0 {
        Growth { open: g.open.drop_last().push(Toc { href, ..g.open.last() }), ..g }
    } else {
        g
    }
}

pub open spec fn blank_entry() -> Toc {
    Toc { title: Seq::empty(), href: Seq::empty(), children: Seq::empty() }
}

struct Tree {
    open: Vec<TocEntry>,
    done: Vec<TocEntry>,
}

impl Tree {
    spec fn says(self) -> Growth {
        Growth { open: tocs(self.open@), done: tocs(self.done@) }
    }

    fn start(&mut self)
        ensures
            final(self).says() == (Growth {
                open: old(self).says().open.push(blank_entry()),
                ..old(self).says()
            }),
    {
        let e = TocEntry::new(String::new(), String::new());
        proof {
            lemma_tocs_push(self.open@, e);
            assert(toc(e) =~= blank_entry());
        }
        self.open.push(e);
    }

    fn close(&mut self)
        ensures
            final(self).says() == closed(old(self).says()),
    {
        let ghost before = self.says();
        proof {
            lemma_tocs(self.open@);
        }
        if self.open.len() == 0 {
            return;
        }
        let ghost open0 = self.open@;
        let e = self.open.pop().unwrap();
        assert(self.open@ =~= open0.drop_last());
        if self.open.len() == 0 {
            proof {
                lemma_tocs_push(self.done@, e);
            }
            self.done.push(e);
            assert(self.says().open =~= Seq::<Toc>::empty());
            assert(before.open[0] == toc(e));
        } else {
            let ghost open1 = self.open@;
            let mut parent = self.open.pop().unwrap();
            assert(self.open@ =~= open1.drop_last());
            proof {
                lemma_tocs_push(parent.children@, e);
            }
            let ghost pv = toc(parent);
            parent.children.push(e);
            proof {
                lemma_tocs_push(self.open@, parent);
                lemma_tocs_take(open0, open0.len() - 2);
                assert(open0.take(open0.len() - 2) =~= self.open@);
            }
            self.open.push(parent);
        }
    }

    fn title(&mut self, title: String)
        ensures
            final(self).says() == retitled(old(self).says(), title@),
    {
        proof {
            lemma_tocs(self.open@);
        }
        let n = self.open.len();
        if n > 0 && chars_of(&self.open[n - 1].title).len() == 0 {
            let ghost open0 = self.open@;
            let mut e = self.open.pop().unwrap();
            assert(self.open@ =~= open0.drop_last());
            let ghost ev = toc(e);
            e.title = title;
            assert(toc(e) =~= Toc { title: title@, ..ev });
            proof {
                lemma_tocs_push(self.open@, e);
            }
            self.open.push(e);
        }
    }

    fn target(&mut self, href: String)
        ensures
            final(self).says() == targeted(old(self).says(), href@),
    {
        proof {
            lemma_tocs(self.open@);
        }
        let n = self.open.len();
        if n > 0 && chars_of(&self.open[n - 1].href).len() == 0 {
            let ghost open0 = self.open@;
            let mut e = self.open.pop().unwrap();
            assert(self.open@ =~= open0.drop_last());
            let ghost ev = toc(e);
            e.href = href;
            assert(toc(e) =~= Toc { href: href@, ..ev });
            proof {
                lemma_tocs_push(self.open@, e);
            }
            self.open.push(e);
        }
    }
}

// ---------------------------------------------------------------- labels

/// A label as it stands in markup: entities read, markup space at its ends
/// dropped. Other white space stays, since a label's indentation can be all that
/// is left of its level.
pub open spec fn label_read(s: Seq<char>) -> Seq<char> {
    nav_doc::spec_trim_markup(markup::spec_unescape(s))
}

/// The label that is the text behind the token `i`.
pub open spec fn label_behind(t: Seq<char>, v: Seq<Token>, i: int) -> Seq<char> {
    if i + 1 < v.len() {
        match v[i + 1] {
            Token::Text { start, end } => label_read(t.subrange(start, end)),
            _ => Seq::empty(),
        }
    } else {
        Seq::empty()
    }
}

fn label_behind_of(t: &[char], v: &Vec<Tok>, i: usize) -> (r: String)
    requires
        i < v@.len(),
        markup::toks(v@) == markup::spec_tokens(t@),
    ensures
        r@ == label_behind(t@, markup::toks(v@), i as int),
{
    proof {
        markup::tokens_tile_the_text(t@);
        markup::lemma_tiles_bound(markup::spec_tokens(t@), 0, t@.len() as int);
    }
    if v.len() - i > 1 {
        assert(markup::toks(v@)[i + 1] == v@[i + 1]@);
        match &v[i + 1] {
            Tok::Text { start, end } => trim_markup_space(
                &unescape(&string_of(&t[*start..*end])),
            ),
            Tok::Tag { .. } => String::new(),
        }
    } else {
        String::new()
    }
}

// ---------------------------------------------------------------- the NCX

/// The state of reading an NCX once the first `n` tokens are met: a `navPoint`
/// opens an entry, its first `text` is the title and its first `content` the
/// target.
pub open spec fn ncx_met(t: Seq<char>, v: Seq<Token>, n: int) -> Growth
    decreases n,
{
    if n <= 0 {
        Growth { open: Seq::empty(), done: Seq::empty() }
    } else {
        let g = ncx_met(t, v, n - 1);
        match v[n - 1] {
            Token::Tag { start, end, name, closing, .. } => {
                let x = opf::spec_local(name);
                if x == "navpoint"@ {
                    if closing {
                        closed(g)
                    } else {
                        Growth { open: g.open.push(blank_entry()), ..g }
                    }
                } else if x == "text"@ && !closing {
                    retitled(g, label_behind(t, v, n - 1))
                } else if x == "content"@ && !closing {
                    targeted(g, opf::or_empty(opf::spec_attr(t.subrange(start, end), "src"@)))
                } else {
                    g
                }
            },
            _ => g,
        }
    }
}

/// The entries that an NCX lists.
pub open spec fn spec_parse_ncx(t: Seq<char>) -> Seq<Toc> {
    let v = markup::spec_tokens(t);
    ncx_met(t, v, v.len() as int).done
}

/// The entries that an NCX lists.
pub fn parse_ncx(text: &str) -> (r: Vec<TocEntry>)
    ensures
        tocs(r@) == spec_parse_ncx(text@),
{
    let t = chars_of(text);
    let v = tokens_of(&t);
    proof {
        markup::tokens_tile_the_text(t@);
        markup::lemma_tiles_bound(markup::spec_tokens(t@), 0, t@.len() as int);
    }
    let ghost ks = markup::spec_tokens(t@);
    let mut g = Tree { open: Vec::new(), done: Vec::new() };
    assert(g.says() =~= ncx_met(t@, ks, 0));
    let mut i: usize = 0;
    while i < v.len()
        invariant
            i <= v@.len(),
            ks == markup::spec_tokens(t@),
            markup::toks(v@) == ks,
            forall|k: int|
                0 <= k < ks.len() ==> 0 <= (#[trigger] ks[k]).start() && ks[k].end() <= t@.len()
                    && ks[k].start() < ks[k].end(),
            g.says() == ncx_met(t@, ks, i as int),
        decreases v@.len() - i,
    {
        assert(ks[i as int] == v@[i as int]@);
        if let Tok::Tag { start, end, name, closing, .. } = &v[i] {
            let x = local(name);
            if str_is(&x, "navpoint") {
                if *closing {
                    g.close();
                } else {
                    g.start();
                }
            } else if str_is(&x, "text") && !*closing {
                g.title(label_behind_of(&t, &v, i));
            } else if str_is(&x, "content") && !*closing {
                let a = attributes(&string_of(&t[*start..*end]));
                g.target(or_empty_of(named(&a, "src")));
            }
        }
        i = i + 1;
    }
    g.done
}

// ---------------------------------------------------------------- the navigation document

/// `s` without its tags.
pub open spec fn stripped_from(s: Seq<char>, i: int) -> Seq<char>
    decreases s.len() - i,
{
    if i < 0 || i >= s.len() {
        Seq::empty()
    } else if s[i] == '<' {
        match text::spec_find_char(s, '>', i) {
            Some(k) if i <= k < s.len() => stripped_from(s, k + 1),
            _ => Seq::empty(),
        }
    } else {
        seq![s[i]] + stripped_from(s, i + 1)
    }
}

/// `s` without its tags.
pub open spec fn spec_strip_tags(s: Seq<char>) -> Seq<char> {
    stripped_from(s, 0)
}

/// `s` without its tags.
pub fn strip_tags(s: &[char]) -> (r: Vec<char>)
    ensures
        r@ == spec_strip_tags(s@),
{
    let n = s.len();
    let mut out: Vec<char> = Vec::new();
    let mut i: usize = 0;
    while i < n
        invariant
            n == s@.len(),
            i <= n,
            out@ + stripped_from(s@, i as int) == spec_strip_tags(s@),
        decreases n - i,
    {
        if s[i] == '<' {
            match find_char(s, '>', i) {
                Some(k) => {
                    i = k + 1;
                },
                None => {
                    assert(out@ =~= spec_strip_tags(s@));
                    return out;
                },
            }
        } else {
            let ghost before = out@;
            out.push(s[i]);
            assert(before + (seq![s@[i as int]] + stripped_from(s@, i + 1)) =~= out@
                + stripped_from(s@, i + 1));
            i = i + 1;
        }
    }
    assert(out@ =~= spec_strip_tags(s@));
    out
}

/// The label of a link whose start tag ends at `from`: its text up to its end
/// tag, tags taken out.
pub open spec fn link_text(t: Seq<char>, from: int) -> Seq<char> {
    match text::spec_find(t, "</a>"@, from) {
        Some(k) => label_read(spec_strip_tags(t.subrange(from, k))),
        None => Seq::empty(),
    }
}

fn link_text_of(t: &[char], from: usize) -> (r: String)
    requires
        from <= t@.len(),
    ensures
        r@ == link_text(t@, from as int),
{
    match find_str(t, "</a>", from) {
        Some(k) => trim_markup_space(&unescape(&string_of(&strip_tags(&t[from..k])))),
        None => String::new(),
    }
}

/// A `nav` start tag whose type holds `kind`.
pub open spec fn nav_of_kind(tag: Seq<char>, kind: Seq<char>) -> bool {
    ||| (markup::spec_attr_value(tag, "epub:type"@) matches Some(v) && text::spec_words(v).contains(
        kind,
    ))
    ||| (markup::spec_attr_value(tag, "type"@) matches Some(v) && text::spec_words(v).contains(kind))
}

/// Whether a `nav` start tag's type holds `kind`.
pub fn nav_kind(tag: &str, kind: &str) -> (r: bool)
    ensures
        r == nav_of_kind(tag@, kind@),
{
    let k = chars_of(kind);
    if let Some(v) = attr_value(tag, "epub:type") {
        if list_has(&words(&chars_of(&v)), &k) {
            return true;
        }
    }
    if let Some(v) = attr_value(tag, "type") {
        if list_has(&words(&chars_of(&v)), &k) {
            return true;
        }
    }
    false
}

/// The state of reading a navigation document once the first `n` tokens are
/// met: inside the `nav` for the table of contents a list item opens an entry,
/// and its first link is title and target. The bool says whether that `nav` is
/// open.
pub open spec fn nav_met(t: Seq<char>, v: Seq<Token>, n: int) -> (Growth, bool)
    decreases n,
{
    if n <= 0 {
        (Growth { open: Seq::empty(), done: Seq::empty() }, false)
    } else {
        let (g, inside) = nav_met(t, v, n - 1);
        match v[n - 1] {
            Token::Tag { start, end, name, closing, .. } => {
                let tag = t.subrange(start, end);
                if name == "nav"@ {
                    (g, !closing && nav_of_kind(tag, "toc"@))
                } else if !inside {
                    (g, inside)
                } else if name == "li"@ {
                    if closing {
                        (closed(g), inside)
                    } else {
                        (Growth { open: g.open.push(blank_entry()), ..g }, inside)
                    }
                } else if name == "a"@ && !closing {
                    (
                        targeted(
                            retitled(g, link_text(t, end)),
                            opf::or_empty(opf::spec_attr(tag, "href"@)),
                        ),
                        inside,
                    )
                } else if name == "span"@ && !closing {
                    (retitled(g, label_behind(t, v, n - 1)), inside)
                } else {
                    (g, inside)
                }
            },
            _ => (g, inside),
        }
    }
}

/// The entries that a navigation document lists.
pub open spec fn spec_parse_nav_toc(t: Seq<char>) -> Seq<Toc> {
    let v = markup::spec_tokens(t);
    nav_met(t, v, v.len() as int).0.done
}

/// The entries that a navigation document lists.
pub fn parse_nav_toc(text: &str) -> (r: Vec<TocEntry>)
    ensures
        tocs(r@) == spec_parse_nav_toc(text@),
{
    let t = chars_of(text);
    let v = tokens_of(&t);
    proof {
        markup::tokens_tile_the_text(t@);
        markup::lemma_tiles_bound(markup::spec_tokens(t@), 0, t@.len() as int);
    }
    let ghost ks = markup::spec_tokens(t@);
    let mut g = Tree { open: Vec::new(), done: Vec::new() };
    let mut inside = false;
    assert(g.says() =~= nav_met(t@, ks, 0).0);
    let mut i: usize = 0;
    while i < v.len()
        invariant
            i <= v@.len(),
            ks == markup::spec_tokens(t@),
            markup::toks(v@) == ks,
            forall|k: int|
                0 <= k < ks.len() ==> 0 <= (#[trigger] ks[k]).start() && ks[k].end() <= t@.len()
                    && ks[k].start() < ks[k].end(),
            (g.says(), inside) == nav_met(t@, ks, i as int),
        decreases v@.len() - i,
    {
        assert(ks[i as int] == v@[i as int]@);
        if let Tok::Tag { start, end, name, closing, .. } = &v[i] {
            let tag = string_of(&t[*start..*end]);
            if str_is(name, "nav") {
                inside = !*closing && nav_kind(&tag, "toc");
            } else if !inside {
            } else if str_is(name, "li") {
                if *closing {
                    g.close();
                } else {
                    g.start();
                }
            } else if str_is(name, "a") && !*closing {
                g.title(link_text_of(&t, *end));
                g.target(or_empty_of(named(&attributes(&tag), "href")));
            } else if str_is(name, "span") && !*closing {
                g.title(label_behind_of(&t, &v, i));
            }
        }
        i = i + 1;
    }
    g.done
}

// ---------------------------------------------------------------- landmarks

/// What a landmark marks.
#[derive(Clone, Copy, PartialEq, Eq, Structural, Debug)]
pub enum LandmarkType {
    Cover,
    TitlePage,
    Toc,
    StartReading,
    BodyMatter,
    FrontMatter,
    BackMatter,
    Acknowledgements,
    Bibliography,
    Glossary,
    Index,
    Preface,
    Endnotes,
    Loi,
    Lot,
}

/// A place that the book marks.
#[derive(Debug)]
pub struct Landmark {
    pub landmark_type: LandmarkType,
    pub href: String,
    pub label: String,
}

/// What a `Landmark` says.
#[verifier::ext_equal]
pub struct Mark {
    pub landmark_type: LandmarkType,
    pub href: Seq<char>,
    pub label: Seq<char>,
}

impl View for Landmark {
    type V = Mark;

    open spec fn view(&self) -> Mark {
        Mark { landmark_type: self.landmark_type, href: self.href@, label: self.label@ }
    }
}

pub open spec fn marks(v: Seq<Landmark>) -> Seq<Mark> {
    v.map_values(|l: Landmark| l@)
}

pub proof fn lemma_marks_push(v: Seq<Landmark>, x: Landmark)
    ensures
        marks(v.push(x)) == marks(v).push(x@),
{
    assert(marks(v.push(x)) =~= marks(v).push(x@));
}

/// The words for a landmark without a label of its own.
pub open spec fn spec_default_label(t: LandmarkType) -> Seq<char> {
    match t {
        LandmarkType::Cover => "Cover"@,
        LandmarkType::TitlePage => "Title Page"@,
        LandmarkType::Toc => "Table of Contents"@,
        LandmarkType::StartReading => "Start Reading"@,
        LandmarkType::BodyMatter => "Body Matter"@,
        LandmarkType::FrontMatter => "Front Matter"@,
        LandmarkType::BackMatter => "Back Matter"@,
        LandmarkType::Acknowledgements => "Acknowledgements"@,
        LandmarkType::Bibliography => "Bibliography"@,
        LandmarkType::Glossary => "Glossary"@,
        LandmarkType::Index => "Index"@,
        LandmarkType::Preface => "Preface"@,
        LandmarkType::Endnotes => "Endnotes"@,
        LandmarkType::Loi => "List of Illustrations"@,
        LandmarkType::Lot => "List of Tables"@,
    }
}

impl LandmarkType {
    /// The words for a landmark without a label of its own.
    pub fn default_label(self) -> (r: &'static str)
        ensures
            r@ == spec_default_label(self),
    {
        match self {
            LandmarkType::Cover => "Cover",
            LandmarkType::TitlePage => "Title Page",
            LandmarkType::Toc => "Table of Contents",
            LandmarkType::StartReading => "Start Reading",
            LandmarkType::BodyMatter => "Body Matter",
            LandmarkType::FrontMatter => "Front Matter",
            LandmarkType::BackMatter => "Back Matter",
            LandmarkType::Acknowledgements => "Acknowledgements",
            LandmarkType::Bibliography => "Bibliography",
            LandmarkType::Glossary => "Glossary",
            LandmarkType::Index => "Index",
            LandmarkType::Preface => "Preface",
            LandmarkType::Endnotes => "Endnotes",
            LandmarkType::Loi => "List of Illustrations",
            LandmarkType::Lot => "List of Tables",
        }
    }
}

/// The landmark that a type names, in a navigation document or in a guide.
pub open spec fn landmark_named(s: Seq<char>) -> Option<LandmarkType> {
    if s == "cover"@ {
        Some(LandmarkType::Cover)
    } else if s == "titlepage"@ || s == "title-page"@ {
        Some(LandmarkType::TitlePage)
    } else if s == "toc"@ {
        Some(LandmarkType::Toc)
    } else if s == "text"@ || s == "start"@ {
        Some(LandmarkType::StartReading)
    } else if s == "bodymatter"@ {
        Some(LandmarkType::BodyMatter)
    } else if s == "frontmatter"@ {
        Some(LandmarkType::FrontMatter)
    } else if s == "backmatter"@ {
        Some(LandmarkType::BackMatter)
    } else if s == "acknowledgments"@ || s == "acknowledgements"@ {
        Some(LandmarkType::Acknowledgements)
    } else if s == "bibliography"@ {
        Some(LandmarkType::Bibliography)
    } else if s == "glossary"@ {
        Some(LandmarkType::Glossary)
    } else if s == "index"@ {
        Some(LandmarkType::Index)
    } else if s == "preface"@ {
        Some(LandmarkType::Preface)
    } else if s == "endnotes"@ || s == "notes"@ {
        Some(LandmarkType::Endnotes)
    } else if s == "loi"@ {
        Some(LandmarkType::Loi)
    } else if s == "lot"@ {
        Some(LandmarkType::Lot)
    } else {
        None
    }
}

fn landmark_of(s: &str) -> (r: Option<LandmarkType>)
    ensures
        r == landmark_named(s@),
{
    if str_is(s, "cover") {
        Some(LandmarkType::Cover)
    } else if str_is(s, "titlepage") || str_is(s, "title-page") {
        Some(LandmarkType::TitlePage)
    } else if str_is(s, "toc") {
        Some(LandmarkType::Toc)
    } else if str_is(s, "text") || str_is(s, "start") {
        Some(LandmarkType::StartReading)
    } else if str_is(s, "bodymatter") {
        Some(LandmarkType::BodyMatter)
    } else if str_is(s, "frontmatter") {
        Some(LandmarkType::FrontMatter)
    } else if str_is(s, "backmatter") {
        Some(LandmarkType::BackMatter)
    } else if str_is(s, "acknowledgments") || str_is(s, "acknowledgements") {
        Some(LandmarkType::Acknowledgements)
    } else if str_is(s, "bibliography") {
        Some(LandmarkType::Bibliography)
    } else if str_is(s, "glossary") {
        Some(LandmarkType::Glossary)
    } else if str_is(s, "index") {
        Some(LandmarkType::Index)
    } else if str_is(s, "preface") {
        Some(LandmarkType::Preface)
    } else if str_is(s, "endnotes") || str_is(s, "notes") {
        Some(LandmarkType::Endnotes)
    } else if str_is(s, "loi") {
        Some(LandmarkType::Loi)
    } else if str_is(s, "lot") {
        Some(LandmarkType::Lot)
    } else {
        None
    }
}

/// The landmarks that a navigation document's first `n` tokens list, and whether
/// its `nav` for them is open.
pub open spec fn landmarks_met(t: Seq<char>, v: Seq<Token>, n: int) -> (Seq<Mark>, bool)
    decreases n,
{
    if n <= 0 {
        (Seq::empty(), false)
    } else {
        let (m, inside) = landmarks_met(t, v, n - 1);
        match v[n - 1] {
            Token::Tag { start, end, name, closing, .. } => {
                let tag = t.subrange(start, end);
                if name == "nav"@ {
                    (m, !closing && nav_of_kind(tag, "landmarks"@))
                } else if inside && name == "a"@ && !closing {
                    match (
                        landmark_named(opf::or_empty(opf::spec_attr(tag, "epub:type"@))),
                        opf::spec_attr(tag, "href"@),
                    ) {
                        (Some(k), Some(href)) => (
                            m.push(Mark { landmark_type: k, href, label: link_text(t, end) }),
                            inside,
                        ),
                        _ => (m, inside),
                    }
                } else {
                    (m, inside)
                }
            },
            _ => (m, inside),
        }
    }
}

/// The landmarks that a navigation document lists.
pub open spec fn spec_parse_nav_landmarks(t: Seq<char>) -> Seq<Mark> {
    let v = markup::spec_tokens(t);
    landmarks_met(t, v, v.len() as int).0
}

/// The landmarks that a navigation document lists.
pub fn parse_nav_landmarks(text: &str) -> (r: Vec<Landmark>)
    ensures
        marks(r@) == spec_parse_nav_landmarks(text@),
{
    let t = chars_of(text);
    let v = tokens_of(&t);
    proof {
        markup::tokens_tile_the_text(t@);
        markup::lemma_tiles_bound(markup::spec_tokens(t@), 0, t@.len() as int);
    }
    let ghost ks = markup::spec_tokens(t@);
    let mut out: Vec<Landmark> = Vec::new();
    let mut inside = false;
    assert(marks(out@) =~= Seq::<Mark>::empty());
    let mut i: usize = 0;
    while i < v.len()
        invariant
            i <= v@.len(),
            ks == markup::spec_tokens(t@),
            markup::toks(v@) == ks,
            forall|k: int|
                0 <= k < ks.len() ==> 0 <= (#[trigger] ks[k]).start() && ks[k].end() <= t@.len()
                    && ks[k].start() < ks[k].end(),
            (marks(out@), inside) == landmarks_met(t@, ks, i as int),
        decreases v@.len() - i,
    {
        assert(ks[i as int] == v@[i as int]@);
        if let Tok::Tag { start, end, name, closing, .. } = &v[i] {
            let tag = string_of(&t[*start..*end]);
            if str_is(name, "nav") {
                inside = !*closing && nav_kind(&tag, "landmarks");
            } else if inside && str_is(name, "a") && !*closing {
                let a = attributes(&tag);
                let kind = or_empty_of(named(&a, "epub:type"));
                if let (Some(k), Some(href)) = (landmark_of(&kind), named(&a, "href")) {
                    let l = Landmark { landmark_type: k, href, label: link_text_of(&t, *end) };
                    proof {
                        lemma_marks_push(out@, l);
                    }
                    out.push(l);
                }
            }
        }
        i = i + 1;
    }
    out
}

/// The landmarks that the first `n` tokens of a package document's guide list.
pub open spec fn guide_met(t: Seq<char>, v: Seq<Token>, n: int) -> Seq<Mark>
    decreases n,
{
    if n <= 0 {
        Seq::empty()
    } else {
        let m = guide_met(t, v, n - 1);
        match v[n - 1] {
            Token::Tag { start, end, name, closing, .. } => {
                let tag = t.subrange(start, end);
                if opf::spec_local(name) == "reference"@ && !closing {
                    match (
                        landmark_named(
                            text::spec_lower(opf::or_empty(opf::spec_attr(tag, "type"@))),
                        ),
                        opf::spec_attr(tag, "href"@),
                    ) {
                        (Some(k), Some(href)) => m.push(
                            Mark {
                                landmark_type: k,
                                href,
                                label: opf::or_empty(opf::spec_attr(tag, "title"@)),
                            },
                        ),
                        _ => m,
                    }
                } else {
                    m
                }
            },
            _ => m,
        }
    }
}

/// The landmarks that a package document's guide lists.
pub open spec fn spec_parse_opf_guide(t: Seq<char>) -> Seq<Mark> {
    let v = markup::spec_tokens(t);
    guide_met(t, v, v.len() as int)
}

/// The landmarks that a package document's guide lists.
pub fn parse_opf_guide(text: &str) -> (r: Vec<Landmark>)
    ensures
        marks(r@) == spec_parse_opf_guide(text@),
{
    let t = chars_of(text);
    let v = tokens_of(&t);
    proof {
        markup::tokens_tile_the_text(t@);
        markup::lemma_tiles_bound(markup::spec_tokens(t@), 0, t@.len() as int);
    }
    let ghost ks = markup::spec_tokens(t@);
    let mut out: Vec<Landmark> = Vec::new();
    assert(marks(out@) =~= Seq::<Mark>::empty());
    let mut i: usize = 0;
    while i < v.len()
        invariant
            i <= v@.len(),
            ks == markup::spec_tokens(t@),
            markup::toks(v@) == ks,
            forall|k: int|
                0 <= k < ks.len() ==> 0 <= (#[trigger] ks[k]).start() && ks[k].end() <= t@.len()
                    && ks[k].start() < ks[k].end(),
            marks(out@) == guide_met(t@, ks, i as int),
        decreases v@.len() - i,
    {
        assert(ks[i as int] == v@[i as int]@);
        if let Tok::Tag { start, end, name, closing, .. } = &v[i] {
            if str_is(&local(name), "reference") && !*closing {
                let a = attributes(&string_of(&t[*start..*end]));
                let kind = string_of(&lowered(&chars_of(&or_empty_of(named(&a, "type")))));
                if let (Some(k), Some(href)) = (landmark_of(&kind), named(&a, "href")) {
                    let l = Landmark {
                        landmark_type: k,
                        href,
                        label: or_empty_of(named(&a, "title")),
                    };
                    proof {
                        lemma_marks_push(out@, l);
                    }
                    out.push(l);
                }
            }
        }
        i = i + 1;
    }
    out
}

} // verus!
