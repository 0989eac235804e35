//! An item that is added to a manifest is read from it.
use vstd::prelude::*;

use crate::archive::Part;
use crate::error::Fault;
use crate::opf::{Opf, OpfItem};
use crate::package::Found;
use crate::spine_read::starts_tag;
use crate::tidy::{behind, from, is_tidy, local, piece, read, tail};
use crate::{
    codec, edit, escaping, fresh, manifest, markup, opf, package, plain_opf, reading, spine_read, structure,
    text, tidy,
};

verus! {

// ---------------------------------------------------------------- the tag

/// An item's tag, as it is written into a manifest.
spec fn tag_of(href: Seq<char>, id: Seq<char>, media_type: Seq<char>) -> Seq<char> {
    manifest::item_tag(href, id, media_type).drop_last()
}

/// What an item that is added says.
pub open spec fn new_item(href: Seq<char>, id: Seq<char>, media_type: Seq<char>) -> OpfItem {
    OpfItem { id, href, media_type, properties: Seq::empty() }
}

proof fn lemma_tag_inner(href: Seq<char>, id: Seq<char>, media_type: Seq<char>)
    ensures
        ({
            let c = tag_of(href, id, media_type);
            &&& manifest::item_tag(href, id, media_type) == c.push('\n')
            &&& c.len() > 20
            &&& c.subrange(0, 6) =~= "<item "@
            &&& c[c.len() - 1] == '>'
            &&& c[c.len() - 2] == '/'
            &&& forall|k: int| 0 < k < c.len() - 1 ==> (#[trigger] c[k]) != '<' && c[k] != '>'
        }),
{
    reveal_strlit("<item href=\"");
    reveal_strlit("\" id=\"");
    reveal_strlit("\" media-type=\"");
    reveal_strlit("\"/>\n");
    reveal_strlit("<item ");
    let a = markup::spec_escape_attr(href);
    let b = markup::spec_escape_attr(id);
    let m = markup::spec_escape_attr(media_type);
    escaping::escaping_leaves_no_markup(href);
    escaping::escaping_leaves_no_markup(id);
    escaping::escaping_leaves_no_markup(media_type);
    let whole = manifest::item_tag(href, id, media_type);
    let c = tag_of(href, id, media_type);
    assert(whole =~= c.push('\n'));
    let x = 12int + a.len();
    let y = x + 6 + b.len();
    let z = y + 14 + m.len();
    assert("<item href=\""@.len() == 12);
    assert("\" id=\""@.len() == 6);
    assert("\" media-type=\""@.len() == 14);
    assert(whole.len() == z + 4);
    assert forall|k: int| 0 < k < c.len() - 1 implies (#[trigger] c[k]) != '<' && c[k] != '>' by {
        assert(c[k] == whole[k]);
        if k < 12 {
            assert(whole[k] == "<item href=\""@[k]);
        } else if k < x {
            assert(whole[k] == a[k - 12]);
            assert(a.contains(a[k - 12]));
        } else if k < x + 6 {
            assert(whole[k] == "\" id=\""@[k - x]);
        } else if k < y {
            assert(whole[k] == b[k - x - 6]);
            assert(b.contains(b[k - x - 6]));
        } else if k < y + 14 {
            assert(whole[k] == "\" media-type=\""@[k - y]);
        } else if k < z {
            assert(whole[k] == m[k - y - 14]);
            assert(m.contains(m[k - y - 14]));
        } else {
            assert(whole[k] == "\"/>\n"@[k - z]);
        }
    }
    assert(c[c.len() - 1] == "\"/>\n"@[2]);
    assert(c[c.len() - 2] == "\"/>\n"@[1]);
}

/// The tag is closed behind its attributes.
#[verifier::rlimit(60)]
proof fn lemma_tag_close(href: Seq<char>, id: Seq<char>, media_type: Seq<char>)
    ensures
        ({
            let c = tag_of(href, id, media_type);
            markup::tag_close(c, 5, None) == Some(c.len() - 1)
        }),
{
    let c = tag_of(href, id, media_type);
    let v = manifest::item_attrs(href, id, media_type);
    manifest::lemma_item_text(href, id, media_type);
    manifest::lemma_item_attrs(href, id, media_type);
    manifest::lemma_three_texts(v[0], v[1], v[2]);
    reveal_strlit("item");
    let x = reading::attr_text(v[0].0, v[0].1);
    let y = reading::attr_text(v[1].0, v[1].1);
    let z = reading::attr_text(v[2].0, v[2].1);
    assert(v =~= seq![v[0], v[1], v[2]]);
    assert(c =~= seq!['<'] + "item"@ + (x + y + z) + seq!['/', '>']);
    let i = 5int;
    let j = i + x.len();
    let k = j + y.len();
    let e = k + z.len();
    assert(c.subrange(i, j) =~= x);
    assert(c.subrange(j, k) =~= y);
    assert(c.subrange(k, e) =~= z);
    reading::lemma_close_attr(c, i, v[0].0, v[0].1);
    reading::lemma_close_attr(c, j, v[1].0, v[1].1);
    reading::lemma_close_attr(c, k, v[2].0, v[2].1);
    assert(c[e] == '/' && c[e + 1] == '>');
    assert(c.len() == e + 2);
    reveal_with_fuel(markup::tag_close, 3);
}

/// An item's tag is a piece.
proof fn lemma_item_piece(href: Seq<char>, id: Seq<char>, media_type: Seq<char>)
    ensures
        ({
            let c = tag_of(href, id, media_type);
            &&& tidy::is_piece(c)
            &&& tidy::is_start(c)
            &&& local(c) == "item"@
            &&& starts_tag(c)
        }),
{
    let c = tag_of(href, id, media_type);
    lemma_tag_inner(href, id, media_type);
    lemma_tag_close(href, id, media_type);
    reveal(tidy::is_piece);
    reveal_strlit("<item ");
    reveal_strlit("item");
    let h = c.subrange(0, 6);
    assert(h[0] == '<' && h[1] == 'i' && h[2] == 't' && h[3] == 'e' && h[4] == 'm' && h[5] == ' ');
    assert(c[0] == h[0] && c[1] == h[1] && c[2] == h[2] && c[3] == h[3] && c[4] == h[4] && c[5]
        == h[5]);
    reading::lemma_name_end_is(c, 1, 5);
    let n = c.subrange(1, 5);
    assert(text::spec_lower(n) =~= "item"@);
    reveal_with_fuel(text::spec_rfind_char, 5);
    assert(opf::spec_local("item"@) == "item"@);
}

// ---------------------------------------------------------------- reading

proof fn lemma_read_item(href: Seq<char>, id: Seq<char>, media_type: Seq<char>, p: Opf)
    ensures
        ({
            let c = tag_of(href, id, media_type);
            &&& is_tidy(c)
            &&& tidy::is_settled(c)
            &&& read(c, p) == (Opf {
                items: opf::with_item(p.items, new_item(href, id, media_type), 0),
                ..p
            })
        }),
{
    let c = tag_of(href, id, media_type);
    lemma_item_piece(href, id, media_type);
    plain_opf::lemma_one_piece(c, Seq::empty());
    tidy::lemma_ends(c);
    let none = tail(c);
    tidy::lemma_names_differ();
    manifest::a_written_item_is_read_back(href, id, media_type);
    let q = opf::tag_met(p, tidy::piece_name(c), c, behind(none));
    assert(read(none, q) == q);
    reveal(tidy::is_field);
    assert(tidy::is_settled(none));
    reveal_strlit("package");
    reveal_strlit("item");
    assert("package"@.len() != "item"@.len());
}

/// White space is read as nothing.
proof fn lemma_read_white(w: Seq<char>, y: Seq<char>, p: Opf)
    requires
        text::all_white(w),
    ensures
        read(w + y, p) == read(y, p),
        is_tidy(w),
    decreases w.len(),
{
    assert(!w.contains('<')) by {
        if w.contains('<') {
            let k = choose|k: int| 0 <= k < w.len() && w[k] == '<';
            assert(text::is_white(w[k]));
        }
    }
    tidy::lemma_plain(w);
    if w.len() > 0 {
        assert(text::is_white(w[0]));
        let r = w.subrange(1, w.len() as int);
        assert(tail(w + y) =~= r + y);
        assert forall|k: int| 0 <= k < r.len() implies text::is_white(#[trigger] r[k]) by {
            assert(r[k] == w[k + 1]);
        }
        lemma_read_white(r, y, p);
    } else {
        assert(w + y =~= y);
    }
}

/// An item stands in `s`.
pub open spec fn has_item(s: Seq<char>) -> bool
    decreases s.len(),
    via has_item_shrinks
{
    s.len() > 0 && ((s[0] == '<' && tidy::is_start(s) && local(piece(s)) == "item"@) || has_item(
        tail(s),
    ))
}

#[via_fn]
proof fn has_item_shrinks(s: Seq<char>) {
    if s.len() > 0 {
        tidy::lemma_tail(s);
    }
}

proof fn lemma_one_apart(p: Opf, z: Seq<OpfItem>, name: Seq<char>, c: Seq<char>, b: Seq<char>)
    requires
        opf::spec_local(name) != "item"@,
    ensures
        opf::tag_met(Opf { items: z, ..p }, name, c, b) == (Opf {
            items: z,
            ..opf::tag_met(p, name, c, b)
        }),
        opf::tag_met(p, name, c, b).items == p.items,
{
}

/// The items that were read before have no part in what is read of a text
/// without items.
proof fn lemma_items_apart(s: Seq<char>, p: Opf, z: Seq<OpfItem>)
    requires
        is_tidy(s),
        !has_item(s),
    ensures
        read(s, Opf { items: z, ..p }) == (Opf { items: z, ..read(s, p) }),
        read(s, p).items == p.items,
    decreases s.len(),
{
    if s.len() > 0 {
        tidy::lemma_tail(s);
        tidy::lemma_tidy_tail(s);
        let r = tail(s);
        if s[0] == '<' && tidy::is_start(s) {
            let c = piece(s);
            let name = tidy::piece_name(c);
            lemma_one_apart(p, z, name, c, behind(r));
            lemma_items_apart(r, opf::tag_met(p, name, c, behind(r)), z);
        } else {
            lemma_items_apart(r, p, z);
        }
    }
}

// ---------------------------------------------------------------- the manifest

pub proof fn lemma_line_start(t: Seq<char>, i: int)
    requires
        0 <= i <= t.len(),
    ensures
        0 <= manifest::line_start(t, i) <= i,
    decreases i,
{
    if i > 0 && t[i - 1] != '\n' {
        lemma_line_start(t, i - 1);
    }
}

/// Where a new item goes, and what indents it.
proof fn lemma_place(t: Seq<char>, close: int)
    requires
        text::spec_find(t, "</manifest>"@, 0) == Some(close),
    ensures
        0 <= manifest::item_place(t, close) <= close < t.len(),
        text::all_white(manifest::item_indent(t, close)),
{
    reveal_strlit("</manifest>");
    reveal_strlit("  ");
    text::lemma_find(t, "</manifest>"@, 0);
    lemma_line_start(t, close);
}

pub proof fn lemma_new_id(items: Seq<OpfItem>, item: OpfItem, i: int)
    requires
        0 <= i <= items.len(),
        forall|k: int| 0 <= k < items.len() ==> (#[trigger] items[k]).id != item.id,
    ensures
        opf::with_item(items, item, i) == items.push(item),
    decreases items.len() - i,
{
    if i < items.len() {
        assert(items[i].id != item.id);
        lemma_new_id(items, item, i + 1);
    }
}

/// An item that is added to a manifest is read from the whole package document:
/// the manifest has it, behind the others where its id is new, and all else is
/// as before. The markup is closed, the item goes into no comment and no open
/// field, and no item stands behind the manifest.
pub proof fn an_added_item_is_read_back(
    t: Seq<char>,
    href: Seq<char>,
    id: Seq<char>,
    media_type: Seq<char>,
)
    requires
        is_tidy(t),
        text::spec_find(t, "</manifest>"@, 0) matches Some(close) && tidy::is_cut(
            t,
            manifest::item_place(t, close),
        ) && tidy::is_settled(t.subrange(0, manifest::item_place(t, close))) && !has_item(from(t, manifest::item_place(t, close))),
    ensures
        manifest::spec_insert_item(t, href, id, media_type) matches Ok(new) && opf::opf_of(new) == (Opf {
            items: opf::with_item(opf::opf_of(t).items, new_item(href, id, media_type), 0),
            ..opf::opf_of(t)
        }),
        (forall|i: int|
            0 <= i < opf::opf_of(t).items.len() ==> (#[trigger] opf::opf_of(t).items[i]).id != id)
            ==> opf::with_item(opf::opf_of(t).items, new_item(href, id, media_type), 0)
            == opf::opf_of(t).items.push(new_item(href, id, media_type)),
{
    let close = text::spec_find(t, "</manifest>"@, 0)->0;
    lemma_place(t, close);
    let a = manifest::item_place(t, close);
    let x = t.subrange(0, a);
    let y = from(t, a);
    let w = manifest::item_indent(t, close);
    let c = tag_of(href, id, media_type);
    let nl = seq!['\n'];
    let new = manifest::spec_insert_item(t, href, id, media_type)->Ok_0;
    let p = tidy::unread();
    lemma_tag_inner(href, id, media_type);
    lemma_item_piece(href, id, media_type);
    assert(new =~= x + (w + (c + (nl + y))));
    assert(t =~= x + y);
    tidy::lemma_tidy_cut(t, a);
    let q = read(x, p);
    lemma_read_item(href, id, media_type, q);
    let q2 = read(c, q);
    lemma_read_white(nl, y, q2);
    lemma_read_white(w, c + (nl + y), q);
    tidy::lemma_tidy_join(nl, y);
    tidy::lemma_tidy_join(c, nl + y);
    tidy::lemma_tidy_join(w, c + (nl + y));
    tidy::lemma_tidy_join(x, w + (c + (nl + y)));
    spine_read::lemma_read_join(c, nl + y, q);
    spine_read::lemma_read_join(x, w + (c + (nl + y)), p);
    spine_read::lemma_read_join(x, y, p);
    lemma_items_apart(y, q, q2.items);
    tidy::lemma_opf(t);
    tidy::lemma_opf(new);
    let items = opf::opf_of(t).items;
    if forall|i: int| 0 <= i < items.len() ==> (#[trigger] items[i]).id != id {
        lemma_new_id(items, new_item(href, id, media_type), 0);
    }
}

// ---------------------------------------------------------------- the package

/// The href that a path gets in the manifest.
pub open spec fn href_for(d: Found, path: Seq<char>) -> Seq<char> {
    text::spec_replace(structure::spec_relativize(d.base(), path), " "@, "%20"@)
}

/// An item can be added to the manifest of a package document: the markup is closed,
/// the item goes into no comment and no open field, and no item stands behind the
/// manifest.
pub open spec fn takes_item(t: Seq<char>) -> bool {
    is_tidy(t) && (text::spec_find(t, "</manifest>"@, 0) matches Some(close) && tidy::is_cut(
        t,
        manifest::item_place(t, close),
    ) && tidy::is_settled(t.subrange(0, manifest::item_place(t, close))) && !has_item(
        from(t, manifest::item_place(t, close)),
    ))
}

proof fn lemma_first_for(items: Seq<OpfItem>, item: OpfItem, base: Seq<char>, path: Seq<char>, i: int)
    requires
        0 <= i <= items.len(),
        manifest::first_for(items, base, path, i) is None,
        package::spec_abs(base, item.href) == path,
    ensures
        manifest::first_for(items.push(item), base, path, i) == Some(item),
    decreases items.len() - i,
{
    if i < items.len() {
        assert(items.push(item)[i] == items[i]);
        lemma_first_for(items, item, base, path, i + 1);
    } else {
        assert(items.push(item)[i] == item);
    }
}

/// A file is registered once: it is then in the manifest, behind what was there, under
/// an id that was free; nothing else of the book is changed, and registering it again
/// gives the same id and changes nothing. The href that the path gets names it, which
/// it does for a path under the package document's directory.
pub proof fn a_file_is_registered_once(
    p: Seq<Part>,
    d: Found,
    path: Seq<char>,
    media_type: Seq<char>,
    other: Seq<char>,
)
    requires
        package::spec_package_doc(p) == Ok::<Found, Fault>(d),
        d.path != "META-INF/container.xml"@,
        manifest::first_for(d.book.items, d.base(), path, 0) is None,
        package::spec_abs(d.base(), href_for(d, path)) == path,
        takes_item(d.text),
        manifest::spec_insert_item(
            d.text,
            href_for(d, path),
            manifest::spec_unique_id(d.book.items, path),
            media_type,
        ) matches Ok(t) ==> codec::declares_utf8(vstd::utf8::encode_utf8(t)),
    ensures
        manifest::spec_add_item(p, path, media_type) matches Ok((id, q)) && package::spec_package_doc(
            q,
        ) matches Ok(e) && e.path == d.path && e.book.items == d.book.items.push(
            new_item(href_for(d, path), id, media_type),
        ) && e.book.spine == d.book.spine && !manifest::item_ids(d.book.items).contains(id)
            && manifest::spec_add_item(q, path, media_type) == Ok::<(Seq<char>, Seq<Part>), Fault>(
            (id, q),
        ) && (other != d.path ==> edit::spec_get(q, other) == edit::spec_get(p, other)),
{
    let id = manifest::spec_unique_id(d.book.items, path);
    let href = href_for(d, path);
    let ids = manifest::item_ids(d.book.items);
    an_added_item_is_read_back(d.text, href, id, media_type);
    let t = manifest::spec_insert_item(d.text, href, id, media_type)->Ok_0;
    let data = vstd::utf8::encode_utf8(t);
    fresh::a_fresh_name_is_free(ids, manifest::id_base(path), ""@, Seq::empty());
    let items = opf::opf_of(d.text).items;
    assert(items == d.book.items);
    assert forall|i: int| 0 <= i < items.len() implies (#[trigger] items[i]).id != id by {
        assert(ids[i] == items[i].id);
        assert(ids.contains(ids[i]));
    }
    codec::written_text_is_read_back(t);
    edit::replacing_is_surgical(p, d.path, data, "META-INF/container.xml"@);
    edit::replacing_is_surgical(p, d.path, data, other);
    lemma_first_for(items, new_item(href, id, media_type), d.base(), path, 0);
    let q = edit::spec_replace(p, d.path, data);
    assert(package::spec_package_doc(q) is Ok);
}

/// An id of letters, digits, `_` and `-`, all ASCII, that starts with a letter or `_`.
pub open spec fn is_id(s: Seq<char>) -> bool {
    &&& s.len() > 0
    &&& text::is_ascii_alpha(s[0]) || s[0] == '_'
    &&& forall|k: int|
        0 <= k < s.len() ==> text::is_ascii_alnum(#[trigger] s[k]) || s[k] == '_' || s[k] == '-'
}

proof fn lemma_id_base(path: Seq<char>)
    ensures
        is_id(manifest::id_base(path)),
{
    let file = structure::last_segment(path);
    let stem = match text::spec_rfind_char(file, '.', file.len() as int) {
        Some(k) => file.subrange(0, k),
        None => file,
    };
    let base = stem.map_values(|c: char| manifest::id_char(c));
    let s = manifest::id_base(path);
    assert forall|k: int| 0 <= k < s.len() implies text::is_ascii_alnum(#[trigger] s[k]) || s[k] == '_'
        || s[k] == '-' by {
        if s.len() == base.len() {
            assert(s[k] == manifest::id_char(stem[k]));
        } else if k > 0 {
            assert(s[k] == manifest::id_char(stem[k - 1]));
        }
    }
}

/// The id that a file is registered under can stand in any document: it is made of
/// ASCII letters, digits, `_` and `-`, and starts with a letter or `_`; no item has it.
pub proof fn a_new_id_is_an_id(items: Seq<OpfItem>, path: Seq<char>)
    ensures
        is_id(manifest::spec_unique_id(items, path)),
        !manifest::item_ids(items).contains(manifest::spec_unique_id(items, path)),
{
    let ids = manifest::item_ids(items);
    let base = manifest::id_base(path);
    let none = Seq::<char>::empty();
    fresh::a_fresh_name_is_free(ids, base, ""@, none);
    let s = manifest::spec_unique_id(items, path);
    let m = choose|m: int| 1 <= m && s == #[trigger] fresh::candidate(base, ""@, none, m);
    lemma_id_base(path);
    reveal_strlit("");
    if m > 1 {
        let d = text::decimal(m as nat);
        crate::creators_read_back::lemma_digits(m as nat);
        assert(s =~= base + d);
        assert forall|k: int| 0 <= k < s.len() implies text::is_ascii_alnum(#[trigger] s[k]) || s[k] == '_'
            || s[k] == '-' by {
            if k < base.len() {
                assert(s[k] == base[k]);
            } else {
                assert(s[k] == d[k - base.len()]);
            }
        }
        assert(s[0] == base[0]);
    } else {
        assert(s =~= base);
    }
}

} // verus!
