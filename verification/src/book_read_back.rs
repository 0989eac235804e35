//! A table of contents that is written into a book is the one that the book
//! declares.
use vstd::prelude::*;

use crate::archive::Part;
use crate::package::Found;
use crate::toc::Toc;
use crate::{
    codec, edit, markup, metadata_edit, nav_doc, ncx_read_back, package, structure, text, toc,
    toc_read_back, toc_repair, toc_shape,
};

verus! {

// ---------------------------------------------------------------- text that says it is UTF-8

proof fn lemma_encode_join(a: Seq<char>, b: Seq<char>)
    ensures
        vstd::utf8::encode_utf8(a + b) == vstd::utf8::encode_utf8(a) + vstd::utf8::encode_utf8(b),
    decreases a.len(),
{
    if a.len() == 0 {
        assert(a + b =~= b);
        assert(vstd::utf8::encode_utf8(a) + vstd::utf8::encode_utf8(b) =~= vstd::utf8::encode_utf8(
            b,
        ));
    } else {
        lemma_encode_join(a.drop_first(), b);
        assert((a + b).drop_first() =~= a.drop_first() + b);
        assert(vstd::utf8::encode_utf8(a + b) =~= vstd::utf8::encode_utf8(a)
            + vstd::utf8::encode_utf8(b));
    }
}

/// The declaration that new documents start with.
pub open spec fn declaration() -> Seq<char> {
    "<?xml version=\"1.0\" encoding=\"utf-8\"?>"@
}

proof fn lemma_declaration_value()
    ensures
        declaration().len() == 38,
        markup::spec_attr_value(declaration().subrange(0, 36), "encoding"@) == Some("utf-8"@),
{
    reveal_strlit("<?xml version=\"1.0\" encoding=\"utf-8\"?>");
    reveal_strlit("encoding");
    reveal_strlit("utf-8");
    let d = declaration().subrange(0, 36);
    let needle = "encoding"@.push('=');
    assert(d.subrange(20, 29) =~= needle);
    assert forall|m: int| 0 <= m < 20 implies !#[trigger] text::is_at(d, needle, m) by {
        if text::is_at(d, needle, m) {
            let s = d.subrange(m, m + 9);
            assert(s[0] == d[m] && s[1] == d[m + 1] && s[2] == d[m + 2]);
        }
    }
    metadata_edit::lemma_find_is(d, needle, 0, 20);
    text::lemma_find_char(d, '"', 30);
    assert(d[35] == '"');
    assert(text::spec_find_char(d, '"', 30) == Some(35int));
    assert(d.subrange(30, 35) =~= "utf-8"@);
}

/// A text with that declaration is read as UTF-8.
pub proof fn lemma_declares(s: Seq<char>)
    requires
        text::is_at(s, declaration(), 0),
    ensures
        codec::declares_utf8(vstd::utf8::encode_utf8(s)),
{
    let d = declaration();
    let rest = s.subrange(38, s.len() as int);
    let bytes = vstd::utf8::encode_utf8(s);
    let l = codec::latin1(bytes);
    lemma_declaration_value();
    assert(s =~= d + rest);
    lemma_encode_join(d, rest);
    assert(vstd::utf8::is_ascii_chars(d)) by {
        reveal_strlit("<?xml version=\"1.0\" encoding=\"utf-8\"?>");
    }
    vstd::utf8::is_ascii_chars_encode_utf8(d);
    assert forall|i: int| 0 <= i < 38 implies #[trigger] l[i] == d[i] by {
        assert(d[i] as u8 == vstd::utf8::encode_utf8(d)[i]);
        assert(bytes[i] == vstd::utf8::encode_utf8(d)[i]);
    }
    assert(l.subrange(0, 38) =~= d);
    reveal_strlit("<?xml version=\"1.0\" encoding=\"utf-8\"?>");
    reveal_strlit("<?xml");
    reveal_strlit("?>");
    reveal_strlit("utf-8");
    assert(l[0] == d[0]);
    assert(bytes[0] == vstd::utf8::encode_utf8(d)[0] && d[0] as u8 == vstd::utf8::encode_utf8(d)[0]);
    assert(l.subrange(0, 5) =~= "<?xml"@) by {
        assert(l[1] == d[1] && l[2] == d[2] && l[3] == d[3] && l[4] == d[4]);
    }
    let p = "?>"@;
    assert(l[36] == d[36] && l[37] == d[37]);
    assert(l.subrange(36, 38) =~= p);
    assert forall|m: int| 0 <= m < 36 implies !#[trigger] text::is_at(l, p, m) by {
        if text::is_at(l, p, m) {
            let t = l.subrange(m, m + 2);
            assert(t[0] == l[m] && t[1] == l[m + 1]);
            assert(l[m] == d[m] && l[m + 1] == d[m + 1]);
        }
    }
    metadata_edit::lemma_find_is(l, p, 0, 36);
    assert(l.subrange(0, 36) =~= d.subrange(0, 36));
    assert(text::spec_lower("utf-8"@) =~= "utf-8"@);
}

proof fn lemma_new_documents_declare(
    x: Seq<char>,
    lang: Seq<char>,
    title: Seq<char>,
    uid: Seq<char>,
    depth: int,
)
    ensures
        text::is_at(nav_doc::spec_render_nav_doc(x, lang, title), declaration(), 0),
        text::is_at(nav_doc::spec_render_ncx(x, uid, title, depth), declaration(), 0),
{
    let a = "<?xml version=\"1.0\" encoding=\"utf-8\"?>\n<!DOCTYPE html>\n<html xmlns=\"http://www.w3.org/1999/xhtml\" xmlns:epub=\"http://www.idpf.org/2007/ops\" lang=\""@;
    let b = "<?xml version=\"1.0\" encoding=\"utf-8\"?>\n<!DOCTYPE ncx PUBLIC \"-//NISO//DTD ncx 2005-1//EN\" \"http://www.daisy.org/z3986/2005/ncx-2005-1.dtd\">\n<ncx xmlns=\"http://www.daisy.org/z3986/2005/ncx/\" version=\"2005-1\">\n<head>\n<meta name=\"dtb:uid\" content=\""@;
    lemma_declaration_value();
    assert(a.len() > 38 && a.subrange(0, 38) =~= declaration()) by {
        reveal_strlit("<?xml version=\"1.0\" encoding=\"utf-8\"?>");
        reveal_strlit("<?xml version=\"1.0\" encoding=\"utf-8\"?>\n<!DOCTYPE html>\n<html xmlns=\"http://www.w3.org/1999/xhtml\" xmlns:epub=\"http://www.idpf.org/2007/ops\" lang=\"");
    }
    assert(b.len() > 38 && b.subrange(0, 38) =~= declaration()) by {
        reveal_strlit("<?xml version=\"1.0\" encoding=\"utf-8\"?>");
        reveal_strlit("<?xml version=\"1.0\" encoding=\"utf-8\"?>\n<!DOCTYPE ncx PUBLIC \"-//NISO//DTD ncx 2005-1//EN\" \"http://www.daisy.org/z3986/2005/ncx-2005-1.dtd\">\n<ncx xmlns=\"http://www.daisy.org/z3986/2005/ncx/\" version=\"2005-1\">\n<head>\n<meta name=\"dtb:uid\" content=\"");
    }
    assert(nav_doc::spec_render_nav_doc(x, lang, title).subrange(0, 38) =~= a.subrange(0, 38));
    assert(nav_doc::spec_render_ncx(x, uid, title, depth).subrange(0, 38) =~= b.subrange(0, 38));
}

// ---------------------------------------------------------------- the two documents

/// What stands around a table of contents that is spliced into a navigation
/// document.
pub open spec fn nav_sides(t: Seq<char>) -> (Seq<char>, Seq<char>) {
    match toc_repair::toc_nav_from(t, 0) {
        Some((a, b)) => (t.subrange(0, a), t.subrange(b, t.len() as int)),
        None => insertion_sides(t, "</body>"@),
    }
}

/// What stands around a navigation map that is spliced into an NCX.
pub open spec fn navmap_sides(t: Seq<char>) -> (Seq<char>, Seq<char>) {
    match toc_repair::navmap_span(t) {
        Some((a, b)) => (t.subrange(0, a), t.subrange(b, t.len() as int)),
        None => insertion_sides(t, "</ncx>"@),
    }
}

/// What stands around a line that is inserted before the last place of the
/// anchor, or at the end.
pub open spec fn insertion_sides(t: Seq<char>, anchor: Seq<char>) -> (Seq<char>, Seq<char>) {
    match text::spec_rfind(t, anchor, t.len() as int) {
        Some(k) => (t.subrange(0, k), "\n"@ + t.subrange(k, t.len() as int)),
        None => (t, "\n"@),
    }
}

/// The navigation document `t`, in the directory `dir`, takes the entries: with
/// them in it, it still says that it is UTF-8, and nothing around them is read as
/// a part of a table of contents.
pub open spec fn nav_takes(t: Seq<char>, v: Seq<Toc>, dir: Seq<char>) -> bool {
    let nav = nav_doc::spec_render_toc_nav(v, dir);
    let (x, y) = nav_sides(t);
    let new = x + nav + y;
    &&& codec::declares_utf8(vstd::utf8::encode_utf8(new))
    &&& toc_read_back::reads_nothing(new, 0, x.len() as int)
    &&& toc_read_back::reads_nothing(new, (x + nav).len() as int, new.len() as int)
}

/// The NCX `t`, in the directory `dir`, takes the entries: with them in it, it
/// still says that it is UTF-8, and nothing around them is read as a part of a
/// table of contents.
pub open spec fn ncx_takes(t: Seq<char>, v: Seq<Toc>, dir: Seq<char>) -> bool {
    let navmap = nav_doc::spec_render_navmap(v, dir);
    let (x, y) = navmap_sides(t);
    let new = x + navmap + y;
    &&& codec::declares_utf8(vstd::utf8::encode_utf8(new))
    &&& ncx_read_back::reads_no_point(new, 0, x.len() as int)
    &&& ncx_read_back::reads_no_point(new, (x + navmap).len() as int, new.len() as int)
}

proof fn lemma_insertion(t: Seq<char>, anchor: Seq<char>, new: Seq<char>)
    ensures
        ({
            let (x, y) = insertion_sides(t, anchor);
            toc_repair::inserted(t, anchor, new + "\n"@) == x + new + y
        }),
{
    let (x, y) = insertion_sides(t, anchor);
    assert(toc_repair::inserted(t, anchor, new + "\n"@) =~= x + new + y);
}

/// A navigation document that is there is read back with the entries in it.
proof fn lemma_nav_spliced(t: Seq<char>, w: Seq<Toc>, dir: Seq<char>)
    requires
        toc_read_back::has_plain_targets(w),
        nav_takes(t, w, dir),
    ensures
        ({
            let new = toc_repair::spec_splice_toc_nav(t, nav_doc::spec_render_toc_nav(w, dir));
            &&& codec::text_in(vstd::utf8::encode_utf8(new)) == new
            &&& toc_repair::spec_rebase(toc::spec_parse_nav_toc(new), dir)
                == toc_read_back::labelled(w)
        }),
{
    let nav = nav_doc::spec_render_toc_nav(w, dir);
    let (x, y) = nav_sides(t);
    lemma_insertion(t, "</body>"@, nav);
    codec::written_text_is_read_back(x + nav + y);
    toc_read_back::a_spliced_toc_is_read_back(x, w, dir, y);
    toc_read_back::lemma_rebased(w, dir);
}

/// An NCX that is there is read back with the entries in it.
proof fn lemma_ncx_spliced(t: Seq<char>, w: Seq<Toc>, dir: Seq<char>)
    requires
        toc_read_back::has_plain_targets(w),
        ncx_takes(t, w, dir),
    ensures
        ({
            let new = toc_repair::spec_splice_navmap(t, nav_doc::spec_render_navmap(w, dir));
            &&& codec::text_in(vstd::utf8::encode_utf8(new)) == new
            &&& toc_repair::spec_rebase(toc::spec_parse_ncx(new), dir) == toc_read_back::labelled(w)
        }),
{
    let navmap = nav_doc::spec_render_navmap(w, dir);
    let (x, y) = navmap_sides(t);
    lemma_insertion(t, "</ncx>"@, navmap);
    codec::written_text_is_read_back(x + navmap + y);
    ncx_read_back::a_spliced_navmap_is_read_back(x, w, dir, y);
    toc_read_back::lemma_rebased(w, dir);
}

/// The zip path of a book's navigation document.
pub open spec fn nav_path(d: Found) -> Seq<char> {
    toc_repair::doc_path(d.base(), d.book.nav_href, "nav.xhtml"@)
}

/// The zip path of a book's NCX.
pub open spec fn ncx_path(d: Found) -> Seq<char> {
    toc_repair::doc_path(d.base(), d.book.ncx_href, "toc.ncx"@)
}

/// The book's navigation document takes the entries: the one that is there does,
/// or one is written.
pub open spec fn takes_nav(p: Seq<Part>, d: Found, w: Seq<Toc>) -> bool {
    match package::spec_text(p, nav_path(d)) {
        Some(t) => nav_takes(t, w, structure::spec_dir_of(nav_path(d))),
        None => !text::spec_starts(d.book.version, "2"@) && !toc_repair::language_of(
            d.book,
        ).contains('"'),
    }
}

/// The book's NCX takes the entries: the one that is there does, or one is
/// written.
pub open spec fn takes_ncx(p: Seq<Part>, d: Found, w: Seq<Toc>) -> bool {
    match package::spec_text(p, ncx_path(d)) {
        Some(t) => ncx_takes(t, w, structure::spec_dir_of(ncx_path(d))),
        None => text::spec_starts(d.book.version, "2"@),
    }
}

/// The package document and the two navigation documents are three members.
pub open spec fn apart(d: Found) -> bool {
    nav_path(d) != ncx_path(d) && nav_path(d) != d.path && ncx_path(d) != d.path
}

/// The text of a member that is set is read back, and that of the others stays.
proof fn lemma_text_set(p: Seq<Part>, name: Seq<char>, s: Seq<char>, other: Seq<char>)
    requires
        codec::text_in(vstd::utf8::encode_utf8(s)) == s,
    ensures
        package::spec_text(edit::spec_set(p, name, vstd::utf8::encode_utf8(s)), name) == Some(s),
        other != name ==> package::spec_text(
            edit::spec_set(p, name, vstd::utf8::encode_utf8(s)),
            other,
        ) == package::spec_text(p, other),
{
    edit::setting_changes_one_member(p, name, vstd::utf8::encode_utf8(s), other);
}

/// The navigation document of a book declares the entries that were written into
/// it: read from the book, and resolved from its directory, they are the same,
/// labels without markup space around them. A fragment that its document does
/// not define is dropped before.
pub proof fn a_book_reads_its_nav_back(p: Seq<Part>, d: Found, v: Seq<Toc>)
    requires
        apart(d),
        toc_read_back::has_plain_targets(toc_repair::spec_resolve_fragments(p, v)),
        takes_nav(p, d, toc_repair::spec_resolve_fragments(p, v)),
    ensures
        package::spec_text(toc_repair::toc_set(p, d, v), nav_path(d)) matches Some(t)
            && toc_repair::spec_rebase(
            toc::spec_parse_nav_toc(t),
            structure::spec_dir_of(nav_path(d)),
        ) == toc_read_back::labelled(toc_repair::spec_resolve_fragments(p, v)),
{
    let w = toc_repair::spec_resolve_fragments(p, v);
    let abs = nav_path(d);
    let dir = structure::spec_dir_of(abs);
    let nav = nav_doc::spec_render_toc_nav(w, dir);
    let s = toc_repair::nav_repaired(p, d, w);
    let new = match package::spec_text(p, abs) {
        Some(t) => {
            lemma_nav_spliced(t, w, dir);
            toc_repair::spec_splice_toc_nav(t, nav)
        },
        None => {
            let lang = toc_repair::language_of(d.book);
            let title = toc_repair::title_of(d.book);
            let new = nav_doc::spec_render_nav_doc(nav, lang, title);
            lemma_new_documents_declare(nav, lang, title, Seq::empty(), 0);
            lemma_declares(new);
            codec::written_text_is_read_back(new);
            toc_read_back::a_written_toc_is_declared(w, dir, lang, title);
            new
        },
    };
    lemma_text_set(p, abs, new, abs);
    assert(package::spec_text(s.p, abs) == Some(new));
    lemma_ncx_keeps(s, d, w, abs);
    let r = toc_repair::ncx_repaired(s, d, w);
    if let Some(t) = r.text {
        edit::replacing_is_surgical(r.p, d.path, vstd::utf8::encode_utf8(t), abs);
    }
}

proof fn lemma_ncx_keeps(s: toc_repair::Repair, d: Found, w: Seq<Toc>, name: Seq<char>)
    requires
        name != ncx_path(d),
    ensures
        package::spec_text(toc_repair::ncx_repaired(s, d, w).p, name) == package::spec_text(
            s.p,
            name,
        ),
{
    let ncx = ncx_path(d);
    assert forall|b: Seq<u8>| edit::spec_get(#[trigger] edit::spec_set(s.p, ncx, b), name)
        == edit::spec_get(s.p, name) by {
        edit::setting_changes_one_member(s.p, ncx, b, name);
    }
}

proof fn lemma_nav_keeps(p: Seq<Part>, d: Found, w: Seq<Toc>, name: Seq<char>)
    requires
        name != nav_path(d),
    ensures
        package::spec_text(toc_repair::nav_repaired(p, d, w).p, name) == package::spec_text(
            p,
            name,
        ),
{
    let nav = nav_path(d);
    assert forall|b: Seq<u8>| edit::spec_get(#[trigger] edit::spec_set(p, nav, b), name)
        == edit::spec_get(p, name) by {
        edit::setting_changes_one_member(p, nav, b, name);
    }
}

/// The NCX of a book declares the entries that were written into it: read from
/// the book, and resolved from its directory, they are the same, labels without
/// markup space around them. A fragment that its document does not define is
/// dropped before.
pub proof fn a_book_reads_its_ncx_back(p: Seq<Part>, d: Found, v: Seq<Toc>)
    requires
        apart(d),
        toc_read_back::has_plain_targets(toc_repair::spec_resolve_fragments(p, v)),
        takes_ncx(p, d, toc_repair::spec_resolve_fragments(p, v)),
    ensures
        package::spec_text(toc_repair::toc_set(p, d, v), ncx_path(d)) matches Some(t)
            && toc_repair::spec_rebase(
            toc::spec_parse_ncx(t),
            structure::spec_dir_of(ncx_path(d)),
        ) == toc_read_back::labelled(toc_repair::spec_resolve_fragments(p, v)),
{
    let w = toc_repair::spec_resolve_fragments(p, v);
    let abs = ncx_path(d);
    let dir = structure::spec_dir_of(abs);
    let navmap = nav_doc::spec_render_navmap(w, dir);
    let s = toc_repair::nav_repaired(p, d, w);
    let r = toc_repair::ncx_repaired(s, d, w);
    lemma_nav_keeps(p, d, w, abs);
    let new = match package::spec_text(p, abs) {
        Some(t) => {
            lemma_ncx_spliced(t, w, dir);
            toc_repair::spec_splice_navmap(t, navmap)
        },
        None => {
            let uid = toc_repair::ncx_uid(d.book);
            let title = toc_repair::title_of(d.book);
            let depth = nav_doc::spec_depth(w) as int;
            let new = nav_doc::spec_render_ncx(navmap, uid, title, depth);
            lemma_new_documents_declare(navmap, Seq::empty(), title, uid, depth);
            lemma_declares(new);
            codec::written_text_is_read_back(new);
            ncx_read_back::an_ncx_is_read_back(w, dir, uid, title, depth);
            toc_read_back::lemma_rebased(w, dir);
            new
        },
    };
    lemma_text_set(s.p, abs, new, abs);
    assert(package::spec_text(r.p, abs) == Some(new));
    if let Some(t) = r.text {
        edit::replacing_is_surgical(r.p, d.path, vstd::utf8::encode_utf8(t), abs);
    }
}

/// The table of contents that is written into a book is the one that the book
/// declares, where it names a document for it.
pub proof fn a_book_declares_what_was_written(p: Seq<Part>, d: Found, v: Seq<Toc>)
    requires
        apart(d),
        toc_read_back::has_plain_targets(toc_repair::spec_resolve_fragments(p, v)),
        d.book.nav_href is Some || d.book.ncx_href is Some,
        d.book.nav_href is Some ==> takes_nav(p, d, toc_repair::spec_resolve_fragments(p, v)),
        d.book.ncx_href is Some ==> takes_ncx(p, d, toc_repair::spec_resolve_fragments(p, v)),
    ensures
        toc_repair::spec_existing_declared(toc_repair::toc_set(p, d, v), d.book, d.base())
            == toc_read_back::labelled(toc_repair::spec_resolve_fragments(p, v)),
{
    let w = toc_repair::spec_resolve_fragments(p, v);
    if d.book.nav_href is Some {
        a_book_reads_its_nav_back(p, d, v);
    }
    if d.book.ncx_href is Some {
        a_book_reads_its_ncx_back(p, d, v);
    } else {
        let read = toc_read_back::labelled(w);
        lemma_counted(read);
        lemma_counted(Seq::<Toc>::empty());
        assert(read.len() == 0 ==> read =~= Seq::<Toc>::empty());
    }
}

proof fn lemma_counted(v: Seq<Toc>)
    ensures
        v.len() > 0 ==> toc::spec_flat_count(v) > 0,
        v.len() == 0 ==> toc::spec_flat_count(v) == 0,
{
}

// ---------------------------------------------------------------- a repaired table of contents

/// The two books have the same text for the document `i` of the spine.
pub open spec fn same_text(p: Seq<Part>, q: Seq<Part>, spine: Seq<(Seq<char>, Seq<char>)>, i: int) -> bool {
    package::spec_text(p, spine[i].0) == package::spec_text(q, spine[i].0)
}

/// Of the documents of the spine, those that differ in the two books say nothing of
/// volumes: the table of contents does not point at them, and they stand before
/// every document that starts a volume.
pub open spec fn differ_in_front(
    p: Seq<Part>,
    q: Seq<Part>,
    spine: Seq<(Seq<char>, Seq<char>)>,
    targets: Seq<Seq<char>>,
) -> bool {
    forall|i: int|
        0 <= i < spine.len() ==> #[trigger] same_text(p, q, spine, i) || (!targets.contains(
            spine[i].0,
        ) && forall|k: int| 0 <= k <= i ==> !#[trigger] toc_repair::is_start(p, spine, targets, k))
}

proof fn lemma_same_starts(
    p: Seq<Part>,
    q: Seq<Part>,
    spine: Seq<(Seq<char>, Seq<char>)>,
    targets: Seq<Seq<char>>,
    n: int,
)
    requires
        differ_in_front(p, q, spine, targets),
        n <= spine.len(),
    ensures
        toc_repair::starts_to(p, spine, targets, n) == toc_repair::starts_to(q, spine, targets, n),
        forall|k: int|
            0 <= k < toc_repair::starts_to(p, spine, targets, n).len() ==> 0
                <= #[trigger] toc_repair::starts_to(p, spine, targets, n)[k] < n
                && toc_repair::is_start(
                p,
                spine,
                targets,
                toc_repair::starts_to(p, spine, targets, n)[k],
            ),
    decreases n,
{
    if n > 1 {
        lemma_same_starts(p, q, spine, targets, n - 1);
        assert(same_text(p, q, spine, n - 1) || !targets.contains(spine[n - 1].0));
    }
}

proof fn lemma_same_members(
    p: Seq<Part>,
    q: Seq<Part>,
    spine: Seq<(Seq<char>, Seq<char>)>,
    i: int,
    end: int,
)
    requires
        forall|j: int| i <= j < end ==> #[trigger] same_text(p, q, spine, j),
    ensures
        toc_repair::members_from(p, spine, i, end) == toc_repair::members_from(q, spine, i, end),
    decreases end - i,
{
    if 0 <= i < end {
        assert(same_text(p, q, spine, i));
        lemma_same_members(p, q, spine, i + 1, end);
    }
}

proof fn lemma_same_groups(
    p: Seq<Part>,
    q: Seq<Part>,
    spine: Seq<(Seq<char>, Seq<char>)>,
    targets: Seq<Seq<char>>,
    starts: Seq<int>,
    n: int,
)
    requires
        differ_in_front(p, q, spine, targets),
        n <= starts.len(),
        forall|k: int|
            0 <= k < starts.len() ==> 0 <= #[trigger] starts[k] < spine.len() && toc_repair::is_start(
                p,
                spine,
                targets,
                starts[k],
            ),
    ensures
        toc_repair::groups_to(p, spine, starts, n) == toc_repair::groups_to(q, spine, starts, n),
    decreases n,
{
    if n > 0 {
        lemma_same_groups(p, q, spine, targets, starts, n - 1);
        let end = if n < starts.len() {
            starts[n]
        } else {
            spine.len() as int
        };
        let a = starts[n - 1];
        assert(end <= spine.len());
        assert forall|j: int| a <= j < end implies #[trigger] same_text(p, q, spine, j) by {
            assert(toc_repair::is_start(p, spine, targets, a));
        }
        lemma_same_members(p, q, spine, a, end);
    }
}

/// The volumes that a book evidences are seen in the documents that the table of
/// contents points at, and in those behind them: where others change, they stay.
pub proof fn volumes_are_seen_behind_their_starts(
    p: Seq<Part>,
    q: Seq<Part>,
    spine: Seq<(Seq<char>, Seq<char>)>,
    targets: Seq<Seq<char>>,
)
    requires
        differ_in_front(p, q, spine, targets),
    ensures
        toc_repair::spec_volume_groups(p, spine, targets) == toc_repair::spec_volume_groups(
            q,
            spine,
            targets,
        ),
{
    lemma_same_starts(p, q, spine, targets, spine.len() as int);
    let starts = toc_repair::starts_to(p, spine, targets, spine.len() as int);
    lemma_same_groups(p, q, spine, targets, starts, starts.len() as int);
}

proof fn lemma_document(href: Seq<char>)
    ensures
        toc_shape::document(toc_shape::document(href)) == toc_shape::document(href),
{
    let d = toc_shape::document(href);
    text::lemma_find_char(href, '#', 0);
    text::lemma_find_char(d, '#', 0);
    if let Some(k) = text::spec_find_char(d, '#', 0) {
        assert(d[k] == href[k]);
    }
    assert(d.subrange(0, d.len() as int) =~= d);
}

/// Entries that are written have the shape and the documents they had.
proof fn lemma_same_shape(p: Seq<Part>, v: Seq<Toc>)
    ensures
        ({
            let w = toc_read_back::labelled(toc_repair::spec_resolve_fragments(p, v));
            &&& w.len() == v.len()
            &&& forall|i: int|
                0 <= i < v.len() ==> toc_shape::document((#[trigger] w[i]).href)
                    == toc_shape::document(v[i].href) && w[i].children.len() == v[i].children.len()
        }),
    decreases v,
{
    if v.len() > 0 {
        let r = toc_repair::spec_resolve_fragments(p, v);
        let w = toc_read_back::labelled(r);
        lemma_same_shape(p, v.drop_last());
        lemma_same_shape(p, v.last().children);
        lemma_document(v.last().href);
        let front = toc_repair::spec_resolve_fragments(p, v.drop_last());
        assert(r.drop_last() =~= front);
        assert(r.last().href == toc_repair::href_resolved(p, v.last().href));
        let before = toc_read_back::labelled(front);
        assert(w == before.push(w.last()));
        assert forall|i: int| 0 <= i < v.len() implies toc_shape::document((#[trigger] w[i]).href)
            == toc_shape::document(v[i].href) && w[i].children.len() == v[i].children.len() by {
            if i < v.len() - 1 {
                assert(w[i] == before[i]);
                assert(v[i] == v.drop_last()[i]);
            } else {
                assert(v[i] == v.last());
                assert(w[i] == w.last());
            }
        }
    }
}

/// A repaired table of contents measures no flattening: once the proposal for a
/// book is written into it, the book's declared table of contents has lost no
/// volume. The book names a document for it; one that is in the spine as well is
/// new evidence of volumes, unless it stands in front of them.
pub proof fn a_repaired_toc_measures_no_flattening(p: Seq<Part>, d: Found)
    requires
        apart(d),
        ({
            let v = toc_repair::spec_propose(p, d.book, d.base(), d.text);
            let w = toc_repair::spec_resolve_fragments(p, v);
            &&& toc_read_back::has_plain_targets(w)
            &&& d.book.nav_href is Some ==> takes_nav(p, d, w)
            &&& d.book.ncx_href is Some ==> takes_ncx(p, d, w)
        }),
        d.book.nav_href is Some || d.book.ncx_href is Some,
        differ_in_front(
            p,
            toc_repair::toc_set(p, d, toc_repair::spec_propose(p, d.book, d.base(), d.text)),
            package::spec_spine_documents(d.book, d.base()),
            toc_repair::documents(toc_repair::spec_propose(p, d.book, d.base(), d.text)),
        ),
    ensures
        toc_repair::flattening(
            toc_repair::toc_set(p, d, toc_repair::spec_propose(p, d.book, d.base(), d.text)),
            d.book,
            d.base(),
        ) == (0int, 0int),
{
    let v = toc_repair::spec_propose(p, d.book, d.base(), d.text);
    let q = toc_repair::toc_set(p, d, v);
    let spine = package::spec_spine_documents(d.book, d.base());
    let w = toc_read_back::labelled(toc_repair::spec_resolve_fragments(p, v));
    a_book_declares_what_was_written(p, d, v);
    lemma_same_shape(p, v);
    toc_repair::the_measure_is_the_repairs_own_rule(q, d.book, d.base());
    if w.len() >= 2 && toc_shape::is_flat(w) {
        let n = v.len() as int;
        volumes_are_seen_behind_their_starts(p, q, spine, toc_repair::documents(v));
        toc_repair::lemma_same_documents(w, v, n);
        let groups = toc_repair::spec_volume_groups(p, spine, toc_repair::documents(v));
        toc_repair::a_proposal_has_its_volumes(p, d.book, d.base(), d.text);
        assert(toc_shape::is_flat(v)) by {
            assert forall|i: int| 0 <= i < v.len() implies (#[trigger] v[i]).children.len() == 0 by {
                assert(w[i].children.len() == 0);
            }
        }
        toc_shape::lemma_same_depths(w, v, groups, n);
        toc_shape::lemma_forest_length(w, v, toc_shape::volume_depths(v, groups, n).1, 0, n);
        toc_shape::nesting_that_moves_nothing_changes_nothing(w, groups);
    }
}

/// Writing a table of contents changes only the documents for it: of a book with
/// none of them in its spine, it changes nothing that evidences volumes.
pub proof fn a_written_toc_evidences_nothing(p: Seq<Part>, d: Found, v: Seq<Toc>, targets: Seq<Seq<char>>)
    requires
        forall|i: int|
            0 <= i < package::spec_spine_documents(d.book, d.base()).len() ==> ({
                let name = (#[trigger] package::spec_spine_documents(d.book, d.base())[i]).0;
                name != d.path && name != nav_path(d) && name != ncx_path(d)
            }),
    ensures
        differ_in_front(
            p,
            toc_repair::toc_set(p, d, v),
            package::spec_spine_documents(d.book, d.base()),
            targets,
        ),
{
    let spine = package::spec_spine_documents(d.book, d.base());
    let q = toc_repair::toc_set(p, d, v);
    assert forall|i: int| 0 <= i < spine.len() implies #[trigger] same_text(p, q, spine, i) by {
        assert(spine[i].0 != d.path);
        toc_repair::a_written_toc_leaves_the_other_members(p, d, v, spine[i].0);
    }
}

} // verus!
