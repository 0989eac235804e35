//! A restored book is no longer flattened.
use vstd::prelude::*;

use crate::archive::Part;
use crate::error::Fault;
use crate::flattened::{flat_sheets_to, generated_at, generated_in, is_sheet, Flattened};
use crate::package::Found;
use crate::reference_styles::Styles;
use crate::unflatten_styles::{
    flat_docs_to, is_new, pages_gone, path_here, restoring, sheet_content, sheets_added, sheets_gone, texts_set,
};
use crate::{
    archive, codec, edit, flattened, manifest, package, reach, structure, text, unflatten_styles,
};

verus! {

// ---------------------------------------------------------------- what is found

proof fn lemma_generated_counts(v: Seq<Seq<char>>, n: int)
    ensures
        flattened::generated_to(v, n) >= 0,
    decreases n,
{
    if n > 0 {
        lemma_generated_counts(v, n - 1);
    }
}

proof fn lemma_generated(p: Seq<Part>, i: int)
    ensures
        generated_at(p, i) >= 0,
{
    if let Some(t) = package::spec_text(p, p[i].name) {
        let v = crate::stylesheet::sheet_rules(t);
        let c = crate::stylesheet::flat_classes(v, v.len() as int);
        lemma_generated_counts(c, c.len() as int);
    }
}

/// A stylesheet with a class that a converter made up is found.
proof fn lemma_sheet_found(p: Seq<Part>, n: int, i: int)
    requires
        0 <= i < n <= p.len(),
        generated_at(p, i) > 0,
    ensures
        flat_sheets_to(p, n).contains(p[i].name),
    decreases n,
{
    if i == n - 1 {
        reach::lemma_with_name(flat_sheets_to(p, n - 1), p[i].name, 0, p[i].name);
    } else {
        lemma_sheet_found(p, n - 1, i);
        if generated_at(p, n - 1) > 0 {
            reach::lemma_with_name(flat_sheets_to(p, n - 1), p[n - 1].name, 0, p[i].name);
        }
    }
}

proof fn lemma_none_found(p: Seq<Part>, n: int)
    requires
        0 <= n <= p.len(),
        forall|i: int| 0 <= i < n ==> #[trigger] generated_at(p, i) <= 0,
    ensures
        flat_sheets_to(p, n).len() == 0,
    decreases n,
{
    if n > 0 {
        lemma_none_found(p, n - 1);
        assert(generated_at(p, n - 1) <= 0);
    }
}

// ---------------------------------------------------------------- what goes

proof fn lemma_pages_keep(p: Seq<Part>, gone: Seq<Seq<char>>, links: Seq<Seq<char>>, n: int, x: Seq<char>)
    requires
        gone.contains(x),
        0 <= n <= links.len(),
    ensures
        pages_gone(p, gone, links, n).contains(x),
    decreases n,
{
    if n > 0 {
        lemma_pages_keep(p, gone, links, n - 1, x);
        reach::lemma_with_name(pages_gone(p, gone, links, n - 1), links[n - 1], 0, x);
    }
}

/// Every flattened stylesheet goes.
proof fn lemma_flat_goes(
    p: Seq<Part>,
    spine: Seq<(Seq<char>, Seq<char>)>,
    sheets: Seq<Seq<char>>,
    n: int,
    x: Seq<char>,
)
    requires
        sheets.contains(x),
        0 <= n <= spine.len(),
    ensures
        flat_docs_to(p, spine, sheets, n).1.contains(x),
    decreases n,
{
    if n > 0 {
        lemma_flat_goes(p, spine, sheets, n - 1, x);
        let (docs, gone) = flat_docs_to(p, spine, sheets, n - 1);
        if let Some(t) = package::spec_text(p, spine[n - 1].0) {
            let links = unflatten_styles::links_of(t, spine[n - 1].0);
            lemma_pages_keep(p, gone, links, links.len() as int, x);
        }
    }
}

proof fn lemma_docs_of_spine(
    p: Seq<Part>,
    spine: Seq<(Seq<char>, Seq<char>)>,
    sheets: Seq<Seq<char>>,
    n: int,
)
    requires
        0 <= n <= spine.len(),
        forall|i: int| 0 <= i < spine.len() ==> !is_sheet((#[trigger] spine[i]).0),
    ensures
        forall|k: int|
            0 <= k < flat_docs_to(p, spine, sheets, n).0.len() ==> !is_sheet(
                (#[trigger] flat_docs_to(p, spine, sheets, n).0[k]).0,
            ),
    decreases n,
{
    if n > 0 {
        lemma_docs_of_spine(p, spine, sheets, n - 1);
        let before = flat_docs_to(p, spine, sheets, n - 1).0;
        let now = flat_docs_to(p, spine, sheets, n).0;
        assert forall|k: int| 0 <= k < now.len() implies !is_sheet((#[trigger] now[k]).0) by {
            if k < before.len() {
                assert(now[k] == before[k]);
                assert(!is_sheet(before[k].0));
            } else {
                assert(now[k].0 == spine[n - 1].0);
            }
        }
    }
}

// ---------------------------------------------------------------- the steps

/// The container is the one of `p`, so that the package document is where it was.
spec fn same_container(p: Seq<Part>, s: Seq<Part>) -> bool {
    edit::spec_get(s, "META-INF/container.xml"@) == edit::spec_get(p, "META-INF/container.xml"@)
}

/// The last of the first `n` stylesheets of the reference that gets the path.
spec fn last_new(r: Styles, dir: Seq<char>, x: Seq<char>, n: int) -> Option<int>
    decreases n,
{
    if n <= 0 {
        None
    } else if path_here(dir, r.sheets[n - 1]) == x {
        Some(n - 1)
    } else {
        last_new(r, dir, x, n - 1)
    }
}

proof fn lemma_last_new(r: Styles, dir: Seq<char>, x: Seq<char>, n: int)
    requires
        0 <= n <= r.sheets.len(),
    ensures
        match last_new(r, dir, x, n) {
            Some(i) => 0 <= i < n && path_here(dir, r.sheets[i]) == x,
            None => forall|i: int| 0 <= i < n ==> path_here(dir, #[trigger] r.sheets[i]) != x,
        },
    decreases n,
{
    if n > 0 {
        lemma_last_new(r, dir, x, n - 1);
    }
}

/// What the member at `x` holds once the first `n` stylesheets of the reference are
/// in.
spec fn new_content(
    p: Seq<Part>,
    rp: Seq<Part>,
    r: Styles,
    dir: Seq<char>,
    css: Seq<char>,
    n: int,
    x: Seq<char>,
) -> Option<Seq<u8>> {
    match last_new(r, dir, x, n) {
        Some(i) => Some(sheet_content(rp, r, r.sheets[i], css)),
        None => edit::spec_get(p, x),
    }
}

proof fn lemma_added(
    p: Seq<Part>,
    d: Found,
    rp: Seq<Part>,
    r: Styles,
    dir: Seq<char>,
    css: Seq<char>,
    n: int,
    x: Seq<char>,
)
    requires
        edit::spec_opf_path(p) == Ok::<Seq<char>, Fault>(d.path),
        d.path != "META-INF/container.xml"@,
        last_new(r, dir, "META-INF/container.xml"@, r.sheets.len() as int) is None,
        0 <= n <= r.sheets.len(),
        x != d.path,
    ensures
        sheets_added(p, rp, r, dir, css, n) matches Ok(s) ==> same_container(p, s) && edit::spec_get(
            s,
            x,
        ) == new_content(p, rp, r, dir, css, n, x),
    decreases n,
{
    if n > 0 {
        lemma_added(p, d, rp, r, dir, css, n - 1, x);
        if let Ok(before) = sheets_added(p, rp, r, dir, css, n - 1) {
            let container = "META-INF/container.xml"@;
            let here = path_here(dir, r.sheets[n - 1]);
            let data = sheet_content(rp, r, r.sheets[n - 1], css);
            let q = edit::spec_set(before, here, data);
            lemma_last_new(r, dir, container, r.sheets.len() as int);
            assert(here != container);
            edit::setting_changes_one_member(before, here, data, x);
            edit::setting_changes_one_member(before, here, data, container);
            assert(same_container(p, q));
            lemma_item_added(p, d, q, here, x);
        }
    }
}

proof fn lemma_item_added(p: Seq<Part>, d: Found, q: Seq<Part>, here: Seq<char>, x: Seq<char>)
    requires
        edit::spec_opf_path(p) == Ok::<Seq<char>, Fault>(d.path),
        d.path != "META-INF/container.xml"@,
        same_container(p, q),
        x != d.path,
    ensures
        manifest::spec_add_item(q, here, "text/css"@) matches Ok((_, s)) ==> same_container(p, s)
            && edit::spec_get(s, x) == edit::spec_get(q, x),
{
    if let Ok(e) = package::spec_package_doc(q) {
        assert(e.path == d.path);
        let id = manifest::spec_unique_id(e.book.items, here);
        let href = text::spec_replace(structure::spec_relativize(e.base(), here), " "@, "%20"@);
        if let Ok(t) = manifest::spec_insert_item(e.text, href, id, "text/css"@) {
            let data = vstd::utf8::encode_utf8(t);
            edit::replacing_is_surgical(q, e.path, data, x);
            edit::replacing_is_surgical(q, e.path, data, "META-INF/container.xml"@);
        }
    }
}

/// The stylesheets that go are gone, unless they are new ones.
proof fn lemma_gone(
    a: Seq<Part>,
    path: Seq<char>,
    r: Styles,
    dir: Seq<char>,
    gone: Seq<Seq<char>>,
    n: int,
    x: Seq<char>,
)
    requires
        edit::spec_opf_path(a) == Ok::<Seq<char>, Fault>(path),
        path != "META-INF/container.xml"@,
        0 <= n <= gone.len(),
        x != path,
    ensures
        sheets_gone(a, r, dir, gone, n) matches Ok(s) ==> edit::spec_get(s, x) == (if !is_new(
            r,
            dir,
            x,
        ) && (exists|i: int| 0 <= i < n && #[trigger] gone[i] == x) {
            None::<Seq<u8>>
        } else {
            edit::spec_get(a, x)
        }) && edit::spec_opf_path(s) == Ok::<Seq<char>, Fault>(path),
    decreases n,
{
    if n > 0 {
        lemma_gone(a, path, r, dir, gone, n - 1, x);
        if let Ok(before) = sheets_gone(a, r, dir, gone, n - 1) {
            let g = gone[n - 1];
            if !is_new(r, dir, g) {
                let q = edit::spec_remove(before, g);
                edit::removing_leaves_the_others(before, g, x);
                lemma_item_removed(before, path, q, g, x);
            }
        }
    }
}

proof fn lemma_item_removed(before: Seq<Part>, path: Seq<char>, q: Seq<Part>, g: Seq<char>, x: Seq<char>)
    requires
        edit::spec_opf_path(before) == Ok::<Seq<char>, Fault>(path),
        path != "META-INF/container.xml"@,
        q == edit::spec_remove(before, g),
        x != path,
    ensures
        manifest::spec_remove_item(q, g) matches Ok((_, s)) ==> edit::spec_get(s, x) == edit::spec_get(
            q,
            x,
        ) && edit::spec_opf_path(s) == Ok::<Seq<char>, Fault>(path),
{
    let container = "META-INF/container.xml"@;
    edit::removing_leaves_the_others(before, g, container);
    if g != container {
        assert(edit::spec_opf_path(q) == Ok::<Seq<char>, Fault>(path));
        if let Ok(b) = edit::spec_opf_bytes(q) {
            let t = codec::text_in(b);
            if let Some((i, j)) = manifest::item_span(t, structure::spec_dir_of(path), g, 0) {
                let data = vstd::utf8::encode_utf8(manifest::item_cut(t, i, j));
                edit::replacing_is_surgical(q, path, data, x);
                edit::replacing_is_surgical(q, path, data, container);
            }
        }
    }
}

proof fn lemma_texts_keep(
    b: Seq<Part>,
    docs: Seq<(Seq<char>, Seq<char>)>,
    texts: Seq<Seq<char>>,
    n: int,
    x: Seq<char>,
)
    requires
        0 <= n <= docs.len(),
        forall|k: int| 0 <= k < docs.len() ==> (#[trigger] docs[k]).0 != x,
    ensures
        edit::spec_get(texts_set(b, docs, texts, n), x) == edit::spec_get(b, x),
    decreases n,
{
    if n > 0 {
        lemma_texts_keep(b, docs, texts, n - 1, x);
        assert(docs[n - 1].0 != x);
        edit::replacing_is_surgical(
            texts_set(b, docs, texts, n - 1),
            docs[n - 1].0,
            vstd::utf8::encode_utf8(texts[n - 1]),
            x,
        );
    }
}

// ---------------------------------------------------------------- the restored book

/// What the stylesheets of the reference are to hold shows no flattening: the rules
/// for what is left undone define no class that a converter made up.
pub open spec fn shows_no_flattening(rp: Seq<Part>, r: Styles, css: Seq<char>) -> bool {
    forall|i: int|
        0 <= i < r.sheets.len() ==> generated_in(
            codec::text_in(sheet_content(rp, r, #[trigger] r.sheets[i], css)),
        ) == 0
}

/// The documents of a book are not stylesheets, and neither is its package document.
pub open spec fn keeps_sheets_apart(d: Found) -> bool {
    &&& d.path != "META-INF/container.xml"@
    &&& !is_sheet(d.path)
    &&& forall|i: int|
        0 <= i < package::spec_spine_documents(d.book, d.base()).len() ==> !is_sheet(
            (#[trigger] package::spec_spine_documents(d.book, d.base())[i]).0,
        )
}

/// What is left of a stylesheet in a restored book.
proof fn lemma_sheet_left(
    p: Seq<Part>,
    d: Found,
    f: Flattened,
    rp: Seq<Part>,
    r: Styles,
    x: Seq<char>,
)
    requires
        package::spec_package_doc(p) == Ok::<Found, Fault>(d),
        flattened::detected(p) == Some(f),
        keeps_sheets_apart(d),
        !is_new(r, structure::spec_dir_of(f.sheets[0]), "META-INF/container.xml"@),
        restoring(p, d, f, rp, r) matches Ok(z) && shows_no_flattening(rp, r, z.css),
        is_sheet(x),
    ensures
        restoring(p, d, f, rp, r) matches Ok(z) && (edit::spec_get(z.parts, x) matches Some(data)
            ==> generated_in(codec::text_in(data)) == 0),
{
    let z = restoring(p, d, f, rp, r)->Ok_0;
    let dir = structure::spec_dir_of(f.sheets[0]);
    let spine = package::spec_spine_documents(d.book, d.base());
    let (docs, gone) = flat_docs_to(p, spine, f.sheets, spine.len() as int);
    let m = r.sheets.len() as int;
    lemma_last_new(r, dir, "META-INF/container.xml"@, m);
    lemma_last_new(r, dir, x, m);
    lemma_added(p, d, rp, r, dir, z.css, m, x);
    let a = sheets_added(p, rp, r, dir, z.css, m)->Ok_0;
    assert(edit::spec_opf_path(a) == Ok::<Seq<char>, Fault>(d.path));
    lemma_gone(a, d.path, r, dir, gone, gone.len() as int, x);
    let b = sheets_gone(a, r, dir, gone, gone.len() as int)->Ok_0;
    lemma_docs_of_spine(p, spine, f.sheets, spine.len() as int);
    lemma_texts_keep(b, docs, z.rewriting.texts, docs.len() as int, x);
    if let Some(i) = last_new(r, dir, x, m) {
        assert(path_here(dir, r.sheets[i]) == x);
        assert(is_new(r, dir, x));
        assert(generated_in(codec::text_in(sheet_content(rp, r, r.sheets[i], z.css))) == 0);
    } else if edit::spec_get(z.parts, x) is Some {
        edit::lemma_member_at(p, x, 0);
        let j = edit::member_at(p, x, 0)->0;
        lemma_generated(p, j);
        if generated_at(p, j) > 0 {
            lemma_sheet_found(p, p.len() as int, j);
            lemma_flat_goes(p, spine, f.sheets, spine.len() as int, x);
            let k = choose|k: int| 0 <= k < gone.len() && gone[k] == x;
            assert(gone[k] == x);
        }
    }
}

/// A restored book is no longer flattened: of its stylesheets none has a class that
/// a converter made up. The rules for what is left undone, which stand in the
/// stylesheets of the reference, define none.
pub proof fn a_restored_book_is_not_flattened(
    p: Seq<Part>,
    d: Found,
    f: Flattened,
    rp: Seq<Part>,
    r: Styles,
)
    requires
        package::spec_package_doc(p) == Ok::<Found, Fault>(d),
        flattened::detected(p) == Some(f),
        keeps_sheets_apart(d),
        !is_new(r, structure::spec_dir_of(f.sheets[0]), "META-INF/container.xml"@),
        restoring(p, d, f, rp, r) matches Ok(z) && shows_no_flattening(rp, r, z.css),
    ensures
        restoring(p, d, f, rp, r) matches Ok(z) && flattened::detected(z.parts) is None
            && flattened::detected(edit::packed(z.parts)) is None,
{
    let q = restoring(p, d, f, rp, r)->Ok_0.parts;
    assert forall|x: Seq<char>| #[trigger] is_sheet(x) implies is_clean(q, x) by {
        lemma_sheet_left(p, d, f, rp, r, x);
    }
    lemma_all_clean(q);
    lemma_packed_clean(q);
    lemma_all_clean(edit::packed(q));
}

/// The member at `x` has no class that a converter made up.
spec fn is_clean(q: Seq<Part>, x: Seq<char>) -> bool {
    edit::spec_get(q, x) matches Some(data) ==> generated_in(codec::text_in(data)) == 0
}

proof fn lemma_all_clean(q: Seq<Part>)
    requires
        forall|x: Seq<char>| #[trigger] is_sheet(x) ==> is_clean(q, x),
    ensures
        flattened::detected(q) is None,
{
    assert forall|i: int| 0 <= i < q.len() implies #[trigger] generated_at(q, i) <= 0 by {
        if is_sheet(q[i].name) {
            assert(is_clean(q, q[i].name));
        }
    }
    lemma_none_found(q, q.len() as int);
}

proof fn lemma_packed_clean(q: Seq<Part>)
    requires
        forall|x: Seq<char>| #[trigger] is_sheet(x) ==> is_clean(q, x),
    ensures
        forall|x: Seq<char>| #[trigger] is_sheet(x) ==> is_clean(edit::packed(q), x),
{
    let w = edit::packed(q);
    reveal_strlit("mimetype");
    reveal_strlit(".css");
    assert(text::spec_lower("mimetype"@) =~= "mimetype"@);
    assert("mimetype"@.subrange(4, 8)[0] == 't' && ".css"@[0] == '.');
    assert(!is_sheet("mimetype"@));
    assert forall|x: Seq<char>| #[trigger] is_sheet(x) implies is_clean(w, x) by {
        assert(is_clean(q, x));
        edit::packing_keeps_the_contents(q, x);
    }
}

/// The same of an EPUB: what `restore_styles` wrote shows no flattening.
pub proof fn a_restored_epub_is_not_flattened(
    p: Seq<Part>,
    d: Found,
    f: Flattened,
    rp: Seq<Part>,
    r: Styles,
    out: Vec<u8>,
)
    requires
        package::spec_package_doc(p) == Ok::<Found, Fault>(d),
        flattened::detected(p) == Some(f),
        keeps_sheets_apart(d),
        !is_new(r, structure::spec_dir_of(f.sheets[0]), "META-INF/container.xml"@),
        restoring(p, d, f, rp, r) matches Ok(z) && shows_no_flattening(rp, r, z.css) && edit::written(
            Ok(out),
            z.parts,
        ) && archive::comes_back(edit::packed(z.parts), out@) && forall|i: int|
            0 <= i < z.parts.len() ==> !text::spec_ends((#[trigger] z.parts[i]).name, "/"@),
    ensures
        edit::spec_parse(out@) matches Some(q) && flattened::detected(q) is None,
{
    let z = restoring(p, d, f, rp, r)->Ok_0;
    a_restored_book_is_not_flattened(p, d, f, rp, r);
    edit::a_written_package_is_read_back(z.parts, out);
}

/// Where nothing is left undone, the stylesheets of a reference that is not flattened
/// show no flattening in the restored book either.
pub proof fn a_sound_reference_shows_no_flattening(rp: Seq<Part>, r: Styles)
    requires
        flattened::detected(rp) is None,
        forall|i: int|
            0 <= i < r.sheets.len() ==> is_sheet(#[trigger] r.sheets[i]) && edit::spec_get(
                rp,
                r.sheets[i],
            ) is Some,
    ensures
        shows_no_flattening(rp, r, Seq::empty()),
{
    assert forall|i: int| 0 <= i < r.sheets.len() implies generated_in(
        codec::text_in(sheet_content(rp, r, #[trigger] r.sheets[i], Seq::empty())),
    ) == 0 by {
        let x = r.sheets[i];
        edit::lemma_member_at(rp, x, 0);
        let j = edit::member_at(rp, x, 0)->0;
        lemma_generated(rp, j);
        if generated_at(rp, j) > 0 {
            lemma_sheet_found(rp, rp.len() as int, j);
            assert(flat_sheets_to(rp, rp.len() as int).len() > 0);
        }
    }
}

} // verus!
