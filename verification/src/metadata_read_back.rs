//! The metadata that is set in a book is the metadata that the book is read to
//! have.
use vstd::prelude::*;

use crate::archive::Part;
use crate::error::Fault;
use crate::metadata_edit::Patch;
use crate::opf::Book;
use crate::opf_read_back::{agree_besides, has_metadata_end};
use crate::plain_opf::is_plain_opf;
use crate::tidy::told;
use crate::{archive, codec, creators_read, edit, metadata_edit, opf, opf_read_back, package, text, tidy};

verus! {

/// What a plain package document is read to say, by what it tells.
proof fn lemma_parsed(t: Seq<char>)
    requires
        is_plain_opf(t),
    ensures
        match opf::spec_parse_opf(t) {
            Ok(b) => {
                &&& tidy::has_package(t)
                &&& b.title == opf::or_empty(tidy::first_told(told(t), "title"@))
                &&& b.language == opf::or_empty(tidy::first_told(told(t), "language"@))
                &&& b.publisher == tidy::first_told(told(t), "publisher"@)
                &&& b.date == tidy::first_told(told(t), "date"@)
                &&& b.authors == tidy::all_told(told(t), "creator"@)
                &&& b.spine == tidy::refs(t)
            },
            Err(_) => !tidy::has_package(t),
        },
{
    tidy::lemma_opf(t);
    tidy::lemma_read_told(t, tidy::unread());
    let v = told(t);
    assert(Seq::<Seq<char>>::empty() + tidy::all_told(v, "creator"@) =~= tidy::all_told(
        v,
        "creator"@,
    ));
    assert(Seq::<Seq<char>>::empty() + tidy::refs(t) =~= tidy::refs(t));
}

/// The field that the patch sets, trimmed, or what was told before.
spec fn told_now(value: Option<Seq<char>>, before: Option<Seq<char>>) -> Option<Seq<char>> {
    match value {
        Some(v) => Some(text::spec_trim(v)),
        None => before,
    }
}

/// One field of a patch.
proof fn lemma_field_set(t: Seq<char>, n: Seq<char>, value: Option<Seq<char>>)
    requires
        is_plain_opf(t),
        has_metadata_end(t),
        tidy::is_field(n),
    ensures
        ({
            let new = metadata_edit::single_set(t, n, value);
            &&& is_plain_opf(new)
            &&& has_metadata_end(new)
            &&& agree_besides(t, new, n)
            &&& tidy::first_told(told(new), n) == told_now(value, tidy::first_told(told(t), n))
        }),
{
    if let Some(v) = value {
        opf_read_back::lemma_set_single(t, n, v);
    }
}

proof fn lemma_fields()
    ensures
        tidy::is_field("title"@),
        tidy::is_field("language"@),
        tidy::is_field("publisher"@),
        tidy::is_field("date"@),
{
    reveal(tidy::is_field);
}

/// What is told once every field of a patch is set.
proof fn lemma_patched(t: Seq<char>, patch: Patch)
    requires
        is_plain_opf(t),
        has_metadata_end(t),
    ensures
        ({
            let new = metadata_edit::spec_rewrite_metadata(t, patch);
            let v = told(t);
            let w = told(new);
            &&& is_plain_opf(new)
            &&& tidy::first_told(w, "title"@) == told_now(patch.title, tidy::first_told(v, "title"@))
            &&& tidy::first_told(w, "language"@) == told_now(
                patch.language,
                tidy::first_told(v, "language"@),
            )
            &&& tidy::first_told(w, "publisher"@) == told_now(
                patch.publisher,
                tidy::first_told(v, "publisher"@),
            )
            &&& tidy::first_told(w, "date"@) == told_now(patch.date, tidy::first_told(v, "date"@))
            &&& tidy::all_told(w, "creator"@) == match patch.authors {
                Some(x) => creators_read::trimmed(x),
                None => tidy::all_told(v, "creator"@),
            }
            &&& tidy::refs(new) == tidy::refs(t)
            &&& tidy::has_package(new) == tidy::has_package(t)
        }),
{
    tidy::lemma_names_differ();
    lemma_fields();
    let a = metadata_edit::single_set(t, "title"@, patch.title);
    let b = metadata_edit::single_set(a, "language"@, patch.language);
    let c = metadata_edit::single_set(b, "publisher"@, patch.publisher);
    let d = metadata_edit::single_set(c, "date"@, patch.date);
    lemma_field_set(t, "title"@, patch.title);
    lemma_field_set(a, "language"@, patch.language);
    lemma_field_set(b, "publisher"@, patch.publisher);
    lemma_field_set(c, "date"@, patch.date);
    let e = match patch.asin {
        Some(x) => metadata_edit::spec_set_asin(d, x),
        None => d,
    };
    if let Some(x) = patch.asin {
        creators_read::lemma_set_asin(d, x);
    }
    if let Some(x) = patch.authors {
        creators_read::lemma_set_creators(e, x);
    }
    let new = metadata_edit::spec_rewrite_metadata(t, patch);
    assert(agree_besides(t, a, "title"@));
    assert(agree_besides(a, b, "language"@));
    assert(agree_besides(b, c, "publisher"@));
    assert(agree_besides(c, d, "date"@));
    assert(agree_besides(d, e, "identifier"@));
    assert(agree_besides(e, new, "creator"@));
    let n1 = "title"@;
    let n2 = "language"@;
    let n3 = "publisher"@;
    let n4 = "date"@;
    let n5 = "creator"@;
    assert(tidy::first_told(told(new), n1) == tidy::first_told(told(e), n1));
    assert(tidy::first_told(told(e), n1) == tidy::first_told(told(d), n1));
    assert(tidy::first_told(told(d), n1) == tidy::first_told(told(c), n1));
    assert(tidy::first_told(told(c), n1) == tidy::first_told(told(b), n1));
    assert(tidy::first_told(told(b), n1) == tidy::first_told(told(a), n1));
    assert(tidy::first_told(told(new), n2) == tidy::first_told(told(e), n2));
    assert(tidy::first_told(told(e), n2) == tidy::first_told(told(d), n2));
    assert(tidy::first_told(told(d), n2) == tidy::first_told(told(c), n2));
    assert(tidy::first_told(told(c), n2) == tidy::first_told(told(b), n2));
    assert(tidy::first_told(told(a), n2) == tidy::first_told(told(t), n2));
    assert(tidy::first_told(told(new), n3) == tidy::first_told(told(e), n3));
    assert(tidy::first_told(told(e), n3) == tidy::first_told(told(d), n3));
    assert(tidy::first_told(told(d), n3) == tidy::first_told(told(c), n3));
    assert(tidy::first_told(told(b), n3) == tidy::first_told(told(a), n3));
    assert(tidy::first_told(told(a), n3) == tidy::first_told(told(t), n3));
    assert(tidy::first_told(told(new), n4) == tidy::first_told(told(e), n4));
    assert(tidy::first_told(told(e), n4) == tidy::first_told(told(d), n4));
    assert(tidy::first_told(told(c), n4) == tidy::first_told(told(b), n4));
    assert(tidy::first_told(told(b), n4) == tidy::first_told(told(a), n4));
    assert(tidy::first_told(told(a), n4) == tidy::first_told(told(t), n4));
    assert(tidy::all_told(told(e), n5) == tidy::all_told(told(d), n5));
    assert(tidy::all_told(told(d), n5) == tidy::all_told(told(c), n5));
    assert(tidy::all_told(told(c), n5) == tidy::all_told(told(b), n5));
    assert(tidy::all_told(told(b), n5) == tidy::all_told(told(a), n5));
    assert(tidy::all_told(told(a), n5) == tidy::all_told(told(t), n5));
}

/// The metadata of a book once the patch is set: each field that the patch sets,
/// without white space around it, and every other as it was.
pub open spec fn is_patched(before: Book, after: Book, patch: Patch) -> bool {
    &&& after.title == match patch.title {
        Some(v) => text::spec_trim(v),
        None => before.title,
    }
    &&& after.language == match patch.language {
        Some(v) => text::spec_trim(v),
        None => before.language,
    }
    &&& after.publisher == match patch.publisher {
        Some(v) => Some(text::spec_trim(v)),
        None => before.publisher,
    }
    &&& after.date == match patch.date {
        Some(v) => Some(text::spec_trim(v)),
        None => before.date,
    }
    &&& after.authors == match patch.authors {
        Some(v) => creators_read::trimmed(v),
        None => before.authors,
    }
    &&& after.spine == before.spine
}

/// The metadata that is set is the metadata that is read: a plainly written
/// package document, once rewritten, is read to have every field of the patch,
/// and the others as before.
pub proof fn set_metadata_is_read_back(t: Seq<char>, patch: Patch)
    requires
        is_plain_opf(t),
        has_metadata_end(t),
        opf::spec_parse_opf(t) is Ok,
    ensures
        opf::spec_parse_opf(metadata_edit::spec_rewrite_metadata(t, patch)) matches Ok(b)
            && is_patched(opf::spec_parse_opf(t)->Ok_0, b, patch),
{
    let new = metadata_edit::spec_rewrite_metadata(t, patch);
    lemma_patched(t, patch);
    lemma_parsed(t);
    lemma_parsed(new);
}

/// The same of a book: once the patch is set in it, its package document is read
/// to have it. Nothing in the document asks for another encoding than UTF-8.
pub proof fn a_patched_book_is_read_back(p: Seq<Part>, path: Seq<char>, t: Seq<char>, patch: Patch)
    requires
        edit::spec_opf_path(p) == Ok::<Seq<char>, Fault>(path),
        path != "META-INF/container.xml"@,
        edit::spec_get(p, path) is Some,
        is_plain_opf(t),
        has_metadata_end(t),
        opf::spec_parse_opf(t) is Ok,
        codec::declares_utf8(
            vstd::utf8::encode_utf8(metadata_edit::spec_rewrite_metadata(t, patch)),
        ),
    ensures
        package::spec_package_doc(metadata_edit::patched(p, path, t, patch)) matches Ok(d)
            && d.path == path && is_patched(opf::spec_parse_opf(t)->Ok_0, d.book, patch),
{
    let new = metadata_edit::spec_rewrite_metadata(t, patch);
    let data = vstd::utf8::encode_utf8(new);
    set_metadata_is_read_back(t, patch);
    codec::written_text_is_read_back(new);
    edit::replacing_is_surgical(p, path, data, "META-INF/container.xml"@);
}

/// The EPUB that `edit_metadata` wrote is read to have what the patch says: the
/// archive is read back, its package document found where it was, and the fields
/// of the patch read from it.
pub proof fn an_edited_epub_is_read_back(
    bytes: Seq<u8>,
    p: Seq<Part>,
    path: Seq<char>,
    b: Seq<u8>,
    patch: Patch,
    out: Vec<u8>,
)
    requires
        metadata_edit::opened(bytes) == Ok::<(Seq<Part>, Seq<char>, Seq<u8>), Fault>((p, path, b)),
        path != "META-INF/container.xml"@,
        is_plain_opf(vstd::utf8::decode_utf8(b)),
        has_metadata_end(vstd::utf8::decode_utf8(b)),
        opf::spec_parse_opf(vstd::utf8::decode_utf8(b)) is Ok,
        codec::declares_utf8(
            vstd::utf8::encode_utf8(
                metadata_edit::spec_rewrite_metadata(vstd::utf8::decode_utf8(b), patch),
            ),
        ),
        edit::written(Ok(out), metadata_edit::patched(p, path, vstd::utf8::decode_utf8(b), patch)),
        archive::comes_back(
            edit::packed(metadata_edit::patched(p, path, vstd::utf8::decode_utf8(b), patch)),
            out@,
        ),
    ensures
        edit::spec_parse(out@) matches Some(q) && package::spec_package_doc(q) matches Ok(d) && d.path
            == path && is_patched(
            opf::spec_parse_opf(vstd::utf8::decode_utf8(b))->Ok_0,
            d.book,
            patch,
        ),
{
    let t = vstd::utf8::decode_utf8(b);
    let q = metadata_edit::patched(p, path, t, patch);
    let new = metadata_edit::spec_rewrite_metadata(t, patch);
    a_patched_book_is_read_back(p, path, t, patch);
    edit::replacing_is_surgical(p, path, vstd::utf8::encode_utf8(new), path);
    edit::no_member_is_a_directory(bytes, p);
    edit::lemma_names_kept(p, q);
    edit::a_written_package_is_read_back(q, out);
    package::packing_keeps_the_package_document(q);
}

} // verus!
