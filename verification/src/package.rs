//! The package document of an EPUB, found and read.
use vstd::prelude::*;

use crate::codec;
use crate::edit;
use crate::opf;
use crate::structure;
use crate::text;
use crate::archive::Part;
use crate::codec::{decode_text, percent_decode};
use crate::edit::EpubPackage;
use crate::error::{Error, Fault};
use crate::opf::{Book, OpfData, OpfItem, item_named_in, parse_opf};
use crate::structure::{basename, dir_of};
use crate::text::{chars_of, join2, string_of};

verus! {

/// The package document of a package: its path, its text, and what it says.
#[verifier::ext_equal]
pub struct Found {
    pub path: Seq<char>,
    pub text: Seq<char>,
    pub book: Book,
}

/// The package document of a package, with its path and its text.
pub struct PackageDoc {
    pub path: String,
    pub base: String,
    pub text: String,
    pub opf: OpfData,
}

impl View for PackageDoc {
    type V = Found;

    open spec fn view(&self) -> Found {
        Found { path: self.path@, text: self.text@, book: self.opf@ }
    }
}

impl Found {
    /// The directory of the package document, which its hrefs start from.
    pub open spec fn base(self) -> Seq<char> {
        structure::spec_dir_of(self.path)
    }
}

/// The package document of the members `p`.
pub open spec fn spec_package_doc(p: Seq<Part>) -> Result<Found, Fault> {
    match edit::spec_opf_path(p) {
        Err(f) => Err(f),
        Ok(path) => match edit::spec_opf_bytes(p) {
            Err(f) => Err(f),
            Ok(bytes) => match opf::spec_parse_opf(codec::text_in(bytes)) {
                Err(f) => Err(f),
                Ok(book) => Ok(Found { path, text: codec::text_in(bytes), book }),
            },
        },
    }
}

/// What a result with a package document says.
pub open spec fn doc_result(r: Result<PackageDoc, Error>) -> Result<Found, Fault> {
    match r {
        Ok(d) => Ok(d@),
        Err(e) => Err(e@),
    }
}

/// Finds and reads the package document.
pub fn package_doc(pkg: &EpubPackage) -> (r: Result<PackageDoc, Error>)
    ensures
        doc_result(r) == spec_package_doc(pkg@),
        r matches Ok(d) ==> d.base@ == d@.base(),
{
    let path = match pkg.opf_path() {
        Ok(p) => p,
        Err(e) => {
            return Err(e);
        },
    };
    let bytes = match pkg.opf_bytes() {
        Ok(b) => b,
        Err(e) => {
            return Err(e);
        },
    };
    let text = decode_text(bytes);
    match parse_opf(&text) {
        Ok(opf) => {
            let base = dir_of(&path);
            Ok(PackageDoc { path, base, text, opf })
        },
        Err(e) => Err(e),
    }
}

/// The zip path that an href of the package document names.
pub open spec fn spec_abs(base: Seq<char>, href: Seq<char>) -> Seq<char> {
    base + codec::spec_percent_decode(href)
}

/// The zip path that an href of the package document names.
pub fn abs_path(base: &str, href: &str) -> (r: String)
    ensures
        r@ == spec_abs(base@, href@),
{
    string_of(&join2(&chars_of(base), &chars_of(&percent_decode(href))))
}

/// The text of a member.
pub open spec fn spec_text(p: Seq<Part>, path: Seq<char>) -> Option<Seq<char>> {
    match edit::spec_get(p, path) {
        Some(b) => Some(codec::text_in(b)),
        None => None,
    }
}

/// The text of a member.
pub fn member_text(pkg: &EpubPackage, path: &str) -> (r: Option<String>)
    ensures
        text::opt_str(r) == spec_text(pkg@, path@),
{
    match pkg.get(path) {
        Some(b) => Some(decode_text(b)),
        None => None,
    }
}

/// The spine in reading order: of each document the zip path and the filename.
pub open spec fn spine_to(items: Seq<OpfItem>, spine: Seq<Seq<char>>, base: Seq<char>, n: int) -> Seq<
    (Seq<char>, Seq<char>),
>
    decreases n,
{
    if n <= 0 {
        Seq::empty()
    } else {
        let before = spine_to(items, spine, base, n - 1);
        match opf::item_named(items, spine[n - 1], 0) {
            Some(item) => {
                let abs = spec_abs(base, item.href);
                before.push((abs, structure::spec_basename(abs)))
            },
            None => before,
        }
    }
}

/// The spine in reading order: of each document the zip path and the filename,
/// which is what a link is matched against.
pub open spec fn spec_spine_documents(b: Book, base: Seq<char>) -> Seq<(Seq<char>, Seq<char>)> {
    spine_to(b.items, b.spine, base, b.spine.len() as int)
}

/// The spine in reading order: of each document the zip path and the filename.
pub fn spine_documents(opf: &OpfData, opf_base: &str) -> (r: Vec<(String, String)>)
    ensures
        edit::pairs(r@) == spec_spine_documents(opf@, opf_base@),
{
    let mut out: Vec<(String, String)> = Vec::new();
    assert(edit::pairs(out@) =~= Seq::<(Seq<char>, Seq<char>)>::empty());
    let mut i: usize = 0;
    while i < opf.spine_ids.len()
        invariant
            i <= opf.spine_ids@.len(),
            edit::pairs(out@) == spine_to(opf@.items, opf@.spine, opf_base@, i as int),
        decreases opf.spine_ids@.len() - i,
    {
        assert(opf@.spine[i as int] == opf.spine_ids@[i as int]@);
        if let Some(k) = item_named_in(&opf.manifest, &opf.spine_ids[i]) {
            let abs = abs_path(opf_base, &opf.manifest[k].href);
            let base = basename(&abs);
            let ghost before = edit::pairs(out@);
            let ghost x = (abs@, base@);
            out.push((abs, base));
            assert(edit::pairs(out@) =~= before.push(x));
        }
        i = i + 1;
    }
    out
}

/// A packed book has the package document of the book.
pub proof fn packing_keeps_the_package_document(p: Seq<Part>)
    requires
        spec_package_doc(p) is Ok,
    ensures
        spec_package_doc(edit::packed(p)) == spec_package_doc(p),
{
    edit::packing_keeps_the_contents(p, "META-INF/container.xml"@);
    edit::packing_keeps_the_contents(p, spec_package_doc(p)->Ok_0.path);
}

} // verus!
