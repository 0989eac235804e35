//! Finding where the volumes of a collection begin.
//!
//! A collection is several books in one file: each volume keeps its own cover, its own Contents page
//! and its own colophon. The repaired chapter list names the volumes among its top-level entries;
//! what remains is to tell them from the shared front and back matter listed beside them.
use vstd::prelude::*;

use crate::edit;
use crate::package;
use crate::page_shape;
use crate::series;
use crate::structure;
use crate::text;
use crate::toc;
use crate::toc_repair;
use crate::toc_shape;
use crate::volume_number;
use crate::archive::Part;
use crate::edit::EpubPackage;
use crate::error::{Error, Fault};
use crate::opf::{Book, OpfData};
use crate::package::{member_text, spine_documents};
use crate::page_shape::is_image_only_page;
use crate::series::{Candidate, Start, counted_labels, title_bearing_labels};
use crate::structure::{MIN_SECTION_CONTENTS_LINKS, dir_of, internal_links, strip_fragment};
use crate::text::{add_text, chars_of, list_has, same, str_is};
use crate::toc::{Toc, TocEntry, flatten};
use crate::toc_repair::{file_names, propose_from_pkg, read_book_of};
use crate::toc_shape::place_in_of;
use crate::volume_number::{Number, ONE, volume_number};

verus! {

/// How a volume's number was arrived at.
#[derive(Debug, Clone, Copy, PartialEq, Eq, Structural)]
pub enum Numbering {
    /// The volume's own label states it.
    Label,
    /// The label states none, so the volume takes the number after its predecessor's.
    Sequence,
}

/// Where one volume of a collection begins. A volume's span runs to the next cut, and the last runs
/// to the end of the spine.
#[derive(Debug, Clone, PartialEq)]
pub struct Cut {
    /// Spine index of the volume's first document.
    pub spine_index: usize,
    /// Spine documents the volume spans, its own first document included.
    pub documents: usize,
    /// What the collection's own navigation calls this volume.
    pub label: String,
    /// The volume's own cover page, as an absolute zip path; none for a volume that opens on text.
    pub cover: Option<String>,
    /// The volume's number within the collection.
    pub number: Number,
    /// Where the number came from.
    pub numbering: Numbering,
}

/// What a cut says.
#[verifier::ext_equal]
pub struct CutAt {
    pub spine_index: int,
    pub documents: int,
    pub label: Seq<char>,
    pub cover: Option<Seq<char>>,
    pub number: Number,
    pub numbering: Numbering,
}

impl View for Cut {
    type V = CutAt;

    open spec fn view(&self) -> CutAt {
        CutAt {
            spine_index: self.spine_index as int,
            documents: self.documents as int,
            label: self.label@,
            cover: text::opt_str(self.cover),
            number: self.number,
            numbering: self.numbering,
        }
    }
}

pub open spec fn cuts_said(v: Seq<Cut>) -> Seq<CutAt> {
    v.map_values(|c: Cut| c@)
}

// ---------------------------------------------------------------- numbers

/// The number that follows `n`.
pub open spec fn counted_on(n: Number) -> Number {
    if n.billionths <= u128::MAX - ONE {
        Number { billionths: (n.billionths + ONE) as u128 }
    } else {
        n
    }
}

/// The number of a volume behind one with the number `previous`, the `index`-th of the collection.
/// What its label states is believed only where it continues the numbering: a number that goes back
/// is one that happens to stand in the title.
pub open spec fn number_behind(
    previous: Option<Number>,
    label: Seq<char>,
    index: int,
    stated: Option<Number>,
) -> (Number, Numbering) {
    let read = match stated {
        Some(n) => Some(n),
        None => match volume_number::number_in(label) {
            Some(n) => Some(Number { billionths: n as u128 }),
            None => None,
        },
    };
    match (read, previous) {
        (Some(n), None) => (n, Numbering::Label),
        (Some(n), Some(p)) if n.billionths > p.billionths => (n, Numbering::Label),
        (_, Some(p)) => (counted_on(p), Numbering::Sequence),
        (None, None) => (volume_number::whole(index + 1), Numbering::Sequence),
    }
}

/// The number of the volume that `label` names, behind `previous`.
pub fn number_after(previous: Option<&Cut>, label: &str, index: usize, stated: Option<Number>) -> (r:
    (Number, Numbering))
    ensures
        r == number_behind(
            match previous {
                Some(c) => Some(c.number),
                None => None,
            },
            label@,
            index as int,
            stated,
        ),
{
    let read = match stated {
        Some(n) => Some(n),
        None => volume_number(label),
    };
    match previous {
        None => match read {
            Some(n) => (n, Numbering::Label),
            None => (
                Number { billionths: (index as u128 + 1) * ONE },
                Numbering::Sequence,
            ),
        },
        Some(c) => {
            let p = c.number;
            if let Some(n) = read {
                if n.billionths > p.billionths {
                    return (n, Numbering::Label);
                }
            }
            if p.billionths <= u128::MAX - ONE {
                (Number { billionths: p.billionths + ONE }, Numbering::Sequence)
            } else {
                (p, Numbering::Sequence)
            }
        },
    }
}

// ---------------------------------------------------------------- candidates

/// The first place from `i` on of the document in the spine.
pub open spec fn first_place(spine: Seq<(Seq<char>, Seq<char>)>, doc: Seq<char>, i: int) -> Option<int>
    decreases spine.len() - i,
{
    if i < 0 || i >= spine.len() {
        None
    } else if spine[i].0 == doc {
        Some(i)
    } else {
        first_place(spine, doc, i + 1)
    }
}

fn first_place_of(spine: &Vec<(String, String)>, doc: &str) -> (r: Option<usize>)
    ensures
        text::pos(r) == first_place(edit::pairs(spine@), doc@, 0),
        r matches Some(k) ==> k < spine@.len(),
{
    let ghost all = edit::pairs(spine@);
    let n = spine.len();
    assert(all.len() == n);
    let mut i: usize = 0;
    while i < n
        invariant
            i <= n,
            n == spine@.len(),
            all == edit::pairs(spine@),
            all.len() == n,
            first_place(all, doc@, i as int) == first_place(all, doc@, 0),
        decreases n - i,
    {
        assert(all[i as int] == (spine@[i as int].0@, spine@[i as int].1@));
        if str_is(&spine[i].0, doc) {
            return Some(i);
        }
        i += 1;
    }
    None
}

/// A candidate has the place.
pub open spec fn has_place(v: Seq<(int, Seq<char>)>, k: int) -> bool {
    exists|i: int| 0 <= i < v.len() && (#[trigger] v[i]).0 == k
}

/// `v`, in order of place, with `x` before the first from `i` on that is behind it.
pub open spec fn with_candidate(v: Seq<(int, Seq<char>)>, x: (int, Seq<char>), i: int) -> Seq<
    (int, Seq<char>),
>
    decreases v.len() - i,
{
    if i < 0 || i >= v.len() {
        v.push(x)
    } else if v[i].0 > x.0 {
        v.subrange(0, i).push(x) + v.subrange(i, v.len() as int)
    } else {
        with_candidate(v, x, i + 1)
    }
}

/// The candidates among the first `n` top-level entries, in reading order: one for each document of
/// the spine but the first, which is the collection's own. Where two entries name one document, the
/// first keeps the naming.
pub open spec fn candidates_to(toc: Seq<Toc>, spine: Seq<(Seq<char>, Seq<char>)>, n: int) -> Seq<
    (int, Seq<char>),
>
    decreases n,
{
    if n <= 0 {
        Seq::empty()
    } else {
        let before = candidates_to(toc, spine, n - 1);
        match first_place(spine, toc_shape::document(toc[n - 1].href), 0) {
            Some(k) if k != 0 && !has_place(before, k) => with_candidate(
                before,
                (k, toc[n - 1].title),
                0,
            ),
            _ => before,
        }
    }
}

/// The candidates stand in the order of the spine, behind its first document.
pub open spec fn ascending(v: Seq<(int, Seq<char>)>, n: int) -> bool {
    &&& forall|i: int| 0 <= i < v.len() ==> 1 <= (#[trigger] v[i]).0 < n
    &&& forall|i: int, j: int| 0 <= i < j < v.len() ==> (#[trigger] v[i]).0 < (#[trigger] v[j]).0
}

proof fn lemma_with_candidate(v: Seq<(int, Seq<char>)>, x: (int, Seq<char>), i: int, n: int)
    requires
        ascending(v, n),
        1 <= x.0 < n,
        !has_place(v, x.0),
        0 <= i <= v.len(),
        forall|j: int| 0 <= j < i ==> (#[trigger] v[j]).0 < x.0,
    ensures
        ascending(with_candidate(v, x, i), n),
    decreases v.len() - i,
{
    if i < v.len() && v[i].0 <= x.0 {
        assert(v[i].0 != x.0);
        lemma_with_candidate(v, x, i + 1, n);
    }
}

proof fn lemma_first_place(spine: Seq<(Seq<char>, Seq<char>)>, doc: Seq<char>, i: int)
    ensures
        first_place(spine, doc, i) matches Some(k) ==> 0 <= k < spine.len(),
    decreases spine.len() - i,
{
    if 0 <= i < spine.len() {
        lemma_first_place(spine, doc, i + 1);
    }
}

/// The candidates are in the order of the spine, whatever order the chapter list has.
pub proof fn candidates_are_in_reading_order(
    toc: Seq<Toc>,
    spine: Seq<(Seq<char>, Seq<char>)>,
    n: int,
)
    ensures
        ascending(candidates_to(toc, spine, n), spine.len() as int),
    decreases n,
{
    if n > 0 {
        candidates_are_in_reading_order(toc, spine, n - 1);
        let before = candidates_to(toc, spine, n - 1);
        let doc = toc_shape::document(toc[n - 1].href);
        lemma_first_place(spine, doc, 0);
        if let Some(k) = first_place(spine, doc, 0) {
            if k != 0 && !has_place(before, k) {
                lemma_with_candidate(before, (k, toc[n - 1].title), 0, spine.len() as int);
            }
        }
    }
}

fn place_taken(v: &Vec<Candidate>, k: usize) -> (r: bool)
    ensures
        r == has_place(series::candidates_said(v@), k as int),
{
    let ghost all = series::candidates_said(v@);
    let n = v.len();
    assert(all.len() == n);
    let mut i: usize = 0;
    while i < n
        invariant
            i <= n,
            n == v@.len(),
            all == series::candidates_said(v@),
            all.len() == n,
            forall|j: int| 0 <= j < i ==> (#[trigger] all[j]).0 != k,
        decreases n - i,
    {
        assert(all[i as int] == series::candidate(v@[i as int]));
        if v[i].spine_index == k {
            return true;
        }
        i += 1;
    }
    false
}

fn add_candidate(v: &mut Vec<Candidate>, x: Candidate)
    ensures
        series::candidates_said(final(v)@) == with_candidate(
            series::candidates_said(old(v)@),
            series::candidate(x),
            0,
        ),
{
    let ghost all = series::candidates_said(v@);
    let ghost xv = series::candidate(x);
    let n = v.len();
    let mut i: usize = 0;
    while i < n && v[i].spine_index <= x.spine_index
        invariant
            i <= n == v@.len() == all.len(),
            v@ == old(v)@,
            all == series::candidates_said(v@),
            xv == series::candidate(x),
            with_candidate(all, xv, 0) == with_candidate(all, xv, i as int),
        decreases n - i,
    {
        assert(all[i as int] == series::candidate(v@[i as int]));
        i += 1;
    }
    if i < n {
        assert(all[i as int] == series::candidate(v@[i as int]));
    }
    v.insert(i, x);
    assert(series::candidates_said(v@) =~= with_candidate(all, xv, i as int));
}

/// The top-level entries of the chapter list that open a document of the spine, in reading order.
pub fn candidates(toc: &Vec<TocEntry>, spine: &Vec<(String, String)>) -> (r: Vec<Candidate>)
    ensures
        series::candidates_said(r@) == candidates_to(
            toc::tocs(toc@),
            edit::pairs(spine@),
            toc@.len() as int,
        ),
{
    let ghost all = toc::tocs(toc@);
    let ghost ss = edit::pairs(spine@);
    proof {
        toc::lemma_tocs(toc@);
    }
    let mut out: Vec<Candidate> = Vec::new();
    assert(series::candidates_said(out@) =~= Seq::empty());
    let n = toc.len();
    let mut i: usize = 0;
    while i < n
        invariant
            i <= n,
            n == toc@.len(),
            all == toc::tocs(toc@),
            ss == edit::pairs(spine@),
            forall|k: int| 0 <= k < toc@.len() ==> #[trigger] all[k] == toc::toc(toc@[k]),
            series::candidates_said(out@) == candidates_to(all, ss, i as int),
        decreases n - i,
    {
        assert(all[i as int] == toc::toc(toc@[i as int]));
        let doc = strip_fragment(&toc[i].href);
        if let Some(k) = first_place_of(spine, &doc) {
            if k != 0 && !place_taken(&out, k) {
                add_candidate(
                    &mut out,
                    Candidate { spine_index: k, label: toc[i].title.clone() },
                );
            }
        }
        i += 1;
    }
    out
}

// ---------------------------------------------------------------- pages

/// The document is a page of pictures: how a volume's cover is authored.
pub open spec fn is_cover(p: Seq<Part>, abs: Seq<char>) -> bool {
    package::spec_text(p, abs) matches Some(t) && page_shape::spec_image_only(t)
}

fn is_cover_page(pkg: &EpubPackage, abs: &str) -> (r: bool)
    ensures
        r == is_cover(pkg@, abs@),
{
    match member_text(pkg, abs) {
        Some(t) => is_image_only_page(&t),
        None => false,
    }
}

/// The document's own path, where it is a page of pictures.
pub open spec fn cover_at(p: Seq<Part>, abs: Seq<char>) -> Option<Seq<char>> {
    if is_cover(p, abs) {
        Some(abs)
    } else {
        None
    }
}

fn cover_page(pkg: &EpubPackage, abs: &String) -> (r: Option<String>)
    ensures
        text::opt_str(r) == cover_at(pkg@, abs@),
{
    if is_cover_page(pkg, abs) {
        Some(abs.clone())
    } else {
        None
    }
}

/// The distinct documents of the first `n` links.
pub open spec fn distinct_to(links: Seq<(Seq<char>, Seq<char>)>, n: int) -> Seq<Seq<char>>
    decreases n,
{
    if n <= 0 {
        Seq::empty()
    } else {
        let before = distinct_to(links, n - 1);
        let doc = toc_shape::document(links[n - 1].1);
        if before.contains(doc) {
            before
        } else {
            before.push(doc)
        }
    }
}

/// The distinct documents of the spine that the document at `i` links to.
pub open spec fn linked(p: Seq<Part>, spine: Seq<(Seq<char>, Seq<char>)>, i: int) -> Seq<Seq<char>> {
    match package::spec_text(p, spine[i].0) {
        Some(t) => {
            let links = structure::links_from(
                t,
                structure::spec_dir_of(spine[i].0),
                toc_repair::files_of(spine),
                spine[i].1,
                0,
            );
            distinct_to(links, links.len() as int)
        },
        None => Seq::empty(),
    }
}

/// The distinct documents of the spine that the document at `i` links to.
fn linked_documents(
    pkg: &EpubPackage,
    spine: &Vec<(String, String)>,
    names: &Vec<String>,
    i: usize,
) -> (r: Vec<Vec<char>>)
    requires
        i < spine@.len(),
        text::strs(names@) == toc_repair::files_of(edit::pairs(spine@)),
    ensures
        text::texts(r@) == linked(pkg@, edit::pairs(spine@), i as int),
{
    let ghost ss = edit::pairs(spine@);
    assert(ss[i as int] == (spine@[i as int].0@, spine@[i as int].1@));
    let mut out: Vec<Vec<char>> = Vec::new();
    assert(text::texts(out@) =~= Seq::empty());
    let t = match member_text(pkg, &spine[i].0) {
        Some(t) => t,
        None => {
            return out;
        },
    };
    let dir = dir_of(&spine[i].0);
    let links = internal_links(&t, &dir, names, &spine[i].1);
    let ghost all = edit::pairs(links@);
    let n = links.len();
    assert(all.len() == n);
    let mut k: usize = 0;
    while k < n
        invariant
            k <= n,
            n == links@.len(),
            all == edit::pairs(links@),
            text::texts(out@) == distinct_to(all, k as int),
        decreases n - k,
    {
        assert(all[k as int] == (links@[k as int].0@, links@[k as int].1@));
        let doc = chars_of(&strip_fragment(&links[k].1));
        if !list_has(&out, &doc) {
            add_text(&mut out, doc);
        }
        k += 1;
    }
    out
}

/// A document in `i..to` is a Contents page: it links to several others.
pub open spec fn owns_contents(
    p: Seq<Part>,
    spine: Seq<(Seq<char>, Seq<char>)>,
    i: int,
    to: int,
) -> bool
    decreases to - i,
{
    i < to && (linked(p, spine, i).len() >= MIN_SECTION_CONTENTS_LINKS || owns_contents(
        p,
        spine,
        i + 1,
        to,
    ))
}

fn owns_contents_page(
    pkg: &EpubPackage,
    spine: &Vec<(String, String)>,
    names: &Vec<String>,
    from: usize,
    to: usize,
) -> (r: bool)
    requires
        to <= spine@.len(),
        text::strs(names@) == toc_repair::files_of(edit::pairs(spine@)),
    ensures
        r == owns_contents(pkg@, edit::pairs(spine@), from as int, to as int),
{
    let mut i: usize = from;
    while i < to
        invariant
            to <= spine@.len(),
            text::strs(names@) == toc_repair::files_of(edit::pairs(spine@)),
            owns_contents(pkg@, edit::pairs(spine@), i as int, to as int) == owns_contents(
                pkg@,
                edit::pairs(spine@),
                from as int,
                to as int,
            ),
        decreases to - i,
    {
        let docs = linked_documents(pkg, spine, names, i);
        assert(text::texts(docs@).len() == docs@.len());
        if docs.len() >= MIN_SECTION_CONTENTS_LINKS {
            return true;
        }
        i += 1;
    }
    false
}

// ---------------------------------------------------------------- starts

/// The candidates among the first `n` that open on a page of pictures.
pub open spec fn covers_to(
    p: Seq<Part>,
    spine: Seq<(Seq<char>, Seq<char>)>,
    v: Seq<(int, Seq<char>)>,
    n: int,
) -> Seq<(int, Option<Number>)>
    decreases n,
{
    if n <= 0 {
        Seq::empty()
    } else if is_cover(p, spine[v[n - 1].0].0) {
        covers_to(p, spine, v, n - 1).push((n - 1, None))
    } else {
        covers_to(p, spine, v, n - 1)
    }
}

/// The place of the `n`-th start, or the end of the spine.
pub open spec fn place_at(
    v: Seq<(int, Seq<char>)>,
    starts: Seq<(int, Option<Number>)>,
    n: int,
    end: int,
) -> int {
    if n < starts.len() {
        v[starts[n].0].0
    } else {
        end
    }
}

/// How many of the first `n` starts own a Contents page somewhere in the span they open.
pub open spec fn owning_to(
    p: Seq<Part>,
    spine: Seq<(Seq<char>, Seq<char>)>,
    v: Seq<(int, Seq<char>)>,
    starts: Seq<(int, Option<Number>)>,
    n: int,
) -> int
    decreases n,
{
    if n <= 0 {
        0
    } else {
        owning_to(p, spine, v, starts, n - 1) + if owns_contents(
            p,
            spine,
            place_at(v, starts, n - 1, spine.len() as int),
            place_at(v, starts, n, spine.len() as int),
        ) {
            1int
        } else {
            0
        }
    }
}

/// Cover-shaped starts divide a collection: most of them own a Contents page. That is one question
/// about the book: a book of pictures has none that do, and a real collection may have a volume
/// without one.
pub open spec fn is_collection(
    p: Seq<Part>,
    spine: Seq<(Seq<char>, Seq<char>)>,
    v: Seq<(int, Seq<char>)>,
    starts: Seq<(int, Option<Number>)>,
) -> bool {
    owning_to(p, spine, v, starts, starts.len() as int) * 2 > starts.len()
}

/// The document is one of the spine's `from..to`.
pub open spec fn stands_in(
    spine: Seq<(Seq<char>, Seq<char>)>,
    from: int,
    to: int,
    doc: Seq<char>,
) -> bool {
    exists|i: int| from <= i < to && (#[trigger] spine[i]).0 == doc
}

/// Every document is one of the spine's `from..to`.
pub open spec fn within(
    docs: Seq<Seq<char>>,
    spine: Seq<(Seq<char>, Seq<char>)>,
    from: int,
    to: int,
) -> bool {
    forall|k: int|
        0 <= k < docs.len() ==> stands_in(spine, from, to, #[trigger] docs[k])
}

/// The candidate at `n` opens on a Contents page of its own span: all that it links to lies before
/// the next entry of the chapter list.
pub open spec fn opens_on_contents(
    p: Seq<Part>,
    spine: Seq<(Seq<char>, Seq<char>)>,
    v: Seq<(int, Seq<char>)>,
    n: int,
) -> bool {
    let next = if n + 1 < v.len() {
        v[n + 1].0
    } else {
        spine.len() as int
    };
    let docs = linked(p, spine, v[n].0);
    docs.len() >= MIN_SECTION_CONTENTS_LINKS && within(docs, spine, v[n].0, next)
}

/// The candidates among the first `n` that open on a Contents page of their own span.
pub open spec fn contents_to(
    p: Seq<Part>,
    spine: Seq<(Seq<char>, Seq<char>)>,
    v: Seq<(int, Seq<char>)>,
    n: int,
) -> Seq<(int, Option<Number>)>
    decreases n,
{
    if n <= 0 {
        Seq::empty()
    } else if opens_on_contents(p, spine, v, n - 1) {
        contents_to(p, spine, v, n - 1).push((n - 1, None))
    } else {
        contents_to(p, spine, v, n - 1)
    }
}

/// How many of the first `n` entries of the chapter list stand behind `from` and before `to`.
pub open spec fn inside_to(
    flat: Seq<(Seq<char>, Seq<char>)>,
    spine: Seq<(Seq<char>, Seq<char>)>,
    from: int,
    to: int,
    n: int,
) -> int
    decreases n,
{
    if n <= 0 {
        0
    } else {
        inside_to(flat, spine, from, to, n - 1) + match toc_shape::place_in(
            spine,
            toc_shape::document(flat[n - 1].1),
            spine.len() as int,
        ) {
            Some(k) if from < k < to => 1int,
            _ => 0,
        }
    }
}

/// The first `n` starts with a volume under them: the chapter list names entries inside the span
/// that each opens. A chapter is one document that the list names once; a volume is a run of them.
pub open spec fn carried_to(
    flat: Seq<(Seq<char>, Seq<char>)>,
    spine: Seq<(Seq<char>, Seq<char>)>,
    v: Seq<(int, Seq<char>)>,
    starts: Seq<(int, Option<Number>)>,
    n: int,
) -> Seq<(int, Option<Number>)>
    decreases n,
{
    if n <= 0 {
        Seq::empty()
    } else {
        let before = carried_to(flat, spine, v, starts, n - 1);
        if inside_to(
            flat,
            spine,
            place_at(v, starts, n - 1, spine.len() as int),
            place_at(v, starts, n, spine.len() as int),
            flat.len() as int,
        ) >= MIN_SECTION_CONTENTS_LINKS {
            before.push(starts[n - 1])
        } else {
            before
        }
    }
}

/// The candidates that the chapter list names as a series: by a running count of at least three,
/// else by the work's own name, repeated. Each has a volume under it.
pub open spec fn named_series(
    flat: Seq<(Seq<char>, Seq<char>)>,
    spine: Seq<(Seq<char>, Seq<char>)>,
    v: Seq<(int, Seq<char>)>,
    title: Seq<char>,
    authors: Seq<Seq<char>>,
) -> Seq<(int, Option<Number>)> {
    let counted = series::counts_to(v, v.len() as int);
    let a = carried_to(flat, spine, v, counted, counted.len() as int);
    let titles = series::titled(v, title, authors);
    let b = carried_to(flat, spine, v, titles, titles.len() as int);
    if a.len() >= 3 {
        a
    } else if b.len() >= 2 {
        b
    } else {
        Seq::empty()
    }
}

/// The candidates that are starts of volumes: those with a cover of their own, where they hold up
/// as a collection; else those with a Contents page of their own span; else those that the list
/// names as a series.
pub open spec fn starts_of(
    p: Seq<Part>,
    spine: Seq<(Seq<char>, Seq<char>)>,
    v: Seq<(int, Seq<char>)>,
    flat: Seq<(Seq<char>, Seq<char>)>,
    title: Seq<char>,
    authors: Seq<Seq<char>>,
) -> Seq<(int, Option<Number>)> {
    let covers = covers_to(p, spine, v, v.len() as int);
    let contents = contents_to(p, spine, v, v.len() as int);
    if is_collection(p, spine, v, covers) {
        covers
    } else if contents.len() >= 2 {
        contents
    } else {
        named_series(flat, spine, v, title, authors)
    }
}

// ---------------------------------------------------------------- cuts

/// Back from `first` over pages of pictures, no further than `floor`.
pub open spec fn walked_back(
    p: Seq<Part>,
    spine: Seq<(Seq<char>, Seq<char>)>,
    first: int,
    floor: int,
) -> int
    decreases first - floor,
{
    if first > floor && is_cover(p, spine[first - 1].0) {
        walked_back(p, spine, first - 1, floor)
    } else {
        first
    }
}

/// Where the first `n` volumes begin if a cover before the page that is named belongs to the
/// volume. Never back into the volume before, and never onto the collection's first document.
pub open spec fn fronted_to(
    p: Seq<Part>,
    spine: Seq<(Seq<char>, Seq<char>)>,
    named: Seq<int>,
    n: int,
) -> Seq<int>
    decreases n,
{
    if n <= 0 {
        Seq::empty()
    } else {
        let before = fronted_to(p, spine, named, n - 1);
        let floor = if n == 1 {
            1
        } else {
            before[n - 2] + 1
        };
        let i = named[n - 1];
        before.push(
            if is_cover(p, spine[i].0) {
                i
            } else {
                walked_back(p, spine, i, floor)
            },
        )
    }
}

/// How many of the first `n` begin before the page that is named.
pub open spec fn moved_to(fronted: Seq<int>, named: Seq<int>, n: int) -> int
    decreases n,
{
    if n <= 0 {
        0
    } else {
        moved_to(fronted, named, n - 1) + if fronted[n - 1] < named[n - 1] {
            1int
        } else {
            0
        }
    }
}

/// Where the volumes begin: at the covers before the named pages, where most volumes gain one by
/// it; else at the named pages.
pub open spec fn first_documents(
    p: Seq<Part>,
    spine: Seq<(Seq<char>, Seq<char>)>,
    named: Seq<int>,
) -> Seq<int> {
    let fronted = fronted_to(p, spine, named, named.len() as int);
    if moved_to(fronted, named, named.len() as int) * 2 > named.len() {
        fronted
    } else {
        named
    }
}

/// The places of the starts.
pub open spec fn places(v: Seq<(int, Seq<char>)>, starts: Seq<(int, Option<Number>)>) -> Seq<int> {
    Seq::new(starts.len(), |i: int| v[starts[i].0].0)
}

/// The first `n` cuts.
pub open spec fn cuts_to(
    p: Seq<Part>,
    spine: Seq<(Seq<char>, Seq<char>)>,
    v: Seq<(int, Seq<char>)>,
    starts: Seq<(int, Option<Number>)>,
    n: int,
) -> Seq<CutAt>
    decreases n,
{
    if n <= 0 {
        Seq::empty()
    } else {
        let before = cuts_to(p, spine, v, starts, n - 1);
        let first = first_documents(p, spine, places(v, starts));
        let from = first[n - 1];
        let to = if n < first.len() {
            first[n]
        } else {
            spine.len() as int
        };
        let label = v[starts[n - 1].0].1;
        let (number, numbering) = number_behind(
            if n == 1 {
                None
            } else {
                Some(before[n - 2].number)
            },
            label,
            n - 1,
            starts[n - 1].1,
        );
        before.push(
            CutAt {
                spine_index: from,
                documents: to - from,
                label,
                cover: cover_at(p, spine[from].0),
                number,
                numbering,
            },
        )
    }
}

/// The cuts that a package's chapter list `toc` evidences: none for fewer than two volumes.
pub open spec fn cuts_in(p: Seq<Part>, b: Book, base: Seq<char>, toc: Seq<Toc>) -> Seq<CutAt> {
    let spine = package::spec_spine_documents(b, base);
    let v = candidates_to(toc, spine, toc.len() as int);
    let starts = starts_of(
        p,
        spine,
        v,
        toc::spec_flatten(toc),
        b.title,
        b.authors,
    );
    if starts.len() < 2 {
        Seq::empty()
    } else {
        cuts_to(p, spine, v, starts, starts.len() as int)
    }
}

// ---------------------------------------------------------------- reading a collection

/// The starts are candidates, in order.
proof fn lemma_covers_in_order(
    p: Seq<Part>,
    spine: Seq<(Seq<char>, Seq<char>)>,
    v: Seq<(int, Seq<char>)>,
    n: int,
)
    ensures
        series::in_order(covers_to(p, spine, v, n), n),
        series::in_order(contents_to(p, spine, v, n), n),
    decreases n,
{
    if n > 0 {
        lemma_covers_in_order(p, spine, v, n - 1);
    }
}

proof fn lemma_carried_in_order(
    flat: Seq<(Seq<char>, Seq<char>)>,
    spine: Seq<(Seq<char>, Seq<char>)>,
    v: Seq<(int, Seq<char>)>,
    starts: Seq<(int, Option<Number>)>,
    n: int,
)
    requires
        series::in_order(starts, v.len() as int),
        0 <= n <= starts.len(),
    ensures
        series::in_order(carried_to(flat, spine, v, starts, n), v.len() as int),
        forall|i: int|
            0 <= i < carried_to(flat, spine, v, starts, n).len() && n < starts.len() ==> (
            #[trigger] carried_to(flat, spine, v, starts, n)[i]).0 < starts[n].0,
    decreases n,
{
    if n > 0 {
        lemma_carried_in_order(flat, spine, v, starts, n - 1);
    }
}

/// The starts of volumes are candidates, each behind the one before it.
pub proof fn starts_are_in_reading_order(
    p: Seq<Part>,
    spine: Seq<(Seq<char>, Seq<char>)>,
    v: Seq<(int, Seq<char>)>,
    flat: Seq<(Seq<char>, Seq<char>)>,
    title: Seq<char>,
    authors: Seq<Seq<char>>,
)
    ensures
        series::in_order(starts_of(p, spine, v, flat, title, authors), v.len() as int),
{
    lemma_covers_in_order(p, spine, v, v.len() as int);
    series::counted_labels_are_in_order(v, v.len() as int);
    series::titled_labels_are_in_order(v, title, authors);
    let counted = series::counts_to(v, v.len() as int);
    let titles = series::titled(v, title, authors);
    lemma_carried_in_order(flat, spine, v, counted, counted.len() as int);
    lemma_carried_in_order(flat, spine, v, titles, titles.len() as int);
}

proof fn lemma_walked_back(
    p: Seq<Part>,
    spine: Seq<(Seq<char>, Seq<char>)>,
    first: int,
    floor: int,
)
    requires
        floor <= first,
    ensures
        floor <= walked_back(p, spine, first, floor) <= first,
    decreases first - floor,
{
    if first > floor && is_cover(p, spine[first - 1].0) {
        lemma_walked_back(p, spine, first - 1, floor);
    }
}

/// Places in the spine, behind its first document, each behind the one before it.
pub open spec fn climbing(v: Seq<int>, n: int) -> bool {
    &&& forall|i: int| 0 <= i < v.len() ==> 1 <= #[trigger] v[i] < n
    &&& forall|i: int, j: int| 0 <= i < j < v.len() ==> #[trigger] v[i] < #[trigger] v[j]
}

proof fn lemma_fronted(
    p: Seq<Part>,
    spine: Seq<(Seq<char>, Seq<char>)>,
    named: Seq<int>,
    n: int,
)
    requires
        climbing(named, spine.len() as int),
        0 <= n <= named.len(),
    ensures
        fronted_to(p, spine, named, n).len() == n,
        climbing(fronted_to(p, spine, named, n), spine.len() as int),
        forall|i: int| 0 <= i < n ==> #[trigger] fronted_to(p, spine, named, n)[i] <= named[i],
    decreases n,
{
    if n > 0 {
        lemma_fronted(p, spine, named, n - 1);
        let before = fronted_to(p, spine, named, n - 1);
        let floor = if n == 1 {
            1
        } else {
            before[n - 2] + 1
        };
        if n > 1 {
            assert(before[n - 2] <= named[n - 2]);
            assert(named[n - 2] < named[n - 1]);
        }
        assert(floor <= named[n - 1]);
        lemma_walked_back(p, spine, named[n - 1], floor);
        let x = fronted_to(p, spine, named, n)[n - 1];
        assert(floor <= x <= named[n - 1]);
        assert forall|i: int| 0 <= i < n - 1 implies #[trigger] before[i] < x by {
            if i < n - 2 {
                assert(before[i] < before[n - 2]);
            }
        }
    }
}

proof fn lemma_first_documents(
    p: Seq<Part>,
    spine: Seq<(Seq<char>, Seq<char>)>,
    v: Seq<(int, Seq<char>)>,
    starts: Seq<(int, Option<Number>)>,
)
    requires
        ascending(v, spine.len() as int),
        series::in_order(starts, v.len() as int),
    ensures
        climbing(places(v, starts), spine.len() as int),
        first_documents(p, spine, places(v, starts)).len() == starts.len(),
        climbing(first_documents(p, spine, places(v, starts)), spine.len() as int),
{
    let named = places(v, starts);
    assert(climbing(named, spine.len() as int)) by {
        assert forall|i: int| 0 <= i < named.len() implies 1 <= #[trigger] named[i] < spine.len() by {
            assert(0 <= starts[i].0 < v.len());
            assert(1 <= v[starts[i].0].0 < spine.len());
        }
        assert forall|i: int, j: int| 0 <= i < j < named.len() implies #[trigger] named[i]
            < #[trigger] named[j] by {
            assert(starts[i].0 < starts[j].0);
            assert(v[starts[i].0].0 < v[starts[j].0].0);
        }
    }
    lemma_fronted(p, spine, named, named.len() as int);
}

proof fn lemma_cuts_len(
    p: Seq<Part>,
    spine: Seq<(Seq<char>, Seq<char>)>,
    v: Seq<(int, Seq<char>)>,
    starts: Seq<(int, Option<Number>)>,
    n: int,
)
    requires
        0 <= n <= starts.len(),
        first_documents(p, spine, places(v, starts)).len() == starts.len(),
    ensures
        cuts_to(p, spine, v, starts, n).len() == n,
        forall|i: int|
            0 <= i < n ==> (#[trigger] cuts_to(p, spine, v, starts, n)[i]).spine_index
                == first_documents(p, spine, places(v, starts))[i]
                && cuts_to(p, spine, v, starts, n)[i].documents == (if i + 1 < starts.len() {
                first_documents(p, spine, places(v, starts))[i + 1]
            } else {
                spine.len() as int
            }) - first_documents(p, spine, places(v, starts))[i],
    decreases n,
{
    if n > 0 {
        lemma_cuts_len(p, spine, v, starts, n - 1);
    }
}

/// The cuts tile the book behind the collection's own front matter: each has a document, each ends
/// where the next begins, and the last ends with the spine. None takes the first document.
pub proof fn cuts_tile_the_book(p: Seq<Part>, b: Book, base: Seq<char>, toc: Seq<Toc>, i: int)
    requires
        0 <= i < cuts_in(p, b, base, toc).len(),
    ensures
        ({
            let cuts = cuts_in(p, b, base, toc);
            let spine = package::spec_spine_documents(b, base);
            &&& cuts[i].spine_index >= 1
            &&& cuts[i].documents >= 1
            &&& cuts[i].spine_index + cuts[i].documents == if i + 1 < cuts.len() {
                cuts[i + 1].spine_index
            } else {
                spine.len() as int
            }
        }),
{
    let spine = package::spec_spine_documents(b, base);
    let v = candidates_to(toc, spine, toc.len() as int);
    let flat = toc::spec_flatten(toc);
    let starts = starts_of(p, spine, v, flat, b.title, b.authors);
    candidates_are_in_reading_order(toc, spine, toc.len() as int);
    starts_are_in_reading_order(p, spine, v, flat, b.title, b.authors);
    lemma_first_documents(p, spine, v, starts);
    lemma_cuts_len(p, spine, v, starts, starts.len() as int);
    let first = first_documents(p, spine, places(v, starts));
    assert(1 <= first[i] < spine.len());
    if i + 1 < starts.len() {
        assert(first[i] < first[i + 1]);
    }
}

/// One volume is not a collection: a book is cut into at least two volumes, or not at all.
pub proof fn a_book_is_never_cut_into_one(p: Seq<Part>, b: Book, base: Seq<char>, toc: Seq<Toc>)
    ensures
        cuts_in(p, b, base, toc).len() != 1,
{
    let spine = package::spec_spine_documents(b, base);
    let v = candidates_to(toc, spine, toc.len() as int);
    let flat = toc::spec_flatten(toc);
    let starts = starts_of(p, spine, v, flat, b.title, b.authors);
    candidates_are_in_reading_order(toc, spine, toc.len() as int);
    starts_are_in_reading_order(p, spine, v, flat, b.title, b.authors);
    lemma_first_documents(p, spine, v, starts);
    lemma_cuts_len(p, spine, v, starts, starts.len() as int);
}

proof fn lemma_numbers_climb(
    p: Seq<Part>,
    spine: Seq<(Seq<char>, Seq<char>)>,
    v: Seq<(int, Seq<char>)>,
    starts: Seq<(int, Option<Number>)>,
    n: int,
    i: int,
)
    requires
        0 < i < n,
    ensures
        cuts_to(p, spine, v, starts, n).len() == n,
        cuts_to(p, spine, v, starts, n)[i - 1].number.billionths < cuts_to(
            p,
            spine,
            v,
            starts,
            n,
        )[i].number.billionths || cuts_to(p, spine, v, starts, n)[i - 1].number.billionths
            > u128::MAX - ONE,
    decreases n,
{
    lemma_cuts_count(p, spine, v, starts, n - 1);
    if i < n - 1 {
        lemma_numbers_climb(p, spine, v, starts, n - 1, i);
    }
}

proof fn lemma_cuts_count(
    p: Seq<Part>,
    spine: Seq<(Seq<char>, Seq<char>)>,
    v: Seq<(int, Seq<char>)>,
    starts: Seq<(int, Option<Number>)>,
    n: int,
)
    requires
        0 <= n,
    ensures
        cuts_to(p, spine, v, starts, n).len() == n,
    decreases n,
{
    if n > 0 {
        lemma_cuts_count(p, spine, v, starts, n - 1);
    }
}

/// A numbering only ever goes up, short of the largest number there is.
pub proof fn volume_numbers_climb(p: Seq<Part>, b: Book, base: Seq<char>, toc: Seq<Toc>, i: int)
    requires
        0 < i < cuts_in(p, b, base, toc).len(),
        cuts_in(p, b, base, toc)[i - 1].number.billionths <= u128::MAX - ONE,
    ensures
        cuts_in(p, b, base, toc)[i - 1].number.billionths < cuts_in(
            p,
            b,
            base,
            toc,
        )[i].number.billionths,
{
    let spine = package::spec_spine_documents(b, base);
    let v = candidates_to(toc, spine, toc.len() as int);
    let starts = starts_of(p, spine, v, toc::spec_flatten(toc), b.title, b.authors);
    lemma_cuts_count(p, spine, v, starts, starts.len() as int);
    lemma_numbers_climb(p, spine, v, starts, starts.len() as int, i);
}

fn covers_of(pkg: &EpubPackage, spine: &Vec<(String, String)>, v: &Vec<Candidate>) -> (r: Vec<Start>)
    requires
        ascending(series::candidates_said(v@), spine@.len() as int),
    ensures
        series::starts_said(r@) == covers_to(
            pkg@,
            edit::pairs(spine@),
            series::candidates_said(v@),
            v@.len() as int,
        ),
{
    let ghost all = series::candidates_said(v@);
    let ghost ss = edit::pairs(spine@);
    let n = v.len();
    assert(all.len() == n);
    let mut out: Vec<Start> = Vec::new();
    assert(series::starts_said(out@) =~= Seq::empty());
    let mut i: usize = 0;
    while i < n
        invariant
            i <= n,
            n == v@.len(),
            all == series::candidates_said(v@),
            all.len() == n,
            ss == edit::pairs(spine@),
            ascending(all, spine@.len() as int),
            series::starts_said(out@) == covers_to(pkg@, ss, all, i as int),
        decreases n - i,
    {
        assert(all[i as int] == series::candidate(v@[i as int]));
        let k = v[i].spine_index;
        assert(ss[k as int] == (spine@[k as int].0@, spine@[k as int].1@));
        if is_cover_page(pkg, &spine[k].0) {
            let ghost before = series::starts_said(out@);
            out.push(Start { candidate: i, number: None });
            assert(series::starts_said(out@) =~= before.push((i as int, None)));
        }
        i += 1;
    }
    out
}

fn place_at_of(v: &Vec<Candidate>, starts: &Vec<Start>, n: usize, end: usize) -> (r: usize)
    requires
        series::in_order(series::starts_said(starts@), v@.len() as int),
    ensures
        r == place_at(
            series::candidates_said(v@),
            series::starts_said(starts@),
            n as int,
            end as int,
        ),
{
    let ghost ss = series::starts_said(starts@);
    assert(ss.len() == starts@.len());
    if n < starts.len() {
        assert(ss[n as int] == (starts@[n as int].candidate as int, starts@[n as int].number));
        let k = starts[n].candidate;
        assert(series::candidates_said(v@)[k as int] == series::candidate(v@[k as int]));
        v[k].spine_index
    } else {
        end
    }
}

proof fn lemma_place_at(
    v: Seq<(int, Seq<char>)>,
    starts: Seq<(int, Option<Number>)>,
    n: int,
    end: int,
)
    requires
        ascending(v, end),
        series::in_order(starts, v.len() as int),
        0 <= n,
    ensures
        place_at(v, starts, n, end) <= end,
{
    if n < starts.len() {
        assert(0 <= starts[n].0 < v.len());
        assert(v[starts[n].0].0 < end);
    }
}

/// Cover-shaped starts divide a collection.
fn reads_as_a_collection(
    pkg: &EpubPackage,
    spine: &Vec<(String, String)>,
    names: &Vec<String>,
    v: &Vec<Candidate>,
    starts: &Vec<Start>,
) -> (r: bool)
    requires
        text::strs(names@) == toc_repair::files_of(edit::pairs(spine@)),
        ascending(series::candidates_said(v@), spine@.len() as int),
        series::in_order(series::starts_said(starts@), v@.len() as int),
    ensures
        r == is_collection(
            pkg@,
            edit::pairs(spine@),
            series::candidates_said(v@),
            series::starts_said(starts@),
        ),
{
    let ghost all = series::candidates_said(v@);
    let ghost ss = edit::pairs(spine@);
    let ghost st = series::starts_said(starts@);
    let n = starts.len();
    let len = spine.len();
    assert(st.len() == n && ss.len() == len);
    let mut owning: usize = 0;
    let mut i: usize = 0;
    while i < n
        invariant
            i <= n,
            n == starts@.len(),
            len == spine@.len(),
            ss.len() == len,
            all == series::candidates_said(v@),
            ss == edit::pairs(spine@),
            st == series::starts_said(starts@),
            text::strs(names@) == toc_repair::files_of(ss),
            ascending(all, len as int),
            series::in_order(st, v@.len() as int),
            all.len() == v@.len(),
            owning <= i,
            owning == owning_to(pkg@, ss, all, st, i as int),
        decreases n - i,
    {
        let from = place_at_of(v, starts, i, len);
        let to = place_at_of(v, starts, i + 1, len);
        proof {
            lemma_place_at(all, st, i + 1, len as int);
        }
        if owns_contents_page(pkg, spine, names, from, to) {
            owning += 1;
        }
        i += 1;
    }
    owning as u128 * 2 > n as u128
}

fn document_in(spine: &Vec<(String, String)>, doc: &[char], from: usize, to: usize) -> (r: bool)
    requires
        to <= spine@.len(),
    ensures
        r == stands_in(edit::pairs(spine@), from as int, to as int, doc@),
{
    let ghost ss = edit::pairs(spine@);
    let mut i: usize = from;
    while i < to
        invariant
            from <= i,
            to <= spine@.len(),
            ss == edit::pairs(spine@),
            forall|k: int| from <= k < i && k < to ==> (#[trigger] ss[k]).0 != doc@,
        decreases to - i,
    {
        assert(ss[i as int] == (spine@[i as int].0@, spine@[i as int].1@));
        if same(&chars_of(&spine[i].0), doc) {
            return true;
        }
        i += 1;
    }
    false
}

fn all_within(docs: &Vec<Vec<char>>, spine: &Vec<(String, String)>, from: usize, to: usize) -> (r:
    bool)
    requires
        to <= spine@.len(),
    ensures
        r == within(text::texts(docs@), edit::pairs(spine@), from as int, to as int),
{
    let ghost ds = text::texts(docs@);
    let ghost ss = edit::pairs(spine@);
    let n = docs.len();
    assert(ds.len() == n);
    let mut k: usize = 0;
    while k < n
        invariant
            k <= n,
            n == docs@.len(),
            to <= spine@.len(),
            ds == text::texts(docs@),
            ds.len() == n,
            ss == edit::pairs(spine@),
            forall|j: int|
                0 <= j < k ==> stands_in(ss, from as int, to as int, #[trigger] ds[j]),
        decreases n - k,
    {
        assert(ds[k as int] == docs@[k as int]@);
        if !document_in(spine, &docs[k], from, to) {
            return false;
        }
        k += 1;
    }
    true
}

/// The candidates whose own document is a Contents page of their own span.
fn contents_page_starts(
    pkg: &EpubPackage,
    spine: &Vec<(String, String)>,
    names: &Vec<String>,
    v: &Vec<Candidate>,
) -> (r: Vec<Start>)
    requires
        text::strs(names@) == toc_repair::files_of(edit::pairs(spine@)),
        ascending(series::candidates_said(v@), spine@.len() as int),
    ensures
        series::starts_said(r@) == contents_to(
            pkg@,
            edit::pairs(spine@),
            series::candidates_said(v@),
            v@.len() as int,
        ),
{
    let ghost all = series::candidates_said(v@);
    let ghost ss = edit::pairs(spine@);
    let n = v.len();
    let len = spine.len();
    assert(all.len() == n && ss.len() == len);
    let mut out: Vec<Start> = Vec::new();
    assert(series::starts_said(out@) =~= Seq::empty());
    let mut i: usize = 0;
    while i < n
        invariant
            i <= n,
            n == v@.len(),
            len == spine@.len(),
            all == series::candidates_said(v@),
            all.len() == n,
            ss == edit::pairs(spine@),
            ss.len() == len,
            text::strs(names@) == toc_repair::files_of(ss),
            ascending(all, len as int),
            series::starts_said(out@) == contents_to(pkg@, ss, all, i as int),
        decreases n - i,
    {
        assert(all[i as int] == series::candidate(v@[i as int]));
        let next = if i + 1 < n {
            assert(all[i + 1] == series::candidate(v@[i + 1]));
            v[i + 1].spine_index
        } else {
            len
        };
        let k = v[i].spine_index;
        let docs = linked_documents(pkg, spine, names, k);
        assert(text::texts(docs@).len() == docs@.len());
        if docs.len() >= MIN_SECTION_CONTENTS_LINKS && all_within(&docs, spine, k, next) {
            let ghost before = series::starts_said(out@);
            out.push(Start { candidate: i, number: None });
            assert(series::starts_said(out@) =~= before.push((i as int, None)));
        }
        i += 1;
    }
    out
}

/// Every entry of the chapter list as a place in the spine.
pub open spec fn entry_places(
    flat: Seq<(Seq<char>, Seq<char>)>,
    spine: Seq<(Seq<char>, Seq<char>)>,
) -> Seq<Option<int>> {
    Seq::new(
        flat.len(),
        |i: int|
            toc_shape::place_in(spine, toc_shape::document(flat[i].1), spine.len() as int),
    )
}

pub open spec fn places_said(v: Seq<Option<usize>>) -> Seq<Option<int>> {
    v.map_values(|k: Option<usize>| text::pos(k))
}

fn entry_positions(flat: &Vec<(String, String)>, spine: &Vec<(String, String)>) -> (r: Vec<
    Option<usize>,
>)
    ensures
        places_said(r@) == entry_places(edit::pairs(flat@), edit::pairs(spine@)),
{
    let ghost fs = edit::pairs(flat@);
    let ghost ss = edit::pairs(spine@);
    let ghost all = entry_places(fs, ss);
    let n = flat.len();
    assert(fs.len() == n);
    assert(ss.len() == spine@.len());
    let mut out: Vec<Option<usize>> = Vec::new();
    assert(places_said(out@) =~= all.take(0));
    let mut i: usize = 0;
    while i < n
        invariant
            i <= n,
            n == flat@.len(),
            fs == edit::pairs(flat@),
            fs.len() == n,
            ss == edit::pairs(spine@),
            ss.len() == spine@.len(),
            all == entry_places(fs, ss),
            places_said(out@) == all.take(i as int),
        decreases n - i,
    {
        assert(fs[i as int] == (flat@[i as int].0@, flat@[i as int].1@));
        let k = place_in_of(spine, &flat[i].1);
        let ghost before = places_said(out@);
        out.push(k);
        assert(places_said(out@) =~= before.push(text::pos(k)));
        assert(places_said(out@) =~= all.take(i + 1));
        i += 1;
    }
    assert(all.take(n as int) =~= all);
    out
}

fn inside_of(
    entries: &Vec<Option<usize>>,
    flat: Ghost<Seq<(Seq<char>, Seq<char>)>>,
    spine: Ghost<Seq<(Seq<char>, Seq<char>)>>,
    from: usize,
    to: usize,
) -> (r: usize)
    requires
        places_said(entries@) == entry_places(flat@, spine@),
    ensures
        r == inside_to(flat@, spine@, from as int, to as int, flat@.len() as int),
{
    let n = entries.len();
    assert(places_said(entries@).len() == n);
    let mut count: usize = 0;
    let mut i: usize = 0;
    while i < n
        invariant
            i <= n,
            n == entries@.len(),
            n == flat@.len(),
            places_said(entries@) == entry_places(flat@, spine@),
            count <= i,
            count == inside_to(flat@, spine@, from as int, to as int, i as int),
        decreases n - i,
    {
        assert(places_said(entries@)[i as int] == text::pos(entries@[i as int]));
        assert(entry_places(flat@, spine@)[i as int] == toc_shape::place_in(
            spine@,
            toc_shape::document(flat@[i as int].1),
            spine@.len() as int,
        ));
        if let Some(k) = entries[i] {
            if k > from && k < to {
                count += 1;
            }
        }
        i += 1;
    }
    count
}

/// The starts with a volume under them.
fn carries_a_volume(
    flat: &Vec<(String, String)>,
    spine: &Vec<(String, String)>,
    v: &Vec<Candidate>,
    chosen: &Vec<Start>,
) -> (r: Vec<Start>)
    requires
        series::in_order(series::starts_said(chosen@), v@.len() as int),
    ensures
        series::starts_said(r@) == carried_to(
            edit::pairs(flat@),
            edit::pairs(spine@),
            series::candidates_said(v@),
            series::starts_said(chosen@),
            chosen@.len() as int,
        ),
{
    let ghost fs = edit::pairs(flat@);
    let ghost all = series::candidates_said(v@);
    let ghost ss = edit::pairs(spine@);
    let ghost st = series::starts_said(chosen@);
    let entries = entry_positions(flat, spine);
    let n = chosen.len();
    let len = spine.len();
    assert(ss.len() == len && st.len() == n);
    let mut out: Vec<Start> = Vec::new();
    assert(series::starts_said(out@) =~= Seq::empty());
    let mut i: usize = 0;
    while i < n
        invariant
            i <= n,
            n == chosen@.len(),
            len == spine@.len(),
            ss.len() == len,
            fs == edit::pairs(flat@),
            all == series::candidates_said(v@),
            ss == edit::pairs(spine@),
            st == series::starts_said(chosen@),
            places_said(entries@) == entry_places(fs, ss),
            series::in_order(st, v@.len() as int),
            series::starts_said(out@) == carried_to(fs, ss, all, st, i as int),
        decreases n - i,
    {
        assert(st[i as int] == (chosen@[i as int].candidate as int, chosen@[i as int].number));
        let from = place_at_of(v, chosen, i, len);
        let to = place_at_of(v, chosen, i + 1, len);
        let count = inside_of(&entries, Ghost(fs), Ghost(ss), from, to);
        if count >= MIN_SECTION_CONTENTS_LINKS {
            let ghost before = series::starts_said(out@);
            let s = chosen[i];
            out.push(s);
            assert(series::starts_said(out@) =~= before.push(st[i as int]));
        }
        i += 1;
    }
    out
}

/// The candidates that the chapter list names as a series.
fn named_as_a_series(
    flat: &Vec<(String, String)>,
    spine: &Vec<(String, String)>,
    v: &Vec<Candidate>,
    title: &str,
    authors: &Vec<String>,
) -> (r: Vec<Start>)
    ensures
        series::starts_said(r@) == named_series(
            edit::pairs(flat@),
            edit::pairs(spine@),
            series::candidates_said(v@),
            title@,
            text::strs(authors@),
        ),
{
    let ghost all = series::candidates_said(v@);
    assert(all.len() == v@.len());
    proof {
        series::counted_labels_are_in_order(all, all.len() as int);
        series::titled_labels_are_in_order(all, title@, text::strs(authors@));
    }
    let counted = counted_labels(v);
    assert(series::starts_said(counted@).len() == counted@.len());
    let a = carries_a_volume(flat, spine, v, &counted);
    assert(series::starts_said(a@).len() == a@.len());
    if a.len() >= 3 {
        return a;
    }
    let titled = title_bearing_labels(v, title, authors);
    assert(series::starts_said(titled@).len() == titled@.len());
    let b = carries_a_volume(flat, spine, v, &titled);
    assert(series::starts_said(b@).len() == b@.len());
    if b.len() >= 2 {
        return b;
    }
    let none: Vec<Start> = Vec::new();
    assert(series::starts_said(none@) =~= Seq::empty());
    none
}

/// The candidates that are starts of volumes.
fn volume_starts(
    pkg: &EpubPackage,
    spine: &Vec<(String, String)>,
    v: &Vec<Candidate>,
    flat: &Vec<(String, String)>,
    title: &str,
    authors: &Vec<String>,
) -> (r: Vec<Start>)
    requires
        ascending(series::candidates_said(v@), spine@.len() as int),
    ensures
        series::starts_said(r@) == starts_of(
            pkg@,
            edit::pairs(spine@),
            series::candidates_said(v@),
            edit::pairs(flat@),
            title@,
            text::strs(authors@),
        ),
{
    let ghost all = series::candidates_said(v@);
    assert(all.len() == v@.len());
    let names = file_names(spine);
    let covers = covers_of(pkg, spine, v);
    proof {
        lemma_covers_in_order(pkg@, edit::pairs(spine@), all, all.len() as int);
    }
    if reads_as_a_collection(pkg, spine, &names, v, &covers) {
        return covers;
    }
    let contents = contents_page_starts(pkg, spine, &names, v);
    assert(series::starts_said(contents@).len() == contents@.len());
    if contents.len() >= 2 {
        return contents;
    }
    named_as_a_series(flat, spine, v, title, authors)
}

/// What places say.
pub open spec fn ints(v: Seq<usize>) -> Seq<int> {
    v.map_values(|k: usize| k as int)
}

fn places_of(v: &Vec<Candidate>, starts: &Vec<Start>) -> (r: Vec<usize>)
    requires
        series::in_order(series::starts_said(starts@), v@.len() as int),
    ensures
        ints(r@) == places(series::candidates_said(v@), series::starts_said(starts@)),
{
    let ghost all = series::candidates_said(v@);
    let ghost st = series::starts_said(starts@);
    let ghost want = places(all, st);
    let n = starts.len();
    assert(st.len() == n);
    let mut out: Vec<usize> = Vec::new();
    assert(ints(out@) =~= want.take(0));
    let mut i: usize = 0;
    while i < n
        invariant
            i <= n,
            n == starts@.len(),
            all == series::candidates_said(v@),
            st == series::starts_said(starts@),
            st.len() == n,
            want == places(all, st),
            series::in_order(st, v@.len() as int),
            ints(out@) == want.take(i as int),
        decreases n - i,
    {
        let k = place_at_of(v, starts, i, 0);
        assert(want[i as int] == k as int);
        let ghost before = ints(out@);
        out.push(k);
        assert(ints(out@) =~= before.push(k as int));
        assert(want.take(i + 1) =~= want.take(i as int).push(want[i as int]));
        i += 1;
    }
    assert(want.take(n as int) =~= want);
    out
}

fn walk_back(pkg: &EpubPackage, spine: &Vec<(String, String)>, from: usize, floor: usize) -> (r:
    usize)
    requires
        floor <= from <= spine@.len(),
    ensures
        r == walked_back(pkg@, edit::pairs(spine@), from as int, floor as int),
{
    let ghost ss = edit::pairs(spine@);
    let mut first: usize = from;
    while first > floor
        invariant
            floor <= first <= spine@.len(),
            ss == edit::pairs(spine@),
            walked_back(pkg@, ss, first as int, floor as int) == walked_back(
                pkg@,
                ss,
                from as int,
                floor as int,
            ),
        decreases first,
    {
        assert(ss[first - 1] == (spine@[first - 1].0@, spine@[first - 1].1@));
        if !is_cover_page(pkg, &spine[first - 1].0) {
            return first;
        }
        first -= 1;
    }
    first
}

fn fronted_of(pkg: &EpubPackage, spine: &Vec<(String, String)>, named: &Vec<usize>) -> (r: Vec<usize>)
    requires
        climbing(ints(named@), spine@.len() as int),
    ensures
        ints(r@) == fronted_to(pkg@, edit::pairs(spine@), ints(named@), named@.len() as int),
{
    let ghost ss = edit::pairs(spine@);
    let ghost ns = ints(named@);
    let n = named.len();
    assert(ns.len() == n);
    assert(ss.len() == spine@.len());
    let mut out: Vec<usize> = Vec::new();
    assert(ints(out@) =~= Seq::empty());
    let mut k: usize = 0;
    while k < n
        invariant
            k <= n,
            n == named@.len(),
            ns == ints(named@),
            ns.len() == n,
            ss == edit::pairs(spine@),
            ss.len() == spine@.len(),
            climbing(ns, spine@.len() as int),
            ints(out@) == fronted_to(pkg@, ss, ns, k as int),
        decreases n - k,
    {
        proof {
            lemma_fronted(pkg@, ss, ns, k as int);
            lemma_fronted(pkg@, ss, ns, k + 1);
        }
        assert(ints(out@).len() == out@.len());
        let i = named[k];
        assert(ns[k as int] == i as int);
        assert(ss[i as int] == (spine@[i as int].0@, spine@[i as int].1@));
        let floor: usize = if k == 0 {
            1
        } else {
            assert(ints(out@)[k - 1] == out@[k - 1] as int);
            assert(ints(out@)[k - 1] <= ns[k - 1]);
            assert(ns[k - 1] < ns[k as int]);
            out[k - 1] + 1
        };
        let first = if is_cover_page(pkg, &spine[i].0) {
            i
        } else {
            walk_back(pkg, spine, i, floor)
        };
        let ghost before = ints(out@);
        out.push(first);
        assert(ints(out@) =~= before.push(first as int));
        k += 1;
    }
    out
}

/// Where each volume's own pages begin, in reading order.
fn volume_first_documents(
    pkg: &EpubPackage,
    spine: &Vec<(String, String)>,
    named: Vec<usize>,
) -> (r: Vec<usize>)
    requires
        climbing(ints(named@), spine@.len() as int),
    ensures
        ints(r@) == first_documents(pkg@, edit::pairs(spine@), ints(named@)),
{
    let ghost ss = edit::pairs(spine@);
    let ghost ns = ints(named@);
    let n = named.len();
    assert(ns.len() == n);
    let fronted = fronted_of(pkg, spine, &named);
    proof {
        assert(ss.len() == spine@.len());
        lemma_fronted(pkg@, ss, ns, n as int);
    }
    let ghost fs = ints(fronted@);
    assert(fs.len() == fronted@.len());
    let mut moved: usize = 0;
    let mut i: usize = 0;
    while i < n
        invariant
            i <= n,
            n == named@.len(),
            n == fronted@.len(),
            ns == ints(named@),
            fs == ints(fronted@),
            moved <= i,
            moved == moved_to(fs, ns, i as int),
        decreases n - i,
    {
        assert(ns[i as int] == named@[i as int] as int);
        assert(fs[i as int] == fronted@[i as int] as int);
        if fronted[i] < named[i] {
            moved += 1;
        }
        i += 1;
    }
    if moved as u128 * 2 > n as u128 {
        fronted
    } else {
        named
    }
}

fn cuts(pkg: &EpubPackage, opf: &OpfData, opf_base: &str, toc: &Vec<TocEntry>) -> (r: Vec<Cut>)
    ensures
        cuts_said(r@) == cuts_in(pkg@, opf@, opf_base@, toc::tocs(toc@)),
{
    let spine = spine_documents(opf, opf_base);
    let ghost ss = edit::pairs(spine@);
    let len = spine.len();
    assert(ss.len() == len);
    let ghost ts = toc::tocs(toc@);
    proof {
        toc::lemma_tocs(toc@);
        candidates_are_in_reading_order(ts, ss, ts.len() as int);
    }
    let v = candidates(toc, &spine);
    let ghost all = series::candidates_said(v@);
    assert(all.len() == v@.len());
    let flat = flatten(toc);
    let starts = volume_starts(
        pkg,
        &spine,
        &v,
        &flat,
        &opf.metadata.title,
        &opf.metadata.authors,
    );
    let ghost st = series::starts_said(starts@);
    let n = starts.len();
    assert(st.len() == n);
    let mut out: Vec<Cut> = Vec::new();
    assert(cuts_said(out@) =~= Seq::empty());
    if n < 2 {
        return out;
    }
    proof {
        starts_are_in_reading_order(
            pkg@,
            ss,
            all,
            toc::spec_flatten(ts),
            opf@.title,
            opf@.authors,
        );
        lemma_first_documents(pkg@, ss, all, st);
    }
    let named = places_of(&v, &starts);
    let first = volume_first_documents(pkg, &spine, named);
    let ghost fs = first_documents(pkg@, ss, places(all, st));
    assert(ints(first@) == fs);
    assert(fs.len() == first@.len());
    let mut i: usize = 0;
    while i < n
        invariant
            i <= n,
            n == starts@.len(),
            n == first@.len(),
            len == spine@.len(),
            ss == edit::pairs(spine@),
            ss.len() == len,
            all == series::candidates_said(v@),
            all.len() == v@.len(),
            st == series::starts_said(starts@),
            st.len() == n,
            series::in_order(st, v@.len() as int),
            fs == first_documents(pkg@, ss, places(all, st)),
            fs == ints(first@),
            fs.len() == n,
            climbing(fs, len as int),
            cuts_said(out@) == cuts_to(pkg@, ss, all, st, i as int),
        decreases n - i,
    {
        proof {
            lemma_cuts_len(pkg@, ss, all, st, i as int);
        }
        assert(cuts_said(out@).len() == out@.len());
        assert(st[i as int] == (starts@[i as int].candidate as int, starts@[i as int].number));
        let c = starts[i].candidate;
        assert(all[c as int] == series::candidate(v@[c as int]));
        let from = first[i];
        assert(fs[i as int] == from as int);
        assert(ss[from as int] == (spine@[from as int].0@, spine@[from as int].1@));
        let to = if i + 1 < n {
            assert(fs[i + 1] == first@[i + 1] as int);
            assert(fs[i as int] < fs[i + 1]);
            first[i + 1]
        } else {
            len
        };
        let k = out.len();
        let previous = if k == 0 {
            None
        } else {
            assert(cuts_said(out@)[k - 1] == out@[k - 1]@);
            Some(&out[k - 1])
        };
        let (number, numbering) = number_after(previous, &v[c].label, i, starts[i].number);
        let cut = Cut {
            spine_index: from,
            documents: to - from,
            label: v[c].label.clone(),
            cover: cover_page(pkg, &spine[from].0),
            number,
            numbering,
        };
        let ghost before = cuts_said(out@);
        let ghost cv = cut@;
        out.push(cut);
        assert(cuts_said(out@) =~= before.push(cv));
        assert(cuts_said(out@) =~= cuts_to(pkg@, ss, all, st, i + 1));
        i += 1;
    }
    out
}

/// The cuts of an EPUB.
pub open spec fn spec_propose_cuts(bytes: Seq<u8>) -> Result<Seq<CutAt>, Fault> {
    match toc_repair::read_book(bytes) {
        Err(f) => Err(f),
        Ok((p, d)) => Ok(
            cuts_in(
                p,
                d.book,
                d.base(),
                toc_repair::spec_propose(p, d.book, d.base(), d.text),
            ),
        ),
    }
}

pub open spec fn cuts_result(r: Result<Vec<Cut>, Error>) -> Result<Seq<CutAt>, Fault> {
    match r {
        Ok(v) => Ok(cuts_said(v@)),
        Err(e) => Err(e@),
    }
}

/// Propose where to cut a collection into volumes, in reading order. Empty for a book that
/// evidences no volumes.
pub fn propose_cuts(epub_bytes: &[u8]) -> (r: Result<Vec<Cut>, Error>)
    ensures
        cuts_result(r) == spec_propose_cuts(epub_bytes@),
{
    match read_book_of(epub_bytes) {
        Err(e) => Err(e),
        Ok((p, d)) => {
            let toc = propose_from_pkg(&p, &d.opf, &d.base, &d.text);
            Ok(cuts(&p, &d.opf, &d.base, &toc))
        },
    }
}

} // verus!
