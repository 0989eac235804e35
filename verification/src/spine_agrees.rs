//! A repaired spine agrees with the navigation.
use vstd::prelude::*;

use crate::archive::Part;
use crate::error::{ErrorKind, Fault};
use crate::opf::{Book, OpfItem};
use crate::package::Found;
use crate::spine_read::{is_declared, is_read_as_found, with_spine};
use crate::spine_repair::{
    analysed, arranged, descents_to, doc_at, docs_to, entries_met, groups, idrefs, spec_reorder, trail,
    Doc,
};
use crate::structure::spec_basename;
use crate::{archive, codec, edit, opf, package, spine_read, spine_repair};

verus! {

// ---------------------------------------------------------------- the documents

/// The document that an id of the spine names.
spec fn doc_for(items: Seq<OpfItem>, base: Seq<char>, id: Seq<char>) -> Doc {
    Doc {
        idref: id,
        href: package::spec_abs(base, opf::item_named(items, id, 0)->0.href),
        label: None,
    }
}

proof fn lemma_docs(items: Seq<OpfItem>, spine: Seq<Seq<char>>, base: Seq<char>, n: int)
    requires
        0 <= n <= spine.len(),
        forall|i: int| 0 <= i < n ==> opf::item_named(items, #[trigger] spine[i], 0) is Some,
    ensures
        docs_to(items, spine, base, n).len() == n,
        forall|i: int|
            0 <= i < n ==> #[trigger] docs_to(items, spine, base, n)[i] == doc_for(
                items,
                base,
                spine[i],
            ),
    decreases n,
{
    if n > 0 {
        lemma_docs(items, spine, base, n - 1);
        assert(opf::item_named(items, spine[n - 1], 0) is Some);
    }
}

/// No two documents have one filename.
pub open spec fn files_differ(v: Seq<Doc>) -> bool {
    forall|i: int, j: int|
        0 <= i < j < v.len() ==> spec_basename((#[trigger] v[i]).href) != spec_basename(
            (#[trigger] v[j]).href,
        )
}

proof fn lemma_doc_at(v: Seq<Doc>, file: Seq<char>, i: int)
    requires
        0 <= i,
    ensures
        match doc_at(v, file, i) {
            Some(k) => i <= k < v.len() && spec_basename(v[k].href) == file,
            None => forall|k: int| i <= k < v.len() ==> spec_basename((#[trigger] v[k]).href) != file,
        },
    decreases v.len() - i,
{
    if i < v.len() {
        lemma_doc_at(v, file, i + 1);
    }
}

/// The entries label the documents, and leave where they are.
proof fn lemma_hrefs_kept(v: Seq<Doc>, flat: Seq<(Seq<char>, Seq<char>)>, k: int)
    requires
        0 <= k <= flat.len(),
    ensures
        entries_met(v, flat, k).docs.len() == v.len(),
        forall|i: int|
            0 <= i < v.len() ==> (#[trigger] entries_met(v, flat, k).docs[i]).href == v[i].href,
    decreases k,
{
    if k > 0 {
        lemma_hrefs_kept(v, flat, k - 1);
        let n = entries_met(v, flat, k - 1);
        lemma_doc_at(n.docs, spec_basename(flat[k - 1].1), 0);
    }
}

/// A filename is found where the document with it stands.
proof fn lemma_found(v: Seq<Doc>, flat: Seq<(Seq<char>, Seq<char>)>, k: int, file: Seq<char>)
    requires
        0 <= k <= flat.len(),
    ensures
        match doc_at(entries_met(v, flat, k).docs, file, 0) {
            Some(i) => 0 <= i < v.len() && spec_basename(v[i].href) == file,
            None => forall|i: int| 0 <= i < v.len() ==> spec_basename((#[trigger] v[i]).href) != file,
        },
{
    lemma_hrefs_kept(v, flat, k);
    let w = entries_met(v, flat, k).docs;
    lemma_doc_at(w, file, 0);
    if doc_at(w, file, 0) is None {
        assert forall|i: int| 0 <= i < v.len() implies spec_basename((#[trigger] v[i]).href) != file by {
            assert(w[i].href == v[i].href);
        }
    }
}

// ---------------------------------------------------------------- the order

/// `w` holds the documents of `v` in the order `to`.
spec fn is_moved(v: Seq<Doc>, w: Seq<Doc>, to: Seq<int>) -> bool {
    &&& w.len() == v.len() == to.len()
    &&& to.no_duplicates()
    &&& forall|x: int| #[trigger] to.contains(x) <==> 0 <= x < v.len()
    &&& forall|m: int| 0 <= m < w.len() ==> (#[trigger] w[m]).href == v[to[m]].href
}

/// The entries name the same documents in both orders.
proof fn lemma_same_entries(
    v: Seq<Doc>,
    w: Seq<Doc>,
    to: Seq<int>,
    flat: Seq<(Seq<char>, Seq<char>)>,
    k: int,
)
    requires
        is_moved(v, w, to),
        files_differ(v),
        0 <= k <= flat.len(),
    ensures
        ({
            let a = entries_met(v, flat, k).order;
            let b = entries_met(w, flat, k).order;
            &&& a.len() == b.len()
            &&& forall|j: int| 0 <= j < b.len() ==> 0 <= #[trigger] b[j] < w.len() && to[b[j]] == a[j]
            &&& (forall|m: int| 0 <= m < w.len() ==> (#[trigger] w[m]).label == v[to[m]].label) ==> forall|
                m: int,
            |
                0 <= m < w.len() ==> (#[trigger] entries_met(w, flat, k).docs[m]).label == entries_met(
                    v,
                    flat,
                    k,
                ).docs[to[m]].label
        }),
    decreases k,
{
    if k > 0 {
        lemma_same_entries(v, w, to, flat, k - 1);
        let file = spec_basename(flat[k - 1].1);
        let n = entries_met(v, flat, k - 1);
        let m = entries_met(w, flat, k - 1);
        lemma_found(v, flat, k - 1, file);
        lemma_found(w, flat, k - 1, file);
        lemma_hrefs_kept(v, flat, k - 1);
        lemma_hrefs_kept(w, flat, k - 1);
        match (doc_at(n.docs, file, 0), doc_at(m.docs, file, 0)) {
            (Some(i), Some(x)) => {
                assert(w[x].href == v[to[x]].href);
                assert(to.contains(to[x]));
                lemma_one(v, i, to[x]);
                lemma_one_more(n.order, m.order, to, i, x);
                lemma_one_label(n.docs, m.docs, to, i, x, flat[k - 1].0);
            },
            (Some(i), None) => {
                assert(to.contains(i));
                let x = choose|x: int| 0 <= x < to.len() && to[x] == i;
                assert(spec_basename(w[x].href) != file);
            },
            (None, Some(x)) => {
                assert(w[x].href == v[to[x]].href);
                assert(to.contains(to[x]));
                assert(spec_basename(v[to[x]].href) != file);
            },
            (None, None) => {},
        }
    }
}

/// The documents once the one at `i` has the label, where it had none.
spec fn labelled(v: Seq<Doc>, i: int, label: Seq<char>) -> Seq<Doc> {
    if v[i].label is None {
        v.update(i, Doc { label: Some(label), ..v[i] })
    } else {
        v
    }
}

proof fn lemma_one_label(v: Seq<Doc>, w: Seq<Doc>, to: Seq<int>, i: int, x: int, label: Seq<char>)
    requires
        w.len() == v.len() == to.len(),
        to.no_duplicates(),
        forall|m: int| #[trigger] to.contains(m) <==> 0 <= m < v.len(),
        0 <= x < to.len(),
        to[x] == i,
    ensures
        (forall|m: int| 0 <= m < w.len() ==> (#[trigger] w[m]).label == v[to[m]].label) ==> forall|m: int|
            0 <= m < w.len() ==> (#[trigger] labelled(w, x, label)[m]).label == labelled(
                v,
                i,
                label,
            )[to[m]].label,
{
    if forall|m: int| 0 <= m < w.len() ==> (#[trigger] w[m]).label == v[to[m]].label {
        assert forall|m: int| 0 <= m < w.len() implies (#[trigger] labelled(w, x, label)[m]).label
            == labelled(v, i, label)[to[m]].label by {
            assert(w[m].label == v[to[m]].label);
            assert(w[x].label == v[to[x]].label);
            assert(to.contains(to[m]));
            assert(to.contains(to[x]));
            if m != x {
                assert(to[m] != to[x]);
                assert(labelled(w, x, label)[m] == w[m]);
                assert(labelled(v, i, label)[to[m]] == v[to[m]]);
            }
        }
    }
}

proof fn lemma_one(v: Seq<Doc>, i: int, j: int)
    requires
        files_differ(v),
        0 <= i < v.len(),
        0 <= j < v.len(),
        spec_basename(v[i].href) == spec_basename(v[j].href),
    ensures
        i == j,
{
}

proof fn lemma_one_more(a: Seq<int>, b: Seq<int>, to: Seq<int>, i: int, x: int)
    requires
        a.len() == b.len(),
        forall|j: int| 0 <= j < b.len() ==> 0 <= #[trigger] b[j] < to.len() && to[b[j]] == a[j],
        to.no_duplicates(),
        0 <= x < to.len(),
        to[x] == i,
    ensures
        a.contains(i) <==> b.contains(x),
{
    if a.contains(i) {
        let j = choose|j: int| 0 <= j < a.len() && a[j] == i;
        assert(0 <= b[j] < to.len());
        assert(b[j] == x);
        assert(b.contains(x));
    }
    if b.contains(x) {
        let j = choose|j: int| 0 <= j < b.len() && b[j] == x;
        assert(to[b[j]] == a[j]);
        assert(a.contains(i));
    }
}

/// Where a proposal has the `j`-th document of the navigation.
spec fn place(order: Seq<int>, len: int, j: int) -> int {
    (trail(order, len, -1).len() + groups(order, len, j).len()) as int
}

proof fn lemma_place(order: Seq<int>, len: int, j: int, n: int)
    requires
        0 <= j < n <= order.len(),
    ensures
        groups(order, len, j).len() < groups(order, len, n).len(),
        groups(order, len, n)[groups(order, len, j).len() as int] == order[j],
    decreases n,
{
    if j < n - 1 {
        lemma_place(order, len, j, n - 1);
    }
}

/// Numbers that go up have no descent.
proof fn lemma_up(v: Seq<int>, n: int)
    requires
        n < v.len() || n <= 0,
        forall|i: int| 0 <= i < n ==> #[trigger] v[i] < v[i + 1],
    ensures
        descents_to(v, n) == 0,
    decreases n,
{
    if n > 0 {
        lemma_up(v, n - 1);
        assert(v[n - 1] < v[n - 1 + 1]);
    }
}

/// Where documents are put in the order that the navigation implies, it names
/// them in the order they stand in.
proof fn lemma_moved_up(v: Seq<Doc>, w: Seq<Doc>, flat: Seq<(Seq<char>, Seq<char>)>)
    requires
        files_differ(v),
        is_moved(v, w, spec_reorder(entries_met(v, flat, flat.len() as int).order, v.len() as int)),
    ensures
        ({
            let b = entries_met(w, flat, flat.len() as int).order;
            descents_to(b, b.len() - 1) == 0
        }),
{
    let k = flat.len() as int;
    let len = v.len() as int;
    let a = entries_met(v, flat, k).order;
    let b = entries_met(w, flat, k).order;
    let to = spec_reorder(a, len);
    lemma_same_entries(v, w, to, flat, k);
    assert forall|j: int| 0 <= j < a.len() implies #[trigger] b[j] == place(a, len, j) by {
        lemma_place(a, len, j, a.len() as int);
        let x = place(a, len, j);
        assert(to[x] == a[j]);
        assert(to[b[j]] == a[j]);
    }
    assert forall|i: int| 0 <= i < b.len() - 1 implies #[trigger] b[i] < b[i + 1] by {
        lemma_place(a, len, i, i + 1);
        assert(b[i + 1] == place(a, len, i + 1));
    }
    lemma_up(b, b.len() - 1);
}

/// A repaired spine has no descent: once the spine is in the order that the
/// navigation implies, it no longer contradicts the navigation, and nothing more
/// would be moved. Every document of the spine is in the manifest, and no two
/// have one filename, by which the navigation names them.
pub proof fn a_repaired_spine_has_no_descent(
    b: Book,
    base: Seq<char>,
    flat: Seq<(Seq<char>, Seq<char>)>,
)
    requires
        is_declared(b),
        files_differ(docs_to(b.items, b.spine, base, b.spine.len() as int)),
    ensures
        ({
            let a = analysed(b, base, flat);
            let new = analysed(with_spine(b, idrefs(arranged(a.docs, a.proposed))), base, flat);
            new.drift.descents == 0 && new.drift.moved == 0
        }),
{
    let a = analysed(b, base, flat);
    let n = b.spine.len() as int;
    let v = docs_to(b.items, b.spine, base, n);
    let order = entries_met(v, flat, flat.len() as int).order;
    let to = spec_reorder(order, n);
    lemma_docs(b.items, b.spine, base, n);
    lemma_hrefs_kept(v, flat, flat.len() as int);
    spine_read::lemma_entries_keep_ids(v, flat, flat.len() as int);
    spine_repair::lemma_entries_order(v, flat, flat.len() as int);
    spine_repair::a_reorder_is_a_permutation(order, n);
    spine_repair::lemma_permutation_len(to, n);
    let ids = idrefs(arranged(a.docs, to));
    assert(ids.len() == n);
    assert forall|m: int| 0 <= m < n implies #[trigger] ids[m] == b.spine[to[m]] && 0 <= to[m] < n by {
        assert(to.contains(to[m]));
        assert(arranged(a.docs, to)[m] == a.docs[to[m]]);
        assert(idrefs(a.docs)[to[m]] == a.docs[to[m]].idref);
        assert(idrefs(v)[to[m]] == v[to[m]].idref);
    }
    let w = docs_to(b.items, ids, base, n);
    assert forall|m: int| 0 <= m < n implies opf::item_named(b.items, #[trigger] ids[m], 0) is Some by {
        assert(ids[m] == b.spine[to[m]]);
        assert(opf::item_named(b.items, b.spine[to[m]], 0) is Some);
    }
    lemma_docs(b.items, ids, base, n);
    assert forall|m: int| 0 <= m < w.len() implies (#[trigger] w[m]).href == v[to[m]].href by {
        assert(ids[m] == b.spine[to[m]]);
        assert(v[to[m]] == doc_for(b.items, base, b.spine[to[m]]));
    }
    lemma_moved_up(v, w, flat);
    spine_repair::agreement_moves_nothing(with_spine(b, ids), base, flat);
}

/// The documents that declare the navigation are neither the package document
/// nor the `mimetype` member.
pub open spec fn navigates_apart(d: Found) -> bool {
    &&& d.book.nav_href matches Some(h) ==> package::spec_abs(d.base(), h) != d.path
        && package::spec_abs(d.base(), h) != "mimetype"@
    &&& d.book.ncx_href matches Some(h) ==> package::spec_abs(d.base(), h) != d.path
        && package::spec_abs(d.base(), h) != "mimetype"@
}

/// The navigation is declared as it was.
proof fn lemma_navigation_kept(p: Seq<Part>, d: Found, order: Seq<Seq<char>>, q: Seq<Part>)
    requires
        package::spec_package_doc(p) == Ok::<Found, Fault>(d),
        spine_repair::spec_with_order(p, order) == Ok::<Seq<Part>, Fault>(q),
        navigates_apart(d),
    ensures
        spine_repair::spec_flatten_declared(edit::packed(q), with_spine(d.book, order), d.base())
            == spine_repair::spec_flatten_declared(p, d.book, d.base()),
{
    if let Some(h) = d.book.nav_href {
        let name = package::spec_abs(d.base(), h);
        spine_repair::an_order_touches_only_the_package_document(p, order, name);
        edit::packing_keeps_the_contents(q, name);
    }
    if let Some(h) = d.book.ncx_href {
        let name = package::spec_abs(d.base(), h);
        spine_repair::an_order_touches_only_the_package_document(p, order, name);
        edit::packing_keeps_the_contents(q, name);
    }
}

/// The same of an EPUB: in what `repair_spine` wrote, the spine no longer
/// contradicts the navigation.
pub proof fn a_repaired_epub_has_no_descent(
    bytes: Seq<u8>,
    p: Seq<Part>,
    d: Found,
    order: Seq<Seq<char>>,
    q: Seq<Part>,
    out: Vec<u8>,
)
    requires
        edit::spec_parse(bytes) == Some(p),
        package::spec_package_doc(p) == Ok::<Found, Fault>(d),
        d.path != "META-INF/container.xml"@,
        navigates_apart(d),
        is_read_as_found(d.text),
        is_declared(d.book),
        files_differ(docs_to(d.book.items, d.book.spine, d.base(), d.book.spine.len() as int)),
        spine_repair::spec_analyze(bytes) matches Ok(a) && order == idrefs(
            arranged(a.docs, a.proposed),
        ),
        spine_repair::spec_permute(d.text, order) matches Ok(t) ==> codec::declares_utf8(
            vstd::utf8::encode_utf8(t),
        ),
        spine_repair::spec_with_order(p, order) == Ok::<Seq<Part>, Fault>(q),
        edit::written(Ok(out), q),
        archive::comes_back(edit::packed(q), out@),
    ensures
        spine_repair::spec_analyze(out@) matches Ok(a) && a.drift.descents == 0 && a.drift.moved == 0,
{
    spine_read::a_set_spine_is_read_back(p, order);
    edit::no_member_is_a_directory(bytes, p);
    spine_repair::an_order_touches_only_the_package_document(p, order, "mimetype"@);
    edit::lemma_names_kept(p, q);
    edit::a_written_package_is_read_back(q, out);
    package::packing_keeps_the_package_document(q);
    lemma_navigation_kept(p, d, order, q);
    let flat = spine_repair::spec_flatten_declared(p, d.book, d.base());
    a_repaired_spine_has_no_descent(d.book, d.base(), flat);
}

// ---------------------------------------------------------------- what a document keeps

/// The places of the ids of `order` in `spine`.
spec fn places(spine: Seq<Seq<char>>, order: Seq<Seq<char>>) -> Seq<int> {
    Seq::new(order.len(), |m: int| spine.index_of(order[m]))
}

proof fn lemma_places(spine: Seq<Seq<char>>, order: Seq<Seq<char>>)
    requires
        spine.no_duplicates(),
        spine.to_multiset() == order.to_multiset(),
    ensures
        ({
            let to = places(spine, order);
            &&& order.len() == spine.len()
            &&& to.no_duplicates()
            &&& forall|x: int| #[trigger] to.contains(x) <==> 0 <= x < spine.len()
            &&& forall|m: int| 0 <= m < order.len() ==> 0 <= #[trigger] to[m] < spine.len()
                && spine[to[m]] == order[m]
        }),
{
    let to = places(spine, order);
    spine.to_multiset_ensures();
    order.to_multiset_ensures();
    spine.lemma_multiset_has_no_duplicates();
    assert(order.len() == spine.len());
    assert forall|m: int| 0 <= m < order.len() implies 0 <= #[trigger] to[m] < spine.len()
        && spine[to[m]] == order[m] by {
        assert(order.contains(order[m]));
        assert(order.to_multiset().contains(order[m]));
        assert(spine.contains(order[m]));
    }
    assert(order.no_duplicates()) by {
        order.lemma_multiset_has_no_duplicates_conv();
    }
    assert forall|a: int, b: int| 0 <= a < b < to.len() implies to[a] != to[b] by {
        assert(spine[to[a]] == order[a] && spine[to[b]] == order[b]);
    }
    assert forall|x: int| #[trigger] to.contains(x) <==> 0 <= x < spine.len() by {
        if to.contains(x) {
            let m = choose|m: int| 0 <= m < to.len() && to[m] == x;
            assert(0 <= to[m] < spine.len());
        }
        if 0 <= x < spine.len() {
            assert(spine.contains(spine[x]));
            assert(spine.to_multiset().contains(spine[x]));
            assert(order.contains(spine[x]));
            let m = choose|m: int| 0 <= m < order.len() && order[m] == spine[x];
            assert(spine[to[m]] == order[m]);
            assert(to[m] == x);
        }
    }
}

/// A document keeps where it is and how it is called when the spine is put in
/// another order. No two documents have one filename, by which the navigation
/// labels them.
pub proof fn an_order_keeps_every_document(
    b: Book,
    base: Seq<char>,
    flat: Seq<(Seq<char>, Seq<char>)>,
    order: Seq<Seq<char>>,
    i: int,
    j: int,
)
    requires
        is_declared(b),
        files_differ(docs_to(b.items, b.spine, base, b.spine.len() as int)),
        b.spine.to_multiset() == order.to_multiset(),
        0 <= i < order.len(),
        0 <= j < b.spine.len(),
        order[i] == b.spine[j],
    ensures
        analysed(b, base, flat).docs.len() == analysed(with_spine(b, order), base, flat).docs.len()
            == order.len(),
        analysed(with_spine(b, order), base, flat).docs[i] == analysed(b, base, flat).docs[j],
{
    let n = b.spine.len() as int;
    let k = flat.len() as int;
    let v = docs_to(b.items, b.spine, base, n);
    lemma_docs(b.items, b.spine, base, n);
    assert(b.spine.no_duplicates()) by {
        assert forall|x: int, y: int| 0 <= x < y < n implies b.spine[x] != b.spine[y] by {
            assert(v[x] == doc_for(b.items, base, b.spine[x]));
            assert(v[y] == doc_for(b.items, base, b.spine[y]));
        }
    }
    lemma_places(b.spine, order);
    let to = places(b.spine, order);
    let w = docs_to(b.items, order, base, n);
    assert forall|m: int| 0 <= m < n implies opf::item_named(b.items, #[trigger] order[m], 0) is Some by {
        assert(order[m] == b.spine[to[m]]);
        assert(opf::item_named(b.items, b.spine[to[m]], 0) is Some);
    }
    lemma_docs(b.items, order, base, n);
    assert forall|m: int| 0 <= m < w.len() implies (#[trigger] w[m]) == v[to[m]] by {
        assert(order[m] == b.spine[to[m]]);
        assert(w[m] == doc_for(b.items, base, order[m]));
        assert(v[to[m]] == doc_for(b.items, base, b.spine[to[m]]));
    }
    assert(is_moved(v, w, to));
    lemma_same_entries(v, w, to, flat, k);
    lemma_hrefs_kept(v, flat, k);
    lemma_hrefs_kept(w, flat, k);
    spine_read::lemma_entries_keep_ids(v, flat, k);
    spine_read::lemma_entries_keep_ids(w, flat, k);
    let x = entries_met(v, flat, k).docs;
    let y = entries_met(w, flat, k).docs;
    assert(b.spine[to[i]] == order[i]);
    assert(to[i] == j);
    assert(y[i].label == x[j].label);
    assert(y[i].href == w[i].href && x[j].href == v[j].href);
    assert(idrefs(x)[j] == x[j].idref && idrefs(v)[j] == v[j].idref);
    assert(idrefs(y)[i] == y[i].idref && idrefs(w)[i] == w[i].idref);
    assert(y[i] =~= x[j]);
}

/// The same of EPUBs: each document of the current spine of what `set_spine` wrote
/// is the one that the current spine of what it was given has, with its id, its
/// path and its label.
pub proof fn a_set_spine_keeps_every_document(
    bytes: Seq<u8>,
    p: Seq<Part>,
    d: Found,
    order: Seq<Seq<char>>,
    q: Seq<Part>,
    out: Vec<u8>,
    i: int,
    j: int,
)
    requires
        edit::spec_parse(bytes) == Some(p),
        package::spec_package_doc(p) == Ok::<Found, Fault>(d),
        d.path != "META-INF/container.xml"@,
        navigates_apart(d),
        is_read_as_found(d.text),
        is_declared(d.book),
        files_differ(docs_to(d.book.items, d.book.spine, d.base(), d.book.spine.len() as int)),
        spine_repair::spec_permute(d.text, order) matches Ok(t) ==> codec::declares_utf8(
            vstd::utf8::encode_utf8(t),
        ),
        spine_repair::spec_with_order(p, order) == Ok::<Seq<Part>, Fault>(q),
        edit::written(Ok(out), q),
        archive::comes_back(edit::packed(q), out@),
        0 <= i < order.len(),
        0 <= j < d.book.spine.len(),
        order[i] == d.book.spine[j],
    ensures
        spine_repair::spec_analyze(out@) matches Ok(a) && spine_repair::spec_analyze(bytes) matches Ok(z)
            && a.docs.len() == z.docs.len() == order.len() && a.docs[i] == z.docs[j],
{
    spine_read::a_set_spine_is_read_back(p, order);
    edit::no_member_is_a_directory(bytes, p);
    spine_repair::an_order_touches_only_the_package_document(p, order, "mimetype"@);
    edit::lemma_names_kept(p, q);
    edit::a_written_package_is_read_back(q, out);
    package::packing_keeps_the_package_document(q);
    lemma_navigation_kept(p, d, order, q);
    let flat = spine_repair::spec_flatten_declared(p, d.book, d.base());
    an_order_keeps_every_document(d.book, d.base(), flat, order, i, j);
}

// ---------------------------------------------------------------- what is repaired

/// A descent moves something: where the spine contradicts the navigation, the
/// proposal has another document somewhere.
pub proof fn a_descent_moves_something(b: Book, base: Seq<char>, flat: Seq<(Seq<char>, Seq<char>)>)
    ensures
        ({
            let drift = analysed(b, base, flat).drift;
            drift.descents != 0 <==> drift.moved != 0
        }),
{
    let v = docs_to(b.items, b.spine, base, b.spine.len() as int);
    let k = flat.len() as int;
    let len = v.len() as int;
    let a = entries_met(v, flat, k).order;
    let to = spec_reorder(a, len);
    spine_repair::lemma_entries_order(v, flat, k);
    spine_repair::agreement_moves_nothing(b, base, flat);
    if spine_repair::moved_to(to, len) == 0 {
        assert(to == spine_repair::run(0, len));
        assert forall|j: int| 0 <= j < a.len() implies #[trigger] a[j] == place(a, len, j) by {
            lemma_place(a, len, j, a.len() as int);
            let x = place(a, len, j);
            assert(to[x] == a[j]);
            assert(spine_repair::run(0, len)[x] == x);
        }
        assert forall|i: int| 0 <= i < a.len() - 1 implies #[trigger] a[i] < a[i + 1] by {
            lemma_place(a, len, i, i + 1);
            assert(a[i + 1] == place(a, len, i + 1));
        }
        lemma_up(a, a.len() - 1);
    }
}

/// A spine is repaired where it contradicts the navigation, and only there: the
/// order that the navigation implies can then be written, and is else refused for
/// being the order of the spine.
pub proof fn only_a_contradiction_is_repaired(
    p: Seq<Part>,
    d: Found,
    flat: Seq<(Seq<char>, Seq<char>)>,
)
    requires
        package::spec_package_doc(p) == Ok::<Found, Fault>(d),
        is_read_as_found(d.text),
        is_declared(d.book),
        d.book.spine.no_duplicates(),
    ensures
        ({
            let a = analysed(d.book, d.base(), flat);
            let r = spine_repair::spec_with_order(p, idrefs(arranged(a.docs, a.proposed)));
            &&& r is Ok <==> a.drift.descents > 0
            &&& r matches Err(f) ==> (f matches Fault::Said(kind, _) && kind == ErrorKind::InvalidInput)
        }),
{
    let b = d.book;
    let base = d.base();
    let n = b.spine.len() as int;
    let k = flat.len() as int;
    let a = analysed(b, base, flat);
    let v = docs_to(b.items, b.spine, base, n);
    let to = a.proposed;
    let order = entries_met(v, flat, k).order;
    lemma_docs(b.items, b.spine, base, n);
    spine_repair::lemma_entries_order(v, flat, k);
    spine_read::lemma_entries_keep_ids(v, flat, k);
    spine_repair::a_reorder_is_a_permutation(order, n);
    spine_repair::lemma_permutation_len(to, n);
    let ids = idrefs(arranged(a.docs, to));
    assert forall|m: int| 0 <= m < n implies #[trigger] ids[m] == b.spine[to[m]] && 0 <= to[m] < n by {
        assert(to.contains(to[m]));
        assert(arranged(a.docs, to)[m] == a.docs[to[m]]);
        assert(idrefs(a.docs)[to[m]] == a.docs[to[m]].idref);
        assert(idrefs(v)[to[m]] == v[to[m]].idref);
    }
    a_descent_moves_something(b, base, flat);
    spine_repair::agreement_moves_nothing(b, base, flat);
    spine_repair::lemma_descents(order, order.len() - 1);
    lemma_same_ids(b.spine, ids, to);
    if a.drift.descents > 0 {
        assert(to != spine_repair::run(0, n));
        if ids == b.spine {
            assert forall|m: int| 0 <= m < n implies #[trigger] to[m] == m by {
                assert(ids[m] == b.spine[to[m]]);
            }
            assert(to =~= spine_repair::run(0, n));
        }
        spine_read::every_other_order_can_be_set(p, ids);
    } else {
        assert forall|m: int| 0 <= m < n implies ids[m] == b.spine[m] by {
            assert(to[m] == spine_repair::run(0, n)[m]);
            assert(ids[m] == b.spine[to[m]]);
        }
        assert(ids =~= b.spine);
    }
}

proof fn lemma_same_ids(spine: Seq<Seq<char>>, ids: Seq<Seq<char>>, to: Seq<int>)
    requires
        ids.len() == spine.len() == to.len(),
        to.no_duplicates(),
        forall|x: int| #[trigger] to.contains(x) <==> 0 <= x < spine.len(),
        forall|m: int| 0 <= m < ids.len() ==> #[trigger] ids[m] == spine[to[m]] && 0 <= to[m] < spine.len(),
        spine.no_duplicates(),
    ensures
        spine.to_multiset() == ids.to_multiset(),
{
    assert forall|x: int, y: int| 0 <= x < y < ids.len() implies ids[x] != ids[y] by {
        assert(ids[x] == spine[to[x]] && ids[y] == spine[to[y]]);
        assert(to[x] != to[y]);
    }
    spine.to_multiset_ensures();
    ids.to_multiset_ensures();
    spine.lemma_multiset_has_no_duplicates();
    ids.lemma_multiset_has_no_duplicates();
    assert forall|s: Seq<char>| spine.contains(s) <==> #[trigger] ids.contains(s) by {
        if spine.contains(s) {
            let x = choose|x: int| 0 <= x < spine.len() && spine[x] == s;
            assert(to.contains(x));
            let m = choose|m: int| 0 <= m < to.len() && to[m] == x;
            assert(ids[m] == spine[to[m]]);
        }
        if ids.contains(s) {
            let m = choose|m: int| 0 <= m < ids.len() && ids[m] == s;
            assert(spine[to[m]] == s);
        }
    }
    assert forall|s: Seq<char>| spine.to_multiset().count(s) == #[trigger] ids.to_multiset().count(s) by {
        assert(spine.contains(s) <==> ids.contains(s));
        assert(spine.to_multiset().contains(s) <==> ids.to_multiset().contains(s));
    }
    assert(spine.to_multiset() =~= ids.to_multiset());
}

} // verus!
