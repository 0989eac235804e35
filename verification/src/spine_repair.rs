//! Reading order that contradicts the book's own navigation.
use vstd::prelude::*;

use crate::edit;
use crate::error;
use crate::markup;
use crate::opf;
use crate::package;
use crate::structure;
use crate::text;
use crate::toc;
use crate::toc_repair;
use crate::archive::Part;
use crate::codec::bytes_of;
use crate::edit::EpubPackage;
use crate::error::{Error, ErrorKind, Fault, refuse, refuse_named};
use crate::markup::attr_value;
use crate::opf::{Book, OpfData, OpfItem, item_named_in, or_empty_of};
use crate::package::{abs_path, package_doc};
use crate::structure::basename;
use crate::text::{
    add_str, chars_of, decimal_of, find_char, find_str, put, put_str, str_is, string_of,
};
use crate::toc::flatten;
use crate::toc_repair::existing_declared_toc;

verus! {

/// One spine document.
#[derive(Debug)]
pub struct SpineDoc {
    /// The manifest id that the spine names it by.
    pub idref: String,
    /// Its absolute zip path.
    pub href: String,
    /// The label of the first declared entry that targets it.
    pub label: Option<String>,
}

/// What a `SpineDoc` says.
#[verifier::ext_equal]
pub struct Doc {
    pub idref: Seq<char>,
    pub href: Seq<char>,
    pub label: Option<Seq<char>>,
}

impl View for SpineDoc {
    type V = Doc;

    open spec fn view(&self) -> Doc {
        Doc { idref: self.idref@, href: self.href@, label: text::opt_str(self.label) }
    }
}

pub open spec fn docs(v: Seq<SpineDoc>) -> Seq<Doc> {
    v.map_values(|d: SpineDoc| d@)
}

/// How far a book's spine has drifted from its own declared navigation.
#[derive(Debug)]
pub struct Misordering {
    /// Places where the next declared entry stands earlier in the spine than the
    /// one before it.
    pub descents: usize,
    /// How many spine documents the proposal would move; zero where there is no
    /// descent.
    pub moved: usize,
    /// The spine is in lexicographic order, by id or by filename.
    pub machine_sorted: bool,
    /// The first entry that the spine reads late.
    pub first_out_of_order: Option<String>,
}

/// What a `Misordering` says.
#[verifier::ext_equal]
pub struct Drift {
    pub descents: int,
    pub moved: int,
    pub machine_sorted: bool,
    pub first_out_of_order: Option<Seq<char>>,
}

impl View for Misordering {
    type V = Drift;

    open spec fn view(&self) -> Drift {
        Drift {
            descents: self.descents as int,
            moved: self.moved as int,
            machine_sorted: self.machine_sorted,
            first_out_of_order: text::opt_str(self.first_out_of_order),
        }
    }
}

impl Misordering {
    /// Whether the book contradicts itself about its own reading order.
    pub fn contradicts(&self) -> (r: bool)
        ensures
            r == (self@.descents > 0),
    {
        self.descents > 0
    }
}

// ---------------------------------------------------------------- reordering

/// Which of `len` documents the navigation names.
pub open spec fn names(order: Seq<int>, i: int) -> bool {
    order.contains(i)
}

/// The documents right behind `i` that the navigation does not name.
pub open spec fn trail(order: Seq<int>, len: int, i: int) -> Seq<int>
    decreases len - i,
{
    if i + 1 < len && !names(order, i + 1) {
        seq![i + 1] + trail(order, len, i + 1)
    } else {
        Seq::empty()
    }
}

/// The first `n` documents of the navigation, each with those that trail it.
pub open spec fn groups(order: Seq<int>, len: int, n: int) -> Seq<int>
    decreases n,
{
    if n <= 0 {
        Seq::empty()
    } else {
        groups(order, len, n - 1).push(order[n - 1]) + trail(order, len, order[n - 1])
    }
}

/// The proposed reading order of `len` documents: those that stand before any
/// named one, then the named ones in the navigation's order, each trailed by
/// the unnamed ones that followed it.
pub open spec fn spec_reorder(order: Seq<int>, len: int) -> Seq<int> {
    trail(order, len, -1) + groups(order, len, order.len() as int)
}

pub open spec fn ints(v: Seq<usize>) -> Seq<int> {
    v.map_values(|i: usize| i as int)
}

/// The documents in the navigation, each once, each one of `len`.
pub open spec fn an_order(order: Seq<int>, len: int) -> bool {
    &&& order.no_duplicates()
    &&& forall|i: int| 0 <= i < order.len() ==> 0 <= #[trigger] order[i] < len
}

fn put_trail(named: &Vec<bool>, from: usize, out: &mut Vec<usize>, Ghost(order): Ghost<Seq<int>>)
    requires
        from <= named@.len(),
        forall|k: int| 0 <= k < named@.len() ==> #[trigger] named@[k] == names(order, k),
    ensures
        ints(final(out)@) == ints(old(out)@) + trail(order, named@.len() as int, from - 1),
{
    let ghost len = named@.len() as int;
    let ghost before = ints(out@);
    let mut j: usize = from;
    while j < named.len() && !named[j]
        invariant
            from <= j <= named@.len() == len,
            forall|k: int| 0 <= k < named@.len() ==> #[trigger] named@[k] == names(order, k),
            ints(out@) + trail(order, len, j - 1) == before + trail(order, len, from - 1),
        decreases named@.len() - j,
    {
        let ghost was = ints(out@);
        out.push(j);
        assert(ints(out@) =~= was.push(j as int));
        assert(was + (seq![j as int] + trail(order, len, j as int)) =~= ints(out@) + trail(
            order,
            len,
            j as int,
        ));
        j = j + 1;
    }
    assert(ints(out@) + trail(order, len, j - 1) =~= ints(out@));
}

/// The proposed reading order of `len` documents.
pub fn reorder_to(nav_order: &Vec<usize>, len: usize) -> (r: Vec<usize>)
    requires
        forall|i: int| 0 <= i < nav_order@.len() ==> #[trigger] nav_order@[i] < len,
    ensures
        ints(r@) == spec_reorder(ints(nav_order@), len as int),
{
    let ghost order = ints(nav_order@);
    let mut named: Vec<bool> = Vec::new();
    let mut i: usize = 0;
    while i < len
        invariant
            i <= len,
            named@.len() == i,
            forall|k: int| 0 <= k < i ==> #[trigger] named@[k] == false,
        decreases len - i,
    {
        named.push(false);
        i = i + 1;
    }
    i = 0;
    while i < nav_order.len()
        invariant
            i <= nav_order@.len(),
            named@.len() == len,
            order == ints(nav_order@),
            forall|k: int| 0 <= k < nav_order@.len() ==> #[trigger] nav_order@[k] < len,
            forall|k: int|
                0 <= k < len ==> #[trigger] named@[k] == order.take(i as int).contains(k),
        decreases nav_order@.len() - i,
    {
        let ghost was = named@;
        named.set(nav_order[i], true);
        let ghost t = order.take(i as int);
        let ghost u = order.take(i + 1);
        assert(u =~= t.push(order[i as int]));
        assert forall|k: int| 0 <= k < len implies #[trigger] named@[k] == u.contains(k) by {
            if t.contains(k) {
                let j = choose|j: int| 0 <= j < t.len() && t[j] == k;
                assert(u[j] == k);
            }
            if u.contains(k) {
                let j = choose|j: int| 0 <= j < u.len() && u[j] == k;
                if j < i {
                    assert(t[j] == k);
                }
            }
            assert(u[i as int] == nav_order@[i as int]);
            assert(was[k] == t.contains(k));
        }
        i = i + 1;
    }
    assert(order.take(nav_order@.len() as int) =~= order);
    let mut out: Vec<usize> = Vec::new();
    assert(ints(out@) =~= Seq::<int>::empty());
    put_trail(&named, 0, &mut out, Ghost(order));
    let ghost head = trail(order, len as int, -1);
    assert(ints(out@) =~= head + groups(order, len as int, 0));
    i = 0;
    while i < nav_order.len()
        invariant
            i <= nav_order@.len(),
            named@.len() == len,
            order == ints(nav_order@),
            forall|k: int| 0 <= k < nav_order@.len() ==> #[trigger] nav_order@[k] < len,
            forall|k: int| 0 <= k < len ==> #[trigger] named@[k] == names(order, k),
            ints(out@) == head + groups(order, len as int, i as int),
        decreases nav_order@.len() - i,
    {
        let d = nav_order[i];
        let ghost was = ints(out@);
        out.push(d);
        assert(ints(out@) =~= was.push(order[i as int]));
        put_trail(&named, d + 1, &mut out, Ghost(order));
        assert(ints(out@) =~= head + groups(order, len as int, i + 1));
        i = i + 1;
    }
    out
}

// ---------------------------------------------------------------- laws of reordering

proof fn lemma_trail(order: Seq<int>, len: int, i: int)
    requires
        -1 <= i < len,
    ensures
        forall|k: int|
            #![trigger trail(order, len, i)[k]]
            0 <= k < trail(order, len, i).len() ==> trail(order, len, i)[k] == i + 1 + k,
        forall|k: int|
            i < k <= i + trail(order, len, i).len() ==> k < len && !#[trigger] names(order, k),
        i + trail(order, len, i).len() < len,
        i + trail(order, len, i).len() + 1 < len ==> names(
            order,
            i + trail(order, len, i).len() + 1,
        ),
    decreases len - i,
{
    if i + 1 < len && !names(order, i + 1) {
        lemma_trail(order, len, i + 1);
        let t = trail(order, len, i + 1);
        let s = trail(order, len, i);
        assert(s =~= seq![i + 1] + t);
        assert forall|k: int| #![trigger s[k]] 0 <= k < s.len() implies s[k] == i + 1 + k by {
            if k > 0 {
                assert(s[k] == t[k - 1]);
            }
        }
    }
}

/// The document that `x` travels with: the last named one up to it, or -1.
spec fn anchor(order: Seq<int>, x: int) -> int
    decreases x + 1,
{
    if x < 0 {
        -1
    } else if names(order, x) {
        x
    } else {
        anchor(order, x - 1)
    }
}

proof fn lemma_anchor(order: Seq<int>, len: int, x: int)
    requires
        0 <= x < len,
    ensures
        -1 <= anchor(order, x) <= x,
        anchor(order, x) >= 0 ==> names(order, anchor(order, x)),
        x - anchor(order, x) <= trail(order, len, anchor(order, x)).len(),
    decreases x,
{
    if names(order, x) {
    } else if x == 0 {
        assert(anchor(order, -1) == -1);
        lemma_trail(order, len, -1);
    } else {
        lemma_anchor(order, len, x - 1);
        let a = anchor(order, x - 1);
        lemma_trail(order, len, a);
        if x - a > trail(order, len, a).len() {
            assert(x == a + trail(order, len, a).len() + 1);
            assert(names(order, x));
        }
    }
}

proof fn lemma_groups_hold(order: Seq<int>, len: int, n: int, j: int, x: int)
    requires
        0 <= j < n <= order.len(),
        an_order(order, len),
        order[j] <= x <= order[j] + trail(order, len, order[j]).len(),
    ensures
        groups(order, len, n).contains(x),
    decreases n,
{
    let g = groups(order, len, n);
    let h = groups(order, len, n - 1);
    if j == n - 1 {
        let d = order[j];
        lemma_trail(order, len, d);
        if x == d {
            assert(g[h.len() as int] == x);
        } else {
            assert(trail(order, len, d)[x - d - 1] == x);
            assert(g[h.len() + 1 + (x - d - 1)] == x);
        }
    } else {
        lemma_groups_hold(order, len, n - 1, j, x);
        let k = choose|k: int| 0 <= k < h.len() && h[k] == x;
        assert(g[k] == x);
    }
}

proof fn lemma_reorder_holds(order: Seq<int>, len: int, x: int)
    requires
        an_order(order, len),
        0 <= x < len,
    ensures
        spec_reorder(order, len).contains(x),
{
    lemma_anchor(order, len, x);
    let a = anchor(order, x);
    let s = spec_reorder(order, len);
    let head = trail(order, len, -1);
    lemma_trail(order, len, a);
    if a < 0 {
        assert(head[x] == x);
        assert(s[x] == x);
    } else {
        let j = choose|j: int| 0 <= j < order.len() && order[j] == a;
        lemma_groups_hold(order, len, order.len() as int, j, x);
        let g = groups(order, len, order.len() as int);
        let k = choose|k: int| 0 <= k < g.len() && g[k] == x;
        assert(s[head.len() + k] == x);
    }
}

/// Which entry of the order a place in the proposal belongs to.
spec fn in_group(order: Seq<int>, len: int, j: int, x: int) -> bool {
    0 <= j < order.len() && order[j] <= x <= order[j] + trail(order, len, order[j]).len()
}

proof fn lemma_groups_only(order: Seq<int>, len: int, n: int, k: int)
    requires
        0 <= n <= order.len(),
        an_order(order, len),
        0 <= k < groups(order, len, n).len(),
    ensures
        exists|j: int| 0 <= j < n && in_group(order, len, j, groups(order, len, n)[k]),
    decreases n,
{
    let g = groups(order, len, n);
    let h = groups(order, len, n - 1);
    if k < h.len() {
        lemma_groups_only(order, len, n - 1, k);
        assert(g[k] == h[k]);
        let j = choose|j: int| 0 <= j < n - 1 && in_group(order, len, j, h[k]);
        assert(in_group(order, len, j, g[k]));
    } else {
        let d = order[n - 1];
        lemma_trail(order, len, d);
        if k == h.len() {
            assert(g[k] == d);
        } else {
            assert(g[k] == trail(order, len, d)[k - h.len() - 1]);
        }
        assert(in_group(order, len, n - 1, g[k]));
    }
}

proof fn lemma_groups_apart(order: Seq<int>, len: int, i: int, j: int, x: int)
    requires
        an_order(order, len),
        in_group(order, len, i, x),
        in_group(order, len, j, x),
    ensures
        i == j,
{
    lemma_trail(order, len, order[i]);
    lemma_trail(order, len, order[j]);
    if order[i] < order[j] {
        assert(names(order, order[j]));
        assert(!names(order, order[j]));
    } else if order[j] < order[i] {
        assert(names(order, order[i]));
        assert(!names(order, order[i]));
    }
}

proof fn lemma_groups_distinct(order: Seq<int>, len: int, n: int)
    requires
        0 <= n <= order.len(),
        an_order(order, len),
    ensures
        groups(order, len, n).no_duplicates(),
    decreases n,
{
    if n > 0 {
        lemma_groups_distinct(order, len, n - 1);
        let g = groups(order, len, n);
        let h = groups(order, len, n - 1);
        let d = order[n - 1];
        lemma_trail(order, len, d);
        assert forall|a: int, b: int| 0 <= a < b < g.len() implies g[a] != g[b] by {
            if b < h.len() {
                assert(g[a] == h[a] && g[b] == h[b]);
            } else {
                if b > h.len() {
                    assert(g[b] == trail(order, len, d)[b - h.len() - 1]);
                }
                assert(in_group(order, len, n - 1, g[b]));
                if a < h.len() {
                    assert(g[a] == h[a]);
                    lemma_groups_only(order, len, n - 1, a);
                    let j = choose|j: int| 0 <= j < n - 1 && in_group(order, len, j, h[a]);
                    if g[a] == g[b] {
                        lemma_groups_apart(order, len, j, n - 1, g[b]);
                    }
                } else if a > h.len() {
                    assert(g[a] == trail(order, len, d)[a - h.len() - 1]);
                }
            }
        }
    }
}

/// A proposal is a permutation: it holds every one of the documents, none twice
/// and nothing else.
pub proof fn a_reorder_is_a_permutation(order: Seq<int>, len: int)
    requires
        an_order(order, len),
        0 <= len,
    ensures
        spec_reorder(order, len).no_duplicates(),
        forall|x: int| #[trigger] spec_reorder(order, len).contains(x) <==> 0 <= x < len,
{
    let s = spec_reorder(order, len);
    let head = trail(order, len, -1);
    let g = groups(order, len, order.len() as int);
    if len > 0 {
        lemma_trail(order, len, -1);
    }
    lemma_groups_distinct(order, len, order.len() as int);
    assert forall|a: int, b: int| 0 <= a < b < s.len() implies s[a] != s[b] by {
        if b < head.len() {
            assert(s[a] == head[a] && s[b] == head[b]);
        } else {
            assert(s[b] == g[b - head.len()]);
            if a < head.len() {
                assert(s[a] == head[a]);
                lemma_groups_only(order, len, order.len() as int, b - head.len());
                let j = choose|j: int| 0 <= j < order.len() && in_group(order, len, j, s[b]);
                lemma_trail(order, len, order[j]);
                if s[a] == s[b] {
                    assert(names(order, order[j]));
                    assert(!names(order, order[j]));
                }
            } else {
                assert(s[a] == g[a - head.len()]);
            }
        }
    }
    assert forall|x: int| #[trigger] s.contains(x) <==> 0 <= x < len by {
        if 0 <= x < len {
            lemma_reorder_holds(order, len, x);
        }
        if s.contains(x) {
            let k = choose|k: int| 0 <= k < s.len() && s[k] == x;
            if k < head.len() {
                assert(s[k] == head[k]);
            } else {
                lemma_groups_only(order, len, order.len() as int, k - head.len());
                let j = choose|j: int| 0 <= j < order.len() && in_group(order, len, j, x);
                lemma_trail(order, len, order[j]);
            }
        }
    }
}

/// The whole numbers from `a` up to `b`.
pub open spec fn run(a: int, b: int) -> Seq<int> {
    Seq::new(
        if b > a {
            (b - a) as nat
        } else {
            0
        },
        |i: int| a + i,
    )
}

proof fn lemma_ascending_groups(order: Seq<int>, len: int, n: int)
    requires
        an_order(order, len),
        forall|i: int, j: int| 0 <= i < j < order.len() ==> order[i] < order[j],
        0 <= n <= order.len(),
        0 <= len,
    ensures
        trail(order, len, -1) + groups(order, len, n) == run(
            0,
            if n < order.len() {
                order[n]
            } else {
                len
            },
        ),
    decreases n,
{
    let head = trail(order, len, -1);
    if n > 0 {
        lemma_ascending_groups(order, len, n - 1);
        let d = order[n - 1];
        let t = trail(order, len, d);
        lemma_trail(order, len, d);
        let e = if n < order.len() {
            order[n]
        } else {
            len
        };
        assert(d + t.len() + 1 == e) by {
            if d + t.len() + 1 < len {
                let x = d + t.len() + 1;
                let j = choose|j: int| 0 <= j < order.len() && order[j] == x;
                assert(names(order, x));
                if n < order.len() {
                    if e < x {
                        assert(names(order, e));
                        assert(!names(order, e));
                    }
                    if j < n {
                        if j < n - 1 {
                            assert(order[j] < order[n - 1]);
                        }
                    } else if j > n {
                        assert(order[n] < order[j]);
                    }
                } else {
                    if j < n - 1 {
                        assert(order[j] < order[n - 1]);
                    }
                }
            } else if n < order.len() {
                assert(order[n - 1] < order[n]);
                assert(names(order, e));
                assert(!names(order, e));
            }
        }
        assert(head + groups(order, len, n) =~= run(0, d).push(d) + t);
        assert(run(0, d).push(d) + t =~= run(0, e));
    } else {
        if len > 0 {
            lemma_trail(order, len, -1);
            let e = if 0 < order.len() {
                order[0]
            } else {
                len
            };
            assert(head.len() == e) by {
                if head.len() < len {
                    let x = head.len() as int;
                    assert(names(order, x));
                    let j = choose|j: int| 0 <= j < order.len() && order[j] == x;
                    if e < x {
                        assert(names(order, e));
                        assert(!names(order, e));
                    }
                    if j > 0 {
                        assert(order[0] < order[j]);
                    }
                } else if order.len() > 0 {
                    assert(names(order, e));
                    assert(!names(order, e));
                }
            }
            assert(head + groups(order, len, 0) =~= run(0, e));
        } else {
            assert(order.len() == 0) by {
                if order.len() > 0 {
                    assert(0 <= order[0] < len);
                }
            }
            assert(head + groups(order, len, 0) =~= run(0, len));
        }
    }
}

/// A book whose navigation agrees with its spine proposes itself.
pub proof fn an_agreeing_book_proposes_itself(order: Seq<int>, len: int)
    requires
        an_order(order, len),
        0 <= len,
        forall|i: int, j: int| 0 <= i < j < order.len() ==> order[i] < order[j],
    ensures
        spec_reorder(order, len) == run(0, len),
{
    lemma_ascending_groups(order, len, order.len() as int);
}

// ---------------------------------------------------------------- the analysis

/// The documents that the first `n` ids of the spine name, without labels.
pub open spec fn docs_to(items: Seq<OpfItem>, spine: Seq<Seq<char>>, base: Seq<char>, n: int) -> Seq<
    Doc,
>
    decreases n,
{
    if n <= 0 {
        Seq::empty()
    } else {
        let before = docs_to(items, spine, base, n - 1);
        match opf::item_named(items, spine[n - 1], 0) {
            Some(item) => before.push(
                Doc {
                    idref: spine[n - 1],
                    href: package::spec_abs(base, item.href),
                    label: None,
                },
            ),
            None => before,
        }
    }
}

/// The first document from `i` on with the filename.
pub open spec fn doc_at(v: Seq<Doc>, file: Seq<char>, i: int) -> Option<int>
    decreases v.len() - i,
{
    if i < 0 || i >= v.len() {
        None
    } else if structure::spec_basename(v[i].href) == file {
        Some(i)
    } else {
        doc_at(v, file, i + 1)
    }
}

/// The documents with their labels, and the order in which the declared entries
/// name them, each once.
#[verifier::ext_equal]
pub struct Named {
    pub docs: Seq<Doc>,
    pub order: Seq<int>,
}

/// The state once a declared entry is met. An entry that names nothing in the
/// spine says nothing, and the first that names a document labels it.
pub open spec fn entry_met(n: Named, label: Seq<char>, href: Seq<char>) -> Named {
    match doc_at(n.docs, structure::spec_basename(href), 0) {
        None => n,
        Some(i) => Named {
            docs: if n.docs[i].label is None {
                n.docs.update(i, Doc { label: Some(label), ..n.docs[i] })
            } else {
                n.docs
            },
            order: if n.order.contains(i) {
                n.order
            } else {
                n.order.push(i)
            },
        },
    }
}

/// The state once the first `k` declared entries are met.
pub open spec fn entries_met(v: Seq<Doc>, flat: Seq<(Seq<char>, Seq<char>)>, k: int) -> Named
    decreases k,
{
    if k <= 0 {
        Named { docs: v, order: Seq::empty() }
    } else {
        entry_met(entries_met(v, flat, k - 1), flat[k - 1].0, flat[k - 1].1)
    }
}

/// How many of the first `n` neighbours in `v` go down.
pub open spec fn descents_to(v: Seq<int>, n: int) -> int
    decreases n,
{
    if n <= 0 {
        0
    } else {
        descents_to(v, n - 1) + if v[n - 1] > v[n] {
            1int
        } else {
            0
        }
    }
}

/// The first of the neighbours from `i` on that goes down.
pub open spec fn first_descent(v: Seq<int>, i: int) -> Option<int>
    decreases v.len() - i,
{
    if i < 0 || i + 1 >= v.len() {
        None
    } else if v[i] > v[i + 1] {
        Some(v[i])
    } else {
        first_descent(v, i + 1)
    }
}

/// How many of the first `n` places hold another number than their own.
pub open spec fn moved_to(v: Seq<int>, n: int) -> int
    decreases n,
{
    if n <= 0 {
        0
    } else {
        moved_to(v, n - 1) + if v[n - 1] != n - 1 {
            1int
        } else {
            0
        }
    }
}

/// `a` is not behind `b` in lexicographic order, from `i` on.
pub open spec fn not_behind(a: Seq<char>, b: Seq<char>, i: int) -> bool
    decreases a.len() - i,
{
    if i < 0 || i >= a.len() {
        true
    } else if i >= b.len() {
        false
    } else if a[i] != b[i] {
        a[i] < b[i]
    } else {
        not_behind(a, b, i + 1)
    }
}

/// The texts are in lexicographic order.
pub open spec fn in_order(v: Seq<Seq<char>>) -> bool {
    forall|i: int| 0 <= i < v.len() - 1 ==> not_behind(#[trigger] v[i], v[i + 1], 0)
}

pub open spec fn files(v: Seq<Doc>) -> Seq<Seq<char>> {
    v.map_values(|d: Doc| structure::spec_basename(d.href))
}

/// What the analysis of a book says.
#[verifier::ext_equal]
pub struct Analysed {
    pub docs: Seq<Doc>,
    pub proposed: Seq<int>,
    pub drift: Drift,
}

/// The analysis of a book whose package document says `b` and whose declared
/// entries are `flat`.
pub open spec fn analysed(
    b: Book,
    base: Seq<char>,
    flat: Seq<(Seq<char>, Seq<char>)>,
) -> Analysed {
    let v = docs_to(b.items, b.spine, base, b.spine.len() as int);
    let n = entries_met(v, flat, flat.len() as int);
    let proposed = spec_reorder(n.order, n.docs.len() as int);
    let descents = descents_to(n.order, n.order.len() - 1);
    Analysed {
        docs: n.docs,
        proposed,
        drift: Drift {
            descents,
            moved: if descents == 0 {
                0
            } else {
                moved_to(proposed, n.docs.len() as int)
            },
            machine_sorted: n.docs.len() >= 3 && (in_order(b.spine) || in_order(files(n.docs))),
            first_out_of_order: match first_descent(n.order, 0) {
                Some(i) => n.docs[i].label,
                None => None,
            },
        },
    }
}

/// The declared table of contents as labels and absolute hrefs, in its own
/// order.
pub open spec fn spec_flatten_declared(p: Seq<Part>, b: Book, base: Seq<char>) -> Seq<
    (Seq<char>, Seq<char>),
> {
    toc::spec_flatten(toc_repair::spec_existing_declared(p, b, base))
}

/// The declared table of contents as labels and absolute hrefs, in its own
/// order.
pub fn flatten_declared(pkg: &EpubPackage, opf: &OpfData, opf_base: &str) -> (r: Vec<
    (String, String),
>)
    ensures
        edit::pairs(r@) == spec_flatten_declared(pkg@, opf@, opf_base@),
{
    flatten(&existing_declared_toc(pkg, opf, opf_base))
}

/// The analysis of an EPUB.
pub open spec fn spec_analyze(bytes: Seq<u8>) -> Result<Analysed, Fault> {
    match edit::spec_parse(bytes) {
        None => Err(Fault::Archive),
        Some(p) => match package::spec_package_doc(p) {
            Err(f) => Err(f),
            Ok(d) => Ok(
                analysed(d.book, d.base(), spec_flatten_declared(p, d.book, d.base())),
            ),
        },
    }
}

struct Analysis {
    docs: Vec<SpineDoc>,
    proposed: Vec<usize>,
    misordering: Misordering,
}

impl Analysis {
    spec fn says(self) -> Analysed {
        Analysed {
            docs: docs(self.docs@),
            proposed: ints(self.proposed@),
            drift: self.misordering@,
        }
    }
}

proof fn lemma_docs_push(v: Seq<SpineDoc>, x: SpineDoc)
    ensures
        docs(v.push(x)) == docs(v).push(x@),
{
    assert(docs(v.push(x)) =~= docs(v).push(x@));
}

fn spine_docs(opf: &OpfData, opf_base: &str) -> (r: Vec<SpineDoc>)
    ensures
        docs(r@) == docs_to(opf@.items, opf@.spine, opf_base@, opf@.spine.len() as int),
{
    let mut out: Vec<SpineDoc> = Vec::new();
    assert(docs(out@) =~= Seq::<Doc>::empty());
    let mut i: usize = 0;
    while i < opf.spine_ids.len()
        invariant
            i <= opf.spine_ids@.len(),
            docs(out@) == docs_to(opf@.items, opf@.spine, opf_base@, i as int),
        decreases opf.spine_ids@.len() - i,
    {
        assert(opf@.spine[i as int] == opf.spine_ids@[i as int]@);
        if let Some(k) = item_named_in(&opf.manifest, &opf.spine_ids[i]) {
            let d = SpineDoc {
                idref: opf.spine_ids[i].clone(),
                href: abs_path(opf_base, &opf.manifest[k].href),
                label: None,
            };
            proof {
                lemma_docs_push(out@, d);
            }
            out.push(d);
        }
        i = i + 1;
    }
    out
}

fn doc_index(v: &Vec<SpineDoc>, file: &str) -> (r: Option<usize>)
    ensures
        text::pos(r) == doc_at(docs(v@), file@, 0),
        r matches Some(i) ==> i < v@.len(),
{
    let mut i: usize = 0;
    while i < v.len()
        invariant
            i <= v@.len(),
            doc_at(docs(v@), file@, 0) == doc_at(docs(v@), file@, i as int),
        decreases v@.len() - i,
    {
        assert(docs(v@)[i as int] == v@[i as int]@);
        if str_is(&basename(&v[i].href), file) {
            return Some(i);
        }
        i = i + 1;
    }
    None
}

fn has_index(v: &Vec<usize>, x: usize) -> (r: bool)
    ensures
        r == ints(v@).contains(x as int),
{
    let mut i: usize = 0;
    while i < v.len()
        invariant
            i <= v@.len(),
            forall|k: int| 0 <= k < i ==> #[trigger] ints(v@)[k] != x,
        decreases v@.len() - i,
    {
        if v[i] == x {
            assert(ints(v@)[i as int] == x);
            return true;
        }
        i = i + 1;
    }
    false
}

/// Whether `a` is not behind `b` in lexicographic order.
pub fn not_behind_of(a: &[char], b: &[char]) -> (r: bool)
    ensures
        r == not_behind(a@, b@, 0),
{
    let mut i: usize = 0;
    while i < a.len()
        invariant
            i <= a@.len(),
            not_behind(a@, b@, 0) == not_behind(a@, b@, i as int),
        decreases a@.len() - i,
    {
        if i >= b.len() {
            return false;
        }
        if a[i] != b[i] {
            return a[i] < b[i];
        }
        i = i + 1;
    }
    true
}

fn ordered(v: &Vec<String>) -> (r: bool)
    ensures
        r == in_order(text::strs(v@)),
{
    let ghost all = text::strs(v@);
    let mut i: usize = 0;
    while i < v.len() && v.len() - i > 1
        invariant
            i <= v@.len(),
            all == text::strs(v@),
            forall|k: int|
                0 <= k < i && k < all.len() - 1 ==> not_behind(#[trigger] all[k], all[k + 1], 0),
        decreases v@.len() - i,
    {
        assert(all[i as int] == v@[i as int]@);
        assert(all[i + 1] == v@[i + 1]@);
        if !not_behind_of(&chars_of(&v[i]), &chars_of(&v[i + 1])) {
            assert(!not_behind(all[i as int], all[i + 1], 0));
            return false;
        }
        i = i + 1;
    }
    true
}

fn machine_sorted(ids: &Vec<String>, v: &Vec<SpineDoc>) -> (r: bool)
    ensures
        r == (docs(v@).len() >= 3 && (in_order(text::strs(ids@)) || in_order(files(docs(v@))))),
{
    if v.len() < 3 {
        return false;
    }
    if ordered(ids) {
        return true;
    }
    let mut names: Vec<String> = Vec::new();
    let mut i: usize = 0;
    while i < v.len()
        invariant
            i <= v@.len(),
            text::strs(names@) == files(docs(v@)).take(i as int),
        decreases v@.len() - i,
    {
        add_str(&mut names, basename(&v[i].href));
        assert(docs(v@)[i as int] == v@[i as int]@);
        assert(files(docs(v@))[i as int] == structure::spec_basename(v@[i as int].href@));
        assert(files(docs(v@)).take(i + 1) =~= files(docs(v@)).take(i as int).push(
            files(docs(v@))[i as int],
        ));
        i = i + 1;
    }
    assert(files(docs(v@)).take(v@.len() as int) =~= files(docs(v@)));
    ordered(&names)
}

fn label_at(v: &mut Vec<SpineDoc>, i: usize, label: &String)
    requires
        i < old(v)@.len(),
    ensures
        docs(final(v)@) == if docs(old(v)@)[i as int].label is None {
            docs(old(v)@).update(
                i as int,
                Doc { label: Some(label@), ..docs(old(v)@)[i as int] },
            )
        } else {
            docs(old(v)@)
        },
{
    assert(docs(v@)[i as int] == v@[i as int]@);
    if v[i].label.is_none() {
        let d = SpineDoc {
            idref: v[i].idref.clone(),
            href: v[i].href.clone(),
            label: Some(label.clone()),
        };
        let ghost before = docs(v@);
        let ghost dv = d@;
        v.set(i, d);
        assert(docs(v@) =~= before.update(i as int, dv));
    }
}

pub proof fn lemma_doc_at(v: Seq<Doc>, file: Seq<char>, i: int)
    requires
        0 <= i,
    ensures
        doc_at(v, file, i) matches Some(k) ==> i <= k < v.len(),
    decreases v.len() - i,
{
    if i < v.len() {
        lemma_doc_at(v, file, i + 1);
    }
}

/// The order in which declared entries name the documents is one: each document
/// once, each one of the spine.
pub proof fn lemma_entries_order(v: Seq<Doc>, flat: Seq<(Seq<char>, Seq<char>)>, k: int)
    requires
        0 <= k <= flat.len(),
    ensures
        an_order(entries_met(v, flat, k).order, v.len() as int),
        entries_met(v, flat, k).docs.len() == v.len(),
    decreases k,
{
    if k > 0 {
        lemma_entries_order(v, flat, k - 1);
        let n = entries_met(v, flat, k - 1);
        lemma_doc_at(n.docs, structure::spec_basename(flat[k - 1].1), 0);
    }
}

fn analyze(epub_bytes: &[u8]) -> (r: Result<Analysis, Error>)
    ensures
        match r {
            Ok(a) => spec_analyze(epub_bytes@) == Ok::<Analysed, Fault>(a.says()),
            Err(e) => spec_analyze(epub_bytes@) == Err::<Analysed, Fault>(e@),
        },
        r matches Ok(a) ==> a.proposed@.len() == a.docs@.len() && forall|i: int|
            0 <= i < a.proposed@.len() ==> #[trigger] a.proposed@[i] < a.docs@.len(),
{
    let pkg = match EpubPackage::parse(epub_bytes) {
        Ok(p) => p,
        Err(e) => {
            return Err(e);
        },
    };
    let d = match package_doc(&pkg) {
        Ok(d) => d,
        Err(e) => {
            return Err(e);
        },
    };
    let flat = flatten_declared(&pkg, &d.opf, &d.base);
    let ghost fs = edit::pairs(flat@);
    let mut v = spine_docs(&d.opf, &d.base);
    let ghost v0 = docs(v@);
    let mut order: Vec<usize> = Vec::new();
    assert(ints(order@) =~= Seq::<int>::empty());
    let mut i: usize = 0;
    while i < flat.len()
        invariant
            i <= flat@.len(),
            fs == edit::pairs(flat@),
            (Named { docs: docs(v@), order: ints(order@) }) == entries_met(v0, fs, i as int),
        decreases flat@.len() - i,
    {
        assert(fs[i as int] == (flat@[i as int].0@, flat@[i as int].1@));
        if let Some(k) = doc_index(&v, &basename(&flat[i].1)) {
            label_at(&mut v, k, &flat[i].0);
            if !has_index(&order, k) {
                let ghost was = ints(order@);
                order.push(k);
                assert(ints(order@) =~= was.push(k as int));
            }
        }
        i = i + 1;
    }
    let ghost n = entries_met(v0, fs, fs.len() as int);
    proof {
        lemma_entries_order(v0, fs, fs.len() as int);
        assert forall|k: int| 0 <= k < order@.len() implies #[trigger] order@[k] < v@.len() by {
            assert(n.order[k] == order@[k]);
        }
    }
    let mut descents: usize = 0;
    let mut first: Option<usize> = None;
    i = 0;
    while i < order.len() && order.len() - i > 1
        invariant
            i <= order@.len(),
            order@.len() > 0 ==> i < order@.len(),
            n.order == ints(order@),
            descents <= i,
            descents == descents_to(n.order, i as int),
            match first {
                Some(x) => first_descent(n.order, 0) == Some(x as int) && x < v@.len(),
                None => first_descent(n.order, 0) == first_descent(n.order, i as int),
            },
            forall|k: int| 0 <= k < order@.len() ==> #[trigger] order@[k] < v@.len(),
        decreases order@.len() - i,
    {
        assert(n.order[i as int] == order@[i as int]);
        assert(n.order[i + 1] == order@[i + 1]);
        if order[i] > order[i + 1] {
            if first.is_none() {
                first = Some(order[i]);
            }
            descents = descents + 1;
        }
        i = i + 1;
    }
    let proposed = reorder_to(&order, v.len());
    let ghost ps = ints(proposed@);
    proof {
        a_reorder_is_a_permutation(n.order, v@.len() as int);
        lemma_permutation_len(ps, v@.len() as int);
        assert forall|k: int| 0 <= k < proposed@.len() implies #[trigger] proposed@[k]
            < v@.len() by {
            assert(ps[k] == proposed@[k]);
            assert(ps.contains(ps[k]));
        }
    }
    let mut moved: usize = 0;
    i = 0;
    while i < v.len()
        invariant
            i <= v@.len() == proposed@.len(),
            ps == ints(proposed@),
            moved <= i,
            moved == moved_to(ps, i as int),
        decreases v@.len() - i,
    {
        assert(ps[i as int] == proposed@[i as int]);
        if proposed[i] != i {
            moved = moved + 1;
        }
        i = i + 1;
    }
    let label = match first {
        Some(x) => {
            assert(docs(v@)[x as int] == v@[x as int]@);
            copy_label(&v[x].label)
        },
        None => None,
    };
    let misordering = Misordering {
        descents,
        moved: if descents == 0 {
            0
        } else {
            moved
        },
        machine_sorted: machine_sorted(&d.opf.spine_ids, &v),
        first_out_of_order: label,
    };
    let a = Analysis { docs: v, proposed, misordering };
    assert(a.says() =~= analysed(d@.book, d@.base(), fs));
    Ok(a)
}

fn copy_label(l: &Option<String>) -> (r: Option<String>)
    ensures
        text::opt_str(r) == text::opt_str(*l),
{
    match l {
        Some(s) => Some(s.clone()),
        None => None,
    }
}

pub proof fn lemma_permutation_len(s: Seq<int>, n: int)
    requires
        0 <= n,
        s.no_duplicates(),
        forall|x: int| #[trigger] s.contains(x) <==> 0 <= x < n,
    ensures
        s.len() == n,
{
    s.unique_seq_to_set();
    let r = run(0, n);
    assert(r.no_duplicates());
    r.unique_seq_to_set();
    assert(s.to_set() =~= r.to_set()) by {
        assert forall|x: int| s.to_set().contains(x) <==> r.to_set().contains(x) by {
            if 0 <= x < n {
                assert(r[x] == x);
                assert(s.contains(x));
            }
            if r.contains(x) {
                let k = choose|k: int| 0 <= k < r.len() && r[k] == x;
            }
        }
    }
}

/// Measures how far the spine has drifted from the declared navigation.
pub fn declared_spine_misordering(epub_bytes: &[u8]) -> (r: Result<Misordering, Error>)
    ensures
        match r {
            Ok(m) => spec_analyze(epub_bytes@) matches Ok(a) && m@ == a.drift,
            Err(e) => spec_analyze(epub_bytes@) == Err::<Analysed, Fault>(e@),
        },
{
    match analyze(epub_bytes) {
        Ok(a) => Ok(a.misordering),
        Err(e) => Err(e),
    }
}

fn copy_doc(d: &SpineDoc) -> (r: SpineDoc)
    ensures
        r@ == d@,
{
    SpineDoc { idref: d.idref.clone(), href: d.href.clone(), label: copy_label(&d.label) }
}

/// The documents `v` in the order `order`.
pub open spec fn arranged(v: Seq<Doc>, order: Seq<int>) -> Seq<Doc> {
    order.map_values(|i: int| v[i])
}

/// The spine in the order that the book's own navigation implies.
pub fn propose_spine(epub_bytes: &[u8]) -> (r: Result<Vec<SpineDoc>, Error>)
    ensures
        match r {
            Ok(v) => spec_analyze(epub_bytes@) matches Ok(a) && docs(v@) == arranged(
                a.docs,
                a.proposed,
            ),
            Err(e) => spec_analyze(epub_bytes@) == Err::<Analysed, Fault>(e@),
        },
{
    let a = match analyze(epub_bytes) {
        Ok(a) => a,
        Err(e) => {
            return Err(e);
        },
    };
    let ghost s = a.says();
    let mut out: Vec<SpineDoc> = Vec::new();
    let mut i: usize = 0;
    while i < a.proposed.len()
        invariant
            i <= a.proposed@.len(),
            s == a.says(),
            forall|k: int| 0 <= k < a.proposed@.len() ==> #[trigger] a.proposed@[k] < a.docs@.len(),
            docs(out@) == arranged(s.docs, s.proposed.take(i as int)),
        decreases a.proposed@.len() - i,
    {
        let d = copy_doc(&a.docs[a.proposed[i]]);
        proof {
            lemma_docs_push(out@, d);
            assert(s.proposed[i as int] == a.proposed@[i as int]);
            assert(s.docs[a.proposed@[i as int] as int] == a.docs@[a.proposed@[i as int] as int]@);
        }
        out.push(d);
        assert(docs(out@) =~= arranged(s.docs, s.proposed.take(i + 1)));
        i = i + 1;
    }
    assert(s.proposed.take(a.proposed@.len() as int) =~= s.proposed);
    Ok(out)
}

/// The spine as the book declares it, in reading order.
pub fn current_spine(epub_bytes: &[u8]) -> (r: Result<Vec<SpineDoc>, Error>)
    ensures
        match r {
            Ok(v) => spec_analyze(epub_bytes@) matches Ok(a) && docs(v@) == a.docs,
            Err(e) => spec_analyze(epub_bytes@) == Err::<Analysed, Fault>(e@),
        },
{
    match analyze(epub_bytes) {
        Ok(a) => Ok(a.docs),
        Err(e) => Err(e),
    }
}

// ---------------------------------------------------------------- writing an order

/// How often `x` stands among the first `n` of `v`.
pub open spec fn count_to(v: Seq<Seq<char>>, x: Seq<char>, n: int) -> int
    decreases n,
{
    if n <= 0 {
        0
    } else {
        count_to(v, x, n - 1) + if v[n - 1] == x {
            1int
        } else {
            0
        }
    }
}

pub proof fn lemma_count(v: Seq<Seq<char>>, x: Seq<char>, n: int)
    requires
        0 <= n <= v.len(),
    ensures
        count_to(v, x, n) == v.take(n).to_multiset().count(x),
    decreases n,
{
    broadcast use vstd::seq_lib::group_to_multiset_ensures;

    if n > 0 {
        lemma_count(v, x, n - 1);
        assert(v.take(n) =~= v.take(n - 1).push(v[n - 1]));
        v.take(n - 1).to_multiset_ensures();
    } else {
        assert(v.take(0) =~= Seq::<Seq<char>>::empty());
        Seq::<Seq<char>>::empty().to_multiset_ensures();
        assert(Seq::<Seq<char>>::empty().to_multiset().len() == 0);
    }
}

fn count_of(v: &Vec<String>, x: &str, to: usize) -> (r: usize)
    requires
        to <= v@.len(),
    ensures
        r == count_to(text::strs(v@), x@, to as int),
        r <= to,
{
    let ghost all = text::strs(v@);
    let mut n: usize = 0;
    let mut i: usize = 0;
    while i < to
        invariant
            i <= to <= v@.len(),
            all == text::strs(v@),
            n <= i,
            n == count_to(all, x@, i as int),
        decreases to - i,
    {
        assert(all[i as int] == v@[i as int]@);
        if str_is(&v[i], x) {
            n = n + 1;
        }
        i = i + 1;
    }
    n
}

fn counts_agree(a: &Vec<String>, b: &Vec<String>) -> (r: bool)
    ensures
        r == forall|x: Seq<char>|
            #![trigger text::strs(a@).contains(x)]
            text::strs(a@).contains(x) ==> text::strs(a@).to_multiset().count(x) == text::strs(
                b@,
            ).to_multiset().count(x),
{
    let ghost va = text::strs(a@);
    let ghost vb = text::strs(b@);
    let mut i: usize = 0;
    while i < a.len()
        invariant
            i <= a@.len(),
            va == text::strs(a@),
            vb == text::strs(b@),
            forall|k: int|
                0 <= k < i ==> va.to_multiset().count(#[trigger] va[k]) == vb.to_multiset().count(
                    va[k],
                ),
        decreases a@.len() - i,
    {
        assert(va[i as int] == a@[i as int]@);
        proof {
            lemma_count(va, va[i as int], va.len() as int);
            lemma_count(vb, va[i as int], vb.len() as int);
            assert(va.take(va.len() as int) =~= va);
            assert(vb.take(vb.len() as int) =~= vb);
        }
        if count_of(a, &a[i], a.len()) != count_of(b, &a[i], b.len()) {
            assert(va.contains(va[i as int]));
            return false;
        }
        i = i + 1;
    }
    assert forall|x: Seq<char>| #![trigger va.contains(x)] va.contains(
        x,
    ) implies va.to_multiset().count(x) == vb.to_multiset().count(x) by {
        let k = choose|k: int| 0 <= k < va.len() && va[k] == x;
        assert(va[k] == x);
    }
    true
}

/// Whether `b` names exactly what `a` names, in whatever order.
pub fn is_permutation(a: &Vec<String>, b: &Vec<String>) -> (r: bool)
    ensures
        r == (text::strs(a@).to_multiset() == text::strs(b@).to_multiset()),
{
    let ghost va = text::strs(a@);
    let ghost vb = text::strs(b@);
    let r = counts_agree(a, b) && counts_agree(b, a);
    proof {
        va.to_multiset_ensures();
        vb.to_multiset_ensures();
        if r {
            assert forall|x: Seq<char>| va.to_multiset().count(x) == vb.to_multiset().count(x) by {
                if va.contains(x) {
                } else if vb.contains(x) {
                } else {
                    assert(va.to_multiset().count(x) == 0);
                    assert(vb.to_multiset().count(x) == 0);
                }
            }
            assert(va.to_multiset() =~= vb.to_multiset());
        }
    }
    r
}

/// A place of an `itemref` tag in the package document, with the id it names.
#[verifier::ext_equal]
pub struct Slot {
    pub start: int,
    pub end: int,
    pub id: Seq<char>,
}

/// The `itemref` tags from `i` up to `b`.
pub open spec fn slots_from(t: Seq<char>, i: int, b: int) -> Seq<Slot>
    decreases b - i,
{
    match text::spec_find(t.take(b), "<itemref"@, i) {
        Some(a) if 0 <= i <= a < b => match text::spec_find_char(t.take(b), '>', a) {
            Some(g) if a <= g < b => seq![
                Slot {
                    start: a,
                    end: g + 1,
                    id: opf::or_empty(
                        markup::spec_attr_value(t.subrange(a, g + 1), "idref"@),
                    ),
                },
            ] + slots_from(t, g + 1, b),
            _ => Seq::empty(),
        },
        _ => Seq::empty(),
    }
}

/// Where the spine starts, and where it ends.
pub open spec fn spine_span(t: Seq<char>) -> Option<(int, int)> {
    match text::spec_find(t, "<spine"@, 0) {
        None => None,
        Some(a) => Some(
            (
                a,
                match text::spec_find(t, "</spine>"@, a) {
                    Some(b) => b,
                    None => t.len() as int,
                },
            ),
        ),
    }
}

/// The slot with the id from `i` on, `skip` others of that id passed over.
pub open spec fn slot_of(v: Seq<Slot>, id: Seq<char>, skip: int, i: int) -> Option<Slot>
    decreases v.len() - i,
{
    if i < 0 || i >= v.len() {
        None
    } else if v[i].id == id {
        if skip <= 0 {
            Some(v[i])
        } else {
            slot_of(v, id, skip - 1, i + 1)
        }
    } else {
        slot_of(v, id, skip, i + 1)
    }
}

/// The tag that the `n`-th slot receives: that of the id the order names there.
/// An id that is declared twice hands out its tags in the order it declared
/// them.
pub open spec fn source_of(v: Seq<Slot>, order: Seq<Seq<char>>, n: int) -> Option<Slot> {
    slot_of(v, order[n], count_to(order, order[n], n), 0)
}

/// The text up to the end of the first `n` slots, each filled with the tag that
/// the order names; nothing where there is no such tag.
pub open spec fn filled(t: Seq<char>, v: Seq<Slot>, order: Seq<Seq<char>>, n: int) -> Option<
    Seq<char>,
>
    decreases n,
{
    if n <= 0 {
        Some(Seq::empty())
    } else {
        let from = if n == 1 {
            0
        } else {
            v[n - 2].end
        };
        match (filled(t, v, order, n - 1), source_of(v, order, n - 1)) {
            (Some(out), Some(s)) => Some(
                out + t.subrange(from, v[n - 1].start) + t.subrange(s.start, s.end),
            ),
            _ => None,
        }
    }
}

/// The first of the slots from `n` on for which there is no tag.
pub open spec fn missing_from(v: Seq<Slot>, order: Seq<Seq<char>>, n: int) -> Option<Seq<char>>
    decreases v.len() - n,
{
    if n < 0 || n >= v.len() {
        None
    } else if source_of(v, order, n) is None {
        Some(order[n])
    } else {
        missing_from(v, order, n + 1)
    }
}

/// The package document with its `itemref` tags in the order `order`: each slot
/// keeps its surroundings and receives the tag of the id named for it, letter
/// for letter.
pub open spec fn spec_permute(t: Seq<char>, order: Seq<Seq<char>>) -> Result<Seq<char>, Fault> {
    match spine_span(t) {
        None => Err(Fault::Said(ErrorKind::InvalidData, "OPF declares no spine"@)),
        Some((a, b)) => {
            let v = slots_from(t, a, b);
            if v.len() != order.len() {
                Err(
                    Fault::Said(
                        ErrorKind::InvalidData,
                        "the OPF holds "@ + text::decimal(v.len()) + " itemrefs but the order names "@
                            + text::decimal(order.len()),
                    ),
                )
            } else {
                match missing_from(v, order, 0) {
                    Some(id) => Err(
                        Fault::Said(
                            ErrorKind::InvalidData,
                            "the spine has no itemref for \""@ + id + "\""@,
                        ),
                    ),
                    None => {
                        let n = v.len() as int;
                        Ok(
                            filled(t, v, order, n)->0 + t.subrange(
                                if n == 0 {
                                    0
                                } else {
                                    v[n - 1].end
                                },
                                t.len() as int,
                            ),
                        )
                    },
                }
            }
        },
    }
}

struct TagSlot {
    start: usize,
    end: usize,
    id: String,
}

impl TagSlot {
    spec fn says(self) -> Slot {
        Slot { start: self.start as int, end: self.end as int, id: self.id@ }
    }
}

spec fn slots(v: Seq<TagSlot>) -> Seq<Slot> {
    v.map_values(|s: TagSlot| s.says())
}

fn slots_in(t: &[char], a: usize, b: usize) -> (r: Vec<TagSlot>)
    requires
        a <= b <= t@.len(),
    ensures
        slots(r@) == slots_from(t@, a as int, b as int),
        slots_in_order(slots(r@), b as int),
{
    let part = &t[0..b];
    assert(part@ =~= t@.take(b as int));
    let mut out: Vec<TagSlot> = Vec::new();
    assert(slots(out@) =~= Seq::<Slot>::empty());
    let mut i: usize = a;
    proof {
        reveal_strlit("<itemref");
    }
    loop
        invariant
            i <= b <= t@.len(),
            part@ == t@.take(b as int),
            "<itemref"@.len() == 8,
            slots(out@) + slots_from(t@, i as int, b as int) == slots_from(
                t@,
                a as int,
                b as int,
            ),
            slots_in_order(slots(out@), i as int),
        decreases b - i,
    {
        let start = match find_str(part, "<itemref", i) {
            Some(s) => s,
            None => {
                assert(slots(out@) =~= slots_from(t@, a as int, b as int));
                return out;
            },
        };
        let g = match find_char(part, '>', start) {
            Some(g) => g,
            None => {
                assert(slots(out@) =~= slots_from(t@, a as int, b as int));
                return out;
            },
        };
        let id = or_empty_of(attr_value(&string_of(&t[start..g + 1]), "idref"));
        let s = TagSlot { start, end: g + 1, id };
        let ghost before = slots(out@);
        let ghost sv = s.says();
        let ghost rest = slots_from(t@, g + 1, b as int);
        out.push(s);
        assert(slots(out@) =~= before.push(sv));
        assert(before + (seq![sv] + rest) =~= slots(out@) + rest);
        assert(slots_in_order(slots(out@), g + 1)) by {
            let w = slots(out@);
            assert forall|k: int| 0 <= k < w.len() implies (#[trigger] w[k]).start < w[k].end
                <= g + 1 && w[k].start >= 0 && (k + 1 < w.len() ==> w[k].end <= w[k
                + 1].start) by {
                if k < before.len() {
                    assert(w[k] == before[k]);
                    if k + 1 < before.len() {
                        assert(w[k + 1] == before[k + 1]);
                    }
                }
            }
        }
        i = g + 1;
    }
}

/// The slots stand one behind the other, up to `b`.
pub open spec fn slots_in_order(v: Seq<Slot>, b: int) -> bool {
    forall|k: int|
        0 <= k < v.len() ==> (#[trigger] v[k]).start < v[k].end <= b && v[k].start >= 0 && (k + 1
            < v.len() ==> v[k].end <= v[k + 1].start)
}

fn slot_index(v: &Vec<TagSlot>, id: &str, skip: usize) -> (r: Option<usize>)
    ensures
        match r {
            Some(i) => i < v@.len() && slot_of(slots(v@), id@, skip as int, 0) == Some(
                v@[i as int].says(),
            ),
            None => slot_of(slots(v@), id@, skip as int, 0) is None,
        },
{
    let ghost all = slots(v@);
    let mut left: usize = skip;
    let mut i: usize = 0;
    while i < v.len()
        invariant
            i <= v@.len(),
            all == slots(v@),
            slot_of(all, id@, skip as int, 0) == slot_of(all, id@, left as int, i as int),
        decreases v@.len() - i,
    {
        assert(all[i as int] == v@[i as int].says());
        if str_is(&v[i].id, id) {
            if left == 0 {
                return Some(i);
            }
            left = left - 1;
        }
        i = i + 1;
    }
    None
}

/// The package document with its `itemref` tags in the order `order`.
pub fn permute_itemrefs(opf: &str, order: &Vec<String>) -> (r: Result<String, Error>)
    ensures
        error::str_result(r) == spec_permute(opf@, text::strs(order@)),
{
    let t = chars_of(opf);
    let ghost os = text::strs(order@);
    let a = match find_str(&t, "<spine", 0) {
        Some(a) => a,
        None => {
            return Err(refuse(ErrorKind::InvalidData, "OPF declares no spine"));
        },
    };
    let b = match find_str(&t, "</spine>", a) {
        Some(b) => b,
        None => t.len(),
    };
    let v = slots_in(&t, a, b);
    let ghost ss = slots(v@);
    if v.len() != order.len() {
        let mut m = chars_of("the OPF holds ");
        put(&mut m, &decimal_of(v.len()));
        put_str(&mut m, " itemrefs but the order names ");
        put(&mut m, &decimal_of(order.len()));
        return Err(refuse(ErrorKind::InvalidData, &string_of(&m)));
    }
    let mut out: Vec<char> = Vec::new();
    let mut prev: usize = 0;
    let mut n: usize = 0;
    while n < v.len()
        invariant
            n <= v@.len() == order@.len(),
            ss == slots(v@),
            os == text::strs(order@),
            slots_in_order(ss, b as int),
            b <= t@.len(),
            prev == if n == 0 {
                0
            } else {
                ss[n - 1].end
            },
            prev <= t@.len(),
            filled(t@, ss, os, n as int) == Some(out@),
            missing_from(ss, os, 0) == missing_from(ss, os, n as int),
            spec_permute(opf@, os) == match missing_from(ss, os, 0) {
                Some(id) => Err::<Seq<char>, Fault>(
                    Fault::Said(
                        ErrorKind::InvalidData,
                        "the spine has no itemref for \""@ + id + "\""@,
                    ),
                ),
                None => Ok::<Seq<char>, Fault>(
                    filled(t@, ss, os, ss.len() as int)->0 + t@.subrange(
                        if ss.len() == 0 {
                            0
                        } else {
                            ss[ss.len() - 1].end
                        },
                        t@.len() as int,
                    ),
                ),
            },
        decreases v@.len() - n,
    {
        assert(os[n as int] == order@[n as int]@);
        assert(ss[n as int] == v@[n as int].says());
        let skip = count_of(order, &order[n], n);
        match slot_index(&v, &order[n], skip) {
            None => {
                return Err(
                    refuse_named(
                        ErrorKind::InvalidData,
                        "the spine has no itemref for \"",
                        &order[n],
                        "\"",
                    ),
                );
            },
            Some(k) => {
                assert(ss[k as int] == v@[k as int].says());
                assert(n > 0 ==> ss[n - 1].end <= ss[n - 1 + 1].start);
                put(&mut out, &t[prev..v[n].start]);
                put(&mut out, &t[v[k].start..v[k].end]);
                prev = v[n].end;
            },
        }
        n = n + 1;
    }
    put(&mut out, &t[prev..t.len()]);
    Ok(string_of(&out))
}

/// What writing an order into a package comes to: the package with a rewritten
/// package document, or a refusal.
pub open spec fn spec_with_order(p: Seq<Part>, order: Seq<Seq<char>>) -> Result<Seq<Part>, Fault> {
    match package::spec_package_doc(p) {
        Err(f) => Err(f),
        Ok(d) => if d.book.spine.to_multiset() != order.to_multiset() {
            Err(
                Fault::Said(
                    ErrorKind::InvalidInput,
                    "a spine reorder must name exactly the documents the spine already names — adding or removing one is a different edit"@,
                ),
            )
        } else if d.book.spine == order {
            Err(Fault::Said(ErrorKind::InvalidInput, "the spine is already in this order"@))
        } else {
            match spec_permute(d.text, order) {
                Err(f) => Err(f),
                Ok(t) => Ok(edit::spec_replace(p, d.path, vstd::utf8::encode_utf8(t))),
            }
        },
    }
}

/// What `set_spine` comes to.
pub open spec fn spine_set(r: Result<Vec<u8>, Error>, bytes: Seq<u8>, order: Seq<Seq<char>>) -> bool {
    match edit::spec_parse(bytes) {
        None => r matches Err(e) && e@ == Fault::Archive,
        Some(p) => match spec_with_order(p, order) {
            Err(f) => r matches Err(e) && e@ == f,
            Ok(q) => edit::written(r, q),
        },
    }
}

fn same_strings(a: &Vec<String>, b: &Vec<String>) -> (r: bool)
    ensures
        r == (text::strs(a@) == text::strs(b@)),
{
    if a.len() != b.len() {
        assert(text::strs(a@).len() != text::strs(b@).len());
        return false;
    }
    let mut i: usize = 0;
    while i < a.len()
        invariant
            i <= a@.len() == b@.len(),
            forall|k: int| 0 <= k < i ==> text::strs(a@)[k] == text::strs(b@)[k],
        decreases a@.len() - i,
    {
        assert(text::strs(a@)[i as int] == a@[i as int]@);
        assert(text::strs(b@)[i as int] == b@[i as int]@);
        if !str_is(&a[i], &b[i]) {
            return false;
        }
        i = i + 1;
    }
    assert(text::strs(a@) =~= text::strs(b@));
    true
}

/// Writes `order`, a list of manifest ids, as the book's spine.
pub fn set_spine(epub_bytes: &[u8], order: &Vec<String>) -> (r: Result<Vec<u8>, Error>)
    ensures
        spine_set(r, epub_bytes@, text::strs(order@)),
{
    let mut pkg = match EpubPackage::parse(epub_bytes) {
        Ok(p) => p,
        Err(e) => {
            return Err(e);
        },
    };
    let d = match package_doc(&pkg) {
        Ok(d) => d,
        Err(e) => {
            return Err(e);
        },
    };
    if !is_permutation(&d.opf.spine_ids, order) {
        return Err(
            refuse(
                ErrorKind::InvalidInput,
                "a spine reorder must name exactly the documents the spine already names — adding or removing one is a different edit",
            ),
        );
    }
    if same_strings(&d.opf.spine_ids, order) {
        return Err(refuse(ErrorKind::InvalidInput, "the spine is already in this order"));
    }
    match permute_itemrefs(&d.text, order) {
        Err(e) => Err(e),
        Ok(t) => {
            pkg.replace(&d.path, bytes_of(&t));
            pkg.into_bytes()
        },
    }
}

pub open spec fn idrefs(v: Seq<Doc>) -> Seq<Seq<char>> {
    v.map_values(|d: Doc| d.idref)
}

/// Writes the order that the book's own navigation implies. A book that
/// evidences no reordering is refused.
pub fn repair_spine(epub_bytes: &[u8]) -> (r: Result<Vec<u8>, Error>)
    ensures
        match spec_analyze(epub_bytes@) {
            Err(f) => r matches Err(e) && e@ == f,
            Ok(a) => spine_set(r, epub_bytes@, idrefs(arranged(a.docs, a.proposed))),
        },
{
    let v = match propose_spine(epub_bytes) {
        Ok(v) => v,
        Err(e) => {
            return Err(e);
        },
    };
    let ghost all = idrefs(docs(v@));
    let mut order: Vec<String> = Vec::new();
    let mut i: usize = 0;
    while i < v.len()
        invariant
            i <= v@.len(),
            all == idrefs(docs(v@)),
            text::strs(order@) == all.take(i as int),
        decreases v@.len() - i,
    {
        assert(docs(v@)[i as int] == v@[i as int]@);
        assert(all[i as int] == v@[i as int].idref@);
        add_str(&mut order, v[i].idref.clone());
        assert(all.take(i + 1) =~= all.take(i as int).push(all[i as int]));
        i = i + 1;
    }
    assert(all.take(v@.len() as int) =~= all);
    set_spine(epub_bytes, &order)
}

// ---------------------------------------------------------------- agreement

proof fn lemma_no_descent(v: Seq<int>, n: int, i: int, j: int)
    requires
        v.no_duplicates(),
        descents_to(v, n) == 0,
        0 <= i < j <= n < v.len(),
    ensures
        v[i] < v[j],
    decreases n, j,
{
    lemma_descents(v, n - 1);
    if j < n {
        lemma_no_descent(v, n - 1, i, j);
    } else {
        assert(v[n - 1] != v[n]);
        if i < n - 1 {
            lemma_no_descent(v, n - 1, i, n - 1);
        }
    }
}

pub proof fn lemma_descents(v: Seq<int>, n: int)
    ensures
        descents_to(v, n) >= 0,
    decreases n,
{
    if n > 0 {
        lemma_descents(v, n - 1);
    }
}

proof fn lemma_moved(v: Seq<int>, n: int)
    ensures
        moved_to(v, n) >= 0,
        moved_to(v, n) == 0 <==> (forall|i: int| 0 <= i < n ==> #[trigger] v[i] == i),
    decreases n,
{
    if n > 0 {
        lemma_moved(v, n - 1);
    }
}

/// A book's spine and its navigation agree exactly where nothing would be moved,
/// and then the proposal is the spine as it is; `moved` counts the places at
/// which the proposal has another document.
pub proof fn agreement_moves_nothing(b: Book, base: Seq<char>, flat: Seq<(Seq<char>, Seq<char>)>)
    ensures
        ({
            let a = analysed(b, base, flat);
            &&& a.drift.moved == moved_to(a.proposed, a.docs.len() as int)
            &&& a.drift.descents == 0 ==> a.drift.moved == 0
            &&& a.drift.moved == 0 <==> a.proposed == run(0, a.docs.len() as int)
            &&& a.drift.moved == 0 ==> arranged(a.docs, a.proposed) == a.docs
        }),
{
    let v = docs_to(b.items, b.spine, base, b.spine.len() as int);
    let n = entries_met(v, flat, flat.len() as int);
    let a = analysed(b, base, flat);
    let len = a.docs.len() as int;
    lemma_entries_order(v, flat, flat.len() as int);
    lemma_moved(a.proposed, len);
    a_reorder_is_a_permutation(n.order, len);
    lemma_permutation_len(a.proposed, len);
    if a.drift.descents == 0 {
        assert forall|i: int, j: int| 0 <= i < j < n.order.len() implies n.order[i] < n.order[j] by {
            lemma_no_descent(n.order, n.order.len() - 1, i, j);
        }
        an_agreeing_book_proposes_itself(n.order, len);
    }
    if moved_to(a.proposed, len) == 0 {
        assert(a.proposed =~= run(0, len));
        assert(arranged(a.docs, a.proposed) =~= a.docs);
    }
}

/// Writing an order touches the package document alone.
pub proof fn an_order_touches_only_the_package_document(
    p: Seq<Part>,
    order: Seq<Seq<char>>,
    name: Seq<char>,
)
    ensures
        spec_with_order(p, order) matches Ok(q) ==> edit::spec_names(q) == edit::spec_names(p) && (
        edit::spec_opf_path(p) != Ok::<Seq<char>, Fault>(name) ==> edit::spec_get(q, name)
            == edit::spec_get(p, name)),
{
    if let Ok(d) = package::spec_package_doc(p) {
        if let Ok(t) = spec_permute(d.text, order) {
            edit::replacing_is_surgical(p, d.path, vstd::utf8::encode_utf8(t), name);
        }
    }
}

} // verus!
