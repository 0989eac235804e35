//! The shape of a table of contents: flat lists given back their levels, and two
//! lists merged into one.
use vstd::prelude::*;

use crate::edit;
use crate::structure;
use crate::text;
use crate::toc;
use crate::structure::strip_fragment;
use crate::text::{chars_of, list_has, past_white, str_is, string_of, trim_start};
use crate::toc::{Toc, TocEntry, copy_entries, copy_entry, flat_count, flatten};

verus! {

/// The fewest indented labels that count as levels.
pub const MIN_INDENT_EVIDENCE: usize = 3;

// ---------------------------------------------------------------- levels

/// The first place from `j` up to `b` that is no deeper than `level`.
pub open spec fn next_up(d: Seq<int>, j: int, b: int, level: int) -> int
    decreases b - j,
{
    if j >= b {
        b
    } else if d[j] <= level {
        j
    } else {
        next_up(d, j + 1, b, level)
    }
}

pub proof fn lemma_next_up(d: Seq<int>, j: int, b: int, level: int)
    requires
        j <= b,
    ensures
        j <= next_up(d, j, b, level) <= b,
    decreases b - j,
{
    if j < b && d[j] > level {
        lemma_next_up(d, j + 1, b, level);
    }
}

/// The entries from `a` up to `b` as a tree: below an entry stand those behind
/// it, up to the next one that is no deeper.
pub open spec fn forest(v: Seq<Toc>, d: Seq<int>, a: int, b: int) -> Seq<Toc>
    decreases b - a,
{
    if a >= b {
        Seq::empty()
    } else {
        let j = next_up(d, a + 1, b, d[a]);
        proof {
            lemma_next_up(d, a + 1, b, d[a]);
        }
        seq![
            Toc {
                title: v[a].title,
                href: v[a].href,
                children: v[a].children + forest(v, d, a + 1, j),
            },
        ] + forest(v, d, j, b)
    }
}

/// No entry has entries below it.
pub open spec fn is_flat(v: Seq<Toc>) -> bool {
    forall|i: int| 0 <= i < v.len() ==> (#[trigger] v[i]).children.len() == 0
}

pub proof fn lemma_flatten_concat(a: Seq<Toc>, b: Seq<Toc>)
    ensures
        toc::spec_flatten(a + b) == toc::spec_flatten(a) + toc::spec_flatten(b),
    decreases b.len(),
{
    if b.len() == 0 {
        assert(a + b =~= a);
        assert(toc::spec_flatten(a) + toc::spec_flatten(b) =~= toc::spec_flatten(a));
    } else {
        let c = a + b;
        assert(c.drop_last() =~= a + b.drop_last());
        assert(c.last() == b.last());
        lemma_flatten_concat(a, b.drop_last());
        let x = (b.last().title, b.last().href);
        assert(toc::spec_flatten(c) =~= toc::spec_flatten(a) + toc::spec_flatten(b));
    }
}

proof fn lemma_flatten_one(e: Toc)
    ensures
        toc::spec_flatten(seq![e]) == seq![(e.title, e.href)] + toc::spec_flatten(e.children),
{
    let v = seq![e];
    assert(v.drop_last() =~= Seq::<Toc>::empty());
    assert(v.last() == e);
    let none = toc::spec_flatten(v.drop_last());
    assert(none.len() == 0);
    assert(toc::spec_flatten(v) =~= none.push((e.title, e.href)) + toc::spec_flatten(e.children));
    assert(toc::spec_flatten(v) =~= seq![(e.title, e.href)] + toc::spec_flatten(e.children));
}

proof fn lemma_forest_flattens(v: Seq<Toc>, d: Seq<int>, a: int, b: int)
    requires
        0 <= a <= b <= v.len(),
        is_flat(v),
    ensures
        toc::spec_flatten(forest(v, d, a, b)) == toc::spec_flatten(v.subrange(a, b)),
    decreases b - a,
{
    if a >= b {
        assert(v.subrange(a, b) =~= Seq::<Toc>::empty());
    } else {
        let j = next_up(d, a + 1, b, d[a]);
        lemma_next_up(d, a + 1, b, d[a]);
        let inside = forest(v, d, a + 1, j);
        let e = Toc {
            title: v[a].title,
            href: v[a].href,
            children: v[a].children + inside,
        };
        let rest = forest(v, d, j, b);
        lemma_flatten_concat(seq![e], rest);
        lemma_flatten_one(e);
        assert(v[a].children + inside =~= inside);
        lemma_forest_flattens(v, d, a + 1, j);
        lemma_forest_flattens(v, d, j, b);
        lemma_flatten_one(v[a]);
        assert(v[a].children =~= Seq::<Toc>::empty());
        assert(v.subrange(a, b) =~= seq![v[a]] + (v.subrange(a + 1, j) + v.subrange(j, b)));
        lemma_flatten_concat(seq![v[a]], v.subrange(a + 1, j) + v.subrange(j, b));
        lemma_flatten_concat(v.subrange(a + 1, j), v.subrange(j, b));
        let head = seq![(v[a].title, v[a].href)];
        let x = toc::spec_flatten(v.subrange(a + 1, j));
        let y = toc::spec_flatten(v.subrange(j, b));
        assert(head + toc::spec_flatten(Seq::<Toc>::empty()) =~= head);
        assert((head + x) + y =~= head + (x + y));
    }
}

/// A flat list that is given levels loses no entry, and its entries stay in
/// order.
pub proof fn levels_keep_every_entry_in_order(v: Seq<Toc>, d: Seq<int>)
    requires
        is_flat(v),
    ensures
        toc::spec_flatten(forest(v, d, 0, v.len() as int)) == toc::spec_flatten(v),
{
    lemma_forest_flattens(v, d, 0, v.len() as int);
    assert(v.subrange(0, v.len() as int) =~= v);
}

pub open spec fn ints(v: Seq<usize>) -> Seq<int> {
    v.map_values(|x: usize| x as int)
}

fn next_up_of(d: &Vec<usize>, a: usize, b: usize, level: usize) -> (r: usize)
    requires
        a <= b <= d@.len(),
    ensures
        r == next_up(ints(d@), a as int, b as int, level as int),
        a <= r <= b,
{
    let ghost ds = ints(d@);
    let mut j: usize = a;
    while j < b && d[j] > level
        invariant
            a <= j <= b <= d@.len(),
            ds == ints(d@),
            next_up(ds, a as int, b as int, level as int) == next_up(
                ds,
                j as int,
                b as int,
                level as int,
            ),
        decreases b - j,
    {
        assert(ds[j as int] == d@[j as int]);
        j = j + 1;
    }
    assert(j < b ==> ds[j as int] == d@[j as int]);
    j
}

fn append(a: &mut Vec<TocEntry>, b: Vec<TocEntry>)
    ensures
        toc::tocs(final(a)@) == toc::tocs(old(a)@) + toc::tocs(b@),
{
    let ghost first = toc::tocs(a@);
    let ghost all = toc::tocs(b@);
    proof {
        toc::lemma_tocs(b@);
    }
    let mut i: usize = 0;
    assert(first + all.take(0) =~= first);
    while i < b.len()
        invariant
            i <= b@.len(),
            all == toc::tocs(b@),
            all.len() == b@.len(),
            forall|k: int| 0 <= k < b@.len() ==> #[trigger] all[k] == toc::toc(b@[k]),
            toc::tocs(a@) == first + all.take(i as int),
        decreases b@.len() - i,
    {
        let e = copy_entry(&b[i]);
        proof {
            toc::lemma_tocs_push(a@, e);
        }
        assert(all[i as int] == toc::toc(b@[i as int]));
        a.push(e);
        assert((first + all.take(i as int)).push(all[i as int]) =~= first + all.take(i + 1));
        i = i + 1;
    }
    assert(all.take(b@.len() as int) =~= all);
}

fn forest_of(v: &Vec<TocEntry>, d: &Vec<usize>, a: usize, b: usize) -> (r: Vec<TocEntry>)
    requires
        a <= b <= v@.len(),
        d@.len() == v@.len(),
    ensures
        toc::tocs(r@) == forest(toc::tocs(v@), ints(d@), a as int, b as int),
    decreases b - a,
{
    let ghost vs = toc::tocs(v@);
    let ghost ds = ints(d@);
    let mut out: Vec<TocEntry> = Vec::new();
    let mut i: usize = a;
    proof {
        toc::lemma_tocs(v@);
        assert(toc::tocs(out@) + forest(vs, ds, a as int, b as int) =~= forest(
            vs,
            ds,
            a as int,
            b as int,
        ));
    }
    while i < b
        invariant
            a <= i <= b <= v@.len(),
            d@.len() == v@.len(),
            vs == toc::tocs(v@),
            vs.len() == v@.len(),
            forall|k: int| 0 <= k < v@.len() ==> #[trigger] vs[k] == toc::toc(v@[k]),
            ds == ints(d@),
            toc::tocs(out@) + forest(vs, ds, i as int, b as int) == forest(
                vs,
                ds,
                a as int,
                b as int,
            ),
        decreases b - i,
    {
        let j = next_up_of(d, i + 1, b, d[i]);
        assert(ds[i as int] == d@[i as int]);
        let mut e = copy_entry(&v[i]);
        assert(vs[i as int] == toc::toc(v@[i as int]));
        let inside = forest_of(v, d, i + 1, j);
        let mut children = copy_entries(&v[i].children);
        append(&mut children, inside);
        let e = TocEntry { title: e.title, href: e.href, children };
        let ghost ev = toc::toc(e);
        let ghost before = toc::tocs(out@);
        let ghost rest = forest(vs, ds, j as int, b as int);
        proof {
            toc::lemma_tocs_push(out@, e);
        }
        out.push(e);
        assert(before + (seq![ev] + rest) =~= before.push(ev) + rest);
        i = j;
    }
    assert(toc::tocs(out@) + forest(vs, ds, i as int, b as int) =~= toc::tocs(out@));
    out
}

fn flat(v: &Vec<TocEntry>) -> (r: bool)
    ensures
        r == is_flat(toc::tocs(v@)),
{
    let ghost vs = toc::tocs(v@);
    proof {
        toc::lemma_tocs(v@);
    }
    let mut i: usize = 0;
    while i < v.len()
        invariant
            i <= v@.len(),
            vs == toc::tocs(v@),
            vs.len() == v@.len(),
            forall|k: int| 0 <= k < v@.len() ==> #[trigger] vs[k] == toc::toc(v@[k]),
            forall|k: int| 0 <= k < i ==> (#[trigger] vs[k]).children.len() == 0,
        decreases v@.len() - i,
    {
        assert(vs[i as int] == toc::toc(v@[i as int]));
        proof {
            toc::lemma_tocs(v@[i as int].children@);
        }
        if v[i].children.len() > 0 {
            return false;
        }
        i = i + 1;
    }
    true
}

// ---------------------------------------------------------------- levels by volume

/// A volume: the document that opens it, and the documents that belong to it.
#[verifier::ext_equal]
pub struct Volume {
    pub start: Seq<char>,
    pub members: Seq<Seq<char>>,
}

/// The open volumes once those that do not claim the document are closed.
pub open spec fn claimed(groups: Seq<Volume>, open: Seq<int>, doc: Seq<char>) -> Seq<int>
    decreases open.len(),
{
    if open.len() > 0 && !groups[open.last()].members.contains(doc) {
        claimed(groups, open.drop_last(), doc)
    } else {
        open
    }
}

/// The first volume from `i` on that the document opens.
pub open spec fn opened_by(groups: Seq<Volume>, doc: Seq<char>, i: int) -> Option<int>
    decreases groups.len() - i,
{
    if i < 0 || i >= groups.len() {
        None
    } else if groups[i].start == doc {
        Some(i)
    } else {
        opened_by(groups, doc, i + 1)
    }
}

/// The volumes that are open behind the first `n` entries, and how deep each of
/// those stands.
pub open spec fn volume_depths(v: Seq<Toc>, groups: Seq<Volume>, n: int) -> (Seq<int>, Seq<int>)
    decreases n,
{
    if n <= 0 {
        (Seq::empty(), Seq::empty())
    } else {
        let (open, depths) = volume_depths(v, groups, n - 1);
        let doc = structure::spec_split_fragment(v[n - 1].href).0;
        let kept = claimed(groups, open, doc);
        (
            match opened_by(groups, doc, 0) {
                Some(g) => kept.push(g),
                None => kept,
            },
            depths.push(kept.len() as int),
        )
    }
}

/// A flat list nested into its volumes: an entry that opens a volume stands over
/// the entries behind it that belong to it, volumes in volumes too. One with
/// levels already is left alone.
pub open spec fn spec_nest_by_volumes(v: Seq<Toc>, groups: Seq<Volume>) -> Seq<Toc> {
    if groups.len() == 0 || !is_flat(v) {
        v
    } else {
        forest(v, volume_depths(v, groups, v.len() as int).1, 0, v.len() as int)
    }
}

/// One volume or part of a multi-work book.
pub struct VolumeGroup {
    pub start: String,
    pub members: Vec<Vec<char>>,
}

impl View for VolumeGroup {
    type V = Volume;

    open spec fn view(&self) -> Volume {
        Volume { start: self.start@, members: text::texts(self.members@) }
    }
}

pub open spec fn volumes(v: Seq<VolumeGroup>) -> Seq<Volume> {
    v.map_values(|g: VolumeGroup| g@)
}

fn opened_by_of(groups: &Vec<VolumeGroup>, doc: &str) -> (r: Option<usize>)
    ensures
        text::pos(r) == opened_by(volumes(groups@), doc@, 0),
        r matches Some(k) ==> k < groups@.len(),
{
    let ghost gs = volumes(groups@);
    let mut i: usize = 0;
    while i < groups.len()
        invariant
            i <= groups@.len(),
            gs == volumes(groups@),
            opened_by(gs, doc@, 0) == opened_by(gs, doc@, i as int),
        decreases groups@.len() - i,
    {
        assert(gs[i as int] == groups@[i as int]@);
        if str_is(&groups[i].start, doc) {
            return Some(i);
        }
        i = i + 1;
    }
    None
}

fn volume_depths_of(v: &Vec<TocEntry>, groups: &Vec<VolumeGroup>) -> (r: Vec<usize>)
    ensures
        ints(r@) == volume_depths(toc::tocs(v@), volumes(groups@), v@.len() as int).1,
        r@.len() == v@.len(),
{
    let ghost vs = toc::tocs(v@);
    let ghost gs = volumes(groups@);
    proof {
        toc::lemma_tocs(v@);
    }
    let mut open: Vec<usize> = Vec::new();
    let mut depths: Vec<usize> = Vec::new();
    let mut i: usize = 0;
    assert(ints(open@) =~= Seq::<int>::empty());
    assert(ints(depths@) =~= Seq::<int>::empty());
    while i < v.len()
        invariant
            i <= v@.len(),
            vs == toc::tocs(v@),
            vs.len() == v@.len(),
            forall|k: int| 0 <= k < v@.len() ==> #[trigger] vs[k] == toc::toc(v@[k]),
            gs == volumes(groups@),
            depths@.len() == i,
            forall|k: int| 0 <= k < open@.len() ==> (#[trigger] open@[k]) < groups@.len(),
            (ints(open@), ints(depths@)) == volume_depths(vs, gs, i as int),
        decreases v@.len() - i,
    {
        assert(vs[i as int] == toc::toc(v@[i as int]));
        let doc = strip_fragment(&v[i].href);
        let doc_chars = chars_of(&doc);
        let ghost first = ints(open@);
        while open.len() > 0 && !list_has(&groups[open[open.len() - 1]].members, &doc_chars)
            invariant
                gs == volumes(groups@),
                doc_chars@ == doc@,
                forall|k: int| 0 <= k < open@.len() ==> (#[trigger] open@[k]) < groups@.len(),
                claimed(gs, first, doc@) == claimed(gs, ints(open@), doc@),
            decreases open@.len(),
        {
            let ghost before = ints(open@);
            let ghost top = open@[open@.len() - 1] as int;
            assert(before.last() == top);
            assert(gs[top] == groups@[top]@);
            open.pop();
            assert(ints(open@) =~= before.drop_last());
        }
        proof {
            if open@.len() > 0 {
                let top = open@[open@.len() - 1] as int;
                assert(ints(open@).last() == top);
                assert(gs[top] == groups@[top]@);
            }
            assert(claimed(gs, first, doc@) == ints(open@));
        }
        let ghost ds = ints(depths@);
        let ghost os = ints(open@);
        let n = open.len();
        depths.push(n);
        assert(ints(depths@) =~= ds.push(n as int));
        if let Some(g) = opened_by_of(groups, &doc) {
            open.push(g);
            assert(ints(open@) =~= os.push(g as int));
        }
        i = i + 1;
    }
    depths
}

/// A flat list nested into its volumes.
pub fn nest_by_volume_groups(v: Vec<TocEntry>, groups: &Vec<VolumeGroup>) -> (r: Vec<TocEntry>)
    ensures
        toc::tocs(r@) == spec_nest_by_volumes(toc::tocs(v@), volumes(groups@)),
{
    proof {
        toc::lemma_tocs(v@);
        assert(volumes(groups@).len() == groups@.len());
    }
    if groups.len() == 0 || !flat(&v) {
        return v;
    }
    let d = volume_depths_of(&v, groups);
    forest_of(&v, &d, 0, v.len())
}

// ---------------------------------------------------------------- levels by indentation

/// How many white characters a label starts with.
pub open spec fn indent_of(s: Seq<char>) -> int {
    text::skip_white(s, 0)
}

/// How many of the first `n` labels are indented.
pub open spec fn indented_to(v: Seq<Toc>, n: int) -> int
    decreases n,
{
    if n <= 0 {
        0
    } else {
        indented_to(v, n - 1) + if indent_of(v[n - 1].title) > 0 {
            1int
        } else {
            0
        }
    }
}

/// The indentations that are open once an entry indented by `w` closes those
/// that are no less.
pub open spec fn outdented(open: Seq<int>, w: int) -> Seq<int>
    decreases open.len(),
{
    if open.len() > 0 && open.last() >= w {
        outdented(open.drop_last(), w)
    } else {
        open
    }
}

/// The indentations that are open behind the first `n` entries, and how deep
/// each of those stands.
pub open spec fn indent_depths(v: Seq<Toc>, n: int) -> (Seq<int>, Seq<int>)
    decreases n,
{
    if n <= 0 {
        (Seq::empty(), Seq::empty())
    } else {
        let (open, depths) = indent_depths(v, n - 1);
        let w = indent_of(v[n - 1].title);
        let kept = outdented(open, w);
        (kept.push(w), depths.push(kept.len() as int))
    }
}

/// The entries with their labels not indented.
pub open spec fn unindented(v: Seq<Toc>) -> Seq<Toc> {
    v.map_values(
        |e: Toc|
            Toc { title: text::spec_trim_start(e.title), href: e.href, children: e.children },
    )
}

/// A flat list nested by the indentation of its labels, which go without it
/// then. One with too few indented labels, or with levels already, is left
/// alone.
pub open spec fn spec_nest_by_indent(v: Seq<Toc>) -> Seq<Toc> {
    if !is_flat(v) || indented_to(v, v.len() as int) < MIN_INDENT_EVIDENCE {
        v
    } else {
        forest(unindented(v), indent_depths(v, v.len() as int).1, 0, v.len() as int)
    }
}

fn indented_count(v: &Vec<TocEntry>) -> (r: usize)
    ensures
        r == indented_to(toc::tocs(v@), v@.len() as int),
{
    let ghost vs = toc::tocs(v@);
    proof {
        toc::lemma_tocs(v@);
    }
    let mut n: usize = 0;
    let mut i: usize = 0;
    while i < v.len()
        invariant
            i <= v@.len(),
            vs == toc::tocs(v@),
            vs.len() == v@.len(),
            forall|k: int| 0 <= k < v@.len() ==> #[trigger] vs[k] == toc::toc(v@[k]),
            n <= i,
            n == indented_to(vs, i as int),
        decreases v@.len() - i,
    {
        assert(vs[i as int] == toc::toc(v@[i as int]));
        let t = chars_of(&v[i].title);
        if past_white(&t, 0) > 0 {
            n = n + 1;
        }
        i = i + 1;
    }
    n
}

fn indent_depths_of(v: &Vec<TocEntry>) -> (r: Vec<usize>)
    ensures
        ints(r@) == indent_depths(toc::tocs(v@), v@.len() as int).1,
        r@.len() == v@.len(),
{
    let ghost vs = toc::tocs(v@);
    proof {
        toc::lemma_tocs(v@);
    }
    let mut open: Vec<usize> = Vec::new();
    let mut depths: Vec<usize> = Vec::new();
    let mut i: usize = 0;
    assert(ints(open@) =~= Seq::<int>::empty());
    assert(ints(depths@) =~= Seq::<int>::empty());
    while i < v.len()
        invariant
            i <= v@.len(),
            vs == toc::tocs(v@),
            vs.len() == v@.len(),
            forall|k: int| 0 <= k < v@.len() ==> #[trigger] vs[k] == toc::toc(v@[k]),
            depths@.len() == i,
            (ints(open@), ints(depths@)) == indent_depths(vs, i as int),
        decreases v@.len() - i,
    {
        assert(vs[i as int] == toc::toc(v@[i as int]));
        let t = chars_of(&v[i].title);
        let w = past_white(&t, 0);
        let ghost first = ints(open@);
        while open.len() > 0 && open[open.len() - 1] >= w
            invariant
                outdented(first, w as int) == outdented(ints(open@), w as int),
            decreases open@.len(),
        {
            let ghost before = ints(open@);
            assert(before.last() == open@[open@.len() - 1]);
            open.pop();
            assert(ints(open@) =~= before.drop_last());
        }
        proof {
            if open@.len() > 0 {
                assert(ints(open@).last() == open@[open@.len() - 1]);
            }
            assert(outdented(first, w as int) == ints(open@));
        }
        let ghost ds = ints(depths@);
        let ghost os = ints(open@);
        let n = open.len();
        depths.push(n);
        assert(ints(depths@) =~= ds.push(n as int));
        open.push(w);
        assert(ints(open@) =~= os.push(w as int));
        i = i + 1;
    }
    depths
}

fn unindent(v: &Vec<TocEntry>) -> (r: Vec<TocEntry>)
    ensures
        toc::tocs(r@) == unindented(toc::tocs(v@)),
        r@.len() == v@.len(),
{
    let ghost vs = toc::tocs(v@);
    let ghost all = unindented(vs);
    proof {
        toc::lemma_tocs(v@);
    }
    let mut out: Vec<TocEntry> = Vec::new();
    let mut i: usize = 0;
    assert(toc::tocs(out@) =~= all.take(0));
    while i < v.len()
        invariant
            i <= v@.len(),
            out@.len() == i,
            vs == toc::tocs(v@),
            vs.len() == v@.len(),
            all == unindented(vs),
            forall|k: int| 0 <= k < v@.len() ==> #[trigger] vs[k] == toc::toc(v@[k]),
            toc::tocs(out@) == all.take(i as int),
        decreases v@.len() - i,
    {
        assert(vs[i as int] == toc::toc(v@[i as int]));
        let t = chars_of(&v[i].title);
        let e = TocEntry {
            title: string_of(trim_start(&t)),
            href: v[i].href.clone(),
            children: copy_entries(&v[i].children),
        };
        proof {
            toc::lemma_tocs_push(out@, e);
        }
        assert(toc::toc(e) == all[i as int]);
        out.push(e);
        assert(all.take(i + 1) =~= all.take(i as int).push(all[i as int]));
        i = i + 1;
    }
    assert(all.take(v@.len() as int) =~= all);
    out
}

/// A flat list nested by the indentation of its labels.
pub fn nest_by_label_indent(v: Vec<TocEntry>) -> (r: Vec<TocEntry>)
    ensures
        toc::tocs(r@) == spec_nest_by_indent(toc::tocs(v@)),
{
    proof {
        toc::lemma_tocs(v@);
    }
    if !flat(&v) || indented_count(&v) < MIN_INDENT_EVIDENCE {
        return v;
    }
    let d = indent_depths_of(&v);
    let w = unindent(&v);
    forest_of(&w, &d, 0, w.len())
}

// ---------------------------------------------------------------- every level

/// Every level a flat table of contents lost, given back to `fuel` levels: by
/// volume and by indentation, then the same below each entry.
pub open spec fn levels(v: Seq<Toc>, groups: Seq<Volume>, fuel: nat) -> Seq<Toc>
    decreases fuel,
{
    let out = spec_nest_by_indent(spec_nest_by_volumes(v, groups));
    if fuel == 0 {
        out
    } else {
        out.map_values(
            |e: Toc|
                Toc {
                    title: e.title,
                    href: e.href,
                    children: if e.children.len() == 0 {
                        e.children
                    } else {
                        levels(e.children, groups, (fuel - 1) as nat)
                    },
                },
        )
    }
}

/// Every level a flat table of contents lost, given back: there are no more
/// levels than entries.
pub open spec fn spec_nest_levels(v: Seq<Toc>, groups: Seq<Volume>) -> Seq<Toc> {
    levels(v, groups, toc::spec_flat_count(v))
}

fn levels_of(v: Vec<TocEntry>, groups: &Vec<VolumeGroup>, fuel: usize) -> (r: Vec<TocEntry>)
    ensures
        toc::tocs(r@) == levels(toc::tocs(v@), volumes(groups@), fuel as nat),
    decreases fuel,
{
    let ghost vs = toc::tocs(v@);
    let ghost gs = volumes(groups@);
    let shaped = nest_by_label_indent(nest_by_volume_groups(v, groups));
    if fuel == 0 {
        return shaped;
    }
    let ghost ss = toc::tocs(shaped@);
    let ghost all = levels(vs, gs, fuel as nat);
    proof {
        toc::lemma_tocs(shaped@);
        assert(all.len() == ss.len());
    }
    let mut out: Vec<TocEntry> = Vec::new();
    let mut i: usize = 0;
    assert(toc::tocs(out@) =~= all.take(0));
    while i < shaped.len()
        invariant
            i <= shaped@.len(),
            fuel > 0,
            gs == volumes(groups@),
            ss == toc::tocs(shaped@),
            ss.len() == shaped@.len(),
            ss == spec_nest_by_indent(spec_nest_by_volumes(vs, gs)),
            all == levels(vs, gs, fuel as nat),
            all.len() == ss.len(),
            forall|k: int| 0 <= k < shaped@.len() ==> #[trigger] ss[k] == toc::toc(shaped@[k]),
            toc::tocs(out@) == all.take(i as int),
        decreases shaped@.len() - i,
    {
        assert(ss[i as int] == toc::toc(shaped@[i as int]));
        proof {
            toc::lemma_tocs(shaped@[i as int].children@);
        }
        let children = copy_entries(&shaped[i].children);
        let children = if shaped[i].children.len() == 0 {
            children
        } else {
            levels_of(children, groups, fuel - 1)
        };
        let e = TocEntry {
            title: shaped[i].title.clone(),
            href: shaped[i].href.clone(),
            children,
        };
        proof {
            toc::lemma_tocs_push(out@, e);
        }
        assert(toc::toc(e) == all[i as int]);
        out.push(e);
        assert(all.take(i + 1) =~= all.take(i as int).push(all[i as int]));
        i = i + 1;
    }
    assert(all.take(shaped@.len() as int) =~= all);
    out
}

/// Every level that a flat table of contents lost, given back to the depth that
/// the volumes and the labels evidence.
pub fn nest_levels(v: Vec<TocEntry>, groups: &Vec<VolumeGroup>) -> (r: Vec<TocEntry>)
    ensures
        toc::tocs(r@) == spec_nest_levels(toc::tocs(v@), volumes(groups@)),
{
    let n = flat_count(&v);
    levels_of(v, groups, n)
}

// ---------------------------------------------------------------- nothing is lost

/// The targets of the entries, those below others too, in order.
pub open spec fn targets(v: Seq<Toc>) -> Seq<Seq<char>> {
    toc::spec_flatten(v).map_values(|p: (Seq<char>, Seq<char>)| p.1)
}

pub proof fn lemma_targets_last(v: Seq<Toc>)
    requires
        v.len() > 0,
    ensures
        targets(v) == targets(v.drop_last()).push(v.last().href) + targets(v.last().children),
{
    assert(targets(v) =~= targets(v.drop_last()).push(v.last().href) + targets(
        v.last().children,
    ));
}

proof fn lemma_same_targets(a: Seq<Toc>, b: Seq<Toc>)
    requires
        a.len() == b.len(),
        forall|i: int|
            0 <= i < a.len() ==> (#[trigger] a[i]).href == b[i].href && targets(a[i].children)
                == targets(b[i].children),
    ensures
        targets(a) == targets(b),
    decreases a.len(),
{
    if a.len() > 0 {
        lemma_same_targets(a.drop_last(), b.drop_last());
        lemma_targets_last(a);
        lemma_targets_last(b);
        assert(a.last() == a[a.len() - 1]);
    } else {
        assert(a =~= b);
    }
}

proof fn lemma_shape_targets(v: Seq<Toc>, groups: Seq<Volume>)
    ensures
        targets(spec_nest_by_indent(spec_nest_by_volumes(v, groups))) == targets(v),
{
    let w = spec_nest_by_volumes(v, groups);
    if groups.len() > 0 && is_flat(v) {
        levels_keep_every_entry_in_order(v, volume_depths(v, groups, v.len() as int).1);
    }
    if is_flat(w) && indented_to(w, w.len() as int) >= MIN_INDENT_EVIDENCE {
        let u = unindented(w);
        assert(is_flat(u)) by {
            assert forall|i: int| 0 <= i < u.len() implies (#[trigger] u[i]).children.len()
                == 0 by {
                assert(u[i].children == w[i].children);
            }
        }
        levels_keep_every_entry_in_order(u, indent_depths(w, w.len() as int).1);
        assert forall|i: int| 0 <= i < u.len() implies (#[trigger] u[i]).href == w[i].href
            && targets(u[i].children) == targets(w[i].children) by {}
        lemma_same_targets(u, w);
    }
}

proof fn lemma_levels_targets(v: Seq<Toc>, groups: Seq<Volume>, fuel: nat)
    ensures
        targets(levels(v, groups, fuel)) == targets(v),
    decreases fuel,
{
    lemma_shape_targets(v, groups);
    if fuel > 0 {
        let out = spec_nest_by_indent(spec_nest_by_volumes(v, groups));
        let all = levels(v, groups, fuel);
        assert forall|i: int| 0 <= i < all.len() implies (#[trigger] all[i]).href == out[i].href
            && targets(all[i].children) == targets(out[i].children) by {
            lemma_levels_targets(out[i].children, groups, (fuel - 1) as nat);
        }
        lemma_same_targets(all, out);
    }
}

/// Giving a table of contents its levels back loses no entry, adds none, and
/// keeps their order.
pub proof fn nesting_keeps_every_target(v: Seq<Toc>, groups: Seq<Volume>)
    ensures
        targets(spec_nest_levels(v, groups)) == targets(v),
{
    lemma_levels_targets(v, groups, toc::spec_flat_count(v));
}

/// The labels, without white space before them, and the targets of the entries,
/// those below others too, in order.
pub open spec fn listed(v: Seq<Toc>) -> Seq<(Seq<char>, Seq<char>)> {
    toc::spec_flatten(v).map_values(
        |p: (Seq<char>, Seq<char>)| (text::spec_trim_start(p.0), p.1),
    )
}

pub proof fn lemma_listed_last(v: Seq<Toc>)
    requires
        v.len() > 0,
    ensures
        listed(v) == listed(v.drop_last()).push(
            (text::spec_trim_start(v.last().title), v.last().href),
        ) + listed(v.last().children),
{
    assert(listed(v) =~= listed(v.drop_last()).push(
        (text::spec_trim_start(v.last().title), v.last().href),
    ) + listed(v.last().children));
}

proof fn lemma_same_listed(a: Seq<Toc>, b: Seq<Toc>)
    requires
        a.len() == b.len(),
        forall|i: int|
            0 <= i < a.len() ==> (#[trigger] a[i]).href == b[i].href && text::spec_trim_start(
                a[i].title,
            ) == text::spec_trim_start(b[i].title) && listed(a[i].children) == listed(
                b[i].children,
            ),
    ensures
        listed(a) == listed(b),
    decreases a.len(),
{
    if a.len() > 0 {
        lemma_same_listed(a.drop_last(), b.drop_last());
        lemma_listed_last(a);
        lemma_listed_last(b);
        assert(a.last() == a[a.len() - 1]);
    } else {
        assert(a =~= b);
    }
}

proof fn lemma_trimmed_twice(s: Seq<char>)
    ensures
        text::spec_trim_start(text::spec_trim_start(s)) == text::spec_trim_start(s),
{
    let i = text::skip_white(s, 0);
    text::lemma_skip_white(s, 0);
    lemma_past_white(s, 0);
    let r = text::spec_trim_start(s);
    if r.len() > 0 {
        assert(r[0] == s[i]);
    }
    assert(text::skip_white(r, 0) == 0);
    assert(r.subrange(0, r.len() as int) =~= r);
}

proof fn lemma_past_white(s: Seq<char>, i: int)
    requires
        0 <= i <= s.len(),
    ensures
        text::skip_white(s, i) < s.len() ==> !text::is_white(s[text::skip_white(s, i)]),
    decreases s.len() - i,
{
    if i < s.len() && text::is_white(s[i]) {
        lemma_past_white(s, i + 1);
    }
}

proof fn lemma_shape_listed(v: Seq<Toc>, groups: Seq<Volume>)
    ensures
        listed(spec_nest_by_indent(spec_nest_by_volumes(v, groups))) == listed(v),
{
    let w = spec_nest_by_volumes(v, groups);
    if groups.len() > 0 && is_flat(v) {
        levels_keep_every_entry_in_order(v, volume_depths(v, groups, v.len() as int).1);
    }
    if is_flat(w) && indented_to(w, w.len() as int) >= MIN_INDENT_EVIDENCE {
        let u = unindented(w);
        assert(is_flat(u)) by {
            assert forall|i: int| 0 <= i < u.len() implies (#[trigger] u[i]).children.len()
                == 0 by {
                assert(u[i].children == w[i].children);
            }
        }
        levels_keep_every_entry_in_order(u, indent_depths(w, w.len() as int).1);
        assert forall|i: int| 0 <= i < u.len() implies (#[trigger] u[i]).href == w[i].href
            && text::spec_trim_start(u[i].title) == text::spec_trim_start(w[i].title) && listed(
            u[i].children,
        ) == listed(w[i].children) by {
            lemma_trimmed_twice(w[i].title);
        }
        lemma_same_listed(u, w);
    }
}

proof fn lemma_levels_listed(v: Seq<Toc>, groups: Seq<Volume>, fuel: nat)
    ensures
        listed(levels(v, groups, fuel)) == listed(v),
    decreases fuel,
{
    lemma_shape_listed(v, groups);
    if fuel > 0 {
        let out = spec_nest_by_indent(spec_nest_by_volumes(v, groups));
        let all = levels(v, groups, fuel);
        assert forall|i: int| 0 <= i < all.len() implies (#[trigger] all[i]).href == out[i].href
            && text::spec_trim_start(all[i].title) == text::spec_trim_start(out[i].title) && listed(
            all[i].children,
        ) == listed(out[i].children) by {
            lemma_levels_listed(out[i].children, groups, (fuel - 1) as nat);
        }
        lemma_same_listed(all, out);
    }
}

/// Giving a table of contents its levels back keeps every label and target, in
/// order; only the white space that indented a label may go.
pub proof fn nesting_keeps_every_label(v: Seq<Toc>, groups: Seq<Volume>)
    ensures
        listed(spec_nest_levels(v, groups)) == listed(v),
{
    lemma_levels_listed(v, groups, toc::spec_flat_count(v));
}

// ---------------------------------------------------------------- merging

/// The document that an href names.
pub open spec fn document(href: Seq<char>) -> Seq<char> {
    structure::spec_split_fragment(href).0
}

/// The last place before `n` of the document in the spine.
pub open spec fn place_in(spine: Seq<(Seq<char>, Seq<char>)>, doc: Seq<char>, n: int) -> Option<int>
    decreases n,
{
    if n <= 0 {
        None
    } else if spine[n - 1].0 == doc {
        Some(n - 1)
    } else {
        place_in(spine, doc, n - 1)
    }
}

/// The place of an entry's document in the spine.
pub open spec fn place_of(spine: Seq<(Seq<char>, Seq<char>)>, e: Toc) -> Option<int> {
    place_in(spine, document(e.href), spine.len() as int)
}

/// One of the entries, those below others too, opens the document.
pub open spec fn reaches(v: Seq<Toc>, doc: Seq<char>) -> bool {
    exists|i: int|
        0 <= i < toc::spec_flatten(v).len() && document((#[trigger] toc::spec_flatten(v)[i]).1)
            == doc
}

/// The first place from `i` on whose document stands behind the place `k`.
pub open spec fn place_behind(v: Seq<Toc>, spine: Seq<(Seq<char>, Seq<char>)>, k: int, i: int) -> int
    decreases v.len() - i,
{
    if i < 0 || i >= v.len() {
        v.len() as int
    } else {
        match place_of(spine, v[i]) {
            Some(p) if p > k => i,
            _ => place_behind(v, spine, k, i + 1),
        }
    }
}

/// The list with an entry in it where the spine has its document, at the end
/// where it has none.
pub open spec fn joined(v: Seq<Toc>, spine: Seq<(Seq<char>, Seq<char>)>, e: Toc) -> Seq<Toc> {
    let i = match place_of(spine, e) {
        Some(k) => place_behind(v, spine, k, 0),
        None => v.len() as int,
    };
    v.subrange(0, i).push(e) + v.subrange(i, v.len() as int)
}

/// The declared entries with the first `n` derived ones among them, each in the
/// order of the spine; one whose document a declared entry opens is left out.
pub open spec fn merged_to(
    declared: Seq<Toc>,
    derived: Seq<Toc>,
    spine: Seq<(Seq<char>, Seq<char>)>,
    n: int,
) -> Seq<Toc>
    decreases n,
{
    if n <= 0 {
        declared
    } else {
        let before = merged_to(declared, derived, spine, n - 1);
        if reaches(declared, document(derived[n - 1].href)) {
            before
        } else {
            joined(before, spine, derived[n - 1])
        }
    }
}

/// The declared entries with the derived ones among them.
pub open spec fn spec_merge(
    declared: Seq<Toc>,
    derived: Seq<Toc>,
    spine: Seq<(Seq<char>, Seq<char>)>,
) -> Seq<Toc> {
    merged_to(declared, derived, spine, derived.len() as int)
}

proof fn lemma_place_behind(v: Seq<Toc>, spine: Seq<(Seq<char>, Seq<char>)>, k: int, i: int)
    requires
        0 <= i <= v.len(),
    ensures
        i <= place_behind(v, spine, k, i) <= v.len(),
    decreases v.len() - i,
{
    if i < v.len() {
        lemma_place_behind(v, spine, k, i + 1);
    }
}

proof fn lemma_joined_keeps(v: Seq<Toc>, spine: Seq<(Seq<char>, Seq<char>)>, e: Toc, x: Toc)
    requires
        v.contains(x) || x == e,
    ensures
        joined(v, spine, e).contains(x),
{
    let i = match place_of(spine, e) {
        Some(k) => {
            lemma_place_behind(v, spine, k, 0);
            place_behind(v, spine, k, 0)
        },
        None => v.len() as int,
    };
    let w = joined(v, spine, e);
    assert(w[i] == e);
    if v.contains(x) {
        let k = choose|k: int| 0 <= k < v.len() && v[k] == x;
        if k < i {
            assert(w[k] == x);
        } else {
            assert(w[k + 1] == x);
        }
    }
}

proof fn lemma_merged_keeps(
    declared: Seq<Toc>,
    derived: Seq<Toc>,
    spine: Seq<(Seq<char>, Seq<char>)>,
    n: int,
)
    requires
        0 <= n <= derived.len(),
    ensures
        forall|x: Toc| declared.contains(x) ==> merged_to(declared, derived, spine, n).contains(x),
        forall|i: int|
            0 <= i < n && !reaches(declared, document((#[trigger] derived[i]).href)) ==> merged_to(
                declared,
                derived,
                spine,
                n,
            ).contains(derived[i]),
    decreases n,
{
    if n > 0 {
        lemma_merged_keeps(declared, derived, spine, n - 1);
        let before = merged_to(declared, derived, spine, n - 1);
        if !reaches(declared, document(derived[n - 1].href)) {
            assert forall|x: Toc| before.contains(x) || x == derived[n - 1] implies joined(
                before,
                spine,
                derived[n - 1],
            ).contains(x) by {
                lemma_joined_keeps(before, spine, derived[n - 1], x);
            }
            assert forall|i: int|
                0 <= i < n && !reaches(
                    declared,
                    document((#[trigger] derived[i]).href),
                ) implies merged_to(declared, derived, spine, n).contains(derived[i]) by {
                lemma_joined_keeps(before, spine, derived[n - 1], derived[i]);
            }
        }
    }
}

/// A merge keeps every declared entry as it is, and takes every derived one
/// whose document no declared entry opens.
pub proof fn a_merge_keeps_every_declared_entry(
    declared: Seq<Toc>,
    derived: Seq<Toc>,
    spine: Seq<(Seq<char>, Seq<char>)>,
)
    ensures
        forall|x: Toc| declared.contains(x) ==> spec_merge(declared, derived, spine).contains(x),
        forall|i: int|
            0 <= i < derived.len() && !reaches(
                declared,
                document((#[trigger] derived[i]).href),
            ) ==> spec_merge(declared, derived, spine).contains(derived[i]),
{
    lemma_merged_keeps(declared, derived, spine, derived.len() as int);
}

pub fn place_in_of(spine: &Vec<(String, String)>, href: &str) -> (r: Option<usize>)
    ensures
        text::pos(r) == place_in(edit::pairs(spine@), document(href@), spine@.len() as int),
{
    let ghost all = edit::pairs(spine@);
    let doc = strip_fragment(href);
    let mut n: usize = spine.len();
    while n > 0
        invariant
            n <= spine@.len(),
            all == edit::pairs(spine@),
            doc@ == document(href@),
            place_in(all, doc@, spine@.len() as int) == place_in(all, doc@, n as int),
        decreases n,
    {
        assert(all[n - 1] == (spine@[n - 1].0@, spine@[n - 1].1@));
        if str_is(&spine[n - 1].0, &doc) {
            return Some(n - 1);
        }
        n = n - 1;
    }
    None
}

fn reaches_of(flat: &Vec<(String, String)>, doc: &str) -> (r: bool)
    ensures
        r == exists|i: int|
            0 <= i < edit::pairs(flat@).len() && document((#[trigger] edit::pairs(flat@)[i]).1)
                == doc@,
{
    let ghost all = edit::pairs(flat@);
    let mut i: usize = 0;
    while i < flat.len()
        invariant
            i <= flat@.len(),
            all == edit::pairs(flat@),
            forall|k: int| 0 <= k < i ==> document((#[trigger] all[k]).1) != doc@,
        decreases flat@.len() - i,
    {
        assert(all[i as int] == (flat@[i as int].0@, flat@[i as int].1@));
        if str_is(&strip_fragment(&flat[i].1), doc) {
            return true;
        }
        i = i + 1;
    }
    false
}

fn join_entry(v: &mut Vec<TocEntry>, spine: &Vec<(String, String)>, e: TocEntry)
    ensures
        toc::tocs(final(v)@) == joined(toc::tocs(old(v)@), edit::pairs(spine@), toc::toc(e)),
{
    let ghost vs = toc::tocs(v@);
    let ghost ss = edit::pairs(spine@);
    let ghost ev = toc::toc(e);
    proof {
        toc::lemma_tocs(v@);
    }
    assert(ss.len() == spine@.len());
    let n = v.len();
    let mut i: usize = n;
    if let Some(k) = place_in_of(spine, &e.href) {
        i = 0;
        while i < n
            invariant_except_break
                i <= n == v@.len() == vs.len(),
                v@ == old(v)@,
                vs == toc::tocs(v@),
                ss == edit::pairs(spine@),
                ss.len() == spine@.len(),
                forall|j: int| 0 <= j < v@.len() ==> #[trigger] vs[j] == toc::toc(v@[j]),
                place_behind(vs, ss, k as int, 0) == place_behind(vs, ss, k as int, i as int),
            ensures
                i <= n,
                v@ == old(v)@,
                i == place_behind(vs, ss, k as int, 0),
            decreases n - i,
        {
            assert(vs[i as int] == toc::toc(v@[i as int]));
            if let Some(p) = place_in_of(spine, &v[i].href) {
                if p > k {
                    break;
                }
            }
            i = i + 1;
        }
    }
    v.insert(i, e);
    proof {
        toc::lemma_tocs(v@);
    }
    assert(toc::tocs(v@) =~= vs.subrange(0, i as int).push(ev) + vs.subrange(i as int, n as int));
}

/// The declared entries with the derived ones among them, in the order of the
/// spine; a derived entry whose document a declared one opens is left out.
pub fn merge_by_document_order(
    declared: Vec<TocEntry>,
    derived: Vec<TocEntry>,
    spine: &Vec<(String, String)>,
) -> (r: Vec<TocEntry>)
    ensures
        toc::tocs(r@) == spec_merge(
            toc::tocs(declared@),
            toc::tocs(derived@),
            edit::pairs(spine@),
        ),
{
    let ghost ds = toc::tocs(declared@);
    let ghost es = toc::tocs(derived@);
    let ghost ss = edit::pairs(spine@);
    proof {
        toc::lemma_tocs(derived@);
    }
    let all = flatten(&declared);
    let mut out = declared;
    let mut i: usize = 0;
    while i < derived.len()
        invariant
            i <= derived@.len(),
            es == toc::tocs(derived@),
            es.len() == derived@.len(),
            ss == edit::pairs(spine@),
            edit::pairs(all@) == toc::spec_flatten(ds),
            forall|k: int| 0 <= k < derived@.len() ==> #[trigger] es[k] == toc::toc(derived@[k]),
            toc::tocs(out@) == merged_to(ds, es, ss, i as int),
        decreases derived@.len() - i,
    {
        assert(es[i as int] == toc::toc(derived@[i as int]));
        if !reaches_of(&all, &strip_fragment(&derived[i].href)) {
            let e = copy_entry(&derived[i]);
            join_entry(&mut out, spine, e);
        }
        i = i + 1;
    }
    out
}

// ---------------------------------------------------------------- measuring

/// A list is no longer than what it flattens to, and as long only where it is
/// flat.
proof fn lemma_flat_length(v: Seq<Toc>)
    ensures
        v.len() <= toc::spec_flatten(v).len(),
        v.len() == toc::spec_flatten(v).len() <==> is_flat(v),
        is_flat(v) ==> forall|i: int|
            0 <= i < v.len() ==> #[trigger] toc::spec_flatten(v)[i] == (v[i].title, v[i].href),
    decreases v,
{
    if v.len() > 0 {
        let w = v.drop_last();
        let below = v.last().children;
        lemma_flat_length(w);
        lemma_flat_length(below);
        assert forall|i: int| 0 <= i < w.len() implies (#[trigger] w[i]) == v[i] by {}
        if is_flat(v) {
            assert(v[v.len() - 1].children.len() == 0);
            assert(is_flat(w)) by {
                assert forall|i: int| 0 <= i < w.len() implies (#[trigger] w[i]).children.len()
                    == 0 by {
                    assert(w[i] == v[i]);
                }
            }
            assert forall|i: int| 0 <= i < v.len() implies #[trigger] toc::spec_flatten(v)[i] == (
                v[i].title,
                v[i].href,
            ) by {
                if i < w.len() {
                    assert(toc::spec_flatten(v)[i] == toc::spec_flatten(w)[i]);
                }
            }
        }
        if v.len() == toc::spec_flatten(v).len() {
            assert(is_flat(w));
            assert forall|i: int| 0 <= i < v.len() implies (#[trigger] v[i]).children.len() == 0 by {
                if i < w.len() {
                    assert(w[i].children.len() == 0);
                }
            }
        }
    }
}

/// Nesting a flat list moves an entry below another exactly where the list gets
/// shorter: one that stays as long is the list as it was.
pub proof fn nesting_that_moves_nothing_changes_nothing(v: Seq<Toc>, groups: Seq<Volume>)
    requires
        is_flat(v),
    ensures
        spec_nest_by_volumes(v, groups).len() <= v.len(),
        spec_nest_by_volumes(v, groups).len() == v.len() <==> spec_nest_by_volumes(v, groups) == v,
{
    let w = spec_nest_by_volumes(v, groups);
    if groups.len() > 0 {
        levels_keep_every_entry_in_order(v, volume_depths(v, groups, v.len() as int).1);
    }
    lemma_flat_length(v);
    lemma_flat_length(w);
    if w.len() == v.len() {
        assert(w =~= v) by {
            assert forall|i: int| 0 <= i < v.len() implies w[i] == v[i] by {
                assert(toc::spec_flatten(w)[i] == toc::spec_flatten(v)[i]);
                assert(v[i].children.len() == 0 && w[i].children.len() == 0);
                assert(v[i].children =~= w[i].children);
                assert(w[i] =~= v[i]);
            }
        }
    }
}

// ---------------------------------------------------------------- nesting again

proof fn lemma_flat_again(v: Seq<Toc>, d: Seq<int>)
    requires
        is_flat(v),
        is_flat(forest(v, d, 0, v.len() as int)),
    ensures
        forest(v, d, 0, v.len() as int).len() == v.len(),
        forall|i: int|
            0 <= i < v.len() ==> (#[trigger] forest(v, d, 0, v.len() as int)[i]).href == v[i].href,
{
    let w = forest(v, d, 0, v.len() as int);
    levels_keep_every_entry_in_order(v, d);
    lemma_flat_length(v);
    lemma_flat_length(w);
    assert forall|i: int| 0 <= i < v.len() implies (#[trigger] w[i]).href == v[i].href by {
        assert(toc::spec_flatten(w)[i] == toc::spec_flatten(v)[i]);
    }
}

/// A list that comes out flat was flat, and its volumes moved nothing.
proof fn lemma_shape_flat(v: Seq<Toc>, groups: Seq<Volume>)
    requires
        is_flat(spec_nest_by_indent(spec_nest_by_volumes(v, groups))),
    ensures
        ({
            let out = spec_nest_by_indent(spec_nest_by_volumes(v, groups));
            &&& is_flat(v)
            &&& spec_nest_by_volumes(v, groups) == v
            &&& out.len() == v.len()
            &&& forall|i: int| 0 <= i < v.len() ==> (#[trigger] out[i]).href == v[i].href
        }),
{
    let w = spec_nest_by_volumes(v, groups);
    assert(is_flat(w));
    assert(is_flat(v));
    if groups.len() > 0 {
        lemma_flat_again(v, volume_depths(v, groups, v.len() as int).1);
    }
    nesting_that_moves_nothing_changes_nothing(v, groups);
    if indented_to(v, v.len() as int) >= MIN_INDENT_EVIDENCE {
        let u = unindented(v);
        assert(is_flat(u)) by {
            assert forall|i: int| 0 <= i < u.len() implies (#[trigger] u[i]).children.len()
                == 0 by {
                assert(u[i].children == v[i].children);
            }
        }
        lemma_flat_again(u, indent_depths(v, v.len() as int).1);
        let out = spec_nest_by_indent(w);
        assert forall|i: int| 0 <= i < v.len() implies (#[trigger] out[i]).href == v[i].href by {
            assert(u[i].href == v[i].href);
        }
    }
}

proof fn lemma_levels_flat(v: Seq<Toc>, groups: Seq<Volume>, fuel: nat)
    requires
        is_flat(levels(v, groups, fuel)),
    ensures
        is_flat(v),
        spec_nest_by_volumes(v, groups) == v,
        levels(v, groups, fuel).len() == v.len(),
        forall|i: int|
            0 <= i < v.len() ==> (#[trigger] levels(v, groups, fuel)[i]).href == v[i].href,
{
    let out = spec_nest_by_indent(spec_nest_by_volumes(v, groups));
    let all = levels(v, groups, fuel);
    if fuel > 0 {
        assert forall|i: int| 0 <= i < out.len() implies (#[trigger] out[i]).children.len() == 0 by {
            assert(all[i].children.len() == 0);
            if out[i].children.len() > 0 {
                let below = levels(out[i].children, groups, (fuel - 1) as nat);
                assert(all[i].children == below);
                lemma_levels_targets(out[i].children, groups, (fuel - 1) as nat);
                lemma_flat_length(out[i].children);
                assert(below =~= Seq::<Toc>::empty());
                assert(targets(below).len() == 0);
            }
        }
    }
    lemma_shape_flat(v, groups);
    assert forall|i: int| 0 <= i < v.len() implies (#[trigger] all[i]).href == v[i].href by {
        assert(all[i].href == out[i].href);
    }
}

pub proof fn lemma_same_depths(a: Seq<Toc>, b: Seq<Toc>, groups: Seq<Volume>, n: int)
    requires
        0 <= n <= a.len() == b.len(),
        forall|i: int| 0 <= i < a.len() ==> document((#[trigger] a[i]).href) == document(b[i].href),
    ensures
        volume_depths(a, groups, n) == volume_depths(b, groups, n),
    decreases n,
{
    if n > 0 {
        lemma_same_depths(a, b, groups, n - 1);
        assert(document(a[n - 1].href) == document(b[n - 1].href));
    }
}

pub proof fn lemma_forest_length(v: Seq<Toc>, w: Seq<Toc>, d: Seq<int>, a: int, b: int)
    ensures
        forest(v, d, a, b).len() == forest(w, d, a, b).len(),
    decreases b - a,
{
    if a < b {
        let j = next_up(d, a + 1, b, d[a]);
        lemma_next_up(d, a + 1, b, d[a]);
        lemma_forest_length(v, w, d, j, b);
    }
}

/// A list that was given its levels back has none to give back by the same
/// volumes. Where it is still flat, its entries are those it was made of.
pub proof fn a_nested_list_has_its_volumes(v: Seq<Toc>, groups: Seq<Volume>)
    ensures
        spec_nest_by_volumes(spec_nest_levels(v, groups), groups) == spec_nest_levels(v, groups),
        is_flat(spec_nest_levels(v, groups)) ==> spec_nest_levels(v, groups).len() == v.len() && forall|
            i: int,
        |
            0 <= i < v.len() ==> (#[trigger] spec_nest_levels(v, groups)[i]).href == v[i].href,
{
    let p = spec_nest_levels(v, groups);
    if is_flat(p) {
        lemma_levels_flat(v, groups, toc::spec_flat_count(v));
        if groups.len() > 0 {
            let n = v.len() as int;
            lemma_same_depths(p, v, groups, n);
            lemma_forest_length(p, v, volume_depths(v, groups, n).1, 0, n);
            nesting_that_moves_nothing_changes_nothing(p, groups);
        }
    }
}

} // verus!
