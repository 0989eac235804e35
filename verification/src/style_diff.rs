//! What a change of stylesheets changes for a reader.
use vstd::prelude::*;

use crate::edit;
use crate::restyle;
use crate::text;
use crate::restyle::capped_sum;
use crate::text::{chars_of, copy, decimal_of, put_str, same, str_is, string_of};

verus! {

/// A difference between a document before and after.
#[derive(Debug, Clone, PartialEq, Eq)]
pub struct StyleDiff {
    pub document: String,
    /// Where it is seen first.
    pub text: String,
    pub property: String,
    pub before: String,
    pub after: String,
    /// How often it is seen.
    pub count: u128,
}

/// What a `StyleDiff` says.
#[verifier::ext_equal]
pub struct Diff {
    pub document: Seq<char>,
    pub text: Seq<char>,
    pub property: Seq<char>,
    pub before: Seq<char>,
    pub after: Seq<char>,
    pub count: int,
}

impl View for StyleDiff {
    type V = Diff;

    open spec fn view(&self) -> Diff {
        Diff {
            document: self.document@,
            text: self.text@,
            property: self.property@,
            before: self.before@,
            after: self.after@,
            count: self.count as int,
        }
    }
}

pub open spec fn diffs(v: Seq<StyleDiff>) -> Seq<Diff> {
    v.map_values(|d: StyleDiff| d@)
}

/// A difference that a reader sees: the blocks or the text changed, or something with text did in
/// more than the direction of writing or the font.
pub open spec fn is_material(d: Diff) -> bool {
    d.property == "blocks"@ || d.property == "text"@ || (d.text.len() > 0 && d.property
        != "writing-mode"@ && d.property != "font-family"@)
}

/// How often the first `n` differences are seen, those that a reader sees.
pub open spec fn material_to(v: Seq<Diff>, n: int) -> int
    decreases n,
{
    if n <= 0 {
        0
    } else {
        restyle::capped(
            material_to(v, n - 1) + if is_material(v[n - 1]) {
                v[n - 1].count
            } else {
                0
            },
        )
    }
}

/// How often differences that a reader sees are seen.
pub fn material_diffs_in(v: &Vec<StyleDiff>) -> (r: u128)
    ensures
        r == material_to(diffs(v@), v@.len() as int),
{
    let ghost all = diffs(v@);
    let n = v.len();
    let mut sum: u128 = 0;
    let mut i: usize = 0;
    while i < n
        invariant
            i <= n,
            n == v@.len(),
            all == diffs(v@),
            sum == material_to(all, i as int),
        decreases n - i,
    {
        assert(all[i as int] == v@[i as int]@);
        let d = &v[i];
        let shown = str_is(&d.property, "blocks") || str_is(&d.property, "text") || (chars_of(
            &d.text,
        ).len() > 0 && !str_is(&d.property, "writing-mode") && !str_is(
            &d.property,
            "font-family",
        ));
        if shown {
            sum = capped_sum(sum, d.count);
        }
        i += 1;
    }
    sum
}

/// The place of a difference of the same property and values in the document.
pub open spec fn diff_at(
    v: Seq<Diff>,
    document: Seq<char>,
    property: Seq<char>,
    before: Seq<char>,
    after: Seq<char>,
    i: int,
) -> Option<int>
    decreases v.len() - i,
{
    if i < 0 || i >= v.len() {
        None
    } else if v[i].document == document && v[i].property == property && v[i].before == before
        && v[i].after == after {
        Some(i)
    } else {
        diff_at(v, document, property, before, after, i + 1)
    }
}

/// The differences with one more: one of the same property and values in the document is counted.
pub open spec fn with_diff(
    v: Seq<Diff>,
    document: Seq<char>,
    text: Seq<char>,
    property: Seq<char>,
    before: Seq<char>,
    after: Seq<char>,
) -> Seq<Diff> {
    match diff_at(v, document, property, before, after, 0) {
        Some(i) => v.update(i, Diff { count: restyle::capped(v[i].count + 1), ..v[i] }),
        None => v.push(Diff { document, text, property, before, after, count: 1 }),
    }
}

fn add_diff(
    v: &mut Vec<StyleDiff>,
    document: &str,
    text: &[char],
    property: &str,
    before: &str,
    after: &str,
)
    ensures
        diffs(final(v)@) == with_diff(
            diffs(old(v)@),
            document@,
            text@,
            property@,
            before@,
            after@,
        ),
{
    let ghost all = diffs(v@);
    let n = v.len();
    assert(all.len() == n);
    let mut i: usize = 0;
    while i < n
        invariant
            i <= n == v@.len() == all.len(),
            v@ == old(v)@,
            all == diffs(v@),
            diff_at(all, document@, property@, before@, after@, i as int) == diff_at(
                all,
                document@,
                property@,
                before@,
                after@,
                0,
            ),
        decreases n - i,
    {
        assert(all[i as int] == v@[i as int]@);
        if str_is(&v[i].document, document) && str_is(&v[i].property, property) && str_is(
            &v[i].before,
            before,
        ) && str_is(&v[i].after, after) {
            let mut d = v.remove(i);
            d.count = capped_sum(d.count, 1);
            let ghost dv = d@;
            v.insert(i, d);
            assert(diffs(v@) =~= all.update(i as int, dv));
            return;
        }
        i += 1;
    }
    let d = StyleDiff {
        document: string_of(&chars_of(document)),
        text: string_of(text),
        property: string_of(&chars_of(property)),
        before: string_of(&chars_of(before)),
        after: string_of(&chars_of(after)),
        count: 1,
    };
    let ghost dv = d@;
    v.push(d);
    assert(diffs(v@) =~= all.push(dv));
}

// ---------------------------------------------------------------- documents as they are shown

/// A block or a run of text as it is shown: its text, and the properties that it is shown with.
pub struct Shown {
    pub text: String,
    pub props: Vec<(String, String)>,
}

/// A document as it is shown: its blocks, and its runs of text.
pub struct Chapter {
    pub blocks: Vec<Shown>,
    pub runs: Vec<Shown>,
}

pub open spec fn shown(v: Seq<Shown>) -> Seq<(Seq<char>, Seq<(Seq<char>, Seq<char>)>)> {
    v.map_values(|s: Shown| (s.text@, edit::pairs(s.props@)))
}

/// The differences with those among the first `n` properties of something that is shown.
pub open spec fn props_compared(
    v: Seq<Diff>,
    document: Seq<char>,
    text: Seq<char>,
    b: Seq<(Seq<char>, Seq<char>)>,
    a: Seq<(Seq<char>, Seq<char>)>,
    n: int,
) -> Seq<Diff>
    decreases n,
{
    if n <= 0 {
        v
    } else {
        let before = props_compared(v, document, text, b, a, n - 1);
        if b[n - 1].1 == a[n - 1].1 {
            before
        } else {
            with_diff(before, document, text, b[n - 1].0, b[n - 1].1, a[n - 1].1)
        }
    }
}

/// The number of pairs of two lists.
pub open spec fn pairs_of(a: int, b: int) -> int {
    if a < b {
        a
    } else {
        b
    }
}

fn compare_props(
    v: &mut Vec<StyleDiff>,
    document: &str,
    text: &[char],
    b: &Vec<(String, String)>,
    a: &Vec<(String, String)>,
)
    ensures
        diffs(final(v)@) == props_compared(
            diffs(old(v)@),
            document@,
            text@,
            edit::pairs(b@),
            edit::pairs(a@),
            pairs_of(b@.len() as int, a@.len() as int),
        ),
{
    let ghost start = diffs(v@);
    let ghost bs = edit::pairs(b@);
    let ghost as_ = edit::pairs(a@);
    let n = if b.len() < a.len() {
        b.len()
    } else {
        a.len()
    };
    let mut i: usize = 0;
    while i < n
        invariant
            i <= n,
            n <= b@.len(),
            n <= a@.len(),
            bs == edit::pairs(b@),
            as_ == edit::pairs(a@),
            diffs(v@) == props_compared(start, document@, text@, bs, as_, i as int),
        decreases n - i,
    {
        assert(bs[i as int] == (b@[i as int].0@, b@[i as int].1@));
        assert(as_[i as int] == (a@[i as int].0@, a@[i as int].1@));
        if !str_is(&b[i].1, &a[i].1) {
            add_diff(v, document, text, &b[i].0, &b[i].1, &a[i].1);
        }
        i += 1;
    }
}

/// The differences with those of the first `n` blocks.
pub open spec fn blocks_compared(
    v: Seq<Diff>,
    document: Seq<char>,
    b: Seq<(Seq<char>, Seq<(Seq<char>, Seq<char>)>)>,
    a: Seq<(Seq<char>, Seq<(Seq<char>, Seq<char>)>)>,
    n: int,
) -> Seq<Diff>
    decreases n,
{
    if n <= 0 {
        v
    } else {
        props_compared(
            blocks_compared(v, document, b, a, n - 1),
            document,
            b[n - 1].0,
            b[n - 1].1,
            a[n - 1].1,
            pairs_of(b[n - 1].1.len() as int, a[n - 1].1.len() as int),
        )
    }
}

/// The text of the first `n` runs.
pub open spec fn text_to(v: Seq<(Seq<char>, Seq<(Seq<char>, Seq<char>)>)>, n: int) -> Seq<char>
    decreases n,
{
    if n <= 0 {
        Seq::empty()
    } else {
        text_to(v, n - 1) + v[n - 1].0
    }
}

fn text_of_runs(v: &Vec<Shown>) -> (r: Vec<char>)
    ensures
        r@ == text_to(shown(v@), v@.len() as int),
{
    let ghost all = shown(v@);
    let n = v.len();
    let mut out: Vec<char> = Vec::new();
    let mut i: usize = 0;
    while i < n
        invariant
            i <= n,
            n == v@.len(),
            all == shown(v@),
            out@ == text_to(all, i as int),
        decreases n - i,
    {
        assert(all[i as int] == (v@[i as int].text@, edit::pairs(v@[i as int].props@)));
        put_str(&mut out, &v[i].text);
        i += 1;
    }
    out
}

/// The start of a text.
pub open spec fn excerpt(s: Seq<char>) -> Seq<char> {
    if s.len() <= 24 {
        s
    } else {
        s.subrange(0, 24)
    }
}

fn excerpt_of(s: &str) -> (r: Vec<char>)
    ensures
        r@ == excerpt(s@),
{
    let t = chars_of(s);
    if t.len() <= 24 {
        t
    } else {
        copy(&t[0..24])
    }
}

/// How far a comparison of runs has come: the differences, the run of the new text that is next, and
/// where it starts.
#[verifier::ext_equal]
pub struct Along {
    pub diffs: Seq<Diff>,
    pub next: int,
    pub at: int,
}

/// Behind the runs of the new text that share text with one of the old that ends at `end`, where
/// `p` is reached. A run that goes on behind `end` is compared, and stays the next.
pub open spec fn run_compared(
    x: Along,
    document: Seq<char>,
    b: (Seq<char>, Seq<(Seq<char>, Seq<char>)>),
    a: Seq<(Seq<char>, Seq<(Seq<char>, Seq<char>)>)>,
    p: int,
    end: int,
) -> Along
    decreases a.len() - x.next,
{
    if p >= end || x.next < 0 || x.next >= a.len() {
        x
    } else {
        let to = x.at + a[x.next].0.len();
        let found = props_compared(
            x.diffs,
            document,
            excerpt(b.0),
            b.1,
            a[x.next].1,
            pairs_of(b.1.len() as int, a[x.next].1.len() as int),
        );
        if to <= end {
            run_compared(Along { diffs: found, next: x.next + 1, at: to }, document, b, a, to, end)
        } else {
            Along { diffs: found, ..x }
        }
    }
}

/// Behind the first `n` runs of the old text.
pub open spec fn runs_compared(
    v: Seq<Diff>,
    document: Seq<char>,
    b: Seq<(Seq<char>, Seq<(Seq<char>, Seq<char>)>)>,
    a: Seq<(Seq<char>, Seq<(Seq<char>, Seq<char>)>)>,
    n: int,
) -> Along
    decreases n,
{
    if n <= 0 {
        Along { diffs: v, next: 0, at: 0 }
    } else {
        let from = text_to(b, n - 1).len() as int;
        run_compared(
            runs_compared(v, document, b, a, n - 1),
            document,
            b[n - 1],
            a,
            from,
            from + b[n - 1].0.len(),
        )
    }
}

/// The differences with those between two showings of a document.
pub open spec fn compared(
    v: Seq<Diff>,
    document: Seq<char>,
    bb: Seq<(Seq<char>, Seq<(Seq<char>, Seq<char>)>)>,
    ab: Seq<(Seq<char>, Seq<(Seq<char>, Seq<char>)>)>,
    rb: Seq<(Seq<char>, Seq<(Seq<char>, Seq<char>)>)>,
    ra: Seq<(Seq<char>, Seq<(Seq<char>, Seq<char>)>)>,
) -> Seq<Diff> {
    let blocks = if bb.len() != ab.len() {
        with_diff(
            v,
            document,
            Seq::empty(),
            "blocks"@,
            text::decimal(bb.len()),
            text::decimal(ab.len()),
        )
    } else {
        blocks_compared(v, document, bb, ab, bb.len() as int)
    };
    let tb = text_to(rb, rb.len() as int);
    let ta = text_to(ra, ra.len() as int);
    if tb != ta {
        with_diff(
            blocks,
            document,
            Seq::empty(),
            "text"@,
            text::decimal(tb.len()),
            text::decimal(ta.len()),
        )
    } else {
        runs_compared(blocks, document, rb, ra, rb.len() as int).diffs
    }
}

fn compare_run(
    v: &mut Vec<StyleDiff>,
    document: &str,
    b: &Shown,
    a: &Vec<Shown>,
    from: u128,
    end: u128,
    next: usize,
    at: u128,
) -> (r: (usize, u128))
    requires
        next <= a@.len(),
        at == text_to(shown(a@), next as int).len(),
        from <= end,
        text_to(shown(a@), a@.len() as int).len() <= u128::MAX,
    ensures
        (Along { diffs: diffs(final(v)@), next: r.0 as int, at: r.1 as int }) == run_compared(
            Along { diffs: diffs(old(v)@), next: next as int, at: at as int },
            document@,
            (b.text@, edit::pairs(b.props@)),
            shown(a@),
            from as int,
            end as int,
        ),
        r.0 <= a@.len(),
        r.1 == text_to(shown(a@), r.0 as int).len(),
{
    let ghost all = shown(a@);
    let ghost bv = (b.text@, edit::pairs(b.props@));
    let n = a.len();
    assert(all.len() == n);
    let excerpt_here = excerpt_of(&b.text);
    assert(edit::pairs(b.props@).len() == b.props@.len());
    let mut k: usize = next;
    let mut place: u128 = at;
    let mut p: u128 = from;
    let ghost want = run_compared(
        Along { diffs: diffs(v@), next: next as int, at: at as int },
        document@,
        bv,
        all,
        from as int,
        end as int,
    );
    while p < end && k < n
        invariant
            k <= n,
            n == a@.len(),
            all == shown(a@),
            all.len() == n,
            bv == (b.text@, edit::pairs(b.props@)),
            edit::pairs(b.props@).len() == b.props@.len(),
            excerpt_here@ == excerpt(b.text@),
            place == text_to(all, k as int).len(),
            text_to(all, n as int).len() <= u128::MAX,
            want == run_compared(
                Along { diffs: diffs(old(v)@), next: next as int, at: at as int },
                document@,
                bv,
                all,
                from as int,
                end as int,
            ),
            want == run_compared(
                Along { diffs: diffs(v@), next: k as int, at: place as int },
                document@,
                bv,
                all,
                p as int,
                end as int,
            ),
        decreases n - k,
    {
        assert(all[k as int] == (a@[k as int].text@, edit::pairs(a@[k as int].props@)));
        assert(edit::pairs(a@[k as int].props@).len() == a@[k as int].props@.len());
        let len = chars_of(&a[k].text).len();
        proof {
            lemma_text_grows(all, k + 1, n as int);
        }
        let to = place + len as u128;
        compare_props(v, document, &excerpt_here, &b.props, &a[k].props);
        if to <= end {
            place = to;
            k += 1;
            p = to;
        } else {
            return (k, place);
        }
    }
    (k, place)
}

proof fn lemma_text_grows(v: Seq<(Seq<char>, Seq<(Seq<char>, Seq<char>)>)>, k: int, n: int)
    requires
        k <= n,
    ensures
        text_to(v, k).len() <= text_to(v, n).len(),
    decreases n - k,
{
    if k < n {
        lemma_text_grows(v, k, n - 1);
    }
}

fn compare_blocks(v: &mut Vec<StyleDiff>, document: &str, b: &Vec<Shown>, a: &Vec<Shown>)
    requires
        b@.len() == a@.len(),
    ensures
        diffs(final(v)@) == blocks_compared(
            diffs(old(v)@),
            document@,
            shown(b@),
            shown(a@),
            b@.len() as int,
        ),
{
    let ghost start = diffs(v@);
    let ghost bs = shown(b@);
    let ghost xs = shown(a@);
    let n = b.len();
    let mut i: usize = 0;
    while i < n
        invariant
            i <= n,
            n == b@.len(),
            n == a@.len(),
            bs == shown(b@),
            xs == shown(a@),
            diffs(v@) == blocks_compared(start, document@, bs, xs, i as int),
        decreases n - i,
    {
        assert(bs[i as int] == (b@[i as int].text@, edit::pairs(b@[i as int].props@)));
        assert(xs[i as int] == (a@[i as int].text@, edit::pairs(a@[i as int].props@)));
        assert(edit::pairs(b@[i as int].props@).len() == b@[i as int].props@.len());
        assert(edit::pairs(a@[i as int].props@).len() == a@[i as int].props@.len());
        let text = chars_of(&b[i].text);
        compare_props(v, document, &text, &b[i].props, &a[i].props);
        i += 1;
    }
}

fn compare_runs(v: &mut Vec<StyleDiff>, document: &str, b: &Vec<Shown>, a: &Vec<Shown>)
    requires
        text_to(shown(b@), b@.len() as int).len() <= usize::MAX,
        text_to(shown(a@), a@.len() as int).len() <= usize::MAX,
    ensures
        diffs(final(v)@) == runs_compared(
            diffs(old(v)@),
            document@,
            shown(b@),
            shown(a@),
            b@.len() as int,
        ).diffs,
{
    let ghost start = diffs(v@);
    let ghost bs = shown(b@);
    let ghost xs = shown(a@);
    let n = b.len();
    assert(bs.len() == n);
    let mut i: usize = 0;
    let mut next: usize = 0;
    let mut at: u128 = 0;
    let mut from: u128 = 0;
    while i < n
        invariant
            i <= n,
            n == b@.len(),
            bs == shown(b@),
            xs == shown(a@),
            text_to(bs, n as int).len() <= usize::MAX,
            text_to(xs, a@.len() as int).len() <= usize::MAX,
            from == text_to(bs, i as int).len(),
            next <= a@.len(),
            at == text_to(xs, next as int).len(),
            (Along { diffs: diffs(v@), next: next as int, at: at as int }) == runs_compared(
                start,
                document@,
                bs,
                xs,
                i as int,
            ),
        decreases n - i,
    {
        assert(bs[i as int] == (b@[i as int].text@, edit::pairs(b@[i as int].props@)));
        let len = chars_of(&b[i].text).len();
        proof {
            lemma_text_grows(bs, i + 1, n as int);
        }
        let end = from + len as u128;
        let (k, p) = compare_run(v, document, &b[i], a, from, end, next, at);
        next = k;
        at = p;
        from = end;
        i += 1;
    }
}

/// Add the differences between two showings of a document: in the number of its blocks, in the
/// properties of each, in its text, and in the properties of each run of it.
pub fn compare_chapters(document: &str, before: &Chapter, after: &Chapter, found: &mut Vec<StyleDiff>)
    ensures
        diffs(final(found)@) == compared(
            diffs(old(found)@),
            document@,
            shown(before.blocks@),
            shown(after.blocks@),
            shown(before.runs@),
            shown(after.runs@),
        ),
{
    assert(shown(before.blocks@).len() == before.blocks@.len());
    assert(shown(after.blocks@).len() == after.blocks@.len());
    assert(shown(before.runs@).len() == before.runs@.len());
    assert(shown(after.runs@).len() == after.runs@.len());
    let none: Vec<char> = Vec::new();
    assert(none@ =~= Seq::empty());
    if before.blocks.len() != after.blocks.len() {
        let b = string_of(&decimal_of(before.blocks.len()));
        let a = string_of(&decimal_of(after.blocks.len()));
        add_diff(found, document, &none, "blocks", &b, &a);
    } else {
        compare_blocks(found, document, &before.blocks, &after.blocks);
    }
    let tb = text_of_runs(&before.runs);
    let ta = text_of_runs(&after.runs);
    let nb = tb.len();
    let na = ta.len();
    if !same(&tb, &ta) {
        let b = string_of(&decimal_of(nb));
        let a = string_of(&decimal_of(na));
        add_diff(found, document, &none, "text", &b, &a);
    } else {
        compare_runs(found, document, &before.runs, &after.runs);
    }
}

proof fn lemma_same_props(
    v: Seq<Diff>,
    document: Seq<char>,
    text: Seq<char>,
    b: Seq<(Seq<char>, Seq<char>)>,
    n: int,
)
    ensures
        props_compared(v, document, text, b, b, n) == v,
    decreases n,
{
    if n > 0 {
        lemma_same_props(v, document, text, b, n - 1);
    }
}

proof fn lemma_same_blocks(
    v: Seq<Diff>,
    document: Seq<char>,
    b: Seq<(Seq<char>, Seq<(Seq<char>, Seq<char>)>)>,
    n: int,
)
    ensures
        blocks_compared(v, document, b, b, n) == v,
    decreases n,
{
    if n > 0 {
        lemma_same_blocks(v, document, b, n - 1);
        lemma_same_props(v, document, b[n - 1].0, b[n - 1].1, b[n - 1].1.len() as int);
    }
}

proof fn lemma_same_runs(
    v: Seq<Diff>,
    document: Seq<char>,
    b: Seq<(Seq<char>, Seq<(Seq<char>, Seq<char>)>)>,
    n: int,
)
    requires
        0 <= n <= b.len(),
        forall|i: int| 0 <= i < b.len() ==> (#[trigger] b[i]).0.len() > 0,
    ensures
        runs_compared(v, document, b, b, n) == (Along {
            diffs: v,
            next: n,
            at: text_to(b, n).len() as int,
        }),
    decreases n,
{
    if n > 0 {
        lemma_same_runs(v, document, b, n - 1);
        let x = runs_compared(v, document, b, b, n - 1);
        let from = text_to(b, n - 1).len() as int;
        let end = from + b[n - 1].0.len();
        lemma_same_props(v, document, excerpt(b[n - 1].0), b[n - 1].1, b[n - 1].1.len() as int);
        let next = Along { diffs: v, next: n, at: end };
        assert(run_compared(next, document, b[n - 1], b, end, end) == next);
        assert(run_compared(x, document, b[n - 1], b, from, end) == next);
    }
}

/// A showing does not differ from itself, where none of its runs is empty.
pub proof fn a_document_does_not_differ_from_itself(
    v: Seq<Diff>,
    document: Seq<char>,
    blocks: Seq<(Seq<char>, Seq<(Seq<char>, Seq<char>)>)>,
    runs: Seq<(Seq<char>, Seq<(Seq<char>, Seq<char>)>)>,
)
    requires
        forall|i: int| 0 <= i < runs.len() ==> (#[trigger] runs[i]).0.len() > 0,
    ensures
        compared(v, document, blocks, blocks, runs, runs) == v,
{
    lemma_same_blocks(v, document, blocks, blocks.len() as int);
    lemma_same_runs(v, document, runs, runs.len() as int);
}

} // verus!
