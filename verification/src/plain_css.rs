//! Rules that are written plainly, and how a stylesheet that holds them is read: a
//! selector up to its `{`, a block up to its `}`, declarations up to their `;`.
use vstd::prelude::*;

use crate::css::{BlockPart, CssItem, CssKind};
use crate::{css, text};

verus! {

/// Text without strings, escapes and comments.
pub open spec fn is_calm(s: Seq<char>) -> bool {
    forall|k: int|
        0 <= k < s.len() ==> (#[trigger] s[k]) != '"' && s[k] != '\'' && s[k] != '\\' && !(s[k] == '/' && k
            + 1 < s.len() && s[k + 1] == '*')
}

/// How many brackets of the first `n` characters are open.
pub open spec fn opened(s: Seq<char>, n: int) -> int
    decreases n,
{
    if n <= 0 {
        0
    } else {
        opened(s, n - 1) + if s[n - 1] == '(' || s[n - 1] == '[' {
            1int
        } else if s[n - 1] == ')' || s[n - 1] == ']' {
            -1
        } else {
            0
        }
    }
}

/// Every bracket is closed, and none before it is opened.
pub open spec fn is_balanced(s: Seq<char>) -> bool {
    &&& opened(s, s.len() as int) == 0
    &&& forall|k: int| 0 <= k <= s.len() ==> #[trigger] opened(s, k) >= 0
}

/// Text that a selector or a value may be: brackets are closed, and nothing ends it.
pub open spec fn is_run(s: Seq<char>) -> bool {
    is_calm(s) && is_balanced(s) && !s.contains('{') && !s.contains('}') && !s.contains(';')
}

/// The characters of `s` stand at `i`.
pub open spec fn stands(t: Seq<char>, s: Seq<char>, i: int) -> bool {
    text::is_at(t, s, i)
}

proof fn lemma_char(t: Seq<char>, s: Seq<char>, i: int, k: int)
    requires
        stands(t, s, i),
        0 <= k < s.len(),
    ensures
        t[i + k] == s[k],
        i + k < t.len(),
{
    assert(t.subrange(i, i + s.len())[k] == s[k]);
}

/// A character of calm text stands for itself, whatever follows but a `*`.
pub proof fn lemma_bare(t: Seq<char>, s: Seq<char>, i: int, b: int, k: int)
    requires
        is_calm(s),
        stands(t, s, i),
        0 <= k < s.len(),
        i + s.len() <= b <= t.len(),
        i + s.len() < b ==> t[(i + s.len()) as int] != '*',
    ensures
        css::bare(t, i + k, b),
        css::unit_end(t, i + k, b) == i + k + 1,
        t[i + k] == s[k],
{
    lemma_char(t, s, i, k);
    if k + 1 < s.len() {
        lemma_char(t, s, i, k + 1);
    }
}

/// A run is passed over in the search for the end of a selector.
pub proof fn lemma_stop_run(t: Seq<char>, s: Seq<char>, i: int, b: int, k: int)
    requires
        is_run(s),
        stands(t, s, i),
        0 <= k <= s.len(),
        i + s.len() <= b <= t.len(),
        i + s.len() < b ==> t[(i + s.len()) as int] != '*',
    ensures
        css::stop_from(t, i + k, b, opened(s, k)) == css::stop_from(t, (i + s.len()) as int, b, 0),
    decreases s.len() - k,
{
    if k < s.len() {
        lemma_bare(t, s, i, b, k);
        lemma_stop_run(t, s, i, b, k + 1);
        assert(s.contains(s[k]));
        assert(opened(s, k) >= 0 && opened(s, k + 1) >= 0);
        assert(opened(s, k + 1) == css::nested(s[k], opened(s, k)));
    }
}

/// A block without braces is passed over in the search for its end.
pub proof fn lemma_close_block(t: Seq<char>, s: Seq<char>, i: int, b: int, k: int)
    requires
        is_calm(s),
        !s.contains('{'),
        !s.contains('}'),
        stands(t, s, i),
        0 <= k <= s.len(),
        i + s.len() < b <= t.len(),
        t[(i + s.len()) as int] == '}',
    ensures
        css::close_from(t, i + k, b, 0) == i + s.len(),
    decreases s.len() - k,
{
    if k < s.len() {
        lemma_bare(t, s, i, b, k);
        lemma_close_block(t, s, i, b, k + 1);
        assert(s.contains(s[k]));
    }
}

/// A run without `sep` is passed over in the search for one.
pub proof fn lemma_sep_run(t: Seq<char>, s: Seq<char>, sep: char, i: int, k: int)
    requires
        is_run(s),
        forall|m: int|
            0 <= m < s.len() && opened(s, m) == 0 ==> #[trigger] s[m] != sep,
        stands(t, s, i),
        0 <= k <= s.len(),
        i + s.len() < t.len() ==> t[(i + s.len()) as int] != '*',
    ensures
        css::sep_from(t, sep, i + k, opened(s, k)) == css::sep_from(t, sep, (i + s.len()) as int, 0),
    decreases s.len() - k,
{
    if k < s.len() {
        let b = t.len() as int;
        lemma_bare(t, s, i, b, k);
        lemma_sep_run(t, s, sep, i, k + 1);
        assert(opened(s, k) >= 0 && opened(s, k + 1) >= 0);
        assert(opened(s, k + 1) == css::nested(s[k], opened(s, k)));
    }
}

// ---------------------------------------------------------------- rules

/// What may stand before a `{` as the selectors of a rule.
pub open spec fn is_selectors(s: Seq<char>) -> bool {
    is_run(s) && s.len() > 0 && s[0] != '@' && !text::is_ascii_white(s[0])
}

/// What may stand between the braces of a rule.
pub open spec fn is_block(s: Seq<char>) -> bool {
    is_calm(s) && !s.contains('{') && !s.contains('}')
}

/// A rule as it is written.
pub open spec fn rule_text(selectors: Seq<char>, block: Seq<char>) -> Seq<char> {
    selectors + "{"@ + block + "}"@
}

/// How a rule at `i` is read.
pub open spec fn rule_item(selectors: Seq<char>, block: Seq<char>, i: int) -> CssItem {
    let s = i + selectors.len();
    CssItem {
        start: i,
        end: s + block.len() + 2,
        kind: CssKind::Rule { prelude: (i, s), inner: (s + 1, s + 1 + block.len()) },
    }
}

pub proof fn lemma_parts(t: Seq<char>, a: Seq<char>, b: Seq<char>, i: int)
    requires
        stands(t, a + b, i),
    ensures
        stands(t, a, i),
        stands(t, b, (i + a.len()) as int),
{
    let n = a.len() as int;
    let c = t.subrange(i, i + (a + b).len());
    assert(t.subrange(i, i + n) =~= c.subrange(0, n));
    assert((a + b).subrange(0, n) =~= a);
    assert(t.subrange(i + n, i + n + b.len()) =~= c.subrange(n, n + b.len()));
    assert((a + b).subrange(n, n + b.len()) =~= b);
}

/// A rule that is written plainly is read as one, wherever it stands.
pub proof fn lemma_rule_at(t: Seq<char>, selectors: Seq<char>, block: Seq<char>, i: int, b: int)
    requires
        is_selectors(selectors),
        is_block(block),
        stands(t, rule_text(selectors, block), i),
        i + selectors.len() + block.len() + 2 <= b <= t.len(),
    ensures
        css::item_at(t, i, b) == rule_item(selectors, block, i),
        !text::is_ascii_white(t[i]),
        t[i] != '}',
        t[i] != ';',
        t.subrange(i, (i + selectors.len()) as int) == selectors,
        t.subrange((i + selectors.len() + 1) as int, (i + selectors.len() + 1 + block.len()) as int) == block,
{
    reveal_strlit("{");
    reveal_strlit("}");
    let n = selectors.len() as int;
    let m = block.len() as int;
    lemma_parts(t, selectors + "{"@ + block, "}"@, i);
    lemma_parts(t, selectors + "{"@, block, i);
    lemma_parts(t, selectors, "{"@, i);
    lemma_char(t, "{"@, i + n, 0);
    lemma_char(t, "}"@, i + n + 1 + m, 0);
    lemma_char(t, selectors, i, 0);
    assert(selectors.contains(selectors[0]));
    lemma_bare(t, selectors, i, b, 0);
    lemma_stop_run(t, selectors, i, b, 0);
    assert(css::bare(t, i + n, b));
    assert(css::stop_from(t, i + n, b, 0) == i + n);
    lemma_close_block(t, block, i + n + 1, b, 0);
}

/// One rule behind the other, `n` of them, each with what stands before it.
pub open spec fn sheet_text(v: Seq<(Seq<char>, Seq<char>, Seq<char>)>, n: int) -> Seq<char>
    decreases n,
{
    if n <= 0 {
        Seq::empty()
    } else {
        sheet_text(v, n - 1) + v[n - 1].0 + rule_text(v[n - 1].1, v[n - 1].2)
    }
}

pub open spec fn is_gap(w: Seq<char>) -> bool {
    forall|k: int| 0 <= k < w.len() ==> text::is_ascii_white(#[trigger] w[k])
}

/// Each is a rule, behind white space.
pub open spec fn are_rules(v: Seq<(Seq<char>, Seq<char>, Seq<char>)>) -> bool {
    forall|k: int|
        0 <= k < v.len() ==> is_gap((#[trigger] v[k]).0) && is_selectors(v[k].1) && is_block(v[k].2)
}

/// Where the `k`-th rule stands.
pub open spec fn rule_place(v: Seq<(Seq<char>, Seq<char>, Seq<char>)>, k: int) -> int {
    (sheet_text(v, k).len() + v[k].0.len()) as int
}

/// The rule `k` stands at its place in the sheet.
pub proof fn lemma_rule_place(v: Seq<(Seq<char>, Seq<char>, Seq<char>)>, k: int, n: int)
    requires
        0 <= k < n <= v.len(),
    ensures
        stands(sheet_text(v, n), v[k].0, sheet_text(v, k).len() as int),
        stands(sheet_text(v, n), rule_text(v[k].1, v[k].2), rule_place(v, k)),
        sheet_text(v, k + 1).len() == rule_place(v, k) + v[k].1.len() + v[k].2.len() + 2,
        sheet_text(v, k + 1).len() <= sheet_text(v, n).len(),
    decreases n,
{
    reveal_strlit("{");
    reveal_strlit("}");
    let t = sheet_text(v, n);
    let a = sheet_text(v, n - 1);
    let b = v[n - 1].0;
    let c = rule_text(v[n - 1].1, v[n - 1].2);
    if k < n - 1 {
        lemma_rule_place(v, k, n - 1);
        let i = sheet_text(v, k).len() as int;
        let j = rule_place(v, k);
        let x = v[k].0;
        let y = rule_text(v[k].1, v[k].2);
        assert(t.subrange(i, i + x.len()) =~= a.subrange(i, i + x.len()));
        assert(t.subrange(j, j + y.len()) =~= a.subrange(j, j + y.len()));
    } else {
        let i = a.len() as int;
        assert(t.subrange(i, i + b.len()) =~= b);
        assert(t.subrange(i + b.len(), i + b.len() + c.len()) =~= c);
    }
}

proof fn lemma_scan_gap(t: Seq<char>, w: Seq<char>, i: int, k: int)
    requires
        stands(t, w, i),
        is_gap(w),
        0 <= k <= w.len(),
    ensures
        css::scan_from(t, i + k, t.len() as int) == css::scan_from(t, (i + w.len()) as int, t.len() as int),
    decreases w.len() - k,
{
    if k < w.len() {
        lemma_char(t, w, i, k);
        lemma_scan_gap(t, w, i, k + 1);
    }
}

/// The items of the rules.
pub open spec fn rule_items(v: Seq<(Seq<char>, Seq<char>, Seq<char>)>, k: int) -> Seq<CssItem>
    decreases v.len() - k,
{
    if 0 <= k < v.len() {
        seq![rule_item(v[k].1, v[k].2, rule_place(v, k))] + rule_items(v, k + 1)
    } else {
        Seq::empty()
    }
}

proof fn lemma_scan(v: Seq<(Seq<char>, Seq<char>, Seq<char>)>, w: Seq<char>, k: int)
    requires
        are_rules(v),
        is_gap(w),
        0 <= k <= v.len(),
    ensures
        ({
            let t = sheet_text(v, v.len() as int) + w;
            css::scan_from(t, sheet_text(v, k).len() as int, t.len() as int) == rule_items(v, k)
        }),
    decreases v.len() - k,
{
    let n = v.len() as int;
    let u = sheet_text(v, n);
    let t = u + w;
    let i = sheet_text(v, k).len() as int;
    if k < n {
        lemma_rule_in(v, w, k);
        lemma_rule_place(v, k, n);
        lemma_scan_gap(t, v[k].0, i, 0);
        lemma_rule_at(t, v[k].1, v[k].2, rule_place(v, k), t.len() as int);
        lemma_scan(v, w, k + 1);
    } else {
        assert(t.subrange(i, i + w.len()) =~= w);
        lemma_scan_gap(t, w, i, 0);
    }
}

/// The rule `k` stands at its place, whatever follows the sheet.
pub proof fn lemma_rule_in(v: Seq<(Seq<char>, Seq<char>, Seq<char>)>, w: Seq<char>, k: int)
    requires
        0 <= k < v.len(),
    ensures
        stands(sheet_text(v, v.len() as int) + w, v[k].0, sheet_text(v, k).len() as int),
        stands(sheet_text(v, v.len() as int) + w, rule_text(v[k].1, v[k].2), rule_place(v, k)),
{
    let n = v.len() as int;
    let u = sheet_text(v, n);
    let t = u + w;
    let i = sheet_text(v, k).len() as int;
    lemma_rule_place(v, k, n);
    let x = v[k].0;
    let y = rule_text(v[k].1, v[k].2);
    let j = rule_place(v, k);
    assert(t.subrange(i, i + x.len()) =~= u.subrange(i, i + x.len()));
    assert(t.subrange(j, j + y.len()) =~= u.subrange(j, j + y.len()));
}

pub proof fn lemma_rule_items(v: Seq<(Seq<char>, Seq<char>, Seq<char>)>, k: int)
    requires
        0 <= k <= v.len(),
    ensures
        rule_items(v, k).len() == v.len() - k,
        forall|j: int|
            0 <= j < v.len() - k ==> #[trigger] rule_items(v, k)[j] == rule_item(
                v[k + j].1,
                v[k + j].2,
                rule_place(v, k + j),
            ),
    decreases v.len() - k,
{
    if k < v.len() {
        lemma_rule_items(v, k + 1);
        let r = rule_items(v, k + 1);
        assert forall|j: int| 0 <= j < v.len() - k implies #[trigger] rule_items(v, k)[j] == rule_item(
            v[k + j].1,
            v[k + j].2,
            rule_place(v, k + j),
        ) by {
            if j > 0 {
                assert(rule_items(v, k)[j] == r[j - 1]);
            }
        }
    }
}

/// A stylesheet of rules is read as its rules: each from its first character to its
/// `}`, in order, and nothing else.
pub proof fn a_sheet_of_rules_is_read_as_its_rules(
    v: Seq<(Seq<char>, Seq<char>, Seq<char>)>,
    w: Seq<char>,
)
    requires
        are_rules(v),
        is_gap(w),
    ensures
        ({
            let t = sheet_text(v, v.len() as int) + w;
            let items = css::spec_scan(t);
            &&& items.len() == v.len()
            &&& forall|k: int|
                0 <= k < v.len() ==> (#[trigger] items[k]) == rule_item(v[k].1, v[k].2, rule_place(v, k))
                    && t.subrange(items[k].start, items[k].end) == rule_text(v[k].1, v[k].2)
        }),
{
    reveal_strlit("{");
    reveal_strlit("}");
    let n = v.len() as int;
    let t = sheet_text(v, n) + w;
    lemma_scan(v, w, 0);
    lemma_rule_items(v, 0);
    let items = css::spec_scan(t);
    assert forall|k: int| 0 <= k < v.len() implies (#[trigger] items[k]) == rule_item(
        v[k].1,
        v[k].2,
        rule_place(v, k),
    ) && t.subrange(items[k].start, items[k].end) == rule_text(v[k].1, v[k].2) by {
        lemma_rule_in(v, w, k);
        assert(rule_items(v, 0)[k] == rule_item(v[0 + k].1, v[0 + k].2, rule_place(v, 0 + k)));
    }
}

// ---------------------------------------------------------------- lists of selectors

/// Nothing of the run parts a list at `sep`.
pub open spec fn is_one(s: Seq<char>, sep: char) -> bool {
    is_run(s) && forall|m: int| 0 <= m < s.len() && opened(s, m) == 0 ==> #[trigger] s[m] != sep
}

/// The texts from `k` on, `sep` between one and the next.
pub open spec fn listed(v: Seq<Seq<char>>, sep: char, k: int) -> Seq<char>
    decreases v.len() - k,
{
    if k < 0 || k >= v.len() {
        Seq::empty()
    } else if k + 1 == v.len() {
        v[k]
    } else {
        v[k].push(sep) + listed(v, sep, k + 1)
    }
}

proof fn lemma_pieces(t: Seq<char>, v: Seq<Seq<char>>, sep: char, i: int, k: int)
    requires
        0 <= k < v.len(),
        sep != '*',
        sep == ',' || sep == ';',
        forall|j: int| 0 <= j < v.len() ==> is_one(#[trigger] v[j], sep),
        stands(t, listed(v, sep, k), i),
        i + listed(v, sep, k).len() == t.len(),
    ensures
        css::pieces_from(t, sep, i) == v.subrange(k, v.len() as int),
    decreases v.len() - k,
{
    let n = v[k].len() as int;
    assert(is_one(v[k], sep));
    if k + 1 == v.len() {
        lemma_sep_run(t, v[k], sep, i, 0);
        assert(css::pieces_from(t, sep, i) =~= v.subrange(k, v.len() as int));
    } else {
        let rest = listed(v, sep, k + 1);
        let s = seq![sep];
        assert(v[k].push(sep) + rest =~= v[k] + (s + rest));
        lemma_parts(t, v[k], s + rest, i);
        lemma_parts(t, s, rest, i + n);
        lemma_char(t, s, i + n, 0);
        lemma_sep_run(t, v[k], sep, i, 0);
        assert(css::sep_from(t, sep, i + n, 0) == i + n);
        lemma_pieces(t, v, sep, i + n + 1, k + 1);
        assert(css::pieces_from(t, sep, i) =~= v.subrange(k, v.len() as int));
    }
}

/// A list is parted into what it was made of.
pub proof fn a_list_is_parted_into_what_it_lists(v: Seq<Seq<char>>, sep: char)
    requires
        v.len() > 0,
        sep == ',' || sep == ';',
        forall|j: int| 0 <= j < v.len() ==> is_one(#[trigger] v[j], sep),
    ensures
        css::spec_split_top_level(listed(v, sep, 0), sep) == v,
{
    let t = listed(v, sep, 0);
    assert(t.subrange(0, t.len() as int) =~= t);
    lemma_pieces(t, v, sep, 0, 0);
    assert(v.subrange(0, v.len() as int) =~= v);
}

// ---------------------------------------------------------------- declarations

/// The name of a property: neither empty nor with anything that ends a name.
pub open spec fn is_property(s: Seq<char>) -> bool {
    is_run(s) && s.len() > 0 && !s.contains(':') && !text::is_ascii_white(s[0]) && !text::is_ascii_white(
        s.last(),
    ) && s[0] != '/' && opens_nothing(s)
}

pub open spec fn opens_nothing(s: Seq<char>) -> bool {
    !s.contains('(') && !s.contains('[') && !s.contains(')') && !s.contains(']')
}

/// The value of a property.
pub open spec fn is_value(s: Seq<char>) -> bool {
    is_run(s) && s.len() > 0 && !text::is_ascii_white(s[0]) && !text::is_ascii_white(s.last())
}

/// Declarations, each on a line of its own, indented.
pub open spec fn lines(d: Seq<(Seq<char>, Seq<char>)>, n: int) -> Seq<char>
    decreases n,
{
    if n <= 0 {
        Seq::empty()
    } else {
        lines(d, n - 1) + "  "@ + (d[n - 1].0 + ": "@ + d[n - 1].1) + ";"@ + "\n"@
    }
}

pub open spec fn are_declarations(d: Seq<(Seq<char>, Seq<char>)>) -> bool {
    forall|k: int| 0 <= k < d.len() ==> is_property((#[trigger] d[k]).0) && is_value(d[k].1)
}

pub proof fn lemma_calm_join(a: Seq<char>, b: Seq<char>)
    requires
        is_calm(a),
        is_calm(b),
        a.len() > 0 && b.len() > 0 ==> a.last() != '/' || b[0] != '*',
    ensures
        is_calm(a + b),
{
    let s = a + b;
    assert forall|k: int| 0 <= k < s.len() implies (#[trigger] s[k]) != '"' && s[k] != '\'' && s[k] != '\\'
        && !(s[k] == '/' && k + 1 < s.len() && s[k + 1] == '*') by {
        if k < a.len() {
            assert(s[k] == a[k]);
            if k + 1 < a.len() {
                assert(s[k + 1] == a[k + 1]);
            } else if k + 1 < s.len() {
                assert(s[k + 1] == b[0]);
            }
        } else {
            assert(s[k] == b[k - a.len()]);
            if k + 1 < s.len() {
                assert(s[k + 1] == b[k + 1 - a.len()]);
            }
        }
    }
}

pub proof fn lemma_opened_join(a: Seq<char>, b: Seq<char>, k: int)
    requires
        0 <= k <= a.len() + b.len(),
    ensures
        k <= a.len() ==> opened(a + b, k) == opened(a, k),
        k >= a.len() ==> opened(a + b, k) == opened(a, a.len() as int) + opened(b, k - a.len()),
    decreases k,
{
    if k > 0 {
        lemma_opened_join(a, b, k - 1);
        if k <= a.len() {
            assert((a + b)[k - 1] == a[k - 1]);
        } else {
            assert((a + b)[k - 1] == b[k - 1 - a.len()]);
        }
    }
}

pub proof fn lemma_lacks_join(a: Seq<char>, b: Seq<char>, c: char)
    requires
        !a.contains(c),
        !b.contains(c),
    ensures
        !(a + b).contains(c),
{
    if (a + b).contains(c) {
        let k = choose|k: int| 0 <= k < (a + b).len() && (a + b)[k] == c;
        if k < a.len() {
            assert(a.contains(a[k]));
        } else {
            assert(b.contains(b[k - a.len()]));
        }
    }
}

/// Runs, one behind the other, are a run.
pub proof fn lemma_run_join(a: Seq<char>, b: Seq<char>)
    requires
        is_run(a),
        is_run(b),
        a.len() > 0 && b.len() > 0 ==> a.last() != '/' || b[0] != '*',
    ensures
        is_run(a + b),
{
    lemma_calm_join(a, b);
    lemma_lacks_join(a, b, '{');
    lemma_lacks_join(a, b, '}');
    lemma_lacks_join(a, b, ';');
    let s = a + b;
    assert forall|k: int| 0 <= k <= s.len() implies #[trigger] opened(s, k) >= 0 by {
        lemma_opened_join(a, b, k);
        if k <= a.len() {
            assert(opened(a, k) >= 0);
        } else {
            assert(opened(b, k - a.len()) >= 0);
        }
    }
    lemma_opened_join(a, b, s.len() as int);
    if b.len() == 0 {
        assert(opened(b, 0) == 0);
    }
}

/// A text without brackets, quotes and the like is a run.
pub proof fn lemma_plain_run(s: Seq<char>)
    requires
        is_calm(s),
        opens_nothing(s),
        !s.contains('{'),
        !s.contains('}'),
        !s.contains(';'),
    ensures
        is_run(s),
{
    assert forall|k: int| 0 <= k <= s.len() implies #[trigger] opened(s, k) == 0 by {
        lemma_opens_nothing(s, k);
    }
}

proof fn lemma_opens_nothing(s: Seq<char>, k: int)
    requires
        opens_nothing(s),
        0 <= k <= s.len(),
    ensures
        opened(s, k) == 0,
    decreases k,
{
    if k > 0 {
        lemma_opens_nothing(s, k - 1);
        assert(s.contains(s[k - 1]));
    }
}

/// A declaration is parted at its first colon.
proof fn lemma_declaration(name: Seq<char>, value: Seq<char>)
    requires
        is_property(name),
        is_value(value),
    ensures
        css::declaration(name + ": "@ + value) == BlockPart::Decl(name, value),
        is_run(name + ": "@ + value),
{
    reveal_strlit(": ");
    let s = name + ": "@ + value;
    let n = name.len() as int;
    text::lemma_find_char(s, ':', 0);
    assert(s[n] == ':');
    let k = text::spec_find_char(s, ':', 0)->0;
    if k < n {
        assert(s[k] == name[k]);
        assert(name.contains(name[k]));
    }
    assert(s.subrange(0, n) =~= name);
    let none = Seq::<char>::empty();
    assert(name =~= none + name + none);
    crate::pretty_twice::lemma_ascii_trim_is(name, none, name, none);
    let r = s.subrange(n + 1, s.len() as int);
    let gap = seq![' '];
    assert(r =~= gap + value + none);
    crate::pretty_twice::lemma_ascii_trim_is(r, gap, value, none);
    lemma_plain_run(": "@);
    lemma_run_join(name, ": "@);
    lemma_run_join(name + ": "@, value);
}

/// Where the `k`-th line starts.
proof fn lemma_line_place(d: Seq<(Seq<char>, Seq<char>)>, k: int, n: int)
    requires
        0 <= k < n <= d.len(),
    ensures
        stands(
            lines(d, n),
            "  "@ + (d[k].0 + ": "@ + d[k].1) + ";"@ + "\n"@,
            lines(d, k).len() as int,
        ),
        lines(d, k + 1).len() <= lines(d, n).len(),
    decreases n,
{
    let t = lines(d, n);
    let a = lines(d, n - 1);
    let i = lines(d, k).len() as int;
    let x = "  "@ + (d[k].0 + ": "@ + d[k].1) + ";"@ + "\n"@;
    if k < n - 1 {
        lemma_line_place(d, k, n - 1);
        assert(t.subrange(i, i + x.len()) =~= a.subrange(i, i + x.len()));
    } else {
        assert(t.subrange(i, i + x.len()) =~= x);
    }
}

/// The parts that declarations are read as.
pub open spec fn decl_parts(d: Seq<(Seq<char>, Seq<char>)>, k: int) -> Seq<BlockPart>
    decreases d.len() - k,
{
    if 0 <= k < d.len() {
        seq![BlockPart::Decl(d[k].0, d[k].1)] + decl_parts(d, k + 1)
    } else {
        Seq::empty()
    }
}

proof fn lemma_block_from(d: Seq<(Seq<char>, Seq<char>)>, w: Seq<char>, k: int)
    requires
        are_declarations(d),
        is_gap(w),
        0 <= k <= d.len(),
    ensures
        css::block_from(w + lines(d, d.len() as int), (w.len() + lines(d, k).len()) as int) == decl_parts(
            d,
            k,
        ),
    decreases d.len() - k,
{
    let n = d.len() as int;
    let u = lines(d, n);
    let t = w + u;
    if k < n {
        reveal_strlit("  ");
        reveal_strlit(";");
        reveal_strlit("\n");
        reveal_strlit(": ");
        let i = (w.len() + lines(d, k).len()) as int;
        let s = d[k].0 + ": "@ + d[k].1;
        assert(is_property(d[k].0) && is_value(d[k].1));
        lemma_line_place(d, k, n);
        let x = "  "@ + s + ";"@ + "\n"@;
        assert(t.subrange(i, i + x.len()) =~= u.subrange(i - w.len(), i - w.len() + x.len()));
        assert(stands(t, x, i));
        lemma_parts(t, "  "@ + s + ";"@, "\n"@, i);
        lemma_parts(t, "  "@ + s, ";"@, i);
        lemma_parts(t, "  "@, s, i);
        let m = s.len() as int;
        lemma_char(t, "  "@, i, 0);
        lemma_char(t, "  "@, i, 1);
        lemma_char(t, s, i + 2, 0);
        lemma_char(t, ";"@, i + 2 + m, 0);
        lemma_char(t, "\n"@, i + 2 + m + 1, 0);
        lemma_declaration(d[k].0, d[k].1);
        assert(s[0] == d[k].0[0]);
        assert(s.contains(s[0]));
        lemma_lacks(s, ';');
        lemma_sep_run(t, s, ';', i + 2, 0);
        assert(css::sep_from(t, ';', i + 2 + m, 0) == i + 2 + m);
        assert(t.subrange(i + 2, i + 2 + m) =~= s);
        lemma_block_from(d, w, k + 1);
        assert(lines(d, k + 1).len() == lines(d, k).len() + m + 4);
        assert(css::block_from(t, i) == css::block_from(t, i + 1));
        assert(css::block_from(t, i + 1) == css::block_from(t, i + 2));
        assert(css::block_from(t, i + 2 + m + 1) == css::block_from(t, i + 2 + m + 2));
        assert(!css::comment_at(t, i + 2, t.len() as int));
        assert(css::block_from(t, i + 2) == seq![css::declaration(s)] + css::block_from(t, i + 2 + m + 1));
    }
}

pub proof fn lemma_lacks(s: Seq<char>, c: char)
    requires
        !s.contains(c),
    ensures
        forall|m: int| 0 <= m < s.len() ==> #[trigger] s[m] != c,
{
    assert forall|m: int| 0 <= m < s.len() implies #[trigger] s[m] != c by {
        assert(s.contains(s[m]));
    }
}

proof fn lemma_block_gap(t: Seq<char>, w: Seq<char>, k: int)
    requires
        stands(t, w, 0),
        is_gap(w),
        0 <= k <= w.len(),
    ensures
        css::block_from(t, k) == css::block_from(t, w.len() as int),
    decreases w.len() - k,
{
    if k < w.len() {
        lemma_char(t, w, 0, k);
        lemma_block_gap(t, w, k + 1);
    }
}

/// Declarations that are written one to a line are read as they are: each property
/// with its value, in order.
pub proof fn written_declarations_are_read_back(d: Seq<(Seq<char>, Seq<char>)>, w: Seq<char>)
    requires
        are_declarations(d),
        is_gap(w),
    ensures
        ({
            let v = css::spec_block_items(w + lines(d, d.len() as int));
            &&& v.len() == d.len()
            &&& forall|k: int| 0 <= k < d.len() ==> #[trigger] v[k] == BlockPart::Decl(d[k].0, d[k].1)
        }),
{
    let t = w + lines(d, d.len() as int);
    assert(t.subrange(0, w.len() as int) =~= w);
    lemma_block_gap(t, w, 0);
    lemma_block_from(d, w, 0);
    lemma_decl_parts(d, 0);
}

pub proof fn lemma_decl_parts(d: Seq<(Seq<char>, Seq<char>)>, k: int)
    requires
        0 <= k <= d.len(),
    ensures
        decl_parts(d, k).len() == d.len() - k,
        forall|j: int|
            0 <= j < d.len() - k ==> #[trigger] decl_parts(d, k)[j] == BlockPart::Decl(
                d[k + j].0,
                d[k + j].1,
            ),
    decreases d.len() - k,
{
    if k < d.len() {
        lemma_decl_parts(d, k + 1);
        let r = decl_parts(d, k + 1);
        assert forall|j: int| 0 <= j < d.len() - k implies #[trigger] decl_parts(d, k)[j] == BlockPart::Decl(
            d[k + j].0,
            d[k + j].1,
        ) by {
            if j > 0 {
                assert(decl_parts(d, k)[j] == r[j - 1]);
            }
        }
    }
}

/// Declarations, written one to a line, can stand in a block.
pub proof fn lemma_lines_block(d: Seq<(Seq<char>, Seq<char>)>, n: int)
    requires
        are_declarations(d),
        0 <= n <= d.len(),
    ensures
        is_block(lines(d, n)),
        lines(d, n).len() > 0 ==> lines(d, n).last() == '\n',
    decreases n,
{
    if n > 0 {
        reveal_strlit("  ");
        reveal_strlit(";");
        reveal_strlit("\n");
        lemma_lines_block(d, n - 1);
        assert(is_property(d[n - 1].0) && is_value(d[n - 1].1));
        lemma_declaration(d[n - 1].0, d[n - 1].1);
        let a = lines(d, n - 1);
        let s = d[n - 1].0 + ": "@ + d[n - 1].1;
        lemma_calm_join(a, "  "@);
        lemma_calm_join(a + "  "@, s);
        lemma_calm_join(a + "  "@ + s, ";"@);
        lemma_calm_join(a + "  "@ + s + ";"@, "\n"@);
        lemma_lacks_join(a, "  "@, '{');
        lemma_lacks_join(a + "  "@, s, '{');
        lemma_lacks_join(a + "  "@ + s, ";"@, '{');
        lemma_lacks_join(a + "  "@ + s + ";"@, "\n"@, '{');
        lemma_lacks_join(a, "  "@, '}');
        lemma_lacks_join(a + "  "@, s, '}');
        lemma_lacks_join(a + "  "@ + s, ";"@, '}');
        lemma_lacks_join(a + "  "@ + s + ";"@, "\n"@, '}');
    }
}

} // verus!
