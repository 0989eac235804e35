//! The base of a selector is what is left of it without its pseudo-classes, and a rule
//! one of whose selectors has a base that matches is used: it is not listed, and stays.
use vstd::prelude::*;

use crate::plain_css::{are_rules, is_gap, stands};
use crate::{css, manifest, plain_css, text, unused_css};

verus! {

// ---------------------------------------------------------------- bases

/// Text of a selector without pseudo-classes and strings.
pub open spec fn is_base(s: Seq<char>) -> bool {
    !s.contains(':') && !s.contains('"') && !s.contains('\'')
}

/// The name of a pseudo-class or, behind one more colon, of a pseudo-element.
pub open spec fn is_pseudo_name(s: Seq<char>) -> bool {
    s.len() > 0 && forall|k: int|
        0 <= k < s.len() ==> text::is_ascii_alnum(#[trigger] s[k]) || s[k] == '-' || s[k] == ':'
}

/// How many parentheses of the first `n` characters are open.
pub open spec fn parens(s: Seq<char>, n: int) -> int
    decreases n,
{
    if n <= 0 {
        0
    } else {
        parens(s, n - 1) + if s[n - 1] == '(' {
            1int
        } else if s[n - 1] == ')' {
            -1
        } else {
            0
        }
    }
}

/// The arguments of a pseudo-class: every parenthesis is closed.
pub open spec fn is_arguments(s: Seq<char>) -> bool {
    &&& parens(s, s.len() as int) == 0
    &&& forall|k: int| 0 <= k <= s.len() ==> #[trigger] parens(s, k) >= 0
}

/// A pseudo-class as it is written.
pub open spec fn pseudo(name: Seq<char>, args: Option<Seq<char>>) -> Seq<char> {
    match args {
        Some(a) => seq![':'] + name + seq!['('] + a + seq![')'],
        None => seq![':'] + name,
    }
}

pub open spec fn is_pseudo(name: Seq<char>, args: Option<Seq<char>>) -> bool {
    is_pseudo_name(name) && (args matches Some(a) ==> is_arguments(a))
}

/// What may follow a pseudo-class and not go on with it.
pub open spec fn ends_pseudo(args: Option<Seq<char>>, s: Seq<char>) -> bool {
    args is None && s.len() > 0 ==> !text::is_ascii_alnum(s[0]) && s[0] != '-' && s[0] != ':' && s[0]
        != '('
}

proof fn lemma_pseudo_end_shift(x: Seq<char>, y: Seq<char>, j: int)
    requires
        0 <= j <= y.len(),
    ensures
        unused_css::pseudo_end(x + y, x.len() + j) == x.len() + unused_css::pseudo_end(y, j),
    decreases y.len() - j,
{
    if j < y.len() {
        assert((x + y)[x.len() + j] == y[j]);
        lemma_pseudo_end_shift(x, y, j + 1);
    }
}

proof fn lemma_arguments_shift(x: Seq<char>, y: Seq<char>, j: int, depth: int)
    requires
        0 <= j <= y.len(),
    ensures
        unused_css::arguments_end(x + y, x.len() + j, depth) == x.len() + unused_css::arguments_end(
            y,
            j,
            depth,
        ),
    decreases y.len() - j,
{
    if j < y.len() {
        assert((x + y)[x.len() + j] == y[j]);
        lemma_arguments_shift(
            x,
            y,
            j + 1,
            if y[j] == '(' {
                depth + 1
            } else if y[j] == ')' {
                depth - 1
            } else {
                depth
            },
        );
    }
}

/// What is left of a rest does not depend on what stands before it.
proof fn lemma_stripped_shift(x: Seq<char>, y: Seq<char>, j: int)
    requires
        0 <= j <= y.len(),
    ensures
        unused_css::stripped_from(x + y, x.len() + j) == unused_css::stripped_from(y, j),
    decreases y.len() - j,
{
    let t = x + y;
    let i = x.len() + j;
    if j < y.len() {
        assert(t[i] == y[j]);
        if y[j] == ':' {
            unused_css::lemma_pseudo_past(y, j);
            unused_css::lemma_pseudo_end(y, j + 1);
            lemma_pseudo_end_shift(x, y, j + 1);
            let e = unused_css::pseudo_end(y, j + 1);
            lemma_arguments_shift(x, y, e, 0);
            if e < y.len() {
                assert(t[x.len() + e] == y[e]);
            }
            assert(unused_css::pseudo_past(t, i) == x.len() + unused_css::pseudo_past(y, j));
            lemma_stripped_shift(x, y, unused_css::pseudo_past(y, j));
        } else if y[j] == '"' || y[j] == '\'' {
            text::lemma_find_char(y, y[j], j + 1);
            text::lemma_find_char_shift(x, y, y[j], j + 1);
            let e = unused_css::quote_past(y, y[j], j + 1);
            assert(unused_css::quote_past(t, y[j], i + 1) == x.len() + e);
            lemma_stripped_shift(x, y, e);
            assert(t.subrange(i, x.len() + e) =~= y.subrange(j, e));
        } else {
            lemma_stripped_shift(x, y, j + 1);
            assert(t.subrange(i, i + 1) =~= y.subrange(j, j + 1));
        }
    }
}

/// Text without pseudo-classes and strings stays in the base as it is.
pub proof fn plain_text_stays_in_the_base(b: Seq<char>, s: Seq<char>)
    requires
        is_base(b),
    ensures
        unused_css::spec_strip_pseudo(b + s) == b + unused_css::spec_strip_pseudo(s),
    decreases b.len(),
{
    let t = b + s;
    if b.len() == 0 {
        assert(t =~= s);
        assert(b + unused_css::spec_strip_pseudo(s) =~= unused_css::spec_strip_pseudo(s));
    } else {
        let x = seq![b[0]];
        let r = b.subrange(1, b.len() as int);
        assert(b.contains(b[0]));
        assert(is_base(r)) by {
            assert forall|k: int| 0 <= k < r.len() implies b.contains(#[trigger] r[k]) by {
                assert(r[k] == b[k + 1]);
            }
        }
        plain_text_stays_in_the_base(r, s);
        assert(t =~= x + (r + s));
        lemma_stripped_shift(x, r + s, 0);
        assert(t[0] == b[0]);
        assert(t.subrange(0, 1) =~= x);
        assert(x + (r + unused_css::spec_strip_pseudo(s)) =~= b + unused_css::spec_strip_pseudo(s));
    }
}

/// A string stays in the base as it is, whatever it holds.
pub proof fn a_string_stays_in_the_base(q: char, x: Seq<char>, s: Seq<char>)
    requires
        q == '"' || q == '\'',
        !x.contains(q),
    ensures
        unused_css::spec_strip_pseudo(seq![q] + x + seq![q] + s) == seq![q] + x + seq![q]
            + unused_css::spec_strip_pseudo(s),
{
    let h = seq![q] + x + seq![q];
    let t = h + s;
    let n = (x.len() + 1) as int;
    assert(t[0] == q);
    assert(t[n] == q);
    text::lemma_find_char(t, q, 1);
    let k = text::spec_find_char(t, q, 1)->0;
    if k < n {
        assert(t[k] == x[k - 1]);
        assert(x.contains(x[k - 1]));
    }
    assert(t.subrange(0, n + 1) =~= h);
    lemma_stripped_shift(h, s, 0);
}

proof fn lemma_name_passed(t: Seq<char>, name: Seq<char>, i: int, k: int)
    requires
        is_pseudo_name(name),
        text::is_at(t, name, i),
        0 <= k <= name.len(),
        i + name.len() < t.len() ==> !unused_css::in_pseudo(t[(i + name.len()) as int]),
    ensures
        unused_css::pseudo_end(t, i + k) == i + name.len(),
    decreases name.len() - k,
{
    if k < name.len() {
        assert(t.subrange(i, i + name.len())[k] == name[k]);
        lemma_name_passed(t, name, i, k + 1);
    }
}

proof fn lemma_arguments_passed(t: Seq<char>, a: Seq<char>, i: int, k: int)
    requires
        is_arguments(a),
        text::is_at(t, a, i),
        0 <= k <= a.len(),
        i + a.len() < t.len(),
        t[(i + a.len()) as int] == ')',
    ensures
        unused_css::arguments_end(t, i + k, parens(a, k) + 1) == i + a.len() + 1,
    decreases a.len() - k,
{
    if k < a.len() {
        assert(t.subrange(i, i + a.len())[k] == a[k]);
        assert(parens(a, k) >= 0 && parens(a, k + 1) >= 0);
        lemma_arguments_passed(t, a, i, k + 1);
    }
}

/// A pseudo-class is no part of the base, with its arguments and all that they hold.
pub proof fn a_pseudo_class_is_no_part_of_the_base(
    name: Seq<char>,
    args: Option<Seq<char>>,
    s: Seq<char>,
)
    requires
        is_pseudo(name, args),
        ends_pseudo(args, s),
    ensures
        unused_css::spec_strip_pseudo(pseudo(name, args) + s) == unused_css::spec_strip_pseudo(s),
{
    let p = pseudo(name, args);
    let t = p + s;
    let n = name.len() as int;
    assert(t[0] == ':');
    assert(t.subrange(1, 1 + n) =~= name);
    match args {
        Some(a) => {
            let m = a.len() as int;
            assert(t[1 + n] == '(');
            lemma_name_passed(t, name, 1, 0);
            assert(t.subrange(2 + n, 2 + n + m) =~= a);
            assert(t[2 + n + m] == ')');
            lemma_arguments_passed(t, a, 2 + n, 0);
            assert(unused_css::arguments_end(t, 1 + n, 0) == unused_css::arguments_end(t, 2 + n, 1));
        },
        None => {
            if s.len() > 0 {
                assert(t[1 + n] == s[0]);
            }
            lemma_name_passed(t, name, 1, 0);
        },
    }
    assert(unused_css::pseudo_past(t, 0) == p.len());
    lemma_stripped_shift(p, s, 0);
}

// ---------------------------------------------------------------- selectors

/// A base with the first `n` pseudo-classes behind it.
pub open spec fn with_pseudos(
    base: Seq<char>,
    v: Seq<(Seq<char>, Option<Seq<char>>)>,
    n: int,
) -> Seq<char>
    decreases n,
{
    if n <= 0 {
        base
    } else {
        with_pseudos(base, v, n - 1) + pseudo(v[n - 1].0, v[n - 1].1)
    }
}

/// The pseudo-classes from `k` on.
spec fn pseudos_from(v: Seq<(Seq<char>, Option<Seq<char>>)>, k: int) -> Seq<char>
    decreases v.len() - k,
{
    if 0 <= k < v.len() {
        pseudo(v[k].0, v[k].1) + pseudos_from(v, k + 1)
    } else {
        Seq::empty()
    }
}

/// Pseudo-classes that can stand one behind the other. One without arguments takes the
/// next into its name, and so stands last.
pub open spec fn are_pseudos(v: Seq<(Seq<char>, Option<Seq<char>>)>) -> bool {
    &&& forall|k: int| 0 <= k < v.len() ==> is_pseudo((#[trigger] v[k]).0, v[k].1)
    &&& forall|k: int| 0 <= k < v.len() - 1 ==> (#[trigger] v[k]).1 is Some
}

proof fn lemma_pseudos(base: Seq<char>, v: Seq<(Seq<char>, Option<Seq<char>>)>, n: int)
    requires
        0 <= n <= v.len(),
    ensures
        with_pseudos(base, v, v.len() as int) == with_pseudos(base, v, n) + pseudos_from(v, n),
    decreases v.len() - n,
{
    if n < v.len() {
        lemma_pseudos(base, v, n + 1);
        assert(with_pseudos(base, v, n) + pseudo(v[n].0, v[n].1) + pseudos_from(v, n + 1)
            =~= with_pseudos(base, v, n) + pseudos_from(v, n));
    } else {
        assert(with_pseudos(base, v, n) + pseudos_from(v, n) =~= with_pseudos(base, v, n));
    }
}

proof fn lemma_pseudos_stripped(v: Seq<(Seq<char>, Option<Seq<char>>)>, k: int, s: Seq<char>)
    requires
        are_pseudos(v),
        0 <= k <= v.len(),
        v.len() > 0 ==> ends_pseudo(v.last().1, s),
    ensures
        unused_css::spec_strip_pseudo(pseudos_from(v, k) + s) == unused_css::spec_strip_pseudo(s),
    decreases v.len() - k,
{
    if k < v.len() {
        lemma_pseudos_stripped(v, k + 1, s);
        let r = pseudos_from(v, k + 1) + s;
        assert(is_pseudo(v[k].0, v[k].1));
        if k + 1 == v.len() {
            assert(r =~= s);
        } else {
            assert(v[k].1 is Some);
        }
        a_pseudo_class_is_no_part_of_the_base(v[k].0, v[k].1, r);
        assert(pseudos_from(v, k) + s =~= pseudo(v[k].0, v[k].1) + r);
    } else {
        assert(pseudos_from(v, k) + s =~= s);
    }
}

/// The base of a selector with pseudo-classes behind it is the selector without them,
/// whatever follows.
pub proof fn the_base_of_a_selector(
    base: Seq<char>,
    v: Seq<(Seq<char>, Option<Seq<char>>)>,
    s: Seq<char>,
)
    requires
        is_base(base),
        are_pseudos(v),
        v.len() > 0 ==> ends_pseudo(v.last().1, s),
    ensures
        unused_css::spec_strip_pseudo(with_pseudos(base, v, v.len() as int) + s) == base
            + unused_css::spec_strip_pseudo(s),
{
    lemma_pseudos(base, v, 0);
    lemma_pseudos_stripped(v, 0, s);
    plain_text_stays_in_the_base(base, pseudos_from(v, 0) + s);
    assert(with_pseudos(base, v, v.len() as int) + s =~= base + (pseudos_from(v, 0) + s));
}

// ---------------------------------------------------------------- rules

/// A selector that selects by a base and by pseudo-classes behind it.
pub struct Written {
    pub base: Seq<char>,
    pub pseudos: Seq<(Seq<char>, Option<Seq<char>>)>,
}

/// The selector as it is written, with white space around it.
pub open spec fn written(w: Written, before: Seq<char>, behind: Seq<char>) -> Seq<char> {
    before + with_pseudos(w.base, w.pseudos, w.pseudos.len() as int) + behind
}

/// The base has nothing to trim.
pub open spec fn is_trimmed(s: Seq<char>) -> bool {
    s.len() > 0 ==> !text::is_white(s[0]) && !text::is_white(s.last())
}

pub open spec fn is_written(w: Written, before: Seq<char>, behind: Seq<char>) -> bool {
    &&& is_base(w.base)
    &&& is_trimmed(w.base)
    &&& are_pseudos(w.pseudos)
    &&& is_gap(before)
    &&& is_gap(behind)
}

proof fn lemma_gap_lacks(w: Seq<char>)
    requires
        is_gap(w),
    ensures
        is_base(w),
        text::all_white(w),
{
    assert forall|k: int| 0 <= k < w.len() implies text::is_white(#[trigger] w[k]) && w[k] != ':' && w[k]
        != '"' && w[k] != '\'' by {
        assert(text::is_ascii_white(w[k]));
    }
}

proof fn lemma_skip(s: Seq<char>, n: int, i: int)
    requires
        0 <= i <= n <= s.len(),
        forall|k: int| i <= k < n ==> text::is_white(#[trigger] s[k]),
        n < s.len() ==> !text::is_white(s[n]),
    ensures
        text::skip_white(s, i) == n,
    decreases n - i,
{
    if i < n {
        assert(text::is_white(s[i]));
        lemma_skip(s, n, i + 1);
    }
}

proof fn lemma_back(s: Seq<char>, i: int, n: int, j: int)
    requires
        0 <= i <= n <= j <= s.len(),
        forall|k: int| n <= k < j ==> text::is_white(#[trigger] s[k]),
        i < n ==> !text::is_white(s[n - 1]),
    ensures
        text::back_white(s, i, j) == n,
    decreases j - n,
{
    if n < j {
        assert(text::is_white(s[j - 1]));
        lemma_back(s, i, n, j - 1);
    }
}

/// White space around a text is trimmed.
pub proof fn lemma_trim(a: Seq<char>, y: Seq<char>, b: Seq<char>)
    requires
        text::all_white(a),
        text::all_white(b),
        is_trimmed(y),
    ensures
        text::spec_trim(a + y + b) == y,
{
    let s = a + y + b;
    let i = a.len() as int;
    let j = (a.len() + y.len()) as int;
    let n = s.len() as int;
    assert forall|k: int| 0 <= k < i implies text::is_white(#[trigger] s[k]) by {
        assert(s[k] == a[k]);
    }
    assert forall|k: int| j <= k < n implies text::is_white(#[trigger] s[k]) by {
        assert(s[k] == b[k - j]);
    }
    if y.len() > 0 {
        assert(s[i] == y[0]);
        assert(s[j - 1] == y.last());
        lemma_skip(s, i, 0);
        lemma_back(s, i, j, n);
        assert(s.subrange(i, j) =~= y);
    } else {
        assert forall|k: int| 0 <= k < n implies text::is_white(#[trigger] s[k]) by {}
        lemma_skip(s, n, 0);
        assert(s.subrange(n, n) =~= y);
    }
}

/// A selector is used exactly where its base matches, or where it has none.
pub proof fn a_selector_is_used_by_its_base(
    w: Written,
    before: Seq<char>,
    behind: Seq<char>,
    matched: Seq<Seq<char>>,
)
    requires
        is_written(w, before, behind),
    ensures
        unused_css::base_used(written(w, before, behind), matched) == (w.base.len() == 0
            || matched.contains(w.base)),
{
    let none = Seq::<char>::empty();
    let p = with_pseudos(w.base, w.pseudos, w.pseudos.len() as int);
    lemma_gap_lacks(before);
    lemma_gap_lacks(behind);
    if behind.len() > 0 {
        assert(text::is_ascii_white(behind[0]));
    }
    the_base_of_a_selector(w.base, w.pseudos, behind);
    plain_text_stays_in_the_base(before, p + behind);
    plain_text_stays_in_the_base(behind, none);
    assert(behind + none =~= behind);
    assert(unused_css::spec_strip_pseudo(none) =~= none);
    assert(written(w, before, behind) =~= before + (p + behind));
    assert(before + (w.base + behind) =~= before + w.base + behind);
    lemma_trim(before, w.base, behind);
}

/// One of the selectors has a base that matches, or none.
pub open spec fn any_matches(v: Seq<Written>, matched: Seq<Seq<char>>) -> bool {
    exists|k: int| 0 <= k < v.len() && ((#[trigger] v[k]).base.len() == 0 || matched.contains(v[k].base))
}

/// The selectors of a rule, each with the white space around it.
pub open spec fn selector_texts(v: Seq<Written>, gaps: Seq<(Seq<char>, Seq<char>)>) -> Seq<Seq<char>> {
    Seq::new(v.len(), |k: int| written(v[k], gaps[k].0, gaps[k].1))
}

pub open spec fn are_selectors(v: Seq<Written>, gaps: Seq<(Seq<char>, Seq<char>)>) -> bool {
    &&& v.len() > 0
    &&& gaps.len() == v.len()
    &&& forall|k: int|
        0 <= k < v.len() ==> is_written(#[trigger] v[k], gaps[k].0, gaps[k].1) && plain_css::is_one(
            written(v[k], gaps[k].0, gaps[k].1),
            ',',
        )
}

/// A rule with a list of selectors is used exactly where the base of one of them
/// matches, or one has none: no pseudo-class of any of them counts.
pub proof fn a_rule_is_used_by_its_bases(
    v: Seq<Written>,
    gaps: Seq<(Seq<char>, Seq<char>)>,
    matched: Seq<Seq<char>>,
)
    requires
        are_selectors(v, gaps),
    ensures
        unused_css::spec_rule_used(plain_css::listed(selector_texts(v, gaps), ',', 0), matched)
            == any_matches(v, matched),
{
    let texts = selector_texts(v, gaps);
    assert forall|k: int| 0 <= k < texts.len() implies plain_css::is_one(#[trigger] texts[k], ',') && (
    unused_css::base_used(texts[k], matched) == (v[k].base.len() == 0 || matched.contains(v[k].base))) by {
        assert(is_written(v[k], gaps[k].0, gaps[k].1));
        a_selector_is_used_by_its_base(v[k], gaps[k].0, gaps[k].1, matched);
    }
    plain_css::a_list_is_parted_into_what_it_lists(texts, ',');
    let s = plain_css::listed(texts, ',', 0);
    let parts = css::spec_split_top_level(s, ',');
    if unused_css::spec_rule_used(s, matched) {
        let i = choose|i: int| 0 <= i < parts.len() && unused_css::base_used(#[trigger] parts[i], matched);
        assert(unused_css::base_used(texts[i], matched));
        assert(v[i].base.len() == 0 || matched.contains(v[i].base));
    }
    if any_matches(v, matched) {
        let i = choose|k: int|
            0 <= k < v.len() && ((#[trigger] v[k]).base.len() == 0 || matched.contains(v[k].base));
        assert(unused_css::base_used(texts[i], matched));
        assert(unused_css::base_used(parts[i], matched));
    }
}

// ---------------------------------------------------------------- stylesheets

/// A rule: its selectors with the white space around them, its block, and what stands
/// before it.
pub struct Ruled {
    pub selectors: Seq<Written>,
    pub gaps: Seq<(Seq<char>, Seq<char>)>,
    pub block: Seq<char>,
    pub lead: Seq<char>,
}

pub open spec fn prelude(r: Ruled) -> Seq<char> {
    plain_css::listed(selector_texts(r.selectors, r.gaps), ',', 0)
}

/// The rules as they are written.
pub open spec fn rule_parts(v: Seq<Ruled>) -> Seq<(Seq<char>, Seq<char>, Seq<char>)> {
    v.map_values(|r: Ruled| (r.lead, prelude(r), r.block))
}

pub open spec fn are_ruled(v: Seq<Ruled>) -> bool {
    &&& are_rules(rule_parts(v))
    &&& forall|k: int| 0 <= k < v.len() ==> are_selectors((#[trigger] v[k]).selectors, v[k].gaps)
}

/// The places of the rules from `k` on of which no base matches.
pub open spec fn unmatched(v: Seq<Ruled>, matched: Seq<Seq<char>>, k: int) -> Seq<(int, int)>
    decreases v.len() - k,
{
    if 0 <= k < v.len() {
        let i = plain_css::rule_place(rule_parts(v), k);
        (if any_matches(v[k].selectors, matched) {
            Seq::empty()
        } else {
            seq![(i, i + prelude(v[k]).len() + v[k].block.len() + 2)]
        }) + unmatched(v, matched, k + 1)
    } else {
        Seq::empty()
    }
}

proof fn lemma_unused_gap(t: Seq<char>, w: Seq<char>, i: int, k: int, matched: Seq<Seq<char>>)
    requires
        stands(t, w, i),
        is_gap(w),
        0 <= k <= w.len(),
    ensures
        unused_css::unused_from(t, i + k, t.len() as int, matched) == unused_css::unused_from(
            t,
            (i + w.len()) as int,
            t.len() as int,
            matched,
        ),
    decreases w.len() - k,
{
    if k < w.len() {
        assert(t.subrange(i, i + w.len())[k] == w[k]);
        lemma_unused_gap(t, w, i, k + 1, matched);
    }
}

proof fn lemma_unmatched(v: Seq<Ruled>, w: Seq<char>, matched: Seq<Seq<char>>, k: int)
    requires
        are_ruled(v),
        is_gap(w),
        0 <= k <= v.len(),
    ensures
        ({
            let p = rule_parts(v);
            let t = plain_css::sheet_text(p, p.len() as int) + w;
            unused_css::unused_from(
                t,
                plain_css::sheet_text(p, k).len() as int,
                t.len() as int,
                matched,
            ) == unmatched(v, matched, k)
        }),
    decreases v.len() - k,
{
    let p = rule_parts(v);
    let n = p.len() as int;
    let u = plain_css::sheet_text(p, n);
    let t = u + w;
    let i = plain_css::sheet_text(p, k).len() as int;
    if k < v.len() {
        assert(p[k] == (v[k].lead, prelude(v[k]), v[k].block));
        plain_css::lemma_rule_in(p, w, k);
        plain_css::lemma_rule_place(p, k, n);
        lemma_unused_gap(t, p[k].0, i, 0, matched);
        let j = plain_css::rule_place(p, k);
        plain_css::lemma_rule_at(t, p[k].1, p[k].2, j, t.len() as int);
        a_rule_is_used_by_its_bases(v[k].selectors, v[k].gaps, matched);
        lemma_unmatched(v, w, matched, k + 1);
        let rest = unmatched(v, matched, k + 1);
        assert(Seq::<(int, int)>::empty() + rest =~= rest);
    } else {
        assert(t.subrange(i, i + w.len()) =~= w);
        lemma_unused_gap(t, w, i, 0, matched);
    }
}

/// Of a stylesheet of rules, exactly those are unused of which no selector's base
/// matches; a rule with a base that matches is not, whatever pseudo-classes follow it.
pub proof fn only_unmatched_rules_are_unused(v: Seq<Ruled>, w: Seq<char>, matched: Seq<Seq<char>>)
    requires
        are_ruled(v),
        is_gap(w),
    ensures
        unused_css::spec_unused_spans(
            plain_css::sheet_text(rule_parts(v), v.len() as int) + w,
            matched,
        ) == unmatched(v, matched, 0),
{
    lemma_unmatched(v, w, matched, 0);
}

// ---------------------------------------------------------------- what is left

/// The rules that a base matches, each on a line of its own.
pub open spec fn kept_lines(v: Seq<Ruled>, matched: Seq<Seq<char>>, k: int) -> Seq<char>
    decreases v.len() - k,
{
    if 0 <= k < v.len() {
        (if any_matches(v[k].selectors, matched) {
            plain_css::rule_text(prelude(v[k]), v[k].block) + "\n"@
        } else {
            Seq::empty()
        }) + kept_lines(v, matched, k + 1)
    } else {
        Seq::empty()
    }
}

/// Each rule stands on lines of its own.
pub open spec fn on_lines(v: Seq<Ruled>) -> bool {
    forall|k: int| 0 <= k < v.len() ==> (#[trigger] v[k]).lead == (if k == 0 {
        Seq::<char>::empty()
    } else {
        "\n"@
    })
}

proof fn lemma_line_start(t: Seq<char>, i: int)
    requires
        0 <= i <= t.len(),
        i == 0 || t[i - 1] == '\n',
    ensures
        manifest::line_start(t, i) == i,
{
}

proof fn lemma_kept(
    v: Seq<Ruled>,
    matched: Seq<Seq<char>>,
    all: Seq<(int, int)>,
    pos: int,
    idx: int,
    k: int,
)
    requires
        are_ruled(v),
        on_lines(v),
        0 <= k <= v.len(),
        v.len() > 0,
        0 <= idx <= all.len(),
        all.subrange(idx, all.len() as int) == unmatched(v, matched, k),
        ({
            let p = rule_parts(v);
            let i = plain_css::sheet_text(p, k).len() + if k == 0 {
                0int
            } else {
                1
            };
            0 <= pos <= i
        }),
    ensures
        ({
            let p = rule_parts(v);
            let t = plain_css::sheet_text(p, p.len() as int) + "\n"@;
            let i = plain_css::sheet_text(p, k).len() + if k == 0 {
                0int
            } else {
                1
            };
            unused_css::cut_spans(t, all, pos, idx) == t.subrange(pos, i) + kept_lines(v, matched, k)
        }),
    decreases v.len() - k,
{
    reveal_strlit("\n");
    reveal_strlit("{");
    reveal_strlit("}");
    let none = Seq::<char>::empty();
    let p = rule_parts(v);
    let n = p.len() as int;
    let u = plain_css::sheet_text(p, n);
    let t = u + "\n"@;
    let a = plain_css::sheet_text(p, k).len() as int;
    let i = a + if k == 0 {
        0int
    } else {
        1
    };
    if k < v.len() {
        let r = v[k];
        let x = plain_css::rule_text(prelude(r), r.block);
        assert(p[k] == (r.lead, prelude(r), r.block));
        plain_css::lemma_rule_in(p, "\n"@, k);
        plain_css::lemma_rule_place(p, k, n);
        assert(plain_css::rule_place(p, k) == i);
        let e = (i + x.len()) as int;
        assert(plain_css::sheet_text(p, k + 1).len() == e);
        assert(t[e] == '\n') by {
            if k + 1 < n {
                plain_css::lemma_rule_in(p, "\n"@, k + 1);
                assert(p[k + 1].0 == v[k + 1].lead);
                assert(v[k + 1].lead == "\n"@);
                assert(t.subrange(e, e + 1)[0] == t[e]);
            } else {
                assert(u.len() == e);
            }
        }
        assert(e + 1 <= t.len());
        let rest = kept_lines(v, matched, k + 1);
        let um = unmatched(v, matched, k + 1);
        assert(t.subrange(i, e) =~= x);
        if any_matches(r.selectors, matched) {
            assert(none.len() == 0);
            assert(unmatched(v, matched, k) =~= um);
            lemma_kept(v, matched, all, pos, idx, k + 1);
            assert(t.subrange(pos, e + 1) + rest =~= t.subrange(pos, i) + (x + "\n"@ + rest)) by {
                assert(t.subrange(i, e + 1) =~= x + "\n"@);
                assert(t.subrange(pos, e + 1) =~= t.subrange(pos, i) + t.subrange(i, e + 1));
            }
        } else {
            let s = all.subrange(idx, all.len() as int);
            assert(s == seq![(i, e)] + um);
            assert(s[0] == (i, e));
            assert(all[idx] == (i, e));
            if k > 0 {
                assert(t.subrange(a, a + 1)[0] == t[a]);
            }
            lemma_line_start(t, i);
            assert(unused_css::line_tail(t, e) == Some(e + 1));
            assert(t.subrange(i, i) =~= none);
            assert(unused_css::cut_span(t, pos, i, e) == (i, e + 1));
            assert(all.subrange(idx + 1, all.len() as int) =~= s.subrange(1, s.len() as int));
            assert(s.subrange(1, s.len() as int) =~= um);
            lemma_kept(v, matched, all, e + 1, idx + 1, k + 1);
            assert(t.subrange(e + 1, e + 1) + rest =~= rest);
            assert(none + rest =~= rest);
        }
    } else {
        assert(idx == all.len()) by {
            assert(all.subrange(idx, all.len() as int).len() == 0);
        }
        assert(t.len() == i);
        assert(t.subrange(pos, i) + none =~= t.subrange(pos, i));
    }
}

/// What is left of a stylesheet with a rule to a line is exactly the rules that a base
/// matches, as they were, in order.
pub proof fn the_matched_rules_are_left(v: Seq<Ruled>, matched: Seq<Seq<char>>)
    requires
        are_ruled(v),
        on_lines(v),
        v.len() > 0,
    ensures
        ({
            let t = plain_css::sheet_text(rule_parts(v), v.len() as int) + "\n"@;
            unused_css::cut_spans(t, unused_css::spec_unused_spans(t, matched), 0, 0) == kept_lines(
                v,
                matched,
                0,
            )
        }),
{
    reveal_strlit("\n");
    let t = plain_css::sheet_text(rule_parts(v), v.len() as int) + "\n"@;
    only_unmatched_rules_are_unused(v, "\n"@, matched);
    let all = unmatched(v, matched, 0);
    assert(all.subrange(0, all.len() as int) =~= all);
    lemma_kept(v, matched, all, 0, 0, 0);
    assert(t.subrange(0, 0) + kept_lines(v, matched, 0) =~= kept_lines(v, matched, 0));
}

} // verus!
