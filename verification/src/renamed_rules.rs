//! What renaming a class makes of a stylesheet of rules: each selector by the class
//! selects by its new name, and nothing else changes.
use vstd::prelude::*;

use crate::plain_css::{are_rules, is_gap, stands};
use crate::{css, plain_css, stylesheet};

verus! {

/// Selectors by their classes: of each the text before it and its name; and the text
/// behind the last.
pub struct Classes {
    pub parts: Seq<(Seq<char>, Seq<char>)>,
    pub tail: Seq<char>,
}

/// The selectors from the `k`-th class on.
pub open spec fn written(c: Classes, k: int) -> Seq<char>
    decreases c.parts.len() - k,
{
    if 0 <= k < c.parts.len() {
        c.parts[k].0 + seq!['.'] + c.parts[k].1 + written(c, k + 1)
    } else {
        c.tail
    }
}

/// Text of selectors without a class.
pub open spec fn is_classless(s: Seq<char>) -> bool {
    plain_css::is_calm(s) && !s.contains('.')
}

/// A class's name ends before the text.
pub open spec fn ends_name(s: Seq<char>) -> bool {
    s.len() > 0 ==> !css::ident_char(s[0]) && s[0] != '*'
}

pub open spec fn are_classes(c: Classes) -> bool {
    &&& is_classless(c.tail)
    &&& forall|k: int|
        0 <= k < c.parts.len() ==> is_classless((#[trigger] c.parts[k]).0) && c.parts[k].1.len() > 0
            && stylesheet::all_ident(c.parts[k].1) && ends_name(written(c, k + 1))
}

/// The selectors with the class under its new name.
pub open spec fn with_name(c: Classes, from: Seq<char>, to: Seq<char>) -> Classes {
    Classes {
        parts: c.parts.map_values(
            |p: (Seq<char>, Seq<char>)|
                if p.1 == from {
                    (p.0, to)
                } else {
                    p
                },
        ),
        ..c
    }
}

/// How many of the selectors from the `k`-th class on are by the class.
pub open spec fn counted(c: Classes, from: Seq<char>, k: int) -> int
    decreases c.parts.len() - k,
{
    if 0 <= k < c.parts.len() {
        (if c.parts[k].1 == from {
            1int
        } else {
            0
        }) + counted(c, from, k + 1)
    } else {
        0
    }
}

proof fn lemma_plain(
    s: Seq<char>,
    x: Seq<char>,
    i: int,
    j: int,
    from: Seq<char>,
    to: Seq<char>,
    out: Seq<char>,
    count: int,
)
    requires
        is_classless(x),
        stands(s, x, i),
        0 <= j <= x.len(),
        i + x.len() < s.len() ==> s[(i + x.len()) as int] != '*',
    ensures
        css::selectors_renamed(s, from, to, i + j, out + x.take(j), count) == css::selectors_renamed(
            s,
            from,
            to,
            (i + x.len()) as int,
            out + x,
            count,
        ),
    decreases x.len() - j,
{
    if j < x.len() {
        plain_css::lemma_bare(s, x, i, s.len() as int, j);
        assert(x.contains(x[j]));
        assert(s.subrange(i + j, i + j + 1) =~= seq![x[j]]);
        assert(out + x.take(j) + seq![x[j]] =~= out + x.take(j + 1));
        lemma_plain(s, x, i, j + 1, from, to, out, count);
    } else {
        assert(x.take(j) =~= x);
    }
}

proof fn lemma_ident(s: Seq<char>, x: Seq<char>, i: int, j: int)
    requires
        stylesheet::all_ident(x),
        stands(s, x, i),
        0 <= j <= x.len(),
        i + x.len() < s.len() ==> !css::ident_char(s[(i + x.len()) as int]),
    ensures
        css::ident_end(s, i + j, s.len() as int) == i + x.len(),
    decreases x.len() - j,
{
    if j < x.len() {
        assert(s.subrange(i, i + x.len())[j] == x[j]);
        assert(css::ident_char(x[j]));
        lemma_ident(s, x, i, j + 1);
    }
}

proof fn lemma_name_plain(x: Seq<char>)
    requires
        stylesheet::all_ident(x),
    ensures
        is_classless(x),
{
    assert forall|k: int| 0 <= k < x.len() implies (#[trigger] x[k]) != '"' && x[k] != '\'' && x[k] != '\\'
        && x[k] != '/' && x[k] != '.' by {
        assert(css::ident_char(x[k]));
    }
}

/// One class in its place.
proof fn lemma_class(
    s: Seq<char>,
    x: Seq<char>,
    i: int,
    from: Seq<char>,
    to: Seq<char>,
    out: Seq<char>,
    count: int,
)
    requires
        stylesheet::all_ident(x),
        x.len() > 0,
        stands(s, seq!['.'] + x, i),
        i + 1 + x.len() < s.len() ==> !css::ident_char(s[(i + 1 + x.len()) as int]) && s[(i + 1 + x.len()) as int]
            != '*',
    ensures
        css::selectors_renamed(s, from, to, i, out, count) == css::selectors_renamed(
            s,
            from,
            to,
            (i + 1 + x.len()) as int,
            out + seq!['.'] + (if x == from {
                to
            } else {
                x
            }),
            count + if x == from {
                1int
            } else {
                0
            },
        ),
{
    reveal_strlit(".");
    assert("."@ =~= seq!['.']);
    let n = s.len() as int;
    plain_css::lemma_parts(s, seq!['.'], x, i);
    assert(s.subrange(i, i + 1)[0] == s[i]);
    assert(s[i] == '.');
    lemma_ident(s, x, i + 1, 0);
    assert(s.subrange(i + 1, i + 1 + x.len()) =~= x);
    if x == from {
        assert(out + "."@ + to =~= out + seq!['.'] + to);
    } else {
        assert(s.subrange(i, i + 1) =~= seq!['.']);
        lemma_name_plain(x);
        assert(out + seq!['.'] + x.take(0) =~= out + seq!['.']);
        lemma_plain(s, x, i + 1, 0, from, to, out + seq!['.'], count);
    }
}

proof fn lemma_renamed(
    s: Seq<char>,
    c: Classes,
    i: int,
    k: int,
    from: Seq<char>,
    to: Seq<char>,
    out: Seq<char>,
    count: int,
)
    requires
        are_classes(c),
        0 <= k <= c.parts.len(),
        stands(s, written(c, k), i),
        i + written(c, k).len() == s.len(),
    ensures
        css::selectors_renamed(s, from, to, i, out, count) == (
            out + written(with_name(c, from, to), k),
            count + counted(c, from, k),
        ),
    decreases c.parts.len() - k,
{
    let d = with_name(c, from, to);
    if k < c.parts.len() {
        let (x, name) = c.parts[k];
        let rest = written(c, k + 1);
        assert(is_classless(x) && name.len() > 0 && stylesheet::all_ident(name) && ends_name(rest));
        let n = x.len() as int;
        let m = name.len() as int;
        let dot = seq!['.'];
        assert(written(c, k) =~= x + (dot + name + rest));
        plain_css::lemma_parts(s, x, dot + name + rest, i);
        plain_css::lemma_parts(s, dot + name, rest, i + n);
        assert(s.subrange(i + n, i + n + 1 + m)[0] == s[i + n]);
        if rest.len() > 0 {
            assert(s.subrange(i + n + 1 + m, i + n + 1 + m + rest.len())[0] == s[i + n + 1 + m]);
        }
        assert(out + x.take(0) =~= out);
        lemma_plain(s, x, i, 0, from, to, out, count);
        lemma_class(s, name, i + n, from, to, out + x, count);
        let new = if name == from {
            to
        } else {
            name
        };
        assert(d.parts[k] == (x, new));
        let one = count + if name == from {
            1int
        } else {
            0
        };
        lemma_renamed(s, c, i + n + 1 + m, k + 1, from, to, out + x + dot + new, one);
        assert(out + x + dot + new + written(d, k + 1) =~= out + written(d, k));
    } else {
        assert(out + c.tail.take(0) =~= out);
        lemma_plain(s, c.tail, i, 0, from, to, out, count);
    }
}

/// In a list of selectors every class of the name, and no other, gets the new one; all
/// else is as it was.
pub proof fn selectors_take_the_new_name(
    c: Classes,
    from: Seq<char>,
    to: Seq<char>,
    out: Seq<char>,
    count: int,
)
    requires
        are_classes(c),
    ensures
        css::selectors_renamed(written(c, 0), from, to, 0, out, count) == (
            out + written(with_name(c, from, to), 0),
            count + counted(c, from, 0),
        ),
{
    let s = written(c, 0);
    assert(s.subrange(0, s.len() as int) =~= s);
    lemma_renamed(s, c, 0, 0, from, to, out, count);
}

// ---------------------------------------------------------------- stylesheets

/// A rule: what stands before it, its selectors, its block.
pub struct Ruled {
    pub lead: Seq<char>,
    pub selectors: Classes,
    pub block: Seq<char>,
}

pub open spec fn rule_parts(v: Seq<Ruled>) -> Seq<(Seq<char>, Seq<char>, Seq<char>)> {
    v.map_values(|r: Ruled| (r.lead, written(r.selectors, 0), r.block))
}

pub open spec fn are_ruled(v: Seq<Ruled>) -> bool {
    are_rules(rule_parts(v)) && forall|k: int|
        0 <= k < v.len() ==> are_classes((#[trigger] v[k]).selectors)
}

/// The rules with the class under its new name.
pub open spec fn rules_with_name(v: Seq<Ruled>, from: Seq<char>, to: Seq<char>) -> Seq<Ruled> {
    v.map_values(|r: Ruled| Ruled { selectors: with_name(r.selectors, from, to), ..r })
}

/// How many selectors of the first `n` rules are by the class.
pub open spec fn counted_to(v: Seq<Ruled>, from: Seq<char>, n: int) -> int
    decreases n,
{
    if n <= 0 {
        0
    } else {
        counted_to(v, from, n - 1) + counted(v[n - 1].selectors, from, 0)
    }
}

proof fn lemma_gap(
    t: Seq<char>,
    w: Seq<char>,
    i: int,
    k: int,
    from: Seq<char>,
    to: Seq<char>,
    out: Seq<char>,
    count: int,
)
    requires
        stands(t, w, i),
        is_gap(w),
        0 <= k <= w.len(),
    ensures
        css::rules_renamed(t, from, to, i + k, t.len() as int, out + w.take(k), count)
            == css::rules_renamed(t, from, to, (i + w.len()) as int, t.len() as int, out + w, count),
    decreases w.len() - k,
{
    if k < w.len() {
        assert(t.subrange(i, i + w.len())[k] == w[k]);
        assert(t.subrange(i + k, i + k + 1) =~= seq![w[k]]);
        assert(out + w.take(k) + seq![w[k]] =~= out + w.take(k + 1));
        lemma_gap(t, w, i, k + 1, from, to, out, count);
    } else {
        assert(w.take(k) =~= w);
    }
}

proof fn lemma_rule(
    t: Seq<char>,
    r: Ruled,
    i: int,
    from: Seq<char>,
    to: Seq<char>,
    out: Seq<char>,
    count: int,
)
    requires
        are_classes(r.selectors),
        plain_css::is_selectors(written(r.selectors, 0)),
        plain_css::is_block(r.block),
        stands(t, plain_css::rule_text(written(r.selectors, 0), r.block), i),
    ensures
        css::rules_renamed(t, from, to, i, t.len() as int, out, count) == css::rules_renamed(
            t,
            from,
            to,
            i + written(r.selectors, 0).len() + r.block.len() + 2,
            t.len() as int,
            out + plain_css::rule_text(written(with_name(r.selectors, from, to), 0), r.block),
            count + counted(r.selectors, from, 0),
        ),
{
    reveal_strlit("{");
    reveal_strlit("}");
    let p = written(r.selectors, 0);
    let q = written(with_name(r.selectors, from, to), 0);
    plain_css::lemma_rule_at(t, p, r.block, i, t.len() as int);
    selectors_take_the_new_name(r.selectors, from, to, out, count);
    let x = plain_css::rule_text(p, r.block);
    let n = p.len() as int;
    assert(t.subrange(i + n, i + x.len()) =~= t.subrange(i, i + x.len()).subrange(n, x.len() as int));
    assert(x.subrange(n, x.len() as int) =~= "{"@ + r.block + "}"@);
    assert(out + q + ("{"@ + r.block + "}"@) =~= out + plain_css::rule_text(q, r.block));
}

proof fn lemma_sheet(v: Seq<Ruled>, w: Seq<char>, from: Seq<char>, to: Seq<char>, k: int)
    requires
        are_ruled(v),
        is_gap(w),
        0 <= k <= v.len(),
    ensures
        ({
            let p = rule_parts(v);
            let q = rule_parts(rules_with_name(v, from, to));
            let t = plain_css::sheet_text(p, p.len() as int) + w;
            css::rules_renamed(
                t,
                from,
                to,
                plain_css::sheet_text(p, k).len() as int,
                t.len() as int,
                plain_css::sheet_text(q, k),
                counted_to(v, from, k),
            ) == (
                plain_css::sheet_text(q, q.len() as int) + w,
                counted_to(v, from, v.len() as int),
            )
        }),
    decreases v.len() - k,
{
    let p = rule_parts(v);
    let q = rule_parts(rules_with_name(v, from, to));
    let n = p.len() as int;
    let u = plain_css::sheet_text(p, n);
    let t = u + w;
    let i = plain_css::sheet_text(p, k).len() as int;
    let out = plain_css::sheet_text(q, k);
    let count = counted_to(v, from, k);
    if k < v.len() {
        let r = v[k];
        assert(are_classes(r.selectors));
        assert(p[k] == (r.lead, written(r.selectors, 0), r.block));
        assert(q[k] == (r.lead, written(with_name(r.selectors, from, to), 0), r.block));
        plain_css::lemma_rule_in(p, w, k);
        plain_css::lemma_rule_place(p, k, n);
        assert(out + r.lead.take(0) =~= out);
        lemma_gap(t, r.lead, i, 0, from, to, out, count);
        lemma_rule(t, r, plain_css::rule_place(p, k), from, to, out + r.lead, count);
        lemma_sheet(v, w, from, to, k + 1);
    } else {
        assert(t.subrange(i, i + w.len()) =~= w);
        assert(out + w.take(0) =~= out);
        lemma_gap(t, w, i, 0, from, to, out, count);
    }
}

/// A stylesheet of rules in which a class is renamed is the same sheet, in whose
/// selectors each class of the name has the new one; they are counted. No declaration
/// changes, and no other class.
pub proof fn rules_take_the_new_name(v: Seq<Ruled>, w: Seq<char>, from: Seq<char>, to: Seq<char>)
    requires
        are_ruled(v),
        is_gap(w),
    ensures
        css::spec_rename_class(plain_css::sheet_text(rule_parts(v), v.len() as int) + w, from, to) == (
            plain_css::sheet_text(rule_parts(rules_with_name(v, from, to)), v.len() as int) + w,
            counted_to(v, from, v.len() as int),
        ),
{
    lemma_sheet(v, w, from, to, 0);
}

} // verus!
