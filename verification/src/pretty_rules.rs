//! What re-indenting makes of a stylesheet of rules: each selector and each declaration
//! as it was, one declaration to a line, and nothing else.
use vstd::prelude::*;

use crate::css::BlockPart;
use crate::plain_css::{is_gap, is_property, is_run, is_value, stands};
use crate::{css, plain_css, pretty, pretty_twice, text};

verus! {

// ---------------------------------------------------------------- single spaces

/// Text in which single spaces part the words.
pub open spec fn is_spaced(s: Seq<char>) -> bool {
    &&& s.len() > 0
    &&& !text::is_ascii_white(s[0])
    &&& !text::is_ascii_white(s.last())
    &&& forall|k: int| 0 <= k < s.len() ==> (text::is_ascii_white(#[trigger] s[k]) ==> s[k] == ' ')
    &&& forall|k: int| 0 < k < s.len() ==> !(#[trigger] s[k] == ' ' && s[k - 1] == ' ')
}

proof fn lemma_collapse_gap(t: Seq<char>, w: Seq<char>, i: int, k: int, gap: bool, out: Seq<char>)
    requires
        stands(t, w, i),
        is_gap(w),
        0 <= k <= w.len(),
    ensures
        css::collapsed_from(t, i + k, gap, out) == css::collapsed_from(
            t,
            (i + w.len()) as int,
            gap || k < w.len(),
            out,
        ),
    decreases w.len() - k,
{
    if k < w.len() {
        assert(t.subrange(i, i + w.len())[k] == w[k]);
        lemma_collapse_gap(t, w, i, k + 1, true, out);
    }
}

/// A character behind another is taken over with the space before it.
proof fn lemma_collapse_run(t: Seq<char>, s: Seq<char>, i: int, k: int)
    requires
        plain_css::is_calm(s),
        is_spaced(s),
        stands(t, s, i),
        0 <= k <= s.len(),
        k > 0 ==> s[k - 1] != ' ',
        i + s.len() < t.len() ==> t[(i + s.len()) as int] != '*',
    ensures
        css::collapsed_from(t, i + k, false, s.take(k)) == css::collapsed_from(
            t,
            (i + s.len()) as int,
            false,
            s,
        ),
    decreases s.len() - k,
{
    let b = t.len() as int;
    if k < s.len() {
        plain_css::lemma_bare(t, s, i, b, k);
        if text::is_ascii_white(s[k]) {
            assert(s[k] == ' ');
            assert(k + 1 < s.len());
            assert(k > 0);
            plain_css::lemma_bare(t, s, i, b, k + 1);
            assert(s[k + 1] != ' ');
            assert(!text::is_ascii_white(s[k + 1]));
            let out = s.take(k);
            reveal_strlit(" ");
            assert(t.subrange(i + k + 1, i + k + 2) =~= seq![s[k + 1]]);
            assert(out + " "@ + seq![s[k + 1]] =~= s.take(k + 2));
            assert(css::collapsed_from(t, i + k, false, out) == css::collapsed_from(
                t,
                i + k + 1,
                true,
                out,
            ));
            lemma_collapse_run(t, s, i, k + 2);
        } else {
            assert(t.subrange(i + k, i + k + 1) =~= seq![s[k]]);
            assert(s.take(k) + seq![s[k]] =~= s.take(k + 1));
            lemma_collapse_run(t, s, i, k + 1);
        }
    } else {
        assert(s.take(k) =~= s);
    }
}

/// White space around spaced text is taken off, and nothing else changes.
pub proof fn spaced_text_stays(a: Seq<char>, s: Seq<char>, b: Seq<char>)
    requires
        plain_css::is_calm(s),
        is_spaced(s),
        is_gap(a),
        is_gap(b),
    ensures
        css::spec_collapse_space(a + s + b) == s,
{
    let t = a + s + b;
    let n = a.len() as int;
    let m = (a.len() + s.len()) as int;
    let none = Seq::<char>::empty();
    assert(t.subrange(0, n) =~= a);
    assert(t.subrange(n, m) =~= s);
    assert(t.subrange(m, t.len() as int) =~= b);
    if b.len() > 0 {
        assert(t[m] == b[0]);
        assert(text::is_ascii_white(b[0]));
    }
    lemma_collapse_gap(t, a, 0, 0, false, none);
    // the first character, with nothing before it
    plain_css::lemma_bare(t, s, n, t.len() as int, 0);
    assert(s.take(0) =~= none);
    assert(css::collapsed_from(t, n, a.len() > 0, none) == css::collapsed_from(t, n, false, none)) by {
        assert(t[n] == s[0]);
    }
    lemma_collapse_run(t, s, n, 0);
    lemma_collapse_gap(t, b, m, 0, false, s);
    assert(css::collapsed_from(t, t.len() as int, b.len() > 0, s) == s);
}

// ---------------------------------------------------------------- declarations

/// The white space in a declaration: before it, before its colon, behind it, and before
/// its semicolon.
pub struct Gaps {
    pub before: Seq<char>,
    pub name: Seq<char>,
    pub value: Seq<char>,
    pub behind: Seq<char>,
}

pub open spec fn are_gaps(g: Gaps) -> bool {
    is_gap(g.before) && is_gap(g.name) && is_gap(g.value) && is_gap(g.behind)
}

/// A declaration without its semicolon.
pub open spec fn loose(d: (Seq<char>, Seq<char>), g: Gaps) -> Seq<char> {
    d.0 + g.name + ":"@ + g.value + d.1 + g.behind
}

/// The first `n` declarations of a block.
pub open spec fn block_text(d: Seq<(Seq<char>, Seq<char>)>, g: Seq<Gaps>, n: int) -> Seq<char>
    decreases n,
{
    if n <= 0 {
        Seq::empty()
    } else {
        block_text(d, g, n - 1) + g[n - 1].before + loose(d[n - 1], g[n - 1]) + ";"@
    }
}

pub open spec fn are_loose(d: Seq<(Seq<char>, Seq<char>)>, g: Seq<Gaps>) -> bool {
    &&& d.len() == g.len()
    &&& forall|k: int|
        0 <= k < d.len() ==> is_property((#[trigger] d[k]).0) && is_value(d[k].1) && is_spaced(d[k].1)
            && d[k].0.last() != '/' && d[k].1.last() != '/' && d[k].1[0] != '*' && are_gaps(g[k])
}

pub proof fn lemma_gap_run(w: Seq<char>)
    requires
        is_gap(w),
    ensures
        is_run(w),
        w.len() > 0 ==> w.last() != '/' && w[0] != '*',
{
    assert forall|k: int| 0 <= k < w.len() implies (#[trigger] w[k]) != '"' && w[k] != '\'' && w[k] != '\\'
        && w[k] != '/' && w[k] != '{' && w[k] != '}' && w[k] != ';' && w[k] != '(' && w[k] != '[' && w[k]
        != ')' && w[k] != ']' && w[k] != '*' by {
        assert(text::is_ascii_white(w[k]));
    }
    plain_css::lemma_plain_run(w);
}

proof fn lemma_loose(d: (Seq<char>, Seq<char>), g: Gaps)
    requires
        is_property(d.0),
        is_value(d.1),
        d.0.last() != '/',
        d.1.last() != '/',
        d.1[0] != '*',
        are_gaps(g),
    ensures
        is_run(loose(d, g)),
        css::declaration(loose(d, g)) == BlockPart::Decl(d.0, d.1),
        loose(d, g).len() > 0,
        loose(d, g)[0] == d.0[0],
        loose(d, g).last() != '/',
{
    reveal_strlit(":");
    let none = Seq::<char>::empty();
    lemma_gap_run(g.name);
    lemma_gap_run(g.value);
    lemma_gap_run(g.behind);
    plain_css::lemma_plain_run(":"@);
    let a = d.0 + g.name;
    let b = g.value + d.1 + g.behind;
    let s = loose(d, g);
    plain_css::lemma_run_join(d.0, g.name);
    plain_css::lemma_run_join(a, ":"@);
    plain_css::lemma_run_join(g.value, d.1);
    plain_css::lemma_run_join(g.value + d.1, g.behind);
    assert(b[0] != '*') by {
        if g.value.len() > 0 {
            assert(b[0] == g.value[0]);
        } else {
            assert(b[0] == d.1[0]);
        }
    }
    plain_css::lemma_run_join(a + ":"@, b);
    assert(s =~= a + ":"@ + b);
    let n = a.len() as int;
    assert(s[n] == ':');
    text::lemma_find_char(s, ':', 0);
    let k = text::spec_find_char(s, ':', 0)->0;
    if k < n {
        if k < d.0.len() {
            assert(s[k] == d.0[k]);
            assert(d.0.contains(d.0[k]));
        } else {
            assert(s[k] == g.name[k - d.0.len()]);
            assert(text::is_ascii_white(g.name[k - d.0.len()]));
        }
    }
    assert(s.subrange(0, n) =~= none + d.0 + g.name);
    pretty_twice::lemma_ascii_trim_is(s.subrange(0, n), none, d.0, g.name);
    assert(s.subrange(n + 1, s.len() as int) =~= g.value + d.1 + g.behind);
    pretty_twice::lemma_ascii_trim_is(b, g.value, d.1, g.behind);
    if g.behind.len() > 0 {
        assert(s.last() == g.behind.last());
    } else {
        assert(s.last() == d.1.last());
    }
}

proof fn lemma_place(d: Seq<(Seq<char>, Seq<char>)>, g: Seq<Gaps>, w: Seq<char>, k: int, n: int)
    requires
        0 <= k < n <= d.len(),
        d.len() == g.len(),
    ensures
        stands(
            block_text(d, g, n) + w,
            g[k].before + loose(d[k], g[k]) + ";"@,
            block_text(d, g, k).len() as int,
        ),
        block_text(d, g, k + 1).len() <= block_text(d, g, n).len(),
    decreases n,
{
    let t = block_text(d, g, n) + w;
    let i = block_text(d, g, k).len() as int;
    let x = g[k].before + loose(d[k], g[k]) + ";"@;
    if k < n - 1 {
        lemma_place(d, g, w, k, n - 1);
        let a = block_text(d, g, n - 1);
        let u = a + w;
        assert(block_text(d, g, k + 1) =~= block_text(d, g, k) + x);
        assert(a.subrange(i, i + x.len()) =~= u.subrange(i, i + x.len()));
        assert(t.subrange(i, i + x.len()) =~= a.subrange(i, i + x.len()));
    } else {
        assert(t.subrange(i, i + x.len()) =~= x);
    }
}

proof fn lemma_block_gap(t: Seq<char>, w: Seq<char>, i: int, k: int)
    requires
        stands(t, w, i),
        is_gap(w),
        0 <= k <= w.len(),
    ensures
        css::block_from(t, i + k) == css::block_from(t, (i + w.len()) as int),
    decreases w.len() - k,
{
    if k < w.len() {
        assert(t.subrange(i, i + w.len())[k] == w[k]);
        lemma_block_gap(t, w, i, k + 1);
    }
}

/// One declaration in its place.
proof fn lemma_one(t: Seq<char>, d: (Seq<char>, Seq<char>), g: Gaps, i: int)
    requires
        is_property(d.0),
        is_value(d.1),
        d.0.last() != '/',
        d.1.last() != '/',
        d.1[0] != '*',
        are_gaps(g),
        stands(t, g.before + loose(d, g) + ";"@, i),
    ensures
        css::block_from(t, i) == seq![BlockPart::Decl(d.0, d.1)] + css::block_from(
            t,
            i + g.before.len() + loose(d, g).len() + 1,
        ),
{
    reveal_strlit(";");
    let s = loose(d, g);
    let a = g.before;
    lemma_loose(d, g);
    plain_css::lemma_parts(t, a + s, ";"@, i);
    plain_css::lemma_parts(t, a, s, i);
    lemma_block_gap(t, a, i, 0);
    let j = (i + a.len()) as int;
    let m = s.len() as int;
    assert(t.subrange(j, j + m)[0] == t[j]);
    assert(t.subrange(j + m, j + m + 1)[0] == t[j + m]);
    assert(s.contains(s[0]));
    plain_css::lemma_lacks(s, ';');
    plain_css::lemma_sep_run(t, s, ';', j, 0);
    assert(css::bare(t, j + m, t.len() as int));
    assert(css::sep_from(t, ';', j + m, 0) == j + m);
}

proof fn lemma_read_block(d: Seq<(Seq<char>, Seq<char>)>, g: Seq<Gaps>, w: Seq<char>, k: int)
    requires
        are_loose(d, g),
        is_gap(w),
        0 <= k <= d.len(),
    ensures
        css::block_from(block_text(d, g, d.len() as int) + w, block_text(d, g, k).len() as int)
            == plain_css::decl_parts(d, k),
    decreases d.len() - k,
{
    let n = d.len() as int;
    let u = block_text(d, g, n);
    let t = u + w;
    let i = block_text(d, g, k).len() as int;
    if k < n {
        reveal_strlit(";");
        assert(is_property(d[k].0) && is_value(d[k].1) && are_gaps(g[k]));
        lemma_place(d, g, w, k, n);
        lemma_one(t, d[k], g[k], i);
        lemma_read_block(d, g, w, k + 1);
        assert(block_text(d, g, k + 1).len() == i + g[k].before.len() + loose(d[k], g[k]).len() + 1);
    } else {
        assert(t.subrange(i, i + w.len()) =~= w);
        lemma_block_gap(t, w, i, 0);
    }
}

/// The declarations of a block are read as they are, whatever white space parts them.
pub proof fn declarations_are_read_as_they_are(
    d: Seq<(Seq<char>, Seq<char>)>,
    g: Seq<Gaps>,
    w: Seq<char>,
)
    requires
        are_loose(d, g),
        is_gap(w),
    ensures
        ({
            let v = css::spec_block_items(block_text(d, g, d.len() as int) + w);
            &&& v.len() == d.len()
            &&& forall|k: int| 0 <= k < d.len() ==> #[trigger] v[k] == BlockPart::Decl(d[k].0, d[k].1)
        }),
{
    lemma_read_block(d, g, w, 0);
    plain_css::lemma_decl_parts(d, 0);
}

proof fn lemma_block(d: Seq<(Seq<char>, Seq<char>)>, g: Seq<Gaps>, n: int)
    requires
        are_loose(d, g),
        0 <= n <= d.len(),
    ensures
        plain_css::is_block(block_text(d, g, n)),
        block_text(d, g, n).len() > 0 ==> block_text(d, g, n).last() == ';',
    decreases n,
{
    if n > 0 {
        reveal_strlit(";");
        lemma_block(d, g, n - 1);
        let a = block_text(d, g, n - 1);
        let b = g[n - 1].before;
        let s = loose(d[n - 1], g[n - 1]);
        assert(is_property(d[n - 1].0) && is_value(d[n - 1].1) && are_gaps(g[n - 1]));
        lemma_loose(d[n - 1], g[n - 1]);
        lemma_gap_run(b);
        plain_css::lemma_calm_join(a, b);
        assert((a + b).len() > 0 ==> (a + b).last() != '/') by {
            if b.len() > 0 {
                assert((a + b).last() == b.last());
            } else {
                assert(a + b =~= a);
            }
        }
        plain_css::lemma_calm_join(a + b, s);
        plain_css::lemma_calm_join(a + b + s, ";"@);
        plain_css::lemma_lacks_join(a, b, '{');
        plain_css::lemma_lacks_join(a + b, s, '{');
        plain_css::lemma_lacks_join(a + b + s, ";"@, '{');
        plain_css::lemma_lacks_join(a, b, '}');
        plain_css::lemma_lacks_join(a + b, s, '}');
        plain_css::lemma_lacks_join(a + b + s, ";"@, '}');
    }
}

// ---------------------------------------------------------------- rules

/// A rule: its selectors and its declarations, with white space between them.
pub struct Ruled {
    pub selectors: Seq<Seq<char>>,
    pub around: Seq<(Seq<char>, Seq<char>)>,
    pub decls: Seq<(Seq<char>, Seq<char>)>,
    pub gaps: Seq<Gaps>,
    pub tail: Seq<char>,
    pub lead: Seq<char>,
}

pub open spec fn selector_texts(r: Ruled) -> Seq<Seq<char>> {
    Seq::new(r.selectors.len(), |k: int| r.around[k].0 + r.selectors[k] + r.around[k].1)
}

pub open spec fn prelude(r: Ruled) -> Seq<char> {
    plain_css::listed(selector_texts(r), ',', 0)
}

pub open spec fn block(r: Ruled) -> Seq<char> {
    block_text(r.decls, r.gaps, r.decls.len() as int) + r.tail
}

pub open spec fn is_ruled(r: Ruled) -> bool {
    &&& r.selectors.len() > 0
    &&& r.around.len() == r.selectors.len()
    &&& forall|k: int|
        0 <= k < r.selectors.len() ==> is_spaced(#[trigger] r.selectors[k]) && is_gap(r.around[k].0) && is_gap(
            r.around[k].1,
        ) && plain_css::is_calm(r.selectors[k]) && plain_css::is_one(
            r.around[k].0 + r.selectors[k] + r.around[k].1,
            ',',
        )
    &&& plain_css::is_selectors(prelude(r))
    &&& are_loose(r.decls, r.gaps)
    &&& is_gap(r.tail)
    &&& is_gap(r.lead)
}

/// The rule with a declaration to a line.
pub open spec fn canonical(r: Ruled) -> Seq<char> {
    text::spec_join(r.selectors, ", "@) + " {\n"@ + plain_css::lines(r.decls, r.decls.len() as int) + "}\n"@
}

/// The first `n` rules so, an empty line between one and the next.
pub open spec fn canonical_to(v: Seq<Ruled>, n: int) -> Seq<char>
    decreases n,
{
    if n <= 0 {
        Seq::empty()
    } else if n == 1 {
        canonical(v[0])
    } else {
        canonical_to(v, n - 1) + "\n"@ + canonical(v[n - 1])
    }
}

proof fn lemma_selectors(r: Ruled)
    requires
        is_ruled(r),
    ensures
        pretty::selectors_put(prelude(r)) == text::spec_join(r.selectors, ", "@),
{
    let texts = selector_texts(r);
    assert forall|k: int| 0 <= k < texts.len() implies plain_css::is_one(#[trigger] texts[k], ',')
        && css::spec_collapse_space(texts[k]) == r.selectors[k] by {
        assert(is_spaced(r.selectors[k]));
        spaced_text_stays(r.around[k].0, r.selectors[k], r.around[k].1);
    }
    plain_css::a_list_is_parted_into_what_it_lists(texts, ',');
    assert(css::spec_split_top_level(prelude(r), ',').map_values(
        |s: Seq<char>| css::spec_collapse_space(s),
    ) =~= r.selectors);
}

proof fn lemma_parts_put(
    out: Seq<char>,
    d: Seq<(Seq<char>, Seq<char>)>,
    g: Seq<Gaps>,
    parts: Seq<BlockPart>,
    n: int,
)
    requires
        are_loose(d, g),
        parts.len() == d.len(),
        forall|k: int| 0 <= k < d.len() ==> #[trigger] parts[k] == BlockPart::Decl(d[k].0, d[k].1),
        0 <= n <= d.len(),
    ensures
        pretty::parts_put(out, parts, 1, n) == out + plain_css::lines(d, n),
    decreases n,
{
    if n == 0 {
        assert(out + plain_css::lines(d, 0) =~= out);
    } else {
        lemma_parts_put(out, d, g, parts, n - 1);
        reveal_strlit("  ");
        reveal_strlit(": ");
        reveal_strlit(";");
        reveal_strlit("\n");
        let x = d[n - 1];
        assert(parts[n - 1] == BlockPart::Decl(x.0, x.1));
        assert(is_value(x.1) && is_spaced(x.1));
        let none = Seq::<char>::empty();
        assert(none + x.1 + none =~= x.1);
        spaced_text_stays(none, x.1, none);
        reveal_with_fuel(pretty::indent, 2);
        assert(pretty::indent(1) =~= "  "@);
        assert(pretty::part_put(parts[n - 1], 1) =~= "  "@ + (x.0 + ": "@ + x.1) + ";"@ + "\n"@);
        let p = "  "@ + (x.0 + ": "@ + x.1) + ";"@ + "\n"@;
        assert(plain_css::lines(d, n) =~= plain_css::lines(d, n - 1) + p);
        assert(out + plain_css::lines(d, n - 1) + p =~= out + plain_css::lines(d, n));
    }
}

proof fn lemma_block_put(out: Seq<char>, r: Ruled)
    requires
        is_ruled(r),
    ensures
        pretty::block_put(out, block(r), 1) == out + plain_css::lines(r.decls, r.decls.len() as int),
        plain_css::is_block(block(r)),
{
    declarations_are_read_as_they_are(r.decls, r.gaps, r.tail);
    lemma_parts_put(out, r.decls, r.gaps, css::spec_block_items(block(r)), r.decls.len() as int);
    let a = block_text(r.decls, r.gaps, r.decls.len() as int);
    lemma_block(r.decls, r.gaps, r.decls.len() as int);
    lemma_gap_run(r.tail);
    plain_css::lemma_calm_join(a, r.tail);
    plain_css::lemma_lacks_join(a, r.tail, '{');
    plain_css::lemma_lacks_join(a, r.tail, '}');
}

/// The rules as they are written.
pub open spec fn rule_parts(v: Seq<Ruled>) -> Seq<(Seq<char>, Seq<char>, Seq<char>)> {
    v.map_values(|r: Ruled| (r.lead, prelude(r), block(r)))
}

pub open spec fn are_ruled(v: Seq<Ruled>) -> bool {
    forall|k: int| 0 <= k < v.len() ==> is_ruled(#[trigger] v[k])
}

proof fn lemma_put_gap(t: Seq<char>, w: Seq<char>, i: int, k: int, out: Seq<char>, first: bool)
    requires
        stands(t, w, i),
        is_gap(w),
        0 <= k <= w.len(),
    ensures
        pretty::items_put(t, i + k, t.len() as int, 0, out, first) == pretty::items_put(
            t,
            (i + w.len()) as int,
            t.len() as int,
            0,
            out,
            first,
        ),
    decreases w.len() - k,
{
    if k < w.len() {
        assert(t.subrange(i, i + w.len())[k] == w[k]);
        lemma_put_gap(t, w, i, k + 1, out, first);
    }
}

spec fn led(out: Seq<char>, first: bool) -> Seq<char> {
    if first {
        out
    } else {
        out + "\n"@
    }
}

/// One rule in its place.
proof fn lemma_put_rule(t: Seq<char>, r: Ruled, i: int, out: Seq<char>, first: bool)
    requires
        is_ruled(r),
        stands(t, plain_css::rule_text(prelude(r), block(r)), i),
    ensures
        pretty::items_put(t, i, t.len() as int, 0, out, first) == pretty::items_put(
            t,
            i + prelude(r).len() + block(r).len() + 2,
            t.len() as int,
            0,
            led(out, first) + canonical(r),
            false,
        ),
{
    reveal_strlit("{");
    reveal_strlit("}");
    let none = Seq::<char>::empty();
    let b = t.len() as int;
    lemma_block_put(none, r);
    plain_css::lemma_rule_at(t, prelude(r), block(r), i, b);
    lemma_selectors(r);
    let sels = text::spec_join(r.selectors, ", "@);
    let head = led(out, first) + pretty::indent(0) + sels + " {\n"@;
    lemma_block_put(head, r);
    let l = plain_css::lines(r.decls, r.decls.len() as int);
    assert(pretty::indent(0) =~= none);
    let done = head + l + pretty::indent(0) + "}\n"@;
    assert(done =~= led(out, first) + canonical(r));
}

proof fn lemma_put(v: Seq<Ruled>, w: Seq<char>, k: int)
    requires
        are_ruled(v),
        is_gap(w),
        0 <= k <= v.len(),
    ensures
        ({
            let p = rule_parts(v);
            let t = plain_css::sheet_text(p, p.len() as int) + w;
            pretty::items_put(
                t,
                plain_css::sheet_text(p, k).len() as int,
                t.len() as int,
                0,
                canonical_to(v, k),
                k == 0,
            ) == canonical_to(v, v.len() as int)
        }),
    decreases v.len() - k,
{
    let p = rule_parts(v);
    let n = p.len() as int;
    let u = plain_css::sheet_text(p, n);
    let t = u + w;
    let i = plain_css::sheet_text(p, k).len() as int;
    let out = canonical_to(v, k);
    if k < v.len() {
        let r = v[k];
        assert(is_ruled(r));
        assert(p[k] == (r.lead, prelude(r), block(r)));
        plain_css::lemma_rule_in(p, w, k);
        plain_css::lemma_rule_place(p, k, n);
        lemma_put_gap(t, p[k].0, i, 0, out, k == 0);
        lemma_put_rule(t, r, plain_css::rule_place(p, k), out, k == 0);
        assert(led(out, k == 0) + canonical(r) =~= canonical_to(v, k + 1));
        lemma_put(v, w, k + 1);
    } else {
        assert(t.subrange(i, i + w.len()) =~= w);
        lemma_put_gap(t, w, i, 0, out, k == 0);
    }
}

/// A stylesheet of rules is re-indented to its rules: every selector and every
/// declaration as it was, in order, each declaration on a line of its own, whatever
/// white space stood between them.
pub proof fn rules_are_kept_by_re_indenting(v: Seq<Ruled>, w: Seq<char>)
    requires
        are_ruled(v),
        is_gap(w),
    ensures
        pretty::spec_pretty_css(plain_css::sheet_text(rule_parts(v), v.len() as int) + w) == canonical_to(
            v,
            v.len() as int,
        ),
{
    lemma_put(v, w, 0);
}

} // verus!
