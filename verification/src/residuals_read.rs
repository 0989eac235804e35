//! The stylesheet of residual rules is read back as the rules: each selector with its
//! properties, each property with its value.
use vstd::prelude::*;

use crate::css::BlockPart;
use crate::plain_css::{are_declarations, are_rules, is_gap, is_selectors};
use crate::stylesheet::{Shp, StyleRule};
use crate::{css, plain_css, residuals, stylesheet, text};

verus! {

/// A pair that a stylesheet's reader gives back as it is: no shorthand, in plain form.
pub open spec fn is_plain_pair(d: (Seq<char>, Seq<char>)) -> bool {
    plain_css::is_property(d.0) && plain_css::is_value(d.1) && stylesheet::declared(d.0, d.1) == seq![d]
}

/// A rule whose selector has a shape and whose declarations are plain.
pub open spec fn is_plain_rule(r: (Seq<char>, Seq<char>, Seq<(Seq<char>, Seq<char>)>)) -> bool {
    &&& is_selectors(r.1)
    &&& plain_css::is_one(r.1, ',')
    &&& r.1.last() != '/'
    &&& stylesheet::shape_of(r.1) is Some
    &&& forall|k: int| 0 <= k < r.2.len() ==> is_plain_pair(#[trigger] r.2[k])
}

/// What a reader makes of the first `n` rules: those without declarations are not
/// there.
pub open spec fn read_rules(
    v: Seq<(Seq<char>, Seq<char>, Seq<(Seq<char>, Seq<char>)>)>,
    n: int,
) -> Seq<StyleRule>
    decreases n,
{
    if n <= 0 {
        Seq::empty()
    } else if v[n - 1].2.len() == 0 {
        read_rules(v, n - 1)
    } else {
        read_rules(v, n - 1).push(
            StyleRule { shape: stylesheet::shape_of(v[n - 1].1)->0, decls: v[n - 1].2 },
        )
    }
}

/// The rules that have declarations.
spec fn filled(v: Seq<(Seq<char>, Seq<char>, Seq<(Seq<char>, Seq<char>)>)>, n: int) -> Seq<
    (Seq<char>, Seq<char>, Seq<(Seq<char>, Seq<char>)>),
>
    decreases n,
{
    if n <= 0 {
        Seq::empty()
    } else if v[n - 1].2.len() == 0 {
        filled(v, n - 1)
    } else {
        filled(v, n - 1).push(v[n - 1])
    }
}

/// The rules in the form of a plain stylesheet.
spec fn laid(f: Seq<(Seq<char>, Seq<char>, Seq<(Seq<char>, Seq<char>)>)>) -> Seq<
    (Seq<char>, Seq<char>, Seq<char>),
> {
    Seq::new(
        f.len(),
        |k: int|
            (
                if k == 0 {
                    "\n"@
                } else {
                    "\n\n"@
                },
                f[k].1 + " "@,
                "\n"@ + plain_css::lines(f[k].2, f[k].2.len() as int),
            ),
    )
}

proof fn lemma_decl_lines(d: Seq<(Seq<char>, Seq<char>)>, n: int)
    requires
        0 <= n <= d.len(),
    ensures
        residuals::decl_lines(d, n) == plain_css::lines(d, n),
    decreases n,
{
    if n > 0 {
        reveal_strlit(";\n");
        reveal_strlit(";");
        reveal_strlit("\n");
        lemma_decl_lines(d, n - 1);
        assert(residuals::decl_lines(d, n) =~= plain_css::lines(d, n));
    }
}

spec fn tail_of(n: int) -> Seq<char> {
    if n > 0 {
        "\n"@
    } else {
        Seq::empty()
    }
}

proof fn lemma_laid_prefix(
    f: Seq<(Seq<char>, Seq<char>, Seq<(Seq<char>, Seq<char>)>)>,
    x: (Seq<char>, Seq<char>, Seq<(Seq<char>, Seq<char>)>),
    n: int,
)
    requires
        0 <= n <= f.len(),
    ensures
        plain_css::sheet_text(laid(f.push(x)), n) == plain_css::sheet_text(laid(f), n),
    decreases n,
{
    if n > 0 {
        lemma_laid_prefix(f, x, n - 1);
        assert(laid(f.push(x))[n - 1] == laid(f)[n - 1]);
    }
}

proof fn lemma_sheet(v: Seq<(Seq<char>, Seq<char>, Seq<(Seq<char>, Seq<char>)>)>, n: int)
    requires
        0 <= n <= v.len(),
    ensures
        ({
            let f = filled(v, n);
            residuals::sheet_to(v, n) == plain_css::sheet_text(laid(f), f.len() as int) + tail_of(
                f.len() as int,
            )
        }),
    decreases n,
{
    let f = filled(v, n);
    if n == 0 {
        assert(residuals::sheet_to(v, n) =~= plain_css::sheet_text(laid(f), 0) + tail_of(0));
    } else {
        lemma_sheet(v, n - 1);
        if v[n - 1].2.len() > 0 {
            let g = filled(v, n - 1);
            let x = v[n - 1];
            let m = g.len() as int;
            reveal_strlit("\n");
            reveal_strlit("\n\n");
            reveal_strlit(" {\n");
            reveal_strlit(" ");
            reveal_strlit("{");
            reveal_strlit("}");
            reveal_strlit("}\n");
            lemma_laid_prefix(g, x, m);
            lemma_decl_lines(x.2, x.2.len() as int);
            let a = plain_css::sheet_text(laid(g), m);
            let l = plain_css::lines(x.2, x.2.len() as int);
            assert(plain_css::sheet_text(laid(f), m + 1) == a + laid(f)[m].0 + plain_css::rule_text(
                x.1 + " "@,
                "\n"@ + l,
            ));
            assert(tail_of(m) + "\n"@ =~= laid(f)[m].0);
            assert(a + tail_of(m) + "\n"@ =~= a + laid(f)[m].0);
            assert(residuals::sheet_to(v, n) =~= a + laid(f)[m].0 + plain_css::rule_text(
                x.1 + " "@,
                "\n"@ + l,
            ) + "\n"@);
        }
    }
}

proof fn lemma_filled(v: Seq<(Seq<char>, Seq<char>, Seq<(Seq<char>, Seq<char>)>)>, n: int)
    requires
        0 <= n <= v.len(),
        forall|k: int| 0 <= k < v.len() ==> is_plain_rule(#[trigger] v[k]),
    ensures
        forall|k: int| 0 <= k < filled(v, n).len() ==> is_plain_rule(#[trigger] filled(v, n)[k]),
        read_rules(v, n).len() == filled(v, n).len(),
        forall|k: int|
            0 <= k < filled(v, n).len() ==> #[trigger] read_rules(v, n)[k] == (StyleRule {
                shape: stylesheet::shape_of(filled(v, n)[k].1)->0,
                decls: filled(v, n)[k].2,
            }),
    decreases n,
{
    if n > 0 {
        lemma_filled(v, n - 1);
        assert(is_plain_rule(v[n - 1]));
    }
}

proof fn lemma_trailing_space(s: Seq<char>)
    requires
        is_selectors(s),
        plain_css::is_one(s, ','),
        s.last() != '/',
    ensures
        is_selectors(s + " "@),
        css::spec_split_top_level(s + " "@, ',') == seq![s + " "@],
{
    reveal_strlit(" ");
    plain_css::lemma_plain_run(" "@);
    plain_css::lemma_run_join(s, " "@);
    let t = s + " "@;
    let v = seq![t];
    assert forall|m: int| 0 <= m < t.len() && plain_css::opened(t, m) == 0 implies #[trigger] t[m] != ',' by {
        if m < s.len() {
            plain_css::lemma_opened_join(s, " "@, m);
            assert(t[m] == s[m]);
        }
    }
    plain_css::a_list_is_parted_into_what_it_lists(v, ',');
}

/// White space behind a selector does not change what it selects.
proof fn lemma_shape_space(s: Seq<char>)
    ensures
        stylesheet::compounds(s + " "@) == stylesheet::compounds(s),
{
    reveal_strlit(" ");
    reveal_strlit(">");
    lemma_replace_char(s, 0);
    lemma_replace_char(s + " "@, 0);
    let r = text::spec_replace(s, ">"@, " "@);
    assert(text::spec_replace(s + " "@, ">"@, " "@) =~= r + " "@);
    lemma_words_space(r, 0);
}

spec fn spaced(c: char) -> char {
    if c == '>' {
        ' '
    } else {
        c
    }
}

proof fn lemma_replace_char(s: Seq<char>, i: int)
    requires
        0 <= i <= s.len(),
    ensures
        text::replace_from(s, ">"@, " "@, i) == s.subrange(i, s.len() as int).map_values(
            |c: char| spaced(c),
        ),
    decreases s.len() - i,
{
    reveal_strlit(" ");
    reveal_strlit(">");
    let want = s.subrange(i, s.len() as int).map_values(|c: char| spaced(c));
    text::lemma_find(s, ">"@, i);
    match text::spec_find(s, ">"@, i) {
        Some(k) => {
            assert(s.subrange(k, k + 1)[0] == s[k]);
            lemma_replace_char(s, k + 1);
            assert forall|m: int| i <= m < k implies #[trigger] s[m] != '>' by {
                if s[m] == '>' {
                    assert(s.subrange(m, m + 1) =~= ">"@);
                    assert(text::is_at(s, ">"@, m));
                }
            }
            assert(text::replace_from(s, ">"@, " "@, i) =~= want);
        },
        None => {
            assert forall|m: int| i <= m < s.len() implies #[trigger] s[m] != '>' by {
                if s[m] == '>' {
                    assert(s.subrange(m, m + 1) =~= ">"@);
                    assert(text::is_at(s, ">"@, m));
                }
            }
            assert(text::replace_from(s, ">"@, " "@, i) =~= want);
        },
    }
}

proof fn lemma_words_space(s: Seq<char>, i: int)
    requires
        0 <= i <= s.len(),
    ensures
        text::words_from(s + " "@, i) == text::words_from(s, i),
    decreases s.len() - i,
{
    reveal_strlit(" ");
    let t = s + " "@;
    lemma_skip_space(s, i);
    let a = text::skip_white(s, i);
    if a < s.len() {
        lemma_end_space(s, a);
        let b = text::word_end(s, a);
        if a < b {
            assert(t.subrange(a, b) =~= s.subrange(a, b));
            lemma_words_space(s, b);
        }
    }
}

proof fn lemma_skip_space(s: Seq<char>, i: int)
    requires
        0 <= i <= s.len(),
    ensures
        i <= text::skip_white(s, i) <= s.len(),
        text::skip_white(s, i) < s.len() ==> text::skip_white(s + " "@, i) == text::skip_white(s, i)
            && !text::is_white(s[text::skip_white(s, i)]),
        text::skip_white(s, i) == s.len() ==> text::skip_white(s + " "@, i) == s.len() + 1,
    decreases s.len() - i,
{
    reveal_strlit(" ");
    let t = s + " "@;
    if i < s.len() {
        assert(t[i] == s[i]);
        if text::is_white(s[i]) {
            lemma_skip_space(s, i + 1);
        }
    } else {
        assert(t[i] == ' ');
        assert(text::skip_white(t, i + 1) == i + 1);
    }
}

proof fn lemma_end_space(s: Seq<char>, i: int)
    requires
        0 <= i <= s.len(),
    ensures
        i <= text::word_end(s, i) <= s.len(),
        text::word_end(s + " "@, i) == text::word_end(s, i),
    decreases s.len() - i,
{
    reveal_strlit(" ");
    let t = s + " "@;
    if i < s.len() {
        assert(t[i] == s[i]);
        if !text::is_white(s[i]) {
            lemma_end_space(s, i + 1);
        }
    } else {
        assert(t[i] == ' ');
    }
}

proof fn lemma_declared(d: Seq<(Seq<char>, Seq<char>)>, v: Seq<BlockPart>, n: int)
    requires
        0 <= n <= d.len(),
        v.len() == d.len(),
        forall|k: int| 0 <= k < d.len() ==> #[trigger] v[k] == BlockPart::Decl(d[k].0, d[k].1),
        forall|k: int| 0 <= k < d.len() ==> is_plain_pair(#[trigger] d[k]),
    ensures
        stylesheet::declared_to(v, n) == d.take(n),
    decreases n,
{
    if n > 0 {
        lemma_declared(d, v, n - 1);
        assert(v[n - 1] == BlockPart::Decl(d[n - 1].0, d[n - 1].1));
        assert(is_plain_pair(d[n - 1]));
        assert(d.take(n) =~= d.take(n - 1) + seq![d[n - 1]]);
    } else {
        assert(d.take(0) =~= Seq::empty());
    }
}

/// What a block of plain declarations declares.
proof fn lemma_block(d: Seq<(Seq<char>, Seq<char>)>)
    requires
        forall|k: int| 0 <= k < d.len() ==> is_plain_pair(#[trigger] d[k]),
    ensures
        stylesheet::declarations("\n"@ + plain_css::lines(d, d.len() as int)) == d,
        plain_css::is_block("\n"@ + plain_css::lines(d, d.len() as int)),
{
    reveal_strlit("\n");
    assert(are_declarations(d)) by {
        assert forall|k: int| 0 <= k < d.len() implies plain_css::is_property((#[trigger] d[k]).0)
            && plain_css::is_value(d[k].1) by {
            assert(is_plain_pair(d[k]));
        }
    }
    plain_css::written_declarations_are_read_back(d, "\n"@);
    let l = plain_css::lines(d, d.len() as int);
    let v = css::spec_block_items("\n"@ + l);
    lemma_declared(d, v, d.len() as int);
    assert(d.take(d.len() as int) =~= d);
    plain_css::lemma_lines_block(d, d.len() as int);
    plain_css::lemma_calm_join("\n"@, l);
    plain_css::lemma_lacks_join("\n"@, l, '{');
    plain_css::lemma_lacks_join("\n"@, l, '}');
}

/// What a rule that is written plainly is read as.
proof fn lemma_one_rule(
    t: Seq<char>,
    r: (Seq<char>, Seq<char>, Seq<(Seq<char>, Seq<char>)>),
    i: int,
    items: Seq<css::CssItem>,
    n: int,
)
    requires
        is_plain_rule(r),
        0 < n <= items.len(),
        ({
            let a = r.1 + " "@;
            let b = "\n"@ + plain_css::lines(r.2, r.2.len() as int);
            &&& items[n - 1] == plain_css::rule_item(a, b, i)
            &&& plain_css::stands(t, plain_css::rule_text(a, b), i)
        }),
    ensures
        stylesheet::rules_to(t, items, n) == stylesheet::rules_to(t, items, n - 1).push(
            StyleRule { shape: stylesheet::shape_of(r.1)->0, decls: r.2 },
        ),
{
    reveal_strlit("{");
    reveal_strlit("}");
    let a = r.1 + " "@;
    let b = "\n"@ + plain_css::lines(r.2, r.2.len() as int);
    lemma_trailing_space(r.1);
    lemma_shape_space(r.1);
    lemma_block(r.2);
    plain_css::lemma_rule_at(t, a, b, i, t.len() as int);
    let sels = css::spec_split_top_level(a, ',');
    assert(sels[0] == a);
    let one = StyleRule { shape: stylesheet::shape_of(r.1)->0, decls: r.2 };
    assert(stylesheet::shape_of(a) == stylesheet::shape_of(r.1));
    assert(stylesheet::rules_for(sels, r.2, 0) =~= Seq::empty());
    assert(stylesheet::rules_for(sels, r.2, 1) =~= seq![one]);
    assert(stylesheet::rules_to(t, items, n) =~= stylesheet::rules_to(t, items, n - 1).push(one));
}

proof fn lemma_rules(
    f: Seq<(Seq<char>, Seq<char>, Seq<(Seq<char>, Seq<char>)>)>,
    t: Seq<char>,
    items: Seq<css::CssItem>,
    n: int,
)
    requires
        forall|k: int| 0 <= k < f.len() ==> is_plain_rule(#[trigger] f[k]),
        0 <= n <= f.len(),
        items.len() == f.len(),
        t == plain_css::sheet_text(laid(f), f.len() as int) + tail_of(f.len() as int),
        forall|k: int|
            0 <= k < f.len() ==> #[trigger] items[k] == plain_css::rule_item(
                laid(f)[k].1,
                laid(f)[k].2,
                plain_css::rule_place(laid(f), k),
            ),
    ensures
        stylesheet::rules_to(t, items, n).len() == n,
        forall|k: int|
            0 <= k < n ==> #[trigger] stylesheet::rules_to(t, items, n)[k] == (StyleRule {
                shape: stylesheet::shape_of(f[k].1)->0,
                decls: f[k].2,
            }),
    decreases n,
{
    if n > 0 {
        lemma_rules(f, t, items, n - 1);
        let k = n - 1;
        let l = laid(f);
        plain_css::lemma_rule_in(l, tail_of(f.len() as int), k);
        assert(is_plain_rule(f[k]));
        assert(items[k] == plain_css::rule_item(l[k].1, l[k].2, plain_css::rule_place(l, k)));
        lemma_one_rule(t, f[k], plain_css::rule_place(l, k), items, n);
    }
}

proof fn lemma_laid(f: Seq<(Seq<char>, Seq<char>, Seq<(Seq<char>, Seq<char>)>)>)
    requires
        forall|k: int| 0 <= k < f.len() ==> is_plain_rule(#[trigger] f[k]),
    ensures
        are_rules(laid(f)),
        is_gap(tail_of(f.len() as int)),
{
    reveal_strlit("\n");
    reveal_strlit("\n\n");
    let l = laid(f);
    assert forall|k: int| 0 <= k < l.len() implies is_gap((#[trigger] l[k]).0) && is_selectors(l[k].1)
        && plain_css::is_block(l[k].2) by {
        assert(is_plain_rule(f[k]));
        lemma_trailing_space(f[k].1);
        lemma_block(f[k].2);
    }
}

/// The stylesheet of residual rules is read back as exactly the rules that have
/// declarations: each under its selector, with its properties and their values, in
/// order.
pub proof fn residual_rules_are_read_back(
    v: Seq<(Seq<char>, Seq<char>, Seq<(Seq<char>, Seq<char>)>)>,
)
    requires
        forall|k: int| 0 <= k < v.len() ==> is_plain_rule(#[trigger] v[k]),
    ensures
        stylesheet::sheet_rules(residuals::sheet_to(v, v.len() as int)) == read_rules(
            v,
            v.len() as int,
        ),
{
    let n = v.len() as int;
    let f = filled(v, n);
    let m = f.len() as int;
    lemma_filled(v, n);
    lemma_sheet(v, n);
    let l = laid(f);
    lemma_laid(f);
    let w = tail_of(m);
    plain_css::a_sheet_of_rules_is_read_as_its_rules(l, w);
    let t = residuals::sheet_to(v, n);
    let items = css::spec_scan(t);
    assert(l.len() == m);
    lemma_rules(f, t, items, m);
    assert(stylesheet::sheet_rules(t) =~= read_rules(v, n));
}

// ---------------------------------------------------------------- single words

/// Text without white space.
pub open spec fn is_word(s: Seq<char>) -> bool {
    s.len() > 0 && forall|k: int| 0 <= k < s.len() ==> !text::is_white(#[trigger] s[k])
}

proof fn lemma_word_end(t: Seq<char>, s: Seq<char>, i: int, k: int)
    requires
        is_word(s),
        text::is_at(t, s, i),
        0 <= k <= s.len(),
        i + s.len() < t.len() ==> text::is_white(t[(i + s.len()) as int]),
    ensures
        text::word_end(t, i + k) == i + s.len(),
    decreases s.len() - k,
{
    if k < s.len() {
        assert(t.subrange(i, i + s.len())[k] == s[k]);
        lemma_word_end(t, s, i, k + 1);
    }
}

/// A word behind `i`, up to the end or to white space.
pub proof fn lemma_first_word(t: Seq<char>, s: Seq<char>, i: int)
    requires
        is_word(s),
        text::is_at(t, s, i),
        i + s.len() < t.len() ==> text::is_white(t[(i + s.len()) as int]),
    ensures
        text::words_from(t, i) == seq![s] + text::words_from(t, (i + s.len()) as int),
{
    assert(t.subrange(i, i + s.len())[0] == s[0]);
    assert(text::skip_white(t, i) == i);
    lemma_word_end(t, s, i, 0);
}

pub proof fn lemma_one_word(s: Seq<char>)
    requires
        is_word(s),
    ensures
        text::spec_words(s) == seq![s],
{
    assert(s.subrange(0, s.len() as int) =~= s);
    lemma_first_word(s, s, 0);
    let n = s.len() as int;
    assert(text::skip_white(s, n) == n);
    assert(text::word_end(s, n) == n);
    assert(text::words_from(s, n) =~= Seq::empty());
    assert(seq![s] + Seq::<Seq<char>>::empty() =~= seq![s]);
}

proof fn lemma_two_words(a: Seq<char>, b: Seq<char>)
    requires
        is_word(a),
        is_word(b),
    ensures
        text::spec_words(a + " "@ + b) == seq![a, b],
{
    reveal_strlit(" ");
    let t = a + " "@ + b;
    let n = a.len() as int;
    assert(t.subrange(0, n) =~= a);
    assert(t[n] == ' ');
    lemma_first_word(t, a, 0);
    assert(t.subrange(n + 1, n + 1 + b.len()) =~= b);
    lemma_first_word(t, b, n + 1);
    assert(t[n + 1] == b[0]);
    assert(text::skip_white(t, n + 1) == n + 1);
    assert(text::skip_white(t, n) == n + 1);
    let m = t.len() as int;
    assert(text::words_from(t, m) =~= Seq::empty()) by {
        assert(text::skip_white(t, m) == m);
    }
    lemma_word_end(t, b, n + 1, 0);
    assert(text::words_from(t, n) == seq![b] + text::words_from(t, m));
    assert(text::words_from(t, 0) =~= seq![a, b]);
}

/// A property by its full name, in small letters, that is no shorthand for four sides.
pub open spec fn is_longhand(n: Seq<char>) -> bool {
    &&& n.len() > 0
    &&& 'a' <= n[0] <= 'z'
    &&& forall|k: int| 0 <= k < n.len() ==> ('a' <= #[trigger] n[k] <= 'z') || n[k] == '-'
    &&& n != "margin"@
    &&& n != "padding"@
}

/// A word of a value that is no number, in small letters.
pub open spec fn is_keyword(w: Seq<char>) -> bool {
    &&& w.len() > 0
    &&& 'a' <= w[0] <= 'z'
    &&& forall|k: int| 0 <= k < w.len() ==> ('a' <= #[trigger] w[k] <= 'z') || w[k] == '-'
}

/// A keyword set to a property is read as it is written: that property, with that
/// value.
pub proof fn a_keyword_is_read_as_it_is_written(n: Seq<char>, w: Seq<char>)
    requires
        is_longhand(n),
        is_keyword(w),
    ensures
        is_plain_pair((n, w)),
{
    reveal_strlit("-webkit-");
    reveal_strlit("-epub-");
    let none = Seq::<char>::empty();
    lemma_small(n);
    lemma_small(w);
    lemma_untouched(n);
    if text::spec_starts(n, "-webkit-"@) {
        assert(n.subrange(0, 8)[0] == n[0]);
    }
    if text::spec_starts(n, "-epub-"@) {
        assert(n.subrange(0, 6)[0] == n[0]);
    }
    assert(stylesheet::plain_name(n) == n);
    text::lemma_find_char(w, '!', 0);
    assert(stylesheet::bare_value(w) == w);
    lemma_one_word(w);
    assert(crate::series::numeral_end(w, 0) == 0);
    assert(stylesheet::plain_word(w) == w);
    let words = stylesheet::value_words(w);
    assert(words =~= seq![w]);
    assert(stylesheet::sorted_to(words, 0) =~= Seq::empty());
    assert(stylesheet::sorted_to(words, 1) =~= seq![w]);
    assert(text::join_to(seq![w], " "@, 1) =~= w) by {
        assert(text::join_to(seq![w], " "@, 0) =~= none);
    }
    assert(text::spec_join(words, " "@) =~= w);
    assert(stylesheet::declared(n, w) =~= seq![(n, w)]);
    plain_css::lemma_plain_run(n);
    plain_css::lemma_plain_run(w);
}

proof fn lemma_small(n: Seq<char>)
    requires
        n.len() > 0,
        forall|k: int| 0 <= k < n.len() ==> ('a' <= #[trigger] n[k] <= 'z') || n[k] == '-',
    ensures
        text::spec_lower(n) == n,
        is_word(n),
        plain_css::is_calm(n),
        plain_css::opens_nothing(n),
        !n.contains('{'),
        !n.contains('}'),
        !n.contains(';'),
        !n.contains(':'),
        !n.contains('!'),
        !text::is_ascii_white(n[0]),
        !text::is_ascii_white(n.last()),
{
    assert(text::spec_lower(n) =~= n);
}

proof fn lemma_untouched(s: Seq<char>)
    requires
        is_word(s),
    ensures
        text::spec_trim(s) == s,
{
    assert(text::skip_white(s, 0) == 0);
    assert(text::back_white(s, 0, s.len() as int) == s.len());
    assert(s.subrange(0, s.len() as int) =~= s);
}

// ---------------------------------------------------------------- selectors

/// The name of a tag or a class.
pub open spec fn is_name(s: Seq<char>) -> bool {
    is_word(s) && stylesheet::all_ident(s)
}

proof fn lemma_name(s: Seq<char>)
    requires
        is_name(s),
    ensures
        !s.contains('.'),
        !s.contains('>'),
        s != "*"@,
        s.len() > 0,
{
    reveal_strlit("*");
    if s.contains('.') {
        let k = choose|k: int| 0 <= k < s.len() && s[k] == '.';
        assert(css::ident_char(s[k]));
    }
    if s.contains('>') {
        let k = choose|k: int| 0 <= k < s.len() && s[k] == '>';
        assert(css::ident_char(s[k]));
    }
    if s == "*"@ {
        assert(css::ident_char(s[0]));
    }
}

/// A tag with one class, or with two.
spec fn dotted(tag: Seq<char>, v: Seq<Seq<char>>) -> Seq<char> {
    if v.len() == 1 {
        tag + "."@ + v[0]
    } else {
        tag + "."@ + v[0] + "."@ + v[1]
    }
}

proof fn lemma_dotted(tag: Seq<char>, v: Seq<Seq<char>>)
    requires
        is_name(tag),
        1 <= v.len() <= 2,
        forall|k: int| 0 <= k < v.len() ==> is_name(#[trigger] v[k]),
    ensures
        text::spec_split(dotted(tag, v), '.') == seq![tag] + v,
        is_word(dotted(tag, v)),
        !dotted(tag, v).contains('>'),
        stylesheet::is_compound(text::spec_split(dotted(tag, v), '.')),
        stylesheet::tag_in(dotted(tag, v)) == Some(text::spec_lower(tag)),
        stylesheet::classes_in(dotted(tag, v)) == v,
{
    reveal_strlit(".");
    lemma_name(tag);
    assert(is_name(v[0]));
    lemma_name(v[0]);
    text::lemma_split_none(tag, '.');
    text::lemma_split_none(v[0], '.');
    let d = dotted(tag, v);
    if v.len() == 1 {
        assert(d =~= tag.push('.') + v[0]);
        text::split_distributes(tag, v[0], '.');
        assert(seq![tag] + seq![v[0]] =~= seq![tag] + v);
    } else {
        assert(is_name(v[1]));
        lemma_name(v[1]);
        text::lemma_split_none(v[1], '.');
        assert(d =~= tag.push('.') + (v[0].push('.') + v[1]));
        text::split_distributes(v[0], v[1], '.');
        text::split_distributes(tag, v[0].push('.') + v[1], '.');
        assert(seq![tag] + (seq![v[0]] + seq![v[1]]) =~= seq![tag] + v);
    }
    assert forall|k: int| 0 <= k < d.len() implies !text::is_white(#[trigger] d[k]) && d[k] != '>' by {
        lemma_dotted_char(tag, v, k);
    }
    let p = seq![tag] + v;
    assert(p[0] == tag);
    assert forall|i: int| 1 <= i < p.len() implies (#[trigger] p[i]).len() > 0 && stylesheet::all_ident(
        p[i],
    ) by {
        assert(p[i] == v[i - 1]);
        assert(is_name(v[i - 1]));
    }
    assert(p.subrange(1, p.len() as int) =~= v);
}

proof fn lemma_dotted_char(tag: Seq<char>, v: Seq<Seq<char>>, k: int)
    requires
        is_name(tag),
        1 <= v.len() <= 2,
        forall|j: int| 0 <= j < v.len() ==> is_name(#[trigger] v[j]),
        0 <= k < dotted(tag, v).len(),
    ensures
        !text::is_white(dotted(tag, v)[k]),
        dotted(tag, v)[k] != '>',
        dotted(tag, v)[k] == '.' || css::ident_char(dotted(tag, v)[k]),
{
    reveal_strlit(".");
    let d = dotted(tag, v);
    let n = tag.len() as int;
    let m = v[0].len() as int;
    assert(is_name(v[0]));
    if k < n {
        assert(d[k] == tag[k]);
        assert(css::ident_char(tag[k]));
    } else if k > n && k < n + 1 + m {
        assert(d[k] == v[0][k - n - 1]);
        assert(css::ident_char(v[0][k - n - 1]));
    } else if k > n + 1 + m {
        assert(is_name(v[1]));
        assert(d[k] == v[1][k - n - m - 2]);
        assert(css::ident_char(v[1][k - n - m - 2]));
    }
}

proof fn lemma_unreplaced(s: Seq<char>)
    requires
        !s.contains('>'),
    ensures
        text::spec_replace(s, ">"@, " "@) == s,
{
    lemma_replace_char(s, 0);
    assert forall|k: int| 0 <= k < s.len() implies #[trigger] s[k] != '>' by {
        assert(s.contains(s[k]));
    }
    assert(s.subrange(0, s.len() as int).map_values(|c: char| spaced(c)) =~= s);
}

/// What the selector of a residual rule selects.
pub open spec fn residual_shape(tag: Seq<char>, kind: Option<Seq<char>>, name: Seq<char>) -> Shp {
    let low = text::spec_lower(tag);
    match kind {
        Some(k) if tag == "body"@ => Shp {
            tag: Some(low),
            classes: seq![k, name],
            context_classes: Seq::empty(),
            context_tags: Seq::empty(),
        },
        Some(k) if tag != "html"@ => Shp {
            tag: Some(low),
            classes: seq![name],
            context_classes: seq![k],
            context_tags: seq!["body"@],
        },
        _ => Shp {
            tag: Some(low),
            classes: seq![name],
            context_classes: Seq::empty(),
            context_tags: Seq::empty(),
        },
    }
}

proof fn lemma_alone(tag: Seq<char>, v: Seq<Seq<char>>)
    requires
        is_name(tag),
        1 <= v.len() <= 2,
        forall|k: int| 0 <= k < v.len() ==> is_name(#[trigger] v[k]),
    ensures
        stylesheet::shape_of(dotted(tag, v)) == Some(
            Shp {
                tag: Some(text::spec_lower(tag)),
                classes: v,
                context_classes: Seq::empty(),
                context_tags: Seq::empty(),
            },
        ),
{
    let d = dotted(tag, v);
    lemma_dotted(tag, v);
    lemma_unreplaced(d);
    lemma_one_word(d);
    assert(stylesheet::compounds(d) == seq![d]);
}

/// A selector of elements on pages of a kind.
#[verifier::rlimit(40)]
proof fn lemma_in_body(tag: Seq<char>, kind: Seq<char>, name: Seq<char>)
    requires
        is_name(tag),
        is_name(name),
        is_name(kind),
    ensures
        stylesheet::shape_of(dotted("body"@, seq![kind]) + " "@ + dotted(tag, seq![name])) == Some(
            Shp {
                tag: Some(text::spec_lower(tag)),
                classes: seq![name],
                context_classes: seq![kind],
                context_tags: seq!["body"@],
            },
        ),
{
    reveal_strlit("body");
    reveal_strlit(" ");
    let body = "body"@;
    assert(is_name(body));
    let v = seq![kind];
    let w = seq![name];
    let a = dotted(body, v);
    let b = dotted(tag, w);
    let s = a + " "@ + b;
    lemma_dotted(body, v);
    lemma_dotted(tag, w);
    plain_css::lemma_lacks_join(a, " "@, '>');
    plain_css::lemma_lacks_join(a + " "@, b, '>');
    lemma_unreplaced(s);
    lemma_two_words(a, b);
    let words = seq![a, b];
    assert(stylesheet::compounds(s) == words);
    assert(words[0] == a && words[1] == b);
    assert(text::spec_lower(body) =~= body);
    assert(stylesheet::classes_back(words, 0) =~= Seq::empty());
    assert(stylesheet::classes_back(words, 1) =~= v);
    assert(stylesheet::tags_back(words, 0) =~= Seq::empty());
    assert(stylesheet::tags_back(words, 1) =~= seq![body]);
}

/// The rule for what is left undone of an element selects it by its tag, by the new
/// class, and by the kind of its page where one is told; nothing else selects.
#[verifier::rlimit(40)]
pub proof fn a_residual_rule_selects_by_its_class(
    tag: Seq<char>,
    kind: Option<Seq<char>>,
    name: Seq<char>,
)
    requires
        is_name(tag),
        is_name(name),
        kind matches Some(k) ==> is_name(k),
    ensures
        stylesheet::shape_of(residuals::selector_for(tag, kind, name)) == Some(
            residual_shape(tag, kind, name),
        ),
{
    reveal_strlit("html.");
    reveal_strlit("html");
    reveal_strlit("body.");
    reveal_strlit("body");
    reveal_strlit(".");
    reveal_strlit(" ");
    let s = residuals::selector_for(tag, kind, name);
    assert("html"@[0] == 'h' && "body"@[0] == 'b');
    if tag == "html"@ || kind is None {
        let v = seq![name];
        assert(s =~= dotted(tag, v));
        lemma_alone(tag, v);
    } else if tag == "body"@ {
        let v = seq![kind->0, name];
        assert(s =~= dotted(tag, v));
        lemma_alone(tag, v);
    } else {
        let k = kind->0;
        lemma_in_body(tag, k, name);
        let d = dotted("body"@, seq![k]) + " "@ + dotted(tag, seq![name]);
        assert(seq![k][0] == k && seq![name][0] == name);
        assert(dotted("body"@, seq![k]) =~= "body."@ + k);
        assert(s =~= d);
        assert(residual_shape(tag, kind, name) =~= (Shp {
            tag: Some(text::spec_lower(tag)),
            classes: seq![name],
            context_classes: seq![k],
            context_tags: seq!["body"@],
        }));
    }
}

} // verus!
