//! `unused_css` lists the stylesheet rules that no content document matches;
//! `remove_unused_css` cuts them from the sheets in place. Which selectors match
//! an element of a document is for a selector engine to say: `base_selectors`
//! gives it the selectors, and the functions take those that match.
use vstd::prelude::*;

use crate::css;
use crate::edit;
use crate::manifest;
use crate::package;
use crate::split_doc;
use crate::text;
use crate::archive::Part;
use crate::codec::bytes_of;
use crate::css::{
    CssItem, CssKind, Item, Kind, collapse_space, item_of, scan_within, split_top_level,
};
use crate::edit::{Changes, EpubPackage, Log};
use crate::error::{Error, Fault};
use crate::manifest::{Listed, MemberRole, line_start_of, members};
use crate::package::member_text;
use crate::text::{
    add_text, ascii_alnum, ascii_white, blank, chars_of, copy, decimal_of_sum, find_char, put,
    put_str, string_of, strings_of, strs_have, trim,
};

verus! {

/// A rule that nothing matches: its sheet, its selector and its line.
#[derive(Debug, Clone, PartialEq, Eq)]
pub struct UnusedRule {
    pub sheet: String,
    pub selector: String,
    pub line: usize,
}

/// A rule that nothing matches.
#[verifier::ext_equal]
pub struct Unused {
    pub sheet: Seq<char>,
    pub selector: Seq<char>,
    pub line: int,
}

impl View for UnusedRule {
    type V = Unused;

    open spec fn view(&self) -> Unused {
        Unused { sheet: self.sheet@, selector: self.selector@, line: self.line as int }
    }
}

/// The rules of a vector.
pub open spec fn rules(v: Seq<UnusedRule>) -> Seq<Unused> {
    v.map_values(|r: UnusedRule| r@)
}

// ---------------------------------------------------------------- selectors

/// A character of a pseudo-class's name.
pub open spec fn in_pseudo(c: char) -> bool {
    c == ':' || c == '-' || text::is_ascii_alnum(c)
}

/// The end of the name of a pseudo-class that goes on at `j`.
pub open spec fn pseudo_end(s: Seq<char>, j: int) -> int
    decreases s.len() - j,
{
    if 0 <= j < s.len() && in_pseudo(s[j]) {
        pseudo_end(s, j + 1)
    } else {
        j
    }
}

/// The end of the arguments that go on at `j`, behind `depth` open brackets.
pub open spec fn arguments_end(s: Seq<char>, j: int, depth: int) -> int
    decreases s.len() - j,
{
    if j < 0 || j >= s.len() {
        j
    } else if s[j] == ')' && depth == 1 {
        j + 1
    } else {
        arguments_end(
            s,
            j + 1,
            if s[j] == '(' {
                depth + 1
            } else if s[j] == ')' {
                depth - 1
            } else {
                depth
            },
        )
    }
}

/// The end of the pseudo-class whose colon stands at `i`.
pub open spec fn pseudo_past(s: Seq<char>, i: int) -> int {
    let j = pseudo_end(s, i + 1);
    if j < s.len() && s[j] == '(' {
        arguments_end(s, j, 0)
    } else {
        j
    }
}

/// The end of the string whose quote `q` is looked for from `j` on.
pub open spec fn quote_past(s: Seq<char>, q: char, j: int) -> int {
    match text::spec_find_char(s, q, j) {
        Some(k) => k + 1,
        None => s.len() as int,
    }
}

pub proof fn lemma_pseudo_past(s: Seq<char>, i: int)
    requires
        0 <= i < s.len(),
    ensures
        i < pseudo_past(s, i) <= s.len(),
{
    lemma_pseudo_end(s, i + 1);
    lemma_arguments_end(s, pseudo_end(s, i + 1), 0);
}

pub proof fn lemma_pseudo_end(s: Seq<char>, j: int)
    requires
        0 <= j <= s.len(),
    ensures
        j <= pseudo_end(s, j) <= s.len(),
    decreases s.len() - j,
{
    if j < s.len() && in_pseudo(s[j]) {
        lemma_pseudo_end(s, j + 1);
    }
}

pub proof fn lemma_arguments_end(s: Seq<char>, j: int, depth: int)
    requires
        0 <= j <= s.len(),
    ensures
        j <= arguments_end(s, j, depth) <= s.len(),
    decreases s.len() - j,
{
    if j < s.len() && !(s[j] == ')' && depth == 1) {
        lemma_arguments_end(
            s,
            j + 1,
            if s[j] == '(' {
                depth + 1
            } else if s[j] == ')' {
                depth - 1
            } else {
                depth
            },
        );
    }
}

/// The selector from `i` on without its pseudo-classes and pseudo-elements;
/// strings stay as they are.
pub open spec fn stripped_from(s: Seq<char>, i: int) -> Seq<char>
    decreases s.len() - i,
{
    if i < 0 || i >= s.len() {
        Seq::empty()
    } else if s[i] == ':' {
        proof {
            lemma_pseudo_past(s, i);
        }
        stripped_from(s, pseudo_past(s, i))
    } else if s[i] == '"' || s[i] == '\'' {
        proof {
            text::lemma_find_char(s, s[i], i + 1);
        }
        let e = quote_past(s, s[i], i + 1);
        s.subrange(i, e) + stripped_from(s, e)
    } else {
        s.subrange(i, i + 1) + stripped_from(s, i + 1)
    }
}

/// A selector without its pseudo-classes and pseudo-elements.
pub open spec fn spec_strip_pseudo(s: Seq<char>) -> Seq<char> {
    stripped_from(s, 0)
}

fn pseudo_end_of(s: &[char], a: usize) -> (r: usize)
    requires
        a <= s@.len(),
    ensures
        r == pseudo_end(s@, a as int),
        a <= r <= s@.len(),
{
    let mut j: usize = a;
    while j < s.len() && (s[j] == ':' || s[j] == '-' || ascii_alnum(s[j]))
        invariant
            a <= j <= s@.len(),
            pseudo_end(s@, a as int) == pseudo_end(s@, j as int),
        decreases s@.len() - j,
    {
        j = j + 1;
    }
    j
}

fn arguments_end_of(s: &[char], a: usize) -> (r: usize)
    requires
        a < s@.len(),
        s@[a as int] == '(',
    ensures
        r == arguments_end(s@, a as int, 0),
        a <= r <= s@.len(),
{
    let mut depth: usize = 0;
    let mut j: usize = a;
    while j < s.len()
        invariant
            a <= j <= s@.len(),
            s@[a as int] == '(',
            depth <= j - a,
            j > a ==> depth >= 1,
            arguments_end(s@, a as int, 0) == arguments_end(s@, j as int, depth as int),
        decreases s@.len() - j,
    {
        if s[j] == ')' && depth == 1 {
            return j + 1;
        }
        if s[j] == '(' {
            depth = depth + 1;
        } else if s[j] == ')' {
            depth = depth - 1;
        }
        j = j + 1;
    }
    j
}

/// A selector without its pseudo-classes and pseudo-elements.
pub fn strip_pseudo(s: &[char]) -> (r: Vec<char>)
    ensures
        r@ == spec_strip_pseudo(s@),
{
    let mut out: Vec<char> = Vec::new();
    let mut i: usize = 0;
    while i < s.len()
        invariant
            i <= s@.len(),
            out@ + stripped_from(s@, i as int) == stripped_from(s@, 0),
        decreases s@.len() - i,
    {
        let ghost before = out@;
        let ghost at = i as int;
        if s[i] == ':' {
            let j = pseudo_end_of(s, i + 1);
            i = if j < s.len() && s[j] == '(' {
                proof {
                    lemma_arguments_end(s@, j as int, 0);
                }
                arguments_end_of(s, j)
            } else {
                j
            };
        } else if s[i] == '"' || s[i] == '\'' {
            let e = match find_char(s, s[i], i + 1) {
                Some(k) => k + 1,
                None => s.len(),
            };
            put(&mut out, &s[i..e]);
            i = e;
            assert(out@ + stripped_from(s@, i as int) =~= before + stripped_from(s@, at));
        } else {
            put(&mut out, &s[i..i + 1]);
            i = i + 1;
            assert(out@ + stripped_from(s@, i as int) =~= before + stripped_from(s@, at));
        }
    }
    assert(out@ + stripped_from(s@, i as int) =~= out@);
    out
}

/// A selector's base matches something: one with no base does, and those of
/// `matched` do.
pub open spec fn base_used(sel: Seq<char>, matched: Seq<Seq<char>>) -> bool {
    let base = text::spec_trim(spec_strip_pseudo(sel));
    base.len() == 0 || matched.contains(base)
}

/// One of the selectors of a rule matches something.
pub open spec fn spec_rule_used(prelude: Seq<char>, matched: Seq<Seq<char>>) -> bool {
    let v = css::spec_split_top_level(prelude, ',');
    exists|i: int| 0 <= i < v.len() && base_used(#[trigger] v[i], matched)
}

fn rule_used(prelude: &[char], matched: &Vec<String>) -> (r: bool)
    ensures
        r == spec_rule_used(prelude@, text::strs(matched@)),
{
    let v = split_top_level(prelude, ',');
    let ghost all = css::spec_split_top_level(prelude@, ',');
    let mut i: usize = 0;
    while i < v.len()
        invariant
            i <= v@.len(),
            all == css::spec_split_top_level(prelude@, ','),
            text::texts(v@) == all,
            forall|k: int| 0 <= k < i ==> !base_used(#[trigger] all[k], text::strs(matched@)),
        decreases v@.len() - i,
    {
        assert(all[i as int] == v@[i as int]@);
        let stripped = strip_pseudo(&v[i]);
        let base = trim(&stripped);
        if base.len() == 0 || strs_have(matched, base) {
            assert(base_used(all[i as int], text::strs(matched@)));
            return true;
        }
        i = i + 1;
    }
    false
}

/// The bases of the first `n` selectors that have one.
pub open spec fn bases_to(v: Seq<Seq<char>>, n: int) -> Seq<Seq<char>>
    decreases n,
{
    if n <= 0 {
        Seq::empty()
    } else {
        let base = text::spec_trim(spec_strip_pseudo(v[n - 1]));
        if base.len() == 0 {
            bases_to(v, n - 1)
        } else {
            bases_to(v, n - 1).push(base)
        }
    }
}

/// The bases of the selectors of the stylesheet text from `i` up to `b`.
pub open spec fn bases_from(t: Seq<char>, i: int, b: int) -> Seq<Seq<char>>
    decreases b - i,
{
    if i < 0 || i >= b || b > t.len() {
        Seq::empty()
    } else if text::is_ascii_white(t[i]) || t[i] == '}' || t[i] == ';' {
        bases_from(t, i + 1, b)
    } else {
        let item = css::item_at(t, i, b);
        proof {
            css::lemma_item_at(t, i, b);
        }
        match item.kind {
            CssKind::Rule { prelude, .. } => {
                let v = css::spec_split_top_level(t.subrange(prelude.0, prelude.1), ',');
                bases_to(v, v.len() as int) + bases_from(t, item.end, b)
            },
            CssKind::Group { inner, .. } => bases_from(t, inner.0, inner.1) + bases_from(
                t,
                item.end,
                b,
            ),
            _ => bases_from(t, item.end, b),
        }
    }
}

fn add_bases(prelude: &[char], out: &mut Vec<Vec<char>>)
    ensures
        ({
            let v = css::spec_split_top_level(prelude@, ',');
            text::texts(final(out)@) == text::texts(old(out)@) + bases_to(v, v.len() as int)
        }),
{
    let v = split_top_level(prelude, ',');
    let ghost all = css::spec_split_top_level(prelude@, ',');
    let ghost first = text::texts(out@);
    let mut i: usize = 0;
    assert(text::texts(out@) =~= first + bases_to(all, 0));
    while i < v.len()
        invariant
            i <= v@.len(),
            text::texts(v@) == all,
            text::texts(out@) == first + bases_to(all, i as int),
        decreases v@.len() - i,
    {
        assert(all[i as int] == v@[i as int]@);
        let stripped = strip_pseudo(&v[i]);
        let base = trim(&stripped);
        if base.len() > 0 {
            let ghost bv = base@;
            let ghost so_far = bases_to(all, i as int);
            add_text(out, copy(base));
            assert((first + so_far).push(bv) =~= first + so_far.push(bv));
        }
        i = i + 1;
    }
    assert(text::texts(v@).len() == v@.len());
}

fn add_bases_within(t: &[char], a: usize, b: usize, out: &mut Vec<Vec<char>>)
    requires
        a <= b <= t@.len(),
    ensures
        text::texts(final(out)@) == text::texts(old(out)@) + bases_from(t@, a as int, b as int),
    decreases b - a,
{
    let ghost all = text::texts(out@) + bases_from(t@, a as int, b as int);
    let mut i: usize = a;
    while i < b
        invariant
            a <= i <= b <= t@.len(),
            text::texts(out@) + bases_from(t@, i as int, b as int) == all,
        decreases b - i,
    {
        if ascii_white(t[i]) || t[i] == '}' || t[i] == ';' {
            i = i + 1;
        } else {
            proof {
                css::lemma_item_at(t@, i as int, b as int);
            }
            let item = item_of(t, i, b);
            let ghost before = text::texts(out@);
            let ghost rest = bases_from(t@, item.end as int, b as int);
            match item.kind {
                Kind::Rule { prelude, .. } => {
                    add_bases(&t[prelude.0..prelude.1], out);
                    let ghost v = css::spec_split_top_level(
                        t@.subrange(prelude.0 as int, prelude.1 as int),
                        ',',
                    );
                    assert(before + (bases_to(v, v.len() as int) + rest) =~= text::texts(out@)
                        + rest);
                },
                Kind::Group { inner, .. } => {
                    add_bases_within(t, inner.0, inner.1, out);
                    assert(before + (bases_from(t@, inner.0 as int, inner.1 as int) + rest)
                        =~= text::texts(out@) + rest);
                },
                _ => {},
            }
            i = item.end;
        }
    }
    assert(text::texts(out@) + bases_from(t@, i as int, b as int) =~= text::texts(out@));
}

// ---------------------------------------------------------------- unused rules

/// Every item that is no comment is cut whole.
pub open spec fn all_cut(v: Seq<CssItem>, cut: Seq<(int, int)>) -> bool {
    forall|k: int|
        0 <= k < v.len() && !((#[trigger] v[k]).kind is Comment) ==> cut.contains(
            (v[k].start, v[k].end),
        )
}

/// How many of the first `n` items are no comments.
pub open spec fn not_comments(v: Seq<CssItem>, n: int) -> int
    decreases n,
{
    if n <= 0 {
        0
    } else {
        not_comments(v, n - 1) + if v[n - 1].kind is Comment {
            0int
        } else {
            1
        }
    }
}

/// Where the rules that nothing matches stand, from `i` up to `b`. Of a group
/// whose every item is such a rule, or such a group, the group itself.
pub open spec fn unused_from(t: Seq<char>, i: int, b: int, matched: Seq<Seq<char>>) -> Seq<
    (int, int),
>
    decreases b - i,
{
    if i < 0 || i >= b || b > t.len() {
        Seq::empty()
    } else if text::is_ascii_white(t[i]) || t[i] == '}' || t[i] == ';' {
        unused_from(t, i + 1, b, matched)
    } else {
        let item = css::item_at(t, i, b);
        proof {
            css::lemma_item_at(t, i, b);
        }
        match item.kind {
            CssKind::Rule { prelude, .. } => if spec_rule_used(
                t.subrange(prelude.0, prelude.1),
                matched,
            ) {
                unused_from(t, item.end, b, matched)
            } else {
                seq![(item.start, item.end)] + unused_from(t, item.end, b, matched)
            },
            CssKind::Group { inner, .. } => {
                let inside = unused_from(t, inner.0, inner.1, matched);
                let body = css::scan_from(t, inner.0, inner.1);
                let n = not_comments(body, body.len() as int);
                if n > 0 && all_cut(body, inside) {
                    seq![(item.start, item.end)] + unused_from(t, item.end, b, matched)
                } else {
                    inside + unused_from(t, item.end, b, matched)
                }
            },
            _ => unused_from(t, item.end, b, matched),
        }
    }
}

/// Where the rules of a stylesheet that nothing matches stand.
pub open spec fn spec_unused_spans(t: Seq<char>, matched: Seq<Seq<char>>) -> Seq<(int, int)> {
    unused_from(t, 0, t.len() as int, matched)
}

/// The spans of a vector.
pub open spec fn spans(v: Seq<(usize, usize)>) -> Seq<(int, int)> {
    v.map_values(|s: (usize, usize)| (s.0 as int, s.1 as int))
}

/// Each span stands in the text from `a` up to `b`.
pub open spec fn spans_fit(v: Seq<(usize, usize)>, a: int, b: int) -> bool {
    forall|i: int| 0 <= i < v.len() ==> a <= (#[trigger] v[i]).0 && v[i].0 < v[i].1 && v[i].1 <= b
}

fn not_comments_of(v: &Vec<Item>) -> (r: usize)
    ensures
        r == not_comments(css::items(v@), v@.len() as int),
{
    let ghost all = css::items(v@);
    let mut n: usize = 0;
    let mut i: usize = 0;
    while i < v.len()
        invariant
            i <= v@.len(),
            all == css::items(v@),
            n <= i,
            n == not_comments(all, i as int),
        decreases v@.len() - i,
    {
        assert(all[i as int] == v@[i as int]@);
        match &v[i].kind {
            Kind::Comment => {},
            _ => {
                n = n + 1;
            },
        }
        i = i + 1;
    }
    n
}

fn has_span(v: &Vec<(usize, usize)>, a: usize, b: usize) -> (r: bool)
    ensures
        r == spans(v@).contains((a as int, b as int)),
{
    let mut i: usize = 0;
    while i < v.len()
        invariant
            i <= v@.len(),
            forall|k: int| 0 <= k < i ==> #[trigger] spans(v@)[k] != (a as int, b as int),
        decreases v@.len() - i,
    {
        assert(spans(v@)[i as int] == (v@[i as int].0 as int, v@[i as int].1 as int));
        if v[i].0 == a && v[i].1 == b {
            return true;
        }
        i = i + 1;
    }
    assert(spans(v@).len() == v@.len());
    false
}

fn all_cut_of(v: &Vec<Item>, cut: &Vec<(usize, usize)>) -> (r: bool)
    ensures
        r == all_cut(css::items(v@), spans(cut@)),
{
    let ghost all = css::items(v@);
    let mut i: usize = 0;
    while i < v.len()
        invariant
            i <= v@.len(),
            all == css::items(v@),
            all.len() == v@.len(),
            forall|k: int|
                0 <= k < i && !((#[trigger] all[k]).kind is Comment) ==> spans(cut@).contains(
                    (all[k].start, all[k].end),
                ),
        decreases v@.len() - i,
    {
        assert(all[i as int] == v@[i as int]@);
        let comment = match &v[i].kind {
            Kind::Comment => true,
            _ => false,
        };
        if !comment && !has_span(cut, v[i].start, v[i].end) {
            return false;
        }
        i = i + 1;
    }
    true
}

fn add_spans(out: &mut Vec<(usize, usize)>, more: &Vec<(usize, usize)>)
    ensures
        final(out)@ == old(out)@ + more@,
{
    let ghost first = out@;
    let mut i: usize = 0;
    while i < more.len()
        invariant
            i <= more@.len(),
            out@ == first + more@.take(i as int),
        decreases more@.len() - i,
    {
        out.push(more[i]);
        assert(more@.take(i + 1) =~= more@.take(i as int).push(more@[i as int]));
        i = i + 1;
    }
    assert(more@.take(more@.len() as int) =~= more@);
}

fn unused_within(t: &[char], a: usize, b: usize, matched: &Vec<String>) -> (r: Vec<(usize, usize)>)
    requires
        a <= b <= t@.len(),
    ensures
        spans(r@) == unused_from(t@, a as int, b as int, text::strs(matched@)),
        spans_fit(r@, a as int, b as int),
    decreases b - a,
{
    let ghost ms = text::strs(matched@);
    let ghost all = unused_from(t@, a as int, b as int, ms);
    let mut out: Vec<(usize, usize)> = Vec::new();
    let mut i: usize = a;
    assert(spans(out@) + all =~= all);
    while i < b
        invariant
            a <= i <= b <= t@.len(),
            ms == text::strs(matched@),
            spans(out@) + unused_from(t@, i as int, b as int, ms) == all,
            spans_fit(out@, a as int, b as int),
        decreases b - i,
    {
        if ascii_white(t[i]) || t[i] == '}' || t[i] == ';' {
            i = i + 1;
        } else {
            proof {
                css::lemma_item_at(t@, i as int, b as int);
            }
            let item = item_of(t, i, b);
            let ghost before = spans(out@);
            let ghost rest = unused_from(t@, item.end as int, b as int, ms);
            let ghost own = (item.start as int, item.end as int);
            match item.kind {
                Kind::Rule { prelude, .. } => {
                    if !rule_used(&t[prelude.0..prelude.1], matched) {
                        out.push((item.start, item.end));
                        assert(before + (seq![own] + rest) =~= spans(out@) + rest);
                    }
                },
                Kind::Group { inner, .. } => {
                    let inside = unused_within(t, inner.0, inner.1, matched);
                    let body = scan_within(t, inner.0, inner.1);
                    let n = not_comments_of(&body);
                    assert(css::items(body@).len() == body@.len());
                    if n > 0 && all_cut_of(&body, &inside) {
                        out.push((item.start, item.end));
                        assert(before + (seq![own] + rest) =~= spans(out@) + rest);
                    } else {
                        let ghost was = out@;
                        add_spans(&mut out, &inside);
                        assert(before + (spans(inside@) + rest) =~= spans(out@) + rest);
                        assert forall|k: int| 0 <= k < out@.len() implies a <= (#[trigger] out@[k]).0
                            && out@[k].0 < out@[k].1 && out@[k].1 <= b by {
                            if k >= was.len() {
                                assert(out@[k] == inside@[k - was.len()]);
                            } else {
                                assert(out@[k] == was[k]);
                            }
                        }
                    }
                },
                _ => {},
            }
            i = item.end;
        }
    }
    assert(spans(out@) + unused_from(t@, i as int, b as int, ms) =~= spans(out@));
    out
}

/// How many line ends stand before `n`.
pub open spec fn lines_before(t: Seq<char>, n: int) -> int
    decreases n,
{
    if n <= 0 {
        0
    } else {
        lines_before(t, n - 1) + if t[n - 1] == '\n' {
            1int
        } else {
            0
        }
    }
}

fn lines_before_of(t: &[char], n: usize) -> (r: usize)
    requires
        n <= t@.len(),
    ensures
        r == lines_before(t@, n as int),
        r <= n,
{
    let mut c: usize = 0;
    let mut i: usize = 0;
    while i < n
        invariant
            i <= n <= t@.len(),
            c <= i,
            c == lines_before(t@, i as int),
        decreases n - i,
    {
        if t[i] == '\n' {
            c = c + 1;
        }
        i = i + 1;
    }
    c
}

/// The rule that stands from `a` to `b` as it is reported.
pub open spec fn reported(sheet: Seq<char>, t: Seq<char>, a: int, b: int) -> Unused {
    let rule = t.subrange(a, b);
    let prelude = match text::spec_find_char(rule, '{', 0) {
        Some(k) => rule.subrange(0, k),
        None => rule,
    };
    Unused {
        sheet,
        selector: css::spec_collapse_space(text::spec_trim(prelude)),
        line: lines_before(t, a) + 1,
    }
}

/// The first `n` spans as they are reported.
pub open spec fn reported_to(sheet: Seq<char>, t: Seq<char>, v: Seq<(int, int)>, n: int) -> Seq<
    Unused,
>
    decreases n,
{
    if n <= 0 {
        Seq::empty()
    } else {
        reported_to(sheet, t, v, n - 1).push(reported(sheet, t, v[n - 1].0, v[n - 1].1))
    }
}

/// The unused rules of the first `n` listed members.
pub open spec fn unused_to(p: Seq<Part>, v: Seq<Listed>, matched: Seq<Seq<char>>, n: int) -> Seq<
    Unused,
>
    decreases n,
{
    if n <= 0 {
        Seq::empty()
    } else {
        let before = unused_to(p, v, matched, n - 1);
        match package::spec_text(p, v[n - 1].path) {
            Some(t) if v[n - 1].role == MemberRole::Style => {
                let s = spec_unused_spans(t, matched);
                before + reported_to(v[n - 1].path, t, s, s.len() as int)
            },
            _ => before,
        }
    }
}

/// The rules of a package's stylesheets that nothing matches.
pub open spec fn spec_unused_css(p: Seq<Part>, matched: Seq<Seq<char>>) -> Result<
    Seq<Unused>,
    Fault,
> {
    match manifest::spec_members(p) {
        Err(f) => Err(f),
        Ok(v) => Ok(unused_to(p, v, matched, v.len() as int)),
    }
}

pub open spec fn unused_result(r: Result<Vec<UnusedRule>, Error>) -> Result<Seq<Unused>, Fault> {
    match r {
        Ok(v) => Ok(rules(v@)),
        Err(e) => Err(e@),
    }
}

fn report(sheet: &String, t: &[char], a: usize, b: usize) -> (r: UnusedRule)
    requires
        a < b <= t@.len(),
    ensures
        r@ == reported(sheet@, t@, a as int, b as int),
{
    let rule = &t[a..b];
    let prelude: &[char] = match find_char(rule, '{', 0) {
        Some(k) => &rule[0..k],
        None => rule,
    };
    UnusedRule {
        sheet: sheet.clone(),
        selector: string_of(&collapse_space(trim(prelude))),
        line: lines_before_of(t, a) + 1,
    }
}

fn report_all(sheet: &String, t: &[char], v: &Vec<(usize, usize)>, out: &mut Vec<UnusedRule>)
    requires
        spans_fit(v@, 0, t@.len() as int),
    ensures
        rules(final(out)@) == rules(old(out)@) + reported_to(
            sheet@,
            t@,
            spans(v@),
            v@.len() as int,
        ),
{
    let ghost first = rules(out@);
    let ghost all = spans(v@);
    let mut i: usize = 0;
    assert(rules(out@) =~= first + reported_to(sheet@, t@, all, 0));
    while i < v.len()
        invariant
            i <= v@.len(),
            all == spans(v@),
            spans_fit(v@, 0, t@.len() as int),
            rules(out@) == first + reported_to(sheet@, t@, all, i as int),
        decreases v@.len() - i,
    {
        assert(all[i as int] == (v@[i as int].0 as int, v@[i as int].1 as int));
        let rule = report(sheet, t, v[i].0, v[i].1);
        let ghost rv = rule@;
        let ghost before = rules(out@);
        out.push(rule);
        assert(rules(out@) =~= before.push(rv));
        let ghost so_far = reported_to(sheet@, t@, all, i as int);
        assert((first + so_far).push(rv) =~= first + so_far.push(rv));
        i = i + 1;
    }
}

/// The rules of the package's stylesheets that nothing matches, where `matched`
/// holds the base selectors that match an element of a content document.
pub fn unused_css(pkg: &EpubPackage, matched: &Vec<String>) -> (r: Result<Vec<UnusedRule>, Error>)
    ensures
        unused_result(r) == spec_unused_css(pkg@, text::strs(matched@)),
{
    let v = match members(pkg) {
        Ok(v) => v,
        Err(e) => {
            return Err(e);
        },
    };
    let ghost all = manifest::listed(v@);
    let ghost ms = text::strs(matched@);
    let mut out: Vec<UnusedRule> = Vec::new();
    let mut i: usize = 0;
    assert(rules(out@) =~= Seq::<Unused>::empty());
    while i < v.len()
        invariant
            i <= v@.len(),
            all == manifest::listed(v@),
            ms == text::strs(matched@),
            rules(out@) == unused_to(pkg@, all, ms, i as int),
        decreases v@.len() - i,
    {
        assert(all[i as int] == v@[i as int]@);
        let m = &v[i];
        if m.role == MemberRole::Style {
            if let Some(css) = member_text(pkg, &m.path) {
                let t = chars_of(&css);
                let found = unused_within(&t, 0, t.len(), matched);
                assert(spans(found@).len() == found@.len());
                report_all(&m.path, &t, &found, &mut out);
            }
        }
        i = i + 1;
    }
    Ok(out)
}

// ---------------------------------------------------------------- selectors to ask for

/// The base selectors of the first `n` listed members.
pub open spec fn asked_to(p: Seq<Part>, v: Seq<Listed>, n: int) -> Seq<Seq<char>>
    decreases n,
{
    if n <= 0 {
        Seq::empty()
    } else {
        let before = asked_to(p, v, n - 1);
        match package::spec_text(p, v[n - 1].path) {
            Some(t) if v[n - 1].role == MemberRole::Style => before + bases_from(
                t,
                0,
                t.len() as int,
            ),
            _ => before,
        }
    }
}

/// The base selectors of a package's stylesheets.
pub open spec fn spec_base_selectors(p: Seq<Part>) -> Result<Seq<Seq<char>>, Fault> {
    match manifest::spec_members(p) {
        Err(f) => Err(f),
        Ok(v) => Ok(asked_to(p, v, v.len() as int)),
    }
}

pub open spec fn strs_result(r: Result<Vec<String>, Error>) -> Result<Seq<Seq<char>>, Fault> {
    match r {
        Ok(v) => Ok(text::strs(v@)),
        Err(e) => Err(e@),
    }
}

/// The selectors of the package's stylesheets without pseudo-classes and
/// pseudo-elements, in order: what is to be matched against the content
/// documents.
pub fn base_selectors(pkg: &EpubPackage) -> (r: Result<Vec<String>, Error>)
    ensures
        strs_result(r) == spec_base_selectors(pkg@),
{
    let v = match members(pkg) {
        Ok(v) => v,
        Err(e) => {
            return Err(e);
        },
    };
    let ghost all = manifest::listed(v@);
    let mut out: Vec<Vec<char>> = Vec::new();
    let mut i: usize = 0;
    assert(text::texts(out@) =~= Seq::<Seq<char>>::empty());
    while i < v.len()
        invariant
            i <= v@.len(),
            all == manifest::listed(v@),
            text::texts(out@) == asked_to(pkg@, all, i as int),
        decreases v@.len() - i,
    {
        assert(all[i as int] == v@[i as int]@);
        let m = &v[i];
        if m.role == MemberRole::Style {
            if let Some(css) = member_text(pkg, &m.path) {
                let t = chars_of(&css);
                add_bases_within(&t, 0, t.len(), &mut out);
            }
        }
        i = i + 1;
    }
    Ok(strings_of(&out))
}

// ---------------------------------------------------------------- removing

/// The end of a line that follows spaces and tabs at `i`, where one does.
pub open spec fn line_tail(t: Seq<char>, i: int) -> Option<int>
    decreases t.len() - i,
{
    if i < 0 || i >= t.len() {
        None
    } else if t[i] == ' ' || t[i] == '\t' {
        line_tail(t, i + 1)
    } else if t[i] == '\n' {
        Some(i + 1)
    } else if t[i] == '\r' && i + 1 < t.len() && t[i + 1] == '\n' {
        Some(i + 2)
    } else {
        None
    }
}

/// What is cut for a rule that stands from `a` to `b`, where the text up to
/// `pos` is dealt with: its line, where it stands alone on it.
pub open spec fn cut_span(t: Seq<char>, pos: int, a: int, b: int) -> (int, int) {
    let line = manifest::line_start(t, a);
    match line_tail(t, b) {
        Some(e) if text::all_white(t.subrange(line, a)) => (
            if line < pos {
                pos
            } else {
                line
            },
            e,
        ),
        _ => (a, b),
    }
}

/// The text from `pos` on without the spans from `i` on.
pub open spec fn cut_spans(t: Seq<char>, v: Seq<(int, int)>, pos: int, i: int) -> Seq<char>
    decreases v.len() - i,
{
    if i < 0 || i >= v.len() {
        t.subrange(pos, t.len() as int)
    } else if v[i].0 < pos {
        cut_spans(t, v, pos, i + 1)
    } else {
        let (a, b) = cut_span(t, pos, v[i].0, v[i].1);
        t.subrange(pos, a) + cut_spans(t, v, b, i + 1)
    }
}

fn line_tail_of(t: &[char], a: usize) -> (r: Option<usize>)
    requires
        a <= t@.len(),
    ensures
        text::pos(r) == line_tail(t@, a as int),
        r matches Some(e) ==> a < e <= t@.len(),
{
    let n = t.len();
    let mut i: usize = a;
    while i < n && (t[i] == ' ' || t[i] == '\t')
        invariant
            a <= i <= n == t@.len(),
            line_tail(t@, a as int) == line_tail(t@, i as int),
        decreases n - i,
    {
        i = i + 1;
    }
    if i >= n {
        None
    } else if t[i] == '\n' {
        Some(i + 1)
    } else if t[i] == '\r' && i < n - 1 && t[i + 1] == '\n' {
        Some(i + 2)
    } else {
        None
    }
}

fn cut(t: &[char], v: &Vec<(usize, usize)>) -> (r: Vec<char>)
    requires
        spans_fit(v@, 0, t@.len() as int),
    ensures
        r@ == cut_spans(t@, spans(v@), 0, 0),
{
    let ghost all = spans(v@);
    let mut out: Vec<char> = Vec::new();
    let mut pos: usize = 0;
    let mut i: usize = 0;
    while i < v.len()
        invariant
            i <= v@.len(),
            all == spans(v@),
            pos <= t@.len(),
            spans_fit(v@, 0, t@.len() as int),
            out@ + cut_spans(t@, all, pos as int, i as int) == cut_spans(t@, all, 0, 0),
        decreases v@.len() - i,
    {
        assert(all[i as int] == (v@[i as int].0 as int, v@[i as int].1 as int));
        let (a, b) = v[i];
        if a >= pos {
            let line = line_start_of(t, a);
            let ghost before = out@;
            let ghost was = pos as int;
            let mut from = a;
            let mut to = b;
            if blank(&t[line..a]) {
                if let Some(e) = line_tail_of(t, b) {
                    from = if line < pos {
                        pos
                    } else {
                        line
                    };
                    to = e;
                }
            }
            put(&mut out, &t[pos..from]);
            pos = to;
            assert(out@ + cut_spans(t@, all, pos as int, i + 1) =~= before + cut_spans(
                t@,
                all,
                was,
                i as int,
            ));
        }
        i = i + 1;
    }
    put(&mut out, &t[pos..t.len()]);
    out
}

/// A package in the course of a removal: its members, the changes so far, and
/// how many rules were removed.
#[verifier::ext_equal]
pub struct Removal {
    pub p: Seq<Part>,
    pub log: Log,
    pub removed: int,
}

/// The removal in the first `n` listed members.
pub open spec fn removed_to(p: Seq<Part>, v: Seq<Listed>, matched: Seq<Seq<char>>, n: int) -> Removal
    decreases n,
{
    if n <= 0 {
        Removal { p, log: edit::no_changes(), removed: 0 }
    } else {
        let s = removed_to(p, v, matched, n - 1);
        match package::spec_text(s.p, v[n - 1].path) {
            Some(t) if v[n - 1].role == MemberRole::Style => {
                let found = spec_unused_spans(t, matched);
                if found.len() == 0 {
                    s
                } else {
                    Removal {
                        p: edit::spec_replace(
                            s.p,
                            v[n - 1].path,
                            vstd::utf8::encode_utf8(cut_spans(t, found, 0, 0)),
                        ),
                        log: s.log.touched(v[n - 1].path),
                        removed: s.removed + found.len(),
                    }
                }
            },
            _ => s,
        }
    }
}

/// What comes back of a removal, and the package then.
pub open spec fn spec_remove_unused_css(p: Seq<Part>, matched: Seq<Seq<char>>) -> (
    Result<Log, Fault>,
    Seq<Part>,
) {
    match manifest::spec_members(p) {
        Err(f) => (Err(f), p),
        Ok(v) => {
            let s = removed_to(p, v, matched, v.len() as int);
            (
                Ok(
                    if s.log.changed.len() == 0 {
                        s.log.noted("every rule matches something"@)
                    } else {
                        s.log.noted(
                            text::decimal(s.removed as nat) + " unused rule(s) removed"@,
                        )
                    },
                ),
                s.p,
            )
        },
    }
}

/// Cuts the rules that nothing matches from the package's stylesheets, where
/// `matched` holds the base selectors that match an element of a content
/// document.
pub fn remove_unused_css(pkg: &mut EpubPackage, matched: &Vec<String>) -> (r: Result<
    Changes,
    Error,
>)
    ensures
        split_doc::outcome(r, final(pkg)@) == spec_remove_unused_css(
            old(pkg)@,
            text::strs(matched@),
        ),
{
    let v = match members(pkg) {
        Ok(v) => v,
        Err(e) => {
            return Err(e);
        },
    };
    let ghost all = manifest::listed(v@);
    let ghost ms = text::strs(matched@);
    let mut changes = Changes::default();
    let mut removed: u128 = 0;
    let mut i: usize = 0;
    while i < v.len()
        invariant
            i <= v@.len(),
            all == manifest::listed(v@),
            ms == text::strs(matched@),
            removed <= i * (usize::MAX as int),
            removed_to(old(pkg)@, all, ms, i as int) == (Removal {
                p: pkg@,
                log: changes@,
                removed: removed as int,
            }),
            changes@.added.len() == 0,
            changes@.removed.len() == 0,
        decreases v@.len() - i,
    {
        assert(all[i as int] == v@[i as int]@);
        proof {
            text::lemma_count(i as int, removed as int, 0);
        }
        let m = &v[i];
        if m.role == MemberRole::Style {
            if let Some(css) = member_text(pkg, &m.path) {
                let t = chars_of(&css);
                let found = unused_within(&t, 0, t.len(), matched);
                assert(spans(found@).len() == found@.len());
                if found.len() > 0 {
                    proof {
                        text::lemma_count(
                            i as int,
                            removed as int,
                            found@.len() as int,
                        );
                    }
                    removed = removed + found.len() as u128;
                    let out = string_of(&cut(&t, &found));
                    pkg.replace(&m.path, bytes_of(&out));
                    changes.touch(&m.path);
                }
            }
        }
        i = i + 1;
    }
    assert(all.len() == v@.len());
    if changes.is_empty() {
        changes.note("every rule matches something");
    } else {
        let mut note = decimal_of_sum(removed);
        put_str(&mut note, " unused rule(s) removed");
        changes.note(&string_of(&note));
    }
    Ok(changes)
}

proof fn lemma_removal_accounted(p: Seq<Part>, v: Seq<Listed>, matched: Seq<Seq<char>>, n: int)
    ensures
        edit::accounts_for(removed_to(p, v, matched, n).log, p, removed_to(p, v, matched, n).p),
    decreases n,
{
    if n > 0 {
        lemma_removal_accounted(p, v, matched, n - 1);
        let s = removed_to(p, v, matched, n - 1);
        let path = v[n - 1].path;
        if let Some(t) = package::spec_text(s.p, path) {
            let found = spec_unused_spans(t, matched);
            edit::lemma_accounts_replace(
                s.log,
                p,
                s.p,
                path,
                vstd::utf8::encode_utf8(cut_spans(t, found, 0, 0)),
            );
        }
    }
}

/// A removal accounts for what it does: a member that the changes do not name
/// keeps its content.
pub proof fn a_removal_accounts_for_its_changes(p: Seq<Part>, matched: Seq<Seq<char>>)
    ensures
        spec_remove_unused_css(p, matched).0 matches Ok(log) ==> edit::accounts_for(
            log,
            p,
            spec_remove_unused_css(p, matched).1,
        ),
{
    if let Ok(v) = manifest::spec_members(p) {
        let s = removed_to(p, v, matched, v.len() as int);
        lemma_removal_accounted(p, v, matched, v.len() as int);
        edit::lemma_accounts_note(s.log, p, s.p, "every rule matches something"@);
        edit::lemma_accounts_note(
            s.log,
            p,
            s.p,
            text::decimal(s.removed as nat) + " unused rule(s) removed"@,
        );
    }
}

} // verus!
