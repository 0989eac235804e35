//! No annotation takes text of its line away: what a rule captures of it stays, and only
//! tags are set around it.
use vstd::prelude::*;

use crate::aozora::notation::{Fill, Rule};
use crate::aozora::{line, notation};
use crate::{creators_read_back, text, toc};

verus! {

// ---------------------------------------------------------------- patterns

/// A group that captures is opened at `k`.
pub open spec fn captures_at(p: Seq<char>, k: int) -> bool {
    0 <= k < p.len() && p[k] == '(' && (k + 1 < p.len() ==> p[k + 1] != '?')
}

/// The last of the groups by which a pattern captures source text: the first or the
/// second, none where it captures nothing. One before it tells how the text is set.
pub open spec fn kept_group(p: Seq<char>) -> int {
    if exists|j: int, k: int| #[trigger] captures_at(p, j) && #[trigger] captures_at(p, k) && j < k {
        2
    } else if exists|k: int| #[trigger] captures_at(p, k) {
        1
    } else {
        0
    }
}

// ---------------------------------------------------------------- tags

/// The start tag of an element.
pub open spec fn element_start(name: Seq<char>, attrs: Seq<char>) -> Seq<char> {
    seq!['<'] + name + attrs + seq!['>']
}

pub open spec fn element_end(name: Seq<char>) -> Seq<char> {
    seq!['<', '/'] + name + seq!['>']
}

/// A name of small letters.
pub open spec fn is_tag_name(name: Seq<char>) -> bool {
    name.len() > 0 && forall|k: int| 0 <= k < name.len() ==> 'a' <= #[trigger] name[k] <= 'z'
}

pub open spec fn is_attributes(attrs: Seq<char>) -> bool {
    (attrs.len() > 0 ==> attrs[0] == ' ') && !attrs.contains('>') && !attrs.contains('<')
}

/// The two texts open an element and close it, a line break before it aside.
pub open spec fn is_element(open: Seq<char>, close: Seq<char>) -> bool {
    exists|lead: Seq<char>, name: Seq<char>, attrs: Seq<char>|
        {
            &&& #[trigger] is_lead(lead)
            &&& is_tag_name(name)
            &&& is_attributes(attrs)
            &&& open == lead + #[trigger] element_start(name, attrs)
            &&& close == element_end(name)
        }
}

/// A line break, or nothing.
pub open spec fn is_lead(lead: Seq<char>) -> bool {
    lead.len() == 0 || lead == "<br/>"@
}

proof fn lemma_element(lead: Seq<char>, name: Seq<char>, attrs: Seq<char>)
    requires
        is_lead(lead),
        is_tag_name(name),
        is_attributes(attrs),
    ensures
        is_element(lead + element_start(name, attrs), element_end(name)),
{
}

// ---------------------------------------------------------------- text without tags

/// Every tag that starts in the text ends in it.
pub open spec fn is_whole(s: Seq<char>, i: int) -> bool
    decreases s.len() - i,
{
    if i < 0 || i >= s.len() {
        true
    } else if s[i] == '<' {
        match text::spec_find_char(s, '>', i) {
            Some(k) if i <= k < s.len() => is_whole(s, k + 1),
            _ => false,
        }
    } else {
        is_whole(s, i + 1)
    }
}

proof fn lemma_find_before(a: Seq<char>, b: Seq<char>, c: char, i: int)
    requires
        0 <= i,
        text::spec_find_char(a, c, i) is Some,
    ensures
        text::spec_find_char(a + b, c, i) == text::spec_find_char(a, c, i),
    decreases a.len() - i,
{
    if i < a.len() {
        assert((a + b)[i] == a[i]);
        if a[i] != c {
            lemma_find_before(a, b, c, i + 1);
        }
    }
}

proof fn lemma_shift(a: Seq<char>, b: Seq<char>, j: int)
    requires
        0 <= j <= b.len(),
    ensures
        toc::stripped_from(a + b, a.len() + j) == toc::stripped_from(b, j),
        is_whole(a + b, a.len() + j) == is_whole(b, j),
    decreases b.len() - j,
{
    let n = a.len() as int;
    if j < b.len() {
        assert((a + b)[n + j] == b[j]);
        if b[j] == '<' {
            text::lemma_find_char(b, '>', j);
            text::lemma_find_char_shift(a, b, '>', j);
            if let Some(k) = text::spec_find_char(b, '>', j) {
                lemma_shift(a, b, k + 1);
            }
        } else {
            lemma_shift(a, b, j + 1);
        }
    }
}

proof fn lemma_strip_from(a: Seq<char>, b: Seq<char>, i: int)
    requires
        is_whole(a, i),
        0 <= i <= a.len(),
    ensures
        toc::stripped_from(a + b, i) == toc::stripped_from(a, i) + toc::stripped_from(b, 0),
        is_whole(b, 0) ==> is_whole(a + b, i),
    decreases a.len() - i,
{
    let t = a + b;
    if i == a.len() {
        lemma_shift(a, b, 0);
        assert(toc::stripped_from(a, i) + toc::stripped_from(b, 0) =~= toc::stripped_from(b, 0));
    } else {
        assert(t[i] == a[i]);
        if a[i] == '<' {
            text::lemma_find_char(a, '>', i);
            lemma_find_before(a, b, '>', i);
            let k = text::spec_find_char(a, '>', i)->0;
            lemma_strip_from(a, b, k + 1);
        } else {
            lemma_strip_from(a, b, i + 1);
            assert(seq![a[i]] + (toc::stripped_from(a, i + 1) + toc::stripped_from(b, 0)) =~= seq![a[i]]
                + toc::stripped_from(a, i + 1) + toc::stripped_from(b, 0));
        }
    }
}

/// The text of two texts is the text of the one and then that of the other.
proof fn lemma_strip_join(a: Seq<char>, b: Seq<char>)
    requires
        is_whole(a, 0),
    ensures
        toc::spec_strip_tags(a + b) == toc::spec_strip_tags(a) + toc::spec_strip_tags(b),
        is_whole(b, 0) ==> is_whole(a + b, 0),
{
    lemma_strip_from(a, b, 0);
}

/// A tag has no text.
proof fn lemma_tag(c: Seq<char>)
    requires
        c.len() >= 2,
        c[0] == '<',
        c.last() == '>',
        forall|k: int| 0 <= k < c.len() - 1 ==> #[trigger] c[k] != '>',
    ensures
        toc::spec_strip_tags(c) == Seq::<char>::empty(),
        is_whole(c, 0),
{
    let n = c.len() as int;
    text::lemma_find_char(c, '>', 0);
    let k = text::spec_find_char(c, '>', 0)->0;
    assert(c[n - 1] == '>');
    assert(k == n - 1) by {
        if k < n - 1 {
            assert(c[k] != '>');
        }
    }
    assert(toc::stripped_from(c, n) =~= Seq::<char>::empty());
    assert(is_whole(c, n));
}

proof fn lemma_element_strips(open: Seq<char>, close: Seq<char>)
    requires
        is_element(open, close),
    ensures
        toc::spec_strip_tags(open) == Seq::<char>::empty(),
        toc::spec_strip_tags(close) == Seq::<char>::empty(),
        is_whole(open, 0),
        is_whole(close, 0),
{
    reveal_strlit("<br/>");
    let (lead, name, attrs) = choose|lead: Seq<char>, name: Seq<char>, attrs: Seq<char>|
        {
            &&& #[trigger] is_lead(lead)
            &&& is_tag_name(name)
            &&& is_attributes(attrs)
            &&& open == lead + #[trigger] element_start(name, attrs)
            &&& close == element_end(name)
        };
    let c = element_start(name, attrs);
    assert forall|k: int| 0 <= k < c.len() - 1 implies #[trigger] c[k] != '>' by {
        if 1 <= k < 1 + name.len() {
            assert(c[k] == name[k - 1]);
        } else if k > name.len() {
            assert(c[k] == attrs[k - 1 - name.len()]);
            assert(attrs.contains(attrs[k - 1 - name.len()]));
        }
    }
    lemma_tag(c);
    assert forall|k: int| 0 <= k < close.len() - 1 implies #[trigger] close[k] != '>' by {
        if k >= 2 {
            assert(close[k] == name[k - 2]);
        }
    }
    lemma_tag(close);
    if lead.len() > 0 {
        lemma_tag(lead);
        lemma_strip_join(lead, c);
        assert(toc::spec_strip_tags(lead) + toc::spec_strip_tags(c) =~= Seq::<char>::empty());
    } else {
        assert(lead + c =~= c);
    }
}

// ---------------------------------------------------------------- rules

/// What the rule writes of a match: which group of it, between which tags.
pub open spec fn is_faithful(r: Rule) -> bool {
    match r.fill {
        Fill::Drop => kept_group(r.pattern@) == 0,
        Fill::Wrap { open, group, close } => group == kept_group(r.pattern@) && group > 0 && is_element(
            open@,
            close@,
        ),
        Fill::Bigger | Fill::Smaller => kept_group(r.pattern@) == 2,
        _ => false,
    }
}

/// The text that a match leaves: of the group that captures text of the line.
pub open spec fn kept(p: Seq<char>, groups: Seq<Option<Seq<char>>>) -> Seq<char> {
    if kept_group(p) == 0 {
        Seq::empty()
    } else {
        notation::group(groups, kept_group(p))
    }
}

proof fn lemma_sized(n: nat, s: Seq<char>)
    requires
        is_whole(s, 0),
    ensures
        toc::spec_strip_tags(notation::sized(n, s)) == toc::spec_strip_tags(s),
        is_whole(notation::sized(n, s), 0),
{
    reveal_strlit("<span style=\"font-size:");
    reveal_strlit("em\">");
    reveal_strlit("</span>");
    reveal_strlit(".");
    let a = "<span style=\"font-size:"@;
    let d = notation::tenths(n);
    let b = "em\">"@;
    let e = "</span>"@;
    let none = Seq::<char>::empty();
    creators_read_back::lemma_digits(n / 10);
    creators_read_back::lemma_digits(n % 10);
    let x = text::decimal(n / 10);
    let y = text::decimal(n % 10);
    assert forall|k: int| 0 <= k < d.len() implies #[trigger] d[k] != '>' by {
        if k < x.len() {
            assert(d[k] == x[k]);
        } else if k > x.len() {
            assert(d[k] == y[k - x.len() - 1]);
        }
    }
    let c = a + d + b;
    assert forall|k: int| 0 <= k < c.len() - 1 implies #[trigger] c[k] != '>' by {
        if k < a.len() {
            assert(c[k] == a[k]);
        } else if k < a.len() + d.len() {
            assert(c[k] == d[k - a.len()]);
        } else {
            assert(c[k] == b[k - a.len() - d.len()]);
        }
    }
    lemma_tag(c);
    lemma_tag(e);
    lemma_strip_join(c, s);
    lemma_strip_join(c + s, e);
    assert(none + toc::spec_strip_tags(s) + none =~= toc::spec_strip_tags(s));
}

/// What is written in place of a match has the text that the match captured, and sets
/// nothing but tags around it.
proof fn lemma_filled(r: Rule, groups: Seq<Option<Seq<char>>>, gaiji: Seq<(String, String)>)
    requires
        is_faithful(r),
        is_whole(kept(r.pattern@, groups), 0),
    ensures
        toc::spec_strip_tags(notation::filled(r.fill, groups, gaiji)) == toc::spec_strip_tags(
            kept(r.pattern@, groups),
        ),
        is_whole(notation::filled(r.fill, groups, gaiji), 0),
{
    let none = Seq::<char>::empty();
    match r.fill {
        Fill::Drop => {},
        Fill::Wrap { open, group, close } => {
            let g = kept(r.pattern@, groups);
            lemma_element_strips(open@, close@);
            lemma_strip_join(open@, g);
            lemma_strip_join(open@ + g, close@);
            assert(none + toc::spec_strip_tags(g) + none =~= toc::spec_strip_tags(g));
        },
        Fill::Bigger => {
            lemma_sized(
                notation::size(true, notation::steps(notation::group(groups, 1))),
                kept(r.pattern@, groups),
            );
        },
        Fill::Smaller => {
            lemma_sized(
                notation::size(false, notation::steps(notation::group(groups, 1))),
                kept(r.pattern@, groups),
            );
        },
        _ => {},
    }
}

/// The text of a line that its matches leave, from the `i`-th on: what stands between
/// them, and what each captured.
pub open spec fn kept_from(
    p: Seq<char>,
    pieces: Seq<(Seq<char>, Seq<char>, Seq<Option<Seq<char>>>)>,
    i: int,
    tail: Seq<char>,
) -> Seq<char>
    decreases pieces.len() - i,
{
    if i < 0 || i >= pieces.len() {
        toc::spec_strip_tags(tail)
    } else {
        toc::spec_strip_tags(pieces[i].0) + (toc::spec_strip_tags(kept(p, pieces[i].2)) + kept_from(
            p,
            pieces,
            i + 1,
            tail,
        ))
    }
}

/// No match parts a tag.
pub open spec fn parts_no_tag(
    p: Seq<char>,
    pieces: Seq<(Seq<char>, Seq<char>, Seq<Option<Seq<char>>>)>,
) -> bool {
    forall|i: int|
        0 <= i < pieces.len() ==> is_whole((#[trigger] pieces[i]).0, 0) && is_whole(kept(p, pieces[i].2), 0)
}

proof fn lemma_kept_from(
    r: Rule,
    pieces: Seq<(Seq<char>, Seq<char>, Seq<Option<Seq<char>>>)>,
    i: int,
    tail: Seq<char>,
    gaiji: Seq<(String, String)>,
)
    requires
        is_faithful(r),
        parts_no_tag(r.pattern@, pieces),
        0 <= i <= pieces.len(),
    ensures
        toc::spec_strip_tags(notation::filled_from(r.fill, pieces, i, tail, gaiji)) == kept_from(
            r.pattern@,
            pieces,
            i,
            tail,
        ),
    decreases pieces.len() - i,
{
    if i < pieces.len() {
        lemma_kept_from(r, pieces, i + 1, tail, gaiji);
        let x = pieces[i];
        assert(is_whole(x.0, 0) && is_whole(kept(r.pattern@, x.2), 0));
        lemma_filled(r, x.2, gaiji);
        let f = notation::filled(r.fill, x.2, gaiji);
        let rest = notation::filled_from(r.fill, pieces, i + 1, tail, gaiji);
        lemma_strip_join(f, rest);
        lemma_strip_join(x.0, f + rest);
    }
}

/// A rule of the notation: of those for annotations that enclose text, or of those that
/// come last.
pub open spec fn is_rule(r: Rule) -> bool {
    line::spec_paired_rules().contains(r) || line::spec_closing_rules().contains(r)
}

/// No rule takes text of the line away but the annotations themselves: behind any rule,
/// the text is what stood between the matches and what each match captured of the line.
pub proof fn a_rule_keeps_what_it_captures(
    r: Rule,
    s: Seq<char>,
    mark: char,
    gaiji: Seq<(String, String)>,
)
    requires
        is_rule(r),
        parts_no_tag(r.pattern@, notation::looked(r.pattern@, s, mark).0),
    ensures
        toc::spec_strip_tags(notation::ruled(s, r, mark, gaiji)) == kept_from(
            r.pattern@,
            notation::looked(r.pattern@, s, mark).0,
            0,
            notation::looked(r.pattern@, s, mark).1,
        ),
{
    lemma_rule(r);
    let h = notation::looked(r.pattern@, s, mark);
    lemma_kept_from(r, h.0, 0, h.1, gaiji);
}

/// A rule whose pattern captures text of the line writes it, in an element of its own;
/// one that writes nothing captures nothing.
pub proof fn no_rule_drops_what_it_captures(r: Rule)
    requires
        is_rule(r),
    ensures
        is_faithful(r),
{
    lemma_rule(r);
}

proof fn lemma_rule(r: Rule)
    requires
        is_rule(r),
    ensures
        is_faithful(r),
{
    if line::spec_paired_rules().contains(r) {
        let i = choose|i: int| 0 <= i < line::spec_paired_rules().len() && line::spec_paired_rules()[i] == r;
        lemma_paired_rules(i);
    } else {
        let i = choose|i: int|
            0 <= i < line::spec_closing_rules().len() && line::spec_closing_rules()[i] == r;
        lemma_closing_rules(i);
    }
}

// ---------------------------------------------------------------- the patterns of the rules

proof fn lemma_pattern_0()
    ensures
        kept_group("［＃(?:ルビの)?「[^」]*」は底本では[^］]*］|［＃(?:「[^」]*」は)?ママ］"@) == 0,
{
    reveal_strlit("［＃(?:ルビの)?「[^」]*」は底本では[^］]*］|［＃(?:「[^」]*」は)?ママ］");
    let p = "［＃(?:ルビの)?「[^」]*」は底本では[^］]*］|［＃(?:「[^」]*」は)?ママ］"@;
    assert forall|k: int| !#[trigger] captures_at(p, k) by {}
}

proof fn lemma_pattern_1()
    ensures
        kept_group("［＃白ゴマ傍点］([^［]*)［＃白ゴマ傍点終わり］"@) == 1,
{
    reveal_strlit("［＃白ゴマ傍点］([^［]*)［＃白ゴマ傍点終わり］");
    let p = "［＃白ゴマ傍点］([^［]*)［＃白ゴマ傍点終わり］"@;
    assert(p[8] == '(' && p[9] != '?');
    assert forall|k: int| #[trigger] captures_at(p, k) implies k == 8 by {}
    assert(captures_at(p, 8));
}

proof fn lemma_pattern_2()
    ensures
        kept_group("［＃黒三角傍点］([^［]*)［＃黒三角傍点終わり］"@) == 1,
{
    reveal_strlit("［＃黒三角傍点］([^［]*)［＃黒三角傍点終わり］");
    let p = "［＃黒三角傍点］([^［]*)［＃黒三角傍点終わり］"@;
    assert(p[8] == '(' && p[9] != '?');
    assert forall|k: int| #[trigger] captures_at(p, k) implies k == 8 by {}
    assert(captures_at(p, 8));
}

proof fn lemma_pattern_3()
    ensures
        kept_group("［＃白三角傍点］([^［]*)［＃白三角傍点終わり］"@) == 1,
{
    reveal_strlit("［＃白三角傍点］([^［]*)［＃白三角傍点終わり］");
    let p = "［＃白三角傍点］([^［]*)［＃白三角傍点終わり］"@;
    assert(p[8] == '(' && p[9] != '?');
    assert forall|k: int| #[trigger] captures_at(p, k) implies k == 8 by {}
    assert(captures_at(p, 8));
}

proof fn lemma_pattern_4()
    ensures
        kept_group("［＃二重丸傍点］([^［]*)［＃二重丸傍点終わり］"@) == 1,
{
    reveal_strlit("［＃二重丸傍点］([^［]*)［＃二重丸傍点終わり］");
    let p = "［＃二重丸傍点］([^［]*)［＃二重丸傍点終わり］"@;
    assert(p[8] == '(' && p[9] != '?');
    assert forall|k: int| #[trigger] captures_at(p, k) implies k == 8 by {}
    assert(captures_at(p, 8));
}

proof fn lemma_pattern_5()
    ensures
        kept_group("［＃蛇の目傍点］([^［]*)［＃蛇の目傍点終わり］"@) == 1,
{
    reveal_strlit("［＃蛇の目傍点］([^［]*)［＃蛇の目傍点終わり］");
    let p = "［＃蛇の目傍点］([^［]*)［＃蛇の目傍点終わり］"@;
    assert(p[8] == '(' && p[9] != '?');
    assert forall|k: int| #[trigger] captures_at(p, k) implies k == 8 by {}
    assert(captures_at(p, 8));
}

proof fn lemma_pattern_6()
    ensures
        kept_group("［＃白丸傍点］([^［]*)［＃白丸傍点終わり］"@) == 1,
{
    reveal_strlit("［＃白丸傍点］([^［]*)［＃白丸傍点終わり］");
    let p = "［＃白丸傍点］([^［]*)［＃白丸傍点終わり］"@;
    assert(p[7] == '(' && p[8] != '?');
    assert forall|k: int| #[trigger] captures_at(p, k) implies k == 7 by {}
    assert(captures_at(p, 7));
}

proof fn lemma_pattern_7()
    ensures
        kept_group("［＃丸傍点］([^［]*)［＃丸傍点終わり］"@) == 1,
{
    reveal_strlit("［＃丸傍点］([^［]*)［＃丸傍点終わり］");
    let p = "［＃丸傍点］([^［]*)［＃丸傍点終わり］"@;
    assert(p[6] == '(' && p[7] != '?');
    assert forall|k: int| #[trigger] captures_at(p, k) implies k == 6 by {}
    assert(captures_at(p, 6));
}

proof fn lemma_pattern_8()
    ensures
        kept_group("［＃傍点］([^［]*)［＃傍点終わり］"@) == 1,
{
    reveal_strlit("［＃傍点］([^［]*)［＃傍点終わり］");
    let p = "［＃傍点］([^［]*)［＃傍点終わり］"@;
    assert(p[5] == '(' && p[6] != '?');
    assert forall|k: int| #[trigger] captures_at(p, k) implies k == 5 by {}
    assert(captures_at(p, 5));
}

proof fn lemma_pattern_9()
    ensures
        kept_group("［＃二重取消線］([^［]*)［＃二重取消線終わり］"@) == 1,
{
    reveal_strlit("［＃二重取消線］([^［]*)［＃二重取消線終わり］");
    let p = "［＃二重取消線］([^［]*)［＃二重取消線終わり］"@;
    assert(p[8] == '(' && p[9] != '?');
    assert forall|k: int| #[trigger] captures_at(p, k) implies k == 8 by {}
    assert(captures_at(p, 8));
}

proof fn lemma_pattern_10()
    ensures
        kept_group("［＃取消線］([^［]*)［＃取消線終わり］"@) == 1,
{
    reveal_strlit("［＃取消線］([^［]*)［＃取消線終わり］");
    let p = "［＃取消線］([^［]*)［＃取消線終わり］"@;
    assert(p[6] == '(' && p[7] != '?');
    assert forall|k: int| #[trigger] captures_at(p, k) implies k == 6 by {}
    assert(captures_at(p, 6));
}

proof fn lemma_pattern_11()
    ensures
        kept_group("［＃二重傍線］([^［]*)［＃二重傍線終わり］"@) == 1,
{
    reveal_strlit("［＃二重傍線］([^［]*)［＃二重傍線終わり］");
    let p = "［＃二重傍線］([^［]*)［＃二重傍線終わり］"@;
    assert(p[7] == '(' && p[8] != '?');
    assert forall|k: int| #[trigger] captures_at(p, k) implies k == 7 by {}
    assert(captures_at(p, 7));
}

proof fn lemma_pattern_12()
    ensures
        kept_group("［＃傍線］([^［]*)［＃傍線終わり］"@) == 1,
{
    reveal_strlit("［＃傍線］([^［]*)［＃傍線終わり］");
    let p = "［＃傍線］([^［]*)［＃傍線終わり］"@;
    assert(p[5] == '(' && p[6] != '?');
    assert forall|k: int| #[trigger] captures_at(p, k) implies k == 5 by {}
    assert(captures_at(p, 5));
}

proof fn lemma_pattern_13()
    ensures
        kept_group("［＃波線］([^［]*)［＃波線終わり］"@) == 1,
{
    reveal_strlit("［＃波線］([^［]*)［＃波線終わり］");
    let p = "［＃波線］([^［]*)［＃波線終わり］"@;
    assert(p[5] == '(' && p[6] != '?');
    assert forall|k: int| #[trigger] captures_at(p, k) implies k == 5 by {}
    assert(captures_at(p, 5));
}

proof fn lemma_pattern_14()
    ensures
        kept_group("［＃破線］([^［]*)［＃破線終わり］"@) == 1,
{
    reveal_strlit("［＃破線］([^［]*)［＃破線終わり］");
    let p = "［＃破線］([^［]*)［＃破線終わり］"@;
    assert(p[5] == '(' && p[6] != '?');
    assert forall|k: int| #[trigger] captures_at(p, k) implies k == 5 by {}
    assert(captures_at(p, 5));
}

proof fn lemma_pattern_15()
    ensures
        kept_group("［＃鎖線］([^［]*)［＃鎖線終わり］"@) == 1,
{
    reveal_strlit("［＃鎖線］([^［]*)［＃鎖線終わり］");
    let p = "［＃鎖線］([^［]*)［＃鎖線終わり］"@;
    assert(p[5] == '(' && p[6] != '?');
    assert forall|k: int| #[trigger] captures_at(p, k) implies k == 5 by {}
    assert(captures_at(p, 5));
}

proof fn lemma_pattern_16()
    ensures
        kept_group("［＃太字］([^［]*)［＃太字終わり］"@) == 1,
{
    reveal_strlit("［＃太字］([^［]*)［＃太字終わり］");
    let p = "［＃太字］([^［]*)［＃太字終わり］"@;
    assert(p[5] == '(' && p[6] != '?');
    assert forall|k: int| #[trigger] captures_at(p, k) implies k == 5 by {}
    assert(captures_at(p, 5));
}

proof fn lemma_pattern_17()
    ensures
        kept_group("［＃ゴシック体］([^［]*)［＃ゴシック体終わり］"@) == 1,
{
    reveal_strlit("［＃ゴシック体］([^［]*)［＃ゴシック体終わり］");
    let p = "［＃ゴシック体］([^［]*)［＃ゴシック体終わり］"@;
    assert(p[8] == '(' && p[9] != '?');
    assert forall|k: int| #[trigger] captures_at(p, k) implies k == 8 by {}
    assert(captures_at(p, 8));
}

proof fn lemma_pattern_18()
    ensures
        kept_group("［＃斜体］([^［]*)［＃斜体終わり］"@) == 1,
{
    reveal_strlit("［＃斜体］([^［]*)［＃斜体終わり］");
    let p = "［＃斜体］([^［]*)［＃斜体終わり］"@;
    assert(p[5] == '(' && p[6] != '?');
    assert forall|k: int| #[trigger] captures_at(p, k) implies k == 5 by {}
    assert(captures_at(p, 5));
}

proof fn lemma_pattern_19()
    ensures
        kept_group("［＃上付き小文字］([^［]*)［＃上付き小文字終わり］"@) == 1,
{
    reveal_strlit("［＃上付き小文字］([^［]*)［＃上付き小文字終わり］");
    let p = "［＃上付き小文字］([^［]*)［＃上付き小文字終わり］"@;
    assert(p[9] == '(' && p[10] != '?');
    assert forall|k: int| #[trigger] captures_at(p, k) implies k == 9 by {}
    assert(captures_at(p, 9));
}

proof fn lemma_pattern_20()
    ensures
        kept_group("［＃下付き小文字］([^［]*)［＃下付き小文字終わり］"@) == 1,
{
    reveal_strlit("［＃下付き小文字］([^［]*)［＃下付き小文字終わり］");
    let p = "［＃下付き小文字］([^［]*)［＃下付き小文字終わり］"@;
    assert(p[9] == '(' && p[10] != '?');
    assert forall|k: int| #[trigger] captures_at(p, k) implies k == 9 by {}
    assert(captures_at(p, 9));
}

proof fn lemma_pattern_21()
    ensures
        kept_group("［＃行右小書き］([^［]*)［＃行右小書き終わり］"@) == 1,
{
    reveal_strlit("［＃行右小書き］([^［]*)［＃行右小書き終わり］");
    let p = "［＃行右小書き］([^［]*)［＃行右小書き終わり］"@;
    assert(p[8] == '(' && p[9] != '?');
    assert forall|k: int| #[trigger] captures_at(p, k) implies k == 8 by {}
    assert(captures_at(p, 8));
}

proof fn lemma_pattern_22()
    ensures
        kept_group("［＃行左小書き］([^［]*)［＃行左小書き終わり］"@) == 1,
{
    reveal_strlit("［＃行左小書き］([^［]*)［＃行左小書き終わり］");
    let p = "［＃行左小書き］([^［]*)［＃行左小書き終わり］"@;
    assert(p[8] == '(' && p[9] != '?');
    assert forall|k: int| #[trigger] captures_at(p, k) implies k == 8 by {}
    assert(captures_at(p, 8));
}

proof fn lemma_pattern_23()
    ensures
        kept_group("［＃(?:ばつ|×)傍点］([^［]*)［＃(?:ばつ|×)傍点終わり］"@) == 1,
{
    reveal_strlit("［＃(?:ばつ|×)傍点］([^［]*)［＃(?:ばつ|×)傍点終わり］");
    let p = "［＃(?:ばつ|×)傍点］([^［]*)［＃(?:ばつ|×)傍点終わり］"@;
    assert(p[13] == '(' && p[14] != '?');
    assert forall|k: int| #[trigger] captures_at(p, k) implies k == 13 by {}
    assert(captures_at(p, 13));
}

proof fn lemma_pattern_24()
    ensures
        kept_group("［＃(?:罫囲み|枠囲み)］([^［]*)［＃(?:罫囲み|枠囲み)終わり］"@) == 1,
{
    reveal_strlit("［＃(?:罫囲み|枠囲み)］([^［]*)［＃(?:罫囲み|枠囲み)終わり］");
    let p = "［＃(?:罫囲み|枠囲み)］([^［]*)［＃(?:罫囲み|枠囲み)終わり］"@;
    assert(p[14] == '(' && p[15] != '?');
    assert forall|k: int| #[trigger] captures_at(p, k) implies k == 14 by {}
    assert(captures_at(p, 14));
}

proof fn lemma_pattern_25()
    ensures
        kept_group("［＃破線(?:罫囲み|枠囲み)］([^［]*)［＃破線(?:罫囲み|枠囲み)終わり］"@) == 1,
{
    reveal_strlit("［＃破線(?:罫囲み|枠囲み)］([^［]*)［＃破線(?:罫囲み|枠囲み)終わり］");
    let p = "［＃破線(?:罫囲み|枠囲み)］([^［]*)［＃破線(?:罫囲み|枠囲み)終わり］"@;
    assert(p[16] == '(' && p[17] != '?');
    assert forall|k: int| #[trigger] captures_at(p, k) implies k == 16 by {}
    assert(captures_at(p, 16));
}

proof fn lemma_pattern_26()
    ensures
        kept_group("［＃二重(?:罫囲み|枠囲み)］([^［]*)［＃二重(?:罫囲み|枠囲み)終わり］"@) == 1,
{
    reveal_strlit("［＃二重(?:罫囲み|枠囲み)］([^［]*)［＃二重(?:罫囲み|枠囲み)終わり］");
    let p = "［＃二重(?:罫囲み|枠囲み)］([^［]*)［＃二重(?:罫囲み|枠囲み)終わり］"@;
    assert(p[16] == '(' && p[17] != '?');
    assert forall|k: int| #[trigger] captures_at(p, k) implies k == 16 by {}
    assert(captures_at(p, 16));
}

proof fn lemma_pattern_27()
    ensures
        kept_group("［＃(返り点)］([^［]*)［＃返り点終わり］"@) == 2,
{
    reveal_strlit("［＃(返り点)］([^［]*)［＃返り点終わり］");
    let p = "［＃(返り点)］([^［]*)［＃返り点終わり］"@;
    assert(p[2] == '(' && p[3] != '?');
    assert(p[8] == '(' && p[9] != '?');
    assert forall|k: int| #[trigger] captures_at(p, k) implies k == 2 || k == 8 by {}
    assert(captures_at(p, 2));
    assert(captures_at(p, 8));
}

proof fn lemma_pattern_28()
    ensures
        kept_group("［＃([０-９0-9]+)段階大きな文字］([^［]*)［＃大きな文字終わり］"@) == 2,
{
    reveal_strlit("［＃([０-９0-9]+)段階大きな文字］([^［]*)［＃大きな文字終わり］");
    let p = "［＃([０-９0-9]+)段階大きな文字］([^［]*)［＃大きな文字終わり］"@;
    assert(p[2] == '(' && p[3] != '?');
    assert(p[21] == '(' && p[22] != '?');
    assert forall|k: int| #[trigger] captures_at(p, k) implies k == 2 || k == 21 by {}
    assert(captures_at(p, 2));
    assert(captures_at(p, 21));
}

proof fn lemma_pattern_29()
    ensures
        kept_group("［＃([０-９0-9]+)段階小さな文字］([^［]*)［＃小さな文字終わり］"@) == 2,
{
    reveal_strlit("［＃([０-９0-9]+)段階小さな文字］([^［]*)［＃小さな文字終わり］");
    let p = "［＃([０-９0-9]+)段階小さな文字］([^［]*)［＃小さな文字終わり］"@;
    assert(p[2] == '(' && p[3] != '?');
    assert(p[21] == '(' && p[22] != '?');
    assert forall|k: int| #[trigger] captures_at(p, k) implies k == 2 || k == 21 by {}
    assert(captures_at(p, 2));
    assert(captures_at(p, 21));
}

proof fn lemma_pattern_30()
    ensures
        kept_group("［＃割り注］([^［]*)［＃割り注終わり］"@) == 1,
{
    reveal_strlit("［＃割り注］([^［]*)［＃割り注終わり］");
    let p = "［＃割り注］([^［]*)［＃割り注終わり］"@;
    assert(p[6] == '(' && p[7] != '?');
    assert forall|k: int| #[trigger] captures_at(p, k) implies k == 6 by {}
    assert(captures_at(p, 6));
}

proof fn lemma_pattern_31()
    ensures
        kept_group("［＃「[^」]*」は底本では[^］]*］"@) == 0,
{
    reveal_strlit("［＃「[^」]*」は底本では[^］]*］");
    let p = "［＃「[^」]*」は底本では[^］]*］"@;
    assert forall|k: int| !#[trigger] captures_at(p, k) by {}
}

proof fn lemma_pattern_32()
    ensures
        kept_group("［＃「.*」は[大中小]見出し］"@) == 0,
{
    reveal_strlit("［＃「.*」は[大中小]見出し］");
    let p = "［＃「.*」は[大中小]見出し］"@;
    assert forall|k: int| !#[trigger] captures_at(p, k) by {}
}

proof fn lemma_pattern_33()
    ensures
        kept_group("［＃地から[０-９0-9]+字上げ］(.*)$"@) == 1,
{
    reveal_strlit("［＃地から[０-９0-9]+字上げ］(.*)$");
    let p = "［＃地から[０-９0-9]+字上げ］(.*)$"@;
    assert(p[18] == '(' && p[19] != '?');
    assert forall|k: int| #[trigger] captures_at(p, k) implies k == 18 by {}
    assert(captures_at(p, 18));
}

proof fn lemma_pattern_34()
    ensures
        kept_group("［＃地付き］(.*)$"@) == 1,
{
    reveal_strlit("［＃地付き］(.*)$");
    let p = "［＃地付き］(.*)$"@;
    assert(p[6] == '(' && p[7] != '?');
    assert forall|k: int| #[trigger] captures_at(p, k) implies k == 6 by {}
    assert(captures_at(p, 6));
}

proof fn lemma_pattern_35()
    ensures
        kept_group("［＃[^］]*］"@) == 0,
{
    reveal_strlit("［＃[^］]*］");
    let p = "［＃[^］]*］"@;
    assert forall|k: int| !#[trigger] captures_at(p, k) by {}
}

proof fn lemma_tags_0()
    ensures
        is_element("<em class=\"open-sesame\">"@, "</em>"@),
{
    reveal_strlit("<em class=\"open-sesame\">");
    reveal_strlit("</em>");
    reveal_strlit("");
    reveal_strlit(" class=\"open-sesame\"");
    reveal_strlit("em");
    assert("<em class=\"open-sesame\">"@ =~= ""@ + element_start("em"@, " class=\"open-sesame\""@));
    assert("</em>"@ =~= element_end("em"@));
    lemma_element(""@, "em"@, " class=\"open-sesame\""@);
}

proof fn lemma_tags_1()
    ensures
        is_element("<em class=\"triangle\">"@, "</em>"@),
{
    reveal_strlit("<em class=\"triangle\">");
    reveal_strlit("</em>");
    reveal_strlit("");
    reveal_strlit(" class=\"triangle\"");
    reveal_strlit("em");
    assert("<em class=\"triangle\">"@ =~= ""@ + element_start("em"@, " class=\"triangle\""@));
    assert("</em>"@ =~= element_end("em"@));
    lemma_element(""@, "em"@, " class=\"triangle\""@);
}

proof fn lemma_tags_2()
    ensures
        is_element("<em class=\"open-triangle\">"@, "</em>"@),
{
    reveal_strlit("<em class=\"open-triangle\">");
    reveal_strlit("</em>");
    reveal_strlit("");
    reveal_strlit(" class=\"open-triangle\"");
    reveal_strlit("em");
    assert("<em class=\"open-triangle\">"@ =~= ""@ + element_start("em"@, " class=\"open-triangle\""@));
    assert("</em>"@ =~= element_end("em"@));
    lemma_element(""@, "em"@, " class=\"open-triangle\""@);
}

proof fn lemma_tags_3()
    ensures
        is_element("<em class=\"double-circle\">"@, "</em>"@),
{
    reveal_strlit("<em class=\"double-circle\">");
    reveal_strlit("</em>");
    reveal_strlit("");
    reveal_strlit("em");
    reveal_strlit(" class=\"double-circle\"");
    assert("<em class=\"double-circle\">"@ =~= ""@ + element_start("em"@, " class=\"double-circle\""@));
    assert("</em>"@ =~= element_end("em"@));
    lemma_element(""@, "em"@, " class=\"double-circle\""@);
}

proof fn lemma_tags_4()
    ensures
        is_element("<em class=\"open-circle\">"@, "</em>"@),
{
    reveal_strlit("<em class=\"open-circle\">");
    reveal_strlit("</em>");
    reveal_strlit("");
    reveal_strlit(" class=\"open-circle\"");
    reveal_strlit("em");
    assert("<em class=\"open-circle\">"@ =~= ""@ + element_start("em"@, " class=\"open-circle\""@));
    assert("</em>"@ =~= element_end("em"@));
    lemma_element(""@, "em"@, " class=\"open-circle\""@);
}

proof fn lemma_tags_5()
    ensures
        is_element("<em class=\"circle\">"@, "</em>"@),
{
    reveal_strlit("<em class=\"circle\">");
    reveal_strlit("</em>");
    reveal_strlit("");
    reveal_strlit("em");
    reveal_strlit(" class=\"circle\"");
    assert("<em class=\"circle\">"@ =~= ""@ + element_start("em"@, " class=\"circle\""@));
    assert("</em>"@ =~= element_end("em"@));
    lemma_element(""@, "em"@, " class=\"circle\""@);
}

proof fn lemma_tags_6()
    ensures
        is_element("<em class=\"sesame\">"@, "</em>"@),
{
    reveal_strlit("<em class=\"sesame\">");
    reveal_strlit("</em>");
    reveal_strlit("");
    reveal_strlit("em");
    reveal_strlit(" class=\"sesame\"");
    assert("<em class=\"sesame\">"@ =~= ""@ + element_start("em"@, " class=\"sesame\""@));
    assert("</em>"@ =~= element_end("em"@));
    lemma_element(""@, "em"@, " class=\"sesame\""@);
}

proof fn lemma_tags_7()
    ensures
        is_element("<span class=\"strikethrough-double\">"@, "</span>"@),
{
    reveal_strlit("<span class=\"strikethrough-double\">");
    reveal_strlit("</span>");
    reveal_strlit("");
    reveal_strlit("span");
    reveal_strlit(" class=\"strikethrough-double\"");
    assert("<span class=\"strikethrough-double\">"@ =~= ""@ + element_start("span"@, " class=\"strikethrough-double\""@));
    assert("</span>"@ =~= element_end("span"@));
    lemma_element(""@, "span"@, " class=\"strikethrough-double\""@);
}

proof fn lemma_tags_8()
    ensures
        is_element("<span class=\"strikethrough\">"@, "</span>"@),
{
    reveal_strlit("<span class=\"strikethrough\">");
    reveal_strlit("</span>");
    reveal_strlit("");
    reveal_strlit("span");
    reveal_strlit(" class=\"strikethrough\"");
    assert("<span class=\"strikethrough\">"@ =~= ""@ + element_start("span"@, " class=\"strikethrough\""@));
    assert("</span>"@ =~= element_end("span"@));
    lemma_element(""@, "span"@, " class=\"strikethrough\""@);
}

proof fn lemma_tags_9()
    ensures
        is_element("<span class=\"underline-double\">"@, "</span>"@),
{
    reveal_strlit("<span class=\"underline-double\">");
    reveal_strlit("</span>");
    reveal_strlit("");
    reveal_strlit("span");
    reveal_strlit(" class=\"underline-double\"");
    assert("<span class=\"underline-double\">"@ =~= ""@ + element_start("span"@, " class=\"underline-double\""@));
    assert("</span>"@ =~= element_end("span"@));
    lemma_element(""@, "span"@, " class=\"underline-double\""@);
}

proof fn lemma_tags_10()
    ensures
        is_element("<span class=\"underline\">"@, "</span>"@),
{
    reveal_strlit("<span class=\"underline\">");
    reveal_strlit("</span>");
    reveal_strlit("");
    reveal_strlit("span");
    reveal_strlit(" class=\"underline\"");
    assert("<span class=\"underline\">"@ =~= ""@ + element_start("span"@, " class=\"underline\""@));
    assert("</span>"@ =~= element_end("span"@));
    lemma_element(""@, "span"@, " class=\"underline\""@);
}

proof fn lemma_tags_11()
    ensures
        is_element("<span class=\"underline-wavy\">"@, "</span>"@),
{
    reveal_strlit("<span class=\"underline-wavy\">");
    reveal_strlit("</span>");
    reveal_strlit("");
    reveal_strlit(" class=\"underline-wavy\"");
    reveal_strlit("span");
    assert("<span class=\"underline-wavy\">"@ =~= ""@ + element_start("span"@, " class=\"underline-wavy\""@));
    assert("</span>"@ =~= element_end("span"@));
    lemma_element(""@, "span"@, " class=\"underline-wavy\""@);
}

proof fn lemma_tags_12()
    ensures
        is_element("<span class=\"underline-dashed\">"@, "</span>"@),
{
    reveal_strlit("<span class=\"underline-dashed\">");
    reveal_strlit("</span>");
    reveal_strlit("");
    reveal_strlit("span");
    reveal_strlit(" class=\"underline-dashed\"");
    assert("<span class=\"underline-dashed\">"@ =~= ""@ + element_start("span"@, " class=\"underline-dashed\""@));
    assert("</span>"@ =~= element_end("span"@));
    lemma_element(""@, "span"@, " class=\"underline-dashed\""@);
}

proof fn lemma_tags_13()
    ensures
        is_element("<span class=\"underline-dotted\">"@, "</span>"@),
{
    reveal_strlit("<span class=\"underline-dotted\">");
    reveal_strlit("</span>");
    reveal_strlit("");
    reveal_strlit(" class=\"underline-dotted\"");
    reveal_strlit("span");
    assert("<span class=\"underline-dotted\">"@ =~= ""@ + element_start("span"@, " class=\"underline-dotted\""@));
    assert("</span>"@ =~= element_end("span"@));
    lemma_element(""@, "span"@, " class=\"underline-dotted\""@);
}

proof fn lemma_tags_14()
    ensures
        is_element("<strong>"@, "</strong>"@),
{
    reveal_strlit("<strong>");
    reveal_strlit("</strong>");
    reveal_strlit("");
    reveal_strlit("strong");
    assert("<strong>"@ =~= ""@ + element_start("strong"@, ""@));
    assert("</strong>"@ =~= element_end("strong"@));
    lemma_element(""@, "strong"@, ""@);
}

proof fn lemma_tags_15()
    ensures
        is_element("<span class=\"gothic\">"@, "</span>"@),
{
    reveal_strlit("<span class=\"gothic\">");
    reveal_strlit("</span>");
    reveal_strlit("");
    reveal_strlit("span");
    reveal_strlit(" class=\"gothic\"");
    assert("<span class=\"gothic\">"@ =~= ""@ + element_start("span"@, " class=\"gothic\""@));
    assert("</span>"@ =~= element_end("span"@));
    lemma_element(""@, "span"@, " class=\"gothic\""@);
}

proof fn lemma_tags_16()
    ensures
        is_element("<i>"@, "</i>"@),
{
    reveal_strlit("<i>");
    reveal_strlit("</i>");
    reveal_strlit("");
    reveal_strlit("i");
    assert("<i>"@ =~= ""@ + element_start("i"@, ""@));
    assert("</i>"@ =~= element_end("i"@));
    lemma_element(""@, "i"@, ""@);
}

proof fn lemma_tags_17()
    ensures
        is_element("<sup>"@, "</sup>"@),
{
    reveal_strlit("<sup>");
    reveal_strlit("</sup>");
    reveal_strlit("");
    reveal_strlit("sup");
    assert("<sup>"@ =~= ""@ + element_start("sup"@, ""@));
    assert("</sup>"@ =~= element_end("sup"@));
    lemma_element(""@, "sup"@, ""@);
}

proof fn lemma_tags_18()
    ensures
        is_element("<sub>"@, "</sub>"@),
{
    reveal_strlit("<sub>");
    reveal_strlit("</sub>");
    reveal_strlit("");
    reveal_strlit("sub");
    assert("<sub>"@ =~= ""@ + element_start("sub"@, ""@));
    assert("</sub>"@ =~= element_end("sub"@));
    lemma_element(""@, "sub"@, ""@);
}

proof fn lemma_tags_19()
    ensures
        is_element("<em class=\"batsu\">"@, "</em>"@),
{
    reveal_strlit("<em class=\"batsu\">");
    reveal_strlit("</em>");
    reveal_strlit("");
    reveal_strlit(" class=\"batsu\"");
    reveal_strlit("em");
    assert("<em class=\"batsu\">"@ =~= ""@ + element_start("em"@, " class=\"batsu\""@));
    assert("</em>"@ =~= element_end("em"@));
    lemma_element(""@, "em"@, " class=\"batsu\""@);
}

proof fn lemma_tags_20()
    ensures
        is_element("<span class=\"keigakomi\">"@, "</span>"@),
{
    reveal_strlit("<span class=\"keigakomi\">");
    reveal_strlit("</span>");
    reveal_strlit("");
    reveal_strlit("span");
    reveal_strlit(" class=\"keigakomi\"");
    assert("<span class=\"keigakomi\">"@ =~= ""@ + element_start("span"@, " class=\"keigakomi\""@));
    assert("</span>"@ =~= element_end("span"@));
    lemma_element(""@, "span"@, " class=\"keigakomi\""@);
}

proof fn lemma_tags_21()
    ensures
        is_element("<span class=\"keigakomi-dashed\">"@, "</span>"@),
{
    reveal_strlit("<span class=\"keigakomi-dashed\">");
    reveal_strlit("</span>");
    reveal_strlit("");
    reveal_strlit("span");
    reveal_strlit(" class=\"keigakomi-dashed\"");
    assert("<span class=\"keigakomi-dashed\">"@ =~= ""@ + element_start("span"@, " class=\"keigakomi-dashed\""@));
    assert("</span>"@ =~= element_end("span"@));
    lemma_element(""@, "span"@, " class=\"keigakomi-dashed\""@);
}

proof fn lemma_tags_22()
    ensures
        is_element("<span class=\"keigakomi-double\">"@, "</span>"@),
{
    reveal_strlit("<span class=\"keigakomi-double\">");
    reveal_strlit("</span>");
    reveal_strlit("");
    reveal_strlit("span");
    reveal_strlit(" class=\"keigakomi-double\"");
    assert("<span class=\"keigakomi-double\">"@ =~= ""@ + element_start("span"@, " class=\"keigakomi-double\""@));
    assert("</span>"@ =~= element_end("span"@));
    lemma_element(""@, "span"@, " class=\"keigakomi-double\""@);
}

proof fn lemma_tags_23()
    ensures
        is_element("<sup class=\"kaeriten\">"@, "</sup>"@),
{
    reveal_strlit("<sup class=\"kaeriten\">");
    reveal_strlit("</sup>");
    reveal_strlit("");
    reveal_strlit("sup");
    reveal_strlit(" class=\"kaeriten\"");
    assert("<sup class=\"kaeriten\">"@ =~= ""@ + element_start("sup"@, " class=\"kaeriten\""@));
    assert("</sup>"@ =~= element_end("sup"@));
    lemma_element(""@, "sup"@, " class=\"kaeriten\""@);
}

proof fn lemma_tags_24()
    ensures
        is_element("<span class=\"warichu\">"@, "</span>"@),
{
    reveal_strlit("<span class=\"warichu\">");
    reveal_strlit("</span>");
    reveal_strlit("");
    reveal_strlit("span");
    reveal_strlit(" class=\"warichu\"");
    assert("<span class=\"warichu\">"@ =~= ""@ + element_start("span"@, " class=\"warichu\""@));
    assert("</span>"@ =~= element_end("span"@));
    lemma_element(""@, "span"@, " class=\"warichu\""@);
}

proof fn lemma_tags_25()
    ensures
        is_element("<br/><span class=\"chitsuki\">"@, "</span>"@),
{
    reveal_strlit("<br/><span class=\"chitsuki\">");
    reveal_strlit("</span>");
    reveal_strlit(" class=\"chitsuki\"");
    reveal_strlit("span");
    reveal_strlit("<br/>");
    assert("<br/><span class=\"chitsuki\">"@ =~= "<br/>"@ + element_start("span"@, " class=\"chitsuki\""@));
    assert("</span>"@ =~= element_end("span"@));
    lemma_element("<br/>"@, "span"@, " class=\"chitsuki\""@);
}

proof fn lemma_paired_rules(i: int)
    requires
        0 <= i < line::spec_paired_rules().len(),
    ensures
        is_faithful(line::spec_paired_rules()[i]),
{
    if i == 0 {
        lemma_pattern_0();
    } else if i == 1 {
        lemma_pattern_1();
        lemma_tags_0();
    } else if i == 2 {
        lemma_pattern_2();
        lemma_tags_1();
    } else if i == 3 {
        lemma_pattern_3();
        lemma_tags_2();
    } else if i == 4 {
        lemma_pattern_4();
        lemma_tags_3();
    } else if i == 5 {
        lemma_pattern_5();
        lemma_tags_3();
    } else if i == 6 {
        lemma_pattern_6();
        lemma_tags_4();
    } else if i == 7 {
        lemma_pattern_7();
        lemma_tags_5();
    } else if i == 8 {
        lemma_pattern_8();
        lemma_tags_6();
    } else if i == 9 {
        lemma_pattern_9();
        lemma_tags_7();
    } else if i == 10 {
        lemma_pattern_10();
        lemma_tags_8();
    } else if i == 11 {
        lemma_pattern_11();
        lemma_tags_9();
    } else if i == 12 {
        lemma_pattern_12();
        lemma_tags_10();
    } else if i == 13 {
        lemma_pattern_13();
        lemma_tags_11();
    } else if i == 14 {
        lemma_pattern_14();
        lemma_tags_12();
    } else if i == 15 {
        lemma_pattern_15();
        lemma_tags_13();
    } else if i == 16 {
        lemma_pattern_16();
        lemma_tags_14();
    } else if i == 17 {
        lemma_pattern_17();
        lemma_tags_15();
    } else if i == 18 {
        lemma_pattern_18();
        lemma_tags_16();
    } else if i == 19 {
        lemma_pattern_19();
        lemma_tags_17();
    } else if i == 20 {
        lemma_pattern_20();
        lemma_tags_18();
    } else if i == 21 {
        lemma_pattern_21();
        lemma_tags_17();
    } else if i == 22 {
        lemma_pattern_22();
        lemma_tags_18();
    } else if i == 23 {
        lemma_pattern_23();
        lemma_tags_19();
    } else if i == 24 {
        lemma_pattern_24();
        lemma_tags_20();
    } else if i == 25 {
        lemma_pattern_25();
        lemma_tags_21();
    } else if i == 26 {
        lemma_pattern_26();
        lemma_tags_22();
    } else if i == 27 {
        lemma_pattern_27();
        lemma_tags_23();
    } else if i == 28 {
        lemma_pattern_28();
    } else if i == 29 {
        lemma_pattern_29();
    }
}

proof fn lemma_closing_rules(i: int)
    requires
        0 <= i < line::spec_closing_rules().len(),
    ensures
        is_faithful(line::spec_closing_rules()[i]),
{
    if i == 0 {
        lemma_pattern_30();
        lemma_tags_24();
    } else if i == 1 {
        lemma_pattern_31();
    } else if i == 2 {
        lemma_pattern_32();
    } else if i == 3 {
        lemma_pattern_33();
        lemma_tags_25();
    } else if i == 4 {
        lemma_pattern_34();
        lemma_tags_25();
    } else if i == 5 {
        lemma_pattern_35();
    }
}

// ---------------------------------------------------------------- a whole line

/// The pattern matches nowhere in the text.
pub open spec fn is_unmatched(p: Seq<char>, s: Seq<char>) -> bool {
    notation::matched(p, s).len() == 0
}

/// No rule but the `i`-th matches in the text.
pub open spec fn only_matches(rules: Seq<Rule>, i: int, s: Seq<char>) -> bool {
    forall|j: int| 0 <= j < rules.len() && j != i ==> is_unmatched((#[trigger] rules[j]).pattern@, s)
}

proof fn lemma_unmatched(p: Seq<char>, s: Seq<char>, mark: char)
    requires
        is_unmatched(p, s) || !s.contains(mark),
    ensures
        notation::looked(p, s, mark).0.len() == 0,
        notation::looked(p, s, mark).1 == s,
{
    assert(s.subrange(0, s.len() as int) =~= s);
}

proof fn lemma_unruled(rules: Seq<Rule>, i: int, n: int, s: Seq<char>, gaiji: Seq<(String, String)>)
    requires
        only_matches(rules, i, s) || !s.contains('［'),
        0 <= n <= rules.len(),
        n <= i || i < 0 || !s.contains('［'),
    ensures
        notation::ruled_to(s, rules, n, gaiji) == s,
    decreases n,
{
    if n > 0 {
        lemma_unruled(rules, i, n - 1, s, gaiji);
        lemma_unmatched(rules[n - 1].pattern@, s, '［');
    }
}

/// The rules from the `n`-th on leave a text without annotations as it is.
proof fn lemma_done(rules: Seq<Rule>, m: int, n: int, s: Seq<char>, t: Seq<char>, gaiji: Seq<(String, String)>)
    requires
        0 <= m <= n <= rules.len(),
        notation::ruled_to(s, rules, m, gaiji) == t,
        !t.contains('［'),
    ensures
        notation::ruled_to(s, rules, n, gaiji) == t,
    decreases n - m,
{
    if m < n {
        lemma_done(rules, m, n - 1, s, t, gaiji);
        lemma_unmatched(rules[n - 1].pattern@, t, '［');
    }
}

proof fn lemma_only(rules: Seq<Rule>, i: int, s: Seq<char>, gaiji: Seq<(String, String)>)
    requires
        0 <= i < rules.len(),
        only_matches(rules, i, s),
        !notation::ruled(s, rules[i], '［', gaiji).contains('［'),
    ensures
        notation::ruled_to(s, rules, rules.len() as int, gaiji) == notation::ruled(s, rules[i], '［', gaiji),
{
    lemma_unruled(rules, i, i, s, gaiji);
    lemma_done(
        rules,
        i + 1,
        rules.len() as int,
        s,
        notation::ruled(s, rules[i], '［', gaiji),
        gaiji,
    );
}

/// A line in which one rule alone finds something, and takes all its annotations.
pub open spec fn has_one_annotation(
    line: Seq<char>,
    closing: bool,
    i: int,
    gaiji: Seq<(String, String)>,
) -> bool {
    let e = line::escaped_from(line, 0);
    let a = line::spec_paired_rules();
    let b = line::spec_closing_rules();
    let done = notation::ruled(
        e,
        if closing {
            b[i]
        } else {
            a[i]
        },
        '［',
        gaiji,
    );
    &&& line.contains('［')
    &&& !line.contains('※')
    &&& !line.contains('《')
    &&& line::image_hits(e).0.len() == 0
    &&& line::postfix_hits(e).0.len() == 0
    &&& line::postfix_hits(done).0.len() == 0
    &&& !done.contains('［')
    &&& if closing {
        0 <= i < b.len() && only_matches(a, -1, e) && only_matches(b, i, e)
    } else {
        0 <= i < a.len() && only_matches(a, i, e) && only_matches(b, -1, e)
    }
}

proof fn lemma_no_hits(h: (Seq<(Seq<char>, Seq<char>, Seq<Option<Seq<char>>>)>, Seq<char>))
    requires
        h.0.len() == 0,
    ensures
        line::postfix_to(h.0, 0) + h.1 == h.1,
{
    assert(line::postfix_to(h.0, 0) + h.1 =~= h.1);
}

proof fn lemma_looked_none(p: Seq<char>, s: Seq<char>, mark: char)
    requires
        notation::looked(p, s, mark).0.len() == 0,
    ensures
        notation::looked(p, s, mark).1 == s,
{
    if s.contains(mark) {
        assert(notation::pieces(notation::matched(p, s), s).len() == notation::matched(p, s).len());
    }
    lemma_unmatched(p, s, mark);
}

/// A line with one annotation is what its rule makes of it, and its text is the text
/// outside the annotation and what that encloses or sets.
pub proof fn one_annotation_keeps_the_text(
    line: Seq<char>,
    closing: bool,
    i: int,
    gaiji: Seq<(String, String)>,
)
    requires
        has_one_annotation(line, closing, i, gaiji),
    ensures
        ({
            let e = line::escaped_from(line, 0);
            let r = if closing {
                line::spec_closing_rules()[i]
            } else {
                line::spec_paired_rules()[i]
            };
            let h = notation::looked(r.pattern@, e, '［');
            &&& line::converted(line, gaiji) == notation::ruled(e, r, '［', gaiji)
            &&& parts_no_tag(r.pattern@, h.0) ==> toc::spec_strip_tags(line::converted(line, gaiji))
                == kept_from(r.pattern@, h.0, 0, h.1)
        }),
{
    let e = line::escaped_from(line, 0);
    let a = line::spec_paired_rules();
    let b = line::spec_closing_rules();
    let r = if closing {
        b[i]
    } else {
        a[i]
    };
    let done = notation::ruled(e, r, '［', gaiji);
    let h = line::image_hits(e);
    lemma_looked_none("［＃([^（］]*)（([^、]+)、[^）]*）入る］"@, e, '［');
    assert(line::set_line(line, gaiji) == e);
    lemma_postfix_none(e);
    lemma_postfix_none(done);
    if closing {
        lemma_unruled(a, -1, a.len() as int, e, gaiji);
        lemma_only(b, i, e, gaiji);
        assert(b.contains(r));
    } else {
        lemma_only(a, i, e, gaiji);
        lemma_unruled(b, -1, b.len() as int, done, gaiji);
        assert(a.contains(r));
    }
    if parts_no_tag(r.pattern@, notation::looked(r.pattern@, e, '［').0) {
        a_rule_keeps_what_it_captures(r, e, '［', gaiji);
    }
}

proof fn lemma_postfix_none(s: Seq<char>)
    requires
        line::postfix_hits(s).0.len() == 0,
    ensures
        line::with_postfix(s) == s,
{
    lemma_looked_none(
        "［＃「([^」]+)」(はゴシック体|は行右小書き|は行左小書き|に二重傍線|は罫囲み|は枠囲み|に傍点|に傍線|に波線|に破線|に鎖線|は太字|は斜体)］"@,
        s,
        '「',
    );
    lemma_no_hits(line::postfix_hits(s));
}

// ---------------------------------------------------------------- the foot of a line

/// The pattern of the annotation that sets what follows it to the foot of the line.
pub open spec fn foot_pattern() -> Seq<char> {
    "［＃地付き］(.*)$"@
}

/// No rule but that one, and no other pattern, matches in the text.
pub open spec fn only_foot(e: Seq<char>) -> bool {
    &&& forall|r: Rule|
        #[trigger] is_rule(r) && r.pattern@ != foot_pattern() ==> is_unmatched(r.pattern@, e)
    &&& line::image_hits(e).0.len() == 0
    &&& line::postfix_hits(e).0.len() == 0
}

proof fn lemma_escape_join(a: Seq<char>, b: Seq<char>, i: int)
    requires
        0 <= i <= a.len(),
    ensures
        line::escaped_from(a + b, i) == line::escaped_from(a, i) + line::escaped_from(b, 0),
    decreases a.len() - i,
{
    if i < a.len() {
        assert((a + b)[i] == a[i]);
        lemma_escape_join(a, b, i + 1);
        assert(line::escaped_char(a[i]) + (line::escaped_from(a, i + 1) + line::escaped_from(b, 0))
            =~= line::escaped_char(a[i]) + line::escaped_from(a, i + 1) + line::escaped_from(b, 0));
    } else {
        lemma_escape_shift(a, b, 0);
        assert(line::escaped_from(a, i) + line::escaped_from(b, 0) =~= line::escaped_from(b, 0));
    }
}

proof fn lemma_escape_shift(a: Seq<char>, b: Seq<char>, j: int)
    requires
        0 <= j <= b.len(),
    ensures
        line::escaped_from(a + b, a.len() + j) == line::escaped_from(b, j),
    decreases b.len() - j,
{
    if j < b.len() {
        assert((a + b)[a.len() + j] == b[j]);
        lemma_escape_shift(a, b, j + 1);
    }
}

/// A line with text set to its foot, as one that is signed: the text behind the
/// annotation stays, in an element of its own, and so does what stands before it. The
/// annotation's pattern takes all that follows it, and no other pattern matches.
pub proof fn text_at_the_foot_is_kept(a: Seq<char>, s: Seq<char>, gaiji: Seq<(String, String)>)
    requires
        !a.contains('［'),
        !a.contains('※'),
        !a.contains('《'),
        !a.contains('「'),
        !s.contains('［'),
        !s.contains('※'),
        !s.contains('《'),
        !s.contains('「'),
        ({
            let e = line::escaped_from(a + "［＃地付き］"@ + s, 0);
            &&& only_foot(e)
            &&& notation::matched(foot_pattern(), e) == seq![
                (
                    line::escaped_from(a, 0).len() as int,
                    e.len() as int,
                    seq![Some(line::escaped_from(s, 0))],
                ),
            ]
        }),
    ensures
        line::converted(a + "［＃地付き］"@ + s, gaiji) == line::escaped_from(a, 0)
            + "<br/><span class=\"chitsuki\">"@ + line::escaped_from(s, 0) + "</span>"@,
{
    reveal_strlit("［＃地付き］");
    reveal_strlit("<br/><span class=\"chitsuki\">");
    reveal_strlit("</span>");
    let mark = "［＃地付き］"@;
    let l = a + mark + s;
    assert(l[a.len() as int] == '［');
    lemma_lacks(a, s, '※');
    lemma_lacks(a, s, '《');
    let e = line::escaped_from(l, 0);
    let b = line::spec_closing_rules();
    let p = line::spec_paired_rules();
    let i = 4int;
    let r = b[i];
    lemma_escape_join(a + mark, s, 0);
    lemma_escape_join(a, mark, 0);
    let x = line::escaped_from(a, 0);
    let m = line::escaped_from(mark, 0);
    let y = line::escaped_from(s, 0);
    lemma_escape_keeps(a, 0, '［');
    lemma_escape_keeps(s, 0, '［');
    lemma_escape_keeps(a, 0, '「');
    lemma_escape_keeps(s, 0, '「');
    lemma_mark();
    assert(e =~= x + m + y);
    assert(e[x.len() as int] == '［');
    assert(e.contains('［'));
    let v = notation::matched(foot_pattern(), e);
    let h = notation::looked(foot_pattern(), e, '［');
    assert(h.0.len() == 1);
    assert(h.0[0].0 =~= x);
    assert(h.0[0].2 == seq![Some(y)]);
    assert(h.1 =~= Seq::<char>::empty());
    assert(r.pattern@ == foot_pattern());
    let open = "<br/><span class=\"chitsuki\">"@;
    let close = "</span>"@;
    let done = notation::ruled(e, r, '［', gaiji);
    let f = notation::filled(r.fill, h.0[0].2, gaiji);
    assert(notation::group(h.0[0].2, 1) == y);
    assert(f == open + y + close);
    assert(notation::filled_from(r.fill, h.0, 1, h.1, gaiji) == h.1);
    assert(done == x + (f + h.1));
    assert(done =~= x + open + y + close);
    lemma_done_lacks(x, open, y, close, '［');
    lemma_done_lacks(x, open, y, close, '「');
    assert(line::postfix_hits(done).0.len() == 0);
    assert(only_matches(p, -1, e)) by {
        assert forall|j: int| 0 <= j < p.len() && j != -1 implies is_unmatched((#[trigger] p[j]).pattern@, e) by {
            assert(p.contains(p[j]));
            assert(is_rule(p[j]));
            lemma_other_pattern(false, j);
        }
    }
    assert(only_matches(b, i, e)) by {
        assert forall|j: int| 0 <= j < b.len() && j != i implies is_unmatched((#[trigger] b[j]).pattern@, e) by {
            assert(b.contains(b[j]));
            assert(is_rule(b[j]));
            lemma_other_pattern(true, j);
        }
    }
    one_annotation_keeps_the_text(l, true, i, gaiji);
}

proof fn lemma_lacks(a: Seq<char>, s: Seq<char>, c: char)
    requires
        !a.contains(c),
        !s.contains(c),
        !"［＃地付き］"@.contains(c) || c == '※' || c == '《',
    ensures
        !(a + "［＃地付き］"@ + s).contains(c),
{
    reveal_strlit("［＃地付き］");
    let m = "［＃地付き］"@;
    let l = a + m + s;
    if l.contains(c) {
        let k = choose|k: int| 0 <= k < l.len() && l[k] == c;
        if k < a.len() {
            assert(a.contains(a[k]));
        } else if k < a.len() + m.len() {
            assert(l[k] == m[k - a.len()]);
            assert(m.contains(m[k - a.len()]));
        } else {
            assert(s.contains(s[k - a.len() - m.len()]));
        }
    }
}

proof fn lemma_done_lacks(x: Seq<char>, open: Seq<char>, y: Seq<char>, close: Seq<char>, c: char)
    requires
        !x.contains(c),
        !y.contains(c),
        c == '［' || c == '「',
        open == "<br/><span class=\"chitsuki\">"@,
        close == "</span>"@,
    ensures
        !(x + open + y + close).contains(c),
{
    reveal_strlit("<br/><span class=\"chitsuki\">");
    reveal_strlit("</span>");
    let d = x + open + y + close;
    if d.contains(c) {
        let k = choose|k: int| 0 <= k < d.len() && d[k] == c;
        if k < x.len() {
            assert(x.contains(x[k]));
        } else if k < x.len() + open.len() {
            assert(d[k] == open[k - x.len()]);
        } else if k < x.len() + open.len() + y.len() {
            assert(y.contains(y[k - x.len() - open.len()]));
        } else {
            assert(d[k] == close[k - x.len() - open.len() - y.len()]);
        }
    }
}

proof fn lemma_escape_keeps(s: Seq<char>, i: int, c: char)
    requires
        !s.contains(c),
        c == '［' || c == '「',
    ensures
        !line::escaped_from(s, i).contains(c),
    decreases s.len() - i,
{
    if 0 <= i < s.len() {
        lemma_escape_keeps(s, i + 1, c);
        reveal_strlit("&amp;");
        reveal_strlit("&lt;");
        reveal_strlit("&gt;");
        reveal_strlit("&quot;");
        reveal_strlit("&apos;");
        assert(s.contains(s[i]));
        let a = line::escaped_char(s[i]);
        let b = line::escaped_from(s, i + 1);
        if (a + b).contains(c) {
            let k = choose|k: int| 0 <= k < (a + b).len() && (a + b)[k] == c;
            if k < a.len() {
                assert((a + b)[k] == a[k]);
            } else {
                assert(b.contains(b[k - a.len()]));
            }
        }
    }
}

proof fn lemma_mark()
    ensures
        line::escaped_from("［＃地付き］"@, 0) == "［＃地付き］"@,
{
    reveal_strlit("［＃地付き］");
    let m = "［＃地付き］"@;
    reveal_with_fuel(line::escaped_from, 7);
    assert(line::escaped_from(m, 0) =~= m);
}

/// No other rule has that pattern.
proof fn lemma_other_pattern(closing: bool, j: int)
    requires
        if closing {
            0 <= j < line::spec_closing_rules().len() && j != 4
        } else {
            0 <= j < line::spec_paired_rules().len()
        },
    ensures
        (if closing {
            line::spec_closing_rules()[j]
        } else {
            line::spec_paired_rules()[j]
        }).pattern@ != foot_pattern(),
{
    reveal_strlit("［＃地付き］(.*)$");
    if closing {
        if j == 0 {
            reveal_strlit("［＃割り注］([^［]*)［＃割り注終わり］");
            assert("［＃割り注］([^［]*)［＃割り注終わり］"@[2] != foot_pattern()[2]);
        } else if j == 1 {
            reveal_strlit("［＃「[^」]*」は底本では[^］]*］");
            assert("［＃「[^」]*」は底本では[^］]*］"@[2] != foot_pattern()[2]);
        } else if j == 2 {
            reveal_strlit("［＃「.*」は[大中小]見出し］");
            assert("［＃「.*」は[大中小]見出し］"@[2] != foot_pattern()[2]);
        } else if j == 3 {
            reveal_strlit("［＃地から[０-９0-9]+字上げ］(.*)$");
            assert("［＃地から[０-９0-9]+字上げ］(.*)$"@[3] != foot_pattern()[3]);
        } else if j == 5 {
            reveal_strlit("［＃[^］]*］");
            assert("［＃[^］]*］"@[2] != foot_pattern()[2]);
        }
    } else {
        if j == 0 {
            reveal_strlit("［＃(?:ルビの)?「[^」]*」は底本では[^］]*］|［＃(?:「[^」]*」は)?ママ］");
            assert("［＃(?:ルビの)?「[^」]*」は底本では[^］]*］|［＃(?:「[^」]*」は)?ママ］"@[2] != foot_pattern()[2]);
        } else if j == 1 {
            reveal_strlit("［＃白ゴマ傍点］([^［]*)［＃白ゴマ傍点終わり］");
            assert("［＃白ゴマ傍点］([^［]*)［＃白ゴマ傍点終わり］"@[2] != foot_pattern()[2]);
        } else if j == 2 {
            reveal_strlit("［＃黒三角傍点］([^［]*)［＃黒三角傍点終わり］");
            assert("［＃黒三角傍点］([^［]*)［＃黒三角傍点終わり］"@[2] != foot_pattern()[2]);
        } else if j == 3 {
            reveal_strlit("［＃白三角傍点］([^［]*)［＃白三角傍点終わり］");
            assert("［＃白三角傍点］([^［]*)［＃白三角傍点終わり］"@[2] != foot_pattern()[2]);
        } else if j == 4 {
            reveal_strlit("［＃二重丸傍点］([^［]*)［＃二重丸傍点終わり］");
            assert("［＃二重丸傍点］([^［]*)［＃二重丸傍点終わり］"@[2] != foot_pattern()[2]);
        } else if j == 5 {
            reveal_strlit("［＃蛇の目傍点］([^［]*)［＃蛇の目傍点終わり］");
            assert("［＃蛇の目傍点］([^［]*)［＃蛇の目傍点終わり］"@[2] != foot_pattern()[2]);
        } else if j == 6 {
            reveal_strlit("［＃白丸傍点］([^［]*)［＃白丸傍点終わり］");
            assert("［＃白丸傍点］([^［]*)［＃白丸傍点終わり］"@[2] != foot_pattern()[2]);
        } else if j == 7 {
            reveal_strlit("［＃丸傍点］([^［]*)［＃丸傍点終わり］");
            assert("［＃丸傍点］([^［]*)［＃丸傍点終わり］"@[2] != foot_pattern()[2]);
        } else if j == 8 {
            reveal_strlit("［＃傍点］([^［]*)［＃傍点終わり］");
            assert("［＃傍点］([^［]*)［＃傍点終わり］"@[2] != foot_pattern()[2]);
        } else if j == 9 {
            reveal_strlit("［＃二重取消線］([^［]*)［＃二重取消線終わり］");
            assert("［＃二重取消線］([^［]*)［＃二重取消線終わり］"@[2] != foot_pattern()[2]);
        } else if j == 10 {
            reveal_strlit("［＃取消線］([^［]*)［＃取消線終わり］");
            assert("［＃取消線］([^［]*)［＃取消線終わり］"@[2] != foot_pattern()[2]);
        } else if j == 11 {
            reveal_strlit("［＃二重傍線］([^［]*)［＃二重傍線終わり］");
            assert("［＃二重傍線］([^［]*)［＃二重傍線終わり］"@[2] != foot_pattern()[2]);
        } else if j == 12 {
            reveal_strlit("［＃傍線］([^［]*)［＃傍線終わり］");
            assert("［＃傍線］([^［]*)［＃傍線終わり］"@[2] != foot_pattern()[2]);
        } else if j == 13 {
            reveal_strlit("［＃波線］([^［]*)［＃波線終わり］");
            assert("［＃波線］([^［]*)［＃波線終わり］"@[2] != foot_pattern()[2]);
        } else if j == 14 {
            reveal_strlit("［＃破線］([^［]*)［＃破線終わり］");
            assert("［＃破線］([^［]*)［＃破線終わり］"@[2] != foot_pattern()[2]);
        } else if j == 15 {
            reveal_strlit("［＃鎖線］([^［]*)［＃鎖線終わり］");
            assert("［＃鎖線］([^［]*)［＃鎖線終わり］"@[2] != foot_pattern()[2]);
        } else if j == 16 {
            reveal_strlit("［＃太字］([^［]*)［＃太字終わり］");
            assert("［＃太字］([^［]*)［＃太字終わり］"@[2] != foot_pattern()[2]);
        } else if j == 17 {
            reveal_strlit("［＃ゴシック体］([^［]*)［＃ゴシック体終わり］");
            assert("［＃ゴシック体］([^［]*)［＃ゴシック体終わり］"@[2] != foot_pattern()[2]);
        } else if j == 18 {
            reveal_strlit("［＃斜体］([^［]*)［＃斜体終わり］");
            assert("［＃斜体］([^［]*)［＃斜体終わり］"@[2] != foot_pattern()[2]);
        } else if j == 19 {
            reveal_strlit("［＃上付き小文字］([^［]*)［＃上付き小文字終わり］");
            assert("［＃上付き小文字］([^［]*)［＃上付き小文字終わり］"@[2] != foot_pattern()[2]);
        } else if j == 20 {
            reveal_strlit("［＃下付き小文字］([^［]*)［＃下付き小文字終わり］");
            assert("［＃下付き小文字］([^［]*)［＃下付き小文字終わり］"@[2] != foot_pattern()[2]);
        } else if j == 21 {
            reveal_strlit("［＃行右小書き］([^［]*)［＃行右小書き終わり］");
            assert("［＃行右小書き］([^［]*)［＃行右小書き終わり］"@[2] != foot_pattern()[2]);
        } else if j == 22 {
            reveal_strlit("［＃行左小書き］([^［]*)［＃行左小書き終わり］");
            assert("［＃行左小書き］([^［]*)［＃行左小書き終わり］"@[2] != foot_pattern()[2]);
        } else if j == 23 {
            reveal_strlit("［＃(?:ばつ|×)傍点］([^［]*)［＃(?:ばつ|×)傍点終わり］");
            assert("［＃(?:ばつ|×)傍点］([^［]*)［＃(?:ばつ|×)傍点終わり］"@[2] != foot_pattern()[2]);
        } else if j == 24 {
            reveal_strlit("［＃(?:罫囲み|枠囲み)］([^［]*)［＃(?:罫囲み|枠囲み)終わり］");
            assert("［＃(?:罫囲み|枠囲み)］([^［]*)［＃(?:罫囲み|枠囲み)終わり］"@[2] != foot_pattern()[2]);
        } else if j == 25 {
            reveal_strlit("［＃破線(?:罫囲み|枠囲み)］([^［]*)［＃破線(?:罫囲み|枠囲み)終わり］");
            assert("［＃破線(?:罫囲み|枠囲み)］([^［]*)［＃破線(?:罫囲み|枠囲み)終わり］"@[2] != foot_pattern()[2]);
        } else if j == 26 {
            reveal_strlit("［＃二重(?:罫囲み|枠囲み)］([^［]*)［＃二重(?:罫囲み|枠囲み)終わり］");
            assert("［＃二重(?:罫囲み|枠囲み)］([^［]*)［＃二重(?:罫囲み|枠囲み)終わり］"@[2] != foot_pattern()[2]);
        } else if j == 27 {
            reveal_strlit("［＃(返り点)］([^［]*)［＃返り点終わり］");
            assert("［＃(返り点)］([^［]*)［＃返り点終わり］"@[2] != foot_pattern()[2]);
        } else if j == 28 {
            reveal_strlit("［＃([０-９0-9]+)段階大きな文字］([^［]*)［＃大きな文字終わり］");
            assert("［＃([０-９0-9]+)段階大きな文字］([^［]*)［＃大きな文字終わり］"@[2] != foot_pattern()[2]);
        } else if j == 29 {
            reveal_strlit("［＃([０-９0-9]+)段階小さな文字］([^［]*)［＃小さな文字終わり］");
            assert("［＃([０-９0-9]+)段階小さな文字］([^［]*)［＃小さな文字終わり］"@[2] != foot_pattern()[2]);
        }
    }
}

// ---------------------------------------------------------------- annotations behind their text

/// An annotation behind the text that it speaks of asks for an element: a start tag and
/// its end tag.
pub proof fn an_annotation_behind_its_text_asks_for_an_element(key: Seq<char>)
    ensures
        line::tags(key) matches Some(t) ==> is_element(t.0, t.1),
{
    lemma_tags_6();
    lemma_tags_10();
    lemma_tags_9();
    lemma_tags_11();
    lemma_tags_12();
    lemma_tags_13();
    lemma_tags_14();
    lemma_tags_15();
    lemma_tags_16();
    lemma_tags_20();
    lemma_tags_17();
    lemma_tags_18();
}

/// Text that an annotation speaks of keeps what stands before it and behind it, and is
/// itself in the element that the annotation asks for; where it is not found, nothing
/// changes.
pub proof fn a_tagged_text_is_kept(s: Seq<char>, target: Seq<char>, open: Seq<char>, close: Seq<char>)
    requires
        is_element(open, close),
        !s.contains('<'),
        !target.contains('<'),
    ensures
        toc::spec_strip_tags(line::tagged(s, target, open, close)) == s,
{
    lemma_nearest(s, target, s.len() as int);
    lemma_untagged(s);
    if let Some(i) = line::nearest(s, target, s.len() as int) {
        let a = s.subrange(0, i);
        let b = s.subrange(i + target.len(), s.len() as int);
        assert(!a.contains('<')) by {
            if a.contains('<') {
                let k = choose|k: int| 0 <= k < a.len() && a[k] == '<';
                assert(s[k] == '<');
            }
        }
        assert(!b.contains('<')) by {
            if b.contains('<') {
                let k = choose|k: int| 0 <= k < b.len() && b[k] == '<';
                assert(s[k + i + target.len()] == '<');
            }
        }
        lemma_untagged(a);
        lemma_untagged(b);
        lemma_untagged(target);
        lemma_element_strips(open, close);
        lemma_strip_join(a, open);
        lemma_strip_join(a + open, target);
        lemma_strip_join(a + open + target, close);
        lemma_strip_join(a + open + target + close, b);
        let none = Seq::<char>::empty();
        assert(a + none + target + none + b =~= s) by {
            assert(s.subrange(i, i + target.len()) == target);
            assert(a + s.subrange(i, i + target.len()) + b =~= s);
            assert(a + none + target + none + b =~= a + target + b);
        }
    }
}

proof fn lemma_nearest(s: Seq<char>, target: Seq<char>, i: int)
    ensures
        line::nearest(s, target, i) matches Some(k) ==> 0 <= k <= i && text::is_at(s, target, k),
    decreases i + 1,
{
    if i >= 0 && !(text::is_at(s, target, i) && line::place_at(s, i) == line::Place::Text) {
        lemma_nearest(s, target, i - 1);
    }
}

proof fn lemma_untagged_from(s: Seq<char>, i: int)
    requires
        !s.contains('<'),
        0 <= i <= s.len(),
    ensures
        toc::stripped_from(s, i) == s.subrange(i, s.len() as int),
        is_whole(s, i),
    decreases s.len() - i,
{
    if i < s.len() {
        assert(s.contains(s[i]));
        lemma_untagged_from(s, i + 1);
        assert(seq![s[i]] + s.subrange(i + 1, s.len() as int) =~= s.subrange(i, s.len() as int));
    } else {
        assert(s.subrange(i, i) =~= Seq::empty());
    }
}

proof fn lemma_untagged(s: Seq<char>)
    requires
        !s.contains('<'),
    ensures
        toc::spec_strip_tags(s) == s,
        is_whole(s, 0),
{
    lemma_untagged_from(s, 0);
    assert(s.subrange(0, s.len() as int) =~= s);
}

} // verus!
