//! What the lines of a text become: paragraphs with their text, headings that the
//! contents list, and readings over what they are readings of.
use vstd::prelude::*;

use crate::aozora::parser_txt::{State, Step};
use crate::aozora::{line, notation, parser_txt};
use crate::text;

verus! {

// ---------------------------------------------------------------- paragraphs

/// A line without annotations, described characters and readings.
pub open spec fn is_plain(raw: Seq<char>) -> bool {
    !raw.contains('［') && !raw.contains('※') && !raw.contains('《')
}

/// Nothing is open round the line: no indent, no style, no box.
pub open spec fn is_open_air(s: State) -> bool {
    s.indent is None && s.styles.len() == 0 && s.box_first is None
}

proof fn lemma_unfound(p: Seq<char>, raw: Seq<char>)
    requires
        !raw.contains('［'),
    ensures
        notation::looked(p, raw, '［').0.len() == 0,
        notation::looked(p, raw, '［').1 == raw,
{
}

proof fn lemma_no_marks(t: Step, gaiji: Seq<(String, String)>)
    requires
        !t.raw.contains('［'),
    ensures
        parser_txt::blocks_marked(t) == t || t.done,
        parser_txt::heading_ahead(t) == t,
        parser_txt::heading_set(t, gaiji) == t,
        parser_txt::heading_marked(t, gaiji) == t,
        parser_txt::unindented(t.raw) == t.raw,
        parser_txt::line_indent(t.raw, t.state.indent) == t.state.indent,
{
}

/// A line of text is a paragraph of its own that holds the line's text, and leaves
/// everything else as it was; a blank line is an empty paragraph.
pub proof fn a_line_of_text_is_a_paragraph(s: State, raw: Seq<char>, gaiji: Seq<(String, String)>)
    requires
        is_plain(raw),
        is_open_air(s),
    ensures
        !text::all_white(raw) ==> parser_txt::after_line(s, raw, gaiji) == (State {
            html: s.html + "<p>"@ + line::escaped_from(raw, 0) + "</p>\n"@,
            ..s
        }),
        text::all_white(raw) ==> parser_txt::after_line(s, raw, gaiji) == (State {
            html: s.html + "<p><br/></p>\n"@,
            ..s
        }),
{
    reveal(parser_txt::after_line);
    reveal_strlit("<p");
    reveal_strlit(">");
    reveal_strlit("<p>");
    let t = Step { state: s, raw, pending: parser_txt::nothing_pending(), done: false };
    lemma_no_marks(t, gaiji);
    let none = Seq::<char>::empty();
    assert(parser_txt::class_list(s.styles, 0) =~= none);
    assert(s.images + line::images_in(raw) =~= s.images) by {
        line::a_plain_line_is_only_escaped(raw, gaiji);
    }
    line::a_plain_line_is_only_escaped(raw, gaiji);
    let w = parser_txt::written(s, raw, None, gaiji);
    if !text::all_white(raw) {
        assert(w.html =~= s.html + "<p>"@ + line::escaped_from(raw, 0) + "</p>\n"@);
    }
    assert(parser_txt::closed_behind(w, parser_txt::nothing_pending()) == w);
}

/// What some plain lines are in the body.
pub open spec fn paragraphs(lines: Seq<Seq<char>>, from: int, to: int) -> Seq<char>
    decreases to - from,
{
    if to <= from {
        Seq::empty()
    } else {
        paragraphs(lines, from, to - 1) + if text::all_white(lines[to - 1]) {
            "<p><br/></p>\n"@
        } else {
            "<p>"@ + line::escaped_from(lines[to - 1], 0) + "</p>\n"@
        }
    }
}

/// Lines of text are paragraphs, one for each, in order; nothing is lost of them, and
/// nothing added.
pub proof fn lines_of_text_are_paragraphs(
    lines: Seq<Seq<char>>,
    from: int,
    to: int,
    gaiji: Seq<(String, String)>,
)
    requires
        0 <= from <= to <= lines.len(),
        forall|k: int| from <= k < to ==> is_plain(#[trigger] lines[k]),
    ensures
        parser_txt::body_to(lines, from, to, gaiji) == (State {
            html: paragraphs(lines, from, to),
            ..parser_txt::no_body()
        }),
        is_open_air(parser_txt::body_to(lines, from, to, gaiji)),
    decreases to - from,
{
    if from < to {
        lines_of_text_are_paragraphs(lines, from, to - 1, gaiji);
        let s = parser_txt::body_to(lines, from, to - 1, gaiji);
        let raw = lines[to - 1];
        assert(is_plain(raw));
        a_line_of_text_is_a_paragraph(s, raw, gaiji);
        let h = paragraphs(lines, from, to - 1);
        assert(h + "<p>"@ + line::escaped_from(raw, 0) + "</p>\n"@ =~= h + ("<p>"@ + line::escaped_from(
            raw,
            0,
        ) + "</p>\n"@));
    } else {
        assert(parser_txt::no_body().html =~= Seq::<char>::empty());
    }
}

// ---------------------------------------------------------------- headings

/// The pattern of a heading between its marks, by its size.
pub open spec fn heading_pattern(level: int) -> Seq<char> {
    if level == 2 {
        "［＃大見出し］(.+?)［＃大見出し終わり］"@
    } else if level == 3 {
        "［＃中見出し］(.+?)［＃中見出し終わり］"@
    } else {
        "［＃小見出し］(.+?)［＃小見出し終わり］"@
    }
}

/// The line is a heading of that level and nothing else: the pattern of its marks finds
/// the text, and neither a larger heading nor a mark of a block is found.
pub open spec fn is_heading(raw: Seq<char>, level: int, label: Seq<char>) -> bool {
    let h = notation::looked(heading_pattern(level), raw, '［');
    &&& 2 <= level <= 4
    &&& h.0.len() > 0
    &&& h.0[0].2 == seq![Some(label)]
    &&& forall|k: int| 2 <= k < level ==> notation::looked(#[trigger] heading_pattern(k), raw, '［').0.len() == 0
}

/// A step that no mark of a block changes.
pub open spec fn is_unblocked(t: Step) -> bool {
    parser_txt::blocks_marked(t) == t
}

proof fn lemma_unreplaced(s: Seq<char>, i: int)
    requires
        !s.contains('｜'),
        0 <= i <= s.len(),
    ensures
        text::replace_from(s, "｜"@, ""@, i) == s.subrange(i, s.len() as int),
{
    reveal_strlit("｜");
    text::lemma_find(s, "｜"@, i);
    if let Some(k) = text::spec_find(s, "｜"@, i) {
        assert(s.subrange(k, k + 1)[0] == s[k]);
        assert(s.contains(s[k]));
    }
}

proof fn lemma_label(label: Seq<char>)
    requires
        is_plain(label),
        !label.contains('｜'),
    ensures
        parser_txt::without_notes(label) == label,
        parser_txt::plain(label) == label,
{
    lemma_unfound("［＃「[^」]*」は底本では[^］]*］"@, label);
    lemma_unreplaced(label, 0);
    assert(label.subrange(0, label.len() as int) =~= label);
}

proof fn lemma_set(t: Step, level: int, label: Seq<char>, gaiji: Seq<(String, String)>)
    requires
        is_heading(t.raw, level, label),
        is_plain(label),
        !label.contains('｜'),
    ensures
        parser_txt::heading_set(t, gaiji) == (Step {
            state: parser_txt::headed(t.state, level as u8, label, label, gaiji),
            done: true,
            ..t
        }),
{
    lemma_label(label);
    assert(heading_pattern(2) == "［＃大見出し］(.+?)［＃大見出し終わり］"@);
    assert(heading_pattern(3) == "［＃中見出し］(.+?)［＃中見出し終わり］"@);
    assert(heading_pattern(4) == "［＃小見出し］(.+?)［＃小見出し終わり］"@);
    let h = notation::looked(heading_pattern(level), t.raw, '［');
    assert(notation::group(h.0[0].2, 1) == label);
}

/// The heading as it is written.
pub open spec fn heading_text(level: int, id: Seq<char>, label: Seq<char>) -> Seq<char> {
    let name = "h"@ + text::decimal(level as nat);
    "<"@ + name + " id=\""@ + id + "\">"@ + line::escaped_from(label, 0) + "</"@ + name + ">\n"@
}

/// The id of the heading that follows `n` others.
pub open spec fn heading_id(n: nat) -> Seq<char> {
    "h"@ + text::decimal((n + 1) as nat)
}

proof fn lemma_headed(s: State, level: int, label: Seq<char>, gaiji: Seq<(String, String)>)
    requires
        is_plain(label),
        2 <= level <= 4,
    ensures
        ({
            let u = parser_txt::headed(s, level as u8, label, label, gaiji);
            &&& u.html == s.html + heading_text(level, heading_id(s.toc.len()), label)
            &&& u.toc == s.toc.push((heading_id(s.toc.len()), level as u8, label))
        }),
{
    line::a_plain_line_is_only_escaped(label, gaiji);
    let id = heading_id(s.toc.len());
    let name = "h"@ + text::decimal(level as nat);
    let e = line::escaped_from(label, 0);
    lemma_regroup(s.html, "<"@, name, " id=\""@, id, "\">"@, e, "</"@, ">\n"@);
}

proof fn lemma_regroup(
    a: Seq<char>,
    b: Seq<char>,
    c: Seq<char>,
    d: Seq<char>,
    e: Seq<char>,
    f: Seq<char>,
    g: Seq<char>,
    h: Seq<char>,
    i: Seq<char>,
)
    ensures
        a + b + c + d + e + f + g + h + c + i == a + (b + c + d + e + f + g + h + c + i),
{
    let x = b + c + d + e;
    assert(a + b + c + d + e =~= a + x);
    assert(a + x + f + g + h + c + i =~= a + (x + f + g + h + c + i));
}

/// A heading between its marks is written as one of its level, with its text, and listed
/// in the contents under its id with that text.
pub proof fn a_heading_is_written_and_listed(
    s: State,
    raw: Seq<char>,
    level: int,
    label: Seq<char>,
    gaiji: Seq<(String, String)>,
)
    requires
        is_heading(raw, level, label),
        is_plain(label),
        !label.contains('｜'),
        is_unblocked(Step { state: s, raw, pending: parser_txt::nothing_pending(), done: false }),
    ensures
        ({
            let t = parser_txt::after_line(s, raw, gaiji);
            let id = heading_id(s.toc.len());
            &&& t.toc == s.toc.push((id, level as u8, label))
            &&& text::spec_ends(t.html, heading_text(level, id, label))
        }),
{
    reveal(parser_txt::after_line);
    let t = Step { state: s, raw, pending: parser_txt::nothing_pending(), done: false };
    let a = parser_txt::heading_ahead(t);
    assert(a.raw == raw && a.pending == parser_txt::nothing_pending() && a.state.toc == s.toc);
    lemma_set(a, level, label, gaiji);
    lemma_headed(a.state, level, label, gaiji);
    let u = parser_txt::headed(a.state, level as u8, label, label, gaiji);
    assert(parser_txt::closed_behind(u, a.pending) == u);
    let x = heading_text(level, heading_id(s.toc.len()), label);
    let n = u.html.len() as int;
    assert(u.html.subrange(n - x.len(), n) =~= x);
}

// ---------------------------------------------------------------- readings

/// A base with its reading over it.
pub open spec fn set_over(base: Seq<char>, reading: Seq<char>) -> Seq<char> {
    "<ruby>"@ + base + "<rp>（</rp><rt>"@ + reading + "</rt><rp>）</rp></ruby>"@
}

proof fn lemma_find_open(a: Seq<char>, r: Seq<char>, rest: Seq<char>)
    requires
        !a.contains('《'),
        !r.contains('》'),
    ensures
        ({
            let s = a + seq!['《'] + r + seq!['》'] + rest;
            &&& text::spec_find_char(s, '《', 0) == Some(a.len() as int)
            &&& text::spec_find_char(s, '》', a.len() as int) == Some((a.len() + r.len() + 1) as int)
            &&& s.subrange(0, a.len() as int) == a
            &&& s.subrange((a.len() + 1) as int, (a.len() + 1 + r.len()) as int) == r
        }),
{
    let s = a + seq!['《'] + r + seq!['》'] + rest;
    let n = a.len() as int;
    let m = n + 1 + r.len();
    assert(s[n] == '《' && s[m] == '》');
    assert forall|k: int| 0 <= k < n implies #[trigger] s[k] != '《' by {
        assert(s[k] == a[k]);
        assert(a.contains(a[k]));
    }
    crate::read_back::lemma_find_char_is(s, '《', 0, n);
    assert forall|k: int| n <= k < m implies #[trigger] s[k] != '》' by {
        if k > n {
            assert(s[k] == r[k - n - 1]);
            assert(r.contains(r[k - n - 1]));
        }
    }
    crate::read_back::lemma_find_char_is(s, '》', n, m);
    assert(s.subrange(0, n) =~= a);
    assert(s.subrange(n + 1, m) =~= r);
}

proof fn lemma_ruby_shift(a: Seq<char>, s: Seq<char>, copied: int, search: int)
    requires
        0 <= copied <= search <= s.len(),
    ensures
        line::ruby_from(a + s, a.len() + copied, a.len() + search) == line::ruby_from(s, copied, search),
    decreases s.len() - search,
{
    let t = a + s;
    let n = a.len() as int;
    text::lemma_find_char(s, '《', search);
    text::lemma_find_char_shift(a, s, '《', search);
    assert(t.subrange(n + copied, t.len() as int) =~= s.subrange(copied, s.len() as int));
    if let Some(open) = text::spec_find_char(s, '《', search) {
        text::lemma_find_char(s, '》', open);
        text::lemma_find_char_shift(a, s, '》', open);
        assert(t.subrange(n + copied, n + open) =~= s.subrange(copied, open));
        if let Some(close) = text::spec_find_char(s, '》', open) {
            assert(t.subrange(n + open + 1, n + close) =~= s.subrange(open + 1, close));
            assert(open < close) by {
                assert(s[open] == '《' && s[close] == '》');
            }
            let start = line::base_start(s.subrange(copied, open));
            lemma_ruby_shift(a, s, copied, close + 1);
            lemma_ruby_shift(a, s, close + 1, close + 1);
            if let Some(k) = start {
                let b = copied + k;
                lemma_base_start(s.subrange(copied, open));
                assert(t.subrange(n + copied, n + b) =~= s.subrange(copied, b));
                assert(t.subrange(n + b, n + open) =~= s.subrange(b, open));
            }
        }
    }
}

proof fn lemma_rfind(s: Seq<char>, c: char, i: int)
    requires
        0 <= i <= s.len(),
    ensures
        text::spec_rfind_char(s, c, i) matches Some(k) ==> 0 <= k < i,
    decreases i,
{
    if i > 0 && s[i - 1] != c {
        lemma_rfind(s, c, i - 1);
    }
}

proof fn lemma_run_start(s: Seq<char>, class: line::RubyClass, j: int)
    requires
        0 <= j <= s.len(),
    ensures
        0 <= line::run_start(s, class, j) <= j,
    decreases j,
{
    if j > 0 && line::class_of(s[j - 1] as u32) == class {
        lemma_run_start(s, class, j - 1);
    }
}

proof fn lemma_base_start(head: Seq<char>)
    ensures
        line::base_start(head) matches Some(k) ==> 0 <= k <= head.len(),
{
    lemma_rfind(head, '｜', head.len() as int);
    lemma_rfind(head, '<', head.len() as int);
    lemma_rfind(head, '〔', head.len() as int);
    if head.len() > 0 {
        lemma_run_start(head, line::class_of(head.last() as u32), head.len() as int);
    }
}

proof fn lemma_rfind_is(s: Seq<char>, c: char, k: int, i: int)
    requires
        0 <= k < i <= s.len(),
        s[k] == c,
        forall|j: int| k < j < i ==> #[trigger] s[j] != c,
    ensures
        text::spec_rfind_char(s, c, i) == Some(k),
    decreases i,
{
    if i - 1 > k {
        lemma_rfind_is(s, c, k, i - 1);
    }
}

proof fn lemma_rfind_none(s: Seq<char>, c: char, i: int)
    requires
        !s.contains(c),
        0 <= i <= s.len(),
    ensures
        text::spec_rfind_char(s, c, i) is None,
    decreases i,
{
    if i > 0 {
        assert(s.contains(s[i - 1]));
        lemma_rfind_none(s, c, i - 1);
    }
}

/// A reading behind a marked base is set over all of the base and nothing else; the
/// mark goes, and the text around it stays.
pub proof fn a_reading_is_set_over_its_marked_base(
    head: Seq<char>,
    base: Seq<char>,
    reading: Seq<char>,
    rest: Seq<char>,
)
    requires
        !head.contains('《'),
        !base.contains('《'),
        !base.contains('｜'),
        !base.contains('<'),
        reading.len() > 0,
        !reading.contains('》'),
    ensures
        line::ruby_from(head + seq!['｜'] + base + seq!['《'] + reading + seq!['》'] + rest, 0, 0) == head
            + set_over(base, reading) + line::ruby_from(rest, 0, 0),
{
    let a = head + seq!['｜'] + base;
    let s = a + seq!['《'] + reading + seq!['》'] + rest;
    assert(!a.contains('《')) by {
        if a.contains('《') {
            let k = choose|k: int| 0 <= k < a.len() && a[k] == '《';
            if k < head.len() {
                assert(head.contains(head[k]));
            } else if k > head.len() {
                assert(base.contains(base[k - head.len() - 1]));
            }
        }
    }
    lemma_find_open(a, reading, rest);
    let n = head.len() as int;
    assert(a[n] == '｜');
    assert forall|j: int| n < j < a.len() implies #[trigger] a[j] != '｜' by {
        assert(a[j] == base[j - n - 1]);
        assert(base.contains(base[j - n - 1]));
    }
    lemma_rfind_is(a, '｜', n, a.len() as int);
    let b = s.subrange(n, a.len() as int);
    assert(b =~= seq!['｜'] + base);
    assert(line::unmarked(b) =~= base);
    assert(s.subrange(0, n) =~= head);
    let front = a + seq!['《'] + reading + seq!['》'];
    assert(s =~= front + rest);
    lemma_ruby_shift(front, rest, 0, 0);
    assert(line::ruby(base, reading) == set_over(base, reading));
    let tail = line::ruby_from(rest, 0, 0);
    assert(head + (set_over(base, reading) + tail) =~= head + set_over(base, reading) + tail);
}

proof fn lemma_run_is(s: Seq<char>, class: line::RubyClass, k: int, j: int)
    requires
        0 <= k <= j <= s.len(),
        forall|m: int| k <= m < j ==> line::class_of(#[trigger] s[m] as u32) == class,
        k > 0 ==> line::class_of(s[k - 1] as u32) != class,
    ensures
        line::run_start(s, class, j) == k,
    decreases j,
{
    if k < j {
        assert(line::class_of(s[j - 1] as u32) == class);
        lemma_run_is(s, class, k, j - 1);
    }
}

/// A reading behind an unmarked base is set over the run of characters of one kind
/// before it, kanji or kana or letters, and over nothing else.
pub proof fn a_reading_is_set_over_the_run_before_it(
    head: Seq<char>,
    base: Seq<char>,
    reading: Seq<char>,
    rest: Seq<char>,
    class: line::RubyClass,
)
    requires
        !head.contains('《'),
        !head.contains('｜'),
        class != line::RubyClass::Other,
        base.len() > 0,
        forall|k: int| 0 <= k < base.len() ==> line::class_of(#[trigger] base[k] as u32) == class,
        head.len() > 0 ==> line::class_of(head.last() as u32) != class,
        reading.len() > 0,
        !reading.contains('》'),
    ensures
        line::ruby_from(head + base + seq!['《'] + reading + seq!['》'] + rest, 0, 0) == head + set_over(
            base,
            reading,
        ) + line::ruby_from(rest, 0, 0),
{
    let a = head + base;
    let s = a + seq!['《'] + reading + seq!['》'] + rest;
    let n = head.len() as int;
    assert forall|k: int| 0 <= k < base.len() implies #[trigger] base[k] != '《' && base[k] != '｜' && base[k]
        != '<' && base[k] != '>' && base[k] != '〕' by {
        assert(line::class_of(base[k] as u32) == class);
    }
    assert forall|k: int| 0 <= k < a.len() implies #[trigger] a[k] != '《' && a[k] != '｜' by {
        if k < n {
            assert(a[k] == head[k]);
            assert(head.contains(head[k]));
        } else {
            assert(a[k] == base[k - n]);
        }
    }
    lemma_find_open(a, reading, rest);
    lemma_rfind_none(a, '｜', a.len() as int);
    assert(a.last() == base.last());
    assert forall|m: int| n <= m < a.len() implies line::class_of(#[trigger] a[m] as u32) == class by {
        assert(a[m] == base[m - n]);
    }
    if n > 0 {
        assert(a[n - 1] == head.last());
    }
    lemma_run_is(a, class, n, a.len() as int);
    assert(line::base_start(a) == Some(n));
    let b = s.subrange(n, a.len() as int);
    assert(b =~= base);
    assert(line::unmarked(base) =~= base);
    assert(!base.contains('<'));
    assert(s.subrange(0, n) =~= head);
    let front = a + seq!['《'] + reading + seq!['》'];
    assert(s =~= front + rest);
    lemma_ruby_shift(front, rest, 0, 0);
    let tail = line::ruby_from(rest, 0, 0);
    assert(head + (set_over(base, reading) + tail) =~= head + set_over(base, reading) + tail);
}

/// Kanji are of one class, and so are hiragana, katakana, and letters and digits, half
/// or full width; they are all apart.
pub proof fn the_classes_are_apart(c: u32)
    ensures
        0x4E00 <= c <= 0x9FFF || 0x3400 <= c <= 0x4DBF || c == 0x3005 ==> line::class_of(c)
            == line::RubyClass::Kanji,
        0x3041 <= c <= 0x3096 ==> line::class_of(c) == line::RubyClass::Hiragana,
        0x30A1 <= c <= 0x30FA || c == 0x30FC ==> line::class_of(c) == line::RubyClass::Katakana,
        0x41 <= c <= 0x5A || 0x61 <= c <= 0x7A || 0x30 <= c <= 0x39 || 0xFF10 <= c <= 0xFF19 || 0xFF21 <= c
            <= 0xFF3A || 0xFF41 <= c <= 0xFF5A ==> line::class_of(c) == line::RubyClass::Latin,
        0x3001 <= c <= 0x3002 || 0x300C <= c <= 0x300F || c == 0x3000 || c == 0x20 ==> line::class_of(c)
            == line::RubyClass::Other,
{
}

} // verus!
