//! Ruby, and the annotations within a line.
use vstd::prelude::*;

use crate::aozora::notation;
use crate::text;
use crate::aozora::notation::{
    add_groups, apply_rule, apply_rules, fill_in, group_of, look, Fill, Hit, Hits, Rule,
};
use crate::text::{
    chars_of, copy, find_char, find_str, has, has_char, is, put, put_str, rfind_char, same,
    string_of,
};

verus! {

/// How a character is written in XML text.
pub open spec fn escaped_char(c: char) -> Seq<char> {
    if c == '&' {
        "&amp;"@
    } else if c == '<' {
        "&lt;"@
    } else if c == '>' {
        "&gt;"@
    } else if c == '"' {
        "&quot;"@
    } else if c == '\'' {
        "&apos;"@
    } else {
        seq![c]
    }
}

/// How the text from `i` on is written in XML.
pub open spec fn escaped_from(s: Seq<char>, i: int) -> Seq<char>
    decreases s.len() - i,
{
    if i < 0 || i >= s.len() {
        Seq::empty()
    } else {
        escaped_char(s[i]) + escaped_from(s, i + 1)
    }
}

/// The text as it is written in XML.
fn escape_xml_lazy(s: &[char]) -> (r: Vec<char>)
    ensures
        r@ == escaped_from(s@, 0),
{
    let mut out: Vec<char> = Vec::new();
    let n = s.len();
    let mut i: usize = 0;
    while i < n
        invariant
            i <= n,
            n == s@.len(),
            out@ + escaped_from(s@, i as int) == escaped_from(s@, 0),
        decreases n - i,
    {
        let ghost before = out@;
        let c = s[i];
        if c == '&' {
            put_str(&mut out, "&amp;");
        } else if c == '<' {
            put_str(&mut out, "&lt;");
        } else if c == '>' {
            put_str(&mut out, "&gt;");
        } else if c == '"' {
            put_str(&mut out, "&quot;");
        } else if c == '\'' {
            put_str(&mut out, "&apos;");
        } else {
            out.push(c);
        }
        let ghost rest = escaped_from(s@, i + 1);
        assert(before + (escaped_char(s@[i as int]) + rest) =~= out@ + rest);
        i += 1;
    }
    out
}

/// The character classes an unmarked ruby base is allowed to span.
#[derive(PartialEq, Eq, Clone, Copy, Structural)]
pub enum RubyClass {
    Kanji,
    Hiragana,
    Katakana,
    Latin,
    /// Anything else: ruby attaches to that single character only.
    Other,
}

/// The class of a character.
pub open spec fn class_of(c: u32) -> RubyClass {
    if 0x3005 <= c <= 0x3007 || 0x3400 <= c <= 0x4DBF || 0x4E00 <= c <= 0x9FFF || 0xF900 <= c
        <= 0xFAFF || 0x20000 <= c <= 0x2A6DF || 0x2A700 <= c <= 0x2EBEF || 0x2F800 <= c
        <= 0x2FA1F {
        RubyClass::Kanji
    } else if 0x3041 <= c <= 0x309F {
        RubyClass::Hiragana
    } else if 0x30A1 <= c <= 0x30FF || 0x31F0 <= c <= 0x31FF || 0xFF66 <= c <= 0xFF9F {
        RubyClass::Katakana
    } else if 65 <= c <= 90 || 97 <= c <= 122 || 48 <= c <= 57 || 0xFF10 <= c <= 0xFF19 || 0xFF21
        <= c <= 0xFF3A || 0xFF41 <= c <= 0xFF5A {
        RubyClass::Latin
    } else {
        RubyClass::Other
    }
}

/// The class of a character.
pub fn ruby_class(ch: char) -> (r: RubyClass)
    ensures
        r == class_of(ch as u32),
{
    let c: u32 = ch as u32;
    if 0x3005 <= c && c <= 0x3007 || 0x3400 <= c && c <= 0x4DBF || 0x4E00 <= c && c <= 0x9FFF
        || 0xF900 <= c && c <= 0xFAFF || 0x20000 <= c && c <= 0x2A6DF || 0x2A700 <= c && c
        <= 0x2EBEF || 0x2F800 <= c && c <= 0x2FA1F {
        RubyClass::Kanji
    } else if 0x3041 <= c && c <= 0x309F {
        RubyClass::Hiragana
    } else if 0x30A1 <= c && c <= 0x30FF || 0x31F0 <= c && c <= 0x31FF || 0xFF66 <= c && c
        <= 0xFF9F {
        RubyClass::Katakana
    } else if 65 <= c && c <= 90 || 97 <= c && c <= 122 || 48 <= c && c <= 57 || 0xFF10 <= c && c
        <= 0xFF19 || 0xFF21 <= c && c <= 0xFF3A || 0xFF41 <= c && c <= 0xFF5A {
        RubyClass::Latin
    } else {
        RubyClass::Other
    }
}

/// Where the run of characters of `class` that ends at `j` begins.
pub open spec fn run_start(s: Seq<char>, class: RubyClass, j: int) -> int
    decreases j,
{
    if j <= 0 || j > s.len() || class_of(s[j - 1] as u32) != class {
        j
    } else {
        run_start(s, class, j - 1)
    }
}

/// Where the base of a reading that follows `head` begins: at the last `｜`; else at the element
/// or the 〔…〕 that `head` ends with; else at the run of characters of one class.
pub open spec fn base_start(head: Seq<char>) -> Option<int> {
    match text::spec_rfind_char(head, '｜', head.len() as int) {
        Some(i) => Some(i),
        None => if head.len() == 0 {
            None
        } else if head.last() == '>' {
            text::spec_rfind_char(head, '<', head.len() as int)
        } else if head.last() == '〕' {
            text::spec_rfind_char(head, '〔', head.len() as int)
        } else if class_of(head.last() as u32) == RubyClass::Other {
            Some(head.len() - 1)
        } else {
            Some(run_start(head, class_of(head.last() as u32), head.len() as int))
        },
    }
}

/// Where the base of a reading that follows `head` begins.
pub fn ruby_base_start(head: &[char]) -> (r: Option<usize>)
    ensures
        text::pos(r) == base_start(head@),
        r matches Some(i) ==> i <= head@.len(),
{
    let n = head.len();
    let marked = rfind_char(head, '｜', n);
    if marked.is_some() {
        return marked;
    }
    if n == 0 {
        return None;
    }
    let last = head[n - 1];
    assert(last == head@.last());
    if last == '>' {
        return rfind_char(head, '<', n);
    }
    if last == '〕' {
        return rfind_char(head, '〔', n);
    }
    let class = ruby_class(last);
    if class == RubyClass::Other {
        return Some(n - 1);
    }
    let mut start: usize = n;
    while start > 0 && ruby_class(head[start - 1]) == class
        invariant
            start <= n,
            n == head@.len(),
            run_start(head@, class, start as int) == run_start(head@, class, n as int),
        decreases start,
    {
        start -= 1;
    }
    Some(start)
}

/// An element that is the base of a reading: the reading goes into its `alt` text, unless it
/// stands there already.
pub open spec fn with_reading(base: Seq<char>, reading: Seq<char>) -> Seq<char> {
    match text::spec_find(base, " alt=\""@, 0) {
        Some(a) => {
            let from = a + 6;
            match text::spec_find_char(base, '"', from) {
                Some(to) => if text::spec_contains(base.subrange(from, to), reading) {
                    base
                } else {
                    base.subrange(0, to) + "（"@ + reading + "）"@ + base.subrange(
                        to,
                        base.len() as int,
                    )
                },
                None => base,
            }
        },
        None => base,
    }
}

/// Put the reading into the `alt` text of the element.
fn fold_reading_into_alt(base: &[char], reading: &[char]) -> (r: Vec<char>)
    ensures
        r@ == with_reading(base@, reading@),
{
    let ghost lit = " alt=\""@;
    proof {
        reveal_strlit(" alt=\"");
        text::lemma_find(base@, lit, 0);
    }
    let n = base.len();
    if let Some(a) = find_str(base, " alt=\"", 0) {
        let from = a + 6;
        if let Some(to) = find_char(base, '"', from) {
            proof {
                text::lemma_find_char(base@, '"', from as int);
            }
            let known = has(&base[from..to], reading);
            if !known {
                let mut out = copy(&base[0..to]);
                put_str(&mut out, "（");
                put(&mut out, reading);
                put_str(&mut out, "）");
                put(&mut out, &base[to..n]);
                return out;
            }
        }
    }
    copy(base)
}

/// The base without the `｜` that opens it.
pub open spec fn unmarked(base: Seq<char>) -> Seq<char> {
    if base.len() > 0 && base[0] == '｜' {
        base.subrange(1, base.len() as int)
    } else {
        base
    }
}

/// A base with its reading.
pub open spec fn ruby(base: Seq<char>, reading: Seq<char>) -> Seq<char> {
    if base.contains('<') {
        with_reading(base, reading)
    } else {
        "<ruby>"@ + base + "<rp>（</rp><rt>"@ + reading + "</rt><rp>）</rp></ruby>"@
    }
}

/// The text from `copied` on with its readings set, where `《` is looked for from `search` on.
pub open spec fn ruby_from(s: Seq<char>, copied: int, search: int) -> Seq<char>
    decreases s.len() - search,
{
    match text::spec_find_char(s, '《', search) {
        Some(open) => match text::spec_find_char(s, '》', open) {
            Some(close) => {
                let reading = s.subrange(open + 1, close);
                let start = base_start(s.subrange(copied, open));
                if !(0 <= copied <= search <= open < close < s.len()) {
                    s.subrange(copied, s.len() as int)
                } else if reading.len() == 0 || start is None {
                    ruby_from(s, copied, close + 1)
                } else {
                    let b = copied + start.unwrap();
                    s.subrange(copied, b) + (ruby(unmarked(s.subrange(b, open)), reading)
                        + ruby_from(s, close + 1, close + 1))
                }
            },
            None => s.subrange(copied, s.len() as int),
        },
        None => s.subrange(copied, s.len() as int),
    }
}

fn put_ruby(out: &mut Vec<char>, base: &[char], reading: &[char])
    ensures
        final(out)@ == old(out)@ + ruby(unmarked(base@), reading@),
{
    let n = base.len();
    let plain: &[char] = if n > 0 && base[0] == '｜' {
        &base[1..n]
    } else {
        base
    };
    assert(plain@ =~= unmarked(base@));
    let ghost before = out@;
    if has_char(plain, '<') {
        let set = fold_reading_into_alt(plain, reading);
        put(out, &set);
    } else {
        put_str(out, "<ruby>");
        put(out, plain);
        put_str(out, "<rp>（</rp><rt>");
        put(out, reading);
        put_str(out, "</rt><rp>）</rp></ruby>");
        assert(out@ =~= before + ruby(plain@, reading@));
    }
}

/// Replace every `《reading》` with ruby over the base that precedes it.
pub fn apply_ruby(s: &[char]) -> (r: Vec<char>)
    ensures
        r@ == ruby_from(s@, 0, 0),
{
    let mut out: Vec<char> = Vec::new();
    let n = s.len();
    let mut copied: usize = 0;
    let mut search: usize = 0;
    assert(out@ + ruby_from(s@, 0, 0) =~= ruby_from(s@, 0, 0));
    loop
        invariant
            copied <= search <= n,
            n == s@.len(),
            out@ + ruby_from(s@, copied as int, search as int) == ruby_from(s@, 0, 0),
        ensures
            out@ + s@.subrange(copied as int, n as int) == ruby_from(s@, 0, 0),
        decreases n - search,
    {
        let open = match find_char(s, '《', search) {
            Some(open) => open,
            None => {
                break;
            },
        };
        proof {
            text::lemma_find_char(s@, '《', search as int);
            text::lemma_find_char(s@, '》', open as int);
        }
        let close = match find_char(s, '》', open) {
            Some(close) => close,
            None => {
                break;
            },
        };
        let ghost before = out@;
        assert(s@[open as int] == '《');
        assert(s@[close as int] == '》');
        let reading = &s[open + 1..close];
        let head = &s[copied..open];
        let start = ruby_base_start(head);
        if reading.len() != 0 {
            if let Some(k) = start {
                let b = copied + k;
                put(&mut out, &s[copied..b]);
                put_ruby(&mut out, &s[b..open], reading);
                let ghost first = s@.subrange(copied as int, b as int);
                let ghost set = ruby(unmarked(s@.subrange(b as int, open as int)), reading@);
                let ghost rest = ruby_from(s@, close + 1, close + 1);
                assert(before + (first + (set + rest)) =~= out@ + rest);
                copied = close + 1;
            }
        }
        search = close + 1;
    }
    put(&mut out, &s[copied..n]);
    out
}

/// The tags that an annotation behind the text it speaks of asks for.
pub open spec fn tags(key: Seq<char>) -> Option<(Seq<char>, Seq<char>)> {
    if key == "に傍点"@ {
        Some(("<em class=\"sesame\">"@, "</em>"@))
    } else if key == "に傍線"@ {
        Some(("<span class=\"underline\">"@, "</span>"@))
    } else if key == "に二重傍線"@ {
        Some(("<span class=\"underline-double\">"@, "</span>"@))
    } else if key == "に波線"@ {
        Some(("<span class=\"underline-wavy\">"@, "</span>"@))
    } else if key == "に破線"@ {
        Some(("<span class=\"underline-dashed\">"@, "</span>"@))
    } else if key == "に鎖線"@ {
        Some(("<span class=\"underline-dotted\">"@, "</span>"@))
    } else if key == "は太字"@ {
        Some(("<strong>"@, "</strong>"@))
    } else if key == "はゴシック体"@ {
        Some(("<span class=\"gothic\">"@, "</span>"@))
    } else if key == "は斜体"@ {
        Some(("<i>"@, "</i>"@))
    } else if key == "は罫囲み"@ || key == "は枠囲み"@ {
        Some(("<span class=\"keigakomi\">"@, "</span>"@))
    } else if key == "は行右小書き"@ {
        Some(("<sup>"@, "</sup>"@))
    } else if key == "は行左小書き"@ {
        Some(("<sub>"@, "</sub>"@))
    } else {
        None
    }
}

fn postfix_tags(key: &[char]) -> (r: Option<(&'static str, &'static str)>)
    ensures
        match r {
            Some(t) => tags(key@) == Some((t.0@, t.1@)),
            None => tags(key@) is None,
        },
{
    if is(key, "に傍点") {
        Some(("<em class=\"sesame\">", "</em>"))
    } else if is(key, "に傍線") {
        Some(("<span class=\"underline\">", "</span>"))
    } else if is(key, "に二重傍線") {
        Some(("<span class=\"underline-double\">", "</span>"))
    } else if is(key, "に波線") {
        Some(("<span class=\"underline-wavy\">", "</span>"))
    } else if is(key, "に破線") {
        Some(("<span class=\"underline-dashed\">", "</span>"))
    } else if is(key, "に鎖線") {
        Some(("<span class=\"underline-dotted\">", "</span>"))
    } else if is(key, "は太字") {
        Some(("<strong>", "</strong>"))
    } else if is(key, "はゴシック体") {
        Some(("<span class=\"gothic\">", "</span>"))
    } else if is(key, "は斜体") {
        Some(("<i>", "</i>"))
    } else if is(key, "は罫囲み") || is(key, "は枠囲み") {
        Some(("<span class=\"keigakomi\">", "</span>"))
    } else if is(key, "は行右小書き") {
        Some(("<sup>", "</sup>"))
    } else if is(key, "は行左小書き") {
        Some(("<sub>", "</sub>"))
    } else {
        None
    }
}

/// What a place of a line that is half made into XHTML is part of.
#[derive(Clone, Copy, PartialEq, Eq, Structural)]
pub enum Place {
    Text,
    Tag,
    Entity,
}

/// What stands at the place `i`: source text, or the inside of a tag or of an entity.
pub open spec fn place_at(s: Seq<char>, i: int) -> Place
    decreases i,
{
    if i <= 0 || i > s.len() {
        Place::Text
    } else {
        place_behind(place_at(s, i - 1), s[i - 1])
    }
}

/// What stands behind a character.
pub open spec fn place_behind(p: Place, c: char) -> Place {
    match p {
        Place::Text => if c == '<' {
            Place::Tag
        } else if c == '&' {
            Place::Entity
        } else {
            Place::Text
        },
        Place::Tag => if c == '>' {
            Place::Text
        } else {
            Place::Tag
        },
        Place::Entity => if c == ';' {
            Place::Text
        } else {
            Place::Entity
        },
    }
}

/// The last place up to `i` at which `target` stands in source text.
pub open spec fn nearest(s: Seq<char>, target: Seq<char>, i: int) -> Option<int>
    decreases i + 1,
{
    if i < 0 {
        None
    } else if text::is_at(s, target, i) && place_at(s, i) == Place::Text {
        Some(i)
    } else {
        nearest(s, target, i - 1)
    }
}

fn nearest_of(s: &[char], target: &[char]) -> (r: Option<usize>)
    ensures
        text::pos(r) == nearest(s@, target@, s@.len() as int),
        r matches Some(i) ==> i + target@.len() <= s@.len(),
{
    let n = s.len();
    let k = target.len();
    let mut last: Option<usize> = None;
    let mut here = Place::Text;
    let mut i: usize = 0;
    loop
        invariant
            n == s@.len(),
            k == target@.len(),
            i <= n,
            here == place_at(s@, i as int),
            text::pos(last) == nearest(s@, target@, i - 1),
            last matches Some(j) ==> j + k <= n,
        decreases n - i,
    {
        if here == Place::Text && n - i >= k && same(&s[i..i + k], target) {
            last = Some(i);
        }
        if i == n {
            return last;
        }
        let c = s[i];
        here = match here {
            Place::Text => if c == '<' {
                Place::Tag
            } else if c == '&' {
                Place::Entity
            } else {
                Place::Text
            },
            Place::Tag => if c == '>' {
                Place::Text
            } else {
                Place::Tag
            },
            Place::Entity => if c == ';' {
                Place::Text
            } else {
                Place::Entity
            },
        };
        i += 1;
    }
}

/// The text with tags round the last occurrence of `target` in source text.
pub open spec fn tagged(s: Seq<char>, target: Seq<char>, open: Seq<char>, close: Seq<char>) -> Seq<
    char,
> {
    match nearest(s, target, s.len() as int) {
        Some(i) => s.subrange(0, i) + open + target + close + s.subrange(
            i + target.len(),
            s.len() as int,
        ),
        None => s,
    }
}

/// The text up to the `n`-th annotation, with the tags that the annotations before it ask for
/// round the nearest text before each. An annotation that asks for none stays.
pub open spec fn postfix_to(
    pieces: Seq<(Seq<char>, Seq<char>, Seq<Option<Seq<char>>>)>,
    n: int,
) -> Seq<char>
    decreases n,
{
    if n <= 0 {
        Seq::empty()
    } else {
        let p = pieces[n - 1];
        let head = postfix_to(pieces, n - 1) + p.0;
        match tags(notation::group(p.2, 2)) {
            Some(t) => tagged(head, notation::group(p.2, 1), t.0, t.1),
            None => head + p.1,
        }
    }
}

/// Put the tags that one annotation asks for round the nearest text before it.
fn tag_nearest(out: &mut Vec<char>, h: &Hit)
    ensures
        final(out)@ == ({
            let p = notation::hit(*h);
            let head = old(out)@ + p.0;
            match tags(notation::group(p.2, 2)) {
                Some(t) => tagged(head, notation::group(p.2, 1), t.0, t.1),
                None => head + p.1,
            }
        }),
{
    put_str(out, h.before.as_str());
    let key = group_of(h, 2);
    match postfix_tags(&key) {
        Some((open, close)) => {
            let target = group_of(h, 1);
            let n = out.len();
            let found = nearest_of(out, &target);
            if let Some(i) = found {
                let k = target.len();
                let mut next = copy(&out[0..i]);
                put_str(&mut next, open);
                put(&mut next, &target);
                put_str(&mut next, close);
                put(&mut next, &out[i + k..n]);
                *out = next;
            }
        },
        None => {
            put_str(out, h.whole.as_str());
        },
    }
}

/// What the annotations that stand behind the text they speak of make of a line.
pub fn apply_postfix(h: &Hits) -> (r: String)
    ensures
        r@ == postfix_to(notation::hits(*h).0, notation::hits(*h).0.len() as int)
            + notation::hits(*h).1,
{
    let mut out: Vec<char> = Vec::new();
    let n = h.hits.len();
    let ghost v = notation::hits(*h);
    assert(v.0.len() == n);
    let mut i: usize = 0;
    while i < n
        invariant
            i <= n,
            n == h.hits@.len(),
            v == notation::hits(*h),
            v.0.len() == n,
            out@ == postfix_to(v.0, i as int),
        decreases n - i,
    {
        assert(v.0[i as int] == notation::hit(h.hits@[i as int]));
        tag_nearest(&mut out, &h.hits[i]);
        i += 1;
    }
    put_str(&mut out, h.tail.as_str());
    string_of(&out)
}

/// A rule that writes nothing in place of a match.
pub open spec fn spec_dropping(pattern: &'static str) -> Rule {
    Rule { pattern, fill: Fill::Drop }
}

fn dropping(pattern: &'static str) -> (r: Rule)
    ensures
        r == spec_dropping(pattern),
{
    Rule { pattern, fill: Fill::Drop }
}

/// A rule that writes a group of the match between two texts.
pub open spec fn spec_wrapping(
    pattern: &'static str,
    open: &'static str,
    group: usize,
    close: &'static str,
) -> Rule {
    Rule { pattern, fill: Fill::Wrap { open, group, close } }
}

fn wrapping(
    pattern: &'static str,
    open: &'static str,
    group: usize,
    close: &'static str,
) -> (r: Rule)
    ensures
        r == spec_wrapping(pattern, open, group, close),
{
    Rule { pattern, fill: Fill::Wrap { open, group, close } }
}

/// Notes on the source text, which are removed; then the annotations that enclose the text they
/// speak of, a longer name before a shorter one that ends alike.
pub open spec fn spec_paired_rules() -> Seq<Rule> {
    seq![
        spec_dropping("［＃(?:ルビの)?「[^」]*」は底本では[^］]*］|［＃(?:「[^」]*」は)?ママ］"),
        spec_wrapping(
            "［＃白ゴマ傍点］([^［]*)［＃白ゴマ傍点終わり］",
            "<em class=\"open-sesame\">",
            1,
            "</em>",
        ),
        spec_wrapping(
            "［＃黒三角傍点］([^［]*)［＃黒三角傍点終わり］",
            "<em class=\"triangle\">",
            1,
            "</em>",
        ),
        spec_wrapping(
            "［＃白三角傍点］([^［]*)［＃白三角傍点終わり］",
            "<em class=\"open-triangle\">",
            1,
            "</em>",
        ),
        spec_wrapping(
            "［＃二重丸傍点］([^［]*)［＃二重丸傍点終わり］",
            "<em class=\"double-circle\">",
            1,
            "</em>",
        ),
        spec_wrapping(
            "［＃蛇の目傍点］([^［]*)［＃蛇の目傍点終わり］",
            "<em class=\"double-circle\">",
            1,
            "</em>",
        ),
        spec_wrapping(
            "［＃白丸傍点］([^［]*)［＃白丸傍点終わり］",
            "<em class=\"open-circle\">",
            1,
            "</em>",
        ),
        spec_wrapping(
            "［＃丸傍点］([^［]*)［＃丸傍点終わり］",
            "<em class=\"circle\">",
            1,
            "</em>",
        ),
        spec_wrapping(
            "［＃傍点］([^［]*)［＃傍点終わり］",
            "<em class=\"sesame\">",
            1,
            "</em>",
        ),
        spec_wrapping(
            "［＃二重取消線］([^［]*)［＃二重取消線終わり］",
            "<span class=\"strikethrough-double\">",
            1,
            "</span>",
        ),
        spec_wrapping(
            "［＃取消線］([^［]*)［＃取消線終わり］",
            "<span class=\"strikethrough\">",
            1,
            "</span>",
        ),
        spec_wrapping(
            "［＃二重傍線］([^［]*)［＃二重傍線終わり］",
            "<span class=\"underline-double\">",
            1,
            "</span>",
        ),
        spec_wrapping(
            "［＃傍線］([^［]*)［＃傍線終わり］",
            "<span class=\"underline\">",
            1,
            "</span>",
        ),
        spec_wrapping(
            "［＃波線］([^［]*)［＃波線終わり］",
            "<span class=\"underline-wavy\">",
            1,
            "</span>",
        ),
        spec_wrapping(
            "［＃破線］([^［]*)［＃破線終わり］",
            "<span class=\"underline-dashed\">",
            1,
            "</span>",
        ),
        spec_wrapping(
            "［＃鎖線］([^［]*)［＃鎖線終わり］",
            "<span class=\"underline-dotted\">",
            1,
            "</span>",
        ),
        spec_wrapping(
            "［＃太字］([^［]*)［＃太字終わり］",
            "<strong>",
            1,
            "</strong>",
        ),
        spec_wrapping(
            "［＃ゴシック体］([^［]*)［＃ゴシック体終わり］",
            "<span class=\"gothic\">",
            1,
            "</span>",
        ),
        spec_wrapping(
            "［＃斜体］([^［]*)［＃斜体終わり］",
            "<i>",
            1,
            "</i>",
        ),
        spec_wrapping(
            "［＃上付き小文字］([^［]*)［＃上付き小文字終わり］",
            "<sup>",
            1,
            "</sup>",
        ),
        spec_wrapping(
            "［＃下付き小文字］([^［]*)［＃下付き小文字終わり］",
            "<sub>",
            1,
            "</sub>",
        ),
        spec_wrapping(
            "［＃行右小書き］([^［]*)［＃行右小書き終わり］",
            "<sup>",
            1,
            "</sup>",
        ),
        spec_wrapping(
            "［＃行左小書き］([^［]*)［＃行左小書き終わり］",
            "<sub>",
            1,
            "</sub>",
        ),
        spec_wrapping(
            "［＃(?:ばつ|×)傍点］([^［]*)［＃(?:ばつ|×)傍点終わり］",
            "<em class=\"batsu\">",
            1,
            "</em>",
        ),
        spec_wrapping(
            "［＃(?:罫囲み|枠囲み)］([^［]*)［＃(?:罫囲み|枠囲み)終わり］",
            "<span class=\"keigakomi\">",
            1,
            "</span>",
        ),
        spec_wrapping(
            "［＃破線(?:罫囲み|枠囲み)］([^［]*)［＃破線(?:罫囲み|枠囲み)終わり］",
            "<span class=\"keigakomi-dashed\">",
            1,
            "</span>",
        ),
        spec_wrapping(
            "［＃二重(?:罫囲み|枠囲み)］([^［]*)［＃二重(?:罫囲み|枠囲み)終わり］",
            "<span class=\"keigakomi-double\">",
            1,
            "</span>",
        ),
        spec_wrapping(
            "［＃(返り点)］([^［]*)［＃返り点終わり］",
            "<sup class=\"kaeriten\">",
            2,
            "</sup>",
        ),
        Rule { pattern: "［＃([０-９0-9]+)段階大きな文字］([^［]*)［＃大きな文字終わり］", fill: Fill::Bigger },
        Rule { pattern: "［＃([０-９0-9]+)段階小さな文字］([^［]*)［＃小さな文字終わり］", fill: Fill::Smaller },
    ]
}

/// Notes on the source text, which are removed; then the annotations that enclose the text they
/// speak of, a longer name before a shorter one that ends alike.
fn paired_rules() -> (r: Vec<Rule>)
    ensures
        r@ == spec_paired_rules(),
{
    let rules: Vec<Rule> = vec![
        dropping("［＃(?:ルビの)?「[^」]*」は底本では[^］]*］|［＃(?:「[^」]*」は)?ママ］"),
        wrapping(
            "［＃白ゴマ傍点］([^［]*)［＃白ゴマ傍点終わり］",
            "<em class=\"open-sesame\">",
            1,
            "</em>",
        ),
        wrapping(
            "［＃黒三角傍点］([^［]*)［＃黒三角傍点終わり］",
            "<em class=\"triangle\">",
            1,
            "</em>",
        ),
        wrapping(
            "［＃白三角傍点］([^［]*)［＃白三角傍点終わり］",
            "<em class=\"open-triangle\">",
            1,
            "</em>",
        ),
        wrapping(
            "［＃二重丸傍点］([^［]*)［＃二重丸傍点終わり］",
            "<em class=\"double-circle\">",
            1,
            "</em>",
        ),
        wrapping(
            "［＃蛇の目傍点］([^［]*)［＃蛇の目傍点終わり］",
            "<em class=\"double-circle\">",
            1,
            "</em>",
        ),
        wrapping(
            "［＃白丸傍点］([^［]*)［＃白丸傍点終わり］",
            "<em class=\"open-circle\">",
            1,
            "</em>",
        ),
        wrapping(
            "［＃丸傍点］([^［]*)［＃丸傍点終わり］",
            "<em class=\"circle\">",
            1,
            "</em>",
        ),
        wrapping(
            "［＃傍点］([^［]*)［＃傍点終わり］",
            "<em class=\"sesame\">",
            1,
            "</em>",
        ),
        wrapping(
            "［＃二重取消線］([^［]*)［＃二重取消線終わり］",
            "<span class=\"strikethrough-double\">",
            1,
            "</span>",
        ),
        wrapping(
            "［＃取消線］([^［]*)［＃取消線終わり］",
            "<span class=\"strikethrough\">",
            1,
            "</span>",
        ),
        wrapping(
            "［＃二重傍線］([^［]*)［＃二重傍線終わり］",
            "<span class=\"underline-double\">",
            1,
            "</span>",
        ),
        wrapping(
            "［＃傍線］([^［]*)［＃傍線終わり］",
            "<span class=\"underline\">",
            1,
            "</span>",
        ),
        wrapping(
            "［＃波線］([^［]*)［＃波線終わり］",
            "<span class=\"underline-wavy\">",
            1,
            "</span>",
        ),
        wrapping(
            "［＃破線］([^［]*)［＃破線終わり］",
            "<span class=\"underline-dashed\">",
            1,
            "</span>",
        ),
        wrapping(
            "［＃鎖線］([^［]*)［＃鎖線終わり］",
            "<span class=\"underline-dotted\">",
            1,
            "</span>",
        ),
        wrapping(
            "［＃太字］([^［]*)［＃太字終わり］",
            "<strong>",
            1,
            "</strong>",
        ),
        wrapping(
            "［＃ゴシック体］([^［]*)［＃ゴシック体終わり］",
            "<span class=\"gothic\">",
            1,
            "</span>",
        ),
        wrapping(
            "［＃斜体］([^［]*)［＃斜体終わり］",
            "<i>",
            1,
            "</i>",
        ),
        wrapping(
            "［＃上付き小文字］([^［]*)［＃上付き小文字終わり］",
            "<sup>",
            1,
            "</sup>",
        ),
        wrapping(
            "［＃下付き小文字］([^［]*)［＃下付き小文字終わり］",
            "<sub>",
            1,
            "</sub>",
        ),
        wrapping(
            "［＃行右小書き］([^［]*)［＃行右小書き終わり］",
            "<sup>",
            1,
            "</sup>",
        ),
        wrapping(
            "［＃行左小書き］([^［]*)［＃行左小書き終わり］",
            "<sub>",
            1,
            "</sub>",
        ),
        wrapping(
            "［＃(?:ばつ|×)傍点］([^［]*)［＃(?:ばつ|×)傍点終わり］",
            "<em class=\"batsu\">",
            1,
            "</em>",
        ),
        wrapping(
            "［＃(?:罫囲み|枠囲み)］([^［]*)［＃(?:罫囲み|枠囲み)終わり］",
            "<span class=\"keigakomi\">",
            1,
            "</span>",
        ),
        wrapping(
            "［＃破線(?:罫囲み|枠囲み)］([^［]*)［＃破線(?:罫囲み|枠囲み)終わり］",
            "<span class=\"keigakomi-dashed\">",
            1,
            "</span>",
        ),
        wrapping(
            "［＃二重(?:罫囲み|枠囲み)］([^［]*)［＃二重(?:罫囲み|枠囲み)終わり］",
            "<span class=\"keigakomi-double\">",
            1,
            "</span>",
        ),
        wrapping(
            "［＃(返り点)］([^［]*)［＃返り点終わり］",
            "<sup class=\"kaeriten\">",
            2,
            "</sup>",
        ),
        Rule { pattern: "［＃([０-９0-9]+)段階大きな文字］([^［]*)［＃大きな文字終わり］", fill: Fill::Bigger },
        Rule { pattern: "［＃([０-９0-9]+)段階小さな文字］([^［]*)［＃小さな文字終わり］", fill: Fill::Smaller },
    ];
    assert(rules@ =~= spec_paired_rules());
    rules
}

/// What is left once the annotations that enclose or follow a text are done. The last rule removes
/// every annotation that no other took.
pub open spec fn spec_closing_rules() -> Seq<Rule> {
    seq![
        spec_wrapping(
            "［＃割り注］([^［]*)［＃割り注終わり］",
            "<span class=\"warichu\">",
            1,
            "</span>",
        ),
        spec_dropping("［＃「[^」]*」は底本では[^］]*］"),
        spec_dropping("［＃「.*」は[大中小]見出し］"),
        spec_wrapping(
            "［＃地から[０-９0-9]+字上げ］(.*)$",
            "<br/><span class=\"chitsuki\">",
            1,
            "</span>",
        ),
        spec_wrapping(
            "［＃地付き］(.*)$",
            "<br/><span class=\"chitsuki\">",
            1,
            "</span>",
        ),
        spec_dropping("［＃[^］]*］"),
    ]
}

/// What is left once the annotations that enclose or follow a text are done. The last rule removes
/// every annotation that no other took.
fn closing_rules() -> (r: Vec<Rule>)
    ensures
        r@ == spec_closing_rules(),
{
    let rules: Vec<Rule> = vec![
        wrapping(
            "［＃割り注］([^［]*)［＃割り注終わり］",
            "<span class=\"warichu\">",
            1,
            "</span>",
        ),
        dropping("［＃「[^」]*」は底本では[^］]*］"),
        dropping("［＃「.*」は[大中小]見出し］"),
        wrapping(
            "［＃地から[０-９0-9]+字上げ］(.*)$",
            "<br/><span class=\"chitsuki\">",
            1,
            "</span>",
        ),
        wrapping(
            "［＃地付き］(.*)$",
            "<br/><span class=\"chitsuki\">",
            1,
            "</span>",
        ),
        dropping("［＃[^］]*］"),
    ];
    assert(rules@ =~= spec_closing_rules());
    rules
}

/// Every match of the pattern of the annotations that follow the text they speak of.
pub open spec fn postfix_hits(s: Seq<char>) -> (
    Seq<(Seq<char>, Seq<char>, Seq<Option<Seq<char>>>)>,
    Seq<char>,
) {
    notation::looked(
        "［＃「([^」]+)」(はゴシック体|は行右小書き|は行左小書き|に二重傍線|は罫囲み|は枠囲み|に傍点|に傍線|に波線|に破線|に鎖線|は太字|は斜体)］"@,
        s,
        '「',
    )
}

/// A line after the annotations that follow the text they speak of.
pub open spec fn with_postfix(s: Seq<char>) -> Seq<char> {
    let h = postfix_hits(s);
    postfix_to(h.0, h.0.len() as int) + h.1
}

fn apply_postfix_annotations(s: &str) -> (r: String)
    ensures
        r@ == with_postfix(s@),
{
    let h = look(
        "［＃「([^」]+)」(はゴシック体|は行右小書き|は行左小書き|に二重傍線|は罫囲み|は枠囲み|に傍点|に傍線|に波線|に破線|に鎖線|は太字|は斜体)］",
        s,
        '「',
    );
    apply_postfix(&h)
}

/// The image references of a line.
pub open spec fn image_hits(s: Seq<char>) -> (
    Seq<(Seq<char>, Seq<char>, Seq<Option<Seq<char>>>)>,
    Seq<char>,
) {
    notation::looked("［＃([^（］]*)（([^、]+)、[^）]*）入る］"@, s, '［')
}

/// The rule for characters that the source could only describe.
pub open spec fn gaiji_rule() -> Rule {
    Rule { pattern: "※［＃([^］]*)］", fill: Fill::Gaiji }
}

/// A line whose image references, described characters and readings are set.
pub open spec fn set_line(line: Seq<char>, gaiji: Seq<(String, String)>) -> Seq<char> {
    let a = escaped_from(line, 0);
    let h = image_hits(a);
    let b = if line.contains('［') {
        notation::filled_from(Fill::Image, h.0, 0, h.1, gaiji)
    } else {
        a
    };
    let c = if line.contains('※') {
        notation::ruled(b, gaiji_rule(), '※', gaiji)
    } else {
        b
    };
    if line.contains('《') {
        ruby_from(c, 0, 0)
    } else {
        c
    }
}

/// A line as inline XHTML: the image references, the described characters and the readings are
/// set, and then the annotations.
pub open spec fn converted(line: Seq<char>, gaiji: Seq<(String, String)>) -> Seq<char> {
    let set = set_line(line, gaiji);
    if line.contains('［') {
        let paired = notation::ruled_to(
            set,
            spec_paired_rules(),
            spec_paired_rules().len() as int,
            gaiji,
        );
        notation::ruled_to(
            with_postfix(paired),
            spec_closing_rules(),
            spec_closing_rules().len() as int,
            gaiji,
        )
    } else {
        set
    }
}

/// The image files that a line refers to.
pub open spec fn images_in(line: Seq<char>) -> Seq<Seq<char>> {
    if line.contains('［') {
        notation::groups_from(image_hits(escaped_from(line, 0)).0, 2, 0)
    } else {
        Seq::empty()
    }
}

/// A line whose image references, described characters and readings are set.
fn set_marks(line: &[char], images: &mut Vec<String>, gaiji: &Vec<(String, String)>) -> (r: String)
    ensures
        r@ == set_line(line@, gaiji@),
        text::strs(final(images)@) == text::strs(old(images)@) + images_in(line@),
{
    let escaped = escape_xml_lazy(line);
    let mut s = string_of(&escaped);
    let ghost start = text::strs(images@);
    if has_char(line, '［') {
        let h = look("［＃([^（］]*)（([^、]+)、[^）]*）入る］", s.as_str(), '［');
        add_groups(&h, 2, images);
        s = fill_in(&h, Fill::Image, gaiji);
    } else {
        assert(start + images_in(line@) =~= start);
    }
    if has_char(line, '※') {
        let rule = Rule { pattern: "※［＃([^］]*)］", fill: Fill::Gaiji };
        s = apply_rule(s.as_str(), &rule, '※', gaiji);
    }
    if has_char(line, '《') {
        let t = chars_of(s.as_str());
        let set = apply_ruby(&t);
        s = string_of(&set);
    }
    s
}

/// Convert one line of Aozora source to inline XHTML: ruby, described characters, images and the
/// inline annotations. Exposed for the parts of a document that are not body lines but are still
/// written in the same notation (the colophon). `gaiji` gives the characters that descriptions
/// name; the files of the images go to the end of `images`.
pub fn convert_line(line: &str, images: &mut Vec<String>, gaiji: &Vec<(String, String)>) -> (r:
    String)
    ensures
        r@ == converted(line@, gaiji@),
        text::strs(final(images)@) == text::strs(old(images)@) + images_in(line@),
{
    let chars = chars_of(line);
    let set = set_marks(&chars, images, gaiji);
    if !has_char(&chars, '［') {
        return set;
    }
    let paired = apply_rules(set.as_str(), &paired_rules(), gaiji);
    let followed = apply_postfix_annotations(paired.as_str());
    apply_rules(followed.as_str(), &closing_rules(), gaiji)
}

/// A line without notation is only escaped, and refers to no image.
pub proof fn a_plain_line_is_only_escaped(line: Seq<char>, gaiji: Seq<(String, String)>)
    requires
        !line.contains('［'),
        !line.contains('※'),
        !line.contains('《'),
    ensures
        converted(line, gaiji) == escaped_from(line, 0),
        images_in(line).len() == 0,
{
}

proof fn lemma_escaped(s: Seq<char>, i: int)
    ensures
        !escaped_from(s, i).contains('<'),
        !escaped_from(s, i).contains('>'),
        !escaped_from(s, i).contains('"'),
    decreases s.len() - i,
{
    if 0 <= i < s.len() {
        lemma_escaped(s, i + 1);
        reveal_strlit("&amp;");
        reveal_strlit("&lt;");
        reveal_strlit("&gt;");
        reveal_strlit("&quot;");
        reveal_strlit("&apos;");
        let a = escaped_char(s[i]);
        let b = escaped_from(s, i + 1);
        assert forall|k: int| 0 <= k < (a + b).len() implies (#[trigger] (a + b)[k]) != '<' && (a
            + b)[k] != '>' && (a + b)[k] != '"' by {
            if k < a.len() {
                assert((a + b)[k] == a[k]);
            } else {
                assert((a + b)[k] == b[k - a.len()]);
                assert(b.contains(b[k - a.len()]));
            }
        }
    }
}

/// No text of the source becomes markup: what is escaped holds no `<`, no `>` and no `"`, so that
/// every tag in a converted line was written by the conversion.
pub proof fn escaped_text_holds_no_markup(s: Seq<char>)
    ensures
        !escaped_from(s, 0).contains('<'),
        !escaped_from(s, 0).contains('>'),
        !escaped_from(s, 0).contains('"'),
{
    lemma_escaped(s, 0);
}

} // verus!
