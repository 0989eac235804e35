//! Finding the annotations of a line, and writing something in their place.
use vstd::prelude::*;

use crate::text;
use crate::volume_number;
use crate::text::{
    add_str, chars_of, decimal_of_sum, has_char, put, put_str, same, string_of, trim,
};
use crate::volume_number::digit_of;

verus! {

/// One match of a pattern: the text between the match before it and this one, the matched text,
/// and what each capturing group took part in it with.
pub struct Hit {
    pub before: String,
    pub whole: String,
    pub groups: Vec<Option<String>>,
}

/// Every match of a pattern in a text, from left to right, and the text behind the last one.
pub struct Hits {
    pub hits: Vec<Hit>,
    pub tail: String,
}

/// What a match holds: text before it, the match, and its groups.
pub open spec fn hit(h: Hit) -> (Seq<char>, Seq<char>, Seq<Option<Seq<char>>>) {
    (h.before@, h.whole@, groups_of(h.groups@))
}

pub open spec fn groups_of(v: Seq<Option<String>>) -> Seq<Option<Seq<char>>> {
    v.map_values(|g: Option<String>| text::opt_str(g))
}

/// What a list of matches holds.
pub open spec fn hits(h: Hits) -> (Seq<(Seq<char>, Seq<char>, Seq<Option<Seq<char>>>)>, Seq<char>) {
    (h.hits@.map_values(|x: Hit| hit(x)), h.tail@)
}

/// A match of a pattern: where it starts and ends in the text, in characters, and its groups.
pub struct Match {
    pub start: usize,
    pub end: usize,
    pub groups: Vec<Option<String>>,
}

/// What a list of matches says.
pub open spec fn match_list(v: Seq<Match>) -> Seq<(int, int, Seq<Option<Seq<char>>>)> {
    v.map_values(|m: Match| (m.start as int, m.end as int, groups_of(m.groups@)))
}

/// The matches of the pattern in the text, as `regex::Regex::captures_iter` gives them. A pattern
/// that `regex::Regex::new` refuses has none.
pub uninterp spec fn matched(pattern: Seq<char>, text: Seq<char>) -> Seq<
    (int, int, Seq<Option<Seq<char>>>),
>;

/// The matches lie in a text of `n` characters, one behind the other.
pub open spec fn in_line(v: Seq<(int, int, Seq<Option<Seq<char>>>)>, n: int) -> bool {
    &&& forall|i: int| 0 <= i < v.len() ==> 0 <= (#[trigger] v[i]).0 <= v[i].1 <= n
    &&& forall|i: int, j: int| 0 <= i < j < v.len() ==> (#[trigger] v[i]).1 <= (#[trigger] v[j]).0
}

/// `regex::Regex::new` and `captures_iter`: the non-overlapping matches of `pattern` in `text`.
/// Believed: the matches depend on the pattern and the text alone, lie in the text, and stand one
/// behind the other.
#[verifier::external_body]
fn captures(pattern: &str, text: &str) -> (r: Vec<Match>)
    ensures
        match_list(r@) == matched(pattern@, text@),
        in_line(match_list(r@), text@.len() as int),
{
    let mut out: Vec<Match> = Vec::new();
    if let Ok(re) = regex::Regex::new(pattern) {
        for c in re.captures_iter(text) {
            let m = c.get(0).unwrap();
            let start = text[..m.start()].chars().count();
            let end = text[..m.end()].chars().count();
            let groups = c.iter().skip(1).map(|g| g.map(|g| g.as_str().to_string())).collect();
            out.push(Match { start, end, groups });
        }
    }
    out
}

/// Where the matches before the `i`-th end.
pub open spec fn past(v: Seq<(int, int, Seq<Option<Seq<char>>>)>, i: int) -> int {
    if i <= 0 {
        0
    } else {
        v[i - 1].1
    }
}

/// The matches with the text before each.
pub open spec fn pieces(v: Seq<(int, int, Seq<Option<Seq<char>>>)>, t: Seq<char>) -> Seq<
    (Seq<char>, Seq<char>, Seq<Option<Seq<char>>>),
> {
    Seq::new(
        v.len(),
        |i: int| (t.subrange(past(v, i), v[i].0), t.subrange(v[i].0, v[i].1), v[i].2),
    )
}

/// The matches of the pattern in the text, each with the text before it, and the text behind them.
pub open spec fn found(pattern: Seq<char>, text: Seq<char>) -> (
    Seq<(Seq<char>, Seq<char>, Seq<Option<Seq<char>>>)>,
    Seq<char>,
) {
    let v = matched(pattern, text);
    (pieces(v, text), text.subrange(past(v, v.len() as int), text.len() as int))
}

/// The text that matches from the `i`-th on, and what stands between them, spell.
pub open spec fn spelled(
    pieces: Seq<(Seq<char>, Seq<char>, Seq<Option<Seq<char>>>)>,
    i: int,
    tail: Seq<char>,
) -> Seq<char>
    decreases pieces.len() - i,
{
    if i < 0 || i >= pieces.len() {
        tail
    } else {
        pieces[i].0 + (pieces[i].1 + spelled(pieces, i + 1, tail))
    }
}

/// The matches, and the text between them and behind them, spell the text.
proof fn lemma_spelled(v: Seq<(int, int, Seq<Option<Seq<char>>>)>, t: Seq<char>, i: int)
    requires
        in_line(v, t.len() as int),
        0 <= i <= v.len(),
    ensures
        0 <= past(v, i) <= t.len(),
        spelled(
            pieces(v, t),
            i,
            t.subrange(past(v, v.len() as int), t.len() as int),
        ) == t.subrange(past(v, i), t.len() as int),
    decreases v.len() - i,
{
    if i > 0 {
        assert(0 <= v[i - 1].0 <= v[i - 1].1 <= t.len());
    }
    if i < v.len() {
        lemma_spelled(v, t, i + 1);
        assert(0 <= v[i].0 <= v[i].1 <= t.len());
        if i > 0 {
            assert(v[i - 1].1 <= v[i].0);
        }
        let n = t.len() as int;
        assert(t.subrange(past(v, i), v[i].0) + (t.subrange(v[i].0, v[i].1) + t.subrange(v[i].1, n))
            =~= t.subrange(past(v, i), n));
    }
}

fn copy_groups(v: &Vec<Option<String>>) -> (r: Vec<Option<String>>)
    ensures
        groups_of(r@) == groups_of(v@),
{
    let mut out: Vec<Option<String>> = Vec::new();
    let mut i: usize = 0;
    while i < v.len()
        invariant
            i <= v@.len(),
            groups_of(out@) == groups_of(v@).take(i as int),
        decreases v@.len() - i,
    {
        let ghost before = out@;
        let g = match &v[i] {
            Some(s) => Some(s.clone()),
            None => None,
        };
        assert(text::opt_str(g) == text::opt_str(v@[i as int]));
        out.push(g);
        assert(groups_of(out@) =~= groups_of(before).push(text::opt_str(g)));
        assert(groups_of(v@).take(i + 1) =~= groups_of(v@).take(i as int).push(
            groups_of(v@)[i as int],
        ));
        i = i + 1;
    }
    assert(groups_of(v@).take(v@.len() as int) =~= groups_of(v@));
    out
}

/// The matches of the pattern in the text, each with the text before it, and the text behind them.
fn matches_of(pattern: &str, text: &str) -> (r: Hits)
    ensures
        hits(r) == found(pattern@, text@),
        spelled(hits(r).0, 0, hits(r).1) == text@,
{
    let t = chars_of(text);
    let v = captures(pattern, text);
    let ghost vs = match_list(v@);
    let ghost all = pieces(vs, t@);
    let mut out: Vec<Hit> = Vec::new();
    let mut from: usize = 0;
    let mut i: usize = 0;
    assert(out@.map_values(|x: Hit| hit(x)) =~= all.take(0));
    while i < v.len()
        invariant
            i <= v@.len(),
            vs == match_list(v@),
            vs.len() == v@.len(),
            all == pieces(vs, t@),
            in_line(vs, t@.len() as int),
            from == past(vs, i as int),
            from <= t@.len(),
            out@.map_values(|x: Hit| hit(x)) == all.take(i as int),
        decreases v@.len() - i,
    {
        let ghost before = out@;
        assert(vs[i as int] == (
            v@[i as int].start as int,
            v@[i as int].end as int,
            groups_of(v@[i as int].groups@),
        ));
        assert(0 <= vs[i as int].0 <= vs[i as int].1 <= t@.len());
        proof {
            if i > 0 {
                assert(vs[i - 1].1 <= vs[i as int].0);
            }
        }
        let (start, end) = (v[i].start, v[i].end);
        let h = Hit {
            before: string_of(&t[from..start]),
            whole: string_of(&t[start..end]),
            groups: copy_groups(&v[i].groups),
        };
        assert(hit(h) == all[i as int]);
        out.push(h);
        assert(out@.map_values(|x: Hit| hit(x)) =~= before.map_values(|x: Hit| hit(x)).push(hit(h)));
        assert(all.take(i + 1) =~= all.take(i as int).push(all[i as int]));
        from = end;
        i = i + 1;
    }
    assert(all.take(vs.len() as int) =~= all);
    proof {
        lemma_spelled(vs, t@, 0);
        assert(t@.subrange(0, t@.len() as int) =~= t@);
    }
    let n = t.len();
    Hits { hits: out, tail: string_of(&t[from..n]) }
}

/// The matches of a pattern every match of which holds `mark`: none where the text lacks it.
pub open spec fn looked(pattern: Seq<char>, text: Seq<char>, mark: char) -> (
    Seq<(Seq<char>, Seq<char>, Seq<Option<Seq<char>>>)>,
    Seq<char>,
) {
    if text.contains(mark) {
        found(pattern, text)
    } else {
        (Seq::empty(), text)
    }
}

/// The matches of `pattern`, of which each holds `mark`, in `text`.
pub fn look(pattern: &str, text: &str, mark: char) -> (r: Hits)
    ensures
        hits(r) == looked(pattern@, text@, mark),
        spelled(hits(r).0, 0, hits(r).1) == text@,
{
    let t = chars_of(text);
    if has_char(&t, mark) {
        return matches_of(pattern, text);
    }
    let r = Hits { hits: Vec::new(), tail: string_of(&t) };
    assert(hits(r).0 =~= Seq::empty());
    r
}

/// The text of the `n`-th group, counted from 1; empty where it took no part.
pub open spec fn group(groups: Seq<Option<Seq<char>>>, n: int) -> Seq<char> {
    if 1 <= n <= groups.len() {
        match groups[n - 1] {
            Some(s) => s,
            None => Seq::empty(),
        }
    } else {
        Seq::empty()
    }
}

/// The text of the `n`-th group of a match, counted from 1.
pub fn group_of(h: &Hit, n: usize) -> (r: Vec<char>)
    ensures
        r@ == group(hit(*h).2, n as int),
{
    let k = h.groups.len();
    if n >= 1 && n <= k {
        assert(hit(*h).2[n - 1] == text::opt_str(h.groups@[n - 1]));
        if let Some(s) = &h.groups[n - 1] {
            return chars_of(s.as_str());
        }
    }
    Vec::new()
}

/// The text without its first match.
pub open spec fn without_first(
    h: (Seq<(Seq<char>, Seq<char>, Seq<Option<Seq<char>>>)>, Seq<char>),
) -> Seq<char> {
    if h.0.len() == 0 {
        h.1
    } else {
        h.0[0].0 + spelled(h.0, 1, h.1)
    }
}

/// The text without its first match.
pub fn drop_first(h: &Hits) -> (r: String)
    ensures
        r@ == without_first(hits(*h)),
{
    let mut out: Vec<char> = Vec::new();
    let n = h.hits.len();
    let ghost v = hits(*h);
    assert(v.0.len() == n);
    if n == 0 {
        put_str(&mut out, h.tail.as_str());
        return string_of(&out);
    }
    assert(v.0[0] == hit(h.hits@[0]));
    put_str(&mut out, h.hits[0].before.as_str());
    let mut i: usize = 1;
    while i < n
        invariant
            1 <= i <= n,
            n == h.hits@.len(),
            v == hits(*h),
            v.0.len() == n,
            out@ + spelled(v.0, i as int, v.1) == without_first(v),
        decreases n - i,
    {
        assert(v.0[i as int] == hit(h.hits@[i as int]));
        let ghost before = out@;
        let ghost rest = spelled(v.0, i + 1, v.1);
        put_str(&mut out, h.hits[i].before.as_str());
        put_str(&mut out, h.hits[i].whole.as_str());
        assert(before + (v.0[i as int].0 + (v.0[i as int].1 + rest)) =~= out@ + rest);
        i += 1;
    }
    put_str(&mut out, h.tail.as_str());
    string_of(&out)
}

/// What is written in place of a match.
#[derive(Clone, Copy)]
pub enum Fill {
    /// Nothing.
    Drop,
    /// A group between an opening and a closing text.
    Wrap { open: &'static str, group: usize, close: &'static str },
    /// The second group, larger by the steps that the first counts.
    Bigger,
    /// The second group, smaller by the steps that the first counts.
    Smaller,
    /// An image: the second group names its file, the first describes it.
    Image,
    /// The character that the first group describes.
    Gaiji,
}

/// What the digits from `i` on make of `acc`; `None` past 32 bits or where something else stands.
pub open spec fn number_from(s: Seq<char>, i: int, acc: int) -> Option<int>
    decreases s.len() - i,
{
    if i < 0 || i >= s.len() {
        Some(acc)
    } else {
        match volume_number::digit(s[i]) {
            Some(d) => if acc * 10 + d > u32::MAX {
                None
            } else {
                number_from(s, i + 1, acc * 10 + d)
            },
            None => None,
        }
    }
}

/// The number that a text of digits, half or full width, spells.
pub open spec fn number(s: Seq<char>) -> Option<int> {
    let from = if s.len() > 0 && s[0] == '+' { 1int } else { 0 };
    if s.len() == from {
        None
    } else {
        number_from(s, from, 0)
    }
}

/// The number that a text of digits, half or full width, spells.
pub fn parse_zenkaku_int(s: &[char]) -> (r: Option<u32>)
    ensures
        match r {
            Some(n) => number(s@) == Some(n as int),
            None => number(s@) is None,
        },
{
    let n = s.len();
    let mut i: usize = if n > 0 && s[0] == '+' { 1 } else { 0 };
    if i == n {
        return None;
    }
    let mut acc: u64 = 0;
    while i < n
        invariant
            i <= n,
            n == s@.len(),
            acc <= u32::MAX,
            number_from(s@, i as int, acc as int) == number(s@),
        decreases n - i,
    {
        let d: u64 = match digit_of(s[i]) {
            Some(d) => d as u64,
            None => {
                return None;
            },
        };
        let next = acc * 10 + d;
        assert(next as int == acc as int * 10 + d as int);
        if next > 0xFFFF_FFFF {
            return None;
        }
        acc = next;
        i += 1;
    }
    Some(acc as u32)
}

/// A number of tenths, written with a decimal point where it needs one.
pub open spec fn tenths(n: nat) -> Seq<char> {
    if n % 10 == 0 {
        text::decimal(n / 10)
    } else {
        text::decimal(n / 10) + "."@ + text::decimal(n % 10)
    }
}

fn put_tenths(out: &mut Vec<char>, n: u64)
    ensures
        final(out)@ == old(out)@ + tenths(n as nat),
{
    let whole = decimal_of_sum((n / 10) as u128);
    let ghost before = out@;
    put(out, &whole);
    if n % 10 != 0 {
        put_str(out, ".");
        let part = decimal_of_sum((n % 10) as u128);
        put(out, &part);
    }
    assert(out@ =~= before + tenths(n as nat));
}

/// The number that the digits spell, or 1.
pub open spec fn steps(s: Seq<char>) -> int {
    match number(s) {
        Some(n) => n,
        None => 1,
    }
}

/// A font size in tenths of the surrounding one: a fifth more for each step up, a tenth less for
/// each step down, and never under six tenths.
pub open spec fn size(bigger: bool, n: int) -> nat {
    if bigger {
        (10 + 2 * n) as nat
    } else if n < 4 {
        (10 - n) as nat
    } else {
        6
    }
}

/// The character that the table gives for a description; `※` where it has none.
pub open spec fn gaiji_from(table: Seq<(String, String)>, i: int, note: Seq<char>) -> Seq<char>
    decreases table.len() - i,
{
    if i < 0 || i >= table.len() {
        "※"@
    } else if table[i].0@ == note {
        table[i].1@
    } else {
        gaiji_from(table, i + 1, note)
    }
}

fn put_gaiji(out: &mut Vec<char>, table: &Vec<(String, String)>, note: &[char])
    ensures
        final(out)@ == old(out)@ + gaiji_from(table@, 0, note@),
{
    let n = table.len();
    let mut i: usize = 0;
    while i < n
        invariant
            i <= n,
            n == table@.len(),
            *out == *old(out),
            gaiji_from(table@, i as int, note@) == gaiji_from(table@, 0, note@),
        decreases n - i,
    {
        let key = chars_of(table[i].0.as_str());
        if same(&key, note) {
            put_str(out, table[i].1.as_str());
            return;
        }
        i += 1;
    }
    put_str(out, "※");
}

/// What is written in place of a match with these groups.
pub open spec fn filled(
    f: Fill,
    groups: Seq<Option<Seq<char>>>,
    gaiji: Seq<(String, String)>,
) -> Seq<char> {
    match f {
        Fill::Drop => Seq::empty(),
        Fill::Wrap { open, group: n, close } => open@ + group(groups, n as int) + close@,
        Fill::Bigger => sized(size(true, steps(group(groups, 1))), group(groups, 2)),
        Fill::Smaller => sized(size(false, steps(group(groups, 1))), group(groups, 2)),
        Fill::Image => "<img src=\"../images/"@ + group(groups, 2) + "\" alt=\""@ + text::spec_trim(
            group(groups, 1),
        ) + "\"/>"@,
        Fill::Gaiji => gaiji_from(gaiji, 0, group(groups, 1)),
    }
}

/// Text set in a font of `n` tenths.
pub open spec fn sized(n: nat, s: Seq<char>) -> Seq<char> {
    "<span style=\"font-size:"@ + tenths(n) + "em\">"@ + s + "</span>"@
}

fn put_sized(out: &mut Vec<char>, bigger: bool, h: &Hit)
    ensures
        final(out)@ == old(out)@ + sized(
            size(bigger, steps(group(hit(*h).2, 1))),
            group(hit(*h).2, 2),
        ),
{
    let ghost before = out@;
    let count = group_of(h, 1);
    let n: u64 = match parse_zenkaku_int(&count) {
        Some(n) => n as u64,
        None => 1,
    };
    let em: u64 = if bigger {
        10 + 2 * n
    } else if n < 4 {
        10 - n
    } else {
        6
    };
    let inner = group_of(h, 2);
    put_str(out, "<span style=\"font-size:");
    put_tenths(out, em);
    put_str(out, "em\">");
    put(out, &inner);
    put_str(out, "</span>");
    assert(out@ =~= before + sized(em as nat, inner@));
}

fn put_fill(out: &mut Vec<char>, f: Fill, h: &Hit, gaiji: &Vec<(String, String)>)
    ensures
        final(out)@ == old(out)@ + filled(f, hit(*h).2, gaiji@),
{
    let ghost before = out@;
    match f {
        Fill::Drop => {
            assert(before + filled(f, hit(*h).2, gaiji@) =~= before);
        },
        Fill::Wrap { open, group: n, close } => {
            let inner = group_of(h, n);
            put_str(out, open);
            put(out, &inner);
            put_str(out, close);
            assert(out@ =~= before + filled(f, hit(*h).2, gaiji@));
        },
        Fill::Bigger => {
            put_sized(out, true, h);
        },
        Fill::Smaller => {
            put_sized(out, false, h);
        },
        Fill::Image => {
            let file = group_of(h, 2);
            let about = group_of(h, 1);
            put_str(out, "<img src=\"../images/");
            put(out, &file);
            put_str(out, "\" alt=\"");
            put(out, trim(&about));
            put_str(out, "\"/>");
            assert(out@ =~= before + filled(f, hit(*h).2, gaiji@));
        },
        Fill::Gaiji => {
            let note = group_of(h, 1);
            put_gaiji(out, gaiji, &note);
        },
    }
}

/// The text with something in place of each match from the `i`-th on.
pub open spec fn filled_from(
    f: Fill,
    pieces: Seq<(Seq<char>, Seq<char>, Seq<Option<Seq<char>>>)>,
    i: int,
    tail: Seq<char>,
    gaiji: Seq<(String, String)>,
) -> Seq<char>
    decreases pieces.len() - i,
{
    if i < 0 || i >= pieces.len() {
        tail
    } else {
        pieces[i].0 + (filled(f, pieces[i].2, gaiji) + filled_from(f, pieces, i + 1, tail, gaiji))
    }
}

/// The text with `f` in place of every match.
pub fn fill_in(h: &Hits, f: Fill, gaiji: &Vec<(String, String)>) -> (r: String)
    ensures
        r@ == filled_from(f, hits(*h).0, 0, hits(*h).1, gaiji@),
{
    let mut out: Vec<char> = Vec::new();
    let n = h.hits.len();
    let mut i: usize = 0;
    let ghost v = hits(*h);
    assert(v.0.len() == n);
    assert(out@ + filled_from(f, v.0, 0, v.1, gaiji@) =~= filled_from(f, v.0, 0, v.1, gaiji@));
    while i < n
        invariant
            i <= n,
            n == h.hits@.len(),
            v == hits(*h),
            v.0.len() == n,
            out@ + filled_from(f, v.0, i as int, v.1, gaiji@) == filled_from(
                f,
                v.0,
                0,
                v.1,
                gaiji@,
            ),
        decreases n - i,
    {
        assert(v.0[i as int] == hit(h.hits@[i as int]));
        let ghost before = out@;
        let ghost rest = filled_from(f, v.0, i + 1, v.1, gaiji@);
        let ghost piece = filled(f, v.0[i as int].2, gaiji@);
        put_str(&mut out, h.hits[i].before.as_str());
        put_fill(&mut out, f, &h.hits[i], gaiji);
        assert(before + (v.0[i as int].0 + (piece + rest)) =~= out@ + rest);
        i += 1;
    }
    put_str(&mut out, h.tail.as_str());
    string_of(&out)
}

/// What the `n`-th group took in each match from the `i`-th on.
pub open spec fn groups_from(
    pieces: Seq<(Seq<char>, Seq<char>, Seq<Option<Seq<char>>>)>,
    n: int,
    i: int,
) -> Seq<Seq<char>>
    decreases pieces.len() - i,
{
    if i < 0 || i >= pieces.len() {
        Seq::empty()
    } else {
        seq![group(pieces[i].2, n)] + groups_from(pieces, n, i + 1)
    }
}

/// Add what the `n`-th group took in each match to `list`.
pub fn add_groups(h: &Hits, n: usize, list: &mut Vec<String>)
    ensures
        text::strs(final(list)@) == text::strs(old(list)@) + groups_from(hits(*h).0, n as int, 0),
{
    let k = h.hits.len();
    let mut i: usize = 0;
    let ghost v = hits(*h);
    let ghost first = text::strs(list@);
    assert(v.0.len() == k);
    while i < k
        invariant
            i <= k,
            k == h.hits@.len(),
            v == hits(*h),
            v.0.len() == k,
            text::strs(list@) + groups_from(v.0, n as int, i as int) == first + groups_from(
                v.0,
                n as int,
                0,
            ),
        decreases k - i,
    {
        assert(v.0[i as int] == hit(h.hits@[i as int]));
        let ghost before = text::strs(list@);
        let ghost rest = groups_from(v.0, n as int, i + 1);
        let g = group_of(&h.hits[i], n);
        add_str(list, string_of(&g));
        assert(before + (seq![g@] + rest) =~= text::strs(list@) + rest);
        i += 1;
    }
    assert(text::strs(list@) =~= first + groups_from(v.0, n as int, 0));
}

/// A pattern, and what is written in place of its matches.
pub struct Rule {
    pub pattern: &'static str,
    pub fill: Fill,
}

/// The text after one rule.
pub open spec fn ruled(s: Seq<char>, rule: Rule, mark: char, gaiji: Seq<(String, String)>) -> Seq<
    char,
> {
    let h = looked(rule.pattern@, s, mark);
    filled_from(rule.fill, h.0, 0, h.1, gaiji)
}

/// The text after one rule.
pub fn apply_rule(s: &str, rule: &Rule, mark: char, gaiji: &Vec<(String, String)>) -> (r: String)
    ensures
        r@ == ruled(s@, *rule, mark, gaiji@),
{
    let h = look(rule.pattern, s, mark);
    fill_in(&h, rule.fill, gaiji)
}

/// The text after the first `n` rules.
pub open spec fn ruled_to(
    s: Seq<char>,
    rules: Seq<Rule>,
    n: int,
    gaiji: Seq<(String, String)>,
) -> Seq<char>
    decreases n,
{
    if n <= 0 {
        s
    } else {
        ruled(ruled_to(s, rules, n - 1, gaiji), rules[n - 1], '［', gaiji)
    }
}

/// The text after all the rules, one after the other.
pub fn apply_rules(s: &str, rules: &Vec<Rule>, gaiji: &Vec<(String, String)>) -> (r: String)
    ensures
        r@ == ruled_to(s@, rules@, rules@.len() as int, gaiji@),
{
    let start = chars_of(s);
    let mut cur = string_of(&start);
    let n = rules.len();
    let mut i: usize = 0;
    while i < n
        invariant
            i <= n,
            n == rules@.len(),
            cur@ == ruled_to(s@, rules@, i as int, gaiji@),
        decreases n - i,
    {
        cur = apply_rule(cur.as_str(), &rules[i], '［', gaiji);
        i += 1;
    }
    cur
}

} // verus!
