//! Text as a sequence of characters, and the searches and rewrites the rest of
//! the library is written with.
use vstd::prelude::*;

verus! {

/// Appends a character to a string. `String::push` is not given a contract by
/// vstd: it adds the character at the end.
pub assume_specification[ String::push ](s: &mut String, c: char)
    ensures
        final(s)@ == old(s)@.push(c),
;

/// The characters of `s`, in order.
pub fn chars_of(s: &str) -> (r: Vec<char>)
    ensures
        r@ == s@,
{
    broadcast use vstd::string::group_string_axioms;

    let mut out: Vec<char> = Vec::new();
    for c in it: s.chars()
        invariant
            out@ == it.seq().take(it.index() as int),
            it.seq() == s@,
    {
        out.push(c);
    }
    out
}

/// The string made of the characters `s`.
pub fn string_of(s: &[char]) -> (r: String)
    ensures
        r@ == s@,
{
    let mut out = String::new();
    let mut i: usize = 0;
    while i < s.len()
        invariant
            i <= s@.len(),
            out@ == s@.take(i as int),
        decreases s@.len() - i,
    {
        out.push(s[i]);
        i = i + 1;
    }
    out
}

/// A copy of `s`.
pub fn copy(s: &[char]) -> (r: Vec<char>)
    ensures
        r@ == s@,
{
    let mut out: Vec<char> = Vec::new();
    put(&mut out, s);
    out
}

/// A copy of the characters from `i` up to `j`.
pub fn cut(s: &[char], i: usize, j: usize) -> (r: Vec<char>)
    requires
        i <= j <= s@.len(),
    ensures
        r@ == s@.subrange(i as int, j as int),
{
    copy(&s[i..j])
}

/// Appends `s` to `out`.
pub fn put(out: &mut Vec<char>, s: &[char])
    ensures
        final(out)@ == old(out)@ + s@,
{
    let mut i: usize = 0;
    let ghost before = out@;
    while i < s.len()
        invariant
            i <= s@.len(),
            out@ == before + s@.take(i as int),
        decreases s@.len() - i,
    {
        out.push(s[i]);
        i = i + 1;
    }
    assert(s@.take(s@.len() as int) == s@);
}

/// Appends the literal `s` to `out`.
pub fn put_str(out: &mut Vec<char>, s: &str)
    ensures
        final(out)@ == old(out)@ + s@,
{
    let v = chars_of(s);
    put(out, &v);
}

/// `a` followed by `b`.
pub fn join2(a: &[char], b: &[char]) -> (r: Vec<char>)
    ensures
        r@ == a@ + b@,
{
    let mut out = copy(a);
    put(&mut out, b);
    out
}

/// Whether two texts are equal.
pub fn same(a: &[char], b: &[char]) -> (r: bool)
    ensures
        r == (a@ == b@),
{
    if a.len() != b.len() {
        return false;
    }
    let mut i: usize = 0;
    while i < a.len()
        invariant
            i <= a@.len(),
            a@.len() == b@.len(),
            forall|k: int| 0 <= k < i ==> a@[k] == b@[k],
        decreases a@.len() - i,
    {
        if a[i] != b[i] {
            return false;
        }
        i = i + 1;
    }
    assert(a@ =~= b@);
    true
}

/// Whether `a` is the literal `b`.
pub fn is(a: &[char], b: &str) -> (r: bool)
    ensures
        r == (a@ == b@),
{
    let v = chars_of(b);
    same(a, &v)
}

/// Whether the string `a` is the literal `b`.
pub fn str_is(a: &str, b: &str) -> (r: bool)
    ensures
        r == (a@ == b@),
{
    let v = chars_of(a);
    is(&v, b)
}

// ---------------------------------------------------------------- searching

/// `p` stands in `s` at position `i`.
pub open spec fn is_at(s: Seq<char>, p: Seq<char>, i: int) -> bool {
    0 <= i && i + p.len() <= s.len() && s.subrange(i, i + p.len()) == p
}

/// The first position from `i` on at which `p` stands in `s`.
pub open spec fn spec_find(s: Seq<char>, p: Seq<char>, i: int) -> Option<int>
    decreases s.len() + 1 - i,
{
    if i < 0 || i + p.len() > s.len() {
        None
    } else if is_at(s, p, i) {
        Some(i)
    } else {
        spec_find(s, p, i + 1)
    }
}

/// The last position up to `i` at which `p` stands in `s`.
pub open spec fn spec_rfind(s: Seq<char>, p: Seq<char>, i: int) -> Option<int>
    decreases i + 1,
{
    if i < 0 {
        None
    } else if is_at(s, p, i) {
        Some(i)
    } else {
        spec_rfind(s, p, i - 1)
    }
}

/// The first position from `i` on that holds `c`.
pub open spec fn spec_find_char(s: Seq<char>, c: char, i: int) -> Option<int>
    decreases s.len() - i,
{
    if i < 0 || i >= s.len() {
        None
    } else if s[i] == c {
        Some(i)
    } else {
        spec_find_char(s, c, i + 1)
    }
}

/// The last position before `i` that holds `c`.
pub open spec fn spec_rfind_char(s: Seq<char>, c: char, i: int) -> Option<int>
    decreases i,
{
    if i <= 0 || i > s.len() {
        None
    } else if s[i - 1] == c {
        Some(i - 1)
    } else {
        spec_rfind_char(s, c, i - 1)
    }
}

/// `p` stands somewhere in `s`.
pub open spec fn spec_contains(s: Seq<char>, p: Seq<char>) -> bool {
    spec_find(s, p, 0) is Some
}

/// `s` begins with `p`.
pub open spec fn spec_starts(s: Seq<char>, p: Seq<char>) -> bool {
    is_at(s, p, 0)
}

/// `s` ends with `p`.
pub open spec fn spec_ends(s: Seq<char>, p: Seq<char>) -> bool {
    is_at(s, p, s.len() - p.len())
}

/// What an `Option<usize>` says of a position.
pub open spec fn pos(r: Option<usize>) -> Option<int> {
    match r {
        Some(i) => Some(i as int),
        None => None,
    }
}

pub proof fn lemma_find(s: Seq<char>, p: Seq<char>, i: int)
    ensures
        spec_find(s, p, i) matches Some(k) ==> i <= k && is_at(s, p, k) && k + p.len() <= s.len()
            && forall|m: int| i <= m < k ==> !is_at(s, p, m),
        spec_find(s, p, i) is None && i >= 0 ==> forall|m: int| i <= m ==> !is_at(s, p, m),
    decreases s.len() + 1 - i,
{
    if i < 0 || i + p.len() > s.len() {
    } else if is_at(s, p, i) {
    } else {
        lemma_find(s, p, i + 1);
    }
}

pub proof fn lemma_find_char(s: Seq<char>, c: char, i: int)
    ensures
        spec_find_char(s, c, i) matches Some(k) ==> i <= k < s.len() && s[k] == c && forall|m: int|
            i <= m < k ==> s[m] != c,
        spec_find_char(s, c, i) is None && i >= 0 ==> forall|m: int| i <= m < s.len() ==> s[m] != c,
    decreases s.len() - i,
{
    if i < 0 || i >= s.len() {
    } else if s[i] == c {
    } else {
        lemma_find_char(s, c, i + 1);
    }
}

/// Whether `p` stands in `s` at position `i`.
pub fn at(s: &[char], p: &[char], i: usize) -> (r: bool)
    ensures
        r == is_at(s@, p@, i as int),
{
    if i > s.len() || p.len() > s.len() - i {
        return false;
    }
    same(&s[i..i + p.len()], p)
}

/// Whether the literal `p` stands in `s` at position `i`.
pub fn at_str(s: &[char], p: &str, i: usize) -> (r: bool)
    ensures
        r == is_at(s@, p@, i as int),
{
    let v = chars_of(p);
    at(s, &v, i)
}

/// The first position from `from` on at which `p` stands in `s`.
pub fn find(s: &[char], p: &[char], from: usize) -> (r: Option<usize>)
    ensures
        pos(r) == spec_find(s@, p@, from as int),
        r matches Some(k) ==> from <= k && k + p@.len() <= s@.len() && is_at(s@, p@, k as int),
{
    let mut i: usize = from;
    while i <= s.len() && p.len() <= s.len() - i
        invariant
            from <= i,
            spec_find(s@, p@, from as int) == spec_find(s@, p@, i as int),
        decreases s@.len() + 1 - i,
    {
        if at(s, p, i) {
            return Some(i);
        }
        if i == s.len() {
            assert(spec_find(s@, p@, i + 1) is None);
            return None;
        }
        i = i + 1;
    }
    None
}

/// The first position from `from` on at which the literal `p` stands in `s`.
pub fn find_str(s: &[char], p: &str, from: usize) -> (r: Option<usize>)
    ensures
        pos(r) == spec_find(s@, p@, from as int),
        r matches Some(k) ==> from <= k && k + p@.len() <= s@.len() && is_at(s@, p@, k as int),
{
    let v = chars_of(p);
    find(s, &v, from)
}

/// The last position up to `from` at which `p` stands in `s`.
pub fn rfind(s: &[char], p: &[char], from: usize) -> (r: Option<usize>)
    ensures
        pos(r) == spec_rfind(s@, p@, from as int),
        r matches Some(k) ==> k <= from && k + p@.len() <= s@.len() && is_at(s@, p@, k as int),
{
    let mut i: usize = from;
    loop
        invariant
            i <= from,
            spec_rfind(s@, p@, from as int) == spec_rfind(s@, p@, i as int),
        decreases i,
    {
        if at(s, p, i) {
            return Some(i);
        }
        if i == 0 {
            assert(spec_rfind(s@, p@, -1) is None);
            return None;
        }
        i = i - 1;
    }
}

/// The last position up to `from` at which the literal `p` stands in `s`.
pub fn rfind_str(s: &[char], p: &str, from: usize) -> (r: Option<usize>)
    ensures
        pos(r) == spec_rfind(s@, p@, from as int),
        r matches Some(k) ==> k <= from && k + p@.len() <= s@.len() && is_at(s@, p@, k as int),
{
    let v = chars_of(p);
    rfind(s, &v, from)
}

/// The first position from `from` on that holds `c`.
pub fn find_char(s: &[char], c: char, from: usize) -> (r: Option<usize>)
    ensures
        pos(r) == spec_find_char(s@, c, from as int),
        r matches Some(k) ==> from <= k < s@.len() && s@[k as int] == c,
{
    let mut i: usize = from;
    while i < s.len()
        invariant
            from <= i,
            spec_find_char(s@, c, from as int) == spec_find_char(s@, c, i as int),
        decreases s@.len() - i,
    {
        if s[i] == c {
            return Some(i);
        }
        i = i + 1;
    }
    None
}

/// The last position before `to` that holds `c`.
pub fn rfind_char(s: &[char], c: char, to: usize) -> (r: Option<usize>)
    requires
        to <= s@.len(),
    ensures
        pos(r) == spec_rfind_char(s@, c, to as int),
        r matches Some(k) ==> k < to && s@[k as int] == c,
{
    let mut i: usize = to;
    while i > 0
        invariant
            i <= to <= s@.len(),
            spec_rfind_char(s@, c, to as int) == spec_rfind_char(s@, c, i as int),
        decreases i,
    {
        if s[i - 1] == c {
            return Some(i - 1);
        }
        i = i - 1;
    }
    None
}

/// Whether `p` stands somewhere in `s`.
pub fn has(s: &[char], p: &[char]) -> (r: bool)
    ensures
        r == spec_contains(s@, p@),
{
    find(s, p, 0).is_some()
}

/// Whether the literal `p` stands somewhere in `s`.
pub fn has_str(s: &[char], p: &str) -> (r: bool)
    ensures
        r == spec_contains(s@, p@),
{
    find_str(s, p, 0).is_some()
}

/// Whether `c` stands somewhere in `s`.
pub fn has_char(s: &[char], c: char) -> (r: bool)
    ensures
        r == s@.contains(c),
{
    proof {
        lemma_find_char(s@, c, 0);
    }
    let r = find_char(s, c, 0).is_some();
    r
}

/// Whether `s` begins with `p`.
pub fn starts(s: &[char], p: &[char]) -> (r: bool)
    ensures
        r == spec_starts(s@, p@),
{
    at(s, p, 0)
}

/// Whether `s` begins with the literal `p`.
pub fn starts_str(s: &[char], p: &str) -> (r: bool)
    ensures
        r == spec_starts(s@, p@),
{
    at_str(s, p, 0)
}

/// Whether `s` ends with `p`.
pub fn ends(s: &[char], p: &[char]) -> (r: bool)
    ensures
        r == spec_ends(s@, p@),
{
    if p.len() > s.len() {
        return false;
    }
    at(s, p, s.len() - p.len())
}

/// Whether `s` ends with the literal `p`.
pub fn ends_str(s: &[char], p: &str) -> (r: bool)
    ensures
        r == spec_ends(s@, p@),
{
    let v = chars_of(p);
    ends(s, &v)
}

// ---------------------------------------------------------------- characters

/// Unicode's `White_Space` property.
pub open spec fn is_white(c: char) -> bool {
    ||| '\u{9}' <= c <= '\u{d}'
    ||| c == ' '
    ||| c == '\u{85}'
    ||| c == '\u{a0}'
    ||| c == '\u{1680}'
    ||| '\u{2000}' <= c <= '\u{200a}'
    ||| c == '\u{2028}'
    ||| c == '\u{2029}'
    ||| c == '\u{202f}'
    ||| c == '\u{205f}'
    ||| c == '\u{3000}'
}

/// Whether `c` is white space, as Unicode counts it.
pub fn white(c: char) -> (r: bool)
    ensures
        r == is_white(c),
{
    ('\u{9}' <= c && c <= '\u{d}') || c == ' ' || c == '\u{85}' || c == '\u{a0}' || c == '\u{1680}'
        || ('\u{2000}' <= c && c <= '\u{200a}') || c == '\u{2028}' || c == '\u{2029}' || c
        == '\u{202f}' || c == '\u{205f}' || c == '\u{3000}'
}

/// ASCII white space: tab, line feed, form feed, carriage return, space.
pub open spec fn is_ascii_white(c: char) -> bool {
    c == ' ' || c == '\t' || c == '\n' || c == '\u{c}' || c == '\r'
}

/// Whether `c` is ASCII white space.
pub fn ascii_white(c: char) -> (r: bool)
    ensures
        r == is_ascii_white(c),
{
    c == ' ' || c == '\t' || c == '\n' || c == '\u{c}' || c == '\r'
}

pub open spec fn is_ascii_digit(c: char) -> bool {
    '0' <= c <= '9'
}

pub open spec fn is_ascii_alpha(c: char) -> bool {
    ('a' <= c <= 'z') || ('A' <= c <= 'Z')
}

pub open spec fn is_ascii_alnum(c: char) -> bool {
    is_ascii_alpha(c) || is_ascii_digit(c)
}

pub fn ascii_digit(c: char) -> (r: bool)
    ensures
        r == is_ascii_digit(c),
{
    '0' <= c && c <= '9'
}

pub fn ascii_alpha(c: char) -> (r: bool)
    ensures
        r == is_ascii_alpha(c),
{
    ('a' <= c && c <= 'z') || ('A' <= c && c <= 'Z')
}

pub fn ascii_alnum(c: char) -> (r: bool)
    ensures
        r == is_ascii_alnum(c),
{
    ascii_alpha(c) || ascii_digit(c)
}

/// `c` with an ASCII capital made small.
pub open spec fn lower(c: char) -> char {
    if 'A' <= c <= 'Z' {
        ((c as u32 + 32) as u32) as char
    } else {
        c
    }
}

/// `c` with an ASCII capital made small.
pub fn lower_char(c: char) -> (r: char)
    ensures
        r == lower(c),
{
    if 'A' <= c && c <= 'Z' {
        ((c as u8) + 32) as char
    } else {
        c
    }
}

/// `s` with its ASCII capitals made small.
pub open spec fn spec_lower(s: Seq<char>) -> Seq<char> {
    s.map_values(|c: char| lower(c))
}

/// `s` with its ASCII capitals made small.
pub fn lowered(s: &[char]) -> (r: Vec<char>)
    ensures
        r@ == spec_lower(s@),
{
    let mut out: Vec<char> = Vec::new();
    let mut i: usize = 0;
    while i < s.len()
        invariant
            i <= s@.len(),
            out@ == spec_lower(s@.take(i as int)),
        decreases s@.len() - i,
    {
        out.push(lower_char(s[i]));
        i = i + 1;
    }
    assert(s@.take(s@.len() as int) == s@);
    out
}

/// Whether two texts are equal up to ASCII case.
pub fn same_nocase(a: &[char], b: &[char]) -> (r: bool)
    ensures
        r == (spec_lower(a@) == spec_lower(b@)),
{
    let x = lowered(a);
    let y = lowered(b);
    same(&x, &y)
}

/// Whether `a` is the literal `b` up to ASCII case.
pub fn is_nocase(a: &[char], b: &str) -> (r: bool)
    ensures
        r == (spec_lower(a@) == spec_lower(b@)),
{
    let v = chars_of(b);
    same_nocase(a, &v)
}

// ---------------------------------------------------------------- trimming

/// The first position from `i` on that holds no white space, or the end.
pub open spec fn skip_white(s: Seq<char>, i: int) -> int
    decreases s.len() - i,
{
    if 0 <= i < s.len() && is_white(s[i]) {
        skip_white(s, i + 1)
    } else {
        i
    }
}

/// The end of `s` cut at `j` once the white space before it is dropped, at `i`
/// at the least.
pub open spec fn back_white(s: Seq<char>, i: int, j: int) -> int
    decreases j - i,
{
    if 0 <= i < j <= s.len() && is_white(s[j - 1]) {
        back_white(s, i, j - 1)
    } else {
        j
    }
}

/// `s` without white space at its two ends.
pub open spec fn spec_trim(s: Seq<char>) -> Seq<char> {
    let i = skip_white(s, 0);
    s.subrange(i, back_white(s, i, s.len() as int))
}

/// `s` without white space at its end.
pub open spec fn spec_trim_end(s: Seq<char>) -> Seq<char> {
    s.subrange(0, back_white(s, 0, s.len() as int))
}

/// `s` without white space at its start.
pub open spec fn spec_trim_start(s: Seq<char>) -> Seq<char> {
    s.subrange(skip_white(s, 0), s.len() as int)
}

pub proof fn lemma_skip_white(s: Seq<char>, i: int)
    requires
        0 <= i <= s.len(),
    ensures
        i <= skip_white(s, i) <= s.len(),
    decreases s.len() - i,
{
    if i < s.len() && is_white(s[i]) {
        lemma_skip_white(s, i + 1);
    }
}

pub proof fn lemma_back_white(s: Seq<char>, i: int, j: int)
    requires
        0 <= i <= j <= s.len(),
    ensures
        i <= back_white(s, i, j) <= j,
    decreases j - i,
{
    if i < j && is_white(s[j - 1]) {
        lemma_back_white(s, i, j - 1);
    }
}

/// The first position from `from` on that holds no white space, or the end.
pub fn past_white(s: &[char], from: usize) -> (r: usize)
    requires
        from <= s@.len(),
    ensures
        r == skip_white(s@, from as int),
        from <= r <= s@.len(),
{
    let mut i: usize = from;
    while i < s.len() && white(s[i])
        invariant
            from <= i <= s@.len(),
            skip_white(s@, from as int) == skip_white(s@, i as int),
        decreases s@.len() - i,
    {
        i = i + 1;
    }
    i
}

/// The end of `s` cut at `to` once the white space before it is dropped.
pub fn before_white(s: &[char], from: usize, to: usize) -> (r: usize)
    requires
        from <= to <= s@.len(),
    ensures
        r == back_white(s@, from as int, to as int),
        from <= r <= to,
{
    let mut j: usize = to;
    while from < j && white(s[j - 1])
        invariant
            from <= j <= to <= s@.len(),
            back_white(s@, from as int, to as int) == back_white(s@, from as int, j as int),
        decreases j,
    {
        j = j - 1;
    }
    j
}

/// `s` without white space at its two ends.
pub fn trim(s: &[char]) -> (r: &[char])
    ensures
        r@ == spec_trim(s@),
{
    let i = past_white(s, 0);
    let j = before_white(s, i, s.len());
    &s[i..j]
}

/// `s` without white space at its end.
pub fn trim_end(s: &[char]) -> (r: &[char])
    ensures
        r@ == spec_trim_end(s@),
{
    let j = before_white(s, 0, s.len());
    &s[0..j]
}

/// `s` without white space at its start.
pub fn trim_start(s: &[char]) -> (r: &[char])
    ensures
        r@ == spec_trim_start(s@),
{
    let i = past_white(s, 0);
    &s[i..s.len()]
}

/// The first position from `i` on that does not hold `c`, or the end.
pub open spec fn skip_char(s: Seq<char>, c: char, i: int) -> int
    decreases s.len() - i,
{
    if 0 <= i < s.len() && s[i] == c {
        skip_char(s, c, i + 1)
    } else {
        i
    }
}

/// The end of `s` cut at `j` once each `c` before it is dropped.
pub open spec fn back_char(s: Seq<char>, c: char, j: int) -> int
    decreases j,
{
    if 0 < j <= s.len() && s[j - 1] == c {
        back_char(s, c, j - 1)
    } else {
        j
    }
}

/// `s` without each `c` at its start.
pub open spec fn spec_trim_start_char(s: Seq<char>, c: char) -> Seq<char> {
    s.subrange(skip_char(s, c, 0), s.len() as int)
}

/// `s` without each `c` at its end.
pub open spec fn spec_trim_end_char(s: Seq<char>, c: char) -> Seq<char> {
    s.subrange(0, back_char(s, c, s.len() as int))
}

/// `s` without each `c` at its start.
pub fn trim_start_char(s: &[char], c: char) -> (r: &[char])
    ensures
        r@ == spec_trim_start_char(s@, c),
{
    let mut i: usize = 0;
    while i < s.len() && s[i] == c
        invariant
            i <= s@.len(),
            skip_char(s@, c, 0) == skip_char(s@, c, i as int),
        decreases s@.len() - i,
    {
        i = i + 1;
    }
    &s[i..s.len()]
}

/// `s` without each `c` at its end.
pub fn trim_end_char(s: &[char], c: char) -> (r: &[char])
    ensures
        r@ == spec_trim_end_char(s@, c),
{
    let mut j: usize = s.len();
    while 0 < j && s[j - 1] == c
        invariant
            j <= s@.len(),
            back_char(s@, c, s@.len() as int) == back_char(s@, c, j as int),
        decreases j,
    {
        j = j - 1;
    }
    &s[0..j]
}

/// `s` holds white space alone.
pub open spec fn all_white(s: Seq<char>) -> bool {
    forall|i: int| 0 <= i < s.len() ==> is_white(#[trigger] s[i])
}

/// Whether `s` holds white space alone.
pub fn blank(s: &[char]) -> (r: bool)
    ensures
        r == all_white(s@),
{
    let mut i: usize = 0;
    while i < s.len()
        invariant
            i <= s@.len(),
            forall|k: int| 0 <= k < i ==> is_white(#[trigger] s@[k]),
        decreases s@.len() - i,
    {
        if !white(s[i]) {
            return false;
        }
        i = i + 1;
    }
    true
}

// ---------------------------------------------------------------- lists of texts

/// The texts that a vector of character vectors stands for.
pub open spec fn texts(v: Seq<Vec<char>>) -> Seq<Seq<char>> {
    v.map_values(|x: Vec<char>| x@)
}

/// The texts that a vector of strings stands for.
pub open spec fn strs(v: Seq<String>) -> Seq<Seq<char>> {
    v.map_values(|x: String| x@)
}

/// What an optional string holds.
pub open spec fn opt_str(v: Option<String>) -> Option<Seq<char>> {
    match v {
        Some(s) => Some(s@),
        None => None,
    }
}

/// What an optional text holds.
pub open spec fn opt_text(v: Option<Vec<char>>) -> Option<Seq<char>> {
    match v {
        Some(s) => Some(s@),
        None => None,
    }
}

/// The content of an optional slice.
pub open spec fn opt_slice(s: Option<&str>) -> Option<Seq<char>> {
    match s {
        Some(x) => Some(x@),
        None => None,
    }
}

pub proof fn lemma_texts_push(v: Seq<Vec<char>>, x: Vec<char>)
    ensures
        texts(v.push(x)) == texts(v).push(x@),
{
    assert(texts(v.push(x)) =~= texts(v).push(x@));
}

pub proof fn lemma_strs_push(v: Seq<String>, x: String)
    ensures
        strs(v.push(x)) == strs(v).push(x@),
{
    assert(strs(v.push(x)) =~= strs(v).push(x@));
}

/// Appends a text to a list of texts.
pub fn add_text(v: &mut Vec<Vec<char>>, x: Vec<char>)
    ensures
        texts(final(v)@) == texts(old(v)@).push(x@),
        final(v)@ == old(v)@.push(x),
{
    proof {
        lemma_texts_push(v@, x);
    }
    v.push(x);
}

/// Appends a string to a list of strings.
pub fn add_str(v: &mut Vec<String>, x: String)
    ensures
        strs(final(v)@) == strs(old(v)@).push(x@),
        final(v)@ == old(v)@.push(x),
{
    proof {
        lemma_strs_push(v@, x);
    }
    v.push(x);
}

/// The same texts as strings.
pub fn strings_of(v: &Vec<Vec<char>>) -> (r: Vec<String>)
    ensures
        strs(r@) == texts(v@),
{
    let mut out: Vec<String> = Vec::new();
    let mut i: usize = 0;
    while i < v.len()
        invariant
            i <= v@.len(),
            strs(out@) == texts(v@).take(i as int),
        decreases v@.len() - i,
    {
        add_str(&mut out, string_of(&v[i]));
        assert(texts(v@)[i as int] == v@[i as int]@);
        i = i + 1;
    }
    assert(texts(v@).take(v@.len() as int) =~= texts(v@));
    out
}

/// Whether the list `v` holds the text `x`.
pub fn list_has(v: &Vec<Vec<char>>, x: &[char]) -> (r: bool)
    ensures
        r == texts(v@).contains(x@),
{
    let mut i: usize = 0;
    while i < v.len()
        invariant
            i <= v@.len(),
            forall|k: int| 0 <= k < i ==> #[trigger] texts(v@)[k] != x@,
        decreases v@.len() - i,
    {
        if same(&v[i], x) {
            assert(texts(v@)[i as int] == x@);
            return true;
        }
        i = i + 1;
    }
    false
}

/// Whether the list `v` holds the text `x`.
pub fn strs_have(v: &Vec<String>, x: &[char]) -> (r: bool)
    ensures
        r == strs(v@).contains(x@),
{
    let mut i: usize = 0;
    while i < v.len()
        invariant
            i <= v@.len(),
            forall|k: int| 0 <= k < i ==> #[trigger] strs(v@)[k] != x@,
        decreases v@.len() - i,
    {
        if is(x, v[i].as_str()) {
            assert(strs(v@)[i as int] == x@);
            return true;
        }
        i = i + 1;
    }
    false
}

// ---------------------------------------------------------------- splitting

/// The pieces of `s` from `i` on between one `c` and the next.
pub open spec fn split_from(s: Seq<char>, c: char, i: int) -> Seq<Seq<char>>
    decreases s.len() - i,
{
    match spec_find_char(s, c, i) {
        Some(k) if i <= k < s.len() => seq![s.subrange(i, k)] + split_from(s, c, k + 1),
        _ => seq![s.subrange(i, s.len() as int)],
    }
}

/// The pieces of `s` between one `c` and the next.
pub open spec fn spec_split(s: Seq<char>, c: char) -> Seq<Seq<char>> {
    split_from(s, c, 0)
}

/// The pieces of `s` between one `c` and the next.
pub fn split(s: &[char], c: char) -> (r: Vec<Vec<char>>)
    ensures
        texts(r@) == spec_split(s@, c),
        r@.len() > 0,
{
    let mut out: Vec<Vec<char>> = Vec::new();
    let n = s.len();
    let mut i: usize = 0;
    loop
        invariant
            n == s@.len(),
            i <= s@.len(),
            texts(out@) + split_from(s@, c, i as int) == spec_split(s@, c),
        decreases s@.len() - i,
    {
        let ghost before = texts(out@);
        match find_char(s, c, i) {
            Some(k) => {
                add_text(&mut out, cut(s, i, k));
                assert(before + (seq![s@.subrange(i as int, k as int)] + split_from(
                    s@,
                    c,
                    k + 1,
                )) == texts(out@) + split_from(s@, c, k + 1));
                i = k + 1;
            },
            None => {
                add_text(&mut out, cut(s, i, s.len()));
                assert(before + split_from(s@, c, i as int) == texts(out@));
                return out;
            },
        }
    }
}

/// The words of `s` from `i` on, set apart by white space.
pub open spec fn words_from(s: Seq<char>, i: int) -> Seq<Seq<char>>
    decreases s.len() - i,
{
    let a = skip_white(s, i);
    let b = word_end(s, a);
    if 0 <= i <= a < b <= s.len() {
        seq![s.subrange(a, b)] + words_from(s, b)
    } else {
        Seq::empty()
    }
}

/// The first position from `i` on that holds white space, or the end.
pub open spec fn word_end(s: Seq<char>, i: int) -> int
    decreases s.len() - i,
{
    if 0 <= i < s.len() && !is_white(s[i]) {
        word_end(s, i + 1)
    } else {
        i
    }
}

/// The words of `s`, set apart by white space.
pub open spec fn spec_words(s: Seq<char>) -> Seq<Seq<char>> {
    words_from(s, 0)
}

/// The words of `s`, set apart by white space.
pub fn words(s: &[char]) -> (r: Vec<Vec<char>>)
    ensures
        texts(r@) == spec_words(s@),
{
    let mut out: Vec<Vec<char>> = Vec::new();
    let mut i: usize = 0;
    loop
        invariant
            i <= s@.len(),
            texts(out@) + words_from(s@, i as int) == spec_words(s@),
        decreases s@.len() - i,
    {
        let ghost before = texts(out@);
        let a = past_white(s, i);
        let mut b: usize = a;
        while b < s.len() && !white(s[b])
            invariant
                a <= b <= s@.len(),
                word_end(s@, a as int) == word_end(s@, b as int),
            decreases s@.len() - b,
        {
            b = b + 1;
        }
        if a == b {
            assert(texts(out@) + words_from(s@, i as int) =~= texts(out@));
            return out;
        }
        add_text(&mut out, cut(s, a, b));
        assert(before + (seq![s@.subrange(a as int, b as int)] + words_from(s@, b as int)) == texts(
            out@,
        ) + words_from(s@, b as int));
        i = b;
    }
}

// ---------------------------------------------------------------- joining

/// The first `n` texts of `v`, with `sep` between one and the next.
pub open spec fn join_to(v: Seq<Seq<char>>, sep: Seq<char>, n: int) -> Seq<char>
    decreases n,
{
    if n <= 0 {
        Seq::empty()
    } else if n == 1 {
        v[0]
    } else {
        join_to(v, sep, n - 1) + sep + v[n - 1]
    }
}

/// The texts of `v`, with `sep` between one and the next.
pub open spec fn spec_join(v: Seq<Seq<char>>, sep: Seq<char>) -> Seq<char> {
    join_to(v, sep, v.len() as int)
}

/// The texts of `v`, with `sep` between one and the next.
pub fn join(v: &Vec<Vec<char>>, sep: &str) -> (r: Vec<char>)
    ensures
        r@ == spec_join(texts(v@), sep@),
{
    let mut out: Vec<char> = Vec::new();
    let mut i: usize = 0;
    while i < v.len()
        invariant
            i <= v@.len(),
            out@ == join_to(texts(v@), sep@, i as int),
        decreases v@.len() - i,
    {
        assert(texts(v@)[i as int] == v@[i as int]@);
        if i > 0 {
            put_str(&mut out, sep);
        }
        put(&mut out, &v[i]);
        assert(i == 0 ==> out@ =~= v@[0]@);
        i = i + 1;
    }
    out
}

// ---------------------------------------------------------------- replacing

/// `s` from `i` on, each `p` in it replaced by `q`, from the left.
pub open spec fn replace_from(s: Seq<char>, p: Seq<char>, q: Seq<char>, i: int) -> Seq<char>
    decreases s.len() - i,
{
    match spec_find(s, p, i) {
        Some(k) if p.len() > 0 && i <= k && k + p.len() <= s.len() => s.subrange(i, k) + q
            + replace_from(s, p, q, k + p.len()),
        _ => s.subrange(i, s.len() as int),
    }
}

/// `s`, each `p` in it replaced by `q`, from the left.
pub open spec fn spec_replace(s: Seq<char>, p: Seq<char>, q: Seq<char>) -> Seq<char> {
    replace_from(s, p, q, 0)
}

/// `s`, each `p` in it replaced by `q`, from the left.
pub fn replace(s: &[char], p: &[char], q: &[char]) -> (r: Vec<char>)
    requires
        p@.len() > 0,
    ensures
        r@ == spec_replace(s@, p@, q@),
{
    let mut out: Vec<char> = Vec::new();
    let n = s.len();
    let mut i: usize = 0;
    loop
        invariant
            n == s@.len(),
            p@.len() > 0,
            i <= s@.len(),
            out@ + replace_from(s@, p@, q@, i as int) == spec_replace(s@, p@, q@),
        decreases s@.len() - i,
    {
        let ghost before = out@;
        match find(s, p, i) {
            Some(k) => {
                put(&mut out, &s[i..k]);
                put(&mut out, q);
                assert(before + (s@.subrange(i as int, k as int) + q@ + replace_from(
                    s@,
                    p@,
                    q@,
                    k + p@.len(),
                )) == out@ + replace_from(s@, p@, q@, k + p@.len()));
                i = k + p.len();
            },
            None => {
                put(&mut out, &s[i..s.len()]);
                return out;
            },
        }
    }
}

/// `s`, each of the literal `p` in it replaced by the literal `q`.
pub fn replace_str(s: &[char], p: &str, q: &str) -> (r: Vec<char>)
    requires
        p@.len() > 0,
    ensures
        r@ == spec_replace(s@, p@, q@),
{
    let a = chars_of(p);
    let b = chars_of(q);
    replace(s, &a, &b)
}

// ---------------------------------------------------------------- numbers

/// The decimal digits of `n`.
pub open spec fn decimal(n: nat) -> Seq<char>
    decreases n,
{
    let d = (('0' as u32 + (n % 10)) as u32) as char;
    if n < 10 {
        seq![d]
    } else {
        decimal(n / 10).push(d)
    }
}

/// The decimal digits of `n`.
pub fn decimal_of(n: usize) -> (r: Vec<char>)
    ensures
        r@ == decimal(n as nat),
    decreases n,
{
    let d: char = (48u8 + (n % 10) as u8) as char;
    if n < 10 {
        let mut out: Vec<char> = Vec::new();
        out.push(d);
        out
    } else {
        let mut out = decimal_of(n / 10);
        out.push(d);
        out
    }
}

/// The decimal digits of `n`.
pub fn decimal_of_sum(n: u128) -> (r: Vec<char>)
    ensures
        r@ == decimal(n as nat),
    decreases n,
{
    let d: char = (48u8 + (n % 10) as u8) as char;
    if n < 10 {
        let mut out: Vec<char> = Vec::new();
        out.push(d);
        out
    } else {
        let mut out = decimal_of_sum(n / 10);
        out.push(d);
        out
    }
}

/// A count over `n` things, each of which adds no more than a `usize`, and one
/// more such thing: the bound on it.
pub proof fn lemma_count(n: int, c: int, m: int)
    requires
        0 <= m <= usize::MAX,
        0 <= n < usize::MAX,
        0 <= c <= n * (usize::MAX as int),
    ensures
        c + m <= (n + 1) * (usize::MAX as int),
        c + m <= u128::MAX,
{
    let k = usize::MAX as int;
    assert((n + 1) * k == n * k + k) by (nonlinear_arith);
    assert((n + 1) * k <= k * k) by (nonlinear_arith)
        requires
            0 <= n < k,
    ;
    assert(k * k <= 0xffff_ffff_ffff_ffff * 0xffff_ffff_ffff_ffff) by (nonlinear_arith)
        requires
            0 <= k <= 0xffff_ffff_ffff_ffff,
    ;
}

// ---------------------------------------------------------------- laws of splitting and joining

pub proof fn lemma_find_char_shift(x: Seq<char>, b: Seq<char>, c: char, j: int)
    requires
        0 <= j <= b.len(),
    ensures
        spec_find_char(x + b, c, x.len() + j) == match spec_find_char(b, c, j) {
            Some(k) => Some(x.len() + k),
            None => None,
        },
    decreases b.len() - j,
{
    if j < b.len() {
        assert((x + b)[x.len() + j] == b[j]);
        if b[j] != c {
            lemma_find_char_shift(x, b, c, j + 1);
        }
    }
}

proof fn lemma_split_shift(x: Seq<char>, b: Seq<char>, c: char, j: int)
    requires
        0 <= j <= b.len(),
    ensures
        split_from(x + b, c, x.len() + j) == split_from(b, c, j),
    decreases b.len() - j,
{
    lemma_find_char_shift(x, b, c, j);
    lemma_find_char(b, c, j);
    match spec_find_char(b, c, j) {
        Some(k) => {
            assert((x + b).subrange(x.len() + j, x.len() + k) =~= b.subrange(j, k));
            lemma_split_shift(x, b, c, k + 1);
        },
        None => {
            assert((x + b).subrange(x.len() + j, (x + b).len() as int) =~= b.subrange(
                j,
                b.len() as int,
            ));
        },
    }
}

proof fn lemma_find_char_before(a: Seq<char>, b: Seq<char>, c: char, i: int)
    requires
        0 <= i <= a.len(),
    ensures
        spec_find_char(a.push(c) + b, c, i) == match spec_find_char(a, c, i) {
            Some(k) => Some(k),
            None => Some(a.len() as int),
        },
    decreases a.len() - i,
{
    let s = a.push(c) + b;
    if i < a.len() {
        assert(s[i] == a[i]);
        if a[i] != c {
            lemma_find_char_before(a, b, c, i + 1);
        }
    } else {
        assert(s[i] == c);
    }
}

proof fn lemma_split_before(a: Seq<char>, b: Seq<char>, c: char, i: int)
    requires
        0 <= i <= a.len(),
    ensures
        split_from(a.push(c) + b, c, i) == split_from(a, c, i) + spec_split(b, c),
    decreases a.len() - i,
{
    let s = a.push(c) + b;
    lemma_find_char_before(a, b, c, i);
    lemma_find_char(a, c, i);
    match spec_find_char(a, c, i) {
        Some(k) => {
            lemma_split_before(a, b, c, k + 1);
            assert(s.subrange(i, k) =~= a.subrange(i, k));
            assert(seq![a.subrange(i, k)] + (split_from(a, c, k + 1) + spec_split(b, c)) =~= (
            seq![a.subrange(i, k)] + split_from(a, c, k + 1)) + spec_split(b, c));
        },
        None => {
            assert(s.subrange(i, a.len() as int) =~= a.subrange(i, a.len() as int));
            lemma_split_shift(a.push(c), b, c, 0);
        },
    }
}

pub proof fn lemma_split_none(s: Seq<char>, c: char)
    requires
        !s.contains(c),
    ensures
        spec_split(s, c) == seq![s],
{
    lemma_find_char(s, c, 0);
    if spec_find_char(s, c, 0) is Some {
        assert(s.contains(c));
    }
    assert(s.subrange(0, s.len() as int) =~= s);
}

/// The pieces of two texts with `c` between them are the pieces of the one and
/// then those of the other.
pub proof fn split_distributes(a: Seq<char>, b: Seq<char>, c: char)
    ensures
        spec_split(a.push(c) + b, c) == spec_split(a, c) + spec_split(b, c),
{
    lemma_split_before(a, b, c, 0);
}

/// Splitting at `c` undoes joining with it, for texts that do not hold `c`.
pub proof fn split_undoes_join(v: Seq<Seq<char>>, c: char)
    requires
        v.len() > 0,
        forall|i: int| 0 <= i < v.len() ==> !(#[trigger] v[i]).contains(c),
    ensures
        spec_split(spec_join(v, seq![c]), c) == v,
{
    lemma_split_join(v, c, v.len() as int);
    assert(v.take(v.len() as int) =~= v);
}

proof fn lemma_split_join(v: Seq<Seq<char>>, c: char, n: int)
    requires
        0 < n <= v.len(),
        forall|i: int| 0 <= i < v.len() ==> !(#[trigger] v[i]).contains(c),
    ensures
        spec_split(join_to(v, seq![c], n), c) == v.take(n),
    decreases n,
{
    if n == 1 {
        lemma_split_none(v[0], c);
        assert(v.take(1) =~= seq![v[0]]);
    } else {
        lemma_split_join(v, c, n - 1);
        let a = join_to(v, seq![c], n - 1);
        assert(a + seq![c] + v[n - 1] =~= a.push(c) + v[n - 1]);
        split_distributes(a, v[n - 1], c);
        lemma_split_none(v[n - 1], c);
        assert(v.take(n) =~= v.take(n - 1) + seq![v[n - 1]]);
    }
}

pub proof fn lemma_join_lacks(v: Seq<Seq<char>>, sep: Seq<char>, c: char, n: int)
    requires
        0 <= n <= v.len(),
        !sep.contains(c),
        forall|i: int| 0 <= i < v.len() ==> !(#[trigger] v[i]).contains(c),
    ensures
        !join_to(v, sep, n).contains(c),
    decreases n,
{
    if n > 1 {
        lemma_join_lacks(v, sep, c, n - 1);
        let a = join_to(v, sep, n - 1);
        let b = v[n - 1];
        let s = a + sep + b;
        assert forall|i: int| 0 <= i < s.len() implies s[i] != c by {
            if i < a.len() {
                assert(s[i] == a[i]);
                assert(a.contains(a[i]));
            } else if i < a.len() + sep.len() {
                assert(s[i] == sep[i - a.len()]);
                assert(sep.contains(sep[i - a.len()]));
            } else {
                assert(s[i] == b[i - a.len() - sep.len()]);
                assert(b.contains(b[i - a.len() - sep.len()]));
            }
        }
    }
}

// ---------------------------------------------------------------- ASCII white space

/// The first position from `i` on that holds no ASCII white space, or the end.
pub open spec fn skip_ascii(s: Seq<char>, i: int) -> int
    decreases s.len() - i,
{
    if 0 <= i < s.len() && is_ascii_white(s[i]) {
        skip_ascii(s, i + 1)
    } else {
        i
    }
}

/// The end of `s` cut at `j` once the ASCII white space before it is dropped,
/// at `i` at the least.
pub open spec fn back_ascii(s: Seq<char>, i: int, j: int) -> int
    decreases j - i,
{
    if 0 <= i < j <= s.len() && is_ascii_white(s[j - 1]) {
        back_ascii(s, i, j - 1)
    } else {
        j
    }
}

/// `s` without ASCII white space at its start.
pub open spec fn spec_ascii_trim_start(s: Seq<char>) -> Seq<char> {
    s.subrange(skip_ascii(s, 0), s.len() as int)
}

/// `s` without ASCII white space at its end.
pub open spec fn spec_ascii_trim_end(s: Seq<char>) -> Seq<char> {
    s.subrange(0, back_ascii(s, 0, s.len() as int))
}

/// `s` without ASCII white space at its two ends.
pub open spec fn spec_ascii_trim(s: Seq<char>) -> Seq<char> {
    let i = skip_ascii(s, 0);
    s.subrange(i, back_ascii(s, i, s.len() as int))
}

fn past_ascii(s: &[char]) -> (r: usize)
    ensures
        r == skip_ascii(s@, 0),
        r <= s@.len(),
{
    let mut i: usize = 0;
    while i < s.len() && ascii_white(s[i])
        invariant
            i <= s@.len(),
            skip_ascii(s@, 0) == skip_ascii(s@, i as int),
        decreases s@.len() - i,
    {
        i = i + 1;
    }
    i
}

fn before_ascii(s: &[char], from: usize) -> (r: usize)
    requires
        from <= s@.len(),
    ensures
        r == back_ascii(s@, from as int, s@.len() as int),
        from <= r <= s@.len(),
{
    let mut j: usize = s.len();
    while from < j && ascii_white(s[j - 1])
        invariant
            from <= j <= s@.len(),
            back_ascii(s@, from as int, s@.len() as int) == back_ascii(s@, from as int, j as int),
        decreases j,
    {
        j = j - 1;
    }
    j
}

/// `s` without ASCII white space at its start.
pub fn ascii_trim_start(s: &[char]) -> (r: &[char])
    ensures
        r@ == spec_ascii_trim_start(s@),
{
    let i = past_ascii(s);
    &s[i..s.len()]
}

/// `s` without ASCII white space at its end.
pub fn ascii_trim_end(s: &[char]) -> (r: &[char])
    ensures
        r@ == spec_ascii_trim_end(s@),
{
    let j = before_ascii(s, 0);
    &s[0..j]
}

/// `s` without ASCII white space at its two ends.
pub fn ascii_trim(s: &[char]) -> (r: &[char])
    ensures
        r@ == spec_ascii_trim(s@),
{
    let i = past_ascii(s);
    let j = before_ascii(s, i);
    &s[i..j]
}

/// The characters of `s` that are not ASCII white space, in order.
pub open spec fn visible(s: Seq<char>) -> Seq<char> {
    s.filter(|c: char| !is_ascii_white(c))
}

pub proof fn lemma_visible_add(a: Seq<char>, b: Seq<char>)
    ensures
        visible(a + b) == visible(a) + visible(b),
{
    Seq::filter_distributes_over_add(a, b, |c: char| !is_ascii_white(c));
}

pub proof fn lemma_visible_none(s: Seq<char>)
    requires
        forall|i: int| 0 <= i < s.len() ==> is_ascii_white(#[trigger] s[i]),
    ensures
        visible(s) == Seq::<char>::empty(),
    decreases s.len(),
{
    reveal(Seq::filter);
    if s.len() > 0 {
        lemma_visible_none(s.drop_last());
        assert(is_ascii_white(s[s.len() - 1]));
    }
}

proof fn lemma_skip_ascii(s: Seq<char>, i: int)
    requires
        0 <= i <= s.len(),
    ensures
        i <= skip_ascii(s, i) <= s.len(),
        forall|k: int| i <= k < skip_ascii(s, i) ==> is_ascii_white(#[trigger] s[k]),
    decreases s.len() - i,
{
    if i < s.len() && is_ascii_white(s[i]) {
        lemma_skip_ascii(s, i + 1);
    }
}

proof fn lemma_back_ascii(s: Seq<char>, i: int, j: int)
    requires
        0 <= i <= j <= s.len(),
    ensures
        i <= back_ascii(s, i, j) <= j,
        forall|k: int| back_ascii(s, i, j) <= k < j ==> is_ascii_white(#[trigger] s[k]),
    decreases j - i,
{
    if i < j && is_ascii_white(s[j - 1]) {
        lemma_back_ascii(s, i, j - 1);
    }
}

/// Trimming ASCII white space takes nothing visible away.
pub proof fn trimming_keeps_what_is_visible(s: Seq<char>)
    ensures
        visible(spec_ascii_trim(s)) == visible(s),
        visible(spec_ascii_trim_start(s)) == visible(s),
        visible(spec_ascii_trim_end(s)) == visible(s),
{
    let n = s.len() as int;
    let i = skip_ascii(s, 0);
    lemma_skip_ascii(s, 0);
    let j = back_ascii(s, i, n);
    lemma_back_ascii(s, i, n);
    let k = back_ascii(s, 0, n);
    lemma_back_ascii(s, 0, n);
    lemma_visible_none(s.subrange(0, i));
    lemma_visible_none(s.subrange(j, n));
    lemma_visible_none(s.subrange(k, n));
    lemma_visible_add(s.subrange(0, i), s.subrange(i, n));
    assert(s.subrange(0, i) + s.subrange(i, n) =~= s);
    lemma_visible_add(s.subrange(i, j), s.subrange(j, n));
    assert(s.subrange(i, j) + s.subrange(j, n) =~= s.subrange(i, n));
    lemma_visible_add(s.subrange(0, k), s.subrange(k, n));
    assert(s.subrange(0, k) + s.subrange(k, n) =~= s);
    assert(Seq::<char>::empty() + visible(s.subrange(i, n)) =~= visible(s.subrange(i, n)));
    assert(visible(s.subrange(i, j)) + Seq::<char>::empty() =~= visible(s.subrange(i, j)));
    assert(visible(s.subrange(0, k)) + Seq::<char>::empty() =~= visible(s.subrange(0, k)));
}

} // verus!
