//! What the labels of a chapter list say of the volumes of a collection.
use vstd::prelude::*;

use crate::text;
use crate::volume_number;
use crate::text::{
    add_text, ascii_alpha, blank, chars_of, copy, find_char, is_nocase, past_white, same, starts,
    str_is, string_of, trim, white, words,
};
use crate::volume_number::{Number, counted_number, digit_of, read_numerals};

verus! {

/// A candidate for the start of a volume: a top-level entry of the chapter list, with the place in
/// the spine of the document that it opens.
pub struct Candidate {
    pub spine_index: usize,
    pub label: String,
}

/// What a candidate says.
pub open spec fn candidate(c: Candidate) -> (int, Seq<char>) {
    (c.spine_index as int, c.label@)
}

pub open spec fn candidates_said(v: Seq<Candidate>) -> Seq<(int, Seq<char>)> {
    v.map_values(|c: Candidate| candidate(c))
}

/// A chosen start of a volume: the candidate, and the number that its label stated where it was
/// chosen by that.
#[derive(Clone, Copy)]
pub struct Start {
    pub candidate: usize,
    pub number: Option<Number>,
}

/// What chosen starts say.
pub open spec fn starts_said(v: Seq<Start>) -> Seq<(int, Option<Number>)> {
    v.map_values(|s: Start| (s.candidate as int, s.number))
}

/// The starts are candidates before the `n`-th, each behind the one before it.
pub open spec fn in_order(v: Seq<(int, Option<Number>)>, n: int) -> bool {
    &&& forall|i: int| 0 <= i < v.len() ==> 0 <= (#[trigger] v[i]).0 < n
    &&& forall|i: int, j: int| 0 <= i < j < v.len() ==> (#[trigger] v[i]).0 < (#[trigger] v[j]).0
}

/// `std::primitive::char::is_alphanumeric`: the character has the Unicode property `Alphabetic` or
/// is a number.
pub uninterp spec fn alphanumeric(c: char) -> bool;

/// Calls `char::is_alphanumeric`. Claimed: the answer depends on the character alone, and of ASCII
/// the letters and digits are alphanumeric.
#[verifier::external_body]
fn is_alphanumeric(c: char) -> (r: bool)
    ensures
        r == alphanumeric(c),
        (c as u32) < 128 ==> r == text::is_ascii_alnum(c),
{
    c.is_alphanumeric()
}

/// Where the first alphanumeric character from `i` on stands, or the end.
pub open spec fn word_start(s: Seq<char>, i: int) -> int
    decreases s.len() - i,
{
    if 0 <= i < s.len() && !alphanumeric(s[i]) {
        word_start(s, i + 1)
    } else {
        i
    }
}

/// Behind the last alphanumeric character of `s[from..j]`, or `from`.
pub open spec fn word_stop(s: Seq<char>, from: int, j: int) -> int
    decreases j - from,
{
    if from < j <= s.len() && 0 <= from && !alphanumeric(s[j - 1]) {
        word_stop(s, from, j - 1)
    } else {
        j
    }
}

/// The text without what stands before its first and behind its last alphanumeric character.
pub open spec fn bare_word(s: Seq<char>) -> Seq<char> {
    let from = word_start(s, 0);
    s.subrange(from, word_stop(s, from, s.len() as int))
}

fn bare_word_of(s: &[char]) -> (r: &[char])
    ensures
        r@ == bare_word(s@),
{
    let n = s.len();
    let mut from: usize = 0;
    while from < n
        invariant_except_break
            from <= n,
            word_start(s@, from as int) == word_start(s@, 0),
        invariant
            n == s@.len(),
        ensures
            from <= n,
            from == word_start(s@, 0),
        decreases n - from,
    {
        if is_alphanumeric(s[from]) {
            break;
        }
        from += 1;
    }
    let mut to: usize = n;
    while to > from
        invariant_except_break
            word_stop(s@, from as int, to as int) == word_stop(s@, from as int, n as int),
        invariant
            from <= to <= n,
            n == s@.len(),
        ensures
            to == word_stop(s@, from as int, n as int),
        decreases to,
    {
        if is_alphanumeric(s[to - 1]) {
            break;
        }
        to -= 1;
    }
    &s[from..to]
}

/// The words that a Latin-script label numbers volumes with. `part`, `chapter`, `section` and `act`
/// are not among them: they number the divisions of one book.
pub open spec fn volume_word(s: Seq<char>) -> bool {
    text::spec_lower(s) == text::spec_lower("book"@) || text::spec_lower(s) == text::spec_lower("volume"@)
        || text::spec_lower(s) == text::spec_lower("vol"@)
}

/// Where the first digit from `i` on stands.
pub open spec fn first_digit(s: Seq<char>, i: int) -> Option<int>
    decreases s.len() - i,
{
    if i < 0 || i >= s.len() {
        None
    } else if volume_number::digit(s[i]) is Some {
        Some(i)
    } else {
        first_digit(s, i + 1)
    }
}

/// Where the run of digits and points from `i` on ends.
pub open spec fn numeral_end(s: Seq<char>, i: int) -> int
    decreases s.len() - i,
{
    if 0 <= i < s.len() && volume_number::spec_is_numeral(s[i]) {
        numeral_end(s, i + 1)
    } else {
        i
    }
}

/// What a label reads as a counted volume: the stem that it counts from, and the number. None
/// unless the stem says that it counts volumes; every 第…巻 counts from one stem.
pub open spec fn counted(s: Seq<char>) -> Option<(Seq<char>, int)> {
    match volume_number::counted_from(s, 0) {
        Some(n) => Some(("第"@, n)),
        None => match first_digit(s, 0) {
            Some(at) => if volume_word(bare_word(s.subrange(0, at))) {
                match volume_number::numerals(s.subrange(at, numeral_end(s, at))) {
                    Some(n) => Some((s.subrange(0, at), n)),
                    None => None,
                }
            } else {
                None
            },
            None => None,
        },
    }
}

/// What a reading of a counted volume says.
pub open spec fn counted_said(r: Option<(String, Number)>) -> Option<(Seq<char>, int)> {
    match r {
        Some((stem, n)) => Some((stem@, n.billionths as int)),
        None => None,
    }
}

/// What a label reads as a counted volume: the stem that it counts from, and the number.
pub fn counted_volume(label: &str) -> (r: Option<(String, Number)>)
    ensures
        counted_said(r) == counted(label@),
{
    let s = chars_of(label);
    if let Some(n) = counted_number(&s) {
        return Some((string_of(&chars_of("第")), n));
    }
    let n = s.len();
    let mut at: usize = 0;
    while at < n && digit_of(s[at]).is_none()
        invariant
            at <= n,
            n == s@.len(),
            first_digit(s@, at as int) == first_digit(s@, 0),
        decreases n - at,
    {
        at += 1;
    }
    if at == n {
        return None;
    }
    let stem = &s[0..at];
    let word = bare_word_of(stem);
    if !(is_nocase(word, "book") || is_nocase(word, "volume") || is_nocase(word, "vol")) {
        return None;
    }
    let mut end: usize = at;
    while end < n && (digit_of(s[end]).is_some() || s[end] == '.' || s[end] == '．')
        invariant
            at <= end <= n,
            n == s@.len(),
            numeral_end(s@, end as int) == numeral_end(s@, at as int),
        decreases n - end,
    {
        end += 1;
    }
    match read_numerals(&s[at..end]) {
        Some(k) => Some((string_of(stem), k)),
        None => None,
    }
}

/// The starts among the first `n` candidates whose labels count from `stem`.
pub open spec fn group_to(v: Seq<(int, Seq<char>)>, stem: Seq<char>, n: int) -> Seq<(int, Option<Number>)>
    decreases n,
{
    if n <= 0 {
        Seq::empty()
    } else {
        match counted(v[n - 1].1) {
            Some((s, k)) if s == stem => group_to(v, stem, n - 1).push(
                (n - 1, Some(Number { billionths: k as u128 })),
            ),
            _ => group_to(v, stem, n - 1),
        }
    }
}

/// A count only counts if it climbs.
pub open spec fn climbs(v: Seq<(int, Option<Number>)>) -> bool {
    forall|i: int|
        0 <= i < v.len() - 1 ==> (#[trigger] v[i]).1.unwrap().billionths
            < v[i + 1].1.unwrap().billionths
}

/// The `n`-th candidate is the first of its stem.
pub open spec fn first_of_stem(v: Seq<(int, Seq<char>)>, stem: Seq<char>, n: int) -> bool {
    group_to(v, stem, n).len() == 0
}

/// The largest climbing count that starts among the first `n` candidates; of several as large, the
/// one that starts last.
pub open spec fn counts_to(v: Seq<(int, Seq<char>)>, n: int) -> Seq<(int, Option<Number>)>
    decreases n,
{
    if n <= 0 {
        Seq::empty()
    } else {
        let best = counts_to(v, n - 1);
        match counted(v[n - 1].1) {
            Some((stem, _)) => {
                let group = group_to(v, stem, v.len() as int);
                if first_of_stem(v, stem, n - 1) && climbs(group) && group.len() >= best.len() {
                    group
                } else {
                    best
                }
            },
            None => best,
        }
    }
}

fn group_of(v: &Vec<Candidate>, stem: &str, to: usize) -> (r: Vec<Start>)
    requires
        to <= v@.len(),
    ensures
        starts_said(r@) == group_to(candidates_said(v@), stem@, to as int),
        forall|i: int| 0 <= i < r@.len() ==> (#[trigger] r@[i]).number is Some,
{
    let ghost all = candidates_said(v@);
    let mut out: Vec<Start> = Vec::new();
    assert(starts_said(out@) =~= Seq::empty());
    let mut i: usize = 0;
    while i < to
        invariant
            i <= to <= v@.len(),
            all == candidates_said(v@),
            starts_said(out@) == group_to(all, stem@, i as int),
            forall|k: int| 0 <= k < out@.len() ==> (#[trigger] out@[k]).number is Some,
        decreases to - i,
    {
        assert(all[i as int] == candidate(v@[i as int]));
        if let Some((s, n)) = counted_volume(v[i].label.as_str()) {
            if str_is(s.as_str(), stem) {
                let ghost before = starts_said(out@);
                out.push(Start { candidate: i, number: Some(n) });
                assert(starts_said(out@) =~= before.push((i as int, Some(n))));
            }
        }
        i += 1;
    }
    out
}

fn is_climbing(v: &Vec<Start>) -> (r: bool)
    requires
        forall|i: int| 0 <= i < v@.len() ==> (#[trigger] v@[i]).number is Some,
    ensures
        r == climbs(starts_said(v@)),
{
    let n = v.len();
    let ghost all = starts_said(v@);
    assert(all.len() == n);
    let mut i: usize = 1;
    while i < n
        invariant
            1 <= i,
            n == v@.len(),
            all == starts_said(v@),
            all.len() == n,
            forall|k: int| 0 <= k < n ==> (#[trigger] v@[k]).number is Some,
            forall|k: int|
                0 <= k < i - 1 && k < n - 1 ==> (#[trigger] all[k]).1.unwrap().billionths
                    < all[k + 1].1.unwrap().billionths,
        decreases n - i,
    {
        assert(v@[i - 1].number is Some && v@[i as int].number is Some);
        assert(all[i - 1].1 == v@[i - 1].number && all[i as int].1 == v@[i as int].number);
        if let (Some(a), Some(b)) = (v[i - 1].number, v[i].number) {
            if a.billionths >= b.billionths {
                assert(all[i - 1].1.unwrap().billionths >= all[i - 1 + 1].1.unwrap().billionths);
                return false;
            }
        }
        i += 1;
    }
    true
}

/// The largest run of candidates whose labels count volumes up from a shared stem, in the book's
/// own order.
pub fn counted_labels(v: &Vec<Candidate>) -> (r: Vec<Start>)
    ensures
        starts_said(r@) == counts_to(candidates_said(v@), v@.len() as int),
{
    let ghost all = candidates_said(v@);
    let n = v.len();
    assert(all.len() == n);
    let mut best: Vec<Start> = Vec::new();
    assert(starts_said(best@) =~= Seq::empty());
    let mut i: usize = 0;
    while i < n
        invariant
            i <= n,
            n == v@.len(),
            all == candidates_said(v@),
            all.len() == n,
            starts_said(best@) == counts_to(all, i as int),
        decreases n - i,
    {
        assert(all[i as int] == candidate(v@[i as int]));
        if let Some((stem, _)) = counted_volume(v[i].label.as_str()) {
            let before = group_of(v, stem.as_str(), i);
            let group = group_of(v, stem.as_str(), n);
            assert(starts_said(before@).len() == before@.len());
            assert(starts_said(group@).len() == group@.len());
            assert(starts_said(best@).len() == best@.len());
            if before.len() == 0 && is_climbing(&group) && group.len() >= best.len() {
                best = group;
            }
        }
        i += 1;
    }
    best
}

/// The shortest stem that can name a work: below that a stem is an article or a particle.
pub const MIN_WORK_NAME: usize = 4;

/// A stem is long enough to be a work's name: four characters in a script that runs them together;
/// a script that separates words needs two of them.
pub open spec fn work_name(s: Seq<char>) -> bool {
    s.len() >= MIN_WORK_NAME && ((forall|i: int| 0 <= i < s.len() ==> !text::is_ascii_alpha(#[trigger] s[i]))
        || text::spec_words(s).len() >= 2)
}

/// A stem is long enough to be a work's name.
pub fn names_a_work(s: &[char]) -> (r: bool)
    ensures
        r == work_name(s@),
{
    let n = s.len();
    if n < MIN_WORK_NAME {
        return false;
    }
    let mut i: usize = 0;
    while i < n && !ascii_alpha(s[i])
        invariant
            i <= n,
            n == s@.len(),
            forall|k: int| 0 <= k < i ==> !text::is_ascii_alpha(#[trigger] s@[k]),
        decreases n - i,
    {
        i += 1;
    }
    if i == n {
        return true;
    }
    assert(text::is_ascii_alpha(s@[i as int]));
    let w = words(s);
    assert(text::texts(w@).len() == w@.len());
    w.len() >= 2
}

/// What closes a banner that the character opens.
pub open spec fn banner_close(c: char) -> Option<char> {
    if c == '【' {
        Some('】')
    } else if c == '［' {
        Some('］')
    } else if c == '[' {
        Some(']')
    } else if c == '（' {
        Some('）')
    } else if c == '(' {
        Some(')')
    } else if c == '＜' {
        Some('＞')
    } else {
        None
    }
}

fn banner_close_of(c: char) -> (r: Option<char>)
    ensures
        r == banner_close(c),
{
    if c == '【' {
        Some('】')
    } else if c == '［' {
        Some('］')
    } else if c == '[' {
        Some(']')
    } else if c == '（' {
        Some('）')
    } else if c == '(' {
        Some(')')
    } else if c == '＜' {
        Some('＞')
    } else {
        None
    }
}

/// Where a title that is read from `i` on has its own name, behind white space and the banners
/// that it opens on: a bracketed 合本版, a count of volumes.
pub open spec fn head_at(s: Seq<char>, i: int) -> int
    decreases s.len() - i,
{
    let a = text::skip_white(s, i);
    if 0 <= i <= a < s.len() {
        match banner_close(s[a]) {
            Some(c) => match text::spec_find_char(s, c, a) {
                Some(b) if a <= b < s.len() => head_at(s, b + 1),
                _ => a,
            },
            None => a,
        }
    } else {
        a
    }
}

/// A title without the banners that it opens on.
pub open spec fn head_of(title: Seq<char>) -> Seq<char> {
    title.subrange(head_at(title, 0), title.len() as int)
}

/// A title without the banners that it opens on.
pub fn title_head(title: &[char]) -> (r: &[char])
    ensures
        r@ == head_of(title@),
{
    let n = title.len();
    let mut i: usize = 0;
    loop
        invariant
            i <= n,
            n == title@.len(),
            head_at(title@, i as int) == head_at(title@, 0),
        decreases n - i,
    {
        proof {
            text::lemma_skip_white(title@, i as int);
        }
        let a = past_white(title, i);
        if a >= n {
            return &title[a..n];
        }
        let close = match banner_close_of(title[a]) {
            Some(c) => c,
            None => {
                return &title[a..n];
            },
        };
        proof {
            text::lemma_find_char(title@, close, a as int);
        }
        match find_char(title, close, a) {
            Some(b) => {
                i = b + 1;
            },
            None => {
                return &title[a..n];
            },
        }
    }
}

/// How far two texts agree from `i` on.
pub open spec fn agree_to(a: Seq<char>, b: Seq<char>, i: int) -> int
    decreases a.len() - i,
{
    if 0 <= i < a.len() && i < b.len() && a[i] == b[i] {
        agree_to(a, b, i + 1)
    } else {
        i
    }
}

/// The longest prefix that a label shares with the name the book gives itself, where it names a
/// work. It is shared with the head of the title: a noun from the middle is a coincidence.
pub open spec fn stem_of(label: Seq<char>, title: Seq<char>) -> Option<Seq<char>> {
    let stem = label.subrange(0, agree_to(label, head_of(title), 0));
    if work_name(text::spec_trim(stem)) {
        Some(stem)
    } else {
        None
    }
}

/// The longest prefix that a label shares with the name the book gives itself.
pub fn title_borne_prefix(label: &str, title: &str) -> (r: Option<String>)
    ensures
        text::opt_str(r) == stem_of(label@, title@),
{
    let s = chars_of(label);
    let t = chars_of(title);
    let head = title_head(&t);
    let n = s.len();
    let m = head.len();
    let mut i: usize = 0;
    while i < n && i < m && s[i] == head[i]
        invariant
            i <= n,
            i <= m,
            n == s@.len(),
            m == head@.len(),
            agree_to(s@, head@, i as int) == agree_to(s@, head@, 0),
        decreases n - i,
    {
        i += 1;
    }
    let stem = &s[0..i];
    if names_a_work(trim(stem)) {
        Some(string_of(stem))
    } else {
        None
    }
}

/// The text from `i` on without white space.
pub open spec fn squashed_from(s: Seq<char>, i: int) -> Seq<char>
    decreases s.len() - i,
{
    if i < 0 || i >= s.len() {
        Seq::empty()
    } else if text::is_white(s[i]) {
        squashed_from(s, i + 1)
    } else {
        seq![s[i]] + squashed_from(s, i + 1)
    }
}

fn squash(s: &[char]) -> (r: Vec<char>)
    ensures
        r@ == squashed_from(s@, 0),
{
    let mut out: Vec<char> = Vec::new();
    let n = s.len();
    let mut i: usize = 0;
    assert(out@ + squashed_from(s@, 0) =~= squashed_from(s@, 0));
    while i < n
        invariant
            i <= n,
            n == s@.len(),
            out@ + squashed_from(s@, i as int) == squashed_from(s@, 0),
        decreases n - i,
    {
        let ghost before = out@;
        let ghost rest = squashed_from(s@, i + 1);
        if !white(s[i]) {
            out.push(s[i]);
            assert(before + (seq![s@[i as int]] + rest) =~= out@ + rest);
        }
        i += 1;
    }
    assert(out@ =~= squashed_from(s@, 0));
    out
}

/// A stem is the name of an author rather than of the work.
pub open spec fn author_named(stem: Seq<char>, authors: Seq<Seq<char>>) -> bool {
    exists|i: int|
        0 <= i < authors.len() && text::spec_starts(
            squashed_from(#[trigger] authors[i], 0),
            squashed_from(stem, 0),
        )
}

/// A stem is the name of an author rather than of the work.
pub fn names_the_author(stem: &str, authors: &Vec<String>) -> (r: bool)
    ensures
        r == author_named(stem@, text::strs(authors@)),
{
    let s = squash(&chars_of(stem));
    let ghost all = text::strs(authors@);
    let n = authors.len();
    assert(all.len() == n);
    let mut i: usize = 0;
    while i < n
        invariant
            i <= n,
            n == authors@.len(),
            all == text::strs(authors@),
            all.len() == n,
            s@ == squashed_from(stem@, 0),
            forall|k: int|
                0 <= k < i ==> !text::spec_starts(squashed_from(#[trigger] all[k], 0), s@),
        decreases n - i,
    {
        assert(all[i as int] == authors@[i as int]@);
        let a = squash(&chars_of(authors[i].as_str()));
        if starts(&a, &s) {
            return true;
        }
        i += 1;
    }
    false
}

/// What the labels among the first `n` that start with the stem say behind it.
pub open spec fn behind_stem(v: Seq<(int, Seq<char>)>, stem: Seq<char>, n: int) -> Seq<Seq<char>>
    decreases n,
{
    if n <= 0 {
        Seq::empty()
    } else if text::spec_starts(v[n - 1].1, stem) {
        behind_stem(v, stem, n - 1).push(v[n - 1].1.subrange(stem.len() as int, v[n - 1].1.len() as int))
    } else {
        behind_stem(v, stem, n - 1)
    }
}

fn behind_of(v: &Vec<Candidate>, stem: &[char]) -> (r: Vec<Vec<char>>)
    ensures
        text::texts(r@) == behind_stem(candidates_said(v@), stem@, v@.len() as int),
{
    let ghost all = candidates_said(v@);
    let n = v.len();
    let k = stem.len();
    let mut out: Vec<Vec<char>> = Vec::new();
    assert(text::texts(out@) =~= Seq::empty());
    let mut i: usize = 0;
    while i < n
        invariant
            i <= n,
            n == v@.len(),
            k == stem@.len(),
            all == candidates_said(v@),
            text::texts(out@) == behind_stem(all, stem@, i as int),
        decreases n - i,
    {
        assert(all[i as int] == candidate(v@[i as int]));
        let label = chars_of(v[i].label.as_str());
        if starts(&label, stem) {
            let rest = copy(&label[k..label.len()]);
            let ghost x = rest@;
            let ghost before = text::texts(out@);
            add_text(&mut out, rest);
            assert(text::texts(out@) =~= before.push(x));
        }
        i += 1;
    }
    out
}

/// A stem picks out entries that a reader could tell apart: at least two, each saying something of
/// its own behind it.
pub open spec fn tells_apart(rest: Seq<Seq<char>>) -> bool {
    &&& rest.len() >= 2
    &&& forall|i: int| 0 <= i < rest.len() ==> !text::all_white(#[trigger] rest[i])
    &&& forall|i: int, j: int| 0 <= i < j < rest.len() ==> #[trigger] rest[i] != #[trigger] rest[j]
}

/// A stem picks out entries that a reader could tell apart.
pub fn tells_volumes_apart(v: &Vec<Candidate>, stem: &[char]) -> (r: bool)
    ensures
        r == tells_apart(behind_stem(candidates_said(v@), stem@, v@.len() as int)),
{
    let rest = behind_of(v, stem);
    let ghost all = text::texts(rest@);
    let n = rest.len();
    assert(all.len() == n);
    if n < 2 {
        return false;
    }
    let mut i: usize = 0;
    while i < n
        invariant
            i <= n,
            n == rest@.len(),
            all == text::texts(rest@),
            all == behind_stem(candidates_said(v@), stem@, v@.len() as int),
            all.len() == n,
            forall|k: int| 0 <= k < i ==> !text::all_white(#[trigger] all[k]),
            forall|k: int, l: int| 0 <= k < l < n && k < i ==> #[trigger] all[k] != #[trigger] all[l],
        decreases n - i,
    {
        assert(all[i as int] == rest@[i as int]@);
        if blank(&rest[i]) {
            return false;
        }
        let mut j: usize = i + 1;
        while j < n
            invariant
                i < j <= n,
                n == rest@.len(),
                all == text::texts(rest@),
                all == behind_stem(candidates_said(v@), stem@, v@.len() as int),
                all.len() == n,
                all[i as int] == rest@[i as int]@,
                forall|l: int| i < l < j ==> all[i as int] != #[trigger] all[l],
            decreases n - j,
        {
            assert(all[j as int] == rest@[j as int]@);
            if same(&rest[i], &rest[j]) {
                assert(all[i as int] == all[j as int]);
                return false;
            }
            j += 1;
        }
        i += 1;
    }
    true
}

/// The stem of a label that can name the work: it is no author's name and tells volumes apart.
pub open spec fn usable_stem(
    v: Seq<(int, Seq<char>)>,
    label: Seq<char>,
    title: Seq<char>,
    authors: Seq<Seq<char>>,
) -> Option<Seq<char>> {
    match stem_of(label, title) {
        Some(stem) if !author_named(stem, authors) && tells_apart(
            behind_stem(v, stem, v.len() as int),
        ) => Some(stem),
        _ => None,
    }
}

/// The stem among those of the first `n` labels that names the most entries; of several that name
/// as many the longest.
pub open spec fn best_stem(
    v: Seq<(int, Seq<char>)>,
    title: Seq<char>,
    authors: Seq<Seq<char>>,
    n: int,
) -> Option<Seq<char>>
    decreases n,
{
    if n <= 0 {
        None
    } else {
        let best = best_stem(v, title, authors, n - 1);
        match (usable_stem(v, v[n - 1].1, title, authors), best) {
            (Some(x), Some(b)) => {
                let cx = behind_stem(v, x, v.len() as int).len();
                let cb = behind_stem(v, b, v.len() as int).len();
                if cx > cb || (cx == cb && x.len() >= b.len()) {
                    Some(x)
                } else {
                    best
                }
            },
            (Some(x), None) => Some(x),
            (None, _) => best,
        }
    }
}

/// The candidates among the first `n` whose labels start with the stem.
pub open spec fn stemmed_to(v: Seq<(int, Seq<char>)>, stem: Seq<char>, n: int) -> Seq<(int, Option<Number>)>
    decreases n,
{
    if n <= 0 {
        Seq::empty()
    } else if text::spec_starts(v[n - 1].1, stem) {
        stemmed_to(v, stem, n - 1).push((n - 1, None))
    } else {
        stemmed_to(v, stem, n - 1)
    }
}

/// The candidates whose labels open with the name that the book gives itself.
pub open spec fn titled(v: Seq<(int, Seq<char>)>, title: Seq<char>, authors: Seq<Seq<char>>) -> Seq<
    (int, Option<Number>),
> {
    match best_stem(v, title, authors, v.len() as int) {
        Some(stem) => stemmed_to(v, stem, v.len() as int),
        None => Seq::empty(),
    }
}

fn best_stem_of(v: &Vec<Candidate>, title: &str, authors: &Vec<String>) -> (r: Option<Vec<char>>)
    ensures
        text::opt_text(r) == best_stem(candidates_said(v@), title@, text::strs(authors@), v@.len() as int),
{
    let ghost all = candidates_said(v@);
    let n = v.len();
    assert(all.len() == n);
    let mut best: Option<Vec<char>> = None;
    let mut best_count: usize = 0;
    let mut i: usize = 0;
    while i < n
        invariant
            i <= n,
            n == v@.len(),
            all == candidates_said(v@),
            all.len() == n,
            text::opt_text(best) == best_stem(all, title@, text::strs(authors@), i as int),
            best matches Some(b) ==> best_count == behind_stem(all, b@, n as int).len(),
        decreases n - i,
    {
        assert(all[i as int] == candidate(v@[i as int]));
        if let Some(stem) = title_borne_prefix(v[i].label.as_str(), title) {
            let s = chars_of(stem.as_str());
            if !names_the_author(stem.as_str(), authors) && tells_volumes_apart(v, &s) {
                let named = behind_of(v, &s);
                assert(text::texts(named@).len() == named@.len());
                let count = named.len();
                let better = match &best {
                    Some(b) => count > best_count || (count == best_count && s.len() >= b.len()),
                    None => true,
                };
                if better {
                    best = Some(s);
                    best_count = count;
                }
            }
        }
        i += 1;
    }
    best
}

/// The candidates whose labels open with the name that the book gives itself.
pub fn title_bearing_labels(v: &Vec<Candidate>, title: &str, authors: &Vec<String>) -> (r: Vec<
    Start,
>)
    ensures
        starts_said(r@) == titled(candidates_said(v@), title@, text::strs(authors@)),
{
    let ghost all = candidates_said(v@);
    let n = v.len();
    assert(all.len() == n);
    let mut out: Vec<Start> = Vec::new();
    assert(starts_said(out@) =~= Seq::empty());
    let stem = match best_stem_of(v, title, authors) {
        Some(s) => s,
        None => {
            return out;
        },
    };
    let mut i: usize = 0;
    while i < n
        invariant
            i <= n,
            n == v@.len(),
            all == candidates_said(v@),
            starts_said(out@) == stemmed_to(all, stem@, i as int),
        decreases n - i,
    {
        assert(all[i as int] == candidate(v@[i as int]));
        if starts(&chars_of(v[i].label.as_str()), &stem) {
            let ghost before = starts_said(out@);
            out.push(Start { candidate: i, number: None });
            assert(starts_said(out@) =~= before.push((i as int, None)));
        }
        i += 1;
    }
    out
}

/// A count takes its candidates in the order of the book.
pub proof fn counted_labels_are_in_order(v: Seq<(int, Seq<char>)>, n: int)
    requires
        n <= v.len(),
    ensures
        in_order(counts_to(v, n), v.len() as int),
    decreases n,
{
    if n > 0 {
        counted_labels_are_in_order(v, n - 1);
        if let Some((stem, _)) = counted(v[n - 1].1) {
            lemma_group_in_order(v, stem, v.len() as int);
        }
    }
}

proof fn lemma_group_in_order(v: Seq<(int, Seq<char>)>, stem: Seq<char>, n: int)
    ensures
        in_order(group_to(v, stem, n), n),
    decreases n,
{
    if n > 0 {
        lemma_group_in_order(v, stem, n - 1);
    }
}

proof fn lemma_stemmed_in_order(v: Seq<(int, Seq<char>)>, stem: Seq<char>, n: int)
    ensures
        in_order(stemmed_to(v, stem, n), n),
    decreases n,
{
    if n > 0 {
        lemma_stemmed_in_order(v, stem, n - 1);
    }
}

/// The labels that open with the work's name are taken in the order of the book.
pub proof fn titled_labels_are_in_order(
    v: Seq<(int, Seq<char>)>,
    title: Seq<char>,
    authors: Seq<Seq<char>>,
)
    ensures
        in_order(titled(v, title, authors), v.len() as int),
{
    if let Some(stem) = best_stem(v, title, authors, v.len() as int) {
        lemma_stemmed_in_order(v, stem, v.len() as int);
    }
}

} // verus!
