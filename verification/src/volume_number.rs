//! The number that a label gives a volume.
use vstd::prelude::*;

use crate::text;
use crate::text::{chars_of, decimal_of_sum, find_char, put, put_str, white};

verus! {

/// A number of a volume, in billionths: volumes are numbered 5.5 as well as 5.
#[derive(Debug, Clone, Copy, PartialEq, Eq, Structural)]
pub struct Number {
    pub billionths: u128,
}

/// One, in billionths.
pub const ONE: u128 = 1_000_000_000;

/// The largest number that digits are read as, in billionths.
pub const MOST: u128 = 1_000_000_000_000_000_000_000_000_000;

/// The number `n`.
pub open spec fn whole(n: int) -> Number {
    Number { billionths: (n * ONE) as u128 }
}

/// An ASCII or full-width digit.
pub open spec fn digit(c: char) -> Option<int> {
    if 48 <= c as u32 <= 57 {
        Some(c as u32 - 48)
    } else if 0xFF10 <= c as u32 <= 0xFF19 {
        Some(c as u32 - 0xFF10)
    } else {
        None
    }
}

/// The digit that a character stands for.
pub fn digit_of(ch: char) -> (r: Option<u32>)
    ensures
        match r {
            Some(d) => digit(ch) == Some(d as int) && d <= 9,
            None => digit(ch) is None,
        },
{
    let c: u32 = ch as u32;
    if 48 <= c && c <= 57 {
        Some(c - 48)
    } else if 0xFF10 <= c && c <= 0xFF19 {
        Some(c - 0xFF10)
    } else {
        None
    }
}

pub open spec fn is_point(c: char) -> bool {
    c == '.' || c == '．'
}

/// What a number is written with when it is written as a number: ASCII and full-width digits and
/// decimal points.
pub open spec fn spec_is_numeral(c: char) -> bool {
    digit(c) is Some || is_point(c)
}

fn is_numeral(c: char) -> (r: bool)
    ensures
        r == spec_is_numeral(c),
{
    digit_of(c).is_some() || c == '.' || c == '．'
}

pub open spec fn kanji_digit(c: char) -> Option<int> {
    if c == '〇' {
        Some(0)
    } else if c == '一' {
        Some(1)
    } else if c == '二' {
        Some(2)
    } else if c == '三' {
        Some(3)
    } else if c == '四' {
        Some(4)
    } else if c == '五' {
        Some(5)
    } else if c == '六' {
        Some(6)
    } else if c == '七' {
        Some(7)
    } else if c == '八' {
        Some(8)
    } else if c == '九' {
        Some(9)
    } else {
        None
    }
}

fn kanji_digit_of(c: char) -> (r: Option<u32>)
    ensures
        match r {
            Some(d) => kanji_digit(c) == Some(d as int) && d <= 9,
            None => kanji_digit(c) is None,
        },
{
    if c == '〇' {
        Some(0)
    } else if c == '一' {
        Some(1)
    } else if c == '二' {
        Some(2)
    } else if c == '三' {
        Some(3)
    } else if c == '四' {
        Some(4)
    } else if c == '五' {
        Some(5)
    } else if c == '六' {
        Some(6)
    } else if c == '七' {
        Some(7)
    } else if c == '八' {
        Some(8)
    } else if c == '九' {
        Some(9)
    } else {
        None
    }
}

pub open spec fn kanji_unit(c: char) -> Option<int> {
    if c == '十' {
        Some(10)
    } else if c == '百' {
        Some(100)
    } else if c == '千' {
        Some(1000)
    } else {
        None
    }
}

fn kanji_unit_of(c: char) -> (r: Option<u32>)
    ensures
        match r {
            Some(d) => kanji_unit(c) == Some(d as int) && d <= 1000,
            None => kanji_unit(c) is None,
        },
{
    if c == '十' {
        Some(10)
    } else if c == '百' {
        Some(100)
    } else if c == '千' {
        Some(1000)
    } else {
        None
    }
}

/// What digits from `i` on make of a number. `sum` is what was read, in billionths; `unit` is what
/// the last digit behind the point counted; `any` says whether a digit was read. Two points, no
/// digit, more than nine decimals, or a number past `MOST` are no number.
pub open spec fn digits_from(
    s: Seq<char>,
    i: int,
    sum: int,
    unit: int,
    point: bool,
    any: bool,
) -> Option<int>
    decreases s.len() - i,
{
    if i < 0 || i >= s.len() {
        if any {
            Some(sum)
        } else {
            None
        }
    } else if is_point(s[i]) {
        if point {
            None
        } else {
            digits_from(s, i + 1, sum, unit, true, any)
        }
    } else {
        match digit(s[i]) {
            None => None,
            Some(d) => if point {
                if unit <= 1 {
                    None
                } else {
                    digits_from(s, i + 1, sum + d * (unit / 10), unit / 10, true, true)
                }
            } else if sum * 10 + d * ONE > MOST {
                None
            } else {
                digits_from(s, i + 1, sum * 10 + d * ONE, unit, false, true)
            },
        }
    }
}

fn read_digits(s: &[char]) -> (r: Option<Number>)
    ensures
        match r {
            Some(n) => digits_from(s@, 0, 0, ONE as int, false, false) == Some(n.billionths as int),
            None => digits_from(s@, 0, 0, ONE as int, false, false) is None,
        },
{
    let n = s.len();
    let mut i: usize = 0;
    let mut sum: u128 = 0;
    let mut unit: u128 = ONE;
    let mut point = false;
    let mut any = false;
    let ghost all = digits_from(s@, 0, 0, ONE as int, false, false);
    while i < n
        invariant
            i <= n,
            n == s@.len(),
            sum + unit <= MOST + ONE,
            unit <= ONE,
            all == digits_from(s@, 0, 0, ONE as int, false, false),
            digits_from(s@, i as int, sum as int, unit as int, point, any) == all,
        decreases n - i,
    {
        let c = s[i];
        if c == '.' || c == '．' {
            if point {
                return None;
            }
            point = true;
        } else {
            match digit_of(c) {
                None => {
                    return None;
                },
                Some(d) => {
                    if point {
                        if unit <= 1 {
                            return None;
                        }
                        let next: u128 = unit / 10;
                        assert(d * next <= 9 * next) by (nonlinear_arith)
                            requires
                                d <= 9,
                        ;
                        assert(9 * next + next <= unit);
                        assert(d * next == (d as int) * (unit as int / 10));
                        sum = sum + d as u128 * next;
                        unit = next;
                    } else {
                        let wider = sum * 10 + d as u128 * ONE;
                        if wider > MOST {
                            return None;
                        }
                        sum = wider;
                    }
                    any = true;
                },
            }
        }
        i += 1;
    }
    if any {
        Some(Number { billionths: sum })
    } else {
        None
    }
}

/// What kanji numerals from `i` on make of a number: 二十七 is two tens and seven.
pub open spec fn kanji_from(s: Seq<char>, i: int, total: int, digit: Option<int>) -> Option<int>
    decreases s.len() - i,
{
    if i < 0 || i >= s.len() {
        Some(
            total + match digit {
                Some(d) => d,
                None => 0,
            },
        )
    } else {
        match kanji_digit(s[i]) {
            Some(d) => kanji_from(s, i + 1, total, Some(d)),
            None => match kanji_unit(s[i]) {
                Some(u) => kanji_from(
                    s,
                    i + 1,
                    total + match digit {
                        Some(d) => d * u,
                        None => u,
                    },
                    None,
                ),
                None => None,
            },
        }
    }
}

fn read_kanji(s: &[char]) -> (r: Option<Number>)
    ensures
        match r {
            Some(n) => kanji_from(s@, 0, 0, None) matches Some(k) && n.billionths == k * ONE,
            None => kanji_from(s@, 0, 0, None) is None,
        },
{
    let n = s.len();
    let mut i: usize = 0;
    let mut total: u128 = 0;
    let mut digit: u128 = 0;
    let mut has_digit = false;
    while i < n
        invariant
            i <= n,
            n == s@.len(),
            total <= 9000 * i,
            digit <= 9,
            !has_digit ==> digit == 0,
            kanji_from(
                s@,
                i as int,
                total as int,
                if has_digit {
                    Some(digit as int)
                } else {
                    None
                },
            ) == kanji_from(s@, 0, 0, None),
        decreases n - i,
    {
        let c = s[i];
        if let Some(d) = kanji_digit_of(c) {
            digit = d as u128;
            has_digit = true;
        } else if let Some(u) = kanji_unit_of(c) {
            let times: u128 = if has_digit {
                digit
            } else {
                1
            };
            assert(times * u <= 9000) by (nonlinear_arith)
                requires
                    times <= 9,
                    u <= 1000,
            ;
            total = total + times * u as u128;
            digit = 0;
            has_digit = false;
        } else {
            return None;
        }
        i += 1;
    }
    Some(Number { billionths: (total + digit) * ONE })
}

/// Every character is a numeral.
pub open spec fn all_numerals(s: Seq<char>) -> bool {
    forall|i: int| 0 <= i < s.len() ==> spec_is_numeral(#[trigger] s[i])
}

/// A run of numerals as a number, in billionths, whether written with digits or with kanji. A run
/// that mixes the two, or that is not a number at all, is none.
pub open spec fn numerals(s: Seq<char>) -> Option<int> {
    if all_numerals(s) {
        digits_from(s, 0, 0, ONE as int, false, false)
    } else {
        match kanji_from(s, 0, 0, None) {
            Some(k) => Some(k * ONE),
            None => None,
        }
    }
}

/// What a reading says, in billionths.
pub open spec fn said(r: Option<Number>) -> Option<int> {
    match r {
        Some(n) => Some(n.billionths as int),
        None => None,
    }
}

/// A run of numerals as a number.
pub fn read_numerals(s: &[char]) -> (r: Option<Number>)
    ensures
        said(r) == numerals(s@),
{
    let n = s.len();
    let mut i: usize = 0;
    while i < n && is_numeral(s[i])
        invariant
            i <= n,
            n == s@.len(),
            forall|k: int| 0 <= k < i ==> spec_is_numeral(#[trigger] s@[k]),
        decreases n - i,
    {
        i += 1;
    }
    if i == n {
        read_digits(s)
    } else {
        assert(!spec_is_numeral(s@[i as int]));
        read_kanji(s)
    }
}

/// The counters that volumes are numbered with, in both the Japanese and the Chinese spelling. 章
/// and 話 are not among them: they count what a volume contains.
pub open spec fn spec_is_counter(c: char) -> bool {
    c == '巻' || c == '卷' || c == '部' || c == '冊' || c == '册' || c == '集'
}

fn is_counter(c: char) -> (r: bool)
    ensures
        r == spec_is_counter(c),
{
    c == '巻' || c == '卷' || c == '部' || c == '冊' || c == '册' || c == '集'
}

/// What a number behind 第 is written with.
pub open spec fn counts(c: char) -> bool {
    spec_is_numeral(c) || kanji_digit(c) is Some || kanji_unit(c) is Some
}

/// Where the run of such characters from `i` on ends.
pub open spec fn run_end(s: Seq<char>, i: int) -> int
    decreases s.len() - i,
{
    if 0 <= i < s.len() && counts(s[i]) {
        run_end(s, i + 1)
    } else {
        i
    }
}

fn run_end_of(s: &[char], from: usize) -> (r: usize)
    requires
        from <= s@.len(),
    ensures
        r == run_end(s@, from as int),
        from <= r <= s@.len(),
{
    let n = s.len();
    let mut i: usize = from;
    while i < n && (is_numeral(s[i]) || kanji_digit_of(s[i]).is_some() || kanji_unit_of(
        s[i],
    ).is_some())
        invariant
            from <= i <= n,
            n == s@.len(),
            run_end(s@, i as int) == run_end(s@, from as int),
        decreases n - i,
    {
        i += 1;
    }
    i
}

/// The number of the first 第…巻 from `i` on.
pub open spec fn counted_from(s: Seq<char>, i: int) -> Option<int>
    decreases s.len() - i,
{
    match text::spec_find_char(s, '第', i) {
        Some(p) if 0 <= i <= p < s.len() => {
            let end = run_end(s, p + 1);
            if p + 1 < end < s.len() && spec_is_counter(s[end]) {
                numerals(s.subrange(p + 1, end))
            } else {
                counted_from(s, p + 1)
            }
        },
        _ => None,
    }
}

/// The number of a 第…巻 in a label.
pub fn counted_number(label: &[char]) -> (r: Option<Number>)
    ensures
        said(r) == counted_from(label@, 0),
{
    let n = label.len();
    let mut i: usize = 0;
    loop
        invariant
            i <= n,
            n == label@.len(),
            counted_from(label@, i as int) == counted_from(label@, 0),
        decreases n - i,
    {
        proof {
            text::lemma_find_char(label@, '第', i as int);
        }
        let p = match find_char(label, '第', i) {
            Some(p) => p,
            None => {
                return None;
            },
        };
        let end = run_end_of(label, p + 1);
        if p + 1 < end && end < n && is_counter(label[end]) {
            return read_numerals(&label[p + 1..end]);
        }
        i = p + 1;
    }
}

/// White space or closing punctuation.
pub open spec fn closes(c: char) -> bool {
    text::is_white(c) || c == ')' || c == '）' || c == ']' || c == '】' || c == '〉' || c == '》' || c
        == '>'
}

/// The end of `s[..j]` without such characters.
pub open spec fn before_closing(s: Seq<char>, j: int) -> int
    decreases j,
{
    if 0 < j <= s.len() && closes(s[j - 1]) {
        before_closing(s, j - 1)
    } else {
        j
    }
}

/// The start of the run of numerals that ends at `j`.
pub open spec fn numeral_start(s: Seq<char>, j: int) -> int
    decreases j,
{
    if 0 < j <= s.len() && spec_is_numeral(s[j - 1]) {
        numeral_start(s, j - 1)
    } else {
        j
    }
}

/// The number that a label ends on, with nothing behind it but closing punctuation and at most a
/// counter.
pub open spec fn trailing(s: Seq<char>) -> Option<int> {
    let a = before_closing(s, s.len() as int);
    let b = if a > 0 && spec_is_counter(s[a - 1]) {
        a - 1
    } else {
        a
    };
    let from = numeral_start(s, b);
    if from < b {
        numerals(s.subrange(from, b))
    } else {
        None
    }
}

/// The number that a label ends on.
pub fn trailing_number(s: &[char]) -> (r: Option<Number>)
    ensures
        said(r) == trailing(s@),
{
    let n = s.len();
    let mut a: usize = n;
    while a > 0 && (white(s[a - 1]) || s[a - 1] == ')' || s[a - 1] == '）' || s[a - 1] == ']' || s[a
        - 1] == '】' || s[a - 1] == '〉' || s[a - 1] == '》' || s[a - 1] == '>')
        invariant
            a <= n,
            n == s@.len(),
            before_closing(s@, a as int) == before_closing(s@, n as int),
        decreases a,
    {
        a -= 1;
    }
    let b = if a > 0 && is_counter(s[a - 1]) {
        a - 1
    } else {
        a
    };
    let mut from: usize = b;
    while from > 0 && is_numeral(s[from - 1])
        invariant
            from <= b <= n,
            n == s@.len(),
            numeral_start(s@, from as int) == numeral_start(s@, b as int),
        decreases from,
    {
        from -= 1;
    }
    if from < b {
        read_numerals(&s[from..b])
    } else {
        None
    }
}

/// The volume number that a label states: that of a 第…巻, else one that the label ends on. A
/// numeral anywhere else belongs to the title.
pub open spec fn number_in(s: Seq<char>) -> Option<int> {
    match counted_from(s, 0) {
        Some(n) => Some(n),
        None => trailing(s),
    }
}

/// The volume number that a label states.
pub fn volume_number(label: &str) -> (r: Option<Number>)
    ensures
        said(r) == number_in(label@),
{
    let s = chars_of(label);
    match counted_number(&s) {
        Some(n) => Some(n),
        None => trailing_number(&s),
    }
}

/// The part of a number behind its point, `n` in units of a billionth, in `width` digits without
/// the zeros at the end.
pub open spec fn decimals(n: nat, width: nat) -> Seq<char>
    decreases width,
{
    if width == 0 || n == 0 {
        Seq::empty()
    } else {
        let unit = pow10((width - 1) as nat);
        text::decimal(n / unit) + decimals(n % unit, (width - 1) as nat)
    }
}

/// Ten to the power of `k`.
pub open spec fn pow10(k: nat) -> nat
    decreases k,
{
    if k == 0 {
        1
    } else {
        10 * pow10((k - 1) as nat)
    }
}

proof fn lemma_pow10(k: nat)
    ensures
        pow10(k) > 0,
    decreases k,
{
    if k > 0 {
        lemma_pow10((k - 1) as nat);
    }
}

/// A number in decimals: `3`, `5.5`.
pub open spec fn number_text(n: Number) -> Seq<char> {
    let whole = (n.billionths / ONE) as nat;
    let part = (n.billionths % ONE) as nat;
    if part == 0 {
        text::decimal(whole)
    } else {
        text::decimal(whole) + "."@ + decimals(part, 9)
    }
}

/// A number in decimals.
pub fn trim_number(n: Number) -> (r: Vec<char>)
    ensures
        r@ == number_text(n),
{
    let mut out = decimal_of_sum(n.billionths / ONE);
    let mut part: u128 = n.billionths % ONE;
    if part == 0 {
        return out;
    }
    put_str(&mut out, ".");
    let ghost start = out@;
    let ghost all = part as nat;
    let mut width: u32 = 9;
    let mut unit: u128 = ONE;
    proof {
        assert(pow10(9) == ONE) by {
            reveal_with_fuel(pow10, 10);
        }
    }
    while width > 0 && part > 0
        invariant
            width <= 9,
            unit == pow10(width as nat),
            unit <= ONE,
            out@ + decimals(part as nat, width as nat) == start + decimals(all, 9),
        decreases width,
    {
        let ghost before = out@;
        proof {
            lemma_pow10((width - 1) as nat);
        }
        unit = unit / 10;
        let d = decimal_of_sum(part / unit);
        let ghost rest = decimals((part % unit) as nat, (width - 1) as nat);
        put(&mut out, &d);
        assert(before + (d@ + rest) =~= out@ + rest);
        part = part % unit;
        width -= 1;
    }
    assert(out@ + Seq::<char>::empty() =~= out@);
    out
}

} // verus!
