//! Names that are not taken yet.
use vstd::prelude::*;

use crate::text;
use crate::text::{chars_of, decimal_of, join2, put, strs_have};

verus! {

/// The `k`-th name to try: the plain one, then the plain one with a number.
pub open spec fn candidate(pre: Seq<char>, sep: Seq<char>, suf: Seq<char>, k: int) -> Seq<char> {
    if k <= 1 {
        pre + suf
    } else {
        pre + sep + text::decimal(k as nat) + suf
    }
}

/// The first name from the `k`-th on that is not taken, `fuel` of them tried.
pub open spec fn free_from(
    taken: Seq<Seq<char>>,
    pre: Seq<char>,
    sep: Seq<char>,
    suf: Seq<char>,
    k: int,
    fuel: int,
) -> Seq<char>
    decreases fuel,
{
    if fuel <= 0 || !taken.contains(candidate(pre, sep, suf, k)) {
        candidate(pre, sep, suf, k)
    } else {
        free_from(taken, pre, sep, suf, k + 1, fuel - 1)
    }
}

/// The first name that is not taken: the plain one, else with the least number
/// from two on.
pub open spec fn spec_fresh(
    taken: Seq<Seq<char>>,
    pre: Seq<char>,
    sep: Seq<char>,
    suf: Seq<char>,
) -> Seq<char> {
    free_from(taken, pre, sep, suf, 1, taken.len() as int)
}

/// The first numbered name that is not taken, from two on.
pub open spec fn spec_numbered(
    taken: Seq<Seq<char>>,
    pre: Seq<char>,
    sep: Seq<char>,
    suf: Seq<char>,
) -> Seq<char> {
    free_from(taken, pre, sep, suf, 2, taken.len() as int)
}

proof fn lemma_decimal_nonempty(n: nat)
    ensures
        text::decimal(n).len() > 0,
    decreases n,
{
    if n >= 10 {
        lemma_decimal_nonempty(n / 10);
    }
}

proof fn lemma_digit(a: nat, b: nat)
    requires
        a < 10,
        b < 10,
        (('0' as u32 + a) as u32) as char == (('0' as u32 + b) as u32) as char,
    ensures
        a == b,
{
}

/// Two numbers with the same decimal digits are one.
pub proof fn decimals_tell_numbers_apart(a: nat, b: nat)
    requires
        text::decimal(a) == text::decimal(b),
    ensures
        a == b,
    decreases a,
{
    let x = text::decimal(a);
    let y = text::decimal(b);
    assert(x.last() == (('0' as u32 + (a % 10)) as u32) as char);
    assert(y.last() == (('0' as u32 + (b % 10)) as u32) as char);
    lemma_digit(a % 10, b % 10);
    if a >= 10 {
        lemma_decimal_nonempty(a / 10);
        assert(b >= 10);
        assert(x.drop_last() =~= text::decimal(a / 10));
        assert(y.drop_last() =~= text::decimal(b / 10));
        decimals_tell_numbers_apart(a / 10, b / 10);
    } else if b >= 10 {
        lemma_decimal_nonempty(b / 10);
    }
}

proof fn lemma_candidates_differ(pre: Seq<char>, sep: Seq<char>, suf: Seq<char>, i: int, j: int)
    requires
        1 <= i < j,
    ensures
        candidate(pre, sep, suf, i) != candidate(pre, sep, suf, j),
{
    let x = candidate(pre, sep, suf, i);
    let y = candidate(pre, sep, suf, j);
    lemma_decimal_nonempty(j as nat);
    if x == y {
        if i == 1 {
            assert(x.len() < y.len());
        } else {
            let a = text::decimal(i as nat);
            let b = text::decimal(j as nat);
            assert(x.len() == pre.len() + sep.len() + a.len() + suf.len());
            assert(y.len() == pre.len() + sep.len() + b.len() + suf.len());
            assert(a.len() == b.len());
            let p = (pre + sep).len() as int;
            assert(x.subrange(p, p + a.len()) =~= a);
            assert(y.subrange(p, p + b.len()) =~= b);
            decimals_tell_numbers_apart(i as nat, j as nat);
        }
    }
}

/// The `n` names to try from the `k`-th on.
spec fn candidates(pre: Seq<char>, sep: Seq<char>, suf: Seq<char>, k: int, n: int) -> Seq<
    Seq<char>,
> {
    Seq::new(n as nat, |i: int| candidate(pre, sep, suf, i + k))
}

proof fn lemma_free_from(
    taken: Seq<Seq<char>>,
    pre: Seq<char>,
    sep: Seq<char>,
    suf: Seq<char>,
    k: int,
    fuel: int,
) -> (m: int)
    requires
        1 <= k,
        0 <= fuel,
    ensures
        k <= m <= k + fuel,
        free_from(taken, pre, sep, suf, k, fuel) == candidate(pre, sep, suf, m),
        forall|j: int| k <= j < m ==> taken.contains(#[trigger] candidate(pre, sep, suf, j)),
        m < k + fuel ==> !taken.contains(candidate(pre, sep, suf, m)),
    decreases fuel,
{
    if fuel <= 0 || !taken.contains(candidate(pre, sep, suf, k)) {
        k
    } else {
        lemma_free_from(taken, pre, sep, suf, k + 1, fuel - 1)
    }
}

proof fn lemma_found_free(
    taken: Seq<Seq<char>>,
    pre: Seq<char>,
    sep: Seq<char>,
    suf: Seq<char>,
    k: int,
)
    requires
        1 <= k,
    ensures
        !taken.contains(free_from(taken, pre, sep, suf, k, taken.len() as int)),
        exists|m: int|
            k <= m && free_from(taken, pre, sep, suf, k, taken.len() as int)
                == #[trigger] candidate(pre, sep, suf, m) && forall|j: int|
                k <= j < m ==> taken.contains(#[trigger] candidate(pre, sep, suf, j)),
{
    let n = taken.len() as int;
    let m = lemma_free_from(taken, pre, sep, suf, k, n);
    if m == k + n && taken.contains(candidate(pre, sep, suf, m)) {
        let c = candidates(pre, sep, suf, k, n + 1);
        assert(c.no_duplicates()) by {
            assert forall|i: int, j: int| 0 <= i < j < c.len() implies c[i] != c[j] by {
                lemma_candidates_differ(pre, sep, suf, i + k, j + k);
            }
        }
        c.unique_seq_to_set();
        taken.lemma_cardinality_of_set();
        assert(c.to_set().subset_of(taken.to_set())) by {
            assert forall|x: Seq<char>| c.to_set().contains(x) implies taken.to_set().contains(
                x,
            ) by {
                let i = choose|i: int| 0 <= i < c.len() && c[i] == x;
                assert(x == candidate(pre, sep, suf, i + k));
            }
        }
        vstd::set_lib::lemma_len_subset(c.to_set(), taken.to_set());
    }
}

/// A fresh name is not taken, and no name before it in the row is free.
pub proof fn a_fresh_name_is_free(
    taken: Seq<Seq<char>>,
    pre: Seq<char>,
    sep: Seq<char>,
    suf: Seq<char>,
)
    ensures
        !taken.contains(spec_fresh(taken, pre, sep, suf)),
        exists|m: int|
            1 <= m && spec_fresh(taken, pre, sep, suf) == #[trigger] candidate(pre, sep, suf, m)
                && forall|j: int|
                1 <= j < m ==> taken.contains(#[trigger] candidate(pre, sep, suf, j)),
{
    lemma_found_free(taken, pre, sep, suf, 1);
}

/// A numbered name is not taken, and no number before its own would do.
pub proof fn a_numbered_name_is_free(
    taken: Seq<Seq<char>>,
    pre: Seq<char>,
    sep: Seq<char>,
    suf: Seq<char>,
)
    ensures
        !taken.contains(spec_numbered(taken, pre, sep, suf)),
        exists|m: int|
            2 <= m && spec_numbered(taken, pre, sep, suf) == #[trigger] candidate(
                pre,
                sep,
                suf,
                m,
            ) && forall|j: int|
                2 <= j < m ==> taken.contains(#[trigger] candidate(pre, sep, suf, j)),
{
    lemma_found_free(taken, pre, sep, suf, 2);
}

/// The first name that is not taken: the plain one, else with the least number
/// from two on.
pub fn fresh(taken: &Vec<String>, pre: &[char], sep: &str, suf: &[char]) -> (r: Vec<char>)
    ensures
        r@ == spec_fresh(text::strs(taken@), pre@, sep@, suf@),
{
    let ghost ts = text::strs(taken@);
    let n = taken.len();
    let mut k: usize = 0;
    let mut name = join2(pre, suf);
    while k < n
        invariant
            k <= n == taken@.len() == ts.len(),
            ts == text::strs(taken@),
            name@ == candidate(pre@, sep@, suf@, k + 1),
            free_from(ts, pre@, sep@, suf@, k + 1, n - k) == spec_fresh(ts, pre@, sep@, suf@),
        decreases n - k,
    {
        if !strs_have(taken, &name) {
            return name;
        }
        k = k + 1;
        name = join2(pre, &chars_of(sep));
        put(&mut name, &number_after(k));
        put(&mut name, suf);
    }
    name
}

/// The first numbered name that is not taken, from two on.
pub fn numbered(taken: &Vec<String>, pre: &[char], sep: &str, suf: &[char]) -> (r: Vec<char>)
    ensures
        r@ == spec_numbered(text::strs(taken@), pre@, sep@, suf@),
{
    let ghost ts = text::strs(taken@);
    let n = taken.len();
    let mut k: usize = 0;
    loop
        invariant
            k <= n == taken@.len() == ts.len(),
            ts == text::strs(taken@),
            free_from(ts, pre@, sep@, suf@, k + 2, n - k) == spec_numbered(
                ts,
                pre@,
                sep@,
                suf@,
            ),
        decreases n - k,
    {
        let mut name = join2(pre, &chars_of(sep));
        put(&mut name, &number_two_after(k));
        put(&mut name, suf);
        assert(name@ =~= candidate(pre@, sep@, suf@, k + 2));
        if k == n || !strs_have(taken, &name) {
            return name;
        }
        k = k + 1;
    }
}

/// The decimal digits of the number two behind `n`.
fn number_two_after(n: usize) -> (r: Vec<char>)
    ensures
        r@ == text::decimal((n + 2) as nat),
{
    if n < usize::MAX {
        number_after(n + 1)
    } else {
        let tens = n / 10;
        let d: usize = n % 10;
        if d + 2 >= 10 {
            let mut out = number_after(tens);
            assert((n + 2) / 10 == tens + 1 && (n + 2) % 10 == d + 2 - 10);
            out.push((48u8 + (d + 2 - 10) as u8) as char);
            out
        } else {
            let mut out = decimal_of(tens);
            assert((n + 2) / 10 == tens && (n + 2) % 10 == d + 2);
            out.push((48u8 + (d + 2) as u8) as char);
            out
        }
    }
}

/// The decimal digits of the number behind `n`.
fn number_after(n: usize) -> (r: Vec<char>)
    ensures
        r@ == text::decimal((n + 1) as nat),
    decreases n,
{
    let d: u8 = (n % 10) as u8;
    if d == 9 {
        let mut out = if n < 10 {
            decimal_of(1)
        } else {
            number_after(n / 10)
        };
        assert((n + 1) / 10 == n / 10 + 1 && (n + 1) % 10 == 0);
        out.push('0');
        out
    } else {
        assert((n + 1) / 10 == n / 10 && (n + 1) % 10 == d + 1);
        let mut out: Vec<char> = if n < 10 {
            Vec::new()
        } else {
            decimal_of(n / 10)
        };
        out.push((48u8 + d + 1) as char);
        out
    }
}

/// The first name that is not taken among the plain one with 1, with 2 and so
/// on.
pub open spec fn spec_counted(taken: Seq<Seq<char>>, pre: Seq<char>) -> Seq<char> {
    if taken.contains(pre + "1"@) {
        spec_numbered(taken, pre, ""@, ""@)
    } else {
        pre + "1"@
    }
}

/// The first name that is not taken among the plain one with 1, with 2 and so
/// on.
pub fn counted(taken: &Vec<String>, pre: &[char]) -> (r: Vec<char>)
    ensures
        r@ == spec_counted(text::strs(taken@), pre@),
        !text::strs(taken@).contains(r@),
{
    proof {
        a_numbered_name_is_free(text::strs(taken@), pre@, ""@, ""@);
    }
    let first = join2(pre, &chars_of("1"));
    if strs_have(taken, &first) {
        numbered(taken, pre, "", &chars_of(""))
    } else {
        first
    }
}

} // verus!
