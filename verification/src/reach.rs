//! What a document refers to, and all that it reaches.
use vstd::prelude::*;

use crate::edit;
use crate::package;
use crate::spine_repair;
use crate::structure;
use crate::text;
use crate::toc_shape;
use crate::archive::Part;
use crate::edit::EpubPackage;
use crate::package::member_text;
use crate::spine_repair::not_behind_of;
use crate::structure::{dir_of, resolve_href, strip_fragment};
use crate::text::{
    add_str, add_text, chars_of, copy, find_char, find_str, has_char, has_str, same, string_of,
    strs_have, trim,
};

verus! {

/// A reference as it is written, if it is one into the package: without white space and quotes
/// round it, no fragment alone, and with no scheme.
pub open spec fn cleaned(raw: Seq<char>) -> Seq<Seq<char>> {
    let value = unquoted(text::spec_trim(raw));
    if value.len() == 0 || value[0] == '#' || value.contains(':') {
        Seq::empty()
    } else {
        seq![value]
    }
}

/// Where the quotes that a text starts with end.
pub open spec fn past_quotes(s: Seq<char>, i: int) -> int
    decreases s.len() - i,
{
    if 0 <= i < s.len() && (s[i] == '\'' || s[i] == '"') {
        past_quotes(s, i + 1)
    } else {
        i
    }
}

/// Where the quotes that a text ends with start, no further back than `from`.
pub open spec fn before_quotes(s: Seq<char>, from: int, j: int) -> int
    decreases j - from,
{
    if 0 <= from < j <= s.len() && (s[j - 1] == '\'' || s[j - 1] == '"') {
        before_quotes(s, from, j - 1)
    } else {
        j
    }
}

/// A text without the quotes at either end.
pub open spec fn unquoted(s: Seq<char>) -> Seq<char> {
    let from = past_quotes(s, 0);
    s.subrange(from, before_quotes(s, from, s.len() as int))
}

pub fn unquoted_of(s: &[char]) -> (r: &[char])
    ensures
        r@ == unquoted(s@),
{
    let n = s.len();
    let mut from: usize = 0;
    while from < n && (s[from] == '\'' || s[from] == '"')
        invariant
            from <= n,
            n == s@.len(),
            past_quotes(s@, from as int) == past_quotes(s@, 0),
        decreases n - from,
    {
        from += 1;
    }
    let mut to: usize = n;
    while to > from && (s[to - 1] == '\'' || s[to - 1] == '"')
        invariant
            from <= to <= n,
            n == s@.len(),
            before_quotes(s@, from as int, to as int) == before_quotes(
                s@,
                from as int,
                n as int,
            ),
        decreases to,
    {
        to -= 1;
    }
    &s[from..to]
}

fn add_cleaned(out: &mut Vec<Vec<char>>, raw: &[char])
    ensures
        text::texts(final(out)@) == text::texts(old(out)@) + cleaned(raw@),
{
    let ghost before = text::texts(out@);
    let value = unquoted_of(trim(raw));
    if value.len() == 0 || value[0] == '#' || has_char(value, ':') {
        assert(before + cleaned(raw@) =~= before);
        return;
    }
    let x = copy(value);
    let ghost xv = x@;
    add_text(out, x);
    assert(text::texts(out@) =~= before + seq![xv]);
}

/// The references between each `open` from `i` on and the next `close`.
pub open spec fn scanned(t: Seq<char>, open: Seq<char>, close: char, i: int) -> Seq<Seq<char>>
    decreases t.len() - i,
{
    match text::spec_find(t, open, i) {
        Some(p) if 0 <= i <= p && open.len() > 0 && p + open.len() <= t.len() => {
            let from = p + open.len();
            match text::spec_find_char(t, close, from) {
                Some(end) => cleaned(t.subrange(from, end)) + scanned(t, open, close, from),
                None => Seq::empty(),
            }
        },
        _ => Seq::empty(),
    }
}

fn scan(t: &[char], open: &str, close: char, out: &mut Vec<Vec<char>>)
    requires
        open@.len() > 0,
    ensures
        text::texts(final(out)@) == text::texts(old(out)@) + scanned(t@, open@, close, 0),
{
    let n = t.len();
    let k = chars_of(open).len();
    let ghost start = text::texts(out@);
    let mut i: usize = 0;
    loop
        invariant
            i <= n,
            n == t@.len(),
            k == open@.len(),
            k > 0,
            text::texts(out@) + scanned(t@, open@, close, i as int) == start + scanned(
                t@,
                open@,
                close,
                0,
            ),
        ensures
            text::texts(out@) =~= start + scanned(t@, open@, close, 0),
        decreases n - i,
    {
        proof {
            text::lemma_find(t@, open@, i as int);
        }
        let p = match find_str(t, open, i) {
            Some(p) => p,
            None => {
                break;
            },
        };
        let from = p + k;
        proof {
            text::lemma_find_char(t@, close, from as int);
        }
        let end = match find_char(t, close, from) {
            Some(end) => end,
            None => {
                break;
            },
        };
        let ghost before = text::texts(out@);
        let ghost rest = scanned(t@, open@, close, from as int);
        let ghost piece = cleaned(t@.subrange(from as int, end as int));
        add_cleaned(out, &t[from..end]);
        assert(before + (piece + rest) =~= text::texts(out@) + rest);
        i = from;
    }
}

/// Up to the next `;` from `i` on, or to the end.
pub open spec fn statement_end(t: Seq<char>, i: int) -> int {
    match text::spec_find_char(t, ';', i) {
        Some(end) => end,
        None => t.len() as int,
    }
}

/// The references of each `@import` from `i` on that does not write them with `url(`.
pub open spec fn imported(t: Seq<char>, i: int) -> Seq<Seq<char>>
    decreases t.len() - i,
{
    proof {
        reveal_strlit("@import");
    }
    match text::spec_find(t, "@import"@, i) {
        Some(p) if 0 <= i <= p && p + 7 <= t.len() => {
            let line = t.subrange(p + 7, statement_end(t, p + 7));
            (if text::spec_contains(line, "url("@) {
                Seq::empty()
            } else {
                cleaned(line)
            }) + imported(t, p + 7)
        },
        _ => Seq::empty(),
    }
}

fn scan_imports(t: &[char], out: &mut Vec<Vec<char>>)
    ensures
        text::texts(final(out)@) == text::texts(old(out)@) + imported(t@, 0),
{
    let n = t.len();
    let ghost start = text::texts(out@);
    proof {
        reveal_strlit("@import");
    }
    let mut i: usize = 0;
    loop
        invariant
            i <= n,
            n == t@.len(),
            "@import"@.len() == 7,
            text::texts(out@) + imported(t@, i as int) == start + imported(t@, 0),
        ensures
            text::texts(out@) =~= start + imported(t@, 0),
        decreases n - i,
    {
        proof {
            text::lemma_find(t@, "@import"@, i as int);
        }
        let p = match find_str(t, "@import", i) {
            Some(p) => p,
            None => {
                break;
            },
        };
        let from = p + 7;
        proof {
            text::lemma_find_char(t@, ';', from as int);
        }
        let end = match find_char(t, ';', from) {
            Some(end) => end,
            None => n,
        };
        let line = &t[from..end];
        let ghost before = text::texts(out@);
        let ghost rest = imported(t@, from as int);
        let named = has_str(line, "url(");
        if named {
            assert(before + (Seq::<Seq<char>>::empty() + rest) =~= text::texts(out@) + rest);
        } else {
            let ghost piece = cleaned(line@);
            add_cleaned(out, line);
            assert(before + (piece + rest) =~= text::texts(out@) + rest);
        }
        i = from;
    }
}

/// Every reference into the package that a document or a stylesheet makes: `src` and `href`
/// attributes, `url(…)` and `@import`.
pub open spec fn refs(t: Seq<char>) -> Seq<Seq<char>> {
    scanned(t, "src=\""@, '"', 0) + scanned(t, "href=\""@, '"', 0) + scanned(t, "url("@, ')', 0)
        + imported(t, 0)
}

/// Every reference into the package that a document or a stylesheet makes.
pub fn references(text: &str) -> (r: Vec<Vec<char>>)
    ensures
        text::texts(r@) == refs(text@),
{
    let t = chars_of(text);
    let mut out: Vec<Vec<char>> = Vec::new();
    assert(text::texts(out@) =~= Seq::empty());
    proof {
        reveal_strlit("src=\"");
        reveal_strlit("href=\"");
        reveal_strlit("url(");
    }
    scan(&t, "src=\"", '"', &mut out);
    scan(&t, "href=\"", '"', &mut out);
    scan(&t, "url(", ')', &mut out);
    scan_imports(&t, &mut out);
    assert(text::texts(out@) =~= refs(text@));
    out
}

// ---------------------------------------------------------------- reaching

/// Where a reference leads from the member `from`.
pub open spec fn led(from: Seq<char>, href: Seq<char>) -> Seq<char> {
    toc_shape::document(structure::spec_resolve_href(structure::spec_dir_of(from), href))
}

/// The documents of a volume, and those of the whole book.
#[verifier::ext_equal]
pub struct Scope {
    pub docs: Seq<Seq<char>>,
    pub spine: Seq<Seq<char>>,
}

/// The documents `docs` of a book whose spine is `spine`.
pub open spec fn scope(docs: Seq<String>, spine: Seq<String>) -> Scope {
    Scope { docs: text::strs(docs), spine: text::strs(spine) }
}

/// The path is a member that is none of the documents. A document of another volume is a link, and
/// no resource.
pub open spec fn is_other_member(p: Seq<Part>, docs: Scope, x: Seq<char>) -> bool {
    x.len() > 0 && !docs.docs.contains(x) && !docs.spine.contains(x) && edit::member_at(
        p,
        x,
        0,
    ) is Some
}

/// The members that the member `from` refers to by its first `n` references, the documents left
/// out: which documents there are is not for the markup to say.
pub open spec fn targets_to(
    p: Seq<Part>,
    docs: Scope,
    from: Seq<char>,
    hrefs: Seq<Seq<char>>,
    n: int,
) -> Seq<Seq<char>>
    decreases n,
{
    if n <= 0 {
        Seq::empty()
    } else {
        let before = targets_to(p, docs, from, hrefs, n - 1);
        let x = led(from, hrefs[n - 1]);
        if is_other_member(p, docs, x) {
            before.push(x)
        } else {
            before
        }
    }
}

/// The members that a member refers to, the documents left out.
pub open spec fn targets(p: Seq<Part>, docs: Scope, from: Seq<char>) -> Seq<Seq<char>> {
    match package::spec_text(p, from) {
        Some(t) => targets_to(p, docs, from, refs(t), refs(t).len() as int),
        None => Seq::empty(),
    }
}

/// The path is a document, or reached from one by at most `n` references.
pub open spec fn reached(p: Seq<Part>, docs: Scope, n: nat, x: Seq<char>) -> bool
    decreases n,
{
    if n == 0 {
        docs.docs.contains(x)
    } else {
        reached(p, docs, (n - 1) as nat, x) || exists|y: Seq<char>|
            reached(p, docs, (n - 1) as nat, y) && #[trigger] targets(p, docs, y).contains(x)
    }
}

/// The path is a resource of the documents: none of them, and reached from one.
pub open spec fn is_resource(p: Seq<Part>, docs: Scope, x: Seq<char>) -> bool {
    !docs.docs.contains(x) && exists|n: nat| #[trigger] reached(p, docs, n, x)
}

/// `v`, in order, with `x` behind those that are not behind it.
pub open spec fn with_name(v: Seq<Seq<char>>, x: Seq<char>, i: int) -> Seq<Seq<char>>
    decreases v.len() - i,
{
    if i < 0 || i >= v.len() {
        v.push(x)
    } else if spine_repair::not_behind(v[i], x, 0) {
        with_name(v, x, i + 1)
    } else {
        v.subrange(0, i).push(x) + v.subrange(i, v.len() as int)
    }
}

/// The resources of the documents among the first `n` members, in order of path.
pub open spec fn resources_to(p: Seq<Part>, docs: Scope, n: int) -> Seq<Seq<char>>
    decreases n,
{
    if n <= 0 {
        Seq::empty()
    } else {
        let before = resources_to(p, docs, n - 1);
        let x = p[n - 1].name;
        if edit::member_at(p, x, 0) == Some(n - 1) && is_resource(p, docs, x) {
            with_name(before, x, 0)
        } else {
            before
        }
    }
}

/// Every resource that the documents reach, in order of path.
pub open spec fn resources(p: Seq<Part>, docs: Scope) -> Seq<Seq<char>> {
    resources_to(p, docs, p.len() as int)
}

fn member_index(pkg: &EpubPackage, name: &[char]) -> (r: Option<usize>)
    ensures
        text::pos(r) == edit::member_at(pkg@, name@, 0),
        r matches Some(i) ==> i < pkg@.len(),
{
    let n = pkg.entries.len();
    let mut i: usize = 0;
    assert(pkg@.len() == n);
    while i < n
        invariant
            i <= n,
            n == pkg.entries@.len(),
            n == pkg@.len(),
            edit::member_at(pkg@, name@, i as int) == edit::member_at(pkg@, name@, 0),
        decreases n - i,
    {
        assert(pkg@[i as int] == pkg.entries@[i as int]@);
        if same(&chars_of(&pkg.entries[i].name), name) {
            return Some(i);
        }
        i += 1;
    }
    None
}

fn targets_of(pkg: &EpubPackage, docs: &Vec<String>, spine: &Vec<String>, from: &str) -> (r: Vec<Vec<char>>)
    ensures
        text::texts(r@) == targets(pkg@, scope(docs@, spine@), from@),
{
    let mut out: Vec<Vec<char>> = Vec::new();
    assert(text::texts(out@) =~= Seq::empty());
    let t = match member_text(pkg, from) {
        Some(t) => t,
        None => {
            return out;
        },
    };
    let hrefs = references(&t);
    let ghost all = text::texts(hrefs@);
    let n = hrefs.len();
    assert(all.len() == n);
    let dir = dir_of(from);
    let mut i: usize = 0;
    while i < n
        invariant
            i <= n,
            n == hrefs@.len(),
            all == text::texts(hrefs@),
            dir@ == structure::spec_dir_of(from@),
            text::texts(out@) == targets_to(pkg@, scope(docs@, spine@), from@, all, i as int),
        decreases n - i,
    {
        assert(all[i as int] == hrefs@[i as int]@);
        let abs = resolve_href(&dir, &string_of(&hrefs[i]));
        let x = chars_of(&strip_fragment(&abs));
        if x.len() > 0 && !strs_have(docs, &x) && !strs_have(spine, &x) && member_index(pkg, &x).is_some() {
            let ghost before = text::texts(out@);
            let ghost xv = x@;
            add_text(&mut out, x);
            assert(text::texts(out@) =~= before.push(xv));
        }
        i += 1;
    }
    out
}

/// The member is marked.
pub open spec fn marked(p: Seq<Part>, m: Seq<bool>, x: Seq<char>) -> bool {
    edit::member_at(p, x, 0) matches Some(i) && 0 <= i < m.len() && m[i]
}

/// How many of the first `n` are not marked.
pub open spec fn left_to(m: Seq<bool>, n: int) -> nat
    decreases n,
{
    if n <= 0 {
        0
    } else {
        left_to(m, n - 1) + if m[n - 1] {
            0nat
        } else {
            1
        }
    }
}

proof fn lemma_left(m: Seq<bool>, i: int, n: int)
    requires
        0 <= i < m.len(),
        !m[i],
        0 <= n <= m.len(),
    ensures
        left_to(m.update(i, true), n) == left_to(m, n) - if i < n {
            1int
        } else {
            0
        },
    decreases n,
{
    if n > 0 {
        lemma_left(m, i, n - 1);
    }
}

/// All that `x` refers to is marked.
pub open spec fn targets_marked(p: Seq<Part>, docs: Scope, m: Seq<bool>, x: Seq<char>) -> bool {
    forall|k: int|
        0 <= k < targets(p, docs, x).len() ==> marked(p, m, #[trigger] targets(p, docs, x)[k])
}

/// Every mark is one of a resource, and stands at the first member of its name.
pub open spec fn marks_sound(p: Seq<Part>, docs: Scope, m: Seq<bool>) -> bool {
    forall|i: int|
        0 <= i < m.len() && #[trigger] m[i] ==> edit::member_at(p, p[i].name, 0) == Some(i)
            && is_resource(p, docs, p[i].name)
}

/// Where `y` is a document or a marked member, and not `x`, it is in the queue, or all that it
/// refers to is marked.
pub open spec fn followed(
    p: Seq<Part>,
    docs: Scope,
    m: Seq<bool>,
    queue: Seq<Seq<char>>,
    x: Option<Seq<char>>,
    y: Seq<char>,
) -> bool {
    (docs.docs.contains(y) || marked(p, m, y)) && x != Some(y) ==> queue.contains(y) || targets_marked(
        p,
        docs,
        m,
        y,
    )
}

/// Every document and every marked member but `x` is in the queue, or all that it refers to is
/// marked.
pub open spec fn all_followed(
    p: Seq<Part>,
    docs: Scope,
    m: Seq<bool>,
    queue: Seq<Seq<char>>,
    x: Option<Seq<char>>,
) -> bool {
    forall|y: Seq<char>| #[trigger] followed(p, docs, m, queue, x, y)
}

proof fn lemma_target(p: Seq<Part>, docs: Scope, from: Seq<char>, hrefs: Seq<Seq<char>>, n: int)
    ensures
        forall|k: int|
            0 <= k < targets_to(p, docs, from, hrefs, n).len() ==> is_other_member(
                p,
                docs,
                #[trigger] targets_to(p, docs, from, hrefs, n)[k],
            ),
    decreases n,
{
    if n > 0 {
        lemma_target(p, docs, from, hrefs, n - 1);
        let before = targets_to(p, docs, from, hrefs, n - 1);
        let all = targets_to(p, docs, from, hrefs, n);
        assert forall|k: int| 0 <= k < all.len() implies is_other_member(
            p,
            docs,
            #[trigger] all[k],
        ) by {
            if k < before.len() {
                assert(all[k] == before[k]);
            }
        }
    }
}

proof fn lemma_targets(p: Seq<Part>, docs: Scope, from: Seq<char>)
    ensures
        forall|k: int|
            0 <= k < targets(p, docs, from).len() ==> is_other_member(
                p,
                docs,
                #[trigger] targets(p, docs, from)[k],
            ),
{
    if let Some(t) = package::spec_text(p, from) {
        lemma_target(p, docs, from, refs(t), refs(t).len() as int);
    }
}

proof fn lemma_member(p: Seq<Part>, x: Seq<char>, i: int)
    ensures
        edit::member_at(p, x, i) matches Some(k) ==> i <= k < p.len() && p[k].name == x,
    decreases p.len() - i,
{
    if 0 <= i < p.len() {
        lemma_member(p, x, i + 1);
    }
}

proof fn lemma_step_reached(p: Seq<Part>, docs: Scope, y: Seq<char>, k: int)
    requires
        docs.docs.contains(y) || is_resource(p, docs, y),
        0 <= k < targets(p, docs, y).len(),
    ensures
        is_resource(p, docs, targets(p, docs, y)[k]),
{
    lemma_targets(p, docs, y);
    let x = targets(p, docs, y)[k];
    let n: nat = if docs.docs.contains(y) {
        assert(reached(p, docs, 0, y));
        0
    } else {
        choose|n: nat| #[trigger] reached(p, docs, n, y)
    };
    assert(targets(p, docs, y).contains(x));
    assert(reached(p, docs, n + 1, x));
}

/// Where nothing is left to follow, every member that is reached is marked.
proof fn lemma_all_marked(p: Seq<Part>, docs: Scope, m: Seq<bool>, n: nat, x: Seq<char>)
    requires
        all_followed(p, docs, m, Seq::empty(), None),
        reached(p, docs, n, x),
    ensures
        docs.docs.contains(x) || marked(p, m, x),
    decreases n,
{
    if n > 0 {
        if reached(p, docs, (n - 1) as nat, x) {
            lemma_all_marked(p, docs, m, (n - 1) as nat, x);
        } else {
            let y = choose|y: Seq<char>|
                reached(p, docs, (n - 1) as nat, y) && #[trigger] targets(p, docs, y).contains(x);
            lemma_all_marked(p, docs, m, (n - 1) as nat, y);
            assert(followed(p, docs, m, Seq::empty(), None, y));
            let k = choose|k: int| 0 <= k < targets(p, docs, y).len() && targets(p, docs, y)[k] == x;
            assert(marked(p, m, targets(p, docs, y)[k]));
        }
    }
}

/// Mark what the member `from` refers to, and queue what was not marked before.
fn follow(
    pkg: &EpubPackage,
    docs: &Vec<String>,
    spine: &Vec<String>,
    from: &str,
    m: &mut Vec<bool>,
    queue: &mut Vec<String>,
)
    requires
        old(m)@.len() == pkg@.len(),
        scope(docs@, spine@).docs.contains(from@) || is_resource(pkg@, scope(docs@, spine@), from@),
        marks_sound(pkg@, scope(docs@, spine@), old(m)@),
        all_followed(pkg@, scope(docs@, spine@), old(m)@, text::strs(old(queue)@), Some(from@)),
        forall|k: int|
            0 <= k < old(queue)@.len() ==> scope(docs@, spine@).docs.contains(#[trigger] text::strs(old(queue)@)[k])
                || is_resource(pkg@, scope(docs@, spine@), text::strs(old(queue)@)[k]),
    ensures
        final(m)@.len() == pkg@.len(),
        marks_sound(pkg@, scope(docs@, spine@), final(m)@),
        all_followed(pkg@, scope(docs@, spine@), final(m)@, text::strs(final(queue)@), None),
        forall|k: int|
            0 <= k < final(queue)@.len() ==> scope(docs@, spine@).docs.contains(
                #[trigger] text::strs(final(queue)@)[k],
            ) || is_resource(pkg@, scope(docs@, spine@), text::strs(final(queue)@)[k]),
        left_to(final(m)@, pkg@.len() as int) < left_to(old(m)@, pkg@.len() as int) || (
        final(m)@ == old(m)@ && final(queue)@ == old(queue)@),
        left_to(final(m)@, pkg@.len() as int) <= left_to(old(m)@, pkg@.len() as int),
{
    let ghost p = pkg@;
    let ghost ds = scope(docs@, spine@);
    let found = targets_of(pkg, docs, spine, from);
    let ghost ts = text::texts(found@);
    let n = found.len();
    assert(ts.len() == n);
    proof {
        lemma_targets(p, ds, from@);
    }
    let mut i: usize = 0;
    while i < n
        invariant
            i <= n,
            n == found@.len(),
            p == pkg@,
            ds == scope(docs@, spine@),
            ts == text::texts(found@),
            ts == targets(p, ds, from@),
            ts.len() == n,
            ds.docs.contains(from@) || is_resource(p, ds, from@),
            forall|k: int| 0 <= k < ts.len() ==> is_other_member(p, ds, #[trigger] ts[k]),
            m@.len() == p.len(),
            marks_sound(p, ds, m@),
            all_followed(p, ds, m@, text::strs(queue@), Some(from@)),
            forall|k: int|
                0 <= k < queue@.len() ==> ds.docs.contains(#[trigger] text::strs(queue@)[k]) || is_resource(
                    p,
                    ds,
                    text::strs(queue@)[k],
                ),
            forall|k: int| 0 <= k < i ==> marked(p, m@, #[trigger] ts[k]),
            left_to(m@, p.len() as int) < left_to(old(m)@, p.len() as int) || (m@ == old(m)@
                && queue@ == old(queue)@),
            left_to(m@, p.len() as int) <= left_to(old(m)@, p.len() as int),
        decreases n - i,
    {
        assert(ts[i as int] == found@[i as int]@);
        assert(is_other_member(p, ds, ts[i as int]));
        if let Some(k) = member_index(pkg, &found[i]) {
            if !m[k] {
                let ghost m0 = m@;
                let ghost q0 = text::strs(queue@);
                let ghost x = ts[i as int];
                proof {
                    lemma_left(m0, k as int, p.len() as int);
                    lemma_step_reached(p, ds, from@, i as int);
                    lemma_member(p, x, 0);
                }
                m.set(k, true);
                add_str(queue, string_of(&found[i]));
                let ghost q1 = text::strs(queue@);
                assert(q1 =~= q0.push(x));
                assert(marks_sound(p, ds, m@)) by {
                    assert forall|j: int| 0 <= j < m@.len() && #[trigger] m@[j] implies edit::member_at(
                        p,
                        p[j].name,
                        0,
                    ) == Some(j) && is_resource(p, ds, p[j].name) by {
                        if j != k {
                            assert(m0[j]);
                        }
                    }
                }
                assert forall|y: Seq<char>| marked(p, m0, y) implies #[trigger] marked(p, m@, y) by {}
                assert forall|y: Seq<char>| #[trigger]
                    followed(p, ds, m@, q1, Some(from@), y) by {
                    assert(followed(p, ds, m0, q0, Some(from@), y));
                    if (ds.docs.contains(y) || marked(p, m@, y)) && from@ != y {
                        if ds.docs.contains(y) || marked(p, m0, y) {
                            if q0.contains(y) {
                                let j = choose|j: int| 0 <= j < q0.len() && q0[j] == y;
                                assert(q1[j] == y);
                            } else {
                                assert(targets_marked(p, ds, m0, y));
                                assert forall|j: int|
                                    0 <= j < targets(p, ds, y).len() implies marked(
                                    p,
                                    m@,
                                    #[trigger] targets(p, ds, y)[j],
                                ) by {
                                    assert(marked(p, m0, targets(p, ds, y)[j]));
                                }
                            }
                        } else {
                            lemma_member(p, y, 0);
                            assert(y == x);
                            assert(q1[q0.len() as int] == x);
                        }
                    }
                }
                assert forall|j: int| 0 <= j < queue@.len() implies ds.docs.contains(
                    #[trigger] text::strs(queue@)[j],
                ) || is_resource(p, ds, text::strs(queue@)[j]) by {
                    if j < q0.len() {
                        assert(text::strs(queue@)[j] == q0[j]);
                    }
                }
            }
        }
        i += 1;
    }
    assert(targets_marked(p, ds, m@, from@));
    assert forall|y: Seq<char>| #[trigger] followed(p, ds, m@, text::strs(queue@), None, y) by {
        assert(followed(p, ds, m@, text::strs(queue@), Some(from@), y));
    }
}

/// Of each member, whether it is a resource of the documents.
fn resource_marks(pkg: &EpubPackage, docs: &Vec<String>, spine: &Vec<String>) -> (r: Vec<bool>)
    ensures
        r@.len() == pkg@.len(),
        forall|i: int|
            0 <= i < r@.len() ==> #[trigger] r@[i] == (edit::member_at(pkg@, pkg@[i].name, 0)
                == Some(i) && is_resource(pkg@, scope(docs@, spine@), pkg@[i].name)),
{
    let ghost p = pkg@;
    let ghost ds = scope(docs@, spine@);
    let n = pkg.entries.len();
    assert(p.len() == n);
    let mut m: Vec<bool> = Vec::new();
    let mut i: usize = 0;
    while i < n
        invariant
            i <= n,
            m@.len() == i,
            forall|k: int| 0 <= k < i ==> !#[trigger] m@[k],
        decreases n - i,
    {
        m.push(false);
        i += 1;
    }
    let mut queue: Vec<String> = Vec::new();
    let d = docs.len();
    assert(ds.docs.len() == d);
    i = 0;
    while i < d
        invariant
            i <= d,
            d == docs@.len(),
            ds == scope(docs@, spine@),
            ds.docs.len() == d,
            text::strs(queue@) == ds.docs.take(i as int),
        decreases d - i,
    {
        let x = docs[i].clone();
        assert(ds.docs[i as int] == x@);
        add_str(&mut queue, x);
        assert(ds.docs.take(i + 1) =~= ds.docs.take(i as int).push(ds.docs[i as int]));
        i += 1;
    }
    assert(ds.docs.take(d as int) =~= ds.docs);
    assert(text::strs(queue@).len() == queue@.len());
    assert forall|k: int| 0 <= k < queue@.len() implies ds.docs.contains(#[trigger] text::strs(queue@)[k])
        || is_resource(p, ds, text::strs(queue@)[k]) by {
        assert(ds.docs[k] == text::strs(queue@)[k]);
    }
    assert forall|y: Seq<char>| #[trigger] followed(p, ds, m@, text::strs(queue@), None, y) by {
        if marked(p, m@, y) {
            lemma_member(p, y, 0);
        }
    }
    while queue.len() > 0
        invariant
            p == pkg@,
            ds == scope(docs@, spine@),
            m@.len() == p.len(),
            marks_sound(p, ds, m@),
            all_followed(p, ds, m@, text::strs(queue@), None),
            forall|k: int|
                0 <= k < queue@.len() ==> ds.docs.contains(#[trigger] text::strs(queue@)[k]) || is_resource(
                    p,
                    ds,
                    text::strs(queue@)[k],
                ),
        decreases left_to(m@, p.len() as int), queue@.len(),
    {
        let ghost q0 = text::strs(queue@);
        let k = queue.len();
        assert(q0[k - 1] == queue@[k - 1]@);
        if let Some(from) = queue.pop() {
            let ghost q1 = text::strs(queue@);
            assert(q1 =~= q0.take(k - 1));
            assert forall|y: Seq<char>| #[trigger] followed(p, ds, m@, q1, Some(from@), y) by {
                assert(followed(p, ds, m@, q0, None, y));
                if q0.contains(y) && y != from@ {
                    let j = choose|j: int| 0 <= j < q0.len() && q0[j] == y;
                    assert(j != k - 1);
                    assert(q1[j] == y);
                }
            }
            assert forall|j: int| 0 <= j < queue@.len() implies ds.docs.contains(
                #[trigger] text::strs(queue@)[j],
            ) || is_resource(p, ds, text::strs(queue@)[j]) by {
                assert(q1[j] == q0[j]);
            }
            follow(pkg, docs, spine, &from, &mut m, &mut queue);
        }
    }
    assert(text::strs(queue@) =~= Seq::empty());
    assert forall|j: int| 0 <= j < m@.len() implies #[trigger] m@[j] == (edit::member_at(
        p,
        p[j].name,
        0,
    ) == Some(j) && is_resource(p, ds, p[j].name)) by {
        if edit::member_at(p, p[j].name, 0) == Some(j) && is_resource(p, ds, p[j].name) {
            let n = choose|n: nat| #[trigger] reached(p, ds, n, p[j].name);
            lemma_all_marked(p, ds, m@, n, p[j].name);
        }
    }
    m
}

pub fn add_name(v: &mut Vec<String>, x: &String)
    ensures
        text::strs(final(v)@) == with_name(text::strs(old(v)@), x@, 0),
{
    let ghost all = text::strs(v@);
    let n = v.len();
    let name = chars_of(x);
    let mut i: usize = 0;
    while i < n && not_behind_of(&chars_of(&v[i]), &name)
        invariant
            i <= n == v@.len() == all.len(),
            v@ == old(v)@,
            all == text::strs(v@),
            name@ == x@,
            with_name(all, x@, 0) == with_name(all, x@, i as int),
        decreases n - i,
    {
        i += 1;
    }
    v.insert(i, x.clone());
    assert(text::strs(v@) =~= with_name(all, x@, i as int));
}

/// Every resource that the documents reach, in order of path: images, stylesheets, and whatever
/// those reach in turn.
pub fn reachable_resources(pkg: &EpubPackage, docs: &Vec<String>, spine: &Vec<String>) -> (r: Vec<String>)
    ensures
        text::strs(r@) == resources(pkg@, scope(docs@, spine@)),
{
    let m = resource_marks(pkg, docs, spine);
    let ghost p = pkg@;
    let ghost ds = scope(docs@, spine@);
    let n = pkg.entries.len();
    assert(p.len() == n);
    let mut out: Vec<String> = Vec::new();
    assert(text::strs(out@) =~= Seq::empty());
    let mut i: usize = 0;
    while i < n
        invariant
            i <= n,
            n == pkg.entries@.len(),
            p == pkg@,
            p.len() == n,
            ds == scope(docs@, spine@),
            m@.len() == n,
            forall|k: int|
                0 <= k < m@.len() ==> #[trigger] m@[k] == (edit::member_at(p, p[k].name, 0)
                    == Some(k) && is_resource(p, ds, p[k].name)),
            text::strs(out@) == resources_to(p, ds, i as int),
        decreases n - i,
    {
        assert(p[i as int] == pkg.entries@[i as int]@);
        if m[i] {
            add_name(&mut out, &pkg.entries[i].name);
        }
        i += 1;
    }
    out
}

pub proof fn lemma_with_name(v: Seq<Seq<char>>, x: Seq<char>, i: int, y: Seq<char>)
    requires
        0 <= i <= v.len(),
    ensures
        with_name(v, x, i).contains(y) == (v.contains(y) || y == x),
    decreases v.len() - i,
{
    if i < v.len() && spine_repair::not_behind(v[i], x, 0) {
        lemma_with_name(v, x, i + 1, y);
    } else {
        let k = if i < v.len() {
            i
        } else {
            v.len() as int
        };
        let r = v.subrange(0, k).push(x) + v.subrange(k, v.len() as int);
        assert(with_name(v, x, i) =~= r);
        assert(r[k] == x);
        if v.contains(y) {
            let j = choose|j: int| 0 <= j < v.len() && v[j] == y;
            if j < k {
                assert(r[j] == y);
            } else {
                assert(r[j + 1] == y);
            }
        }
        if r.contains(y) {
            let j = choose|j: int| 0 <= j < r.len() && r[j] == y;
            if j < k {
                assert(v[j] == y);
            } else if j > k {
                assert(v[j - 1] == y);
            }
        }
    }
}

proof fn lemma_resources_to(p: Seq<Part>, docs: Scope, n: int, x: Seq<char>)
    requires
        0 <= n <= p.len(),
    ensures
        resources_to(p, docs, n).contains(x) == (is_resource(p, docs, x) && (edit::member_at(
            p,
            x,
            0,
        ) matches Some(k) && k < n)),
    decreases n,
{
    lemma_member(p, x, 0);
    if n > 0 {
        lemma_resources_to(p, docs, n - 1, x);
        lemma_with_name(resources_to(p, docs, n - 1), p[n - 1].name, 0, x);
    }
}

/// The resources of documents are the members that the documents reach, the documents of the book
/// left out: all of those, and no others.
pub proof fn resources_are_what_is_reached(p: Seq<Part>, docs: Scope, x: Seq<char>)
    ensures
        resources(p, docs).contains(x) == (is_resource(p, docs, x) && edit::member_at(p, x, 0) is Some),
{
    lemma_resources_to(p, docs, p.len() as int, x);
    lemma_member(p, x, 0);
}

/// No document of the book is a resource: which documents a volume holds is not for the markup to
/// say.
pub proof fn no_document_is_a_resource(p: Seq<Part>, docs: Scope, x: Seq<char>)
    requires
        docs.spine.contains(x),
    ensures
        !resources(p, docs).contains(x),
{
    resources_are_what_is_reached(p, docs, x);
    if is_resource(p, docs, x) {
        let n = choose|n: nat| #[trigger] reached(p, docs, n, x);
        lemma_reached_apart(p, docs, n, x);
    }
}

proof fn lemma_reached_apart(p: Seq<Part>, docs: Scope, n: nat, x: Seq<char>)
    requires
        reached(p, docs, n, x),
    ensures
        docs.docs.contains(x) || !docs.spine.contains(x),
    decreases n,
{
    if n > 0 {
        if reached(p, docs, (n - 1) as nat, x) {
            lemma_reached_apart(p, docs, (n - 1) as nat, x);
        } else {
            let y = choose|y: Seq<char>|
                reached(p, docs, (n - 1) as nat, y) && #[trigger] targets(p, docs, y).contains(x);
            lemma_targets(p, docs, y);
            let k = choose|k: int| 0 <= k < targets(p, docs, y).len() && targets(p, docs, y)[k] == x;
            assert(is_other_member(p, docs, targets(p, docs, y)[k]));
        }
    }
}

} // verus!
