//! The source text of a stylesheet: its items where they stand, without a value
//! being interpreted.
use vstd::prelude::*;

use crate::text;
use crate::text::{
    add_text, ascii_alnum, ascii_trim, ascii_white, chars_of, copy, cut, find_char, is, lowered,
    put, put_str, same, string_of,
};

verus! {

/// One item of a stylesheet, from `start` up to `end`.
pub struct Item {
    pub start: usize,
    pub end: usize,
    pub kind: Kind,
}

/// A comment; a statement that ends at `;`; a style rule; an at-rule that holds
/// rules; another at-rule with a block. `inner` is what stands between the
/// braces, `prelude` what stands before them.
pub enum Kind {
    Comment,
    Statement,
    Rule { prelude: (usize, usize), inner: (usize, usize) },
    Group { name: String, prelude: (usize, usize), inner: (usize, usize) },
    Block { name: String, prelude: (usize, usize), inner: (usize, usize) },
}

/// What an `Item` says.
#[verifier::ext_equal]
pub struct CssItem {
    pub start: int,
    pub end: int,
    pub kind: CssKind,
}

/// What a `Kind` says.
#[verifier::ext_equal]
pub enum CssKind {
    Comment,
    Statement,
    Rule { prelude: (int, int), inner: (int, int) },
    Group { name: Seq<char>, prelude: (int, int), inner: (int, int) },
    Block { name: Seq<char>, prelude: (int, int), inner: (int, int) },
}

pub open spec fn ints(p: (usize, usize)) -> (int, int) {
    (p.0 as int, p.1 as int)
}

impl View for Item {
    type V = CssItem;

    open spec fn view(&self) -> CssItem {
        CssItem {
            start: self.start as int,
            end: self.end as int,
            kind: match self.kind {
                Kind::Comment => CssKind::Comment,
                Kind::Statement => CssKind::Statement,
                Kind::Rule { prelude, inner } => CssKind::Rule {
                    prelude: ints(prelude),
                    inner: ints(inner),
                },
                Kind::Group { name, prelude, inner } => CssKind::Group {
                    name: name@,
                    prelude: ints(prelude),
                    inner: ints(inner),
                },
                Kind::Block { name, prelude, inner } => CssKind::Block {
                    name: name@,
                    prelude: ints(prelude),
                    inner: ints(inner),
                },
            },
        }
    }
}

pub open spec fn items(v: Seq<Item>) -> Seq<CssItem> {
    v.map_values(|i: Item| i@)
}

// ---------------------------------------------------------------- units

/// The end of the string whose opening quote `q` stands before `i`, in a text
/// that ends at `b`; a backslash takes the next character with it.
pub open spec fn string_end(t: Seq<char>, q: char, i: int, b: int) -> int
    decreases b - i,
{
    if i >= b {
        b
    } else if t[i] == '\\' {
        if i + 2 <= b {
            string_end(t, q, i + 2, b)
        } else {
            b
        }
    } else if t[i] == q {
        i + 1
    } else {
        string_end(t, q, i + 1, b)
    }
}

/// The end of the comment whose inside starts at `i`.
pub open spec fn comment_end(t: Seq<char>, i: int, b: int) -> int
    decreases b - i,
{
    if i + 2 > b {
        b
    } else if t[i] == '*' && t[i + 1] == '/' {
        i + 2
    } else {
        comment_end(t, i + 1, b)
    }
}

/// A comment starts at `i`.
pub open spec fn comment_at(t: Seq<char>, i: int, b: int) -> bool {
    i + 2 <= b && t[i] == '/' && t[i + 1] == '*'
}

/// The end of what is read as one at `i`: a comment, a string, an escaped
/// character, or a character.
pub open spec fn unit_end(t: Seq<char>, i: int, b: int) -> int {
    if comment_at(t, i, b) {
        comment_end(t, i + 2, b)
    } else if t[i] == '"' || t[i] == '\'' {
        string_end(t, t[i], i + 1, b)
    } else if t[i] == '\\' && i + 2 <= b {
        i + 2
    } else {
        i + 1
    }
}

/// The character at `i` stands for itself: it starts no comment, string or
/// escape.
pub open spec fn bare(t: Seq<char>, i: int, b: int) -> bool {
    !comment_at(t, i, b) && t[i] != '"' && t[i] != '\'' && t[i] != '\\'
}

pub proof fn lemma_string_end(t: Seq<char>, q: char, i: int, b: int)
    requires
        0 <= i <= b <= t.len(),
    ensures
        i <= string_end(t, q, i, b) <= b,
    decreases b - i,
{
    if i >= b {
    } else if t[i] == '\\' {
        if i + 2 <= b {
            lemma_string_end(t, q, i + 2, b);
        }
    } else if t[i] != q {
        lemma_string_end(t, q, i + 1, b);
    }
}

pub proof fn lemma_comment_end(t: Seq<char>, i: int, b: int)
    requires
        0 <= i <= b <= t.len(),
    ensures
        i <= comment_end(t, i, b) <= b,
    decreases b - i,
{
    if i + 2 > b {
    } else if t[i] == '*' && t[i + 1] == '/' {
    } else {
        lemma_comment_end(t, i + 1, b);
    }
}

pub proof fn lemma_unit_end(t: Seq<char>, i: int, b: int)
    requires
        0 <= i < b <= t.len(),
    ensures
        i < unit_end(t, i, b) <= b,
{
    if comment_at(t, i, b) {
        lemma_comment_end(t, i + 2, b);
    }
    lemma_string_end(t, t[i], i + 1, b);
}

fn string_end_of(t: &[char], q: char, from: usize, b: usize) -> (r: usize)
    requires
        from <= b <= t@.len(),
    ensures
        r == string_end(t@, q, from as int, b as int),
        from <= r <= b,
{
    let mut i: usize = from;
    while i < b
        invariant
            from <= i <= b <= t@.len(),
            string_end(t@, q, from as int, b as int) == string_end(t@, q, i as int, b as int),
        decreases b - i,
    {
        if t[i] == '\\' {
            if b - i < 2 {
                return b;
            }
            i = i + 2;
        } else if t[i] == q {
            return i + 1;
        } else {
            i = i + 1;
        }
    }
    b
}

fn comment_end_of(t: &[char], from: usize, b: usize) -> (r: usize)
    requires
        from <= b <= t@.len(),
    ensures
        r == comment_end(t@, from as int, b as int),
        from <= r <= b,
{
    let mut i: usize = from;
    while b - i >= 2
        invariant
            from <= i <= b <= t@.len(),
            comment_end(t@, from as int, b as int) == comment_end(t@, i as int, b as int),
        decreases b - i,
    {
        if t[i] == '*' && t[i + 1] == '/' {
            return i + 2;
        }
        i = i + 1;
    }
    b
}

fn comment_here(t: &[char], i: usize, b: usize) -> (r: bool)
    requires
        i < b <= t@.len(),
    ensures
        r == comment_at(t@, i as int, b as int),
{
    b - i >= 2 && t[i] == '/' && t[i + 1] == '*'
}

fn bare_here(t: &[char], i: usize, b: usize) -> (r: bool)
    requires
        i < b <= t@.len(),
    ensures
        r == bare(t@, i as int, b as int),
{
    !comment_here(t, i, b) && t[i] != '"' && t[i] != '\'' && t[i] != '\\'
}

/// The end of what is read as one at `i`.
fn unit_end_of(t: &[char], i: usize, b: usize) -> (r: usize)
    requires
        i < b <= t@.len(),
    ensures
        r == unit_end(t@, i as int, b as int),
        i < r <= b,
{
    proof {
        lemma_unit_end(t@, i as int, b as int);
    }
    if comment_here(t, i, b) {
        comment_end_of(t, i + 2, b)
    } else if t[i] == '"' || t[i] == '\'' {
        string_end_of(t, t[i], i + 1, b)
    } else if t[i] == '\\' && b - i >= 2 {
        i + 2
    } else {
        i + 1
    }
}

// ---------------------------------------------------------------- items

/// How deep in parentheses and brackets the text stands behind `c`.
pub open spec fn nested(c: char, depth: int) -> int {
    if c == '(' || c == '[' {
        depth + 1
    } else if (c == ')' || c == ']') && depth > 0 {
        depth - 1
    } else {
        depth
    }
}

/// The first `{`, `}` or `;` from `i` on outside parentheses and brackets, or
/// the end.
pub open spec fn stop_from(t: Seq<char>, i: int, b: int, depth: int) -> int
    decreases b - i,
{
    if i < 0 || i >= b || b > t.len() {
        b
    } else {
        proof {
            lemma_unit_end(t, i, b);
        }
        if !bare(t, i, b) {
            stop_from(t, unit_end(t, i, b), b, depth)
        } else if depth == 0 && (t[i] == '{' || t[i] == '}' || t[i] == ';') {
            i
        } else {
            stop_from(t, i + 1, b, nested(t[i], depth))
        }
    }
}

/// The `}` that closes a block whose inside is at `i`, `depth` blocks deeper, or
/// the end.
pub open spec fn close_from(t: Seq<char>, i: int, b: int, depth: int) -> int
    decreases b - i,
{
    if i < 0 || i >= b || b > t.len() {
        b
    } else {
        proof {
            lemma_unit_end(t, i, b);
        }
        if !bare(t, i, b) {
            close_from(t, unit_end(t, i, b), b, depth)
        } else if t[i] == '{' {
            close_from(t, i + 1, b, depth + 1)
        } else if t[i] == '}' {
            if depth <= 0 {
                i
            } else {
                close_from(t, i + 1, b, depth - 1)
            }
        } else {
            close_from(t, i + 1, b, depth)
        }
    }
}

pub proof fn lemma_stop_from(t: Seq<char>, i: int, b: int, depth: int)
    requires
        0 <= i <= b <= t.len(),
    ensures
        i <= stop_from(t, i, b, depth) <= b,
    decreases b - i,
{
    if i < b {
        lemma_unit_end(t, i, b);
        if !bare(t, i, b) {
            lemma_stop_from(t, unit_end(t, i, b), b, depth);
        } else if depth == 0 && (t[i] == '{' || t[i] == '}' || t[i] == ';') {
        } else {
            lemma_stop_from(t, i + 1, b, nested(t[i], depth));
        }
    }
}

pub proof fn lemma_close_from(t: Seq<char>, i: int, b: int, depth: int)
    requires
        0 <= i <= b <= t.len(),
    ensures
        i <= close_from(t, i, b, depth) <= b,
    decreases b - i,
{
    if i < b {
        lemma_unit_end(t, i, b);
        if !bare(t, i, b) {
            lemma_close_from(t, unit_end(t, i, b), b, depth);
        } else if t[i] == '{' {
            lemma_close_from(t, i + 1, b, depth + 1);
        } else if t[i] == '}' {
            if depth > 0 {
                lemma_close_from(t, i + 1, b, depth - 1);
            }
        } else {
            lemma_close_from(t, i + 1, b, depth);
        }
    }
}

fn stop_of(t: &[char], from: usize, b: usize) -> (r: usize)
    requires
        from <= b <= t@.len(),
    ensures
        r == stop_from(t@, from as int, b as int, 0),
        from <= r <= b,
{
    let mut i: usize = from;
    let mut depth: usize = 0;
    while i < b
        invariant
            from <= i <= b <= t@.len(),
            depth <= i,
            stop_from(t@, from as int, b as int, 0) == stop_from(
                t@,
                i as int,
                b as int,
                depth as int,
            ),
        decreases b - i,
    {
        if !bare_here(t, i, b) {
            i = unit_end_of(t, i, b);
        } else {
            let c = t[i];
            if depth == 0 && (c == '{' || c == '}' || c == ';') {
                return i;
            }
            if c == '(' || c == '[' {
                depth = depth + 1;
            } else if (c == ')' || c == ']') && depth > 0 {
                depth = depth - 1;
            }
            i = i + 1;
        }
    }
    b
}

fn close_of(t: &[char], from: usize, b: usize) -> (r: usize)
    requires
        from <= b <= t@.len(),
    ensures
        r == close_from(t@, from as int, b as int, 0),
        from <= r <= b,
{
    let mut i: usize = from;
    let mut depth: usize = 0;
    while i < b
        invariant
            from <= i <= b <= t@.len(),
            depth <= i,
            close_from(t@, from as int, b as int, 0) == close_from(
                t@,
                i as int,
                b as int,
                depth as int,
            ),
        decreases b - i,
    {
        if !bare_here(t, i, b) {
            i = unit_end_of(t, i, b);
        } else {
            if t[i] == '{' {
                depth = depth + 1;
            } else if t[i] == '}' {
                if depth == 0 {
                    return i;
                }
                depth = depth - 1;
            }
            i = i + 1;
        }
    }
    b
}

/// A character of a name.
pub open spec fn ident_char(c: char) -> bool {
    text::is_ascii_alnum(c) || c == '-' || c == '_' || c > '\u{7f}'
}

/// The end of the name that starts at `i`.
pub open spec fn ident_end(t: Seq<char>, i: int, b: int) -> int
    decreases b - i,
{
    if 0 <= i < b <= t.len() && ident_char(t[i]) {
        ident_end(t, i + 1, b)
    } else {
        i
    }
}

pub proof fn lemma_ident_end(t: Seq<char>, i: int, b: int)
    requires
        0 <= i <= b <= t.len(),
    ensures
        i <= ident_end(t, i, b) <= b,
    decreases b - i,
{
    if i < b && ident_char(t[i]) {
        lemma_ident_end(t, i + 1, b);
    }
}

fn ident_end_of(t: &[char], from: usize, b: usize) -> (r: usize)
    requires
        from <= b <= t@.len(),
    ensures
        r == ident_end(t@, from as int, b as int),
        from <= r <= b,
{
    let mut i: usize = from;
    while i < b && (ascii_alnum(t[i]) || t[i] == '-' || t[i] == '_' || t[i] > '\u{7f}')
        invariant
            from <= i <= b <= t@.len(),
            ident_end(t@, from as int, b as int) == ident_end(t@, i as int, b as int),
        decreases b - i,
    {
        i = i + 1;
    }
    i
}

/// An at-rule that holds rules.
pub open spec fn holds_rules(name: Seq<char>) -> bool {
    let n = text::spec_lower(name);
    n == "media"@ || n == "supports"@ || n == "layer"@ || n == "container"@ || n == "document"@ || n
        == "-moz-document"@ || n == "scope"@ || n == "starting-style"@
}

fn rules_inside(name: &[char]) -> (r: bool)
    ensures
        r == holds_rules(name@),
{
    let n = lowered(name);
    is(&n, "media") || is(&n, "supports") || is(&n, "layer") || is(&n, "container") || is(
        &n,
        "document",
    ) || is(&n, "-moz-document") || is(&n, "scope") || is(&n, "starting-style")
}

/// The item that starts at `i`, where a name of an at-rule ends at `n`, and
/// whether there is one: a stray `}` or `;` is none.
pub open spec fn item_at(t: Seq<char>, i: int, b: int) -> CssItem {
    if comment_at(t, i, b) {
        CssItem { start: i, end: comment_end(t, i + 2, b), kind: CssKind::Comment }
    } else {
        let at = t[i] == '@';
        let n = if at {
            ident_end(t, i + 1, b)
        } else {
            i
        };
        let s = stop_from(t, n, b, 0);
        if s < b && t[s] == '{' {
            let c = close_from(t, s + 1, b, 0);
            let end = if c < b {
                c + 1
            } else {
                b
            };
            let name = t.subrange(i + 1, n);
            CssItem {
                start: i,
                end,
                kind: if !at {
                    CssKind::Rule { prelude: (i, s), inner: (s + 1, c) }
                } else if holds_rules(name) {
                    CssKind::Group { name, prelude: (n, s), inner: (s + 1, c) }
                } else {
                    CssKind::Block { name, prelude: (n, s), inner: (s + 1, c) }
                },
            }
        } else {
            CssItem {
                start: i,
                end: if s < b {
                    s + 1
                } else {
                    b
                },
                kind: CssKind::Statement,
            }
        }
    }
}

/// The items from `i` up to `b`.
pub open spec fn scan_from(t: Seq<char>, i: int, b: int) -> Seq<CssItem>
    decreases b - i,
{
    if i < 0 || i >= b || b > t.len() {
        Seq::empty()
    } else if text::is_ascii_white(t[i]) || t[i] == '}' || t[i] == ';' {
        scan_from(t, i + 1, b)
    } else {
        let item = item_at(t, i, b);
        proof {
            lemma_item_at(t, i, b);
        }
        seq![item] + scan_from(t, item.end, b)
    }
}

/// The parts of an item stand in it, in order.
pub open spec fn item_fits(k: CssItem) -> bool {
    match k.kind {
        CssKind::Rule { prelude, inner } => k.start <= prelude.0 <= prelude.1 < inner.0 <= inner.1
            <= k.end,
        CssKind::Group { prelude, inner, .. } => k.start < prelude.0 <= prelude.1 < inner.0
            <= inner.1 <= k.end,
        CssKind::Block { prelude, inner, .. } => k.start < prelude.0 <= prelude.1 < inner.0
            <= inner.1 <= k.end,
        _ => true,
    }
}

pub proof fn lemma_item_at(t: Seq<char>, i: int, b: int)
    requires
        0 <= i < b <= t.len(),
        t[i] != '}',
        t[i] != ';',
    ensures
        i < item_at(t, i, b).end <= b,
        item_at(t, i, b).start == i,
        item_fits(item_at(t, i, b)),
{
    if comment_at(t, i, b) {
        lemma_comment_end(t, i + 2, b);
    } else {
        lemma_ident_end(t, i + 1, b);
        let n = if t[i] == '@' {
            ident_end(t, i + 1, b)
        } else {
            i
        };
        lemma_stop_from(t, n, b, 0);
        let s = stop_from(t, n, b, 0);
        if s < b {
            lemma_close_from(t, s + 1, b, 0);
        }
    }
}

/// The items of a stylesheet.
pub open spec fn spec_scan(t: Seq<char>) -> Seq<CssItem> {
    scan_from(t, 0, t.len() as int)
}

pub fn item_of(t: &[char], i: usize, b: usize) -> (r: Item)
    requires
        i < b <= t@.len(),
        t@[i as int] != '}',
        t@[i as int] != ';',
    ensures
        r@ == item_at(t@, i as int, b as int),
        i < r.end <= b,
        r.start == i,
{
    proof {
        lemma_item_at(t@, i as int, b as int);
    }
    if comment_here(t, i, b) {
        return Item { start: i, end: comment_end_of(t, i + 2, b), kind: Kind::Comment };
    }
    let at = t[i] == '@';
    let n = if at {
        ident_end_of(t, i + 1, b)
    } else {
        i
    };
    let s = stop_of(t, n, b);
    if s < b && t[s] == '{' {
        let c = close_of(t, s + 1, b);
        let end = if c < b {
            c + 1
        } else {
            b
        };
        if !at {
            Item { start: i, end, kind: Kind::Rule { prelude: (i, s), inner: (s + 1, c) } }
        } else {
            let name = &t[i + 1..n];
            if rules_inside(name) {
                Item {
                    start: i,
                    end,
                    kind: Kind::Group {
                        name: string_of(name),
                        prelude: (n, s),
                        inner: (s + 1, c),
                    },
                }
            } else {
                Item {
                    start: i,
                    end,
                    kind: Kind::Block {
                        name: string_of(name),
                        prelude: (n, s),
                        inner: (s + 1, c),
                    },
                }
            }
        }
    } else {
        Item {
            start: i,
            end: if s < b {
                s + 1
            } else {
                b
            },
            kind: Kind::Statement,
        }
    }
}

proof fn lemma_items_push(v: Seq<Item>, x: Item)
    ensures
        items(v.push(x)) == items(v).push(x@),
{
    assert(items(v.push(x)) =~= items(v).push(x@));
}

/// Each item stands in the text from `a` up to `b`, and its parts in it.
pub open spec fn items_fit(v: Seq<CssItem>, a: int, b: int) -> bool {
    forall|i: int|
        0 <= i < v.len() ==> a <= (#[trigger] v[i]).start && v[i].start < v[i].end && v[i].end <= b
            && item_fits(v[i])
}

pub proof fn lemma_scan_fits(t: Seq<char>, i: int, b: int)
    requires
        0 <= i <= b <= t.len(),
    ensures
        items_fit(scan_from(t, i, b), i, b),
    decreases b - i,
{
    if i >= b {
    } else if text::is_ascii_white(t[i]) || t[i] == '}' || t[i] == ';' {
        lemma_scan_fits(t, i + 1, b);
    } else {
        lemma_item_at(t, i, b);
        let item = item_at(t, i, b);
        lemma_scan_fits(t, item.end, b);
        let rest = scan_from(t, item.end, b);
        let v = seq![item] + rest;
        assert forall|k: int| 0 <= k < v.len() implies i <= (#[trigger] v[k]).start && v[k].start
            < v[k].end && v[k].end <= b && item_fits(v[k]) by {
            if k > 0 {
                assert(v[k] == rest[k - 1]);
            }
        }
    }
}

/// The items from `a` up to `b`.
pub fn scan_within(t: &[char], a: usize, b: usize) -> (r: Vec<Item>)
    requires
        a <= b <= t@.len(),
    ensures
        items(r@) == scan_from(t@, a as int, b as int),
        items_fit(items(r@), a as int, b as int),
{
    let mut out: Vec<Item> = Vec::new();
    let mut i: usize = a;
    assert(items(out@) =~= Seq::<CssItem>::empty());
    while i < b
        invariant
            a <= i <= b <= t@.len(),
            items(out@) + scan_from(t@, i as int, b as int) == scan_from(t@, a as int, b as int),
        decreases b - i,
    {
        if ascii_white(t[i]) || t[i] == '}' || t[i] == ';' {
            i = i + 1;
        } else {
            let item = item_of(t, i, b);
            let ghost before = items(out@);
            let ghost rest = scan_from(t@, item.end as int, b as int);
            proof {
                lemma_items_push(out@, item);
            }
            i = item.end;
            let ghost iv = item@;
            out.push(item);
            assert(before + (seq![iv] + rest) =~= items(out@) + rest);
        }
    }
    proof {
        lemma_scan_fits(t@, a as int, b as int);
    }
    assert(items(out@) =~= scan_from(t@, a as int, b as int));
    out
}

/// The items of a stylesheet.
pub fn scan(t: &[char]) -> (r: Vec<Item>)
    ensures
        items(r@) == spec_scan(t@),
        items_fit(items(r@), 0, t@.len() as int),
{
    scan_within(t, 0, t.len())
}

// ---------------------------------------------------------------- pieces

/// `s` from `i` on with each run of white space outside strings made one space;
/// `gap` says that one is due.
pub open spec fn collapsed_from(s: Seq<char>, i: int, gap: bool, out: Seq<char>) -> Seq<char>
    decreases s.len() - i,
{
    if i < 0 || i >= s.len() {
        out
    } else if text::is_ascii_white(s[i]) {
        collapsed_from(s, i + 1, true, out)
    } else {
        let e = unit_end(s, i, s.len() as int);
        proof {
            lemma_unit_end(s, i, s.len() as int);
        }
        let lead = if gap && out.len() > 0 {
            out + " "@
        } else {
            out
        };
        collapsed_from(s, e, false, lead + s.subrange(i, e))
    }
}

/// `s` without white space at its ends, each run of it inside made one space;
/// strings and comments are kept.
pub open spec fn spec_collapse_space(s: Seq<char>) -> Seq<char> {
    collapsed_from(s, 0, false, Seq::empty())
}

/// `s` without white space at its ends, each run of it inside made one space.
pub fn collapse_space(s: &[char]) -> (r: Vec<char>)
    ensures
        r@ == spec_collapse_space(s@),
{
    let mut out: Vec<char> = Vec::new();
    let mut gap = false;
    let mut i: usize = 0;
    while i < s.len()
        invariant
            i <= s@.len(),
            collapsed_from(s@, i as int, gap, out@) == spec_collapse_space(s@),
        decreases s@.len() - i,
    {
        if ascii_white(s[i]) {
            gap = true;
            i = i + 1;
        } else {
            let e = unit_end_of(s, i, s.len());
            if gap && out.len() > 0 {
                put_str(&mut out, " ");
            }
            put(&mut out, &s[i..e]);
            gap = false;
            i = e;
        }
    }
    out
}

/// The first `sep` from `i` on outside parentheses, brackets, strings and
/// comments, or the end.
pub open spec fn sep_from(s: Seq<char>, sep: char, i: int, depth: int) -> int
    decreases s.len() - i,
{
    if i < 0 || i >= s.len() {
        s.len() as int
    } else {
        let n = s.len() as int;
        proof {
            lemma_unit_end(s, i, n);
        }
        if !bare(s, i, n) {
            sep_from(s, sep, unit_end(s, i, n), depth)
        } else if depth == 0 && s[i] == sep {
            i
        } else {
            sep_from(s, sep, i + 1, nested(s[i], depth))
        }
    }
}

pub proof fn lemma_sep_from(s: Seq<char>, sep: char, i: int, depth: int)
    requires
        0 <= i <= s.len(),
    ensures
        i <= sep_from(s, sep, i, depth) <= s.len(),
    decreases s.len() - i,
{
    if i < s.len() {
        let n = s.len() as int;
        lemma_unit_end(s, i, n);
        if !bare(s, i, n) {
            lemma_sep_from(s, sep, unit_end(s, i, n), depth);
        } else if depth == 0 && s[i] == sep {
        } else {
            lemma_sep_from(s, sep, i + 1, nested(s[i], depth));
        }
    }
}

fn sep_of(s: &[char], sep: char, from: usize) -> (r: usize)
    requires
        from <= s@.len(),
    ensures
        r == sep_from(s@, sep, from as int, 0),
        from <= r <= s@.len(),
{
    let n = s.len();
    let mut i: usize = from;
    let mut depth: usize = 0;
    while i < n
        invariant
            n == s@.len(),
            from <= i <= n,
            depth <= i,
            sep_from(s@, sep, from as int, 0) == sep_from(s@, sep, i as int, depth as int),
        decreases n - i,
    {
        if !bare_here(s, i, n) {
            i = unit_end_of(s, i, n);
        } else {
            let c = s[i];
            if depth == 0 && c == sep {
                return i;
            }
            if c == '(' || c == '[' {
                depth = depth + 1;
            } else if (c == ')' || c == ']') && depth > 0 {
                depth = depth - 1;
            }
            i = i + 1;
        }
    }
    n
}

/// The pieces of `s` from `i` on between one top-level `sep` and the next.
pub open spec fn pieces_from(s: Seq<char>, sep: char, i: int) -> Seq<Seq<char>>
    decreases s.len() - i,
{
    let e = sep_from(s, sep, i, 0);
    if 0 <= i <= e < s.len() {
        seq![s.subrange(i, e)] + pieces_from(s, sep, e + 1)
    } else {
        seq![s.subrange(i, s.len() as int)]
    }
}

/// The pieces of `s` between one top-level `sep` and the next.
pub open spec fn spec_split_top_level(s: Seq<char>, sep: char) -> Seq<Seq<char>> {
    pieces_from(s, sep, 0)
}

/// The pieces of `s` between one top-level `sep` and the next.
pub fn split_top_level(s: &[char], sep: char) -> (r: Vec<Vec<char>>)
    ensures
        text::texts(r@) == spec_split_top_level(s@, sep),
{
    let n = s.len();
    let mut out: Vec<Vec<char>> = Vec::new();
    let mut i: usize = 0;
    loop
        invariant
            n == s@.len(),
            i <= n,
            text::texts(out@) + pieces_from(s@, sep, i as int) == spec_split_top_level(s@, sep),
        decreases n - i,
    {
        let ghost before = text::texts(out@);
        let e = sep_of(s, sep, i);
        add_text(&mut out, cut(s, i, e));
        if e == n {
            assert(before + seq![s@.subrange(i as int, n as int)] =~= text::texts(out@));
            return out;
        }
        assert(before + (seq![s@.subrange(i as int, e as int)] + pieces_from(s@, sep, e + 1))
            =~= text::texts(out@) + pieces_from(s@, sep, e + 1));
        i = e + 1;
    }
}

/// A comment or a declaration in a block.
pub enum BlockItem {
    Comment(Vec<char>),
    Decl(Vec<char>, Vec<char>),
}

/// What a `BlockItem` says.
#[verifier::ext_equal]
pub enum BlockPart {
    Comment(Seq<char>),
    Decl(Seq<char>, Seq<char>),
}

impl View for BlockItem {
    type V = BlockPart;

    open spec fn view(&self) -> BlockPart {
        match *self {
            BlockItem::Comment(c) => BlockPart::Comment(c@),
            BlockItem::Decl(n, v) => BlockPart::Decl(n@, v@),
        }
    }
}

pub open spec fn parts(v: Seq<BlockItem>) -> Seq<BlockPart> {
    v.map_values(|p: BlockItem| p@)
}

/// A declaration: the name before its first `:`, the value behind it.
pub open spec fn declaration(s: Seq<char>) -> BlockPart {
    match text::spec_find_char(s, ':', 0) {
        Some(k) => BlockPart::Decl(
            text::spec_ascii_trim(s.subrange(0, k)),
            text::spec_ascii_trim(s.subrange(k + 1, s.len() as int)),
        ),
        None => BlockPart::Decl(text::spec_ascii_trim(s), Seq::empty()),
    }
}

/// The comments and declarations of a block from `i` on.
pub open spec fn block_from(s: Seq<char>, i: int) -> Seq<BlockPart>
    decreases s.len() - i,
{
    let n = s.len() as int;
    if i < 0 || i >= n {
        Seq::empty()
    } else if text::is_ascii_white(s[i]) || s[i] == ';' {
        block_from(s, i + 1)
    } else if comment_at(s, i, n) {
        let e = comment_end(s, i + 2, n);
        proof {
            lemma_comment_end(s, i + 2, n);
        }
        seq![BlockPart::Comment(s.subrange(i, e))] + block_from(s, e)
    } else {
        let e = sep_from(s, ';', i, 0);
        proof {
            lemma_sep_from(s, ';', i, 0);
        }
        seq![declaration(s.subrange(i, e))] + block_from(
            s,
            if e < n {
                e + 1
            } else {
                n
            },
        )
    }
}

/// The comments and declarations of a block.
pub open spec fn spec_block_items(s: Seq<char>) -> Seq<BlockPart> {
    block_from(s, 0)
}

fn declaration_of(s: &[char]) -> (r: BlockItem)
    ensures
        r@ == declaration(s@),
{
    let n = s.len();
    match find_char(s, ':', 0) {
        Some(k) => BlockItem::Decl(
            copy(ascii_trim(&s[0..k])),
            copy(ascii_trim(&s[k + 1..n])),
        ),
        None => BlockItem::Decl(copy(ascii_trim(s)), Vec::new()),
    }
}

proof fn lemma_parts_push(v: Seq<BlockItem>, x: BlockItem)
    ensures
        parts(v.push(x)) == parts(v).push(x@),
{
    assert(parts(v.push(x)) =~= parts(v).push(x@));
}

/// The comments and declarations of a block.
pub fn block_items(s: &[char]) -> (r: Vec<BlockItem>)
    ensures
        parts(r@) == spec_block_items(s@),
{
    let n = s.len();
    let mut out: Vec<BlockItem> = Vec::new();
    assert(parts(out@) =~= Seq::<BlockPart>::empty());
    let mut i: usize = 0;
    while i < n
        invariant
            n == s@.len(),
            i <= n,
            parts(out@) + block_from(s@, i as int) == spec_block_items(s@),
        decreases n - i,
    {
        let ghost before = parts(out@);
        if ascii_white(s[i]) || s[i] == ';' {
            i = i + 1;
        } else {
            let item;
            let next;
            if comment_here(s, i, n) {
                let e = comment_end_of(s, i + 2, n);
                item = BlockItem::Comment(cut(s, i, e));
                next = e;
            } else {
                let e = sep_of(s, ';', i);
                item = declaration_of(&s[i..e]);
                next = if e < n {
                    e + 1
                } else {
                    n
                };
            }
            let ghost iv = item@;
            let ghost rest = block_from(s@, next as int);
            proof {
                lemma_parts_push(out@, item);
                lemma_sep_from(s@, ';', i as int, 0);
            }
            out.push(item);
            assert(before + (seq![iv] + rest) =~= parts(out@) + rest);
            i = next;
        }
    }
    assert(parts(out@) =~= spec_block_items(s@));
    out
}

// ---------------------------------------------------------------- renaming a class

/// A selector list from `i` on with the class `from` named `to`, and how often
/// it was, on top of what is already written.
pub open spec fn selectors_renamed(
    s: Seq<char>,
    from: Seq<char>,
    to: Seq<char>,
    i: int,
    out: Seq<char>,
    count: int,
) -> (Seq<char>, int)
    decreases s.len() - i,
{
    let n = s.len() as int;
    if i < 0 || i >= n {
        (out, count)
    } else {
        proof {
            lemma_unit_end(s, i, n);
            lemma_ident_end(s, i + 1, n);
        }
        if bare(s, i, n) && s[i] == '.' {
            let e = ident_end(s, i + 1, n);
            if s.subrange(i + 1, e) == from && from.len() > 0 {
                selectors_renamed(s, from, to, e, out + "."@ + to, count + 1)
            } else {
                selectors_renamed(s, from, to, i + 1, out + s.subrange(i, i + 1), count)
            }
        } else {
            let e = unit_end(s, i, n);
            selectors_renamed(s, from, to, e, out + s.subrange(i, e), count)
        }
    }
}

/// The stylesheet text from `i` up to `b` with the class `from` named `to` in
/// its selectors, those inside at-rules that hold rules too.
pub open spec fn rules_renamed(
    t: Seq<char>,
    from: Seq<char>,
    to: Seq<char>,
    i: int,
    b: int,
    out: Seq<char>,
    count: int,
) -> (Seq<char>, int)
    decreases b - i,
{
    if i < 0 || i >= b || b > t.len() {
        (out, count)
    } else if text::is_ascii_white(t[i]) || t[i] == '}' || t[i] == ';' {
        rules_renamed(t, from, to, i + 1, b, out + t.subrange(i, i + 1), count)
    } else {
        let item = item_at(t, i, b);
        proof {
            lemma_item_at(t, i, b);
        }
        match item.kind {
            CssKind::Rule { prelude, .. } => {
                let (o, c) = selectors_renamed(
                    t.subrange(prelude.0, prelude.1),
                    from,
                    to,
                    0,
                    out,
                    count,
                );
                rules_renamed(
                    t,
                    from,
                    to,
                    item.end,
                    b,
                    o + t.subrange(prelude.1, item.end),
                    c,
                )
            },
            CssKind::Group { inner, .. } => {
                let (o, c) = rules_renamed(
                    t,
                    from,
                    to,
                    inner.0,
                    inner.1,
                    out + t.subrange(i, inner.0),
                    count,
                );
                rules_renamed(t, from, to, item.end, b, o + t.subrange(inner.1, item.end), c)
            },
            _ => rules_renamed(t, from, to, item.end, b, out + t.subrange(i, item.end), count),
        }
    }
}

/// A stylesheet with the class `from` named `to` in its selectors, and how often
/// it was.
pub open spec fn spec_rename_class(t: Seq<char>, from: Seq<char>, to: Seq<char>) -> (
    Seq<char>,
    int,
) {
    rules_renamed(t, from, to, 0, t.len() as int, Seq::empty(), 0)
}

fn rename_selectors(s: &[char], from: &[char], to: &[char], out: &mut Vec<char>, count: usize) -> (r:
    usize)
    requires
        count + s@.len() <= usize::MAX,
    ensures
        (final(out)@, r as int) == selectors_renamed(s@, from@, to@, 0, old(out)@, count as int),
        count <= r <= count + s@.len(),
{
    let n = s.len();
    let mut i: usize = 0;
    let mut c: usize = count;
    while i < n
        invariant
            n == s@.len(),
            i <= n,
            count <= c <= count + i,
            count + n <= usize::MAX,
            selectors_renamed(s@, from@, to@, i as int, out@, c as int) == selectors_renamed(
                s@,
                from@,
                to@,
                0,
                old(out)@,
                count as int,
            ),
        decreases n - i,
    {
        if bare_here(s, i, n) && s[i] == '.' {
            let e = ident_end_of(s, i + 1, n);
            if from.len() > 0 && same(&s[i + 1..e], from) {
                put_str(out, ".");
                put(out, to);
                c = c + 1;
                i = e;
            } else {
                put(out, &s[i..i + 1]);
                i = i + 1;
            }
        } else {
            let e = unit_end_of(s, i, n);
            put(out, &s[i..e]);
            i = e;
        }
    }
    c
}

fn rename_rules(
    t: &[char],
    from: &[char],
    to: &[char],
    a: usize,
    b: usize,
    out: &mut Vec<char>,
    count: usize,
) -> (r: usize)
    requires
        a <= b <= t@.len(),
        count + (b - a) <= usize::MAX,
    ensures
        (final(out)@, r as int) == rules_renamed(
            t@,
            from@,
            to@,
            a as int,
            b as int,
            old(out)@,
            count as int,
        ),
        count <= r <= count + (b - a),
    decreases b - a,
{
    let mut i: usize = a;
    let mut c: usize = count;
    while i < b
        invariant
            a <= i <= b <= t@.len(),
            count + (b - a) <= usize::MAX,
            count <= c <= count + (i - a),
            rules_renamed(t@, from@, to@, i as int, b as int, out@, c as int) == rules_renamed(
                t@,
                from@,
                to@,
                a as int,
                b as int,
                old(out)@,
                count as int,
            ),
        decreases b - i,
    {
        if ascii_white(t[i]) || t[i] == '}' || t[i] == ';' {
            put(out, &t[i..i + 1]);
            i = i + 1;
        } else {
            proof {
                lemma_item_at(t@, i as int, b as int);
            }
            let item = item_of(t, i, b);
            let end = item.end;
            match item.kind {
                Kind::Rule { prelude, .. } => {
                    c = rename_selectors(&t[prelude.0..prelude.1], from, to, out, c);
                    put(out, &t[prelude.1..end]);
                },
                Kind::Group { inner, .. } => {
                    put(out, &t[i..inner.0]);
                    c = rename_rules(t, from, to, inner.0, inner.1, out, c);
                    put(out, &t[inner.1..end]);
                },
                _ => {
                    put(out, &t[i..end]);
                },
            }
            i = end;
        }
    }
    c
}

/// A stylesheet with the class `from` named `to` in its selectors, and how often
/// it was.
pub fn rename_class(css: &str, from: &str, to: &str) -> (r: (String, usize))
    ensures
        (r.0@, r.1 as int) == spec_rename_class(css@, from@, to@),
        r.1 <= css@.len(),
{
    let t = chars_of(css);
    let mut out: Vec<char> = Vec::new();
    let n = rename_rules(&t, &chars_of(from), &chars_of(to), 0, t.len(), &mut out, 0);
    (string_of(&out), n)
}

} // verus!
