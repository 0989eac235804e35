//! What kind of page a content document is, judged from its markup alone.
use vstd::prelude::*;

use crate::text;
use crate::text::{
    ascii_digit, at_str, chars_of, copy, find_char, find_str, lowered, replace_str, rfind_str,
    string_of, white,
};

verus! {

/// The inside of the document's body, or the whole of it where it declares none.
pub open spec fn body_of(t: Seq<char>) -> Seq<char> {
    match (text::spec_find(t, "<body"@, 0), text::spec_rfind(t, "</body>"@, t.len() as int)) {
        (Some(a), Some(e)) if e > a => match text::spec_find_char(t.subrange(a, e), '>', 0) {
            Some(g) => t.subrange(a + g + 1, e),
            None => t.subrange(a, e),
        },
        _ => t,
    }
}

/// The source of the image whose tag opens at `from`, in the attribute `attr`.
pub open spec fn image_source(body: Seq<char>, from: int, attr: Seq<char>) -> Option<(int, Seq<char>)> {
    match text::spec_find(body, attr, from) {
        Some(a) => match text::spec_find_char(body, '"', a + attr.len()) {
            Some(q) => Some((from, body.subrange(a + attr.len(), q))),
            None => None,
        },
        None => None,
    }
}

/// The first image of a body: where its tag opens, and its source.
pub open spec fn first_image(body: Seq<char>) -> Option<(int, Seq<char>)> {
    match (text::spec_find(body, "<img"@, 0), text::spec_find(body, "<image"@, 0)) {
        (Some(r), Some(v)) => if r <= v {
            image_source(body, r, "src=\""@)
        } else {
            image_source(body, v, "href=\""@)
        },
        (Some(r), None) => image_source(body, r, "src=\""@),
        (None, Some(v)) => image_source(body, v, "href=\""@),
        (None, None) => None,
    }
}

/// From `i` on, `depth` tags deep, nothing but tags and white space stands.
pub open spec fn textless_from(body: Seq<char>, i: int, depth: int) -> bool
    decreases body.len() - i,
{
    if i < 0 || i >= body.len() {
        true
    } else if body[i] == '<' {
        textless_from(body, i + 1, depth + 1)
    } else if body[i] == '>' {
        textless_from(
            body,
            i + 1,
            if depth > 0 {
                depth - 1
            } else {
                0
            },
        )
    } else {
        (depth > 0 || text::is_white(body[i])) && textless_from(body, i + 1, depth)
    }
}

/// A body renders no text of its own: without its tags nothing but white space
/// is left.
pub open spec fn spec_renders_no_text(body: Seq<char>) -> bool {
    textless_from(body, 0, 0)
}

/// How often `p` stands in `s` before `n`.
pub open spec fn occurrences(s: Seq<char>, p: Seq<char>, n: int) -> int
    decreases n,
{
    if n <= 0 {
        0
    } else {
        occurrences(s, p, n - 1) + if text::is_at(s, p, n - 1) {
            1int
        } else {
            0
        }
    }
}

/// How many images a body has.
pub open spec fn image_count(body: Seq<char>) -> int {
    occurrences(body, "<img"@, body.len() as int) + occurrences(
        body,
        "<image"@,
        body.len() as int,
    )
}

/// The plate that a page opens on.
pub open spec fn spec_opening_plate(t: Seq<char>) -> Option<Seq<char>> {
    let body = body_of(t);
    match first_image(body) {
        Some((at, src)) if spec_renders_no_text(body.subrange(0, at)) => Some(src),
        _ => None,
    }
}

/// The source of a document's one image, where it holds nothing else.
pub open spec fn spec_single_image(t: Seq<char>) -> Option<Seq<char>> {
    let body = body_of(t);
    match first_image(body) {
        Some((_, src)) if image_count(body) == 1 && spec_renders_no_text(body) => Some(src),
        _ => None,
    }
}

/// The document is a page of pictures and nothing else.
pub open spec fn spec_image_only(t: Seq<char>) -> bool {
    let body = body_of(t);
    first_image(body) is Some && spec_renders_no_text(body)
}

fn body_span_of(t: &[char]) -> (r: (usize, usize))
    ensures
        r.0 <= r.1 <= t@.len(),
        t@.subrange(r.0 as int, r.1 as int) == body_of(t@),
{
    let n = t.len();
    if let (Some(a), Some(e)) = (find_str(t, "<body", 0), rfind_str(t, "</body>", n)) {
        if e > a {
            return match find_char(&t[a..e], '>', 0) {
                Some(g) => (a + g + 1, e),
                None => (a, e),
            };
        }
    }
    assert(t@.subrange(0, n as int) =~= t@);
    (0, n)
}

/// What an image is said to be.
pub open spec fn image_said(r: Option<(usize, Vec<char>)>) -> Option<(int, Seq<char>)> {
    match r {
        Some((at, src)) => Some((at as int, src@)),
        None => None,
    }
}

fn image_source_of(body: &[char], from: usize, attr: &str) -> (r: Option<(usize, Vec<char>)>)
    requires
        from <= body@.len(),
    ensures
        image_said(r) == image_source(body@, from as int, attr@),
        r matches Some((at, _)) ==> at == from,
{
    let n = chars_of(attr).len();
    let len = body.len();
    let a = match find_str(body, attr, from) {
        Some(a) => a,
        None => {
            return None;
        },
    };
    assert(a + n <= len);
    match find_char(body, '"', a + n) {
        Some(q) => Some((from, copy(&body[a + n..q]))),
        None => None,
    }
}

fn first_image_of(body: &[char]) -> (r: Option<(usize, Vec<char>)>)
    ensures
        image_said(r) == first_image(body@),
        r matches Some((at, _)) ==> at <= body@.len(),
{
    match (find_str(body, "<img", 0), find_str(body, "<image", 0)) {
        (Some(x), Some(v)) => if x <= v {
            image_source_of(body, x, "src=\"")
        } else {
            image_source_of(body, v, "href=\"")
        },
        (Some(x), None) => image_source_of(body, x, "src=\""),
        (None, Some(v)) => image_source_of(body, v, "href=\""),
        (None, None) => None,
    }
}

fn renders_no_text(body: &[char]) -> (r: bool)
    ensures
        r == spec_renders_no_text(body@),
{
    let mut depth: usize = 0;
    let mut i: usize = 0;
    while i < body.len()
        invariant
            i <= body@.len(),
            depth <= i,
            textless_from(body@, 0, 0) == textless_from(body@, i as int, depth as int),
        decreases body@.len() - i,
    {
        if body[i] == '<' {
            depth = depth + 1;
        } else if body[i] == '>' {
            if depth > 0 {
                depth = depth - 1;
            }
        } else if depth == 0 && !white(body[i]) {
            return false;
        }
        i = i + 1;
    }
    true
}

fn occurrences_of(s: &[char], p: &str) -> (r: usize)
    ensures
        r == occurrences(s@, p@, s@.len() as int),
{
    let mut n: usize = 0;
    let mut i: usize = 0;
    while i < s.len()
        invariant
            i <= s@.len(),
            n <= i,
            n == occurrences(s@, p@, i as int),
        decreases s@.len() - i,
    {
        if at_str(s, p, i) {
            n = n + 1;
        }
        i = i + 1;
    }
    n
}

/// The plate that a page opens on: the source of its first image, where the
/// body renders no text in front of it.
pub fn opening_plate_source(html: &str) -> (r: Option<String>)
    ensures
        text::opt_str(r) == spec_opening_plate(html@),
{
    let t = chars_of(html);
    let (a, b) = body_span_of(&t);
    let body = &t[a..b];
    match first_image_of(body) {
        Some((at, src)) => if renders_no_text(&body[0..at]) {
            Some(string_of(&src))
        } else {
            None
        },
        None => None,
    }
}

/// The image source of a document with one image and no text.
pub fn single_image_source(html: &str) -> (r: Option<String>)
    ensures
        text::opt_str(r) == spec_single_image(html@),
{
    let t = chars_of(html);
    let (a, b) = body_span_of(&t);
    let body = &t[a..b];
    let raster = occurrences_of(body, "<img");
    let vector = occurrences_of(body, "<image");
    if !(raster == 1 && vector == 0 || raster == 0 && vector == 1) {
        return None;
    }
    match first_image_of(body) {
        Some((_, src)) => if renders_no_text(body) {
            Some(string_of(&src))
        } else {
            None
        },
        None => None,
    }
}

/// Whether a document is a page of pictures and nothing else: at least one
/// image, and no text anywhere in the body.
pub fn is_image_only_page(html: &str) -> (r: bool)
    ensures
        r == spec_image_only(html@),
{
    let t = chars_of(html);
    let (a, b) = body_span_of(&t);
    let body = &t[a..b];
    first_image_of(body).is_some() && renders_no_text(body)
}

/// The source of the first image of a page of pictures.
pub open spec fn spec_image_only_source(t: Seq<char>) -> Option<Seq<char>> {
    match first_image(body_of(t)) {
        Some((_, src)) if spec_renders_no_text(body_of(t)) => Some(src),
        _ => None,
    }
}

/// The source of the first image of a page of pictures, which stands for the
/// page.
pub fn image_only_source(html: &str) -> (r: Option<String>)
    ensures
        text::opt_str(r) == spec_image_only_source(html@),
{
    let t = chars_of(html);
    let (a, b) = body_span_of(&t);
    let body = &t[a..b];
    match first_image_of(body) {
        Some((_, src)) => if renders_no_text(body) {
            Some(string_of(&src))
        } else {
            None
        },
        None => None,
    }
}

// ---------------------------------------------------------------- rights

/// How many bytes a character takes in UTF-8.
pub open spec fn char_bytes(c: char) -> int {
    if (c as u32) < 0x80 {
        1
    } else if (c as u32) < 0x800 {
        2
    } else if (c as u32) < 0x10000 {
        3
    } else {
        4
    }
}

/// The end of the longest window from `i` on that takes no more than `room`
/// bytes.
pub open spec fn window_end(s: Seq<char>, i: int, room: int) -> int
    decreases s.len() - i,
{
    if 0 <= i < s.len() && char_bytes(s[i]) <= room {
        window_end(s, i + 1, room - char_bytes(s[i]))
    } else {
        i
    }
}

/// A run of four digits and no more stands at `a`, and reads as a year.
pub open spec fn year_at(s: Seq<char>, a: int) -> bool {
    &&& 0 <= a
    &&& a + 4 <= s.len()
    &&& s[a] == '1' || s[a] == '2'
    &&& text::is_ascii_digit(s[a + 1])
    &&& text::is_ascii_digit(s[a + 2])
    &&& text::is_ascii_digit(s[a + 3])
    &&& a == 0 || !text::is_ascii_digit(s[a - 1])
    &&& a + 4 == s.len() || !text::is_ascii_digit(s[a + 4])
}

/// A year stands in the text between `from` and `to`.
pub open spec fn states_year_within(s: Seq<char>, from: int, to: int) -> bool {
    exists|a: int| from <= a && a + 4 <= to && #[trigger] year_at(s, a)
}

/// The text with every reference to the copyright sign as the sign.
pub open spec fn with_signs(s: Seq<char>) -> Seq<char> {
    let sign = "\u{a9}"@;
    text::spec_replace(
        text::spec_replace(
            text::spec_replace(text::spec_replace(s, "&copy;"@, sign), "&#169;"@, sign),
            "&#xa9;"@,
            sign,
        ),
        "&#x00a9;"@,
        sign,
    )
}

/// A copyright sign stands at `k`, and a year in the window behind it.
pub open spec fn notice_at(s: Seq<char>, k: int) -> bool {
    0 <= k < s.len() && s[k] == '\u{a9}' && states_year_within(
        s,
        k + 1,
        window_end(s, k + 1, 48),
    )
}

/// The page carries a work's own rights statement.
pub open spec fn spec_states_own_rights(t: Seq<char>) -> bool {
    let s = with_signs(text::spec_lower(body_of(t)));
    exists|k: int| notice_at(s, k)
}

fn window_end_of(s: &[char], a: usize) -> (r: usize)
    requires
        a <= s@.len(),
    ensures
        r == window_end(s@, a as int, 48),
        a <= r <= s@.len(),
{
    let mut room: u32 = 48;
    let mut i: usize = a;
    while i < s.len()
        invariant
            a <= i <= s@.len(),
            room <= 48,
            window_end(s@, a as int, 48) == window_end(s@, i as int, room as int),
        decreases s@.len() - i,
    {
        let c = s[i] as u32;
        let size: u32 = if c < 0x80 {
            1
        } else if c < 0x800 {
            2
        } else if c < 0x10000 {
            3
        } else {
            4
        };
        if size > room {
            return i;
        }
        room = room - size;
        i = i + 1;
    }
    i
}

fn year_at_of(s: &[char], a: usize) -> (r: bool)
    requires
        a < s@.len(),
    ensures
        r == year_at(s@, a as int),
{
    let n = s.len();
    if n - a < 4 {
        return false;
    }
    (s[a] == '1' || s[a] == '2') && ascii_digit(s[a + 1]) && ascii_digit(s[a + 2]) && ascii_digit(
        s[a + 3],
    ) && (a == 0 || !ascii_digit(s[a - 1])) && (n - a == 4 || !ascii_digit(s[a + 4]))
}

fn states_a_year(s: &[char], from: usize, to: usize) -> (r: bool)
    requires
        from <= to <= s@.len(),
    ensures
        r == states_year_within(s@, from as int, to as int),
{
    let mut a: usize = from;
    while a < to && to - a >= 4
        invariant
            from <= a <= to <= s@.len(),
            forall|k: int| from <= k < a ==> !#[trigger] year_at(s@, k),
        decreases to - a,
    {
        if year_at_of(s, a) {
            return true;
        }
        a = a + 1;
    }
    false
}

fn sign_text(t: &[char]) -> (r: Vec<char>)
    ensures
        r@ == with_signs(text::spec_lower(t@)),
{
    proof {
        reveal_strlit("&copy;");
        reveal_strlit("&#169;");
        reveal_strlit("&#xa9;");
        reveal_strlit("&#x00a9;");
    }
    let a = replace_str(&lowered(t), "&copy;", "\u{a9}");
    let b = replace_str(&a, "&#169;", "\u{a9}");
    let c = replace_str(&b, "&#xa9;", "\u{a9}");
    replace_str(&c, "&#x00a9;", "\u{a9}")
}

/// Whether a page carries a work's own rights statement: a copyright sign, and a
/// year no farther behind it than a rights holder's name takes.
pub fn states_own_rights(html: &str) -> (r: bool)
    ensures
        r == spec_states_own_rights(html@),
{
    let t = chars_of(html);
    let (a, b) = body_span_of(&t);
    let s = sign_text(&t[a..b]);
    let mut k: usize = 0;
    while k < s.len()
        invariant
            k <= s@.len(),
            s@ == with_signs(text::spec_lower(body_of(html@))),
            forall|j: int| j < k ==> !notice_at(s@, j),
        decreases s@.len() - k,
    {
        if s[k] == '\u{a9}' {
            let e = window_end_of(&s, k + 1);
            if states_a_year(&s, k + 1, e) {
                assert(notice_at(s@, k as int));
                return true;
            }
        }
        k = k + 1;
    }
    assert(forall|j: int| j >= s@.len() ==> !notice_at(s@, j));
    false
}

} // verus!
