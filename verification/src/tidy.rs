//! Tidy markup: every `<` that a reader meets starts a piece, a tag or a comment,
//! instruction or declaration, that is closed. Reading such a text is reading its
//! pieces, one after the other, wherever they stand.
use vstd::prelude::*;

use crate::markup::Token;
use crate::opf::Opf;
use crate::reading::Step;
use crate::{markup, opf, reading, text};

verus! {

/// A comment, a processing instruction or a declaration, by its start.
pub open spec fn is_aside(c: Seq<char>) -> bool {
    c[1] == '!' || c[1] == '?'
}

/// Where the name of a tag starts.
pub open spec fn name_start(c: Seq<char>) -> int {
    if c[1] == '/' {
        2
    } else {
        1
    }
}

/// The piece is a tag: it has a name, and its quotes are closed.
pub open spec fn tag_ends(c: Seq<char>) -> bool {
    let a = name_start(c);
    let b = markup::name_end(c, a);
    a < b && markup::tag_close(c, b, None) == Some(c.len() - 1)
}

/// A piece of markup: a tag, or a comment, CDATA section, processing instruction or
/// declaration, from its start to its end.
#[verifier::opaque]
pub open spec fn is_piece(c: Seq<char>) -> bool {
    &&& c.len() >= 3
    &&& c[0] == '<'
    &&& if is_aside(c) {
        markup::skipped(c, 0) == Some(c.len() as int)
    } else {
        tag_ends(c)
    }
}

/// The piece holds neither `<` nor `>` between its ends.
#[verifier::opaque]
pub open spec fn is_bare(c: Seq<char>) -> bool {
    forall|k: int| 0 < k < c.len() - 1 ==> (#[trigger] c[k]) != '<' && c[k] != '>'
}

/// The text is tidy: it is made of pieces and of characters other than `<`.
#[verifier::opaque]
pub open spec fn is_tidy(t: Seq<char>) -> bool
    decreases t.len(),
    via is_tidy_shrinks
{
    t.len() == 0 || ((t[0] == '<' ==> is_piece(piece(t))) && is_tidy(tail(t)))
}

#[via_fn]
proof fn is_tidy_shrinks(t: Seq<char>) {
    if t.len() > 0 {
        lemma_tail(t);
    }
}

/// The piece that `s` starts with.
pub open spec fn piece(s: Seq<char>) -> Seq<char> {
    s.subrange(0, piece_len(s))
}

/// The length of the piece that `s` starts with; all of `s` where it is not
/// closed.
#[verifier::opaque]
pub open spec fn piece_len(s: Seq<char>) -> int {
    match markup::skipped(s, 0) {
        Some(e) if 0 < e <= s.len() => e,
        _ => match markup::tag_close(s, markup::name_end(s, name_start(s)), None) {
            Some(j) if 0 <= j < s.len() => j + 1,
            _ => s.len() as int,
        },
    }
}

/// What follows the piece, or the character, that `s` starts with.
pub open spec fn tail(s: Seq<char>) -> Seq<char> {
    if s[0] == '<' {
        s.subrange(piece_len(s), s.len() as int)
    } else {
        s.subrange(1, s.len() as int)
    }
}

/// How an aside that is closed ends.
proof fn lemma_aside_ends(c: Seq<char>)
    requires
        c.len() > 0,
        markup::skipped(c, 0) == Some(c.len() as int),
    ensures
        c.last() == '>',
{
    reveal_strlit("-->");
    reveal_strlit("]]>");
    reveal_strlit("?>");
    let n = c.len() as int;
    text::lemma_find(c, "-->"@, 0);
    text::lemma_find(c, "]]>"@, 0);
    text::lemma_find(c, "?>"@, 0);
    text::lemma_find_char(c, '>', 0);
    if text::is_at(c, "<!--"@, 0) {
        assert(c.subrange(n - 3, n)[2] == '>');
    } else if text::is_at(c, "<![CDATA["@, 0) {
        assert(c.subrange(n - 3, n)[2] == '>');
    } else if text::is_at(c, "<?"@, 0) {
        assert(c.subrange(n - 2, n)[1] == '>');
    }
}

pub proof fn lemma_ends(c: Seq<char>)
    requires
        is_piece(c),
    ensures
        c.len() >= 3,
        c[0] == '<',
        c.last() == '>',
{
    reveal(is_piece);
    if is_aside(c) {
        lemma_aside_ends(c);
    } else {
        markup::lemma_tag_close(c, markup::name_end(c, name_start(c)), None);
    }
}

pub proof fn lemma_inner(c: Seq<char>, k: int)
    requires
        is_piece(c),
        is_bare(c),
        0 < k < c.len(),
    ensures
        c[k] != '<',
{
    lemma_ends(c);
    reveal(is_bare);
}

pub proof fn lemma_tail(s: Seq<char>)
    requires
        s.len() > 0,
    ensures
        tail(s).len() < s.len(),
        0 < piece_len(s) <= s.len(),
{
    reveal(piece_len);
}

/// The text that `s` starts with, up to its first tag.
pub open spec fn lead(s: Seq<char>) -> Seq<char>
    decreases s.len(),
    via lead_shrinks
{
    if s.len() == 0 {
        Seq::empty()
    } else if s[0] != '<' {
        seq![s[0]] + lead(tail(s))
    } else if is_aside(s) {
        piece(s) + lead(tail(s))
    } else {
        Seq::empty()
    }
}

#[via_fn]
proof fn lead_shrinks(s: Seq<char>) {
    if s.len() > 0 {
        lemma_tail(s);
    }
}

/// What an element whose start tag stands before `s` is read as.
pub open spec fn behind(s: Seq<char>) -> Seq<char> {
    text::spec_trim(markup::spec_unescape(lead(s)))
}

/// The piece is a start tag.
pub open spec fn is_start(c: Seq<char>) -> bool {
    !is_aside(c) && c[1] != '/'
}

/// The name of a tag, in small letters.
pub open spec fn piece_name(c: Seq<char>) -> Seq<char> {
    let a = name_start(c);
    text::spec_lower(c.subrange(a, markup::name_end(c, a)))
}

/// What a reader of a package document makes of the tidy text `s`.
pub open spec fn read(s: Seq<char>, p: Opf) -> Opf
    decreases s.len(),
    via read_shrinks
{
    if s.len() == 0 {
        p
    } else if s[0] == '<' && is_start(s) {
        read(tail(s), opf::tag_met(p, piece_name(piece(s)), piece(s), behind(tail(s))))
    } else {
        read(tail(s), p)
    }
}

#[via_fn]
proof fn read_shrinks(s: Seq<char>, p: Opf) {
    if s.len() > 0 {
        lemma_tail(s);
    }
}

// ---------------------------------------------------------------- pieces in place

/// The text from `i` on.
pub open spec fn from(t: Seq<char>, i: int) -> Seq<char> {
    t.subrange(i, t.len() as int)
}

/// What follows a tidy start is tidy.
pub proof fn lemma_tidy_tail(s: Seq<char>)
    requires
        is_tidy(s),
        s.len() > 0,
    ensures
        is_tidy(tail(s)),
        s[0] == '<' ==> is_piece(piece(s)) && s == piece(s) + tail(s) && piece(s).len() == piece_len(s),
        s[0] == '<' ==> s[1] == piece(s)[1] && s.len() >= 3,
{
    reveal(is_tidy);
    lemma_tail(s);
    if s[0] == '<' {
        lemma_ends(piece(s));
        assert(s =~= piece(s) + tail(s));
        assert(piece(s)[1] == s[1]);
    }
}

proof fn lemma_name_end_in(t: Seq<char>, i: int, c: Seq<char>, a: int)
    requires
        0 <= i,
        text::is_at(t, c, i),
        0 <= a < c.len(),
        !markup::name_char(c.last()),
    ensures
        markup::name_end(t, i + a) == i + markup::name_end(c, a),
        a <= markup::name_end(c, a) < c.len(),
    decreases c.len() - a,
{
    assert(t.subrange(i, i + c.len())[a] == t[i + a]);
    if markup::name_char(c[a]) {
        if a + 1 < c.len() {
            lemma_name_end_in(t, i, c, a + 1);
        }
    }
}

proof fn lemma_tag_close_in(t: Seq<char>, i: int, c: Seq<char>, b: int, quote: Option<char>)
    requires
        0 <= i,
        text::is_at(t, c, i),
        0 <= b,
        markup::tag_close(c, b, quote) is Some,
    ensures
        markup::tag_close(t, i + b, quote) == Some(i + markup::tag_close(c, b, quote)->0),
    decreases c.len() - b,
{
    assert(t.subrange(i, i + c.len())[b] == t[i + b]);
    match quote {
        Some(q) => lemma_tag_close_in(t, i, c, b + 1, if c[b] == q { None } else { quote }),
        None => if c[b] == '>' {
        } else if c[b] == '"' || c[b] == '\'' {
            lemma_tag_close_in(t, i, c, b + 1, Some(c[b]));
        } else {
            lemma_tag_close_in(t, i, c, b + 1, None);
        },
    }
}

/// What stands at the start of a piece of the kind that ends in `>` stands at the
/// start of the text it stands in.
proof fn lemma_at_start(t: Seq<char>, i: int, c: Seq<char>, p: Seq<char>)
    requires
        0 <= i,
        text::is_at(t, c, i),
        c.len() > 0,
        c.last() == '>',
        forall|k: int| 0 <= k < p.len() ==> #[trigger] p[k] != '>',
    ensures
        text::is_at(t, p, i) == text::is_at(c, p, 0),
{
    assert forall|k: int| 0 <= k < c.len() implies t[i + k] == #[trigger] c[k] by {
        assert(t.subrange(i, i + c.len())[k] == c[k]);
    }
    if text::is_at(t, p, i) {
        assert forall|k: int| 0 <= k < p.len() implies t[i + k] == #[trigger] p[k] by {
            assert(t.subrange(i, i + p.len())[k] == p[k]);
        }
        if p.len() >= c.len() {
            let k = c.len() - 1;
            assert(t[i + k] == c[k] && t[i + k] == p[k]);
        }
        assert(c.subrange(0, p.len() as int) =~= p);
    }
    if text::is_at(c, p, 0) {
        assert(t.subrange(i, i + p.len()) =~= c.subrange(0, p.len() as int));
    }
}

/// What is found in a text is found in one that it stands in.
proof fn lemma_find_in(t: Seq<char>, i: int, c: Seq<char>, p: Seq<char>)
    requires
        0 <= i,
        text::is_at(t, c, i),
        text::spec_find(c, p, 0) is Some,
    ensures
        text::spec_find(t, p, i) == Some(i + text::spec_find(c, p, 0)->0),
{
    let k = text::spec_find(c, p, 0)->0;
    text::lemma_find(c, p, 0);
    text::lemma_find(t, p, i);
    assert forall|m: int| 0 <= m <= k implies text::is_at(t, p, i + m) == #[trigger] text::is_at(
        c,
        p,
        m,
    ) by {
        assert(t.subrange(i + m, i + m + p.len()) =~= t.subrange(i, i + c.len()).subrange(
            m,
            m + p.len(),
        ));
    }
    assert(text::is_at(c, p, k));
    assert(text::is_at(t, p, i + k));
    let h = text::spec_find(t, p, i)->0;
    if h < i + k {
        assert(text::is_at(c, p, h - i));
    }
}

/// How the tokens of a text go on at a piece.
pub proof fn lemma_piece_at(t: Seq<char>, i: int, c: Seq<char>)
    requires
        0 <= i,
        text::is_at(t, c, i),
        is_piece(c),
    ensures
        t[i] == '<',
        is_aside(c) ==> markup::skipped(t, i) == Some(i + c.len()),
        !is_aside(c) ==> markup::skipped(t, i) is None,
        text::is_at(t, "</"@, i) == (c[1] == '/'),
        !is_aside(c) ==> ({
            let a = name_start(c);
            let b = markup::name_end(c, a);
            &&& a < b
            &&& markup::name_end(t, i + a) == i + b
            &&& markup::tag_close(t, i + b, None) == Some(i + c.len() - 1)
            &&& t.subrange(i + a, i + b) == c.subrange(a, b)
        }),
{
    lemma_ends(c);
    reveal(is_piece);
    reveal_strlit("<!--");
    reveal_strlit("<![CDATA[");
    reveal_strlit("<?");
    reveal_strlit("<!");
    reveal_strlit("</");
    reveal_strlit("-->");
    reveal_strlit("]]>");
    reveal_strlit("?>");
    assert forall|k: int| 0 <= k < c.len() implies t[i + k] == #[trigger] c[k] by {
        assert(t.subrange(i, i + c.len())[k] == c[k]);
    }
    assert(t[i + 0] == c[0] && t[i + 1] == c[1]);
    lemma_at_start(t, i, c, "<!--"@);
    lemma_at_start(t, i, c, "<![CDATA["@);
    lemma_at_start(t, i, c, "<?"@);
    lemma_at_start(t, i, c, "<!"@);
    lemma_at_start(t, i, c, "</"@);
    assert(text::is_at(c, "</"@, 0) == (c[1] == '/')) by {
        if c[1] == '/' {
            assert(c.subrange(0, 2) =~= "</"@);
        }
        if text::is_at(c, "</"@, 0) {
            assert(c.subrange(0, 2)[1] == '/');
        }
    }
    let n = c.len() as int;
    if is_aside(c) {
        if c[1] == '!' {
            assert(c.subrange(0, 2) =~= "<!"@);
        } else {
            assert(c.subrange(0, 2) =~= "<?"@);
        }
        if text::is_at(c, "<!--"@, 0) {
            lemma_find_in(t, i, c, "-->"@);
        } else if text::is_at(c, "<![CDATA["@, 0) {
            lemma_find_in(t, i, c, "]]>"@);
        } else if text::is_at(c, "<?"@, 0) {
            lemma_find_in(t, i, c, "?>"@);
        } else {
            text::lemma_find_char(c, '>', 0);
            text::lemma_find_char(t, '>', i);
            assert(t[i + (n - 1)] == '>');
            let g = text::spec_find_char(t, '>', i)->0;
            if g < i + n - 1 {
                assert(t[i + (g - i)] == c[g - i]);
            }
        }
    } else {
        reading::lemma_not_skipped(t, i);
        let a = name_start(c);
        lemma_name_end_in(t, i, c, a);
        let b = markup::name_end(c, a);
        lemma_tag_close_in(t, i, c, b, None);
        assert(t.subrange(i + a, i + b) =~= c.subrange(a, b));
    }
}

/// The piece that a text starts with.
pub proof fn lemma_piece_first(t: Seq<char>, c: Seq<char>)
    requires
        text::is_at(t, c, 0),
        is_piece(c),
    ensures
        piece_len(t) == c.len(),
        piece(t) == c,
        t[0] == '<',
        t[1] == c[1],
        tail(t) == from(t, c.len() as int),
{
    reveal(piece_len);
    lemma_ends(c);
    lemma_piece_at(t, 0, c);
    assert(t.subrange(0, c.len() as int)[1] == t[1]);
}

// ---------------------------------------------------------------- the reader

/// The text behind a tag that ends at `e`, as the reader of a package document
/// takes it.
spec fn behind_at(t: Seq<char>, e: int) -> Seq<char> {
    let v = markup::tokens_from(t, e, e);
    if v.len() > 0 {
        match v[0] {
            Token::Text { start, end } => text::spec_trim(
                markup::spec_unescape(t.subrange(start, end)),
            ),
            _ => Seq::empty(),
        }
    } else {
        Seq::empty()
    }
}

/// What reading the package document `t` makes of its tags.
spec fn opf_step(t: Seq<char>) -> Step<Opf> {
    |start: int, end: int, name: Seq<char>, closing: bool, p: Opf|
        if closing {
            p
        } else {
            opf::tag_met(p, name, t.subrange(start, end), behind_at(t, end))
        }
}

proof fn lemma_opf_fold(t: Seq<char>, k: int)
    requires
        0 <= k <= markup::spec_tokens(t).len(),
    ensures
        ({
            let v = markup::spec_tokens(t);
            reading::fold_from(v, k, opf::met(t, v, k), opf_step(t)) == opf::met(
                t,
                v,
                v.len() as int,
            )
        }),
    decreases markup::spec_tokens(t).len() - k,
{
    let v = markup::spec_tokens(t);
    if k < v.len() {
        lemma_opf_fold(t, k + 1);
        if v[k] is Tag {
            reading::lemma_behind(t, 0, 0, k);
            let e = v[k].end();
            let rest = markup::tokens_from(t, e, e);
            assert(rest.len() == v.len() - k - 1);
            if rest.len() > 0 {
                assert(rest[0] == v[k + 1]);
            }
            assert(opf::text_behind(t, v, k) == behind_at(t, e));
        }
    }
}

/// The first token from `i` on is the text up to the next tag.
proof fn lemma_lead(t: Seq<char>, i: int, a: int)
    requires
        0 <= a <= i <= t.len(),
        is_tidy(from(t, i)),
    ensures
        ({
            let v = markup::tokens_from(t, i, a);
            let n = i - a + lead(from(t, i)).len();
            &&& a + n <= t.len()
            &&& t.subrange(i, a + n) == lead(from(t, i))
            &&& n == 0 ==> v.len() == 0 || v[0] is Tag
            &&& n > 0 ==> v.len() > 0 && v[0] == (Token::Text { start: a, end: a + n })
        }),
    decreases t.len() - i,
{
    reveal(is_piece);
    let s = from(t, i);
    if i < t.len() {
        lemma_tidy_tail(s);
        assert(s[0] == t[i]);
        if t[i] != '<' {
            assert(tail(s) =~= from(t, i + 1));
            lemma_lead(t, i + 1, a);
            let n = lead(from(t, i + 1)).len();
            assert(t.subrange(i, i + 1 + n) =~= seq![s[0]] + t.subrange(i + 1, i + 1 + n));
        } else {
            let c = piece(s);
            assert(t.subrange(i, i + c.len()) =~= c);
            lemma_piece_at(t, i, c);
            assert(s[1] == c[1]);
            let k = i + c.len();
            if is_aside(c) {
                assert(tail(s) =~= from(t, k));
                lemma_lead(t, k, a);
                let n = lead(from(t, k)).len();
                assert(t.subrange(i, k + n) =~= c + t.subrange(k, k + n));
            } else {
                let v = markup::tokens_from(t, i, a);
                assert(lead(s).len() == 0);
                assert(t.subrange(i, i) =~= lead(s));
                if a < i {
                    assert(v[0] == (Token::Text { start: a, end: i }));
                }
            }
        }
    } else {
        assert(s.len() == 0);
        assert(t.subrange(i, i) =~= lead(s));
    }
}

proof fn lemma_read(t: Seq<char>, i: int, p: Opf)
    requires
        0 <= i <= t.len(),
        is_tidy(from(t, i)),
    ensures
        reading::read_on(t, i, p, opf_step(t)) == read(from(t, i), p),
    decreases t.len() - i,
{
    reveal(is_piece);
    let s = from(t, i);
    if i < t.len() {
        lemma_tidy_tail(s);
        assert(s[0] == t[i]);
        if t[i] != '<' {
            assert(tail(s) =~= from(t, i + 1));
            lemma_read(t, i + 1, p);
        } else {
            let c = piece(s);
            assert(t.subrange(i, i + c.len()) =~= c);
            lemma_piece_at(t, i, c);
            assert(s[1] == c[1]);
            let k = i + c.len();
            assert(tail(s) =~= from(t, k));
            if is_aside(c) {
                lemma_read(t, k, p);
            } else {
                let q = if c[1] == '/' {
                    p
                } else {
                    lemma_lead(t, k, k);
                    lemma_unescape_none();
                    let n = lead(from(t, k)).len();
                    if n == 0 {
                        assert(lead(from(t, k)) =~= Seq::empty());
                    }
                    assert(behind_at(t, k) == behind(from(t, k)));
                    opf::tag_met(p, piece_name(c), c, behind(from(t, k)))
                };
                lemma_read(t, k, q);
            }
        }
    }
}

proof fn lemma_unescape_none()
    ensures
        text::spec_trim(markup::spec_unescape(Seq::empty())) == Seq::<char>::empty(),
{
    let none = Seq::<char>::empty();
    assert(markup::spec_unescape(none) =~= none);
    assert(text::spec_trim(none) =~= none);
}

/// The state of a reader before it reads.
pub open spec fn unread() -> Opf {
    Opf {
        package: false,
        version: Seq::empty(),
        uid: None,
        items: Seq::empty(),
        spine: Seq::empty(),
        toc: None,
        title: None,
        language: None,
        authors: Seq::empty(),
        publisher: None,
        date: None,
        identifiers: Seq::empty(),
    }
}

/// A tidy package document is read piece by piece.
pub proof fn lemma_opf(t: Seq<char>)
    requires
        is_tidy(t),
    ensures
        opf::opf_of(t) == read(t, unread()),
{
    let v = markup::spec_tokens(t);
    lemma_opf_fold(t, 0);
    reading::lemma_read_on(t, 0, 0, unread(), opf_step(t));
    assert(from(t, 0) =~= t);
    lemma_read(t, 0, unread());
}

// ---------------------------------------------------------------- what is told

/// The element is one whose text a package document is read for.
#[verifier::opaque]
pub open spec fn is_field(name: Seq<char>) -> bool {
    name == "title"@ || name == "language"@ || name == "creator"@ || name == "publisher"@ || name
        == "date"@ || name == "identifier"@
}

/// The name of a start tag, without its prefix.
pub open spec fn local(c: Seq<char>) -> Seq<char> {
    opf::spec_local(piece_name(c))
}

/// The fields that `s` tells: of each its name and its text.
pub open spec fn told(s: Seq<char>) -> Seq<(Seq<char>, Seq<char>)>
    decreases s.len(),
    via told_shrinks
{
    if s.len() == 0 {
        Seq::empty()
    } else if s[0] == '<' && is_start(s) && is_field(local(piece(s))) {
        seq![(local(piece(s)), behind(tail(s)))] + told(tail(s))
    } else {
        told(tail(s))
    }
}

#[via_fn]
proof fn told_shrinks(s: Seq<char>) {
    if s.len() > 0 {
        lemma_tail(s);
    }
}

/// The ids that the `itemref` tags of `s` refer to.
pub open spec fn refs(s: Seq<char>) -> Seq<Seq<char>>
    decreases s.len(),
    via refs_shrinks
{
    if s.len() == 0 {
        Seq::empty()
    } else if s[0] == '<' && is_start(s) && local(piece(s)) == "itemref"@ {
        match opf::spec_attr(piece(s), "idref"@) {
            Some(id) => seq![id] + refs(tail(s)),
            None => refs(tail(s)),
        }
    } else {
        refs(tail(s))
    }
}

#[via_fn]
proof fn refs_shrinks(s: Seq<char>) {
    if s.len() > 0 {
        lemma_tail(s);
    }
}

/// A package tag stands in `s`.
pub open spec fn has_package(s: Seq<char>) -> bool
    decreases s.len(),
    via has_package_shrinks
{
    s.len() > 0 && ((s[0] == '<' && is_start(s) && local(piece(s)) == "package"@) || has_package(
        tail(s),
    ))
}

#[via_fn]
proof fn has_package_shrinks(s: Seq<char>) {
    if s.len() > 0 {
        lemma_tail(s);
    }
}

/// The text of the first field of the name.
pub open spec fn first_told(v: Seq<(Seq<char>, Seq<char>)>, name: Seq<char>) -> Option<Seq<char>>
    decreases v.len(),
{
    if v.len() == 0 {
        None
    } else if v[0].0 == name {
        Some(v[0].1)
    } else {
        first_told(v.drop_first(), name)
    }
}

/// The texts of the fields of the name.
pub open spec fn all_told(v: Seq<(Seq<char>, Seq<char>)>, name: Seq<char>) -> Seq<Seq<char>>
    decreases v.len(),
{
    if v.len() == 0 {
        Seq::empty()
    } else if v[0].0 == name {
        seq![v[0].1] + all_told(v.drop_first(), name)
    } else {
        all_told(v.drop_first(), name)
    }
}

pub open spec fn or_else(a: Option<Seq<char>>, b: Option<Seq<char>>) -> Option<Seq<char>> {
    match a {
        Some(x) => Some(x),
        None => b,
    }
}

pub proof fn lemma_names_differ()
    ensures
        "title"@ != "language"@,
        "title"@ != "creator"@,
        "title"@ != "publisher"@,
        "title"@ != "date"@,
        "title"@ != "identifier"@,
        "title"@ != "package"@,
        "title"@ != "item"@,
        "title"@ != "spine"@,
        "title"@ != "itemref"@,
        "language"@ != "package"@,
        "language"@ != "item"@,
        "language"@ != "spine"@,
        "language"@ != "itemref"@,
        "language"@ != "creator"@,
        "language"@ != "publisher"@,
        "language"@ != "date"@,
        "creator"@ != "package"@,
        "creator"@ != "item"@,
        "creator"@ != "spine"@,
        "creator"@ != "itemref"@,
        "creator"@ != "publisher"@,
        "creator"@ != "date"@,
        "publisher"@ != "package"@,
        "publisher"@ != "item"@,
        "publisher"@ != "spine"@,
        "publisher"@ != "itemref"@,
        "publisher"@ != "date"@,
        "date"@ != "package"@,
        "date"@ != "item"@,
        "date"@ != "spine"@,
        "date"@ != "itemref"@,
        "identifier"@ != "package"@,
        "identifier"@ != "item"@,
        "identifier"@ != "spine"@,
        "identifier"@ != "itemref"@,
        "identifier"@ != "creator"@,
        "identifier"@ != "publisher"@,
        "identifier"@ != "date"@,
        "identifier"@ != "language"@,
        "itemref"@ != "package"@,
        "itemref"@ != "item"@,
        "itemref"@ != "spine"@,
        "item"@ != "package"@,
        "spine"@ != "package"@,
        "spine"@ != "item"@,
{
    reveal_strlit("title");
    reveal_strlit("language");
    reveal_strlit("creator");
    reveal_strlit("publisher");
    reveal_strlit("date");
    reveal_strlit("identifier");
    reveal_strlit("package");
    reveal_strlit("item");
    reveal_strlit("spine");
    reveal_strlit("itemref");
    assert("title"@[0] == 't' && "language"@[0] == 'l' && "creator"@[0] == 'c' && "publisher"@[0]
        == 'p' && "date"@[0] == 'd' && "identifier"@[0] == 'i' && "package"@[0] == 'p' && "item"@[0]
        == 'i' && "spine"@[0] == 's' && "itemref"@[0] == 'i');
    assert("publisher"@[1] == 'u' && "package"@[1] == 'a');
    assert("identifier"@.len() == 10 && "item"@.len() == 4 && "itemref"@.len() == 7);
}

/// What a reader takes from a tidy text.
pub proof fn lemma_read_told(s: Seq<char>, p: Opf)
    requires
        is_tidy(s),
    ensures
        ({
            let r = read(s, p);
            let v = told(s);
            &&& r.title == or_else(p.title, first_told(v, "title"@))
            &&& r.language == or_else(p.language, first_told(v, "language"@))
            &&& r.publisher == or_else(p.publisher, first_told(v, "publisher"@))
            &&& r.date == or_else(p.date, first_told(v, "date"@))
            &&& r.authors == p.authors + all_told(v, "creator"@)
            &&& r.spine == p.spine + refs(s)
            &&& r.package == (p.package || has_package(s))
        }),
    decreases s.len(),
{
    lemma_names_differ();
    reveal(is_field);
    if s.len() == 0 {
        assert(p.authors + Seq::<Seq<char>>::empty() =~= p.authors);
        assert(p.spine + Seq::<Seq<char>>::empty() =~= p.spine);
    } else {
        lemma_tail(s);
        lemma_tidy_tail(s);
        let rest = tail(s);
        if s[0] == '<' && is_start(s) {
            let n = local(piece(s));
            let b = behind(rest);
            let q = opf::tag_met(p, piece_name(piece(s)), piece(s), b);
            lemma_read_told(rest, q);
            let w = told(rest);
            if is_field(n) {
                let v = seq![(n, b)] + w;
                assert(told(s) == v);
                assert(v.drop_first() =~= w);
                assert(v[0] == (n, b));
            }
            if n == "creator"@ {
                assert(p.authors.push(b) + all_told(w, "creator"@) =~= p.authors + (seq![b]
                    + all_told(w, "creator"@)));
            }
            if n == "itemref"@ {
                if let Some(id) = opf::spec_attr(piece(s), "idref"@) {
                    assert(p.spine.push(id) + refs(rest) =~= p.spine + (seq![id] + refs(rest)));
                }
            }
        } else {
            lemma_read_told(rest, p);
        }
    }
}

// ---------------------------------------------------------------- texts put together

pub proof fn lemma_join_tail(x: Seq<char>, y: Seq<char>)
    requires
        is_tidy(x),
        x.len() > 0,
    ensures
        (x + y)[0] == x[0],
        tail(x + y) == tail(x) + y,
        x[0] == '<' ==> piece(x + y) == piece(x) && (x + y)[1] == x[1] && x.len() >= 3,
{
    lemma_tidy_tail(x);
    lemma_tail(x);
    if x[0] == '<' {
        let c = piece(x);
        assert((x + y).subrange(0, c.len() as int) =~= c);
        lemma_piece_first(x + y, c);
    }
    assert(tail(x + y) =~= tail(x) + y);
}

/// Tidy texts, put together, are tidy.
pub proof fn lemma_tidy_join(x: Seq<char>, y: Seq<char>)
    requires
        is_tidy(x),
        is_tidy(y),
    ensures
        is_tidy(x + y),
    decreases x.len(),
{
    if x.len() == 0 {
        assert(x + y =~= y);
    } else {
        lemma_tail(x);
        lemma_tidy_tail(x);
        lemma_join_tail(x, y);
        lemma_tidy_join(tail(x), y);
        reveal(is_tidy);
    }
}

/// `k` stands between two pieces, or in text.
pub open spec fn is_cut(t: Seq<char>, k: int) -> bool
    decreases t.len(),
    via is_cut_shrinks
{
    k == 0 || (0 < k <= t.len() && t.len() - tail(t).len() <= k && is_cut(
        tail(t),
        k - (t.len() - tail(t).len()),
    ))
}

#[via_fn]
proof fn is_cut_shrinks(t: Seq<char>, k: int) {
    if t.len() > 0 {
        lemma_tail(t);
    }
}

/// A tidy text, cut between its pieces, is tidy on both sides.
pub proof fn lemma_tidy_cut(t: Seq<char>, k: int)
    requires
        is_tidy(t),
        is_cut(t, k),
    ensures
        0 <= k <= t.len(),
        is_tidy(t.subrange(0, k)),
        is_tidy(from(t, k)),
        t == t.subrange(0, k) + from(t, k),
    decreases t.len(),
{
    let x = t.subrange(0, k);
    assert(t =~= x + from(t, k));
    reveal(is_tidy);
    if k == 0 {
        assert(from(t, 0) =~= t);
    } else {
        lemma_tail(t);
        lemma_tidy_tail(t);
        let r = tail(t);
        let d = t.len() - r.len();
        lemma_tidy_cut(r, k - d);
        assert(from(r, k - d) =~= from(t, k));
        assert(x[0] == t[0]);
        if t[0] == '<' {
            let c = piece(t);
            assert(x.subrange(0, c.len() as int) =~= c);
            lemma_piece_first(x, c);
        }
        assert(tail(x) =~= r.subrange(0, k - d));
    }
}

/// The end of a start is between pieces, and what is between pieces of the rest is
/// so of the whole.
pub proof fn lemma_cut_join(x: Seq<char>, y: Seq<char>, k: int)
    requires
        is_tidy(x),
        is_cut(y, k),
    ensures
        is_cut(x + y, x.len() + k),
    decreases x.len(),
{
    if x.len() == 0 {
        assert(x + y =~= y);
    } else {
        lemma_tail(x);
        lemma_tidy_tail(x);
        lemma_join_tail(x, y);
        lemma_cut_join(tail(x), y, k);
        lemma_cut_range(y, k);
    }
}

pub proof fn lemma_cut_range(t: Seq<char>, k: int)
    requires
        is_cut(t, k),
    ensures
        0 <= k <= t.len(),
{
}

/// A cut of a text is one of its rest.
pub proof fn lemma_cut_from(t: Seq<char>, e: int, x: int)
    requires
        is_cut(t, e),
        is_cut(t, x),
        e <= x,
    ensures
        is_cut(from(t, e), x - e),
    decreases t.len(),
{
    if e == 0 {
        assert(from(t, 0) =~= t);
    } else {
        lemma_tail(t);
        let d = t.len() - tail(t).len();
        lemma_cut_from(tail(t), e - d, x - d);
        assert(from(tail(t), e - d) =~= from(t, e));
    }
}

/// A text without `<` is tidy, and tells nothing.
pub proof fn lemma_plain(s: Seq<char>)
    requires
        !s.contains('<'),
    ensures
        is_tidy(s),
        told(s).len() == 0,
        refs(s).len() == 0,
        !has_package(s),
        lead(s) == s,
    decreases s.len(),
{
    reveal(is_tidy);
    assert forall|x: int| 0 <= x < s.len() implies #[trigger] s[x] != '<' by {
        assert(s.contains(s[x]));
    }
    if s.len() > 0 {
        let r = tail(s);
        assert forall|x: int| 0 <= x < r.len() implies #[trigger] r[x] != '<' by {
            assert(r[x] == s[x + 1]);
        }
        lemma_plain(r);
        assert(seq![s[0]] + r =~= s);
    } else {
        assert(lead(s) =~= s);
    }
}

/// A tag stands in `s`.
pub open spec fn has_tag(s: Seq<char>) -> bool
    decreases s.len(),
    via has_tag_shrinks
{
    s.len() > 0 && ((s[0] == '<' && !is_aside(s)) || has_tag(tail(s)))
}

#[via_fn]
proof fn has_tag_shrinks(s: Seq<char>) {
    if s.len() > 0 {
        lemma_tail(s);
    }
}

pub proof fn lemma_lead_join(x: Seq<char>, y: Seq<char>)
    requires
        is_tidy(x),
    ensures
        has_tag(x) ==> lead(x + y) == lead(x),
        !has_tag(x) ==> lead(x) == x && lead(x + y) == x + lead(y),
    decreases x.len(),
{
    if x.len() == 0 {
        assert(x + y =~= y);
        assert(lead(x) =~= x);
        assert(x + lead(y) =~= lead(y));
    } else {
        lemma_tail(x);
        lemma_tidy_tail(x);
        lemma_join_tail(x, y);
        lemma_lead_join(tail(x), y);
        if x[0] != '<' {
            assert(seq![x[0]] + tail(x) =~= x);
            assert(seq![x[0]] + (tail(x) + lead(y)) =~= (seq![x[0]] + tail(x)) + lead(y));
        } else if is_aside(x) {
            assert(piece(x) + tail(x) =~= x);
            assert(piece(x) + (tail(x) + lead(y)) =~= (piece(x) + tail(x)) + lead(y));
        }
    }
}

/// The text of every field that `s` tells ends in it.
pub open spec fn is_settled(s: Seq<char>) -> bool
    decreases s.len(),
    via is_settled_shrinks
{
    s.len() == 0 || (is_settled(tail(s)) && (s[0] == '<' && is_start(s) && is_field(local(piece(s)))
        ==> has_tag(tail(s))))
}

#[via_fn]
proof fn is_settled_shrinks(s: Seq<char>) {
    if s.len() > 0 {
        lemma_tail(s);
    }
}

/// What two texts tell together.
pub proof fn lemma_told_join(x: Seq<char>, y: Seq<char>)
    requires
        is_tidy(x),
        is_settled(x),
    ensures
        told(x + y) == told(x) + told(y),
        is_settled(y) ==> is_settled(x + y),
    decreases x.len(),
{
    if x.len() == 0 {
        assert(x + y =~= y);
        assert(told(x) + told(y) =~= told(y));
    } else {
        lemma_tail(x);
        lemma_tidy_tail(x);
        lemma_join_tail(x, y);
        lemma_told_join(tail(x), y);
        lemma_lead_join(tail(x), y);
        lemma_has_tag_join(tail(x), y);
        if x[0] == '<' && is_start(x) && is_field(local(piece(x))) {
            let h = seq![(local(piece(x)), behind(tail(x)))];
            assert(h + (told(tail(x)) + told(y)) =~= (h + told(tail(x))) + told(y));
        }
    }
}

pub proof fn lemma_has_tag_join(x: Seq<char>, y: Seq<char>)
    requires
        is_tidy(x),
    ensures
        has_tag(x + y) == (has_tag(x) || has_tag(y)),
    decreases x.len(),
{
    if x.len() == 0 {
        assert(x + y =~= y);
    } else {
        lemma_tail(x);
        lemma_tidy_tail(x);
        lemma_join_tail(x, y);
        lemma_has_tag_join(tail(x), y);
    }
}

/// What two texts refer to together.
pub proof fn lemma_refs_join(x: Seq<char>, y: Seq<char>)
    requires
        is_tidy(x),
    ensures
        refs(x + y) == refs(x) + refs(y),
        has_package(x + y) == (has_package(x) || has_package(y)),
    decreases x.len(),
{
    if x.len() == 0 {
        assert(x + y =~= y);
        assert(refs(x) + refs(y) =~= refs(y));
    } else {
        lemma_tail(x);
        lemma_tidy_tail(x);
        lemma_join_tail(x, y);
        lemma_refs_join(tail(x), y);
        if x[0] == '<' && is_start(x) && local(piece(x)) == "itemref"@ {
            if let Some(id) = opf::spec_attr(piece(x), "idref"@) {
                assert(seq![id] + (refs(tail(x)) + refs(y)) =~= (seq![id] + refs(tail(x))) + refs(
                    y,
                ));
            }
        }
    }
}

pub proof fn lemma_first_told_join(
    v: Seq<(Seq<char>, Seq<char>)>,
    w: Seq<(Seq<char>, Seq<char>)>,
    name: Seq<char>,
)
    ensures
        first_told(v + w, name) == or_else(first_told(v, name), first_told(w, name)),
        all_told(v + w, name) == all_told(v, name) + all_told(w, name),
    decreases v.len(),
{
    if v.len() == 0 {
        assert(v + w =~= w);
        assert(all_told(v, name) + all_told(w, name) =~= all_told(w, name));
    } else {
        assert((v + w).drop_first() =~= v.drop_first() + w);
        assert((v + w)[0] == v[0]);
        lemma_first_told_join(v.drop_first(), w, name);
        if v[0].0 == name {
            let h = seq![v[0].1];
            let a = all_told(v.drop_first(), name);
            let b = all_told(w, name);
            assert(h + (a + b) =~= (h + a) + b);
        }
    }
}

pub proof fn lemma_first_all(v: Seq<(Seq<char>, Seq<char>)>, name: Seq<char>)
    ensures
        first_told(v, name) is None <==> all_told(v, name).len() == 0,
    decreases v.len(),
{
    if v.len() > 0 {
        lemma_first_all(v.drop_first(), name);
    }
}

/// The piece `q` stands in `s`.
pub open spec fn has_piece(s: Seq<char>, q: Seq<char>) -> bool
    decreases s.len(),
    via has_piece_shrinks
{
    s.len() > 0 && ((s[0] == '<' && piece(s) == q) || has_piece(tail(s), q))
}

#[via_fn]
proof fn has_piece_shrinks(s: Seq<char>, q: Seq<char>) {
    if s.len() > 0 {
        lemma_tail(s);
    }
}

pub proof fn lemma_has_piece_join(x: Seq<char>, y: Seq<char>, q: Seq<char>)
    requires
        is_tidy(x),
    ensures
        has_piece(x + y, q) == (has_piece(x, q) || has_piece(y, q)),
    decreases x.len(),
{
    if x.len() == 0 {
        assert(x + y =~= y);
    } else {
        lemma_tail(x);
        lemma_tidy_tail(x);
        lemma_join_tail(x, y);
        lemma_has_piece_join(tail(x), y, q);
    }
}

/// A piece that stands in a text is found in it.
pub proof fn lemma_has_piece(s: Seq<char>, q: Seq<char>) -> (k: int)
    requires
        is_tidy(s),
        has_piece(s, q),
    ensures
        text::is_at(s, q, k),
    decreases s.len(),
{
    lemma_tail(s);
    lemma_tidy_tail(s);
    if s[0] == '<' && piece(s) == q {
        assert(s.subrange(0, q.len() as int) =~= q);
        0
    } else {
        let k = lemma_has_piece(tail(s), q);
        let d = s.len() - tail(s).len();
        assert(s.subrange(d + k, d + k + q.len()) =~= tail(s).subrange(k, k + q.len()));
        d + k
    }
}

} // verus!
