//! Reading and editing XHTML source text in place.
//!
//! `tokens`, `attributes`, `offset_of`, `body_span` and `content_properties`
//! read it; `set_attr` and `rewrite_tags` edit it. Positions in a text count
//! its characters; only `offset_of` counts bytes of its UTF-8 form.
use vstd::prelude::*;

use crate::text;
use crate::text::{
    ascii_alnum, ascii_white, at_str, chars_of, ends_str, find, find_char, find_str, has_char,
    has_str, is, lowered, put, put_str, replace_str, starts_str, str_is, string_of, strings_of,
    trim, trim_end, trim_end_char, trim_start, trim_start_char, words,
};

verus! {

/// An element that never has content.
pub open spec fn spec_is_void(name: Seq<char>) -> bool {
    ||| name == "area"@
    ||| name == "base"@
    ||| name == "br"@
    ||| name == "col"@
    ||| name == "embed"@
    ||| name == "hr"@
    ||| name == "img"@
    ||| name == "input"@
    ||| name == "link"@
    ||| name == "meta"@
    ||| name == "param"@
    ||| name == "source"@
    ||| name == "track"@
    ||| name == "wbr"@
}

/// An element that never has content.
pub fn is_void(name: &str) -> (r: bool)
    ensures
        r == spec_is_void(name@),
{
    str_is(name, "area") || str_is(name, "base") || str_is(name, "br") || str_is(name, "col") || str_is(name, "embed") || str_is(name, "hr") || str_is(name, "img") || str_is(name, "input") || str_is(name, "link") || str_is(name, "meta") || str_is(name, "param") || str_is(name, "source") || str_is(name, "track") || str_is(name, "wbr")
}

/// An element that stands on lines of its own.
pub open spec fn spec_is_block(name: Seq<char>) -> bool {
    ||| name == "address"@
    ||| name == "article"@
    ||| name == "aside"@
    ||| name == "blockquote"@
    ||| name == "body"@
    ||| name == "caption"@
    ||| name == "col"@
    ||| name == "colgroup"@
    ||| name == "dd"@
    ||| name == "details"@
    ||| name == "dialog"@
    ||| name == "div"@
    ||| name == "dl"@
    ||| name == "dt"@
    ||| name == "fieldset"@
    ||| name == "figcaption"@
    ||| name == "figure"@
    ||| name == "footer"@
    ||| name == "form"@
    ||| name == "h1"@
    ||| name == "h2"@
    ||| name == "h3"@
    ||| name == "h4"@
    ||| name == "h5"@
    ||| name == "h6"@
    ||| name == "head"@
    ||| name == "header"@
    ||| name == "hgroup"@
    ||| name == "hr"@
    ||| name == "html"@
    ||| name == "legend"@
    ||| name == "li"@
    ||| name == "link"@
    ||| name == "main"@
    ||| name == "menu"@
    ||| name == "meta"@
    ||| name == "nav"@
    ||| name == "ol"@
    ||| name == "optgroup"@
    ||| name == "option"@
    ||| name == "p"@
    ||| name == "pre"@
    ||| name == "script"@
    ||| name == "section"@
    ||| name == "select"@
    ||| name == "style"@
    ||| name == "summary"@
    ||| name == "table"@
    ||| name == "tbody"@
    ||| name == "td"@
    ||| name == "tfoot"@
    ||| name == "th"@
    ||| name == "thead"@
    ||| name == "title"@
    ||| name == "tr"@
    ||| name == "ul"@
}

/// An element that stands on lines of its own.
pub fn is_block(name: &str) -> (r: bool)
    ensures
        r == spec_is_block(name@),
{
    str_is(name, "address") || str_is(name, "article") || str_is(name, "aside") || str_is(name, "blockquote") || str_is(name, "body") || str_is(name, "caption") || str_is(name, "col") || str_is(name, "colgroup") || str_is(name, "dd") || str_is(name, "details") || str_is(name, "dialog") || str_is(name, "div") || str_is(name, "dl") || str_is(name, "dt") || str_is(name, "fieldset") || str_is(name, "figcaption") || str_is(name, "figure") || str_is(name, "footer") || str_is(name, "form") || str_is(name, "h1") || str_is(name, "h2") || str_is(name, "h3") || str_is(name, "h4") || str_is(name, "h5") || str_is(name, "h6") || str_is(name, "head") || str_is(name, "header") || str_is(name, "hgroup") || str_is(name, "hr") || str_is(name, "html") || str_is(name, "legend") || str_is(name, "li") || str_is(name, "link") || str_is(name, "main") || str_is(name, "menu") || str_is(name, "meta") || str_is(name, "nav") || str_is(name, "ol") || str_is(name, "optgroup") || str_is(name, "option") || str_is(name, "p") || str_is(name, "pre") || str_is(name, "script") || str_is(name, "section") || str_is(name, "select") || str_is(name, "style") || str_is(name, "summary") || str_is(name, "table") || str_is(name, "tbody") || str_is(name, "td") || str_is(name, "tfoot") || str_is(name, "th") || str_is(name, "thead") || str_is(name, "title") || str_is(name, "tr") || str_is(name, "ul")
}

/// An element whose content is kept letter for letter.
pub open spec fn spec_is_verbatim(name: Seq<char>) -> bool {
    ||| name == "pre"@
    ||| name == "textarea"@
    ||| name == "script"@
    ||| name == "style"@
    ||| name == "svg"@
    ||| name == "math"@
}

/// An element whose content is kept letter for letter.
pub fn is_verbatim(name: &str) -> (r: bool)
    ensures
        r == spec_is_verbatim(name@),
{
    str_is(name, "pre") || str_is(name, "textarea") || str_is(name, "script") || str_is(name, "style") || str_is(name, "svg") || str_is(name, "math")
}

// ---------------------------------------------------------------- escaping

/// `&`, `<` and `>` written as entities.
pub open spec fn spec_escape_text(s: Seq<char>) -> Seq<char> {
    text::spec_replace(
        text::spec_replace(text::spec_replace(s, "&"@, "&amp;"@), "<"@, "&lt;"@),
        ">"@,
        "&gt;"@,
    )
}

/// `&`, `<`, `>` and `"` written as entities.
pub open spec fn spec_escape_attr(s: Seq<char>) -> Seq<char> {
    text::spec_replace(spec_escape_text(s), "\""@, "&quot;"@)
}

/// XML-escapes text content.
pub fn escape_text(s: &str) -> (r: String)
    ensures
        r@ == spec_escape_text(s@),
{
    proof {
        reveal_strlit("&");
        reveal_strlit("<");
        reveal_strlit(">");
    }
    let a = replace_str(&chars_of(s), "&", "&amp;");
    let b = replace_str(&a, "<", "&lt;");
    string_of(&replace_str(&b, ">", "&gt;"))
}

/// XML-escapes an attribute value.
pub fn escape_attr(s: &str) -> (r: String)
    ensures
        r@ == spec_escape_attr(s@),
{
    proof {
        reveal_strlit("\"");
    }
    let t = escape_text(s);
    string_of(&replace_str(&chars_of(&t), "\"", "&quot;"))
}

/// The entities of `escape_attr`, and `&apos;` and `&#39;`, read back.
pub open spec fn spec_unescape(s: Seq<char>) -> Seq<char> {
    if !s.contains('&') {
        s
    } else {
        let a = text::spec_replace(s, "&lt;"@, "<"@);
        let b = text::spec_replace(a, "&gt;"@, ">"@);
        let c = text::spec_replace(b, "&quot;"@, "\""@);
        let d = text::spec_replace(c, "&apos;"@, "'"@);
        let e = text::spec_replace(d, "&#39;"@, "'"@);
        text::spec_replace(e, "&amp;"@, "&"@)
    }
}

/// Reads the entities that an attribute value is written with.
pub fn unescape(s: &str) -> (r: String)
    ensures
        r@ == spec_unescape(s@),
{
    let t = chars_of(s);
    if !has_char(&t, '&') {
        return string_of(&t);
    }
    proof {
        reveal_strlit("&lt;");
        reveal_strlit("&gt;");
        reveal_strlit("&quot;");
        reveal_strlit("&apos;");
        reveal_strlit("&#39;");
        reveal_strlit("&amp;");
    }
    let a = replace_str(&t, "&lt;", "<");
    let b = replace_str(&a, "&gt;", ">");
    let c = replace_str(&b, "&quot;", "\"");
    let d = replace_str(&c, "&apos;", "'");
    let e = replace_str(&d, "&#39;", "'");
    string_of(&replace_str(&e, "&amp;", "&"))
}

// ---------------------------------------------------------------- tokens

/// A run of text, or a tag. Comments, CDATA sections, processing instructions
/// and declarations belong to the text around them.
pub enum Tok {
    Text { start: usize, end: usize },
    Tag { start: usize, end: usize, name: String, closing: bool, self_closing: bool },
}

/// What a `Tok` says.
#[verifier::ext_equal]
pub enum Token {
    Text { start: int, end: int },
    Tag { start: int, end: int, name: Seq<char>, closing: bool, self_closing: bool },
}

impl View for Tok {
    type V = Token;

    open spec fn view(&self) -> Token {
        match *self {
            Tok::Text { start, end } => Token::Text { start: start as int, end: end as int },
            Tok::Tag { start, end, name, closing, self_closing } => Token::Tag {
                start: start as int,
                end: end as int,
                name: name@,
                closing,
                self_closing,
            },
        }
    }
}

impl Token {
    pub open spec fn start(self) -> int {
        match self {
            Token::Text { start, .. } => start,
            Token::Tag { start, .. } => start,
        }
    }

    pub open spec fn end(self) -> int {
        match self {
            Token::Text { end, .. } => end,
            Token::Tag { end, .. } => end,
        }
    }
}

/// What a list of `Tok` says.
pub open spec fn toks(v: Seq<Tok>) -> Seq<Token> {
    v.map_values(|t: Tok| t@)
}

/// A character that a tag's name can hold.
pub open spec fn name_char(c: char) -> bool {
    text::is_ascii_alnum(c) || c == ':' || c == '-' || c == '_'
}

/// The end of the name that starts at `i`.
pub open spec fn name_end(t: Seq<char>, i: int) -> int
    decreases t.len() - i,
{
    if 0 <= i < t.len() && name_char(t[i]) {
        name_end(t, i + 1)
    } else {
        i
    }
}

/// The position of the `>` that ends a tag, outside its quoted values.
pub open spec fn tag_close(t: Seq<char>, i: int, quote: Option<char>) -> Option<int>
    decreases t.len() - i,
{
    if i < 0 || i >= t.len() {
        None
    } else {
        match quote {
            Some(q) => tag_close(t, i + 1, if t[i] == q { None } else { quote }),
            None => if t[i] == '>' {
                Some(i)
            } else if t[i] == '"' || t[i] == '\'' {
                tag_close(t, i + 1, Some(t[i]))
            } else {
                tag_close(t, i + 1, None)
            },
        }
    }
}

/// The end of the comment, CDATA section, processing instruction or declaration
/// that starts at `i`.
pub open spec fn skipped(t: Seq<char>, i: int) -> Option<int> {
    if text::is_at(t, "<!--"@, i) {
        plus(text::spec_find(t, "-->"@, i), 3)
    } else if text::is_at(t, "<![CDATA["@, i) {
        plus(text::spec_find(t, "]]>"@, i), 3)
    } else if text::is_at(t, "<?"@, i) {
        plus(text::spec_find(t, "?>"@, i), 2)
    } else if text::is_at(t, "<!"@, i) {
        plus(text::spec_find_char(t, '>', i), 1)
    } else {
        None
    }
}

pub open spec fn plus(p: Option<int>, n: int) -> Option<int> {
    match p {
        Some(k) => Some(k + n),
        None => None,
    }
}

/// The text from `a` to `b` as a token, if there is any.
pub open spec fn text_token(a: int, b: int) -> Seq<Token> {
    if a < b {
        seq![Token::Text { start: a, end: b }]
    } else {
        Seq::empty()
    }
}

/// The tokens of `t` from `i` on, when the text before `i` starts at `from`.
pub open spec fn tokens_from(t: Seq<char>, i: int, from: int) -> Seq<Token>
    decreases t.len() - i,
{
    if i < 0 || i >= t.len() {
        text_token(from, t.len() as int)
    } else if t[i] != '<' {
        tokens_from(t, i + 1, from)
    } else {
        match skipped(t, i) {
            Some(e) if i < e <= t.len() => tokens_from(t, e, from),
            _ => {
                let closing = text::is_at(t, "</"@, i);
                let a = if closing {
                    i + 2
                } else {
                    i + 1
                };
                let b = name_end(t, a);
                if b <= a {
                    tokens_from(t, i + 1, from)
                } else {
                    match tag_close(t, b, None) {
                        Some(j) if i < j < t.len() => text_token(from, i) + seq![
                            Token::Tag {
                                start: i,
                                end: j + 1,
                                name: text::spec_lower(t.subrange(a, b)),
                                closing,
                                self_closing: t[j - 1] == '/',
                            },
                        ] + tokens_from(t, j + 1, j + 1),
                        _ => text_token(from, t.len() as int),
                    }
                }
            },
        }
    }
}

/// The tags of `t` and the text between them.
pub open spec fn spec_tokens(t: Seq<char>) -> Seq<Token> {
    tokens_from(t, 0, 0)
}

/// The tokens follow one another from `a` to `b` without gap or overlap.
pub open spec fn tiles(v: Seq<Token>, a: int, b: int) -> bool {
    &&& v.len() == 0 ==> a == b
    &&& v.len() > 0 ==> v[0].start() == a && v.last().end() == b
    &&& forall|i: int| 0 <= i < v.len() ==> (#[trigger] v[i]).start() < v[i].end()
    &&& forall|i: int|
        0 <= i < v.len() - 1 ==> (#[trigger] v[i]).end() == v[i + 1].start()
}

proof fn lemma_name_end(t: Seq<char>, i: int)
    requires
        0 <= i <= t.len(),
    ensures
        i <= name_end(t, i) <= t.len(),
    decreases t.len() - i,
{
    if i < t.len() && name_char(t[i]) {
        lemma_name_end(t, i + 1);
    }
}

pub proof fn lemma_tag_close(t: Seq<char>, i: int, quote: Option<char>)
    ensures
        tag_close(t, i, quote) matches Some(j) ==> i <= j < t.len() && t[j] == '>',
    decreases t.len() - i,
{
    if i < 0 || i >= t.len() {
    } else {
        match quote {
            Some(q) => lemma_tag_close(t, i + 1, if t[i] == q { None } else { quote }),
            None => if t[i] == '>' {
            } else if t[i] == '"' || t[i] == '\'' {
                lemma_tag_close(t, i + 1, Some(t[i]));
            } else {
                lemma_tag_close(t, i + 1, None);
            },
        }
    }
}

pub proof fn lemma_skipped(t: Seq<char>, i: int)
    requires
        0 <= i < t.len(),
    ensures
        skipped(t, i) matches Some(e) ==> i < e <= t.len(),
{
    reveal_strlit("-->");
    reveal_strlit("]]>");
    reveal_strlit("?>");
    text::lemma_find(t, "-->"@, i);
    text::lemma_find(t, "]]>"@, i);
    text::lemma_find(t, "?>"@, i);
    text::lemma_find_char(t, '>', i);
}

proof fn lemma_tiles_cons(a: Seq<Token>, b: Seq<Token>, x: int, y: int, z: int)
    requires
        tiles(a, x, y),
        tiles(b, y, z),
    ensures
        tiles(a + b, x, z),
{
    let v = a + b;
    assert forall|i: int| 0 <= i < v.len() - 1 implies (#[trigger] v[i]).end() == v[i
        + 1].start() by {
        if i < a.len() - 1 {
            assert(v[i] == a[i] && v[i + 1] == a[i + 1]);
        } else if i == a.len() - 1 {
            assert(v[i] == a.last() && v[i + 1] == b[0]);
        } else {
            assert(v[i] == b[i - a.len()] && v[i + 1] == b[i + 1 - a.len()]);
        }
    }
    assert(a.len() > 0 ==> v[0] == a[0]);
    assert(a.len() == 0 ==> v =~= b);
    assert(b.len() == 0 ==> v =~= a);
    assert(b.len() > 0 ==> v.last() == b.last());
}

proof fn lemma_tokens_tile_from(t: Seq<char>, i: int, from: int)
    requires
        0 <= from <= i <= t.len(),
    ensures
        tiles(tokens_from(t, i, from), from, t.len() as int),
    decreases t.len() - i,
{
    if i >= t.len() {
    } else if t[i] != '<' {
        lemma_tokens_tile_from(t, i + 1, from);
    } else {
        lemma_skipped(t, i);
        match skipped(t, i) {
            Some(e) if i < e <= t.len() => {
                lemma_tokens_tile_from(t, e, from);
            },
            _ => {
                reveal_strlit("</");
                let closing = text::is_at(t, "</"@, i);
                let a = if closing {
                    i + 2
                } else {
                    i + 1
                };
                lemma_name_end(t, a);
                let b = name_end(t, a);
                if b <= a {
                    lemma_tokens_tile_from(t, i + 1, from);
                } else {
                    lemma_tag_close(t, b, None);
                    match tag_close(t, b, None) {
                        Some(j) if i < j < t.len() => {
                            let tag = Token::Tag {
                                start: i,
                                end: j + 1,
                                name: text::spec_lower(t.subrange(a, b)),
                                closing,
                                self_closing: t[j - 1] == '/',
                            };
                            lemma_tokens_tile_from(t, j + 1, j + 1);
                            lemma_tiles_cons(text_token(from, i), seq![tag], from, i, j + 1);
                            lemma_tiles_cons(
                                text_token(from, i) + seq![tag],
                                tokens_from(t, j + 1, j + 1),
                                from,
                                j + 1,
                                t.len() as int,
                            );
                        },
                        _ => {},
                    }
                }
            },
        }
    }
}

/// The tokens of a text cover all of it, in order, without gap or overlap.
pub proof fn tokens_tile_the_text(t: Seq<char>)
    ensures
        tiles(spec_tokens(t), 0, t.len() as int),
{
    lemma_tokens_tile_from(t, 0, 0);
}

/// The text of the tokens `v`, one after the other.
pub open spec fn token_text(t: Seq<char>, v: Seq<Token>) -> Seq<char>
    decreases v.len(),
{
    if v.len() == 0 {
        Seq::empty()
    } else {
        t.subrange(v[0].start(), v[0].end()) + token_text(t, v.drop_first())
    }
}

proof fn lemma_token_text(t: Seq<char>, v: Seq<Token>, a: int)
    requires
        0 <= a <= t.len(),
        tiles(v, a, t.len() as int),
    ensures
        token_text(t, v) == t.subrange(a, t.len() as int),
    decreases v.len(),
{
    if v.len() > 0 {
        let w = v.drop_first();
        assert forall|i: int| 0 <= i < w.len() - 1 implies (#[trigger] w[i]).end() == w[i
            + 1].start() by {
            assert(w[i] == v[i + 1] && w[i + 1] == v[i + 2]);
            assert(v[i + 1].end() == v[i + 2].start());
        }
        if w.len() > 0 {
            assert(v[0].end() == v[1].start());
            assert(w.last() == v.last());
            lemma_tiles_bound(w, v[0].end(), t.len() as int);
        }
        assert(tiles(w, v[0].end(), t.len() as int));
        lemma_token_text(t, w, v[0].end());
        assert(t.subrange(a, v[0].end()) + t.subrange(v[0].end(), t.len() as int) =~= t.subrange(
            a,
            t.len() as int,
        ));
    }
}

pub proof fn lemma_tiles_bound(v: Seq<Token>, a: int, b: int)
    requires
        tiles(v, a, b),
    ensures
        a <= b,
        forall|i: int| 0 <= i < v.len() ==> a <= (#[trigger] v[i]).start() && v[i].end() <= b,
    decreases v.len(),
{
    if v.len() > 0 {
        let w = v.drop_last();
        assert forall|i: int| 0 <= i < w.len() - 1 implies (#[trigger] w[i]).end() == w[i
            + 1].start() by {
            assert(w[i] == v[i] && w[i + 1] == v[i + 1]);
        }
        assert(w.len() > 0 ==> v[v.len() - 2].end() == v[v.len() - 2 + 1].start());
        assert(tiles(w, a, v.last().start()));
        lemma_tiles_bound(w, a, v.last().start());
        assert forall|i: int| 0 <= i < v.len() implies a <= (#[trigger] v[i]).start() && v[i].end()
            <= b by {
            if i < v.len() - 1 {
                assert(v[i] == w[i]);
            }
        }
    }
}

/// Writing the tokens of a text one after the other gives the text back.
pub proof fn tokens_spell_the_text(t: Seq<char>)
    ensures
        token_text(t, spec_tokens(t)) == t,
{
    tokens_tile_the_text(t);
    lemma_token_text(t, spec_tokens(t), 0);
    assert(t.subrange(0, t.len() as int) =~= t);
}

proof fn lemma_toks_push(v: Seq<Tok>, x: Tok)
    ensures
        toks(v.push(x)) == toks(v).push(x@),
{
    assert(toks(v.push(x)) =~= toks(v).push(x@));
}

fn skip_from(t: &[char], i: usize) -> (r: Option<usize>)
    requires
        i < t@.len(),
    ensures
        text::pos(r) == skipped(t@, i as int),
        r matches Some(e) ==> i < e <= t@.len(),
{
    proof {
        lemma_skipped(t@, i as int);
        reveal_strlit("-->");
        reveal_strlit("]]>");
        reveal_strlit("?>");
    }
    let n = t.len();
    if at_str(t, "<!--", i) {
        match find_str(t, "-->", i) {
            Some(k) => Some(k + 3),
            None => None,
        }
    } else if at_str(t, "<![CDATA[", i) {
        match find_str(t, "]]>", i) {
            Some(k) => Some(k + 3),
            None => None,
        }
    } else if at_str(t, "<?", i) {
        match find_str(t, "?>", i) {
            Some(k) => Some(k + 2),
            None => None,
        }
    } else if at_str(t, "<!", i) {
        match find_char(t, '>', i) {
            Some(k) => Some(k + 1),
            None => None,
        }
    } else {
        None
    }
}

fn close_from(t: &[char], from: usize) -> (r: Option<usize>)
    requires
        from <= t@.len(),
    ensures
        text::pos(r) == tag_close(t@, from as int, None),
        r matches Some(j) ==> from <= j < t@.len(),
{
    let mut j: usize = from;
    let mut quote: Option<char> = None;
    while j < t.len()
        invariant
            from <= j <= t@.len(),
            tag_close(t@, from as int, None) == tag_close(t@, j as int, quote),
        decreases t@.len() - j,
    {
        let c = t[j];
        match quote {
            Some(q) => {
                if c == q {
                    quote = None;
                }
            },
            None => {
                if c == '>' {
                    return Some(j);
                }
                if c == '"' || c == '\'' {
                    quote = Some(c);
                }
            },
        }
        j = j + 1;
    }
    None
}

fn name_from(t: &[char], from: usize) -> (r: usize)
    requires
        from <= t@.len(),
    ensures
        r == name_end(t@, from as int),
        from <= r <= t@.len(),
{
    let mut j: usize = from;
    while j < t.len() && (ascii_alnum(t[j]) || t[j] == ':' || t[j] == '-' || t[j] == '_')
        invariant
            from <= j <= t@.len(),
            name_end(t@, from as int) == name_end(t@, j as int),
        decreases t@.len() - j,
    {
        j = j + 1;
    }
    j
}

/// The tags of `text` and the text between them.
pub fn tokens(text: &str) -> (r: Vec<Tok>)
    ensures
        toks(r@) == spec_tokens(text@),
{
    let t = chars_of(text);
    tokens_of(&t)
}

/// The tags of `t` and the text between them.
pub fn tokens_of(t: &[char]) -> (r: Vec<Tok>)
    ensures
        toks(r@) == spec_tokens(t@),
{
    let n = t.len();
    let mut out: Vec<Tok> = Vec::new();
    let mut i: usize = 0;
    let mut from: usize = 0;
    while i < n
        invariant_except_break
            n == t@.len(),
            from <= i <= n,
            toks(out@) + tokens_from(t@, i as int, from as int) == spec_tokens(t@),
        ensures
            n == t@.len(),
            from <= n,
            toks(out@) + text_token(from as int, n as int) == spec_tokens(t@),
        decreases n - i,
    {
        if t[i] != '<' {
            i = i + 1;
            continue;
        }
        if let Some(e) = skip_from(t, i) {
            i = e;
            continue;
        }
        proof {
            reveal_strlit("</");
        }
        let closing = at_str(t, "</", i);
        let a: usize = if closing {
            i + 2
        } else {
            i + 1
        };
        let b = name_from(t, a);
        if b == a {
            i = i + 1;
            continue;
        }
        let j = match close_from(t, b) {
            Some(j) => j,
            None => {
                break;
            },
        };
        let ghost before = toks(out@);
        let ghost rest = tokens_from(t@, j + 1, j + 1);
        if from < i {
            proof {
                lemma_toks_push(out@, Tok::Text { start: from, end: i });
            }
            out.push(Tok::Text { start: from, end: i });
        }
        assert(toks(out@) =~= before + text_token(from as int, i as int));
        let name = string_of(&lowered(&t[a..b]));
        let tag = Tok::Tag { start: i, end: j + 1, name, closing, self_closing: t[j - 1] == '/' };
        proof {
            lemma_toks_push(out@, tag);
        }
        let ghost tv = tag@;
        out.push(tag);
        assert(before + (text_token(from as int, i as int) + seq![tv] + rest) =~= toks(out@)
            + rest);
        i = j + 1;
        from = j + 1;
    }
    if from < n {
        proof {
            lemma_toks_push(out@, Tok::Text { start: from, end: n });
        }
        out.push(Tok::Text { start: from, end: n });
    }
    assert(toks(out@) =~= spec_tokens(t@));
    out
}

// ---------------------------------------------------------------- attributes

/// A character before which an attribute can start.
pub open spec fn at_boundary(tag: Seq<char>, p: int) -> bool {
    0 < p <= tag.len() && text::is_ascii_white(tag[p - 1])
}

/// The value that follows `needle` at the first attribute boundary from `from`
/// on where it is quoted. An unfinished value ends the search.
pub open spec fn value_from(tag: Seq<char>, needle: Seq<char>, from: int) -> Option<Seq<char>>
    decreases tag.len() - from,
{
    match text::spec_find(tag, needle, from) {
        Some(p) if needle.len() > 0 && from <= p && p + needle.len() <= tag.len() => {
            let a = p + needle.len();
            if p == 0 || at_boundary(tag, p) {
                if a >= tag.len() {
                    None
                } else if tag[a] == '"' || tag[a] == '\'' {
                    match text::spec_find_char(tag, tag[a], a + 1) {
                        Some(e) => Some(tag.subrange(a + 1, e)),
                        None => None,
                    }
                } else {
                    value_from(tag, needle, a)
                }
            } else {
                value_from(tag, needle, a)
            }
        },
        _ => None,
    }
}

/// The value of `name="…"` or `name='…'` in a start tag, at an attribute
/// boundary: `type` is not found inside `epub:type`.
pub open spec fn spec_attr_value(tag: Seq<char>, name: Seq<char>) -> Option<Seq<char>> {
    value_from(tag, name.push('='), 0)
}

/// The value of `name="…"` or `name='…'` in a start tag, at an attribute
/// boundary: `type` is not found inside `epub:type`.
pub fn attr_value(tag: &str, name: &str) -> (r: Option<String>)
    ensures
        text::opt_str(r) == spec_attr_value(tag@, name@),
{
    let t = chars_of(tag);
    let mut needle = chars_of(name);
    needle.push('=');
    let n = t.len();
    let mut from: usize = 0;
    loop
        invariant
            n == t@.len(),
            t@ == tag@,
            needle@ == name@.push('='),
            from <= n,
            spec_attr_value(tag@, name@) == value_from(t@, needle@, from as int),
        decreases n - from,
    {
        match find(&t, &needle, from) {
            None => {
                return None;
            },
            Some(p) => {
                let a = p + needle.len();
                if p == 0 || ascii_white(t[p - 1]) {
                    if a >= n {
                        return None;
                    }
                    let q = t[a];
                    if q == '"' || q == '\'' {
                        return match find_char(&t, q, a + 1) {
                            Some(e) => Some(string_of(&t[a + 1..e])),
                            None => None,
                        };
                    }
                }
                from = a;
            },
        }
    }
}

/// The place of a quoted value that follows `needle`: where `needle` starts, and
/// where the value starts and ends.
pub open spec fn slot_from(tag: Seq<char>, needle: Seq<char>, from: int) -> Option<(int, int, int)>
    decreases tag.len() - from,
{
    match text::spec_find(tag, needle, from) {
        Some(p) if needle.len() > 0 && from <= p && p + needle.len() <= tag.len() => {
            let a = p + needle.len();
            if at_boundary(tag, p) && a < tag.len() && (tag[a] == '"' || tag[a] == '\'')
                && text::spec_find_char(tag, tag[a], a + 1) is Some {
                Some((p, a + 1, text::spec_find_char(tag, tag[a], a + 1)->0))
            } else {
                slot_from(tag, needle, a)
            }
        },
        _ => None,
    }
}

/// `tag` with its attribute `name` set to `value`: replaced where it stands,
/// added at the end where it does not, taken out with the space before it where
/// there is no value.
pub open spec fn spec_set_attr(
    tag: Seq<char>,
    name: Seq<char>,
    value: Option<Seq<char>>,
) -> Seq<char> {
    match (slot_from(tag, name.push('='), 0), value) {
        (Some((p, a, b)), Some(v)) => tag.subrange(0, a) + spec_escape_attr(v) + tag.subrange(
            b,
            tag.len() as int,
        ),
        (Some((p, a, b)), None) => text::spec_trim_end(tag.subrange(0, p)) + tag.subrange(
            b + 1,
            tag.len() as int,
        ),
        (None, None) => tag,
        (None, Some(v)) => {
            let body = text::spec_trim_end_char(tag, '>');
            let written = " "@ + name + "=\""@ + spec_escape_attr(v) + "\""@;
            if text::spec_ends(body, "/"@) {
                text::spec_trim_end(body.drop_last()) + written + "/>"@
            } else {
                body + written + ">"@
            }
        },
    }
}

fn slot_of(t: &[char], needle: &[char]) -> (r: Option<(usize, usize, usize)>)
    requires
        needle@.len() > 0,
    ensures
        match (r, slot_from(t@, needle@, 0)) {
            (Some((p, a, b)), Some((x, y, z))) => p == x && a == y && b == z,
            (None, None) => true,
            _ => false,
        },
        r matches Some((p, a, b)) ==> p <= a <= b < t@.len(),
{
    let n = t.len();
    let mut from: usize = 0;
    loop
        invariant
            n == t@.len(),
            needle@.len() > 0,
            from <= n,
            slot_from(t@, needle@, 0) == slot_from(t@, needle@, from as int),
        decreases n - from,
    {
        match find(t, needle, from) {
            None => {
                return None;
            },
            Some(p) => {
                let a = p + needle.len();
                if p > 0 && ascii_white(t[p - 1]) && a < n && (t[a] == '"' || t[a] == '\'') {
                    if let Some(e) = find_char(t, t[a], a + 1) {
                        return Some((p, a + 1, e));
                    }
                }
                from = a;
            },
        }
    }
}

/// `tag` with its attribute `name` set to `value`, or without it.
pub fn set_attr(tag: &str, name: &str, value: Option<&str>) -> (r: String)
    ensures
        r@ == spec_set_attr(
            tag@,
            name@,
            match value {
                Some(v) => Some(v@),
                None => None,
            },
        ),
{
    let t = chars_of(tag);
    let n = t.len();
    let mut needle = chars_of(name);
    needle.push('=');
    let mut out: Vec<char> = Vec::new();
    match slot_of(&t, &needle) {
        Some((p, a, b)) => {
            match value {
                Some(v) => {
                    put(&mut out, &t[0..a]);
                    put_str(&mut out, &escape_attr(v));
                    put(&mut out, &t[b..n]);
                },
                None => {
                    put(&mut out, trim_end(&t[0..p]));
                    put(&mut out, &t[b + 1..n]);
                },
            }
        },
        None => {
            match value {
                None => {
                    put(&mut out, &t);
                },
                Some(v) => {
                    let body = trim_end_char(&t, '>');
                    proof {
                        reveal_strlit("/");
                    }
                    let slash = ends_str(body, "/");
                    if slash {
                        put(&mut out, trim_end(&body[0..body.len() - 1]));
                    } else {
                        put(&mut out, body);
                    }
                    let ghost head = out@;
                    put_str(&mut out, " ");
                    put_str(&mut out, name);
                    put_str(&mut out, "=\"");
                    put_str(&mut out, &escape_attr(v));
                    put_str(&mut out, "\"");
                    assert(out@ =~= head + (" "@ + name@ + "=\""@ + spec_escape_attr(v@) + "\""@));
                    if slash {
                        put_str(&mut out, "/>");
                    } else {
                        put_str(&mut out, ">");
                    }
                },
            }
        },
    }
    string_of(&out)
}

/// The classes that a tag gives its element.
pub open spec fn spec_class_list(tag: Seq<char>) -> Seq<Seq<char>> {
    match spec_attr_value(tag, "class"@) {
        Some(c) => text::spec_words(c),
        None => Seq::empty(),
    }
}

/// The classes that a tag gives its element.
pub fn class_list(tag: &str) -> (r: Vec<String>)
    ensures
        text::strs(r@) == spec_class_list(tag@),
{
    match attr_value(tag, "class") {
        Some(c) => strings_of(&words(&chars_of(&c))),
        None => {
            let v: Vec<String> = Vec::new();
            assert(text::strs(v@) =~= Seq::<Seq<char>>::empty());
            v
        },
    }
}

/// An attribute as it is written in a tag, its value unescaped.
pub struct Attr {
    pub name: String,
    pub value: String,
}

/// What a list of attributes says: names and values.
pub open spec fn attrs(v: Seq<Attr>) -> Seq<(Seq<char>, Seq<char>)> {
    v.map_values(|a: Attr| (a.name@, a.value@))
}

/// The first position from `i` on that holds `=` or ASCII white space, or the
/// end; with `eq` off, white space alone counts.
pub open spec fn stop_at(s: Seq<char>, eq: bool, i: int) -> int
    decreases s.len() - i,
{
    if 0 <= i < s.len() && !(eq && s[i] == '=') && !text::is_ascii_white(s[i]) {
        stop_at(s, eq, i + 1)
    } else {
        i
    }
}

pub proof fn lemma_stop_at(s: Seq<char>, eq: bool, i: int)
    requires
        0 <= i <= s.len(),
    ensures
        i <= stop_at(s, eq, i) <= s.len(),
    decreases s.len() - i,
{
    if i < s.len() && !(eq && s[i] == '=') && !text::is_ascii_white(s[i]) {
        lemma_stop_at(s, eq, i + 1);
    }
}

pub proof fn lemma_trim_start(s: Seq<char>)
    ensures
        text::spec_trim_start(s).len() <= s.len(),
        text::spec_trim_start(s).len() > 0 ==> !text::is_white(text::spec_trim_start(s)[0]),
{
    text::lemma_skip_white(s, 0);
    lemma_skip_white_stop(s, 0);
}

proof fn lemma_skip_white_stop(s: Seq<char>, i: int)
    requires
        0 <= i <= s.len(),
    ensures
        text::skip_white(s, i) < s.len() ==> !text::is_white(s[text::skip_white(s, i)]),
    decreases s.len() - i,
{
    if i < s.len() && text::is_white(s[i]) {
        lemma_skip_white_stop(s, i + 1);
    }
}

/// The value that starts `s`, and what follows it: up to the closing quote where
/// it is quoted, up to white space where it is not.
pub open spec fn value_and_tail(s: Seq<char>) -> (Seq<char>, Seq<char>) {
    if s.len() > 0 && (s[0] == '"' || s[0] == '\'') {
        match text::spec_find_char(s, s[0], 1) {
            Some(e) => (s.subrange(1, e), s.subrange(e + 1, s.len() as int)),
            None => (s.subrange(1, s.len() as int), Seq::empty()),
        }
    } else {
        let e = stop_at(s, false, 0);
        (s.subrange(0, e), s.subrange(e, s.len() as int))
    }
}

/// The attributes written in `s`, the inside of a tag behind its name.
pub open spec fn attributes_in(s: Seq<char>) -> Seq<(Seq<char>, Seq<char>)>
    decreases s.len(),
{
    let r = text::spec_trim_start(s);
    if r.len() == 0 {
        Seq::empty()
    } else {
        let e = stop_at(r, true, 0);
        let name = r.subrange(0, e);
        let r2 = text::spec_trim_start(r.subrange(e, r.len() as int));
        proof {
            lemma_trim_start(s);
            lemma_stop_at(r, true, 0);
            lemma_stop_at(r, true, 1);
            lemma_trim_start(r.subrange(e, r.len() as int));
        }
        if r2.len() > 0 && r2[0] == '=' {
            let r3 = text::spec_trim_start(r2.subrange(1, r2.len() as int));
            let (value, tail) = value_and_tail(r3);
            proof {
                lemma_trim_start(r2.subrange(1, r2.len() as int));
                lemma_value_and_tail(r3);
            }
            seq![(name, spec_unescape(value))] + attributes_in(tail)
        } else {
            seq![(name, Seq::<char>::empty())] + attributes_in(r2)
        }
    }
}

pub proof fn lemma_value_and_tail(s: Seq<char>)
    ensures
        value_and_tail(s).1.len() <= s.len(),
{
    text::lemma_find_char(s, s[0], 1);
    lemma_stop_at(s, false, 0);
}

/// The inside of a tag: without `<` and `/` before it and `/` and `>` behind.
pub open spec fn tag_inside(tag: Seq<char>) -> Seq<char> {
    let a = text::spec_trim_start_char(text::spec_trim_start_char(tag, '<'), '/');
    text::spec_trim_end_char(text::spec_trim_end_char(a, '>'), '/')
}

/// The attributes of a tag, in order.
pub open spec fn spec_attributes(tag: Seq<char>) -> Seq<(Seq<char>, Seq<char>)> {
    let inside = tag_inside(tag);
    attributes_in(inside.subrange(stop_at(inside, false, 0), inside.len() as int))
}

fn stop_from(s: &[char], eq: bool) -> (r: usize)
    ensures
        r == stop_at(s@, eq, 0),
        r <= s@.len(),
{
    let mut i: usize = 0;
    while i < s.len() && !(eq && s[i] == '=') && !ascii_white(s[i])
        invariant
            i <= s@.len(),
            stop_at(s@, eq, 0) == stop_at(s@, eq, i as int),
        decreases s@.len() - i,
    {
        i = i + 1;
    }
    i
}

proof fn lemma_attrs_push(v: Seq<Attr>, x: Attr)
    ensures
        attrs(v.push(x)) == attrs(v).push((x.name@, x.value@)),
{
    assert(attrs(v.push(x)) =~= attrs(v).push((x.name@, x.value@)));
}

/// The attributes of a tag, in order.
pub fn attributes(tag: &str) -> (r: Vec<Attr>)
    ensures
        attrs(r@) == spec_attributes(tag@),
{
    let t = chars_of(tag);
    let a = trim_start_char(trim_start_char(&t, '<'), '/');
    let inside = trim_end_char(trim_end_char(a, '>'), '/');
    let start = stop_from(inside, false);
    let mut rest: &[char] = &inside[start..inside.len()];
    let mut out: Vec<Attr> = Vec::new();
    loop
        invariant
            attrs(out@) + attributes_in(rest@) == spec_attributes(tag@),
        decreases rest@.len(),
    {
        let ghost before = attrs(out@);
        let r = trim_start(rest);
        if r.len() == 0 {
            assert(attrs(out@) =~= spec_attributes(tag@));
            return out;
        }
        let e = stop_from(r, true);
        let name = string_of(&r[0..e]);
        let r2 = trim_start(&r[e..r.len()]);
        proof {
            lemma_trim_start(rest@);
            lemma_stop_at(r@, true, 1);
            lemma_trim_start(r@.subrange(e as int, r@.len() as int));
        }
        if r2.len() == 0 || r2[0] != '=' {
            let attr = Attr { name, value: String::new() };
            proof {
                lemma_attrs_push(out@, attr);
            }
            out.push(attr);
            assert(before + (seq![(attr.name@, Seq::<char>::empty())] + attributes_in(r2@))
                =~= attrs(out@) + attributes_in(r2@));
            rest = r2;
            continue;
        }
        let r3 = trim_start(&r2[1..r2.len()]);
        proof {
            lemma_trim_start(r2@.subrange(1, r2@.len() as int));
            lemma_value_and_tail(r3@);
        }
        let value: String;
        let tail: &[char];
        if r3.len() > 0 && (r3[0] == '"' || r3[0] == '\'') {
            match find_char(r3, r3[0], 1) {
                Some(end) => {
                    value = string_of(&r3[1..end]);
                    tail = &r3[end + 1..r3.len()];
                },
                None => {
                    value = string_of(&r3[1..r3.len()]);
                    tail = &r3[0..0];
                },
            }
        } else {
            let end = stop_from(r3, false);
            value = string_of(&r3[0..end]);
            tail = &r3[end..r3.len()];
        }
        assert((value@, tail@) == value_and_tail(r3@));
        let attr = Attr { name, value: unescape(&value) };
        proof {
            lemma_attrs_push(out@, attr);
        }
        out.push(attr);
        assert(before + (seq![(attr.name@, attr.value@)] + attributes_in(tail@)) =~= attrs(out@)
            + attributes_in(tail@));
        rest = tail;
    }
}

// ---------------------------------------------------------------- rewriting

/// A change to start tags: what a tag becomes, or nothing where it stays.
pub trait TagEdit {
    spec fn edited(&self, name: Seq<char>, tag: Seq<char>) -> Option<Seq<char>>;

    fn edit(&self, name: &str, tag: &str) -> (r: Option<String>)
        ensures
            text::opt_str(r) == self.edited(name@, tag@),
    ;
}

/// What a token becomes: a start tag that `f` changes is replaced, and everything
/// else is kept.
pub open spec fn token_rewritten(
    f: spec_fn(Seq<char>, Seq<char>) -> Option<Seq<char>>,
    t: Seq<char>,
    k: Token,
) -> Seq<char> {
    let raw = t.subrange(k.start(), k.end());
    match k {
        Token::Tag { name, closing, .. } if !closing => match f(name, raw) {
            Some(new) => new,
            None => raw,
        },
        _ => raw,
    }
}

/// What the first `n` of the tokens `v` become.
pub open spec fn tokens_rewritten(
    f: spec_fn(Seq<char>, Seq<char>) -> Option<Seq<char>>,
    t: Seq<char>,
    v: Seq<Token>,
    n: int,
) -> Seq<char>
    decreases n,
{
    if n <= 0 {
        Seq::empty()
    } else {
        tokens_rewritten(f, t, v, n - 1) + token_rewritten(f, t, v[n - 1])
    }
}

/// `t` with each start tag that `f` changes replaced; `f` is given the name and
/// the source of a tag.
pub open spec fn spec_rewrite_tags(
    f: spec_fn(Seq<char>, Seq<char>) -> Option<Seq<char>>,
    t: Seq<char>,
) -> Seq<char> {
    tokens_rewritten(f, t, spec_tokens(t), spec_tokens(t).len() as int)
}

/// The edit as a function.
pub open spec fn edit_fn<E: TagEdit>(e: &E) -> spec_fn(Seq<char>, Seq<char>) -> Option<Seq<char>> {
    |name: Seq<char>, tag: Seq<char>| e.edited(name, tag)
}

/// `text` with each start tag that the edit changes replaced.
pub fn rewrite_tags<E: TagEdit>(text: &str, e: &E) -> (r: String)
    ensures
        r@ == spec_rewrite_tags(edit_fn(e), text@),
{
    let t = chars_of(text);
    let v = tokens_of(&t);
    proof {
        tokens_tile_the_text(t@);
        lemma_tiles_bound(spec_tokens(t@), 0, t@.len() as int);
    }
    let mut out: Vec<char> = Vec::new();
    let mut i: usize = 0;
    while i < v.len()
        invariant
            i <= v@.len(),
            toks(v@) == spec_tokens(t@),
            t@ == text@,
            forall|k: int|
                0 <= k < v@.len() ==> 0 <= (#[trigger] toks(v@)[k]).start() && toks(v@)[k].end()
                    <= t@.len() && toks(v@)[k].start() < toks(v@)[k].end(),
            out@ == tokens_rewritten(edit_fn(e), t@, toks(v@), i as int),
        decreases v@.len() - i,
    {
        let ghost k = toks(v@)[i as int];
        assert(k == v@[i as int]@);
        match &v[i] {
            Tok::Text { start, end } => {
                put(&mut out, &t[*start..*end]);
            },
            Tok::Tag { start, end, name, closing, .. } => {
                let raw = string_of(&t[*start..*end]);
                let new = if *closing {
                    None
                } else {
                    e.edit(name, &raw)
                };
                match new {
                    Some(s) => put_str(&mut out, &s),
                    None => put_str(&mut out, &raw),
                }
            },
        }
        i = i + 1;
    }
    string_of(&out)
}

/// An edit that changes no tag of a text gives the text back.
pub proof fn rewrite_without_edits_is_identity(
    f: spec_fn(Seq<char>, Seq<char>) -> Option<Seq<char>>,
    t: Seq<char>,
)
    requires
        forall|name: Seq<char>, tag: Seq<char>| (#[trigger] f(name, tag)) is None,
    ensures
        spec_rewrite_tags(f, t) == t,
{
    tokens_spell_the_text(t);
    lemma_rewritten_none(f, t, spec_tokens(t), spec_tokens(t).len() as int);
    let v = spec_tokens(t);
    assert(v.take(v.len() as int) =~= v);
}

proof fn lemma_rewritten_none(
    f: spec_fn(Seq<char>, Seq<char>) -> Option<Seq<char>>,
    t: Seq<char>,
    v: Seq<Token>,
    n: int,
)
    requires
        0 <= n <= v.len(),
        forall|name: Seq<char>, tag: Seq<char>| (#[trigger] f(name, tag)) is None,
    ensures
        tokens_rewritten(f, t, v, n) == token_text(t, v.take(n)),
    decreases n,
{
    if n > 0 {
        lemma_rewritten_none(f, t, v, n - 1);
        lemma_token_text_push(t, v.take(n - 1), v[n - 1]);
        assert(v.take(n) =~= v.take(n - 1).push(v[n - 1]));
    }
}

pub proof fn lemma_token_text_push(t: Seq<char>, v: Seq<Token>, k: Token)
    ensures
        token_text(t, v.push(k)) == token_text(t, v) + t.subrange(k.start(), k.end()),
    decreases v.len(),
{
    let w = v.push(k);
    if v.len() == 0 {
        assert(w.drop_first() =~= Seq::<Token>::empty());
        assert(token_text(t, w.drop_first()) =~= Seq::<char>::empty());
    } else {
        assert(w.drop_first() =~= v.drop_first().push(k));
        lemma_token_text_push(t, v.drop_first(), k);
    }
}

// ---------------------------------------------------------------- positions

/// The start of the line that is `more` lines below the one that starts at `i`.
pub open spec fn line_from(t: Seq<char>, i: int, more: int) -> Option<int>
    decreases more,
{
    if more <= 0 {
        Some(i)
    } else {
        match text::spec_find_char(t, '\n', i) {
            Some(k) => line_from(t, k + 1, more - 1),
            None => None,
        }
    }
}

/// The position at a line and column, both counted from one; a column beyond
/// the end of its line counts as that end.
pub open spec fn spec_position_of(t: Seq<char>, line: int, col: int) -> Option<int> {
    match line_from(t, 0, line - 1) {
        Some(a) => {
            let b = match text::spec_find_char(t, '\n', a) {
                Some(k) => k,
                None => t.len() as int,
            };
            let c = if col < 1 {
                a
            } else {
                a + col - 1
            };
            Some(if c < b { c } else { b })
        },
        None => None,
    }
}

/// The number of bytes that `s` takes in UTF-8.
pub open spec fn byte_len(s: Seq<char>) -> nat {
    vstd::utf8::encode_utf8(s).len()
}

/// The byte offset at a line and column.
pub open spec fn spec_offset_of(t: Seq<char>, line: int, col: int) -> Option<int> {
    match spec_position_of(t, line, col) {
        Some(p) => Some(byte_len(t.take(p)) as int),
        None => None,
    }
}

/// The position at a line and column, both counted from one.
pub fn position_of(t: &[char], line: usize, col: usize) -> (r: Option<usize>)
    ensures
        text::pos(r) == spec_position_of(t@, line as int, col as int),
        r matches Some(p) ==> p <= t@.len(),
{
    let n = t.len();
    let mut more: usize = if line <= 1 {
        0
    } else {
        line - 1
    };
    let mut a: usize = 0;
    while more > 0
        invariant
            n == t@.len(),
            a <= n,
            line_from(t@, 0, line - 1) == line_from(t@, a as int, more as int),
        decreases more,
    {
        match find_char(t, '\n', a) {
            Some(k) => {
                a = k + 1;
            },
            None => {
                return None;
            },
        }
        more = more - 1;
    }
    let b = match find_char(t, '\n', a) {
        Some(k) => k,
        None => n,
    };
    let step: usize = if col < 1 {
        0
    } else {
        col - 1
    };
    if step < b - a {
        Some(a + step)
    } else {
        Some(b)
    }
}

pub proof fn lemma_encode_concat(a: Seq<char>, b: Seq<char>)
    ensures
        vstd::utf8::encode_utf8(a + b) == vstd::utf8::encode_utf8(a) + vstd::utf8::encode_utf8(b),
    decreases a.len(),
{
    if a.len() == 0 {
        assert(a + b =~= b);
        assert(vstd::utf8::encode_utf8(a) =~= Seq::<u8>::empty());
        assert(vstd::utf8::encode_utf8(a) + vstd::utf8::encode_utf8(b) =~= vstd::utf8::encode_utf8(
            b,
        ));
    } else {
        assert((a + b).drop_first() =~= a.drop_first() + b);
        lemma_encode_concat(a.drop_first(), b);
    }
}

/// The byte offset at a line and column, both counted from one.
pub fn offset_of(text: &str, line: usize, col: usize) -> (r: Option<usize>)
    ensures
        text::pos(r) == spec_offset_of(text@, line as int, col as int),
{
    let t = chars_of(text);
    match position_of(&t, line, col) {
        None => None,
        Some(p) => {
            let total = text.as_bytes().len();
            proof {
                assert(t@ =~= t@.take(p as int) + t@.skip(p as int));
                lemma_encode_concat(t@.take(p as int), t@.skip(p as int));
            }
            let ghost head = t@.take(p as int);
            let mut j: usize = p;
            let mut bytes: usize = 0;
            assert(head.skip(p as int) =~= Seq::<char>::empty());
            while j > 0
                invariant
                    j <= p == head.len(),
                    p <= t@.len(),
                    head == t@.take(p as int),
                    byte_len(head) <= total,
                    bytes == byte_len(head.skip(j as int)),
                decreases j,
            {
                let ch: char = t[j - 1];
                let c: u32 = ch as u32;
                let width: usize = if c <= 0x7f {
                    1
                } else if c <= 0x7ff {
                    2
                } else if c <= 0xffff {
                    3
                } else {
                    4
                };
                proof {
                    let s = head.skip(j - 1);
                    assert(s[0] == t@[j - 1]);
                    assert(s.drop_first() =~= head.skip(j as int));
                    assert(head =~= head.take(j - 1) + s);
                    lemma_encode_concat(head.take(j - 1), s);
                    vstd::utf8::char_is_scalar(ch);
                    assert(vstd::utf8::encode_scalar(ch as u32).len() == width);
                }
                bytes = bytes + width;
                j = j - 1;
            }
            assert(head.skip(0) =~= head);
            Some(bytes)
        },
    }
}

// ---------------------------------------------------------------- documents

/// The first pair of `body` tags among the tokens from `i` on, given the last
/// start tag before them: the start tag's place and the end tag's place.
pub open spec fn body_from(v: Seq<Token>, i: int, open: Option<(int, int)>) -> Option<
    (int, int, int, int),
>
    decreases v.len() - i,
{
    if i < 0 || i >= v.len() {
        None
    } else {
        match v[i] {
            Token::Tag { start, end, name, closing, .. } if name == "body"@ => if !closing {
                body_from(v, i + 1, Some((start, end)))
            } else {
                match open {
                    Some((a, b)) => Some((a, b, start, end)),
                    None => body_from(v, i + 1, open),
                }
            },
            _ => body_from(v, i + 1, open),
        }
    }
}

/// The places of the `body` start tag and end tag.
pub open spec fn spec_body_span(t: Seq<char>) -> Option<(int, int, int, int)> {
    body_from(spec_tokens(t), 0, None)
}

pub open spec fn span4(r: Option<(usize, usize, usize, usize)>) -> Option<(int, int, int, int)> {
    match r {
        Some((a, b, c, d)) => Some((a as int, b as int, c as int, d as int)),
        None => None,
    }
}

pub open spec fn span2(r: Option<(usize, usize)>) -> Option<(int, int)> {
    match r {
        Some((a, b)) => Some((a as int, b as int)),
        None => None,
    }
}

/// The places of the `body` start tag and end tag, in characters.
pub fn body_span(text: &str) -> (r: Option<(usize, usize, usize, usize)>)
    ensures
        span4(r) == spec_body_span(text@),
        r matches Some((a, b, c, d)) ==> a <= b <= c <= d <= text@.len(),
{
    let v = tokens(text);
    proof {
        tokens_tile_the_text(text@);
        lemma_tiles_bound(spec_tokens(text@), 0, text@.len() as int);
    }
    let mut open: Option<(usize, usize)> = None;
    let mut i: usize = 0;
    while i < v.len()
        invariant
            i <= v@.len(),
            toks(v@) == spec_tokens(text@),
            tiles(spec_tokens(text@), 0, text@.len() as int),
            forall|k: int|
                0 <= k < v@.len() ==> 0 <= (#[trigger] toks(v@)[k]).start() && toks(v@)[k].end()
                    <= text@.len() && toks(v@)[k].start() < toks(v@)[k].end(),
            open matches Some((a, b)) ==> a <= b && (i < v@.len() ==> b <= toks(
                v@,
            )[i as int].start()),
            body_from(toks(v@), i as int, span2(open)) == spec_body_span(text@),
        decreases v@.len() - i,
    {
        assert(toks(v@)[i as int] == v@[i as int]@);
        assert(i + 1 < v@.len() ==> toks(v@)[i as int].end() == toks(v@)[i as int + 1].start());
        if let Tok::Tag { start, end, name, closing, .. } = &v[i] {
            if str_is(name, "body") {
                if !*closing {
                    open = Some((*start, *end));
                } else if let Some((a, b)) = open {
                    return Some((a, b, *start, *end));
                }
            }
        }
        i = i + 1;
    }
    None
}

/// An address that leads out of the book.
pub open spec fn spec_is_remote(url: Seq<char>) -> bool {
    let u = text::spec_lower(text::spec_trim(url));
    text::spec_starts(u, "http://"@) || text::spec_starts(u, "https://"@) || text::spec_starts(
        u,
        "//"@,
    )
}

/// Whether an address leads out of the book.
pub fn is_remote(url: &str) -> (r: bool)
    ensures
        r == spec_is_remote(url@),
{
    let u = lowered(trim(&chars_of(url)));
    starts_str(&u, "http://") || starts_str(&u, "https://") || starts_str(&u, "//")
}

/// The source of a start tag.
pub open spec fn start_tag(k: Token) -> bool {
    match k {
        Token::Tag { closing, .. } => !closing,
        _ => false,
    }
}

pub open spec fn tag_name(k: Token) -> Seq<char> {
    match k {
        Token::Tag { name, .. } => name,
        _ => Seq::empty(),
    }
}

/// A `script` that runs: one without a type, or with a type of JavaScript.
pub open spec fn runs(tag: Seq<char>) -> bool {
    let declared = match spec_attr_value(tag, "type"@) {
        Some(k) => k,
        None => Seq::empty(),
    };
    let kind = text::spec_lower(text::spec_trim(declared));
    kind.len() == 0 || text::spec_contains(kind, "javascript"@) || text::spec_contains(
        kind,
        "ecmascript"@,
    ) || kind == "module"@
}

/// An element that loads what one of its attributes names.
pub open spec fn loads(name: Seq<char>) -> bool {
    name == "img"@ || name == "image"@ || name == "audio"@ || name == "video"@ || name == "source"@
        || name == "track"@ || name == "iframe"@ || name == "object"@ || name == "embed"@ || name
        == "script"@ || name == "link"@
}

/// An attribute that names what is loaded.
pub open spec fn refers(name: Seq<char>) -> bool {
    name == "src"@ || name == "href"@ || name == "xlink:href"@ || name == "data"@ || name
        == "poster"@
}

/// A list of attributes that names something outside the book.
pub open spec fn names_remote(v: Seq<(Seq<char>, Seq<char>)>) -> bool {
    exists|i: int| 0 <= i < v.len() && refers((#[trigger] v[i]).0) && spec_is_remote(v[i].1)
}

pub open spec fn is_svg(k: Token) -> bool {
    start_tag(k) && (tag_name(k) == "svg"@ || tag_name(k) == "svg:svg"@)
}

pub open spec fn is_math(k: Token) -> bool {
    start_tag(k) && (tag_name(k) == "math"@ || tag_name(k) == "m:math"@)
}

pub open spec fn is_scripted(t: Seq<char>, k: Token) -> bool {
    start_tag(k) && (tag_name(k) == "form"@ || tag_name(k) == "script"@ && runs(
        t.subrange(k.start(), k.end()),
    ))
}

pub open spec fn is_loading_remote(t: Seq<char>, k: Token) -> bool {
    start_tag(k) && loads(tag_name(k)) && names_remote(
        spec_attributes(t.subrange(k.start(), k.end())),
    )
}

/// One of two lists.
pub open spec fn only_if(b: bool, s: Seq<char>) -> Seq<Seq<char>> {
    if b {
        seq![s]
    } else {
        Seq::empty()
    }
}

/// The manifest properties that the content of a document asks for.
pub open spec fn spec_content_properties(t: Seq<char>) -> Seq<Seq<char>> {
    let v = spec_tokens(t);
    only_if(exists|i: int| 0 <= i < v.len() && is_svg(#[trigger] v[i]), "svg"@) + only_if(
        exists|i: int| 0 <= i < v.len() && is_math(#[trigger] v[i]),
        "mathml"@,
    ) + only_if(
        exists|i: int| 0 <= i < v.len() && is_scripted(t, #[trigger] v[i]),
        "scripted"@,
    ) + only_if(
        exists|i: int| 0 <= i < v.len() && is_loading_remote(t, #[trigger] v[i]),
        "remote-resources"@,
    )
}

/// What a list of literals says.
pub open spec fn lits(v: Seq<&'static str>) -> Seq<Seq<char>> {
    v.map_values(|s: &'static str| s@)
}

fn loads_tag(name: &str) -> (r: bool)
    ensures
        r == loads(name@),
{
    str_is(name, "img") || str_is(name, "image") || str_is(name, "audio") || str_is(name, "video")
        || str_is(name, "source") || str_is(name, "track") || str_is(name, "iframe") || str_is(
        name,
        "object",
    ) || str_is(name, "embed") || str_is(name, "script") || str_is(name, "link")
}

fn script_runs(tag: &str) -> (r: bool)
    ensures
        r == runs(tag@),
{
    let declared = match attr_value(tag, "type") {
        Some(k) => k,
        None => String::new(),
    };
    let kind = lowered(trim(&chars_of(&declared)));
    kind.len() == 0 || has_str(&kind, "javascript") || has_str(&kind, "ecmascript") || is(
        &kind,
        "module",
    )
}

fn remote_named(v: &Vec<Attr>) -> (r: bool)
    ensures
        r == names_remote(attrs(v@)),
{
    let mut i: usize = 0;
    while i < v.len()
        invariant
            i <= v@.len(),
            forall|k: int|
                0 <= k < i ==> !(refers((#[trigger] attrs(v@)[k]).0) && spec_is_remote(
                    attrs(v@)[k].1,
                )),
        decreases v@.len() - i,
    {
        let a = &v[i];
        assert(attrs(v@)[i as int] == (a.name@, a.value@));
        if (str_is(&a.name, "src") || str_is(&a.name, "href") || str_is(&a.name, "xlink:href")
            || str_is(&a.name, "data") || str_is(&a.name, "poster")) && is_remote(&a.value) {
            return true;
        }
        i = i + 1;
    }
    false
}

fn add_lit(v: &mut Vec<&'static str>, b: bool, s: &'static str)
    ensures
        lits(final(v)@) == lits(old(v)@) + only_if(b, s@),
{
    if b {
        v.push(s);
        assert(lits(v@) =~= lits(old(v)@) + only_if(b, s@));
    } else {
        assert(lits(v@) =~= lits(old(v)@) + only_if(b, s@));
    }
}

/// The manifest properties that the content of a document asks for.
pub fn content_properties(text: &str) -> (r: Vec<&'static str>)
    ensures
        lits(r@) == spec_content_properties(text@),
{
    let t = chars_of(text);
    let v = tokens_of(&t);
    proof {
        tokens_tile_the_text(t@);
        lemma_tiles_bound(spec_tokens(t@), 0, t@.len() as int);
    }
    let ghost w = spec_tokens(t@);
    let mut svg = false;
    let mut math = false;
    let mut scripted = false;
    let mut remote = false;
    let mut i: usize = 0;
    while i < v.len()
        invariant
            i <= v@.len(),
            w == spec_tokens(t@),
            toks(v@) == w,
            forall|k: int|
                0 <= k < w.len() ==> 0 <= (#[trigger] w[k]).start() && w[k].end() <= t@.len()
                    && w[k].start() < w[k].end(),
            svg == exists|k: int| 0 <= k < i && is_svg(#[trigger] w[k]),
            math == exists|k: int| 0 <= k < i && is_math(#[trigger] w[k]),
            scripted == exists|k: int| 0 <= k < i && is_scripted(t@, #[trigger] w[k]),
            remote == exists|k: int| 0 <= k < i && is_loading_remote(t@, #[trigger] w[k]),
        decreases v@.len() - i,
    {
        assert(w[i as int] == v@[i as int]@);
        if let Tok::Tag { start, end, name, closing, .. } = &v[i] {
            if !*closing {
                let tag = string_of(&t[*start..*end]);
                if str_is(name, "svg") || str_is(name, "svg:svg") {
                    svg = true;
                }
                if str_is(name, "math") || str_is(name, "m:math") {
                    math = true;
                }
                if str_is(name, "form") || (str_is(name, "script") && script_runs(&tag)) {
                    scripted = true;
                }
                if loads_tag(name) && remote_named(&attributes(&tag)) {
                    remote = true;
                }
            }
        }
        i = i + 1;
    }
    let mut out: Vec<&'static str> = Vec::new();
    assert(lits(out@) =~= Seq::<Seq<char>>::empty());
    add_lit(&mut out, svg, "svg");
    add_lit(&mut out, math, "mathml");
    add_lit(&mut out, scripted, "scripted");
    add_lit(&mut out, remote, "remote-resources");
    assert(lits(out@) =~= spec_content_properties(text@));
    out
}

} // verus!
