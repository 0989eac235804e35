//! Re-indenting XHTML and CSS. White space changes only at block boundaries,
//! where rendering collapses it.
use vstd::prelude::*;

use crate::css;
use crate::edit;
use crate::manifest;
use crate::markup;
use crate::package;
use crate::split_doc;
use crate::text;
use crate::archive::Part;
use crate::codec::bytes_of;
use crate::css::{
    BlockItem, BlockPart, CssKind, Kind, block_items, collapse_space, item_of, split_top_level,
};
use crate::edit::{Changes, EpubPackage, Log};
use crate::error::{Error, ErrorKind, Fault, refuse_named};
use crate::manifest::{Listed, MemberRole, members};
use crate::markup::{Tok, Token, is_block, is_verbatim, is_void, tokens_of};
use crate::package::member_text;
use crate::text::{
    add_text, ascii_trim, ascii_trim_end, ascii_trim_start, ascii_white, chars_of, decimal_of,
    ends_str, find_char, find_str, has_char, join, put, put_str, split, starts_str, str_is,
    string_of, trim, trim_start,
};

verus! {

/// What was written last.
#[derive(Clone, Copy, PartialEq, Eq, Structural)]
pub enum Last {
    BlockOpen,
    BlockClose,
    Inline,
}

/// `s` without spaces and tabs at its end.
pub open spec fn without_blanks(s: Seq<char>) -> Seq<char>
    decreases s.len(),
{
    if s.len() > 0 && (s.last() == ' ' || s.last() == '\t') {
        without_blanks(s.drop_last())
    } else {
        s
    }
}

/// `n` levels of indentation.
pub open spec fn indent(n: int) -> Seq<char>
    decreases n,
{
    if n <= 0 {
        Seq::empty()
    } else {
        indent(n - 1) + "  "@
    }
}

/// `out` brought to a new line, indented by `depth`.
pub open spec fn spec_newline(out: Seq<char>, depth: int) -> Seq<char> {
    let lined = if out.len() == 0 {
        out
    } else {
        let cut = without_blanks(out);
        if text::spec_ends(cut, "\n"@) {
            cut
        } else {
            cut + "\n"@
        }
    };
    lined + indent(depth)
}

/// Appends `depth` levels of indentation.
fn put_indent(out: &mut Vec<char>, depth: usize)
    ensures
        final(out)@ == old(out)@ + indent(depth as int),
{
    let ghost before = out@;
    let mut i: usize = 0;
    assert(before + indent(0) =~= before);
    while i < depth
        invariant
            i <= depth,
            out@ == before + indent(i as int),
        decreases depth - i,
    {
        put_str(out, "  ");
        assert(before + indent(i as int) + "  "@ =~= before + indent(i + 1));
        i = i + 1;
    }
}

fn newline(out: &mut Vec<char>, depth: usize)
    ensures
        final(out)@ == spec_newline(old(out)@, depth as int),
{
    if out.len() > 0 {
        while out.len() > 0 && (out[out.len() - 1] == ' ' || out[out.len() - 1] == '\t')
            invariant
                without_blanks(old(out)@) == without_blanks(out@),
            decreases out@.len(),
        {
            let ghost before = out@;
            out.pop();
            assert(out@ =~= before.drop_last());
        }
        if !ends_str(out, "\n") {
            put_str(out, "\n");
        }
    }
    put_indent(out, depth);
}

/// `s`, already trimmed at its start, is made of comments, processing
/// instructions and declarations alone.
pub open spec fn markup_rest(s: Seq<char>) -> bool
    decreases s.len(),
{
    if s.len() == 0 {
        true
    } else if s[0] != '<' {
        false
    } else {
        let after = s.subrange(1, s.len() as int);
        match declaration_end(after) {
            Some(e) if 0 <= e <= after.len() => {
                proof {
                    markup::lemma_trim_start(after.subrange(e, after.len() as int));
                }
                markup_rest(text::spec_trim_start(after.subrange(e, after.len() as int)))
            },
            _ => false,
        }
    }
}

/// The end of the comment, processing instruction or declaration that `s`
/// starts with, its `<` left out.
pub open spec fn declaration_end(s: Seq<char>) -> Option<int> {
    if text::spec_starts(s, "!--"@) {
        markup::plus(text::spec_find(s, "-->"@, 0), 3)
    } else if text::spec_starts(s, "?"@) {
        markup::plus(text::spec_find(s, "?>"@, 0), 2)
    } else if text::spec_starts(s, "!"@) {
        markup::plus(text::spec_find_char(s, '>', 0), 1)
    } else {
        None
    }
}

/// `raw` is made of comments, processing instructions and declarations alone.
pub open spec fn spec_markup_only(raw: Seq<char>) -> bool {
    markup_rest(text::spec_trim(raw))
}

fn declaration_end_of(s: &[char]) -> (r: Option<usize>)
    ensures
        text::pos(r) == declaration_end(s@),
        r matches Some(e) ==> e <= s@.len(),
{
    proof {
        reveal_strlit("-->");
        reveal_strlit("?>");
    }
    let n = s.len();
    if starts_str(s, "!--") {
        match find_str(s, "-->", 0) {
            Some(k) => Some(k + 3),
            None => None,
        }
    } else if starts_str(s, "?") {
        match find_str(s, "?>", 0) {
            Some(k) => Some(k + 2),
            None => None,
        }
    } else if starts_str(s, "!") {
        match find_char(s, '>', 0) {
            Some(k) => Some(k + 1),
            None => None,
        }
    } else {
        None
    }
}

fn markup_only(raw: &[char]) -> (r: bool)
    ensures
        r == spec_markup_only(raw@),
{
    let mut rest = trim(raw);
    loop
        invariant
            markup_rest(rest@) == spec_markup_only(raw@),
        decreases rest@.len(),
    {
        if rest.len() == 0 {
            return true;
        }
        if rest[0] != '<' {
            return false;
        }
        let after = &rest[1..rest.len()];
        match declaration_end_of(after) {
            Some(e) => {
                let tail = &after[e..after.len()];
                proof {
                    markup::lemma_trim_start(tail@);
                }
                rest = trim_start(tail);
            },
            None => {
                return false;
            },
        }
    }
}

/// The state of re-indenting: what is written, how deep in blocks it stands,
/// which verbatim element it is in and how often that is nested, and what was
/// written last.
#[verifier::ext_equal]
pub struct Pen {
    pub out: Seq<char>,
    pub depth: int,
    pub verbatim: Option<(Seq<char>, int)>,
    pub last: Last,
}

/// The first `n` of `pieces`, trimmed, each on a line of its own; blank ones
/// are left out.
pub open spec fn lines_written(
    out: Seq<char>,
    pieces: Seq<Seq<char>>,
    depth: int,
    n: int,
) -> Seq<char>
    decreases n,
{
    if n <= 0 {
        out
    } else {
        let before = lines_written(out, pieces, depth, n - 1);
        let piece = text::spec_ascii_trim(pieces[n - 1]);
        if piece.len() == 0 {
            before
        } else {
            spec_newline(before, depth) + piece
        }
    }
}

/// Whether the token `i` is the tag of a block.
pub open spec fn block_at(v: Seq<Token>, i: int) -> bool {
    0 <= i < v.len() && match v[i] {
        Token::Tag { name, .. } => markup::spec_is_block(name),
        _ => false,
    }
}

/// Text outside verbatim elements: dropped where it is blank next to a block,
/// broken into lines where it is markup alone next to a block, as it is between
/// inline elements, else trimmed next to a block.
pub open spec fn text_written(p: Pen, raw: Seq<char>, next_block: bool) -> Pen {
    if text::spec_ascii_trim(raw).len() == 0 {
        if p.last == Last::Inline && !next_block {
            Pen { out: p.out + raw, ..p }
        } else {
            p
        }
    } else if spec_markup_only(raw) && (p.last != Last::Inline || next_block) {
        let pieces = text::spec_split(raw, '\n');
        Pen {
            out: lines_written(p.out, pieces, p.depth, pieces.len() as int),
            last: Last::BlockClose,
            ..p
        }
    } else {
        let piece = if p.last != Last::Inline {
            if next_block {
                text::spec_ascii_trim(raw)
            } else {
                text::spec_ascii_trim_start(raw)
            }
        } else if next_block {
            text::spec_ascii_trim_end(raw)
        } else {
            raw
        };
        let lined = if p.last == Last::BlockClose {
            spec_newline(p.out, p.depth)
        } else {
            p.out
        };
        Pen { out: lined + piece, last: Last::Inline, ..p }
    }
}

pub open spec fn shallower(depth: int) -> int {
    if depth > 0 {
        depth - 1
    } else {
        0
    }
}

/// A tag inside the verbatim element `v`, which is nested `n` times.
pub open spec fn verbatim_written(
    p: Pen,
    raw: Seq<char>,
    v: Seq<char>,
    n: int,
    name: Seq<char>,
    closing: bool,
    self_closing: bool,
) -> Pen {
    let q = Pen { out: p.out + raw, ..p };
    if name != v {
        q
    } else if closing {
        if n - 1 == 0 {
            if markup::spec_is_block(name) {
                Pen { verbatim: None, depth: shallower(p.depth), last: Last::BlockClose, ..q }
            } else {
                Pen { verbatim: None, last: Last::Inline, ..q }
            }
        } else {
            Pen { verbatim: Some((v, n - 1)), ..q }
        }
    } else if !self_closing && !markup::spec_is_void(name) {
        Pen { verbatim: Some((v, n + 1)), ..q }
    } else {
        q
    }
}

/// A tag outside verbatim elements: a block's tags start a line.
pub open spec fn tag_written(
    p: Pen,
    raw: Seq<char>,
    name: Seq<char>,
    closing: bool,
    self_closing: bool,
) -> Pen {
    let block = markup::spec_is_block(name);
    if closing {
        if block {
            let depth = shallower(p.depth);
            let lined = if p.last != Last::Inline {
                spec_newline(p.out, depth)
            } else {
                p.out
            };
            Pen { out: lined + raw, depth, last: Last::BlockClose, ..p }
        } else {
            Pen { out: p.out + raw, last: Last::Inline, ..p }
        }
    } else {
        let lined = if block {
            spec_newline(p.out, p.depth)
        } else {
            p.out
        };
        let open = !self_closing && !markup::spec_is_void(name);
        let q = Pen {
            out: lined + raw,
            depth: if open && block {
                p.depth + 1
            } else {
                p.depth
            },
            ..p
        };
        if open && markup::spec_is_verbatim(name) {
            Pen { verbatim: Some((name, 1)), last: Last::Inline, ..q }
        } else if !block {
            Pen { last: Last::Inline, ..q }
        } else if open {
            Pen { last: Last::BlockOpen, ..q }
        } else {
            Pen { last: Last::BlockClose, ..q }
        }
    }
}

/// The state once the token `i` is written.
pub open spec fn token_written(t: Seq<char>, v: Seq<Token>, i: int, p: Pen) -> Pen {
    let raw = t.subrange(v[i].start(), v[i].end());
    match v[i] {
        Token::Text { .. } => if p.verbatim is Some {
            Pen { out: p.out + raw, ..p }
        } else {
            text_written(p, raw, block_at(v, i + 1))
        },
        Token::Tag { name, closing, self_closing, .. } => match p.verbatim {
            Some((v, n)) => verbatim_written(p, raw, v, n, name, closing, self_closing),
            None => tag_written(p, raw, name, closing, self_closing),
        },
    }
}

/// The state once the first `n` tokens are written.
pub open spec fn written(t: Seq<char>, v: Seq<Token>, n: int) -> Pen
    decreases n,
{
    if n <= 0 {
        Pen { out: Seq::empty(), depth: 0, verbatim: None, last: Last::BlockClose }
    } else {
        token_written(t, v, n - 1, written(t, v, n - 1))
    }
}

/// `t` re-indented: each block on a line of its own.
pub open spec fn spec_pretty_xhtml(t: Seq<char>) -> Seq<char> {
    let v = markup::spec_tokens(t);
    let out = written(t, v, v.len() as int).out;
    if text::spec_ends(out, "\n"@) {
        out
    } else {
        out + "\n"@
    }
}

fn put_lines(out: &mut Vec<char>, raw: &[char], depth: usize)
    ensures
        final(out)@ == lines_written(
            old(out)@,
            text::spec_split(raw@, '\n'),
            depth as int,
            text::spec_split(raw@, '\n').len() as int,
        ),
{
    let pieces = split(raw, '\n');
    let ghost ps = text::texts(pieces@);
    let mut i: usize = 0;
    while i < pieces.len()
        invariant
            i <= pieces@.len(),
            ps == text::texts(pieces@),
            out@ == lines_written(old(out)@, ps, depth as int, i as int),
        decreases pieces@.len() - i,
    {
        assert(ps[i as int] == pieces@[i as int]@);
        let piece = ascii_trim(&pieces[i]);
        if piece.len() > 0 {
            newline(out, depth);
            put(out, piece);
        }
        i = i + 1;
    }
}

/// What the variables of the loop in `pretty_xhtml` say.
pub open spec fn pen(
    out: Seq<char>,
    depth: usize,
    verbatim: Option<(String, usize)>,
    last: Last,
) -> Pen {
    Pen {
        out,
        depth: depth as int,
        verbatim: match verbatim {
            Some((v, n)) => Some((v@, n as int)),
            None => None,
        },
        last,
    }
}

/// `text` re-indented: each block on a line of its own.
pub fn pretty_xhtml(text: &str) -> (r: String)
    ensures
        r@ == spec_pretty_xhtml(text@),
{
    let t = chars_of(text);
    let toks = tokens_of(&t);
    proof {
        markup::tokens_tile_the_text(t@);
        markup::lemma_tiles_bound(markup::spec_tokens(t@), 0, t@.len() as int);
    }
    let ghost v = markup::spec_tokens(t@);
    let mut out: Vec<char> = Vec::new();
    let mut depth: usize = 0;
    let mut verbatim: Option<(String, usize)> = None;
    let mut last = Last::BlockClose;
    let mut i: usize = 0;
    while i < toks.len()
        invariant
            i <= toks@.len(),
            v == markup::spec_tokens(t@),
            markup::toks(toks@) == v,
            forall|k: int|
                0 <= k < v.len() ==> 0 <= (#[trigger] v[k]).start() && v[k].end() <= t@.len()
                    && v[k].start() < v[k].end(),
            depth <= i,
            verbatim matches Some((_, n)) ==> 1 <= n <= i,
            pen(out@, depth, verbatim, last) == written(t@, v, i as int),
        decreases toks@.len() - i,
    {
        assert(v[i as int] == toks@[i as int]@);
        let ghost before = pen(out@, depth, verbatim, last);
        match &toks[i] {
            Tok::Text { start, end } => {
                let raw = &t[*start..*end];
                if verbatim.is_some() {
                    put(&mut out, raw);
                } else {
                    let next_block = if i + 1 < toks.len() {
                        assert(v[i + 1] == toks@[i + 1]@);
                        match &toks[i + 1] {
                            Tok::Tag { name, .. } => is_block(name),
                            Tok::Text { .. } => false,
                        }
                    } else {
                        false
                    };
                    if ascii_trim(raw).len() == 0 {
                        if last == Last::Inline && !next_block {
                            put(&mut out, raw);
                        }
                    } else if (last != Last::Inline || next_block) && markup_only(raw) {
                        put_lines(&mut out, raw, depth);
                        last = Last::BlockClose;
                    } else {
                        let piece = if last != Last::Inline {
                            if next_block {
                                ascii_trim(raw)
                            } else {
                                ascii_trim_start(raw)
                            }
                        } else if next_block {
                            ascii_trim_end(raw)
                        } else {
                            raw
                        };
                        if last == Last::BlockClose {
                            newline(&mut out, depth);
                        }
                        put(&mut out, piece);
                        last = Last::Inline;
                    }
                }
            },
            Tok::Tag { start, end, name, closing, self_closing } => {
                let raw = &t[*start..*end];
                let block = is_block(name);
                if let Some((inside, n)) = verbatim {
                    put(&mut out, raw);
                    verbatim = None;
                    if !str_is(name, &inside) {
                        verbatim = Some((inside, n));
                    } else if *closing {
                        if n == 1 {
                            if block {
                                if depth > 0 {
                                    depth = depth - 1;
                                }
                                last = Last::BlockClose;
                            } else {
                                last = Last::Inline;
                            }
                        } else {
                            verbatim = Some((inside, n - 1));
                        }
                    } else if !*self_closing && !is_void(name) {
                        verbatim = Some((inside, n + 1));
                    } else {
                        verbatim = Some((inside, n));
                    }
                } else if *closing {
                    if block {
                        if depth > 0 {
                            depth = depth - 1;
                        }
                        if last != Last::Inline {
                            newline(&mut out, depth);
                        }
                    }
                    put(&mut out, raw);
                    last = if block {
                        Last::BlockClose
                    } else {
                        Last::Inline
                    };
                } else {
                    if block {
                        newline(&mut out, depth);
                    }
                    put(&mut out, raw);
                    let open = !*self_closing && !is_void(name);
                    if open && block {
                        depth = depth + 1;
                    }
                    if open && is_verbatim(name) {
                        verbatim = Some((name.clone(), 1));
                        last = Last::Inline;
                    } else if !block {
                        last = Last::Inline;
                    } else if open {
                        last = Last::BlockOpen;
                    } else {
                        last = Last::BlockClose;
                    }
                }
            },
        }
        assert(pen(out@, depth, verbatim, last) == token_written(t@, v, i as int, before));
        i = i + 1;
    }
    if !ends_str(&out, "\n") {
        put_str(&mut out, "\n");
    }
    string_of(&out)
}

proof fn lemma_without_blanks(s: Seq<char>)
    ensures
        text::visible(without_blanks(s)) == text::visible(s),
    decreases s.len(),
{
    if s.len() > 0 && (s.last() == ' ' || s.last() == '\t') {
        lemma_without_blanks(s.drop_last());
        text::lemma_visible_add(s.drop_last(), seq![s.last()]);
        text::lemma_visible_none(seq![s.last()]);
        assert(s =~= s.drop_last() + seq![s.last()]);
        assert(text::visible(s) =~= text::visible(s.drop_last()));
    }
}

proof fn lemma_indent(n: int)
    ensures
        text::visible(indent(n)) == Seq::<char>::empty(),
    decreases n,
{
    if n > 0 {
        lemma_indent(n - 1);
        reveal_strlit("  ");
        text::lemma_visible_none("  "@);
        text::lemma_visible_add(indent(n - 1), "  "@);
        assert(text::visible(indent(n)) =~= Seq::<char>::empty());
    } else {
        text::lemma_visible_none(Seq::<char>::empty());
    }
}

proof fn lemma_newline(out: Seq<char>, depth: int)
    ensures
        text::visible(spec_newline(out, depth)) == text::visible(out),
{
    reveal_strlit("\n");
    lemma_without_blanks(out);
    lemma_indent(depth);
    text::lemma_visible_none("\n"@);
    let cut = without_blanks(out);
    text::lemma_visible_add(cut, "\n"@);
    assert(text::visible(cut + "\n"@) =~= text::visible(cut));
    let lined = if out.len() == 0 {
        out
    } else if text::spec_ends(cut, "\n"@) {
        cut
    } else {
        cut + "\n"@
    };
    text::lemma_visible_add(lined, indent(depth));
    assert(text::visible(lined + indent(depth)) =~= text::visible(lined));
}

/// The visible characters of the first `n` of `pieces`.
pub open spec fn visible_to(pieces: Seq<Seq<char>>, n: int) -> Seq<char>
    decreases n,
{
    if n <= 0 {
        Seq::empty()
    } else {
        visible_to(pieces, n - 1) + text::visible(pieces[n - 1])
    }
}

proof fn lemma_lines(out: Seq<char>, pieces: Seq<Seq<char>>, depth: int, n: int)
    ensures
        text::visible(lines_written(out, pieces, depth, n)) == text::visible(out) + visible_to(
            pieces,
            n,
        ),
    decreases n,
{
    if n > 0 {
        lemma_lines(out, pieces, depth, n - 1);
        let before = lines_written(out, pieces, depth, n - 1);
        let piece = text::spec_ascii_trim(pieces[n - 1]);
        text::trimming_keeps_what_is_visible(pieces[n - 1]);
        if piece.len() == 0 {
            text::lemma_visible_none(piece);
            assert(text::visible(out) + visible_to(pieces, n) =~= text::visible(out) + visible_to(
                pieces,
                n - 1,
            ));
        } else {
            lemma_newline(before, depth);
            text::lemma_visible_add(spec_newline(before, depth), piece);
            assert(text::visible(out) + visible_to(pieces, n) =~= text::visible(before)
                + text::visible(piece));
        }
    } else {
        assert(text::visible(out) + visible_to(pieces, n) =~= text::visible(out));
    }
}

proof fn lemma_visible_split(s: Seq<char>, i: int)
    requires
        0 <= i <= s.len(),
    ensures
        visible_to(text::split_from(s, '\n', i), text::split_from(s, '\n', i).len() as int)
            == text::visible(s.subrange(i, s.len() as int)),
    decreases s.len() - i,
{
    text::lemma_find_char(s, '\n', i);
    let n = s.len() as int;
    match text::spec_find_char(s, '\n', i) {
        Some(k) => {
            let rest = text::split_from(s, '\n', k + 1);
            lemma_visible_split(s, k + 1);
            lemma_visible_cons(s.subrange(i, k), rest, rest.len() as int);
            text::lemma_visible_add(s.subrange(i, k), s.subrange(k, n));
            assert(s.subrange(i, k) + s.subrange(k, n) =~= s.subrange(i, n));
            text::lemma_visible_add(s.subrange(k, k + 1), s.subrange(k + 1, n));
            assert(s.subrange(k, k + 1) + s.subrange(k + 1, n) =~= s.subrange(k, n));
            text::lemma_visible_none(s.subrange(k, k + 1));
            assert(Seq::<char>::empty() + text::visible(s.subrange(k + 1, n)) =~= text::visible(
                s.subrange(k + 1, n),
            ));
        },
        None => {
            let one = seq![s.subrange(i, n)];
            assert(visible_to(one, 0) =~= Seq::<char>::empty());
            assert(visible_to(one, 1) =~= text::visible(s.subrange(i, n)));
        },
    }
}

proof fn lemma_visible_cons(x: Seq<char>, v: Seq<Seq<char>>, n: int)
    requires
        0 <= n <= v.len(),
    ensures
        visible_to(seq![x] + v, n + 1) == text::visible(x) + visible_to(v, n),
    decreases n,
{
    let w = seq![x] + v;
    if n > 0 {
        lemma_visible_cons(x, v, n - 1);
        assert(w[n] == v[n - 1]);
        assert(visible_to(w, n + 1) =~= text::visible(x) + visible_to(v, n));
    } else {
        assert(visible_to(w, 0) =~= Seq::<char>::empty());
        assert(w[0] == x);
        assert(visible_to(w, 1) =~= text::visible(x) + visible_to(v, 0));
    }
}

pub proof fn lemma_text_written(p: Pen, raw: Seq<char>, next_block: bool)
    ensures
        text::visible(text_written(p, raw, next_block).out) == text::visible(p.out) + text::visible(
            raw,
        ),
{
    text::trimming_keeps_what_is_visible(raw);
    if text::spec_ascii_trim(raw).len() == 0 {
        text::lemma_visible_none(text::spec_ascii_trim(raw));
        text::lemma_visible_add(p.out, raw);
        assert(text::visible(p.out) + text::visible(raw) =~= text::visible(p.out));
    } else if spec_markup_only(raw) && (p.last != Last::Inline || next_block) {
        let pieces = text::spec_split(raw, '\n');
        lemma_lines(p.out, pieces, p.depth, pieces.len() as int);
        lemma_visible_split(raw, 0);
        assert(raw.subrange(0, raw.len() as int) =~= raw);
    } else {
        lemma_newline(p.out, p.depth);
        let lined = if p.last == Last::BlockClose {
            spec_newline(p.out, p.depth)
        } else {
            p.out
        };
        text::lemma_visible_add(lined, raw);
        text::lemma_visible_add(lined, text::spec_ascii_trim(raw));
        text::lemma_visible_add(lined, text::spec_ascii_trim_start(raw));
        text::lemma_visible_add(lined, text::spec_ascii_trim_end(raw));
    }
}

proof fn lemma_token_written(t: Seq<char>, v: Seq<Token>, i: int, p: Pen)
    requires
        0 <= i < v.len(),
    ensures
        text::visible(token_written(t, v, i, p).out) == text::visible(p.out) + text::visible(
            t.subrange(v[i].start(), v[i].end()),
        ),
{
    let raw = t.subrange(v[i].start(), v[i].end());
    text::lemma_visible_add(p.out, raw);
    match v[i] {
        Token::Text { .. } => {
            if p.verbatim is None {
                lemma_text_written(p, raw, block_at(v, i + 1));
            }
        },
        Token::Tag { name, closing, .. } => {
            lemma_newline(p.out, p.depth);
            lemma_newline(p.out, shallower(p.depth));
            text::lemma_visible_add(spec_newline(p.out, p.depth), raw);
            text::lemma_visible_add(spec_newline(p.out, shallower(p.depth)), raw);
        },
    }
}

proof fn lemma_written(t: Seq<char>, v: Seq<Token>, n: int)
    requires
        0 <= n <= v.len(),
    ensures
        text::visible(written(t, v, n).out) == text::visible(markup::token_text(t, v.take(n))),
    decreases n,
{
    if n > 0 {
        lemma_written(t, v, n - 1);
        lemma_token_written(t, v, n - 1, written(t, v, n - 1));
        let raw = t.subrange(v[n - 1].start(), v[n - 1].end());
        markup::lemma_token_text_push(t, v.take(n - 1), v[n - 1]);
        assert(v.take(n) =~= v.take(n - 1).push(v[n - 1]));
        text::lemma_visible_add(markup::token_text(t, v.take(n - 1)), raw);
    }
}

/// Re-indenting a document keeps every visible character, in order.
pub proof fn pretty_xhtml_keeps_what_is_visible(t: Seq<char>)
    ensures
        text::visible(spec_pretty_xhtml(t)) == text::visible(t),
{
    let v = markup::spec_tokens(t);
    let n = v.len() as int;
    lemma_written(t, v, n);
    markup::tokens_spell_the_text(t);
    assert(v.take(n) =~= v);
    reveal_strlit("\n");
    text::lemma_visible_none("\n"@);
    let out = written(t, v, n).out;
    text::lemma_visible_add(out, "\n"@);
    assert(text::visible(out) + Seq::<char>::empty() =~= text::visible(out));
}

// ---------------------------------------------------------------- stylesheets

/// The lines of `s`, none where it is empty.
pub open spec fn lines_in(s: Seq<char>) -> Seq<Seq<char>> {
    if s.len() == 0 {
        Seq::empty()
    } else {
        text::spec_split(s, '\n')
    }
}

/// The first `n` lines written behind `out`, each trimmed and indented.
pub open spec fn lines_put(out: Seq<char>, lines: Seq<Seq<char>>, depth: int, n: int) -> Seq<char>
    decreases n,
{
    if n <= 0 {
        out
    } else {
        lines_put(out, lines, depth, n - 1) + indent(depth) + text::spec_trim(lines[n - 1]) + "\n"@
    }
}

/// The selectors of a rule, one space around its combinators as written, `, `
/// between one selector and the next.
pub open spec fn selectors_put(prelude: Seq<char>) -> Seq<char> {
    text::spec_join(
        css::spec_split_top_level(prelude, ',').map_values(
            |s: Seq<char>| css::spec_collapse_space(s),
        ),
        ", "@,
    )
}

/// A part of a block on a line of its own.
pub open spec fn part_put(part: BlockPart, depth: int) -> Seq<char> {
    indent(depth) + (match part {
        BlockPart::Comment(c) => text::spec_trim(c),
        BlockPart::Decl(name, value) => if value.len() > 0 {
            name + ": "@ + css::spec_collapse_space(value) + ";"@
        } else {
            name + ";"@
        },
    }) + "\n"@
}

/// The first `n` parts of a block written behind `out`.
pub open spec fn parts_put(out: Seq<char>, parts: Seq<BlockPart>, depth: int, n: int) -> Seq<char>
    decreases n,
{
    if n <= 0 {
        out
    } else {
        parts_put(out, parts, depth, n - 1) + part_put(parts[n - 1], depth)
    }
}

/// A block's inside written behind `out`, one declaration to a line.
pub open spec fn block_put(out: Seq<char>, body: Seq<char>, depth: int) -> Seq<char> {
    let parts = css::spec_block_items(body);
    parts_put(out, parts, depth, parts.len() as int)
}

/// What opens an at-rule.
pub open spec fn at_rule_head(name: Seq<char>, prelude: Seq<char>) -> Seq<char> {
    let p = css::spec_collapse_space(prelude);
    if p.len() > 0 {
        "@"@ + name + " "@ + p + " {\n"@
    } else {
        "@"@ + name + " {\n"@
    }
}

/// The items that stand in `t` from `i` up to `b` written behind `out`, one
/// declaration to a line; at the top level a blank line stands between one item
/// and the next.
pub open spec fn items_put(
    t: Seq<char>,
    i: int,
    b: int,
    depth: int,
    out: Seq<char>,
    first: bool,
) -> Seq<char>
    decreases b - i,
{
    if i < 0 || i >= b || b > t.len() {
        out
    } else if text::is_ascii_white(t[i]) || t[i] == '}' || t[i] == ';' {
        items_put(t, i + 1, b, depth, out, first)
    } else {
        let item = css::item_at(t, i, b);
        proof {
            css::lemma_item_at(t, i, b);
        }
        let lead = if !first && depth == 0 {
            out + "\n"@
        } else {
            out
        };
        let pad = indent(depth);
        let done = match item.kind {
            CssKind::Comment | CssKind::Statement => {
                let lines = lines_in(text::spec_trim(t.subrange(item.start, item.end)));
                lines_put(lead, lines, depth, lines.len() as int)
            },
            CssKind::Rule { prelude, inner } => {
                let head = lead + pad + selectors_put(t.subrange(prelude.0, prelude.1)) + " {\n"@;
                block_put(head, t.subrange(inner.0, inner.1), depth + 1) + pad + "}\n"@
            },
            CssKind::Group { name, prelude, inner } => {
                let head = lead + pad + at_rule_head(name, t.subrange(prelude.0, prelude.1));
                items_put(t, inner.0, inner.1, depth + 1, head, true) + pad + "}\n"@
            },
            CssKind::Block { name, prelude, inner } => {
                let head = lead + pad + at_rule_head(name, t.subrange(prelude.0, prelude.1));
                let body = t.subrange(inner.0, inner.1);
                (if body.contains('{') {
                    items_put(t, inner.0, inner.1, depth + 1, head, true)
                } else {
                    block_put(head, body, depth + 1)
                }) + pad + "}\n"@
            },
        };
        items_put(t, item.end, b, depth, done, false)
    }
}

/// A stylesheet with one declaration to a line.
pub open spec fn spec_pretty_css(t: Seq<char>) -> Seq<char> {
    items_put(t, 0, t.len() as int, 0, Seq::empty(), true)
}

fn write_lines(raw: &[char], depth: usize, out: &mut Vec<char>)
    ensures
        final(out)@ == lines_put(
            old(out)@,
            lines_in(text::spec_trim(raw@)),
            depth as int,
            lines_in(text::spec_trim(raw@)).len() as int,
        ),
{
    let s = trim(raw);
    if s.len() == 0 {
        return;
    }
    let lines = split(s, '\n');
    let ghost ls = text::texts(lines@);
    let mut i: usize = 0;
    while i < lines.len()
        invariant
            i <= lines@.len(),
            ls == text::texts(lines@),
            out@ == lines_put(old(out)@, ls, depth as int, i as int),
        decreases lines@.len() - i,
    {
        assert(ls[i as int] == lines@[i as int]@);
        put_indent(out, depth);
        put(out, trim(&lines[i]));
        put_str(out, "\n");
        i = i + 1;
    }
}

fn write_selectors(prelude: &[char]) -> (r: Vec<char>)
    ensures
        r@ == selectors_put(prelude@),
{
    let v = split_top_level(prelude, ',');
    let ghost ss = text::texts(v@);
    let mut out: Vec<Vec<char>> = Vec::new();
    let mut i: usize = 0;
    while i < v.len()
        invariant
            i <= v@.len(),
            ss == text::texts(v@),
            text::texts(out@) == ss.take(i as int).map_values(
                |s: Seq<char>| css::spec_collapse_space(s),
            ),
        decreases v@.len() - i,
    {
        assert(ss[i as int] == v@[i as int]@);
        add_text(&mut out, collapse_space(&v[i]));
        assert(text::texts(out@) =~= ss.take(i + 1).map_values(
            |s: Seq<char>| css::spec_collapse_space(s),
        ));
        i = i + 1;
    }
    assert(ss.take(v@.len() as int) =~= ss);
    join(&out, ", ")
}

fn write_block(body: &[char], depth: usize, out: &mut Vec<char>)
    ensures
        final(out)@ == block_put(old(out)@, body@, depth as int),
{
    let v = block_items(body);
    let ghost ps = css::parts(v@);
    let mut i: usize = 0;
    while i < v.len()
        invariant
            i <= v@.len(),
            ps == css::parts(v@),
            out@ == parts_put(old(out)@, ps, depth as int, i as int),
        decreases v@.len() - i,
    {
        assert(ps[i as int] == v@[i as int]@);
        let ghost before = out@;
        put_indent(out, depth);
        match &v[i] {
            BlockItem::Comment(c) => {
                put(out, trim(c));
            },
            BlockItem::Decl(name, value) => {
                put(out, name);
                if value.len() > 0 {
                    put_str(out, ": ");
                    put(out, &collapse_space(value));
                }
                put_str(out, ";");
            },
        }
        put_str(out, "\n");
        assert(out@ =~= before + part_put(ps[i as int], depth as int));
        i = i + 1;
    }
}

fn write_head(name: &str, prelude: &[char], out: &mut Vec<char>)
    ensures
        final(out)@ == old(out)@ + at_rule_head(name@, prelude@),
{
    let p = collapse_space(prelude);
    put_str(out, "@");
    put_str(out, name);
    if p.len() > 0 {
        put_str(out, " ");
        put(out, &p);
    }
    put_str(out, " {\n");
    assert(out@ =~= old(out)@ + at_rule_head(name@, prelude@));
}

fn write_items(t: &[char], a: usize, b: usize, depth: usize, out: &mut Vec<char>)
    requires
        a <= b <= t@.len(),
        depth + (b - a) <= usize::MAX,
    ensures
        final(out)@ == items_put(t@, a as int, b as int, depth as int, old(out)@, true),
    decreases b - a,
{
    let mut i: usize = a;
    let mut first = true;
    while i < b
        invariant
            a <= i <= b <= t@.len(),
            depth + (b - a) <= usize::MAX,
            items_put(t@, i as int, b as int, depth as int, out@, first) == items_put(
                t@,
                a as int,
                b as int,
                depth as int,
                old(out)@,
                true,
            ),
        decreases b - i,
    {
        if ascii_white(t[i]) || t[i] == '}' || t[i] == ';' {
            i = i + 1;
        } else {
            proof {
                css::lemma_item_at(t@, i as int, b as int);
            }
            let item = item_of(t, i, b);
            if !first && depth == 0 {
                put_str(out, "\n");
            }
            let end = item.end;
            match item.kind {
                Kind::Comment | Kind::Statement => {
                    write_lines(&t[i..end], depth, out);
                },
                Kind::Rule { prelude, inner } => {
                    put_indent(out, depth);
                    put(out, &write_selectors(&t[prelude.0..prelude.1]));
                    put_str(out, " {\n");
                    write_block(&t[inner.0..inner.1], depth + 1, out);
                    put_indent(out, depth);
                    put_str(out, "}\n");
                },
                Kind::Group { name, prelude, inner } => {
                    put_indent(out, depth);
                    write_head(&name, &t[prelude.0..prelude.1], out);
                    write_items(t, inner.0, inner.1, depth + 1, out);
                    put_indent(out, depth);
                    put_str(out, "}\n");
                },
                Kind::Block { name, prelude, inner } => {
                    put_indent(out, depth);
                    write_head(&name, &t[prelude.0..prelude.1], out);
                    let body = &t[inner.0..inner.1];
                    if has_char(body, '{') {
                        write_items(t, inner.0, inner.1, depth + 1, out);
                    } else {
                        write_block(body, depth + 1, out);
                    }
                    put_indent(out, depth);
                    put_str(out, "}\n");
                },
            }
            first = false;
            i = end;
        }
    }
}

/// A stylesheet with one declaration to a line.
pub fn pretty_css(css: &str) -> (r: String)
    ensures
        r@ == spec_pretty_css(css@),
{
    let t = chars_of(css);
    let mut out: Vec<char> = Vec::new();
    write_items(&t, 0, t.len(), 0, &mut out);
    string_of(&out)
}

// ---------------------------------------------------------------- a package

/// A text re-indented as its role asks, where it does.
pub open spec fn pretty_as(role: MemberRole, t: Seq<char>) -> Option<Seq<char>> {
    if role == MemberRole::Text || role == MemberRole::Nav {
        Some(spec_pretty_xhtml(t))
    } else if role == MemberRole::Style {
        Some(spec_pretty_css(t))
    } else {
        None
    }
}

/// A package in the course of re-indenting: its members, the changes so far, and
/// whether a member was met that can be re-indented.
#[verifier::ext_equal]
pub struct Tidying {
    pub p: Seq<Part>,
    pub log: Log,
    pub seen: bool,
}

/// The re-indenting of the first `n` listed members, of one alone where `only`
/// names it.
pub open spec fn tidied_to(p: Seq<Part>, v: Seq<Listed>, only: Option<Seq<char>>, n: int) -> Tidying
    decreases n,
{
    if n <= 0 {
        Tidying { p, log: edit::no_changes(), seen: false }
    } else {
        let s = tidied_to(p, v, only, n - 1);
        let m = v[n - 1];
        if only is Some && only != Some(m.path) {
            s
        } else {
            match package::spec_text(s.p, m.path) {
                None => s,
                Some(t) => match pretty_as(m.role, t) {
                    None => s,
                    Some(out) => if out == t {
                        Tidying { seen: true, ..s }
                    } else {
                        Tidying {
                            p: edit::spec_replace(s.p, m.path, vstd::utf8::encode_utf8(out)),
                            log: s.log.touched(m.path),
                            seen: true,
                        }
                    },
                },
            }
        }
    }
}

/// What comes back of re-indenting a package, or one member of it, and the
/// package then.
pub open spec fn spec_beautify(p: Seq<Part>, only: Option<Seq<char>>) -> (
    Result<Log, Fault>,
    Seq<Part>,
) {
    match manifest::spec_members(p) {
        Err(f) => (Err(f), p),
        Ok(v) => {
            let s = tidied_to(p, v, only, v.len() as int);
            match only {
                Some(path) if !s.seen => (
                    Err(
                        Fault::Said(
                            ErrorKind::InvalidInput,
                            ""@ + path + " is not an XHTML or CSS member"@,
                        ),
                    ),
                    s.p,
                ),
                _ => (
                    Ok(
                        s.log.noted(
                            text::decimal(s.log.changed.len()) + " member(s) re-indented"@,
                        ),
                    ),
                    s.p,
                ),
            }
        },
    }
}

proof fn lemma_unseen(p: Seq<Part>, v: Seq<Listed>, only: Option<Seq<char>>, n: int)
    ensures
        !tidied_to(p, v, only, n).seen ==> tidied_to(p, v, only, n).p == p,
    decreases n,
{
    if n > 0 {
        lemma_unseen(p, v, only, n - 1);
    }
}

/// Re-indenting that is refused leaves the package as it was.
pub proof fn refused_beautifying_changes_nothing(p: Seq<Part>, only: Option<Seq<char>>)
    ensures
        spec_beautify(p, only).0 is Err ==> spec_beautify(p, only).1 == p,
{
    if let Ok(v) = manifest::spec_members(p) {
        lemma_unseen(p, v, only, v.len() as int);
    }
}

fn pretty_of(role: MemberRole, text: &str) -> (r: Option<String>)
    ensures
        text::opt_str(r) == pretty_as(role, text@),
{
    if role == MemberRole::Text || role == MemberRole::Nav {
        Some(pretty_xhtml(text))
    } else if role == MemberRole::Style {
        Some(pretty_css(text))
    } else {
        None
    }
}

/// Re-indents the XHTML and CSS members of a package, or the one that `only`
/// names.
pub fn beautify(pkg: &mut EpubPackage, only: Option<&str>) -> (r: Result<Changes, Error>)
    ensures
        split_doc::outcome(r, final(pkg)@) == spec_beautify(
            old(pkg)@,
            match only {
                Some(path) => Some(path@),
                None => None,
            },
        ),
        r is Err ==> final(pkg)@ == old(pkg)@,
{
    let ghost one = match only {
        Some(path) => Some(path@),
        None => None,
    };
    proof {
        refused_beautifying_changes_nothing(pkg@, one);
    }
    let v = match members(pkg) {
        Ok(v) => v,
        Err(e) => {
            return Err(e);
        },
    };
    let ghost all = manifest::listed(v@);
    let mut changes = Changes::default();
    let mut seen = false;
    let mut i: usize = 0;
    while i < v.len()
        invariant
            i <= v@.len(),
            all == manifest::listed(v@),
            one == match only {
                Some(path) => Some(path@),
                None => None,
            },
            tidied_to(old(pkg)@, all, one, i as int) == (Tidying { p: pkg@, log: changes@, seen }),
        decreases v@.len() - i,
    {
        assert(all[i as int] == v@[i as int]@);
        let m = &v[i];
        let wanted = match only {
            Some(path) => str_is(&m.path, path),
            None => true,
        };
        if wanted {
            if let Some(text) = member_text(pkg, &m.path) {
                if let Some(out) = pretty_of(m.role, &text) {
                    seen = true;
                    if !str_is(&out, &text) {
                        pkg.replace(&m.path, bytes_of(&out));
                        changes.touch(&m.path);
                    }
                }
            }
        }
        i = i + 1;
    }
    assert(all.len() == v@.len());
    if let Some(path) = only {
        if !seen {
            return Err(
                refuse_named(
                    ErrorKind::InvalidInput,
                    "",
                    path,
                    " is not an XHTML or CSS member",
                ),
            );
        }
    }
    assert(changes@.changed.len() == changes.changed@.len());
    let mut note = decimal_of(changes.changed.len());
    put_str(&mut note, " member(s) re-indented");
    changes.note(&string_of(&note));
    Ok(changes)
}

proof fn lemma_tidying_accounted(p: Seq<Part>, v: Seq<Listed>, only: Option<Seq<char>>, n: int)
    ensures
        edit::accounts_for(tidied_to(p, v, only, n).log, p, tidied_to(p, v, only, n).p),
    decreases n,
{
    if n > 0 {
        lemma_tidying_accounted(p, v, only, n - 1);
        let s = tidied_to(p, v, only, n - 1);
        let path = v[n - 1].path;
        if let Some(t) = package::spec_text(s.p, path) {
            if let Some(out) = pretty_as(v[n - 1].role, t) {
                edit::lemma_accounts_replace(s.log, p, s.p, path, vstd::utf8::encode_utf8(out));
            }
        }
    }
}

/// Re-indenting accounts for what it does: a member that the changes do not name
/// keeps its content.
pub proof fn beautifying_accounts_for_its_changes(p: Seq<Part>, only: Option<Seq<char>>)
    ensures
        spec_beautify(p, only).0 matches Ok(log) ==> edit::accounts_for(
            log,
            p,
            spec_beautify(p, only).1,
        ),
{
    if let Ok(v) = manifest::spec_members(p) {
        let s = tidied_to(p, v, only, v.len() as int);
        lemma_tidying_accounted(p, v, only, v.len() as int);
        edit::lemma_accounts_note(
            s.log,
            p,
            s.p,
            text::decimal(s.log.changed.len()) + " member(s) re-indented"@,
        );
    }
}

} // verus!
