//! The lines of an Aozora Bunko text: header, body and colophon.
use vstd::prelude::*;

use crate::aozora::line;
use crate::aozora::notation;
use crate::codec;
use crate::text;
use crate::aozora::line::convert_line;
use crate::aozora::notation::{
    apply_rule, drop_first, fill_in, group_of, look, parse_zenkaku_int, Fill, Hit, Hits, Rule,
};
use crate::codec::decode_labelled;
use crate::text::{
    add_text, blank, chars_of, copy, decimal_of, decimal_of_sum, has_str, is, join, put, put_str,
    replace_str, same, split, starts_str, string_of, trim, trim_end,
};

verus! {

/// Parsed Aozora document.
#[derive(Debug, Clone)]
pub struct Document {
    pub title: String,
    pub author: String,
    /// Inner XHTML of the main body: a sequence of `<p>`, `<h2>`, `<h3>`, `<h4>` and image
    /// elements, without `<html>` or `<body>` round it.
    pub body_xhtml: String,
    pub toc: Vec<TocEntry>,
    pub colophon: String,
    /// The image files that annotations refer to.
    pub referenced_images: Vec<String>,
}

#[derive(Debug, Clone)]
pub struct TocEntry {
    /// The `id` of the heading, such as `h1`.
    pub id: String,
    /// 2 for `<h2>`, 3 for `<h3>`, 4 for `<h4>`.
    pub level: u8,
    /// Plain text, without readings and `｜` marks.
    pub text: String,
}

/// What a heading holds: its id, its level and its text.
pub open spec fn entry(e: TocEntry) -> (Seq<char>, u8, Seq<char>) {
    (e.id@, e.level, e.text@)
}

pub open spec fn entries(v: Seq<TocEntry>) -> Seq<(Seq<char>, u8, Seq<char>)> {
    v.map_values(|e: TocEntry| entry(e))
}

/// The text that source bytes hold, given how UTF-8 and Shift-JIS read them: UTF-8 where a byte
/// order mark says so or nothing is malformed, Shift-JIS otherwise.
pub open spec fn read_bytes(
    bytes: Seq<u8>,
    utf8: Option<(Seq<char>, bool)>,
    shift_jis: Option<(Seq<char>, bool)>,
) -> Seq<char> {
    if codec::has_bom(bytes) || (utf8 matches Some(r) && !r.1) {
        codec::read_text(utf8)
    } else {
        codec::read_text(shift_jis)
    }
}

/// Decode Aozora source bytes: UTF-8 preferred, Shift-JIS otherwise.
pub fn decode_bytes(bytes: &[u8]) -> (r: String)
    ensures
        r@ == read_bytes(
            bytes@,
            codec::decoding("utf-8"@, bytes@),
            codec::decoding("shift_jis"@, bytes@),
        ),
{
    let utf8 = decode_labelled("utf-8", bytes);
    let marked = bytes.len() >= 3 && bytes[0] == 0xEF && bytes[1] == 0xBB && bytes[2] == 0xBF;
    match utf8 {
        Some((s, bad)) => {
            if marked || !bad {
                return s;
            }
        },
        None => {
            if marked {
                return String::new();
            }
        },
    }
    match decode_labelled("shift_jis", bytes) {
        Some((s, _)) => s,
        None => String::new(),
    }
}

/// A `字下げ` block: how far the first line of a paragraph is indented and how far the lines it
/// wraps onto are, both in characters.
#[derive(Clone, Copy)]
pub struct Indent {
    pub first: u32,
    pub wrap: u32,
}

/// The attributes of a paragraph with this indent; `classes` are its further classes, each with a
/// blank before it. The class `indent` alone stands for an indent of one character. The margin is
/// the depth of the wrapped lines, and margin and text indent together that of the first.
pub open spec fn indent_attrs(i: Indent, classes: Seq<char>) -> Seq<char> {
    " class=\"indent"@ + classes + "\""@ + if i.first == 1 && i.wrap == 1 {
        Seq::empty()
    } else {
        " style=\"margin-top:"@ + text::decimal(i.wrap as nat) + "em"@ + if i.first == i.wrap {
            Seq::empty()
        } else {
            (if i.first < i.wrap {
                ";text-indent:-"@ + text::decimal((i.wrap - i.first) as nat)
            } else {
                ";text-indent:"@ + text::decimal((i.first - i.wrap) as nat)
            }) + "em"@
        } + "\""@
    }
}

impl Indent {
    /// The attributes of a paragraph with this indent and these further classes.
    pub fn attrs(&self, classes: &[char]) -> (r: Vec<char>)
        ensures
            r@ == indent_attrs(*self, classes@),
    {
        let mut out: Vec<char> = Vec::new();
        put_str(&mut out, " class=\"indent");
        put(&mut out, classes);
        put_str(&mut out, "\"");
        if self.first == 1 && self.wrap == 1 {
            assert(out@ =~= indent_attrs(*self, classes@));
            return out;
        }
        put_str(&mut out, " style=\"margin-top:");
        let wrap = decimal_of_sum(self.wrap as u128);
        put(&mut out, &wrap);
        put_str(&mut out, "em");
        if self.first != self.wrap {
            if self.first < self.wrap {
                put_str(&mut out, ";text-indent:-");
                put(&mut out, &decimal_of_sum((self.wrap - self.first) as u128));
            } else {
                put_str(&mut out, ";text-indent:");
                put(&mut out, &decimal_of_sum((self.first - self.wrap) as u128));
            }
            put_str(&mut out, "em");
        }
        put_str(&mut out, "\"");
        assert(out@ =~= indent_attrs(*self, classes@));
        out
    }
}

/// What a line's own marks close once the line has been written: a mark that ends a range closes
/// it behind its own line.
#[derive(Clone, Copy)]
pub struct PendingClose {
    pub block_style: bool,
    pub indent: bool,
    pub box_p: bool,
}

/// Nothing to close.
pub open spec fn nothing_pending() -> PendingClose {
    PendingClose { block_style: false, indent: false, box_p: false }
}

/// The body so far.
pub struct BodyState {
    pub indent: Option<Indent>,
    /// The open block styles, innermost last. `None` for one that has no rendering: it still takes
    /// a place, so that its end removes the right one.
    pub block_styles: Vec<Option<&'static str>>,
    /// Within a ruled box, whether its first line is still to come.
    pub box_first: Option<bool>,
    pub toc: Vec<TocEntry>,
    pub html: Vec<char>,
    pub referenced_images: Vec<String>,
}

/// What the body so far holds.
pub struct State {
    pub indent: Option<Indent>,
    pub styles: Seq<Option<&'static str>>,
    pub box_first: Option<bool>,
    pub toc: Seq<(Seq<char>, u8, Seq<char>)>,
    pub html: Seq<char>,
    pub images: Seq<Seq<char>>,
}

impl BodyState {
    pub open spec fn view(&self) -> State {
        State {
            indent: self.indent,
            styles: self.block_styles@,
            box_first: self.box_first,
            toc: entries(self.toc@),
            html: self.html@,
            images: text::strs(self.referenced_images@),
        }
    }
}

/// The body before any line.
pub open spec fn no_body() -> State {
    State {
        indent: None,
        styles: Seq::empty(),
        box_first: None,
        toc: Seq::empty(),
        html: Seq::empty(),
        images: Seq::empty(),
    }
}

/// The class of a block style; `None` for a mark that names a fact of the printed page which
/// reflowable vertical text renders as ordinary text.
pub open spec fn style_class(name: Seq<char>) -> Option<&'static str> {
    if name == "ゴシック体"@ {
        Some("gothic")
    } else if name == "斜体"@ {
        Some("italic")
    } else if name == "罫囲み"@ || name == "枠囲み"@ {
        Some("keigakomi")
    } else if name == "破線罫囲み"@ || name == "破線枠囲み"@ {
        Some("keigakomi-dashed")
    } else if name == "二重罫囲み"@ || name == "二重枠囲み"@ {
        Some("keigakomi-double")
    } else {
        None
    }
}

/// The class of a block style.
fn block_style_class(name: &[char]) -> (r: Option<&'static str>)
    ensures
        r == style_class(name@),
{
    if is(name, "ゴシック体") {
        Some("gothic")
    } else if is(name, "斜体") {
        Some("italic")
    } else if is(name, "罫囲み") || is(name, "枠囲み") {
        Some("keigakomi")
    } else if is(name, "破線罫囲み") || is(name, "破線枠囲み") {
        Some("keigakomi-dashed")
    } else if is(name, "二重罫囲み") || is(name, "二重枠囲み") {
        Some("keigakomi-double")
    } else {
        None
    }
}

/// The class of a ruled box, which is one paragraph of several lines.
pub open spec fn boxed_class(class: Seq<char>) -> bool {
    text::spec_starts(class, "keigakomi"@)
}

fn is_box_class(class: &str) -> (r: bool)
    ensures
        r == boxed_class(class@),
{
    let c = chars_of(class);
    starts_str(&c, "keigakomi")
}

/// The body with its open box closed.
pub open spec fn unboxed(s: State) -> State {
    if s.box_first is Some {
        State { box_first: None, html: s.html + "</p>\n"@, ..s }
    } else {
        s
    }
}

/// Close the open box, if any.
fn close_open_boxes(state: &mut BodyState)
    ensures
        final(state)@ == unboxed(old(state)@),
{
    if state.box_first.is_some() {
        state.box_first = None;
        put_str(&mut state.html, "</p>\n");
    }
}

/// The body behind a break: no indent, no box, no block style.
pub open spec fn broken_off(s: State) -> State {
    State { indent: None, styles: Seq::empty(), ..unboxed(s) }
}

fn break_off(state: &mut BodyState)
    ensures
        final(state)@ == broken_off(old(state)@),
{
    state.indent = None;
    close_open_boxes(state);
    state.block_styles = Vec::new();
}

/// The classes from the `i`-th block style on, each with a blank before it.
pub open spec fn class_list(styles: Seq<Option<&'static str>>, i: int) -> Seq<char>
    decreases styles.len() - i,
{
    if i < 0 || i >= styles.len() {
        Seq::empty()
    } else {
        (match styles[i] {
            Some(c) => " "@ + c@,
            None => Seq::empty(),
        }) + class_list(styles, i + 1)
    }
}

/// The classes of the open block styles, each with a blank before it.
fn classes_of(styles: &Vec<Option<&'static str>>) -> (r: Vec<char>)
    ensures
        r@ == class_list(styles@, 0),
{
    let mut out: Vec<char> = Vec::new();
    let n = styles.len();
    let mut i: usize = 0;
    while i < n
        invariant
            i <= n,
            n == styles@.len(),
            out@ + class_list(styles@, i as int) == class_list(styles@, 0),
        decreases n - i,
    {
        let ghost before = out@;
        let ghost rest = class_list(styles@, i + 1);
        match styles[i] {
            Some(c) => {
                put_str(&mut out, " ");
                put_str(&mut out, c);
                assert(before + ((" "@ + c@) + rest) =~= out@ + rest);
            },
            None => {
                assert(before + (Seq::<char>::empty() + rest) =~= out@ + rest);
            },
        }
        i += 1;
    }
    out
}

/// A line on its way: the body, what is left of the line, what is to be closed behind it, and
/// whether the line is done.
pub struct Step {
    pub state: State,
    pub raw: Seq<char>,
    pub pending: PendingClose,
    pub done: bool,
}

pub open spec fn step(state: BodyState, raw: String, pending: PendingClose, done: bool) -> Step {
    Step { state: state@, raw: raw@, pending, done }
}

/// The line goes on with `raw`; it is done where that is blank.
pub open spec fn goes_on(t: Step, raw: Seq<char>) -> Step {
    Step { raw, done: text::all_white(raw), ..t }
}

fn is_blank(s: &str) -> (r: bool)
    ensures
        r == text::all_white(s@),
{
    let c = chars_of(s);
    blank(&c)
}

/// The depth of an indent that an annotation opens: `改行天付き` has no depth for the first line,
/// which starts flush, and lines wrap onto the depth of the first unless another is given.
pub open spec fn indent_in(groups: Seq<Option<Seq<char>>>) -> Indent {
    let first = match notation::number(notation::group(groups, 1)) {
        Some(n) => n as u32,
        None => 0,
    };
    Indent {
        first,
        wrap: match notation::number(notation::group(groups, 2)) {
            Some(n) => n as u32,
            None => first,
        },
    }
}

/// The depth of an indent that an annotation opens.
pub fn read_indent(h: &Hit) -> (r: Indent)
    ensures
        r == indent_in(notation::hit(*h).2),
{
    let a = group_of(h, 1);
    let b = group_of(h, 2);
    let first: u32 = match parse_zenkaku_int(&a) {
        Some(n) => n,
        None => 0,
    };
    let wrap: u32 = match parse_zenkaku_int(&b) {
        Some(n) => n,
        None => first,
    };
    Indent { first, wrap }
}

/// A block indent opens: `［＃ここからN字下げ］`, with `、折り返してM字下げ` where wrapped lines have
/// another depth, or `改行天付き` in place of the first.
pub open spec fn indent_opened(t: Step) -> Step {
    let h = notation::looked(
        "［＃ここから(?:([０-９0-9]+)字下げ|改行天付き)(?:、折り返して([０-９0-9]+)字下げ)?[^］]*］"@,
        t.raw,
        '［',
    );
    if h.0.len() == 0 {
        t
    } else {
        goes_on(
            Step { state: State { indent: Some(indent_in(h.0[0].2)), ..t.state }, ..t },
            notation::without_first(h),
        )
    }
}

fn open_indent(state: &mut BodyState, raw: &mut String, pending: &mut PendingClose) -> (done: bool)
    ensures
        step(*final(state), *final(raw), *final(pending), done) == indent_opened(
            step(*old(state), *old(raw), *old(pending), false),
        ),
{
    let h = look(
        "［＃ここから(?:([０-９0-9]+)字下げ|改行天付き)(?:、折り返して([０-９0-9]+)字下げ)?[^］]*］",
        raw.as_str(),
        '［',
    );
    assert(notation::hits(h).0.len() == h.hits@.len());
    if h.hits.len() == 0 {
        return false;
    }
    assert(notation::hits(h).0[0] == notation::hit(h.hits@[0]));
    let indent = read_indent(&h.hits[0]);
    state.indent = Some(indent);
    *raw = drop_first(&h);
    is_blank(raw.as_str())
}

/// The block indent closes behind this line.
pub open spec fn indent_closed(t: Step) -> Step {
    let h = notation::looked("［＃ここで字下げ終わり］"@, t.raw, '［');
    if h.0.len() == 0 {
        t
    } else {
        goes_on(
            Step { pending: PendingClose { indent: true, ..t.pending }, ..t },
            notation::without_first(h),
        )
    }
}

fn close_indent(state: &BodyState, raw: &mut String, pending: &mut PendingClose) -> (done: bool)
    ensures
        step(*state, *final(raw), *final(pending), done) == indent_closed(
            step(*state, *old(raw), *old(pending), false),
        ),
{
    let h = look("［＃ここで字下げ終わり］", raw.as_str(), '［');
    assert(notation::hits(h).0.len() == h.hits@.len());
    if h.hits.len() == 0 {
        return false;
    }
    pending.indent = true;
    *raw = drop_first(&h);
    is_blank(raw.as_str())
}

/// Marks on the number of characters of a line say nothing of reflowable text.
pub open spec fn jizume_dropped(t: Step) -> Step {
    let h = notation::looked(
        "［＃ここから[０-９0-9]+字詰め］|［＃ここで字詰め終わり］"@,
        t.raw,
        '［',
    );
    if h.0.len() == 0 {
        t
    } else {
        goes_on(t, notation::filled_from(Fill::Drop, h.0, 0, h.1, Seq::empty()))
    }
}

/// The text without any match.
fn drop_all(h: &Hits) -> (r: String)
    ensures
        r@ == notation::filled_from(
            Fill::Drop,
            notation::hits(*h).0,
            0,
            notation::hits(*h).1,
            Seq::empty(),
        ),
{
    let none: Vec<(String, String)> = Vec::new();
    assert(none@ =~= Seq::empty());
    fill_in(h, Fill::Drop, &none)
}

fn drop_jizume(state: &BodyState, raw: &mut String, pending: &PendingClose) -> (done: bool)
    ensures
        step(*state, *final(raw), *pending, done) == jizume_dropped(
            step(*state, *old(raw), *pending, false),
        ),
{
    let h = look("［＃ここから[０-９0-9]+字詰め］|［＃ここで字詰め終わり］", raw.as_str(), '［');
    assert(notation::hits(h).0.len() == h.hits@.len());
    if h.hits.len() == 0 {
        return false;
    }
    *raw = drop_all(&h);
    is_blank(raw.as_str())
}

/// The body after a block style opens: a box opens its paragraph, with the indent round it;
/// another style takes a place, whether or not it renders.
pub open spec fn style_opened(s: State, name: Seq<char>) -> State {
    match style_class(name) {
        Some(class) if boxed_class(class@) => {
            let u = unboxed(s);
            let attrs = match u.indent {
                Some(i) => indent_attrs(i, " "@ + class@),
                None => " class=\""@ + class@ + "\""@,
            };
            State { box_first: Some(true), html: u.html + "<p"@ + attrs + ">"@, ..u }
        },
        class => State { styles: s.styles.push(class), ..s },
    }
}

/// Open a block style.
pub fn open_style(state: &mut BodyState, name: &[char])
    ensures
        final(state)@ == style_opened(old(state)@, name@),
{
    let class = block_style_class(name);
    if let Some(c) = class {
        if is_box_class(c) {
            close_open_boxes(state);
            let mut list: Vec<char> = Vec::new();
            let attrs: Vec<char> = match state.indent {
                Some(i) => {
                    put_str(&mut list, " ");
                    put_str(&mut list, c);
                    i.attrs(&list)
                },
                None => {
                    put_str(&mut list, " class=\"");
                    put_str(&mut list, c);
                    put_str(&mut list, "\"");
                    list
                },
            };
            put_str(&mut state.html, "<p");
            put(&mut state.html, &attrs);
            put_str(&mut state.html, ">");
            state.box_first = Some(true);
            return;
        }
    }
    state.block_styles.push(class);
}

/// A block style opens.
pub open spec fn block_opened(t: Step) -> Step {
    let h = notation::looked(
        "［＃ここから(横組み|ゴシック体|斜体|破線罫囲み|破線枠囲み|二重罫囲み|二重枠囲み|罫囲み|枠囲み)］"@,
        t.raw,
        '［',
    );
    if h.0.len() == 0 {
        t
    } else {
        goes_on(
            Step { state: style_opened(t.state, notation::group(h.0[0].2, 1)), ..t },
            notation::without_first(h),
        )
    }
}

fn open_block(state: &mut BodyState, raw: &mut String, pending: &PendingClose) -> (done: bool)
    ensures
        step(*final(state), *final(raw), *pending, done) == block_opened(
            step(*old(state), *old(raw), *pending, false),
        ),
{
    let h = look(
        "［＃ここから(横組み|ゴシック体|斜体|破線罫囲み|破線枠囲み|二重罫囲み|二重枠囲み|罫囲み|枠囲み)］",
        raw.as_str(),
        '［',
    );
    assert(notation::hits(h).0.len() == h.hits@.len());
    if h.hits.len() == 0 {
        return false;
    }
    assert(notation::hits(h).0[0] == notation::hit(h.hits@[0]));
    let name = group_of(&h.hits[0], 1);
    open_style(state, &name);
    *raw = drop_first(&h);
    is_blank(raw.as_str())
}

/// A block style closes behind this line: a box by its name, the innermost other style by any
/// other. The end mark is removed in whatever form it has.
pub open spec fn block_closed(t: Step) -> Step {
    let h = notation::looked(
        "［＃ここで(横組み|ゴシック体|斜体|[^］]*囲み)終わり］"@,
        t.raw,
        '［',
    );
    if h.0.len() == 0 {
        t
    } else {
        let rest = notation::without_first(
            notation::looked("［＃ここで[^］]*終わり］"@, t.raw, '［'),
        );
        let pending = if text::spec_contains(notation::group(h.0[0].2, 1), "囲み"@) {
            PendingClose { box_p: true, ..t.pending }
        } else {
            PendingClose { block_style: true, ..t.pending }
        };
        goes_on(Step { pending, ..t }, rest)
    }
}

fn close_block(state: &BodyState, raw: &mut String, pending: &mut PendingClose) -> (done: bool)
    ensures
        step(*state, *final(raw), *final(pending), done) == block_closed(
            step(*state, *old(raw), *old(pending), false),
        ),
{
    let h = look("［＃ここで(横組み|ゴシック体|斜体|[^］]*囲み)終わり］", raw.as_str(), '［');
    assert(notation::hits(h).0.len() == h.hits@.len());
    if h.hits.len() == 0 {
        return false;
    }
    assert(notation::hits(h).0[0] == notation::hit(h.hits@[0]));
    let name = group_of(&h.hits[0], 1);
    if has_str(&name, "囲み") {
        pending.box_p = true;
    } else {
        pending.block_style = true;
    }
    let ends = look("［＃ここで[^］]*終わり］", raw.as_str(), '［');
    *raw = drop_first(&ends);
    is_blank(raw.as_str())
}

/// A page or section break resets the block state. A line that holds nothing else is done; of
/// another the marks are removed.
pub open spec fn page_broken(t: Step) -> Step {
    let h = notation::looked("［＃(改ページ|改丁|ページの左右中央)］"@, t.raw, '［');
    if h.0.len() == 0 {
        t
    } else {
        let r = Step { state: broken_off(t.state), pending: nothing_pending(), ..t };
        if notation::looked(
            "^［＃(改ページ|改丁|ページの左右中央)］\\s*$"@,
            text::spec_trim(t.raw),
            '［',
        ).0.len() > 0 {
            Step { done: true, ..r }
        } else {
            Step { raw: notation::filled_from(Fill::Drop, h.0, 0, h.1, Seq::empty()), ..r }
        }
    }
}

fn break_page(state: &mut BodyState, raw: &mut String, pending: &mut PendingClose) -> (done: bool)
    ensures
        step(*final(state), *final(raw), *final(pending), done) == page_broken(
            step(*old(state), *old(raw), *old(pending), false),
        ),
{
    let h = look("［＃(改ページ|改丁|ページの左右中央)］", raw.as_str(), '［');
    assert(notation::hits(h).0.len() == h.hits@.len());
    if h.hits.len() == 0 {
        return false;
    }
    break_off(state);
    *pending = PendingClose { block_style: false, indent: false, box_p: false };
    let chars = chars_of(raw.as_str());
    let bare = string_of(trim(&chars));
    let only = look("^［＃(改ページ|改丁|ページの左右中央)］\\s*$", bare.as_str(), '［');
    assert(notation::hits(only).0.len() == only.hits@.len());
    if only.hits.len() > 0 {
        return true;
    }
    *raw = drop_all(&h);
    false
}

/// A heading resets the block state.
pub open spec fn heading_ahead(t: Step) -> Step {
    if notation::looked("［＃[大中小]見出し］"@, t.raw, '［').0.len() > 0 {
        Step { state: broken_off(t.state), pending: nothing_pending(), ..t }
    } else {
        t
    }
}

fn before_heading(state: &mut BodyState, raw: &String, pending: &mut PendingClose)
    ensures
        step(*final(state), *raw, *final(pending), false) == heading_ahead(
            step(*old(state), *raw, *old(pending), false),
        ),
{
    let h = look("［＃[大中小]見出し］", raw.as_str(), '［');
    assert(notation::hits(h).0.len() == h.hits@.len());
    if h.hits.len() > 0 {
        break_off(state);
        *pending = PendingClose { block_style: false, indent: false, box_p: false };
    }
}

/// A heading's text without notes on the source.
pub open spec fn without_notes(s: Seq<char>) -> Seq<char> {
    notation::ruled(
        s,
        Rule { pattern: "［＃「[^」]*」は底本では[^］]*］", fill: Fill::Drop },
        '［',
        Seq::empty(),
    )
}

fn strip_editorial_notes_for_heading(s: &str) -> (r: String)
    ensures
        r@ == without_notes(s@),
{
    let none: Vec<(String, String)> = Vec::new();
    assert(none@ =~= Seq::empty());
    let rule = Rule { pattern: "［＃「[^」]*」は底本では[^］]*］", fill: Fill::Drop };
    apply_rule(s, &rule, '［', &none)
}

/// A heading's text without readings and `｜` marks.
pub open spec fn plain(s: Seq<char>) -> Seq<char> {
    text::spec_replace(
        notation::ruled(
            s,
            Rule { pattern: "《[^》]*》", fill: Fill::Drop },
            '《',
            Seq::empty(),
        ),
        "｜"@,
        ""@,
    )
}

fn plain_text_for_heading(s: &str) -> (r: Vec<char>)
    ensures
        r@ == plain(s@),
{
    let none: Vec<(String, String)> = Vec::new();
    assert(none@ =~= Seq::empty());
    let rule = Rule { pattern: "《[^》]*》", fill: Fill::Drop };
    let bare = apply_rule(s, &rule, '《', &none);
    let chars = chars_of(bare.as_str());
    proof {
        reveal_strlit("｜");
    }
    replace_str(&chars, "｜", "")
}

/// The id of the next heading.
pub open spec fn next_id(s: State) -> Seq<char> {
    "h"@ + text::decimal((s.toc.len() + 1) as nat)
}

/// The body with one more heading: `label` goes to the contents, and `source`, converted, to the
/// body.
pub open spec fn headed(
    s: State,
    level: u8,
    label: Seq<char>,
    source: Seq<char>,
    gaiji: Seq<(String, String)>,
) -> State {
    let id = next_id(s);
    let name = "h"@ + text::decimal(level as nat);
    State {
        toc: s.toc.push((id, level, label)),
        html: s.html + "<"@ + name + " id=\""@ + id + "\">"@ + line::converted(source, gaiji)
            + "</"@ + name + ">\n"@,
        images: s.images + line::images_in(source),
        ..s
    }
}

/// Write a heading.
pub fn add_heading(
    state: &mut BodyState,
    level: u8,
    label: &[char],
    source: &str,
    gaiji: &Vec<(String, String)>,
)
    ensures
        final(state)@ == headed(old(state)@, level, label@, source@, gaiji@),
{
    let ghost start = state@;
    let mut id: Vec<char> = Vec::new();
    put_str(&mut id, "h");
    let count = decimal_of_sum(state.toc.len() as u128 + 1);
    put(&mut id, &count);
    assert(start.toc.len() == state.toc@.len());
    assert(id@ =~= next_id(start));
    let mut name: Vec<char> = Vec::new();
    put_str(&mut name, "h");
    let digit = decimal_of(level as usize);
    put(&mut name, &digit);
    assert(name@ =~= "h"@ + text::decimal(level as nat));
    let entry_here = TocEntry { id: string_of(&id), level, text: string_of(label) };
    let ghost e = entry(entry_here);
    state.toc.push(entry_here);
    assert(entries(state.toc@) =~= start.toc.push(e));
    let inner = convert_line(source, &mut state.referenced_images, gaiji);
    put_str(&mut state.html, "<");
    put(&mut state.html, &name);
    put_str(&mut state.html, " id=\"");
    put(&mut state.html, &id);
    put_str(&mut state.html, "\">");
    put_str(&mut state.html, inner.as_str());
    put_str(&mut state.html, "</");
    put(&mut state.html, &name);
    put_str(&mut state.html, ">\n");
}

/// A heading between its marks: 大 becomes `<h2>`, 中 `<h3>`, 小 `<h4>`. Notes on the source are
/// kept out of it.
pub open spec fn heading_set(t: Step, gaiji: Seq<(String, String)>) -> Step {
    let big = notation::looked("［＃大見出し］(.+?)［＃大見出し終わり］"@, t.raw, '［');
    let middle = notation::looked("［＃中見出し］(.+?)［＃中見出し終わり］"@, t.raw, '［');
    let small = notation::looked("［＃小見出し］(.+?)［＃小見出し終わり］"@, t.raw, '［');
    if big.0.len() > 0 {
        let text = without_notes(notation::group(big.0[0].2, 1));
        Step { state: headed(t.state, 2, plain(text), text, gaiji), done: true, ..t }
    } else if middle.0.len() > 0 {
        let text = without_notes(notation::group(middle.0[0].2, 1));
        Step { state: headed(t.state, 3, plain(text), text, gaiji), done: true, ..t }
    } else if small.0.len() > 0 {
        let text = without_notes(notation::group(small.0[0].2, 1));
        Step { state: headed(t.state, 4, plain(text), text, gaiji), done: true, ..t }
    } else {
        t
    }
}

fn set_heading(
    state: &mut BodyState,
    raw: &String,
    pending: &PendingClose,
    gaiji: &Vec<(String, String)>,
) -> (done: bool)
    ensures
        step(*final(state), *raw, *pending, done) == heading_set(
            step(*old(state), *raw, *pending, false),
            gaiji@,
        ),
{
    let big = look("［＃大見出し］(.+?)［＃大見出し終わり］", raw.as_str(), '［');
    assert(notation::hits(big).0.len() == big.hits@.len());
    if big.hits.len() > 0 {
        assert(notation::hits(big).0[0] == notation::hit(big.hits@[0]));
        let marked = string_of(&group_of(&big.hits[0], 1));
        let bare = strip_editorial_notes_for_heading(marked.as_str());
        let label = plain_text_for_heading(bare.as_str());
        add_heading(state, 2, &label, bare.as_str(), gaiji);
        return true;
    }
    let middle = look("［＃中見出し］(.+?)［＃中見出し終わり］", raw.as_str(), '［');
    assert(notation::hits(middle).0.len() == middle.hits@.len());
    if middle.hits.len() > 0 {
        assert(notation::hits(middle).0[0] == notation::hit(middle.hits@[0]));
        let marked = string_of(&group_of(&middle.hits[0], 1));
        let bare = strip_editorial_notes_for_heading(marked.as_str());
        let label = plain_text_for_heading(bare.as_str());
        add_heading(state, 3, &label, bare.as_str(), gaiji);
        return true;
    }
    let small = look("［＃小見出し］(.+?)［＃小見出し終わり］", raw.as_str(), '［');
    assert(notation::hits(small).0.len() == small.hits@.len());
    if small.hits.len() > 0 {
        assert(notation::hits(small).0[0] == notation::hit(small.hits@[0]));
        let marked = string_of(&group_of(&small.hits[0], 1));
        let bare = strip_editorial_notes_for_heading(marked.as_str());
        let label = plain_text_for_heading(bare.as_str());
        add_heading(state, 4, &label, bare.as_str(), gaiji);
        return true;
    }
    false
}

/// The marks of an indent of one line.
pub open spec fn single_indents(raw: Seq<char>) -> (
    Seq<(Seq<char>, Seq<char>, Seq<Option<Seq<char>>>)>,
    Seq<char>,
) {
    notation::looked("［＃(?:天から)?([０-９0-9]+)字下げ］"@, raw, '［')
}

/// The indent of a line: its own takes the place of the block's.
pub open spec fn line_indent(raw: Seq<char>, block: Option<Indent>) -> Option<Indent> {
    let h = single_indents(raw);
    if h.0.len() > 0 {
        match notation::number(notation::group(h.0[0].2, 1)) {
            Some(n) => Some(Indent { first: n as u32, wrap: n as u32 }),
            None => block,
        }
    } else {
        block
    }
}

/// The line without the marks of its own indent.
pub open spec fn unindented(raw: Seq<char>) -> Seq<char> {
    let h = single_indents(raw);
    notation::filled_from(Fill::Drop, h.0, 0, h.1, Seq::empty())
}

fn take_indent(raw: &mut String, block: Option<Indent>) -> (r: Option<Indent>)
    ensures
        r == line_indent(old(raw)@, block),
        final(raw)@ == unindented(old(raw)@),
{
    let h = look("［＃(?:天から)?([０-９0-9]+)字下げ］", raw.as_str(), '［');
    assert(notation::hits(h).0.len() == h.hits@.len());
    let mut r = block;
    if h.hits.len() > 0 {
        assert(notation::hits(h).0[0] == notation::hit(h.hits@[0]));
        let count = group_of(&h.hits[0], 1);
        if let Some(n) = parse_zenkaku_int(&count) {
            r = Some(Indent { first: n, wrap: n });
        }
    }
    *raw = drop_all(&h);
    r
}

/// The level of a heading of this size.
pub open spec fn level_of(kind: Seq<char>) -> u8 {
    if kind == "大"@ {
        2
    } else if kind == "中"@ {
        3
    } else {
        4
    }
}

/// A heading whose mark follows it: `TEXT［＃「TEXT」は中見出し］`, where the text before the mark is
/// the quoted one. It resets the block state, as other headings do.
pub open spec fn heading_marked(t: Step, gaiji: Seq<(String, String)>) -> Step {
    let h = notation::looked("［＃「(.+)」は([大中小])見出し］"@, t.raw, '［');
    if h.0.len() > 0 {
        let head = text::spec_trim_end(h.0[0].0);
        let target = notation::group(h.0[0].2, 1);
        if plain(head) == target {
            Step {
                state: headed(
                    broken_off(t.state),
                    level_of(notation::group(h.0[0].2, 2)),
                    target,
                    head,
                    gaiji,
                ),
                pending: nothing_pending(),
                done: true,
                ..t
            }
        } else {
            t
        }
    } else {
        t
    }
}

fn mark_heading(
    state: &mut BodyState,
    raw: &String,
    pending: &mut PendingClose,
    gaiji: &Vec<(String, String)>,
) -> (done: bool)
    ensures
        step(*final(state), *raw, *final(pending), done) == heading_marked(
            step(*old(state), *raw, *old(pending), false),
            gaiji@,
        ),
{
    let h = look("［＃「(.+)」は([大中小])見出し］", raw.as_str(), '［');
    assert(notation::hits(h).0.len() == h.hits@.len());
    if h.hits.len() == 0 {
        return false;
    }
    assert(notation::hits(h).0[0] == notation::hit(h.hits@[0]));
    let before = chars_of(h.hits[0].before.as_str());
    let head = string_of(trim_end(&before));
    let target = group_of(&h.hits[0], 1);
    let label = plain_text_for_heading(head.as_str());
    if !same(&label, &target) {
        return false;
    }
    let kind = group_of(&h.hits[0], 2);
    let level: u8 = if is(&kind, "大") {
        2
    } else if is(&kind, "中") {
        3
    } else {
        4
    };
    break_off(state);
    *pending = PendingClose { block_style: false, indent: false, box_p: false };
    add_heading(state, level, &target, head.as_str(), gaiji);
    true
}

/// The attributes of a paragraph: its indent, and the classes of the open block styles.
pub open spec fn paragraph_attrs(indent: Option<Indent>, styles: Seq<Option<&'static str>>) -> Seq<
    char,
> {
    let classes = class_list(styles, 0);
    match indent {
        Some(i) => indent_attrs(i, classes),
        None => if classes.len() == 0 {
            Seq::empty()
        } else {
            " class=\""@ + classes.subrange(1, classes.len() as int) + "\""@
        },
    }
}

fn attrs_of(indent: Option<Indent>, styles: &Vec<Option<&'static str>>) -> (r: Vec<char>)
    ensures
        r@ == paragraph_attrs(indent, styles@),
{
    let classes = classes_of(styles);
    match indent {
        Some(i) => i.attrs(&classes),
        None => {
            let mut out: Vec<char> = Vec::new();
            let n = classes.len();
            if n > 0 {
                put_str(&mut out, " class=\"");
                put(&mut out, &classes[1..n]);
                put_str(&mut out, "\"");
            }
            assert(out@ =~= paragraph_attrs(indent, styles@));
            out
        },
    }
}

/// The body with an ordinary line: within a box the line joins the box's paragraph behind a
/// `<br/>`; a blank line is an empty paragraph; another is a paragraph of its own.
pub open spec fn written(
    s: State,
    raw: Seq<char>,
    indent: Option<Indent>,
    gaiji: Seq<(String, String)>,
) -> State {
    let inner = line::converted(raw, gaiji);
    let images = s.images + line::images_in(raw);
    match s.box_first {
        Some(first) => {
            let lead = s.html + if first {
                Seq::empty()
            } else {
                "<br/>"@
            };
            if text::all_white(raw) {
                State { html: lead, box_first: Some(false), ..s }
            } else {
                State { html: lead + inner, box_first: Some(false), images, ..s }
            }
        },
        None => if text::all_white(raw) {
            State { html: s.html + "<p><br/></p>\n"@, ..s }
        } else {
            State {
                html: s.html + "<p"@ + paragraph_attrs(indent, s.styles) + ">"@ + inner
                    + "</p>\n"@,
                images,
                ..s
            }
        },
    }
}

/// Write an ordinary line.
fn write_line(
    state: &mut BodyState,
    raw: &str,
    indent: Option<Indent>,
    gaiji: &Vec<(String, String)>,
)
    ensures
        final(state)@ == written(old(state)@, raw@, indent, gaiji@),
{
    let ghost start = state@;
    let empty = is_blank(raw);
    if let Some(first) = state.box_first {
        if !first {
            put_str(&mut state.html, "<br/>");
        } else {
            assert(start.html + Seq::<char>::empty() =~= start.html);
        }
        if !empty {
            let inner = convert_line(raw, &mut state.referenced_images, gaiji);
            put_str(&mut state.html, inner.as_str());
        }
        state.box_first = Some(false);
        return;
    }
    if empty {
        put_str(&mut state.html, "<p><br/></p>\n");
        return;
    }
    let attrs = attrs_of(indent, &state.block_styles);
    let inner = convert_line(raw, &mut state.referenced_images, gaiji);
    put_str(&mut state.html, "<p");
    put(&mut state.html, &attrs);
    put_str(&mut state.html, ">");
    put_str(&mut state.html, inner.as_str());
    put_str(&mut state.html, "</p>\n");
}

/// What the marks of blocks at or in a line make of it.
pub open spec fn blocks_marked(t: Step) -> Step {
    let a = indent_opened(t);
    if a.done {
        a
    } else {
        let b = indent_closed(a);
        if b.done {
            b
        } else {
            let c = jizume_dropped(b);
            if c.done {
                c
            } else {
                let d = block_opened(c);
                if d.done {
                    d
                } else {
                    let e = block_closed(d);
                    if e.done {
                        e
                    } else {
                        page_broken(e)
                    }
                }
            }
        }
    }
}

fn mark_blocks(state: &mut BodyState, raw: &mut String, pending: &mut PendingClose) -> (done: bool)
    ensures
        step(*final(state), *final(raw), *final(pending), done) == blocks_marked(
            step(*old(state), *old(raw), *old(pending), false),
        ),
{
    if open_indent(state, raw, pending) {
        return true;
    }
    if close_indent(state, raw, pending) {
        return true;
    }
    if drop_jizume(state, raw, pending) {
        return true;
    }
    if open_block(state, raw, pending) {
        return true;
    }
    if close_block(state, raw, pending) {
        return true;
    }
    break_page(state, raw, pending)
}

/// The body after a line, and what is to be closed behind it.
pub open spec fn line_processed(s: State, raw: Seq<char>, gaiji: Seq<(String, String)>) -> (
    State,
    PendingClose,
) {
    let a = blocks_marked(Step { state: s, raw, pending: nothing_pending(), done: false });
    if a.done {
        (a.state, a.pending)
    } else {
        let b = heading_set(heading_ahead(a), gaiji);
        if b.done {
            (b.state, b.pending)
        } else {
            let indent = line_indent(b.raw, b.state.indent);
            let c = heading_marked(Step { raw: unindented(b.raw), ..b }, gaiji);
            if c.done {
                (c.state, c.pending)
            } else {
                (written(c.state, c.raw, indent, gaiji), c.pending)
            }
        }
    }
}

fn process_line_inner(raw_in: &[char], state: &mut BodyState, gaiji: &Vec<(String, String)>) -> (r:
    PendingClose)
    ensures
        (final(state)@, r) == line_processed(old(state)@, raw_in@, gaiji@),
{
    let mut raw = string_of(raw_in);
    let mut pending = PendingClose { block_style: false, indent: false, box_p: false };
    if mark_blocks(state, &mut raw, &mut pending) {
        return pending;
    }
    before_heading(state, &raw, &mut pending);
    if set_heading(state, &raw, &pending, gaiji) {
        return pending;
    }
    let indent = take_indent(&mut raw, state.indent);
    if mark_heading(state, &raw, &mut pending, gaiji) {
        return pending;
    }
    write_line(state, raw.as_str(), indent, gaiji);
    pending
}

/// The body once a line's ranges are closed behind it.
pub open spec fn closed_behind(s: State, pending: PendingClose) -> State {
    let a = if pending.box_p {
        unboxed(s)
    } else {
        s
    };
    State {
        styles: if pending.block_style && a.styles.len() > 0 {
            a.styles.drop_last()
        } else {
            a.styles
        },
        indent: if pending.indent {
            None
        } else {
            a.indent
        },
        ..a
    }
}

/// The body after one more line.
#[verifier::opaque]
pub open spec fn after_line(s: State, raw: Seq<char>, gaiji: Seq<(String, String)>) -> State {
    let r = line_processed(s, raw, gaiji);
    closed_behind(r.0, r.1)
}

/// Read one line of the body.
pub fn process_line(raw_in: &[char], state: &mut BodyState, gaiji: &Vec<(String, String)>)
    ensures
        final(state)@ == after_line(old(state)@, raw_in@, gaiji@),
{
    proof {
        reveal(after_line);
    }
    let pending = process_line_inner(raw_in, state, gaiji);
    if pending.box_p {
        close_open_boxes(state);
    }
    if pending.block_style {
        let _ = state.block_styles.pop();
    }
    if pending.indent {
        state.indent = None;
    }
}

/// The lines of a text, whatever ends them.
pub open spec fn lines_in(s: Seq<char>) -> Seq<Seq<char>> {
    text::spec_split(
        text::spec_replace(text::spec_replace(s, "\r\n"@, "\n"@), "\r"@, "\n"@),
        '\n',
    )
}

/// The first `n` of the lines from `i` on that are not blank, trimmed.
pub open spec fn first_lines(lines: Seq<Seq<char>>, i: int, n: int) -> Seq<Seq<char>>
    decreases lines.len() - i,
{
    if i < 0 || i >= lines.len() || n <= 0 {
        Seq::empty()
    } else if text::spec_trim(lines[i]).len() == 0 {
        first_lines(lines, i + 1, n)
    } else {
        seq![text::spec_trim(lines[i])] + first_lines(lines, i + 1, n - 1)
    }
}

/// The line of dashes that separates the parts of a text.
pub open spec fn is_rule(s: Seq<char>) -> bool {
    text::spec_starts(text::spec_trim(s), "-----"@)
}

/// Behind the last rule among the first `n` lines.
pub open spec fn behind_rules(lines: Seq<Seq<char>>, n: int) -> int
    decreases n,
{
    if n <= 0 {
        0
    } else if is_rule(lines[n - 1]) {
        n
    } else {
        behind_rules(lines, n - 1)
    }
}

/// A line that names the book the text was taken from.
pub open spec fn names_source(s: Seq<char>) -> bool {
    text::spec_starts(text::spec_trim(s), "底本："@) || text::spec_starts(
        text::spec_trim(s),
        "底本:"@,
    )
}

/// The last line in `from..n` that names the source; `to` where none does.
pub open spec fn source_line(lines: Seq<Seq<char>>, from: int, n: int, to: int) -> int
    decreases n - from,
{
    if n <= from {
        to
    } else if names_source(lines[n - 1]) {
        n - 1
    } else {
        source_line(lines, from, n - 1, to)
    }
}

/// A line that speaks of the file rather than of the book.
pub open spec fn names_file(s: Seq<char>) -> bool {
    text::spec_starts(text::spec_trim(s), "青空文庫作成ファイル"@) || text::spec_starts(
        text::spec_trim(s),
        "このファイルは"@,
    )
}

/// The lines of the colophon from `i` on, trimmed and without blank ones.
pub open spec fn colophon_from(lines: Seq<Seq<char>>, i: int) -> Seq<Seq<char>>
    decreases lines.len() - i,
{
    if i < 0 || i >= lines.len() || names_file(lines[i]) {
        Seq::empty()
    } else if text::spec_trim(lines[i]).len() == 0 {
        colophon_from(lines, i + 1)
    } else {
        seq![text::spec_trim(lines[i])] + colophon_from(lines, i + 1)
    }
}

/// The first line in `i..to` that is not blank, or `to`.
pub open spec fn past_blank(lines: Seq<Seq<char>>, i: int, to: int) -> int
    decreases to - i,
{
    if i < to && text::all_white(lines[i]) {
        past_blank(lines, i + 1, to)
    } else {
        i
    }
}

/// Behind the last line in `from..to` that is not blank, or `from`.
pub open spec fn before_blank(lines: Seq<Seq<char>>, from: int, to: int) -> int
    decreases to - from,
{
    if from < to && text::all_white(lines[to - 1]) {
        before_blank(lines, from, to - 1)
    } else {
        to
    }
}

/// The body after the lines `from..to`.
pub open spec fn body_to(
    lines: Seq<Seq<char>>,
    from: int,
    to: int,
    gaiji: Seq<(String, String)>,
) -> State
    decreases to - from,
{
    if to <= from {
        no_body()
    } else {
        after_line(body_to(lines, from, to - 1, gaiji), lines[to - 1], gaiji)
    }
}

/// What a document holds.
pub struct Parsed {
    pub title: Seq<char>,
    pub author: Seq<char>,
    pub body: Seq<char>,
    pub toc: Seq<(Seq<char>, u8, Seq<char>)>,
    pub colophon: Seq<char>,
    pub images: Seq<Seq<char>>,
}

impl Document {
    pub open spec fn view(&self) -> Parsed {
        Parsed {
            title: self.title@,
            author: self.author@,
            body: self.body_xhtml@,
            toc: entries(self.toc@),
            colophon: self.colophon@,
            images: text::strs(self.referenced_images@),
        }
    }
}

/// The `i`-th of some texts, empty where there are fewer.
pub open spec fn nth(v: Seq<Seq<char>>, i: int) -> Seq<char> {
    if i < v.len() {
        v[i]
    } else {
        Seq::empty()
    }
}

/// The document that lines spell. The title and the author are the first two lines that are not
/// blank. The body stands behind the last rule of dashes and before the last line that names the
/// source, without the blank lines at either end; what follows it, up to a line on the file, is
/// the colophon.
pub open spec fn parsed(lines: Seq<Seq<char>>, gaiji: Seq<(String, String)>) -> Parsed {
    let n = lines.len() as int;
    let head = first_lines(lines, 0, 2);
    let start = behind_rules(lines, n);
    let end = source_line(lines, start + 1, n, n);
    let from = past_blank(lines, start, end);
    let to = before_blank(lines, from, end);
    let body = unboxed(body_to(lines, from, to, gaiji));
    Parsed {
        title: nth(head, 0),
        author: nth(head, 1),
        body: body.html,
        toc: body.toc,
        colophon: text::spec_join(colophon_from(lines, end), "\n"@),
        images: body.images,
    }
}

/// The first two lines that are not blank, trimmed.
fn header_of(lines: &Vec<Vec<char>>) -> (r: (Vec<char>, Vec<char>))
    ensures
        r.0@ == nth(first_lines(text::texts(lines@), 0, 2), 0),
        r.1@ == nth(first_lines(text::texts(lines@), 0, 2), 1),
{
    let n = lines.len();
    let mut found: Vec<Vec<char>> = Vec::new();
    let mut i: usize = 0;
    let ghost v = text::texts(lines@);
    assert(v.len() == n);
    while i < n && found.len() < 2
        invariant
            i <= n,
            n == lines@.len(),
            v == text::texts(lines@),
            v.len() == n,
            found@.len() <= 2,
            text::texts(found@) + first_lines(v, i as int, 2 - found@.len()) == first_lines(
                v,
                0,
                2,
            ),
        decreases n - i,
    {
        assert(v[i as int] == lines@[i as int]@);
        let ghost before = text::texts(found@);
        let t = trim(&lines[i]);
        if t.len() != 0 {
            let ghost rest = first_lines(v, i + 1, 2 - found@.len() - 1);
            let piece = copy(t);
            add_text(&mut found, piece);
            assert(before + (seq![t@] + rest) =~= text::texts(found@) + rest);
        }
        i += 1;
    }
    let ghost all = first_lines(v, 0, 2);
    assert(text::texts(found@) =~= all);
    let k = found.len();
    assert(all.len() == k);
    let title: Vec<char> = if k > 0 {
        assert(all[0] == found@[0]@);
        copy(&found[0])
    } else {
        Vec::new()
    };
    let author: Vec<char> = if k > 1 {
        assert(all[1] == found@[1]@);
        copy(&found[1])
    } else {
        Vec::new()
    };
    (title, author)
}

/// Where the body starts.
fn body_start(lines: &Vec<Vec<char>>) -> (r: usize)
    ensures
        r == behind_rules(text::texts(lines@), lines@.len() as int),
        r <= lines@.len(),
{
    let mut n = lines.len();
    let ghost v = text::texts(lines@);
    while n > 0
        invariant
            n <= lines@.len(),
            v == text::texts(lines@),
            behind_rules(v, n as int) == behind_rules(v, lines@.len() as int),
        decreases n,
    {
        assert(v[n - 1] == lines@[n - 1]@);
        if starts_str(trim(&lines[n - 1]), "-----") {
            return n;
        }
        n -= 1;
    }
    0
}

/// Where the body ends.
fn body_end(lines: &Vec<Vec<char>>, start: usize) -> (r: usize)
    requires
        start <= lines@.len(),
    ensures
        r == source_line(text::texts(lines@), start + 1, lines@.len() as int, lines@.len() as int),
        start <= r <= lines@.len(),
{
    let all = lines.len();
    let mut n = all;
    let ghost v = text::texts(lines@);
    while n > 0 && n - 1 > start
        invariant
            n <= all,
            start <= all,
            all == lines@.len(),
            v == text::texts(lines@),
            source_line(v, start + 1, n as int, all as int) == source_line(
                v,
                start + 1,
                all as int,
                all as int,
            ),
        decreases n,
    {
        assert(v[n - 1] == lines@[n - 1]@);
        let t = trim(&lines[n - 1]);
        if starts_str(t, "底本：") || starts_str(t, "底本:") {
            return n - 1;
        }
        n -= 1;
    }
    all
}

/// The colophon that starts at line `from`.
fn colophon_of(lines: &Vec<Vec<char>>, from: usize) -> (r: Vec<char>)
    ensures
        r@ == text::spec_join(colophon_from(text::texts(lines@), from as int), "\n"@),
{
    let n = lines.len();
    let mut found: Vec<Vec<char>> = Vec::new();
    let mut i: usize = from;
    let ghost v = text::texts(lines@);
    assert(v.len() == n);
    assert(text::texts(found@) + colophon_from(v, from as int) =~= colophon_from(v, from as int));
    while i < n
        invariant_except_break
            text::texts(found@) + colophon_from(v, i as int) == colophon_from(v, from as int),
        invariant
            n == lines@.len(),
            v == text::texts(lines@),
            v.len() == n,
        ensures
            text::texts(found@) =~= colophon_from(v, from as int),
        decreases n - i,
    {
        assert(v[i as int] == lines@[i as int]@);
        let t = trim(&lines[i]);
        if starts_str(t, "青空文庫作成ファイル") || starts_str(t, "このファイルは") {
            break;
        }
        let ghost before = text::texts(found@);
        let ghost rest = colophon_from(v, i + 1);
        if t.len() != 0 {
            let piece = copy(t);
            add_text(&mut found, piece);
            assert(before + (seq![t@] + rest) =~= text::texts(found@) + rest);
        }
        i += 1;
    }
    join(&found, "\n")
}

/// The body that the lines `from..to` spell.
fn read_body(lines: &Vec<Vec<char>>, from: usize, to: usize, gaiji: &Vec<(String, String)>) -> (r:
    BodyState)
    requires
        from <= to <= lines@.len(),
    ensures
        r@ == body_to(text::texts(lines@), from as int, to as int, gaiji@),
{
    let ghost v = text::texts(lines@);
    let mut state = BodyState {
        indent: None,
        block_styles: Vec::new(),
        box_first: None,
        toc: Vec::new(),
        html: Vec::new(),
        referenced_images: Vec::new(),
    };
    assert(state@.toc =~= Seq::empty());
    assert(state@.images =~= Seq::empty());
    let mut i: usize = from;
    while i < to
        invariant
            from <= i <= to,
            to <= lines@.len(),
            v == text::texts(lines@),
            state@ == body_to(v, from as int, i as int, gaiji@),
        decreases to - i,
    {
        assert(v[i as int] == lines@[i as int]@);
        process_line(&lines[i], &mut state, gaiji);
        i += 1;
    }
    state
}

/// Parse Aozora `.txt` source into a [`Document`]. `gaiji` gives the characters that descriptions
/// in the text name.
pub fn parse_txt(text: &str, gaiji: &Vec<(String, String)>) -> (r: Document)
    ensures
        r@ == parsed(lines_in(text@), gaiji@),
{
    let chars = chars_of(text);
    proof {
        reveal_strlit("\r\n");
        reveal_strlit("\r");
    }
    let a = replace_str(&chars, "\r\n", "\n");
    let b = replace_str(&a, "\r", "\n");
    let lines = split(&b, '\n');
    let ghost v = text::texts(lines@);
    assert(v.len() == lines@.len());
    let (title, author) = header_of(&lines);
    let start = body_start(&lines);
    let end = body_end(&lines, start);
    let colophon = colophon_of(&lines, end);
    let mut from: usize = start;
    while from < end && blank(&lines[from])
        invariant
            start <= from <= end,
            end <= lines@.len(),
            v == text::texts(lines@),
            past_blank(v, from as int, end as int) == past_blank(v, start as int, end as int),
        decreases end - from,
    {
        assert(v[from as int] == lines@[from as int]@);
        from += 1;
    }
    if from < end {
        assert(v[from as int] == lines@[from as int]@);
    }
    let mut to: usize = end;
    while from < to && blank(&lines[to - 1])
        invariant
            from <= to <= end,
            end <= lines@.len(),
            v == text::texts(lines@),
            before_blank(v, from as int, to as int) == before_blank(v, from as int, end as int),
        decreases to,
    {
        assert(v[to - 1] == lines@[to - 1]@);
        to -= 1;
    }
    if from < to {
        assert(v[to - 1] == lines@[to - 1]@);
    }
    let mut state = read_body(&lines, from, to, gaiji);
    close_open_boxes(&mut state);
    let body = string_of(&state.html);
    Document {
        title: string_of(&title),
        author: string_of(&author),
        body_xhtml: body,
        toc: state.toc,
        colophon: string_of(&colophon),
        referenced_images: state.referenced_images,
    }
}

/// What was written stays, and what comes is added behind it; every heading is numbered by its
/// place, and its level is that of `<h2>`, `<h3>` or `<h4>`.
pub open spec fn adds_to(s: State, t: State) -> bool {
    &&& s.html.is_prefix_of(t.html)
    &&& s.toc.is_prefix_of(t.toc)
    &&& s.images.is_prefix_of(t.images)
    &&& forall|i: int|
        s.toc.len() <= i < t.toc.len() ==> (#[trigger] t.toc[i]).0 == "h"@ + text::decimal(
            (i + 1) as nat,
        ) && 2 <= t.toc[i].1 <= 4
}

proof fn lemma_adds_chain(a: State, b: State, c: State)
    requires
        adds_to(a, b),
        adds_to(b, c),
    ensures
        adds_to(a, c),
{
    assert forall|i: int| a.toc.len() <= i < c.toc.len() implies (#[trigger] c.toc[i]).0 == "h"@
        + text::decimal((i + 1) as nat) && 2 <= c.toc[i].1 <= 4 by {
        if i < b.toc.len() {
            assert(c.toc[i] == b.toc[i]);
        }
    }
}

proof fn lemma_blocks_add(t: Step)
    ensures
        adds_to(t.state, blocks_marked(t).state),
{
    let a = indent_opened(t);
    let b = indent_closed(a);
    let c = jizume_dropped(b);
    let d = block_opened(c);
    let e = block_closed(d);
    let f = page_broken(e);
    assert(adds_to(t.state, a.state));
    assert(adds_to(a.state, c.state));
    lemma_adds_chain(t.state, a.state, c.state);
    assert(adds_to(c.state, d.state));
    lemma_adds_chain(t.state, c.state, d.state);
    assert(adds_to(d.state, f.state));
    lemma_adds_chain(t.state, d.state, f.state);
}

proof fn lemma_heading_adds(
    s: State,
    level: u8,
    label: Seq<char>,
    source: Seq<char>,
    gaiji: Seq<(String, String)>,
)
    requires
        2 <= level <= 4,
    ensures
        adds_to(s, headed(s, level, label, source, gaiji)),
{
}

proof fn lemma_headings_add(t: Step, gaiji: Seq<(String, String)>)
    ensures
        adds_to(t.state, heading_ahead(t).state),
        adds_to(t.state, heading_set(t, gaiji).state),
        adds_to(t.state, heading_marked(t, gaiji).state),
{
    assert(adds_to(t.state, heading_ahead(t).state));
    lemma_heading_set_adds(t, gaiji);
    let h = notation::looked("［＃「(.+)」は([大中小])見出し］"@, t.raw, '［');
    let level = level_of(notation::group(h.0[0].2, 2));
    let target = notation::group(h.0[0].2, 1);
    let head = text::spec_trim_end(h.0[0].0);
    let off = broken_off(t.state);
    assert(adds_to(t.state, off));
    lemma_heading_adds(off, level, target, head, gaiji);
    lemma_adds_chain(t.state, off, headed(off, level, target, head, gaiji));
}

proof fn lemma_heading_set_adds(t: Step, gaiji: Seq<(String, String)>)
    ensures
        adds_to(t.state, heading_set(t, gaiji).state),
{
    let big = notation::looked("［＃大見出し］(.+?)［＃大見出し終わり］"@, t.raw, '［');
    let middle = notation::looked("［＃中見出し］(.+?)［＃中見出し終わり］"@, t.raw, '［');
    let small = notation::looked("［＃小見出し］(.+?)［＃小見出し終わり］"@, t.raw, '［');
    if big.0.len() > 0 {
        let text = without_notes(notation::group(big.0[0].2, 1));
        lemma_heading_adds(t.state, 2, plain(text), text, gaiji);
    } else if middle.0.len() > 0 {
        let text = without_notes(notation::group(middle.0[0].2, 1));
        lemma_heading_adds(t.state, 3, plain(text), text, gaiji);
    } else if small.0.len() > 0 {
        let text = without_notes(notation::group(small.0[0].2, 1));
        lemma_heading_adds(t.state, 4, plain(text), text, gaiji);
    }
}

proof fn lemma_writing_adds(
    s: State,
    raw: Seq<char>,
    indent: Option<Indent>,
    pending: PendingClose,
    gaiji: Seq<(String, String)>,
)
    ensures
        adds_to(s, written(s, raw, indent, gaiji)),
        adds_to(s, closed_behind(s, pending)),
{
}

proof fn lemma_rest_adds(b: Step, gaiji: Seq<(String, String)>)
    ensures
        ({
            let u = Step { raw: unindented(b.raw), ..b };
            let c = heading_marked(u, gaiji);
            let indent = line_indent(b.raw, b.state.indent);
            &&& adds_to(b.state, c.state)
            &&& adds_to(b.state, written(c.state, c.raw, indent, gaiji))
        }),
{
    let u = Step { raw: unindented(b.raw), ..b };
    let c = heading_marked(u, gaiji);
    let indent = line_indent(b.raw, b.state.indent);
    lemma_headings_add(u, gaiji);
    lemma_writing_adds(c.state, c.raw, indent, nothing_pending(), gaiji);
    lemma_adds_chain(b.state, c.state, written(c.state, c.raw, indent, gaiji));
}

proof fn lemma_line_adds(s: State, raw: Seq<char>, gaiji: Seq<(String, String)>)
    ensures
        adds_to(s, line_processed(s, raw, gaiji).0),
{
    let t = Step { state: s, raw, pending: nothing_pending(), done: false };
    let a = blocks_marked(t);
    lemma_blocks_add(t);
    let h = heading_ahead(a);
    let b = heading_set(h, gaiji);
    lemma_headings_add(a, gaiji);
    lemma_headings_add(h, gaiji);
    lemma_rest_adds(b, gaiji);
    lemma_adds_chain(s, a.state, h.state);
    lemma_adds_chain(s, h.state, b.state);
    let c = heading_marked(Step { raw: unindented(b.raw), ..b }, gaiji);
    lemma_adds_chain(s, b.state, c.state);
    lemma_adds_chain(
        s,
        b.state,
        written(c.state, c.raw, line_indent(b.raw, b.state.indent), gaiji),
    );
}

/// A line only adds to the body: it changes nothing that was written, listed or referred to before
/// it. The headings it adds are numbered by their place in the contents.
pub proof fn a_line_only_adds(s: State, raw: Seq<char>, gaiji: Seq<(String, String)>)
    ensures
        adds_to(s, after_line(s, raw, gaiji)),
{
    reveal(after_line);
    lemma_line_adds(s, raw, gaiji);
    let r = line_processed(s, raw, gaiji);
    lemma_writing_adds(r.0, raw, None, r.1, gaiji);
    lemma_adds_chain(s, r.0, closed_behind(r.0, r.1));
}

/// The start tag of the heading that an entry of the contents leads to.
pub open spec fn heading_tag(e: (Seq<char>, u8, Seq<char>)) -> Seq<char> {
    "<"@ + ("h"@ + text::decimal(e.1 as nat)) + " id=\""@ + e.0 + "\">"@
}

/// The contents gain one entry at most, and its heading is among what was written.
pub open spec fn adds_one_at_most(s: State, t: State) -> bool {
    t.toc == s.toc || (t.toc.len() == s.toc.len() + 1 && t.toc.drop_last() == s.toc && exists|k: int|
        s.html.len() <= k && #[trigger] text::is_at(t.html, heading_tag(t.toc.last()), k))
}

/// A heading that is written is where its entry leads.
proof fn lemma_headed_one(
    s: State,
    x: State,
    level: u8,
    label: Seq<char>,
    source: Seq<char>,
    pending: PendingClose,
    gaiji: Seq<(String, String)>,
)
    requires
        x.toc == s.toc,
        s.html.len() <= x.html.len(),
    ensures
        adds_one_at_most(s, closed_behind(headed(x, level, label, source, gaiji), pending)),
{
    let y = headed(x, level, label, source, gaiji);
    let t = closed_behind(y, pending);
    assert(t.toc == y.toc);
    assert(t.toc.drop_last() =~= s.toc);
    assert(y.html.is_prefix_of(t.html));
    let tag = heading_tag(t.toc.last());
    let k = x.html.len() as int;
    assert(y.html.subrange(k, k + tag.len()) =~= tag);
    assert(t.html.subrange(k, k + tag.len()) =~= y.html.subrange(k, k + tag.len()));
    assert(text::is_at(t.html, tag, k));
}

/// A line adds one heading at most, and lists it under the tag that it writes for it.
pub proof fn a_line_adds_one_heading_at_most(s: State, raw: Seq<char>, gaiji: Seq<(String, String)>)
    ensures
        adds_one_at_most(s, after_line(s, raw, gaiji)),
{
    reveal(after_line);
    let t = Step { state: s, raw, pending: nothing_pending(), done: false };
    let a = blocks_marked(t);
    lemma_blocks_add(t);
    lemma_blocks_no_heading(t);
    if !a.done {
        let h = heading_ahead(a);
        lemma_headings_add(a, gaiji);
        assert(h.state.toc == s.toc);
        assert(s.html.len() <= h.state.html.len());
        let b = heading_set(h, gaiji);
        if b.done {
            lemma_set_one(s, h, gaiji);
        } else {
            let u = Step { raw: unindented(b.raw), ..b };
            let c = heading_marked(u, gaiji);
            if c.done {
                lemma_marked_one(s, u, gaiji);
            }
        }
    }
}

proof fn lemma_blocks_no_heading(t: Step)
    ensures
        blocks_marked(t).state.toc == t.state.toc,
{
    let a = indent_opened(t);
    let b = indent_closed(a);
    let c = jizume_dropped(b);
    let d = block_opened(c);
    let e = block_closed(d);
    assert(a.state.toc == t.state.toc);
    assert(b.state.toc == a.state.toc);
    assert(d.state.toc == c.state.toc);
    assert(e.state.toc == d.state.toc);
}

proof fn lemma_set_one(s: State, h: Step, gaiji: Seq<(String, String)>)
    requires
        h.state.toc == s.toc,
        s.html.len() <= h.state.html.len(),
        !h.done,
        heading_set(h, gaiji).done,
    ensures
        adds_one_at_most(
            s,
            closed_behind(heading_set(h, gaiji).state, heading_set(h, gaiji).pending),
        ),
{
    let big = notation::looked("［＃大見出し］(.+?)［＃大見出し終わり］"@, h.raw, '［');
    let middle = notation::looked("［＃中見出し］(.+?)［＃中見出し終わり］"@, h.raw, '［');
    let small = notation::looked("［＃小見出し］(.+?)［＃小見出し終わり］"@, h.raw, '［');
    if big.0.len() > 0 {
        let text = without_notes(notation::group(big.0[0].2, 1));
        lemma_headed_one(s, h.state, 2, plain(text), text, h.pending, gaiji);
    } else if middle.0.len() > 0 {
        let text = without_notes(notation::group(middle.0[0].2, 1));
        lemma_headed_one(s, h.state, 3, plain(text), text, h.pending, gaiji);
    } else {
        let text = without_notes(notation::group(small.0[0].2, 1));
        lemma_headed_one(s, h.state, 4, plain(text), text, h.pending, gaiji);
    }
}

proof fn lemma_marked_one(s: State, u: Step, gaiji: Seq<(String, String)>)
    requires
        u.state.toc == s.toc,
        s.html.len() <= u.state.html.len(),
        !u.done,
        heading_marked(u, gaiji).done,
    ensures
        adds_one_at_most(
            s,
            closed_behind(heading_marked(u, gaiji).state, heading_marked(u, gaiji).pending),
        ),
{
    let h = notation::looked("［＃「(.+)」は([大中小])見出し］"@, u.raw, '［');
    let level = level_of(notation::group(h.0[0].2, 2));
    let target = notation::group(h.0[0].2, 1);
    let head = text::spec_trim_end(h.0[0].0);
    let off = broken_off(u.state);
    assert(off.toc == s.toc);
    assert(s.html.len() <= off.html.len());
    lemma_headed_one(s, off, level, target, head, nothing_pending(), gaiji);
}

proof fn lemma_body_numbered(
    lines: Seq<Seq<char>>,
    from: int,
    to: int,
    gaiji: Seq<(String, String)>,
)
    ensures
        adds_to(no_body(), body_to(lines, from, to, gaiji)),
    decreases to - from,
{
    if from < to {
        lemma_body_numbered(lines, from, to - 1, gaiji);
        let before = body_to(lines, from, to - 1, gaiji);
        a_line_only_adds(before, lines[to - 1], gaiji);
        lemma_adds_chain(no_body(), before, body_to(lines, from, to, gaiji));
    }
}

/// The contents of a document number its headings from 1, and list only headings of the three
/// levels that the notation has.
pub proof fn headings_are_numbered_in_order(
    lines: Seq<Seq<char>>,
    gaiji: Seq<(String, String)>,
    i: int,
)
    requires
        0 <= i < parsed(lines, gaiji).toc.len(),
    ensures
        parsed(lines, gaiji).toc[i].0 == "h"@ + text::decimal((i + 1) as nat),
        2 <= parsed(lines, gaiji).toc[i].1 <= 4,
{
    let n = lines.len() as int;
    let start = behind_rules(lines, n);
    let end = source_line(lines, start + 1, n, n);
    let from = past_blank(lines, start, end);
    let to = before_blank(lines, from, end);
    lemma_body_numbered(lines, from, to, gaiji);
}

/// The step leaves no indent, no box and no block style open, and nothing to close.
pub open spec fn leaves_nothing_open(t: Step) -> bool {
    &&& t.state.indent is None
    &&& t.state.box_first is None
    &&& t.state.styles.len() == 0
    &&& t.pending == nothing_pending()
}

/// A line that holds a page break, a heading's mark before it, or a heading's mark behind it,
/// leaves no indent, no box and no block style open.
pub proof fn a_break_leaves_nothing_open(t: Step, gaiji: Seq<(String, String)>)
    ensures
        notation::looked("［＃(改ページ|改丁|ページの左右中央)］"@, t.raw, '［').0.len() > 0
            ==> leaves_nothing_open(page_broken(t)),
        notation::looked("［＃[大中小]見出し］"@, t.raw, '［').0.len() > 0 ==> leaves_nothing_open(
            heading_ahead(t),
        ),
        !t.done && heading_marked(t, gaiji).done ==> leaves_nothing_open(heading_marked(t, gaiji)),
{
}

} // verus!
