//! A table of contents that is written into a navigation document is read back.
use vstd::prelude::*;

use crate::escaping;
use crate::markup;
use crate::nav_doc;
use crate::opf;
use crate::read_back;
use crate::reading;
use crate::structure;
use crate::text;
use crate::toc;
use crate::toc_repair;
use crate::reading::Step;
use crate::toc::{Growth, Toc};

verus! {

// ---------------------------------------------------------------- labels

proof fn lemma_no_tags(s: Seq<char>, i: int)
    requires
        0 <= i <= s.len(),
        !s.contains('<'),
    ensures
        toc::stripped_from(s, i) == s.subrange(i, s.len() as int),
    decreases s.len() - i,
{
    if i < s.len() {
        assert(s.contains(s[i]));
        lemma_no_tags(s, i + 1);
        assert(seq![s[i]] + s.subrange(i + 1, s.len() as int) =~= s.subrange(i, s.len() as int));
    }
}

/// The label of a link is the escaped text up to its end tag.
proof fn lemma_link_text(t: Seq<char>, from: int, esc: Seq<char>)
    requires
        0 <= from,
        text::is_at(t, esc + "</a>"@, from),
        !esc.contains('<'),
    ensures
        toc::link_text(t, from) == toc::label_read(esc),
{
    reveal_strlit("</a>");
    let lit = esc + "</a>"@;
    let k = from + esc.len();
    assert(t.subrange(from, from + lit.len()) == lit);
    assert forall|m: int| 0 <= m < lit.len() implies t[from + m] == #[trigger] lit[m] by {
        assert(t.subrange(from, from + lit.len())[m] == lit[m]);
    }
    assert(t.subrange(k, k + 4) =~= "</a>"@) by {
        assert forall|m: int| 0 <= m < 4 implies t[k + m] == "</a>"@[m] by {
            assert(lit[esc.len() + m] == "</a>"@[m]);
        }
    }
    text::lemma_find(t, "</a>"@, from);
    let q = text::spec_find(t, "</a>"@, from)->0;
    assert(text::is_at(t, "</a>"@, k));
    if q < k {
        assert(t.subrange(q, q + 4)[0] == '<');
        assert(lit[q - from] == esc[q - from]);
        assert(t[from + (q - from)] == esc[q - from]);
        assert(esc.contains(esc[q - from]));
    }
    assert(t.subrange(from, k) =~= esc) by {
        assert forall|m: int| 0 <= m < esc.len() implies t[from + m] == esc[m] by {
            assert(lit[m] == esc[m]);
        }
    }
    lemma_no_tags(esc, 0);
    assert(esc.subrange(0, esc.len() as int) =~= esc);
}

// ---------------------------------------------------------------- the navigation document

/// What reading a navigation document makes of a tag.
pub open spec fn nav_at(
    t: Seq<char>,
    start: int,
    end: int,
    name: Seq<char>,
    closing: bool,
    s: (Growth, bool),
) -> (Growth, bool) {
    let (g, inside) = s;
    let tag = t.subrange(start, end);
    if name == "nav"@ {
        (g, !closing && toc::nav_of_kind(tag, "toc"@))
    } else if !inside {
        (g, inside)
    } else if name == "li"@ {
        if closing {
            (toc::closed(g), inside)
        } else {
            (Growth { open: g.open.push(toc::blank_entry()), ..g }, inside)
        }
    } else if name == "a"@ && !closing {
        (
            toc::targeted(
                toc::retitled(g, toc::link_text(t, end)),
                opf::or_empty(opf::spec_attr(tag, "href"@)),
            ),
            inside,
        )
    } else if name == "span"@ && !closing {
        (toc::retitled(g, reading::label_from(t, end)), inside)
    } else {
        (g, inside)
    }
}

/// What reading the navigation document `t` makes of its tags.
pub open spec fn nav_step(t: Seq<char>) -> Step<(Growth, bool)> {
    |start: int, end: int, name: Seq<char>, closing: bool, s: (Growth, bool)|
        nav_at(t, start, end, name, closing, s)
}

proof fn lemma_nav_fold(t: Seq<char>, k: int)
    requires
        0 <= k <= markup::spec_tokens(t).len(),
    ensures
        ({
            let v = markup::spec_tokens(t);
            reading::fold_from(v, k, toc::nav_met(t, v, k), nav_step(t)) == toc::nav_met(
                t,
                v,
                v.len() as int,
            )
        }),
    decreases markup::spec_tokens(t).len() - k,
{
    let v = markup::spec_tokens(t);
    if k < v.len() {
        lemma_nav_fold(t, k + 1);
        if v[k] is Tag {
            reading::lemma_label_behind(t, k);
        }
    }
}

/// Reading a navigation document is reading it on from its start.
proof fn lemma_nav_parse(t: Seq<char>)
    ensures
        toc::spec_parse_nav_toc(t) == reading::read_on(
            t,
            0,
            (Growth { open: Seq::empty(), done: Seq::empty() }, false),
            nav_step(t),
        ).0.done,
{
    let start = (Growth { open: Seq::empty(), done: Seq::empty() }, false);
    lemma_nav_fold(t, 0);
    reading::lemma_read_on(t, 0, 0, start, nav_step(t));
}

proof fn lemma_names()
    ensures
        "li"@ == seq!['l', 'i'],
        "a"@ == seq!['a'],
        "ol"@ == seq!['o', 'l'],
        "nav"@ == seq!['n', 'a', 'v'],
        "h1"@ == seq!['h', '1'],
        "href"@ == seq!['h', 'r', 'e', 'f'],
        "span"@ == seq!['s', 'p', 'a', 'n'],
        reading::is_plain_name("li"@),
        reading::is_plain_name("a"@),
        reading::is_plain_name("ol"@),
        reading::is_plain_name("nav"@),
        reading::is_plain_name("h1"@),
        reading::is_plain_name("href"@),
{
    reveal_strlit("li");
    reveal_strlit("a");
    reveal_strlit("ol");
    reveal_strlit("nav");
    reveal_strlit("h1");
    reveal_strlit("href");
    reveal_strlit("span");
    assert("li"@ =~= seq!['l', 'i']);
    assert("a"@ =~= seq!['a']);
    assert("ol"@ =~= seq!['o', 'l']);
    assert("nav"@ =~= seq!['n', 'a', 'v']);
    assert("h1"@ =~= seq!['h', '1']);
    assert("href"@ =~= seq!['h', 'r', 'e', 'f']);
    assert("span"@ =~= seq!['s', 'p', 'a', 'n']);
}

proof fn lemma_link_pieces(e: Toc, base: Seq<char>)
    ensures
        ({
            let src = markup::spec_escape_attr(structure::spec_relativize(base, e.href));
            let label = markup::spec_escape_text(nav_doc::spec_trim_markup(e.title));
            nav_doc::entry_link(e, base) == (seq!['<'] + "li"@ + seq!['>']) + reading::one_attr_tag(
                "a"@,
                "href"@,
                src,
                false,
            ) + (label + "</a>"@)
        }),
{
    lemma_names();
    reveal_strlit("<li><a href=\"");
    reveal_strlit("\">");
    let src = markup::spec_escape_attr(structure::spec_relativize(base, e.href));
    let label = markup::spec_escape_text(nav_doc::spec_trim_markup(e.title));
    assert("<li><a href=\""@ =~= seq!['<', 'l', 'i', '>', '<', 'a', ' ', 'h', 'r', 'e', 'f', '=', '"']);
    assert("\">"@ =~= seq!['"', '>']);
    assert(nav_doc::entry_link(e, base) =~= (seq!['<'] + "li"@ + seq!['>']) + reading::one_attr_tag(
        "a"@,
        "href"@,
        src,
        false,
    ) + (label + "</a>"@));
}

/// A written link is met as one: its label and its target.
proof fn lemma_link_tag(t: Seq<char>, a: int, href: Seq<char>, label: Seq<char>, g: Growth)
    requires
        0 <= a,
        text::is_at(t, reading::one_attr_tag("a"@, "href"@, markup::spec_escape_attr(href), false), a),
        text::is_at(
            t,
            label + "</a>"@,
            a + reading::one_attr_tag("a"@, "href"@, markup::spec_escape_attr(href), false).len(),
        ),
        !label.contains('<'),
    ensures
        reading::read_on(t, a, (g, true), nav_step(t)) == reading::read_on(
            t,
            a + reading::one_attr_tag("a"@, "href"@, markup::spec_escape_attr(href), false).len(),
            (toc::targeted(toc::retitled(g, toc::label_read(label)), href), true),
            nav_step(t),
        ),
{
    let f = nav_step(t);
    let src = markup::spec_escape_attr(href);
    let tag = reading::one_attr_tag("a"@, "href"@, src, false);
    lemma_names();
    escaping::escaping_leaves_no_markup(href);
    escaping::unescaping_undoes_escaping(href);
    reading::lemma_one_attr_close(t, a, "a"@, "href"@, src, false);
    let b = a + tag.len();
    reading::lemma_start_tag(t, a, "a"@, b - 1, (g, true), f);
    assert(t.subrange(a, b) =~= tag);
    reading::lemma_one_attribute("a"@, "href"@, src, false);
    lemma_link_text(t, b, label);
}

/// The text and the end tag of a link leave the state as it is.
proof fn lemma_link_end(t: Seq<char>, b: int, label: Seq<char>, g: Growth)
    requires
        0 <= b,
        text::is_at(t, label + "</a>"@, b),
        !label.contains('<'),
    ensures
        reading::read_on(t, b, (g, true), nav_step(t)) == reading::read_on(
            t,
            b + label.len() + 4,
            (g, true),
            nav_step(t),
        ),
{
    let f = nav_step(t);
    lemma_names();
    reveal_strlit("</a>");
    assert(label + "</a>"@ + Seq::<char>::empty() =~= label + "</a>"@);
    reading::lemma_part_at(t, label, "</a>"@, Seq::empty(), b);
    let c = b + label.len();
    assert forall|k: int| b <= k < c implies #[trigger] t[k] != '<' by {
        assert(t.subrange(b, c)[k - b] == label[k - b]);
        assert(label.contains(label[k - b]));
    }
    reading::lemma_plain(t, b, c, (g, true), f);
    assert("</a>"@ =~= seq!['<', '/'] + "a"@ + seq!['>']);
    reading::lemma_end_tag(t, c, "a"@, (g, true), f);
}

/// A written link opens its entry.
proof fn lemma_entry_link(t: Seq<char>, i: int, e: Toc, base: Seq<char>, g: Growth)
    requires
        0 <= i,
        text::is_at(t, nav_doc::entry_link(e, base), i),
    ensures
        reading::read_on(t, i, (g, true), nav_step(t)) == reading::read_on(
            t,
            i + nav_doc::entry_link(e, base).len(),
            (reading::opened(g, e, base), true),
            nav_step(t),
        ),
{
    let href = structure::spec_relativize(base, e.href);
    let title = nav_doc::spec_trim_markup(e.title);
    let label = markup::spec_escape_text(title);
    let li = seq!['<'] + "li"@ + seq!['>'];
    let tag = reading::one_attr_tag("a"@, "href"@, markup::spec_escape_attr(href), false);
    lemma_names();
    lemma_link_pieces(e, base);
    reveal_strlit("</a>");
    reading::lemma_part_at(t, li, tag, label + "</a>"@, i);
    escaping::escaping_leaves_no_markup(title);
    reading::lemma_bare_tag(t, i, "li"@, (g, true), nav_step(t));
    lemma_link_tag(
        t,
        i + li.len(),
        href,
        label,
        Growth { open: g.open.push(toc::blank_entry()), ..g },
    );
    reading::lemma_label(e.title);
    reading::lemma_opened(g, e, base);
    lemma_link_end(t, i + li.len() + tag.len(), label, reading::opened(g, e, base));
}

proof fn lemma_lines()
    ensures
        "<ol>\n"@ == reading::tag_line("ol"@, false),
        "</ol>\n"@ == reading::tag_line("ol"@, true),
        "</li>\n"@ == reading::tag_line("li"@, true),
        "\n"@ == seq!['\n'],
{
    lemma_names();
    reveal_strlit("<ol>\n");
    reveal_strlit("</ol>\n");
    reveal_strlit("</li>\n");
    reveal_strlit("\n");
    assert("<ol>\n"@ =~= reading::tag_line("ol"@, false));
    assert("</ol>\n"@ =~= reading::tag_line("ol"@, true));
    assert("</li>\n"@ =~= reading::tag_line("li"@, true));
    assert("\n"@ =~= seq!['\n']);
}

/// What follows the link of an entry, up to the end of its list item.
spec fn item_rest(e: Toc, base: Seq<char>) -> Seq<char> {
    if e.children.len() == 0 {
        reading::tag_line("li"@, true)
    } else {
        (seq!['\n'] + reading::tag_line("ol"@, false)) + nav_doc::list_items(e.children, base) + (reading::tag_line(
            "ol"@,
            true,
        ) + reading::tag_line("li"@, true))
    }
}

proof fn lemma_item_pieces(v: Seq<Toc>, base: Seq<char>)
    requires
        v.len() > 0,
    ensures
        nav_doc::list_items(v, base) == nav_doc::list_items(v.drop_last(), base)
            + nav_doc::entry_link(v.last(), base) + item_rest(v.last(), base),
{
    lemma_lines();
    let e = v.last();
    assert(nav_doc::list_items(v, base) =~= nav_doc::list_items(v.drop_last(), base)
        + nav_doc::entry_link(e, base) + item_rest(e, base));
}

/// The end of a list item closes its entry.
proof fn lemma_item_close(t: Seq<char>, i: int, g: Growth)
    requires
        0 <= i,
        text::is_at(t, reading::tag_line("li"@, true), i),
    ensures
        reading::read_on(t, i, (g, true), nav_step(t)) == reading::read_on(
            t,
            i + reading::tag_line("li"@, true).len(),
            (toc::closed(g), true),
            nav_step(t),
        ),
{
    lemma_names();
    reading::lemma_tag_line(t, i, "li"@, true, (g, true), nav_step(t));
}

/// The tags of a list leave the state as it is.
proof fn lemma_list_tag(t: Seq<char>, i: int, closing: bool, g: Growth)
    requires
        0 <= i,
        text::is_at(t, reading::tag_line("ol"@, closing), i),
    ensures
        reading::read_on(t, i, (g, true), nav_step(t)) == reading::read_on(
            t,
            i + reading::tag_line("ol"@, closing).len(),
            (g, true),
            nav_step(t),
        ),
{
    lemma_names();
    reading::lemma_tag_line(t, i, "ol"@, closing, (g, true), nav_step(t));
}

/// The written list items are read back.
proof fn lemma_items(t: Seq<char>, i: int, v: Seq<Toc>, base: Seq<char>, g: Growth)
    requires
        0 <= i,
        text::is_at(t, nav_doc::list_items(v, base), i),
    ensures
        reading::read_on(t, i, (g, true), nav_step(t)) == reading::read_on(
            t,
            i + nav_doc::list_items(v, base).len(),
            (reading::added(g, reading::entries_read(v, base)), true),
            nav_step(t),
        ),
    decreases v,
{
    if v.len() == 0 {
        reading::lemma_added_none(g);
    } else {
        let e = v.last();
        let before = nav_doc::list_items(v.drop_last(), base);
        let link = nav_doc::entry_link(e, base);
        let rest = item_rest(e, base);
        lemma_item_pieces(v, base);
        reading::lemma_part_at(t, before, link, rest, i);
        let g1 = reading::added(g, reading::entries_read(v.drop_last(), base));
        lemma_items(t, i, v.drop_last(), base, g);
        let a = i + before.len();
        lemma_entry_link(t, a, e, base, g1);
        let b = a + link.len();
        let o = reading::opened(g1, e, base);
        reading::lemma_closed(g1, e, base);
        reading::lemma_added_one(g, reading::entries_read(v.drop_last(), base), reading::entry_read(e, base));
        if e.children.len() == 0 {
            reading::lemma_added_none(o);
            lemma_item_close(t, b, o);
        } else {
            let head = seq!['\n'] + reading::tag_line("ol"@, false);
            let below = nav_doc::list_items(e.children, base);
            let tail = reading::tag_line("ol"@, true) + reading::tag_line("li"@, true);
            reading::lemma_part_at(t, head, below, tail, b);
            assert(seq!['\n'] + reading::tag_line("ol"@, false) + Seq::<char>::empty() =~= head);
            reading::lemma_part_at(t, seq!['\n'], reading::tag_line("ol"@, false), Seq::empty(), b);
            reading::lemma_line_end(t, b, (o, true), nav_step(t));
            lemma_list_tag(t, b + 1, false, o);
            let c = b + head.len();
            lemma_items(t, c, e.children, base, o);
            let d = c + below.len();
            let full = reading::added(o, reading::entries_read(e.children, base));
            assert(reading::tag_line("ol"@, true) + reading::tag_line("li"@, true) + Seq::<char>::empty() =~= tail);
            reading::lemma_part_at(t, reading::tag_line("ol"@, true), reading::tag_line("li"@, true), Seq::empty(), d);
            lemma_list_tag(t, d, true, full);
            lemma_item_close(t, d + reading::tag_line("ol"@, true).len(), full);
        }
    }
}

// ---------------------------------------------------------------- the nav element

spec fn nav_tag() -> Seq<char> {
    (seq!['<'] + "nav"@) + (reading::attr_text("epub:type"@, "toc"@) + reading::attr_text("role"@, "doc-toc"@)
        + reading::attr_text("id"@, "toc"@)) + seq!['>']
}

proof fn lemma_nav_literals()
    ensures
        "epub:type"@ == seq!['e', 'p', 'u', 'b', ':', 't', 'y', 'p', 'e'],
        "role"@ == seq!['r', 'o', 'l', 'e'],
        "id"@ == seq!['i', 'd'],
        "toc"@ == seq!['t', 'o', 'c'],
        "doc-toc"@ == seq!['d', 'o', 'c', '-', 't', 'o', 'c'],
        reading::is_plain_name("epub:type"@),
        reading::is_plain_name("role"@),
        reading::is_plain_name("id"@),
        !"toc"@.contains('"'),
        !"doc-toc"@.contains('"'),
{
    reveal_strlit("epub:type");
    reveal_strlit("role");
    reveal_strlit("id");
    reveal_strlit("toc");
    reveal_strlit("doc-toc");
    assert("epub:type"@ =~= seq!['e', 'p', 'u', 'b', ':', 't', 'y', 'p', 'e']);
    assert("role"@ =~= seq!['r', 'o', 'l', 'e']);
    assert("id"@ =~= seq!['i', 'd']);
    assert("toc"@ =~= seq!['t', 'o', 'c']);
    assert("doc-toc"@ =~= seq!['d', 'o', 'c', '-', 't', 'o', 'c']);
}

/// The written `nav` tag is that of a table of contents.
proof fn lemma_nav_kind()
    ensures
        toc::nav_of_kind(nav_tag(), "toc"@),
{
    lemma_names();
    lemma_nav_literals();
    let tag = nav_tag();
    let name = "epub:type"@;
    let needle = name.push('=');
    assert(tag.subrange(0, 20) =~= seq!['<', 'n', 'a', 'v'] + reading::attr_text(name, "toc"@));
    assert forall|k: int| 0 <= k < 20 implies tag[k] == #[trigger] tag.subrange(0, 20)[k] by {}
    let head = tag.subrange(0, 20);
    assert(head[0] == '<' && head[1] == 'n' && head[2] == 'a' && head[3] == 'v' && head[4] == ' ');
    assert(head[15] == '"' && head[16] == 't' && head[17] == 'o' && head[18] == 'c' && head[19]
        == '"');
    assert(tag.subrange(5, 15) =~= needle);
    assert(text::is_at(tag, needle, 5));
    assert forall|i: int| 0 <= i < 5 && #[trigger] text::is_at(tag, needle, i) implies
        read_back::passes(tag, needle, i) by {
        assert(tag.subrange(i, i + needle.len())[0] == needle[0]);
        assert(tag[i] == 'e');
    }
    read_back::lemma_find_char_is(tag, '"', 16, 19);
    assert(read_back::is_attr_name(name));
    read_back::lemma_value_found(tag, name, 0, 5, 19);
    assert(tag.subrange(16, 19) =~= "toc"@);
    lemma_one_word("toc"@);
}

proof fn lemma_one_word(s: Seq<char>)
    requires
        s.len() > 0,
        forall|k: int| 0 <= k < s.len() ==> !text::is_white(#[trigger] s[k]),
    ensures
        text::spec_words(s).contains(s),
{
    lemma_word_end(s, 0);
    assert(!text::is_white(s[0]));
    assert(s.subrange(0, s.len() as int) =~= s);
    assert(text::spec_words(s)[0] == s);
}

proof fn lemma_word_end(s: Seq<char>, i: int)
    requires
        0 <= i <= s.len(),
        forall|k: int| 0 <= k < s.len() ==> !text::is_white(#[trigger] s[k]),
    ensures
        text::word_end(s, i) == s.len(),
    decreases s.len() - i,
{
    if i < s.len() {
        assert(!text::is_white(s[i]));
        lemma_word_end(s, i + 1);
    }
}

/// The written `nav` tag opens the table of contents.
proof fn lemma_nav_open(t: Seq<char>, i: int, s: (Growth, bool))
    requires
        0 <= i,
        text::is_at(t, nav_tag(), i),
    ensures
        reading::read_on(t, i, s, nav_step(t)) == reading::read_on(
            t,
            i + nav_tag().len(),
            (s.0, true),
            nav_step(t),
        ),
{
    lemma_names();
    lemma_nav_literals();
    let x = reading::attr_text("epub:type"@, "toc"@);
    let y = reading::attr_text("role"@, "doc-toc"@);
    let z = reading::attr_text("id"@, "toc"@);
    let n = nav_tag().len() as int;
    reading::lemma_part_at(t, seq!['<'] + "nav"@, x + y + z, seq!['>'], i);
    let a = i + 4;
    assert((seq!['<'] + "nav"@).len() == 4);
    reading::lemma_part_at(t, x, y, z, a);
    reading::lemma_close_attr(t, a, "epub:type"@, "toc"@);
    reading::lemma_close_attr(t, a + x.len(), "role"@, "doc-toc"@);
    reading::lemma_close_attr(t, a + x.len() + y.len(), "id"@, "toc"@);
    let g = i + n - 1;
    assert(t.subrange(g, g + 1)[0] == '>');
    assert(t[g] == '>');
    assert(markup::tag_close(t, g, None) == Some(g));
    reading::lemma_start_tag(t, i, "nav"@, g, s, nav_step(t));
    assert(t.subrange(i, g + 1) =~= nav_tag());
    lemma_nav_kind();
}

spec fn contents_word() -> Seq<char> {
    seq!['C', 'o', 'n', 't', 'e', 'n', 't', 's']
}

/// What stands between the `nav` tag and the list.
spec fn nav_heading() -> Seq<char> {
    (seq!['\n'] + (seq!['<'] + "h1"@ + seq!['>'])) + contents_word() + reading::tag_line("h1"@, true)
}

proof fn lemma_nav_pieces(v: Seq<Toc>, base: Seq<char>)
    ensures
        nav_doc::spec_render_toc_nav(v, base) == (nav_tag() + nav_heading()) + (reading::tag_line(
            "ol"@,
            false,
        ) + nav_doc::list_items(v, base) + reading::tag_line("ol"@, true)) + (seq!['<', '/'] + "nav"@
            + seq!['>']),
{
    lemma_names();
    lemma_lines();
    lemma_nav_literals();
    reveal_strlit("<nav epub:type=\"toc\" role=\"doc-toc\" id=\"toc\">\n<h1>Contents</h1>\n");
    reveal_strlit("</nav>");
    assert("<nav epub:type=\"toc\" role=\"doc-toc\" id=\"toc\">\n<h1>Contents</h1>\n"@ =~= nav_tag()
        + nav_heading());
    assert("</nav>"@ =~= seq!['<', '/'] + "nav"@ + seq!['>']);
}

/// The heading of a table of contents leaves the state as it is.
proof fn lemma_nav_heading(t: Seq<char>, i: int, g: Growth)
    requires
        0 <= i,
        text::is_at(t, nav_heading(), i),
    ensures
        reading::read_on(t, i, (g, true), nav_step(t)) == reading::read_on(
            t,
            i + nav_heading().len(),
            (g, true),
            nav_step(t),
        ),
{
    let f = nav_step(t);
    let h1 = seq!['<'] + "h1"@ + seq!['>'];
    let head = seq!['\n'] + h1;
    let w = contents_word();
    lemma_names();
    reading::lemma_part_at(t, head, w, reading::tag_line("h1"@, true), i);
    assert(seq!['\n'] + h1 + Seq::<char>::empty() =~= head);
    reading::lemma_part_at(t, seq!['\n'], h1, Seq::empty(), i);
    reading::lemma_line_end(t, i, (g, true), f);
    reading::lemma_bare_tag(t, i + 1, "h1"@, (g, true), f);
    let a = i + head.len();
    let b = a + w.len();
    assert forall|k: int| a <= k < b implies #[trigger] t[k] != '<' by {
        assert(t.subrange(a, b)[k - a] == w[k - a]);
    }
    reading::lemma_plain(t, a, b, (g, true), f);
    reading::lemma_tag_line(t, b, "h1"@, true, (g, true), f);
}

/// A written table of contents is read back, wherever it stands: its entries are
/// added to what was read before it.
pub proof fn lemma_toc_nav(t: Seq<char>, i: int, v: Seq<Toc>, base: Seq<char>, s: (Growth, bool))
    requires
        0 <= i,
        text::is_at(t, nav_doc::spec_render_toc_nav(v, base), i),
    ensures
        reading::read_on(t, i, s, nav_step(t)) == reading::read_on(
            t,
            i + nav_doc::spec_render_toc_nav(v, base).len(),
            (reading::added(s.0, reading::entries_read(v, base)), false),
            nav_step(t),
        ),
{
    let g = s.0;
    let head = nav_tag() + nav_heading();
    let items = nav_doc::list_items(v, base);
    let list = reading::tag_line("ol"@, false) + items + reading::tag_line("ol"@, true);
    let end = seq!['<', '/'] + "nav"@ + seq!['>'];
    lemma_names();
    lemma_nav_pieces(v, base);
    reading::lemma_part_at(t, head, list, end, i);
    assert(nav_tag() + nav_heading() + Seq::<char>::empty() =~= head);
    reading::lemma_part_at(t, nav_tag(), nav_heading(), Seq::empty(), i);
    lemma_nav_open(t, i, s);
    lemma_nav_heading(t, i + nav_tag().len(), g);
    let a = i + head.len();
    reading::lemma_part_at(t, reading::tag_line("ol"@, false), items, reading::tag_line("ol"@, true), a);
    lemma_list_tag(t, a, false, g);
    let b = a + reading::tag_line("ol"@, false).len();
    lemma_items(t, b, v, base, g);
    let full = reading::added(g, reading::entries_read(v, base));
    let c = b + items.len();
    lemma_list_tag(t, c, true, full);
    reading::lemma_end_tag(t, a + list.len(), "nav"@, (full, true), nav_step(t));
}

// ---------------------------------------------------------------- the document around it

/// The prolog of a written document, and its root tag.
spec fn xml_declaration() -> Seq<char> {
    seq!['<', '?'] + "xml version=\"1.0\" encoding=\"utf-8\""@ + seq!['?', '>']
}

spec fn html_doctype() -> Seq<char> {
    seq!['<', '!'] + "DOCTYPE html"@ + seq!['>']
}

spec fn html_tag(lang: Seq<char>) -> Seq<char> {
    (seq!['<'] + "html"@) + ((reading::attr_text("xmlns"@, "http://www.w3.org/1999/xhtml"@) + reading::attr_text(
        "xmlns:epub"@,
        "http://www.idpf.org/2007/ops"@,
    )) + reading::attr_text("lang"@, lang) + reading::attr_text("xml:lang"@, lang)) + seq!['>']
}

spec fn meta_tag() -> Seq<char> {
    reading::one_attr_tag("meta"@, "charset"@, "utf-8"@, true)
}

spec fn title_element(title: Seq<char>) -> Seq<char> {
    (seq!['<'] + "title"@ + seq!['>']) + markup::spec_escape_text(title) + reading::tag_line("title"@, true)
}

spec fn doc_prolog() -> Seq<char> {
    (xml_declaration() + seq!['\n']) + (html_doctype() + seq!['\n'])
}

spec fn doc_head(title: Seq<char>) -> Seq<char> {
    (reading::tag_line("head"@, false) + (meta_tag() + seq!['\n'])) + title_element(title) + (reading::tag_line(
        "head"@,
        true,
    ) + reading::tag_line("body"@, false))
}

spec fn doc_tail() -> Seq<char> {
    seq!['\n'] + reading::tag_line("body"@, true) + reading::tag_line("html"@, true)
}

proof fn lemma_doc_names()
    ensures
        reading::is_plain_name("html"@),
        reading::is_plain_name("head"@),
        reading::is_plain_name("body"@),
        reading::is_plain_name("title"@),
        reading::is_plain_name("meta"@),
        reading::is_plain_name("charset"@),
        reading::is_plain_name("xmlns"@),
        reading::is_plain_name("xmlns:epub"@),
        reading::is_plain_name("lang"@),
        reading::is_plain_name("xml:lang"@),
        "html"@ != "nav"@,
        "head"@ != "nav"@,
        "body"@ != "nav"@,
        "title"@ != "nav"@,
        "meta"@ != "nav"@,
        !"utf-8"@.contains('"'),
        !"http://www.w3.org/1999/xhtml"@.contains('"'),
        !"http://www.idpf.org/2007/ops"@.contains('"'),
        !"xml version=\"1.0\" encoding=\"utf-8\""@.contains('?'),
        !"DOCTYPE html"@.contains('>'),
{
    reveal_strlit("html");
    reveal_strlit("head");
    reveal_strlit("body");
    reveal_strlit("title");
    reveal_strlit("meta");
    reveal_strlit("nav");
    reveal_strlit("charset");
    reveal_strlit("xmlns");
    reveal_strlit("xmlns:epub");
    reveal_strlit("lang");
    reveal_strlit("xml:lang");
    reveal_strlit("utf-8");
    reveal_strlit("http://www.w3.org/1999/xhtml");
    reveal_strlit("http://www.idpf.org/2007/ops");
    reveal_strlit("xml version=\"1.0\" encoding=\"utf-8\"");
    reveal_strlit("DOCTYPE html");
    assert("html"@[0] != "nav"@[0]);
    assert("head"@[0] != "nav"@[0]);
    assert("body"@[0] != "nav"@[0]);
    assert("title"@[0] != "nav"@[0]);
    assert("meta"@[0] != "nav"@[0]);
}

proof fn lemma_doc_pieces(nav: Seq<char>, lang: Seq<char>, title: Seq<char>)
    ensures
        nav_doc::spec_render_nav_doc(nav, lang, title) == (doc_prolog() + (html_tag(lang)
            + seq!['\n']) + doc_head(title)) + nav + doc_tail(),
{
    reveal_strlit("<?xml version=\"1.0\" encoding=\"utf-8\"?>\n<!DOCTYPE html>\n<html xmlns=\"http://www.w3.org/1999/xhtml\" xmlns:epub=\"http://www.idpf.org/2007/ops\" lang=\"");
    reveal_strlit("\" xml:lang=\"");
    reveal_strlit("\">\n<head>\n<meta charset=\"utf-8\"/>\n<title>");
    reveal_strlit("</title>\n</head>\n<body>\n");
    reveal_strlit("\n</body>\n</html>\n");
    reveal_strlit("html");
    reveal_strlit("head");
    reveal_strlit("body");
    reveal_strlit("title");
    reveal_strlit("meta");
    reveal_strlit("charset");
    reveal_strlit("xmlns");
    reveal_strlit("xmlns:epub");
    reveal_strlit("lang");
    reveal_strlit("xml:lang");
    reveal_strlit("utf-8");
    reveal_strlit("http://www.w3.org/1999/xhtml");
    reveal_strlit("http://www.idpf.org/2007/ops");
    reveal_strlit("xml version=\"1.0\" encoding=\"utf-8\"");
    reveal_strlit("DOCTYPE html");
    let open = "<?xml version=\"1.0\" encoding=\"utf-8\"?>\n<!DOCTYPE html>\n<html xmlns=\"http://www.w3.org/1999/xhtml\" xmlns:epub=\"http://www.idpf.org/2007/ops\" lang=\""@;
    assert(open =~= doc_prolog() + (seq!['<'] + "html"@) + reading::attr_text(
        "xmlns"@,
        "http://www.w3.org/1999/xhtml"@,
    ) + reading::attr_text("xmlns:epub"@, "http://www.idpf.org/2007/ops"@) + (seq![' '] + "lang"@ + seq![
        '=',
        '"',
    ]));
    let esc = markup::spec_escape_text(title);
    assert("\" xml:lang=\""@ =~= seq!['"'] + (seq![' '] + "xml:lang"@ + seq!['=', '"']));
    assert("\">\n<head>\n<meta charset=\"utf-8\"/>\n<title>"@ =~= seq!['"', '>', '\n'] + (reading::tag_line(
        "head"@,
        false,
    ) + (meta_tag() + seq!['\n'])) + (seq!['<'] + "title"@ + seq!['>']));
    assert("</title>\n</head>\n<body>\n"@ =~= reading::tag_line("title"@, true) + (reading::tag_line("head"@, true)
        + reading::tag_line("body"@, false)));
    assert("\n</body>\n</html>\n"@ =~= doc_tail());
    assert(nav_doc::spec_render_nav_doc(nav, lang, title) =~= (doc_prolog() + (html_tag(lang)
        + seq!['\n']) + doc_head(title)) + nav + doc_tail());
}

proof fn lemma_prolog<S>(t: Seq<char>, i: int, s: S, f: Step<S>)
    requires
        0 <= i,
        text::is_at(t, doc_prolog(), i),
    ensures
        reading::read_on(t, i, s, f) == reading::read_on(t, i + doc_prolog().len(), s, f),
{
    lemma_doc_names();
    reveal_strlit("xml version=\"1.0\" encoding=\"utf-8\"");
    reveal_strlit("DOCTYPE html");
    let x = xml_declaration() + seq!['\n'];
    let y = html_doctype() + seq!['\n'];
    assert(x + y + Seq::<char>::empty() =~= doc_prolog());
    reading::lemma_part_at(t, x, y, Seq::empty(), i);
    reading::lemma_then_line(t, xml_declaration(), i, s, f);
    reading::lemma_instruction(t, i, "xml version=\"1.0\" encoding=\"utf-8\""@, s, f);
    let j = i + x.len();
    reading::lemma_then_line(t, html_doctype(), j, s, f);
    reading::lemma_declaration(t, j, "DOCTYPE html"@, s, f);
}

/// Outside a `nav` element, a tag with another name leaves the state as it is.
proof fn lemma_html_tag(t: Seq<char>, i: int, lang: Seq<char>, g: Growth)
    requires
        0 <= i,
        !lang.contains('"'),
        text::is_at(t, html_tag(lang), i),
    ensures
        reading::read_on(t, i, (g, false), nav_step(t)) == reading::read_on(
            t,
            i + html_tag(lang).len(),
            (g, false),
            nav_step(t),
        ),
{
    lemma_doc_names();
    let x = reading::attr_text("xmlns"@, "http://www.w3.org/1999/xhtml"@);
    let y = reading::attr_text("xmlns:epub"@, "http://www.idpf.org/2007/ops"@);
    let z = reading::attr_text("lang"@, lang);
    let w = reading::attr_text("xml:lang"@, lang);
    let open = seq!['<'] + "html"@;
    reading::lemma_part_at(t, open, (x + y) + z + w, seq!['>'], i);
    let a = i + open.len();
    reading::lemma_part_at(t, x + y, z, w, a);
    assert(x + y + Seq::<char>::empty() =~= x + y);
    reading::lemma_part_at(t, x, y, Seq::empty(), a);
    reading::lemma_close_attr(t, a, "xmlns"@, "http://www.w3.org/1999/xhtml"@);
    reading::lemma_close_attr(t, a + x.len(), "xmlns:epub"@, "http://www.idpf.org/2007/ops"@);
    reading::lemma_close_attr(t, a + x.len() + y.len(), "lang"@, lang);
    reading::lemma_close_attr(t, a + x.len() + y.len() + z.len(), "xml:lang"@, lang);
    let e = i + html_tag(lang).len() - 1;
    assert(t.subrange(e, e + 1)[0] == '>');
    assert(markup::tag_close(t, e, None) == Some(e));
    reading::lemma_start_tag(t, i, "html"@, e, (g, false), nav_step(t));
}

proof fn lemma_outside_line(t: Seq<char>, i: int, name: Seq<char>, closing: bool, g: Growth)
    requires
        0 <= i,
        reading::is_plain_name(name),
        name != "nav"@,
        text::is_at(t, reading::tag_line(name, closing), i),
    ensures
        reading::read_on(t, i, (g, false), nav_step(t)) == reading::read_on(
            t,
            i + reading::tag_line(name, closing).len(),
            (g, false),
            nav_step(t),
        ),
{
    reading::lemma_tag_line(t, i, name, closing, (g, false), nav_step(t));
}

proof fn lemma_title(t: Seq<char>, i: int, title: Seq<char>, g: Growth)
    requires
        0 <= i,
        text::is_at(t, title_element(title), i),
    ensures
        reading::read_on(t, i, (g, false), nav_step(t)) == reading::read_on(
            t,
            i + title_element(title).len(),
            (g, false),
            nav_step(t),
        ),
{
    lemma_doc_names();
    let open = seq!['<'] + "title"@ + seq!['>'];
    let esc = markup::spec_escape_text(title);
    reading::lemma_part_at(t, open, esc, reading::tag_line("title"@, true), i);
    escaping::escaping_leaves_no_markup(title);
    reading::lemma_bare_tag(t, i, "title"@, (g, false), nav_step(t));
    let a = i + open.len();
    let b = a + esc.len();
    assert forall|k: int| a <= k < b implies #[trigger] t[k] != '<' by {
        assert(t.subrange(a, b)[k - a] == esc[k - a]);
        assert(esc.contains(esc[k - a]));
    }
    reading::lemma_plain(t, a, b, (g, false), nav_step(t));
    lemma_outside_line(t, b, "title"@, true, g);
}

proof fn lemma_meta(t: Seq<char>, i: int, g: Growth)
    requires
        0 <= i,
        text::is_at(t, meta_tag() + seq!['\n'], i),
    ensures
        reading::read_on(t, i, (g, false), nav_step(t)) == reading::read_on(
            t,
            i + meta_tag().len() + 1,
            (g, false),
            nav_step(t),
        ),
{
    lemma_doc_names();
    reading::lemma_then_line(t, meta_tag(), i, (g, false), nav_step(t));
    reading::lemma_one_attr_close(t, i, "meta"@, "charset"@, "utf-8"@, true);
    reading::lemma_start_tag(t, i, "meta"@, i + meta_tag().len() - 1, (g, false), nav_step(t));
}

proof fn lemma_doc_head(t: Seq<char>, i: int, title: Seq<char>, g: Growth)
    requires
        0 <= i,
        text::is_at(t, doc_head(title), i),
    ensures
        reading::read_on(t, i, (g, false), nav_step(t)) == reading::read_on(
            t,
            i + doc_head(title).len(),
            (g, false),
            nav_step(t),
        ),
{
    lemma_doc_names();
    let a = reading::tag_line("head"@, false);
    let b = meta_tag() + seq!['\n'];
    let c = title_element(title);
    let d = reading::tag_line("head"@, true);
    let e = reading::tag_line("body"@, false);
    reading::lemma_part_at(t, a + b, c, d + e, i);
    assert(a + b + Seq::<char>::empty() =~= a + b);
    reading::lemma_part_at(t, a, b, Seq::empty(), i);
    lemma_outside_line(t, i, "head"@, false, g);
    lemma_meta(t, i + a.len(), g);
    let j = i + a.len() + b.len();
    lemma_title(t, j, title, g);
    let k = j + c.len();
    assert(d + e + Seq::<char>::empty() =~= d + e);
    reading::lemma_part_at(t, d, e, Seq::empty(), k);
    lemma_outside_line(t, k, "head"@, true, g);
    lemma_outside_line(t, k + d.len(), "body"@, false, g);
}

proof fn lemma_before_nav(t: Seq<char>, lang: Seq<char>, title: Seq<char>, g: Growth)
    requires
        !lang.contains('"'),
        text::is_at(t, doc_prolog() + (html_tag(lang) + seq!['\n']) + doc_head(title), 0),
    ensures
        reading::read_on(t, 0, (g, false), nav_step(t)) == reading::read_on(
            t,
            (doc_prolog() + (html_tag(lang) + seq!['\n']) + doc_head(title)).len() as int,
            (g, false),
            nav_step(t),
        ),
{
    let f = nav_step(t);
    let root = html_tag(lang) + seq!['\n'];
    reading::lemma_part_at(t, doc_prolog(), root, doc_head(title), 0);
    lemma_prolog(t, 0, (g, false), f);
    let a = doc_prolog().len() as int;
    reading::lemma_then_line(t, html_tag(lang), a, (g, false), f);
    lemma_html_tag(t, a, lang, g);
    lemma_doc_head(t, a + root.len(), title, g);
}

proof fn lemma_after_nav(t: Seq<char>, c: int, g: Growth)
    requires
        0 <= c,
        text::is_at(t, doc_tail(), c),
    ensures
        reading::read_on(t, c, (g, false), nav_step(t)) == reading::read_on(
            t,
            c + doc_tail().len(),
            (g, false),
            nav_step(t),
        ),
{
    lemma_doc_names();
    reading::lemma_part_at(t, seq!['\n'], reading::tag_line("body"@, true), reading::tag_line("html"@, true), c);
    reading::lemma_line_end(t, c, (g, false), nav_step(t));
    lemma_outside_line(t, c + 1, "body"@, true, g);
    lemma_outside_line(t, c + 1 + reading::tag_line("body"@, true).len(), "html"@, true, g);
}

/// A table of contents that is written is read back: a navigation document made
/// from entries lists them, nested as they were, each with its label without
/// markup space around it and its target written from the document's directory.
pub proof fn a_navigation_document_is_read_back(
    v: Seq<Toc>,
    base: Seq<char>,
    lang: Seq<char>,
    title: Seq<char>,
)
    requires
        !lang.contains('"'),
    ensures
        toc::spec_parse_nav_toc(
            nav_doc::spec_render_nav_doc(nav_doc::spec_render_toc_nav(v, base), lang, title),
        ) == reading::entries_read(v, base),
{
    let nav = nav_doc::spec_render_toc_nav(v, base);
    let t = nav_doc::spec_render_nav_doc(nav, lang, title);
    let g = Growth { open: Seq::<Toc>::empty(), done: Seq::<Toc>::empty() };
    let pre = doc_prolog() + (html_tag(lang) + seq!['\n']) + doc_head(title);
    lemma_doc_pieces(nav, lang, title);
    lemma_nav_parse(t);
    assert(t.subrange(0, t.len() as int) =~= pre + nav + doc_tail());
    reading::lemma_part_at(t, pre, nav, doc_tail(), 0);
    lemma_before_nav(t, lang, title, g);
    lemma_toc_nav(t, pre.len() as int, v, base, (g, false));
    let full = reading::added(g, reading::entries_read(v, base));
    assert(g.done + reading::entries_read(v, base) =~= reading::entries_read(v, base));
    lemma_after_nav(t, (pre + nav).len() as int, full);
}

// ---------------------------------------------------------------- targets resolved again

/// The entries with markup space around their labels dropped.
pub open spec fn labelled(v: Seq<Toc>) -> Seq<Toc>
    decreases v,
{
    if v.len() == 0 {
        Seq::empty()
    } else {
        let e = v.last();
        labelled(v.drop_last()).push(
            Toc {
                title: nav_doc::spec_trim_markup(e.title),
                href: e.href,
                children: labelled(e.children),
            },
        )
    }
}

/// The href is a zip path made of plain segments, with or without a fragment.
pub open spec fn is_plain_target(href: Seq<char>) -> bool {
    exists|to: Seq<Seq<char>>, frag: Seq<char>|
        to.len() > 0 && #[trigger] structure::plain(to) && (frag.len() == 0 || frag[0] == '#')
            && href == #[trigger] (text::spec_join(to, "/"@) + frag)
}

/// Every entry, those below others too, leads to a plain target.
pub open spec fn has_plain_targets(v: Seq<Toc>) -> bool
    decreases v,
{
    v.len() == 0 || (has_plain_targets(v.drop_last()) && is_plain_target(v.last().href)
        && has_plain_targets(v.last().children))
}

proof fn lemma_target_resolved(href: Seq<char>, dir: Seq<char>)
    requires
        is_plain_target(href),
    ensures
        ({
            let x = structure::spec_relativize(dir, href);
            (if text::spec_starts(x, "#"@) || x.len() == 0 {
                x
            } else {
                structure::spec_resolve_href(dir, x)
            }) == href
        }),
{
    let (to, frag) = choose|to: Seq<Seq<char>>, frag: Seq<char>|
        to.len() > 0 && #[trigger] structure::plain(to) && (frag.len() == 0 || frag[0] == '#')
            && href == #[trigger] (text::spec_join(to, "/"@) + frag);
    structure::resolving_undoes_relativizing(dir, to, frag);
    let x = structure::spec_relativize(dir, href);
    if text::spec_starts(x, "#"@) || x.len() == 0 {
        reveal_strlit("#");
        if x.len() > 0 {
            assert(x.subrange(0, 1)[0] == '#');
            assert(x[0] == '#');
            text::lemma_find_char(x, '#', 0);
        }
        assert(structure::spec_split_fragment(x).0.len() == 0);
    }
}

pub proof fn lemma_rebased(v: Seq<Toc>, dir: Seq<char>)
    requires
        has_plain_targets(v),
    ensures
        toc_repair::spec_rebase(reading::entries_read(v, dir), dir) == labelled(v),
    decreases v,
{
    if v.len() > 0 {
        let e = v.last();
        lemma_rebased(v.drop_last(), dir);
        lemma_rebased(e.children, dir);
        lemma_target_resolved(e.href, dir);
        let w = reading::entries_read(v, dir);
        assert(w.drop_last() =~= reading::entries_read(v.drop_last(), dir));
        assert(w.last() == reading::entry_read(e, dir));
    }
}

/// A table of contents that is written into a navigation document in the
/// directory `dir` is declared by it: read and resolved from there, its entries
/// are those that were written, targets and all.
pub proof fn a_written_toc_is_declared(
    v: Seq<Toc>,
    dir: Seq<char>,
    lang: Seq<char>,
    title: Seq<char>,
)
    requires
        !lang.contains('"'),
        has_plain_targets(v),
    ensures
        toc_repair::spec_rebase(
            toc::spec_parse_nav_toc(
                nav_doc::spec_render_nav_doc(nav_doc::spec_render_toc_nav(v, dir), lang, title),
            ),
            dir,
        ) == labelled(v),
{
    a_navigation_document_is_read_back(v, dir, lang, title);
    lemma_rebased(v, dir);
}

/// A reader outside a table of contents passes the text from `i` to `j` over.
pub open spec fn reads_nothing(t: Seq<char>, i: int, j: int) -> bool {
    forall|g: Growth| #[trigger]
        reading::read_on(t, i, (g, false), nav_step(t)) == reading::read_on(t, j, (g, false), nav_step(t))
}

/// A table of contents that is spliced into a navigation document is read back,
/// where nothing before it and nothing behind it is read as one.
pub proof fn a_spliced_toc_is_read_back(
    pre: Seq<char>,
    v: Seq<Toc>,
    base: Seq<char>,
    post: Seq<char>,
)
    requires
        ({
            let nav = nav_doc::spec_render_toc_nav(v, base);
            let t = pre + nav + post;
            &&& reads_nothing(t, 0, pre.len() as int)
            &&& reads_nothing(t, (pre + nav).len() as int, t.len() as int)
        }),
    ensures
        toc::spec_parse_nav_toc(pre + nav_doc::spec_render_toc_nav(v, base) + post)
            == reading::entries_read(v, base),
{
    let nav = nav_doc::spec_render_toc_nav(v, base);
    let t = pre + nav + post;
    let f = nav_step(t);
    let g = Growth { open: Seq::<Toc>::empty(), done: Seq::<Toc>::empty() };
    lemma_nav_parse(t);
    assert(t.subrange(0, t.len() as int) =~= t);
    reading::lemma_part_at(t, pre, nav, post, 0);
    let a = pre.len() as int;
    assert(reading::read_on(t, 0, (g, false), f) == reading::read_on(t, a, (g, false), f));
    lemma_toc_nav(t, a, v, base, (g, false));
    let full = reading::added(g, reading::entries_read(v, base));
    assert(g.done + reading::entries_read(v, base) =~= reading::entries_read(v, base));
    let e = (pre + nav).len() as int;
    assert(reading::read_on(t, e, (full, false), f) == reading::read_on(t, t.len() as int, (full, false), f));
}

} // verus!
