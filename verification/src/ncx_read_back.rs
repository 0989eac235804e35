//! A table of contents that is written into an NCX is read back.
use vstd::prelude::*;

use crate::escaping;
use crate::markup;
use crate::nav_doc;
use crate::opf;
use crate::reading;
use crate::structure;
use crate::text;
use crate::toc;
use crate::toc_read_back;
use crate::nav_doc::Points;
use crate::reading::Step;
use crate::toc::{Growth, Toc};

verus! {

// ---------------------------------------------------------------- reading an NCX on

/// What reading an NCX makes of a tag.
pub open spec fn ncx_at(
    t: Seq<char>,
    start: int,
    end: int,
    name: Seq<char>,
    closing: bool,
    g: Growth,
) -> Growth {
    let x = opf::spec_local(name);
    if x == "navpoint"@ {
        if closing {
            toc::closed(g)
        } else {
            Growth { open: g.open.push(toc::blank_entry()), ..g }
        }
    } else if x == "text"@ && !closing {
        toc::retitled(g, reading::label_from(t, end))
    } else if x == "content"@ && !closing {
        toc::targeted(g, opf::or_empty(opf::spec_attr(t.subrange(start, end), "src"@)))
    } else {
        g
    }
}

/// What reading the NCX `t` makes of its tags.
pub open spec fn ncx_step(t: Seq<char>) -> Step<Growth> {
    |start: int, end: int, name: Seq<char>, closing: bool, g: Growth|
        ncx_at(t, start, end, name, closing, g)
}

proof fn lemma_ncx_fold(t: Seq<char>, k: int)
    requires
        0 <= k <= markup::spec_tokens(t).len(),
    ensures
        ({
            let v = markup::spec_tokens(t);
            reading::fold_from(v, k, toc::ncx_met(t, v, k), ncx_step(t)) == toc::ncx_met(
                t,
                v,
                v.len() as int,
            )
        }),
    decreases markup::spec_tokens(t).len() - k,
{
    let v = markup::spec_tokens(t);
    if k < v.len() {
        lemma_ncx_fold(t, k + 1);
        if v[k] is Tag {
            reading::lemma_label_behind(t, k);
        }
    }
}

/// Reading an NCX is reading it on from its start.
proof fn lemma_ncx_parse(t: Seq<char>)
    ensures
        toc::spec_parse_ncx(t) == reading::read_on(
            t,
            0,
            Growth { open: Seq::empty(), done: Seq::empty() },
            ncx_step(t),
        ).done,
{
    let start = Growth { open: Seq::<Toc>::empty(), done: Seq::<Toc>::empty() };
    lemma_ncx_fold(t, 0);
    reading::lemma_read_on(t, 0, 0, start, ncx_step(t));
}

proof fn lemma_local(name: Seq<char>)
    requires
        !name.contains(':'),
    ensures
        opf::spec_local(name) == name,
{
    lemma_no_colon(name, name.len() as int);
}

proof fn lemma_no_colon(name: Seq<char>, i: int)
    requires
        !name.contains(':'),
    ensures
        text::spec_rfind_char(name, ':', i) is None,
    decreases i + 1,
{
    if i >= 0 {
        if i < name.len() {
            assert(name.contains(name[i]));
        }
        lemma_no_colon(name, i - 1);
    }
}

proof fn lemma_ncx_names()
    ensures
        reading::is_raw_name("navPoint"@),
        reading::is_raw_name("navLabel"@),
        reading::is_raw_name("navMap"@),
        reading::is_raw_name("docTitle"@),
        reading::is_plain_name("text"@),
        reading::is_plain_name("content"@),
        reading::is_plain_name("src"@),
        reading::is_plain_name("id"@),
        reading::is_raw_name("playOrder"@),
        text::spec_lower("navPoint"@) == "navpoint"@,
        text::spec_lower("navLabel"@) == "navlabel"@,
        text::spec_lower("navMap"@) == "navmap"@,
        text::spec_lower("docTitle"@) == "doctitle"@,
        opf::spec_local("navpoint"@) == "navpoint"@,
        opf::spec_local("text"@) == "text"@,
        opf::spec_local("content"@) == "content"@,
        opf::spec_local("navlabel"@) == "navlabel"@,
        opf::spec_local("navmap"@) == "navmap"@,
        opf::spec_local("doctitle"@) == "doctitle"@,
        "text"@ != "navpoint"@,
        "content"@ != "navpoint"@,
        "content"@ != "text"@,
        !is_ncx_word("navlabel"@),
        !is_ncx_word("navmap"@),
        !is_ncx_word("doctitle"@),
{
    reveal_strlit("navPoint");
    reveal_strlit("navLabel");
    reveal_strlit("navMap");
    reveal_strlit("docTitle");
    reveal_strlit("text");
    reveal_strlit("content");
    reveal_strlit("src");
    reveal_strlit("id");
    reveal_strlit("playOrder");
    reveal_strlit("navpoint");
    reveal_strlit("navlabel");
    reveal_strlit("navmap");
    reveal_strlit("doctitle");
    assert(text::spec_lower("navPoint"@) =~= "navpoint"@);
    assert(text::spec_lower("navLabel"@) =~= "navlabel"@);
    assert(text::spec_lower("navMap"@) =~= "navmap"@);
    assert(text::spec_lower("docTitle"@) =~= "doctitle"@);
    lemma_local("navpoint"@);
    lemma_local("text"@);
    lemma_local("content"@);
    lemma_local("navlabel"@);
    lemma_local("navmap"@);
    lemma_local("doctitle"@);
    assert("text"@.len() != "navpoint"@.len());
    assert("content"@.len() != "navpoint"@.len());
    assert("content"@.len() != "text"@.len());
    assert("navlabel"@[3] != "navpoint"@[3]);
    assert("navlabel"@.len() == 8 && "navmap"@.len() == 6);
    assert("doctitle"@[0] != "navpoint"@[0]);
}

/// A name that means something in an NCX.
pub open spec fn is_ncx_word(name: Seq<char>) -> bool {
    name == "navpoint"@ || name == "text"@ || name == "content"@
}

// ---------------------------------------------------------------- a navigation point

proof fn lemma_decimal(n: nat)
    ensures
        !text::decimal(n).contains('"'),
    decreases n,
{
    let d = text::decimal(n);
    assert forall|k: int| 0 <= k < d.len() implies #[trigger] d[k] != '"' by {
        if n >= 10 {
            lemma_decimal(n / 10);
            let e = text::decimal(n / 10);
            if k < e.len() {
                assert(d[k] == e[k]);
                assert(e.contains(e[k]));
            }
        }
    }
}

/// The start tag of a navigation point.
spec fn point_tag(id: Seq<char>, order: Seq<char>) -> Seq<char> {
    (seq!['<'] + "navPoint"@) + (reading::attr_text("id"@, id) + reading::attr_text(
        "playOrder"@,
        order,
    )) + seq!['>']
}

spec fn label_open() -> Seq<char> {
    seq!['\n'] + (seq!['<'] + "navLabel"@ + seq!['>']) + (seq!['<'] + "text"@ + seq!['>'])
}

spec fn label_text(esc: Seq<char>) -> Seq<char> {
    esc + (seq!['<', '/'] + "text"@ + seq!['>']) + (seq!['<', '/'] + "navLabel"@ + seq!['>'])
}

spec fn content_tag(src: Seq<char>) -> Seq<char> {
    reading::one_attr_tag("content"@, "src"@, src, true)
}

proof fn lemma_point_pieces(id: int, order: int, title: Seq<char>, src: Seq<char>)
    ensures
        nav_doc::point_head(id, order, title, src) == (point_tag(
            "navPoint-"@ + text::decimal(id as nat),
            text::decimal(order as nat),
        ) + label_open()) + (label_text(
            markup::spec_escape_text(nav_doc::spec_trim_markup(title)),
        ) + seq!['\n']) + (content_tag(markup::spec_escape_attr(src)) + seq!['\n']),
{
    reveal_strlit("<navPoint id=\"navPoint-");
    reveal_strlit("\" playOrder=\"");
    reveal_strlit("\">\n<navLabel><text>");
    reveal_strlit("</text></navLabel>\n<content src=\"");
    reveal_strlit("\"/>\n");
    reveal_strlit("navPoint-");
    reveal_strlit("navPoint");
    reveal_strlit("navLabel");
    reveal_strlit("text");
    reveal_strlit("content");
    reveal_strlit("src");
    reveal_strlit("id");
    reveal_strlit("playOrder");
    assert("<navPoint id=\"navPoint-"@ =~= (seq!['<'] + "navPoint"@) + (seq![' '] + "id"@ + seq![
        '=',
        '"',
    ]) + "navPoint-"@);
    assert("\" playOrder=\""@ =~= seq!['"'] + (seq![' '] + "playOrder"@ + seq!['=', '"']));
    assert("\">\n<navLabel><text>"@ =~= seq!['"', '>'] + label_open());
    assert("</text></navLabel>\n<content src=\""@ =~= (seq!['<', '/'] + "text"@ + seq!['>']) + (seq![
        '<',
        '/',
    ] + "navLabel"@ + seq!['>']) + seq!['\n'] + (seq!['<'] + ("content"@ + seq![' '] + "src"@
        + seq!['=', '"'])));
    assert("\"/>\n"@ =~= seq!['"', '/', '>', '\n']);
    assert(nav_doc::point_head(id, order, title, src) =~= (point_tag(
        "navPoint-"@ + text::decimal(id as nat),
        text::decimal(order as nat),
    ) + label_open()) + (label_text(markup::spec_escape_text(nav_doc::spec_trim_markup(title)))
        + seq!['\n']) + (content_tag(markup::spec_escape_attr(src)) + seq!['\n']));
}

proof fn lemma_point_tag(t: Seq<char>, i: int, id: Seq<char>, order: Seq<char>, g: Growth)
    requires
        0 <= i,
        !id.contains('"'),
        !order.contains('"'),
        text::is_at(t, point_tag(id, order), i),
    ensures
        reading::read_on(t, i, g, ncx_step(t)) == reading::read_on(
            t,
            i + point_tag(id, order).len(),
            Growth { open: g.open.push(toc::blank_entry()), ..g },
            ncx_step(t),
        ),
{
    lemma_ncx_names();
    let open = seq!['<'] + "navPoint"@;
    let x = reading::attr_text("id"@, id);
    let y = reading::attr_text("playOrder"@, order);
    reading::lemma_part_at(t, open, x + y, seq!['>'], i);
    let a = i + open.len();
    assert(x + y + Seq::<char>::empty() =~= x + y);
    reading::lemma_part_at(t, x, y, Seq::empty(), a);
    reading::lemma_close_attr(t, a, "id"@, id);
    reading::lemma_close_attr(t, a + x.len(), "playOrder"@, order);
    let e = i + point_tag(id, order).len() - 1;
    assert(t.subrange(e, e + 1)[0] == '>');
    assert(markup::tag_close(t, e, None) == Some(e));
    reading::lemma_raw_start(t, i, "navPoint"@, e, g, ncx_step(t));
}

/// A bare start tag, whatever its case.
proof fn lemma_raw_bare(t: Seq<char>, i: int, raw: Seq<char>, g: Growth)
    requires
        0 <= i,
        reading::is_raw_name(raw),
        text::is_at(t, seq!['<'] + raw + seq!['>'], i),
    ensures
        reading::read_on(t, i, g, ncx_step(t)) == reading::read_on(
            t,
            i + 2 + raw.len(),
            ncx_at(t, i, i + 2 + raw.len(), text::spec_lower(raw), false, g),
            ncx_step(t),
        ),
{
    reading::lemma_part_at(t, seq!['<'], raw, seq!['>'], i);
    let b = i + 1 + raw.len();
    assert(t.subrange(b, b + 1)[0] == '>');
    assert(markup::tag_close(t, b, None) == Some(b));
    reading::lemma_raw_start(t, i, raw, b, g, ncx_step(t));
}

/// The text up to the tag at `c` is the label.
proof fn lemma_label_at(t: Seq<char>, b: int, esc: Seq<char>, raw: Seq<char>)
    requires
        0 <= b,
        reading::is_raw_name(raw),
        text::is_at(t, esc + (seq!['<', '/'] + raw + seq!['>']), b),
        !esc.contains('<'),
    ensures
        reading::label_from(t, b) == toc::label_read(esc),
{
    let end = seq!['<', '/'] + raw + seq!['>'];
    let c = b + esc.len();
    assert(esc + end + Seq::<char>::empty() =~= esc + end);
    reading::lemma_part_at(t, esc, end, Seq::empty(), b);
    assert forall|k: int| b <= k < c implies #[trigger] t[k] != '<' by {
        assert(t.subrange(b, c)[k - b] == esc[k - b]);
        assert(esc.contains(esc[k - b]));
    }
    lemma_tokens_plain(t, b, c, b);
    lemma_end_token(t, c, b, raw);
    assert(t.subrange(b, c) =~= esc);
    if esc.len() == 0 {
        assert(esc =~= Seq::<char>::empty());
        assert(!esc.contains('&'));
        assert(nav_doc::spec_trim_markup(esc) =~= esc);
    }
}

proof fn lemma_tokens_plain(t: Seq<char>, i: int, j: int, from: int)
    requires
        0 <= i <= j <= t.len(),
        forall|k: int| i <= k < j ==> #[trigger] t[k] != '<',
    ensures
        markup::tokens_from(t, i, from) == markup::tokens_from(t, j, from),
    decreases j - i,
{
    if i < j {
        lemma_tokens_plain(t, i + 1, j, from);
    }
}

/// An end tag is met as a tag.
proof fn lemma_end_token(t: Seq<char>, i: int, from: int, raw: Seq<char>)
    requires
        0 <= from <= i,
        reading::is_raw_name(raw),
        text::is_at(t, seq!['<', '/'] + raw + seq!['>'], i),
    ensures
        ({
            let v = markup::tokens_from(t, i, from);
            &&& v.len() > 0
            &&& from < i ==> v[0] == (markup::Token::Text { start: from, end: i })
            &&& from == i ==> v[0] is Tag
        }),
{
    let b = i + 2 + raw.len();
    let lit = seq!['<', '/'] + raw + seq!['>'];
    assert(t.subrange(i, b + 1) == lit);
    assert(t[i] == lit[0]);
    assert(t[i + 1] == lit[1]);
    assert(t[b] == lit[2int + raw.len()]);
    assert forall|k: int| i + 2 <= k < b implies markup::name_char(#[trigger] t[k]) by {
        assert(t.subrange(i, b + 1)[k - i] == raw[k - i - 2]);
    }
    reading::lemma_not_skipped(t, i);
    reveal_strlit("</");
    assert(t.subrange(i, i + 2) =~= "</"@);
    reading::lemma_name_end_is(t, i + 2, b);
    assert(markup::tag_close(t, b, None) == Some(b));
}

/// The label of a navigation point is met.
#[verifier::rlimit(40)]
proof fn lemma_point_label(t: Seq<char>, i: int, esc: Seq<char>, g: Growth)
    requires
        0 <= i,
        text::is_at(t, label_open() + (label_text(esc) + seq!['\n']), i),
        !esc.contains('<'),
    ensures
        reading::read_on(t, i, g, ncx_step(t)) == reading::read_on(
            t,
            i + label_open().len() + label_text(esc).len() + 1,
            toc::retitled(g, toc::label_read(esc)),
            ncx_step(t),
        ),
{
    let f = ncx_step(t);
    lemma_ncx_names();
    let nl = seq!['\n'];
    let a = seq!['<'] + "navLabel"@ + seq!['>'];
    let b = seq!['<'] + "text"@ + seq!['>'];
    let c = seq!['<', '/'] + "text"@ + seq!['>'];
    let d = seq!['<', '/'] + "navLabel"@ + seq!['>'];
    let rest = label_text(esc) + nl;
    assert(label_open() + rest + Seq::<char>::empty() =~= label_open() + rest);
    reading::lemma_part_at(t, label_open(), rest, Seq::empty(), i);
    reading::lemma_part_at(t, nl, a, b, i);
    reading::lemma_line_end(t, i, g, f);
    lemma_raw_bare(t, i + 1, "navLabel"@, g);
    let j = i + 1 + a.len();
    lemma_raw_bare(t, j, "text"@, g);
    assert(text::spec_lower("text"@) =~= "text"@);
    let k = j + b.len();
    reading::lemma_then_line(t, label_text(esc), k, toc::retitled(g, toc::label_read(esc)), f);
    reading::lemma_part_at(t, esc, c, d, k);
    lemma_label_at(t, k, esc, "text"@);
    let g2 = toc::retitled(g, toc::label_read(esc));
    let m = k + esc.len();
    assert forall|x: int| k <= x < m implies #[trigger] t[x] != '<' by {
        assert(t.subrange(k, m)[x - k] == esc[x - k]);
        assert(esc.contains(esc[x - k]));
    }
    reading::lemma_plain(t, k, m, g2, f);
    reading::lemma_raw_end(t, m, "text"@, g2, f);
    reading::lemma_raw_end(t, m + c.len(), "navLabel"@, g2, f);
}

/// The target of a navigation point is met.
proof fn lemma_point_content(t: Seq<char>, i: int, src: Seq<char>, g: Growth)
    requires
        0 <= i,
        text::is_at(t, content_tag(markup::spec_escape_attr(src)) + seq!['\n'], i),
    ensures
        reading::read_on(t, i, g, ncx_step(t)) == reading::read_on(
            t,
            i + content_tag(markup::spec_escape_attr(src)).len() + 1,
            toc::targeted(g, src),
            ncx_step(t),
        ),
{
    let f = ncx_step(t);
    let esc = markup::spec_escape_attr(src);
    let tag = content_tag(esc);
    lemma_ncx_names();
    escaping::escaping_leaves_no_markup(src);
    escaping::unescaping_undoes_escaping(src);
    reading::lemma_then_line(t, tag, i, toc::targeted(g, src), f);
    reading::lemma_one_attr_close(t, i, "content"@, "src"@, esc, true);
    let e = i + tag.len();
    reading::lemma_start_tag(t, i, "content"@, e - 1, g, f);
    assert(t.subrange(i, e) =~= tag);
    reading::lemma_one_attribute("content"@, "src"@, esc, true);
}

/// A written navigation point opens its entry.
proof fn lemma_point(
    t: Seq<char>,
    i: int,
    id: int,
    order: int,
    e: Toc,
    base: Seq<char>,
    g: Growth,
)
    requires
        0 <= i,
        text::is_at(
            t,
            nav_doc::point_head(id, order, e.title, structure::spec_relativize(base, e.href)),
            i,
        ),
    ensures
        reading::read_on(t, i, g, ncx_step(t)) == reading::read_on(
            t,
            i + nav_doc::point_head(
                id,
                order,
                e.title,
                structure::spec_relativize(base, e.href),
            ).len(),
            reading::opened(g, e, base),
            ncx_step(t),
        ),
{
    let src = structure::spec_relativize(base, e.href);
    let title = nav_doc::spec_trim_markup(e.title);
    let esc = markup::spec_escape_text(title);
    let name = "navPoint-"@ + text::decimal(id as nat);
    let place = text::decimal(order as nat);
    let tag = point_tag(name, place);
    let body = label_text(esc) + seq!['\n'];
    let content = content_tag(markup::spec_escape_attr(src)) + seq!['\n'];
    lemma_point_pieces(id, order, e.title, src);
    lemma_decimal(id as nat);
    lemma_decimal(order as nat);
    assert(!name.contains('"')) by {
        reveal_strlit("navPoint-");
        assert forall|k: int| 0 <= k < name.len() implies #[trigger] name[k] != '"' by {
            let d = text::decimal(id as nat);
            if k >= 9 {
                assert(name[k] == d[k - 9]);
                assert(d.contains(d[k - 9]));
            }
        }
    }
    escaping::escaping_leaves_no_markup(title);
    reading::lemma_part_at(t, tag + label_open(), body, content, i);
    assert(tag + (label_open() + body) + Seq::<char>::empty() =~= tag + label_open() + body);
    reading::lemma_part_at(t, tag, label_open() + body, Seq::empty(), i);
    lemma_point_tag(t, i, name, place, g);
    let g1 = Growth { open: g.open.push(toc::blank_entry()), ..g };
    lemma_point_label(t, i + tag.len(), esc, g1);
    reading::lemma_label(e.title);
    lemma_point_content(
        t,
        i + tag.len() + label_open().len() + body.len(),
        src,
        toc::retitled(g1, title),
    );
    reading::lemma_opened(g, e, base);
}

// ---------------------------------------------------------------- the navigation map

/// What is written of navigation points stays in front of what comes behind.
proof fn lemma_points_grow(v: Seq<Toc>, base: Seq<char>, p: Points)
    ensures
        p.out.len() <= nav_doc::points(v, base, p).out.len(),
        nav_doc::points(v, base, p).out.subrange(0, p.out.len() as int) == p.out,
    decreases v,
{
    if v.len() == 0 {
        assert(p.out.subrange(0, p.out.len() as int) =~= p.out);
    } else {
        let q = nav_doc::points(v.drop_last(), base, p);
        let e = v.last();
        let src = structure::spec_relativize(base, e.href);
        let targets = nav_doc::known(q.targets, src);
        let head = nav_doc::point_head(
            q.count + 1,
            nav_doc::place(targets, src, 0),
            e.title,
            src,
        );
        let within = Points { out: q.out + head, count: q.count + 1, targets };
        lemma_points_grow(v.drop_last(), base, p);
        lemma_points_grow(e.children, base, within);
        let n = p.out.len() as int;
        let inner = nav_doc::points(e.children, base, within).out;
        let out = nav_doc::points(v, base, p).out;
        assert(out.subrange(0, n) =~= inner.subrange(0, within.out.len() as int).subrange(0, n));
        assert(within.out.subrange(0, n) =~= q.out.subrange(0, n));
    }
}

/// A start of a text that stands at a place stands there.
proof fn lemma_start_at(t: Seq<char>, a: Seq<char>, n: int, i: int)
    requires
        text::is_at(t, a, i),
        0 <= n <= a.len(),
    ensures
        text::is_at(t, a.subrange(0, n), i),
{
    assert(a.subrange(0, n) + a.subrange(n, a.len() as int) + Seq::<char>::empty() =~= a);
    reading::lemma_part_at(
        t,
        a.subrange(0, n),
        a.subrange(n, a.len() as int),
        Seq::empty(),
        i,
    );
}

/// The written navigation points are read back.
#[verifier::rlimit(30)]
proof fn lemma_points(t: Seq<char>, i: int, v: Seq<Toc>, base: Seq<char>, p: Points, g: Growth)
    requires
        0 <= i,
        text::is_at(t, nav_doc::points(v, base, p).out, i),
    ensures
        reading::read_on(t, i + p.out.len(), g, ncx_step(t)) == reading::read_on(
            t,
            i + nav_doc::points(v, base, p).out.len(),
            reading::added(g, reading::entries_read(v, base)),
            ncx_step(t),
        ),
    decreases v,
{
    if v.len() == 0 {
        reading::lemma_added_none(g);
    } else {
        let q = nav_doc::points(v.drop_last(), base, p);
        let e = v.last();
        let src = structure::spec_relativize(base, e.href);
        let targets = nav_doc::known(q.targets, src);
        let order = nav_doc::place(targets, src, 0);
        let head = nav_doc::point_head(q.count + 1, order, e.title, src);
        let within = Points { out: q.out + head, count: q.count + 1, targets };
        let inner = nav_doc::points(e.children, base, within).out;
        lemma_ncx_names();
        let end = seq!['<', '/'] + "navPoint"@ + seq!['>'];
        assert("</navPoint>\n"@ =~= end + seq!['\n']) by {
            reveal_strlit("</navPoint>\n");
            reveal_strlit("navPoint");
        }
        assert(inner + end + seq!['\n'] =~= nav_doc::points(v, base, p).out);
        reading::lemma_part_at(t, inner, end, seq!['\n'], i);
        lemma_points_grow(e.children, base, within);
        lemma_start_at(t, inner, within.out.len() as int, i);
        assert(q.out + head + Seq::<char>::empty() =~= within.out);
        reading::lemma_part_at(t, q.out, head, Seq::empty(), i);
        let g1 = reading::added(g, reading::entries_read(v.drop_last(), base));
        lemma_points(t, i, v.drop_last(), base, p, g);
        lemma_point(t, i + q.out.len(), q.count + 1, order, e, base, g1);
        let o = reading::opened(g1, e, base);
        lemma_points(t, i, e.children, base, within, o);
        let full = reading::added(o, reading::entries_read(e.children, base));
        let k = i + inner.len();
        reading::lemma_raw_end(t, k, "navPoint"@, full, ncx_step(t));
        reading::lemma_line_end(t, k + end.len(), toc::closed(full), ncx_step(t));
        reading::lemma_closed(g1, e, base);
        reading::lemma_added_one(
            g,
            reading::entries_read(v.drop_last(), base),
            reading::entry_read(e, base),
        );
    }
}

/// A written navigation map is read back, wherever it stands: its entries are
/// added to what was read before it.
pub proof fn lemma_navmap(t: Seq<char>, i: int, v: Seq<Toc>, base: Seq<char>, g: Growth)
    requires
        0 <= i,
        text::is_at(t, nav_doc::spec_render_navmap(v, base), i),
    ensures
        reading::read_on(t, i, g, ncx_step(t)) == reading::read_on(
            t,
            i + nav_doc::spec_render_navmap(v, base).len(),
            reading::added(g, reading::entries_read(v, base)),
            ncx_step(t),
        ),
{
    let f = ncx_step(t);
    let p = Points { out: "<navMap>\n"@, count: 0, targets: Seq::<Seq<char>>::empty() };
    let out = nav_doc::points(v, base, p).out;
    lemma_ncx_names();
    let open = seq!['<'] + "navMap"@ + seq!['>'];
    let end = seq!['<', '/'] + "navMap"@ + seq!['>'];
    reveal_strlit("<navMap>\n");
    reveal_strlit("</navMap>");
    reveal_strlit("navMap");
    assert("<navMap>\n"@ =~= open + seq!['\n']);
    assert("</navMap>"@ =~= end);
    assert(out + end + Seq::<char>::empty() =~= nav_doc::spec_render_navmap(v, base));
    reading::lemma_part_at(t, out, end, Seq::empty(), i);
    lemma_points_grow(v, base, p);
    lemma_start_at(t, out, p.out.len() as int, i);
    reading::lemma_then_line(t, open, i, g, f);
    lemma_raw_bare(t, i, "navMap"@, g);
    lemma_points(t, i, v, base, p, g);
    let full = reading::added(g, reading::entries_read(v, base));
    reading::lemma_raw_end(t, i + out.len(), "navMap"@, full, f);
}

// ---------------------------------------------------------------- the document around it

spec fn ncx_prolog() -> Seq<char> {
    (seq!['<', '?'] + "xml version=\"1.0\" encoding=\"utf-8\""@ + seq!['?', '>'] + seq!['\n']) + (
    seq!['<', '!']
        + "DOCTYPE ncx PUBLIC \"-//NISO//DTD ncx 2005-1//EN\" \"http://www.daisy.org/z3986/2005/ncx-2005-1.dtd\""@
        + seq!['>'] + seq!['\n'])
}

/// A tag with two attributes.
spec fn two_attr_tag(
    name: Seq<char>,
    a: (Seq<char>, Seq<char>),
    b: (Seq<char>, Seq<char>),
    end: Seq<char>,
) -> Seq<char> {
    (seq!['<'] + name) + (reading::attr_text(a.0, a.1) + reading::attr_text(b.0, b.1)) + end
}

spec fn ncx_tag() -> Seq<char> {
    two_attr_tag(
        "ncx"@,
        ("xmlns"@, "http://www.daisy.org/z3986/2005/ncx/"@),
        ("version"@, "2005-1"@),
        seq!['>'],
    )
}

spec fn meta_of(name: Seq<char>, content: Seq<char>) -> Seq<char> {
    two_attr_tag("meta"@, ("name"@, name), ("content"@, content), seq!['/', '>'])
}

spec fn ncx_start() -> Seq<char> {
    ncx_prolog() + (ncx_tag() + seq!['\n']) + reading::tag_line("head"@, false)
}

spec fn ncx_metas(uid: Seq<char>, depth: Seq<char>) -> Seq<char> {
    (meta_of("dtb:uid"@, uid) + seq!['\n'] + (meta_of("dtb:depth"@, depth) + seq!['\n'])) + (meta_of(
        "dtb:totalPageCount"@,
        "0"@,
    ) + seq!['\n']) + (meta_of("dtb:maxPageNumber"@, "0"@) + seq!['\n'])
}

spec fn doc_title(esc: Seq<char>) -> Seq<char> {
    ((seq!['<'] + "docTitle"@ + seq!['>']) + (seq!['<'] + "text"@ + seq!['>'])) + esc + ((seq![
        '<',
        '/',
    ] + "text"@ + seq!['>']) + (seq!['<', '/'] + "docTitle"@ + seq!['>']) + seq!['\n'])
}

proof fn lemma_outer_names()
    ensures
        reading::is_plain_name("ncx"@),
        reading::is_plain_name("head"@),
        reading::is_plain_name("meta"@),
        reading::is_plain_name("xmlns"@),
        reading::is_plain_name("version"@),
        reading::is_plain_name("name"@),
        reading::is_plain_name("content"@),
        opf::spec_local("ncx"@) == "ncx"@,
        opf::spec_local("head"@) == "head"@,
        opf::spec_local("meta"@) == "meta"@,
        !is_ncx_word("ncx"@),
        !is_ncx_word("head"@),
        !is_ncx_word("meta"@),
{
    reveal_strlit("ncx");
    reveal_strlit("head");
    reveal_strlit("meta");
    reveal_strlit("xmlns");
    reveal_strlit("version");
    reveal_strlit("name");
    reveal_strlit("content");
    reveal_strlit("navpoint");
    reveal_strlit("text");
    lemma_local("ncx"@);
    lemma_local("head"@);
    lemma_local("meta"@);
    assert("ncx"@.len() == 3);
    assert("head"@[0] != "text"@[0]);
    assert("meta"@[0] != "text"@[0]);
    assert("head"@.len() == 4 && "meta"@.len() == 4 && "text"@.len() == 4);
    assert("navpoint"@.len() == 8 && "content"@.len() == 7);
}

proof fn lemma_no_quotes()
    ensures
        !"http://www.daisy.org/z3986/2005/ncx/"@.contains('"'),
        !"2005-1"@.contains('"'),
        !"dtb:uid"@.contains('"'),
        !"dtb:depth"@.contains('"'),
        !"dtb:totalPageCount"@.contains('"'),
        !"dtb:maxPageNumber"@.contains('"'),
        !"0"@.contains('"'),
        !"xml version=\"1.0\" encoding=\"utf-8\""@.contains('?'),
        !"DOCTYPE ncx PUBLIC \"-//NISO//DTD ncx 2005-1//EN\" \"http://www.daisy.org/z3986/2005/ncx-2005-1.dtd\""@.contains(
            '>',
        ),
{
    reveal_strlit("http://www.daisy.org/z3986/2005/ncx/");
    reveal_strlit("2005-1");
    reveal_strlit("dtb:uid");
    reveal_strlit("dtb:depth");
    reveal_strlit("dtb:totalPageCount");
    reveal_strlit("dtb:maxPageNumber");
    reveal_strlit("0");
    reveal_strlit("xml version=\"1.0\" encoding=\"utf-8\"");
    reveal_strlit("DOCTYPE ncx PUBLIC \"-//NISO//DTD ncx 2005-1//EN\" \"http://www.daisy.org/z3986/2005/ncx-2005-1.dtd\"");
}

spec fn meta_open(name: Seq<char>) -> Seq<char> {
    (seq!['<'] + "meta"@) + reading::attr_text("name"@, name) + (seq![' '] + "content"@ + seq![
        '=',
        '"',
    ])
}

spec fn meta_shut() -> Seq<char> {
    seq!['"', '/', '>', '\n']
}

spec fn title_open() -> Seq<char> {
    (seq!['<'] + "docTitle"@ + seq!['>']) + (seq!['<'] + "text"@ + seq!['>'])
}

spec fn title_shut() -> Seq<char> {
    (seq!['<', '/'] + "text"@ + seq!['>']) + (seq!['<', '/'] + "docTitle"@ + seq!['>']) + seq!['\n']
}

proof fn lemma_ncx_head()
    ensures
        "<?xml version=\"1.0\" encoding=\"utf-8\"?>\n<!DOCTYPE ncx PUBLIC \"-//NISO//DTD ncx 2005-1//EN\" \"http://www.daisy.org/z3986/2005/ncx-2005-1.dtd\">\n<ncx xmlns=\"http://www.daisy.org/z3986/2005/ncx/\" version=\"2005-1\">\n<head>\n<meta name=\"dtb:uid\" content=\""@
            == ncx_start() + meta_open("dtb:uid"@),
{
    reveal_strlit("<?xml version=\"1.0\" encoding=\"utf-8\"?>\n<!DOCTYPE ncx PUBLIC \"-//NISO//DTD ncx 2005-1//EN\" \"http://www.daisy.org/z3986/2005/ncx-2005-1.dtd\">\n<ncx xmlns=\"http://www.daisy.org/z3986/2005/ncx/\" version=\"2005-1\">\n<head>\n<meta name=\"dtb:uid\" content=\"");
    reveal_strlit("http://www.daisy.org/z3986/2005/ncx/");
    reveal_strlit("2005-1");
    reveal_strlit("dtb:uid");
    reveal_strlit("xml version=\"1.0\" encoding=\"utf-8\"");
    reveal_strlit("DOCTYPE ncx PUBLIC \"-//NISO//DTD ncx 2005-1//EN\" \"http://www.daisy.org/z3986/2005/ncx-2005-1.dtd\"");
    reveal_strlit("ncx");
    reveal_strlit("head");
    reveal_strlit("meta");
    reveal_strlit("xmlns");
    reveal_strlit("version");
    reveal_strlit("name");
    reveal_strlit("content");
    assert("<?xml version=\"1.0\" encoding=\"utf-8\"?>\n<!DOCTYPE ncx PUBLIC \"-//NISO//DTD ncx 2005-1//EN\" \"http://www.daisy.org/z3986/2005/ncx-2005-1.dtd\">\n<ncx xmlns=\"http://www.daisy.org/z3986/2005/ncx/\" version=\"2005-1\">\n<head>\n<meta name=\"dtb:uid\" content=\""@
        =~= ncx_start() + meta_open("dtb:uid"@));
}

proof fn lemma_ncx_depth()
    ensures
        "\"/>\n<meta name=\"dtb:depth\" content=\""@ == meta_shut() + meta_open("dtb:depth"@),
{
    reveal_strlit("\"/>\n<meta name=\"dtb:depth\" content=\"");
    reveal_strlit("dtb:depth");
    reveal_strlit("meta");
    reveal_strlit("name");
    reveal_strlit("content");
    assert("\"/>\n<meta name=\"dtb:depth\" content=\""@ =~= meta_shut() + meta_open("dtb:depth"@));
}

proof fn lemma_ncx_counts()
    ensures
        "\"/>\n<meta name=\"dtb:totalPageCount\" content=\"0\"/>\n<meta name=\"dtb:maxPageNumber\" content=\"0\"/>\n</head>\n<docTitle><text>"@
            == meta_shut() + ((meta_of("dtb:totalPageCount"@, "0"@) + seq!['\n']) + (meta_of(
            "dtb:maxPageNumber"@,
            "0"@,
        ) + seq!['\n'])) + reading::tag_line("head"@, true) + title_open(),
{
    reveal_strlit("\"/>\n<meta name=\"dtb:totalPageCount\" content=\"0\"/>\n<meta name=\"dtb:maxPageNumber\" content=\"0\"/>\n</head>\n<docTitle><text>");
    reveal_strlit("dtb:totalPageCount");
    reveal_strlit("dtb:maxPageNumber");
    reveal_strlit("0");
    reveal_strlit("head");
    reveal_strlit("meta");
    reveal_strlit("name");
    reveal_strlit("content");
    reveal_strlit("docTitle");
    reveal_strlit("text");
    assert("\"/>\n<meta name=\"dtb:totalPageCount\" content=\"0\"/>\n<meta name=\"dtb:maxPageNumber\" content=\"0\"/>\n</head>\n<docTitle><text>"@
        =~= meta_shut() + ((meta_of("dtb:totalPageCount"@, "0"@) + seq!['\n']) + (meta_of(
        "dtb:maxPageNumber"@,
        "0"@,
    ) + seq!['\n'])) + reading::tag_line("head"@, true) + title_open());
}

proof fn lemma_ncx_ends()
    ensures
        "</text></docTitle>\n"@ == title_shut(),
        "\n</ncx>\n"@ == seq!['\n'] + reading::tag_line("ncx"@, true),
{
    reveal_strlit("</text></docTitle>\n");
    reveal_strlit("\n</ncx>\n");
    reveal_strlit("docTitle");
    reveal_strlit("text");
    reveal_strlit("ncx");
    assert("</text></docTitle>\n"@ =~= title_shut());
    assert("\n</ncx>\n"@ =~= seq!['\n'] + reading::tag_line("ncx"@, true));
}

proof fn lemma_meta(name: Seq<char>, content: Seq<char>)
    ensures
        meta_of(name, content) + seq!['\n'] == meta_open(name) + content + meta_shut(),
{
    assert(meta_of(name, content) + seq!['\n'] =~= meta_open(name) + content + meta_shut());
}

proof fn lemma_regrouped(
    s: Seq<char>,
    m: Seq<char>,
    u: Seq<char>,
    x: Seq<char>,
    n: Seq<char>,
    d: Seq<char>,
    k: Seq<char>,
    h: Seq<char>,
)
    ensures
        (s + m) + u + (x + n) + d + (x + k + h) == s + (((m + u + x) + (n + d + x)) + k) + h,
{
    assert((s + m) + u + (x + n) + d + (x + k + h) =~= s + (((m + u + x) + (n + d + x)) + k) + h);
}

proof fn lemma_ncx_pieces(navmap: Seq<char>, uid: Seq<char>, title: Seq<char>, depth: int)
    ensures
        nav_doc::spec_render_ncx(navmap, uid, title, depth) == (ncx_start() + ncx_metas(
            markup::spec_escape_attr(uid),
            text::decimal(depth as nat),
        ) + (reading::tag_line("head"@, true) + doc_title(markup::spec_escape_text(title))))
            + navmap + (seq!['\n'] + reading::tag_line("ncx"@, true)),
{
    let u = markup::spec_escape_attr(uid);
    let d = text::decimal(depth as nat);
    let esc = markup::spec_escape_text(title);
    let k = (meta_of("dtb:totalPageCount"@, "0"@) + seq!['\n']) + (meta_of(
        "dtb:maxPageNumber"@,
        "0"@,
    ) + seq!['\n']);
    let h = reading::tag_line("head"@, true);
    lemma_ncx_head();
    lemma_ncx_depth();
    lemma_ncx_counts();
    lemma_ncx_ends();
    lemma_meta("dtb:uid"@, u);
    lemma_meta("dtb:depth"@, d);
    assert(meta_shut() + k + h + title_open() =~= meta_shut() + k + (h + title_open()));
    lemma_regrouped(
        ncx_start(),
        meta_open("dtb:uid"@),
        u,
        meta_shut(),
        meta_open("dtb:depth"@),
        d,
        k,
        h + title_open(),
    );
    let uids = meta_of("dtb:uid"@, u) + seq!['\n'];
    let depths = meta_of("dtb:depth"@, d) + seq!['\n'];
    assert(ncx_metas(u, d) =~= (uids + depths) + k);
    let s = ncx_start() + ncx_metas(u, d);
    assert(s + (h + title_open()) + esc + title_shut() =~= s + (h + (title_open() + esc
        + title_shut())));
}

/// A tag with two attributes is met, and leaves the state as it is where its
/// name means nothing in an NCX.
proof fn lemma_two_attr_tag(
    t: Seq<char>,
    i: int,
    name: Seq<char>,
    a: (Seq<char>, Seq<char>),
    b: (Seq<char>, Seq<char>),
    end: Seq<char>,
    g: Growth,
)
    requires
        0 <= i,
        reading::is_plain_name(name),
        opf::spec_local(name) == name,
        !is_ncx_word(name),
        reading::is_raw_name(a.0),
        reading::is_raw_name(b.0),
        !a.1.contains('"'),
        !b.1.contains('"'),
        end == seq!['>'] || end == seq!['/', '>'],
        text::is_at(t, two_attr_tag(name, a, b, end), i),
    ensures
        reading::read_on(t, i, g, ncx_step(t)) == reading::read_on(
            t,
            i + two_attr_tag(name, a, b, end).len(),
            g,
            ncx_step(t),
        ),
{
    let open = seq!['<'] + name;
    let x = reading::attr_text(a.0, a.1);
    let y = reading::attr_text(b.0, b.1);
    reading::lemma_part_at(t, open, x + y, end, i);
    let p = i + open.len();
    assert(x + y + Seq::<char>::empty() =~= x + y);
    reading::lemma_part_at(t, x, y, Seq::empty(), p);
    reading::lemma_close_attr(t, p, a.0, a.1);
    reading::lemma_close_attr(t, p + x.len(), b.0, b.1);
    let q = p + x.len() + y.len();
    let e = i + two_attr_tag(name, a, b, end).len() - 1;
    assert(t.subrange(q, q + end.len()) =~= end);
    assert(t[e] == end.last());
    assert(markup::tag_close(t, e, None) == Some(e));
    if end == seq!['/', '>'] {
        assert(t.subrange(q, q + end.len())[0] == '/');
        assert(t[q] == '/');
        assert(markup::tag_close(t, q, None) == markup::tag_close(t, e, None));
    }
    reading::lemma_start_tag(t, i, name, e, g, ncx_step(t));
}

proof fn lemma_meta_line(t: Seq<char>, i: int, name: Seq<char>, content: Seq<char>, g: Growth)
    requires
        0 <= i,
        !name.contains('"'),
        !content.contains('"'),
        text::is_at(t, meta_of(name, content) + seq!['\n'], i),
    ensures
        reading::read_on(t, i, g, ncx_step(t)) == reading::read_on(
            t,
            i + (meta_of(name, content) + seq!['\n']).len(),
            g,
            ncx_step(t),
        ),
{
    lemma_outer_names();
    reading::lemma_then_line(t, meta_of(name, content), i, g, ncx_step(t));
    lemma_two_attr_tag(
        t,
        i,
        "meta"@,
        ("name"@, name),
        ("content"@, content),
        seq!['/', '>'],
        g,
    );
}

proof fn lemma_metas(t: Seq<char>, i: int, uid: Seq<char>, depth: Seq<char>, g: Growth)
    requires
        0 <= i,
        !uid.contains('"'),
        !depth.contains('"'),
        text::is_at(t, ncx_metas(uid, depth), i),
    ensures
        reading::read_on(t, i, g, ncx_step(t)) == reading::read_on(
            t,
            i + ncx_metas(uid, depth).len(),
            g,
            ncx_step(t),
        ),
{
    let nl = seq!['\n'];
    let a = meta_of("dtb:uid"@, uid) + nl;
    let b = meta_of("dtb:depth"@, depth) + nl;
    let c = meta_of("dtb:totalPageCount"@, "0"@) + nl;
    let d = meta_of("dtb:maxPageNumber"@, "0"@) + nl;
    lemma_no_quotes();
    reading::lemma_part_at(t, a + b, c, d, i);
    assert(a + b + Seq::<char>::empty() =~= a + b);
    reading::lemma_part_at(t, a, b, Seq::empty(), i);
    lemma_meta_line(t, i, "dtb:uid"@, uid, g);
    lemma_meta_line(t, i + a.len(), "dtb:depth"@, depth, g);
    let j = i + a.len() + b.len();
    lemma_meta_line(t, j, "dtb:totalPageCount"@, "0"@, g);
    lemma_meta_line(t, j + c.len(), "dtb:maxPageNumber"@, "0"@, g);
}

proof fn lemma_ncx_start(t: Seq<char>, i: int, g: Growth)
    requires
        0 <= i,
        text::is_at(t, ncx_start(), i),
    ensures
        reading::read_on(t, i, g, ncx_step(t)) == reading::read_on(
            t,
            i + ncx_start().len(),
            g,
            ncx_step(t),
        ),
{
    let f = ncx_step(t);
    let xml = "xml version=\"1.0\" encoding=\"utf-8\""@;
    let kind = "DOCTYPE ncx PUBLIC \"-//NISO//DTD ncx 2005-1//EN\" \"http://www.daisy.org/z3986/2005/ncx-2005-1.dtd\""@;
    let nl = seq!['\n'];
    let a = seq!['<', '?'] + xml + seq!['?', '>'];
    let b = seq!['<', '!'] + kind + seq!['>'];
    lemma_no_quotes();
    lemma_outer_names();
    reveal_strlit("xml version=\"1.0\" encoding=\"utf-8\"");
    reveal_strlit("DOCTYPE ncx PUBLIC \"-//NISO//DTD ncx 2005-1//EN\" \"http://www.daisy.org/z3986/2005/ncx-2005-1.dtd\"");
    reading::lemma_part_at(t, ncx_prolog(), ncx_tag() + nl, reading::tag_line("head"@, false), i);
    assert((a + nl) + (b + nl) + Seq::<char>::empty() =~= ncx_prolog());
    reading::lemma_part_at(t, a + nl, b + nl, Seq::empty(), i);
    reading::lemma_then_line(t, a, i, g, f);
    reading::lemma_instruction(t, i, xml, g, f);
    let j = i + a.len() + 1;
    reading::lemma_then_line(t, b, j, g, f);
    reading::lemma_declaration(t, j, kind, g, f);
    let k = i + ncx_prolog().len();
    reading::lemma_then_line(t, ncx_tag(), k, g, f);
    lemma_two_attr_tag(
        t,
        k,
        "ncx"@,
        ("xmlns"@, "http://www.daisy.org/z3986/2005/ncx/"@),
        ("version"@, "2005-1"@),
        seq!['>'],
        g,
    );
    reading::lemma_tag_line(t, k + ncx_tag().len() + 1, "head"@, false, g, f);
}

#[verifier::rlimit(40)]
proof fn lemma_doc_title(t: Seq<char>, i: int, esc: Seq<char>, g: Growth)
    requires
        0 <= i,
        !esc.contains('<'),
        g.open.len() == 0,
        text::is_at(t, doc_title(esc), i),
    ensures
        reading::read_on(t, i, g, ncx_step(t)) == reading::read_on(
            t,
            i + doc_title(esc).len(),
            g,
            ncx_step(t),
        ),
{
    let f = ncx_step(t);
    lemma_ncx_names();
    let a = seq!['<'] + "docTitle"@ + seq!['>'];
    let b = seq!['<'] + "text"@ + seq!['>'];
    let c = seq!['<', '/'] + "text"@ + seq!['>'];
    let d = seq!['<', '/'] + "docTitle"@ + seq!['>'];
    reading::lemma_part_at(t, a + b, esc, c + d + seq!['\n'], i);
    assert(a + b + Seq::<char>::empty() =~= a + b);
    reading::lemma_part_at(t, a, b, Seq::empty(), i);
    lemma_raw_bare(t, i, "docTitle"@, g);
    lemma_raw_bare(t, i + a.len(), "text"@, g);
    assert(text::spec_lower("text"@) =~= "text"@);
    let j = i + a.len() + b.len();
    let k = j + esc.len();
    assert forall|x: int| j <= x < k implies #[trigger] t[x] != '<' by {
        assert(t.subrange(j, k)[x - j] == esc[x - j]);
        assert(esc.contains(esc[x - j]));
    }
    reading::lemma_plain(t, j, k, g, f);
    reading::lemma_part_at(t, c, d, seq!['\n'], k);
    reading::lemma_raw_end(t, k, "text"@, g, f);
    reading::lemma_raw_end(t, k + c.len(), "docTitle"@, g, f);
    reading::lemma_line_end(t, k + c.len() + d.len(), g, f);
}

proof fn lemma_before_navmap(
    t: Seq<char>,
    uid: Seq<char>,
    depth: Seq<char>,
    esc: Seq<char>,
    g: Growth,
)
    requires
        !uid.contains('"'),
        !depth.contains('"'),
        !esc.contains('<'),
        g.open.len() == 0,
        text::is_at(
            t,
            ncx_start() + ncx_metas(uid, depth) + (reading::tag_line("head"@, true) + doc_title(
                esc,
            )),
            0,
        ),
    ensures
        reading::read_on(t, 0, g, ncx_step(t)) == reading::read_on(
            t,
            (ncx_start() + ncx_metas(uid, depth) + (reading::tag_line("head"@, true) + doc_title(
                esc,
            ))).len() as int,
            g,
            ncx_step(t),
        ),
{
    let a = ncx_start();
    let b = ncx_metas(uid, depth);
    let c = reading::tag_line("head"@, true);
    let d = doc_title(esc);
    lemma_outer_names();
    reading::lemma_part_at(t, a, b, c + d, 0);
    lemma_ncx_start(t, 0, g);
    lemma_metas(t, a.len() as int, uid, depth, g);
    let k = (a.len() + b.len()) as int;
    assert(c + d + Seq::<char>::empty() =~= c + d);
    reading::lemma_part_at(t, c, d, Seq::empty(), k);
    reading::lemma_tag_line(t, k, "head"@, true, g, ncx_step(t));
    lemma_doc_title(t, k + c.len(), esc, g);
}

/// A table of contents that is written is read back from the NCX too: one made
/// from entries lists them, nested as they were, each with its label without
/// markup space around it and its target written from the document's directory.
pub proof fn an_ncx_is_read_back(
    v: Seq<Toc>,
    base: Seq<char>,
    uid: Seq<char>,
    title: Seq<char>,
    depth: int,
)
    ensures
        toc::spec_parse_ncx(
            nav_doc::spec_render_ncx(nav_doc::spec_render_navmap(v, base), uid, title, depth),
        ) == reading::entries_read(v, base),
{
    let navmap = nav_doc::spec_render_navmap(v, base);
    let t = nav_doc::spec_render_ncx(navmap, uid, title, depth);
    let f = ncx_step(t);
    let g = Growth { open: Seq::<Toc>::empty(), done: Seq::<Toc>::empty() };
    let u = markup::spec_escape_attr(uid);
    let d = text::decimal(depth as nat);
    let esc = markup::spec_escape_text(title);
    let pre = ncx_start() + ncx_metas(u, d) + (reading::tag_line("head"@, true) + doc_title(esc));
    let end = reading::tag_line("ncx"@, true);
    let post = seq!['\n'] + end;
    lemma_outer_names();
    lemma_ncx_pieces(navmap, uid, title, depth);
    lemma_ncx_parse(t);
    escaping::escaping_leaves_no_markup(uid);
    escaping::escaping_leaves_no_markup(title);
    lemma_decimal(depth as nat);
    assert(t.subrange(0, t.len() as int) =~= pre + navmap + post);
    reading::lemma_part_at(t, pre, navmap, post, 0);
    lemma_before_navmap(t, u, d, esc, g);
    lemma_navmap(t, pre.len() as int, v, base, g);
    let full = reading::added(g, reading::entries_read(v, base));
    assert(g.done + reading::entries_read(v, base) =~= reading::entries_read(v, base));
    let c = (pre + navmap).len() as int;
    assert(seq!['\n'] + end + Seq::<char>::empty() =~= post);
    reading::lemma_part_at(t, seq!['\n'], end, Seq::empty(), c);
    reading::lemma_line_end(t, c, full, f);
    reading::lemma_tag_line(t, c + 1, "ncx"@, true, full, f);
}

/// The two navigation documents of a book agree: written from the same entries
/// and the same directory, they are read as the same table of contents.
pub proof fn the_two_documents_agree(
    v: Seq<Toc>,
    base: Seq<char>,
    lang: Seq<char>,
    title: Seq<char>,
    uid: Seq<char>,
    depth: int,
)
    requires
        !lang.contains('"'),
    ensures
        toc::spec_parse_ncx(
            nav_doc::spec_render_ncx(nav_doc::spec_render_navmap(v, base), uid, title, depth),
        ) == toc::spec_parse_nav_toc(
            nav_doc::spec_render_nav_doc(nav_doc::spec_render_toc_nav(v, base), lang, title),
        ),
{
    an_ncx_is_read_back(v, base, uid, title, depth);
    toc_read_back::a_navigation_document_is_read_back(v, base, lang, title);
}

/// A reader outside a navigation point passes the text from `i` to `j` over.
pub open spec fn reads_no_point(t: Seq<char>, i: int, j: int) -> bool {
    forall|g: Growth|
        g.open.len() == 0 ==> #[trigger] reading::read_on(t, i, g, ncx_step(t))
            == reading::read_on(t, j, g, ncx_step(t))
}

/// A navigation map that is spliced into an NCX is read back, where nothing
/// before it and nothing behind it is read as a part of one.
pub proof fn a_spliced_navmap_is_read_back(
    pre: Seq<char>,
    v: Seq<Toc>,
    base: Seq<char>,
    post: Seq<char>,
)
    requires
        ({
            let navmap = nav_doc::spec_render_navmap(v, base);
            let t = pre + navmap + post;
            &&& reads_no_point(t, 0, pre.len() as int)
            &&& reads_no_point(t, (pre + navmap).len() as int, t.len() as int)
        }),
    ensures
        toc::spec_parse_ncx(pre + nav_doc::spec_render_navmap(v, base) + post)
            == reading::entries_read(v, base),
{
    let navmap = nav_doc::spec_render_navmap(v, base);
    let t = pre + navmap + post;
    let f = ncx_step(t);
    let g = Growth { open: Seq::<Toc>::empty(), done: Seq::<Toc>::empty() };
    lemma_ncx_parse(t);
    assert(t.subrange(0, t.len() as int) =~= t);
    reading::lemma_part_at(t, pre, navmap, post, 0);
    let a = pre.len() as int;
    assert(reading::read_on(t, 0, g, f) == reading::read_on(t, a, g, f));
    lemma_navmap(t, a, v, base, g);
    let full = reading::added(g, reading::entries_read(v, base));
    assert(g.done + reading::entries_read(v, base) =~= reading::entries_read(v, base));
    let e = (pre + navmap).len() as int;
    assert(reading::read_on(t, e, full, f) == reading::read_on(t, t.len() as int, full, f));
}

} // verus!
