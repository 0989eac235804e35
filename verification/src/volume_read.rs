//! The package document of a volume is read back: the collection's authors, language,
//! publisher and date, the volume's own title and identifier, and its documents.
use vstd::prelude::*;

use crate::archive::Part;
use crate::error::Fault;
use crate::markup::Token;
use crate::opf::{Book, Opf, OpfItem};
use crate::package::Found;
use crate::reading::{are_attrs, attr_text, attr_texts, attrs_read, is_plain_name};
use crate::split::CutAt;
use crate::split_doc::container;
use crate::toc::Toc;
use crate::volume::{Asked, Described};
use crate::volume_number::Number;
use crate::written_opf::{element, end_tag, is_read, start_tag};
use crate::{
    codec, creators_read_back, edit, escaping, fresh, markup, opf, package, structure, text, tidy,
    toc_repair, volume, volume_number, written_opf,
};

verus! {

// ---------------------------------------------------------------- names

/// The name of an element, with its prefix or without, tells nothing.
proof fn lemma_silent(name: Seq<char>, tag: Seq<char>, b: Seq<char>, p: Opf)
    requires
        name == "meta"@ || name == "metadata"@ || name == "manifest"@,
    ensures
        opf::tag_met(p, name, tag, b) == p,
        is_plain_name(name),
        !tidy::is_field(opf::spec_local(name)),
{
    reveal_strlit("meta");
    reveal_strlit("metadata");
    reveal_strlit("manifest");
    reveal_strlit("title");
    reveal_strlit("language");
    reveal_strlit("creator");
    reveal_strlit("publisher");
    reveal_strlit("date");
    reveal_strlit("identifier");
    reveal_strlit("package");
    reveal_strlit("item");
    reveal_strlit("spine");
    reveal_strlit("itemref");
    reveal(tidy::is_field);
    reveal_with_fuel(text::spec_rfind_char, 10);
    assert(opf::spec_local(name) == name);
    assert(name[0] == 'm');
}

proof fn lemma_field(name: Seq<char>)
    requires
        tidy::is_field(name),
    ensures
        opf::spec_local("dc:"@ + name) == name,
        is_plain_name("dc:"@ + name),
{
    reveal(tidy::is_field);
    reveal_strlit("dc:");
    crate::opf_read_back::lemma_local(name);
    crate::plain_opf::lemma_end_tag(name);
    let s = "dc:"@ + name;
    assert forall|k: int| 0 <= k < s.len() implies markup::name_char(#[trigger] s[k]) && text::lower(s[k])
        == s[k] by {
        if k >= 3 {
            assert(s[k] == name[k - 3]);
        }
    }
}

proof fn lemma_tags(name: Seq<char>)
    requires
        name == "package"@ || name == "item"@ || name == "spine"@ || name == "itemref"@,
    ensures
        is_plain_name(name),
        opf::spec_local(name) == name,
        !tidy::is_field(name),
{
    tidy::lemma_names_differ();
    reveal(tidy::is_field);
    reveal_strlit("package");
    reveal_strlit("item");
    reveal_strlit("spine");
    reveal_strlit("itemref");
    reveal_strlit("publisher");
    reveal_with_fuel(text::spec_rfind_char, 10);
    assert("package"@[1] == 'a' && "publisher"@[1] == 'u');
}

/// A text that can stand in a document as it is.
pub open spec fn is_safe(s: Seq<char>) -> bool {
    !s.contains('<') && !s.contains('&') && !s.contains('"')
}

proof fn lemma_no_attrs()
    ensures
        attr_texts(Seq::empty()) == Seq::<char>::empty(),
        are_attrs(Seq::empty()),
{
}

proof fn lemma_one_attr(a: (Seq<char>, Seq<char>))
    ensures
        attr_texts(seq![a]) == attr_text(a.0, a.1),
{
    let v = seq![a];
    let none = Seq::<(Seq<char>, Seq<char>)>::empty();
    assert(v.drop_first() =~= none);
    assert(attr_texts(none) =~= Seq::<char>::empty());
    assert(v[0] == a);
    assert(attr_texts(v) =~= attr_text(a.0, a.1));
}

proof fn lemma_more_attrs(a: (Seq<char>, Seq<char>), w: Seq<(Seq<char>, Seq<char>)>)
    ensures
        attr_texts(seq![a] + w) == attr_text(a.0, a.1) + attr_texts(w),
{
    let v = seq![a] + w;
    assert(v.drop_first() =~= w);
    assert(v[0] == a);
}

// ---------------------------------------------------------------- metadata

/// A field on a line of its own.
proof fn lemma_field_line(
    open: Seq<char>,
    name: Seq<char>,
    m: Seq<char>,
    close: Seq<char>,
    p: Opf,
)
    requires
        tidy::is_field(name),
        name != "identifier"@,
        !m.contains('<'),
        open == seq!['<'] + ("dc:"@ + name) + seq!['>'],
        close == end_tag("dc:"@ + name) + seq!['\n'],
    ensures
        ({
            let b = text::spec_trim(markup::spec_unescape(m));
            is_read(
                volume::line(open, m, close),
                p,
                opf::tag_met(p, name, Seq::empty(), b),
            )
        }),
{
    let full = "dc:"@ + name;
    let v = Seq::<(Seq<char>, Seq<char>)>::empty();
    lemma_field(name);
    lemma_no_attrs();
    let c = start_tag(full, v, false);
    assert(open =~= c);
    written_opf::lemma_element(full, v, m, p);
    let b = text::spec_trim(markup::spec_unescape(m));
    lemma_local_name(name);
    assert(opf::tag_met(p, full, c, b) == opf::tag_met(p, name, Seq::empty(), b)) by {
        tidy::lemma_names_differ();
        reveal(tidy::is_field);
    }
    written_opf::lemma_line_end(element(full, v, m), p, opf::tag_met(p, full, c, b));
    assert(volume::line(open, m, close) =~= element(full, v, m) + seq!['\n']);
}

proof fn lemma_local_name(name: Seq<char>)
    requires
        tidy::is_field(name),
    ensures
        opf::spec_local(name) == name,
{
    crate::plain_opf::lemma_end_tag(name);
    lemma_no_colon(name, name.len() as int);
}

proof fn lemma_no_colon(s: Seq<char>, i: int)
    requires
        forall|k: int|
            0 <= k < s.len() ==> markup::name_char(#[trigger] s[k]) && s[k] != ':' && text::lower(s[k]) == s[k],
        0 <= i <= s.len(),
    ensures
        text::spec_rfind_char(s, ':', i) is None,
    decreases i,
{
    if i > 0 {
        assert(s[i - 1] != ':');
        lemma_no_colon(s, i - 1);
    }
}

/// The texts that open and close the fields.
proof fn lemma_field_tags()
    ensures
        tidy::is_field("title"@),
        tidy::is_field("language"@),
        tidy::is_field("creator"@),
        tidy::is_field("publisher"@),
        tidy::is_field("date"@),
        tidy::is_field("identifier"@),
        "<dc:title>"@ == seq!['<'] + ("dc:"@ + "title"@) + seq!['>'],
        "</dc:title>\n"@ == end_tag("dc:"@ + "title"@) + seq!['\n'],
        "<dc:language>"@ == seq!['<'] + ("dc:"@ + "language"@) + seq!['>'],
        "</dc:language>\n"@ == end_tag("dc:"@ + "language"@) + seq!['\n'],
        "<dc:creator>"@ == seq!['<'] + ("dc:"@ + "creator"@) + seq!['>'],
        "</dc:creator>\n"@ == end_tag("dc:"@ + "creator"@) + seq!['\n'],
        "<dc:publisher>"@ == seq!['<'] + ("dc:"@ + "publisher"@) + seq!['>'],
        "</dc:publisher>\n"@ == end_tag("dc:"@ + "publisher"@) + seq!['\n'],
        "<dc:date>"@ == seq!['<'] + ("dc:"@ + "date"@) + seq!['>'],
        "</dc:date>\n"@ == end_tag("dc:"@ + "date"@) + seq!['\n'],
{
    reveal(tidy::is_field);
    reveal_strlit("dc:");
    reveal_strlit("title");
    reveal_strlit("language");
    reveal_strlit("creator");
    reveal_strlit("publisher");
    reveal_strlit("date");
    reveal_strlit("<dc:title>");
    reveal_strlit("</dc:title>\n");
    reveal_strlit("<dc:language>");
    reveal_strlit("</dc:language>\n");
    reveal_strlit("<dc:creator>");
    reveal_strlit("</dc:creator>\n");
    reveal_strlit("<dc:publisher>");
    reveal_strlit("</dc:publisher>\n");
    reveal_strlit("<dc:date>");
    reveal_strlit("</dc:date>\n");
    assert("<dc:title>"@ =~= seq!['<'] + ("dc:"@ + "title"@) + seq!['>']);
    assert("</dc:title>\n"@ =~= end_tag("dc:"@ + "title"@) + seq!['\n']);
    assert("<dc:language>"@ =~= seq!['<'] + ("dc:"@ + "language"@) + seq!['>']);
    assert("</dc:language>\n"@ =~= end_tag("dc:"@ + "language"@) + seq!['\n']);
    assert("<dc:creator>"@ =~= seq!['<'] + ("dc:"@ + "creator"@) + seq!['>']);
    assert("</dc:creator>\n"@ =~= end_tag("dc:"@ + "creator"@) + seq!['\n']);
    assert("<dc:publisher>"@ =~= seq!['<'] + ("dc:"@ + "publisher"@) + seq!['>']);
    assert("</dc:publisher>\n"@ =~= end_tag("dc:"@ + "publisher"@) + seq!['\n']);
    assert("<dc:date>"@ =~= seq!['<'] + ("dc:"@ + "date"@) + seq!['>']);
    assert("</dc:date>\n"@ =~= end_tag("dc:"@ + "date"@) + seq!['\n']);
}

/// An escaped text in a field is read as the text, trimmed.
proof fn lemma_escaped_line(open: Seq<char>, name: Seq<char>, s: Seq<char>, close: Seq<char>, p: Opf)
    requires
        tidy::is_field(name),
        name != "identifier"@,
        open == seq!['<'] + ("dc:"@ + name) + seq!['>'],
        close == end_tag("dc:"@ + name) + seq!['\n'],
    ensures
        is_read(
            volume::line(open, markup::spec_escape_text(s), close),
            p,
            opf::tag_met(p, name, Seq::empty(), text::spec_trim(s)),
        ),
{
    escaping::escaping_leaves_no_markup(s);
    escaping::unescaping_undoes_escaping(s);
    lemma_field_line(open, name, markup::spec_escape_text(s), close, p);
}

/// The authors, trimmed.
pub open spec fn trimmed(v: Seq<Seq<char>>) -> Seq<Seq<char>> {
    v.map_values(|s: Seq<char>| text::spec_trim(s))
}

pub open spec fn trimmed_one(s: Option<Seq<char>>) -> Option<Seq<char>> {
    match s {
        Some(x) => Some(text::spec_trim(x)),
        None => None,
    }
}

proof fn lemma_creators(v: Seq<Seq<char>>, n: int, p: Opf)
    requires
        0 <= n <= v.len(),
    ensures
        is_read(
            volume::creators_to(v, n),
            p,
            (Opf { authors: p.authors + trimmed(v.take(n)), ..p }),
        ),
    decreases n,
{
    if n == 0 {
        written_opf::lemma_text(Seq::empty(), p);
        assert(p.authors + trimmed(v.take(0)) =~= p.authors);
    } else {
        lemma_creators(v, n - 1, p);
        lemma_field_tags();
        let q = Opf { authors: p.authors + trimmed(v.take(n - 1)), ..p };
        let r = Opf { authors: p.authors + trimmed(v.take(n)), ..p };
        tidy::lemma_names_differ();
        lemma_escaped_line("<dc:creator>"@, "creator"@, v[n - 1], "</dc:creator>\n"@, q);
        lemma_local_name("creator"@);
        assert(r.authors =~= q.authors.push(text::spec_trim(v[n - 1])));
        written_opf::lemma_join(
            volume::creators_to(v, n - 1),
            volume::line("<dc:creator>"@, markup::spec_escape_text(v[n - 1]), "</dc:creator>\n"@),
            p,
            q,
            r,
        );
    }
}

proof fn lemma_identifier(uid: Seq<char>, p: Opf)
    requires
        is_safe(uid),
    ensures
        is_read(
            volume::line("<dc:identifier id=\"uid\">"@, uid, "</dc:identifier>\n"@),
            p,
            (Opf { identifiers: p.identifiers.push(("uid"@, text::spec_trim(uid))), ..p }),
        ),
{
    reveal_strlit("<dc:identifier id=\"uid\">");
    reveal_strlit("</dc:identifier>\n");
    reveal_strlit("dc:");
    reveal_strlit("identifier");
    reveal_strlit("id");
    reveal_strlit("uid");
    lemma_field_tags();
    lemma_field("identifier"@);
    let full = "dc:"@ + "identifier"@;
    let v = seq![("id"@, "uid"@)];
    lemma_one_attr(v[0]);
    assert(are_attrs(v));
    let c = start_tag(full, v, false);
    assert("<dc:identifier id=\"uid\">"@ =~= c);
    assert("</dc:identifier>\n"@ =~= end_tag(full) + seq!['\n']);
    written_opf::lemma_element(full, v, uid, p);
    written_opf::lemma_attrs(full, v, false);
    assert(attrs_read(v) =~= v);
    assert(opf::spec_attr(c, "id"@) == Some("uid"@));
    let q = Opf { identifiers: p.identifiers.push(("uid"@, text::spec_trim(uid))), ..p };
    tidy::lemma_names_differ();
    reveal_strlit("title");
    assert("title"@ != "identifier"@);
    written_opf::lemma_line_end(element(full, v, uid), p, q);
    assert(volume::line("<dc:identifier id=\"uid\">"@, uid, "</dc:identifier>\n"@) =~= element(
        full,
        v,
        uid,
    ) + seq!['\n']);
}

/// The names of a volume are read back.
proof fn lemma_naming(b: Book, lang: Seq<char>, d: Described, p: Opf)
    requires
        is_safe(lang),
        is_safe(d.uid),
        p.title is None,
        p.language is None,
    ensures
        is_read(
            volume::naming_text(b, lang, d),
            p,
            (Opf {
                title: Some(text::spec_trim(d.label)),
                language: Some(text::spec_trim(lang)),
                authors: p.authors + trimmed(b.authors),
                identifiers: p.identifiers.push(("uid"@, text::spec_trim(d.uid))),
                ..p
            }),
        ),
{
    lemma_field_tags();
    tidy::lemma_names_differ();
    lemma_local_name("title"@);
    lemma_local_name("language"@);
    let x1 = volume::line("<dc:identifier id=\"uid\">"@, d.uid, "</dc:identifier>\n"@);
    let x2 = volume::line("<dc:title>"@, markup::spec_escape_text(d.label), "</dc:title>\n"@);
    let x3 = volume::line("<dc:language>"@, lang, "</dc:language>\n"@);
    let x4 = volume::creators_to(b.authors, b.authors.len() as int);
    let p1 = Opf { identifiers: p.identifiers.push(("uid"@, text::spec_trim(d.uid))), ..p };
    let p2 = Opf { title: Some(text::spec_trim(d.label)), ..p1 };
    let p3 = Opf { language: Some(text::spec_trim(lang)), ..p2 };
    let p4 = Opf { authors: p3.authors + trimmed(b.authors), ..p3 };
    lemma_identifier(d.uid, p);
    lemma_escaped_line("<dc:title>"@, "title"@, d.label, "</dc:title>\n"@, p1);
    lemma_field_line("<dc:language>"@, "language"@, lang, "</dc:language>\n"@, p2);
    lemma_creators(b.authors, b.authors.len() as int, p3);
    assert(b.authors.take(b.authors.len() as int) =~= b.authors);
    written_opf::lemma_join(x1, x2, p, p1, p2);
    written_opf::lemma_join(x1 + x2, x3, p, p2, p3);
    written_opf::lemma_join(x1 + x2 + x3, x4, p, p3, p4);
}

// ---------------------------------------------------------------- dates and series

/// An element of metadata that a reader passes over.
proof fn lemma_meta(v: Seq<(Seq<char>, Seq<char>)>, m: Seq<char>, p: Opf)
    requires
        are_attrs(v),
        !m.contains('<'),
    ensures
        is_read(element("meta"@, v, m) + seq!['\n'], p, p),
{
    let b = text::spec_trim(markup::spec_unescape(m));
    lemma_silent("meta"@, start_tag("meta"@, v, false), b, p);
    written_opf::lemma_element("meta"@, v, m, p);
    written_opf::lemma_line_end(element("meta"@, v, m), p, p);
}

proof fn lemma_modified(now: Seq<char>, p: Opf)
    requires
        is_safe(now),
    ensures
        is_read(volume::line("<meta property=\"dcterms:modified\">"@, now, "</meta>\n"@), p, p),
{
    reveal_strlit("<meta property=\"dcterms:modified\">");
    reveal_strlit("</meta>\n");
    reveal_strlit("meta");
    reveal_strlit("property");
    reveal_strlit("dcterms:modified");
    let v = seq![("property"@, "dcterms:modified"@)];
    lemma_one_attr(v[0]);
    assert(are_attrs(v));
    lemma_meta(v, now, p);
    assert(volume::line("<meta property=\"dcterms:modified\">"@, now, "</meta>\n"@) =~= element(
        "meta"@,
        v,
        now,
    ) + seq!['\n']);
}

proof fn lemma_pow10(k: nat)
    ensures
        volume_number::pow10(k) > 0,
    decreases k,
{
    if k > 0 {
        lemma_pow10((k - 1) as nat);
    }
}

proof fn lemma_decimals(n: nat, width: nat)
    ensures
        forall|k: int|
            0 <= k < volume_number::decimals(n, width).len() ==> '0'
                <= #[trigger] volume_number::decimals(n, width)[k] <= '9',
    decreases width,
{
    if width > 0 && n > 0 {
        let unit = volume_number::pow10((width - 1) as nat);
        creators_read_back::lemma_digits(n / unit);
        lemma_decimals(n % unit, (width - 1) as nat);
        let a = text::decimal(n / unit);
        let d = volume_number::decimals(n, width);
        let e = volume_number::decimals(n % unit, (width - 1) as nat);
        assert(unit > 0) by {
            lemma_pow10((width - 1) as nat);
        }
        assert(d == a + e);
        assert forall|k: int| 0 <= k < d.len() implies '0' <= #[trigger] d[k] <= '9' by {
            if k < a.len() {
                assert(d[k] == a[k]);
            } else {
                assert(d[k] == e[k - a.len()]);
            }
        }
    }
}

proof fn lemma_number(n: Number)
    ensures
        is_safe(volume_number::number_text(n)),
{
    reveal_strlit(".");
    let whole = (n.billionths / volume_number::ONE) as nat;
    let part = (n.billionths % volume_number::ONE) as nat;
    creators_read_back::lemma_digits(whole);
    lemma_decimals(part, 9);
    let s = volume_number::number_text(n);
    let a = text::decimal(whole);
    let e = volume_number::decimals(part, 9);
    assert forall|k: int| 0 <= k < s.len() implies #[trigger] s[k] != '<' && s[k] != '&' && s[k] != '"' by {
        if k < a.len() {
            assert(s[k] == a[k]);
        } else if k > a.len() {
            assert(s[k] == e[k - a.len() - 1]);
        }
    }
}

spec fn refined(what: Seq<char>) -> Seq<(Seq<char>, Seq<char>)> {
    seq![("refines"@, "#series"@), ("property"@, what)]
}

proof fn lemma_refined(what: Seq<char>)
    ensures
        attr_texts(refined(what)) == attr_text("refines"@, "#series"@) + attr_text("property"@, what),
        !what.contains('"') ==> are_attrs(refined(what)),
{
    reveal_strlit("refines");
    reveal_strlit("#series");
    reveal_strlit("property");
    let v = refined(what);
    lemma_one_attr(v[1]);
    assert(v =~= seq![v[0]] + seq![v[1]]);
    lemma_more_attrs(v[0], seq![v[1]]);
}

#[verifier::rlimit(40)]
proof fn lemma_series(series: Option<Seq<char>>, number: Number, p: Opf)
    ensures
        is_read(volume::series_meta(series, number), p, p),
{
    match series {
        None => {
            written_opf::lemma_text(Seq::empty(), p);
        },
        Some(s) => {
            let esc = markup::spec_escape_text(s);
            escaping::escaping_leaves_no_markup(s);
            let num = volume_number::number_text(number);
            lemma_number(number);
            let a = lemma_series_parts(esc, p);
            lemma_position(num, p);
            written_opf::lemma_join(
                volume::line(
                    "<meta property=\"belongs-to-collection\" id=\"series\">"@,
                    esc,
                    "</meta>\n<meta refines=\"#series\" property=\"collection-type\">series</meta>\n"@,
                ),
                volume::line("<meta refines=\"#series\" property=\"group-position\">"@, num, "</meta>\n"@),
                p,
                p,
                p,
            );
        },
    }
}

proof fn lemma_position(num: Seq<char>, p: Opf)
    requires
        is_safe(num),
    ensures
        is_read(
            volume::line("<meta refines=\"#series\" property=\"group-position\">"@, num, "</meta>\n"@),
            p,
            p,
        ),
{
    reveal_strlit("<meta refines=\"#series\" property=\"group-position\">");
    reveal_strlit("</meta>\n");
    reveal_strlit("meta");
    reveal_strlit("refines");
    reveal_strlit("#series");
    reveal_strlit("property");
    reveal_strlit("group-position");
    let v = refined("group-position"@);
    lemma_refined("group-position"@);
    lemma_meta(v, num, p);
    assert("<meta refines=\"#series\" property=\"group-position\">"@ =~= start_tag("meta"@, v, false));
    assert("</meta>\n"@ =~= end_tag("meta"@) + seq!['\n']);
    assert(volume::line("<meta refines=\"#series\" property=\"group-position\">"@, num, "</meta>\n"@)
        =~= element("meta"@, v, num) + seq!['\n']);
}

proof fn lemma_series_parts(esc: Seq<char>, p: Opf)
    requires
        !esc.contains('<'),
    ensures
        is_read(
            volume::line(
                "<meta property=\"belongs-to-collection\" id=\"series\">"@,
                esc,
                "</meta>\n<meta refines=\"#series\" property=\"collection-type\">series</meta>\n"@,
            ),
            p,
            p,
        ),
{
    reveal_strlit("<meta property=\"belongs-to-collection\" id=\"series\">");
    reveal_strlit("</meta>\n<meta refines=\"#series\" property=\"collection-type\">series</meta>\n");
    reveal_strlit("meta");
    reveal_strlit("refines");
    reveal_strlit("#series");
    reveal_strlit("property");
    reveal_strlit("collection-type");
    reveal_strlit("series");
    reveal_strlit("id");
    reveal_strlit("belongs-to-collection");
    let a = seq![("property"@, "belongs-to-collection"@), ("id"@, "series"@)];
    assert(a =~= seq![a[0]] + seq![a[1]]);
    lemma_one_attr(a[1]);
    lemma_more_attrs(a[0], seq![a[1]]);
    assert(are_attrs(a));
    let b = refined("collection-type"@);
    lemma_refined("collection-type"@);
    lemma_meta(a, esc, p);
    lemma_meta(b, "series"@, p);
    assert("<meta property=\"belongs-to-collection\" id=\"series\">"@ =~= start_tag("meta"@, a, false));
    let x = element("meta"@, a, esc) + seq!['\n'];
    let y = element("meta"@, b, "series"@) + seq!['\n'];
    written_opf::lemma_join(x, y, p, p, p);
    let e = end_tag("meta"@) + seq!['\n'];
    assert("</meta>\n<meta refines=\"#series\" property=\"collection-type\">series</meta>\n"@ =~= e + y);
    assert(x + y =~= volume::line(
        "<meta property=\"belongs-to-collection\" id=\"series\">"@,
        esc,
        "</meta>\n<meta refines=\"#series\" property=\"collection-type\">series</meta>\n"@,
    ));
}

/// How the pages are written.
spec fn mode_text(mode: Option<Seq<char>>) -> Seq<char> {
    match mode {
        Some(m) => volume::line(
            "<meta name=\"primary-writing-mode\" content=\""@,
            markup::spec_escape_attr(m),
            "\"/>\n"@,
        ),
        None => Seq::empty(),
    }
}

proof fn lemma_mode(mode: Option<Seq<char>>, p: Opf)
    ensures
        is_read(mode_text(mode), p, p),
{
    match mode {
        None => {
            written_opf::lemma_text(Seq::empty(), p);
        },
        Some(m) => {
            let esc = markup::spec_escape_attr(m);
            escaping::escaping_leaves_no_markup(m);
            reveal_strlit("<meta name=\"primary-writing-mode\" content=\"");
            reveal_strlit("\"/>\n");
            reveal_strlit("meta");
            reveal_strlit("name");
            reveal_strlit("content");
            reveal_strlit("primary-writing-mode");
            let v = seq![("name"@, "primary-writing-mode"@), ("content"@, esc)];
            assert(v =~= seq![v[0]] + seq![v[1]]);
            lemma_one_attr(v[1]);
            lemma_more_attrs(v[0], seq![v[1]]);
            assert(are_attrs(v));
            let c = start_tag("meta"@, v, true);
            lemma_silent("meta"@, c, Seq::empty(), p);
            written_opf::lemma_tag("meta"@, v, true, p);
            written_opf::lemma_line_end(c, p, p);
            assert(mode_text(mode) =~= c + seq!['\n']);
        },
    }
}

proof fn lemma_optional(open: Seq<char>, name: Seq<char>, s: Option<Seq<char>>, close: Seq<char>, p: Opf)
    requires
        name == "publisher"@ || name == "date"@,
        open == seq!['<'] + ("dc:"@ + name) + seq!['>'],
        close == end_tag("dc:"@ + name) + seq!['\n'],
        if name == "publisher"@ {
            p.publisher is None
        } else {
            p.date is None
        },
    ensures
        is_read(
            volume::optional(open, s, close),
            p,
            if name == "publisher"@ {
                (Opf { publisher: trimmed_one(s), ..p })
            } else {
                (Opf { date: trimmed_one(s), ..p })
            },
        ),
{
    lemma_field_tags();
    tidy::lemma_names_differ();
    match s {
        Some(x) => {
            lemma_local_name(name);
            lemma_escaped_line(open, name, x, close, p);
        },
        None => {
            written_opf::lemma_text(Seq::empty(), p);
        },
    }
}

proof fn lemma_dating(b: Book, d: Described, p: Opf)
    requires
        is_safe(d.now),
        p.publisher is None,
        p.date is None,
    ensures
        is_read(
            volume::dating_text(b, d),
            p,
            (Opf { publisher: trimmed_one(b.publisher), date: trimmed_one(b.date), ..p }),
        ),
{
    lemma_field_tags();
    tidy::lemma_names_differ();
    let x1 = volume::optional("<dc:publisher>"@, b.publisher, "</dc:publisher>\n"@);
    let x2 = volume::optional("<dc:date>"@, b.date, "</dc:date>\n"@);
    let x3 = volume::line("<meta property=\"dcterms:modified\">"@, d.now, "</meta>\n"@);
    let x4 = volume::series_meta(d.series, d.number);
    let x5 = mode_text(d.mode);
    let p1 = Opf { publisher: trimmed_one(b.publisher), ..p };
    let p2 = Opf { date: trimmed_one(b.date), ..p1 };
    lemma_optional("<dc:publisher>"@, "publisher"@, b.publisher, "</dc:publisher>\n"@, p);
    lemma_optional("<dc:date>"@, "date"@, b.date, "</dc:date>\n"@, p1);
    lemma_modified(d.now, p2);
    lemma_series(d.series, d.number, p2);
    lemma_mode(d.mode, p2);
    written_opf::lemma_join(x1, x2, p, p1, p2);
    written_opf::lemma_join(x1 + x2, x3, p, p2, p2);
    written_opf::lemma_join(x1 + x2 + x3, x4, p, p2, p2);
    written_opf::lemma_join(x1 + x2 + x3 + x4, x5, p, p2, p2);
}

// ---------------------------------------------------------------- the head

spec fn package_attrs(lang: Seq<char>) -> Seq<(Seq<char>, Seq<char>)> {
    seq![
        ("xmlns"@, "http://www.idpf.org/2007/opf"@),
        ("version"@, "3.0"@),
        ("unique-identifier"@, "uid"@),
        ("xml:lang"@, lang),
    ]
}

spec fn instruction() -> Seq<char> {
    "<?xml version=\"1.0\" encoding=\"utf-8\"?>"@
}

spec fn metadata_tag() -> Seq<char> {
    start_tag("metadata"@, seq![("xmlns:dc"@, "http://purl.org/dc/elements/1.1/"@)], false)
}

proof fn lemma_instruction(p: Opf)
    ensures
        is_read(instruction() + seq!['\n'], p, p),
{
    reveal_strlit("<?xml version=\"1.0\" encoding=\"utf-8\"?>");
    reveal_strlit("<!--");
    reveal_strlit("<![CDATA[");
    reveal_strlit("<?");
    reveal_strlit("?>");
    let c = instruction();
    let n = c.len() as int;
    assert(c.subrange(0, 2) =~= "<?"@);
    if text::is_at(c, "<!--"@, 0) {
        assert(c.subrange(0, 4)[1] == '!');
    }
    if text::is_at(c, "<![CDATA["@, 0) {
        assert(c.subrange(0, 9)[1] == '!');
    }
    assert(c.subrange(n - 2, n) =~= "?>"@);
    assert forall|k: int| 0 <= k < n - 2 implies !text::is_at(c, "?>"@, k) by {
        if text::is_at(c, "?>"@, k) {
            assert(c.subrange(k, k + 2)[0] == c[k]);
            assert(c.subrange(k, k + 2)[1] == c[k + 1]);
        }
    }
    crate::metadata_edit::lemma_find_is(c, "?>"@, 0, n - 2);
    reveal(tidy::is_piece);
    written_opf::lemma_aside(c, p);
    written_opf::lemma_line_end(c, p, p);
}

proof fn lemma_package_attrs(lang: Seq<char>)
    requires
        is_safe(lang),
    ensures
        are_attrs(package_attrs(lang)),
        attr_texts(package_attrs(lang)) == attr_text("xmlns"@, "http://www.idpf.org/2007/opf"@) + (attr_text(
            "version"@,
            "3.0"@,
        ) + (attr_text("unique-identifier"@, "uid"@) + attr_text("xml:lang"@, lang))),
{
    reveal_strlit("xmlns");
    reveal_strlit("http://www.idpf.org/2007/opf");
    reveal_strlit("version");
    reveal_strlit("3.0");
    reveal_strlit("unique-identifier");
    reveal_strlit("uid");
    reveal_strlit("xml:lang");
    let v = package_attrs(lang);
    lemma_one_attr(v[3]);
    lemma_more_attrs(v[2], seq![v[3]]);
    lemma_more_attrs(v[1], seq![v[2]] + seq![v[3]]);
    lemma_more_attrs(v[0], seq![v[1]] + (seq![v[2]] + seq![v[3]]));
    assert(v =~= seq![v[0]] + (seq![v[1]] + (seq![v[2]] + seq![v[3]])));
}

/// The package's tag is read back.
proof fn lemma_package(lang: Seq<char>, p: Opf)
    requires
        is_safe(lang),
        !p.package,
    ensures
        is_read(
            start_tag("package"@, package_attrs(lang), false) + seq!['\n'],
            p,
            (Opf { package: true, version: "3.0"@, uid: Some("uid"@), ..p }),
        ),
{
    let v = package_attrs(lang);
    let c = start_tag("package"@, v, false);
    lemma_package_attrs(lang);
    lemma_tags("package"@);
    written_opf::lemma_tag("package"@, v, false, p);
    written_opf::lemma_attrs("package"@, v, false);
    reveal_strlit("xmlns");
    reveal_strlit("version");
    reveal_strlit("3.0");
    reveal_strlit("unique-identifier");
    reveal_strlit("uid");
    let w = attrs_read(v);
    assert(w.len() == 4);
    assert(w[0].0 == "xmlns"@ && w[1].0 == "version"@ && w[2].0 == "unique-identifier"@);
    assert(w[1].1 == "3.0"@);
    assert(w[2].1 == "uid"@);
    assert("xmlns"@.len() == 5 && "version"@.len() == 7 && "unique-identifier"@.len() == 17);
    reveal_with_fuel(opf::first_named, 4);
    assert(opf::spec_attr(c, "version"@) == Some("3.0"@));
    assert(opf::spec_attr(c, "unique-identifier"@) == Some("uid"@));
    let q = Opf { package: true, version: "3.0"@, uid: Some("uid"@), ..p };
    written_opf::lemma_line_end(c, p, q);
}

proof fn lemma_metadata_tag(p: Opf)
    ensures
        is_read(metadata_tag() + seq!['\n'], p, p),
{
    reveal_strlit("xmlns:dc");
    reveal_strlit("http://purl.org/dc/elements/1.1/");
    let v = seq![("xmlns:dc"@, "http://purl.org/dc/elements/1.1/"@)];
    assert(are_attrs(v));
    lemma_silent("metadata"@, metadata_tag(), Seq::empty(), p);
    written_opf::lemma_tag("metadata"@, v, false, p);
    written_opf::lemma_line_end(metadata_tag(), p, p);
}

spec fn head_open() -> Seq<char> {
    instruction() + seq!['\n'] + (seq!['<'] + "package"@ + (attr_text("xmlns"@, "http://www.idpf.org/2007/opf"@)
        + (attr_text("version"@, "3.0"@) + attr_text("unique-identifier"@, "uid"@)))) + (seq![' ']
        + "xml:lang"@ + seq!['=', '"'])
}

proof fn lemma_head_open()
    ensures
        "<?xml version=\"1.0\" encoding=\"utf-8\"?>\n<package xmlns=\"http://www.idpf.org/2007/opf\" version=\"3.0\" unique-identifier=\"uid\" xml:lang=\""@
            == head_open(),
{
    reveal_strlit("<?xml version=\"1.0\" encoding=\"utf-8\"?>\n<package xmlns=\"http://www.idpf.org/2007/opf\" version=\"3.0\" unique-identifier=\"uid\" xml:lang=\"");
    reveal_strlit("<?xml version=\"1.0\" encoding=\"utf-8\"?>");
    reveal_strlit("package");
    reveal_strlit("xmlns");
    reveal_strlit("http://www.idpf.org/2007/opf");
    reveal_strlit("version");
    reveal_strlit("3.0");
    reveal_strlit("unique-identifier");
    reveal_strlit("uid");
    reveal_strlit("xml:lang");
    assert("<?xml version=\"1.0\" encoding=\"utf-8\"?>\n<package xmlns=\"http://www.idpf.org/2007/opf\" version=\"3.0\" unique-identifier=\"uid\" xml:lang=\""@
        =~= head_open());
}

proof fn lemma_head_close()
    ensures
        "\">\n<metadata xmlns:dc=\"http://purl.org/dc/elements/1.1/\">\n"@ == seq!['"', '>', '\n']
            + metadata_tag() + seq!['\n'],
{
    reveal_strlit("\">\n<metadata xmlns:dc=\"http://purl.org/dc/elements/1.1/\">\n");
    reveal_strlit("metadata");
    reveal_strlit("xmlns:dc");
    reveal_strlit("http://purl.org/dc/elements/1.1/");
    let a = ("xmlns:dc"@, "http://purl.org/dc/elements/1.1/"@);
    lemma_one_attr(a);
    assert("\">\n<metadata xmlns:dc=\"http://purl.org/dc/elements/1.1/\">\n"@ =~= seq!['"', '>', '\n']
        + metadata_tag() + seq!['\n']);
}

spec fn head_text(lang: Seq<char>) -> Seq<char> {
    volume::line(
        "<?xml version=\"1.0\" encoding=\"utf-8\"?>\n<package xmlns=\"http://www.idpf.org/2007/opf\" version=\"3.0\" unique-identifier=\"uid\" xml:lang=\""@,
        lang,
        "\">\n<metadata xmlns:dc=\"http://purl.org/dc/elements/1.1/\">\n"@,
    )
}

/// The head of the package document is read back.
proof fn lemma_head(lang: Seq<char>, p: Opf)
    requires
        is_safe(lang),
        !p.package,
    ensures
        is_read(
            head_text(lang),
            p,
            (Opf { package: true, version: "3.0"@, uid: Some("uid"@), ..p }),
        ),
{
    let q = Opf { package: true, version: "3.0"@, uid: Some("uid"@), ..p };
    let x1 = instruction() + seq!['\n'];
    let x2 = start_tag("package"@, package_attrs(lang), false) + seq!['\n'];
    let x3 = metadata_tag() + seq!['\n'];
    lemma_instruction(p);
    lemma_package(lang, p);
    lemma_metadata_tag(q);
    written_opf::lemma_join(x1, x2, p, p, q);
    written_opf::lemma_join(x1 + x2, x3, p, q, q);
    lemma_head_open();
    lemma_head_close();
    lemma_package_attrs(lang);
    assert(head_text(lang) =~= x1 + x2 + x3);
}

// ---------------------------------------------------------------- the manifest

/// The attributes of an item.
spec fn item_attrs(id: Seq<char>, href: Seq<char>, media: Seq<char>, props: Seq<char>) -> Seq<
    (Seq<char>, Seq<char>),
> {
    if props.len() == 0 {
        seq![("id"@, id), ("href"@, markup::spec_escape_attr(href)), ("media-type"@, media)]
    } else {
        seq![
            ("id"@, id),
            ("href"@, markup::spec_escape_attr(href)),
            ("media-type"@, media),
            ("properties"@, props),
        ]
    }
}

spec fn item_text(id: Seq<char>, href: Seq<char>, media: Seq<char>, props: Seq<char>) -> Seq<char> {
    attr_text("id"@, id) + (attr_text("href"@, markup::spec_escape_attr(href)) + (attr_text(
        "media-type"@,
        media,
    ) + if props.len() == 0 {
        Seq::empty()
    } else {
        attr_text("properties"@, props)
    }))
}

proof fn lemma_item_attrs(id: Seq<char>, href: Seq<char>, media: Seq<char>, props: Seq<char>)
    requires
        is_safe(id),
        is_safe(media),
        is_safe(props),
    ensures
        are_attrs(item_attrs(id, href, media, props)),
        attr_texts(item_attrs(id, href, media, props)) == item_text(id, href, media, props),
{
    reveal_strlit("id");
    reveal_strlit("href");
    reveal_strlit("media-type");
    reveal_strlit("properties");
    escaping::escaping_leaves_no_markup(href);
    let v = item_attrs(id, href, media, props);
    if props.len() == 0 {
        lemma_one_attr(v[2]);
        lemma_more_attrs(v[1], seq![v[2]]);
        lemma_more_attrs(v[0], seq![v[1]] + seq![v[2]]);
        assert(v =~= seq![v[0]] + (seq![v[1]] + seq![v[2]]));
        assert(attr_text("media-type"@, media) + Seq::<char>::empty() =~= attr_text("media-type"@, media));
    } else {
        lemma_one_attr(v[3]);
        lemma_more_attrs(v[2], seq![v[3]]);
        lemma_more_attrs(v[1], seq![v[2]] + seq![v[3]]);
        lemma_more_attrs(v[0], seq![v[1]] + (seq![v[2]] + seq![v[3]]));
        assert(v =~= seq![v[0]] + (seq![v[1]] + (seq![v[2]] + seq![v[3]])));
    }
}

pub open spec fn item(id: Seq<char>, href: Seq<char>, media: Seq<char>, props: Seq<char>) -> OpfItem {
    OpfItem { id, href, media_type: media, properties: props }
}

/// The state with one item more, where its id is new.
spec fn with(p: Opf, x: OpfItem) -> Opf {
    Opf { items: p.items.push(x), ..p }
}

spec fn is_new(items: Seq<OpfItem>, id: Seq<char>) -> bool {
    forall|k: int| 0 <= k < items.len() ==> (#[trigger] items[k]).id != id
}

proof fn lemma_item(id: Seq<char>, href: Seq<char>, media: Seq<char>, props: Seq<char>, p: Opf)
    requires
        is_safe(id),
        is_safe(media),
        is_safe(props),
        is_new(p.items, id),
    ensures
        is_read(
            seq!['<'] + "item"@ + item_text(id, href, media, props) + seq!['/', '>'] + seq!['\n'],
            p,
            with(p, item(id, href, media, props)),
        ),
{
    reveal_strlit("id");
    reveal_strlit("href");
    reveal_strlit("media-type");
    reveal_strlit("properties");
    let v = item_attrs(id, href, media, props);
    let c = start_tag("item"@, v, true);
    lemma_item_attrs(id, href, media, props);
    escaping::unescaping_undoes_escaping(href);
    lemma_tags("item"@);
    tidy::lemma_names_differ();
    written_opf::lemma_tag("item"@, v, true, p);
    written_opf::lemma_attrs("item"@, v, true);
    let w = attrs_read(v);
    assert(w.len() == v.len());
    assert(w[0] == ("id"@, id));
    assert(w[1] == ("href"@, href));
    assert(w[2] == ("media-type"@, media));
    assert("id"@.len() == 2 && "href"@.len() == 4);
    assert("media-type"@.len() == 10 && "properties"@.len() == 10);
    assert("media-type"@[0] == 'm' && "properties"@[0] == 'p');
    if props.len() > 0 {
        assert(w[3] == ("properties"@, props));
    }
    reveal_with_fuel(opf::first_named, 6);
    assert(opf::spec_attr(c, "id"@) == Some(id));
    assert(opf::spec_attr(c, "href"@) == Some(href));
    assert(opf::spec_attr(c, "media-type"@) == Some(media));
    assert(opf::or_empty(opf::spec_attr(c, "properties"@)) =~= props);
    let x = item(id, href, media, props);
    crate::manifest_read::lemma_new_id(p.items, x, 0);
    written_opf::lemma_line_end(c, p, with(p, x));
}

proof fn lemma_types(abs: Seq<char>)
    ensures
        is_safe(volume::type_of(abs)),
        is_safe("application/xhtml+xml"@),
        is_safe("application/x-dtbncx+xml"@),
{
    reveal_strlit("image/jpeg");
    reveal_strlit("image/png");
    reveal_strlit("image/gif");
    reveal_strlit("image/webp");
    reveal_strlit("image/bmp");
    reveal_strlit("audio/mpeg");
    reveal_strlit("audio/mp4");
    reveal_strlit("video/mp4");
    reveal_strlit("application/octet-stream");
    reveal_strlit("text/css");
    reveal_strlit("application/xhtml+xml");
    reveal_strlit("application/x-dtbncx+xml");
    reveal_strlit("text/javascript");
    reveal_strlit("image/svg+xml");
    reveal_strlit("font/otf");
    reveal_strlit("font/ttf");
    reveal_strlit("font/woff");
    reveal_strlit("font/woff2");
}

/// The id of the `n`-th item of a kind.
pub open spec fn numbered(kind: Seq<char>, n: int) -> Seq<char> {
    kind + text::decimal(n as nat)
}

proof fn lemma_numbered(kind: Seq<char>, n: int)
    requires
        kind == "d"@ || kind == "r"@,
        0 <= n,
    ensures
        is_safe(numbered(kind, n)),
        numbered(kind, n).len() > 1,
        numbered(kind, n)[0] == kind[0],
        kind.len() == 1,
        kind[0] != 'n',
{
    reveal_strlit("d");
    reveal_strlit("r");
    creators_read_back::lemma_digits(n as nat);
    let s = numbered(kind, n);
    let d = text::decimal(n as nat);
    assert(d.len() > 0);
    assert forall|k: int| 0 <= k < s.len() implies #[trigger] s[k] != '<' && s[k] != '&' && s[k] != '"' by {
        if k >= 1 {
            assert(s[k] == d[k - 1]);
        }
    }
}

proof fn lemma_numbered_item(
    kind: Seq<char>,
    n: int,
    base: Seq<char>,
    abs: Seq<char>,
    media: Seq<char>,
    cover: bool,
    p: Opf,
)
    requires
        kind == "d"@ || kind == "r"@,
        0 <= n,
        is_safe(media),
        is_new(p.items, numbered(kind, n)),
    ensures
        is_read(
            volume::numbered_item(
                kind,
                n,
                base,
                abs,
                media,
                if cover {
                    " properties=\"cover-image\""@
                } else {
                    Seq::empty()
                },
            ),
            p,
            with(
                p,
                item(
                    numbered(kind, n),
                    structure::spec_relativize(base, abs),
                    media,
                    if cover {
                        "cover-image"@
                    } else {
                        Seq::empty()
                    },
                ),
            ),
        ),
{
    reveal_strlit("<item id=\"");
    reveal_strlit("\" href=\"");
    reveal_strlit("\" media-type=\"");
    reveal_strlit("\"");
    reveal_strlit("/>\n");
    reveal_strlit(" properties=\"cover-image\"");
    reveal_strlit("cover-image");
    reveal_strlit("item");
    reveal_strlit("id");
    reveal_strlit("href");
    reveal_strlit("media-type");
    reveal_strlit("properties");
    let id = numbered(kind, n);
    let href = structure::spec_relativize(base, abs);
    let none = Seq::<char>::empty();
    let props = if cover {
        "cover-image"@
    } else {
        none
    };
    let written = if cover {
        " properties=\"cover-image\""@
    } else {
        none
    };
    lemma_numbered(kind, n);
    lemma_item(id, href, media, props, p);
    if cover {
        assert(written =~= attr_text("properties"@, "cover-image"@));
    }
    assert(volume::numbered_item(kind, n, base, abs, media, written) =~= seq!['<'] + "item"@ + item_text(
        id,
        href,
        media,
        props,
    ) + seq!['/', '>'] + seq!['\n']);
}

/// The items for the documents.
pub open spec fn document_list(base: Seq<char>, docs: Seq<Seq<char>>) -> Seq<OpfItem> {
    Seq::new(
        docs.len(),
        |i: int|
            item(
                numbered("d"@, i),
                structure::spec_relativize(base, docs[i]),
                "application/xhtml+xml"@,
                Seq::empty(),
            ),
    )
}

/// The items for the resources.
pub open spec fn resource_list(
    base: Seq<char>,
    resources: Seq<Seq<char>>,
    cover: Option<Seq<char>>,
) -> Seq<OpfItem> {
    Seq::new(
        resources.len(),
        |i: int|
            item(
                numbered("r"@, i),
                structure::spec_relativize(base, resources[i]),
                volume::type_of(resources[i]),
                if cover == Some(resources[i]) {
                    "cover-image"@
                } else {
                    Seq::empty()
                },
            ),
    )
}

/// No item before has an id of that kind.
spec fn lacks_kind(items: Seq<OpfItem>, c: char) -> bool {
    forall|k: int| 0 <= k < items.len() ==> (#[trigger] items[k]).id.len() > 0 && items[k].id[0] != c
}

proof fn lemma_new_number(items: Seq<OpfItem>, list: Seq<OpfItem>, kind: Seq<char>, n: int)
    requires
        kind == "d"@ || kind == "r"@,
        0 <= n <= list.len(),
        lacks_kind(items, kind[0]),
        forall|k: int| 0 <= k < list.len() ==> (#[trigger] list[k]).id == numbered(kind, k),
    ensures
        is_new(items + list.take(n), numbered(kind, n)),
{
    lemma_numbered(kind, n);
    let all = items + list.take(n);
    assert forall|k: int| 0 <= k < all.len() implies (#[trigger] all[k]).id != numbered(kind, n) by {
        if k < items.len() {
            assert(all[k] == items[k]);
        } else {
            let j = k - items.len();
            assert(all[k] == list[j]);
            if numbered(kind, j) == numbered(kind, n) {
                let a = text::decimal(j as nat);
                let b = text::decimal(n as nat);
                assert(numbered(kind, j).subrange(1, numbered(kind, j).len() as int) =~= a);
                assert(numbered(kind, n).subrange(1, numbered(kind, n).len() as int) =~= b);
                fresh::decimals_tell_numbers_apart(j as nat, n as nat);
            }
        }
    }
}

proof fn lemma_documents(base: Seq<char>, docs: Seq<Seq<char>>, n: int, p: Opf)
    requires
        0 <= n <= docs.len(),
        lacks_kind(p.items, 'd'),
    ensures
        is_read(
            volume::document_items(base, docs, n),
            p,
            (Opf { items: p.items + document_list(base, docs).take(n), ..p }),
        ),
    decreases n,
{
    let list = document_list(base, docs);
    if n == 0 {
        written_opf::lemma_text(Seq::empty(), p);
        assert(p.items + list.take(0) =~= p.items);
    } else {
        lemma_documents(base, docs, n - 1, p);
        let q = Opf { items: p.items + list.take(n - 1), ..p };
        let r = Opf { items: p.items + list.take(n), ..p };
        reveal_strlit("d");
        lemma_new_number(p.items, list, "d"@, n - 1);
        lemma_types(docs[n - 1]);
        lemma_numbered_item("d"@, n - 1, base, docs[n - 1], "application/xhtml+xml"@, false, q);
        assert(r.items =~= q.items.push(list[n - 1]));
        assert(r == with(q, list[n - 1]));
        written_opf::lemma_join(
            volume::document_items(base, docs, n - 1),
            volume::numbered_item("d"@, n - 1, base, docs[n - 1], "application/xhtml+xml"@, Seq::empty()),
            p,
            q,
            r,
        );
    }
}

proof fn lemma_resources(
    base: Seq<char>,
    resources: Seq<Seq<char>>,
    cover: Option<Seq<char>>,
    n: int,
    p: Opf,
)
    requires
        0 <= n <= resources.len(),
        lacks_kind(p.items, 'r'),
    ensures
        is_read(
            volume::resource_items(base, resources, cover, n),
            p,
            (Opf { items: p.items + resource_list(base, resources, cover).take(n), ..p }),
        ),
    decreases n,
{
    let list = resource_list(base, resources, cover);
    if n == 0 {
        written_opf::lemma_text(Seq::empty(), p);
        assert(p.items + list.take(0) =~= p.items);
    } else {
        lemma_resources(base, resources, cover, n - 1, p);
        let q = Opf { items: p.items + list.take(n - 1), ..p };
        let r = Opf { items: p.items + list.take(n), ..p };
        reveal_strlit("r");
        lemma_new_number(p.items, list, "r"@, n - 1);
        let abs = resources[n - 1];
        lemma_types(abs);
        let is_cover = cover == Some(abs);
        lemma_numbered_item("r"@, n - 1, base, abs, volume::type_of(abs), is_cover, q);
        assert(r.items =~= q.items.push(list[n - 1]));
        assert(r == with(q, list[n - 1]));
        written_opf::lemma_join(
            volume::resource_items(base, resources, cover, n - 1),
            volume::numbered_item(
                "r"@,
                n - 1,
                base,
                abs,
                volume::type_of(abs),
                if is_cover {
                    " properties=\"cover-image\""@
                } else {
                    Seq::empty()
                },
            ),
            p,
            q,
            r,
        );
    }
}

spec fn nav_text(href: Seq<char>) -> Seq<char> {
    volume::line(
        "<item id=\"nav\" href=\""@,
        markup::spec_escape_attr(href),
        "\" media-type=\"application/xhtml+xml\" properties=\"nav\"/>\n"@,
    )
}

spec fn ncx_text(href: Seq<char>) -> Seq<char> {
    volume::line(
        "<item id=\"ncx\" href=\""@,
        markup::spec_escape_attr(href),
        "\" media-type=\"application/x-dtbncx+xml\"/>\n"@,
    )
}

pub open spec fn nav_item(href: Seq<char>) -> OpfItem {
    item("nav"@, href, "application/xhtml+xml"@, "nav"@)
}

pub open spec fn ncx_item(href: Seq<char>) -> OpfItem {
    item("ncx"@, href, "application/x-dtbncx+xml"@, Seq::empty())
}

proof fn lemma_nav(href: Seq<char>, p: Opf)
    requires
        p.items.len() == 0,
    ensures
        is_read(nav_text(href), p, with(p, nav_item(href))),
{
    reveal_strlit("<item id=\"nav\" href=\"");
    reveal_strlit("\" media-type=\"application/xhtml+xml\" properties=\"nav\"/>\n");
    reveal_strlit("nav");
    reveal_strlit("application/xhtml+xml");
    reveal_strlit("item");
    reveal_strlit("id");
    reveal_strlit("href");
    reveal_strlit("media-type");
    reveal_strlit("properties");
    lemma_item("nav"@, href, "application/xhtml+xml"@, "nav"@, p);
    assert(nav_text(href) =~= seq!['<'] + "item"@ + item_text(
        "nav"@,
        href,
        "application/xhtml+xml"@,
        "nav"@,
    ) + seq!['/', '>'] + seq!['\n']);
}

proof fn lemma_ncx(href: Seq<char>, p: Opf)
    requires
        is_new(p.items, "ncx"@),
    ensures
        is_read(ncx_text(href), p, with(p, ncx_item(href))),
{
    reveal_strlit("<item id=\"ncx\" href=\"");
    reveal_strlit("\" media-type=\"application/x-dtbncx+xml\"/>\n");
    reveal_strlit("ncx");
    reveal_strlit("application/x-dtbncx+xml");
    reveal_strlit("item");
    reveal_strlit("id");
    reveal_strlit("href");
    reveal_strlit("media-type");
    lemma_item("ncx"@, href, "application/x-dtbncx+xml"@, Seq::empty(), p);
    assert(ncx_text(href) =~= seq!['<'] + "item"@ + item_text(
        "ncx"@,
        href,
        "application/x-dtbncx+xml"@,
        Seq::empty(),
    ) + seq!['/', '>'] + seq!['\n']);
}

/// The items of a volume: its navigation document, its NCX, its documents, its
/// resources.
pub open spec fn volume_items(
    base: Seq<char>,
    nav: Seq<char>,
    ncx: Seq<char>,
    docs: Seq<Seq<char>>,
    resources: Seq<Seq<char>>,
    cover: Option<Seq<char>>,
) -> Seq<OpfItem> {
    seq![
        nav_item(structure::spec_relativize(base, nav)),
        ncx_item(structure::spec_relativize(base, ncx)),
    ] + document_list(base, docs) + resource_list(base, resources, cover)
}

proof fn lemma_manifest(
    base: Seq<char>,
    nav: Seq<char>,
    ncx: Seq<char>,
    docs: Seq<Seq<char>>,
    resources: Seq<Seq<char>>,
    cover: Option<Seq<char>>,
    p: Opf,
)
    requires
        p.items.len() == 0,
    ensures
        is_read(
            volume::manifest_text(base, nav, ncx, docs, resources, cover),
            p,
            (Opf { items: volume_items(base, nav, ncx, docs, resources, cover), ..p }),
        ),
{
    reveal_strlit("nav");
    reveal_strlit("ncx");
    reveal_strlit("d");
    let a = structure::spec_relativize(base, nav);
    let b = structure::spec_relativize(base, ncx);
    let dl = document_list(base, docs);
    let rl = resource_list(base, resources, cover);
    let p1 = with(p, nav_item(a));
    let p2 = with(p1, ncx_item(b));
    let p3 = Opf { items: p2.items + dl, ..p2 };
    let p4 = Opf { items: p3.items + rl, ..p3 };
    lemma_nav(a, p);
    assert("nav"@[1] != "ncx"@[1]);
    lemma_ncx(b, p1);
    assert(dl.take(docs.len() as int) =~= dl);
    assert(rl.take(resources.len() as int) =~= rl);
    lemma_documents(base, docs, docs.len() as int, p2);
    assert(lacks_kind(p3.items, 'r')) by {
        assert forall|k: int| 0 <= k < p3.items.len() implies (#[trigger] p3.items[k]).id.len() > 0
            && p3.items[k].id[0] != 'r' by {
            if k < p2.items.len() {
                assert(p3.items[k] == p2.items[k]);
            } else {
                let j = k - p2.items.len();
                assert(p3.items[k] == dl[j]);
                lemma_numbered("d"@, j);
            }
        }
    }
    lemma_resources(base, resources, cover, resources.len() as int, p3);
    let x1 = nav_text(a);
    let x2 = ncx_text(b);
    let x3 = volume::document_items(base, docs, docs.len() as int);
    let x4 = volume::resource_items(base, resources, cover, resources.len() as int);
    written_opf::lemma_join(x1, x2, p, p1, p2);
    written_opf::lemma_join(x1 + x2, x3, p, p2, p3);
    written_opf::lemma_join(x1 + x2 + x3, x4, p, p3, p4);
    assert(p4.items =~= volume_items(base, nav, ncx, docs, resources, cover));
}

// ---------------------------------------------------------------- the spine

/// The ids that the spine of `n` documents refers to.
pub open spec fn spine_ids(n: int) -> Seq<Seq<char>> {
    Seq::new(n as nat, |i: int| numbered("d"@, i))
}

proof fn lemma_itemrefs(n: int, p: Opf)
    requires
        0 <= n,
    ensures
        is_read(volume::itemrefs(n), p, (Opf { spine: p.spine + spine_ids(n), ..p })),
    decreases n,
{
    if n == 0 {
        written_opf::lemma_text(Seq::empty(), p);
        assert(p.spine + spine_ids(0) =~= p.spine);
    } else {
        lemma_itemrefs(n - 1, p);
        let q = Opf { spine: p.spine + spine_ids(n - 1), ..p };
        let r = Opf { spine: p.spine + spine_ids(n), ..p };
        reveal_strlit("<itemref idref=\"d");
        reveal_strlit("\"/>\n");
        reveal_strlit("itemref");
        reveal_strlit("idref");
        reveal_strlit("d");
        let id = numbered("d"@, n - 1);
        lemma_numbered("d"@, n - 1);
        let v = seq![("idref"@, id)];
        lemma_one_attr(v[0]);
        assert(are_attrs(v));
        let c = start_tag("itemref"@, v, true);
        lemma_tags("itemref"@);
        tidy::lemma_names_differ();
        written_opf::lemma_tag("itemref"@, v, true, q);
        written_opf::lemma_attrs("itemref"@, v, true);
        assert(attrs_read(v)[0] == ("idref"@, id));
        assert(opf::spec_attr(c, "idref"@) == Some(id));
        assert(r.spine =~= q.spine.push(id));
        written_opf::lemma_line_end(c, q, r);
        let x = volume::line("<itemref idref=\"d"@, text::decimal((n - 1) as nat), "\"/>\n"@);
        assert(x =~= c + seq!['\n']);
        written_opf::lemma_join(volume::itemrefs(n - 1), x, p, q, r);
    }
}

spec fn spine_attrs(ppd: Option<Seq<char>>) -> Seq<(Seq<char>, Seq<char>)> {
    match ppd {
        Some(x) => seq![
            ("toc"@, "ncx"@),
            ("page-progression-direction"@, markup::spec_escape_attr(x)),
        ],
        None => seq![("toc"@, "ncx"@)],
    }
}

spec fn direction_text(ppd: Option<Seq<char>>) -> Seq<char> {
    match ppd {
        Some(x) => volume::line(
            " page-progression-direction=\""@,
            markup::spec_escape_attr(x),
            "\""@,
        ),
        None => Seq::empty(),
    }
}

proof fn lemma_spine_tag(ppd: Option<Seq<char>>, p: Opf)
    ensures
        is_read(
            start_tag("spine"@, spine_attrs(ppd), false) + seq!['\n'],
            p,
            (Opf { toc: Some("ncx"@), ..p }),
        ),
        attr_texts(spine_attrs(ppd)) == attr_text("toc"@, "ncx"@) + direction_text(ppd),
{
    reveal_strlit("toc");
    reveal_strlit("ncx");
    reveal_strlit("page-progression-direction");
    reveal_strlit(" page-progression-direction=\"");
    reveal_strlit("\"");
    let v = spine_attrs(ppd);
    let c = start_tag("spine"@, v, false);
    match ppd {
        Some(x) => {
            escaping::escaping_leaves_no_markup(x);
            lemma_one_attr(v[1]);
            lemma_more_attrs(v[0], seq![v[1]]);
            assert(v =~= seq![v[0]] + seq![v[1]]);
            assert(direction_text(ppd) =~= attr_text(v[1].0, v[1].1));
        },
        None => {
            lemma_one_attr(v[0]);
            assert(attr_text("toc"@, "ncx"@) + direction_text(ppd) =~= attr_text("toc"@, "ncx"@));
        },
    }
    assert(are_attrs(v));
    lemma_tags("spine"@);
    tidy::lemma_names_differ();
    written_opf::lemma_tag("spine"@, v, false, p);
    written_opf::lemma_attrs("spine"@, v, false);
    assert(attrs_read(v)[0] == ("toc"@, "ncx"@));
    assert(opf::spec_attr(c, "toc"@) == Some("ncx"@));
    written_opf::lemma_line_end(c, p, Opf { toc: Some("ncx"@), ..p });
}

// ---------------------------------------------------------------- the whole document

proof fn lemma_between(p: Opf)
    ensures
        is_read("</metadata>\n<manifest>\n"@, p, p),
{
    reveal_strlit("</metadata>\n<manifest>\n");
    reveal_strlit("metadata");
    reveal_strlit("manifest");
    let none = Seq::<(Seq<char>, Seq<char>)>::empty();
    lemma_no_attrs();
    let c = start_tag("manifest"@, none, false);
    lemma_silent("metadata"@, c, Seq::empty(), p);
    lemma_silent("manifest"@, c, Seq::empty(), p);
    written_opf::lemma_end_read("metadata"@, p);
    written_opf::lemma_line_end(end_tag("metadata"@), p, p);
    written_opf::lemma_tag("manifest"@, none, false, p);
    written_opf::lemma_line_end(c, p, p);
    let x = end_tag("metadata"@) + seq!['\n'];
    let y = c + seq!['\n'];
    written_opf::lemma_join(x, y, p, p, p);
    assert("</metadata>\n<manifest>\n"@ =~= x + y);
}

proof fn lemma_spine_open(ppd: Option<Seq<char>>, p: Opf)
    ensures
        is_read(
            "</manifest>\n<spine toc=\"ncx\""@ + direction_text(ppd) + ">\n"@,
            p,
            (Opf { toc: Some("ncx"@), ..p }),
        ),
{
    reveal_strlit("</manifest>\n<spine toc=\"ncx\"");
    reveal_strlit(">\n");
    reveal_strlit("manifest");
    reveal_strlit("spine");
    reveal_strlit("toc");
    reveal_strlit("ncx");
    lemma_silent("manifest"@, Seq::empty(), Seq::empty(), p);
    written_opf::lemma_end_read("manifest"@, p);
    written_opf::lemma_line_end(end_tag("manifest"@), p, p);
    lemma_spine_tag(ppd, p);
    let x = end_tag("manifest"@) + seq!['\n'];
    let y = start_tag("spine"@, spine_attrs(ppd), false) + seq!['\n'];
    written_opf::lemma_join(x, y, p, p, Opf { toc: Some("ncx"@), ..p });
    assert("</manifest>\n<spine toc=\"ncx\""@ =~= x + (seq!['<'] + "spine"@ + attr_text("toc"@, "ncx"@)));
    assert("</manifest>\n<spine toc=\"ncx\""@ + direction_text(ppd) + ">\n"@ =~= x + y);
}

proof fn lemma_end(p: Opf)
    ensures
        is_read("</spine>\n</package>\n"@, p, p),
{
    reveal_strlit("</spine>\n</package>\n");
    reveal_strlit("spine");
    reveal_strlit("package");
    lemma_tags("spine"@);
    lemma_tags("package"@);
    written_opf::lemma_end_read("spine"@, p);
    written_opf::lemma_end_read("package"@, p);
    written_opf::lemma_line_end(end_tag("spine"@), p, p);
    written_opf::lemma_line_end(end_tag("package"@), p, p);
    let x = end_tag("spine"@) + seq!['\n'];
    let y = end_tag("package"@) + seq!['\n'];
    written_opf::lemma_join(x, y, p, p, p);
    assert("</spine>\n</package>\n"@ =~= x + y);
}

/// What is told of a volume can stand in its package document: its language, its
/// identifier and the time are written as they are.
pub open spec fn is_writable(lang: Seq<char>, d: Described) -> bool {
    is_safe(lang) && is_safe(d.uid) && is_safe(d.now)
}

/// What is read of a volume's package document.
spec fn volume_read(
    b: Book,
    base: Seq<char>,
    lang: Seq<char>,
    d: Described,
    docs: Seq<Seq<char>>,
    resources: Seq<Seq<char>>,
    nav: Seq<char>,
    ncx: Seq<char>,
    cover: Option<Seq<char>>,
) -> Opf {
    Opf {
        package: true,
        version: "3.0"@,
        uid: Some("uid"@),
        items: volume_items(base, nav, ncx, docs, resources, cover),
        spine: spine_ids(docs.len() as int),
        toc: Some("ncx"@),
        title: Some(text::spec_trim(d.label)),
        language: Some(text::spec_trim(lang)),
        authors: trimmed(b.authors),
        publisher: trimmed_one(b.publisher),
        date: trimmed_one(b.date),
        identifiers: seq![("uid"@, text::spec_trim(d.uid))],
    }
}

spec fn described_state(b: Book, lang: Seq<char>, d: Described) -> Opf {
    Opf {
        package: true,
        version: "3.0"@,
        uid: Some("uid"@),
        title: Some(text::spec_trim(d.label)),
        language: Some(text::spec_trim(lang)),
        authors: trimmed(b.authors),
        publisher: trimmed_one(b.publisher),
        date: trimmed_one(b.date),
        identifiers: seq![("uid"@, text::spec_trim(d.uid))],
        ..tidy::unread()
    }
}

proof fn lemma_front(b: Book, lang: Seq<char>, d: Described)
    requires
        is_writable(lang, d),
    ensures
        is_read(
            head_text(lang) + volume::metadata_text(b, lang, d),
            tidy::unread(),
            described_state(b, lang, d),
        ),
{
    let p0 = tidy::unread();
    let p1 = Opf { package: true, version: "3.0"@, uid: Some("uid"@), ..p0 };
    let p2 = Opf {
        title: Some(text::spec_trim(d.label)),
        language: Some(text::spec_trim(lang)),
        authors: p1.authors + trimmed(b.authors),
        identifiers: p1.identifiers.push(("uid"@, text::spec_trim(d.uid))),
        ..p1
    };
    let p3 = Opf { publisher: trimmed_one(b.publisher), date: trimmed_one(b.date), ..p2 };
    lemma_head(lang, p0);
    lemma_naming(b, lang, d, p1);
    lemma_dating(b, d, p2);
    let x1 = head_text(lang);
    let x2 = volume::naming_text(b, lang, d);
    let x3 = volume::dating_text(b, d);
    written_opf::lemma_join(x2, x3, p1, p2, p3);
    written_opf::lemma_join(x1, x2 + x3, p0, p1, p3);
    assert(p0.authors + trimmed(b.authors) =~= trimmed(b.authors));
    assert(p0.identifiers.push(("uid"@, text::spec_trim(d.uid))) =~= seq![
        ("uid"@, text::spec_trim(d.uid)),
    ]);
    assert(p3 =~= described_state(b, lang, d));
}

/// The package document behind its metadata.
spec fn back_text(
    base: Seq<char>,
    ppd: Option<Seq<char>>,
    docs: Seq<Seq<char>>,
    resources: Seq<Seq<char>>,
    nav: Seq<char>,
    ncx: Seq<char>,
    cover: Option<Seq<char>>,
) -> Seq<char> {
    "</metadata>\n<manifest>\n"@ + volume::manifest_text(base, nav, ncx, docs, resources, cover) + (
    "</manifest>\n<spine toc=\"ncx\""@ + direction_text(ppd) + ">\n"@) + volume::itemrefs(
        docs.len() as int,
    ) + "</spine>\n</package>\n"@
}

proof fn lemma_back(
    base: Seq<char>,
    ppd: Option<Seq<char>>,
    docs: Seq<Seq<char>>,
    resources: Seq<Seq<char>>,
    nav: Seq<char>,
    ncx: Seq<char>,
    cover: Option<Seq<char>>,
    p: Opf,
)
    requires
        p.items.len() == 0,
        p.spine.len() == 0,
    ensures
        is_read(
            back_text(base, ppd, docs, resources, nav, ncx, cover),
            p,
            (Opf {
                items: volume_items(base, nav, ncx, docs, resources, cover),
                toc: Some("ncx"@),
                spine: spine_ids(docs.len() as int),
                ..p
            }),
        ),
{
    let p4 = Opf { items: volume_items(base, nav, ncx, docs, resources, cover), ..p };
    let p5 = Opf { toc: Some("ncx"@), ..p4 };
    let n = docs.len() as int;
    let p6 = Opf { spine: p5.spine + spine_ids(n), ..p5 };
    lemma_between(p);
    lemma_manifest(base, nav, ncx, docs, resources, cover, p);
    lemma_spine_open(ppd, p4);
    lemma_itemrefs(n, p5);
    lemma_end(p6);
    let x4 = "</metadata>\n<manifest>\n"@;
    let x5 = volume::manifest_text(base, nav, ncx, docs, resources, cover);
    let x6 = "</manifest>\n<spine toc=\"ncx\""@ + direction_text(ppd) + ">\n"@;
    let x7 = volume::itemrefs(n);
    let x8 = "</spine>\n</package>\n"@;
    written_opf::lemma_join(x4, x5, p, p, p4);
    written_opf::lemma_join(x4 + x5, x6, p, p4, p5);
    written_opf::lemma_join(x4 + x5 + x6, x7, p, p5, p6);
    written_opf::lemma_join(x4 + x5 + x6 + x7, x8, p, p6, p6);
    assert(p5.spine + spine_ids(n) =~= spine_ids(n));
}

proof fn lemma_volume(
    b: Book,
    base: Seq<char>,
    lang: Seq<char>,
    d: Described,
    docs: Seq<Seq<char>>,
    resources: Seq<Seq<char>>,
    nav: Seq<char>,
    ncx: Seq<char>,
    cover: Option<Seq<char>>,
)
    requires
        is_writable(lang, d),
    ensures
        opf::opf_of(volume::opf_text(b, base, lang, d, docs, resources, nav, ncx, cover)) == volume_read(
            b,
            base,
            lang,
            d,
            docs,
            resources,
            nav,
            ncx,
            cover,
        ),
{
    let p0 = tidy::unread();
    let p3 = described_state(b, lang, d);
    let r = volume_read(b, base, lang, d, docs, resources, nav, ncx, cover);
    let x = head_text(lang) + volume::metadata_text(b, lang, d);
    let y = back_text(base, d.ppd, docs, resources, nav, ncx, cover);
    lemma_front(b, lang, d);
    lemma_back(base, d.ppd, docs, resources, nav, ncx, cover, p3);
    written_opf::lemma_join(x, y, p0, p3, r);
    lemma_volume_text(b, base, lang, d, docs, resources, nav, ncx, cover);
    tidy::lemma_opf(x + y);
}

proof fn lemma_volume_text(
    b: Book,
    base: Seq<char>,
    lang: Seq<char>,
    d: Described,
    docs: Seq<Seq<char>>,
    resources: Seq<Seq<char>>,
    nav: Seq<char>,
    ncx: Seq<char>,
    cover: Option<Seq<char>>,
)
    ensures
        volume::opf_text(b, base, lang, d, docs, resources, nav, ncx, cover) == head_text(lang)
            + volume::metadata_text(b, lang, d) + back_text(base, d.ppd, docs, resources, nav, ncx, cover),
{
    lemma_regroup(
        head_text(lang) + volume::metadata_text(b, lang, d),
        "</metadata>\n<manifest>\n"@,
        volume::manifest_text(base, nav, ncx, docs, resources, cover),
        "</manifest>\n<spine toc=\"ncx\""@,
        direction_text(d.ppd),
        ">\n"@,
        volume::itemrefs(docs.len() as int),
        "</spine>\n</package>\n"@,
    );
}

proof fn lemma_regroup(
    a: Seq<char>,
    b: Seq<char>,
    c: Seq<char>,
    d: Seq<char>,
    e: Seq<char>,
    f: Seq<char>,
    g: Seq<char>,
    h: Seq<char>,
)
    ensures
        a + b + c + d + e + f + g + h == a + (b + c + (d + e + f) + g + h),
{
    let x = d + e + f;
    assert(a + b + c + d + e + f =~= a + b + c + x);
    assert(a + b + c + x + g + h =~= a + (b + c + x + g + h));
}

/// The package document of a volume reads as the collection's authors, language,
/// publisher and date, with the label of the cut as its title and its own identifier.
/// Its manifest lists its navigation document, its NCX, its documents and its resources,
/// each once, and its spine the documents, in order.
pub proof fn a_volume_describes_itself(
    b: Book,
    base: Seq<char>,
    lang: Seq<char>,
    d: Described,
    docs: Seq<Seq<char>>,
    resources: Seq<Seq<char>>,
    nav: Seq<char>,
    ncx: Seq<char>,
    cover: Option<Seq<char>>,
)
    requires
        is_writable(lang, d),
    ensures
        opf::spec_parse_opf(
            volume::opf_text(b, base, lang, d, docs, resources, nav, ncx, cover),
        ) matches Ok(k) && {
            &&& k.version == "3.0"@
            &&& k.title == text::spec_trim(d.label)
            &&& k.language == text::spec_trim(lang)
            &&& k.authors == trimmed(b.authors)
            &&& k.publisher == trimmed_one(b.publisher)
            &&& k.date == trimmed_one(b.date)
            &&& k.identifier == text::spec_trim(d.uid)
            &&& k.items == volume_items(base, nav, ncx, docs, resources, cover)
            &&& k.spine == spine_ids(docs.len() as int)
            &&& k.nav_href == Some(structure::spec_relativize(base, nav))
            &&& k.ncx_href == Some(structure::spec_relativize(base, ncx))
        },
{
    lemma_volume(b, base, lang, d, docs, resources, nav, ncx, cover);
    let o = volume_read(b, base, lang, d, docs, resources, nav, ncx, cover);
    lemma_parsed(volume::opf_text(b, base, lang, d, docs, resources, nav, ncx, cover), o);
    lemma_named(o, structure::spec_relativize(base, nav), structure::spec_relativize(base, ncx));
    assert(o.items[0] == nav_item(structure::spec_relativize(base, nav)));
    assert(o.items[1] == ncx_item(structure::spec_relativize(base, ncx)));
    lemma_own(o, text::spec_trim(d.uid));
}

proof fn lemma_parsed(t: Seq<char>, o: Opf)
    requires
        opf::opf_of(t) == o,
        o.package,
    ensures
        opf::spec_parse_opf(t) == Ok::<Book, Fault>(o.book()),
{
}

/// The navigation document and the NCX are found by their items.
proof fn lemma_named(o: Opf, nav: Seq<char>, ncx: Seq<char>)
    ensures
        o.items.len() >= 2 && o.items[0] == nav_item(nav) && o.items[1] == ncx_item(ncx) && o.toc == Some(
            "ncx"@,
        ) ==> o.nav_href() == Some(nav) && o.ncx_href() == Some(ncx),
{
    reveal_strlit("nav");
    reveal_strlit("ncx");
    crate::residuals_read::lemma_one_word("nav"@);
    assert(text::spec_words("nav"@)[0] == "nav"@);
    assert(text::spec_words("nav"@).contains("nav"@));
    reveal_with_fuel(opf::item_named, 3);
    assert("nav"@[1] != "ncx"@[1]);
}

/// The identifier is found by its id.
proof fn lemma_own(o: Opf, uid: Seq<char>)
    ensures
        o.identifiers == seq![("uid"@, uid)] && o.uid == Some("uid"@) ==> o.identifier() == uid,
{
    if o.identifiers == seq![("uid"@, uid)] {
        assert(o.identifiers[0] == ("uid"@, uid));
    }
}

// ---------------------------------------------------------------- what was read once

proof fn lemma_skips(s: Seq<char>, i: int)
    requires
        0 <= i <= s.len(),
    ensures
        i <= text::skip_white(s, i) <= s.len(),
        text::skip_white(s, i) < s.len() ==> !text::is_white(s[text::skip_white(s, i)]),
    decreases s.len() - i,
{
    if i < s.len() && text::is_white(s[i]) {
        lemma_skips(s, i + 1);
    }
}

proof fn lemma_backs(s: Seq<char>, i: int, j: int)
    requires
        0 <= i <= j <= s.len(),
    ensures
        i <= text::back_white(s, i, j) <= j,
        i < text::back_white(s, i, j) ==> !text::is_white(s[text::back_white(s, i, j) - 1]),
    decreases j - i,
{
    if i < j && text::is_white(s[j - 1]) {
        lemma_backs(s, i, j - 1);
    }
}

/// What is trimmed has nothing to trim.
proof fn lemma_trimmed(s: Seq<char>)
    ensures
        text::spec_trim(text::spec_trim(s)) == text::spec_trim(s),
{
    let none = Seq::<char>::empty();
    let n = s.len() as int;
    lemma_skips(s, 0);
    let i = text::skip_white(s, 0);
    lemma_backs(s, i, n);
    let j = text::back_white(s, i, n);
    let y = text::spec_trim(s);
    if y.len() > 0 {
        assert(y[0] == s[i] && y.last() == s[j - 1]);
    }
    assert(none + y + none =~= y);
    crate::used_rules::lemma_trim(none, y, none);
}

pub open spec fn is_told(s: Seq<char>) -> bool {
    text::spec_trim(s) == s
}

pub open spec fn is_told_one(s: Option<Seq<char>>) -> bool {
    s matches Some(x) ==> is_told(x)
}

/// What a reader holds has nothing to trim.
spec fn is_told_all(p: Opf) -> bool {
    &&& forall|k: int| 0 <= k < p.authors.len() ==> is_told(#[trigger] p.authors[k])
    &&& is_told_one(p.title)
    &&& is_told_one(p.language)
    &&& is_told_one(p.publisher)
    &&& is_told_one(p.date)
}

proof fn lemma_told_all(t: Seq<char>, v: Seq<Token>, n: int)
    requires
        0 <= n <= v.len(),
    ensures
        is_told_all(opf::met(t, v, n)),
    decreases n,
{
    if n > 0 {
        lemma_told_all(t, v, n - 1);
        let b = opf::text_behind(t, v, n - 1);
        assert(is_told(b)) by {
            let none = Seq::<char>::empty();
            assert(text::spec_trim(none) =~= none);
            if n < v.len() {
                if let Token::Text { start, end } = v[n] {
                    lemma_trimmed(markup::spec_unescape(t.subrange(start, end)));
                }
            }
        }
    }
}

/// What is read of a package document has no white space at its ends.
proof fn lemma_book_told(t: Seq<char>)
    ensures
        ({
            let b = opf::opf_of(t).book();
            &&& trimmed(b.authors) == b.authors
            &&& trimmed_one(b.publisher) == b.publisher
            &&& trimmed_one(b.date) == b.date
            &&& is_told(b.language)
        }),
{
    let v = markup::spec_tokens(t);
    lemma_told_all(t, v, v.len() as int);
    let o = opf::opf_of(t);
    assert(trimmed(o.authors) =~= o.authors);
    let none = Seq::<char>::empty();
    assert(text::spec_trim(none) =~= none);
}

// ---------------------------------------------------------------- the volume

proof fn lemma_volume_gets(p: Seq<Part>, d: Found, toc: Seq<Toc>, cut: CutAt, a: Asked)
    requires
        volume::cut_documents(package::spec_spine_documents(d.book, d.base()), cut).no_duplicates(),
        !volume::cut_documents(package::spec_spine_documents(d.book, d.base()), cut).contains(container()),
        d.path != container(),
        edit::spec_get(p, d.path) is Some,
        edit::spec_get(p, container()) is Some,
    ensures
        ({
            let docs = volume::cut_documents(package::spec_spine_documents(d.book, d.base()), cut);
            let resources = volume::volume_resources(p, d, docs);
            let taken = (docs + resources).push(d.path);
            let q = volume::volume_parts(p, d, toc, cut, a);
            &&& edit::spec_get(q, container()) == edit::spec_get(p, container())
            &&& edit::spec_get(q, d.path) == Some(
                vstd::utf8::encode_utf8(
                    volume::opf_text(
                        d.book,
                        d.base(),
                        toc_repair::language_of(d.book),
                        volume::described(d, cut, a),
                        docs,
                        resources,
                        volume::nav_path(d.base(), taken),
                        volume::ncx_path(d.base(), taken),
                        volume::cover_image(p, cut.cover),
                    ),
                ),
            )
        }),
{
    reveal(volume::volume_parts);
    let docs = volume::cut_documents(package::spec_spine_documents(d.book, d.base()), cut);
    let resources = volume::volume_resources(p, d, docs);
    let taken = (docs + resources).push(d.path);
    let kept = taken.push("mimetype"@).push(container());
    let nav = volume::nav_path(d.base(), taken);
    let ncx = volume::ncx_path(d.base(), taken);
    let subset = edit::kept_to(p, kept, p.len() as int);
    let body = volume::bound(p, d, cut, a, docs, resources);
    assert(p.take(p.len() as int) =~= p);
    let m = docs.len() + resources.len();
    assert(kept[m as int] == d.path && taken[m as int] == d.path);
    assert(kept.last() == container());
    assert(kept.contains(d.path) && kept.contains(container()) && taken.contains(d.path));
    volume::lemma_kept_get(p, kept, p.len() as int, d.path);
    volume::lemma_kept_get(p, kept, p.len() as int, container());
    volume::lemma_closed_get(subset, docs, docs.len() as int, d.path);
    volume::lemma_closed_get(subset, docs, docs.len() as int, container());
    assert(docs.take(docs.len() as int) =~= docs);
    let closed = volume::closed_to(subset, docs, docs.len() as int);
    let data = vstd::utf8::encode_utf8(
        volume::opf_text(
            d.book,
            d.base(),
            toc_repair::language_of(d.book),
            volume::described(d, cut, a),
            docs,
            resources,
            nav,
            ncx,
            volume::cover_image(p, cut.cover),
        ),
    );
    edit::replacing_is_surgical(closed, d.path, data, container());
    assert(body == edit::spec_replace(closed, d.path, data));
    fresh::a_fresh_name_is_free(taken, d.base() + "nav"@, "-"@, ".xhtml"@);
    fresh::a_fresh_name_is_free(taken, d.base() + "toc"@, "-"@, ".ncx"@);
    assert(nav != d.path && ncx != d.path);
    lemma_fresh_end(taken, d.base() + "nav"@, ".xhtml"@);
    lemma_fresh_end(taken, d.base() + "toc"@, ".ncx"@);
    lemma_not_container(nav, ".xhtml"@);
    lemma_not_container(ncx, ".ncx"@);
    assert forall|q: Seq<Part>, b: Seq<u8>, x: Seq<char>|
        (x == d.path || x == container()) && (x != nav) implies edit::spec_get(
        #[trigger] edit::spec_set(q, nav, b),
        x,
    ) == #[trigger] edit::spec_get(q, x) by {
        edit::setting_changes_one_member(q, nav, b, x);
    }
    assert forall|q: Seq<Part>, b: Seq<u8>, x: Seq<char>|
        (x == d.path || x == container()) && (x != ncx) implies edit::spec_get(
        #[trigger] edit::spec_set(q, ncx, b),
        x,
    ) == #[trigger] edit::spec_get(q, x) by {
        edit::setting_changes_one_member(q, ncx, b, x);
    }
}

/// A fresh name ends as it is asked to.
proof fn lemma_fresh_end(taken: Seq<Seq<char>>, pre: Seq<char>, suf: Seq<char>)
    ensures
        text::spec_ends(fresh::spec_fresh(taken, pre, "-"@, suf), suf),
{
    fresh::a_fresh_name_is_free(taken, pre, "-"@, suf);
    let s = fresh::spec_fresh(taken, pre, "-"@, suf);
    let m = choose|m: int| 1 <= m && s == #[trigger] fresh::candidate(pre, "-"@, suf, m);
    let n = s.len() - suf.len();
    assert(s.subrange(n, s.len() as int) =~= suf);
}

proof fn lemma_not_container(s: Seq<char>, suf: Seq<char>)
    requires
        suf == ".xhtml"@ || suf == ".ncx"@,
        text::spec_ends(s, suf),
    ensures
        s != container(),
{
    reveal_strlit(".xhtml");
    reveal_strlit(".ncx");
    reveal_strlit("META-INF/container.xml");
    let n = s.len() as int;
    let k = suf.len() as int;
    assert(s.subrange(n - k, n)[k - 1] == s[n - 1]);
    assert(s.subrange(n - k, n)[k - 3] == s[n - 3]);
    assert(suf[k - 1] == 'l' ==> suf[k - 3] == 't');
}

proof fn lemma_declares(
    b: Book,
    base: Seq<char>,
    lang: Seq<char>,
    d: Described,
    docs: Seq<Seq<char>>,
    resources: Seq<Seq<char>>,
    nav: Seq<char>,
    ncx: Seq<char>,
    cover: Option<Seq<char>>,
)
    ensures
        codec::declares_utf8(
            vstd::utf8::encode_utf8(
                volume::opf_text(b, base, lang, d, docs, resources, nav, ncx, cover),
            ),
        ),
{
    let t = volume::opf_text(b, base, lang, d, docs, resources, nav, ncx, cover);
    lemma_volume_text(b, base, lang, d, docs, resources, nav, ncx, cover);
    lemma_head_open();
    let h = head_text(lang);
    let i = instruction();
    assert(h.subrange(0, i.len() as int) =~= i);
    assert(t.subrange(0, i.len() as int) =~= h.subrange(0, i.len() as int));
    crate::book_read_back::lemma_declares(t);
}

/// The package document that a volume is found to have.
proof fn lemma_volume_doc(p: Seq<Part>, d: Found, q: Seq<Part>, t: Seq<char>, k: Book)
    requires
        package::spec_package_doc(p) == Ok::<Found, Fault>(d),
        edit::spec_get(q, container()) == edit::spec_get(p, container()),
        edit::spec_get(q, d.path) == Some(vstd::utf8::encode_utf8(t)),
        codec::declares_utf8(vstd::utf8::encode_utf8(t)),
        opf::spec_parse_opf(t) == Ok::<Book, Fault>(k),
    ensures
        package::spec_package_doc(q) == Ok::<Found, Fault>(Found { path: d.path, text: t, book: k }),
{
    codec::written_text_is_read_back(t);
}

proof fn lemma_found(p: Seq<Part>, d: Found)
    requires
        package::spec_package_doc(p) == Ok::<Found, Fault>(d),
    ensures
        edit::spec_get(p, container()) is Some,
        edit::spec_get(p, d.path) is Some,
        d.book == opf::opf_of(d.text).book(),
{
}

/// What a volume's package document is read as: the collection's authors, language,
/// publisher and date, the label of the cut as its title, and in its spine a document
/// for each of the cut.
#[verifier::opaque]
pub open spec fn is_volume_of(
    k: Book,
    b: Book,
    base: Seq<char>,
    label: Seq<char>,
    uuid: Seq<char>,
    docs: Seq<Seq<char>>,
    resources: Seq<Seq<char>>,
) -> bool {
    &&& k.title == text::spec_trim(label)
    &&& k.authors == b.authors
    &&& k.language == if b.language.len() == 0 {
        "en"@
    } else {
        b.language
    }
    &&& k.publisher == b.publisher
    &&& k.date == b.date
    &&& k.identifier == text::spec_trim("urn:uuid:"@ + uuid)
    &&& k.spine.len() == docs.len()
    &&& k.items.len() == docs.len() + resources.len() + 2
    &&& forall|i: int|
        0 <= i < docs.len() ==> #[trigger] k.items[i + 2] == item(
            k.spine[i],
            structure::spec_relativize(base, docs[i]),
            "application/xhtml+xml"@,
            Seq::empty(),
        )
    &&& k.nav_href is Some
    &&& k.ncx_href is Some
}

proof fn lemma_volume_of(
    t: Seq<char>,
    base: Seq<char>,
    d: Described,
    uuid: Seq<char>,
    docs: Seq<Seq<char>>,
    resources: Seq<Seq<char>>,
    nav: Seq<char>,
    ncx: Seq<char>,
    cover: Option<Seq<char>>,
)
    requires
        is_writable(toc_repair::language_of(opf::opf_of(t).book()), d),
        d.uid == "urn:uuid:"@ + uuid,
    ensures
        ({
            let b = opf::opf_of(t).book();
            opf::spec_parse_opf(
                volume::opf_text(
                    b,
                    base,
                    toc_repair::language_of(b),
                    d,
                    docs,
                    resources,
                    nav,
                    ncx,
                    cover,
                ),
            ) matches Ok(k) && is_volume_of(k, b, base, d.label, uuid, docs, resources)
        }),
{
    let b = opf::opf_of(t).book();
    let lang = toc_repair::language_of(b);
    a_volume_describes_itself(b, base, lang, d, docs, resources, nav, ncx, cover);
    let k = opf::spec_parse_opf(
        volume::opf_text(b, base, lang, d, docs, resources, nav, ncx, cover),
    )->Ok_0;
    lemma_book_told(t);
    lemma_en();
    let items = volume_items(base, nav, ncx, docs, resources, cover);
    reveal(is_volume_of);
    assert forall|i: int| 0 <= i < docs.len() implies #[trigger] k.items[i + 2] == item(
        k.spine[i],
        structure::spec_relativize(base, docs[i]),
        "application/xhtml+xml"@,
        Seq::empty(),
    ) by {
        assert(items[i + 2] == document_list(base, docs)[i]);
    }
}

/// A volume is a book of its own, and is found to have a package document that
/// describes it: the collection's metadata, and its own title, identifier and spine.
pub proof fn a_volume_reads_as_its_collection(
    p: Seq<Part>,
    d: Found,
    toc: Seq<Toc>,
    cut: CutAt,
    a: Asked,
)
    requires
        package::spec_package_doc(p) == Ok::<Found, Fault>(d),
        volume::cut_documents(package::spec_spine_documents(d.book, d.base()), cut).no_duplicates(),
        !volume::cut_documents(package::spec_spine_documents(d.book, d.base()), cut).contains(container()),
        d.path != container(),
        is_writable(toc_repair::language_of(d.book), volume::described(d, cut, a)),
    ensures
        package::spec_package_doc(volume::volume_parts(p, d, toc, cut, a)) matches Ok(e) && {
            let docs = volume::cut_documents(package::spec_spine_documents(d.book, d.base()), cut);
            e.path == d.path && is_volume_of(
                e.book,
                d.book,
                d.base(),
                cut.label,
                a.uuid,
                docs,
                volume::volume_resources(p, d, docs),
            )
        },
{
    let docs = volume::cut_documents(package::spec_spine_documents(d.book, d.base()), cut);
    let resources = volume::volume_resources(p, d, docs);
    let taken = (docs + resources).push(d.path);
    let nav = volume::nav_path(d.base(), taken);
    let ncx = volume::ncx_path(d.base(), taken);
    let lang = toc_repair::language_of(d.book);
    let x = volume::described(d, cut, a);
    let cover = volume::cover_image(p, cut.cover);
    let t = volume::opf_text(d.book, d.base(), lang, x, docs, resources, nav, ncx, cover);
    lemma_found(p, d);
    lemma_volume_gets(p, d, toc, cut, a);
    lemma_declares(d.book, d.base(), lang, x, docs, resources, nav, ncx, cover);
    lemma_volume_of(d.text, d.base(), x, a.uuid, docs, resources, nav, ncx, cover);
    lemma_volume_doc(
        p,
        d,
        volume::volume_parts(p, d, toc, cut, a),
        t,
        opf::spec_parse_opf(t)->Ok_0,
    );
}

proof fn lemma_en()
    ensures
        text::spec_trim("en"@) == "en"@,
{
    reveal_strlit("en");
    let none = Seq::<char>::empty();
    assert(none + "en"@ + none =~= "en"@);
    crate::used_rules::lemma_trim(none, "en"@, none);
}

// ---------------------------------------------------------------- the series

/// The attributes of the element that names the series.
pub open spec fn series_attrs() -> Seq<(Seq<char>, Seq<char>)> {
    seq![("property"@, "belongs-to-collection"@), ("id"@, "series"@)]
}

/// The attributes of an element that says something of the series.
pub open spec fn of_series(what: Seq<char>) -> Seq<(Seq<char>, Seq<char>)> {
    seq![("refines"@, "#series"@), ("property"@, what)]
}

/// A volume of a series says so: it names the series, as one, and its own number as its
/// place in it, each in an element of its own with a text that is read back.
pub proof fn a_volume_names_its_series(s: Seq<char>, number: Number)
    ensures
        volume::series_meta(Some(s), number) == element(
            "meta"@,
            series_attrs(),
            markup::spec_escape_text(s),
        ) + seq!['\n'] + (element("meta"@, of_series("collection-type"@), "series"@) + seq!['\n']) + (element(
            "meta"@,
            of_series("group-position"@),
            volume_number::number_text(number),
        ) + seq!['\n']),
        markup::spec_unescape(markup::spec_escape_text(s)) == s,
        number.billionths % volume_number::ONE == 0 ==> volume_number::number_text(number)
            == text::decimal((number.billionths / volume_number::ONE) as nat),
{
    escaping::unescaping_undoes_escaping(s);
    let esc = markup::spec_escape_text(s);
    let num = volume_number::number_text(number);
    lemma_series_text(esc);
    lemma_position_text(num);
}

proof fn lemma_series_text(esc: Seq<char>)
    ensures
        volume::line(
            "<meta property=\"belongs-to-collection\" id=\"series\">"@,
            esc,
            "</meta>\n<meta refines=\"#series\" property=\"collection-type\">series</meta>\n"@,
        ) == element("meta"@, series_attrs(), esc) + seq!['\n'] + (element(
            "meta"@,
            of_series("collection-type"@),
            "series"@,
        ) + seq!['\n']),
{
    reveal_strlit("<meta property=\"belongs-to-collection\" id=\"series\">");
    reveal_strlit("</meta>\n<meta refines=\"#series\" property=\"collection-type\">series</meta>\n");
    reveal_strlit("meta");
    reveal_strlit("refines");
    reveal_strlit("#series");
    reveal_strlit("property");
    reveal_strlit("collection-type");
    reveal_strlit("series");
    reveal_strlit("id");
    reveal_strlit("belongs-to-collection");
    let a = series_attrs();
    assert(a =~= seq![a[0]] + seq![a[1]]);
    lemma_one_attr(a[1]);
    lemma_more_attrs(a[0], seq![a[1]]);
    lemma_refined("collection-type"@);
    let b = of_series("collection-type"@);
    assert(b =~= refined("collection-type"@));
    let y = element("meta"@, b, "series"@) + seq!['\n'];
    let e = end_tag("meta"@) + seq!['\n'];
    assert("<meta property=\"belongs-to-collection\" id=\"series\">"@ =~= start_tag("meta"@, a, false));
    assert("</meta>\n<meta refines=\"#series\" property=\"collection-type\">series</meta>\n"@ =~= e + y);
    assert(element("meta"@, a, esc) + seq!['\n'] + y =~= start_tag("meta"@, a, false) + esc + (e + y));
}

proof fn lemma_position_text(num: Seq<char>)
    ensures
        volume::line("<meta refines=\"#series\" property=\"group-position\">"@, num, "</meta>\n"@) == element(
            "meta"@,
            of_series("group-position"@),
            num,
        ) + seq!['\n'],
{
    reveal_strlit("<meta refines=\"#series\" property=\"group-position\">");
    reveal_strlit("</meta>\n");
    reveal_strlit("meta");
    reveal_strlit("refines");
    reveal_strlit("#series");
    reveal_strlit("property");
    reveal_strlit("group-position");
    lemma_refined("group-position"@);
    let v = of_series("group-position"@);
    assert(v =~= refined("group-position"@));
    assert("<meta refines=\"#series\" property=\"group-position\">"@ =~= start_tag("meta"@, v, false));
    assert("</meta>\n"@ =~= end_tag("meta"@) + seq!['\n']);
    assert(volume::line("<meta refines=\"#series\" property=\"group-position\">"@, num, "</meta>\n"@)
        =~= element("meta"@, v, num) + seq!['\n']);
}

} // verus!
