//! An upgraded package is read to be one of version 3, and is not upgraded again.
use vstd::prelude::*;

use crate::archive::Part;
use crate::edit::Log;
use crate::error::{ErrorKind, Fault};
use crate::manifest::{Listed, MemberRole};
use crate::markup::Token;
use crate::package::Found;
use crate::tidy::{has_tag, is_piece, is_tidy, piece, tail};
use crate::upgrade::Stage;
use crate::{codec, edit, manifest, markup, opf, package, split_doc, text, tidy, upgrade};

verus! {

// ---------------------------------------------------------------- the start of a document

/// What may stand before the root of a document: text, comments, instructions and
/// declarations, all closed.
pub open spec fn is_prolog(x: Seq<char>) -> bool {
    is_tidy(x) && !has_tag(x)
}

/// The text starts with `x` and, right behind it, `c`.
pub open spec fn leads(t: Seq<char>, x: Seq<char>, c: Seq<char>) -> bool {
    text::is_at(t, x + c, 0)
}

/// The token of the start tag `c` at `i`.
pub open spec fn tag_token(c: Seq<char>, i: int) -> Token {
    Token::Tag {
        start: i,
        end: i + c.len(),
        name: tidy::piece_name(c),
        closing: c[1] == '/',
        self_closing: c[c.len() - 2] == '/',
    }
}

pub proof fn lemma_past_prolog(t: Seq<char>, x: Seq<char>, i: int, from_at: int)
    requires
        is_prolog(x),
        0 <= i,
        text::is_at(t, x, i),
    ensures
        markup::tokens_from(t, i, from_at) == markup::tokens_from(t, (i + x.len()) as int, from_at),
    decreases x.len(),
{
    if x.len() > 0 {
        tidy::lemma_tail(x);
        tidy::lemma_tidy_tail(x);
        let r = tail(x);
        let d = x.len() - r.len();
        assert(t.subrange(i, i + x.len())[0] == t[i]);
        assert(t.subrange(i + d, i + x.len()) =~= x.subrange(d, x.len() as int));
        assert(r =~= x.subrange(d, x.len() as int));
        if x[0] == '<' {
            let c = piece(x);
            tidy::lemma_ends(c);
            assert(t.subrange(i, i + c.len()) =~= x.subrange(0, c.len() as int));
            tidy::lemma_piece_at(t, i, c);
            assert(tidy::is_aside(c));
        }
        lemma_past_prolog(t, r, i + d, from_at);
    }
}

/// The tokens of a text that starts with a prolog and a tag.
proof fn lemma_tokens_lead(t: Seq<char>, x: Seq<char>, c: Seq<char>)
    requires
        is_prolog(x),
        is_piece(c),
        !tidy::is_aside(c),
        leads(t, x, c),
    ensures
        ({
            let i = x.len() as int;
            let e = (x.len() + c.len()) as int;
            markup::spec_tokens(t) == markup::text_token(0, i) + seq![tag_token(c, i)]
                + markup::tokens_from(t, e, e)
        }),
{
    let i = x.len() as int;
    let e = (x.len() + c.len()) as int;
    assert(t.subrange(0, i) =~= (x + c).subrange(0, i));
    assert((x + c).subrange(0, i) =~= x);
    assert(t.subrange(i, e) =~= (x + c).subrange(i, e));
    assert((x + c).subrange(i, e) =~= c);
    lemma_past_prolog(t, x, 0, 0);
    tidy::lemma_ends(c);
    tidy::lemma_piece_at(t, i, c);
    assert(t.subrange(i, e)[c.len() - 2] == t[e - 2]);
}

/// The place of the tag among the tokens.
spec fn tag_place(x: Seq<char>) -> int {
    if x.len() > 0 {
        1
    } else {
        0
    }
}

proof fn lemma_tag_place(t: Seq<char>, x: Seq<char>, c: Seq<char>)
    requires
        is_prolog(x),
        is_piece(c),
        !tidy::is_aside(c),
        leads(t, x, c),
    ensures
        ({
            let v = markup::spec_tokens(t);
            let j = tag_place(x);
            let i = x.len() as int;
            &&& j < v.len()
            &&& v[j] == tag_token(c, i)
            &&& j == 1 ==> v[0] == (Token::Text { start: 0, end: i })
            &&& t.subrange(i, (i + c.len()) as int) == c
            &&& t.subrange(0, i) == x
        }),
{
    lemma_tokens_lead(t, x, c);
    let i = x.len() as int;
    let e = (x.len() + c.len()) as int;
    assert(t.subrange(0, i) =~= (x + c).subrange(0, i));
    assert((x + c).subrange(0, i) =~= x);
    assert(t.subrange(i, e) =~= (x + c).subrange(i, e));
    assert((x + c).subrange(i, e) =~= c);
    let a = markup::text_token(0, i);
    assert((a + seq![tag_token(c, i)])[a.len() as int] == tag_token(c, i));
}

// ---------------------------------------------------------------- reading and rewriting

proof fn lemma_version_stays(t: Seq<char>, v: Seq<Token>, k: int, n: int)
    requires
        0 <= k <= n <= v.len(),
        opf::met(t, v, k).package,
    ensures
        opf::met(t, v, n).package,
        opf::met(t, v, n).version == opf::met(t, v, k).version,
    decreases n - k,
{
    if k < n {
        lemma_version_stays(t, v, k, n - 1);
    }
}

/// The version of a package document is what its root says.
proof fn lemma_root_version(t: Seq<char>, x: Seq<char>, c: Seq<char>)
    requires
        is_prolog(x),
        is_piece(c),
        tidy::is_start(c),
        tidy::piece_name(c) == "package"@,
        leads(t, x, c),
    ensures
        opf::opf_of(t).package,
        opf::opf_of(t).version == opf::or_empty(opf::spec_attr(c, "version"@)),
{
    lemma_tag_place(t, x, c);
    let v = markup::spec_tokens(t);
    let j = tag_place(x);
    reveal_strlit("package");
    reveal_with_fuel(text::spec_rfind_char, 8);
    assert(opf::spec_local("package"@) == "package"@);
    assert(opf::met(t, v, 0).package == false);
    if j == 1 {
        assert(opf::met(t, v, 1) == opf::met(t, v, 0));
    }
    assert(opf::met(t, v, j + 1).package);
    lemma_version_stays(t, v, j + 1, v.len() as int);
}

proof fn lemma_rewritten_grows(
    f: spec_fn(Seq<char>, Seq<char>) -> Option<Seq<char>>,
    t: Seq<char>,
    v: Seq<Token>,
    k: int,
    n: int,
)
    requires
        0 <= k <= n <= v.len(),
    ensures
        markup::tokens_rewritten(f, t, v, k).is_prefix_of(markup::tokens_rewritten(f, t, v, n)),
    decreases n - k,
{
    if k < n {
        lemma_rewritten_grows(f, t, v, k, n - 1);
    }
}

/// Rewriting the tags of a text leaves its prolog and rewrites its root.
proof fn lemma_rewrite_lead(
    f: spec_fn(Seq<char>, Seq<char>) -> Option<Seq<char>>,
    t: Seq<char>,
    x: Seq<char>,
    c: Seq<char>,
)
    requires
        is_prolog(x),
        is_piece(c),
        tidy::is_start(c),
        leads(t, x, c),
    ensures
        leads(
            markup::spec_rewrite_tags(f, t),
            x,
            match f(tidy::piece_name(c), c) {
                Some(new) => new,
                None => c,
            },
        ),
{
    lemma_tag_place(t, x, c);
    let v = markup::spec_tokens(t);
    let j = tag_place(x);
    let new = match f(tidy::piece_name(c), c) {
        Some(new) => new,
        None => c,
    };
    assert(markup::tokens_rewritten(f, t, v, 0) =~= Seq::<char>::empty());
    if j == 1 {
        assert(markup::tokens_rewritten(f, t, v, 1) =~= x);
    }
    assert(markup::tokens_rewritten(f, t, v, j) =~= x);
    assert(markup::tokens_rewritten(f, t, v, j + 1) =~= x + new);
    lemma_rewritten_grows(f, t, v, j + 1, v.len() as int);
    let out = markup::spec_rewrite_tags(f, t);
    assert(out.subrange(0, (x + new).len() as int) =~= x + new);
}

/// What is sought behind the root is not found before it.
proof fn lemma_found_behind(t: Seq<char>, x: Seq<char>, c: Seq<char>, p: Seq<char>)
    requires
        is_piece(c),
        tidy::is_bare(c),
        leads(t, x, c),
        !text::spec_contains(x, p),
        p.len() > 1,
        p[0] == '<',
        p[1] != c[1],
        forall|k: int| 0 < k < p.len() ==> #[trigger] p[k] != '<',
    ensures
        text::spec_find(t, p, 0) matches Some(k) ==> k >= x.len() + c.len(),
{
    text::lemma_find(t, p, 0);
    text::lemma_find(x, p, 0);
    tidy::lemma_ends(c);
    if let Some(k) = text::spec_find(t, p, 0) {
        let n = (x.len() + c.len()) as int;
        assert forall|i: int| 0 <= i < n implies t[i] == #[trigger] (x + c)[i] by {
            assert(t.subrange(0, n)[i] == t[i]);
        }
        assert(t.subrange(k, k + p.len())[0] == t[k]);
        assert(t.subrange(k, k + p.len())[1] == t[k + 1]);
        let m = x.len() as int;
        if k < m {
            if k + p.len() > m {
                assert(t[m] == (x + c)[m]);
                assert(t.subrange(k, k + p.len())[m - k] == t[m]);
            } else {
                assert forall|i: int| k <= i < k + p.len() implies #[trigger] x[i] == t[i] by {
                    assert(t[i] == (x + c)[i]);
                }
                assert(x.subrange(k, k + p.len()) =~= t.subrange(k, k + p.len()));
                assert(text::is_at(x, p, k));
            }
        } else if k == m {
            assert(t[m + 1] == (x + c)[m + 1]);
        } else if k < n {
            assert(t[k] == (x + c)[k]);
            tidy::lemma_inner(c, k - m);
        }
    }
}

proof fn lemma_lead_kept(t: Seq<char>, u: Seq<char>, x: Seq<char>, c: Seq<char>)
    requires
        leads(t, x, c),
        u.len() >= x.len() + c.len(),
        u.subrange(0, (x.len() + c.len()) as int) == t.subrange(0, (x.len() + c.len()) as int),
    ensures
        leads(u, x, c),
{
}

// ---------------------------------------------------------------- the root of a package document

/// The tag with the new version.
pub open spec fn newer(c: Seq<char>) -> Seq<char> {
    upgrade::version_edit("package"@, c)->0
}

/// The start tag of a package, with neither `<` nor `>` inside.
pub open spec fn is_package_tag(c: Seq<char>) -> bool {
    &&& is_piece(c)
    &&& tidy::is_bare(c)
    &&& tidy::is_start(c)
    &&& tidy::piece_name(c) == "package"@
}

/// The tag of a package takes a new version: the one that is set in it is read from
/// it.
pub open spec fn takes_version(c: Seq<char>) -> bool {
    &&& is_package_tag(c)
    &&& is_package_tag(newer(c))
    &&& opf::spec_attr(newer(c), "version"@) == Some("3.0"@)
}

/// The tag of a package takes a new version, also once it names an identifier.
pub open spec fn is_root(c: Seq<char>) -> bool {
    &&& takes_version(c)
    &&& markup::spec_attr_value(c, "unique-identifier"@) is None ==> forall|id: Seq<char>|
        takes_version(#[trigger] markup::spec_set_attr(c, "unique-identifier"@, Some(id)))
}

/// Nothing that an upgrade seeks stands before the root.
pub open spec fn is_quiet_prolog(x: Seq<char>) -> bool {
    &&& is_prolog(x)
    &&& !text::spec_contains(x, "<metadata"@)
    &&& !text::spec_contains(x, "<dc:identifier"@)
    &&& !text::spec_contains(x, "</manifest>"@)
}

proof fn lemma_sought(c: Seq<char>)
    requires
        is_package_tag(c),
    ensures
        "<metadata"@.len() == 9,
        "<metadata"@[0] == '<',
        "<metadata"@[1] != c[1],
        forall|k: int| 0 < k < "<metadata"@.len() ==> #[trigger] "<metadata"@[k] != '<',
        "<dc:identifier"@.len() == 14,
        "<dc:identifier"@[0] == '<',
        "<dc:identifier"@[1] != c[1],
        forall|k: int| 0 < k < "<dc:identifier"@.len() ==> #[trigger] "<dc:identifier"@[k] != '<',
        "</manifest>"@.len() == 11,
        "</manifest>"@[0] == '<',
        "</manifest>"@[1] != c[1],
        forall|k: int| 0 < k < "</manifest>"@.len() ==> #[trigger] "</manifest>"@[k] != '<',
{
    reveal_strlit("<metadata");
    reveal_strlit("<dc:identifier");
    reveal_strlit("</manifest>");
    reveal_strlit("package");
    reveal(tidy::is_piece);
    let b = markup::name_end(c, 1);
    assert(text::spec_lower(c.subrange(1, b)) == "package"@);
    assert(text::spec_lower(c.subrange(1, b))[0] == 'p');
    assert(c.subrange(1, b)[0] == c[1]);
}

/// Where the metadata are upgraded, the root stays, or names an identifier.
proof fn lemma_metadata_lead(
    t: Seq<char>,
    uid: Option<Seq<char>>,
    now: Seq<char>,
    x: Seq<char>,
    c: Seq<char>,
) -> (r: Seq<char>)
    requires
        is_quiet_prolog(x),
        is_root(c),
        leads(t, x, c),
    ensures
        takes_version(r),
        leads(upgrade::spec_upgrade_metadata(t, uid, now).text, x, r),
{
    lemma_sought(c);
    lemma_found_behind(t, x, c, "<metadata"@);
    match text::spec_find(t, "<metadata"@, 0) {
        None => c,
        Some(a) => match text::spec_find(t, "</metadata>"@, a) {
            None => c,
            Some(b) => {
                text::lemma_find(t, "<metadata"@, 0);
                text::lemma_find(t, "</metadata>"@, a);
                let region = t.subrange(a, b);
                let s = upgrade::work_done(t, uid, a, b);
                let out = upgrade::with_lines(
                    s.out + region.subrange(s.pos, region.len() as int),
                    upgrade::metas_added(s, text::spec_contains(region, "dcterms:modified"@), now),
                    upgrade::last_indent(region),
                );
                let u = t.subrange(0, a) + out + t.subrange(b, t.len() as int);
                let n = (x.len() + c.len()) as int;
                assert(u.subrange(0, n) =~= t.subrange(0, n));
                lemma_lead_kept(t, u, x, c);
                lemma_identifier_lead(u, s.first_id, x, c)
            },
        },
    }
}

proof fn lemma_identifier_lead(u: Seq<char>, first_id: Option<Seq<char>>, x: Seq<char>, c: Seq<char>) -> (r:
    Seq<char>)
    requires
        is_quiet_prolog(x),
        is_root(c),
        leads(u, x, c),
    ensures
        takes_version(r),
        leads(upgrade::with_identifier(u, first_id), x, r),
{
    lemma_sought(c);
    lemma_tag_place(u, x, c);
    let v = markup::spec_tokens(u);
    reveal_with_fuel(upgrade::tag_named, 3);
    assert(upgrade::spec_package_tag(u) == c);
    if markup::spec_attr_value(c, "unique-identifier"@) is Some {
        c
    } else {
        match (first_id, text::spec_find(u, "<dc:identifier"@, 0)) {
            (Some(id), _) => lemma_unique_lead(u, id, x, c),
            (None, Some(k)) => {
                lemma_found_behind(u, x, c, "<dc:identifier"@);
                text::lemma_find(u, "<dc:identifier"@, 0);
                let w = u.subrange(0, k) + "<dc:identifier id=\"pub-id\""@ + u.subrange(
                    k + 14,
                    u.len() as int,
                );
                let n = (x.len() + c.len()) as int;
                assert(w.subrange(0, n) =~= u.subrange(0, n));
                lemma_lead_kept(u, w, x, c);
                lemma_unique_lead(w, "pub-id"@, x, c)
            },
            (None, None) => c,
        }
    }
}

proof fn lemma_unique_lead(u: Seq<char>, id: Seq<char>, x: Seq<char>, c: Seq<char>) -> (r: Seq<char>)
    requires
        is_prolog(x),
        is_root(c),
        markup::spec_attr_value(c, "unique-identifier"@) is None,
        leads(u, x, c),
    ensures
        takes_version(r),
        leads(upgrade::unique_set(u, id), x, r),
{
    let f = |name: Seq<char>, tag: Seq<char>| upgrade::unique_edit(id, name, tag);
    lemma_rewrite_lead(f, u, x, c);
    let r = markup::spec_set_attr(c, "unique-identifier"@, Some(id));
    assert(takes_version(r));
    r
}

proof fn lemma_declared_lead(
    p: Seq<Part>,
    v: Seq<Listed>,
    cover: Option<Seq<char>>,
    t: Seq<char>,
    count: int,
    i: int,
    x: Seq<char>,
    c: Seq<char>,
)
    requires
        is_prolog(x),
        is_package_tag(c),
        leads(t, x, c),
        0 <= i,
    ensures
        upgrade::declared_from(p, v, cover, t, count, i) matches Ok((u, n)) ==> leads(u, x, c),
    decreases v.len() - i,
{
    if i < v.len() {
        match v[i].id {
            None => lemma_declared_lead(p, v, cover, t, count, i + 1, x, c),
            Some(id) => {
                let content = split_doc::text_or_fault(p, v[i].path);
                let props = upgrade::needed(
                    v[i],
                    match content {
                        Ok(c) => c,
                        Err(_) => Seq::empty(),
                    },
                    cover,
                );
                let existing = upgrade::spec_item_properties(t, id);
                let new = split_doc::among(props, existing, false, props.len() as int);
                if new.len() > 0 {
                    let w = text::spec_join(existing + new, " "@);
                    let f = |name: Seq<char>, tag: Seq<char>|
                        manifest::properties_edit(id, w, name, tag);
                    lemma_no_item();
                    lemma_rewrite_lead(f, t, x, c);
                    lemma_declared_lead(
                        p,
                        v,
                        cover,
                        manifest::spec_set_item_properties(t, id, w),
                        count + new.len(),
                        i + 1,
                        x,
                        c,
                    );
                } else {
                    lemma_declared_lead(p, v, cover, t, count, i + 1, x, c);
                }
            },
        }
    }
}

proof fn lemma_no_item()
    ensures
        "package"@ != "item"@,
{
    reveal_strlit("package");
    reveal_strlit("item");
    assert("package"@.len() != "item"@.len());
}

/// Listing the navigation document leaves the root.
proof fn lemma_nav_lead(t: Seq<char>, href: Seq<char>, x: Seq<char>, c: Seq<char>)
    requires
        is_quiet_prolog(x),
        is_package_tag(c),
        leads(t, x, c),
    ensures
        leads(upgrade::nav_listed(t, href), x, c),
{
    lemma_sought(c);
    lemma_found_behind(t, x, c, "</manifest>"@);
    text::lemma_find(t, "</manifest>"@, 0);
    if let Some(close) = text::spec_find(t, "</manifest>"@, 0) {
        let n = (x.len() + c.len()) as int;
        let a = manifest::item_place(t, close);
        let line = manifest::line_start(t, close);
        crate::manifest_read::lemma_line_start(t, close);
        tidy::lemma_ends(c);
        assert(t.subrange(0, n)[n - 1] == t[n - 1]);
        assert((x + c)[n - 1] == c.last());
        if manifest::starts_line(t, close) && line < n {
            let w = t.subrange(line, close);
            assert(w[n - 1 - line] == '>');
            assert(text::is_white(w[n - 1 - line]));
        }
        let u = upgrade::nav_listed(t, href);
        assert(u.subrange(0, n) =~= t.subrange(0, n));
        lemma_lead_kept(t, u, x, c);
    }
}

// ---------------------------------------------------------------- the upgraded package

/// A package in its upgrade, once its package document is written.
pub open spec fn staged(p: Seq<Part>, d: Found, now: Seq<char>) -> Option<Stage> {
    let m = upgrade::spec_upgrade_metadata(d.text, upgrade::given_uid(d.book), now);
    let log = upgrade::noted_to(edit::no_changes(), m.notes, m.notes.len() as int);
    match manifest::spec_members(p) {
        Err(_) => None,
        Ok(v) => match upgrade::declared_from(p, v, m.cover, upgrade::version_set(m.text), 0, 0) {
            Err(_) => None,
            Ok((t, n)) => Some(
                upgrade::nav_written(
                    Stage {
                        p,
                        log: upgrade::fonts_noted(t, upgrade::declared_noted(log, n)),
                        text: upgrade::fonts_set(t),
                    },
                    d.book,
                    d.base(),
                ),
            ),
        },
    }
}

/// The package document of an upgraded package has a root of version 3.
proof fn lemma_staged_root(p: Seq<Part>, d: Found, now: Seq<char>, x: Seq<char>, c: Seq<char>)
    requires
        is_quiet_prolog(x),
        is_root(c),
        leads(d.text, x, c),
        staged(p, d, now) is Some,
    ensures
        opf::opf_of(staged(p, d, now)->0.text).package,
        opf::opf_of(staged(p, d, now)->0.text).version == "3.0"@,
{
    let uid = upgrade::given_uid(d.book);
    let m = upgrade::spec_upgrade_metadata(d.text, uid, now);
    let c1 = lemma_metadata_lead(d.text, uid, now, x, c);
    let f = |name: Seq<char>, tag: Seq<char>| upgrade::version_edit(name, tag);
    lemma_rewrite_lead(f, m.text, x, c1);
    let c2 = newer(c1);
    let v = manifest::spec_members(p)->Ok_0;
    let set = upgrade::version_set(m.text);
    assert(leads(set, x, c2));
    lemma_declared_lead(p, v, m.cover, set, 0, 0, x, c2);
    let (t, n) = upgrade::declared_from(p, v, m.cover, set, 0, 0)->Ok_0;
    let g = |name: Seq<char>, tag: Seq<char>| upgrade::font_edit(name, tag);
    lemma_no_item();
    lemma_rewrite_lead(g, t, x, c2);
    let fonts = upgrade::fonts_set(t);
    assert(leads(fonts, x, c2));
    let s = staged(p, d, now)->0;
    if s.text != fonts {
        let log = upgrade::noted_to(edit::no_changes(), m.notes, m.notes.len() as int);
        let before = Stage {
            p,
            log: upgrade::fonts_noted(t, upgrade::declared_noted(log, n)),
            text: fonts,
        };
        lemma_written_lead(before, d, x, c2);
    }
    lemma_root_version(s.text, x, c2);
}

proof fn lemma_written_lead(s: Stage, d: Found, x: Seq<char>, c: Seq<char>)
    requires
        is_quiet_prolog(x),
        is_package_tag(c),
        leads(s.text, x, c),
    ensures
        leads(upgrade::nav_written(s, d.book, d.base()).text, x, c),
{
    let path = crate::fresh::spec_fresh(edit::spec_names(s.p), d.base() + "nav"@, "-"@, ".xhtml"@);
    lemma_nav_lead(
        s.text,
        text::spec_replace(crate::structure::spec_relativize(d.base(), path), " "@, "%20"@),
        x,
        c,
    );
}

/// Setting DOCTYPEs leaves a member that is no document.
proof fn lemma_doctypes_keep(p: Seq<Part>, log: Log, v: Seq<Listed>, count: int, i: int, name: Seq<char>)
    requires
        0 <= i,
        forall|k: int|
            0 <= k < v.len() && (#[trigger] v[k]).path == name ==> v[k].role != MemberRole::Text
                && v[k].role != MemberRole::Nav,
    ensures
        edit::spec_get(upgrade::doctypes_from(p, log, v, count, i).1, name) == edit::spec_get(p, name),
    decreases v.len() - i,
{
    if i < v.len() {
        if !(v[i].role == MemberRole::Text || v[i].role == MemberRole::Nav) || edit::was_added(
            log.added,
            v[i].path,
        ) {
            lemma_doctypes_keep(p, log, v, count, i + 1, name);
        } else if let Some(b) = edit::spec_get(p, v[i].path) {
            if upgrade::has_old_doctype(b) {
                let data = upgrade::spec_html5_bytes(b);
                let q = edit::spec_replace(p, v[i].path, data);
                edit::replacing_is_surgical(p, v[i].path, data, name);
                lemma_doctypes_keep(q, log.touched(v[i].path), v, count + 1, i + 1, name);
            } else {
                lemma_doctypes_keep(p, log, v, count, i + 1, name);
            }
        }
    }
}

proof fn lemma_roles(q: Seq<Part>, d: Found)
    requires
        edit::spec_opf_path(q) == Ok::<Seq<char>, Fault>(d.path),
    ensures
        manifest::spec_members(q) matches Ok(v) ==> forall|k: int|
            0 <= k < v.len() && ((#[trigger] v[k]).path == d.path || v[k].path
                == "META-INF/container.xml"@) ==> v[k].role != MemberRole::Text && v[k].role
                != MemberRole::Nav,
{
    reveal_strlit("META-INF/");
    reveal_strlit("META-INF/container.xml");
    assert("META-INF/container.xml"@.subrange(0, 9) =~= "META-INF/"@);
}

/// The package document and the container of an upgraded package.
proof fn lemma_ended(s: Stage, d: Found, uid: Option<Seq<char>>)
    requires
        edit::spec_opf_path(s.p) == Ok::<Seq<char>, Fault>(d.path),
        edit::spec_get(s.p, d.path) is Some,
        d.path != "META-INF/container.xml"@,
        d.book.ncx_href matches Some(href) ==> package::spec_abs(d.base(), href) != d.path
            && package::spec_abs(d.base(), href) != "META-INF/container.xml"@,
    ensures
        ({
            let q = upgrade::upgrade_ended(s, d, uid).1;
            &&& edit::spec_opf_path(q) == Ok::<Seq<char>, Fault>(d.path)
            &&& edit::spec_get(q, d.path) == Some(vstd::utf8::encode_utf8(s.text))
        }),
{
    let data = vstd::utf8::encode_utf8(s.text);
    let container = "META-INF/container.xml"@;
    let q = edit::spec_replace(s.p, d.path, data);
    edit::replacing_is_surgical(s.p, d.path, data, container);
    let (q2, log2) = upgrade::ncx_fixed(q, s.log.touched(d.path), d.book, d.base(), uid);
    if let (Some(href), Some(id)) = (d.book.ncx_href, uid) {
        let path = package::spec_abs(d.base(), href);
        if let Some(t) = package::spec_text(q, path) {
            let more = vstd::utf8::encode_utf8(upgrade::uid_set(t, id));
            edit::replacing_is_surgical(q, path, more, container);
            edit::replacing_is_surgical(q, path, more, d.path);
        }
    }
    lemma_roles(q2, d);
    if let Ok(v) = manifest::spec_members(q2) {
        lemma_doctypes_keep(q2, log2, v, 0, 0, container);
        lemma_doctypes_keep(q2, log2, v, 0, 0, d.path);
    }
}

/// An upgraded package is read to be one of version 3, and a second upgrade of it is
/// refused and changes nothing. The package document starts with a prolog `x` and
/// the tag `c` of the package, in which the version can be set, and it asks for no
/// other encoding than UTF-8.
pub proof fn an_upgraded_package_is_refused(
    p: Seq<Part>,
    d: Found,
    now: Seq<char>,
    later: Seq<char>,
    x: Seq<char>,
    c: Seq<char>,
)
    requires
        split_doc::package_text(p) == Ok::<Found, Fault>(d),
        d.path != "META-INF/container.xml"@,
        d.book.ncx_href matches Some(href) ==> package::spec_abs(d.base(), href) != d.path
            && package::spec_abs(d.base(), href) != "META-INF/container.xml"@,
        is_quiet_prolog(x),
        is_root(c),
        leads(d.text, x, c),
        staged(p, d, now) matches Some(s) ==> codec::declares_utf8(vstd::utf8::encode_utf8(s.text)),
        upgrade::spec_upgrade_to_epub3(p, now).0 is Ok,
    ensures
        ({
            let q = upgrade::spec_upgrade_to_epub3(p, now).1;
            &&& split_doc::package_text(q) matches Ok(e) && e.book.version == "3.0"@
            &&& upgrade::spec_upgrade_to_epub3(q, later).0 matches Err(f) && f matches Fault::Said(
                kind,
                _,
            ) && kind == ErrorKind::InvalidInput
            &&& upgrade::spec_upgrade_to_epub3(q, later).1 == q
        }),
{
    let m = upgrade::spec_upgrade_metadata(d.text, upgrade::given_uid(d.book), now);
    lemma_through_stage(p, d, now);
    let s = staged(p, d, now)->0;
    lemma_staged_root(p, d, now, x, c);
    lemma_staged_members(p, d, now);
    lemma_ended(s, d, m.uid);
    lemma_refused(upgrade::upgrade_ended(s, d, m.uid).1, d.path, s.text, later);
}

/// An upgrade that succeeds goes through its stage.
proof fn lemma_through_stage(p: Seq<Part>, d: Found, now: Seq<char>)
    requires
        split_doc::package_text(p) == Ok::<Found, Fault>(d),
        upgrade::spec_upgrade_to_epub3(p, now).0 is Ok,
    ensures
        staged(p, d, now) is Some,
        ({
            let m = upgrade::spec_upgrade_metadata(d.text, upgrade::given_uid(d.book), now);
            upgrade::spec_upgrade_to_epub3(p, now) == upgrade::upgrade_ended(
                staged(p, d, now)->0,
                d,
                m.uid,
            )
        }),
{
}

/// A package whose package document says version 3 is refused.
proof fn lemma_refused(q: Seq<Part>, path: Seq<char>, t: Seq<char>, now: Seq<char>)
    requires
        edit::spec_opf_path(q) == Ok::<Seq<char>, Fault>(path),
        edit::spec_get(q, path) == Some(vstd::utf8::encode_utf8(t)),
        codec::declares_utf8(vstd::utf8::encode_utf8(t)),
        opf::opf_of(t).package,
        opf::opf_of(t).version == "3.0"@,
    ensures
        split_doc::package_text(q) matches Ok(e) && e.book.version == "3.0"@,
        upgrade::spec_upgrade_to_epub3(q, now).0 matches Err(f) && f matches Fault::Said(kind, _)
            && kind == ErrorKind::InvalidInput,
        upgrade::spec_upgrade_to_epub3(q, now).1 == q,
{
    lemma_read_version(q, path, t);
    lemma_three();
    lemma_already(q, split_doc::package_text(q)->Ok_0, now);
}

proof fn lemma_read_version(q: Seq<Part>, path: Seq<char>, t: Seq<char>)
    requires
        edit::spec_opf_path(q) == Ok::<Seq<char>, Fault>(path),
        edit::spec_get(q, path) == Some(vstd::utf8::encode_utf8(t)),
        codec::declares_utf8(vstd::utf8::encode_utf8(t)),
        opf::opf_of(t).package,
        opf::opf_of(t).version == "3.0"@,
    ensures
        split_doc::package_text(q) matches Ok(e) && e.book.version == "3.0"@,
{
    codec::written_text_is_read_back(t);
    assert(split_doc::text_or_fault(q, path) == Ok::<Seq<char>, Fault>(t));
}

proof fn lemma_three()
    ensures
        text::spec_starts("3.0"@, "3"@),
{
    reveal_strlit("3.0");
    reveal_strlit("3");
    assert("3.0"@.subrange(0, 1) =~= "3"@);
}

#[verifier::rlimit(60)]
proof fn lemma_already(q: Seq<Part>, e: Found, now: Seq<char>)
    requires
        split_doc::package_text(q) == Ok::<Found, Fault>(e),
        text::spec_starts(e.book.version, "3"@),
    ensures
        upgrade::spec_upgrade_to_epub3(q, now).0 matches Err(f) && f matches Fault::Said(kind, _)
            && kind == ErrorKind::InvalidInput,
        upgrade::spec_upgrade_to_epub3(q, now).1 == q,
{
}

/// The container and the package document are where they were while the upgrade is
/// staged.
proof fn lemma_staged_members(p: Seq<Part>, d: Found, now: Seq<char>)
    requires
        split_doc::package_text(p) == Ok::<Found, Fault>(d),
        staged(p, d, now) is Some,
    ensures
        edit::spec_opf_path(staged(p, d, now)->0.p) == Ok::<Seq<char>, Fault>(d.path),
        edit::spec_get(staged(p, d, now)->0.p, d.path) is Some,
{
    let m = upgrade::spec_upgrade_metadata(d.text, upgrade::given_uid(d.book), now);
    let log = upgrade::noted_to(edit::no_changes(), m.notes, m.notes.len() as int);
    let v = manifest::spec_members(p)->Ok_0;
    let (t, n) = upgrade::declared_from(p, v, m.cover, upgrade::version_set(m.text), 0, 0)->Ok_0;
    let s = Stage {
        p,
        log: upgrade::fonts_noted(t, upgrade::declared_noted(log, n)),
        text: upgrade::fonts_set(t),
    };
    upgrade::lemma_nav_keeps(s, d.book, d.base(), "META-INF/container.xml"@);
    upgrade::lemma_nav_keeps(s, d.book, d.base(), d.path);
}

} // verus!
