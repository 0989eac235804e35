//! `rename_class` rewrites one class name in every stylesheet selector,
//! `<style>` block and `class` attribute of an EPUB.
use vstd::prelude::*;

use crate::css;
use crate::edit;
use crate::manifest;
use crate::markup;
use crate::package;
use crate::split_doc;
use crate::text;
use crate::archive::Part;
use crate::codec::bytes_of;
use crate::edit::{Changes, EpubPackage, Log};
use crate::error::{Error, ErrorKind, Fault, refuse, refuse_named};
use crate::manifest::{Listed, Member, MemberRole, members};
use crate::markup::{Tok, Token, class_list, set_attr, tokens_of};
use crate::package::member_text;
use crate::text::{
    add_text, ascii_alnum, ascii_alpha, chars_of, copy, decimal_of_sum, has, join, list_has, put,
    put_str, same, str_is, string_of, strs_have, trim, trim_start_char,
};

verus! {

// ---------------------------------------------------------------- names

/// A character that can start a class name.
pub open spec fn starts_name(c: char) -> bool {
    text::is_ascii_alpha(c) || c == '_' || c == '-' || c as u32 >= 128
}

/// A character that can stand in a class name.
pub open spec fn in_name(c: char) -> bool {
    text::is_ascii_alnum(c) || c == '_' || c == '-' || c as u32 >= 128
}

/// A valid class name.
pub open spec fn spec_valid_identifier(s: Seq<char>) -> bool {
    s.len() > 0 && starts_name(s[0]) && forall|i: int| 1 <= i < s.len() ==> in_name(#[trigger] s[i])
}

fn valid_identifier(s: &[char]) -> (r: bool)
    ensures
        r == spec_valid_identifier(s@),
{
    if s.len() == 0 {
        return false;
    }
    let c = s[0];
    if !(ascii_alpha(c) || c == '_' || c == '-' || c as u32 >= 128) {
        return false;
    }
    let mut i: usize = 1;
    while i < s.len()
        invariant
            1 <= i <= s@.len(),
            forall|k: int| 1 <= k < i ==> in_name(#[trigger] s@[k]),
        decreases s@.len() - i,
    {
        let c = s[i];
        if !(ascii_alnum(c) || c == '_' || c == '-' || c as u32 >= 128) {
            assert(!in_name(s@[i as int]));
            return false;
        }
        i = i + 1;
    }
    true
}

// ---------------------------------------------------------------- one document

/// The first `n` classes, `from` as `to`, each once.
pub open spec fn renamed_to(v: Seq<Seq<char>>, from: Seq<char>, to: Seq<char>, n: int) -> Seq<Seq<char>>
    decreases n,
{
    if n <= 0 {
        Seq::empty()
    } else {
        let before = renamed_to(v, from, to, n - 1);
        let c = if v[n - 1] == from {
            to
        } else {
            v[n - 1]
        };
        if before.contains(c) {
            before
        } else {
            before.push(c)
        }
    }
}

/// The tag with the class `from` as `to`.
pub open spec fn tag_renamed(tag: Seq<char>, from: Seq<char>, to: Seq<char>) -> Seq<char> {
    let v = markup::spec_class_list(tag);
    markup::spec_set_attr(
        tag,
        "class"@,
        Some(text::spec_join(renamed_to(v, from, to, v.len() as int), " "@)),
    )
}

/// A stylesheet has a rule for the class.
pub open spec fn css_defines(css: Seq<char>, class: Seq<char>) -> bool {
    css::spec_rename_class(css, class, class).1 > 0
}

/// A document in the course of a renaming: what is written, how many elements
/// and selectors were renamed, whether a style block has a rule for the new
/// name, and whether a style block is open.
#[verifier::ext_equal]
pub struct Renaming {
    pub out: Seq<char>,
    pub elements: int,
    pub rules: int,
    pub defines: bool,
    pub in_style: bool,
}

/// The renaming once a token is met.
pub open spec fn token_renamed(
    t: Seq<char>,
    k: Token,
    from: Seq<char>,
    to: Seq<char>,
    s: Renaming,
) -> Renaming {
    let raw = t.subrange(k.start(), k.end());
    match k {
        Token::Text { .. } => if s.in_style {
            let (css, n) = css::spec_rename_class(raw, from, to);
            Renaming {
                out: s.out + css,
                rules: s.rules + n,
                defines: s.defines || css_defines(raw, to),
                ..s
            }
        } else {
            Renaming { out: s.out + raw, ..s }
        },
        Token::Tag { name, closing, self_closing, .. } => {
            let in_style = if name == "style"@ {
                !closing && !self_closing
            } else {
                s.in_style
            };
            if closing || !markup::spec_class_list(raw).contains(from) {
                Renaming { out: s.out + raw, in_style, ..s }
            } else {
                Renaming {
                    out: s.out + tag_renamed(raw, from, to),
                    elements: s.elements + 1,
                    in_style,
                    ..s
                }
            }
        },
    }
}

/// The renaming of the first `n` tokens.
pub open spec fn tokens_renamed(
    t: Seq<char>,
    v: Seq<Token>,
    from: Seq<char>,
    to: Seq<char>,
    n: int,
) -> Renaming
    decreases n,
{
    if n <= 0 {
        Renaming {
            out: Seq::empty(),
            elements: 0,
            rules: 0,
            defines: false,
            in_style: false,
        }
    } else {
        token_renamed(t, v[n - 1], from, to, tokens_renamed(t, v, from, to, n - 1))
    }
}

/// A document with the class `from` as `to`.
pub open spec fn spec_rename_in_document(t: Seq<char>, from: Seq<char>, to: Seq<char>) -> Renaming {
    let v = markup::spec_tokens(t);
    tokens_renamed(t, v, from, to, v.len() as int)
}

fn renamed_classes(v: &Vec<String>, from: &[char], to: &[char]) -> (r: Vec<Vec<char>>)
    ensures
        text::texts(r@) == renamed_to(text::strs(v@), from@, to@, v@.len() as int),
{
    let ghost all = text::strs(v@);
    let mut out: Vec<Vec<char>> = Vec::new();
    assert(text::texts(out@) =~= Seq::<Seq<char>>::empty());
    let mut i: usize = 0;
    while i < v.len()
        invariant
            i <= v@.len(),
            all == text::strs(v@),
            text::texts(out@) == renamed_to(all, from@, to@, i as int),
        decreases v@.len() - i,
    {
        assert(all[i as int] == v@[i as int]@);
        let c = chars_of(&v[i]);
        let c = if same(&c, from) {
            copy(to)
        } else {
            c
        };
        if !list_has(&out, &c) {
            add_text(&mut out, c);
        }
        i = i + 1;
    }
    out
}

fn rename_in_document(text: &str, from: &str, to: &str) -> (r: (String, usize, usize, bool))
    ensures
        ({
            let s = spec_rename_in_document(text@, from@, to@);
            r.0@ == s.out && r.1 == s.elements && r.2 == s.rules && r.3 == s.defines
        }),
{
    let t = chars_of(text);
    let from_chars = chars_of(from);
    let to_chars = chars_of(to);
    let v = tokens_of(&t);
    proof {
        markup::tokens_tile_the_text(t@);
        markup::lemma_tiles_bound(markup::spec_tokens(t@), 0, t@.len() as int);
    }
    let ghost ks = markup::spec_tokens(t@);
    let mut out: Vec<char> = Vec::new();
    let mut elements: usize = 0;
    let mut rules: usize = 0;
    let mut defines = false;
    let mut in_style = false;
    let mut done: usize = 0;
    let mut i: usize = 0;
    while i < v.len()
        invariant
            i <= v@.len(),
            ks == markup::spec_tokens(t@),
            markup::toks(v@) == ks,
            t@ == text@,
            from_chars@ == from@,
            to_chars@ == to@,
            markup::tiles(ks, 0, t@.len() as int),
            forall|k: int|
                0 <= k < ks.len() ==> 0 <= (#[trigger] ks[k]).start() && ks[k].end() <= t@.len()
                    && ks[k].start() < ks[k].end(),
            elements <= i,
            rules <= done <= t@.len(),
            i == 0 ==> done == 0,
            i > 0 ==> done == ks[i - 1].end(),
            tokens_renamed(t@, ks, from@, to@, i as int) == (Renaming {
                out: out@,
                elements: elements as int,
                rules: rules as int,
                defines,
                in_style,
            }),
        decreases v@.len() - i,
    {
        assert(ks[i as int] == v@[i as int]@);
        assert(done == ks[i as int].start()) by {
            if i > 0 {
                assert(ks[i - 1].end() == ks[i as int].start());
            }
        }
        match &v[i] {
            Tok::Text { start, end } => {
                let raw = &t[*start..*end];
                if in_style {
                    let css = string_of(raw);
                    if css::rename_class(&css, to, to).1 > 0 {
                        defines = true;
                    }
                    let (renamed, n) = css::rename_class(&css, from, to);
                    rules = rules + n;
                    put_str(&mut out, &renamed);
                } else {
                    put(&mut out, raw);
                }
                done = *end;
            },
            Tok::Tag { start, end, name, closing, self_closing } => {
                let raw = &t[*start..*end];
                if str_is(name, "style") {
                    in_style = !*closing && !*self_closing;
                }
                let tag = string_of(raw);
                let classes = class_list(&tag);
                if *closing || !strs_have(&classes, &from_chars) {
                    put(&mut out, raw);
                } else {
                    assert(text::strs(classes@).len() == classes@.len());
                    elements = elements + 1;
                    let list = renamed_classes(&classes, &from_chars, &to_chars);
                    put_str(
                        &mut out,
                        &set_attr(&tag, "class", Some(&string_of(&join(&list, " ")))),
                    );
                }
                done = *end;
            },
        }
        i = i + 1;
    }
    (string_of(&out), elements, rules, defines)
}

// ---------------------------------------------------------------- a package

/// A package in the course of a renaming: its members, the changes so far, how
/// many elements and selectors were renamed, and whether a rule for the new name
/// was met.
#[verifier::ext_equal]
pub struct Tally {
    pub p: Seq<Part>,
    pub log: Log,
    pub elements: int,
    pub rules: int,
    pub merged: bool,
}

/// The renaming once a listed member is met.
pub open spec fn member_renamed(m: Listed, from: Seq<char>, to: Seq<char>, s: Tally) -> Tally {
    match package::spec_text(s.p, m.path) {
        Some(t) if text::spec_contains(t, from) => if m.role == MemberRole::Style {
            let (out, n) = css::spec_rename_class(t, from, to);
            let met = Tally { merged: s.merged || css_defines(t, to), ..s };
            if n > 0 {
                Tally {
                    p: edit::spec_replace(s.p, m.path, vstd::utf8::encode_utf8(out)),
                    log: s.log.touched(m.path),
                    rules: s.rules + n,
                    ..met
                }
            } else {
                met
            }
        } else if m.role == MemberRole::Text || m.role == MemberRole::Nav {
            let d = spec_rename_in_document(t, from, to);
            let met = Tally { merged: s.merged || d.defines, ..s };
            if d.elements + d.rules > 0 {
                Tally {
                    p: edit::spec_replace(s.p, m.path, vstd::utf8::encode_utf8(d.out)),
                    log: s.log.touched(m.path),
                    elements: s.elements + d.elements,
                    rules: s.rules + d.rules,
                    ..met
                }
            } else {
                met
            }
        } else {
            s
        },
        _ => s,
    }
}

/// The renaming of the first `n` listed members.
pub open spec fn members_renamed(
    p: Seq<Part>,
    v: Seq<Listed>,
    from: Seq<char>,
    to: Seq<char>,
    n: int,
) -> Tally
    decreases n,
{
    if n <= 0 {
        Tally { p, log: edit::no_changes(), elements: 0, rules: 0, merged: false }
    } else {
        member_renamed(v[n - 1], from, to, members_renamed(p, v, from, to, n - 1))
    }
}

/// A class name as it is given: without white space around it and dots before
/// it.
pub open spec fn bare_name(s: Seq<char>) -> Seq<char> {
    text::spec_trim_start_char(text::spec_trim(s), '.')
}

/// Why a class cannot be renamed so.
pub open spec fn names_refused(from: Seq<char>, to: Seq<char>) -> Option<Fault> {
    if from.len() == 0 || to.len() == 0 {
        Some(Fault::Said(ErrorKind::InvalidInput, "a class name is empty"@))
    } else if !spec_valid_identifier(to) {
        Some(Fault::Said(ErrorKind::InvalidInput, ""@ + to + " is not a valid class name"@))
    } else if from == to {
        Some(Fault::Said(ErrorKind::InvalidInput, "the new name is the old name"@))
    } else {
        None
    }
}

/// The changes with what a renaming notes at its end.
pub open spec fn renaming_noted(s: Tally, to: Seq<char>) -> Log {
    let log = s.log.noted(
        text::decimal(s.elements as nat) + " element(s) and "@ + text::decimal(s.rules as nat)
            + " selector(s) now use "@ + to,
    );
    if s.merged {
        log.noted(to + " was already defined; the two classes now share its rules"@)
    } else {
        log
    }
}

/// What comes back of a renaming, and the package then.
pub open spec fn spec_rename_class(p: Seq<Part>, from: Seq<char>, to: Seq<char>) -> (
    Result<Log, Fault>,
    Seq<Part>,
) {
    let old_name = bare_name(from);
    let new_name = bare_name(to);
    match names_refused(old_name, new_name) {
        Some(f) => (Err(f), p),
        None => match manifest::spec_members(p) {
            Err(f) => (Err(f), p),
            Ok(v) => {
                let s = members_renamed(p, v, old_name, new_name, v.len() as int);
                if s.log.changed.len() == 0 {
                    (
                        Err(
                            Fault::Said(
                                ErrorKind::NotFound,
                                "no rule or element uses the class "@ + old_name + ""@,
                            ),
                        ),
                        s.p,
                    )
                } else {
                    (Ok(renaming_noted(s, new_name)), s.p)
                }
            },
        },
    }
}

proof fn lemma_untouched(p: Seq<Part>, v: Seq<Listed>, from: Seq<char>, to: Seq<char>, n: int)
    ensures
        members_renamed(p, v, from, to, n).log.changed.len() == 0 ==> members_renamed(
            p,
            v,
            from,
            to,
            n,
        ).p == p,
        members_renamed(p, v, from, to, n).log.added.len() == 0,
        members_renamed(p, v, from, to, n).log.removed.len() == 0,
        members_renamed(p, v, from, to, n).log.notes.len() == 0,
    decreases n,
{
    if n > 0 {
        lemma_untouched(p, v, from, to, n - 1);
    }
}

/// A renaming that is refused leaves the package as it was.
pub proof fn a_refused_renaming_changes_nothing(p: Seq<Part>, from: Seq<char>, to: Seq<char>)
    ensures
        spec_rename_class(p, from, to).0 is Err ==> spec_rename_class(p, from, to).1 == p,
{
    if let Ok(v) = manifest::spec_members(p) {
        lemma_untouched(p, v, bare_name(from), bare_name(to), v.len() as int);
    }
}

fn rename_members(
    pkg: &mut EpubPackage,
    changes: &mut Changes,
    v: &Vec<Member>,
    from: &str,
    to: &str,
) -> (r: (u128, u128, bool))
    requires
        old(changes)@ == edit::no_changes(),
    ensures
        members_renamed(
            old(pkg)@,
            manifest::listed(v@),
            from@,
            to@,
            v@.len() as int,
        ) == (Tally {
            p: final(pkg)@,
            log: final(changes)@,
            elements: r.0 as int,
            rules: r.1 as int,
            merged: r.2,
        }),
{
    let ghost all = manifest::listed(v@);
    let from_chars = chars_of(from);
    let mut elements: u128 = 0;
    let mut rules: u128 = 0;
    let mut merged = false;
    let mut i: usize = 0;
    while i < v.len()
        invariant
            i <= v@.len(),
            all == manifest::listed(v@),
            from_chars@ == from@,
            elements <= i * (usize::MAX as int),
            rules <= i * (usize::MAX as int),
            members_renamed(old(pkg)@, all, from@, to@, i as int) == (Tally {
                p: pkg@,
                log: changes@,
                elements: elements as int,
                rules: rules as int,
                merged,
            }),
        decreases v@.len() - i,
    {
        assert(all[i as int] == v@[i as int]@);
        proof {
            text::lemma_count(i as int, elements as int, 0);
            text::lemma_count(i as int, rules as int, 0);
        }
        let m = &v[i];
        if let Some(text) = member_text(pkg, &m.path) {
            if has(&chars_of(&text), &from_chars) {
                if m.role == MemberRole::Style {
                    if css::rename_class(&text, to, to).1 > 0 {
                        merged = true;
                    }
                    let (out, n) = css::rename_class(&text, from, to);
                    if n > 0 {
                        proof {
                            text::lemma_count(i as int, rules as int, n as int);
                        }
                        rules = rules + n as u128;
                        pkg.replace(&m.path, bytes_of(&out));
                        changes.touch(&m.path);
                    }
                } else if m.role == MemberRole::Text || m.role == MemberRole::Nav {
                    let (out, e, n, defines) = rename_in_document(&text, from, to);
                    if defines {
                        merged = true;
                    }
                    if e > 0 || n > 0 {
                        proof {
                            text::lemma_count(i as int, elements as int, e as int);
                            text::lemma_count(i as int, rules as int, n as int);
                        }
                        elements = elements + e as u128;
                        rules = rules + n as u128;
                        pkg.replace(&m.path, bytes_of(&out));
                        changes.touch(&m.path);
                    }
                }
            }
        }
        i = i + 1;
    }
    (elements, rules, merged)
}

fn note_renaming(changes: &mut Changes, elements: u128, rules: u128, merged: bool, to: &str)
    ensures
        final(changes)@ == renaming_noted(
            Tally {
                p: Seq::empty(),
                log: old(changes)@,
                elements: elements as int,
                rules: rules as int,
                merged,
            },
            to@,
        ),
{
    let mut note = decimal_of_sum(elements);
    put_str(&mut note, " element(s) and ");
    put(&mut note, &decimal_of_sum(rules));
    put_str(&mut note, " selector(s) now use ");
    put_str(&mut note, to);
    changes.note(&string_of(&note));
    if merged {
        let mut more = chars_of(to);
        put_str(&mut more, " was already defined; the two classes now share its rules");
        changes.note(&string_of(&more));
    }
}

/// Renames a class in every selector, style block and `class` attribute of the
/// package. A leading dot of either name does not count.
pub fn rename_class(pkg: &mut EpubPackage, from: &str, to: &str) -> (r: Result<Changes, Error>)
    ensures
        split_doc::outcome(r, final(pkg)@) == spec_rename_class(old(pkg)@, from@, to@),
        r is Err ==> final(pkg)@ == old(pkg)@,
{
    proof {
        a_refused_renaming_changes_nothing(pkg@, from@, to@);
    }
    let old_chars = chars_of(from);
    let new_chars = chars_of(to);
    let old_name = string_of(trim_start_char(trim(&old_chars), '.'));
    let new_name = string_of(trim_start_char(trim(&new_chars), '.'));
    if str_is(&old_name, "") || str_is(&new_name, "") {
        proof {
            reveal_strlit("");
        }
        return Err(refuse(ErrorKind::InvalidInput, "a class name is empty"));
    }
    proof {
        reveal_strlit("");
        assert(old_name@.len() > 0) by {
            if old_name@.len() == 0 {
                assert(old_name@ =~= ""@);
            }
        }
        assert(new_name@.len() > 0) by {
            if new_name@.len() == 0 {
                assert(new_name@ =~= ""@);
            }
        }
    }
    if !valid_identifier(&chars_of(&new_name)) {
        return Err(
            refuse_named(ErrorKind::InvalidInput, "", &new_name, " is not a valid class name"),
        );
    }
    if str_is(&old_name, &new_name) {
        return Err(refuse(ErrorKind::InvalidInput, "the new name is the old name"));
    }
    let v = match members(pkg) {
        Ok(v) => v,
        Err(e) => {
            return Err(e);
        },
    };
    assert(manifest::listed(v@).len() == v@.len());
    let mut changes = Changes::default();
    let (elements, rules, merged) = rename_members(pkg, &mut changes, &v, &old_name, &new_name);
    proof {
        lemma_untouched(
            old(pkg)@,
            manifest::listed(v@),
            old_name@,
            new_name@,
            v@.len() as int,
        );
    }
    if changes.is_empty() {
        return Err(
            refuse_named(
                ErrorKind::NotFound,
                "no rule or element uses the class ",
                &old_name,
                "",
            ),
        );
    }
    note_renaming(&mut changes, elements, rules, merged, &new_name);
    Ok(changes)
}

proof fn lemma_renaming_accounted(
    p: Seq<Part>,
    v: Seq<Listed>,
    from: Seq<char>,
    to: Seq<char>,
    n: int,
)
    ensures
        edit::accounts_for(
            members_renamed(p, v, from, to, n).log,
            p,
            members_renamed(p, v, from, to, n).p,
        ),
    decreases n,
{
    if n > 0 {
        lemma_renaming_accounted(p, v, from, to, n - 1);
        let s = members_renamed(p, v, from, to, n - 1);
        let after = members_renamed(p, v, from, to, n);
        let path = v[n - 1].path;
        assert forall|data: Seq<u8>| edit::accounts_for(
            s.log.touched(path),
            p,
            #[trigger] edit::spec_replace(s.p, path, data),
        ) by {
            edit::lemma_accounts_replace(s.log, p, s.p, path, data);
        }
        assert(after.p == s.p && after.log == s.log || (after.log == s.log.touched(path) && exists|
            data: Seq<u8>,
        | after.p == #[trigger] edit::spec_replace(s.p, path, data)));
    }
}

/// A renaming accounts for what it does: a member that the changes do not name
/// keeps its content.
pub proof fn a_renaming_accounts_for_its_changes(p: Seq<Part>, from: Seq<char>, to: Seq<char>)
    ensures
        spec_rename_class(p, from, to).0 matches Ok(log) ==> edit::accounts_for(
            log,
            p,
            spec_rename_class(p, from, to).1,
        ),
{
    if let Ok(v) = manifest::spec_members(p) {
        let from = bare_name(from);
        let to = bare_name(to);
        let s = members_renamed(p, v, from, to, v.len() as int);
        lemma_renaming_accounted(p, v, from, to, v.len() as int);
        let note = text::decimal(s.elements as nat) + " element(s) and "@ + text::decimal(
            s.rules as nat,
        ) + " selector(s) now use "@ + to;
        edit::lemma_accounts_note(s.log, p, s.p, note);
        edit::lemma_accounts_note(
            s.log.noted(note),
            p,
            s.p,
            to + " was already defined; the two classes now share its rules"@,
        );
    }
}

/// A renamed list of classes holds the new name where it held the old or the new
/// one, not the old one, and every other class as before; none stands in it
/// twice.
pub proof fn a_renamed_list_holds_the_new_name(
    v: Seq<Seq<char>>,
    from: Seq<char>,
    to: Seq<char>,
    n: int,
)
    requires
        from != to,
        0 <= n <= v.len(),
    ensures
        renamed_to(v, from, to, n).no_duplicates(),
        forall|c: Seq<char>| #[trigger]
            renamed_to(v, from, to, n).contains(c) <==> if c == to {
                v.take(n).contains(from) || v.take(n).contains(to)
            } else {
                c != from && v.take(n).contains(c)
            },
    decreases n,
{
    if n > 0 {
        a_renamed_list_holds_the_new_name(v, from, to, n - 1);
        let before = renamed_to(v, from, to, n - 1);
        let after = renamed_to(v, from, to, n);
        let x = v[n - 1];
        let y = if x == from {
            to
        } else {
            x
        };
        assert(v.take(n) =~= v.take(n - 1).push(x));
        assert forall|c: Seq<char>| #[trigger] v.take(n).contains(c) <==> v.take(n - 1).contains(c)
            || c == x by {
            lemma_push_contains(v.take(n - 1), x, c);
        }
        assert forall|c: Seq<char>| #[trigger] after.contains(c) <==> before.contains(c) || c
            == y by {
            if !before.contains(y) {
                lemma_push_contains(before, y, c);
            }
        }
        assert forall|c: Seq<char>| #[trigger] after.contains(c) <==> if c == to {
            v.take(n).contains(from) || v.take(n).contains(to)
        } else {
            c != from && v.take(n).contains(c)
        } by {
            assert(before.contains(c) <==> if c == to {
                v.take(n - 1).contains(from) || v.take(n - 1).contains(to)
            } else {
                c != from && v.take(n - 1).contains(c)
            });
            assert(v.take(n).contains(c) <==> v.take(n - 1).contains(c) || c == x);
            assert(v.take(n).contains(from) <==> v.take(n - 1).contains(from) || from == x);
            assert(v.take(n).contains(to) <==> v.take(n - 1).contains(to) || to == x);
        }
    } else {
        assert(v.take(0) =~= Seq::<Seq<char>>::empty());
    }
}

proof fn lemma_push_contains(v: Seq<Seq<char>>, x: Seq<char>, c: Seq<char>)
    ensures
        v.push(x).contains(c) <==> v.contains(c) || c == x,
{
    let w = v.push(x);
    if w.contains(c) {
        let k = choose|k: int| 0 <= k < w.len() && w[k] == c;
        if k < v.len() {
            assert(v[k] == c);
        }
    }
    if v.contains(c) {
        let k = choose|k: int| 0 <= k < v.len() && v[k] == c;
        assert(w[k] == c);
    }
    if c == x {
        assert(w[v.len() as int] == c);
    }
}

} // verus!
