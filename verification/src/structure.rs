//! Where an EPUB's parts sit, as absolute zip paths.
//!
//! An EPUB writes every reference relative to the document that makes it, while
//! anything that reasons about the book as a whole needs one vocabulary in which
//! two references to the same file are equal. That vocabulary is the zip entry
//! name, and this module reads hrefs into it and writes them out of it.
use vstd::prelude::*;

use crate::codec;
use crate::edit;
use crate::markup;
use crate::text;
use crate::toc;
use crate::codec::percent_decode;
use crate::markup::{attr_value, unescape};
use crate::text::{
    add_text, chars_of, copy, find_char, find_str, is, join, lowered, put_str, replace_str,
    rfind_char, same, split, str_is, string_of, strs_have,
};
use crate::toc::strip_tags;

verus! {

/// The fewest links that make a page the contents page of a section that is known
/// to be one.
pub const MIN_SECTION_CONTENTS_LINKS: usize = 2;

/// The directory part of a zip path, with a trailing `/` (empty at the root).
pub open spec fn spec_dir_of(path: Seq<char>) -> Seq<char> {
    match text::spec_rfind_char(path, '/', path.len() as int) {
        Some(k) => path.subrange(0, k + 1),
        None => Seq::empty(),
    }
}

/// The directory part of a zip path, with a trailing `/` (empty at the root).
pub fn dir_of(path: &str) -> (r: String)
    ensures
        r@ == spec_dir_of(path@),
{
    let t = chars_of(path);
    match rfind_char(&t, '/', t.len()) {
        Some(k) => string_of(&t[0..k + 1]),
        None => String::new(),
    }
}

/// The first position from `i` on that holds `#` or `?`, or the end.
pub open spec fn path_end(s: Seq<char>, i: int) -> int
    decreases s.len() - i,
{
    if 0 <= i < s.len() && s[i] != '#' && s[i] != '?' {
        path_end(s, i + 1)
    } else {
        i
    }
}

/// The last segment of a path.
pub open spec fn last_segment(s: Seq<char>) -> Seq<char> {
    match text::spec_rfind_char(s, '/', s.len() as int) {
        Some(k) => s.subrange(k + 1, s.len() as int),
        None => s,
    }
}

/// The part of a path behind its last slash.
pub fn last_part(path: &str) -> (r: String)
    ensures
        r@ == last_segment(path@),
{
    let t = chars_of(path);
    match rfind_char(&t, '/', t.len()) {
        Some(k) => string_of(&t[k + 1..t.len()]),
        None => string_of(&t),
    }
}

/// The filename of an href in small letters: without `#fragment` and `?query`,
/// the last path segment, `%20` read as a space.
pub open spec fn spec_basename(href: Seq<char>) -> Seq<char> {
    text::spec_lower(
        text::spec_replace(
            last_segment(href.subrange(0, path_end(href, 0))),
            "%20"@,
            " "@,
        ),
    )
}

/// The filename of an href in small letters: the form in which two references
/// to one document are compared.
pub fn basename(href: &str) -> (r: String)
    ensures
        r@ == spec_basename(href@),
{
    let t = chars_of(href);
    let mut e: usize = 0;
    while e < t.len() && t[e] != '#' && t[e] != '?'
        invariant
            e <= t@.len(),
            path_end(t@, 0) == path_end(t@, e as int),
        decreases t@.len() - e,
    {
        e = e + 1;
    }
    let path = &t[0..e];
    let file = match rfind_char(path, '/', path.len()) {
        Some(k) => &path[k + 1..path.len()],
        None => path,
    };
    assert(file@ =~= last_segment(path@));
    proof {
        reveal_strlit("%20");
    }
    string_of(&lowered(&replace_str(file, "%20", " ")))
}

/// Where the fragment of an href starts: at its first `#`, or at the end.
pub open spec fn fragment_at(href: Seq<char>) -> int {
    match text::spec_find_char(href, '#', 0) {
        Some(k) => k,
        None => href.len() as int,
    }
}

/// The path of an href, and its fragment with the leading `#` (empty where
/// there is none).
pub open spec fn spec_split_fragment(href: Seq<char>) -> (Seq<char>, Seq<char>) {
    let k = fragment_at(href);
    (href.subrange(0, k), href.subrange(k, href.len() as int))
}

/// The path of an href, and its fragment with the leading `#`.
pub fn split_fragment(href: &str) -> (r: (String, String))
    ensures
        (r.0@, r.1@) == spec_split_fragment(href@),
{
    let t = chars_of(href);
    let k = match find_char(&t, '#', 0) {
        Some(k) => k,
        None => t.len(),
    };
    (string_of(&t[0..k]), string_of(&t[k..t.len()]))
}

/// The href without its fragment: the document it opens.
pub fn strip_fragment(href: &str) -> (r: String)
    ensures
        r@ == spec_split_fragment(href@).0,
{
    split_fragment(href).0
}

/// The first `n` of `v` that are not empty.
pub open spec fn nonempty_to(v: Seq<Seq<char>>, n: int) -> Seq<Seq<char>>
    decreases n,
{
    if n <= 0 {
        Seq::empty()
    } else if v[n - 1].len() == 0 {
        nonempty_to(v, n - 1)
    } else {
        nonempty_to(v, n - 1).push(v[n - 1])
    }
}

/// The segments of a path.
pub open spec fn segments(path: Seq<char>) -> Seq<Seq<char>> {
    let v = text::spec_split(path, '/');
    nonempty_to(v, v.len() as int)
}

fn segments_of(path: &[char]) -> (r: Vec<Vec<char>>)
    ensures
        text::texts(r@) == segments(path@),
{
    let v = split(path, '/');
    let mut out: Vec<Vec<char>> = Vec::new();
    assert(text::texts(out@) =~= Seq::<Seq<char>>::empty());
    let mut i: usize = 0;
    while i < v.len()
        invariant
            i <= v@.len(),
            text::texts(out@) == nonempty_to(text::texts(v@), i as int),
        decreases v@.len() - i,
    {
        assert(text::texts(v@)[i as int] == v@[i as int]@);
        if v[i].len() > 0 {
            add_text(&mut out, copy(&v[i]));
        }
        i = i + 1;
    }
    out
}

/// A directory's segments once the path segment `seg` is followed: `.` and an
/// empty segment stay, `..` leaves the last one.
pub open spec fn follow(stack: Seq<Seq<char>>, seg: Seq<char>) -> Seq<Seq<char>> {
    if seg.len() == 0 || seg == "."@ {
        stack
    } else if seg == ".."@ {
        if stack.len() > 0 {
            stack.drop_last()
        } else {
            stack
        }
    } else {
        stack.push(seg)
    }
}

/// A directory's segments once the first `n` of `segs` are followed.
pub open spec fn follow_to(stack: Seq<Seq<char>>, segs: Seq<Seq<char>>, n: int) -> Seq<Seq<char>>
    decreases n,
{
    if n <= 0 {
        stack
    } else {
        follow(follow_to(stack, segs, n - 1), segs[n - 1])
    }
}

/// The absolute zip path that `href` names from the directory `base`, `.` and
/// `..` followed and percent-encoded bytes read, with its fragment. An href that
/// is a fragment alone stands for itself.
pub open spec fn spec_resolve_href(base: Seq<char>, href: Seq<char>) -> Seq<char> {
    let (path, frag) = spec_split_fragment(href);
    if path.len() == 0 {
        href
    } else {
        let segs = text::spec_split(codec::spec_percent_decode(path), '/');
        text::spec_join(follow_to(segments(base), segs, segs.len() as int), "/"@) + frag
    }
}

/// The absolute zip path that `href` names from the directory `base_dir`.
pub fn resolve_href(base_dir: &str, href: &str) -> (r: String)
    ensures
        r@ == spec_resolve_href(base_dir@, href@),
{
    let (path, frag) = split_fragment(href);
    let t = chars_of(&path);
    if t.len() == 0 {
        return string_of(&chars_of(href));
    }
    let segs = split(&chars_of(&percent_decode(&path)), '/');
    let mut stack = segments_of(&chars_of(base_dir));
    let mut i: usize = 0;
    while i < segs.len()
        invariant
            i <= segs@.len(),
            text::texts(stack@) == follow_to(
                segments(base_dir@),
                text::texts(segs@),
                i as int,
            ),
        decreases segs@.len() - i,
    {
        assert(text::texts(segs@)[i as int] == segs@[i as int]@);
        let seg = &segs[i];
        if seg.len() == 0 || is(seg, ".") {
        } else if is(seg, "..") {
            if stack.len() > 0 {
                let ghost before = stack@;
                stack.pop();
                assert(text::texts(stack@) =~= text::texts(before).drop_last());
            }
        } else {
            add_text(&mut stack, copy(seg));
        }
        i = i + 1;
    }
    let mut out = join(&stack, "/");
    put_str(&mut out, &frag);
    string_of(&out)
}

/// How many segments `a` and `b` share at their start, from `i` on.
pub open spec fn shared(a: Seq<Seq<char>>, b: Seq<Seq<char>>, i: int) -> int
    decreases a.len() - i,
{
    if 0 <= i < a.len() && i < b.len() && a[i] == b[i] {
        shared(a, b, i + 1)
    } else {
        i
    }
}

/// `n` times the segment `..`.
pub open spec fn ups(n: int) -> Seq<Seq<char>> {
    Seq::new(n as nat, |i: int| ".."@)
}

/// The segments that lead from a directory to a file.
pub open spec fn way(from: Seq<Seq<char>>, to: Seq<Seq<char>>) -> Seq<Seq<char>> {
    let k = shared(from, to.drop_last(), 0);
    ups(from.len() - k) + to.subrange(k, to.len() as int)
}

/// An absolute zip path written as an href relative to `from_dir`.
pub open spec fn spec_relativize(from_dir: Seq<char>, target: Seq<char>) -> Seq<char> {
    let (path, frag) = spec_split_fragment(target);
    let to = segments(path);
    if to.len() == 0 {
        path + frag
    } else {
        text::spec_join(way(segments(from_dir), to), "/"@) + frag
    }
}

/// An absolute zip path written as an href relative to `from_dir`.
pub fn relativize(from_dir: &str, abs_target: &str) -> (r: String)
    ensures
        r@ == spec_relativize(from_dir@, abs_target@),
{
    let (path, frag) = split_fragment(abs_target);
    let from = segments_of(&chars_of(from_dir));
    let to = segments_of(&chars_of(&path));
    if to.len() == 0 {
        let mut out = chars_of(&path);
        put_str(&mut out, &frag);
        return string_of(&out);
    }
    let ghost a = text::texts(from@);
    let ghost b = text::texts(to@).drop_last();
    let mut k: usize = 0;
    while k < from.len() && k < to.len() - 1 && same(&from[k], &to[k])
        invariant
            k <= from@.len(),
            k < to@.len(),
            a == text::texts(from@),
            b == text::texts(to@).drop_last(),
            shared(a, b, 0) == shared(a, b, k as int),
        decreases from@.len() - k,
    {
        assert(a[k as int] == from@[k as int]@ && b[k as int] == to@[k as int]@);
        k = k + 1;
    }
    assert(k < from@.len() && k < to@.len() - 1 ==> a[k as int] == from@[k as int]@ && b[k as int]
        == to@[k as int]@);
    let mut parts: Vec<Vec<char>> = Vec::new();
    let mut i: usize = 0;
    while i < from.len() - k
        invariant
            k <= from@.len(),
            i <= from@.len() - k,
            text::texts(parts@) == ups(i as int),
        decreases from@.len() - i,
    {
        add_text(&mut parts, chars_of(".."));
        assert(text::texts(parts@) =~= ups(i + 1));
        i = i + 1;
    }
    let ghost head = text::texts(parts@);
    let ghost tail = text::texts(to@);
    i = k;
    assert(head + tail.subrange(k as int, k as int) =~= head);
    while i < to.len()
        invariant
            k <= i <= to@.len(),
            tail == text::texts(to@),
            text::texts(parts@) == head + tail.subrange(k as int, i as int),
        decreases to@.len() - i,
    {
        add_text(&mut parts, copy(&to[i]));
        assert(tail[i as int] == to@[i as int]@);
        assert(text::texts(parts@) =~= head + tail.subrange(k as int, i + 1));
        i = i + 1;
    }
    let mut out = join(&parts, "/");
    put_str(&mut out, &frag);
    string_of(&out)
}

/// Segments that name themselves: not empty, not `.` or `..`, and free of the
/// characters that an href gives a meaning to.
pub open spec fn plain(v: Seq<Seq<char>>) -> bool {
    forall|i: int|
        0 <= i < v.len() ==> (#[trigger] v[i]).len() > 0 && v[i] != "."@ && v[i] != ".."@
            && !v[i].contains('/') && !v[i].contains('#') && !v[i].contains('%')
}

proof fn lemma_nonempty_all(v: Seq<Seq<char>>, n: int)
    requires
        0 <= n <= v.len(),
        forall|i: int| 0 <= i < v.len() ==> (#[trigger] v[i]).len() > 0,
    ensures
        nonempty_to(v, n) == v.take(n),
    decreases n,
{
    if n > 0 {
        lemma_nonempty_all(v, n - 1);
        assert(v.take(n) =~= v.take(n - 1).push(v[n - 1]));
    } else {
        assert(v.take(0) =~= Seq::<Seq<char>>::empty());
    }
}

proof fn lemma_split_fragment(path: Seq<char>, frag: Seq<char>)
    requires
        !path.contains('#'),
        frag.len() == 0 || frag[0] == '#',
    ensures
        spec_split_fragment(path + frag) == (path, frag),
{
    let s = path + frag;
    text::lemma_find_char(s, '#', 0);
    match text::spec_find_char(s, '#', 0) {
        Some(k) => {
            if k < path.len() {
                assert(s[k] == path[k]);
                assert(path.contains(path[k]));
            }
            if frag.len() > 0 && k > path.len() {
                assert(s[path.len() as int] == frag[0]);
            }
        },
        None => {
            if frag.len() > 0 {
                assert(s[path.len() as int] == frag[0]);
            }
        },
    }
    let k = fragment_at(s);
    assert(k == path.len());
    assert(s.subrange(0, k) =~= path);
    assert(s.subrange(k, s.len() as int) =~= frag);
}

proof fn lemma_follow_ups(from: Seq<Seq<char>>, segs: Seq<Seq<char>>, n: int)
    requires
        0 <= n <= from.len(),
        n <= segs.len(),
        forall|i: int| 0 <= i < n ==> #[trigger] segs[i] == ".."@,
    ensures
        follow_to(from, segs, n) == from.take(from.len() - n),
    decreases n,
{
    reveal_strlit("..");
    reveal_strlit(".");
    if n > 0 {
        lemma_follow_ups(from, segs, n - 1);
        assert(segs[n - 1] == ".."@);
        assert(".."@ != "."@) by {
            assert(".."@.len() != "."@.len());
        }
        assert(from.take(from.len() - n + 1).drop_last() =~= from.take(from.len() - n));
    } else {
        assert(from.take(from.len() as int) =~= from);
    }
}

proof fn lemma_follow_down(
    from: Seq<Seq<char>>,
    segs: Seq<Seq<char>>,
    u: int,
    n: int,
    base: Seq<Seq<char>>,
)
    requires
        0 <= u <= n <= segs.len(),
        follow_to(from, segs, u) == base,
        forall|i: int|
            u <= i < segs.len() ==> (#[trigger] segs[i]).len() > 0 && segs[i] != "."@ && segs[i]
                != ".."@,
    ensures
        follow_to(from, segs, n) == base + segs.subrange(u, n),
    decreases n,
{
    if n > u {
        lemma_follow_down(from, segs, u, n - 1, base);
        assert(base + segs.subrange(u, n) =~= (base + segs.subrange(u, n - 1)).push(segs[n - 1]));
    } else {
        assert(base + segs.subrange(u, u) =~= base);
    }
}

proof fn lemma_shared(a: Seq<Seq<char>>, b: Seq<Seq<char>>, i: int)
    requires
        0 <= i <= a.len(),
        i <= b.len(),
        forall|k: int| 0 <= k < i ==> a[k] == b[k],
    ensures
        i <= shared(a, b, i) <= a.len(),
        shared(a, b, i) <= b.len(),
        forall|k: int| 0 <= k < shared(a, b, i) ==> a[k] == b[k],
    decreases a.len() - i,
{
    if i < a.len() && i < b.len() && a[i] == b[i] {
        lemma_shared(a, b, i + 1);
    }
}

/// A path written relative to a directory names the same file from there: for
/// every directory, and every target made of plain segments with or without a
/// fragment.
pub proof fn resolving_undoes_relativizing(dir: Seq<char>, to: Seq<Seq<char>>, frag: Seq<char>)
    requires
        to.len() > 0,
        plain(to),
        frag.len() == 0 || frag[0] == '#',
    ensures
        spec_resolve_href(dir, spec_relativize(dir, text::spec_join(to, "/"@) + frag))
            == text::spec_join(to, "/"@) + frag,
{
    reveal_strlit("/");
    reveal_strlit("..");
    assert("/"@ =~= seq!['/']);
    let path = text::spec_join(to, "/"@);
    let target = path + frag;
    text::lemma_join_lacks(to, "/"@, '#', to.len() as int);
    lemma_split_fragment(path, frag);
    text::split_undoes_join(to, '/');
    lemma_nonempty_all(to, to.len() as int);
    assert(to.take(to.len() as int) =~= to);
    assert(segments(path) == to);
    let from = segments(dir);
    let last = to.drop_last();
    let k = shared(from, last, 0);
    lemma_shared(from, last, 0);
    let parts = way(from, to);
    let u = from.len() - k;
    assert(parts.len() == u + to.len() - k);
    assert forall|i: int| 0 <= i < parts.len() implies !(#[trigger] parts[i]).contains('/')
        && !parts[i].contains('#') && !parts[i].contains('%') by {
        if i < u {
            assert(parts[i] == ".."@);
            assert forall|j: int| 0 <= j < parts[i].len() implies parts[i][j] == '.' by {}
        } else {
            assert(parts[i] == to[k + i - u]);
        }
    }
    let href_path = text::spec_join(parts, "/"@);
    text::lemma_join_lacks(parts, "/"@, '#', parts.len() as int);
    text::lemma_join_lacks(parts, "/"@, '%', parts.len() as int);
    lemma_split_fragment(href_path, frag);
    text::split_undoes_join(parts, '/');
    assert(href_path.len() > 0) by {
        if href_path.len() == 0 {
            assert(text::spec_split(href_path, '/') =~= seq![href_path]) by {
                text::lemma_split_none(href_path, '/');
            }
            assert(parts[0].len() == 0);
            if u > 0 {
                assert(parts[0] == ".."@);
            } else {
                assert(parts[0] == to[k]);
            }
        }
    }
    assert forall|i: int| 0 <= i < u implies #[trigger] parts[i] == ".."@ by {}
    lemma_follow_ups(from, parts, u);
    assert forall|i: int| u <= i < parts.len() implies (#[trigger] parts[i]).len() > 0 && parts[i]
        != "."@ && parts[i] != ".."@ by {
        assert(parts[i] == to[k + i - u]);
    }
    lemma_follow_down(from, parts, u, parts.len() as int, from.take(k));
    assert(from.take(k) + parts.subrange(u, parts.len() as int) =~= to) by {
        assert forall|i: int| 0 <= i < k implies from[i] == to[i] by {
            assert(last[i] == to[i]);
        }
    }
}

// ---------------------------------------------------------------- links into the spine

/// The label of a link whose tag ends with the `>` at `g`: tags taken out,
/// entities read.
pub open spec fn link_label(t: Seq<char>, g: int) -> Seq<char> {
    match text::spec_find(t, "</a>"@, g + 1) {
        Some(c) => markup::spec_unescape(toc::spec_strip_tags(t.subrange(g + 1, c))),
        None => Seq::empty(),
    }
}

/// The link whose attributes stand from `a` to the `>` at `g`, where it goes to
/// another document of the spine: its label and the zip path with the fragment.
pub open spec fn link_at(
    t: Seq<char>,
    dir: Seq<char>,
    files: Seq<Seq<char>>,
    own: Seq<char>,
    a: int,
    g: int,
) -> Seq<(Seq<char>, Seq<char>)> {
    match markup::spec_attr_value(t.subrange(a, g), "href"@) {
        Some(href) if spec_basename(href) != own && files.contains(spec_basename(href)) => seq![
            (link_label(t, g), spec_resolve_href(dir, href)),
        ],
        _ => Seq::empty(),
    }
}

/// The links from `i` on to other documents of the spine.
pub open spec fn links_from(
    t: Seq<char>,
    dir: Seq<char>,
    files: Seq<Seq<char>>,
    own: Seq<char>,
    i: int,
) -> Seq<(Seq<char>, Seq<char>)>
    decreases t.len() - i,
{
    match text::spec_find(t, "<a "@, i) {
        Some(p) if 0 <= i <= p => match text::spec_find_char(t, '>', p + 3) {
            Some(g) if p + 3 <= g < t.len() => link_at(t, dir, files, own, p + 3, g) + links_from(
                t,
                dir,
                files,
                own,
                g,
            ),
            _ => Seq::empty(),
        },
        _ => Seq::empty(),
    }
}

/// The label and the zip path of every link that a document makes to another
/// document of the spine: `spine_files` are the filenames of the spine,
/// `self_file` that of the document.
pub fn internal_links(xhtml: &str, doc_dir: &str, spine_files: &Vec<String>, self_file: &str) -> (r:
    Vec<(String, String)>)
    ensures
        edit::pairs(r@) == links_from(
            xhtml@,
            doc_dir@,
            text::strs(spine_files@),
            self_file@,
            0,
        ),
{
    let t = chars_of(xhtml);
    let n = t.len();
    let ghost files = text::strs(spine_files@);
    let mut out: Vec<(String, String)> = Vec::new();
    let mut i: usize = 0;
    proof {
        reveal_strlit("<a ");
        assert(edit::pairs(out@) + links_from(t@, doc_dir@, files, self_file@, 0) =~= links_from(
            t@,
            doc_dir@,
            files,
            self_file@,
            0,
        ));
    }
    loop
        invariant
            n == t@.len(),
            t@ == xhtml@,
            "<a "@.len() == 3,
            i <= n,
            files == text::strs(spine_files@),
            edit::pairs(out@) + links_from(t@, doc_dir@, files, self_file@, i as int)
                == links_from(t@, doc_dir@, files, self_file@, 0),
        decreases n - i,
    {
        let ghost before = edit::pairs(out@);
        let p = match find_str(&t, "<a ", i) {
            Some(p) => p,
            None => {
                assert(before + Seq::<(Seq<char>, Seq<char>)>::empty() =~= before);
                return out;
            },
        };
        let g = match find_char(&t, '>', p + 3) {
            Some(g) => g,
            None => {
                assert(before + Seq::<(Seq<char>, Seq<char>)>::empty() =~= before);
                return out;
            },
        };
        let ghost link = link_at(t@, doc_dir@, files, self_file@, p + 3, g as int);
        let ghost rest = links_from(t@, doc_dir@, files, self_file@, g as int);
        if let Some(href) = attr_value(&string_of(&t[p + 3..g]), "href") {
            let file = basename(&href);
            if !str_is(&file, self_file) && strs_have(spine_files, &chars_of(&file)) {
                let label = match find_str(&t, "</a>", g + 1) {
                    Some(c) => unescape(&string_of(&strip_tags(&t[g + 1..c]))),
                    None => string_of(&Vec::new()),
                };
                let abs = resolve_href(doc_dir, &href);
                out.push((label, abs));
            }
        }
        assert(edit::pairs(out@) =~= before + link);
        assert(before + (link + rest) =~= (before + link) + rest);
        i = g;
    }
}

} // verus!
