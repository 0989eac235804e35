//! The authors that are set are the creators that are read.
use vstd::prelude::*;

use crate::{escaping, manifest, markup, metadata_edit, text};

verus! {

/// The tag of a creator starts at `i`.
pub open spec fn creator_at(t: Seq<char>, i: int) -> bool {
    text::is_at(t, "<dc:creator"@, i) && metadata_edit::name_edge(t, i + 11)
}

/// What the creator whose tag starts at `i` holds: nothing where it closes
/// itself or is never closed.
pub open spec fn creator_text(t: Seq<char>, i: int) -> Seq<char> {
    match text::spec_find_char(t, '>', i) {
        Some(g) => if metadata_edit::closes_itself(t, g) {
            Seq::empty()
        } else {
            match text::spec_find(t, "</dc:creator>"@, g + 1) {
                Some(c) => t.subrange(g + 1, c),
                None => Seq::empty(),
            }
        },
        None => Seq::empty(),
    }
}

/// What the creators from `i` on hold, in order.
pub open spec fn creators_from(t: Seq<char>, i: int) -> Seq<Seq<char>>
    decreases t.len() - i,
{
    if i < 0 || i >= t.len() {
        Seq::empty()
    } else if creator_at(t, i) {
        seq![creator_text(t, i)] + creators_from(t, i + 1)
    } else {
        creators_from(t, i + 1)
    }
}

/// The names of the creators of a package document.
pub open spec fn creator_names(t: Seq<char>) -> Seq<Seq<char>> {
    creators_from(t, 0).map_values(|s: Seq<char>| markup::spec_unescape(s))
}

/// The text ends inside the name of a creator's tag.
pub open spec fn ends_open(p: Seq<char>) -> bool {
    exists|n: int|
        1 <= n <= 11 && n <= p.len() && p.subrange(p.len() - n, p.len() as int)
            == #[trigger] "<dc:creator"@.subrange(0, n)
}

/// No tag starts inside the name of a creator's tag.
pub open spec fn names_are_whole(t: Seq<char>) -> bool {
    forall|j: int| 0 <= j < t.len() && #[trigger] t[j] == '<' ==> !ends_open(t.subrange(0, j))
}

/// The tag of every creator ends.
pub open spec fn creators_end(t: Seq<char>) -> bool {
    forall|i: int| #[trigger] creator_at(t, i) ==> text::spec_find_char(t, '>', i) is Some
}

/// No tag of a creator starts in the text.
pub open spec fn names_none(t: Seq<char>) -> bool {
    forall|i: int| !#[trigger] creator_at(t, i)
}

/// No tag of a creator starts in the text, whatever follows its end.
pub open spec fn names_none_before(p: Seq<char>) -> bool {
    &&& forall|i: int| i + 11 < p.len() ==> !#[trigger] creator_at(p, i)
    &&& !ends_open(p)
}

proof fn lemma_name()
    ensures
        "<dc:creator"@.len() == 11,
        "<dc:creator"@[0] == '<',
        "<dc:creator"@[1] == 'd',
        forall|j: int|
            1 <= j < 11 ==> (#[trigger] "<dc:creator"@[j]) != '<' && "<dc:creator"@[j] != '>'
                && "<dc:creator"@[j] != '\n' && "<dc:creator"@[j] != ' ',
{
    reveal_strlit("<dc:creator");
}

proof fn lemma_at(t: Seq<char>, i: int)
    requires
        text::is_at(t, "<dc:creator"@, i),
    ensures
        0 <= i,
        i + 11 <= t.len(),
        t[i] == '<',
        t[i + 1] == 'd',
        forall|m: int|
            i < m < i + 11 ==> (#[trigger] t[m]) != '<' && t[m] != '>' && t[m] != '\n' && t[m]
                != ' ',
{
    lemma_name();
    let s = t.subrange(i, i + 11);
    assert(s[0] == t[i] && s[1] == t[i + 1]);
    assert forall|m: int| i < m < i + 11 implies (#[trigger] t[m]) != '<' && t[m] != '>' && t[m]
        != '\n' && t[m] != ' ' by {
        assert(s[m - i] == t[m]);
    }
}

proof fn lemma_open_suffix(p: Seq<char>, c: int)
    requires
        0 <= c <= p.len(),
        !ends_open(p),
    ensures
        !ends_open(p.subrange(c, p.len() as int)),
{
    let q = p.subrange(c, p.len() as int);
    if ends_open(q) {
        let n = choose|n: int|
            1 <= n <= 11 && n <= q.len() && q.subrange(q.len() - n, q.len() as int)
                == #[trigger] "<dc:creator"@.subrange(0, n);
        assert(p.subrange(p.len() - n, p.len() as int) =~= q.subrange(
            q.len() - n,
            q.len() as int,
        ));
    }
}

proof fn lemma_open_join(p: Seq<char>, q: Seq<char>)
    requires
        !ends_open(p),
        !ends_open(q),
    ensures
        !ends_open(p + q),
{
    lemma_name();
    let s = p + q;
    if ends_open(s) {
        let n = choose|n: int|
            1 <= n <= 11 && n <= s.len() && s.subrange(s.len() - n, s.len() as int)
                == #[trigger] "<dc:creator"@.subrange(0, n);
        if n <= q.len() {
            assert(q.subrange(q.len() - n, q.len() as int) =~= s.subrange(
                s.len() - n,
                s.len() as int,
            ));
        } else {
            let k = n - q.len();
            let part = s.subrange(s.len() - n, s.len() as int);
            assert(p.subrange(p.len() - k, p.len() as int) =~= part.subrange(0, k));
            assert("<dc:creator"@.subrange(0, n).subrange(0, k) =~= "<dc:creator"@.subrange(0, k));
        }
    }
}

proof fn lemma_shut(p: Seq<char>)
    requires
        p.len() > 0 ==> p.last() == '>' || p.last() == '\n' || p.last() == ' ',
    ensures
        !ends_open(p),
{
    lemma_name();
    if ends_open(p) {
        let n = choose|n: int|
            1 <= n <= 11 && n <= p.len() && p.subrange(p.len() - n, p.len() as int)
                == #[trigger] "<dc:creator"@.subrange(0, n);
        assert(p.subrange(p.len() - n, p.len() as int)[n - 1] == p.last());
        assert("<dc:creator"@.subrange(0, n)[n - 1] == "<dc:creator"@[n - 1]);
    }
}

proof fn lemma_join(p: Seq<char>, q: Seq<char>)
    requires
        names_none_before(p),
    ensures
        forall|i: int| i < p.len() ==> !#[trigger] creator_at(p + q, i),
        names_none(q) ==> names_none(p + q),
{
    lemma_name();
    let s = p + q;
    assert forall|i: int| i < p.len() implies !#[trigger] creator_at(s, i) by {
        if creator_at(s, i) {
            if i + 11 < p.len() {
                assert(p.subrange(i, i + 11) =~= s.subrange(i, i + 11));
                assert(creator_at(p, i));
            } else {
                let n = p.len() - i;
                assert(s.subrange(i, i + 11).subrange(0, n) =~= p.subrange(i, p.len() as int));
                assert(p.subrange(p.len() - n, p.len() as int) == "<dc:creator"@.subrange(0, n));
            }
        }
    }
    if names_none(q) {
        assert forall|i: int| !#[trigger] creator_at(s, i) by {
            if creator_at(s, i) && i >= p.len() {
                lemma_at(s, i);
                assert(q.subrange(i - p.len(), i - p.len() + 11) =~= s.subrange(i, i + 11));
                assert(creator_at(q, i - p.len()));
            }
        }
    }
}

proof fn lemma_join_before(p: Seq<char>, q: Seq<char>)
    requires
        names_none_before(p),
        names_none_before(q),
    ensures
        names_none_before(p + q),
{
    let s = p + q;
    lemma_name();
    lemma_join(p, q);
    lemma_open_join(p, q);
    assert forall|i: int| i + 11 < s.len() implies !#[trigger] creator_at(s, i) by {
        if creator_at(s, i) && i >= p.len() {
            lemma_at(s, i);
            assert(q.subrange(i - p.len(), i - p.len() + 11) =~= s.subrange(i, i + 11));
            assert(creator_at(q, i - p.len()));
        }
    }
}

/// A piece of a text that ends where a tag starts, or behind a line.
proof fn lemma_piece(t: Seq<char>, c: int, f: int)
    requires
        0 <= c <= f <= t.len(),
        forall|i: int| c <= i && i + 11 < f ==> !#[trigger] creator_at(t, i),
        !ends_open(t.subrange(0, f)) || c == f || t[f - 1] == '\n',
    ensures
        names_none_before(t.subrange(c, f)),
{
    let p = t.subrange(c, f);
    lemma_name();
    if !ends_open(t.subrange(0, f)) {
        lemma_open_suffix(t.subrange(0, f), c);
        assert(t.subrange(0, f).subrange(c, f) =~= p);
    } else {
        lemma_shut(p);
    }
    assert forall|i: int| i + 11 < p.len() implies !#[trigger] creator_at(p, i) by {
        if creator_at(p, i) {
            assert(t.subrange(c + i, c + i + 11) =~= p.subrange(i, i + 11));
            assert(creator_at(t, c + i));
        }
    }
}

/// The rest of a text.
proof fn lemma_rest(t: Seq<char>, c: int)
    requires
        0 <= c <= t.len(),
        forall|i: int| c <= i ==> !#[trigger] creator_at(t, i),
    ensures
        names_none(t.subrange(c, t.len() as int)),
{
    lemma_name();
    let p = t.subrange(c, t.len() as int);
    assert forall|i: int| !#[trigger] creator_at(p, i) by {
        if creator_at(p, i) {
            assert(t.subrange(c + i, c + i + 11) =~= p.subrange(i, i + 11));
            assert(creator_at(t, c + i));
        }
    }
}

// ---------------------------------------------------------------- the creators that go

/// The text behind what is written, once the creators from `scan` on are left
/// out.
proof fn lemma_uncreated(t: Seq<char>, scan: int, s: metadata_edit::Uncreated) -> (rest: Seq<char>)
    requires
        0 <= s.copied <= scan <= t.len(),
        s.first is Some,
        names_are_whole(t),
        creators_end(t),
        forall|i: int| s.copied <= i < scan ==> !#[trigger] creator_at(t, i),
    ensures
        ({
            let end = metadata_edit::uncreated_from(t, scan, s);
            &&& end.out + t.subrange(end.copied, t.len() as int) == s.out + rest
            &&& end.first == s.first
        }),
        names_none(rest),
        names_are_whole(rest),
    decreases t.len() - scan,
{
    lemma_name();
    text::lemma_find(t, "<dc:creator"@, scan);
    match text::spec_find(t, "<dc:creator"@, scan) {
        None => {
            assert forall|i: int| s.copied <= i implies !#[trigger] creator_at(t, i) by {
            }
            lemma_rest(t, s.copied);
            let rest = t.subrange(s.copied, t.len() as int);
            lemma_whole_rest(t, s.copied);
            rest
        },
        Some(a) => {
            lemma_at(t, a);
            assert forall|i: int| s.copied <= i < a implies !#[trigger] creator_at(t, i) by {
            }
            if !metadata_edit::name_edge(t, a + 11) {
                assert forall|i: int| s.copied <= i < a + 11 implies !#[trigger] creator_at(t, i) by {
                    if creator_at(t, i) && a < i {
                        lemma_at(t, i);
                    }
                }
                lemma_uncreated(t, a + 11, s)
            } else {
                assert(creator_at(t, a));
                let g = text::spec_find_char(t, '>', a)->0;
                text::lemma_find_char(t, '>', a);
                reveal_strlit("</dc:creator>");
                text::lemma_find(t, "</dc:creator>"@, g);
                let end = metadata_edit::creator_end(t, g);
                let piece = t.subrange(s.copied, a);
                let next = metadata_edit::Uncreated {
                    out: s.out + piece,
                    copied: end,
                    first: s.first,
                    ids: match markup::spec_attr_value(t.subrange(a, g), "id"@) {
                        Some(id) => s.ids.push(id),
                        None => s.ids,
                    },
                };
                let behind = lemma_uncreated(t, end, next);
                assert(t[a] == '<');
                lemma_piece(t, s.copied, a);
                lemma_join(piece, behind);
                lemma_whole_join(t, s.copied, a, behind);
                let rest = piece + behind;
                assert(s.out + rest =~= next.out + behind);
                rest
            }
        },
    }
}

proof fn lemma_whole_rest(t: Seq<char>, c: int)
    requires
        0 <= c <= t.len(),
        names_are_whole(t),
    ensures
        names_are_whole(t.subrange(c, t.len() as int)),
{
    let p = t.subrange(c, t.len() as int);
    assert forall|j: int| 0 <= j < p.len() && #[trigger] p[j] == '<' implies !ends_open(
        p.subrange(0, j),
    ) by {
        assert(t[c + j] == '<');
        lemma_open_suffix(t.subrange(0, c + j), c);
        assert(t.subrange(0, c + j).subrange(c, c + j) =~= p.subrange(0, j));
    }
}

proof fn lemma_whole_join(t: Seq<char>, c: int, a: int, q: Seq<char>)
    requires
        0 <= c <= a < t.len(),
        t[a] == '<',
        names_are_whole(t),
        names_are_whole(q),
    ensures
        names_are_whole(t.subrange(c, a) + q),
{
    let p = t.subrange(c, a);
    let s = p + q;
    lemma_open_suffix(t.subrange(0, a), c);
    assert(t.subrange(0, a).subrange(c, a) =~= p);
    assert forall|j: int| 0 <= j < s.len() && #[trigger] s[j] == '<' implies !ends_open(
        s.subrange(0, j),
    ) by {
        if j < p.len() {
            assert(t[c + j] == '<');
            lemma_open_suffix(t.subrange(0, c + j), c);
            assert(t.subrange(0, c + j).subrange(c, c + j) =~= s.subrange(0, j));
        } else {
            assert(q[j - p.len()] == '<');
            lemma_open_join(p, q.subrange(0, j - p.len()));
            assert(s.subrange(0, j) =~= p + q.subrange(0, j - p.len()));
        }
    }
}

/// The text that is left without its creators: where the first of them stood,
/// and what is left behind it; nothing where there is none.
proof fn lemma_first(t: Seq<char>, scan: int) -> (r: Option<(int, Seq<char>)>)
    requires
        0 <= scan <= t.len(),
        names_are_whole(t),
        creators_end(t),
        forall|i: int| i < scan ==> !#[trigger] creator_at(t, i),
    ensures
        ({
            let start = metadata_edit::Uncreated {
                out: Seq::empty(),
                copied: 0,
                first: None,
                ids: Seq::empty(),
            };
            let end = metadata_edit::uncreated_from(t, scan, start);
            match r {
                None => end == start && names_none(t),
                Some((a, rest)) => {
                    &&& 0 <= a < t.len()
                    &&& t[a] == '<'
                    &&& forall|i: int| i < a ==> !#[trigger] creator_at(t, i)
                    &&& end.first == Some(a)
                    &&& end.out + t.subrange(end.copied, t.len() as int) == t.subrange(0, a) + rest
                    &&& names_none(rest)
                    &&& names_are_whole(rest)
                },
            }
        }),
    decreases t.len() - scan,
{
    lemma_name();
    text::lemma_find(t, "<dc:creator"@, scan);
    match text::spec_find(t, "<dc:creator"@, scan) {
        None => None,
        Some(a) => {
            lemma_at(t, a);
            if !metadata_edit::name_edge(t, a + 11) {
                assert forall|i: int| i < a + 11 implies !#[trigger] creator_at(t, i) by {
                    if creator_at(t, i) && a < i {
                        lemma_at(t, i);
                    }
                }
                lemma_first(t, a + 11)
            } else {
                assert(creator_at(t, a));
                let g = text::spec_find_char(t, '>', a)->0;
                text::lemma_find_char(t, '>', a);
                reveal_strlit("</dc:creator>");
                text::lemma_find(t, "</dc:creator>"@, g);
                let end = metadata_edit::creator_end(t, g);
                let next = metadata_edit::Uncreated {
                    out: Seq::<char>::empty() + t.subrange(0, a),
                    copied: end,
                    first: Some(a),
                    ids: match markup::spec_attr_value(t.subrange(a, g), "id"@) {
                        Some(id) => Seq::<Seq<char>>::empty().push(id),
                        None => Seq::<Seq<char>>::empty(),
                    },
                };
                assert(next.out =~= t.subrange(0, a));
                let rest = lemma_uncreated(t, end, next);
                Some((a, rest))
            }
        },
    }
}

// ---------------------------------------------------------------- the run of new creators

pub proof fn lemma_digits(n: nat)
    ensures
        forall|k: int|
            0 <= k < text::decimal(n).len() ==> '0' <= #[trigger] text::decimal(n)[k] <= '9',
    decreases n,
{
    let d = text::decimal(n);
    if n >= 10 {
        lemma_digits(n / 10);
        let e = text::decimal(n / 10);
        assert forall|k: int| 0 <= k < d.len() implies '0' <= #[trigger] d[k] <= '9' by {
            if k < e.len() {
                assert(d[k] == e[k]);
            }
        }
    }
}

/// The `n`th creator of a run, with what sets it apart from the one before.
spec fn link(n: int, esc: Seq<char>) -> Seq<char> {
    (if n > 1 {
        "\n    "@
    } else {
        Seq::empty()
    }) + "<dc:creator id=\"creator"@ + text::decimal(n as nat) + "\">"@ + esc + "</dc:creator>"@
}

proof fn lemma_link(v: Seq<Seq<char>>, n: int)
    requires
        0 < n,
    ensures
        metadata_edit::creators_to(v, n) == metadata_edit::creators_to(v, n - 1) + link(
            n,
            markup::spec_escape_text(v[n - 1]),
        ),
{
    assert(metadata_edit::creators_to(v, n) =~= metadata_edit::creators_to(v, n - 1) + link(
        n,
        markup::spec_escape_text(v[n - 1]),
    ));
}

/// What stands in a link, and where.
proof fn lemma_link_parts(n: int, esc: Seq<char>) -> (r: (int, int))
    requires
        0 < n,
        !esc.contains('<'),
        !esc.contains('>'),
    ensures
        ({
            let e = link(n, esc);
            let (q, g) = r;
            &&& q == (if n > 1 {
                5int
            } else {
                0int
            })
            &&& q + 24 < g
            &&& g + 1 + esc.len() + 13 == e.len()
            &&& e.subrange(q, q + 11) == "<dc:creator"@
            &&& e[q] == '<'
            &&& e[q + 1] == 'd'
            &&& e[q + 11] == ' '
            &&& e[g] == '>'
            &&& e[g - 1] == '"'
            &&& forall|m: int| q <= m < g ==> #[trigger] e[m] != '>'
            &&& e.subrange(g + 1, g + 1 + esc.len()) == esc
            &&& e.subrange(g + 1 + esc.len(), e.len() as int) == "</dc:creator>"@
            &&& forall|m: int|
                0 <= m < e.len() && #[trigger] e[m] == '<' ==> m == q || m == g + 1 + esc.len()
            &&& e[g + 1 + esc.len() + 1] == '/'
            &&& e.last() == '>'
        }),
{
    reveal_strlit("\n    ");
    reveal_strlit("<dc:creator");
    reveal_strlit("<dc:creator id=\"creator");
    reveal_strlit("\">");
    reveal_strlit("</dc:creator>");
    lemma_digits(n as nat);
    let sep = if n > 1 {
        "\n    "@
    } else {
        Seq::<char>::empty()
    };
    let d = text::decimal(n as nat);
    let o = "<dc:creator id=\"creator"@;
    let e = link(n, esc);
    let q = sep.len() as int;
    let g = q + 23 + d.len() + 1;
    assert(d.len() > 0);
    assert(e.subrange(q, q + 11) =~= "<dc:creator"@);
    assert(e.subrange(g + 1, g + 1 + esc.len()) =~= esc);
    assert(e.subrange(g + 1 + esc.len(), e.len() as int) =~= "</dc:creator>"@);
    assert forall|m: int| q <= m < g implies #[trigger] e[m] != '>' by {
        if m < q + 23 {
            assert(e[m] == o[m - q]);
        } else if m < q + 23 + d.len() {
            assert(e[m] == d[m - q - 23]);
        }
    }
    assert forall|m: int| 0 <= m < e.len() && #[trigger] e[m] == '<' implies m == q || m == g + 1
        + esc.len() by {
        if m < q {
            assert(e[m] == sep[m]);
        } else if m < q + 23 {
            assert(e[m] == o[m - q]);
        } else if m < q + 23 + d.len() {
            assert(e[m] == d[m - q - 23]);
        } else if m < g + 1 {
        } else if m < g + 1 + esc.len() {
            assert(e[m] == esc[m - g - 1]);
            assert(esc.contains(esc[m - g - 1]));
        } else {
            assert(e[m] == "</dc:creator>"@[m - g - 1 - esc.len()]);
        }
    }
    (q, g)
}

proof fn lemma_run(v: Seq<Seq<char>>, n: int)
    requires
        0 <= n <= v.len(),
    ensures
        ({
            let run = metadata_edit::creators_to(v, n);
            &&& n > 0 ==> run.len() > 0 && run[0] == '<' && run.last() == '>'
            &&& forall|m: int|
                0 <= m < run.len() && #[trigger] run[m] == '<' ==> m + 1 < run.len() && (run[m + 1]
                    == 'd' || run[m + 1] == '/')
        }),
    decreases n,
{
    if n > 0 {
        lemma_run(v, n - 1);
        lemma_link(v, n);
        let esc = markup::spec_escape_text(v[n - 1]);
        escaping::escaping_leaves_no_markup(v[n - 1]);
        let before = metadata_edit::creators_to(v, n - 1);
        let run = metadata_edit::creators_to(v, n);
        let e = link(n, esc);
        let (q, g) = lemma_link_parts(n, esc);
        if n == 1 {
            assert(before.len() == 0);
            assert(run =~= e);
        }
        assert(run.last() == e.last());
        assert forall|m: int| 0 <= m < run.len() && #[trigger] run[m] == '<' implies m + 1
            < run.len() && (run[m + 1] == 'd' || run[m + 1] == '/') by {
            if m < before.len() {
                assert(run[m] == before[m]);
                assert(run[m + 1] == before[m + 1]);
            } else {
                assert(run[m] == e[m - before.len()]);
                assert(run[m + 1] == e[m - before.len() + 1]);
            }
        }
    }
}

proof fn lemma_none(t: Seq<char>, i: int, j: int)
    requires
        0 <= i <= j <= t.len(),
        forall|m: int| i <= m < j ==> !#[trigger] creator_at(t, m),
    ensures
        creators_from(t, i) == creators_from(t, j),
    decreases j - i,
{
    if i < j {
        assert(!creator_at(t, i));
        lemma_none(t, i + 1, j);
    }
}

/// A link in a text is read as one creator.
proof fn lemma_link_read(w: Seq<char>, p: int, n: int, esc: Seq<char>)
    requires
        0 < n,
        0 <= p,
        !esc.contains('<'),
        !esc.contains('>'),
        text::is_at(w, link(n, esc), p),
    ensures
        creators_from(w, p) == seq![esc] + creators_from(w, p + link(n, esc).len()),
{
    let e = link(n, esc);
    let (q, g) = lemma_link_parts(n, esc);
    let end = p + e.len();
    lemma_name();
    reveal_strlit("</dc:creator>");
    let c = "</dc:creator>"@;
    assert forall|m: int| 0 <= m < e.len() implies w[p + m] == #[trigger] e[m] by {
        assert(w.subrange(p, end)[m] == e[m]);
    }
    assert forall|m: int| p <= m < end && m != p + q implies !#[trigger] creator_at(w, m) by {
        if creator_at(w, m) {
            lemma_at(w, m);
            assert(w[p + (m - p)] == e[m - p]);
            assert(w[p + (m - p + 1)] == e[m - p + 1]);
        }
    }
    lemma_none(w, p, p + q);
    assert(w.subrange(p + q, p + q + 11) =~= e.subrange(q, q + 11));
    assert(w[p + (q + 11)] == e[q + 11]);
    assert(creator_at(w, p + q));
    lemma_none(w, p + q + 1, end);
    text::lemma_find_char(w, '>', p + q);
    assert(w[p + g] == e[g]);
    assert(text::spec_find_char(w, '>', p + q) == Some(p + g)) by {
        let x = text::spec_find_char(w, '>', p + q)->0;
        if x < p + g {
            assert(w[p + (x - p)] == e[x - p]);
        }
    }
    assert(w[p + (g - 1)] == e[g - 1]);
    let f = g + 1 + esc.len();
    assert(w.subrange(p + f, p + f + 13) =~= e.subrange(f, e.len() as int));
    assert forall|m: int| p + g + 1 <= m < p + f implies !#[trigger] text::is_at(w, c, m) by {
        if text::is_at(w, c, m) {
            assert(w.subrange(m, m + 13)[0] == c[0]);
            assert(w[p + (m - p)] == e[m - p]);
        }
    }
    metadata_edit::lemma_find_is(w, c, p + g + 1, p + f);
    assert(w.subrange(p + g + 1, p + f) =~= e.subrange(g + 1, f));
    assert(creator_text(w, p + q) == esc);
}

/// A run in a text is read as its authors.
proof fn lemma_run_read(x: Seq<char>, v: Seq<Seq<char>>, n: int, y: Seq<char>)
    requires
        0 <= n <= v.len(),
        forall|i: int|
            i < x.len() ==> !#[trigger] creator_at(x + metadata_edit::creators_to(v, n) + y, i),
    ensures
        ({
            let run = metadata_edit::creators_to(v, n);
            let w = x + run + y;
            creators_from(w, 0) == Seq::new(
                n as nat,
                |j: int| markup::spec_escape_text(v[j]),
            ) + creators_from(w, (x + run).len() as int)
        }),
    decreases n,
{
    let run = metadata_edit::creators_to(v, n);
    let w = x + run + y;
    if n == 0 {
        lemma_none(w, 0, x.len() as int);
        assert(Seq::new(0nat, |j: int| markup::spec_escape_text(v[j])) + creators_from(
            w,
            x.len() as int,
        ) =~= creators_from(w, x.len() as int));
    } else {
        let esc = markup::spec_escape_text(v[n - 1]);
        let e = link(n, esc);
        let before = metadata_edit::creators_to(v, n - 1);
        lemma_link(v, n);
        escaping::escaping_leaves_no_markup(v[n - 1]);
        assert(w =~= x + before + (e + y));
        lemma_run_read(x, v, n - 1, e + y);
        let p = (x + before).len() as int;
        assert(w.subrange(p, p + e.len()) =~= e);
        lemma_link_read(w, p, n, esc);
        let f = |j: int| markup::spec_escape_text(v[j]);
        let tail = creators_from(w, (x + run).len() as int);
        assert(Seq::new((n - 1) as nat, f) + (seq![esc] + tail) =~= Seq::new(n as nat, f) + tail);
    }
}

// ---------------------------------------------------------------- what refined them

/// An element that refines one of the ids and starts before `k` ends by `k`.
pub open spec fn refinements_end_by(t: Seq<char>, ids: Seq<Seq<char>>, k: int) -> bool {
    forall|a: int|
        a < k && #[trigger] text::is_at(t, "<meta"@, a) && metadata_edit::meta_edge(t, a + 5)
            ==> match text::spec_find_char(t, '>', a) {
            Some(g) => metadata_edit::refines_one(t.subrange(a, g + 1), ids)
                ==> metadata_edit::meta_end(t, g) <= k,
            None => true,
        }
}

pub proof fn lemma_line(t: Seq<char>, i: int)
    requires
        0 <= i <= t.len(),
    ensures
        0 <= manifest::line_start(t, i) <= i,
        manifest::line_start(t, i) > 0 ==> t[manifest::line_start(t, i) - 1] == '\n',
    decreases i,
{
    if i > 0 && t[i - 1] != '\n' {
        lemma_line(t, i - 1);
    }
}

/// No tag that starts from `c` on, outside the span from `k` to `e`, starts
/// inside the name of a creator's tag.
spec fn whole_around(t: Seq<char>, c: int, k: int, e: int) -> bool {
    forall|j: int|
        c <= j < t.len() && #[trigger] t[j] == '<' && (j <= k || e <= j) ==> !ends_open(
            t.subrange(0, j),
        )
}

/// Where the text is cut for an element that refines a creator.
proof fn lemma_cut(t: Seq<char>, a: int, g: int, copied: int) -> (from: int)
    requires
        0 <= copied <= a,
        text::is_at(t, "<meta"@, a),
        a <= g < t.len(),
        t[g] == '>',
        !ends_open(t.subrange(0, a)),
        forall|i: int| copied <= i && i + 11 < a ==> !#[trigger] creator_at(t, i),
    ensures
        ({
            let end = metadata_edit::meta_end(t, g);
            let (x, y) = metadata_edit::meta_cut(t, a, end);
            &&& from == (if x < copied {
                copied
            } else {
                x
            })
            &&& copied <= from <= a
            &&& g < end <= y <= t.len()
            &&& y == end || y == end + 1 && t[end] == '\n'
            &&& from == a || from == copied || forall|m: int|
                from <= m < a ==> text::is_white(#[trigger] t[m])
            &&& names_none_before(t.subrange(copied, from))
        }),
{
    reveal_strlit("</meta>");
    text::lemma_find(t, "</meta>"@, g + 1);
    lemma_line(t, a);
    let end = metadata_edit::meta_end(t, g);
    let (x, y) = metadata_edit::meta_cut(t, a, end);
    let line = manifest::line_start(t, a);
    let from = if x < copied {
        copied
    } else {
        x
    };
    if x != a {
        assert forall|m: int| x <= m < a implies text::is_white(#[trigger] t[m]) by {
            assert(t.subrange(line, a)[m - line] == t[m]);
        }
    }
    lemma_piece(t, copied, from);
    from
}

/// What is left of a text without creators names none.
proof fn lemma_pruned_rest(t: Seq<char>, ids: Seq<Seq<char>>, scan: int, copied: int)
    requires
        0 <= copied <= scan <= t.len(),
        forall|i: int| copied <= i ==> !#[trigger] creator_at(t, i),
        whole_around(t, copied, 0, 0),
    ensures
        names_none(metadata_edit::unrefined_from(t, ids, scan, copied)),
    decreases t.len() - scan,
{
    reveal_strlit("<meta");
    reveal_strlit("</meta>");
    text::lemma_find(t, "<meta"@, scan);
    lemma_rest(t, copied);
    if let Some(a) = text::spec_find(t, "<meta"@, scan) {
        if !metadata_edit::meta_edge(t, a + 5) {
            lemma_pruned_rest(t, ids, a + 5, copied);
        } else {
            text::lemma_find_char(t, '>', a);
            if let Some(g) = text::spec_find_char(t, '>', a) {
                let end = metadata_edit::meta_end(t, g);
                text::lemma_find(t, "</meta>"@, g + 1);
                if metadata_edit::refines_one(t.subrange(a, g + 1), ids) {
                    assert(t.subrange(a, a + 5)[0] == t[a]);
                    let from = lemma_cut(t, a, g, copied);
                    let (x, y) = metadata_edit::meta_cut(t, a, end);
                    lemma_pruned_rest(t, ids, y, y);
                    lemma_join(
                        t.subrange(copied, from),
                        metadata_edit::unrefined_from(t, ids, y, y),
                    );
                } else {
                    lemma_pruned_rest(t, ids, end, copied);
                }
            }
        }
    }
}

/// Pruning what refined the creators that went leaves the new run, which stands
/// from `k` to `e`, and no creator on either side of it.
proof fn lemma_pruned_run(
    t: Seq<char>,
    ids: Seq<Seq<char>>,
    scan: int,
    copied: int,
    k: int,
    e: int,
) -> (r: (Seq<char>, Seq<char>))
    requires
        0 <= copied <= scan <= t.len(),
        copied <= k < e <= t.len(),
        t[k] == '<',
        t[e - 1] == '>',
        forall|i: int| #[trigger] creator_at(t, i) ==> k <= i < e,
        forall|i: int| k <= i < e ==> !#[trigger] text::is_at(t, "<meta"@, i),
        whole_around(t, 0, k, e),
        refinements_end_by(t, ids, k),
    ensures
        metadata_edit::unrefined_from(t, ids, scan, copied) == r.0 + t.subrange(k, e) + r.1,
        names_none_before(r.0),
        names_none(r.1),
    decreases t.len() - scan,
{
    reveal_strlit("<meta");
    reveal_strlit("</meta>");
    text::lemma_find(t, "<meta"@, scan);
    lemma_rest(t, e);
    lemma_piece(t, copied, k);
    let here = (t.subrange(copied, k), t.subrange(e, t.len() as int));
    let all = t.subrange(copied, t.len() as int);
    assert(all =~= here.0 + t.subrange(k, e) + here.1);
    match text::spec_find(t, "<meta"@, scan) {
        None => here,
        Some(a) => if !metadata_edit::meta_edge(t, a + 5) {
            lemma_pruned_run(t, ids, a + 5, copied, k, e)
        } else {
            text::lemma_find_char(t, '>', a);
            match text::spec_find_char(t, '>', a) {
                None => here,
                Some(g) => {
                    let end = metadata_edit::meta_end(t, g);
                    text::lemma_find(t, "</meta>"@, g + 1);
                    if metadata_edit::refines_one(t.subrange(a, g + 1), ids) {
                        lemma_pruned_here(t, ids, scan, copied, k, e, a, g)
                    } else {
                        lemma_pruned_run(t, ids, end, copied, k, e)
                    }
                },
            }
        },
    }
}

proof fn lemma_pruned_here(
    t: Seq<char>,
    ids: Seq<Seq<char>>,
    scan: int,
    copied: int,
    k: int,
    e: int,
    a: int,
    g: int,
) -> (r: (Seq<char>, Seq<char>))
    requires
        0 <= copied <= scan <= t.len(),
        copied <= k < e <= t.len(),
        t[k] == '<',
        t[e - 1] == '>',
        forall|i: int| #[trigger] creator_at(t, i) ==> k <= i < e,
        forall|i: int| k <= i < e ==> !#[trigger] text::is_at(t, "<meta"@, i),
        whole_around(t, 0, k, e),
        refinements_end_by(t, ids, k),
        text::spec_find(t, "<meta"@, scan) == Some(a),
        metadata_edit::meta_edge(t, a + 5),
        text::spec_find_char(t, '>', a) == Some(g),
        metadata_edit::refines_one(t.subrange(a, g + 1), ids),
    ensures
        metadata_edit::unrefined_from(t, ids, scan, copied) == r.0 + t.subrange(k, e) + r.1,
        names_none_before(r.0),
        names_none(r.1),
    decreases t.len() - scan, 0int,
{
    reveal_strlit("<meta");
    text::lemma_find(t, "<meta"@, scan);
    text::lemma_find_char(t, '>', a);
    assert(text::is_at(t, "<meta"@, a));
    assert(t.subrange(a, a + 5)[0] == t[a]);
    let end = metadata_edit::meta_end(t, g);
    let (x, y) = metadata_edit::meta_cut(t, a, end);
    let run = t.subrange(k, e);
    if a < k {
        let from = lemma_cut(t, a, g, copied);
        assert(y <= k);
        let (before, after) = lemma_pruned_run(t, ids, y, y, k, e);
        let piece = t.subrange(copied, from);
        lemma_join_before(piece, before);
        assert(piece + (before + run + after) =~= piece + before + run + after);
        (piece + before, after)
    } else {
        let from = lemma_cut(t, a, g, e);
        lemma_line(t, a);
        let line = manifest::line_start(t, a);
        assert(x >= e) by {
            if x < e {
                assert(t.subrange(line, a)[e - 1 - line] == t[e - 1]);
            }
        }
        lemma_pruned_rest(t, ids, y, y);
        let rest = metadata_edit::unrefined_from(t, ids, y, y);
        lemma_piece(t, copied, k);
        lemma_join(t.subrange(e, x), rest);
        let before = t.subrange(copied, k);
        let after = t.subrange(e, x) + rest;
        assert(t.subrange(copied, x) + rest =~= before + run + after);
        (before, after)
    }
}

// ---------------------------------------------------------------- the law

/// The package document with the new run of creators in it, before what refined
/// the old ones is pruned.
pub open spec fn unpruned(t: Seq<char>, authors: Seq<Seq<char>>) -> Seq<char> {
    let new = metadata_edit::creators_to(authors, authors.len() as int);
    let s = metadata_edit::uncreated(t);
    let out = s.out + t.subrange(s.copied, t.len() as int);
    match s.first {
        Some(k) => out.subrange(0, k) + new + out.subrange(k, out.len() as int),
        None => metadata_edit::injected(out, new),
    }
}

proof fn lemma_read(x: Seq<char>, authors: Seq<Seq<char>>, y: Seq<char>)
    requires
        names_none_before(x),
        names_none(y),
    ensures
        creator_names(x + metadata_edit::creators_to(authors, authors.len() as int) + y) == authors,
{
    let n = authors.len() as int;
    let run = metadata_edit::creators_to(authors, n);
    let w = x + run + y;
    lemma_name();
    lemma_join(x, run + y);
    assert(x + (run + y) =~= w);
    lemma_run_read(x, authors, n, y);
    let e = (x + run).len() as int;
    assert forall|m: int| e <= m < w.len() implies !#[trigger] creator_at(w, m) by {
        if creator_at(w, m) {
            lemma_at(w, m);
            assert(y.subrange(m - e, m - e + 11) =~= w.subrange(m, m + 11));
            assert(creator_at(y, m - e));
        }
    }
    lemma_none(w, e, w.len() as int);
    assert forall|j: int| 0 <= j < n implies markup::spec_unescape(
        #[trigger] creators_from(w, 0)[j],
    ) == authors[j] by {
        escaping::unescaping_undoes_escaping(authors[j]);
    }
    assert(creator_names(w) =~= authors);
}

/// A book without creators gets its run at the end of its metadata.
proof fn lemma_injected_run(t: Seq<char>, authors: Seq<Seq<char>>)
    requires
        names_are_whole(t),
        names_none(t),
        text::spec_rfind(t, "</metadata>"@, t.len() as int) is Some,
    ensures
        creator_names(
            metadata_edit::injected(
                t,
                metadata_edit::creators_to(authors, authors.len() as int),
            ),
        ) == authors,
{
    let run = metadata_edit::creators_to(authors, authors.len() as int);
    let k = text::spec_rfind(t, "</metadata>"@, t.len() as int)->0;
    reveal_strlit("  ");
    reveal_strlit("\n");
    reveal_strlit("</metadata>");
    metadata_edit::lemma_rfind(t, "</metadata>"@, t.len() as int);
    assert(t.subrange(k, k + 11)[0] == t[k]);
    let pad = "  "@;
    let x = t.subrange(0, k) + pad;
    let y = "\n"@ + t.subrange(k, t.len() as int);
    lemma_name();
    lemma_piece(t, 0, k);
    lemma_shut(pad);
    lemma_join_before(t.subrange(0, k), pad);
    let nl = "\n"@;
    lemma_shut(nl);
    lemma_rest(t, k);
    lemma_join(nl, t.subrange(k, t.len() as int));
    lemma_read(x, authors, y);
    assert(metadata_edit::injected(t, run) =~= x + run + y);
}

/// A book's run takes the place of its first creator.
proof fn lemma_placed_run(
    t: Seq<char>,
    authors: Seq<Seq<char>>,
    ids: Seq<Seq<char>>,
    a: int,
    rest: Seq<char>,
)
    requires
        names_are_whole(t),
        0 <= a < t.len(),
        t[a] == '<',
        forall|i: int| i < a ==> !#[trigger] creator_at(t, i),
        names_none(rest),
        names_are_whole(rest),
        authors.len() > 0 ==> refinements_end_by(
            t.subrange(0, a) + metadata_edit::creators_to(authors, authors.len() as int) + rest,
            ids,
            a,
        ),
    ensures
        creator_names(
            metadata_edit::unrefined(
                t.subrange(0, a) + metadata_edit::creators_to(authors, authors.len() as int) + rest,
                ids,
            ),
        ) == authors,
{
    let n = authors.len() as int;
    let run = metadata_edit::creators_to(authors, n);
    let lead = t.subrange(0, a);
    let w = lead + run + rest;
    let e = (lead + run).len() as int;
    lemma_name();
    lemma_piece(t, 0, a);
    lemma_run(authors, n);
    assert(!ends_open(lead + run)) by {
        if n > 0 {
            assert((lead + run).last() == run.last());
            lemma_shut(lead + run);
        } else {
            assert(lead + run =~= lead);
        }
    }
    assert(whole_around(w, 0, a, e)) by {
        assert forall|j: int| 0 <= j < w.len() && #[trigger] w[j] == '<' && (j <= a || e
            <= j) implies !ends_open(w.subrange(0, j)) by {
            if j < a {
                assert(t[j] == '<');
                assert(w.subrange(0, j) =~= t.subrange(0, j));
            } else if j >= e {
                assert(rest[j - e] == '<');
                lemma_open_join(lead + run, rest.subrange(0, j - e));
                assert(w.subrange(0, j) =~= lead + run + rest.subrange(0, j - e));
            } else {
                assert(w.subrange(0, j) =~= lead);
            }
        }
    }
    lemma_join(lead, run + rest);
    assert(lead + (run + rest) =~= w);
    assert forall|i: int| e <= i implies !#[trigger] creator_at(w, i) by {
        if creator_at(w, i) {
            lemma_at(w, i);
            assert(rest.subrange(i - e, i - e + 11) =~= w.subrange(i, i + 11));
            assert(creator_at(rest, i - e));
        }
    }
    if n == 0 {
        assert(creators_from(Seq::<char>::empty(), 0) =~= Seq::empty());
        lemma_pruned_rest(w, ids, 0, 0);
        let r = metadata_edit::unrefined(w, ids);
        lemma_none(r, 0, r.len() as int);
        assert(creator_names(r) =~= authors);
    } else if ids.len() == 0 {
        lemma_read(lead, authors, rest);
    } else {
        reveal_strlit("<meta");
        assert forall|i: int| a <= i < e implies !#[trigger] text::is_at(w, "<meta"@, i) by {
            if text::is_at(w, "<meta"@, i) {
                let s = w.subrange(i, i + 5);
                assert(s[0] == w[i] && s[1] == w[i + 1]);
                assert(w[i] == run[i - a]);
                assert(w[i + 1] == run[i - a + 1]);
            }
        }
        assert(w[a] == run[0]);
        assert(w[e - 1] == run.last());
        let (x, y) = lemma_pruned_run(w, ids, 0, 0, a, e);
        assert(w.subrange(a, e) =~= run);
        lemma_read(x, authors, y);
    }
}

/// The authors that are set are those that are read: the creators of the
/// rewritten package document are the authors, in order, and there is no other.
/// The document has a creator or a place for one, the tag of each of its
/// creators ends, no tag starts inside the name of another creator's tag, and no
/// element that refined a creator reaches into the new run.
pub proof fn set_authors_are_read_back(t: Seq<char>, authors: Seq<Seq<char>>)
    requires
        names_are_whole(t),
        creators_end(t),
        authors.len() > 0 ==> match metadata_edit::uncreated(t).first {
            Some(k) => refinements_end_by(
                unpruned(t, authors),
                metadata_edit::uncreated(t).ids,
                k,
            ),
            None => text::spec_rfind(t, "</metadata>"@, t.len() as int) is Some,
        },
    ensures
        creator_names(metadata_edit::spec_set_creators(t, authors)) == authors,
{
    lemma_name();
    let s = metadata_edit::uncreated(t);
    let run = metadata_edit::creators_to(authors, authors.len() as int);
    assert forall|i: int| i < 0 implies !#[trigger] creator_at(t, i) by {
    }
    match lemma_first(t, 0) {
        Some((a, rest)) => {
            let out = s.out + t.subrange(s.copied, t.len() as int);
            assert(out.subrange(0, a) =~= t.subrange(0, a));
            assert(out.subrange(a, out.len() as int) =~= rest);
            lemma_placed_run(t, authors, s.ids, a, rest);
        },
        None => {
            let out = s.out + t.subrange(s.copied, t.len() as int);
            assert(out =~= t);
            if text::spec_rfind(t, "</metadata>"@, t.len() as int) is Some {
                lemma_injected_run(t, authors);
            } else {
                lemma_none(t, 0, t.len() as int);
                assert(creator_names(t) =~= authors);
            }
        },
    }
}

} // verus!
