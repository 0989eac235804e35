//! Of the links in a volume those that lead out of it lose their target, and nothing
//! else changes.
use vstd::prelude::*;

use crate::{escaping, metadata_edit, read_back, text, toc_shape, structure, volume};

verus! {

/// A link's target as it is written.
pub open spec fn target_text(x: Seq<char>) -> Seq<char> {
    "href=\""@ + x + "\""@
}

proof fn lemma_shift(a: Seq<char>, s: Seq<char>, dir: Seq<char>, kept: Seq<Seq<char>>, i: int)
    requires
        0 <= i <= s.len(),
    ensures
        volume::unlinked_from(a + s, dir, kept, a.len() + i) == volume::unlinked_from(s, dir, kept, i),
    decreases s.len() - i,
{
    reveal_strlit("href=\"");
    let t = a + s;
    let n = a.len() as int;
    let p = "href=\""@;
    text::lemma_find(s, p, i);
    escaping::lemma_find_shift(a, s, p, i);
    assert(t.subrange(n + i, t.len() as int) =~= s.subrange(i, s.len() as int));
    if let Some(k) = text::spec_find(s, p, i) {
        text::lemma_find_char(s, '"', k + 6);
        text::lemma_find_char_shift(a, s, '"', k + 6);
        if let Some(e) = text::spec_find_char(s, '"', k + 6) {
            lemma_shift(a, s, dir, kept, e + 1);
            assert(t.subrange(n + k + 6, n + e) =~= s.subrange(k + 6, e));
            assert(t.subrange(n + i, n + k) =~= s.subrange(i, k));
            assert(t.subrange(n + i, n + e + 1) =~= s.subrange(i, e + 1));
        }
    }
}

proof fn lemma_first(a: Seq<char>, x: Seq<char>, rest: Seq<char>)
    requires
        !text::spec_contains(a, "href=\""@),
        !x.contains('"'),
    ensures
        ({
            let t = a + target_text(x) + rest;
            let n = a.len() as int;
            &&& text::spec_find(t, "href=\""@, 0) == Some(n)
            &&& text::spec_find_char(t, '"', n + 6) == Some(n + 6 + x.len())
            &&& t.subrange(n + 6, n + 6 + x.len()) == x
            &&& t.subrange(0, n) == a
            &&& t.subrange(0, n + 6 + x.len() + 1) == a + target_text(x)
        }),
{
    reveal_strlit("href=\"");
    reveal_strlit("\"");
    let p = "href=\""@;
    let t = a + target_text(x) + rest;
    let n = a.len() as int;
    let m = x.len() as int;
    assert(t.subrange(n, n + 6) =~= p);
    text::lemma_find(a, p, 0);
    assert forall|k: int| 0 <= k < n implies !#[trigger] text::is_at(t, p, k) by {
        if text::is_at(t, p, k) {
            if k + 6 <= n {
                assert(a.subrange(k, k + 6) =~= t.subrange(k, k + 6));
                assert(text::is_at(a, p, k));
            } else {
                assert(t[n] == 'h');
                assert(t.subrange(k, k + 6)[n - k] == t[n]);
            }
        }
    }
    metadata_edit::lemma_find_is(t, p, 0, n);
    assert(t[n + 6 + m] == '"');
    assert forall|k: int| n + 6 <= k < n + 6 + m implies #[trigger] t[k] != '"' by {
        assert(t[k] == x[k - n - 6]);
        assert(x.contains(x[k - n - 6]));
    }
    read_back::lemma_find_char_is(t, '"', n + 6, n + 6 + m);
    assert(t.subrange(n + 6, n + 6 + m) =~= x);
    assert(t.subrange(0, n) =~= a);
    assert(t.subrange(0, n + 6 + m + 1) =~= a + target_text(x));
}

/// A link that leads out of the volume loses its target; one that stays in it, or leads
/// out of the book, keeps it; the text before and behind it stays.
pub proof fn a_link_out_of_the_volume_loses_its_target(
    a: Seq<char>,
    x: Seq<char>,
    rest: Seq<char>,
    dir: Seq<char>,
    kept: Seq<Seq<char>>,
)
    requires
        !text::spec_contains(a, "href=\""@),
        !x.contains('"'),
    ensures
        volume::unlinked_from(a + target_text(x) + rest, dir, kept, 0) == a + (if volume::leaves(x, dir, kept) {
            Seq::empty()
        } else {
            target_text(x)
        }) + volume::unlinked_from(rest, dir, kept, 0),
        volume::any_leaves(a + target_text(x) + rest, dir, kept, 0) == (volume::leaves(x, dir, kept)
            || volume::any_leaves(rest, dir, kept, 0)),
{
    reveal_strlit("href=\"");
    reveal_strlit("\"");
    let t = a + target_text(x) + rest;
    lemma_first(a, x, rest);
    let front = a + target_text(x);
    let e = (a.len() + 6 + x.len()) as int;
    assert(front.len() == e + 1);
    assert(t =~= front + rest);
    lemma_shift(front, rest, dir, kept, 0);
    lemma_any_shift(front, rest, dir, kept, 0);
    let none = Seq::<char>::empty();
    assert(a + none =~= a);
}

proof fn lemma_any_shift(a: Seq<char>, s: Seq<char>, dir: Seq<char>, kept: Seq<Seq<char>>, i: int)
    requires
        0 <= i <= s.len(),
    ensures
        volume::any_leaves(a + s, dir, kept, a.len() + i) == volume::any_leaves(s, dir, kept, i),
    decreases s.len() - i,
{
    reveal_strlit("href=\"");
    let t = a + s;
    let n = a.len() as int;
    let p = "href=\""@;
    text::lemma_find(s, p, i);
    escaping::lemma_find_shift(a, s, p, i);
    if let Some(k) = text::spec_find(s, p, i) {
        text::lemma_find_char(s, '"', k + 6);
        text::lemma_find_char_shift(a, s, '"', k + 6);
        if let Some(e) = text::spec_find_char(s, '"', k + 6) {
            lemma_any_shift(a, s, dir, kept, e + 1);
            assert(t.subrange(n + k + 6, n + e) =~= s.subrange(k + 6, e));
        }
    }
}

/// A document without links is carried over as it is.
pub proof fn text_without_links_stays(t: Seq<char>, dir: Seq<char>, kept: Seq<Seq<char>>)
    requires
        !text::spec_contains(t, "href=\""@),
    ensures
        volume::unlinked_from(t, dir, kept, 0) == t,
        !volume::any_leaves(t, dir, kept, 0),
{
    reveal_strlit("href=\"");
    assert(t.subrange(0, t.len() as int) =~= t);
}

/// A link leads out of the volume where it names a document, by a path alone, that the
/// volume does not hold; one to a document that it holds does not, nor one with a
/// scheme, nor a fragment alone.
pub proof fn only_links_to_other_documents_lead_out(x: Seq<char>, dir: Seq<char>, kept: Seq<Seq<char>>)
    ensures
        kept.contains(toc_shape::document(structure::spec_resolve_href(dir, x))) ==> !volume::leaves(x, dir, kept),
        x.contains(':') ==> !volume::leaves(x, dir, kept),
        text::spec_starts(x, "#"@) ==> !volume::leaves(x, dir, kept),
        ({
            let d = toc_shape::document(structure::spec_resolve_href(dir, x));
            text::spec_ends(d, ".xhtml"@) && !kept.contains(d) && !x.contains(':') && !text::spec_starts(
                x,
                "#"@,
            ) ==> volume::leaves(x, dir, kept)
        }),
{
    reveal_strlit(".xhtml");
    reveal_strlit("html");
    let d = toc_shape::document(structure::spec_resolve_href(dir, x));
    if text::spec_ends(d, ".xhtml"@) {
        let n = d.len() as int;
        assert(d.subrange(n - 4, n) =~= d.subrange(n - 6, n).subrange(2, 6));
        assert(".xhtml"@.subrange(2, 6) =~= "html"@);
    }
}

} // verus!
