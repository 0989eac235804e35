//! An ASIN that a book lacked is read back once it is set.
use vstd::prelude::*;

use crate::{escaping, markup, metadata_edit, text};

verus! {

/// No identifier before `k` is an ASIN with text, and the tag of each ends
/// before `k`.
pub open spec fn lacks_asin_before(t: Seq<char>, k: int) -> bool {
    forall|a: int|
        a < k && #[trigger] text::is_at(t, "<dc:identifier"@, a) ==> match text::spec_find_char(
            t,
            '>',
            a,
        ) {
            Some(g) => g < k && (!metadata_edit::is_asin(t.subrange(a, g)) || metadata_edit::closes_itself(t, g)),
            None => false,
        }
}

proof fn lemma_asin_tag()
    ensures
        metadata_edit::is_asin("<dc:identifier opf:scheme=\"ASIN\""@),
{
    reveal_strlit("<dc:identifier opf:scheme=\"ASIN\"");
    reveal_strlit("scheme=\"asin\"");
    let s = text::spec_lower("<dc:identifier opf:scheme=\"ASIN\""@);
    let p = "scheme=\"asin\""@;
    assert(s.subrange(19, 32) =~= p);
    text::lemma_find(s, p, 0);
    assert(text::is_at(s, p, 19));
}

/// An ASIN that stands at `q` in `new`, which is `t` up to `k`, is the first that
/// is found.
proof fn lemma_asin_added(t: Seq<char>, k: int, new: Seq<char>, esc: Seq<char>, from: int)
    requires
        0 <= k <= t.len(),
        0 <= from <= k + 2,
        lacks_asin_before(t, k),
        !esc.contains('<'),
        k + 2 <= new.len(),
        new.subrange(0, k) == t.subrange(0, k),
        new.subrange(k, k + 2) == "  "@,
        text::is_at(
            new,
            "<dc:identifier opf:scheme=\"ASIN\">"@ + esc + "</dc:identifier>"@,
            k + 2,
        ),
    ensures
        metadata_edit::asin_from(new, from) == Some((k + 35, k + 35 + esc.len())),
    decreases k + 2 - from,
{
    let open = "<dc:identifier"@;
    let close = "</dc:identifier>"@;
    let tag = "<dc:identifier opf:scheme=\"ASIN\""@;
    let head = "<dc:identifier opf:scheme=\"ASIN\">"@;
    reveal_strlit("  ");
    reveal_strlit("<dc:identifier");
    reveal_strlit("</dc:identifier>");
    reveal_strlit("<dc:identifier opf:scheme=\"ASIN\"");
    reveal_strlit("<dc:identifier opf:scheme=\"ASIN\">");
    let q = k + 2;
    let element = head + esc + close;
    assert forall|m: int| 0 <= m < element.len() implies new[q + m] == #[trigger] element[m] by {
        assert(new.subrange(q, q + element.len())[m] == element[m]);
    }
    assert(new.subrange(q, q + 14) =~= open) by {
        assert forall|m: int| 0 <= m < 14 implies new[q + m] == #[trigger] open[m] by {
            assert(new[q + m] == element[m]);
        }
    }
    text::lemma_find(new, open, from);
    assert(text::is_at(new, open, q));
    let x = text::spec_find(new, open, from)->0;
    text::lemma_find_char(new, '>', x);
    if x < q {
        let s = new.subrange(x, x + 14);
        assert(x + 14 <= k) by {
            if x + 14 > k {
                let m = if x < k {
                    k
                } else {
                    x
                };
                assert(s[m - x] == new[m]);
                assert(new.subrange(k, k + 2)[m - k] == new[m]);
            }
        }
        assert(t.subrange(x, x + 14) =~= t.subrange(0, k).subrange(x, x + 14));
        assert(s =~= new.subrange(0, k).subrange(x, x + 14));
        assert(text::is_at(t, open, x));
        let g = text::spec_find_char(t, '>', x)->0;
        text::lemma_find_char(t, '>', x);
        assert(new.subrange(0, k) =~= t.subrange(0, k));
        metadata_edit::lemma_same_find_char(t, new, '>', k, x, g);
        assert(new.subrange(x, g) =~= new.subrange(0, k).subrange(x, g));
        assert(t.subrange(x, g) =~= t.subrange(0, k).subrange(x, g));
        if g > 0 {
            assert(new[g - 1] == new.subrange(0, k)[g - 1]);
            assert(t[g - 1] == t.subrange(0, k)[g - 1]);
        }
        lemma_asin_added(t, k, new, esc, g + 1);
    } else {
        let g = q + 32;
        assert(new[q + 32] == element[32]);
        assert(text::spec_find_char(new, '>', q) == Some(g)) by {
            let h = text::spec_find_char(new, '>', q)->0;
            if h < g {
                assert(new[q + (h - q)] == element[h - q]);
            }
        }
        assert(new.subrange(q, g) =~= tag) by {
            assert forall|m: int| 0 <= m < 32 implies new[q + m] == #[trigger] tag[m] by {
                assert(new[q + m] == element[m]);
            }
        }
        lemma_asin_tag();
        assert(new[q + 31] == element[31]);
        let e = g + 1 + esc.len();
        assert(new.subrange(e, e + 16) =~= close) by {
            assert forall|m: int| 0 <= m < 16 implies new[e + m] == #[trigger] close[m] by {
                assert(new[q + (33 + esc.len() + m)] == element[33 + esc.len() + m]);
            }
        }
        assert forall|m: int| g + 1 <= m < e implies !#[trigger] text::is_at(new, close, m) by {
            if text::is_at(new, close, m) {
                assert(new.subrange(m, m + 16)[0] == close[0]);
                assert(new[q + (m - q)] == element[m - q]);
                assert(esc.contains(esc[m - g - 1]));
            }
        }
        metadata_edit::lemma_find_is(new, close, g + 1, e);
    }
}

/// An ASIN that the package document lacked is read back once it is set, and
/// stands at the end of its metadata; the rest is as it was.
pub proof fn an_added_asin_is_read_back(t: Seq<char>, asin: Seq<char>)
    requires
        metadata_edit::asin_from(t, 0) is None,
        text::spec_rfind(t, "</metadata>"@, t.len() as int) is Some,
        lacks_asin_before(t, text::spec_rfind(t, "</metadata>"@, t.len() as int)->0),
    ensures
        ({
            let esc = markup::spec_escape_text(asin);
            let new = metadata_edit::spec_set_asin(t, asin);
            &&& metadata_edit::asin_from(new, 0) matches Some((a, b)) && new.subrange(a, b) == esc
        }),
        markup::spec_unescape(markup::spec_escape_text(asin)) == asin,
{
    let esc = markup::spec_escape_text(asin);
    escaping::unescaping_undoes_escaping(asin);
    escaping::escaping_leaves_no_markup(asin);
    let k = text::spec_rfind(t, "</metadata>"@, t.len() as int)->0;
    metadata_edit::lemma_rfind(t, "</metadata>"@, t.len() as int);
    let head = "<dc:identifier opf:scheme=\"ASIN\">"@;
    reveal_strlit("  ");
    reveal_strlit("<dc:identifier opf:scheme=\"ASIN\">");
    let element = head + esc + "</dc:identifier>"@;
    let new = metadata_edit::spec_set_asin(t, asin);
    assert(new.subrange(0, k) =~= t.subrange(0, k));
    assert(new.subrange(k, k + 2) =~= "  "@);
    assert(new.subrange(k + 2, k + 2 + element.len()) =~= element);
    lemma_asin_added(t, k, new, esc, 0);
    assert(new.subrange(k + 35, k + 35 + esc.len()) =~= element.subrange(33, 33int + esc.len()));
    assert(element.subrange(33, 33int + esc.len()) =~= esc);
}

} // verus!
