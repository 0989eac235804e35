//! An entry keeps a fragment that its document defines, and leads to the document
//! without one that it does not.
use vstd::prelude::*;

use crate::toc::Toc;
use crate::{read_back, text, toc_repair};

verus! {

/// A document that gives an element the id, or a name, in quotes of either kind, defines
/// it as a target.
pub proof fn an_id_is_a_target(
    a: Seq<char>,
    by_name: bool,
    quote: char,
    id: Seq<char>,
    b: Seq<char>,
)
    requires
        quote == '"' || quote == '\'',
        !id.contains(quote),
    ensures
        toc_repair::spec_defines_fragment(
            a + (if by_name {
                "name="@
            } else {
                "id="@
            }) + seq![quote] + id + seq![quote] + b,
            id,
        ),
{
    reveal_strlit("name=");
    reveal_strlit("id=");
    let attr = if by_name {
        "name="@
    } else {
        "id="@
    };
    let t = a + attr + seq![quote] + id + seq![quote] + b;
    let n = a.len() as int;
    let i = n + attr.len();
    let m = id.len() as int;
    assert(t.subrange(n, n + attr.len()) =~= attr);
    assert(text::is_at(t, attr, n));
    assert(t[i] == quote);
    assert(t[i + 1 + m] == quote);
    assert forall|k: int| i + 1 <= k < i + 1 + m implies #[trigger] t[k] != quote by {
        assert(t[k] == id[k - i - 1]);
        assert(id.contains(id[k - i - 1]));
    }
    read_back::lemma_find_char_is(t, quote, i + 1, i + 1 + m);
    assert(t.subrange(i + 1, i + 1 + m) =~= id);
    assert(toc_repair::quoted_at(t, n + attr.len()) == Some(id));
    assert(toc_repair::says(t, attr, id));
}

/// A document in which the id stands nowhere does not define it.
pub proof fn an_id_that_stands_nowhere_is_no_target(t: Seq<char>, id: Seq<char>)
    requires
        !text::spec_contains(t, id),
    ensures
        !toc_repair::spec_defines_fragment(t, id),
{
    text::lemma_find(t, id, 0);
    lemma_unsaid(t, "id="@, id);
    lemma_unsaid(t, "name="@, id);
}

proof fn lemma_unsaid(t: Seq<char>, attr: Seq<char>, id: Seq<char>)
    requires
        !text::spec_contains(t, id),
    ensures
        !toc_repair::says(t, attr, id),
{
    text::lemma_find(t, id, 0);
    if toc_repair::says(t, attr, id) {
        let k = choose|k: int| #[trigger]
            text::is_at(t, attr, k) && toc_repair::quoted_at(t, k + attr.len()) == Some(id);
        let i = k + attr.len();
        text::lemma_find_char(t, t[i], i + 1);
        let e = match text::spec_find_char(t, t[i], i + 1) {
            Some(q) => q,
            None => t.len() as int,
        };
        assert(id == t.subrange(i + 1, e));
        assert(t.subrange(i + 1, i + 1 + id.len()) =~= id);
        assert(text::is_at(t, id, i + 1));
    }
}

/// Two lists of entries agree but for fragments: titles and nesting are the same.
pub open spec fn same_titles(a: Seq<Toc>, b: Seq<Toc>) -> bool
    decreases a,
{
    a.len() == b.len() && (a.len() > 0 ==> same_titles(a.drop_last(), b.drop_last()) && a.last().title
        == b.last().title && same_titles(a.last().children, b.last().children))
}

/// Taking undefined fragments off the entries keeps every entry, its title and its place.
pub proof fn entries_keep_their_titles(p: Seq<crate::archive::Part>, v: Seq<Toc>)
    ensures
        same_titles(v, toc_repair::spec_resolve_fragments(p, v)),
    decreases v,
{
    let w = toc_repair::spec_resolve_fragments(p, v);
    if v.len() > 0 {
        entries_keep_their_titles(p, v.drop_last());
        entries_keep_their_titles(p, v.last().children);
        assert(w.drop_last() =~= toc_repair::spec_resolve_fragments(p, v.drop_last()));
    }
}

} // verus!
