//! An element whose class is renamed has the new one in place of the old, and every
//! other class as before.
use vstd::prelude::*;

use crate::residuals_read::is_word;
use crate::{class_rename, escaping, markup, read_back, residuals_read, text};

verus! {

/// A class that can be written as it is.
pub open spec fn is_class(s: Seq<char>) -> bool {
    is_word(s) && !s.contains('&') && !s.contains('<') && !s.contains('>') && !s.contains('"') && !s.contains(
        '\'',
    )
}

pub open spec fn are_classes(v: Seq<Seq<char>>) -> bool {
    forall|k: int| 0 <= k < v.len() ==> is_class(#[trigger] v[k])
}

proof fn lemma_prefix(v: Seq<Seq<char>>, k: int, n: int)
    requires
        0 <= k <= n <= v.len(),
    ensures
        ({
            let a = text::join_to(v, " "@, k);
            let t = text::join_to(v, " "@, n);
            a.len() <= t.len() && t.subrange(0, a.len() as int) == a
        }),
    decreases n - k,
{
    reveal_strlit(" ");
    let a = text::join_to(v, " "@, k);
    let t = text::join_to(v, " "@, n);
    if k < n {
        lemma_prefix(v, k, n - 1);
        let u = text::join_to(v, " "@, n - 1);
        if n == 1 {
            assert(a =~= Seq::<char>::empty());
            assert(t.subrange(0, 0) =~= a);
        } else {
            assert(t.subrange(0, a.len() as int) =~= u.subrange(0, a.len() as int));
        }
    } else {
        assert(t.subrange(0, t.len() as int) =~= t);
    }
}

/// Where the `k`-th word is looked for.
spec fn start(v: Seq<Seq<char>>, k: int) -> int {
    text::join_to(v, " "@, k).len() as int
}

proof fn lemma_words(v: Seq<Seq<char>>, k: int)
    requires
        are_classes(v),
        0 <= k <= v.len(),
    ensures
        text::words_from(text::spec_join(v, " "@), start(v, k)) == v.subrange(k, v.len() as int),
    decreases v.len() - k,
{
    reveal_strlit(" ");
    let n = v.len() as int;
    let t = text::spec_join(v, " "@);
    let i = start(v, k);
    lemma_prefix(v, k, n);
    if k < n {
        lemma_prefix(v, k + 1, n);
        assert(is_class(v[k]));
        let b = text::join_to(v, " "@, k + 1);
        let w = v[k];
        let a = if k == 0 {
            i
        } else {
            i + 1
        };
        assert(b.len() == a + w.len());
        assert(b.subrange(a, b.len() as int) =~= w);
        assert(t.subrange(0, b.len() as int).subrange(a, b.len() as int) =~= t.subrange(
            a,
            b.len() as int,
        ));
        assert(text::is_at(t, w, a));
        if k > 0 {
            assert(b[i] == ' ');
            assert(t.subrange(0, b.len() as int)[i] == t[i]);
        }
        if b.len() < t.len() {
            lemma_prefix(v, k + 2, n);
            let c = text::join_to(v, " "@, k + 2);
            assert(c == b + " "@ + v[k + 1]);
            assert(c[b.len() as int] == ' ');
            assert(t.subrange(0, c.len() as int)[b.len() as int] == t[b.len() as int]);
        }
        residuals_read::lemma_first_word(t, w, a);
        assert(t.subrange(a, a + w.len())[0] == t[a]);
        assert(text::skip_white(t, a) == a);
        assert(text::skip_white(t, i) == a);
        assert(text::words_from(t, i) == text::words_from(t, a));
        lemma_words(v, k + 1);
        assert(seq![w] + v.subrange(k + 1, n) =~= v.subrange(k, n));
    } else {
        assert(i == t.len());
        assert(text::skip_white(t, i) == i);
        assert(text::words_from(t, i) =~= Seq::empty());
        assert(v.subrange(k, n) =~= Seq::empty());
    }
}

/// Words with a space between one and the next are read as the words.
pub proof fn joined_words_are_the_words(v: Seq<Seq<char>>)
    requires
        are_classes(v),
    ensures
        text::spec_words(text::spec_join(v, " "@)) == v,
{
    lemma_words(v, 0);
    assert(v.subrange(0, v.len() as int) =~= v);
    assert(text::join_to(v, " "@, 0).len() == 0);
}

proof fn lemma_join_lacks(v: Seq<Seq<char>>, c: char, n: int)
    requires
        are_classes(v),
        0 <= n <= v.len(),
        c == '&' || c == '<' || c == '>' || c == '"' || c == '\'',
    ensures
        !text::join_to(v, " "@, n).contains(c),
    decreases n,
{
    reveal_strlit(" ");
    let t = text::join_to(v, " "@, n);
    if n > 0 {
        lemma_join_lacks(v, c, n - 1);
        assert(is_class(v[n - 1]));
        if n > 1 {
            let a = text::join_to(v, " "@, n - 1);
            crate::plain_css::lemma_lacks_join(a, " "@, c);
            crate::plain_css::lemma_lacks_join(a + " "@, v[n - 1], c);
        }
    }
}

proof fn lemma_unescaped(s: Seq<char>)
    requires
        !s.contains('&'),
        !s.contains('<'),
        !s.contains('>'),
        !s.contains('"'),
    ensures
        markup::spec_escape_attr(s) == s,
{
    escaping::lemma_escape(s);
    escaping::lemma_flat_plain(s);
    assert forall|k: int| 0 <= k < s.len() implies (|c: char| escaping::entity(c, true))(#[trigger] s[k])
        == (|c: char| seq![c])(s[k]) by {
        assert(s.contains(s[k]));
    }
    escaping::lemma_flat_same(s, |c: char| escaping::entity(c, true), |c: char| seq![c]);
}

proof fn lemma_renamed(v: Seq<Seq<char>>, from: Seq<char>, to: Seq<char>, n: int)
    requires
        are_classes(v),
        is_class(to),
        0 <= n <= v.len(),
    ensures
        are_classes(class_rename::renamed_to(v, from, to, n)),
    decreases n,
{
    if n > 0 {
        lemma_renamed(v, from, to, n - 1);
        assert(is_class(v[n - 1]));
    }
}

/// The classes of an element whose class is renamed: the new one in place of the old,
/// each once, and every other as before. Its other attributes are not its classes.
pub proof fn an_element_takes_the_new_class(tag: Seq<char>, from: Seq<char>, to: Seq<char>)
    requires
        tag.len() > 0,
        tag[0] == '<',
        markup::spec_class_list(tag).contains(from),
        are_classes(markup::spec_class_list(tag)),
        is_class(to),
        from != to,
    ensures
        ({
            let v = markup::spec_class_list(tag);
            let w = markup::spec_class_list(class_rename::tag_renamed(tag, from, to));
            &&& w.contains(to)
            &&& !w.contains(from)
            &&& w.no_duplicates()
            &&& forall|c: Seq<char>| c != from && c != to ==> (#[trigger] w.contains(c) <==> v.contains(c))
        }),
{
    reveal_strlit("class");
    let v = markup::spec_class_list(tag);
    let n = v.len() as int;
    let r = class_rename::renamed_to(v, from, to, n);
    lemma_renamed(v, from, to, n);
    let s = text::spec_join(r, " "@);
    lemma_join_lacks(r, '&', r.len() as int);
    lemma_join_lacks(r, '<', r.len() as int);
    lemma_join_lacks(r, '>', r.len() as int);
    lemma_join_lacks(r, '"', r.len() as int);
    lemma_join_lacks(r, '\'', r.len() as int);
    lemma_unescaped(s);
    assert(markup::spec_attr_value(tag, "class"@) is Some);
    read_back::a_set_attribute_is_read_back(tag, "class"@, s);
    joined_words_are_the_words(r);
    class_rename::a_renamed_list_holds_the_new_name(v, from, to, n);
    assert(v.take(n) =~= v);
    assert(v.take(n).contains(from));
    assert(r.contains(to));
    assert(r.contains(from) <==> from != from && v.take(n).contains(from));
}

} // verus!
