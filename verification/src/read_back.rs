//! What is written into markup is read back from it.
use vstd::prelude::*;

use crate::escaping;
use crate::markup;
use crate::text;

verus! {

// ---------------------------------------------------------------- an attribute

/// The name of an attribute: some characters, none of which ends a name.
pub open spec fn is_attr_name(name: Seq<char>) -> bool {
    &&& name.len() > 0
    &&& forall|i: int|
        0 <= i < name.len() ==> (#[trigger] name[i]) != '=' && name[i] != '<' && name[i] != '"'
            && name[i] != '\'' && !text::is_white(name[i])
}

/// A search for a value passes the place `i` over: it is no attribute boundary,
/// or no quoted value follows it.
pub open spec fn passes(t: Seq<char>, needle: Seq<char>, i: int) -> bool {
    let a = i + needle.len();
    ||| !(i == 0 || markup::at_boundary(t, i))
    ||| (a < t.len() && t[a] != '"' && t[a] != '\'')
}

/// At `p` stands the needle with a quoted value that ends at `e`, and a search
/// from `from` on passes over every other place before it.
pub open spec fn value_at(t: Seq<char>, needle: Seq<char>, from: int, p: int, e: int) -> bool {
    let a = p + needle.len();
    &&& 0 <= from <= p
    &&& text::is_at(t, needle, p)
    &&& markup::at_boundary(t, p)
    &&& a < t.len()
    &&& t[a] == '"' || t[a] == '\''
    &&& text::spec_find_char(t, t[a], a + 1) == Some(e)
    &&& forall|i: int| from <= i < p && #[trigger] text::is_at(t, needle, i) ==> passes(t, needle, i)
}

proof fn lemma_apart(t: Seq<char>, name: Seq<char>, i: int, p: int)
    requires
        is_attr_name(name),
        text::is_at(t, name.push('='), i),
        text::is_at(t, name.push('='), p),
        i < p,
    ensures
        i + name.len() + 1 <= p,
{
    let needle = name.push('=');
    let k = i + name.len();
    assert(t.subrange(i, i + needle.len())[name.len() as int] == '=');
    assert(t[k] == '=');
    if p <= k {
        assert(t.subrange(p, p + needle.len())[k - p] == t[k]);
        assert(needle[k - p] == name[k - p]);
    }
}

pub proof fn lemma_value_found(t: Seq<char>, name: Seq<char>, from: int, p: int, e: int)
    requires
        is_attr_name(name),
        value_at(t, name.push('='), from, p, e),
    ensures
        markup::value_from(t, name.push('='), from) == Some(
            t.subrange(p + name.len() + 2, e),
        ),
    decreases p - from,
{
    let needle = name.push('=');
    text::lemma_find(t, needle, from);
    let q = text::spec_find(t, needle, from)->0;
    if q < p {
        assert(text::is_at(t, needle, q));
        assert(passes(t, needle, q));
        lemma_apart(t, name, q, p);
        lemma_value_found(t, name, q + needle.len(), p, e);
    }
}

/// A value that is read stands at a place that the search finds, and that
/// setting the attribute finds too.
proof fn lemma_value_place(t: Seq<char>, name: Seq<char>, from: int) -> (r: (int, int))
    requires
        is_attr_name(name),
        t.len() > 0,
        t[0] == '<',
        0 <= from,
        markup::value_from(t, name.push('='), from) is Some,
    ensures
        value_at(t, name.push('='), from, r.0, r.1),
        markup::slot_from(t, name.push('='), from) == Some(
            (r.0, r.0 + name.len() + 2, r.1),
        ),
    decreases t.len() - from,
{
    let needle = name.push('=');
    text::lemma_find(t, needle, from);
    let q = text::spec_find(t, needle, from)->0;
    let a = q + needle.len();
    if q == 0 {
        assert(t.subrange(0, needle.len() as int)[0] == needle[0]);
        assert(needle[0] == name[0]);
    }
    if markup::at_boundary(t, q) && (t[a] == '"' || t[a] == '\'') {
        (q, text::spec_find_char(t, t[a], a + 1)->0)
    } else {
        let r = lemma_value_place(t, name, a);
        assert forall|i: int| from <= i < r.0 && #[trigger] text::is_at(t, needle, i) implies passes(
            t,
            needle,
            i,
        ) by {
            if i > q && i < a {
                lemma_apart(t, name, q, i);
            }
        }
        r
    }
}

proof fn lemma_no_apostrophe(v: Seq<char>)
    requires
        !v.contains('\''),
    ensures
        !markup::spec_escape_attr(v).contains('\''),
{
    escaping::lemma_escape(v);
    lemma_flat_no_apostrophe(v);
}

proof fn lemma_flat_no_apostrophe(v: Seq<char>)
    requires
        !v.contains('\''),
    ensures
        !escaping::flat(v, |c: char| escaping::entity(c, true)).contains('\''),
    decreases v.len(),
{
    if v.len() > 0 {
        let rest = v.drop_first();
        assert forall|k: int| 0 <= k < rest.len() implies #[trigger] rest[k] != '\'' by {
            assert(rest[k] == v[k + 1]);
            assert(v.contains(v[k + 1]));
        }
        lemma_flat_no_apostrophe(rest);
        assert(v.contains(v[0]));
        let f = |c: char| escaping::entity(c, true);
        let head = f(v[0]);
        let tail = escaping::flat(rest, f);
        reveal_strlit("&amp;");
        reveal_strlit("&lt;");
        reveal_strlit("&gt;");
        reveal_strlit("&quot;");
        assert forall|k: int| 0 <= k < (head + tail).len() implies #[trigger] (head + tail)[k]
            != '\'' by {
            if k < head.len() {
                assert((head + tail)[k] == head[k]);
            } else {
                assert((head + tail)[k] == tail[k - head.len()]);
                assert(tail.contains(tail[k - head.len()]));
            }
        }
    }
}

pub proof fn lemma_find_char_is(t: Seq<char>, c: char, i: int, e: int)
    requires
        0 <= i <= e < t.len(),
        t[e] == c,
        forall|k: int| i <= k < e ==> #[trigger] t[k] != c,
    ensures
        text::spec_find_char(t, c, i) == Some(e),
{
    text::lemma_find_char(t, c, i);
    let k = text::spec_find_char(t, c, i)->0;
    if k < e {
        assert(t[k] != c);
    }
}

/// The attribute stands in the tag with a value in single quotes.
pub open spec fn is_single_quoted(tag: Seq<char>, name: Seq<char>) -> bool {
    markup::slot_from(tag, name.push('='), 0) matches Some((p, a, b)) && tag[a - 1] == '\''
}

/// The value of an attribute that is set is read back, where the attribute could
/// be read before.
proof fn lemma_replaced_value(tag: Seq<char>, name: Seq<char>, v: Seq<char>)
    requires
        is_attr_name(name),
        tag.len() > 0,
        tag[0] == '<',
        is_single_quoted(tag, name) ==> !v.contains('\''),
        markup::spec_attr_value(tag, name) is Some,
    ensures
        markup::spec_attr_value(markup::spec_set_attr(tag, name, Some(v)), name) == Some(
            markup::spec_escape_attr(v),
        ),
{
    let needle = name.push('=');
    let (p, b) = lemma_value_place(tag, name, 0);
    let a = p + needle.len() + 1;
    let esc = markup::spec_escape_attr(v);
    let new = markup::spec_set_attr(tag, name, Some(v));
    text::lemma_find_char(tag, tag[a - 1], a);
    assert(new == tag.subrange(0, a) + esc + tag.subrange(b, tag.len() as int));
    let e = a + esc.len();
    assert forall|k: int| 0 <= k < a implies #[trigger] new[k] == tag[k] by {}
    assert(new[e] == tag[b]);
    escaping::escaping_leaves_no_markup(v);
    assert(!esc.contains(tag[a - 1])) by {
        if tag[a - 1] == '\'' {
            lemma_no_apostrophe(v);
        }
    }
    assert forall|k: int| a <= k < e implies #[trigger] new[k] != tag[a - 1] by {
        assert(new[k] == esc[k - a]);
        assert(esc.contains(esc[k - a]));
    }
    lemma_find_char_is(new, tag[a - 1], a, e);
    assert(new.subrange(p, p + needle.len()) =~= tag.subrange(p, p + needle.len()));
    assert forall|i: int| 0 <= i < p && #[trigger] text::is_at(new, needle, i) implies passes(
        new,
        needle,
        i,
    ) by {
        assert(text::is_at(new, needle, p));
        lemma_apart(new, name, i, p);
        assert(new.subrange(i, i + needle.len()) =~= tag.subrange(i, i + needle.len()));
        assert(text::is_at(tag, needle, i));
        assert(passes(tag, needle, i));
        if i > 0 {
            assert(new[i - 1] == tag[i - 1]);
        }
        assert(new[i + needle.len()] == tag[i + needle.len()]);
    }
    lemma_value_found(new, name, 0, p, e);
    assert(new.subrange(a, e) =~= esc);
}

/// The attribute starts nowhere in the tag.
pub open spec fn lacks_attr(tag: Seq<char>, name: Seq<char>) -> bool {
    forall|i: int| #[trigger] text::is_at(tag, name.push('='), i) ==> !markup::at_boundary(tag, i)
}

proof fn lemma_no_slot(tag: Seq<char>, name: Seq<char>, from: int)
    requires
        is_attr_name(name),
        lacks_attr(tag, name),
        0 <= from,
    ensures
        markup::slot_from(tag, name.push('='), from) is None,
    decreases tag.len() - from,
{
    let needle = name.push('=');
    text::lemma_find(tag, needle, from);
    if let Some(p) = text::spec_find(tag, needle, from) {
        assert(!markup::at_boundary(tag, p));
        lemma_no_slot(tag, name, p + needle.len());
    }
}

proof fn lemma_written_value(
    tag: Seq<char>,
    n: int,
    name: Seq<char>,
    v: Seq<char>,
    tail: Seq<char>,
)
    requires
        is_attr_name(name),
        lacks_attr(tag, name),
        tag.len() > 0,
        tag[0] == '<',
        0 <= n <= tag.len(),
    ensures
        markup::spec_attr_value(
            tag.subrange(0, n) + (" "@ + name + "=\""@ + markup::spec_escape_attr(v) + "\""@) + tail,
            name,
        ) == Some(markup::spec_escape_attr(v)),
        value_at(
            tag.subrange(0, n) + (" "@ + name + "=\""@ + markup::spec_escape_attr(v) + "\""@) + tail,
            name.push('='),
            0,
            n + 1,
            n + name.len() + 3 + markup::spec_escape_attr(v).len(),
        ),
{
    reveal_strlit(" ");
    reveal_strlit("=\"");
    reveal_strlit("\"");
    let needle = name.push('=');
    let esc = markup::spec_escape_attr(v);
    let written = " "@ + name + "=\""@ + esc + "\""@;
    let new = tag.subrange(0, n) + written + tail;
    let p = n + 1;
    let a = p + needle.len();
    let e = a + 1 + esc.len();
    assert(new[n] == ' ');
    assert forall|k: int| 0 <= k < name.len() implies new[p + k] == #[trigger] name[k] by {
        assert(written[1 + k] == name[k]);
    }
    assert(written[1int + name.len()] == '=');
    assert(new[p + name.len()] == '=');
    assert(new.subrange(p, a) =~= needle);
    assert(written[2int + name.len()] == '"');
    assert(new[a] == '"');
    assert(written[3int + name.len() + esc.len()] == '"');
    assert(new[e] == '"');
    escaping::escaping_leaves_no_markup(v);
    assert forall|k: int| a + 1 <= k < e implies #[trigger] new[k] != '"' && new[k] == esc[k - a
        - 1] by {
        assert(written[k - n] == esc[k - a - 1]);
        assert(esc.contains(esc[k - a - 1]));
    }
    lemma_find_char_is(new, '"', a + 1, e);
    assert forall|i: int| 0 <= i < p && #[trigger] text::is_at(new, needle, i) implies passes(
        new,
        needle,
        i,
    ) by {
        assert(text::is_at(new, needle, p));
        lemma_apart(new, name, i, p);
        if i + needle.len() == p {
            assert(new.subrange(i, i + needle.len())[name.len() as int] == '=');
        }
        assert(new.subrange(i, i + needle.len()) =~= tag.subrange(i, i + needle.len()));
        assert(text::is_at(tag, needle, i));
        if i > 0 {
            assert(new[i - 1] == tag[i - 1]);
        } else {
            assert(tag.subrange(0, needle.len() as int)[0] == needle[0]);
            assert(needle[0] == name[0]);
        }
    }
    lemma_value_found(new, name, 0, p, e);
    assert(new.subrange(a + 1, e) =~= esc);
}

proof fn lemma_back_char(s: Seq<char>, c: char, j: int)
    requires
        0 <= j <= s.len(),
    ensures
        0 <= text::back_char(s, c, j) <= j,
    decreases j,
{
    if 0 < j && s[j - 1] == c {
        lemma_back_char(s, c, j - 1);
    }
}

/// An attribute that is set is read back: as it is escaped, and after reading the
/// entities as the value it was set to. The tag either has the attribute, with a
/// value that can be read, or has it nowhere; one in single quotes takes a value
/// without them.
pub proof fn a_set_attribute_is_read_back(tag: Seq<char>, name: Seq<char>, v: Seq<char>)
    requires
        is_attr_name(name),
        tag.len() > 0,
        tag[0] == '<',
        is_single_quoted(tag, name) ==> !v.contains('\''),
        markup::spec_attr_value(tag, name) is Some || lacks_attr(tag, name),
    ensures
        markup::spec_attr_value(markup::spec_set_attr(tag, name, Some(v)), name) == Some(
            markup::spec_escape_attr(v),
        ),
        markup::spec_unescape(markup::spec_escape_attr(v)) == v,
{
    escaping::unescaping_undoes_escaping(v);
    if markup::spec_attr_value(tag, name) is Some {
        lemma_replaced_value(tag, name, v);
    } else {
        lemma_no_slot(tag, name, 0);
        let n = text::back_char(tag, '>', tag.len() as int);
        lemma_back_char(tag, '>', tag.len() as int);
        let body = text::spec_trim_end_char(tag, '>');
        let written = " "@ + name + "=\""@ + markup::spec_escape_attr(v) + "\""@;
        if text::spec_ends(body, "/"@) {
            reveal_strlit("/");
            let inner = body.drop_last();
            let m = text::back_white(inner, 0, inner.len() as int);
            text::lemma_back_white(inner, 0, inner.len() as int);
            assert(text::spec_trim_end(inner) =~= tag.subrange(0, m));
            lemma_written_value(tag, m, name, v, "/>"@);
        } else {
            lemma_written_value(tag, n, name, v, ">"@);
        }
    }
}

/// The tag ends in `>` or `/>`, and nothing blank stands before that.
pub open spec fn ends_tight(tag: Seq<char>) -> bool {
    let n = tag.len() - if text::spec_ends(tag, "/>"@) {
        2int
    } else {
        1
    };
    &&& tag.len() > 0
    &&& tag.last() == '>'
    &&& n > 0
    &&& tag[n - 1] != '>'
    &&& tag[n - 1] != '/'
    &&& !text::is_white(tag[n - 1])
}

/// A tag with an attribute added before its end, and without it.
proof fn lemma_taken_out(tag: Seq<char>, n: int, name: Seq<char>, v: Seq<char>, tail: Seq<char>)
    requires
        is_attr_name(name),
        lacks_attr(tag, name),
        tag.len() > 0,
        tag[0] == '<',
        0 < n <= tag.len(),
        !text::is_white(tag[n - 1]),
        tag == tag.subrange(0, n) + tail,
    ensures
        markup::spec_set_attr(
            tag.subrange(0, n) + (" "@ + name + "=\""@ + markup::spec_escape_attr(v) + "\""@) + tail,
            name,
            None,
        ) == tag,
{
    let esc = markup::spec_escape_attr(v);
    let written = " "@ + name + "=\""@ + esc + "\""@;
    let new = tag.subrange(0, n) + written + tail;
    let needle = name.push('=');
    lemma_written_value(tag, n, name, v, tail);
    let e = n + name.len() + 3 + esc.len();
    let (p, b) = lemma_value_place(new, name, 0);
    if p < n + 1 {
        assert(passes(new, needle, p));
    } else if n + 1 < p {
        assert(passes(new, needle, n + 1));
    }
    reveal_strlit(" ");
    reveal_strlit("=\"");
    reveal_strlit("\"");
    let front = new.subrange(0, n + 1);
    assert(front[n] == ' ');
    assert(front[n - 1] == tag[n - 1]);
    assert(text::back_white(front, 0, n) == n);
    assert(text::back_white(front, 0, n + 1) == n);
    assert(text::spec_trim_end(front) =~= tag.subrange(0, n));
    assert(new.subrange(e + 1, new.len() as int) =~= tail);
}

/// An attribute that is set in a tag without it and then taken out again leaves
/// the tag as it was. The tag has nothing blank before its end, which setting an
/// attribute does not keep.
pub proof fn taking_out_a_set_attribute_gives_the_tag_back(
    tag: Seq<char>,
    name: Seq<char>,
    v: Seq<char>,
)
    requires
        is_attr_name(name),
        tag.len() > 0,
        tag[0] == '<',
        lacks_attr(tag, name),
        ends_tight(tag),
    ensures
        markup::spec_set_attr(markup::spec_set_attr(tag, name, Some(v)), name, None) == tag,
        markup::spec_set_attr(tag, name, None) == tag,
{
    lemma_no_slot(tag, name, 0);
    reveal_strlit("/");
    reveal_strlit(">");
    reveal_strlit("/>");
    let len = tag.len() as int;
    assert(text::back_char(tag, '>', len - 1) == len - 1) by {
        if tag[len - 2] == '>' {
            if text::spec_ends(tag, "/>"@) {
                assert(tag.subrange(len - 2, len)[0] == tag[len - 2]);
            }
        }
    }
    let body = text::spec_trim_end_char(tag, '>');
    assert(body =~= tag.subrange(0, len - 1));
    if text::spec_ends(tag, "/>"@) {
        assert(tag.subrange(len - 2, len)[0] == '/');
        assert(body.subrange(len - 2, len - 1) =~= "/"@);
        let inner = body.drop_last();
        assert(inner =~= tag.subrange(0, len - 2));
        assert(inner[len - 3] == tag[len - 3]);
        assert(text::back_white(inner, 0, len - 2) == len - 2);
        assert(text::spec_trim_end(inner) =~= inner);
        assert(tag =~= tag.subrange(0, len - 2) + "/>"@);
        lemma_taken_out(tag, len - 2, name, v, "/>"@);
    } else {
        assert(!text::spec_ends(body, "/"@)) by {
            if text::spec_ends(body, "/"@) {
                assert(body.subrange(len - 2, len - 1)[0] == '/');
            }
        }
        assert(tag =~= tag.subrange(0, len - 1) + ">"@);
        lemma_taken_out(tag, len - 1, name, v, ">"@);
    }
}

} // verus!
