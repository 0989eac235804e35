//! Reading markup on from a place in it, whatever stands before: the theory that
//! the two navigation documents are read back by.
use vstd::prelude::*;

use crate::escaping;
use crate::markup;
use crate::nav_doc;
use crate::opf;
use crate::read_back;
use crate::structure;
use crate::text;
use crate::toc;
use crate::markup::Token;
use crate::toc::{Growth, Toc};

verus! {

/// What a reader's state becomes at a tag: from where the tag starts and ends,
/// its name, whether it closes, and the state before it.
pub type Step<S> = spec_fn(int, int, Seq<char>, bool, S) -> S;

/// The state once the tokens from `k` on are met.
pub open spec fn fold_from<S>(v: Seq<Token>, k: int, s: S, f: Step<S>) -> S
    decreases v.len() - k,
{
    if k < 0 || k >= v.len() {
        s
    } else {
        match v[k] {
            Token::Tag { start, end, name, closing, .. } => fold_from(
                v,
                k + 1,
                f(start, end, name, closing, s),
                f,
            ),
            Token::Text { .. } => fold_from(v, k + 1, s, f),
        }
    }
}

/// The state once the text from `i` on is read.
pub open spec fn read_on<S>(t: Seq<char>, i: int, s: S, f: Step<S>) -> S
    decreases t.len() - i,
{
    if i < 0 || i >= t.len() {
        s
    } else if t[i] != '<' {
        read_on(t, i + 1, s, f)
    } else {
        match markup::skipped(t, i) {
            Some(e) if i < e <= t.len() => read_on(t, e, s, f),
            _ => {
                let closing = text::is_at(t, "</"@, i);
                let a = if closing {
                    i + 2
                } else {
                    i + 1
                };
                let b = markup::name_end(t, a);
                if b <= a {
                    read_on(t, i + 1, s, f)
                } else {
                    match markup::tag_close(t, b, None) {
                        Some(j) if i < j < t.len() => read_on(
                            t,
                            j + 1,
                            f(i, j + 1, text::spec_lower(t.subrange(a, b)), closing, s),
                            f,
                        ),
                        _ => s,
                    }
                }
            },
        }
    }
}

pub proof fn lemma_fold_text<S>(v: Seq<Token>, a: int, b: int, rest: Seq<Token>, s: S, f: Step<S>)
    requires
        v == markup::text_token(a, b) + rest,
    ensures
        fold_from(v, 0, s, f) == fold_from(rest, 0, s, f),
{
    if a < b {
        assert(v =~= seq![Token::Text { start: a, end: b }] + rest);
        lemma_fold_shift(seq![Token::Text { start: a, end: b }], rest, 0, s, f);
    } else {
        assert(v =~= rest);
    }
}

pub proof fn lemma_fold_shift<S>(a: Seq<Token>, b: Seq<Token>, k: int, s: S, f: Step<S>)
    requires
        0 <= k,
    ensures
        fold_from(a + b, a.len() + k, s, f) == fold_from(b, k, s, f),
    decreases b.len() - k,
{
    if k < b.len() {
        let s2 = match b[k] {
            Token::Tag { start, end, name, closing, .. } => f(start, end, name, closing, s),
            Token::Text { .. } => s,
        };
        assert((a + b)[a.len() + k] == b[k]);
        lemma_fold_shift(a, b, k + 1, s2, f);
    }
}

/// Reading the text on is meeting its tokens.
pub proof fn lemma_read_on<S>(t: Seq<char>, i: int, from: int, s: S, f: Step<S>)
    requires
        0 <= from <= i,
    ensures
        fold_from(markup::tokens_from(t, i, from), 0, s, f) == read_on(t, i, s, f),
    decreases t.len() - i,
{
    let v = markup::tokens_from(t, i, from);
    if i >= t.len() {
        assert(v =~= markup::text_token(from, t.len() as int) + Seq::<Token>::empty());
        lemma_fold_text(v, from, t.len() as int, Seq::empty(), s, f);
    } else if t[i] != '<' {
        lemma_read_on(t, i + 1, from, s, f);
    } else {
        match markup::skipped(t, i) {
            Some(e) if i < e <= t.len() => {
                lemma_read_on(t, e, from, s, f);
            },
            _ => {
                let closing = text::is_at(t, "</"@, i);
                let a = if closing {
                    i + 2
                } else {
                    i + 1
                };
                let b = markup::name_end(t, a);
                if b <= a {
                    lemma_read_on(t, i + 1, from, s, f);
                } else {
                    match markup::tag_close(t, b, None) {
                        Some(j) if i < j < t.len() => {
                            let name = text::spec_lower(t.subrange(a, b));
                            let tag = Token::Tag {
                                start: i,
                                end: j + 1,
                                name,
                                closing,
                                self_closing: t[j - 1] == '/',
                            };
                            let rest = markup::tokens_from(t, j + 1, j + 1);
                            assert(v =~= markup::text_token(from, i) + (seq![tag] + rest));
                            lemma_fold_text(v, from, i, seq![tag] + rest, s, f);
                            let s2 = f(i, j + 1, name, closing, s);
                            assert((seq![tag] + rest)[0] == tag);
                            lemma_fold_shift(seq![tag], rest, 0, s2, f);
                            lemma_read_on(t, j + 1, j + 1, s2, f);
                        },
                        _ => {
                            assert(v =~= markup::text_token(from, t.len() as int) + Seq::<
                                Token,
                            >::empty());
                            lemma_fold_text(v, from, t.len() as int, Seq::empty(), s, f);
                        },
                    }
                }
            },
        }
    }
}

/// What follows a tag among the tokens is what the text behind it is read as.
pub proof fn lemma_behind(t: Seq<char>, i: int, from: int, k: int)
    requires
        0 <= from <= i,
        0 <= k < markup::tokens_from(t, i, from).len(),
        markup::tokens_from(t, i, from)[k] is Tag,
    ensures
        ({
            let v = markup::tokens_from(t, i, from);
            v.subrange(k + 1, v.len() as int) == markup::tokens_from(t, v[k].end(), v[k].end())
        }),
    decreases t.len() - i,
{
    let v = markup::tokens_from(t, i, from);
    if i >= t.len() {
    } else if t[i] != '<' {
        lemma_behind(t, i + 1, from, k);
    } else {
        match markup::skipped(t, i) {
            Some(e) if i < e <= t.len() => {
                lemma_behind(t, e, from, k);
            },
            _ => {
                let closing = text::is_at(t, "</"@, i);
                let a = if closing {
                    i + 2
                } else {
                    i + 1
                };
                let b = markup::name_end(t, a);
                if b <= a {
                    lemma_behind(t, i + 1, from, k);
                } else {
                    match markup::tag_close(t, b, None) {
                        Some(j) if i < j < t.len() => {
                            let tag = Token::Tag {
                                start: i,
                                end: j + 1,
                                name: text::spec_lower(t.subrange(a, b)),
                                closing,
                                self_closing: t[j - 1] == '/',
                            };
                            let head = markup::text_token(from, i).push(tag);
                            let rest = markup::tokens_from(t, j + 1, j + 1);
                            assert(v =~= head + rest);
                            if k < head.len() {
                                assert(k == head.len() - 1);
                                assert(v.subrange(k + 1, v.len() as int) =~= rest);
                            } else {
                                let m = k - head.len();
                                assert(rest[m] == v[k]);
                                lemma_behind(t, j + 1, j + 1, m);
                                assert(v.subrange(k + 1, v.len() as int) =~= rest.subrange(
                                    m + 1,
                                    rest.len() as int,
                                ));
                            }
                        },
                        _ => {},
                    }
                }
            },
        }
    }
}

/// The label that starts at `e`: the text up to the next tag.
pub open spec fn label_from(t: Seq<char>, e: int) -> Seq<char> {
    let v = markup::tokens_from(t, e, e);
    if v.len() > 0 {
        match v[0] {
            Token::Text { start, end } => toc::label_read(t.subrange(start, end)),
            _ => Seq::empty(),
        }
    } else {
        Seq::empty()
    }
}

pub proof fn lemma_label_behind(t: Seq<char>, k: int)
    requires
        0 <= k < markup::spec_tokens(t).len(),
        markup::spec_tokens(t)[k] is Tag,
    ensures
        toc::label_behind(t, markup::spec_tokens(t), k) == label_from(
            t,
            markup::spec_tokens(t)[k].end(),
        ),
{
    let v = markup::spec_tokens(t);
    lemma_behind(t, 0, 0, k);
    let rest = markup::tokens_from(t, v[k].end(), v[k].end());
    assert(rest.len() == v.len() - k - 1);
    if rest.len() > 0 {
        assert(rest[0] == v[k + 1]);
    }
}

pub proof fn lemma_plain<S>(t: Seq<char>, i: int, j: int, s: S, f: Step<S>)
    requires
        0 <= i <= j <= t.len(),
        forall|k: int| i <= k < j ==> #[trigger] t[k] != '<',
    ensures
        read_on(t, i, s, f) == read_on(t, j, s, f),
    decreases j - i,
{
    if i < j {
        lemma_plain(t, i + 1, j, s, f);
    }
}

pub proof fn lemma_name_end_is(t: Seq<char>, a: int, b: int)
    requires
        0 <= a <= b < t.len(),
        forall|k: int| a <= k < b ==> markup::name_char(#[trigger] t[k]),
        !markup::name_char(t[b]),
    ensures
        markup::name_end(t, a) == b,
    decreases b - a,
{
    if a < b {
        assert(markup::name_char(t[a]));
        lemma_name_end_is(t, a + 1, b);
    }
}

pub proof fn lemma_close_plain(t: Seq<char>, i: int, j: int)
    requires
        0 <= i <= j <= t.len(),
        forall|k: int| i <= k < j ==> (#[trigger] t[k]) != '>' && t[k] != '"' && t[k] != '\'',
    ensures
        markup::tag_close(t, i, None) == markup::tag_close(t, j, None),
    decreases j - i,
{
    if i < j {
        assert(t[i] != '>' && t[i] != '"' && t[i] != '\'');
        lemma_close_plain(t, i + 1, j);
    }
}

pub proof fn lemma_close_inside(t: Seq<char>, i: int, e: int)
    requires
        0 <= i <= e < t.len(),
        t[e] == '"',
        forall|k: int| i <= k < e ==> #[trigger] t[k] != '"',
    ensures
        markup::tag_close(t, i, Some('"')) == markup::tag_close(t, e + 1, None),
    decreases e - i,
{
    if i < e {
        assert(t[i] != '"');
        lemma_close_inside(t, i + 1, e);
    }
}

/// A name in lower case.
pub open spec fn is_plain_name(name: Seq<char>) -> bool {
    &&& name.len() > 0
    &&& forall|k: int|
        0 <= k < name.len() ==> markup::name_char(#[trigger] name[k]) && text::lower(name[k])
            == name[k]
}

pub proof fn lemma_not_skipped(t: Seq<char>, i: int)
    requires
        0 <= i,
        i + 1 < t.len(),
        t[i + 1] != '!',
        t[i + 1] != '?',
    ensures
        markup::skipped(t, i) is None,
{
    reveal_strlit("<!--");
    reveal_strlit("<![CDATA[");
    reveal_strlit("<?");
    reveal_strlit("<!");
    if text::is_at(t, "<!--"@, i) {
        assert(t.subrange(i, i + 4)[1] == '!');
    }
    if text::is_at(t, "<![CDATA["@, i) {
        assert(t.subrange(i, i + 9)[1] == '!');
    }
    if text::is_at(t, "<?"@, i) {
        assert(t.subrange(i, i + 2)[1] == '?');
    }
    if text::is_at(t, "<!"@, i) {
        assert(t.subrange(i, i + 2)[1] == '!');
    }
}

/// A name: some characters that a tag's name can hold.
pub open spec fn is_raw_name(name: Seq<char>) -> bool {
    &&& name.len() > 0
    &&& forall|k: int| 0 <= k < name.len() ==> markup::name_char(#[trigger] name[k])
}

/// A start tag with the name `raw` that closes at `j`.
pub proof fn lemma_raw_start<S>(t: Seq<char>, i: int, raw: Seq<char>, j: int, s: S, f: Step<S>)
    requires
        0 <= i,
        is_raw_name(raw),
        text::is_at(t, seq!['<'] + raw, i),
        i + 1 + raw.len() < t.len(),
        !markup::name_char(t[i + 1 + raw.len()]),
        markup::tag_close(t, i + 1 + raw.len(), None) == Some(j),
        i < j < t.len(),
    ensures
        read_on(t, i, s, f) == read_on(
            t,
            j + 1,
            f(i, j + 1, text::spec_lower(raw), false, s),
            f,
        ),
{
    let b = i + 1 + raw.len();
    assert(t.subrange(i, b)[0] == '<');
    assert forall|k: int| i + 1 <= k < b implies markup::name_char(#[trigger] t[k]) && t[k]
        == raw[k - i - 1] by {
        assert(t.subrange(i, b)[k - i] == raw[k - i - 1]);
    }
    assert(t[i + 1] == raw[0]);
    lemma_not_skipped(t, i);
    reveal_strlit("</");
    if text::is_at(t, "</"@, i) {
        assert(t.subrange(i, i + 2)[1] == '/');
    }
    lemma_name_end_is(t, i + 1, b);
    assert(t.subrange(i + 1, b) =~= raw);
}

/// An end tag with the name `raw`.
pub proof fn lemma_raw_end<S>(t: Seq<char>, i: int, raw: Seq<char>, s: S, f: Step<S>)
    requires
        0 <= i,
        is_raw_name(raw),
        text::is_at(t, seq!['<', '/'] + raw + seq!['>'], i),
    ensures
        read_on(t, i, s, f) == read_on(
            t,
            i + 3 + raw.len(),
            f(i, i + 3 + raw.len(), text::spec_lower(raw), true, s),
            f,
        ),
{
    let b = i + 2 + raw.len();
    let lit = seq!['<', '/'] + raw + seq!['>'];
    assert(t.subrange(i, b + 1) == lit);
    assert(t[i] == lit[0]);
    assert(t[i + 1] == lit[1]);
    assert(t[b] == lit[2int + raw.len()]);
    assert forall|k: int| i + 2 <= k < b implies markup::name_char(#[trigger] t[k]) && t[k]
        == raw[k - i - 2] by {
        assert(t.subrange(i, b + 1)[k - i] == raw[k - i - 2]);
    }
    lemma_not_skipped(t, i);
    reveal_strlit("</");
    assert(t.subrange(i, i + 2) =~= "</"@);
    lemma_name_end_is(t, i + 2, b);
    assert(markup::tag_close(t, b, None) == Some(b));
    assert(t.subrange(i + 2, b) =~= raw);
}

proof fn lemma_plain_is_lower(name: Seq<char>)
    requires
        is_plain_name(name),
    ensures
        is_raw_name(name),
        text::spec_lower(name) == name,
{
    assert(text::spec_lower(name) =~= name);
}

/// A start tag with the name `name`, in lower case, that closes at `j`.
pub proof fn lemma_start_tag<S>(t: Seq<char>, i: int, name: Seq<char>, j: int, s: S, f: Step<S>)
    requires
        0 <= i,
        is_plain_name(name),
        text::is_at(t, seq!['<'] + name, i),
        i + 1 + name.len() < t.len(),
        !markup::name_char(t[i + 1 + name.len()]),
        markup::tag_close(t, i + 1 + name.len(), None) == Some(j),
        i < j < t.len(),
    ensures
        read_on(t, i, s, f) == read_on(t, j + 1, f(i, j + 1, name, false, s), f),
{
    lemma_plain_is_lower(name);
    lemma_raw_start(t, i, name, j, s, f);
}

/// An end tag with the name `name`, in lower case.
pub proof fn lemma_end_tag<S>(t: Seq<char>, i: int, name: Seq<char>, s: S, f: Step<S>)
    requires
        0 <= i,
        is_plain_name(name),
        text::is_at(t, seq!['<', '/'] + name + seq!['>'], i),
    ensures
        read_on(t, i, s, f) == read_on(
            t,
            i + 3 + name.len(),
            f(i, i + 3 + name.len(), name, true, s),
            f,
        ),
{
    lemma_plain_is_lower(name);
    lemma_raw_end(t, i, name, s, f);
}

/// The inside of a tag with one attribute.
pub open spec fn one_attr(name: Seq<char>, attr: Seq<char>, value: Seq<char>) -> Seq<char> {
    name + seq![' '] + attr + seq!['=', '"'] + value + seq!['"']
}

/// The start tag with one attribute, which may close itself.
pub open spec fn one_attr_tag(name: Seq<char>, attr: Seq<char>, value: Seq<char>, ends: bool) -> Seq<char> {
    seq!['<'] + one_attr(name, attr, value) + if ends {
        seq!['/', '>']
    } else {
        seq!['>']
    }
}

pub proof fn lemma_stop(s: Seq<char>, eq: bool, i: int, e: int)
    requires
        0 <= i <= e <= s.len(),
        forall|k: int|
            i <= k < e ==> !(eq && (#[trigger] s[k]) == '=') && !text::is_ascii_white(s[k]),
        e < s.len() ==> (eq && s[e] == '=') || text::is_ascii_white(s[e]),
    ensures
        markup::stop_at(s, eq, i) == e,
    decreases e - i,
{
    if i < e {
        assert(!(eq && s[i] == '=') && !text::is_ascii_white(s[i]));
        lemma_stop(s, eq, i + 1, e);
    }
}

pub proof fn lemma_untrimmed(s: Seq<char>)
    requires
        s.len() > 0 ==> !text::is_white(s[0]),
    ensures
        text::spec_trim_start(s) == s,
{
    assert(s.subrange(0, s.len() as int) =~= s);
}

pub proof fn lemma_inside(name: Seq<char>, attr: Seq<char>, value: Seq<char>, ends: bool)
    requires
        is_plain_name(name),
    ensures
        markup::tag_inside(one_attr_tag(name, attr, value, ends)) == one_attr(name, attr, value),
{
    let inner = one_attr(name, attr, value);
    let tag = one_attr_tag(name, attr, value, ends);
    let tail = if ends {
        seq!['/', '>']
    } else {
        seq!['>']
    };
    assert(inner[0] == name[0]);
    assert(inner.last() == '"');
    reveal_with_fuel(text::skip_char, 3);
    reveal_with_fuel(text::back_char, 3);
    assert(tag[0] == '<' && tag[1] == inner[0]);
    assert(markup::name_char(name[0]));
    let a = text::spec_trim_start_char(tag, '<');
    assert(a =~= inner + tail);
    assert(a[0] == inner[0]);
    assert(text::spec_trim_start_char(a, '/') =~= a);
    let n = a.len() as int;
    assert(a[n - 1] == '>');
    if ends {
        assert(a[n - 2] == '/');
        let b = text::spec_trim_end_char(a, '>');
        assert(b =~= inner + seq!['/']);
        let m = b.len() as int;
        assert(b[m - 1] == '/' && b[m - 2] == '"');
        assert(text::spec_trim_end_char(b, '/') =~= inner);
    } else {
        assert(a[n - 2] == '"');
        let b = text::spec_trim_end_char(a, '>');
        assert(b =~= inner);
        assert(text::spec_trim_end_char(b, '/') =~= inner);
    }
}

#[verifier::rlimit(30)]
pub proof fn lemma_one_attribute(name: Seq<char>, attr: Seq<char>, value: Seq<char>, ends: bool)
    requires
        is_plain_name(name),
        is_plain_name(attr),
        !value.contains('"'),
    ensures
        opf::spec_attr(one_attr_tag(name, attr, value, ends), attr) == Some(
            markup::spec_unescape(value),
        ),
{
    let tag = one_attr_tag(name, attr, value, ends);
    let inner = one_attr(name, attr, value);
    lemma_inside(name, attr, value, ends);
    assert forall|k: int| 0 <= k < name.len() implies !text::is_ascii_white(
        #[trigger] inner[k],
    ) by {
        assert(inner[k] == name[k]);
        assert(markup::name_char(name[k]));
    }
    assert(inner[name.len() as int] == ' ');
    lemma_stop(inner, false, 0, name.len() as int);
    let behind = inner.subrange(name.len() as int, inner.len() as int);
    let r = attr + seq!['=', '"'] + value + seq!['"'];
    assert(behind =~= seq![' '] + r);
    assert(r[0] == attr[0]);
    assert(markup::name_char(attr[0]));
    reveal_with_fuel(text::skip_white, 3);
    assert(behind[0] == ' ' && behind[1] == r[0]);
    assert(text::spec_trim_start(behind) =~= r);
    let e = attr.len() as int;
    assert forall|k: int| 0 <= k < e implies (#[trigger] r[k]) != '=' && !text::is_ascii_white(
        r[k],
    ) && r[k] == attr[k] by {
        assert(markup::name_char(attr[k]));
    }
    assert(r[e] == '=');
    lemma_stop(r, true, 0, e);
    assert(r.subrange(0, e) =~= attr);
    let r2 = r.subrange(e, r.len() as int);
    assert(r2[0] == '=');
    lemma_untrimmed(r2);
    let r3 = r2.subrange(1, r2.len() as int);
    assert(r3 =~= seq!['"'] + value + seq!['"']);
    assert(r3[0] == '"');
    lemma_untrimmed(r3);
    let n = value.len() as int;
    assert(r3[n + 1] == '"');
    text::lemma_find_char(r3, '"', 1);
    let q = text::spec_find_char(r3, '"', 1)->0;
    if q < n + 1 {
        assert(r3[q] == value[q - 1]);
        assert(value.contains(value[q - 1]));
    }
    assert(q == n + 1);
    assert(r3.subrange(1, q) =~= value);
    let tail = r3.subrange(q + 1, r3.len() as int);
    assert(tail =~= Seq::<char>::empty());
    assert(text::spec_trim_start(tail) =~= Seq::<char>::empty());
    assert(markup::attributes_in(tail) =~= Seq::empty());
    let one = seq![(attr, markup::spec_unescape(value))];
    assert(markup::attributes_in(behind) =~= one);
    assert(markup::spec_attributes(tag) == one);
    assert(one[0].0 == attr);
}

/// The tag with one attribute is closed where it ends.
pub proof fn lemma_one_attr_close(
    t: Seq<char>,
    i: int,
    name: Seq<char>,
    attr: Seq<char>,
    value: Seq<char>,
    ends: bool,
)
    requires
        is_plain_name(name),
        is_plain_name(attr),
        !value.contains('"'),
        text::is_at(t, one_attr_tag(name, attr, value, ends), i),
    ensures
        ({
            let n = one_attr_tag(name, attr, value, ends).len();
            &&& markup::tag_close(t, i + 1 + name.len(), None) == Some(i + n - 1)
            &&& t[i + 1 + name.len()] == ' '
            &&& text::is_at(t, seq!['<'] + name, i)
        }),
{
    let tag = one_attr_tag(name, attr, value, ends);
    let n = tag.len() as int;
    assert(t.subrange(i, i + n) == tag);
    assert forall|k: int| 0 <= k < n implies t[i + k] == #[trigger] tag[k] by {
        assert(t.subrange(i, i + n)[k] == tag[k]);
    }
    let b = 1 + name.len() as int;
    let q = b + 2 + attr.len() as int;
    let e = q + 1 + value.len() as int;
    assert(tag[b] == ' ');
    assert(tag[q - 1] == '=');
    assert(tag[q] == '"');
    assert(tag[e] == '"');
    assert(t[i + b] == ' ');
    assert forall|k: int| i + b <= k < i + q implies (#[trigger] t[k]) != '>' && t[k] != '"'
        && t[k] != '\'' by {
        assert(t[i + (k - i)] == tag[k - i]);
        if b < k - i < q - 1 {
            assert(tag[k - i] == attr[k - i - b - 1]);
            assert(markup::name_char(attr[k - i - b - 1]));
        }
    }
    lemma_close_plain(t, i + b, i + q);
    assert(t[i + q] == '"');
    assert forall|k: int| i + q + 1 <= k < i + e implies #[trigger] t[k] != '"' by {
        assert(t[i + (k - i)] == tag[k - i]);
        assert(tag[k - i] == value[k - i - q - 1]);
        assert(value.contains(value[k - i - q - 1]));
    }
    assert(t[i + e] == '"');
    lemma_close_inside(t, i + q + 1, i + e);
    if ends {
        assert(tag[e + 1] == '/' && tag[e + 2] == '>');
        assert(t[i + (e + 1)] == '/' && t[i + (e + 2)] == '>');
        reveal_with_fuel(markup::tag_close, 3);
    } else {
        assert(tag[e + 1] == '>');
        assert(t[i + (e + 1)] == '>');
    }
    assert(t.subrange(i, i + b) =~= seq!['<'] + name) by {
        assert forall|k: int| 0 <= k < b implies t[i + k] == (seq!['<'] + name)[k] by {
            assert(tag[k] == (seq!['<'] + name)[k]);
        }
    }
}

pub proof fn lemma_skip_markup(s: Seq<char>, i: int)
    requires
        0 <= i <= s.len(),
    ensures
        i <= nav_doc::skip_markup(s, i) <= s.len(),
        nav_doc::skip_markup(s, i) < s.len() ==> !nav_doc::is_markup_space(
            s[nav_doc::skip_markup(s, i)],
        ),
    decreases s.len() - i,
{
    if i < s.len() && nav_doc::is_markup_space(s[i]) {
        lemma_skip_markup(s, i + 1);
    }
}

pub proof fn lemma_back_markup(s: Seq<char>, i: int, j: int)
    requires
        0 <= i <= j <= s.len(),
    ensures
        i <= nav_doc::back_markup(s, i, j) <= j,
        i < nav_doc::back_markup(s, i, j) ==> !nav_doc::is_markup_space(
            s[nav_doc::back_markup(s, i, j) - 1],
        ),
    decreases j - i,
{
    if i < j && nav_doc::is_markup_space(s[j - 1]) {
        lemma_back_markup(s, i, j - 1);
    }
}

/// A trimmed label stays as it is when it is trimmed.
pub proof fn lemma_trimmed(s: Seq<char>)
    ensures
        nav_doc::spec_trim_markup(nav_doc::spec_trim_markup(s)) == nav_doc::spec_trim_markup(s),
{
    let i = nav_doc::skip_markup(s, 0);
    let j = nav_doc::back_markup(s, i, s.len() as int);
    lemma_skip_markup(s, 0);
    lemma_back_markup(s, i, s.len() as int);
    let t = nav_doc::spec_trim_markup(s);
    if t.len() > 0 {
        assert(t[0] == s[i]);
        assert(t[t.len() - 1] == s[j - 1]);
        assert(nav_doc::skip_markup(t, 0) == 0);
        assert(nav_doc::back_markup(t, 0, t.len() as int) == t.len());
    }
    assert(t.subrange(0, t.len() as int) =~= t);
}

/// An escaped label is read as the label.
pub proof fn lemma_label(title: Seq<char>)
    ensures
        toc::label_read(markup::spec_escape_text(nav_doc::spec_trim_markup(title)))
            == nav_doc::spec_trim_markup(title),
{
    escaping::unescaping_undoes_escaping(nav_doc::spec_trim_markup(title));
    lemma_trimmed(title);
}

/// The entry as it is read back, its href written from `base`.
pub open spec fn entry_read(e: Toc, base: Seq<char>) -> Toc
    decreases e,
{
    Toc {
        title: nav_doc::spec_trim_markup(e.title),
        href: structure::spec_relativize(base, e.href),
        children: entries_read(e.children, base),
    }
}

/// The entries as they are read back, their hrefs written from `base`.
pub open spec fn entries_read(v: Seq<Toc>, base: Seq<char>) -> Seq<Toc>
    decreases v,
{
    if v.len() == 0 {
        Seq::empty()
    } else {
        entries_read(v.drop_last(), base).push(entry_read(v.last(), base))
    }
}

/// The reader's state once the entry is open.
pub open spec fn opened(g: Growth, e: Toc, base: Seq<char>) -> Growth {
    Growth {
        open: g.open.push(
            Toc {
                title: nav_doc::spec_trim_markup(e.title),
                href: structure::spec_relativize(base, e.href),
                children: Seq::empty(),
            },
        ),
        ..g
    }
}

/// A part of a text that stands at a place stands there.
pub proof fn lemma_part_at(t: Seq<char>, a: Seq<char>, b: Seq<char>, c: Seq<char>, i: int)
    requires
        text::is_at(t, a + b + c, i),
    ensures
        text::is_at(t, a, i),
        text::is_at(t, b, i + a.len()),
        text::is_at(t, c, i + a.len() + b.len()),
        text::is_at(t, a + b, i),
        text::is_at(t, b + c, i + a.len()),
{
    let w = a + b + c;
    assert(t.subrange(i, i + w.len()) == w);
    assert forall|k: int| 0 <= k < w.len() implies t[i + k] == #[trigger] w[k] by {
        assert(t.subrange(i, i + w.len())[k] == w[k]);
    }
    assert(t.subrange(i, i + a.len()) =~= a) by {
        assert forall|k: int| 0 <= k < a.len() implies t[i + k] == a[k] by {
            assert(w[k] == a[k]);
        }
    }
    let x = i + a.len();
    assert(t.subrange(x, x + b.len()) =~= b) by {
        assert forall|k: int| 0 <= k < b.len() implies t[x + k] == b[k] by {
            assert(w[a.len() + k] == b[k]);
            assert(t[i + (a.len() + k)] == b[k]);
        }
    }
    let y = x + b.len();
    assert(t.subrange(y, y + c.len()) =~= c) by {
        assert forall|k: int| 0 <= k < c.len() implies t[y + k] == c[k] by {
            assert(w[a.len() + b.len() + k] == c[k]);
            assert(t[i + (a.len() + b.len() + k)] == c[k]);
        }
    }
    assert(t.subrange(i, i + (a + b).len()) =~= a + b) by {
        assert forall|k: int| 0 <= k < (a + b).len() implies t[i + k] == (a + b)[k] by {
            assert(w[k] == (a + b)[k]);
        }
    }
    assert(t.subrange(x, x + (b + c).len()) =~= b + c) by {
        assert forall|k: int| 0 <= k < (b + c).len() implies t[x + k] == (b + c)[k] by {
            assert(w[a.len() + k] == (b + c)[k]);
            assert(t[i + (a.len() + k)] == w[a.len() + k]);
        }
    }
}

/// A start tag that holds its name alone.
pub proof fn lemma_bare_tag<S>(t: Seq<char>, i: int, name: Seq<char>, s: S, f: Step<S>)
    requires
        0 <= i,
        is_plain_name(name),
        text::is_at(t, seq!['<'] + name + seq!['>'], i),
    ensures
        read_on(t, i, s, f) == read_on(
            t,
            i + 2 + name.len(),
            f(i, i + 2 + name.len(), name, false, s),
            f,
        ),
{
    lemma_part_at(t, seq!['<'], name, seq!['>'], i);
    let b = i + 1 + name.len();
    assert(t.subrange(b, b + 1)[0] == '>');
    assert(markup::tag_close(t, b, None) == Some(b));
    lemma_start_tag(t, i, name, b, s, f);
}

pub proof fn lemma_opened(g: Growth, e: Toc, base: Seq<char>)
    ensures
        toc::targeted(
            toc::retitled(
                Growth { open: g.open.push(toc::blank_entry()), ..g },
                nav_doc::spec_trim_markup(e.title),
            ),
            structure::spec_relativize(base, e.href),
        ) == opened(g, e, base),
{
    let title = nav_doc::spec_trim_markup(e.title);
    let href = structure::spec_relativize(base, e.href);
    let g1 = Growth { open: g.open.push(toc::blank_entry()), ..g };
    let g2 = toc::retitled(g1, title);
    assert(g1.open.last() == toc::blank_entry());
    assert(g2.open.last() == (Toc { title, ..toc::blank_entry() }));
    assert(g2.open.drop_last() =~= g.open);
    assert(toc::targeted(g2, href).open =~= opened(g, e, base).open);
}

/// The reader's state once the entries are read: below the innermost open one,
/// or among those that are done.
pub open spec fn added(g: Growth, w: Seq<Toc>) -> Growth {
    if g.open.len() == 0 {
        Growth { done: g.done + w, ..g }
    } else {
        let last = g.open.last();
        Growth {
            open: g.open.drop_last().push(Toc { children: last.children + w, ..last }),
            ..g
        }
    }
}

pub proof fn lemma_added_none(g: Growth)
    ensures
        added(g, Seq::empty()) == g,
{
    if g.open.len() > 0 {
        let last = g.open.last();
        assert(last.children + Seq::<Toc>::empty() =~= last.children);
        assert(added(g, Seq::empty()).open =~= g.open);
    } else {
        assert(g.done + Seq::<Toc>::empty() =~= g.done);
    }
}

pub proof fn lemma_added_one(g: Growth, w: Seq<Toc>, x: Toc)
    ensures
        added(added(g, w), seq![x]) == added(g, w.push(x)),
{
    if g.open.len() > 0 {
        let last = g.open.last();
        let mid = added(g, w);
        assert(mid.open.last() == (Toc { children: last.children + w, ..last }));
        assert(mid.open.drop_last() =~= g.open.drop_last());
        assert((last.children + w) + seq![x] =~= last.children + w.push(x));
        assert(added(mid, seq![x]).open =~= added(g, w.push(x)).open);
    } else {
        assert((g.done + w) + seq![x] =~= g.done + w.push(x));
    }
}

/// Closing an entry that was opened and filled adds it.
pub proof fn lemma_closed(g: Growth, e: Toc, base: Seq<char>)
    ensures
        toc::closed(added(opened(g, e, base), entries_read(e.children, base))) == added(
            g,
            seq![entry_read(e, base)],
        ),
{
    let o = opened(g, e, base);
    let w = entries_read(e.children, base);
    let f = added(o, w);
    let x = entry_read(e, base);
    let n = g.open.len() as int;
    assert(o.open.last().children + w =~= w);
    assert(f.open.last() =~= x);
    assert(f.open =~= g.open.push(x));
    if n == 0 {
        assert(f.open[0] == x);
        assert(g.done.push(x) =~= g.done + seq![x]);
    } else {
        let parent = g.open.last();
        assert(f.open[n - 1] == parent);
        assert(f.open[n] == x);
        assert(f.open.take(n - 1) =~= g.open.drop_last());
        assert(parent.children.push(x) =~= parent.children + seq![x]);
        assert(toc::closed(f).open =~= added(g, seq![x]).open);
    }
}

/// The text of a tag and the line end behind it.
pub open spec fn tag_line(name: Seq<char>, closing: bool) -> Seq<char> {
    if closing {
        seq!['<', '/'] + name + seq!['>'] + seq!['\n']
    } else {
        seq!['<'] + name + seq!['>'] + seq!['\n']
    }
}

pub proof fn lemma_line_end<S>(t: Seq<char>, i: int, s: S, f: Step<S>)
    requires
        0 <= i,
        text::is_at(t, seq!['\n'], i),
    ensures
        read_on(t, i, s, f) == read_on(t, i + 1, s, f),
{
    assert(t.subrange(i, i + 1)[0] == '\n');
    lemma_plain(t, i, i + 1, s, f);
}

pub proof fn lemma_tag_line<S>(t: Seq<char>, i: int, name: Seq<char>, closing: bool, s: S, f: Step<S>)
    requires
        0 <= i,
        is_plain_name(name),
        text::is_at(t, tag_line(name, closing), i),
    ensures
        read_on(t, i, s, f) == read_on(
            t,
            i + tag_line(name, closing).len(),
            f(i, i + tag_line(name, closing).len() - 1, name, closing, s),
            f,
        ),
{
    if closing {
        let tag = seq!['<', '/'] + name + seq!['>'];
        assert(tag + seq!['\n'] + Seq::<char>::empty() =~= tag_line(name, closing));
        lemma_part_at(t, tag, seq!['\n'], Seq::empty(), i);
        lemma_end_tag(t, i, name, s, f);
        lemma_line_end(t, i + tag.len(), f(i, i + tag.len(), name, true, s), f);
    } else {
        let tag = seq!['<'] + name + seq!['>'];
        assert(tag + seq!['\n'] + Seq::<char>::empty() =~= tag_line(name, closing));
        lemma_part_at(t, tag, seq!['\n'], Seq::empty(), i);
        lemma_bare_tag(t, i, name, s, f);
        lemma_line_end(t, i + tag.len(), f(i, i + tag.len(), name, false, s), f);
    }
}

/// An attribute as it is written in a tag.
pub open spec fn attr_text(attr: Seq<char>, value: Seq<char>) -> Seq<char> {
    seq![' '] + attr + seq!['=', '"'] + value + seq!['"']
}

/// The end of a tag lies behind its attributes.
pub proof fn lemma_close_attr(t: Seq<char>, i: int, attr: Seq<char>, value: Seq<char>)
    requires
        0 <= i,
        is_raw_name(attr),
        !value.contains('"'),
        text::is_at(t, attr_text(attr, value), i),
    ensures
        markup::tag_close(t, i, None) == markup::tag_close(
            t,
            i + attr_text(attr, value).len(),
            None,
        ),
        t[i] == ' ',
{
    let w = attr_text(attr, value);
    assert(t.subrange(i, i + w.len()) == w);
    assert forall|k: int| 0 <= k < w.len() implies t[i + k] == #[trigger] w[k] by {
        assert(t.subrange(i, i + w.len())[k] == w[k]);
    }
    let q = 2 + attr.len() as int;
    let e = q + 1 + value.len() as int;
    assert(w[0] == ' ');
    assert(w[q - 1] == '=');
    assert(w[q] == '"');
    assert(w[e] == '"');
    assert forall|k: int| i <= k < i + q implies (#[trigger] t[k]) != '>' && t[k] != '"' && t[k]
        != '\'' by {
        assert(t[i + (k - i)] == w[k - i]);
        if 1 <= k - i < q - 1 {
            assert(w[k - i] == attr[k - i - 1]);
            assert(markup::name_char(attr[k - i - 1]));
        }
    }
    lemma_close_plain(t, i, i + q);
    assert(t[i + q] == '"');
    assert forall|k: int| i + q + 1 <= k < i + e implies #[trigger] t[k] != '"' by {
        assert(t[i + (k - i)] == w[k - i]);
        assert(w[k - i] == value[k - i - q - 1]);
        assert(value.contains(value[k - i - q - 1]));
    }
    assert(t[i + e] == '"');
    lemma_close_inside(t, i + q + 1, i + e);
}

/// A processing instruction is passed over.
pub proof fn lemma_instruction<S>(t: Seq<char>, i: int, mid: Seq<char>, s: S, f: Step<S>)
    requires
        0 <= i,
        text::is_at(t, seq!['<', '?'] + mid + seq!['?', '>'], i),
        !mid.contains('?'),
        mid.len() > 0,
        mid[0] != '>',
    ensures
        read_on(t, i, s, f) == read_on(t, i + mid.len() + 4, s, f),
{
    lemma_part_at(t, seq!['<', '?'], mid, seq!['?', '>'], i);
    let k = i + 2 + mid.len();
    assert(t.subrange(i, i + 2)[0] == '<' && t.subrange(i, i + 2)[1] == '?');
    assert(t[i] == '<' && t[i + 1] == '?');
    reveal_strlit("<!--");
    reveal_strlit("<![CDATA[");
    reveal_strlit("<?");
    reveal_strlit("?>");
    if text::is_at(t, "<!--"@, i) {
        assert(t.subrange(i, i + 4)[1] == '!');
    }
    if text::is_at(t, "<![CDATA["@, i) {
        assert(t.subrange(i, i + 9)[1] == '!');
    }
    assert(t.subrange(i, i + 2) =~= "<?"@);
    assert("?>"@ =~= seq!['?', '>']);
    text::lemma_find(t, "?>"@, i);
    assert(text::is_at(t, "?>"@, k));
    let q = text::spec_find(t, "?>"@, i)->0;
    if q < k {
        assert(t.subrange(q, q + 2)[0] == '?' && t.subrange(q, q + 2)[1] == '>');
        if q == i + 1 {
            assert(t.subrange(i + 2, k)[0] == mid[0]);
        } else if q > i + 1 {
            assert(t.subrange(i + 2, k)[q - i - 2] == mid[q - i - 2]);
            assert(mid.contains(mid[q - i - 2]));
        }
    }
}

/// A declaration is passed over.
pub proof fn lemma_declaration<S>(t: Seq<char>, i: int, mid: Seq<char>, s: S, f: Step<S>)
    requires
        0 <= i,
        text::is_at(t, seq!['<', '!'] + mid + seq!['>'], i),
        !mid.contains('>'),
        mid.len() > 0,
        mid[0] != '-',
        mid[0] != '[',
    ensures
        read_on(t, i, s, f) == read_on(t, i + mid.len() + 3, s, f),
{
    lemma_part_at(t, seq!['<', '!'], mid, seq!['>'], i);
    let k = i + 2 + mid.len();
    assert(t.subrange(i, i + 2)[0] == '<' && t.subrange(i, i + 2)[1] == '!');
    assert(t[i] == '<' && t[i + 1] == '!');
    assert(t.subrange(i + 2, k)[0] == mid[0]);
    assert(t[i + 2] == mid[0]);
    reveal_strlit("<!--");
    reveal_strlit("<![CDATA[");
    reveal_strlit("<?");
    reveal_strlit("<!");
    if text::is_at(t, "<!--"@, i) {
        assert(t.subrange(i, i + 4)[2] == '-');
    }
    if text::is_at(t, "<![CDATA["@, i) {
        assert(t.subrange(i, i + 9)[2] == '[');
    }
    if text::is_at(t, "<?"@, i) {
        assert(t.subrange(i, i + 2)[1] == '?');
    }
    assert(t.subrange(i, i + 2) =~= "<!"@);
    assert(t.subrange(k, k + 1)[0] == '>');
    assert forall|m: int| i <= m < k implies #[trigger] t[m] != '>' by {
        if m >= i + 2 {
            assert(t.subrange(i + 2, k)[m - i - 2] == mid[m - i - 2]);
            assert(mid.contains(mid[m - i - 2]));
        }
    }
    read_back::lemma_find_char_is(t, '>', i, k);
}

/// The line end behind a piece, and the piece.
pub proof fn lemma_then_line<S>(t: Seq<char>, a: Seq<char>, i: int, s: S, f: Step<S>)
    requires
        0 <= i,
        text::is_at(t, a + seq!['\n'], i),
    ensures
        text::is_at(t, a, i),
        read_on(t, i + a.len(), s, f) == read_on(t, i + a.len() + 1, s, f),
{
    assert(a + seq!['\n'] + Seq::<char>::empty() =~= a + seq!['\n']);
    lemma_part_at(t, a, seq!['\n'], Seq::empty(), i);
    lemma_line_end(t, i + a.len(), s, f);
}

// ---------------------------------------------------------------- a tag with some attributes

/// The attributes as they are written, one behind the other.
pub open spec fn attr_texts(v: Seq<(Seq<char>, Seq<char>)>) -> Seq<char>
    decreases v.len(),
{
    if v.len() == 0 {
        Seq::empty()
    } else {
        attr_text(v[0].0, v[0].1) + attr_texts(v.drop_first())
    }
}

/// The attributes with their entities read.
pub open spec fn attrs_read(v: Seq<(Seq<char>, Seq<char>)>) -> Seq<(Seq<char>, Seq<char>)> {
    v.map_values(|a: (Seq<char>, Seq<char>)| (a.0, markup::spec_unescape(a.1)))
}

/// Attributes that can be written: plain names, values without a quote.
pub open spec fn are_attrs(v: Seq<(Seq<char>, Seq<char>)>) -> bool {
    forall|k: int|
        0 <= k < v.len() ==> is_raw_name((#[trigger] v[k]).0) && !v[k].1.contains('"')
}

/// Written attributes are read back.
pub proof fn lemma_attributes(v: Seq<(Seq<char>, Seq<char>)>)
    requires
        are_attrs(v),
    ensures
        markup::attributes_in(attr_texts(v)) == attrs_read(v),
    decreases v.len(),
{
    if v.len() == 0 {
        let none = Seq::<char>::empty();
        assert(text::spec_trim_start(none) =~= none);
        assert(markup::attributes_in(none) =~= attrs_read(v));
    } else {
        let (attr, value) = v[0];
        let rest = attr_texts(v.drop_first());
        assert(is_raw_name(v[0].0) && !v[0].1.contains('"'));
        assert(are_attrs(v.drop_first())) by {
            let w = v.drop_first();
            assert forall|k: int| 0 <= k < w.len() implies is_raw_name((#[trigger] w[k]).0)
                && !w[k].1.contains('"') by {
                assert(w[k] == v[k + 1]);
            }
        }
        lemma_attributes(v.drop_first());
        let s = attr_texts(v);
        let r = attr + seq!['=', '"'] + value + seq!['"'] + rest;
        assert(s =~= seq![' '] + r);
        assert(markup::name_char(attr[0]));
        assert(r[0] == attr[0]);
        reveal_with_fuel(text::skip_white, 3);
        assert(s[0] == ' ' && s[1] == r[0]);
        assert(text::spec_trim_start(s) =~= r);
        let e = attr.len() as int;
        assert forall|k: int| 0 <= k < e implies (#[trigger] r[k]) != '=' && !text::is_ascii_white(
            r[k],
        ) && r[k] == attr[k] by {
            assert(markup::name_char(attr[k]));
        }
        assert(r[e] == '=');
        lemma_stop(r, true, 0, e);
        assert(r.subrange(0, e) =~= attr);
        let r2 = r.subrange(e, r.len() as int);
        assert(r2[0] == '=');
        lemma_untrimmed(r2);
        let r3 = r2.subrange(1, r2.len() as int);
        assert(r3 =~= seq!['"'] + value + seq!['"'] + rest);
        assert(r3[0] == '"');
        lemma_untrimmed(r3);
        let n = value.len() as int;
        assert(r3[n + 1] == '"');
        assert forall|k: int| 1 <= k < n + 1 implies #[trigger] r3[k] != '"' by {
            assert(r3[k] == value[k - 1]);
            assert(value.contains(value[k - 1]));
        }
        read_back::lemma_find_char_is(r3, '"', 1, n + 1);
        assert(r3.subrange(1, n + 1) =~= value);
        assert(r3.subrange(n + 2, r3.len() as int) =~= rest);
        assert(markup::attributes_in(s) =~= seq![(attr, markup::spec_unescape(value))]
            + markup::attributes_in(rest));
        assert(attrs_read(v) =~= seq![(attr, markup::spec_unescape(value))] + attrs_read(
            v.drop_first(),
        ));
    }
}

/// A tag with a name and attributes that closes itself.
pub open spec fn empty_tag(name: Seq<char>, v: Seq<(Seq<char>, Seq<char>)>) -> Seq<char> {
    seq!['<'] + name + attr_texts(v) + seq!['/', '>']
}

/// The attributes of a written tag are read back.
pub proof fn lemma_empty_tag(name: Seq<char>, v: Seq<(Seq<char>, Seq<char>)>)
    requires
        is_raw_name(name),
        are_attrs(v),
        v.len() > 0,
    ensures
        markup::spec_attributes(empty_tag(name, v)) == attrs_read(v),
{
    let tag = empty_tag(name, v);
    let inner = name + attr_texts(v);
    lemma_attr_edges(v);
    assert(markup::name_char(name[0]));
    assert(inner[0] == name[0]);
    assert(inner.last() == attr_texts(v).last());
    reveal_with_fuel(text::skip_char, 3);
    reveal_with_fuel(text::back_char, 3);
    assert(tag[0] == '<' && tag[1] == inner[0]);
    let a = text::spec_trim_start_char(tag, '<');
    assert(a =~= inner + seq!['/', '>']);
    assert(a[0] == inner[0]);
    assert(text::spec_trim_start_char(a, '/') =~= a);
    let n = a.len() as int;
    assert(a[n - 1] == '>' && a[n - 2] == '/');
    let b = text::spec_trim_end_char(a, '>');
    assert(b =~= inner + seq!['/']);
    let m = b.len() as int;
    assert(b[m - 1] == '/' && b[m - 2] == '"');
    assert(text::spec_trim_end_char(b, '/') =~= inner);
    assert(markup::tag_inside(tag) == inner);
    assert forall|k: int| 0 <= k < name.len() implies !text::is_ascii_white(#[trigger] inner[k]) by {
        assert(inner[k] == name[k]);
        assert(markup::name_char(name[k]));
    }
    assert(inner[name.len() as int] == attr_texts(v)[0]);
    lemma_stop(inner, false, 0, name.len() as int);
    assert(inner.subrange(name.len() as int, inner.len() as int) =~= attr_texts(v));
    lemma_attributes(v);
}

pub proof fn lemma_attr_edges(v: Seq<(Seq<char>, Seq<char>)>)
    requires
        v.len() > 0,
    ensures
        attr_texts(v).len() > 0,
        attr_texts(v)[0] == ' ',
        attr_texts(v).last() == '"',
    decreases v.len(),
{
    let head = attr_text(v[0].0, v[0].1);
    let rest = attr_texts(v.drop_first());
    assert(attr_texts(v) == head + rest);
    if v.len() > 1 {
        lemma_attr_edges(v.drop_first());
    } else {
        assert(rest =~= Seq::<char>::empty());
    }
}

} // verus!
