//! The rules of a stylesheet: the shape of their selectors and what they declare.
use vstd::prelude::*;

use crate::css;
use crate::edit;
use crate::reach;
use crate::series;
use crate::spine_repair;
use crate::text;
use crate::volume_number;
use crate::css::{BlockItem, Kind, block_items, scan, split_top_level};
use crate::reach::add_name;
use crate::spine_repair::not_behind_of;
use crate::text::{
    add_str, add_text, ascii_alnum, chars_of, copy, ends_str, find_char, is, join, join2, lowered,
    put, put_str, replace_str, same, split, starts_str, str_is, string_of, strs_have, trim, words,
};
use crate::volume_number::{Number, digit_of, read_numerals, trim_number};

verus! {

// ---------------------------------------------------------------- selectors

/// A selector of elements by their tag and classes, and by those of elements round them.
#[derive(Debug)]
pub struct Shape {
    pub tag: Option<String>,
    pub classes: Vec<String>,
    pub context_classes: Vec<String>,
    pub context_tags: Vec<String>,
}

/// What a `Shape` says.
#[verifier::ext_equal]
pub struct Shp {
    pub tag: Option<Seq<char>>,
    pub classes: Seq<Seq<char>>,
    pub context_classes: Seq<Seq<char>>,
    pub context_tags: Seq<Seq<char>>,
}

impl View for Shape {
    type V = Shp;

    open spec fn view(&self) -> Shp {
        Shp {
            tag: text::opt_str(self.tag),
            classes: text::strs(self.classes@),
            context_classes: text::strs(self.context_classes@),
            context_tags: text::strs(self.context_tags@),
        }
    }
}

/// Every character is one of a name.
pub open spec fn all_ident(s: Seq<char>) -> bool {
    forall|i: int| 0 <= i < s.len() ==> css::ident_char(#[trigger] s[i])
}

fn is_ident(s: &[char]) -> (r: bool)
    ensures
        r == all_ident(s@),
{
    let n = s.len();
    let mut i: usize = 0;
    while i < n
        invariant
            i <= n,
            n == s@.len(),
            forall|k: int| 0 <= k < i ==> css::ident_char(#[trigger] s@[k]),
        decreases n - i,
    {
        if !is_ident_char(s[i]) {
            return false;
        }
        i += 1;
    }
    true
}

fn is_ident_char(c: char) -> (r: bool)
    ensures
        r == css::ident_char(c),
{
    ascii_alnum(c) || c == '-' || c == '_' || c > '\u{7f}'
}

/// The pieces of a compound selector: a tag or nothing, then the classes.
pub open spec fn is_compound(pieces: Seq<Seq<char>>) -> bool {
    &&& pieces.len() > 0
    &&& pieces[0] == "*"@ || all_ident(pieces[0])
    &&& forall|i: int|
        1 <= i < pieces.len() ==> (#[trigger] pieces[i]).len() > 0 && all_ident(pieces[i])
}

fn is_compound_of(pieces: &Vec<Vec<char>>) -> (r: bool)
    ensures
        r == is_compound(text::texts(pieces@)),
{
    let ghost all = text::texts(pieces@);
    let n = pieces.len();
    assert(all.len() == n);
    if n == 0 {
        return false;
    }
    assert(all[0] == pieces@[0]@);
    let any = is(&pieces[0], "*");
    if !any && !is_ident(&pieces[0]) {
        return false;
    }
    let mut i: usize = 1;
    while i < n
        invariant
            1 <= i <= n,
            n == pieces@.len(),
            all == text::texts(pieces@),
            all.len() == n,
            forall|k: int|
                1 <= k < i ==> (#[trigger] all[k]).len() > 0 && all_ident(all[k]),
        decreases n - i,
    {
        assert(all[i as int] == pieces@[i as int]@);
        if pieces[i].len() == 0 || !is_ident(&pieces[i]) {
            return false;
        }
        i += 1;
    }
    true
}

/// The tag of a compound selector.
pub open spec fn tag_in(word: Seq<char>) -> Option<Seq<char>> {
    let first = text::spec_split(word, '.')[0];
    if first.len() == 0 || first == "*"@ {
        None
    } else {
        Some(text::spec_lower(first))
    }
}

/// The classes of a compound selector.
pub open spec fn classes_in(word: Seq<char>) -> Seq<Seq<char>> {
    let pieces = text::spec_split(word, '.');
    pieces.subrange(1, pieces.len() as int)
}

/// The compound selectors of a selector, those of a child and of a descendant alike.
pub open spec fn compounds(selector: Seq<char>) -> Seq<Seq<char>> {
    text::spec_words(text::spec_replace(selector, ">"@, " "@))
}

/// The classes of the first `n` compounds, from the last of them back.
pub open spec fn classes_back(words: Seq<Seq<char>>, n: int) -> Seq<Seq<char>>
    decreases n,
{
    if n <= 0 {
        Seq::empty()
    } else {
        classes_in(words[n - 1]) + classes_back(words, n - 1)
    }
}

/// The tags of the first `n` compounds, from the last of them back.
pub open spec fn tags_back(words: Seq<Seq<char>>, n: int) -> Seq<Seq<char>>
    decreases n,
{
    if n <= 0 {
        Seq::empty()
    } else {
        (match tag_in(words[n - 1]) {
            Some(t) => seq![t],
            None => Seq::empty(),
        }) + tags_back(words, n - 1)
    }
}

/// Each of the compounds is made of a tag and classes alone.
pub open spec fn all_compounds(words: Seq<Seq<char>>) -> bool {
    forall|i: int| 0 <= i < words.len() ==> is_compound(text::spec_split(#[trigger] words[i], '.'))
}

/// The shape of a selector; nothing for one that selects by more than tags and classes.
pub open spec fn shape_of(selector: Seq<char>) -> Option<Shp> {
    let words = compounds(selector);
    let n = words.len() as int;
    if n > 0 && all_compounds(words) {
        Some(
            Shp {
                tag: tag_in(words[n - 1]),
                classes: classes_in(words[n - 1]),
                context_classes: classes_back(words, n - 1),
                context_tags: tags_back(words, n - 1),
            },
        )
    } else {
        None
    }
}

/// What a shape that there may be says.
pub open spec fn shape_said(r: Option<Shape>) -> Option<Shp> {
    match r {
        Some(s) => Some(s@),
        None => None,
    }
}

fn tag_of(word: &[char]) -> (r: Option<String>)
    ensures
        text::opt_str(r) == tag_in(word@),
{
    let pieces = split(word, '.');
    assert(text::texts(pieces@)[0] == pieces@[0]@);
    if pieces[0].len() == 0 || is(&pieces[0], "*") {
        None
    } else {
        Some(string_of(&lowered(&pieces[0])))
    }
}

fn add_classes(out: &mut Vec<String>, word: &[char])
    ensures
        text::strs(final(out)@) == text::strs(old(out)@) + classes_in(word@),
{
    let pieces = split(word, '.');
    let ghost all = text::texts(pieces@);
    let n = pieces.len();
    assert(all.len() == n);
    let ghost start = text::strs(out@);
    let ghost want = classes_in(word@);
    let mut i: usize = 1;
    assert(start + want.take(0) =~= start);
    while i < n
        invariant
            1 <= i <= n,
            n == pieces@.len(),
            all == text::texts(pieces@),
            all.len() == n,
            want == all.subrange(1, n as int),
            text::strs(out@) == start + want.take(i - 1),
        decreases n - i,
    {
        assert(all[i as int] == pieces@[i as int]@);
        assert(want[i - 1] == all[i as int]);
        add_str(out, string_of(&pieces[i]));
        assert((start + want.take(i - 1)).push(want[i - 1]) =~= start + want.take(i as int));
        i += 1;
    }
    assert(want.take(n - 1) =~= want);
}

/// The shape of a selector.
pub fn decompose(selector: &[char]) -> (r: Option<Shape>)
    ensures
        shape_said(r) == shape_of(selector@),
{
    proof {
        reveal_strlit(">");
    }
    let flat = replace_str(selector, ">", " ");
    let words_here = words(&flat);
    let ghost all = text::texts(words_here@);
    let n = words_here.len();
    assert(all.len() == n);
    if n == 0 {
        return None;
    }
    let mut i: usize = 0;
    while i < n
        invariant
            i <= n,
            n == words_here@.len(),
            all == text::texts(words_here@),
            all == compounds(selector@),
            all.len() == n,
            forall|k: int| 0 <= k < i ==> is_compound(text::spec_split(#[trigger] all[k], '.')),
        decreases n - i,
    {
        assert(all[i as int] == words_here@[i as int]@);
        let pieces = split(&words_here[i], '.');
        if !is_compound_of(&pieces) {
            return None;
        }
        i += 1;
    }
    assert(all[n - 1] == words_here@[n - 1]@);
    let tag = tag_of(&words_here[n - 1]);
    let mut classes: Vec<String> = Vec::new();
    add_classes(&mut classes, &words_here[n - 1]);
    assert(text::strs(classes@) =~= classes_in(all[n - 1]));
    let mut context_classes: Vec<String> = Vec::new();
    let mut context_tags: Vec<String> = Vec::new();
    let ghost cs = classes_back(all, n - 1);
    let ghost ts = tags_back(all, n - 1);
    let mut k: usize = n - 1;
    assert(text::strs(context_classes@) + cs =~= cs);
    assert(text::strs(context_tags@) + ts =~= ts);
    while k > 0
        invariant
            k < n,
            n == words_here@.len(),
            all == text::texts(words_here@),
            text::strs(context_classes@) + classes_back(all, k as int) == cs,
            text::strs(context_tags@) + tags_back(all, k as int) == ts,
        decreases k,
    {
        assert(all[k - 1] == words_here@[k - 1]@);
        let ghost before = text::strs(context_classes@);
        let ghost rest = classes_back(all, k - 1);
        add_classes(&mut context_classes, &words_here[k - 1]);
        assert(before + (classes_in(all[k - 1]) + rest) =~= text::strs(context_classes@) + rest);
        let ghost tags = text::strs(context_tags@);
        let ghost others = tags_back(all, k - 1);
        if let Some(t) = tag_of(&words_here[k - 1]) {
            let ghost tv = t@;
            add_str(&mut context_tags, t);
            assert(tags + (seq![tv] + others) =~= text::strs(context_tags@) + others);
        } else {
            assert(tags + (Seq::<Seq<char>>::empty() + others) =~= tags + others);
        }
        k -= 1;
    }
    assert(text::strs(context_classes@) =~= cs);
    assert(text::strs(context_tags@) =~= ts);
    Some(Shape { tag, classes, context_classes, context_tags })
}

// ---------------------------------------------------------------- values

/// Behind the sign of a number.
pub open spec fn past_sign(w: Seq<char>) -> int {
    if w.len() > 0 && w[0] == '-' {
        1
    } else {
        0
    }
}

/// A word of a value: a number in its shortest form, zero without its unit; another word as it is.
pub open spec fn plain_word(w: Seq<char>) -> Seq<char> {
    let from = past_sign(w);
    let end = series::numeral_end(w, from);
    match volume_number::numerals(w.subrange(from, end)) {
        Some(n) if from < end => if n == 0 {
            "0"@
        } else {
            w.subrange(0, from) + volume_number::number_text(Number { billionths: n as u128 }) + w.subrange(
                end,
                w.len() as int,
            )
        },
        _ => w,
    }
}

fn numeral_end_of(s: &[char], from: usize) -> (r: usize)
    requires
        from <= s@.len(),
    ensures
        r == series::numeral_end(s@, from as int),
        from <= r <= s@.len(),
{
    let n = s.len();
    let mut end: usize = from;
    while end < n && (digit_of(s[end]).is_some() || s[end] == '.' || s[end] == '．')
        invariant
            from <= end <= n,
            n == s@.len(),
            series::numeral_end(s@, end as int) == series::numeral_end(s@, from as int),
        decreases n - end,
    {
        end += 1;
    }
    end
}

fn put_word(out: &mut Vec<char>, w: &[char])
    ensures
        final(out)@ == old(out)@ + plain_word(w@),
{
    let ghost start = out@;
    let n = w.len();
    let from: usize = if n > 0 && w[0] == '-' {
        1
    } else {
        0
    };
    let end = numeral_end_of(w, from);
    if from < end {
        if let Some(k) = read_numerals(&w[from..end]) {
            if k.billionths == 0 {
                put_str(out, "0");
            } else {
                put(out, &w[0..from]);
                put(out, &trim_number(k));
                put(out, &w[end..n]);
                assert(out@ =~= start + plain_word(w@));
            }
            return;
        }
    }
    put(out, w);
}

/// The words of a value, each in its plain form.
pub open spec fn plain_words(v: Seq<Seq<char>>) -> Seq<Seq<char>> {
    v.map_values(|w: Seq<char>| plain_word(w))
}

/// The value without what follows a `!`, in lower case.
pub open spec fn bare_value(value: Seq<char>) -> Seq<char> {
    text::spec_lower(
        match text::spec_find_char(value, '!', 0) {
            Some(k) => value.subrange(0, k),
            None => value,
        },
    )
}

/// The words of a value.
pub open spec fn value_words(value: Seq<char>) -> Seq<Seq<char>> {
    plain_words(text::spec_words(bare_value(value)))
}

fn words_of_value(value: &[char]) -> (r: Vec<Vec<char>>)
    ensures
        text::texts(r@) == value_words(value@),
{
    let n = value.len();
    let k = match find_char(value, '!', 0) {
        Some(k) => k,
        None => n,
    };
    assert(value@.subrange(0, n as int) =~= value@);
    let low = lowered(&value[0..k]);
    assert(low@ == bare_value(value@));
    let w = words(&low);
    let ghost all = text::texts(w@);
    let m = w.len();
    assert(all.len() == m);
    let ghost want = plain_words(all);
    let mut out: Vec<Vec<char>> = Vec::new();
    assert(text::texts(out@) =~= want.take(0));
    let mut i: usize = 0;
    while i < m
        invariant
            i <= m,
            m == w@.len(),
            all == text::texts(w@),
            all.len() == m,
            want == plain_words(all),
            text::texts(out@) == want.take(i as int),
        decreases m - i,
    {
        assert(all[i as int] == w@[i as int]@);
        let mut word: Vec<char> = Vec::new();
        put_word(&mut word, &w[i]);
        assert(word@ =~= plain_word(all[i as int]));
        assert(want[i as int] == plain_word(all[i as int]));
        add_text(&mut out, word);
        assert(want.take(i + 1) =~= want.take(i as int).push(want[i as int]));
        i += 1;
    }
    assert(want.take(m as int) =~= want);
    out
}

/// The name of a property, without the prefix of an engine.
pub open spec fn plain_name(name: Seq<char>) -> Seq<char> {
    let n = text::spec_lower(text::spec_trim(name));
    if text::spec_starts(n, "-webkit-"@) {
        n.subrange(8, n.len() as int)
    } else if text::spec_starts(n, "-epub-"@) {
        n.subrange(6, n.len() as int)
    } else {
        n
    }
}

fn plain_name_of(name: &[char]) -> (r: Vec<char>)
    ensures
        r@ == plain_name(name@),
{
    let n = lowered(trim(name));
    proof {
        reveal_strlit("-webkit-");
        reveal_strlit("-epub-");
    }
    if starts_str(&n, "-webkit-") {
        copy(&n[8..n.len()])
    } else if starts_str(&n, "-epub-") {
        copy(&n[6..n.len()])
    } else {
        n
    }
}

/// The first `n` words in order.
pub open spec fn sorted_to(v: Seq<Seq<char>>, n: int) -> Seq<Seq<char>>
    decreases n,
{
    if n <= 0 {
        Seq::empty()
    } else {
        reach::with_name(sorted_to(v, n - 1), v[n - 1], 0)
    }
}

/// The side's own value of a shorthand for four sides: top, right, bottom, left.
pub open spec fn side(words: Seq<Seq<char>>, k: int) -> Seq<char> {
    if k < words.len() {
        words[k]
    } else if k == 3 && words.len() >= 2 {
        words[1]
    } else if k == 2 {
        words[0]
    } else {
        words[0]
    }
}

/// What a declaration declares: a shorthand for four sides is one for each; the words of a border
/// may stand in any order, and are kept in one.
pub open spec fn declared(name: Seq<char>, value: Seq<char>) -> Seq<(Seq<char>, Seq<char>)> {
    let n = plain_name(name);
    let words = value_words(value);
    if (n == "margin"@ || n == "padding"@) && 1 <= words.len() <= 4 {
        seq![
            (n + "-top"@, side(words, 0)),
            (n + "-right"@, side(words, 1)),
            (n + "-bottom"@, side(words, 2)),
            (n + "-left"@, side(words, 3)),
        ]
    } else if text::spec_starts(n, "border"@) {
        seq![(n, text::spec_join(sorted_to(words, words.len() as int), " "@))]
    } else {
        seq![(n, text::spec_join(words, " "@))]
    }
}

fn add_pair(out: &mut Vec<(String, String)>, name: &[char], value: &[char])
    ensures
        edit::pairs(final(out)@) == edit::pairs(old(out)@).push((name@, value@)),
{
    let ghost before = edit::pairs(out@);
    let a = string_of(name);
    let b = string_of(value);
    out.push((a, b));
    assert(edit::pairs(out@) =~= before.push((name@, value@)));
}

fn sorted_words(v: &Vec<Vec<char>>) -> (r: Vec<Vec<char>>)
    ensures
        text::texts(r@) == sorted_to(text::texts(v@), v@.len() as int),
{
    let ghost all = text::texts(v@);
    let n = v.len();
    let mut out: Vec<Vec<char>> = Vec::new();
    assert(text::texts(out@) =~= Seq::empty());
    let mut i: usize = 0;
    while i < n
        invariant
            i <= n,
            n == v@.len(),
            all == text::texts(v@),
            text::texts(out@) == sorted_to(all, i as int),
        decreases n - i,
    {
        assert(all[i as int] == v@[i as int]@);
        add_sorted(&mut out, &v[i]);
        i += 1;
    }
    out
}

/// Put a text where its order asks for it.
pub fn add_sorted(v: &mut Vec<Vec<char>>, x: &[char])
    ensures
        text::texts(final(v)@) == reach::with_name(text::texts(old(v)@), x@, 0),
{
    let ghost all = text::texts(v@);
    let n = v.len();
    let mut i: usize = 0;
    while i < n && not_behind_of(&v[i], x)
        invariant
            i <= n == v@.len() == all.len(),
            v@ == old(v)@,
            all == text::texts(v@),
            reach::with_name(all, x@, 0) == reach::with_name(all, x@, i as int),
        decreases n - i,
    {
        i += 1;
    }
    v.insert(i, copy(x));
    assert(text::texts(v@) =~= reach::with_name(all, x@, i as int));
}

fn side_of(words: &Vec<Vec<char>>, k: usize) -> (r: Vec<char>)
    requires
        words@.len() > 0,
        k < 4,
    ensures
        r@ == side(text::texts(words@), k as int),
{
    let ghost all = text::texts(words@);
    let n = words.len();
    assert(all.len() == n);
    let at: usize = if k < n {
        k
    } else if k == 3 && n >= 2 {
        1
    } else {
        0
    };
    assert(all[at as int] == words@[at as int]@);
    copy(&words[at])
}

fn add_declared(out: &mut Vec<(String, String)>, name: &[char], value: &[char])
    ensures
        edit::pairs(final(out)@) == edit::pairs(old(out)@) + declared(name@, value@),
{
    let ghost start = edit::pairs(out@);
    let n = plain_name_of(name);
    let words = words_of_value(value);
    assert(text::texts(words@).len() == words@.len());
    if (is(&n, "margin") || is(&n, "padding")) && words.len() >= 1 && words.len() <= 4 {
        let top = join2(&n, &chars_of("-top"));
        add_pair(out, &top, &side_of(&words, 0));
        let right = join2(&n, &chars_of("-right"));
        add_pair(out, &right, &side_of(&words, 1));
        let bottom = join2(&n, &chars_of("-bottom"));
        add_pair(out, &bottom, &side_of(&words, 2));
        let left = join2(&n, &chars_of("-left"));
        add_pair(out, &left, &side_of(&words, 3));
    } else if starts_str(&n, "border") {
        let sorted = sorted_words(&words);
        add_pair(out, &n, &join(&sorted, " "));
    } else {
        add_pair(out, &n, &join(&words, " "));
    }
    assert(edit::pairs(out@) =~= start + declared(name@, value@));
}

/// What the first `n` parts of a block declare.
pub open spec fn declared_to(v: Seq<css::BlockPart>, n: int) -> Seq<(Seq<char>, Seq<char>)>
    decreases n,
{
    if n <= 0 {
        Seq::empty()
    } else {
        declared_to(v, n - 1) + match v[n - 1] {
            css::BlockPart::Decl(name, value) => declared(name, value),
            css::BlockPart::Comment(_) => Seq::empty(),
        }
    }
}

/// What a block declares, in order.
pub open spec fn declarations(block: Seq<char>) -> Seq<(Seq<char>, Seq<char>)> {
    let v = css::spec_block_items(block);
    declared_to(v, v.len() as int)
}

fn declarations_of(block: &[char]) -> (r: Vec<(String, String)>)
    ensures
        edit::pairs(r@) == declarations(block@),
{
    let v = block_items(block);
    let ghost all = css::parts(v@);
    let n = v.len();
    assert(all.len() == n);
    let mut out: Vec<(String, String)> = Vec::new();
    assert(edit::pairs(out@) =~= Seq::empty());
    let mut i: usize = 0;
    while i < n
        invariant
            i <= n,
            n == v@.len(),
            all == css::parts(v@),
            edit::pairs(out@) == declared_to(all, i as int),
        decreases n - i,
    {
        assert(all[i as int] == v@[i as int]@);
        match &v[i] {
            BlockItem::Decl(name, value) => {
                add_declared(&mut out, name, value);
            },
            BlockItem::Comment(_) => {
                assert(edit::pairs(out@) =~= edit::pairs(out@) + Seq::empty());
            },
        }
        i += 1;
    }
    out
}

// ---------------------------------------------------------------- rules

/// A rule of a stylesheet for one selector.
pub struct SheetRule {
    pub shape: Shape,
    pub decls: Vec<(String, String)>,
}

/// What a `SheetRule` says.
#[verifier::ext_equal]
pub struct StyleRule {
    pub shape: Shp,
    pub decls: Seq<(Seq<char>, Seq<char>)>,
}

impl View for SheetRule {
    type V = StyleRule;

    open spec fn view(&self) -> StyleRule {
        StyleRule { shape: self.shape@, decls: edit::pairs(self.decls@) }
    }
}

pub open spec fn rules(v: Seq<SheetRule>) -> Seq<StyleRule> {
    v.map_values(|r: SheetRule| r@)
}

/// The rules of the first `n` selectors of a list.
pub open spec fn rules_for(
    selectors: Seq<Seq<char>>,
    decls: Seq<(Seq<char>, Seq<char>)>,
    n: int,
) -> Seq<StyleRule>
    decreases n,
{
    if n <= 0 {
        Seq::empty()
    } else {
        match shape_of(selectors[n - 1]) {
            Some(shape) => rules_for(selectors, decls, n - 1).push(StyleRule { shape, decls }),
            None => rules_for(selectors, decls, n - 1),
        }
    }
}

/// The rules of the first `n` items of a stylesheet.
pub open spec fn rules_to(t: Seq<char>, v: Seq<css::CssItem>, n: int) -> Seq<StyleRule>
    decreases n,
{
    if n <= 0 {
        Seq::empty()
    } else {
        rules_to(t, v, n - 1) + match v[n - 1].kind {
            css::CssKind::Rule { prelude, inner } => {
                let selectors = css::spec_split_top_level(t.subrange(prelude.0, prelude.1), ',');
                rules_for(
                    selectors,
                    declarations(t.subrange(inner.0, inner.1)),
                    selectors.len() as int,
                )
            },
            _ => Seq::empty(),
        }
    }
}

/// The rules of a stylesheet whose selectors have a shape, in order, one for each selector.
pub open spec fn sheet_rules(t: Seq<char>) -> Seq<StyleRule> {
    let v = css::spec_scan(t);
    rules_to(t, v, v.len() as int)
}

pub fn copy_pairs(v: &Vec<(String, String)>) -> (r: Vec<(String, String)>)
    ensures
        edit::pairs(r@) == edit::pairs(v@),
{
    let ghost all = edit::pairs(v@);
    let n = v.len();
    assert(all.len() == n);
    let mut out: Vec<(String, String)> = Vec::new();
    assert(edit::pairs(out@) =~= all.take(0));
    let mut i: usize = 0;
    while i < n
        invariant
            i <= n,
            n == v@.len(),
            all == edit::pairs(v@),
            all.len() == n,
            edit::pairs(out@) == all.take(i as int),
        decreases n - i,
    {
        assert(all[i as int] == (v@[i as int].0@, v@[i as int].1@));
        let a = v[i].0.clone();
        let b = v[i].1.clone();
        let ghost before = edit::pairs(out@);
        out.push((a, b));
        assert(edit::pairs(out@) =~= before.push(all[i as int]));
        assert(all.take(i + 1) =~= all.take(i as int).push(all[i as int]));
        i += 1;
    }
    assert(all.take(n as int) =~= all);
    out
}

fn add_rules(out: &mut Vec<SheetRule>, selectors: &[char], block: &[char])
    ensures
        rules(final(out)@) == rules(old(out)@) + rules_for(
            css::spec_split_top_level(selectors@, ','),
            declarations(block@),
            css::spec_split_top_level(selectors@, ',').len() as int,
        ),
{
    let list = split_top_level(selectors, ',');
    let ghost all = text::texts(list@);
    let decls = declarations_of(block);
    let ghost ds = edit::pairs(decls@);
    let n = list.len();
    assert(all.len() == n);
    let ghost start = rules(out@);
    let mut i: usize = 0;
    assert(start + rules_for(all, ds, 0) =~= start);
    while i < n
        invariant
            i <= n,
            n == list@.len(),
            all == text::texts(list@),
            ds == edit::pairs(decls@),
            rules(out@) == start + rules_for(all, ds, i as int),
        decreases n - i,
    {
        assert(all[i as int] == list@[i as int]@);
        if let Some(shape) = decompose(&list[i]) {
            let rule = SheetRule { shape, decls: copy_pairs(&decls) };
            let ghost rv = rule@;
            let ghost before = rules(out@);
            out.push(rule);
            assert(rules(out@) =~= before.push(rv));
            assert(rules(out@) =~= start + rules_for(all, ds, i + 1));
        }
        i += 1;
    }
}

/// The rules of a stylesheet whose selectors have a shape, in order, one for each selector.
pub fn rules_of(css: &str) -> (r: Vec<SheetRule>)
    ensures
        rules(r@) == sheet_rules(css@),
{
    let t = chars_of(css);
    let v = scan(&t);
    let ghost all = css::items(v@);
    let n = v.len();
    assert(all.len() == n);
    let mut out: Vec<SheetRule> = Vec::new();
    assert(rules(out@) =~= Seq::empty());
    let mut i: usize = 0;
    while i < n
        invariant
            i <= n,
            n == v@.len(),
            all == css::items(v@),
            all.len() == n,
            css::items_fit(all, 0, t@.len() as int),
            rules(out@) == rules_to(t@, all, i as int),
        decreases n - i,
    {
        assert(all[i as int] == v@[i as int]@);
        assert(css::item_fits(all[i as int]));
        match &v[i].kind {
            Kind::Rule { prelude, inner } => {
                add_rules(&mut out, &t[prelude.0..prelude.1], &t[inner.0..inner.1]);
            },
            _ => {
                assert(rules(out@) =~= rules(out@) + Seq::empty());
            },
        }
        i += 1;
    }
    out
}

// ---------------------------------------------------------------- what matters

/// `d`, in order of name, with `value` for `name` in place of what was there.
pub open spec fn put_from(
    d: Seq<(Seq<char>, Seq<char>)>,
    name: Seq<char>,
    value: Seq<char>,
    i: int,
) -> Seq<(Seq<char>, Seq<char>)>
    decreases d.len() - i,
{
    if i < 0 || i >= d.len() {
        d.push((name, value))
    } else if d[i].0 == name {
        d.update(i, (name, value))
    } else if spine_repair::not_behind(d[i].0, name, 0) {
        put_from(d, name, value, i + 1)
    } else {
        d.subrange(0, i).push((name, value)) + d.subrange(i, d.len() as int)
    }
}

/// Put `value` for `name` into a list in order of name.
pub fn put_pair(d: &mut Vec<(String, String)>, name: &[char], value: &[char])
    ensures
        edit::pairs(final(d)@) == put_from(edit::pairs(old(d)@), name@, value@, 0),
{
    let ghost all = edit::pairs(d@);
    let n = d.len();
    assert(all.len() == n);
    let mut i: usize = 0;
    while i < n
        invariant
            i <= n == d@.len() == all.len(),
            d@ == old(d)@,
            all == edit::pairs(d@),
            put_from(all, name@, value@, 0) == put_from(all, name@, value@, i as int),
        decreases n - i,
    {
        assert(all[i as int] == (d@[i as int].0@, d@[i as int].1@));
        let here = chars_of(&d[i].0);
        if same(&here, name) {
            let x = (string_of(name), string_of(value));
            d.set(i, x);
            assert(edit::pairs(d@) =~= put_from(all, name@, value@, i as int));
            return;
        }
        if !not_behind_of(&here, name) {
            let x = (string_of(name), string_of(value));
            d.insert(i, x);
            assert(edit::pairs(d@) =~= put_from(all, name@, value@, i as int));
            return;
        }
        i += 1;
    }
    let x = (string_of(name), string_of(value));
    d.push(x);
    assert(edit::pairs(d@) =~= put_from(all, name@, value@, n as int));
}

/// The place of the first pair with the name.
pub open spec fn pair_at(d: Seq<(Seq<char>, Seq<char>)>, name: Seq<char>, i: int) -> Option<int>
    decreases d.len() - i,
{
    if i < 0 || i >= d.len() {
        None
    } else if d[i].0 == name {
        Some(i)
    } else {
        pair_at(d, name, i + 1)
    }
}

/// The value for the name.
pub open spec fn value_in(d: Seq<(Seq<char>, Seq<char>)>, name: Seq<char>) -> Option<Seq<char>> {
    match pair_at(d, name, 0) {
        Some(i) => Some(d[i].1),
        None => None,
    }
}

/// The place of the first pair with the name.
pub fn find_pair(d: &Vec<(String, String)>, name: &str) -> (r: Option<usize>)
    ensures
        text::pos(r) == pair_at(edit::pairs(d@), name@, 0),
        r matches Some(i) ==> i < d@.len() && value_in(edit::pairs(d@), name@) == Some(
            d@[i as int].1@,
        ),
        r is None ==> value_in(edit::pairs(d@), name@) is None,
{
    let ghost all = edit::pairs(d@);
    let n = d.len();
    assert(all.len() == n);
    let mut i: usize = 0;
    while i < n
        invariant
            i <= n,
            n == d@.len(),
            all == edit::pairs(d@),
            all.len() == n,
            pair_at(all, name@, i as int) == pair_at(all, name@, 0),
        decreases n - i,
    {
        assert(all[i as int] == (d@[i as int].0@, d@[i as int].1@));
        if str_is(&d[i].0, name) {
            return Some(i);
        }
        i += 1;
    }
    None
}

/// A word that draws a border.
pub open spec fn draws(w: Seq<char>) -> bool {
    w == "solid"@ || w == "dotted"@ || w == "dashed"@ || w == "double"@ || w == "groove"@ || w
        == "ridge"@ || w == "inset"@ || w == "outset"@
}

fn draws_border(w: &[char]) -> (r: bool)
    ensures
        r == draws(w@),
{
    is(w, "solid") || is(w, "dotted") || is(w, "dashed") || is(w, "double") || is(w, "groove")
        || is(w, "ridge") || is(w, "inset") || is(w, "outset")
}

/// One of the words draws a border.
pub open spec fn any_draws(words: Seq<Seq<char>>) -> bool {
    exists|i: int| 0 <= i < words.len() && draws(#[trigger] words[i])
}

/// A declaration draws a border.
pub open spec fn draws_in(d: (Seq<char>, Seq<char>)) -> bool {
    text::spec_starts(d.0, "border"@) && any_draws(text::spec_words(d.1))
}

fn draws_of(name: &[char], value: &[char]) -> (r: bool)
    ensures
        r == draws_in((name@, value@)),
{
    if !starts_str(name, "border") {
        return false;
    }
    let w = words(value);
    let ghost all = text::texts(w@);
    let n = w.len();
    assert(all.len() == n);
    let mut i: usize = 0;
    while i < n
        invariant
            i <= n,
            n == w@.len(),
            all == text::texts(w@),
            all.len() == n,
            all == text::spec_words(value@),
            text::spec_starts(name@, "border"@),
            forall|k: int| 0 <= k < i ==> !draws(#[trigger] all[k]),
        decreases n - i,
    {
        assert(all[i as int] == w@[i as int]@);
        if draws_border(&w[i]) {
            return true;
        }
        i += 1;
    }
    false
}

/// Some declaration draws a border.
pub open spec fn border_drawn(v: Seq<(Seq<char>, Seq<char>)>) -> bool {
    exists|i: int| 0 <= i < v.len() && draws_in(#[trigger] v[i])
}

fn is_border_drawn(v: &Vec<(String, String)>) -> (r: bool)
    ensures
        r == border_drawn(edit::pairs(v@)),
{
    let ghost all = edit::pairs(v@);
    let n = v.len();
    assert(all.len() == n);
    let mut i: usize = 0;
    while i < n
        invariant
            i <= n,
            n == v@.len(),
            all == edit::pairs(v@),
            all.len() == n,
            forall|k: int| 0 <= k < i ==> !draws_in(#[trigger] all[k]),
        decreases n - i,
    {
        assert(all[i as int] == (v@[i as int].0@, v@[i as int].1@));
        if draws_of(&chars_of(&v[i].0), &chars_of(&v[i].1)) {
            return true;
        }
        i += 1;
    }
    false
}

/// A property of the layout whose value `auto` says nothing.
pub open spec fn is_size(n: Seq<char>) -> bool {
    n == "width"@ || n == "height"@ || n == "max-width"@ || n == "max-height"@ || n
        == "min-width"@ || n == "min-height"@
}

/// A property of the layout whose value zero says nothing where nothing else was said before.
pub open spec fn is_gap(n: Seq<char>) -> bool {
    text::spec_starts(n, "margin"@) || text::spec_starts(n, "padding"@) || (text::spec_starts(
        n,
        "border"@,
    ) && text::spec_ends(n, "radius"@))
}

/// A declaration says nothing that a reader would see: the height of lines and the direction of
/// writing are set elsewhere, and defaults change nothing. In a reference zero is a statement.
pub open spec fn says_nothing(n: Seq<char>, v: Seq<char>, drawn: bool, reference: bool) -> bool {
    if v == "inherit"@ || v == "initial"@ || v == "unset"@ || v == "revert"@ {
        true
    } else if n == "line-height"@ || n == "hyphens"@ || n == "writing-mode"@ {
        true
    } else if n == "display"@ {
        v == "block"@ || v == "inline"@
    } else if is_size(n) {
        v == "auto"@
    } else if is_gap(n) {
        !reference && v == "0"@
    } else if n == "text-indent"@ || n == "letter-spacing"@ || n == "word-spacing"@ {
        (!reference && v == "0"@) || v == "auto"@ || v == "normal"@
    } else if n == "vertical-align"@ {
        v == "baseline"@
    } else if n == "background-color"@ {
        v == "transparent"@
    } else if n == "white-space"@ || n == "word-break"@ {
        v == "normal"@
    } else if n == "line-break"@ {
        v == "auto"@
    } else if n == "text-transform"@ {
        v == "none"@
    } else if text::spec_starts(n, "border"@) {
        !drawn
    } else {
        false
    }
}

fn size_name(n: &[char]) -> (r: bool)
    ensures
        r == is_size(n@),
{
    is(n, "width") || is(n, "height") || is(n, "max-width") || is(n, "max-height") || is(
        n,
        "min-width",
    ) || is(n, "min-height")
}

fn gap_name(n: &[char]) -> (r: bool)
    ensures
        r == is_gap(n@),
{
    starts_str(n, "margin") || starts_str(n, "padding") || (starts_str(n, "border") && ends_str(
        n,
        "radius",
    ))
}

/// A declaration says nothing that a reader would see.
fn ignorable(n: &[char], v: &[char], drawn: bool, reference: bool) -> (r: bool)
    ensures
        r == says_nothing(n@, v@, drawn, reference),
{
    if is(v, "inherit") || is(v, "initial") || is(v, "unset") || is(v, "revert") {
        true
    } else if is(n, "line-height") || is(n, "hyphens") || is(n, "writing-mode") {
        true
    } else if is(n, "display") {
        is(v, "block") || is(v, "inline")
    } else if size_name(n) {
        is(v, "auto")
    } else if gap_name(n) {
        !reference && is(v, "0")
    } else if is(n, "text-indent") || is(n, "letter-spacing") || is(n, "word-spacing") {
        (!reference && is(v, "0")) || is(v, "auto") || is(v, "normal")
    } else if is(n, "vertical-align") {
        is(v, "baseline")
    } else if is(n, "background-color") {
        is(v, "transparent")
    } else if is(n, "white-space") || is(n, "word-break") {
        is(v, "normal")
    } else if is(n, "line-break") {
        is(v, "auto")
    } else if is(n, "text-transform") {
        is(v, "none")
    } else if starts_str(n, "border") {
        !drawn
    } else {
        false
    }
}

/// A font size in percent, written in units of the surrounding size; another value as it is.
pub open spec fn in_ems(n: Seq<char>, v: Seq<char>) -> Seq<char> {
    let end = series::numeral_end(v, 0);
    if n == "font-size"@ && 0 < end && end == v.len() - 1 && v[end] == '%' {
        match volume_number::numerals(v.subrange(0, end)) {
            Some(k) => volume_number::number_text(Number { billionths: (k / 100) as u128 })
                + "em"@,
            None => v,
        }
    } else {
        v
    }
}

fn in_ems_of(n: &[char], v: &[char]) -> (r: Vec<char>)
    ensures
        r@ == in_ems(n@, v@),
{
    let end = numeral_end_of(v, 0);
    let len = v.len();
    if is(n, "font-size") && 0 < end && len > 0 && end == len - 1 && v[end] == '%' {
        if let Some(k) = read_numerals(&v[0..end]) {
            let mut out = trim_number(Number { billionths: k.billionths / 100 });
            put_str(&mut out, "em");
            return out;
        }
    }
    copy(v)
}

/// What of the first `n` declarations matters, the last for each property, in order of name.
pub open spec fn essential_to(
    v: Seq<(Seq<char>, Seq<char>)>,
    drawn: bool,
    reference: bool,
    n: int,
) -> Seq<(Seq<char>, Seq<char>)>
    decreases n,
{
    if n <= 0 {
        Seq::empty()
    } else {
        let before = essential_to(v, drawn, reference, n - 1);
        if says_nothing(v[n - 1].0, v[n - 1].1, drawn, reference) {
            before
        } else {
            put_from(before, v[n - 1].0, in_ems(v[n - 1].0, v[n - 1].1), 0)
        }
    }
}

/// What of some declarations matters.
pub open spec fn essentials(v: Seq<(Seq<char>, Seq<char>)>, reference: bool) -> Seq<
    (Seq<char>, Seq<char>),
> {
    essential_to(v, border_drawn(v), reference, v.len() as int)
}

/// What of some declarations matters, the last for each property, in order of name.
pub fn essential(v: &Vec<(String, String)>, reference: bool) -> (r: Vec<(String, String)>)
    ensures
        edit::pairs(r@) == essentials(edit::pairs(v@), reference),
{
    let ghost all = edit::pairs(v@);
    let drawn = is_border_drawn(v);
    let n = v.len();
    assert(all.len() == n);
    let mut out: Vec<(String, String)> = Vec::new();
    assert(edit::pairs(out@) =~= Seq::empty());
    let mut i: usize = 0;
    while i < n
        invariant
            i <= n,
            n == v@.len(),
            all == edit::pairs(v@),
            edit::pairs(out@) == essential_to(all, drawn, reference, i as int),
        decreases n - i,
    {
        assert(all[i as int] == (v@[i as int].0@, v@[i as int].1@));
        let name = chars_of(&v[i].0);
        let value = chars_of(&v[i].1);
        if !ignorable(&name, &value, drawn, reference) {
            let shown = in_ems_of(&name, &value);
            put_pair(&mut out, &name, &shown);
        }
        i += 1;
    }
    out
}

/// The last value that the first `n` declarations give the property.
pub open spec fn last_value(v: Seq<(Seq<char>, Seq<char>)>, name: Seq<char>, n: int) -> Option<Seq<char>>
    decreases n,
{
    if n <= 0 {
        None
    } else if v[n - 1].0 == name {
        Some(v[n - 1].1)
    } else {
        last_value(v, name, n - 1)
    }
}

/// The last value that the declarations give the property.
pub fn last_value_of(v: &Vec<(String, String)>, name: &str) -> (r: Option<String>)
    ensures
        text::opt_str(r) == last_value(edit::pairs(v@), name@, v@.len() as int),
{
    let ghost all = edit::pairs(v@);
    let mut n: usize = v.len();
    while n > 0
        invariant
            n <= v@.len(),
            all == edit::pairs(v@),
            last_value(all, name@, n as int) == last_value(all, name@, v@.len() as int),
        decreases n,
    {
        assert(all[n - 1] == (v@[n - 1].0@, v@[n - 1].1@));
        if str_is(&v[n - 1].0, name) {
            return Some(v[n - 1].1.clone());
        }
        n -= 1;
    }
    None
}

/// A selector by one class alone.
pub open spec fn is_flat(s: Shp) -> bool {
    s.tag is None && s.classes.len() == 1 && s.context_classes.len() == 0 && s.context_tags.len()
        == 0
}

fn flat_shape(s: &Shape) -> (r: bool)
    ensures
        r == is_flat(s@),
{
    assert(s@.classes.len() == s.classes@.len());
    assert(s@.context_classes.len() == s.context_classes@.len());
    assert(s@.context_tags.len() == s.context_tags@.len());
    s.tag.is_none() && s.classes.len() == 1 && s.context_classes.len() == 0
        && s.context_tags.len() == 0
}

/// What the first `n` rules declare for the class alone.
pub open spec fn flat_decls(v: Seq<StyleRule>, class: Seq<char>, n: int) -> Seq<(Seq<char>, Seq<char>)>
    decreases n,
{
    if n <= 0 {
        Seq::empty()
    } else {
        flat_decls(v, class, n - 1) + if is_flat(v[n - 1].shape) && v[n - 1].shape.classes[0]
            == class {
            v[n - 1].decls
        } else {
            Seq::empty()
        }
    }
}

/// The classes that the first `n` rules select alone, each once, in order.
pub open spec fn flat_classes(v: Seq<StyleRule>, n: int) -> Seq<Seq<char>>
    decreases n,
{
    if n <= 0 {
        Seq::empty()
    } else {
        let before = flat_classes(v, n - 1);
        if is_flat(v[n - 1].shape) && !before.contains(v[n - 1].shape.classes[0]) {
            reach::with_name(before, v[n - 1].shape.classes[0], 0)
        } else {
            before
        }
    }
}

/// What the rules declare for the class alone.
pub fn flat_decls_of(v: &Vec<SheetRule>, class: &str) -> (r: Vec<(String, String)>)
    ensures
        edit::pairs(r@) == flat_decls(rules(v@), class@, v@.len() as int),
{
    let ghost all = rules(v@);
    let n = v.len();
    let mut out: Vec<(String, String)> = Vec::new();
    assert(edit::pairs(out@) =~= Seq::empty());
    let mut i: usize = 0;
    while i < n
        invariant
            i <= n,
            n == v@.len(),
            all == rules(v@),
            edit::pairs(out@) == flat_decls(all, class@, i as int),
        decreases n - i,
    {
        assert(all[i as int] == v@[i as int]@);
        let rule = &v[i];
        let mut here = false;
        if flat_shape(&rule.shape) {
            assert(rule@.shape.classes[0] == rule.shape.classes@[0]@);
            here = str_is(&rule.shape.classes[0], class);
        }
        if here {
            append_pairs(&mut out, &rule.decls);
        } else {
            assert(edit::pairs(out@) =~= edit::pairs(out@) + Seq::empty());
        }
        i += 1;
    }
    out
}

pub fn append_pairs(out: &mut Vec<(String, String)>, v: &Vec<(String, String)>)
    ensures
        edit::pairs(final(out)@) == edit::pairs(old(out)@) + edit::pairs(v@),
{
    let ghost start = edit::pairs(out@);
    let ghost all = edit::pairs(v@);
    let n = v.len();
    assert(all.len() == n);
    let mut i: usize = 0;
    assert(start + all.take(0) =~= start);
    while i < n
        invariant
            i <= n,
            n == v@.len(),
            all == edit::pairs(v@),
            all.len() == n,
            edit::pairs(out@) == start + all.take(i as int),
        decreases n - i,
    {
        assert(all[i as int] == (v@[i as int].0@, v@[i as int].1@));
        let a = v[i].0.clone();
        let b = v[i].1.clone();
        let ghost before = edit::pairs(out@);
        out.push((a, b));
        assert(edit::pairs(out@) =~= before.push(all[i as int]));
        assert(before.push(all[i as int]) =~= start + all.take(i + 1));
        i += 1;
    }
    assert(all.take(n as int) =~= all);
}

/// The classes that the rules select alone.
pub fn flat_classes_of(v: &Vec<SheetRule>) -> (r: Vec<String>)
    ensures
        text::strs(r@) == flat_classes(rules(v@), v@.len() as int),
{
    let ghost all = rules(v@);
    let n = v.len();
    let mut out: Vec<String> = Vec::new();
    assert(text::strs(out@) =~= Seq::empty());
    let mut i: usize = 0;
    while i < n
        invariant
            i <= n,
            n == v@.len(),
            all == rules(v@),
            text::strs(out@) == flat_classes(all, i as int),
        decreases n - i,
    {
        assert(all[i as int] == v@[i as int]@);
        let rule = &v[i];
        if flat_shape(&rule.shape) {
            assert(rule@.shape.classes[0] == rule.shape.classes@[0]@);
            if !strs_have(&out, &chars_of(&rule.shape.classes[0])) {
                add_name(&mut out, &rule.shape.classes[0]);
            }
        }
        i += 1;
    }
    out
}

} // verus!
