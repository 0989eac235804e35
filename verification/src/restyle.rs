//! The classes of a reference that stand for what a flattened class declares.
use vstd::prelude::*;

use crate::edit;
use crate::flattened;
use crate::reference_styles;
use crate::spine_repair;
use crate::stylesheet;
use crate::text;
use crate::flattened::generated;
use crate::reference_styles::{RefRule, Ruled, Weight, outweighs};
use crate::spine_repair::not_behind_of;
use crate::stylesheet::{Shape, Shp, find_pair, put_pair};
use crate::text::{
    add_str, ascii_digit, chars_of, copy, is, join2, same, starts, str_is, string_of, strs_have,
};

verus! {

/// A number that stops at the largest that can be counted to.
pub open spec fn capped(n: int) -> int {
    if n > u128::MAX {
        u128::MAX as int
    } else {
        n
    }
}

pub fn capped_sum(a: u128, b: u128) -> (r: u128)
    ensures
        r == capped(a + b),
{
    if a <= u128::MAX - b {
        a + b
    } else {
        u128::MAX
    }
}

// ---------------------------------------------------------------- declarations with a weight

/// A declaration with the weight of the selector that made it.
pub struct Weighed {
    pub name: String,
    pub value: String,
    pub weight: Weight,
}

pub open spec fn weighed(v: Seq<Weighed>) -> Seq<(Seq<char>, Seq<char>, Weight)> {
    v.map_values(|w: Weighed| (w.name@, w.value@, w.weight))
}

/// The place of the declaration of the property.
pub open spec fn weighed_at(d: Seq<(Seq<char>, Seq<char>, Weight)>, name: Seq<char>, i: int) -> Option<int>
    decreases d.len() - i,
{
    if i < 0 || i >= d.len() {
        None
    } else if d[i].0 == name {
        Some(i)
    } else {
        weighed_at(d, name, i + 1)
    }
}

/// With one more declaration: it takes the place of one of the same property that does not weigh
/// more.
pub open spec fn weighed_with(
    d: Seq<(Seq<char>, Seq<char>, Weight)>,
    name: Seq<char>,
    value: Seq<char>,
    weight: Weight,
) -> Seq<(Seq<char>, Seq<char>, Weight)> {
    match weighed_at(d, name, 0) {
        Some(i) => if reference_styles::heavier(d[i].2, weight) {
            d
        } else {
            d.update(i, (name, value, weight))
        },
        None => d.push((name, value, weight)),
    }
}

/// With the first `n` declarations of a rule.
pub open spec fn weighed_to(
    d: Seq<(Seq<char>, Seq<char>, Weight)>,
    decls: Seq<(Seq<char>, Seq<char>)>,
    weight: Weight,
    n: int,
) -> Seq<(Seq<char>, Seq<char>, Weight)>
    decreases n,
{
    if n <= 0 {
        d
    } else {
        weighed_with(
            weighed_to(d, decls, weight, n - 1),
            decls[n - 1].0,
            decls[n - 1].1,
            weight,
        )
    }
}

fn weighed_place(d: &Vec<Weighed>, name: &str) -> (r: Option<usize>)
    ensures
        text::pos(r) == weighed_at(weighed(d@), name@, 0),
        r matches Some(i) ==> i < d@.len(),
{
    let ghost all = weighed(d@);
    let n = d.len();
    assert(all.len() == n);
    let mut i: usize = 0;
    while i < n
        invariant
            i <= n,
            n == d@.len(),
            all == weighed(d@),
            all.len() == n,
            weighed_at(all, name@, i as int) == weighed_at(all, name@, 0),
        decreases n - i,
    {
        assert(all[i as int] == (d@[i as int].name@, d@[i as int].value@, d@[i as int].weight));
        if str_is(&d[i].name, name) {
            return Some(i);
        }
        i += 1;
    }
    None
}

fn weigh(d: &mut Vec<Weighed>, decls: &Vec<(String, String)>, weight: Weight)
    ensures
        weighed(final(d)@) == weighed_to(
            weighed(old(d)@),
            edit::pairs(decls@),
            weight,
            decls@.len() as int,
        ),
{
    let ghost start = weighed(d@);
    let ghost ds = edit::pairs(decls@);
    let n = decls.len();
    let mut i: usize = 0;
    while i < n
        invariant
            i <= n,
            n == decls@.len(),
            ds == edit::pairs(decls@),
            weighed(d@) == weighed_to(start, ds, weight, i as int),
        decreases n - i,
    {
        assert(ds[i as int] == (decls@[i as int].0@, decls@[i as int].1@));
        let ghost before = weighed(d@);
        assert(before.len() == d@.len());
        match weighed_place(d, &decls[i].0) {
            Some(k) => {
                assert(before[k as int] == (
                    d@[k as int].name@,
                    d@[k as int].value@,
                    d@[k as int].weight,
                ));
                if !outweighs(d[k].weight, weight) {
                    let x = Weighed {
                        name: decls[i].0.clone(),
                        value: decls[i].1.clone(),
                        weight,
                    };
                    d.set(k, x);
                    assert(weighed(d@) =~= before.update(
                        k as int,
                        (ds[i as int].0, ds[i as int].1, weight),
                    ));
                }
            },
            None => {
                let x = Weighed { name: decls[i].0.clone(), value: decls[i].1.clone(), weight };
                d.push(x);
                assert(weighed(d@) =~= before.push((ds[i as int].0, ds[i as int].1, weight)));
            },
        }
        i += 1;
    }
}

// ---------------------------------------------------------------- what a mapping knows

/// An element whose classes are to be found.
pub struct Key {
    pub tag: String,
    pub classes: Vec<String>,
    pub ancestors: Vec<String>,
    pub ancestor_tags: Vec<String>,
    pub inherited: Vec<(String, String)>,
}

/// What a `Key` says.
#[verifier::ext_equal]
pub struct Element {
    pub tag: Seq<char>,
    pub classes: Seq<Seq<char>>,
    pub ancestors: Seq<Seq<char>>,
    pub ancestor_tags: Seq<Seq<char>>,
    pub inherited: Seq<(Seq<char>, Seq<char>)>,
}

impl View for Key {
    type V = Element;

    open spec fn view(&self) -> Element {
        Element {
            tag: self.tag@,
            classes: text::strs(self.classes@),
            ancestors: text::strs(self.ancestors@),
            ancestor_tags: text::strs(self.ancestor_tags@),
            inherited: edit::pairs(self.inherited@),
        }
    }
}

/// Every one of `a` is in `b`.
pub open spec fn all_in(a: Seq<Seq<char>>, b: Seq<Seq<char>>) -> bool {
    forall|i: int| 0 <= i < a.len() ==> b.contains(#[trigger] a[i])
}

fn are_in(a: &Vec<String>, b: &Vec<String>) -> (r: bool)
    ensures
        r == all_in(text::strs(a@), text::strs(b@)),
{
    let ghost all = text::strs(a@);
    let n = a.len();
    assert(all.len() == n);
    let mut i: usize = 0;
    while i < n
        invariant
            i <= n,
            n == a@.len(),
            all == text::strs(a@),
            all.len() == n,
            forall|k: int| 0 <= k < i ==> text::strs(b@).contains(#[trigger] all[k]),
        decreases n - i,
    {
        assert(all[i as int] == a@[i as int]@);
        if !strs_have(b, &chars_of(&a[i])) {
            return false;
        }
        i += 1;
    }
    true
}

/// A selector can apply to the element, as far as its tag and the elements round it go.
pub open spec fn can_apply(s: Shp, e: Element) -> bool {
    (s.tag is None || s.tag == Some(e.tag)) && all_in(s.context_classes, e.ancestors) && all_in(
        s.context_tags,
        e.ancestor_tags,
    )
}

fn applies(s: &Shape, e: &Key) -> (r: bool)
    ensures
        r == can_apply(s@, e@),
{
    let own = match &s.tag {
        Some(t) => str_is(t, &e.tag),
        None => true,
    };
    own && are_in(&s.context_classes, &e.ancestors) && are_in(&s.context_tags, &e.ancestor_tags)
}

/// What each flattened class declares, the last entry for a class counting.
pub open spec fn flat_said(v: Seq<(String, Vec<(String, String)>)>) -> Seq<
    (Seq<char>, Seq<(Seq<char>, Seq<char>)>),
> {
    v.map_values(|f: (String, Vec<(String, String)>)| (f.0@, edit::pairs(f.1@)))
}

/// What the class declares, by the first `n` entries.
pub open spec fn flat_value(
    v: Seq<(Seq<char>, Seq<(Seq<char>, Seq<char>)>)>,
    class: Seq<char>,
    n: int,
) -> Option<Seq<(Seq<char>, Seq<char>)>>
    decreases n,
{
    if n <= 0 {
        None
    } else if v[n - 1].0 == class {
        Some(v[n - 1].1)
    } else {
        flat_value(v, class, n - 1)
    }
}

fn flat_place(v: &Vec<(String, Vec<(String, String)>)>, class: &str) -> (r: Option<usize>)
    ensures
        match r {
            Some(i) => i < v@.len() && flat_value(flat_said(v@), class@, v@.len() as int) == Some(
                edit::pairs(v@[i as int].1@),
            ),
            None => flat_value(flat_said(v@), class@, v@.len() as int) is None,
        },
{
    let ghost all = flat_said(v@);
    let mut n: usize = v.len();
    while n > 0
        invariant
            n <= v@.len(),
            all == flat_said(v@),
            flat_value(all, class@, n as int) == flat_value(all, class@, v@.len() as int),
        decreases n,
    {
        assert(all[n - 1] == (v@[n - 1].0@, edit::pairs(v@[n - 1].1@)));
        if str_is(&v[n - 1].0, class) {
            return Some(n - 1);
        }
        n -= 1;
    }
    None
}

/// `d` with the first `n` of `more` put into it.
pub open spec fn put_to(
    d: Seq<(Seq<char>, Seq<char>)>,
    more: Seq<(Seq<char>, Seq<char>)>,
    n: int,
) -> Seq<(Seq<char>, Seq<char>)>
    decreases n,
{
    if n <= 0 {
        d
    } else {
        stylesheet::put_from(put_to(d, more, n - 1), more[n - 1].0, more[n - 1].1, 0)
    }
}

pub fn put_pairs(d: &mut Vec<(String, String)>, more: &Vec<(String, String)>)
    ensures
        edit::pairs(final(d)@) == put_to(
            edit::pairs(old(d)@),
            edit::pairs(more@),
            more@.len() as int,
        ),
{
    let ghost start = edit::pairs(d@);
    let ghost ms = edit::pairs(more@);
    let n = more.len();
    let mut i: usize = 0;
    while i < n
        invariant
            i <= n,
            n == more@.len(),
            ms == edit::pairs(more@),
            edit::pairs(d@) == put_to(start, ms, i as int),
        decreases n - i,
    {
        assert(ms[i as int] == (more@[i as int].0@, more@[i as int].1@));
        put_pair(d, &chars_of(&more[i].0), &chars_of(&more[i].1));
        i += 1;
    }
}

/// What the first `n` classes declare together.
pub open spec fn declared_by(
    flat: Seq<(Seq<char>, Seq<(Seq<char>, Seq<char>)>)>,
    classes: Seq<Seq<char>>,
    n: int,
) -> Seq<(Seq<char>, Seq<char>)>
    decreases n,
{
    if n <= 0 {
        Seq::empty()
    } else {
        let before = declared_by(flat, classes, n - 1);
        match flat_value(flat, classes[n - 1], flat.len() as int) {
            Some(d) => put_to(before, d, d.len() as int),
            None => before,
        }
    }
}

/// A property that a body keeps: the rest of what it declares is the page's own.
pub open spec fn of_body(name: Seq<char>) -> bool {
    name == "font-size"@ || name == "font-weight"@ || name == "font-style"@ || name
        == "text-align"@ || name == "color"@ || name == "background-color"@
}

fn is_of_body(name: &[char]) -> (r: bool)
    ensures
        r == of_body(name@),
{
    is(name, "font-size") || is(name, "font-weight") || is(name, "font-style") || is(
        name,
        "text-align",
    ) || is(name, "color") || is(name, "background-color")
}

/// The first `n` that a body keeps.
pub open spec fn body_part(d: Seq<(Seq<char>, Seq<char>)>, n: int) -> Seq<(Seq<char>, Seq<char>)>
    decreases n,
{
    if n <= 0 {
        Seq::empty()
    } else if of_body(d[n - 1].0) {
        body_part(d, n - 1).push(d[n - 1])
    } else {
        body_part(d, n - 1)
    }
}

/// What the element needs.
pub open spec fn needed(flat: Seq<(Seq<char>, Seq<(Seq<char>, Seq<char>)>)>, e: Element) -> Seq<
    (Seq<char>, Seq<char>),
> {
    let d = declared_by(flat, e.classes, e.classes.len() as int);
    if e.tag == "html"@ {
        Seq::empty()
    } else if e.tag == "body"@ {
        body_part(d, d.len() as int)
    } else {
        d
    }
}

fn needed_of(flat: &Vec<(String, Vec<(String, String)>)>, e: &Key) -> (r: Vec<(String, String)>)
    ensures
        edit::pairs(r@) == needed(flat_said(flat@), e@),
{
    let ghost fs = flat_said(flat@);
    let ghost cs = text::strs(e.classes@);
    assert(fs.len() == flat@.len());
    let mut d: Vec<(String, String)> = Vec::new();
    assert(edit::pairs(d@) =~= Seq::empty());
    let n = e.classes.len();
    assert(cs.len() == n);
    let mut i: usize = 0;
    while i < n
        invariant
            i <= n,
            n == e.classes@.len(),
            fs == flat_said(flat@),
            fs.len() == flat@.len(),
            cs == text::strs(e.classes@),
            edit::pairs(d@) == declared_by(fs, cs, i as int),
        decreases n - i,
    {
        assert(cs[i as int] == e.classes@[i as int]@);
        if let Some(k) = flat_place(flat, &e.classes[i]) {
            assert(edit::pairs(flat@[k as int].1@).len() == flat@[k as int].1@.len());
            put_pairs(&mut d, &flat[k].1);
        }
        i += 1;
    }
    if str_is(&e.tag, "html") {
        let none: Vec<(String, String)> = Vec::new();
        assert(edit::pairs(none@) =~= Seq::empty());
        return none;
    }
    if !str_is(&e.tag, "body") {
        return d;
    }
    let ghost ds = edit::pairs(d@);
    let m = d.len();
    assert(ds.len() == m);
    let mut out: Vec<(String, String)> = Vec::new();
    assert(edit::pairs(out@) =~= Seq::empty());
    i = 0;
    while i < m
        invariant
            i <= m,
            m == d@.len(),
            ds == edit::pairs(d@),
            edit::pairs(out@) == body_part(ds, i as int),
        decreases m - i,
    {
        assert(ds[i as int] == (d@[i as int].0@, d@[i as int].1@));
        if is_of_body(&chars_of(&d[i].0)) {
            let x = (d[i].0.clone(), d[i].1.clone());
            let ghost before = edit::pairs(out@);
            out.push(x);
            assert(edit::pairs(out@) =~= before.push(ds[i as int]));
        }
        i += 1;
    }
    out
}

/// What the first `n` rules without a class give the element.
pub open spec fn free_to(rules: Seq<Ruled>, e: Element, n: int) -> Seq<(Seq<char>, Seq<char>, Weight)>
    decreases n,
{
    if n <= 0 {
        Seq::empty()
    } else {
        let before = free_to(rules, e, n - 1);
        let r = rules[n - 1];
        if can_apply(r.shape, e) && r.shape.classes.len() == 0 {
            weighed_to(before, r.decls, r.weight, r.decls.len() as int)
        } else {
            before
        }
    }
}

fn free_of(rules: &Vec<RefRule>, e: &Key) -> (r: Vec<Weighed>)
    ensures
        weighed(r@) == free_to(reference_styles::ruled(rules@), e@, rules@.len() as int),
{
    let ghost rs = reference_styles::ruled(rules@);
    let n = rules.len();
    let mut out: Vec<Weighed> = Vec::new();
    assert(weighed(out@) =~= Seq::empty());
    let mut i: usize = 0;
    while i < n
        invariant
            i <= n,
            n == rules@.len(),
            rs == reference_styles::ruled(rules@),
            weighed(out@) == free_to(rs, e@, i as int),
        decreases n - i,
    {
        assert(rs[i as int] == rules@[i as int]@);
        let r = &rules[i];
        assert(r@.shape.classes.len() == r.shape.classes@.len());
        assert(r@.decls.len() == r.decls@.len());
        if r.shape.classes.len() == 0 && applies(&r.shape, e) {
            weigh(&mut out, &r.decls, r.weight);
        }
        i += 1;
    }
    out
}

/// The value is given without a class: by a rule for all, or by inheritance.
pub open spec fn is_given(
    free: Seq<(Seq<char>, Seq<char>, Weight)>,
    inherited: Seq<(Seq<char>, Seq<char>)>,
    d: (Seq<char>, Seq<char>),
) -> bool {
    (weighed_at(free, d.0, 0) matches Some(i) && free[i].1 == d.1) || stylesheet::value_in(inherited, d.0)
        == Some(d.1)
}

fn given(free: &Vec<Weighed>, inherited: &Vec<(String, String)>, name: &String, value: &String) -> (r:
    bool)
    ensures
        r == is_given(weighed(free@), edit::pairs(inherited@), (name@, value@)),
{
    let ghost fs = weighed(free@);
    if let Some(i) = weighed_place(free, name) {
        assert(fs[i as int] == (
            free@[i as int].name@,
            free@[i as int].value@,
            free@[i as int].weight,
        ));
        if str_is(&free[i].value, value) {
            return true;
        }
    }
    match find_pair(inherited, name) {
        Some(k) => str_is(&inherited[k].1, value),
        None => false,
    }
}

/// The first `n` of what is needed that is not given.
pub open spec fn missing_to(
    need: Seq<(Seq<char>, Seq<char>)>,
    free: Seq<(Seq<char>, Seq<char>, Weight)>,
    inherited: Seq<(Seq<char>, Seq<char>)>,
    n: int,
) -> Seq<(Seq<char>, Seq<char>)>
    decreases n,
{
    if n <= 0 {
        Seq::empty()
    } else {
        let before = missing_to(need, free, inherited, n - 1);
        if is_given(free, inherited, need[n - 1]) {
            before
        } else {
            before.push(need[n - 1])
        }
    }
}

fn missing_of(
    need: &Vec<(String, String)>,
    free: &Vec<Weighed>,
    inherited: &Vec<(String, String)>,
) -> (r: Vec<(String, String)>)
    ensures
        edit::pairs(r@) == missing_to(
            edit::pairs(need@),
            weighed(free@),
            edit::pairs(inherited@),
            need@.len() as int,
        ),
{
    let ghost ns = edit::pairs(need@);
    let ghost fs = weighed(free@);
    let ghost hs = edit::pairs(inherited@);
    let n = need.len();
    let mut out: Vec<(String, String)> = Vec::new();
    assert(edit::pairs(out@) =~= Seq::empty());
    let mut i: usize = 0;
    while i < n
        invariant
            i <= n,
            n == need@.len(),
            ns == edit::pairs(need@),
            fs == weighed(free@),
            hs == edit::pairs(inherited@),
            edit::pairs(out@) == missing_to(ns, fs, hs, i as int),
        decreases n - i,
    {
        assert(ns[i as int] == (need@[i as int].0@, need@[i as int].1@));
        if !given(free, inherited, &need[i].0, &need[i].1) {
            let x = (need[i].0.clone(), need[i].1.clone());
            let ghost before = edit::pairs(out@);
            out.push(x);
            assert(edit::pairs(out@) =~= before.push(ns[i as int]));
        }
        i += 1;
    }
    out
}

// ---------------------------------------------------------------- candidates

/// A class of the reference, with what it would give the element, and how many of its rules speak
/// of the kind of page.
pub struct ClassOffer {
    pub name: String,
    pub decls: Vec<Weighed>,
    pub hits: u128,
}

/// What a `ClassOffer` says.
#[verifier::ext_equal]
pub struct Offer {
    pub name: Seq<char>,
    pub decls: Seq<(Seq<char>, Seq<char>, Weight)>,
    pub hits: int,
}

impl View for ClassOffer {
    type V = Offer;

    open spec fn view(&self) -> Offer {
        Offer { name: self.name@, decls: weighed(self.decls@), hits: self.hits as int }
    }
}

pub open spec fn offers(v: Seq<ClassOffer>) -> Seq<Offer> {
    v.map_values(|c: ClassOffer| c@)
}

/// The place of the offer with the name.
pub open spec fn offer_at(v: Seq<Offer>, name: Seq<char>, i: int) -> Option<int>
    decreases v.len() - i,
{
    if i < 0 || i >= v.len() {
        None
    } else if v[i].name == name {
        Some(i)
    } else {
        offer_at(v, name, i + 1)
    }
}

fn offer_place(v: &Vec<ClassOffer>, name: &str) -> (r: Option<usize>)
    ensures
        text::pos(r) == offer_at(offers(v@), name@, 0),
        r matches Some(i) ==> i < v@.len(),
{
    let ghost all = offers(v@);
    let n = v.len();
    assert(all.len() == n);
    let mut i: usize = 0;
    while i < n
        invariant
            i <= n,
            n == v@.len(),
            all == offers(v@),
            all.len() == n,
            offer_at(all, name@, i as int) == offer_at(all, name@, 0),
        decreases n - i,
    {
        assert(all[i as int] == v@[i as int]@);
        if str_is(&v[i].name, name) {
            return Some(i);
        }
        i += 1;
    }
    None
}

/// What a mapping goes by: what the flattened classes declare, the rules of the reference, the
/// classes its elements have, its kinds of page, and the kind of the page at hand.
#[verifier::ext_equal]
pub struct Mapping {
    pub flat: Seq<(Seq<char>, Seq<(Seq<char>, Seq<char>)>)>,
    pub rules: Seq<Ruled>,
    pub vocabulary: Seq<(Seq<char>, Seq<char>)>,
    pub kinds: Seq<Seq<char>>,
    pub kind: Option<Seq<char>>,
}

/// A mapping of classes.
pub struct Mapper<'a> {
    pub flat: &'a Vec<(String, Vec<(String, String)>)>,
    pub rules: &'a Vec<RefRule>,
    pub vocabulary: &'a Vec<(String, String)>,
    pub kinds: &'a Vec<String>,
    pub kind: Option<String>,
}

impl<'a> Mapper<'a> {
    pub open spec fn view(&self) -> Mapping {
        Mapping {
            flat: flat_said(self.flat@),
            rules: reference_styles::ruled(self.rules@),
            vocabulary: edit::pairs(self.vocabulary@),
            kinds: text::strs(self.kinds@),
            kind: text::opt_str(self.kind),
        }
    }
}

/// A rule offers its one class to the element: a kind of page is offered to a body alone.
pub open spec fn offers_class(m: Mapping, r: Ruled, e: Element) -> bool {
    can_apply(r.shape, e) && r.shape.classes.len() == 1 && (e.tag == "body"@ || !m.kinds.contains(
        r.shape.classes[0],
    ))
}

/// A rule speaks of the kind of the page at hand.
pub open spec fn of_kind(m: Mapping, r: Ruled) -> bool {
    m.kind matches Some(k) && r.shape.context_classes.contains(k)
}

/// The offers with one more rule.
pub open spec fn offered(v: Seq<Offer>, m: Mapping, r: Ruled) -> Seq<Offer> {
    let name = r.shape.classes[0];
    let hit = if of_kind(m, r) {
        1int
    } else {
        0
    };
    match offer_at(v, name, 0) {
        Some(i) => v.update(
            i,
            Offer {
                name,
                decls: weighed_to(v[i].decls, r.decls, r.weight, r.decls.len() as int),
                hits: capped(v[i].hits + hit),
            },
        ),
        None => v.push(
            Offer {
                name,
                decls: weighed_to(Seq::empty(), r.decls, r.weight, r.decls.len() as int),
                hits: capped(hit),
            },
        ),
    }
}

/// The offers of the first `n` rules.
pub open spec fn offers_to(m: Mapping, e: Element, n: int) -> Seq<Offer>
    decreases n,
{
    if n <= 0 {
        Seq::empty()
    } else {
        let before = offers_to(m, e, n - 1);
        if offers_class(m, m.rules[n - 1], e) {
            offered(before, m, m.rules[n - 1])
        } else {
            before
        }
    }
}

fn add_offer(v: &mut Vec<ClassOffer>, r: &RefRule, hit: u128, Ghost(m): Ghost<Mapping>)
    requires
        r.shape.classes@.len() == 1,
        hit == (if of_kind(m, r@) {
            1int
        } else {
            0
        }),
    ensures
        offers(final(v)@) == offered(offers(old(v)@), m, r@),
{
    let ghost before = offers(v@);
    assert(before.len() == v@.len());
    assert(r@.shape.classes[0] == r.shape.classes@[0]@);
    assert(r@.decls.len() == r.decls@.len());
    match offer_place(v, &r.shape.classes[0]) {
        Some(i) => {
            assert(before[i as int] == v@[i as int]@);
            let mut c = v.remove(i);
            let ghost rest = v@;
            weigh(&mut c.decls, &r.decls, r.weight);
            c.name = r.shape.classes[0].clone();
            c.hits = capped_sum(c.hits, hit);
            let ghost cv = c@;
            v.insert(i, c);
            assert(offers(v@) =~= before.update(i as int, cv));
        },
        None => {
            let mut decls: Vec<Weighed> = Vec::new();
            assert(weighed(decls@) =~= Seq::empty());
            weigh(&mut decls, &r.decls, r.weight);
            let c = ClassOffer { name: r.shape.classes[0].clone(), decls, hits: hit };
            let ghost cv = c@;
            v.push(c);
            assert(offers(v@) =~= before.push(cv));
        },
    }
}

fn offers_of(m: &Mapper, e: &Key) -> (r: Vec<ClassOffer>)
    ensures
        offers(r@) == offers_to(m@, e@, m@.rules.len() as int),
{
    let ghost mv = m@;
    let ghost rs = reference_styles::ruled(m.rules@);
    let n = m.rules.len();
    assert(rs.len() == n);
    let mut out: Vec<ClassOffer> = Vec::new();
    assert(offers(out@) =~= Seq::empty());
    let body = str_is(&e.tag, "body");
    let mut i: usize = 0;
    while i < n
        invariant
            i <= n,
            n == m.rules@.len(),
            mv == m@,
            rs == mv.rules,
            rs == reference_styles::ruled(m.rules@),
            body == (e@.tag == "body"@),
            offers(out@) == offers_to(mv, e@, i as int),
        decreases n - i,
    {
        assert(rs[i as int] == m.rules@[i as int]@);
        let r = &m.rules[i];
        assert(r@.shape.classes.len() == r.shape.classes@.len());
        if r.shape.classes.len() == 1 && applies(&r.shape, e) {
            assert(r@.shape.classes[0] == r.shape.classes@[0]@);
            if body || !strs_have(m.kinds, &chars_of(&r.shape.classes[0])) {
                let of_kind_here = match &m.kind {
                    Some(k) => strs_have(&r.shape.context_classes, &chars_of(k)),
                    None => false,
                };
                let hit: u128 = if of_kind_here {
                    1
                } else {
                    0
                };
                add_offer(&mut out, r, hit, Ghost(mv));
            }
        }
        i += 1;
    }
    out
}

// ---------------------------------------------------------------- choosing

/// A declaration of the weight wins over what is given for all.
pub open spec fn wins(
    free: Seq<(Seq<char>, Seq<char>, Weight)>,
    name: Seq<char>,
    weight: Weight,
) -> bool {
    match weighed_at(free, name, 0) {
        Some(i) => reference_styles::heavier(weight, free[i].2),
        None => true,
    }
}

fn is_winning(free: &Vec<Weighed>, name: &str, weight: Weight) -> (r: bool)
    ensures
        r == wins(weighed(free@), name@, weight),
{
    let ghost fs = weighed(free@);
    match weighed_place(free, name) {
        Some(i) => {
            assert(fs[i as int] == (
                free@[i as int].name@,
                free@[i as int].value@,
                free@[i as int].weight,
            ));
            outweighs(weight, free[i].weight)
        },
        None => true,
    }
}

/// What an element asks for: what is still missing, what it needs in all, and what is given for
/// all.
#[verifier::ext_equal]
pub struct Asking {
    pub target: Seq<(Seq<char>, Seq<char>)>,
    pub need: Seq<(Seq<char>, Seq<char>)>,
    pub free: Seq<(Seq<char>, Seq<char>, Weight)>,
}

/// A declaration does no harm: it is overruled, or missing, or needed and not missing, or it says
/// zero of what is not needed.
pub open spec fn harmless(d: (Seq<char>, Seq<char>, Weight), a: Asking) -> bool {
    ||| !wins(a.free, d.0, d.2)
    ||| stylesheet::value_in(a.target, d.0) == Some(d.1)
    ||| (stylesheet::value_in(a.target, d.0) is None && stylesheet::value_in(a.need, d.0) == Some(
        d.1,
    ))
    ||| (stylesheet::value_in(a.need, d.0) is None && d.1 == "0"@)
}

/// No declaration of an offer does harm.
pub open spec fn admissible(decls: Seq<(Seq<char>, Seq<char>, Weight)>, a: Asking) -> bool {
    forall|i: int| 0 <= i < decls.len() ==> harmless(#[trigger] decls[i], a)
}

fn is_harmless(
    d: &Weighed,
    target: &Vec<(String, String)>,
    need: &Vec<(String, String)>,
    free: &Vec<Weighed>,
) -> (r: bool)
    ensures
        r == harmless(
            (d.name@, d.value@, d.weight),
            Asking {
                target: edit::pairs(target@),
                need: edit::pairs(need@),
                free: weighed(free@),
            },
        ),
{
    if !is_winning(free, &d.name, d.weight) {
        return true;
    }
    let wanted = find_pair(target, &d.name);
    let needed_at = find_pair(need, &d.name);
    if let Some(i) = wanted {
        if str_is(&target[i].1, &d.value) {
            return true;
        }
    }
    match needed_at {
        Some(i) => wanted.is_none() && str_is(&need[i].1, &d.value),
        None => str_is(&d.value, "0"),
    }
}

fn is_admissible(
    decls: &Vec<Weighed>,
    target: &Vec<(String, String)>,
    need: &Vec<(String, String)>,
    free: &Vec<Weighed>,
) -> (r: bool)
    ensures
        r == admissible(
            weighed(decls@),
            Asking {
                target: edit::pairs(target@),
                need: edit::pairs(need@),
                free: weighed(free@),
            },
        ),
{
    let ghost ds = weighed(decls@);
    let ghost a = Asking {
        target: edit::pairs(target@),
        need: edit::pairs(need@),
        free: weighed(free@),
    };
    let n = decls.len();
    assert(ds.len() == n);
    let mut i: usize = 0;
    while i < n
        invariant
            i <= n,
            n == decls@.len(),
            ds == weighed(decls@),
            ds.len() == n,
            a == (Asking {
                target: edit::pairs(target@),
                need: edit::pairs(need@),
                free: weighed(free@),
            }),
            forall|k: int| 0 <= k < i ==> harmless(#[trigger] ds[k], a),
        decreases n - i,
    {
        assert(ds[i as int] == (
            decls@[i as int].name@,
            decls@[i as int].value@,
            decls@[i as int].weight,
        ));
        if !is_harmless(&decls[i], target, need, free) {
            assert(!harmless(ds[i as int], a));
            return false;
        }
        i += 1;
    }
    true
}

/// A declaration gives something that is missing.
pub open spec fn covers(d: (Seq<char>, Seq<char>, Weight), a: Asking) -> bool {
    wins(a.free, d.0, d.2) && stylesheet::value_in(a.target, d.0) == Some(d.1)
}

/// How many of the first `n` declarations give something that is missing.
pub open spec fn covers_to(decls: Seq<(Seq<char>, Seq<char>, Weight)>, a: Asking, n: int) -> int
    decreases n,
{
    if n <= 0 {
        0
    } else {
        covers_to(decls, a, n - 1) + if covers(decls[n - 1], a) {
            1int
        } else {
            0
        }
    }
}

fn covers_of(decls: &Vec<Weighed>, target: &Vec<(String, String)>, free: &Vec<Weighed>, Ghost(need): Ghost<
    Seq<(Seq<char>, Seq<char>)>,
>) -> (r: usize)
    ensures
        r == covers_to(
            weighed(decls@),
            Asking { target: edit::pairs(target@), need, free: weighed(free@) },
            decls@.len() as int,
        ),
{
    let ghost ds = weighed(decls@);
    let ghost a = Asking { target: edit::pairs(target@), need, free: weighed(free@) };
    let n = decls.len();
    let mut count: usize = 0;
    let mut i: usize = 0;
    while i < n
        invariant
            i <= n,
            n == decls@.len(),
            ds == weighed(decls@),
            a == (Asking { target: edit::pairs(target@), need, free: weighed(free@) }),
            count <= i,
            count == covers_to(ds, a, i as int),
        decreases n - i,
    {
        assert(ds[i as int] == (
            decls@[i as int].name@,
            decls@[i as int].value@,
            decls@[i as int].weight,
        ));
        let wanted = match find_pair(target, &decls[i].name) {
            Some(k) => str_is(&target[k].1, &decls[i].value),
            None => false,
        };
        if wanted && is_winning(free, &decls[i].name, decls[i].weight) {
            count += 1;
        }
        i += 1;
    }
    count
}

/// How near a name is to one of the first `n` classes: the same, or one the start of the other.
pub open spec fn affinity_to(classes: Seq<Seq<char>>, name: Seq<char>, n: int) -> int
    decreases n,
{
    if n <= 0 {
        0
    } else {
        let x = classes[n - 1];
        let here = if x == name {
            3int
        } else if text::spec_starts(name, x) || text::spec_starts(x, name) {
            2
        } else {
            0
        };
        let before = affinity_to(classes, name, n - 1);
        if here > before {
            here
        } else {
            before
        }
    }
}

/// How near a name is to the classes of an element.
pub open spec fn affinity(e: Element, name: Seq<char>) -> int {
    affinity_to(e.classes, name, e.classes.len() as int)
}

fn affinity_of(classes: &Vec<String>, name: &[char]) -> (r: u8)
    ensures
        r == affinity_to(text::strs(classes@), name@, classes@.len() as int),
{
    let ghost cs = text::strs(classes@);
    let n = classes.len();
    let mut best: u8 = 0;
    let mut i: usize = 0;
    while i < n
        invariant
            i <= n,
            n == classes@.len(),
            cs == text::strs(classes@),
            best == affinity_to(cs, name@, i as int),
        decreases n - i,
    {
        assert(cs[i as int] == classes@[i as int]@);
        let x = chars_of(&classes[i]);
        let here: u8 = if same(&x, name) {
            3
        } else if starts(name, &x) || starts(&x, name) {
            2
        } else {
            0
        };
        if here > best {
            best = here;
        }
        i += 1;
    }
    best
}

/// The length of a text in bytes.
pub open spec fn byte_len(s: Seq<char>) -> int {
    vstd::utf8::encode_utf8(s).len() as int
}

/// How an offer ranks: by how much it covers, by how near its name is, the shorter name first, and
/// then by the name itself.
pub open spec fn ranks_above(
    a: (int, int, int, Seq<char>),
    b: (int, int, int, Seq<char>),
) -> bool {
    ||| a.0 > b.0
    ||| (a.0 == b.0 && a.1 > b.1)
    ||| (a.0 == b.0 && a.1 == b.1 && a.2 < b.2)
    ||| (a.0 == b.0 && a.1 == b.1 && a.2 == b.2 && !spine_repair::not_behind(a.3, b.3, 0))
}

/// The rank of an offer.
pub open spec fn rank(o: Offer, e: Element, a: Asking) -> (int, int, int, Seq<char>) {
    (
        covers_to(o.decls, a, o.decls.len() as int),
        affinity(e, o.name),
        byte_len(o.name),
        o.name,
    )
}

/// An offer can be taken: it is not taken yet, does no harm, and gives something that is missing.
pub open spec fn can_take(o: Offer, chosen: Seq<Seq<char>>, a: Asking) -> bool {
    !chosen.contains(o.name) && admissible(o.decls, a) && covers_to(
        o.decls,
        a,
        o.decls.len() as int,
    ) > 0
}

/// The place of the best of the first `n` offers.
pub open spec fn best_to(
    v: Seq<Offer>,
    e: Element,
    chosen: Seq<Seq<char>>,
    a: Asking,
    n: int,
) -> Option<int>
    decreases n,
{
    if n <= 0 {
        None
    } else {
        let before = best_to(v, e, chosen, a, n - 1);
        if can_take(v[n - 1], chosen, a) {
            match before {
                Some(b) => if ranks_above(rank(v[n - 1], e, a), rank(v[b], e, a)) {
                    Some(n - 1)
                } else {
                    before
                },
                None => Some(n - 1),
            }
        } else {
            before
        }
    }
}

fn best_of(
    v: &Vec<ClassOffer>,
    e: &Key,
    chosen: &Vec<String>,
    target: &Vec<(String, String)>,
    need: &Vec<(String, String)>,
    free: &Vec<Weighed>,
) -> (r: Option<usize>)
    ensures
        text::pos(r) == best_to(
            offers(v@),
            e@,
            text::strs(chosen@),
            Asking {
                target: edit::pairs(target@),
                need: edit::pairs(need@),
                free: weighed(free@),
            },
            v@.len() as int,
        ),
        r matches Some(i) ==> i < v@.len(),
{
    let ghost all = offers(v@);
    let ghost cs = text::strs(chosen@);
    let ghost a = Asking {
        target: edit::pairs(target@),
        need: edit::pairs(need@),
        free: weighed(free@),
    };
    let n = v.len();
    assert(e@.classes.len() == e.classes@.len());
    let mut best: Option<usize> = None;
    let mut best_covers: usize = 0;
    let mut best_affinity: u8 = 0;
    let mut i: usize = 0;
    while i < n
        invariant
            i <= n,
            n == v@.len(),
            all == offers(v@),
            cs == text::strs(chosen@),
            e@.classes.len() == e.classes@.len(),
            a == (Asking {
                target: edit::pairs(target@),
                need: edit::pairs(need@),
                free: weighed(free@),
            }),
            text::pos(best) == best_to(all, e@, cs, a, i as int),
            best matches Some(b) ==> b < i && best_covers == rank(all[b as int], e@, a).0
                && best_affinity == rank(all[b as int], e@, a).1,
        decreases n - i,
    {
        assert(all[i as int] == v@[i as int]@);
        let o = &v[i];
        assert(o@.decls.len() == o.decls@.len());
        let name = chars_of(&o.name);
        if !strs_have(chosen, &name) && is_admissible(&o.decls, target, need, free) {
            let count = covers_of(&o.decls, target, free, Ghost(edit::pairs(need@)));
            if count > 0 {
                let near = affinity_of(&e.classes, &name);
                let better = match best {
                    Some(b) => {
                        assert(all[b as int] == v@[b as int]@);
                        let other = &v[b].name;
                        let la = o.name.as_str().as_bytes().len();
                        let lb = other.as_str().as_bytes().len();
                        count > best_covers || (count == best_covers && near > best_affinity) || (
                        count == best_covers && near == best_affinity && la < lb) || (count
                            == best_covers && near == best_affinity && la == lb && !not_behind_of(
                            &name,
                            &chars_of(other),
                        ))
                    },
                    None => true,
                };
                if better {
                    best = Some(i);
                    best_covers = count;
                    best_affinity = near;
                }
            }
        }
        i += 1;
    }
    best
}

/// The first `n` of what is missing that an offer does not give.
pub open spec fn left_to(
    target: Seq<(Seq<char>, Seq<char>)>,
    decls: Seq<(Seq<char>, Seq<char>, Weight)>,
    free: Seq<(Seq<char>, Seq<char>, Weight)>,
    n: int,
) -> Seq<(Seq<char>, Seq<char>)>
    decreases n,
{
    if n <= 0 {
        Seq::empty()
    } else {
        let before = left_to(target, decls, free, n - 1);
        let d = target[n - 1];
        if weighed_at(decls, d.0, 0) matches Some(i) && decls[i].1 == d.1 && wins(
            free,
            d.0,
            decls[i].2,
        ) {
            before
        } else {
            before.push(d)
        }
    }
}

fn left_of(target: &Vec<(String, String)>, decls: &Vec<Weighed>, free: &Vec<Weighed>) -> (r: Vec<
    (String, String),
>)
    ensures
        edit::pairs(r@) == left_to(
            edit::pairs(target@),
            weighed(decls@),
            weighed(free@),
            target@.len() as int,
        ),
{
    let ghost ts = edit::pairs(target@);
    let ghost ds = weighed(decls@);
    let ghost fs = weighed(free@);
    let n = target.len();
    let mut out: Vec<(String, String)> = Vec::new();
    assert(edit::pairs(out@) =~= Seq::empty());
    let mut i: usize = 0;
    while i < n
        invariant
            i <= n,
            n == target@.len(),
            ts == edit::pairs(target@),
            ds == weighed(decls@),
            fs == weighed(free@),
            edit::pairs(out@) == left_to(ts, ds, fs, i as int),
        decreases n - i,
    {
        assert(ts[i as int] == (target@[i as int].0@, target@[i as int].1@));
        let covered = match weighed_place(decls, &target[i].0) {
            Some(k) => {
                assert(ds[k as int] == (
                    decls@[k as int].name@,
                    decls@[k as int].value@,
                    decls@[k as int].weight,
                ));
                str_is(&decls[k].value, &target[i].1) && is_winning(
                    free,
                    &target[i].0,
                    decls[k].weight,
                )
            },
            None => false,
        };
        if !covered {
            let x = (target[i].0.clone(), target[i].1.clone());
            let ghost before = edit::pairs(out@);
            out.push(x);
            assert(edit::pairs(out@) =~= before.push(ts[i as int]));
        }
        i += 1;
    }
    out
}

/// What was chosen: the classes, what is still missing, and how many rules spoke of the kind.
#[verifier::ext_equal]
pub struct Taken {
    pub chosen: Seq<Seq<char>>,
    pub target: Seq<(Seq<char>, Seq<char>)>,
    pub hits: int,
}

/// Taking the best offer again and again, until none can be taken.
pub open spec fn taken(
    v: Seq<Offer>,
    e: Element,
    need: Seq<(Seq<char>, Seq<char>)>,
    free: Seq<(Seq<char>, Seq<char>, Weight)>,
    t: Taken,
    fuel: nat,
) -> Taken
    decreases fuel,
{
    if fuel == 0 {
        t
    } else {
        match best_to(v, e, t.chosen, Asking { target: t.target, need, free }, v.len() as int) {
            Some(i) => taken(
                v,
                e,
                need,
                free,
                Taken {
                    chosen: t.chosen.push(v[i].name),
                    target: left_to(t.target, v[i].decls, free, t.target.len() as int),
                    hits: capped(t.hits + v[i].hits),
                },
                (fuel - 1) as nat,
            ),
            None => t,
        }
    }
}

fn take(
    v: &Vec<ClassOffer>,
    e: &Key,
    need: &Vec<(String, String)>,
    free: &Vec<Weighed>,
    chosen: &mut Vec<String>,
    target: &mut Vec<(String, String)>,
) -> (r: u128)
    ensures
        taken(
            offers(v@),
            e@,
            edit::pairs(need@),
            weighed(free@),
            Taken {
                chosen: text::strs(old(chosen)@),
                target: edit::pairs(old(target)@),
                hits: 0,
            },
            v@.len(),
        ) == (Taken {
            chosen: text::strs(final(chosen)@),
            target: edit::pairs(final(target)@),
            hits: r as int,
        }),
{
    let ghost all = offers(v@);
    let ghost ns = edit::pairs(need@);
    let ghost fs = weighed(free@);
    let ghost want = taken(
        all,
        e@,
        ns,
        fs,
        Taken { chosen: text::strs(chosen@), target: edit::pairs(target@), hits: 0 },
        v@.len(),
    );
    let mut hits: u128 = 0;
    let mut fuel: usize = v.len();
    assert(all.len() == v@.len());
    while fuel > 0
        invariant
            fuel <= v@.len(),
            all == offers(v@),
            all.len() == v@.len(),
            ns == edit::pairs(need@),
            fs == weighed(free@),
            want == taken(
                all,
                e@,
                ns,
                fs,
                Taken {
                    chosen: text::strs(old(chosen)@),
                    target: edit::pairs(old(target)@),
                    hits: 0,
                },
                v@.len(),
            ),
            want == taken(
                all,
                e@,
                ns,
                fs,
                Taken {
                    chosen: text::strs(chosen@),
                    target: edit::pairs(target@),
                    hits: hits as int,
                },
                fuel as nat,
            ),
        decreases fuel,
    {
        match best_of(v, e, chosen, target, need, free) {
            Some(i) => {
                assert(all[i as int] == v@[i as int]@);
                assert(edit::pairs(target@).len() == target@.len());
                let rest = left_of(target, &v[i].decls, free);
                *target = rest;
                add_str(chosen, v[i].name.clone());
                hits = capped_sum(hits, v[i].hits);
            },
            None => {
                return hits;
            },
        }
        fuel -= 1;
    }
    hits
}

// ---------------------------------------------------------------- names that are known

/// A class without the digits at its end.
pub open spec fn stem_end(s: Seq<char>, n: int) -> int
    decreases n,
{
    if 0 < n <= s.len() && text::is_ascii_digit(s[n - 1]) {
        stem_end(s, n - 1)
    } else {
        n
    }
}

/// A class without the digits at its end.
pub open spec fn stem(s: Seq<char>) -> Seq<char> {
    s.subrange(0, stem_end(s, s.len() as int))
}

/// A class without the digits at its end.
pub fn undigited(s: &[char]) -> (r: &[char])
    ensures
        r@ == stem(s@),
{
    let n = s.len();
    let mut end: usize = n;
    while end > 0 && ascii_digit(s[end - 1])
        invariant
            end <= n,
            n == s@.len(),
            stem_end(s@, end as int) == stem_end(s@, n as int),
        decreases end,
    {
        end -= 1;
    }
    &s[0..end]
}

/// The class that the reference gives elements of the tag, as it is or without the digits that a
/// converter added.
pub open spec fn known_name(m: Mapping, tag: Seq<char>, class: Seq<char>) -> Option<Seq<char>> {
    if m.vocabulary.contains((tag, class)) {
        Some(class)
    } else if stem(class).len() > 0 && m.vocabulary.contains((tag, stem(class))) {
        Some(stem(class))
    } else {
        None
    }
}

/// A pair is among some.
pub fn has_pair(v: &Vec<(String, String)>, a: &[char], b: &[char]) -> (r: bool)
    ensures
        r == edit::pairs(v@).contains((a@, b@)),
{
    let ghost all = edit::pairs(v@);
    let n = v.len();
    assert(all.len() == n);
    let mut i: usize = 0;
    while i < n
        invariant
            i <= n,
            n == v@.len(),
            all == edit::pairs(v@),
            all.len() == n,
            forall|k: int| 0 <= k < i ==> #[trigger] all[k] != (a@, b@),
        decreases n - i,
    {
        assert(all[i as int] == (v@[i as int].0@, v@[i as int].1@));
        if same(&chars_of(&v[i].0), a) && same(&chars_of(&v[i].1), b) {
            assert(all[i as int] == (a@, b@));
            return true;
        }
        i += 1;
    }
    false
}

/// The classes with those of the first `n` flattened ones that the reference knows by name and that
/// do no harm.
pub open spec fn with_known(
    m: Mapping,
    e: Element,
    v: Seq<Offer>,
    need: Seq<(Seq<char>, Seq<char>)>,
    free: Seq<(Seq<char>, Seq<char>, Weight)>,
    chosen: Seq<Seq<char>>,
    n: int,
) -> Seq<Seq<char>>
    decreases n,
{
    if n <= 0 {
        chosen
    } else {
        let before = with_known(m, e, v, need, free, chosen, n - 1);
        let x = e.classes[n - 1];
        if e.tag == "body"@ || e.tag == "html"@ || flattened::is_generated(x) {
            before
        } else {
            match known_name(m, e.tag, x) {
                Some(name) => if !before.contains(name) && !m.kinds.contains(name) && (offer_at(
                    v,
                    name,
                    0,
                ) matches Some(i) ==> admissible(
                    v[i].decls,
                    Asking { target: Seq::empty(), need, free },
                )) {
                    before.push(name)
                } else {
                    before
                },
                None => before,
            }
        }
    }
}

fn known_name_of(m: &Mapper, tag: &[char], class: &[char]) -> (r: Option<Vec<char>>)
    ensures
        text::opt_text(r) == known_name(m@, tag@, class@),
{
    if has_pair(m.vocabulary, tag, class) {
        return Some(copy(class));
    }
    let s = undigited(class);
    if s.len() > 0 && has_pair(m.vocabulary, tag, s) {
        Some(copy(s))
    } else {
        None
    }
}

fn add_known(
    m: &Mapper,
    e: &Key,
    v: &Vec<ClassOffer>,
    need: &Vec<(String, String)>,
    free: &Vec<Weighed>,
    chosen: &mut Vec<String>,
)
    ensures
        text::strs(final(chosen)@) == with_known(
            m@,
            e@,
            offers(v@),
            edit::pairs(need@),
            weighed(free@),
            text::strs(old(chosen)@),
            e@.classes.len() as int,
        ),
{
    let ghost all = offers(v@);
    let ghost ns = edit::pairs(need@);
    let ghost fs = weighed(free@);
    let ghost cs = text::strs(e.classes@);
    let ghost start = text::strs(chosen@);
    let tag = chars_of(&e.tag);
    let skip = str_is(&e.tag, "body") || str_is(&e.tag, "html");
    let none: Vec<(String, String)> = Vec::new();
    assert(edit::pairs(none@) =~= Seq::empty());
    let n = e.classes.len();
    assert(cs.len() == n);
    let mut i: usize = 0;
    while i < n
        invariant
            i <= n,
            n == e.classes@.len(),
            all == offers(v@),
            ns == edit::pairs(need@),
            fs == weighed(free@),
            cs == text::strs(e.classes@),
            edit::pairs(none@) == Seq::<(Seq<char>, Seq<char>)>::empty(),
            tag@ == e@.tag,
            skip == (e@.tag == "body"@ || e@.tag == "html"@),
            text::strs(chosen@) == with_known(m@, e@, all, ns, fs, start, i as int),
        decreases n - i,
    {
        assert(cs[i as int] == e.classes@[i as int]@);
        let x = chars_of(&e.classes[i]);
        if !skip && !generated(&x) {
            if let Some(name) = known_name_of(m, &tag, &x) {
                let text = string_of(&name);
                if !strs_have(chosen, &name) && !strs_have(m.kinds, &name) {
                    let fits = match offer_place(v, &text) {
                        Some(k) => {
                            assert(all[k as int] == v@[k as int]@);
                            is_admissible(&v[k].decls, &none, need, free)
                        },
                        None => true,
                    };
                    if fits {
                        add_str(chosen, text);
                    }
                }
            }
        }
        i += 1;
    }
}

// ---------------------------------------------------------------- order

/// Where the first rule from `i` on stands that selects by the class and no other; behind all where
/// none does.
pub open spec fn order_from(rules: Seq<Ruled>, class: Seq<char>, i: int) -> int
    decreases rules.len() - i,
{
    if i < 0 || i >= rules.len() {
        usize::MAX as int
    } else if rules[i].shape.classes.len() == 1 && rules[i].shape.classes[0] == class {
        i
    } else {
        order_from(rules, class, i + 1)
    }
}

fn order_of(rules: &Vec<RefRule>, class: &str) -> (r: usize)
    ensures
        r == order_from(reference_styles::ruled(rules@), class@, 0),
{
    let ghost all = reference_styles::ruled(rules@);
    let n = rules.len();
    assert(all.len() == n);
    let mut i: usize = 0;
    while i < n
        invariant
            i <= n,
            n == rules@.len(),
            all == reference_styles::ruled(rules@),
            all.len() == n,
            order_from(all, class@, i as int) == order_from(all, class@, 0),
        decreases n - i,
    {
        assert(all[i as int] == rules@[i as int]@);
        let s = &rules[i].shape;
        assert(s@.classes.len() == s.classes@.len());
        if s.classes.len() == 1 {
            assert(s@.classes[0] == s.classes@[0]@);
            if str_is(&s.classes[0], class) {
                return i;
            }
        }
        i += 1;
    }
    usize::MAX
}

/// A class comes no later than another: the nearer first, then in the order of the rules.
pub open spec fn not_after(m: Mapping, e: Element, a: Seq<char>, b: Seq<char>) -> bool {
    affinity(e, a) > affinity(e, b) || (affinity(e, a) == affinity(e, b) && order_from(
        m.rules,
        a,
        0,
    ) <= order_from(m.rules, b, 0))
}

/// `v` with `x` behind those that come no later.
pub open spec fn placed_from(m: Mapping, e: Element, v: Seq<Seq<char>>, x: Seq<char>, i: int) -> Seq<
    Seq<char>,
>
    decreases v.len() - i,
{
    if i < 0 || i >= v.len() {
        v.push(x)
    } else if not_after(m, e, v[i], x) {
        placed_from(m, e, v, x, i + 1)
    } else {
        v.subrange(0, i).push(x) + v.subrange(i, v.len() as int)
    }
}

/// The first `n` classes in their order.
pub open spec fn ordered_to(m: Mapping, e: Element, v: Seq<Seq<char>>, n: int) -> Seq<Seq<char>>
    decreases n,
{
    if n <= 0 {
        Seq::empty()
    } else {
        placed_from(m, e, ordered_to(m, e, v, n - 1), v[n - 1], 0)
    }
}

fn is_not_after(m: &Mapper, e: &Key, a: &String, b: &String) -> (r: bool)
    ensures
        r == not_after(m@, e@, a@, b@),
{
    assert(e@.classes.len() == e.classes@.len());
    let na = affinity_of(&e.classes, &chars_of(a));
    let nb = affinity_of(&e.classes, &chars_of(b));
    na > nb || (na == nb && order_of(m.rules, a) <= order_of(m.rules, b))
}

fn ordered(m: &Mapper, e: &Key, v: &Vec<String>) -> (r: Vec<String>)
    ensures
        text::strs(r@) == ordered_to(m@, e@, text::strs(v@), v@.len() as int),
{
    let ghost all = text::strs(v@);
    let n = v.len();
    let mut out: Vec<String> = Vec::new();
    assert(text::strs(out@) =~= Seq::empty());
    let mut i: usize = 0;
    while i < n
        invariant
            i <= n,
            n == v@.len(),
            all == text::strs(v@),
            text::strs(out@) == ordered_to(m@, e@, all, i as int),
        decreases n - i,
    {
        assert(all[i as int] == v@[i as int]@);
        let ghost os = text::strs(out@);
        let k = out.len();
        assert(os.len() == k);
        let mut j: usize = 0;
        while j < k && is_not_after(m, e, &out[j], &v[i])
            invariant
                j <= k,
                i < n,
                n == v@.len(),
                k == out@.len(),
                os == text::strs(out@),
                os.len() == k,
                all == text::strs(v@),
                all[i as int] == v@[i as int]@,
                placed_from(m@, e@, os, all[i as int], 0) == placed_from(
                    m@,
                    e@,
                    os,
                    all[i as int],
                    j as int,
                ),
            decreases k - j,
        {
            assert(os[j as int] == out@[j as int]@);
            j += 1;
        }
        if j < k {
            assert(os[j as int] == out@[j as int]@);
        }
        out.insert(j, v[i].clone());
        assert(text::strs(out@) =~= placed_from(m@, e@, os, all[i as int], j as int));
        i += 1;
    }
    out
}

// ---------------------------------------------------------------- the choice

/// The first `n` declarations given for all, put together.
pub open spec fn free_pairs(free: Seq<(Seq<char>, Seq<char>, Weight)>, n: int) -> Seq<
    (Seq<char>, Seq<char>),
>
    decreases n,
{
    if n <= 0 {
        Seq::empty()
    } else {
        stylesheet::put_from(free_pairs(free, n - 1), free[n - 1].0, free[n - 1].1, 0)
    }
}

/// `d` with what the first `n` declarations of an offer win.
pub open spec fn won_to(
    d: Seq<(Seq<char>, Seq<char>)>,
    decls: Seq<(Seq<char>, Seq<char>, Weight)>,
    free: Seq<(Seq<char>, Seq<char>, Weight)>,
    n: int,
) -> Seq<(Seq<char>, Seq<char>)>
    decreases n,
{
    if n <= 0 {
        d
    } else {
        let before = won_to(d, decls, free, n - 1);
        if wins(free, decls[n - 1].0, decls[n - 1].2) {
            stylesheet::put_from(before, decls[n - 1].0, decls[n - 1].1, 0)
        } else {
            before
        }
    }
}

/// `d` with what the first `n` classes win.
pub open spec fn own_to(
    d: Seq<(Seq<char>, Seq<char>)>,
    v: Seq<Offer>,
    chosen: Seq<Seq<char>>,
    free: Seq<(Seq<char>, Seq<char>, Weight)>,
    n: int,
) -> Seq<(Seq<char>, Seq<char>)>
    decreases n,
{
    if n <= 0 {
        d
    } else {
        let before = own_to(d, v, chosen, free, n - 1);
        match offer_at(v, chosen[n - 1], 0) {
            Some(i) => won_to(before, v[i].decls, free, v[i].decls.len() as int),
            None => before,
        }
    }
}

fn put_free(d: &mut Vec<(String, String)>, free: &Vec<Weighed>)
    requires
        old(d)@.len() == 0,
    ensures
        edit::pairs(final(d)@) == free_pairs(weighed(free@), free@.len() as int),
{
    let ghost fs = weighed(free@);
    assert(edit::pairs(d@) =~= Seq::empty());
    let n = free.len();
    let mut i: usize = 0;
    while i < n
        invariant
            i <= n,
            n == free@.len(),
            fs == weighed(free@),
            edit::pairs(d@) == free_pairs(fs, i as int),
        decreases n - i,
    {
        assert(fs[i as int] == (
            free@[i as int].name@,
            free@[i as int].value@,
            free@[i as int].weight,
        ));
        put_pair(d, &chars_of(&free[i].name), &chars_of(&free[i].value));
        i += 1;
    }
}

fn put_won(d: &mut Vec<(String, String)>, decls: &Vec<Weighed>, free: &Vec<Weighed>)
    ensures
        edit::pairs(final(d)@) == won_to(
            edit::pairs(old(d)@),
            weighed(decls@),
            weighed(free@),
            decls@.len() as int,
        ),
{
    let ghost start = edit::pairs(d@);
    let ghost ds = weighed(decls@);
    let ghost fs = weighed(free@);
    let n = decls.len();
    let mut i: usize = 0;
    while i < n
        invariant
            i <= n,
            n == decls@.len(),
            ds == weighed(decls@),
            fs == weighed(free@),
            edit::pairs(d@) == won_to(start, ds, fs, i as int),
        decreases n - i,
    {
        assert(ds[i as int] == (
            decls@[i as int].name@,
            decls@[i as int].value@,
            decls@[i as int].weight,
        ));
        if is_winning(free, &decls[i].name, decls[i].weight) {
            put_pair(d, &chars_of(&decls[i].name), &chars_of(&decls[i].value));
        }
        i += 1;
    }
}

fn own_of(
    v: &Vec<ClassOffer>,
    chosen: &Vec<String>,
    free: &Vec<Weighed>,
    target: &Vec<(String, String)>,
) -> (r: Vec<(String, String)>)
    ensures
        edit::pairs(r@) == put_to(
            own_to(
                free_pairs(weighed(free@), free@.len() as int),
                offers(v@),
                text::strs(chosen@),
                weighed(free@),
                chosen@.len() as int,
            ),
            edit::pairs(target@),
            target@.len() as int,
        ),
{
    let ghost all = offers(v@);
    let ghost cs = text::strs(chosen@);
    let ghost fs = weighed(free@);
    let mut d: Vec<(String, String)> = Vec::new();
    put_free(&mut d, free);
    let ghost start = edit::pairs(d@);
    let n = chosen.len();
    let mut i: usize = 0;
    while i < n
        invariant
            i <= n,
            n == chosen@.len(),
            all == offers(v@),
            cs == text::strs(chosen@),
            fs == weighed(free@),
            edit::pairs(d@) == own_to(start, all, cs, fs, i as int),
        decreases n - i,
    {
        assert(cs[i as int] == chosen@[i as int]@);
        if let Some(k) = offer_place(v, &chosen[i]) {
            assert(all[k as int] == v@[k as int]@);
            assert(v@[k as int]@.decls.len() == v@[k as int].decls@.len());
            put_won(&mut d, &v[k].decls, free);
        }
        i += 1;
    }
    put_pairs(&mut d, target);
    d
}

/// The classes that are chosen for an element; what they leave undone, with a name for it; how many
/// of their rules speak of the kind of page; and what the element then has.
pub struct Choice {
    pub classes: Vec<String>,
    pub residual: Option<(String, Vec<(String, String)>)>,
    pub context_hits: u128,
    pub own: Vec<(String, String)>,
}

/// What a `Choice` says.
#[verifier::ext_equal]
pub struct Chosen {
    pub classes: Seq<Seq<char>>,
    pub residual: Option<(Seq<char>, Seq<(Seq<char>, Seq<char>)>)>,
    pub hits: int,
    pub own: Seq<(Seq<char>, Seq<char>)>,
}

pub open spec fn residual_said(r: Option<(String, Vec<(String, String)>)>) -> Option<
    (Seq<char>, Seq<(Seq<char>, Seq<char>)>),
> {
    match r {
        Some((name, d)) => Some((name@, edit::pairs(d@))),
        None => None,
    }
}

impl View for Choice {
    type V = Chosen;

    open spec fn view(&self) -> Chosen {
        Chosen {
            classes: text::strs(self.classes@),
            residual: residual_said(self.residual),
            hits: self.context_hits as int,
            own: edit::pairs(self.own@),
        }
    }
}

/// The name that what is left undone goes by: the first class from `i` on that no converter made
/// up, else one made from the tag.
pub open spec fn base_from(e: Element, i: int) -> Seq<char>
    decreases e.classes.len() - i,
{
    if i < 0 || i >= e.classes.len() {
        e.tag + "-flat"@
    } else if flattened::is_generated(e.classes[i]) {
        base_from(e, i + 1)
    } else {
        e.classes[i]
    }
}

fn base_of(e: &Key) -> (r: String)
    ensures
        r@ == base_from(e@, 0),
{
    let ghost cs = text::strs(e.classes@);
    let n = e.classes.len();
    assert(cs.len() == n);
    let mut i: usize = 0;
    while i < n
        invariant
            i <= n,
            n == e.classes@.len(),
            cs == text::strs(e.classes@),
            cs.len() == n,
            base_from(e@, i as int) == base_from(e@, 0),
        decreases n - i,
    {
        assert(cs[i as int] == e.classes@[i as int]@);
        if !generated(&chars_of(&e.classes[i])) {
            return e.classes[i].clone();
        }
        i += 1;
    }
    string_of(&join2(&chars_of(&e.tag), &chars_of("-flat")))
}

/// The choice for an element.
pub open spec fn computed(m: Mapping, e: Element) -> Chosen {
    let need = needed(m.flat, e);
    let free = free_to(m.rules, e, m.rules.len() as int);
    let v = offers_to(m, e, m.rules.len() as int);
    let t = taken(
        v,
        e,
        need,
        free,
        Taken {
            chosen: Seq::empty(),
            target: missing_to(need, free, e.inherited, need.len() as int),
            hits: 0,
        },
        v.len(),
    );
    let known = with_known(m, e, v, need, free, t.chosen, e.classes.len() as int);
    let classes = ordered_to(m, e, known, known.len() as int);
    Chosen {
        classes,
        residual: if t.target.len() == 0 {
            None
        } else {
            Some((base_from(e, 0), t.target))
        },
        hits: t.hits,
        own: put_to(
            own_to(
                free_pairs(free, free.len() as int),
                v,
                classes,
                free,
                classes.len() as int,
            ),
            t.target,
            t.target.len() as int,
        ),
    }
}

impl<'a> Mapper<'a> {
    /// The choice for an element.
    pub fn compute(&self, key: &Key) -> (r: Choice)
        ensures
            r@ == computed(self@, key@),
    {
        let need = needed_of(self.flat, key);
        let ghost rs = reference_styles::ruled(self.rules@);
        assert(rs.len() == self.rules@.len());
        let free = free_of(self.rules, key);
        let v = offers_of(self, key);
        assert(edit::pairs(need@).len() == need@.len());
        assert(offers(v@).len() == v@.len());
        assert(weighed(free@).len() == free@.len());
        let mut target = missing_of(&need, &free, &key.inherited);
        let mut chosen: Vec<String> = Vec::new();
        assert(text::strs(chosen@) =~= Seq::empty());
        let hits = take(&v, key, &need, &free, &mut chosen, &mut target);
        add_known(self, key, &v, &need, &free, &mut chosen);
        assert(text::strs(chosen@).len() == chosen@.len());
        let classes = ordered(self, key, &chosen);
        assert(text::strs(classes@).len() == classes@.len());
        assert(edit::pairs(target@).len() == target@.len());
        let own = own_of(&v, &classes, &free, &target);
        let residual = if target.len() == 0 {
            None
        } else {
            Some((base_of(key), target))
        };
        Choice { classes, residual, context_hits: hits, own }
    }
}

} // verus!
