//! Rules for what no class of a reference gives.
use vstd::prelude::*;

use crate::edit;
use crate::reference_styles;
use crate::restyle;
use crate::spine_repair;
use crate::text;
use crate::reference_styles::{RefRule, Ruled, is_used_in};
use crate::restyle::{Choice, Chosen, Element, Key, Mapper, Mapping};
use crate::spine_repair::not_behind_of;
use crate::stylesheet::copy_pairs;
use crate::text::{
    add_str, chars_of, copy, decimal_of_sum, put, put_str, same, str_is, string_of, strs_have,
};

verus! {

/// A rule that is added to the reference's stylesheets under a name of its own.
pub struct Residual {
    pub name: String,
    pub selector: String,
    pub decls: Vec<(String, String)>,
}

/// What some rules say: name, selector and declarations.
pub open spec fn residuals(v: Seq<Residual>) -> Seq<(Seq<char>, Seq<char>, Seq<(Seq<char>, Seq<char>)>)> {
    v.map_values(|r: Residual| (r.name@, r.selector@, edit::pairs(r.decls@)))
}

/// The name stands for something in the reference.
pub open spec fn is_taken(m: Mapping, name: Seq<char>) -> bool {
    reference_styles::is_used(m.vocabulary, name) || m.kinds.contains(name) || selects(m.rules, name)
}

/// A rule selects by the class.
pub open spec fn selects(v: Seq<Ruled>, class: Seq<char>) -> bool {
    exists|i: int| 0 <= i < v.len() && (#[trigger] v[i]).shape.classes.contains(class)
}

fn is_selected(v: &Vec<RefRule>, class: &[char]) -> (r: bool)
    ensures
        r == selects(reference_styles::ruled(v@), class@),
{
    let ghost all = reference_styles::ruled(v@);
    let n = v.len();
    assert(all.len() == n);
    let mut i: usize = 0;
    while i < n
        invariant
            i <= n,
            n == v@.len(),
            all == reference_styles::ruled(v@),
            all.len() == n,
            forall|k: int| 0 <= k < i ==> !(#[trigger] all[k]).shape.classes.contains(class@),
        decreases n - i,
    {
        assert(all[i as int] == v@[i as int]@);
        if strs_have(&v[i].shape.classes, class) {
            return true;
        }
        i += 1;
    }
    false
}

fn name_taken(m: &Mapper, name: &[char]) -> (r: bool)
    ensures
        r == is_taken(m@, name@),
{
    is_used_in(m.vocabulary, name) || strs_have(m.kinds, name) || is_selected(m.rules, name)
}

/// The selector of a rule for elements of the tag, on pages of the kind.
pub open spec fn selector_for(tag: Seq<char>, kind: Option<Seq<char>>, name: Seq<char>) -> Seq<char> {
    if tag == "html"@ {
        "html."@ + name
    } else if tag == "body"@ {
        match kind {
            Some(k) => "body."@ + k + "."@ + name,
            None => "body."@ + name,
        }
    } else {
        match kind {
            Some(k) => "body."@ + k + " "@ + tag + "."@ + name,
            None => tag + "."@ + name,
        }
    }
}

fn selector_of(tag: &str, kind: &Option<String>, name: &[char]) -> (r: Vec<char>)
    ensures
        r@ == selector_for(tag@, text::opt_str(*kind), name@),
{
    let mut out: Vec<char> = Vec::new();
    if str_is(tag, "html") {
        put_str(&mut out, "html.");
        put(&mut out, name);
    } else if str_is(tag, "body") {
        put_str(&mut out, "body.");
        if let Some(k) = kind {
            put_str(&mut out, k);
            put_str(&mut out, ".");
        }
        put(&mut out, name);
    } else {
        if let Some(k) = kind {
            put_str(&mut out, "body.");
            put_str(&mut out, k);
            put_str(&mut out, " ");
        }
        put_str(&mut out, tag);
        put_str(&mut out, ".");
        put(&mut out, name);
    }
    assert(out@ =~= selector_for(tag@, text::opt_str(*kind), name@));
    out
}

/// The place of the rule with the name.
pub open spec fn residual_at(
    v: Seq<(Seq<char>, Seq<char>, Seq<(Seq<char>, Seq<char>)>)>,
    name: Seq<char>,
    i: int,
) -> Option<int>
    decreases v.len() - i,
{
    if i < 0 || i >= v.len() {
        None
    } else if v[i].0 == name {
        Some(i)
    } else {
        residual_at(v, name, i + 1)
    }
}

fn residual_place(v: &Vec<Residual>, name: &[char]) -> (r: Option<usize>)
    ensures
        text::pos(r) == residual_at(residuals(v@), name@, 0),
        r matches Some(i) ==> i < v@.len(),
{
    let ghost all = residuals(v@);
    let n = v.len();
    assert(all.len() == n);
    let mut i: usize = 0;
    while i < n
        invariant
            i <= n,
            n == v@.len(),
            all == residuals(v@),
            all.len() == n,
            residual_at(all, name@, i as int) == residual_at(all, name@, 0),
        decreases n - i,
    {
        assert(all[i as int] == (
            v@[i as int].name@,
            v@[i as int].selector@,
            edit::pairs(v@[i as int].decls@),
        ));
        if same(&chars_of(&v[i].name), name) {
            return Some(i);
        }
        i += 1;
    }
    None
}

/// `v`, in order of name, with one more rule.
pub open spec fn with_residual(
    v: Seq<(Seq<char>, Seq<char>, Seq<(Seq<char>, Seq<char>)>)>,
    x: (Seq<char>, Seq<char>, Seq<(Seq<char>, Seq<char>)>),
    i: int,
) -> Seq<(Seq<char>, Seq<char>, Seq<(Seq<char>, Seq<char>)>)>
    decreases v.len() - i,
{
    if i < 0 || i >= v.len() {
        v.push(x)
    } else if spine_repair::not_behind(v[i].0, x.0, 0) {
        with_residual(v, x, i + 1)
    } else {
        v.subrange(0, i).push(x) + v.subrange(i, v.len() as int)
    }
}

fn add_residual(v: &mut Vec<Residual>, x: Residual)
    ensures
        residuals(final(v)@) == with_residual(
            residuals(old(v)@),
            (x.name@, x.selector@, edit::pairs(x.decls@)),
            0,
        ),
{
    let ghost all = residuals(v@);
    let ghost xv = (x.name@, x.selector@, edit::pairs(x.decls@));
    let n = v.len();
    let name = chars_of(&x.name);
    let mut i: usize = 0;
    while i < n && not_behind_of(&chars_of(&v[i].name), &name)
        invariant
            i <= n == v@.len() == all.len(),
            v@ == old(v)@,
            all == residuals(v@),
            name@ == xv.0,
            with_residual(all, xv, 0) == with_residual(all, xv, i as int),
        decreases n - i,
    {
        i += 1;
    }
    v.insert(i, x);
    assert(residuals(v@) =~= with_residual(all, xv, i as int));
}

/// The `k`-th name to try.
pub open spec fn try_name(base: Seq<char>, k: int) -> Seq<char> {
    if k <= 1 {
        base
    } else {
        base + "-"@ + text::decimal(k as nat)
    }
}

/// The first name from the `k`-th on under which the rule stands or can be added, and the rules
/// with it.
pub open spec fn named_from(
    v: Seq<(Seq<char>, Seq<char>, Seq<(Seq<char>, Seq<char>)>)>,
    base: Seq<char>,
    tag: Seq<char>,
    kind: Option<Seq<char>>,
    decls: Seq<(Seq<char>, Seq<char>)>,
    k: int,
    fuel: int,
) -> (Seq<(Seq<char>, Seq<char>, Seq<(Seq<char>, Seq<char>)>)>, Seq<char>)
    decreases fuel,
{
    let name = try_name(base, k);
    let selector = selector_for(tag, kind, name);
    match residual_at(v, name, 0) {
        None => (with_residual(v, (name, selector, decls), 0), name),
        Some(i) => if (v[i].1 == selector && v[i].2 == decls) || fuel <= 0 {
            (v, name)
        } else {
            named_from(v, base, tag, kind, decls, k + 1, fuel - 1)
        },
    }
}

/// The rules with one for what is left undone, and its name: the base, made different from the
/// names of the reference and from those of other rules.
pub open spec fn named(
    v: Seq<(Seq<char>, Seq<char>, Seq<(Seq<char>, Seq<char>)>)>,
    m: Mapping,
    base: Seq<char>,
    tag: Seq<char>,
    decls: Seq<(Seq<char>, Seq<char>)>,
) -> (Seq<(Seq<char>, Seq<char>, Seq<(Seq<char>, Seq<char>)>)>, Seq<char>) {
    named_from(
        v,
        if is_taken(m, base) {
            base + "-flat"@
        } else {
            base
        },
        tag,
        m.kind,
        decls,
        1,
        v.len() as int,
    )
}

fn same_pairs(a: &Vec<(String, String)>, b: &Vec<(String, String)>) -> (r: bool)
    ensures
        r == (edit::pairs(a@) == edit::pairs(b@)),
{
    let ghost pa = edit::pairs(a@);
    let ghost pb = edit::pairs(b@);
    let n = a.len();
    assert(pa.len() == n && pb.len() == b@.len());
    if b.len() != n {
        return false;
    }
    let mut i: usize = 0;
    while i < n
        invariant
            i <= n,
            n == a@.len(),
            n == b@.len(),
            pa == edit::pairs(a@),
            pb == edit::pairs(b@),
            pa.len() == n,
            pb.len() == n,
            forall|k: int| 0 <= k < i ==> #[trigger] pa[k] == pb[k],
        decreases n - i,
    {
        assert(pa[i as int] == (a@[i as int].0@, a@[i as int].1@));
        assert(pb[i as int] == (b@[i as int].0@, b@[i as int].1@));
        if !str_is(&a[i].0, &b[i].0) || !str_is(&a[i].1, &b[i].1) {
            return false;
        }
        i += 1;
    }
    assert(pa =~= pb);
    true
}

fn name_residual(
    v: &mut Vec<Residual>,
    m: &Mapper,
    base: &str,
    tag: &str,
    decls: &Vec<(String, String)>,
) -> (r: String)
    ensures
        (residuals(final(v)@), r@) == named(
            residuals(old(v)@),
            m@,
            base@,
            tag@,
            edit::pairs(decls@),
        ),
{
    let ghost all = residuals(v@);
    let ghost ds = edit::pairs(decls@);
    let mut stem = chars_of(base);
    if name_taken(m, &stem) {
        put_str(&mut stem, "-flat");
    }
    let ghost want = named_from(all, stem@, tag@, m@.kind, ds, 1, all.len() as int);
    let n = v.len();
    assert(all.len() == n);
    let mut k: usize = 0;
    loop
        invariant
            k <= n,
            n == v@.len(),
            v@ == old(v)@,
            all == residuals(v@),
            all.len() == n,
            ds == edit::pairs(decls@),
            want == named_from(all, stem@, tag@, m@.kind, ds, k + 1, n - k),
            want == named(residuals(old(v)@), m@, base@, tag@, ds),
        decreases n - k,
    {
        let mut name = copy(&stem);
        if k > 0 {
            put_str(&mut name, "-");
            put(&mut name, &decimal_of_sum(k as u128 + 1));
        }
        assert(name@ =~= try_name(stem@, k + 1));
        let selector = selector_of(tag, &m.kind, &name);
        match residual_place(v, &name) {
            None => {
                let x = Residual {
                    name: string_of(&name),
                    selector: string_of(&selector),
                    decls: copy_pairs(decls),
                };
                add_residual(v, x);
                return string_of(&name);
            },
            Some(i) => {
                assert(all[i as int] == (
                    v@[i as int].name@,
                    v@[i as int].selector@,
                    edit::pairs(v@[i as int].decls@),
                ));
                let equal = same(&chars_of(&v[i].selector), &selector) && same_pairs(
                    &v[i].decls,
                    decls,
                );
                if equal || k == n {
                    return string_of(&name);
                }
            },
        }
        k += 1;
    }
}

/// The choice for an element, with a class for what is left undone, and the rules with it.
pub open spec fn settled(
    v: Seq<(Seq<char>, Seq<char>, Seq<(Seq<char>, Seq<char>)>)>,
    m: Mapping,
    e: Element,
) -> (Seq<(Seq<char>, Seq<char>, Seq<(Seq<char>, Seq<char>)>)>, Chosen) {
    let c = restyle::computed(m, e);
    match c.residual {
        Some((base, decls)) => {
            let (next, name) = named(v, m, base, e.tag, decls);
            (
                next,
                Chosen {
                    classes: if c.classes.contains(name) {
                        c.classes
                    } else {
                        c.classes.push(name)
                    },
                    residual: Some((name, decls)),
                    ..c
                },
            )
        },
        None => (v, c),
    }
}

/// Choose the classes of an element.
pub fn choose_classes(v: &mut Vec<Residual>, m: &Mapper, key: &Key) -> (r: Choice)
    ensures
        (residuals(final(v)@), r@) == settled(residuals(old(v)@), m@, key@),
{
    let c = m.compute(key);
    let Choice { classes, residual, context_hits, own } = c;
    let mut classes = classes;
    match residual {
        Some((base, decls)) => {
            let name = name_residual(v, m, &base, &key.tag, &decls);
            if !strs_have(&classes, &chars_of(&name)) {
                add_str(&mut classes, name.clone());
            }
            Choice { classes, residual: Some((name, decls)), context_hits, own }
        },
        None => Choice { classes, residual: None, context_hits, own },
    }
}

/// The declarations of a rule, the first `n`.
pub open spec fn decl_lines(d: Seq<(Seq<char>, Seq<char>)>, n: int) -> Seq<char>
    decreases n,
{
    if n <= 0 {
        Seq::empty()
    } else {
        decl_lines(d, n - 1) + "  "@ + d[n - 1].0 + ": "@ + d[n - 1].1 + ";\n"@
    }
}

/// The first `n` rules as a stylesheet; one without declarations is left out.
pub open spec fn sheet_to(v: Seq<(Seq<char>, Seq<char>, Seq<(Seq<char>, Seq<char>)>)>, n: int) -> Seq<char>
    decreases n,
{
    if n <= 0 {
        Seq::empty()
    } else if v[n - 1].2.len() == 0 {
        sheet_to(v, n - 1)
    } else {
        sheet_to(v, n - 1) + "\n"@ + v[n - 1].1 + " {\n"@ + decl_lines(
            v[n - 1].2,
            v[n - 1].2.len() as int,
        ) + "}\n"@
    }
}

fn put_decl_lines(out: &mut Vec<char>, d: &Vec<(String, String)>)
    ensures
        final(out)@ == old(out)@ + decl_lines(edit::pairs(d@), d@.len() as int),
{
    let ghost start = out@;
    let ghost ds = edit::pairs(d@);
    let n = d.len();
    let mut i: usize = 0;
    assert(start + decl_lines(ds, 0) =~= start);
    while i < n
        invariant
            i <= n,
            n == d@.len(),
            ds == edit::pairs(d@),
            out@ == start + decl_lines(ds, i as int),
        decreases n - i,
    {
        assert(ds[i as int] == (d@[i as int].0@, d@[i as int].1@));
        put_str(out, "  ");
        put_str(out, &d[i].0);
        put_str(out, ": ");
        put_str(out, &d[i].1);
        put_str(out, ";\n");
        assert(out@ =~= start + decl_lines(ds, i + 1));
        i += 1;
    }
}

/// The rules as a stylesheet.
pub fn render_residual(v: &Vec<Residual>) -> (r: String)
    ensures
        r@ == sheet_to(residuals(v@), v@.len() as int),
{
    let ghost all = residuals(v@);
    let n = v.len();
    let mut out: Vec<char> = Vec::new();
    let mut i: usize = 0;
    while i < n
        invariant
            i <= n,
            n == v@.len(),
            all == residuals(v@),
            out@ == sheet_to(all, i as int),
        decreases n - i,
    {
        assert(all[i as int] == (
            v@[i as int].name@,
            v@[i as int].selector@,
            edit::pairs(v@[i as int].decls@),
        ));
        assert(edit::pairs(v@[i as int].decls@).len() == v@[i as int].decls@.len());
        if v[i].decls.len() > 0 {
            let ghost before = out@;
            put_str(&mut out, "\n");
            put_str(&mut out, &v[i].selector);
            put_str(&mut out, " {\n");
            put_decl_lines(&mut out, &v[i].decls);
            put_str(&mut out, "}\n");
            assert(out@ =~= sheet_to(all, i + 1));
        }
        i += 1;
    }
    string_of(&out)
}

} // verus!
