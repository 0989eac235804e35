//! Which kind of page of a reference a document is.
use vstd::prelude::*;

use crate::edit;
use crate::flattened;
use crate::reference_styles;
use crate::residuals;
use crate::restyle;
use crate::rewrite_styles;
use crate::stylesheet;
use crate::text;
use crate::flattened::generated;
use crate::reference_styles::{RefRule, Reference, Ruled, Styles, all_classes, first_class_of};
use crate::residuals::Residual;
use crate::restyle::{Mapper, Mapping, undigited};
use crate::rewrite_styles::{Placed, Setting, walk};
use crate::stylesheet::last_value_of;
use crate::text::{add_str, chars_of, same, str_is, string_of, strs_have};

verus! {

/// How well a kind of page suits a document: whether its body names it, how many rules speak of it,
/// and how many declarations are left undone.
#[derive(Clone, Copy)]
pub struct Score {
    pub body: bool,
    pub hits: u128,
    pub left: u128,
}

/// `a` suits better than `b`.
pub open spec fn suits_better(a: Score, b: Score) -> bool {
    ||| a.body && !b.body
    ||| (a.body == b.body && a.hits > b.hits)
    ||| (a.body == b.body && a.hits == b.hits && a.left < b.left)
}

fn is_better(a: Score, b: Score) -> (r: bool)
    ensures
        r == suits_better(a, b),
{
    (a.body && !b.body) || (a.body == b.body && a.hits > b.hits) || (a.body == b.body && a.hits
        == b.hits && a.left < b.left)
}

/// A kind of page that was tried: how well it suits, and the stylesheet that it suits with.
pub struct Tried {
    pub kind: Option<String>,
    pub score: Score,
    pub entry: String,
}

pub open spec fn tried(v: Seq<Tried>) -> Seq<(Option<Seq<char>>, Score, Seq<char>)> {
    v.map_values(|t: Tried| (text::opt_str(t.kind), t.score, t.entry@))
}

/// What is decided for a document.
pub struct DocPlan {
    pub kind: Option<String>,
    pub flat_kind: Option<String>,
    pub mode: String,
    pub axis: Option<String>,
    pub entry: String,
    pub scores: Vec<Tried>,
}

/// What a `DocPlan` says.
#[verifier::ext_equal]
pub struct PagePlan {
    pub kind: Option<Seq<char>>,
    pub flat_kind: Option<Seq<char>>,
    pub mode: Seq<char>,
    pub axis: Option<Seq<char>>,
    pub entry: Seq<char>,
    pub scores: Seq<(Option<Seq<char>>, Score, Seq<char>)>,
}

impl View for DocPlan {
    type V = PagePlan;

    open spec fn view(&self) -> PagePlan {
        PagePlan {
            kind: text::opt_str(self.kind),
            flat_kind: text::opt_str(self.flat_kind),
            mode: self.mode@,
            axis: text::opt_str(self.axis),
            entry: self.entry@,
            scores: tried(self.scores@),
        }
    }
}

pub open spec fn plans(v: Seq<DocPlan>) -> Seq<PagePlan> {
    v.map_values(|p: DocPlan| p@)
}

fn copy_opt(o: &Option<String>) -> (r: Option<String>)
    ensures
        text::opt_str(r) == text::opt_str(*o),
{
    match o {
        Some(s) => Some(s.clone()),
        None => None,
    }
}

fn as_slice(o: &Option<String>) -> (r: Option<&str>)
    ensures
        reference_styles::opt_ref(r) == text::opt_str(*o),
{
    match o {
        Some(s) => Some(s.as_str()),
        None => None,
    }
}

fn same_opt(a: &Option<String>, b: &Option<String>) -> (r: bool)
    ensures
        r == (text::opt_str(*a) == text::opt_str(*b)),
{
    match (a, b) {
        (Some(x), Some(y)) => str_is(x, y),
        (None, None) => true,
        _ => false,
    }
}

// ---------------------------------------------------------------- what a document shows

/// The kind of page that a flattened body still names.
pub open spec fn flat_kind(t: Seq<char>) -> Option<Seq<char>> {
    match reference_styles::first_class(t, "body"@) {
        Some(k) if !flattened::is_generated(k) => Some(k),
        _ => None,
    }
}

/// The direction of writing that a body's class sets.
pub open spec fn flat_mode(t: Seq<char>, axes: Seq<(Seq<char>, Seq<char>)>) -> Seq<char> {
    match reference_styles::first_class(t, "body"@) {
        Some(k) => match stylesheet::last_value(axes, k, axes.len() as int) {
            Some(m) => m,
            None => "horizontal-tb"@,
        },
        None => "horizontal-tb"@,
    }
}

fn flat_kind_of(text: &str) -> (r: Option<String>)
    ensures
        text::opt_str(r) == flat_kind(text@),
{
    match first_class_of(text, "body") {
        Some(k) => if generated(&chars_of(&k)) {
            None
        } else {
            Some(k)
        },
        None => None,
    }
}

fn flat_mode_of(text: &str, axes: &Vec<(String, String)>) -> (r: String)
    ensures
        r@ == flat_mode(text@, edit::pairs(axes@)),
{
    assert(edit::pairs(axes@).len() == axes@.len());
    if let Some(k) = first_class_of(text, "body") {
        if let Some(m) = last_value_of(axes, &k) {
            return m;
        }
    }
    string_of(&chars_of("horizontal-tb"))
}

/// An element has the class, or one that differs from it by digits at its end.
pub open spec fn is_present(v: Seq<(Seq<char>, Seq<char>)>, class: Seq<char>) -> bool {
    exists|i: int|
        0 <= i < v.len() && ((#[trigger] v[i]).1 == class || restyle::stem(v[i].1) == class)
}

fn present(v: &Vec<(String, String)>, class: &[char]) -> (r: bool)
    ensures
        r == is_present(edit::pairs(v@), class@),
{
    let ghost all = edit::pairs(v@);
    let n = v.len();
    assert(all.len() == n);
    let mut i: usize = 0;
    while i < n
        invariant
            i <= n,
            n == v@.len(),
            all == edit::pairs(v@),
            all.len() == n,
            forall|k: int|
                0 <= k < i ==> !((#[trigger] all[k]).1 == class@ || restyle::stem(all[k].1)
                    == class@),
        decreases n - i,
    {
        assert(all[i as int] == (v@[i as int].0@, v@[i as int].1@));
        let c = chars_of(&v[i].1);
        if same(&c, class) || same(undigited(&c), class) {
            return true;
        }
        i += 1;
    }
    false
}

/// One of the classes is present.
pub open spec fn any_present(v: Seq<(Seq<char>, Seq<char>)>, classes: Seq<Seq<char>>) -> bool {
    exists|i: int| 0 <= i < classes.len() && is_present(v, #[trigger] classes[i])
}

fn any_present_of(v: &Vec<(String, String)>, classes: &Vec<String>) -> (r: bool)
    ensures
        r == any_present(edit::pairs(v@), text::strs(classes@)),
{
    let ghost all = text::strs(classes@);
    let n = classes.len();
    assert(all.len() == n);
    let mut i: usize = 0;
    while i < n
        invariant
            i <= n,
            n == classes@.len(),
            all == text::strs(classes@),
            all.len() == n,
            forall|k: int| 0 <= k < i ==> !is_present(edit::pairs(v@), #[trigger] all[k]),
        decreases n - i,
    {
        assert(all[i as int] == classes@[i as int]@);
        if present(v, &chars_of(&classes[i])) {
            return true;
        }
        i += 1;
    }
    false
}

/// A rule for pages of the kind selects by a class that is present.
pub open spec fn kind_selects(rules: Seq<Ruled>, kind: Seq<char>, v: Seq<(Seq<char>, Seq<char>)>) -> bool {
    exists|i: int|
        0 <= i < rules.len() && (#[trigger] rules[i]).shape.context_classes.contains(kind)
            && any_present(v, rules[i].shape.classes)
}

/// A rule of one of the first `n` entries does.
pub open spec fn kind_selects_to(
    entries: Seq<(Seq<char>, Seq<Ruled>)>,
    kind: Seq<char>,
    v: Seq<(Seq<char>, Seq<char>)>,
    n: int,
) -> bool
    decreases n,
{
    n > 0 && (kind_selects(entries[n - 1].1, kind, v) || kind_selects_to(entries, kind, v, n - 1))
}

fn kind_selects_of(rules: &Vec<RefRule>, kind: &[char], v: &Vec<(String, String)>) -> (r: bool)
    ensures
        r == kind_selects(reference_styles::ruled(rules@), kind@, edit::pairs(v@)),
{
    let ghost all = reference_styles::ruled(rules@);
    let ghost vs = edit::pairs(v@);
    let n = rules.len();
    assert(all.len() == n);
    let mut i: usize = 0;
    while i < n
        invariant
            i <= n,
            n == rules@.len(),
            all == reference_styles::ruled(rules@),
            all.len() == n,
            vs == edit::pairs(v@),
            forall|k: int|
                0 <= k < i ==> !((#[trigger] all[k]).shape.context_classes.contains(kind@)
                    && any_present(vs, all[k].shape.classes)),
        decreases n - i,
    {
        assert(all[i as int] == rules@[i as int]@);
        if strs_have(&rules[i].shape.context_classes, kind) && any_present_of(
            v,
            &rules[i].shape.classes,
        ) {
            return true;
        }
        i += 1;
    }
    false
}

/// The kind can be that of the document: its body names it, pages of the reference are of it, or
/// its rules select something in the document.
pub open spec fn is_reachable(
    r: Styles,
    kind: Seq<char>,
    flat: Option<Seq<char>>,
    v: Seq<(Seq<char>, Seq<char>)>,
) -> bool {
    flat == Some(kind) || r.kind_count(kind) > 0 || kind_selects_to(
        r.entries,
        kind,
        v,
        r.entries.len() as int,
    )
}

fn reachable(
    r: &Reference,
    kind: &String,
    flat: &Option<String>,
    v: &Vec<(String, String)>,
) -> (ok: bool)
    ensures
        ok == is_reachable(r@, kind@, text::opt_str(*flat), edit::pairs(v@)),
{
    let named = match flat {
        Some(f) => str_is(f, kind),
        None => false,
    };
    if named || r.kind_count(kind) > 0 {
        return true;
    }
    let ghost all = r@.entries;
    let ghost vs = edit::pairs(v@);
    assert(all.len() == r.entries@.len());
    let k = chars_of(kind);
    let mut n: usize = r.entries.len();
    while n > 0
        invariant
            n <= r.entries@.len(),
            all == reference_styles::entries_said(r.entries@),
            vs == edit::pairs(v@),
            k@ == kind@,
            kind_selects_to(all, k@, vs, n as int) == kind_selects_to(
                all,
                k@,
                vs,
                r.entries@.len() as int,
            ),
            all.len() == r.entries@.len(),
            all == r@.entries,
        decreases n,
    {
        assert(all[n - 1] == (r.entries@[n - 1].0@, reference_styles::ruled(r.entries@[n - 1].1@)));
        if kind_selects_of(&r.entries[n - 1].1, &k, v) {
            return true;
        }
        n -= 1;
    }
    false
}

/// The kinds to try: none, and of the first `n` those that can be the document's.
pub open spec fn kinds_tried(
    r: Styles,
    flat: Option<Seq<char>>,
    v: Seq<(Seq<char>, Seq<char>)>,
    n: int,
) -> Seq<Option<Seq<char>>>
    decreases n,
{
    if n <= 0 {
        seq![None]
    } else {
        let before = kinds_tried(r, flat, v, n - 1);
        if is_reachable(r, r.kinds[n - 1], flat, v) {
            before.push(Some(r.kinds[n - 1]))
        } else {
            before
        }
    }
}

pub open spec fn opts(v: Seq<Option<String>>) -> Seq<Option<Seq<char>>> {
    v.map_values(|o: Option<String>| text::opt_str(o))
}

fn kinds_to_try(r: &Reference, flat: &Option<String>, v: &Vec<(String, String)>) -> (out: Vec<
    Option<String>,
>)
    ensures
        opts(out@) == kinds_tried(
            r@,
            text::opt_str(*flat),
            edit::pairs(v@),
            r@.kinds.len() as int,
        ),
{
    let ghost ks = r@.kinds;
    let ghost vs = edit::pairs(v@);
    let n = r.kinds.len();
    assert(ks.len() == n);
    let mut out: Vec<Option<String>> = Vec::new();
    out.push(None);
    assert(opts(out@) =~= seq![None]);
    let mut i: usize = 0;
    while i < n
        invariant
            i <= n,
            n == r.kinds@.len(),
            ks == r@.kinds,
            vs == edit::pairs(v@),
            opts(out@) == kinds_tried(r@, text::opt_str(*flat), vs, i as int),
        decreases n - i,
    {
        assert(ks[i as int] == r.kinds@[i as int]@);
        if reachable(r, &r.kinds[i], flat, v) {
            let x = Some(r.kinds[i].clone());
            let ghost before = opts(out@);
            out.push(x);
            assert(opts(out@) =~= before.push(Some(ks[i as int])));
        }
        i += 1;
    }
    out
}

// ---------------------------------------------------------------- scores

/// What a document and the classes of a converter are tried against.
#[verifier::ext_equal]
pub struct Trial {
    pub text: Seq<char>,
    pub flat: Seq<(Seq<char>, Seq<(Seq<char>, Seq<char>)>)>,
    pub mode: Seq<char>,
    pub flat_kind: Option<Seq<char>>,
}

/// How well the kind suits with the `i`-th stylesheet.
pub open spec fn score_of(r: Styles, x: Trial, kind: Option<Seq<char>>, i: int) -> Score {
    let m = Mapping {
        flat: x.flat,
        rules: r.entries[i].1,
        vocabulary: r.vocabulary,
        kinds: r.kinds,
        kind,
    };
    let w = rewrite_styles::walked(
        Seq::empty(),
        x.text,
        m,
        Placed {
            dir: Seq::empty(),
            axis: r.axis(kind, r.entries[i].0, x.mode),
            removed: Seq::empty(),
            link: Seq::empty(),
        },
    );
    Score {
        body: kind is Some && kind == x.flat_kind,
        hits: w.hits as u128,
        left: w.left as u128,
    }
}

fn score_with(
    r: &Reference,
    text: &str,
    flat: &Vec<(String, Vec<(String, String)>)>,
    mode: &str,
    flat_kind_here: &Option<String>,
    kind: &Option<String>,
    i: usize,
) -> (s: Score)
    requires
        i < r.entries@.len(),
    ensures
        s == score_of(
            r@,
            Trial {
                text: text@,
                flat: restyle::flat_said(flat@),
                mode: mode@,
                flat_kind: text::opt_str(*flat_kind_here),
            },
            text::opt_str(*kind),
            i as int,
        ),
{
    assert(r@.entries[i as int] == (r.entries@[i as int].0@, reference_styles::ruled(r.entries@[i as int].1@)));
    let axis = r.axis(as_slice(kind), &r.entries[i].0, mode);
    let m = Mapper {
        flat,
        rules: &r.entries[i].1,
        vocabulary: &r.vocabulary,
        kinds: &r.kinds,
        kind: copy_opt(kind),
    };
    let none: Vec<String> = Vec::new();
    assert(text::strs(none@) =~= Seq::empty());
    proof {
        reveal_strlit("");
        assert(""@ =~= Seq::<char>::empty());
    }
    let s = Setting { dir: "", axis, removed: &none, link: "" };
    let rules: Vec<Residual> = Vec::new();
    assert(residuals::residuals(rules@) =~= Seq::empty());
    let w = walk(rules, text, &m, &s);
    Score { body: kind.is_some() && same_opt(kind, flat_kind_here), hits: w.hits, left: w.left }
}

/// The best of the first `n` stylesheets for the kind.
pub open spec fn best_entry_to(
    r: Styles,
    x: Trial,
    kind: Option<Seq<char>>,
    paths: Seq<Seq<char>>,
    n: int,
) -> Option<(Score, Seq<char>)>
    decreases n,
{
    if n <= 0 {
        None
    } else {
        let before = best_entry_to(r, x, kind, paths, n - 1);
        match reference_styles::entry_at(r.entries, paths[n - 1], 0) {
            Some(i) => {
                let s = score_of(r, x, kind, i);
                match before {
                    Some((b, _)) => if suits_better(s, b) {
                        Some((s, paths[n - 1]))
                    } else {
                        before
                    },
                    None => Some((s, paths[n - 1])),
                }
            },
            None => before,
        }
    }
}

/// The stylesheets to try with the kind: those of its pages, else all.
pub open spec fn paths_for(r: Styles, kind: Option<Seq<char>>) -> Seq<Seq<char>> {
    let own = r.entries_for_kind(kind);
    if own.len() == 0 {
        r.entries.map_values(|e: (Seq<char>, Seq<Ruled>)| e.0)
    } else {
        own
    }
}

/// How well the first `n` kinds suit.
pub open spec fn scores_to(r: Styles, x: Trial, kinds: Seq<Option<Seq<char>>>, n: int) -> Seq<
    (Option<Seq<char>>, Score, Seq<char>),
>
    decreases n,
{
    if n <= 0 {
        Seq::empty()
    } else {
        let before = scores_to(r, x, kinds, n - 1);
        let paths = paths_for(r, kinds[n - 1]);
        match best_entry_to(r, x, kinds[n - 1], paths, paths.len() as int) {
            Some((s, e)) => before.push((kinds[n - 1], s, e)),
            None => before,
        }
    }
}

fn paths_to_try(r: &Reference, kind: &Option<String>) -> (v: Vec<String>)
    ensures
        text::strs(v@) == paths_for(r@, text::opt_str(*kind)),
{
    let own = r.entries_for_kind(as_slice(kind));
    assert(text::strs(own@).len() == own@.len());
    if own.len() > 0 {
        return own;
    }
    let ghost all = r@.entries;
    let ghost want = all.map_values(|e: (Seq<char>, Seq<Ruled>)| e.0);
    let n = r.entries.len();
    assert(all.len() == n);
    let mut out: Vec<String> = Vec::new();
    assert(text::strs(out@) =~= want.take(0));
    let mut i: usize = 0;
    while i < n
        invariant
            i <= n,
            n == r.entries@.len(),
            all == reference_styles::entries_said(r.entries@),
            all.len() == n,
            want == all.map_values(|e: (Seq<char>, Seq<Ruled>)| e.0),
            text::strs(out@) == want.take(i as int),
        decreases n - i,
    {
        assert(all[i as int] == (r.entries@[i as int].0@, reference_styles::ruled(r.entries@[i as int].1@)));
        let x = r.entries[i].0.clone();
        assert(want[i as int] == x@);
        add_str(&mut out, x);
        assert(want.take(i + 1) =~= want.take(i as int).push(want[i as int]));
        i += 1;
    }
    assert(want.take(n as int) =~= want);
    out
}

fn best_entry(
    r: &Reference,
    text: &str,
    flat: &Vec<(String, Vec<(String, String)>)>,
    mode: &str,
    flat_kind_here: &Option<String>,
    kind: &Option<String>,
) -> (b: Option<(Score, String)>)
    ensures
        ({
            let x = Trial {
                text: text@,
                flat: restyle::flat_said(flat@),
                mode: mode@,
                flat_kind: text::opt_str(*flat_kind_here),
            };
            let paths = paths_for(r@, text::opt_str(*kind));
            let want = best_entry_to(r@, x, text::opt_str(*kind), paths, paths.len() as int);
            match b {
                Some((s, e)) => want == Some((s, e@)),
                None => want is None,
            }
        }),
{
    let ghost x = Trial {
        text: text@,
        flat: restyle::flat_said(flat@),
        mode: mode@,
        flat_kind: text::opt_str(*flat_kind_here),
    };
    let paths = paths_to_try(r, kind);
    let ghost ps = text::strs(paths@);
    let ghost kv = text::opt_str(*kind);
    let n = paths.len();
    assert(ps.len() == n);
    let mut best: Option<(Score, String)> = None;
    let mut i: usize = 0;
    while i < n
        invariant
            i <= n,
            n == paths@.len(),
            ps == text::strs(paths@),
            kv == text::opt_str(*kind),
            x == (Trial {
                text: text@,
                flat: restyle::flat_said(flat@),
                mode: mode@,
                flat_kind: text::opt_str(*flat_kind_here),
            }),
            match best {
                Some((s, e)) => best_entry_to(r@, x, kv, ps, i as int) == Some((s, e@)),
                None => best_entry_to(r@, x, kv, ps, i as int) is None,
            },
        decreases n - i,
    {
        assert(ps[i as int] == paths@[i as int]@);
        if let Some(k) = r.entry_place(&paths[i]) {
            let s = score_with(r, text, flat, mode, flat_kind_here, kind, k);
            let better = match &best {
                Some((b, _)) => is_better(s, *b),
                None => true,
            };
            if better {
                best = Some((s, paths[i].clone()));
            }
        }
        i += 1;
    }
    best
}

fn scores_of(
    r: &Reference,
    text: &str,
    flat: &Vec<(String, Vec<(String, String)>)>,
    mode: &str,
    flat_kind_here: &Option<String>,
    kinds: &Vec<Option<String>>,
) -> (v: Vec<Tried>)
    ensures
        tried(v@) == scores_to(
            r@,
            Trial {
                text: text@,
                flat: restyle::flat_said(flat@),
                mode: mode@,
                flat_kind: text::opt_str(*flat_kind_here),
            },
            opts(kinds@),
            kinds@.len() as int,
        ),
{
    let ghost x = Trial {
        text: text@,
        flat: restyle::flat_said(flat@),
        mode: mode@,
        flat_kind: text::opt_str(*flat_kind_here),
    };
    let ghost ks = opts(kinds@);
    let n = kinds.len();
    let mut out: Vec<Tried> = Vec::new();
    assert(tried(out@) =~= Seq::empty());
    let mut i: usize = 0;
    while i < n
        invariant
            i <= n,
            n == kinds@.len(),
            ks == opts(kinds@),
            x == (Trial {
                text: text@,
                flat: restyle::flat_said(flat@),
                mode: mode@,
                flat_kind: text::opt_str(*flat_kind_here),
            }),
            tried(out@) == scores_to(r@, x, ks, i as int),
        decreases n - i,
    {
        assert(ks[i as int] == text::opt_str(kinds@[i as int]));
        if let Some((score, entry)) = best_entry(r, text, flat, mode, flat_kind_here, &kinds[i]) {
            let ghost before = tried(out@);
            let ghost ev = entry@;
            out.push(Tried { kind: copy_opt(&kinds[i]), score, entry });
            assert(tried(out@) =~= before.push((ks[i as int], score, ev)));
        }
        i += 1;
    }
    out
}

// ---------------------------------------------------------------- the decision

/// The best of the first `n` scores.
pub open spec fn best_score_to(v: Seq<(Option<Seq<char>>, Score, Seq<char>)>, n: int) -> Option<Score>
    decreases n,
{
    if n <= 0 {
        None
    } else {
        match best_score_to(v, n - 1) {
            Some(b) => if suits_better(v[n - 1].1, b) {
                Some(v[n - 1].1)
            } else {
                Some(b)
            },
            None => Some(v[n - 1].1),
        }
    }
}

/// The place of the kind among those tried.
pub open spec fn tried_at(
    v: Seq<(Option<Seq<char>>, Score, Seq<char>)>,
    kind: Option<Seq<char>>,
    i: int,
) -> Option<int>
    decreases v.len() - i,
{
    if i < 0 || i >= v.len() {
        None
    } else if v[i].0 == kind {
        Some(i)
    } else {
        tried_at(v, kind, i + 1)
    }
}

/// The first kind from `i` on that suits as well as the best; with `some`, the first that is one.
pub open spec fn tied_from(
    v: Seq<(Option<Seq<char>>, Score, Seq<char>)>,
    best: Score,
    some: bool,
    i: int,
) -> Option<Seq<char>>
    decreases v.len() - i,
{
    if i < 0 || i >= v.len() {
        None
    } else if v[i].1 == best && (v[i].0 is Some || !some) {
        v[i].0
    } else {
        tied_from(v, best, some, i + 1)
    }
}

/// The kind is among those that suit as well as the best.
pub open spec fn is_tied(
    v: Seq<(Option<Seq<char>>, Score, Seq<char>)>,
    best: Score,
    kind: Option<Seq<char>>,
) -> bool {
    tried_at(v, kind, 0) matches Some(i) && v[i].1 == best
}

/// The kind that is chosen: the one that the body names, where none suits better; else the first
/// that rules speak of; else, where the body names one that is not there, the commonest; else the
/// first.
pub open spec fn kind_chosen(
    v: Seq<(Option<Seq<char>>, Score, Seq<char>)>,
    flat: Option<Seq<char>>,
    r: Styles,
) -> Option<Seq<char>> {
    match best_score_to(v, v.len() as int) {
        None => None,
        Some(best) => if flat is Some && is_tied(v, best, flat) {
            flat
        } else if best.hits > 0 {
            tied_from(v, best, true, 0)
        } else if flat is Some {
            r.default_kind()
        } else {
            tied_from(v, best, false, 0)
        },
    }
}

/// The stylesheet that is chosen with the kind.
pub open spec fn entry_chosen(
    v: Seq<(Option<Seq<char>>, Score, Seq<char>)>,
    flat: Option<Seq<char>>,
    r: Styles,
) -> Seq<char> {
    let kind = kind_chosen(v, flat, r);
    if v.len() == 0 {
        if r.entries.len() > 0 {
            r.entries[0].0
        } else {
            Seq::empty()
        }
    } else {
        match tried_at(v, kind, 0) {
            Some(i) => v[i].2,
            None => match r.entry_for_kind(kind) {
                Some(e) => e,
                None => Seq::empty(),
            },
        }
    }
}

fn same_score(a: Score, b: Score) -> (r: bool)
    ensures
        r == (a == b),
{
    a.body == b.body && a.hits == b.hits && a.left == b.left
}

fn tried_place(v: &Vec<Tried>, kind: &Option<String>) -> (r: Option<usize>)
    ensures
        text::pos(r) == tried_at(tried(v@), text::opt_str(*kind), 0),
        r matches Some(i) ==> i < v@.len(),
{
    let ghost all = tried(v@);
    let n = v.len();
    assert(all.len() == n);
    let mut i: usize = 0;
    while i < n
        invariant
            i <= n,
            n == v@.len(),
            all == tried(v@),
            all.len() == n,
            tried_at(all, text::opt_str(*kind), i as int) == tried_at(
                all,
                text::opt_str(*kind),
                0,
            ),
        decreases n - i,
    {
        assert(all[i as int] == (
            text::opt_str(v@[i as int].kind),
            v@[i as int].score,
            v@[i as int].entry@,
        ));
        if same_opt(&v[i].kind, kind) {
            return Some(i);
        }
        i += 1;
    }
    None
}

fn tied_of(v: &Vec<Tried>, best: Score, some: bool) -> (r: Option<String>)
    ensures
        text::opt_str(r) == tied_from(tried(v@), best, some, 0),
{
    let ghost all = tried(v@);
    let n = v.len();
    assert(all.len() == n);
    let mut i: usize = 0;
    while i < n
        invariant
            i <= n,
            n == v@.len(),
            all == tried(v@),
            all.len() == n,
            tied_from(all, best, some, i as int) == tied_from(all, best, some, 0),
        decreases n - i,
    {
        assert(all[i as int] == (
            text::opt_str(v@[i as int].kind),
            v@[i as int].score,
            v@[i as int].entry@,
        ));
        if same_score(v[i].score, best) && (v[i].kind.is_some() || !some) {
            return copy_opt(&v[i].kind);
        }
        i += 1;
    }
    None
}

fn best_score(v: &Vec<Tried>) -> (r: Option<Score>)
    ensures
        r == best_score_to(tried(v@), v@.len() as int),
{
    let ghost all = tried(v@);
    let n = v.len();
    let mut best: Option<Score> = None;
    let mut i: usize = 0;
    while i < n
        invariant
            i <= n,
            n == v@.len(),
            all == tried(v@),
            best == best_score_to(all, i as int),
        decreases n - i,
    {
        assert(all[i as int] == (
            text::opt_str(v@[i as int].kind),
            v@[i as int].score,
            v@[i as int].entry@,
        ));
        let here = v[i].score;
        best = match best {
            Some(b) => if is_better(here, b) {
                Some(here)
            } else {
                Some(b)
            },
            None => Some(here),
        };
        i += 1;
    }
    best
}

/// Choose the kind of a document and its stylesheet.
pub fn choose_kind(v: &Vec<Tried>, flat: &Option<String>, r: &Reference) -> (c: (
    Option<String>,
    String,
))
    ensures
        text::opt_str(c.0) == kind_chosen(tried(v@), text::opt_str(*flat), r@),
        c.1@ == entry_chosen(tried(v@), text::opt_str(*flat), r@),
{
    let ghost all = tried(v@);
    assert(all.len() == v@.len());
    let best = match best_score(v) {
        Some(b) => b,
        None => {
            proof {
                if all.len() > 0 {
                    assert(best_score_to(all, all.len() as int) is Some);
                }
            }
            assert(r@.entries.len() == r.entries@.len());
            let entry = if r.entries.len() > 0 {
                assert(r@.entries[0].0 == r.entries@[0].0@);
                r.entries[0].0.clone()
            } else {
                String::new()
            };
            return (None, entry);
        },
    };
    let named = match tried_place(v, flat) {
        Some(i) => {
            assert(all[i as int].1 == v@[i as int].score);
            flat.is_some() && same_score(v[i].score, best)
        },
        None => false,
    };
    let kind = if named {
        copy_opt(flat)
    } else if best.hits > 0 {
        tied_of(v, best, true)
    } else if flat.is_some() {
        r.default_kind()
    } else {
        tied_of(v, best, false)
    };
    let entry = match tried_place(v, &kind) {
        Some(i) => {
            assert(all[i as int].2 == v@[i as int].entry@);
            v[i].entry.clone()
        },
        None => match r.entry_for_kind(as_slice(&kind)) {
            Some(e) => e,
            None => String::new(),
        },
    };
    (kind, entry)
}

/// The plan for a document with these scores.
pub open spec fn plan_with(
    r: Styles,
    v: Seq<(Option<Seq<char>>, Score, Seq<char>)>,
    flat: Option<Seq<char>>,
    mode: Seq<char>,
) -> PagePlan {
    let kind = kind_chosen(v, flat, r);
    let entry = entry_chosen(v, flat, r);
    PagePlan { kind, flat_kind: flat, mode, axis: r.axis(kind, entry, mode), entry, scores: v }
}

/// The plan for a document.
pub open spec fn planned(
    r: Styles,
    t: Seq<char>,
    flat: Seq<(Seq<char>, Seq<(Seq<char>, Seq<char>)>)>,
    axes: Seq<(Seq<char>, Seq<char>)>,
) -> PagePlan {
    let fk = flat_kind(t);
    let mode = flat_mode(t, axes);
    let kinds = kinds_tried(r, fk, reference_styles::tag_classes(t), r.kinds.len() as int);
    plan_with(
        r,
        scores_to(r, Trial { text: t, flat, mode, flat_kind: fk }, kinds, kinds.len() as int),
        fk,
        mode,
    )
}

/// PagePlan a document.
pub fn plan_document(
    text: &str,
    flat: &Vec<(String, Vec<(String, String)>)>,
    axes: &Vec<(String, String)>,
    r: &Reference,
) -> (p: DocPlan)
    ensures
        p@ == planned(r@, text@, restyle::flat_said(flat@), edit::pairs(axes@)),
{
    let fk = flat_kind_of(text);
    let mode = flat_mode_of(text, axes);
    let classes = all_classes(text);
    let kinds = kinds_to_try(r, &fk, &classes);
    assert(opts(kinds@).len() == kinds@.len());
    let scores = scores_of(r, text, flat, &mode, &fk, &kinds);
    let (kind, entry) = choose_kind(&scores, &fk, r);
    let axis = r.axis(as_slice(&kind), &entry, &mode);
    DocPlan { kind, flat_kind: fk, mode, axis, entry, scores }
}

// ---------------------------------------------------------------- kinds that occur once

/// The first `n` scores but that of the kind.
pub open spec fn scores_without(
    v: Seq<(Option<Seq<char>>, Score, Seq<char>)>,
    kind: Option<Seq<char>>,
    n: int,
) -> Seq<(Option<Seq<char>>, Score, Seq<char>)>
    decreases n,
{
    if n <= 0 {
        Seq::empty()
    } else if v[n - 1].0 == kind {
        scores_without(v, kind, n - 1)
    } else {
        scores_without(v, kind, n - 1).push(v[n - 1])
    }
}

/// The score of the kind, the least where it was not tried.
pub open spec fn score_for(v: Seq<(Option<Seq<char>>, Score, Seq<char>)>, kind: Option<Seq<char>>) -> Score {
    match tried_at(v, kind, 0) {
        Some(i) => v[i].1,
        None => Score { body: false, hits: 0, left: 0 },
    }
}

/// The first of the first `n` plans of the kind that it suits best.
pub open spec fn keeper_to(v: Seq<PagePlan>, kind: Seq<char>, n: int) -> Option<int>
    decreases n,
{
    if n <= 0 {
        None
    } else {
        let before = keeper_to(v, kind, n - 1);
        if v[n - 1].kind == Some(kind) {
            match before {
                Some(b) => if suits_better(
                    score_for(v[n - 1].scores, Some(kind)),
                    score_for(v[b].scores, Some(kind)),
                ) {
                    Some(n - 1)
                } else {
                    before
                },
                None => Some(n - 1),
            }
        } else {
            before
        }
    }
}

/// The plan where another document has the kind.
pub open spec fn replanned(r: Styles, p: PagePlan, kind: Seq<char>) -> PagePlan {
    let rest = scores_without(p.scores, Some(kind), p.scores.len() as int);
    let next = plan_with(r, rest, p.flat_kind, p.mode);
    PagePlan { scores: p.scores, ..next }
}

/// The first `n` plans once a kind that occurs once in the reference has one document.
pub open spec fn single_to(r: Styles, v: Seq<PagePlan>, kind: Seq<char>, keep: int, n: int) -> Seq<PagePlan>
    decreases n,
{
    if n <= 0 {
        Seq::empty()
    } else {
        let before = single_to(r, v, kind, keep, n - 1);
        if v[n - 1].kind == Some(kind) && n - 1 != keep {
            before.push(replanned(r, v[n - 1], kind))
        } else {
            before.push(v[n - 1])
        }
    }
}

/// The plans once each of the first `n` kinds that occurs once in the reference has one document.
pub open spec fn singles_to(r: Styles, v: Seq<PagePlan>, n: int) -> Seq<PagePlan>
    decreases n,
{
    if n <= 0 {
        v
    } else {
        let before = singles_to(r, v, n - 1);
        let kind = r.kinds[n - 1];
        if r.kind_count(kind) == 1 {
            match keeper_to(before, kind, before.len() as int) {
                Some(k) => single_to(r, before, kind, k, before.len() as int),
                None => before,
            }
        } else {
            before
        }
    }
}

fn score_for_of(v: &Vec<Tried>, kind: &Option<String>) -> (r: Score)
    ensures
        r == score_for(tried(v@), text::opt_str(*kind)),
{
    match tried_place(v, kind) {
        Some(i) => {
            assert(tried(v@)[i as int].1 == v@[i as int].score);
            v[i].score
        },
        None => Score { body: false, hits: 0, left: 0 },
    }
}

fn keeper_of(v: &Vec<DocPlan>, kind: &Option<String>) -> (r: Option<usize>)
    requires
        kind is Some,
    ensures
        text::pos(r) == keeper_to(plans(v@), text::opt_str(*kind).unwrap(), v@.len() as int),
{
    let ghost all = plans(v@);
    let ghost kv = text::opt_str(*kind).unwrap();
    let n = v.len();
    let mut best: Option<usize> = None;
    let mut i: usize = 0;
    while i < n
        invariant
            i <= n,
            n == v@.len(),
            all == plans(v@),
            text::opt_str(*kind) == Some(kv),
            text::pos(best) == keeper_to(all, kv, i as int),
            best matches Some(b) ==> b < i,
        decreases n - i,
    {
        assert(all[i as int] == v@[i as int]@);
        if same_opt(&v[i].kind, kind) {
            let better = match best {
                Some(b) => {
                    assert(all[b as int] == v@[b as int]@);
                    is_better(score_for_of(&v[i].scores, kind), score_for_of(&v[b].scores, kind))
                },
                None => true,
            };
            if better {
                best = Some(i);
            }
        }
        i += 1;
    }
    best
}

fn scores_but(v: &Vec<Tried>, kind: &Option<String>) -> (r: Vec<Tried>)
    ensures
        tried(r@) == scores_without(tried(v@), text::opt_str(*kind), v@.len() as int),
{
    let ghost all = tried(v@);
    let n = v.len();
    let mut out: Vec<Tried> = Vec::new();
    assert(tried(out@) =~= Seq::empty());
    let mut i: usize = 0;
    while i < n
        invariant
            i <= n,
            n == v@.len(),
            all == tried(v@),
            tried(out@) == scores_without(all, text::opt_str(*kind), i as int),
        decreases n - i,
    {
        assert(all[i as int] == (
            text::opt_str(v@[i as int].kind),
            v@[i as int].score,
            v@[i as int].entry@,
        ));
        if !same_opt(&v[i].kind, kind) {
            let ghost before = tried(out@);
            let x = Tried {
                kind: copy_opt(&v[i].kind),
                score: v[i].score,
                entry: v[i].entry.clone(),
            };
            out.push(x);
            assert(tried(out@) =~= before.push(all[i as int]));
        }
        i += 1;
    }
    out
}

fn replan(r: &Reference, p: &mut DocPlan, kind: &Option<String>)
    requires
        kind is Some,
    ensures
        final(p)@ == replanned(r@, old(p)@, text::opt_str(*kind).unwrap()),
{
    assert(tried(p.scores@).len() == p.scores@.len());
    let rest = scores_but(&p.scores, kind);
    let (next, entry) = choose_kind(&rest, &p.flat_kind, r);
    p.axis = r.axis(as_slice(&next), &entry, &p.mode);
    p.kind = next;
    p.entry = entry;
}

fn make_single(r: &Reference, v: &mut Vec<DocPlan>, kind: &Option<String>, keep: usize)
    requires
        kind is Some,
    ensures
        plans(final(v)@) == single_to(
            r@,
            plans(old(v)@),
            text::opt_str(*kind).unwrap(),
            keep as int,
            old(v)@.len() as int,
        ),
{
    let ghost all = plans(v@);
    let ghost kv = text::opt_str(*kind).unwrap();
    let n = v.len();
    assert(all.len() == n);
    let mut i: usize = 0;
    assert(plans(v@) =~= single_to(r@, all, kv, keep as int, 0) + all.subrange(0, n as int));
    while i < n
        invariant
            i <= n,
            n == v@.len(),
            all.len() == n,
            text::opt_str(*kind) == Some(kv),
            plans(v@) == single_to(r@, all, kv, keep as int, i as int) + all.subrange(
                i as int,
                n as int,
            ),
            single_to(r@, all, kv, keep as int, i as int).len() == i,
        decreases n - i,
    {
        let ghost done = single_to(r@, all, kv, keep as int, i as int);
        assert(plans(v@)[i as int] == v@[i as int]@);
        assert(plans(v@)[i as int] == all[i as int]);
        if i != keep && same_opt(&v[i].kind, kind) {
            let ghost before = plans(v@);
            let mut p = v.remove(i);
            replan(r, &mut p, kind);
            let ghost pv = p@;
            v.insert(i, p);
            assert(plans(v@) =~= before.update(i as int, pv));
        }
        assert(plans(v@) =~= single_to(r@, all, kv, keep as int, i + 1) + all.subrange(
            i + 1,
            n as int,
        ));
        i += 1;
    }
    assert(plans(v@) =~= single_to(r@, all, kv, keep as int, n as int));
}

/// See that a kind of page that occurs once in the reference is given to one document: the one that
/// it suits best.
pub fn enforce_singletons(v: &mut Vec<DocPlan>, r: &Reference)
    ensures
        plans(final(v)@) == singles_to(r@, plans(old(v)@), r@.kinds.len() as int),
{
    let ghost start = plans(v@);
    let ghost ks = r@.kinds;
    let n = r.kinds.len();
    assert(ks.len() == n);
    let mut i: usize = 0;
    while i < n
        invariant
            i <= n,
            n == r.kinds@.len(),
            ks == r@.kinds,
            plans(v@) == singles_to(r@, start, i as int),
        decreases n - i,
    {
        assert(ks[i as int] == r.kinds@[i as int]@);
        assert(plans(v@).len() == v@.len());
        if r.kind_count(&r.kinds[i]) == 1 {
            let kind = Some(r.kinds[i].clone());
            if let Some(keep) = keeper_of(v, &kind) {
                make_single(r, v, &kind, keep);
            }
        }
        i += 1;
    }
}

proof fn lemma_single_len(r: Styles, v: Seq<PagePlan>, kind: Seq<char>, keep: int, n: int)
    requires
        0 <= n,
    ensures
        single_to(r, v, kind, keep, n).len() == n,
    decreases n,
{
    if n > 0 {
        lemma_single_len(r, v, kind, keep, n - 1);
    }
}

pub proof fn lemma_singles_len(r: Styles, v: Seq<PagePlan>, n: int)
    ensures
        singles_to(r, v, n).len() == v.len(),
    decreases n,
{
    if n > 0 {
        lemma_singles_len(r, v, n - 1);
        let before = singles_to(r, v, n - 1);
        let kind = r.kinds[n - 1];
        if let Some(k) = keeper_to(before, kind, before.len() as int) {
            lemma_single_len(r, before, kind, k, before.len() as int);
        }
    }
}

} // verus!
