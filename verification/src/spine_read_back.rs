//! A spine that is written is read back.
use vstd::prelude::*;

use crate::escaping;
use crate::markup;
use crate::metadata_edit;
use crate::opf;
use crate::read_back;
use crate::spine_repair;
use crate::text;
use crate::spine_repair::Slot;

verus! {

/// Where the text behind the first `k` slots starts, when the search for slots
/// starts at `i`.
pub open spec fn edge(v: Seq<Slot>, i: int, k: int) -> int {
    if k <= 0 {
        i
    } else {
        v[k - 1].end
    }
}

/// The slot is the first `itemref` tag from `i` on, before `b`.
pub open spec fn slot_at(t: Seq<char>, i: int, b: int, s: Slot) -> bool {
    &&& 0 <= i <= s.start
    &&& s.start + 8 < s.end <= b <= t.len()
    &&& text::is_at(t, "<itemref"@, s.start)
    &&& t[s.end - 1] == '>'
    &&& forall|k: int| s.start <= k < s.end - 1 ==> #[trigger] t[k] != '>'
    &&& forall|m: int| i <= m < s.start ==> !#[trigger] text::is_at(t, "<itemref"@, m)
    &&& s.id == opf::or_empty(markup::spec_attr_value(t.subrange(s.start, s.end), "idref"@))
}

pub proof fn lemma_itemref()
    ensures
        "<itemref"@ == seq!['<', 'i', 't', 'e', 'm', 'r', 'e', 'f'],
        "<spine"@ == seq!['<', 's', 'p', 'i', 'n', 'e'],
        "</spine>"@ == seq!['<', '/', 's', 'p', 'i', 'n', 'e', '>'],
{
    reveal_strlit("<itemref");
    reveal_strlit("<spine");
    reveal_strlit("</spine>");
    assert("<itemref"@ =~= seq!['<', 'i', 't', 'e', 'm', 'r', 'e', 'f']);
    assert("<spine"@ =~= seq!['<', 's', 'p', 'i', 'n', 'e']);
    assert("</spine>"@ =~= seq!['<', '/', 's', 'p', 'i', 'n', 'e', '>']);
}

/// In a text cut at `b` a word stands where it stands in the text.
proof fn lemma_taken(t: Seq<char>, b: int, p: Seq<char>, m: int)
    requires
        0 <= b <= t.len(),
    ensures
        text::is_at(t.take(b), p, m) == (text::is_at(t, p, m) && m + p.len() <= b),
{
    if 0 <= m && m + p.len() <= b {
        assert(t.take(b).subrange(m, m + p.len()) =~= t.subrange(m, m + p.len()));
    }
}

/// The first slot of a search, and what is left.
proof fn lemma_first_slot(t: Seq<char>, i: int, b: int)
    requires
        0 <= i <= b <= t.len(),
        spine_repair::slots_from(t, i, b).len() > 0,
    ensures
        ({
            let v = spine_repair::slots_from(t, i, b);
            &&& slot_at(t, i, b, v[0])
            &&& v == seq![v[0]] + spine_repair::slots_from(t, v[0].end, b)
        }),
{
    lemma_itemref();
    let p = "<itemref"@;
    let c = t.take(b);
    text::lemma_find(c, p, i);
    let a = text::spec_find(c, p, i)->0;
    text::lemma_find_char(c, '>', a);
    let g = text::spec_find_char(c, '>', a)->0;
    lemma_taken(t, b, p, a);
    let v = spine_repair::slots_from(t, i, b);
    assert(v[0].start == a && v[0].end == g + 1);
    assert(t.subrange(a, a + 8) =~= p);
    assert forall|k: int| a <= k < a + 8 implies #[trigger] t[k] != '>' by {
        assert(t.subrange(a, a + 8)[k - a] == p[k - a]);
    }
    assert(c[g] == t[g]);
    assert forall|k: int| a <= k < g implies #[trigger] t[k] != '>' by {
        assert(c[k] == t[k]);
    }
    assert forall|m: int| i <= m < a implies !#[trigger] text::is_at(t, p, m) by {
        lemma_taken(t, b, p, m);
        assert(!text::is_at(c, p, m));
    }
    assert(v =~= seq![v[0]] + spine_repair::slots_from(t, g + 1, b));
}

/// Every slot of a search is the first `itemref` tag behind the one before it,
/// and behind the last there is none.
pub proof fn lemma_slots(t: Seq<char>, i: int, b: int, k: int)
    requires
        0 <= i <= b <= t.len(),
        0 <= k <= spine_repair::slots_from(t, i, b).len(),
    ensures
        ({
            let v = spine_repair::slots_from(t, i, b);
            &&& k < v.len() ==> slot_at(t, edge(v, i, k), b, v[k])
            &&& i <= edge(v, i, k) <= b
            &&& spine_repair::slots_from(t, edge(v, i, k), b) == v.subrange(k, v.len() as int)
        }),
    decreases k,
{
    let v = spine_repair::slots_from(t, i, b);
    if k == 0 {
        if v.len() > 0 {
            lemma_first_slot(t, i, b);
        }
        assert(v.subrange(0, v.len() as int) =~= v);
    } else {
        lemma_slots(t, i, b, k - 1);
        let e = edge(v, i, k - 1);
        let w = spine_repair::slots_from(t, e, b);
        assert(w[0] == v[k - 1]);
        lemma_first_slot(t, e, b);
        assert(w.subrange(1, w.len() as int) =~= spine_repair::slots_from(t, w[0].end, b));
        assert(w.subrange(1, w.len() as int) =~= v.subrange(k, v.len() as int));
        if k < v.len() {
            let u = spine_repair::slots_from(t, w[0].end, b);
            assert(u[0] == v[k]);
            lemma_first_slot(t, w[0].end, b);
        }
    }
}

// ---------------------------------------------------------------- the text with its tags in order

pub proof fn lemma_slot_of(v: Seq<Slot>, id: Seq<char>, skip: int, i: int)
    requires
        0 <= i,
    ensures
        spine_repair::slot_of(v, id, skip, i) matches Some(s) ==> s.id == id && exists|k: int|
            0 <= k < v.len() && #[trigger] v[k] == s,
    decreases v.len() - i,
{
    if i < v.len() {
        if v[i].id == id && skip > 0 {
            lemma_slot_of(v, id, skip - 1, i + 1);
        } else if v[i].id != id {
            lemma_slot_of(v, id, skip, i + 1);
        }
    }
}

pub proof fn lemma_none_missing(v: Seq<Slot>, order: Seq<Seq<char>>, n: int, k: int)
    requires
        0 <= n <= k < v.len(),
        spine_repair::missing_from(v, order, n) is None,
    ensures
        spine_repair::source_of(v, order, k) is Some,
    decreases k - n,
{
    if n < k {
        lemma_none_missing(v, order, n + 1, k);
    }
}

/// The text up to the end of the first `k` slots once they are filled.
pub open spec fn done(t: Seq<char>, v: Seq<Slot>, order: Seq<Seq<char>>, k: int) -> Seq<char> {
    spine_repair::filled(t, v, order, k)->0
}

/// What is written between the slots before `k`, and at `k`.
pub proof fn lemma_done(t: Seq<char>, v: Seq<Slot>, order: Seq<Seq<char>>, k: int)
    requires
        0 <= k <= v.len(),
        spine_repair::missing_from(v, order, 0) is None,
    ensures
        spine_repair::filled(t, v, order, k) is Some,
        k < v.len() ==> done(t, v, order, k + 1) == done(t, v, order, k) + t.subrange(
            edge(v, 0, k),
            v[k].start,
        ) + t.subrange(
            spine_repair::source_of(v, order, k)->0.start,
            spine_repair::source_of(v, order, k)->0.end,
        ),
    decreases k,
{
    if k > 0 {
        lemma_done(t, v, order, k - 1);
        lemma_none_missing(v, order, 0, k - 1);
    }
    if k < v.len() {
        lemma_none_missing(v, order, 0, k);
    }
}

/// What is written for the first slots stands at the start of what is written
/// for more.
proof fn lemma_done_prefix(t: Seq<char>, v: Seq<Slot>, order: Seq<Seq<char>>, k: int, n: int)
    requires
        0 <= k <= n <= v.len(),
        spine_repair::missing_from(v, order, 0) is None,
    ensures
        done(t, v, order, k).len() <= done(t, v, order, n).len(),
        done(t, v, order, n).subrange(0, done(t, v, order, k).len() as int) == done(
            t,
            v,
            order,
            k,
        ),
    decreases n - k,
{
    let d = done(t, v, order, k);
    if k == n {
        assert(d.subrange(0, d.len() as int) =~= d);
    } else {
        lemma_done_prefix(t, v, order, k, n - 1);
        lemma_done(t, v, order, n - 1);
        let e = done(t, v, order, n - 1);
        let f = done(t, v, order, n);
        assert(f.subrange(0, d.len() as int) =~= e.subrange(0, d.len() as int));
    }
}

/// The text with its slots filled.
spec fn whole(t: Seq<char>, v: Seq<Slot>, order: Seq<Seq<char>>) -> Seq<char> {
    done(t, v, order, v.len() as int) + t.subrange(edge(v, 0, v.len() as int), t.len() as int)
}

/// Where the `k`-th slot starts in the filled text.
spec fn slot_start(t: Seq<char>, v: Seq<Slot>, order: Seq<Seq<char>>, k: int) -> int {
    done(t, v, order, k).len() + (v[k].start - edge(v, 0, k))
}

/// The slots are those of a search in `t` from `a` to `b`, and the order names
/// them.
spec fn is_arranged(
    t: Seq<char>,
    a: int,
    b: int,
    v: Seq<Slot>,
    order: Seq<Seq<char>>,
) -> bool {
    &&& 0 <= a <= b <= t.len()
    &&& v == spine_repair::slots_from(t, a, b)
    &&& v.len() == order.len()
    &&& v.len() > 0
    &&& spine_repair::missing_from(v, order, 0) is None
}

/// What is written at the `k`-th slot and before it.
proof fn lemma_chars(
    t: Seq<char>,
    a: int,
    b: int,
    v: Seq<Slot>,
    order: Seq<Seq<char>>,
    k: int,
)
    requires
        is_arranged(t, a, b, v, order),
        0 <= k < v.len(),
    ensures
        ({
            let new = whole(t, v, order);
            let d = done(t, v, order, k).len() as int;
            let s = slot_start(t, v, order, k);
            let e = done(t, v, order, k + 1).len() as int;
            let src = spine_repair::source_of(v, order, k)->0;
            &&& spine_repair::source_of(v, order, k) is Some
            &&& src.id == order[k]
            &&& exists|j: int| 0 <= j < v.len() && #[trigger] v[j] == src
            &&& d <= s < e <= new.len()
            &&& e == s + (src.end - src.start)
            &&& forall|x: int| d <= x < s ==> #[trigger] new[x] == t[edge(v, 0, k) + x - d]
            &&& forall|x: int| s <= x < e ==> #[trigger] new[x] == t[src.start + x - s]
        }),
{
    let n = v.len() as int;
    let new = whole(t, v, order);
    lemma_none_missing(v, order, 0, k);
    lemma_slot_of(v, order[k], spine_repair::count_to(order, order[k], k), 0);
    let src = spine_repair::source_of(v, order, k)->0;
    let j = choose|j: int| 0 <= j < v.len() && #[trigger] v[j] == src;
    lemma_slots(t, a, b, j);
    lemma_slots(t, a, b, k);
    lemma_done(t, v, order, k);
    lemma_done_prefix(t, v, order, k + 1, n);
    let here = done(t, v, order, k + 1);
    let e = here.len() as int;
    let all = done(t, v, order, n);
    assert forall|x: int| 0 <= x < e implies #[trigger] new[x] == here[x] by {
        assert(all.subrange(0, e)[x] == here[x]);
    }
    let d = done(t, v, order, k).len() as int;
    let s = slot_start(t, v, order, k);
    assert(0 <= edge(v, 0, k) <= v[k].start);
    assert forall|x: int| d <= x < s implies #[trigger] new[x] == t[edge(v, 0, k) + x - d] by {
        assert(new[x] == here[x]);
    }
    assert forall|x: int| s <= x < e implies #[trigger] new[x] == t[src.start + x - s] by {
        assert(new[x] == here[x]);
    }
}

/// The `k`-th slot of the filled text: the tag of the id that the order names.
#[verifier::rlimit(30)]
proof fn lemma_slot_found(
    t: Seq<char>,
    a: int,
    b: int,
    v: Seq<Slot>,
    order: Seq<Seq<char>>,
    k: int,
    end: int,
)
    requires
        is_arranged(t, a, b, v, order),
        0 <= k < v.len(),
        done(t, v, order, k + 1).len() <= end <= whole(t, v, order).len(),
    ensures
        slot_at(
            whole(t, v, order),
            if k == 0 {
                a
            } else {
                done(t, v, order, k).len() as int
            },
            end,
            Slot {
                start: slot_start(t, v, order, k),
                end: done(t, v, order, k + 1).len() as int,
                id: order[k],
            },
        ),
{
    lemma_itemref();
    let p = "<itemref"@;
    let new = whole(t, v, order);
    let d = done(t, v, order, k).len() as int;
    let s = slot_start(t, v, order, k);
    let e = done(t, v, order, k + 1).len() as int;
    let src = spine_repair::source_of(v, order, k)->0;
    lemma_chars(t, a, b, v, order, k);
    let j = choose|j: int| 0 <= j < v.len() && #[trigger] v[j] == src;
    lemma_slots(t, a, b, j);
    lemma_slots(t, a, b, k);
    assert(new.subrange(s, e) =~= t.subrange(src.start, src.end));
    assert(new.subrange(s, s + 8) =~= t.subrange(src.start, src.start + 8));
    assert(new[e - 1] == t[src.end - 1]);
    assert forall|x: int| s <= x < e - 1 implies #[trigger] new[x] != '>' by {
        assert(t[src.start + x - s] != '>');
    }
    assert(new.subrange(s, s + 8)[0] == '<');
    assert(new[s] == '<');
    let lo = if k == 0 {
        a
    } else {
        d
    };
    assert forall|m: int| lo <= m < s implies !#[trigger] text::is_at(new, p, m) by {
        if text::is_at(new, p, m) {
            let y = edge(v, 0, k) + m - d;
            if m + 8 <= s {
                assert forall|x: int| 0 <= x < 8 implies t[y + x] == p[x] by {
                    assert(new.subrange(m, m + 8)[x] == p[x]);
                    assert(new[m + x] == t[edge(v, 0, k) + (m + x) - d]);
                }
                assert(t.subrange(y, y + 8) =~= p);
                assert(text::is_at(t, p, y));
            } else {
                assert(new.subrange(m, m + 8)[s - m] == p[s - m]);
            }
        }
    }
}

/// A search finds the slot that is there.
proof fn lemma_unfold(t: Seq<char>, i: int, b: int, s: Slot)
    requires
        slot_at(t, i, b, s),
    ensures
        spine_repair::slots_from(t, i, b) == seq![s] + spine_repair::slots_from(t, s.end, b),
{
    lemma_itemref();
    let p = "<itemref"@;
    let c = t.take(b);
    lemma_taken(t, b, p, s.start);
    assert forall|m: int| i <= m < s.start implies !#[trigger] text::is_at(c, p, m) by {
        lemma_taken(t, b, p, m);
        assert(!text::is_at(t, p, m));
    }
    metadata_edit::lemma_find_is(c, p, i, s.start);
    assert(c[s.end - 1] == t[s.end - 1]);
    assert forall|k: int| s.start <= k < s.end - 1 implies #[trigger] c[k] != '>' by {
        assert(c[k] == t[k]);
    }
    read_back::lemma_find_char_is(c, '>', s.start, s.end - 1);
    assert(spine_repair::slots_from(t, i, b) =~= seq![s] + spine_repair::slots_from(
        t,
        s.end,
        b,
    ));
}

/// Where there is no slot in a text, there is none in a copy of it.
proof fn lemma_no_slot_moved(t: Seq<char>, x: int, b: int, new: Seq<char>, y: int, end: int)
    requires
        0 <= x <= b <= t.len(),
        0 <= y <= end <= new.len(),
        t.subrange(x, b) == new.subrange(y, end),
        spine_repair::slots_from(t, x, b).len() == 0,
    ensures
        spine_repair::slots_from(new, y, end).len() == 0,
{
    if spine_repair::slots_from(new, y, end).len() > 0 {
        lemma_first_slot(new, y, end);
        let s = spine_repair::slots_from(new, y, end)[0];
        let w = t.subrange(x, b);
        assert(w.len() == b - x && new.subrange(y, end).len() == end - y);
        let r = Slot { start: s.start - y + x, end: s.end - y + x, id: s.id };
        assert forall|k: int| y <= k < end implies #[trigger] new[k] == t[k - y + x] by {
            assert(new.subrange(y, end)[k - y] == w[k - y]);
        }
        assert(t.subrange(r.start, r.end) =~= new.subrange(s.start, s.end));
        assert(t.subrange(r.start, r.start + 8) =~= new.subrange(s.start, s.start + 8));
        lemma_itemref();
        assert(t[r.end - 1] == new[s.end - 1]);
        assert forall|k: int| r.start <= k < r.end - 1 implies #[trigger] t[k] != '>' by {
            assert(new[k - x + y] == t[k]);
        }
        assert forall|m: int| x <= m < r.start implies !#[trigger] text::is_at(
            t,
            "<itemref"@,
            m,
        ) by {
            if text::is_at(t, "<itemref"@, m) {
                let q = m - x + y;
                if m + 8 <= b {
                    assert(new.subrange(q, q + 8) =~= t.subrange(m, m + 8));
                    assert(text::is_at(new, "<itemref"@, q));
                }
            }
        }
        lemma_unfold(t, x, b, r);
    }
}

/// The ids of slots.
pub open spec fn slot_ids(v: Seq<Slot>) -> Seq<Seq<char>> {
    v.map_values(|s: Slot| s.id)
}

/// The slots of the filled text from the `k`-th on name what the order names.
proof fn lemma_new_slots(
    t: Seq<char>,
    a: int,
    b: int,
    v: Seq<Slot>,
    order: Seq<Seq<char>>,
    k: int,
)
    requires
        is_arranged(t, a, b, v, order),
        0 <= k <= v.len(),
    ensures
        ({
            let n = v.len() as int;
            let end = b + done(t, v, order, n).len() - edge(v, 0, n);
            let from = if k == 0 {
                a
            } else {
                done(t, v, order, k).len() as int
            };
            slot_ids(spine_repair::slots_from(whole(t, v, order), from, end)) == order.subrange(k, n)
        }),
    decreases v.len() - k,
{
    let n = v.len() as int;
    let new = whole(t, v, order);
    let d = done(t, v, order, n).len() as int;
    let x = edge(v, 0, n);
    let end = b + d - x;
    lemma_slots(t, a, b, n);
    assert(0 <= x <= b);
    assert(new.len() == d + t.len() - x);
    if k == n {
        let rest = spine_repair::slots_from(t, x, b);
        assert(rest =~= v.subrange(n, n));
        assert(new.subrange(d, end) =~= t.subrange(x, b)) by {
            assert forall|i: int| d <= i < end implies new[i] == t[i - d + x] by {
                assert(new[i] == t.subrange(x, t.len() as int)[i - d]);
            }
        }
        lemma_no_slot_moved(t, x, b, new, d, end);
        assert(slot_ids(spine_repair::slots_from(new, d, end)) =~= order.subrange(n, n));
    } else {
        lemma_done_prefix(t, v, order, k + 1, n);
        lemma_slot_found(t, a, b, v, order, k, end);
        lemma_new_slots(t, a, b, v, order, k + 1);
        let from = if k == 0 {
            a
        } else {
            done(t, v, order, k).len() as int
        };
        let s = Slot {
            start: slot_start(t, v, order, k),
            end: done(t, v, order, k + 1).len() as int,
            id: order[k],
        };
        lemma_unfold(new, from, end, s);
        assert(slot_ids(spine_repair::slots_from(new, from, end)) =~= seq![order[k]] + slot_ids(
            spine_repair::slots_from(new, s.end, end),
        ));
        assert(order.subrange(k, n) =~= seq![order[k]] + order.subrange(k + 1, n));
    }
}

// ---------------------------------------------------------------- the bounds of the spine

/// No end of a spine stands in `t` from `a` up to `b`.
spec fn unclosed(t: Seq<char>, a: int, b: int) -> bool {
    forall|m: int| a <= m < b ==> !#[trigger] text::is_at(t, "</spine>"@, m)
}

proof fn lemma_unclosed(
    t: Seq<char>,
    a: int,
    b: int,
    v: Seq<Slot>,
    order: Seq<Seq<char>>,
    k: int,
)
    requires
        is_arranged(t, a, b, v, order),
        unclosed(t, a, b),
        0 <= k <= v.len(),
    ensures
        unclosed(whole(t, v, order), a, done(t, v, order, k).len() as int),
    decreases k,
{
    if k > 0 {
        let j = k - 1;
        lemma_unclosed(t, a, b, v, order, j);
        lemma_itemref();
        let p = "</spine>"@;
        let new = whole(t, v, order);
        let d = done(t, v, order, j).len() as int;
        let s = slot_start(t, v, order, j);
        let e = done(t, v, order, k).len() as int;
        let src = spine_repair::source_of(v, order, j)->0;
        lemma_chars(t, a, b, v, order, j);
        let i = choose|i: int| 0 <= i < v.len() && #[trigger] v[i] == src;
        lemma_slots(t, a, b, i);
        lemma_slots(t, a, b, j);
        let g = edge(v, 0, j);
        assert(t.subrange(src.start, src.start + 8)[0] == '<');
        assert(new[s] == '<');
        assert(new[e - 1] == '>');
        assert forall|m: int| a <= m < e implies !#[trigger] text::is_at(new, p, m) by {
            if text::is_at(new, p, m) {
                if m < d {
                } else if m < s {
                    if m + 8 <= s {
                        let y = g + m - d;
                        assert(t.subrange(y, y + 8) =~= new.subrange(m, m + 8));
                        assert(text::is_at(t, p, y));
                    } else {
                        assert(new.subrange(m, m + 8)[s - m] == p[s - m]);
                    }
                } else {
                    if m + 8 <= e {
                        let y = src.start + m - s;
                        assert(t.subrange(y, y + 8) =~= new.subrange(m, m + 8));
                        assert(text::is_at(t, p, y));
                    } else {
                        assert(new.subrange(m, m + 8)[e - 1 - m] == p[e - 1 - m]);
                    }
                }
            }
        }
    }
}

/// The spine of the filled text starts where it did.
proof fn lemma_new_start(t: Seq<char>, a: int, b: int, v: Seq<Slot>, order: Seq<Seq<char>>)
    requires
        is_arranged(t, a, b, v, order),
        text::spec_find(t, "<spine"@, 0) == Some(a),
    ensures
        text::spec_find(whole(t, v, order), "<spine"@, 0) == Some(a),
{
    lemma_itemref();
    let new = whole(t, v, order);
    let open = "<spine"@;
    text::lemma_find(t, open, 0);
    assert(t.subrange(a, a + 6) =~= open);
    lemma_slots(t, a, b, 0);
    lemma_chars(t, a, b, v, order, 0);
    let z = v[0].start;
    assert(slot_start(t, v, order, 0) == z);
    assert(z >= a + 6) by {
        assert(t.subrange(z, z + 8)[0] == '<' && t.subrange(z, z + 8)[1] == 'i');
        if z < a + 6 {
            assert(t.subrange(a, a + 6)[z - a] == t[z]);
            assert(t.subrange(a, a + 6)[1] == t[a + 1]);
        }
    }
    assert(new.subrange(0, z) =~= t.subrange(0, z));
    metadata_edit::lemma_same_find(t, new, open, z, 0, a);
}

/// The spine of the filled text ends where its text ends.
proof fn lemma_new_end(t: Seq<char>, a: int, b: int, v: Seq<Slot>, order: Seq<Seq<char>>)
    requires
        is_arranged(t, a, b, v, order),
        unclosed(t, a, b),
    ensures
        ({
            let n = v.len() as int;
            let d = done(t, v, order, n).len() as int;
            let x = edge(v, 0, n);
            &&& a <= x <= b
            &&& a <= d
            &&& text::spec_find(whole(t, v, order), "</spine>"@, a) == match text::spec_find(
                t,
                "</spine>"@,
                a,
            ) {
                Some(k) => Some(k + d - x),
                None => None,
            }
        }),
{
    let n = v.len() as int;
    let new = whole(t, v, order);
    let d = done(t, v, order, n).len() as int;
    let x = edge(v, 0, n);
    let close = "</spine>"@;
    lemma_slots(t, a, b, 0);
    lemma_slots(t, a, b, n);
    lemma_chars(t, a, b, v, order, 0);
    lemma_done_prefix(t, v, order, 1, n);
    lemma_unclosed(t, a, b, v, order, n);
    let head = new.subrange(0, d);
    let tail = t.subrange(x, t.len() as int);
    assert(new =~= head + tail);
    assert(t =~= t.subrange(0, x) + tail);
    escaping::lemma_find_shift(head, tail, close, 0);
    escaping::lemma_find_shift(t.subrange(0, x), tail, close, 0);
    lemma_find_from(t, close, a, x);
    lemma_find_from(new, close, a, d);
}

/// The spine of the filled text starts where it did, and ends where its text
/// ends.
proof fn lemma_new_span(t: Seq<char>, a: int, b: int, v: Seq<Slot>, order: Seq<Seq<char>>)
    requires
        is_arranged(t, a, b, v, order),
        spine_repair::spine_span(t) == Some((a, b)),
    ensures
        ({
            let n = v.len() as int;
            spine_repair::spine_span(whole(t, v, order)) == Some(
                (a, b + done(t, v, order, n).len() - edge(v, 0, n)),
            )
        }),
{
    text::lemma_find(t, "</spine>"@, a);
    assert(unclosed(t, a, b));
    lemma_new_start(t, a, b, v, order);
    lemma_new_end(t, a, b, v, order);
}

/// A search that finds nothing before `j` is a search from there.
proof fn lemma_find_from(t: Seq<char>, p: Seq<char>, i: int, j: int)
    requires
        0 <= i <= j <= t.len(),
        forall|m: int| i <= m < j ==> !#[trigger] text::is_at(t, p, m),
    ensures
        text::spec_find(t, p, i) == text::spec_find(t, p, j),
    decreases j - i,
{
    if i < j {
        assert(!text::is_at(t, p, i));
        lemma_find_from(t, p, i + 1, j);
        text::lemma_find(t, p, j);
        if i + p.len() > t.len() {
            assert(text::spec_find(t, p, j) is None);
        }
    }
}

/// An order that is written is read back: the `itemref` tags of the rewritten
/// package document, in the bounds of its spine, name the ids of the order, one
/// after the other.
pub proof fn a_written_order_is_read_back(t: Seq<char>, order: Seq<Seq<char>>)
    ensures
        spine_repair::spec_permute(t, order) matches Ok(new) ==> (
        spine_repair::spine_span(new) matches Some((a, b)) && slot_ids(
            spine_repair::slots_from(new, a, b),
        ) == order),
{
    if let Ok(new) = spine_repair::spec_permute(t, order) {
        let (a, b) = spine_repair::spine_span(t)->0;
        lemma_itemref();
        text::lemma_find(t, "<spine"@, 0);
        text::lemma_find(t, "</spine>"@, a);
        let v = spine_repair::slots_from(t, a, b);
        if v.len() == 0 {
            assert(new =~= t);
            assert(slot_ids(v) =~= order);
        } else {
            assert(new == whole(t, v, order));
            lemma_new_span(t, a, b, v, order);
            lemma_new_slots(t, a, b, v, order, 0);
            assert(order.subrange(0, v.len() as int) =~= order);
        }
    }
}

} // verus!
