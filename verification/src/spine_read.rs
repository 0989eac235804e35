//! A spine that is written into a book is the spine that the book is read to
//! have.
use vstd::prelude::*;

use crate::archive::Part;
use crate::error::Fault;
use crate::opf::{Book, Opf, OpfItem};
use crate::spine_read_back::{done, edge, slot_at, slot_ids};
use crate::spine_repair::{Doc, Slot};
use crate::tidy::{behind, from, has_tag, is_tidy, lead, local, piece, read, refs, tail};
use crate::{archive, codec, edit, opf, package, plain_opf, spine_read_back, spine_repair, structure, text, tidy};

verus! {

// ---------------------------------------------------------------- reading in parts

/// Only the fields are read for what stands behind them.
proof fn lemma_behind_counts(p: Opf, name: Seq<char>, tag: Seq<char>, a: Seq<char>, b: Seq<char>)
    requires
        !tidy::is_field(opf::spec_local(name)),
    ensures
        opf::tag_met(p, name, tag, a) == opf::tag_met(p, name, tag, b),
{
    reveal(tidy::is_field);
}

/// The text starts with a tag.
pub open spec fn starts_tag(y: Seq<char>) -> bool {
    y.len() >= 2 && y[0] == '<' && !tidy::is_aside(y)
}

/// Two texts are read one after the other.
pub proof fn lemma_read_join(x: Seq<char>, y: Seq<char>, p: Opf)
    requires
        is_tidy(x),
        tidy::is_settled(x) || starts_tag(y),
    ensures
        read(x + y, p) == read(y, read(x, p)),
    decreases x.len(),
{
    if x.len() == 0 {
        assert(x + y =~= y);
    } else {
        tidy::lemma_tail(x);
        tidy::lemma_tidy_tail(x);
        tidy::lemma_join_tail(x, y);
        let r = tail(x);
        if x[0] == '<' && tidy::is_start(x) {
            let c = piece(x);
            tidy::lemma_lead_join(r, y);
            if !has_tag(r) && starts_tag(y) {
                assert(lead(y).len() == 0);
                assert(r + lead(y) =~= r);
            }
            if tidy::is_field(local(c)) {
                assert(behind(r + y) == behind(r));
            } else {
                lemma_behind_counts(p, tidy::piece_name(c), c, behind(r + y), behind(r));
            }
            lemma_read_join(r, y, opf::tag_met(p, tidy::piece_name(c), c, behind(r)));
        } else {
            lemma_read_join(r, y, p);
        }
    }
}

/// The spine that was read before has no part in what is read.
proof fn lemma_spine_apart(s: Seq<char>, p: Opf, z: Seq<Seq<char>>)
    requires
        is_tidy(s),
    ensures
        read(s, Opf { spine: z, ..p }) == (Opf { spine: z + refs(s), ..read(s, p) }),
        read(s, p).spine == p.spine + refs(s),
    decreases s.len(),
{
    tidy::lemma_read_told(s, p);
    if s.len() == 0 {
        assert(z + refs(s) =~= z);
    } else {
        tidy::lemma_tail(s);
        tidy::lemma_tidy_tail(s);
        let r = tail(s);
        if s[0] == '<' && tidy::is_start(s) {
            let c = piece(s);
            let name = tidy::piece_name(c);
            let b = behind(r);
            let q = opf::tag_met(p, name, c, b);
            let pz = Opf { spine: z, ..p };
            let qz = opf::tag_met(pz, name, c, b);
            lemma_one_apart(p, z, name, c, b);
            if local(c) == "itemref"@ && opf::spec_attr(c, "idref"@) is Some {
                let id = opf::spec_attr(c, "idref"@)->0;
                lemma_spine_apart(r, q, z.push(id));
                assert(z.push(id) + refs(r) =~= z + (seq![id] + refs(r)));
            } else {
                lemma_spine_apart(r, q, z);
            }
        } else {
            lemma_spine_apart(r, p, z);
        }
    }
}

proof fn lemma_one_apart(p: Opf, z: Seq<Seq<char>>, name: Seq<char>, c: Seq<char>, b: Seq<char>)
    ensures
        ({
            let q = opf::tag_met(p, name, c, b);
            let qz = opf::tag_met(Opf { spine: z, ..p }, name, c, b);
            qz == (Opf {
                spine: if opf::spec_local(name) == "itemref"@ && opf::spec_attr(c, "idref"@) is Some {
                    z.push(opf::spec_attr(c, "idref"@)->0)
                } else {
                    z
                },
                ..q
            })
        }),
{
    tidy::lemma_names_differ();
}

// ---------------------------------------------------------------- slots and pieces

/// The tag of a slot.
pub open spec fn slot_tag(t: Seq<char>, s: Slot) -> Seq<char> {
    t.subrange(s.start, s.end)
}

/// The reader of package documents takes the `itemref` tags of the spine as they
/// are found, and no others: each stands outside of comments and refers to its id,
/// and no other tag refers to a document. What is left open in the markup, such as a
/// comment without an end, may take in what is moved behind it.
pub open spec fn is_read_as_found(t: Seq<char>) -> bool {
    &&& is_tidy(t)
    &&& spine_repair::spine_span(t) matches Some((a, b)) && {
        let v = spine_repair::slots_from(t, a, b);
        &&& refs(t).len() == v.len()
        &&& forall|k: int|
            0 <= k < v.len() ==> tidy::is_cut(t, (#[trigger] v[k]).start) && tidy::is_piece(
                slot_tag(t, v[k]),
            ) && refs(slot_tag(t, v[k])) == seq![v[k].id]
    }
}

/// A slot is a piece of a tidy text.
proof fn lemma_slot_piece(t: Seq<char>, i: int, b: int, s: Slot)
    requires
        is_tidy(t),
        slot_at(t, i, b, s),
        tidy::is_cut(t, s.start),
        tidy::is_piece(slot_tag(t, s)),
    ensures
        tidy::is_cut(t, s.end),
        starts_tag(slot_tag(t, s)),
        is_tidy(slot_tag(t, s)),
        !tidy::is_field(local(slot_tag(t, s))) ==> tidy::is_settled(slot_tag(t, s)),
        has_tag(slot_tag(t, s)),
{
    spine_read_back::lemma_itemref();
    assert(t.subrange(s.start, s.start + 8)[0] == t[s.start]);
    assert(t.subrange(s.start, s.start + 8)[1] == t[s.start + 1]);
    let c = slot_tag(t, s);
    assert(c[0] == '<' && c[1] == 'i');
    plain_opf::lemma_one_piece(c, Seq::empty());
    let none = tail(c);
    assert(tidy::is_settled(none));
    tidy::lemma_tidy_cut(t, s.start);
    let x = t.subrange(0, s.start);
    let y = from(t, s.start);
    assert(y.subrange(0, c.len() as int) =~= c);
    tidy::lemma_piece_first(y, c);
    assert(tidy::is_cut(tail(y), 0));
    assert(tidy::is_cut(y, c.len() as int));
    tidy::lemma_cut_join(x, y, c.len() as int);
}

/// Text that ends with a tag that is no field's is settled.
proof fn lemma_settled_tag(x: Seq<char>, c: Seq<char>)
    requires
        is_tidy(x),
        is_tidy(c),
        has_tag(c),
        tidy::is_settled(c),
    ensures
        tidy::is_settled(x + c),
    decreases x.len(),
{
    if x.len() == 0 {
        assert(x + c =~= c);
    } else {
        tidy::lemma_tail(x);
        tidy::lemma_tidy_tail(x);
        tidy::lemma_join_tail(x, c);
        lemma_settled_tag(tail(x), c);
        tidy::lemma_has_tag_join(tail(x), c);
    }
}

/// A tag that refers to something is no field's.
proof fn lemma_ref_is_no_field(c: Seq<char>)
    requires
        tidy::is_piece(c),
        refs(c).len() > 0,
    ensures
        !tidy::is_field(local(c)),
        local(c) == "itemref"@,
        tidy::is_start(c),
{
    plain_opf::lemma_one_piece(c, Seq::empty());
    let none = tail(c);
    assert(refs(none).len() == 0);
    tidy::lemma_ends(c);
    tidy::lemma_names_differ();
    reveal(tidy::is_field);
}

/// A reference is read into the spine, and nothing else.
proof fn lemma_read_ref(c: Seq<char>, p: Opf, id: Seq<char>)
    requires
        tidy::is_piece(c),
        refs(c) == seq![id],
    ensures
        read(c, p) == (Opf { spine: p.spine.push(id), ..p }),
{
    lemma_ref_is_no_field(c);
    plain_opf::lemma_one_piece(c, Seq::empty());
    tidy::lemma_ends(c);
    let none = tail(c);
    assert(refs(none) =~= Seq::empty());
    tidy::lemma_names_differ();
    let q = opf::tag_met(p, tidy::piece_name(c), c, behind(none));
    assert(read(none, q) == q);
    match opf::spec_attr(c, "idref"@) {
        Some(x) => {
            assert(refs(c) == seq![x] + refs(none));
            assert((seq![x] + refs(none))[0] == x);
            assert(seq![id][0] == id);
        },
        None => {
            assert(refs(c) == refs(none));
        },
    }
}

/// The slots of a spine that is read as it is found.
spec fn found(t: Seq<char>) -> Seq<Slot> {
    let (a, b) = spine_repair::spine_span(t)->0;
    spine_repair::slots_from(t, a, b)
}

/// The text up to the end of the first `k` slots.
spec fn upto(t: Seq<char>, k: int) -> Seq<char> {
    t.subrange(0, edge(found(t), 0, k))
}

/// The text between the slot before the `k`-th and the `k`-th.
spec fn gap(t: Seq<char>, k: int) -> Seq<char> {
    t.subrange(edge(found(t), 0, k), found(t)[k].start)
}

proof fn lemma_span(t: Seq<char>)
    requires
        is_read_as_found(t),
    ensures
        ({
            let (a, b) = spine_repair::spine_span(t)->0;
            0 <= a <= b <= t.len()
        }),
{
    let (a, b) = spine_repair::spine_span(t)->0;
    text::lemma_find(t, "<spine"@, 0);
    text::lemma_find(t, "</spine>"@, a);
}

/// A slot is a tag of its own.
proof fn lemma_slot_at(t: Seq<char>, k: int)
    requires
        is_read_as_found(t),
        0 <= k < found(t).len(),
    ensures
        ({
            let s = found(t)[k];
            let c = slot_tag(t, s);
            &&& 0 <= edge(found(t), 0, k) <= s.start < s.end <= t.len()
            &&& tidy::is_cut(t, s.start)
            &&& tidy::is_cut(t, s.end)
            &&& tidy::is_piece(c)
            &&& is_tidy(c)
            &&& starts_tag(c)
            &&& has_tag(c)
            &&& tidy::is_settled(c)
            &&& refs(c) == seq![s.id]
        }),
    decreases k,
{
    lemma_span(t);
    let (a, b) = spine_repair::spine_span(t)->0;
    let v = found(t);
    if k > 0 {
        lemma_slot_at(t, k - 1);
    }
    spine_read_back::lemma_slots(t, a, b, k);
    let s = v[k];
    lemma_slot_piece(t, edge(v, a, k), b, s);
    let c = slot_tag(t, s);
    assert(refs(c) == seq![s.id]);
    lemma_ref_is_no_field(c);
}

/// Where the slots end.
proof fn lemma_edge(t: Seq<char>, k: int)
    requires
        is_read_as_found(t),
        0 <= k <= found(t).len(),
    ensures
        0 <= edge(found(t), 0, k) <= t.len(),
        tidy::is_cut(t, edge(found(t), 0, k)),
        is_tidy(upto(t, k)),
        is_tidy(from(t, edge(found(t), 0, k))),
{
    if k > 0 {
        lemma_slot_at(t, k - 1);
    }
    tidy::lemma_tidy_cut(t, edge(found(t), 0, k));
}

/// Where the slots end, and what they hold.
proof fn lemma_slot(t: Seq<char>, k: int)
    requires
        is_read_as_found(t),
        0 <= k < found(t).len(),
    ensures
        0 <= edge(found(t), 0, k) <= t.len(),
        is_tidy(upto(t, k)),
        is_tidy(from(t, found(t)[k].end)),
        ({
            let s = found(t)[k];
            let c = slot_tag(t, s);
            &&& edge(found(t), 0, k) <= s.start < s.end <= t.len()
            &&& tidy::is_piece(c)
            &&& is_tidy(c)
            &&& starts_tag(c)
            &&& has_tag(c)
            &&& tidy::is_settled(c)
            &&& refs(c) == seq![s.id]
            &&& is_tidy(gap(t, k))
            &&& upto(t, k + 1) == upto(t, k) + gap(t, k) + c
            &&& from(t, edge(found(t), 0, k)) == gap(t, k) + c + from(t, s.end)
        }),
{
    lemma_slot_at(t, k);
    lemma_edge(t, k);
    lemma_edge(t, k + 1);
    let e = edge(found(t), 0, k);
    let s = found(t)[k];
    let c = slot_tag(t, s);
    let r = from(t, e);
    tidy::lemma_cut_from(t, e, s.start);
    tidy::lemma_tidy_cut(r, s.start - e);
    assert(r.subrange(0, s.start - e) =~= gap(t, k));
    assert(upto(t, k + 1) =~= upto(t, k) + gap(t, k) + c);
    assert(r =~= gap(t, k) + c + from(t, s.end));
}

/// The slots before `k` are read, and those from `k` on.
proof fn lemma_at_least(t: Seq<char>, k: int)
    requires
        is_read_as_found(t),
        0 <= k <= found(t).len(),
    ensures
        refs(upto(t, k)).len() >= k,
    decreases k,
{
    if k > 0 {
        lemma_slot(t, k - 1);
        lemma_at_least(t, k - 1);
        let x = upto(t, k - 1);
        let y = gap(t, k - 1);
        let c = slot_tag(t, found(t)[k - 1]);
        tidy::lemma_tidy_join(x, y);
        tidy::lemma_refs_join(x, y);
        tidy::lemma_refs_join(x + y, c);
    }
}

proof fn lemma_at_least_behind(t: Seq<char>, k: int)
    requires
        is_read_as_found(t),
        0 <= k <= found(t).len(),
    ensures
        refs(from(t, edge(found(t), 0, k))).len() >= found(t).len() - k,
    decreases found(t).len() - k,
{
    if k < found(t).len() {
        lemma_slot(t, k);
        lemma_at_least_behind(t, k + 1);
        let y = gap(t, k);
        let c = slot_tag(t, found(t)[k]);
        let z = from(t, found(t)[k].end);
        tidy::lemma_tidy_join(y, c);
        tidy::lemma_refs_join(y, c);
        tidy::lemma_refs_join(y + c, z);
    }
}

/// Between the slots, and behind them, nothing is referred to.
proof fn lemma_gaps(t: Seq<char>, k: int)
    requires
        is_read_as_found(t),
        0 <= k <= found(t).len(),
    ensures
        refs(upto(t, k)).len() == k,
        k < found(t).len() ==> refs(gap(t, k)).len() == 0,
        k == found(t).len() ==> refs(from(t, edge(found(t), 0, k))).len() == 0,
{
    lemma_counted(t, k);
    if k < found(t).len() {
        lemma_counted(t, k + 1);
        lemma_slot(t, k);
        let x = upto(t, k);
        let y = gap(t, k);
        let c = slot_tag(t, found(t)[k]);
        tidy::lemma_tidy_join(x, y);
        tidy::lemma_refs_join(x, y);
        tidy::lemma_refs_join(x + y, c);
    }
}

proof fn lemma_counted(t: Seq<char>, k: int)
    requires
        is_read_as_found(t),
        0 <= k <= found(t).len(),
    ensures
        refs(upto(t, k)).len() == k,
        refs(from(t, edge(found(t), 0, k))).len() == found(t).len() - k,
{
    lemma_at_least(t, k);
    lemma_at_least_behind(t, k);
    lemma_edge(t, k);
    let e = edge(found(t), 0, k);
    assert(t =~= upto(t, k) + from(t, e));
    tidy::lemma_refs_join(upto(t, k), from(t, e));
}

// ---------------------------------------------------------------- the order

/// The text up to the end of the `k`-th slot, and the same with the slots in
/// order, are read alike but for the spine.
proof fn lemma_read_done(t: Seq<char>, order: Seq<Seq<char>>, k: int, p: Opf)
    requires
        is_read_as_found(t),
        order.len() == found(t).len(),
        spine_repair::missing_from(found(t), order, 0) is None,
        0 <= k <= found(t).len(),
        p.spine.len() == 0,
    ensures
        ({
            let d = done(t, found(t), order, k);
            &&& is_tidy(d)
            &&& tidy::is_settled(d)
            &&& tidy::is_settled(upto(t, k))
            &&& read(d, p) == (Opf { spine: order.take(k), ..read(upto(t, k), p) })
        }),
    decreases k,
{
    let v = found(t);
    if k == 0 {
        let none = Seq::<char>::empty();
        assert(done(t, v, order, 0) =~= none);
        assert(upto(t, 0) =~= none);
        plain_opf::lemma_nothing();
        assert(order.take(0) =~= p.spine);
    } else {
        lemma_read_done(t, order, k - 1, p);
        lemma_slot(t, k - 1);
        lemma_gaps(t, k - 1);
        spine_read_back::lemma_done(t, v, order, k - 1);
        spine_read_back::lemma_none_missing(v, order, 0, k - 1);
        let n = order[k - 1];
        spine_read_back::lemma_slot_of(v, n, spine_repair::count_to(order, n, k - 1), 0);
        let src = spine_repair::source_of(v, order, k - 1)->0;
        let j = choose|j: int| 0 <= j < v.len() && #[trigger] v[j] == src;
        lemma_slot(t, j);
        let c = slot_tag(t, v[k - 1]);
        let w = slot_tag(t, src);
        let g = gap(t, k - 1);
        lemma_step(upto(t, k - 1), g, c, p);
        lemma_step(done(t, v, order, k - 1), g, w, p);
        let q = read(upto(t, k - 1), p);
        let z = order.take(k - 1);
        lemma_spine_apart(g, q, z);
        assert(z + refs(g) =~= z);
        let h = read(g, q);
        lemma_read_ref(c, h, v[k - 1].id);
        lemma_read_ref(w, Opf { spine: z, ..h }, n);
        assert(order.take(k) =~= z.push(n));
    }
}

/// Text, a gap and a tag are read one after the other.
proof fn lemma_step(x: Seq<char>, g: Seq<char>, c: Seq<char>, p: Opf)
    requires
        is_tidy(x),
        tidy::is_settled(x),
        is_tidy(g),
        is_tidy(c),
        starts_tag(c),
        has_tag(c),
        tidy::is_settled(c),
    ensures
        is_tidy(x + g + c),
        tidy::is_settled(x + g + c),
        read(x + g + c, p) == read(c, read(g, read(x, p))),
{
    tidy::lemma_tidy_join(x, g);
    tidy::lemma_tidy_join(x + g, c);
    lemma_settled_tag(x + g, c);
    tidy::lemma_tidy_join(g, c);
    assert(x + g + c =~= x + (g + c));
    lemma_read_join(x, g + c, p);
    lemma_read_join(g, c, read(x, p));
}

/// The book with another spine.
pub open spec fn with_spine(b: Book, order: Seq<Seq<char>>) -> Book {
    Book { spine: order, ..b }
}

/// An order that is written is the spine that is read: a package document whose
/// `itemref` tags are read as they are found is read, once they are put in order,
/// to have the order as its spine, and all else as before.
pub proof fn a_written_order_is_the_spine(t: Seq<char>, order: Seq<Seq<char>>)
    requires
        is_read_as_found(t),
        opf::spec_parse_opf(t) is Ok,
    ensures
        spine_repair::spec_permute(t, order) matches Ok(new) ==> opf::spec_parse_opf(new) == Ok::<
            Book,
            Fault,
        >(with_spine(opf::spec_parse_opf(t)->Ok_0, order)),
{
    if let Ok(new) = spine_repair::spec_permute(t, order) {
        let v = found(t);
        let n = v.len() as int;
        let p = tidy::unread();
        let d = done(t, v, order, n);
        let e = edge(v, 0, n);
        let rest = from(t, e);
        lemma_read_done(t, order, n, p);
        lemma_edge(t, n);
        lemma_gaps(t, n);
        assert(new =~= d + rest);
        assert(t =~= upto(t, n) + rest);
        tidy::lemma_tidy_join(d, rest);
        lemma_read_join(d, rest, p);
        lemma_read_join(upto(t, n), rest, p);
        let q = read(upto(t, n), p);
        lemma_spine_apart(rest, q, order.take(n));
        assert(order.take(n) + refs(rest) =~= order);
        tidy::lemma_opf(t);
        tidy::lemma_opf(new);
        let x = read(t, p);
        let y = read(new, p);
        assert(y == (Opf { spine: order, ..x }));
        assert(y.book() =~= with_spine(x.book(), order));
    }
}

/// The same of a book: the order that is set is the spine that the book is read
/// to have. Nothing in the package document asks for another encoding than UTF-8.
pub proof fn a_set_spine_is_read_back(p: Seq<Part>, order: Seq<Seq<char>>)
    requires
        package::spec_package_doc(p) matches Ok(d) && d.path != "META-INF/container.xml"@
            && is_read_as_found(d.text) && (spine_repair::spec_permute(d.text, order) matches Ok(t)
            ==> codec::declares_utf8(vstd::utf8::encode_utf8(t))),
    ensures
        spine_repair::spec_with_order(p, order) matches Ok(q) ==> (package::spec_package_doc(
            q,
        ) matches Ok(d) && d.book == with_spine(package::spec_package_doc(p)->Ok_0.book, order)
            && d.path == package::spec_package_doc(p)->Ok_0.path),
{
    if let Ok(q) = spine_repair::spec_with_order(p, order) {
        let d = package::spec_package_doc(p)->Ok_0;
        let new = spine_repair::spec_permute(d.text, order)->Ok_0;
        let data = vstd::utf8::encode_utf8(new);
        a_written_order_is_the_spine(d.text, order);
        codec::written_text_is_read_back(new);
        edit::replacing_is_surgical(p, d.path, data, "META-INF/container.xml"@);
    }
}

// ---------------------------------------------------------------- every order

/// The slots read are the slots found.
proof fn lemma_refs(t: Seq<char>, k: int)
    requires
        is_read_as_found(t),
        0 <= k <= found(t).len(),
    ensures
        refs(upto(t, k)) == slot_ids(found(t)).take(k),
    decreases k,
{
    let ids = slot_ids(found(t));
    lemma_gaps(t, k);
    if k > 0 {
        lemma_refs(t, k - 1);
        lemma_gaps(t, k - 1);
        lemma_slot(t, k - 1);
        let x = upto(t, k - 1);
        let y = gap(t, k - 1);
        let c = slot_tag(t, found(t)[k - 1]);
        tidy::lemma_tidy_join(x, y);
        tidy::lemma_refs_join(x, y);
        tidy::lemma_refs_join(x + y, c);
        assert(refs(upto(t, k)) =~= refs(x) + refs(c));
        assert(ids.take(k) =~= ids.take(k - 1).push(ids[k - 1]));
    } else {
        assert(refs(upto(t, 0)) =~= ids.take(0));
    }
}

/// The spine of a package document whose `itemref` tags are read as they are
/// found is what the tags name, in order.
pub proof fn the_spine_is_what_is_found(t: Seq<char>)
    requires
        is_read_as_found(t),
        opf::spec_parse_opf(t) is Ok,
    ensures
        spine_repair::spine_span(t) matches Some((a, b)) && opf::spec_parse_opf(t)->Ok_0.spine
            == slot_ids(spine_repair::slots_from(t, a, b)),
{
    let v = found(t);
    let n = v.len() as int;
    let p = tidy::unread();
    lemma_refs(t, n);
    lemma_gaps(t, n);
    lemma_edge(t, n);
    let rest = from(t, edge(v, 0, n));
    assert(t =~= upto(t, n) + rest);
    tidy::lemma_refs_join(upto(t, n), rest);
    assert(refs(t) =~= slot_ids(v).take(n));
    assert(slot_ids(v).take(n) =~= slot_ids(v));
    tidy::lemma_opf(t);
    lemma_spine_apart(t, p, p.spine);
    assert(p.spine + refs(t) =~= refs(t));
}

/// An id that stands more often among the slots from `i` on than are skipped has
/// a slot there.
proof fn lemma_has_slot(v: Seq<Slot>, id: Seq<char>, skip: int, i: int)
    requires
        0 <= i <= v.len(),
        0 <= skip < spine_repair::count_to(slot_ids(v), id, v.len() as int) - spine_repair::count_to(
            slot_ids(v),
            id,
            i,
        ),
    ensures
        spine_repair::slot_of(v, id, skip, i) is Some,
    decreases v.len() - i,
{
    if i < v.len() {
        let ids = slot_ids(v);
        assert(ids[i] == v[i].id);
        assert(spine_repair::count_to(ids, id, i + 1) == spine_repair::count_to(ids, id, i) + if ids[i]
            == id {
            1int
        } else {
            0
        });
        if v[i].id == id {
            if skip > 0 {
                lemma_has_slot(v, id, skip - 1, i + 1);
            }
        } else {
            lemma_has_slot(v, id, skip, i + 1);
        }
    }
}

proof fn lemma_count_grows(v: Seq<Seq<char>>, x: Seq<char>, a: int, b: int)
    requires
        0 <= a <= b,
    ensures
        0 <= spine_repair::count_to(v, x, a) <= spine_repair::count_to(v, x, b),
    decreases b,
{
    if a < b {
        lemma_count_grows(v, x, a, b - 1);
    } else if b > 0 {
        lemma_count_grows(v, x, a - 1, b - 1);
    }
}

proof fn lemma_none_is_missing(v: Seq<Slot>, order: Seq<Seq<char>>, n: int)
    requires
        0 <= n <= v.len(),
        order.len() == v.len(),
        slot_ids(v).to_multiset() == order.to_multiset(),
    ensures
        spine_repair::missing_from(v, order, n) is None,
    decreases v.len() - n,
{
    if n < v.len() {
        lemma_none_is_missing(v, order, n + 1);
        let len = v.len() as int;
        let x = order[n];
        let ids = slot_ids(v);
        spine_repair::lemma_count(ids, x, len);
        spine_repair::lemma_count(order, x, len);
        assert(ids.take(len) =~= ids);
        assert(order.take(len) =~= order);
        lemma_count_grows(order, x, n + 1, len);
        lemma_count_grows(order, x, 0, n);
        lemma_has_slot(v, x, spine_repair::count_to(order, x, n), 0);
    }
}

/// Every order of the spine can be written.
pub proof fn every_order_can_be_written(t: Seq<char>, order: Seq<Seq<char>>)
    requires
        is_read_as_found(t),
        opf::spec_parse_opf(t) matches Ok(b) && b.spine.to_multiset() == order.to_multiset(),
    ensures
        spine_repair::spec_permute(t, order) is Ok,
{
    let v = found(t);
    the_spine_is_what_is_found(t);
    let ids = slot_ids(v);
    ids.to_multiset_ensures();
    order.to_multiset_ensures();
    assert(ids.len() == order.len());
    lemma_none_is_missing(v, order, 0);
}

/// Setting the spine of a book succeeds for every order of its spine but the
/// present one.
pub proof fn every_other_order_can_be_set(p: Seq<Part>, order: Seq<Seq<char>>)
    requires
        package::spec_package_doc(p) matches Ok(d) && is_read_as_found(d.text)
            && d.book.spine.to_multiset() == order.to_multiset() && d.book.spine != order,
    ensures
        spine_repair::spec_with_order(p, order) is Ok,
{
    every_order_can_be_written(package::spec_package_doc(p)->Ok_0.text, order);
}

// ---------------------------------------------------------------- the current spine

pub proof fn lemma_entries_keep_ids(v: Seq<Doc>, flat: Seq<(Seq<char>, Seq<char>)>, k: int)
    requires
        0 <= k <= flat.len(),
    ensures
        spine_repair::idrefs(spine_repair::entries_met(v, flat, k).docs) == spine_repair::idrefs(v),
    decreases k,
{
    if k > 0 {
        lemma_entries_keep_ids(v, flat, k - 1);
        let n = spine_repair::entries_met(v, flat, k - 1);
        let m = spine_repair::entries_met(v, flat, k);
        spine_repair::lemma_doc_at(n.docs, structure::spec_basename(flat[k - 1].1), 0);
        assert(spine_repair::idrefs(m.docs) =~= spine_repair::idrefs(n.docs));
    }
}

/// Every document that the spine names is in the manifest.
pub open spec fn is_declared(b: Book) -> bool {
    forall|i: int| 0 <= i < b.spine.len() ==> opf::item_named(b.items, #[trigger] b.spine[i], 0) is Some
}

proof fn lemma_docs_ids(items: Seq<OpfItem>, spine: Seq<Seq<char>>, base: Seq<char>, n: int)
    requires
        0 <= n <= spine.len(),
        forall|i: int| 0 <= i < n ==> opf::item_named(items, #[trigger] spine[i], 0) is Some,
    ensures
        spine_repair::idrefs(spine_repair::docs_to(items, spine, base, n)) == spine.take(n),
    decreases n,
{
    if n > 0 {
        lemma_docs_ids(items, spine, base, n - 1);
        let before = spine_repair::docs_to(items, spine, base, n - 1);
        let d = spine_repair::docs_to(items, spine, base, n);
        assert(spine.take(n) =~= spine.take(n - 1).push(spine[n - 1]));
        assert(spine_repair::idrefs(d) =~= spine_repair::idrefs(before).push(spine[n - 1]));
    } else {
        assert(spine_repair::idrefs(spine_repair::docs_to(items, spine, base, 0)) =~= spine.take(0));
    }
}

/// The documents without their labels.
pub open spec fn unlabelled(v: Seq<Doc>) -> Seq<Doc> {
    v.map_values(|d: Doc| Doc { label: None, ..d })
}

proof fn lemma_entries_keep_docs(v: Seq<Doc>, flat: Seq<(Seq<char>, Seq<char>)>, k: int)
    requires
        0 <= k <= flat.len(),
    ensures
        unlabelled(spine_repair::entries_met(v, flat, k).docs) == unlabelled(v),
    decreases k,
{
    if k > 0 {
        lemma_entries_keep_docs(v, flat, k - 1);
        let n = spine_repair::entries_met(v, flat, k - 1);
        let m = spine_repair::entries_met(v, flat, k);
        spine_repair::lemma_doc_at(n.docs, structure::spec_basename(flat[k - 1].1), 0);
        assert(unlabelled(m.docs) =~= unlabelled(n.docs));
    }
}

proof fn lemma_docs_unlabelled(items: Seq<OpfItem>, spine: Seq<Seq<char>>, base: Seq<char>, n: int)
    ensures
        unlabelled(spine_repair::docs_to(items, spine, base, n)) == spine_repair::docs_to(
            items,
            spine,
            base,
            n,
        ),
    decreases n,
{
    let v = spine_repair::docs_to(items, spine, base, n);
    if n > 0 {
        lemma_docs_unlabelled(items, spine, base, n - 1);
        let before = spine_repair::docs_to(items, spine, base, n - 1);
        assert forall|i: int| 0 <= i < v.len() implies (#[trigger] v[i]).label is None by {
            if i < before.len() {
                assert(unlabelled(before)[i].label is None);
                assert(v[i] == before[i]);
            }
        }
    }
    assert(unlabelled(v) =~= v);
}

/// The documents of an analysis are those that the spine names.
proof fn lemma_analysed_ids(b: Book, base: Seq<char>, flat: Seq<(Seq<char>, Seq<char>)>)
    ensures
        ({
            let v = spine_repair::analysed(b, base, flat).docs;
            &&& unlabelled(v) == spine_repair::docs_to(
                b.items,
                b.spine,
                base,
                b.spine.len() as int,
            )
            &&& is_declared(b) ==> spine_repair::idrefs(v) == b.spine
        }),
{
    let v = spine_repair::docs_to(b.items, b.spine, base, b.spine.len() as int);
    lemma_entries_keep_docs(v, flat, flat.len() as int);
    lemma_docs_unlabelled(b.items, b.spine, base, b.spine.len() as int);
    lemma_entries_keep_ids(v, flat, flat.len() as int);
    if is_declared(b) {
        lemma_docs_ids(b.items, b.spine, base, b.spine.len() as int);
        assert(b.spine.take(b.spine.len() as int) =~= b.spine);
    }
}

/// The current spine of the EPUB that `set_spine` wrote is the order that was
/// set: its documents are those that the order names and the manifest declares,
/// in that order, each where the manifest says.
pub proof fn the_order_set_is_the_current_spine(
    bytes: Seq<u8>,
    p: Seq<Part>,
    order: Seq<Seq<char>>,
    q: Seq<Part>,
    out: Vec<u8>,
)
    requires
        edit::spec_parse(bytes) == Some(p),
        package::spec_package_doc(p) matches Ok(d) && d.path != "META-INF/container.xml"@
            && is_read_as_found(d.text) && (spine_repair::spec_permute(d.text, order) matches Ok(t)
            ==> codec::declares_utf8(vstd::utf8::encode_utf8(t))),
        spine_repair::spec_with_order(p, order) == Ok::<Seq<Part>, Fault>(q),
        edit::written(Ok(out), q),
        archive::comes_back(edit::packed(q), out@),
    ensures
        ({
            let d = package::spec_package_doc(p)->Ok_0;
            &&& spine_repair::spec_analyze(out@) matches Ok(a) && unlabelled(a.docs)
                == spine_repair::docs_to(
                d.book.items,
                order,
                d.base(),
                order.len() as int,
            ) && (is_declared(with_spine(d.book, order)) ==> spine_repair::idrefs(a.docs) == order)
        }),
{
    a_set_spine_is_read_back(p, order);
    edit::no_member_is_a_directory(bytes, p);
    spine_repair::an_order_touches_only_the_package_document(p, order, "mimetype"@);
    edit::lemma_names_kept(p, q);
    edit::a_written_package_is_read_back(q, out);
    package::packing_keeps_the_package_document(q);
    let z = edit::packed(q);
    let f = package::spec_package_doc(z)->Ok_0;
    lemma_analysed_ids(f.book, f.base(), spine_repair::spec_flatten_declared(z, f.book, f.base()));
}

} // verus!
