//! A repaired archive needs no repair.
use vstd::prelude::*;

use crate::zip_repair;

verus! {

/// A stretch of bytes, from its first up to the one behind its last.
pub type Span = (int, int);

/// Two stretches share no byte.
pub open spec fn apart(a: Span, b: Span) -> bool {
    a.1 <= b.0 || b.1 <= a.0
}

/// The central header at `p` says that its ZIP64 field is real.
pub open spec fn central_needs(b: Seq<u8>, p: int) -> bool {
    zip_repair::le32(b, p + 20) == zip_repair::SENTINEL32 || zip_repair::le32(b, p + 24)
        == zip_repair::SENTINEL32 || zip_repair::le32(b, p + 42) == zip_repair::SENTINEL32
}

/// The local header at `lo` says that its ZIP64 field is real.
pub open spec fn local_needs(b: Seq<u8>, lo: int) -> bool {
    zip_repair::le32(b, lo + 18) == zip_repair::SENTINEL32 || zip_repair::le32(b, lo + 22)
        == zip_repair::SENTINEL32
}

/// The extra-field region at `start`, where its fields are to be relabeled.
pub open spec fn region(b: Seq<u8>, start: int, len: int, needed: bool) -> Seq<Span> {
    if needed || start + len > b.len() {
        Seq::empty()
    } else {
        seq![(start, start + len)]
    }
}

/// The region of the central header at `p`.
pub open spec fn central_region(b: Seq<u8>, p: int) -> Seq<Span> {
    region(
        b,
        p + 46 + zip_repair::le16(b, p + 28),
        zip_repair::le16(b, p + 30),
        central_needs(b, p),
    )
}

/// There is a local header at `lo`.
pub open spec fn is_local(b: Seq<u8>, lo: int) -> bool {
    lo + 30 <= b.len() && zip_repair::le32(b, lo) == zip_repair::SIG_LOCAL
}

/// The region of the local header at `lo`.
pub open spec fn local_region(b: Seq<u8>, lo: int) -> Seq<Span> {
    if is_local(b, lo) {
        region(
            b,
            lo + 30 + zip_repair::le16(b, lo + 26),
            zip_repair::le16(b, lo + 28),
            local_needs(b, lo),
        )
    } else {
        Seq::empty()
    }
}

/// Where the central header behind the one at `p` stands.
pub open spec fn next_entry(b: Seq<u8>, p: int) -> int {
    p + 46 + zip_repair::le16(b, p + 28) + zip_repair::le16(b, p + 30) + zip_repair::le16(
        b,
        p + 32,
    )
}

/// There is a central header at `p`, and one of the `n` entries left.
pub open spec fn is_entry(b: Seq<u8>, p: int, n: int) -> bool {
    n > 0 && p + 46 <= b.len() && zip_repair::le32(b, p) == zip_repair::SIG_CENTRAL
}

/// The regions whose fields a repair relabels, in the order it meets them.
pub open spec fn regions(b: Seq<u8>, p: int, n: int) -> Seq<Span>
    decreases n,
{
    if is_entry(b, p, n) {
        central_region(b, p) + local_region(b, zip_repair::le32(b, p + 42)) + regions(
            b,
            next_entry(b, p),
            n - 1,
        )
    } else {
        Seq::empty()
    }
}

/// The fixed parts of the headers that a repair reads.
pub open spec fn headers(b: Seq<u8>, p: int, n: int) -> Seq<Span>
    decreases n,
{
    if n <= 0 || p + 46 > b.len() {
        Seq::empty()
    } else if !is_entry(b, p, n) {
        seq![(p, p + 46)]
    } else {
        let lo = zip_repair::le32(b, p + 42);
        seq![(p, p + 46)] + (if lo + 30 <= b.len() {
            seq![(lo, lo + 30)]
        } else {
            Seq::empty()
        }) + headers(b, next_entry(b, p), n - 1)
    }
}

/// The records at the end of an archive that say where its central directory
/// is.
pub open spec fn trailers(b: Seq<u8>) -> Seq<Span> {
    match zip_repair::spec_find_eocd(b) {
        None => Seq::empty(),
        Some(e) => seq![
            (
                if e < 20 {
                    e
                } else {
                    e - 20
                },
                b.len() as int,
            ),
        ] + (if e >= 20 && zip_repair::le64(b, e - 12) + 56 <= b.len() {
            seq![(zip_repair::le64(b, e - 12), zip_repair::le64(b, e - 12) + 56)]
        } else {
            Seq::empty()
        }),
    }
}

/// Each of the stretches `a` shares no byte with any of the regions `rs`.
pub open spec fn all_apart(a: Seq<Span>, rs: Seq<Span>) -> bool {
    forall|i: int, j: int|
        0 <= i < a.len() && 0 <= j < rs.len() ==> apart(#[trigger] a[i], #[trigger] rs[j])
}

/// The archive is laid out as one: its extra-field regions lie inside it, share
/// no byte with a header or with each other, unless two entries have the same
/// one.
pub open spec fn laid_out(b: Seq<u8>, p: int, n: int) -> bool {
    let rs = regions(b, p, n);
    &&& 0 <= p
    &&& all_apart(headers(b, p, n), rs)
    &&& all_apart(trailers(b), rs)
    &&& forall|i: int, j: int|
        0 <= i < rs.len() && 0 <= j < rs.len() ==> (#[trigger] rs[i]) == (#[trigger] rs[j])
            || apart(rs[i], rs[j])
}

// ---------------------------------------------------------------- a region

/// No field from `i` up to `end` is a ZIP64 field.
pub open spec fn clean(b: Seq<u8>, i: int, end: int) -> bool
    decreases end - i,
{
    i + 4 <= end ==> zip_repair::le16(b, i) != zip_repair::ZIP64_ID && clean(
        b,
        zip_repair::field_end(b, i, end),
        end,
    )
}

proof fn lemma_clean_stays(b: Seq<u8>, i: int, end: int, n: int)
    requires
        clean(b, i, end),
    ensures
        zip_repair::relabel_from(b, i, end, false, n) == (b, n),
    decreases end - i,
{
    if i + 4 <= end {
        lemma_clean_stays(b, zip_repair::field_end(b, i, end), end, n);
    }
}

proof fn lemma_same_clean(b: Seq<u8>, c: Seq<u8>, i: int, end: int)
    requires
        0 <= i,
        clean(b, i, end),
        forall|k: int| i <= k < end ==> #[trigger] c[k] == b[k],
    ensures
        clean(c, i, end),
    decreases end - i,
{
    if i + 4 <= end {
        assert(c[i] == b[i] && c[i + 1] == b[i + 1] && c[i + 2] == b[i + 2] && c[i + 3] == b[i
            + 3]);
        lemma_same_clean(b, c, zip_repair::field_end(b, i, end), end);
    }
}

/// Relabeling a region changes nothing outside it, and leaves it clean.
proof fn lemma_relabeled(b: Seq<u8>, i: int, end: int, n: int)
    requires
        0 <= i,
        end <= b.len(),
    ensures
        ({
            let c = zip_repair::relabel_from(b, i, end, false, n).0;
            &&& c.len() == b.len()
            &&& forall|k: int| 0 <= k < b.len() && (k < i || k >= end) ==> #[trigger] c[k] == b[k]
            &&& clean(c, i, end)
        }),
    decreases end - i,
{
    if i + 4 <= end {
        let next = zip_repair::field_end(b, i, end);
        let spurious = zip_repair::le16(b, i) == zip_repair::ZIP64_ID;
        let d = if spurious {
            zip_repair::relabeled_at(b, i)
        } else {
            b
        };
        let m = if spurious {
            n + 1
        } else {
            n
        };
        lemma_relabeled(d, next, end, m);
        let c = zip_repair::relabel_from(b, i, end, false, n).0;
        assert(c == zip_repair::relabel_from(d, next, end, false, m).0);
        assert(c[i] == d[i] && c[i + 1] == d[i + 1]);
        assert(c[i + 2] == b[i + 2] && c[i + 3] == b[i + 3]);
        assert(zip_repair::field_end(c, i, end) == next);
    }
}

// ---------------------------------------------------------------- all regions

/// The bytes once the regions are relabeled, one after the other, and how many
/// fields those were on top of `count`.
pub open spec fn relabel_all(b: Seq<u8>, rs: Seq<Span>, count: int) -> (Seq<u8>, int)
    decreases rs.len(),
{
    if rs.len() == 0 {
        (b, count)
    } else {
        let (c, m) = zip_repair::relabel_from(b, rs[0].0, rs[0].1, false, count);
        relabel_all(c, rs.drop_first(), m)
    }
}

proof fn lemma_relabel_add(b: Seq<u8>, a: Seq<Span>, r: Seq<Span>, count: int)
    ensures
        relabel_all(b, a + r, count) == relabel_all(
            relabel_all(b, a, count).0,
            r,
            relabel_all(b, a, count).1,
        ),
    decreases a.len(),
{
    if a.len() == 0 {
        assert(a + r =~= r);
    } else {
        let (c, m) = zip_repair::relabel_from(b, a[0].0, a[0].1, false, count);
        assert((a + r).drop_first() =~= a.drop_first() + r);
        lemma_relabel_add(c, a.drop_first(), r, m);
    }
}

/// The byte lies in one of the regions.
pub open spec fn covered(rs: Seq<Span>, k: int) -> bool {
    exists|j: int| 0 <= j < rs.len() && (#[trigger] rs[j]).0 <= k < rs[j].1
}

/// `c` is `b` outside the regions.
pub open spec fn agree(b: Seq<u8>, c: Seq<u8>, rs: Seq<Span>) -> bool {
    &&& c.len() == b.len()
    &&& forall|k: int| 0 <= k < b.len() && !covered(rs, k) ==> #[trigger] c[k] == b[k]
}

/// The regions lie in the bytes.
pub open spec fn inside(rs: Seq<Span>, len: int) -> bool {
    forall|j: int| 0 <= j < rs.len() ==> 0 <= (#[trigger] rs[j]).0 <= rs[j].1 <= len
}

proof fn lemma_all_agree(b: Seq<u8>, c: Seq<u8>, rs: Seq<Span>, all: Seq<Span>, count: int)
    requires
        inside(rs, b.len() as int),
        agree(b, c, all),
        forall|j: int| 0 <= j < rs.len() ==> all.contains(#[trigger] rs[j]),
    ensures
        agree(b, relabel_all(c, rs, count).0, all),
    decreases rs.len(),
{
    if rs.len() > 0 {
        let r = rs[0];
        let (d, m) = zip_repair::relabel_from(c, r.0, r.1, false, count);
        lemma_relabeled(c, r.0, r.1, count);
        assert(all.contains(r));
        let j = choose|j: int| 0 <= j < all.len() && all[j] == r;
        assert forall|k: int| 0 <= k < b.len() && !covered(all, k) implies #[trigger] d[k]
            == b[k] by {
            assert(!(all[j].0 <= k < all[j].1));
            assert(c[k] == b[k]);
        }
        let rest = rs.drop_first();
        assert forall|i: int| 0 <= i < rest.len() implies 0 <= (#[trigger] rest[i]).0 <= rest[i].1
            <= b.len() && all.contains(rest[i]) by {
            assert(rest[i] == rs[i + 1]);
        }
        lemma_all_agree(b, d, rest, all, m);
    }
}

/// Once the regions are relabeled every one of them is clean, and so is one that
/// was clean and is apart from them or one of them.
proof fn lemma_all_clean(c: Seq<u8>, rs: Seq<Span>, count: int, s: Span)
    requires
        inside(rs, c.len() as int),
        0 <= s.0 <= s.1 <= c.len(),
        forall|j: int| 0 <= j < rs.len() ==> (#[trigger] rs[j]) == s || apart(rs[j], s),
        rs.contains(s) || clean(c, s.0, s.1),
    ensures
        clean(relabel_all(c, rs, count).0, s.0, s.1),
    decreases rs.len(),
{
    if rs.len() > 0 {
        let r = rs[0];
        let (d, m) = zip_repair::relabel_from(c, r.0, r.1, false, count);
        lemma_relabeled(c, r.0, r.1, count);
        let rest = rs.drop_first();
        assert forall|i: int| 0 <= i < rest.len() implies 0 <= (#[trigger] rest[i]).0 <= rest[i].1
            <= d.len() && (rest[i] == s || apart(rest[i], s)) by {
            assert(rest[i] == rs[i + 1]);
        }
        if r != s {
            if clean(c, s.0, s.1) {
                assert(apart(r, s));
                lemma_same_clean(c, d, s.0, s.1);
            } else {
                let k = choose|k: int| 0 <= k < rs.len() && rs[k] == s;
                assert(rest[k - 1] == s);
            }
        }
        lemma_all_clean(d, rest, m, s);
    }
}

proof fn lemma_all_stay(c: Seq<u8>, rs: Seq<Span>, count: int)
    requires
        forall|j: int| 0 <= j < rs.len() ==> clean(c, (#[trigger] rs[j]).0, rs[j].1),
    ensures
        relabel_all(c, rs, count) == (c, count),
    decreases rs.len(),
{
    if rs.len() > 0 {
        assert(clean(c, rs[0].0, rs[0].1));
        lemma_clean_stays(c, rs[0].0, rs[0].1, count);
        let rest = rs.drop_first();
        assert forall|j: int| 0 <= j < rest.len() implies clean(c, (#[trigger] rest[j]).0, rest[j].1) by {
            assert(rest[j] == rs[j + 1]);
        }
        lemma_all_stay(c, rest, count);
    }
}

// ---------------------------------------------------------------- the walk over the entries

/// What stands apart from the regions is the same in both.
proof fn lemma_same_span(b: Seq<u8>, c: Seq<u8>, all: Seq<Span>, s: Span)
    requires
        agree(b, c, all),
        0 <= s.0,
        s.1 <= b.len(),
        forall|j: int| 0 <= j < all.len() ==> apart(s, #[trigger] all[j]),
    ensures
        forall|k: int| s.0 <= k < s.1 ==> #[trigger] c[k] == b[k],
{
    assert forall|k: int| s.0 <= k < s.1 implies #[trigger] c[k] == b[k] by {
        if covered(all, k) {
            let j = choose|j: int| 0 <= j < all.len() && (#[trigger] all[j]).0 <= k < all[j].1;
            assert(apart(s, all[j]));
        }
    }
}

/// One region, relabeled or left alone.
proof fn lemma_one_region(c: Seq<u8>, start: int, len: int, needed: bool, count: int)
    requires
        0 <= start,
        0 <= len,
    ensures
        zip_repair::spec_relabel_extra(c, start, len, needed, count) == relabel_all(
            c,
            region(c, start, len, needed),
            count,
        ),
{
    if needed {
        zip_repair::genuine_fields_are_kept(c, start, len, count);
    } else if start + len <= c.len() {
        let r = region(c, start, len, needed);
        assert(r.drop_first() =~= Seq::<Span>::empty());
        let (d, m) = zip_repair::relabel_from(c, start, start + len, false, count);
        assert(relabel_all(d, Seq::<Span>::empty(), m) == (d, m));
    }
}

/// The regions of an entry are among all.
proof fn lemma_entry_regions(b: Seq<u8>, p: int, n: int, all: Seq<Span>)
    requires
        is_entry(b, p, n),
        forall|j: int| 0 <= j < regions(b, p, n).len() ==> all.contains(
            #[trigger] regions(b, p, n)[j],
        ),
    ensures
        ({
            let x = central_region(b, p);
            let y = local_region(b, zip_repair::le32(b, p + 42));
            let z = regions(b, next_entry(b, p), n - 1);
            &&& forall|j: int| 0 <= j < x.len() ==> all.contains(#[trigger] x[j])
            &&& forall|j: int| 0 <= j < y.len() ==> all.contains(#[trigger] y[j])
            &&& forall|j: int| 0 <= j < z.len() ==> all.contains(#[trigger] z[j])
        }),
{
    let x = central_region(b, p);
    let y = local_region(b, zip_repair::le32(b, p + 42));
    let z = regions(b, next_entry(b, p), n - 1);
    let w = regions(b, p, n);
    assert(w == x + y + z);
    assert forall|j: int| 0 <= j < x.len() implies all.contains(#[trigger] x[j]) by {
        assert(w[j] == x[j]);
    }
    assert forall|j: int| 0 <= j < y.len() implies all.contains(#[trigger] y[j]) by {
        assert(w[x.len() + j] == y[j]);
    }
    assert forall|j: int| 0 <= j < z.len() implies all.contains(#[trigger] z[j]) by {
        assert(w[x.len() + y.len() + j] == z[j]);
    }
}

proof fn lemma_sized(b: Seq<u8>, p: int)
    ensures
        zip_repair::le16(b, p) >= 0,
        zip_repair::le32(b, p) >= 0,
        zip_repair::le64(b, p) >= 0,
{
}

/// Walking the entries relabels the regions, one after the other.
proof fn lemma_walk(b: Seq<u8>, c: Seq<u8>, p: int, n: int, all: Seq<Span>, count: int)
    requires
        0 <= p,
        agree(b, c, all),
        all_apart(headers(b, p, n), all),
        forall|j: int| 0 <= j < regions(b, p, n).len() ==> all.contains(
            #[trigger] regions(b, p, n)[j],
        ),
    ensures
        zip_repair::relabel_entries(c, p, n, count) == relabel_all(c, regions(b, p, n), count),
    decreases n,
{
    if n > 0 && p + 46 <= b.len() {
        let hs = headers(b, p, n);
        assert(hs[0] == (p, p + 46));
        assert forall|j: int| 0 <= j < all.len() implies apart((p, p + 46), #[trigger] all[j]) by {
            assert(apart(hs[0], all[j]));
        }
        lemma_same_span(b, c, all, (p, p + 46));
        if is_entry(b, p, n) {
            let lo = zip_repair::le32(b, p + 42);
            let x = central_region(b, p);
            let y = local_region(b, lo);
            let z = regions(b, next_entry(b, p), n - 1);
            lemma_sized(b, p + 28);
            lemma_sized(b, p + 30);
            lemma_sized(b, p + 32);
            lemma_sized(b, p + 42);
            lemma_entry_regions(b, p, n, all);
            let extra = p + 46 + zip_repair::le16(b, p + 28);
            let len = zip_repair::le16(b, p + 30);
            lemma_one_region(c, extra, len, central_needs(b, p), count);
            assert(region(c, extra, len, central_needs(b, p)) == x);
            assert(central_needs(c, p) == central_needs(b, p));
            let (d, k) = relabel_all(c, x, count);
            lemma_all_agree(b, c, x, all, count);
            let mid = if lo + 30 <= b.len() {
                seq![(lo, lo + 30)]
            } else {
                Seq::<Span>::empty()
            };
            let rest = headers(b, next_entry(b, p), n - 1);
            assert(hs == seq![(p, p + 46)] + mid + rest);
            if lo + 30 <= b.len() {
                assert(hs[1] == (lo, lo + 30));
                assert forall|j: int| 0 <= j < all.len() implies apart(
                    (lo, lo + 30),
                    #[trigger] all[j],
                ) by {
                    assert(apart(hs[1], all[j]));
                }
                lemma_same_span(b, d, all, (lo, lo + 30));
                if is_local(b, lo) {
                    lemma_sized(b, lo + 26);
                    lemma_sized(b, lo + 28);
                    let start = lo + 30 + zip_repair::le16(b, lo + 26);
                    lemma_one_region(
                        d,
                        start,
                        zip_repair::le16(b, lo + 28),
                        local_needs(b, lo),
                        k,
                    );
                    assert(local_needs(d, lo) == local_needs(b, lo));
                }
            }
            let (e, m) = relabel_all(d, y, k);
            lemma_all_agree(b, d, y, all, k);
            assert(all_apart(rest, all)) by {
                assert forall|i: int, j: int| 0 <= i < rest.len() && 0 <= j < all.len() implies apart(
                    #[trigger] rest[i],
                    #[trigger] all[j],
                ) by {
                    assert(hs[1 + mid.len() + i] == rest[i]);
                }
            }
            lemma_walk(b, e, next_entry(b, p), n - 1, all, m);
            lemma_relabel_add(c, x + y, z, count);
            lemma_relabel_add(c, x, y, count);
            assert(zip_repair::relabel_entries(c, p, n, count) == zip_repair::relabel_entries(
                e,
                next_entry(b, p),
                n - 1,
                m,
            ));
        }
    }
}

proof fn lemma_regions_inside(b: Seq<u8>, p: int, n: int)
    requires
        0 <= p,
    ensures
        inside(regions(b, p, n), b.len() as int),
    decreases n,
{
    if is_entry(b, p, n) {
        let lo = zip_repair::le32(b, p + 42);
        let x = central_region(b, p);
        let y = local_region(b, lo);
        let z = regions(b, next_entry(b, p), n - 1);
        lemma_sized(b, p + 28);
        lemma_sized(b, p + 30);
        lemma_sized(b, p + 32);
        lemma_sized(b, p + 42);
        lemma_sized(b, lo + 26);
        lemma_sized(b, lo + 28);
        lemma_regions_inside(b, next_entry(b, p), n - 1);
        let w = regions(b, p, n);
        assert forall|j: int| 0 <= j < w.len() implies 0 <= (#[trigger] w[j]).0 <= w[j].1
            <= b.len() by {
            if j < x.len() {
                assert(w[j] == x[j]);
            } else if j < x.len() + y.len() {
                assert(w[j] == y[j - x.len()]);
            } else {
                assert(w[j] == z[j - x.len() - y.len()]);
            }
        }
    }
}

// ---------------------------------------------------------------- the records at the end

proof fn lemma_eocd(b: Seq<u8>, c: Seq<u8>, q: int, min: int, e: int)
    requires
        zip_repair::eocd_from(b, q, min) == Some(e),
        0 <= q,
        q + 4 <= b.len(),
        0 <= min,
        c.len() == b.len(),
        forall|k: int| e <= k < b.len() ==> #[trigger] c[k] == b[k],
    ensures
        zip_repair::eocd_from(c, q, min) == Some(e),
    decreases q,
{
    lemma_eocd_below(b, q, min);
    assert(c[q] == b[q] && c[q + 1] == b[q + 1] && c[q + 2] == b[q + 2] && c[q + 3] == b[q + 3]);
    if zip_repair::le32(b, q) != zip_repair::SIG_EOCD {
        lemma_eocd(b, c, q - 1, min, e);
    }
}

proof fn lemma_eocd_below(b: Seq<u8>, q: int, min: int)
    requires
        0 <= q,
    ensures
        zip_repair::eocd_from(b, q, min) matches Some(e) ==> 0 <= e <= q,
    decreases q,
{
    if zip_repair::le32(b, q) != zip_repair::SIG_EOCD && q > min && q > 0 {
        lemma_eocd_below(b, q - 1, min);
    }
}

/// The central directory is found where it was.
proof fn lemma_same_place(b: Seq<u8>, c: Seq<u8>, all: Seq<Span>)
    requires
        agree(b, c, all),
        all_apart(trailers(b), all),
        zip_repair::spec_locate(b) is Some,
    ensures
        zip_repair::spec_locate(c) == zip_repair::spec_locate(b),
{
    let len = b.len() as int;
    let e = zip_repair::spec_find_eocd(b)->0;
    let min = if len < 22 + 0xffff {
        0
    } else {
        len - (22 + 0xffff)
    };
    lemma_eocd_below(b, len - 22, min);
    let ts = trailers(b);
    let first = if e < 20 {
        e
    } else {
        e - 20
    };
    assert(ts[0] == (first, len));
    assert forall|j: int| 0 <= j < all.len() implies apart((first, len), #[trigger] all[j]) by {
        assert(apart(ts[0], all[j]));
    }
    lemma_same_span(b, c, all, (first, len));
    lemma_eocd(b, c, len - 22, min, e);
    assert(zip_repair::le16(c, e + 10) == zip_repair::le16(b, e + 10));
    assert(zip_repair::le32(c, e + 16) == zip_repair::le32(b, e + 16));
    if e >= 20 {
        assert(zip_repair::le32(c, e - 20) == zip_repair::le32(b, e - 20));
        assert(zip_repair::le64(c, e - 12) == zip_repair::le64(b, e - 12));
        let z = zip_repair::le64(b, e - 12);
        lemma_sized(b, e - 12);
        if z + 56 <= len {
            assert(ts[1] == (z, z + 56));
            assert forall|j: int| 0 <= j < all.len() implies apart((z, z + 56), #[trigger] all[j]) by {
                assert(apart(ts[1], all[j]));
            }
            lemma_same_span(b, c, all, (z, z + 56));
            assert(zip_repair::le32(c, z) == zip_repair::le32(b, z));
            assert(zip_repair::le64(c, z + 48) == zip_repair::le64(b, z + 48));
            assert(zip_repair::le64(c, z + 32) == zip_repair::le64(b, z + 32));
        }
    }
}

/// A repaired archive needs no repair: there is no spurious field left in one
/// that was laid out as an archive is.
pub proof fn a_repair_is_done_once(b: Seq<u8>)
    requires
        zip_repair::spec_locate(b) matches Some((p, n)) ==> laid_out(b, p, n),
    ensures
        zip_repair::spec_neutralize(b) matches Some(out) ==> zip_repair::spec_neutralize(
            out,
        ) is None,
{
    if let Some((p, n)) = zip_repair::spec_locate(b) {
        let rs = regions(b, p, n);
        let out = relabel_all(b, rs, 0).0;
        assert(agree(b, b, rs));
        assert forall|j: int| 0 <= j < rs.len() implies rs.contains(#[trigger] rs[j]) by {}
        lemma_walk(b, b, p, n, rs, 0);
        lemma_regions_inside(b, p, n);
        lemma_all_agree(b, b, rs, rs, 0);
        lemma_same_place(b, out, rs);
        lemma_walk(b, out, p, n, rs, 0);
        assert forall|j: int| 0 <= j < rs.len() implies clean(out, (#[trigger] rs[j]).0, rs[j].1) by {
            lemma_all_clean(b, rs, 0, rs[j]);
        }
        lemma_all_stay(out, rs, 0);
    }
}

} // verus!
