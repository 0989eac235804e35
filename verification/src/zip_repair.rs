//! Repair for EPUBs that carry a spurious ZIP64 extended-information field in
//! every entry.
use vstd::prelude::*;

use crate::codec::slice_copy;

verus! {

/// The id of a ZIP64 extended-information field.
pub const ZIP64_ID: u16 = 0x0001;

/// The id that a spurious ZIP64 field is given. It lies outside the range that
/// the format reserves and is assigned to no known field, so readers skip it.
pub const NEUTRALIZED_ID: u16 = 0x4B41;

/// A 32-bit size or offset that defers to the ZIP64 field.
pub const SENTINEL32: u32 = 0xFFFF_FFFF;

pub const SIG_LOCAL: u32 = 0x0403_4b50;

pub const SIG_CENTRAL: u32 = 0x0201_4b50;

pub const SIG_EOCD: u32 = 0x0605_4b50;

pub const SIG_ZIP64_EOCD: u32 = 0x0606_4b50;

pub const SIG_ZIP64_LOCATOR: u32 = 0x0706_4b50;

/// The 16-bit number at `p`, low byte first.
pub open spec fn le16(b: Seq<u8>, p: int) -> int {
    b[p] + 256 * b[p + 1]
}

/// The 32-bit number at `p`, low byte first.
pub open spec fn le32(b: Seq<u8>, p: int) -> int {
    le16(b, p) + 0x1_0000 * le16(b, p + 2)
}

/// The 64-bit number at `p`, low byte first.
pub open spec fn le64(b: Seq<u8>, p: int) -> int {
    le32(b, p) + 0x1_0000_0000 * le32(b, p + 4)
}

/// The 16-bit number at `p`, low byte first.
pub fn ru16(b: &[u8], p: usize) -> (r: u16)
    requires
        p + 2 <= b@.len(),
    ensures
        r == le16(b@, p as int),
{
    let n = b.len();
    b[p] as u16 + 256 * (b[p + 1] as u16)
}

/// The 32-bit number at `p`, low byte first.
pub fn ru32(b: &[u8], p: usize) -> (r: u32)
    requires
        p + 4 <= b@.len(),
    ensures
        r == le32(b@, p as int),
{
    let n = b.len();
    ru16(b, p) as u32 + 0x1_0000 * (ru16(b, p + 2) as u32)
}

/// The 64-bit number at `p`, low byte first.
pub fn ru64(b: &[u8], p: usize) -> (r: u64)
    requires
        p + 8 <= b@.len(),
    ensures
        r == le64(b@, p as int),
{
    let n = b.len();
    ru32(b, p) as u64 + 0x1_0000_0000 * (ru32(b, p + 4) as u64)
}

/// The last end-of-central-directory record at `p` or before it, not before
/// `min`.
pub open spec fn eocd_from(b: Seq<u8>, p: int, min: int) -> Option<int>
    decreases p,
{
    if le32(b, p) == SIG_EOCD {
        Some(p)
    } else if p <= min || p <= 0 {
        None
    } else {
        eocd_from(b, p - 1, min)
    }
}

/// The end-of-central-directory record, looked for over the space that the
/// trailing comment can take.
pub open spec fn spec_find_eocd(b: Seq<u8>) -> Option<int> {
    if b.len() < 22 {
        None
    } else {
        eocd_from(
            b,
            b.len() - 22,
            if b.len() < 22 + 0xffff {
                0
            } else {
                b.len() - (22 + 0xffff)
            },
        )
    }
}

fn find_eocd(b: &[u8]) -> (r: Option<usize>)
    ensures
        match r {
            Some(p) => spec_find_eocd(b@) == Some(p as int) && p + 22 <= b@.len(),
            None => spec_find_eocd(b@) is None,
        },
{
    if b.len() < 22 {
        return None;
    }
    let min: usize = if b.len() < 22 + 0xffff {
        0
    } else {
        b.len() - (22 + 0xffff)
    };
    let mut p: usize = b.len() - 22;
    loop
        invariant
            p + 22 <= b@.len(),
            spec_find_eocd(b@) == eocd_from(b@, p as int, min as int),
        decreases p,
    {
        if ru32(b, p) == SIG_EOCD {
            return Some(p);
        }
        if p <= min {
            return None;
        }
        p = p - 1;
    }
}

/// The offset of the central directory and the number of its entries. They are
/// in the ZIP64 record where the classic one holds sentinels.
pub open spec fn spec_locate(b: Seq<u8>) -> Option<(int, int)> {
    match spec_find_eocd(b) {
        None => None,
        Some(eocd) => {
            let entries = le16(b, eocd + 10);
            let offset = le32(b, eocd + 16);
            if entries != 0xFFFF && offset != SENTINEL32 {
                Some((offset, entries))
            } else if eocd < 20 || le32(b, eocd - 20) != SIG_ZIP64_LOCATOR {
                None
            } else {
                let z = le64(b, eocd - 12);
                if z + 56 > b.len() || le32(b, z) != SIG_ZIP64_EOCD {
                    None
                } else {
                    Some((le64(b, z + 48), le64(b, z + 32)))
                }
            }
        },
    }
}

fn locate_central_directory(b: &[u8]) -> (r: Option<(u64, u64)>)
    ensures
        match r {
            Some((off, n)) => spec_locate(b@) == Some((off as int, n as int)),
            None => spec_locate(b@) is None,
        },
{
    let eocd = match find_eocd(b) {
        Some(p) => p,
        None => {
            return None;
        },
    };
    let len = b.len();
    let entries = ru16(b, eocd + 10);
    let offset = ru32(b, eocd + 16);
    if entries != 0xFFFF && offset != SENTINEL32 {
        return Some((offset as u64, entries as u64));
    }
    if eocd < 20 || ru32(b, eocd - 20) != SIG_ZIP64_LOCATOR {
        return None;
    }
    let z64 = ru64(b, eocd - 12);
    if z64 as u128 + 56 > len as u128 {
        return None;
    }
    let z = z64 as usize;
    if ru32(b, z) != SIG_ZIP64_EOCD {
        return None;
    }
    Some((ru64(b, z + 48), ru64(b, z + 32)))
}

/// The field at `i` with the id that marks it as neutralized.
pub open spec fn relabeled_at(b: Seq<u8>, i: int) -> Seq<u8> {
    b.update(i, 0x41).update(i + 1, 0x4B)
}

/// `b` with the ZIP64 fields from `i` up to `end` relabeled, and how many they
/// are on top of `count`. With `needed` on, the fields are real and stay.
pub open spec fn relabel_from(b: Seq<u8>, i: int, end: int, needed: bool, count: int) -> (
    Seq<u8>,
    int,
)
    decreases end - i,
{
    if i + 4 <= end {
        let next = field_end(b, i, end);
        if le16(b, i) == ZIP64_ID && !needed {
            relabel_from(relabeled_at(b, i), next, end, needed, count + 1)
        } else {
            relabel_from(b, next, end, needed, count)
        }
    } else {
        (b, count)
    }
}

/// Where the field at `i` ends, in a region that ends at `end`.
pub open spec fn field_end(b: Seq<u8>, i: int, end: int) -> int {
    let next = i + 4 + le16(b, i + 2);
    if i < next < end {
        next
    } else {
        end
    }
}

/// The extra-field region at `start` with its spurious ZIP64 fields relabeled;
/// a region that does not fit in `b` is left alone.
pub open spec fn spec_relabel_extra(
    b: Seq<u8>,
    start: int,
    len: int,
    needed: bool,
    count: int,
) -> (Seq<u8>, int) {
    if start + len > b.len() {
        (b, count)
    } else {
        relabel_from(b, start, start + len, needed, count)
    }
}

/// Relabels the spurious ZIP64 fields in one header's extra-field region.
/// `zip64_needed` says that a 32-bit size or offset of the header is the
/// sentinel: then its ZIP64 field is real and is kept.
fn relabel_extra(
    buf: &mut Vec<u8>,
    start: u128,
    len: usize,
    zip64_needed: bool,
    count: u128,
) -> (r: u128)
    requires
        count + old(buf)@.len() < 0xffff_ffff_ffff_ffff_ffff_ffff,
        start < 0xffff_ffff_ffff_ffff_ffff_ffff,
    ensures
        (final(buf)@, r as int) == spec_relabel_extra(
            old(buf)@,
            start as int,
            len as int,
            zip64_needed,
            count as int,
        ),
        final(buf)@.len() == old(buf)@.len(),
        count <= r <= count + len,
{
    if start + len as u128 > buf.len() as u128 {
        return count;
    }
    let end: usize = start as usize + len;
    let mut n: u128 = count;
    let mut i: usize = start as usize;
    while i <= end && 4 <= end - i
        invariant
            end <= buf@.len() == old(buf)@.len(),
            start <= end == start + len,
            count + old(buf)@.len() < 0xffff_ffff_ffff_ffff_ffff_ffff,
            count <= n,
            i <= end ==> n + end - i <= count + len,
            n <= count + len,
            relabel_from(buf@, i as int, end as int, zip64_needed, n as int) == relabel_from(
                old(buf)@,
                start as int,
                end as int,
                zip64_needed,
                count as int,
            ),
        decreases end - i,
    {
        let id = ru16(buf, i);
        let size = ru16(buf, i + 2) as usize;
        if id == ZIP64_ID && !zip64_needed {
            buf.set(i, 0x41);
            buf.set(i + 1, 0x4B);
            n = n + 1;
        }
        if size < end - i - 4 {
            i = i + 4 + size;
        } else {
            i = end;
        }
    }
    n
}

/// `b` once the spurious ZIP64 fields of `n` central directory entries from `p`
/// on are relabeled, in the central headers and in the local ones that they
/// point at, and how many fields those are on top of `count`.
pub open spec fn relabel_entries(b: Seq<u8>, p: int, n: int, count: int) -> (Seq<u8>, int)
    decreases n,
{
    if n <= 0 || p + 46 > b.len() || le32(b, p) != SIG_CENTRAL {
        (b, count)
    } else {
        let needed = le32(b, p + 20) == SENTINEL32 || le32(b, p + 24) == SENTINEL32 || le32(
            b,
            p + 42,
        ) == SENTINEL32;
        let lo = le32(b, p + 42);
        let extra = p + 46 + le16(b, p + 28);
        let (c, k) = spec_relabel_extra(b, extra, le16(b, p + 30), needed, count);
        let (d, m) = if lo + 30 <= c.len() && le32(c, lo) == SIG_LOCAL {
            spec_relabel_extra(
                c,
                lo + 30 + le16(c, lo + 26),
                le16(c, lo + 28),
                le32(c, lo + 18) == SENTINEL32 || le32(c, lo + 22) == SENTINEL32,
                k,
            )
        } else {
            (c, k)
        };
        relabel_entries(d, extra + le16(b, p + 30) + le16(b, p + 32), n - 1, m)
    }
}

/// `b` with every spurious ZIP64 field relabeled, where there is one.
pub open spec fn spec_neutralize(b: Seq<u8>) -> Option<Seq<u8>> {
    match spec_locate(b) {
        None => None,
        Some((p, n)) => {
            let (out, count) = relabel_entries(b, p, n, 0);
            if count > 0 {
                Some(out)
            } else {
                None
            }
        },
    }
}

/// Relabels every spurious ZIP64 extended-information field in `bytes`, in the
/// central directory and in the local headers. Nothing comes back where there is
/// none, or where the bytes are no zip archive. The length stays.
pub fn neutralize_spurious_zip64(bytes: &[u8]) -> (r: Option<Vec<u8>>)
    ensures
        match r {
            Some(out) => spec_neutralize(bytes@) == Some(out@) && out@.len() == bytes@.len(),
            None => spec_neutralize(bytes@) is None,
        },
{
    let (offset, entries) = match locate_central_directory(bytes) {
        Some(x) => x,
        None => {
            return None;
        },
    };
    let mut out = slice_copy(bytes);
    let len = out.len();
    let mut p: u128 = offset as u128;
    let mut left: u64 = entries;
    let mut count: u128 = 0;
    while left > 0
        invariant_except_break
            out@.len() == bytes@.len() == len,
            count <= (entries - left) * 0x2_0000,
            p <= 0xffff_ffff_ffff_ffff + 0x10_0000,
            left <= entries,
            relabel_entries(out@, p as int, left as int, count as int) == relabel_entries(
                bytes@,
                offset as int,
                entries as int,
                0,
            ),
        ensures
            out@.len() == bytes@.len(),
            (out@, count as int) == relabel_entries(bytes@, offset as int, entries as int, 0),
        decreases left,
    {
        if p + 46 > len as u128 {
            break ;
        }
        let q = p as usize;
        if ru32(&out, q) != SIG_CENTRAL {
            break ;
        }
        let comp = ru32(&out, q + 20);
        let uncomp = ru32(&out, q + 24);
        let name_len = ru16(&out, q + 28) as u128;
        let extra_len = ru16(&out, q + 30) as usize;
        let comment_len = ru16(&out, q + 32) as u128;
        let local_off = ru32(&out, q + 42);
        let needed = comp == SENTINEL32 || uncomp == SENTINEL32 || local_off == SENTINEL32;
        let extra: u128 = p + 46 + name_len;
        assert((entries - left) * 0x2_0000 <= 0xffff_ffff_ffff_ffff * 0x2_0000)
            by (nonlinear_arith)
            requires
                left <= entries,
                entries <= 0xffff_ffff_ffff_ffff,
        ;
        count = relabel_extra(&mut out, extra, extra_len, needed, count);
        if local_off as u128 + 30 <= len as u128 {
            let lo = local_off as usize;
            if ru32(&out, lo) == SIG_LOCAL {
                let l_comp = ru32(&out, lo + 18);
                let l_uncomp = ru32(&out, lo + 22);
                let l_name = ru16(&out, lo + 26) as u128;
                let l_extra = ru16(&out, lo + 28) as usize;
                let l_needed = l_comp == SENTINEL32 || l_uncomp == SENTINEL32;
                count = relabel_extra(&mut out, lo as u128 + 30 + l_name, l_extra, l_needed, count);
            }
        }
        p = extra + extra_len as u128 + comment_len;
        left = left - 1;
        assert((entries - left) * 0x2_0000 == (entries - (left + 1)) * 0x2_0000 + 0x2_0000)
            by (nonlinear_arith);
    }
    if count > 0 {
        Some(out)
    } else {
        None
    }
}

/// What a repair may make of a byte: it stays, or the two bytes of the ZIP64 id
/// become the two of the neutral one.
pub open spec fn byte_kept(before: u8, after: u8) -> bool {
    ||| after == before
    ||| before == 0x01 && after == 0x41
    ||| before == 0x00 && after == 0x4B
}

/// `c` is `b` but for relabeled ids.
pub open spec fn only_relabeled(b: Seq<u8>, c: Seq<u8>) -> bool {
    &&& b.len() == c.len()
    &&& forall|i: int| 0 <= i < b.len() ==> byte_kept(b[i], #[trigger] c[i])
}

proof fn lemma_relabel_from_keeps(b: Seq<u8>, c: Seq<u8>, i: int, end: int, needed: bool, n: int)
    requires
        0 <= i,
        end <= c.len(),
        only_relabeled(b, c),
    ensures
        only_relabeled(b, relabel_from(c, i, end, needed, n).0),
        relabel_from(c, i, end, needed, n).1 >= n,
        needed ==> relabel_from(c, i, end, needed, n) == (c, n),
    decreases end - i,
{
    if i + 4 <= end {
        let next = field_end(c, i, end);
        if le16(c, i) == ZIP64_ID && !needed {
            assert(c[i] == 1 && c[i + 1] == 0);
            let d = relabeled_at(c, i);
            assert forall|k: int| 0 <= k < b.len() implies byte_kept(b[k], #[trigger] d[k]) by {
                assert(byte_kept(b[k], c[k]));
            }
            lemma_relabel_from_keeps(b, d, next, end, needed, n + 1);
        } else {
            lemma_relabel_from_keeps(b, c, next, end, needed, n);
        }
    }
}

proof fn lemma_relabel_entries_keeps(b: Seq<u8>, c: Seq<u8>, p: int, n: int, count: int)
    requires
        0 <= p,
        only_relabeled(b, c),
    ensures
        only_relabeled(b, relabel_entries(c, p, n, count).0),
    decreases n,
{
    if n <= 0 || p + 46 > c.len() || le32(c, p) != SIG_CENTRAL {
    } else {
        let needed = le32(c, p + 20) == SENTINEL32 || le32(c, p + 24) == SENTINEL32 || le32(
            c,
            p + 42,
        ) == SENTINEL32;
        let lo = le32(c, p + 42);
        let extra = p + 46 + le16(c, p + 28);
        let len = le16(c, p + 30);
        if extra + len <= c.len() {
            lemma_relabel_from_keeps(b, c, extra, extra + len, needed, count);
        }
        let (d, k) = spec_relabel_extra(c, extra, len, needed, count);
        if lo + 30 <= d.len() && le32(d, lo) == SIG_LOCAL {
            let start = lo + 30 + le16(d, lo + 26);
            let l_needed = le32(d, lo + 18) == SENTINEL32 || le32(d, lo + 22) == SENTINEL32;
            if start + le16(d, lo + 28) <= d.len() {
                lemma_relabel_from_keeps(b, d, start, start + le16(d, lo + 28), l_needed, k);
            }
            let (e, m) = spec_relabel_extra(d, start, le16(d, lo + 28), l_needed, k);
            lemma_relabel_entries_keeps(b, e, extra + len + le16(c, p + 32), n - 1, m);
        } else {
            lemma_relabel_entries_keeps(b, d, extra + len + le16(c, p + 32), n - 1, k);
        }
    }
}

/// A repair moves nothing: the archive keeps its length, and each byte that
/// changes is one of a ZIP64 field's id.
pub proof fn repair_only_relabels(b: Seq<u8>)
    ensures
        spec_neutralize(b) matches Some(out) ==> only_relabeled(b, out),
{
    if let Some((p, n)) = spec_locate(b) {
        if p >= 0 {
            lemma_relabel_entries_keeps(b, b, p, n, 0);
        }
    }
}

/// The ZIP64 fields of a header that needs them are kept.
pub proof fn genuine_fields_are_kept(b: Seq<u8>, start: int, len: int, count: int)
    requires
        0 <= start,
        0 <= len,
    ensures
        spec_relabel_extra(b, start, len, true, count) == (b, count),
{
    if start + len <= b.len() {
        lemma_relabel_from_keeps(b, b, start, start + len, true, count);
    }
}

proof fn lemma_relabel_behind(b: Seq<u8>, i: int, end: int, n: int)
    requires
        0 <= i,
        end <= b.len(),
    ensures
        relabel_from(b, i, end, false, n).0.len() == b.len(),
        forall|k: int| 0 <= k < i && k < b.len() ==> #[trigger] relabel_from(b, i, end, false, n).0[k] == b[k],
    decreases end - i,
{
    if i + 4 <= end {
        let next = field_end(b, i, end);
        if le16(b, i) == ZIP64_ID {
            lemma_relabel_behind(relabeled_at(b, i), next, end, n + 1);
        } else {
            lemma_relabel_behind(b, next, end, n);
        }
    }
}

proof fn lemma_relabel_twice(b: Seq<u8>, i: int, end: int, n: int, again: int)
    requires
        0 <= i,
        end <= b.len(),
    ensures
        ({
            let c = relabel_from(b, i, end, false, n).0;
            relabel_from(c, i, end, false, again) == (c, again)
        }),
    decreases end - i,
{
    if i + 4 <= end {
        let next = field_end(b, i, end);
        let d = if le16(b, i) == ZIP64_ID {
            relabeled_at(b, i)
        } else {
            b
        };
        let m = if le16(b, i) == ZIP64_ID {
            n + 1
        } else {
            n
        };
        lemma_relabel_behind(d, next, end, m);
        lemma_relabel_twice(d, next, end, m, again);
        let c = relabel_from(b, i, end, false, n).0;
        assert(c == relabel_from(d, next, end, false, m).0);
        assert(c[i] == d[i] && c[i + 1] == d[i + 1]);
        assert(c[i + 2] == b[i + 2] && c[i + 3] == b[i + 3]);
        assert(le16(c, i) != ZIP64_ID);
        assert(field_end(c, i, end) == next);
    }
}

/// A relabeled field has the neutral id, and nothing else of it has changed.
pub proof fn a_relabeled_field_has_the_neutral_id(b: Seq<u8>, i: int)
    requires
        0 <= i,
        i + 1 < b.len(),
    ensures
        le16(relabeled_at(b, i), i) == NEUTRALIZED_ID,
        forall|k: int|
            0 <= k < b.len() && k != i && k != i + 1 ==> #[trigger] relabeled_at(b, i)[k] == b[k],
{
}

/// A region that was relabeled holds no spurious field any more: relabeling it
/// again changes nothing.
pub proof fn a_relabeled_region_stays(b: Seq<u8>, start: int, len: int, count: int, again: int)
    requires
        0 <= start,
        0 <= len,
    ensures
        ({
            let c = spec_relabel_extra(b, start, len, false, count).0;
            spec_relabel_extra(c, start, len, false, again) == (c, again)
        }),
{
    if start + len <= b.len() {
        lemma_relabel_twice(b, start, start + len, count, again);
        lemma_relabel_behind(b, start, start + len, count);
    }
}

} // verus!
