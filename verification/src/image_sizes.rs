//! The size and the kind of an image are those that its first bytes write.
use vstd::prelude::*;

use crate::image_extract;

verus! {

/// The `k`-th byte of a number, counted from the lowest.
pub open spec fn byte(n: int, k: nat) -> u8
    decreases k,
{
    if k == 0 {
        (n % 256) as u8
    } else {
        byte(n / 256, (k - 1) as nat)
    }
}

/// A number in four bytes, the highest first.
pub open spec fn four(n: int) -> Seq<u8> {
    seq![byte(n, 3), byte(n, 2), byte(n, 1), byte(n, 0)]
}

/// A number in two bytes, the higher first.
pub open spec fn two(n: int) -> Seq<u8> {
    seq![byte(n, 1), byte(n, 0)]
}

/// A number in two bytes, the lower first.
pub open spec fn two_up(n: int) -> Seq<u8> {
    seq![byte(n, 0), byte(n, 1)]
}

proof fn lemma_four(b: Seq<u8>, i: int, n: int)
    requires
        0 <= i,
        i + 4 <= b.len(),
        b.subrange(i, i + 4) == four(n),
        0 <= n < 0x1_0000_0000,
    ensures
        image_extract::be32(b, i) == n,
{
    reveal_with_fuel(byte, 4);
    let s = b.subrange(i, i + 4);
    assert(s[0] == b[i] && s[1] == b[i + 1] && s[2] == b[i + 2] && s[3] == b[i + 3]);
    let a = n / 256;
    let c = a / 256;
    let d = c / 256;
    assert(n == a * 256 + n % 256 && a == c * 256 + a % 256 && c == d * 256 + c % 256);
    assert(0 <= d < 256);
}

proof fn lemma_two(n: int)
    requires
        0 <= n < 0x1_0000,
    ensures
        byte(n, 1) * 256 + byte(n, 0) == n,
{
    reveal_with_fuel(byte, 2);
}

/// The head of a PNG: its signature, the length of its first chunk, the chunk's name,
/// and the size.
pub open spec fn png_head(length: Seq<u8>, w: int, h: int) -> Seq<u8> {
    seq![0x89u8, 0x50u8, 0x4eu8, 0x47u8, 0x0du8, 0x0au8, 0x1au8, 0x0au8] + length + seq![
        73u8,
        72u8,
        68u8,
        82u8,
    ] + four(w) + four(h)
}

/// The size of a PNG is the one that its head writes, width before height.
pub proof fn a_png_has_the_size_it_states(length: Seq<u8>, w: int, h: int, rest: Seq<u8>)
    requires
        length.len() == 4,
        0 <= w < 0x1_0000_0000,
        0 <= h < 0x1_0000_0000,
    ensures
        image_extract::spec_image_dimensions(png_head(length, w, h) + rest) == Some((w, h)),
{
    let b = png_head(length, w, h) + rest;
    assert(b.subrange(0, 8) =~= image_extract::png_signature());
    assert(b.subrange(12, 16) =~= seq![73u8, 72u8, 68u8, 82u8]);
    assert(b.subrange(16, 20) =~= four(w));
    assert(b.subrange(20, 24) =~= four(h));
    lemma_four(b, 16, w);
    lemma_four(b, 20, h);
}

/// The head of a GIF: its signature, of either version, and the size.
pub open spec fn gif_head(later: bool, w: int, h: int) -> Seq<u8> {
    seq![
        71u8,
        73u8,
        70u8,
        56u8,
        if later {
            57u8
        } else {
            55u8
        },
        97u8,
    ] + two_up(w) + two_up(h)
}

/// The size of a GIF is the one that its head writes.
pub proof fn a_gif_has_the_size_it_states(later: bool, w: int, h: int, rest: Seq<u8>)
    requires
        0 <= w < 0x1_0000,
        0 <= h < 0x1_0000,
    ensures
        image_extract::spec_image_dimensions(gif_head(later, w, h) + rest) == Some((w, h)),
{
    let b = gif_head(later, w, h) + rest;
    if later {
        assert(b.subrange(0, 6) =~= seq![71u8, 73u8, 70u8, 56u8, 57u8, 97u8]);
    } else {
        assert(b.subrange(0, 6) =~= seq![71u8, 73u8, 70u8, 56u8, 55u8, 97u8]);
    }
    if image_extract::begins(b, image_extract::png_signature()) {
        assert(b.subrange(0, 8)[0] == b[0]);
    }
    assert(b[6] == byte(w, 0) && b[7] == byte(w, 1) && b[8] == byte(h, 0) && b[9] == byte(h, 1));
    lemma_two(w);
    lemma_two(h);
}

/// A segment of a JPEG that states nothing of its size: its marker, its length, and what
/// it holds.
pub open spec fn segment(code: u8, inner: Seq<u8>) -> Seq<u8> {
    seq![0xffu8, code] + two((inner.len() + 2) as int) + inner
}

/// The segments from the `k`-th on, and then the frame that states the size.
pub open spec fn jpeg_from(v: Seq<(u8, Seq<u8>)>, frame: u8, precision: u8, w: int, h: int, rest: Seq<u8>, k: int) -> Seq<
    u8,
>
    decreases v.len() - k,
{
    if 0 <= k < v.len() {
        segment(v[k].0, v[k].1) + jpeg_from(v, frame, precision, w, h, rest, k + 1)
    } else {
        seq![0xffu8, frame] + two((rest.len() + 7) as int) + seq![precision] + two(h) + two(w) + rest
    }
}

/// A marker of a segment that is neither a frame nor a scan, and does not stand alone.
pub open spec fn is_other(code: u8) -> bool {
    code == 0xc4 || code == 0xc8 || code == 0xcc || 0xdb <= code <= 0xfe || 0x02 <= code <= 0xbf
}

/// A marker of a frame.
pub open spec fn is_frame(code: u8) -> bool {
    0xc0 <= code <= 0xc3 || 0xc5 <= code <= 0xc7 || 0xc9 <= code <= 0xcb || 0xcd <= code <= 0xcf
}

proof fn lemma_frame(
    b: Seq<u8>,
    i: int,
    v: Seq<(u8, Seq<u8>)>,
    frame: u8,
    precision: u8,
    w: int,
    h: int,
    rest: Seq<u8>,
    k: int,
)
    requires
        0 <= k <= v.len(),
        0 <= i <= b.len(),
        b.subrange(i, b.len() as int) == jpeg_from(v, frame, precision, w, h, rest, k),
        forall|j: int| 0 <= j < v.len() ==> is_other((#[trigger] v[j]).0) && v[j].1.len() + 2 < 0x1_0000,
        is_frame(frame),
        rest.len() + 7 < 0x1_0000,
        0 <= w < 0x1_0000,
        0 <= h < 0x1_0000,
    ensures
        image_extract::frame_from(b, i) == Some((w, h)),
    decreases v.len() - k,
{
    let u = b.subrange(i, b.len() as int);
    lemma_long(v, frame, precision, w, h, rest, k);
    assert(u.len() == b.len() - i);
    assert(u.len() >= 9);
    if k < v.len() {
        let (code, inner) = v[k];
        let next = jpeg_from(v, frame, precision, w, h, rest, k + 1);
        assert(is_other(code) && inner.len() + 2 < 0x1_0000);
        let n = inner.len() as int;
        lemma_two(n + 2);
        lemma_long(v, frame, precision, w, h, rest, k + 1);
        assert(u[0] == 0xff && u[1] == code && u[2] == byte(n + 2, 1) && u[3] == byte(n + 2, 0));
        assert(b[i] == u[0] && b[i + 1] == u[1] && b[i + 2] == u[2] && b[i + 3] == u[3]);
        assert(code != 0xff);
        assert(image_extract::code_at(b, i + 1) == i + 1);
        assert(image_extract::be16(b, i + 2) == n + 2);
        let e = i + 4 + n;
        assert(b.subrange(e, b.len() as int) =~= u.subrange(4 + n, u.len() as int));
        assert(u.subrange(4 + n, u.len() as int) =~= next);
        lemma_frame(b, e, v, frame, precision, w, h, rest, k + 1);
    } else {
        lemma_two((rest.len() + 7) as int);
        lemma_two(w);
        lemma_two(h);
        let m = (rest.len() + 7) as int;
        assert(u[0] == 0xff && u[1] == frame && u[2] == byte(m, 1) && u[3] == byte(m, 0));
        assert(u[5] == byte(h, 1) && u[6] == byte(h, 0) && u[7] == byte(w, 1) && u[8] == byte(w, 0));
        assert(b[i] == u[0] && b[i + 1] == u[1] && b[i + 2] == u[2] && b[i + 3] == u[3]);
        assert(b[i + 5] == u[5] && b[i + 6] == u[6] && b[i + 7] == u[7] && b[i + 8] == u[8]);
        assert(image_extract::code_at(b, i + 1) == i + 1);
        assert(image_extract::be16(b, i + 2) == m);
    }
}

proof fn lemma_long(v: Seq<(u8, Seq<u8>)>, frame: u8, precision: u8, w: int, h: int, rest: Seq<u8>, k: int)
    requires
        0 <= k <= v.len(),
    ensures
        jpeg_from(v, frame, precision, w, h, rest, k).len() >= 9,
    decreases v.len() - k,
{
    if k < v.len() {
        lemma_long(v, frame, precision, w, h, rest, k + 1);
    }
}

/// The size of a JPEG is the one that its first frame writes, height before width, behind
/// whatever segments stand before it.
pub proof fn a_jpeg_has_the_size_it_states(
    v: Seq<(u8, Seq<u8>)>,
    frame: u8,
    precision: u8,
    w: int,
    h: int,
    rest: Seq<u8>,
)
    requires
        forall|j: int| 0 <= j < v.len() ==> is_other((#[trigger] v[j]).0) && v[j].1.len() + 2 < 0x1_0000,
        is_frame(frame),
        rest.len() + 7 < 0x1_0000,
        0 <= w < 0x1_0000,
        0 <= h < 0x1_0000,
    ensures
        image_extract::spec_image_dimensions(
            seq![0xffu8, 0xd8u8] + jpeg_from(v, frame, precision, w, h, rest, 0),
        ) == Some((w, h)),
{
    let j = jpeg_from(v, frame, precision, w, h, rest, 0);
    let b = seq![0xffu8, 0xd8u8] + j;
    lemma_long(v, frame, precision, w, h, rest, 0);
    assert(b.subrange(2, b.len() as int) =~= j);
    lemma_frame(b, 2, v, frame, precision, w, h, rest, 0);
    assert(b[0] == 0xff);
    if image_extract::begins(b, image_extract::png_signature()) {
        assert(b.subrange(0, 8)[0] == b[0]);
    }
    if image_extract::is_gif(b) {
        assert(b.subrange(0, 6)[0] == b[0]);
    }
}

/// An image of no declared kind is known by its first bytes, those of a PNG, a GIF or a
/// JPEG with a size.
pub proof fn an_image_is_known_by_its_first_bytes(length: Seq<u8>, later: bool, w: int, h: int, rest: Seq<u8>)
    requires
        length.len() == 4,
    ensures
        image_extract::spec_sniff_raster(png_head(length, w, h) + rest) == Some("png"@),
        image_extract::spec_sniff_raster(gif_head(later, w, h) + rest) == Some("gif"@),
        image_extract::spec_sniff_raster(seq![0xffu8, 0xd8u8, 0xffu8] + rest) == Some("jpg"@),
{
    let p = png_head(length, w, h) + rest;
    let g = gif_head(later, w, h) + rest;
    let j = seq![0xffu8, 0xd8u8, 0xffu8] + rest;
    assert(p[0] == 0x89 && g[0] == 71);
    if image_extract::begins(p, seq![0xffu8, 0xd8u8, 0xffu8]) {
        assert(p.subrange(0, 3)[0] == p[0]);
    }
    assert(p.subrange(0, 8) =~= image_extract::png_signature());
    if image_extract::begins(g, seq![0xffu8, 0xd8u8, 0xffu8]) {
        assert(g.subrange(0, 3)[0] == g[0]);
    }
    if image_extract::begins(g, image_extract::png_signature()) {
        assert(g.subrange(0, 8)[0] == g[0]);
    }
    if later {
        assert(g.subrange(0, 6) =~= seq![71u8, 73u8, 70u8, 56u8, 57u8, 97u8]);
    } else {
        assert(g.subrange(0, 6) =~= seq![71u8, 73u8, 70u8, 56u8, 55u8, 97u8]);
    }
    assert(j.subrange(0, 3) =~= seq![0xffu8, 0xd8u8, 0xffu8]);
}

} // verus!
