//! Every embedded image of an EPUB, in memory: the manifest's images, each with
//! its bytes as they are, its size read from the header where the format allows,
//! and whether it is the declared cover.
use vstd::prelude::*;

use crate::edit;
use crate::markup;
use crate::opf;
use crate::package;
use crate::spine_repair;
use crate::text;
use crate::archive::Part;
use crate::codec::slice_copy;
use crate::edit::EpubPackage;
use crate::error::{Error, Fault};
use crate::opf::{OpfData, OpfItem, item_named_in, meta_content_of};
use crate::package::{Found, PackageDoc, abs_path, package_doc};
use crate::spine_repair::not_behind_of;
use crate::text::{chars_of, is, list_has, starts_str, str_is, trim, words};

verus! {

/// One image of an EPUB.
#[derive(Debug)]
pub struct ExtractedImage {
    /// The zip path, a stable name for the image within the EPUB.
    pub path: String,
    /// The manifest `id` that declares the image.
    pub manifest_id: Option<String>,
    /// The declared media type, where it is not empty.
    pub media_type: Option<String>,
    /// The bytes, as they stand in the zip.
    pub bytes: Vec<u8>,
    /// The extension for the bytes, no dot.
    pub ext: &'static str,
    /// Pixel width, where the header says it.
    pub width: Option<u32>,
    /// Pixel height, where the header says it.
    pub height: Option<u32>,
    /// Whether this is the declared cover image.
    pub is_cover: bool,
}

/// What an `ExtractedImage` says.
#[verifier::ext_equal]
pub struct Picture {
    pub path: Seq<char>,
    pub manifest_id: Option<Seq<char>>,
    pub media_type: Option<Seq<char>>,
    pub bytes: Seq<u8>,
    pub ext: Seq<char>,
    pub width: Option<int>,
    pub height: Option<int>,
    pub is_cover: bool,
}

pub open spec fn opt_int(n: Option<u32>) -> Option<int> {
    match n {
        Some(x) => Some(x as int),
        None => None,
    }
}

impl View for ExtractedImage {
    type V = Picture;

    open spec fn view(&self) -> Picture {
        Picture {
            path: self.path@,
            manifest_id: text::opt_str(self.manifest_id),
            media_type: text::opt_str(self.media_type),
            bytes: self.bytes@,
            ext: self.ext@,
            width: opt_int(self.width),
            height: opt_int(self.height),
            is_cover: self.is_cover,
        }
    }
}

pub open spec fn pictures(v: Seq<ExtractedImage>) -> Seq<Picture> {
    v.map_values(|x: ExtractedImage| x@)
}

// ---------------------------------------------------------------- formats

/// The bytes start with those of `p`.
pub open spec fn begins(b: Seq<u8>, p: Seq<u8>) -> bool {
    p.len() <= b.len() && b.subrange(0, p.len() as int) == p
}

pub open spec fn png_signature() -> Seq<u8> {
    seq![0x89u8, 0x50u8, 0x4eu8, 0x47u8, 0x0du8, 0x0au8, 0x1au8, 0x0au8]
}

pub open spec fn is_gif(b: Seq<u8>) -> bool {
    begins(b, seq![71u8, 73u8, 70u8, 56u8, 55u8, 97u8]) || begins(
        b,
        seq![71u8, 73u8, 70u8, 56u8, 57u8, 97u8],
    )
}

/// `RIFF`, a length, `WEBP`.
pub open spec fn is_webp(b: Seq<u8>) -> bool {
    begins(b, seq![82u8, 73u8, 70u8, 70u8]) && b.len() >= 12 && b.subrange(8, 12) == seq![
        87u8,
        69u8,
        66u8,
        80u8,
    ]
}

/// The extension of a raster image, by its first bytes.
pub open spec fn spec_sniff_raster(b: Seq<u8>) -> Option<Seq<char>> {
    if begins(b, seq![0xffu8, 0xd8u8, 0xffu8]) {
        Some("jpg"@)
    } else if begins(b, png_signature()) {
        Some("png"@)
    } else if is_gif(b) {
        Some("gif"@)
    } else if is_webp(b) {
        Some("webp"@)
    } else if begins(b, seq![66u8, 77u8]) {
        Some("bmp"@)
    } else {
        None
    }
}

/// The extension of an image, by its media type, else by its first bytes, and
/// `img` for an image of another type.
pub open spec fn spec_ext_for(media_type: Seq<char>, b: Seq<u8>) -> Option<Seq<char>> {
    let m = text::spec_trim(media_type);
    if m == "image/jpeg"@ || m == "image/jpg"@ || m == "image/pjpeg"@ {
        Some("jpg"@)
    } else if m == "image/png"@ {
        Some("png"@)
    } else if m == "image/gif"@ {
        Some("gif"@)
    } else if m == "image/webp"@ {
        Some("webp"@)
    } else if m == "image/svg+xml"@ {
        Some("svg"@)
    } else if m == "image/bmp"@ || m == "image/x-ms-bmp"@ || m == "image/x-bmp"@ {
        Some("bmp"@)
    } else if m == "image/tiff"@ || m == "image/x-tiff"@ {
        Some("tiff"@)
    } else if spec_sniff_raster(b) is None && text::spec_starts(m, "image/"@) {
        Some("img"@)
    } else {
        spec_sniff_raster(b)
    }
}

/// What an optional literal holds.
pub open spec fn opt_lit(r: Option<&'static str>) -> Option<Seq<char>> {
    match r {
        Some(s) => Some(s@),
        None => None,
    }
}

fn begins_with(b: &[u8], p: &[u8]) -> (r: bool)
    ensures
        r == begins(b@, p@),
{
    if b.len() < p.len() {
        return false;
    }
    let mut i: usize = 0;
    while i < p.len()
        invariant
            i <= p@.len() <= b@.len(),
            forall|k: int| 0 <= k < i ==> b@[k] == #[trigger] p@[k],
        decreases p@.len() - i,
    {
        if b[i] != p[i] {
            assert(b@.subrange(0, p@.len() as int)[i as int] != p@[i as int]);
            return false;
        }
        i = i + 1;
    }
    assert(b@.subrange(0, p@.len() as int) =~= p@);
    true
}

fn gif_head(b: &[u8]) -> (r: bool)
    ensures
        r == is_gif(b@),
{
    let a: [u8; 6] = [71, 73, 70, 56, 55, 97];
    let c: [u8; 6] = [71, 73, 70, 56, 57, 97];
    assert(a@ =~= seq![71u8, 73u8, 70u8, 56u8, 55u8, 97u8]);
    assert(c@ =~= seq![71u8, 73u8, 70u8, 56u8, 57u8, 97u8]);
    begins_with(b, &a) || begins_with(b, &c)
}

fn png_head(b: &[u8]) -> (r: bool)
    ensures
        r == begins(b@, png_signature()),
{
    let a: [u8; 8] = [0x89, 0x50, 0x4e, 0x47, 0x0d, 0x0a, 0x1a, 0x0a];
    assert(a@ =~= png_signature());
    begins_with(b, &a)
}

fn webp_head(b: &[u8]) -> (r: bool)
    ensures
        r == is_webp(b@),
{
    let a: [u8; 4] = [82, 73, 70, 70];
    assert(a@ =~= seq![82u8, 73u8, 70u8, 70u8]);
    if !begins_with(b, &a) || b.len() < 12 {
        return false;
    }
    let ghost tail = b@.subrange(8, 12);
    let r = b[8] == 87 && b[9] == 69 && b[10] == 66 && b[11] == 80;
    proof {
        if r {
            assert(tail =~= seq![87u8, 69u8, 66u8, 80u8]);
        } else {
            assert(tail[0] != 87 || tail[1] != 69 || tail[2] != 66 || tail[3] != 80);
        }
    }
    r
}

/// The extension of a raster image, by its first bytes.
pub fn sniff_raster(bytes: &[u8]) -> (r: Option<&'static str>)
    ensures
        opt_lit(r) == spec_sniff_raster(bytes@),
{
    let jpg: [u8; 3] = [0xff, 0xd8, 0xff];
    let bmp: [u8; 2] = [66, 77];
    assert(jpg@ =~= seq![0xffu8, 0xd8u8, 0xffu8]);
    assert(bmp@ =~= seq![66u8, 77u8]);
    if begins_with(bytes, &jpg) {
        Some("jpg")
    } else if png_head(bytes) {
        Some("png")
    } else if gif_head(bytes) {
        Some("gif")
    } else if webp_head(bytes) {
        Some("webp")
    } else if begins_with(bytes, &bmp) {
        Some("bmp")
    } else {
        None
    }
}

/// The extension of a manifest item, or nothing where it is no image: by its
/// media type, else by its first bytes. An item of any `image/*` type is one.
pub fn ext_for(media_type: &str, bytes: &[u8]) -> (r: Option<&'static str>)
    ensures
        opt_lit(r) == spec_ext_for(media_type@, bytes@),
{
    let c = chars_of(media_type);
    let m = trim(&c);
    if is(m, "image/jpeg") || is(m, "image/jpg") || is(m, "image/pjpeg") {
        Some("jpg")
    } else if is(m, "image/png") {
        Some("png")
    } else if is(m, "image/gif") {
        Some("gif")
    } else if is(m, "image/webp") {
        Some("webp")
    } else if is(m, "image/svg+xml") {
        Some("svg")
    } else if is(m, "image/bmp") || is(m, "image/x-ms-bmp") || is(m, "image/x-bmp") {
        Some("bmp")
    } else if is(m, "image/tiff") || is(m, "image/x-tiff") {
        Some("tiff")
    } else {
        match sniff_raster(bytes) {
            Some(ext) => Some(ext),
            None => if starts_str(m, "image/") {
                Some("img")
            } else {
                None
            },
        }
    }
}

// ---------------------------------------------------------------- sizes

/// The number that two bytes write, the higher first.
pub open spec fn be16(b: Seq<u8>, i: int) -> int {
    b[i] * 256 + b[i + 1]
}

/// The number that four bytes write, the highest first.
pub open spec fn be32(b: Seq<u8>, i: int) -> int {
    be16(b, i) * 65536 + be16(b, i + 2)
}

/// The size of a PNG: of its first chunk, `IHDR`.
pub open spec fn spec_png_dimensions(b: Seq<u8>) -> Option<(int, int)> {
    if b.len() < 24 || !begins(b, png_signature()) || b.subrange(12, 16) != seq![
        73u8,
        72u8,
        68u8,
        82u8,
    ] {
        None
    } else {
        Some((be32(b, 16), be32(b, 20)))
    }
}

/// The size of a GIF's logical screen.
pub open spec fn spec_gif_dimensions(b: Seq<u8>) -> Option<(int, int)> {
    if b.len() < 10 || !is_gif(b) {
        None
    } else {
        Some((b[7] * 256 + b[6], b[9] * 256 + b[8]))
    }
}

/// The end of a run of fill bytes: where the marker's code stands.
pub open spec fn code_at(b: Seq<u8>, m: int) -> int
    decreases b.len() - m,
{
    if 0 <= m && m + 1 < b.len() && b[m] == 0xff {
        code_at(b, m + 1)
    } else {
        m
    }
}

/// A marker that stands alone, with no segment behind it.
pub open spec fn alone(k: u8) -> bool {
    k == 0x01 || 0xd0 <= k <= 0xd9
}

/// A marker that starts a frame.
pub open spec fn starts_frame(k: u8) -> bool {
    0xc0 <= k <= 0xcf && k != 0xc4 && k != 0xc8 && k != 0xcc
}

pub proof fn lemma_code_at(b: Seq<u8>, m: int)
    requires
        0 <= m < b.len(),
    ensures
        m <= code_at(b, m) < b.len(),
    decreases b.len() - m,
{
    if m + 1 < b.len() && b[m] == 0xff {
        lemma_code_at(b, m + 1);
    }
}

/// The size that the first frame from `i` on states, before any scan starts.
pub open spec fn frame_from(b: Seq<u8>, i: int) -> Option<(int, int)>
    decreases b.len() - i,
{
    if i < 0 || i + 1 >= b.len() {
        None
    } else if b[i] != 0xff {
        frame_from(b, i + 1)
    } else {
        let m = code_at(b, i + 1);
        proof {
            lemma_code_at(b, i + 1);
        }
        let k = b[m];
        if alone(k) {
            frame_from(b, m + 1)
        } else if k == 0xda || m + 2 >= b.len() || be16(b, m + 1) < 2 {
            None
        } else if starts_frame(k) {
            if m + 8 > b.len() {
                None
            } else {
                Some((be16(b, m + 6), be16(b, m + 4)))
            }
        } else if m + 1 + be16(b, m + 1) >= b.len() {
            None
        } else {
            frame_from(b, m + 1 + be16(b, m + 1))
        }
    }
}

/// The size of a JPEG.
pub open spec fn spec_jpeg_dimensions(b: Seq<u8>) -> Option<(int, int)> {
    if b.len() < 4 || b[0] != 0xff || b[1] != 0xd8 {
        None
    } else {
        frame_from(b, 2)
    }
}

/// The size of an image, where it is a PNG, a GIF or a JPEG.
pub open spec fn spec_image_dimensions(b: Seq<u8>) -> Option<(int, int)> {
    match (spec_png_dimensions(b), spec_gif_dimensions(b)) {
        (Some(d), _) => Some(d),
        (None, Some(d)) => Some(d),
        (None, None) => spec_jpeg_dimensions(b),
    }
}

/// What a size says.
pub open spec fn size(r: Option<(u32, u32)>) -> Option<(int, int)> {
    match r {
        Some((w, h)) => Some((w as int, h as int)),
        None => None,
    }
}

fn be16_of(b: &[u8], i: usize) -> (r: u32)
    requires
        i + 1 < b@.len(),
    ensures
        r == be16(b@, i as int),
        r < 65536,
{
    b[i] as u32 * 256 + b[i + 1] as u32
}

/// The size of a PNG.
pub fn png_dimensions(b: &[u8]) -> (r: Option<(u32, u32)>)
    ensures
        size(r) == spec_png_dimensions(b@),
{
    if b.len() < 24 || !png_head(b) {
        return None;
    }
    let ghost name = b@.subrange(12, 16);
    if !(b[12] == 73 && b[13] == 72 && b[14] == 68 && b[15] == 82) {
        assert(name[0] != 73 || name[1] != 72 || name[2] != 68 || name[3] != 82);
        return None;
    }
    assert(name =~= seq![73u8, 72u8, 68u8, 82u8]);
    Some(
        (
            be16_of(b, 16) * 65536 + be16_of(b, 18),
            be16_of(b, 20) * 65536 + be16_of(b, 22),
        ),
    )
}

/// The size of a GIF's logical screen.
pub fn gif_dimensions(b: &[u8]) -> (r: Option<(u32, u32)>)
    ensures
        size(r) == spec_gif_dimensions(b@),
{
    if b.len() < 10 || !gif_head(b) {
        return None;
    }
    Some((b[7] as u32 * 256 + b[6] as u32, b[9] as u32 * 256 + b[8] as u32))
}

/// The size of a JPEG: of the first frame before any scan.
pub fn jpeg_dimensions(b: &[u8]) -> (r: Option<(u32, u32)>)
    ensures
        size(r) == spec_jpeg_dimensions(b@),
{
    let n = b.len();
    if n < 4 || b[0] != 0xff || b[1] != 0xd8 {
        return None;
    }
    let mut i: usize = 2;
    while i < n - 1
        invariant
            4 <= n == b@.len(),
            b@[0] == 0xff,
            b@[1] == 0xd8,
            i <= n,
            frame_from(b@, 2) == frame_from(b@, i as int),
        decreases n - i,
    {
        if b[i] != 0xff {
            i = i + 1;
            continue;
        }
        let mut m: usize = i + 1;
        proof {
            lemma_code_at(b@, i + 1);
        }
        while m < n - 1 && b[m] == 0xff
            invariant
                4 <= n == b@.len(),
                i < m < n,
                code_at(b@, i + 1) == code_at(b@, m as int),
            decreases n - m,
        {
            m = m + 1;
        }
        assert(m == code_at(b@, i + 1));
        let k = b[m];
        if k == 0x01 || (0xd0 <= k && k <= 0xd9) {
            i = m + 1;
        } else {
            if k == 0xda || n - m <= 2 {
                return None;
            }
            let len = be16_of(b, m + 1) as usize;
            if len < 2 {
                return None;
            }
            if 0xc0 <= k && k <= 0xcf && k != 0xc4 && k != 0xc8 && k != 0xcc {
                if n - m < 8 {
                    return None;
                }
                return Some((be16_of(b, m + 6), be16_of(b, m + 4)));
            }
            if len >= n - m - 1 {
                return None;
            }
            i = m + 1 + len;
        }
    }
    None
}

/// The size of an image, where its format says it in a header that is read here:
/// PNG, GIF and JPEG.
pub fn image_dimensions(bytes: &[u8]) -> (r: Option<(u32, u32)>)
    ensures
        size(r) == spec_image_dimensions(bytes@),
{
    if let Some(d) = png_dimensions(bytes) {
        return Some(d);
    }
    if let Some(d) = gif_dimensions(bytes) {
        return Some(d);
    }
    jpeg_dimensions(bytes)
}

// ---------------------------------------------------------------- the cover

/// The href of the first item from `i` on that is declared as the cover image.
pub open spec fn cover_item(items: Seq<OpfItem>, i: int) -> Option<Seq<char>>
    decreases items.len() - i,
{
    if i < 0 || i >= items.len() {
        None
    } else if text::spec_words(items[i].properties).contains("cover-image"@) {
        Some(items[i].href)
    } else {
        cover_item(items, i + 1)
    }
}

/// The href of the declared cover image.
pub open spec fn cover_href(t: Seq<char>, items: Seq<OpfItem>) -> Option<Seq<char>> {
    match cover_item(items, 0) {
        Some(h) => Some(h),
        None => match opf::meta_content(t, markup::spec_tokens(t), "cover"@, 0) {
            Some(id) => match opf::item_named(items, id, 0) {
                Some(item) => Some(item.href),
                None => None,
            },
            None => None,
        },
    }
}

/// The zip path of the declared cover image.
pub open spec fn cover_path(d: Found) -> Option<Seq<char>> {
    match cover_href(d.text, d.book.items) {
        Some(h) if h.len() > 0 => Some(package::spec_abs(d.base(), h)),
        _ => None,
    }
}

fn cover_item_of(opf: &OpfData) -> (r: Option<String>)
    ensures
        text::opt_str(r) == cover_item(opf@.items, 0),
{
    let mut i: usize = 0;
    while i < opf.manifest.len()
        invariant
            i <= opf.manifest@.len(),
            cover_item(opf@.items, 0) == cover_item(opf@.items, i as int),
        decreases opf.manifest@.len() - i,
    {
        assert(opf@.items[i as int] == opf.manifest@[i as int]@);
        if list_has(
            &words(&chars_of(&opf.manifest[i].properties)),
            &chars_of("cover-image"),
        ) {
            return Some(opf.manifest[i].href.clone());
        }
        i = i + 1;
    }
    None
}

fn cover_path_of(d: &PackageDoc) -> (r: Option<String>)
    requires
        d.base@ == d@.base(),
    ensures
        text::opt_str(r) == cover_path(d@),
{
    let href = match cover_item_of(&d.opf) {
        Some(h) => h,
        None => match meta_content_of(&chars_of(&d.text), "cover") {
            Some(id) => match item_named_in(&d.opf.manifest, &id) {
                Some(k) => d.opf.manifest[k].href.clone(),
                None => {
                    return None;
                },
            },
            None => {
                return None;
            },
        },
    };
    if chars_of(&href).len() > 0 {
        Some(abs_path(&d.base, &href))
    } else {
        None
    }
}

// ---------------------------------------------------------------- extraction

/// The image of a manifest item: nothing where no member is there or it is no
/// image.
pub open spec fn picture_of(p: Seq<Part>, d: Found, item: OpfItem) -> Option<Picture> {
    let path = package::spec_abs(d.base(), item.href);
    match edit::spec_get(p, path) {
        None => None,
        Some(bytes) => match spec_ext_for(item.media_type, bytes) {
            None => None,
            Some(ext) => {
                let dims = spec_image_dimensions(bytes);
                Some(
                    Picture {
                        path,
                        manifest_id: Some(item.id),
                        media_type: if item.media_type.len() > 0 {
                            Some(item.media_type)
                        } else {
                            None
                        },
                        bytes,
                        ext,
                        width: match dims {
                            Some((w, _)) => Some(w),
                            None => None,
                        },
                        height: match dims {
                            Some((_, h)) => Some(h),
                            None => None,
                        },
                        is_cover: cover_path(d) == Some(path),
                    },
                )
            },
        },
    }
}

/// `v`, in order of path, with `x` behind those that are not behind it.
pub open spec fn placed(v: Seq<Picture>, x: Picture, i: int) -> Seq<Picture>
    decreases v.len() - i,
{
    if i < 0 || i >= v.len() {
        v.push(x)
    } else if spine_repair::not_behind(v[i].path, x.path, 0) {
        placed(v, x, i + 1)
    } else {
        v.subrange(0, i).push(x) + v.subrange(i, v.len() as int)
    }
}

/// The images of the first `n` manifest items, in order of path.
pub open spec fn pictures_to(p: Seq<Part>, d: Found, n: int) -> Seq<Picture>
    decreases n,
{
    if n <= 0 {
        Seq::empty()
    } else {
        match picture_of(p, d, d.book.items[n - 1]) {
            Some(x) => placed(pictures_to(p, d, n - 1), x, 0),
            None => pictures_to(p, d, n - 1),
        }
    }
}

/// The images of an EPUB, in order of path.
pub open spec fn spec_extract_images(bytes: Seq<u8>) -> Result<Seq<Picture>, Fault> {
    match edit::spec_parse(bytes) {
        None => Err(Fault::Archive),
        Some(p) => match package::spec_package_doc(p) {
            Err(f) => Err(f),
            Ok(d) => Ok(pictures_to(p, d, d.book.items.len() as int)),
        },
    }
}

pub open spec fn pictures_result(r: Result<Vec<ExtractedImage>, Error>) -> Result<
    Seq<Picture>,
    Fault,
> {
    match r {
        Ok(v) => Ok(pictures(v@)),
        Err(e) => Err(e@),
    }
}

spec fn picture_said(r: Option<ExtractedImage>) -> Option<Picture> {
    match r {
        Some(x) => Some(x@),
        None => None,
    }
}

fn picture(pkg: &EpubPackage, d: &PackageDoc, cover: &Option<String>, k: usize) -> (r: Option<
    ExtractedImage,
>)
    requires
        d.base@ == d@.base(),
        text::opt_str(*cover) == cover_path(d@),
        k < d.opf.manifest@.len(),
    ensures
        picture_said(r) == picture_of(pkg@, d@, d.opf.manifest@[k as int]@),
{
    let item = &d.opf.manifest[k];
    let path = abs_path(&d.base, &item.href);
    let bytes = match pkg.get(&path) {
        Some(b) => b,
        None => {
            return None;
        },
    };
    let ext = match ext_for(&item.media_type, bytes) {
        Some(e) => e,
        None => {
            return None;
        },
    };
    let (width, height) = match image_dimensions(bytes) {
        Some((w, h)) => (Some(w), Some(h)),
        None => (None, None),
    };
    let is_cover = match cover {
        Some(c) => str_is(c, &path),
        None => false,
    };
    let media_type = if chars_of(&item.media_type).len() > 0 {
        Some(item.media_type.clone())
    } else {
        None
    };
    Some(
        ExtractedImage {
            path,
            manifest_id: Some(item.id.clone()),
            media_type,
            bytes: slice_copy(bytes),
            ext,
            width,
            height,
            is_cover,
        },
    )
}

fn put_in_place(v: &mut Vec<ExtractedImage>, x: ExtractedImage)
    ensures
        pictures(final(v)@) == placed(pictures(old(v)@), x@, 0),
{
    let ghost all = pictures(v@);
    let ghost xv = x@;
    let n = v.len();
    let path = chars_of(&x.path);
    let mut i: usize = 0;
    while i < n && not_behind_of(&chars_of(&v[i].path), &path)
        invariant
            i <= n == v@.len() == all.len(),
            v@ == old(v)@,
            all == pictures(v@),
            path@ == xv.path,
            placed(all, xv, 0) == placed(all, xv, i as int),
        decreases n - i,
    {
        i = i + 1;
    }
    v.insert(i, x);
    assert(pictures(v@) =~= placed(all, xv, i as int));
}

/// Every image that the EPUB's manifest declares, in order of path.
pub fn epub_extract_images(epub_bytes: &[u8]) -> (r: Result<Vec<ExtractedImage>, Error>)
    ensures
        pictures_result(r) == spec_extract_images(epub_bytes@),
{
    let pkg = match EpubPackage::parse(epub_bytes) {
        Ok(p) => p,
        Err(e) => {
            return Err(e);
        },
    };
    let d = match package_doc(&pkg) {
        Ok(d) => d,
        Err(e) => {
            return Err(e);
        },
    };
    let cover = cover_path_of(&d);
    let mut out: Vec<ExtractedImage> = Vec::new();
    assert(pictures(out@) =~= Seq::<Picture>::empty());
    let mut i: usize = 0;
    while i < d.opf.manifest.len()
        invariant
            i <= d.opf.manifest@.len(),
            d.base@ == d@.base(),
            text::opt_str(cover) == cover_path(d@),
            pictures(out@) == pictures_to(pkg@, d@, i as int),
        decreases d.opf.manifest@.len() - i,
    {
        assert(d@.book.items[i as int] == d.opf.manifest@[i as int]@);
        if let Some(x) = picture(&pkg, &d, &cover, i) {
            put_in_place(&mut out, x);
        }
        i = i + 1;
    }
    Ok(out)
}

// ---------------------------------------------------------------- the order

/// Each image is not behind the next.
pub open spec fn in_path_order(v: Seq<Picture>) -> bool {
    forall|i: int, j: int|
        0 <= i < j < v.len() ==> spine_repair::not_behind(
            (#[trigger] v[i]).path,
            (#[trigger] v[j]).path,
            0,
        )
}

proof fn lemma_total(a: Seq<char>, b: Seq<char>, i: int)
    requires
        !spine_repair::not_behind(a, b, i),
    ensures
        spine_repair::not_behind(b, a, i),
    decreases a.len() - i,
{
    if 0 <= i < a.len() && i < b.len() && a[i] == b[i] {
        lemma_total(a, b, i + 1);
    }
}

proof fn lemma_transitive(a: Seq<char>, b: Seq<char>, c: Seq<char>, i: int)
    requires
        0 <= i,
        spine_repair::not_behind(a, b, i),
        spine_repair::not_behind(b, c, i),
    ensures
        spine_repair::not_behind(a, c, i),
    decreases a.len() - i,
{
    if i < a.len() && i < b.len() && i < c.len() && a[i] == b[i] && b[i] == c[i] {
        lemma_transitive(a, b, c, i + 1);
    }
}

proof fn lemma_placed(v: Seq<Picture>, x: Picture, i: int)
    requires
        0 <= i <= v.len(),
        in_path_order(v),
        forall|k: int| 0 <= k < i ==> spine_repair::not_behind((#[trigger] v[k]).path, x.path, 0),
    ensures
        in_path_order(placed(v, x, i)),
    decreases v.len() - i,
{
    if i >= v.len() {
    } else if spine_repair::not_behind(v[i].path, x.path, 0) {
        lemma_placed(v, x, i + 1);
    } else {
        lemma_total(v[i].path, x.path, 0);
        let w = v.subrange(0, i).push(x) + v.subrange(i, v.len() as int);
        assert forall|k: int| i <= k < v.len() implies spine_repair::not_behind(
            x.path,
            (#[trigger] v[k]).path,
            0,
        ) by {
            if k > i {
                lemma_transitive(x.path, v[i].path, v[k].path, 0);
            }
        }
        assert forall|a: int, b: int| 0 <= a < b < w.len() implies spine_repair::not_behind(
            (#[trigger] w[a]).path,
            (#[trigger] w[b]).path,
            0,
        ) by {
            let av = if a < i {
                v[a]
            } else if a == i {
                x
            } else {
                v[a - 1]
            };
            let bv = if b < i {
                v[b]
            } else if b == i {
                x
            } else {
                v[b - 1]
            };
            assert(w[a] == av);
            assert(w[b] == bv);
        }
    }
}

proof fn lemma_pictures_ordered(p: Seq<Part>, d: Found, n: int)
    ensures
        in_path_order(pictures_to(p, d, n)),
    decreases n,
{
    if n > 0 {
        lemma_pictures_ordered(p, d, n - 1);
        if let Some(x) = picture_of(p, d, d.book.items[n - 1]) {
            lemma_placed(pictures_to(p, d, n - 1), x, 0);
        }
    }
}

/// Extracted images come in order of path.
pub proof fn images_come_in_path_order(bytes: Seq<u8>)
    ensures
        spec_extract_images(bytes) matches Ok(v) ==> in_path_order(v),
{
    if let Some(p) = edit::spec_parse(bytes) {
        if let Ok(d) = package::spec_package_doc(p) {
            lemma_pictures_ordered(p, d, d.book.items.len() as int);
        }
    }
}

} // verus!
