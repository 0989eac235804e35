use bokai::edit::{read_member, Entry, EpubPackage};
use bokai::image_extract::epub_extract_images;
use bokai::metadata_edit::{edit_metadata, MetadataPatch};
use bokai::opf::Metadata;
use bokai::package::{package_doc, PackageDoc};
use bokai::pretty::beautify;
use bokai::toc::{parse_nav_toc, parse_ncx, TocEntry};
use bokai::toc_repair::set_toc;
use std::io::{Cursor, Read};
use zip::{CompressionMethod, ZipArchive};

const MIMETYPE: &str = "application/epub+zip";

const CONTAINER: &str = r#"<?xml version="1.0"?><container version="1.0" xmlns="urn:oasis:names:tc:opendocument:xmlns:container"><rootfiles><rootfile full-path="OEBPS/content.opf" media-type="application/oebps-package+xml"/></rootfiles></container>"#;

const OPF: &str = r##"<?xml version="1.0" encoding="utf-8"?>
<package xmlns="http://www.idpf.org/2007/opf" version="3.0" unique-identifier="uid">
  <metadata xmlns:dc="http://purl.org/dc/elements/1.1/" xmlns:opf="http://www.idpf.org/2007/opf">
    <dc:identifier id="uid">urn:uuid:0d1c4f3e</dc:identifier>
    <dc:identifier opf:scheme="ASIN">B00OLDASIN</dc:identifier>
    <dc:title>人間失格</dc:title>
    <dc:creator id="creator1">太宰 治</dc:creator>
    <meta refines="#creator1" property="role" scheme="marc:relators">aut</meta>
    <dc:language>ja</dc:language>
    <dc:publisher>青空文庫</dc:publisher>
    <meta name="cover" content="cover-image"/>
  </metadata>
  <manifest>
    <item id="nav" href="nav.xhtml" media-type="application/xhtml+xml" properties="nav"/>
    <item id="ncx" href="toc.ncx" media-type="application/x-dtbncx+xml"/>
    <item id="cover-image" href="cover.jpeg" media-type="image/jpeg" properties="cover-image"/>
    <item id="css" href="style.css" media-type="text/css"/>
    <item id="titlepage" href="titlepage.xhtml" media-type="application/xhtml+xml"/>
    <item id="c16" href="c16.xhtml" media-type="application/xhtml+xml"/>
    <item id="c2A" href="c2A.xhtml" media-type="application/xhtml+xml"/>
    <item id="c5S" href="c5S.xhtml" media-type="application/xhtml+xml"/>
  </manifest>
  <spine toc="ncx">
    <itemref idref="titlepage"/>
    <itemref idref="c16"/>
    <itemref idref="c2A"/>
    <itemref idref="c5S"/>
  </spine>
</package>
"##;

const NAV: &str = r#"<html xmlns="http://www.w3.org/1999/xhtml" xmlns:epub="http://www.idpf.org/2007/ops"><head><title>目次</title></head><body><nav epub:type="toc"><ol><li><a href="c16.xhtml">はしがき</a></li></ol></nav></body></html>"#;

const NCX: &str = r#"<?xml version="1.0"?><ncx xmlns="http://www.daisy.org/z3986/2005/ncx/" version="2005-1"><head/><docTitle><text>人間失格</text></docTitle><navMap><navPoint id="n1" playOrder="1"><navLabel><text>はしがき</text></navLabel><content src="c16.xhtml"/></navPoint></navMap></ncx>"#;

const CSS: &str = "body{margin:0;padding:0}p{text-indent:1em}";

/// The markers and the frame header of a picture of 2 by 3 pixels.
const COVER: [u8; 27] = [
    0xFF, 0xD8, 0xFF, 0xE0, 0x00, 0x04, 0x00, 0x00, 0xFF, 0xC0, 0x00, 0x0B, 0x08, 0x00, 0x03, 0x00,
    0x02, 0x01, 0x01, 0x11, 0x00, 0x00, 0x00, 0x00, 0x00, 0xFF, 0xD9,
];

fn page(body: &str) -> Vec<u8> {
    format!(
        "<html xmlns=\"http://www.w3.org/1999/xhtml\"><head><title>人間失格</title><link rel=\"stylesheet\" href=\"style.css\"/></head><body>{body}</body></html>"
    )
    .into_bytes()
}

fn member(name: &str, data: Vec<u8>) -> Entry {
    Entry { name: name.to_string(), data, stored: name == "mimetype" }
}

fn read_fixture() -> Vec<u8> {
    let pkg = EpubPackage {
        entries: vec![
            member("mimetype", MIMETYPE.as_bytes().to_vec()),
            member("META-INF/container.xml", CONTAINER.as_bytes().to_vec()),
            member("OEBPS/content.opf", OPF.as_bytes().to_vec()),
            member("OEBPS/nav.xhtml", NAV.as_bytes().to_vec()),
            member("OEBPS/toc.ncx", NCX.as_bytes().to_vec()),
            member("OEBPS/cover.jpeg", COVER.to_vec()),
            member("OEBPS/style.css", CSS.as_bytes().to_vec()),
            member("OEBPS/titlepage.xhtml", page("<h1>人間失格</h1><p>太宰治</p>")),
            member(
                "OEBPS/c16.xhtml",
                page("<h2>はしがき</h2><p>私は、その男の写真を三葉、見たことがある。</p><p>一葉は、その男の、幼年時代。</p>"),
            ),
            member("OEBPS/c2A.xhtml", page("<h2>第一の手記</h2><p>恥の多い生涯を送って来ました。</p>")),
            member("OEBPS/c5S.xhtml", page("<h2>第二の手記</h2><p>海の、<ruby>波打際<rt>なみうちぎわ</rt></ruby>。</p>")),
        ],
    };
    pkg.into_bytes().expect("written")
}

fn doc(epub: &[u8]) -> PackageDoc {
    package_doc(&EpubPackage::parse(epub).expect("parse")).expect("opens")
}

fn metadata(epub: &[u8]) -> Metadata {
    doc(epub).opf.metadata
}

/// The path of the one picture that is the cover.
fn cover_of(epub: &[u8]) -> Vec<String> {
    epub_extract_images(epub)
        .expect("valid EPUB")
        .into_iter()
        .filter(|i| i.is_cover)
        .map(|i| i.path)
        .collect()
}

fn text(pkg: &EpubPackage, path: &str) -> String {
    String::from_utf8(pkg.get(path).expect(path).to_vec()).expect("utf-8")
}

#[test]
fn roundtrip_is_faithful_and_reopens() {
    let epub = read_fixture();
    let before = EpubPackage::parse(&epub).expect("parse fixture");
    let before_names = before.names();
    let before_cover = before.get("OEBPS/cover.jpeg").expect("cover present").to_vec();

    let out = EpubPackage::parse(&epub)
        .expect("parse fixture")
        .into_bytes()
        .expect("repackage");
    let after = EpubPackage::parse(&out).expect("re-parse repackaged");

    assert_eq!(before_names, after.names(), "every member preserved, in order");
    assert_eq!(
        after.get("OEBPS/cover.jpeg"),
        Some(before_cover.as_slice()),
        "image bytes pass through unchanged"
    );

    let book = package_doc(&after).expect("repackaged EPUB opens");
    assert_eq!(book.opf.metadata.title, "人間失格");
    assert!(!book.opf.spine_ids.is_empty(), "spine survives repackage");
}

#[test]
fn mimetype_is_first_and_stored() {
    let epub = read_fixture();
    let out = EpubPackage::parse(&epub)
        .expect("parse")
        .into_bytes()
        .expect("repackage");

    let mut archive = ZipArchive::new(Cursor::new(&out)).expect("open output");
    {
        let first = archive.by_index(0).expect("first member");
        assert_eq!(first.name(), "mimetype", "mimetype is first");
        assert_eq!(
            first.compression(),
            CompressionMethod::Stored,
            "mimetype is uncompressed"
        );
    }
    let mut body = String::new();
    archive
        .by_name("mimetype")
        .expect("mimetype member")
        .read_to_string(&mut body)
        .expect("read mimetype");
    assert_eq!(body, MIMETYPE);
}

#[test]
fn replace_is_surgical() {
    let epub = read_fixture();
    let original_css = {
        let p = EpubPackage::parse(&epub).expect("parse");
        p.get("OEBPS/style.css").expect("css present").to_vec()
    };
    let new_css = b"/* edited */ body { color: red; }".to_vec();

    let mut pkg = EpubPackage::parse(&epub).expect("parse");
    assert!(pkg.replace("OEBPS/style.css", new_css.clone()), "replaced");
    assert!(
        !pkg.replace("OEBPS/does-not-exist.css", vec![]),
        "replace of a missing member is a no-op returning false"
    );
    let cover = pkg.get("OEBPS/cover.jpeg").expect("cover").to_vec();

    let after = EpubPackage::parse(&pkg.into_bytes().expect("repackage")).expect("re-parse");
    assert_eq!(after.get("OEBPS/style.css"), Some(new_css.as_slice()));
    assert_ne!(
        after.get("OEBPS/style.css").unwrap(),
        original_css.as_slice()
    );
    assert_eq!(
        after.get("OEBPS/cover.jpeg"),
        Some(cover.as_slice()),
        "an unrelated member is untouched"
    );
}

#[test]
fn set_and_remove() {
    let epub = read_fixture();
    let mut pkg = EpubPackage::parse(&epub).expect("parse");

    pkg.set("OEBPS/new.txt", b"hello".to_vec());
    assert_eq!(pkg.get("OEBPS/new.txt"), Some(b"hello".as_slice()));
    pkg.set("OEBPS/new.txt", b"world".to_vec()); // upsert existing
    assert_eq!(pkg.get("OEBPS/new.txt"), Some(b"world".as_slice()));

    assert!(pkg.remove("OEBPS/titlepage.xhtml"));
    assert!(!pkg.remove("OEBPS/titlepage.xhtml"), "already gone");
    assert!(!pkg.contains("OEBPS/titlepage.xhtml"));

    let after = EpubPackage::parse(&pkg.into_bytes().expect("repackage")).expect("re-parse");
    assert_eq!(after.get("OEBPS/new.txt"), Some(b"world".as_slice()));
    assert!(!after.contains("OEBPS/titlepage.xhtml"));
}

#[test]
fn opf_path_and_bytes() {
    let epub = read_fixture();
    let pkg = EpubPackage::parse(&epub).expect("parse");
    assert_eq!(pkg.opf_path().expect("opf path"), "OEBPS/content.opf");
    let opf = pkg.opf_bytes().expect("opf bytes");
    assert!(
        opf.windows(9).any(|w| w == b"<dc:title"),
        "opf_bytes returns the package document"
    );
}

#[test]
fn read_member_matches_the_full_parse() {
    let epub = read_fixture();
    let pkg = EpubPackage::parse(&epub).expect("parse");
    let css = read_member(&epub, "OEBPS/style.css")
        .expect("read")
        .expect("present");
    assert_eq!(pkg.get("OEBPS/style.css"), Some(css.as_slice()));
    assert!(read_member(&epub, "OEBPS/missing.css").expect("read").is_none());
}

fn visible(s: &str) -> String {
    s.chars()
        .filter(|c| !c.is_ascii_whitespace() && *c != ';')
        .collect()
}

#[test]
fn pretty_fixture_keeps_every_visible_character() {
    let bytes = read_fixture();
    let before = EpubPackage::parse(&bytes).unwrap();
    let mut after = EpubPackage::parse(&bytes).unwrap();
    let changes = beautify(&mut after, None).unwrap();
    assert!(changes.changed.contains(&"OEBPS/c16.xhtml".to_string()));
    assert!(changes.changed.contains(&"OEBPS/style.css".to_string()));
    for path in &changes.changed {
        assert_eq!(visible(&text(&before, path)), visible(&text(&after, path)), "{path}");
    }
}

#[test]
fn extracts_cover_from_fixture() {
    let epub = read_fixture();
    let images = epub_extract_images(&epub).expect("valid EPUB");

    assert_eq!(images.len(), 1, "fixture has exactly one image");
    let img = &images[0];
    assert_eq!(img.path, "OEBPS/cover.jpeg");
    assert_eq!(img.ext, "jpg");
    assert_eq!(img.media_type.as_deref(), Some("image/jpeg"));
    assert!(img.is_cover, "the one image is the declared cover");
    assert!(!img.bytes.is_empty(), "cover has bytes");
    assert_eq!(&img.bytes[..3], &[0xFF, 0xD8, 0xFF], "bytes are a real JPEG, verbatim");
    assert_eq!((img.width, img.height), (Some(2), Some(3)));
}

#[test]
fn extracted_cover_bytes_match_the_zip_member() {
    let epub = read_fixture();
    let pkg = EpubPackage::parse(&epub).expect("parse");
    let member = pkg.get("OEBPS/cover.jpeg").expect("cover member").to_vec();
    let images = epub_extract_images(&epub).expect("valid EPUB");
    assert_eq!(images[0].bytes, member, "cover extracted byte-for-byte");
}

#[test]
fn edit_title_and_authors_on_fixture() {
    let epub = read_fixture();
    let before_lang = metadata(&epub).language;
    let before_cover = cover_of(&epub);

    let patch = MetadataPatch {
        title: Some("新しいタイトル".into()),
        authors: Some(vec!["著者 一".into(), "著者 二".into()]),
        ..Default::default()
    };
    let out = edit_metadata(&epub, &patch).expect("edit");
    let after = metadata(&out);

    assert_eq!(after.title, "新しいタイトル");
    assert_eq!(after.authors, vec!["著者 一", "著者 二"]);
    assert_eq!(after.language, before_lang, "language untouched");
    assert_eq!(cover_of(&out), before_cover, "cover untouched");
}

#[test]
fn edit_single_field_leaves_rest() {
    let epub = read_fixture();
    let before = metadata(&epub);
    let patch = MetadataPatch {
        publisher: Some("新潮社".into()),
        ..Default::default()
    };
    let after = metadata(&edit_metadata(&epub, &patch).unwrap());
    assert_eq!(after.publisher.as_deref(), Some("新潮社"));
    assert_eq!(after.title, before.title);
    assert_eq!(after.authors, before.authors);
}

#[test]
fn edit_asin_updates_existing_identifier() {
    let epub = read_fixture();
    let patch = MetadataPatch {
        asin: Some("B0TESTASIN".into()),
        ..Default::default()
    };
    let after = doc(&edit_metadata(&epub, &patch).unwrap());
    assert!(after
        .text
        .contains("<dc:identifier opf:scheme=\"ASIN\">B0TESTASIN</dc:identifier>"));
    assert!(!after.text.contains("B00OLDASIN"));
}

#[test]
fn empty_patch_returns_input_unchanged() {
    let epub = read_fixture();
    let out = edit_metadata(&epub, &MetadataPatch::default()).unwrap();
    assert_eq!(out, epub, "an empty patch is a no-op");
}

#[test]
fn escapes_xml_metacharacters() {
    let epub = read_fixture();
    let patch = MetadataPatch {
        title: Some("Q&A:<Draft>".into()),
        ..Default::default()
    };
    let out = edit_metadata(&epub, &patch).unwrap();
    // The written OPF is well-formed (metacharacters escaped, not raw).
    let pkg = EpubPackage::parse(&out).unwrap();
    let opf = String::from_utf8(pkg.opf_bytes().unwrap().to_vec()).unwrap();
    assert!(
        opf.contains("Q&amp;A:&lt;Draft&gt;"),
        "value escaped in the OPF"
    );
    assert!(!opf.contains("Q&A:<Draft>"), "no raw metacharacters");
    // And it round-trips through the parser.
    assert_eq!(metadata(&out).title, "Q&A:<Draft>");
}

fn entry(title: &str, href: &str) -> TocEntry {
    TocEntry::new(title.to_string(), href.to_string())
}

fn titles(v: &[TocEntry]) -> Vec<&str> {
    v.iter().map(|e| e.title.as_str()).collect()
}

#[test]
fn set_toc_splices_existing_docs() {
    let epub = read_fixture();
    let entries = vec![
        entry("第一章", "OEBPS/c16.xhtml"),
        entry("第二章", "OEBPS/c2A.xhtml"),
        entry("第三章", "OEBPS/c5S.xhtml"),
    ];
    let out = set_toc(&epub, &entries).expect("set_toc");

    let pkg = EpubPackage::parse(&out).expect("parse");
    // No duplicate nav docs were created — the existing ones were reused.
    assert!(pkg.contains("OEBPS/nav.xhtml") && pkg.contains("OEBPS/toc.ncx"));
    assert_eq!(pkg.names().len(), EpubPackage::parse(&epub).expect("parse").names().len());
    let from_nav = parse_nav_toc(&text(&pkg, "OEBPS/nav.xhtml"));
    assert_eq!(titles(&from_nav), ["第一章", "第二章", "第三章"]);
    let from_ncx = parse_ncx(&text(&pkg, "OEBPS/toc.ncx"));
    assert_eq!(titles(&from_ncx), ["第一章", "第二章", "第三章"]);
}

#[test]
fn set_toc_preserves_nesting() {
    let epub = read_fixture();
    let entries = vec![TocEntry {
        title: "第一部".into(),
        href: "OEBPS/c16.xhtml".into(),
        children: vec![
            entry("第一章", "OEBPS/c2A.xhtml"),
            entry("第二章", "OEBPS/c5S.xhtml"),
        ],
    }];
    let out = set_toc(&epub, &entries).expect("set_toc");
    let pkg = EpubPackage::parse(&out).expect("parse");
    let toc = parse_nav_toc(&text(&pkg, "OEBPS/nav.xhtml"));
    assert_eq!(toc.len(), 1);
    assert_eq!(toc[0].title, "第一部");
    assert_eq!(titles(&toc[0].children), ["第一章", "第二章"]);
}
