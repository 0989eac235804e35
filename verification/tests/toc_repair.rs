use std::io::Write;

use bokai::codec::decode_text;
use bokai::edit::EpubPackage;
use bokai::nav_doc::{depth, render_navmap};
use bokai::opf::parse_opf;
use bokai::structure::dir_of;
use bokai::toc::{flat_count, TocEntry};
use bokai::toc_repair::{
    contents_page_links, declared_toc_flattening, existing_declared_toc, nav_tag_is_toc,
    propose_toc, repair_toc, set_toc, splice_toc_nav,
};
use bokai::toc_shape::{nest_levels, MIN_INDENT_EVIDENCE};

/// The declared table of contents of an EPUB.
fn declared(epub: &[u8]) -> Vec<TocEntry> {
    let pkg = EpubPackage::parse(epub).expect("parse");
    let opf = parse_opf(&decode_text(pkg.opf_bytes().expect("opf"))).expect("opf parses");
    let base = dir_of(&pkg.opf_path().expect("opf path"));
    existing_declared_toc(&pkg, &opf, &base)
}

fn epub_with_broken_anchors(version: &str, identifiers: &str) -> Vec<u8> {
    let mut buf = Vec::new();
    {
        let mut zip = zip::ZipWriter::new(std::io::Cursor::new(&mut buf));
        let stored = zip::write::SimpleFileOptions::default()
            .compression_method(zip::CompressionMethod::Stored);
        let mut add = |name: &str, body: &str| {
            zip.start_file(name, stored).unwrap();
            zip.write_all(body.as_bytes()).unwrap();
        };
        add("mimetype", "application/epub+zip");
        add(
            "META-INF/container.xml",
            r#"<?xml version="1.0"?><container version="1.0" xmlns="urn:oasis:names:tc:opendocument:xmlns:container"><rootfiles><rootfile full-path="OEBPS/content.opf" media-type="application/oebps-package+xml"/></rootfiles></container>"#,
        );
        let mut manifest = String::from(
            r#"<item id="toc-page" href="toc.xhtml" media-type="application/xhtml+xml"/>"#,
        );
        let mut spine = String::from(r#"<itemref idref="toc-page"/>"#);
        let mut toc_links = String::new();
        for n in 1..=6 {
            manifest.push_str(&format!(
                r#"<item id="c{n}" href="c{n}.xhtml" media-type="application/xhtml+xml"/>"#
            ));
            spine.push_str(&format!(r#"<itemref idref="c{n}"/>"#));
            // Odd chapters define the anchor the Contents page names; even
            // ones don't.
            let anchor = if n % 2 == 1 {
                format!(r#"<h1 id="a{n}">Chapter {n}</h1>"#)
            } else {
                format!("<h1>Chapter {n}</h1>")
            };
            toc_links.push_str(&format!(
                r#"<li><a href="c{n}.xhtml#a{n}">Chapter {n}</a></li>"#
            ));
            add(
                &format!("OEBPS/c{n}.xhtml"),
                &format!(
                    r#"<?xml version="1.0" encoding="utf-8"?><html xmlns="http://www.w3.org/1999/xhtml"><head><title>C{n}</title></head><body>{anchor}<p>body {n}</p></body></html>"#
                ),
            );
        }
        add(
            "OEBPS/content.opf",
            &format!(
                r#"<?xml version="1.0" encoding="utf-8"?><package xmlns="http://www.idpf.org/2007/opf" version="{version}" unique-identifier="uid"><metadata xmlns:dc="http://purl.org/dc/elements/1.1/"><dc:title>Anchored Book</dc:title><dc:language>en</dc:language>{identifiers}</metadata><manifest>{manifest}</manifest><spine>{spine}</spine></package>"#
            ),
        );
        add(
            "OEBPS/toc.xhtml",
            &format!(
                r#"<?xml version="1.0" encoding="utf-8"?><html xmlns="http://www.w3.org/1999/xhtml"><head><title>Contents</title></head><body><h1>Contents</h1><ul>{toc_links}</ul></body></html>"#
            ),
        );
        zip.finish().unwrap();
    }
    buf
}

fn no_toc_epub() -> Vec<u8> {
    let mut buf = Vec::new();
    {
        let mut zip = zip::ZipWriter::new(std::io::Cursor::new(&mut buf));
        let stored = zip::write::SimpleFileOptions::default()
            .compression_method(zip::CompressionMethod::Stored);
        let mut add = |name: &str, body: &str| {
            zip.start_file(name, stored).unwrap();
            zip.write_all(body.as_bytes()).unwrap();
        };
        add("mimetype", "application/epub+zip");
        add(
            "META-INF/container.xml",
            r#"<?xml version="1.0"?><container version="1.0" xmlns="urn:oasis:names:tc:opendocument:xmlns:container"><rootfiles><rootfile full-path="OEBPS/content.opf" media-type="application/oebps-package+xml"/></rootfiles></container>"#,
        );
        let mut manifest = String::from(
            r#"<item id="toc-page" href="toc.xhtml" media-type="application/xhtml+xml"/>"#,
        );
        let mut spine = String::from(r#"<itemref idref="toc-page"/>"#);
        let mut toc_links = String::new();
        for n in 1..=6 {
            manifest.push_str(&format!(
                r#"<item id="c{n}" href="c{n}.xhtml" media-type="application/xhtml+xml"/>"#
            ));
            spine.push_str(&format!(r#"<itemref idref="c{n}"/>"#));
            toc_links.push_str(&format!(r#"<li><a href="c{n}.xhtml">Chapter {n}</a></li>"#));
            add(
                &format!("OEBPS/c{n}.xhtml"),
                &format!(
                    r#"<?xml version="1.0" encoding="utf-8"?><html xmlns="http://www.w3.org/1999/xhtml"><head><title>C{n}</title></head><body><h1 id="h{n}">Chapter {n}</h1><p>body {n}</p></body></html>"#
                ),
            );
        }
        add(
            "OEBPS/content.opf",
            &format!(
                r#"<?xml version="1.0" encoding="utf-8"?><package xmlns="http://www.idpf.org/2007/opf" version="3.0" unique-identifier="uid"><metadata xmlns:dc="http://purl.org/dc/elements/1.1/"><dc:title>No TOC Book</dc:title><dc:language>en</dc:language><dc:identifier id="uid">urn:uuid:test-book</dc:identifier></metadata><manifest>{manifest}</manifest><spine>{spine}</spine></package>"#
            ),
        );
        add(
            "OEBPS/toc.xhtml",
            &format!(
                r#"<?xml version="1.0" encoding="utf-8"?><html xmlns="http://www.w3.org/1999/xhtml"><head><title>Contents</title></head><body><h1>Contents</h1><ul>{toc_links}</ul></body></html>"#
            ),
        );
        zip.finish().unwrap();
    }
    buf
}

fn image_toc_and_ncx_epub() -> Vec<u8> {
    let mut buf = Vec::new();
    {
        let mut zip = zip::ZipWriter::new(std::io::Cursor::new(&mut buf));
        let stored = zip::write::SimpleFileOptions::default()
            .compression_method(zip::CompressionMethod::Stored);
        let mut add = |name: &str, body: &str| {
            zip.start_file(name, stored).unwrap();
            zip.write_all(body.as_bytes()).unwrap();
        };
        add("mimetype", "application/epub+zip");
        add(
            "META-INF/container.xml",
            r#"<?xml version="1.0"?><container version="1.0" xmlns="urn:oasis:names:tc:opendocument:xmlns:container"><rootfiles><rootfile full-path="OEBPS/content.opf" media-type="application/oebps-package+xml"/></rootfiles></container>"#,
        );
        // 目次 page: an image, no links.
        add(
            "OEBPS/Text/mokuji.xhtml",
            r#"<?xml version="1.0" encoding="utf-8"?><html xmlns="http://www.w3.org/1999/xhtml"><head><title>目次</title></head><body class="contents"><div><p><img src="../Images/toc.jpg" alt=""/></p></div></body></html>"#,
        );
        let mut manifest = String::from(
            r#"<item id="ncx" href="toc.ncx" media-type="application/x-dtbncx+xml"/><item id="mokuji" href="Text/mokuji.xhtml" media-type="application/xhtml+xml"/>"#,
        );
        let mut spine = String::from(r#"<itemref idref="mokuji"/>"#);
        let mut navpoints = String::from(
            r#"<navPoint id="np0" playOrder="1"><navLabel><text>目次</text></navLabel><content src="Text/mokuji.xhtml"/></navPoint>"#,
        );
        let titles = [
            "残酷童話　うつくし姫",
            "第零話　あせろら",
            "第零話　かれん",
            "第零話　つばさ",
            "あとがき",
        ];
        for (i, title) in titles.iter().enumerate() {
            let n = i + 1;
            manifest.push_str(&format!(
                r#"<item id="c{n}" href="Text/c{n}.xhtml" media-type="application/xhtml+xml"/>"#
            ));
            spine.push_str(&format!(r#"<itemref idref="c{n}"/>"#));
            navpoints.push_str(&format!(
                r#"<navPoint id="np{n}" playOrder="{}"><navLabel><text>{title}</text></navLabel><content src="Text/c{n}.xhtml#link{n}"/></navPoint>"#,
                n + 1
            ));
            // Chapter heading is an image — no text to derive a label from.
            add(
                &format!("OEBPS/Text/c{n}.xhtml"),
                &format!(
                    r#"<?xml version="1.0" encoding="utf-8"?><html xmlns="http://www.w3.org/1999/xhtml"><head><title>c{n}</title></head><body class="image-page"><div class="main"><h2 id="link{n}"><img src="../Images/p{n}.jpg" alt=""/></h2></div></body></html>"#
                ),
            );
        }
        add(
            "OEBPS/content.opf",
            &format!(
                r#"<?xml version="1.0" encoding="utf-8"?><package xmlns="http://www.idpf.org/2007/opf" version="2.0" unique-identifier="uid"><metadata xmlns:dc="http://purl.org/dc/elements/1.1/"><dc:title>業物語</dc:title><dc:language>ja</dc:language><dc:identifier id="uid">urn:uuid:image-toc</dc:identifier></metadata><manifest>{manifest}</manifest><spine toc="ncx">{spine}</spine><guide><reference type="toc" title="目次" href="Text/mokuji.xhtml"/></guide></package>"#
            ),
        );
        add(
            "OEBPS/toc.ncx",
            &format!(
                r#"<?xml version="1.0" encoding="utf-8"?><ncx xmlns="http://www.daisy.org/z3986/2005/ncx/" version="2005-1"><head><meta name="dtb:uid" content="urn:uuid:image-toc"/></head><docTitle><text>業物語</text></docTitle><navMap>{navpoints}</navMap></ncx>"#
            ),
        );
        zip.finish().unwrap();
    }
    buf
}

fn flat_omnibus_epub(volumes: usize) -> Vec<u8> {
    let mut buf = Vec::new();
    {
        let mut zip = zip::ZipWriter::new(std::io::Cursor::new(&mut buf));
        let stored = zip::write::SimpleFileOptions::default()
            .compression_method(zip::CompressionMethod::Stored);
        let mut add = |name: &str, body: &str| {
            zip.start_file(name, stored).unwrap();
            zip.write_all(body.as_bytes()).unwrap();
        };
        add("mimetype", "application/epub+zip");
        add(
            "META-INF/container.xml",
            r#"<?xml version="1.0"?><container version="1.0" xmlns="urn:oasis:names:tc:opendocument:xmlns:container"><rootfiles><rootfile full-path="OEBPS/content.opf" media-type="application/oebps-package+xml"/></rootfiles></container>"#,
        );
        let page = |title: &str, body: &str| {
            format!(
                r#"<?xml version="1.0" encoding="utf-8"?><html xmlns="http://www.w3.org/1999/xhtml"><head><title>{title}</title></head><body>{body}</body></html>"#
            )
        };
        let mut manifest = String::new();
        let mut spine = String::new();
        let mut navpoints = String::new();
        let mut order = 0;
        let mut declare = |id: &str, file: &str, label: Option<&str>| {
            manifest.push_str(&format!(
                r#"<item id="{id}" href="{file}" media-type="application/xhtml+xml"/>"#
            ));
            spine.push_str(&format!(r#"<itemref idref="{id}"/>"#));
            if let Some(label) = label {
                order += 1;
                navpoints.push_str(&format!(
                    r#"<navPoint id="np{order}" playOrder="{order}"><navLabel><text>{label}</text></navLabel><content src="{file}"/></navPoint>"#
                ));
            }
        };

        // The book's own cover — a full-bleed image page that starts no
        // volume, and is never in the TOC.
        add(
            "OEBPS/cover.xhtml",
            &page("Cover", r#"<div><img src="cover.jpg" alt=""/></div>"#),
        );
        declare("cover", "cover.xhtml", None);

        // Book-level Contents page, linking each volume's cover.
        let vol_links: String = (1..=volumes)
            .map(|v| format!(r#"<a href="v{v}cover.xhtml">Volume {v}</a>"#))
            .collect();
        add("OEBPS/contents.xhtml", &page("Contents", &vol_links));
        declare("contents", "contents.xhtml", Some("Contents"));

        for v in 1..=volumes {
            add(
                &format!("OEBPS/v{v}cover.xhtml"),
                &page("", &format!(r#"<div><img src="v{v}.jpg" alt=""/></div>"#)),
            );
            declare(
                &format!("v{v}cover"),
                &format!("v{v}cover.xhtml"),
                Some(&format!("Volume {v}")),
            );
            let chapter_links: String = (1..=3)
                .map(|c| format!(r#"<a href="v{v}c{c}.xhtml">Chapter {c}</a>"#))
                .collect();
            add(&format!("OEBPS/v{v}toc.xhtml"), &page("", &chapter_links));
            declare(
                &format!("v{v}toc"),
                &format!("v{v}toc.xhtml"),
                Some("Contents"),
            );
            for c in 1..=3 {
                add(
                    &format!("OEBPS/v{v}c{c}.xhtml"),
                    &page("", &format!("<p>Volume {v}, chapter {c} prose.</p>")),
                );
                declare(
                    &format!("v{v}c{c}"),
                    &format!("v{v}c{c}.xhtml"),
                    Some(&format!("Chapter {c}")),
                );
            }
        }

        // Back matter: no volume's Contents page lists it.
        add(
            "OEBPS/colophon.xhtml",
            &page("", "<p>Published by Someone.</p>"),
        );
        declare("colophon", "colophon.xhtml", Some("Colophon"));

        add(
            "OEBPS/content.opf",
            &format!(
                r#"<?xml version="1.0" encoding="utf-8"?><package xmlns="http://www.idpf.org/2007/opf" version="2.0" unique-identifier="uid"><metadata xmlns:dc="http://purl.org/dc/elements/1.1/"><dc:title>Omnibus</dc:title><dc:language>en</dc:language><dc:identifier id="uid">urn:uuid:omnibus</dc:identifier></metadata><manifest><item id="ncx" href="toc.ncx" media-type="application/x-dtbncx+xml"/>{manifest}</manifest><spine toc="ncx">{spine}</spine></package>"#
            ),
        );
        add(
            "OEBPS/toc.ncx",
            &format!(
                r#"<?xml version="1.0" encoding="utf-8"?><ncx xmlns="http://www.daisy.org/z3986/2005/ncx/" version="2005-1"><head><meta name="dtb:uid" content="urn:uuid:omnibus"/></head><docTitle><text>Omnibus</text></docTitle><navMap>{navpoints}</navMap></ncx>"#
            ),
        );
        zip.finish().unwrap();
    }
    buf
}

fn novel_with_a_pictorial_title_page() -> Vec<u8> {
    let mut buf = Vec::new();
    {
        let mut zip = zip::ZipWriter::new(std::io::Cursor::new(&mut buf));
        let stored = zip::write::SimpleFileOptions::default()
            .compression_method(zip::CompressionMethod::Stored);
        let mut add = |name: &str, body: &str| {
            zip.start_file(name, stored).unwrap();
            zip.write_all(body.as_bytes()).unwrap();
        };
        add("mimetype", "application/epub+zip");
        add(
            "META-INF/container.xml",
            r#"<?xml version="1.0"?><container version="1.0" xmlns="urn:oasis:names:tc:opendocument:xmlns:container"><rootfiles><rootfile full-path="OEBPS/content.opf" media-type="application/oebps-package+xml"/></rootfiles></container>"#,
        );
        let page = |body: &str| {
            format!(
                r#"<?xml version="1.0" encoding="utf-8"?><html xmlns="http://www.w3.org/1999/xhtml"><head><title>A Novel</title></head><body>{body}</body></html>"#
            )
        };
        let docs: Vec<(&str, String, Option<&str>)> = vec![
            (
                "cover.xhtml",
                page(r#"<img src="cover.jpg" alt=""/>"#),
                None,
            ),
            (
                "title.xhtml",
                page(
                    r#"<p><img src="logo.jpg" alt=""/></p><p><img src="press.jpg" alt=""/></p>"#,
                ),
                Some("Title Page"),
            ),
            (
                "alsoby.xhtml",
                page(
                    r#"<a href="c1.xhtml">A Novel</a><a href="c2.xhtml">Another Novel</a><a href="c3.xhtml">A Third</a>"#,
                ),
                Some("Also by the Author"),
            ),
            ("c1.xhtml", page("<p>One.</p>"), Some("1 The First")),
            ("c2.xhtml", page("<p>Two.</p>"), Some("2 The Second")),
            (
                "plate.xhtml",
                page(r#"<img src="map.jpg" alt=""/>"#),
                Some("Map"),
            ),
            ("c3.xhtml", page("<p>Three.</p>"), Some("3 The Third")),
        ];
        let mut manifest = String::new();
        let mut spine = String::new();
        let mut navpoints = String::new();
        for (order, (file, body, label)) in docs.iter().enumerate() {
            add(&format!("OEBPS/{file}"), body);
            manifest.push_str(&format!(
                r#"<item id="d{order}" href="{file}" media-type="application/xhtml+xml"/>"#
            ));
            spine.push_str(&format!(r#"<itemref idref="d{order}"/>"#));
            if let Some(label) = label {
                navpoints.push_str(&format!(
                    r#"<navPoint id="np{order}" playOrder="{order}"><navLabel><text>{label}</text></navLabel><content src="{file}"/></navPoint>"#
                ));
            }
        }
        add(
            "OEBPS/content.opf",
            &format!(
                r#"<?xml version="1.0" encoding="utf-8"?><package xmlns="http://www.idpf.org/2007/opf" version="2.0" unique-identifier="uid"><metadata xmlns:dc="http://purl.org/dc/elements/1.1/"><dc:title>A Novel</dc:title><dc:language>en</dc:language><dc:identifier id="uid">urn:uuid:novel</dc:identifier></metadata><manifest><item id="ncx" href="toc.ncx" media-type="application/x-dtbncx+xml"/>{manifest}</manifest><spine toc="ncx">{spine}</spine></package>"#
            ),
        );
        add(
            "OEBPS/toc.ncx",
            &format!(
                r#"<?xml version="1.0" encoding="utf-8"?><ncx xmlns="http://www.daisy.org/z3986/2005/ncx/" version="2005-1"><head><meta name="dtb:uid" content="urn:uuid:novel"/></head><docTitle><text>A Novel</text></docTitle><navMap>{navpoints}</navMap></ncx>"#
            ),
        );
        zip.finish().unwrap();
    }
    buf
}

#[test]
fn a_fragment_the_target_doesnt_define_is_dropped() {
    let epub = epub_with_broken_anchors(
        "3.0",
        r#"<dc:identifier id="uid">urn:uuid:anchored</dc:identifier>"#,
    );
    let out = repair_toc(&epub).expect("repair");
    let pkg = EpubPackage::parse(&out).expect("parse");
    let nav = String::from_utf8(pkg.get("OEBPS/nav.xhtml").expect("nav doc").to_vec()).unwrap();

    assert!(
        nav.contains(r#"href="c1.xhtml#a1""#),
        "kept a real anchor: {nav}"
    );
    assert!(
        nav.contains(r#"href="c2.xhtml""#) && !nav.contains("#a2"),
        "dropped the undefined anchor but kept the entry: {nav}"
    );
    // Every chapter is still listed — dropping a dead fragment must not drop
    // the entry with it.
    for n in 1..=6 {
        assert!(
            nav.contains(&format!("Chapter {n}")),
            "lost Chapter {n}: {nav}"
        );
    }
}

#[test]
fn the_ncx_uid_is_the_opfs_unique_identifier() {
    let epub = epub_with_broken_anchors(
        "2.0",
        r#"<dc:identifier>mobi-asin:B000000000</dc:identifier><dc:identifier>calibre:99</dc:identifier><dc:identifier id="uid">urn:uuid:the-real-one</dc:identifier>"#,
    );
    let out = repair_toc(&epub).expect("repair");
    let pkg = EpubPackage::parse(&out).expect("parse");
    let ncx = String::from_utf8(pkg.get("OEBPS/toc.ncx").expect("ncx").to_vec()).unwrap();

    assert!(
        ncx.contains(r#"content="urn:uuid:the-real-one""#),
        "dtb:uid must match the OPF unique identifier: {}",
        &ncx[..ncx.len().min(400)]
    );
}

#[test]
fn repair_does_not_change_the_books_epub_version() {
    let ids = r#"<dc:identifier id="uid">urn:uuid:versioned</dc:identifier>"#;

    let out2 = repair_toc(&epub_with_broken_anchors("2.0", ids)).expect("repair epub2");
    let pkg2 = EpubPackage::parse(&out2).expect("parse");
    assert!(pkg2.get("OEBPS/toc.ncx").is_some(), "EPUB 2 gets its NCX");
    assert!(
        pkg2.get("OEBPS/nav.xhtml").is_none(),
        "EPUB 2 must not gain an EPUB 3 nav document"
    );

    let out3 = repair_toc(&epub_with_broken_anchors("3.0", ids)).expect("repair epub3");
    let pkg3 = EpubPackage::parse(&out3).expect("parse");
    assert!(
        pkg3.get("OEBPS/nav.xhtml").is_some(),
        "EPUB 3 gets its nav doc"
    );
    assert!(
        pkg3.get("OEBPS/toc.ncx").is_none(),
        "EPUB 3 must not gain an NCX it never required"
    );
}

#[test]
fn repairs_a_no_toc_epub() {
    let epub = no_toc_epub();

    assert_eq!(declared(&epub).len(), 0, "starts with no declared TOC");

    let proposed = propose_toc(&epub).expect("propose");
    let labels: Vec<&str> = proposed.iter().map(|e| e.title.as_str()).collect();
    assert_eq!(
        labels,
        [
            "Chapter 1",
            "Chapter 2",
            "Chapter 3",
            "Chapter 4",
            "Chapter 5",
            "Chapter 6"
        ]
    );
    assert_eq!(proposed[0].href, "OEBPS/c1.xhtml");

    let out = repair_toc(&epub).expect("repair");

    // Reads back with the 6-chapter TOC.
    let toc = declared(&out);
    let toc_titles: Vec<&str> = toc.iter().map(|e| e.title.as_str()).collect();
    assert_eq!(
        toc_titles,
        [
            "Chapter 1",
            "Chapter 2",
            "Chapter 3",
            "Chapter 4",
            "Chapter 5",
            "Chapter 6"
        ]
    );

}

#[test]
fn a_synthesized_nav_doc_is_registered_in_the_opf() {
    let out = repair_toc(&no_toc_epub()).expect("repair");
    let pkg = EpubPackage::parse(&out).expect("parse");
    assert!(pkg.contains("OEBPS/nav.xhtml"), "nav doc created");
    let opf = String::from_utf8(pkg.opf_bytes().unwrap().to_vec()).unwrap();
    assert!(opf.contains("properties=\"nav\""), "nav registered");
}

#[test]
fn a_synthesized_ncx_is_registered_in_the_opf_and_spine() {
    let out = repair_toc(&epub_with_broken_anchors(
        "2.0",
        r#"<dc:identifier id="uid">urn:uuid:registered</dc:identifier>"#,
    ))
    .expect("repair");
    let pkg = EpubPackage::parse(&out).expect("parse");
    assert!(pkg.contains("OEBPS/toc.ncx"), "NCX created");
    let opf = String::from_utf8(pkg.opf_bytes().unwrap().to_vec()).unwrap();
    assert!(opf.contains("application/x-dtbncx+xml"), "NCX registered");
    assert!(opf.contains("<spine toc=\""), "spine points at the NCX");
}

#[test]
fn a_flattened_omnibus_toc_is_nested_back_into_its_volumes() {
    let proposed = propose_toc(&flat_omnibus_epub(2)).unwrap();

    let top: Vec<&str> = proposed.iter().map(|e| e.title.as_str()).collect();
    assert_eq!(top, ["Contents", "Volume 1", "Volume 2", "Colophon"]);
    // Each volume adopts its own Contents page + its three chapters.
    assert_eq!(proposed[1].children.len(), 4);
    assert_eq!(proposed[2].children.len(), 4);
    assert_eq!(proposed[1].children[1].title, "Chapter 1");
    // Nothing is lost — 1 + 2×(1 + 4) + 1 declared entries come back.
    assert_eq!(flat_count(&proposed), 12);
    // The colophon belongs to no volume and is not swallowed by the last.
    assert!(proposed[3].children.is_empty());
}

#[test]
fn repeated_ncx_targets_share_one_play_order() {
    let entries = vec![
        TocEntry::new("One".to_string(), "OEBPS/c1.xhtml".to_string()),
        TocEntry::new("One again".to_string(), "OEBPS/c1.xhtml".to_string()),
        TocEntry::new("Two".to_string(), "OEBPS/c2.xhtml".to_string()),
    ];
    let ncx = render_navmap(&entries, "OEBPS/");
    assert!(
        ncx.contains(r#"<navPoint id="navPoint-1" playOrder="1">"#),
        "{ncx}"
    );
    assert!(
        ncx.contains(r#"<navPoint id="navPoint-2" playOrder="1">"#),
        "{ncx}"
    );
    assert!(
        ncx.contains(r#"<navPoint id="navPoint-3" playOrder="2">"#),
        "{ncx}"
    );
}

#[test]
fn indentation_nests_to_any_depth() {
    const DEPTH: usize = 6;
    let mut entries = Vec::new();
    for level in 0..DEPTH {
        // Enough entries per level to clear the evidence threshold.
        for n in 0..MIN_INDENT_EVIDENCE {
            entries.push(TocEntry::new(
                format!("{}L{level}#{n}", "\u{3000}".repeat(level)),
                format!("OEBPS/l{level}_{n}.xhtml"),
            ));
        }
    }
    let total = entries.len();
    let nested = nest_levels(entries, &Vec::new());

    // Every level is one deeper than the last, and nothing was dropped.
    assert_eq!(depth(&nested), DEPTH);
    assert_eq!(flat_count(&nested), total);
    // The indentation is gone from the labels — the nesting now says it.
    assert!(!nested[0].title.starts_with('\u{3000}'));
    // Each level opens under the last entry of the one above it, so the
    // deepest chain is `last()` all the way down.
    let mut node = nested.last().expect("a root");
    for level in 1..DEPTH {
        node = node.children.last().expect("each level has children");
        assert!(
            node.title.starts_with(&format!("L{level}")),
            "{}",
            node.title
        );
    }

    // Writing and re-reading keeps the depth (the NCX carries it too).
    let epub = set_toc(&no_toc_epub(), &nested).unwrap();
    let pkg = EpubPackage::parse(&epub).unwrap();
    let opf_path = pkg.opf_path().unwrap();
    let opf_str = decode_text(pkg.opf_bytes().unwrap());
    let opf = parse_opf(&opf_str).unwrap();
    let reread = existing_declared_toc(&pkg, &opf, &dir_of(&opf_path));
    assert_eq!(depth(&reread), DEPTH);
}

#[test]
fn flattening_measures_what_the_repair_would_re_parent() {
    let epub = flat_omnibus_epub(2);
    let measured = declared_toc_flattening(&epub).unwrap();
    assert_eq!(measured.volumes, 2);
    assert_eq!(measured.misplaced, 8);

    let proposed = propose_toc(&epub).unwrap();
    assert_eq!(flat_count(&proposed) - proposed.len(), measured.misplaced);
    assert_eq!(
        proposed.iter().filter(|e| !e.children.is_empty()).count(),
        measured.volumes
    );

    // A repaired book measures zero — the loop closes.
    let repaired = repair_toc(&epub).unwrap();
    assert_eq!(declared_toc_flattening(&repaired).unwrap().misplaced, 0);
}

#[test]
fn a_single_volume_book_is_left_flat() {
    let proposed = propose_toc(&flat_omnibus_epub(1)).unwrap();
    assert_eq!(flat_count(&proposed), proposed.len());
    assert!(proposed.iter().all(|e| e.children.is_empty()));
}

#[test]
fn a_book_that_forms_a_single_group_is_left_flat() {
    let proposed = propose_toc(&novel_with_a_pictorial_title_page()).unwrap();
    assert_eq!(
        proposed
            .iter()
            .map(|e| e.title.as_str())
            .collect::<Vec<_>>(),
        [
            "Title Page",
            "Also by the Author",
            "1 The First",
            "2 The Second",
            "Map",
            "3 The Third",
        ],
        "a novel is not nested under its own title page"
    );
    assert!(proposed.iter().all(|e| e.children.is_empty()));
}

#[test]
fn proposes_from_declared_ncx_when_body_is_images() {
    let epub = image_toc_and_ncx_epub();

    // The Contents-page / headings paths find nothing here.
    assert!(
        contents_page_links(
            &EpubPackage::parse(&epub).unwrap(),
            &parse_opf(&decode_text(
                EpubPackage::parse(&epub).unwrap().opf_bytes().unwrap()))
            .unwrap(),
            "OEBPS/",
            ""
        )
        .is_empty(),
        "image 目次 yields no link cluster"
    );

    // …but the proposer recovers the 5 chapters from the NCX.
    let proposed = propose_toc(&epub).expect("propose");
    let labels: Vec<&str> = proposed.iter().map(|e| e.title.as_str()).collect();
    assert!(labels.contains(&"残酷童話　うつくし姫"), "got {labels:?}");
    assert!(labels.contains(&"あとがき"), "got {labels:?}");
    assert!(
        proposed
            .iter()
            .any(|e| e.href == "OEBPS/Text/c1.xhtml#link1"),
        "href resolved to an absolute zip path: {:?}",
        proposed.iter().map(|e| &e.href).collect::<Vec<_>>()
    );

    // Repair writes it back; the book reopens with the chapter list.
    let out = repair_toc(&epub).expect("repair");
    let toc = declared(&out);
    assert!(
        toc.iter().any(|e| e.title.contains("うつくし")),
        "repaired TOC lists the chapters"
    );
}

#[test]
fn empty_toc_is_rejected() {
    let epub = no_toc_epub();
    assert!(set_toc(&epub, &Vec::new()).is_err());
}

#[test]
fn nav_tag_toc_detection_respects_boundaries() {
    assert!(nav_tag_is_toc(r#"<nav epub:type="toc""#));
    assert!(nav_tag_is_toc(r#"<nav type="toc""#));
    assert!(nav_tag_is_toc(r#"<nav epub:type="landmarks toc""#));
    assert!(!nav_tag_is_toc(r#"<nav epub:type="landmarks""#));
    assert!(!nav_tag_is_toc(r#"<nav epub:type="page-list""#));
}

#[test]
fn splice_replaces_only_the_toc_nav() {
    let doc = "<body>\n<nav epub:type=\"toc\"><ol><li>old</li></ol></nav>\n<nav epub:type=\"landmarks\"><ol><li>keep</li></ol></nav>\n</body>";
    let out = splice_toc_nav(doc, "<nav epub:type=\"toc\">NEW</nav>");
    assert!(out.contains("<nav epub:type=\"toc\">NEW</nav>"));
    assert!(out.contains("landmarks"), "landmarks nav preserved");
    assert!(!out.contains("old"), "old toc nav gone");
}

#[test]
fn toc_repair_non_epub_bytes_error() {
    assert!(propose_toc(b"not an epub").is_err());
    assert!(repair_toc(b"not an epub").is_err());
}

#[test]
fn a_repaired_toc_has_lost_no_volume() {
    let epub = flat_omnibus_epub(3);
    let before = declared_toc_flattening(&epub).expect("measured");
    assert_eq!(before.volumes, 3);
    let after = declared_toc_flattening(&repair_toc(&epub).expect("repaired")).expect("measured");
    assert_eq!((after.volumes, after.misplaced), (0, 0));
}
