use std::io::Write;

use bokai::edit::EpubPackage;
use bokai::flattened::flattened_styles;
use bokai::style_diff::{Chapter, Shown};
use bokai::unflatten_styles::restore_styles;
use zip::write::SimpleFileOptions;

fn text_of(bytes: &[u8]) -> String {
    String::from_utf8(bytes.to_vec()).unwrap()
}

fn epub(files: &[(&str, &str)]) -> Vec<u8> {
    let mut zip = zip::ZipWriter::new(std::io::Cursor::new(Vec::new()));
    let stored =
        SimpleFileOptions::default().compression_method(zip::CompressionMethod::Stored);
    zip.start_file("mimetype", stored).unwrap();
    zip.write_all(b"application/epub+zip").unwrap();
    zip.start_file("META-INF/container.xml", SimpleFileOptions::default())
        .unwrap();
    zip.write_all(br#"<?xml version="1.0"?><container version="1.0" xmlns="urn:oasis:names:tc:opendocument:xmlns:container"><rootfiles><rootfile full-path="OEBPS/content.opf" media-type="application/oebps-package+xml"/></rootfiles></container>"#).unwrap();
    for (name, body) in files {
        zip.start_file(*name, SimpleFileOptions::default()).unwrap();
        zip.write_all(body.as_bytes()).unwrap();
    }
    zip.finish().unwrap().into_inner()
}

fn opf(items: &[(&str, &str, &str)], spine: &[&str], contributor: &str) -> String {
    let mut s = String::from(
        r#"<?xml version="1.0"?>
<package xmlns="http://www.idpf.org/2007/opf" version="3.0" unique-identifier="id">
  <metadata xmlns:dc="http://purl.org/dc/elements/1.1/" xmlns:opf="http://www.idpf.org/2007/opf"><dc:identifier id="id">x</dc:identifier><dc:title>T</dc:title><dc:language>ja</dc:language>"#,
    );
    s.push_str(contributor);
    s.push_str("</metadata>\n  <manifest>\n");
    for (id, href, mt) in items {
        s.push_str(&format!(
            "    <item href=\"{href}\" id=\"{id}\" media-type=\"{mt}\"/>\n"
        ));
    }
    s.push_str("  </manifest>\n  <spine>");
    for id in spine {
        s.push_str(&format!("<itemref idref=\"{id}\"/>"));
    }
    s.push_str("</spine>\n</package>");
    s
}

fn reference() -> Vec<u8> {
    let title = r#"<?xml version="1.0" encoding="UTF-8"?><html xmlns="http://www.w3.org/1999/xhtml" class="hltr"><head><link rel="stylesheet" type="text/css" href="styles/book.css"/></head><body class="p-titlepage"><div class="main"><div class="author gfont"><p>A</p></div></div></body></html>"#;
    let text = r#"<?xml version="1.0" encoding="UTF-8"?><html xmlns="http://www.w3.org/1999/xhtml" class="vrtl"><head><link rel="stylesheet" type="text/css" href="styles/book.css"/></head><body class="p-text"><div class="main"><p class="start-1em gfont bold">B</p><p>C<span class="tcy">12</span></p></div></body></html>"#;
    epub(&[
        (
            "OEBPS/content.opf",
            &opf(
                &[
                    ("t", "title.xhtml", "application/xhtml+xml"),
                    ("c1", "ch1.xhtml", "application/xhtml+xml"),
                    ("c2", "ch2.xhtml", "application/xhtml+xml"),
                    ("css", "styles/book.css", "text/css"),
                    ("base", "styles/base.css", "text/css"),
                ],
                &["t", "c1", "c2"],
                "",
            ),
        ),
        ("OEBPS/title.xhtml", title),
        ("OEBPS/ch1.xhtml", text),
        ("OEBPS/ch2.xhtml", text),
        (
            "OEBPS/styles/book.css",
            "@charset \"UTF-8\";\n@import url(base.css);\n.p-titlepage .main { margin: 0 auto 0 auto; text-align: center; padding: 4em 1em 1.5em 1em; }\n.p-titlepage .author { margin: 1.5em 0 3em 0; padding: 1.5em 0 0 0; font-size: 0.85em; border-top: 1px solid black; }\n.p-titlepage .author p { margin: 0.5em 0 0 0; }\n",
        ),
        (
            "OEBPS/styles/base.css",
            "html, .hltr { -webkit-writing-mode: horizontal-tb; }\n.vrtl { -webkit-writing-mode: vertical-rl; }\nbody { margin: 0; padding: 0; font-size: 100%; text-align: justify; }\np { margin: 0; text-indent: 0; }\n.gfont { font-family: sans-serif-ja, sans-serif; }\n.bold { font-weight: bold; }\n.start-1em { margin-top: 1em; }\n.tcy { -webkit-text-combine: horizontal; text-combine-upright: all; }\n",
        ),
    ])
}

fn flattened() -> Vec<u8> {
    let title = r#"<?xml version='1.0' encoding='utf-8'?>
<html xmlns="http://www.w3.org/1999/xhtml">
<head>
  <link href="styles/stylesheet.css" rel="stylesheet" type="text/css"/>
  <link href="styles/page_styles.css" rel="stylesheet" type="text/css"/>
</head>
<body class="p-titlepage">
  <div class="main1"><div class="author"><p class="calibre2"><span>A</span></p></div></div>
</body>
</html>"#;
    let text = r#"<?xml version='1.0' encoding='utf-8'?>
<html xmlns="http://www.w3.org/1999/xhtml">
<head>
  <link href="styles/stylesheet.css" rel="stylesheet" type="text/css"/>
  <link href="styles/page_styles.css" rel="stylesheet" type="text/css"/>
</head>
<body class="p-titlepage">
  <div class="main"><p class="start-1em"><span class="calibre5">B</span></p><p class="calibre1"><span class="calibre5">C</span><span class="tcy">12</span></p></div>
</body>
</html>"#;
    let css = ".author {\n  display: block;\n  font-size: 0.85em;\n  line-height: 150%;\n  padding: 1.5em 0 0;\n  margin: 1.5em 0 3em;\n  border-top: black solid 1px;\n}\n.calibre {\n  display: block;\n  line-height: 150%;\n}\n.calibre1 {\n  display: block;\n  line-height: 150%;\n  text-indent: inherit;\n  margin: 0;\n}\n.calibre2 {\n  display: block;\n  line-height: 150%;\n  margin: 0.5em 0 0;\n}\n.calibre5 {\n  line-height: 150%;\n}\n.main {\n  display: block;\n  line-height: 150%;\n}\n.main1 {\n  display: block;\n  line-height: 1.6;\n  text-align: center;\n  padding: 4em 1em 1.5em;\n  margin: 0 auto;\n}\n.p-titlepage {\n  -webkit-writing-mode: vertical-rl;\n  display: block;\n  font-size: 100%;\n  line-height: 1.75;\n  text-align: justify;\n  writing-mode: vertical-rl;\n  margin: 0 5pt;\n}\n.start-1em {\n  display: block;\n  font-family: sans-serif-ja, sans-serif;\n  font-weight: bold;\n  line-height: 150%;\n  margin: 1em 0 0;\n}\n.tcy {\n  -webkit-text-combine: horizontal;\n  line-height: 150%;\n  text-combine-upright: all;\n}\n.pcalibre:hover {\n  color: #696969;\n}\n";
    epub(&[
        (
            "OEBPS/content.opf",
            &opf(
                &[
                    ("t", "title.xhtml", "application/xhtml+xml"),
                    ("c1", "ch1.xhtml", "application/xhtml+xml"),
                    ("c2", "ch2.xhtml", "application/xhtml+xml"),
                    ("css", "styles/stylesheet.css", "text/css"),
                    ("page", "styles/page_styles.css", "text/css"),
                ],
                &["t", "c1", "c2"],
                r#"<dc:contributor opf:role="bkp">calibre (2.56.0) [http://calibre-ebook.com]</dc:contributor>"#,
            ),
        ),
        ("OEBPS/title.xhtml", title),
        ("OEBPS/ch1.xhtml", text),
        ("OEBPS/ch2.xhtml", text),
        ("OEBPS/styles/stylesheet.css", css),
        (
            "OEBPS/styles/page_styles.css",
            "@page {\n  margin-bottom: 5pt;\n  margin-top: 5pt;\n  }\n",
        ),
    ])
}

fn shown(text: &str, mode: &str) -> Shown {
    Shown {
        text: text.to_string(),
        props: vec![
            ("text-align".to_string(), "center".to_string()),
            ("writing-mode".to_string(), mode.to_string()),
        ],
    }
}

/// A document of one block, written in the given direction.
fn chapter(text: &str, mode: &str) -> Chapter {
    Chapter { blocks: vec![shown(text, mode)], runs: vec![shown(text, mode)] }
}

#[test]
fn detects_the_flattener_by_its_generated_classes() {
    let f = flattened_styles(&flattened()).unwrap().unwrap();
    assert_eq!(f.sheets, vec!["OEBPS/styles/stylesheet.css"]);
    assert_eq!(f.generated_classes, 4);
    assert!(f.producer.unwrap().starts_with("calibre (2.56.0)"));
    assert!(flattened_styles(&reference()).unwrap().is_none());
}

#[test]
fn restores_class_names_page_kinds_and_axis_from_the_reference() {
    let r = restore_styles(&flattened(), &reference()).unwrap();
    let pkg = EpubPackage::parse(&r.bytes).unwrap();
    let title = text_of(pkg.get("OEBPS/title.xhtml").unwrap());
    assert!(
        title.contains(r#"<html xmlns="http://www.w3.org/1999/xhtml" class="hltr">"#),
        "{title}"
    );
    assert!(title.contains(r#"<body class="p-titlepage">"#), "{title}");
    assert!(
        title.contains(r#"<div class="main"><div class="author">"#),
        "{title}"
    );
    assert!(title.contains("<p><span>A</span></p>"), "{title}");
    assert!(title.contains(r#"href="styles/book.css""#), "{title}");
    assert!(!title.contains("page_styles"), "{title}");
    let ch = text_of(pkg.get("OEBPS/ch1.xhtml").unwrap());
    assert!(ch.contains(r#"class="vrtl""#), "{ch}");
    assert!(ch.contains(r#"<body class="p-text">"#), "{ch}");
    assert!(
        ch.contains(r#"<p class="start-1em gfont bold">B</p>"#),
        "{ch}"
    );
    assert!(
        ch.contains(r#"<p>C<span class="tcy">12</span></p>"#),
        "{ch}"
    );
    assert!(pkg.get("OEBPS/styles/stylesheet.css").is_none());
    assert!(pkg.get("OEBPS/styles/page_styles.css").is_none());
    assert!(pkg.get("OEBPS/styles/book.css").is_some());
    assert!(pkg.get("OEBPS/styles/base.css").is_some());
    let opf = text_of(pkg.opf_bytes().unwrap());
    assert!(!opf.contains("stylesheet.css"), "{opf}");
    assert!(
        opf.contains("styles/book.css") && opf.contains("styles/base.css"),
        "{opf}"
    );
    assert!(r.residual.is_empty(), "{:?}", r.residual);
    assert_eq!(r.documents.len(), 3);
    // The flattened title page is set vertically, the restored one horizontally.
    let before =
        vec![chapter("A", "vertical-rl"), chapter("BC12", "vertical-rl"), chapter("BC12", "vertical-rl")];
    let after =
        vec![chapter("A", "horizontal-tb"), chapter("BC12", "vertical-rl"), chapter("BC12", "vertical-rl")];
    let r = r.compared(&before, &after);
    let axis_only = r
        .diffs
        .iter()
        .all(|d| d.property == "writing-mode" && d.document == "OEBPS/title.xhtml");
    assert!(axis_only);
    assert!(!r.diffs.is_empty());
    assert_eq!(r.material_diffs(), 0, "the direction alone is no loss");
}

#[test]
fn a_difference_that_a_reader_sees_is_counted() {
    let r = restore_styles(&flattened(), &reference()).unwrap();
    let before =
        vec![chapter("A", "vertical-rl"), chapter("B", "vertical-rl"), chapter("C", "vertical-rl")];
    let after =
        vec![chapter("A", "vertical-rl"), chapter("B!", "vertical-rl"), chapter("C", "vertical-rl")];
    let r = r.compared(&before, &after);
    assert_eq!(r.diffs.len(), 1);
    assert_eq!(r.diffs[0].property, "text");
    assert_eq!((r.diffs[0].before.as_str(), r.diffs[0].after.as_str()), ("1", "2"));
    assert_eq!(r.material_diffs(), 1);
}

#[test]
fn refuses_a_flattened_reference() {
    assert!(restore_styles(&flattened(), &flattened()).is_err());
    assert!(restore_styles(&reference(), &reference()).is_err());
}

#[test]
fn a_restored_book_is_no_longer_flattened() {
    let r = restore_styles(&flattened(), &reference()).unwrap();
    assert!(flattened_styles(&r.bytes).unwrap().is_none());
    assert!(restore_styles(&r.bytes, &reference()).is_err(), "there is nothing left to restore");
}
