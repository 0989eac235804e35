use bokai::class_rename::rename_class;
use bokai::edit::{EpubPackage, Entry};

fn package_from(members: &[(&str, &str)]) -> EpubPackage {
    let mut entries = vec![
        Entry {
            name: "mimetype".to_string(),
            data: b"application/epub+zip".to_vec(),
            stored: true,
        },
        Entry {
            name: "META-INF/container.xml".to_string(),
            data: br#"<?xml version="1.0"?><container version="1.0" xmlns="urn:oasis:names:tc:opendocument:xmlns:container"><rootfiles><rootfile full-path="OEBPS/content.opf" media-type="application/oebps-package+xml"/></rootfiles></container>"#.to_vec(),
            stored: false,
        },
    ];
    for (name, body) in members {
        entries.push(Entry {
            name: name.to_string(),
            data: body.as_bytes().to_vec(),
            stored: false,
        });
    }
    EpubPackage { entries }
}

fn book() -> EpubPackage {
    package_from(&[
        (
            "OEBPS/content.opf",
            r#"<?xml version="1.0"?><package xmlns="http://www.idpf.org/2007/opf" version="3.0" unique-identifier="id"><metadata xmlns:dc="http://purl.org/dc/elements/1.1/"><dc:identifier id="id">x</dc:identifier><dc:title>T</dc:title><dc:language>en</dc:language></metadata><manifest><item href="a.xhtml" id="a" media-type="application/xhtml+xml"/><item href="s.css" id="s" media-type="text/css"/></manifest><spine><itemref idref="a"/></spine></package>"#,
        ),
        (
            "OEBPS/a.xhtml",
            "<html xmlns=\"http://www.w3.org/1999/xhtml\"><head><style>.old { x: y } .older {}</style></head><body><p class=\"old older new\">a</p><p class=\"x\">b</p></body></html>",
        ),
        ("OEBPS/s.css", ".old { a: b } p.old:hover, .older { c: d }"),
    ])
}

#[test]
fn class_rename_renames_selectors_style_blocks_and_class_attributes() {
    let mut pkg = book();
    let changes = rename_class(&mut pkg, ".old", "new").unwrap();
    assert_eq!(changes.changed, vec!["OEBPS/a.xhtml", "OEBPS/s.css"]);
    let css = std::str::from_utf8(pkg.get("OEBPS/s.css").unwrap()).unwrap();
    assert_eq!(css, ".new { a: b } p.new:hover, .older { c: d }");
    let doc = std::str::from_utf8(pkg.get("OEBPS/a.xhtml").unwrap()).unwrap();
    assert!(doc.contains("<style>.new { x: y } .older {}</style>"));
    assert!(doc.contains("<p class=\"new older\">a</p>"));
    assert!(doc.contains("<p class=\"x\">b</p>"));
    assert!(changes.notes[0].starts_with("1 element(s) and 3 selector(s)"));
}

#[test]
fn edit_renames_selectors_style_blocks_and_class_attributes() {
    let mut pkg = book();
    let changes = rename_class(&mut pkg, ".old", "new").unwrap();
    assert_eq!(changes.changed, vec!["OEBPS/a.xhtml", "OEBPS/s.css"]);
    let css = std::str::from_utf8(pkg.get("OEBPS/s.css").unwrap()).unwrap();
    assert_eq!(css, ".new { a: b } p.new:hover, .older { c: d }");
    let doc = std::str::from_utf8(pkg.get("OEBPS/a.xhtml").unwrap()).unwrap();
    assert!(doc.contains("<style>.new { x: y } .older {}</style>"));
    assert!(doc.contains("<p class=\"new older\">a</p>"));
    assert!(doc.contains("<p class=\"x\">b</p>"));
    assert!(changes.notes[0].starts_with("1 element(s) and 3 selector(s)"));
}

#[test]
fn class_rename_rejects_bad_names_and_unknown_classes() {
    let mut pkg = book();
    assert!(rename_class(&mut pkg, "old", "1bad").is_err());
    assert!(rename_class(&mut pkg, "old", "old").is_err());
    assert!(rename_class(&mut pkg, "missing", "fine").is_err());
}

#[test]
fn edit_rejects_bad_names_and_unknown_classes() {
    let mut pkg = book();
    assert!(rename_class(&mut pkg, "old", "1bad").is_err());
    assert!(rename_class(&mut pkg, "old", "old").is_err());
    assert!(rename_class(&mut pkg, "missing", "fine").is_err());
}
