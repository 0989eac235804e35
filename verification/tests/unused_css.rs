use bokai::unused_css::{base_selectors, remove_unused_css, unused_css};
use bokai::edit::{EpubPackage, Entry};

fn package_from(members: &[(&str, &str)]) -> EpubPackage {
    let mut entries = vec![
        Entry {
            name: "mimetype".to_string(),
            data: b"application/epub+zip".to_vec(),
            stored: true,
        },
        Entry {
            name: "META-INF/container.xml".to_string(),
            data: br#"<?xml version="1.0"?><container version="1.0" xmlns="urn:oasis:names:tc:opendocument:xmlns:container"><rootfiles><rootfile full-path="OEBPS/content.opf" media-type="application/oebps-package+xml"/></rootfiles></container>"#.to_vec(),
            stored: false,
        },
    ];
    for (name, body) in members {
        entries.push(Entry {
            name: name.to_string(),
            data: body.as_bytes().to_vec(),
            stored: false,
        });
    }
    EpubPackage { entries }
}

/// The base selectors that match an element of the book.
fn matched() -> Vec<String> {
    [".used", "p.used", "a", "p"]
        .iter()
        .map(|s| s.to_string())
        .collect()
}

fn book() -> EpubPackage {
    package_from(&[
        (
            "OEBPS/content.opf",
            r#"<?xml version="1.0"?><package xmlns="http://www.idpf.org/2007/opf" version="3.0" unique-identifier="id"><metadata xmlns:dc="http://purl.org/dc/elements/1.1/"><dc:identifier id="id">x</dc:identifier><dc:title>T</dc:title><dc:language>en</dc:language></metadata><manifest><item href="a.xhtml" id="a" media-type="application/xhtml+xml"/><item href="s.css" id="s" media-type="text/css"/></manifest><spine><itemref idref="a"/></spine></package>"#,
        ),
        (
            "OEBPS/a.xhtml",
            "<?xml version=\"1.0\"?><html xmlns=\"http://www.w3.org/1999/xhtml\"><head><title>t</title></head><body><p class=\"used\">a</p><a href=\"#\">l</a></body></html>",
        ),
        (
            "OEBPS/s.css",
            "@charset \"utf-8\";\n.used { a: b }\n.gone { c: d }\np.used:first-child::before, .gone { e: f }\na:hover { g: h }\n@media print {\n  .gone { i: j }\n}\n@media screen {\n  .gone { k: l }\n  p { m: n }\n}\n@font-face { font-family: x }\n",
        ),
    ])
}

#[test]
fn unused_css_reports_and_removes_rules_nothing_matches() {
    let pkg = book();
    let unused = unused_css(&pkg, &matched()).unwrap();
    let sel: Vec<(String, usize)> = unused
        .iter()
        .map(|u| (u.selector.clone(), u.line))
        .collect();
    assert_eq!(
        sel,
        vec![
            (".gone".to_string(), 3),
            ("@media print".to_string(), 6),
            (".gone".to_string(), 10),
        ]
    );
    let mut pkg = book();
    let changes = remove_unused_css(&mut pkg, &matched()).unwrap();
    assert_eq!(changes.changed, vec!["OEBPS/s.css"]);
    let css = std::str::from_utf8(pkg.get("OEBPS/s.css").unwrap()).unwrap();
    assert_eq!(
        css,
        "@charset \"utf-8\";\n.used { a: b }\np.used:first-child::before, .gone { e: f }\na:hover { g: h }\n@media screen {\n  p { m: n }\n}\n@font-face { font-family: x }\n"
    );
}

#[test]
fn edit_reports_and_removes_rules_nothing_matches() {
    let pkg = book();
    let unused = unused_css(&pkg, &matched()).unwrap();
    let sel: Vec<(String, usize)> = unused
        .iter()
        .map(|u| (u.selector.clone(), u.line))
        .collect();
    assert_eq!(
        sel,
        vec![
            (".gone".to_string(), 3),
            ("@media print".to_string(), 6),
            (".gone".to_string(), 10),
        ]
    );
    let mut pkg = book();
    let changes = remove_unused_css(&mut pkg, &matched()).unwrap();
    assert_eq!(changes.changed, vec!["OEBPS/s.css"]);
    let css = std::str::from_utf8(pkg.get("OEBPS/s.css").unwrap()).unwrap();
    assert_eq!(
        css,
        "@charset \"utf-8\";\n.used { a: b }\np.used:first-child::before, .gone { e: f }\na:hover { g: h }\n@media screen {\n  p { m: n }\n}\n@font-face { font-family: x }\n"
    );
}

#[test]
fn nothing_is_unused_once_it_is_removed() {
    let mut pkg = book();
    assert!(!unused_css(&pkg, &matched()).unwrap().is_empty());
    remove_unused_css(&mut pkg, &matched()).unwrap();
    assert!(unused_css(&pkg, &matched()).unwrap().is_empty());
    let again = remove_unused_css(&mut pkg, &matched()).unwrap();
    assert!(again.changed.is_empty());
}
