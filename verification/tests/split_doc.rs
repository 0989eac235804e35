use bokai::split_doc::{merge_with_next, split_document};
use bokai::edit::{EpubPackage, Entry};

fn package_from(members: &[(&str, &str)]) -> EpubPackage {
    let mut entries = vec![
        Entry {
            name: "mimetype".to_string(),
            data: b"application/epub+zip".to_vec(),
            stored: true,
        },
        Entry {
            name: "META-INF/container.xml".to_string(),
            data: br#"<?xml version="1.0"?><container version="1.0" xmlns="urn:oasis:names:tc:opendocument:xmlns:container"><rootfiles><rootfile full-path="OEBPS/content.opf" media-type="application/oebps-package+xml"/></rootfiles></container>"#.to_vec(),
            stored: false,
        },
    ];
    for (name, body) in members {
        entries.push(Entry {
            name: name.to_string(),
            data: body.as_bytes().to_vec(),
            stored: false,
        });
    }
    EpubPackage { entries }
}

fn book() -> EpubPackage {
    package_from(&[
        (
            "OEBPS/content.opf",
            "<?xml version=\"1.0\"?>\n<package xmlns=\"http://www.idpf.org/2007/opf\" version=\"3.0\" unique-identifier=\"id\">\n  <metadata xmlns:dc=\"http://purl.org/dc/elements/1.1/\"><dc:identifier id=\"id\">x</dc:identifier><dc:title>T</dc:title><dc:language>en</dc:language></metadata>\n  <manifest>\n    <item href=\"nav.xhtml\" id=\"nav\" media-type=\"application/xhtml+xml\" properties=\"nav\"/>\n    <item href=\"text/a.xhtml\" id=\"a\" media-type=\"application/xhtml+xml\"/>\n    <item href=\"text/b.xhtml\" id=\"b\" media-type=\"application/xhtml+xml\"/>\n    <item href=\"s.css\" id=\"s\" media-type=\"text/css\"/>\n  </manifest>\n  <spine>\n    <itemref idref=\"nav\"/>\n    <itemref idref=\"a\"/>\n    <itemref idref=\"b\" linear=\"no\"/>\n  </spine>\n</package>\n",
        ),
        (
            "OEBPS/nav.xhtml",
            "<html xmlns=\"http://www.w3.org/1999/xhtml\" xmlns:epub=\"http://www.idpf.org/2007/ops\"><head><title>n</title></head><body><nav epub:type=\"toc\"><ol><li><a href=\"text/a.xhtml\">A</a></li><li><a href=\"text/a.xhtml#two\">Two</a></li><li><a href=\"text/b.xhtml#bb\">B</a></li></ol></nav></body></html>",
        ),
        (
            "OEBPS/text/a.xhtml",
            "<?xml version=\"1.0\"?>\n<html xmlns=\"http://www.w3.org/1999/xhtml\">\n<head><title>a</title><link rel=\"stylesheet\" href=\"../s.css\"/></head>\n<body class=\"p-text\">\n<h1 id=\"one\">One</h1>\n<p>see <a href=\"#two\">two</a></p>\n<h1 id=\"two\">Two</h1>\n<p>back to <a href=\"#one\">one</a> and <a href=\"b.xhtml#bb\">b</a></p>\n</body>\n</html>\n",
        ),
        (
            "OEBPS/text/b.xhtml",
            "<html xmlns=\"http://www.w3.org/1999/xhtml\"><head><title>b</title><link rel=\"stylesheet\" href=\"../s.css\"/><link rel=\"stylesheet\" href=\"../t.css\"/></head><body><p id=\"bb\">bee <img src=\"../img/x.png\"/> <a href=\"a.xhtml#one\">one</a></p></body></html>",
        ),
        ("OEBPS/s.css", "p {}"),
    ])
}

fn text(pkg: &EpubPackage, p: &str) -> String {
    String::from_utf8(pkg.get(p).unwrap().to_vec()).unwrap()
}

#[test]
fn split_doc_splits_before_the_block_at_the_cursor_and_moves_links() {
    let mut pkg = book();
    let changes = split_document(&mut pkg, "OEBPS/text/a.xhtml", 7, 3).unwrap();
    assert_eq!(
        changes.added,
        vec![("OEBPS/text/a-2.xhtml".to_string(), "application/xhtml+xml".to_string())]
    );
    let a = text(&pkg, "OEBPS/text/a.xhtml");
    assert_eq!(
        a,
        "<?xml version=\"1.0\"?>\n<html xmlns=\"http://www.w3.org/1999/xhtml\">\n<head><title>a</title><link rel=\"stylesheet\" href=\"../s.css\"/></head>\n<body class=\"p-text\">\n<h1 id=\"one\">One</h1>\n<p>see <a href=\"a-2.xhtml#two\">two</a></p>\n</body>\n</html>\n"
    );
    let a2 = text(&pkg, "OEBPS/text/a-2.xhtml");
    assert_eq!(
        a2,
        "<?xml version=\"1.0\"?>\n<html xmlns=\"http://www.w3.org/1999/xhtml\">\n<head><title>a</title><link rel=\"stylesheet\" href=\"../s.css\"/></head>\n<body class=\"p-text\">\n<h1 id=\"two\">Two</h1>\n<p>back to <a href=\"a.xhtml#one\">one</a> and <a href=\"b.xhtml#bb\">b</a></p>\n</body>\n</html>\n"
    );
    let nav = text(&pkg, "OEBPS/nav.xhtml");
    assert!(nav.contains("href=\"text/a-2.xhtml#two\""));
    assert!(nav.contains("href=\"text/a.xhtml\">A"));
    let opf = text(&pkg, "OEBPS/content.opf");
    assert!(opf.contains(
        "<item href=\"text/a-2.xhtml\" id=\"a-2\" media-type=\"application/xhtml+xml\"/>"
    ));
    assert!(opf.contains("<itemref idref=\"a\"/>\n    <itemref idref=\"a-2\"/>\n    <itemref idref=\"b\" linear=\"no\"/>"));
    assert!(split_document(&mut pkg, "OEBPS/text/a.xhtml", 5, 1).is_err());
}

#[test]
fn edit_splits_before_the_block_at_the_cursor_and_moves_links() {
    let mut pkg = book();
    let changes = split_document(&mut pkg, "OEBPS/text/a.xhtml", 7, 3).unwrap();
    assert_eq!(
        changes.added,
        vec![("OEBPS/text/a-2.xhtml".to_string(), "application/xhtml+xml".to_string())]
    );
    let a = text(&pkg, "OEBPS/text/a.xhtml");
    assert_eq!(
        a,
        "<?xml version=\"1.0\"?>\n<html xmlns=\"http://www.w3.org/1999/xhtml\">\n<head><title>a</title><link rel=\"stylesheet\" href=\"../s.css\"/></head>\n<body class=\"p-text\">\n<h1 id=\"one\">One</h1>\n<p>see <a href=\"a-2.xhtml#two\">two</a></p>\n</body>\n</html>\n"
    );
    let a2 = text(&pkg, "OEBPS/text/a-2.xhtml");
    assert_eq!(
        a2,
        "<?xml version=\"1.0\"?>\n<html xmlns=\"http://www.w3.org/1999/xhtml\">\n<head><title>a</title><link rel=\"stylesheet\" href=\"../s.css\"/></head>\n<body class=\"p-text\">\n<h1 id=\"two\">Two</h1>\n<p>back to <a href=\"a.xhtml#one\">one</a> and <a href=\"b.xhtml#bb\">b</a></p>\n</body>\n</html>\n"
    );
    let nav = text(&pkg, "OEBPS/nav.xhtml");
    assert!(nav.contains("href=\"text/a-2.xhtml#two\""));
    assert!(nav.contains("href=\"text/a.xhtml\">A"));
    let opf = text(&pkg, "OEBPS/content.opf");
    assert!(opf.contains(
        "<item href=\"text/a-2.xhtml\" id=\"a-2\" media-type=\"application/xhtml+xml\"/>"
    ));
    assert!(opf.contains("<itemref idref=\"a\"/>\n    <itemref idref=\"a-2\"/>\n    <itemref idref=\"b\" linear=\"no\"/>"));
    assert!(split_document(&mut pkg, "OEBPS/text/a.xhtml", 5, 1).is_err());
}

#[test]
fn split_doc_splits_inside_a_wrapper_by_closing_and_reopening_it() {
    let mut pkg = package_from(&[
        (
            "OEBPS/content.opf",
            "<?xml version=\"1.0\"?>\n<package xmlns=\"http://www.idpf.org/2007/opf\" version=\"3.0\" unique-identifier=\"id\">\n<metadata xmlns:dc=\"http://purl.org/dc/elements/1.1/\"><dc:identifier id=\"id\">x</dc:identifier><dc:title>T</dc:title><dc:language>en</dc:language></metadata>\n<manifest>\n<item href=\"a.xhtml\" id=\"a\" media-type=\"application/xhtml+xml\"/>\n</manifest>\n<spine>\n<itemref idref=\"a\"/>\n</spine>\n</package>\n",
        ),
        (
            "OEBPS/a.xhtml",
            "<html xmlns=\"http://www.w3.org/1999/xhtml\"><head><title>a</title></head>\n<body>\n<div class=\"main\" id=\"m\">\n<p>one</p>\n<p>two <span>x</span></p>\n</div>\n</body>\n</html>\n",
        ),
    ]);
    assert!(split_document(&mut pkg, "OEBPS/a.xhtml", 4, 2).is_err());
    split_document(&mut pkg, "OEBPS/a.xhtml", 5, 8).unwrap();
    assert_eq!(
        text(&pkg, "OEBPS/a.xhtml"),
        "<html xmlns=\"http://www.w3.org/1999/xhtml\"><head><title>a</title></head>\n<body>\n<div class=\"main\" id=\"m\">\n<p>one</p>\n</div>\n</body>\n</html>\n"
    );
    assert_eq!(
        text(&pkg, "OEBPS/a-2.xhtml"),
        "<html xmlns=\"http://www.w3.org/1999/xhtml\"><head><title>a</title></head>\n<body>\n<div class=\"main\">\n<p>two <span>x</span></p>\n</div>\n</body>\n</html>\n"
    );
}

#[test]
fn edit_splits_inside_a_wrapper_by_closing_and_reopening_it() {
    let mut pkg = package_from(&[
        (
            "OEBPS/content.opf",
            "<?xml version=\"1.0\"?>\n<package xmlns=\"http://www.idpf.org/2007/opf\" version=\"3.0\" unique-identifier=\"id\">\n<metadata xmlns:dc=\"http://purl.org/dc/elements/1.1/\"><dc:identifier id=\"id\">x</dc:identifier><dc:title>T</dc:title><dc:language>en</dc:language></metadata>\n<manifest>\n<item href=\"a.xhtml\" id=\"a\" media-type=\"application/xhtml+xml\"/>\n</manifest>\n<spine>\n<itemref idref=\"a\"/>\n</spine>\n</package>\n",
        ),
        (
            "OEBPS/a.xhtml",
            "<html xmlns=\"http://www.w3.org/1999/xhtml\"><head><title>a</title></head>\n<body>\n<div class=\"main\" id=\"m\">\n<p>one</p>\n<p>two <span>x</span></p>\n</div>\n</body>\n</html>\n",
        ),
    ]);
    assert!(split_document(&mut pkg, "OEBPS/a.xhtml", 4, 2).is_err());
    split_document(&mut pkg, "OEBPS/a.xhtml", 5, 8).unwrap();
    assert_eq!(
        text(&pkg, "OEBPS/a.xhtml"),
        "<html xmlns=\"http://www.w3.org/1999/xhtml\"><head><title>a</title></head>\n<body>\n<div class=\"main\" id=\"m\">\n<p>one</p>\n</div>\n</body>\n</html>\n"
    );
    assert_eq!(
        text(&pkg, "OEBPS/a-2.xhtml"),
        "<html xmlns=\"http://www.w3.org/1999/xhtml\"><head><title>a</title></head>\n<body>\n<div class=\"main\">\n<p>two <span>x</span></p>\n</div>\n</body>\n</html>\n"
    );
}

#[test]
fn split_doc_merges_the_next_document_and_retargets_everything() {
    let mut pkg = book();
    let changes = merge_with_next(&mut pkg, "OEBPS/text/a.xhtml").unwrap();
    assert_eq!(changes.removed, vec!["OEBPS/text/b.xhtml"]);
    assert!(!pkg.contains("OEBPS/text/b.xhtml"));
    let a = text(&pkg, "OEBPS/text/a.xhtml");
    assert!(
        a.contains("<link rel=\"stylesheet\" type=\"text/css\" href=\"../t.css\"/>\n</head>")
    );
    assert!(a.ends_with("<p>back to <a href=\"#one\">one</a> and <a href=\"#bb\">b</a></p>\n<p id=\"bb\">bee <img src=\"../img/x.png\"/> <a href=\"#one\">one</a></p>\n</body>\n</html>\n"));
    let nav = text(&pkg, "OEBPS/nav.xhtml");
    assert!(nav.contains("href=\"text/a.xhtml#bb\""));
    let opf = text(&pkg, "OEBPS/content.opf");
    assert!(!opf.contains("b.xhtml"));
    assert!(!opf.contains("idref=\"b\""));
    assert!(opf.contains("<itemref idref=\"a\"/>\n  </spine>"));
    assert!(merge_with_next(&mut pkg, "OEBPS/text/a.xhtml").is_err());
}

#[test]
fn edit_merges_the_next_document_and_retargets_everything() {
    let mut pkg = book();
    let changes = merge_with_next(&mut pkg, "OEBPS/text/a.xhtml").unwrap();
    assert_eq!(changes.removed, vec!["OEBPS/text/b.xhtml"]);
    assert!(!pkg.contains("OEBPS/text/b.xhtml"));
    let a = text(&pkg, "OEBPS/text/a.xhtml");
    assert!(
        a.contains("<link rel=\"stylesheet\" type=\"text/css\" href=\"../t.css\"/>\n</head>")
    );
    assert!(a.ends_with("<p>back to <a href=\"#one\">one</a> and <a href=\"#bb\">b</a></p>\n<p id=\"bb\">bee <img src=\"../img/x.png\"/> <a href=\"#one\">one</a></p>\n</body>\n</html>\n"));
    let nav = text(&pkg, "OEBPS/nav.xhtml");
    assert!(nav.contains("href=\"text/a.xhtml#bb\""));
    let opf = text(&pkg, "OEBPS/content.opf");
    assert!(!opf.contains("b.xhtml"));
    assert!(!opf.contains("idref=\"b\""));
    assert!(opf.contains("<itemref idref=\"a\"/>\n  </spine>"));
    assert!(merge_with_next(&mut pkg, "OEBPS/text/a.xhtml").is_err());
}

#[test]
fn a_merge_undoes_a_split_under_the_body() {
    let before = book();
    let mut pkg = book();
    split_document(&mut pkg, "OEBPS/text/a.xhtml", 7, 3).unwrap();
    assert_ne!(text(&pkg, "OEBPS/text/a.xhtml"), text(&before, "OEBPS/text/a.xhtml"));
    merge_with_next(&mut pkg, "OEBPS/text/a.xhtml").unwrap();
    let names = |p: &EpubPackage| p.entries.iter().map(|e| e.name.clone()).collect::<Vec<_>>();
    assert_eq!(names(&pkg), names(&before));
    for path in ["OEBPS/text/a.xhtml", "OEBPS/text/b.xhtml", "OEBPS/nav.xhtml"] {
        assert_eq!(text(&pkg, path), text(&before, path), "{path}");
    }
}
