use bokai::upgrade::upgrade_to_epub3;
use bokai::edit::{EpubPackage, Entry};

fn package_from(members: &[(&str, &str)]) -> EpubPackage {
    let mut entries = vec![
        Entry {
            name: "mimetype".to_string(),
            data: b"application/epub+zip".to_vec(),
            stored: true,
        },
        Entry {
            name: "META-INF/container.xml".to_string(),
            data: br#"<?xml version="1.0"?><container version="1.0" xmlns="urn:oasis:names:tc:opendocument:xmlns:container"><rootfiles><rootfile full-path="OEBPS/content.opf" media-type="application/oebps-package+xml"/></rootfiles></container>"#.to_vec(),
            stored: false,
        },
    ];
    for (name, body) in members {
        entries.push(Entry {
            name: name.to_string(),
            data: body.as_bytes().to_vec(),
            stored: false,
        });
    }
    EpubPackage { entries }
}

const NOW: &str = "2024-05-06T07:08:09Z";

fn epub2() -> EpubPackage {
    package_from(&[
        (
            "OEBPS/content.opf",
            "<?xml version=\"1.0\" encoding=\"utf-8\"?>\n<package xmlns=\"http://www.idpf.org/2007/opf\" version=\"2.0\" unique-identifier=\"uid\">\n  <metadata xmlns:dc=\"http://purl.org/dc/elements/1.1/\" xmlns:opf=\"http://www.idpf.org/2007/opf\">\n    <dc:identifier id=\"uid\" opf:scheme=\"ISBN\">9780000000000</dc:identifier>\n    <dc:title>Old Book</dc:title>\n    <dc:creator opf:role=\"aut\" opf:file-as=\"Doe, J\">Jane Doe</dc:creator>\n    <dc:contributor opf:role=\"ill\">Ann</dc:contributor>\n    <dc:language>en</dc:language>\n    <dc:date opf:event=\"publication\">2001-02-03</dc:date>\n    <dc:date opf:event=\"modification\">2002-03-04</dc:date>\n    <meta name=\"cover\" content=\"cov\"/>\n  </metadata>\n  <manifest>\n    <item href=\"toc.ncx\" id=\"ncx\" media-type=\"application/x-dtbncx+xml\"/>\n    <item href=\"cover.jpg\" id=\"cov\" media-type=\"image/jpeg\"/>\n    <item href=\"a.xhtml\" id=\"a\" media-type=\"application/xhtml+xml\"/>\n    <item href=\"b.xhtml\" id=\"b\" media-type=\"application/xhtml+xml\"/>\n    <item href=\"f.ttf\" id=\"f\" media-type=\"application/x-font-ttf\"/>\n  </manifest>\n  <spine toc=\"ncx\">\n    <itemref idref=\"a\"/>\n    <itemref idref=\"b\"/>\n  </spine>\n  <guide>\n    <reference type=\"cover\" title=\"Cover\" href=\"a.xhtml\"/>\n    <reference type=\"text\" title=\"Start\" href=\"b.xhtml\"/>\n  </guide>\n</package>\n",
        ),
        (
            "OEBPS/toc.ncx",
            "<?xml version=\"1.0\"?>\n<ncx xmlns=\"http://www.daisy.org/z3986/2005/ncx/\" version=\"2005-1\"><head><meta name=\"dtb:uid\" content=\"wrong\"/></head><docTitle><text>Old Book</text></docTitle><navMap><navPoint id=\"n1\" playOrder=\"1\"><navLabel><text>A</text></navLabel><content src=\"a.xhtml\"/></navPoint><navPoint id=\"n2\" playOrder=\"2\"><navLabel><text>B</text></navLabel><content src=\"b.xhtml#x\"/></navPoint></navMap></ncx>",
        ),
        (
            "OEBPS/a.xhtml",
            "<?xml version=\"1.0\" encoding=\"utf-8\"?>\n<!DOCTYPE html PUBLIC \"-//W3C//DTD XHTML 1.1//EN\"\n  \"http://www.w3.org/TR/xhtml11/DTD/xhtml11.dtd\">\n<html xmlns=\"http://www.w3.org/1999/xhtml\"><head><title>a</title></head><body><p><img src=\"cover.jpg\" alt=\"\"/></p></body></html>",
        ),
        (
            "OEBPS/b.xhtml",
            "<html xmlns=\"http://www.w3.org/1999/xhtml\"><head><title>b</title></head><body><p id=\"x\">b</p><svg xmlns=\"http://www.w3.org/2000/svg\"/></body></html>",
        ),
        ("OEBPS/cover.jpg", "notreallyjpeg"),
        ("OEBPS/f.ttf", "notreallyfont"),
    ])
}

fn text(pkg: &EpubPackage, p: &str) -> String {
    String::from_utf8(pkg.get(p).unwrap().to_vec()).unwrap()
}

#[test]
fn upgrade_upgrades_package_metadata_nav_and_documents() {
    let mut pkg = epub2();
    let changes = upgrade_to_epub3(&mut pkg, NOW).unwrap();
    let opf = text(&pkg, "OEBPS/content.opf");
    assert!(opf.contains("version=\"3.0\""));
    assert!(opf.contains("<dc:identifier id=\"uid\">9780000000000</dc:identifier>"));
    assert!(opf.contains("<dc:creator id=\"creator1\">Jane Doe</dc:creator>"));
    assert!(opf.contains(
        "<meta refines=\"#creator1\" property=\"role\" scheme=\"marc:relators\">aut</meta>"
    ));
    assert!(opf.contains("<meta refines=\"#creator1\" property=\"file-as\">Doe, J</meta>"));
    assert!(opf.contains(
        "<meta refines=\"#contributor1\" property=\"role\" scheme=\"marc:relators\">ill</meta>"
    ));
    assert!(opf.contains("<meta refines=\"#uid\" property=\"identifier-type\">ISBN</meta>"));
    assert!(opf.contains("<dc:date>2001-02-03</dc:date>"));
    assert!(!opf.contains("opf:event"));
    assert!(opf.contains("<meta property=\"dcterms:modified\">2002-03-04T00:00:00Z</meta>"));
    assert!(opf.contains("<meta name=\"cover\" content=\"cov\"/>"));
    assert!(opf.contains("id=\"cov\" media-type=\"image/jpeg\" properties=\"cover-image\"/>"));
    assert!(opf.contains("id=\"b\" media-type=\"application/xhtml+xml\" properties=\"svg\"/>"));
    assert!(opf.contains("media-type=\"font/ttf\""));
    assert!(opf.contains("<item href=\"nav.xhtml\" id=\"nav\" media-type=\"application/xhtml+xml\" properties=\"nav\"/>"));
    assert!(opf.contains("<guide>"));
    let nav = text(&pkg, "OEBPS/nav.xhtml");
    assert!(nav.contains("<a href=\"b.xhtml#x\">B</a>"));
    assert!(nav.contains("<a epub:type=\"bodymatter\" href=\"b.xhtml\">Start</a>"));
    assert!(nav.contains("<a epub:type=\"cover\" href=\"a.xhtml\">Cover</a>"));
    let ncx = text(&pkg, "OEBPS/toc.ncx");
    assert!(ncx.contains("<meta name=\"dtb:uid\" content=\"9780000000000\"/>"));
    let a = text(&pkg, "OEBPS/a.xhtml");
    assert!(
        a.starts_with("<?xml version=\"1.0\" encoding=\"utf-8\"?>\n<!DOCTYPE html>\n<html")
    );
    assert_eq!(
        changes.added,
        vec![(
            "OEBPS/nav.xhtml".to_string(),
            "application/xhtml+xml".to_string()
        )]
    );
    assert!(upgrade_to_epub3(&mut pkg, NOW).is_err());
}

#[test]
fn edit_upgrades_package_metadata_nav_and_documents() {
    let mut pkg = epub2();
    let changes = upgrade_to_epub3(&mut pkg, NOW).unwrap();
    let opf = text(&pkg, "OEBPS/content.opf");
    assert!(opf.contains("version=\"3.0\""));
    assert!(opf.contains("<dc:identifier id=\"uid\">9780000000000</dc:identifier>"));
    assert!(opf.contains("<dc:creator id=\"creator1\">Jane Doe</dc:creator>"));
    assert!(opf.contains(
        "<meta refines=\"#creator1\" property=\"role\" scheme=\"marc:relators\">aut</meta>"
    ));
    assert!(opf.contains("<meta refines=\"#creator1\" property=\"file-as\">Doe, J</meta>"));
    assert!(opf.contains(
        "<meta refines=\"#contributor1\" property=\"role\" scheme=\"marc:relators\">ill</meta>"
    ));
    assert!(opf.contains("<meta refines=\"#uid\" property=\"identifier-type\">ISBN</meta>"));
    assert!(opf.contains("<dc:date>2001-02-03</dc:date>"));
    assert!(!opf.contains("opf:event"));
    assert!(opf.contains("<meta property=\"dcterms:modified\">2002-03-04T00:00:00Z</meta>"));
    assert!(opf.contains("<meta name=\"cover\" content=\"cov\"/>"));
    assert!(opf.contains("id=\"cov\" media-type=\"image/jpeg\" properties=\"cover-image\"/>"));
    assert!(opf.contains("id=\"b\" media-type=\"application/xhtml+xml\" properties=\"svg\"/>"));
    assert!(opf.contains("media-type=\"font/ttf\""));
    assert!(opf.contains("<item href=\"nav.xhtml\" id=\"nav\" media-type=\"application/xhtml+xml\" properties=\"nav\"/>"));
    assert!(opf.contains("<guide>"));
    let nav = text(&pkg, "OEBPS/nav.xhtml");
    assert!(nav.contains("<a href=\"b.xhtml#x\">B</a>"));
    assert!(nav.contains("<a epub:type=\"bodymatter\" href=\"b.xhtml\">Start</a>"));
    assert!(nav.contains("<a epub:type=\"cover\" href=\"a.xhtml\">Cover</a>"));
    let ncx = text(&pkg, "OEBPS/toc.ncx");
    assert!(ncx.contains("<meta name=\"dtb:uid\" content=\"9780000000000\"/>"));
    let a = text(&pkg, "OEBPS/a.xhtml");
    assert!(
        a.starts_with("<?xml version=\"1.0\" encoding=\"utf-8\"?>\n<!DOCTYPE html>\n<html")
    );
    assert_eq!(
        changes.added,
        vec![(
            "OEBPS/nav.xhtml".to_string(),
            "application/xhtml+xml".to_string()
        )]
    );
    assert!(upgrade_to_epub3(&mut pkg, NOW).is_err());
}
