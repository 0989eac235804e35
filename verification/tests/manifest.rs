use zip::write::SimpleFileOptions;
use std::io::Write;

use bokai::codec::decode_text;
use bokai::edit::EpubPackage;
use bokai::manifest::{add_manifest_item, insert_item, members, unique_id, Member, MemberRole};
use bokai::opf::parse_opf;

fn tiny_epub() -> Vec<u8> {
    let mut zip = zip::ZipWriter::new(std::io::Cursor::new(Vec::new()));
    let stored =
        SimpleFileOptions::default().compression_method(zip::CompressionMethod::Stored);
    let deflated = SimpleFileOptions::default();
    let mut put = |name: &str, body: &[u8], opts: SimpleFileOptions| {
        zip.start_file(name, opts).unwrap();
        zip.write_all(body).unwrap();
    };
    put("mimetype", b"application/epub+zip", stored);
    put(
        "META-INF/container.xml",
        br#"<?xml version="1.0"?><container version="1.0" xmlns="urn:oasis:names:tc:opendocument:xmlns:container"><rootfiles><rootfile full-path="OEBPS/content.opf" media-type="application/oebps-package+xml"/></rootfiles></container>"#,
        deflated,
    );
    put(
        "OEBPS/content.opf",
        br#"<?xml version="1.0"?>
<package xmlns="http://www.idpf.org/2007/opf" version="3.0" unique-identifier="id">
  <metadata xmlns:dc="http://purl.org/dc/elements/1.1/"><dc:identifier id="id">x</dc:identifier><dc:title>T</dc:title><dc:language>en</dc:language></metadata>
  <manifest>
    <item href="nav.xhtml" id="nav" media-type="application/xhtml+xml" properties="nav"/>
    <item href="ch1.xhtml" id="ch1" media-type="application/xhtml+xml"/>
    <item href="ch2.xhtml" id="ch2" media-type="application/xhtml+xml"/>
    <item href="style.css" id="css" media-type="text/css"/>
    <item href="cover.jpg" id="cover" media-type="image/jpeg"/>
  </manifest>
  <spine><itemref idref="ch1"/><itemref idref="ch2"/></spine>
</package>"#,
        deflated,
    );
    put(
        "OEBPS/nav.xhtml",
        br#"<html xmlns="http://www.w3.org/1999/xhtml" xmlns:epub="http://www.idpf.org/2007/ops"><head><title>nav</title></head><body><nav epub:type="toc"><ol><li><a href="ch1.xhtml">One</a></li></ol></nav></body></html>"#,
        deflated,
    );
    put("OEBPS/ch1.xhtml", b"<html xmlns=\"http://www.w3.org/1999/xhtml\"><head><title>1</title></head><body><p>a</p></body></html>", deflated);
    put("OEBPS/ch2.xhtml", b"<html xmlns=\"http://www.w3.org/1999/xhtml\"><head><title>2</title></head><body><p>b</p></body></html>", deflated);
    put("OEBPS/style.css", b"p { margin: 0 }", deflated);
    put("OEBPS/cover.jpg", &[0xFF, 0xD8, 0xFF, 0xD9], deflated);
    put("OEBPS/stray.bin", b"?", deflated);
    zip.finish().unwrap().into_inner()
}

fn fixture() -> EpubPackage {
    EpubPackage::parse(&tiny_epub()).expect("parse")
}


#[test]
fn manifest_every_member_is_listed_with_its_role() {
    let pkg = fixture();
    let list = members(&pkg).expect("members");
    assert_eq!(list.len(), pkg.names().len());
    let by_path = |p: &str| list.iter().find(|m| m.path == p).expect(p);
    assert_eq!(by_path("OEBPS/content.opf").role, MemberRole::Opf);
    assert_eq!(by_path("mimetype").role, MemberRole::Container);
    assert_eq!(
        by_path("META-INF/container.xml").role,
        MemberRole::Container
    );
    assert_eq!(by_path("OEBPS/nav.xhtml").role, MemberRole::Nav);
    assert_eq!(by_path("OEBPS/style.css").role, MemberRole::Style);
    assert_eq!(by_path("OEBPS/cover.jpg").role, MemberRole::Image);
    assert_eq!(by_path("OEBPS/stray.bin").role, MemberRole::Other);
    assert!(by_path("OEBPS/stray.bin").id.is_none());
    assert!(!by_path("OEBPS/cover.jpg").text);
    assert!(by_path("OEBPS/style.css").text);
    assert_eq!(by_path("OEBPS/style.css").size, 15);
    assert_eq!(by_path("OEBPS/style.css").id.as_deref(), Some("css"));
}

#[test]
fn edit_every_member_is_listed_with_its_role() {
    let pkg = fixture();
    let list = members(&pkg).expect("members");
    assert_eq!(list.len(), pkg.names().len());
    let by_path = |p: &str| list.iter().find(|m| m.path == p).expect(p);
    assert_eq!(by_path("OEBPS/content.opf").role, MemberRole::Opf);
    assert_eq!(by_path("mimetype").role, MemberRole::Container);
    assert_eq!(
        by_path("META-INF/container.xml").role,
        MemberRole::Container
    );
    assert_eq!(by_path("OEBPS/nav.xhtml").role, MemberRole::Nav);
    assert_eq!(by_path("OEBPS/style.css").role, MemberRole::Style);
    assert_eq!(by_path("OEBPS/cover.jpg").role, MemberRole::Image);
    assert_eq!(by_path("OEBPS/stray.bin").role, MemberRole::Other);
    assert!(by_path("OEBPS/stray.bin").id.is_none());
    assert!(!by_path("OEBPS/cover.jpg").text);
    assert!(by_path("OEBPS/style.css").text);
    assert_eq!(by_path("OEBPS/style.css").size, 15);
    assert_eq!(by_path("OEBPS/style.css").id.as_deref(), Some("css"));
}

#[test]
fn manifest_spine_documents_are_numbered_in_reading_order_and_labelled() {
    let pkg = fixture();
    let list = members(&pkg).expect("members");
    let mut spine: Vec<&Member> = list.iter().filter(|m| m.spine_index.is_some()).collect();
    spine.sort_by_key(|m| m.spine_index);
    assert_eq!(
        spine.iter().map(|m| m.path.as_str()).collect::<Vec<_>>(),
        ["OEBPS/ch1.xhtml", "OEBPS/ch2.xhtml"]
    );
    assert_eq!(spine[0].spine_index, Some(0));
    assert_eq!(spine[1].spine_index, Some(1));
    assert_eq!(spine[0].label.as_deref(), Some("One"));
    assert_eq!(spine[1].label, None);
    assert!(spine.iter().all(|m| m.role == MemberRole::Text && m.text));
}

#[test]
fn edit_spine_documents_are_numbered_in_reading_order_and_labelled() {
    let pkg = fixture();
    let list = members(&pkg).expect("members");
    let mut spine: Vec<&Member> = list.iter().filter(|m| m.spine_index.is_some()).collect();
    spine.sort_by_key(|m| m.spine_index);
    assert_eq!(
        spine.iter().map(|m| m.path.as_str()).collect::<Vec<_>>(),
        ["OEBPS/ch1.xhtml", "OEBPS/ch2.xhtml"]
    );
    assert_eq!(spine[0].spine_index, Some(0));
    assert_eq!(spine[1].spine_index, Some(1));
    assert_eq!(spine[0].label.as_deref(), Some("One"));
    assert_eq!(spine[1].label, None);
    assert!(spine.iter().all(|m| m.role == MemberRole::Text && m.text));
}

#[test]
fn manifest_a_new_file_is_registered_once_and_parses_back() {
    let mut pkg = fixture();
    pkg.set("OEBPS/styles/extra.css", b"p { margin: 0 }".to_vec());
    let id = add_manifest_item(&mut pkg, "OEBPS/styles/extra.css", "text/css").expect("add");
    let again = add_manifest_item(&mut pkg, "OEBPS/styles/extra.css", "text/css").expect("add");
    assert_eq!(id, again);

    let opf_text = decode_text(pkg.opf_bytes().expect("opf"));
    assert_eq!(opf_text.matches("styles/extra.css").count(), 1);
    let opf = parse_opf(&opf_text).expect("opf parses");
    assert_eq!(
        opf.manifest
            .iter()
            .find(|i| i.id == id)
            .map(|i| (i.href.as_str(), i.media_type.as_str())),
        Some(("styles/extra.css", "text/css"))
    );
    let listed = members(&pkg).expect("members");
    let m = listed
        .iter()
        .find(|m| m.path == "OEBPS/styles/extra.css")
        .expect("listed");
    assert_eq!(m.id.as_deref(), Some(id.as_str()));
    assert_eq!(m.role, MemberRole::Style);
}

#[test]
fn edit_a_new_file_is_registered_once_and_parses_back() {
    let mut pkg = fixture();
    pkg.set("OEBPS/styles/extra.css", b"p { margin: 0 }".to_vec());
    let id = add_manifest_item(&mut pkg, "OEBPS/styles/extra.css", "text/css").expect("add");
    let again = add_manifest_item(&mut pkg, "OEBPS/styles/extra.css", "text/css").expect("add");
    assert_eq!(id, again);

    let opf_text = decode_text(pkg.opf_bytes().expect("opf"));
    assert_eq!(opf_text.matches("styles/extra.css").count(), 1);
    let opf = parse_opf(&opf_text).expect("opf parses");
    assert_eq!(
        opf.manifest
            .iter()
            .find(|i| i.id == id)
            .map(|i| (i.href.as_str(), i.media_type.as_str())),
        Some(("styles/extra.css", "text/css"))
    );
    let listed = members(&pkg).expect("members");
    let m = listed
        .iter()
        .find(|m| m.path == "OEBPS/styles/extra.css")
        .expect("listed");
    assert_eq!(m.id.as_deref(), Some(id.as_str()));
    assert_eq!(m.role, MemberRole::Style);
}

#[test]
fn manifest_ids_are_ncname_safe_and_unique() {
    let pkg = fixture();
    let opf = parse_opf(&decode_text(pkg.opf_bytes().expect("opf"))).expect("opf");
    let id = unique_id(&opf, "OEBPS/表紙 2.jpg");
    assert!(id.starts_with(|c: char| c.is_ascii_alphabetic() || c == '_'));
    assert!(
        id.chars()
            .all(|c| c.is_ascii_alphanumeric() || c == '_' || c == '-')
    );
    assert!(!opf.manifest.iter().any(|i| i.id == id));
    assert_eq!(unique_id(&opf, "OEBPS/css.css"), "css2");
}

#[test]
fn edit_ids_are_ncname_safe_and_unique() {
    let pkg = fixture();
    let opf = parse_opf(&decode_text(pkg.opf_bytes().expect("opf"))).expect("opf");
    let id = unique_id(&opf, "OEBPS/表紙 2.jpg");
    assert!(id.starts_with(|c: char| c.is_ascii_alphabetic() || c == '_'));
    assert!(
        id.chars()
            .all(|c| c.is_ascii_alphanumeric() || c == '_' || c == '-')
    );
    assert!(!opf.manifest.iter().any(|i| i.id == id));
    assert_eq!(unique_id(&opf, "OEBPS/css.css"), "css2");
}

#[test]
fn manifest_insertion_keeps_the_manifest_indentation() {
    let opf = "<package>\n  <manifest>\n    <item href=\"a.xhtml\" id=\"a\" media-type=\"application/xhtml+xml\"/>\n  </manifest>\n</package>\n";
    let out = insert_item(opf, "b.css", "b", "text/css").expect("insert");
    assert!(out.contains(
        "    <item href=\"a.xhtml\" id=\"a\" media-type=\"application/xhtml+xml\"/>\n    <item href=\"b.css\" id=\"b\" media-type=\"text/css\"/>\n  </manifest>"
    ));
}

#[test]
fn edit_insertion_keeps_the_manifest_indentation() {
    let opf = "<package>\n  <manifest>\n    <item href=\"a.xhtml\" id=\"a\" media-type=\"application/xhtml+xml\"/>\n  </manifest>\n</package>\n";
    let out = insert_item(opf, "b.css", "b", "text/css").expect("insert");
    assert!(out.contains(
        "    <item href=\"a.xhtml\" id=\"a\" media-type=\"application/xhtml+xml\"/>\n    <item href=\"b.css\" id=\"b\" media-type=\"text/css\"/>\n  </manifest>"
    ));
}
