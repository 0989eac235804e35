use bokai::aozora::parser_txt::{parse_txt, Indent};
use bokai::codec::decode_text;
use bokai::edit::{Entry, EpubPackage};
use bokai::error::ErrorKind;
use bokai::image_extract::{epub_extract_images, ext_for};
use bokai::manifest::{add_manifest_item, insert_item};
use bokai::markup::set_attr;
use bokai::metadata_edit::{edit_metadata, set_creators, MetadataPatch};
use bokai::opf::{parse_opf, OpfData};
use bokai::page_shape::states_own_rights;
use bokai::pretty::pretty_xhtml;
use bokai::spine_repair::{current_spine, set_spine};
use bokai::split_doc::{merge_with_next, split_document};
use bokai::toc::TocEntry;
use bokai::toc_repair::{dedup_entries, resolve_fragments};
use bokai::unused_css::{remove_unused_css, unused_css};
use bokai::upgrade::upgrade_to_epub3;

const CONTAINER: &str = r#"<?xml version="1.0"?><container version="1.0" xmlns="urn:oasis:names:tc:opendocument:xmlns:container"><rootfiles><rootfile full-path="OEBPS/content.opf" media-type="application/oebps-package+xml"/></rootfiles></container>"#;

fn member(name: &str, data: &[u8]) -> Entry {
    Entry { name: name.to_string(), data: data.to_vec(), stored: false }
}

fn package(members: &[(&str, &[u8])]) -> EpubPackage {
    let mut entries = vec![
        Entry { name: "mimetype".to_string(), data: b"application/epub+zip".to_vec(), stored: true },
        member("META-INF/container.xml", CONTAINER.as_bytes()),
    ];
    for (name, data) in members {
        entries.push(member(name, data));
    }
    EpubPackage { entries }
}

/// A package document with these items, each also in the spine where it is a page.
fn opf(version: &str, items: &[(&str, &str, &str)]) -> String {
    let mut manifest = String::new();
    let mut spine = String::new();
    for (id, href, kind) in items {
        manifest.push_str(&format!("<item href=\"{href}\" id=\"{id}\" media-type=\"{kind}\"/>\n"));
        if *kind == "application/xhtml+xml" {
            spine.push_str(&format!("<itemref idref=\"{id}\"/>\n"));
        }
    }
    format!("<?xml version=\"1.0\"?>\n<package xmlns=\"http://www.idpf.org/2007/opf\" version=\"{version}\" unique-identifier=\"id\">\n<metadata xmlns:dc=\"http://purl.org/dc/elements/1.1/\">\n<dc:identifier id=\"id\">x</dc:identifier>\n<dc:title>T</dc:title>\n<dc:creator id=\"c1\">Someone</dc:creator>\n<dc:language>en</dc:language>\n</metadata>\n<manifest>\n{manifest}</manifest>\n<spine>\n{spine}</spine>\n</package>\n")
}

const PAGE: &str = "application/xhtml+xml";

fn page(body: &str) -> Vec<u8> {
    format!("<html xmlns=\"http://www.w3.org/1999/xhtml\">\n<head><title>t</title></head>\n<body>\n{body}\n</body>\n</html>\n").into_bytes()
}

fn text(pkg: &EpubPackage, name: &str) -> String {
    String::from_utf8(pkg.get(name).expect(name).to_vec()).expect("utf-8")
}

fn three_pages() -> EpubPackage {
    package(&[
        (
            "OEBPS/content.opf",
            opf("3.0", &[("a", "a.xhtml", PAGE), ("b", "b.xhtml", PAGE), ("c", "c.xhtml", PAGE)]).as_bytes(),
        ),
        ("OEBPS/a.xhtml", &page("<p>a</p>")),
        ("OEBPS/b.xhtml", &page("<p>b</p>")),
        ("OEBPS/c.xhtml", &page("<p>c</p>")),
    ])
}

fn read(epub: &[u8]) -> OpfData {
    let pkg = EpubPackage::parse(epub).expect("parse");
    parse_opf(&decode_text(pkg.opf_bytes().expect("opf"))).expect("opf parses")
}

#[test]
fn a_target_is_labelled_by_its_first_label() {
    let link = |label: &str| (label.to_string(), "OEBPS/a.xhtml".to_string());
    let v = dedup_entries(&vec![link(""), link("One"), link("Two")]);
    assert_eq!(v.len(), 1);
    assert_eq!((v[0].title.as_str(), v[0].href.as_str()), ("One", "OEBPS/a.xhtml"));
    let w = dedup_entries(&vec![link(""), link(" \n ")]);
    assert_eq!(w.len(), 1);
    assert_eq!(w[0].title, dedup_entries(&vec![link("")])[0].title);
    assert!(!w[0].title.is_empty(), "the filename is the last resort");
}

#[test]
fn a_fragment_without_a_document_is_kept() {
    let entry = |href: &str| TocEntry {
        title: "t".to_string(),
        href: href.to_string(),
        children: Vec::new(),
    };
    let v = resolve_fragments(
        &three_pages(),
        &vec![entry("#x"), entry("OEBPS/a.xhtml#gone"), entry("OEBPS/none.xhtml#y")],
    );
    let hrefs: Vec<&str> = v.iter().map(|e| e.href.as_str()).collect();
    assert_eq!(hrefs, vec!["#x", "OEBPS/a.xhtml", "OEBPS/none.xhtml#y"]);
}

#[test]
fn an_indent_says_the_depth_of_the_first_line() {
    let attrs = |first: u32, wrap: u32| -> String {
        Indent { first, wrap }.attrs(&[]).into_iter().collect()
    };
    assert_eq!(attrs(1, 1), " class=\"indent\"");
    assert_eq!(attrs(3, 3), " class=\"indent\" style=\"margin-top:3em\"");
    assert_eq!(attrs(1, 3), " class=\"indent\" style=\"margin-top:3em;text-indent:-2em\"");
    assert_eq!(attrs(4, 1), " class=\"indent\" style=\"margin-top:1em;text-indent:3em\"");
}

#[test]
fn a_heading_marked_behind_its_text_closes_an_open_box() {
    let doc = parse_txt(
        "T\nA\n\n-------\n［＃ここから罫囲み］\n箱\n次章［＃「次章」は中見出し］\n本文\n",
        &Vec::new(),
    );
    assert_eq!(
        doc.body_xhtml,
        "<p class=\"keigakomi\">箱</p>\n<h3 id=\"h1\">次章</h3>\n<p>本文</p>\n"
    );
}

#[test]
fn the_label_of_a_small_heading_is_plain_text() {
    let doc = parse_txt(
        "T\nA\n\n-------\n［＃小見出し］序［＃「序」は底本では「所」］［＃小見出し終わり］\n",
        &Vec::new(),
    );
    assert_eq!(doc.toc.len(), 1);
    assert_eq!((doc.toc[0].id.as_str(), doc.toc[0].level, doc.toc[0].text.as_str()), ("h1", 4, "序"));
    assert_eq!(doc.body_xhtml, "<h4 id=\"h1\">序</h4>\n");
}

#[test]
fn a_comment_between_inline_elements_stays_in_its_line() {
    assert_eq!(
        pretty_xhtml("<p><em>a</em><!-- c --><em>b</em></p>"),
        "<p><em>a</em><!-- c --><em>b</em></p>\n"
    );
}

#[test]
fn a_longer_number_is_no_year_wherever_it_stands() {
    for n in 0..80 {
        let filler = "x".repeat(n);
        assert!(!states_own_rights(&format!("<body><p>© {filler} 20011234</p></body>")), "{n}");
    }
    assert!(states_own_rights("<body><p>© x 2001</p></body>"));
}

#[test]
fn an_empty_creator_is_replaced_too() {
    let out = set_creators(
        "<metadata>\n<dc:creator/>\n<dc:title>T</dc:title>\n</metadata>",
        &vec!["New".to_string()],
    );
    assert_eq!(out.matches("<dc:creator").count(), 1, "{out}");
    assert!(out.contains("<dc:creator id=\"creator1\">New</dc:creator>"), "{out}");
}

#[test]
fn any_image_type_is_an_image() {
    assert_eq!(ext_for("image/x-portable-pixmap", b"P6"), Some("img"));
    assert_eq!(ext_for("text/css", b"P6"), None);
    let pkg = package(&[
        (
            "OEBPS/content.opf",
            opf("3.0", &[("a", "a.xhtml", PAGE), ("i", "i.ppm", "image/x-portable-pixmap")]).as_bytes(),
        ),
        ("OEBPS/a.xhtml", &page("<p>a</p>")),
        ("OEBPS/i.ppm", b"P6 1 1 255"),
    ]);
    let images = epub_extract_images(&pkg.into_bytes().expect("written")).expect("images");
    assert_eq!(images.len(), 1);
    assert_eq!(images[0].bytes, b"P6 1 1 255");
}

#[test]
fn an_item_is_added_to_a_manifest_on_one_line() {
    let one_line = opf("3.0", &[("a", "a.xhtml", PAGE)]).replace('\n', "");
    let mut pkg = package(&[("OEBPS/content.opf", one_line.as_bytes()), ("OEBPS/a.xhtml", &page(""))]);
    let id = add_manifest_item(&mut pkg, "OEBPS/b.css", "text/css").expect("added");
    let opf = parse_opf(&text(&pkg, "OEBPS/content.opf")).expect("still parses");
    let ids: Vec<&str> = opf.manifest.iter().map(|item| item.id.as_str()).collect();
    assert_eq!(ids, vec!["a", id.as_str()]);
    assert_eq!(
        insert_item("<manifest><item id=\"a\"/></manifest>", "b.css", "b", "text/css").expect("inserted"),
        "<manifest><item id=\"a\"/><item href=\"b.css\" id=\"b\" media-type=\"text/css\"/>\n</manifest>"
    );
}

#[test]
fn a_group_that_holds_a_used_rule_stays() {
    let mut pkg = package(&[
        (
            "OEBPS/content.opf",
            opf("3.0", &[("a", "a.xhtml", PAGE), ("s", "s.css", "text/css")]).as_bytes(),
        ),
        ("OEBPS/a.xhtml", &page("<p class=\"used\">a</p>")),
        (
            "OEBPS/s.css",
            b"@media screen {\n@media print {\n.gone { a: b }\n.used { c: d }\n}\n.gone { e: f }\n}\n@media screen {\n@media print {\n.gone { g: h }\n}\n}\n",
        ),
    ]);
    let matched = vec![".used".to_string()];
    assert_eq!(unused_css(&pkg, &matched).expect("read").len(), 3);
    remove_unused_css(&mut pkg, &matched).expect("removed");
    let css = text(&pkg, "OEBPS/s.css");
    assert!(css.contains(".used { c: d }"), "{css}");
    assert!(!css.contains(".gone"), "{css}");
    assert_eq!(css.matches("@media").count(), 2, "the group with nothing left is gone: {css}");
}

#[test]
fn a_merged_document_links_to_itself() {
    let mut pkg = three_pages();
    pkg.replace("OEBPS/a.xhtml", page("<p><a href=\"b.xhtml\">b</a> <a href=\"c.xhtml\">c</a></p>"));
    merge_with_next(&mut pkg, "OEBPS/a.xhtml").expect("merged");
    assert!(!pkg.contains("OEBPS/b.xhtml"));
    let merged = text(&pkg, "OEBPS/a.xhtml");
    assert!(!merged.contains("b.xhtml"), "{merged}");
    assert!(merged.contains("<a href=\"a.xhtml\">b</a> <a href=\"c.xhtml\">c</a>"), "{merged}");
}

#[test]
fn a_link_by_the_old_name_follows_what_it_led_to() {
    let mut pkg = three_pages();
    pkg.replace(
        "OEBPS/a.xhtml",
        page("<p id=\"one\">1</p>\n<p id=\"two\"><a href=\"a.xhtml#two\">2</a> <a href=\"a.xhtml#one\">1</a></p>"),
    );
    split_document(&mut pkg, "OEBPS/a.xhtml", 5, 1).expect("split");
    let second = text(&pkg, "OEBPS/a-2.xhtml");
    assert!(second.contains("<a href=\"#two\">2</a> <a href=\"a.xhtml#one\">1</a>"), "{second}");
}

#[test]
fn an_upgrade_keeps_the_bytes_of_a_document_in_another_encoding() {
    let before: &[u8] = b"<?xml version=\"1.0\" encoding=\"iso-8859-1\"?>\n<!DOCTYPE html PUBLIC \"-//W3C//DTD XHTML 1.1//EN\" \"x.dtd\">\n<html><head><title>t</title></head><body><p>caf\xe9</p></body></html>";
    let after: &[u8] = b"<?xml version=\"1.0\" encoding=\"iso-8859-1\"?>\n<!DOCTYPE html>\n<html><head><title>t</title></head><body><p>caf\xe9</p></body></html>";
    let mut pkg = package(&[
        ("OEBPS/content.opf", opf("2.0", &[("a", "a.xhtml", PAGE)]).as_bytes()),
        ("OEBPS/a.xhtml", before),
    ]);
    upgrade_to_epub3(&mut pkg, "2024-05-06T07:08:09Z").expect("upgraded");
    assert_eq!(pkg.get("OEBPS/a.xhtml").expect("still there"), after);
}

#[test]
fn a_package_that_fits_is_written_and_one_with_a_name_twice_is_not() {
    let mut pkg = three_pages();
    assert!(pkg.to_bytes().is_ok());
    pkg.entries.push(member("OEBPS/a.xhtml", b"again"));
    assert!(pkg.to_bytes().is_err());
}

#[test]
fn every_other_order_of_the_spine_is_set_and_read() {
    let epub = three_pages().into_bytes().expect("written");
    for order in ["a c b", "b a c", "b c a", "c a b", "c b a"] {
        let ids: Vec<String> = order.split(' ').map(|s| s.to_string()).collect();
        let out = set_spine(&epub, &ids).expect(order);
        let now: Vec<String> = current_spine(&out).expect(order).into_iter().map(|d| d.idref).collect();
        assert_eq!(now, ids);
        assert_eq!(read(&out).spine_ids, ids);
    }
    assert!(set_spine(&epub, &vec!["a".into(), "b".into(), "c".into()]).is_err());
}

#[test]
fn an_edited_book_is_read_to_have_what_was_set() {
    let epub = three_pages().into_bytes().expect("written");
    let patch = MetadataPatch {
        title: Some("A <new> title".into()),
        authors: Some(vec!["One & Two".into(), "Three".into()]),
        language: Some("ja".into()),
        publisher: Some("Acme".into()),
        date: Some("2001-02-03".into()),
        ..Default::default()
    };
    let out = read(&edit_metadata(&epub, &patch).expect("edited"));
    assert_eq!(out.metadata.title, "A <new> title");
    assert_eq!(out.metadata.authors, vec!["One & Two".to_string(), "Three".to_string()]);
    assert_eq!(out.metadata.language, "ja");
    assert_eq!(out.metadata.publisher.as_deref(), Some("Acme"));
    assert_eq!(out.metadata.date.as_deref(), Some("2001-02-03"));
    assert_eq!(out.spine_ids, read(&epub).spine_ids);
}

#[test]
fn an_attribute_that_is_set_and_taken_out_leaves_the_tag() {
    for tag in ["<p>", "<p class=\"x\">", "<br/>", "<img src=\"i.png\"/>"] {
        let set = set_attr(tag, "id", Some("a \"b\""));
        assert_ne!(set, tag);
        assert_eq!(set_attr(&set, "id", None), tag);
    }
}

#[test]
fn a_spine_is_set_whatever_the_comments_hold() {
    let commented = opf("3.0", &[("a", "a.xhtml", PAGE), ("b", "b.xhtml", PAGE)])
        .replace("<dc:language>", "<!-- <x> -> </x> \"<itemref idref='a'/>\" --><dc:language>");
    let pkg = package(&[
        ("OEBPS/content.opf", commented.as_bytes()),
        ("OEBPS/a.xhtml", &page("<p>a</p>")),
        ("OEBPS/b.xhtml", &page("<p>b</p>")),
    ]);
    let epub = pkg.into_bytes().expect("written");
    let before = current_spine(&epub).expect("read");
    let out = set_spine(&epub, &vec!["b".into(), "a".into()]).expect("set");
    let after = current_spine(&out).expect("read");
    assert_eq!(after.len(), 2);
    assert_eq!((after[0].idref.as_str(), after[0].href.as_str()), ("b", "OEBPS/b.xhtml"));
    assert_eq!((after[1].idref.as_str(), after[1].href.as_str()), ("a", "OEBPS/a.xhtml"));
    assert_eq!((before[1].href.as_str(), &before[1].label), (after[0].href.as_str(), &after[0].label));
}

#[test]
fn metadata_are_set_beside_a_comment_with_markup() {
    let commented = opf("3.0", &[("a", "a.xhtml", PAGE)])
        .replace("<dc:title>", "<!-- <old>x</old> > --><dc:title>");
    let pkg = package(&[
        ("OEBPS/content.opf", commented.as_bytes()),
        ("OEBPS/a.xhtml", &page("<p>a</p>")),
    ]);
    let patch = MetadataPatch { title: Some("N".into()), ..Default::default() };
    let out = edit_metadata(&pkg.into_bytes().expect("written"), &patch).expect("edited");
    assert_eq!(read(&out).metadata.title, "N");
}

#[test]
fn an_upgrade_sets_the_doctype_of_utf_16() {
    let old = "<!DOCTYPE html PUBLIC \"-//W3C//DTD XHTML 1.1//EN\" \"x.dtd\">";
    let body = "<html><head><title>t</title></head><body><p>\u{3042}\u{1f600}</p></body></html>";
    for big in [true, false] {
        let wide = |s: &str| -> Vec<u8> {
            let mut v = Vec::new();
            for u in s.encode_utf16() {
                v.extend(if big { u.to_be_bytes() } else { u.to_le_bytes() });
            }
            v
        };
        let before = wide(&format!("\u{feff}{old}{body}"));
        let after = wide(&format!("\u{feff}<!DOCTYPE html>{body}"));
        let mut pkg = package(&[
            ("OEBPS/content.opf", opf("2.0", &[("a", "a.xhtml", PAGE)]).as_bytes()),
            ("OEBPS/a.xhtml", &before),
        ]);
        upgrade_to_epub3(&mut pkg, "2024-05-06T07:08:09Z").expect("upgraded");
        assert_eq!(pkg.get("OEBPS/a.xhtml").expect("still there"), after, "{big}");
    }
}

#[test]
fn an_annotation_speaks_of_text_and_not_of_tags() {
    let body = |line: &str| parse_txt(&format!("T\nA\n\n-------\n{line}\n"), &Vec::new()).body_xhtml;
    assert_eq!(
        body("甲［＃「甲」に傍点］乙［＃「em」に傍点］"),
        "<p><em class=\"sesame\">甲</em>乙</p>\n"
    );
    assert_eq!(body("甲&乙［＃「amp」に傍点］"), "<p>甲&amp;乙</p>\n");
    assert_eq!(
        body("em甲［＃「甲」に傍点］［＃「em」は太字］"),
        "<p><strong>em</strong><em class=\"sesame\">甲</em></p>\n"
    );
}

#[test]
fn a_package_is_upgraded_once() {
    let mut pkg = package(&[
        ("OEBPS/content.opf", opf("2.0", &[("a", "a.xhtml", PAGE)]).as_bytes()),
        ("OEBPS/a.xhtml", &page("<p>a</p>")),
    ]);
    upgrade_to_epub3(&mut pkg, "2024-05-06T07:08:09Z").expect("upgraded");
    assert_eq!(parse_opf(&text(&pkg, "OEBPS/content.opf")).expect("parses").version, "3.0");
    let before: Vec<Vec<u8>> = pkg.entries.iter().map(|e| e.data.clone()).collect();
    let err = upgrade_to_epub3(&mut pkg, "2025-05-06T07:08:09Z").expect_err("refused");
    assert_eq!(err.kind(), ErrorKind::InvalidInput);
    assert_eq!(pkg.entries.iter().map(|e| e.data.clone()).collect::<Vec<_>>(), before);
}

#[test]
fn a_single_quoted_attribute_and_an_apostrophe() {
    assert_eq!(set_attr("<a title='x'>", "id", Some("it's")), "<a title='x' id=\"it's\">");
}
