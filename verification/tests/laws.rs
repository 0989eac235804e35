use bokai::class_rename::rename_class;
use bokai::edit::{read_member, Entry, EpubPackage};
use bokai::fresh::fresh;
use bokai::manifest::{add_manifest_item, members, remove_manifest_item, MemberRole};
use bokai::markup::{attr_value, attributes, escape_attr, escape_text, set_attr, tokens, unescape, Tok};
use bokai::metadata_edit::{edit_metadata, set_asin, set_single, MetadataPatch};
use bokai::nav_doc::{depth, render_nav_doc, render_navmap, render_ncx, render_toc_nav};
use bokai::pretty::beautify;
use bokai::spine_repair::{
    current_spine, declared_spine_misordering, permute_itemrefs, propose_spine, repair_spine,
    set_spine,
};
use bokai::split_doc::{merge_with_next, split_document};
use bokai::toc::{flat_count, parse_nav_toc, parse_ncx, TocEntry};
use bokai::toc_repair::{propose_toc, rebase_to_absolute, set_toc};
use bokai::unused_css::remove_unused_css;
use bokai::upgrade::{html5_doctype, upgrade_to_epub3};
use bokai::volume::{split, volume_name};
use bokai::split::{Cut, Numbering};
use bokai::volume_number::Number;

const CONTAINER: &str = r#"<?xml version="1.0"?><container version="1.0" xmlns="urn:oasis:names:tc:opendocument:xmlns:container"><rootfiles><rootfile full-path="OEBPS/content.opf" media-type="application/oebps-package+xml"/></rootfiles></container>"#;

const NOW: &str = "2024-05-06T07:08:09Z";

fn package(members: &[(&str, &str)]) -> EpubPackage {
    let mut entries = vec![
        Entry {
            name: "mimetype".to_string(),
            data: b"application/epub+zip".to_vec(),
            stored: true,
        },
        Entry {
            name: "META-INF/container.xml".to_string(),
            data: CONTAINER.as_bytes().to_vec(),
            stored: false,
        },
    ];
    for (name, body) in members {
        entries.push(Entry {
            name: name.to_string(),
            data: body.as_bytes().to_vec(),
            stored: false,
        });
    }
    EpubPackage { entries }
}

fn page(body: &str) -> String {
    format!("<html xmlns=\"http://www.w3.org/1999/xhtml\"><head><title>t</title><link rel=\"stylesheet\" href=\"s.css\"/></head><body>{body}</body></html>")
}

fn opf(version: &str, nav: bool) -> String {
    let nav_item = if nav {
        "<item href=\"nav.xhtml\" id=\"nav\" media-type=\"application/xhtml+xml\" properties=\"nav\"/>\n"
    } else {
        ""
    };
    format!("<?xml version=\"1.0\"?>\n<package xmlns=\"http://www.idpf.org/2007/opf\" version=\"{version}\" unique-identifier=\"id\">\n<metadata xmlns:dc=\"http://purl.org/dc/elements/1.1/\">\n<dc:identifier id=\"id\">x</dc:identifier>\n<dc:title>T</dc:title>\n<dc:language>en</dc:language>\n</metadata>\n<manifest>\n{nav_item}<item href=\"a.xhtml\" id=\"a\" media-type=\"application/xhtml+xml\"/>\n<item href=\"b.xhtml\" id=\"b\" media-type=\"application/xhtml+xml\"/>\n<item href=\"c.xhtml\" id=\"c\" media-type=\"application/xhtml+xml\"/>\n<item href=\"s.css\" id=\"s\" media-type=\"text/css\"/>\n<item href=\"i.png\" id=\"i\" media-type=\"image/png\"/>\n</manifest>\n<spine>\n<itemref idref=\"a\"/>\n<itemref idref=\"b\" linear=\"no\"/>\n<itemref idref=\"c\"/>\n</spine>\n</package>\n")
}

const NAV: &str = "<html xmlns=\"http://www.w3.org/1999/xhtml\" xmlns:epub=\"http://www.idpf.org/2007/ops\"><head><title>n</title></head><body><nav epub:type=\"toc\"><ol><li><a href=\"b.xhtml\">B</a></li><li><a href=\"a.xhtml\">A</a></li><li><a href=\"c.xhtml\">C</a></li></ol></nav><nav epub:type=\"landmarks\"><ol><li><a epub:type=\"toc\" href=\"nav.xhtml\">L</a></li></ol></nav></body></html>";

fn book() -> EpubPackage {
    package(&[
        ("OEBPS/content.opf", &opf("3.0", true)),
        ("OEBPS/nav.xhtml", NAV),
        ("OEBPS/a.xhtml", &page("<p class=\"x y\">one</p>\n<p id=\"k\">two</p>\n<p>three</p>")),
        ("OEBPS/b.xhtml", &page("<p class=\"x\"><a href=\"a.xhtml#k\">back</a></p>")),
        ("OEBPS/c.xhtml", &page("<p>end <img src=\"i.png\" alt=\"\"/></p>")),
        ("OEBPS/s.css", ".x { color: red }\n.z { color: blue }\n"),
        ("OEBPS/i.png", "\u{1}not a picture"),
    ])
}

fn text(pkg: &EpubPackage, name: &str) -> String {
    String::from_utf8(pkg.get(name).expect(name).to_vec()).expect("utf-8")
}

fn shape(v: &[TocEntry]) -> Vec<(String, String, usize)> {
    v.iter()
        .map(|e| (e.title.clone(), e.href.clone(), e.children.len()))
        .collect()
}

fn entry(title: &str, href: &str, children: Vec<TocEntry>) -> TocEntry {
    TocEntry { title: title.to_string(), href: href.to_string(), children }
}

/// The members whose content differs, or that only one of the two has.
fn differing(a: &EpubPackage, b: &EpubPackage) -> Vec<String> {
    let mut names = a.names();
    for n in b.names() {
        if !names.contains(&n) {
            names.push(n);
        }
    }
    names.retain(|n| a.get(n) != b.get(n));
    names.sort();
    names
}

fn named(changes: &bokai::edit::Changes) -> Vec<String> {
    let mut v = changes.changed.clone();
    v.extend(changes.added.iter().map(|(p, _)| p.clone()));
    v.extend(changes.removed.iter().cloned());
    v.sort();
    v
}

// ---------------------------------------------------------------- the package

#[test]
fn a_package_is_read_back_as_it_was_written() {
    let bytes = book().into_bytes().expect("written");
    let back = EpubPackage::parse(&bytes).expect("parsed");
    assert_eq!(back.names()[0], "mimetype");
    assert!(back.entries[0].stored);
    assert!(differing(&book(), &back).is_empty());
    assert_eq!(
        read_member(&bytes, "OEBPS/s.css").expect("read"),
        Some(b".x { color: red }\n.z { color: blue }\n".to_vec())
    );
    assert_eq!(read_member(&bytes, "OEBPS/gone").expect("read"), None);
    assert!(read_member(b"no archive", "a").is_err());
}

#[test]
fn a_package_without_a_mimetype_gets_one_in_front() {
    let mut pkg = book();
    assert!(pkg.remove("mimetype"));
    let back = EpubPackage::parse(&pkg.into_bytes().expect("written")).expect("parsed");
    assert_eq!(back.names()[0], "mimetype");
    assert_eq!(back.get("mimetype"), Some(&b"application/epub+zip"[..]));
}

#[test]
fn members_are_replaced_set_and_removed_one_at_a_time() {
    let mut pkg = book();
    assert!(pkg.replace("OEBPS/s.css", b"p{}".to_vec()));
    assert!(!pkg.replace("OEBPS/none.css", b"p{}".to_vec()));
    assert_eq!(differing(&book(), &pkg), ["OEBPS/s.css"]);
    pkg.set("OEBPS/new.css", b"q{}".to_vec());
    assert_eq!(differing(&book(), &pkg), ["OEBPS/new.css", "OEBPS/s.css"]);
    assert!(pkg.remove("OEBPS/s.css"));
    assert!(!pkg.remove("OEBPS/s.css"));
    assert!(!pkg.contains("OEBPS/s.css"));
    assert!(pkg.contains("OEBPS/new.css"));
}

#[test]
fn a_subset_keeps_bytes_order_and_storage() {
    let pkg = book();
    let part = pkg.subset(&vec!["OEBPS/s.css".to_string(), "mimetype".to_string(), "x".to_string()]);
    assert_eq!(part.names(), ["mimetype", "OEBPS/s.css"]);
    assert!(part.entries[0].stored && !part.entries[1].stored);
    assert_eq!(part.get("OEBPS/s.css"), pkg.get("OEBPS/s.css"));
}

// ---------------------------------------------------------------- accounting

#[test]
fn every_operation_accounts_for_what_it_changes() {
    let mut pkg = book();
    let c = rename_class(&mut pkg, "x", "w").expect("renamed");
    assert_eq!(differing(&book(), &pkg), named(&c));
    assert_eq!(named(&c), ["OEBPS/a.xhtml", "OEBPS/b.xhtml", "OEBPS/s.css"]);

    let mut pkg = book();
    let c = beautify(&mut pkg, Some("OEBPS/a.xhtml")).expect("re-indented");
    assert_eq!(differing(&book(), &pkg), named(&c));
    assert_eq!(named(&c), ["OEBPS/a.xhtml"]);

    let mut pkg = book();
    let c = remove_unused_css(&mut pkg, &vec![".x".to_string()]).expect("removed");
    assert_eq!(differing(&book(), &pkg), named(&c));
    assert_eq!(text(&pkg, "OEBPS/s.css").contains(".z"), false);

    let mut pkg = book();
    let c = split_document(&mut pkg, "OEBPS/a.xhtml", 2, 1).expect("split");
    assert_eq!(differing(&book(), &pkg), named(&c));

    let mut pkg = book();
    let c = merge_with_next(&mut pkg, "OEBPS/a.xhtml").expect("merged");
    assert_eq!(differing(&book(), &pkg), named(&c));
    assert_eq!(c.removed, ["OEBPS/b.xhtml"]);
}

#[test]
fn refused_operations_leave_the_package_alone() {
    let mut pkg = book();
    assert!(rename_class(&mut pkg, "absent", "w").is_err());
    assert!(rename_class(&mut pkg, "x", "1 bad").is_err());
    assert!(beautify(&mut pkg, Some("OEBPS/i.png")).is_err());
    assert!(split_document(&mut pkg, "OEBPS/a.xhtml", 99, 1).is_err());
    assert!(split_document(&mut pkg, "OEBPS/none.xhtml", 1, 1).is_err());
    assert!(merge_with_next(&mut pkg, "OEBPS/c.xhtml").is_err());
    assert!(upgrade_to_epub3(&mut pkg, NOW).is_err());
    assert!(differing(&book(), &pkg).is_empty());
}

#[test]
fn an_upgrade_passes_bodies_sheets_and_pictures_through() {
    let doc = "<!DOCTYPE html PUBLIC \"x\" \"y\">\n<html><head><title>a</title></head><body><p>Body &amp; soul</p></body></html>";
    let before = package(&[
        ("OEBPS/content.opf", &opf("2.0", false)),
        ("OEBPS/a.xhtml", doc),
        ("OEBPS/b.xhtml", &page("<p>b</p>")),
        ("OEBPS/c.xhtml", &page("<p>c</p>")),
        ("OEBPS/s.css", ".x{}"),
        ("OEBPS/i.png", "\u{1}picture"),
    ]);
    let mut pkg = EpubPackage::parse(&before.to_bytes().expect("written")).expect("parsed");
    let c = upgrade_to_epub3(&mut pkg, NOW).expect("upgraded");
    assert_eq!(differing(&before, &pkg), named(&c));
    assert_eq!(
        differing(&before, &pkg),
        ["OEBPS/a.xhtml", "OEBPS/content.opf", "OEBPS/nav.xhtml"]
    );
    assert_eq!(
        text(&pkg, "OEBPS/a.xhtml"),
        "<!DOCTYPE html>\n<html><head><title>a</title></head><body><p>Body &amp; soul</p></body></html>"
    );
    // What was upgraded is not upgraded again.
    let again = upgrade_to_epub3(&mut pkg, NOW).expect_err("refused");
    assert_eq!(again.message(), "the package is already EPUB 3");
}

#[test]
fn a_doctype_is_set_once_and_alone() {
    assert_eq!(html5_doctype("a<!doctype x>b>c"), "a<!DOCTYPE html>b>c");
    assert_eq!(html5_doctype("a<!DOCTYPE html>b"), "a<!DOCTYPE html>b");
    assert_eq!(html5_doctype("a<!doctype html>b"), "a<!doctype html>b");
    assert_eq!(html5_doctype("no declaration"), "no declaration");
    assert_eq!(html5_doctype("<!doctype unclosed"), "<!doctype unclosed");
}

// ---------------------------------------------------------------- escaping and attributes

#[test]
fn unescaping_gives_back_what_was_escaped() {
    for s in ["", "plain", "<a href=\"x\">&amp;</a>", "&lt;&&gt;", "it's \u{3000}雪"] {
        assert_eq!(unescape(&escape_text(s)), s);
        assert_eq!(unescape(&escape_attr(s)), s);
        assert!(!escape_attr(s).contains(['<', '>', '"']));
    }
    assert_eq!(escape_text("<&>\""), "&lt;&amp;&gt;\"");
    assert_eq!(escape_attr("<&>\""), "&lt;&amp;&gt;&quot;");
    assert_eq!(unescape("&apos;&#39;&quot;"), "''\"");
}

#[test]
fn a_set_attribute_can_be_read() {
    let v = "a \"b\" & <c>";
    for tag in [
        "<p>",
        "<p class=\"x\">",
        "<p epub:type=\"y\" class='x'>",
        "<br/>",
        "<img src=\"s\" />",
    ] {
        let set = set_attr(tag, "class", Some(v));
        assert_eq!(attr_value(&set, "class").as_deref(), Some(escape_attr(v).as_str()), "{set}");
        assert_eq!(unescape(&attr_value(&set, "class").expect("set")), v);
        let read: Vec<String> = attributes(&set)
            .iter()
            .filter(|a| a.name == "class")
            .map(|a| a.value.clone())
            .collect();
        assert_eq!(read, [v]);
    }
    assert_eq!(set_attr("<p class=\"x\" id=\"i\">", "class", None), "<p id=\"i\">");
    assert_eq!(attr_value("<p epub:type=\"y\">", "type"), None);
}

#[test]
fn tokens_spell_the_text_they_are_cut_from() {
    let t = "a<!-- <p> --><p class=\"a>b\">x</p>< 1 <?pi <q>?><br/>tail";
    let chars: Vec<char> = t.chars().collect();
    let mut spelled = String::new();
    let mut tags = Vec::new();
    for k in tokens(t) {
        match k {
            Tok::Text { start, end } => spelled.extend(&chars[start..end]),
            Tok::Tag { start, end, name, closing, .. } => {
                spelled.extend(&chars[start..end]);
                tags.push((name, closing));
            }
        }
    }
    assert_eq!(spelled, t);
    assert_eq!(
        tags,
        [("p".to_string(), false), ("p".to_string(), true), ("br".to_string(), false)]
    );
}

// ---------------------------------------------------------------- metadata

#[test]
fn a_set_field_is_the_one_that_is_read() {
    let opf = "<metadata>\n<dc:title id=\"t\">Old</dc:title>\n<dc:title>Other</dc:title>\n<dc:identifier opf:scheme=\"ASIN\">B0</dc:identifier>\n</metadata>";
    assert_eq!(
        set_single(opf, "title", "A & B"),
        opf.replace("Old", "A &amp; B")
    );
    assert_eq!(set_asin(opf, "B00X"), opf.replace(">B0<", ">B00X<"));
    assert_eq!(
        set_single(opf, "date", "2001"),
        opf.replace("</metadata>", "  <dc:date>2001</dc:date>\n</metadata>")
    );
}

#[test]
fn a_metadata_edit_touches_the_package_document_alone() {
    let bytes = book().into_bytes().expect("written");
    let patch = MetadataPatch {
        title: Some("New <title>".into()),
        authors: Some(vec!["One".into(), "Two".into()]),
        asin: Some("B00TEST".into()),
        ..Default::default()
    };
    let out = EpubPackage::parse(&edit_metadata(&bytes, &patch).expect("edited")).expect("parsed");
    assert_eq!(differing(&book(), &out), ["OEBPS/content.opf"]);
    let opf = text(&out, "OEBPS/content.opf");
    assert!(opf.contains("<dc:title>New &lt;title&gt;</dc:title>"));
    assert!(opf.contains("One") && opf.contains("Two") && opf.contains("B00TEST"));
    assert!(opf.contains("<dc:language>en</dc:language>"));
    assert_eq!(edit_metadata(&bytes, &MetadataPatch::default()).expect("same"), bytes);
    let mut odd = book();
    odd.replace("OEBPS/content.opf", vec![0xff, 0xfe, 0x41]);
    let refused = edit_metadata(&odd.into_bytes().expect("written"), &patch).expect_err("not UTF-8");
    assert!(refused.message().starts_with("OPF not UTF-8: "));
}

// ---------------------------------------------------------------- tables of contents

fn nested() -> Vec<TocEntry> {
    vec![
        entry("Part & 1", "OEBPS/a.xhtml", vec![
            entry("One <1>", "OEBPS/a.xhtml#k", vec![]),
            entry("Two", "OEBPS/b.xhtml", vec![entry("Deep", "OEBPS/c.xhtml", vec![])]),
        ]),
        entry("\u{3000}Indented\n", "OEBPS/c.xhtml", vec![]),
    ]
}

#[test]
fn a_written_toc_reads_back_from_both_documents() {
    let v = nested();
    let nav = render_nav_doc(&render_toc_nav(&v, "OEBPS/"), "en", "A \"book\" & more");
    let ncx = render_ncx(&render_navmap(&v, "OEBPS/"), "urn:x", "A \"book\" & more", depth(&v));
    for read in [parse_nav_toc(&nav), parse_ncx(&ncx)] {
        assert_eq!(flat_count(&read), 5);
        assert_eq!(depth(&read), 3);
        let back = rebase_to_absolute(&read, "OEBPS/");
        assert_eq!(
            shape(&back),
            [
                ("Part & 1".to_string(), "OEBPS/a.xhtml".to_string(), 2),
                ("\u{3000}Indented".to_string(), "OEBPS/c.xhtml".to_string(), 0),
            ]
        );
        assert_eq!(
            shape(&back[0].children),
            [
                ("One <1>".to_string(), "OEBPS/a.xhtml#k".to_string(), 0),
                ("Two".to_string(), "OEBPS/b.xhtml".to_string(), 1),
            ]
        );
        assert_eq!(back[0].children[1].children[0].title, "Deep");
    }
}

#[test]
fn writing_a_toc_leaves_the_rest_of_the_book() {
    let bytes = book().into_bytes().expect("written");
    let out = EpubPackage::parse(&set_toc(&bytes, &nested()).expect("set")).expect("parsed");
    assert_eq!(differing(&book(), &out), ["OEBPS/nav.xhtml"]);
    let nav = text(&out, "OEBPS/nav.xhtml");
    assert!(nav.contains("<nav epub:type=\"landmarks\"><ol><li><a epub:type=\"toc\" href=\"nav.xhtml\">L</a></li></ol></nav>"));
    let read = rebase_to_absolute(&parse_nav_toc(&nav), "OEBPS/");
    assert_eq!(flat_count(&read), 5);
    assert_eq!(read[0].children[1].children[0].href, "OEBPS/c.xhtml");
}

#[test]
fn a_proposal_keeps_the_declared_entries() {
    let bytes = book().into_bytes().expect("written");
    let v = propose_toc(&bytes).expect("proposed");
    let mut hrefs: Vec<String> = v.iter().map(|e| e.href.clone()).collect();
    hrefs.sort();
    assert_eq!(hrefs, ["OEBPS/a.xhtml", "OEBPS/b.xhtml", "OEBPS/c.xhtml"]);
}

// ---------------------------------------------------------------- the spine

#[test]
fn a_written_order_is_the_one_that_is_read() {
    let bytes = book().into_bytes().expect("written");
    let order: Vec<String> = ["c", "a", "b"].iter().map(|s| s.to_string()).collect();
    let out = set_spine(&bytes, &order).expect("set");
    let ids: Vec<String> = current_spine(&out).expect("read").iter().map(|d| d.idref.clone()).collect();
    assert_eq!(ids, order);
    let pkg = EpubPackage::parse(&out).expect("parsed");
    assert_eq!(differing(&book(), &pkg), ["OEBPS/content.opf"]);
    assert!(text(&pkg, "OEBPS/content.opf").contains("<itemref idref=\"b\" linear=\"no\"/>"));
    let same: Vec<String> = ["a", "b", "c"].iter().map(|s| s.to_string()).collect();
    assert!(set_spine(&bytes, &same).is_err());
    let other: Vec<String> = ["a", "b", "z"].iter().map(|s| s.to_string()).collect();
    assert!(set_spine(&bytes, &other).is_err());
    assert!(permute_itemrefs("<package/>", &same).is_err());
}

#[test]
fn a_repaired_spine_agrees_with_the_navigation() {
    let bytes = book().into_bytes().expect("written");
    let m = declared_spine_misordering(&bytes).expect("measured");
    assert_eq!((m.descents, m.moved), (1, 2));
    assert!(m.contradicts());
    let proposed: Vec<String> =
        propose_spine(&bytes).expect("proposed").iter().map(|d| d.idref.clone()).collect();
    assert_eq!(proposed, ["b", "a", "c"]);
    let out = repair_spine(&bytes).expect("repaired");
    let m = declared_spine_misordering(&out).expect("measured");
    assert_eq!((m.descents, m.moved), (0, 0));
    assert!(repair_spine(&out).is_err());
}

// ---------------------------------------------------------------- the manifest

#[test]
fn a_listed_file_is_listed_once_and_can_be_taken_out() {
    let mut pkg = book();
    pkg.set("OEBPS/x y.css", b"p{}".to_vec());
    let id = add_manifest_item(&mut pkg, "OEBPS/x y.css", "text/css").expect("added");
    let again = add_manifest_item(&mut pkg, "OEBPS/x y.css", "text/css").expect("known");
    assert_eq!(id, again);
    let listed: Vec<_> = members(&pkg)
        .expect("listed")
        .into_iter()
        .filter(|m| m.path == "OEBPS/x y.css")
        .collect();
    assert_eq!(listed.len(), 1);
    assert_eq!(listed[0].id.as_deref(), Some(id.as_str()));
    assert_eq!(listed[0].media_type.as_deref(), Some("text/css"));
    assert_eq!(listed[0].role, MemberRole::Style);
    assert!(remove_manifest_item(&mut pkg, "OEBPS/x y.css").expect("removed"));
    assert!(!remove_manifest_item(&mut pkg, "OEBPS/x y.css").expect("gone"));
    assert_eq!(text(&pkg, "OEBPS/content.opf"), text(&book(), "OEBPS/content.opf"));
}

#[test]
fn a_fresh_name_is_the_first_that_is_free() {
    let taken: Vec<String> = ["nav.xhtml", "nav-2.xhtml"].iter().map(|s| s.to_string()).collect();
    let pre: Vec<char> = "nav".chars().collect();
    let suf: Vec<char> = ".xhtml".chars().collect();
    let name: String = fresh(&taken, &pre, "-", &suf).iter().collect();
    assert_eq!(name, "nav-3.xhtml");
    let name: String = fresh(&Vec::new(), &pre, "-", &suf).iter().collect();
    assert_eq!(name, "nav.xhtml");
}

// ---------------------------------------------------------------- volumes

fn number(n: u128) -> Number {
    Number { billionths: n * 1_000_000_000 }
}

#[test]
fn volumes_carry_their_own_pages_and_what_they_reach() {
    let bytes = book().into_bytes().expect("written");
    let cut = |spine_index: usize, documents: usize, label: &str, n: u128| Cut {
        spine_index,
        documents,
        label: label.to_string(),
        cover: None,
        number: number(n),
        numbering: Numbering::Sequence,
    };
    let cuts = vec![cut(0, 1, "First", 1), cut(1, 2, "Second", 2)];
    let uuids = vec!["u-1".to_string(), "u-2".to_string()];
    let out = split(&bytes, &cuts, Some("Works"), &uuids, NOW).expect("split");
    assert_eq!(out.len(), 2);
    let first = EpubPackage::parse(&out[0]).expect("first");
    let second = EpubPackage::parse(&out[1]).expect("second");
    assert_eq!(first.get("OEBPS/a.xhtml"), book().get("OEBPS/a.xhtml"));
    assert!(!first.contains("OEBPS/b.xhtml") && !first.contains("OEBPS/i.png"));
    assert!(!second.contains("OEBPS/a.xhtml"));
    assert_eq!(second.get("OEBPS/c.xhtml"), book().get("OEBPS/c.xhtml"));
    assert_eq!(second.get("OEBPS/i.png"), book().get("OEBPS/i.png"));
    // The link into the first volume keeps its text and loses its target.
    assert!(text(&second, "OEBPS/b.xhtml").contains("<a >back</a>"));
    for (pkg, label, uuid) in [(&first, "First", "u-1"), (&second, "Second", "u-2")] {
        let opf = text(pkg, "OEBPS/content.opf");
        assert!(opf.contains(label) && opf.contains(uuid) && opf.contains("Works") && opf.contains(NOW));
    }
    let ids: Vec<String> = current_spine(&out[1]).expect("spine").iter().map(|d| d.href.clone()).collect();
    assert_eq!(ids, ["OEBPS/b.xhtml", "OEBPS/c.xhtml"]);
    let late = vec![cut(9, 1, "Late", 1)];
    let refused = split(&bytes, &late, None, &vec!["u".to_string()], NOW).expect_err("refused");
    assert_eq!(refused.message(), "a cut starts behind the end of the spine");
    assert_eq!(volume_name("urn:isbn:1", number(2)), "urn:isbn:1#2");
}

#[test]
fn authors_that_are_set_are_the_creators_that_are_read() {
    let authors = vec!["A & B".to_string(), "<C>".to_string()];
    let patch = MetadataPatch { authors: Some(authors.clone()), ..Default::default() };
    let bytes = book().to_bytes().expect("written");
    let out = EpubPackage::parse(&edit_metadata(&bytes, &patch).expect("edited")).expect("parsed");
    let doc = bokai::package::package_doc(&out).expect("read");
    assert_eq!(doc.opf.metadata.authors, authors);
    // A second edit replaces the run that the first one wrote.
    let again = MetadataPatch { authors: Some(vec!["D".to_string()]), ..Default::default() };
    let bytes = out.to_bytes().expect("written");
    let out = EpubPackage::parse(&edit_metadata(&bytes, &again).expect("edited")).expect("parsed");
    let doc = bokai::package::package_doc(&out).expect("read");
    assert_eq!(doc.opf.metadata.authors, vec!["D".to_string()]);
    assert_eq!(doc.text.matches("<dc:creator").count(), 1);
}

#[test]
fn an_asin_is_added_once_and_then_replaced() {
    let opf = opf("3.0", true);
    let one = set_asin(&opf, "B0ONE");
    assert!(one.contains("  <dc:identifier opf:scheme=\"ASIN\">B0ONE</dc:identifier>\n</metadata>"));
    let two = set_asin(&one, "B0TWO");
    assert_eq!(two, one.replace("B0ONE", "B0TWO"));
}
