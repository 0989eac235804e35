use std::io::Write;

use bokai::series::{counted_volume, title_borne_prefix};
use bokai::split::{number_after, propose_cuts, Cut, Numbering};
use bokai::volume_number::{volume_number, Number};

fn n(x: f64) -> Number {
    Number { billionths: (x * 1e9).round() as u128 }
}

/// A document of a synthetic book: `(filename, body markup, nav label)`. A
/// document with no label is in the spine but not in the chapter list.
type Doc<'a> = (&'a str, String, Option<&'a str>);

fn image_page(src: &str) -> String {
    format!(r#"<img src="{src}" alt=""/>"#)
}

fn contents_page(targets: &[&str]) -> String {
    targets
        .iter()
        .map(|t| format!(r#"<p><a href="{t}">{t}</a></p>"#))
        .collect()
}

/// Zip the documents into an EPUB whose nav doc lists the labelled ones, in
/// spine order.
fn epub(docs: &[Doc<'_>]) -> Vec<u8> {
    let rows: String = docs
        .iter()
        .filter_map(|(name, _, label)| {
            Some(format!(r#"<li><a href="{name}">{}</a></li>"#, (*label)?))
        })
        .collect();
    epub_with_nav(docs, &rows)
}

/// As [`epub`], but with the chapter list written out by hand — for a nav
/// doc whose order or shape the per-document labels cannot express.
fn epub_with_nav(docs: &[Doc<'_>], rows: &str) -> Vec<u8> {
    let mut buf = Vec::new();
    {
        let mut zip = zip::ZipWriter::new(std::io::Cursor::new(&mut buf));
        let stored = zip::write::SimpleFileOptions::default()
            .compression_method(zip::CompressionMethod::Stored);
        let mut add = |name: &str, body: &str| {
            zip.start_file(name, stored).unwrap();
            zip.write_all(body.as_bytes()).unwrap();
        };
        add("mimetype", "application/epub+zip");
        add(
            "META-INF/container.xml",
            r#"<?xml version="1.0"?><container version="1.0" xmlns="urn:oasis:names:tc:opendocument:xmlns:container"><rootfiles><rootfile full-path="OEBPS/content.opf" media-type="application/oebps-package+xml"/></rootfiles></container>"#,
        );
        let mut manifest = String::from(
            r#"<item id="nav" href="nav.xhtml" media-type="application/xhtml+xml" properties="nav"/>"#,
        );
        let mut spine = String::new();
        for (n, (name, body, _)) in docs.iter().enumerate() {
            manifest.push_str(&format!(
                r#"<item id="d{n}" href="{name}" media-type="application/xhtml+xml"/>"#
            ));
            spine.push_str(&format!(r#"<itemref idref="d{n}"/>"#));
            add(
                &format!("OEBPS/{name}"),
                &format!(
                    r#"<?xml version="1.0" encoding="utf-8"?><html xmlns="http://www.w3.org/1999/xhtml"><head><title>{name}</title></head><body>{body}</body></html>"#
                ),
            );
        }
        add(
            "OEBPS/content.opf",
            &format!(
                r#"<?xml version="1.0" encoding="utf-8"?><package xmlns="http://www.idpf.org/2007/opf" version="3.0" unique-identifier="uid"><metadata xmlns:dc="http://purl.org/dc/elements/1.1/"><dc:title>Collected</dc:title><dc:language>ja</dc:language><dc:identifier id="uid">urn:uuid:collected</dc:identifier></metadata><manifest>{manifest}</manifest><spine>{spine}</spine></package>"#
            ),
        );
        add(
            "OEBPS/nav.xhtml",
            &format!(
                r#"<?xml version="1.0" encoding="utf-8"?><html xmlns="http://www.w3.org/1999/xhtml" xmlns:epub="http://www.idpf.org/2007/ops"><head><title>Contents</title></head><body><nav epub:type="toc"><ol>{rows}</ol></nav></body></html>"#
            ),
        );
        zip.finish().unwrap();
    }
    buf
}

/// The documents of one volume: its cover, its own Contents page, and the
/// chapters that page names.
fn volume(v: usize) -> Vec<Doc<'static>> {
    const COVERS: [&str; 3] = ["v1.xhtml", "v2.xhtml", "v3.xhtml"];
    const TOCS: [&str; 3] = ["v1toc.xhtml", "v2toc.xhtml", "v3toc.xhtml"];
    const CHAPTERS: [[&str; 2]; 3] = [
        ["v1c1.xhtml", "v1c2.xhtml"],
        ["v2c1.xhtml", "v2c2.xhtml"],
        ["v3c1.xhtml", "v3c2.xhtml"],
    ];
    let mut docs: Vec<Doc<'static>> = vec![
        (COVERS[v - 1], image_page(&format!("v{v}.jpg")), None),
        (TOCS[v - 1], contents_page(&CHAPTERS[v - 1]), None),
    ];
    for (n, name) in CHAPTERS[v - 1].iter().enumerate() {
        docs.push((name, format!("<h1>第{}章</h1><p>text</p>", n + 1), None));
    }
    docs
}

/// A collection whose volumes open with their own cover: three volumes of
/// four documents each, wrapped in the shared cover / Contents / colophon
/// every collection carries.
fn collection_documents() -> Vec<Doc<'static>> {
    let mut docs: Vec<Doc<'static>> = vec![
        ("cover.xhtml", image_page("cover.jpg"), Some("表紙")),
        (
            "toc.xhtml",
            contents_page(&["v1.xhtml", "v2.xhtml", "v3.xhtml"]),
            Some("目次"),
        ),
    ];
    for (v, label) in [(1, "物語"), (2, "物語2"), (3, "物語3")] {
        let mut volume = volume(v);
        volume[0].2 = Some(label);
        docs.extend(volume);
    }
    docs.push(("colophon.xhtml", "<p>奥付</p>".into(), Some("奥付")));
    docs
}

fn collection_with_covers() -> Vec<u8> {
    epub(&collection_documents())
}

#[test]
fn a_collection_cuts_at_the_volumes_its_covers_announce() {
    let cuts = propose_cuts(&collection_with_covers()).expect("propose");
    assert_eq!(
        cuts.iter()
            .map(|c| (c.spine_index, c.documents, c.label.as_str(), c.number))
            .collect::<Vec<_>>(),
        [
            (2, 4, "物語", n(1.0)),
            (6, 4, "物語2", n(2.0)),
            (10, 5, "物語3", n(3.0)),
        ],
        "the shared front matter is left out and the last cut takes the colophon"
    );
    assert_eq!(cuts[0].cover.as_deref(), Some("OEBPS/v1.xhtml"));
    // The spans tile: everything from the first cut to the end of the book.
    assert_eq!(
        cuts.iter().map(|c| c.documents).sum::<usize>(),
        15 - cuts[0].spine_index
    );
}

/// The same book, named one page later. A cover has no text to name it by,
/// so plenty of collections point each entry at the volume's Contents page
/// and leave the cover in front of it, named by nothing. The volume still
/// begins at its cover: taken at face value the first volume's cover would
/// stay with the collection and every other one would end up as the last
/// page of the volume before it.
#[test]
fn a_volume_named_by_its_contents_page_still_begins_at_its_cover() {
    let mut docs: Vec<Doc<'static>> = vec![
        ("cover.xhtml", image_page("cover.jpg"), Some("表紙")),
        (
            "toc.xhtml",
            contents_page(&["v1toc.xhtml", "v2toc.xhtml", "v3toc.xhtml"]),
            Some("目次"),
        ),
    ];
    for (v, label) in [(1, "物語"), (2, "物語2"), (3, "物語3")] {
        let mut volume = volume(v);
        // The label sits on the Contents page, not on the cover before it.
        volume[1].2 = Some(label);
        docs.extend(volume);
    }
    docs.push(("colophon.xhtml", "<p>奥付</p>".into(), Some("奥付")));

    let cuts = propose_cuts(&epub(&docs)).expect("propose");
    assert_eq!(
        cuts.iter()
            .map(|c| (
                c.spine_index,
                c.documents,
                c.label.as_str(),
                c.cover.as_deref()
            ))
            .collect::<Vec<_>>(),
        [
            (2, 4, "物語", Some("OEBPS/v1.xhtml")),
            (6, 4, "物語2", Some("OEBPS/v2.xhtml")),
            (10, 5, "物語3", Some("OEBPS/v3.xhtml")),
        ],
        "the same cuts a collection naming its covers gives"
    );
}

/// The walk back onto a cover is a fact about the collection, not about one
/// volume. A book whose volumes are named by their own cover already starts
/// them in the right place, and a picture at the end of one volume is that
/// volume's — a plate, a map, an afterword illustration — not the next
/// volume's cover.
#[test]
fn a_picture_ending_a_volume_is_not_the_next_volumes_cover() {
    let mut docs = collection_documents();
    // A plate closing volume 1, immediately before volume 2's own cover.
    let at = docs
        .iter()
        .position(|(name, _, _)| *name == "v2.xhtml")
        .expect("volume 2 starts with a cover");
    docs.insert(at, ("plate.xhtml", image_page("plate.jpg"), None));

    let cuts = propose_cuts(&epub(&docs)).expect("propose");
    assert_eq!(
        cuts.iter()
            .map(|c| (c.spine_index, c.documents, c.label.as_str()))
            .collect::<Vec<_>>(),
        [(2, 5, "物語"), (7, 4, "物語2"), (11, 5, "物語3")],
        "the plate stays with the volume it closes"
    );
}

/// A publisher's own nesting is kept exactly as declared, order included —
/// and some declare an entry out of the book's order. A volume is still a
/// contiguous run of the book, so the spine's order is the one that decides
/// where one ends; reading the chapter list's would give a volume ending
/// before it starts.
#[test]
fn a_chapter_list_out_of_order_is_read_in_the_books_order() {
    let docs = collection_documents();
    // Volume 3 declared before volume 1, each with a child so the declared
    // nesting survives into the proposal untouched.
    let rows = [
        r#"<li><a href="cover.xhtml">表紙</a></li>"#,
        r#"<li><a href="toc.xhtml">目次</a><ol><li><a href="colophon.xhtml">奥付</a></li></ol></li>"#,
        r#"<li><a href="v3.xhtml">物語3</a><ol><li><a href="v3c1.xhtml">一</a></li></ol></li>"#,
        r#"<li><a href="v1.xhtml">物語</a><ol><li><a href="v1c1.xhtml">一</a></li></ol></li>"#,
        r#"<li><a href="v2.xhtml">物語2</a><ol><li><a href="v2c1.xhtml">一</a></li></ol></li>"#,
    ]
    .join("");
    let cuts = propose_cuts(&epub_with_nav(&docs, &rows)).expect("propose");
    assert_eq!(
        cuts.iter()
            .map(|c| (c.spine_index, c.documents, c.label.as_str(), c.number))
            .collect::<Vec<_>>(),
        [
            (2, 4, "物語", n(1.0)),
            (6, 4, "物語2", n(2.0)),
            (10, 5, "物語3", n(3.0)),
        ]
    );
}

/// A book whose chapters open with a full-page title image looks, page by
/// page, exactly like a collection whose volumes open with a cover. What it
/// does not have is volumes that name their own contents.
#[test]
fn chapters_that_open_with_a_picture_are_not_volumes() {
    let mut docs: Vec<Doc<'static>> = vec![
        ("cover.xhtml", image_page("cover.jpg"), Some("表紙")),
        (
            "toc.xhtml",
            contents_page(&["t1.xhtml", "t2.xhtml", "t3.xhtml"]),
            Some("目次"),
        ),
    ];
    for n in 1..=3 {
        docs.push((
            ["t1.xhtml", "t2.xhtml", "t3.xhtml"][n - 1],
            image_page(&format!("title{n}.jpg")),
            Some(["一章", "二章", "三章"][n - 1]),
        ));
        docs.push((
            ["c1.xhtml", "c2.xhtml", "c3.xhtml"][n - 1],
            "<p>text</p>".into(),
            None,
        ));
    }
    assert!(propose_cuts(&epub(&docs)).expect("propose").is_empty());
}

/// Volumes that open with a Contents page instead of a cover — nothing in
/// the book is a full-bleed image, so the weaker signal is all there is.
/// The collection's own Contents page must not become a volume.
#[test]
fn a_collection_with_no_covers_cuts_at_the_contents_pages_instead() {
    let mut docs: Vec<Doc<'static>> = vec![(
        "toc.xhtml",
        contents_page(&["v1.xhtml", "v2.xhtml", "v3.xhtml", "colophon.xhtml"]),
        Some("总目录"),
    )];
    for (v, label) in [(1, "文集•第一卷"), (2, "文集•第二卷"), (3, "文集•第三卷")]
    {
        let chapters: Vec<&str> = [
            "v1c1.xhtml",
            "v1c2.xhtml",
            "v2c1.xhtml",
            "v2c2.xhtml",
            "v3c1.xhtml",
            "v3c2.xhtml",
        ][(v - 1) * 2..(v - 1) * 2 + 2]
            .to_vec();
        docs.push((
            ["v1.xhtml", "v2.xhtml", "v3.xhtml"][v - 1],
            contents_page(&chapters),
            Some(label),
        ));
        for c in chapters {
            docs.push((c, "<p>text</p>".into(), None));
        }
    }
    docs.push(("colophon.xhtml", "<p>奥付</p>".into(), Some("奥付")));

    let cuts = propose_cuts(&epub(&docs)).expect("propose");
    assert_eq!(
        cuts.iter()
            .map(|c| (c.label.as_str(), c.number, c.cover.is_some()))
            .collect::<Vec<_>>(),
        [
            ("文集•第一卷", n(1.0), false),
            ("文集•第二卷", n(2.0), false),
            ("文集•第三卷", n(3.0), false),
        ],
        "the page listing the volumes is the collection's, not a volume's"
    );
}

/// An ordinary book is not a collection, and the answer for one is nothing
/// at all — not its chapters, and not the one illustration plate that has
/// the shape of a cover.
#[test]
fn an_ordinary_book_proposes_no_cuts() {
    let mut docs: Vec<Doc<'static>> = vec![
        ("cover.xhtml", image_page("cover.jpg"), Some("表紙")),
        (
            "toc.xhtml",
            contents_page(&["c1.xhtml", "c2.xhtml", "c3.xhtml"]),
            Some("目次"),
        ),
        ("plate.xhtml", image_page("plate.jpg"), Some("口絵")),
    ];
    for (n, name) in ["c1.xhtml", "c2.xhtml", "c3.xhtml"].iter().enumerate() {
        docs.push((
            name,
            format!("<h1>第{}章</h1><p>text</p>", n + 1),
            Some("章"),
        ));
    }
    assert!(propose_cuts(&epub(&docs)).expect("propose").is_empty());
}

#[test]
fn a_label_is_read_for_a_number_only_where_it_states_one() {
    // Counter constructions, in both spellings and both digit sets.
    assert_eq!(volume_number("物語　第一部　序"), Some(n(1.0)));
    assert_eq!(volume_number("物語　第二十七部　終"), Some(n(27.0)));
    assert_eq!(volume_number("文集•第十九卷"), Some(n(19.0)));
    assert_eq!(volume_number("第３巻"), Some(n(3.0)));

    // Numbers a label ends on, however they are punctuated.
    assert_eq!(volume_number("物語2"), Some(n(2.0)));
    assert_eq!(volume_number("物語10.5"), Some(n(10.5)));
    assert_eq!(volume_number("物語(12)"), Some(n(12.0)));
    assert_eq!(volume_number("議事録１"), Some(n(1.0)));
    assert_eq!(volume_number("物語 3巻"), Some(n(3.0)));

    // Numerals that name rather than number.
    assert_eq!(volume_number("八つ墓の村"), None);
    assert_eq!(volume_number("三つ首の塔"), None);
    assert_eq!(volume_number("物語　外伝１　副題つきの一編"), None);
    assert_eq!(volume_number("物語　議事録 上"), None);
    assert_eq!(volume_number("【合本版】物語 全13巻 表紙"), None);
}

/// A numbering is a numbering: it only ever goes up.
#[test]
fn a_label_that_does_not_continue_the_numbering_is_not_believed() {
    let after = |previous: f64, label: &str, index: usize| {
        let cut = Cut {
            spine_index: 0,
            documents: 1,
            label: String::new(),
            cover: None,
            number: n(previous),
            numbering: Numbering::Label,
        };
        number_after(Some(&cut), label, index, None)
    };
    // A side story numbered 1, shipped as the twenty-ninth volume, is the
    // twenty-ninth volume.
    assert_eq!(after(28.0, "物語　外伝１", 28), (n(29.0), Numbering::Sequence));
    // A label that does continue the numbering is taken at its word,
    // fractions included.
    assert_eq!(after(5.0, "物語5.5", 5), (n(5.5), Numbering::Label));
    // A collection that starts at ten keeps counting from ten.
    assert_eq!(after(10.0, "無題", 1), (n(11.0), Numbering::Sequence));
    // With nothing before it, an unnumbered volume takes its position.
    assert_eq!(
        number_after(None, "無題", 0, None),
        (n(1.0), Numbering::Sequence)
    );
}

/// A number the detection already read off the label is the label stating
/// it, and is held to the same rule: believed where it climbs, dropped
/// where it does not.
#[test]
fn a_number_read_while_finding_the_volume_counts_as_the_label_stating_it() {
    let previous = Cut {
        spine_index: 0,
        documents: 1,
        label: String::new(),
        cover: None,
        number: n(4.0),
        numbering: Numbering::Label,
    };
    // The label alone says nothing; the counter the detector read does.
    assert_eq!(
        number_after(Some(&previous), "BOOK 5: THE SUBTITLE", 4, Some(n(5.0))),
        (n(5.0), Numbering::Label)
    );
    assert_eq!(volume_number("BOOK 5: THE SUBTITLE"), None);
    assert_eq!(
        number_after(Some(&previous), "BOOK 2: THE SUBTITLE", 4, Some(n(2.0))),
        (n(5.0), Numbering::Sequence)
    );
}

/// A label counts volumes only where its own words say it is counting
/// volumes. Everything numbers something; a part, a chapter and an act
/// number the insides of one book.
#[test]
fn only_a_label_that_counts_volumes_is_read_as_counting_them() {
    assert_eq!(counted_volume("BOOK 1: THE SUBTITLE"), Some(("BOOK ".to_string(), n(1.0))));
    assert_eq!(counted_volume("Vol. 10.5"), Some(("Vol. ".to_string(), n(10.5))));
    assert_eq!(counted_volume("Volume 2"), Some(("Volume ".to_string(), n(2.0))));
    assert_eq!(counted_volume("第３巻"), Some(("第".to_string(), n(3.0))));

    // The divisions of one book, however they are spelled.
    assert_eq!(counted_volume("PART 1 THE SUBTITLE"), None);
    assert_eq!(counted_volume("Chapter 4"), None);
    assert_eq!(counted_volume("第1章　概要"), None);
    assert_eq!(counted_volume("About the Author"), None);
}

/// A stem is the work's name only if the book calls itself that. Every
/// volume of a collection carries a 目次, so twelve labels reading exactly
/// `目次` share a stem perfectly — and none of them is a volume.
#[test]
fn a_stem_names_the_work_only_where_the_books_own_title_carries_it() {
    let title = "【合本版】異世界の物語　全12巻 (文庫)";
    assert_eq!(
        title_borne_prefix("異世界の物語　ウサギが呼びました", title),
        Some("異世界の物語　".to_string())
    );
    assert_eq!(title_borne_prefix("目次", title), None);
    // Too short to be a name: the title contains it, but so would anything.
    assert_eq!(title_borne_prefix("全1巻のこと", title), None);
}
