use bokai::aozora::line::convert_line;
use bokai::aozora::parser_txt::{decode_bytes, parse_txt};
use bokai::codec::{decode_text, percent_decode};
use bokai::edit::{Changes, EpubPackage};
use bokai::error::ErrorKind;
use bokai::image_extract::{epub_extract_images, image_dimensions};
use bokai::markup::{class_list, content_properties, offset_of};
use bokai::nav_doc::trim_markup_space;
use bokai::pretty::{pretty_css, pretty_xhtml};
use bokai::series::{counted_volume, names_a_work};
use bokai::structure::{basename, dir_of, split_fragment, strip_fragment};
use bokai::style_diff::{compare_chapters, material_diffs_in, Chapter, Shown, StyleDiff};
use bokai::toc_repair::{clean_label, set_toc};
use bokai::volume::media_type;
use bokai::volume_number::{trim_number, volume_number, Number};

fn chars(s: &str) -> Vec<char> {
    s.chars().collect()
}

fn billionths(n: u128) -> Option<Number> {
    Some(Number { billionths: n })
}

fn no_gaiji() -> Vec<(String, String)> {
    Vec::new()
}

fn converted(s: &str) -> String {
    convert_line(s, &mut Vec::new(), &no_gaiji())
}

// ---------------------------------------------------------------- bytes and text

#[test]
fn bytes_are_read_under_the_encoding_they_declare() {
    assert_eq!(decode_text("雪".as_bytes()), "雪");
    assert_eq!(decode_text(b"\xEF\xBB\xBFa"), "a");
    assert_eq!(
        decode_text(b"<?xml version=\"1.0\" encoding=\"Shift_JIS\"?>\x82\xA0"),
        "<?xml version=\"1.0\" encoding=\"Shift_JIS\"?>\u{3042}"
    );
    assert_eq!(
        decode_text(b"<?xml version=\"1.0\" encoding=\"no-such\"?>a"),
        "<?xml version=\"1.0\" encoding=\"no-such\"?>a"
    );
    assert_eq!(decode_text(b"a\xFFb"), "a\u{FFFD}b");
    assert_eq!(decode_bytes(b"\x82\xA0"), "\u{3042}");
    assert_eq!(percent_decode("a%20b%E3%81%82%2"), "a b\u{3042}%2");
}

#[test]
fn paths_are_taken_apart() {
    assert_eq!(dir_of("OEBPS/text/a.xhtml"), "OEBPS/text/");
    assert_eq!(dir_of("a.xhtml"), "");
    assert_eq!(basename("../Text/Chapter%201.XHTML?q#f"), "chapter 1.xhtml");
    assert_eq!(split_fragment("a#b#c"), ("a".to_string(), "#b#c".to_string()));
    assert_eq!(strip_fragment("a#b"), "a");
    assert_eq!(trim_markup_space(" \n\u{3000}a\t "), "\u{3000}a");
    assert_eq!(clean_label(&chars(" a \n b\u{3000}")), "a b\u{3000}");
}

#[test]
fn archives_that_cannot_be_read_are_told_from_refusals() {
    let e = EpubPackage::parse(b"no archive").err().expect("refused");
    assert_eq!(e.kind(), ErrorKind::Other);
    let empty = EpubPackage { entries: Vec::new() };
    let e = empty.opf_path().expect_err("refused");
    assert_eq!(e.kind(), ErrorKind::NotFound);
    assert_eq!(e.message(), "EPUB has no META-INF/container.xml");
    let bytes = empty.into_bytes().expect("written");
    let e = set_toc(&bytes, &Vec::new()).expect_err("refused");
    assert_eq!((e.kind(), e.message().as_str()), (ErrorKind::InvalidInput, "refusing to write an empty TOC"));
    assert!(epub_extract_images(b"no archive").is_err());
}

#[test]
fn changes_count_a_member_once() {
    let mut c = Changes::default();
    assert!(c.is_empty());
    c.touch("a");
    c.touch("a");
    c.add("b", "text/css");
    c.touch("b");
    assert_eq!(c.changed, ["a"]);
    assert_eq!(c.added, [("b".to_string(), "text/css".to_string())]);
    c.drop("a");
    assert!(c.changed.is_empty());
    assert_eq!(c.removed, ["a"]);
    c.note("n");
    assert_eq!(c.notes, ["n"]);
    assert!(!c.is_empty());
}

// ---------------------------------------------------------------- markup

#[test]
fn offsets_count_bytes_and_columns_count_characters() {
    assert_eq!(offset_of("あb\ncd", 1, 2), Some(3));
    assert_eq!(offset_of("あb\ncd", 2, 1), Some(5));
    assert_eq!(offset_of("a", 3, 1), None);
    assert_eq!(class_list("<p class=\"a  b\tc\">"), ["a", "b", "c"]);
    assert!(class_list("<p>").is_empty());
    assert_eq!(content_properties("<svg/><script>x</script>").len(), 2);
}

#[test]
fn beautifying_changes_white_space_alone() {
    let t = "<html><body><div><p>a <b>b</b>  c</p><pre> x\n  y </pre></div></body></html>";
    let visible = |s: &str| s.chars().filter(|c| !c.is_ascii_whitespace()).collect::<String>();
    let out = pretty_xhtml(t);
    assert_ne!(out, t);
    assert_eq!(visible(&out), visible(t));
    assert!(out.contains("<pre> x\n  y </pre>"));
    assert_eq!(pretty_xhtml(&out), out);
    assert_eq!(pretty_css("a{b:c;d:e}"), "a {\n  b: c;\n  d: e;\n}\n");
}

// ---------------------------------------------------------------- numbers and labels

#[test]
fn labels_state_numbers_in_digits_and_in_kanji() {
    assert_eq!(volume_number("第二十七部"), billionths(27_000_000_000));
    assert_eq!(volume_number("第百二十三巻"), billionths(123_000_000_000));
    assert_eq!(volume_number("作品 10.5"), billionths(10_500_000_000));
    assert_eq!(volume_number("作品（３巻）"), billionths(3_000_000_000));
    assert_eq!(volume_number("八つの墓"), None);
    assert_eq!(trim_number(Number { billionths: 3_000_000_000 }), chars("3"));
    assert_eq!(trim_number(Number { billionths: 5_500_000_000 }), chars("5.5"));
    assert_eq!(trim_number(Number { billionths: 1_000_000_020 }), chars("1.00000002"));
    assert_eq!(trim_number(Number { billionths: 0 }), chars("0"));
    assert!(names_a_work(&chars("雪国物語")) && !names_a_work(&chars("雪国")));
    assert!(names_a_work(&chars("On it")) && !names_a_work(&chars("What")));
    assert_eq!(
        counted_volume("Volume 2"),
        Some(("Volume ".to_string(), Number { billionths: 2_000_000_000 }))
    );
    assert_eq!(
        counted_volume("第三巻"),
        Some(("第".to_string(), Number { billionths: 3_000_000_000 }))
    );
    assert_eq!(counted_volume("雪国 2"), None);
}

#[test]
fn media_types_follow_names() {
    for (name, expected) in [
        ("a/s.css", "text/css"),
        ("a/p.xhtml", "application/xhtml+xml"),
        ("a/p.htm", "application/xhtml+xml"),
        ("a/i.svg", "image/svg+xml"),
        ("a/f.woff2", "font/woff2"),
        ("a/toc.ncx", "application/x-dtbncx+xml"),
        ("a/x.js", "text/javascript"),
        ("a/none", "application/octet-stream"),
        ("a.b/none", "application/octet-stream"),
        ("a/i.png", "image/png"),
        ("a/i.jpg", "image/jpeg"),
    ] {
        assert_eq!(media_type(name), expected, "{name}");
    }
    assert_eq!(image_dimensions(b"GIF89a\x03\x00\x04\x00"), Some((3, 4)));
    assert_eq!(image_dimensions(b"plain"), None);
}

// ---------------------------------------------------------------- Aozora notation

#[test]
fn a_plain_line_is_escaped_and_nothing_else() {
    assert_eq!(converted("a < b & \"c\" 'd'"), "a &lt; b &amp; &quot;c&quot; &apos;d&apos;");
    assert!(!converted("<b>雪</b>《ゆき》").contains("<b>"));
}

#[test]
fn font_steps_are_tenths() {
    assert!(converted("［＃２段階大きな文字］大［＃大きな文字終わり］").contains("font-size:1.4em"));
    assert!(converted("［＃３段階小さな文字］小［＃小さな文字終わり］").contains("font-size:0.7em"));
    assert!(converted("［＃９段階小さな文字］小［＃小さな文字終わり］").contains("font-size:0.6em"));
}

#[test]
fn headings_are_numbered_and_listed_in_order() {
    let d = parse_txt("題\n著者\n\n一［＃「一」は大見出し］\n本文\n二［＃「二」は中見出し］\n本文\n", &no_gaiji());
    assert_eq!(d.title, "題");
    assert_eq!(d.author, "著者");
    let titles: Vec<&str> = d.toc.iter().map(|t| t.text.as_str()).collect();
    assert_eq!(titles, ["一", "二"]);
    assert_ne!(d.toc[0].id, d.toc[1].id);
    for t in &d.toc {
        assert!(d.body_xhtml.contains(&format!("id=\"{}\"", t.id)));
    }
}

// ---------------------------------------------------------------- style differences

fn shown(text: &str, props: &[(&str, &str)]) -> Shown {
    Shown {
        text: text.to_string(),
        props: props.iter().map(|(a, b)| (a.to_string(), b.to_string())).collect(),
    }
}

fn chapter(blocks: Vec<Shown>, runs: Vec<Shown>) -> Chapter {
    Chapter { blocks, runs }
}

fn compared(before: &Chapter, after: &Chapter) -> Vec<StyleDiff> {
    let mut found = Vec::new();
    compare_chapters("c.xhtml", before, after, &mut found);
    found
}

#[test]
fn only_what_a_reader_sees_is_material() {
    let plain = || chapter(
        vec![shown("ab", &[("writing-mode", "horizontal"), ("color", "black")])],
        vec![shown("ab", &[("font-weight", "normal")])],
    );
    assert!(compared(&plain(), &plain()).is_empty());

    let turned = chapter(
        vec![shown("ab", &[("writing-mode", "vertical"), ("color", "black")])],
        vec![shown("ab", &[("font-weight", "normal")])],
    );
    let d = compared(&plain(), &turned);
    assert_eq!(d.len(), 1);
    assert_eq!(
        (d[0].property.as_str(), d[0].before.as_str(), d[0].after.as_str(), d[0].count),
        ("writing-mode", "horizontal", "vertical", 1)
    );
    assert_eq!(material_diffs_in(&d), 0);

    let bold = chapter(
        vec![shown("ab", &[("writing-mode", "horizontal"), ("color", "black")])],
        vec![shown("a", &[("font-weight", "normal")]), shown("b", &[("font-weight", "bold")])],
    );
    let d = compared(&plain(), &bold);
    assert_eq!(d.len(), 1);
    assert_eq!(d[0].property, "font-weight");
    assert_eq!(material_diffs_in(&d), 1);

    let longer = chapter(
        vec![shown("ab", &[]), shown("c", &[])],
        vec![shown("abc", &[("font-weight", "normal")])],
    );
    let properties: Vec<String> =
        compared(&plain(), &longer).iter().map(|x| x.property.clone()).collect();
    assert!(properties.contains(&"blocks".to_string()), "{properties:?}");
    assert!(properties.contains(&"text".to_string()), "{properties:?}");
}
