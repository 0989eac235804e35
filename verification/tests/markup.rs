use bokai::markup::{
    attributes, body_span, content_properties, offset_of, set_attr, tokens, Tok,
};

#[test]
fn markup_set_attr_replaces_removes_and_adds() {
    assert_eq!(
        set_attr(r#"<p class="a b">"#, "class", Some("c")),
        r#"<p class="c">"#
    );
    assert_eq!(
        set_attr(r#"<p id="x" class="a">"#, "class", None),
        r#"<p id="x">"#
    );
    assert_eq!(set_attr(r#"<p>"#, "class", Some("c")), r#"<p class="c">"#);
    assert_eq!(
        set_attr(r#"<img src="a"/>"#, "class", Some("c")),
        r#"<img src="a" class="c"/>"#
    );
    assert_eq!(
        set_attr(r#"<link href="a" rel="stylesheet"/>"#, "href", Some("b")),
        r#"<link href="b" rel="stylesheet"/>"#
    );
}

#[test]
fn edit_set_attr_replaces_removes_and_adds() {
    assert_eq!(
        set_attr(r#"<p class="a b">"#, "class", Some("c")),
        r#"<p class="c">"#
    );
    assert_eq!(
        set_attr(r#"<p id="x" class="a">"#, "class", None),
        r#"<p id="x">"#
    );
    assert_eq!(set_attr(r#"<p>"#, "class", Some("c")), r#"<p class="c">"#);
    assert_eq!(
        set_attr(r#"<img src="a"/>"#, "class", Some("c")),
        r#"<img src="a" class="c"/>"#
    );
    assert_eq!(
        set_attr(r#"<link href="a" rel="stylesheet"/>"#, "href", Some("b")),
        r#"<link href="b" rel="stylesheet"/>"#
    );
}

#[test]
fn markup_tokens_skip_comments_and_track_closing_tags() {
    let t = tokens("<a><!-- <b> --><br/>x</a>");
    let names: Vec<String> = t
        .iter()
        .filter_map(|tok| match tok {
            Tok::Tag {
                name,
                closing,
                self_closing,
                ..
            } => Some(format!(
                "{name}{}{}",
                if *closing { "/" } else { "" },
                if *self_closing { "!" } else { "" }
            )),
            Tok::Text { .. } => None,
        })
        .collect();
    assert_eq!(names, vec!["a", "br!", "a/"]);
}

#[test]
fn edit_tokens_skip_comments_and_track_closing_tags() {
    let t = tokens("<a><!-- <b> --><br/>x</a>");
    let names: Vec<String> = t
        .iter()
        .filter_map(|tok| match tok {
            Tok::Tag {
                name,
                closing,
                self_closing,
                ..
            } => Some(format!(
                "{name}{}{}",
                if *closing { "/" } else { "" },
                if *self_closing { "!" } else { "" }
            )),
            Tok::Text { .. } => None,
        })
        .collect();
    assert_eq!(names, vec!["a", "br!", "a/"]);
}

#[test]
fn markup_attributes_read_quoted_bare_and_entity_values() {
    let a = attributes(r#"<a href="x&amp;y" title='t' data-x=bare hidden/>"#);
    let pairs: Vec<(String, String)> = a.into_iter().map(|a| (a.name, a.value)).collect();
    assert_eq!(
        pairs,
        vec![
            ("href".to_string(), "x&y".to_string()),
            ("title".to_string(), "t".to_string()),
            ("data-x".to_string(), "bare".to_string()),
            ("hidden".to_string(), String::new()),
        ]
    );
}

#[test]
fn edit_attributes_read_quoted_bare_and_entity_values() {
    let a = attributes(r#"<a href="x&amp;y" title='t' data-x=bare hidden/>"#);
    let pairs: Vec<(String, String)> = a.into_iter().map(|a| (a.name, a.value)).collect();
    assert_eq!(
        pairs,
        vec![
            ("href".to_string(), "x&y".to_string()),
            ("title".to_string(), "t".to_string()),
            ("data-x".to_string(), "bare".to_string()),
            ("hidden".to_string(), String::new()),
        ]
    );
}

#[test]
fn markup_offsets_follow_lines_and_character_columns() {
    let text = "ab\nc漢d\ne";
    assert_eq!(offset_of(text, 1, 1), Some(0));
    assert_eq!(offset_of(text, 2, 1), Some(3));
    assert_eq!(offset_of(text, 2, 3), Some(7));
    assert_eq!(offset_of(text, 2, 9), Some(8));
    assert_eq!(offset_of(text, 3, 1), Some(9));
    assert_eq!(offset_of(text, 4, 1), None);
}

#[test]
fn edit_offsets_follow_lines_and_character_columns() {
    let text = "ab\nc漢d\ne";
    assert_eq!(offset_of(text, 1, 1), Some(0));
    assert_eq!(offset_of(text, 2, 1), Some(3));
    assert_eq!(offset_of(text, 2, 3), Some(7));
    assert_eq!(offset_of(text, 2, 9), Some(8));
    assert_eq!(offset_of(text, 3, 1), Some(9));
    assert_eq!(offset_of(text, 4, 1), None);
}

#[test]
fn markup_body_span_and_content_properties() {
    let text = r#"<html><body class="x"><p>t</p><svg/><script src="http://a/b.js"></script></body></html>"#;
    let (os, oe, cs, ce) = body_span(text).unwrap();
    assert_eq!(&text[os..oe], r#"<body class="x">"#);
    assert_eq!(&text[cs..ce], "</body>");
    assert_eq!(
        content_properties(text),
        vec!["svg", "scripted", "remote-resources"]
    );
    assert!(content_properties("<p><a href=\"http://x\">l</a></p>").is_empty());
}

#[test]
fn edit_body_span_and_content_properties() {
    let text = r#"<html><body class="x"><p>t</p><svg/><script src="http://a/b.js"></script></body></html>"#;
    let (os, oe, cs, ce) = body_span(text).unwrap();
    assert_eq!(&text[os..oe], r#"<body class="x">"#);
    assert_eq!(&text[cs..ce], "</body>");
    assert_eq!(
        content_properties(text),
        vec!["svg", "scripted", "remote-resources"]
    );
    assert!(content_properties("<p><a href=\"http://x\">l</a></p>").is_empty());
}
