use bokai::structure::{internal_links, relativize, resolve_href};

#[test]
fn relativize_and_resolve_are_inverse() {
    assert_eq!(relativize("OEBPS/", "OEBPS/c1.xhtml#h1"), "c1.xhtml#h1");
    assert_eq!(relativize("", "OEBPS/c1.xhtml"), "OEBPS/c1.xhtml");
    assert_eq!(relativize("OEBPS/xhtml/", "OEBPS/c1.xhtml"), "../c1.xhtml");
    assert_eq!(resolve_href("OEBPS/", "c1.xhtml#h1"), "OEBPS/c1.xhtml#h1");
    assert_eq!(resolve_href("OEBPS/text/", "../c1.xhtml"), "OEBPS/c1.xhtml");
}

#[test]
fn a_link_is_matched_to_the_spine_by_filename_however_it_was_written() {
    // Three ways of writing the same target from three directories, plus one
    // link out of the spine and one back to the linking document itself.
    let xhtml = r#"<a href="../Text/c1.xhtml#h1">One</a>
                       <a href="c1.xhtml">Again</a>
                       <a href="notes.xhtml">Not in the spine</a>
                       <a href="toc.xhtml">Itself</a>"#;
    let spine = vec!["c1.xhtml".to_string(), "toc.xhtml".to_string()];
    let links = internal_links(xhtml, "OEBPS/Text/", &spine, "toc.xhtml");
    assert_eq!(
        links,
        [
            ("One".to_string(), "OEBPS/Text/c1.xhtml#h1".to_string()),
            ("Again".to_string(), "OEBPS/Text/c1.xhtml".to_string()),
        ]
    );
}
