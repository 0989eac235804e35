use bokai::metadata_edit::{edit_metadata, set_creators, set_single, MetadataPatch};

#[test]
fn metadata_edit_non_epub_bytes_error() {
    let patch = MetadataPatch {
        title: Some("x".into()),
        ..Default::default()
    };
    assert!(edit_metadata(b"not an epub", &patch).is_err());
}

#[test]
fn set_single_injects_when_absent() {
    let opf = "<metadata xmlns:dc=\"http://purl.org/dc/elements/1.1/\">\n<dc:title>T</dc:title>\n</metadata>";
    let out = set_single(opf, "publisher", "Acme");
    assert!(out.contains("<dc:publisher>Acme</dc:publisher>"));
    assert!(out.contains("<dc:title>T</dc:title>"), "existing kept");
}

#[test]
fn set_creators_replaces_the_whole_run() {
    let opf = "<metadata>\n<dc:creator id=\"a\">Old One</dc:creator>\n<dc:creator>Old Two</dc:creator>\n<dc:title>T</dc:title>\n</metadata>";
    let out = set_creators(opf, &vec!["New".to_string()]);
    assert!(out.contains("<dc:creator id=\"creator1\">New</dc:creator>"));
    assert!(
        !out.contains("Old One") && !out.contains("Old Two"),
        "old creators gone"
    );
    assert!(out.contains("<dc:title>T</dc:title>"), "title preserved");
    assert_eq!(out.matches("<dc:creator").count(), 1, "exactly one creator");
}

#[test]
fn set_creators_prunes_orphaned_refines() {
    let opf = "<metadata>\n    \
            <dc:creator id=\"creator1\">Old</dc:creator>\n    \
            <meta refines=\"#creator1\" property=\"role\" scheme=\"marc:relators\">aut</meta>\n    \
            <meta refines=\"#creator1\" property=\"file-as\">Old, The</meta>\n    \
            <dc:language>en</dc:language>\n</metadata>";
    let out = set_creators(opf, &vec!["New".to_string()]);
    assert!(
        out.contains("<dc:creator id=\"creator1\">New</dc:creator>"),
        "new creator carries the id"
    );
    assert!(
        !out.contains("refines=\"#creator1\""),
        "orphaned refines pruned: {out}"
    );
    assert!(!out.contains("Old, The"), "stale file-as gone");
    assert!(
        out.contains("<dc:language>en</dc:language>"),
        "unrelated element untouched"
    );
    // No blank line left where the two meta lines were removed.
    assert!(!out.contains("\n\n"), "no doubled newline: {out:?}");
}
