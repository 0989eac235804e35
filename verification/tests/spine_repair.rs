use bokai::spine_repair::{is_permutation, permute_itemrefs, reorder_to};

#[test]
fn unnamed_documents_travel_with_the_document_they_follow() {
    // 0 unnamed (cover), 1..=3 named, 4 unnamed (a plate after 3).
    // Nav order says 3 comes before 1.
    let order = reorder_to(&vec![3, 1, 2], 5);
    assert_eq!(
        order,
        vec![0, 3, 4, 1, 2],
        "the cover stays at the front and the plate follows document 3"
    );
}

#[test]
fn an_agreeing_book_proposes_itself() {
    assert_eq!(reorder_to(&vec![0, 1, 2], 3), vec![0, 1, 2]);
}

#[test]
fn permute_keeps_tag_text_and_surroundings() {
    let opf = "<spine toc=\"ncx\">\n  <itemref idref=\"a\" linear=\"no\"/>\n  \
                   <!-- keep me -->\n  <itemref idref=\"b\"/>\n</spine>";
    let out = permute_itemrefs(opf, &vec!["b".into(), "a".into()]).expect("permute");
    assert_eq!(
        out,
        "<spine toc=\"ncx\">\n  <itemref idref=\"b\"/>\n  \
             <!-- keep me -->\n  <itemref idref=\"a\" linear=\"no\"/>\n</spine>",
        "each slot keeps its surroundings and receives the other's tag verbatim"
    );
}

#[test]
fn permutation_check_rejects_a_changed_document_set() {
    let spine = vec!["a".to_string(), "b".to_string()];
    assert!(is_permutation(&spine, &vec!["b".into(), "a".into()]));
    assert!(!is_permutation(&spine, &vec!["a".into(), "a".into()]));
    assert!(!is_permutation(&spine, &vec!["a".into()]));
    assert!(!is_permutation(
        &spine,
        &vec!["a".into(), "b".into(), "c".into()]
    ));
}
