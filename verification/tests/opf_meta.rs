use bokai::opf_meta::primary_writing_mode;

#[test]
fn primary_writing_mode_rules() {
    assert_eq!(primary_writing_mode(None, None), None);
    assert_eq!(
        primary_writing_mode(Some("horizontal-tb"), Some("ltr")),
        None
    );
    assert_eq!(
        primary_writing_mode(Some("horizontal-tb"), Some("rtl")),
        Some("horizontal-rl".to_string())
    );
    assert_eq!(
        primary_writing_mode(Some("vertical-rl"), Some("ltr")),
        Some("vertical-rl".to_string())
    );
    assert_eq!(
        primary_writing_mode(Some("vertical-lr"), None),
        Some("vertical-lr".to_string())
    );
}
