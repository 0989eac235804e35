use bokai::edit::EpubPackage;

#[test]
fn parse_rejects_non_zip() {
    assert!(EpubPackage::parse(b"not a zip at all").is_err());
}
