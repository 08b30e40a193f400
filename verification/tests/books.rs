use torah::books::normalize_book;

#[test]
fn test_full_name() {
    assert_eq!(normalize_book("Genesis").unwrap().name, "Genesis");
    assert_eq!(normalize_book("deuteronomy").unwrap().name, "Deuteronomy");
}

#[test]
fn books_test_abbreviation() {
    assert_eq!(normalize_book("gen").unwrap().name, "Genesis");
    assert_eq!(normalize_book("shemot").unwrap().name, "Exodus");
    assert_eq!(normalize_book("vay").unwrap().name, "Leviticus");
    assert_eq!(normalize_book("deut").unwrap().name, "Deuteronomy");
}

#[test]
fn test_prefix_match() {
    assert_eq!(normalize_book("gene").unwrap().name, "Genesis");
    assert_eq!(normalize_book("deut").unwrap().name, "Deuteronomy");
}

#[test]
fn test_case_insensitive() {
    assert_eq!(normalize_book("BAMIDBAR").unwrap().name, "Numbers");
    assert_eq!(normalize_book("GEN").unwrap().name, "Genesis");
}

#[test]
fn test_invalid() {
    assert!(normalize_book("notabook").is_none());
    assert!(normalize_book("xyz").is_none());
}
