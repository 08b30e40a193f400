use torah::reference::parse;

#[test]
fn test_single_verse() {
    let r = parse("Exodus 3:14").unwrap();
    assert_eq!(r.book.name, "Exodus");
    assert_eq!(r.chapter, 3);
    assert_eq!(r.verse_start, Some(14));
    assert_eq!(r.verse_end, Some(14));
}

#[test]
fn test_verse_range() {
    let r = parse("Deut 6:4-9").unwrap();
    assert_eq!(r.book.name, "Deuteronomy");
    assert_eq!(r.chapter, 6);
    assert_eq!(r.verse_start, Some(4));
    assert_eq!(r.verse_end, Some(9));
}

#[test]
fn test_whole_chapter() {
    let r = parse("Genesis 1").unwrap();
    assert_eq!(r.book.name, "Genesis");
    assert_eq!(r.chapter, 1);
    assert_eq!(r.verse_start, None);
}

#[test]
fn test_hebrew_name_alias() {
    let r = parse("Bamidbar 6").unwrap();
    assert_eq!(r.book.name, "Numbers");
    assert_eq!(r.chapter, 6);
}

#[test]
fn reference_test_abbreviation() {
    let r = parse("Lev 19:18").unwrap();
    assert_eq!(r.book.name, "Leviticus");
    assert_eq!(r.chapter, 19);
    assert_eq!(r.verse_start, Some(18));
}

#[test]
fn test_compact_input() {
    let r = parse("gen1:1").unwrap();
    assert_eq!(r.book.name, "Genesis");
    assert_eq!(r.chapter, 1);
    assert_eq!(r.verse_start, Some(1));
}

#[test]
fn test_display() {
    let r = parse("Exodus 3:14").unwrap();
    assert_eq!(r.display(), "Exodus 3:14");

    let r = parse("Genesis 1").unwrap();
    assert_eq!(r.display(), "Genesis 1");

    let r = parse("Deut 6:4-9").unwrap();
    assert_eq!(r.display(), "Deuteronomy 6:4-9");
}

#[test]
fn test_invalid_chapter() {
    assert!(parse("Genesis 51").is_err());
}

#[test]
fn test_invalid_book() {
    assert!(parse("Notabook 1:1").is_err());
}
