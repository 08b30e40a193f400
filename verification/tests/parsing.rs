use torah::books::{check_table_case, match_book, normalize_book};
use torah::reference::{parse, parse_chapter_verse, parse_checked, split_book_and_location, TorahReference};

fn err(input: &str) -> String {
    parse(input).err().unwrap()
}

#[test]
fn parse_empty_reference() {
    assert_eq!(err("   "), "Empty reference");
}

#[test]
fn parse_unknown_book_message() {
    assert_eq!(err("Notabook 1:1"), "Unknown book: 'Notabook'");
}

#[test]
fn parse_leading_digit_without_book() {
    assert_eq!(err("1"), "Unknown book: ''");
}

#[test]
fn parse_no_book_name() {
    assert_eq!(err(":5"), "No book name found");
    assert_eq!(err("0 Genesis"), "No book name found");
}

#[test]
fn parse_chapter_out_of_range_message() {
    assert_eq!(err("Genesis 0"), "Genesis has 50 chapters, but chapter 0 was requested");
    assert_eq!(err("Exodus 41"), "Exodus has 40 chapters, but chapter 41 was requested");
}

#[test]
fn parse_invalid_numbers() {
    assert_eq!(err("Genesis x"), "Unknown book: 'Genesis x'");
    assert_eq!(err("Genesis 1x"), "Invalid chapter number: '1x'");
    assert_eq!(err("Genesis 1:a"), "Invalid verse number: 'a'");
    assert_eq!(err("Genesis 1:2-b"), "Invalid verse number: 'b'");
    assert_eq!(err("Genesis 1: -3"), "Invalid verse number: ' '");
    assert_eq!(err("Genesis 99999999999"), "Invalid chapter number: '99999999999'");
}

#[test]
fn parse_plus_sign_chapter() {
    let r = parse("Genesis +3").unwrap();
    assert_eq!(r.chapter, 3);
}

#[test]
fn parse_book_only_is_first_chapter() {
    let r = parse("Leviticus").unwrap();
    assert_eq!(r.book.name, "Leviticus");
    assert_eq!(r.chapter, 1);
    assert_eq!(r.verse_start, None);
    assert_eq!(r.verse_end, None);
}

#[test]
fn parse_dotted_abbreviation_and_spaces() {
    let r = parse("  Gen. 2 : 3 - 4 ").unwrap();
    assert_eq!(r.book.name, "Genesis");
    assert_eq!(r.chapter, 2);
    assert_eq!(r.verse_start, Some(3));
    assert_eq!(r.verse_end, Some(4));
}

#[test]
fn parse_checked_refuses_cut_inside_character() {
    assert!(parse_checked("\u{e9} 1").is_none());
    let r = parse_checked("Numbers 3:2").unwrap().unwrap();
    assert_eq!(r.book.name, "Numbers");
    assert_eq!(r.chapter, 3);
}

#[test]
fn split_examples() {
    let (b, l) = split_book_and_location("Genesis 1:1").unwrap();
    assert_eq!(b, "Genesis");
    assert_eq!(l, "1:1");
    let (b, l) = split_book_and_location("gen1:1").unwrap();
    assert_eq!(b, "gen");
    assert_eq!(l, "1:1");
}

#[test]
fn chapter_verse_examples() {
    assert_eq!(parse_chapter_verse("3:16-18").unwrap(), (3, Some(16), Some(18)));
    assert_eq!(parse_chapter_verse(" 3 ").unwrap(), (3, None, None));
    assert_eq!(parse_chapter_verse("3:16").unwrap(), (3, Some(16), Some(16)));
}

#[test]
fn display_forms() {
    let book = normalize_book("gen").unwrap();
    let r = TorahReference { book, chapter: 1, verse_start: Some(2), verse_end: None };
    assert_eq!(r.display(), "Genesis 1:2");
    let r = TorahReference { book, chapter: 12, verse_start: Some(7), verse_end: Some(7) };
    assert_eq!(r.display(), "Genesis 12:7");
    let r = TorahReference { book, chapter: 12, verse_start: None, verse_end: Some(7) };
    assert_eq!(r.display(), "Genesis 12");
}

#[test]
fn display_then_parse_reads_back() {
    for input in ["Deuteronomy 34:1-12", "Numbers 6", "Exodus 20:3"] {
        let r = parse(input).unwrap();
        let again = parse(&r.display()).unwrap();
        assert_eq!(again.book.id, r.book.id);
        assert_eq!(again.chapter, r.chapter);
        assert_eq!(again.verse_start, r.verse_start);
        assert_eq!(again.verse_end, r.verse_end);
        assert_eq!(r.display(), input);
    }
}

#[test]
fn normalize_trims_and_drops_dots() {
    assert_eq!(normalize_book("  Gen.  ").unwrap().name, "Genesis");
    assert_eq!(normalize_book("ex.od").unwrap().name, "Exodus");
}

#[test]
fn normalize_every_abbreviation() {
    for (abbrev, name) in [
        ("ge", "Genesis"),
        ("bere", "Genesis"),
        ("ex", "Exodus"),
        ("le", "Leviticus"),
        ("lv", "Leviticus"),
        ("nu", "Numbers"),
        ("nb", "Numbers"),
        ("bam", "Numbers"),
        ("de", "Deuteronomy"),
        ("dev", "Deuteronomy"),
    ] {
        assert_eq!(normalize_book(abbrev).unwrap().name, name);
    }
}

#[test]
fn normalize_short_prefix_is_not_enough() {
    // "ge" is an abbreviation, but a two-letter prefix alone does not match
    assert!(normalize_book("nm ").unwrap().name == "Numbers");
    assert!(normalize_book("le").is_some());
    assert!(normalize_book("gx").is_none());
    assert_eq!(normalize_book("leviti").unwrap().name, "Leviticus");
}

#[test]
fn normalize_non_ascii_case_does_not_match() {
    assert!(normalize_book("\u{c9}xodus").is_none());
}

#[test]
fn match_book_takes_normalized_keys() {
    assert_eq!(match_book("numbers").unwrap().id, 4);
    assert!(match_book("Numbers").is_none());
    assert_eq!(match_book("deu").unwrap().chapters, 34);
}

#[test]
fn chapter_verse_spaced_forms_read_back() {
    assert_eq!(parse_chapter_verse(" 3 : 16 - 18 ").unwrap(), (3, Some(16), Some(18)));
    assert_eq!(parse_chapter_verse("\t12 :\n7 ").unwrap(), (12, Some(7), Some(7)));
    assert_eq!(parse_chapter_verse(&format!(" {} ", u32::MAX)).unwrap(), (u32::MAX, None, None));
}

#[test]
fn table_case_check_runs() {
    check_table_case();
    for name in ["Genesis", "Exodus", "Leviticus", "Numbers", "Deuteronomy"] {
        assert_eq!(normalize_book(name).unwrap().name, name);
        assert_eq!(normalize_book(&name.to_uppercase()).unwrap().name, name);
    }
}
