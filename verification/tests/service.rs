use torah::banner::BannerState;
use torah::bolls::{
    book_names_from_response, book_names_url, chapter_from_response, chapter_url, check_response,
    check_status, find_book, random_verse_from_response, random_verse_url, search_from_response, search_url,
    translation_code, verse_from_response, verse_url, verses_in_range,
};
use torah::books::normalize_book;
use torah::resolver::{is_torah_translation, Resolver};
use torah::types::{card_reference, Verse};

fn verse(n: u32) -> Verse {
    Verse {
        book: "Genesis".to_string(),
        chapter: 1,
        verse: n,
        text: format!("text {}", n),
        translation: "TORAH".to_string(),
    }
}

#[test]
fn urls_use_upper_case_translation() {
    let gen = normalize_book("Genesis").unwrap();
    assert_eq!(verse_url(&gen, 1, 2, "kjv"), "https://bolls.life/get-verse/KJV/1/1/2/");
    let deut = normalize_book("deut").unwrap();
    assert_eq!(chapter_url(&deut, 34, "ylt"), "https://bolls.life/get-chapter/YLT/5/34/");
    assert_eq!(search_url("web"), "https://bolls.life/search/WEB/");
    assert_eq!(random_verse_url("Kjv"), "https://bolls.life/get-random-verse/KJV/");
    assert_eq!(book_names_url("kjv"), "https://bolls.life/get-books/KJV/");
    assert_eq!(translation_code("stra\u{df}e"), "STRASSE");
}

#[test]
fn find_book_message() {
    assert_eq!(find_book("Lev").unwrap().id, 3);
    assert_eq!(find_book("Psalms").err().unwrap(), "Unknown book: Psalms");
}

#[test]
fn check_response_status() {
    assert_eq!(check_response(true, 200, "body".to_string()).unwrap(), "body");
    assert_eq!(check_response(false, 404, "x".to_string()).err().unwrap(), "API returned 404");
}

#[test]
fn verse_answer_is_cleaned() {
    let gen = normalize_book("Genesis").unwrap();
    let body = r#"{"pk": 1, "verse": 1, "text": "In <S>7225</S>the beginning"}"#;
    let v = verse_from_response(&gen, 1, 1, body, "torah").unwrap();
    assert_eq!(v.book, "Genesis");
    assert_eq!(v.chapter, 1);
    assert_eq!(v.verse, 1);
    assert_eq!(v.text, "In the beginning");
    assert_eq!(v.translation, "TORAH");
    let v = verse_from_response(&gen, 1, 1, r#"{"text": 5}"#, "kjv").unwrap();
    assert_eq!(v.text, "");
    let v = verse_from_response(&gen, 1, 1, "[1, 2]", "kjv").unwrap();
    assert_eq!(v.text, "");
}

#[test]
fn verse_answer_that_is_not_json() {
    let gen = normalize_book("Genesis").unwrap();
    let e = verse_from_response(&gen, 1, 1, "not json", "kjv").err().unwrap();
    assert!(e.starts_with("Invalid response: "));
    assert!(e.len() > "Invalid response: ".len());
}

#[test]
fn chapter_answer_keeps_complete_entries() {
    let num = normalize_book("Numbers").unwrap();
    let body = r#"[{"verse": 1, "text": "a"}, {"verse": 2}, {"text": "x"},
                   {"verse": 3, "text": "<b>c</b>"}, {"verse": 4294967297, "text": "d"}]"#;
    let ch = chapter_from_response(&num, 6, body, "kjv").unwrap();
    assert_eq!(ch.book, "Numbers");
    assert_eq!(ch.chapter, 6);
    assert_eq!(ch.translation, "KJV");
    let got: Vec<(u32, String)> = ch.verses.iter().map(|v| (v.verse, v.text.clone())).collect();
    assert_eq!(got, vec![(1, "a".to_string()), (3, "c".to_string()), (1, "d".to_string())]);
    assert!(chapter_from_response(&num, 6, r#"{"verse": 1}"#, "kjv").is_err());
}

#[test]
fn range_filters_chapter() {
    let num = normalize_book("Numbers").unwrap();
    let body = r#"[{"verse": 1, "text": "a"}, {"verse": 2, "text": "b"},
                   {"verse": 3, "text": "c"}, {"verse": 4, "text": "d"}]"#;
    let ch = chapter_from_response(&num, 6, body, "kjv").unwrap();
    let vs = verses_in_range(ch, 2, 3);
    let got: Vec<u32> = vs.iter().map(|v| v.verse).collect();
    assert_eq!(got, vec![2, 3]);
}

#[test]
fn search_answer_names_books_and_caps() {
    let body = r#"[{"book": 2, "chapter": 3, "verse": 14, "text": "I AM"},
                   {"book": 9, "chapter": 1, "verse": 1, "text": "x"},
                   {"book": 1, "chapter": 1, "text": "no verse"}]"#;
    let hits = search_from_response(body, "kjv").unwrap();
    assert_eq!(hits.len(), 2);
    assert_eq!(hits[0].book, "Exodus");
    assert_eq!(hits[0].chapter, 3);
    assert_eq!(hits[0].verse, 14);
    assert_eq!(hits[0].text, "I AM");
    assert_eq!(hits[0].translation, "KJV");
    assert_eq!(hits[1].book, "Book 9");

    let many: Vec<String> = (1..=60)
        .map(|i| format!(r#"{{"book": 1, "chapter": 1, "verse": {}, "text": "t"}}"#, i))
        .collect();
    let body = format!("[{}]", many.join(","));
    let hits = search_from_response(&body, "kjv").unwrap();
    assert_eq!(hits.len(), 50);
    assert_eq!(hits[49].verse, 50);
}

#[test]
fn random_verse_answer_defaults() {
    let v = random_verse_from_response("{}", "kjv").unwrap();
    assert_eq!(v.book, "Unknown");
    assert_eq!(v.chapter, 0);
    assert_eq!(v.verse, 0);
    assert_eq!(v.text, "");
    let v = random_verse_from_response(r#"{"verse": 7, "text": " hi "}"#, "kjv").unwrap();
    assert_eq!(v.verse, 7);
    assert_eq!(v.text, "hi");
}

#[test]
fn book_names_answer_fills_slots() {
    let body = r#"[{"bookid": 1, "name": "Bereshit"}, {"bookid": 7, "name": "X"},
                   {"bookid": 2, "name": "Shemot"}, {"bookid": 1, "name": "Genesis"},
                   {"bookid": 3}]"#;
    let names = book_names_from_response(body).unwrap();
    assert_eq!(names, vec!["Genesis", "Shemot", "", "", ""]);
}

#[test]
fn resolver_checks_translation() {
    let r = Resolver::new();
    assert!(is_torah_translation("torah"));
    assert!(is_torah_translation("ToRaH"));
    assert!(!is_torah_translation("kjv"));
    assert!(!is_torah_translation("TORAH "));
    assert_eq!(
        r.get_verse("kjv", Some(verse(1))).err().unwrap(),
        "Unsupported translation 'kjv'. This build supports TORAH only."
    );
    assert_eq!(r.get_verse("torah", Some(verse(1))).unwrap().verse, 1);
    assert_eq!(r.get_verse("TORAH", None).err().unwrap(), "Verse not found");
    assert_eq!(r.get_chapter("TORAH", None).err().unwrap(), "Chapter not found");
    assert_eq!(r.get_verse_range("TORAH", vec![]).err().unwrap(), "Verse range not found");
    assert_eq!(r.get_verse_range("TORAH", vec![verse(2)]).unwrap().len(), 1);
    assert!(r.search("web", vec![]).is_err());
    assert!(r.search("TORAH", vec![]).unwrap().is_empty());
    assert!(r.get_book_names("anything").unwrap().is_empty());
    assert_eq!(r.get_random_verse("torah", verse(9)).unwrap().verse, 9);
}

#[test]
fn card_heading() {
    assert_eq!(card_reference(&vec![verse(3)]), "Genesis 1:3");
    assert_eq!(card_reference(&vec![verse(3), verse(4), verse(5)]), "Genesis 1:3-5");
}

#[test]
fn banner_phases() {
    let mut b = BannerState::new();
    assert_eq!((b.phase, b.tick, b.done), (0, 0, false));
    for _ in 0..51 {
        b.tick();
    }
    assert_eq!(b.phase, 1);
    for _ in 0..45 {
        b.tick();
    }
    assert_eq!(b.tick, 96);
    assert_eq!(b.phase, 2);
    assert_eq!(b.tagline_text(), "");
    for _ in 0..22 {
        b.tick();
    }
    assert_eq!(b.tagline_text(), "Torah at you");
    for _ in 0..57 {
        b.tick();
    }
    assert_eq!(b.phase, 3);
    assert!(!b.done);
    b.tick();
    assert!(b.done);
    assert_eq!(b.phase, 3);
    assert_eq!(b.tagline_text(), "Torah at your fingertips");
}

#[test]
fn check_status_decides_success_range() {
    assert_eq!(check_status(200, "a".to_string()).unwrap(), "a");
    assert_eq!(check_status(299, "b".to_string()).unwrap(), "b");
    assert_eq!(check_status(199, "c".to_string()).err().unwrap(), "API returned 199");
    assert_eq!(check_status(300, "d".to_string()).err().unwrap(), "API returned 300");
    assert_eq!(check_status(503, "e".to_string()).err().unwrap(), "API returned 503");
}
