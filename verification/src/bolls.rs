//! Requests to the bolls.life verse service and the reading of its answers.
//! Fetching happens elsewhere; this module says which URL to fetch and what an
//! answer body means.
use vstd::prelude::*;
use vstd::string::*;
use crate::books::{BookInfo, book_name, books, normalize_book, normalized_book, BOOK_COUNT};
use crate::html::{
    clean_html, clean_html_leaves_no_markup, clean_html_of_plain_text, clean_html_spec, no_markup,
};
use crate::json::{
    array_model, get_number, get_text, json_array_of, json_value_of, member_number, member_text,
    object_model, parse_json_array, parse_json_value, FieldModel, JsonField,
};
use crate::text::{decimal, push_decimal, push_str, string_from, trim};
use crate::types::{results_model, verses_model, Chapter, SearchResult, Verse, VerseModel};
use crate::unicode::{to_uppercase, uppercase_of};

verus! {

pub open spec fn base_url() -> Seq<char> {
    "https://bolls.life"@
}

/// The translation code the service expects: the translation in upper case.
pub fn translation_code(translation: &str) -> (r: String)
    ensures
        r@ == uppercase_of(translation@),
{
    to_uppercase(translation)
}

/// The book a request names, or the message for an unknown one.
pub fn find_book(book_name: &str) -> (r: Result<BookInfo, String>)
    ensures
        match normalized_book(book_name@) {
            Some(i) => r matches Ok(b) && b.is_book(i),
            None => r matches Err(e) && e@ == "Unknown book: "@ + book_name@,
        },
{
    match normalize_book(book_name) {
        Some(b) => Ok(b),
        None => {
            let mut m = string_from("Unknown book: ");
            push_str(&mut m, book_name);
            Err(m)
        },
    }
}

fn endpoint(path: &str, translation: &str) -> (r: String)
    ensures
        r@ == base_url() + path@ + uppercase_of(translation@) + "/"@,
{
    let mut s = string_from("https://bolls.life");
    push_str(&mut s, path);
    let code = translation_code(translation);
    push_str(&mut s, code.as_str());
    push_str(&mut s, "/");
    s
}

/// The URL of one verse.
pub fn verse_url(book: &BookInfo, chapter: u32, verse: u32, translation: &str) -> (r: String)
    ensures
        r@ == base_url() + "/get-verse/"@ + uppercase_of(translation@) + "/"@ + decimal(
            book.id as nat,
        ) + "/"@ + decimal(chapter as nat) + "/"@ + decimal(verse as nat) + "/"@,
{
    let mut s = endpoint("/get-verse/", translation);
    push_decimal(&mut s, book.id as u64);
    push_str(&mut s, "/");
    push_decimal(&mut s, chapter as u64);
    push_str(&mut s, "/");
    push_decimal(&mut s, verse as u64);
    push_str(&mut s, "/");
    s
}

/// The URL of one chapter.
pub fn chapter_url(book: &BookInfo, chapter: u32, translation: &str) -> (r: String)
    ensures
        r@ == base_url() + "/get-chapter/"@ + uppercase_of(translation@) + "/"@ + decimal(
            book.id as nat,
        ) + "/"@ + decimal(chapter as nat) + "/"@,
{
    let mut s = endpoint("/get-chapter/", translation);
    push_decimal(&mut s, book.id as u64);
    push_str(&mut s, "/");
    push_decimal(&mut s, chapter as u64);
    push_str(&mut s, "/");
    s
}

/// The URL of a search; the query goes in the `search` parameter.
pub fn search_url(translation: &str) -> (r: String)
    ensures
        r@ == base_url() + "/search/"@ + uppercase_of(translation@) + "/"@,
{
    endpoint("/search/", translation)
}

/// The URL of a random verse.
pub fn random_verse_url(translation: &str) -> (r: String)
    ensures
        r@ == base_url() + "/get-random-verse/"@ + uppercase_of(translation@) + "/"@,
{
    endpoint("/get-random-verse/", translation)
}

/// The URL of the book names of a translation.
pub fn book_names_url(translation: &str) -> (r: String)
    ensures
        r@ == base_url() + "/get-books/"@ + uppercase_of(translation@) + "/"@,
{
    endpoint("/get-books/", translation)
}

/// An answer's body when its status is a success; otherwise the status as the error.
pub fn check_response(success: bool, status: u16, body: String) -> (r: Result<String, String>)
    ensures
        success ==> r == Ok::<String, String>(body),
        !success ==> (r matches Err(e) && e@ == "API returned "@ + decimal(status as nat)),
{
    if !success {
        let mut m = string_from("API returned ");
        push_decimal(&mut m, status as u64);
        return Err(m);
    }
    Ok(body)
}

/// An answer's body when its status code is a success (200 to 299); otherwise
/// the status code as the error.
pub fn check_status(status: u16, body: String) -> (r: Result<String, String>)
    ensures
        200 <= status <= 299 ==> r == Ok::<String, String>(body),
        !(200 <= status <= 299) ==> (r matches Err(e) && e@ == "API returned "@ + decimal(
            status as nat,
        )),
{
    check_response(200 <= status && status <= 299, status, body)
}

pub open spec fn invalid_response(e: Seq<char>) -> Seq<char> {
    "Invalid response: "@ + e
}

fn invalid_response_message(e: &String) -> (r: String)
    ensures
        r@ == invalid_response(e@),
{
    let mut m = string_from("Invalid response: ");
    push_str(&mut m, e.as_str());
    m
}

/// `n` cut to its low 32 bits (what `n as u32` keeps).
pub open spec fn low32(n: u64) -> u32 {
    (n % 0x1_0000_0000) as u32
}

fn to_u32(n: u64) -> (r: u32)
    ensures
        r == low32(n),
{
    (n % 0x1_0000_0000) as u32
}

// ---------------------------------------------------------------------------
// One verse.
/// The string `text` member of an answer, empty when there is none.
pub open spec fn answer_text(fields: Seq<FieldModel>) -> Seq<char> {
    match member_text(fields, "text"@) {
        Some(t) => t,
        None => Seq::empty(),
    }
}

/// The verse an answer's members describe: its text (empty when missing) cleaned
/// of markup, the translation in upper case.
pub open spec fn verse_spec(
    name: Seq<char>,
    chapter: u32,
    verse: u32,
    fields: Seq<FieldModel>,
    translation: Seq<char>,
) -> VerseModel {
    let text = match member_text(fields, "text"@) {
        Some(t) => t,
        None => Seq::empty(),
    };
    (name, chapter, verse, clean_html_spec(text), uppercase_of(translation))
}

/// The verse that the members of a `get-verse` answer describe.
pub fn verse_from_fields(
    book: &BookInfo,
    chapter: u32,
    verse: u32,
    fields: &Vec<JsonField>,
    translation: &str,
) -> (r: Verse)
    ensures
        r.model() == verse_spec(book.name@, chapter, verse, object_model(fields@), translation@),
        r.book@ == book.name@,
        r.chapter == chapter,
        r.verse == verse,
        r.text@ == clean_html_spec(answer_text(object_model(fields@))),
        no_markup(r.text@),
        r.translation@ == uppercase_of(translation@),
{
    let text = match get_text(fields, "text") {
        Some(t) => t,
        None => String::new(),
    };
    let r = Verse {
        book: string_from(book.name),
        chapter,
        verse,
        text: clean_html(text.as_str()),
        translation: to_uppercase(translation),
    };
    proof {
        clean_html_leaves_no_markup(text@);
    }
    r
}

/// The verse a `get-verse` answer body describes, or why it could not be read.
pub fn verse_from_response(
    book: &BookInfo,
    chapter: u32,
    verse: u32,
    body: &str,
    translation: &str,
) -> (r: Result<Verse, String>)
    ensures
        match json_value_of(body@) {
            Ok(f) => r matches Ok(v) && v.model() == verse_spec(
                book.name@,
                chapter,
                verse,
                f,
                translation@,
            ),
            Err(e) => r matches Err(m) && m@ == invalid_response(e),
        },
        r matches Ok(v) ==> v.book@ == book.name@ && v.chapter == chapter && v.verse == verse
            && no_markup(v.text@) && v.translation@ == uppercase_of(translation@),
{
    match parse_json_value(body) {
        Ok(fields) => Ok(verse_from_fields(book, chapter, verse, &fields, translation)),
        Err(e) => Err(invalid_response_message(&e)),
    }
}

// ---------------------------------------------------------------------------
// A chapter.
/// The verses of a `get-chapter` answer: every element with both a numeric
/// `verse` and a string `text`, in order.
pub open spec fn chapter_verses(
    items: Seq<Seq<FieldModel>>,
    name: Seq<char>,
    chapter: u32,
    translation: Seq<char>,
) -> Seq<VerseModel>
    decreases items.len(),
{
    if items.len() == 0 {
        Seq::empty()
    } else {
        let prev = chapter_verses(items.drop_last(), name, chapter, translation);
        let it = items.last();
        match (member_number(it, "verse"@), member_text(it, "text"@)) {
            (Some(n), Some(t)) => prev.push(
                (name, chapter, low32(n), clean_html_spec(t), uppercase_of(translation)),
            ),
            _ => prev,
        }
    }
}

/// The chapter that the elements of a `get-chapter` answer describe.
pub fn chapter_from_items(
    book: &BookInfo,
    chapter: u32,
    items: &Vec<Vec<JsonField>>,
    translation: &str,
) -> (r: Chapter)
    ensures
        r.book@ == book.name@,
        r.chapter == chapter,
        r.translation@ == uppercase_of(translation@),
        verses_model(r.verses@) == chapter_verses(
            array_model(items@),
            book.name@,
            chapter,
            translation@,
        ),
        r.verses.len() <= items.len(),
        forall|k: int|
            0 <= k < r.verses.len() ==> {
                let v = #[trigger] r.verses@[k];
                &&& v.book@ == book.name@
                &&& v.chapter == chapter
                &&& v.translation@ == uppercase_of(translation@)
                &&& no_markup(v.text@)
                &&& verse_of_some_element(v.model(), array_model(items@))
            },
{
    let ghost am = array_model(items@);
    let mut verses: Vec<Verse> = Vec::new();
    let mut i: usize = 0;
    while i < items.len()
        invariant
            am == array_model(items@),
            i <= items.len(),
            verses_model(verses@) == chapter_verses(
                am.subrange(0, i as int),
                book.name@,
                chapter,
                translation@,
            ),
        decreases items.len() - i,
    {
        let it = &items[i];
        assert(am.subrange(0, i + 1).drop_last() =~= am.subrange(0, i as int));
        assert(am.subrange(0, i + 1).last() == object_model(it@));
        let n = get_number(it, "verse");
        let t = get_text(it, "text");
        match (n, t) {
            (Some(n), Some(t)) => {
                let v = Verse {
                    book: string_from(book.name),
                    chapter,
                    verse: to_u32(n),
                    text: clean_html(t.as_str()),
                    translation: to_uppercase(translation),
                };
                let ghost before = verses@;
                verses.push(v);
                assert(verses_model(verses@) =~= verses_model(before).push(v.model()));
            },
            _ => {},
        }
        i = i + 1;
    }
    assert(am.subrange(0, items.len() as int) =~= am);
    proof {
        chapter_read_keeps_request(am, book.name@, chapter, translation@);
        let cv = chapter_verses(am, book.name@, chapter, translation@);
        assert forall|k: int| 0 <= k < verses.len() implies {
            let v = #[trigger] verses@[k];
            &&& v.book@ == book.name@
            &&& v.chapter == chapter
            &&& v.translation@ == uppercase_of(translation@)
            &&& no_markup(v.text@)
            &&& verse_of_some_element(v.model(), am)
        } by {
            assert(cv[k] == verses@[k].model());
        }
    }
    Chapter {
        book: string_from(book.name),
        chapter,
        verses,
        translation: to_uppercase(translation),
    }
}

/// The chapter a `get-chapter` answer body describes, or why it could not be read.
pub fn chapter_from_response(
    book: &BookInfo,
    chapter: u32,
    body: &str,
    translation: &str,
) -> (r: Result<Chapter, String>)
    ensures
        match json_array_of(body@) {
            Ok(items) => r matches Ok(c) && c.book@ == book.name@ && c.chapter == chapter
                && c.translation@ == uppercase_of(translation@) && verses_model(c.verses@)
                == chapter_verses(items, book.name@, chapter, translation@) && (forall|k: int|
                0 <= k < c.verses.len() ==> verse_of_some_element(
                    (#[trigger] c.verses@[k]).model(),
                    items,
                )),
            Err(e) => r matches Err(m) && m@ == invalid_response(e),
        },
        r matches Ok(c) ==> forall|k: int|
            0 <= k < c.verses.len() ==> {
                let v = #[trigger] c.verses@[k];
                &&& v.book@ == book.name@
                &&& v.chapter == chapter
                &&& v.translation@ == uppercase_of(translation@)
                &&& no_markup(v.text@)
            },
{
    match parse_json_array(body) {
        Ok(items) => Ok(chapter_from_items(book, chapter, &items, translation)),
        Err(e) => Err(invalid_response_message(&e)),
    }
}

/// The verses numbered from `start` to `end` (both included), in order.
pub open spec fn verses_between(vs: Seq<VerseModel>, start: u32, end: u32) -> Seq<VerseModel>
    decreases vs.len(),
{
    if vs.len() == 0 {
        Seq::empty()
    } else {
        let prev = verses_between(vs.drop_last(), start, end);
        let v = vs.last();
        if start <= v.2 && v.2 <= end {
            prev.push(v)
        } else {
            prev
        }
    }
}

/// The verses of a chapter numbered from `verse_start` to `verse_end`, in order.
pub fn verses_in_range(chapter: Chapter, verse_start: u32, verse_end: u32) -> (r: Vec<Verse>)
    ensures
        verses_model(r@) == verses_between(verses_model(chapter.verses@), verse_start, verse_end),
{
    let ghost all = verses_model(chapter.verses@);
    let mut out: Vec<Verse> = Vec::new();
    let mut i: usize = 0;
    while i < chapter.verses.len()
        invariant
            all == verses_model(chapter.verses@),
            i <= chapter.verses.len(),
            verses_model(out@) == verses_between(all.subrange(0, i as int), verse_start, verse_end),
        decreases chapter.verses.len() - i,
    {
        let v = &chapter.verses[i];
        assert(all.subrange(0, i + 1).drop_last() =~= all.subrange(0, i as int));
        assert(all.subrange(0, i + 1).last() == v.model());
        if verse_start <= v.verse && v.verse <= verse_end {
            let ghost before = out@;
            let c = v.clone_verse();
            out.push(c);
            assert(verses_model(out@) =~= verses_model(before).push(v.model()));
        }
        i = i + 1;
    }
    assert(all.subrange(0, chapter.verses.len() as int) =~= all);
    out
}

impl Verse {
    /// A copy of this verse.
    pub fn clone_verse(&self) -> (r: Verse)
        ensures
            r.model() == self.model(),
    {
        Verse {
            book: self.book.clone(),
            chapter: self.chapter,
            verse: self.verse,
            text: self.text.clone(),
            translation: self.translation.clone(),
        }
    }
}

// ---------------------------------------------------------------------------
// Search.
/// The name of the book with this id, or "Book N" for an id outside the table.
pub open spec fn name_for_id(id: u32) -> Seq<char> {
    if 1 <= id <= BOOK_COUNT {
        book_name(id - 1)
    } else {
        "Book "@ + decimal(id as nat)
    }
}

/// The hit an element of a search answer describes, when it has a numeric `book`,
/// `chapter` and `verse` and a string `text`.
pub open spec fn search_hit(it: Seq<FieldModel>, translation: Seq<char>) -> Option<VerseModel> {
    match member_number(it, "book"@) {
        None => None,
        Some(b) => match member_number(it, "chapter"@) {
            None => None,
            Some(c) => match member_number(it, "verse"@) {
                None => None,
                Some(v) => match member_text(it, "text"@) {
                    None => None,
                    Some(t) => Some(
                        (
                            name_for_id(low32(b)),
                            low32(c),
                            low32(v),
                            clean_html_spec(t),
                            uppercase_of(translation),
                        ),
                    ),
                },
            },
        },
    }
}

/// All hits of a search answer, in order.
pub open spec fn search_hits(items: Seq<Seq<FieldModel>>, translation: Seq<char>) -> Seq<VerseModel>
    decreases items.len(),
{
    if items.len() == 0 {
        Seq::empty()
    } else {
        let prev = search_hits(items.drop_last(), translation);
        match search_hit(items.last(), translation) {
            Some(h) => prev.push(h),
            None => prev,
        }
    }
}

/// Most hits a search hands back.
pub const MAX_SEARCH_RESULTS: usize = 50;

/// The hits a search hands back: the first fifty.
pub open spec fn search_spec(items: Seq<Seq<FieldModel>>, translation: Seq<char>) -> Seq<VerseModel> {
    let h = search_hits(items, translation);
    if h.len() <= MAX_SEARCH_RESULTS {
        h
    } else {
        h.subrange(0, MAX_SEARCH_RESULTS as int)
    }
}

proof fn lemma_search_hits_prefix(items: Seq<Seq<FieldModel>>, translation: Seq<char>, i: int)
    requires
        0 <= i <= items.len(),
    ensures
        search_hits(items.subrange(0, i), translation).len() <= search_hits(items, translation).len(),
        search_hits(items, translation).subrange(
            0,
            search_hits(items.subrange(0, i), translation).len() as int,
        ) == search_hits(items.subrange(0, i), translation),
    decreases items.len(),
{
    if i == items.len() {
        assert(items.subrange(0, i) =~= items);
        assert(search_hits(items, translation).subrange(
            0,
            search_hits(items, translation).len() as int,
        ) =~= search_hits(items, translation));
    } else {
        assert(items.drop_last().subrange(0, i) =~= items.subrange(0, i));
        lemma_search_hits_prefix(items.drop_last(), translation, i);
        let a = search_hits(items.subrange(0, i), translation);
        let p = search_hits(items.drop_last(), translation);
        assert(p.subrange(0, a.len() as int) == a);
        match search_hit(items.last(), translation) {
            Some(h) => {
                assert(p.push(h).subrange(0, a.len() as int) =~= p.subrange(0, a.len() as int));
            },
            None => {},
        }
    }
}

/// The name of the book with this id, or "Book N".
fn name_of_book_id(id: u32) -> (r: String)
    ensures
        r@ == name_for_id(id),
{
    let bs = books();
    let mut i: usize = 0;
    while i < bs.len()
        invariant
            bs.len() == BOOK_COUNT,
            forall|j: int| 0 <= j < BOOK_COUNT ==> (#[trigger] bs[j]).is_book(j),
            i <= bs.len(),
            forall|j: int| 0 <= j < i ==> bs[j].id != id,
        decreases bs.len() - i,
    {
        if bs[i].id == id {
            return string_from(bs[i].name);
        }
        i = i + 1;
    }
    proof {
        if 1 <= id <= BOOK_COUNT {
            assert(bs[id - 1].id == id);
        }
    }
    let mut m = string_from("Book ");
    push_decimal(&mut m, id as u64);
    m
}

fn hit_from_fields(it: &Vec<JsonField>, translation: &str) -> (r: Option<SearchResult>)
    ensures
        match search_hit(object_model(it@), translation@) {
            Some(h) => r matches Some(x) && x.model() == h,
            None => r is None,
        },
        r matches Some(x) ==> {
            &&& x.text@ == clean_html_spec(member_text(object_model(it@), "text"@)->0)
            &&& no_markup(x.text@)
            &&& holds_element_hit(x.model(), object_model(it@))
            &&& x.translation@ == uppercase_of(translation@)
        },
{
    proof {
        search_hit_reads_element(object_model(it@), translation@);
    }
    let b = match get_number(it, "book") {
        Some(b) => b,
        None => {
            return None;
        },
    };
    let book_id = to_u32(b);
    let name = name_of_book_id(book_id);
    let c = match get_number(it, "chapter") {
        Some(c) => c,
        None => {
            return None;
        },
    };
    let v = match get_number(it, "verse") {
        Some(v) => v,
        None => {
            return None;
        },
    };
    let t = match get_text(it, "text") {
        Some(t) => t,
        None => {
            return None;
        },
    };
    Some(
        SearchResult {
            book: name,
            chapter: to_u32(c),
            verse: to_u32(v),
            text: clean_html(t.as_str()),
            translation: to_uppercase(translation),
        },
    )
}

/// The hits that the elements of a search answer describe, at most fifty.
pub fn search_from_items(items: &Vec<Vec<JsonField>>, translation: &str) -> (r: Vec<SearchResult>)
    ensures
        results_model(r@) == search_spec(array_model(items@), translation@),
        r.len() <= MAX_SEARCH_RESULTS,
        forall|k: int|
            0 <= k < r.len() ==> {
                let h = #[trigger] r@[k];
                &&& no_markup(h.text@)
                &&& h.translation@ == uppercase_of(translation@)
                &&& hit_of_some_element(h.model(), array_model(items@))
            },
{
    let ghost am = array_model(items@);
    let mut out: Vec<SearchResult> = Vec::new();
    let mut i: usize = 0;
    while i < items.len() && out.len() < MAX_SEARCH_RESULTS
        invariant
            am == array_model(items@),
            i <= items.len(),
            out.len() <= MAX_SEARCH_RESULTS,
            results_model(out@) == search_hits(am.subrange(0, i as int), translation@),
        decreases items.len() - i,
    {
        let it = &items[i];
        assert(am.subrange(0, i + 1).drop_last() =~= am.subrange(0, i as int));
        assert(am.subrange(0, i + 1).last() == object_model(it@));
        match hit_from_fields(it, translation) {
            Some(h) => {
                let ghost before = out@;
                out.push(h);
                assert(results_model(out@) =~= results_model(before).push(h.model()));
            },
            None => {},
        }
        i = i + 1;
    }
    proof {
        lemma_search_hits_prefix(am, translation@, i as int);
        let all = search_hits(am, translation@);
        if i == items.len() {
            assert(am.subrange(0, i as int) =~= am);
        } else {
            assert(results_model(out@).len() == MAX_SEARCH_RESULTS);
            assert(all.subrange(0, MAX_SEARCH_RESULTS as int) == results_model(out@));
        }
        search_hits_are_clean(am, translation@);
        let sp = search_spec(am, translation@);
        assert(results_model(out@) == sp);
        assert forall|k: int| 0 <= k < out.len() implies {
            let h = #[trigger] out@[k];
            &&& no_markup(h.text@)
            &&& h.translation@ == uppercase_of(translation@)
            &&& hit_of_some_element(h.model(), array_model(items@))
        } by {
            assert(results_model(out@)[k] == out@[k].model());
        }
    }
    out
}

/// The hits a search answer body describes, or why it could not be read.
pub fn search_from_response(body: &str, translation: &str) -> (r: Result<Vec<SearchResult>, String>)
    ensures
        match json_array_of(body@) {
            Ok(items) => r matches Ok(v) && results_model(v@) == search_spec(items, translation@)
                && (forall|k: int|
                0 <= k < v.len() ==> hit_of_some_element((#[trigger] v@[k]).model(), items)),
            Err(e) => r matches Err(m) && m@ == invalid_response(e),
        },
        r matches Ok(v) ==> v.len() <= MAX_SEARCH_RESULTS && forall|k: int|
            0 <= k < v.len() ==> no_markup((#[trigger] v@[k]).text@) && v@[k].translation@
                == uppercase_of(translation@),
{
    match parse_json_array(body) {
        Ok(items) => Ok(search_from_items(&items, translation)),
        Err(e) => Err(invalid_response_message(&e)),
    }
}

// ---------------------------------------------------------------------------
// A random verse.
/// The verse a `get-random-verse` answer's members describe: book "Unknown",
/// chapter 0, the verse number (0 when missing) and the text (empty when missing).
pub open spec fn random_verse_spec(fields: Seq<FieldModel>, translation: Seq<char>) -> VerseModel {
    let n = match member_number(fields, "verse"@) {
        Some(n) => n,
        None => 0,
    };
    let text = match member_text(fields, "text"@) {
        Some(t) => t,
        None => Seq::empty(),
    };
    ("Unknown"@, 0, low32(n), clean_html_spec(text), uppercase_of(translation))
}

/// The verse that the members of a `get-random-verse` answer describe.
pub fn random_verse_from_fields(fields: &Vec<JsonField>, translation: &str) -> (r: Verse)
    ensures
        r.model() == random_verse_spec(object_model(fields@), translation@),
        r.book@ == "Unknown"@,
        r.chapter == 0,
        r.verse == match member_number(object_model(fields@), "verse"@) {
            Some(n) => low32(n),
            None => 0u32,
        },
        r.text@ == clean_html_spec(answer_text(object_model(fields@))),
        no_markup(r.text@),
        r.translation@ == uppercase_of(translation@),
{
    let n = match get_number(fields, "verse") {
        Some(n) => n,
        None => 0,
    };
    let text = match get_text(fields, "text") {
        Some(t) => t,
        None => String::new(),
    };
    let r = Verse {
        book: string_from("Unknown"),
        chapter: 0,
        verse: to_u32(n),
        text: clean_html(text.as_str()),
        translation: to_uppercase(translation),
    };
    proof {
        clean_html_leaves_no_markup(text@);
        assert(low32(0) == 0);
    }
    r
}

/// The verse a `get-random-verse` answer body describes, or why it could not be read.
pub fn random_verse_from_response(body: &str, translation: &str) -> (r: Result<Verse, String>)
    ensures
        match json_value_of(body@) {
            Ok(f) => r matches Ok(v) && v.model() == random_verse_spec(f, translation@),
            Err(e) => r matches Err(m) && m@ == invalid_response(e),
        },
        r matches Ok(v) ==> v.book@ == "Unknown"@ && v.chapter == 0 && no_markup(v.text@)
            && v.translation@ == uppercase_of(translation@),
{
    match parse_json_value(body) {
        Ok(fields) => Ok(random_verse_from_fields(&fields, translation)),
        Err(e) => Err(invalid_response_message(&e)),
    }
}

// ---------------------------------------------------------------------------
// Book names.
/// The localized book names a `get-books` answer gives, indexed by book id - 1:
/// every element with a numeric `bookid` from 1 to 5 and a string `name` sets
/// that slot, later elements overriding earlier ones; other slots stay empty.
pub open spec fn book_names_spec(items: Seq<Seq<FieldModel>>) -> Seq<Seq<char>>
    decreases items.len(),
{
    if items.len() == 0 {
        Seq::new(BOOK_COUNT as nat, |i: int| Seq::<char>::empty())
    } else {
        let prev = book_names_spec(items.drop_last());
        let it = items.last();
        match (member_number(it, "bookid"@), member_text(it, "name"@)) {
            (Some(id), Some(n)) => if 1 <= id <= BOOK_COUNT {
                prev.update(id - 1, n)
            } else {
                prev
            },
            _ => prev,
        }
    }
}

pub open spec fn names_model(v: Seq<String>) -> Seq<Seq<char>> {
    v.map_values(|s: String| s@)
}

/// The book names come as one slot per book of the table.
pub proof fn book_names_one_per_book(items: Seq<Seq<FieldModel>>)
    ensures
        book_names_spec(items).len() == BOOK_COUNT,
    decreases items.len(),
{
    if items.len() > 0 {
        book_names_one_per_book(items.drop_last());
    }
}

/// The localized book names the elements of a `get-books` answer give.
pub fn book_names_from_items(items: &Vec<Vec<JsonField>>) -> (r: Vec<String>)
    ensures
        names_model(r@) == book_names_spec(array_model(items@)),
        r.len() == BOOK_COUNT,
        forall|i: int, id: u64|
            0 <= i < items.len() && 1 <= id <= BOOK_COUNT && #[trigger] names_book(
                array_model(items@)[i],
                id,
            ) && (forall|j: int|
                i < j < items.len() ==> !names_book(#[trigger] array_model(items@)[j], id))
                ==> r@[id - 1]@ == member_text(array_model(items@)[i], "name"@)->0,
        forall|id: u64|
            1 <= id <= BOOK_COUNT && (forall|j: int|
                0 <= j < items.len() ==> !#[trigger] names_book(array_model(items@)[j], id))
                ==> (#[trigger] r@[id - 1])@ == Seq::<char>::empty(),
{
    let ghost am = array_model(items@);
    let mut names: Vec<String> = Vec::new();
    let mut k: usize = 0;
    while k < BOOK_COUNT
        invariant
            k <= BOOK_COUNT,
            names.len() == k,
            forall|j: int| 0 <= j < k ==> (#[trigger] names@[j])@ == Seq::<char>::empty(),
        decreases BOOK_COUNT - k,
    {
        names.push(String::new());
        k = k + 1;
    }
    assert(names_model(names@) =~= book_names_spec(am.subrange(0, 0)));
    let mut i: usize = 0;
    while i < items.len()
        invariant
            am == array_model(items@),
            i <= items.len(),
            names.len() == BOOK_COUNT,
            names_model(names@) == book_names_spec(am.subrange(0, i as int)),
        decreases items.len() - i,
    {
        let it = &items[i];
        assert(am.subrange(0, i + 1).drop_last() =~= am.subrange(0, i as int));
        assert(am.subrange(0, i + 1).last() == object_model(it@));
        let id = get_number(it, "bookid");
        let name = get_text(it, "name");
        match (id, name) {
            (Some(id), Some(name)) => {
                if id >= 1 && id <= BOOK_COUNT as u64 {
                    let ghost before = names@;
                    names.set((id - 1) as usize, name);
                    assert(names_model(names@) =~= names_model(before).update(id - 1, name@));
                }
            },
            _ => {},
        }
        i = i + 1;
    }
    assert(am.subrange(0, items.len() as int) =~= am);
    proof {
        let ns = book_names_spec(am);
        book_names_one_per_book(am);
        assert forall|i: int, id: u64|
            0 <= i < items.len() && 1 <= id <= BOOK_COUNT && #[trigger] names_book(am[i], id) && (
            forall|j: int| i < j < items.len() ==> !names_book(#[trigger] am[j], id)) implies names@[id
            - 1]@ == member_text(am[i], "name"@)->0 by {
            book_name_slot_holds_last_name(am, i, id);
            assert(names_model(names@)[id - 1] == names@[id - 1]@);
        }
        assert forall|id: u64|
            1 <= id <= BOOK_COUNT && (forall|j: int|
                0 <= j < items.len() ==> !#[trigger] names_book(am[j], id)) implies (#[trigger] names@[id
            - 1])@ == Seq::<char>::empty() by {
            book_name_slot_empty(am, id);
            assert(names_model(names@)[id - 1] == names@[id - 1]@);
        }
    }
    names
}

/// The localized book names a `get-books` answer body gives, or why it could not be read.
pub fn book_names_from_response(body: &str) -> (r: Result<Vec<String>, String>)
    ensures
        match json_array_of(body@) {
            Ok(items) => r matches Ok(v) && names_model(v@) == book_names_spec(items) && v.len()
                == BOOK_COUNT && (forall|i: int, id: u64|
                0 <= i < items.len() && 1 <= id <= BOOK_COUNT && #[trigger] names_book(items[i], id)
                    && (forall|j: int| i < j < items.len() ==> !names_book(#[trigger] items[j], id))
                    ==> v@[id - 1]@ == member_text(items[i], "name"@)->0),
            Err(e) => r matches Err(m) && m@ == invalid_response(e),
        },
{
    match parse_json_array(body) {
        Ok(items) => Ok(book_names_from_items(&items)),
        Err(e) => Err(invalid_response_message(&e)),
    }
}

/// A search hands back at most fifty hits, and they are the first hits of the
/// answer in its order.
pub proof fn search_is_capped(items: Seq<Seq<FieldModel>>, translation: Seq<char>)
    ensures
        search_spec(items, translation).len() <= MAX_SEARCH_RESULTS,
        search_spec(items, translation) == search_hits(items, translation).subrange(
            0,
            search_spec(items, translation).len() as int,
        ),
{
    let h = search_hits(items, translation);
    if h.len() <= MAX_SEARCH_RESULTS {
        assert(h.subrange(0, h.len() as int) =~= h);
    }
}

/// Every verse a range request hands back is numbered within the range, and the
/// verses of the chapter within the range all come back, in order.
pub proof fn range_keeps_exactly_the_range(vs: Seq<VerseModel>, start: u32, end: u32)
    ensures
        forall|k: int|
            0 <= k < verses_between(vs, start, end).len() ==> start <= (
            #[trigger] verses_between(vs, start, end)[k]).2 <= end,
        verses_between(vs, start, end).len() <= vs.len(),
        (forall|k: int| 0 <= k < vs.len() ==> start <= (#[trigger] vs[k]).2 <= end) ==> verses_between(
            vs,
            start,
            end,
        ) == vs,
    decreases vs.len(),
{
    if vs.len() > 0 {
        range_keeps_exactly_the_range(vs.drop_last(), start, end);
        if forall|k: int| 0 <= k < vs.len() ==> start <= (#[trigger] vs[k]).2 <= end {
            assert forall|k: int| 0 <= k < vs.drop_last().len() implies start <= (
            #[trigger] vs.drop_last()[k]).2 <= end by {
                assert(vs.drop_last()[k] == vs[k]);
            }
            assert(vs.last() == vs[vs.len() - 1]);
            assert(vs.drop_last().push(vs.last()) =~= vs);
        }
    }
}

// ---------------------------------------------------------------------------
// What reading an answer keeps of the request and of the text.
/// The text of a verse read from an answer: free of markup, and the answer's
/// text merely trimmed when that had no markup to begin with.
pub open spec fn cleaned_from(kept: Seq<char>, given: Seq<char>) -> bool {
    &&& no_markup(kept)
    &&& no_markup(given) ==> kept == trim(given)
}

proof fn lemma_cleaned(given: Seq<char>)
    ensures
        cleaned_from(clean_html_spec(given), given),
{
    clean_html_leaves_no_markup(given);
    if no_markup(given) {
        clean_html_of_plain_text(given);
    }
}

/// A verse read from a `get-verse` answer carries the requested book, chapter
/// and verse (whatever numbers the answer holds), the translation in upper case,
/// and the answer's text cleaned of markup (empty when there is none).
pub proof fn verse_read_keeps_request(
    name: Seq<char>,
    chapter: u32,
    verse: u32,
    fields: Seq<FieldModel>,
    translation: Seq<char>,
)
    ensures
        verse_spec(name, chapter, verse, fields, translation).0 == name,
        verse_spec(name, chapter, verse, fields, translation).1 == chapter,
        verse_spec(name, chapter, verse, fields, translation).2 == verse,
        verse_spec(name, chapter, verse, fields, translation).4 == uppercase_of(translation),
        verse_spec(name, chapter, verse, fields, translation).3 == clean_html_spec(
            answer_text(fields),
        ),
        cleaned_from(verse_spec(name, chapter, verse, fields, translation).3, answer_text(fields)),
        member_text(fields, "text"@) is None ==> verse_spec(
            name,
            chapter,
            verse,
            fields,
            translation,
        ).3.len() == 0,
{
    lemma_cleaned(answer_text(fields));
    if member_text(fields, "text"@) is None {
        assert(trim(Seq::<char>::empty()) == Seq::<char>::empty());
    }
}

/// `v` holds the verse number (cut to 32 bits) and the cleaned text of the
/// answer element `it`.
pub open spec fn holds_element_verse(v: VerseModel, it: Seq<FieldModel>) -> bool {
    &&& match member_number(it, "verse"@) {
        Some(n) => v.2 == low32(n),
        None => false,
    }
    &&& match member_text(it, "text"@) {
        Some(t) => v.3 == clean_html_spec(t),
        None => false,
    }
}

/// `h` holds the book named for the book id, the chapter, the verse and the
/// cleaned text of the answer element `it`.
pub open spec fn holds_element_hit(h: VerseModel, it: Seq<FieldModel>) -> bool {
    &&& holds_element_verse(h, it)
    &&& match member_number(it, "book"@) {
        Some(b) => h.0 == name_for_id(low32(b)),
        None => false,
    }
    &&& match member_number(it, "chapter"@) {
        Some(c) => h.1 == low32(c),
        None => false,
    }
}

/// Some element of `items` holds the verse number and text of `v`.
pub open spec fn verse_of_some_element(v: VerseModel, items: Seq<Seq<FieldModel>>) -> bool {
    exists|i: int| 0 <= i < items.len() && #[trigger] holds_element_verse(v, items[i])
}

/// Some element of `items` holds the book, chapter, verse and text of `h`.
pub open spec fn hit_of_some_element(h: VerseModel, items: Seq<Seq<FieldModel>>) -> bool {
    exists|i: int| 0 <= i < items.len() && #[trigger] holds_element_hit(h, items[i])
}

/// Every verse of a chapter read from a `get-chapter` answer has the requested
/// book and chapter, the translation in upper case, and the verse number and
/// cleaned text (free of markup) of one of the answer's elements; there are no
/// more verses than answer elements, and when every element holds a verse
/// number and a text, each gives a verse.
pub proof fn chapter_read_keeps_request(
    items: Seq<Seq<FieldModel>>,
    name: Seq<char>,
    chapter: u32,
    translation: Seq<char>,
)
    ensures
        chapter_verses(items, name, chapter, translation).len() <= items.len(),
        forall|k: int|
            0 <= k < chapter_verses(items, name, chapter, translation).len() ==> {
                let v = #[trigger] chapter_verses(items, name, chapter, translation)[k];
                &&& v.0 == name
                &&& v.1 == chapter
                &&& v.4 == uppercase_of(translation)
                &&& no_markup(v.3)
                &&& verse_of_some_element(v, items)
            },
        (forall|i: int|
            0 <= i < items.len() ==> member_number(#[trigger] items[i], "verse"@) is Some
                && member_text(items[i], "text"@) is Some) ==> chapter_verses(
            items,
            name,
            chapter,
            translation,
        ).len() == items.len(),
    decreases items.len(),
{
    if items.len() > 0 {
        let prev = items.drop_last();
        chapter_read_keeps_request(prev, name, chapter, translation);
        let it = items.last();
        assert(it == items[items.len() - 1]);
        let cv = chapter_verses(items, name, chapter, translation);
        let pv = chapter_verses(prev, name, chapter, translation);
        match (member_number(it, "verse"@), member_text(it, "text"@)) {
            (Some(n), Some(t)) => {
                lemma_cleaned(t);
                assert(cv == pv.push(
                    (name, chapter, low32(n), clean_html_spec(t), uppercase_of(translation)),
                ));
            },
            _ => {
                assert(cv == pv);
            },
        }
        assert forall|k: int| 0 <= k < cv.len() implies {
            let v = #[trigger] cv[k];
            &&& v.0 == name
            &&& v.1 == chapter
            &&& v.4 == uppercase_of(translation)
            &&& no_markup(v.3)
            &&& verse_of_some_element(v, items)
        } by {
            if k < pv.len() {
                assert(cv[k] == pv[k]);
                let i = choose|i: int| 0 <= i < prev.len() && holds_element_verse(pv[k], prev[i]);
                assert(prev[i] == items[i]);
                assert(holds_element_verse(cv[k], items[i]));
            } else {
                assert(holds_element_verse(cv[k], items[items.len() - 1]));
            }
        }
        if forall|i: int|
            0 <= i < items.len() ==> member_number(#[trigger] items[i], "verse"@) is Some
                && member_text(items[i], "text"@) is Some {
            assert forall|i: int| 0 <= i < prev.len() implies member_number(
                #[trigger] prev[i],
                "verse"@,
            ) is Some && member_text(prev[i], "text"@) is Some by {
                assert(prev[i] == items[i]);
            }
        }
    }
}

/// A search hit read from an answer element carries the element's chapter and
/// verse (cut to 32 bits), the book named for its book id, the translation in
/// upper case, and the element's text cleaned of markup; an element with all
/// four members gives a hit.
pub proof fn search_hit_reads_element(it: Seq<FieldModel>, translation: Seq<char>)
    ensures
        search_hit(it, translation) matches Some(h) ==> {
            &&& holds_element_hit(h, it)
            &&& no_markup(h.3)
            &&& h.4 == uppercase_of(translation)
        },
        (member_number(it, "book"@) is Some && member_number(it, "chapter"@) is Some
            && member_number(it, "verse"@) is Some && member_text(it, "text"@) is Some) ==> search_hit(
            it,
            translation,
        ) is Some,
{
    if let Some(t) = member_text(it, "text"@) {
        lemma_cleaned(t);
    }
}

proof fn lemma_hits_read_elements(items: Seq<Seq<FieldModel>>, translation: Seq<char>)
    ensures
        search_hits(items, translation).len() <= items.len(),
        forall|k: int|
            0 <= k < search_hits(items, translation).len() ==> {
                let h = #[trigger] search_hits(items, translation)[k];
                &&& no_markup(h.3)
                &&& h.4 == uppercase_of(translation)
                &&& hit_of_some_element(h, items)
            },
    decreases items.len(),
{
    if items.len() > 0 {
        let prev = items.drop_last();
        lemma_hits_read_elements(prev, translation);
        let it = items.last();
        assert(it == items[items.len() - 1]);
        search_hit_reads_element(it, translation);
        let hs = search_hits(items, translation);
        let ps = search_hits(prev, translation);
        match search_hit(it, translation) {
            Some(h) => {
                assert(hs == ps.push(h));
            },
            None => {
                assert(hs == ps);
            },
        }
        assert forall|k: int| 0 <= k < hs.len() implies {
            let h = #[trigger] hs[k];
            &&& no_markup(h.3)
            &&& h.4 == uppercase_of(translation)
            &&& hit_of_some_element(h, items)
        } by {
            if k < ps.len() {
                assert(hs[k] == ps[k]);
                let i = choose|i: int| 0 <= i < prev.len() && holds_element_hit(ps[k], prev[i]);
                assert(prev[i] == items[i]);
                assert(holds_element_hit(hs[k], items[i]));
            } else {
                assert(holds_element_hit(hs[k], items[items.len() - 1]));
            }
        }
    }
}

/// Every hit a search hands back carries the book, chapter, verse and cleaned
/// text (free of markup) of one of the answer's elements and the translation in
/// upper case, and there are at most fifty of them.
pub proof fn search_hits_are_clean(items: Seq<Seq<FieldModel>>, translation: Seq<char>)
    ensures
        search_spec(items, translation).len() <= MAX_SEARCH_RESULTS,
        forall|k: int|
            0 <= k < search_spec(items, translation).len() ==> {
                let h = #[trigger] search_spec(items, translation)[k];
                &&& no_markup(h.3)
                &&& h.4 == uppercase_of(translation)
                &&& hit_of_some_element(h, items)
            },
{
    lemma_hits_read_elements(items, translation);
    search_is_capped(items, translation);
    let h = search_hits(items, translation);
    assert forall|k: int| 0 <= k < search_spec(items, translation).len() implies {
        let x = #[trigger] search_spec(items, translation)[k];
        &&& no_markup(x.3)
        &&& x.4 == uppercase_of(translation)
        &&& hit_of_some_element(x, items)
    } by {
        assert(search_spec(items, translation)[k] == h[k]);
    }
}

/// A random verse read from an answer has book "Unknown", chapter 0, the
/// answer's verse number cut to 32 bits (0 when missing), the translation in
/// upper case and the answer's text cleaned of markup (empty when missing).
pub proof fn random_verse_reads_answer(fields: Seq<FieldModel>, translation: Seq<char>)
    ensures
        random_verse_spec(fields, translation).0 == "Unknown"@,
        random_verse_spec(fields, translation).1 == 0,
        random_verse_spec(fields, translation).2 == match member_number(fields, "verse"@) {
            Some(n) => low32(n),
            None => 0u32,
        },
        random_verse_spec(fields, translation).4 == uppercase_of(translation),
        random_verse_spec(fields, translation).3 == clean_html_spec(answer_text(fields)),
        cleaned_from(random_verse_spec(fields, translation).3, answer_text(fields)),
{
    lemma_cleaned(answer_text(fields));
    assert(low32(0) == 0);
}

/// The element that settles slot `id - 1` of the book names: it has that book
/// id and a name.
pub open spec fn names_book(it: Seq<FieldModel>, id: u64) -> bool {
    member_number(it, "bookid"@) == Some(id) && member_text(it, "name"@) is Some
}

/// Slot `id - 1` of the book names holds the name of the last element with book
/// id `id` and a name, for each id from 1 to 5, the last included.
pub proof fn book_name_slot_holds_last_name(items: Seq<Seq<FieldModel>>, i: int, id: u64)
    requires
        0 <= i < items.len(),
        1 <= id <= BOOK_COUNT,
        names_book(items[i], id),
        forall|j: int| i < j < items.len() ==> !names_book(#[trigger] items[j], id),
    ensures
        book_names_spec(items)[id - 1] == member_text(items[i], "name"@)->0,
    decreases items.len(),
{
    book_names_one_per_book(items);
    if i == items.len() - 1 {
        book_names_one_per_book(items.drop_last());
        assert(items.last() == items[i]);
    } else {
        let prev = items.drop_last();
        assert(prev[i] == items[i]);
        assert forall|j: int| i < j < prev.len() implies !names_book(#[trigger] prev[j], id) by {
            assert(prev[j] == items[j]);
        }
        book_name_slot_holds_last_name(prev, i, id);
        book_names_one_per_book(prev);
        assert(!names_book(items[items.len() - 1], id));
        assert(items.last() == items[items.len() - 1]);
    }
}

/// A slot no element names stays empty.
pub proof fn book_name_slot_empty(items: Seq<Seq<FieldModel>>, id: u64)
    requires
        1 <= id <= BOOK_COUNT,
        forall|j: int| 0 <= j < items.len() ==> !names_book(#[trigger] items[j], id),
    ensures
        book_names_spec(items)[id - 1] == Seq::<char>::empty(),
    decreases items.len(),
{
    if items.len() > 0 {
        let prev = items.drop_last();
        assert forall|j: int| 0 <= j < prev.len() implies !names_book(#[trigger] prev[j], id) by {
            assert(prev[j] == items[j]);
        }
        book_name_slot_empty(prev, id);
        book_names_one_per_book(prev);
        assert(!names_book(items[items.len() - 1], id));
        assert(items.last() == items[items.len() - 1]);
    }
}

} // verus!
