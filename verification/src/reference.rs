//! Parsing and displaying references such as "Genesis 1:1" or "Deut 6:4-9".
use vstd::prelude::*;
use vstd::string::*;
use crate::books::{
    BookInfo, BOOK_COUNT, book_chapters, book_name, is_choice, lemma_book_name, lemma_name_selects,
    lemma_remove_dots_none, normalize_book, normalized_book, table_case_facts,
};
use crate::text::{
    chars_of, char_at_byte, char_index_at_byte, decimal, find_char, first_index_of, is_digit,
    parse_u32_range, parse_u32_spec, push_char, push_decimal, push_str, string_from,
    string_of_range, trim, trim_bounds,
};
use crate::unicode::{
    alphabetic, ascii_lower_seq, is_alphabetic, is_ascii_letter, is_ascii_seq,
};
use crate::text::{
    is_ws, lemma_ascii_utf8_len, lemma_char_index_at_byte, lemma_decimal, lemma_first_index_at,
    lemma_first_index_none, lemma_parse_decimal, lemma_trim_fixed, trim_start,
};

verus! {

/// A parsed Torah reference.
#[derive(Debug, Clone)]
pub struct TorahReference {
    pub book: BookInfo,
    pub chapter: u32,
    pub verse_start: Option<u32>,
    pub verse_end: Option<u32>,
}

/// The text shown for a reference: "Book C", "Book C:V" or "Book C:V-W".
pub open spec fn reference_text(
    name: Seq<char>,
    chapter: u32,
    verse_start: Option<u32>,
    verse_end: Option<u32>,
) -> Seq<char> {
    let head = name + " "@ + decimal(chapter as nat);
    match (verse_start, verse_end) {
        (Some(s), Some(e)) => if s != e {
            head + ":"@ + decimal(s as nat) + "-"@ + decimal(e as nat)
        } else {
            head + ":"@ + decimal(s as nat)
        },
        (Some(s), None) => head + ":"@ + decimal(s as nat),
        _ => head,
    }
}

impl TorahReference {
    pub open spec fn spec_text(self) -> Seq<char> {
        reference_text(self.book.name@, self.chapter, self.verse_start, self.verse_end)
    }

    /// The reference as text: "Exodus 3:14", "Deuteronomy 6:4-9" or "Genesis 1".
    pub fn display(&self) -> (r: String)
        ensures
            r@ == self.spec_text(),
    {
        let mut s = String::new();
        push_str(&mut s, self.book.name);
        push_char(&mut s, ' ');
        push_decimal(&mut s, self.chapter as u64);
        let ghost head = s@;
        assert(head =~= self.book.name@ + " "@ + decimal(self.chapter as nat)) by {
            reveal_strlit(" ");
        }
        match (self.verse_start, self.verse_end) {
            (Some(start), Some(end)) => {
                push_char(&mut s, ':');
                push_decimal(&mut s, start as u64);
                if start != end {
                    push_char(&mut s, '-');
                    push_decimal(&mut s, end as u64);
                }
            },
            (Some(start), None) => {
                push_char(&mut s, ':');
                push_decimal(&mut s, start as u64);
            },
            _ => {},
        }
        proof {
            reveal_strlit(":");
            reveal_strlit("-");
            assert(s@ =~= self.spec_text());
        }
        s
    }
}

// ---------------------------------------------------------------------------
// Splitting "Book rest" into the book name and the location.
/// Where the scan over the book name starts, or `None` when a leading digit is
/// followed by neither a letter nor a space (the whole input is then the location).
pub open spec fn scan_start(cs: Seq<char>) -> Option<int> {
    if cs.len() > 0 && is_digit(cs[0]) && cs[0] != '0' {
        if 1 < cs.len() && (alphabetic(cs[1]) || cs[1] == ' ') {
            if cs[1] == ' ' {
                Some(2)
            } else {
                Some(1)
            }
        } else {
            None
        }
    } else {
        Some(0)
    }
}

pub open spec fn name_char(c: char) -> bool {
    alphabetic(c) || c == ' ' || c == '.'
}

/// Where the book name ends: the scan moves over letters, spaces and dots and
/// stops before a space that is followed by a digit.
pub open spec fn scan_end(cs: Seq<char>, i: int) -> int
    decreases cs.len() - i,
{
    if 0 <= i < cs.len() && name_char(cs[i]) {
        if i + 1 < cs.len() && cs[i] == ' ' && is_digit(cs[i + 1]) {
            i
        } else {
            scan_end(cs, i + 1)
        }
    } else {
        i
    }
}

/// The character count at which the text is cut, when the scan has a start.
/// The scan counts characters, and the text is cut at that count taken as a
/// byte offset; `None` when that offset falls inside a character.
pub open spec fn cut_index(cs: Seq<char>, start: int) -> Option<int> {
    char_index_at_byte(cs, scan_end(cs, start))
}

/// Splitting `cs` takes a defined course (the cut falls on a character boundary).
pub open spec fn split_defined(cs: Seq<char>) -> bool {
    match scan_start(cs) {
        None => true,
        Some(st) => cut_index(cs, st) is Some,
    }
}

/// The result of splitting `cs` into (book name, location).
pub open spec fn split_spec(cs: Seq<char>) -> Result<(Seq<char>, Seq<char>), Seq<char>> {
    match scan_start(cs) {
        None => Ok((Seq::empty(), cs)),
        Some(st) => {
            let k = cut_index(cs, st)->0;
            let b = trim(cs.subrange(0, k));
            if b.len() == 0 {
                Err("No book name found"@)
            } else {
                Ok((b, trim(cs.subrange(k, cs.len() as int))))
            }
        },
    }
}

/// Where the split happens.
enum Cut {
    /// No book part: the whole text is the location.
    Whole,
    /// Cut after this many characters.
    At(usize),
    /// The cut would fall inside a character.
    Inside,
}

fn is_ascii_digit(c: char) -> (r: bool)
    ensures
        r == is_digit(c),
{
    '0' <= c && c <= '9'
}

fn find_cut(cs: &Vec<char>) -> (r: Cut)
    ensures
        match r {
            Cut::Whole => scan_start(cs@) is None,
            Cut::At(k) => scan_start(cs@) matches Some(st) && cut_index(cs@, st) == Some(k as int)
                && k <= cs@.len(),
            Cut::Inside => scan_start(cs@) matches Some(st) && cut_index(cs@, st) is None,
        },
{
    let len = cs.len();
    let mut i: usize = 0;
    if i < len && is_ascii_digit(cs[0]) && cs[0] != '0' {
        i = 1;
        if i < len && (is_alphabetic(cs[1]) || cs[1] == ' ') {
            if cs[1] == ' ' {
                i = 2;
            }
        } else {
            return Cut::Whole;
        }
    }
    let ghost start = i as int;
    assert(scan_start(cs@) == Some(start));
    let mut going = true;
    while going
        invariant
            len == cs.len(),
            start <= i <= len,
            scan_end(cs@, i as int) == scan_end(cs@, start),
            !going ==> scan_end(cs@, i as int) == i,
        decreases len - i + (if going {
            1int
        } else {
            0int
        }),
    {
        if i < len && (is_alphabetic(cs[i]) || cs[i] == ' ' || cs[i] == '.') {
            if i + 1 < len && cs[i] == ' ' && is_ascii_digit(cs[i + 1]) {
                going = false;
            } else {
                i = i + 1;
            }
        } else {
            going = false;
        }
    }
    proof {
        crate::text::lemma_char_index_at_byte(cs@, i as int);
    }
    match char_at_byte(cs, i) {
        Some(k) => Cut::At(k),
        None => Cut::Inside,
    }
}

/// Split a reference into its book name and its location ("3:16", "3" or empty).
pub fn split_book_and_location(input: &str) -> (r: Result<(String, String), String>)
    requires
        split_defined(input@),
    ensures
        match (r, split_spec(input@)) {
            (Ok((b, l)), Ok((sb, sl))) => b@ == sb && l@ == sl,
            (Err(e), Err(se)) => e@ == se,
            _ => false,
        },
{
    let cs = chars_of(input);
    match find_cut(&cs) {
        Cut::Whole => Ok((String::new(), string_from(input))),
        Cut::At(k) => {
            let (a, b) = trim_bounds(&cs, 0, k);
            if a == b {
                Err(string_from("No book name found"))
            } else {
                let book = string_of_range(&cs, a, b);
                let (c, d) = trim_bounds(&cs, k, cs.len());
                let rest = string_of_range(&cs, c, d);
                Ok((book, rest))
            }
        },
        Cut::Inside => {
            assert(false);
            Err(String::new())
        },
    }
}

// ---------------------------------------------------------------------------
// Chapter and verse.
pub open spec fn invalid_chapter(s: Seq<char>) -> Seq<char> {
    "Invalid chapter number: '"@ + s + "'"@
}

pub open spec fn invalid_verse(s: Seq<char>) -> Seq<char> {
    "Invalid verse number: '"@ + s + "'"@
}

/// "3:16", "3:16-18" or "3" read as (chapter, first verse, last verse).
pub open spec fn chapter_verse_spec(input: Seq<char>) -> Result<
    (u32, Option<u32>, Option<u32>),
    Seq<char>,
> {
    let t = trim(input);
    match first_index_of(t, ':') {
        Some(p) => {
            let cs = t.subrange(0, p);
            let vp = t.subrange(p + 1, t.len() as int);
            match parse_u32_spec(trim(cs)) {
                None => Err(invalid_chapter(cs)),
                Some(ch) => match first_index_of(vp, '-') {
                    Some(q) => {
                        let ss = vp.subrange(0, q);
                        let es = vp.subrange(q + 1, vp.len() as int);
                        match parse_u32_spec(trim(ss)) {
                            None => Err(invalid_verse(ss)),
                            Some(a) => match parse_u32_spec(trim(es)) {
                                None => Err(invalid_verse(es)),
                                Some(b) => Ok((ch, Some(a), Some(b))),
                            },
                        }
                    },
                    None => match parse_u32_spec(trim(vp)) {
                        None => Err(invalid_verse(vp)),
                        Some(v) => Ok((ch, Some(v), Some(v))),
                    },
                },
            }
        },
        None => match parse_u32_spec(t) {
            None => Err(invalid_chapter(t)),
            Some(c) => Ok((c, None, None)),
        },
    }
}

/// The message `prefix + v[from..to] + "'"`.
fn quoted_message(prefix: &str, v: &Vec<char>, from: usize, to: usize) -> (r: String)
    requires
        from <= to <= v.len(),
    ensures
        r@ == prefix@ + v@.subrange(from as int, to as int) + "'"@,
{
    let mut s = string_from(prefix);
    let body = string_of_range(v, from, to);
    push_str(&mut s, body.as_str());
    push_str(&mut s, "'");
    s
}

/// The value of `v[from..to]` after trimming, as std's `u32::from_str` reads it.
fn parse_trimmed(v: &Vec<char>, from: usize, to: usize) -> (r: Option<u32>)
    requires
        from <= to <= v.len(),
    ensures
        r == parse_u32_spec(trim(v@.subrange(from as int, to as int))),
{
    let (a, b) = trim_bounds(v, from, to);
    parse_u32_range(v, a, b)
}

/// Parse "3:16", "3:16-18" or "3" into (chapter, first verse, last verse).
pub fn parse_chapter_verse(input: &str) -> (r: Result<(u32, Option<u32>, Option<u32>), String>)
    ensures
        match (r, chapter_verse_spec(input@)) {
            (Ok(x), Ok(y)) => x == y,
            (Err(e), Err(se)) => e@ == se,
            _ => false,
        },
{
    let v = chars_of(input);
    let (a, b) = trim_bounds(&v, 0, v.len());
    let ghost t = v@.subrange(a as int, b as int);
    assert(v@.subrange(0, v@.len() as int) =~= input@);
    assert(trim(input@) == t);
    match find_char(&v, a, b, ':') {
        Some(p) => {
            proof {
                crate::text::lemma_first_index_of(t, ':');
            }
            let ghost pp = p - a;
            assert(t.subrange(0, pp) =~= v@.subrange(a as int, p as int));
            assert(t.subrange(pp + 1, t.len() as int) =~= v@.subrange(p + 1, b as int));
            let chapter = match parse_trimmed(&v, a, p) {
                Some(c) => c,
                None => {
                    return Err(quoted_message("Invalid chapter number: '", &v, a, p));
                },
            };
            match find_char(&v, p + 1, b, '-') {
                Some(q) => {
                    let ghost vp = v@.subrange(p + 1, b as int);
                    proof {
                        crate::text::lemma_first_index_of(vp, '-');
                    }
                    let ghost qq = q - (p + 1);
                    assert(vp.subrange(0, qq) =~= v@.subrange(p + 1, q as int));
                    assert(vp.subrange(qq + 1, vp.len() as int) =~= v@.subrange(q + 1, b as int));
                    let start = match parse_trimmed(&v, p + 1, q) {
                        Some(x) => x,
                        None => {
                            return Err(quoted_message("Invalid verse number: '", &v, p + 1, q));
                        },
                    };
                    let end = match parse_trimmed(&v, q + 1, b) {
                        Some(x) => x,
                        None => {
                            return Err(quoted_message("Invalid verse number: '", &v, q + 1, b));
                        },
                    };
                    Ok((chapter, Some(start), Some(end)))
                },
                None => {
                    let verse = match parse_trimmed(&v, p + 1, b) {
                        Some(x) => x,
                        None => {
                            return Err(quoted_message("Invalid verse number: '", &v, p + 1, b));
                        },
                    };
                    Ok((chapter, Some(verse), Some(verse)))
                },
            }
        },
        None => {
            match parse_u32_range(&v, a, b) {
                Some(c) => Ok((c, None, None)),
                None => Err(quoted_message("Invalid chapter number: '", &v, a, b)),
            }
        },
    }
}

// ---------------------------------------------------------------------------
// Whole references.
pub open spec fn unknown_book(b: Seq<char>) -> Seq<char> {
    "Unknown book: '"@ + b + "'"@
}

pub open spec fn chapter_out_of_range(name: Seq<char>, chapters: u32, chapter: u32) -> Seq<char> {
    name + " has "@ + decimal(chapters as nat) + " chapters, but chapter "@ + decimal(
        chapter as nat,
    ) + " was requested"@
}

/// Parsing `input` takes a defined course: the text is empty after trimming, or
/// its book part can be cut off on a character boundary.
pub open spec fn parse_defined(input: Seq<char>) -> bool {
    trim(input).len() == 0 || split_defined(trim(input))
}

/// The reference `input` denotes, as (book index, chapter, first verse, last verse),
/// or the message it is refused with.
pub open spec fn parse_spec(input: Seq<char>) -> Result<(int, u32, Option<u32>, Option<u32>), Seq<char>> {
    let t = trim(input);
    if t.len() == 0 {
        Err("Empty reference"@)
    } else {
        match split_spec(t) {
            Err(e) => Err(e),
            Ok((b, rest)) => match normalized_book(b) {
                None => Err(unknown_book(b)),
                Some(i) => if rest.len() == 0 {
                    Ok((i, 1u32, None, None))
                } else {
                    match chapter_verse_spec(rest) {
                        Err(e) => Err(e),
                        Ok((c, vs, ve)) => if c == 0 || c > book_chapters(i) {
                            Err(chapter_out_of_range(book_name(i), book_chapters(i), c))
                        } else {
                            Ok((i, c, vs, ve))
                        },
                    }
                },
            },
        }
    }
}

/// `r` is the reference (book index, chapter, first verse, last verse) that `m` describes.
pub open spec fn denotes(r: TorahReference, m: (int, u32, Option<u32>, Option<u32>)) -> bool {
    &&& r.book.is_book(m.0)
    &&& r.chapter == m.1
    &&& r.verse_start == m.2
    &&& r.verse_end == m.3
}

pub open spec fn parse_agrees(
    r: Result<TorahReference, String>,
    s: Result<(int, u32, Option<u32>, Option<u32>), Seq<char>>,
) -> bool {
    match (r, s) {
        (Ok(x), Ok(m)) => denotes(x, m),
        (Err(e), Err(se)) => e@ == se,
        _ => false,
    }
}

fn chapter_range_message(book: &BookInfo, chapter: u32) -> (r: String)
    ensures
        r@ == chapter_out_of_range(book.name@, book.chapters, chapter),
{
    let mut s = string_from(book.name);
    push_str(&mut s, " has ");
    push_decimal(&mut s, book.chapters as u64);
    push_str(&mut s, " chapters, but chapter ");
    push_decimal(&mut s, chapter as u64);
    push_str(&mut s, " was requested");
    s
}

/// Parse a Torah reference: "Genesis 1:1", "Exodus 3:1-5", "Genesis 1" (the whole
/// chapter), "Deut 6:4-9" (abbreviated book) or "gen1:1" (no space).
pub fn parse(input: &str) -> (r: Result<TorahReference, String>)
    requires
        parse_defined(input@),
    ensures
        parse_agrees(r, parse_spec(input@)),
{
    let v = chars_of(input);
    let (a, b) = trim_bounds(&v, 0, v.len());
    assert(v@.subrange(0, v@.len() as int) =~= input@);
    if a == b {
        return Err(string_from("Empty reference"));
    }
    let t = string_of_range(&v, a, b);
    let (book_str, rest) = match split_book_and_location(t.as_str()) {
        Ok(x) => x,
        Err(e) => {
            return Err(e);
        },
    };
    let book = match normalize_book(book_str.as_str()) {
        Some(bk) => bk,
        None => {
            let mut m = string_from("Unknown book: '");
            push_str(&mut m, book_str.as_str());
            push_str(&mut m, "'");
            return Err(m);
        },
    };
    let ghost i = normalized_book(book_str@)->0;
    if rest.unicode_len() == 0 {
        return Ok(TorahReference { book, chapter: 1, verse_start: None, verse_end: None });
    }
    let (chapter, verse_start, verse_end) = match parse_chapter_verse(rest.as_str()) {
        Ok(x) => x,
        Err(e) => {
            return Err(e);
        },
    };
    if chapter == 0 || chapter > book.chapters {
        return Err(chapter_range_message(&book, chapter));
    }
    Ok(TorahReference { book, chapter, verse_start, verse_end })
}

/// Parse a reference, or `None` for the inputs on which `parse` is not defined:
/// those where the book part would be cut inside a multi-byte character.
pub fn parse_checked(input: &str) -> (r: Option<Result<TorahReference, String>>)
    ensures
        r is None <==> !parse_defined(input@),
        r matches Some(x) ==> parse_agrees(x, parse_spec(input@)),
{
    let v = chars_of(input);
    let (a, b) = trim_bounds(&v, 0, v.len());
    assert(v@.subrange(0, v@.len() as int) =~= input@);
    if a < b {
        let t = string_of_range(&v, a, b);
        let tv = chars_of(t.as_str());
        if let Cut::Inside = find_cut(&tv) {
            return None;
        }
    }
    Some(parse(input))
}

// ---------------------------------------------------------------------------
// Reading back what `display` writes.
/// A reference as `parse` can produce it: a book of the table, one of its
/// chapters, and either no verse or both a first and a last verse.
pub open spec fn well_formed(m: (int, u32, Option<u32>, Option<u32>)) -> bool {
    &&& 0 <= m.0 < BOOK_COUNT
    &&& 1 <= m.1 <= book_chapters(m.0)
    &&& (m.2 is Some <==> m.3 is Some)
}

/// The text `display` writes for `m`.
pub open spec fn text_of(m: (int, u32, Option<u32>, Option<u32>)) -> Seq<char> {
    reference_text(book_name(m.0), m.1, m.2, m.3)
}

/// The location part of the text: the chapter and what follows it.
pub open spec fn location_text(chapter: u32, vs: Option<u32>, ve: Option<u32>) -> Seq<char> {
    match (vs, ve) {
        (Some(s), Some(e)) => if s != e {
            decimal(chapter as nat) + ":"@ + decimal(s as nat) + "-"@ + decimal(e as nat)
        } else {
            decimal(chapter as nat) + ":"@ + decimal(s as nat)
        },
        _ => decimal(chapter as nat),
    }
}

proof fn lemma_scan_over_name(cs: Seq<char>, k: int, n: int)
    requires
        0 <= k <= n,
        n + 1 < cs.len(),
        forall|j: int| k <= j < n ==> alphabetic(#[trigger] cs[j]) && cs[j] != ' ',
        cs[n] == ' ',
        is_digit(cs[n + 1]),
    ensures
        scan_end(cs, k) == n,
    decreases n - k,
{
    if k < n {
        assert(alphabetic(cs[k]) && cs[k] != ' ');
        lemma_scan_over_name(cs, k + 1, n);
    }
}

proof fn lemma_location_reads_back(chapter: u32, vs: Option<u32>, ve: Option<u32>)
    requires
        vs is Some <==> ve is Some,
    ensures
        chapter_verse_spec(location_text(chapter, vs, ve)) == Ok::<
            (u32, Option<u32>, Option<u32>),
            Seq<char>,
        >((chapter, vs, ve)),
        location_text(chapter, vs, ve).len() > 0,
        is_digit(location_text(chapter, vs, ve)[0]),
        is_digit(location_text(chapter, vs, ve).last()),
        forall|j: int|
            0 <= j < location_text(chapter, vs, ve).len() ==> {
                let c = #[trigger] location_text(chapter, vs, ve)[j];
                is_digit(c) || c == ':' || c == '-'
            },
{
    reveal_strlit(":");
    reveal_strlit("-");
    let d = decimal(chapter as nat);
    lemma_decimal(chapter as nat);
    lemma_parse_decimal(chapter);
    let r = location_text(chapter, vs, ve);
    assert(r[0] == d[0]);
    lemma_trim_fixed(r);
    assert(trim(r) == r);
    match (vs, ve) {
        (Some(s), Some(e)) => {
            let ds = decimal(s as nat);
            lemma_decimal(s as nat);
            lemma_parse_decimal(s);
            assert forall|j: int| 0 <= j < d.len() implies r[j] != ':' by {
                assert(r[j] == d[j]);
            }
            assert(r[d.len() as int] == ':');
            lemma_first_index_at(r, ':', d.len() as int);
            assert(r.subrange(0, d.len() as int) =~= d);
            if s != e {
                let de = decimal(e as nat);
                lemma_decimal(e as nat);
                lemma_parse_decimal(e);
                let vp = r.subrange(d.len() + 1int, r.len() as int);
                assert(vp =~= ds + "-"@ + de);
                assert forall|j: int| 0 <= j < ds.len() implies vp[j] != '-' by {
                    assert(vp[j] == ds[j]);
                }
                assert(vp[ds.len() as int] == '-');
                lemma_first_index_at(vp, '-', ds.len() as int);
                assert(vp.subrange(0, ds.len() as int) =~= ds);
                assert(vp.subrange(ds.len() + 1int, vp.len() as int) =~= de);
                assert(r.last() == de.last());
                assert forall|j: int| 0 <= j < r.len() implies {
                    let c = #[trigger] r[j];
                    is_digit(c) || c == ':' || c == '-'
                } by {
                    if j < d.len() {
                        assert(r[j] == d[j]);
                    } else if j > d.len() && j < d.len() + 1 + ds.len() {
                        assert(r[j] == ds[j - d.len() - 1]);
                    } else if j > d.len() + 1 + ds.len() {
                        assert(r[j] == de[j - d.len() - 2 - ds.len()]);
                    }
                }
            } else {
                let vp = r.subrange(d.len() + 1int, r.len() as int);
                assert(vp =~= ds);
                lemma_first_index_none(vp, '-');
                assert(r.last() == ds.last());
                assert forall|j: int| 0 <= j < r.len() implies {
                    let c = #[trigger] r[j];
                    is_digit(c) || c == ':' || c == '-'
                } by {
                    if j < d.len() {
                        assert(r[j] == d[j]);
                    } else if j > d.len() {
                        assert(r[j] == ds[j - d.len() - 1]);
                    }
                }
            }
        },
        _ => {
            assert(r == d);
            lemma_first_index_none(r, ':');
        },
    }
}

/// Reading back the text `display` writes for a well-formed reference gives that
/// reference: `parse(display(r)) == r`. Stated under `table_case_facts`, which
/// `check_table_case` establishes by asking std about the table's names.
pub proof fn parse_reads_back_display(m: (int, u32, Option<u32>, Option<u32>))
    requires
        table_case_facts(),
        well_formed(m),
    ensures
        parse_defined(text_of(m)),
        parse_spec(text_of(m)) == Ok::<(int, u32, Option<u32>, Option<u32>), Seq<char>>(m),
{
    reveal_strlit(" ");
    let (i, chapter, vs, ve) = m;
    let name = book_name(i);
    let n = name.len() as int;
    lemma_book_name(i);
    let loc = location_text(chapter, vs, ve);
    lemma_location_reads_back(chapter, vs, ve);
    let text = text_of(m);
    assert(text =~= name + " "@ + loc) by {
        reveal_strlit(":");
        reveal_strlit("-");
    }
    // trimming leaves the text as it is
    assert(text[0] == name[0]);
    assert(text.last() == loc.last());
    lemma_trim_fixed(text);
    // every character is ASCII
    assert forall|j: int| 0 <= j < text.len() implies (#[trigger] text[j] as u32) < 0x80 by {
        if j < n {
            assert(text[j] == name[j]);
            assert(is_ascii_letter(name[j]));
        } else if j > n {
            assert(text[j] == loc[j - n - 1]);
        }
    }
    // the scan stops after the name
    assert(scan_start(text) == Some(0int));
    assert forall|j: int| 0 <= j < n implies alphabetic(#[trigger] text[j]) && text[j] != ' ' by {
        assert(text[j] == name[j]);
        assert(is_ascii_letter(name[j]));
        assert(crate::unicode::is_ascii_char(text[j]));
    }
    assert(text[n + 1] == loc[0]);
    lemma_scan_over_name(text, 0, n);
    // the cut falls after the name's characters
    lemma_char_index_at_byte(text, n);
    assert forall|k: int| 0 <= k <= text.len() implies crate::text::utf8_len(
        #[trigger] text.subrange(0, k),
    ) == k by {
        assert forall|j: int| 0 <= j < text.subrange(0, k).len() implies (#[trigger] text.subrange(
            0,
            k,
        )[j] as u32) < 0x80 by {
            assert(text.subrange(0, k)[j] == text[j]);
        }
        lemma_ascii_utf8_len(text.subrange(0, k));
    }
    assert(text.subrange(0, n) =~= name);
    assert(cut_index(text, 0) == Some(n));
    // the book part and the location part
    lemma_trim_fixed(name);
    let tail = text.subrange(n, text.len() as int);
    assert(tail.drop_first() =~= loc);
    assert(trim_start(tail) == trim_start(loc));
    lemma_trim_fixed(loc);
    assert(trim(tail) == loc);
    assert(split_spec(text) == Ok::<(Seq<char>, Seq<char>), Seq<char>>((name, loc)));
    // the book
    assert(is_ascii_seq(name));
    let l = ascii_lower_seq(name);
    assert forall|j: int| 0 <= j < l.len() implies #[trigger] l[j] != '.' by {
        assert(is_ascii_letter(name[j]));
    }
    lemma_remove_dots_none(l);
    lemma_name_selects(l, i);
    assert(normalized_book(name) == Some(i));
}

/// What `parse` accepts it reads as a well-formed reference, and the text
/// `display` writes for that reference reads back the same:
/// `parse(display(parse(s))) == parse(s)`. Stated under `table_case_facts`, which
/// `check_table_case` establishes.
pub proof fn display_of_parse_reads_back(input: Seq<char>)
    requires
        table_case_facts(),
        parse_spec(input) is Ok,
    ensures
        well_formed(parse_spec(input)->Ok_0),
        parse_spec(text_of(parse_spec(input)->Ok_0)) == parse_spec(input),
{
    let t = trim(input);
    let (b, rest) = split_spec(t)->Ok_0;
    let i = normalized_book(b)->0;
    crate::text::lemma_first_hit(|j: int| crate::books::name_hit(crate::books::book_key(b), j), BOOK_COUNT as int);
    crate::text::lemma_first_hit(|j: int| crate::books::abbrev_hit(crate::books::book_key(b), j), BOOK_COUNT as int);
    crate::text::lemma_first_hit(|j: int| crate::books::prefix_hit(crate::books::book_key(b), j), BOOK_COUNT as int);
    assert(0 <= i < BOOK_COUNT);
    let m = parse_spec(input)->Ok_0;
    assert(well_formed(m));
    parse_reads_back_display(m);
}

proof fn lemma_scan_end_bounds(cs: Seq<char>, i: int)
    requires
        0 <= i <= cs.len(),
    ensures
        i <= scan_end(cs, i) <= cs.len(),
    decreases cs.len() - i,
{
    if 0 <= i < cs.len() && name_char(cs[i]) && !(i + 1 < cs.len() && cs[i] == ' ' && is_digit(
        cs[i + 1],
    )) {
        lemma_scan_end_bounds(cs, i + 1);
    }
}

/// Parsing is defined on every ASCII text: the book part is cut inside a
/// character only when the text holds characters of more than one byte.
pub proof fn parse_defined_on_ascii(input: Seq<char>)
    requires
        is_ascii_seq(input),
    ensures
        parse_defined(input),
{
    let t = trim(input);
    if t.len() > 0 {
        crate::text::lemma_trim_within(input);
        assert forall|k: int| 0 <= k <= t.len() implies crate::text::utf8_len(
            #[trigger] t.subrange(0, k),
        ) == k by {
            assert forall|j: int| 0 <= j < t.subrange(0, k).len() implies (#[trigger] t.subrange(
                0,
                k,
            )[j] as u32) < 0x80 by {
                assert(t.subrange(0, k)[j] == t[j]);
                assert(input.contains(t[j]));
                let w = choose|w: int| 0 <= w < input.len() && input[w] == t[j];
                assert(crate::unicode::is_ascii_char(input[w]));
            }
            lemma_ascii_utf8_len(t.subrange(0, k));
        }
        match scan_start(t) {
            Some(st) => {
                lemma_scan_end_bounds(t, st);
                let e = scan_end(t, st);
                lemma_char_index_at_byte(t, e);
                assert(crate::text::utf8_len(t.subrange(0, e)) == e);
            },
            None => {},
        }
    }
}

// ---------------------------------------------------------------------------
// Reading back chapter and verse numbers.
/// `w` is whitespace only.
pub open spec fn all_ws(w: Seq<char>) -> bool {
    forall|i: int| 0 <= i < w.len() ==> is_ws(#[trigger] w[i])
}

proof fn lemma_trim_start_skips(w: Seq<char>, y: Seq<char>)
    requires
        all_ws(w),
    ensures
        trim_start(w + y) == trim_start(y),
    decreases w.len(),
{
    if w.len() == 0 {
        assert(w + y =~= y);
    } else {
        assert((w + y)[0] == w[0]);
        assert((w + y).drop_first() =~= w.drop_first() + y);
        assert(all_ws(w.drop_first())) by {
            assert forall|i: int| 0 <= i < w.drop_first().len() implies is_ws(
                #[trigger] w.drop_first()[i],
            ) by {
                assert(w.drop_first()[i] == w[i + 1]);
            }
        }
        lemma_trim_start_skips(w.drop_first(), y);
    }
}

proof fn lemma_trim_end_skips(x: Seq<char>, w: Seq<char>)
    requires
        all_ws(w),
    ensures
        crate::text::trim_end(x + w) == crate::text::trim_end(x),
    decreases w.len(),
{
    if w.len() == 0 {
        assert(x + w =~= x);
    } else {
        assert((x + w).last() == w.last());
        assert(is_ws(w[w.len() - 1]));
        assert((x + w).drop_last() =~= x + w.drop_last());
        assert(all_ws(w.drop_last())) by {
            assert forall|i: int| 0 <= i < w.drop_last().len() implies is_ws(
                #[trigger] w.drop_last()[i],
            ) by {
                assert(w.drop_last()[i] == w[i]);
            }
        }
        lemma_trim_end_skips(x, w.drop_last());
    }
}

/// Whitespace around a text that starts and ends with something else is trimmed away.
proof fn lemma_trim_padded(w1: Seq<char>, x: Seq<char>, w2: Seq<char>)
    requires
        all_ws(w1),
        all_ws(w2),
        x.len() > 0,
        !is_ws(x[0]),
        !is_ws(x.last()),
    ensures
        trim(w1 + x + w2) == x,
{
    assert(w1 + x + w2 =~= w1 + (x + w2));
    lemma_trim_start_skips(w1, x + w2);
    assert((x + w2)[0] == x[0]);
    assert(trim_start(x + w2) == x + w2);
    lemma_trim_end_skips(x, w2);
    lemma_trim_fixed(x);
}

proof fn lemma_empty_ws()
    ensures
        all_ws(Seq::<char>::empty()),
{
}

/// A chapter number alone, with any whitespace around it, reads back as that
/// chapter and no verses.
pub proof fn chapter_reads_back(c: u32, w0: Seq<char>, w1: Seq<char>)
    requires
        all_ws(w0),
        all_ws(w1),
    ensures
        chapter_verse_spec(w0 + decimal(c as nat) + w1) == Ok::<
            (u32, Option<u32>, Option<u32>),
            Seq<char>,
        >((c, None, None)),
{
    let d = decimal(c as nat);
    lemma_decimal(c as nat);
    lemma_parse_decimal(c);
    assert(is_digit(d[0]) && is_digit(d.last()));
    lemma_trim_padded(w0, d, w1);
    assert forall|j: int| 0 <= j < d.len() implies d[j] != ':' by {
        assert(is_digit(d[j]));
    }
    lemma_first_index_none(d, ':');
}

/// "c:a", with any whitespace around the numbers, reads back as chapter `c`
/// and the single verse `a`.
pub proof fn verse_reads_back(
    c: u32,
    a: u32,
    w0: Seq<char>,
    w1: Seq<char>,
    w2: Seq<char>,
    w3: Seq<char>,
)
    requires
        all_ws(w0),
        all_ws(w1),
        all_ws(w2),
        all_ws(w3),
    ensures
        chapter_verse_spec(w0 + decimal(c as nat) + w1 + ":"@ + w2 + decimal(a as nat) + w3)
            == Ok::<(u32, Option<u32>, Option<u32>), Seq<char>>((c, Some(a), Some(a))),
{
    reveal_strlit(":");
    let dc = decimal(c as nat);
    let da = decimal(a as nat);
    lemma_decimal(c as nat);
    lemma_decimal(a as nat);
    lemma_parse_decimal(c);
    lemma_parse_decimal(a);
    let x = dc + w1 + ":"@ + w2 + da;
    assert(w0 + dc + w1 + ":"@ + w2 + da + w3 =~= w0 + x + w3);
    assert(x[0] == dc[0]);
    assert(x.last() == da.last());
    assert(is_digit(dc[0]) && is_digit(da.last()));
    lemma_trim_padded(w0, x, w3);
    let p = (dc.len() + w1.len()) as int;
    assert forall|j: int| 0 <= j < p implies x[j] != ':' by {
        if j < dc.len() {
            assert(x[j] == dc[j]);
            assert(is_digit(dc[j]));
        } else {
            assert(x[j] == w1[j - dc.len()]);
            assert(is_ws(w1[j - dc.len()]));
        }
    }
    assert(x[p] == ':');
    lemma_first_index_at(x, ':', p);
    assert(x.subrange(0, p) =~= Seq::<char>::empty() + dc + w1);
    lemma_empty_ws();
    lemma_trim_padded(Seq::<char>::empty(), dc, w1);
    let vp = x.subrange(p + 1, x.len() as int);
    assert(vp =~= w2 + da + Seq::<char>::empty());
    assert forall|j: int| 0 <= j < vp.len() implies vp[j] != '-' by {
        if j < w2.len() {
            assert(vp[j] == w2[j]);
            assert(is_ws(w2[j]));
        } else {
            assert(vp[j] == da[j - w2.len()]);
            assert(is_digit(da[j - w2.len()]));
        }
    }
    lemma_first_index_none(vp, '-');
    lemma_trim_padded(w2, da, Seq::<char>::empty());
}

/// "c:a-b", with any whitespace around the numbers (as in " c : a - b "), reads
/// back as chapter `c` and the verses `a` to `b`.
pub proof fn verse_range_reads_back(
    c: u32,
    a: u32,
    b: u32,
    w0: Seq<char>,
    w1: Seq<char>,
    w2: Seq<char>,
    w3: Seq<char>,
    w4: Seq<char>,
    w5: Seq<char>,
)
    requires
        all_ws(w0),
        all_ws(w1),
        all_ws(w2),
        all_ws(w3),
        all_ws(w4),
        all_ws(w5),
    ensures
        chapter_verse_spec(
            w0 + decimal(c as nat) + w1 + ":"@ + w2 + decimal(a as nat) + w3 + "-"@ + w4 + decimal(
                b as nat,
            ) + w5,
        ) == Ok::<(u32, Option<u32>, Option<u32>), Seq<char>>((c, Some(a), Some(b))),
{
    reveal_strlit(":");
    reveal_strlit("-");
    let dc = decimal(c as nat);
    let da = decimal(a as nat);
    let db = decimal(b as nat);
    lemma_decimal(c as nat);
    lemma_decimal(a as nat);
    lemma_decimal(b as nat);
    lemma_parse_decimal(c);
    lemma_parse_decimal(a);
    lemma_parse_decimal(b);
    let x = dc + w1 + ":"@ + w2 + da + w3 + "-"@ + w4 + db;
    assert(w0 + dc + w1 + ":"@ + w2 + da + w3 + "-"@ + w4 + db + w5 =~= w0 + x + w5);
    assert(x[0] == dc[0]);
    assert(x.last() == db.last());
    assert(is_digit(dc[0]) && is_digit(db.last()));
    lemma_trim_padded(w0, x, w5);
    let p = (dc.len() + w1.len()) as int;
    assert forall|j: int| 0 <= j < p implies x[j] != ':' by {
        if j < dc.len() {
            assert(x[j] == dc[j]);
            assert(is_digit(dc[j]));
        } else {
            assert(x[j] == w1[j - dc.len()]);
            assert(is_ws(w1[j - dc.len()]));
        }
    }
    assert(x[p] == ':');
    lemma_first_index_at(x, ':', p);
    assert(x.subrange(0, p) =~= Seq::<char>::empty() + dc + w1);
    lemma_empty_ws();
    lemma_trim_padded(Seq::<char>::empty(), dc, w1);
    let vp = x.subrange(p + 1, x.len() as int);
    assert(vp =~= w2 + da + w3 + "-"@ + w4 + db);
    let q = (w2.len() + da.len() + w3.len()) as int;
    assert forall|j: int| 0 <= j < q implies vp[j] != '-' by {
        if j < w2.len() {
            assert(vp[j] == w2[j]);
            assert(is_ws(w2[j]));
        } else if j < w2.len() + da.len() {
            assert(vp[j] == da[j - w2.len()]);
            assert(is_digit(da[j - w2.len()]));
        } else {
            assert(vp[j] == w3[j - w2.len() - da.len()]);
            assert(is_ws(w3[j - w2.len() - da.len()]));
        }
    }
    assert(vp[q] == '-');
    lemma_first_index_at(vp, '-', q);
    assert(vp.subrange(0, q) =~= w2 + da + w3);
    lemma_trim_padded(w2, da, w3);
    assert(vp.subrange(q + 1, vp.len() as int) =~= w4 + db + Seq::<char>::empty());
    lemma_trim_padded(w4, db, Seq::<char>::empty());
}

} // verus!
