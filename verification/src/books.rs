//! The five books of the Torah and the lookup of a book by a name a reader types.
use vstd::prelude::*;
use vstd::string::*;
use crate::text::{is_prefix, first_hit, lemma_first_hit, lemma_first_hit_unique, utf8_len, utf8_width, lemma_utf8_len_mono, chars_of, string_from, trim, trim_bounds, string_of_range, string_of};
use crate::unicode::{
    ascii_lower, ascii_lower_seq, is_ascii_char, is_ascii_letter, is_ascii_seq, lowercase_of, to_lowercase,
    alphabetic, is_alphabetic,
};

verus! {

/// A book of the Torah with its common abbreviations.
#[derive(Debug, Clone, Copy)]
pub struct BookInfo {
    pub name: &'static str,
    pub abbrevs: &'static [&'static str],
    pub id: u32,
    pub chapters: u32,
}

/// Number of books in the table.
pub const BOOK_COUNT: usize = 5;

pub open spec fn book_name(i: int) -> Seq<char> {
    if i == 0 {
        "Genesis"@
    } else if i == 1 {
        "Exodus"@
    } else if i == 2 {
        "Leviticus"@
    } else if i == 3 {
        "Numbers"@
    } else {
        "Deuteronomy"@
    }
}

pub open spec fn book_abbrevs(i: int) -> Seq<Seq<char>> {
    if i == 0 {
        seq!["gen"@, "ge"@, "gn"@, "bere"@, "bereshit"@]
    } else if i == 1 {
        seq!["exo"@, "ex"@, "exod"@, "shem"@, "shemot"@]
    } else if i == 2 {
        seq!["lev"@, "le"@, "lv"@, "vay"@, "vayikra"@]
    } else if i == 3 {
        seq!["num"@, "nu"@, "nm"@, "nb"@, "bam"@, "bamidbar"@]
    } else {
        seq!["deu"@, "de"@, "dt"@, "deut"@, "dev"@, "devarim"@]
    }
}

pub open spec fn book_chapters(i: int) -> u32 {
    if i == 0 {
        50
    } else if i == 1 {
        40
    } else if i == 2 {
        27
    } else if i == 3 {
        36
    } else {
        34
    }
}

impl BookInfo {
    /// The abbreviations as character sequences.
    pub open spec fn abbrev_views(self) -> Seq<Seq<char>> {
        self.abbrevs@.map_values(|a: &str| a@)
    }

    /// This is the `i`-th book of the table (counting from 0).
    pub open spec fn is_book(self, i: int) -> bool {
        &&& 0 <= i < BOOK_COUNT
        &&& self.name@ == book_name(i)
        &&& self.abbrev_views() == book_abbrevs(i)
        &&& self.id == i + 1
        &&& self.chapters == book_chapters(i)
    }
}

/// The table of books, in canonical order.
pub fn books() -> (r: Vec<BookInfo>)
    ensures
        r.len() == BOOK_COUNT,
        forall|i: int| 0 <= i < BOOK_COUNT ==> (#[trigger] r[i]).is_book(i),
{
    let b0 = BookInfo {
        name: "Genesis",
        abbrevs: &["gen", "ge", "gn", "bere", "bereshit"],
        id: 1,
        chapters: 50,
    };
    let b1 = BookInfo {
        name: "Exodus",
        abbrevs: &["exo", "ex", "exod", "shem", "shemot"],
        id: 2,
        chapters: 40,
    };
    let b2 = BookInfo {
        name: "Leviticus",
        abbrevs: &["lev", "le", "lv", "vay", "vayikra"],
        id: 3,
        chapters: 27,
    };
    let b3 = BookInfo {
        name: "Numbers",
        abbrevs: &["num", "nu", "nm", "nb", "bam", "bamidbar"],
        id: 4,
        chapters: 36,
    };
    let b4 = BookInfo {
        name: "Deuteronomy",
        abbrevs: &["deu", "de", "dt", "deut", "dev", "devarim"],
        id: 5,
        chapters: 34,
    };
    assert(b0.abbrev_views() =~= book_abbrevs(0));
    assert(b1.abbrev_views() =~= book_abbrevs(1));
    assert(b2.abbrev_views() =~= book_abbrevs(2));
    assert(b3.abbrev_views() =~= book_abbrevs(3));
    assert(b4.abbrev_views() =~= book_abbrevs(4));
    let mut r: Vec<BookInfo> = Vec::new();
    r.push(b0);
    r.push(b1);
    r.push(b2);
    r.push(b3);
    r.push(b4);
    r
}

/// The lowercased full name of book `i` is `key`.
pub open spec fn name_hit(key: Seq<char>, i: int) -> bool {
    lowercase_of(book_name(i)) == key
}

/// `key` is one of the abbreviations of book `i`.
pub open spec fn abbrev_hit(key: Seq<char>, i: int) -> bool {
    book_abbrevs(i).contains(key)
}

/// `key` begins the lowercased full name of book `i`.
pub open spec fn prefix_hit(key: Seq<char>, i: int) -> bool {
    is_prefix(key, lowercase_of(book_name(i)))
}

/// The book a normalized key selects: a full name first, then an abbreviation,
/// then (for keys of at least three bytes) the start of a full name; in each
/// step the first book in table order wins.
pub open spec fn book_choice(key: Seq<char>) -> Option<int> {
    match first_hit(|i: int| name_hit(key, i), BOOK_COUNT as int) {
        Some(i) => Some(i),
        None => match first_hit(|i: int| abbrev_hit(key, i), BOOK_COUNT as int) {
            Some(i) => Some(i),
            None => if utf8_len(key) >= 3 {
                first_hit(|i: int| prefix_hit(key, i), BOOK_COUNT as int)
            } else {
                None
            },
        },
    }
}

/// `s` with every `.` removed.
pub open spec fn remove_dots(s: Seq<char>) -> Seq<char>
    decreases s.len(),
{
    if s.len() == 0 {
        s
    } else if s.last() == '.' {
        remove_dots(s.drop_last())
    } else {
        remove_dots(s.drop_last()).push(s.last())
    }
}

/// The key a typed book name is looked up by: trimmed, lowercased, without dots.
pub open spec fn book_key(input: Seq<char>) -> Seq<char> {
    remove_dots(lowercase_of(trim(input)))
}

/// The book that `input` names, if any.
pub open spec fn normalized_book(input: Seq<char>) -> Option<int> {
    book_choice(book_key(input))
}

/// The answer `r` is the book `choice` points at.
pub open spec fn is_choice(r: Option<BookInfo>, choice: Option<int>) -> bool {
    match (r, choice) {
        (Some(b), Some(i)) => b.is_book(i),
        (None, None) => true,
        _ => false,
    }
}

/// `a` and `b` hold the same characters.
pub fn same_text(a: &str, b: &str) -> (r: bool)
    ensures
        r == (a@ == b@),
{
    let x = string_from(a);
    let y = string_from(b);
    x == y
}

/// `p` is a prefix of `s`.
pub fn starts_with(s: &str, p: &str) -> (r: bool)
    ensures
        r == is_prefix(p@, s@),
{
    let sv = chars_of(s);
    let pv = chars_of(p);
    if pv.len() > sv.len() {
        return false;
    }
    let mut i: usize = 0;
    while i < pv.len()
        invariant
            pv@ == p@,
            sv@ == s@,
            pv.len() <= sv.len(),
            i <= pv.len(),
            forall|j: int| 0 <= j < i ==> sv@[j] == pv@[j],
        decreases pv.len() - i,
    {
        if sv[i] != pv[i] {
            assert(s@.subrange(0, p@.len() as int)[i as int] != p@[i as int]);
            return false;
        }
        i = i + 1;
    }
    assert(s@.subrange(0, p@.len() as int) =~= p@);
    true
}

/// The UTF-8 encoding of `s` takes at least three bytes.
pub fn at_least_three_bytes(s: &str) -> (r: bool)
    ensures
        r == (utf8_len(s@) >= 3),
{
    let v = chars_of(s);
    let mut total: u32 = 0;
    let mut i: usize = 0;
    while i < v.len() && total < 3
        invariant
            v@ == s@,
            i <= v.len(),
            total == utf8_len(v@.subrange(0, i as int)),
        decreases v.len() - i,
    {
        let c = v[i];
        let w: u32 = if (c as u32) < 0x80 {
            1
        } else if (c as u32) < 0x800 {
            2
        } else if (c as u32) < 0x10000 {
            3
        } else {
            4
        };
        assert(v@.subrange(0, i + 1).drop_last() =~= v@.subrange(0, i as int));
        total = total + w;
        i = i + 1;
    }
    proof {
        if total >= 3 {
            lemma_utf8_len_mono(v@, i as int);
        } else {
            assert(v@.subrange(0, i as int) =~= v@);
        }
    }
    total >= 3
}

/// `s` with every `.` removed.
pub fn without_dots(s: &str) -> (r: String)
    ensures
        r@ == remove_dots(s@),
{
    let v = chars_of(s);
    let mut out: Vec<char> = Vec::new();
    let mut i: usize = 0;
    while i < v.len()
        invariant
            v@ == s@,
            i <= v.len(),
            out@ == remove_dots(v@.subrange(0, i as int)),
        decreases v.len() - i,
    {
        assert(v@.subrange(0, i + 1).drop_last() =~= v@.subrange(0, i as int));
        if v[i] != '.' {
            out.push(v[i]);
        }
        i = i + 1;
    }
    assert(v@.subrange(0, v@.len() as int) =~= v@);
    string_of(&out)
}

/// The book that a normalized key (already trimmed, lowercased and without dots)
/// selects: an exact full name, else an abbreviation, else, for keys of at least
/// three bytes, the start of a full name.
#[verifier::loop_isolation(false)]
pub fn match_book(key: &str) -> (r: Option<BookInfo>)
    ensures
        is_choice(r, book_choice(key@)),
{
    let bs = books();
    let ghost k = key@;
    let ghost name_p = |i: int| name_hit(k, i);
    let ghost abbrev_p = |i: int| abbrev_hit(k, i);
    let ghost prefix_p = |i: int| prefix_hit(k, i);
    let mut i: usize = 0;
    while i < BOOK_COUNT
        invariant
            bs.len() == BOOK_COUNT,
            forall|j: int| 0 <= j < BOOK_COUNT ==> (#[trigger] bs[j]).is_book(j),
            i <= BOOK_COUNT,
            forall|j: int| 0 <= j < i ==> !#[trigger] name_p(j),
        decreases BOOK_COUNT - i,
    {
        let lower = to_lowercase(bs[i].name);
        if same_text(lower.as_str(), key) {
            proof {
                assert(name_p(i as int));
                lemma_first_hit_unique(name_p, BOOK_COUNT as int, i as int);
            }
            return Some(bs[i]);
        }
        i = i + 1;
    }
    proof {
        lemma_first_hit(name_p, BOOK_COUNT as int);
    }
    let mut i: usize = 0;
    while i < BOOK_COUNT
        invariant
            bs.len() == BOOK_COUNT,
            forall|j: int| 0 <= j < BOOK_COUNT ==> (#[trigger] bs[j]).is_book(j),
            first_hit(name_p, BOOK_COUNT as int) is None,
            i <= BOOK_COUNT,
            forall|j: int| 0 <= j < i ==> !#[trigger] abbrev_p(j),
        decreases BOOK_COUNT - i,
    {
        let abbrevs = bs[i].abbrevs;
        let mut j: usize = 0;
        while j < abbrevs.len()
            invariant
                abbrevs@.map_values(|a: &str| a@) == book_abbrevs(i as int),
                j <= abbrevs@.len(),
                forall|m: int| 0 <= m < j ==> book_abbrevs(i as int)[m] != k,
            decreases abbrevs@.len() - j,
        {
            if same_text(abbrevs[j], key) {
                proof {
                    assert(abbrevs@.map_values(|a: &str| a@)[j as int] == abbrevs@[j as int]@);
                    assert(book_abbrevs(i as int)[j as int] == k);
                    assert(abbrev_p(i as int));
                    lemma_first_hit_unique(abbrev_p, BOOK_COUNT as int, i as int);
                }
                return Some(bs[i]);
            }
            j = j + 1;
        }
        assert(!book_abbrevs(i as int).contains(k));
        assert(!abbrev_p(i as int));
        i = i + 1;
    }
    proof {
        lemma_first_hit(abbrev_p, BOOK_COUNT as int);
    }
    if at_least_three_bytes(key) {
        let mut i: usize = 0;
        while i < BOOK_COUNT
            invariant
                bs.len() == BOOK_COUNT,
                forall|j: int| 0 <= j < BOOK_COUNT ==> (#[trigger] bs[j]).is_book(j),
                i <= BOOK_COUNT,
                forall|j: int| 0 <= j < i ==> !#[trigger] prefix_p(j),
            decreases BOOK_COUNT - i,
        {
            let lower = to_lowercase(bs[i].name);
            if starts_with(lower.as_str(), key) {
                proof {
                    assert(prefix_p(i as int));
                    lemma_first_hit_unique(prefix_p, BOOK_COUNT as int, i as int);
                }
                return Some(bs[i]);
            }
            i = i + 1;
        }
        proof {
            lemma_first_hit(prefix_p, BOOK_COUNT as int);
        }
    }
    proof {
        assert(name_p =~= (|i: int| name_hit(key@, i)));
        assert(abbrev_p =~= (|i: int| abbrev_hit(key@, i)));
        assert(prefix_p =~= (|i: int| prefix_hit(key@, i)));
    }
    None
}

/// Normalize a book name a reader typed to the book it names: the input is
/// trimmed, lowercased and stripped of dots, then looked up by full name,
/// abbreviation and name prefix, in that order.
pub fn normalize_book(input: &str) -> (r: Option<BookInfo>)
    ensures
        is_choice(r, normalized_book(input@)),
{
    let v = chars_of(input);
    let (a, b) = trim_bounds(&v, 0, v.len());
    assert(v@.subrange(0, v@.len() as int) =~= input@);
    let trimmed = string_of_range(&v, a, b);
    let lower = to_lowercase(trimmed.as_str());
    let key = without_dots(lower.as_str());
    match_book(key.as_str())
}

// ---------------------------------------------------------------------------
// Facts about the table.
/// The names and abbreviations of the table, spelled out character by character.
pub proof fn lemma_table_spelled()
    ensures
        book_name(0) == seq!['G', 'e', 'n', 'e', 's', 'i', 's'],
        book_name(1) == seq!['E', 'x', 'o', 'd', 'u', 's'],
        book_name(2) == seq!['L', 'e', 'v', 'i', 't', 'i', 'c', 'u', 's'],
        book_name(3) == seq!['N', 'u', 'm', 'b', 'e', 'r', 's'],
        book_name(4) == seq!['D', 'e', 'u', 't', 'e', 'r', 'o', 'n', 'o', 'm', 'y'],
        book_abbrevs(0) == seq![seq!['g', 'e', 'n'], seq!['g', 'e'], seq!['g', 'n'], seq!['b', 'e', 'r', 'e'], seq!['b', 'e', 'r', 'e', 's', 'h', 'i', 't']],
        book_abbrevs(1) == seq![seq!['e', 'x', 'o'], seq!['e', 'x'], seq!['e', 'x', 'o', 'd'], seq!['s', 'h', 'e', 'm'], seq!['s', 'h', 'e', 'm', 'o', 't']],
        book_abbrevs(2) == seq![seq!['l', 'e', 'v'], seq!['l', 'e'], seq!['l', 'v'], seq!['v', 'a', 'y'], seq!['v', 'a', 'y', 'i', 'k', 'r', 'a']],
        book_abbrevs(3) == seq![seq!['n', 'u', 'm'], seq!['n', 'u'], seq!['n', 'm'], seq!['n', 'b'], seq!['b', 'a', 'm'], seq!['b', 'a', 'm', 'i', 'd', 'b', 'a', 'r']],
        book_abbrevs(4) == seq![seq!['d', 'e', 'u'], seq!['d', 'e'], seq!['d', 't'], seq!['d', 'e', 'u', 't'], seq!['d', 'e', 'v'], seq!['d', 'e', 'v', 'a', 'r', 'i', 'm']],
{
    reveal_strlit("Genesis");
    reveal_strlit("Exodus");
    reveal_strlit("Leviticus");
    reveal_strlit("Numbers");
    reveal_strlit("Deuteronomy");
    reveal_strlit("gen");
    reveal_strlit("ge");
    reveal_strlit("gn");
    reveal_strlit("bere");
    reveal_strlit("bereshit");
    reveal_strlit("exo");
    reveal_strlit("ex");
    reveal_strlit("exod");
    reveal_strlit("shem");
    reveal_strlit("shemot");
    reveal_strlit("lev");
    reveal_strlit("le");
    reveal_strlit("lv");
    reveal_strlit("vay");
    reveal_strlit("vayikra");
    reveal_strlit("num");
    reveal_strlit("nu");
    reveal_strlit("nm");
    reveal_strlit("nb");
    reveal_strlit("bam");
    reveal_strlit("bamidbar");
    reveal_strlit("deu");
    reveal_strlit("de");
    reveal_strlit("dt");
    reveal_strlit("deut");
    reveal_strlit("dev");
    reveal_strlit("devarim");
    assert(book_name(0) =~= seq!['G', 'e', 'n', 'e', 's', 'i', 's']);
    assert(book_name(1) =~= seq!['E', 'x', 'o', 'd', 'u', 's']);
    assert(book_name(2) =~= seq!['L', 'e', 'v', 'i', 't', 'i', 'c', 'u', 's']);
    assert(book_name(3) =~= seq!['N', 'u', 'm', 'b', 'e', 'r', 's']);
    assert(book_name(4) =~= seq!['D', 'e', 'u', 't', 'e', 'r', 'o', 'n', 'o', 'm', 'y']);
    assert(book_abbrevs(0)[0] =~= seq!['g', 'e', 'n']);
    assert(book_abbrevs(0)[1] =~= seq!['g', 'e']);
    assert(book_abbrevs(0)[2] =~= seq!['g', 'n']);
    assert(book_abbrevs(0)[3] =~= seq!['b', 'e', 'r', 'e']);
    assert(book_abbrevs(0)[4] =~= seq!['b', 'e', 'r', 'e', 's', 'h', 'i', 't']);
    assert(book_abbrevs(0) =~= seq![seq!['g', 'e', 'n'], seq!['g', 'e'], seq!['g', 'n'], seq!['b', 'e', 'r', 'e'], seq!['b', 'e', 'r', 'e', 's', 'h', 'i', 't']]);
    assert(book_abbrevs(1)[0] =~= seq!['e', 'x', 'o']);
    assert(book_abbrevs(1)[1] =~= seq!['e', 'x']);
    assert(book_abbrevs(1)[2] =~= seq!['e', 'x', 'o', 'd']);
    assert(book_abbrevs(1)[3] =~= seq!['s', 'h', 'e', 'm']);
    assert(book_abbrevs(1)[4] =~= seq!['s', 'h', 'e', 'm', 'o', 't']);
    assert(book_abbrevs(1) =~= seq![seq!['e', 'x', 'o'], seq!['e', 'x'], seq!['e', 'x', 'o', 'd'], seq!['s', 'h', 'e', 'm'], seq!['s', 'h', 'e', 'm', 'o', 't']]);
    assert(book_abbrevs(2)[0] =~= seq!['l', 'e', 'v']);
    assert(book_abbrevs(2)[1] =~= seq!['l', 'e']);
    assert(book_abbrevs(2)[2] =~= seq!['l', 'v']);
    assert(book_abbrevs(2)[3] =~= seq!['v', 'a', 'y']);
    assert(book_abbrevs(2)[4] =~= seq!['v', 'a', 'y', 'i', 'k', 'r', 'a']);
    assert(book_abbrevs(2) =~= seq![seq!['l', 'e', 'v'], seq!['l', 'e'], seq!['l', 'v'], seq!['v', 'a', 'y'], seq!['v', 'a', 'y', 'i', 'k', 'r', 'a']]);
    assert(book_abbrevs(3)[0] =~= seq!['n', 'u', 'm']);
    assert(book_abbrevs(3)[1] =~= seq!['n', 'u']);
    assert(book_abbrevs(3)[2] =~= seq!['n', 'm']);
    assert(book_abbrevs(3)[3] =~= seq!['n', 'b']);
    assert(book_abbrevs(3)[4] =~= seq!['b', 'a', 'm']);
    assert(book_abbrevs(3)[5] =~= seq!['b', 'a', 'm', 'i', 'd', 'b', 'a', 'r']);
    assert(book_abbrevs(3) =~= seq![seq!['n', 'u', 'm'], seq!['n', 'u'], seq!['n', 'm'], seq!['n', 'b'], seq!['b', 'a', 'm'], seq!['b', 'a', 'm', 'i', 'd', 'b', 'a', 'r']]);
    assert(book_abbrevs(4)[0] =~= seq!['d', 'e', 'u']);
    assert(book_abbrevs(4)[1] =~= seq!['d', 'e']);
    assert(book_abbrevs(4)[2] =~= seq!['d', 't']);
    assert(book_abbrevs(4)[3] =~= seq!['d', 'e', 'u', 't']);
    assert(book_abbrevs(4)[4] =~= seq!['d', 'e', 'v']);
    assert(book_abbrevs(4)[5] =~= seq!['d', 'e', 'v', 'a', 'r', 'i', 'm']);
    assert(book_abbrevs(4) =~= seq![seq!['d', 'e', 'u'], seq!['d', 'e'], seq!['d', 't'], seq!['d', 'e', 'u', 't'], seq!['d', 'e', 'v'], seq!['d', 'e', 'v', 'a', 'r', 'i', 'm']]);
}

/// The full names are ASCII letters, start with a capital and are at least six long.
pub proof fn lemma_book_name(i: int)
    requires
        0 <= i < BOOK_COUNT,
    ensures
        book_name(i).len() >= 6,
        forall|j: int| 0 <= j < book_name(i).len() ==> is_ascii_letter(#[trigger] book_name(i)[j]),
        'A' <= book_name(i)[0] <= 'Z',
{
    lemma_table_spelled();
}

/// No two full names start with the same letter, whatever its case.
pub proof fn lemma_book_initials(i: int, j: int)
    requires
        0 <= i < BOOK_COUNT,
        0 <= j < BOOK_COUNT,
        i != j,
    ensures
        ascii_lower(book_name(i)[0]) != ascii_lower(book_name(j)[0]),
{
    lemma_table_spelled();
}

pub proof fn lemma_remove_dots_none(s: Seq<char>)
    requires
        forall|j: int| 0 <= j < s.len() ==> #[trigger] s[j] != '.',
    ensures
        remove_dots(s) == s,
    decreases s.len(),
{
    if s.len() > 0 {
        assert forall|j: int| 0 <= j < s.drop_last().len() implies #[trigger] s.drop_last()[j] != '.' by {
            assert(s.drop_last()[j] == s[j]);
        }
        lemma_remove_dots_none(s.drop_last());
        assert(s.last() == s[s.len() - 1]);
        assert(s.drop_last().push(s.last()) =~= s);
    }
}

/// What std says of the table's text: the lowercase of every full name and of
/// every abbreviation is its ASCII lowercase, and every character of every full
/// name is a letter. `check_table_case` settles it by asking std.
pub open spec fn table_case_facts() -> bool {
    &&& forall|j: int|
        0 <= j < BOOK_COUNT ==> #[trigger] lowercase_of(book_name(j)) == ascii_lower_seq(book_name(j))
    &&& forall|j: int, k: int|
        0 <= j < BOOK_COUNT && 0 <= k < book_name(j).len() ==> alphabetic(#[trigger] book_name(j)[k])
    &&& forall|j: int, k: int|
        0 <= j < BOOK_COUNT && 0 <= k < book_abbrevs(j).len() ==> #[trigger] lowercase_of(
            book_abbrevs(j)[k],
        ) == ascii_lower_seq(book_abbrevs(j)[k])
}

/// Asks std for the lowercase of every name and abbreviation of the table and
/// tests every character of every full name for being a letter, so that
/// `table_case_facts` holds afterwards.
pub fn check_table_case()
    ensures
        table_case_facts(),
{
    let bs = books();
    let mut i: usize = 0;
    while i < BOOK_COUNT
        invariant
            bs.len() == BOOK_COUNT,
            forall|j: int| 0 <= j < BOOK_COUNT ==> (#[trigger] bs[j]).is_book(j),
            i <= BOOK_COUNT,
            forall|j: int|
                0 <= j < i ==> #[trigger] lowercase_of(book_name(j)) == ascii_lower_seq(book_name(j)),
            forall|j: int, k: int|
                0 <= j < i && 0 <= k < book_name(j).len() ==> alphabetic(#[trigger] book_name(j)[k]),
            forall|j: int, k: int|
                0 <= j < i && 0 <= k < book_abbrevs(j).len() ==> #[trigger] lowercase_of(
                    book_abbrevs(j)[k],
                ) == ascii_lower_seq(book_abbrevs(j)[k]),
        decreases BOOK_COUNT - i,
    {
        proof {
            lemma_book_name(i as int);
            lemma_abbrevs_ascii(i as int);
        }
        let b = bs[i];
        let name = b.name;
        assert(name@ == book_name(i as int));
        assert(is_ascii_seq(name@));
        let _lower = to_lowercase(name);
        let n = name.unicode_len();
        let mut k: usize = 0;
        while k < n
            invariant
                n == name@.len(),
                name@ == book_name(i as int),
                k <= n,
                forall|m: int|
                    0 <= m < book_name(i as int).len() ==> is_ascii_letter(
                        #[trigger] book_name(i as int)[m],
                    ),
                forall|m: int| 0 <= m < k ==> alphabetic(#[trigger] book_name(i as int)[m]),
            decreases n - k,
        {
            let c = name.get_char(k);
            assert(is_ascii_letter(book_name(i as int)[k as int]));
            let _letter = is_alphabetic(c);
            k = k + 1;
        }
        let abbrevs = b.abbrevs;
        let mut k: usize = 0;
        while k < abbrevs.len()
            invariant
                abbrevs@.map_values(|a: &str| a@) == book_abbrevs(i as int),
                k <= abbrevs@.len(),
                forall|m: int| 0 <= m < book_abbrevs(i as int).len() ==> is_ascii_seq(
                    #[trigger] book_abbrevs(i as int)[m],
                ),
                forall|m: int|
                    0 <= m < k ==> #[trigger] lowercase_of(book_abbrevs(i as int)[m])
                        == ascii_lower_seq(book_abbrevs(i as int)[m]),
            decreases abbrevs@.len() - k,
        {
            assert(abbrevs@.map_values(|a: &str| a@)[k as int] == abbrevs@[k as int]@);
            let _lower = to_lowercase(abbrevs[k]);
            k = k + 1;
        }
        i = i + 1;
    }
}

/// The abbreviations are non-empty runs of lowercase ASCII letters.
pub proof fn lemma_abbrevs_ascii(i: int)
    requires
        0 <= i < BOOK_COUNT,
    ensures
        forall|m: int| 0 <= m < book_abbrevs(i).len() ==> is_ascii_seq(#[trigger] book_abbrevs(i)[m]),
        forall|m: int, j: int|
            0 <= m < book_abbrevs(i).len() && 0 <= j < book_abbrevs(i)[m].len() ==> 'a' <= #[trigger] book_abbrevs(i)[m][j] <= 'z',
        forall|m: int| 0 <= m < book_abbrevs(i).len() ==> (#[trigger] book_abbrevs(i)[m]).len() > 0,
{
    lemma_table_spelled();
}

/// An ASCII text of letters whose lowercase is that of book `i`'s name selects book `i`.
pub proof fn lemma_name_selects(key: Seq<char>, i: int)
    requires
        table_case_facts(),
        0 <= i < BOOK_COUNT,
        key == ascii_lower_seq(book_name(i)),
    ensures
        book_choice(key) == Some(i),
{
    lemma_book_name(i);
    assert forall|j: int| 0 <= j < BOOK_COUNT && j != i implies !name_hit(key, j) by {
        lemma_book_name(j);
        lemma_book_initials(i, j);
        assert(crate::unicode::is_ascii_seq(book_name(j)));
        if name_hit(key, j) {
            assert(ascii_lower_seq(book_name(j))[0] == key[0]);
        }
    }
    assert(crate::unicode::is_ascii_seq(book_name(i)));
    assert(name_hit(key, i));
    lemma_first_hit_unique(|j: int| name_hit(key, j), BOOK_COUNT as int, i);
}

/// Every full name, typed as it stands in the table, selects its book.
pub proof fn full_name_selects_its_book(i: int)
    requires
        table_case_facts(),
        0 <= i < BOOK_COUNT,
    ensures
        normalized_book(book_name(i)) == Some(i),
{
    let n = book_name(i);
    lemma_book_name(i);
    crate::text::lemma_trim_fixed(n);
    assert(crate::unicode::is_ascii_seq(n));
    let l = ascii_lower_seq(n);
    assert forall|j: int| 0 <= j < l.len() implies #[trigger] l[j] != '.' by {
        assert(is_ascii_letter(n[j]));
    }
    lemma_remove_dots_none(l);
    lemma_name_selects(l, i);
}

proof fn lemma_lower_keeps_ws(c: char)
    requires
        is_ascii_char(c),
    ensures
        crate::text::is_ws(ascii_lower(c)) == crate::text::is_ws(c),
{
}

proof fn lemma_trim_start_lower(s: Seq<char>)
    requires
        is_ascii_seq(s),
    ensures
        crate::text::trim_start(ascii_lower_seq(s)) == ascii_lower_seq(crate::text::trim_start(s)),
    decreases s.len(),
{
    if s.len() > 0 {
        lemma_lower_keeps_ws(s[0]);
        assert(ascii_lower_seq(s)[0] == ascii_lower(s[0]));
        if crate::text::is_ws(s[0]) {
            assert(ascii_lower_seq(s).drop_first() =~= ascii_lower_seq(s.drop_first()));
            lemma_trim_start_lower(s.drop_first());
        }
    }
}

proof fn lemma_trim_end_lower(s: Seq<char>)
    requires
        is_ascii_seq(s),
    ensures
        crate::text::trim_end(ascii_lower_seq(s)) == ascii_lower_seq(crate::text::trim_end(s)),
    decreases s.len(),
{
    if s.len() > 0 {
        lemma_lower_keeps_ws(s.last());
        assert(ascii_lower_seq(s).last() == ascii_lower(s.last()));
        if crate::text::is_ws(s.last()) {
            assert(ascii_lower_seq(s).drop_last() =~= ascii_lower_seq(s.drop_last()));
            lemma_trim_end_lower(s.drop_last());
        }
    }
}

proof fn lemma_trim_start_ascii(s: Seq<char>)
    requires
        is_ascii_seq(s),
    ensures
        is_ascii_seq(crate::text::trim_start(s)),
    decreases s.len(),
{
    if s.len() > 0 && crate::text::is_ws(s[0]) {
        lemma_trim_start_ascii(s.drop_first());
    }
}

proof fn lemma_trim_end_ascii(s: Seq<char>)
    requires
        is_ascii_seq(s),
    ensures
        is_ascii_seq(crate::text::trim_end(s)),
    decreases s.len(),
{
    if s.len() > 0 && crate::text::is_ws(s.last()) {
        lemma_trim_end_ascii(s.drop_last());
    }
}

/// Looking a book up ignores ASCII case: two ASCII texts that differ only in the
/// case of their letters select the same book (or both none). Stated for texts
/// whose trimmed lowercase std gives as their ASCII lowercase, as `to_lowercase`
/// does for every ASCII text it is called on.
pub proof fn lookup_ignores_ascii_case(s: Seq<char>, t: Seq<char>)
    requires
        lowercase_of(trim(s)) == ascii_lower_seq(trim(s)),
        lowercase_of(trim(t)) == ascii_lower_seq(trim(t)),
        is_ascii_seq(s),
        is_ascii_seq(t),
        ascii_lower_seq(s) == ascii_lower_seq(t),
    ensures
        normalized_book(s) == normalized_book(t),
{
    lemma_trim_start_lower(s);
    lemma_trim_start_ascii(s);
    lemma_trim_end_lower(crate::text::trim_start(s));
    lemma_trim_end_ascii(crate::text::trim_start(s));
    lemma_trim_start_lower(t);
    lemma_trim_start_ascii(t);
    lemma_trim_end_lower(crate::text::trim_start(t));
    lemma_trim_end_ascii(crate::text::trim_start(t));
    assert(ascii_lower_seq(trim(s)) == trim(ascii_lower_seq(s)));
    assert(ascii_lower_seq(trim(t)) == trim(ascii_lower_seq(t)));
    assert(lowercase_of(trim(s)) == lowercase_of(trim(t)));
}

/// Every abbreviation in the table selects the book it is listed under.
pub proof fn abbreviation_selects_its_book(i: int, k: int)
    requires
        table_case_facts(),
        0 <= i < BOOK_COUNT,
        0 <= k < book_abbrevs(i).len(),
    ensures
        normalized_book(book_abbrevs(i)[k]) == Some(i),
{
    lemma_table_spelled();
    let a = book_abbrevs(i)[k];
    // the abbreviations are lowercase ASCII letters
    assert(is_ascii_seq(a));
    assert(a.len() > 0);
    assert forall|j: int| 0 <= j < a.len() implies 'a' <= #[trigger] a[j] <= 'z' by {}
    crate::text::lemma_trim_fixed(a);
    assert(ascii_lower_seq(a) =~= a);
    assert forall|j: int| 0 <= j < a.len() implies #[trigger] a[j] != '.' by {}
    lemma_remove_dots_none(a);
    assert(book_key(a) == a);
    // no full name matches
    assert forall|j: int| 0 <= j < BOOK_COUNT implies !name_hit(a, j) by {
        lemma_book_name(j);
        assert(is_ascii_seq(book_name(j)));
        if name_hit(a, j) {
            assert(ascii_lower_seq(book_name(j)) == a);
            assert(ascii_lower_seq(book_name(j)).len() == a.len());
            assert(ascii_lower_seq(book_name(j))[0] == a[0]);
            assert(ascii_lower_seq(book_name(j))[1] == a[1]);
            assert(ascii_lower_seq(book_name(j))[2] == a[2]);
        }
    }
    lemma_first_hit(|j: int| name_hit(a, j), BOOK_COUNT as int);
    // no earlier book lists it
    assert forall|j: int| 0 <= j < i implies !abbrev_hit(a, j) by {
        if book_abbrevs(j).contains(a) {
            let m = choose|m: int| 0 <= m < book_abbrevs(j).len() && book_abbrevs(j)[m] == a;
            assert(book_abbrevs(j)[m][0] == a[0]);
            assert(book_abbrevs(j)[m].len() == a.len());
            if a.len() > 1 {
                assert(book_abbrevs(j)[m][1] == a[1]);
            }
        }
    }
    assert(abbrev_hit(a, i));
    lemma_first_hit_unique(|j: int| abbrev_hit(a, j), BOOK_COUNT as int, i);
}

} // verus!
