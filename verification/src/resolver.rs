//! Serving verses from the bundled Torah text: the translation check and the
//! answers for looked-up text. The lookup in the bundled text hands its result
//! to these methods.
use vstd::prelude::*;
use crate::text::{chars_of, push_str, string_from};
use crate::types::{results_model, verses_model, Chapter, SearchResult, Verse};
use crate::unicode::{ascii_lower, ascii_lower_seq};

verus! {

/// Answers requests from the bundled text, which holds the TORAH translation only.
pub struct Resolver;

/// `t` equals "TORAH" ignoring ASCII case.
pub open spec fn is_torah(t: Seq<char>) -> bool {
    ascii_lower_seq(t) == "torah"@
}

/// The message for a translation this build does not hold.
pub open spec fn unsupported(t: Seq<char>) -> Seq<char> {
    "Unsupported translation '"@ + t + "'. This build supports TORAH only."@
}

fn lower_ascii(c: char) -> (r: char)
    ensures
        r == ascii_lower(c),
{
    if 'A' <= c && c <= 'Z' {
        ((c as u8) + 32) as char
    } else {
        c
    }
}

/// Whether `translation` is "TORAH" in any ASCII case (as `eq_ignore_ascii_case` decides).
pub fn is_torah_translation(translation: &str) -> (r: bool)
    ensures
        r == is_torah(translation@),
{
    let v = chars_of(translation);
    let want = "torah";
    proof {
        reveal_strlit("torah");
    }
    if v.len() != 5 {
        assert(ascii_lower_seq(translation@).len() != 5);
        return false;
    }
    let mut i: usize = 0;
    while i < 5
        invariant
            v@ == translation@,
            v.len() == 5,
            want@ == "torah"@,
            want@.len() == 5,
            i <= 5,
            forall|j: int| 0 <= j < i ==> ascii_lower(v@[j]) == want@[j],
        decreases 5 - i,
    {
        if lower_ascii(v[i]) != want.get_char(i) {
            assert(ascii_lower_seq(translation@)[i as int] != "torah"@[i as int]);
            return false;
        }
        i = i + 1;
    }
    assert(ascii_lower_seq(translation@) =~= "torah"@);
    true
}

fn unsupported_message(translation: &str) -> (r: String)
    ensures
        r@ == unsupported(translation@),
{
    let mut m = string_from("Unsupported translation '");
    push_str(&mut m, translation);
    push_str(&mut m, "'. This build supports TORAH only.");
    m
}

impl Resolver {
    pub fn new() -> (r: Self) {
        Resolver
    }

    /// One verse: refused for any translation but TORAH, missing when the lookup found nothing.
    pub fn get_verse(&self, translation: &str, found: Option<Verse>) -> (r: Result<Verse, String>)
        ensures
            !is_torah(translation@) ==> (r matches Err(e) && e@ == unsupported(translation@)),
            is_torah(translation@) ==> match found {
                Some(v) => r == Ok::<Verse, String>(v),
                None => r matches Err(e) && e@ == "Verse not found"@,
            },
    {
        if !is_torah_translation(translation) {
            return Err(unsupported_message(translation));
        }
        match found {
            Some(v) => Ok(v),
            None => Err(string_from("Verse not found")),
        }
    }

    /// One chapter: refused for any translation but TORAH, missing when the lookup found nothing.
    pub fn get_chapter(&self, translation: &str, found: Option<Chapter>) -> (r: Result<Chapter, String>)
        ensures
            !is_torah(translation@) ==> (r matches Err(e) && e@ == unsupported(translation@)),
            is_torah(translation@) ==> match found {
                Some(c) => r == Ok::<Chapter, String>(c),
                None => r matches Err(e) && e@ == "Chapter not found"@,
            },
    {
        if !is_torah_translation(translation) {
            return Err(unsupported_message(translation));
        }
        match found {
            Some(c) => Ok(c),
            None => Err(string_from("Chapter not found")),
        }
    }

    /// A run of verses: refused for any translation but TORAH, missing when the lookup found none.
    pub fn get_verse_range(&self, translation: &str, found: Vec<Verse>) -> (r: Result<Vec<Verse>, String>)
        ensures
            !is_torah(translation@) ==> (r matches Err(e) && e@ == unsupported(translation@)),
            is_torah(translation@) && found.len() == 0 ==> (r matches Err(e) && e@
                == "Verse range not found"@),
            is_torah(translation@) && found.len() > 0 ==> r == Ok::<Vec<Verse>, String>(found),
    {
        if !is_torah_translation(translation) {
            return Err(unsupported_message(translation));
        }
        if found.len() == 0 {
            return Err(string_from("Verse range not found"));
        }
        Ok(found)
    }

    /// Search hits: refused for any translation but TORAH.
    pub fn search(&self, translation: &str, found: Vec<SearchResult>) -> (r: Result<Vec<SearchResult>, String>)
        ensures
            !is_torah(translation@) ==> (r matches Err(e) && e@ == unsupported(translation@)),
            is_torah(translation@) ==> r == Ok::<Vec<SearchResult>, String>(found),
    {
        if !is_torah_translation(translation) {
            return Err(unsupported_message(translation));
        }
        Ok(found)
    }

    /// Localized book names: the bundled text has none, for any translation.
    pub fn get_book_names(&self, _translation: &str) -> (r: Result<Vec<String>, String>)
        ensures
            r matches Ok(v) && v.len() == 0,
    {
        Ok(Vec::new())
    }

    /// A random verse: refused for any translation but TORAH.
    pub fn get_random_verse(&self, translation: &str, found: Verse) -> (r: Result<Verse, String>)
        ensures
            !is_torah(translation@) ==> (r matches Err(e) && e@ == unsupported(translation@)),
            is_torah(translation@) ==> r == Ok::<Verse, String>(found),
    {
        if !is_torah_translation(translation) {
            return Err(unsupported_message(translation));
        }
        Ok(found)
    }
}

} // verus!
