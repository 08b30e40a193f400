//! The values the verse sources hand back.
use vstd::prelude::*;
use crate::text::{decimal, push_char, push_decimal, push_str, string_from};

verus! {

/// One verse of text.
#[derive(Debug, Clone)]
pub struct Verse {
    pub book: String,
    pub chapter: u32,
    pub verse: u32,
    pub text: String,
    pub translation: String,
}

/// A whole chapter.
#[derive(Debug, Clone)]
pub struct Chapter {
    pub book: String,
    pub chapter: u32,
    pub verses: Vec<Verse>,
    pub translation: String,
}

/// One hit of a search.
#[derive(Debug, Clone)]
pub struct SearchResult {
    pub book: String,
    pub chapter: u32,
    pub verse: u32,
    pub text: String,
    pub translation: String,
}

/// A verse as plain values: (book, chapter, verse, text, translation).
pub type VerseModel = (Seq<char>, u32, u32, Seq<char>, Seq<char>);

impl Verse {
    pub open spec fn model(self) -> VerseModel {
        (self.book@, self.chapter, self.verse, self.text@, self.translation@)
    }

    /// "Book C:V" for this verse.
    pub fn reference(&self) -> (r: String)
        ensures
            r@ == self.book@ + " "@ + decimal(self.chapter as nat) + ":"@ + decimal(
                self.verse as nat,
            ),
    {
        let mut s = string_from(self.book.as_str());
        push_str(&mut s, " ");
        push_decimal(&mut s, self.chapter as u64);
        push_str(&mut s, ":");
        push_decimal(&mut s, self.verse as u64);
        s
    }
}

impl SearchResult {
    pub open spec fn model(self) -> VerseModel {
        (self.book@, self.chapter, self.verse, self.text@, self.translation@)
    }
}

pub open spec fn verses_model(v: Seq<Verse>) -> Seq<VerseModel> {
    v.map_values(|x: Verse| x.model())
}

pub open spec fn results_model(v: Seq<SearchResult>) -> Seq<VerseModel> {
    v.map_values(|x: SearchResult| x.model())
}

/// The heading of a card that shows `verses`: the verse's reference for one
/// verse, "Book C:V-W" from the first and last verse for several.
pub open spec fn card_heading(verses: Seq<VerseModel>) -> Seq<char> {
    let first = verses[0];
    if verses.len() == 1 {
        first.0 + " "@ + decimal(first.1 as nat) + ":"@ + decimal(first.2 as nat)
    } else {
        first.0 + " "@ + decimal(first.1 as nat) + ":"@ + decimal(first.2 as nat) + "-"@
            + decimal(verses.last().2 as nat)
    }
}

/// The heading of a verse card for a non-empty run of verses.
pub fn card_reference(verses: &Vec<Verse>) -> (r: String)
    requires
        verses.len() > 0,
    ensures
        r@ == card_heading(verses_model(verses@)),
{
    let first = &verses[0];
    let ghost m = verses_model(verses@);
    assert(m[0] == first.model());
    if verses.len() == 1 {
        first.reference()
    } else {
        let last = &verses[verses.len() - 1];
        assert(m.last() == last.model());
        let mut s = first.reference();
        push_char(&mut s, '-');
        push_decimal(&mut s, last.verse as u64);
        proof {
            reveal_strlit("-");
        }
        assert(s@ =~= card_heading(m));
        s
    }
}

} // verus!
