//! Unicode case mapping and character classes, as std computes them.
use vstd::prelude::*;

verus! {

/// What std's `str::to_lowercase` returns for a string with these characters.
pub uninterp spec fn lowercase_of(s: Seq<char>) -> Seq<char>;

/// What std's `str::to_uppercase` returns for a string with these characters.
pub uninterp spec fn uppercase_of(s: Seq<char>) -> Seq<char>;

/// What std's `char::is_alphabetic` returns for `c`.
pub uninterp spec fn alphabetic(c: char) -> bool;

pub open spec fn is_ascii_char(c: char) -> bool {
    (c as u32) < 0x80
}

pub open spec fn is_ascii_seq(s: Seq<char>) -> bool {
    forall|i: int| 0 <= i < s.len() ==> is_ascii_char(#[trigger] s[i])
}

pub open spec fn is_ascii_letter(c: char) -> bool {
    ('a' <= c && c <= 'z') || ('A' <= c && c <= 'Z')
}

pub open spec fn ascii_lower(c: char) -> char {
    if 'A' <= c && c <= 'Z' {
        ((c as u32) + 32) as char
    } else {
        c
    }
}

pub open spec fn ascii_upper(c: char) -> char {
    if 'a' <= c && c <= 'z' {
        ((c as u32) - 32) as char
    } else {
        c
    }
}

pub open spec fn ascii_lower_seq(s: Seq<char>) -> Seq<char> {
    s.map_values(|c: char| ascii_lower(c))
}

pub open spec fn ascii_upper_seq(s: Seq<char>) -> Seq<char> {
    s.map_values(|c: char| ascii_upper(c))
}

/// std's `str::to_lowercase` (the Unicode lowercase mapping). Its result is named
/// `lowercase_of`. Claimed besides: on ASCII text the letters A-Z become a-z and
/// every other character stays, as the Unicode mapping does and as std's
/// `to_ascii_lowercase` documentation refers to it. The mapping of other
/// characters (which may change the length) is left unsaid.
#[verifier::external_body]
pub(crate) fn to_lowercase(s: &str) -> (r: String)
    ensures
        r@ == lowercase_of(s@),
        is_ascii_seq(s@) ==> r@ == ascii_lower_seq(s@),
{
    s.to_lowercase()
}

/// std's `str::to_uppercase` (the Unicode uppercase mapping). Its result is named
/// `uppercase_of`. Claimed besides: on ASCII text the letters a-z become A-Z and
/// every other character stays, as the Unicode mapping does. The mapping of other
/// characters (which may change the length, as sharp s becomes "SS") is left unsaid.
#[verifier::external_body]
pub(crate) fn to_uppercase(s: &str) -> (r: String)
    ensures
        r@ == uppercase_of(s@),
        is_ascii_seq(s@) ==> r@ == ascii_upper_seq(s@),
{
    s.to_uppercase()
}

/// std's `char::is_alphabetic` (the Unicode `Alphabetic` property). Its result is
/// named `alphabetic`. Claimed besides: among ASCII characters the property holds
/// of the letters a-z and A-Z alone. Which other characters have it is left unsaid.
#[verifier::external_body]
pub(crate) fn is_alphabetic(c: char) -> (r: bool)
    ensures
        r == alphabetic(c),
        is_ascii_char(c) ==> (r <==> is_ascii_letter(c)),
{
    c.is_alphabetic()
}

} // verus!
