//! Stripping markup from verse text.
use vstd::prelude::*;
use vstd::string::*;
use crate::books::same_text;
use crate::text::{lemma_trim_idempotent, lemma_trim_within, chars_of, is_ws, push_char, string_of_range, trim, trim_bounds, trim_end, trim_start};
use crate::unicode::{to_uppercase, uppercase_of};

verus! {

/// The state of the scan over a text: (inside a tag, inside a Strong's number,
/// the tag read so far, the text kept so far).
pub type HtmlScan = (bool, bool, Seq<char>, Seq<char>);

/// One step of the scan.
pub open spec fn html_step(st: HtmlScan, ch: char) -> HtmlScan {
    if ch == '<' {
        (true, st.1, Seq::empty(), st.3)
    } else if ch == '>' {
        let up = uppercase_of(st.2);
        let strongs = if up == "S"@ {
            true
        } else if up == "/S"@ {
            false
        } else {
            st.1
        };
        (false, strongs, Seq::empty(), st.3)
    } else if st.0 {
        (st.0, st.1, st.2.push(ch), st.3)
    } else if !st.1 {
        (st.0, st.1, st.2, st.3.push(ch))
    } else {
        st
    }
}

/// The scan after reading all of `s`.
pub open spec fn html_scan(s: Seq<char>) -> HtmlScan
    decreases s.len(),
{
    if s.len() == 0 {
        (false, false, Seq::empty(), Seq::empty())
    } else {
        html_step(html_scan(s.drop_last()), s.last())
    }
}

/// The text of `s` without tags and without Strong's numbers (`<S>1234</S>`), trimmed.
pub open spec fn clean_html_spec(s: Seq<char>) -> Seq<char> {
    trim(html_scan(s).3)
}

/// Strip HTML tags and Strong's concordance numbers (`<S>1234</S>`) from verse text.
/// Everything between `<` and `>` is dropped; text after a tag whose name is `S`
/// in any case is dropped up to a tag `/S`; the rest is trimmed.
pub fn clean_html(text: &str) -> (r: String)
    ensures
        r@ == clean_html_spec(text@),
{
    let v = chars_of(text);
    let mut out: Vec<char> = Vec::new();
    let mut in_tag = false;
    let mut in_strongs = false;
    let mut tag_name = String::new();
    let mut i: usize = 0;
    while i < v.len()
        invariant
            v@ == text@,
            i <= v.len(),
            html_scan(v@.subrange(0, i as int)) == (in_tag, in_strongs, tag_name@, out@),
        decreases v.len() - i,
    {
        let ch = v[i];
        assert(v@.subrange(0, i + 1).drop_last() =~= v@.subrange(0, i as int));
        if ch == '<' {
            in_tag = true;
            tag_name = String::new();
        } else if ch == '>' {
            in_tag = false;
            let up = to_uppercase(tag_name.as_str());
            if same_text(up.as_str(), "S") {
                in_strongs = true;
            } else if same_text(up.as_str(), "/S") {
                in_strongs = false;
            }
            tag_name = String::new();
        } else if in_tag {
            push_char(&mut tag_name, ch);
        } else if !in_strongs {
            out.push(ch);
        }
        i = i + 1;
    }
    assert(v@.subrange(0, v@.len() as int) =~= text@);
    let (a, b) = trim_bounds(&out, 0, out.len());
    assert(out@.subrange(0, out@.len() as int) =~= out@);
    string_of_range(&out, a, b)
}

/// `s` holds neither `<` nor `>`.
pub open spec fn no_markup(s: Seq<char>) -> bool {
    forall|i: int| 0 <= i < s.len() ==> #[trigger] s[i] != '<' && s[i] != '>'
}

proof fn lemma_scan_keeps_no_markup(s: Seq<char>)
    ensures
        no_markup(html_scan(s).3),
    decreases s.len(),
{
    if s.len() > 0 {
        lemma_scan_keeps_no_markup(s.drop_last());
    }
}

proof fn lemma_scan_plain(s: Seq<char>)
    requires
        no_markup(s),
    ensures
        html_scan(s) == (false, false, Seq::<char>::empty(), s),
    decreases s.len(),
{
    if s.len() > 0 {
        assert(no_markup(s.drop_last()));
        lemma_scan_plain(s.drop_last());
        assert(s.last() == s[s.len() - 1]);
        assert(s.drop_last().push(s.last()) =~= s);
    }
}

/// Cleaned text holds no `<` and no `>`.
pub proof fn clean_html_leaves_no_markup(s: Seq<char>)
    ensures
        no_markup(clean_html_spec(s)),
{
    let kept = html_scan(s).3;
    lemma_scan_keeps_no_markup(s);
    lemma_trim_within(kept);
    assert forall|i: int| 0 <= i < trim(kept).len() implies #[trigger] trim(kept)[i] != '<'
        && trim(kept)[i] != '>' by {
        assert(kept.contains(trim(kept)[i]));
    }
}

/// Text without markup is only trimmed.
pub proof fn clean_html_of_plain_text(s: Seq<char>)
    requires
        no_markup(s),
    ensures
        clean_html_spec(s) == trim(s),
{
    lemma_scan_plain(s);
}

/// Cleaning cleaned text changes nothing.
pub proof fn clean_html_idempotent(s: Seq<char>)
    ensures
        clean_html_spec(clean_html_spec(s)) == clean_html_spec(s),
{
    clean_html_leaves_no_markup(s);
    clean_html_of_plain_text(clean_html_spec(s));
    lemma_trim_idempotent(html_scan(s).3);
}

} // verus!
