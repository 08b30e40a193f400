use torah::html::clean_html;

#[test]
fn clean_html_drops_strongs_numbers() {
    assert_eq!(clean_html("In <S>7225</S>the beginning"), "In the beginning");
}

#[test]
fn clean_html_drops_tags_keeps_text() {
    assert_eq!(clean_html("Hello <i>world</i>!"), "Hello world!");
}

#[test]
fn clean_html_strongs_tag_in_lower_case() {
    // the tag name is compared after upper-casing it
    assert_eq!(clean_html("a<s>12</s>b"), "ab");
}

#[test]
fn clean_html_trims_plain_text() {
    assert_eq!(clean_html("  plain text \n"), "plain text");
}

#[test]
fn clean_html_is_idempotent_on_example() {
    let once = clean_html("  <p>God <S>430</S>said</p> ");
    assert_eq!(once, "God said");
    assert_eq!(clean_html(&once), once);
    assert!(!once.contains('<') && !once.contains('>'));
}

#[test]
fn clean_html_unclosed_strongs_hides_rest() {
    assert_eq!(clean_html("keep<S>drop everything"), "keep");
}
