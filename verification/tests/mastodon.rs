use trackit::mastodon::{
    find_links, find_url_start, grapheme_count, length_from_grapheme_counts, mastodon_char_count,
};

#[test]
fn grapheme_count_treats_combining_diacritic_as_one() {
    assert_eq!(grapheme_count("a\u{0308}"), 1);
}

#[test]
fn mastodon_char_count_plain_text_matches_naive_count() {
    let s = "Kommenden Samstag ist wieder Tech-Event, ohne Links heute.";
    assert_eq!(mastodon_char_count(s), 58);
}

#[test]
fn mastodon_char_count_single_url_counts_as_23() {
    assert_eq!(mastodon_char_count("Hello https://example.com world"), 35);
}

#[test]
fn mastodon_char_count_multiple_urls_each_counts_as_23() {
    assert_eq!(
        mastodon_char_count("See https://a.com and http://b.com"),
        55
    );
}

#[test]
fn mastodon_char_count_url_at_start_of_text() {
    assert_eq!(mastodon_char_count("https://a.com is great"), 32);
}

#[test]
fn mastodon_char_count_url_at_end_of_text_no_trailing_space() {
    assert_eq!(
        mastodon_char_count("Check this out: https://a.com/page"),
        39
    );
}

#[test]
fn mastodon_char_count_url_glued_to_trailing_punctuation_included_in_span() {
    assert_eq!(mastodon_char_count("Link: https://a.com/x, see more"), 38);
}

#[test]
fn mastodon_char_count_long_url_still_counts_as_23() {
    let s = format!("Anmeldung hier: https://{} vielen Dank", "a".repeat(50));
    assert_eq!(mastodon_char_count(&s), 51);
}

#[test]
fn mastodon_char_count_no_url_returns_plain_chars_count() {
    let s = "Über Rust und Größe – ohne Link.";
    assert_eq!(mastodon_char_count(s), grapheme_count(s));
}

#[test]
fn mastodon_char_count_combining_diacritic_counts_as_one_grapheme() {
    assert_eq!(mastodon_char_count("a\u{0308}bc"), 3);
}

#[test]
fn mastodon_char_count_emoji_with_modifier_counts_as_one_grapheme() {
    assert_eq!(mastodon_char_count("\u{1F44D}\u{1F3FD} toll"), 6);
}

#[test]
fn a_text_that_is_one_link_counts_23() {
    assert_eq!(mastodon_char_count("https://example.org/a/very/long/path/indeed"), 23);
    assert_eq!(mastodon_char_count("http://x"), 23);
}

#[test]
fn empty_text_counts_zero() {
    assert_eq!(mastodon_char_count(""), 0);
    assert_eq!(grapheme_count(""), 0);
}

#[test]
fn grapheme_count_differs_from_char_count() {
    assert_eq!(grapheme_count("\u{1F44D}\u{1F3FD}"), 1);
    assert_eq!(grapheme_count("abc"), 3);
}

#[test]
fn link_after_whitespace_other_than_space() {
    assert_eq!(mastodon_char_count("a\thttps://a.com\nb"), 27);
}

#[test]
fn find_url_start_takes_the_earlier_scheme() {
    assert_eq!(find_url_start("x https://a http://b"), Some(2));
    assert_eq!(find_url_start("x http://a https://b"), Some(2));
    assert_eq!(find_url_start("no links"), None);
    assert_eq!(find_url_start("ü http://a"), Some(3));
    assert_eq!(find_url_start("€€ https://a"), Some(7));
    assert_eq!(find_url_start("httpx://a"), None);
}

#[test]
fn find_links_gives_each_link_span_in_chars() {
    assert_eq!(find_links("See https://a.com and http://b.com"), vec![(4, 17), (22, 34)]);
    assert_eq!(find_links("ü http://a\tx"), vec![(2, 10)]);
    assert_eq!(find_links("no links here"), vec![]);
    assert_eq!(find_links(""), vec![]);
    assert_eq!(find_links("https://a.comhttps://b"), vec![(0, 22)]);
}

#[test]
fn length_from_counts_replaces_each_link_by_23() {
    assert_eq!(length_from_grapheme_counts(0, &[]), 0);
    assert_eq!(length_from_grapheme_counts(58, &[]), 58);
    assert_eq!(length_from_grapheme_counts(5, &[3]), 25);
    assert_eq!(length_from_grapheme_counts(31, &[19]), 35);
    assert_eq!(length_from_grapheme_counts(34, &[13, 12]), 55);
}

#[test]
fn length_from_counts_never_goes_below_zero() {
    assert_eq!(length_from_grapheme_counts(10, &[100]), 0);
    assert_eq!(length_from_grapheme_counts(0, &[24]), 0);
    assert_eq!(length_from_grapheme_counts(0, &[23]), 0);
    assert_eq!(length_from_grapheme_counts(1, &[23]), 1);
}

#[test]
fn length_from_counts_wraps_at_the_width_of_usize() {
    assert_eq!(length_from_grapheme_counts(usize::MAX, &[0]), 22);
    assert_eq!(length_from_grapheme_counts(usize::MAX, &[23]), usize::MAX);
}

#[test]
fn link_length_does_not_change_the_count_of_an_ascii_text() {
    let short = mastodon_char_count("Tickets: https://x.io bis Freitag");
    let long = mastodon_char_count("Tickets: https://example.org/events/2024/rust?ref=mastodon bis Freitag");
    assert_eq!(short, long);
    assert_eq!(short, 9 + 23 + 12);
    assert_eq!(
        mastodon_char_count("a http://b"),
        mastodon_char_count("a http://bbbbbbbbbbbbbbbbbbbbbbbbbbbbbbbbbbbbbbbbbbbbbbbbbbbbbb")
    );
}
