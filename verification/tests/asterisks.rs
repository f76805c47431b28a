use text_normalizer::asterisks::{squash_space_chars, strip_chars, strip_pair_chars};
use text_normalizer::text::{chars_of, string_of};
use text_normalizer::TextNormalizer;

fn strip(text: &str) -> String {
    TextNormalizer::new().remove_asterisks(text).into_owned()
}

fn strip_pairs(text: &str) -> String {
    string_of(&strip_pair_chars(&chars_of(text)))
}

fn squash(text: &str) -> String {
    string_of(&squash_space_chars(&chars_of(text)))
}

#[test]
fn strip_removes_a_pair_with_what_it_encloses() {
    assert_eq!(strip("a *b* c"), "a c");
    assert_eq!(strip("a*b*c"), "ac");
    assert_eq!(strip("*whole*"), "");
}

#[test]
fn strip_leaves_the_gap_between_two_pairs() {
    assert_eq!(strip("*a* *b*"), " ");
    assert_eq!(strip("*a**b*"), "");
}

#[test]
fn strip_keeps_an_asterisk_without_partner() {
    assert_eq!(strip("a *b"), "a *b");
    assert_eq!(strip("*"), "*");
    assert_eq!(strip("a*"), "a*");
    assert_eq!(strip("*a*b*"), "b*");
    assert_eq!(strip("*a*b*c"), "b*c");
}

#[test]
fn strip_pairs_asterisks_from_the_left() {
    assert_eq!(strip("**"), "");
    assert_eq!(strip("***"), "*");
    assert_eq!(strip("****"), "");
    assert_eq!(strip("a**b"), "ab");
    assert_eq!(strip("1*2*3*4*5"), "135");
}

#[test]
fn strip_lets_a_pair_span_lines() {
    assert_eq!(strip("a *b\nc* d"), "a d");
    assert_eq!(strip_pairs("a *b\nc* d"), "a  d");
}

#[test]
fn strip_squashes_whitespace_without_any_asterisk() {
    assert_eq!(strip("a   b"), "a b");
    assert_eq!(strip("a  b   c    d"), "a b c d");
}

#[test]
fn strip_squashes_every_kind_of_whitespace() {
    assert_eq!(strip("a\t\nb"), "a b");
    assert_eq!(strip("a \tb"), "a b");
    assert_eq!(strip("a\n\nb"), "a b");
    assert_eq!(strip("a\u{a0}\u{2003}b"), "a b");
}

#[test]
fn strip_keeps_a_single_whitespace_character() {
    assert_eq!(strip("a\tb"), "a\tb");
    assert_eq!(strip("a\nb"), "a\nb");
    assert_eq!(strip("a b"), "a b");
    assert_eq!(strip("a\u{a0}b"), "a\u{a0}b");
}

#[test]
fn strip_does_not_trim() {
    assert_eq!(strip("  a  "), " a ");
    assert_eq!(strip(" a "), " a ");
    assert_eq!(strip("*x* a *y*"), " a ");
    assert_eq!(strip("\n\n"), " ");
}

#[test]
fn strip_of_nothing_is_nothing() {
    assert_eq!(strip(""), "");
}

#[test]
fn strip_never_lengthens() {
    for sample in [
        "",
        "*",
        "a *b* c",
        "*a* *b*",
        "a   b",
        "a\t\nb",
        "no asterisks here",
        "*a*b*",
        "\u{a0}\u{a0}\u{a0}",
    ] {
        let out = strip(sample);
        assert!(out.chars().count() <= sample.chars().count());
        assert!(out.len() <= sample.len());
    }
}

#[test]
fn pairs_alone_leave_whitespace_as_it_is() {
    assert_eq!(strip_pairs("a *b* c"), "a  c");
    assert_eq!(strip_pairs("a   b"), "a   b");
    assert_eq!(strip_pairs("plain"), "plain");
    assert_eq!(strip_pairs("x*"), "x*");
}

#[test]
fn squash_alone_leaves_asterisks_as_they_are() {
    assert_eq!(squash("a  *b*  c"), "a *b* c");
    assert_eq!(squash("a\r\n b"), "a b");
    assert_eq!(squash("plain"), "plain");
    assert_eq!(squash(""), "");
}

#[test]
fn strip_on_characters_agrees_with_strip_on_strings() {
    for sample in ["Hello *cough* there", "*a* *b*", "a   b", "*a*b*", ""] {
        assert_eq!(string_of(&strip_chars(&chars_of(sample))), strip(sample));
    }
}
