use text_normalizer::repeats::{collapse_chars, squeeze_chars};
use text_normalizer::text::{chars_of, string_of};
use text_normalizer::TextNormalizer;

fn collapse(text: &str) -> String {
    TextNormalizer::new()
        .normalize_repeated_characters(text)
        .into_owned()
}

const SAMPLES: [&str; 12] = [
    "",
    "a",
    "aaa",
    "aA",
    "Hellooo how areee you",
    "goooood moooorning",
    "!!! ... ???",
    "aa-aa  bb__bb",
    "1100 2222",
    "h\u{e9}\u{e9}\u{e9}llo \u{f1}\u{f1}",
    "a!!a  a",
    "Mississippi",
];

#[test]
fn collapse_cuts_a_run_down_to_one() {
    assert_eq!(collapse("aaa"), "a");
    assert_eq!(collapse("aabbbcccc"), "abc");
    assert_eq!(collapse("Mississippi"), "Misisipi");
}

#[test]
fn collapse_compares_characters_exactly() {
    assert_eq!(collapse("aA"), "aA");
    assert_eq!(collapse("AAaa"), "Aa");
    assert_eq!(collapse("aAaA"), "aAaA");
}

#[test]
fn collapse_keeps_short_words() {
    assert_eq!(collapse("a"), "a");
    assert_eq!(collapse("a b c"), "a b c");
    assert_eq!(collapse(""), "");
}

#[test]
fn collapse_never_touches_what_is_not_a_word() {
    assert_eq!(collapse("!!! ... ???"), "!!! ... ???");
    assert_eq!(collapse("a!!b"), "a!!b");
    assert_eq!(collapse("a  b"), "a  b");
    assert_eq!(collapse("**--**"), "**--**");
}

#[test]
fn collapse_takes_digits_and_underscores_as_word_characters() {
    assert_eq!(collapse("1100__x"), "10_x");
    assert_eq!(collapse("2222 3"), "2 3");
}

#[test]
fn collapse_does_not_reach_across_a_gap() {
    assert_eq!(collapse("a a"), "a a");
    assert_eq!(collapse("aa-aa"), "a-a");
    assert_eq!(collapse("a!a"), "a!a");
}

#[test]
fn collapse_works_on_characters_beyond_ascii() {
    assert_eq!(collapse("h\u{e9}\u{e9}\u{e9}llo"), "h\u{e9}lo");
    assert_eq!(collapse("\u{f1}\u{f1}\u{f1}"), "\u{f1}");
    assert_eq!(collapse("\u{4e2d}\u{4e2d}\u{6587}"), "\u{4e2d}\u{6587}");
}

#[test]
fn collapse_twice_is_collapse_once() {
    for sample in SAMPLES {
        let once = collapse(sample);
        assert_eq!(collapse(&once), once);
    }
}

#[test]
fn collapse_never_lengthens() {
    for sample in SAMPLES {
        let out = collapse(sample);
        assert!(out.chars().count() <= sample.chars().count());
        assert!(out.len() <= sample.len());
    }
}

#[test]
fn collapse_keeps_text_without_word_characters() {
    for sample in ["", " ", "  \t\n", "?!?!", "... --- ...", "(**)  [~~]"] {
        assert_eq!(collapse(sample), sample);
    }
}

#[test]
fn squeeze_drops_what_repeats_its_neighbour() {
    assert_eq!(squeeze_chars(&['a', 'a', 'b']), vec!['a', 'b']);
    assert_eq!(squeeze_chars(&['a', 'b', 'a']), vec!['a', 'b', 'a']);
    assert_eq!(squeeze_chars(&['!', '!', '!']), vec!['!']);
    assert_eq!(squeeze_chars(&['x']), vec!['x']);
    assert_eq!(squeeze_chars(&[]), Vec::<char>::new());
}

#[test]
fn collapse_on_characters_agrees_with_collapse_on_strings() {
    for sample in SAMPLES {
        let chars = chars_of(sample);
        assert_eq!(string_of(&collapse_chars(&chars)), collapse(sample));
    }
}

#[test]
fn characters_and_strings_convert_both_ways() {
    assert_eq!(chars_of("a\u{e9}\u{4e2d}"), vec!['a', '\u{e9}', '\u{4e2d}']);
    assert_eq!(chars_of(""), Vec::<char>::new());
    assert_eq!(string_of(&['a', '\u{e9}', '\u{4e2d}']), "a\u{e9}\u{4e2d}");
    assert_eq!(string_of(&[]), "");
    for sample in SAMPLES {
        assert_eq!(string_of(&chars_of(sample)), sample);
    }
}
