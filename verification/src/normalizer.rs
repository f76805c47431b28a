//! The normalizer: the three rules on strings, and the three in a row.

use crate::asterisks::{lemma_strip_asterisks_length, strip_asterisks, strip_chars};
use crate::casing::{is_mixed, is_mixed_case, normalize_case, recase_chars};
use crate::repeats::{collapse_chars, collapse_repeats, lemma_collapse_length};
use crate::text::{chars_of, string_of};
use std::borrow::Cow;
use vstd::prelude::*;

verus! {

/// What the three rules make of `s`, applied in their fixed order: collapse
/// the repeats, strip what stands between asterisks, then settle the case.
pub open spec fn normalize(s: Seq<char>) -> Seq<char> {
    normalize_case(strip_asterisks(collapse_repeats(s)))
}

/// The first two rules together never lengthen a text.
pub proof fn lemma_collapse_then_strip_length(s: Seq<char>)
    ensures
        strip_asterisks(collapse_repeats(s)).len() <= s.len(),
{
    lemma_collapse_length(s);
    lemma_strip_asterisks_length(collapse_repeats(s));
}

/// Each rule, and all three in a row, make the empty text of the empty text.
pub proof fn lemma_empty_stays_empty()
    ensures
        collapse_repeats(Seq::empty()) == Seq::<char>::empty(),
        strip_asterisks(Seq::empty()) == Seq::<char>::empty(),
        normalize_case(Seq::empty()) == Seq::<char>::empty(),
        normalize(Seq::empty()) == Seq::<char>::empty(),
{
}

/// Normalizes text that is written in an unusual way: with characters
/// repeated, with remarks between asterisks, or with capitals in odd places.
/// It holds no state.
pub struct TextNormalizer;

impl TextNormalizer {
    /// A normalizer.
    pub fn new() -> (normalizer: Self)
        ensures
            normalizer == TextNormalizer,
    {
        TextNormalizer
    }

    /// Applies the three rules to `input`, in their fixed order.
    pub fn normalize_text<'a>(&self, input: &'a str) -> (output: Cow<'a, str>)
        ensures
            output@ == normalize(input@),
            input@.len() == 0 ==> output@.len() == 0,
    {
        if input.is_empty() {
            proof {
                lemma_empty_stays_empty();
                assert(input@ =~= Seq::<char>::empty());
            }
            return Cow::Borrowed(input);
        }
        let chars = chars_of(input);
        let collapsed = collapse_chars(chars.as_slice());
        let stripped = strip_chars(collapsed.as_slice());
        let settled = recase_chars(stripped.as_slice());
        Cow::Owned(string_of(settled.as_slice()))
    }

    /// Collapses the repeated characters inside the words of `input`.
    pub fn normalize_repeated_characters<'a>(&self, input: &'a str) -> (output: Cow<'a, str>)
        ensures
            output@ == collapse_repeats(input@),
            output@.len() <= input@.len(),
    {
        if input.is_empty() {
            proof {
                lemma_empty_stays_empty();
                assert(input@ =~= Seq::<char>::empty());
            }
            return Cow::Borrowed(input);
        }
        let chars = chars_of(input);
        let collapsed = collapse_chars(chars.as_slice());
        Cow::Owned(string_of(collapsed.as_slice()))
    }

    /// Removes what stands between asterisks in `input`, then turns every run
    /// of two or more whitespace characters into one space.
    pub fn remove_asterisks<'a>(&self, input: &'a str) -> (output: Cow<'a, str>)
        ensures
            output@ == strip_asterisks(input@),
            output@.len() <= input@.len(),
    {
        if input.is_empty() {
            proof {
                lemma_empty_stays_empty();
                assert(input@ =~= Seq::<char>::empty());
            }
            return Cow::Borrowed(input);
        }
        let chars = chars_of(input);
        let stripped = strip_chars(chars.as_slice());
        Cow::Owned(string_of(stripped.as_slice()))
    }

    /// Brings every word of mixed case in `input` into one form.
    pub fn normalize_casing<'a>(&self, input: &'a str) -> (output: Cow<'a, str>)
        ensures
            output@ == normalize_case(input@),
            input@.len() == 0 ==> output@.len() == 0,
    {
        if input.is_empty() {
            proof {
                lemma_empty_stays_empty();
                assert(input@ =~= Seq::<char>::empty());
            }
            return Cow::Borrowed(input);
        }
        let chars = chars_of(input);
        let settled = recase_chars(chars.as_slice());
        Cow::Owned(string_of(settled.as_slice()))
    }

    /// Whether `word` holds an uppercase and a lowercase character.
    pub fn has_mixed_casing(&self, word: &str) -> (mixed: bool)
        ensures
            mixed == is_mixed_case(word@),
    {
        let chars = chars_of(word);
        is_mixed(chars.as_slice())
    }
}

impl Default for TextNormalizer {
    fn default() -> (normalizer: Self)
        ensures
            normalizer == TextNormalizer,
    {
        Self::new()
    }
}

} // verus!
