//! Character classes and case mappings.
//!
//! Which characters are word characters and which are whitespace is decided by
//! the `regex` crate, through its Unicode classes `\w` and `\s`. Which are
//! uppercase or lowercase, and what a change of case yields, is decided by the
//! standard library. None of those tables is restated here. Each answer has a
//! name, a spec function without a body, and the items of this module that are
//! taken on trust tie the names to the calls that compute them. Everything the
//! crate proves holds for whatever those calls return.

use regex::Regex;
use vstd::prelude::*;

verus! {

/// A compiled regular expression of the `regex` crate. Nothing inside it is
/// visible to the verifier.
#[verifier::external_type_specification]
#[verifier::external_body]
pub struct ExRegex(Regex);

/// The regular expression that `Regex::new` builds from `pattern`.
pub uninterp spec fn regex_of(pattern: Seq<char>) -> Regex;

/// Whether `Regex::is_match` finds a match of `re` somewhere in `haystack`.
pub uninterp spec fn regex_accepts(re: Regex, haystack: Seq<char>) -> bool;

/// Whether `char::is_uppercase` holds of `c`.
pub uninterp spec fn is_upper(c: char) -> bool;

/// Whether `char::is_lowercase` holds of `c`.
pub uninterp spec fn is_lower(c: char) -> bool;

/// What `str::to_lowercase` makes of the text `s`.
pub uninterp spec fn lowercase_of(s: Seq<char>) -> Seq<char>;

/// The characters that `char::to_uppercase` yields for `c`, in order.
pub uninterp spec fn uppercase_of(c: char) -> Seq<char>;

/// The pattern of the class of word characters.
pub const WORD_PATTERN: &'static str = "\\w";

/// The pattern of the class of whitespace characters.
pub const SPACE_PATTERN: &'static str = "\\s";

/// The predicate on characters that a regular expression gives rise to: a
/// character belongs to it when the expression matches the text made of that
/// character alone.
pub open spec fn class_of(re: Regex) -> spec_fn(char) -> bool {
    |c: char| regex_accepts(re, seq![c])
}

/// The class of word characters.
pub open spec fn word_class() -> spec_fn(char) -> bool {
    class_of(regex_of(WORD_PATTERN@))
}

/// The class of whitespace characters.
pub open spec fn space_class() -> spec_fn(char) -> bool {
    class_of(regex_of(SPACE_PATTERN@))
}

/// Whether `c` is a word character.
pub open spec fn is_word_char(c: char) -> bool {
    word_class()(c)
}

/// Whether `c` is a whitespace character.
pub open spec fn is_space_char(c: char) -> bool {
    space_class()(c)
}

/// Calls `regex::Regex::new` on one of the two class patterns. `Regex::new`
/// fails on a pattern that is not valid or that compiles to more than the
/// default size limit. Either pattern here is a single Perl class of the
/// crate's syntax table, which the crate's default features provide, and one
/// such class is far below the limit: that the call succeeds on these two is
/// taken on trust, and so is that the result is the expression that
/// `regex_of` names. No other pattern is admitted.
#[verifier::external_body]
pub(crate) fn compile(pattern: &str) -> (re: Regex)
    requires
        pattern@ == WORD_PATTERN@ || pattern@ == SPACE_PATTERN@,
    ensures
        re == regex_of(pattern@),
{
    Regex::new(pattern).unwrap()
}

/// Calls `regex::Regex::is_match` on the text that consists of `c` alone.
/// Trusted: the answer is the one that `regex_accepts` names.
#[verifier::external_body]
pub(crate) fn accepts_char(re: &Regex, c: char) -> (b: bool)
    ensures
        b == regex_accepts(*re, seq![c]),
{
    let mut buf = [0u8; 4];
    re.is_match(c.encode_utf8(&mut buf))
}

/// Calls `char::to_uppercase` and collects what the iterator yields.
/// Trusted: those are the characters that `uppercase_of` names.
#[verifier::external_body]
pub(crate) fn uppercase(c: char) -> (up: Vec<char>)
    ensures
        up@ == uppercase_of(c),
{
    c.to_uppercase().collect()
}

/// `char::is_uppercase`. Trusted: the answer is the one that `is_upper` names.
pub assume_specification[ char::is_uppercase ](c: char) -> (b: bool)
    ensures
        b == is_upper(c),
;

/// `char::is_lowercase`. Trusted: the answer is the one that `is_lower` names.
pub assume_specification[ char::is_lowercase ](c: char) -> (b: bool)
    ensures
        b == is_lower(c),
;

/// `str::to_lowercase`. Trusted: the result holds the characters that
/// `lowercase_of` names.
pub assume_specification[ str::to_lowercase ](s: &str) -> (low: String)
    ensures
        low@ == lowercase_of(s@),
;

/// `String::push`. Trusted: the character is appended at the end and
/// nothing else changes.
pub assume_specification[ String::push ](s: &mut String, c: char)
    ensures
        final(s)@ == old(s)@.push(c),
;

} // verus!
