//! Bringing words of mixed case into one form.
//!
//! A word is of mixed case if it holds an uppercase character and a
//! lowercase one. Such a word is written in lowercase, and its first
//! character is made uppercase again if the word began with an uppercase
//! character. Every other word, and whatever is not a word character, is
//! kept as it is.

use crate::classes::{
    accepts_char, compile, is_lower, is_upper, is_word_char, lowercase_of, regex_of, uppercase,
    uppercase_of, word_class, WORD_PATTERN,
};
use crate::runs::{
    class_run_end, is_run, lemma_rewrite_from_length, lemma_rewrite_from_unchanged,
    lemma_rewrite_of_run, lemma_rewrite_without_class, rewrite_from, rewrite_runs,
};
use crate::text::{chars_of, string_of};
use vstd::prelude::*;
use vstd::slice::{slice_subrange, slice_to_vec};

verus! {

/// Whether `w` holds an uppercase character.
pub open spec fn has_upper(w: Seq<char>) -> bool {
    exists|k: int| 0 <= k < w.len() && is_upper(#[trigger] w[k])
}

/// Whether `c` counts as a lowercase character: it is one, and it is not an
/// uppercase character as well.
pub open spec fn counts_as_lower(c: char) -> bool {
    !is_upper(c) && is_lower(c)
}

/// Whether `w` holds a character that counts as lowercase.
pub open spec fn has_lower(w: Seq<char>) -> bool {
    exists|k: int| 0 <= k < w.len() && counts_as_lower(#[trigger] w[k])
}

/// Whether `w` is of mixed case. A word with one capital at its head, such
/// as a name, is of mixed case too; rewriting it gives the same word back.
pub open spec fn is_mixed_case(w: Seq<char>) -> bool {
    has_upper(w) && has_lower(w)
}

/// The first character of the uppercase form of `c`, or `c` itself if that
/// form is empty.
pub open spec fn capital(c: char) -> char {
    if uppercase_of(c).len() > 0 {
        uppercase_of(c)[0]
    } else {
        c
    }
}

/// What becomes of the word `w`.
pub open spec fn recase(w: Seq<char>) -> Seq<char> {
    if is_mixed_case(w) {
        let low = lowercase_of(w);
        if is_upper(w[0]) && low.len() > 0 {
            low.update(0, capital(low[0]))
        } else {
            low
        }
    } else {
        w
    }
}

/// `recase` as a value, to rewrite words with.
pub open spec fn recase_fn() -> spec_fn(Seq<char>) -> Seq<char> {
    |w: Seq<char>| recase(w)
}

/// The text `s` with every word of mixed case brought into one form.
pub open spec fn normalize_case(s: Seq<char>) -> Seq<char> {
    rewrite_runs(s, word_class(), recase_fn())
}

/// A word of at most one character is never of mixed case.
pub proof fn lemma_short_word_not_mixed(w: Seq<char>)
    requires
        w.len() <= 1,
    ensures
        !is_mixed_case(w),
{
}

/// A word of mixed case holds an uppercase and a lowercase character.
pub proof fn lemma_mixed_holds_both(w: Seq<char>)
    requires
        is_mixed_case(w),
    ensures
        exists|i: int, j: int|
            0 <= i < w.len() && 0 <= j < w.len() && i != j && is_upper(#[trigger] w[i])
                && is_lower(#[trigger] w[j]),
{
    let i = choose|k: int| 0 <= k < w.len() && is_upper(#[trigger] w[k]);
    let j = choose|k: int| 0 <= k < w.len() && counts_as_lower(#[trigger] w[k]);
    assert(is_upper(w[i]) && is_lower(w[j]) && i != j);
}

/// The new form of a word is as long as the word, or as long as its
/// lowercase form if the word is of mixed case.
pub proof fn lemma_recase_length(w: Seq<char>)
    ensures
        recase(w).len() == if is_mixed_case(w) {
            lowercase_of(w).len()
        } else {
            w.len()
        },
{
}

/// The rule gives a text that is one word its new form.
pub proof fn lemma_case_of_word(w: Seq<char>)
    requires
        w.len() > 0,
        forall|k: int| 0 <= k < w.len() ==> is_word_char(#[trigger] w[k]),
    ensures
        normalize_case(w) == recase(w),
{
    lemma_rewrite_of_run(w, word_class(), recase_fn());
}

/// The rule keeps a text that holds no word character as it is.
pub proof fn lemma_case_without_words(s: Seq<char>)
    requires
        forall|k: int| 0 <= k < s.len() ==> !is_word_char(#[trigger] s[k]),
    ensures
        normalize_case(s) == s,
{
    lemma_rewrite_without_class(s, word_class(), recase_fn());
}

/// The rule keeps a text as it is if none of its words is of mixed case.
pub proof fn lemma_case_without_mixed_words(s: Seq<char>)
    requires
        forall|a: int, b: int| #[trigger]
            is_run(s, word_class(), a, b) ==> !is_mixed_case(s.subrange(a, b)),
    ensures
        normalize_case(s) == s,
{
    assert forall|a: int, b: int| #[trigger] is_run(s, word_class(), a, b) implies recase_fn()(
        s.subrange(a, b),
    ) == s.subrange(a, b) by {
        assert(!is_mixed_case(s.subrange(a, b)));
    }
    lemma_rewrite_from_unchanged(s, word_class(), recase_fn(), 0);
    assert(s.subrange(0, s.len() as int) =~= s);
}

/// The rule keeps a text that holds no uppercase character, and one that
/// holds no lowercase character, as it is.
pub proof fn lemma_case_of_one_case(s: Seq<char>)
    requires
        !has_upper(s) || !has_lower(s),
    ensures
        normalize_case(s) == s,
{
    assert forall|a: int, b: int| #[trigger] is_run(s, word_class(), a, b) implies !is_mixed_case(
        s.subrange(a, b),
    ) by {
        let w = s.subrange(a, b);
        if has_upper(w) && has_lower(w) {
            let i = choose|k: int| 0 <= k < w.len() && is_upper(#[trigger] w[k]);
            let j = choose|k: int| 0 <= k < w.len() && counts_as_lower(#[trigger] w[k]);
            assert(is_upper(s[a + i]));
            assert(counts_as_lower(s[a + j]));
        }
    }
    lemma_case_without_mixed_words(s);
}

/// The rule does not lengthen a text, unless the lowercase form of one of its
/// words of mixed case is longer than the word.
pub proof fn lemma_case_length(s: Seq<char>)
    requires
        forall|a: int, b: int| #[trigger]
            is_run(s, word_class(), a, b) && is_mixed_case(s.subrange(a, b)) ==> lowercase_of(
                s.subrange(a, b),
            ).len() <= b - a,
    ensures
        normalize_case(s).len() <= s.len(),
{
    assert forall|a: int, b: int| #[trigger] is_run(s, word_class(), a, b) implies recase_fn()(
        s.subrange(a, b),
    ).len() <= b - a by {
        lemma_recase_length(s.subrange(a, b));
    }
    lemma_rewrite_from_length(s, word_class(), recase_fn(), 0);
}

/// Whether `word` is of mixed case.
pub fn is_mixed(word: &[char]) -> (mixed: bool)
    ensures
        mixed == is_mixed_case(word@),
{
    if word.len() <= 1 {
        return false;
    }
    let mut seen_upper = false;
    let mut seen_lower = false;
    let mut i: usize = 0;
    while i < word.len()
        invariant
            i <= word.len(),
            seen_upper == has_upper(word@.take(i as int)),
            seen_lower == has_lower(word@.take(i as int)),
            !(seen_upper && seen_lower),
        decreases word.len() - i,
    {
        let c = word[i];
        let ghost before = word@.take(i as int);
        let ghost after = word@.take(i + 1);
        proof {
            assert(after[i as int] == c);
            if has_upper(before) {
                let k = choose|k: int| 0 <= k < before.len() && is_upper(#[trigger] before[k]);
                assert(is_upper(after[k]));
            }
            if has_lower(before) {
                let k = choose|k: int| 0 <= k < before.len() && counts_as_lower(#[trigger] before[k]);
                assert(counts_as_lower(after[k]));
            }
            if has_upper(after) && !is_upper(c) {
                let k = choose|k: int| 0 <= k < after.len() && is_upper(#[trigger] after[k]);
                assert(is_upper(before[k]));
            }
            if has_lower(after) && !counts_as_lower(c) {
                let k = choose|k: int| 0 <= k < after.len() && counts_as_lower(#[trigger] after[k]);
                assert(counts_as_lower(before[k]));
            }
        }
        if c.is_uppercase() {
            seen_upper = true;
        } else if c.is_lowercase() {
            seen_lower = true;
        }
        if seen_upper && seen_lower {
            proof {
                let u = choose|k: int| 0 <= k < after.len() && is_upper(#[trigger] after[k]);
                let l = choose|k: int| 0 <= k < after.len() && counts_as_lower(#[trigger] after[k]);
                assert(is_upper(word@[u]));
                assert(counts_as_lower(word@[l]));
            }
            return true;
        }
        i += 1;
    }
    proof {
        assert(word@.take(i as int) =~= word@);
    }
    false
}

/// The lowercase form of `word`.
pub(crate) fn lowercase(word: &[char]) -> (low: Vec<char>)
    ensures
        low@ == lowercase_of(word@),
{
    let written = string_of(word);
    let low = written.as_str().to_lowercase();
    chars_of(low.as_str())
}

/// The new form of `word`: see `recase`.
pub fn recase_word(word: &[char]) -> (out: Vec<char>)
    ensures
        out@ == recase(word@),
{
    if is_mixed(word) {
        let mut low = lowercase(word);
        if word[0].is_uppercase() && low.len() > 0 {
            let up = uppercase(low[0]);
            let first = if up.len() > 0 {
                up[0]
            } else {
                low[0]
            };
            low.set(0, first);
        }
        low
    } else {
        slice_to_vec(word)
    }
}

/// Brings every word of mixed case in `text` into one form.
pub fn recase_chars(text: &[char]) -> (out: Vec<char>)
    ensures
        out@ == normalize_case(text@),
{
    let word = compile(WORD_PATTERN);
    let mut out: Vec<char> = Vec::new();
    let mut i: usize = 0;
    while i < text.len()
        invariant
            i <= text.len(),
            word == regex_of(WORD_PATTERN@),
            out@ + rewrite_from(text@, word_class(), recase_fn(), i as int) == normalize_case(text@),
        decreases text.len() - i,
    {
        let ghost before = out@;
        if accepts_char(&word, text[i]) {
            let j = class_run_end(text, &word, i + 1);
            let mut rewritten = recase_word(slice_subrange(text, i, j));
            out.append(&mut rewritten);
            proof {
                let run = recase(text@.subrange(i as int, j as int));
                let rest = rewrite_from(text@, word_class(), recase_fn(), j as int);
                assert(recase_fn()(text@.subrange(i as int, j as int)) == run);
                assert((before + run) + rest =~= before + (run + rest));
            }
            i = j;
        } else {
            out.push(text[i]);
            proof {
                let rest = rewrite_from(text@, word_class(), recase_fn(), i + 1);
                assert(before.push(text@[i as int]) + rest =~= before + (seq![text@[i as int]] + rest));
            }
            i += 1;
        }
    }
    proof {
        assert(out@ + Seq::<char>::empty() =~= out@);
    }
    out
}

} // verus!
