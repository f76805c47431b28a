//! Collapsing repeated characters inside words.
//!
//! Within each word, every stretch of one character written several times in
//! a row is cut down to a single occurrence. Characters are compared as they
//! are, so `a` and `A` differ. Whatever is not a word character is kept.

use crate::classes::{accepts_char, compile, is_word_char, regex_of, word_class, WORD_PATTERN};
use crate::runs::{
    class_run_end, is_run, lemma_rewrite_from_length, lemma_rewrite_of_run,
    lemma_rewrite_without_class, lemma_run_end, rewrite_from, rewrite_runs, run_end,
};
use vstd::prelude::*;
use vstd::slice::slice_subrange;

verus! {

/// The text `w` without each character that equals the one before it.
pub open spec fn squeeze(w: Seq<char>) -> Seq<char>
    decreases w.len(),
{
    if w.len() == 0 {
        w
    } else if w.len() >= 2 && w[w.len() - 1] == w[w.len() - 2] {
        squeeze(w.drop_last())
    } else {
        squeeze(w.drop_last()).push(w.last())
    }
}

/// `squeeze` as a value, to rewrite words with.
pub open spec fn squeeze_fn() -> spec_fn(Seq<char>) -> Seq<char> {
    |w: Seq<char>| squeeze(w)
}

/// The text `s` with every word squeezed.
pub open spec fn collapse_repeats(s: Seq<char>) -> Seq<char> {
    rewrite_runs(s, word_class(), squeeze_fn())
}

/// Whether the character at position `i` is a word character that repeats
/// the character before it.
pub open spec fn repeats_at(s: Seq<char>, i: int) -> bool {
    0 < i < s.len() && s[i] == s[i - 1] && is_word_char(s[i])
}

/// The text `s` without the word characters that repeat the character before
/// them.
pub open spec fn without_repeats(s: Seq<char>) -> Seq<char>
    decreases s.len(),
{
    if s.len() == 0 {
        s
    } else if repeats_at(s, s.len() - 1) {
        without_repeats(s.drop_last())
    } else {
        without_repeats(s.drop_last()).push(s.last())
    }
}

/// Squeezing never lengthens a text.
pub proof fn lemma_squeeze_length(w: Seq<char>)
    ensures
        squeeze(w).len() <= w.len(),
    decreases w.len(),
{
    if w.len() > 0 {
        lemma_squeeze_length(w.drop_last());
    }
}

/// On a text made of word characters only, dropping the repeats is squeezing.
proof fn lemma_without_repeats_in_word(w: Seq<char>)
    requires
        forall|k: int| 0 <= k < w.len() ==> is_word_char(#[trigger] w[k]),
    ensures
        without_repeats(w) == squeeze(w),
    decreases w.len(),
{
    if w.len() > 0 {
        lemma_without_repeats_in_word(w.drop_last());
    }
}

/// Dropping the repeats works on the two parts of a text apart, if the second
/// part does not begin with a repeat of the end of the first.
proof fn lemma_without_repeats_split(a: Seq<char>, b: Seq<char>)
    requires
        a.len() == 0 || b.len() == 0 || !(b[0] == a.last() && is_word_char(b[0])),
    ensures
        without_repeats(a + b) == without_repeats(a) + without_repeats(b),
    decreases b.len(),
{
    if b.len() == 0 {
        assert(a + b =~= a);
        assert(without_repeats(a) + without_repeats(b) =~= without_repeats(a));
    } else {
        let ab = a + b;
        assert(ab.drop_last() =~= a + b.drop_last());
        assert(ab.last() == b.last());
        if b.len() == 1 {
            assert(b.drop_last() =~= Seq::<char>::empty());
            assert(a + b.drop_last() =~= a);
            assert(!repeats_at(ab, ab.len() - 1));
            assert(!repeats_at(b, b.len() - 1));
            assert(without_repeats(b.drop_last()) =~= Seq::<char>::empty());
            assert(without_repeats(b) =~= seq![b[0]]);
            assert(without_repeats(ab) =~= without_repeats(a) + without_repeats(b));
        } else {
            lemma_without_repeats_split(a, b.drop_last());
            assert(ab[ab.len() - 2] == b[b.len() - 2]);
            assert(repeats_at(ab, ab.len() - 1) == repeats_at(b, b.len() - 1));
            if !repeats_at(b, b.len() - 1) {
                assert(without_repeats(ab) =~= without_repeats(a) + without_repeats(b));
            }
        }
    }
}

/// From any position on, rewriting the words by squeezing gives what
/// dropping the repeats gives on the rest of the text.
proof fn lemma_collapse_from(s: Seq<char>, i: int)
    requires
        0 <= i <= s.len(),
    ensures
        rewrite_from(s, word_class(), squeeze_fn(), i) == without_repeats(
            s.subrange(i, s.len() as int),
        ),
    decreases s.len() - i,
{
    let n = s.len() as int;
    if i < n {
        if word_class()(s[i]) {
            let j = run_end(s, word_class(), i + 1);
            lemma_run_end(s, word_class(), i + 1);
            let word = s.subrange(i, j);
            let rest = s.subrange(j, n);
            assert(word + rest =~= s.subrange(i, n));
            lemma_collapse_from(s, j);
            assert forall|k: int| 0 <= k < word.len() implies is_word_char(#[trigger] word[k]) by {
                assert(word_class()(s[i + k]));
            }
            lemma_without_repeats_in_word(word);
            lemma_without_repeats_split(word, rest);
        } else {
            let head = seq![s[i]];
            let rest = s.subrange(i + 1, n);
            assert(head + rest =~= s.subrange(i, n));
            lemma_collapse_from(s, i + 1);
            assert(head.drop_last() =~= Seq::<char>::empty());
            assert(without_repeats(head.drop_last()) =~= Seq::<char>::empty());
            assert(without_repeats(head) =~= head);
            lemma_without_repeats_split(head, rest);
        }
    } else {
        assert(s.subrange(i, n) =~= Seq::<char>::empty());
    }
}

/// Collapsing drops exactly the word characters that repeat the character
/// before them: such a character lies in the same word as the one it repeats.
pub proof fn lemma_collapse_drops_repeats(s: Seq<char>)
    ensures
        collapse_repeats(s) == without_repeats(s),
{
    lemma_collapse_from(s, 0);
    assert(s.subrange(0, s.len() as int) =~= s);
}

/// What is left of a text that is not empty ends as the text ends.
proof fn lemma_without_repeats_last(s: Seq<char>)
    requires
        s.len() > 0,
    ensures
        without_repeats(s).len() > 0,
        without_repeats(s).last() == s.last(),
    decreases s.len(),
{
    if repeats_at(s, s.len() - 1) {
        lemma_without_repeats_last(s.drop_last());
    }
}

/// Nothing in what is left repeats the character before it.
proof fn lemma_without_repeats_leaves_none(s: Seq<char>)
    ensures
        forall|i: int| !repeats_at(without_repeats(s), i),
    decreases s.len(),
{
    if s.len() > 0 {
        let init = s.drop_last();
        lemma_without_repeats_leaves_none(init);
        if !repeats_at(s, s.len() - 1) {
            let kept = without_repeats(init);
            let t = kept.push(s.last());
            if init.len() > 0 {
                lemma_without_repeats_last(init);
            }
            assert forall|i: int| !repeats_at(t, i) by {
                if 0 < i < kept.len() {
                    assert(!repeats_at(kept, i));
                }
            }
        }
    }
}

/// Dropping the repeats a second time changes nothing.
proof fn lemma_without_repeats_idempotent(s: Seq<char>)
    ensures
        without_repeats(without_repeats(s)) == without_repeats(s),
    decreases s.len(),
{
    if s.len() > 0 {
        let init = s.drop_last();
        lemma_without_repeats_idempotent(init);
        if !repeats_at(s, s.len() - 1) {
            let kept = without_repeats(init);
            let t = kept.push(s.last());
            assert(t.drop_last() =~= kept);
            if init.len() > 0 {
                lemma_without_repeats_last(init);
            }
            assert(!repeats_at(t, t.len() - 1));
        }
    }
}

/// In a collapsed text no word character repeats the character before it.
pub proof fn lemma_collapse_leaves_no_repeat(s: Seq<char>)
    ensures
        forall|i: int| !repeats_at(collapse_repeats(s), i),
{
    lemma_collapse_drops_repeats(s);
    lemma_without_repeats_leaves_none(s);
}

/// Collapsing a collapsed text changes nothing.
pub proof fn lemma_collapse_idempotent(s: Seq<char>)
    ensures
        collapse_repeats(collapse_repeats(s)) == collapse_repeats(s),
{
    lemma_collapse_drops_repeats(s);
    lemma_collapse_drops_repeats(without_repeats(s));
    lemma_without_repeats_idempotent(s);
}

/// Collapsing never lengthens a text.
pub proof fn lemma_collapse_length(s: Seq<char>)
    ensures
        collapse_repeats(s).len() <= s.len(),
{
    assert forall|a: int, b: int| #[trigger] is_run(s, word_class(), a, b) implies squeeze_fn()(
        s.subrange(a, b),
    ).len() <= b - a by {
        lemma_squeeze_length(s.subrange(a, b));
    }
    lemma_rewrite_from_length(s, word_class(), squeeze_fn(), 0);
}

/// Collapsing a text that is one word squeezes it.
pub proof fn lemma_collapse_of_word(w: Seq<char>)
    requires
        w.len() > 0,
        forall|k: int| 0 <= k < w.len() ==> is_word_char(#[trigger] w[k]),
    ensures
        collapse_repeats(w) == squeeze(w),
{
    lemma_rewrite_of_run(w, word_class(), squeeze_fn());
}

/// Collapsing keeps a text that holds no word character as it is.
pub proof fn lemma_collapse_without_words(s: Seq<char>)
    requires
        forall|k: int| 0 <= k < s.len() ==> !is_word_char(#[trigger] s[k]),
    ensures
        collapse_repeats(s) == s,
{
    lemma_rewrite_without_class(s, word_class(), squeeze_fn());
}

/// Squeezes `word`: drops each character that equals the one before it.
pub fn squeeze_chars(word: &[char]) -> (out: Vec<char>)
    ensures
        out@ == squeeze(word@),
{
    let mut out: Vec<char> = Vec::new();
    let mut k: usize = 0;
    while k < word.len()
        invariant
            k <= word.len(),
            out@ == squeeze(word@.take(k as int)),
        decreases word.len() - k,
    {
        proof {
            assert(word@.take(k + 1).drop_last() =~= word@.take(k as int));
        }
        if k == 0 || word[k] != word[k - 1] {
            out.push(word[k]);
        }
        k += 1;
    }
    proof {
        assert(word@.take(k as int) =~= word@);
    }
    out
}

/// Collapses the repeated characters inside the words of `text`.
pub fn collapse_chars(text: &[char]) -> (out: Vec<char>)
    ensures
        out@ == collapse_repeats(text@),
        out@.len() <= text@.len(),
{
    let word = compile(WORD_PATTERN);
    let mut out: Vec<char> = Vec::new();
    let mut i: usize = 0;
    while i < text.len()
        invariant
            i <= text.len(),
            word == regex_of(WORD_PATTERN@),
            out@ + rewrite_from(text@, word_class(), squeeze_fn(), i as int) == collapse_repeats(
                text@,
            ),
        decreases text.len() - i,
    {
        let ghost before = out@;
        if accepts_char(&word, text[i]) {
            let j = class_run_end(text, &word, i + 1);
            let mut squeezed = squeeze_chars(slice_subrange(text, i, j));
            out.append(&mut squeezed);
            proof {
                let run = squeeze(text@.subrange(i as int, j as int));
                let rest = rewrite_from(text@, word_class(), squeeze_fn(), j as int);
                assert(squeeze_fn()(text@.subrange(i as int, j as int)) == run);
                assert((before + run) + rest =~= before + (run + rest));
            }
            i = j;
        } else {
            out.push(text[i]);
            proof {
                let rest = rewrite_from(text@, word_class(), squeeze_fn(), i + 1);
                assert(before.push(text@[i as int]) + rest =~= before + (seq![text@[i as int]] + rest));
            }
            i += 1;
        }
    }
    proof {
        lemma_collapse_length(text@);
        assert(out@ + Seq::<char>::empty() =~= out@);
    }
    out
}

} // verus!
