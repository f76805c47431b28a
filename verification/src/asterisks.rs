//! Removing what stands between asterisks.
//!
//! Asterisks are paired from the left: the first with the second, the third
//! with the fourth, and so on. Each pair is removed together with what it
//! encloses. An asterisk that is left without a partner stays, and so does
//! the text after it. Afterwards every stretch of two or more whitespace
//! characters becomes one space, whether or not anything was removed.

use crate::classes::{accepts_char, compile, regex_of, space_class, SPACE_PATTERN};
use crate::runs::{
    class_run_end, lemma_rewrite_from_length, lemma_run_end, lengthens_no_run, rewrite_from,
    rewrite_runs, run_end,
};
use crate::text::push_range;
use vstd::prelude::*;

verus! {

/// The class of the characters other than the asterisk.
pub open spec fn not_asterisk() -> spec_fn(char) -> bool {
    |c: char| c != '*'
}

/// The position of the first asterisk at or after `i`, or the length of `s`
/// if there is none.
pub open spec fn next_asterisk(s: Seq<char>, i: int) -> int {
    run_end(s, not_asterisk(), i)
}

/// The text `s` from position `i` on, without the asterisk pairs and what
/// they enclose.
pub open spec fn strip_pairs_from(s: Seq<char>, i: int) -> Seq<char>
    decreases s.len() - i,
    via strip_pairs_from_decreases
{
    if i < 0 || i >= s.len() {
        Seq::empty()
    } else if s[i] == '*' {
        let j = next_asterisk(s, i + 1);
        if j < s.len() {
            strip_pairs_from(s, j + 1)
        } else {
            s.subrange(i, s.len() as int)
        }
    } else {
        seq![s[i]] + strip_pairs_from(s, i + 1)
    }
}

#[via_fn]
proof fn strip_pairs_from_decreases(s: Seq<char>, i: int) {
    if 0 <= i < s.len() {
        lemma_run_end(s, not_asterisk(), i + 1);
    }
}

/// The text `s` without the asterisk pairs and what they enclose.
pub open spec fn strip_pairs(s: Seq<char>) -> Seq<char> {
    strip_pairs_from(s, 0)
}

/// What becomes of a run of whitespace: one space if it has two characters
/// or more, itself otherwise.
pub open spec fn squash(run: Seq<char>) -> Seq<char> {
    if run.len() >= 2 {
        seq![' ']
    } else {
        run
    }
}

/// `squash` as a value, to rewrite runs of whitespace with.
pub open spec fn squash_fn() -> spec_fn(Seq<char>) -> Seq<char> {
    |run: Seq<char>| squash(run)
}

/// The text `s` in which every run of two or more whitespace characters is
/// one space.
pub open spec fn squash_spaces(s: Seq<char>) -> Seq<char> {
    rewrite_runs(s, space_class(), squash_fn())
}

/// The text `s` without the asterisk pairs and what they enclose, and with
/// the runs of whitespace that are left squashed.
pub open spec fn strip_asterisks(s: Seq<char>) -> Seq<char> {
    squash_spaces(strip_pairs(s))
}

/// Whether `s` holds an asterisk at or after position `i`.
pub open spec fn has_asterisk(s: Seq<char>, i: int) -> bool {
    exists|k: int| i <= k < s.len() && #[trigger] s[k] == '*'
}

/// The first asterisk at or after `i` is preceded, from `i` on, by other
/// characters only, and is an asterisk if it lies within the text.
pub proof fn lemma_next_asterisk(s: Seq<char>, i: int)
    requires
        0 <= i <= s.len(),
    ensures
        i <= next_asterisk(s, i) <= s.len(),
        forall|k: int| i <= k < next_asterisk(s, i) ==> #[trigger] s[k] != '*',
        next_asterisk(s, i) < s.len() ==> s[next_asterisk(s, i)] == '*',
        next_asterisk(s, i) < s.len() <==> has_asterisk(s, i),
{
    lemma_run_end(s, not_asterisk(), i);
    let j = next_asterisk(s, i);
    assert forall|k: int| i <= k < j implies #[trigger] s[k] != '*' by {
        assert(not_asterisk()(s[k]));
    }
    if j < s.len() {
        assert(!not_asterisk()(s[j]));
    }
}

/// From any position on, removing the pairs never lengthens the text.
proof fn lemma_strip_pairs_from_length(s: Seq<char>, i: int)
    requires
        0 <= i <= s.len(),
    ensures
        strip_pairs_from(s, i).len() <= s.len() - i,
    decreases s.len() - i,
{
    if i < s.len() {
        if s[i] == '*' {
            let j = next_asterisk(s, i + 1);
            lemma_next_asterisk(s, i + 1);
            if j < s.len() {
                lemma_strip_pairs_from_length(s, j + 1);
            }
        } else {
            lemma_strip_pairs_from_length(s, i + 1);
        }
    }
}

/// Removing the pairs keeps a stretch of text that holds no asterisk.
proof fn lemma_strip_pairs_from_free(s: Seq<char>, i: int)
    requires
        0 <= i <= s.len(),
        !has_asterisk(s, i),
    ensures
        strip_pairs_from(s, i) == s.subrange(i, s.len() as int),
    decreases s.len() - i,
{
    if i < s.len() {
        assert(s[i] != '*');
        assert(!has_asterisk(s, i + 1));
        lemma_strip_pairs_from_free(s, i + 1);
        assert(seq![s[i]] + s.subrange(i + 1, s.len() as int) =~= s.subrange(i, s.len() as int));
    }
}

/// Whether `out` is `kept`, a text free of asterisks, followed by all of `s`
/// from its last asterisk on, which stands at position `k`.
pub open spec fn ends_unpaired(s: Seq<char>, out: Seq<char>, k: int, kept: Seq<char>) -> bool {
    &&& 0 <= k < s.len()
    &&& s[k] == '*'
    &&& !has_asterisk(s, k + 1)
    &&& !has_asterisk(kept, 0)
    &&& out == kept + s.subrange(k, s.len() as int)
}

/// From any position on: what is left holds no asterisk, or it ends with
/// the last asterisk of the text and all that follows it.
proof fn lemma_strip_pairs_from_leftover(s: Seq<char>, i: int)
    requires
        0 <= i <= s.len(),
    ensures
        !has_asterisk(strip_pairs_from(s, i), 0) || exists|k: int, kept: Seq<char>|
            ends_unpaired(s, strip_pairs_from(s, i), k, kept),
    decreases s.len() - i,
{
    let n = s.len() as int;
    let out = strip_pairs_from(s, i);
    if i < n {
        if s[i] == '*' {
            let j = next_asterisk(s, i + 1);
            lemma_next_asterisk(s, i + 1);
            if j < n {
                lemma_strip_pairs_from_leftover(s, j + 1);
            } else {
                let kept = Seq::<char>::empty();
                assert(out =~= kept + s.subrange(i, n));
                assert(ends_unpaired(s, out, i, kept));
            }
        } else {
            let rest = strip_pairs_from(s, i + 1);
            lemma_strip_pairs_from_leftover(s, i + 1);
            if has_asterisk(rest, 0) {
                let (k, kept) = choose|k: int, kept: Seq<char>| ends_unpaired(s, rest, k, kept);
                let longer = seq![s[i]] + kept;
                if has_asterisk(longer, 0) {
                    let p = choose|p: int| 0 <= p < longer.len() && #[trigger] longer[p] == '*';
                    assert(kept[p - 1] == '*');
                }
                assert(out =~= longer + s.subrange(k, n));
                assert(ends_unpaired(s, out, k, longer));
            } else if has_asterisk(out, 0) {
                let p = choose|p: int| 0 <= p < out.len() && #[trigger] out[p] == '*';
                assert(rest[p - 1] == '*');
            }
        }
    }
}

/// Removing the pairs never lengthens a text.
pub proof fn lemma_strip_pairs_length(s: Seq<char>)
    ensures
        strip_pairs(s).len() <= s.len(),
{
    lemma_strip_pairs_from_length(s, 0);
}

/// Removing the pairs keeps a text that holds no asterisk as it is.
pub proof fn lemma_strip_pairs_without_asterisk(s: Seq<char>)
    requires
        !has_asterisk(s, 0),
    ensures
        strip_pairs(s) == s,
{
    lemma_strip_pairs_from_free(s, 0);
    assert(s.subrange(0, s.len() as int) =~= s);
}

/// What is left after removing the pairs holds no asterisk, unless an
/// asterisk of the text has no partner: then that asterisk, which is the last
/// of the text, stays with all that follows it, and what is left before it
/// holds no asterisk.
pub proof fn lemma_strip_pairs_leftover(s: Seq<char>)
    ensures
        !has_asterisk(strip_pairs(s), 0) || exists|k: int, kept: Seq<char>|
            ends_unpaired(s, strip_pairs(s), k, kept),
{
    lemma_strip_pairs_from_leftover(s, 0);
}

/// Squashing never lengthens a text.
pub proof fn lemma_squash_spaces_length(s: Seq<char>)
    ensures
        squash_spaces(s).len() <= s.len(),
{
    assert(lengthens_no_run(s, space_class(), squash_fn()));
    lemma_rewrite_from_length(s, space_class(), squash_fn(), 0);
}

/// Removing what stands between asterisks never lengthens a text.
pub proof fn lemma_strip_asterisks_length(s: Seq<char>)
    ensures
        strip_asterisks(s).len() <= s.len(),
{
    lemma_strip_pairs_length(s);
    lemma_squash_spaces_length(strip_pairs(s));
}

/// The position of the first asterisk of `text` at or after `start`, or the
/// length of `text` if there is none.
pub(crate) fn find_asterisk(text: &[char], start: usize) -> (end: usize)
    requires
        start <= text.len(),
    ensures
        end == next_asterisk(text@, start as int),
        start <= end <= text.len(),
{
    let mut j: usize = start;
    while j < text.len() && text[j] != '*'
        invariant
            start <= j <= text.len(),
            next_asterisk(text@, j as int) == next_asterisk(text@, start as int),
        decreases text.len() - j,
    {
        j += 1;
    }
    j
}

/// Removes the asterisk pairs of `text` and what they enclose.
pub fn strip_pair_chars(text: &[char]) -> (out: Vec<char>)
    ensures
        out@ == strip_pairs(text@),
        out@.len() <= text@.len(),
{
    let mut out: Vec<char> = Vec::new();
    let mut i: usize = 0;
    while i < text.len()
        invariant
            i <= text.len(),
            out@ + strip_pairs_from(text@, i as int) == strip_pairs(text@),
        decreases text.len() - i,
    {
        let ghost before = out@;
        if text[i] == '*' {
            let j = find_asterisk(text, i + 1);
            if j < text.len() {
                i = j + 1;
            } else {
                push_range(&mut out, text, i, text.len());
                proof {
                    assert(before + text@.subrange(i as int, text@.len() as int) + Seq::<
                        char,
                    >::empty() =~= before + text@.subrange(i as int, text@.len() as int));
                }
                i = text.len();
            }
        } else {
            out.push(text[i]);
            proof {
                let rest = strip_pairs_from(text@, i + 1);
                assert(before.push(text@[i as int]) + rest =~= before + (seq![text@[i as int]] + rest));
            }
            i += 1;
        }
    }
    proof {
        lemma_strip_pairs_length(text@);
        assert(out@ + Seq::<char>::empty() =~= out@);
    }
    out
}

/// Turns every run of two or more whitespace characters of `text` into one
/// space.
pub fn squash_space_chars(text: &[char]) -> (out: Vec<char>)
    ensures
        out@ == squash_spaces(text@),
        out@.len() <= text@.len(),
{
    let space = compile(SPACE_PATTERN);
    let mut out: Vec<char> = Vec::new();
    let mut i: usize = 0;
    while i < text.len()
        invariant
            i <= text.len(),
            space == regex_of(SPACE_PATTERN@),
            out@ + rewrite_from(text@, space_class(), squash_fn(), i as int) == squash_spaces(text@),
        decreases text.len() - i,
    {
        let ghost before = out@;
        if accepts_char(&space, text[i]) {
            let j = class_run_end(text, &space, i + 1);
            if j - i >= 2 {
                out.push(' ');
            } else {
                out.push(text[i]);
            }
            proof {
                let run = text@.subrange(i as int, j as int);
                let rest = rewrite_from(text@, space_class(), squash_fn(), j as int);
                assert(squash_fn()(run) == squash(run));
                if j - i < 2 {
                    assert(run =~= seq![text@[i as int]]);
                }
                assert(out@ =~= before + squash(run));
                assert((before + squash(run)) + rest =~= before + (squash(run) + rest));
            }
            i = j;
        } else {
            out.push(text[i]);
            proof {
                let rest = rewrite_from(text@, space_class(), squash_fn(), i + 1);
                assert(before.push(text@[i as int]) + rest =~= before + (seq![text@[i as int]] + rest));
            }
            i += 1;
        }
    }
    proof {
        lemma_squash_spaces_length(text@);
        assert(out@ + Seq::<char>::empty() =~= out@);
    }
    out
}

/// Removes what stands between asterisks in `text`, then squashes the runs
/// of whitespace.
pub fn strip_chars(text: &[char]) -> (out: Vec<char>)
    ensures
        out@ == strip_asterisks(text@),
        out@.len() <= text@.len(),
{
    let stripped = strip_pair_chars(text);
    squash_space_chars(stripped.as_slice())
}

} // verus!
