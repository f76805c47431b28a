//! Runs of characters of one class, and rewriting a text run by run.
//!
//! A run is a maximal stretch of neighbouring characters that all belong to a
//! class: it cannot be extended to the left or to the right. Words are the
//! runs of word characters. A scan from the left that, on meeting a character
//! of the class, takes everything up to the first character outside it, meets
//! every run at its first character and takes it whole; `rewrite_from` is
//! that scan, and the lemmas below say what it amounts to.

use crate::classes::{accepts_char, class_of};
use regex::Regex;
use vstd::prelude::*;

verus! {

/// The first position at or after `i` whose character is outside `class`, or
/// the length of `s` if there is none.
pub open spec fn run_end(s: Seq<char>, class: spec_fn(char) -> bool, i: int) -> int
    decreases s.len() - i,
{
    if 0 <= i < s.len() && class(s[i]) {
        run_end(s, class, i + 1)
    } else {
        i
    }
}

/// Whether the stretch of `s` from `a` up to `b` is a run of `class`: it is
/// not empty, it holds characters of the class only, and no character of the
/// class stands right before or right after it.
pub open spec fn is_run(s: Seq<char>, class: spec_fn(char) -> bool, a: int, b: int) -> bool {
    &&& 0 <= a < b <= s.len()
    &&& forall|k: int| a <= k < b ==> class(#[trigger] s[k])
    &&& (a == 0 || !class(s[a - 1]))
    &&& (b == s.len() || !class(s[b]))
}

/// Whether position `i` of `s` lies between runs of `class`, not inside one:
/// the characters on its two sides do not both belong to the class.
pub open spec fn between_runs(s: Seq<char>, class: spec_fn(char) -> bool, i: int) -> bool {
    &&& 0 <= i <= s.len()
    &&& (i == 0 || i == s.len() || !class(s[i - 1]) || !class(s[i]))
}

/// The text `s` from position `i` on, in which each run of `class` is
/// replaced by what `f` makes of it and every other character is kept.
pub open spec fn rewrite_from(
    s: Seq<char>,
    class: spec_fn(char) -> bool,
    f: spec_fn(Seq<char>) -> Seq<char>,
    i: int,
) -> Seq<char>
    decreases s.len() - i,
    via rewrite_from_decreases
{
    if i < 0 || i >= s.len() {
        Seq::empty()
    } else if class(s[i]) {
        let j = run_end(s, class, i + 1);
        f(s.subrange(i, j)) + rewrite_from(s, class, f, j)
    } else {
        seq![s[i]] + rewrite_from(s, class, f, i + 1)
    }
}

#[via_fn]
proof fn rewrite_from_decreases(
    s: Seq<char>,
    class: spec_fn(char) -> bool,
    f: spec_fn(Seq<char>) -> Seq<char>,
    i: int,
) {
    if 0 <= i < s.len() {
        lemma_run_end(s, class, i + 1);
    }
}

/// The text `s` in which each run of `class` is replaced by what `f` makes
/// of it and every other character is kept.
pub open spec fn rewrite_runs(
    s: Seq<char>,
    class: spec_fn(char) -> bool,
    f: spec_fn(Seq<char>) -> Seq<char>,
) -> Seq<char> {
    rewrite_from(s, class, f, 0)
}

/// Whether `f` lengthens no run of `class` in `s`.
pub open spec fn lengthens_no_run(
    s: Seq<char>,
    class: spec_fn(char) -> bool,
    f: spec_fn(Seq<char>) -> Seq<char>,
) -> bool {
    forall|a: int, b: int| #[trigger]
        is_run(s, class, a, b) ==> f(s.subrange(a, b)).len() <= b - a
}

/// Whether `f` keeps every run of `class` in `s` as it is.
pub open spec fn changes_no_run(
    s: Seq<char>,
    class: spec_fn(char) -> bool,
    f: spec_fn(Seq<char>) -> Seq<char>,
) -> bool {
    forall|a: int, b: int| #[trigger]
        is_run(s, class, a, b) ==> f(s.subrange(a, b)) == s.subrange(a, b)
}

/// A scan for the end of a run stops within the text, passes characters of
/// the class only, and stops before a character outside the class or at the
/// end of the text.
pub proof fn lemma_run_end(s: Seq<char>, class: spec_fn(char) -> bool, i: int)
    requires
        0 <= i <= s.len(),
    ensures
        i <= run_end(s, class, i) <= s.len(),
        forall|k: int| i <= k < run_end(s, class, i) ==> class(#[trigger] s[k]),
        run_end(s, class, i) < s.len() ==> !class(s[run_end(s, class, i)]),
    decreases s.len() - i,
{
    if i < s.len() && class(s[i]) {
        lemma_run_end(s, class, i + 1);
    }
}

/// A character of the class that is met between runs begins a run, which the
/// scan takes whole; the scan is then between runs again.
pub proof fn lemma_scan_takes_run(s: Seq<char>, class: spec_fn(char) -> bool, i: int)
    requires
        between_runs(s, class, i),
        i < s.len(),
        class(s[i]),
    ensures
        is_run(s, class, i, run_end(s, class, i + 1)),
        between_runs(s, class, run_end(s, class, i + 1)),
{
    lemma_run_end(s, class, i + 1);
}

/// Rewriting does not lengthen a text if it lengthens none of its runs.
pub proof fn lemma_rewrite_from_length(
    s: Seq<char>,
    class: spec_fn(char) -> bool,
    f: spec_fn(Seq<char>) -> Seq<char>,
    i: int,
)
    requires
        between_runs(s, class, i),
        lengthens_no_run(s, class, f),
    ensures
        rewrite_from(s, class, f, i).len() <= s.len() - i,
    decreases s.len() - i,
{
    if i < s.len() {
        if class(s[i]) {
            let j = run_end(s, class, i + 1);
            lemma_scan_takes_run(s, class, i);
            lemma_rewrite_from_length(s, class, f, j);
        } else {
            lemma_rewrite_from_length(s, class, f, i + 1);
        }
    }
}

/// Rewriting keeps a text if it keeps each of its runs.
pub proof fn lemma_rewrite_from_unchanged(
    s: Seq<char>,
    class: spec_fn(char) -> bool,
    f: spec_fn(Seq<char>) -> Seq<char>,
    i: int,
)
    requires
        between_runs(s, class, i),
        changes_no_run(s, class, f),
    ensures
        rewrite_from(s, class, f, i) == s.subrange(i, s.len() as int),
    decreases s.len() - i,
{
    let n = s.len() as int;
    if i < n {
        if class(s[i]) {
            let j = run_end(s, class, i + 1);
            lemma_scan_takes_run(s, class, i);
            lemma_rewrite_from_unchanged(s, class, f, j);
            assert(s.subrange(i, j) + s.subrange(j, n) =~= s.subrange(i, n));
        } else {
            lemma_rewrite_from_unchanged(s, class, f, i + 1);
            assert(seq![s[i]] + s.subrange(i + 1, n) =~= s.subrange(i, n));
        }
    }
}

/// Rewriting keeps a text that holds no character of the class.
pub proof fn lemma_rewrite_without_class(
    s: Seq<char>,
    class: spec_fn(char) -> bool,
    f: spec_fn(Seq<char>) -> Seq<char>,
)
    requires
        forall|k: int| 0 <= k < s.len() ==> !class(#[trigger] s[k]),
    ensures
        rewrite_runs(s, class, f) == s,
{
    assert forall|a: int, b: int| #[trigger] is_run(s, class, a, b) implies f(s.subrange(a, b))
        == s.subrange(a, b) by {
        assert(class(s[a]));
    }
    lemma_rewrite_from_unchanged(s, class, f, 0);
    assert(s.subrange(0, s.len() as int) =~= s);
}

/// A text that is one run is rewritten as a whole.
pub proof fn lemma_rewrite_of_run(
    w: Seq<char>,
    class: spec_fn(char) -> bool,
    f: spec_fn(Seq<char>) -> Seq<char>,
)
    requires
        w.len() > 0,
        forall|k: int| 0 <= k < w.len() ==> class(#[trigger] w[k]),
    ensures
        rewrite_runs(w, class, f) == f(w),
{
    let n = w.len() as int;
    lemma_run_end(w, class, 1);
    let j = run_end(w, class, 1);
    if j < n {
        assert(class(w[j]));
    }
    assert(w.subrange(0, n) =~= w);
    assert(f(w) + rewrite_from(w, class, f, n) =~= f(w));
}

/// The scan for the end of a run goes by the characters from its start on
/// only: on the text without its first `m` characters it stops at the same
/// character.
proof fn lemma_run_end_skip(s: Seq<char>, class: spec_fn(char) -> bool, m: int, i: int)
    requires
        0 <= m <= i <= s.len(),
    ensures
        run_end(s.skip(m), class, i - m) == run_end(s, class, i) - m,
    decreases s.len() - i,
{
    if i < s.len() && class(s[i]) {
        assert(s.skip(m)[i - m] == s[i]);
        lemma_run_end_skip(s, class, m, i + 1);
    }
}

/// Rewriting from a position on goes by the characters from that position on
/// only.
proof fn lemma_rewrite_from_skip(
    s: Seq<char>,
    class: spec_fn(char) -> bool,
    f: spec_fn(Seq<char>) -> Seq<char>,
    m: int,
    i: int,
)
    requires
        0 <= m <= i <= s.len(),
    ensures
        rewrite_from(s.skip(m), class, f, i - m) == rewrite_from(s, class, f, i),
    decreases s.len() - i,
{
    let t = s.skip(m);
    if i < s.len() {
        assert(t[i - m] == s[i]);
        if class(s[i]) {
            let j = run_end(s, class, i + 1);
            lemma_run_end(s, class, i + 1);
            lemma_run_end_skip(s, class, m, i + 1);
            assert(t.subrange(i - m, j - m) =~= s.subrange(i, j));
            lemma_rewrite_from_skip(s, class, f, m, j);
        } else {
            lemma_rewrite_from_skip(s, class, f, m, i + 1);
        }
    }
}

/// A scan that stops at or before position `m` stops at the same place on
/// the first `m` characters alone.
proof fn lemma_run_end_take(s: Seq<char>, class: spec_fn(char) -> bool, m: int, i: int)
    requires
        0 <= i <= m <= s.len(),
        run_end(s, class, i) <= m,
    ensures
        run_end(s.take(m), class, i) == run_end(s, class, i),
    decreases m - i,
{
    if i < s.len() && class(s[i]) {
        lemma_run_end(s, class, i + 1);
        assert(s.take(m)[i] == s[i]);
        lemma_run_end_take(s, class, m, i + 1);
    }
}

/// Up to a position between runs, rewriting goes by the characters before
/// that position only.
proof fn lemma_rewrite_from_take(
    s: Seq<char>,
    class: spec_fn(char) -> bool,
    f: spec_fn(Seq<char>) -> Seq<char>,
    m: int,
    i: int,
)
    requires
        0 <= i <= m,
        between_runs(s, class, m),
    ensures
        rewrite_from(s, class, f, i) == rewrite_from(s.take(m), class, f, i) + rewrite_from(
            s,
            class,
            f,
            m,
        ),
    decreases m - i,
{
    let t = s.take(m);
    if i < m {
        assert(t[i] == s[i]);
        if class(s[i]) {
            let j = run_end(s, class, i + 1);
            lemma_run_end(s, class, i + 1);
            if j > m {
                assert(class(s[m - 1]));
                assert(class(s[m]));
            }
            lemma_run_end_take(s, class, m, i + 1);
            assert(t.subrange(i, j) =~= s.subrange(i, j));
            lemma_rewrite_from_take(s, class, f, m, j);
            let run = f(s.subrange(i, j));
            assert(run + (rewrite_from(t, class, f, j) + rewrite_from(s, class, f, m)) =~= (run
                + rewrite_from(t, class, f, j)) + rewrite_from(s, class, f, m));
        } else {
            lemma_rewrite_from_take(s, class, f, m, i + 1);
            let head = seq![s[i]];
            assert(head + (rewrite_from(t, class, f, i + 1) + rewrite_from(s, class, f, m)) =~= (
            head + rewrite_from(t, class, f, i + 1)) + rewrite_from(s, class, f, m));
        }
    } else {
        assert(rewrite_from(t, class, f, i) + rewrite_from(s, class, f, m) =~= rewrite_from(
            s,
            class,
            f,
            m,
        ));
    }
}

/// Runs are rewritten each by itself: cut a text between two runs, rewrite
/// the two parts, and put them together again, and the result is the whole
/// text rewritten.
pub proof fn lemma_rewrite_at_cut(
    s: Seq<char>,
    class: spec_fn(char) -> bool,
    f: spec_fn(Seq<char>) -> Seq<char>,
    m: int,
)
    requires
        between_runs(s, class, m),
    ensures
        rewrite_runs(s, class, f) == rewrite_runs(s.take(m), class, f) + rewrite_runs(
            s.skip(m),
            class,
            f,
        ),
{
    lemma_rewrite_from_take(s, class, f, m, 0);
    lemma_rewrite_from_skip(s, class, f, m, m);
}

/// The end of the run of the class of `re` that starts at `start`.
pub(crate) fn class_run_end(text: &[char], re: &Regex, start: usize) -> (end: usize)
    requires
        start <= text.len(),
    ensures
        end == run_end(text@, class_of(*re), start as int),
        start <= end <= text.len(),
{
    let mut j: usize = start;
    while j < text.len() && accepts_char(re, text[j])
        invariant
            start <= j <= text.len(),
            run_end(text@, class_of(*re), j as int) == run_end(text@, class_of(*re), start as int),
        decreases text.len() - j,
    {
        j += 1;
    }
    j
}

} // verus!
