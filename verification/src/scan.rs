//! The recognizer: finds the substrings of a line that are plausibly
//! timestamps. The pattern is: one or more digits or hyphens, a literal `T`,
//! one or more digits or colons, an optional fraction (`.` followed by one or
//! more digits), and a zone suffix that is either the letter `Z`/`z` or a
//! sign followed by one or more digits or colons. Matching is leftmost and
//! greedy; matches never overlap.
//!
//! Candidates are recognized by shape only: whether one is a valid calendar
//! date-time is decided later, by the parser.

use vstd::prelude::*;

verus! {

use crate::is_digit;

/// A byte that may appear in the date part: an ASCII digit or `-`.
pub open spec fn is_date_byte(b: u8) -> bool {
    is_digit(b) || b == 45
}

/// A byte that may appear in the time part: an ASCII digit or `:`.
pub open spec fn is_time_byte(b: u8) -> bool {
    is_digit(b) || b == 58
}

/// The zone letter `Z` or `z`, denoting UTC.
pub open spec fn is_zone_letter(b: u8) -> bool {
    b == 90 || b == 122
}

/// The sign of a numeric zone offset: `+` or `-`.
pub open spec fn is_sign(b: u8) -> bool {
    b == 43 || b == 45
}

/// The end of the maximal run of bytes satisfying `cls` that starts at `i`.
pub open spec fn run_end(s: Seq<u8>, i: int, cls: spec_fn(u8) -> bool) -> int
    decreases s.len() - i,
{
    if 0 <= i < s.len() && cls(s[i]) {
        run_end(s, i + 1, cls)
    } else {
        i
    }
}

/// End of the maximal run of date bytes starting at `i`.
pub open spec fn date_run(s: Seq<u8>, i: int) -> int {
    run_end(s, i, |b: u8| is_date_byte(b))
}

/// End of the maximal run of time bytes starting at `i`.
pub open spec fn time_run(s: Seq<u8>, i: int) -> int {
    run_end(s, i, |b: u8| is_digit(b) || b == 58)
}

/// End of the maximal run of digits starting at `i`.
pub open spec fn digit_run(s: Seq<u8>, i: int) -> int {
    run_end(s, i, |b: u8| is_digit(b))
}

/// Position after the optional fraction whose dot would sit at `p`, or -1 if
/// a dot is present but not followed by a digit (the pattern then fails,
/// since no zone can begin with `.`).
pub open spec fn frac_end(s: Seq<u8>, p: int) -> int {
    if p < s.len() && s[p] == 46 {
        if digit_run(s, p + 1) == p + 1 {
            -1
        } else {
            digit_run(s, p + 1)
        }
    } else {
        p
    }
}

/// End of a zone suffix beginning at `p`: one zone letter, or a sign
/// followed by a maximal nonempty run of time bytes.
pub open spec fn zone_end(s: Seq<u8>, p: int) -> Option<int> {
    if p < s.len() && is_zone_letter(s[p]) {
        Some(p + 1)
    } else if p < s.len() && is_sign(s[p]) && time_run(s, p + 1) > p + 1 {
        Some(time_run(s, p + 1))
    } else {
        None
    }
}

/// The end of the pattern match that starts exactly at `i`, if any.
pub open spec fn match_end(s: Seq<u8>, i: int) -> Option<int> {
    let a = date_run(s, i);
    if !(i < a && a < s.len() && s[a] == 84) {
        None
    } else {
        let b = time_run(s, a + 1);
        if b == a + 1 {
            None
        } else {
            let p = frac_end(s, b);
            if p < 0 {
                None
            } else {
                zone_end(s, p)
            }
        }
    }
}

pub proof fn lemma_run_end(s: Seq<u8>, i: int, cls: spec_fn(u8) -> bool)
    requires
        0 <= i <= s.len(),
    ensures
        i <= run_end(s, i, cls) <= s.len(),
        forall|j: int| i <= j < run_end(s, i, cls) ==> cls(s[j]),
        run_end(s, i, cls) < s.len() ==> !cls(s[run_end(s, i, cls)]),
    decreases s.len() - i,
{
    if i < s.len() && cls(s[i]) {
        lemma_run_end(s, i + 1, cls);
    }
}

/// A run of date bytes that stops at `j` has `j` as its end.
pub proof fn lemma_date_run_is(s: Seq<u8>, i: int, j: int)
    requires
        0 <= i <= j <= s.len(),
        forall|k: int| i <= k < j ==> is_date_byte(#[trigger] s[k]),
        j < s.len() ==> !is_date_byte(s[j]),
    ensures
        date_run(s, i) == j,
    decreases j - i,
{
    if i < j {
        lemma_date_run_is(s, i + 1, j);
    }
}

/// A run of time bytes that stops at `j` has `j` as its end.
pub proof fn lemma_time_run_is(s: Seq<u8>, i: int, j: int)
    requires
        0 <= i <= j <= s.len(),
        forall|k: int| i <= k < j ==> is_time_byte(#[trigger] s[k]),
        j < s.len() ==> !is_time_byte(s[j]),
    ensures
        time_run(s, i) == j,
    decreases j - i,
{
    if i < j {
        lemma_time_run_is(s, i + 1, j);
    }
}

/// A run of digits that stops at `j` has `j` as its end.
pub proof fn lemma_digit_run_is(s: Seq<u8>, i: int, j: int)
    requires
        0 <= i <= j <= s.len(),
        forall|k: int| i <= k < j ==> is_digit(#[trigger] s[k]),
        j < s.len() ==> !is_digit(s[j]),
    ensures
        digit_run(s, i) == j,
    decreases j - i,
{
    if i < j {
        lemma_digit_run_is(s, i + 1, j);
    }
}

/// Finds the end of the maximal run of date bytes starting at `i`.
fn date_run_exec(s: &[u8], i: usize) -> (r: usize)
    requires
        i <= s@.len(),
    ensures
        r == date_run(s@, i as int),
{
    let mut j = i;
    while j < s.len() && (48 <= s[j] && s[j] <= 57 || s[j] == 45)
        invariant
            i <= j <= s@.len(),
            date_run(s@, i as int) == date_run(s@, j as int),
        decreases s@.len() - j,
    {
        j += 1;
    }
    j
}

/// Finds the end of the maximal run of time bytes starting at `i`.
fn time_run_exec(s: &[u8], i: usize) -> (r: usize)
    requires
        i <= s@.len(),
    ensures
        r == time_run(s@, i as int),
{
    let mut j = i;
    while j < s.len() && (48 <= s[j] && s[j] <= 57 || s[j] == 58)
        invariant
            i <= j <= s@.len(),
            time_run(s@, i as int) == time_run(s@, j as int),
        decreases s@.len() - j,
    {
        j += 1;
    }
    j
}

/// Finds the end of the maximal run of digits starting at `i`.
fn digit_run_exec(s: &[u8], i: usize) -> (r: usize)
    requires
        i <= s@.len(),
    ensures
        r == digit_run(s@, i as int),
{
    let mut j = i;
    while j < s.len() && 48 <= s[j] && s[j] <= 57
        invariant
            i <= j <= s@.len(),
            digit_run(s@, i as int) == digit_run(s@, j as int),
        decreases s@.len() - j,
    {
        j += 1;
    }
    j
}

/// Decides whether a pattern match starts exactly at `i`, and if so where it
/// ends.
pub fn try_match(s: &[u8], i: usize) -> (r: Option<usize>)
    requires
        i <= s@.len(),
    ensures
        match r {
            Some(e) => {
                &&& match_end(s@, i as int) == Some(e as int)
                &&& i < e <= s@.len()
            },
            None => match_end(s@, i as int) is None,
        },
{
    proof {
        lemma_run_end(s@, i as int, |b: u8| is_date_byte(b));
    }
    let a = date_run_exec(s, i);
    if !(i < a && a < s.len() && s[a] == 84) {
        return None;
    }
    proof {
        lemma_run_end(s@, a + 1, |b: u8| is_digit(b) || b == 58);
    }
    let b = time_run_exec(s, a + 1);
    if b == a + 1 {
        return None;
    }
    let p: usize = if b < s.len() && s[b] == 46 {
        proof {
            lemma_run_end(s@, b + 1, |b: u8| is_digit(b));
        }
        let f = digit_run_exec(s, b + 1);
        if f == b + 1 {
            return None;
        }
        f
    } else {
        b
    };
    if p < s.len() && (s[p] == 90 || s[p] == 122) {
        Some(p + 1)
    } else if p < s.len() && (s[p] == 43 || s[p] == 45) {
        proof {
            lemma_run_end(s@, p + 1, |b: u8| is_digit(b) || b == 58);
        }
        let q = time_run_exec(s, p + 1);
        if q > p + 1 {
            Some(q)
        } else {
            None
        }
    } else {
        None
    }
}

} // verus!
