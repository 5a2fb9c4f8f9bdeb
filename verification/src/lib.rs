//! A streaming text filter for timestamps: substrings of a line that look
//! like ISO-8601 date-times are parsed, re-projected onto a target timezone
//! rule, and re-encoded with a numeric `+HH:MM` offset; everything else is
//! passed through unchanged. A span that merely looks like a timestamp but
//! is not a valid one also passes through unchanged.

use vstd::prelude::*;

mod cal;
mod codec;
pub mod laws;
mod scan;

verus! {

/// A byte is an ASCII decimal digit.
pub open spec fn is_digit(b: u8) -> bool {
    48 <= b <= 57
}

/// The target timezone rule: given an instant, it names the offset whose
/// local calendar the output should show.
pub enum Tz {
    /// A fixed offset, in seconds east of UTC.
    Fixed(i64),
    /// The system's local timezone, as the environment defines it.
    Local,
}

impl Tz {
    /// A fixed offset must be a whole number of minutes, less than a day
    /// in magnitude, as its `±HH:MM` rendering requires.
    pub open spec fn wf(&self) -> bool {
        match *self {
            Tz::Fixed(off) => -86400 < off < 86400 && off % 60 == 0,
            Tz::Local => true,
        }
    }
}

/// The two fatal failure kinds of a filtering run, for callers that drive
/// a stream through the filter. A candidate span that fails to parse is
/// not an error: it passes through unchanged.
#[derive(Debug)]
pub enum Error {
    /// Reading the input or writing the output failed.
    IoError,
    /// The recognizer pattern could not be constructed. The recognizer of
    /// this library is plain code and cannot fail to build; the kind is
    /// kept so that callers can report configuration failures apart from
    /// runtime ones.
    RegexError,
}

/// Relies on chrono: `Local.offset_from_utc_datetime` gives the system
/// timezone's offset at an instant as a `FixedOffset`, whose seconds are
/// strictly between -86400 and 86400 (the bounds `FixedOffset::east_opt`
/// enforces); `DateTime::from_timestamp_secs` turns a Unix second count
/// into that instant, `None` when it lies outside chrono's range. The
/// offset depends on the machine's environment, so nothing more than its
/// bounds is stated.
#[verifier::external_body]
fn local_offset_secs(unix_secs: i64) -> (r: i64)
    ensures
        -86400 < r < 86400,
{
    match chrono::DateTime::<chrono::Utc>::from_timestamp_secs(unix_secs) {
        Some(dt) => {
            let off = chrono::TimeZone::offset_from_utc_datetime(&chrono::Local, &dt.naive_utc());
            chrono::offset::FixedOffset::local_minus_utc(&off) as i64
        },
        None => 0,
    }
}

/// What one candidate span becomes under a fixed target offset: its
/// re-encoding at that offset when it parses and the projected instant is
/// representable, else the span itself.
pub open spec fn replace_span(sp: Seq<u8>, off: int) -> Seq<u8> {
    match codec::parse_span(sp) {
        None => sp,
        Some(st) => {
            let t = cal::secs_of(st.civ) - st.off + off;
            if 0 <= t < cal::max_secs() {
                codec::encode(cal::civil_of(t), st.frac, off)
            } else {
                sp
            }
        },
    }
}

/// What the text from position `i` on becomes under a fixed target offset:
/// each leftmost candidate span is replaced, never overlapping an earlier
/// one, and every byte outside the spans is kept.
pub open spec fn rewrite_from(s: Seq<u8>, i: int, off: int) -> Seq<u8>
    decreases s.len() - i,
{
    if i < 0 || i >= s.len() {
        Seq::empty()
    } else {
        match scan::match_end(s, i) {
            Some(e) => {
                if i < e <= s.len() {
                    replace_span(s.subrange(i, e), off) + rewrite_from(s, e, off)
                } else {
                    seq![s[i]] + rewrite_from(s, i + 1, off)
                }
            },
            None => seq![s[i]] + rewrite_from(s, i + 1, off),
        }
    }
}

/// What a whole text becomes under a fixed target offset.
pub open spec fn rewrite(s: Seq<u8>, off: int) -> Seq<u8> {
    rewrite_from(s, 0, off)
}

/// No candidate span starts anywhere in the text.
pub open spec fn no_candidate(s: Seq<u8>) -> bool {
    forall|i: int| 0 <= i < s.len() ==> scan::match_end(s, i) is None
}

/// Turns the span `s[i..e]` into its rewritten form, or hands it back
/// unchanged when it does not name a valid date-time or the projection
/// leaves the representable years.
fn project_span(s: &[u8], i: usize, e: usize, tz: &Tz) -> (r: Vec<u8>)
    requires
        i < e <= s@.len(),
        tz.wf(),
    ensures
        forall|off: i64|
            *tz == Tz::Fixed(off) ==> r@ == replace_span(
                s@.subrange(i as int, e as int),
                off as int,
            ),
{
    let sp = &s[i..e];
    match codec::parse_exec(sp) {
        None => vstd::slice::slice_to_vec(sp),
        Some(st) => {
            proof {
                codec::lemma_parse_wf(sp@);
                cal::lemma_dby_bounds(10000);
            }
            let base = cal::secs_of_exec(st.year, st.month, st.day, st.hour, st.minute, st.second);
            let target: i64 = match tz {
                Tz::Fixed(off) => *off,
                Tz::Local => {
                    let epoch_days = cal::days_before_year_exec(1970);
                    local_offset_secs(base as i64 - st.off - (epoch_days * 86400) as i64)
                },
            };
            let t: i64 = base as i64 - st.off + target;
            if t < 0 {
                return vstd::slice::slice_to_vec(sp);
            }
            let limit: u64 = cal::days_before_year_exec(10000) * 86400;
            if t as u64 >= limit {
                return vstd::slice::slice_to_vec(sp);
            }
            proof {
                cal::lemma_civil_of_wf(t as int);
            }
            let (y, mo, d, h, mi, se) = cal::civil_of_exec(t as u64);
            codec::encode_exec(y, mo, d, h, mi, se, &st.frac, target)
        },
    }
}

/// The filtering operation itself, on one line or on any larger piece of
/// text: every candidate span that names a valid date-time is rewritten
/// onto the target rule; all other bytes, and every span that fails to
/// parse, pass through unchanged. With a fixed target offset the result is
/// exactly `rewrite`; with any target, text without candidates is returned
/// as it came.
pub fn filter(input: &[u8], tz: &Tz) -> (out: Vec<u8>)
    requires
        tz.wf(),
    ensures
        forall|off: i64| *tz == Tz::Fixed(off) ==> out@ == rewrite(input@, off as int),
        no_candidate(input@) ==> out@ == input@,
{
    let mut out: Vec<u8> = Vec::new();
    let mut i: usize = 0;
    while i < input.len()
        invariant
            i <= input@.len(),
            tz.wf(),
            forall|off: i64|
                *tz == Tz::Fixed(off) ==> out@ + rewrite_from(input@, i as int, off as int)
                    == rewrite(input@, off as int),
            no_candidate(input@) ==> out@ == input@.subrange(0, i as int),
        decreases input@.len() - i,
    {
        let ghost prev = out@;
        match scan::try_match(input, i) {
            Some(e) => {
                let mut rep = project_span(input, i, e, tz);
                out.append(&mut rep);
                proof {
                    assert forall|off: i64| *tz == Tz::Fixed(off) implies out@ + rewrite_from(
                        input@,
                        e as int,
                        off as int,
                    ) == rewrite(input@, off as int) by {
                        assert(rewrite_from(input@, i as int, off as int) == replace_span(
                            input@.subrange(i as int, e as int),
                            off as int,
                        ) + rewrite_from(input@, e as int, off as int));
                        assert(out@ + rewrite_from(input@, e as int, off as int) =~= prev
                            + rewrite_from(input@, i as int, off as int));
                    }
                }
                i = e;
            },
            None => {
                out.push(input[i]);
                proof {
                    assert forall|off: i64| *tz == Tz::Fixed(off) implies out@ + rewrite_from(
                        input@,
                        i + 1,
                        off as int,
                    ) == rewrite(input@, off as int) by {
                        assert(rewrite_from(input@, i as int, off as int) == seq![
                            input@[i as int],
                        ] + rewrite_from(input@, i + 1, off as int));
                        assert(out@ + rewrite_from(input@, i + 1, off as int) =~= prev
                            + rewrite_from(input@, i as int, off as int));
                    }
                    if no_candidate(input@) {
                        assert(out@ =~= input@.subrange(0, i + 1));
                    }
                }
                i += 1;
            },
        }
    }
    proof {
        assert forall|off: i64| *tz == Tz::Fixed(off) implies out@ == rewrite(
            input@,
            off as int,
        ) by {
            assert(out@ + rewrite_from(input@, i as int, off as int) =~= out@);
        }
        if no_candidate(input@) {
            assert(input@.subrange(0, i as int) =~= input@);
        }
    }
    out
}

} // verus!
