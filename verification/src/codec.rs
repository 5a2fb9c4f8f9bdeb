//! Parsing a candidate span into a date-time with offset, and encoding a
//! projected date-time back into text.
//!
//! The accepted form is `YYYY-MM-DDTHH:MM:SS`, an optional fraction `.d+`,
//! and a zone that is either the letter `Z`/`z` (UTC) or a numeric offset
//! `+HH:MM`/`-HH:MM`. The calendar fields must be valid (months 1 to 12,
//! days within the month, leap years respected). Output is always encoded
//! with a numeric offset, never with a zone letter, and an input fraction
//! keeps its digit sequence unchanged.

use vstd::prelude::*;

verus! {

use crate::is_digit;
use crate::scan::{is_sign, is_zone_letter};
use crate::cal::{Civil, civil_wf, days_in_month_exec};

/// A parsed candidate span: calendar fields, the fraction's digit sequence
/// (empty when absent), and the zone offset in seconds.
pub struct SpecStamp {
    pub civ: Civil,
    pub frac: Seq<u8>,
    pub off: int,
}

/// The executable counterpart of `SpecStamp`.
pub struct Stamp {
    pub year: u64,
    pub month: u64,
    pub day: u64,
    pub hour: u64,
    pub minute: u64,
    pub second: u64,
    pub frac: Vec<u8>,
    pub off: i64,
}

impl Stamp {
    /// The mathematical value of this parsed span.
    pub open spec fn as_spec(&self) -> SpecStamp {
        SpecStamp {
            civ: Civil {
                year: self.year as int,
                month: self.month as int,
                day: self.day as int,
                hour: self.hour as int,
                minute: self.minute as int,
                second: self.second as int,
            },
            frac: self.frac@,
            off: self.off as int,
        }
    }
}

/// Numeric value of an ASCII digit byte.
pub open spec fn dval(b: u8) -> int {
    b - 48
}

/// Value of the two-digit number at `i`.
pub open spec fn two_at(s: Seq<u8>, i: int) -> int {
    dval(s[i]) * 10 + dval(s[i + 1])
}

/// Value of the four-digit number at `i`.
pub open spec fn four_at(s: Seq<u8>, i: int) -> int {
    dval(s[i]) * 1000 + dval(s[i + 1]) * 100 + dval(s[i + 2]) * 10 + dval(s[i + 3])
}

/// Both bytes at `i` and `i + 1` are digits.
pub open spec fn digits2(s: Seq<u8>, i: int) -> bool {
    is_digit(s[i]) && is_digit(s[i + 1])
}

/// Where the zone suffix starts and which offset it denotes: the last byte
/// as a zone letter means UTC, otherwise the last six bytes must read
/// `+HH:MM` or `-HH:MM` with `HH` at most 23 and `MM` at most 59.
pub open spec fn zone_of(sp: Seq<u8>) -> Option<(int, int)> {
    let n = sp.len() as int;
    if n >= 1 && is_zone_letter(sp[n - 1]) {
        Some((n - 1, 0))
    } else if n >= 6 && is_sign(sp[n - 6]) && digits2(sp, n - 5) && sp[n - 3] == 58
        && digits2(sp, n - 2) && two_at(sp, n - 5) <= 23 && two_at(sp, n - 2) <= 59 {
        let secs = two_at(sp, n - 5) * 3600 + two_at(sp, n - 2) * 60;
        Some((n - 6, if sp[n - 6] == 43 { secs } else { -secs }))
    } else {
        None
    }
}

/// The fixed `YYYY-MM-DDTHH:MM:SS` head of a span.
pub open spec fn head_ok(sp: Seq<u8>) -> bool {
    &&& sp.len() >= 19
    &&& digits2(sp, 0) && digits2(sp, 2)
    &&& sp[4] == 45
    &&& digits2(sp, 5)
    &&& sp[7] == 45
    &&& digits2(sp, 8)
    &&& sp[10] == 84
    &&& digits2(sp, 11)
    &&& sp[13] == 58
    &&& digits2(sp, 14)
    &&& sp[16] == 58
    &&& digits2(sp, 17)
}

/// The optional fraction between the head and the zone at `z`: either
/// absent, or a dot followed by one or more digits.
pub open spec fn frac_ok(sp: Seq<u8>, z: int) -> bool {
    if z == 19 {
        true
    } else {
        &&& z >= 21
        &&& sp[19] == 46
        &&& forall|j: int| 20 <= j < z ==> is_digit(#[trigger] sp[j])
    }
}

/// The calendar fields spelled in the head of the span.
pub open spec fn head_fields(sp: Seq<u8>) -> Civil {
    Civil {
        year: four_at(sp, 0),
        month: two_at(sp, 5),
        day: two_at(sp, 8),
        hour: two_at(sp, 11),
        minute: two_at(sp, 14),
        second: two_at(sp, 17),
    }
}

/// Parses a candidate span: `Some` exactly when the span has the accepted
/// form and names a valid calendar date-time.
pub open spec fn parse_span(sp: Seq<u8>) -> Option<SpecStamp> {
    match zone_of(sp) {
        None => None,
        Some((z, off)) => {
            if z >= 19 && head_ok(sp) && frac_ok(sp, z) && civil_wf(head_fields(sp)) {
                Some(SpecStamp {
                    civ: head_fields(sp),
                    frac: if z == 19 { Seq::empty() } else { sp.subrange(20, z) },
                    off: off,
                })
            } else {
                None
            }
        }
    }
}

/// A parsed span is well-formed: valid calendar fields, a digit fraction,
/// and a whole-minute offset of less than a day.
pub proof fn lemma_parse_wf(sp: Seq<u8>)
    requires
        parse_span(sp) is Some,
    ensures
        civil_wf(parse_span(sp)->Some_0.civ),
        -86340 <= parse_span(sp)->Some_0.off <= 86340,
        parse_span(sp)->Some_0.off % 60 == 0,
        forall|j: int|
            0 <= j < parse_span(sp)->Some_0.frac.len()
                ==> is_digit(#[trigger] parse_span(sp)->Some_0.frac[j]),
{
}

/// Reads the two-digit number at `i`.
fn rd2(sp: &[u8], i: usize) -> (r: u64)
    requires
        i + 2 <= sp@.len(),
        digits2(sp@, i as int),
    ensures
        r == two_at(sp@, i as int),
        r <= 99,
{
    ((sp[i] - 48) as u64) * 10 + ((sp[i + 1] - 48) as u64)
}

/// Checks that the two bytes at `i` are digits.
fn chk2(sp: &[u8], i: usize) -> (r: bool)
    requires
        i + 2 <= sp@.len(),
    ensures
        r == digits2(sp@, i as int),
{
    48 <= sp[i] && sp[i] <= 57 && 48 <= sp[i + 1] && sp[i + 1] <= 57
}

/// Parses a candidate span; mirrors `parse_span`.
pub fn parse_exec(sp: &[u8]) -> (r: Option<Stamp>)
    ensures
        match r {
            Some(st) => parse_span(sp@) == Some(st.as_spec()),
            None => parse_span(sp@) is None,
        },
{
    let n = sp.len();
    let z: usize;
    let off: i64;
    if n >= 1 && (sp[n - 1] == 90 || sp[n - 1] == 122) {
        z = n - 1;
        off = 0;
    } else if n >= 6 && (sp[n - 6] == 43 || sp[n - 6] == 45) && chk2(sp, n - 5)
        && sp[n - 3] == 58 && chk2(sp, n - 2) {
        let hh = rd2(sp, n - 5);
        let mm = rd2(sp, n - 2);
        if !(hh <= 23 && mm <= 59) {
            return None;
        }
        let secs = (hh * 3600 + mm * 60) as i64;
        z = n - 6;
        off = if sp[n - 6] == 43 {
            secs
        } else {
            -secs
        };
    } else {
        return None;
    }
    if z < 19 {
        return None;
    }
    let shape_ok = chk2(sp, 0) && chk2(sp, 2) && sp[4] == 45 && chk2(sp, 5) && sp[7] == 45
        && chk2(sp, 8) && sp[10] == 84 && chk2(sp, 11) && sp[13] == 58 && chk2(sp, 14)
        && sp[16] == 58 && chk2(sp, 17);
    if !shape_ok {
        return None;
    }
    let mut frac: Vec<u8> = Vec::new();
    if z > 19 {
        if !(z >= 21 && sp[19] == 46) {
            return None;
        }
        let mut k: usize = 20;
        while k < z
            invariant
                20 <= k <= z <= sp@.len(),
                frac@ == sp@.subrange(20, k as int),
                forall|j: int| 20 <= j < k ==> is_digit(#[trigger] sp@[j]),
                zone_of(sp@) == Some((z as int, off as int)),
                z >= 21,
                sp@[19] == 46,
            decreases z - k,
        {
            if !(48 <= sp[k] && sp[k] <= 57) {
                return None;
            }
            frac.push(sp[k]);
            proof {
                assert(frac@ =~= sp@.subrange(20, k + 1));
            }
            k += 1;
        }
    }
    let year = rd2(sp, 0) * 100 + rd2(sp, 2);
    let month = rd2(sp, 5);
    let day = rd2(sp, 8);
    let hour = rd2(sp, 11);
    let minute = rd2(sp, 14);
    let second = rd2(sp, 17);
    if !(1 <= month && month <= 12) {
        return None;
    }
    if !(1 <= day && day <= days_in_month_exec(year, month)) {
        return None;
    }
    if !(hour <= 23 && minute <= 59 && second <= 59) {
        return None;
    }
    let st = Stamp { year, month, day, hour, minute, second, frac, off };
    proof {
        assert(st.as_spec().frac =~= parse_span(sp@)->Some_0.frac);
    }
    Some(st)
}

/// The digit byte for `n`.
pub open spec fn dig(n: int) -> u8 {
    (48 + n) as u8
}

/// Two-digit rendering of `n`.
pub open spec fn two_seq(n: int) -> Seq<u8> {
    seq![dig(n / 10), dig(n % 10)]
}

/// Four-digit rendering of `n`.
pub open spec fn four_seq(n: int) -> Seq<u8> {
    seq![dig(n / 1000), dig((n / 100) % 10), dig((n / 10) % 10), dig(n % 10)]
}

/// Rendering of a fraction: nothing, or a dot and its digits.
pub open spec fn frac_seq(frac: Seq<u8>) -> Seq<u8> {
    if frac.len() == 0 {
        Seq::empty()
    } else {
        seq![46u8] + frac
    }
}

/// Magnitude of an offset.
pub open spec fn off_abs(off: int) -> int {
    if off >= 0 {
        off
    } else {
        -off
    }
}

/// Rendering of a zone offset as `+HH:MM` or `-HH:MM`; seconds beyond a
/// whole minute are dropped.
pub open spec fn off_seq(off: int) -> Seq<u8> {
    seq![if off >= 0 { 43u8 } else { 45u8 }] + two_seq(off_abs(off) / 3600) + seq![58u8]
        + two_seq((off_abs(off) % 3600) / 60)
}

/// Full rendering of a projected date-time: extended ISO-8601 with a
/// numeric offset, the fraction's digits carried over unchanged.
pub open spec fn encode(c: Civil, frac: Seq<u8>, off: int) -> Seq<u8> {
    four_seq(c.year) + seq![45u8] + two_seq(c.month) + seq![45u8] + two_seq(c.day) + seq![84u8]
        + two_seq(c.hour) + seq![58u8] + two_seq(c.minute) + seq![58u8] + two_seq(c.second)
        + frac_seq(frac) + off_seq(off)
}

/// Appends the two digits of `n`.
fn push2(out: &mut Vec<u8>, n: u64)
    requires
        n <= 99,
    ensures
        final(out)@ == old(out)@ + two_seq(n as int),
{
    out.push(48 + (n / 10) as u8);
    out.push(48 + (n % 10) as u8);
    proof {
        assert(final(out)@ =~= old(out)@ + two_seq(n as int));
    }
}

/// Appends the four digits of `n`.
fn push4(out: &mut Vec<u8>, n: u64)
    requires
        n <= 9999,
    ensures
        final(out)@ == old(out)@ + four_seq(n as int),
{
    out.push(48 + (n / 1000) as u8);
    out.push(48 + ((n / 100) % 10) as u8);
    out.push(48 + ((n / 10) % 10) as u8);
    out.push(48 + (n % 10) as u8);
    proof {
        assert(final(out)@ =~= old(out)@ + four_seq(n as int));
    }
}

/// Renders a projected date-time; mirrors `encode`.
pub fn encode_exec(y: u64, mo: u64, d: u64, h: u64, mi: u64, se: u64, frac: &Vec<u8>, off: i64)
    -> (r: Vec<u8>)
    requires
        y <= 9999,
        mo <= 99,
        d <= 99,
        h <= 99,
        mi <= 99,
        se <= 99,
        -86400 < off < 86400,
    ensures
        r@ == encode(
            Civil {
                year: y as int,
                month: mo as int,
                day: d as int,
                hour: h as int,
                minute: mi as int,
                second: se as int,
            },
            frac@,
            off as int,
        ),
{
    let ghost c = Civil {
        year: y as int,
        month: mo as int,
        day: d as int,
        hour: h as int,
        minute: mi as int,
        second: se as int,
    };
    let mut out: Vec<u8> = Vec::new();
    push4(&mut out, y);
    out.push(45);
    push2(&mut out, mo);
    out.push(45);
    push2(&mut out, d);
    out.push(84);
    push2(&mut out, h);
    out.push(58);
    push2(&mut out, mi);
    out.push(58);
    push2(&mut out, se);
    let ghost head = four_seq(c.year) + seq![45u8] + two_seq(c.month) + seq![45u8]
        + two_seq(c.day) + seq![84u8] + two_seq(c.hour) + seq![58u8] + two_seq(c.minute)
        + seq![58u8] + two_seq(c.second);
    proof {
        assert(out@ =~= head);
    }
    if frac.len() > 0 {
        out.push(46);
        let mut k: usize = 0;
        while k < frac.len()
            invariant
                k <= frac@.len(),
                out@ == head + seq![46u8] + frac@.subrange(0, k as int),
            decreases frac@.len() - k,
        {
            out.push(frac[k]);
            proof {
                assert(out@ =~= head + seq![46u8] + frac@.subrange(0, k + 1));
            }
            k += 1;
        }
        proof {
            assert(frac@.subrange(0, frac@.len() as int) =~= frac@);
            assert(out@ =~= head + frac_seq(frac@));
        }
    }
    let a: u64;
    if off >= 0 {
        out.push(43);
        a = off as u64;
    } else {
        out.push(45);
        a = (-off) as u64;
    }
    push2(&mut out, a / 3600);
    out.push(58);
    push2(&mut out, (a % 3600) / 60);
    proof {
        assert(out@ =~= encode(c, frac@, off as int));
    }
    out
}

} // verus!
