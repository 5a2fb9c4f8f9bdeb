//! The laws of the filter, stated over the same spec functions its
//! contracts use and proved once and for all.

use vstd::prelude::*;

verus! {

use crate::{is_digit, no_candidate, replace_span, rewrite, rewrite_from};
use crate::cal;
use crate::cal::{Civil, civil_wf};
use crate::codec;
use crate::codec::{SpecStamp, dig, dval, encode, frac_seq, off_abs, parse_span};
use crate::scan;

proof fn lemma_pass_through_from(s: Seq<u8>, i: int, off: int)
    requires
        0 <= i <= s.len(),
        no_candidate(s),
    ensures
        rewrite_from(s, i, off) == s.subrange(i, s.len() as int),
    decreases s.len() - i,
{
    if i >= s.len() {
        assert(rewrite_from(s, i, off) =~= s.subrange(i, s.len() as int));
    } else {
        lemma_pass_through_from(s, i + 1, off);
        assert(rewrite_from(s, i, off) =~= s.subrange(i, s.len() as int));
    }
}

/// Pass-through identity: text in which no candidate span starts comes out
/// of the filter exactly as it went in, whatever the target offset.
pub proof fn lemma_pass_through(s: Seq<u8>, off: int)
    requires
        no_candidate(s),
    ensures
        rewrite(s, off) == s,
{
    lemma_pass_through_from(s, 0, off);
    assert(s.subrange(0, s.len() as int) =~= s);
}

/// Parsing what the encoder wrote gives back exactly the fields, fraction
/// and offset that were encoded: the codec is a round trip.
pub proof fn lemma_parse_encode(c: Civil, frac: Seq<u8>, off: int)
    requires
        civil_wf(c),
        forall|j: int| 0 <= j < frac.len() ==> is_digit(#[trigger] frac[j]),
        -86400 < off < 86400,
        off % 60 == 0,
    ensures
        parse_span(encode(c, frac, off)) == Some(SpecStamp { civ: c, frac: frac, off: off }),
{
    let e = encode(c, frac, off);
    let fl = frac_seq(frac).len() as int;
    let n = e.len() as int;
    assert(n == 19 + fl + 6);
    let a = off_abs(off);

    // The head bytes.
    assert(e[0] == dig(c.year / 1000));
    assert(e[1] == dig((c.year / 100) % 10));
    assert(e[2] == dig((c.year / 10) % 10));
    assert(e[3] == dig(c.year % 10));
    assert(e[4] == 45);
    assert(e[5] == dig(c.month / 10) && e[6] == dig(c.month % 10));
    assert(e[7] == 45);
    assert(e[8] == dig(c.day / 10) && e[9] == dig(c.day % 10));
    assert(e[10] == 84);
    assert(e[11] == dig(c.hour / 10) && e[12] == dig(c.hour % 10));
    assert(e[13] == 58);
    assert(e[14] == dig(c.minute / 10) && e[15] == dig(c.minute % 10));
    assert(e[16] == 58);
    assert(e[17] == dig(c.second / 10) && e[18] == dig(c.second % 10));

    // The zone bytes.
    assert(e[n - 6] == if off >= 0 { 43u8 } else { 45u8 });
    assert(e[n - 5] == dig((a / 3600) / 10) && e[n - 4] == dig((a / 3600) % 10));
    assert(e[n - 3] == 58);
    assert(e[n - 2] == dig((a % 3600) / 60 / 10) && e[n - 1] == dig((a % 3600) / 60 % 10));

    // Digit bytes decode to their values.
    assert(forall|v: int| 0 <= v <= 9 ==> is_digit(#[trigger] dig(v)) && dval(dig(v)) == v);
    assert(0 <= a < 86400);
    assert(a / 3600 <= 23 && (a % 3600) / 60 <= 59) by (nonlinear_arith)
        requires 0 <= a < 86400;

    // The zone is recognized and denotes the encoded offset.
    assert(!scan::is_zone_letter(e[n - 1]));
    assert(codec::two_at(e, n - 5) == a / 3600);
    assert(codec::two_at(e, n - 2) == (a % 3600) / 60);
    assert(a % 60 == 0) by (nonlinear_arith)
        requires off % 60 == 0, a == off_abs(off);
    assert((a / 3600) * 3600 + ((a % 3600) / 60) * 60 == a) by (nonlinear_arith)
        requires a >= 0, a % 60 == 0;
    assert(codec::zone_of(e) == Some((n - 6, off)));

    // The head is recognized and decodes to the encoded fields.
    assert(codec::head_ok(e));
    assert(codec::four_at(e, 0) == c.year) by (nonlinear_arith)
        requires
            0 <= c.year <= 9999,
            codec::four_at(e, 0) == (c.year / 1000) * 1000 + ((c.year / 100) % 10) * 100 + ((c.year
                / 10) % 10) * 10 + c.year % 10;
    assert(codec::two_at(e, 5) == c.month);
    assert(codec::two_at(e, 8) == c.day);
    assert(codec::two_at(e, 11) == c.hour);
    assert(codec::two_at(e, 14) == c.minute);
    assert(codec::two_at(e, 17) == c.second);
    assert(codec::head_fields(e) == c);

    // The fraction is recognized and carried back unchanged.
    let z = n - 6;
    if frac.len() == 0 {
        assert(z == 19);
        assert(frac =~= Seq::<u8>::empty());
    } else {
        assert(e[19] == 46);
        assert(forall|j: int| 20 <= j < z ==> #[trigger] e[j] == frac[j - 20]);
        assert(codec::frac_ok(e, z));
        assert(e.subrange(20, z) =~= frac);
    }
    assert(parse_span(e) == Some(SpecStamp { civ: c, frac: frac, off: off }));
}

/// Rewriting moves no point in time: whenever a span parses and its
/// projection is representable, the replacement parses too, denotes the
/// same absolute instant, carries the target offset, and keeps the
/// fraction's digit sequence unchanged.
pub proof fn lemma_rewrite_preserves_instant(sp: Seq<u8>, off: int)
    requires
        -86400 < off < 86400,
        off % 60 == 0,
        parse_span(sp) is Some,
        0 <= cal::secs_of(parse_span(sp)->Some_0.civ) - parse_span(sp)->Some_0.off + off
            < cal::max_secs(),
    ensures
        parse_span(replace_span(sp, off)) is Some,
        ({
            let st = parse_span(sp)->Some_0;
            let st2 = parse_span(replace_span(sp, off))->Some_0;
            &&& cal::secs_of(st2.civ) - st2.off == cal::secs_of(st.civ) - st.off
            &&& st2.off == off
            &&& st2.frac == st.frac
        }),
{
    let st = parse_span(sp)->Some_0;
    let t = cal::secs_of(st.civ) - st.off + off;
    codec::lemma_parse_wf(sp);
    cal::lemma_civil_of_wf(t);
    lemma_parse_encode(cal::civil_of(t), st.frac, off);
}

/// A second pass is a no-op: replacing a span that a first pass with the
/// same fixed target already produced changes nothing. Spans the first
/// pass left alone are left alone again; a rewritten span re-parses to
/// the same instant at the target offset and re-encodes to itself.
pub proof fn lemma_second_pass_span(sp: Seq<u8>, off: int)
    requires
        -86400 < off < 86400,
        off % 60 == 0,
    ensures
        replace_span(replace_span(sp, off), off) == replace_span(sp, off),
{
    match parse_span(sp) {
        None => {},
        Some(st) => {
            let t = cal::secs_of(st.civ) - st.off + off;
            if 0 <= t < cal::max_secs() {
                codec::lemma_parse_wf(sp);
                cal::lemma_civil_of_wf(t);
                lemma_parse_encode(cal::civil_of(t), st.frac, off);
            }
        },
    }
}

/// What the encoder writes is itself recognized: an encoded date-time is
/// one whole candidate span, so a later pass of the filter sees it again.
pub proof fn lemma_encode_is_candidate(c: Civil, frac: Seq<u8>, off: int)
    requires
        civil_wf(c),
        forall|j: int| 0 <= j < frac.len() ==> is_digit(#[trigger] frac[j]),
        -86400 < off < 86400,
    ensures
        scan::match_end(encode(c, frac, off), 0) == Some(encode(c, frac, off).len() as int),
{
    let e = encode(c, frac, off);
    let fl = frac_seq(frac).len() as int;
    let n = e.len() as int;
    assert(n == 19 + fl + 6);
    let a = off_abs(off);
    let z = n - 6;

    assert(e[0] == dig(c.year / 1000));
    assert(e[1] == dig((c.year / 100) % 10));
    assert(e[2] == dig((c.year / 10) % 10));
    assert(e[3] == dig(c.year % 10));
    assert(e[4] == 45);
    assert(e[5] == dig(c.month / 10) && e[6] == dig(c.month % 10));
    assert(e[7] == 45);
    assert(e[8] == dig(c.day / 10) && e[9] == dig(c.day % 10));
    assert(e[10] == 84);
    assert(e[11] == dig(c.hour / 10) && e[12] == dig(c.hour % 10));
    assert(e[13] == 58);
    assert(e[14] == dig(c.minute / 10) && e[15] == dig(c.minute % 10));
    assert(e[16] == 58);
    assert(e[17] == dig(c.second / 10) && e[18] == dig(c.second % 10));
    assert(e[z] == if off >= 0 { 43u8 } else { 45u8 });
    assert(e[z + 1] == dig((a / 3600) / 10) && e[z + 2] == dig((a / 3600) % 10));
    assert(e[z + 3] == 58);
    assert(e[z + 4] == dig((a % 3600) / 60 / 10) && e[z + 5] == dig((a % 3600) / 60 % 10));
    assert(forall|v: int| 0 <= v <= 9 ==> is_digit(#[trigger] dig(v)) && dval(dig(v)) == v);
    assert(0 <= a < 86400);
    assert(a / 3600 <= 23 && (a % 3600) / 60 <= 59) by (nonlinear_arith)
        requires 0 <= a < 86400;
    assert(forall|j: int| 0 <= j < frac.len() ==> #[trigger] e[20 + j] == frac[j]);

    // The date part is one maximal run of date bytes, ended by the `T`.
    assert(forall|k: int| 0 <= k < 10 ==> scan::is_date_byte(#[trigger] e[k]));
    scan::lemma_date_run_is(e, 0, 10);
    // The time part is one maximal run of time bytes, ended by the dot or
    // the offset sign.
    assert(forall|k: int| 11 <= k < 19 ==> scan::is_time_byte(#[trigger] e[k]));
    scan::lemma_time_run_is(e, 11, 19);
    // The fraction, when present, is one maximal run of digits, ended by
    // the offset sign.
    if frac.len() > 0 {
        assert(e[19] == 46);
        assert(forall|k: int| 20 <= k < z ==> is_digit(#[trigger] e[k]));
        scan::lemma_digit_run_is(e, 20, z);
        assert(scan::frac_end(e, 19) == z);
    } else {
        assert(z == 19);
        assert(scan::frac_end(e, 19) == 19);
    }
    // The offset is a sign and one maximal run of time bytes that reaches
    // the end of the span.
    assert(scan::is_sign(e[z]));
    assert(forall|k: int| z + 1 <= k < n ==> scan::is_time_byte(#[trigger] e[k]));
    scan::lemma_time_run_is(e, z + 1, n);
    assert(scan::zone_end(e, z) == Some(n));
}

/// On a line that is one whole candidate span, a second pass of the filter
/// with the same fixed target changes nothing: the first pass's output
/// re-parses to the same instant and re-encodes to itself.
pub proof fn lemma_second_pass_line(s: Seq<u8>, off: int)
    requires
        scan::match_end(s, 0) == Some(s.len() as int),
        s.len() > 0,
        -86400 < off < 86400,
        off % 60 == 0,
    ensures
        rewrite(rewrite(s, off), off) == rewrite(s, off),
{
    let n = s.len() as int;
    assert(rewrite(s, off) =~= replace_span(s.subrange(0, n), off)) by {
        assert(s.subrange(0, n) =~= s);
        assert(rewrite_from(s, n, off) =~= Seq::<u8>::empty());
    }
    assert(s.subrange(0, n) =~= s);
    let o = replace_span(s, off);
    match parse_span(s) {
        None => {
            assert(o == s);
        },
        Some(st) => {
            let t = cal::secs_of(st.civ) - st.off + off;
            if 0 <= t < cal::max_secs() {
                codec::lemma_parse_wf(s);
                cal::lemma_civil_of_wf(t);
                lemma_encode_is_candidate(cal::civil_of(t), st.frac, off);
                assert(scan::match_end(o, 0) == Some(o.len() as int));
                assert(rewrite(o, off) =~= replace_span(o.subrange(0, o.len() as int), off)) by {
                    assert(rewrite_from(o, o.len() as int, off) =~= Seq::<u8>::empty());
                }
                assert(o.subrange(0, o.len() as int) =~= o);
                lemma_second_pass_span(s, off);
            } else {
                assert(o == s);
            }
        },
    }
}

/// A lower-case zone letter is read exactly as the upper-case one: a span
/// ending in `z` parses to the same value as the same span ending in `Z`,
/// and so is rewritten to the same text whenever its projected instant is
/// representable.
pub proof fn lemma_zone_letter_case(sp: Seq<u8>, off: int)
    requires
        sp.len() > 0,
        sp[sp.len() - 1] == 122,
    ensures
        parse_span(sp.update(sp.len() - 1, 90u8)) == parse_span(sp),
        parse_span(sp) matches Some(st) && 0 <= cal::secs_of(st.civ) - st.off + off
            < cal::max_secs() ==> replace_span(sp.update(sp.len() - 1, 90u8), off)
            == replace_span(sp, off),
{
    let n = sp.len() as int;
    let sp2 = sp.update(n - 1, 90u8);
    assert(codec::zone_of(sp2) == Some((n - 1, 0int)));
    assert(codec::zone_of(sp) == Some((n - 1, 0int)));
    if n - 1 >= 19 {
        assert(forall|j: int| 0 <= j < n - 1 ==> #[trigger] sp2[j] == sp[j]);
        assert(codec::head_ok(sp2) == codec::head_ok(sp));
        if codec::frac_ok(sp, n - 1) {
            assert(codec::frac_ok(sp2, n - 1));
        }
        if codec::frac_ok(sp2, n - 1) {
            if n - 1 > 19 {
                assert forall|j: int| 20 <= j < n - 1 implies is_digit(#[trigger] sp[j]) by {
                    assert(is_digit(sp2[j]));
                }
            }
            assert(codec::frac_ok(sp, n - 1));
        }
        if codec::head_ok(sp) {
            assert(codec::head_fields(sp2) == codec::head_fields(sp));
        }
        if n - 1 > 19 {
            assert(sp2.subrange(20, n - 1) =~= sp.subrange(20, n - 1));
        }
    }
}

/// A numeric `+00:00` zone denotes UTC exactly as the letter does: a span
/// ending in `+00:00` parses to the same value as the shorter span that
/// ends in `Z` instead.
pub proof fn lemma_zero_offset_is_utc(sp: Seq<u8>)
    requires
        sp.len() >= 6,
        sp[sp.len() - 6] == 43,
        sp[sp.len() - 5] == 48,
        sp[sp.len() - 4] == 48,
        sp[sp.len() - 3] == 58,
        sp[sp.len() - 2] == 48,
        sp[sp.len() - 1] == 48,
    ensures
        parse_span(sp.subrange(0, sp.len() - 6).push(90u8)) == parse_span(sp),
{
    let n = sp.len() as int;
    let sp2 = sp.subrange(0, n - 6).push(90u8);
    assert(sp2.len() == n - 5);
    assert(forall|j: int| 0 <= j < n - 6 ==> #[trigger] sp2[j] == sp[j]);
    assert(codec::zone_of(sp) == Some((n - 6, 0int)));
    assert(sp2[n - 6] == 90u8);
    assert(codec::zone_of(sp2) == Some((n - 6, 0int)));
    if n - 6 >= 19 {
        assert(codec::head_ok(sp2) == codec::head_ok(sp));
        if codec::frac_ok(sp, n - 6) {
            assert(codec::frac_ok(sp2, n - 6));
        }
        if codec::frac_ok(sp2, n - 6) {
            if n - 6 > 19 {
                assert forall|j: int| 20 <= j < n - 6 implies is_digit(#[trigger] sp[j]) by {
                    assert(is_digit(sp2[j]));
                }
            }
            assert(codec::frac_ok(sp, n - 6));
        }
        if codec::head_ok(sp) {
            assert(codec::head_fields(sp2) == codec::head_fields(sp));
        }
        if n - 6 > 19 {
            assert(sp2.subrange(20, n - 6) =~= sp.subrange(20, n - 6));
        }
    }
}

} // verus!
