use ltime::{filter, Tz};

fn jst() -> Tz {
    Tz::Fixed(9 * 3600)
}

fn run(src: &str, tz: &Tz) -> String {
    String::from_utf8(filter(src.as_bytes(), tz)).unwrap()
}

#[test]
fn filter_plain_text() {
    assert_eq!(run("moo\nwoo", &jst()), "moo\nwoo".to_string());
}

#[test]
fn filter_utc() {
    assert_eq!(
        run("2021-01-02T03:04:05Z moo 2021-01-02T03:04:05.999Z", &jst()),
        "2021-01-02T12:04:05+09:00 moo 2021-01-02T12:04:05.999+09:00".to_string()
    );
}

#[test]
fn filter_utc_small_letter_z() {
    assert_eq!(
        run("2021-01-02T03:04:05z", &jst()),
        "2021-01-02T12:04:05+09:00".to_string()
    );
}

#[test]
fn filter_utc_numeric() {
    assert_eq!(
        run("2021-01-02T03:04:05+00:00", &jst()),
        "2021-01-02T12:04:05+09:00".to_string()
    );
}

#[test]
fn filter_nonutc() {
    assert_eq!(
        run("2021-01-02T03:04:05-08:00", &jst()),
        "2021-01-02T20:04:05+09:00".to_string()
    );
}

#[test]
fn filter_date_rollover() {
    assert_eq!(
        run("2021-01-02T23:04:05-08:00", &jst()),
        "2021-01-03T16:04:05+09:00".to_string()
    );
}

#[test]
fn filter_negative_target() {
    assert_eq!(
        run("2021-01-02T03:04:05Z", &Tz::Fixed(-8 * 3600)),
        "2021-01-01T19:04:05-08:00".to_string()
    );
}

#[test]
fn filter_mixed_validity() {
    assert_eq!(
        run("x 2021-01-02T03:04:05Z y 2021-13-99T99:99:99Z z", &jst()),
        "x 2021-01-02T12:04:05+09:00 y 2021-13-99T99:99:99Z z".to_string()
    );
}

#[test]
fn filter_second_pass_is_noop() {
    let first = run("a 2021-01-02T03:04:05.999Z b 2021-12-31T23:59:59-08:00 c", &jst());
    let second = run(&first, &jst());
    assert_eq!(second, first);
}

#[test]
fn filter_leap_day() {
    assert_eq!(
        run("2020-02-29T00:00:00Z", &Tz::Fixed(0)),
        "2020-02-29T00:00:00+00:00".to_string()
    );
    assert_eq!(
        run("2021-02-29T00:00:00Z", &Tz::Fixed(0)),
        "2021-02-29T00:00:00Z".to_string()
    );
}

#[test]
fn filter_unrepresentable_projection_passes_through() {
    assert_eq!(
        run("0000-01-01T00:00:00Z", &Tz::Fixed(-9 * 3600)),
        "0000-01-01T00:00:00Z".to_string()
    );
    assert_eq!(
        run("9999-12-31T23:59:59Z", &jst()),
        "9999-12-31T23:59:59Z".to_string()
    );
}

#[test]
fn filter_empty_input() {
    assert_eq!(run("", &jst()), "".to_string());
}

#[test]
fn filter_fraction_digits_kept_verbatim() {
    assert_eq!(
        run("2021-01-02T03:04:05.000120Z", &jst()),
        "2021-01-02T12:04:05.000120+09:00".to_string()
    );
}

#[test]
fn filter_local_emits_numeric_offset() {
    // The local zone's offset depends on the machine, but the output form
    // does not: a rewritten timestamp always ends in a numeric offset.
    let out = run("2021-01-02T03:04:05Z", &Tz::Local);
    let b = out.as_bytes();
    assert_eq!(b.len(), "2021-01-02T03:04:05+00:00".len());
    let tail = &b[b.len() - 6..];
    assert!(tail[0] == b'+' || tail[0] == b'-');
    assert!(tail[1].is_ascii_digit() && tail[2].is_ascii_digit());
    assert_eq!(tail[3], b':');
    assert!(tail[4].is_ascii_digit() && tail[5].is_ascii_digit());
    // Plain text is untouched whatever the local zone is.
    assert_eq!(run("moo\nwoo", &Tz::Local), "moo\nwoo".to_string());
}
