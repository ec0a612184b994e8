use cronos::calendar::timestamp_of;
use cronos::errors::Error;
use cronos::parse::parse;
use cronos::schedule::{fires, next_fire, upcoming};

#[test]
fn timestamps_match_known_epoch_values() {
    assert_eq!(timestamp_of(1970, 1, 1, 0, 0, 0), 0);
    assert_eq!(timestamp_of(1970, 1, 2, 0, 0, 0), 86400);
    assert_eq!(timestamp_of(2000, 1, 1, 0, 0, 0), 946684800);
    assert_eq!(timestamp_of(2000, 3, 1, 0, 0, 0), 951868800);
    assert_eq!(timestamp_of(2021, 1, 1, 0, 0, 0), 1609459200);
    assert_eq!(timestamp_of(2021, 1, 1, 12, 34, 56), 1609459200 + 12 * 3600 + 34 * 60 + 56);
}

#[test]
fn five_field_expressions_fire_at_second_zero() {
    let s = parse("30 9 * * *").unwrap();
    let start = timestamp_of(2021, 1, 1, 0, 0, 0);
    assert_eq!(next_fire(&s, start), Some(timestamp_of(2021, 1, 1, 9, 30, 0)));
}

#[test]
fn field_values_outside_their_domain_are_rejected() {
    assert_eq!(parse("60 * * * * *").unwrap_err(), Error::InvalidExpression);
    assert_eq!(parse("* 60 * * * *").unwrap_err(), Error::InvalidExpression);
    assert_eq!(parse("* * 24 * * *").unwrap_err(), Error::InvalidExpression);
    assert_eq!(parse("* * * 0 * *").unwrap_err(), Error::InvalidExpression);
    assert_eq!(parse("* * * 32 * *").unwrap_err(), Error::InvalidExpression);
    assert_eq!(parse("* * * * 0 *").unwrap_err(), Error::InvalidExpression);
    assert_eq!(parse("* * * * 13 *").unwrap_err(), Error::InvalidExpression);
    assert_eq!(parse("* * * * * 8").unwrap_err(), Error::InvalidExpression);
    assert_eq!(parse("* * * * * * 1969").unwrap_err(), Error::InvalidExpression);
    assert_eq!(parse("* * * * * * 2100").unwrap_err(), Error::InvalidExpression);
    assert_eq!(parse("*/0 * * * * *").unwrap_err(), Error::InvalidExpression);
    assert_eq!(parse("5-3 * * * * *").unwrap_err(), Error::InvalidExpression);
    assert_eq!(parse("* * * * Mox *").unwrap_err(), Error::InvalidExpression);
    assert_eq!(parse("not an expression at all").unwrap_err(), Error::InvalidExpression);
}

#[test]
fn macros_equal_their_explicit_expressions() {
    let pairs = [
        ("@yearly", "0 0 0 1 1 *"),
        ("@monthly", "0 0 0 1 * *"),
        ("@weekly", "0 0 0 * * Sun"),
        ("@daily", "0 0 0 * * *"),
        ("@hourly", "0 0 * * * *"),
    ];
    let starts = [
        timestamp_of(2017, 6, 15, 14, 29, 36),
        timestamp_of(2016, 12, 31, 23, 59, 59),
        timestamp_of(2020, 2, 28, 0, 0, 0),
    ];
    for (alias, explicit) in pairs.iter() {
        let a = parse(alias).unwrap();
        let b = parse(explicit).unwrap();
        for start in starts.iter() {
            assert_eq!(upcoming(&a, *start, 8), upcoming(&b, *start, 8));
        }
    }
}

#[test]
fn day_fields_follow_the_or_convention() {
    // both day fields restricted: fire on the 1st of the month OR on Mondays
    let both = parse("0 0 0 1 * Mon").unwrap();
    // 2021-01-05 was a Tuesday; the next Monday is Jan 11, before Feb 1
    let start = timestamp_of(2021, 1, 5, 1, 0, 0);
    assert_eq!(next_fire(&both, start), Some(timestamp_of(2021, 1, 11, 0, 0, 0)));
    // only day-of-month restricted: Mondays do not count
    let dom_only = parse("0 0 0 1 * *").unwrap();
    assert_eq!(next_fire(&dom_only, start), Some(timestamp_of(2021, 2, 1, 0, 0, 0)));
    // only day-of-week restricted: the 1st does not count
    let dow_only = parse("0 0 0 * * Mon").unwrap();
    assert_eq!(next_fire(&dow_only, start), Some(timestamp_of(2021, 1, 11, 0, 0, 0)));
}

#[test]
fn leap_years_roll_over_correctly() {
    let s = parse("0 0 0 29 2 *").unwrap();
    let start = timestamp_of(2019, 3, 1, 0, 0, 0);
    assert_eq!(next_fire(&s, start), Some(timestamp_of(2020, 2, 29, 0, 0, 0)));
    // 2100 is out of range, and 2000 was a leap year
    let from_1999 = timestamp_of(1999, 3, 1, 0, 0, 0);
    assert_eq!(next_fire(&s, from_1999), Some(timestamp_of(2000, 2, 29, 0, 0, 0)));
}

#[test]
fn year_rollover_at_new_year() {
    let s = parse("0 0 0 1 1 *").unwrap();
    let start = timestamp_of(2021, 12, 31, 23, 59, 59);
    assert_eq!(next_fire(&s, start), Some(timestamp_of(2022, 1, 1, 0, 0, 0)));
}

#[test]
fn a_schedule_that_never_fires_yields_nothing() {
    // February 30th does not exist
    let s = parse("0 0 0 30 2 *").unwrap();
    assert_eq!(next_fire(&s, 0), None);
    assert_eq!(upcoming(&s, 0, 3), Vec::<i64>::new());
}

#[test]
fn next_fire_is_minimal_by_brute_force() {
    // scan every second of a window and check next_fire against it
    let s = parse("*/14 0,31 6 * * *").unwrap();
    let start = timestamp_of(2021, 3, 14, 5, 59, 0);
    let end = timestamp_of(2021, 3, 14, 6, 35, 0);
    let mut t = start;
    while t < end {
        let expected_next = {
            let mut u = t + 1;
            loop {
                if fires(&s, u) {
                    break u;
                }
                u += 1;
                assert!(u <= end + 86400);
            }
        };
        assert_eq!(next_fire(&s, t), Some(expected_next));
        assert!(expected_next > t);
        t += 17; // a stride coprime to the schedule's steps
    }
}

#[test]
fn fires_agrees_with_next_fire() {
    let s = parse("0 30 9 15 5 *").unwrap();
    let at = timestamp_of(2021, 5, 15, 9, 30, 0);
    assert!(fires(&s, at));
    assert!(!fires(&s, at + 1));
    assert!(!fires(&s, at - 1));
    assert_eq!(next_fire(&s, at - 1), Some(at));
    assert_eq!(next_fire(&s, at), Some(timestamp_of(2022, 5, 15, 9, 30, 0)));
}

#[test]
fn seconds_lists_and_steps_enumerate_exactly() {
    let s = parse("5,10-12,20/25 0 0 1 1 * 2021").unwrap();
    // admitted seconds: 5, 10, 11, 12, 20, 45
    let fires_at: Vec<i64> = upcoming(&s, timestamp_of(2020, 12, 31, 0, 0, 0), 10);
    let base = timestamp_of(2021, 1, 1, 0, 0, 0);
    assert_eq!(
        fires_at,
        vec![base + 5, base + 10, base + 11, base + 12, base + 20, base + 45]
    );
}
