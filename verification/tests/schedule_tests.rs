use cronos::calendar::timestamp_of;
use cronos::parse::parse;
use cronos::schedule::{next_fire, upcoming};

#[test]
fn test_readme() {
    let expression = "0   30   9,12,15     1,15       May-Aug  Mon,Wed,Fri  2018/2";
    let schedule = parse(expression).unwrap();
    let start = timestamp_of(2017, 1, 1, 0, 0, 0);
    println!("README: Upcoming fire times for '{}':", expression);
    for datetime in upcoming(&schedule, start, 10) {
        println!("README: -> {}", datetime);
    }
}

#[test]
fn test_anything_goes() {
    let expression = "* * * * * * *";
    let schedule = parse(expression).unwrap();
    let start = timestamp_of(2017, 1, 1, 0, 0, 0);
    println!("All stars: Upcoming fire times for '{}':", expression);
    for datetime in upcoming(&schedule, start, 10) {
        println!("All stars: -> {}", datetime);
    }
}

#[test]
fn test_parse_with_year() {
    let expression = "1 2 3 4 5 6 2015";
    assert!(parse(expression).is_ok());
}

#[test]
fn test_parse_with_seconds_list() {
    let expression = "1,30,40 2 3 4 5 Mon-Fri";
    assert!(parse(expression).is_ok());
}

#[test]
fn test_parse_with_lists() {
    let expression = "1 2,17,51 1-3,6,9-11 4,29 2,3,7 Tues";
    let schedule = parse(expression).unwrap();
    let mut date = timestamp_of(2017, 6, 15, 14, 29, 36);
    println!("Fire times for {}:", expression);
    for _ in 0..20 {
        date = next_fire(&schedule, date).expect("No further dates!");
        println!("-> {}", date);
    }
    assert!(true);
}

#[test]
fn test_upcoming_iterator() {
    let expression = "0 2,17,51 1-3,6,9-11 4,29 2,3,7 Wed";
    let schedule = parse(expression).unwrap();
    let start = timestamp_of(2017, 6, 15, 14, 29, 36);
    println!("Upcoming fire times for '{}':", expression);
    for datetime in upcoming(&schedule, start, 12) {
        println!("-> {}", datetime);
    }
    assert!(true);
}

#[test]
fn test_parse_without_year() {
    let expression = "1 2 3 4 5 6";
    assert!(parse(expression).is_ok());
}

#[test]
fn test_parse_too_many_fields() {
    let expression = "1 2 3 4 5 6 7 8 9 2019";
    assert!(parse(expression).is_err());
}

#[test]
fn test_not_enough_fields() {
    let expression = "1 2 3 2019";
    assert!(parse(expression).is_err());
}

#[test]
fn test_next_utc() {
    let expression = "1 2 3 4 10 Fri";
    let schedule = parse(expression).unwrap();
    let start = timestamp_of(2017, 6, 15, 14, 29, 36);
    let next = next_fire(&schedule, start).expect("There was no upcoming fire time.");
    println!("Next fire time: {}", next);
}

#[test]
fn test_yearly() {
    let expression = "@yearly";
    let schedule = parse(expression).expect("Failed to parse @yearly.");
    let starting_date = timestamp_of(2017, 6, 15, 14, 29, 36);
    let first = next_fire(&schedule, starting_date).unwrap();
    assert_eq!(timestamp_of(2018, 1, 1, 0, 0, 0), first);
    let second = next_fire(&schedule, first).unwrap();
    assert_eq!(timestamp_of(2019, 1, 1, 0, 0, 0), second);
    let third = next_fire(&schedule, second).unwrap();
    assert_eq!(timestamp_of(2020, 1, 1, 0, 0, 0), third);
}

#[test]
fn test_monthly() {
    let expression = "@monthly";
    let schedule = parse(expression).expect("Failed to parse @monthly.");
    let starting_date = timestamp_of(2017, 10, 15, 14, 29, 36);
    let first = next_fire(&schedule, starting_date).unwrap();
    assert_eq!(timestamp_of(2017, 11, 1, 0, 0, 0), first);
    let second = next_fire(&schedule, first).unwrap();
    assert_eq!(timestamp_of(2017, 12, 1, 0, 0, 0), second);
    let third = next_fire(&schedule, second).unwrap();
    assert_eq!(timestamp_of(2018, 1, 1, 0, 0, 0), third);
}

#[test]
fn test_weekly() {
    let expression = "@weekly";
    let schedule = parse(expression).expect("Failed to parse @weekly.");
    let starting_date = timestamp_of(2016, 12, 23, 14, 29, 36);
    let first = next_fire(&schedule, starting_date).unwrap();
    assert_eq!(timestamp_of(2016, 12, 25, 0, 0, 0), first);
    let second = next_fire(&schedule, first).unwrap();
    assert_eq!(timestamp_of(2017, 1, 1, 0, 0, 0), second);
    let third = next_fire(&schedule, second).unwrap();
    assert_eq!(timestamp_of(2017, 1, 8, 0, 0, 0), third);
}

#[test]
fn test_daily() {
    let expression = "@daily";
    let schedule = parse(expression).expect("Failed to parse @daily.");
    let starting_date = timestamp_of(2016, 12, 29, 14, 29, 36);
    let first = next_fire(&schedule, starting_date).unwrap();
    assert_eq!(timestamp_of(2016, 12, 30, 0, 0, 0), first);
    let second = next_fire(&schedule, first).unwrap();
    assert_eq!(timestamp_of(2016, 12, 31, 0, 0, 0), second);
    let third = next_fire(&schedule, second).unwrap();
    assert_eq!(timestamp_of(2017, 1, 1, 0, 0, 0), third);
}

#[test]
fn test_hourly() {
    let expression = "@hourly";
    let schedule = parse(expression).expect("Failed to parse @hourly.");
    let starting_date = timestamp_of(2017, 2, 25, 22, 29, 36);
    let first = next_fire(&schedule, starting_date).unwrap();
    assert_eq!(timestamp_of(2017, 2, 25, 23, 0, 0), first);
    let second = next_fire(&schedule, first).unwrap();
    assert_eq!(timestamp_of(2017, 2, 26, 0, 0, 0), second);
    let third = next_fire(&schedule, second).unwrap();
    assert_eq!(timestamp_of(2017, 2, 26, 1, 0, 0), third);
}

#[test]
fn it_works() {
    assert_eq!(2 + 2, 4);
}
