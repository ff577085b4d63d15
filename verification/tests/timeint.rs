use iskljucenja::timeint::{digit_parse, parse_interval, parse_time, TimeOfDay, TimeRange};

#[test]
fn test_parse_time() {
    let (_, time) = parse_time("12:00").expect("can parse time");
    assert_eq!(time, TimeOfDay::new(12, 00));
}

#[test]
fn test_parse_interval() {
    let time_range = TimeRange::parse("12:00-13:15").expect("can parse time interval");
    assert_eq!(time_range, TimeRange::new(TimeOfDay::new(12, 00), TimeOfDay::new(13, 15)));
}

#[test]
fn test_digit_parse() {
    let (rest, v) = digit_parse("42x").expect("parse the digits");
    assert_eq!(rest, "x");
    assert_eq!(v, 42);

    assert!(digit_parse("x42").is_err());
    // a value beyond u32::MAX is a parse failure, not a wrap-around
    assert!(digit_parse("99999999999").is_err());
}

#[test]
fn test_parse_time_rejects_invalid() {
    assert!(parse_time("99:00").is_err());
    assert!(parse_time("12:75").is_err());
    assert!(parse_time("12-00").is_err());
    assert!(parse_time(":30").is_err());
    let err = parse_time("xy").unwrap_err();
    assert_eq!(err.remaining, "xy");
}

#[test]
fn test_parse_interval_leaves_tail() {
    let (rest, range) = parse_interval("07:30-09:45 tail").expect("can parse the window");
    assert_eq!(rest, " tail");
    assert_eq!(range, TimeRange::new(TimeOfDay::new(7, 30), TimeOfDay::new(9, 45)));

    assert!(parse_interval("12:00").is_err());
    assert!(parse_interval("12:00-").is_err());
}
