use countdown::TimeResult;
use countdown::alarm::{Alarm, Moment, find_diff, get_naive_time};

#[test]
fn test_time_parse() {
    let mut alarm = Alarm::new();
    // 2022-02-21 10:09, the date as days from the common era.
    let now = Moment { days: 738207, secs: 10 * 3600 + 9 * 60 };
    let times: Vec<String> = alarm.check_time(&"10:10".into()).unwrap();
    assert_eq!(times, vec!["10".to_string(), "10".to_string()]);
    let time = get_naive_time(&times[0][..], &times[1][..], "0", now);
    assert_eq!(time.secs, 10 * 3600 + 10 * 60);
}

#[test]
fn one_minute_ahead_lands_same_day() {
    let now = Moment { days: 738207, secs: 10 * 3600 + 9 * 60 };
    let mut alarm = Alarm::new();
    let fields = alarm.check_time(&"10:10".into()).unwrap();
    alarm.parse_time(fields, now).unwrap();
    assert_eq!(alarm.time, 60);
    let target = get_naive_time("10", "10", "0", now);
    assert_eq!(target.days, now.days);
}

#[test]
fn earlier_time_rolls_over_to_next_day() {
    let now = Moment { days: 738207, secs: 10 * 3600 };
    let mut alarm = Alarm::new();
    let fields = alarm.check_time(&"9:00".into()).unwrap();
    alarm.parse_time(fields, now).unwrap();
    assert_eq!(alarm.time, 82800);
    let target = get_naive_time("9", "00", "0", now);
    assert_eq!(target.days, now.days + 1);
}

#[test]
fn seconds_field_counts() {
    let now = Moment { days: 738207, secs: 0 };
    let mut alarm = Alarm::new();
    let fields = alarm.check_time(&"0:1:30".into()).unwrap();
    alarm.parse_time(fields, now).unwrap();
    assert_eq!(alarm.time, 90);
}

#[test]
fn malformed_tokens_are_parse_failures() {
    let mut alarm = Alarm::new();
    assert!(alarm.check_time(&"abc".into()).is_err());
    assert!(alarm.check_time(&"10".into()).is_err());
    assert!(alarm.check_time(&"10:".into()).is_err());
    assert!(alarm.check_time(&"25:00".into()).is_err());
    assert!(alarm.check_time(&"10:60".into()).is_err());
    assert!(alarm.check_time(&"1:2:3:4".into()).is_err());
    assert!(alarm.check_time(&"10:10:30".into()).is_ok());

    let mut args: Vec<String> = vec![String::from("abc")];
    assert_eq!(alarm.set_alarm(&mut args), TimeResult::ParseFailure);
    assert_eq!(args.len(), 0);
    assert_eq!(alarm.time, 0);
}

#[test]
fn set_alarm_against_the_clock_stays_inside_a_day() {
    let mut alarm = Alarm::new();
    let mut args: Vec<String> = vec![String::from("23:59:59")];
    match alarm.set_alarm(&mut args) {
        TimeResult::Computed(wait) => assert!(wait < 86400),
        other => panic!("expected a computed duration, got {:?}", other),
    }
    assert_eq!(args.len(), 0);
}

#[test]
fn find_diff_is_symmetric_magnitude() {
    let a = Moment { days: 10, secs: 100 };
    let b = Moment { days: 10, secs: 40 };
    assert_eq!(find_diff(a, b), 60);
    assert_eq!(find_diff(b, a), 60);
    let c = Moment { days: 11, secs: 0 };
    assert_eq!(find_diff(c, b), 86400 - 40);
}
