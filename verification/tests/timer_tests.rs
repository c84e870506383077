use countdown::TimeResult;
use countdown::timer::{Timer, parse_time};

#[test]
fn test_seconds() {
    let mut timer = Timer::new();
    assert_eq!(timer.seconds, false);
    assert_eq!(timer.get_time(&"10s".into()).unwrap(), 10);
    assert_eq!(timer.seconds, true);
    assert_ne!(timer.get_time(&"10s".into()).unwrap(), 10);
}

#[test]
fn test_minutes() {
    let mut timer = Timer::new();
    assert_eq!(timer.minutes, false);
    assert_eq!(timer.get_time(&"10m".into()).unwrap(), 10 * 60);
    assert_eq!(timer.minutes, true);
    assert_ne!(timer.get_time(&"10m".into()).unwrap(), 10 * 60);
}

#[test]
fn test_hours() {
    let mut timer = Timer::new();
    assert_eq!(timer.hours, false);
    assert_eq!(timer.get_time(&"10h".into()).unwrap(), 10 * 60 * 60);
    assert_eq!(timer.hours, true);
    assert_ne!(timer.get_time(&"10h".into()).unwrap(), 10 * 60 * 60);
}

#[test]
fn test_time() {
    let mut timer = Timer::new();
    let mut times: Vec<String> = vec![
        String::from("10s"),
        String::from("10m"),
        String::from("10h"),
    ];
    assert_eq!(timer.seconds, false);
    assert_eq!(timer.minutes, false);
    assert_eq!(timer.hours, false);
    match timer.find_time(&mut times) {
        TimeResult::Computed(time) => {
            assert_eq!(timer.seconds, true);
            assert_eq!(timer.minutes, true);
            assert_eq!(timer.hours, true);
            assert_eq!(times.len(), 0);
            assert_eq!(time, 36610);
        }
        _ => {}
    }
}

#[test]
fn total_is_sum_in_any_order() {
    let mut timer = Timer::new();
    let mut times: Vec<String> = vec![
        String::from("10h"),
        String::from("10s"),
        String::from("10m"),
    ];
    assert_eq!(timer.find_time(&mut times), TimeResult::Computed(36610));
    assert_eq!(times.len(), 0);

    let mut other = Timer::new();
    let mut args: Vec<String> = vec![String::from("1s"), String::from("2m"), String::from("3h")];
    assert_eq!(other.find_time(&mut args), TimeResult::Computed(1 + 120 + 10800));
    assert_eq!(args.len(), 0);
}

#[test]
fn repeated_unit_is_ignored() {
    let mut timer = Timer::new();
    let mut times: Vec<String> = vec![String::from("10s"), String::from("20s")];
    assert_eq!(timer.find_time(&mut times), TimeResult::Computed(10));
    assert_eq!(times.len(), 0);
}

#[test]
fn malformed_leading_segment_is_zero_but_consumed() {
    let mut timer = Timer::new();
    let mut times: Vec<String> = vec![String::from("x2s")];
    assert_eq!(timer.find_time(&mut times), TimeResult::Computed(0));
    assert_eq!(times.len(), 0);
    assert_eq!(timer.seconds, true);
}

#[test]
fn stops_at_flag_like_token() {
    let mut timer = Timer::new();
    let mut times: Vec<String> = vec![
        String::from("10s"),
        String::from("-x"),
        String::from("5m"),
    ];
    assert_eq!(timer.find_time(&mut times), TimeResult::Computed(10));
    assert_eq!(times, vec![String::from("-x"), String::from("5m")]);
}

#[test]
fn token_without_unit_stops_the_parse() {
    let mut timer = Timer::new();
    let mut times: Vec<String> = vec![String::from("s"), String::from("10s")];
    assert_eq!(timer.find_time(&mut times), TimeResult::Computed(0));
    assert_eq!(times.len(), 2);
}

#[test]
fn oversized_value_reads_as_zero() {
    let mut timer = Timer::new();
    let mut times: Vec<String> = vec![String::from("99999999999999999999s")];
    assert_eq!(timer.find_time(&mut times), TimeResult::Computed(0));
    assert_eq!(times.len(), 0);
}

#[test]
fn parse_time_reads_leading_digits() {
    assert_eq!(parse_time(&String::from("123x"), 3), 123);
    assert_eq!(parse_time(&String::from("123x"), 4), 0);
    assert_eq!(parse_time(&String::from("10s"), 0), 0);
}
