use countdown::display::{Show, get_time, message_handle, num_to_string, print_big_time, show_handle};
use countdown::text::split_str;

#[test]
fn decomposes_into_hours_minutes_seconds() {
    assert_eq!(get_time(36610), (10, 10, 10));
    assert_eq!(get_time(82800), (23, 0, 0));
    assert_eq!(get_time(0), (0, 0, 0));
    assert_eq!(get_time(59), (0, 0, 59));
    assert_eq!(get_time(3599), (0, 59, 59));
}

#[test]
fn decomposition_rebuilds_the_total() {
    for t in [0i64, 1, 59, 60, 3599, 3600, 36610, 86399, 86400, 123456789] {
        let (h, m, s) = get_time(t);
        assert_eq!(h * 3600 + m * 60 + s, t);
    }
}

#[test]
fn show_marker_is_read_and_removed() {
    let mut args: Vec<String> = vec![String::from("-ts"), String::from("10m")];
    assert_eq!(show_handle(&mut args), Show::Small);
    assert_eq!(args, vec![String::from("-t"), String::from("10m")]);

    let mut args: Vec<String> = vec![String::from("-tS")];
    assert_eq!(show_handle(&mut args), Show::Big);
    assert_eq!(args, vec![String::from("-t")]);

    let mut args: Vec<String> = vec![String::from("-t")];
    assert_eq!(show_handle(&mut args), Show::Silent);
    assert_eq!(args, vec![String::from("-t")]);
}

#[test]
fn message_marker_inserts_flag_before_last_argument() {
    let mut args: Vec<String> = vec![
        String::from("-tm"),
        String::from("10s"),
        String::from("hello"),
    ];
    message_handle(&mut args);
    assert_eq!(
        args,
        vec![
            String::from("-t"),
            String::from("10s"),
            String::from("-m"),
            String::from("hello"),
        ]
    );

    let mut args: Vec<String> = vec![String::from("-t"), String::from("10s")];
    message_handle(&mut args);
    assert_eq!(args, vec![String::from("-t"), String::from("10s")]);
}

#[test]
fn numbers_print_in_decimal() {
    assert_eq!(num_to_string(0), "0");
    assert_eq!(num_to_string(7), "7");
    assert_eq!(num_to_string(10), "10");
    assert_eq!(num_to_string(12345), "12345");
}

#[test]
fn big_time_lays_glyphs_side_by_side() {
    // One-row glyphs: the art for each digit is the digit itself, the
    // art for the colon a colon.
    let mut art: Vec<Vec<String>> = Vec::new();
    for d in 0..10 {
        art.push(vec![num_to_string(d)]);
    }
    art.push(vec![String::from(":")]);
    let lines = print_big_time(61, &art);
    assert_eq!(lines.len(), 1);
    assert_eq!(
        lines[0],
        "0         :         1         :         1         "
    );
}

#[test]
fn big_time_keeps_rows_aligned() {
    let mut art: Vec<Vec<String>> = Vec::new();
    for d in 0..10 {
        let top = format!("[{d}]");
        art.push(vec![top, String::from("...")]);
    }
    art.push(vec![String::from(" :"), String::from(" :")]);
    let lines = print_big_time(3600, &art);
    assert_eq!(lines.len(), 2);
    assert_eq!(
        lines[0],
        "[1]        :        [0]        :        [0]       "
    );
    assert_eq!(
        lines[1],
        "...        :        ...        :        ...       "
    );
}

#[test]
fn split_str_cuts_at_every_separator() {
    let parts = split_str("a:b:c", ':');
    assert_eq!(parts, vec!["a".to_string(), "b".to_string(), "c".to_string()]);
    assert_eq!(split_str("", ':'), vec![String::new()]);
    assert_eq!(split_str("::", ':'), vec![String::new(), String::new(), String::new()]);
    assert_eq!(split_str("one\ntwo\n", '\n'), vec![
        "one".to_string(),
        "two".to_string(),
        String::new(),
    ]);
}
