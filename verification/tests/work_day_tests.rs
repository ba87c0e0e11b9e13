use log_work::dates::ClockTime;
use log_work::dates::Date;
use log_work::dates::Duration;
use log_work::work_day::date_from_file_name;
use log_work::work_day::Entry;
use log_work::work_day::EntryRaw;
use log_work::work_day::WorkDay;
use log_work::Error;

fn date(y: u32, m: u32, d: u32) -> Date {
    Date::from_ymd_opt(y, m, d).unwrap()
}

fn time(h: u32, m: u32) -> ClockTime {
    ClockTime { hour: h, minute: m }
}

#[test]
fn test_parse_error_wrong_day_1() {
    let txt = "-- 2018-05-04 Mo 12:27 -- Foo Bar Baz";
    let entries = WorkDay::parse(txt, Some(date(2018, 5, 3)), "tst_file", false);
    let expected_error = Err(Error::UnexpectedDate {
        file: "tst_file".to_string(),
        line_nr: 1,
        expected_date: date(2018, 5, 3),
        found_date: date(2018, 5, 4),
    });
    assert_eq!(expected_error, entries);
}

#[test]
fn test_parse_error_wrong_day_2() {
    let txt = "\n\n-- 2018-05-04 Mo 12:27 -- Foo Bar Baz";
    let entries = WorkDay::parse(txt, Some(date(2018, 5, 3)), "tst_file", false);
    let expected_error = Err(Error::UnexpectedDate {
        file: "tst_file".to_string(),
        line_nr: 3,
        expected_date: date(2018, 5, 3),
        found_date: date(2018, 5, 4),
    });
    assert_eq!(expected_error, entries);
}

#[test]
fn test_parse_error_wrong_day_3() {
    let txt = "\n-- 2018-05-03 Mo 12:27 -- Foo Bar Baz\n-- 2018-05-04 Mo 12:27 -- Foo Bar Baz";
    let entries = WorkDay::parse(txt, Some(date(2018, 5, 3)), "tst_file", false);
    let expected_error = Err(Error::UnexpectedDate {
        file: "tst_file".to_string(),
        line_nr: 3,
        expected_date: date(2018, 5, 3),
        found_date: date(2018, 5, 4),
    });
    assert_eq!(expected_error, entries);
}

#[test]
fn test_parse_error_time_non_monotonic() {
    let txt = "-- 2018-05-04 Mo 12:27 -- Foo Bar Baz\n-- 2018-05-04 Mo 12:26 -- Foo Bar Baz";
    let entries = WorkDay::parse(txt, None, "tst_file", false);
    let expected_error = Err(Error::TimeNotMonotonic {
        file: "tst_file".to_string(),
        line_nr: 2,
    });
    assert_eq!(expected_error, entries);
}

#[test]
fn test_parse_entries_line_with_empty_lines() {
    let txt = "-- 2018-05-04 Mo 12:27 -- Foo\nBar Baz\n-- 2018-05-04 Mo 12:47 -- Bam\n\nHier kommt jetzt einfach nur noch geblubber\n";
    let parsed_entries = WorkDay::parse(txt, None, "tst_file", true);
    assert!(parsed_entries.is_ok());

    let expected_entries = vec![
        Entry {
            start_ts: time(12, 27),
            duration: Duration::minutes(20),
            key: "Foo".to_string(),
            sub_keys: Vec::new(),
            raw_data: "-- 2018-05-04 Mo 12:27 -- Foo\nBar Baz\n".to_string(),
        },
        Entry {
            start_ts: time(12, 47),
            duration: Duration::minutes(0),
            key: "Bam".to_string(),
            sub_keys: Vec::new(),
            raw_data: "-- 2018-05-04 Mo 12:47 -- Bam\n".to_string(),
        },
    ];
    let expected = WorkDay {
        date: date(2018, 5, 4),
        entries: expected_entries,
        additional_text: "Hier kommt jetzt einfach nur noch geblubber\n".to_string(),
    };
    assert_eq!(parsed_entries.unwrap(), expected);
}

#[test]
fn test_file_name_date_seeds_expected_date() {
    let expected_date = date_from_file_name("20180504_foo.work");
    assert_eq!(expected_date, Some(date(2018, 5, 4)));
    let txt = "-- 2018-05-04 Fr 08:00 -- ABC-1\n-- 2018-05-04 Fr 09:00 -- Pause\n";
    let parsed = WorkDay::parse(txt, expected_date, "20180504_foo.work", false);
    assert!(parsed.is_ok());
    let wd = parsed.unwrap();
    assert_eq!(wd.date, date(2018, 5, 4));
    assert_eq!(wd.entries.len(), 2);
    assert_eq!(wd.entries[0].key, "ABC-1".to_string());
    assert_eq!(wd.entries[0].duration, Duration::minutes(60));
}

#[test]
fn test_file_name_date_mismatch_is_reported() {
    let expected_date = date_from_file_name("20180504_foo.work");
    let txt = "-- 2018-05-05 Sa 08:00 -- ABC-1\n-- 2018-05-05 Sa 09:00 -- Pause\n";
    let parsed = WorkDay::parse(txt, expected_date, "20180504_foo.work", false);
    let expected_error = Err(Error::UnexpectedDate {
        file: "20180504_foo.work".to_string(),
        line_nr: 1,
        expected_date: date(2018, 5, 4),
        found_date: date(2018, 5, 5),
    });
    assert_eq!(expected_error, parsed);
}

#[test]
fn test_entry_after_separator_is_reported() {
    let txt = "-- 2018-05-04 Fr 08:00 -- Foo\n-- 2018-05-04 Fr 09:00 -- Pause\n\n-- 2018-05-04 Fr 13:00 -- Again\n";
    let parsed = WorkDay::parse(txt, None, "tst_file", false);
    let expected_error = Err(Error::EntryAfterSeparator {
        file: "tst_file".to_string(),
        line_nr: 4,
    });
    assert_eq!(expected_error, parsed);
}

#[test]
fn test_missing_final_pause_strict_and_lenient() {
    let txt = "-- 2018-05-04 Fr 08:00 -- Foo\n-- 2018-05-04 Fr 09:30 -- Bar\n";
    let strict = WorkDay::parse(txt, None, "tst_file", false);
    assert_eq!(
        strict,
        Err(Error::MissingFinalPause {
            file: "tst_file".to_string()
        })
    );
    let lenient = WorkDay::parse(txt, None, "tst_file", true);
    assert!(lenient.is_ok());
    let wd = lenient.unwrap();
    assert_eq!(wd.entries.len(), 2);
    assert_eq!(wd.entries[0].key, "Foo".to_string());
    assert_eq!(wd.entries[0].duration, Duration::minutes(90));
    assert_eq!(wd.entries[1].key, "Bar".to_string());
    assert_eq!(wd.entries[1].duration, Duration::minutes(0));
}

#[test]
fn test_missing_date_on_empty_file() {
    let parsed = WorkDay::parse("", None, "tst_file", false);
    assert_eq!(
        parsed,
        Err(Error::MissingDate {
            file: "tst_file".to_string()
        })
    );
    let with_expected = WorkDay::parse("", Some(date(2018, 5, 4)), "tst_file", false);
    let expected = WorkDay {
        date: date(2018, 5, 4),
        entries: Vec::new(),
        additional_text: String::new(),
    };
    assert_eq!(with_expected, Ok(expected));
}

#[test]
fn test_invalid_clock_time_is_reported() {
    let txt = "-- 2018-05-04 Fr 25:00 -- Foo\n";
    let parsed = WorkDay::parse(txt, None, "tst_file", false);
    assert_eq!(parsed, Err(Error::ParseTime));
}

#[test]
fn test_invalid_header_date_is_reported() {
    let txt = "-- 2018-13-04 Fr 08:00 -- Foo\n";
    let parsed = WorkDay::parse(txt, None, "tst_file", false);
    assert_eq!(parsed, Err(Error::ParseDay));
}

#[test]
fn test_comments_and_description_keys() {
    let txt = "# leading comment\n\n-- 2018-05-04 Fr 08:00 -- Foo: sub1 sub2\n-- 2018-05-04 Fr 09:00 -- Pause\n";
    let parsed = WorkDay::parse(txt, None, "tst_file", false).unwrap();
    assert_eq!(parsed.entries[0].key, "Foo".to_string());
    assert_eq!(
        parsed.entries[0].sub_keys,
        vec!["sub1".to_string(), "sub2".to_string()]
    );
    assert_eq!(parsed.entries[1].key, "Pause".to_string());
}

#[test]
fn test_segmenter_durations() {
    let raws = vec![
        EntryRaw {
            date: date(2018, 5, 4),
            start_ts: time(8, 0),
            key: "A".to_string(),
            sub_keys: Vec::new(),
            raw_data: "a\n".to_string(),
        },
        EntryRaw {
            date: date(2018, 5, 4),
            start_ts: time(8, 45),
            key: "B".to_string(),
            sub_keys: Vec::new(),
            raw_data: "b\n".to_string(),
        },
        EntryRaw {
            date: date(2018, 5, 4),
            start_ts: time(10, 0),
            key: "Pause".to_string(),
            sub_keys: Vec::new(),
            raw_data: "p\n".to_string(),
        },
    ];
    let entries = Entry::from(raws);
    assert_eq!(entries.len(), 3);
    assert_eq!(entries[0].duration, Duration::minutes(45));
    assert_eq!(entries[1].duration, Duration::minutes(75));
    assert_eq!(entries[2].duration, Duration::minutes(0));
    assert!(entries[0].start_ts.minute_of_day() <= entries[1].start_ts.minute_of_day());
    assert!(entries[1].start_ts.minute_of_day() <= entries[2].start_ts.minute_of_day());
}

#[test]
fn test_stray_first_line_turns_rest_into_trailing_text() {
    let txt = "junk line\nmore text\n";
    let parsed = WorkDay::parse(txt, Some(date(2018, 5, 4)), "tst_file", false);
    let expected = WorkDay {
        date: date(2018, 5, 4),
        entries: Vec::new(),
        additional_text: "more text\n".to_string(),
    };
    assert_eq!(parsed, Ok(expected));
}

#[test]
fn test_header_after_stray_first_line_is_reported() {
    let txt = "junk line\n-- 2018-05-04 Mo 12:00 -- Foo\n";
    let parsed = WorkDay::parse(txt, Some(date(2018, 5, 4)), "tst_file", false);
    let expected_error = Err(Error::EntryAfterSeparator {
        file: "tst_file".to_string(),
        line_nr: 2,
    });
    assert_eq!(expected_error, parsed);
}

#[test]
fn test_header_without_weekday_token() {
    let txt = "-- 2018-05-04 12:27 -- Foo\n-- 2018-05-04 12:47 -- Pause\n";
    let parsed = WorkDay::parse(txt, None, "tst_file", false).unwrap();
    assert_eq!(parsed.entries[0].key, "Foo".to_string());
    assert_eq!(parsed.entries[0].start_ts, time(12, 27));
    assert_eq!(parsed.entries[0].duration, Duration::minutes(20));
}

#[test]
fn test_date_from_file_name_variants() {
    assert_eq!(
        date_from_file_name("a/b/20180504_x.work"),
        Some(date(2018, 5, 4))
    );
    assert_eq!(date_from_file_name("20180504_.work"), Some(date(2018, 5, 4)));
    assert_eq!(date_from_file_name("20180504.work"), None);
    assert_eq!(date_from_file_name("x20180504_foo.work"), None);
    assert_eq!(date_from_file_name("20181304_foo.work"), None);
    assert_eq!(date_from_file_name("20180504_foo.work.txt"), None);
}
