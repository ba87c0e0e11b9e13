use log_work::dates::ClockTime;
use log_work::dates::Date;
use log_work::dates::Duration;
use log_work::required_time::RequiredTime;
use log_work::required_time::DayType;
use log_work::util::first_available;
use log_work::util::parse_duration;
use log_work::util::to_date;
use log_work::work_day::Days;
use log_work::work_day::Entry;
use log_work::work_day::Summary;
use log_work::work_day::WorkDay;
use log_work::Error;

fn date(y: u32, m: u32, d: u32) -> Date {
    Date::from_ymd_opt(y, m, d).unwrap()
}

#[test]
fn test_to_date() {
    assert_eq!(to_date("2018", "05", "04"), Ok(date(2018, 5, 4)));
    assert_eq!(to_date("2018", "13", "04"), Err(Error::ParseDay));
    assert_eq!(to_date("2018", "02", "29"), Err(Error::ParseDay));
    assert_eq!(to_date("2016", "02", "29"), Ok(date(2016, 2, 29)));
    assert_eq!(to_date("abc", "05", "04"), Err(Error::ParseInt));
    assert_eq!(to_date("", "05", "04"), Err(Error::ParseInt));
}

#[test]
fn test_weekdays() {
    // 2018-05-04 was a Friday, 05-05 a Saturday, 05-07 a Monday.
    assert_eq!(date(2018, 5, 4).weekday(), 4);
    assert_eq!(date(2018, 5, 5).weekday(), 5);
    assert_eq!(date(2018, 5, 6).weekday(), 6);
    assert_eq!(date(2018, 5, 7).weekday(), 0);
    assert!(date(2018, 5, 5).is_weekend());
    assert!(!date(2018, 5, 4).is_weekend());
}

#[test]
fn test_date_succ() {
    assert_eq!(date(2018, 5, 4).succ(), date(2018, 5, 5));
    assert_eq!(date(2018, 4, 30).succ(), date(2018, 5, 1));
    assert_eq!(date(2018, 12, 31).succ(), date(2019, 1, 1));
    assert_eq!(date(2016, 2, 28).succ(), date(2016, 2, 29));
    assert_eq!(date(2018, 2, 28).succ(), date(2018, 3, 1));
}

#[test]
fn test_first_available() {
    assert_eq!(first_available(Some(1), Some(2)), Some(1));
    assert_eq!(first_available(None, Some(2)), Some(2));
    assert_eq!(first_available(Some(1), None), Some(1));
    assert_eq!(first_available::<i32>(None, None), None);
}

#[test]
fn test_parse_duration() {
    assert_eq!(parse_duration("7h 42m"), Ok(Duration::minutes(462)));
    assert_eq!(parse_duration("8h"), Ok(Duration::minutes(480)));
    assert_eq!(parse_duration("42m"), Ok(Duration::minutes(42)));
    assert_eq!(parse_duration("7h42m"), Ok(Duration::minutes(462)));
    assert_eq!(parse_duration(""), Ok(Duration::minutes(0)));
    assert!(matches!(parse_duration("seven"), Err(Error::CommandLine(_))));
    assert!(matches!(parse_duration("7x 42m"), Err(Error::CommandLine(_))));
    assert_eq!(
        parse_duration("9999999999999999999h"),
        Err(Error::ParseInt)
    );
}

#[test]
fn test_compute_summary_groups_by_key() {
    let wd = WorkDay::parse(
        "-- 2018-05-04 Fr 08:00 -- Foo\n-- 2018-05-04 Fr 09:00 -- Bar\n-- 2018-05-04 Fr 09:30 -- Foo\n-- 2018-05-04 Fr 10:00 -- Pause\n",
        None,
        "tst_file",
        false,
    )
    .unwrap();
    let summary = wd.compute_summary();
    assert_eq!(
        summary.items,
        vec![
            ("Bar".to_string(), Duration::minutes(30)),
            ("Foo".to_string(), Duration::minutes(90)),
            ("Pause".to_string(), Duration::minutes(0)),
        ]
    );
}

#[test]
fn test_merge_summaries_identity() {
    let mut s = Summary::new();
    s.add(&"Foo".to_string(), Duration::minutes(90));
    s.add(&"Bar".to_string(), Duration::minutes(30));
    let mut empty = Summary::new();
    WorkDay::merge_summaries_right_into_left(&mut empty, &s);
    assert_eq!(empty, s);
}

#[test]
fn test_merge_summaries_commutative_and_associative() {
    let mut a = Summary::new();
    a.add(&"Foo".to_string(), Duration::minutes(10));
    a.add(&"Bar".to_string(), Duration::minutes(20));
    let mut b = Summary::new();
    b.add(&"Foo".to_string(), Duration::minutes(5));
    b.add(&"Baz".to_string(), Duration::minutes(7));
    let mut c = Summary::new();
    c.add(&"Bar".to_string(), Duration::minutes(1));

    let mut ab = a.clone();
    WorkDay::merge_summaries_right_into_left(&mut ab, &b);
    let mut ba = b.clone();
    WorkDay::merge_summaries_right_into_left(&mut ba, &a);
    assert_eq!(ab, ba);

    let mut ab_c = ab.clone();
    WorkDay::merge_summaries_right_into_left(&mut ab_c, &c);
    let mut bc = b.clone();
    WorkDay::merge_summaries_right_into_left(&mut bc, &c);
    let mut a_bc = a.clone();
    WorkDay::merge_summaries_right_into_left(&mut a_bc, &bc);
    assert_eq!(ab_c, a_bc);
}

#[test]
fn test_join_work_and_requirement() {
    let wd = WorkDay::parse(
        "-- 2018-05-04 Fr 08:00 -- Foo\n-- 2018-05-04 Fr 09:00 -- Pause\n",
        None,
        "tst_file",
        false,
    )
    .unwrap();
    let work_days = vec![wd];
    let dod = Duration::hours(8);
    let required_times = vec![
        RequiredTime {
            date: date(2018, 5, 3),
            day_type: DayType::WorkDay,
            required_time: dod,
            line_nr: 0,
        },
        RequiredTime {
            date: date(2018, 5, 4),
            day_type: DayType::WorkDay,
            required_time: dod,
            line_nr: 0,
        },
    ];
    let days = Days::join_work_and_requirement(&work_days, &required_times, &dod);
    assert_eq!(days.days.len(), 2);
    assert_eq!(days.days[0].work_day.date, date(2018, 5, 3));
    assert_eq!(days.days[0].work_day.entries.len(), 0);
    assert_eq!(days.days[1].work_day.date, date(2018, 5, 4));
    assert_eq!(days.days[1].work_day.entries.len(), 2);
    assert_eq!(days.days[1].required_time, required_times[1]);
}

#[test]
fn test_segmenter_start_times_non_decreasing_via_parse() {
    let wd = WorkDay::parse(
        "-- 2018-05-04 Fr 08:00 -- A\n-- 2018-05-04 Fr 08:00 -- B\n-- 2018-05-04 Fr 09:15 -- Pause\n",
        None,
        "tst_file",
        false,
    )
    .unwrap();
    let entries: &Vec<Entry> = &wd.entries;
    assert_eq!(entries[0].duration, Duration::minutes(0));
    assert_eq!(entries[1].duration, Duration::minutes(75));
    assert_eq!(entries[2].duration, Duration::minutes(0));
    let mut last = ClockTime { hour: 0, minute: 0 };
    for e in entries {
        assert!(last.minute_of_day() <= e.start_ts.minute_of_day());
        last = e.start_ts;
    }
}
