use log_work::dates::Date;
use log_work::dates::Duration;
use log_work::required_time::consolidate_required_time;
use log_work::required_time::parse_required_time;
use log_work::required_time::DayType;
use log_work::required_time::DayTypeEntry;
use log_work::required_time::RequiredTime;
use log_work::Error;

fn date(y: u32, m: u32, d: u32) -> Date {
    Date::from_ymd_opt(y, m, d).unwrap()
}

#[test]
fn test_parse_required_time_1() {
    let txt = "2018-05-04 -- W Mehrere Worte:";
    let expected = Ok(vec![DayTypeEntry {
        date: date(2018, 5, 4),
        day_type: DayType::JobTravel {
            description: "Mehrere Worte".to_string(),
        },
        given_as_range: false,
        line_nr: 1,
    }]);
    assert_eq!(parse_required_time(txt, "tst_file"), expected);
}

#[test]
fn test_parse_required_time_2() {
    let txt = "2018-05-04--2018-05-05 -- H This is a half day";
    let expected = Ok(vec![
        DayTypeEntry {
            date: date(2018, 5, 4),
            day_type: DayType::VacationHalfDay {
                description: "This".to_string(),
            },
            given_as_range: true,
            line_nr: 1,
        },
        DayTypeEntry {
            date: date(2018, 5, 5),
            day_type: DayType::VacationHalfDay {
                description: "This".to_string(),
            },
            given_as_range: true,
            line_nr: 1,
        },
    ]);
    assert_eq!(parse_required_time(txt, "tst_file"), expected);
}

#[test]
fn test_parse_required_time_3() {
    let txt = "2018-05-04--2018-05-05 -- K This is: a sickness day";
    let expected = Ok(vec![
        DayTypeEntry {
            date: date(2018, 5, 4),
            day_type: DayType::Sick {
                description: "This is".to_string(),
            },
            given_as_range: true,
            line_nr: 1,
        },
        DayTypeEntry {
            date: date(2018, 5, 5),
            day_type: DayType::Sick {
                description: "This is".to_string(),
            },
            given_as_range: true,
            line_nr: 1,
        },
    ]);
    assert_eq!(parse_required_time(txt, "tst_file"), expected);
}

#[test]
fn test_parse_required_time_4() {
    let txt = "2018-05-04 -- F This is: a holiday\n2018-05-07 -- U A vacation day\n2018-05-06 -- \u{dc} Br\u{fc}ckentag";
    let expected = Ok(vec![
        DayTypeEntry {
            date: date(2018, 5, 4),
            day_type: DayType::Holiday {
                name: "This is".to_string(),
            },
            given_as_range: false,
            line_nr: 1,
        },
        DayTypeEntry {
            date: date(2018, 5, 7),
            day_type: DayType::Vacation {
                description: "A".to_string(),
            },
            given_as_range: false,
            line_nr: 2,
        },
        DayTypeEntry {
            date: date(2018, 5, 6),
            day_type: DayType::OvertimeReduction {
                description: "Br\u{fc}ckentag".to_string(),
            },
            given_as_range: false,
            line_nr: 3,
        },
    ]);
    assert_eq!(parse_required_time(txt, "tst_file"), expected);
}

#[test]
fn test_parse_required_time_with_foo() {
    let txt = "foo\n2018-05-04 -- F This is: a holiday\nbar\n2018-05-07 -- U A vacation day\n-- 2018-05-06 -- \u{dc} Br\u{fc}ckentag\n#2018-05-06 -- \u{dc} Br\u{fc}ckentag";
    let expected = Ok(vec![
        DayTypeEntry {
            date: date(2018, 5, 4),
            day_type: DayType::Holiday {
                name: "This is".to_string(),
            },
            given_as_range: false,
            line_nr: 2,
        },
        DayTypeEntry {
            date: date(2018, 5, 7),
            day_type: DayType::Vacation {
                description: "A".to_string(),
            },
            given_as_range: false,
            line_nr: 4,
        },
    ]);
    assert_eq!(parse_required_time(txt, "tst_file"), expected);
}

#[test]
fn test_parse_required_time_with_unknown_type_error() {
    let txt = "2018-05-04 -- F This is: a holiday\n2018-05-07 -- u A half day";
    let expected = Err(Error::ParseDayType {
        file: "tst_file".to_string(),
        line_nr: 2,
    });
    assert_eq!(parse_required_time(txt, "tst_file"), expected);
}

#[test]
fn test_parse_required_time_with_invalid_range_error() {
    let txt = "2018-05-04--2018-04-05 -- F This is: a holiday";
    let expected = Err(Error::ParseDayType {
        file: "tst_file".to_string(),
        line_nr: 1,
    });
    assert_eq!(parse_required_time(txt, "tst_file"), expected);
}

#[test]
fn test_parse_required_time_with_invalid_date_error() {
    let txt = "2018-13-04 -- F This is: a holiday";
    assert_eq!(parse_required_time(txt, "tst_file"), Err(Error::ParseDay));
}

#[test]
fn test_consolidate_required_time() {
    let special_required_times = vec![
        DayTypeEntry {
            date: date(2018, 5, 4),
            day_type: DayType::Holiday {
                name: "ho".to_string(),
            },
            given_as_range: false,
            line_nr: 1,
        },
        DayTypeEntry {
            date: date(2018, 5, 6),
            day_type: DayType::Vacation {
                description: "A".to_string(),
            },
            given_as_range: true,
            line_nr: 5,
        },
    ];
    let full_day_duration = Duration::hours(7).plus(&Duration::minutes(42));
    let result = consolidate_required_time(
        &special_required_times,
        &date(2018, 5, 3),
        &date(2018, 5, 6),
        &full_day_duration,
    );
    let expected = Ok(vec![
        RequiredTime {
            date: date(2018, 5, 3),
            day_type: DayType::WorkDay,
            required_time: full_day_duration,
            line_nr: 0,
        },
        RequiredTime {
            date: date(2018, 5, 4),
            day_type: DayType::Holiday {
                name: "ho".to_string(),
            },
            required_time: Duration::hours(0),
            line_nr: 1,
        },
        RequiredTime {
            date: date(2018, 5, 5),
            day_type: DayType::WeekEnd,
            required_time: Duration::hours(0),
            line_nr: 0,
        },
        RequiredTime {
            date: date(2018, 5, 6),
            day_type: DayType::Vacation {
                description: "A".to_string(),
            },
            required_time: Duration::hours(0),
            line_nr: 5,
        },
    ]);
    assert_eq!(result, expected);
}

#[test]
fn test_parse_required_time_with_conflict_error_1() {
    let special_required_times = vec![
        DayTypeEntry {
            date: date(2018, 5, 4),
            day_type: DayType::Holiday {
                name: "ho".to_string(),
            },
            given_as_range: false,
            line_nr: 1,
        },
        DayTypeEntry {
            date: date(2018, 5, 4),
            day_type: DayType::Vacation {
                description: "A".to_string(),
            },
            given_as_range: false,
            line_nr: 5,
        },
    ];
    let full_day_duration = Duration::hours(7).plus(&Duration::minutes(42));
    let result = consolidate_required_time(
        &special_required_times,
        &date(2018, 5, 3),
        &date(2018, 5, 5),
        &full_day_duration,
    );
    let expected = Err(Error::DuplicateDate {
        file: "".to_string(),
        line_nr: 5,
    });
    assert_eq!(result, expected);
}

#[test]
fn test_parse_required_time_with_conflict_error_2() {
    let special_required_times = vec![DayTypeEntry {
        date: date(2018, 5, 5),
        day_type: DayType::Vacation {
            description: "A".to_string(),
        },
        given_as_range: false,
        line_nr: 5,
    }];
    let full_day_duration = Duration::hours(7).plus(&Duration::minutes(42));
    let result = consolidate_required_time(
        &special_required_times,
        &date(2018, 5, 3),
        &date(2018, 5, 5),
        &full_day_duration,
    );
    let expected = Err(Error::DuplicateDate {
        file: "".to_string(),
        line_nr: 5,
    });
    assert_eq!(result, expected);
}

#[test]
fn test_parse_required_time_duplicate_without_conflict() {
    let special_required_times = vec![
        DayTypeEntry {
            date: date(2018, 5, 4),
            day_type: DayType::Holiday {
                name: "ho".to_string(),
            },
            given_as_range: false,
            line_nr: 1,
        },
        DayTypeEntry {
            date: date(2018, 5, 4),
            day_type: DayType::Vacation {
                description: "A".to_string(),
            },
            given_as_range: true,
            line_nr: 5,
        },
    ];
    let full_day_duration = Duration::hours(7).plus(&Duration::minutes(42));
    let result = consolidate_required_time(
        &special_required_times,
        &date(2018, 5, 3),
        &date(2018, 5, 5),
        &full_day_duration,
    );
    let expected = Ok(vec![
        RequiredTime {
            date: date(2018, 5, 3),
            day_type: DayType::WorkDay,
            required_time: full_day_duration,
            line_nr: 0,
        },
        RequiredTime {
            date: date(2018, 5, 4),
            day_type: DayType::Holiday {
                name: "ho".to_string(),
            },
            required_time: Duration::hours(0),
            line_nr: 1,
        },
        RequiredTime {
            date: date(2018, 5, 5),
            day_type: DayType::WeekEnd,
            required_time: Duration::hours(0),
            line_nr: 0,
        },
    ]);
    assert_eq!(result, expected);
}

#[test]
fn test_conflict_reports_first_offending_side() {
    // When both sides offend, the line of the first declaration is
    // reported.
    let special_required_times = vec![
        DayTypeEntry {
            date: date(2018, 5, 4),
            day_type: DayType::Sick {
                description: "ill".to_string(),
            },
            given_as_range: false,
            line_nr: 2,
        },
        DayTypeEntry {
            date: date(2018, 5, 4),
            day_type: DayType::Vacation {
                description: "A".to_string(),
            },
            given_as_range: false,
            line_nr: 7,
        },
    ];
    let full_day_duration = Duration::hours(8);
    let result = consolidate_required_time(
        &special_required_times,
        &date(2018, 5, 3),
        &date(2018, 5, 5),
        &full_day_duration,
    );
    let expected = Err(Error::DuplicateDate {
        file: "".to_string(),
        line_nr: 2,
    });
    assert_eq!(result, expected);
}

#[test]
fn test_extra_blanks_around_declaration() {
    let txt = "2018-05-04 --   W Mehrere Worte:   ";
    let expected = Ok(vec![DayTypeEntry {
        date: date(2018, 5, 4),
        day_type: DayType::JobTravel {
            description: "Mehrere Worte".to_string(),
        },
        given_as_range: false,
        line_nr: 1,
    }]);
    assert_eq!(parse_required_time(txt, "tst_file"), expected);
}

#[test]
fn test_declaration_without_description_is_rejected() {
    let txt = "2018-05-04 -- W";
    let expected = Err(Error::ParseDayType {
        file: "tst_file".to_string(),
        line_nr: 1,
    });
    assert_eq!(parse_required_time(txt, "tst_file"), expected);
}

#[test]
fn test_empty_declaration_tail_is_rejected() {
    let txt = "2018-05-04 -- ";
    let expected = Err(Error::ParseDayType {
        file: "tst_file".to_string(),
        line_nr: 1,
    });
    assert_eq!(parse_required_time(txt, "tst_file"), expected);
}

#[test]
fn test_weekend_declarations_priced_by_type_alone() {
    // The required-duration table is a function of the declared type
    // alone: overtime reduction and half vacation days keep their
    // durations even on Saturdays and Sundays.
    let declarations = vec![
        DayTypeEntry {
            date: date(2018, 5, 5),
            day_type: DayType::OvertimeReduction {
                description: "flex".to_string(),
            },
            given_as_range: true,
            line_nr: 1,
        },
        DayTypeEntry {
            date: date(2018, 5, 6),
            day_type: DayType::VacationHalfDay {
                description: "half".to_string(),
            },
            given_as_range: true,
            line_nr: 2,
        },
    ];
    let full_day_duration = Duration::hours(7).plus(&Duration::minutes(42));
    let result = consolidate_required_time(
        &declarations,
        &date(2018, 5, 5),
        &date(2018, 5, 6),
        &full_day_duration,
    );
    let expected = Ok(vec![
        RequiredTime {
            date: date(2018, 5, 5),
            day_type: DayType::OvertimeReduction {
                description: "flex".to_string(),
            },
            required_time: Duration::minutes(462),
            line_nr: 1,
        },
        RequiredTime {
            date: date(2018, 5, 6),
            day_type: DayType::VacationHalfDay {
                description: "half".to_string(),
            },
            required_time: Duration::minutes(231),
            line_nr: 2,
        },
    ]);
    assert_eq!(result, expected);
}

#[test]
fn test_half_day_requires_half_duration() {
    let declarations = vec![DayTypeEntry {
        date: date(2018, 5, 4),
        day_type: DayType::VacationHalfDay {
            description: "half".to_string(),
        },
        given_as_range: false,
        line_nr: 1,
    }];
    let full_day_duration = Duration::hours(7).plus(&Duration::minutes(42));
    let result = consolidate_required_time(
        &declarations,
        &date(2018, 5, 4),
        &date(2018, 5, 4),
        &full_day_duration,
    );
    let expected = Ok(vec![RequiredTime {
        date: date(2018, 5, 4),
        day_type: DayType::VacationHalfDay {
            description: "half".to_string(),
        },
        required_time: Duration::minutes(231),
        line_nr: 1,
    }]);
    assert_eq!(result, expected);
}

#[test]
fn test_overtime_reduction_requires_full_duration() {
    let declarations = vec![DayTypeEntry {
        date: date(2018, 5, 4),
        day_type: DayType::OvertimeReduction {
            description: "flex".to_string(),
        },
        given_as_range: false,
        line_nr: 3,
    }];
    let full_day_duration = Duration::hours(8);
    let result = consolidate_required_time(
        &declarations,
        &date(2018, 5, 4),
        &date(2018, 5, 4),
        &full_day_duration,
    );
    let expected = Ok(vec![RequiredTime {
        date: date(2018, 5, 4),
        day_type: DayType::OvertimeReduction {
            description: "flex".to_string(),
        },
        required_time: Duration::hours(8),
        line_nr: 3,
    }]);
    assert_eq!(result, expected);
}
