use humako::db_parser::{
    get_actions, get_employees, normalize_time, parse_db, ActionsRaw, EmployeeRaw, TimeEntryRaw,
};
use chrono::Datelike;
use humako::time::{date_to_day, parse_date, parse_time, timestamp_or_default};

#[test]
fn it_works() {
    assert_eq!(2 + 2, 4);
}

#[test]
fn day_numbers_count_from_the_epoch() {
    assert_eq!(date_to_day(1970, 1, 1), Some(0));
    assert_eq!(date_to_day(1970, 2, 1), Some(31));
    assert_eq!(date_to_day(1971, 1, 1), Some(365));
    // 1972 is a leap year
    assert_eq!(date_to_day(1973, 1, 1), Some(365 + 365 + 366));
    assert_eq!(date_to_day(2019, 1, 2), Some(17898));
}

#[test]
fn day_numbers_agree_with_chrono() {
    let epoch = chrono::NaiveDate::from_ymd_opt(1970, 1, 1)
        .unwrap()
        .num_days_from_ce();
    for (y, m, d) in [
        (1970, 1, 1),
        (2000, 2, 29),
        (2019, 1, 2),
        (2024, 12, 31),
        (9999, 12, 31),
    ] {
        let ours = date_to_day(y, m, d).unwrap();
        let theirs = chrono::NaiveDate::from_ymd_opt(y as i32, m, d)
            .unwrap()
            .num_days_from_ce()
            - epoch;
        assert_eq!(ours as i64, theirs as i64);
    }
}

#[test]
fn date_to_day_rejects_invalid_dates() {
    assert_eq!(date_to_day(2019, 13, 1), None);
    assert_eq!(date_to_day(2019, 0, 1), None);
    assert_eq!(date_to_day(2019, 2, 29), None);
    assert_eq!(date_to_day(2020, 2, 29), Some(date_to_day(2020, 3, 1).unwrap() - 1));
    assert_eq!(date_to_day(1969, 12, 31), None);
    assert_eq!(date_to_day(10000, 1, 1), None);
}

#[test]
fn parse_date_reads_compact_dates() {
    assert_eq!(parse_date("20190102"), date_to_day(2019, 1, 2));
    assert_eq!(parse_date("19700101"), Some(0));
    assert_eq!(parse_date("2019010"), None);
    assert_eq!(parse_date("201901023"), None);
    assert_eq!(parse_date("20191302"), None);
    assert_eq!(parse_date("20190229"), None);
    assert_eq!(parse_date("2019a102"), None);
    assert_eq!(parse_date(""), None);
}

#[test]
fn parse_time_reads_compact_times() {
    assert_eq!(parse_time("070116"), Some(7 * 3600 + 1 * 60 + 16));
    assert_eq!(parse_time("000000"), Some(0));
    assert_eq!(parse_time("235959"), Some(86399));
    assert_eq!(parse_time("240000"), None);
    assert_eq!(parse_time("126000"), None);
    assert_eq!(parse_time("12005a"), None);
    assert_eq!(parse_time("70116"), None);
}

#[test]
fn normalize_time_restores_the_leading_zero() {
    assert_eq!(normalize_time(&"70116".to_string()), "070116".to_string());
    assert_eq!(normalize_time(&"170116".to_string()), "170116".to_string());
    assert_eq!(normalize_time(&"0116".to_string()), "0116".to_string());
}

#[test]
fn unparseable_fields_fall_back_independently() {
    let t = timestamp_or_default("20190102", "070116");
    assert_eq!(t.day, 17898);
    assert_eq!(t.secs, 25276);
    // a broken date keeps the parsed time, and the other way round
    let t = timestamp_or_default("1919x102", "070116");
    assert_eq!(t.day, 0);
    assert_eq!(t.secs, 25276);
    let t = timestamp_or_default("20190102", "995959");
    assert_eq!(t.day, 17898);
    assert_eq!(t.secs, 0);
    // dates before the epoch are outside the supported range
    let t = timestamp_or_default("19690101", "120000");
    assert_eq!(t.day, 0);
}

#[test]
fn lookup_tables_keep_the_last_row_for_a_repeated_id() {
    let employees = get_employees(&vec![
        EmployeeRaw { EN: 1, Name: "Ann".to_string() },
        EmployeeRaw { EN: 2, Name: "Bob".to_string() },
        EmployeeRaw { EN: 1, Name: "Anna".to_string() },
    ]);
    assert_eq!(employees.get(&1), Some(&"Anna".to_string()));
    assert_eq!(employees.get(&2), Some(&"Bob".to_string()));
    assert_eq!(employees.get(&3), None);

    let actions = get_actions(&vec![
        ActionsRaw { ACT_ID: 7, ACT_Name: "Kas".to_string() },
        ActionsRaw { ACT_ID: 7, ACT_Name: "Kas B".to_string() },
    ]);
    assert_eq!(actions.get(&7), Some(&"Kas B".to_string()));
}

#[test]
fn parse_db_resolves_ids_and_timestamps() {
    let employees = get_employees(&vec![EmployeeRaw { EN: 4, Name: "Michel".to_string() }]);
    let actions = get_actions(&vec![ActionsRaw { ACT_ID: 9, ACT_Name: "Kas".to_string() }]);
    let rows = vec![
        TimeEntryRaw {
            Date: "20190102".to_string(),
            Time: "070116".to_string(),
            Empl: 4,
            Action: 9,
            TRD_RunNr: 173,
        },
        TimeEntryRaw {
            Date: "20190102".to_string(),
            Time: "085942".to_string(),
            Empl: 5,
            Action: 10,
            TRD_RunNr: 174,
        },
    ];
    let events = parse_db(&rows, &employees, &actions);
    assert_eq!(events.len(), 2);
    assert_eq!(events[0].id, 173);
    assert_eq!(events[0].employee, "Michel".to_string());
    assert_eq!(events[0].action, "Kas".to_string());
    assert_eq!(events[0].timestamp.day, 17898);
    assert_eq!(events[0].timestamp.secs, 7 * 3600 + 1 * 60 + 16);
    // unknown reference ids resolve to the placeholder
    assert_eq!(events[1].employee, "Onbekend".to_string());
    assert_eq!(events[1].action, "Onbekend".to_string());
}
