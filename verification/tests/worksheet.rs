use humako::db_parser::TimeRowEvent;
use humako::sheet::WorkSheet;
use humako::time::{date_to_day, parse_time, Timestamp};

fn ev(id: u32, employee: &str, action: &str, day: u32, time: &str) -> TimeRowEvent {
    TimeRowEvent {
        id,
        employee: employee.to_string(),
        action: action.to_string(),
        timestamp: Timestamp {
            day,
            secs: parse_time(time).expect("test time must parse"),
        },
    }
}

fn minutes(sheet: &WorkSheet, day: u32, employee: &str, action: &str) -> Option<i64> {
    sheet.get_minutes(day, &employee.to_string(), &action.to_string())
}

#[test]
fn it_should_convert_events_to_work_sheet() {
    let day = date_to_day(2019, 1, 2).unwrap();
    let events: Vec<TimeRowEvent> = vec![
        ev(173, "Michel", "Begin/Pause", day, "070116"),
        ev(188, "Michel", "Kas", day, "085942"),
        ev(209, "Michel", "Begin/Pause", day, "100300"),
        ev(216, "Michel", "Begin/Pause", day, "101906"),
        ev(236, "Michel", "toppen B", day, "102522"),
        ev(264, "Michel", "Begin/Pause", day, "125044"),
        ev(264, "Michel", "Begin/Pause", day, "131944"),
        ev(272, "Michel", "steken B", day, "132230"),
        ev(285, "Michel", "stek plukken B", day, "155429"),
    ];

    let work_sheet = humako::derive_work_sheet(events);

    assert_eq!(minutes(&work_sheet, day, "Michel", "Kas"), Some(118));
    assert_eq!(minutes(&work_sheet, day, "Michel", "toppen B"), Some(69));
    assert_eq!(minutes(&work_sheet, day, "Michel", "steken B"), Some(148));
    assert_eq!(minutes(&work_sheet, day, "Michel", "stek plukken B"), Some(151));
    let actions = work_sheet
        .get_day(day)
        .unwrap()
        .get(&"Michel".to_string())
        .unwrap();
    assert_eq!(actions.rows.len(), 4);
}

#[test]
fn it_should2() {
    let day = date_to_day(2019, 1, 2).unwrap();
    let events: Vec<TimeRowEvent> = vec![
        ev(172, "Michel", "Begin/Pause", day, "070107"),
        ev(210, "Michel", "Begin/Pause", day, "100320"),
        ev(225, "Michel", "Begin/Pause", day, "102019"),
        ev(254, "Michel", "Begin/Pause", day, "132000"),
        ev(293, "Michel", "gewasverz opkw", day, "160917"),
        ev(294, "Michel", "opkweek divers B", day, "161822"),
        // arrives last in input order, but in timestamp order it falls
        // between the morning and afternoon toggles
        ev(404, "Michel", "Begin/Pause", day, "125421"),
    ];

    let work_sheet = humako::derive_work_sheet(events);

    assert_eq!(minutes(&work_sheet, day, "Michel", "gewasverz opkw"), Some(507));
    assert_eq!(minutes(&work_sheet, day, "Michel", "opkweek divers B"), Some(9));
    let actions = work_sheet
        .get_day(day)
        .unwrap()
        .get(&"Michel".to_string())
        .unwrap();
    assert_eq!(actions.rows.len(), 2);
}

#[test]
fn unit_truncation_floors_to_whole_minutes() {
    // 89 seconds of work credit 1 minute, not 2
    let day = date_to_day(2020, 6, 1).unwrap();
    let events = vec![
        ev(1, "Ann", "Begin/Pause", day, "080000"),
        ev(2, "Ann", "Kas", day, "080129"),
    ];
    let sheet = humako::derive_work_sheet(events);
    assert_eq!(minutes(&sheet, day, "Ann", "Kas"), Some(1));
}

#[test]
fn day_boundary_resets_state() {
    let d1 = date_to_day(2019, 3, 4).unwrap();
    let d2 = date_to_day(2019, 3, 5).unwrap();
    let events = vec![
        ev(1, "Ann", "Begin/Pause", d1, "080000"),
        ev(2, "Ann", "Kas", d1, "090000"),
        // the first event of the new day closes nothing: the open action
        // from the previous day does not carry over
        ev(3, "Ann", "Werk", d2, "070000"),
        ev(4, "Ann", "Werk", d2, "080000"),
    ];
    let sheet = humako::derive_work_sheet(events);
    assert_eq!(minutes(&sheet, d1, "Ann", "Kas"), Some(60));
    // the day-opening anomaly creates its bucket under the previous day's
    // date, with zero minutes
    assert_eq!(minutes(&sheet, d1, "Ann", "Werk"), Some(0));
    // only the second-to-third event interval of the new day is credited
    assert_eq!(minutes(&sheet, d2, "Ann", "Werk"), Some(60));
    assert_eq!(minutes(&sheet, d2, "Ann", "Kas"), None);
}

#[test]
fn unopened_day_credits_nothing() {
    // a day whose first event is a non-toggle action gets no minutes for
    // the interval ending at that event
    let day = date_to_day(2019, 7, 1).unwrap();
    let events = vec![
        ev(1, "Bob", "Kas", day, "080000"),
        ev(2, "Bob", "Werk", day, "090000"),
    ];
    let sheet = humako::derive_work_sheet(events);
    // the very first event only records itself; the next one closes the
    // then-open segment
    assert_eq!(minutes(&sheet, day, "Bob", "Werk"), Some(60));
    assert_eq!(minutes(&sheet, day, "Bob", "Kas"), None);
}

#[test]
fn stale_break_minutes_can_go_negative() {
    // break minutes accumulated after the last closed action are not
    // cleared by a day change; the next closed action absorbs them, which
    // can drive its bucket negative (a preserved data-quality quirk)
    let d1 = date_to_day(2019, 9, 2).unwrap();
    let d2 = date_to_day(2019, 9, 3).unwrap();
    let events = vec![
        ev(1, "Cid", "Begin/Pause", d1, "080000"),
        ev(2, "Cid", "Kas", d1, "083000"),
        ev(3, "Cid", "Begin/Pause", d1, "090000"),
        ev(4, "Cid", "Begin/Pause", d1, "100000"),
        ev(5, "Cid", "Werk", d2, "100500"),
        ev(6, "Cid", "Werk", d2, "101000"),
    ];
    let sheet = humako::derive_work_sheet(events);
    assert_eq!(minutes(&sheet, d1, "Cid", "Kas"), Some(30));
    assert_eq!(minutes(&sheet, d1, "Cid", "Werk"), Some(0));
    assert_eq!(minutes(&sheet, d2, "Cid", "Werk"), Some(5 - 60));
}

#[test]
fn assembly_is_idempotent() {
    let day = date_to_day(2019, 1, 2).unwrap();
    let build = || {
        vec![
            ev(1, "Ann", "Begin/Pause", day, "080000"),
            ev(2, "Ann", "Kas", day, "100000"),
            ev(3, "Bob", "Begin/Pause", day, "090000"),
            ev(4, "Bob", "Werk", day, "093000"),
        ]
    };
    let s1 = humako::derive_work_sheet(build());
    let s2 = humako::derive_work_sheet(build());
    assert_eq!(s1.days(), s2.days());
    for employee in ["Ann", "Bob"] {
        for action in ["Kas", "Werk"] {
            assert_eq!(
                minutes(&s1, day, employee, action),
                minutes(&s2, day, employee, action)
            );
        }
    }
}

#[test]
fn employee_order_does_not_matter() {
    let day = date_to_day(2019, 1, 2).unwrap();
    let forward = vec![
        ev(1, "Ann", "Begin/Pause", day, "080000"),
        ev(2, "Bob", "Begin/Pause", day, "090000"),
        ev(3, "Ann", "Kas", day, "100000"),
        ev(4, "Bob", "Werk", day, "093000"),
    ];
    // same events, employees interleaved the other way; each employee's
    // own order is preserved
    let permuted = vec![
        ev(2, "Bob", "Begin/Pause", day, "090000"),
        ev(4, "Bob", "Werk", day, "093000"),
        ev(1, "Ann", "Begin/Pause", day, "080000"),
        ev(3, "Ann", "Kas", day, "100000"),
    ];
    let s1 = humako::derive_work_sheet(forward);
    let s2 = humako::derive_work_sheet(permuted);
    assert_eq!(minutes(&s1, day, "Ann", "Kas"), Some(120));
    assert_eq!(minutes(&s1, day, "Ann", "Kas"), minutes(&s2, day, "Ann", "Kas"));
    assert_eq!(minutes(&s1, day, "Bob", "Werk"), minutes(&s2, day, "Bob", "Werk"));
    assert_eq!(s1.days().len(), s2.days().len());
}

#[test]
fn breaks_never_create_their_own_bucket() {
    let day = date_to_day(2019, 5, 6).unwrap();
    let events = vec![
        ev(1, "Ann", "Begin/Pause", day, "080000"),
        ev(2, "Ann", "Begin/Pause", day, "081000"),
        ev(3, "Ann", "Begin/Pause", day, "082000"),
        ev(4, "Ann", "Kas", day, "090000"),
    ];
    let sheet = humako::derive_work_sheet(events);
    // 60 minutes elapsed, 10 of them on break
    assert_eq!(minutes(&sheet, day, "Ann", "Kas"), Some(50));
    assert_eq!(minutes(&sheet, day, "Ann", "Begin/Pause"), None);
    let actions = sheet.get_day(day).unwrap().get(&"Ann".to_string()).unwrap();
    assert_eq!(actions.rows.len(), 1);
}

#[test]
fn equal_timestamps_keep_input_order() {
    // two actions punched at the very same second: the sort is stable, so
    // the first one in the input closes the open segment and the second
    // closes a zero-length one
    let day = date_to_day(2019, 5, 8).unwrap();
    let events = vec![
        ev(1, "Ann", "Begin/Pause", day, "080000"),
        ev(2, "Ann", "Kas", day, "090000"),
        ev(3, "Ann", "Werk", day, "090000"),
    ];
    let sheet = humako::derive_work_sheet(events);
    assert_eq!(minutes(&sheet, day, "Ann", "Kas"), Some(60));
    assert_eq!(minutes(&sheet, day, "Ann", "Werk"), Some(0));
}

#[test]
fn open_tail_is_not_counted() {
    // a day's last action that never closes contributes nothing
    let day = date_to_day(2019, 5, 7).unwrap();
    let events = vec![
        ev(1, "Ann", "Begin/Pause", day, "080000"),
        ev(2, "Ann", "Kas", day, "090000"),
    ];
    let sheet = humako::derive_work_sheet(events);
    assert_eq!(minutes(&sheet, day, "Ann", "Kas"), Some(60));
    let actions = sheet.get_day(day).unwrap().get(&"Ann".to_string()).unwrap();
    assert_eq!(actions.rows.len(), 1);
}
