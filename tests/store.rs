use rtimelog::store::{LogError, Timelog};
use rtimelog::time::{Date, Stamp};

const TWO_DAYS: &'static str = "
2022-06-09 06:02: arrived
2022-06-09 06:27: email
2022-06-09 06:32: **tea
2022-06-09 12:00: work

2022-06-10 07:00: arrived
2022-06-10 12:05: rtimelog: code
2022-06-10 12:30: **lunch
2022-06-10 14:00: rtimelog: code
2022-06-10 15:00: bug triage
2022-06-10 16:00: customer joe: support
";

const TWO_WEEKS: &'static str = "
2022-06-01 06:00: arrived
2022-06-01 07:00: workw1
2022-06-01 07:10: ** tea

2022-06-03 06:00: arrived
2022-06-03 07:00: workw1
2022-06-03 07:10: ** tea

2022-06-08 06:00: arrived
2022-06-08 07:00: workw2
2022-06-08 07:10: ** tea

2022-06-09 06:00: arrived
2022-06-09 07:00: workw2

2022-06-10 06:00: arrived
2022-06-10 07:00: workw2
";

fn ymd(y: i32, m: u32, d: u32) -> Date {
    Date::from_ymd_opt(y, m, d).unwrap()
}

fn at(y: i32, m: u32, d: u32, hour: u32, minute: u32) -> Stamp {
    Stamp { date: ymd(y, m, d), hour, minute }
}

fn stamp_text(s: &Stamp) -> String {
    format!(
        "{:04}-{:02}-{:02} {:02}:{:02}",
        s.date.year, s.date.month, s.date.day, s.hour, s.minute
    )
}

#[test]
fn test_parse_line_valid() {
    let e1 = Timelog::parse_line("2022-05-31 13:59: email").unwrap();
    assert_eq!(e1.task, "email");
    assert_eq!(stamp_text(&e1.stop), "2022-05-31 13:59");

    let e2 = Timelog::parse_line("2022-05-31 14:07: read docs").unwrap();
    assert_eq!(e2.task, "read docs");
    assert_eq!(stamp_text(&e2.stop), "2022-05-31 14:07");

    assert_eq!(e2.stop.date, e1.stop.date);
    let minutes = |s: &Stamp| (s.hour * 60 + s.minute) as i64;
    assert_eq!(minutes(&e2.stop) - minutes(&e1.stop), 8);
}

#[test]
fn test_parse_line_invalid() {
    assert_eq!(Timelog::parse_line(""), None);
    assert_eq!(Timelog::parse_line("  "), None);
    assert_eq!(Timelog::parse_line("a"), None);
    // no ': -'
    assert_eq!(Timelog::parse_line("2022-05-31 13:59 email"), None);
    // invalid time
    assert_eq!(Timelog::parse_line("2022-05-31 25:61: email"), None);
    // invalid date
    assert_eq!(Timelog::parse_line("2022-13-32 13:59: email"), None);
}

#[test]
fn parse_line_details() {
    // surrounding whitespace is trimmed, the task keeps inner text as is
    let e = Timelog::parse_line("  2022-05-31 13:59: a: b  \r").unwrap();
    assert_eq!(e.task, "a: b");
    assert_eq!(e.stop, at(2022, 5, 31, 13, 59));
    // leap day only in leap years
    assert!(Timelog::parse_line("2024-02-29 10:00: x").is_some());
    assert!(Timelog::parse_line("2023-02-29 10:00: x").is_none());
    assert!(Timelog::parse_line("1900-02-29 10:00: x").is_none());
    assert!(Timelog::parse_line("2000-02-29 10:00: x").is_some());
    // not zero-padded
    assert!(Timelog::parse_line("2022-6-01 10:00: x").is_none());
    // no task after the separator
    assert!(Timelog::parse_line("2022-06-01 10:00: ").is_none());
}

#[test]
fn test_parse_valid() {
    let entries = Timelog::parse("").unwrap();
    assert_eq!(entries.len(), 0);

    let entries = Timelog::parse(TWO_DAYS).unwrap();
    assert_eq!(entries.len(), 10);
    assert_eq!(&entries[0].to_text(), "2022-06-09 06:02: arrived");
    assert_eq!(
        &entries[9].to_text(),
        "2022-06-10 16:00: customer joe: support"
    );
}

#[test]
fn test_parse_out_of_order() {
    let r = Timelog::parse(
        "
2022-06-09 06:02: arrived
2022-06-09 06:10: ** tea
2022-06-08 07:32: huh, previous day
",
    );
    assert_eq!(r, Err(LogError::OutOfOrder));
}

#[test]
fn equal_stamps_are_in_order() {
    let r = Timelog::parse("2022-06-09 06:02: a\n2022-06-09 06:02: b\n").unwrap();
    assert_eq!(r.len(), 2);
    assert!(Timelog::new_from_string("2022-06-09 06:03: a\n2022-06-09 06:02: b").is_err());
}

#[test]
fn invalid_lines_are_skipped() {
    let r = Timelog::parse("garbage\n2022-06-09 06:02: a\n2022-06-09 99:02: b\nno sep\n").unwrap();
    assert_eq!(r.len(), 1);
    assert_eq!(r[0].task, "a");
}

#[test]
fn test_constructor() {
    let tl = Timelog::new_from_string("").unwrap();
    assert_eq!(tl.get_all().iter().next(), None);

    let tl = Timelog::new_from_string(TWO_DAYS).unwrap();
    let mut entries = tl.get_all().iter();
    assert_eq!(
        &entries.next().unwrap().to_text(),
        "2022-06-09 06:02: arrived"
    );
    let mut entries = entries.skip(8);
    assert_eq!(
        &entries.next().unwrap().to_text(),
        "2022-06-10 16:00: customer joe: support"
    );
    assert_eq!(entries.next(), None);
}

#[test]
fn test_get_day() {
    let tl = Timelog::new_from_string("").unwrap();
    assert!(tl.get_day(&ymd(2022, 6, 8)).is_empty());

    let tl = Timelog::new_from_string(TWO_DAYS).unwrap();
    assert!(tl.get_day(&ymd(2022, 6, 8)).is_empty());

    let entries = tl.get_day(&ymd(2022, 6, 9));
    assert_eq!(entries.len(), 4);
    assert_eq!(&entries[0].to_text(), "2022-06-09 06:02: arrived");
    assert_eq!(&entries[3].to_text(), "2022-06-09 12:00: work");

    let entries = tl.get_day(&ymd(2022, 6, 10));
    assert_eq!(entries.len(), 6);
    assert_eq!(&entries[0].to_text(), "2022-06-10 07:00: arrived");
    assert_eq!(
        &entries[5].to_text(),
        "2022-06-10 16:00: customer joe: support"
    );
}

#[test]
fn test_get_week() {
    let tl = Timelog::new_from_string("").unwrap();
    assert!(tl.get_week(&ymd(2022, 6, 2)).is_empty());

    let tl = Timelog::new_from_string(TWO_WEEKS).unwrap();
    // select Wed, data has Tue and Thu
    let entries = tl.get_week(&ymd(2022, 6, 2));
    assert_eq!(entries.len(), 6);
    assert_eq!(&entries[0].to_text(), "2022-06-01 06:00: arrived");
    assert_eq!(&entries[5].to_text(), "2022-06-03 07:10: ** tea");

    // select Tue, data has Wed to Fri
    let entries = tl.get_week(&ymd(2022, 6, 7));
    assert_eq!(entries.len(), 7);
    assert_eq!(&entries[0].to_text(), "2022-06-08 06:00: arrived");
    assert_eq!(&entries[6].to_text(), "2022-06-10 07:00: workw2");
}

#[test]
fn iso_week_selection() {
    let tl = Timelog::new_from_string(
        "2022-06-01 08:00: a\n\n2022-06-03 08:00: b\n\n2022-06-08 08:00: c\n\n2022-06-09 08:00: d\n\n2022-06-10 08:00: e\n",
    )
    .unwrap();
    let w22 = tl.get_week(&ymd(2022, 6, 2));
    assert_eq!(w22.len(), 2);
    assert_eq!(w22[0].task, "a");
    assert_eq!(w22[1].task, "b");
    let w23 = tl.get_week(&ymd(2022, 6, 7));
    assert_eq!(w23.len(), 3);
    assert_eq!(w23[0].task, "c");
    assert_eq!(w23[2].task, "e");
}

#[test]
fn week_across_year_end() {
    let tl = Timelog::new_from_string(
        "2020-12-27 23:59: sun before\n\n2020-12-28 00:00: mon\n\n2021-01-03 23:59: sun\n\n2021-01-04 00:00: next mon\n",
    )
    .unwrap();
    let w = tl.get_week(&ymd(2020, 12, 31));
    assert_eq!(w.len(), 2);
    assert_eq!(w[0].task, "mon");
    assert_eq!(w[1].task, "sun");
    let w = tl.get_week(&ymd(2021, 1, 3));
    assert_eq!(w.len(), 2);
    assert_eq!(ymd(2021, 1, 1).week_monday(), ymd(2020, 12, 28));
    assert_eq!(ymd(2021, 1, 1).week_sunday(), ymd(2021, 1, 3));
    assert_eq!(ymd(2022, 6, 1).week_monday(), ymd(2022, 5, 30));
    assert_eq!(ymd(2022, 6, 1).week_sunday(), ymd(2022, 6, 5));
}

#[test]
fn date_validity() {
    assert!(Date::from_ymd_opt(2022, 2, 29).is_none());
    assert!(Date::from_ymd_opt(2024, 2, 29).is_some());
    assert!(Date::from_ymd_opt(2022, 4, 31).is_none());
    assert!(Date::from_ymd_opt(2022, 0, 1).is_none());
    assert!(Date::from_ymd_opt(2022, 12, 31).is_some());
    assert!(Date::from_ymd_opt(262143, 1, 1).is_none());
    assert!(Date::from_ymd_opt(262142, 1, 1).is_some());
}

#[test]
fn test_format_store() {
    let tl = Timelog::new_from_string(TWO_DAYS).unwrap();
    // simple roundtrip; but our constant starts with an empty line
    assert_eq!(tl.format_store(), TWO_DAYS.trim_start());
}

#[test]
fn round_trip_and_empty() {
    let tl = Timelog::new_from_string(TWO_WEEKS).unwrap();
    let text = tl.format_store();
    let again = Timelog::parse(&text).unwrap();
    assert_eq!(again.as_slice(), tl.get_all());
    let empty = Timelog::new_from_string("").unwrap();
    assert_eq!(empty.format_store(), "");
}

#[test]
fn test_get_history() {
    let tl = Timelog::new_from_string("").unwrap();
    assert!(Timelog::get_history(tl.get_day(&ymd(2022, 6, 8))).is_empty());

    let tl = Timelog::new_from_string(TWO_DAYS).unwrap();
    let entries = tl.get_day(&ymd(2022, 6, 10));
    assert_eq!(
        Timelog::get_history(entries),
        // no duplicate "rtimelog: code"
        vec![
            "arrived",
            "rtimelog: code",
            "**lunch",
            "bug triage",
            "customer joe: support"
        ]
    );
}

#[test]
fn history_first_occurrence() {
    let tl = Timelog::new_from_string(
        "2022-06-10 07:00: arrived\n2022-06-10 08:00: code\n2022-06-10 08:10: ** tea\n2022-06-10 09:00: code\n2022-06-10 10:00: code\n",
    )
    .unwrap();
    assert_eq!(
        Timelog::get_history(tl.get_all()),
        vec!["arrived", "code", "** tea"]
    );
}

#[test]
fn test_add() {
    let mut tl = Timelog::new_from_string("").unwrap();
    let _ = tl.add("think hard".to_string());
    assert_eq!(tl.get_all().len(), 1);
    assert_eq!(tl.get_all()[0].task, "think hard");
}

#[test]
fn add_at_keeps_order() {
    let mut tl = Timelog::new_from_string("2022-06-10 07:00: arrived\n").unwrap();
    assert_eq!(
        tl.add_at("late".to_string(), at(2022, 6, 10, 6, 59)),
        Err(LogError::OutOfOrder)
    );
    assert_eq!(tl.add_at("same".to_string(), at(2022, 6, 10, 7, 0)), Ok(()));
    assert_eq!(
        tl.add_at("far".to_string(), at(10000, 1, 1, 0, 0)),
        Err(LogError::UnwritableTime)
    );
    assert_eq!(tl.add_at("next day".to_string(), at(2022, 6, 11, 8, 0)), Ok(()));
    assert_eq!(tl.get_all().len(), 3);
    assert_eq!(
        tl.format_store(),
        "2022-06-10 07:00: arrived\n2022-06-10 07:00: same\n\n2022-06-11 08:00: next day\n"
    );
}

#[test]
fn today_and_this_week_are_subsets() {
    let mut tl = Timelog::new_from_string("").unwrap();
    assert!(tl.get_today().is_empty());
    tl.add("now".to_string()).unwrap();
    assert_eq!(tl.get_today().len(), 1);
    assert_eq!(tl.get_this_week().len(), 1);
}

#[test]
fn skipped_lines_are_reported() {
    let text = "garbage\n\n  2022-06-09 06:02: a\n2022-06-09 99:02: b  \n  no sep \n";
    assert_eq!(
        Timelog::skipped_lines(text),
        vec!["garbage", "2022-06-09 99:02: b", "no sep"]
    );
    assert!(Timelog::skipped_lines(TWO_DAYS).is_empty());
}
