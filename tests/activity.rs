use rtimelog::activity::{Activities, Activity};
use rtimelog::store::Timelog;
use rtimelog::time::Date;

fn ymd(y: i32, m: u32, d: u32) -> Date {
    Date::from_ymd_opt(y, m, d).unwrap()
}

#[test]
fn test_activity_display() {
    assert_eq!(
        &Activity::new("code this".to_string(), 3).to_text(),
        " 0 h  3 min: code this"
    );
    assert_eq!(
        &Activity::new("code this".to_string(), 59).to_text(),
        " 0 h 59 min: code this"
    );
    assert_eq!(
        &Activity::new("code this".to_string(), 60).to_text(),
        " 1 h  0 min: code this"
    );
    assert_eq!(
        &Activity::new("code this".to_string(), 23 * 60 + 1).to_text(),
        "23 h  1 min: code this"
    );
}

#[test]
fn test_activities_empty() {
    let a = Activities::new_from_entries(&[]);
    assert_eq!(a.activities.len(), 0);
    assert_eq!(a.total_work, 0);
    assert_eq!(a.total_slack, 0);
}

#[test]
fn test_activities_daily() {
    let tl = Timelog::new_from_string(
        "
2022-06-10 07:00: arrived
2022-06-10 08:45: gtimelog: code
2022-06-10 09:00: ** tea
2022-06-10 12:05: gtimelog: code
2022-06-10 12:35: customer joe: inquiry
2022-06-10 13:15: ** lunch
2022-06-10 14:00: code
2022-06-10 15:00: bug triage
2022-06-10 15:10: ** tea
2022-06-10 16:00: customer joe: support
",
    )
    .unwrap();

    let a = Activities::new_from_entries(tl.get_day(&ymd(2022, 6, 10)));
    assert_eq!(a.total_work, 475);
    assert_eq!(a.total_slack, 65);
    assert_eq!(a.activities.len(), 7);
    assert_eq!(a.activities[0].name, "gtimelog: code");
    // first block 1:45, second block 3:05
    assert_eq!(a.activities[0].minutes, 4 * 60 + 50);

    assert_eq!(
        a.to_text(),
        " 4 h 50 min: gtimelog: code
 0 h 25 min: ** tea
 0 h 30 min: customer joe: inquiry
 0 h 40 min: ** lunch
 0 h 45 min: code
 1 h  0 min: bug triage
 0 h 50 min: customer joe: support
-------
Total work done: 7 h 55 min
Total slacking: 1 h 5 min\n"
    )
}

#[test]
fn test_activities_weekly() {
    let tl = Timelog::new_from_string(
        "
2022-06-01 06:00: arrived
2022-06-01 07:00: workw1
2022-06-01 07:10: ** tea

2022-06-03 06:00: arrived
2022-06-03 07:00: workw1
2022-06-03 07:10: ** tea

2022-06-08 06:00: arrived
2022-06-08 07:00: workw2
2022-06-08 07:10: ** tea

2022-06-09 06:00: arrived
2022-06-09 07:00: workw2

2022-06-10 06:00: arrived
2022-06-10 07:00: workw2
2022-06-10 07:10: ** tea
",
    )
    .unwrap();

    let a = Activities::new_from_entries(tl.get_week(&ymd(2022, 6, 7)));
    assert_eq!(a.total_work, 3 * 60);
    assert_eq!(a.total_slack, 20);
    assert_eq!(a.activities.len(), 2);
    assert_eq!(a.activities[0].name, "workw2");
    assert_eq!(a.activities[0].minutes, 3 * 60);
    assert_eq!(a.activities[1].name, "** tea");
    assert_eq!(a.activities[1].minutes, 20);

    assert_eq!(
        a.to_text(),
        " 3 h  0 min: workw2
 0 h 20 min: ** tea
-------
Total work done: 3 h 0 min
Total slacking: 0 h 20 min
"
    );
}

#[test]
fn first_entry_and_slack_attribution() {
    let tl = Timelog::new_from_string(
        "2022-06-10 07:00: arrived\n2022-06-10 08:45: code\n2022-06-10 09:00: ** tea\n",
    )
    .unwrap();
    let a = Activities::new_from_entries(tl.get_all());
    assert_eq!(a.activities.len(), 2);
    assert_eq!(a.activities[0].name, "code");
    assert_eq!(a.activities[0].minutes, 105);
    assert_eq!(a.activities[1].name, "** tea");
    assert_eq!(a.activities[1].minutes, 15);
    assert_eq!(a.total_work, 105);
    assert_eq!(a.total_slack, 15);
    assert!(a.activities.iter().all(|x| x.name != "arrived"));
}

#[test]
fn no_interval_across_days() {
    let tl = Timelog::new_from_string(
        "2022-06-09 07:00: arrived\n2022-06-09 08:00: code\n\n2022-06-10 09:00: code\n2022-06-10 09:30: code\n",
    )
    .unwrap();
    let a = Activities::new_from_entries(tl.get_all());
    assert_eq!(a.total_work, 90);
    assert_eq!(a.activities.len(), 1);
    assert_eq!(a.activities[0].minutes, 90);
}

#[test]
fn same_day_of_month_in_other_month_is_another_day() {
    let tl = Timelog::new_from_string(
        "2022-06-10 07:00: arrived\n2022-07-10 08:00: code\n",
    )
    .unwrap();
    let a = Activities::new_from_entries(tl.get_all());
    assert_eq!(a.total_work, 0);
    assert_eq!(a.activities.len(), 0);
}

#[test]
fn work_slack_split_and_accumulation() {
    let tl = Timelog::new_from_string(
        "2022-06-10 07:00: arrived\n2022-06-10 08:00: a\n2022-06-10 09:00: a\n2022-06-10 09:10: ** b\n",
    )
    .unwrap();
    let a = Activities::new_from_entries(tl.get_all());
    assert_eq!(a.activities.len(), 2);
    assert_eq!(a.activities[0].name, "a");
    assert_eq!(a.activities[0].minutes, 120);
    assert_eq!(a.activities[1].name, "** b");
    assert_eq!(a.activities[1].minutes, 10);
    assert_eq!(a.total_work, 120);
    assert_eq!(a.total_slack, 10);
}

#[test]
fn slack_marker_without_space_and_single_star() {
    let tl = Timelog::new_from_string(
        "2022-06-10 07:00: arrived\n2022-06-10 07:05: **tea\n2022-06-10 07:20: *tea\n",
    )
    .unwrap();
    let a = Activities::new_from_entries(tl.get_all());
    assert_eq!(a.total_slack, 5);
    assert_eq!(a.total_work, 15);
}

#[test]
fn report_of_long_durations() {
    let a = Activities {
        activities: vec![Activity::new("x".to_string(), 125 * 60 + 7)],
        total_work: 125 * 60 + 7,
        total_slack: 0,
    };
    assert_eq!(
        a.to_text(),
        "125 h  7 min: x\n-------\nTotal work done: 125 h 7 min\nTotal slacking: 0 h 0 min\n"
    );
}
