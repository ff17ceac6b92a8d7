use chrono::{Datelike, NaiveDate};
use omnischedule::calendar::CalendarDate;
use omnischedule::cli::{CliArgs, DateError};
use omnischedule::project::{Resource, ResourceId, Solution, Task, TaskId};

fn day(y: i32, m: u32, d: u32) -> CalendarDate {
    CalendarDate { days_from_ce: NaiveDate::from_ymd_opt(y, m, d).unwrap().num_days_from_ce() }
}

#[test]
fn start_date_defaults_to_today() {
    let today = day(2023, 5, 17);
    let args = CliArgs::default();
    assert_eq!(args.search_depth, 5);
    assert_eq!(args.parse_start_date(today), Ok(today));
    let args = CliArgs { start_date: Some("today".into()), ..CliArgs::default() };
    assert_eq!(args.parse_start_date(today), Ok(today));
}

#[test]
fn start_date_is_parsed() {
    let today = day(2023, 5, 17);
    let args = CliArgs { start_date: Some("2024-01-02".into()), ..CliArgs::default() };
    assert_eq!(args.parse_start_date(today), Ok(day(2024, 1, 2)));
    let args = CliArgs { start_date: Some("2024-13-02".into()), ..CliArgs::default() };
    assert_eq!(args.parse_start_date(today), Err(DateError::InvalidDate));
    let args = CliArgs { start_date: Some("Today".into()), ..CliArgs::default() };
    assert_eq!(args.parse_start_date(today), Err(DateError::InvalidDate));
}

#[test]
fn dates_move_and_print() {
    let d = day(2024, 2, 27);
    assert_eq!(d.after_days(3).unwrap().to_text().unwrap(), "2024-03-01");
    assert_eq!(d.to_text().unwrap(), "2024-02-27");
    assert_eq!(CalendarDate::parse_iso("2024-02-27"), Some(d));
    assert_eq!(CalendarDate { days_from_ce: i32::MAX }.after_days(1), None);
    assert_eq!(CalendarDate { days_from_ce: i32::MAX }.to_text(), None);
}

#[test]
fn csv_table_lists_entries_with_dates() {
    let mut solution = Solution::new(&[
        Resource { id: ResourceId(0), name: "foo".into() },
        Resource { id: ResourceId(1), name: "bar".into() },
    ]);
    let t = |id: usize, days: usize, name: &str| Task {
        id: TaskId(id),
        days,
        name: name.into(),
        resource_options: vec![],
        dependencies: vec![],
    };
    solution.task_queues[0].push(&t(0, 3, "first"));
    solution.task_queues[1].push(&t(1, 1, "second"));
    solution.task_queues[0].push(&t(2, 2, "third"));
    let table = solution.csv_table(day(2024, 12, 30)).unwrap();
    assert_eq!(table.len(), 4);
    assert_eq!(table[0], vec!["Resource", "Task", "Start", "End"]);
    assert_eq!(table[1], vec!["foo", "first", "2024-12-30", "2025-01-02"]);
    assert_eq!(table[2], vec!["foo", "third", "2025-01-02", "2025-01-04"]);
    assert_eq!(table[3], vec!["bar", "second", "2024-12-30", "2024-12-31"]);
    assert_eq!(solution.csv_table(CalendarDate { days_from_ce: i32::MAX - 1 }), None);
}
