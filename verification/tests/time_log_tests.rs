use trackie::calendar::{Date, Timestamp};
use trackie::time_log::{DayLog, LogEntry, TimeLog};

fn test_date() -> Date {
    Date { year: 2000, month: 1, day: 1 }
}

fn at(day: u8, minute: u16) -> Timestamp {
    Timestamp { date: Date { year: 2000, month: 1, day }, minute, offset_min: 0 }
}

fn create_log(day: u8, dur: u16, name: &str) -> LogEntry {
    LogEntry { project_name: name.to_string(), start: at(day, 240), end: at(day, 240 + dur) }
}

fn create_tl_with_two_dates() -> TimeLog {
    TimeLog::new_testing_only(vec![
        DayLog { date: Date { year: 2000, month: 1, day: 1 }, entries: vec![create_log(1, 30, "Target")] },
        DayLog { date: Date { year: 2000, month: 1, day: 2 }, entries: vec![create_log(2, 40, "Target")] },
    ])
}

#[test]
fn start_worklog_fresh() {
    let mut l = TimeLog::new();
    let result = l.start_log("ABC", at(1, 240));

    assert!(result.is_none());
}

#[test]
fn start_worklog_overwrite() {
    let mut l = TimeLog::new();
    l.start_log("ABC", at(1, 240));

    let result = l.start_log("DEF", at(1, 250));

    assert!(result.is_some());
}

#[test]
fn stop_nonexiting_workload() {
    let mut l = TimeLog::new();
    let result = l.stop_pending(at(1, 240));

    assert!(result.is_err());
}

#[test]
fn filter_items_for_day() {
    let lg = create_tl_with_two_dates();

    let result = lg.for_day(&test_date());

    assert_eq!(result.len(), 1);
    assert_eq!(&result.get(0).unwrap().project_name, "Target");
}

#[test]
fn filter_items_for_day_empty_log() {
    let lg = TimeLog::new();

    let result = lg.for_day(&test_date());

    assert_eq!(result.len(), 0);
}

#[test]
fn test_serialization_empty() {
    let l = TimeLog::new();
    let result = l.to_json();
    assert!(result.contains("{}"));

    let deserialized: TimeLog = TimeLog::from_json(result.as_str()).unwrap();

    assert!(deserialized.pending.is_none());
    assert_eq!(deserialized.days.len(), 0);
}

#[test]
fn auto_close_files_exactly_one_entry() {
    // starting while tracking closes the running session and warns about it
    let mut l = TimeLog::new();
    l.start_log("Foo", at(1, 240));
    let warn = l.start_log("Bar", at(1, 270));

    let warn_text = warn.expect("a warning is owed");
    assert!(warn_text.contains("Foo"));
    assert_eq!(warn_text, "Stopping time-tracking for Foo");
    assert_eq!(l.pending.as_ref().unwrap().project_name, "Bar");
    let closed = l.for_day(&test_date());
    assert_eq!(closed.len(), 1);
    assert_eq!(closed[0].project_name, "Foo");
    assert_eq!(closed[0].to_duration().minutes, 30);
}

#[test]
fn stop_files_under_end_date_with_duration() {
    // a session started before midnight and stopped after it lands on the
    // day it ended
    let mut l = TimeLog::new();
    l.start_log("Night", at(1, 1430));
    let stopped = l.stop_pending(at(2, 10)).unwrap();

    assert_eq!(stopped.project_name, "Night");
    assert!(l.pending.is_none());
    assert_eq!(l.for_day(&Date { year: 2000, month: 1, day: 1 }).len(), 0);
    let second = l.for_day(&Date { year: 2000, month: 1, day: 2 });
    assert_eq!(second.len(), 1);
    assert_eq!(second[0].to_duration().minutes, 20);
}

#[test]
fn stop_after_thirty_minutes_closes_one_entry() {
    let mut l = TimeLog::new();
    l.start_log("Foo", at(1, 240));
    let stopped = l.stop_pending(at(1, 270)).unwrap();

    assert_eq!(stopped.project_name, "Foo");
    assert_eq!(stopped.get_pending_duration(&at(1, 270)).minutes, 30);
    assert!(l.pending.is_none());
    let closed = l.for_day(&test_date());
    assert_eq!(closed.len(), 1);
    assert_eq!(closed[0].project_name, "Foo");
    assert_eq!(closed[0].to_duration().minutes, 30);
}

#[test]
fn get_latest_entry_finds_newest_day() {
    let lg = create_tl_with_two_dates();
    let latest = lg.get_latest_entry().unwrap();
    assert_eq!(latest.end.date, Date { year: 2000, month: 1, day: 2 });

    assert!(TimeLog::new().get_latest_entry().is_none());
}
