use trackie::calendar::{Date, Duration, Timestamp};
use trackie::report_creator::ReportCreator;
use trackie::time_log::{DayLog, LogEntry, TimeLog};

fn test_date() -> Date {
    Date { year: 2000, month: 1, day: 1 }
}

fn at(day: u8, minute: u16) -> Timestamp {
    Timestamp { date: Date { year: 2000, month: 1, day }, minute, offset_min: 0 }
}

fn create_log(day: u8, dur: u16, name: &str) -> LogEntry {
    LogEntry { project_name: name.to_string(), start: at(day, 240), end: at(day, 240 + dur) }
}

fn tl_multiple_days(today: Date, tomorrow: Date) -> TimeLog {
    TimeLog::new_testing_only(vec![
        DayLog { date: today, entries: vec![create_log(1, 30, "Foo"), create_log(1, 10, "Bar")] },
        DayLog { date: tomorrow, entries: vec![create_log(2, 10, "Bar")] },
    ])
}

#[test]
fn test_empty_log() {
    let lg = TimeLog::new();
    let rc = ReportCreator::new(&lg);
    let today = test_date();
    let rep = rc.report_day(today);

    assert_eq!(rep.total_duration, Duration { minutes: 0 });
    assert!(rep.projects.is_empty());
}

#[test]
fn test_sum_over_multiple_logs_for_same_project() {
    let today = test_date();
    let tl = TimeLog::new_testing_only(vec![DayLog {
        date: today,
        entries: vec![create_log(1, 30, "Foo"), create_log(1, 10, "Foo")],
    }]);

    let rc = ReportCreator::new(&tl);
    let report = rc.report_day(today);

    assert_eq!(report.total_duration, Duration { minutes: 40 });
    assert_eq!(report.projects.len(), 1);
}

#[test]
fn test_report_days_number() {
    let today = test_date();
    let tl = TimeLog::new_testing_only(vec![DayLog {
        date: today,
        entries: vec![create_log(1, 30, "Foo")],
    }]);

    let rc = ReportCreator::new(&tl);

    let empty_rep = rc.report_days(today, 0, true);
    assert_eq!(empty_rep.days.len(), 0);

    let single_day_rep = rc.report_days(today, 1, true);
    assert_eq!(single_day_rep.days.len(), 1);
}

#[test]
fn test_sum_over_multiple_logs_for_different_project() {
    let today = test_date();
    let tl = TimeLog::new_testing_only(vec![DayLog {
        date: today,
        entries: vec![create_log(1, 30, "Foo"), create_log(1, 10, "Bar")],
    }]);

    let rc = ReportCreator::new(&tl);
    let report = rc.report_day(today);

    assert_eq!(report.total_duration, Duration { minutes: 40 });
    assert_eq!(report.projects.len(), 2);
}

#[test]
fn test_sum_over_multiple_logs_for_different_days() {
    let today = test_date();
    let tomorrow = Date { year: 2000, month: 1, day: 2 };
    let tl = tl_multiple_days(today, tomorrow);

    let rc = ReportCreator::new(&tl);
    let report = rc.report_days(tomorrow, 2, true);

    assert_eq!(report.total_duration, Duration { minutes: 50 });
    assert_eq!(report.days.len(), 2);
}

#[test]
fn test_display() {
    let today = test_date();
    let tomorrow = Date { year: 2000, month: 1, day: 2 };
    let tl = tl_multiple_days(today, tomorrow);
    let rc = ReportCreator::new(&tl);

    let report = rc.report_days(tomorrow, 2, true);
    let r_string = report.to_pretty_text();

    assert!(r_string.contains("Foo"));
    assert!(r_string.contains("Bar"));
    assert!(r_string.contains("[00h 30m]"));
    assert!(r_string.contains("[00h 10m]"));
}

#[test]
fn projects_sorted_by_name() {
    let today = test_date();
    let tl = TimeLog::new_testing_only(vec![DayLog {
        date: today,
        entries: vec![create_log(1, 30, "Zeta"), create_log(1, 10, "Alpha"), create_log(1, 5, "Mid")],
    }]);

    let rc = ReportCreator::new(&tl);
    let report = rc.report_day(today);

    let names: Vec<&str> = report.projects.iter().map(|p| p.project.as_str()).collect();
    assert_eq!(names, vec!["Alpha", "Mid", "Zeta"]);
    assert_eq!(report.total_duration.minutes, 45);
}

#[test]
fn range_over_log_with_one_filled_day() {
    // two requested days with entries only on the later one: with empty days
    // included, the earlier report is empty and the total is the filled day's
    let today = test_date();
    let tl = TimeLog::new_testing_only(vec![DayLog {
        date: today,
        entries: vec![create_log(1, 30, "Foo")],
    }]);
    let rc = ReportCreator::new(&tl);

    let report = rc.report_days(today, 2, true);
    assert_eq!(report.days.len(), 2);
    assert_eq!(report.days[0].date, Date { year: 1999, month: 12, day: 31 });
    assert!(report.days[0].projects.is_empty());
    assert_eq!(report.days[0].total_duration.minutes, 0);
    assert_eq!(report.days[1].total_duration.minutes, 30);
    assert_eq!(report.total_duration.minutes, 30);

    let without_empty = rc.report_days(today, 2, false);
    assert_eq!(without_empty.days.len(), 1);
    assert_eq!(without_empty.total_duration.minutes, 30);
}

#[test]
fn zero_days_is_empty_regardless() {
    let today = test_date();
    let tl = TimeLog::new_testing_only(vec![DayLog {
        date: today,
        entries: vec![create_log(1, 30, "Foo")],
    }]);
    let rc = ReportCreator::new(&tl);

    let with_empty = rc.report_days(today, 0, true);
    assert_eq!(with_empty.days.len(), 0);
    assert_eq!(with_empty.total_duration.minutes, 0);

    let without_empty = rc.report_days(today, 0, false);
    assert_eq!(without_empty.days.len(), 0);
    assert_eq!(without_empty.total_duration.minutes, 0);
}

#[test]
fn report_json_exact_text() {
    let today = test_date();
    let tl = TimeLog::new_testing_only(vec![DayLog {
        date: today,
        entries: vec![create_log(1, 30, "Foo")],
    }]);
    let rc = ReportCreator::new(&tl);

    let report = rc.report_days(today, 1, true);
    assert_eq!(
        report.to_json(),
        "{\"range\":{\"start\":\"2000-01-01\",\"end\":\"2000-01-01\"},\"total\":30,\
         \"days\":[{\"date\":\"2000-01-01\",\"total\":30,\"projects\":\
         [{\"project\":\"Foo\",\"duration\":30}]}]}"
    );
}

#[test]
fn report_text_exact_lines() {
    let today = test_date();
    let tl = TimeLog::new_testing_only(vec![DayLog {
        date: today,
        entries: vec![create_log(1, 125, "Foo")],
    }]);
    let rc = ReportCreator::new(&tl);

    let report = rc.report_days(today, 1, true);
    let text = report.to_pretty_text();
    let expected = format!(
        "\u{276f} Sat. 2000-01-01{:<25}[02h 05m]\n    \u{276f} {:<35} [02h 05m]\n",
        "", "Foo"
    );
    assert_eq!(text, expected);
}
