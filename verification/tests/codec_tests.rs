use trackie::calendar::{Date, Duration, Timestamp};
use trackie::pretty_string::PrettyString;
use trackie::time_log::{DayLog, LogEntry, TimeLog};

fn at(day: u8, minute: u16, offset_min: i16) -> Timestamp {
    Timestamp { date: Date { year: 2000, month: 1, day }, minute, offset_min }
}

#[test]
fn format_duration_pads_hours_and_minutes() {
    assert_eq!(Duration { minutes: 125 }.to_pretty_string(), "02h 05m");
    assert_eq!(Duration { minutes: 0 }.to_pretty_string(), "00h 00m");
    assert_eq!(Duration { minutes: 59 }.to_pretty_string(), "00h 59m");
    assert_eq!(Duration { minutes: 6000 }.to_pretty_string(), "100h 00m");
}

#[test]
fn snapshot_exact_text() {
    let mut l = TimeLog::new();
    l.start_log("Foo", at(1, 240, 60));
    assert_eq!(
        l.to_json(),
        "{\"pending\":{\"project_name\":\"Foo\",\"start\":\"2000-01-01T04:00+01:00\"},\
         \"entries\":{}}"
    );
}

#[test]
fn snapshot_round_trip_full_log() {
    let eve = Date { year: 1999, month: 12, day: 31 };
    let mut l = TimeLog::new_testing_only(vec![
        DayLog {
            date: eve,
            entries: vec![LogEntry {
                project_name: "quote \" and backslash \\".to_string(),
                start: Timestamp { date: eve, minute: 0, offset_min: -90 },
                end: Timestamp { date: eve, minute: 30, offset_min: -90 },
            }],
        },
        DayLog {
            date: Date { year: 2000, month: 1, day: 1 },
            entries: vec![
                LogEntry { project_name: "Foo".to_string(), start: at(1, 240, 0), end: at(1, 270, 0) },
                LogEntry { project_name: "Bar".to_string(), start: at(1, 280, 0), end: at(1, 290, 0) },
            ],
        },
    ]);
    l.start_log("Pending one", at(1, 300, 0));

    let text = l.to_json();
    let back = TimeLog::from_json(text.as_str()).unwrap();

    assert_eq!(back.pending.as_ref().unwrap().project_name, "Pending one");
    assert_eq!(back.pending.as_ref().unwrap().start, at(1, 300, 0));
    assert_eq!(back.days.len(), 2);
    assert_eq!(back.days[0].date, Date { year: 1999, month: 12, day: 31 });
    assert_eq!(back.days[0].entries[0].project_name, "quote \" and backslash \\");
    assert_eq!(back.days[0].entries[0].start.offset_min, -90);
    assert_eq!(back.days[1].entries.len(), 2);
    assert_eq!(back.days[1].entries[0].project_name, "Foo");
    assert_eq!(back.days[1].entries[1].project_name, "Bar");
    assert_eq!(back.days[1].entries[1].start, at(1, 280, 0));
    // writing the read-back log gives the identical text again
    assert_eq!(back.to_json(), text);
}

#[test]
fn malformed_snapshot_is_refused() {
    assert!(TimeLog::from_json("").is_err());
    assert!(TimeLog::from_json("{}").is_err());
    assert!(TimeLog::from_json("{\"pending\":null,\"entries\":{}} ").is_err());
    assert!(TimeLog::from_json("{\"pending\":null,\"entries\":{\"2000-02-30\":[]}}").is_err());
    let err = TimeLog::from_json("not a snapshot").unwrap_err();
    assert!(err.print_as_error);
    assert_eq!(err.message(), "Malformed time-log snapshot.");
}

#[test]
fn unsorted_days_are_refused() {
    let good = "{\"pending\":null,\"entries\":{\
        \"2000-01-01\":[{\"project_name\":\"A\",\"start\":\"2000-01-01T04:00+00:00\",\"end\":\"2000-01-01T04:10+00:00\"}],\
        \"2000-01-02\":[{\"project_name\":\"A\",\"start\":\"2000-01-02T04:00+00:00\",\"end\":\"2000-01-02T04:10+00:00\"}]}}";
    assert!(TimeLog::from_json(good).is_ok());

    let swapped = "{\"pending\":null,\"entries\":{\
        \"2000-01-02\":[{\"project_name\":\"A\",\"start\":\"2000-01-02T04:00+00:00\",\"end\":\"2000-01-02T04:10+00:00\"}],\
        \"2000-01-01\":[{\"project_name\":\"A\",\"start\":\"2000-01-01T04:00+00:00\",\"end\":\"2000-01-01T04:10+00:00\"}]}}";
    assert!(TimeLog::from_json(swapped).is_err());
}

#[test]
fn calendar_walks_through_leap_day() {
    let d = Date { year: 2000, month: 2, day: 28 };
    let e = d.succ();
    assert_eq!(e, Date { year: 2000, month: 2, day: 29 });
    assert_eq!(e.succ(), Date { year: 2000, month: 3, day: 1 });
    assert_eq!(Date { year: 1999, month: 12, day: 31 }.succ(), Date { year: 2000, month: 1, day: 1 });
    assert_eq!(Date { year: 2000, month: 3, day: 1 }.back_days(2), Date { year: 2000, month: 2, day: 28 });
    assert_eq!(Date { year: 1900, month: 2, day: 28 }.succ(), Date { year: 1900, month: 3, day: 1 });
}
