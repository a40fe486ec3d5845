use trackie::calendar::{Date, Timestamp};
use trackie::cli::{
    EmptyCommand, Opts, ReportCommand, StatusCommand, Subcommand, TimingCommand,
    DEFAULT_EMPTY_STATUS_MSG,
};
use trackie::run_app;
use trackie::time_log::TimeLog;
use trackie::RunOutput;
use trackie::TrackieError;

struct TestStore {
    content: Option<String>,
}

impl Default for TestStore {
    fn default() -> Self {
        Self { content: None }
    }
}

fn at(minute: u16) -> Timestamp {
    Timestamp { date: Date { year: 2000, month: 1, day: 1 }, minute, offset_min: 0 }
}

/// One command against the stored snapshot, persisting afterwards, the way
/// the program wrapper drives the library.
fn run(store: &mut TestStore, sub_cmd: Subcommand, now: Timestamp) -> Result<RunOutput, TrackieError> {
    let log = match &store.content {
        None => TimeLog::new(),
        Some(c) => TimeLog::from_json(c.as_str())?,
    };
    let out = run_app(Opts { sub_cmd }, log, now)?;
    if out.modified {
        store.content = Some(out.log.to_json());
    }
    Ok(out)
}

#[test]
fn status_on_empty_fallback() {
    let mut handler = TestStore::default();
    let e = run(
        &mut handler,
        Subcommand::Status(StatusCommand { format: None, fallback: Some("Foo".to_string()) }),
        at(240),
    );
    assert!(e.is_err());
    assert_eq!(e.unwrap_err().message(), "Foo");
}

#[test]
fn status_on_empty_no_fallback() {
    let mut handler = TestStore::default();
    let e = run(
        &mut handler,
        Subcommand::Status(StatusCommand { format: None, fallback: None }),
        at(240),
    );
    assert!(e.is_err());
    assert_eq!(e.unwrap_err().message(), DEFAULT_EMPTY_STATUS_MSG);
}

#[test]
fn start_tracking() -> Result<(), TrackieError> {
    let mut handler = TestStore::default();
    run(
        &mut handler,
        Subcommand::Start(TimingCommand { project_name: "Foo".to_string() }),
        at(240),
    )?;

    let content = handler.content.unwrap();
    assert!(content.contains("Foo"));
    Ok(())
}

#[test]
fn resume_after_stop() -> Result<(), TrackieError> {
    let mut handler = TestStore::default();

    let x = run(&mut handler, Subcommand::Resume(EmptyCommand {}), at(240));
    assert!(x.is_err());

    run(
        &mut handler,
        Subcommand::Start(TimingCommand { project_name: "Foo".to_string() }),
        at(250),
    )?;
    run(&mut handler, Subcommand::Stop(EmptyCommand {}), at(260))?;

    let status = run(
        &mut handler,
        Subcommand::Status(StatusCommand { fallback: None, format: None }),
        at(270),
    );
    assert!(status.is_err());

    run(&mut handler, Subcommand::Resume(EmptyCommand {}), at(280))?;

    let status = run(
        &mut handler,
        Subcommand::Status(StatusCommand { fallback: None, format: None }),
        at(290),
    );
    assert!(status.is_ok());

    Ok(())
}

#[test]
fn status_after_start_tracking() -> Result<(), TrackieError> {
    let mut handler = TestStore::default();
    run(
        &mut handler,
        Subcommand::Start(TimingCommand { project_name: "Foo".to_string() }),
        at(240),
    )?;

    run(
        &mut handler,
        Subcommand::Status(StatusCommand { format: None, fallback: None }),
        at(250),
    )?;
    Ok(())
}

#[test]
fn stop_tracking() -> Result<(), TrackieError> {
    let mut handler = TestStore::default();
    run(
        &mut handler,
        Subcommand::Start(TimingCommand { project_name: "Foo".to_string() }),
        at(240),
    )?;

    run(&mut handler, Subcommand::Stop(EmptyCommand {}), at(250))?;

    let status = run(
        &mut handler,
        Subcommand::Status(StatusCommand { format: None, fallback: None }),
        at(260),
    );
    assert!(status.is_err());

    let second_stop = run(&mut handler, Subcommand::Stop(EmptyCommand {}), at(270));
    assert!(second_stop.is_err());
    Ok(())
}

#[test]
fn status_format_tokens() {
    let mut handler = TestStore::default();
    run(
        &mut handler,
        Subcommand::Start(TimingCommand { project_name: "Foo".to_string() }),
        at(240),
    )
    .unwrap();

    let out = run(
        &mut handler,
        Subcommand::Status(StatusCommand {
            format: Some("%p from %d %t, %D so far".to_string()),
            fallback: None,
        }),
        at(365),
    )
    .unwrap();
    assert_eq!(out.lines.len(), 1);
    assert_eq!(out.lines[0], "Foo from 2000-01-01 04:00, 02h 05m so far");
}

#[test]
fn stop_reports_elapsed_time() {
    let mut handler = TestStore::default();
    run(
        &mut handler,
        Subcommand::Start(TimingCommand { project_name: "Foo".to_string() }),
        at(240),
    )
    .unwrap();

    let out = run(&mut handler, Subcommand::Stop(EmptyCommand {}), at(270)).unwrap();
    assert_eq!(out.lines, vec!["Tracked 00h 30m on project Foo".to_string()]);
}

#[test]
fn start_while_tracking_warns() {
    let mut handler = TestStore::default();
    run(
        &mut handler,
        Subcommand::Start(TimingCommand { project_name: "Foo".to_string() }),
        at(240),
    )
    .unwrap();

    let out = run(
        &mut handler,
        Subcommand::Start(TimingCommand { project_name: "Bar".to_string() }),
        at(250),
    )
    .unwrap();
    assert_eq!(out.lines.len(), 2);
    assert_eq!(out.lines[0], "WARN: Stopping time-tracking for Foo");
    assert_eq!(out.lines[1], "Tracking time for project Bar");
    assert_eq!(out.log.pending.as_ref().unwrap().project_name, "Bar");
}

#[test]
fn resume_while_tracking_fails() {
    let mut handler = TestStore::default();
    run(
        &mut handler,
        Subcommand::Start(TimingCommand { project_name: "Foo".to_string() }),
        at(240),
    )
    .unwrap();

    let e = run(&mut handler, Subcommand::Resume(EmptyCommand {}), at(250));
    assert!(e.is_err());
    let err = e.unwrap_err();
    assert!(err.print_as_error);
    assert_eq!(err.message(), "Already tracking time for project Foo");
}

#[test]
fn report_command_renders_both_views() {
    let mut handler = TestStore::default();
    run(
        &mut handler,
        Subcommand::Start(TimingCommand { project_name: "Foo".to_string() }),
        at(240),
    )
    .unwrap();
    run(&mut handler, Subcommand::Stop(EmptyCommand {}), at(270)).unwrap();

    let text = run(
        &mut handler,
        Subcommand::Report(ReportCommand { days: 1, include_empty_days: false, json: false }),
        at(280),
    )
    .unwrap();
    assert!(text.lines[0].contains("Foo"));
    assert!(text.lines[0].contains("[00h 30m]"));

    let json = run(
        &mut handler,
        Subcommand::Report(ReportCommand { days: 1, include_empty_days: false, json: true }),
        at(280),
    )
    .unwrap();
    assert!(json.lines[0].contains("\"total\":30"));
    assert!(json.lines[0].contains("\"project\":\"Foo\""));
}

#[test]
fn status_default_format() {
    let mut handler = TestStore::default();
    run(
        &mut handler,
        Subcommand::Start(TimingCommand { project_name: "Foo".to_string() }),
        at(240),
    )
    .unwrap();

    let out = run(
        &mut handler,
        Subcommand::Status(StatusCommand { format: None, fallback: None }),
        at(270),
    )
    .unwrap();
    assert_eq!(out.lines, vec!["Tracking Foo since 2000-01-01 (04:00) [00h 30m]".to_string()]);
}
