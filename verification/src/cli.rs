//! The commands a caller can ask of the library, as plain values. Parsing
//! command-line text into these lives outside the library.

use vstd::prelude::*;

verus! {

/// The default status line; `%p` is the project, `%d` the start date, `%t`
/// the start time, `%D` the elapsed time.
pub const DEFAULT_STATUS_FORMAT: &'static str = "Tracking %p since %d (%t) [%D]";

/// What status says when no session is pending.
pub const DEFAULT_EMPTY_STATUS_MSG: &'static str = "Currently tracking no project.";

/// The environment variable that overrides where the snapshot is stored; only
/// the storage layer outside the library reads it.
pub const ENV_TRACKIE_CONFIG: &'static str = "TRACKIE_CONFIG";

pub struct Opts {
    pub sub_cmd: Subcommand,
}

pub enum Subcommand {
    /// Starts the time tracking for a project.
    Start(TimingCommand),
    /// Stops the time tracking for a project.
    Stop(EmptyCommand),
    /// Creates a report for the logged times.
    Report(ReportCommand),
    /// Shows information about the currently tracked work log, if present.
    Status(StatusCommand),
    /// Resumes time tracking for the last tracked project.
    Resume(EmptyCommand),
}

pub struct StatusCommand {
    /// A format string describing the output of the command.
    pub format: Option<String>,
    /// The message that gets printed to the console if no time is currently
    /// tracked.
    pub fallback: Option<String>,
}

pub struct EmptyCommand {}

pub struct TimingCommand {
    /// The name of the project.
    pub project_name: String,
}

pub struct ReportCommand {
    /// The amount of days to include in the report.
    pub days: u32,
    /// Includes days without logged work in the report.
    pub include_empty_days: bool,
    /// Dump the report in its structured form.
    pub json: bool,
}

} // verus!
