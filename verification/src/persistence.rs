//! The storage port: the library never touches a file itself. A caller
//! implements `FileHandler`; the library turns what was read into a starting
//! log and turns the log back into the text to be written.

use vstd::prelude::*;

use crate::codec::{parse_log, view_of};
use crate::time_log::TimeLog;
use crate::TrackieError;

verus! {

/// The storage collaborator: reads the whole stored snapshot text if one
/// exists, and writes one back. Implementations live outside the library and
/// carry no contract.
pub trait FileHandler {
    fn read_file(&self) -> Result<Option<String>, TrackieError>;

    fn write_file(&mut self, content: &str) -> Result<(), TrackieError>;
}

/// The marker for the file-system-backed storage; its `FileHandler` lives
/// with the code that does the reading and writing, outside the library.
pub struct FsFileHandler {}

impl FsFileHandler {
    pub fn new() -> FsFileHandler {
        FsFileHandler {  }
    }
}

/// The starting log for what storage handed back: an empty log when nothing
/// was stored, otherwise exactly the parsed snapshot, or the parse failure.
pub fn log_from_stored(stored: Option<String>) -> (r: Result<TimeLog, TrackieError>)
    ensures
        match stored {
            None => r matches Ok(log) && log.wf() && log.pending is None && log.days_seq()
                == Seq::<crate::time_log::DayLog>::empty(),
            Some(content) => match r {
                Ok(log) => parse_log(content@) == Some(view_of(log)) && log.wf(),
                Err(e) => parse_log(content@) is None && e.is_error_view(),
            },
        },
{
    match stored {
        None => Ok(TimeLog::new()),
        Some(content) => TimeLog::from_json(content.as_str()),
    }
}

/// Loads the stored log through the handler, or starts fresh when nothing is
/// stored yet. Whatever the handler did, a log handed back is well formed.
pub fn load_or_create_log<F: FileHandler>(handler: &F) -> (r: Result<TimeLog, TrackieError>)
    ensures
        r matches Ok(log) ==> log.wf(),
{
    match handler.read_file() {
        Err(e) => Err(e),
        Ok(stored) => log_from_stored(stored),
    }
}

/// Writes the log's snapshot text through the handler.
pub fn save_log<F: FileHandler>(handler: &mut F, log: &TimeLog) -> (r: Result<(), TrackieError>)
    requires
        log.wf(),
{
    let content = log.to_json();
    handler.write_file(content.as_str())
}

} // verus!
