//! One line of a log.

use vstd::prelude::*;

verus! {

/// A log line in memory.
///
/// In JSON it is written `{"t":1,"s":"svc","l":"E","m":"msg"}`.
#[derive(Debug, PartialEq, Eq)]
pub struct LogLine {
    /// Unix time in milliseconds.
    pub ts: u64,
    /// Name of the service.
    pub service: String,
    /// Level, one of `D`, `I`, `W`, `E`.
    pub level: String,
    /// The message.
    pub message: String,
}

/// What a log line says.
pub struct LogView {
    pub ts: u64,
    pub service: Seq<char>,
    pub level: Seq<char>,
    pub message: Seq<char>,
}

impl View for LogLine {
    type V = LogView;

    open spec fn view(&self) -> LogView {
        LogView {
            ts: self.ts,
            service: self.service@,
            level: self.level@,
            message: self.message@,
        }
    }
}

impl Clone for LogLine {
    fn clone(&self) -> (r: Self)
        ensures
            r == *self,
    {
        LogLine {
            ts: self.ts,
            service: self.service.clone(),
            level: self.level.clone(),
            message: self.message.clone(),
        }
    }
}

/// What a list of log lines says.
pub open spec fn log_views(logs: Seq<LogLine>) -> Seq<LogView> {
    Seq::new(logs.len(), |i: int| logs[i]@)
}

} // verus!
