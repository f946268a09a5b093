//! The error type of the library.

use vstd::prelude::*;

verus! {

/// How severe a log record is.
#[derive(Clone, Copy, Debug, PartialEq, Eq, Structural)]
pub enum Severity {
    Error,
    Debug,
}

/// A line to be written to the log, with its severity.
#[derive(Debug, PartialEq)]
pub struct LogRecord {
    pub severity: Severity,
    pub text: String,
}

impl View for LogRecord {
    type V = (Severity, Seq<char>);

    open spec fn view(&self) -> (Severity, Seq<char>) {
        (self.severity, self.text@)
    }
}

/// The views of a list of log records.
pub open spec fn records_view(s: Seq<LogRecord>) -> Seq<(Severity, Seq<char>)> {
    s.map_values(|r: LogRecord| r@)
}

/// Shortcut result type for convenience.
pub type Result<T> = core::result::Result<T, Pipeline>;

/// A pipeline error: a short message for users and an optional diagnostic for debugging.
#[derive(Debug)]
pub struct Pipeline {
    error_string: String,
    debug_string: Option<String>,
}

impl Pipeline {
    /// The short message.
    pub closed spec fn message(&self) -> Seq<char> {
        self.error_string@
    }

    /// The diagnostic, if any.
    pub closed spec fn diagnostic(&self) -> Option<Seq<char>> {
        match self.debug_string {
            Some(d) => Some(d@),
            None => None,
        }
    }

    /// What `print_verbose` writes: the message at error severity, then the diagnostic, if
    /// any, at debug severity.
    pub open spec fn records(&self) -> Seq<(Severity, Seq<char>)> {
        match self.diagnostic() {
            Some(d) => seq![(Severity::Error, self.message()), (Severity::Debug, d)],
            None => seq![(Severity::Error, self.message())],
        }
    }

    /// Constructs a pipeline error with no diagnostic.
    #[must_use]
    pub fn new(error_string: &str) -> (r: Self)
        ensures
            r.message() == error_string@,
            r.diagnostic() is None,
    {
        Self { error_string: error_string.to_owned(), debug_string: None }
    }

    /// Constructs a pipeline error with a diagnostic.
    #[must_use]
    pub fn new_debug(error_string: &str, debug_string: &str) -> (r: Self)
        ensures
            r.message() == error_string@,
            r.diagnostic() == Some(debug_string@),
    {
        Self { error_string: error_string.to_owned(), debug_string: Some(debug_string.to_owned()) }
    }

    /// The short message, as shown to users.
    pub fn message_str(&self) -> (r: &str)
        ensures
            r@ == self.message(),
    {
        self.error_string.as_str()
    }

    /// The diagnostic, if any.
    pub fn diagnostic_str(&self) -> (r: Option<&str>)
        ensures
            match r {
                Some(d) => self.diagnostic() == Some(d@),
                None => self.diagnostic() is None,
            },
    {
        match &self.debug_string {
            Some(d) => Some(d.as_str()),
            None => None,
        }
    }

    /// Writes the error's internals to `log`: the message at error severity, then the
    /// diagnostic, if any, at debug severity.
    pub fn print_verbose(&self, log: &mut Vec<LogRecord>)
        ensures
            records_view(final(log)@) == records_view(old(log)@) + self.records(),
    {
        let ghost start = log@;
        log.push(LogRecord { severity: Severity::Error, text: self.error_string.clone() });
        if let Some(dbg_str) = &self.debug_string {
            log.push(LogRecord { severity: Severity::Debug, text: dbg_str.clone() });
        }
        assert(records_view(log@) =~= records_view(start) + self.records());
    }
}

} // verus!
