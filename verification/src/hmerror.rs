//! The error taxonomy of a run.
//!
//! * `DependencyUndefinedError`: a stated dependency has no object telling us how to satisfy it.
//! * `IncorrectPlatformError`: the dependency exists, but only for a platform other than ours.
//! * `CyclicalDependencyError`: the dependency graph cannot be linearized; the whole graph
//!   rides along for diagnosis.
//! * `SolutionError`: something went wrong in our script.
//! * `ConfigError`: something is wrong with how the configuration was written.
//! * `Other`: other.

use vstd::prelude::*;
use crate::config::OS;

verus! {

/// A failure of the run as a whole: one of our own kinds, an I/O failure
/// carried as its error text, or a free-form message.
#[derive(Debug, Clone)]
pub enum HMError {
    Io(String),
    Regular(ErrorKind),
    Other(String),
}

/// The kinds of failure this library itself detects.
#[derive(Debug, Clone)]
pub enum ErrorKind {
    DependencyUndefinedError { dependency: String },
    IncorrectPlatformError { dependency: String, platform: OS, target_platform: OS },
    CyclicalDependencyError { dependency_graph: String },
    SolutionError { solution: String },
    ConfigError { line_number: usize },
    Other,
}

impl ErrorKind {
    /// A short fixed description of the kind, for reporting.
    pub fn as_str(&self) -> (r: &'static str)
        ensures
            r@ == match self {
                ErrorKind::ConfigError { .. } => "configuration error"@,
                ErrorKind::SolutionError { .. } => "solution error"@,
                ErrorKind::DependencyUndefinedError { .. } => "dependency undefined"@,
                ErrorKind::IncorrectPlatformError { .. } => "incorrect platform for dependency"@,
                ErrorKind::CyclicalDependencyError { .. } => "cyclical dependency"@,
                ErrorKind::Other => "other error"@,
            },
    {
        match self {
            ErrorKind::ConfigError { .. } => "configuration error",
            ErrorKind::SolutionError { .. } => "solution error",
            ErrorKind::DependencyUndefinedError { .. } => "dependency undefined",
            ErrorKind::IncorrectPlatformError { .. } => "incorrect platform for dependency",
            ErrorKind::CyclicalDependencyError { .. } => "cyclical dependency",
            ErrorKind::Other => "other error",
        }
    }
}

/// A config-file complaint tied to a line, optionally wrapping the text of
/// an underlying I/O error.
#[derive(Debug, Clone)]
pub struct HomemakerError {
    pub line_number: usize,
    pub complaint: String,
    pub encapsulated_error: Option<String>,
}

impl HomemakerError {
    pub fn new(line_number: usize, complaint: String, encapsulated_error: Option<String>) -> (r:
        HomemakerError)
        ensures
            r.line_number == line_number,
            r.complaint == complaint,
            r.encapsulated_error == encapsulated_error,
    {
        HomemakerError { line_number, complaint, encapsulated_error }
    }
}

} // verus!
