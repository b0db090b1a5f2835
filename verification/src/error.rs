//! The library's error type.

use vstd::prelude::*;

verus! {

/// Every failure the library reports.
#[derive(Debug, Clone, PartialEq, Eq)]
pub enum JettiError {
    /// Filesystem I/O failed (read, write, remove, create directory, walk).
    Io { action: String, path: String, reason: String },
    /// A repository specifier could not be parsed.
    InvalidRepo(String),
    /// A subprocess (git, the editor) failed to launch or exited non-zero.
    Subprocess(String),
    /// An environment precondition is not met (git missing, no editor set).
    Precondition(String),
    /// The worker pool could not be created.
    ThreadPool(String),
}

/// The text of an error, as shown to the user.
pub open spec fn error_text(e: JettiError) -> Seq<char> {
    match e {
        JettiError::Io { action, path, reason } =>
            "failed to "@ + action@ + " "@ + path@ + ": "@ + reason@,
        JettiError::InvalidRepo(m) => m@,
        JettiError::Subprocess(m) => m@,
        JettiError::Precondition(m) => m@,
        JettiError::ThreadPool(m) => "failed to create thread pool: "@ + m@,
    }
}

impl JettiError {
    /// The message shown to the user for this error.
    pub fn message(&self) -> (m: String)
        ensures
            m@ == error_text(*self),
    {
        match self {
            JettiError::Io { action, path, reason } => {
                let mut m = String::from_str("failed to ");
                m.append(action.as_str());
                m.append(" ");
                m.append(path.as_str());
                m.append(": ");
                m.append(reason.as_str());
                m
            },
            JettiError::InvalidRepo(s) => s.clone(),
            JettiError::Subprocess(s) => s.clone(),
            JettiError::Precondition(s) => s.clone(),
            JettiError::ThreadPool(s) => {
                let mut m = String::from_str("failed to create thread pool: ");
                m.append(s.as_str());
                m
            },
        }
    }
}

} // verus!
