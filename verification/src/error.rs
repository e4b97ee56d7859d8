//! The library's error type and how each error should be reported.

use vstd::prelude::*;
use vstd::string::StringExecFns;
use crate::permissions::Permission;

verus! {

/// Errors surfaced by the store and its callers.
///
/// `Corrupt` marks invariant violations discovered in stored data (never to be
/// masked as "not found"); `Codec` marks a failure of the outside compressor
/// or framer; `Full` marks an exhausted identifier space; `WithContext` wraps
/// another error with a human-readable note.
#[derive(Debug)]
pub enum Error {
    PermissionDenied(Permission),
    Corrupt(String),
    Codec(String),
    Full,
    WithContext(String, Box<Error>),
}

impl Error {
    pub(crate) fn corrupt(msg: &str) -> (r: Error)
        ensures
            r is Corrupt,
    {
        Error::Corrupt(String::from_str(msg))
    }

    pub(crate) fn codec(msg: &str) -> (r: Error)
        ensures
            r is Codec,
    {
        Error::Codec(String::from_str(msg))
    }

    /// How this error is logged and shown: permission refusals go to the user
    /// alone; everything else is logged and obfuscated for the user.
    pub fn log_behaviour(&self) -> (r: LogBehaviour)
        ensures
            r == (if self is PermissionDenied {
                LogBehaviour { log: false, obfuscate: false }
            } else {
                LogBehaviour { log: true, obfuscate: true }
            }),
    {
        match self {
            Error::PermissionDenied(_) => LogBehaviour::user_only(),
            _ => LogBehaviour::default(),
        }
    }
}

/// Whether an error is written to the log channel, and whether the message
/// shown to the user is replaced by a generic one.
#[derive(Debug, Clone, Copy, PartialEq, Eq, Structural)]
pub struct LogBehaviour {
    pub log: bool,
    pub obfuscate: bool,
}

impl LogBehaviour {
    pub fn new(log: bool, obfuscate: bool) -> (r: LogBehaviour)
        ensures
            r == (LogBehaviour { log, obfuscate }),
    {
        LogBehaviour { log, obfuscate }
    }

    pub fn user_only() -> (r: LogBehaviour)
        ensures
            r == (LogBehaviour { log: false, obfuscate: false }),
    {
        LogBehaviour { log: false, obfuscate: false }
    }

    pub fn default() -> (r: LogBehaviour)
        ensures
            r == (LogBehaviour { log: true, obfuscate: true }),
    {
        LogBehaviour { log: true, obfuscate: true }
    }

    pub fn user_safe() -> (r: LogBehaviour)
        ensures
            r == (LogBehaviour { log: true, obfuscate: false }),
    {
        LogBehaviour { log: true, obfuscate: false }
    }
}

/// Attaching context to errors as they propagate.
pub trait ErrorContext<T>: Sized {
    fn context(self, context: &str) -> (r: Result<T, Error>);

    fn with_context<F: FnOnce() -> String>(self, context: F) -> (r: Result<T, Error>)
        requires
            context.requires(()),
    ;
}

impl<T> ErrorContext<T> for Result<T, Error> {
    /// Wraps the error case in `Error::WithContext`; the success case passes
    /// through unchanged.
    fn context(self, context: &str) -> (r: Result<T, Error>)
        ensures
            self matches Ok(v) ==> (r matches Ok(w) && w == v),
            self is Err ==> (r matches Err(e) && e is WithContext),
    {
        match self {
            Ok(v) => Ok(v),
            Err(e) => Err(Error::WithContext(String::from_str(context), Box::new(e))),
        }
    }

    /// Like `context`, but the note is only built when there is an error to
    /// attach it to.
    fn with_context<F: FnOnce() -> String>(self, context: F) -> (r: Result<T, Error>)
        ensures
            self matches Ok(v) ==> (r matches Ok(w) && w == v),
            self is Err ==> (r matches Err(e) && e is WithContext),
    {
        match self {
            Ok(v) => Ok(v),
            Err(e) => Err(Error::WithContext(context(), Box::new(e))),
        }
    }
}

} // verus!
