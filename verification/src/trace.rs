//! Backtraces for errors.
//!
//! Whether a backtrace is captured when an error is made is one switch for
//! the whole process. The switch lives with the caller; the library is told
//! its value.

use vstd::prelude::*;

verus! {

/// `backtrace::Backtrace`, a captured call stack. Nothing inside it is read
/// here.
#[verifier::external_type_specification]
#[verifier::external_body]
pub struct ExBacktrace(::backtrace::Backtrace);

/// `backtrace::Backtrace::new`: captures the call stack at the call site and
/// resolves its symbols. Nothing is claimed of what was captured.
#[verifier::external_body]
fn capture() -> ::backtrace::Backtrace {
    ::backtrace::Backtrace::new()
}

/// A backtrace that is there only if backtraces were enabled when it was
/// made.
#[derive(Debug)]
pub struct StackTrace(pub Option<::backtrace::Backtrace>);

impl StackTrace {
    /// Captures a backtrace if `enabled`, and none otherwise.
    pub fn generate(enabled: bool) -> (r: StackTrace)
        ensures
            r.0 is Some <==> enabled,
    {
        if enabled {
            StackTrace(Some(capture()))
        } else {
            StackTrace(None)
        }
    }

    /// The captured backtrace, if there is one.
    pub fn as_backtrace(&self) -> (r: Option<&::backtrace::Backtrace>)
        ensures
            r is Some <==> self.0 is Some,
            r matches Some(inner) ==> self.0 == Some(*inner),
    {
        self.0.as_ref()
    }
}

} // verus!
