//! The error type returned by every operation of the library.

use vstd::prelude::*;
use vstd::string::StringExecFns;

verus! {

/// The system calls an operation can ask for.
#[derive(Clone, Copy, Debug, PartialEq, Eq, Structural)]
pub enum Syscall {
    /// Reading the path of a descriptor back from `/proc/self/fd`.
    Readback,
    /// `openat(2)`.
    Openat,
    /// `openat2(2)`.
    Openat2,
    /// Duplicating a descriptor.
    Dup,
    /// `fstatat(2)`.
    Fstatat,
    /// `readlinkat(2)`.
    Readlinkat,
    /// `mkdirat(2)`.
    Mkdirat,
    /// `symlinkat(2)`.
    Symlinkat,
    /// `linkat(2)`.
    Linkat,
    /// `mknodat(2)`.
    Mknodat,
    /// `unlinkat(2)`.
    Unlinkat,
    /// `renameat2(2)`.
    Renameat2,
    /// `close(2)`.
    Close,
}

/// A failed system call: which call it was and the `errno` it left.
#[derive(Clone, Copy, Debug, PartialEq, Eq, Structural)]
pub struct SyscallError {
    /// The call that failed.
    pub syscall: Syscall,
    /// The `errno` value the kernel reported.
    pub errno: i32,
}

/// The error type of the library.
///
/// Wrapping an error with [`wrap`] adds a line of context and never changes
/// the error underneath: the chain of causes only grows at its outer end.
#[derive(Debug, PartialEq, Eq)]
#[allow(inconsistent_fields)]
pub enum Error {
    /// The requested feature is not yet implemented.
    NotImplemented {
        /// Feature which is not implemented.
        feature: String,
    },
    /// The requested feature is not supported by the running kernel.
    NotSupported {
        /// Feature which is not supported.
        feature: String,
    },
    /// One of the provided arguments is invalid.
    InvalidArgument {
        /// Name of the invalid argument.
        name: String,
        /// Description of what makes the argument invalid.
        description: String,
    },
    /// A safety requirement was violated. This may be an attempted breakout
    /// by an attacker; the operation is never retried.
    SafetyViolation {
        /// Description of the safety requirement which was violated.
        description: String,
    },
    /// Resolution followed more symbolic links than the limit allows.
    LoopDetected {
        /// The largest number of expansions one resolution may make.
        limit: usize,
    },
    /// Resolution expanded more bytes of symbolic link targets than the
    /// limit allows.
    TooBig {
        /// The largest number of bytes one resolution may expand.
        limit: usize,
    },
    /// Reading operating system state through the standard library failed.
    OsError {
        /// Operation which was being attempted.
        operation: String,
        /// Underlying error.
        source: SyscallError,
    },
    /// One of the directory-relative system calls failed.
    RawOsError {
        /// Operation which was being attempted.
        operation: String,
        /// Underlying system call error.
        source: SyscallError,
    },
    /// An error with a line of context added at the call site.
    Wrapped {
        /// Additional context information about the contained error.
        context: String,
        /// Underlying wrapped error.
        source: Box<Error>,
    },
}

/// The mathematical value of an [`Error`]: the same tree with every string
/// as a sequence of characters.
#[allow(inconsistent_fields)]
pub enum ErrorView {
    NotImplemented { feature: Seq<char> },
    NotSupported { feature: Seq<char> },
    InvalidArgument { name: Seq<char>, description: Seq<char> },
    SafetyViolation { description: Seq<char> },
    LoopDetected { limit: usize },
    TooBig { limit: usize },
    OsError { operation: Seq<char>, source: SyscallError },
    RawOsError { operation: Seq<char>, source: SyscallError },
    Wrapped { context: Seq<char>, source: Box<ErrorView> },
}

impl ErrorView {
    /// The number of context lines wrapped around the root cause.
    pub open spec fn depth(self) -> nat
        decreases self,
    {
        match self {
            ErrorView::Wrapped { context, source } => 1 + source.depth(),
            _ => 0,
        }
    }

    /// The error at the inner end of the chain: the one that is not a
    /// `Wrapped`.
    pub open spec fn root_cause(self) -> ErrorView
        decreases self,
    {
        match self {
            ErrorView::Wrapped { context, source } => source.root_cause(),
            _ => self,
        }
    }

    /// The chain of causes from the root cause outwards; its last element is
    /// the error itself.
    pub open spec fn chain(self) -> Seq<ErrorView>
        decreases self,
    {
        match self {
            ErrorView::Wrapped { context, source } => source.chain().push(self),
            _ => seq![self],
        }
    }

    /// This error with one more line of context around it.
    pub open spec fn wrapped(self, context: Seq<char>) -> ErrorView {
        ErrorView::Wrapped { context, source: Box::new(self) }
    }

    /// The error in words. A line of context stands for itself; what it was
    /// wrapped around is the next link of the chain.
    pub open spec fn message(self) -> Seq<char> {
        match self {
            ErrorView::NotImplemented { feature } => "feature '"@ + feature
                + "' not implemented"@,
            ErrorView::NotSupported { feature } => "feature '"@ + feature
                + "' not supported on this kernel"@,
            ErrorView::InvalidArgument { name, description } => "invalid "@ + name
                + " argument: "@ + description,
            ErrorView::SafetyViolation { description } => "violation of safety requirement: "@
                + description,
            ErrorView::LoopDetected { limit } => "too many levels of symbolic links"@,
            ErrorView::TooBig { limit } => "targets of symbolic links too long"@,
            ErrorView::OsError { operation, source } => operation + " failed"@,
            ErrorView::RawOsError { operation, source } => operation + " failed"@,
            ErrorView::Wrapped { context, source } => context,
        }
    }
}

impl Error {
    /// The mathematical value of this error; `@` is short for it.
    pub open spec fn model(&self) -> ErrorView
        decreases self,
    {
        match self {
            Error::NotImplemented { feature } => ErrorView::NotImplemented { feature: feature@ },
            Error::NotSupported { feature } => ErrorView::NotSupported { feature: feature@ },
            Error::InvalidArgument { name, description } => ErrorView::InvalidArgument {
                name: name@,
                description: description@,
            },
            Error::SafetyViolation { description } => ErrorView::SafetyViolation {
                description: description@,
            },
            Error::LoopDetected { limit } => ErrorView::LoopDetected { limit: *limit },
            Error::TooBig { limit } => ErrorView::TooBig { limit: *limit },
            Error::OsError { operation, source } => ErrorView::OsError {
                operation: operation@,
                source: *source,
            },
            Error::RawOsError { operation, source } => ErrorView::RawOsError {
                operation: operation@,
                source: *source,
            },
            Error::Wrapped { context, source } => ErrorView::Wrapped {
                context: context@,
                source: Box::new((**source).model()),
            },
        }
    }
}

impl View for Error {
    type V = ErrorView;

    open spec fn view(&self) -> ErrorView {
        self.model()
    }
}

/// The view of a result whose error is an [`Error`].
pub open spec fn result_view<T: View>(r: Result<T, Error>) -> Result<T::V, ErrorView> {
    match r {
        Ok(v) => Ok(v@),
        Err(e) => Err(e@),
    }
}

impl Error {
    /// Adds a line of context around this error.
    pub fn wrap(self, context: &str) -> (r: Error)
        ensures
            r@ == self@.wrapped(context@),
            r@.root_cause() == self@.root_cause(),
            r@.depth() == self@.depth() + 1,
    {
        Error::Wrapped { context: context.to_owned(), source: Box::new(self) }
    }

    /// The error in words.
    pub fn message(&self) -> (r: String)
        ensures
            r@ == self@.message(),
    {
        match self {
            Error::NotImplemented { feature } => {
                let mut text = "feature '".to_owned();
                text.append(feature.as_str());
                text.append("' not implemented");
                text
            },
            Error::NotSupported { feature } => {
                let mut text = "feature '".to_owned();
                text.append(feature.as_str());
                text.append("' not supported on this kernel");
                text
            },
            Error::InvalidArgument { name, description } => {
                let mut text = "invalid ".to_owned();
                text.append(name.as_str());
                text.append(" argument: ");
                text.append(description.as_str());
                text
            },
            Error::SafetyViolation { description } => {
                let mut text = "violation of safety requirement: ".to_owned();
                text.append(description.as_str());
                text
            },
            Error::LoopDetected { limit } => "too many levels of symbolic links".to_owned(),
            Error::TooBig { limit } => "targets of symbolic links too long".to_owned(),
            Error::OsError { operation, source } => {
                let mut text = operation.clone();
                text.append(" failed");
                text
            },
            Error::RawOsError { operation, source } => {
                let mut text = operation.clone();
                text.append(" failed");
                text
            },
            Error::Wrapped { context, source } => context.clone(),
        }
    }

    /// The error directly underneath this one, if this one is a line of
    /// context.
    pub fn source(&self) -> (r: Option<&Error>)
        ensures
            match r {
                Some(inner) => self@ matches ErrorView::Wrapped { context, source }
                    && inner@ == *source,
                None => !(self@ is Wrapped),
            },
    {
        match self {
            Error::Wrapped { context, source } => Some(&**source),
            _ => None,
        }
    }

    /// The innermost error of the chain, the one every line of context was
    /// wrapped around.
    pub fn root_cause(&self) -> (r: &Error)
        ensures
            r@ == self@.root_cause(),
            !(r@ is Wrapped),
        decreases self,
    {
        match self {
            Error::Wrapped { context, source } => source.root_cause(),
            _ => self,
        }
    }

    /// The chain of causes, from the root cause outwards. The last element
    /// is this error itself.
    pub fn chain(&self) -> (r: Vec<&Error>)
        ensures
            r@.len() == self@.depth() + 1,
            forall|i: int| 0 <= i < r@.len() ==> (#[trigger] r@[i])@ == self@.chain()[i],
            self@.chain().len() == r@.len(),
        decreases self,
    {
        match self {
            Error::Wrapped { context, source } => {
                let mut v = source.chain();
                v.push(self);
                v
            },
            _ => {
                let mut v: Vec<&Error> = Vec::new();
                v.push(self);
                v
            },
        }
    }
}

/// Adds a line of context to the error of a result; a success passes through
/// unchanged.
pub fn wrap<T>(result: Result<T, Error>, context: &str) -> (r: Result<T, Error>)
    ensures
        match result {
            Ok(v) => r == Ok::<T, Error>(v),
            Err(e) => r matches Err(w) && w@ == e@.wrapped(context@),
        },
{
    match result {
        Ok(v) => Ok(v),
        Err(e) => Err(e.wrap(context)),
    }
}

/// The first element of an error's chain is its root cause, and the last is
/// the error itself.
pub proof fn lemma_chain_ends(e: ErrorView)
    ensures
        e.chain().len() == e.depth() + 1,
        e.chain()[0] == e.root_cause(),
        e.chain().last() == e,
    decreases e,
{
    match e {
        ErrorView::Wrapped { context, source } => {
            lemma_chain_ends(*source);
        },
        _ => {},
    }
}

/// Wrapping changes no error into another: each element of an error's chain
/// has the same root cause as the error.
pub proof fn lemma_chain_keeps_root_cause(e: ErrorView, i: int)
    requires
        0 <= i < e.chain().len(),
    ensures
        e.chain()[i].root_cause() == e.root_cause(),
    decreases e,
{
    match e {
        ErrorView::Wrapped { context, source } => {
            if i < source.chain().len() {
                lemma_chain_keeps_root_cause(*source, i);
            }
        },
        _ => {},
    }
}

} // verus!
