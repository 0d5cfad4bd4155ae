use pathrs::sys::fail;
use pathrs::{wrap, Error, Reply, Syscall, SyscallError};

fn cause() -> Error {
    Error::RawOsError {
        operation: "pathrs remove".to_string(),
        source: SyscallError { syscall: Syscall::Unlinkat, errno: 39 },
    }
}

fn wrapped(context: &str, source: Error) -> Error {
    Error::Wrapped { context: context.to_string(), source: Box::new(source) }
}

#[test]
fn wrap_adds_one_line_of_context() {
    assert_eq!(cause().wrap("outer"), wrapped("outer", cause()));
    assert_eq!(
        cause().wrap("inner").wrap("outer"),
        wrapped("outer", wrapped("inner", cause()))
    );
}

#[test]
fn wrap_leaves_a_success_alone() {
    assert_eq!(wrap(Ok::<u32, Error>(7), "context"), Ok(7));
    assert_eq!(wrap(Err::<u32, Error>(cause()), "context"), Err(wrapped("context", cause())));
}

#[test]
fn root_cause_is_the_innermost_error() {
    assert_eq!(cause().root_cause(), &cause());
    let error = cause().wrap("a").wrap("b").wrap("c");
    assert_eq!(error.root_cause(), &cause());
}

#[test]
fn source_is_the_error_underneath() {
    assert_eq!(cause().source(), None);
    let error = cause().wrap("a").wrap("b");
    assert_eq!(error.source(), Some(&wrapped("a", cause())));
    assert_eq!(error.source().unwrap().source(), Some(&cause()));
}

#[test]
fn chain_runs_from_the_root_cause_outwards() {
    assert_eq!(cause().chain(), vec![&cause()]);
    let error = cause().wrap("a").wrap("b");
    let chain = error.chain();
    assert_eq!(chain.len(), 3);
    assert_eq!(chain[0], &cause());
    assert_eq!(chain[1], &wrapped("a", cause()));
    assert_eq!(chain[2], &error);
    for link in chain {
        assert_eq!(link.root_cause(), &cause());
    }
}

#[test]
fn failures_keep_the_errno_of_the_call() {
    assert_eq!(
        fail(&Reply::Failed(17), Syscall::Mkdirat, "pathrs create"),
        Error::RawOsError {
            operation: "pathrs create".to_string(),
            source: SyscallError { syscall: Syscall::Mkdirat, errno: 17 },
        }
    );
    assert_eq!(
        fail(&Reply::Failed(2), Syscall::Readback, "get path"),
        Error::OsError {
            operation: "get path".to_string(),
            source: SyscallError { syscall: Syscall::Readback, errno: 2 },
        }
    );
    assert_eq!(
        fail(&Reply::Unsupported, Syscall::Openat2, "resolve"),
        Error::NotSupported { feature: "openat2".to_string() }
    );
    for reply in [Reply::Done, Reply::Fd(3), Reply::Bytes(vec![1])] {
        assert_eq!(
            fail(&reply, Syscall::Openat, "open"),
            Error::InvalidArgument {
                name: "reply".to_string(),
                description: "does not answer the request".to_string(),
            }
        );
    }
}

#[test]
fn messages_say_what_went_wrong() {
    assert_eq!(
        Error::NotSupported { feature: "openat2".to_string() }.message(),
        "feature 'openat2' not supported on this kernel"
    );
    assert_eq!(
        Error::NotImplemented { feature: "remove_all".to_string() }.message(),
        "feature 'remove_all' not implemented"
    );
    assert_eq!(
        Error::InvalidArgument {
            name: "path".to_string(),
            description: "must be an absolute path".to_string(),
        }
        .message(),
        "invalid path argument: must be an absolute path"
    );
    assert_eq!(
        Error::SafetyViolation {
            description: "root directory doesn't match original path".to_string(),
        }
        .message(),
        "violation of safety requirement: root directory doesn't match original path"
    );
    assert_eq!(cause().message(), "pathrs remove failed");
    assert_eq!(cause().wrap("resolve source path for rename").message(), "resolve source path for rename");
    assert_eq!(Error::LoopDetected { limit: 40 }.message(), "too many levels of symbolic links");
    assert_eq!(Error::TooBig { limit: 4096 }.message(), "targets of symbolic links too long");
}
