//! A root: the directory that every path of an operation is resolved under.

use crate::error::{Error, ErrorView};
use crate::sys::{fail, failure, Capabilities, Reply, ReplyView};
use crate::error::Syscall;
use vstd::prelude::*;

verus! {

/// The backend that resolves a path inside a [`Root`].
#[derive(Clone, Copy, Debug, PartialEq, Eq, Structural)]
pub enum Resolver {
    /// One scoped `openat2` call; the kernel keeps the lookup inside the
    /// root.
    Kernel,
    /// A walk in user space, one component at a time.
    Emulated,
}

impl Resolver {
    /// The backend to use by default: the kernel's where the scoped-open
    /// call is there, the emulated one otherwise.
    pub open spec fn preferred(caps: Capabilities) -> Resolver {
        if caps.openat2 {
            Resolver::Kernel
        } else {
            Resolver::Emulated
        }
    }

    /// The backend to use on a kernel with the capabilities `caps`.
    pub fn best(caps: Capabilities) -> (r: Resolver)
        ensures
            r == Resolver::preferred(caps),
            r.supported(caps),
    {
        if caps.openat2 {
            Resolver::Kernel
        } else {
            Resolver::Emulated
        }
    }

    /// Whether a kernel with the capabilities `caps` supports this backend.
    #[verifier::when_used_as_spec(spec_supported)]
    pub fn supported(&self, caps: Capabilities) -> (r: bool)
        ensures
            r == self.spec_supported(caps),
    {
        match self {
            Resolver::Kernel => caps.openat2,
            Resolver::Emulated => true,
        }
    }

    /// The emulated backend is supported everywhere, the kernel's where the
    /// scoped-open call is there.
    pub open spec fn spec_supported(&self, caps: Capabilities) -> bool {
        *self == Resolver::Emulated || caps.openat2
    }
}

/// The flags of a rename, handed to `renameat2` as they are.
#[derive(Clone, Copy, Debug, PartialEq, Eq, Structural)]
pub struct RenameFlags(pub i32);

impl RenameFlags {
    /// Whether a kernel with the capabilities `caps` takes these flags: no
    /// flags are always taken, any other value needs `renameat2` to take
    /// flags.
    pub fn supported(&self, caps: Capabilities) -> (r: bool)
        ensures
            r == (self.0 == 0 || caps.rename_flags),
    {
        self.0 == 0 || caps.rename_flags
    }
}

/// An owning reference to an inode that was resolved inside a root.
///
/// The inode was reachable from the root at some instant between the call
/// that resolved it and its return.
#[derive(Debug, PartialEq, Eq)]
pub struct Handle {
    fd: i32,
}

impl View for Handle {
    type V = i32;

    closed spec fn view(&self) -> i32 {
        self.fd
    }
}

impl Handle {
    /// A handle that owns the descriptor `fd`.
    pub fn new(fd: i32) -> (r: Handle)
        ensures
            r@ == fd,
    {
        Handle { fd }
    }

    /// The descriptor of the handle.
    pub fn as_raw_fd(&self) -> (fd: i32)
        ensures
            fd == self@,
    {
        self.fd
    }
}

/// A handle to the root of a directory tree.
///
/// It holds a path-only descriptor of the directory, the absolute path the
/// directory was opened at, and the backend that resolves paths inside it.
/// As long as the root is in use, the path read back from its descriptor has
/// to be the path it was opened at: a root that was moved is treated as an
/// attack.
#[derive(Debug, PartialEq, Eq)]
pub struct Root {
    fd: i32,
    path: Vec<u8>,
    /// The backend that resolves paths inside this root.
    pub resolver: Resolver,
}

/// The mathematical value of a [`Root`].
pub struct RootView {
    pub fd: i32,
    pub path: Seq<u8>,
    pub resolver: Resolver,
}

impl View for Root {
    type V = RootView;

    closed spec fn view(&self) -> RootView {
        RootView { fd: self.fd, path: self.path@, resolver: self.resolver }
    }
}

/// The error for a root whose directory is no longer where it was opened.
pub open spec fn root_moved() -> ErrorView {
    ErrorView::SafetyViolation { description: "root directory doesn't match original path"@ }
}

/// The context of a failure to read the path of the root back.
pub open spec fn check_context() -> Seq<char> {
    "get current path of rootfd for root check"@
}

impl RootView {
    /// What [`Root::check`] makes of the answer to a readback of the root's
    /// descriptor: the root is valid if and only if the path that was read
    /// is the path the root was opened at.
    pub open spec fn check(self, readback: ReplyView) -> Result<(), ErrorView> {
        match readback {
            ReplyView::Bytes(actual) => if actual == self.path {
                Ok(())
            } else {
                Err(root_moved())
            },
            _ => Err(
                failure(readback, Syscall::Readback, "readlink /proc/self/fd"@).wrapped(
                    check_context(),
                ),
            ),
        }
    }
}

/// Whether two byte strings are equal.
pub fn same_bytes(a: &[u8], b: &[u8]) -> (r: bool)
    ensures
        r == (a@ == b@),
{
    if a.len() != b.len() {
        return false;
    }
    let mut i: usize = 0;
    while i < a.len()
        invariant
            i <= a@.len(),
            a@.len() == b@.len(),
            forall|k: int| 0 <= k < i ==> a@[k] == b@[k],
        decreases a@.len() - i,
    {
        if a[i] != b[i] {
            return false;
        }
        i += 1;
    }
    assert(a@ =~= b@);
    true
}

impl Root {
    /// A root for the directory that `fd` is a descriptor of and that was
    /// opened at `path`.
    pub(crate) fn new(fd: i32, path: Vec<u8>, resolver: Resolver) -> (r: Root)
        ensures
            r@ == (RootView { fd, path: path@, resolver }),
    {
        Root { fd, path, resolver }
    }

    /// The backend that resolves paths inside this root.
    pub fn resolver(&self) -> (r: Resolver)
        ensures
            r == self@.resolver,
    {
        self.resolver
    }

    /// The descriptor of the root directory.
    pub fn as_raw_fd(&self) -> (fd: i32)
        ensures
            fd == self@.fd,
    {
        self.fd
    }

    /// The path the root was opened at.
    pub fn path(&self) -> (path: &[u8])
        ensures
            path@ == self@.path,
    {
        self.path.as_slice()
    }

    /// Checks that the root is still valid, given the answer to a readback
    /// of its descriptor.
    ///
    /// The root is valid if and only if the path that was read back is the
    /// path the root was opened at. Any other path is a safety violation; a
    /// readback that failed is reported as that failure.
    pub fn check(&self, readback: &Reply) -> (r: Result<(), Error>)
        ensures
            crate::error::result_view(r) == self@.check(readback@),
            r is Ok <==> readback@ == ReplyView::Bytes(self@.path),
            r is Err && readback@ is Bytes ==> r.unwrap_err()@ == root_moved(),
    {
        match readback {
            Reply::Bytes(actual) => {
                if same_bytes(actual.as_slice(), self.path.as_slice()) {
                    Ok(())
                } else {
                    Err(
                        Error::SafetyViolation {
                            description: "root directory doesn't match original path".to_owned(),
                        },
                    )
                }
            },
            _ => Err(
                fail(readback, Syscall::Readback, "readlink /proc/self/fd").wrap(
                    "get current path of rootfd for root check",
                ),
            ),
        }
    }
}

} // verus!
