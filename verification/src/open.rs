//! Opening a root.
//!
//! The directory is opened by its absolute path as a path-only descriptor.
//! The path that the kernel reports for the new descriptor has to be the path
//! that was asked for: a path that led elsewhere, through a symbolic link or
//! a rename in between, gives no root.

use crate::error::{Error, ErrorView, Syscall};
use crate::path::{is_absolute, path_is_absolute};
use crate::root::{Resolver, Root, RootView};
use crate::sys::{
    copy, fail, failure, opened, track, Capabilities, Next, Reply, ReplyView, Request, RequestView,
    Step,
};
use vstd::multiset::Multiset;
use vstd::prelude::*;

verus! {

/// The error for a root path that is not absolute.
pub open spec fn not_absolute() -> ErrorView {
    ErrorView::InvalidArgument { name: "path"@, description: "must be an absolute path"@ }
}

/// The mathematical value of an [`OpenRoot`].
pub enum OpenRootView {
    /// Waiting for the descriptor of the directory at `path`.
    Open { path: Seq<u8>, resolver: Resolver },
    /// Waiting for the path of the new descriptor.
    Check { root: RootView },
}

impl OpenRootView {
    /// How the opening of a root begins. A path that is not absolute is
    /// refused before any request is made; the backend of the new root is
    /// the one the kernel is best served with.
    pub open spec fn start(path: Seq<u8>, caps: Capabilities) -> Next<OpenRootView, RootView> {
        if is_absolute(path) {
            Next::Call(
                OpenRootView::Open { path, resolver: Resolver::preferred(caps) },
                RequestView::OpenRoot { path },
            )
        } else {
            Next::Done(Err(not_absolute()))
        }
    }

    /// What the opening does with the reply to its last request.
    pub open spec fn step(self, reply: ReplyView) -> Next<OpenRootView, RootView> {
        match self {
            OpenRootView::Open { path, resolver } => match reply {
                ReplyView::Fd(fd) => Next::Call(
                    OpenRootView::Check { root: RootView { fd, path, resolver } },
                    RequestView::Readback { fd },
                ),
                _ => Next::Done(Err(failure(reply, Syscall::Openat, "open root handle"@))),
            },
            OpenRootView::Check { root } => match root.check(reply) {
                Ok(()) => Next::Done(Ok(root)),
                Err(error) => Next::Done(Err(error)),
            },
        }
    }

    /// The descriptors the opening holds: that of the directory, once it
    /// is open.
    pub open spec fn held(self) -> Multiset<i32> {
        match self {
            OpenRootView::Open { .. } => Multiset::empty(),
            OpenRootView::Check { root } => Multiset::singleton(root.fd),
        }
    }

    /// A bound on the number of requests the opening can still make.
    pub open spec fn fuel(self) -> nat {
        match self {
            OpenRootView::Open { .. } => 1,
            OpenRootView::Check { .. } => 0,
        }
    }
}

/// A root is only handed out for a descriptor whose path, read back after
/// the directory was opened, is the path that was asked for. Its descriptor
/// is the one descriptor the opening holds.
pub proof fn lemma_open_checked(s: OpenRootView, reply: ReplyView)
    ensures
        s.step(reply) matches Next::Done(Ok(root)) ==> s == (OpenRootView::Check { root })
            && reply == ReplyView::Bytes(root.path) && s.held().add(opened(reply))
            == Multiset::singleton(root.fd),
        s.step(reply).names_clean(),
        s.step(reply) matches Next::Call(next, asked) ==> next.fuel() < s.fuel() && next.held()
            == track(s.held(), reply, asked),
{
    broadcast use vstd::multiset::group_multiset_axioms;

    if let Next::Call(next, asked) = s.step(reply) {
        assert(next.held() =~= track(s.held(), reply, asked));
    }
    if let Next::Done(Ok(root)) = s.step(reply) {
        assert(s.held().add(opened(reply)) =~= Multiset::singleton(root.fd));
    }
}

enum State {
    Open { path: Vec<u8>, resolver: Resolver },
    Check { root: Root },
}

/// The opening of one root.
pub struct OpenRoot {
    state: State,
}

impl View for OpenRoot {
    type V = OpenRootView;

    closed spec fn view(&self) -> OpenRootView {
        match self.state {
            State::Open { path, resolver } => OpenRootView::Open { path: path@, resolver },
            State::Check { root } => OpenRootView::Check { root: root@ },
        }
    }
}

impl Root {
    /// Begins to open the directory at `path` as a root, on a kernel with
    /// the capabilities `caps`.
    ///
    /// `path` must be absolute, must name an existing directory, and must
    /// be fully resolved, with no symbolic link among its components. The
    /// backend of the new root is [`Resolver::best`]; it can be changed
    /// through the field `resolver`.
    pub fn open(path: &[u8], caps: Capabilities) -> (r: Step<OpenRoot, Root>)
        ensures
            r@ == OpenRootView::start(path@, caps),
            r@.names_clean(),
            r is Call <==> is_absolute(path@),
    {
        if !path_is_absolute(path) {
            return Step::Done(
                Err(
                    Error::InvalidArgument {
                        name: "path".to_owned(),
                        description: "must be an absolute path".to_owned(),
                    },
                ),
            );
        }
        Step::Call(
            OpenRoot { state: State::Open { path: copy(path), resolver: Resolver::best(caps) } },
            Request::OpenRoot { path: copy(path) },
        )
    }
}

impl OpenRoot {
    /// Goes on with the reply to the last request of the opening.
    ///
    /// The opening ends with a root if and only if the directory was opened
    /// and the path read back from its descriptor is the path that was
    /// asked for.
    pub fn step(self, reply: Reply) -> (r: Step<OpenRoot, Root>)
        ensures
            r@ == self@.step(reply@),
            r@.names_clean(),
            r matches Step::Call(opening, _) ==> opening@.fuel() < self@.fuel(),
            r matches Step::Done(Ok(root)) ==> self@ == (OpenRootView::Check { root: root@ })
                && reply@ == ReplyView::Bytes(root@.path),
    {
        match self.state {
            State::Open { path, resolver } => match reply {
                Reply::Fd(fd) => Step::Call(
                    OpenRoot { state: State::Check { root: Root::new(fd, path, resolver) } },
                    Request::Readback { fd },
                ),
                _ => Step::Done(Err(fail(&reply, Syscall::Openat, "open root handle"))),
            },
            State::Check { root } => match root.check(&reply) {
                Ok(()) => Step::Done(Ok(root)),
                Err(error) => Step::Done(Err(error)),
            },
        }
    }
}

} // verus!
