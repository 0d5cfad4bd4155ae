//! Removing an inode inside a root.
//!
//! The kernel has no call that removes whatever is at a name: a directory
//! and anything else are unlinked with different flags. So the entry is first
//! examined and then unlinked with the flags of its type. Between the two
//! calls the entry may be replaced by one of the other type; then the pair is
//! tried again, a bounded number of times.

use crate::error::{Error, ErrorView, Syscall};
use crate::path::{clean, lemma_split_is_safe, lemma_split_shorter, path_split, split};
use crate::resolve::{lemma_resolve_pending, lemma_resolve_step, Resolve, ResolveView};
use crate::root::{Root, RootView};
use crate::sys::{
    copy, counted, fail, failure, flags_to_unlink, lemma_run_counts, lemma_run_ends,
    lemma_run_inside, lemma_run_keeps, lifted, opened, run, track, unlink_flags, used, verdict,
    Next, Reply, ReplyView, Request, RequestView, Step,
};
use vstd::multiset::Multiset;
use vstd::prelude::*;

verus! {

/// The number of times a removal examines the entry and tries to unlink it.
pub const MAX_ATTEMPTS: usize = 16;

/// The context of a path that could not be split.
pub open spec fn split_context() -> Seq<char> {
    "split target path into (parent, name)"@
}

/// The context of a parent directory that could not be resolved.
pub open spec fn parent_context() -> Seq<char> {
    "resolve target parent directory for inode creation"@
}

/// The mathematical value of a [`Remove`].
pub enum RemoveView {
    /// Waiting for the path of the root's descriptor.
    Check { path: Seq<u8> },
    /// Resolving the parent directory of the entry `name`.
    Locate { lookup: ResolveView, name: Seq<u8> },
    /// Waiting to learn what kind of entry `name` is, in attempt `attempt`.
    Probe { dirfd: i32, name: Seq<u8>, attempt: usize },
    /// Waiting for the entry to be unlinked, in attempt `attempt`.
    Unlink { dirfd: i32, name: Seq<u8>, attempt: usize },
}

impl RemoveView {
    /// The name to remove is clean, the attempts are within their bound,
    /// and the limits of the lookup hold.
    pub open spec fn wf(self) -> bool {
        match self {
            RemoveView::Check { .. } => true,
            RemoveView::Locate { lookup, name } => lookup.wf() && clean(name),
            RemoveView::Probe { name, attempt, .. } => clean(name) && attempt < MAX_ATTEMPTS,
            RemoveView::Unlink { name, attempt, .. } => clean(name) && attempt < MAX_ATTEMPTS,
        }
    }

    /// How a removal begins: by asking for the path of the root's
    /// descriptor.
    pub open spec fn start(root: RootView, path: Seq<u8>) -> Next<RemoveView, ()> {
        Next::Call(RemoveView::Check { path }, RequestView::Readback { fd: root.fd })
    }

    /// The request that examines the entry.
    pub open spec fn probe(dirfd: i32, name: Seq<u8>, attempt: usize) -> Next<RemoveView, ()> {
        Next::Call(
            RemoveView::Probe { dirfd, name, attempt },
            RequestView::Fstatat { dirfd, name },
        )
    }

    /// What follows a reply other than the one an attempt was waiting for.
    /// After a failed call the entry is examined again, unless this was the
    /// last attempt: then the failure of that last call is the result.
    pub open spec fn retry(
        dirfd: i32,
        name: Seq<u8>,
        attempt: usize,
        reply: ReplyView,
        syscall: Syscall,
    ) -> Next<RemoveView, ()> {
        if reply is Failed && attempt + 1 < MAX_ATTEMPTS {
            RemoveView::probe(dirfd, name, (attempt + 1) as usize)
        } else {
            Next::Done(Err(failure(reply, syscall, "pathrs remove"@)))
        }
    }

    /// What the removal does with the reply to its last request.
    pub open spec fn step(self, root: RootView, reply: ReplyView) -> Next<RemoveView, ()> {
        match self {
            RemoveView::Check { path } => match root.check(reply) {
                Err(error) => Next::Done(Err(error)),
                Ok(()) => match split(path) {
                    Err(error) => Next::Done(Err(error.wrapped(split_context()))),
                    Ok((parent, name)) => Next::Call(
                        RemoveView::Locate { lookup: ResolveView::Check { path: parent }, name },
                        RequestView::Readback { fd: root.fd },
                    ),
                },
            },
            RemoveView::Locate { lookup, name } => match lookup.step(root, reply) {
                Next::Call(lookup, request) => Next::Call(
                    RemoveView::Locate { lookup, name },
                    request,
                ),
                Next::Done(Err(error)) => Next::Done(Err(error.wrapped(parent_context()))),
                Next::Done(Ok(dirfd)) => RemoveView::probe(dirfd, name, 0),
            },
            RemoveView::Probe { dirfd, name, attempt } => match reply {
                ReplyView::Stat(stat) => Next::Call(
                    RemoveView::Unlink { dirfd, name, attempt },
                    RequestView::Unlinkat { dirfd, name, flags: unlink_flags(stat.mode) },
                ),
                _ => RemoveView::retry(dirfd, name, attempt, reply, Syscall::Fstatat),
            },
            RemoveView::Unlink { dirfd, name, attempt } => match reply {
                ReplyView::Done => Next::Done(Ok(())),
                _ => RemoveView::retry(dirfd, name, attempt, reply, Syscall::Unlinkat),
            },
        }
    }

    /// What holds of the removal of `path` and of the request it waits
    /// for, at every point: the parent that is looked up and the name that
    /// is examined and unlinked are the two parts of the path.
    pub open spec fn pending(self, root: RootView, path: Seq<u8>, request: RequestView) -> bool {
        &&& self.wf()
        &&& request.names_clean()
        &&& match self {
            RemoveView::Check { path: asked } => asked == path,
            RemoveView::Locate { lookup, name } => {
                &&& split(path) matches Ok((parent, last))
                &&& name == last
                &&& lookup.pending(root, parent, request)
            },
            RemoveView::Probe { dirfd, name, .. } => {
                &&& split(path) matches Ok((_, last))
                &&& name == last
                &&& request == (RequestView::Fstatat { dirfd, name })
            },
            RemoveView::Unlink { dirfd, name, .. } => {
                &&& split(path) matches Ok((_, last))
                &&& name == last
                &&& request.syscall() == Syscall::Unlinkat
                &&& request matches RequestView::Unlinkat { dirfd: at, name: entry, .. }
                &&& at == dirfd
                &&& entry == name
            },
        }
    }

    /// The descriptors the removal holds: those of its lookup, then the
    /// parent directory that the lookup returned.
    pub open spec fn held(self) -> Multiset<i32> {
        match self {
            RemoveView::Check { .. } => Multiset::empty(),
            RemoveView::Locate { lookup, .. } => lookup.held(),
            RemoveView::Probe { dirfd, .. } => Multiset::singleton(dirfd),
            RemoveView::Unlink { dirfd, .. } => Multiset::singleton(dirfd),
        }
    }

    /// A bound on the number of requests the removal can still make.
    pub open spec fn fuel(self) -> nat {
        match self {
            RemoveView::Check { path } => (ResolveView::budget(path) + 2 * MAX_ATTEMPTS + 1) as nat,
            RemoveView::Locate { lookup, .. } => (lookup.fuel() + 2 * MAX_ATTEMPTS + 1) as nat,
            RemoveView::Probe { attempt, .. } => (2 * (MAX_ATTEMPTS - attempt)) as nat,
            RemoveView::Unlink { attempt, .. } => (2 * (MAX_ATTEMPTS - attempt) - 1) as nat,
        }
    }
}

/// What every step of a removal keeps.
///
/// No request names more than one directory entry: the entry is examined and
/// unlinked under the final component of the path, which holds no separator.
/// With every request, the bound on the requests the removal can still make
/// gets smaller, so the entry is examined at most `MAX_ATTEMPTS` times. The
/// removal holds the descriptors it held before, and the one the reply
/// opened, without the one it now asks to be closed. It succeeds only when
/// an `unlinkat` did.
pub proof fn lemma_remove_step(s: RemoveView, root: RootView, reply: ReplyView)
    requires
        s.wf(),
    ensures
        s.step(root, reply).names_clean(),
        s.step(root, reply) matches Next::Call(next, asked) ==> {
            &&& next.wf()
            &&& next.fuel() < s.fuel()
            &&& next.held() == track(s.held(), reply, asked)
        },
        s.step(root, reply) matches Next::Done(Ok(_)) ==> s is Unlink && reply == ReplyView::Done,
{
    broadcast use vstd::multiset::group_multiset_axioms;

    match s {
        RemoveView::Check { path } => {
            lemma_split_is_safe(path);
            lemma_split_shorter(path);
        },
        RemoveView::Locate { lookup, name } => {
            lemma_resolve_step(lookup, root, reply);
        },
        _ => {},
    }
    if let Next::Call(next, asked) = s.step(root, reply) {
        assert(next.held() =~= track(s.held(), reply, asked));
    }
}

/// What holds of a removal and its request at one point holds at the next.
pub proof fn lemma_remove_pending(
    s: RemoveView,
    root: RootView,
    path: Seq<u8>,
    request: RequestView,
    reply: ReplyView,
)
    requires
        s.pending(root, path, request),
    ensures
        s.step(root, reply) matches Next::Call(next, asked) ==> next.pending(root, path, asked),
{
    lemma_remove_step(s, root, reply);
    match s {
        RemoveView::Check { .. } => {
            lemma_split_is_safe(path);
        },
        RemoveView::Locate { lookup, name } => {
            if let Ok((parent, _)) = split(path) {
                lemma_resolve_pending(lookup, root, parent, request, reply);
            }
        },
        _ => {},
    }
}

/// Scope of removal. Whatever the replies are, no request of a removal names
/// more than one directory entry, and a removal that succeeds began with a
/// root that was found valid and ended with an
/// `unlinkat` that succeeded: of the final component of its path, relative to
/// the descriptor with which the lookup of the directory part of its path
/// ended. That lookup read the replies after the first, which answered the
/// check of the root.
pub proof fn lemma_remove_run(root: RootView, path: Seq<u8>, replies: Seq<ReplyView>)
    ensures
        ({
            let step = |s: RemoveView, reply: ReplyView| s.step(root, reply);
            let lookup = |s: ResolveView, reply: ReplyView| s.step(root, reply);
            let end = run(step, RemoveView::start(root, path), replies);
            let last = verdict(step, RemoveView::start(root, path), replies);
            &&& end.names_clean()
            &&& end matches Next::Done(Ok(_)) ==> {
                &&& replies.len() > 0
                &&& replies[0] == ReplyView::Bytes(root.path)
                &&& split(path) matches Ok((parent, entry))
                &&& last matches Some((RequestView::Unlinkat { dirfd, name, .. }, ReplyView::Done))
                &&& name == entry
                &&& run(lookup, ResolveView::start(root, parent), replies.skip(1)) == Next::<
                    ResolveView,
                    i32,
                >::Done(Ok(dirfd))
            }
        }),
{
    let step = |s: RemoveView, reply: ReplyView| s.step(root, reply);
    let lookup = |s: ResolveView, reply: ReplyView| s.step(root, reply);
    let inv = |s: RemoveView, request: RequestView| s.pending(root, path, request);
    let start = RemoveView::start(root, path);
    assert forall|s: RemoveView, request: RequestView, reply: ReplyView|
        #![trigger inv(s, request), step(s, reply)]
        inv(s, request) implies (step(s, reply) matches Next::Call(next, asked) ==> inv(
        next,
        asked,
    )) by {
        lemma_remove_pending(s, root, path, request, reply);
    }
    lemma_run_keeps(step, inv, start, replies);
    let end = run(step, start, replies);
    if let Next::Done(Ok(_)) = end {
        let (request, reply) = verdict(step, start, replies).unwrap();
        let s = choose|s: RemoveView| inv(s, request) && #[trigger] step(s, reply) == end;
        lemma_remove_step(s, root, reply);
        // The lookup inside the removal.
        let first = step(RemoveView::Check { path }, replies[0]);
        let tail = replies.skip(1);
        assert(end == run(step, first, tail));
        lemma_split_is_safe(path);
        let (parent, entry) = split(path)->Ok_0;
        let wrap = |l: ResolveView| RemoveView::Locate { lookup: l, name: entry };
        let after = |r: Result<i32, ErrorView>|
            match r {
                Ok(dirfd) => RemoveView::probe(dirfd, entry, 0),
                Err(error) => Next::<RemoveView, ()>::Done(Err(error.wrapped(parent_context()))),
            };
        assert forall|l: ResolveView, reply: ReplyView| #![trigger lookup(l, reply)] step(
            wrap(l),
            reply,
        ) == lifted(lookup(l, reply), wrap, after) by {}
        lemma_run_inside(lookup, step, wrap, after, ResolveView::start(root, parent), tail);
        assert(first == lifted(ResolveView::start(root, parent), wrap, after));
        let found = run(lookup, ResolveView::start(root, parent), tail);
        let rest = tail.skip(used(lookup, ResolveView::start(root, parent), tail) as int);
        if let Next::Done(Ok(fd)) = found {
            let held = |s: RemoveView, asked: RequestView|
                s.wf() && match s {
                    RemoveView::Probe { dirfd, .. } => dirfd == fd,
                    RemoveView::Unlink { dirfd, .. } => dirfd == fd && asked.directory() == fd,
                    _ => false,
                };
            assert forall|s: RemoveView, asked: RequestView, reply: ReplyView|
                #![trigger held(s, asked), step(s, reply)]
                held(s, asked) implies (step(s, reply) matches Next::Call(next, then) ==> held(
                next,
                then,
            )) by {}
            lemma_run_keeps(step, held, after(Ok(fd)), rest);
            let t = choose|t: RemoveView| held(t, request) && #[trigger] step(t, reply) == end;
        }
    }
}

/// Whatever the replies are, a removal that is going on holds the descriptors
/// that the exchanges have left open; when it is over, what is left open is
/// what it held last and what the last reply opened.
pub proof fn lemma_remove_run_holds(root: RootView, path: Seq<u8>, replies: Seq<ReplyView>)
    ensures
        ({
            let step = |s: RemoveView, reply: ReplyView| s.step(root, reply);
            let start = RemoveView::start(root, path);
            let open = counted(step, start, replies, Multiset::empty());
            &&& run(step, start, replies) matches Next::Call(state, _) ==> open == state.held()
            &&& verdict(step, start, replies) matches Some((_, reply)) ==> exists|s: RemoveView|
                s.wf() && #[trigger] s.step(root, reply) == run(step, start, replies) && open
                    == s.held().add(opened(reply))
        }),
{
    let step = |s: RemoveView, reply: ReplyView| s.step(root, reply);
    let inv = |s: RemoveView| s.wf();
    let holds = |s: RemoveView| s.held();
    let start = RemoveView::start(root, path);
    assert forall|s: RemoveView, reply: ReplyView| #![trigger step(s, reply)] inv(s) implies (step(
        s,
        reply,
    ) matches Next::Call(next, asked) ==> inv(next) && holds(next) == track(
        holds(s),
        reply,
        asked,
    )) by {
        lemma_remove_step(s, root, reply);
    }
    lemma_run_counts(step, inv, holds, start, replies, Multiset::empty());
    if let Some((_, reply)) = verdict(step, start, replies) {
        let s = choose|s: RemoveView|
            inv(s) && #[trigger] step(s, reply) == run(step, start, replies) && counted(
                step,
                start,
                replies,
                Multiset::empty(),
            ) == holds(s).add(opened(reply));
        assert(s.wf() && s.step(root, reply) == run(step, start, replies));
    }
}

/// Whatever the replies are, a removal is over after more of them than its
/// first state has fuel: the lookup of the parent directory ends, and the
/// entry is examined and unlinked at most `MAX_ATTEMPTS` times each.
pub proof fn lemma_remove_terminates(root: RootView, path: Seq<u8>, replies: Seq<ReplyView>)
    requires
        replies.len() > (RemoveView::Check { path }).fuel(),
    ensures
        run(
            |s: RemoveView, reply: ReplyView| s.step(root, reply),
            RemoveView::start(root, path),
            replies,
        ) is Done,
{
    let step = |s: RemoveView, reply: ReplyView| s.step(root, reply);
    assert forall|s: RemoveView, reply: ReplyView| #![trigger step(s, reply)] s.wf() implies (step(
        s,
        reply,
    ) matches Next::Call(next, _) ==> next.wf() && next.fuel() < s.fuel()) by {
        lemma_remove_step(s, root, reply);
    }
    lemma_run_ends(
        step,
        |s: RemoveView| s.wf(),
        |s: RemoveView| s.fuel(),
        RemoveView::start(root, path),
        replies,
    );
}

/// When every attempt of a removal fails, its result is the failure of the
/// last call, and no further attempt is made.
pub proof fn lemma_remove_gives_up(s: RemoveView, root: RootView, errno: i32)
    requires
        s.wf(),
        (s matches RemoveView::Probe { attempt, .. } && attempt + 1 == MAX_ATTEMPTS) || (
        s matches RemoveView::Unlink { attempt, .. } && attempt + 1 == MAX_ATTEMPTS),
    ensures
        s.step(root, ReplyView::Failed(errno)) == Next::<RemoveView, ()>::Done(
            Err(
                ErrorView::RawOsError {
                    operation: "pathrs remove"@,
                    source: crate::error::SyscallError {
                        syscall: if s is Probe {
                            Syscall::Fstatat
                        } else {
                            Syscall::Unlinkat
                        },
                        errno,
                    },
                },
            ),
        ),
{
}

enum State {
    Check { path: Vec<u8> },
    Locate { lookup: Resolve, name: Vec<u8> },
    Probe { dirfd: i32, name: Vec<u8>, attempt: usize },
    Unlink { dirfd: i32, name: Vec<u8>, attempt: usize },
}

/// The removal of one entry inside a root.
pub struct Remove {
    state: State,
}

impl View for Remove {
    type V = RemoveView;

    closed spec fn view(&self) -> RemoveView {
        match self.state {
            State::Check { path } => RemoveView::Check { path: path@ },
            State::Locate { lookup, name } => RemoveView::Locate { lookup: lookup@, name: name@ },
            State::Probe { dirfd, name, attempt } => RemoveView::Probe {
                dirfd,
                name: name@,
                attempt,
            },
            State::Unlink { dirfd, name, attempt } => RemoveView::Unlink {
                dirfd,
                name: name@,
                attempt,
            },
        }
    }
}

impl Root {
    /// Begins to remove the inode at `path` inside this root.
    ///
    /// The removal fails if the path does not exist or is a directory that
    /// is not empty.
    pub fn remove(&self, path: &[u8]) -> (r: Step<Remove, ()>)
        ensures
            r@ == RemoveView::start(self@, path@),
            r@.names_clean(),
            r matches Step::Call(removal, _) && removal@.wf(),
    {
        Step::Call(
            Remove { state: State::Check { path: copy(path) } },
            Request::Readback { fd: self.as_raw_fd() },
        )
    }
}

impl Remove {
    #[verifier::type_invariant]
    spec fn inv(self) -> bool {
        self@.wf()
    }

    fn probe(dirfd: i32, name: Vec<u8>, attempt: usize) -> (r: Step<Remove, ()>)
        requires
            clean(name@),
            attempt < MAX_ATTEMPTS,
        ensures
            r@ == RemoveView::probe(dirfd, name@, attempt),
    {
        let request = Request::Fstatat { dirfd, name: copy(name.as_slice()) };
        Step::Call(Remove { state: State::Probe { dirfd, name, attempt } }, request)
    }

    fn retry(dirfd: i32, name: Vec<u8>, attempt: usize, reply: &Reply, syscall: Syscall) -> (r:
        Step<Remove, ()>)
        requires
            clean(name@),
            attempt < MAX_ATTEMPTS,
        ensures
            r@ == RemoveView::retry(dirfd, name@, attempt, reply@, syscall),
    {
        let failed = match reply {
            Reply::Failed(_) => true,
            _ => false,
        };
        if failed && attempt + 1 < MAX_ATTEMPTS {
            Remove::probe(dirfd, name, attempt + 1)
        } else {
            Step::Done(Err(fail(reply, syscall, "pathrs remove")))
        }
    }

    /// Goes on with the reply to the last request of the removal.
    ///
    /// The removal succeeds if and only if an `unlinkat` of the final
    /// component of the path, relative to the resolved parent directory,
    /// succeeded.
    pub fn step(self, root: &Root, reply: Reply) -> (r: Step<Remove, ()>)
        ensures
            r@ == self@.step(root@, reply@),
            self@.wf(),
            r@.names_clean(),
            r matches Step::Call(removal, asked) ==> removal@.wf() && removal@.fuel()
                < self@.fuel() && removal@.held() == track(self@.held(), reply@, asked@),
            r matches Step::Done(Ok(_)) ==> self@ is Unlink && reply@ == ReplyView::Done,
    {
        proof {
            use_type_invariant(&self);
            lemma_remove_step(self@, root@, reply@);
        }
        match self.state {
            State::Check { path } => match root.check(&reply) {
                Err(error) => Step::Done(Err(error)),
                Ok(()) => match path_split(path.as_slice()) {
                    Err(error) => Step::Done(
                        Err(error.wrap("split target path into (parent, name)")),
                    ),
                    Ok((parent, name)) => {
                        let name = copy(name);
                        let (lookup, request) = Resolve::begin(root, parent);
                        Step::Call(Remove { state: State::Locate { lookup, name } }, request)
                    },
                },
            },
            State::Locate { lookup, name } => match lookup.step(root, reply) {
                Step::Call(lookup, request) => Step::Call(
                    Remove { state: State::Locate { lookup, name } },
                    request,
                ),
                Step::Done(Err(error)) => Step::Done(
                    Err(error.wrap("resolve target parent directory for inode creation")),
                ),
                Step::Done(Ok(parent)) => Remove::probe(parent.as_raw_fd(), name, 0),
            },
            State::Probe { dirfd, name, attempt } => match reply {
                Reply::Stat(stat) => {
                    let request = Request::Unlinkat {
                        dirfd,
                        name: copy(name.as_slice()),
                        flags: flags_to_unlink(stat.mode),
                    };
                    Step::Call(Remove { state: State::Unlink { dirfd, name, attempt } }, request)
                },
                _ => Remove::retry(dirfd, name, attempt, &reply, Syscall::Fstatat),
            },
            State::Unlink { dirfd, name, attempt } => match reply {
                Reply::Done => Step::Done(Ok(())),
                _ => Remove::retry(dirfd, name, attempt, &reply, Syscall::Unlinkat),
            },
        }
    }
}

} // verus!
