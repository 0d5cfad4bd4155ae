//! Renaming an inode inside a root.
//!
//! The root is checked first, then both paths are split. The parent directory
//! of the source is resolved, then that of the destination, and one
//! `renameat2` call is made between the two descriptors and the two final
//! components. The flags are handed to the kernel as they are.

use crate::error::{Error, ErrorView, Syscall};
use crate::path::{clean, lemma_split_is_safe, lemma_split_shorter, path_split, split};
use crate::remove::split_context;
use crate::resolve::{lemma_resolve_pending, lemma_resolve_step, Resolve, ResolveView};
use crate::root::{RenameFlags, Root, RootView};
use crate::sys::{
    copy, counted, fail, failure, lemma_run_counts, lemma_run_ends, lemma_run_inside,
    lemma_run_keeps, lifted, opened, run, track, used, verdict, Next, Reply, ReplyView, Request,
    RequestView, Step,
};
use vstd::multiset::Multiset;
use vstd::prelude::*;

verus! {

/// The context of a source path that could not be split.
pub open spec fn source_split_context() -> Seq<char> {
    "split source path into (parent, name)"@
}

/// The context of a source whose parent could not be resolved.
pub open spec fn source_context() -> Seq<char> {
    "resolve source path for rename"@
}

/// The context of a destination whose parent could not be resolved.
pub open spec fn target_context() -> Seq<char> {
    "resolve target path for rename"@
}

/// The mathematical value of a [`Rename`].
pub enum RenameView {
    /// Waiting for the path of the root's descriptor.
    Check { source: Seq<u8>, destination: Seq<u8>, flags: i32 },
    /// Resolving the parent directory of the source.
    Source {
        lookup: ResolveView,
        oldname: Seq<u8>,
        newparent: Seq<u8>,
        newname: Seq<u8>,
        flags: i32,
    },
    /// Resolving the parent directory of the destination.
    Target { lookup: ResolveView, olddirfd: i32, oldname: Seq<u8>, newname: Seq<u8>, flags: i32 },
    /// Waiting for the rename between `olddirfd` and `newdirfd` to return.
    Final { olddirfd: i32, newdirfd: i32 },
}

impl RenameView {
    /// Both names are clean, and the limits of the lookup hold.
    pub open spec fn wf(self) -> bool {
        match self {
            RenameView::Source { lookup, oldname, newname, .. } => lookup.wf() && clean(oldname)
                && clean(newname),
            RenameView::Target { lookup, oldname, newname, .. } => lookup.wf() && clean(oldname)
                && clean(newname),
            _ => true,
        }
    }

    /// How a rename begins: by asking for the path of the root's
    /// descriptor.
    pub open spec fn start(root: RootView, source: Seq<u8>, destination: Seq<u8>, flags: i32)
        -> Next<RenameView, ()> {
        Next::Call(
            RenameView::Check { source, destination, flags },
            RequestView::Readback { fd: root.fd },
        )
    }

    /// What follows the check of the root: both paths are split, the
    /// source first, and the parent directory of the source is looked up.
    pub open spec fn begin(root: RootView, source: Seq<u8>, destination: Seq<u8>, flags: i32)
        -> Next<RenameView, ()> {
        match split(source) {
            Err(error) => Next::Done(Err(error.wrapped(source_split_context()))),
            Ok((oldparent, oldname)) => match split(destination) {
                Err(error) => Next::Done(Err(error.wrapped(split_context()))),
                Ok((newparent, newname)) => Next::Call(
                    RenameView::Source {
                        lookup: ResolveView::Check { path: oldparent },
                        oldname,
                        newparent,
                        newname,
                        flags,
                    },
                    RequestView::Readback { fd: root.fd },
                ),
            },
        }
    }

    /// What the rename does with the reply to its last request.
    pub open spec fn step(self, root: RootView, reply: ReplyView) -> Next<RenameView, ()> {
        match self {
            RenameView::Check { source, destination, flags } => match root.check(reply) {
                Err(error) => Next::Done(Err(error)),
                Ok(()) => RenameView::begin(root, source, destination, flags),
            },
            RenameView::Source { lookup, oldname, newparent, newname, flags } => match lookup.step(
                root,
                reply,
            ) {
                Next::Call(lookup, request) => Next::Call(
                    RenameView::Source { lookup, oldname, newparent, newname, flags },
                    request,
                ),
                Next::Done(Err(error)) => Next::Done(Err(error.wrapped(source_context()))),
                Next::Done(Ok(olddirfd)) => Next::Call(
                    RenameView::Target {
                        lookup: ResolveView::Check { path: newparent },
                        olddirfd,
                        oldname,
                        newname,
                        flags,
                    },
                    RequestView::Readback { fd: root.fd },
                ),
            },
            RenameView::Target { lookup, olddirfd, oldname, newname, flags } => match lookup.step(
                root,
                reply,
            ) {
                Next::Call(lookup, request) => Next::Call(
                    RenameView::Target { lookup, olddirfd, oldname, newname, flags },
                    request,
                ),
                Next::Done(Err(error)) => Next::Done(Err(error.wrapped(target_context()))),
                Next::Done(Ok(newdirfd)) => Next::Call(
                    RenameView::Final { olddirfd, newdirfd },
                    RequestView::Renameat2 { olddirfd, oldname, newdirfd, newname, flags },
                ),
            },
            RenameView::Final { .. } => match reply {
                ReplyView::Done => Next::Done(Ok(())),
                _ => Next::Done(Err(failure(reply, Syscall::Renameat2, "pathrs rename"@))),
            },
        }
    }

    /// What holds of the rename of `source` to `destination` and of the
    /// request it waits for, at every point: the parents that are looked
    /// up and the names that are kept are the parts of the two paths, and
    /// the rename is asked for between the descriptors that the lookups
    /// returned and those names, with the flags as they were given.
    pub open spec fn pending(
        self,
        root: RootView,
        source: Seq<u8>,
        destination: Seq<u8>,
        flags: i32,
        request: RequestView,
    ) -> bool {
        &&& self.wf()
        &&& request.names_clean()
        &&& match self {
            RenameView::Check { source: from, destination: to, flags: with } => from == source
                && to == destination && with == flags,
            RenameView::Source { lookup, oldname, newparent, newname, flags: with } => {
                &&& with == flags
                &&& split(source) matches Ok((oldparent, oldlast))
                &&& split(destination) matches Ok((newlead, newlast))
                &&& oldname == oldlast
                &&& newparent == newlead
                &&& newname == newlast
                &&& lookup.pending(root, oldparent, request)
            },
            RenameView::Target { lookup, oldname, newname, flags: with, .. } => {
                &&& with == flags
                &&& split(source) matches Ok((_, oldlast))
                &&& split(destination) matches Ok((newlead, newlast))
                &&& oldname == oldlast
                &&& newname == newlast
                &&& lookup.pending(root, newlead, request)
            },
            RenameView::Final { olddirfd, newdirfd } => {
                &&& split(source) matches Ok((_, oldlast))
                &&& split(destination) matches Ok((_, newlast))
                &&& request == (RequestView::Renameat2 {
                    olddirfd,
                    oldname: oldlast,
                    newdirfd,
                    newname: newlast,
                    flags,
                })
            },
        }
    }

    /// The descriptors the rename holds: those of its lookups, and the
    /// directories that the lookups returned.
    pub open spec fn held(self) -> Multiset<i32> {
        match self {
            RenameView::Check { .. } => Multiset::empty(),
            RenameView::Source { lookup, .. } => lookup.held(),
            RenameView::Target { lookup, olddirfd, .. } => lookup.held().insert(olddirfd),
            RenameView::Final { olddirfd, newdirfd } => Multiset::singleton(olddirfd).insert(
                newdirfd,
            ),
        }
    }

    /// A bound on the number of requests the rename can still make.
    pub open spec fn fuel(self) -> nat {
        match self {
            RenameView::Check { source, destination, .. } => ResolveView::budget(source)
                + ResolveView::budget(destination) + 3,
            RenameView::Source { lookup, newparent, .. } => lookup.fuel() + ResolveView::budget(
                newparent,
            ) + 2,
            RenameView::Target { lookup, .. } => lookup.fuel() + 1,
            RenameView::Final { .. } => 0,
        }
    }
}

/// What every step of a rename keeps.
///
/// No request names more than one directory entry: the one `renameat2` call
/// is made between the final components of the two paths. With every
/// request, the bound on the requests the rename can still make gets smaller.
/// The rename holds the descriptors it held before, and the one the reply
/// opened, without the one it now asks to be closed. It succeeds only when
/// the `renameat2` call did, and goes on from the check of the root only if
/// the path read back from the root's descriptor is the path the root was
/// opened at.
pub proof fn lemma_rename_step(s: RenameView, root: RootView, reply: ReplyView)
    requires
        s.wf(),
    ensures
        s.step(root, reply).names_clean(),
        s.step(root, reply) matches Next::Call(next, asked) ==> {
            &&& next.wf()
            &&& next.fuel() < s.fuel()
            &&& next.held() == track(s.held(), reply, asked)
        },
        s.step(root, reply) matches Next::Done(Ok(_)) ==> s is Final && reply == ReplyView::Done,
        s is Check && !(reply == ReplyView::Bytes(root.path)) ==> s.step(root, reply)
            == Next::<RenameView, ()>::Done(Err(root.check(reply)->Err_0)),
{
    broadcast use vstd::multiset::group_multiset_axioms;

    match s {
        RenameView::Check { source, destination, .. } => {
            lemma_split_is_safe(source);
            lemma_split_is_safe(destination);
            lemma_split_shorter(source);
            lemma_split_shorter(destination);
        },
        RenameView::Source { lookup, .. } => {
            lemma_resolve_step(lookup, root, reply);
        },
        RenameView::Target { lookup, .. } => {
            lemma_resolve_step(lookup, root, reply);
            if let Next::Done(Ok(new)) = lookup.step(root, reply) {
                assert(lookup.held().add(opened(reply)) =~= Multiset::singleton(new));
            }
        },
        _ => {},
    }
    if let Next::Call(next, asked) = s.step(root, reply) {
        assert(next.held() =~= track(s.held(), reply, asked));
    }
}

/// What holds of a rename and its request at one point holds at the next.
pub proof fn lemma_rename_pending(
    s: RenameView,
    root: RootView,
    source: Seq<u8>,
    destination: Seq<u8>,
    flags: i32,
    request: RequestView,
    reply: ReplyView,
)
    requires
        s.pending(root, source, destination, flags, request),
    ensures
        s.step(root, reply) matches Next::Call(next, asked) ==> next.pending(
            root,
            source,
            destination,
            flags,
            asked,
        ),
{
    lemma_rename_step(s, root, reply);
    lemma_split_is_safe(source);
    lemma_split_is_safe(destination);
    if let Ok((oldparent, _)) = split(source) {
        if let Ok((newparent, _)) = split(destination) {
            match s {
                RenameView::Source { lookup, .. } => {
                    lemma_resolve_pending(lookup, root, oldparent, request, reply);
                },
                RenameView::Target { lookup, .. } => {
                    lemma_resolve_pending(lookup, root, newparent, request, reply);
                },
                _ => {},
            }
        }
    }
}

/// Scope of renaming. Whatever the replies are, no request of a rename names
/// more than one directory entry, and a rename that succeeds began with a
/// root that was found valid and ended with one `renameat2` that succeeded:
/// from the final component of its source to the final component of its
/// destination, with the flags as they were given, and between the
/// descriptors with which the lookups of the two directory parts ended. The
/// lookup for the source read the replies after the first, which answered the
/// check of the root; the lookup for the destination read the replies that
/// the first lookup left.
pub proof fn lemma_rename_run(
    root: RootView,
    source: Seq<u8>,
    destination: Seq<u8>,
    flags: i32,
    replies: Seq<ReplyView>,
)
    ensures
        ({
            let step = |s: RenameView, reply: ReplyView| s.step(root, reply);
            let lookup = |s: ResolveView, reply: ReplyView| s.step(root, reply);
            let end = run(step, RenameView::start(root, source, destination, flags), replies);
            let last = verdict(
                step,
                RenameView::start(root, source, destination, flags),
                replies,
            );
            &&& end.names_clean()
            &&& end matches Next::Done(Ok(_)) ==> {
                &&& replies.len() > 0
                &&& replies[0] == ReplyView::Bytes(root.path)
                &&& last matches Some(
                    (
                        RequestView::Renameat2 {
                            olddirfd,
                            oldname,
                            newdirfd,
                            newname,
                            flags: with,
                        },
                        ReplyView::Done,
                    ),
                )
                &&& with == flags
                &&& split(source) matches Ok((oldparent, from))
                &&& oldname == from
                &&& split(destination) matches Ok((newparent, to))
                &&& newname == to
                &&& run(lookup, ResolveView::start(root, oldparent), replies.skip(1)) == Next::<
                    ResolveView,
                    i32,
                >::Done(Ok(olddirfd))
                &&& run(
                    lookup,
                    ResolveView::start(root, newparent),
                    replies.skip(1).skip(
                        used(lookup, ResolveView::start(root, oldparent), replies.skip(1)) as int,
                    ),
                ) == Next::<ResolveView, i32>::Done(Ok(newdirfd))
            }
        }),
{
    let step = |s: RenameView, reply: ReplyView| s.step(root, reply);
    let lookup = |s: ResolveView, reply: ReplyView| s.step(root, reply);
    let inv = |s: RenameView, request: RequestView|
        s.pending(root, source, destination, flags, request);
    let start = RenameView::start(root, source, destination, flags);
    assert forall|s: RenameView, request: RequestView, reply: ReplyView|
        #![trigger inv(s, request), step(s, reply)]
        inv(s, request) implies (step(s, reply) matches Next::Call(next, asked) ==> inv(
        next,
        asked,
    )) by {
        lemma_rename_pending(s, root, source, destination, flags, request, reply);
    }
    lemma_run_keeps(step, inv, start, replies);
    let end = run(step, start, replies);
    if let Next::Done(Ok(_)) = end {
        let first = step(RenameView::Check { source, destination, flags }, replies[0]);
        let tail = replies.skip(1);
        assert(end == run(step, first, tail));
        assert(verdict(step, start, replies) == verdict(step, first, tail));
        lemma_split_is_safe(source);
        lemma_split_is_safe(destination);
        let (oldparent, from) = split(source)->Ok_0;
        let (newparent, to) = split(destination)->Ok_0;
        let wrap = |l: ResolveView|
            RenameView::Source { lookup: l, oldname: from, newparent, newname: to, flags };
        let after = |r: Result<i32, ErrorView>|
            match r {
                Ok(olddirfd) => Next::<RenameView, ()>::Call(
                    RenameView::Target {
                        lookup: ResolveView::Check { path: newparent },
                        olddirfd,
                        oldname: from,
                        newname: to,
                        flags,
                    },
                    RequestView::Readback { fd: root.fd },
                ),
                Err(error) => Next::<RenameView, ()>::Done(Err(error.wrapped(source_context()))),
            };
        assert forall|l: ResolveView, reply: ReplyView| #![trigger lookup(l, reply)] step(
            wrap(l),
            reply,
        ) == lifted(lookup(l, reply), wrap, after) by {}
        let begun = ResolveView::start(root, oldparent);
        lemma_run_inside(lookup, step, wrap, after, begun, tail);
        assert(first == lifted(begun, wrap, after));
        let rest = tail.skip(used(lookup, begun, tail) as int);
        if let Next::Done(Ok(old)) = run(lookup, begun, tail) {
            assert(end == run(step, after(Ok(old)), rest));
            let wrap2 = |l: ResolveView|
                RenameView::Target { lookup: l, olddirfd: old, oldname: from, newname: to, flags };
            let after2 = |r: Result<i32, ErrorView>|
                match r {
                    Ok(newdirfd) => Next::<RenameView, ()>::Call(
                        RenameView::Final { olddirfd: old, newdirfd },
                        RequestView::Renameat2 {
                            olddirfd: old,
                            oldname: from,
                            newdirfd,
                            newname: to,
                            flags,
                        },
                    ),
                    Err(error) => Next::<RenameView, ()>::Done(
                        Err(error.wrapped(target_context())),
                    ),
                };
            assert forall|l: ResolveView, reply: ReplyView| #![trigger lookup(l, reply)] step(
                wrap2(l),
                reply,
            ) == lifted(lookup(l, reply), wrap2, after2) by {}
            let begun2 = ResolveView::start(root, newparent);
            lemma_run_inside(lookup, step, wrap2, after2, begun2, rest);
            assert(after(Ok(old)) == lifted(begun2, wrap2, after2));
            let rest2 = rest.skip(used(lookup, begun2, rest) as int);
            if let Next::Done(Ok(new)) = run(lookup, begun2, rest) {
                assert(end == run(step, after2(Ok(new)), rest2));
                assert(rest2.len() > 0);
                assert(verdict(step, after2(Ok(new)), rest2) == Some(
                    (
                        RequestView::Renameat2 {
                            olddirfd: old,
                            oldname: from,
                            newdirfd: new,
                            newname: to,
                            flags,
                        },
                        rest2[0],
                    ),
                ));
            }
        }
    }
}

/// Whatever the replies are, a rename that is going on holds the descriptors
/// that the exchanges have left open; when it is over, what is left open is
/// what it held last and what the last reply opened.
pub proof fn lemma_rename_run_holds(
    root: RootView,
    source: Seq<u8>,
    destination: Seq<u8>,
    flags: i32,
    replies: Seq<ReplyView>,
)
    ensures
        ({
            let step = |s: RenameView, reply: ReplyView| s.step(root, reply);
            let start = RenameView::start(root, source, destination, flags);
            let open = counted(step, start, replies, Multiset::empty());
            &&& run(step, start, replies) matches Next::Call(state, _) ==> open == state.held()
            &&& verdict(step, start, replies) matches Some((_, reply)) ==> exists|s: RenameView|
                s.wf() && #[trigger] s.step(root, reply) == run(step, start, replies) && open
                    == s.held().add(opened(reply))
        }),
{
    let step = |s: RenameView, reply: ReplyView| s.step(root, reply);
    let inv = |s: RenameView| s.wf();
    let holds = |s: RenameView| s.held();
    let start = RenameView::start(root, source, destination, flags);
    assert forall|s: RenameView, reply: ReplyView| #![trigger step(s, reply)] inv(s) implies (step(
        s,
        reply,
    ) matches Next::Call(next, asked) ==> inv(next) && holds(next) == track(
        holds(s),
        reply,
        asked,
    )) by {
        lemma_rename_step(s, root, reply);
    }
    lemma_run_counts(step, inv, holds, start, replies, Multiset::empty());
    if let Some((_, reply)) = verdict(step, start, replies) {
        let s = choose|s: RenameView|
            inv(s) && #[trigger] step(s, reply) == run(step, start, replies) && counted(
                step,
                start,
                replies,
                Multiset::empty(),
            ) == holds(s).add(opened(reply));
        assert(s.wf() && s.step(root, reply) == run(step, start, replies));
    }
}

/// Whatever the replies are, a rename is over after more of them than its
/// first state has fuel.
pub proof fn lemma_rename_terminates(
    root: RootView,
    source: Seq<u8>,
    destination: Seq<u8>,
    flags: i32,
    replies: Seq<ReplyView>,
)
    requires
        replies.len() > (RenameView::Check { source, destination, flags }).fuel(),
    ensures
        run(
            |s: RenameView, reply: ReplyView| s.step(root, reply),
            RenameView::start(root, source, destination, flags),
            replies,
        ) is Done,
{
    let step = |s: RenameView, reply: ReplyView| s.step(root, reply);
    assert forall|s: RenameView, reply: ReplyView| #![trigger step(s, reply)] s.wf() implies (step(
        s,
        reply,
    ) matches Next::Call(next, _) ==> next.wf() && next.fuel() < s.fuel()) by {
        lemma_rename_step(s, root, reply);
    }
    lemma_run_ends(
        step,
        |s: RenameView| s.wf(),
        |s: RenameView| s.fuel(),
        RenameView::start(root, source, destination, flags),
        replies,
    );
}

enum State {
    Check { source: Vec<u8>, destination: Vec<u8>, flags: i32 },
    Source { lookup: Resolve, oldname: Vec<u8>, newparent: Vec<u8>, newname: Vec<u8>, flags: i32 },
    Target { lookup: Resolve, olddirfd: i32, oldname: Vec<u8>, newname: Vec<u8>, flags: i32 },
    Final { olddirfd: i32, newdirfd: i32 },
}

/// The rename of one entry inside a root.
pub struct Rename {
    state: State,
}

impl View for Rename {
    type V = RenameView;

    closed spec fn view(&self) -> RenameView {
        match self.state {
            State::Check { source, destination, flags } => RenameView::Check {
                source: source@,
                destination: destination@,
                flags,
            },
            State::Source { lookup, oldname, newparent, newname, flags } => RenameView::Source {
                lookup: lookup@,
                oldname: oldname@,
                newparent: newparent@,
                newname: newname@,
                flags,
            },
            State::Target { lookup, olddirfd, oldname, newname, flags } => RenameView::Target {
                lookup: lookup@,
                olddirfd,
                oldname: oldname@,
                newname: newname@,
                flags,
            },
            State::Final { olddirfd, newdirfd } => RenameView::Final { olddirfd, newdirfd },
        }
    }
}

impl Root {
    /// Begins to rename `source` to `destination` inside this root. The
    /// flags are those of `renameat2(2)`.
    ///
    /// The rename fails as `renameat2(2)` does.
    pub fn rename(&self, source: &[u8], destination: &[u8], flags: RenameFlags) -> (r: Step<
        Rename,
        (),
    >)
        ensures
            r@ == RenameView::start(self@, source@, destination@, flags.0),
            r@.names_clean(),
            r matches Step::Call(renaming, _) && renaming@.wf(),
    {
        Step::Call(
            Rename {
                state: State::Check {
                    source: copy(source),
                    destination: copy(destination),
                    flags: flags.0,
                },
            },
            Request::Readback { fd: self.as_raw_fd() },
        )
    }
}

impl Rename {
    #[verifier::type_invariant]
    spec fn inv(self) -> bool {
        self@.wf()
    }

    /// Splits both paths and begins the lookup of the parent directory of
    /// the source.
    fn begin(root: &Root, source: &[u8], destination: &[u8], flags: i32) -> (r: Step<Rename, ()>)
        ensures
            r@ == RenameView::begin(root@, source@, destination@, flags),
    {
        proof {
            lemma_split_is_safe(source@);
            lemma_split_is_safe(destination@);
        }
        let (oldparent, oldname) = match path_split(source) {
            Err(error) => {
                return Step::Done(Err(error.wrap("split source path into (parent, name)")));
            },
            Ok(parts) => parts,
        };
        let (newparent, newname) = match path_split(destination) {
            Err(error) => {
                return Step::Done(Err(error.wrap("split target path into (parent, name)")));
            },
            Ok(parts) => parts,
        };
        let (lookup, request) = Resolve::begin(root, oldparent);
        Step::Call(
            Rename {
                state: State::Source {
                    lookup,
                    oldname: copy(oldname),
                    newparent: copy(newparent),
                    newname: copy(newname),
                    flags,
                },
            },
            request,
        )
    }

    /// Goes on with the reply to the last request of the rename.
    ///
    /// The rename succeeds if and only if the `renameat2` call between the
    /// two resolved parent directories did.
    pub fn step(self, root: &Root, reply: Reply) -> (r: Step<Rename, ()>)
        ensures
            r@ == self@.step(root@, reply@),
            self@.wf(),
            r@.names_clean(),
            r matches Step::Call(renaming, asked) ==> renaming@.wf() && renaming@.fuel()
                < self@.fuel() && renaming@.held() == track(self@.held(), reply@, asked@),
            r matches Step::Done(Ok(_)) ==> self@ is Final && reply@ == ReplyView::Done,
    {
        proof {
            use_type_invariant(&self);
            lemma_rename_step(self@, root@, reply@);
        }
        match self.state {
            State::Check { source, destination, flags } => match root.check(&reply) {
                Err(error) => Step::Done(Err(error)),
                Ok(()) => Rename::begin(root, source.as_slice(), destination.as_slice(), flags),
            },
            State::Source { lookup, oldname, newparent, newname, flags } => match lookup.step(
                root,
                reply,
            ) {
                Step::Call(lookup, request) => Step::Call(
                    Rename { state: State::Source { lookup, oldname, newparent, newname, flags } },
                    request,
                ),
                Step::Done(Err(error)) => Step::Done(
                    Err(error.wrap("resolve source path for rename")),
                ),
                Step::Done(Ok(parent)) => {
                    let (lookup, request) = Resolve::begin(root, newparent.as_slice());
                    Step::Call(
                        Rename {
                            state: State::Target {
                                lookup,
                                olddirfd: parent.as_raw_fd(),
                                oldname,
                                newname,
                                flags,
                            },
                        },
                        request,
                    )
                },
            },
            State::Target { lookup, olddirfd, oldname, newname, flags } => match lookup.step(
                root,
                reply,
            ) {
                Step::Call(lookup, request) => Step::Call(
                    Rename { state: State::Target { lookup, olddirfd, oldname, newname, flags } },
                    request,
                ),
                Step::Done(Err(error)) => Step::Done(
                    Err(error.wrap("resolve target path for rename")),
                ),
                Step::Done(Ok(parent)) => Step::Call(
                    Rename { state: State::Final { olddirfd, newdirfd: parent.as_raw_fd() } },
                    Request::Renameat2 {
                        olddirfd,
                        oldname,
                        newdirfd: parent.as_raw_fd(),
                        newname,
                        flags,
                    },
                ),
            },
            State::Final { .. } => match reply {
                Reply::Done => Step::Done(Ok(())),
                _ => Step::Done(Err(fail(&reply, Syscall::Renameat2, "pathrs rename"))),
            },
        }
    }
}

} // verus!
