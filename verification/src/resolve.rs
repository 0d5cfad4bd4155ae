//! Resolving a path inside a root.
//!
//! A lookup first checks that the root is still where it was opened, and then
//! hands the path to the backend the root selects: the kernel's, which is one
//! scoped `openat2` call, or the emulated one, which is a [`Walk`].

use crate::error::{Error, ErrorView, Syscall};
use crate::path::{dotdot, ordinary, within, SEPARATOR};
use crate::root::{Handle, Resolver, Root, RootView};
use crate::sys::{
    copy, counted, fail, failure, is_symlink, lemma_run_counts, lemma_run_ends, lemma_run_keeps,
    opened, resolve_flags, run, scoped_resolve_flags, track, verdict, Next, Reply, ReplyView,
    Request, RequestView, Stat, Step,
};
use vstd::multiset::Multiset;
use crate::walk::{
    lemma_head_last, lemma_head_of, lemma_walk_arrives, lemma_walk_clamp, lemma_walk_enters,
    lemma_walk_skips, lemma_walk_step, Stage, Walk, WalkView, MAX_LINK_BYTES,
};
use vstd::prelude::*;

verus! {

/// The mathematical value of a [`Resolve`].
pub enum ResolveView {
    /// Waiting for the path of the root's descriptor; `path` is to be
    /// resolved once the root is found valid.
    Check { path: Seq<u8> },
    /// Waiting for the descriptor of the kernel's scoped lookup.
    Kernel,
    /// In the middle of an emulated walk.
    Emulated(WalkView),
}

impl ResolveView {
    /// The limits of the walk hold, if the lookup is in one.
    pub open spec fn wf(self) -> bool {
        self matches ResolveView::Emulated(walk) ==> walk.wf()
    }

    /// A step of a walk as a step of the lookup that runs it.
    pub open spec fn lift(next: Next<WalkView, i32>) -> Next<ResolveView, i32> {
        match next {
            Next::Call(walk, request) => Next::Call(ResolveView::Emulated(walk), request),
            Next::Done(result) => Next::Done(result),
        }
    }

    /// How a lookup begins: by asking for the path of the root's descriptor.
    pub open spec fn start(root: RootView, path: Seq<u8>) -> Next<ResolveView, i32> {
        Next::Call(ResolveView::Check { path }, RequestView::Readback { fd: root.fd })
    }

    /// What the lookup does with the reply to its last request.
    pub open spec fn step(self, root: RootView, reply: ReplyView) -> Next<ResolveView, i32> {
        match self {
            ResolveView::Check { path } => match root.check(reply) {
                Err(error) => Next::Done(Err(error)),
                Ok(()) => match root.resolver {
                    Resolver::Kernel => Next::Call(
                        ResolveView::Kernel,
                        RequestView::Openat2 {
                            dirfd: root.fd,
                            path,
                            resolve: scoped_resolve_flags(),
                        },
                    ),
                    Resolver::Emulated => ResolveView::lift(WalkView::start(root, path)),
                },
            },
            ResolveView::Kernel => match reply {
                ReplyView::Fd(fd) => Next::Done(Ok(fd)),
                _ => Next::Done(
                    Err(failure(reply, Syscall::Openat2, "openat2 one-shot resolve"@)),
                ),
            },
            ResolveView::Emulated(walk) => ResolveView::lift(walk.step(root, reply)),
        }
    }

    /// What holds of a lookup of `path` and of the request it waits for, at
    /// every point: the root is read back first, the kernel is asked for
    /// the whole path with the scoping flags, and a walk that waits to be
    /// verified has asked for the path of the descriptor it ended at.
    pub open spec fn pending(self, root: RootView, path: Seq<u8>, request: RequestView) -> bool {
        &&& self.wf()
        &&& request.names_clean()
        &&& match self {
            ResolveView::Check { path: asked } => asked == path && request == (
            RequestView::Readback { fd: root.fd }),
            ResolveView::Kernel => root.resolver == Resolver::Kernel && request == (
            RequestView::Openat2 { dirfd: root.fd, path, resolve: scoped_resolve_flags() }),
            ResolveView::Emulated(walk) => root.resolver == Resolver::Emulated && (walk.stage
                == Stage::Verify ==> request == (RequestView::Readback { fd: walk.cur })),
        }
    }

    /// The descriptors the lookup holds: those of its walk.
    pub open spec fn held(self) -> Multiset<i32> {
        match self {
            ResolveView::Emulated(walk) => walk.held(),
            _ => Multiset::empty(),
        }
    }

    /// A bound on the number of requests the lookup can still make.
    pub open spec fn fuel(self) -> nat {
        match self {
            ResolveView::Check { path } => ((path.len() + MAX_LINK_BYTES) * 7 + 3) as nat,
            ResolveView::Kernel => 0,
            ResolveView::Emulated(walk) => walk.fuel(),
        }
    }

    /// The most requests a lookup of `path` makes, its first one included.
    pub open spec fn budget(path: Seq<u8>) -> nat {
        ((path.len() + MAX_LINK_BYTES) * 7 + 4) as nat
    }
}

/// What every step of a lookup keeps.
///
/// No request names more than one directory entry, the limits of the walk
/// hold on, and with every request the bound on the requests the lookup can
/// still make gets smaller. The lookup holds the descriptors it held before,
/// and the one the reply opened, without the one it now asks to be closed.
///
/// A lookup succeeds in two ways only. The kernel's backend hands on the
/// descriptor that the scoped `openat2` call returned. The emulated backend
/// hands on the descriptor its walk ended at, and only if the path read back
/// from it is the path of the root or lies below it. Either way the handle is
/// the one descriptor the lookup still holds.
pub proof fn lemma_resolve_step(s: ResolveView, root: RootView, reply: ReplyView)
    requires
        s.wf(),
    ensures
        s.step(root, reply).names_clean(),
        s.step(root, reply) matches Next::Call(next, asked) ==> {
            &&& next.wf()
            &&& next.fuel() < s.fuel()
            &&& next.held() == track(s.held(), reply, asked)
            &&& asked matches RequestView::Close { fd } ==> s.held().count(fd) > 0
        },
        s.step(root, reply) matches Next::Done(Ok(fd)) ==> {
            &&& s.held().add(opened(reply)) == Multiset::singleton(fd)
            &&& match s {
                ResolveView::Check { .. } => false,
                ResolveView::Kernel => reply == ReplyView::Fd(fd),
                ResolveView::Emulated(walk) => walk.stage == Stage::Verify && fd == walk.cur && (
                reply matches ReplyView::Bytes(actual) && within(root.path, actual)),
            }
        },
{
    broadcast use vstd::multiset::group_multiset_axioms;

    if let ResolveView::Emulated(walk) = s {
        lemma_walk_step(walk, root, reply);
    }
    if let Next::Call(next, asked) = s.step(root, reply) {
        assert(next.held() =~= track(s.held(), reply, asked));
    }
    if let Next::Done(Ok(fd)) = s.step(root, reply) {
        assert(s.held().add(opened(reply)) =~= Multiset::singleton(fd));
    }
}

/// Whatever the replies are, the lookup of a path is over after as many of
/// them as its budget.
pub proof fn lemma_resolve_terminates(root: RootView, path: Seq<u8>, replies: Seq<ReplyView>)
    requires
        replies.len() >= ResolveView::budget(path),
    ensures
        run(
            |s: ResolveView, reply: ReplyView| s.step(root, reply),
            ResolveView::start(root, path),
            replies,
        ) is Done,
{
    let step = |s: ResolveView, reply: ReplyView| s.step(root, reply);
    assert forall|s: ResolveView, reply: ReplyView| #![trigger step(s, reply)] s.wf() implies (
    step(s, reply) matches Next::Call(next, _) ==> next.wf() && next.fuel() < s.fuel()) by {
        lemma_resolve_step(s, root, reply);
    }
    lemma_run_ends(
        step,
        |s: ResolveView| s.wf(),
        |s: ResolveView| s.fuel(),
        ResolveView::start(root, path),
        replies,
    );
}

/// What holds of a lookup and its request at one point holds at the next.
pub proof fn lemma_resolve_pending(
    s: ResolveView,
    root: RootView,
    path: Seq<u8>,
    request: RequestView,
    reply: ReplyView,
)
    requires
        s.pending(root, path, request),
    ensures
        s.step(root, reply) matches Next::Call(next, asked) ==> next.pending(root, path, asked),
{
    lemma_resolve_step(s, root, reply);
    if let ResolveView::Emulated(walk) = s {
        lemma_walk_step(walk, root, reply);
    }
}

/// Containment. Whatever the replies are, a lookup that ends with a
/// descriptor got it in one of two ways. With the kernel's backend, it is the
/// answer to one scoped `openat2` of the whole path, relative to the root and
/// with the flags that keep the kernel inside the root, off magic links and
/// on the device of the root. With the emulated backend, it is the descriptor
/// whose path was read back last, and that path is the path of the root or
/// lies below it.
pub proof fn lemma_resolve_run_contained(root: RootView, path: Seq<u8>, replies: Seq<ReplyView>)
    ensures
        ({
            let step = |s: ResolveView, reply: ReplyView| s.step(root, reply);
            let end = run(step, ResolveView::start(root, path), replies);
            let last = verdict(step, ResolveView::start(root, path), replies);
            &&& end.names_clean()
            &&& end matches Next::Done(Ok(fd)) ==> replies.len() > 0 && replies[0]
                == ReplyView::Bytes(root.path)
            &&& end matches Next::Done(Ok(fd)) ==> match root.resolver {
                Resolver::Kernel => last == Some(
                    (
                        RequestView::Openat2 {
                            dirfd: root.fd,
                            path,
                            resolve: scoped_resolve_flags(),
                        },
                        ReplyView::Fd(fd),
                    ),
                ),
                Resolver::Emulated => last matches Some(
                    (RequestView::Readback { fd: read }, ReplyView::Bytes(actual)),
                ) && read == fd && within(root.path, actual),
            }
        }),
{
    let step = |s: ResolveView, reply: ReplyView| s.step(root, reply);
    let inv = |s: ResolveView, request: RequestView| s.pending(root, path, request);
    let start = ResolveView::start(root, path);
    assert forall|s: ResolveView, request: RequestView, reply: ReplyView|
        #![trigger inv(s, request), step(s, reply)]
        inv(s, request) implies (step(s, reply) matches Next::Call(next, asked) ==> inv(
        next,
        asked,
    )) by {
        lemma_resolve_pending(s, root, path, request, reply);
    }
    lemma_run_keeps(step, inv, start, replies);
    let end = run(step, start, replies);
    if let Next::Done(Ok(fd)) = end {
        let (request, reply) = verdict(step, start, replies).unwrap();
        let s = choose|s: ResolveView| inv(s, request) && #[trigger] step(s, reply) == end;
        lemma_resolve_step(s, root, reply);
        let first = step(ResolveView::Check { path }, replies[0]);
        assert(end == run(step, first, replies.skip(1)));
    }
}

/// Release. Whatever the replies are, a lookup that is going on holds the
/// descriptors that the exchanges have left open, and a lookup that ended
/// with a handle has left nothing open but the handle: every descriptor it
/// opened on the way was closed at its request.
pub proof fn lemma_resolve_run_releases(root: RootView, path: Seq<u8>, replies: Seq<ReplyView>)
    ensures
        ({
            let step = |s: ResolveView, reply: ReplyView| s.step(root, reply);
            let start = ResolveView::start(root, path);
            let end = run(step, start, replies);
            let open = counted(step, start, replies, Multiset::empty());
            &&& end matches Next::Call(lookup, _) ==> open == lookup.held()
            &&& end matches Next::Done(Ok(fd)) ==> open == Multiset::singleton(fd)
        }),
{
    let step = |s: ResolveView, reply: ReplyView| s.step(root, reply);
    let inv = |s: ResolveView| s.wf();
    let holds = |s: ResolveView| s.held();
    let start = ResolveView::start(root, path);
    assert forall|s: ResolveView, reply: ReplyView| #![trigger step(s, reply)] inv(s) implies (
    step(s, reply) matches Next::Call(next, asked) ==> inv(next) && holds(next) == track(
        holds(s),
        reply,
        asked,
    )) by {
        lemma_resolve_step(s, root, reply);
    }
    lemma_run_counts(step, inv, holds, start, replies, Multiset::empty());
    lemma_run_keeps(step, |s: ResolveView, request: RequestView| true, start, replies);
    let end = run(step, start, replies);
    if let Next::Done(Ok(fd)) = end {
        let (request, reply) = verdict(step, start, replies).unwrap();
        let s = choose|s: ResolveView|
            inv(s) && #[trigger] step(s, reply) == end && counted(
                step,
                start,
                replies,
                Multiset::empty(),
            ) == holds(s).add(opened(reply));
        lemma_resolve_step(s, root, reply);
    }
}

/// Reaching an entry. With the emulated backend, the lookup of `/a/b` ends
/// with the descriptor of `b`, for any two ordinary names `a` and `b`, when
/// the kernel answers as it does for a tree in which neither is a symbolic
/// link and both live on the device of the root: the root is found valid and
/// identified, `a` is opened in a duplicate of the root and entered, `b` is
/// opened in `a` and entered, and the path read back from the descriptor of
/// `b` is the path of the root or lies below it.
pub proof fn lemma_resolve_reaches(
    root: RootView,
    a: Seq<u8>,
    b: Seq<u8>,
    at_root: Stat,
    anchor: i32,
    first: i32,
    at_first: Stat,
    second: i32,
    at_second: Stat,
    actual: Seq<u8>,
)
    requires
        root.resolver == Resolver::Emulated,
        ordinary(a),
        ordinary(b),
        at_first.dev == at_root.dev,
        at_second.dev == at_root.dev,
        !is_symlink(at_first.mode),
        !is_symlink(at_second.mode),
        within(root.path, actual),
    ensures
        run(
            |s: ResolveView, reply: ReplyView| s.step(root, reply),
            ResolveView::start(root, seq![SEPARATOR] + a + seq![SEPARATOR] + b),
            seq![
                ReplyView::Bytes(root.path),
                ReplyView::Stat(at_root),
                ReplyView::Fd(anchor),
                ReplyView::Fd(first),
                ReplyView::Stat(at_first),
                ReplyView::Done,
                ReplyView::Fd(second),
                ReplyView::Stat(at_second),
                ReplyView::Done,
                ReplyView::Bytes(actual),
            ],
        ) == Next::<ResolveView, i32>::Done(Ok(second)),
{
    let step = |s: ResolveView, reply: ReplyView| s.step(root, reply);
    let path = seq![SEPARATOR] + a + seq![SEPARATOR] + b;
    let replies = seq![
        ReplyView::Bytes(root.path),
        ReplyView::Stat(at_root),
        ReplyView::Fd(anchor),
        ReplyView::Fd(first),
        ReplyView::Stat(at_first),
        ReplyView::Done,
        ReplyView::Fd(second),
        ReplyView::Stat(at_second),
        ReplyView::Done,
        ReplyView::Bytes(actual),
    ];
    // The states of the walk, one after the other.
    let w0 = WalkView::initial(root, path);
    let w1 = WalkView { stage: Stage::Anchor, root_dev: at_root.dev, root_ino: at_root.ino, ..w0 };
    let inner = a + seq![SEPARATOR] + b;
    assert(path =~= seq![SEPARATOR] + inner);
    let v = WalkView { rest: inner, ..w1.inside(anchor, at_root.ino) };
    lemma_walk_skips(v, inner);
    assert(w1.inside(anchor, at_root.ino) == WalkView { rest: seq![SEPARATOR] + inner, ..v });
    lemma_head_of(a, b);
    lemma_walk_enters(v, root, first, at_first);
    let open1 = WalkView { rest: b, stage: Stage::Open, ..v };
    let inspect1 = open1.at(Stage::Inspect { next: first });
    let leave1 = open1.at(Stage::Leave { next: first, ino: at_first.ino });
    let u = leave1.inside(first, at_first.ino);
    lemma_head_last(b);
    lemma_walk_enters(u, root, second, at_second);
    let open2 = WalkView { rest: Seq::<u8>::empty(), stage: Stage::Open, ..u };
    let inspect2 = open2.at(Stage::Inspect { next: second });
    let leave2 = open2.at(Stage::Leave { next: second, ino: at_second.ino });
    let z = leave2.inside(second, at_second.ino);
    lemma_walk_arrives(z, root, actual);
    // The steps of the lookup.
    let n1 = step(ResolveView::Check { path }, replies[0]);
    assert(n1 == Next::<ResolveView, i32>::Call(
        ResolveView::Emulated(w0),
        RequestView::Fstatat { dirfd: root.fd, name: Seq::empty() },
    ));
    let n2 = step(ResolveView::Emulated(w0), replies[1]);
    assert(n2 == Next::<ResolveView, i32>::Call(
        ResolveView::Emulated(w1),
        RequestView::Dup { fd: root.fd },
    ));
    let n3 = step(ResolveView::Emulated(w1), replies[2]);
    assert(n3 == ResolveView::lift(v.advance()));
    let n4 = step(ResolveView::Emulated(open1), replies[3]);
    let n5 = step(ResolveView::Emulated(inspect1), replies[4]);
    let n6 = step(ResolveView::Emulated(leave1), replies[5]);
    assert(n6 == ResolveView::lift(u.advance()));
    let n7 = step(ResolveView::Emulated(open2), replies[6]);
    let n8 = step(ResolveView::Emulated(inspect2), replies[7]);
    let n9 = step(ResolveView::Emulated(leave2), replies[8]);
    assert(n9 == ResolveView::lift(z.advance()));
    let n10 = step(ResolveView::Emulated(z.at(Stage::Verify)), replies[9]);
    assert(n10 == Next::<ResolveView, i32>::Done(Ok(second)));
    // The run over the replies.
    let t1 = replies.skip(1);
    let t2 = t1.skip(1);
    let t3 = t2.skip(1);
    let t4 = t3.skip(1);
    let t5 = t4.skip(1);
    let t6 = t5.skip(1);
    let t7 = t6.skip(1);
    let t8 = t7.skip(1);
    let t9 = t8.skip(1);
    let t10 = t9.skip(1);
    assert(run(step, n10, t10) == n10);
    assert(t9[0] == replies[9]);
    assert(run(step, n9, t9) == run(step, n10, t10));
    assert(t8[0] == replies[8]);
    assert(run(step, n8, t8) == run(step, n9, t9));
    assert(t7[0] == replies[7]);
    assert(run(step, n7, t7) == run(step, n8, t8));
    assert(t6[0] == replies[6]);
    assert(run(step, n6, t6) == run(step, n7, t7));
    assert(t5[0] == replies[5]);
    assert(run(step, n5, t5) == run(step, n6, t6));
    assert(t4[0] == replies[4]);
    assert(run(step, n4, t4) == run(step, n5, t5));
    assert(t3[0] == replies[3]);
    assert(run(step, n3, t3) == run(step, n4, t4));
    assert(t2[0] == replies[2]);
    assert(run(step, n2, t2) == run(step, n3, t3));
    assert(t1[0] == replies[1]);
    assert(run(step, n1, t1) == run(step, n2, t2));
    assert(run(step, ResolveView::start(root, path), replies) == run(step, n1, t1));
}

/// The clamp. With the emulated backend, the lookup of `/../` and a path
/// agrees with the lookup of `/` and the path: whatever the replies are, once
/// the walk is anchored in the root the two are in the same state with the
/// same request, and where one has ended the other has ended with the same
/// result. `..` in the root leads nowhere else than the root.
pub proof fn lemma_resolve_clamp(root: RootView, rest: Seq<u8>, replies: Seq<ReplyView>)
    requires
        root.resolver == Resolver::Emulated,
    ensures
        ({
            let step = |s: ResolveView, reply: ReplyView| s.step(root, reply);
            let long = seq![SEPARATOR] + dotdot() + seq![SEPARATOR] + rest;
            let short = seq![SEPARATOR] + rest;
            let above = run(step, ResolveView::start(root, long), replies);
            let inside = run(step, ResolveView::start(root, short), replies);
            &&& above is Done <==> inside is Done
            &&& replies.len() >= 3 || above is Done ==> above == inside
            &&& above matches Next::Call(_, asked) ==> inside matches Next::Call(_, same)
                && asked == same
        }),
{
    let step = |s: ResolveView, reply: ReplyView| s.step(root, reply);
    let long = seq![SEPARATOR] + dotdot() + seq![SEPARATOR] + rest;
    let short = seq![SEPARATOR] + rest;
    let above = run(step, ResolveView::start(root, long), replies);
    let inside = run(step, ResolveView::start(root, short), replies);
    if replies.len() >= 1 {
        let a1 = step(ResolveView::Check { path: long }, replies[0]);
        let b1 = step(ResolveView::Check { path: short }, replies[0]);
        let t1 = replies.skip(1);
        assert(above == run(step, a1, t1));
        assert(inside == run(step, b1, t1));
        if let Next::Call(ResolveView::Emulated(wa), _) = a1 {
            let wb = WalkView::initial(root, short);
            assert(b1 == Next::<ResolveView, i32>::Call(
                ResolveView::Emulated(wb),
                RequestView::Fstatat { dirfd: root.fd, name: Seq::empty() },
            ));
            if t1.len() >= 1 {
                let a2 = step(ResolveView::Emulated(wa), t1[0]);
                let b2 = step(ResolveView::Emulated(wb), t1[0]);
                let t2 = t1.skip(1);
                assert(above == run(step, a2, t2));
                assert(inside == run(step, b2, t2));
                if let Next::Call(ResolveView::Emulated(va), _) = a2 {
                    let vb = b2->Call_0->Emulated_0;
                    assert(va == WalkView { rest: long, ..vb });
                    assert(vb.rest == short);
                    if t2.len() >= 1 {
                        let a3 = step(ResolveView::Emulated(va), t2[0]);
                        let b3 = step(ResolveView::Emulated(vb), t2[0]);
                        let t3 = t2.skip(1);
                        assert(above == run(step, a3, t3));
                        assert(inside == run(step, b3, t3));
                        if let ReplyView::Fd(fd) = t2[0] {
                            lemma_walk_clamp(vb, root, fd, rest);
                            assert(va == WalkView { rest: long, ..vb });
                            assert(vb == WalkView { rest: short, ..vb });
                        }
                        assert(a3 == b3);
                    }
                }
            }
        }
    }
}

/// A lookup goes on to its backend only from a root that was found valid:
/// the path read back from the root's descriptor is the path the root was
/// opened at.
pub proof fn lemma_resolve_checks_root(s: ResolveView, root: RootView, reply: ReplyView)
    requires
        s is Check,
    ensures
        s.step(root, reply) is Call <==> reply == ReplyView::Bytes(root.path),
        !(reply == ReplyView::Bytes(root.path)) && reply is Bytes ==> s.step(root, reply)
            == Next::<ResolveView, i32>::Done(Err(crate::root::root_moved())),
{
}

enum State {
    Check { path: Vec<u8> },
    Kernel,
    Emulated(Walk),
}

/// The lookup of one path inside a root.
pub struct Resolve {
    state: State,
}

impl View for Resolve {
    type V = ResolveView;

    closed spec fn view(&self) -> ResolveView {
        match self.state {
            State::Check { path } => ResolveView::Check { path: path@ },
            State::Kernel => ResolveView::Kernel,
            State::Emulated(walk) => ResolveView::Emulated(walk@),
        }
    }
}

impl Root {
    /// Begins to resolve `path` inside this root. Every symbolic link on the
    /// way is scoped to the root.
    ///
    /// The lookup ends with a [`Handle`], or with an error if the path does
    /// not exist or an attack was detected.
    pub fn resolve(&self, path: &[u8]) -> (r: Step<Resolve, Handle>)
        ensures
            r@ == ResolveView::start(self@, path@),
            r@.names_clean(),
            r matches Step::Call(lookup, _) && lookup@.wf() && lookup@.fuel() < ResolveView::budget(
                path@,
            ),
    {
        let (lookup, request) = Resolve::begin(self, path);
        Step::Call(lookup, request)
    }
}

impl Resolve {
    #[verifier::type_invariant]
    spec fn inv(self) -> bool {
        self@.wf()
    }

    /// The first state and the first request of a lookup of `path`.
    pub(crate) fn begin(root: &Root, path: &[u8]) -> (r: (Resolve, Request))
        ensures
            r.0@ == (ResolveView::Check { path: path@ }),
            r.1@ == (RequestView::Readback { fd: root@.fd }),
            r.0@.wf(),
    {
        (
            Resolve { state: State::Check { path: copy(path) } },
            Request::Readback { fd: root.as_raw_fd() },
        )
    }

    fn lift(next: Step<Walk, Handle>) -> (r: Step<Resolve, Handle>)
        requires
            next matches Step::Call(walk, _) ==> walk@.wf(),
        ensures
            r@ == ResolveView::lift(next@),
    {
        match next {
            Step::Call(walk, request) => Step::Call(
                Resolve { state: State::Emulated(walk) },
                request,
            ),
            Step::Done(Ok(handle)) => Step::Done(Ok(handle)),
            Step::Done(Err(error)) => Step::Done(Err(error)),
        }
    }

    /// Goes on with the reply to the last request of the lookup.
    pub fn step(self, root: &Root, reply: Reply) -> (r: Step<Resolve, Handle>)
        ensures
            r@ == self@.step(root@, reply@),
            self@.wf(),
            r@.names_clean(),
            r matches Step::Call(lookup, asked) ==> lookup@.wf() && lookup@.fuel() < self@.fuel()
                && lookup@.held() == track(self@.held(), reply@, asked@),
            r matches Step::Done(Ok(handle)) ==> self@.held().add(opened(reply@))
                == Multiset::singleton(handle@),
    {
        proof {
            use_type_invariant(&self);
            lemma_resolve_step(self@, root@, reply@);
        }
        match self.state {
            State::Check { path } => match root.check(&reply) {
                Err(error) => Step::Done(Err(error)),
                Ok(()) => match root.resolver() {
                    Resolver::Kernel => Step::Call(
                        Resolve { state: State::Kernel },
                        Request::Openat2 {
                            dirfd: root.as_raw_fd(),
                            path,
                            resolve: resolve_flags(),
                        },
                    ),
                    Resolver::Emulated => Resolve::lift(Walk::start(root, path.as_slice())),
                },
            },
            State::Kernel => match reply {
                Reply::Fd(fd) => Step::Done(Ok(Handle::new(fd))),
                _ => Step::Done(Err(fail(&reply, Syscall::Openat2, "openat2 one-shot resolve"))),
            },
            State::Emulated(walk) => Resolve::lift(walk.step(root, reply)),
        }
    }
}

} // verus!
