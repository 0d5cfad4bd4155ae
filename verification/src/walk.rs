//! The emulated resolver: a walk in user space, one component at a time.
//!
//! The walk keeps one *current* directory descriptor, at first a duplicate of
//! the root's, and the bytes of the path that are still to be walked. Each
//! component is opened relative to the current descriptor under a name
//! without a separator. A symbolic link is never followed by the kernel: its
//! target is read and put in front of what is left of the path. `..` at the
//! root stays at the root. Every inode the walk opens has to live on the
//! device of the root, and the path read back from the descriptor it ends at
//! has to be the path of the root or lie below it.

use crate::error::{Error, ErrorView, Syscall};
use crate::path::{
    clean, dot, dotdot, extend, is_absolute, ordinary, path_is_absolute, path_within, within, DOT,
    SEPARATOR,
};
use crate::root::{Handle, Root, RootView};
use crate::sys::{
    closed, fail, failure, is_closed, is_symlink, lemma_run_ends, lemma_run_keeps, mode_is_symlink,
    opened, run, track, Next, Open, Reply, ReplyView, Request, RequestView, Stat, Step,
};
use vstd::multiset::Multiset;
use vstd::prelude::*;
use vstd::slice::{slice_subrange, slice_to_vec};

verus! {

/// The largest number of symbolic links one walk expands.
pub const MAX_SYMLINKS: usize = 40;

/// The largest number of bytes of symbolic link targets one walk expands,
/// each target counted with its terminator.
pub const MAX_LINK_BYTES: usize = 4096;

/// The index at which the component that starts at `i` ends: that of the
/// next separator, or the length of the path.
pub open spec fn head_end(s: Seq<u8>, i: int) -> int
    decreases s.len() - i,
{
    if i < 0 || i >= s.len() || s[i] == SEPARATOR {
        i
    } else {
        head_end(s, i + 1)
    }
}

/// The first component of a path: its bytes up to the first separator.
pub open spec fn head(s: Seq<u8>) -> Seq<u8> {
    s.subrange(0, head_end(s, 0))
}

/// What is left of a path behind its first component and the separator
/// that ends it.
pub open spec fn tail(s: Seq<u8>) -> Seq<u8> {
    let end = head_end(s, 0);
    if end < s.len() {
        s.skip(end + 1)
    } else {
        s.skip(end)
    }
}

/// The component that starts at `i` ends in `i..=len`, and holds no
/// separator.
pub proof fn lemma_head_end(s: Seq<u8>, i: int)
    requires
        0 <= i <= s.len(),
    ensures
        i <= head_end(s, i) <= s.len(),
        clean(s.subrange(i, head_end(s, i))),
        head_end(s, i) < s.len() ==> s[head_end(s, i)] == SEPARATOR,
    decreases s.len() - i,
{
    if i < s.len() && s[i] != SEPARATOR {
        lemma_head_end(s, i + 1);
        let e = head_end(s, i);
        assert forall|k: int| 0 <= k < e - i implies #[trigger] s.subrange(i, e)[k]
            != SEPARATOR by {
            if k > 0 {
                assert(s.subrange(i + 1, e)[k - 1] == s[i + k]);
            }
        }
    }
}

/// The first component of a path is clean, and what is left behind it is
/// shorter than the path unless the path is empty.
pub proof fn lemma_head_tail(s: Seq<u8>)
    ensures
        clean(head(s)),
        s.len() > 0 ==> tail(s).len() < s.len(),
        s.len() == 0 ==> tail(s).len() == 0,
{
    lemma_head_end(s, 0);
}

/// Reading a path from `p` on is reading what is left of it behind `p`.
pub proof fn lemma_head_end_skip(s: Seq<u8>, p: int, i: int)
    requires
        0 <= p <= s.len(),
        0 <= i <= s.len() - p,
    ensures
        head_end(s.skip(p), i) == head_end(s, p + i) - p,
    decreases s.len() - p - i,
{
    let v = s.skip(p);
    if i < v.len() {
        assert(v[i] == s[p + i]);
        if v[i] != SEPARATOR {
            lemma_head_end_skip(s, p, i + 1);
        }
    }
}

/// A clean name in front of a separator is the first component of a path,
/// and what follows the separator is what is left of it.
pub proof fn lemma_head_of(name: Seq<u8>, rest: Seq<u8>)
    requires
        clean(name),
    ensures
        head(name + seq![SEPARATOR] + rest) == name,
        tail(name + seq![SEPARATOR] + rest) == rest,
{
    let s = name + seq![SEPARATOR] + rest;
    lemma_head_end_clean(s, name.len() as int, 0);
    assert(s[name.len() as int] == SEPARATOR);
    assert(head(s) =~= name);
    assert(tail(s) =~= rest);
}

/// A clean name alone is its own first component, and nothing is left
/// behind it.
pub proof fn lemma_head_last(name: Seq<u8>)
    requires
        clean(name),
    ensures
        head(name) == name,
        tail(name) == Seq::<u8>::empty(),
{
    lemma_head_end_clean(name, name.len() as int, 0);
    assert(head(name) =~= name);
    assert(tail(name) =~= Seq::<u8>::empty());
}

/// Over a stretch without a separator, a component ends where the stretch
/// ends, if the path ends there or a separator follows.
pub proof fn lemma_head_end_clean(s: Seq<u8>, n: int, i: int)
    requires
        0 <= i <= n <= s.len(),
        forall|k: int| 0 <= k < n ==> s[k] != SEPARATOR,
        n == s.len() || s[n] == SEPARATOR,
    ensures
        head_end(s, i) == n,
    decreases n - i,
{
    if i < n {
        lemma_head_end_clean(s, n, i + 1);
    }
}

/// What a walk is waiting for.
#[derive(Clone, Copy, Debug, PartialEq, Eq, Structural)]
pub enum Stage {
    /// The device and inode of the root.
    Identify,
    /// A duplicate of the root's descriptor, to walk from.
    Anchor,
    /// The descriptor of the next component.
    Open,
    /// What kind of inode `next` is.
    Inspect { next: i32 },
    /// The current directory to be closed; `next`, with the inode number
    /// `ino`, takes its place.
    Leave { next: i32, ino: u64 },
    /// The target of the symbolic link `next`.
    Link { next: i32 },
    /// The symbolic link to be closed; `reset` if its target is absolute.
    Discard { reset: bool },
    /// The current directory to be closed, to start over from the root.
    Reset,
    /// The path of the descriptor the walk ended at.
    Verify,
}

/// The mathematical value of a [`Walk`].
pub struct WalkView {
    /// What the walk is waiting for.
    pub stage: Stage,
    /// The bytes of the path that are still to be walked.
    pub rest: Seq<u8>,
    /// The device of the root.
    pub root_dev: u64,
    /// The inode number of the root.
    pub root_ino: u64,
    /// The current directory.
    pub cur: i32,
    /// The inode number of the current directory; its device is that of the
    /// root.
    pub cur_ino: u64,
    /// The number of symbolic links expanded so far.
    pub links: usize,
    /// The number of bytes of link targets expanded so far.
    pub bytes: usize,
}

/// The error for an inode on another device than the root.
pub open spec fn mount_crossed() -> ErrorView {
    ErrorView::SafetyViolation { description: "resolution crossed a mount point"@ }
}

/// The error for a walk that ended outside the root.
pub open spec fn escaped() -> ErrorView {
    ErrorView::SafetyViolation { description: "resolved path is outside the root"@ }
}

impl WalkView {
    /// The limits of a walk hold: no more links and bytes are expanded than
    /// a walk may expand.
    pub open spec fn wf(self) -> bool {
        self.links <= MAX_SYMLINKS && self.bytes <= MAX_LINK_BYTES
    }

    /// The state with another stage.
    pub open spec fn at(self, stage: Stage) -> WalkView {
        WalkView { stage, ..self }
    }

    /// The state in another current directory.
    pub open spec fn inside(self, cur: i32, cur_ino: u64) -> WalkView {
        WalkView { cur, cur_ino, ..self }
    }

    /// Whether the current directory is the root.
    pub open spec fn at_root(self) -> bool {
        self.cur_ino == self.root_ino
    }

    /// The walk before its first step.
    pub open spec fn initial(root: RootView, path: Seq<u8>) -> WalkView {
        WalkView {
            stage: Stage::Identify,
            rest: path,
            root_dev: 0,
            root_ino: 0,
            cur: root.fd,
            cur_ino: 0,
            links: 0,
            bytes: 0,
        }
    }

    /// How a walk begins: by asking for the device and inode of the root.
    pub open spec fn start(root: RootView, path: Seq<u8>) -> Next<WalkView, i32> {
        Next::Call(
            WalkView::initial(root, path),
            RequestView::Fstatat { dirfd: root.fd, name: Seq::empty() },
        )
    }

    /// Takes up the next component that needs a system call.
    ///
    /// Empty components and `.` are passed over, and so is `..` in the
    /// root. `..` elsewhere opens the parent as a directory; any other
    /// component is opened without following a symbolic link. When nothing
    /// is left of the path, the walk asks for the path of the descriptor it
    /// ended at.
    pub open spec fn advance(self) -> Next<WalkView, i32>
        decreases self.rest.len(),
    {
        if self.rest.len() == 0 {
            Next::Call(self.at(Stage::Verify), RequestView::Readback { fd: self.cur })
        } else {
            let name = head(self.rest);
            let next = WalkView { rest: tail(self.rest), ..self };
            if name.len() == 0 || name == dot() || (name == dotdot() && self.at_root()) {
                proof {
                    lemma_head_tail(self.rest);
                }
                next.advance()
            } else if name == dotdot() {
                Next::Call(
                    next.at(Stage::Open),
                    RequestView::Openat { dirfd: self.cur, name, how: Open::PathDirectory },
                )
            } else {
                Next::Call(
                    next.at(Stage::Open),
                    RequestView::Openat { dirfd: self.cur, name, how: Open::PathNoFollow },
                )
            }
        }
    }

    /// The walk after the target of a symbolic link was put in front of
    /// what is left of the path.
    pub open spec fn expanded(self, target: Seq<u8>) -> WalkView {
        WalkView {
            stage: Stage::Discard { reset: is_absolute(target) },
            rest: target + seq![SEPARATOR] + self.rest,
            links: (self.links + 1) as usize,
            bytes: (self.bytes + target.len() + 1) as usize,
            ..self
        }
    }

    /// What the walk does with the reply to its last request.
    pub open spec fn step(self, root: RootView, reply: ReplyView) -> Next<WalkView, i32> {
        match self.stage {
            Stage::Identify => match reply {
                ReplyView::Stat(stat) => Next::Call(
                    WalkView {
                        stage: Stage::Anchor,
                        root_dev: stat.dev,
                        root_ino: stat.ino,
                        ..self
                    },
                    RequestView::Dup { fd: root.fd },
                ),
                _ => Next::Done(Err(failure(reply, Syscall::Fstatat, "stat root directory"@))),
            },
            Stage::Anchor => match reply {
                ReplyView::Fd(fd) => self.inside(fd, self.root_ino).advance(),
                _ => Next::Done(
                    Err(failure(reply, Syscall::Dup, "dup root as starting point of resolution"@)),
                ),
            },
            Stage::Open => match reply {
                ReplyView::Fd(next) => Next::Call(
                    self.at(Stage::Inspect { next }),
                    RequestView::Fstatat { dirfd: next, name: Seq::empty() },
                ),
                _ => Next::Done(
                    Err(failure(reply, Syscall::Openat, "open next component of resolution"@)),
                ),
            },
            Stage::Inspect { next } => match reply {
                ReplyView::Stat(stat) => if stat.dev != self.root_dev {
                    Next::Done(Err(mount_crossed()))
                } else if is_symlink(stat.mode) {
                    Next::Call(
                        self.at(Stage::Link { next }),
                        RequestView::Readlinkat { dirfd: next, name: Seq::empty() },
                    )
                } else {
                    Next::Call(
                        self.at(Stage::Leave { next, ino: stat.ino }),
                        RequestView::Close { fd: self.cur },
                    )
                },
                _ => Next::Done(
                    Err(failure(reply, Syscall::Fstatat, "stat next component of resolution"@)),
                ),
            },
            Stage::Leave { next, ino } => if closed(reply) {
                self.inside(next, ino).advance()
            } else {
                Next::Done(Err(failure(reply, Syscall::Close, "close directory of resolution"@)))
            },
            Stage::Link { next } => match reply {
                ReplyView::Bytes(target) => if self.links >= MAX_SYMLINKS {
                    Next::Done(Err(ErrorView::LoopDetected { limit: MAX_SYMLINKS }))
                } else if target.len() >= MAX_LINK_BYTES - self.bytes {
                    Next::Done(Err(ErrorView::TooBig { limit: MAX_LINK_BYTES }))
                } else {
                    Next::Call(self.expanded(target), RequestView::Close { fd: next })
                },
                _ => Next::Done(
                    Err(failure(reply, Syscall::Readlinkat, "read target of symlink component"@)),
                ),
            },
            Stage::Discard { reset } => if !closed(reply) {
                Next::Done(Err(failure(reply, Syscall::Close, "close symlink component"@)))
            } else if reset {
                Next::Call(self.at(Stage::Reset), RequestView::Close { fd: self.cur })
            } else {
                self.advance()
            },
            Stage::Reset => if closed(reply) {
                Next::Call(self.at(Stage::Anchor), RequestView::Dup { fd: root.fd })
            } else {
                Next::Done(Err(failure(reply, Syscall::Close, "close directory of resolution"@)))
            },
            Stage::Verify => match reply {
                ReplyView::Bytes(actual) => if within(root.path, actual) {
                    Next::Done(Ok(self.cur))
                } else {
                    Next::Done(Err(escaped()))
                },
                _ => Next::Done(
                    Err(failure(reply, Syscall::Readback, "get path of resolved handle"@)),
                ),
            },
        }
    }

    /// The descriptors the walk holds: those it opened and has not asked
    /// to be closed.
    pub open spec fn held(self) -> Multiset<i32> {
        match self.stage {
            Stage::Identify => Multiset::empty(),
            Stage::Anchor => Multiset::empty(),
            Stage::Reset => Multiset::empty(),
            Stage::Open => Multiset::singleton(self.cur),
            Stage::Verify => Multiset::singleton(self.cur),
            Stage::Discard { .. } => Multiset::singleton(self.cur),
            Stage::Inspect { next } => Multiset::singleton(self.cur).insert(next),
            Stage::Link { next } => Multiset::singleton(self.cur).insert(next),
            Stage::Leave { next, .. } => Multiset::singleton(next),
        }
    }

    /// How far a stage is from the next component.
    pub open spec fn rank(self) -> nat {
        match self.stage {
            Stage::Verify => 0,
            Stage::Anchor => 1,
            Stage::Reset => 2,
            Stage::Identify => 2,
            Stage::Discard { .. } => 3,
            Stage::Leave { .. } => 3,
            Stage::Link { .. } => 4,
            Stage::Inspect { .. } => 5,
            Stage::Open => 6,
        }
    }

    /// A bound on the number of requests the walk can still make.
    pub open spec fn fuel(self) -> nat {
        ((self.rest.len() + MAX_LINK_BYTES - self.bytes) * 7 + self.rank()) as nat
    }
}

/// Taking up the next component keeps the limits of the walk, asks for no
/// name with a separator, and leaves less to do than there was, unless the
/// walk was only waiting to be verified.
pub proof fn lemma_advance(w: WalkView)
    requires
        w.wf(),
    ensures
        ({
            &&& w.advance() matches Next::Call(next, request)
            &&& next.wf()
            &&& request.names_clean()
            &&& !(request is Close)
            &&& next.root_dev == w.root_dev
            &&& next.root_ino == w.root_ino
            &&& next.cur == w.cur
            &&& next.links == w.links
            &&& next.bytes == w.bytes
            &&& next.stage == Stage::Verify || next.stage == Stage::Open
            &&& next.stage == Stage::Verify ==> next.rest.len() == 0 && request == (
            RequestView::Readback { fd: w.cur })
            &&& next.stage == Stage::Open ==> next.rest.len() < w.rest.len()
        }),
    decreases w.rest.len(),
{
    if w.rest.len() > 0 {
        lemma_head_tail(w.rest);
        let name = head(w.rest);
        let next = WalkView { rest: tail(w.rest), ..w };
        if name.len() == 0 || name == dot() || (name == dotdot() && w.at_root()) {
            lemma_advance(next);
        }
    }
}

/// What every step of a walk keeps.
///
/// No request names more than one directory entry, and the limits of the
/// walk hold on. The walk only succeeds on the descriptor it ended at, and
/// only if the path read back from it is the path of the root or lies below
/// it. Wherever it waits to be verified, it has asked for the path of the
/// descriptor it ended at. With every request, the bound on the requests it
/// can still make gets smaller. It holds the descriptors it held before, and
/// the one the reply opened, without the one it now asks to be closed; when
/// it succeeds, the handle is the one descriptor it still holds.
pub proof fn lemma_walk_step(w: WalkView, root: RootView, reply: ReplyView)
    requires
        w.wf(),
    ensures
        w.step(root, reply).names_clean(),
        w.step(root, reply) matches Next::Call(next, asked) ==> {
            &&& next.wf()
            &&& next.fuel() < w.fuel()
            &&& next.stage == Stage::Verify ==> asked == (RequestView::Readback { fd: next.cur })
            &&& next.held() == track(w.held(), reply, asked)
            &&& asked matches RequestView::Close { fd } ==> w.held().count(fd) > 0
        },
        w.step(root, reply) matches Next::Done(Ok(fd)) ==> {
            &&& w.stage == Stage::Verify
            &&& fd == w.cur
            &&& reply matches ReplyView::Bytes(actual)
            &&& within(root.path, actual)
            &&& w.held().add(opened(reply)) == Multiset::singleton(fd)
        },
{
    broadcast use vstd::multiset::group_multiset_axioms;

    lemma_advance(w);
    lemma_advance(w.inside(reply->Fd_0, w.root_ino));
    if let Stage::Leave { next, ino } = w.stage {
        lemma_advance(w.inside(next, ino));
    }
    if let Next::Call(next, asked) = w.step(root, reply) {
        assert(next.held() =~= track(w.held(), reply, asked));
    }
    if let Next::Done(Ok(fd)) = w.step(root, reply) {
        assert(w.held().add(opened(reply)) =~= Multiset::singleton(fd));
    }
}

/// A walk never expands more links or bytes than its limits allow: the
/// expansion that would is refused, as a loop or as too big, and every other
/// one is counted.
pub proof fn lemma_walk_limits(w: WalkView, root: RootView, target: Seq<u8>)
    requires
        w.wf(),
        w.stage is Link,
    ensures
        ({
            let next = w.step(root, ReplyView::Bytes(target));
            &&& w.links + 1 > MAX_SYMLINKS ==> next == Next::<WalkView, i32>::Done(
                Err(ErrorView::LoopDetected { limit: MAX_SYMLINKS }),
            )
            &&& w.links + 1 <= MAX_SYMLINKS && w.bytes + target.len() + 1 > MAX_LINK_BYTES ==> next
                == Next::<WalkView, i32>::Done(Err(ErrorView::TooBig { limit: MAX_LINK_BYTES }))
            &&& w.links + 1 <= MAX_SYMLINKS && w.bytes + target.len() + 1 <= MAX_LINK_BYTES
                ==> (next matches Next::Call(after, _) && after.links == w.links + 1 && after.bytes
                == w.bytes + target.len() + 1 && after.rest == target + seq![SEPARATOR] + w.rest
                && after.wf())
        }),
{
}

/// Whatever the replies are, a walk stays within its limits and asks for no
/// name with a separator: at every point it has expanded at most
/// `MAX_SYMLINKS` links and `MAX_LINK_BYTES` bytes of link targets.
pub proof fn lemma_walk_run(root: RootView, path: Seq<u8>, replies: Seq<ReplyView>)
    ensures
        ({
            let step = |s: WalkView, reply: ReplyView| s.step(root, reply);
            let now = run(step, WalkView::start(root, path), replies);
            &&& now.names_clean()
            &&& now matches Next::Call(walk, _) ==> walk.links <= MAX_SYMLINKS && walk.bytes
                <= MAX_LINK_BYTES
        }),
{
    let step = |s: WalkView, reply: ReplyView| s.step(root, reply);
    let inv = |s: WalkView, request: RequestView| s.wf() && request.names_clean();
    assert forall|s: WalkView, request: RequestView, reply: ReplyView|
        #![trigger inv(s, request), step(s, reply)]
        inv(s, request) implies (step(s, reply) matches Next::Call(next, asked) ==> inv(
        next,
        asked,
    )) by {
        lemma_walk_step(s, root, reply);
    }
    lemma_run_keeps(step, inv, WalkView::start(root, path), replies);
}

/// Whatever the replies are, the walk of a path is over after seven of them
/// for each byte of the path and for each byte of link targets it may
/// expand, and three more.
pub proof fn lemma_walk_terminates(root: RootView, path: Seq<u8>, replies: Seq<ReplyView>)
    requires
        replies.len() >= (path.len() + MAX_LINK_BYTES) * 7 + 3,
    ensures
        run(
            |s: WalkView, reply: ReplyView| s.step(root, reply),
            WalkView::start(root, path),
            replies,
        ) is Done,
{
    let step = |s: WalkView, reply: ReplyView| s.step(root, reply);
    assert forall|s: WalkView, reply: ReplyView| #![trigger step(s, reply)] s.wf() implies (step(
        s,
        reply,
    ) matches Next::Call(next, _) ==> next.wf() && next.fuel() < s.fuel()) by {
        lemma_walk_step(s, root, reply);
    }
    lemma_run_ends(
        step,
        |s: WalkView| s.wf(),
        |s: WalkView| s.fuel(),
        WalkView::start(root, path),
        replies,
    );
}

/// `..` never leads out of the root: a walk whose current directory is the
/// root asks for no parent, whatever is left of its path. The next entry it
/// opens is an ordinary component, opened without following a link.
pub proof fn lemma_walk_clamped(w: WalkView)
    requires
        w.at_root(),
    ensures
        w.advance() matches Next::Call(_, RequestView::Openat { name, how, .. }) ==> name
            != dotdot() && name != dot() && name.len() > 0 && how == Open::PathNoFollow,
    decreases w.rest.len(),
{
    if w.rest.len() > 0 {
        lemma_head_tail(w.rest);
        let name = head(w.rest);
        if name.len() == 0 || name == dot() || name == dotdot() {
            lemma_walk_clamped(WalkView { rest: tail(w.rest), ..w });
        }
    }
}

/// The parent of the current directory is only opened by the name `..`, as
/// a directory, and only where the current directory is not the root.
pub proof fn lemma_walk_parent(w: WalkView)
    ensures
        w.advance() matches Next::Call(_, RequestView::Openat { dirfd, name, how }) ==> dirfd
            == w.cur && (how == Open::PathDirectory <==> name == dotdot()) && (name == dotdot()
            ==> !w.at_root()),
    decreases w.rest.len(),
{
    if w.rest.len() > 0 {
        lemma_head_tail(w.rest);
        let name = head(w.rest);
        if name.len() == 0 || name == dot() || (name == dotdot() && w.at_root()) {
            lemma_walk_parent(WalkView { rest: tail(w.rest), ..w });
        }
    }
}

/// Empty components and `.` are passed over, and so is `..` in the root: the
/// walk goes on from them and what follows as it does from what follows
/// alone. So from the root, a path behind any number of `..` is walked as the
/// path itself.
pub proof fn lemma_walk_skips(w: WalkView, rest: Seq<u8>)
    ensures
        (WalkView { rest: seq![SEPARATOR] + rest, ..w }).advance() == (WalkView {
            rest,
            ..w
        }).advance(),
        (WalkView { rest: dot() + seq![SEPARATOR] + rest, ..w }).advance() == (WalkView {
            rest,
            ..w
        }).advance(),
        w.at_root() ==> (WalkView { rest: dotdot() + seq![SEPARATOR] + rest, ..w }).advance() == (
        WalkView { rest, ..w }).advance(),
{
    let none = Seq::<u8>::empty();
    lemma_head_of(none, rest);
    assert(none + seq![SEPARATOR] + rest =~= seq![SEPARATOR] + rest);
    lemma_head_of(dot(), rest);
    lemma_head_of(dotdot(), rest);
}

/// The clamp. A walk that has just been anchored in the root goes on from
/// `/../` and a path as it does from `/` and the path: to the same state, with
/// the same request.
pub proof fn lemma_walk_clamp(w: WalkView, root: RootView, fd: i32, rest: Seq<u8>)
    requires
        w.stage == Stage::Anchor,
    ensures
        (WalkView { rest: seq![SEPARATOR] + dotdot() + seq![SEPARATOR] + rest, ..w }).step(
            root,
            ReplyView::Fd(fd),
        ) == (WalkView { rest: seq![SEPARATOR] + rest, ..w }).step(root, ReplyView::Fd(fd)),
{
    let v = w.inside(fd, w.root_ino);
    let long = seq![SEPARATOR] + dotdot() + seq![SEPARATOR] + rest;
    let inner = dotdot() + seq![SEPARATOR] + rest;
    assert(long =~= seq![SEPARATOR] + inner);
    lemma_walk_skips(v, inner);
    lemma_walk_skips(v, rest);
    assert((WalkView { rest: long, ..w }).inside(fd, w.root_ino) == (WalkView { rest: long, ..v }));
    assert((WalkView { rest: seq![SEPARATOR] + rest, ..w }).inside(fd, w.root_ino) == (WalkView {
        rest: seq![SEPARATOR] + rest,
        ..v
    }));
}

/// An absolute link. When the target of a symbolic link is absolute, the
/// link and the current directory are closed, the root is duplicated, and the
/// walk goes on in the duplicate, with the target in front of what was left
/// of the path. What it opens next, it opens in the duplicate and without
/// following: the target is never handed to the kernel.
pub proof fn lemma_walk_absolute_link(w: WalkView, root: RootView, target: Seq<u8>, fd: i32)
    requires
        w.wf(),
        w.stage is Link,
        is_absolute(target),
        w.links < MAX_SYMLINKS,
        target.len() < MAX_LINK_BYTES - w.bytes,
    ensures
        ({
            let read = w.expanded(target);
            let landed = read.at(Stage::Anchor).inside(fd, w.root_ino);
            &&& w.step(root, ReplyView::Bytes(target)) == Next::<WalkView, i32>::Call(
                read,
                RequestView::Close { fd: w.stage->Link_next },
            )
            &&& read.step(root, ReplyView::Done) == Next::<WalkView, i32>::Call(
                read.at(Stage::Reset),
                RequestView::Close { fd: w.cur },
            )
            &&& read.at(Stage::Reset).step(root, ReplyView::Done) == Next::<WalkView, i32>::Call(
                read.at(Stage::Anchor),
                RequestView::Dup { fd: root.fd },
            )
            &&& read.at(Stage::Anchor).step(root, ReplyView::Fd(fd)) == landed.advance()
            &&& landed.rest == target + seq![SEPARATOR] + w.rest
            &&& landed.advance() matches Next::Call(_, RequestView::Openat { dirfd, name, how })
                ==> dirfd == fd && how == Open::PathNoFollow && clean(name) && name != dotdot()
        }),
{
    let landed = w.expanded(target).at(Stage::Anchor).inside(fd, w.root_ino);
    lemma_walk_clamped(landed);
    lemma_walk_parent(landed);
    lemma_advance(landed);
}

/// Entering a component. An ordinary component that is no symbolic link and
/// lives on the device of the root is opened in the current directory without
/// following, then examined; the directory before it is closed, and the walk
/// goes on inside it with what is left of the path.
pub proof fn lemma_walk_enters(w: WalkView, root: RootView, next: i32, stat: Stat)
    requires
        w.wf(),
        ordinary(head(w.rest)),
        w.rest.len() > 0,
        stat.dev == w.root_dev,
        !is_symlink(stat.mode),
    ensures
        ({
            let open = WalkView { rest: tail(w.rest), stage: Stage::Open, ..w };
            &&& w.advance() == Next::<WalkView, i32>::Call(
                open,
                RequestView::Openat { dirfd: w.cur, name: head(w.rest), how: Open::PathNoFollow },
            )
            &&& open.step(root, ReplyView::Fd(next)) == Next::<WalkView, i32>::Call(
                open.at(Stage::Inspect { next }),
                RequestView::Fstatat { dirfd: next, name: Seq::empty() },
            )
            &&& open.at(Stage::Inspect { next }).step(root, ReplyView::Stat(stat)) == Next::<
                WalkView,
                i32,
            >::Call(
                open.at(Stage::Leave { next, ino: stat.ino }),
                RequestView::Close { fd: w.cur },
            )
            &&& open.at(Stage::Leave { next, ino: stat.ino }).step(root, ReplyView::Done)
                == open.at(Stage::Leave { next, ino: stat.ino }).inside(next, stat.ino).advance()
        }),
{
}

/// Arriving. When nothing is left of the path, the walk asks for the path of
/// its current directory, and hands the directory out if and only if that
/// path is the path of the root or lies below it.
pub proof fn lemma_walk_arrives(w: WalkView, root: RootView, actual: Seq<u8>)
    requires
        w.rest.len() == 0,
    ensures
        w.advance() == Next::<WalkView, i32>::Call(
            w.at(Stage::Verify),
            RequestView::Readback { fd: w.cur },
        ),
        w.at(Stage::Verify).step(root, ReplyView::Bytes(actual)) == if within(root.path, actual) {
            Next::<WalkView, i32>::Done(Ok(w.cur))
        } else {
            Next::<WalkView, i32>::Done(Err(escaped()))
        },
{
}

/// A walk only moves on to an inode that lives on the device of the root: a
/// mount point is never crossed.
pub proof fn lemma_walk_same_device(w: WalkView, root: RootView, reply: ReplyView)
    requires
        w.stage is Inspect,
    ensures
        w.step(root, reply) is Call ==> (reply matches ReplyView::Stat(stat) && stat.dev
            == w.root_dev),
        reply matches ReplyView::Stat(stat) && stat.dev != w.root_dev ==> w.step(root, reply)
            == Next::<WalkView, i32>::Done(Err(mount_crossed())),
{
}

/// The walk of one path inside a root by the emulated resolver.
pub struct Walk {
    stage: Stage,
    rest: Vec<u8>,
    pos: usize,
    root_dev: u64,
    root_ino: u64,
    cur: i32,
    cur_ino: u64,
    links: usize,
    bytes: usize,
}

impl View for Walk {
    type V = WalkView;

    closed spec fn view(&self) -> WalkView {
        WalkView {
            stage: self.stage,
            rest: self.rest@.skip(self.pos as int),
            root_dev: self.root_dev,
            root_ino: self.root_ino,
            cur: self.cur,
            cur_ino: self.cur_ino,
            links: self.links,
            bytes: self.bytes,
        }
    }
}

fn head_end_at(rest: &Vec<u8>, start: usize) -> (end: usize)
    requires
        start <= rest@.len(),
    ensures
        end == head_end(rest@, start as int),
        start <= end <= rest@.len(),
{
    let mut i = start;
    while i < rest.len() && rest[i] != SEPARATOR
        invariant
            start <= i <= rest@.len(),
            head_end(rest@, i as int) == head_end(rest@, start as int),
        decreases rest@.len() - i,
    {
        i += 1;
    }
    i
}

impl Walk {
    #[verifier::type_invariant]
    spec fn inv(self) -> bool {
        self.pos <= self.rest@.len() && self.links <= MAX_SYMLINKS && self.bytes <= MAX_LINK_BYTES
    }

    /// Begins the walk of `path` inside `root`.
    pub fn start(root: &Root, path: &[u8]) -> (r: Step<Walk, Handle>)
        ensures
            r@ == WalkView::start(root@, path@),
            r@.names_clean(),
            r matches Step::Call(walk, _) && walk@.wf(),
    {
        let walk = Walk {
            stage: Stage::Identify,
            rest: slice_to_vec(path),
            pos: 0,
            root_dev: 0,
            root_ino: 0,
            cur: root.as_raw_fd(),
            cur_ino: 0,
            links: 0,
            bytes: 0,
        };
        assert(walk.rest@.skip(0) =~= path@);
        Step::Call(walk, Request::Fstatat { dirfd: root.as_raw_fd(), name: Vec::new() })
    }

    fn advance(self) -> (r: Step<Walk, Handle>)
        ensures
            r@ == self@.advance(),
    {
        let mut walk = self;
        proof {
            use_type_invariant(&walk);
        }
        while walk.pos < walk.rest.len()
            invariant
                walk.pos <= walk.rest@.len(),
                walk.links <= MAX_SYMLINKS,
                walk.bytes <= MAX_LINK_BYTES,
                walk@.advance() == self@.advance(),
            decreases walk.rest@.len() - walk.pos,
        {
            let start = walk.pos;
            let end = head_end_at(&walk.rest, start);
            let after = if end < walk.rest.len() {
                end + 1
            } else {
                end
            };
            let name = slice_to_vec(slice_subrange(walk.rest.as_slice(), start, end));
            let is_dot = name.len() == 1 && name[0] == DOT;
            let is_dotdot = name.len() == 2 && name[0] == DOT && name[1] == DOT;
            proof {
                let v = walk.rest@.skip(start as int);
                lemma_head_end_skip(walk.rest@, start as int, 0);
                assert(head(v) =~= name@);
                assert(tail(v) =~= walk.rest@.skip(after as int));
                assert(is_dot == (name@ == dot())) by {
                    if is_dot {
                        assert(name@ =~= dot());
                    }
                }
                assert(is_dotdot == (name@ == dotdot())) by {
                    if is_dotdot {
                        assert(name@ =~= dotdot());
                    }
                }
            }
            let cur = walk.cur;
            let at_root = walk.cur_ino == walk.root_ino;
            walk.pos = after;
            if name.len() == 0 || is_dot || (is_dotdot && at_root) {
                continue ;
            }
            walk.stage = Stage::Open;
            let how = if is_dotdot {
                Open::PathDirectory
            } else {
                Open::PathNoFollow
            };
            return Step::Call(walk, Request::Openat { dirfd: cur, name, how });
        }
        let cur = walk.cur;
        walk.stage = Stage::Verify;
        assert(walk.rest@.skip(walk.pos as int).len() == 0);
        Step::Call(walk, Request::Readback { fd: cur })
    }

    /// Goes on with the reply to the last request of the walk.
    ///
    /// The walk ends with a handle if and only if the path read back from
    /// the descriptor it ended at starts with the path of the root.
    pub fn step(self, root: &Root, reply: Reply) -> (r: Step<Walk, Handle>)
        ensures
            r@ == self@.step(root@, reply@),
            self@.wf(),
            r@.names_clean(),
            r matches Step::Call(walk, _) ==> walk@.wf() && walk@.fuel() < self@.fuel(),
            r matches Step::Done(Ok(handle)) ==> self@.stage == Stage::Verify && handle@
                == self@.cur && (reply@ matches ReplyView::Bytes(actual) && within(
                root@.path,
                actual,
            )),
            r matches Step::Call(walk, asked) ==> walk@.held() == track(
                self@.held(),
                reply@,
                asked@,
            ),
    {
        proof {
            use_type_invariant(&self);
            lemma_walk_step(self@, root@, reply@);
        }
        let mut walk = self;
        match walk.stage {
            Stage::Identify => match reply {
                Reply::Stat(stat) => {
                    walk.stage = Stage::Anchor;
                    walk.root_dev = stat.dev;
                    walk.root_ino = stat.ino;
                    Step::Call(walk, Request::Dup { fd: root.as_raw_fd() })
                },
                _ => Step::Done(Err(fail(&reply, Syscall::Fstatat, "stat root directory"))),
            },
            Stage::Anchor => match reply {
                Reply::Fd(fd) => {
                    walk.cur = fd;
                    walk.cur_ino = walk.root_ino;
                    walk.advance()
                },
                _ => Step::Done(
                    Err(fail(&reply, Syscall::Dup, "dup root as starting point of resolution")),
                ),
            },
            Stage::Open => match reply {
                Reply::Fd(next) => {
                    walk.stage = Stage::Inspect { next };
                    Step::Call(walk, Request::Fstatat { dirfd: next, name: Vec::new() })
                },
                _ => Step::Done(
                    Err(fail(&reply, Syscall::Openat, "open next component of resolution")),
                ),
            },
            Stage::Inspect { next } => match reply {
                Reply::Stat(stat) => {
                    if stat.dev != walk.root_dev {
                        Step::Done(
                            Err(
                                Error::SafetyViolation {
                                    description: "resolution crossed a mount point".to_owned(),
                                },
                            ),
                        )
                    } else if mode_is_symlink(stat.mode) {
                        walk.stage = Stage::Link { next };
                        Step::Call(walk, Request::Readlinkat { dirfd: next, name: Vec::new() })
                    } else {
                        let cur = walk.cur;
                        walk.stage = Stage::Leave { next, ino: stat.ino };
                        Step::Call(walk, Request::Close { fd: cur })
                    }
                },
                _ => Step::Done(
                    Err(fail(&reply, Syscall::Fstatat, "stat next component of resolution")),
                ),
            },
            Stage::Leave { next, ino } => {
                if is_closed(&reply) {
                    walk.cur = next;
                    walk.cur_ino = ino;
                    walk.advance()
                } else {
                    Step::Done(Err(fail(&reply, Syscall::Close, "close directory of resolution")))
                }
            },
            Stage::Link { next } => match reply {
                Reply::Bytes(target) => {
                    if walk.links >= MAX_SYMLINKS {
                        Step::Done(Err(Error::LoopDetected { limit: MAX_SYMLINKS }))
                    } else if target.len() >= MAX_LINK_BYTES - walk.bytes {
                        Step::Done(Err(Error::TooBig { limit: MAX_LINK_BYTES }))
                    } else {
                        let reset = path_is_absolute(target.as_slice());
                        let added = target.len() + 1;
                        let ghost before = walk@;
                        let ghost link = target@;
                        let mut rest = target;
                        rest.push(SEPARATOR);
                        extend(
                            &mut rest,
                            slice_subrange(walk.rest.as_slice(), walk.pos, walk.rest.len()),
                        );
                        assert(rest@ =~= before.expanded(link).rest);
                        walk = Walk {
                            stage: Stage::Discard { reset },
                            rest,
                            pos: 0,
                            root_dev: walk.root_dev,
                            root_ino: walk.root_ino,
                            cur: walk.cur,
                            cur_ino: walk.cur_ino,
                            links: walk.links + 1,
                            bytes: walk.bytes + added,
                        };
                        assert(walk.rest@.skip(0) =~= walk.rest@);
                        Step::Call(walk, Request::Close { fd: next })
                    }
                },
                _ => Step::Done(
                    Err(fail(&reply, Syscall::Readlinkat, "read target of symlink component")),
                ),
            },
            Stage::Discard { reset } => {
                if !is_closed(&reply) {
                    Step::Done(Err(fail(&reply, Syscall::Close, "close symlink component")))
                } else if reset {
                    let cur = walk.cur;
                    walk.stage = Stage::Reset;
                    Step::Call(walk, Request::Close { fd: cur })
                } else {
                    walk.advance()
                }
            },
            Stage::Reset => {
                if is_closed(&reply) {
                    walk.stage = Stage::Anchor;
                    Step::Call(walk, Request::Dup { fd: root.as_raw_fd() })
                } else {
                    Step::Done(Err(fail(&reply, Syscall::Close, "close directory of resolution")))
                }
            },
            Stage::Verify => match reply {
                Reply::Bytes(actual) => {
                    if path_within(root.path(), actual.as_slice()) {
                        Step::Done(Ok(Handle::new(walk.cur)))
                    } else {
                        Step::Done(
                            Err(
                                Error::SafetyViolation {
                                    description: "resolved path is outside the root".to_owned(),
                                },
                            ),
                        )
                    }
                },
                _ => Step::Done(
                    Err(fail(&reply, Syscall::Readback, "get path of resolved handle")),
                ),
            },
        }
    }
}

} // verus!
