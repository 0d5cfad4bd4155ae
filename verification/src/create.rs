//! Creating an inode inside a root.
//!
//! The parent directory of the new entry is resolved inside the root. Then
//! exactly one creating system call is made, relative to the descriptor of
//! that directory and under the final component of the path. An entry that
//! exists is reported as the kernel reports it.

use crate::error::{Error, ErrorView, Syscall};
use crate::path::{clean, lemma_split_is_safe, lemma_split_shorter, path_split, split};
use crate::remove::{parent_context, split_context};
use crate::resolve::{lemma_resolve_pending, lemma_resolve_step, Resolve, ResolveView};
use crate::root::{Handle, Root, RootView};
use crate::sys::{
    copy, counted, fail, failure, lemma_run_counts, lemma_run_ends, lemma_run_inside,
    lemma_run_keeps, lifted, mode_of_node, node_mode, opened, permission_bits, permissions, run,
    track, used, verdict, Next, NodeKind, Open, Reply, ReplyView, Request, RequestView, Step,
};
use vstd::multiset::Multiset;
use vstd::prelude::*;

verus! {

/// An inode type to be created with [`Root::create`].
#[derive(Debug, PartialEq, Eq)]
pub enum InodeType {
    /// Ordinary file with the given mode, as in `creat(2)`.
    File(u32),
    /// Directory with the given mode, as in `mkdir(2)`.
    Directory(u32),
    /// Symbolic link with the given target, as in `symlinkat(2)`. The target
    /// is any string of bytes; it is not checked to be a path.
    Symlink(Vec<u8>),
    /// Hard link to the given path, as in `linkat(2)`. The path is resolved
    /// inside the same root.
    Hardlink(Vec<u8>),
    /// Named pipe with the given mode, as in `mkfifo(3)`.
    Fifo(u32),
    /// Character device with the given mode and device number.
    CharacterDevice(u32, u64),
    /// Block device with the given mode and device number.
    BlockDevice(u32, u64),
}

/// The mathematical value of an [`InodeType`].
pub enum InodeTypeView {
    File(u32),
    Directory(u32),
    Symlink(Seq<u8>),
    Hardlink(Seq<u8>),
    Fifo(u32),
    CharacterDevice(u32, u64),
    BlockDevice(u32, u64),
}

impl View for InodeType {
    type V = InodeTypeView;

    open spec fn view(&self) -> InodeTypeView {
        match self {
            InodeType::File(mode) => InodeTypeView::File(*mode),
            InodeType::Directory(mode) => InodeTypeView::Directory(*mode),
            InodeType::Symlink(target) => InodeTypeView::Symlink(target@),
            InodeType::Hardlink(existing) => InodeTypeView::Hardlink(existing@),
            InodeType::Fifo(mode) => InodeTypeView::Fifo(*mode),
            InodeType::CharacterDevice(mode, dev) => InodeTypeView::CharacterDevice(*mode, *dev),
            InodeType::BlockDevice(mode, dev) => InodeTypeView::BlockDevice(*mode, *dev),
        }
    }
}

impl InodeType {
    /// A copy of this inode type.
    pub fn duplicate(&self) -> (r: InodeType)
        ensures
            r@ == self@,
    {
        match self {
            InodeType::File(mode) => InodeType::File(*mode),
            InodeType::Directory(mode) => InodeType::Directory(*mode),
            InodeType::Symlink(target) => InodeType::Symlink(copy(target.as_slice())),
            InodeType::Hardlink(existing) => InodeType::Hardlink(copy(existing.as_slice())),
            InodeType::Fifo(mode) => InodeType::Fifo(*mode),
            InodeType::CharacterDevice(mode, dev) => InodeType::CharacterDevice(*mode, *dev),
            InodeType::BlockDevice(mode, dev) => InodeType::BlockDevice(*mode, *dev),
        }
    }
}

/// An inode that one call makes from nothing but its arguments.
pub enum Node {
    /// A directory with the given mode.
    Directory(u32),
    /// A symbolic link with the given target.
    Symlink(Vec<u8>),
    /// A named pipe or a device, with the given mode and device number.
    Special(NodeKind, u32, u64),
}

/// The mathematical value of a [`Node`].
pub enum NodeView {
    Directory(u32),
    Symlink(Seq<u8>),
    Special(NodeKind, u32, u64),
}

impl View for Node {
    type V = NodeView;

    open spec fn view(&self) -> NodeView {
        match self {
            Node::Directory(mode) => NodeView::Directory(*mode),
            Node::Symlink(target) => NodeView::Symlink(target@),
            Node::Special(kind, mode, dev) => NodeView::Special(*kind, *mode, *dev),
        }
    }
}

impl NodeView {
    /// The system call that makes the node.
    pub open spec fn syscall(self) -> Syscall {
        match self {
            NodeView::Directory(_) => Syscall::Mkdirat,
            NodeView::Symlink(_) => Syscall::Symlinkat,
            NodeView::Special(_, _, _) => Syscall::Mknodat,
        }
    }

    /// The request that makes the node under `name` in the directory
    /// `dirfd`. A directory is made with the permissions of its mode, a pipe
    /// or a device with those and the file type bits of its kind, and a
    /// symbolic link with its target unchanged.
    pub open spec fn request(self, dirfd: i32, name: Seq<u8>) -> RequestView {
        match self {
            NodeView::Directory(mode) => RequestView::Mkdirat {
                dirfd,
                name,
                mode: permission_bits(mode),
            },
            NodeView::Symlink(target) => RequestView::Symlinkat { target, dirfd, name },
            NodeView::Special(kind, mode, dev) => RequestView::Mknodat {
                dirfd,
                name,
                mode: node_mode(kind.bits(), mode),
                dev,
            },
        }
    }
}

impl Node {
    /// The system call that makes the node.
    pub fn syscall(&self) -> (r: Syscall)
        ensures
            r == self@.syscall(),
    {
        match self {
            Node::Directory(_) => Syscall::Mkdirat,
            Node::Symlink(_) => Syscall::Symlinkat,
            Node::Special(_, _, _) => Syscall::Mknodat,
        }
    }

    /// The request that makes the node under `name` in the directory
    /// `dirfd`.
    pub fn request(self, dirfd: i32, name: Vec<u8>) -> (r: Request)
        ensures
            r@ == self@.request(dirfd, name@),
            r@.syscall() == self@.syscall(),
            r@.names_clean() == clean(name@),
    {
        match self {
            Node::Directory(mode) => Request::Mkdirat { dirfd, name, mode: permissions(mode) },
            Node::Symlink(target) => Request::Symlinkat { target, dirfd, name },
            Node::Special(kind, mode, dev) => Request::Mknodat {
                dirfd,
                name,
                mode: mode_of_node(kind, mode),
                dev,
            },
        }
    }
}

/// How an inode of a given type is made.
pub enum Plan {
    /// By the creation of an ordinary file with the given mode.
    File(u32),
    /// By a hard link to the path.
    Link(Vec<u8>),
    /// By one call.
    Node(Node),
}

/// The mathematical value of a [`Plan`].
pub enum PlanView {
    /// By the creation of an ordinary file.
    File(u32),
    /// By a hard link to the path.
    Link(Seq<u8>),
    /// By one call.
    Node(NodeView),
}

impl InodeTypeView {
    /// How an inode of this type is made. A named pipe has the device
    /// number 0.
    pub open spec fn plan(self) -> PlanView {
        match self {
            InodeTypeView::File(mode) => PlanView::File(mode),
            InodeTypeView::Directory(mode) => PlanView::Node(NodeView::Directory(mode)),
            InodeTypeView::Symlink(target) => PlanView::Node(NodeView::Symlink(target)),
            InodeTypeView::Hardlink(existing) => PlanView::Link(existing),
            InodeTypeView::Fifo(mode) => PlanView::Node(
                NodeView::Special(NodeKind::Fifo, mode, 0),
            ),
            InodeTypeView::CharacterDevice(mode, dev) => PlanView::Node(
                NodeView::Special(NodeKind::CharacterDevice, mode, dev),
            ),
            InodeTypeView::BlockDevice(mode, dev) => PlanView::Node(
                NodeView::Special(NodeKind::BlockDevice, mode, dev),
            ),
        }
    }
}

impl View for Plan {
    type V = PlanView;

    open spec fn view(&self) -> PlanView {
        match self {
            Plan::File(mode) => PlanView::File(*mode),
            Plan::Link(existing) => PlanView::Link(existing@),
            Plan::Node(node) => PlanView::Node(node@),
        }
    }
}

impl InodeType {
    /// How an inode of this type is made.
    pub fn plan(self) -> (r: Plan)
        ensures
            r@ == self@.plan(),
    {
        match self {
            InodeType::File(mode) => Plan::File(mode),
            InodeType::Directory(mode) => Plan::Node(Node::Directory(mode)),
            InodeType::Symlink(target) => Plan::Node(Node::Symlink(target)),
            InodeType::Hardlink(existing) => Plan::Link(existing),
            InodeType::Fifo(mode) => Plan::Node(Node::Special(NodeKind::Fifo, mode, 0)),
            InodeType::CharacterDevice(mode, dev) => Plan::Node(
                Node::Special(NodeKind::CharacterDevice, mode, dev),
            ),
            InodeType::BlockDevice(mode, dev) => Plan::Node(
                Node::Special(NodeKind::BlockDevice, mode, dev),
            ),
        }
    }
}

/// The context of a hard link source that could not be split.
pub open spec fn source_split_context() -> Seq<char> {
    "split hardlink source path into (parent, name)"@
}

/// The context of a hard link source whose parent could not be resolved.
pub open spec fn source_parent_context() -> Seq<char> {
    "resolve hardlink source parent for hardlink"@
}

/// The mathematical value of a [`CreateFile`].
pub enum CreateFileView {
    /// Waiting for the path of the root's descriptor.
    Check { path: Seq<u8>, mode: u32 },
    /// Resolving the parent directory of the new file `name`.
    Locate { lookup: ResolveView, name: Seq<u8>, mode: u32 },
    /// Waiting for the descriptor of the new file, which is opened in
    /// `dirfd`.
    Make { dirfd: i32 },
}

impl CreateFileView {
    /// The name of the new file is clean, and the limits of the lookup
    /// hold.
    pub open spec fn wf(self) -> bool {
        self matches CreateFileView::Locate { lookup, name, .. } ==> lookup.wf() && clean(name)
    }

    /// How the creation of a file begins: by asking for the path of the
    /// root's descriptor.
    pub open spec fn start(root: RootView, path: Seq<u8>, mode: u32) -> Next<CreateFileView, i32> {
        Next::Call(CreateFileView::Check { path, mode }, RequestView::Readback { fd: root.fd })
    }

    /// What the creation does with the reply to its last request.
    pub open spec fn step(self, root: RootView, reply: ReplyView) -> Next<CreateFileView, i32> {
        match self {
            CreateFileView::Check { path, mode } => match root.check(reply) {
                Err(error) => Next::Done(Err(error)),
                Ok(()) => match split(path) {
                    Err(error) => Next::Done(Err(error.wrapped(split_context()))),
                    Ok((parent, name)) => Next::Call(
                        CreateFileView::Locate {
                            lookup: ResolveView::Check { path: parent },
                            name,
                            mode,
                        },
                        RequestView::Readback { fd: root.fd },
                    ),
                },
            },
            CreateFileView::Locate { lookup, name, mode } => match lookup.step(root, reply) {
                Next::Call(lookup, request) => Next::Call(
                    CreateFileView::Locate { lookup, name, mode },
                    request,
                ),
                Next::Done(Err(error)) => Next::Done(Err(error.wrapped(parent_context()))),
                Next::Done(Ok(dirfd)) => Next::Call(
                    CreateFileView::Make { dirfd },
                    RequestView::Openat { dirfd, name, how: Open::CreateExclusive { mode } },
                ),
            },
            CreateFileView::Make { .. } => match reply {
                ReplyView::Fd(fd) => Next::Done(Ok(fd)),
                _ => Next::Done(Err(failure(reply, Syscall::Openat, "pathrs create_file"@))),
            },
        }
    }

    /// What holds of the creation of a file at `path` and of the request
    /// it waits for, at every point: the parent that is looked up and the
    /// name that is opened are the two parts of the path, and the file is
    /// opened as a new one with the mode that was asked for.
    pub open spec fn pending(
        self,
        root: RootView,
        path: Seq<u8>,
        mode: u32,
        request: RequestView,
    ) -> bool {
        &&& self.wf()
        &&& request.names_clean()
        &&& match self {
            CreateFileView::Check { path: asked, mode: with } => asked == path && with == mode,
            CreateFileView::Locate { lookup, name, mode: with } => {
                &&& with == mode
                &&& split(path) matches Ok((parent, last))
                &&& name == last
                &&& lookup.pending(root, parent, request)
            },
            CreateFileView::Make { dirfd } => {
                &&& split(path) matches Ok((_, last))
                &&& request == (RequestView::Openat {
                    dirfd,
                    name: last,
                    how: Open::CreateExclusive { mode },
                })
            },
        }
    }

    /// The descriptors the creation holds: those of its lookup, then the
    /// parent directory that the lookup returned.
    pub open spec fn held(self) -> Multiset<i32> {
        match self {
            CreateFileView::Check { .. } => Multiset::empty(),
            CreateFileView::Locate { lookup, .. } => lookup.held(),
            CreateFileView::Make { dirfd } => Multiset::singleton(dirfd),
        }
    }

    /// A bound on the number of requests the creation can still make.
    pub open spec fn fuel(self) -> nat {
        match self {
            CreateFileView::Check { path, .. } => ResolveView::budget(path) + 2,
            CreateFileView::Locate { lookup, .. } => lookup.fuel() + 2,
            CreateFileView::Make { .. } => 0,
        }
    }
}

/// The mathematical value of a [`Create`].
pub enum CreateView {
    /// Waiting for the path of the root's descriptor.
    Check { path: Seq<u8>, kind: InodeTypeView },
    /// Creating an ordinary file.
    File(CreateFileView),
    /// Resolving the parent directory of the new entry `name`, which is to
    /// be the node `node`.
    Locate { lookup: ResolveView, name: Seq<u8>, node: NodeView },
    /// Resolving the parent directory of the new entry `name`, which is to
    /// be a hard link to `existing`.
    LocateLink { lookup: ResolveView, name: Seq<u8>, existing: Seq<u8> },
    /// Resolving the parent directory of the source `oldname` of a hard
    /// link that is to be made under `name` in `dirfd`.
    Source { lookup: ResolveView, dirfd: i32, name: Seq<u8>, oldname: Seq<u8> },
    /// Waiting for the creating call `syscall` to return. It was made in
    /// `dirfd`; a hard link was made from `source`.
    Final { syscall: Syscall, dirfd: i32, source: Option<i32> },
}

impl CreateView {
    /// The names of the new entry and of the source of a hard link are
    /// clean, and the limits of the lookup hold.
    pub open spec fn wf(self) -> bool {
        match self {
            CreateView::File(inner) => inner.wf(),
            CreateView::Locate { lookup, name, .. } => lookup.wf() && clean(name),
            CreateView::LocateLink { lookup, name, .. } => lookup.wf() && clean(name),
            CreateView::Source { lookup, name, oldname, .. } => lookup.wf() && clean(name)
                && clean(oldname),
            _ => true,
        }
    }

    /// How a creation begins: by asking for the path of the root's
    /// descriptor.
    pub open spec fn start(root: RootView, path: Seq<u8>, kind: InodeTypeView) -> Next<
        CreateView,
        (),
    > {
        Next::Call(CreateView::Check { path, kind }, RequestView::Readback { fd: root.fd })
    }

    /// A step of the creation of a file as a step of the creation that
    /// runs it. The handle of the new file is given up.
    pub open spec fn lift(next: Next<CreateFileView, i32>) -> Next<CreateView, ()> {
        match next {
            Next::Call(inner, request) => Next::Call(CreateView::File(inner), request),
            Next::Done(Ok(_)) => Next::Done(Ok(())),
            Next::Done(Err(error)) => Next::Done(Err(error)),
        }
    }

    /// What the creation does with the reply to its last request.
    pub open spec fn step(self, root: RootView, reply: ReplyView) -> Next<CreateView, ()> {
        match self {
            CreateView::Check { path, kind } => match root.check(reply) {
                Err(error) => Next::Done(Err(error)),
                Ok(()) => match kind.plan() {
                    PlanView::File(mode) => CreateView::lift(
                        CreateFileView::start(root, path, mode),
                    ),
                    PlanView::Link(existing) => match split(path) {
                        Err(error) => Next::Done(Err(error.wrapped(split_context()))),
                        Ok((parent, name)) => Next::Call(
                            CreateView::LocateLink {
                                lookup: ResolveView::Check { path: parent },
                                name,
                                existing,
                            },
                            RequestView::Readback { fd: root.fd },
                        ),
                    },
                    PlanView::Node(node) => match split(path) {
                        Err(error) => Next::Done(Err(error.wrapped(split_context()))),
                        Ok((parent, name)) => Next::Call(
                            CreateView::Locate {
                                lookup: ResolveView::Check { path: parent },
                                name,
                                node,
                            },
                            RequestView::Readback { fd: root.fd },
                        ),
                    },
                },
            },
            CreateView::File(inner) => CreateView::lift(inner.step(root, reply)),
            CreateView::Locate { lookup, name, node } => match lookup.step(root, reply) {
                Next::Call(lookup, request) => Next::Call(
                    CreateView::Locate { lookup, name, node },
                    request,
                ),
                Next::Done(Err(error)) => Next::Done(Err(error.wrapped(parent_context()))),
                Next::Done(Ok(dirfd)) => Next::Call(
                    CreateView::Final { syscall: node.syscall(), dirfd, source: None },
                    node.request(dirfd, name),
                ),
            },
            CreateView::LocateLink { lookup, name, existing } => match lookup.step(root, reply) {
                Next::Call(lookup, request) => Next::Call(
                    CreateView::LocateLink { lookup, name, existing },
                    request,
                ),
                Next::Done(Err(error)) => Next::Done(Err(error.wrapped(parent_context()))),
                Next::Done(Ok(dirfd)) => match split(existing) {
                    Err(error) => Next::Done(Err(error.wrapped(source_split_context()))),
                    Ok((oldparent, oldname)) => Next::Call(
                        CreateView::Source {
                            lookup: ResolveView::Check { path: oldparent },
                            dirfd,
                            name,
                            oldname,
                        },
                        RequestView::Readback { fd: root.fd },
                    ),
                },
            },
            CreateView::Source { lookup, dirfd, name, oldname } => match lookup.step(
                root,
                reply,
            ) {
                Next::Call(lookup, request) => Next::Call(
                    CreateView::Source { lookup, dirfd, name, oldname },
                    request,
                ),
                Next::Done(Err(error)) => Next::Done(Err(error.wrapped(source_parent_context()))),
                Next::Done(Ok(olddirfd)) => Next::Call(
                    CreateView::Final { syscall: Syscall::Linkat, dirfd, source: Some(olddirfd) },
                    RequestView::Linkat {
                        olddirfd,
                        oldname,
                        newdirfd: dirfd,
                        newname: name,
                        flags: 0,
                    },
                ),
            },
            CreateView::Final { syscall, .. } => match reply {
                ReplyView::Done => Next::Done(Ok(())),
                _ => Next::Done(Err(failure(reply, syscall, "pathrs create"@))),
            },
        }
    }

    /// What holds of the creation of `kind` at `path` and of the request
    /// it waits for, at every point: the parent that is looked up and the
    /// name of the new entry are the two parts of the path, the source of
    /// a hard link is the final component of the path it links to, and the
    /// creating call is the one that makes what was asked for under that
    /// name.
    pub open spec fn pending(
        self,
        root: RootView,
        path: Seq<u8>,
        kind: InodeTypeView,
        request: RequestView,
    ) -> bool {
        &&& self.wf()
        &&& request.names_clean()
        &&& match self {
            CreateView::Check { path: asked, kind: of } => asked == path && of == kind,
            CreateView::File(inner) => {
                &&& kind matches InodeTypeView::File(mode)
                &&& inner.pending(root, path, mode, request)
            },
            CreateView::Locate { lookup, name, node } => {
                &&& kind.plan() == PlanView::Node(node)
                &&& split(path) matches Ok((parent, last))
                &&& name == last
                &&& lookup.pending(root, parent, request)
            },
            CreateView::LocateLink { lookup, name, existing } => {
                &&& kind.plan() == PlanView::Link(existing)
                &&& split(path) matches Ok((parent, last))
                &&& name == last
                &&& lookup.pending(root, parent, request)
            },
            CreateView::Source { lookup, name, oldname, .. } => {
                &&& kind matches InodeTypeView::Hardlink(existing)
                &&& split(path) matches Ok((_, last))
                &&& name == last
                &&& split(existing) matches Ok((oldparent, oldlast))
                &&& oldname == oldlast
                &&& lookup.pending(root, oldparent, request)
            },
            CreateView::Final { syscall, dirfd, source } => {
                &&& syscall == request.syscall()
                &&& split(path) matches Ok((_, last))
                &&& match kind.plan() {
                    PlanView::Node(node) => request == node.request(dirfd, last),
                    PlanView::Link(existing) => {
                        &&& split(existing) matches Ok((_, oldlast))
                        &&& source matches Some(olddirfd)
                        &&& request == (RequestView::Linkat {
                            olddirfd,
                            oldname: oldlast,
                            newdirfd: dirfd,
                            newname: last,
                            flags: 0,
                        })
                    },
                    PlanView::File(_) => false,
                }
            },
        }
    }

    /// The descriptors the creation holds: those of its lookups, and the
    /// directories that the lookups returned.
    pub open spec fn held(self) -> Multiset<i32> {
        match self {
            CreateView::Check { .. } => Multiset::empty(),
            CreateView::File(inner) => inner.held(),
            CreateView::Locate { lookup, .. } => lookup.held(),
            CreateView::LocateLink { lookup, .. } => lookup.held(),
            CreateView::Source { lookup, dirfd, .. } => lookup.held().insert(dirfd),
            CreateView::Final { dirfd, source, .. } => match source {
                Some(olddirfd) => Multiset::singleton(dirfd).insert(olddirfd),
                None => Multiset::singleton(dirfd),
            },
        }
    }

    /// A bound on the number of requests the creation can still make.
    pub open spec fn fuel(self) -> nat {
        match self {
            CreateView::Check { path, kind } => ResolveView::budget(path) + 3 + match kind {
                InodeTypeView::Hardlink(existing) => ResolveView::budget(existing),
                _ => 0,
            },
            CreateView::File(inner) => inner.fuel(),
            CreateView::Locate { lookup, .. } => lookup.fuel() + 1,
            CreateView::LocateLink { lookup, existing, .. } => lookup.fuel() + ResolveView::budget(
                existing,
            ) + 2,
            CreateView::Source { lookup, .. } => lookup.fuel() + 1,
            CreateView::Final { .. } => 0,
        }
    }
}

/// What every step of the creation of a file keeps.
///
/// No request names more than one directory entry, and with every request
/// the bound on the requests the creation can still make gets smaller. The
/// creation holds the descriptors it held before, and the one the reply
/// opened, without the one it now asks to be closed. It succeeds only with
/// the descriptor that the exclusive open returned; then it holds that
/// descriptor and the one of the parent directory.
pub proof fn lemma_create_file_step(s: CreateFileView, root: RootView, reply: ReplyView)
    requires
        s.wf(),
    ensures
        s.step(root, reply).names_clean(),
        s.step(root, reply) matches Next::Call(next, asked) ==> {
            &&& next.wf()
            &&& next.fuel() < s.fuel()
            &&& next.held() == track(s.held(), reply, asked)
        },
        s.step(root, reply) matches Next::Done(Ok(fd)) ==> {
            &&& s matches CreateFileView::Make { dirfd }
            &&& reply == ReplyView::Fd(fd)
            &&& s.held().add(opened(reply)) == Multiset::singleton(dirfd).insert(fd)
        },
{
    broadcast use vstd::multiset::group_multiset_axioms;

    match s {
        CreateFileView::Check { path, mode } => {
            lemma_split_is_safe(path);
            lemma_split_shorter(path);
        },
        CreateFileView::Locate { lookup, name, mode } => {
            lemma_resolve_step(lookup, root, reply);
        },
        _ => {},
    }
    if let Next::Call(next, asked) = s.step(root, reply) {
        assert(next.held() =~= track(s.held(), reply, asked));
    }
    if let Next::Done(Ok(fd)) = s.step(root, reply) {
        assert(s.held().add(opened(reply)) =~= Multiset::singleton(s->Make_dirfd).insert(fd));
    }
}

/// What every step of a creation keeps.
///
/// No request names more than one directory entry: the new entry is made
/// under the final component of the path, and a hard link from the final
/// component of its source. With every request, the bound on the requests
/// the creation can still make gets smaller. The creation holds the
/// descriptors it held before, and the one the reply opened, without the one
/// it now asks to be closed. It succeeds only when its creating call did: the
/// one call made after the parent directory was resolved, or the exclusive
/// open of a new file.
pub proof fn lemma_create_step(s: CreateView, root: RootView, reply: ReplyView)
    requires
        s.wf(),
    ensures
        s.step(root, reply).names_clean(),
        s.step(root, reply) matches Next::Call(next, asked) ==> {
            &&& next.wf()
            &&& next.fuel() < s.fuel()
            &&& next.held() == track(s.held(), reply, asked)
        },
        s.step(root, reply) matches Next::Done(Ok(_)) ==> (s is Final && reply == ReplyView::Done)
            || (s matches CreateView::File(CreateFileView::Make { .. }) && reply is Fd),
{
    broadcast use vstd::multiset::group_multiset_axioms;

    match s {
        CreateView::Check { path, kind } => {
            lemma_split_is_safe(path);
            lemma_split_shorter(path);
        },
        CreateView::File(inner) => {
            lemma_create_file_step(inner, root, reply);
        },
        CreateView::Locate { lookup, name, node } => {
            lemma_resolve_step(lookup, root, reply);
        },
        CreateView::LocateLink { lookup, name, existing } => {
            lemma_resolve_step(lookup, root, reply);
            lemma_split_is_safe(existing);
            lemma_split_shorter(existing);
        },
        CreateView::Source { lookup, dirfd, name, oldname } => {
            lemma_resolve_step(lookup, root, reply);
        },
        _ => {},
    }
    if let Next::Call(next, asked) = s.step(root, reply) {
        match s {
            CreateView::Check { .. } => {
                assert(next.held() =~= track(s.held(), reply, asked));
            },
            CreateView::File(inner) => {
                assert(next.held() =~= track(s.held(), reply, asked));
            },
            CreateView::Locate { lookup, name, node } => {
                assert(next.held() =~= track(s.held(), reply, asked));
            },
            CreateView::LocateLink { lookup, .. } => {
                assert(next.held() =~= track(s.held(), reply, asked));
            },
            CreateView::Source { lookup, dirfd, .. } => {
                if let Next::Done(Ok(old)) = lookup.step(root, reply) {
                    assert(lookup.held().add(opened(reply)) =~= Multiset::singleton(old));
                }
                assert(next.held() =~= track(s.held(), reply, asked));
            },
            CreateView::Final { .. } => {},
        }
    }
}

/// What holds of the creation of a file and its request at one point holds
/// at the next.
pub proof fn lemma_create_file_pending(
    s: CreateFileView,
    root: RootView,
    path: Seq<u8>,
    mode: u32,
    request: RequestView,
    reply: ReplyView,
)
    requires
        s.pending(root, path, mode, request),
    ensures
        s.step(root, reply) matches Next::Call(next, asked) ==> next.pending(
            root,
            path,
            mode,
            asked,
        ),
{
    lemma_create_file_step(s, root, reply);
    match s {
        CreateFileView::Check { .. } => {
            lemma_split_is_safe(path);
        },
        CreateFileView::Locate { lookup, .. } => {
            if let Ok((parent, _)) = split(path) {
                lemma_resolve_pending(lookup, root, parent, request, reply);
            }
        },
        _ => {},
    }
}

/// What holds of a creation and its request at one point holds at the next.
pub proof fn lemma_create_pending(
    s: CreateView,
    root: RootView,
    path: Seq<u8>,
    kind: InodeTypeView,
    request: RequestView,
    reply: ReplyView,
)
    requires
        s.pending(root, path, kind, request),
    ensures
        s.step(root, reply) matches Next::Call(next, asked) ==> next.pending(
            root,
            path,
            kind,
            asked,
        ),
{
    lemma_create_step(s, root, reply);
    match s {
        CreateView::Check { .. } => {
            lemma_split_is_safe(path);
        },
        CreateView::File(inner) => {
            if let InodeTypeView::File(mode) = kind {
                lemma_create_file_pending(inner, root, path, mode, request, reply);
            }
        },
        CreateView::Locate { lookup, .. } => {
            if let Ok((parent, _)) = split(path) {
                lemma_resolve_pending(lookup, root, parent, request, reply);
            }
        },
        CreateView::LocateLink { lookup, existing, .. } => {
            lemma_split_is_safe(existing);
            if let Ok((parent, _)) = split(path) {
                lemma_resolve_pending(lookup, root, parent, request, reply);
            }
        },
        CreateView::Source { lookup, .. } => {
            if let InodeTypeView::Hardlink(existing) = kind {
                if let Ok((oldparent, _)) = split(existing) {
                    lemma_resolve_pending(lookup, root, oldparent, request, reply);
                }
            }
        },
        _ => {},
    }
}

/// Whatever the replies are, no request of the creation of a file names more
/// than one directory entry, and a creation that succeeds ended with the
/// exclusive open of the final component of its path, with the mode that was
/// asked for, relative to the descriptor with which the lookup of the
/// directory part of its path ended. The handle is the descriptor that this
/// open returned. The lookup read the replies after the first, which
/// answered the check of the root.
pub proof fn lemma_create_file_run(
    root: RootView,
    path: Seq<u8>,
    mode: u32,
    replies: Seq<ReplyView>,
)
    ensures
        ({
            let step = |s: CreateFileView, reply: ReplyView| s.step(root, reply);
            let lookup = |s: ResolveView, reply: ReplyView| s.step(root, reply);
            let end = run(step, CreateFileView::start(root, path, mode), replies);
            let last = verdict(step, CreateFileView::start(root, path, mode), replies);
            &&& end.names_clean()
            &&& end matches Next::Done(Ok(fd)) ==> {
                &&& replies.len() > 0
                &&& replies[0] == ReplyView::Bytes(root.path)
                &&& split(path) matches Ok((parent, entry))
                &&& last matches Some(
                    (RequestView::Openat { dirfd, name, how }, ReplyView::Fd(new)),
                )
                &&& new == fd
                &&& how == Open::CreateExclusive { mode }
                &&& name == entry
                &&& run(lookup, ResolveView::start(root, parent), replies.skip(1)) == Next::<
                    ResolveView,
                    i32,
                >::Done(Ok(dirfd))
            }
        }),
{
    let step = |s: CreateFileView, reply: ReplyView| s.step(root, reply);
    let lookup = |s: ResolveView, reply: ReplyView| s.step(root, reply);
    let inv = |s: CreateFileView, request: RequestView| s.pending(root, path, mode, request);
    let start = CreateFileView::start(root, path, mode);
    assert forall|s: CreateFileView, request: RequestView, reply: ReplyView|
        #![trigger inv(s, request), step(s, reply)]
        inv(s, request) implies (step(s, reply) matches Next::Call(next, asked) ==> inv(
        next,
        asked,
    )) by {
        lemma_create_file_pending(s, root, path, mode, request, reply);
    }
    lemma_run_keeps(step, inv, start, replies);
    let end = run(step, start, replies);
    if let Next::Done(Ok(_)) = end {
        let first = step(CreateFileView::Check { path, mode }, replies[0]);
        let tail = replies.skip(1);
        assert(end == run(step, first, tail));
        lemma_split_is_safe(path);
        let (parent, entry) = split(path)->Ok_0;
        let wrap = |l: ResolveView| CreateFileView::Locate { lookup: l, name: entry, mode };
        let after = |r: Result<i32, ErrorView>|
            match r {
                Ok(dirfd) => Next::<CreateFileView, i32>::Call(
                    CreateFileView::Make { dirfd },
                    RequestView::Openat { dirfd, name: entry, how: Open::CreateExclusive { mode } },
                ),
                Err(error) => Next::<CreateFileView, i32>::Done(
                    Err(error.wrapped(parent_context())),
                ),
            };
        assert forall|l: ResolveView, reply: ReplyView| #![trigger lookup(l, reply)] step(
            wrap(l),
            reply,
        ) == lifted(lookup(l, reply), wrap, after) by {}
        lemma_run_inside(lookup, step, wrap, after, ResolveView::start(root, parent), tail);
        assert(first == lifted(ResolveView::start(root, parent), wrap, after));
        let rest = tail.skip(used(lookup, ResolveView::start(root, parent), tail) as int);
        if let Next::Done(Ok(fd)) = run(lookup, ResolveView::start(root, parent), tail) {
            assert(end == run(step, after(Ok(fd)), rest));
            assert(rest.len() > 0);
            assert(verdict(step, after(Ok(fd)), rest) == Some(
                (
                    RequestView::Openat {
                        dirfd: fd,
                        name: entry,
                        how: Open::CreateExclusive { mode },
                    },
                    rest[0],
                ),
            ));
            assert(end == (CreateFileView::Make { dirfd: fd }).step(root, rest[0]));
        }
    }
}

/// Scope of creation. Whatever the replies are, no request of a creation
/// names more than one directory entry, and a creation that succeeds ended
/// with the one call that makes what was asked for, under the final component
/// of its path and relative to the descriptor with which the lookup of the
/// directory part of its path ended.
///
/// A node is made by its request. A hard link is made from the final
/// component of its source, relative to the descriptor with which the lookup
/// of the directory part of the source ended; that lookup read the replies
/// that the first one left. A file is made by the exclusive open of a new
/// file, after one more check of the root.
pub proof fn lemma_create_run(
    root: RootView,
    path: Seq<u8>,
    kind: InodeTypeView,
    replies: Seq<ReplyView>,
)
    ensures
        ({
            let step = |s: CreateView, reply: ReplyView| s.step(root, reply);
            let lookup = |s: ResolveView, reply: ReplyView| s.step(root, reply);
            let end = run(step, CreateView::start(root, path, kind), replies);
            let last = verdict(step, CreateView::start(root, path, kind), replies);
            &&& end.names_clean()
            &&& end matches Next::Done(Ok(_)) ==> {
                &&& replies.len() > 0
                &&& replies[0] == ReplyView::Bytes(root.path)
                &&& split(path) matches Ok((parent, entry))
                &&& match kind.plan() {
                    PlanView::Node(node) => {
                        &&& last matches Some((request, ReplyView::Done))
                        &&& request == node.request(request.directory(), entry)
                        &&& run(lookup, ResolveView::start(root, parent), replies.skip(1))
                            == Next::<ResolveView, i32>::Done(Ok(request.directory()))
                    },
                    PlanView::Link(existing) => {
                        &&& last matches Some(
                            (
                                RequestView::Linkat { olddirfd, oldname, newdirfd, newname, flags },
                                ReplyView::Done,
                            ),
                        )
                        &&& newname == entry
                        &&& flags == 0
                        &&& split(existing) matches Ok((oldparent, source))
                        &&& oldname == source
                        &&& run(lookup, ResolveView::start(root, parent), replies.skip(1))
                            == Next::<ResolveView, i32>::Done(Ok(newdirfd))
                        &&& run(
                            lookup,
                            ResolveView::start(root, oldparent),
                            replies.skip(1).skip(
                                used(lookup, ResolveView::start(root, parent), replies.skip(1))
                                    as int,
                            ),
                        ) == Next::<ResolveView, i32>::Done(Ok(olddirfd))
                    },
                    PlanView::File(mode) => {
                        &&& last matches Some(
                            (RequestView::Openat { dirfd, name, how }, ReplyView::Fd(_)),
                        )
                        &&& name == entry
                        &&& how == Open::CreateExclusive { mode }
                        &&& run(
                            lookup,
                            ResolveView::start(root, parent),
                            replies.skip(1).skip(1),
                        ) == Next::<ResolveView, i32>::Done(Ok(dirfd))
                    },
                }
            }
        }),
{
    let step = |s: CreateView, reply: ReplyView| s.step(root, reply);
    let lookup = |s: ResolveView, reply: ReplyView| s.step(root, reply);
    let inv = |s: CreateView, request: RequestView| s.pending(root, path, kind, request);
    let start = CreateView::start(root, path, kind);
    assert forall|s: CreateView, request: RequestView, reply: ReplyView|
        #![trigger inv(s, request), step(s, reply)]
        inv(s, request) implies (step(s, reply) matches Next::Call(next, asked) ==> inv(
        next,
        asked,
    )) by {
        lemma_create_pending(s, root, path, kind, request, reply);
    }
    lemma_run_keeps(step, inv, start, replies);
    let end = run(step, start, replies);
    if let Next::Done(Ok(_)) = end {
        let first = step(CreateView::Check { path, kind }, replies[0]);
        let tail = replies.skip(1);
        assert(end == run(step, first, tail));
        assert(verdict(step, start, replies) == verdict(step, first, tail));
        lemma_split_is_safe(path);
        match kind.plan() {
            PlanView::File(mode) => {
                let inner = |s: CreateFileView, reply: ReplyView| s.step(root, reply);
                let wrap = |c: CreateFileView| CreateView::File(c);
                let after = |r: Result<i32, ErrorView>|
                    match r {
                        Ok(_) => Next::<CreateView, ()>::Done(Ok(())),
                        Err(error) => Next::<CreateView, ()>::Done(Err(error)),
                    };
                assert forall|c: CreateFileView, reply: ReplyView| #![trigger inner(c, reply)] step(
                    wrap(c),
                    reply,
                ) == lifted(inner(c, reply), wrap, after) by {}
                let begun = CreateFileView::start(root, path, mode);
                lemma_run_inside(inner, step, wrap, after, begun, tail);
                assert(first == lifted(begun, wrap, after));
                lemma_create_file_run(root, path, mode, tail);
            },
            PlanView::Node(node) => {
                let (parent, entry) = split(path)->Ok_0;
                let wrap = |l: ResolveView| CreateView::Locate { lookup: l, name: entry, node };
                let after = |r: Result<i32, ErrorView>|
                    match r {
                        Ok(dirfd) => Next::<CreateView, ()>::Call(
                            CreateView::Final { syscall: node.syscall(), dirfd, source: None },
                            node.request(dirfd, entry),
                        ),
                        Err(error) => Next::<CreateView, ()>::Done(
                            Err(error.wrapped(parent_context())),
                        ),
                    };
                assert forall|l: ResolveView, reply: ReplyView| #![trigger lookup(l, reply)] step(
                    wrap(l),
                    reply,
                ) == lifted(lookup(l, reply), wrap, after) by {}
                let begun = ResolveView::start(root, parent);
                lemma_run_inside(lookup, step, wrap, after, begun, tail);
                assert(first == lifted(begun, wrap, after));
                let rest = tail.skip(used(lookup, begun, tail) as int);
                if let Next::Done(Ok(fd)) = run(lookup, begun, tail) {
                    assert(end == run(step, after(Ok(fd)), rest));
                    assert(rest.len() > 0);
                    assert(verdict(step, after(Ok(fd)), rest) == Some(
                        (node.request(fd, entry), rest[0]),
                    ));
                    assert(node.request(fd, entry).directory() == fd);
                }
            },
            PlanView::Link(existing) => {
                let (parent, entry) = split(path)->Ok_0;
                let wrap = |l: ResolveView|
                    CreateView::LocateLink { lookup: l, name: entry, existing };
                let after = |r: Result<i32, ErrorView>|
                    match r {
                        Ok(dirfd) => (CreateView::LocateLink {
                            lookup: ResolveView::Kernel,
                            name: entry,
                            existing,
                        }).step(root, ReplyView::Fd(dirfd)),
                        Err(error) => Next::<CreateView, ()>::Done(
                            Err(error.wrapped(parent_context())),
                        ),
                    };
                assert forall|l: ResolveView, reply: ReplyView| #![trigger lookup(l, reply)] step(
                    wrap(l),
                    reply,
                ) == lifted(lookup(l, reply), wrap, after) by {}
                let begun = ResolveView::start(root, parent);
                lemma_run_inside(lookup, step, wrap, after, begun, tail);
                assert(first == lifted(begun, wrap, after));
                let rest = tail.skip(used(lookup, begun, tail) as int);
                if let Next::Done(Ok(fd)) = run(lookup, begun, tail) {
                    assert(end == run(step, after(Ok(fd)), rest));
                    lemma_split_is_safe(existing);
                    if let Ok((oldparent, source)) = split(existing) {
                        let wrap2 = |l: ResolveView|
                            CreateView::Source {
                                lookup: l,
                                dirfd: fd,
                                name: entry,
                                oldname: source,
                            };
                        let after2 = |r: Result<i32, ErrorView>|
                            match r {
                                Ok(olddirfd) => Next::<CreateView, ()>::Call(
                                    CreateView::Final {
                                        syscall: Syscall::Linkat,
                                        dirfd: fd,
                                        source: Some(olddirfd),
                                    },
                                    RequestView::Linkat {
                                        olddirfd,
                                        oldname: source,
                                        newdirfd: fd,
                                        newname: entry,
                                        flags: 0,
                                    },
                                ),
                                Err(error) => Next::<CreateView, ()>::Done(
                                    Err(error.wrapped(source_parent_context())),
                                ),
                            };
                        assert forall|l: ResolveView, reply: ReplyView|
                            #![trigger lookup(l, reply)]
                            step(wrap2(l), reply) == lifted(lookup(l, reply), wrap2, after2) by {}
                        let begun2 = ResolveView::start(root, oldparent);
                        lemma_run_inside(lookup, step, wrap2, after2, begun2, rest);
                        assert(after(Ok(fd)) == lifted(begun2, wrap2, after2));
                        let rest2 = rest.skip(used(lookup, begun2, rest) as int);
                        if let Next::Done(Ok(old)) = run(lookup, begun2, rest) {
                            assert(end == run(step, after2(Ok(old)), rest2));
                            assert(rest2.len() > 0);
                            assert(verdict(step, after2(Ok(old)), rest2) == Some(
                                (
                                    RequestView::Linkat {
                                        olddirfd: old,
                                        oldname: source,
                                        newdirfd: fd,
                                        newname: entry,
                                        flags: 0,
                                    },
                                    rest2[0],
                                ),
                            ));
                        }
                    }
                }
            },
        }
    }
}

/// Whatever the replies are, a creation that is going on holds the descriptors
/// that the exchanges have left open; when it is over, what is left open is
/// what it held last and what the last reply opened.
pub proof fn lemma_create_run_holds(
    root: RootView,
    path: Seq<u8>,
    kind: InodeTypeView,
    replies: Seq<ReplyView>,
)
    ensures
        ({
            let step = |s: CreateView, reply: ReplyView| s.step(root, reply);
            let start = CreateView::start(root, path, kind);
            let open = counted(step, start, replies, Multiset::empty());
            &&& run(step, start, replies) matches Next::Call(state, _) ==> open == state.held()
            &&& verdict(step, start, replies) matches Some((_, reply)) ==> exists|s: CreateView|
                s.wf() && #[trigger] s.step(root, reply) == run(step, start, replies) && open
                    == s.held().add(opened(reply))
        }),
{
    let step = |s: CreateView, reply: ReplyView| s.step(root, reply);
    let inv = |s: CreateView| s.wf();
    let holds = |s: CreateView| s.held();
    let start = CreateView::start(root, path, kind);
    assert forall|s: CreateView, reply: ReplyView| #![trigger step(s, reply)] inv(s) implies (step(
        s,
        reply,
    ) matches Next::Call(next, asked) ==> inv(next) && holds(next) == track(
        holds(s),
        reply,
        asked,
    )) by {
        lemma_create_step(s, root, reply);
    }
    lemma_run_counts(step, inv, holds, start, replies, Multiset::empty());
    if let Some((_, reply)) = verdict(step, start, replies) {
        let s = choose|s: CreateView|
            inv(s) && #[trigger] step(s, reply) == run(step, start, replies) && counted(
                step,
                start,
                replies,
                Multiset::empty(),
            ) == holds(s).add(opened(reply));
        assert(s.wf() && s.step(root, reply) == run(step, start, replies));
    }
}

/// Whatever the replies are, a creation is over after more of them than its
/// first state has fuel.
pub proof fn lemma_create_terminates(
    root: RootView,
    path: Seq<u8>,
    kind: InodeTypeView,
    replies: Seq<ReplyView>,
)
    requires
        replies.len() > (CreateView::Check { path, kind }).fuel(),
    ensures
        run(
            |s: CreateView, reply: ReplyView| s.step(root, reply),
            CreateView::start(root, path, kind),
            replies,
        ) is Done,
{
    let step = |s: CreateView, reply: ReplyView| s.step(root, reply);
    assert forall|s: CreateView, reply: ReplyView| #![trigger step(s, reply)] s.wf() implies (step(
        s,
        reply,
    ) matches Next::Call(next, _) ==> next.wf() && next.fuel() < s.fuel()) by {
        lemma_create_step(s, root, reply);
    }
    lemma_run_ends(
        step,
        |s: CreateView| s.wf(),
        |s: CreateView| s.fuel(),
        CreateView::start(root, path, kind),
        replies,
    );
}

/// Whatever the replies are, the creation of a file that is going on holds the descriptors
/// that the exchanges have left open; when it is over, what is left open is
/// what it held last and what the last reply opened.
pub proof fn lemma_create_file_run_holds(
    root: RootView,
    path: Seq<u8>,
    mode: u32,
    replies: Seq<ReplyView>,
)
    ensures
        ({
            let step = |s: CreateFileView, reply: ReplyView| s.step(root, reply);
            let start = CreateFileView::start(root, path, mode);
            let open = counted(step, start, replies, Multiset::empty());
            &&& run(step, start, replies) matches Next::Call(state, _) ==> open == state.held()
            &&& verdict(step, start, replies) matches Some((_, reply)) ==> exists|s: CreateFileView|
                s.wf() && #[trigger] s.step(root, reply) == run(step, start, replies) && open
                    == s.held().add(opened(reply))
        }),
{
    let step = |s: CreateFileView, reply: ReplyView| s.step(root, reply);
    let inv = |s: CreateFileView| s.wf();
    let holds = |s: CreateFileView| s.held();
    let start = CreateFileView::start(root, path, mode);
    assert forall|s: CreateFileView, reply: ReplyView| #![trigger step(s, reply)] inv(s) implies (
    step(s, reply) matches Next::Call(next, asked) ==> inv(next) && holds(next) == track(
        holds(s),
        reply,
        asked,
    )) by {
        lemma_create_file_step(s, root, reply);
    }
    lemma_run_counts(step, inv, holds, start, replies, Multiset::empty());
    if let Some((_, reply)) = verdict(step, start, replies) {
        let s = choose|s: CreateFileView|
            inv(s) && #[trigger] step(s, reply) == run(step, start, replies) && counted(
                step,
                start,
                replies,
                Multiset::empty(),
            ) == holds(s).add(opened(reply));
        assert(s.wf() && s.step(root, reply) == run(step, start, replies));
    }
}

/// Whatever the replies are, the creation of a file is over after more of
/// them than its first state has fuel.
pub proof fn lemma_create_file_terminates(
    root: RootView,
    path: Seq<u8>,
    mode: u32,
    replies: Seq<ReplyView>,
)
    requires
        replies.len() > (CreateFileView::Check { path, mode }).fuel(),
    ensures
        run(
            |s: CreateFileView, reply: ReplyView| s.step(root, reply),
            CreateFileView::start(root, path, mode),
            replies,
        ) is Done,
{
    let step = |s: CreateFileView, reply: ReplyView| s.step(root, reply);
    assert forall|s: CreateFileView, reply: ReplyView| #![trigger step(s, reply)] s.wf() implies (
    step(s, reply) matches Next::Call(next, _) ==> next.wf() && next.fuel() < s.fuel()) by {
        lemma_create_file_step(s, root, reply);
    }
    lemma_run_ends(
        step,
        |s: CreateFileView| s.wf(),
        |s: CreateFileView| s.fuel(),
        CreateFileView::start(root, path, mode),
        replies,
    );
}

/// A new entry is made only where the lookup of its parent directory ended.
///
/// Once the root is found valid, the directory part of the path is what is
/// looked up and the final component of the path is the name that is kept.
/// When that lookup returns a descriptor, the one creating call is made
/// relative to that descriptor and under that name; a hard link is made from
/// the descriptor that the lookup of its source returned. No creating call is
/// made in any other way.
pub proof fn lemma_create_scope(s: CreateView, root: RootView, reply: ReplyView)
    requires
        s.wf(),
    ensures
        match s {
            CreateView::Check { path, kind } => {
                &&& !(s.step(root, reply) matches Next::Call(CreateView::Final { .. }, _))
                &&& s.step(root, reply) matches Next::Call(
                    CreateView::Locate { lookup, name, node },
                    _,
                ) ==> {
                    &&& kind.plan() == PlanView::Node(node)
                    &&& split(path) matches Ok((parent, last))
                    &&& lookup == (ResolveView::Check { path: parent })
                    &&& name == last
                }
                &&& s.step(root, reply) matches Next::Call(
                    CreateView::LocateLink { lookup, name, existing },
                    _,
                ) ==> {
                    &&& kind.plan() == PlanView::Link(existing)
                    &&& split(path) matches Ok((parent, last))
                    &&& lookup == (ResolveView::Check { path: parent })
                    &&& name == last
                }
            },
            CreateView::Locate { lookup, name, node } => match lookup.step(root, reply) {
                Next::Done(Ok(dirfd)) => s.step(root, reply) == Next::<CreateView, ()>::Call(
                    CreateView::Final { syscall: node.syscall(), dirfd, source: None },
                    node.request(dirfd, name),
                ),
                _ => !(s.step(root, reply) matches Next::Call(CreateView::Final { .. }, _)),
            },
            CreateView::Source { lookup, dirfd, name, oldname } => match lookup.step(root, reply) {
                Next::Done(Ok(olddirfd)) => s.step(root, reply) == Next::<CreateView, ()>::Call(
                    CreateView::Final { syscall: Syscall::Linkat, dirfd, source: Some(olddirfd) },
                    RequestView::Linkat {
                        olddirfd,
                        oldname,
                        newdirfd: dirfd,
                        newname: name,
                        flags: 0,
                    },
                ),
                _ => !(s.step(root, reply) matches Next::Call(CreateView::Final { .. }, _)),
            },
            _ => !(s.step(root, reply) matches Next::Call(CreateView::Final { .. }, _)),
        },
{
    match s {
        CreateView::Check { path, kind } => {
            lemma_split_is_safe(path);
        },
        _ => {},
    }
}

enum FileState {
    Check { path: Vec<u8>, mode: u32 },
    Locate { lookup: Resolve, name: Vec<u8>, mode: u32 },
    Make { dirfd: i32 },
}

/// The creation of one ordinary file inside a root.
pub struct CreateFile {
    state: FileState,
}

impl View for CreateFile {
    type V = CreateFileView;

    closed spec fn view(&self) -> CreateFileView {
        match self.state {
            FileState::Check { path, mode } => CreateFileView::Check { path: path@, mode },
            FileState::Locate { lookup, name, mode } => CreateFileView::Locate {
                lookup: lookup@,
                name: name@,
                mode,
            },
            FileState::Make { dirfd } => CreateFileView::Make { dirfd },
        }
    }
}

enum State {
    Check { path: Vec<u8>, kind: InodeType },
    File(CreateFile),
    Locate { lookup: Resolve, name: Vec<u8>, node: Node },
    LocateLink { lookup: Resolve, name: Vec<u8>, existing: Vec<u8> },
    Source { lookup: Resolve, dirfd: i32, name: Vec<u8>, oldname: Vec<u8> },
    Final { syscall: Syscall, dirfd: i32, source: Option<i32> },
}

/// The creation of one inode inside a root.
pub struct Create {
    state: State,
}

impl View for Create {
    type V = CreateView;

    closed spec fn view(&self) -> CreateView {
        match self.state {
            State::Check { path, kind } => CreateView::Check { path: path@, kind: kind@ },
            State::File(inner) => CreateView::File(inner@),
            State::Locate { lookup, name, node } => CreateView::Locate {
                lookup: lookup@,
                name: name@,
                node: node@,
            },
            State::LocateLink { lookup, name, existing } => CreateView::LocateLink {
                lookup: lookup@,
                name: name@,
                existing: existing@,
            },
            State::Source { lookup, dirfd, name, oldname } => CreateView::Source {
                lookup: lookup@,
                dirfd,
                name: name@,
                oldname: oldname@,
            },
            State::Final { syscall, dirfd, source } => CreateView::Final {
                syscall,
                dirfd,
                source,
            },
        }
    }
}

impl Root {
    /// Begins to create an ordinary file with the given mode at `path`
    /// inside this root.
    ///
    /// The creation ends with a [`Handle`] to the new file. The handle is
    /// the descriptor that the creating call itself returned, so it is the
    /// file that was created and no other.
    pub fn create_file(&self, path: &[u8], mode: u32) -> (r: Step<CreateFile, Handle>)
        ensures
            r@ == CreateFileView::start(self@, path@, mode),
            r@.names_clean(),
            r matches Step::Call(creation, _) && creation@.wf(),
    {
        let (creation, request) = CreateFile::begin(self, path, mode);
        Step::Call(creation, request)
    }

    /// Begins to create an inode of the type `inode_type` at `path` inside
    /// this root.
    ///
    /// The creation fails if the path exists already, whatever is there.
    pub fn create(&self, path: &[u8], inode_type: &InodeType) -> (r: Step<Create, ()>)
        ensures
            r@ == CreateView::start(self@, path@, inode_type@),
            r@.names_clean(),
            r matches Step::Call(creation, _) && creation@.wf(),
    {
        Step::Call(
            Create { state: State::Check { path: copy(path), kind: inode_type.duplicate() } },
            Request::Readback { fd: self.as_raw_fd() },
        )
    }
}

impl CreateFile {
    #[verifier::type_invariant]
    spec fn inv(self) -> bool {
        self@.wf()
    }

    /// The first state and the first request of the creation of a file.
    pub(crate) fn begin(root: &Root, path: &[u8], mode: u32) -> (r: (CreateFile, Request))
        ensures
            r.0@ == (CreateFileView::Check { path: path@, mode }),
            r.1@ == (RequestView::Readback { fd: root@.fd }),
            r.0@.wf(),
    {
        (
            CreateFile { state: FileState::Check { path: copy(path), mode } },
            Request::Readback { fd: root.as_raw_fd() },
        )
    }

    /// Goes on with the reply to the last request of the creation.
    ///
    /// The creation succeeds if and only if the exclusive open of the final
    /// component of the path, relative to the resolved parent directory,
    /// returned a descriptor; the handle is that descriptor.
    pub fn step(self, root: &Root, reply: Reply) -> (r: Step<CreateFile, Handle>)
        ensures
            r@ == self@.step(root@, reply@),
            self@.wf(),
            r@.names_clean(),
            r matches Step::Call(creation, asked) ==> creation@.wf() && creation@.fuel()
                < self@.fuel() && creation@.held() == track(self@.held(), reply@, asked@),
            r matches Step::Done(Ok(handle)) ==> self@ is Make && reply@ == ReplyView::Fd(handle@),
    {
        proof {
            use_type_invariant(&self);
            lemma_create_file_step(self@, root@, reply@);
        }
        match self.state {
            FileState::Check { path, mode } => match root.check(&reply) {
                Err(error) => Step::Done(Err(error)),
                Ok(()) => match path_split(path.as_slice()) {
                    Err(error) => Step::Done(
                        Err(error.wrap("split target path into (parent, name)")),
                    ),
                    Ok((parent, name)) => {
                        let name = copy(name);
                        let (lookup, request) = Resolve::begin(root, parent);
                        Step::Call(
                            CreateFile { state: FileState::Locate { lookup, name, mode } },
                            request,
                        )
                    },
                },
            },
            FileState::Locate { lookup, name, mode } => match lookup.step(root, reply) {
                Step::Call(lookup, request) => Step::Call(
                    CreateFile { state: FileState::Locate { lookup, name, mode } },
                    request,
                ),
                Step::Done(Err(error)) => Step::Done(
                    Err(error.wrap("resolve target parent directory for inode creation")),
                ),
                Step::Done(Ok(parent)) => Step::Call(
                    CreateFile { state: FileState::Make { dirfd: parent.as_raw_fd() } },
                    Request::Openat {
                        dirfd: parent.as_raw_fd(),
                        name,
                        how: Open::CreateExclusive { mode },
                    },
                ),
            },
            FileState::Make { .. } => match reply {
                Reply::Fd(fd) => Step::Done(Ok(Handle::new(fd))),
                _ => Step::Done(Err(fail(&reply, Syscall::Openat, "pathrs create_file"))),
            },
        }
    }
}

impl Create {
    #[verifier::type_invariant]
    spec fn inv(self) -> bool {
        self@.wf()
    }

    fn lift(next: Step<CreateFile, Handle>) -> (r: Step<Create, ()>)
        requires
            next matches Step::Call(inner, _) ==> inner@.wf(),
        ensures
            r@ == CreateView::lift(next@),
    {
        match next {
            Step::Call(inner, request) => Step::Call(Create { state: State::File(inner) }, request),
            Step::Done(Ok(_)) => Step::Done(Ok(())),
            Step::Done(Err(error)) => Step::Done(Err(error)),
        }
    }

    /// Goes on with the reply to the last request of the creation.
    ///
    /// The creation succeeds if and only if its one creating call did.
    pub fn step(self, root: &Root, reply: Reply) -> (r: Step<Create, ()>)
        ensures
            r@ == self@.step(root@, reply@),
            self@.wf(),
            r@.names_clean(),
            r matches Step::Call(creation, asked) ==> creation@.wf() && creation@.fuel()
                < self@.fuel() && creation@.held() == track(self@.held(), reply@, asked@),
            r matches Step::Done(Ok(_)) ==> (self@ is Final && reply@ == ReplyView::Done) || (
            self@ matches CreateView::File(CreateFileView::Make { .. }) && reply@ is Fd),
    {
        proof {
            use_type_invariant(&self);
            lemma_create_step(self@, root@, reply@);
        }
        match self.state {
            State::Check { path, kind } => match root.check(&reply) {
                Err(error) => Step::Done(Err(error)),
                Ok(()) => {
                    proof {
                        lemma_split_is_safe(path@);
                    }
                    match kind.plan() {
                        Plan::File(mode) => {
                            let (inner, request) = CreateFile::begin(root, path.as_slice(), mode);
                            Step::Call(Create { state: State::File(inner) }, request)
                        },
                        Plan::Link(existing) => match path_split(path.as_slice()) {
                            Err(error) => Step::Done(
                                Err(error.wrap("split target path into (parent, name)")),
                            ),
                            Ok((parent, name)) => {
                                let name = copy(name);
                                let (lookup, request) = Resolve::begin(root, parent);
                                Step::Call(
                                    Create { state: State::LocateLink { lookup, name, existing } },
                                    request,
                                )
                            },
                        },
                        Plan::Node(node) => match path_split(path.as_slice()) {
                            Err(error) => Step::Done(
                                Err(error.wrap("split target path into (parent, name)")),
                            ),
                            Ok((parent, name)) => {
                                let name = copy(name);
                                let (lookup, request) = Resolve::begin(root, parent);
                                Step::Call(
                                    Create { state: State::Locate { lookup, name, node } },
                                    request,
                                )
                            },
                        },
                    }
                },
            },
            State::File(inner) => Create::lift(inner.step(root, reply)),
            State::Locate { lookup, name, node } => match lookup.step(root, reply) {
                Step::Call(lookup, request) => Step::Call(
                    Create { state: State::Locate { lookup, name, node } },
                    request,
                ),
                Step::Done(Err(error)) => Step::Done(
                    Err(error.wrap("resolve target parent directory for inode creation")),
                ),
                Step::Done(Ok(parent)) => {
                    let syscall = node.syscall();
                    let dirfd = parent.as_raw_fd();
                    let request = node.request(dirfd, name);
                    Step::Call(
                        Create { state: State::Final { syscall, dirfd, source: None } },
                        request,
                    )
                },
            },
            State::LocateLink { lookup, name, existing } => match lookup.step(root, reply) {
                Step::Call(lookup, request) => Step::Call(
                    Create { state: State::LocateLink { lookup, name, existing } },
                    request,
                ),
                Step::Done(Err(error)) => Step::Done(
                    Err(error.wrap("resolve target parent directory for inode creation")),
                ),
                Step::Done(Ok(parent)) => {
                    proof {
                        lemma_split_is_safe(existing@);
                    }
                    match path_split(existing.as_slice()) {
                        Err(error) => Step::Done(
                            Err(error.wrap("split hardlink source path into (parent, name)")),
                        ),
                        Ok((oldparent, oldname)) => {
                            let oldname = copy(oldname);
                            let (lookup, request) = Resolve::begin(root, oldparent);
                            Step::Call(
                                Create {
                                    state: State::Source {
                                        lookup,
                                        dirfd: parent.as_raw_fd(),
                                        name,
                                        oldname,
                                    },
                                },
                                request,
                            )
                        },
                    }
                },
            },
            State::Source { lookup, dirfd, name, oldname } => match lookup.step(root, reply) {
                Step::Call(lookup, request) => Step::Call(
                    Create { state: State::Source { lookup, dirfd, name, oldname } },
                    request,
                ),
                Step::Done(Err(error)) => Step::Done(
                    Err(error.wrap("resolve hardlink source parent for hardlink")),
                ),
                Step::Done(Ok(oldparent)) => Step::Call(
                    Create {
                        state: State::Final {
                            syscall: Syscall::Linkat,
                            dirfd,
                            source: Some(oldparent.as_raw_fd()),
                        },
                    },
                    Request::Linkat {
                        olddirfd: oldparent.as_raw_fd(),
                        oldname,
                        newdirfd: dirfd,
                        newname: name,
                        flags: 0,
                    },
                ),
            },
            State::Final { syscall, .. } => match reply {
                Reply::Done => Step::Done(Ok(())),
                _ => Step::Done(Err(fail(&reply, syscall, "pathrs create"))),
            },
        }
    }
}

} // verus!
