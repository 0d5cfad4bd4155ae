//! The system calls an operation asks for, and what the caller answers.
//!
//! An operation never enters the kernel. It hands out a [`Request`], the
//! caller performs it and hands back a [`Reply`]. Every request that names a
//! directory entry carries a name without a separator, so a single request
//! never walks further than one entry below the descriptor it is relative to.
//!
//! A descriptor that an operation had opened belongs to the caller. A walk
//! asks for the descriptors it leaves behind to be closed as it goes. Every
//! state says which descriptors the operation holds; when the operation is
//! over, the caller closes those it held last and the one the last reply
//! opened, except the descriptor that the result hands out.

use crate::error::{Error, ErrorView, Syscall, SyscallError};
use crate::path::clean;
use vstd::multiset::Multiset;
use vstd::prelude::*;
use vstd::slice::slice_to_vec;

verus! {

/// The mask of the file type bits of a mode.
pub open spec fn type_mask() -> u32 {
    0o170000
}

/// The file type bits of a directory.
pub open spec fn type_directory() -> u32 {
    0o040000
}

/// The file type bits of a symbolic link.
pub open spec fn type_symlink() -> u32 {
    0o120000
}

/// The file type bits of a named pipe.
pub open spec fn type_fifo() -> u32 {
    0o010000
}

/// The file type bits of a character device.
pub open spec fn type_character_device() -> u32 {
    0o020000
}

/// The file type bits of a block device.
pub open spec fn type_block_device() -> u32 {
    0o060000
}

/// The `unlinkat` flag that removes a directory.
pub open spec fn flag_remove_directory() -> i32 {
    0x200
}

/// The scoped-open flags of a lookup inside a root: the descriptor is
/// treated as the root of the lookup, and neither magic links nor mount
/// points are crossed.
pub open spec fn scoped_resolve_flags() -> u64 {
    0x10u64 | 0x02u64 | 0x01u64
}

/// `libc::S_IFMT`, the mask of the file type bits of a mode: `0o170000` on
/// Linux.
#[verifier::external_body]
fn s_ifmt() -> (r: u32)
    ensures
        r == type_mask(),
{
    libc::S_IFMT
}

/// `libc::S_IFDIR`, the file type bits of a directory: `0o040000` on Linux.
#[verifier::external_body]
fn s_ifdir() -> (r: u32)
    ensures
        r == type_directory(),
{
    libc::S_IFDIR
}

/// `libc::S_IFLNK`, the file type bits of a symbolic link: `0o120000` on
/// Linux.
#[verifier::external_body]
fn s_iflnk() -> (r: u32)
    ensures
        r == type_symlink(),
{
    libc::S_IFLNK
}

/// `libc::S_IFIFO`, the file type bits of a named pipe: `0o010000` on Linux.
#[verifier::external_body]
fn s_ififo() -> (r: u32)
    ensures
        r == type_fifo(),
{
    libc::S_IFIFO
}

/// `libc::S_IFCHR`, the file type bits of a character device: `0o020000` on
/// Linux.
#[verifier::external_body]
fn s_ifchr() -> (r: u32)
    ensures
        r == type_character_device(),
{
    libc::S_IFCHR
}

/// `libc::S_IFBLK`, the file type bits of a block device: `0o060000` on
/// Linux.
#[verifier::external_body]
fn s_ifblk() -> (r: u32)
    ensures
        r == type_block_device(),
{
    libc::S_IFBLK
}

/// `libc::AT_REMOVEDIR`, the `unlinkat` flag that removes a directory:
/// `0x200` on Linux.
#[verifier::external_body]
fn at_removedir() -> (r: i32)
    ensures
        r == flag_remove_directory(),
{
    libc::AT_REMOVEDIR
}

/// `libc::RESOLVE_IN_ROOT`, the `openat2` flag that treats the directory
/// descriptor as the root of the lookup: `0x10`.
#[verifier::external_body]
fn resolve_in_root() -> (r: u64)
    ensures
        r == 0x10,
{
    libc::RESOLVE_IN_ROOT
}

/// `libc::RESOLVE_NO_MAGICLINKS`, the `openat2` flag that refuses magic
/// links: `0x02`.
#[verifier::external_body]
fn resolve_no_magiclinks() -> (r: u64)
    ensures
        r == 0x02,
{
    libc::RESOLVE_NO_MAGICLINKS
}

/// `libc::RESOLVE_NO_XDEV`, the `openat2` flag that refuses to cross a mount
/// point: `0x01`.
#[verifier::external_body]
fn resolve_no_xdev() -> (r: u64)
    ensures
        r == 0x01,
{
    libc::RESOLVE_NO_XDEV
}

/// The file type bits of `mode`.
pub open spec fn type_bits(mode: u32) -> u32 {
    mode & type_mask()
}

/// `mode` without its file type bits.
pub open spec fn permission_bits(mode: u32) -> u32 {
    mode & !type_mask()
}

/// The mode of a new node of the type `kind` with the permissions of `mode`.
pub open spec fn node_mode(kind: u32, mode: u32) -> u32 {
    kind | permission_bits(mode)
}

/// Whether `mode` is that of a directory.
pub open spec fn is_directory(mode: u32) -> bool {
    type_bits(mode) == type_directory()
}

/// Whether `mode` is that of a symbolic link.
pub open spec fn is_symlink(mode: u32) -> bool {
    type_bits(mode) == type_symlink()
}

/// The flags with which an entry of the type that `mode` shows is unlinked.
pub open spec fn unlink_flags(mode: u32) -> i32 {
    if is_directory(mode) {
        flag_remove_directory()
    } else {
        0
    }
}

/// The type of inode a creation request makes.
#[derive(Clone, Copy, Debug, PartialEq, Eq, Structural)]
pub enum NodeKind {
    /// A named pipe.
    Fifo,
    /// A character device.
    CharacterDevice,
    /// A block device.
    BlockDevice,
}

impl NodeKind {
    /// The file type bits of this kind of node.
    pub open spec fn bits(self) -> u32 {
        match self {
            NodeKind::Fifo => type_fifo(),
            NodeKind::CharacterDevice => type_character_device(),
            NodeKind::BlockDevice => type_block_device(),
        }
    }
}

/// A node mode has the file type it was made for and the permissions it was
/// made from, whatever file type bits the permissions came with.
pub proof fn lemma_node_mode(kind: NodeKind, mode: u32)
    ensures
        type_bits(node_mode(kind.bits(), mode)) == kind.bits(),
        permission_bits(node_mode(kind.bits(), mode)) == permission_bits(mode),
        type_bits(permission_bits(mode)) == 0,
{
    let k = kind.bits();
    assert(k == 0o010000u32 || k == 0o020000u32 || k == 0o060000u32);
    assert((k | (mode & !0o170000u32)) & 0o170000u32 == k) by (bit_vector)
        requires
            k == 0o010000u32 || k == 0o020000u32 || k == 0o060000u32,
    ;
    assert((k | (mode & !0o170000u32)) & !0o170000u32 == mode & !0o170000u32) by (bit_vector)
        requires
            k == 0o010000u32 || k == 0o020000u32 || k == 0o060000u32,
    ;
    assert((mode & !0o170000u32) & 0o170000u32 == 0) by (bit_vector);
}

/// `mode` without its file type bits.
pub fn permissions(mode: u32) -> (r: u32)
    ensures
        r == permission_bits(mode),
{
    mode & !s_ifmt()
}

/// The mode with which a node of the type `kind` and the permissions of
/// `mode` is made.
pub fn mode_of_node(kind: NodeKind, mode: u32) -> (r: u32)
    ensures
        r == node_mode(kind.bits(), mode),
        type_bits(r) == kind.bits(),
        permission_bits(r) == permission_bits(mode),
{
    proof {
        lemma_node_mode(kind, mode);
    }
    let bits = match kind {
        NodeKind::Fifo => s_ififo(),
        NodeKind::CharacterDevice => s_ifchr(),
        NodeKind::BlockDevice => s_ifblk(),
    };
    bits | permissions(mode)
}

/// Whether `mode` is that of a directory.
pub fn mode_is_directory(mode: u32) -> (r: bool)
    ensures
        r == is_directory(mode),
{
    mode & s_ifmt() == s_ifdir()
}

/// Whether `mode` is that of a symbolic link.
pub fn mode_is_symlink(mode: u32) -> (r: bool)
    ensures
        r == is_symlink(mode),
{
    mode & s_ifmt() == s_iflnk()
}

/// The flags with which an entry of the type that `mode` shows is unlinked:
/// the one that removes a directory if it is one, none otherwise.
pub fn flags_to_unlink(mode: u32) -> (r: i32)
    ensures
        r == unlink_flags(mode),
{
    let mut flags: i32 = 0;
    if mode_is_directory(mode) {
        flags = at_removedir();
    }
    flags
}

/// The scoped-open flags of a lookup inside a root.
pub fn resolve_flags() -> (r: u64)
    ensures
        r == scoped_resolve_flags(),
{
    let a = resolve_in_root();
    let b = resolve_no_magiclinks();
    let c = resolve_no_xdev();
    a | b | c
}

/// What the running kernel was found to support.
#[derive(Clone, Copy, Debug, PartialEq, Eq, Structural)]
pub struct Capabilities {
    /// Whether the scoped-open call `openat2` is there.
    pub openat2: bool,
    /// Whether `renameat2` takes flags.
    pub rename_flags: bool,
}

/// How a directory entry is opened.
#[derive(Clone, Copy, Debug, PartialEq, Eq, Structural)]
pub enum Open {
    /// As a path-only descriptor that must be a directory.
    PathDirectory,
    /// As a path-only descriptor, without following a symbolic link.
    PathNoFollow,
    /// As a new file with the given mode; an entry that exists is an error.
    CreateExclusive { mode: u32 },
}

/// What `fstatat` reports of an inode, as far as the library reads it.
#[derive(Clone, Copy, Debug, PartialEq, Eq, Structural)]
pub struct Stat {
    /// File type and permissions.
    pub mode: u32,
    /// The device the inode lives on.
    pub dev: u64,
    /// The inode number.
    pub ino: u64,
}

/// One system call for the caller to perform.
///
/// A `name` is a single directory entry below `dirfd`; the empty name stands
/// for the descriptor itself. A `path` is handed to the kernel whole.
#[derive(Debug, PartialEq, Eq)]
pub enum Request {
    /// Read the path of `fd` back from `/proc/self/fd`.
    Readback { fd: i32 },
    /// Open the directory at the absolute `path` as a path-only descriptor.
    OpenRoot { path: Vec<u8> },
    /// `openat2(dirfd, path)` for a path-only descriptor with the scoping
    /// flags `resolve`.
    Openat2 { dirfd: i32, path: Vec<u8>, resolve: u64 },
    /// Duplicate `fd`.
    Dup { fd: i32 },
    /// `openat(dirfd, name)`.
    Openat { dirfd: i32, name: Vec<u8>, how: Open },
    /// `fstatat(dirfd, name)`, without following a symbolic link.
    Fstatat { dirfd: i32, name: Vec<u8> },
    /// `readlinkat(dirfd, name)`.
    Readlinkat { dirfd: i32, name: Vec<u8> },
    /// `mkdirat(dirfd, name, mode)`.
    Mkdirat { dirfd: i32, name: Vec<u8>, mode: u32 },
    /// `symlinkat(target, dirfd, name)`.
    Symlinkat { target: Vec<u8>, dirfd: i32, name: Vec<u8> },
    /// `linkat(olddirfd, oldname, newdirfd, newname, flags)`.
    Linkat { olddirfd: i32, oldname: Vec<u8>, newdirfd: i32, newname: Vec<u8>, flags: i32 },
    /// `mknodat(dirfd, name, mode, dev)`.
    Mknodat { dirfd: i32, name: Vec<u8>, mode: u32, dev: u64 },
    /// `unlinkat(dirfd, name, flags)`.
    Unlinkat { dirfd: i32, name: Vec<u8>, flags: i32 },
    /// `renameat2(olddirfd, oldname, newdirfd, newname, flags)`.
    Renameat2 { olddirfd: i32, oldname: Vec<u8>, newdirfd: i32, newname: Vec<u8>, flags: i32 },
    /// Close `fd`.
    Close { fd: i32 },
}

/// The mathematical value of a [`Request`].
pub enum RequestView {
    Readback { fd: i32 },
    OpenRoot { path: Seq<u8> },
    Openat2 { dirfd: i32, path: Seq<u8>, resolve: u64 },
    Dup { fd: i32 },
    Openat { dirfd: i32, name: Seq<u8>, how: Open },
    Fstatat { dirfd: i32, name: Seq<u8> },
    Readlinkat { dirfd: i32, name: Seq<u8> },
    Mkdirat { dirfd: i32, name: Seq<u8>, mode: u32 },
    Symlinkat { target: Seq<u8>, dirfd: i32, name: Seq<u8> },
    Linkat { olddirfd: i32, oldname: Seq<u8>, newdirfd: i32, newname: Seq<u8>, flags: i32 },
    Mknodat { dirfd: i32, name: Seq<u8>, mode: u32, dev: u64 },
    Unlinkat { dirfd: i32, name: Seq<u8>, flags: i32 },
    Renameat2 { olddirfd: i32, oldname: Seq<u8>, newdirfd: i32, newname: Seq<u8>, flags: i32 },
    Close { fd: i32 },
}

impl RequestView {
    /// Whether every name of the request is clean: no request reaches
    /// further than one directory entry below its descriptor.
    pub open spec fn names_clean(self) -> bool {
        match self {
            RequestView::Openat { name, .. } => clean(name),
            RequestView::Fstatat { name, .. } => clean(name),
            RequestView::Readlinkat { name, .. } => clean(name),
            RequestView::Mkdirat { name, .. } => clean(name),
            RequestView::Symlinkat { name, .. } => clean(name),
            RequestView::Linkat { oldname, newname, .. } => clean(oldname) && clean(newname),
            RequestView::Mknodat { name, .. } => clean(name),
            RequestView::Unlinkat { name, .. } => clean(name),
            RequestView::Renameat2 { oldname, newname, .. } => clean(oldname) && clean(newname),
            _ => true,
        }
    }

    /// The descriptor the request is relative to; for a link and a rename,
    /// the directory of the new name.
    pub open spec fn directory(self) -> i32 {
        match self {
            RequestView::Readback { fd } => fd,
            RequestView::OpenRoot { .. } => -1i32,
            RequestView::Openat2 { dirfd, .. } => dirfd,
            RequestView::Dup { fd } => fd,
            RequestView::Openat { dirfd, .. } => dirfd,
            RequestView::Fstatat { dirfd, .. } => dirfd,
            RequestView::Readlinkat { dirfd, .. } => dirfd,
            RequestView::Mkdirat { dirfd, .. } => dirfd,
            RequestView::Symlinkat { dirfd, .. } => dirfd,
            RequestView::Linkat { newdirfd, .. } => newdirfd,
            RequestView::Mknodat { dirfd, .. } => dirfd,
            RequestView::Unlinkat { dirfd, .. } => dirfd,
            RequestView::Renameat2 { newdirfd, .. } => newdirfd,
            RequestView::Close { fd } => fd,
        }
    }

    /// The system call the request stands for.
    pub open spec fn syscall(self) -> Syscall {
        match self {
            RequestView::Readback { .. } => Syscall::Readback,
            RequestView::OpenRoot { .. } => Syscall::Openat,
            RequestView::Openat2 { .. } => Syscall::Openat2,
            RequestView::Dup { .. } => Syscall::Dup,
            RequestView::Openat { .. } => Syscall::Openat,
            RequestView::Fstatat { .. } => Syscall::Fstatat,
            RequestView::Readlinkat { .. } => Syscall::Readlinkat,
            RequestView::Mkdirat { .. } => Syscall::Mkdirat,
            RequestView::Symlinkat { .. } => Syscall::Symlinkat,
            RequestView::Linkat { .. } => Syscall::Linkat,
            RequestView::Mknodat { .. } => Syscall::Mknodat,
            RequestView::Unlinkat { .. } => Syscall::Unlinkat,
            RequestView::Renameat2 { .. } => Syscall::Renameat2,
            RequestView::Close { .. } => Syscall::Close,
        }
    }
}

impl View for Request {
    type V = RequestView;

    open spec fn view(&self) -> RequestView {
        match self {
            Request::Readback { fd } => RequestView::Readback { fd: *fd },
            Request::OpenRoot { path } => RequestView::OpenRoot { path: path@ },
            Request::Openat2 { dirfd, path, resolve } => RequestView::Openat2 {
                dirfd: *dirfd,
                path: path@,
                resolve: *resolve,
            },
            Request::Dup { fd } => RequestView::Dup { fd: *fd },
            Request::Openat { dirfd, name, how } => RequestView::Openat {
                dirfd: *dirfd,
                name: name@,
                how: *how,
            },
            Request::Fstatat { dirfd, name } => RequestView::Fstatat { dirfd: *dirfd, name: name@ },
            Request::Readlinkat { dirfd, name } => RequestView::Readlinkat {
                dirfd: *dirfd,
                name: name@,
            },
            Request::Mkdirat { dirfd, name, mode } => RequestView::Mkdirat {
                dirfd: *dirfd,
                name: name@,
                mode: *mode,
            },
            Request::Symlinkat { target, dirfd, name } => RequestView::Symlinkat {
                target: target@,
                dirfd: *dirfd,
                name: name@,
            },
            Request::Linkat { olddirfd, oldname, newdirfd, newname, flags } => RequestView::Linkat {
                olddirfd: *olddirfd,
                oldname: oldname@,
                newdirfd: *newdirfd,
                newname: newname@,
                flags: *flags,
            },
            Request::Mknodat { dirfd, name, mode, dev } => RequestView::Mknodat {
                dirfd: *dirfd,
                name: name@,
                mode: *mode,
                dev: *dev,
            },
            Request::Unlinkat { dirfd, name, flags } => RequestView::Unlinkat {
                dirfd: *dirfd,
                name: name@,
                flags: *flags,
            },
            Request::Renameat2 {
                olddirfd,
                oldname,
                newdirfd,
                newname,
                flags,
            } => RequestView::Renameat2 {
                olddirfd: *olddirfd,
                oldname: oldname@,
                newdirfd: *newdirfd,
                newname: newname@,
                flags: *flags,
            },
            Request::Close { fd } => RequestView::Close { fd: *fd },
        }
    }
}

/// What the caller answers to a [`Request`].
#[derive(Debug, PartialEq, Eq)]
pub enum Reply {
    /// The descriptor a call opened.
    Fd(i32),
    /// The bytes a call read: a path, or the target of a symbolic link.
    Bytes(Vec<u8>),
    /// What `fstatat` found.
    Stat(Stat),
    /// The call succeeded and has nothing to report.
    Done,
    /// The call failed with this `errno`.
    Failed(i32),
    /// The running kernel does not have the call.
    Unsupported,
}

/// The mathematical value of a [`Reply`].
pub enum ReplyView {
    Fd(i32),
    Bytes(Seq<u8>),
    Stat(Stat),
    Done,
    Failed(i32),
    Unsupported,
}

impl View for Reply {
    type V = ReplyView;

    open spec fn view(&self) -> ReplyView {
        match self {
            Reply::Fd(fd) => ReplyView::Fd(*fd),
            Reply::Bytes(bytes) => ReplyView::Bytes(bytes@),
            Reply::Stat(stat) => ReplyView::Stat(*stat),
            Reply::Done => ReplyView::Done,
            Reply::Failed(errno) => ReplyView::Failed(*errno),
            Reply::Unsupported => ReplyView::Unsupported,
        }
    }
}

/// What an operation does next: ask for a system call and go on from a new
/// state once it is answered, or finish with its result.
#[derive(Debug)]
pub enum Step<S, T> {
    /// Perform the request and hand the reply to the state.
    Call(S, Request),
    /// The operation is over.
    Done(Result<T, Error>),
}

/// The mathematical value of a [`Step`].
pub enum Next<S, T> {
    Call(S, RequestView),
    Done(Result<T, ErrorView>),
}

impl<S: View, T: View> View for Step<S, T> {
    type V = Next<S::V, T::V>;

    open spec fn view(&self) -> Next<S::V, T::V> {
        match self {
            Step::Call(state, request) => Next::Call(state@, request@),
            Step::Done(Ok(value)) => Next::Done(Ok(value@)),
            Step::Done(Err(error)) => Next::Done(Err(error@)),
        }
    }
}

impl<S, T> Next<S, T> {
    /// Whether the step asks for no call whose name holds a separator.
    pub open spec fn names_clean(self) -> bool {
        self matches Next::Call(_, request) ==> request.names_clean()
    }
}

impl Syscall {
    /// The name of the call as the kernel documents it.
    pub open spec fn label(self) -> Seq<char> {
        match self {
            Syscall::Readback => "readlink"@,
            Syscall::Openat => "openat"@,
            Syscall::Openat2 => "openat2"@,
            Syscall::Dup => "dup"@,
            Syscall::Fstatat => "fstatat"@,
            Syscall::Readlinkat => "readlinkat"@,
            Syscall::Mkdirat => "mkdirat"@,
            Syscall::Symlinkat => "symlinkat"@,
            Syscall::Linkat => "linkat"@,
            Syscall::Mknodat => "mknodat"@,
            Syscall::Unlinkat => "unlinkat"@,
            Syscall::Renameat2 => "renameat2"@,
            Syscall::Close => "close"@,
        }
    }

    /// The name of the call as the kernel documents it.
    pub fn name(self) -> (r: &'static str)
        ensures
            r@ == self.label(),
    {
        match self {
            Syscall::Readback => "readlink",
            Syscall::Openat => "openat",
            Syscall::Openat2 => "openat2",
            Syscall::Dup => "dup",
            Syscall::Fstatat => "fstatat",
            Syscall::Readlinkat => "readlinkat",
            Syscall::Mkdirat => "mkdirat",
            Syscall::Symlinkat => "symlinkat",
            Syscall::Linkat => "linkat",
            Syscall::Mknodat => "mknodat",
            Syscall::Unlinkat => "unlinkat",
            Syscall::Renameat2 => "renameat2",
            Syscall::Close => "close",
        }
    }
}

/// Whether a reply answers a request to close a descriptor: the descriptor
/// is gone whether the call succeeded or failed.
pub open spec fn closed(reply: ReplyView) -> bool {
    reply is Done || reply is Failed
}

/// The descriptor that a reply hands to the caller, if it hands one.
pub open spec fn opened(reply: ReplyView) -> Multiset<i32> {
    match reply {
        ReplyView::Fd(fd) => Multiset::singleton(fd),
        _ => Multiset::empty(),
    }
}

/// The descriptor that a request gives up, if it gives one up.
pub open spec fn released(request: RequestView) -> Multiset<i32> {
    match request {
        RequestView::Close { fd } => Multiset::singleton(fd),
        _ => Multiset::empty(),
    }
}

/// The descriptors an operation holds after one more exchange: those it
/// held, and the one the reply opened, without the one its next request
/// closes.
pub open spec fn track(held: Multiset<i32>, reply: ReplyView, asked: RequestView) -> Multiset<
    i32,
> {
    held.add(opened(reply)).sub(released(asked))
}

/// The descriptors that are open on behalf of an operation, as the caller
/// that performs its requests keeps count of them.
///
/// The count is kept by the exchanges alone: a reply that hands over a
/// descriptor adds it, a request to close one takes it away. Every step of an
/// operation says that the descriptors of its new state are the ones counted
/// in this way.
pub struct Held {
    fds: Vec<i32>,
}

impl View for Held {
    type V = Multiset<i32>;

    closed spec fn view(&self) -> Multiset<i32> {
        self.fds@.to_multiset()
    }
}

impl Held {
    /// No descriptors: what an operation holds when it begins.
    pub fn new() -> (r: Held)
        ensures
            r@ == Multiset::<i32>::empty(),
    {
        let r = Held { fds: Vec::new() };
        proof {
            broadcast use vstd::seq_lib::group_to_multiset_ensures;

            assert(r.fds@.to_multiset() =~= Multiset::<i32>::empty());
        }
        r
    }

    /// Takes note of a reply: the descriptor it hands over is held from
    /// now on.
    pub fn answered(&mut self, reply: &Reply)
        ensures
            final(self)@ == old(self)@.add(opened(reply@)),
    {
        broadcast use vstd::seq_lib::group_to_multiset_ensures;
        broadcast use vstd::multiset::group_multiset_axioms;

        match reply {
            Reply::Fd(fd) => {
                self.fds.push(*fd);
                assert(self.fds@.to_multiset() =~= old(self).fds@.to_multiset().add(
                    opened(reply@),
                ));
            },
            _ => {
                assert(self.fds@.to_multiset() =~= self.fds@.to_multiset().add(opened(reply@)));
            },
        }
    }

    /// Takes note of a request: the descriptor it asks to be closed is no
    /// longer held.
    pub fn asked(&mut self, request: &Request)
        ensures
            final(self)@ == old(self)@.sub(released(request@)),
    {
        broadcast use vstd::seq_lib::group_to_multiset_ensures;
        broadcast use vstd::multiset::group_multiset_axioms;

        match request {
            Request::Close { fd } => {
                let mut i: usize = 0;
                while i < self.fds.len()
                    invariant
                        i <= self.fds@.len(),
                        self.fds@ == old(self).fds@,
                        request@ == (RequestView::Close { fd: *fd }),
                        forall|k: int| 0 <= k < i ==> self.fds@[k] != *fd,
                    decreases self.fds@.len() - i,
                {
                    if self.fds[i] == *fd {
                        let ghost before = self.fds@;
                        self.fds.remove(i);
                        proof {
                            before.to_multiset_ensures();
                            assert(self.fds@ == before.remove(i as int));
                            assert(before.remove(i as int).to_multiset()
                                =~= before.to_multiset().remove(before[i as int]));
                            assert(before.to_multiset().count(*fd) > 0);
                            assert(before.to_multiset().remove(*fd) =~= before.to_multiset().sub(
                                Multiset::singleton(*fd),
                            ));
                            assert(self.fds@.to_multiset() == old(self).fds@.to_multiset().sub(
                                released(request@),
                            ));
                        }
                        return ;
                    }
                    i += 1;
                }
                assert(!self.fds@.contains(*fd));
                assert(self.fds@.to_multiset() =~= self.fds@.to_multiset().sub(
                    released(request@),
                ));
            },
            _ => {
                assert(self.fds@.to_multiset() =~= self.fds@.to_multiset().sub(
                    released(request@),
                ));
            },
        }
    }

    /// Gives up `fd`, which the result of the operation hands out: it is
    /// the caller's from now on and no longer to be closed.
    pub fn keep(&mut self, fd: i32)
        ensures
            final(self)@ == old(self)@.sub(Multiset::singleton(fd)),
    {
        broadcast use vstd::seq_lib::group_to_multiset_ensures;
        broadcast use vstd::multiset::group_multiset_axioms;

        self.asked(&Request::Close { fd });
    }

    /// The descriptors that are held, for the caller to close when the
    /// operation is over.
    pub fn leftover(self) -> (r: Vec<i32>)
        ensures
            r@.to_multiset() == self@,
    {
        self.fds
    }
}

/// Whether a reply answers a request to close a descriptor.
pub fn is_closed(reply: &Reply) -> (r: bool)
    ensures
        r == closed(reply@),
{
    match reply {
        Reply::Done => true,
        Reply::Failed(_) => true,
        _ => false,
    }
}

/// Where an operation stands once the replies were handed to it one after the
/// other, each as the answer to the request before it. Replies that come
/// after the operation is over are not read.
pub open spec fn run<S, T>(
    step: spec_fn(S, ReplyView) -> Next<S, T>,
    now: Next<S, T>,
    replies: Seq<ReplyView>,
) -> Next<S, T>
    decreases replies.len(),
{
    match now {
        Next::Call(state, _) => if replies.len() > 0 {
            run(step, step(state, replies[0]), replies.skip(1))
        } else {
            now
        },
        Next::Done(_) => now,
    }
}

/// The request and the reply of the exchange that ended the operation, if
/// the replies ended it.
pub open spec fn verdict<S, T>(
    step: spec_fn(S, ReplyView) -> Next<S, T>,
    now: Next<S, T>,
    replies: Seq<ReplyView>,
) -> Option<(RequestView, ReplyView)>
    decreases replies.len(),
{
    match now {
        Next::Call(state, request) => if replies.len() > 0 {
            if step(state, replies[0]) is Done {
                Some((request, replies[0]))
            } else {
                verdict(step, step(state, replies[0]), replies.skip(1))
            }
        } else {
            None
        },
        Next::Done(_) => None,
    }
}

/// What holds of the state and the request of an operation at its start,
/// and after each of its steps, holds wherever the replies take it. The
/// exchange that ends it is the answer to a request of which it held.
pub proof fn lemma_run_keeps<S, T>(
    step: spec_fn(S, ReplyView) -> Next<S, T>,
    inv: spec_fn(S, RequestView) -> bool,
    now: Next<S, T>,
    replies: Seq<ReplyView>,
)
    requires
        forall|s: S, request: RequestView, reply: ReplyView|
            #![trigger inv(s, request), step(s, reply)]
            inv(s, request) ==> (step(s, reply) matches Next::Call(next, asked) ==> inv(
                next,
                asked,
            )),
        now matches Next::Call(s, request) ==> inv(s, request),
    ensures
        run(step, now, replies) matches Next::Call(s, request) ==> inv(s, request),
        verdict(step, now, replies) matches Some((request, reply)) ==> exists|s: S|
            inv(s, request) && #[trigger] step(s, reply) == run(step, now, replies),
        now is Call && run(step, now, replies) is Done ==> verdict(step, now, replies) is Some,
        verdict(step, now, replies) is Some ==> run(step, now, replies) is Done,
    decreases replies.len(),
{
    if let Next::Call(s, request) = now {
        if replies.len() > 0 {
            let next = step(s, replies[0]);
            if next is Done {
                assert(run(step, next, replies.skip(1)) == next);
                assert(inv(s, request) && step(s, replies[0]) == run(step, now, replies));
            } else {
                lemma_run_keeps(step, inv, next, replies.skip(1));
            }
        }
    }
}

/// The number of replies an operation reads until it is over; all of them
/// if they do not end it.
pub open spec fn used<S, T>(
    step: spec_fn(S, ReplyView) -> Next<S, T>,
    now: Next<S, T>,
    replies: Seq<ReplyView>,
) -> nat
    decreases replies.len(),
{
    match now {
        Next::Call(state, _) => if replies.len() > 0 {
            1 + used(step, step(state, replies[0]), replies.skip(1))
        } else {
            0
        },
        Next::Done(_) => 0,
    }
}

/// A step of an operation as a step of the operation that runs it: the
/// state is wrapped, and the result is what the outer operation goes on
/// with.
pub open spec fn lifted<S, T, O, U>(
    next: Next<S, T>,
    wrap: spec_fn(S) -> O,
    after: spec_fn(Result<T, ErrorView>) -> Next<O, U>,
) -> Next<O, U> {
    match next {
        Next::Call(state, request) => Next::Call(wrap(state), request),
        Next::Done(result) => after(result),
    }
}

/// An operation that runs another inside it reads the replies as the inner
/// one does, as long as the inner one is not over. Once it is over, the outer
/// operation goes on with its result and with the replies that the inner one
/// did not read.
pub proof fn lemma_run_inside<S, T, O, U>(
    inner: spec_fn(S, ReplyView) -> Next<S, T>,
    outer: spec_fn(O, ReplyView) -> Next<O, U>,
    wrap: spec_fn(S) -> O,
    after: spec_fn(Result<T, ErrorView>) -> Next<O, U>,
    now: Next<S, T>,
    replies: Seq<ReplyView>,
)
    requires
        forall|s: S, reply: ReplyView|
            #![trigger inner(s, reply)]
            outer(wrap(s), reply) == lifted(inner(s, reply), wrap, after),
        now is Call,
    ensures
        ({
            let n = used(inner, now, replies);
            let rest = replies.skip(n as int);
            let end = run(inner, now, replies);
            let whole = lifted(now, wrap, after);
            &&& n <= replies.len()
            &&& end matches Next::Call(s, request) ==> run(outer, whole, replies) == Next::<
                O,
                U,
            >::Call(wrap(s), request)
            &&& end matches Next::Done(result) ==> {
                &&& n >= 1
                &&& run(outer, whole, replies) == run(outer, after(result), rest)
                &&& after(result) is Call ==> verdict(outer, whole, replies) == verdict(
                    outer,
                    after(result),
                    rest,
                )
                &&& after(result) is Done ==> verdict(outer, whole, replies) == verdict(
                    inner,
                    now,
                    replies,
                )
            }
        }),
    decreases replies.len(),
{
    let s = now->Call_0;
    let whole = lifted(now, wrap, after);
    assert(whole == Next::<O, U>::Call(wrap(s), now->Call_1));
    if replies.len() > 0 {
        let next = inner(s, replies[0]);
        let tail = replies.skip(1);
        assert(outer(wrap(s), replies[0]) == lifted(next, wrap, after));
        assert(run(inner, now, replies) == run(inner, next, tail));
        assert(run(outer, whole, replies) == run(outer, lifted(next, wrap, after), tail));
        assert(used(inner, now, replies) == 1 + used(inner, next, tail));
        match next {
            Next::Call(_, _) => {
                lemma_run_inside(inner, outer, wrap, after, next, tail);
                let n = used(inner, next, tail);
                assert(tail.skip(n as int) =~= replies.skip(n as int + 1));
                assert(verdict(outer, whole, replies) == verdict(
                    outer,
                    lifted(next, wrap, after),
                    tail,
                ));
                assert(verdict(inner, now, replies) == verdict(inner, next, tail));
            },
            Next::Done(result) => {
                assert(run(inner, next, tail) == next);
                assert(used(inner, next, tail) == 0);
                assert(replies.skip(1) == tail);
                assert(lifted(next, wrap, after) == after(result));
                assert(verdict(inner, now, replies) == Some((now->Call_1, replies[0])));
            },
        }
    } else {
        assert(replies.skip(0) =~= replies);
    }
}

/// The descriptors that are open on behalf of an operation once the replies
/// were handed to it, as the exchanges count them from `held` on: each reply
/// adds the descriptor it opened, each request takes away the one it closes.
pub open spec fn counted<S, T>(
    step: spec_fn(S, ReplyView) -> Next<S, T>,
    now: Next<S, T>,
    replies: Seq<ReplyView>,
    held: Multiset<i32>,
) -> Multiset<i32>
    decreases replies.len(),
{
    match now {
        Next::Call(state, _) => if replies.len() > 0 {
            counted(
                step,
                step(state, replies[0]),
                replies.skip(1),
                match step(state, replies[0]) {
                    Next::Call(_, asked) => track(held, replies[0], asked),
                    Next::Done(_) => held.add(opened(replies[0])),
                },
            )
        } else {
            held
        },
        Next::Done(_) => held,
    }
}

/// An operation whose every step holds what the exchange before it left
/// holds, wherever the replies take it, the descriptors that the exchanges
/// count. When it is over, the count is what it held last and what the last
/// reply opened.
pub proof fn lemma_run_counts<S, T>(
    step: spec_fn(S, ReplyView) -> Next<S, T>,
    inv: spec_fn(S) -> bool,
    holds: spec_fn(S) -> Multiset<i32>,
    now: Next<S, T>,
    replies: Seq<ReplyView>,
    held: Multiset<i32>,
)
    requires
        forall|s: S, reply: ReplyView|
            #![trigger step(s, reply)]
            inv(s) ==> (step(s, reply) matches Next::Call(next, asked) ==> inv(next) && holds(next)
                == track(holds(s), reply, asked)),
        now matches Next::Call(s, _) ==> inv(s) && holds(s) == held,
    ensures
        run(step, now, replies) matches Next::Call(s, _) ==> inv(s) && counted(
            step,
            now,
            replies,
            held,
        ) == holds(s),
        verdict(step, now, replies) matches Some((_, reply)) ==> exists|s: S|
            inv(s) && #[trigger] step(s, reply) == run(step, now, replies) && counted(
                step,
                now,
                replies,
                held,
            ) == holds(s).add(opened(reply)),
    decreases replies.len(),
{
    if let Next::Call(s, _) = now {
        if replies.len() > 0 {
            let next = step(s, replies[0]);
            match next {
                Next::Call(_, asked) => {
                    lemma_run_counts(
                        step,
                        inv,
                        holds,
                        next,
                        replies.skip(1),
                        track(held, replies[0], asked),
                    );
                },
                Next::Done(_) => {
                    let after = held.add(opened(replies[0]));
                    assert(run(step, next, replies.skip(1)) == next);
                    assert(counted(step, next, replies.skip(1), after) == after);
                    assert(counted(step, now, replies, held) == after);
                    assert(inv(s) && step(s, replies[0]) == run(step, now, replies) && counted(
                        step,
                        now,
                        replies,
                        held,
                    ) == holds(s).add(opened(replies[0])));
                },
            }
        }
    }
}

/// An operation whose every request leaves it with less fuel is over after
/// more replies than it has fuel, whatever the replies are.
pub proof fn lemma_run_ends<S, T>(
    step: spec_fn(S, ReplyView) -> Next<S, T>,
    inv: spec_fn(S) -> bool,
    fuel: spec_fn(S) -> nat,
    now: Next<S, T>,
    replies: Seq<ReplyView>,
)
    requires
        forall|s: S, reply: ReplyView|
            #![trigger step(s, reply)]
            inv(s) ==> (step(s, reply) matches Next::Call(next, _) ==> inv(next) && fuel(next)
                < fuel(s)),
        now matches Next::Call(s, _) ==> inv(s) && fuel(s) < replies.len(),
    ensures
        run(step, now, replies) is Done,
    decreases replies.len(),
{
    if let Next::Call(s, _) = now {
        lemma_run_ends(step, inv, fuel, step(s, replies[0]), replies.skip(1));
    }
}

/// The error for a reply that does not answer the request it was given for.
pub open spec fn stray_reply() -> ErrorView {
    ErrorView::InvalidArgument { name: "reply"@, description: "does not answer the request"@ }
}

/// The error a reply stands for when the reply that `syscall` was meant to
/// give did not come: the kernel's error under the name of the `operation`,
/// a missing call as a feature that is not supported, and anything else as a
/// reply that does not answer the request.
pub open spec fn failure(reply: ReplyView, syscall: Syscall, operation: Seq<char>) -> ErrorView {
    match reply {
        ReplyView::Failed(errno) => if syscall == Syscall::Readback {
            ErrorView::OsError { operation, source: SyscallError { syscall, errno } }
        } else {
            ErrorView::RawOsError { operation, source: SyscallError { syscall, errno } }
        },
        ReplyView::Unsupported => ErrorView::NotSupported { feature: syscall.label() },
        _ => stray_reply(),
    }
}

/// The error a reply stands for when the reply that `syscall` was meant to
/// give did not come.
pub fn fail(reply: &Reply, syscall: Syscall, operation: &str) -> (e: Error)
    ensures
        e@ == failure(reply@, syscall, operation@),
{
    match reply {
        Reply::Failed(errno) => {
            let source = SyscallError { syscall, errno: *errno };
            if syscall == Syscall::Readback {
                Error::OsError { operation: operation.to_owned(), source }
            } else {
                Error::RawOsError { operation: operation.to_owned(), source }
            }
        },
        Reply::Unsupported => Error::NotSupported { feature: syscall.name().to_owned() },
        _ => Error::InvalidArgument {
            name: "reply".to_owned(),
            description: "does not answer the request".to_owned(),
        },
    }
}

/// A copy of `bytes`.
pub fn copy(bytes: &[u8]) -> (r: Vec<u8>)
    ensures
        r@ == bytes@,
{
    slice_to_vec(bytes)
}

} // verus!
