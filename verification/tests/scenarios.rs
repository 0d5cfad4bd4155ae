use pathrs::{
    Capabilities, Error, Handle, Held, InodeType, Open, RenameFlags, Reply, Request, Resolver, Root,
    Stat, Step, Syscall, SyscallError,
};
use std::collections::BTreeMap;

const S_IFMT: u32 = 0o170000;
const S_IFREG: u32 = 0o100000;
const S_IFDIR: u32 = 0o040000;
const S_IFLNK: u32 = 0o120000;
const AT_REMOVEDIR: i32 = 0x200;

const ENOENT: i32 = 2;
const EEXIST: i32 = 17;
const ENOTDIR: i32 = 20;
const EISDIR: i32 = 21;
const ENOTEMPTY: i32 = 39;
const EBADF: i32 = 9;

enum Kind {
    Dir(BTreeMap<Vec<u8>, usize>),
    File,
    Link(Vec<u8>),
}

struct Inode {
    kind: Kind,
    mode: u32,
    dev: u64,
    rdev: u64,
    parent: usize,
    path: Vec<u8>,
}

/// A small filesystem in memory that answers the requests of an operation.
struct Sim {
    inodes: Vec<Inode>,
    fds: BTreeMap<i32, usize>,
    next_fd: i32,
    log: Vec<Request>,
    /// Replace the entry of this name by one of the other type after each of
    /// the next `swaps` times it is examined.
    swap_name: Vec<u8>,
    swaps: usize,
    /// The directories whose parent was opened.
    climbed: Vec<usize>,
    /// The descriptors that the exchanges left open.
    held: Held,
}

fn child_path(dir: &[u8], name: &[u8]) -> Vec<u8> {
    let mut path = dir.to_vec();
    if path.last() != Some(&b'/') {
        path.push(b'/');
    }
    path.extend_from_slice(name);
    path
}

impl Sim {
    fn new() -> Sim {
        let root = Inode {
            kind: Kind::Dir(BTreeMap::new()),
            mode: S_IFDIR | 0o755,
            dev: 1,
            rdev: 0,
            parent: 0,
            path: b"/".to_vec(),
        };
        Sim {
            inodes: vec![root],
            fds: BTreeMap::new(),
            next_fd: 3,
            log: Vec::new(),
            swap_name: Vec::new(),
            swaps: 0,
            climbed: Vec::new(),
            held: Held::new(),
        }
    }

    fn child(&self, dir: usize, name: &[u8]) -> Result<usize, i32> {
        match &self.inodes[dir].kind {
            Kind::Dir(entries) => {
                if name == b".." {
                    Ok(self.inodes[dir].parent)
                } else if name == b"." || name.is_empty() {
                    Ok(dir)
                } else {
                    entries.get(name).copied().ok_or(ENOENT)
                }
            }
            _ => Err(ENOTDIR),
        }
    }

    fn add(&mut self, dir: usize, name: &[u8], kind: Kind, mode: u32) -> usize {
        let ino = self.inodes.len();
        let path = child_path(&self.inodes[dir].path, name);
        let dev = self.inodes[dir].dev;
        self.inodes.push(Inode { kind, mode, dev, rdev: 0, parent: dir, path });
        match &mut self.inodes[dir].kind {
            Kind::Dir(entries) => {
                entries.insert(name.to_vec(), ino);
            }
            _ => panic!("not a directory"),
        }
        ino
    }

    /// The inode at an absolute path, made as a directory where it is missing.
    fn dir(&mut self, path: &[u8]) -> usize {
        let mut cur = 0;
        for name in path.split(|b| *b == b'/') {
            if name.is_empty() {
                continue;
            }
            cur = match self.child(cur, name) {
                Ok(ino) => ino,
                Err(_) => self.add(cur, name, Kind::Dir(BTreeMap::new()), S_IFDIR | 0o755),
            };
        }
        cur
    }

    fn file(&mut self, dir: &[u8], name: &[u8]) -> usize {
        let dir = self.dir(dir);
        self.add(dir, name, Kind::File, S_IFREG | 0o644)
    }

    fn symlink(&mut self, dir: &[u8], name: &[u8], target: &[u8]) -> usize {
        let dir = self.dir(dir);
        self.add(dir, name, Kind::Link(target.to_vec()), S_IFLNK | 0o777)
    }

    fn lookup(&self, path: &[u8]) -> Result<usize, i32> {
        let mut cur = 0;
        for name in path.split(|b| *b == b'/') {
            cur = self.child(cur, name)?;
        }
        Ok(cur)
    }

    fn present(&self, path: &[u8]) -> bool {
        self.lookup(path).is_ok()
    }

    fn descriptor(&mut self, ino: usize) -> Reply {
        let fd = self.next_fd;
        self.next_fd += 1;
        self.fds.insert(fd, ino);
        Reply::Fd(fd)
    }

    fn inode_of(&self, fd: i32) -> Result<usize, i32> {
        self.fds.get(&fd).copied().ok_or(EBADF)
    }

    fn entry(&self, dirfd: i32, name: &[u8]) -> Result<usize, i32> {
        let dir = self.inode_of(dirfd)?;
        if name.is_empty() {
            Ok(dir)
        } else {
            self.child(dir, name)
        }
    }

    fn create(&mut self, dirfd: i32, name: &[u8], kind: Kind, mode: u32) -> Result<usize, i32> {
        let dir = self.inode_of(dirfd)?;
        match self.child(dir, name) {
            Ok(_) => Err(EEXIST),
            Err(ENOENT) => Ok(self.add(dir, name, kind, mode)),
            Err(errno) => Err(errno),
        }
    }

    fn detach(&mut self, dir: usize, name: &[u8]) {
        if let Kind::Dir(entries) = &mut self.inodes[dir].kind {
            entries.remove(name);
        }
    }

    fn swap(&mut self, ino: usize) {
        let inode = &mut self.inodes[ino];
        if matches!(inode.kind, Kind::Dir(_)) {
            inode.kind = Kind::File;
            inode.mode = S_IFREG | 0o644;
        } else {
            inode.kind = Kind::Dir(BTreeMap::new());
            inode.mode = S_IFDIR | 0o755;
        }
    }

    fn answer(&mut self, request: &Request) -> Result<Reply, i32> {
        match request {
            Request::Readback { fd } => {
                let ino = self.inode_of(*fd)?;
                Ok(Reply::Bytes(self.inodes[ino].path.clone()))
            }
            Request::OpenRoot { path } => {
                let ino = self.lookup(path)?;
                match self.inodes[ino].kind {
                    Kind::Dir(_) => Ok(self.descriptor(ino)),
                    _ => Err(ENOTDIR),
                }
            }
            Request::Openat2 { .. } => Ok(Reply::Unsupported),
            Request::Dup { fd } => {
                let ino = self.inode_of(*fd)?;
                Ok(self.descriptor(ino))
            }
            Request::Openat { dirfd, name, how } => match how {
                Open::PathDirectory => {
                    if name == b".." {
                        let dir = self.inode_of(*dirfd)?;
                        self.climbed.push(dir);
                    }
                    let ino = self.entry(*dirfd, name)?;
                    match self.inodes[ino].kind {
                        Kind::Dir(_) => Ok(self.descriptor(ino)),
                        _ => Err(ENOTDIR),
                    }
                }
                Open::PathNoFollow => {
                    let ino = self.entry(*dirfd, name)?;
                    Ok(self.descriptor(ino))
                }
                Open::CreateExclusive { mode } => {
                    let ino = self.create(*dirfd, name, Kind::File, S_IFREG | (mode & !S_IFMT))?;
                    Ok(self.descriptor(ino))
                }
            },
            Request::Fstatat { dirfd, name } => {
                let ino = self.entry(*dirfd, name)?;
                let inode = &self.inodes[ino];
                let stat = Stat { mode: inode.mode, dev: inode.dev, ino: ino as u64 + 100 };
                if !name.is_empty() && *name == self.swap_name && self.swaps > 0 {
                    self.swaps -= 1;
                    self.swap(ino);
                }
                Ok(Reply::Stat(stat))
            }
            Request::Readlinkat { dirfd, name } => {
                let ino = self.entry(*dirfd, name)?;
                match &self.inodes[ino].kind {
                    Kind::Link(target) => Ok(Reply::Bytes(target.clone())),
                    _ => Err(22),
                }
            }
            Request::Mkdirat { dirfd, name, mode } => {
                self.create(*dirfd, name, Kind::Dir(BTreeMap::new()), S_IFDIR | mode)?;
                Ok(Reply::Done)
            }
            Request::Symlinkat { target, dirfd, name } => {
                self.create(*dirfd, name, Kind::Link(target.clone()), S_IFLNK | 0o777)?;
                Ok(Reply::Done)
            }
            Request::Linkat { olddirfd, oldname, newdirfd, newname, flags: _ } => {
                let old = self.entry(*olddirfd, oldname)?;
                let dir = self.inode_of(*newdirfd)?;
                match self.child(dir, newname) {
                    Ok(_) => Err(EEXIST),
                    Err(ENOENT) => {
                        if let Kind::Dir(entries) = &mut self.inodes[dir].kind {
                            entries.insert(newname.clone(), old);
                        }
                        Ok(Reply::Done)
                    }
                    Err(errno) => Err(errno),
                }
            }
            Request::Mknodat { dirfd, name, mode, dev } => {
                let ino = self.create(*dirfd, name, Kind::File, *mode)?;
                self.inodes[ino].rdev = *dev;
                Ok(Reply::Done)
            }
            Request::Unlinkat { dirfd, name, flags } => {
                let dir = self.inode_of(*dirfd)?;
                let ino = self.child(dir, name)?;
                match &self.inodes[ino].kind {
                    Kind::Dir(entries) => {
                        if *flags != AT_REMOVEDIR {
                            return Err(EISDIR);
                        }
                        if !entries.is_empty() {
                            return Err(ENOTEMPTY);
                        }
                    }
                    _ => {
                        if *flags != 0 {
                            return Err(ENOTDIR);
                        }
                    }
                }
                self.detach(dir, name);
                Ok(Reply::Done)
            }
            Request::Renameat2 { olddirfd, oldname, newdirfd, newname, flags: _ } => {
                let olddir = self.inode_of(*olddirfd)?;
                let ino = self.child(olddir, oldname)?;
                let newdir = self.inode_of(*newdirfd)?;
                self.detach(olddir, oldname);
                let path = child_path(&self.inodes[newdir].path, newname);
                if let Kind::Dir(entries) = &mut self.inodes[newdir].kind {
                    entries.insert(newname.clone(), ino);
                }
                self.inodes[ino].path = path;
                self.inodes[ino].parent = newdir;
                Ok(Reply::Done)
            }
            Request::Close { fd } => {
                self.fds.remove(fd).ok_or(EBADF)?;
                Ok(Reply::Done)
            }
        }
    }

    /// Performs one request. Every name has to be a single component.
    fn perform(&mut self, request: Request) -> Reply {
        let names: Vec<&Vec<u8>> = match &request {
            Request::Openat { name, .. }
            | Request::Fstatat { name, .. }
            | Request::Readlinkat { name, .. }
            | Request::Mkdirat { name, .. }
            | Request::Symlinkat { name, .. }
            | Request::Mknodat { name, .. }
            | Request::Unlinkat { name, .. } => vec![name],
            Request::Linkat { oldname, newname, .. }
            | Request::Renameat2 { oldname, newname, .. } => vec![oldname, newname],
            _ => vec![],
        };
        for name in names {
            assert!(!name.contains(&b'/'), "a name with a separator: {:?}", request);
        }
        self.held.asked(&request);
        let reply = match self.answer(&request) {
            Ok(reply) => reply,
            Err(errno) => Reply::Failed(errno),
        };
        self.held.answered(&reply);
        self.log.push(request);
        assert!(self.log.len() < 100_000, "the operation does not end");
        reply
    }

    fn path_of(&self, handle: &Handle) -> Vec<u8> {
        let ino = self.inode_of(handle.as_raw_fd()).unwrap();
        self.inodes[ino].path.clone()
    }

    fn count(&self, syscall: Syscall) -> usize {
        self.log.iter().filter(|r| syscall_of(r) == syscall).count()
    }
}

fn syscall_of(request: &Request) -> Syscall {
    match request {
        Request::Readback { .. } => Syscall::Readback,
        Request::OpenRoot { .. } => Syscall::Openat,
        Request::Openat2 { .. } => Syscall::Openat2,
        Request::Dup { .. } => Syscall::Dup,
        Request::Openat { .. } => Syscall::Openat,
        Request::Fstatat { .. } => Syscall::Fstatat,
        Request::Readlinkat { .. } => Syscall::Readlinkat,
        Request::Mkdirat { .. } => Syscall::Mkdirat,
        Request::Symlinkat { .. } => Syscall::Symlinkat,
        Request::Linkat { .. } => Syscall::Linkat,
        Request::Mknodat { .. } => Syscall::Mknodat,
        Request::Unlinkat { .. } => Syscall::Unlinkat,
        Request::Renameat2 { .. } => Syscall::Renameat2,
        Request::Close { .. } => Syscall::Close,
    }
}

fn emulated() -> Capabilities {
    Capabilities { openat2: false, rename_flags: false }
}

fn open_root(sim: &mut Sim, path: &[u8]) -> Result<Root, Error> {
    let mut step = Root::open(path, emulated());
    loop {
        match step {
            Step::Done(result) => return result,
            Step::Call(state, request) => {
                let reply = sim.perform(request);
                step = state.step(reply);
            }
        }
    }
}

fn resolve(sim: &mut Sim, root: &Root, path: &[u8]) -> Result<Handle, Error> {
    let mut step = root.resolve(path);
    loop {
        match step {
            Step::Done(result) => return result,
            Step::Call(state, request) => {
                let reply = sim.perform(request);
                step = state.step(root, reply);
            }
        }
    }
}

fn create(sim: &mut Sim, root: &Root, path: &[u8], kind: &InodeType) -> Result<(), Error> {
    let mut step = root.create(path, kind);
    loop {
        match step {
            Step::Done(result) => return result,
            Step::Call(state, request) => {
                let reply = sim.perform(request);
                step = state.step(root, reply);
            }
        }
    }
}

fn create_file(sim: &mut Sim, root: &Root, path: &[u8], mode: u32) -> Result<Handle, Error> {
    let mut step = root.create_file(path, mode);
    loop {
        match step {
            Step::Done(result) => return result,
            Step::Call(state, request) => {
                let reply = sim.perform(request);
                step = state.step(root, reply);
            }
        }
    }
}

fn remove(sim: &mut Sim, root: &Root, path: &[u8]) -> Result<(), Error> {
    let mut step = root.remove(path);
    loop {
        match step {
            Step::Done(result) => return result,
            Step::Call(state, request) => {
                let reply = sim.perform(request);
                step = state.step(root, reply);
            }
        }
    }
}

fn rename(sim: &mut Sim, root: &Root, from: &[u8], to: &[u8], flags: i32) -> Result<(), Error> {
    let mut step = root.rename(from, to, RenameFlags(flags));
    loop {
        match step {
            Step::Done(result) => return result,
            Step::Call(state, request) => {
                let reply = sim.perform(request);
                step = state.step(root, reply);
            }
        }
    }
}

fn violation(description: &str) -> Error {
    Error::SafetyViolation { description: description.to_string() }
}

fn wrapped(context: &str, source: Error) -> Error {
    Error::Wrapped { context: context.to_string(), source: Box::new(source) }
}

fn raw(operation: &str, syscall: Syscall, errno: i32) -> Error {
    Error::RawOsError { operation: operation.to_string(), source: SyscallError { syscall, errno } }
}

fn jail() -> (Sim, Root) {
    let mut sim = Sim::new();
    sim.dir(b"/etc");
    sim.file(b"/etc", b"passwd");
    sim.dir(b"/srv/a");
    sim.file(b"/srv/a", b"b");
    let root = open_root(&mut sim, b"/srv").unwrap();
    (sim, root)
}

#[test]
fn root_opens_at_an_absolute_directory() {
    let mut sim = Sim::new();
    sim.dir(b"/srv");
    let root = open_root(&mut sim, b"/srv").unwrap();
    assert_eq!(root.path(), b"/srv");
    assert_eq!(root.resolver, Resolver::Emulated);
    assert_eq!(
        sim.log,
        vec![
            Request::OpenRoot { path: b"/srv".to_vec() },
            Request::Readback { fd: root.as_raw_fd() },
        ]
    );
}

#[test]
fn root_path_must_be_absolute() {
    let mut sim = Sim::new();
    sim.dir(b"/srv");
    assert_eq!(
        open_root(&mut sim, b"srv"),
        Err(Error::InvalidArgument {
            name: "path".to_string(),
            description: "must be an absolute path".to_string(),
        })
    );
    assert!(sim.log.is_empty());
}

#[test]
fn root_must_exist() {
    let mut sim = Sim::new();
    assert_eq!(
        open_root(&mut sim, b"/missing"),
        Err(raw("open root handle", Syscall::Openat, ENOENT))
    );
}

#[test]
fn root_that_reads_back_elsewhere_is_refused() {
    let mut sim = Sim::new();
    let ino = sim.dir(b"/srv");
    sim.inodes[ino].path = b"/elsewhere".to_vec();
    assert_eq!(
        open_root(&mut sim, b"/srv"),
        Err(violation("root directory doesn't match original path"))
    );
}

#[test]
fn symlink_escape_blocked() {
    let mut sim = Sim::new();
    sim.dir(b"/etc");
    let real = sim.file(b"/etc", b"passwd");
    sim.dir(b"/tmp/jail");
    sim.symlink(b"/tmp/jail", b"link", b"/etc/passwd");
    let root = open_root(&mut sim, b"/tmp/jail").unwrap();

    // Nothing is at /tmp/jail/etc/passwd: the link leads nowhere.
    assert_eq!(
        resolve(&mut sim, &root, b"/link"),
        Err(raw("open next component of resolution", Syscall::Openat, ENOENT))
    );

    // With a file there, the link leads to it, and not to the real one.
    let inside = sim.file(b"/tmp/jail/etc", b"passwd");
    let handle = resolve(&mut sim, &root, b"/link").unwrap();
    assert_eq!(sim.path_of(&handle), b"/tmp/jail/etc/passwd");
    assert_eq!(sim.inode_of(handle.as_raw_fd()), Ok(inside));
    assert_ne!(sim.inode_of(handle.as_raw_fd()), Ok(real));
}

#[test]
fn absolute_inside_root() {
    let (mut sim, root) = jail();
    let handle = resolve(&mut sim, &root, b"/a/b").unwrap();
    assert_eq!(sim.path_of(&handle), b"/srv/a/b");
    let handle = resolve(&mut sim, &root, b"a/b").unwrap();
    assert_eq!(sim.path_of(&handle), b"/srv/a/b");
}

#[test]
fn dotdot_is_clamped_at_the_root() {
    let (mut sim, root) = jail();
    // /srv/etc does not exist: the path does not reach the real /etc.
    assert_eq!(
        resolve(&mut sim, &root, b"/../../etc"),
        Err(raw("open next component of resolution", Syscall::Openat, ENOENT))
    );
    sim.dir(b"/srv/etc");
    let handle = resolve(&mut sim, &root, b"/../../etc").unwrap();
    assert_eq!(sim.path_of(&handle), b"/srv/etc");
    let handle = resolve(&mut sim, &root, b"a/../../../a/./b").unwrap();
    assert_eq!(sim.path_of(&handle), b"/srv/a/b");
    // No request ever asked for the parent of the root.
    let srv = sim.lookup(b"/srv").unwrap();
    assert_eq!(sim.climbed.len(), 1);
    assert!(!sim.climbed.contains(&srv));
}

#[test]
fn dotdot_below_the_root_opens_the_parent() {
    let (mut sim, root) = jail();
    let handle = resolve(&mut sim, &root, b"a/..").unwrap();
    assert_eq!(sim.path_of(&handle), b"/srv");
    assert_ne!(handle.as_raw_fd(), root.as_raw_fd());
    let parents = sim
        .log
        .iter()
        .filter(|r| matches!(r, Request::Openat { name, how: Open::PathDirectory, .. } if name == b".."))
        .count();
    assert_eq!(parents, 1);
}

#[test]
fn resolving_the_root_gives_a_handle_of_its_own() {
    let (mut sim, root) = jail();
    for path in [&b"/"[..], b"", b".", b"//./"] {
        let handle = resolve(&mut sim, &root, path).unwrap();
        assert_eq!(sim.path_of(&handle), b"/srv");
        assert_ne!(handle.as_raw_fd(), root.as_raw_fd());
    }
}

#[test]
fn mount_crossing() {
    let (mut sim, root) = jail();
    let mnt = sim.dir(b"/srv/mnt");
    sim.inodes[mnt].dev = 7;
    assert_eq!(
        resolve(&mut sim, &root, b"/mnt"),
        Err(violation("resolution crossed a mount point"))
    );
    sim.symlink(b"/srv", b"way", b"mnt/x");
    assert_eq!(
        resolve(&mut sim, &root, b"/way"),
        Err(violation("resolution crossed a mount point"))
    );
}

#[test]
fn walk_that_ends_outside_the_root_is_refused() {
    let (mut sim, root) = jail();
    let a = sim.lookup(b"/srv/a").unwrap();
    // The directory was moved out of the root behind the walk's back.
    sim.inodes[a].path = b"/stolen/a".to_vec();
    assert_eq!(
        resolve(&mut sim, &root, b"/a"),
        Err(violation("resolved path is outside the root"))
    );
    // A path that only starts with the bytes of the root's is outside it.
    sim.inodes[a].path = b"/srv2/a".to_vec();
    assert_eq!(
        resolve(&mut sim, &root, b"/a"),
        Err(violation("resolved path is outside the root"))
    );
    sim.inodes[a].path = b"/srvx".to_vec();
    assert_eq!(
        resolve(&mut sim, &root, b"/a"),
        Err(violation("resolved path is outside the root"))
    );
    sim.inodes[a].path = b"/srv/elsewhere".to_vec();
    let handle = resolve(&mut sim, &root, b"/a").unwrap();
    assert_eq!(sim.path_of(&handle), b"/srv/elsewhere");
}

#[test]
fn a_close_is_answered_by_success_or_failure() {
    let (_, root) = jail();
    let mut state = match root.resolve(b"a") {
        Step::Call(state, _) => state,
        Step::Done(_) => panic!("a lookup begins with a request"),
    };
    let replies = vec![
        Reply::Bytes(b"/srv".to_vec()),
        Reply::Stat(Stat { mode: S_IFDIR | 0o755, dev: 1, ino: 10 }),
        Reply::Fd(4),
        Reply::Fd(5),
        Reply::Stat(Stat { mode: S_IFDIR | 0o755, dev: 1, ino: 11 }),
    ];
    let mut last = None;
    for reply in replies {
        match state.step(&root, reply) {
            Step::Call(next, request) => {
                state = next;
                last = Some(request);
            }
            Step::Done(result) => panic!("{:?}", result.map(|h| h.as_raw_fd())),
        }
    }
    assert_eq!(last, Some(Request::Close { fd: 4 }));
    match state.step(&root, Reply::Fd(9)) {
        Step::Done(result) => assert_eq!(
            result.map(|h| h.as_raw_fd()),
            Err(Error::InvalidArgument {
                name: "reply".to_string(),
                description: "does not answer the request".to_string(),
            })
        ),
        _ => panic!("the walk ends"),
    }
}

#[test]
fn relative_symlinks_are_followed_from_their_directory() {
    let (mut sim, root) = jail();
    sim.symlink(b"/srv/a", b"up", b"../a/b");
    let handle = resolve(&mut sim, &root, b"a/up").unwrap();
    assert_eq!(sim.path_of(&handle), b"/srv/a/b");
}

#[test]
fn symlink_loop_is_detected_after_forty_expansions() {
    let (mut sim, root) = jail();
    sim.symlink(b"/srv", b"loop", b"loop");
    assert_eq!(resolve(&mut sim, &root, b"loop"), Err(Error::LoopDetected { limit: 40 }));
    assert_eq!(sim.count(Syscall::Readlinkat), 41);
}

#[test]
fn forty_symlinks_are_followed() {
    let (mut sim, root) = jail();
    sim.symlink(b"/srv", b"l0", b"a/b");
    for i in 1..40 {
        let name = format!("l{}", i);
        let target = format!("l{}", i - 1);
        sim.symlink(b"/srv", name.as_bytes(), target.as_bytes());
    }
    let handle = resolve(&mut sim, &root, b"l39").unwrap();
    assert_eq!(sim.path_of(&handle), b"/srv/a/b");
    sim.symlink(b"/srv", b"l40", b"l39");
    assert_eq!(resolve(&mut sim, &root, b"l40"), Err(Error::LoopDetected { limit: 40 }));
}

#[test]
fn expanded_bytes_are_bounded() {
    let (mut sim, root) = jail();
    // A target of 4095 bytes counts 4096 with its terminator.
    let mut fits = vec![b'/'; 4092];
    fits.extend_from_slice(b"a/b");
    sim.symlink(b"/srv", b"fits", &fits);
    let handle = resolve(&mut sim, &root, b"fits").unwrap();
    assert_eq!(sim.path_of(&handle), b"/srv/a/b");

    let mut long = vec![b'/'; 4093];
    long.extend_from_slice(b"a/b");
    sim.symlink(b"/srv", b"long", &long);
    assert_eq!(resolve(&mut sim, &root, b"long"), Err(Error::TooBig { limit: 4096 }));

    // Two targets of 2048 bytes each count 4098.
    let mut half = vec![b'.'; 1];
    half.extend(vec![b'/'; 2040]);
    half.extend_from_slice(b"second");
    sim.symlink(b"/srv", b"first", &half);
    let mut rest = vec![b'/'; 2045];
    rest.extend_from_slice(b"a/b");
    sim.symlink(b"/srv", b"second", &rest);
    assert_eq!(half.len(), 2047);
    assert_eq!(rest.len(), 2048);
    assert_eq!(resolve(&mut sim, &root, b"first"), Err(Error::TooBig { limit: 4096 }));
}

#[test]
fn walk_closes_what_it_leaves() {
    let (mut sim, root) = jail();
    sim.symlink(b"/srv", b"abs", b"/a");
    let before = sim.fds.len();
    let handle = resolve(&mut sim, &root, b"a/../abs/b").unwrap();
    // Of all the descriptors the walk opened, only the handle is left.
    assert_eq!(sim.fds.len(), before + 1);
    assert!(sim.fds.contains_key(&handle.as_raw_fd()));
}

#[test]
fn root_moved() {
    let (mut sim, root) = jail();
    let srv = sim.lookup(b"/srv").unwrap();
    sim.inodes[srv].path = b"/srv2".to_vec();
    let expected = violation("root directory doesn't match original path");
    assert_eq!(resolve(&mut sim, &root, b"/a/b"), Err(expected));
    let expected = violation("root directory doesn't match original path");
    assert_eq!(remove(&mut sim, &root, b"/a/b"), Err(expected));
    let expected = violation("root directory doesn't match original path");
    assert_eq!(create(&mut sim, &root, b"/c", &InodeType::Directory(0o755)), Err(expected));
    let expected = violation("root directory doesn't match original path");
    assert_eq!(create_file(&mut sim, &root, b"/c", 0o644), Err(expected));
    let expected = violation("root directory doesn't match original path");
    assert_eq!(rename(&mut sim, &root, b"/a/b", b"/a/c", 0), Err(expected));
    // The root is checked before anything is made of the paths.
    let before = sim.log.len();
    let expected = violation("root directory doesn't match original path");
    assert_eq!(rename(&mut sim, &root, b"/", b"", 7), Err(expected));
    assert_eq!(sim.log.len(), before + 1);
    assert_eq!(sim.log.last(), Some(&Request::Readback { fd: root.as_raw_fd() }));
    assert_eq!(sim.count(Syscall::Renameat2), 0);
    assert!(sim.present(b"/srv/a/b"));
}

#[test]
fn check_compares_the_readback_with_the_path() {
    let (_, root) = jail();
    assert_eq!(root.check(&Reply::Bytes(b"/srv".to_vec())), Ok(()));
    for other in [&b"/srv2"[..], b"/sr", b"/srv/", b"", b"/"] {
        assert_eq!(
            root.check(&Reply::Bytes(other.to_vec())),
            Err(violation("root directory doesn't match original path"))
        );
    }
    assert_eq!(
        root.check(&Reply::Failed(ENOENT)),
        Err(wrapped(
            "get current path of rootfd for root check",
            Error::OsError {
                operation: "readlink /proc/self/fd".to_string(),
                source: SyscallError { syscall: Syscall::Readback, errno: ENOENT },
            }
        ))
    );
}

#[test]
fn kernel_backend_makes_one_scoped_call() {
    let (_, mut root) = jail();
    root.resolver = Resolver::Kernel;
    let (state, request) = match root.resolve(b"/a/../b") {
        Step::Call(state, request) => (state, request),
        Step::Done(_) => panic!("a lookup begins with a request"),
    };
    assert_eq!(request, Request::Readback { fd: root.as_raw_fd() });
    let (state, request) = match state.step(&root, Reply::Bytes(b"/srv".to_vec())) {
        Step::Call(state, request) => (state, request),
        Step::Done(_) => panic!("the root is valid"),
    };
    assert_eq!(
        request,
        Request::Openat2 { dirfd: root.as_raw_fd(), path: b"/a/../b".to_vec(), resolve: 0x13 }
    );
    match state.step(&root, Reply::Fd(42)) {
        Step::Done(Ok(handle)) => assert_eq!(handle.as_raw_fd(), 42),
        _ => panic!("the lookup ends with the descriptor"),
    }
}

#[test]
fn kernel_backend_needs_the_scoped_call() {
    let (mut sim, mut root) = jail();
    root.resolver = Resolver::Kernel;
    assert_eq!(
        resolve(&mut sim, &root, b"/a"),
        Err(Error::NotSupported { feature: "openat2".to_string() })
    );
    let (state, _) = match root.resolve(b"/a") {
        Step::Call(state, request) => (state, request),
        Step::Done(_) => panic!("a lookup begins with a request"),
    };
    let state = match state.step(&root, Reply::Bytes(b"/srv".to_vec())) {
        Step::Call(state, _) => state,
        Step::Done(_) => panic!("the root is valid"),
    };
    match state.step(&root, Reply::Failed(18)) {
        Step::Done(result) => {
            assert_eq!(result, Err(raw("openat2 one-shot resolve", Syscall::Openat2, 18)))
        }
        _ => panic!("the lookup ends with the failure"),
    }
}

#[test]
fn create_makes_a_directory_under_the_resolved_parent() {
    let (mut sim, root) = jail();
    sim.symlink(b"/srv", b"in", b"/a");
    assert_eq!(create(&mut sim, &root, b"/in/d", &InodeType::Directory(S_IFREG | 0o750)), Ok(()));
    let d = sim.lookup(b"/srv/a/d").unwrap();
    assert_eq!(sim.inodes[d].mode, S_IFDIR | 0o750);
    let last = sim.log.last().unwrap();
    assert!(matches!(last, Request::Mkdirat { name, mode: 0o750, .. } if name == b"d"));
    assert_eq!(sim.count(Syscall::Mkdirat), 1);
}

#[test]
fn create_reports_an_existing_entry_as_the_kernel_does() {
    let (mut sim, root) = jail();
    assert_eq!(
        create(&mut sim, &root, b"/a", &InodeType::Directory(0o755)),
        Err(raw("pathrs create", Syscall::Mkdirat, EEXIST))
    );
    assert_eq!(
        create(&mut sim, &root, b"/a/b", &InodeType::File(0o644)),
        Err(raw("pathrs create_file", Syscall::Openat, EEXIST))
    );
    assert_eq!(
        create_file(&mut sim, &root, b"/a/b", 0o644).map(|h| h.as_raw_fd()),
        Err(raw("pathrs create_file", Syscall::Openat, EEXIST))
    );
}

#[test]
fn create_symlink_keeps_the_target_bytes() {
    let (mut sim, root) = jail();
    let target = b"../../not/a\xff/path//".to_vec();
    assert_eq!(create(&mut sim, &root, b"a/l", &InodeType::Symlink(target.clone())), Ok(()));
    let dirfd = match sim.log.last().unwrap() {
        Request::Symlinkat { dirfd, .. } => *dirfd,
        other => panic!("{:?}", other),
    };
    assert_eq!(
        sim.log.last(),
        Some(&Request::Symlinkat { target: target.clone(), dirfd, name: b"l".to_vec() })
    );
    let l = sim.lookup(b"/srv/a/l").unwrap();
    assert!(matches!(&sim.inodes[l].kind, Kind::Link(t) if *t == target));
}

#[test]
fn create_device_nodes_and_pipes() {
    let (mut sim, root) = jail();
    assert_eq!(create(&mut sim, &root, b"/p", &InodeType::Fifo(S_IFDIR | 0o600)), Ok(()));
    assert!(matches!(
        sim.log.last().unwrap(),
        Request::Mknodat { name, mode: 0o010600, dev: 0, .. } if name == b"p"
    ));
    assert_eq!(create(&mut sim, &root, b"/c", &InodeType::CharacterDevice(0o660, 0x0501)), Ok(()));
    assert!(matches!(
        sim.log.last().unwrap(),
        Request::Mknodat { name, mode: 0o020660, dev: 0x0501, .. } if name == b"c"
    ));
    assert_eq!(create(&mut sim, &root, b"/b", &InodeType::BlockDevice(0o660, 0x0800)), Ok(()));
    assert!(matches!(
        sim.log.last().unwrap(),
        Request::Mknodat { name, mode: 0o060660, dev: 0x0800, .. } if name == b"b"
    ));
    assert_eq!(sim.count(Syscall::Mknodat), 3);
}

#[test]
fn create_hardlink_resolves_its_source_inside_the_root() {
    let (mut sim, root) = jail();
    // The source is the file inside the root, whatever is at that path outside.
    sim.dir(b"/srv/etc");
    let inside = sim.file(b"/srv/etc", b"passwd");
    let kind = InodeType::Hardlink(b"/etc/passwd".to_vec());
    assert_eq!(create(&mut sim, &root, b"/a/pw", &kind), Ok(()));
    assert_eq!(sim.lookup(b"/srv/a/pw"), Ok(inside));
    assert!(matches!(
        sim.log.last().unwrap(),
        Request::Linkat { oldname, newname, flags: 0, .. } if oldname == b"passwd" && newname == b"pw"
    ));

    let kind = InodeType::Hardlink(b"/".to_vec());
    assert_eq!(
        create(&mut sim, &root, b"/a/none", &kind),
        Err(wrapped(
            "split hardlink source path into (parent, name)",
            Error::InvalidArgument {
                name: "path".to_string(),
                description: "no trailing component".to_string(),
            }
        ))
    );
    let kind = InodeType::Hardlink(b"/missing/file".to_vec());
    assert_eq!(
        create(&mut sim, &root, b"/a/none", &kind),
        Err(wrapped(
            "resolve hardlink source parent for hardlink",
            raw("open next component of resolution", Syscall::Openat, ENOENT)
        ))
    );
}

#[test]
fn create_needs_a_final_component_and_a_parent() {
    let (mut sim, root) = jail();
    assert_eq!(
        create(&mut sim, &root, b"/", &InodeType::Directory(0o755)),
        Err(wrapped(
            "split target path into (parent, name)",
            Error::InvalidArgument {
                name: "path".to_string(),
                description: "no trailing component".to_string(),
            }
        ))
    );
    assert_eq!(
        create(&mut sim, &root, b"/missing/d", &InodeType::Directory(0o755)),
        Err(wrapped(
            "resolve target parent directory for inode creation",
            raw("open next component of resolution", Syscall::Openat, ENOENT)
        ))
    );
    assert!(!sim.present(b"/srv/missing"));
}

#[test]
fn create_file_returns_the_descriptor_of_the_new_file() {
    let (mut sim, root) = jail();
    let handle = create_file(&mut sim, &root, b"/a/new", 0o640).unwrap();
    assert_eq!(sim.path_of(&handle), b"/srv/a/new");
    let new = sim.lookup(b"/srv/a/new").unwrap();
    assert_eq!(sim.inode_of(handle.as_raw_fd()), Ok(new));
    assert!(matches!(
        sim.log.last().unwrap(),
        Request::Openat { name, how: Open::CreateExclusive { mode: 0o640 }, .. } if name == b"new"
    ));
    assert_eq!(create(&mut sim, &root, b"other", &InodeType::File(0o600)), Ok(()));
    assert!(sim.present(b"/srv/other"));
}

#[test]
fn create_stays_below_the_root() {
    let (mut sim, root) = jail();
    assert_eq!(create(&mut sim, &root, b"/../../etc", &InodeType::Directory(0o755)), Ok(()));
    assert!(sim.present(b"/srv/etc"));
    sim.symlink(b"/srv", b"out", b"/../../etc");
    assert_eq!(create(&mut sim, &root, b"out/shadow", &InodeType::File(0o600)), Ok(()));
    assert!(sim.present(b"/srv/etc/shadow"));
    assert!(!sim.present(b"/etc/shadow"));
}

#[test]
fn remove_unlinks_files_and_directories() {
    let (mut sim, root) = jail();
    assert_eq!(remove(&mut sim, &root, b"/a/b"), Ok(()));
    assert!(!sim.present(b"/srv/a/b"));
    assert!(matches!(
        sim.log.last().unwrap(),
        Request::Unlinkat { name, flags: 0, .. } if name == b"b"
    ));
    assert_eq!(remove(&mut sim, &root, b"a/"), Ok(()));
    assert!(!sim.present(b"/srv/a"));
    assert!(matches!(
        sim.log.last().unwrap(),
        Request::Unlinkat { name, flags: AT_REMOVEDIR, .. } if name == b"a"
    ));
    assert_eq!(sim.count(Syscall::Unlinkat), 2);
}

#[test]
fn inode_type_race_on_remove() {
    let (mut sim, root) = jail();
    sim.file(b"/srv", b"x");
    sim.file(b"/srv", b"other");
    sim.swap_name = b"x".to_vec();
    sim.swaps = 3;
    assert_eq!(remove(&mut sim, &root, b"/x"), Ok(()));
    assert!(!sim.present(b"/srv/x"));
    assert!(sim.present(b"/srv/other"));
    assert!(sim.present(b"/srv/a/b"));
    assert_eq!(sim.count(Syscall::Unlinkat), 4);
}

#[test]
fn remove_gives_up_after_sixteen_attempts() {
    let (mut sim, root) = jail();
    sim.file(b"/srv", b"x");
    sim.swap_name = b"x".to_vec();
    sim.swaps = 1000;
    let stats = sim.count(Syscall::Fstatat);
    assert_eq!(
        remove(&mut sim, &root, b"/x"),
        Err(raw("pathrs remove", Syscall::Unlinkat, ENOTDIR))
    );
    assert_eq!(sim.count(Syscall::Unlinkat), 16);
    // One stat for the root of the walk, one for each attempt.
    assert_eq!(sim.count(Syscall::Fstatat) - stats, 17);
    assert!(sim.present(b"/srv/x"));
}

#[test]
fn remove_reports_the_last_error() {
    let (mut sim, root) = jail();
    assert_eq!(
        remove(&mut sim, &root, b"/missing"),
        Err(raw("pathrs remove", Syscall::Fstatat, ENOENT))
    );
    assert_eq!(sim.count(Syscall::Unlinkat), 0);
    assert_eq!(
        remove(&mut sim, &root, b"/a"),
        Err(raw("pathrs remove", Syscall::Unlinkat, ENOTEMPTY))
    );
    assert_eq!(sim.count(Syscall::Unlinkat), 16);
    assert_eq!(
        remove(&mut sim, &root, b"/.."),
        Err(wrapped(
            "split target path into (parent, name)",
            Error::InvalidArgument {
                name: "path".to_string(),
                description: "no trailing component".to_string(),
            }
        ))
    );
}

#[test]
fn rename_moves_between_resolved_parents() {
    let (mut sim, root) = jail();
    sim.dir(b"/srv/c");
    sim.symlink(b"/srv", b"to", b"/c");
    assert_eq!(rename(&mut sim, &root, b"/a/b", b"to/d", 1), Ok(()));
    assert!(!sim.present(b"/srv/a/b"));
    assert!(sim.present(b"/srv/c/d"));
    assert!(matches!(
        sim.log.last().unwrap(),
        Request::Renameat2 { oldname, newname, flags: 1, .. } if oldname == b"b" && newname == b"d"
    ));
    assert_eq!(sim.count(Syscall::Renameat2), 1);
}

#[test]
fn rename_checks_the_root_and_then_splits_both_paths() {
    let (mut sim, root) = jail();
    let before = sim.log.len();
    assert_eq!(
        rename(&mut sim, &root, b"/", b"/a/c", 0),
        Err(wrapped(
            "split source path into (parent, name)",
            Error::InvalidArgument {
                name: "path".to_string(),
                description: "no trailing component".to_string(),
            }
        ))
    );
    assert_eq!(
        rename(&mut sim, &root, b"/a/b", b"/a/..", 0),
        Err(wrapped(
            "split target path into (parent, name)",
            Error::InvalidArgument {
                name: "path".to_string(),
                description: "no trailing component".to_string(),
            }
        ))
    );
    // Each of the two made one request: the check of the root.
    assert_eq!(sim.log.len(), before + 2);
    assert_eq!(sim.count(Syscall::Readback), sim.log.len() - 1);
    assert_eq!(
        rename(&mut sim, &root, b"/a/b", b"/missing/c", 0),
        Err(wrapped(
            "resolve target path for rename",
            raw("open next component of resolution", Syscall::Openat, ENOENT)
        ))
    );
    assert!(sim.present(b"/srv/a/b"));
}

#[test]
fn rename_flags_need_the_kernel() {
    let (_, root) = jail();
    let mut state = match root.rename(b"/a/b", b"/a/c", RenameFlags(2)) {
        Step::Call(state, _) => state,
        Step::Done(_) => panic!("both paths have a final component"),
    };
    let replies = vec![
        Reply::Bytes(b"/srv".to_vec()),
        Reply::Bytes(b"/srv".to_vec()),
        Reply::Stat(Stat { mode: S_IFDIR | 0o755, dev: 1, ino: 10 }),
        Reply::Fd(4),
        Reply::Fd(5),
        Reply::Stat(Stat { mode: S_IFDIR | 0o755, dev: 1, ino: 11 }),
        Reply::Done,
        Reply::Bytes(b"/srv/a".to_vec()),
        Reply::Bytes(b"/srv".to_vec()),
        Reply::Stat(Stat { mode: S_IFDIR | 0o755, dev: 1, ino: 10 }),
        Reply::Fd(6),
        Reply::Fd(7),
        Reply::Stat(Stat { mode: S_IFDIR | 0o755, dev: 1, ino: 11 }),
        Reply::Done,
        Reply::Bytes(b"/srv/a".to_vec()),
    ];
    let mut last = None;
    for reply in replies {
        match state.step(&root, reply) {
            Step::Call(next, request) => {
                state = next;
                last = Some(request);
            }
            Step::Done(result) => panic!("{:?}", result),
        }
    }
    assert_eq!(
        last,
        Some(Request::Renameat2 {
            olddirfd: 5,
            oldname: b"b".to_vec(),
            newdirfd: 7,
            newname: b"c".to_vec(),
            flags: 2,
        })
    );
    match state.step(&root, Reply::Unsupported) {
        Step::Done(result) => {
            assert_eq!(result, Err(Error::NotSupported { feature: "renameat2".to_string() }))
        }
        _ => panic!("the rename ends with the answer of the kernel"),
    }
}

#[test]
fn no_operation_names_more_than_one_entry() {
    let (mut sim, root) = jail();
    sim.symlink(b"/srv", b"deep", b"a/./..//a/b");
    let _ = resolve(&mut sim, &root, b"/deep");
    let _ = create(&mut sim, &root, b"a//d/", &InodeType::Directory(0o700));
    let _ = create_file(&mut sim, &root, b"./a/d/../f", 0o600);
    let _ = rename(&mut sim, &root, b"a/f", b"/a/d/g", 0);
    let _ = remove(&mut sim, &root, b"a/d/g/.");
    assert!(sim.log.len() > 50);
    for request in &sim.log {
        match request {
            Request::Openat { name, .. } => assert!(!name.contains(&b'/')),
            Request::Fstatat { name, .. } => assert!(!name.contains(&b'/')),
            Request::Unlinkat { name, .. } => assert!(!name.contains(&b'/')),
            Request::Mkdirat { name, .. } => assert!(!name.contains(&b'/')),
            Request::Renameat2 { oldname, newname, .. } => {
                assert!(!oldname.contains(&b'/') && !newname.contains(&b'/'))
            }
            _ => {}
        }
    }
    assert!(sim.present(b"/srv/a/d"));
    assert!(!sim.present(b"/srv/a/d/g"));
}

#[test]
fn a_reply_of_the_wrong_kind_ends_the_operation() {
    let (_, root) = jail();
    let state = match root.resolve(b"/a") {
        Step::Call(state, _) => state,
        Step::Done(_) => panic!("a lookup begins with a request"),
    };
    let state = match state.step(&root, Reply::Bytes(b"/srv".to_vec())) {
        Step::Call(state, request) => {
            assert_eq!(request, Request::Fstatat { dirfd: root.as_raw_fd(), name: Vec::new() });
            state
        }
        Step::Done(_) => panic!("the root is valid"),
    };
    match state.step(&root, Reply::Done) {
        Step::Done(result) => assert_eq!(
            result,
            Err(Error::InvalidArgument {
                name: "reply".to_string(),
                description: "does not answer the request".to_string(),
            })
        ),
        _ => panic!("the walk ends"),
    }
}

#[test]
fn every_open_descriptor_is_accounted_for() {
    let (mut sim, root) = jail();
    sim.symlink(b"/srv", b"abs", b"/a");
    sim.symlink(b"/srv", b"loop", b"loop");
    let mut handles = Vec::new();
    handles.push(resolve(&mut sim, &root, b"a/../abs/b").unwrap());
    handles.push(create_file(&mut sim, &root, b"abs/new", 0o600).unwrap());
    assert!(resolve(&mut sim, &root, b"abs/missing/x").is_err());
    assert!(resolve(&mut sim, &root, b"loop").is_err());
    assert_eq!(create(&mut sim, &root, b"a/d", &InodeType::Directory(0o700)), Ok(()));
    assert_eq!(create(&mut sim, &root, b"a/l", &InodeType::Hardlink(b"/a/b".to_vec())), Ok(()));
    assert_eq!(rename(&mut sim, &root, b"a/l", b"a/d/m", 0), Ok(()));
    assert_eq!(remove(&mut sim, &root, b"a/d/m"), Ok(()));
    assert!(remove(&mut sim, &root, b"a/d/m").is_err());
    // What the exchanges left open is what is open.
    let mut counted = std::mem::replace(&mut sim.held, Held::new()).leftover();
    counted.sort();
    let open: Vec<i32> = sim.fds.keys().copied().collect();
    assert_eq!(counted, open);
    assert!(open.contains(&root.as_raw_fd()));
    for handle in &handles {
        assert!(open.contains(&handle.as_raw_fd()));
    }
    assert!(open.len() > handles.len() + 1);
}
