use pathrs::sys::{
    flags_to_unlink, mode_is_directory, mode_is_symlink, mode_of_node, permissions, resolve_flags,
};
use pathrs::{
    Capabilities, Held, NodeKind, RenameFlags, Reply, Request, Resolver, StackTrace, Syscall,
};

#[test]
fn permissions_drop_the_file_type() {
    assert_eq!(permissions(0o100644), 0o644);
    assert_eq!(permissions(0o040755), 0o755);
    assert_eq!(permissions(0o7777), 0o7777);
    assert_eq!(permissions(libc::S_IFMT | 0o1), 0o1);
    assert_eq!(permissions(u32::MAX), !0o170000);
}

#[test]
fn node_modes_carry_the_type_of_the_node() {
    assert_eq!(mode_of_node(NodeKind::Fifo, 0o644), 0o010644);
    assert_eq!(mode_of_node(NodeKind::CharacterDevice, 0o660), 0o020660);
    assert_eq!(mode_of_node(NodeKind::BlockDevice, 0o660), 0o060660);
    assert_eq!(mode_of_node(NodeKind::Fifo, 0o644), libc::S_IFIFO | 0o644);
    assert_eq!(mode_of_node(NodeKind::CharacterDevice, 0o660), libc::S_IFCHR | 0o660);
    assert_eq!(mode_of_node(NodeKind::BlockDevice, 0o660), libc::S_IFBLK | 0o660);
    // The file type bits that come with the permissions are dropped.
    assert_eq!(mode_of_node(NodeKind::Fifo, 0o100644), 0o010644);
    assert_eq!(mode_of_node(NodeKind::BlockDevice, 0o120777), 0o060777);
    for mode in [0u32, 0o7777, 0o170000, 0o177777, u32::MAX] {
        for kind in [NodeKind::Fifo, NodeKind::CharacterDevice, NodeKind::BlockDevice] {
            let made = mode_of_node(kind, mode);
            assert_eq!(permissions(made), permissions(mode));
            assert_eq!(made & libc::S_IFMT, mode_of_node(kind, 0));
        }
    }
}

#[test]
fn file_types_are_read_from_the_mode() {
    assert!(mode_is_directory(0o040755));
    assert!(mode_is_directory(libc::S_IFDIR));
    assert!(!mode_is_directory(0o100755));
    assert!(!mode_is_directory(0o120777));
    assert!(!mode_is_directory(0o060000));
    assert!(mode_is_symlink(0o120777));
    assert!(mode_is_symlink(libc::S_IFLNK));
    assert!(!mode_is_symlink(0o100777));
    assert!(!mode_is_symlink(0o020000));
    assert!(!mode_is_symlink(0o040755));
}

#[test]
fn directories_are_unlinked_with_the_directory_flag() {
    assert_eq!(flags_to_unlink(0o040755), 0x200);
    assert_eq!(flags_to_unlink(0o040755), libc::AT_REMOVEDIR);
    assert_eq!(flags_to_unlink(0o100644), 0);
    assert_eq!(flags_to_unlink(0o120777), 0);
    assert_eq!(flags_to_unlink(0o010644), 0);
}

#[test]
fn scoped_lookups_stay_in_the_root_and_on_its_device() {
    assert_eq!(resolve_flags(), 0x13);
    assert_eq!(
        resolve_flags(),
        libc::RESOLVE_IN_ROOT | libc::RESOLVE_NO_MAGICLINKS | libc::RESOLVE_NO_XDEV
    );
}

#[test]
fn resolver_follows_the_kernel() {
    let legacy = Capabilities { openat2: false, rename_flags: true };
    let recent = Capabilities { openat2: true, rename_flags: false };
    assert_eq!(Resolver::best(legacy), Resolver::Emulated);
    assert_eq!(Resolver::best(recent), Resolver::Kernel);
    assert!(Resolver::Emulated.supported(legacy));
    assert!(Resolver::Emulated.supported(recent));
    assert!(!Resolver::Kernel.supported(legacy));
    assert!(Resolver::Kernel.supported(recent));
}

#[test]
fn rename_flags_need_support_unless_they_are_empty() {
    let with = Capabilities { openat2: false, rename_flags: true };
    let without = Capabilities { openat2: true, rename_flags: false };
    assert!(RenameFlags(0).supported(with));
    assert!(RenameFlags(0).supported(without));
    assert!(RenameFlags(1).supported(with));
    assert!(!RenameFlags(1).supported(without));
    assert!(!RenameFlags(2 | 4).supported(without));
}

#[test]
fn backtraces_are_captured_only_when_enabled() {
    let on = StackTrace::generate(true);
    assert!(on.0.is_some());
    assert!(on.as_backtrace().is_some());
    let off = StackTrace::generate(false);
    assert!(off.0.is_none());
    assert!(off.as_backtrace().is_none());
}

#[test]
fn system_calls_have_their_names() {
    assert_eq!(Syscall::Openat2.name(), "openat2");
    assert_eq!(Syscall::Renameat2.name(), "renameat2");
    assert_eq!(Syscall::Readback.name(), "readlink");
    assert_eq!(Syscall::Unlinkat.name(), "unlinkat");
}

#[test]
fn held_descriptors_are_counted_by_the_exchanges() {
    let mut held = Held::new();
    held.answered(&Reply::Fd(3));
    held.answered(&Reply::Done);
    held.answered(&Reply::Fd(4));
    held.answered(&Reply::Bytes(vec![5]));
    held.answered(&Reply::Fd(3));
    held.asked(&Request::Readback { fd: 4 });
    held.asked(&Request::Close { fd: 3 });
    held.asked(&Request::Close { fd: 9 });
    held.asked(&Request::Dup { fd: 3 });
    let mut left = held.leftover();
    left.sort();
    assert_eq!(left, vec![3, 4]);

    let mut held = Held::new();
    held.answered(&Reply::Fd(7));
    held.answered(&Reply::Fd(8));
    held.keep(8);
    held.keep(1);
    assert_eq!(held.leftover(), vec![7]);
    assert_eq!(Held::new().leftover(), Vec::<i32>::new());
}
