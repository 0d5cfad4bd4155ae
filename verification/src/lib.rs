//! Path operations that stay inside a fixed directory tree.
//!
//! A caller names a directory as a *root*. Every lookup, creation, removal or
//! rename is then resolved as if that directory were the root of the
//! filesystem: absolute paths and symbolic links are reinterpreted relative to
//! it, and `..` never climbs above it.
//!
//! The library performs no system call itself. Every operation is a small
//! state machine: it hands out one [`Request`] at a time, the caller performs
//! it and feeds the [`Reply`] back, until the operation reports its result.
//! What is decided between two system calls is decided here, and proved.

pub mod create;
pub mod error;
pub mod open;
pub mod path;
pub mod remove;
pub mod rename;
pub mod resolve;
pub mod root;
pub mod sys;
pub mod trace;
pub mod walk;

pub use create::{Create, CreateFile, CreateFileView, CreateView, InodeType, InodeTypeView};
pub use error::{wrap, Error, ErrorView, Syscall, SyscallError};
pub use open::{OpenRoot, OpenRootView};
pub use path::{path_file_name, path_is_absolute, path_join, path_parent, path_split};
pub use remove::{Remove, RemoveView};
pub use rename::{Rename, RenameView};
pub use resolve::{Resolve, ResolveView};
pub use root::{Handle, RenameFlags, Resolver, Root, RootView};
pub use sys::{
    Capabilities, Held, Next, NodeKind, Open, Reply, ReplyView, Request, RequestView, Stat, Step,
};
pub use trace::StackTrace;
pub use walk::{Walk, WalkView};
