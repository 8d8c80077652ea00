//! Filesystem abstraction for file-test primaries.
//!
//! The trait mirrors what `[[`'s primaries need: stat (with and without
//! symlink follow), an access check for `-r`/`-w`/`-x`, and a tty check for
//! `-t`. Paths are passed as the expanded word text.

use vstd::prelude::*;

verus! {

#[derive(Debug, Clone, Copy, PartialEq, Eq, Structural)]
pub enum FileKind {
    Regular,
    Directory,
    Symlink,
    BlockDevice,
    CharDevice,
    NamedPipe,
    Socket,
    Other,
}

#[derive(Debug, Clone, Copy)]
pub struct FileStat {
    pub kind: FileKind,
    pub size: u64,
    /// Lower 12 bits of mode (permissions + setuid/setgid/sticky).
    pub mode: u32,
    pub uid: u32,
    pub gid: u32,
    pub dev: u64,
    pub ino: u64,
    /// Modification time as (sec, nsec).
    pub mtime: (i64, i64),
    /// Access time as (sec, nsec).
    pub atime: (i64, i64),
}

#[derive(Debug, Clone, Copy, PartialEq, Eq, Structural)]
pub enum AccessMode {
    Read,
    Write,
    Execute,
}

/// What a file system answers, as a mathematical object: the status of each
/// path with and without following symlinks (`None` when the path cannot be
/// stat'ed), the access checks, which descriptors are terminals, and the
/// effective user and group.
pub struct FsModel {
    pub stat: spec_fn(Seq<char>) -> Option<FileStat>,
    pub lstat: spec_fn(Seq<char>) -> Option<FileStat>,
    pub access: spec_fn(Seq<char>, AccessMode) -> bool,
    pub tty: spec_fn(i32) -> bool,
    pub euid: u32,
    pub egid: u32,
}

/// The file system seen by the evaluator.
///
/// An implementation that declares `obeys_fs_model()` promises that every
/// method answers according to `model()`; a real file system changes under
/// the evaluator's feet and makes no such promise, and the evaluator's
/// contract then says nothing of the file primaries' answers.
pub trait FileSystem {
    /// Whether this file system answers according to its model; one that
    /// does not say so gets no promise from the evaluator.
    open spec fn obeys_fs_model() -> bool {
        false
    }

    /// What this file system answers, for those that obey it.
    open spec fn model(&self) -> FsModel {
        arbitrary()
    }

    /// Stat following symlinks.
    fn stat(&self, path: &str) -> (r: Result<FileStat, std::io::Error>)
        ensures
            Self::obeys_fs_model() ==> match r {
                Ok(s) => (self.model().stat)(path@) == Some(s),
                Err(_) => (self.model().stat)(path@) is None,
            },
    ;

    /// Stat without following symlinks (used for `-h` / `-L`).
    fn lstat(&self, path: &str) -> (r: Result<FileStat, std::io::Error>)
        ensures
            Self::obeys_fs_model() ==> match r {
                Ok(s) => (self.model().lstat)(path@) == Some(s),
                Err(_) => (self.model().lstat)(path@) is None,
            },
    ;

    /// Effective-uid access check.
    fn access(&self, path: &str, mode: AccessMode) -> (r: bool)
        ensures
            Self::obeys_fs_model() ==> r == (self.model().access)(path@, mode),
    ;

    /// Whether `fd` is a TTY. Used by `-t`.
    fn is_tty(&self, fd: i32) -> (r: bool)
        ensures
            Self::obeys_fs_model() ==> r == (self.model().tty)(fd),
    ;

    /// Effective UID of the running process (for `-O`).
    fn effective_uid(&self) -> (r: u32)
        ensures
            Self::obeys_fs_model() ==> r == self.model().euid,
    ;

    /// Effective GID of the running process (for `-G`).
    fn effective_gid(&self) -> (r: u32)
        ensures
            Self::obeys_fs_model() ==> r == self.model().egid,
    ;
}

/// The file type encoded in the `S_IFMT` bits of a unix mode.
pub open spec fn kind_of_mode(mode: u32) -> FileKind {
    let t = mode & 0o170000u32;
    if t == 0o100000u32 {
        FileKind::Regular
    } else if t == 0o040000u32 {
        FileKind::Directory
    } else if t == 0o120000u32 {
        FileKind::Symlink
    } else if t == 0o060000u32 {
        FileKind::BlockDevice
    } else if t == 0o020000u32 {
        FileKind::CharDevice
    } else if t == 0o010000u32 {
        FileKind::NamedPipe
    } else if t == 0o140000u32 {
        FileKind::Socket
    } else {
        FileKind::Other
    }
}

/// Decodes the file type from a unix mode.
pub fn kind_from_mode(mode: u32) -> (r: FileKind)
    ensures
        r == kind_of_mode(mode),
{
    let t = mode & 0o170000u32;
    if t == 0o100000u32 {
        FileKind::Regular
    } else if t == 0o040000u32 {
        FileKind::Directory
    } else if t == 0o120000u32 {
        FileKind::Symlink
    } else if t == 0o060000u32 {
        FileKind::BlockDevice
    } else if t == 0o020000u32 {
        FileKind::CharDevice
    } else if t == 0o010000u32 {
        FileKind::NamedPipe
    } else if t == 0o140000u32 {
        FileKind::Socket
    } else {
        FileKind::Other
    }
}

} // verus!
