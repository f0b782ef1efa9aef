//! Mail delivery to folders and pipes: naming, framing and folder types.

use vstd::prelude::*;
use vstd::string::StrSliceExecFns;

use crate::text::{chars_of, ends_with_char};

pub mod maildir;
pub mod mbox;
pub mod mh;
pub mod pipe;

pub use maildir::Namer;

verus! {

/// Options for delivery operations.
#[derive(Debug, Clone, Copy, Default)]
pub struct DeliveryOpts {
    /// Raw mode: don't ensure trailing newline.
    pub raw: bool,
}

/// Result of a delivery operation.
#[derive(Debug)]
pub struct DeliveryResult {
    /// Bytes written.
    pub bytes: usize,
    /// Path where message was delivered (for logging).
    pub path: String,
}

/// Why a lock could not be had.
#[derive(Debug, PartialEq)]
pub enum LockError {
    /// The lockfile exists (someone else holds the lock).
    Exists,
    /// The lockfile name is too long for the file system.
    TooLong,
    /// The lockfile's directory is missing or unusable.
    Unavailable,
    /// Another I/O error, as text.
    Io(String),
}

/// Common delivery error type.
#[derive(Debug, PartialEq)]
pub enum DeliveryError {
    /// I/O error during delivery: the operation, the path and the error.
    Io {
        /// What was being done (`open`, `write`, `spawn`, ...).
        op: String,
        /// The path or command it was done to.
        path: String,
        /// The error, as text.
        message: String,
    },
    /// Failed to create a unique filename (maildir/MH).
    UniqueFile,
    /// Failed to link temp file to final location.
    Link,
    /// Failed to acquire lockfile.
    Lock(LockError),
    /// Pipe command exited with non-zero status.
    PipeExit(i32),
    /// Pipe command killed by signal.
    PipeSignal(i32),
}

/// Folder type as determined by path suffix or filesystem state.
#[derive(Debug, Clone, Copy, PartialEq, Eq, Structural)]
pub enum FolderType {
    /// Regular file (mbox format).
    File,
    /// Maildir (path ends with /).
    Maildir,
    /// MH folder (path ends with /.).
    Mh,
    /// Directory with msgprefix (an existing directory).
    Dir,
}

/// `s` without its trailing copies of `c` (`str::trim_end_matches`).
pub open spec fn trim_end_char(s: Seq<char>, c: char) -> Seq<char>
    decreases s.len(),
{
    if s.len() > 0 && s.last() == c {
        trim_end_char(s.drop_last(), c)
    } else {
        s
    }
}

/// The folder type that a path's suffix names, and the path with the
/// suffix taken off: `/.` names an MH folder, a trailing `/` (or more) a
/// Maildir; a path without such a suffix is a directory folder when it
/// names an existing directory (`is_dir`), a file otherwise.
pub open spec fn folder_of(p: Seq<char>, is_dir: bool) -> (FolderType, Seq<char>) {
    if p.len() >= 2 && p.last() == '.' && p[p.len() - 2] == '/' {
        (FolderType::Mh, trim_end_char(p.take(p.len() - 2), '/'))
    } else if ends_with_char(p, '/') {
        (FolderType::Maildir, trim_end_char(p, '/'))
    } else if is_dir {
        (FolderType::Dir, p)
    } else {
        (FolderType::File, p)
    }
}

/// Length of `v.take(j)` once trailing copies of `c` are taken off.
pub(crate) fn trim_end_len(v: &[char], c: char, j: usize) -> (k: usize)
    requires
        j <= v@.len(),
    ensures
        k <= j,
        v@.take(k as int) == trim_end_char(v@.take(j as int), c),
{
    let mut k = j;
    while k > 0 && v[k - 1] == c
        invariant
            k <= j <= v@.len(),
            trim_end_char(v@.take(k as int), c) == trim_end_char(v@.take(j as int), c),
        decreases k,
    {
        assert(v@.take(k as int).drop_last() =~= v@.take(k - 1));
        k -= 1;
    }
    assert(trim_end_char(v@.take(k as int), c) == v@.take(k as int));
    k
}

impl FolderType {
    /// The path suffix that names this folder type.
    pub fn suffix(self) -> (r: &'static str)
        ensures
            r@ == match self {
                FolderType::File => ""@,
                FolderType::Maildir => "/"@,
                FolderType::Mh => "/."@,
                FolderType::Dir => "//"@,
            },
    {
        match self {
            FolderType::File => "",
            FolderType::Maildir => "/",
            FolderType::Mh => "/.",
            FolderType::Dir => "//",
        }
    }

    /// Whether this folder type needs a recipe-level lockfile.
    /// Maildir and MH use atomic delivery and need no locking.
    pub fn needs_lock(self) -> (b: bool)
        ensures
            b == (self == FolderType::File || self == FolderType::Dir),
    {
        match self {
            FolderType::File | FolderType::Dir => true,
            FolderType::Maildir | FolderType::Mh => false,
        }
    }

    /// Parse folder type from path suffix, stripping type specifier.
    ///
    /// - `foo/` (or `foo//`) → Maildir
    /// - `foo/.` → MH
    /// - `foo` → File, or Dir when `is_dir` says that the path is an
    ///   existing directory
    ///
    /// Returns the type and the path with specifier stripped.  The caller
    /// finds out from the file system whether the path is a directory.
    pub fn parse(path: &str, is_dir: bool) -> (r: (FolderType, &str))
        ensures
            r.0 == folder_of(path@, is_dir).0,
            r.1@ == folder_of(path@, is_dir).1,
    {
        let v = chars_of(path);
        let n = v.len();
        assert(v@ == path@);
        if n >= 2 && v[n - 1] == '.' && v[n - 2] == '/' {
            let k = trim_end_len(v.as_slice(), '/', n - 2);
            (FolderType::Mh, path.substring_char(0, k))
        } else if n >= 1 && v[n - 1] == '/' {
            let k = trim_end_len(v.as_slice(), '/', n);
            assert(v@.take(n as int) =~= v@);
            (FolderType::Maildir, path.substring_char(0, k))
        } else if is_dir {
            assert(path@.subrange(0, n as int) =~= path@);
            (FolderType::Dir, path.substring_char(0, n))
        } else {
            assert(path@.subrange(0, n as int) =~= path@);
            (FolderType::File, path.substring_char(0, n))
        }
    }
}

} // verus!
