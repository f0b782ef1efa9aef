//! The decisions of the `lockfile` tool: its exit codes, how many more
//! tries it makes, and when a lock counts as stale.

use vstd::prelude::*;

verus! {

/// Successful termination.
pub const EX_OK: u8 = 0;
/// Command line usage error.
pub const EX_USAGE: u8 = 64;
/// Cannot open input.
pub const EX_NOINPUT: u8 = 66;
/// Service unavailable.
pub const EX_UNAVAILABLE: u8 = 69;
/// System error.
pub const EX_OSERR: u8 = 71;
/// Can't create (user) output file.
pub const EX_CANTCREAT: u8 = 73;
/// Temporary failure; the user is invited to retry.
pub const EX_TEMPFAIL: u8 = 75;

/// The exit code when `-!` inverts it: success and "can't create" swap,
/// every other code stays.
pub open spec fn inverted(code: u8, invert: bool) -> u8 {
    if !invert {
        code
    } else if code == EX_OK {
        EX_CANTCREAT
    } else if code == EX_CANTCREAT {
        EX_OK
    } else {
        code
    }
}

/// Invert an exit code when asked to.
pub fn invert_code(code: u8, invert: bool) -> (r: u8)
    ensures
        r == inverted(code, invert),
{
    if invert {
        if code == EX_OK {
            EX_CANTCREAT
        } else if code == EX_CANTCREAT {
            EX_OK
        } else {
            code
        }
    } else {
        code
    }
}

/// The retries left after a lock that exists: none left (zero) gives up,
/// a positive count goes down by one, a negative count retries forever.
pub fn retries_after_exists(retries: i64) -> (r: Option<i64>)
    ensures
        retries == 0 ==> r is None,
        retries > 0 ==> r == Some((retries - 1) as i64),
        retries < 0 ==> r == Some(retries),
{
    if retries == 0 {
        None
    } else if retries > 0 {
        Some(retries - 1)
    } else {
        Some(retries)
    }
}

/// The tries left after a file system failure: one fewer (never below
/// zero); none left gives up.
pub fn nfs_retries_after_error(nfs_retry: u32) -> (r: Option<u32>)
    ensures
        nfs_retry <= 1 ==> r is None,
        nfs_retry > 1 ==> r == Some((nfs_retry - 1) as u32),
{
    let left = nfs_retry.saturating_sub(1);
    if left == 0 {
        None
    } else {
        Some(left)
    }
}

/// A lock may be forced: forcing is on (`force` seconds, not zero), the
/// lock is a small file, and it is older than `force` seconds.
pub open spec fn may_force(force: u64, is_dir: bool, len: u64, max_len: u64, mtime: Option<u64>, now: u64) -> bool {
    &&& force != 0
    &&& !is_dir
    &&& len <= max_len
    &&& mtime is Some
    &&& now > mtime.unwrap()
    &&& now - mtime.unwrap() > force
}

/// Whether a lock found with these properties may be forced.
pub fn lock_is_stale(force: u64, is_dir: bool, len: u64, max_len: u64, mtime: Option<u64>, now: u64) -> (r: bool)
    ensures
        r == may_force(force, is_dir, len, max_len, mtime, now),
{
    if force == 0 || is_dir || len > max_len {
        return false;
    }
    match mtime {
        None => false,
        Some(m) => !(now <= m || now - m <= force),
    }
}

/// Inverting twice gives the code back.
pub proof fn law_invert_twice(code: u8)
    ensures
        inverted(inverted(code, true), true) == code,
{
}

} // verus!
