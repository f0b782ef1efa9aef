//! What the library asks of the running system: the clock, the process
//! id and the host name.  Each result rests on the machine, so nothing
//! is promised of it beyond its type.

use vstd::prelude::*;

verus! {

/// The current time, in seconds since the Unix epoch (`SystemTime::now`
/// and `duration_since`); `None` if the clock stands before the epoch.
#[verifier::external_body]
pub(crate) fn now_secs() -> Option<u64> {
    match std::time::SystemTime::now().duration_since(std::time::UNIX_EPOCH) {
        Ok(d) => Some(d.as_secs()),
        Err(_) => None,
    }
}

/// The current time, in microseconds since the Unix epoch
/// (`SystemTime::now`, `duration_since` and `as_micros`); 0 if the clock
/// stands before the epoch.
#[verifier::external_body]
pub(crate) fn now_micros() -> u64 {
    match std::time::SystemTime::now().duration_since(std::time::UNIX_EPOCH) {
        Ok(d) => d.as_micros() as u64,
        Err(_) => 0,
    }
}

/// The format of a `From_` line's date, `Mon Jan  1 00:00:00 2024`.
pub open spec fn from_date_format() -> Seq<char> {
    "%a %b %e %H:%M:%S %Y"@
}

/// The local time now, formatted with `fmt` (`chrono::Local::now`, then
/// `format(fmt)`).  `fmt` is the `From_` date format, which chrono
/// formats without error (a format it cannot read makes `to_string`
/// panic).
#[verifier::external_body]
pub(crate) fn local_timestamp(fmt: &str) -> String
    requires
        fmt@ == from_date_format(),
{
    chrono::Local::now().format(fmt).to_string()
}

/// This process's id (`nix::unistd::getpid`).
#[verifier::external_body]
pub(crate) fn process_id() -> u32 {
    nix::unistd::getpid().as_raw() as u32
}

/// This machine's host name (`nix::unistd::gethostname`), if the system
/// gives one: its text, each invalid UTF-8 sequence replaced by U+FFFD
/// (`OsString::into_string`, else `to_string_lossy`), and whether it was
/// valid UTF-8 as it stood.
#[verifier::external_body]
pub(crate) fn host_name() -> Option<(String, bool)> {
    match nix::unistd::gethostname() {
        Ok(s) => match s.into_string() {
            Ok(t) => Some((t, true)),
            Err(o) => Some((o.to_string_lossy().into_owned(), false)),
        },
        Err(_) => None,
    }
}

} // verus!
