//! Maildir folders: unique file names.

use vstd::prelude::*;

use crate::num::{decimal, lemma_decimal_split, push_decimal};
use crate::system::{host_name, now_secs, process_id};
use crate::text::{chars_of, string_from};

verus! {

/// A Maildir file name: `time.pid_serial.host`.
pub open spec fn maildir_name(t: u64, pid: u32, serial: u32, host: Seq<char>) -> Seq<char> {
    decimal(t as nat) + seq!['.'] + decimal(pid as nat) + seq!['_'] + decimal(serial as nat) + seq!['.']
        + host
}

/// State for unique filename generation (preserves serial across calls).
#[derive(Debug)]
pub struct Namer {
    last_time: u64,
    serial: u32,
    pid: u32,
    host: String,
}

impl Namer {
    /// The time of the last name made.
    pub closed spec fn spec_last_time(&self) -> u64 {
        self.last_time
    }

    /// The serial number that the next name in the same second gets.
    pub closed spec fn spec_serial(&self) -> u32 {
        self.serial
    }

    /// The process id in the names.
    pub closed spec fn spec_pid(&self) -> u32 {
        self.pid
    }

    /// The host name in the names.
    pub closed spec fn spec_host(&self) -> Seq<char> {
        self.host@
    }

    /// Create a new namer for this process and host (`localhost` when the
    /// host name cannot be had or is no valid UTF-8).
    pub fn new() -> (r: Namer)
        ensures
            r.spec_last_time() == 0,
            r.spec_serial() == 0,
    {
        let host = match host_name() {
            Some((h, true)) => h,
            _ => "localhost".to_string(),
        };
        Namer { last_time: 0, serial: 0, pid: process_id(), host }
    }

    /// A namer with a given process id and host name.
    pub fn with_identity(pid: u32, host: &str) -> (r: Namer)
        ensures
            r.spec_last_time() == 0,
            r.spec_serial() == 0,
            r.spec_pid() == pid,
            r.spec_host() == host@,
    {
        Namer { last_time: 0, serial: 0, pid, host: host.to_string() }
    }

    /// Generate a unique file name for time `t`: the serial restarts at 0
    /// when the time changes and counts up within one second.  The error
    /// `UniqueFile` when the serial would overflow.
    pub fn filename_at(&mut self, t: u64) -> (r: Result<String, super::DeliveryError>)
        ensures
            final(self).spec_pid() == old(self).spec_pid(),
            final(self).spec_host() == old(self).spec_host(),
            ({
                let serial = if t != old(self).spec_last_time() { 0u32 } else { old(self).spec_serial() };
                &&& final(self).spec_last_time() == t
                &&& serial < u32::MAX ==> final(self).spec_serial() == serial + 1 && r is Ok
                    && r.unwrap()@ == maildir_name(t, old(self).spec_pid(), serial, old(self).spec_host())
                &&& serial == u32::MAX ==> r == Err::<String, super::DeliveryError>(super::DeliveryError::UniqueFile)
            }),
    {
        if t != self.last_time {
            self.last_time = t;
            self.serial = 0;
        }
        let serial = self.serial;
        if serial == u32::MAX {
            return Err(super::DeliveryError::UniqueFile);
        }
        self.serial = serial + 1;
        let mut v: Vec<char> = Vec::new();
        push_decimal(&mut v, t);
        v.push('.');
        push_decimal(&mut v, self.pid as u64);
        v.push('_');
        push_decimal(&mut v, serial as u64);
        v.push('.');
        let h = chars_of(self.host.as_str());
        let ghost before = v@;
        let mut i: usize = 0;
        while i < h.len()
            invariant
                i <= h@.len(),
                v@ == before + h@.take(i as int),
            decreases h@.len() - i,
        {
            v.push(h[i]);
            assert(v@ =~= before + h@.take(i + 1));
            i += 1;
        }
        assert(h@.take(i as int) =~= h@);
        assert(v@ =~= maildir_name(t, self.pid, serial, self.host@));
        Ok(string_from(v.as_slice()))
    }

    /// Generate unique filename in Maildir format: time.pid_serial.hostname,
    /// for the current time.  The clock is read here, so what holds is
    /// stated for every time it may give: the error `UniqueFile` when it
    /// stands before the epoch or the serial would overflow.
    pub fn filename(&mut self) -> (r: Result<String, super::DeliveryError>)
        ensures
            final(self).spec_pid() == old(self).spec_pid(),
            final(self).spec_host() == old(self).spec_host(),
            r matches Ok(name) ==> exists|t: u64, serial: u32|
                name@ == maildir_name(t, old(self).spec_pid(), serial, old(self).spec_host()),
            r matches Err(e) ==> e == super::DeliveryError::UniqueFile,
    {
        match now_secs() {
            Some(t) => self.filename_at(t),
            None => Err(super::DeliveryError::UniqueFile),
        }
    }
}

/// Maildir names are distinct: names of one process and host agree
/// only when made at the same time with the same serial.
pub proof fn law_maildir_names_distinct(t1: u64, s1: u32, t2: u64, s2: u32, pid: u32, host: Seq<char>)
    requires
        t1 != t2 || s1 != s2,
    ensures
        maildir_name(t1, pid, s1, host) != maildir_name(t2, pid, s2, host),
{
    let tail = |s: u32| seq!['.'] + decimal(pid as nat) + seq!['_'] + decimal(s as nat) + seq!['.'] + host;
    let rest = |s: u32| decimal(s as nat) + (seq!['.'] + host);
    assert(maildir_name(t1, pid, s1, host) =~= decimal(t1 as nat) + tail(s1));
    assert(maildir_name(t2, pid, s2, host) =~= decimal(t2 as nat) + tail(s2));
    if maildir_name(t1, pid, s1, host) == maildir_name(t2, pid, s2, host) {
        assert(tail(s1)[0] == '.');
        assert(tail(s2)[0] == '.');
        lemma_decimal_split(t1 as nat, t2 as nat, tail(s1), tail(s2));
        let k = (decimal(pid as nat).len() + 2) as int;
        assert(tail(s1).skip(k) =~= rest(s1));
        assert(tail(s2).skip(k) =~= rest(s2));
        assert((seq!['.'] + host)[0] == '.');
        lemma_decimal_split(s1 as nat, s2 as nat, seq!['.'] + host, seq!['.'] + host);
    }
}

/// Two names that one `Namer` makes in a row differ, whatever times the
/// clock gives: in another second the time differs, in the same second
/// the serial.
pub proof fn law_successive_names_differ(last: u64, serial: u32, pid: u32, host: Seq<char>, t1: u64, t2: u64)
    requires
        (if t1 != last { 0u32 } else { serial }) < u32::MAX,
    ensures
        ({
            let s1 = if t1 != last { 0u32 } else { serial };
            let s2 = if t2 != t1 { 0u32 } else { (s1 + 1) as u32 };
            maildir_name(t1, pid, s1, host) != maildir_name(t2, pid, s2, host)
        }),
{
    let s1 = if t1 != last { 0u32 } else { serial };
    let s2 = if t2 != t1 { 0u32 } else { (s1 + 1) as u32 };
    law_maildir_names_distinct(t1, s1, t2, s2, pid, host);
}

} // verus!
