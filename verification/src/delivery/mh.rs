//! MH folders: numbered message files.

use vstd::prelude::*;

verus! {

/// State for MH message numbering (caches next number across deliveries).
#[derive(Debug, Default)]
pub struct Namer {
    next: u64,
}

impl Namer {
    /// The number the next message gets (0: not yet known).
    pub closed spec fn spec_next(&self) -> u64 {
        self.next
    }

    /// A namer that has not yet looked at the folder.
    pub fn new() -> (r: Namer)
        ensures
            r.spec_next() == 0,
    {
        Namer { next: 0 }
    }

    /// Take the next message number: the first time, one more than the
    /// highest number `scan_max` found in the folder; then counting up.
    /// `None` once numbers run out.
    pub fn take_next(&mut self, scan_max: u64) -> (r: Option<u64>)
        ensures
            ({
                let n = if old(self).spec_next() == 0 { scan_max as int + 1 } else { old(self).spec_next() as int };
                &&& n < u64::MAX ==> r == Some(n as u64) && final(self).spec_next() == n + 1
                &&& n >= u64::MAX ==> r is None
            }),
    {
        if self.next == 0 {
            if scan_max >= u64::MAX - 1 {
                return None;
            }
            self.next = scan_max + 1;
        }
        if self.next == u64::MAX {
            return None;
        }
        let n = self.next;
        self.next = n + 1;
        Some(n)
    }
}

} // verus!
