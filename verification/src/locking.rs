//! Lockfile names: shortening a name the file system refuses, and the
//! host name as it may stand in a file name.

use vstd::prelude::*;
use vstd::slice::slice_subrange;
use vstd::utf8::encode_utf8;

use crate::system::host_name;
use crate::text::{chars_of, string_from};

verus! {

/// Lockfiles should not be larger than this (procmail's MAX_locksize).
pub const MAX_LOCK_SIZE: u64 = 16;

/// Whether `truncate_lock_path` shortens a path with these characters:
/// its UTF-8 form has two bytes or more and the second-to-last is no `/`.
pub open spec fn lock_path_truncates(p: Seq<char>) -> bool {
    let b = encode_utf8(p);
    b.len() > 1 && b[b.len() - 2] != 47u8
}

/// Truncate a lock path by one character for ENAMETOOLONG recovery.
///
/// Returns false if the path is too short or the second-to-last byte
/// is a directory separator (matching procmail's truncation rule).
pub fn truncate_lock_path(p: &mut String) -> (r: bool)
    ensures
        r == lock_path_truncates(old(p)@),
        final(p)@ == if r { old(p)@.drop_last() } else { old(p)@ },
{
    let b = p.as_str().as_bytes();
    let n = b.len();
    if n > 1 && b[n - 2] != 47u8 {
        let v = chars_of(p.as_str());
        proof {
            if v@.len() == 0 {
                assert(encode_utf8(v@) =~= Seq::<u8>::empty());
            }
        }
        let m = v.len();
        let shorter = string_from(slice_subrange(v.as_slice(), 0, m - 1));
        assert(shorter@ =~= v@.drop_last());
        *p = shorter;
        true
    } else {
        false
    }
}

/// The characters that stand for `c` in a lockfile name: `/`, `:` and `\`
/// become `\` and the three octal digits of the character's code.
pub open spec fn escape_host_char(c: char) -> Seq<char> {
    if c == '/' || c == ':' || c == '\\' {
        let b = c as int;
        seq!['\\', (48 + b / 64) as char, (48 + (b / 8) % 8) as char, (48 + b % 8) as char]
    } else {
        seq![c]
    }
}

/// A host name as it may stand in a lockfile name: each character
/// replaced by `escape_host_char`.
pub open spec fn escaped_host(s: Seq<char>) -> Seq<char>
    decreases s.len(),
{
    if s.len() == 0 {
        Seq::empty()
    } else {
        escaped_host(s.drop_last()) + escape_host_char(s.last())
    }
}

/// Escape the characters of a host name that cannot stand in a lockfile
/// name (`/`, `:`, `\`) as `\` and three octal digits.
pub fn escape_hostname(h: &str) -> (r: String)
    ensures
        r@ == escaped_host(h@),
{
    let v = chars_of(h);
    let mut out: Vec<char> = Vec::new();
    let mut i: usize = 0;
    while i < v.len()
        invariant
            i <= v@.len(),
            v@ == h@,
            out@ == escaped_host(v@.take(i as int)),
        decreases v@.len() - i,
    {
        let c = v[i];
        if c == '/' {
            out.push('\\');
            out.push('0');
            out.push('5');
            out.push('7');
        } else if c == ':' {
            out.push('\\');
            out.push('0');
            out.push('7');
            out.push('2');
        } else if c == '\\' {
            out.push('\\');
            out.push('1');
            out.push('3');
            out.push('4');
        } else {
            out.push(c);
        }
        assert(v@.take(i + 1).drop_last() =~= v@.take(i as int));
        assert(out@ =~= escaped_host(v@.take(i as int)) + escape_host_char(c));
        i += 1;
    }
    assert(v@.take(i as int) =~= v@);
    string_from(out.as_slice())
}

/// This machine's host name, escaped for lockfile names; `None` when the
/// system gives no host name, or one that is no valid UTF-8.  The host name rests on the
/// machine: what is stated is that any name given back is an escaped one.
pub fn safe_hostname() -> (r: Option<String>)
    ensures
        r matches Some(s) ==> exists|h: Seq<char>| s@ == escaped_host(h),
{
    match host_name() {
        Some((h, true)) => {
            let s = escape_hostname(h.as_str());
            Some(s)
        },
        _ => None,
    }
}

} // verus!
