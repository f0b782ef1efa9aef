//! Duplicate detection via a circular null-terminated string cache: what
//! a cache holds, whether a key is in it, and what it holds once a new
//! key is recorded.

use vstd::prelude::*;
use vstd::slice::slice_subrange;
use vstd::utf8::encode_utf8;

use crate::text::{chars_of, string_from, trim, trim_bounds};

verus! {

/// Index of the first NUL of `c` at or after `i` (or the length).
pub open spec fn entry_end(c: Seq<u8>, i: nat) -> nat
    decreases c.len() - i,
{
    if i >= c.len() {
        c.len()
    } else if c[i as int] == 0 {
        i
    } else {
        entry_end(c, i + 1)
    }
}

pub proof fn lemma_entry_end(c: Seq<u8>, i: nat)
    requires
        i <= c.len(),
    ensures
        i <= entry_end(c, i) <= c.len(),
        entry_end(c, i) < c.len() ==> c[entry_end(c, i) as int] == 0,
        forall|j: int| i <= j < entry_end(c, i) ==> #[trigger] c[j] != 0,
    decreases c.len() - i,
{
    if i < c.len() && c[i as int] != 0 {
        lemma_entry_end(c, i + 1);
    }
}

/// Reading the cache's entries from `pos` on: whether `key` is among
/// them, and where the first empty entry is (`insert` if one came
/// before).
pub open spec fn scan(c: Seq<u8>, key: Seq<u8>, pos: nat, insert: Option<nat>) -> (bool, Option<nat>)
    decreases c.len() - pos,
{
    if pos >= c.len() {
        (false, insert)
    } else {
        proof {
            lemma_entry_end(c, pos);
        }
        let e = entry_end(c, pos);
        let entry = c.subrange(pos as int, e as int);
        if entry.len() > 0 && entry == key {
            (true, insert)
        } else {
            let ins = if entry.len() == 0 && insert is None {
                Some(pos)
            } else {
                insert
            };
            let next = if e < c.len() {
                e + 1
            } else {
                e
            };
            if next <= pos {
                (false, ins)
            } else {
                scan(c, key, next, ins)
            }
        }
    }
}

/// Where a new key goes: the first empty entry; else the end, unless the
/// cache is full, then the start; and the start when the key and its two
/// NULs would pass `maxlen` there.
pub open spec fn insert_offset(c: Seq<u8>, key: Seq<u8>, maxlen: nat) -> nat {
    let off = match scan(c, key, 0, None).1 {
        Some(o) => o,
        None => if c.len() >= maxlen {
            0
        } else {
            c.len()
        },
    };
    if off + key.len() + 2 > maxlen {
        0
    } else {
        off
    }
}

/// What the cache decides of a key.
#[derive(Debug, PartialEq, Eq)]
pub enum CacheDecision {
    /// The key is empty: no duplicate, and the cache is not touched.
    Blank,
    /// The key is in the cache.
    Duplicate,
    /// The key is new; the cache is to hold these bytes.
    Insert(Vec<u8>),
}

/// The key as it is looked up: trimmed, as UTF-8 bytes.
pub open spec fn cache_key(key: Seq<char>) -> Seq<u8> {
    encode_utf8(trim(key))
}

/// The bytes a cache holds once a new key is recorded: what came before
/// the key's place, the key, two NULs.
pub open spec fn recorded(c: Seq<u8>, key: Seq<u8>, maxlen: nat) -> Seq<u8> {
    c.take(insert_offset(c, key, maxlen) as int) + key + seq![0u8, 0u8]
}

/// What the cache decides of `key`, given the first `maxlen` bytes it
/// holds.
pub open spec fn decision(key: Seq<char>, c: Seq<u8>, maxlen: nat) -> Option<Option<Seq<u8>>> {
    let k = cache_key(key);
    if k.len() == 0 {
        None
    } else if scan(c, k, 0, None).0 {
        Some(None)
    } else {
        Some(Some(recorded(c, k, maxlen)))
    }
}

pub proof fn lemma_scan_insert(c: Seq<u8>, key: Seq<u8>, pos: nat, insert: Option<nat>)
    requires
        insert matches Some(o) ==> o <= c.len(),
    ensures
        scan(c, key, pos, insert).1 matches Some(o) ==> o <= c.len(),
    decreases c.len() - pos,
{
    if pos < c.len() {
        lemma_entry_end(c, pos);
        let e = entry_end(c, pos);
        let entry = c.subrange(pos as int, e as int);
        if !(entry.len() > 0 && entry == key) {
            let ins = if entry.len() == 0 && insert is None {
                Some(pos)
            } else {
                insert
            };
            let next = if e < c.len() {
                e + 1
            } else {
                e
            };
            if next > pos {
                lemma_scan_insert(c, key, next, ins);
            }
        }
    }
}

/// Look `key` up in the cache contents `contents` (the first `maxlen`
/// bytes of the cache): `Blank` when the trimmed key is empty,
/// `Duplicate` when it is an entry, else the new contents with the key
/// recorded.
pub fn decide(key: &str, contents: &[u8], maxlen: usize) -> (r: CacheDecision)
    ensures
        match decision(key@, contents@, maxlen as nat) {
            None => r == CacheDecision::Blank,
            Some(None) => r == CacheDecision::Duplicate,
            Some(Some(c2)) => r matches CacheDecision::Insert(v) && v@ == c2,
        },
{
    let kc = chars_of(key);
    let (a, b) = trim_bounds(kc.as_slice());
    let ks = string_from(slice_subrange(kc.as_slice(), a, b));
    let k = ks.as_str().as_bytes();
    assert(k@ == cache_key(key@));
    record_key(k, contents, maxlen)
}

/// What the cache decides of the key bytes `k`.
pub open spec fn key_decision(k: Seq<u8>, c: Seq<u8>, maxlen: nat) -> Option<Option<Seq<u8>>> {
    if k.len() == 0 {
        None
    } else if scan(c, k, 0, None).0 {
        Some(None)
    } else {
        Some(Some(recorded(c, k, maxlen)))
    }
}

/// Look the key bytes `k` up in the cache contents: `Blank` when `k` is
/// empty, `Duplicate` when it is an entry, else the new contents with
/// the key recorded.
pub fn record_key(k: &[u8], contents: &[u8], maxlen: usize) -> (r: CacheDecision)
    ensures
        match key_decision(k@, contents@, maxlen as nat) {
            None => r == CacheDecision::Blank,
            Some(None) => r == CacheDecision::Duplicate,
            Some(Some(c2)) => r matches CacheDecision::Insert(v) && v@ == c2,
        },
{
    if k.len() == 0 {
        return CacheDecision::Blank;
    }
    let n = contents.len();
    let mut dup = false;
    let mut insert: Option<usize> = None;
    let mut pos: usize = 0;
    while pos < n
        invariant_except_break
            n == contents@.len(),
            pos <= n,
            !dup,
            scan(contents@, k@, 0, None) == scan(
                contents@,
                k@,
                pos as nat,
                match insert {
                    Some(o) => Some(o as nat),
                    None => None,
                },
            ),
        ensures
            n == contents@.len(),
            scan(contents@, k@, 0, None) == (
                dup,
                match insert {
                    Some(o) => Some(o as nat),
                    None => None,
                },
            ),
        decreases n - pos,
    {
        let start = pos;
        while pos < n && contents[pos] != 0
            invariant
                n == contents@.len(),
                start <= pos <= n,
                entry_end(contents@, start as nat) == entry_end(contents@, pos as nat),
            decreases n - pos,
        {
            pos += 1;
        }
        proof {
            lemma_entry_end(contents@, start as nat);
        }
        let entry = slice_subrange(contents, start, pos);
        let same = entry.len() > 0 && bytes_eq(entry, k);
        if same {
            dup = true;
            break;
        }
        if entry.len() == 0 && insert.is_none() {
            insert = Some(start);
        }
        if pos < n {
            pos += 1;
        }
    }
    if dup {
        return CacheDecision::Duplicate;
    }
    proof {
        lemma_scan_insert(contents@, k@, 0, None);
    }
    let off0 = match insert {
        Some(o) => o,
        None => if n >= maxlen {
            0
        } else {
            n
        },
    };
    let kl = k.len();
    let off = if kl > usize::MAX - 2 || kl + 2 > maxlen || off0 > maxlen - (kl + 2) {
        0
    } else {
        off0
    };
    assert(off == insert_offset(contents@, k@, maxlen as nat));
    let mut out: Vec<u8> = Vec::new();
    out.extend_from_slice(slice_subrange(contents, 0, off));
    out.extend_from_slice(k);
    out.push(0);
    out.push(0);
    assert(out@ =~= recorded(contents@, k@, maxlen as nat));
    CacheDecision::Insert(out)
}

/// Byte strings are equal.
fn bytes_eq(a: &[u8], b: &[u8]) -> (r: bool)
    ensures
        r == (a@ == b@),
{
    if a.len() != b.len() {
        return false;
    }
    let mut i: usize = 0;
    while i < a.len()
        invariant
            a@.len() == b@.len(),
            i <= a@.len(),
            forall|j: int| 0 <= j < i ==> a@[j] == b@[j],
        decreases a@.len() - i,
    {
        if a[i] != b[i] {
            return false;
        }
        i += 1;
    }
    assert(a@ =~= b@);
    true
}

/// Index `i` starts an entry of `c`: the start, or just after a NUL.
pub open spec fn entry_start(c: Seq<u8>, i: nat) -> bool {
    i == 0 || (0 < i <= c.len() && c[i - 1] == 0)
}

pub proof fn lemma_scan_insert_start(c: Seq<u8>, key: Seq<u8>, pos: nat, insert: Option<nat>)
    requires
        entry_start(c, pos),
        insert matches Some(o) ==> entry_start(c, o),
    ensures
        scan(c, key, pos, insert).1 matches Some(o) ==> entry_start(c, o),
    decreases c.len() - pos,
{
    if pos < c.len() {
        lemma_entry_end(c, pos);
        let e = entry_end(c, pos);
        let entry = c.subrange(pos as int, e as int);
        if !(entry.len() > 0 && entry == key) {
            let ins = if entry.len() == 0 && insert is None {
                Some(pos)
            } else {
                insert
            };
            let next = if e < c.len() {
                e + 1
            } else {
                e
            };
            if next > pos {
                if e < c.len() {
                    lemma_scan_insert_start(c, key, next, ins);
                } else {
                    assert(scan(c, key, next, ins) == (false, ins));
                }
            }
        }
    }
}

pub proof fn lemma_scan_finds(c2: Seq<u8>, key: Seq<u8>, off: nat, pos: nat, insert: Option<nat>)
    requires
        key.len() > 0,
        forall|j: int| 0 <= j < key.len() ==> #[trigger] key[j] != 0,
        off + key.len() + 2 <= c2.len(),
        c2.subrange(off as int, off + key.len() as int) == key,
        c2[off + key.len() as int] == 0,
        off == 0 || c2[off - 1] == 0,
        pos <= off,
        entry_start(c2, pos),
    ensures
        scan(c2, key, pos, insert).0,
    decreases off - pos,
{
    lemma_entry_end(c2, pos);
    let e = entry_end(c2, pos);
    if pos == off {
        assert forall|j: int| off <= j < off + key.len() implies #[trigger] c2[j] != 0 by {
            assert(c2.subrange(off as int, off + key.len() as int)[j - off as int] == c2[j]);
        }
        lemma_entry_end_at(c2, off, off + key.len());
        assert(c2.subrange(pos as int, e as int) == key);
    } else {
        assert(c2[off - 1] == 0);
        lemma_entry_end_before(c2, pos, (off - 1) as nat);
        let entry = c2.subrange(pos as int, e as int);
        if !(entry.len() > 0 && entry == key) {
            let ins = if entry.len() == 0 && insert is None {
                Some(pos)
            } else {
                insert
            };
            lemma_scan_finds(c2, key, off, e + 1, ins);
        }
    }
}

pub proof fn lemma_entry_end_at(c: Seq<u8>, i: nat, k: nat)
    requires
        i <= k < c.len(),
        c[k as int] == 0,
        forall|j: int| i <= j < k ==> #[trigger] c[j] != 0,
    ensures
        entry_end(c, i) == k,
    decreases k - i,
{
    if i < k {
        lemma_entry_end_at(c, i + 1, k);
    }
}

pub proof fn lemma_entry_end_before(c: Seq<u8>, i: nat, k: nat)
    requires
        i <= k < c.len(),
        c[k as int] == 0,
    ensures
        entry_end(c, i) <= k,
    decreases k - i,
{
    if i < k && c[i as int] != 0 {
        lemma_entry_end_before(c, i + 1, k);
    }
}

/// What a lookup records, the next lookup finds: when a cache that ends
/// at an entry's end, is empty, or fills `maxlen` bytes (a full cache,
/// whose new key goes to an empty entry or to the start) records a new
/// non-empty key without NULs, and the key with its two NULs fits in
/// `maxlen`, a lookup of the same key in the new contents finds it.
pub proof fn law_recorded_key_is_found(c: Seq<u8>, key: Seq<u8>, maxlen: nat)
    requires
        key.len() > 0,
        forall|j: int| 0 <= j < key.len() ==> #[trigger] key[j] != 0,
        c.len() == 0 || c.last() == 0 || c.len() >= maxlen,
        key.len() + 2 <= maxlen,
    ensures
        recorded(c, key, maxlen).len() <= maxlen,
        scan(recorded(c, key, maxlen), key, 0, None).0,
{
    let off = insert_offset(c, key, maxlen);
    let c2 = recorded(c, key, maxlen);
    lemma_scan_insert(c, key, 0, None);
    lemma_scan_insert_start(c, key, 0, None);
    assert(off <= c.len());
    assert(off == 0 || c[off - 1] == 0);
    assert(c2.subrange(off as int, off + key.len() as int) =~= key);
    assert(c2[off + key.len() as int] == 0);
    assert(off == 0 || c2[off - 1] == 0) by {
        if off > 0 {
            assert(c2[off - 1] == c[off - 1]);
        }
    }
    lemma_scan_finds(c2, key, off, 0, None);
}

/// A key just recorded is found by the next lookup: when a lookup of
/// `key` in the contents `c` (empty, ending at an entry's end, or filling
/// `maxlen` bytes) records it, the new contents fit in `maxlen` and a
/// second lookup of the same key in them reports a duplicate, which
/// leaves the cache as it is.
pub proof fn law_second_lookup_is_duplicate(key: Seq<char>, c: Seq<u8>, maxlen: nat)
    requires
        cache_key(key).len() > 0,
        !cache_key(key).contains(0u8),
        cache_key(key).len() + 2 <= maxlen,
        c.len() == 0 || c.last() == 0 || c.len() >= maxlen,
    ensures
        decision(key, c, maxlen) matches Some(Some(c2)) ==> c2.len() <= maxlen && decision(
            key,
            c2,
            maxlen,
        ) == Some(None::<Seq<u8>>),
{
    let k = cache_key(key);
    assert forall|j: int| 0 <= j < k.len() implies #[trigger] k[j] != 0 by {
        if k[j] == 0 {
            assert(k.contains(0u8));
        }
    }
    law_recorded_key_is_found(c, k, maxlen);
}

/// The same law on key bytes, as `record_key` looks them up.
pub proof fn law_recorded_found(c: Seq<u8>, k: Seq<u8>, maxlen: nat)
    requires
        k.len() > 0,
        !k.contains(0u8),
        k.len() + 2 <= maxlen,
        c.len() == 0 || c.last() == 0 || c.len() >= maxlen,
    ensures
        key_decision(k, c, maxlen) matches Some(Some(c2)) ==> c2.len() <= maxlen && key_decision(
            k,
            c2,
            maxlen,
        ) == Some(None::<Seq<u8>>),
{
    assert forall|j: int| 0 <= j < k.len() implies #[trigger] k[j] != 0 by {
        if k[j] == 0 {
            assert(k.contains(0u8));
        }
    }
    law_recorded_key_is_found(c, k, maxlen);
}

} // verus!
