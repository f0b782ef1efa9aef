//! Per-folder message and byte counts, kept sorted by folder name.

use vstd::prelude::*;

use crate::text::chars_of;

verus! {

/// Messages and bytes delivered to one folder.
#[derive(Clone, Copy, Debug, Default, PartialEq, Eq, Structural)]
pub struct Stats {
    /// Number of messages.
    pub msgs: u64,
    /// Number of bytes.
    pub bytes: u64,
}

impl Stats {
    /// Count one more message of `bytes` bytes.
    pub fn add(&mut self, bytes: u64)
        requires
            old(self).msgs < u64::MAX,
            old(self).bytes + bytes <= u64::MAX,
        ensures
            final(self).msgs == old(self).msgs + 1,
            final(self).bytes == old(self).bytes + bytes,
    {
        self.msgs = self.msgs + 1;
        self.bytes = self.bytes + bytes;
    }
}

/// Strict lexicographic order of texts (the order of `str`).
pub open spec fn lex_lt(a: Seq<char>, b: Seq<char>) -> bool
    decreases a.len(),
{
    if a.len() == 0 {
        b.len() > 0
    } else if b.len() == 0 {
        false
    } else if a[0] < b[0] {
        true
    } else if a[0] > b[0] {
        false
    } else {
        lex_lt(a.drop_first(), b.drop_first())
    }
}

pub proof fn lemma_lex_trans(a: Seq<char>, b: Seq<char>, c: Seq<char>)
    requires
        lex_lt(a, b),
        lex_lt(b, c),
    ensures
        lex_lt(a, c),
    decreases a.len(),
{
    if a.len() > 0 && b.len() > 0 && c.len() > 0 && a[0] == b[0] && b[0] == c[0] {
        lemma_lex_trans(a.drop_first(), b.drop_first(), c.drop_first());
    }
}

pub proof fn lemma_lex_irrefl(a: Seq<char>)
    ensures
        !lex_lt(a, a),
    decreases a.len(),
{
    if a.len() > 0 {
        lemma_lex_irrefl(a.drop_first());
    }
}

pub proof fn lemma_lex_total(a: Seq<char>, b: Seq<char>)
    ensures
        a == b || lex_lt(a, b) || lex_lt(b, a),
    decreases a.len(),
{
    if a.len() > 0 && b.len() > 0 && a[0] == b[0] {
        lemma_lex_total(a.drop_first(), b.drop_first());
        if a.drop_first() == b.drop_first() {
            assert(a =~= seq![a[0]] + a.drop_first());
            assert(b =~= seq![b[0]] + b.drop_first());
        }
    } else if a.len() == 0 && b.len() == 0 {
        assert(a =~= b);
    }
}

/// Compare two texts: less, equal or greater, as -1, 0, 1.
fn compare_text(a: &[char], b: &[char]) -> (r: i8)
    ensures
        r == -1 <==> lex_lt(a@, b@),
        r == 0 <==> a@ == b@,
        r == 1 <==> lex_lt(b@, a@),
        r == -1 || r == 0 || r == 1,
{
    let mut i: usize = 0;
    assert(a@.take(0) =~= b@.take(0));
    assert(a@.skip(0) =~= a@);
    assert(b@.skip(0) =~= b@);
    while i < a.len() && i < b.len()
        invariant
            i <= a@.len(),
            i <= b@.len(),
            a@.take(i as int) == b@.take(i as int),
            lex_lt(a@, b@) == lex_lt(a@.skip(i as int), b@.skip(i as int)),
            lex_lt(b@, a@) == lex_lt(b@.skip(i as int), a@.skip(i as int)),
        decreases a@.len() - i,
    {
        let x = a[i];
        let y = b[i];
        assert(a@.skip(i as int)[0] == x && b@.skip(i as int)[0] == y);
        if x < y {
            return -1;
        }
        if x > y {
            return 1;
        }
        assert(a@.skip(i as int).drop_first() =~= a@.skip(i + 1));
        assert(b@.skip(i as int).drop_first() =~= b@.skip(i + 1));
        assert(a@.take(i + 1) =~= a@.take(i as int).push(x));
        assert(b@.take(i + 1) =~= b@.take(i as int).push(y));
        i += 1;
    }
    proof {
        lemma_lex_irrefl(a@);
        lemma_lex_total(a@, b@);
    }
    if a.len() == b.len() {
        assert(a@ =~= a@.take(i as int));
        assert(b@ =~= b@.take(i as int));
        0
    } else if a.len() < b.len() {
        assert(a@.skip(i as int).len() == 0);
        assert(a@ != b@);
        -1
    } else {
        assert(b@.skip(i as int).len() == 0);
        1
    }
}

/// A folder's counts as numbers.
pub open spec fn stats_view(s: Stats) -> (int, int) {
    (s.msgs as int, s.bytes as int)
}

/// The model of the counts: folder names with their message and byte
/// counts, in order.
pub open spec fn entries_view(v: Seq<(String, Stats)>) -> Seq<(Seq<char>, (int, int))> {
    v.map_values(|e: (String, Stats)| (e.0@, stats_view(e.1)))
}

/// The counts with one more message of `bytes` bytes for `key`: its
/// entry updated, or a new entry put where the order puts it.
pub open spec fn add_entry(s: Seq<(Seq<char>, (int, int))>, key: Seq<char>, bytes: int) -> Seq<(Seq<char>, (int, int))>
    decreases s.len(),
{
    if s.len() == 0 {
        seq![(key, (1int, bytes))]
    } else if s[0].0 == key {
        s.update(0, (key, (s[0].1.0 + 1, s[0].1.1 + bytes)))
    } else if lex_lt(key, s[0].0) {
        seq![(key, (1int, bytes))] + s
    } else {
        seq![s[0]] + add_entry(s.drop_first(), key, bytes)
    }
}

/// The counts of `key` after adding fit in `u64`.
pub open spec fn add_fits(s: Seq<(Seq<char>, (int, int))>, key: Seq<char>, bytes: int) -> bool {
    forall|i: int|
        0 <= i < s.len() && #[trigger] s[i].0 == key ==> s[i].1.0 < u64::MAX && s[i].1.1 + bytes <= u64::MAX
}

/// Names strictly ascending.
pub open spec fn sorted_names(s: Seq<(Seq<char>, (int, int))>) -> bool {
    forall|i: int| 0 <= i < s.len() - 1 ==> lex_lt(#[trigger] s[i].0, s[i + 1].0)
}

/// The counts of `key`, if it has an entry.
pub open spec fn lookup(s: Seq<(Seq<char>, (int, int))>, key: Seq<char>) -> Option<(int, int)>
    decreases s.len(),
{
    if s.len() == 0 {
        None
    } else if s[0].0 == key {
        Some(s[0].1)
    } else {
        lookup(s.drop_first(), key)
    }
}

/// Per-folder counts, sorted by folder name, each name once.
#[derive(Debug)]
pub struct Totals {
    entries: Vec<(String, Stats)>,
}

impl View for Totals {
    type V = Seq<(Seq<char>, (int, int))>;

    closed spec fn view(&self) -> Seq<(Seq<char>, (int, int))> {
        entries_view(self.entries@)
    }
}

pub proof fn lemma_add_entry_first(s: Seq<(Seq<char>, (int, int))>, key: Seq<char>, bytes: int)
    requires
        s.len() > 0,
        lex_lt(s[0].0, key),
    ensures
        add_entry(s.drop_first(), key, bytes).len() > 0,
        add_entry(s.drop_first(), key, bytes)[0].0 == key || (s.len() > 1 && add_entry(s.drop_first(), key, bytes)[0].0 == s[1].0),
{
    let t = s.drop_first();
    if t.len() > 0 {
        assert(t[0] == s[1]);
    }
}

pub proof fn lemma_add_entry_sorted(s: Seq<(Seq<char>, (int, int))>, key: Seq<char>, bytes: int)
    requires
        sorted_names(s),
    ensures
        sorted_names(add_entry(s, key, bytes)),
        add_entry(s, key, bytes).len() > 0,
        add_entry(s, key, bytes)[0].0 == key || (s.len() > 0 && add_entry(s, key, bytes)[0].0 == s[0].0),
    decreases s.len(),
{
    let r = add_entry(s, key, bytes);
    if s.len() == 0 {
    } else if s[0].0 == key {
        assert forall|i: int| 0 <= i < r.len() - 1 implies lex_lt(#[trigger] r[i].0, r[i + 1].0) by {
            assert(s[i].0 == r[i].0 && s[i + 1].0 == r[i + 1].0);
        }
    } else if lex_lt(key, s[0].0) {
        assert forall|i: int| 0 <= i < r.len() - 1 implies lex_lt(#[trigger] r[i].0, r[i + 1].0) by {
            if i > 0 {
                assert(r[i] == s[i - 1] && r[i + 1] == s[i]);
            }
        }
    } else {
        let t = s.drop_first();
        assert(sorted_names(t)) by {
            assert forall|i: int| 0 <= i < t.len() - 1 implies lex_lt(#[trigger] t[i].0, t[i + 1].0) by {
                assert(t[i] == s[i + 1] && t[i + 1] == s[i + 2]);
            }
        }
        lemma_add_entry_sorted(t, key, bytes);
        lemma_lex_total(key, s[0].0);
        let rt = add_entry(t, key, bytes);
        assert(r =~= seq![s[0]] + rt);
        assert forall|i: int| 0 <= i < r.len() - 1 implies lex_lt(#[trigger] r[i].0, r[i + 1].0) by {
            if i == 0 {
                if rt[0].0 != key {
                    assert(t[0] == s[1]);
                }
            } else {
                assert(r[i] == rt[i - 1] && r[i + 1] == rt[i]);
            }
        }
    }
}

pub proof fn lemma_add_step(s: Seq<(Seq<char>, (int, int))>, key: Seq<char>, bytes: int, i: int)
    requires
        0 <= i < s.len(),
        s[i].0 != key,
        !lex_lt(key, s[i].0),
    ensures
        s.take(i) + add_entry(s.skip(i), key, bytes) == s.take(i + 1) + add_entry(s.skip(i + 1), key, bytes),
{
    let t = s.skip(i);
    assert(t[0] == s[i]);
    assert(add_entry(t, key, bytes) == seq![t[0]] + add_entry(t.drop_first(), key, bytes));
    assert(t.drop_first() =~= s.skip(i + 1));
    assert(s.take(i + 1) =~= s.take(i) + seq![t[0]]);
    assert(s.take(i) + (seq![t[0]] + add_entry(s.skip(i + 1), key, bytes)) =~= s.take(i + 1) + add_entry(s.skip(i + 1), key, bytes));
}


/// The counts with `key`'s entry set to `v`: replaced, or put where the
/// order puts it.
pub open spec fn insert_entry(s: Seq<(Seq<char>, (int, int))>, key: Seq<char>, v: (int, int)) -> Seq<(Seq<char>, (int, int))>
    decreases s.len(),
{
    if s.len() == 0 {
        seq![(key, v)]
    } else if s[0].0 == key {
        s.update(0, (key, v))
    } else if lex_lt(key, s[0].0) {
        seq![(key, v)] + s
    } else {
        seq![s[0]] + insert_entry(s.drop_first(), key, v)
    }
}

pub proof fn lemma_insert_entry_sorted(s: Seq<(Seq<char>, (int, int))>, key: Seq<char>, v: (int, int))
    requires
        sorted_names(s),
    ensures
        sorted_names(insert_entry(s, key, v)),
        insert_entry(s, key, v).len() > 0,
        insert_entry(s, key, v)[0].0 == key || (s.len() > 0 && insert_entry(s, key, v)[0].0 == s[0].0),
    decreases s.len(),
{
    let r = insert_entry(s, key, v);
    if s.len() == 0 {
    } else if s[0].0 == key {
        assert forall|i: int| 0 <= i < r.len() - 1 implies lex_lt(#[trigger] r[i].0, r[i + 1].0) by {
            assert(s[i].0 == r[i].0 && s[i + 1].0 == r[i + 1].0);
        }
    } else if lex_lt(key, s[0].0) {
        assert forall|i: int| 0 <= i < r.len() - 1 implies lex_lt(#[trigger] r[i].0, r[i + 1].0) by {
            if i > 0 {
                assert(r[i] == s[i - 1] && r[i + 1] == s[i]);
            }
        }
    } else {
        let t = s.drop_first();
        assert(sorted_names(t)) by {
            assert forall|i: int| 0 <= i < t.len() - 1 implies lex_lt(#[trigger] t[i].0, t[i + 1].0) by {
                assert(t[i] == s[i + 1] && t[i + 1] == s[i + 2]);
            }
        }
        lemma_insert_entry_sorted(t, key, v);
        lemma_lex_total(key, s[0].0);
        let rt = insert_entry(t, key, v);
        assert(r =~= seq![s[0]] + rt);
        assert forall|i: int| 0 <= i < r.len() - 1 implies lex_lt(#[trigger] r[i].0, r[i + 1].0) by {
            if i == 0 {
                if rt[0].0 != key {
                    assert(t[0] == s[1]);
                }
            } else {
                assert(r[i] == rt[i - 1] && r[i + 1] == rt[i]);
            }
        }
    }
}

pub proof fn lemma_insert_step(s: Seq<(Seq<char>, (int, int))>, key: Seq<char>, v: (int, int), i: int)
    requires
        0 <= i < s.len(),
        s[i].0 != key,
        !lex_lt(key, s[i].0),
    ensures
        s.take(i) + insert_entry(s.skip(i), key, v) == s.take(i + 1) + insert_entry(s.skip(i + 1), key, v),
{
    let t = s.skip(i);
    assert(t[0] == s[i]);
    assert(insert_entry(t, key, v) == seq![t[0]] + insert_entry(t.drop_first(), key, v));
    assert(t.drop_first() =~= s.skip(i + 1));
    assert(s.take(i + 1) =~= s.take(i) + seq![t[0]]);
    assert(s.take(i) + (seq![t[0]] + insert_entry(s.skip(i + 1), key, v)) =~= s.take(i + 1) + insert_entry(s.skip(i + 1), key, v));
}

impl Totals {
    /// The names are strictly ascending.
    pub open spec fn wf(&self) -> bool {
        sorted_names(self@)
    }

    proof fn lemma_view(&self)
        ensures
            self@.len() == self.entries@.len(),
            forall|i: int| 0 <= i < self@.len() ==> #[trigger] self@[i] == (self.entries@[i].0@, stats_view(self.entries@[i].1)),
    {
    }

    /// No folders.
    pub fn new() -> (r: Totals)
        ensures
            r@ == Seq::<(Seq<char>, (int, int))>::empty(),
            r.wf(),
    {
        let r = Totals { entries: Vec::new() };
        assert(r@ =~= Seq::<(Seq<char>, (int, int))>::empty());
        r
    }

    /// Number of folders.
    pub fn len(&self) -> (r: usize)
        ensures
            r == self@.len(),
    {
        self.entries.len()
    }

    /// Whether there are no folders.
    pub fn is_empty(&self) -> (b: bool)
        ensures
            b == (self@.len() == 0),
    {
        self.entries.len() == 0
    }

    /// The folder names and their counts, as they are held.
    pub closed spec fn spec_entries(&self) -> Seq<(String, Stats)> {
        self.entries@
    }

    /// The folder names and their counts, in order.
    pub fn entries(&self) -> (r: &[(String, Stats)])
        ensures
            entries_view(r@) == self@,
            r@ == self.spec_entries(),
    {
        self.entries.as_slice()
    }

    /// The counts of a folder.
    pub fn get(&self, key: &str) -> (r: Option<Stats>)
        ensures
            match r {
                Some(s) => lookup(self@, key@) == Some(stats_view(s)),
                None => lookup(self@, key@) is None,
            },
    {
        let k = key.to_string();
        let mut i: usize = 0;
        assert(self@.skip(0) =~= self@);
        while i < self.entries.len()
            invariant
                i <= self@.len(),
                k@ == key@,
                lookup(self@, key@) == lookup(self@.skip(i as int), key@),
            decreases self@.len() - i,
        {
            proof {
                self.lemma_view();
            }
            assert(self@.skip(i as int)[0] == self@[i as int]);
            if self.entries[i].0 == k {
                return Some(self.entries[i].1);
            }
            assert(self@.skip(i as int).drop_first() =~= self@.skip(i + 1));
            i += 1;
        }
        None
    }

    /// Whether a folder has counts.
    pub fn contains_key(&self, key: &str) -> (b: bool)
        ensures
            b == (lookup(self@, key@) is Some),
    {
        self.get(key).is_some()
    }

    /// Count one more message of `bytes` bytes for folder `key`.
    pub fn add(&mut self, key: String, bytes: u64)
        requires
            old(self).wf(),
            add_fits(old(self)@, key@, bytes as int),
        ensures
            final(self)@ == add_entry(old(self)@, key@, bytes as int),
            final(self).wf(),
    {
        let ghost s0 = self@;
        proof {
            lemma_add_entry_sorted(s0, key@, bytes as int);
            assert(s0.skip(0) =~= s0);
            assert(s0.take(0) + add_entry(s0, key@, bytes as int) =~= add_entry(s0, key@, bytes as int));
        }
        let kc = chars_of(key.as_str());
        let n = self.entries.len();
        let mut i: usize = 0;
        while i < n
            invariant
                n == self.entries@.len(),
                i <= n,
                self@ == s0,
                s0 == old(self)@,
                sorted_names(add_entry(s0, key@, bytes as int)),
                kc@ == key@,
                sorted_names(s0),
                add_entry(s0, key@, bytes as int) == s0.take(i as int) + add_entry(s0.skip(i as int), key@, bytes as int),
                add_fits(s0, key@, bytes as int),
            decreases n - i,
        {
            proof {
                self.lemma_view();
            }
            let ec = chars_of(self.entries[i].0.as_str());
            let c = compare_text(kc.as_slice(), ec.as_slice());
            let ghost t = s0.skip(i as int);
            assert(t[0] == s0[i as int]);
            if c == 0 {
                assert(s0[i as int].1.0 < u64::MAX && s0[i as int].1.1 + bytes <= u64::MAX);
                let mut st = self.entries[i].1;
                st.add(bytes);
                let name = self.entries[i].0.clone();
                self.entries.set(i, (name, st));
                assert(self@ =~= s0.take(i as int) + add_entry(t, key@, bytes as int));
                return;
            }
            if c == -1 {
                assert(add_entry(t, key@, bytes as int) == seq![(key@, (1int, bytes as int))] + t);
                self.entries.insert(i, (key, Stats { msgs: 1, bytes }));
                assert(self@ =~= s0.take(i as int) + add_entry(t, key@, bytes as int));
                return;
            }
            proof {
                lemma_lex_irrefl(key@);
                if lex_lt(key@, s0[i as int].0) {
                    lemma_lex_trans(key@, s0[i as int].0, key@);
                }
                lemma_add_step(s0, key@, bytes as int, i as int);
            }
            i += 1;
        }
        self.entries.push((key, Stats { msgs: 1, bytes }));
        assert(s0.skip(n as int) =~= Seq::<(Seq<char>, (int, int))>::empty());
        assert(s0.take(n as int) =~= s0);
        assert(self@ =~= add_entry(s0, key@, bytes as int));
    }

    /// Set the counts of folder `key` (`BTreeMap::insert`).
    pub fn insert(&mut self, key: String, stats: Stats)
        requires
            old(self).wf(),
        ensures
            final(self)@ == insert_entry(old(self)@, key@, stats_view(stats)),
            final(self).wf(),
    {
        let ghost s0 = self@;
        let ghost v = stats_view(stats);
        proof {
            lemma_insert_entry_sorted(s0, key@, v);
            assert(s0.skip(0) =~= s0);
            assert(s0.take(0) + insert_entry(s0, key@, v) =~= insert_entry(s0, key@, v));
        }
        let kc = chars_of(key.as_str());
        let n = self.entries.len();
        let mut i: usize = 0;
        while i < n
            invariant
                n == self.entries@.len(),
                i <= n,
                self@ == s0,
                s0 == old(self)@,
                v == stats_view(stats),
                sorted_names(insert_entry(s0, key@, v)),
                kc@ == key@,
                sorted_names(s0),
                insert_entry(s0, key@, v) == s0.take(i as int) + insert_entry(s0.skip(i as int), key@, v),
            decreases n - i,
        {
            proof {
                self.lemma_view();
            }
            let ec = chars_of(self.entries[i].0.as_str());
            let c = compare_text(kc.as_slice(), ec.as_slice());
            let ghost t = s0.skip(i as int);
            assert(t[0] == s0[i as int]);
            if c == 0 {
                let name = self.entries[i].0.clone();
                self.entries.set(i, (name, stats));
                assert(self@ =~= s0.take(i as int) + insert_entry(t, key@, v));
                return;
            }
            if c == -1 {
                assert(insert_entry(t, key@, v) == seq![(key@, v)] + t);
                self.entries.insert(i, (key, stats));
                assert(self@ =~= s0.take(i as int) + insert_entry(t, key@, v));
                return;
            }
            proof {
                lemma_lex_irrefl(key@);
                if lex_lt(key@, s0[i as int].0) {
                    lemma_lex_trans(key@, s0[i as int].0, key@);
                }
                lemma_insert_step(s0, key@, v, i as int);
            }
            i += 1;
        }
        self.entries.push((key, stats));
        assert(s0.skip(n as int) =~= Seq::<(Seq<char>, (int, int))>::empty());
        assert(s0.take(n as int) =~= s0);
        assert(self@ =~= insert_entry(s0, key@, v));
    }

    /// Keep the folders that `keep` says to keep: `keep@[i]` for the
    /// folder at `i`.
    pub fn retain_by(self, keep: &Vec<bool>) -> (r: Totals)
        requires
            self.wf(),
            keep@.len() == self@.len(),
        ensures
            r@ == kept_entries(self@, keep@),
            r.wf(),
    {
        let ghost s0 = self@;
        let mut out: Vec<(String, Stats)> = Vec::new();
        let mut entries = self.entries;
        let n = entries.len();
        let mut i: usize = 0;
        while i < n
            invariant
                n == entries@.len(),
                i <= n,
                entries_view(entries@) == s0,
                keep@.len() == n,
                entries_view(out@) == kept_entries(s0.take(i as int), keep@.take(i as int)),
            decreases n - i,
        {
            assert(s0.take(i + 1).drop_last() =~= s0.take(i as int));
            assert(keep@.take(i + 1).drop_last() =~= keep@.take(i as int));
            if keep[i] {
                let e = (entries[i].0.clone(), entries[i].1);
                out.push(e);
                assert(entries_view(out@) =~= kept_entries(s0.take(i as int), keep@.take(i as int)).push(s0[i as int]));
            }
            i += 1;
        }
        assert(s0.take(n as int) =~= s0);
        assert(keep@.take(n as int) =~= keep@);
        proof {
            lemma_kept_sorted(s0, keep@);
        }
        Totals { entries: out }
    }
}

/// The entries of `s` whose flag in `k` is set, in order.
pub open spec fn kept_entries(s: Seq<(Seq<char>, (int, int))>, k: Seq<bool>) -> Seq<(Seq<char>, (int, int))>
    decreases s.len(),
{
    if s.len() == 0 || k.len() != s.len() {
        Seq::empty()
    } else if k.last() {
        kept_entries(s.drop_last(), k.drop_last()).push(s.last())
    } else {
        kept_entries(s.drop_last(), k.drop_last())
    }
}

pub proof fn lemma_kept_sorted(s: Seq<(Seq<char>, (int, int))>, k: Seq<bool>)
    requires
        sorted_names(s),
        k.len() == s.len(),
    ensures
        sorted_names(kept_entries(s, k)),
        forall|j: int| 0 <= j < kept_entries(s, k).len() ==> exists|i: int| 0 <= i < s.len() && #[trigger] kept_entries(s, k)[j] == s[i],
        kept_entries(s, k).len() > 0 ==> exists|i: int| 0 <= i < s.len() && kept_entries(s, k).last() == s[i] && (forall|m: int| i < m < s.len() ==> !k[m]),
    decreases s.len(),
{
    if s.len() > 0 {
        let s1 = s.drop_last();
        let k1 = k.drop_last();
        assert(sorted_names(s1)) by {
            assert forall|i: int| 0 <= i < s1.len() - 1 implies lex_lt(#[trigger] s1[i].0, s1[i + 1].0) by {
                assert(s1[i] == s[i] && s1[i + 1] == s[i + 1]);
            }
        }
        lemma_kept_sorted(s1, k1);
        let r1 = kept_entries(s1, k1);
        if k.last() {
            let r = r1.push(s.last());
            assert forall|i: int| 0 <= i < r.len() - 1 implies lex_lt(#[trigger] r[i].0, r[i + 1].0) by {
                if i == r.len() - 2 {
                    let w = choose|w: int| 0 <= w < s1.len() && r1.last() == s1[w] && (forall|m: int| w < m < s1.len() ==> !k1[m]);
                    lemma_sorted_lt(s, w, s.len() - 1);
                } else {
                    assert(r[i] == r1[i] && r[i + 1] == r1[i + 1]);
                }
            }
            assert forall|j: int| 0 <= j < r.len() implies exists|i: int| 0 <= i < s.len() && #[trigger] r[j] == s[i] by {
                if j < r1.len() {
                    let i = choose|i: int| 0 <= i < s1.len() && r1[j] == s1[i];
                    assert(r[j] == s[i]);
                } else {
                    assert(r[j] == s[s.len() - 1]);
                }
            }
        } else {
            assert forall|j: int| 0 <= j < r1.len() implies exists|i: int| 0 <= i < s.len() && #[trigger] r1[j] == s[i] by {
                let i = choose|i: int| 0 <= i < s1.len() && r1[j] == s1[i];
                assert(r1[j] == s[i]);
            }
            if r1.len() > 0 {
                let w = choose|w: int| 0 <= w < s1.len() && r1.last() == s1[w] && (forall|m: int| w < m < s1.len() ==> !k1[m]);
                assert(r1.last() == s[w]);
                assert forall|m: int| w < m < s.len() implies !k[m] by {
                    if m < s1.len() {
                        assert(k1[m] == k[m]);
                    }
                }
            }
        }
    }
}

pub proof fn lemma_sorted_lt(s: Seq<(Seq<char>, (int, int))>, i: int, j: int)
    requires
        sorted_names(s),
        0 <= i < j < s.len(),
    ensures
        lex_lt(s[i].0, s[j].0),
    decreases j - i,
{
    if j > i + 1 {
        lemma_sorted_lt(s, i, j - 1);
        lemma_lex_trans(s[i].0, s[j - 1].0, s[j].0);
    }
}

} // verus!
