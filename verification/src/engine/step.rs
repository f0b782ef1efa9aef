//! The loop over an rcfile's items, as decisions between the caller's
//! work: what to do for each item, what a finished step means for the
//! rest, and what setting a variable asks of the process.

use vstd::prelude::*;

use super::{Outcome, rcfile_outcome};
use crate::config::Item;
use crate::text::{chars_eq, chars_of, string_from};

verus! {

/// Where the processing of a list of items stands: the index of the item
/// to process next.
#[derive(Debug, Clone, Copy, PartialEq, Eq, Structural)]
pub struct EngineState {
    /// The item to process next.
    pub next: usize,
}

/// What the caller does for an item.
#[derive(Debug, PartialEq)]
pub enum Step {
    /// Expand the value, set the variable and apply its side effect.
    Assign,
    /// Apply the substitution to the variable.
    Subst,
    /// Evaluate the recipe.
    Recipe,
    /// Process the named rcfile in place (INCLUDERC).
    Include,
    /// Process the named rcfile instead of the rest (SWITCHRC).
    Switch,
    /// Processing of these items ends with this outcome.
    Finish(Outcome),
}

/// What the caller's work for an item came to.
#[derive(Debug, PartialEq)]
pub enum ActionResult {
    /// A variable was set; `abort` when its side effect asks to stop
    /// (a HOST that is not this host).
    Assigned { abort: bool },
    /// A substitution was applied.
    Substituted,
    /// A recipe was evaluated, with this outcome.
    Recipe(Outcome),
    /// An rcfile was processed, with this outcome; `switch` for SWITCHRC.
    Rcfile { outcome: Outcome, switch: bool },
}

/// The step for an item: an empty SWITCHRC ends processing with the
/// default delivery; every other item is the caller's to do.
pub open spec fn step_of(state: EngineState, item: Item) -> (EngineState, Step) {
    match item {
        Item::Assign { .. } => (state, Step::Assign),
        Item::Subst { .. } => (state, Step::Subst),
        Item::Recipe { .. } => (state, Step::Recipe),
        Item::Include { .. } => (state, Step::Include),
        Item::Switch { path, .. } => if path@.len() == 0 {
            (state, Step::Finish(Outcome::Default))
        } else {
            (state, Step::Switch)
        },
    }
}

/// What a finished step means: a HOST mismatch ends processing with the
/// default delivery, a delivering recipe ends it with its delivery, an
/// rcfile ends it as `rcfile_outcome` says; otherwise processing goes on
/// with the next item.
pub open spec fn after_of(state: EngineState, res: ActionResult) -> (EngineState, Option<Outcome>) {
    let next = EngineState { next: (state.next + 1) as usize };
    match res {
        ActionResult::Assigned { abort } => if abort {
            (next, Some(Outcome::Default))
        } else {
            (next, None)
        },
        ActionResult::Substituted => (next, None),
        ActionResult::Recipe(o) => if o is Delivered {
            (next, Some(o))
        } else {
            (next, None)
        },
        ActionResult::Rcfile { outcome, switch } => if switch || outcome is Delivered {
            (next, Some(outcome))
        } else {
            (next, None)
        },
    }
}

/// The step for `item`, the item at `state.next`.
pub fn item_step(state: &EngineState, item: &Item) -> (r: (EngineState, Step))
    ensures
        r == step_of(*state, *item),
{
    match item {
        Item::Assign { .. } => (*state, Step::Assign),
        Item::Subst { .. } => (*state, Step::Subst),
        Item::Recipe { .. } => (*state, Step::Recipe),
        Item::Include { .. } => (*state, Step::Include),
        Item::Switch { path, .. } => {
            let p = chars_of(path.as_str());
            if p.len() == 0 {
                (*state, Step::Finish(Outcome::Default))
            } else {
                (*state, Step::Switch)
            }
        },
    }
}

/// Where processing stands once the caller's work for the item at
/// `state.next` came to `res`, and the outcome when processing ends.
pub fn after_action(state: &EngineState, res: ActionResult) -> (r: (EngineState, Option<Outcome>))
    requires
        state.next < usize::MAX,
    ensures
        r == after_of(*state, res),
{
    let next = EngineState { next: state.next + 1 };
    match res {
        ActionResult::Assigned { abort } => if abort {
            (next, Some(Outcome::Default))
        } else {
            (next, None)
        },
        ActionResult::Substituted => (next, None),
        ActionResult::Recipe(o) => match o {
            Outcome::Delivered(f) => (next, Some(Outcome::Delivered(f))),
            _ => (next, None),
        },
        ActionResult::Rcfile { outcome, switch } => (next, rcfile_outcome(outcome, switch)),
    }
}

/// The outcome once every item is processed: the default delivery.
pub fn items_done(state: &EngineState, count: usize) -> (r: Option<Outcome>)
    ensures
        r == if state.next >= count {
            Some(Outcome::Default)
        } else {
            None
        },
{
    if state.next >= count {
        Some(Outcome::Default)
    } else {
        None
    }
}

/// What setting a variable asks of the process beyond storing it.
#[derive(Debug, PartialEq)]
pub enum SideEffect {
    /// Nothing more.
    Nothing,
    /// VERBOSE: verbosity follows the truth of this value.
    Verbose(String),
    /// UMASK with an octal value: set the file creation mask.
    Umask(u32),
    /// MAILDIR: change to this directory (and store the directory the
    /// process is in when that fails).
    ChangeDir(String),
    /// EXITCODE: it has been set.
    ExitCodeSet,
    /// SHIFT: drop this many arguments (the value's number, read as the
    /// environment reads numbers, goes through `shift_count`).
    Shift(String),
    /// HOST: store this host's name back; `abort` when the value names
    /// another host.
    Host { abort: bool },
    /// LINEBUF: its number, read with its default, is raised to the least
    /// buffer size.
    Linebuf(String),
    /// LOCKFILE: take this global lock (releasing any other).
    GlobalLock(String),
    /// LOG: write this text to the log.
    Log(String),
    /// LOGFILE: log to this file from now on.
    LogFile(String),
}

/// An octal number as `u32::from_str_radix(_, 8)` reads it: digits `0` to
/// `7`, at least one, after an optional `+`.
pub open spec fn octal_digits(s: Seq<char>) -> bool {
    s.len() > 0 && forall|i: int| 0 <= i < s.len() ==> '0' <= #[trigger] s[i] <= '7'
}

/// The value of octal digits.
pub open spec fn octal_value(s: Seq<char>) -> nat
    decreases s.len(),
{
    if s.len() == 0 {
        0
    } else {
        octal_value(s.drop_last()) * 8 + (s.last() as nat - '0' as nat) as nat
    }
}

/// The octal `u32` that a text reads as, if it reads as one.
pub open spec fn octal_of(v: Seq<char>) -> Option<u32> {
    let d = if v.len() > 0 && v[0] == '+' {
        v.skip(1)
    } else {
        v
    };
    if octal_digits(d) && octal_value(d) <= u32::MAX {
        Some(octal_value(d) as u32)
    } else {
        None
    }
}

/// Model of a side effect.
pub enum EffectModel {
    Nothing,
    Verbose(Seq<char>),
    Umask(u32),
    ChangeDir(Seq<char>),
    ExitCodeSet,
    Shift(Seq<char>),
    Host { abort: bool },
    Linebuf(Seq<char>),
    GlobalLock(Seq<char>),
    Log(Seq<char>),
    LogFile(Seq<char>),
}

impl View for SideEffect {
    type V = EffectModel;

    open spec fn view(&self) -> EffectModel {
        match self {
            SideEffect::Nothing => EffectModel::Nothing,
            SideEffect::Verbose(s) => EffectModel::Verbose(s@),
            SideEffect::Umask(m) => EffectModel::Umask(*m),
            SideEffect::ChangeDir(s) => EffectModel::ChangeDir(s@),
            SideEffect::ExitCodeSet => EffectModel::ExitCodeSet,
            SideEffect::Shift(s) => EffectModel::Shift(s@),
            SideEffect::Host { abort } => EffectModel::Host { abort: *abort },
            SideEffect::Linebuf(s) => EffectModel::Linebuf(s@),
            SideEffect::GlobalLock(s) => EffectModel::GlobalLock(s@),
            SideEffect::Log(s) => EffectModel::Log(s@),
            SideEffect::LogFile(s) => EffectModel::LogFile(s@),
        }
    }
}

/// What setting variable `name` to `value` asks, `host` being this
/// machine's name.
pub open spec fn side_effect_of(name: Seq<char>, value: Seq<char>, host: Seq<char>) -> EffectModel {
    if name == "VERBOSE"@ {
        EffectModel::Verbose(value)
    } else if name == "UMASK"@ {
        match octal_of(value) {
            Some(m) => EffectModel::Umask(m),
            None => EffectModel::Nothing,
        }
    } else if name == "MAILDIR"@ {
        EffectModel::ChangeDir(value)
    } else if name == "EXITCODE"@ {
        EffectModel::ExitCodeSet
    } else if name == "SHIFT"@ {
        EffectModel::Shift(value)
    } else if name == "HOST"@ {
        EffectModel::Host { abort: value != host }
    } else if name == "LINEBUF"@ {
        EffectModel::Linebuf(value)
    } else if name == "LOCKFILE"@ {
        EffectModel::GlobalLock(value)
    } else if name == "LOG"@ {
        EffectModel::Log(value)
    } else if name == "LOGFILE"@ {
        EffectModel::LogFile(value)
    } else {
        EffectModel::Nothing
    }
}

/// Whether `name` holds the characters of `lit`.
fn named(name: &[char], lit: &str) -> (b: bool)
    ensures
        b == (name@ == lit@),
{
    let l = chars_of(lit);
    chars_eq(name, l.as_slice())
}

/// Read an octal `u32` (`u32::from_str_radix(_, 8)`).
fn octal(v: &[char]) -> (r: Option<u32>)
    ensures
        r == octal_of(v@),
{
    let n = v.len();
    let start: usize = if n > 0 && v[0] == '+' {
        1
    } else {
        0
    };
    let ghost d = if v@.len() > 0 && v@[0] == '+' {
        v@.skip(1)
    } else {
        v@
    };
    assert(d =~= v@.skip(start as int));
    if start >= n {
        return None;
    }
    let mut acc: u64 = 0;
    let mut i: usize = start;
    while i < n
        invariant
            start <= i <= n,
            n == v@.len(),
            d =~= v@.skip(start as int),
            d == (if v@.len() > 0 && v@[0] == '+' {
                v@.skip(1)
            } else {
                v@
            }),
            acc == octal_value(d.take(i - start)),
            acc <= u32::MAX,
            forall|j: int| 0 <= j < i - start ==> '0' <= #[trigger] d[j] <= '7',
        decreases n - i,
    {
        let c = v[i];
        if c < '0' || c > '7' {
            assert(!octal_digits(d)) by {
                assert(d[i - start] == c);
            }
            assert(octal_of(v@) is None);
            return None;
        }
        let digit = (c as u32 - '0' as u32) as u64;
        let ghost t = d.take((i + 1 - start) as int);
        assert(t.drop_last() =~= d.take(i - start));
        assert(t.last() == c);
        let next = acc * 8 + digit;
        assert(next == octal_value(t));
        if next > u32::MAX as u64 {
            proof {
                if octal_digits(d) {
                    lemma_octal_prefix_le(d, (i + 1 - start) as nat);
                }
            }
            assert(octal_of(v@) is None);
            return None;
        }
        acc = next;
        i += 1;
    }
    assert(d.take(n - start) =~= d);
    Some(acc as u32)
}

/// A longer run of octal digits is worth no less than its prefix.
proof fn lemma_octal_prefix_le(d: Seq<char>, k: nat)
    requires
        k <= d.len(),
        octal_digits(d),
    ensures
        octal_value(d.take(k as int)) <= octal_value(d),
    decreases d.len() - k,
{
    if k < d.len() {
        lemma_octal_prefix_le(d, k + 1);
        let t = d.take((k + 1) as int);
        assert(t.drop_last() =~= d.take(k as int));
        assert('0' <= t.last());
    } else {
        assert(d.take(k as int) =~= d);
    }
}

/// What setting variable `name` to `value` asks of the process, `host`
/// being this machine's name.
pub fn side_effect(name: &str, value: &str, host: &str) -> (r: SideEffect)
    ensures
        r@ == side_effect_of(name@, value@, host@),
{
    let n = chars_of(name);
    let ns = n.as_slice();
    let val = string_from(chars_of(value).as_slice());
    if named(ns, "VERBOSE") {
        SideEffect::Verbose(val)
    } else if named(ns, "UMASK") {
        let v = chars_of(value);
        match octal(v.as_slice()) {
            Some(m) => SideEffect::Umask(m),
            None => SideEffect::Nothing,
        }
    } else if named(ns, "MAILDIR") {
        SideEffect::ChangeDir(val)
    } else if named(ns, "EXITCODE") {
        SideEffect::ExitCodeSet
    } else if named(ns, "SHIFT") {
        SideEffect::Shift(val)
    } else if named(ns, "HOST") {
        let v = chars_of(value);
        let h = chars_of(host);
        SideEffect::Host { abort: !chars_eq(v.as_slice(), h.as_slice()) }
    } else if named(ns, "LINEBUF") {
        SideEffect::Linebuf(val)
    } else if named(ns, "LOCKFILE") {
        SideEffect::GlobalLock(val)
    } else if named(ns, "LOG") {
        SideEffect::Log(val)
    } else if named(ns, "LOGFILE") {
        SideEffect::LogFile(val)
    } else {
        SideEffect::Nothing
    }
}

/// How many arguments SHIFT drops: its number, at least 0 and at most the
/// number of arguments there are.
pub fn shift_count(n: i64, argc: usize) -> (r: usize)
    ensures
        r as int == if n <= 0 {
            0
        } else if n >= argc {
            argc as int
        } else {
            n as int
        },
{
    if n <= 0 {
        0
    } else if (n as u64) >= (argc as u64) {
        argc
    } else {
        n as usize
    }
}

} // verus!
