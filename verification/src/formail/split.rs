//! Splitting a mailbox or digest into its messages, line by line.

use vstd::prelude::*;
use vstd::slice::slice_subrange;
use vstd::utf8::{decode_utf8, valid_utf8};

use crate::field::{
    eq_ignore_case, from_prefix, is_name_byte, lower, lower_byte, name_run, starts_with,
    starts_with_from, COLON, NL, SP, TAB,
};
use crate::num::{parse_unsigned, parse_unsigned_chars};
use crate::text::{chars_of, str_from_utf8, trim, trim_bounds};

verus! {

/// A line that can start a header: a `From ` line, or a name of name
/// bytes (at least one) ended by a colon.
pub open spec fn header_field_line(line: Seq<u8>) -> bool {
    starts_with(line, from_prefix()) || {
        let p = name_run(line, 0);
        p > 0 && p < line.len() && line[p as int] == COLON
    }
}

/// Whether a line looks like a header field (or a `From ` line).
pub fn is_header_field(line: &[u8]) -> (b: bool)
    ensures
        b == header_field_line(line@),
{
    if starts_with_from(line) {
        return true;
    }
    let mut i: usize = 0;
    while i < line.len()
        invariant
            i <= line@.len(),
            !starts_with(line@, from_prefix()),
            name_run(line@, 0) == name_run(line@, i as nat),
        decreases line@.len() - i,
    {
        let b = line[i];
        if b == COLON {
            return i > 0;
        }
        if b == SP || b == TAB || b < 32 || b == 127 {
            return false;
        }
        i += 1;
    }
    false
}

/// `Content-Length:`.
pub open spec fn content_length_name() -> Seq<u8> {
    seq![67u8, 111u8, 110u8, 116u8, 101u8, 110u8, 116u8, 45u8, 76u8, 101u8, 110u8, 103u8, 116u8, 104u8, 58u8]
}

/// The number that a header line gives as the content length: a line
/// longer than `Content-Length:` that starts with it (in any case), whose
/// rest is UTF-8 and, trimmed, an unsigned number.
pub open spec fn content_length_line(line: Seq<u8>) -> Option<nat> {
    if line.len() > 15 && eq_ignore_case(line.take(15), content_length_name()) && valid_utf8(line.skip(15)) {
        parse_unsigned(trim(decode_utf8(line.skip(15))), usize::MAX as nat)
    } else {
        None
    }
}

/// Index of the first newline of `h` at or after `i` (or the length).
pub open spec fn newline_from(h: Seq<u8>, i: nat) -> nat
    decreases h.len() - i,
{
    if i >= h.len() {
        h.len()
    } else if h[i as int] == NL {
        i
    } else {
        newline_from(h, i + 1)
    }
}

pub proof fn lemma_newline_from(h: Seq<u8>, i: nat)
    requires
        i <= h.len(),
    ensures
        i <= newline_from(h, i) <= h.len(),
        newline_from(h, i) < h.len() ==> h[newline_from(h, i) as int] == NL,
    decreases h.len() - i,
{
    if i < h.len() && h[i as int] != NL {
        lemma_newline_from(h, i + 1);
    }
}

/// The content length that the lines of `h` from `i` on give: that of
/// the first line that gives one, else 0.
pub open spec fn content_length_from(h: Seq<u8>, i: nat) -> nat
    decreases h.len() - i,
{
    if i >= h.len() {
        0
    } else {
        proof {
            lemma_newline_from(h, i);
        }
        let e = newline_from(h, i);
        match content_length_line(h.subrange(i as int, e as int)) {
            Some(n) => n,
            None => if e >= h.len() {
                0
            } else {
                content_length_from(h, e + 1)
            },
        }
    }
}

/// The content length a header gives (0 when none).
pub open spec fn content_length_of(h: Seq<u8>) -> nat {
    content_length_from(h, 0)
}

fn content_length_at(line: &[u8]) -> (r: Option<usize>)
    ensures
        match r {
            Some(n) => content_length_line(line@) == Some(n as nat),
            None => content_length_line(line@) is None,
        },
{
    let name: [u8; 15] = [67u8, 111u8, 110u8, 116u8, 101u8, 110u8, 116u8, 45u8, 76u8, 101u8, 110u8, 103u8, 116u8, 104u8, 58u8];
    assert(name@ =~= content_length_name());
    if line.len() <= 15 {
        return None;
    }
    let mut i: usize = 0;
    while i < 15
        invariant
            i <= 15,
            15 < line@.len(),
            name@ == content_length_name(),
            forall|j: int| 0 <= j < i ==> lower(#[trigger] line@[j]) == lower(name@[j]),
        decreases 15 - i,
    {
        if lower_byte(line[i]) != lower_byte(name[i]) {
            assert(lower(line@.take(15)[i as int]) != lower(content_length_name()[i as int]));
            return None;
        }
        i += 1;
    }
    assert(eq_ignore_case(line@.take(15), content_length_name()));
    let rest = slice_subrange(line, 15, line.len());
    assert(rest@ =~= line@.skip(15));
    match str_from_utf8(rest) {
        None => None,
        Some(s) => {
            let v = chars_of(s);
            let (a, b) = trim_bounds(v.as_slice());
            let t = slice_subrange(v.as_slice(), a, b);
            match parse_unsigned_chars(t, usize::MAX as u64) {
                Some(n) => Some(n as usize),
                None => None,
            }
        },
    }
}

/// The length that a `Content-Length:` field of a header gives: the first
/// such line whose value reads as a number; 0 when there is none.
pub fn parse_content_length(header: &[u8]) -> (r: usize)
    ensures
        r == content_length_of(header@),
{
    let n = header.len();
    let mut i: usize = 0;
    while i < n
        invariant
            n == header@.len(),
            i <= n,
            content_length_of(header@) == content_length_from(header@, i as nat),
        decreases n - i,
    {
        let mut e = i;
        while e < n && header[e] != NL
            invariant
                n == header@.len(),
                i <= e <= n,
                newline_from(header@, i as nat) == newline_from(header@, e as nat),
            decreases n - e,
        {
            e += 1;
        }
        let line = slice_subrange(header, i, e);
        match content_length_at(line) {
            Some(v) => {
                return v;
            },
            None => {},
        }
        if e >= n {
            return 0;
        }
        i = e + 1;
    }
    0
}

/// How body lines are quoted.
#[derive(Clone, Copy, Debug, PartialEq, Eq, Structural)]
pub enum Quote {
    /// No line is quoted.
    Never,
    /// Lines starting with `From ` are quoted.
    From,
    /// Every line is quoted.
    All,
}

/// Whether `q` quotes `line`.
pub open spec fn quotes(q: Quote, line: Seq<u8>) -> bool {
    match q {
        Quote::Never => false,
        Quote::From => starts_with(line, from_prefix()),
        Quote::All => true,
    }
}

impl Quote {
    /// Whether this line gets the quotation prefix.
    pub fn prefix(&self, line: &[u8]) -> (b: bool)
        ensures
            b == quotes(*self, line@),
    {
        match self {
            Quote::Never => false,
            Quote::From => starts_with_from(line),
            Quote::All => true,
        }
    }
}

/// The lines of `d` from `i` on, each with `prefix` before it where `q`
/// quotes it.
pub open spec fn quoted_from(d: Seq<u8>, i: nat, q: Quote, prefix: Seq<u8>) -> Seq<u8>
    decreases d.len() - i,
{
    if i >= d.len() {
        Seq::empty()
    } else {
        proof {
            crate::field::lemma_line_end(d, i);
        }
        let e = crate::field::line_end(d, i);
        let line = d.subrange(i as int, e as int);
        (if quotes(q, line) {
            prefix
        } else {
            Seq::empty()
        }) + line + quoted_from(d, e, q, prefix)
    }
}

/// Write a piece of body, line by line, with the quotation prefix before
/// each line that `quote` quotes; tells whether there was anything.
pub fn output_body(data: &[u8], out: &mut Vec<u8>, quote: Quote, prefix: &[u8]) -> (wrote: bool)
    requires
        old(out)@.len() + data@.len() * (prefix@.len() + 1) <= usize::MAX,
    ensures
        final(out)@ == old(out)@ + quoted_from(data@, 0, quote, prefix@),
        wrote == (data@.len() > 0),
{
    let n = data.len();
    let mut i: usize = 0;
    while i < n
        invariant
            n == data@.len(),
            i <= n,
            out@ + quoted_from(data@, i as nat, quote, prefix@) == old(out)@ + quoted_from(data@, 0, quote, prefix@),
            out@.len() + (n - i) * (prefix@.len() + 1) <= usize::MAX,
        decreases n - i,
    {
        let mut e = i;
        while e < n && data[e] != NL
            invariant
                n == data@.len(),
                i <= e <= n,
                crate::field::line_end(data@, i as nat) == crate::field::line_end(data@, e as nat),
            decreases n - e,
        {
            e += 1;
        }
        if e < n {
            e += 1;
        }
        proof {
            crate::field::lemma_line_end(data@, i as nat);
        }
        assert(e == crate::field::line_end(data@, i as nat));
        let line = slice_subrange(data, i, e);
        proof {
            assert((e - i) * (prefix@.len() + 1) >= prefix@.len() + (e - i)) by (nonlinear_arith)
                requires
                    e - i >= 1,
            ;
            assert((n - i) * (prefix@.len() + 1) == (e - i) * (prefix@.len() + 1) + (n - e) * (
            prefix@.len() + 1)) by (nonlinear_arith);
        }
        let ghost before = out@;
        if quote.prefix(line) {
            out.extend_from_slice(prefix);
        }
        out.extend_from_slice(line);
        assert(out@ + quoted_from(data@, e as nat, quote, prefix@) =~= before + quoted_from(
            data@,
            i as nat,
            quote,
            prefix@,
        ));
        i = e;
    }
    n > 0
}

/// What is known of the splitting so far.
#[derive(Debug)]
pub struct SplitState {
    /// Messages seen.
    pub msg_num: usize,
    /// Messages handed on.
    pub count: usize,
    /// The message being gathered.
    pub msg: Vec<u8>,
    /// Header lines that may start a message.
    pub pending: Vec<u8>,
    /// Header fields among the pending lines.
    pub fields: usize,
    /// The previous line was empty.
    pub last_blank: bool,
    /// A message is being gathered.
    pub in_msg: bool,
    /// Body bytes still to take as they stand (from `Content-Length:`).
    pub content_remaining: usize,
}

impl SplitState {
    /// The counted header fields each took a line of the pending text.
    pub open spec fn wf(&self) -> bool {
        self.fields <= self.pending@.len()
    }

    /// The state before the first line: nothing seen, as after an empty
    /// line.
    pub fn new() -> (r: SplitState)
        ensures
            r.wf(),
            r.msg_num == 0 && r.count == 0 && r.msg@.len() == 0 && r.pending@.len() == 0,
            r.fields == 0 && r.last_blank && !r.in_msg && r.content_remaining == 0,
    {
        SplitState {
            msg_num: 0,
            count: 0,
            msg: Vec::new(),
            pending: Vec::new(),
            fields: 0,
            last_blank: true,
            in_msg: false,
            content_remaining: 0,
        }
    }
}

/// How a mailbox is split.
#[derive(Debug)]
pub struct SplitConfig {
    /// The command each message goes to (none: standard output).
    pub cmd: Vec<String>,
    /// Messages to skip first.
    pub skip: usize,
    /// Messages to hand on at most.
    pub total: Option<usize>,
    /// Header fields that a message start needs.
    pub minfields: usize,
    /// Any header line after any line may start a message.
    pub every: bool,
    /// Split a digest: header lines after an empty line start messages.
    pub digest: bool,
    /// The first message number.
    pub base: i64,
    /// Width of the message numbers.
    pub width: usize,
}

/// Whether `line` starts a new message.
pub open spec fn boundary(digest: bool, every: bool, line: Seq<u8>, last_blank: bool) -> bool {
    if digest || every {
        header_field_line(line) && (every || last_blank)
    } else {
        starts_with(line, from_prefix()) && last_blank
    }
}

impl SplitConfig {
    /// Whether this line starts a new message: after an empty line (or,
    /// with `every`, anywhere) a `From ` line, or in digests and with
    /// `every` any header line.
    pub fn is_boundary(&self, line: &[u8], last_blank: bool) -> (b: bool)
        ensures
            b == boundary(self.digest, self.every, line@, last_blank),
    {
        if self.digest || self.every {
            is_header_field(line) && (self.every || last_blank)
        } else {
            starts_with_from(line) && last_blank
        }
    }
}

/// `\n` or `\r\n`.
pub open spec fn empty_line(line: Seq<u8>) -> bool {
    line == seq![NL] || line == seq![13u8, NL]
}

fn is_empty_line(line: &[u8]) -> (b: bool)
    ensures
        b == empty_line(line@),
{
    if line.len() == 1 {
        let r = line[0] == NL;
        assert(r == (line@ =~= seq![NL]));
        r
    } else if line.len() == 2 {
        let r = line[0] == 13u8 && line[1] == NL;
        assert(r == (line@ =~= seq![13u8, NL]));
        r
    } else {
        false
    }
}

/// The lines gathered so far may grow by `line`.
pub open spec fn room_for(state: SplitState, line: Seq<u8>) -> bool {
    state.msg@.len() + state.pending@.len() + line.len() <= usize::MAX
}

/// Begin the pending header with `line`.
pub fn start_pending_header(state: &mut SplitState, line: &[u8])
    requires
        old(state).pending@.len() + line@.len() <= usize::MAX,
    ensures
        final(state).pending@ == old(state).pending@ + line@,
        final(state).msg == old(state).msg,
        final(state).fields == old(state).fields,
        final(state).msg_num == old(state).msg_num && final(state).count == old(state).count,
        final(state).last_blank == old(state).last_blank && final(state).in_msg == old(state).in_msg,
        final(state).content_remaining == old(state).content_remaining,
{
    state.pending.extend_from_slice(line);
}

/// Take a line while a header may be pending: an empty line ends it (a
/// message starts when it had `minfields` fields; its content length is
/// read unless splitting a digest); a header line or a continuation line
/// adds to it; any other line drops it.
pub fn accumulate_header(cfg: &SplitConfig, state: &mut SplitState, line: &[u8])
    requires
        old(state).wf(),
        room_for(*old(state), line@),
    ensures
        final(state).wf(),
        final(state).msg_num == old(state).msg_num && final(state).count == old(state).count,
        final(state).last_blank == old(state).last_blank,
        if empty_line(line@) {
            &&& final(state).pending@.len() == 0 && final(state).fields == 0
            &&& if old(state).fields >= cfg.minfields {
                &&& final(state).in_msg
                &&& final(state).content_remaining == if cfg.digest {
                    old(state).content_remaining as nat
                } else {
                    content_length_of(old(state).pending@)
                }
                &&& final(state).msg@ == old(state).msg@ + old(state).pending@ + line@
            } else {
                &&& final(state).in_msg == old(state).in_msg
                &&& final(state).content_remaining == old(state).content_remaining
                &&& final(state).msg@ == old(state).msg@
            }
        } else {
            &&& final(state).in_msg == old(state).in_msg
            &&& final(state).content_remaining == old(state).content_remaining
            &&& final(state).msg@ == old(state).msg@
            &&& if header_field_line(line@) {
                final(state).pending@ == old(state).pending@ + line@ && final(state).fields == old(state).fields + 1
            } else if line@.len() > 0 && (line@[0] == SP || line@[0] == TAB) {
                final(state).pending@ == old(state).pending@ + line@ && final(state).fields == old(state).fields
            } else {
                final(state).pending@.len() == 0 && final(state).fields == 0
            }
        },
{
    if is_empty_line(line) {
        if state.fields >= cfg.minfields {
            state.in_msg = true;
            if !cfg.digest {
                state.content_remaining = parse_content_length(state.pending.as_slice());
            }
            let ghost m0 = state.msg@;
            state.msg.extend_from_slice(state.pending.as_slice());
            state.msg.extend_from_slice(line);
            assert(state.msg@ =~= m0 + old(state).pending@ + line@);
        }
        state.pending.clear();
        state.fields = 0;
    } else if is_header_field(line) {
        assert(line@.len() > 0) by {
            if line@.len() == 0 {
                assert(!starts_with(line@, from_prefix()));
            }
        }
        state.pending.extend_from_slice(line);
        state.fields = state.fields + 1;
    } else if line.len() > 0 && (line[0] == SP || line[0] == TAB) {
        state.pending.extend_from_slice(line);
    } else {
        state.pending.clear();
        state.fields = 0;
    }
}

/// Take a line inside a message: while a header is pending it goes to
/// the header (an empty line ends the header, a header line adds a field,
/// a continuation line, starting with a blank or a tab, adds to the field
/// before it, and any other line drops the pending header); else, inside
/// a message, to the message.
pub fn process_content(cfg: &SplitConfig, state: &mut SplitState, line: &[u8])
    requires
        old(state).wf(),
        room_for(*old(state), line@),
    ensures
        final(state).wf(),
        final(state).msg_num == old(state).msg_num && final(state).count == old(state).count,
        final(state).last_blank == old(state).last_blank,
        old(state).pending@.len() == 0 ==> {
            &&& final(state).pending@.len() == 0 && final(state).fields == old(state).fields
            &&& final(state).in_msg == old(state).in_msg
            &&& final(state).content_remaining == old(state).content_remaining
            &&& final(state).msg@ == if old(state).in_msg {
                old(state).msg@ + line@
            } else {
                old(state).msg@
            }
        },
        old(state).pending@.len() > 0 && empty_line(line@) ==> {
            &&& final(state).pending@.len() == 0 && final(state).fields == 0
            &&& if old(state).fields >= cfg.minfields {
                &&& final(state).in_msg
                &&& final(state).content_remaining == if cfg.digest {
                    old(state).content_remaining as nat
                } else {
                    content_length_of(old(state).pending@)
                }
                &&& final(state).msg@ == old(state).msg@ + old(state).pending@ + line@
            } else {
                &&& final(state).in_msg == old(state).in_msg
                &&& final(state).content_remaining == old(state).content_remaining
                &&& final(state).msg@ == old(state).msg@
            }
        },
        old(state).pending@.len() > 0 && !empty_line(line@) ==> {
            &&& final(state).in_msg == old(state).in_msg
            &&& final(state).content_remaining == old(state).content_remaining
            &&& final(state).msg@ == old(state).msg@
        },
        old(state).pending@.len() > 0 && !empty_line(line@) && header_field_line(line@) ==> {
            final(state).pending@ == old(state).pending@ + line@ && final(state).fields == old(state).fields + 1
        },
        old(state).pending@.len() > 0 && !header_field_line(line@) && line@.len() > 0 && (line@[0] == SP
            || line@[0] == TAB) ==> {
            final(state).pending@ == old(state).pending@ + line@ && final(state).fields == old(state).fields
        },
        old(state).pending@.len() > 0 && !empty_line(line@) && !header_field_line(line@) && !(line@.len()
            > 0 && (line@[0] == SP || line@[0] == TAB)) ==> {
            final(state).pending@.len() == 0 && final(state).fields == 0
        },
{
    if state.pending.len() > 0 {
        accumulate_header(cfg, state, line);
    } else if state.in_msg {
        state.msg.extend_from_slice(line);
    }
}

/// The message that ends where a new one starts: the gathered message
/// with one of two final newlines dropped, if one was being gathered.
pub open spec fn finished_message(in_msg: bool, msg: Seq<u8>) -> Option<Seq<u8>> {
    if in_msg && msg.len() > 0 {
        if msg.len() >= 2 && msg[msg.len() - 1] == NL && msg[msg.len() - 2] == NL {
            Some(msg.drop_last())
        } else {
            Some(msg)
        }
    } else {
        None
    }
}

/// Start a new message at `line`, handing back the one that ended.
pub fn process_boundary(state: &mut SplitState, line: &[u8]) -> (r: Option<Vec<u8>>)
    ensures
        final(state).wf(),
        match r {
            Some(m) => finished_message(old(state).in_msg, old(state).msg@) == Some(m@),
            None => finished_message(old(state).in_msg, old(state).msg@) is None,
        },
        final(state).msg@.len() == 0,
        final(state).pending@ == line@,
        final(state).fields == if header_field_line(line@) { 1nat } else { 0nat },
        !final(state).in_msg,
        final(state).msg_num == old(state).msg_num && final(state).count == old(state).count,
        final(state).last_blank == old(state).last_blank,
        final(state).content_remaining == old(state).content_remaining,
{
    let prev = if state.in_msg && state.msg.len() > 0 {
        let mut msg: Vec<u8> = Vec::new();
        std::mem::swap(&mut msg, &mut state.msg);
        let n = msg.len();
        if n >= 2 && msg[n - 1] == NL && msg[n - 2] == NL {
            msg.pop();
        }
        Some(msg)
    } else {
        None
    };
    state.msg.clear();
    state.pending.clear();
    state.pending.extend_from_slice(line);
    let h = is_header_field(line);
    assert(h ==> line@.len() > 0) by {
        if line@.len() == 0 {
            assert(!starts_with(line@, from_prefix()));
        }
    }
    state.fields = if h { 1 } else { 0 };
    state.in_msg = false;
    prev
}

/// Take one line of the mailbox: a boundary ends the message being
/// gathered (handed back) and starts a new one; any other line is
/// content.
pub fn process_line(cfg: &SplitConfig, state: &mut SplitState, line: &[u8]) -> (r: Option<Vec<u8>>)
    requires
        old(state).wf(),
        room_for(*old(state), line@),
    ensures
        final(state).wf(),
        boundary(cfg.digest, cfg.every, line@, old(state).last_blank) ==> {
            &&& match r {
                Some(m) => finished_message(old(state).in_msg, old(state).msg@) == Some(m@),
                None => finished_message(old(state).in_msg, old(state).msg@) is None,
            }
            &&& final(state).msg@.len() == 0 && final(state).pending@ == line@ && !final(state).in_msg
        },
        !boundary(cfg.digest, cfg.every, line@, old(state).last_blank) ==> r is None,
        final(state).msg_num == old(state).msg_num && final(state).count == old(state).count,
        final(state).last_blank == old(state).last_blank,
{
    if cfg.is_boundary(line, state.last_blank) {
        return process_boundary(state, line);
    }
    process_content(cfg, state, line);
    None
}

/// What becomes of a message that has ended.
#[derive(Clone, Copy, Debug, PartialEq, Eq, Structural)]
pub enum Emit {
    /// It is among those to skip.
    Skip,
    /// The total is reached: splitting stops.
    Stop,
    /// It is handed on, with this number (counted from 0).
    Output(usize),
}

/// Count a message that has ended and say what becomes of it: the first
/// `skip` are skipped, then at most `total` are handed on.
pub fn emit_message(cfg: &SplitConfig, state: &mut SplitState) -> (r: Emit)
    requires
        old(state).msg_num < usize::MAX,
        old(state).count < usize::MAX,
    ensures
        final(state).msg_num == old(state).msg_num + 1,
        final(state).msg == old(state).msg && final(state).pending == old(state).pending,
        final(state).fields == old(state).fields && final(state).in_msg == old(state).in_msg,
        final(state).last_blank == old(state).last_blank,
        final(state).content_remaining == old(state).content_remaining,
        if old(state).msg_num + 1 <= cfg.skip {
            r == Emit::Skip && final(state).count == old(state).count
        } else if cfg.total matches Some(t) && old(state).count >= t {
            r == Emit::Stop && final(state).count == old(state).count
        } else {
            r == Emit::Output(old(state).count) && final(state).count == old(state).count + 1
        },
{
    state.msg_num = state.msg_num + 1;
    if state.msg_num <= cfg.skip {
        return Emit::Skip;
    }
    match cfg.total {
        Some(t) => {
            if state.count >= t {
                return Emit::Stop;
            }
        },
        None => {},
    }
    let n = state.count;
    state.count = n + 1;
    Emit::Output(n)
}

/// Whether the message gathered when the input ends is handed on: one
/// is being gathered, it is past the skipped ones, and the total is not
/// reached.
pub fn flush_final(cfg: &SplitConfig, state: &SplitState) -> (b: bool)
    ensures
        b == (state.in_msg && state.msg@.len() > 0 && state.msg_num + 1 > cfg.skip && match cfg.total {
            Some(t) => state.count < t,
            None => true,
        }),
{
    if state.in_msg && state.msg.len() > 0 {
        let num_past = state.msg_num >= cfg.skip;
        let room = match cfg.total {
            Some(t) => state.count < t,
            None => true,
        };
        num_past && room
    } else {
        false
    }
}


/// Outside digests and `every`, a message starts only at a `From ` line
/// that follows an empty line: a `From ` line in the middle of a body is
/// body text.
pub proof fn law_from_line_starts_message_only_after_blank(line: Seq<u8>, last_blank: bool)
    ensures
        !last_blank ==> !boundary(false, false, line, last_blank),
        boundary(false, false, line, true) <==> (line.len() >= 5 && line.take(5) == seq![70u8, 114u8, 111u8, 109u8, 32u8]),
{
    assert(from_prefix() =~= seq![70u8, 114u8, 111u8, 109u8, 32u8]);
    if line.len() >= 5 {
        assert(starts_with(line, from_prefix()) <==> line.take(5) =~= from_prefix());
    }
}

} // verus!
