//! The entry parser: a state machine over the lines of a history text. A
//! line of `#` followed only by digits is a timestamp marker; other
//! non-blank lines accumulate into the current command, joined with `"; "`;
//! a marker (or the end of the input) closes the accumulated unit into a
//! record or a per-unit parse error.

use vstd::prelude::*;
use crate::text::{is_digit, dec_val, normalize_spec, trim_spec, trim_chars, normalize_command,
    parse_u32};
use crate::record::{Record, RecordV};

verus! {

/// Why a parse unit was rejected. Per-unit errors are non-fatal: the unit is
/// dropped and parsing continues.
#[derive(Debug)]
pub enum ParseError {
    /// The marker's digits do not fit a 32-bit unsigned integer; carries the
    /// unit's normalized command text.
    MalformedTimestamp { command: Vec<char> },
    /// The unit's command text normalized to nothing.
    EmptyCommand { timestamp: u32 },
    /// Command text appeared before any timestamp marker was seen.
    OrphanCommand { command: Vec<char> },
}

/// The mathematical value of a `ParseError`.
pub enum ParseErrorV {
    MalformedTimestamp { command: Seq<char> },
    EmptyCommand { timestamp: u32 },
    OrphanCommand { command: Seq<char> },
}

impl View for ParseError {
    type V = ParseErrorV;

    open spec fn view(&self) -> ParseErrorV {
        match self {
            ParseError::MalformedTimestamp { command } => ParseErrorV::MalformedTimestamp {
                command: command@,
            },
            ParseError::EmptyCommand { timestamp } => ParseErrorV::EmptyCommand {
                timestamp: *timestamp,
            },
            ParseError::OrphanCommand { command } => ParseErrorV::OrphanCommand {
                command: command@,
            },
        }
    }
}

/// One emitted parse unit: a record, or the reason it was dropped.
pub type ItemV = Result<RecordV, ParseErrorV>;

pub open spec fn item_view(it: Result<Record, ParseError>) -> ItemV {
    match it {
        Ok(r) => Ok(r@),
        Err(e) => Err(e@),
    }
}

pub open spec fn emit_view(o: Option<Result<Record, ParseError>>) -> Option<ItemV> {
    match o {
        Some(it) => Some(item_view(it)),
        None => None,
    }
}

pub open spec fn opt_seq(o: Option<ItemV>) -> Seq<ItemV> {
    match o {
        Some(x) => seq![x],
        None => Seq::empty(),
    }
}

/// A timestamp marker line: `#` followed by one or more digits and nothing
/// else.
pub open spec fn is_marker_spec(l: Seq<char>) -> bool {
    l.len() >= 2 && l[0] == '#' && (forall|i: int| 1 <= i < l.len() ==> is_digit(#[trigger] l[i]))
}

/// Executable marker test.
pub fn is_marker(l: &Vec<char>) -> (r: bool)
    ensures
        r == is_marker_spec(l@),
{
    if l.len() < 2 || l[0] != '#' {
        return false;
    }
    let n = l.len();
    let mut i: usize = 1;
    while i < n
        invariant
            n == l@.len(),
            1 <= i <= n,
            forall|k: int| 1 <= k < i ==> is_digit(#[trigger] l@[k]),
        decreases n - i,
    {
        let c = l[i];
        if (c as u32) < 48 || (c as u32) > 57 {
            return false;
        }
        i = i + 1;
    }
    true
}

/// The parser's state between lines: the digits of the pending timestamp
/// marker, if any, and the accumulated raw command buffer.
#[verifier::ext_equal]
pub struct StateV {
    pub pending: Option<Seq<char>>,
    pub buffer: Seq<char>,
}

pub open spec fn init_state() -> StateV {
    StateV { pending: None, buffer: Seq::empty() }
}

/// Well-formedness of the state: pending digits really are digits.
pub open spec fn state_wf(st: StateV) -> bool {
    match st.pending {
        Some(d) => d.len() >= 1 && (forall|i: int| 0 <= i < d.len() ==> is_digit(#[trigger] d[i])),
        None => true,
    }
}

/// Closing a unit: parse the pending digits, normalize the buffer, and
/// decide among a record, a per-unit error, or nothing at all (no pending
/// timestamp and nothing buffered).
pub open spec fn close_spec(st: StateV) -> Option<ItemV> {
    let cmd = normalize_spec(st.buffer);
    match st.pending {
        Some(d) => if dec_val(d) > u32::MAX {
            Some(Err(ParseErrorV::MalformedTimestamp { command: cmd }))
        } else if cmd.len() == 0 {
            Some(Err(ParseErrorV::EmptyCommand { timestamp: dec_val(d) as u32 }))
        } else {
            Some(Ok(RecordV { timestamp: dec_val(d) as u32, command: cmd }))
        },
        None => if cmd.len() == 0 {
            None
        } else {
            Some(Err(ParseErrorV::OrphanCommand { command: cmd }))
        },
    }
}

/// The state after one line: a marker always becomes the pending timestamp
/// over an empty buffer; a blank line changes nothing; any other line
/// appends its trimmed content and a `"; "` separator to the buffer.
pub open spec fn step_state(st: StateV, line: Seq<char>) -> StateV {
    if is_marker_spec(line) {
        StateV { pending: Some(line.drop_first()), buffer: Seq::empty() }
    } else if trim_spec(line).len() == 0 {
        st
    } else {
        StateV { pending: st.pending, buffer: st.buffer + trim_spec(line) + seq![';', ' '] }
    }
}

/// What one line emits: a marker over a non-empty buffer closes the current
/// unit; nothing else emits.
pub open spec fn step_emit(st: StateV, line: Seq<char>) -> Seq<ItemV> {
    if is_marker_spec(line) && st.buffer.len() > 0 {
        opt_seq(close_spec(st))
    } else {
        Seq::empty()
    }
}

/// The result of running the machine over a suffix of the lines.
#[verifier::ext_equal]
pub struct RunResult {
    pub state: StateV,
    pub items: Seq<ItemV>,
}

pub open spec fn run_from(st: StateV, lines: Seq<Seq<char>>, i: int) -> RunResult
    decreases lines.len() - i,
{
    if i < 0 || i >= lines.len() {
        RunResult { state: st, items: Seq::empty() }
    } else {
        let rest = run_from(step_state(st, lines[i]), lines, i + 1);
        RunResult { state: rest.state, items: step_emit(st, lines[i]) + rest.items }
    }
}

/// The full sequence of parse units of a line sequence: run the machine over
/// every line, then close whatever is left at the end of the input.
pub open spec fn parse_lines(lines: Seq<Seq<char>>) -> Seq<ItemV> {
    let r = run_from(init_state(), lines, 0);
    r.items + opt_seq(close_spec(r.state))
}

/// The entry parser as an explicit object: feed it each line, then finish.
pub struct Parser {
    pub pending: Option<Vec<char>>,
    pub buffer: Vec<char>,
}

impl View for Parser {
    type V = StateV;

    open spec fn view(&self) -> StateV {
        StateV {
            pending: match self.pending {
                Some(ref d) => Some(d@),
                None => None,
            },
            buffer: self.buffer@,
        }
    }
}

/// Closes the current unit; shared by `feed` (on a marker) and `finish` (at
/// the end of the input).
fn close_unit(pending: Option<Vec<char>>, buffer: Vec<char>) -> (out: Option<
    Result<Record, ParseError>,
>)
    requires
        state_wf(StateV {
            pending: match pending {
                Some(ref d) => Some(d@),
                None => None,
            },
            buffer: buffer@,
        }),
    ensures
        emit_view(out) == close_spec(StateV {
            pending: match pending {
                Some(ref d) => Some(d@),
                None => None,
            },
            buffer: buffer@,
        }),
{
    let cmd = normalize_command(&buffer);
    match pending {
        Some(d) => {
            match parse_u32(&d) {
                None => Some(Err(ParseError::MalformedTimestamp { command: cmd })),
                Some(ts) => {
                    if cmd.len() == 0 {
                        Some(Err(ParseError::EmptyCommand { timestamp: ts }))
                    } else {
                        Some(Ok(Record { timestamp: ts, command: cmd }))
                    }
                },
            }
        },
        None => {
            if cmd.len() == 0 {
                None
            } else {
                Some(Err(ParseError::OrphanCommand { command: cmd }))
            }
        },
    }
}

impl Parser {
    pub fn new() -> (p: Parser)
        ensures
            p@ == init_state(),
            state_wf(p@),
    {
        Parser { pending: None, buffer: Vec::new() }
    }

    /// Advances the machine by one line, returning the unit the line closed,
    /// if any.
    pub fn feed(&mut self, line: &Vec<char>) -> (out: Option<Result<Record, ParseError>>)
        requires
            state_wf(old(self)@),
        ensures
            state_wf(final(self)@),
            final(self)@ == step_state(old(self)@, line@),
            opt_seq(emit_view(out)) == step_emit(old(self)@, line@),
    {
        if is_marker(line) {
            let mut out: Option<Result<Record, ParseError>> = None;
            if self.buffer.len() > 0 {
                let pending = self.pending.take();
                let mut buffer: Vec<char> = Vec::new();
                core::mem::swap(&mut buffer, &mut self.buffer);
                out = close_unit(pending, buffer);
            }
            let n = line.len();
            let mut digits: Vec<char> = Vec::new();
            let mut i: usize = 1;
            while i < n
                invariant
                    n == line@.len(),
                    1 <= i <= n,
                    digits@ == line@.subrange(1, i as int),
                decreases n - i,
            {
                digits.push(line[i]);
                i = i + 1;
                proof {
                    assert(digits@ =~= line@.subrange(1, i as int));
                }
            }
            proof {
                assert(digits@ =~= line@.drop_first());
            }
            self.pending = Some(digits);
            self.buffer = Vec::new();
            proof {
                assert(self@ =~~= step_state(old(self)@, line@));
            }
            out
        } else {
            let t = trim_chars(line);
            if t.len() > 0 {
                let ghost b0 = self.buffer@;
                let mut j: usize = 0;
                let m = t.len();
                while j < m
                    invariant
                        m == t@.len(),
                        j <= m,
                        self.pending == old(self).pending,
                        self.buffer@ == b0 + t@.subrange(0, j as int),
                    decreases m - j,
                {
                    self.buffer.push(t[j]);
                    j = j + 1;
                    proof {
                        assert(self.buffer@ =~= b0 + t@.subrange(0, j as int));
                    }
                }
                self.buffer.push(';');
                self.buffer.push(' ');
                proof {
                    assert(t@.subrange(0, m as int) =~= t@);
                    assert(self.buffer@ =~= b0 + trim_spec(line@) + seq![';', ' ']);
                    assert(self@ =~~= step_state(old(self)@, line@));
                }
            } else {
                proof {
                    assert(self@ =~~= step_state(old(self)@, line@));
                }
            }
            None
        }
    }

    /// Ends the input, closing whatever unit is still open.
    pub fn finish(self) -> (out: Option<Result<Record, ParseError>>)
        requires
            state_wf(self@),
        ensures
            emit_view(out) == close_spec(self@),
    {
        close_unit(self.pending, self.buffer)
    }
}

} // verus!
