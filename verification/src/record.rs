//! The record value type — a command with the timestamp it was last seen
//! at — and its total order: by timestamp, then lexicographically by
//! command text.

use vstd::prelude::*;
use crate::text::{lex_le, lex_le_exec, lemma_lex_le_total, lemma_lex_le_antisym,
    lemma_lex_le_trans};

verus! {

/// One history entry: a timestamp (seconds since the epoch, as found in the
/// source text) and a whitespace-normalized command.
pub struct Record {
    pub timestamp: u32,
    pub command: Vec<char>,
}

/// The mathematical value of a `Record`.
#[verifier::ext_equal]
pub struct RecordV {
    pub timestamp: u32,
    pub command: Seq<char>,
}

impl View for Record {
    type V = RecordV;

    open spec fn view(&self) -> RecordV {
        RecordV { timestamp: self.timestamp, command: self.command@ }
    }
}

/// The total order on records: primary key timestamp ascending, tie broken
/// lexicographically on the command text.
pub open spec fn record_le(a: RecordV, b: RecordV) -> bool {
    a.timestamp < b.timestamp || (a.timestamp == b.timestamp && lex_le(a.command, b.command))
}

/// Executable comparison deciding `record_le`.
pub fn record_le_exec(a: &Record, b: &Record) -> (r: bool)
    ensures
        r == record_le(a@, b@),
{
    if a.timestamp < b.timestamp {
        true
    } else if a.timestamp == b.timestamp {
        lex_le_exec(&a.command, &b.command)
    } else {
        false
    }
}

pub proof fn lemma_record_le_total(a: RecordV, b: RecordV)
    ensures
        record_le(a, b) || record_le(b, a),
{
    lemma_lex_le_total(a.command, b.command);
}

pub proof fn lemma_record_le_antisym(a: RecordV, b: RecordV)
    requires
        record_le(a, b),
        record_le(b, a),
    ensures
        a == b,
{
    lemma_lex_le_antisym(a.command, b.command);
    assert(a =~= b);
}

pub proof fn lemma_record_le_trans(a: RecordV, b: RecordV, c: RecordV)
    requires
        record_le(a, b),
        record_le(b, c),
    ensures
        record_le(a, c),
{
    if a.timestamp == b.timestamp && b.timestamp == c.timestamp {
        lemma_lex_le_trans(a.command, b.command, c.command);
    }
}

} // verus!
