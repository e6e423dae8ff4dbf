//! The pipeline: aggregate the parsed, classified records into a
//! deduplicated set keyed by command text (keeping the maximum timestamp),
//! sort by the total record order, and render back to the on-disk text
//! format.

use vstd::prelude::*;
use vstd::multiset::Multiset;
use crate::text::{dec_str, u32_chars, chars_to_string, chars_eq};
use crate::record::{Record, RecordV, record_le, record_le_exec, lemma_record_le_total,
    lemma_record_le_trans};
use crate::parse::{ParseError, ParseErrorV, ItemV, Parser, item_view, emit_view, opt_seq,
    parse_lines, run_from, state_wf, close_spec, step_state, step_emit, RunResult};
use crate::classify::{Classifier, retained};
use crate::text::{split_lines_spec, split_lines, str_to_chars};

verus! {

broadcast use vstd::seq_lib::group_seq_properties;

/// The mathematical values of a vector of records.
pub open spec fn recs_view(v: Seq<Record>) -> Seq<RecordV> {
    v.map_values(|r: Record| r@)
}

/// The mathematical values of a vector of parse errors.
pub open spec fn errs_view(v: Seq<ParseError>) -> Seq<ParseErrorV> {
    v.map_values(|e: ParseError| e@)
}

/// The parse units of a history text.
pub open spec fn items_of(text: Seq<char>) -> Seq<ItemV> {
    parse_lines(split_lines_spec(text))
}

/// Some unit of `items` is the record `(ts, c)`.
pub open spec fn occurs(items: Seq<ItemV>, c: Seq<char>, ts: u32) -> bool {
    exists|i: int|
        0 <= i < items.len() && #[trigger] items[i] == Ok::<RecordV, ParseErrorV>(
            RecordV { timestamp: ts, command: c },
        )
}

/// The unit is a record whose command the classifier retains.
pub open spec fn ok_retained(it: ItemV) -> bool {
    match it {
        Ok(r) => retained(r.command),
        Err(_) => false,
    }
}

/// Some unit of `items` is a retained record.
pub open spec fn has_retained(items: Seq<ItemV>) -> bool {
    exists|i: int| 0 <= i < items.len() && ok_retained(#[trigger] items[i])
}

/// `out` is exactly the deduplication of the retained records of `items`:
/// one record per retained command, carrying the maximum timestamp among
/// that command's occurrences.
pub open spec fn dedup_of(items: Seq<ItemV>, out: Seq<RecordV>) -> bool {
    &&& (forall|j: int| 0 <= j < out.len() ==> retained((#[trigger] out[j]).command))
    &&& (forall|j: int|
        0 <= j < out.len() ==> occurs(items, (#[trigger] out[j]).command, out[j].timestamp))
    &&& (forall|j: int, ts: u32|
        0 <= j < out.len() && #[trigger] occurs(items, out[j].command, ts) ==> ts
            <= out[j].timestamp)
    &&& (forall|c: Seq<char>, ts: u32|
        #[trigger] occurs(items, c, ts) && retained(c) ==> exists|j: int|
            0 <= j < out.len() && (#[trigger] out[j]).command == c)
    &&& (forall|j1: int, j2: int|
        0 <= j1 < j2 < out.len() ==> (#[trigger] out[j1]).command != (#[trigger] out[j2]).command)
}

/// Non-decreasing in the total record order.
pub open spec fn sorted_rec(s: Seq<RecordV>) -> bool {
    forall|i: int, j: int| 0 <= i < j < s.len() ==> record_le(#[trigger] s[i], #[trigger] s[j])
}

/// The parse errors among the units, in order.
pub open spec fn errs_of(items: Seq<ItemV>) -> Seq<ParseErrorV>
    decreases items.len(),
{
    if items.len() == 0 {
        Seq::empty()
    } else {
        errs_of(items.drop_last()) + match items.last() {
            Err(e) => seq![e],
            Ok(_) => Seq::empty(),
        }
    }
}

/// `out` is the one valid result of cleaning `items`: deduplicated and
/// sorted.
pub open spec fn is_clean_records(items: Seq<ItemV>, out: Seq<RecordV>) -> bool {
    dedup_of(items, out) && sorted_rec(out)
}

/// Sorts records by the total order, preserving the multiset of values.
fn sort_records(v: Vec<Record>) -> (r: Vec<Record>)
    ensures
        recs_view(r@).to_multiset() == recs_view(v@).to_multiset(),
        sorted_rec(recs_view(r@)),
        r@.len() == v@.len(),
{
    broadcast use vstd::seq_lib::group_to_multiset_ensures;

    let ghost orig = recs_view(v@);
    let mut v = v;
    let mut out: Vec<Record> = Vec::new();
    proof {
        assert(recs_view(out@).to_multiset() =~= Multiset::empty());
        assert(recs_view(out@).to_multiset().add(recs_view(v@).to_multiset()) =~= orig.to_multiset());
    }
    while v.len() > 0
        invariant
            recs_view(out@).to_multiset().add(recs_view(v@).to_multiset()) == orig.to_multiset(),
            sorted_rec(recs_view(out@)),
            forall|a: int, b: int|
                0 <= a < out@.len() && 0 <= b < v@.len() ==> record_le(
                    #[trigger] recs_view(out@)[a],
                    #[trigger] recs_view(v@)[b],
                ),
            out@.len() + v@.len() == orig.len(),
        decreases v@.len(),
    {
        let n = v.len();
        let mut m: usize = 0;
        let mut k: usize = 1;
        proof {
            lemma_record_le_total(recs_view(v@)[0], recs_view(v@)[0]);
        }
        while k < n
            invariant
                n == v@.len(),
                m < k <= n,
                forall|t: int| 0 <= t < k ==> record_le(recs_view(v@)[m as int], #[trigger] recs_view(v@)[t]),
            decreases n - k,
        {
            if record_le_exec(&v[k], &v[m]) {
                proof {
                    let mv = recs_view(v@)[m as int];
                    let kv = recs_view(v@)[k as int];
                    assert forall|t: int| 0 <= t < k + 1 implies record_le(
                        kv,
                        #[trigger] recs_view(v@)[t],
                    ) by {
                        if t < k {
                            lemma_record_le_trans(kv, mv, recs_view(v@)[t]);
                        } else {
                            lemma_record_le_total(kv, kv);
                        }
                    }
                }
                m = k;
            } else {
                proof {
                    lemma_record_le_total(recs_view(v@)[k as int], recs_view(v@)[m as int]);
                }
            }
            k = k + 1;
        }
        let ghost vv = recs_view(v@);
        let ghost ov = recs_view(out@);
        let min = v.remove(m);
        proof {
            assert(recs_view(v@) =~= vv.remove(m as int));
        }
        out.push(min);
        proof {
            assert(recs_view(out@) =~= ov.push(min@));
            assert(min@ == vv[m as int]);
            // multiset bookkeeping: moving the minimum from v to out
            assert(recs_view(out@).to_multiset() =~= ov.to_multiset().insert(min@));
            assert(vv.to_multiset().contains(min@));
            assert(recs_view(v@).to_multiset() =~= vv.to_multiset().remove(min@));
            assert(recs_view(out@).to_multiset().add(recs_view(v@).to_multiset())
                =~= ov.to_multiset().add(vv.to_multiset()));
            // order: the extracted minimum is below everything left in v
            assert forall|t: int| 0 <= t < recs_view(v@).len() implies record_le(
                min@,
                #[trigger] recs_view(v@)[t],
            ) by {
                if t < m {
                    assert(recs_view(v@)[t] == vv[t]);
                } else {
                    assert(recs_view(v@)[t] == vv[t + 1]);
                }
            }
            assert forall|a: int, b: int|
                0 <= a < b < recs_view(out@).len() implies record_le(
                #[trigger] recs_view(out@)[a],
                #[trigger] recs_view(out@)[b],
            ) by {
                if b < recs_view(out@).len() - 1 {
                    assert(record_le(ov[a], ov[b]));
                } else {
                    assert(recs_view(out@)[b] == min@);
                    assert(record_le(ov[a], vv[m as int]));
                }
            }
        }
    }
    proof {
        assert(recs_view(v@).to_multiset() =~= Multiset::empty());
        assert(recs_view(out@).to_multiset() =~= orig.to_multiset());
    }
    out
}

/// The rendered text of a record sequence: for each record, a line
/// `#<timestamp>` then a line with the command text.
pub open spec fn render_spec(rs: Seq<RecordV>) -> Seq<char>
    decreases rs.len(),
{
    if rs.len() == 0 {
        Seq::empty()
    } else {
        seq!['#'] + dec_str(rs[0].timestamp as nat) + seq!['\n'] + rs[0].command + seq!['\n']
            + render_spec(rs.drop_first())
    }
}

/// The cleaned history: the deduplicated, sorted records, together with the
/// per-unit diagnostics collected while parsing.
pub struct HistoryCommands {
    pub records: Vec<Record>,
    pub diagnostics: Vec<ParseError>,
}

impl HistoryCommands {
    /// Renders the records into the on-disk text format.
    pub fn to_string(&self) -> (r: String)
        ensures
            r@ == render_spec(recs_view(self.records@)),
    {
        let ghost full = recs_view(self.records@);
        let mut out: Vec<char> = Vec::new();
        let n = self.records.len();
        let mut i: usize = 0;
        proof {
            assert(full.skip(0) =~= full);
        }
        while i < n
            invariant
                n == self.records@.len(),
                i <= n,
                full == recs_view(self.records@),
                render_spec(full) == out@ + render_spec(full.skip(i as int)),
            decreases n - i,
        {
            let ghost out0 = out@;
            out.push('#');
            let ds = u32_chars(self.records[i].timestamp);
            let mut a: usize = 0;
            let ghost outh = out@;
            while a < ds.len()
                invariant
                    a <= ds@.len(),
                    out@ == outh + ds@.subrange(0, a as int),
                decreases ds@.len() - a,
            {
                out.push(ds[a]);
                a = a + 1;
                proof {
                    assert(out@ =~= outh + ds@.subrange(0, a as int));
                }
            }
            out.push('\n');
            let ghost outc = out@;
            let m = self.records[i].command.len();
            let mut b: usize = 0;
            while b < m
                invariant
                    m == self.records@[i as int].command@.len(),
                    i < self.records@.len(),
                    b <= m,
                    out@ == outc + self.records@[i as int].command@.subrange(0, b as int),
                decreases m - b,
            {
                out.push(self.records[i].command[b]);
                b = b + 1;
                proof {
                    assert(out@ =~= outc + self.records@[i as int].command@.subrange(0, b as int));
                }
            }
            out.push('\n');
            i = i + 1;
            proof {
                assert(ds@.subrange(0, ds@.len() as int) =~= ds@);
                assert(self.records@[i - 1].command@.subrange(
                    0,
                    self.records@[i - 1].command@.len() as int,
                ) =~= self.records@[i - 1].command@);
                assert(full.skip(i - 1)[0] == full[i - 1]);
                assert(full.skip(i - 1).drop_first() =~= full.skip(i as int));
                assert(out@ =~= out0 + seq!['#'] + dec_str(full[i - 1].timestamp as nat)
                    + seq!['\n'] + full[i - 1].command + seq!['\n']);
                assert(render_spec(full) == out@ + render_spec(full.skip(i as int)));
            }
        }
        proof {
            assert(full.skip(n as int) =~= Seq::<RecordV>::empty());
            assert(render_spec(full.skip(n as int)) == Seq::<char>::empty());
            assert(render_spec(full) =~= out@);
        }
        chars_to_string(&out)
    }
}

proof fn lemma_occurs_push(items: Seq<ItemV>, it: ItemV, c: Seq<char>, ts: u32)
    ensures
        occurs(items.push(it), c, ts) <==> (occurs(items, c, ts) || it == Ok::<
            RecordV,
            ParseErrorV,
        >(RecordV { timestamp: ts, command: c })),
{
    let s2 = items.push(it);
    let target = Ok::<RecordV, ParseErrorV>(RecordV { timestamp: ts, command: c });
    if occurs(s2, c, ts) {
        let i = choose|i: int| 0 <= i < s2.len() && #[trigger] s2[i] == target;
        if i < items.len() {
            assert(items[i] == s2[i]);
            assert(occurs(items, c, ts));
        } else {
            assert(s2[i] == it);
        }
    }
    if occurs(items, c, ts) {
        let i = choose|i: int| 0 <= i < items.len() && #[trigger] items[i] == target;
        assert(s2[i] == items[i]);
        assert(occurs(s2, c, ts));
    }
    if it == target {
        assert(s2[items.len() as int] == it);
        assert(occurs(s2, c, ts));
    }
}

proof fn lemma_errs_push(items: Seq<ItemV>, it: ItemV)
    ensures
        errs_of(items.push(it)) == errs_of(items) + (match it {
            Err(e) => seq![e],
            Ok(_) => Seq::<ParseErrorV>::empty()
        }),
{
    assert(items.push(it).drop_last() =~= items);
    assert(items.push(it).last() == it);
}

proof fn lemma_has_retained_push(items: Seq<ItemV>, it: ItemV)
    ensures
        has_retained(items.push(it)) <==> (has_retained(items) || ok_retained(it)),
{
    let s2 = items.push(it);
    if has_retained(s2) {
        let i = choose|i: int| 0 <= i < s2.len() && ok_retained(#[trigger] s2[i]);
        if i < items.len() {
            assert(items[i] == s2[i]);
        } else {
            assert(s2[i] == it);
        }
    }
    if has_retained(items) {
        let i = choose|i: int| 0 <= i < items.len() && ok_retained(#[trigger] items[i]);
        assert(s2[i] == items[i]);
    }
    if ok_retained(it) {
        assert(ok_retained(s2[items.len() as int]));
    }
}

/// Folds one parse unit into the running aggregation: errors are collected
/// as diagnostics; retained records are deduplicated by command text,
/// keeping the strictly greater timestamp.
fn absorb(
    cx: &Classifier,
    acc: &mut Vec<Record>,
    errs: &mut Vec<ParseError>,
    it: Result<Record, ParseError>,
    Ghost(done): Ghost<Seq<ItemV>>,
)
    requires
        dedup_of(done, recs_view(old(acc)@)),
        errs_view(old(errs)@) == errs_of(done),
        has_retained(done) <==> old(acc)@.len() > 0,
    ensures
        dedup_of(done.push(item_view(it)), recs_view(final(acc)@)),
        errs_view(final(errs)@) == errs_of(done.push(item_view(it))),
        has_retained(done.push(item_view(it))) <==> final(acc)@.len() > 0,
{
    let ghost itv = item_view(it);
    let ghost done2 = done.push(itv);
    proof {
        lemma_errs_push(done, itv);
        lemma_has_retained_push(done, itv);
    }
    match it {
        Err(e) => {
            let ghost e0 = errs_view(errs@);
            errs.push(e);
            proof {
                assert(errs_view(errs@) =~= e0.push(e@));
                assert(errs_view(errs@) =~= errs_of(done2));
                let av = recs_view(acc@);
                assert forall|j: int| 0 <= j < av.len() implies occurs(
                    done2,
                    (#[trigger] av[j]).command,
                    av[j].timestamp,
                ) by {
                    lemma_occurs_push(done, itv, av[j].command, av[j].timestamp);
                }
                assert forall|j: int, ts: u32|
                    0 <= j < av.len() && #[trigger] occurs(done2, av[j].command, ts) implies ts
                    <= av[j].timestamp by {
                    lemma_occurs_push(done, itv, av[j].command, ts);
                }
                assert forall|c: Seq<char>, ts: u32|
                    #[trigger] occurs(done2, c, ts) && retained(c) implies exists|j: int|
                    0 <= j < av.len() && (#[trigger] av[j]).command == c by {
                    lemma_occurs_push(done, itv, c, ts);
                }
            }
        },
        Ok(rec) => {
            let keep = cx.is_retained(&rec.command);
            if !keep {
                proof {
                    let av = recs_view(acc@);
                    assert forall|j: int| 0 <= j < av.len() implies occurs(
                        done2,
                        (#[trigger] av[j]).command,
                        av[j].timestamp,
                    ) by {
                        lemma_occurs_push(done, itv, av[j].command, av[j].timestamp);
                    }
                    assert forall|j: int, ts: u32|
                        0 <= j < av.len() && #[trigger] occurs(done2, av[j].command, ts) implies ts
                        <= av[j].timestamp by {
                        lemma_occurs_push(done, itv, av[j].command, ts);
                        if !occurs(done, av[j].command, ts) {
                            assert(av[j].command == rec@.command);
                            assert(retained(av[j].command));
                            assert(false);
                        }
                    }
                    assert forall|c: Seq<char>, ts: u32|
                        #[trigger] occurs(done2, c, ts) && retained(c) implies exists|j: int|
                        0 <= j < av.len() && (#[trigger] av[j]).command == c by {
                        lemma_occurs_push(done, itv, c, ts);
                        if !occurs(done, c, ts) {
                            assert(c == rec@.command);
                            assert(false);
                        }
                    }
                }
            } else {
                let ghost av = recs_view(acc@);
                let n = acc.len();
                let mut j: usize = 0;
                let mut found = false;
                let mut fidx: usize = 0;
                while j < n
                    invariant
                        n == acc@.len(),
                        j <= n,
                        av == recs_view(acc@),
                        found ==> fidx < n && av[fidx as int].command == rec@.command,
                        !found ==> forall|t: int|
                            0 <= t < j ==> (#[trigger] av[t]).command != rec@.command,
                    decreases n - j,
                {
                    if chars_eq(&acc[j].command, &rec.command) {
                        found = true;
                        fidx = j;
                    }
                    j = j + 1;
                }
                if found {
                    if rec.timestamp > acc[fidx].timestamp {
                        let ts_new = rec.timestamp;
                        acc[fidx] = Record { timestamp: ts_new, command: rec.command };
                        proof {
                            let av2 = recs_view(acc@);
                            assert(av2 =~= av.update(
                                fidx as int,
                                RecordV { timestamp: ts_new, command: rec@.command },
                            ));
                            assert(itv == Ok::<RecordV, ParseErrorV>(av2[fidx as int]));
                            assert forall|jj: int| 0 <= jj < av2.len() implies occurs(
                                done2,
                                (#[trigger] av2[jj]).command,
                                av2[jj].timestamp,
                            ) by {
                                if jj == fidx {
                                    lemma_occurs_push(done, itv, rec@.command, ts_new);
                                } else {
                                    lemma_occurs_push(done, itv, av[jj].command, av[jj].timestamp);
                                }
                            }
                            assert forall|jj: int, ts: u32|
                                0 <= jj < av2.len() && #[trigger] occurs(done2, av2[jj].command, ts)
                                implies ts <= av2[jj].timestamp by {
                                lemma_occurs_push(done, itv, av2[jj].command, ts);
                                if occurs(done, av2[jj].command, ts) {
                                    assert(av2[jj].command == av[jj].command);
                                    assert(ts <= av[jj].timestamp);
                                    assert(av[jj].timestamp <= av2[jj].timestamp);
                                } else {
                                    assert(av2[jj].command == rec@.command);
                                    if jj != fidx {
                                        assert(av2[jj].command == av[jj].command);
                                        assert(av2[fidx as int].command == av[fidx as int].command);
                                        assert(false);
                                    }
                                }
                            }
                            assert forall|c: Seq<char>, ts: u32|
                                #[trigger] occurs(done2, c, ts) && retained(c) implies exists|jj: int|
                                0 <= jj < av2.len() && (#[trigger] av2[jj]).command == c by {
                                lemma_occurs_push(done, itv, c, ts);
                                if occurs(done, c, ts) {
                                    let w = choose|jj: int|
                                        0 <= jj < av.len() && (#[trigger] av[jj]).command == c;
                                    assert(av2[w].command == c);
                                } else {
                                    assert(av2[fidx as int].command == c);
                                }
                            }
                        }
                    } else {
                        proof {
                            assert(itv == Ok::<RecordV, ParseErrorV>(rec@));
                            assert forall|jj: int| 0 <= jj < av.len() implies occurs(
                                done2,
                                (#[trigger] av[jj]).command,
                                av[jj].timestamp,
                            ) by {
                                lemma_occurs_push(done, itv, av[jj].command, av[jj].timestamp);
                            }
                            assert forall|jj: int, ts: u32|
                                0 <= jj < av.len() && #[trigger] occurs(done2, av[jj].command, ts)
                                implies ts <= av[jj].timestamp by {
                                lemma_occurs_push(done, itv, av[jj].command, ts);
                                if !occurs(done, av[jj].command, ts) {
                                    assert(av[jj].command == rec@.command);
                                    if jj != fidx {
                                        assert(false);
                                    }
                                    assert(ts == rec@.timestamp);
                                }
                            }
                            assert forall|c: Seq<char>, ts: u32|
                                #[trigger] occurs(done2, c, ts) && retained(c) implies exists|jj: int|
                                0 <= jj < av.len() && (#[trigger] av[jj]).command == c by {
                                lemma_occurs_push(done, itv, c, ts);
                                if occurs(done, c, ts) {
                                } else {
                                    assert(av[fidx as int].command == c);
                                }
                            }
                        }
                    }
                } else {
                    proof {
                        assert(itv == Ok::<RecordV, ParseErrorV>(rec@));
                    }
                    acc.push(rec);
                    proof {
                        let av2 = recs_view(acc@);
                        assert(av2 =~= av.push(av2.last()));
                        let newv = av2[av.len() as int];
                        assert forall|jj: int| 0 <= jj < av2.len() implies occurs(
                            done2,
                            (#[trigger] av2[jj]).command,
                            av2[jj].timestamp,
                        ) by {
                            lemma_occurs_push(done, itv, av2[jj].command, av2[jj].timestamp);
                        }
                        assert forall|jj: int, ts: u32|
                            0 <= jj < av2.len() && #[trigger] occurs(done2, av2[jj].command, ts)
                            implies ts <= av2[jj].timestamp by {
                            lemma_occurs_push(done, itv, av2[jj].command, ts);
                            if occurs(done, av2[jj].command, ts) {
                                if jj < av.len() {
                                    assert(ts <= av[jj].timestamp);
                                } else {
                                    // an earlier retained occurrence of this command would
                                    // already have a slot, contradicting the failed scan
                                    assert(av2[jj].command == newv.command);
                                    assert(retained(newv.command));
                                    let w = choose|w: int|
                                        0 <= w < av.len() && (#[trigger] av[w]).command
                                            == newv.command;
                                    assert(false);
                                }
                            } else {
                                assert(av2[jj].command == newv.command);
                                if jj < av.len() {
                                    assert(false);
                                }
                                assert(ts == newv.timestamp);
                            }
                        }
                        assert forall|c: Seq<char>, ts: u32|
                            #[trigger] occurs(done2, c, ts) && retained(c) implies exists|jj: int|
                            0 <= jj < av2.len() && (#[trigger] av2[jj]).command == c by {
                            lemma_occurs_push(done, itv, c, ts);
                            if occurs(done, c, ts) {
                                let w = choose|jj: int|
                                    0 <= jj < av.len() && (#[trigger] av[jj]).command == c;
                                assert(av2[w].command == c);
                            } else {
                                assert(av2[av.len() as int].command == c);
                            }
                        }
                        assert forall|j1: int, j2: int| 0 <= j1 < j2 < av2.len() implies (
                        #[trigger] av2[j1]).command != (#[trigger] av2[j2]).command by {
                            if j2 == av.len() {
                                assert(av2[j1].command == av[j1].command);
                            }
                        }
                    }
                }
            }
        },
    }
}

proof fn lemma_count_le_one(s: Seq<RecordV>)
    requires
        forall|j1: int, j2: int|
            0 <= j1 < j2 < s.len() ==> (#[trigger] s[j1]).command != (#[trigger] s[j2]).command,
    ensures
        forall|x: RecordV| #[trigger] s.to_multiset().count(x) <= 1,
    decreases s.len(),
{
    broadcast use vstd::seq_lib::group_to_multiset_ensures;

    if s.len() == 0 {
        assert(s.to_multiset() =~= Multiset::<RecordV>::empty());
    } else {
        let head = s[0];
        let tail = s.remove(0);
        assert(tail.to_multiset() =~= s.to_multiset().remove(head));
        lemma_count_le_one(tail);
        assert forall|x: RecordV| #[trigger] s.to_multiset().count(x) <= 1 by {
            if x == head {
                if tail.to_multiset().count(head) > 0 {
                    assert(tail.contains(head));
                    let w = choose|w: int| 0 <= w < tail.len() && tail[w] == head;
                    assert(s[w + 1] == tail[w]);
                    assert(s[0].command == s[w + 1].command);
                    assert(false);
                }
                assert(s.to_multiset().count(x) == tail.to_multiset().count(x) + 1);
            } else {
                assert(s.to_multiset().count(x) == tail.to_multiset().count(x));
            }
        }
    }
}

proof fn lemma_two_indices_count(s: Seq<RecordV>, j1: int, j2: int)
    requires
        0 <= j1 < j2 < s.len(),
        s[j1] == s[j2],
    ensures
        s.to_multiset().count(s[j1]) >= 2,
{
    broadcast use vstd::seq_lib::group_to_multiset_ensures;

    let v = s[j1];
    let rest = s.remove(j1);
    assert(rest.to_multiset() =~= s.to_multiset().remove(v));
    assert(rest[j2 - 1] == s[j2]);
    assert(rest.contains(v));
    assert(rest.to_multiset().count(v) > 0);
    assert(s.to_multiset().count(v) == rest.to_multiset().count(v) + 1);
}

/// Deduplication is a property of the set of output records, so it survives
/// any reordering.
proof fn lemma_dedup_perm(items: Seq<ItemV>, a: Seq<RecordV>, b: Seq<RecordV>)
    requires
        dedup_of(items, a),
        a.to_multiset() == b.to_multiset(),
    ensures
        dedup_of(items, b),
{
    broadcast use vstd::seq_lib::group_to_multiset_ensures;

    assert forall|j: int| 0 <= j < b.len() implies retained((#[trigger] b[j]).command) && occurs(
        items,
        b[j].command,
        b[j].timestamp,
    ) by {
        assert(b.contains(b[j]));
        assert(b.to_multiset().count(b[j]) > 0);
        assert(a.contains(b[j]));
        let w = choose|w: int| 0 <= w < a.len() && a[w] == b[j];
        assert(retained(a[w].command));
        assert(occurs(items, a[w].command, a[w].timestamp));
    }
    assert forall|j: int, ts: u32|
        0 <= j < b.len() && #[trigger] occurs(items, b[j].command, ts) implies ts
        <= b[j].timestamp by {
        assert(b.contains(b[j]));
        assert(b.to_multiset().count(b[j]) > 0);
        assert(a.contains(b[j]));
        let w = choose|w: int| 0 <= w < a.len() && a[w] == b[j];
        assert(occurs(items, a[w].command, ts));
    }
    assert forall|c: Seq<char>, ts: u32|
        #[trigger] occurs(items, c, ts) && retained(c) implies exists|j: int|
        0 <= j < b.len() && (#[trigger] b[j]).command == c by {
        let w = choose|w: int| 0 <= w < a.len() && (#[trigger] a[w]).command == c;
        assert(a.contains(a[w]));
        assert(a.to_multiset().count(a[w]) > 0);
        assert(b.contains(a[w]));
        let u = choose|u: int| 0 <= u < b.len() && b[u] == a[w];
        assert(b[u].command == c);
    }
    assert forall|j1: int, j2: int| 0 <= j1 < j2 < b.len() implies (#[trigger] b[j1]).command != (
    #[trigger] b[j2]).command by {
        if b[j1].command == b[j2].command {
            // both carry the maximum timestamp for that command, so they are
            // equal values; but values appear at most once
            assert(occurs(items, b[j1].command, b[j1].timestamp));
            assert(occurs(items, b[j2].command, b[j2].timestamp));
            assert(b[j1].timestamp <= b[j2].timestamp);
            assert(b[j2].timestamp <= b[j1].timestamp);
            assert(b[j1] =~= b[j2]);
            lemma_two_indices_count(b, j1, j2);
            lemma_count_le_one(a);
            assert(a.to_multiset().count(b[j1]) >= 2);
            assert(false);
        }
    }
}

/// Why a run failed outright. Rule-set construction cannot fail (the
/// classification patterns are fixed and valid), so the one failure left is
/// an input whose every parse unit was dropped.
#[derive(Debug)]
pub enum HistoryError {
    /// Every parse unit was dropped: nothing valid was left to write.
    NoValidCommands { diagnostics: Vec<ParseError> },
}

impl HistoryError {
    /// A short description of the failure.
    pub fn to_string(&self) -> (r: String)
        ensures
            r@ == "no valid commands"@,
    {
        match self {
            HistoryError::NoValidCommands { .. } => String::from_str("no valid commands"),
        }
    }
}

/// The full pipeline against an already-built classifier: parse the text,
/// drop what the classifier rejects, deduplicate by command text keeping
/// the maximum timestamp, and sort. Succeeds exactly when at least one
/// retained record was parsed; otherwise everything was dropped and the run
/// fails with `NoValidCommands`. Per-unit parse errors are collected as
/// diagnostics either way.
pub fn clean_history_with(cx: &Classifier, input: &str) -> (r: Result<
    HistoryCommands,
    HistoryError,
>)
    ensures
        (match r {
            Ok(h) => {
                &&& is_clean_records(items_of(input@), recs_view(h.records@))
                &&& errs_view(h.diagnostics@) == errs_of(items_of(input@))
                &&& has_retained(items_of(input@))
            },
            Err(e) => {
                &&& e matches HistoryError::NoValidCommands { diagnostics }
                &&& !has_retained(items_of(input@))
                &&& (e matches HistoryError::NoValidCommands { diagnostics } ==> errs_view(
                    diagnostics@,
                ) == errs_of(items_of(input@)))
            },
        }),
{
    let chars = str_to_chars(input);
    let lines = split_lines(&chars);
    let ghost lv = lines@.map_values(|x: Vec<char>| x@);
    proof {
        assert(lv == split_lines_spec(input@));
    }
    let mut parser = Parser::new();
    let mut acc: Vec<Record> = Vec::new();
    let mut errs: Vec<ParseError> = Vec::new();
    let ghost mut done: Seq<ItemV> = Seq::empty();
    let n = lines.len();
    let mut i: usize = 0;
    proof {
        assert(done + run_from(parser@, lv, 0).items + opt_seq(
            close_spec(run_from(parser@, lv, 0).state),
        ) =~= parse_lines(lv));
        assert(recs_view(acc@) =~= Seq::<RecordV>::empty());
        assert(errs_view(errs@) =~= Seq::<ParseErrorV>::empty());
    }
    while i < n
        invariant
            n == lines@.len(),
            i <= n,
            lv == lines@.map_values(|x: Vec<char>| x@),
            state_wf(parser@),
            parse_lines(lv) == done + run_from(parser@, lv, i as int).items + opt_seq(
                close_spec(run_from(parser@, lv, i as int).state),
            ),
            dedup_of(done, recs_view(acc@)),
            errs_view(errs@) == errs_of(done),
            has_retained(done) <==> acc@.len() > 0,
        decreases n - i,
    {
        let ghost st0 = parser@;
        let ghost done0 = done;
        let out = parser.feed(&lines[i]);
        proof {
            assert(lines@[i as int]@ == lv[i as int]);
            assert(run_from(st0, lv, i as int).items =~= step_emit(st0, lv[i as int]) + run_from(
                parser@,
                lv,
                i as int + 1,
            ).items);
            assert(run_from(st0, lv, i as int).state == run_from(parser@, lv, i as int + 1).state);
        }
        match out {
            None => {
                proof {
                    assert(opt_seq(emit_view(None::<Result<Record, ParseError>>))
                        =~= Seq::<ItemV>::empty());
                    assert(step_emit(st0, lv[i as int]) =~= Seq::<ItemV>::empty());
                    assert(done + run_from(parser@, lv, i as int + 1).items + opt_seq(
                        close_spec(run_from(parser@, lv, i as int + 1).state),
                    ) =~= parse_lines(lv));
                }
            },
            Some(it) => {
                proof {
                    assert(step_emit(st0, lv[i as int]) =~= seq![item_view(it)]);
                }
                absorb(cx, &mut acc, &mut errs, it, Ghost(done));
                proof {
                    done = done.push(item_view(it));
                    assert(done =~= done0 + seq![item_view(it)]);
                    assert(done + run_from(parser@, lv, i as int + 1).items + opt_seq(
                        close_spec(run_from(parser@, lv, i as int + 1).state),
                    ) =~= parse_lines(lv));
                }
            },
        }
        i = i + 1;
    }
    let ghost stf = parser@;
    let last = parser.finish();
    proof {
        assert(run_from(stf, lv, n as int).items =~= Seq::<ItemV>::empty());
        assert(run_from(stf, lv, n as int).state == stf);
        assert(parse_lines(lv) =~= done + opt_seq(close_spec(stf)));
    }
    match last {
        None => {
            proof {
                assert(opt_seq(close_spec(stf)) =~= Seq::<ItemV>::empty());
                assert(done =~= parse_lines(lv));
            }
        },
        Some(it) => {
            proof {
                assert(opt_seq(close_spec(stf)) =~= seq![item_view(it)]);
            }
            absorb(cx, &mut acc, &mut errs, it, Ghost(done));
            proof {
                done = done.push(item_view(it));
                assert(done =~= parse_lines(lv));
            }
        },
    }
    proof {
        assert(done == items_of(input@));
    }
    if acc.len() == 0 {
        Err(HistoryError::NoValidCommands { diagnostics: errs })
    } else {
        let ghost before = recs_view(acc@);
        let records = sort_records(acc);
        proof {
            lemma_dedup_perm(done, before, recs_view(records@));
        }
        Ok(HistoryCommands { records, diagnostics: errs })
    }
}

/// The pipeline from the raw history text: builds the fixed rule sets, then
/// runs `clean_history_with`. Succeeds exactly when at least one retained
/// record was parsed.
pub fn clean_history(input: &str) -> (r: Result<HistoryCommands, HistoryError>)
    ensures
        (match r {
            Ok(h) => {
                &&& is_clean_records(items_of(input@), recs_view(h.records@))
                &&& errs_view(h.diagnostics@) == errs_of(items_of(input@))
                &&& has_retained(items_of(input@))
            },
            Err(e) => {
                &&& e matches HistoryError::NoValidCommands { diagnostics }
                &&& !has_retained(items_of(input@))
                &&& (e matches HistoryError::NoValidCommands { diagnostics } ==> errs_view(
                    diagnostics@,
                ) == errs_of(items_of(input@)))
            },
        }),
{
    let cx = Classifier::new().unwrap();
    clean_history_with(&cx, input)
}

} // verus!
