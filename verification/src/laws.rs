//! The library's global laws: the deduplication guarantee in explicit form,
//! and idempotence — re-running the pipeline on its own rendered output
//! changes nothing.

use vstd::prelude::*;
use crate::text::{is_digit, dec_val, dec_str, digit_char, normalize_spec, strip_semis, ws_norm,
    trim_spec, norm_shape, lemma_ws_norm_resume, split_lines_spec, split_from, strip_cr,
    is_space_char};
use crate::record::{RecordV, record_le, lemma_record_le_total, lemma_record_le_antisym};
use crate::parse::{ItemV, ParseErrorV, StateV, RunResult, init_state, state_wf, close_spec,
    step_state, step_emit, run_from, parse_lines, is_marker_spec};
use crate::pipeline::{items_of, occurs, dedup_of, sorted_rec, is_clean_records, render_spec,
    has_retained};
use crate::classify::retained;

verus! {

/// For every duplicated command text among the parsed records, only the
/// maximum timestamp survives: the cleaned output has a single record for
/// the command, it is one of the parsed occurrences, and no occurrence
/// exceeds it.
pub proof fn lemma_dedup_keeps_max(items: Seq<ItemV>, out: Seq<RecordV>, c: Seq<char>, ts: u32)
    requires
        is_clean_records(items, out),
        occurs(items, c, ts),
        retained(c),
    ensures
        exists|j: int|
            0 <= j < out.len() && (#[trigger] out[j]).command == c && ts <= out[j].timestamp
                && occurs(items, c, out[j].timestamp),
{
    let j = choose|j: int| 0 <= j < out.len() && (#[trigger] out[j]).command == c;
    assert(out[j].command == c && ts <= out[j].timestamp && occurs(items, c, out[j].timestamp));
}

proof fn lemma_strip_semis_last(s: Seq<char>)
    ensures
        strip_semis(s).len() > 0 ==> strip_semis(s).last() != ';',
    decreases s.len(),
{
    if s.len() > 0 && s.last() == ';' {
        lemma_strip_semis_last(s.drop_last());
    }
}

/// A record emitted by closing a unit has a non-empty command that does not
/// end in the join separator.
pub open spec fn item_ok_wf(it: ItemV) -> bool {
    match it {
        Ok(r) => r.command.len() > 0 && r.command.last() != ';',
        Err(_) => true,
    }
}

proof fn lemma_close_wf(st: StateV)
    ensures
        match close_spec(st) {
            Some(it) => item_ok_wf(it),
            None => true,
        },
{
    lemma_strip_semis_last(ws_norm(st.buffer));
}

proof fn lemma_run_items_wf(st: StateV, lines: Seq<Seq<char>>, i: int)
    ensures
        forall|k: int|
            0 <= k < run_from(st, lines, i).items.len() ==> item_ok_wf(
                #[trigger] run_from(st, lines, i).items[k],
            ),
    decreases lines.len() - i,
{
    if 0 <= i < lines.len() {
        lemma_close_wf(st);
        lemma_run_items_wf(step_state(st, lines[i]), lines, i + 1);
        let r = run_from(st, lines, i);
        let rest = run_from(step_state(st, lines[i]), lines, i + 1);
        assert forall|k: int| 0 <= k < r.items.len() implies item_ok_wf(
            #[trigger] r.items[k],
        ) by {
            let head = step_emit(st, lines[i]);
            if k >= head.len() {
                assert(r.items[k] == rest.items[k - head.len()]);
            }
        }
    }
}

/// The record invariant of the data model: every record the parser emits
/// carries a command that is non-empty after whitespace normalization, and
/// that does not end in the multi-line join separator.
pub proof fn lemma_parsed_records_wf(text: Seq<char>)
    ensures
        forall|k: int|
            0 <= k < items_of(text).len() ==> item_ok_wf(#[trigger] items_of(text)[k]),
{
    let lines = split_lines_spec(text);
    lemma_run_items_wf(init_state(), lines, 0);
    lemma_close_wf(run_from(init_state(), lines, 0).state);
    let r = run_from(init_state(), lines, 0);
    assert forall|k: int| 0 <= k < items_of(text).len() implies item_ok_wf(
        #[trigger] items_of(text)[k],
    ) by {
        if k < r.items.len() {
            assert(items_of(text)[k] == r.items[k]);
        }
    }
}

/// A command text that can appear unchanged on its own line of the rendered
/// output and parse back to itself: normal-shaped (so it round-trips
/// through trimming and whitespace normalization), non-empty, not ending in
/// a semicolon (so the joining separator strips back off), and not itself
/// shaped like a timestamp marker.
pub open spec fn cmd_fixed(c: Seq<char>) -> bool {
    &&& c.len() > 0
    &&& norm_shape(c)
    &&& c.last() != ';'
    &&& !is_marker_spec(c)
}

pub open spec fn wf_out(out: Seq<RecordV>) -> bool {
    forall|j: int| 0 <= j < out.len() ==> cmd_fixed((#[trigger] out[j]).command)
}

pub open spec fn ok_items(recs: Seq<RecordV>) -> Seq<ItemV> {
    recs.map_values(|r: RecordV| Ok::<RecordV, ParseErrorV>(r))
}

proof fn lemma_dec_str_digits(n: nat)
    ensures
        dec_str(n).len() >= 1,
        forall|k: int| 0 <= k < dec_str(n).len() ==> is_digit(#[trigger] dec_str(n)[k]),
        dec_val(dec_str(n)) == n,
    decreases n,
{
    if n < 10 {
        assert(dec_str(n) =~= seq![digit_char(n)]);
        assert(dec_str(n).drop_last() =~= Seq::<char>::empty());
        assert(crate::text::digit_val(digit_char(n)) == n);
        assert(dec_str(n).len() == 1);
        assert(dec_str(n).last() == digit_char(n));
        assert(dec_val(Seq::<char>::empty()) == 0);
        assert(dec_val(dec_str(n)) == dec_val(dec_str(n).drop_last()) * 10 + crate::text::digit_val(
            dec_str(n).last(),
        ));
    } else {
        lemma_dec_str_digits(n / 10);
        let d = dec_str(n);
        assert(d =~= dec_str(n / 10).push(digit_char(n % 10)));
        assert(d.drop_last() =~= dec_str(n / 10));
        assert(forall|k: int|
            0 <= k < d.len() - 1 ==> #[trigger] d[k] == dec_str(n / 10)[k]);
        assert(d.last() == digit_char(n % 10));
        assert(crate::text::digit_val(digit_char(n % 10)) == n % 10);
        assert(dec_val(d) == dec_val(dec_str(n / 10)) * 10 + (n % 10));
    }
}

/// A normal-shaped text trims to itself.
proof fn lemma_trim_fixed(c: Seq<char>)
    requires
        norm_shape(c),
    ensures
        trim_spec(c) == c,
{
    if c.len() > 0 {
        assert(!is_space_char(c[0]));
        assert(!is_space_char(c.last()));
    }
}

/// Normalizing a fixed command with the joining separator appended yields
/// the command back.
proof fn lemma_normalize_fixed(c: Seq<char>)
    requires
        cmd_fixed(c),
    ensures
        normalize_spec(c + seq![';', ' ']) == c,
{
    lemma_ws_norm_resume(c, seq![';', ' ']);
    let s = c + seq![';', ' '];
    let n = c.len() as int;
    assert(s.len() == n + 2);
    assert(s[n] == ';');
    assert(s[n + 1] == ' ');
    assert(!is_space_char(';'));
    assert(crate::text::norm_acc(s, n, c, false) == crate::text::norm_acc(
        s,
        n + 1,
        c.push(';'),
        false,
    ));
    assert(crate::text::norm_acc(s, n + 1, c.push(';'), false) == crate::text::norm_acc(
        s,
        n + 2,
        c.push(';'),
        true,
    ));
    assert(crate::text::norm_acc(s, n + 2, c.push(';'), true) == c.push(';'));
    assert(ws_norm(s) =~= c.push(';'));
    assert(c.push(';').last() == ';');
    assert(c.push(';').drop_last() =~= c);
    assert(strip_semis(c.push(';')) == strip_semis(c));
    assert(strip_semis(c) == c);
}

proof fn lemma_split_shift(s1: Seq<char>, i1: int, s2: Seq<char>, i2: int, cur: Seq<char>)
    requires
        0 <= i1 <= s1.len(),
        0 <= i2 <= s2.len(),
        s1.subrange(i1, s1.len() as int) == s2.subrange(i2, s2.len() as int),
    ensures
        split_from(s1, i1, cur) == split_from(s2, i2, cur),
    decreases s1.len() - i1,
{
    let t1 = s1.subrange(i1, s1.len() as int);
    let t2 = s2.subrange(i2, s2.len() as int);
    if i1 < s1.len() {
        assert(t1.len() == t2.len());
        assert(i2 < s2.len());
        assert(s1[i1] == t1[0]);
        assert(s2[i2] == t2[0]);
        assert(s1.subrange(i1 + 1, s1.len() as int) =~= t1.drop_first());
        assert(s2.subrange(i2 + 1, s2.len() as int) =~= t2.drop_first());
        if s1[i1] == '\n' {
            lemma_split_shift(s1, i1 + 1, s2, i2 + 1, Seq::empty());
        } else {
            lemma_split_shift(s1, i1 + 1, s2, i2 + 1, cur.push(s1[i1]));
        }
    } else {
        assert(t1.len() == 0);
        assert(i2 == s2.len());
    }
}

proof fn lemma_split_walk(line: Seq<char>, rest: Seq<char>, j: int)
    requires
        forall|k: int| 0 <= k < line.len() ==> #[trigger] line[k] != '\n',
        0 <= j <= line.len(),
    ensures
        split_from(line + seq!['\n'] + rest, j, line.subrange(0, j)) == seq![strip_cr(line)]
            + split_lines_spec(rest),
    decreases line.len() - j,
{
    let s = line + seq!['\n'] + rest;
    if j < line.len() {
        assert(s[j] == line[j]);
        assert(line.subrange(0, j).push(line[j]) =~= line.subrange(0, j + 1));
        lemma_split_walk(line, rest, j + 1);
    } else {
        assert(s[j] == '\n');
        assert(line.subrange(0, j) =~= line);
        assert(s.subrange(j + 1, s.len() as int) =~= rest.subrange(0, rest.len() as int));
        assert(rest.subrange(0, rest.len() as int) =~= rest);
        lemma_split_shift(s, j + 1, rest, 0, Seq::empty());
    }
}

/// Splitting a newline-free line, a newline, and a remainder.
proof fn lemma_split_line(line: Seq<char>, rest: Seq<char>)
    requires
        forall|k: int| 0 <= k < line.len() ==> #[trigger] line[k] != '\n',
    ensures
        split_lines_spec(line + seq!['\n'] + rest) == seq![strip_cr(line)] + split_lines_spec(
            rest,
        ),
{
    assert(line.subrange(0, 0) =~= Seq::<char>::empty());
    lemma_split_walk(line, rest, 0);
}

proof fn lemma_run_shift(st: StateV, l1: Seq<Seq<char>>, i1: int, l2: Seq<Seq<char>>, i2: int)
    requires
        0 <= i1 <= l1.len(),
        0 <= i2 <= l2.len(),
        l1.subrange(i1, l1.len() as int) == l2.subrange(i2, l2.len() as int),
    ensures
        run_from(st, l1, i1) == run_from(st, l2, i2),
    decreases l1.len() - i1,
{
    let t1 = l1.subrange(i1, l1.len() as int);
    let t2 = l2.subrange(i2, l2.len() as int);
    if i1 < l1.len() {
        assert(t1.len() == t2.len());
        assert(i2 < l2.len());
        assert(l1[i1] == t1[0]);
        assert(l2[i2] == t2[0]);
        assert(l1.subrange(i1 + 1, l1.len() as int) =~= t1.drop_first());
        assert(l2.subrange(i2 + 1, l2.len() as int) =~= t2.drop_first());
        lemma_run_shift(step_state(st, l1[i1]), l1, i1 + 1, l2, i2 + 1);
        assert(run_from(st, l1, i1) =~= run_from(st, l2, i2));
    } else {
        assert(t1.len() == 0);
        assert(i2 == l2.len());
        assert(run_from(st, l1, i1) =~= run_from(st, l2, i2));
    }
}

/// The record whose marker digits are `dec_str(ts)` and whose buffer holds
/// `cmd` with the separator closes to exactly `Ok((ts, cmd))`.
proof fn lemma_close_fixed(ts: u32, cmd: Seq<char>)
    requires
        cmd_fixed(cmd),
    ensures
        close_spec(StateV { pending: Some(dec_str(ts as nat)), buffer: cmd + seq![';', ' '] })
            == Some(Ok::<RecordV, ParseErrorV>(RecordV { timestamp: ts, command: cmd })),
{
    lemma_dec_str_digits(ts as nat);
    lemma_normalize_fixed(cmd);
}

/// Running the machine over the rendering of `rest`, starting with a
/// pending unit `(ts, cmd)`, yields that unit and then the records of
/// `rest`, in order.
#[verifier::rlimit(100)]
proof fn lemma_run_render(ts: u32, cmd: Seq<char>, rest: Seq<RecordV>)
    requires
        cmd_fixed(cmd),
        wf_out(rest),
    ensures
        ({
            let st = StateV { pending: Some(dec_str(ts as nat)), buffer: cmd + seq![';', ' '] };
            let r = run_from(st, split_lines_spec(render_spec(rest)), 0);
            r.items + crate::parse::opt_seq(close_spec(r.state)) == seq![
                Ok::<RecordV, ParseErrorV>(RecordV { timestamp: ts, command: cmd }),
            ] + ok_items(rest)
        }),
    decreases rest.len(),
{
    let st = StateV { pending: Some(dec_str(ts as nat)), buffer: cmd + seq![';', ' '] };
    lemma_close_fixed(ts, cmd);
    if rest.len() == 0 {
        assert(render_spec(rest) =~= Seq::<char>::empty());
        assert(split_lines_spec(render_spec(rest)) =~= Seq::<Seq<char>>::empty());
        let r = run_from(st, split_lines_spec(render_spec(rest)), 0);
        assert(r.state == st && r.items =~= Seq::<ItemV>::empty());
        assert(ok_items(rest) =~= Seq::<ItemV>::empty());
        assert(r.items + crate::parse::opt_seq(close_spec(r.state)) =~= seq![
            Ok::<RecordV, ParseErrorV>(RecordV { timestamp: ts, command: cmd }),
        ] + ok_items(rest));
    } else {
        let r0 = rest[0];
        let tail = rest.drop_first();
        lemma_dec_str_digits(r0.timestamp as nat);
        let m0 = seq!['#'] + dec_str(r0.timestamp as nat);
        let c0 = r0.command;
        assert(cmd_fixed(c0));
        // the rendered text decomposes into the first two lines and the rest
        assert(render_spec(rest) =~= m0 + seq!['\n'] + (c0 + seq!['\n'] + render_spec(tail)));
        assert(forall|k: int| 0 <= k < m0.len() ==> #[trigger] m0[k] != '\n');
        assert(forall|k: int| 0 <= k < c0.len() && is_space_char(#[trigger] c0[k]) ==> c0[k] == ' ');
        assert(forall|k: int| 0 <= k < c0.len() ==> #[trigger] c0[k] != '\n');
        lemma_split_line(m0, c0 + seq!['\n'] + render_spec(tail));
        lemma_split_line(c0, render_spec(tail));
        assert(strip_cr(m0) == m0);
        assert(strip_cr(c0) == c0);
        let lines = split_lines_spec(render_spec(rest));
        assert(lines =~= seq![m0, c0] + split_lines_spec(render_spec(tail)));
        // first line: a marker closes the pending unit
        assert(is_marker_spec(m0));
        assert(st.buffer.len() > 0);
        assert(step_emit(st, m0) =~= seq![
            Ok::<RecordV, ParseErrorV>(RecordV { timestamp: ts, command: cmd }),
        ]);
        let st1 = step_state(st, m0);
        assert(m0.drop_first() =~= dec_str(r0.timestamp as nat));
        assert(st1 == StateV { pending: Some(dec_str(r0.timestamp as nat)), buffer: Seq::<char>::empty() });
        // second line: the command accumulates
        assert(!is_marker_spec(c0));
        lemma_trim_fixed(c0);
        let st2 = step_state(st1, c0);
        assert(step_emit(st1, c0) =~= Seq::<ItemV>::empty());
        assert(st2.buffer =~= c0 + seq![';', ' ']);
        assert(st2 =~= StateV { pending: Some(dec_str(r0.timestamp as nat)), buffer: c0 + seq![';', ' '] });
        // the rest of the lines are the rendering of the tail
        assert(lines.subrange(2, lines.len() as int) =~= split_lines_spec(render_spec(tail)).subrange(
            0,
            split_lines_spec(render_spec(tail)).len() as int,
        ));
        assert(split_lines_spec(render_spec(tail)).subrange(
            0,
            split_lines_spec(render_spec(tail)).len() as int,
        ) =~= split_lines_spec(render_spec(tail)));
        lemma_run_shift(st2, lines, 2, split_lines_spec(render_spec(tail)), 0);
        assert(wf_out(tail));
        lemma_run_render(r0.timestamp, c0, tail);
        // stitch the two unfolding steps together
        assert(lines[0] == m0);
        assert(lines[1] == c0);
        assert(lines.len() >= 2);
        let rin = run_from(st2, lines, 2);
        let r1 = run_from(st1, lines, 1);
        assert(r1 == RunResult { state: rin.state, items: step_emit(st1, lines[1]) + rin.items });
        assert(run_from(st, lines, 0) == RunResult {
            state: r1.state,
            items: step_emit(st, lines[0]) + r1.items,
        });
        let r = run_from(st, lines, 0);
        assert(ok_items(rest) =~= seq![Ok::<RecordV, ParseErrorV>(r0)] + ok_items(tail));
        assert(r.items + crate::parse::opt_seq(close_spec(r.state)) =~= seq![
            Ok::<RecordV, ParseErrorV>(RecordV { timestamp: ts, command: cmd }),
        ] + ok_items(rest));
    }
}

/// Parsing the rendered output yields exactly its records, in order, with
/// no errors.
#[verifier::rlimit(100)]
proof fn lemma_parse_of_render(out: Seq<RecordV>)
    requires
        wf_out(out),
    ensures
        items_of(render_spec(out)) == ok_items(out),
{
    if out.len() == 0 {
        assert(render_spec(out) =~= Seq::<char>::empty());
        assert(split_lines_spec(render_spec(out)) =~= Seq::<Seq<char>>::empty());
        assert(items_of(render_spec(out)) =~= ok_items(out));
    } else {
        let r0 = out[0];
        let tail = out.drop_first();
        lemma_dec_str_digits(r0.timestamp as nat);
        let m0 = seq!['#'] + dec_str(r0.timestamp as nat);
        let c0 = r0.command;
        assert(cmd_fixed(c0));
        assert(render_spec(out) =~= m0 + seq!['\n'] + (c0 + seq!['\n'] + render_spec(tail)));
        assert(forall|k: int| 0 <= k < m0.len() ==> #[trigger] m0[k] != '\n');
        assert(forall|k: int| 0 <= k < c0.len() && is_space_char(#[trigger] c0[k]) ==> c0[k] == ' ');
        assert(forall|k: int| 0 <= k < c0.len() ==> #[trigger] c0[k] != '\n');
        lemma_split_line(m0, c0 + seq!['\n'] + render_spec(tail));
        lemma_split_line(c0, render_spec(tail));
        assert(strip_cr(m0) == m0);
        assert(strip_cr(c0) == c0);
        let lines = split_lines_spec(render_spec(out));
        assert(lines =~= seq![m0, c0] + split_lines_spec(render_spec(tail)));
        let st0 = init_state();
        assert(is_marker_spec(m0));
        assert(step_emit(st0, m0) =~= Seq::<ItemV>::empty());
        let st1 = step_state(st0, m0);
        assert(m0.drop_first() =~= dec_str(r0.timestamp as nat));
        assert(!is_marker_spec(c0));
        lemma_trim_fixed(c0);
        let st2 = step_state(st1, c0);
        assert(step_emit(st1, c0) =~= Seq::<ItemV>::empty());
        assert(st2.buffer =~= c0 + seq![';', ' ']);
        assert(st2 =~= StateV { pending: Some(dec_str(r0.timestamp as nat)), buffer: c0 + seq![';', ' '] });
        assert(lines.subrange(2, lines.len() as int) =~= split_lines_spec(render_spec(tail)).subrange(
            0,
            split_lines_spec(render_spec(tail)).len() as int,
        ));
        assert(split_lines_spec(render_spec(tail)).subrange(
            0,
            split_lines_spec(render_spec(tail)).len() as int,
        ) =~= split_lines_spec(render_spec(tail)));
        lemma_run_shift(st2, lines, 2, split_lines_spec(render_spec(tail)), 0);
        assert(wf_out(tail));
        lemma_run_render(r0.timestamp, c0, tail);
        assert(lines[0] == m0);
        assert(lines[1] == c0);
        assert(lines.len() >= 2);
        let rin = run_from(st2, lines, 2);
        let r1 = run_from(st1, lines, 1);
        assert(r1 == RunResult { state: rin.state, items: step_emit(st1, lines[1]) + rin.items });
        assert(run_from(st0, lines, 0) == RunResult {
            state: r1.state,
            items: step_emit(st0, lines[0]) + r1.items,
        });
        assert(ok_items(out) =~= seq![Ok::<RecordV, ParseErrorV>(r0)] + ok_items(tail));
        assert(parse_lines(lines) =~= ok_items(out));
    }
}

/// Two clean outputs of the same parse are the same sequence: sorted order
/// with distinct commands and the same record set is unique.
proof fn lemma_sorted_unique(a: Seq<RecordV>, b: Seq<RecordV>)
    requires
        sorted_rec(a),
        sorted_rec(b),
        forall|j1: int, j2: int|
            0 <= j1 < j2 < a.len() ==> (#[trigger] a[j1]).command != (#[trigger] a[j2]).command,
        forall|j1: int, j2: int|
            0 <= j1 < j2 < b.len() ==> (#[trigger] b[j1]).command != (#[trigger] b[j2]).command,
        forall|x: RecordV| a.contains(x) <==> b.contains(x),
    ensures
        a == b,
    decreases a.len(),
{
    if a.len() == 0 {
        if b.len() > 0 {
            assert(b.contains(b[0]));
            assert(a.contains(b[0]));
            assert(false);
        }
        assert(a =~= b);
    } else {
        assert(a.contains(a[0]));
        assert(b.contains(a[0]));
        assert(b.len() > 0);
        assert(b.contains(b[0]));
        assert(a.contains(b[0]));
        let ka = choose|k: int| 0 <= k < a.len() && a[k] == b[0];
        let kb = choose|k: int| 0 <= k < b.len() && b[k] == a[0];
        lemma_record_le_total(a[0], a[0]);
        assert(record_le(a[0], a[ka]));
        assert(record_le(b[0], b[kb]));
        lemma_record_le_antisym(a[0], b[0]);
        assert(a[0] == b[0]);
        let ta = a.drop_first();
        let tb = b.drop_first();
        assert forall|x: RecordV| ta.contains(x) implies tb.contains(x) by {
            let j = choose|j: int| 0 <= j < ta.len() && ta[j] == x;
            assert(a[j + 1] == x);
            assert(a.contains(x));
            assert(b.contains(x));
            let k = choose|k: int| 0 <= k < b.len() && b[k] == x;
            if k == 0 {
                assert(a[j + 1] == b[0]);
                assert(a[0].command == a[j + 1].command);
                assert(false);
            }
            assert(tb[k - 1] == x);
        }
        assert forall|x: RecordV| tb.contains(x) implies ta.contains(x) by {
            let j = choose|j: int| 0 <= j < tb.len() && tb[j] == x;
            assert(b[j + 1] == x);
            assert(b.contains(x));
            assert(a.contains(x));
            let k = choose|k: int| 0 <= k < a.len() && a[k] == x;
            if k == 0 {
                assert(b[j + 1] == a[0]);
                assert(b[0].command == b[j + 1].command);
                assert(false);
            }
            assert(ta[k - 1] == x);
        }
        assert(forall|j1: int, j2: int|
            0 <= j1 < j2 < ta.len() ==> (#[trigger] ta[j1]).command != (#[trigger] ta[j2]).command);
        assert(forall|j1: int, j2: int|
            0 <= j1 < j2 < tb.len() ==> (#[trigger] tb[j1]).command != (#[trigger] tb[j2]).command);
        assert(sorted_rec(ta));
        assert(sorted_rec(tb));
        lemma_sorted_unique(ta, tb);
        assert(a =~= seq![a[0]] + ta);
        assert(b =~= seq![b[0]] + tb);
    }
}

/// The clean output of a parse is unique.
pub proof fn lemma_clean_output_unique(items: Seq<ItemV>, a: Seq<RecordV>, b: Seq<RecordV>)
    requires
        is_clean_records(items, a),
        is_clean_records(items, b),
    ensures
        a == b,
{
    assert forall|x: RecordV| a.contains(x) implies b.contains(x) by {
        let j = choose|j: int| 0 <= j < a.len() && a[j] == x;
        assert(occurs(items, x.command, x.timestamp));
        assert(retained(x.command));
        let k = choose|k: int| 0 <= k < b.len() && (#[trigger] b[k]).command == x.command;
        assert(x.timestamp <= b[k].timestamp);
        assert(occurs(items, b[k].command, b[k].timestamp));
        assert(b[k].timestamp <= a[j].timestamp);
        assert(b[k] =~= x);
        assert(b.contains(b[k]));
    }
    assert forall|x: RecordV| b.contains(x) implies a.contains(x) by {
        let j = choose|j: int| 0 <= j < b.len() && b[j] == x;
        assert(occurs(items, x.command, x.timestamp));
        assert(retained(x.command));
        let k = choose|k: int| 0 <= k < a.len() && (#[trigger] a[k]).command == x.command;
        assert(x.timestamp <= a[k].timestamp);
        assert(occurs(items, a[k].command, a[k].timestamp));
        assert(a[k].timestamp <= b[j].timestamp);
        assert(a[k] =~= x);
        assert(a.contains(a[k]));
    }
    lemma_sorted_unique(a, b);
}

/// Idempotence: a clean output whose commands can stand on their own lines
/// is itself the clean output of its own rendering, so a second pass of the
/// pipeline reproduces it exactly.
pub proof fn lemma_pipeline_idempotent(text: Seq<char>, out: Seq<RecordV>)
    requires
        is_clean_records(items_of(text), out),
        wf_out(out),
    ensures
        is_clean_records(items_of(render_spec(out)), out),
        forall|out2: Seq<RecordV>|
            is_clean_records(#[trigger] items_of(render_spec(out)), out2) ==> out2 == out,
{
    lemma_parse_of_render(out);
    let items2 = items_of(render_spec(out));
    assert(items2 == ok_items(out));
    assert(items2.len() == out.len());
    assert forall|j: int| 0 <= j < out.len() implies occurs(
        items2,
        (#[trigger] out[j]).command,
        out[j].timestamp,
    ) by {
        assert(items2[j] == Ok::<RecordV, ParseErrorV>(out[j]));
        assert(items2[j] == Ok::<RecordV, ParseErrorV>(RecordV {
            timestamp: out[j].timestamp,
            command: out[j].command,
        }));
    }
    assert forall|j: int, ts: u32|
        0 <= j < out.len() && #[trigger] occurs(items2, out[j].command, ts) implies ts
        <= out[j].timestamp by {
        let i = choose|i: int|
            0 <= i < items2.len() && #[trigger] items2[i] == Ok::<RecordV, ParseErrorV>(RecordV {
                timestamp: ts,
                command: out[j].command,
            });
        assert(items2[i] == Ok::<RecordV, ParseErrorV>(out[i]));
        assert(out[i].command == out[j].command);
        if i != j {
            assert(false);
        }
        assert(ts == out[j].timestamp);
    }
    assert forall|c: Seq<char>, ts: u32|
        #[trigger] occurs(items2, c, ts) && retained(c) implies exists|j: int|
        0 <= j < out.len() && (#[trigger] out[j]).command == c by {
        let i = choose|i: int|
            0 <= i < items2.len() && #[trigger] items2[i] == Ok::<RecordV, ParseErrorV>(RecordV {
                timestamp: ts,
                command: c,
            });
        assert(items2[i] == Ok::<RecordV, ParseErrorV>(out[i]));
        assert(out[i].command == c);
    }
    assert(dedup_of(items2, out));
    assert forall|out2: Seq<RecordV>|
        is_clean_records(#[trigger] items_of(render_spec(out)), out2) implies out2 == out by {
        lemma_clean_output_unique(items2, out, out2);
    }
}

} // verus!
