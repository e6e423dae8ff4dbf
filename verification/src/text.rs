//! Character-sequence utilities: the whitespace model, trimming, line
//! splitting, whitespace normalization, trailing-semicolon stripping,
//! decimal digits, and lexicographic order on character sequences.

use vstd::prelude::*;

verus! {

/// The whitespace characters recognized by this library: the Unicode
/// `White_Space` set.
pub open spec fn is_space_char(c: char) -> bool {
    c == ' ' || c == '\t' || c == '\n' || c == '\r' || c == '\x0b' || c == '\x0c'
        || c == '\u{85}' || c == '\u{a0}' || c == '\u{1680}'
        || ('\u{2000}' as u32 <= c as u32 && c as u32 <= '\u{200a}' as u32)
        || c == '\u{2028}' || c == '\u{2029}' || c == '\u{202f}' || c == '\u{205f}'
        || c == '\u{3000}'
}

/// Executable test for `is_space_char`.
pub fn is_space(c: char) -> (r: bool)
    ensures
        r == is_space_char(c),
{
    c == ' ' || c == '\t' || c == '\n' || c == '\r' || c == '\x0b' || c == '\x0c'
        || c == '\u{85}' || c == '\u{a0}' || c == '\u{1680}'
        || ((c as u32) >= 0x2000 && (c as u32) <= 0x200a)
        || c == '\u{2028}' || c == '\u{2029}' || c == '\u{202f}' || c == '\u{205f}'
        || c == '\u{3000}'
}

pub open spec fn drop_leading_spaces(s: Seq<char>) -> Seq<char>
    decreases s.len(),
{
    if s.len() > 0 && is_space_char(s[0]) {
        drop_leading_spaces(s.drop_first())
    } else {
        s
    }
}

pub open spec fn drop_trailing_spaces(s: Seq<char>) -> Seq<char>
    decreases s.len(),
{
    if s.len() > 0 && is_space_char(s.last()) {
        drop_trailing_spaces(s.drop_last())
    } else {
        s
    }
}

/// A line's content with leading and trailing whitespace removed.
pub open spec fn trim_spec(s: Seq<char>) -> Seq<char> {
    drop_trailing_spaces(drop_leading_spaces(s))
}

/// Splitting a text into lines, accumulator form: `cur` holds the characters
/// of the line being read, `i` is the position reached in `s`. A final line
/// without a terminating newline still counts; a lone trailing newline does
/// not produce an empty final line; one carriage return is stripped from the
/// end of each line.
pub open spec fn strip_cr(l: Seq<char>) -> Seq<char> {
    if l.len() > 0 && l.last() == '\r' {
        l.drop_last()
    } else {
        l
    }
}

pub open spec fn split_from(s: Seq<char>, i: int, cur: Seq<char>) -> Seq<Seq<char>>
    decreases s.len() - i,
{
    if i < 0 || i >= s.len() {
        if cur.len() == 0 {
            Seq::empty()
        } else {
            seq![strip_cr(cur)]
        }
    } else if s[i] == '\n' {
        seq![strip_cr(cur)] + split_from(s, i + 1, Seq::empty())
    } else {
        split_from(s, i + 1, cur.push(s[i]))
    }
}

/// The lines of a text, in order.
pub open spec fn split_lines_spec(s: Seq<char>) -> Seq<Seq<char>> {
    split_from(s, 0, Seq::empty())
}

/// Whitespace normalization, accumulator form: `out` holds the output built
/// so far, `pend` records that a separating space is owed before the next
/// non-whitespace character.
pub open spec fn norm_acc(s: Seq<char>, i: int, out: Seq<char>, pend: bool) -> Seq<char>
    decreases s.len() - i,
{
    if i < 0 || i >= s.len() {
        out
    } else if is_space_char(s[i]) {
        norm_acc(s, i + 1, out, out.len() > 0)
    } else if pend {
        norm_acc(s, i + 1, out + seq![' ', s[i]], false)
    } else {
        norm_acc(s, i + 1, out.push(s[i]), false)
    }
}

/// Whitespace normalization: every run of whitespace collapses to a single
/// space and leading and trailing whitespace disappears.
pub open spec fn ws_norm(s: Seq<char>) -> Seq<char> {
    norm_acc(s, 0, Seq::empty(), false)
}

/// All trailing semicolons removed.
pub open spec fn strip_semis(s: Seq<char>) -> Seq<char>
    decreases s.len(),
{
    if s.len() > 0 && s.last() == ';' {
        strip_semis(s.drop_last())
    } else {
        s
    }
}

/// The normal form of an accumulated command buffer: whitespace collapsed,
/// then trailing semicolons stripped.
pub open spec fn normalize_spec(s: Seq<char>) -> Seq<char> {
    strip_semis(ws_norm(s))
}

pub open spec fn is_digit(c: char) -> bool {
    '0' as u32 <= c as u32 && c as u32 <= '9' as u32
}

pub open spec fn digit_val(c: char) -> nat {
    (c as u32 - '0' as u32) as nat
}

/// The numeric value of a digit string, most significant digit first.
pub open spec fn dec_val(s: Seq<char>) -> nat
    decreases s.len(),
{
    if s.len() == 0 {
        0
    } else {
        dec_val(s.drop_last()) * 10 + digit_val(s.last())
    }
}

pub open spec fn digit_char(d: nat) -> char {
    if d == 0 { '0' }
    else if d == 1 { '1' }
    else if d == 2 { '2' }
    else if d == 3 { '3' }
    else if d == 4 { '4' }
    else if d == 5 { '5' }
    else if d == 6 { '6' }
    else if d == 7 { '7' }
    else if d == 8 { '8' }
    else { '9' }
}

/// The shortest decimal rendering of `n`, most significant digit first.
pub open spec fn dec_str(n: nat) -> Seq<char>
    decreases n,
{
    if n < 10 {
        seq![digit_char(n)]
    } else {
        dec_str(n / 10).push(digit_char(n % 10))
    }
}

/// Lexicographic order on character sequences by code point; a proper prefix
/// comes first.
pub open spec fn lex_le(a: Seq<char>, b: Seq<char>) -> bool
    decreases a.len(),
{
    if a.len() == 0 {
        true
    } else if b.len() == 0 {
        false
    } else if (a[0] as u32) < (b[0] as u32) {
        true
    } else if (a[0] as u32) > (b[0] as u32) {
        false
    } else {
        lex_le(a.drop_first(), b.drop_first())
    }
}

/// The characters of a string slice, in order.
pub fn str_to_chars(s: &str) -> (r: Vec<char>)
    ensures
        r@ == s@,
{
    let n = s.unicode_len();
    let mut r: Vec<char> = Vec::new();
    let mut i: usize = 0;
    while i < n
        invariant
            n == s@.len(),
            i <= n,
            r@ == s@.subrange(0, i as int),
        decreases n - i,
    {
        r.push(s.get_char(i));
        i = i + 1;
        proof {
            assert(r@ =~= s@.subrange(0, i as int));
        }
    }
    proof {
        assert(r@ =~= s@);
    }
    r
}

/// Relies on std's `FromIterator` impl for `String`: collecting an iterator
/// of characters yields the string holding exactly those characters in order.
#[verifier::external_body]
pub fn chars_to_string(v: &Vec<char>) -> (r: String)
    ensures
        r@ == v@,
{
    v.iter().collect()
}

/// Leading and trailing whitespace removed.
pub fn trim_chars(v: &Vec<char>) -> (r: Vec<char>)
    ensures
        r@ == trim_spec(v@),
{
    let n = v.len();
    proof {
        assert(v@.subrange(0, n as int) =~= v@);
    }
    let mut i: usize = 0;
    while i < n && is_space(v[i])
        invariant
            n == v@.len(),
            i <= n,
            drop_leading_spaces(v@) == drop_leading_spaces(v@.subrange(i as int, n as int)),
        decreases n - i,
    {
        proof {
            assert(v@.subrange(i as int, n as int).drop_first() =~= v@.subrange(
                i as int + 1,
                n as int,
            ));
        }
        i = i + 1;
    }
    proof {
        assert(drop_leading_spaces(v@) == v@.subrange(i as int, n as int));
    }
    let mut j: usize = n;
    while j > i && is_space(v[j - 1])
        invariant
            n == v@.len(),
            i <= j <= n,
            drop_leading_spaces(v@) == v@.subrange(i as int, n as int),
            drop_trailing_spaces(v@.subrange(i as int, n as int)) == drop_trailing_spaces(
                v@.subrange(i as int, j as int),
            ),
        decreases j,
    {
        proof {
            assert(v@.subrange(i as int, j as int).drop_last() =~= v@.subrange(
                i as int,
                j as int - 1,
            ));
        }
        j = j - 1;
    }
    proof {
        assert(trim_spec(v@) == v@.subrange(i as int, j as int));
    }
    let mut r: Vec<char> = Vec::new();
    let mut k: usize = i;
    while k < j
        invariant
            i <= k <= j <= v@.len(),
            r@ == v@.subrange(i as int, k as int),
        decreases j - k,
    {
        r.push(v[k]);
        k = k + 1;
        proof {
            assert(r@ =~= v@.subrange(i as int, k as int));
        }
    }
    r
}

/// One carriage return stripped from the end, if present.
fn strip_cr_exec(l: Vec<char>) -> (r: Vec<char>)
    ensures
        r@ == strip_cr(l@),
{
    let ghost l0 = l@;
    let mut v = l;
    if v.len() > 0 && v[v.len() - 1] == '\r' {
        v.pop();
        proof {
            assert(v@ =~= strip_cr(l0));
        }
    }
    v
}

proof fn lemma_deep_view_push(s: Seq<Vec<char>>, l: Vec<char>)
    ensures
        s.push(l).map_values(|x: Vec<char>| x@) == s.map_values(|x: Vec<char>| x@).push(l@),
{
    assert(s.push(l).map_values(|x: Vec<char>| x@) =~= s.map_values(|x: Vec<char>| x@).push(l@));
}

/// The lines of a text, split on newlines, one trailing carriage return
/// stripped from each.
pub fn split_lines(v: &Vec<char>) -> (r: Vec<Vec<char>>)
    ensures
        r@.map_values(|x: Vec<char>| x@) == split_lines_spec(v@),
{
    let n = v.len();
    let mut out: Vec<Vec<char>> = Vec::new();
    let mut cur: Vec<char> = Vec::new();
    let mut i: usize = 0;
    while i < n
        invariant
            n == v@.len(),
            i <= n,
            split_lines_spec(v@) == out@.map_values(|x: Vec<char>| x@) + split_from(
                v@,
                i as int,
                cur@,
            ),
        decreases n - i,
    {
        let c = v[i];
        if c == '\n' {
            let ghost cur0 = cur@;
            let ghost out0 = out@.map_values(|x: Vec<char>| x@);
            let line = strip_cr_exec(cur);
            proof {
                lemma_deep_view_push(out@, line);
            }
            out.push(line);
            cur = Vec::new();
            proof {
                assert(out@.map_values(|x: Vec<char>| x@) + split_from(v@, i as int + 1, cur@)
                    =~~= out0 + split_from(v@, i as int, cur0));
            }
        } else {
            cur.push(c);
        }
        i = i + 1;
    }
    if cur.len() > 0 {
        let ghost cur0 = cur@;
        let ghost out0 = out@.map_values(|x: Vec<char>| x@);
        let line = strip_cr_exec(cur);
        proof {
            lemma_deep_view_push(out@, line);
        }
        out.push(line);
        proof {
            assert(out@.map_values(|x: Vec<char>| x@) =~~= out0 + split_from(v@, n as int, cur0));
        }
    } else {
        proof {
            assert(out@.map_values(|x: Vec<char>| x@) =~~= out@.map_values(|x: Vec<char>| x@)
                + split_from(v@, n as int, cur@));
        }
    }
    out
}

/// Whitespace-normalizes a character sequence.
pub fn normalize_ws(v: &Vec<char>) -> (r: Vec<char>)
    ensures
        r@ == ws_norm(v@),
{
    let n = v.len();
    let mut out: Vec<char> = Vec::new();
    let mut pend = false;
    let mut i: usize = 0;
    while i < n
        invariant
            n == v@.len(),
            i <= n,
            ws_norm(v@) == norm_acc(v@, i as int, out@, pend),
        decreases n - i,
    {
        let c = v[i];
        if is_space(c) {
            pend = out.len() > 0;
        } else if pend {
            let ghost out0 = out@;
            out.push(' ');
            out.push(c);
            pend = false;
            proof {
                assert(out@ =~= out0 + seq![' ', c]);
            }
        } else {
            out.push(c);
        }
        i = i + 1;
    }
    out
}

/// All trailing semicolons removed.
pub fn strip_semis_exec(v: Vec<char>) -> (r: Vec<char>)
    ensures
        r@ == strip_semis(v@),
{
    let ghost v0 = v@;
    let mut v = v;
    while v.len() > 0 && v[v.len() - 1] == ';'
        invariant
            strip_semis(v0) == strip_semis(v@),
        decreases v@.len(),
    {
        v.pop();
    }
    v
}

/// The normal form of a command buffer: whitespace collapsed to single
/// spaces, then trailing semicolons stripped.
pub fn normalize_command(v: &Vec<char>) -> (r: Vec<char>)
    ensures
        r@ == normalize_spec(v@),
{
    let w = normalize_ws(v);
    strip_semis_exec(w)
}

fn digit_char_exec(d: u32) -> (c: char)
    requires
        d < 10,
    ensures
        c == digit_char(d as nat),
{
    if d == 0 { '0' }
    else if d == 1 { '1' }
    else if d == 2 { '2' }
    else if d == 3 { '3' }
    else if d == 4 { '4' }
    else if d == 5 { '5' }
    else if d == 6 { '6' }
    else if d == 7 { '7' }
    else if d == 8 { '8' }
    else { '9' }
}

/// The decimal rendering of `n`.
pub fn u32_chars(n: u32) -> (r: Vec<char>)
    ensures
        r@ == dec_str(n as nat),
    decreases n,
{
    if n < 10 {
        let mut v: Vec<char> = Vec::new();
        v.push(digit_char_exec(n));
        proof {
            assert(v@ =~= dec_str(n as nat));
        }
        v
    } else {
        let mut v = u32_chars(n / 10);
        v.push(digit_char_exec(n % 10));
        v
    }
}

proof fn lemma_dec_val_step(s: Seq<char>, i: int)
    requires
        0 <= i < s.len(),
    ensures
        dec_val(s.subrange(0, i + 1)) == dec_val(s.subrange(0, i)) * 10 + digit_val(s[i]),
{
    assert(s.subrange(0, i + 1).drop_last() =~= s.subrange(0, i));
    assert(s.subrange(0, i + 1).last() == s[i]);
}

proof fn lemma_dec_val_grows(s: Seq<char>, i: int)
    requires
        0 <= i <= s.len(),
        forall|k: int| 0 <= k < s.len() ==> is_digit(#[trigger] s[k]),
    ensures
        dec_val(s) >= dec_val(s.subrange(0, i)),
    decreases s.len() - i,
{
    if i == s.len() {
        assert(s.subrange(0, i) =~= s);
    } else {
        lemma_dec_val_step(s, i);
        lemma_dec_val_grows(s, i + 1);
    }
}

/// Parses a digit string as a 32-bit unsigned integer; fails exactly when
/// the value does not fit.
pub fn parse_u32(digits: &Vec<char>) -> (r: Option<u32>)
    requires
        forall|k: int| 0 <= k < digits@.len() ==> is_digit(#[trigger] digits@[k]),
    ensures
        match r {
            Some(v) => v as nat == dec_val(digits@) && dec_val(digits@) <= u32::MAX,
            None => dec_val(digits@) > u32::MAX,
        },
{
    let n = digits.len();
    let mut acc: u32 = 0;
    let mut i: usize = 0;
    while i < n
        invariant
            n == digits@.len(),
            i <= n,
            forall|k: int| 0 <= k < digits@.len() ==> is_digit(#[trigger] digits@[k]),
            acc as nat == dec_val(digits@.subrange(0, i as int)),
        decreases n - i,
    {
        let c = digits[i];
        let d: u32 = (c as u32) - 48;
        proof {
            lemma_dec_val_step(digits@, i as int);
        }
        if acc > (u32::MAX - d) / 10 {
            proof {
                lemma_dec_val_grows(digits@, i as int + 1);
            }
            return None;
        }
        acc = acc * 10 + d;
        i = i + 1;
    }
    proof {
        assert(digits@.subrange(0, n as int) =~= digits@);
    }
    Some(acc)
}

/// Executable lexicographic comparison.
pub fn lex_le_exec(a: &Vec<char>, b: &Vec<char>) -> (r: bool)
    ensures
        r == lex_le(a@, b@),
{
    let mut i: usize = 0;
    proof {
        assert(a@.skip(0) =~= a@);
        assert(b@.skip(0) =~= b@);
    }
    loop
        invariant
            i <= a@.len(),
            i <= b@.len(),
            lex_le(a@, b@) == lex_le(a@.skip(i as int), b@.skip(i as int)),
        decreases a@.len() - i,
    {
        if i == a.len() {
            return true;
        }
        if i == b.len() {
            return false;
        }
        let ca = a[i] as u32;
        let cb = b[i] as u32;
        proof {
            assert(a@.skip(i as int).drop_first() =~= a@.skip(i as int + 1));
            assert(b@.skip(i as int).drop_first() =~= b@.skip(i as int + 1));
        }
        if ca < cb {
            return true;
        }
        if ca > cb {
            return false;
        }
        i = i + 1;
    }
}

/// Executable equality of character sequences.
pub fn chars_eq(a: &Vec<char>, b: &Vec<char>) -> (r: bool)
    ensures
        r == (a@ == b@),
{
    if a.len() != b.len() {
        return false;
    }
    let n = a.len();
    let mut i: usize = 0;
    while i < n
        invariant
            n == a@.len() == b@.len(),
            i <= n,
            forall|k: int| 0 <= k < i ==> a@[k] == b@[k],
        decreases n - i,
    {
        if a[i] != b[i] {
            return false;
        }
        i = i + 1;
    }
    proof {
        assert(a@ =~= b@);
    }
    true
}

/// The shape of a whitespace-normalized text: the only whitespace character
/// left is the single space, no two spaces are adjacent, and neither end is
/// whitespace.
pub open spec fn norm_shape(t: Seq<char>) -> bool {
    &&& (forall|i: int| 0 <= i < t.len() && is_space_char(#[trigger] t[i]) ==> t[i] == ' ')
    &&& (forall|i: int| #![trigger t[i]] 0 <= i && i + 1 < t.len() ==> !(t[i] == ' ' && t[i + 1] == ' '))
    &&& (t.len() > 0 ==> !is_space_char(t[0]) && !is_space_char(t.last()))
}

proof fn lemma_norm_acc_shape(s: Seq<char>, i: int, out: Seq<char>, pend: bool)
    requires
        0 <= i,
        norm_shape(out),
        pend ==> out.len() > 0,
    ensures
        norm_shape(norm_acc(s, i, out, pend)),
    decreases s.len() - i,
{
    if i < s.len() {
        if is_space_char(s[i]) {
            lemma_norm_acc_shape(s, i + 1, out, out.len() > 0);
        } else if pend {
            let out2 = out + seq![' ', s[i]];
            assert(out2[out.len() as int] == ' ');
            assert(out2[out.len() as int + 1] == s[i]);
            assert(forall|k: int| 0 <= k < out.len() ==> out2[k] == out[k]);
            assert(out2[0] == out[0]);
            assert(out2.last() == s[i]);
            assert(norm_shape(out2));
            lemma_norm_acc_shape(s, i + 1, out2, false);
        } else {
            let out2 = out.push(s[i]);
            assert(forall|k: int| 0 <= k < out.len() ==> out2[k] == out[k]);
            assert(out2.last() == s[i]);
            assert(norm_shape(out2));
            lemma_norm_acc_shape(s, i + 1, out2, false);
        }
    }
}

/// Any run of whitespace collapses to a single space and leading and
/// trailing whitespace is removed: the normalized text has the normal
/// shape.
pub proof fn lemma_ws_norm_shape(s: Seq<char>)
    ensures
        norm_shape(ws_norm(s)),
{
    lemma_norm_acc_shape(s, 0, Seq::empty(), false);
}

/// The state of the normalization walk over an already-normal text, at
/// position `i`: what has been emitted, and whether a separator is owed.
spec fn walk_out(u: Seq<char>, i: int) -> Seq<char> {
    if i > 0 && u[i - 1] == ' ' {
        u.subrange(0, i - 1)
    } else {
        u.subrange(0, i)
    }
}

spec fn walk_pend(u: Seq<char>, i: int) -> bool {
    i > 0 && u[i - 1] == ' '
}

proof fn lemma_norm_walk(u: Seq<char>, rest: Seq<char>, i: int)
    requires
        norm_shape(u),
        0 <= i <= u.len(),
    ensures
        norm_acc(u + rest, i, walk_out(u, i), walk_pend(u, i)) == norm_acc(
            u + rest,
            u.len() as int,
            u,
            false,
        ),
    decreases u.len() - i,
{
    let s = u + rest;
    if i == u.len() {
        assert(u.len() > 0 ==> u.last() != ' ');
        assert(walk_out(u, i) =~= u);
    } else {
        assert(s[i] == u[i]);
        lemma_norm_walk(u, rest, i + 1);
        if is_space_char(u[i]) {
            assert(u[i] == ' ');
            assert(i > 0);
            assert(u[i - 1] != ' ');
            assert(!walk_pend(u, i));
            assert(walk_out(u, i) =~= u.subrange(0, i));
            assert(walk_out(u, i).len() == i > 0);
            assert(walk_out(u, i + 1) =~= u.subrange(0, i));
            assert(walk_pend(u, i + 1));
        } else {
            if walk_pend(u, i) {
                assert(walk_out(u, i) + seq![' ', s[i]] =~= u.subrange(0, i + 1));
                assert(walk_out(u, i + 1) =~= u.subrange(0, i + 1));
                assert(!walk_pend(u, i + 1));
            } else {
                assert(walk_out(u, i).push(s[i]) =~= u.subrange(0, i + 1));
                assert(walk_out(u, i + 1) =~= u.subrange(0, i + 1));
                assert(!walk_pend(u, i + 1));
            }
        }
    }
}

/// A text of the normal shape, continued by `rest`, normalizes by first
/// emitting itself unchanged.
pub proof fn lemma_ws_norm_resume(u: Seq<char>, rest: Seq<char>)
    requires
        norm_shape(u),
    ensures
        ws_norm(u + rest) == norm_acc(u + rest, u.len() as int, u, false),
{
    lemma_norm_walk(u, rest, 0);
    assert(walk_out(u, 0) =~= Seq::<char>::empty());
}

/// Normalizing is idempotent: a second pass changes nothing.
pub proof fn lemma_ws_norm_idempotent(s: Seq<char>)
    ensures
        ws_norm(ws_norm(s)) == ws_norm(s),
{
    lemma_ws_norm_shape(s);
    let u = ws_norm(s);
    lemma_ws_norm_resume(u, Seq::empty());
    assert(u + Seq::<char>::empty() =~= u);
}

proof fn lemma_norm_acc_shift(s1: Seq<char>, i1: int, s2: Seq<char>, i2: int, out: Seq<char>, pend: bool)
    requires
        0 <= i1 <= s1.len(),
        0 <= i2 <= s2.len(),
        s1.subrange(i1, s1.len() as int) == s2.subrange(i2, s2.len() as int),
    ensures
        norm_acc(s1, i1, out, pend) == norm_acc(s2, i2, out, pend),
    decreases s1.len() - i1,
{
    let t1 = s1.subrange(i1, s1.len() as int);
    let t2 = s2.subrange(i2, s2.len() as int);
    if i1 < s1.len() {
        assert(t1.len() == t2.len());
        assert(i2 < s2.len());
        assert(s1[i1] == t1[0]);
        assert(s2[i2] == t2[0]);
        assert(s1.subrange(i1 + 1, s1.len() as int) =~= t1.drop_first());
        assert(s2.subrange(i2 + 1, s2.len() as int) =~= t2.drop_first());
        assert(s1.subrange(i1 + 1, s1.len() as int) == s2.subrange(i2 + 1, s2.len() as int));
        if is_space_char(s1[i1]) {
            lemma_norm_acc_shift(s1, i1 + 1, s2, i2 + 1, out, out.len() > 0);
        } else if pend {
            lemma_norm_acc_shift(s1, i1 + 1, s2, i2 + 1, out + seq![' ', s1[i1]], false);
        } else {
            lemma_norm_acc_shift(s1, i1 + 1, s2, i2 + 1, out.push(s1[i1]), false);
        }
    } else {
        assert(t1.len() == 0);
        assert(i2 == s2.len());
    }
}

proof fn lemma_collapse_aux(a: Seq<char>, c: char, d: char, b: Seq<char>, i: int, out: Seq<char>, pend: bool)
    requires
        is_space_char(c),
        is_space_char(d),
        0 <= i <= a.len(),
    ensures
        norm_acc(a + seq![c, d] + b, i, out, pend) == norm_acc(a + seq![d] + b, i, out, pend),
    decreases a.len() - i,
{
    let s1 = a + seq![c, d] + b;
    let s2 = a + seq![d] + b;
    if i < a.len() {
        assert(s1[i] == a[i]);
        assert(s2[i] == a[i]);
        if is_space_char(a[i]) {
            lemma_collapse_aux(a, c, d, b, i + 1, out, out.len() > 0);
            assert(norm_acc(s1, i, out, pend) == norm_acc(s1, i + 1, out, out.len() > 0));
            assert(norm_acc(s2, i, out, pend) == norm_acc(s2, i + 1, out, out.len() > 0));
        } else if pend {
            lemma_collapse_aux(a, c, d, b, i + 1, out + seq![' ', a[i]], false);
            assert(norm_acc(s1, i, out, pend) == norm_acc(s1, i + 1, out + seq![' ', a[i]], false));
            assert(norm_acc(s2, i, out, pend) == norm_acc(s2, i + 1, out + seq![' ', a[i]], false));
        } else {
            lemma_collapse_aux(a, c, d, b, i + 1, out.push(a[i]), false);
            assert(norm_acc(s1, i, out, pend) == norm_acc(s1, i + 1, out.push(a[i]), false));
            assert(norm_acc(s2, i, out, pend) == norm_acc(s2, i + 1, out.push(a[i]), false));
        }
    } else {
        assert(s1[i] == c);
        assert(s1[i + 1] == d);
        assert(s2[i] == d);
        assert(norm_acc(s1, i, out, pend) == norm_acc(s1, i + 1, out, out.len() > 0));
        assert(norm_acc(s1, i + 1, out, out.len() > 0) == norm_acc(s1, i + 2, out, out.len() > 0));
        assert(norm_acc(s2, i, out, pend) == norm_acc(s2, i + 1, out, out.len() > 0));
        assert(s1.subrange(i + 2, s1.len() as int) =~= s2.subrange(i + 1, s2.len() as int));
        lemma_norm_acc_shift(s1, i + 2, s2, i + 1, out, out.len() > 0);
    }
}

proof fn lemma_space_kind_aux(a: Seq<char>, c: char, b: Seq<char>, i: int, out: Seq<char>, pend: bool)
    requires
        is_space_char(c),
        0 <= i <= a.len(),
    ensures
        norm_acc(a + seq![c] + b, i, out, pend) == norm_acc(a + seq![' '] + b, i, out, pend),
    decreases a.len() - i,
{
    let s1 = a + seq![c] + b;
    let s2 = a + seq![' '] + b;
    if i < a.len() {
        assert(s1[i] == a[i]);
        assert(s2[i] == a[i]);
        if is_space_char(a[i]) {
            lemma_space_kind_aux(a, c, b, i + 1, out, out.len() > 0);
            assert(norm_acc(s1, i, out, pend) == norm_acc(s1, i + 1, out, out.len() > 0));
            assert(norm_acc(s2, i, out, pend) == norm_acc(s2, i + 1, out, out.len() > 0));
        } else if pend {
            lemma_space_kind_aux(a, c, b, i + 1, out + seq![' ', a[i]], false);
            assert(norm_acc(s1, i, out, pend) == norm_acc(s1, i + 1, out + seq![' ', a[i]], false));
            assert(norm_acc(s2, i, out, pend) == norm_acc(s2, i + 1, out + seq![' ', a[i]], false));
        } else {
            lemma_space_kind_aux(a, c, b, i + 1, out.push(a[i]), false);
            assert(norm_acc(s1, i, out, pend) == norm_acc(s1, i + 1, out.push(a[i]), false));
            assert(norm_acc(s2, i, out, pend) == norm_acc(s2, i + 1, out.push(a[i]), false));
        }
    } else {
        assert(s1[i] == c);
        assert(s2[i] == ' ');
        assert(norm_acc(s1, i, out, pend) == norm_acc(s1, i + 1, out, out.len() > 0));
        assert(norm_acc(s2, i, out, pend) == norm_acc(s2, i + 1, out, out.len() > 0));
        assert(s1.subrange(i + 1, s1.len() as int) =~= s2.subrange(i + 1, s2.len() as int));
        lemma_norm_acc_shift(s1, i + 1, s2, i + 1, out, out.len() > 0);
    }
}

/// Whitespace runs collapse regardless of how the text was wrapped: dropping
/// one whitespace character next to another changes nothing, and every
/// whitespace character acts as a plain space.
pub proof fn lemma_ws_norm_collapse(a: Seq<char>, c: char, d: char, b: Seq<char>)
    requires
        is_space_char(c),
        is_space_char(d),
    ensures
        ws_norm(a + seq![c, d] + b) == ws_norm(a + seq![d] + b),
        ws_norm(a + seq![c] + b) == ws_norm(a + seq![' '] + b),
{
    lemma_collapse_aux(a, c, d, b, 0, Seq::empty(), false);
    lemma_space_kind_aux(a, c, b, 0, Seq::empty(), false);
}

pub proof fn lemma_lex_le_total(a: Seq<char>, b: Seq<char>)
    ensures
        lex_le(a, b) || lex_le(b, a),
    decreases a.len(),
{
    if a.len() > 0 && b.len() > 0 && a[0] as u32 == b[0] as u32 {
        lemma_lex_le_total(a.drop_first(), b.drop_first());
    }
}

pub proof fn lemma_lex_le_antisym(a: Seq<char>, b: Seq<char>)
    requires
        lex_le(a, b),
        lex_le(b, a),
    ensures
        a == b,
    decreases a.len(),
{
    if a.len() == 0 {
        assert(b.len() == 0);
        assert(a =~= b);
    } else {
        assert(b.len() > 0);
        assert(a[0] as u32 == b[0] as u32);
        vstd::utf8::char_u32_cast(a[0], a[0] as u32);
        vstd::utf8::char_u32_cast(b[0], b[0] as u32);
        assert(a[0] == b[0]);
        lemma_lex_le_antisym(a.drop_first(), b.drop_first());
        assert(a =~= seq![a[0]] + a.drop_first());
        assert(b =~= seq![b[0]] + b.drop_first());
    }
}

pub proof fn lemma_lex_le_trans(a: Seq<char>, b: Seq<char>, c: Seq<char>)
    requires
        lex_le(a, b),
        lex_le(b, c),
    ensures
        lex_le(a, c),
    decreases a.len(),
{
    if a.len() > 0 && b.len() > 0 && c.len() > 0 && a[0] as u32 == b[0] as u32 && b[0] as u32
        == c[0] as u32 {
        lemma_lex_le_trans(a.drop_first(), b.drop_first(), c.drop_first());
    }
}

} // verus!
