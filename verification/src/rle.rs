//! Pattern stamps decoded from the Run Length Encoded (RLE) format of
//! Life patterns, and the symmetries that turn and mirror them.
//!
//! In the body of an RLE text, `b` is a dead cell, `o` an alive cell, `$`
//! ends a row and `!` ends the pattern; a decimal number before one of
//! them repeats it. Lines that are empty, or start with `#` (comments) or
//! `x` (the header), are not part of the body.

use vstd::prelude::*;
use crate::arith::{lemma_div_mod_of, lemma_index_bound, lemma_index_split, lemma_index_unique};

verus! {

// ---------------------------------------------------------------------
// Lines of the text and the body they make up
// ---------------------------------------------------------------------

/// The characters that have the Unicode `White_Space` property, which
/// `char::is_whitespace` and `str::trim` go by.
pub open spec fn is_white_space(c: char) -> bool {
    let u = c as u32;
    ||| 0x09 <= u <= 0x0d
    ||| u == 0x20
    ||| u == 0x85
    ||| u == 0xa0
    ||| u == 0x1680
    ||| 0x2000 <= u <= 0x200a
    ||| u == 0x2028
    ||| u == 0x2029
    ||| u == 0x202f
    ||| u == 0x205f
    ||| u == 0x3000
}

/// `s` without its leading white space.
pub open spec fn trim_start(s: Seq<char>) -> Seq<char>
    decreases s.len(),
{
    if s.len() > 0 && is_white_space(s[0]) {
        trim_start(s.drop_first())
    } else {
        s
    }
}

/// `s` without its trailing white space.
pub open spec fn trim_end(s: Seq<char>) -> Seq<char>
    decreases s.len(),
{
    if s.len() > 0 && is_white_space(s.last()) {
        trim_end(s.drop_last())
    } else {
        s
    }
}

/// `s` without leading and trailing white space.
pub open spec fn trim(s: Seq<char>) -> Seq<char> {
    trim_end(trim_start(s))
}

/// What a line adds to the body: the trimmed line, unless it is empty, a
/// comment (`#`) or the header (`x = .., y = ..`).
pub open spec fn kept_line(line: Seq<char>) -> Seq<char> {
    let t = trim(line);
    if t.len() > 0 && t[0] != '#' && t[0] != 'x' {
        t
    } else {
        Seq::empty()
    }
}

/// After the first `n` characters of `s`: the body of the lines that a
/// newline has ended, and the line still open.
pub open spec fn scan_lines(s: Seq<char>, n: nat) -> (Seq<char>, Seq<char>)
    decreases n,
{
    if n == 0 {
        (Seq::empty(), Seq::empty())
    } else {
        let prev = scan_lines(s, (n - 1) as nat);
        let c = s[n - 1];
        if c == '\n' {
            (prev.0 + kept_line(prev.1), Seq::empty())
        } else {
            (prev.0, prev.1.push(c))
        }
    }
}

/// The body of an RLE text: its kept lines, trimmed and joined.
pub open spec fn body(s: Seq<char>) -> Seq<char> {
    let r = scan_lines(s, s.len());
    r.0 + kept_line(r.1)
}

// ---------------------------------------------------------------------
// Executable line handling
// ---------------------------------------------------------------------

/// Whether `c` is white space (`char::is_whitespace`).
pub fn is_white_space_char(c: char) -> (b: bool)
    ensures
        b == is_white_space(c),
{
    let u = c as u32;
    (0x09 <= u && u <= 0x0d) || u == 0x20 || u == 0x85 || u == 0xa0 || u == 0x1680 || (0x2000
        <= u && u <= 0x200a) || u == 0x2028 || u == 0x2029 || u == 0x202f || u == 0x205f || u
        == 0x3000
}

proof fn lemma_trim_start_skip(s: Seq<char>, i: int)
    requires
        0 <= i < s.len(),
        is_white_space(s[i]),
    ensures
        trim_start(s.subrange(i, s.len() as int)) == trim_start(s.subrange(i + 1, s.len() as int)),
{
    let t = s.subrange(i, s.len() as int);
    assert(t.drop_first() =~= s.subrange(i + 1, s.len() as int));
}

proof fn lemma_trim_end_skip(s: Seq<char>, i: int, j: int)
    requires
        0 <= i < j <= s.len(),
        is_white_space(s[j - 1]),
    ensures
        trim_end(s.subrange(i, j)) == trim_end(s.subrange(i, j - 1)),
{
    let t = s.subrange(i, j);
    assert(t.drop_last() =~= s.subrange(i, j - 1));
}

/// `line` with leading and trailing white space removed.
fn trim_line(line: &Vec<char>) -> (t: Vec<char>)
    ensures
        t@ == trim(line@),
{
    let n = line.len();
    let mut i: usize = 0;
    assert(line@.subrange(0, n as int) =~= line@);
    while i < n && is_white_space_char(line[i])
        invariant
            n == line@.len(),
            0 <= i <= n,
            trim_start(line@) == trim_start(line@.subrange(i as int, n as int)),
        decreases n - i,
    {
        proof {
            lemma_trim_start_skip(line@, i as int);
        }
        i = i + 1;
    }
    let ghost st = line@.subrange(i as int, n as int);
    assert(trim_start(st) == st);
    let mut j: usize = n;
    while j > i && is_white_space_char(line[j - 1])
        invariant
            n == line@.len(),
            0 <= i <= j <= n,
            st == line@.subrange(i as int, n as int),
            trim_end(st) == trim_end(line@.subrange(i as int, j as int)),
        decreases j - i,
    {
        proof {
            lemma_trim_end_skip(line@, i as int, j as int);
        }
        j = j - 1;
    }
    let ghost en = line@.subrange(i as int, j as int);
    assert(trim_end(en) == en);
    let mut t: Vec<char> = Vec::new();
    let mut k: usize = i;
    while k < j
        invariant
            n == line@.len(),
            0 <= i <= k <= j <= n,
            t@ =~= line@.subrange(i as int, k as int),
        decreases j - k,
    {
        t.push(line[k]);
        k = k + 1;
    }
    t
}

/// Appends what `line` adds to the body to `out`.
fn push_kept_line(out: &mut Vec<char>, line: &Vec<char>)
    ensures
        final(out)@ == old(out)@ + kept_line(line@),
{
    let t = trim_line(line);
    if t.len() > 0 && t[0] != '#' && t[0] != 'x' {
        let mut k: usize = 0;
        let ghost o = out@;
        while k < t.len()
            invariant
                0 <= k <= t@.len(),
                out@ =~= o + t@.subrange(0, k as int),
            decreases t@.len() - k,
        {
            out.push(t[k]);
            k = k + 1;
        }
        assert(t@.subrange(0, t@.len() as int) =~= t@);
    } else {
        assert(out@ =~= out@ + Seq::<char>::empty());
    }
}

/// The body of the RLE text `rle`.
pub fn body_chars(rle: &str) -> (b: Vec<char>)
    ensures
        b@ == body(rle@),
{
    let mut out: Vec<char> = Vec::new();
    let mut line: Vec<char> = Vec::new();
    for c in it: rle.chars()
        invariant
            it.seq() == rle@,
            (out@, line@) == scan_lines(rle@, it.index() as nat),
    {
        if c == '\n' {
            push_kept_line(&mut out, &line);
            line = Vec::new();
        } else {
            line.push(c);
        }
    }
    push_kept_line(&mut out, &line);
    out
}


// ---------------------------------------------------------------------
// Decoding the body
// ---------------------------------------------------------------------

/// Where the decoder stands after a prefix of the body: the finished
/// rows, the row being built, the pending repeat count (0 when none was
/// written) and whether `!` has ended the pattern.
pub struct DecodeState {
    pub rows: Seq<Seq<bool>>,
    pub cur: Seq<bool>,
    pub run: nat,
    pub done: bool,
}

/// Whether `c` is an ASCII decimal digit.
pub open spec fn is_digit(c: char) -> bool {
    '0' <= c && c <= '9'
}

/// The value of the decimal digit `c`.
pub open spec fn digit_value(c: char) -> nat {
    (c as u32 - '0' as u32) as nat
}

/// How many times an item repeats: its count, or once when none is given.
pub open spec fn repeat_count(run: nat) -> nat {
    if run == 0 {
        1
    } else {
        run
    }
}

/// The decoder before any character.
pub open spec fn decode_start() -> DecodeState {
    DecodeState { rows: Seq::empty(), cur: Seq::empty(), run: 0, done: false }
}

/// The decoder after one more character `c`. Characters other than
/// digits, `b`, `o`, `$` and `!` change nothing.
pub open spec fn decode_step(st: DecodeState, c: char) -> DecodeState {
    if st.done {
        st
    } else if is_digit(c) {
        DecodeState { rows: st.rows, cur: st.cur, run: st.run * 10 + digit_value(c), done: false }
    } else if c == 'b' || c == 'o' {
        DecodeState {
            rows: st.rows,
            cur: st.cur + Seq::new(repeat_count(st.run), |k: int| c == 'o'),
            run: 0,
            done: false,
        }
    } else if c == '$' {
        DecodeState {
            rows: st.rows.push(st.cur) + Seq::new(
                (repeat_count(st.run) - 1) as nat,
                |k: int| Seq::<bool>::empty(),
            ),
            cur: Seq::empty(),
            run: 0,
            done: false,
        }
    } else if c == '!' {
        DecodeState { rows: st.rows, cur: st.cur, run: st.run, done: true }
    } else {
        st
    }
}

/// The decoder after the first `n` characters of `b`.
pub open spec fn decode_prefix(b: Seq<char>, n: nat) -> DecodeState
    decreases n,
{
    if n == 0 {
        decode_start()
    } else {
        decode_step(decode_prefix(b, (n - 1) as nat), b[n - 1])
    }
}

/// The rows that the body `b` decodes to; a last row that no `$` ended
/// counts when it is not empty.
pub open spec fn decoded_rows(b: Seq<char>) -> Seq<Seq<bool>> {
    let st = decode_prefix(b, b.len());
    if st.cur.len() > 0 {
        st.rows.push(st.cur)
    } else {
        st.rows
    }
}

/// Every repeat count that the body writes fits in a `u32`.
pub open spec fn counts_fit(b: Seq<char>) -> bool {
    forall|n: nat| n <= b.len() ==> #[trigger] decode_prefix(b, n).run <= u32::MAX
}

/// The rows as values.
pub open spec fn rows_view(rows: Seq<Vec<bool>>) -> Seq<Seq<bool>> {
    rows.map_values(|r: Vec<bool>| r@)
}

/// Once `!` is read, the rest of the body changes nothing.
proof fn lemma_done_stays(b: Seq<char>, k: nat, n: nat)
    requires
        k <= n <= b.len(),
        decode_prefix(b, k).done,
    ensures
        decode_prefix(b, n) == decode_prefix(b, k),
    decreases n - k,
{
    if n > k {
        lemma_done_stays(b, k, (n - 1) as nat);
    }
}

/// Appends `count` copies of `v` to `row`.
fn push_repeated(row: &mut Vec<bool>, v: bool, count: u32)
    ensures
        final(row)@ == old(row)@ + Seq::new(count as nat, |k: int| v),
{
    let ghost o = row@;
    let mut k: u32 = 0;
    while k < count
        invariant
            0 <= k <= count,
            row@ =~= o + Seq::new(k as nat, |j: int| v),
        decreases count - k,
    {
        row.push(v);
        k = k + 1;
    }
}

/// Decodes the body `b` into rows, or `None` when a repeat count does not
/// fit in a `u32`.
pub fn decode_rows(b: &Vec<char>) -> (res: Option<Vec<Vec<bool>>>)
    ensures
        res is None <==> !counts_fit(b@),
        res matches Some(rows) ==> rows_view(rows@) == decoded_rows(b@),
{
    let mut rows: Vec<Vec<bool>> = Vec::new();
    let mut cur: Vec<bool> = Vec::new();
    let mut run: u32 = 0;
    let mut i: usize = 0;
    let n = b.len();
    while i < n
        invariant_except_break
            n == b@.len(),
            0 <= i <= n,
            !decode_prefix(b@, i as nat).done,
            rows_view(rows@) == decode_prefix(b@, i as nat).rows,
            cur@ == decode_prefix(b@, i as nat).cur,
            run as nat == decode_prefix(b@, i as nat).run,
            forall|k: nat| k <= i ==> #[trigger] decode_prefix(b@, k).run <= u32::MAX,
        ensures
            0 <= i <= n,
            n == b@.len(),
            decode_prefix(b@, n as nat) == decode_prefix(b@, i as nat),
            i == n || decode_prefix(b@, i as nat).done,
            rows_view(rows@) == decode_prefix(b@, i as nat).rows,
            cur@ == decode_prefix(b@, i as nat).cur,
            forall|k: nat| k <= i ==> #[trigger] decode_prefix(b@, k).run <= u32::MAX,
        decreases n - i,
    {
        let c = b[i];
        let ghost prev = decode_prefix(b@, i as nat);
        assert(decode_prefix(b@, (i + 1) as nat) == decode_step(prev, c));
        if '0' <= c && c <= '9' {
            let d = (c as u32) - ('0' as u32);
            match run.checked_mul(10) {
                Some(m) => match m.checked_add(d) {
                    Some(r) => {
                        run = r;
                    },
                    None => {
                        assert(decode_prefix(b@, (i + 1) as nat).run > u32::MAX);
                        return None;
                    },
                },
                None => {
                    assert(decode_prefix(b@, (i + 1) as nat).run > u32::MAX);
                    return None;
                },
            }
        } else if c == 'b' || c == 'o' {
            let count = if run == 0 { 1 } else { run };
            push_repeated(&mut cur, c == 'o', count);
            run = 0;
        } else if c == '$' {
            let count = if run == 0 { 1 } else { run };
            let finished = cur;
            cur = Vec::new();
            let ghost before = rows@;
            rows.push(finished);
            assert(rows_view(rows@) =~= rows_view(before).push(finished@));
            let mut k: u32 = 1;
            while k < count
                invariant
                    1 <= k <= count,
                    rows_view(rows@) =~= rows_view(before).push(finished@) + Seq::new(
                        (k - 1) as nat,
                        |j: int| Seq::<bool>::empty(),
                    ),
                decreases count - k,
            {
                let ghost r0 = rows@;
                rows.push(Vec::new());
                assert(rows_view(rows@) =~= rows_view(r0).push(Seq::<bool>::empty()));
                k = k + 1;
            }
            run = 0;
        } else if c == '!' {
            proof {
                lemma_done_stays(b@, (i + 1) as nat, n as nat);
                assert forall|k: nat| k <= i + 1 implies #[trigger] decode_prefix(b@, k).run
                    <= u32::MAX by {
                    if k == i + 1 {
                        assert(decode_prefix(b@, k).run == prev.run);
                    }
                }
            }
            i = i + 1;
            break;
        }
        i = i + 1;
    }
    proof {
        assert forall|k: nat| k <= b@.len() implies #[trigger] decode_prefix(b@, k).run
            <= u32::MAX by {
            if k > i {
                lemma_done_stays(b@, i as nat, k);
            }
        }
    }
    if cur.len() > 0 {
        let ghost before = rows@;
        rows.push(cur);
        assert(rows_view(rows@) =~= rows_view(before).push(decode_prefix(b@, n as nat).cur));
    }
    Some(rows)
}


// ---------------------------------------------------------------------
// Laws of the text: line breaks, padding and the terminator
// ---------------------------------------------------------------------

/// The characters of an RLE body: digits, `b`, `o`, `$` and `!`.
pub open spec fn is_body_char(c: char) -> bool {
    is_digit(c) || c == 'b' || c == 'o' || c == '$' || c == '!'
}

/// `s` holds only body characters.
pub open spec fn all_body_chars(s: Seq<char>) -> bool {
    forall|i: int| 0 <= i < s.len() ==> #[trigger] is_body_char(s[i])
}

/// `n` spaces.
pub open spec fn spaces(n: nat) -> Seq<char> {
    Seq::new(n, |i: int| ' ')
}

/// The lines `ls` joined by newlines.
pub open spec fn join_lines(ls: Seq<Seq<char>>) -> Seq<char>
    decreases ls.len(),
{
    if ls.len() == 0 {
        Seq::empty()
    } else if ls.len() == 1 {
        ls[0]
    } else {
        join_lines(ls.drop_last()) + seq!['\n'] + ls.last()
    }
}

/// The pieces `ls` one after another.
pub open spec fn concat(ls: Seq<Seq<char>>) -> Seq<char>
    decreases ls.len(),
{
    if ls.len() == 0 {
        Seq::empty()
    } else {
        concat(ls.drop_last()) + ls.last()
    }
}

/// What the lines `ls` add to the body, one after another.
pub open spec fn concat_kept(ls: Seq<Seq<char>>) -> Seq<char>
    decreases ls.len(),
{
    if ls.len() == 0 {
        Seq::empty()
    } else {
        concat_kept(ls.drop_last()) + kept_line(ls.last())
    }
}

/// The pieces `parts`, each padded with `lead[i]` spaces before and
/// `trail[i]` spaces after.
pub open spec fn padded_lines(parts: Seq<Seq<char>>, lead: Seq<nat>, trail: Seq<nat>) -> Seq<Seq<char>> {
    Seq::new(parts.len(), |i: int| spaces(lead[i]) + parts[i] + spaces(trail[i]))
}

proof fn lemma_scan_prefix(s: Seq<char>, t: Seq<char>, n: nat)
    requires
        n <= s.len(),
        n <= t.len(),
        forall|i: int| 0 <= i < n ==> s[i] == t[i],
    ensures
        scan_lines(s, n) == scan_lines(t, n),
    decreases n,
{
    if n > 0 {
        lemma_scan_prefix(s, t, (n - 1) as nat);
    }
}

proof fn lemma_scan_no_newline(s: Seq<char>, a: nat, k: nat)
    requires
        a + k <= s.len(),
        forall|i: int| a <= i < a + k ==> s[i] != '\n',
    ensures
        scan_lines(s, a + k) == (scan_lines(s, a).0, scan_lines(s, a).1 + s.subrange(a as int, (a + k) as int)),
    decreases k,
{
    if k == 0 {
        assert(scan_lines(s, a).1 + s.subrange(a as int, a as int) =~= scan_lines(s, a).1);
    } else {
        lemma_scan_no_newline(s, a, (k - 1) as nat);
        assert(scan_lines(s, a).1 + s.subrange(a as int, a + k - 1) + seq![s[a + k - 1]]
            =~= scan_lines(s, a).1 + s.subrange(a as int, (a + k) as int));
        assert((scan_lines(s, a).1 + s.subrange(a as int, a + k - 1)).push(s[a + k - 1])
            =~= scan_lines(s, a).1 + s.subrange(a as int, (a + k) as int));
    }
}

proof fn lemma_join_lines_body(ls: Seq<Seq<char>>)
    requires
        ls.len() >= 1,
        forall|i: int, j: int| 0 <= i < ls.len() && 0 <= j < ls[i].len() ==> #[trigger] ls[i][j] != '\n',
    ensures
        scan_lines(join_lines(ls), join_lines(ls).len()) == (concat_kept(ls.drop_last()), ls.last()),
        body(join_lines(ls)) == concat_kept(ls),
    decreases ls.len(),
{
    let j = join_lines(ls);
    if ls.len() == 1 {
        assert forall|i: int| 0 <= i < j.len() implies j[i] != '\n' by {
            assert(j[i] == ls[0][i]);
        }
        lemma_scan_no_newline(j, 0, j.len());
        assert(Seq::<char>::empty() + j.subrange(0, j.len() as int) =~= ls.last());
        assert(ls.drop_last() =~= Seq::<Seq<char>>::empty());
        assert(concat_kept(ls) =~= concat_kept(ls.drop_last()) + kept_line(ls.last()));
    } else {
        let prev = ls.drop_last();
        let jp = join_lines(prev);
        let last = ls.last();
        assert forall|i: int, k: int| 0 <= i < prev.len() && 0 <= k < prev[i].len() implies #[trigger] prev[i][k] != '\n' by {
            assert(prev[i] == ls[i]);
        }
        lemma_join_lines_body(prev);
        assert(j == jp + seq!['\n'] + last);
        lemma_scan_prefix(j, jp, jp.len());
        assert(j[jp.len() as int] == '\n');
        let n1 = (jp.len() + 1) as nat;
        assert(scan_lines(j, n1) == (concat_kept(prev.drop_last()) + kept_line(prev.last()), Seq::<char>::empty()));
        assert(concat_kept(prev) == concat_kept(prev.drop_last()) + kept_line(prev.last()));
        assert forall|i: int| n1 <= i < n1 + last.len() implies j[i] != '\n' by {
            assert(j[i] == last[i - n1]);
        }
        lemma_scan_no_newline(j, n1, last.len());
        assert(Seq::<char>::empty() + j.subrange(n1 as int, (n1 + last.len()) as int) =~= last);
    }
}

proof fn lemma_trim_start_spaces(p: nat, x: Seq<char>)
    ensures
        trim_start(spaces(p) + x) == trim_start(x),
    decreases p,
{
    if p > 0 {
        assert((spaces(p) + x).drop_first() =~= spaces((p - 1) as nat) + x);
        lemma_trim_start_spaces((p - 1) as nat, x);
    } else {
        assert(spaces(p) + x =~= x);
    }
}

proof fn lemma_trim_end_spaces(x: Seq<char>, q: nat)
    ensures
        trim_end(x + spaces(q)) == trim_end(x),
    decreases q,
{
    if q > 0 {
        assert((x + spaces(q)).drop_last() =~= x + spaces((q - 1) as nat));
        lemma_trim_end_spaces(x, (q - 1) as nat);
    } else {
        assert(x + spaces(q) =~= x);
    }
}

/// A padded piece of body text adds exactly the piece to the body.
proof fn lemma_kept_padded(p: nat, part: Seq<char>, q: nat)
    requires
        all_body_chars(part),
    ensures
        kept_line(spaces(p) + part + spaces(q)) == part,
{
    let x = spaces(p) + part + spaces(q);
    assert(x =~= spaces(p) + (part + spaces(q)));
    lemma_trim_start_spaces(p, part + spaces(q));
    if part.len() == 0 {
        assert(part + spaces(q) =~= spaces(q));
        lemma_trim_start_spaces(q, Seq::<char>::empty());
        assert(spaces(q) + Seq::<char>::empty() =~= spaces(q));
        assert(trim_start(Seq::<char>::empty()) == Seq::<char>::empty());
    } else {
        assert(is_body_char(part[0]));
        assert((part + spaces(q))[0] == part[0]);
        lemma_trim_end_spaces(part, q);
        assert(is_body_char(part[part.len() - 1]));
        assert(part.last() == part[part.len() - 1]);
    }
}

proof fn lemma_concat_kept_padded(parts: Seq<Seq<char>>, lead: Seq<nat>, trail: Seq<nat>, k: nat)
    requires
        lead.len() == parts.len(),
        trail.len() == parts.len(),
        k <= parts.len(),
        forall|i: int| 0 <= i < parts.len() ==> #[trigger] all_body_chars(parts[i]),
    ensures
        concat_kept(padded_lines(parts, lead, trail).take(k as int)) == concat(parts.take(k as int)),
    decreases k,
{
    if k > 0 {
        let pl = padded_lines(parts, lead, trail);
        lemma_concat_kept_padded(parts, lead, trail, (k - 1) as nat);
        assert(pl.take(k as int).drop_last() =~= pl.take(k - 1));
        assert(parts.take(k as int).drop_last() =~= parts.take(k - 1));
        assert(all_body_chars(parts[k - 1]));
        lemma_kept_padded(lead[k - 1], parts[k - 1], trail[k - 1]);
    }
}

proof fn lemma_concat_body_chars(parts: Seq<Seq<char>>)
    requires
        forall|i: int| 0 <= i < parts.len() ==> #[trigger] all_body_chars(parts[i]),
    ensures
        all_body_chars(concat(parts)),
    decreases parts.len(),
{
    if parts.len() > 0 {
        let prev = parts.drop_last();
        assert forall|i: int| 0 <= i < prev.len() implies #[trigger] all_body_chars(prev[i]) by {
            assert(prev[i] == parts[i]);
        }
        lemma_concat_body_chars(prev);
        let c = concat(parts);
        assert(all_body_chars(parts[parts.len() - 1]));
        assert forall|i: int| 0 <= i < c.len() implies #[trigger] is_body_char(c[i]) by {
            if i < concat(prev).len() {
                assert(c[i] == concat(prev)[i]);
            } else {
                assert(c[i] == parts.last()[i - concat(prev).len()]);
            }
        }
    }
}

/// Text made of body characters alone is its own body.
proof fn lemma_body_of_body_chars(b: Seq<char>)
    requires
        all_body_chars(b),
    ensures
        body(b) == b,
{
    assert forall|i: int| 0 <= i < b.len() implies b[i] != '\n' by {
        assert(is_body_char(b[i]));
    }
    lemma_scan_no_newline(b, 0, b.len());
    assert(Seq::<char>::empty() + b.subrange(0, b.len() as int) =~= b);
    lemma_kept_padded(0, b, 0);
    assert(spaces(0) + b + spaces(0) =~= b);
    assert(Seq::<char>::empty() + b =~= b);
}

/// Line breaks and padding spaces inside a body do not change what it
/// decodes to: body text split into lines, each padded with spaces at
/// either end, decodes as the body text itself.
pub proof fn lemma_line_breaks_do_not_matter(parts: Seq<Seq<char>>, lead: Seq<nat>, trail: Seq<nat>)
    requires
        parts.len() >= 1,
        lead.len() == parts.len(),
        trail.len() == parts.len(),
        forall|i: int| 0 <= i < parts.len() ==> #[trigger] all_body_chars(parts[i]),
    ensures
        decode(join_lines(padded_lines(parts, lead, trail))) == decode(concat(parts)),
{
    let pl = padded_lines(parts, lead, trail);
    assert forall|i: int, j: int| 0 <= i < pl.len() && 0 <= j < pl[i].len() implies #[trigger] pl[i][j] != '\n' by {
        let sp = spaces(lead[i]);
        assert(all_body_chars(parts[i]));
        if sp.len() <= j < sp.len() + parts[i].len() {
            assert(pl[i][j] == parts[i][j - sp.len()]);
            assert(is_body_char(parts[i][j - sp.len()]));
        }
    }
    lemma_join_lines_body(pl);
    lemma_concat_kept_padded(parts, lead, trail, parts.len());
    assert(pl.take(pl.len() as int) =~= pl);
    assert(parts.take(parts.len() as int) =~= parts);
    lemma_concat_body_chars(parts);
    lemma_body_of_body_chars(concat(parts));
}

proof fn lemma_trim_end_keeps_prefix(line: Seq<char>, k: nat)
    requires
        1 <= k <= line.len(),
        !is_white_space(line[k - 1]),
    ensures
        trim_end(line).len() >= k,
        trim_end(line).take(k as int) == line.take(k as int),
    decreases line.len(),
{
    if line.len() > k && is_white_space(line.last()) {
        lemma_trim_end_keeps_prefix(line.drop_last(), k);
        assert(line.drop_last().take(k as int) =~= line.take(k as int));
    }
}

/// A line that starts with the body characters `a`, the last being `!`,
/// adds a text starting with `a` to the body.
proof fn lemma_kept_keeps_prefix(a: Seq<char>, line: Seq<char>)
    requires
        a.len() >= 1,
        all_body_chars(a),
        line.len() >= a.len(),
        line.take(a.len() as int) == a,
    ensures
        kept_line(line).len() >= a.len(),
        kept_line(line).take(a.len() as int) == a,
{
    assert(line[0] == a[0]);
    assert(is_body_char(a[0]));
    assert(trim_start(line) == line);
    assert(line[a.len() - 1] == a[a.len() - 1]);
    assert(is_body_char(a[a.len() - 1]));
    lemma_trim_end_keeps_prefix(line, a.len());
    let t = trim(line);
    assert(t[0] == t.take(a.len() as int)[0]);
}

/// The state of the line scan once `a` is read: either no line has
/// ended and the open line starts with `a`, or the body so far starts
/// with `a`.
pub open spec fn scan_starts_with(a: Seq<char>, st: (Seq<char>, Seq<char>)) -> bool {
    let na = a.len();
    ||| (st.0.len() == 0 && st.1.len() >= na && st.1.take(na as int) == a)
    ||| (st.0.len() >= na && st.0.take(na as int) == a)
}

proof fn lemma_scan_keeps_prefix(a: Seq<char>, x: Seq<char>, n: nat)
    requires
        a.len() >= 1,
        all_body_chars(a),
        a.len() <= n <= x.len(),
        x.take(a.len() as int) == a,
    ensures
        scan_starts_with(a, scan_lines(x, n)),
    decreases n,
{
    let na = a.len();
    if n == na {
        assert forall|i: int| 0 <= i < na implies x[i] != '\n' by {
            assert(x[i] == a[i]);
            assert(is_body_char(a[i]));
        }
        lemma_scan_no_newline(x, 0, na);
        assert(Seq::<char>::empty() + x.subrange(0, na as int) =~= a);
        assert(a.take(na as int) =~= a);
    } else {
        lemma_scan_keeps_prefix(a, x, (n - 1) as nat);
        let st = scan_lines(x, (n - 1) as nat);
        if st.0.len() == 0 && st.1.len() >= na && st.1.take(na as int) == a {
            if x[n - 1] == '\n' {
                lemma_kept_keeps_prefix(a, st.1);
                assert((st.0 + kept_line(st.1)).take(na as int) =~= kept_line(st.1).take(na as int));
            } else {
                assert(st.1.push(x[n - 1]).take(na as int) =~= st.1.take(na as int));
            }
        } else {
            assert((st.0 + kept_line(st.1)).take(na as int) =~= st.0.take(na as int));
        }
    }
}

proof fn lemma_body_keeps_prefix(a: Seq<char>, x: Seq<char>)
    requires
        a.len() >= 1,
        all_body_chars(a),
        x.len() >= a.len(),
        x.take(a.len() as int) == a,
    ensures
        body(x).len() >= a.len(),
        body(x).take(a.len() as int) == a,
{
    let na = a.len();
    lemma_scan_keeps_prefix(a, x, x.len());
    let st = scan_lines(x, x.len());
    if st.0.len() == 0 && st.1.len() >= na && st.1.take(na as int) == a {
        lemma_kept_keeps_prefix(a, st.1);
        assert((st.0 + kept_line(st.1)).take(na as int) =~= kept_line(st.1).take(na as int));
    } else {
        assert((st.0 + kept_line(st.1)).take(na as int) =~= st.0.take(na as int));
    }
}

proof fn lemma_decode_prefix_same(b1: Seq<char>, b2: Seq<char>, n: nat)
    requires
        n <= b1.len(),
        n <= b2.len(),
        forall|i: int| 0 <= i < n ==> b1[i] == b2[i],
    ensures
        decode_prefix(b1, n) == decode_prefix(b2, n),
    decreases n,
{
    if n > 0 {
        lemma_decode_prefix_same(b1, b2, (n - 1) as nat);
    }
}

proof fn lemma_no_terminator_not_done(b: Seq<char>, n: nat)
    requires
        n <= b.len(),
        forall|i: int| 0 <= i < n ==> b[i] != '!',
    ensures
        !decode_prefix(b, n).done,
    decreases n,
{
    if n > 0 {
        lemma_no_terminator_not_done(b, (n - 1) as nat);
    }
}

/// `!` ends the pattern: whatever text follows it is not read.
pub proof fn lemma_nothing_after_terminator(s: Seq<char>, t: Seq<char>)
    requires
        all_body_chars(s),
        forall|i: int| 0 <= i < s.len() ==> s[i] != '!',
    ensures
        decode(s + seq!['!'] + t) == decode(s),
{
    let a = s.push('!');
    let x = s + seq!['!'] + t;
    assert(x =~= a + t);
    assert(all_body_chars(a)) by {
        assert forall|i: int| 0 <= i < a.len() implies #[trigger] is_body_char(a[i]) by {
            if i < s.len() {
                assert(a[i] == s[i]);
            }
        }
    }
    assert(x.take(a.len() as int) =~= a);
    lemma_body_keeps_prefix(a, x);
    let bx = body(x);
    lemma_body_of_body_chars(s);
    let n = s.len();
    assert forall|i: int| 0 <= i < n implies bx[i] == s[i] by {
        assert(bx.take(a.len() as int)[i] == a[i]);
    }
    lemma_decode_prefix_same(bx, s, n);
    lemma_no_terminator_not_done(s, n);
    assert(bx[n as int] == '!') by {
        assert(bx.take(a.len() as int)[n as int] == a[n as int]);
    }
    assert(decode_prefix(bx, n + 1) == decode_step(decode_prefix(bx, n), '!'));
    lemma_done_stays(bx, n + 1, bx.len());
    assert(decode_prefix(bx, bx.len()).rows == decode_prefix(s, n).rows);
    assert(decode_prefix(bx, bx.len()).cur == decode_prefix(s, n).cur);
}

// ---------------------------------------------------------------------
// Grids and stamps
// ---------------------------------------------------------------------

/// A rectangle of cells, alive (`true`) or dead, in row-major order.
pub struct Grid {
    pub width: nat,
    pub height: nat,
    pub cells: Seq<bool>,
}

/// The length of the longest row.
pub open spec fn max_row_len(rows: Seq<Seq<bool>>) -> nat
    decreases rows.len(),
{
    if rows.len() == 0 {
        0
    } else {
        let m = max_row_len(rows.drop_last());
        if rows.last().len() > m {
            rows.last().len()
        } else {
            m
        }
    }
}

/// The cell at row-major index `i` of rows padded with dead cells to
/// width `w`.
pub open spec fn padded_cell(rows: Seq<Seq<bool>>, w: nat, i: int) -> bool {
    let r = i / (w as int);
    let c = i % (w as int);
    c < rows[r].len() && rows[r][c]
}

/// The rows as a grid as wide as the longest row; shorter rows are
/// padded with dead cells.
pub open spec fn grid_of_rows(rows: Seq<Seq<bool>>) -> Grid {
    let w = max_row_len(rows);
    Grid { width: w, height: rows.len(), cells: Seq::new(w * rows.len(), |i: int| padded_cell(rows, w, i)) }
}

/// The grid that the RLE text `rle` describes.
pub open spec fn decode(rle: Seq<char>) -> Grid {
    grid_of_rows(decoded_rows(body(rle)))
}

/// Whether the pattern that `rle` describes stays within the limits of
/// a stamp: every repeat count, the number of rows and the number of
/// cells fit in a `u32`.
pub open spec fn decode_fits(rle: Seq<char>) -> bool {
    let b = body(rle);
    let rows = decoded_rows(b);
    &&& counts_fit(b)
    &&& rows.len() <= u32::MAX
    &&& max_row_len(rows) * rows.len() <= u32::MAX
}

/// Every row is at most as long as the longest one.
proof fn lemma_max_row_len_bound(rows: Seq<Seq<bool>>, j: int)
    requires
        0 <= j < rows.len(),
    ensures
        rows[j].len() <= max_row_len(rows),
    decreases rows.len(),
{
    if j < rows.len() - 1 {
        lemma_max_row_len_bound(rows.drop_last(), j);
    }
}

/// The length of the longest row.
fn longest_row(rows: &Vec<Vec<bool>>) -> (m: usize)
    ensures
        m as nat == max_row_len(rows_view(rows@)),
{
    let mut m: usize = 0;
    let mut i: usize = 0;
    let ghost rv = rows_view(rows@);
    assert(rv.subrange(0, 0) =~= Seq::<Seq<bool>>::empty());
    while i < rows.len()
        invariant
            rv == rows_view(rows@),
            0 <= i <= rows@.len(),
            m as nat == max_row_len(rv.subrange(0, i as int)),
        decreases rows@.len() - i,
    {
        assert(rv.subrange(0, i + 1).drop_last() =~= rv.subrange(0, i as int));
        assert(rv[i as int] == rows@[i as int]@);
        if rows[i].len() > m {
            m = rows[i].len();
        }
        i = i + 1;
    }
    assert(rv.subrange(0, i as int) =~= rv);
    m
}

/// `g` turned a quarter turn clockwise: the cell at column `x` of row
/// `y` moves to column `height - 1 - y` of row `x`.
pub open spec fn rotated(g: Grid) -> Grid {
    Grid {
        width: g.height,
        height: g.width,
        cells: Seq::new(
            g.height * g.width,
            |i: int|
                g.cells[(g.height - 1 - i % (g.height as int)) * g.width + i / (g.height as int)],
        ),
    }
}

/// `g` mirrored left to right: each of the `height` rows is reversed;
/// cells past `width * height` stay as they are.
pub open spec fn mirrored(g: Grid) -> Grid {
    Grid {
        width: g.width,
        height: g.height,
        cells: Seq::new(
            g.cells.len(),
            |i: int|
                if i < g.width * g.height {
                    g.cells[(i / (g.width as int)) * g.width + (g.width - 1 - i % (g.width as int))]
                } else {
                    g.cells[i]
                },
        ),
    }
}

/// What turning needs: at least `width * height` cells, of which only
/// the first `width * height` are read, and a cell count that fits in a
/// `u32`.
pub open spec fn rotate_fits(g: Grid) -> bool {
    &&& g.width * g.height <= u32::MAX
    &&& g.cells.len() >= g.width * g.height
}

/// What mirroring needs: at least `width * height` cells, and the offset
/// of the last row fitting in a `u32`. Cells past `width * height` are
/// kept as they are.
pub open spec fn mirror_fits(g: Grid) -> bool {
    g.height == 0 || ((g.height - 1) * g.width <= u32::MAX && g.cells.len() >= g.width * g.height)
}

/// What the symmetry `r` needs: nothing to copy, mirroring for a mirror
/// alone, and turning for any turn.
pub open spec fn transform_fits(g: Grid, r: u8) -> bool {
    if r % 4 == 0 {
        r < 4 || mirror_fits(g)
    } else {
        rotate_fits(g)
    }
}

/// `g` turned a quarter turn clockwise `n` times.
pub open spec fn rotated_times(g: Grid, n: nat) -> Grid
    decreases n,
{
    if n == 0 {
        g
    } else {
        rotated(rotated_times(g, (n - 1) as nat))
    }
}

/// The symmetry that `r` selects: mirrored when `r >= 4`, then turned
/// `r % 4` quarter turns clockwise.
pub open spec fn transformed(g: Grid, r: u8) -> Grid {
    rotated_times(if r >= 4 { mirrored(g) } else { g }, (r % 4) as nat)
}

/// The cells fill the grid.
pub open spec fn grid_wf(g: Grid) -> bool {
    g.cells.len() == g.width * g.height
}

/// `g` turned half a turn.
pub open spec fn half_turned(g: Grid) -> Grid {
    Grid {
        width: g.width,
        height: g.height,
        cells: Seq::new(
            g.width * g.height,
            |i: int|
                g.cells[(g.height - 1 - i / (g.width as int)) * g.width + (g.width - 1 - i
                    % (g.width as int))],
        ),
    }
}

proof fn lemma_rotated_twice(g: Grid)
    requires
        grid_wf(g),
    ensures
        rotated(rotated(g)) == half_turned(g),
{
    let w = g.width as int;
    let h = g.height as int;
    let r1 = rotated(g);
    let r2 = rotated(r1);
    let hg = half_turned(g);
    assert(h * w == w * h) by (nonlinear_arith);
    assert forall|i: int| 0 <= i < w * h implies r2.cells[i] == hg.cells[i] by {
        lemma_index_split(i, h, w);
        let a = i / w;
        let b = i % w;
        let j = (w - 1 - b) * h + a;
        lemma_div_mod_of(w - 1 - b, h, a);
        lemma_index_bound(w - 1 - b, a, w, h);
        assert(r2.cells[i] == r1.cells[j]);
        lemma_index_split(j, w, h);
        assert(r1.cells[j] == g.cells[(h - 1 - a) * w + (w - 1 - b)]);
    }
    assert(r2.cells =~= hg.cells);
}

proof fn lemma_half_turned_twice(g: Grid)
    requires
        grid_wf(g),
    ensures
        half_turned(half_turned(g)) == g,
{
    let w = g.width as int;
    let h = g.height as int;
    let h1 = half_turned(g);
    let h2 = half_turned(h1);
    assert(h * w == w * h) by (nonlinear_arith);
    assert forall|i: int| 0 <= i < w * h implies h2.cells[i] == g.cells[i] by {
        lemma_index_split(i, h, w);
        let a = i / w;
        let b = i % w;
        let j = (h - 1 - a) * w + (w - 1 - b);
        lemma_div_mod_of(h - 1 - a, w, w - 1 - b);
        lemma_index_bound(h - 1 - a, w - 1 - b, h, w);
        assert(h2.cells[i] == h1.cells[j]);
    }
    assert(h2.cells =~= g.cells);
}

/// Four quarter turns bring every well-formed grid back to itself.
pub proof fn lemma_four_turns_identity(g: Grid)
    requires
        grid_wf(g),
    ensures
        rotated_times(g, 4) == g,
{
    reveal_with_fuel(rotated_times, 5);
    lemma_rotated_twice(g);
    let hg = half_turned(g);
    assert(grid_wf(hg));
    lemma_rotated_twice(hg);
    assert(rotated_times(g, 1) == rotated(g));
    assert(rotated_times(g, 2) == hg);
    assert(rotated_times(g, 3) == rotated(hg));
    assert(rotated_times(g, 4) == rotated(rotated(hg)));
    lemma_half_turned_twice(g);
}

/// Mirroring twice gives back every well-formed grid.
pub proof fn lemma_mirror_twice_identity(g: Grid)
    requires
        grid_wf(g),
    ensures
        mirrored(mirrored(g)) == g,
{
    let w = g.width as int;
    let h = g.height as int;
    let m1 = mirrored(g);
    let m2 = mirrored(m1);
    assert(h * w == w * h) by (nonlinear_arith);
    assert forall|i: int| 0 <= i < w * h implies m2.cells[i] == g.cells[i] by {
        lemma_index_split(i, h, w);
        let a = i / w;
        let b = i % w;
        let j = a * w + (w - 1 - b);
        lemma_div_mod_of(a, w, w - 1 - b);
        lemma_index_bound(a, w - 1 - b, h, w);
        assert(m2.cells[i] == m1.cells[j]);
    }
    assert(m2.cells =~= g.cells);
}

/// A quarter turn swaps width and height and keeps the number of cells
/// and the grid well formed.
pub proof fn lemma_rotation_preserves_area(g: Grid)
    requires
        grid_wf(g),
    ensures
        rotated(g).width == g.height,
        rotated(g).height == g.width,
        rotated(g).cells.len() == g.cells.len(),
        grid_wf(rotated(g)),
{
    assert(g.height * g.width == g.width * g.height) by (nonlinear_arith);
}

/// A quarter turn, a mirror and another quarter turn make a mirror.
pub proof fn lemma_turn_mirror_turn(g: Grid)
    requires
        grid_wf(g),
    ensures
        rotated(mirrored(rotated(g))) == mirrored(g),
{
    let w = g.width as int;
    let h = g.height as int;
    let r1 = rotated(g);
    let m = mirrored(r1);
    let r2 = rotated(m);
    let mg = mirrored(g);
    assert(h * w == w * h) by (nonlinear_arith);
    assert forall|i: int| 0 <= i < w * h implies r2.cells[i] == mg.cells[i] by {
        lemma_index_split(i, h, w);
        let y = i / w;
        let x = i % w;
        let j = (w - 1 - x) * h + y;
        lemma_div_mod_of(w - 1 - x, h, y);
        lemma_index_bound(w - 1 - x, y, w, h);
        assert(r2.cells[i] == m.cells[j]);
        let k = (w - 1 - x) * h + (h - 1 - y);
        lemma_div_mod_of(w - 1 - x, h, h - 1 - y);
        lemma_index_bound(w - 1 - x, h - 1 - y, w, h);
        assert(m.cells[j] == r1.cells[k]);
        assert(r1.cells[k] == g.cells[y * w + (w - 1 - x)]);
    }
    assert(r2.cells =~= mg.cells);
}

proof fn lemma_rotated_times_wf(g: Grid, n: nat)
    requires
        grid_wf(g),
    ensures
        grid_wf(rotated_times(g, n)),
    decreases n,
{
    if n > 0 {
        lemma_rotated_times_wf(g, (n - 1) as nat);
        let p = rotated_times(g, (n - 1) as nat);
        assert(p.height * p.width == p.width * p.height) by (nonlinear_arith);
    }
}

proof fn lemma_rotated_times_add(g: Grid, a: nat, b: nat)
    ensures
        rotated_times(rotated_times(g, a), b) == rotated_times(g, a + b),
    decreases b,
{
    if b > 0 {
        lemma_rotated_times_add(g, a, (b - 1) as nat);
    }
}

/// `k` quarter turns, a mirror and `k` more quarter turns make a mirror.
proof fn lemma_turns_mirror_turns(g: Grid, k: nat)
    requires
        grid_wf(g),
    ensures
        rotated_times(mirrored(rotated_times(g, k)), k) == mirrored(g),
    decreases k,
{
    if k > 0 {
        let prev = rotated_times(g, (k - 1) as nat);
        lemma_rotated_times_wf(g, (k - 1) as nat);
        let x = mirrored(rotated(prev));
        lemma_rotated_times_add(x, 1, (k - 1) as nat);
        assert(rotated_times(x, 1) == rotated(x)) by {
            reveal_with_fuel(rotated_times, 2);
        }
        lemma_turn_mirror_turn(prev);
        lemma_turns_mirror_turns(g, (k - 1) as nat);
    }
}

/// The symmetry that undoes symmetry `r` of `0..8`: the opposite turn,
/// or `r` itself for a mirrored one.
pub open spec fn inverse_symmetry(r: u8) -> u8 {
    if r < 4 {
        ((4 - r) % 4) as u8
    } else {
        r
    }
}

/// Every symmetry `r` of `0..8` is undone by `inverse_symmetry(r)`: the
/// turns by the opposite turn, and each mirrored symmetry by itself.
pub proof fn lemma_transform_inverse(g: Grid, r: u8)
    requires
        grid_wf(g),
        r < 8,
    ensures
        transformed(transformed(g, r), inverse_symmetry(r)) == g,
{
    if r < 4 {
        let r2 = inverse_symmetry(r);
        lemma_rotated_times_add(g, r as nat, r2 as nat);
        if r == 0 {
            assert(rotated_times(g, 0) == g);
        } else {
            lemma_four_turns_identity(g);
        }
    } else {
        let mg = mirrored(g);
        lemma_turns_mirror_turns(mg, (r % 4) as nat);
        lemma_mirror_twice_identity(g);
    }
}

/// The cell at column `x` of row `y`.
pub open spec fn cell_at(g: Grid, x: int, y: int) -> bool {
    g.cells[y * g.width + x]
}

/// The width and height of a `w` by `h` grid after symmetry `r`: kept
/// by an even number of quarter turns, swapped by an odd one.
pub open spec fn symmetry_size(r: u8, w: int, h: int) -> (int, int) {
    if r % 2 == 0 {
        (w, h)
    } else {
        (h, w)
    }
}

/// Where the cell at column `x` of row `y` of a `w` by `h` grid after
/// symmetry `r` of `0..8` comes from: the identity, the quarter turns
/// clockwise by one, two and three, the mirror left to right, and the
/// mirror followed by each of the three turns.
pub open spec fn symmetry_source(r: u8, w: int, h: int, x: int, y: int) -> (int, int) {
    if r == 0 {
        (x, y)
    } else if r == 1 {
        (y, h - 1 - x)
    } else if r == 2 {
        (w - 1 - x, h - 1 - y)
    } else if r == 3 {
        (w - 1 - y, x)
    } else if r == 4 {
        (w - 1 - x, y)
    } else if r == 5 {
        (w - 1 - y, h - 1 - x)
    } else if r == 6 {
        (x, h - 1 - y)
    } else {
        (y, x)
    }
}

/// A quarter turn clockwise takes the cell at column `x` of row `y` from
/// column `y` of row `height - 1 - x`.
pub proof fn lemma_rotated_cell(g: Grid, x: int, y: int)
    requires
        grid_wf(g),
        0 <= x < g.height,
        0 <= y < g.width,
    ensures
        grid_wf(rotated(g)),
        cell_at(rotated(g), x, y) == cell_at(g, y, g.height - 1 - x),
{
    let w = g.width as int;
    let h = g.height as int;
    assert(h * w == w * h) by (nonlinear_arith);
    lemma_index_bound(y, x, w, h);
    lemma_div_mod_of(y, h, x);
}

/// A mirror left to right takes the cell at column `x` of row `y` from
/// column `width - 1 - x` of the same row.
pub proof fn lemma_mirrored_cell(g: Grid, x: int, y: int)
    requires
        grid_wf(g),
        0 <= x < g.width,
        0 <= y < g.height,
    ensures
        grid_wf(mirrored(g)),
        cell_at(mirrored(g), x, y) == cell_at(g, g.width - 1 - x, y),
{
    let w = g.width as int;
    let h = g.height as int;
    lemma_index_bound(y, x, h, w);
    lemma_div_mod_of(y, w, x);
}

/// The symmetries made of the two basic moves: `r` of `0..4` is `r`
/// quarter turns clockwise, and `r` of `4..8` is the mirror left to
/// right followed by `r - 4` quarter turns; in particular symmetry 1 is
/// one quarter turn whatever the shape of the grid.
pub proof fn lemma_transform_moves(g: Grid)
    ensures
        transformed(g, 0) == g,
        transformed(g, 1) == rotated(g),
        transformed(g, 2) == rotated(rotated(g)),
        transformed(g, 3) == rotated(rotated(rotated(g))),
        transformed(g, 4) == mirrored(g),
        transformed(g, 5) == rotated(mirrored(g)),
        transformed(g, 6) == rotated(rotated(mirrored(g))),
        transformed(g, 7) == rotated(rotated(rotated(mirrored(g)))),
{
    reveal_with_fuel(rotated_times, 4);
}

/// Each of the eight symmetries gives a well-formed grid of the size
/// `symmetry_size` whose every cell is the cell of `g` that
/// `symmetry_source` names.
pub proof fn lemma_transform_cells(g: Grid, r: u8)
    requires
        grid_wf(g),
        r < 8,
    ensures
        grid_wf(transformed(g, r)),
        (transformed(g, r).width as int, transformed(g, r).height as int) == symmetry_size(
            r,
            g.width as int,
            g.height as int,
        ),
        forall|x: int, y: int|
            0 <= x < transformed(g, r).width && 0 <= y < transformed(g, r).height ==> cell_at(
                #[trigger] transformed(g, r),
                x,
                y,
            ) == ({
                let src = symmetry_source(r, g.width as int, g.height as int, x, y);
                cell_at(g, src.0, src.1)
            }),
{
    lemma_transform_moves(g);
    let w = g.width as int;
    let h = g.height as int;
    let t = transformed(g, r);
    let base = if r >= 4 { mirrored(g) } else { g };
    let r1 = rotated(base);
    let r2 = rotated(r1);
    let r3 = rotated(r2);
    assert(grid_wf(mirrored(g)));
    lemma_rotation_preserves_area(base);
    lemma_rotation_preserves_area(r1);
    lemma_rotation_preserves_area(r2);
    assert(t == if r % 4 == 0 {
        base
    } else if r % 4 == 1 {
        r1
    } else if r % 4 == 2 {
        r2
    } else {
        r3
    }) by {
        if r == 0 || r == 1 || r == 2 || r == 3 {
        } else {
            assert(r == 4 || r == 5 || r == 6 || r == 7);
        }
    }
    assert forall|x: int, y: int| 0 <= x < t.width && 0 <= y < t.height implies cell_at(
        #[trigger] transformed(g, r),
        x,
        y,
    ) == ({
        let src = symmetry_source(r, w, h, x, y);
        cell_at(g, src.0, src.1)
    }) by {
        let k = r % 4;
        let src = symmetry_source(r, w, h, x, y);
        let bsrc = symmetry_source(k, w, h, x, y);
        if k == 0 {
            assert(cell_at(t, x, y) == cell_at(base, bsrc.0, bsrc.1));
        } else if k == 1 {
            lemma_rotated_cell(base, x, y);
            assert(cell_at(t, x, y) == cell_at(base, bsrc.0, bsrc.1));
        } else if k == 2 {
            lemma_rotated_cell(r1, x, y);
            lemma_rotated_cell(base, y, w - 1 - x);
            assert(cell_at(t, x, y) == cell_at(base, bsrc.0, bsrc.1));
        } else {
            lemma_rotated_cell(r2, x, y);
            lemma_rotated_cell(r1, y, h - 1 - x);
            lemma_rotated_cell(base, h - 1 - x, w - 1 - y);
            assert(cell_at(t, x, y) == cell_at(base, bsrc.0, bsrc.1));
        }
        if r >= 4 {
            lemma_mirrored_cell(g, bsrc.0, bsrc.1);
        }
    }
}

/// A rectangular pattern of alive (`true`) and dead cells.
#[derive(Clone)]
pub struct Stamp {
    pub width: u32,
    pub height: u32,
    /// Row-major, `width * height` cells.
    pub cells: Vec<bool>,
}

impl View for Stamp {
    type V = Grid;

    open spec fn view(&self) -> Grid {
        Grid { width: self.width as nat, height: self.height as nat, cells: self.cells@ }
    }
}

impl Stamp {
    /// The cells fill the rectangle, and their number fits in a `u32`.
    pub open spec fn wf(&self) -> bool {
        &&& self.cells@.len() == self.width * self.height
        &&& self.width * self.height <= u32::MAX
    }

    /// A copy of this stamp's cells.
    fn copy_cells(&self) -> (c: Vec<bool>)
        ensures
            c@ == self.cells@,
    {
        let mut c: Vec<bool> = Vec::new();
        let mut i: usize = 0;
        while i < self.cells.len()
            invariant
                0 <= i <= self.cells@.len(),
                c@ =~= self.cells@.subrange(0, i as int),
            decreases self.cells@.len() - i,
        {
            c.push(self.cells[i]);
            i = i + 1;
        }
        assert(self.cells@.subrange(0, i as int) =~= self.cells@);
        c
    }

    /// Returns the stamp turned a quarter turn clockwise. Only the first
    /// `width * height` cells are read.
    pub fn rotate_cw(&self) -> (s: Stamp)
        requires
            rotate_fits(self@),
        ensures
            s@ == rotated(self@),
            s.wf(),
    {
        let w = self.width;
        let h = self.height;
        let nw = h;
        let nh = w;
        assert(nw * nh == w * h) by (nonlinear_arith)
            requires nw == h, nh == w;
        let mut cells = vec![false; (nw * nh) as usize];
        let mut y: u32 = 0;
        while y < h
            invariant
                rotate_fits(self@),
                w == self.width,
                h == self.height,
                cells@.len() == w * h,
                0 <= y <= h,
                forall|yy: int, xx: int|
                    0 <= yy < y && 0 <= xx < w ==> #[trigger] cells@[xx * h + (h - 1 - yy)]
                        == self.cells@[yy * w + xx],
            decreases h - y,
        {
            let mut x: u32 = 0;
            while x < w
                invariant
                    rotate_fits(self@),
                    w == self.width,
                    h == self.height,
                    cells@.len() == w * h,
                    0 <= y < h,
                    0 <= x <= w,
                    forall|yy: int, xx: int|
                        (0 <= yy < y && 0 <= xx < w) || (yy == y && 0 <= xx < x)
                            ==> #[trigger] cells@[xx * h + (h - 1 - yy)] == self.cells@[yy * w + xx],
                decreases w - x,
            {
                proof {
                    lemma_index_bound(y as int, x as int, h as int, w as int);
                    lemma_index_bound(x as int, (h - 1 - y) as int, w as int, h as int);
                    assert(w * h == h * w) by (nonlinear_arith);
                }
                let src = (y * w + x) as usize;
                let dst = (x * h + (h - 1 - y)) as usize;
                let ghost before = cells@;
                cells[dst] = self.cells[src];
                proof {
                    assert forall|yy: int, xx: int|
                        (0 <= yy < y && 0 <= xx < w) || (yy == y && 0 <= xx < x + 1)
                            implies #[trigger] cells@[xx * h + (h - 1 - yy)] == self.cells@[yy * w + xx] by {
                        if !(yy == y && xx == x) {
                            lemma_index_bound(xx, h - 1 - yy, w as int, h as int);
                            if xx * h + (h - 1 - yy) == x * h + (h - 1 - y) {
                                lemma_index_unique(xx, h - 1 - yy, x as int, h - 1 - y, h as int);
                            }
                            assert(cells@[xx * h + (h - 1 - yy)] == before[xx * h + (h - 1 - yy)]);
                        }
                    }
                }
                x = x + 1;
            }
            y = y + 1;
        }
        let s = Stamp { width: nw, height: nh, cells };
        proof {
            let g = self@;
            let rg = rotated(g);
            assert(h * w == w * h) by (nonlinear_arith);
            assert forall|i: int| 0 <= i < h * w implies s.cells@[i] == rg.cells[i] by {
                lemma_index_split(i, w as int, h as int);
                let r = i / (h as int);
                let c = i % (h as int);
                let yy = h - 1 - c;
                assert(s.cells@[r * h + (h - 1 - yy)] == self.cells@[yy * w + r]);
            }
            assert(s.cells@ =~= rg.cells);
        }
        s
    }

    /// Returns the stamp mirrored horizontally; cells past
    /// `width * height` are kept as they are.
    pub fn mirror_h(&self) -> (s: Stamp)
        requires
            mirror_fits(self@),
        ensures
            s@ == mirrored(self@),
            s.wf() == self.wf(),
    {
        let w = self.width;
        let h = self.height;
        let n = self.cells.len();
        let mut cells: Vec<bool> = Vec::new();
        let mut y: u32 = 0;
        while y < h
            invariant
                n == self.cells@.len(),
                mirror_fits(self@),
                w == self.width,
                h == self.height,
                0 <= y <= h,
                cells@.len() == y * w,
                forall|k: int| 0 <= k < cells@.len() ==> #[trigger] cells@[k] == mirrored(self@).cells[k],
            decreases h - y,
        {
            assert(y * w <= (h - 1) * w) by (nonlinear_arith)
                requires y <= h - 1;
            let start = (y * w) as usize;
            let mut x: u32 = 0;
            while x < w
                invariant
                    n == self.cells@.len(),
                    mirror_fits(self@),
                    w == self.width,
                    h == self.height,
                    0 <= y < h,
                    0 <= x <= w,
                    start == y * w,
                    cells@.len() == y * w + x,
                    forall|k: int| 0 <= k < cells@.len() ==> #[trigger] cells@[k] == mirrored(self@).cells[k],
                decreases w - x,
            {
                proof {
                    lemma_index_bound(y as int, (w - 1 - x) as int, h as int, w as int);
                    lemma_index_bound(y as int, x as int, h as int, w as int);
                    lemma_div_mod_of(y as int, w as int, x as int);
                }
                let v = self.cells[start + (w - 1 - x) as usize];
                cells.push(v);
                x = x + 1;
            }
            assert((y + 1) * w == y * w + w) by (nonlinear_arith);
            y = y + 1;
        }
        assert(h * w == w * h) by (nonlinear_arith);
        let mut k: usize = cells.len();
        while k < self.cells.len()
            invariant
                mirror_fits(self@),
                w == self.width,
                h == self.height,
                w * h <= k <= self.cells@.len(),
                cells@.len() == k,
                forall|j: int| 0 <= j < cells@.len() ==> #[trigger] cells@[j] == mirrored(self@).cells[j],
            decreases self.cells@.len() - k,
        {
            cells.push(self.cells[k]);
            k = k + 1;
        }
        let s = Stamp { width: w, height: h, cells };
        assert(s.cells@ =~= mirrored(self@).cells);
        s
    }

    /// Returns the stamp transformed by the symmetry that `r` selects:
    /// mirrored when `r >= 4`, then turned `r % 4` quarter turns
    /// clockwise. Values of `r` in `0..8` select the eight symmetries of
    /// the square.
    pub fn transform(&self, r: u8) -> (s: Stamp)
        requires
            transform_fits(self@, r),
        ensures
            s@ == transformed(self@, r),
            self.wf() ==> s.wf(),
    {
        proof {
            if r >= 4 && r % 4 != 0 && self.height > 0 {
                assert((self.height - 1) * self.width <= self.width * self.height) by (nonlinear_arith)
                    requires self.height >= 1;
            }
        }
        let mirrored = if r >= 4 {
            self.mirror_h()
        } else {
            Stamp { width: self.width, height: self.height, cells: self.copy_cells() }
        };
        let rotations = r % 4;
        let mut s = mirrored;
        let ghost start = s@;
        let mut i: u8 = 0;
        while i < rotations
            invariant
                0 <= i <= rotations,
                rotations == r % 4,
                rotations > 0 ==> rotate_fits(s@),
                self.wf() ==> s.wf(),
                s@ == rotated_times(start, i as nat),
            decreases rotations - i,
        {
            s = s.rotate_cw();
            i = i + 1;
        }
        s
    }

    /// The stamp of decoded rows.
    fn from_rows(rows: &Vec<Vec<bool>>) -> (s: Stamp)
        requires
            rows@.len() <= u32::MAX,
            max_row_len(rows_view(rows@)) * rows@.len() <= u32::MAX,
        ensures
            s@ == grid_of_rows(rows_view(rows@)),
            s.wf(),
    {
        let ghost rv = rows_view(rows@);
        if rows.len() == 0 {
            let s = Stamp { width: 0, height: 0, cells: Vec::new() };
            assert(rv.len() == 0);
            assert(max_row_len(rv) == 0);
            assert(max_row_len(rv) * rv.len() == 0) by (nonlinear_arith)
                requires rv.len() == 0;
            assert(grid_of_rows(rv).cells.len() == 0);
            assert(s@.cells =~= grid_of_rows(rv).cells);
            return s;
        }
        let w = longest_row(rows);
        assert(w <= u32::MAX) by (nonlinear_arith)
            requires w * rows@.len() <= u32::MAX, rows@.len() >= 1;
        let width = w as u32;
        let height = rows.len() as u32;
        let mut cells: Vec<bool> = Vec::new();
        let mut r: usize = 0;
        while r < rows.len()
            invariant
                rv == rows_view(rows@),
                w as nat == max_row_len(rv),
                w * rows@.len() <= u32::MAX,
                0 <= r <= rows@.len(),
                cells@.len() == r * w,
                forall|k: int| 0 <= k < cells@.len() ==> cells@[k] == #[trigger] padded_cell(rv, w as nat, k),
            decreases rows@.len() - r,
        {
            let row = &rows[r];
            assert(rv[r as int] == row@);
            proof {
                lemma_max_row_len_bound(rv, r as int);
            }
            let mut c: usize = 0;
            while c < w
                invariant
                    rv == rows_view(rows@),
                    rv[r as int] == row@,
                    row@.len() <= w,
                    w * rows@.len() <= u32::MAX,
                    0 <= r < rows@.len(),
                    0 <= c <= w,
                    cells@.len() == r * w + c,
                    forall|k: int| 0 <= k < cells@.len() ==> cells@[k] == #[trigger] padded_cell(rv, w as nat, k),
                decreases w - c,
            {
                proof {
                    lemma_div_mod_of(r as int, w as int, c as int);
                    lemma_index_bound(r as int, c as int, rows@.len() as int, w as int);
                }
                let v = if c < row.len() { row[c] } else { false };
                let ghost k = cells@.len() as int;
                cells.push(v);
                assert(padded_cell(rv, w as nat, k) == v);
                c = c + 1;
            }
            assert((r + 1) * w == r * w + w) by (nonlinear_arith);
            r = r + 1;
        }
        assert(rows@.len() * w == w * rows@.len()) by (nonlinear_arith);
        let s = Stamp { width, height, cells };
        assert(s@.cells =~= grid_of_rows(rv).cells);
        s
    }

    /// Decodes an RLE pattern into a stamp.
    pub fn from_rle(rle: &str) -> (s: Stamp)
        requires
            decode_fits(rle@),
        ensures
            s@ == decode(rle@),
            s.wf(),
    {
        let b = body_chars(rle);
        let rows = decode_rows(&b).unwrap();
        Self::from_rows(&rows)
    }

    /// Decodes an RLE pattern into a stamp, or gives `None` when the
    /// pattern is beyond the limits of a stamp.
    pub fn try_from_rle(rle: &str) -> (res: Option<Stamp>)
        ensures
            res is Some <==> decode_fits(rle@),
            res matches Some(s) ==> s@ == decode(rle@) && s.wf(),
    {
        let b = body_chars(rle);
        match decode_rows(&b) {
            None => None,
            Some(rows) => {
                let w = longest_row(&rows);
                let h = rows.len();
                if h > 0xffff_ffff || w > 0xffff_ffff {
                    if w > 0xffff_ffff {
                        assert(w * h > u32::MAX) by (nonlinear_arith)
                            requires w > 0xffff_ffff, h >= 1;
                    }
                    return None;
                }
                assert((w as u64) * (h as u64) <= 0xffff_ffff_ffff_ffff) by (nonlinear_arith)
                    requires w <= 0xffff_ffff, h <= 0xffff_ffff;
                let cells = (w as u64) * (h as u64);
                if cells > 0xffff_ffff {
                    return None;
                }
                Some(Self::from_rows(&rows))
            },
        }
    }
}

} // verus!
