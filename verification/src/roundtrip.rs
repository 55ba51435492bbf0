//! Reading a minified block string back gives the block string value it was made
//! from, and the minified block string ends exactly at its closing delimiter.

use vstd::prelude::*;
use crate::text::is_whitespace_byte;
use crate::block_string::{
    indent_of, lemma_indent_of, has_content, dedent_line, dedented, common_indent,
    first_content_line, last_content_line, lemma_content_lines, lemma_common_indent_le,
    lemma_common_indent_bound, lines_fit, forces_leading_newline, law_dedent_drops_blank_edges,
    law_dedent_removes_common_indent, join_lines,
    ends_with_escaped_triple_quote, forces_trailing_newline, printed_block_string, triple_quote,
};
use crate::lexer::{
    closes_at, escapes_at, closing_delimiter_from, is_line_break_byte, split_state, block_lines,
    block_body_len, block_consumed_len, minified_block_string, block_value,
};

verus! {

/// Scanning `t` from position `i` passes through position `j`.
pub open spec fn reaches(t: Seq<u8>, i: int, j: int) -> bool
    decreases t.len() - i,
{
    if i == j {
        true
    } else if i > j || i < 0 || i >= t.len() {
        false
    } else if closes_at(t, i) {
        false
    } else if escapes_at(t, i) {
        reaches(t, i + 4, j)
    } else {
        reaches(t, i + 1, j)
    }
}

/// Scanning through a position does not change where the scan ends.
pub proof fn lemma_reaches_closing(t: Seq<u8>, i: int, j: int)
    requires
        reaches(t, i, j),
    ensures
        closing_delimiter_from(t, i) == closing_delimiter_from(t, j),
    decreases t.len() - i,
{
    if i != j {
        if escapes_at(t, i) {
            lemma_reaches_closing(t, i + 4, j);
        } else {
            lemma_reaches_closing(t, i + 1, j);
        }
    }
}

/// A scan that finds no closing delimiter passes through every line break after its
/// start, and through the position after it.
pub proof fn lemma_reaches_line_break(t: Seq<u8>, i: int, j: int)
    requires
        0 <= i <= j < t.len(),
        is_line_break_byte(t[j]),
        closing_delimiter_from(t, i) is None,
    ensures
        reaches(t, i, j),
        reaches(t, i, j + 1),
    decreases t.len() - i,
{
    if i == j {
        assert(!escapes_at(t, i));
        assert(!closes_at(t, i));
        assert(reaches(t, i + 1, j + 1));
    } else {
        assert(!closes_at(t, i));
        if escapes_at(t, i) {
            if j < i + 4 {
                assert(t[j] == 0x22u8 || t[j] == 0x5cu8);
            }
            lemma_reaches_line_break(t, i + 4, j);
        } else {
            lemma_reaches_line_break(t, i + 1, j);
        }
    }
}

/// A line that is cut out of a text at a line break, starting where a scan of the
/// text that finds no closing delimiter passes, scans clean on its own.
pub proof fn lemma_scan_localize(t: Seq<u8>, a: int, q: int, c: int)
    requires
        0 <= a <= q <= c < t.len(),
        is_line_break_byte(t[c]),
        forall|j: int| a <= j < c ==> !is_line_break_byte(#[trigger] t[j]),
        closing_delimiter_from(t, q) is None,
    ensures
        closing_delimiter_from(t.subrange(a, c).push(0x0au8), q - a) is None,
    decreases c - q,
{
    let x = t.subrange(a, c).push(0x0au8);
    let r = q - a;
    assert(x.len() == c - a + 1);
    if q == c {
        assert(x[r] == 0x0au8);
        assert(!closes_at(x, r));
        assert(!escapes_at(x, r));
        assert(closing_delimiter_from(x, r + 1) is None);
    } else {
        assert(x[r] == t[q]);
        assert(!closes_at(t, q));
        if closes_at(x, r) {
            assert(x[r + 1] == t[q + 1]) by {
                if q + 1 == c {
                    assert(x[r + 1] == 0x0au8);
                }
            }
            assert(x[r + 2] == t[q + 2]) by {
                if q + 2 >= c {
                    assert(x[c - a] == 0x0au8);
                    assert(false);
                }
            }
        }
        assert(!closes_at(x, r));
        if escapes_at(t, q) {
            assert(q + 4 <= c) by {
                if q + 4 > c {
                    assert(t[c] == 0x22u8 || t[c] == 0x5cu8);
                }
            }
            assert(x[r + 1] == t[q + 1]);
            assert(x[r + 2] == t[q + 2]);
            assert(x[r + 3] == t[q + 3]);
            assert(escapes_at(x, r));
            lemma_scan_localize(t, a, q + 4, c);
        } else {
            if escapes_at(x, r) {
                assert(r + 3 < x.len() - 1) by {
                    if r + 3 >= x.len() - 1 {
                        assert(x[x.len() - 1] == 0x0au8);
                        assert(false);
                    }
                }
                assert(x[r + 1] == t[q + 1]);
                assert(x[r + 2] == t[q + 2]);
                assert(x[r + 3] == t[q + 3]);
                assert(escapes_at(t, q));
            }
            lemma_scan_localize(t, a, q + 1, c);
        }
    }
}

/// The line has no line feed and no carriage return.
pub open spec fn no_line_break(x: Seq<u8>) -> bool {
    forall|j: int| 0 <= j < x.len() ==> !is_line_break_byte(#[trigger] x[j])
}

/// Scanning the line, followed by a line feed, finds no closing delimiter.
pub open spec fn scans_clean(x: Seq<u8>) -> bool {
    closing_delimiter_from(x.push(0x0au8), 0) is None
}

/// Scanning depends only on what follows the starting position.
pub proof fn lemma_closing_suffix(t: Seq<u8>, p: int, q: int)
    requires
        0 <= p <= q,
        p <= t.len(),
    ensures
        closing_delimiter_from(t, q) == (match closing_delimiter_from(t.subrange(p, t.len() as int), q - p) {
            Some(e) => Some(e + p),
            None => None,
        }),
    decreases t.len() - q,
{
    let u = t.subrange(p, t.len() as int);
    if q < t.len() {
        assert(u[q - p] == t[q]);
        if q + 1 < t.len() {
            assert(u[q - p + 1] == t[q + 1]);
        }
        if q + 2 < t.len() {
            assert(u[q - p + 2] == t[q + 2]);
        }
        if q + 3 < t.len() {
            assert(u[q - p + 3] == t[q + 3]);
        }
        assert(closes_at(t, q) == closes_at(u, q - p));
        assert(escapes_at(t, q) == escapes_at(u, q - p));
        if !closes_at(t, q) {
            if escapes_at(t, q) {
                lemma_closing_suffix(t, p, q + 4);
            } else {
                lemma_closing_suffix(t, p, q + 1);
            }
        }
    }
}

/// A scan that finds a closing delimiter passes through its position.
pub proof fn lemma_closing_found_reached(t: Seq<u8>, i: int)
    requires
        closing_delimiter_from(t, i) is Some,
    ensures
        i <= closing_delimiter_from(t, i)->0,
        closes_at(t, closing_delimiter_from(t, i)->0),
        reaches(t, i, closing_delimiter_from(t, i)->0),
    decreases t.len() - i,
{
    if !closes_at(t, i) {
        if escapes_at(t, i) {
            lemma_closing_found_reached(t, i + 4);
        } else {
            lemma_closing_found_reached(t, i + 1);
        }
    }
}

/// A scan that finds no closing delimiter runs to the end.
pub proof fn lemma_closing_none_reached(t: Seq<u8>, i: int)
    requires
        0 <= i <= t.len(),
        closing_delimiter_from(t, i) is None,
    ensures
        reaches(t, i, t.len() as int),
    decreases t.len() - i,
{
    if i < t.len() {
        if escapes_at(t, i) {
            lemma_closing_none_reached(t, i + 4);
        } else {
            lemma_closing_none_reached(t, i + 1);
        }
    }
}

/// The body of a block string, followed by a line feed, scans clean from every
/// position the scan of the source passes before the body ends.
proof fn lemma_body_scans_clean(s: Seq<u8>, e: int, q: int)
    requires
        0 <= q <= e <= s.len(),
        reaches(s, q, e),
    ensures
        closing_delimiter_from(s.take(e).push(0x0au8), q) is None,
    decreases e - q,
{
    let t = s.take(e).push(0x0au8);
    assert(t.len() == e + 1);
    if q == e {
        assert(t[e] == 0x0au8);
        assert(!closes_at(t, q));
        assert(!escapes_at(t, q));
        assert(closing_delimiter_from(t, q + 1) is None);
    } else {
        assert(t[q] == s[q]);
        assert(!closes_at(s, q));
        if closes_at(t, q) {
            assert(q + 2 < e) by {
                if q + 2 >= e {
                    assert(t[e] == 0x0au8);
                }
            }
            assert(t[q + 1] == s[q + 1]);
            assert(t[q + 2] == s[q + 2]);
        }
        if escapes_at(s, q) {
            assert(q + 4 <= e) by {
                if q + 4 > e {
                    assert(!reaches(s, q + 4, e));
                }
            }
            assert(t[q + 1] == s[q + 1]);
            assert(t[q + 2] == s[q + 2]);
            assert(t[q + 3] == s[q + 3]);
            lemma_body_scans_clean(s, e, q + 4);
        } else {
            if escapes_at(t, q) {
                assert(q + 3 < e) by {
                    if q + 3 >= e {
                        assert(t[e] == 0x0au8);
                    }
                }
                assert(t[q + 1] == s[q + 1]);
                assert(t[q + 2] == s[q + 2]);
                assert(t[q + 3] == s[q + 3]);
            }
            lemma_body_scans_clean(s, e, q + 1);
        }
    }
}

/// The body of the block string at the start of `s`, followed by a line feed, scans clean.
pub proof fn lemma_block_body_clean(s: Seq<u8>)
    ensures
        0 <= block_body_len(s) <= s.len(),
        scans_clean(s.take(block_body_len(s))),
{
    let e = block_body_len(s);
    match closing_delimiter_from(s, 0) {
        Some(_) => {
            lemma_closing_found_reached(s, 0);
        },
        None => {
            lemma_closing_none_reached(s, 0);
        },
    }
    lemma_body_scans_clean(s, e, 0);
}

/// Every line is free of line breaks, scans clean, and is no longer than `bound`.
pub open spec fn good_lines(lines: Seq<Seq<u8>>, bound: int) -> bool {
    forall|i: int|
        0 <= i < lines.len() ==> {
            &&& no_line_break(#[trigger] lines[i])
            &&& scans_clean(lines[i])
            &&& lines[i].len() <= bound
        }
}

/// The state of splitting a prefix of a clean body: finished lines are good, and the
/// open line is the part of the prefix after its last line break.
proof fn lemma_split_state_good(body: Seq<u8>, k: int)
    requires
        scans_clean(body),
        0 <= k <= body.len(),
    ensures
        ({
            let st = split_state(body.take(k));
            let a = k - st.1.len();
            &&& good_lines(st.0, body.len() as int)
            &&& 0 <= a <= k
            &&& st.1 == body.subrange(a, k)
            &&& no_line_break(st.1)
            &&& (a == 0 || is_line_break_byte(body[a - 1]))
        }),
    decreases k,
{
    let t = body.push(0x0au8);
    if k == 0 {
        assert(body.take(0) =~= Seq::<u8>::empty());
        assert(body.subrange(0, 0) =~= Seq::<u8>::empty());
    } else {
        lemma_split_state_good(body, k - 1);
        let c = body.take(k);
        assert(c.drop_last() =~= body.take(k - 1));
        assert(c.last() == body[k - 1]);
        let prev = split_state(body.take(k - 1));
        let a = k - 1 - prev.1.len();
        let b = body[k - 1];
        if k >= 2 {
            assert(c[c.len() - 2] == body[k - 2]);
        }
        if b == 0x0au8 && k >= 2 && body[k - 2] == 0x0du8 {
            if prev.1.len() > 0 {
                assert(prev.1[prev.1.len() - 1] == body[k - 2]);
            }
            assert(body.subrange(k, k) =~= Seq::<u8>::empty());
        } else if is_line_break_byte(b) {
            // the open line is finished: it scans clean as a line of the body
            assert(t[k - 1] == b);
            assert forall|j: int| a <= j < k - 1 implies !is_line_break_byte(#[trigger] t[j]) by {
                assert(t[j] == body[j]);
                assert(prev.1[j - a] == body[j]);
            }
            if a > 0 {
                assert(t[a - 1] == body[a - 1]);
                lemma_reaches_line_break(t, 0, a - 1);
                lemma_reaches_closing(t, 0, a);
            }
            lemma_scan_localize(t, a, a, k - 1);
            assert(t.subrange(a, k - 1) =~= prev.1);
            let done = prev.0.push(prev.1);
            assert forall|i: int| 0 <= i < done.len() implies {
                &&& no_line_break(#[trigger] done[i])
                &&& scans_clean(done[i])
                &&& done[i].len() <= body.len()
            } by {
                if i < prev.0.len() {
                    assert(done[i] == prev.0[i]);
                }
            }
            assert(body.subrange(k, k) =~= Seq::<u8>::empty());
        } else {
            assert(prev.1.push(b) =~= body.subrange(a, k));
        }
    }
}

/// The lines of a clean body are good.
pub proof fn lemma_block_lines_good(body: Seq<u8>)
    requires
        scans_clean(body),
    ensures
        good_lines(block_lines(body), body.len() as int),
{
    lemma_split_state_good(body, body.len() as int);
    assert(body.take(body.len() as int) =~= body);
    let st = split_state(body);
    let a = body.len() - st.1.len();
    if st.1.len() > 0 {
        let t = body.push(0x0au8);
        assert forall|j: int| a <= j < body.len() implies !is_line_break_byte(#[trigger] t[j]) by {
            assert(t[j] == body[j]);
            assert(st.1[j - a] == body[j]);
        }
        if a > 0 {
            assert(t[a - 1] == body[a - 1]);
            lemma_reaches_line_break(t, 0, a - 1);
            lemma_reaches_closing(t, 0, a);
        }
        assert(t[body.len() as int] == 0x0au8);
        lemma_scan_localize(t, a, a, body.len() as int);
        assert(t.subrange(a, body.len() as int) =~= st.1);
        let lines = st.0.push(st.1);
        assert forall|i: int| 0 <= i < lines.len() implies {
            &&& no_line_break(#[trigger] lines[i])
            &&& scans_clean(lines[i])
            &&& lines[i].len() <= body.len()
        } by {
            if i < st.0.len() {
                assert(lines[i] == st.0[i]);
            }
        }
    }
}

/// A scan steps over leading whitespace one byte at a time.
proof fn lemma_reaches_over_whitespace(t: Seq<u8>, q: int, c: int)
    requires
        0 <= q <= c <= t.len(),
        forall|j: int| q <= j < c ==> #[trigger] is_whitespace_byte(t[j]),
    ensures
        reaches(t, q, c),
    decreases c - q,
{
    if q < c {
        assert(is_whitespace_byte(t[q]));
        assert(!closes_at(t, q));
        assert(!escapes_at(t, q));
        lemma_reaches_over_whitespace(t, q + 1, c);
    }
}

/// Removing leading whitespace from a good line gives a good line.
proof fn lemma_dedent_line_good(y: Seq<u8>, c: int)
    requires
        no_line_break(y),
        scans_clean(y),
        0 <= c,
        y.len() > c ==> c <= indent_of(y),
    ensures
        no_line_break(dedent_line(y, c)),
        scans_clean(dedent_line(y, c)),
        dedent_line(y, c).len() <= y.len(),
{
    let x = dedent_line(y, c);
    if y.len() > c {
        let t = y.push(0x0au8);
        lemma_indent_of(y);
        assert forall|j: int| 0 <= j < c implies #[trigger] is_whitespace_byte(t[j]) by {
            assert(t[j] == y[j]);
        }
        lemma_reaches_over_whitespace(t, 0, c);
        lemma_reaches_closing(t, 0, c);
        lemma_closing_suffix(t, c, c);
        assert(t.subrange(c, t.len() as int) =~= x.push(0x0au8));
        assert forall|j: int| 0 <= j < x.len() implies !is_line_break_byte(#[trigger] x[j]) by {
            assert(x[j] == y[j + c]);
        }
    } else {
        let t = x.push(0x0au8);
        assert(t[0] == 0x0au8);
        assert(!closes_at(t, 0));
        assert(!escapes_at(t, 0));
        assert(closing_delimiter_from(t, 1) is None);
    }
}

/// Dedenting good lines gives good lines.
pub proof fn lemma_dedented_good(lines: Seq<Seq<u8>>, bound: int)
    requires
        good_lines(lines, bound),
    ensures
        good_lines(dedented(lines), bound),
{
    lemma_content_lines(lines);
    lemma_common_indent_bound(lines);
    let d = dedented(lines);
    if first_content_line(lines) is Some {
        let start = first_content_line(lines)->0;
        let c = common_indent(lines);
        assert forall|k: int| 0 <= k < d.len() implies {
            &&& no_line_break(#[trigger] d[k])
            &&& scans_clean(d[k])
            &&& d[k].len() <= bound
        } by {
            let i = start + k;
            let y = lines[i];
            assert(no_line_break(y) && scans_clean(y) && y.len() <= bound);
            if i != 0 {
                if y.len() > c {
                    lemma_indent_of(y);
                    if has_content(y) {
                        lemma_common_indent_le(lines, i);
                    }
                }
                lemma_dedent_line_good(y, c);
            }
        }
    }
}

/// The lines read back from a printed block string: the lines themselves, after an
/// empty line when the printer put a line feed before them.
pub open spec fn reread_lines(d: Seq<Seq<u8>>) -> Seq<Seq<u8>> {
    if forces_leading_newline(d) {
        seq![Seq::<u8>::empty()] + d
    } else {
        d
    }
}

/// Removing no indentation leaves a line as it is.
proof fn lemma_dedent_line_zero(y: Seq<u8>)
    ensures
        dedent_line(y, 0) == y,
{
    if y.len() > 0 {
        assert(y.subrange(0, y.len() as int) =~= y);
    } else {
        assert(y =~= Seq::<u8>::empty());
    }
}

/// When the first and the last line have content, they are the first and the last
/// content lines.
proof fn lemma_content_edges(lines: Seq<Seq<u8>>, off: int)
    requires
        0 <= off < lines.len(),
        forall|i: int| 0 <= i < off ==> !#[trigger] has_content(lines[i]),
        has_content(lines[off]),
        has_content(lines.last()),
    ensures
        first_content_line(lines) == Some(off),
        last_content_line(lines) == Some(lines.len() - 1),
{
    lemma_content_lines(lines);
    let s = first_content_line(lines)->0;
    if s < off {
        assert(has_content(lines[s]));
    }
    if s > off {
        assert(!has_content(lines[off]));
    }
    let e = last_content_line(lines)->0;
    if e < lines.len() - 1 {
        assert(!has_content(lines[lines.len() - 1]));
    }
}

/// Dedenting the lines read back from a printed block string gives the printed lines
/// again.
pub proof fn lemma_dedent_fixpoint(lines: Seq<Seq<u8>>)
    requires
        lines_fit(lines),
    ensures
        dedented(reread_lines(dedented(lines))) == dedented(lines),
{
    let d = dedented(lines);
    let l2 = reread_lines(d);
    law_dedent_drops_blank_edges(lines);
    lemma_content_lines(lines);
    lemma_common_indent_bound(lines);
    if d.len() == 0 {
        assert(l2 == d);
        lemma_content_lines(l2);
        assert(dedented(l2) =~= d);
    } else if !forces_leading_newline(d) {
        assert(l2 == d);
        lemma_content_edges(d, 0);
        lemma_common_indent_bound(d);
        if d.len() >= 2 {
            let k = choose|k: int| 1 <= k < d.len() && !((#[trigger] d[k]).len() == 0 || is_whitespace_byte(d[k][0]));
            assert(indent_of(d[k]) == 0);
            assert(has_content(d[k]));
            lemma_common_indent_le(d, k);
        }
        assert forall|k: int| 0 <= k < d.len() implies #[trigger] dedented(d)[k] == d[k] by {
            if k != 0 {
                lemma_dedent_line_zero(d[k]);
            }
        }
        assert(dedented(d) =~= d);
    } else {
        assert(d.len() >= 2);
        let start = first_content_line(lines)->0;
        let end = last_content_line(lines)->0;
        assert(end >= 1);
        law_dedent_removes_common_indent(lines);
        let k = choose|k: int|
            0 <= k < d.len() && start + k >= 1 && has_content(#[trigger] d[k]) && indent_of(d[k]) == 0;
        assert(l2.len() == d.len() + 1);
        assert(!has_content(l2[0]));
        assert forall|i: int| 0 <= i < 1 implies !#[trigger] has_content(l2[i]) by {}
        assert(l2[1] == d[0]);
        assert(l2.last() == d.last());
        lemma_content_edges(l2, 1);
        assert(l2[k + 1] == d[k]);
        lemma_common_indent_le(l2, k + 1);
        lemma_common_indent_bound(l2);
        assert forall|j: int| 0 <= j < d.len() implies #[trigger] dedented(l2)[j] == d[j] by {
            assert(l2[1 + j] == d[j]);
            lemma_dedent_line_zero(d[j]);
        }
        assert(dedented(l2) =~= d);
    }
}

/// A text without line breaks is one open line.
proof fn lemma_split_no_break(x: Seq<u8>)
    requires
        no_line_break(x),
    ensures
        split_state(x) == (Seq::<Seq<u8>>::empty(), x),
    decreases x.len(),
{
    if x.len() > 0 {
        let init = x.drop_last();
        assert forall|j: int| 0 <= j < init.len() implies !is_line_break_byte(#[trigger] init[j]) by {
            assert(init[j] == x[j]);
        }
        lemma_split_no_break(init);
        assert(!is_line_break_byte(x.last()));
        assert(init.push(x.last()) =~= x);
    }
}

/// Splitting a text that follows a finished line: the lines add up.
proof fn lemma_split_concat(a: Seq<u8>, b: Seq<u8>)
    requires
        split_state(a).1.len() == 0,
        a.len() == 0 || a.last() != 0x0du8,
    ensures
        split_state(a + b) == (split_state(a).0 + split_state(b).0, split_state(b).1),
    decreases b.len(),
{
    if b.len() == 0 {
        assert(a + b =~= a);
        assert(split_state(a).0 + Seq::<Seq<u8>>::empty() =~= split_state(a).0);
        assert(split_state(a).1 =~= Seq::<u8>::empty());
    } else {
        let c = a + b;
        let binit = b.drop_last();
        lemma_split_concat(a, binit);
        assert(c.drop_last() =~= a + binit);
        assert(c.last() == b.last());
        if b.len() >= 2 {
            assert(c[c.len() - 2] == b[b.len() - 2]);
        } else if a.len() > 0 {
            assert(c[c.len() - 2] == a.last());
        }
        let pa = split_state(a);
        let pb = split_state(binit);
        let x = b.last();
        if x == 0x0au8 && b.len() >= 2 && b[b.len() - 2] == 0x0du8 {
        } else if is_line_break_byte(x) {
            assert((pa.0 + pb.0).push(pb.1) =~= pa.0 + pb.0.push(pb.1));
        } else {
        }
    }
}

/// Joined lines have no carriage return.
proof fn lemma_join_no_cr(d: Seq<Seq<u8>>)
    requires
        forall|i: int| 0 <= i < d.len() ==> no_line_break(#[trigger] d[i]),
    ensures
        forall|j: int| 0 <= j < join_lines(d).len() ==> #[trigger] join_lines(d)[j] != 0x0du8,
    decreases d.len(),
{
    if d.len() == 1 {
        assert(no_line_break(d[0]));
        assert forall|j: int| 0 <= j < join_lines(d).len() implies #[trigger] join_lines(d)[j] != 0x0du8 by {
            assert(!is_line_break_byte(d[0][j]));
        }
    } else if d.len() > 1 {
        let init = d.drop_last();
        assert forall|i: int| 0 <= i < init.len() implies no_line_break(#[trigger] init[i]) by {
            assert(init[i] == d[i]);
        }
        lemma_join_no_cr(init);
        let x = d.last();
        assert(no_line_break(x));
        let jn = join_lines(d);
        let ji = join_lines(init);
        assert forall|j: int| 0 <= j < jn.len() implies #[trigger] jn[j] != 0x0du8 by {
            if j < ji.len() {
                assert(jn[j] == ji[j]);
            } else if j == ji.len() {
                assert(jn[j] == 0x0au8);
            } else {
                assert(jn[j] == x[j - ji.len() - 1]);
                assert(!is_line_break_byte(x[j - ji.len() - 1]));
            }
        }
    }
}

/// Splitting joined lines gives them back, the last one still open.
proof fn lemma_split_join(d: Seq<Seq<u8>>)
    requires
        d.len() > 0,
        forall|i: int| 0 <= i < d.len() ==> no_line_break(#[trigger] d[i]),
    ensures
        split_state(join_lines(d)) == (d.drop_last(), d.last()),
        split_state(join_lines(d).push(0x0au8)) == (d, Seq::<u8>::empty()),
    decreases d.len(),
{
    if d.len() == 1 {
        lemma_split_no_break(d[0]);
        assert(d.drop_last() =~= Seq::<Seq<u8>>::empty());
    } else {
        let init = d.drop_last();
        assert forall|i: int| 0 <= i < init.len() implies no_line_break(#[trigger] init[i]) by {
            assert(init[i] == d[i]);
        }
        lemma_split_join(init);
        let x = d.last();
        assert(no_line_break(x));
        lemma_split_no_break(x);
        let a = join_lines(init).push(0x0au8);
        assert(join_lines(d) =~= a + x);
        lemma_split_concat(a, x);
        assert(init + Seq::<Seq<u8>>::empty() =~= init);
    }
    // closing the last line with a line feed
    let jn = join_lines(d);
    let c = jn.push(0x0au8);
    assert(c.drop_last() =~= jn);
    lemma_join_no_cr(d);
    if jn.len() > 0 {
        assert(c[c.len() - 2] == jn[jn.len() - 1]);
    }
    assert(d.drop_last().push(d.last()) =~= d);
}

/// Scanning text that follows a line feed is unaffected by what comes before,
/// once the scan has passed the line feed.
proof fn lemma_scan_past_line(a: Seq<u8>, c: Seq<u8>, q: int)
    requires
        0 <= q <= a.len(),
        closing_delimiter_from(a.push(0x0au8), q) is None,
    ensures
        closing_delimiter_from(a.push(0x0au8) + c, q) == closing_delimiter_from(
            a.push(0x0au8) + c,
            a.len() + 1int,
        ),
    decreases a.len() - q,
{
    let u = a.push(0x0au8);
    let t = u + c;
    let n = a.len() as int;
    assert(u[n] == 0x0au8);
    assert(t[n] == 0x0au8);
    if q == n {
        assert(!closes_at(t, q));
        assert(!escapes_at(t, q));
    } else {
        assert(t[q] == u[q]);
        assert(!closes_at(u, q));
        if closes_at(t, q) {
            assert(q + 2 < n) by {
                if q + 2 >= n {
                    assert(t[n] == 0x0au8);
                }
            }
            assert(t[q + 1] == u[q + 1]);
            assert(t[q + 2] == u[q + 2]);
        }
        if escapes_at(u, q) {
            assert(t[q + 1] == u[q + 1]);
            assert(t[q + 2] == u[q + 2]);
            assert(t[q + 3] == u[q + 3]);
            assert(q + 4 <= n) by {
                if q + 4 > n {
                    assert(u[n] == 0x0au8);
                }
            }
            lemma_scan_past_line(a, c, q + 4);
        } else {
            if escapes_at(t, q) {
                assert(q + 3 < n) by {
                    if q + 3 >= n {
                        assert(t[n] == 0x0au8);
                    }
                }
                assert(t[q + 1] == u[q + 1]);
                assert(t[q + 2] == u[q + 2]);
                assert(t[q + 3] == u[q + 3]);
            }
            lemma_scan_past_line(a, c, q + 1);
        }
    }
}

/// The scan of a line that scans clean, followed by a line feed and more text, goes on
/// in the text after the line feed.
proof fn lemma_scan_after_line(a: Seq<u8>, c: Seq<u8>)
    requires
        closing_delimiter_from(a.push(0x0au8), 0) is None,
    ensures
        closing_delimiter_from(a.push(0x0au8) + c, 0) == (match closing_delimiter_from(c, 0) {
            Some(e) => Some(e + a.len() + 1),
            None => None,
        }),
{
    let t = a.push(0x0au8) + c;
    lemma_scan_past_line(a, c, 0);
    lemma_closing_suffix(t, a.len() + 1int, a.len() + 1int);
    assert(t.subrange(a.len() + 1int, t.len() as int) =~= c);
}

/// Joined clean lines, followed by a line feed, scan clean.
proof fn lemma_join_scans_clean(d: Seq<Seq<u8>>)
    requires
        d.len() > 0,
        forall|i: int| 0 <= i < d.len() ==> scans_clean(#[trigger] d[i]),
    ensures
        scans_clean(join_lines(d)),
    decreases d.len(),
{
    if d.len() == 1 {
        assert(scans_clean(d[0]));
    } else {
        let init = d.drop_last();
        assert forall|i: int| 0 <= i < init.len() implies scans_clean(#[trigger] init[i]) by {
            assert(init[i] == d[i]);
        }
        lemma_join_scans_clean(init);
        let x = d.last();
        assert(scans_clean(x));
        lemma_scan_after_line(join_lines(init), x.push(0x0au8));
        assert(join_lines(d).push(0x0au8) =~= join_lines(init).push(0x0au8) + x.push(0x0au8));
    }
}

/// Three double quotes.
pub open spec fn quotes() -> Seq<u8> {
    seq![0x22u8, 0x22u8, 0x22u8]
}

/// A line followed by a line feed and the same line followed by the closing delimiter
/// scan alike up to position `k`.
proof fn lemma_scan_agree_to(x: Seq<u8>, q: int, k: int)
    requires
        0 <= q <= k <= x.len(),
        closing_delimiter_from(x.push(0x0au8), q) is None,
        forall|p: int|
            q <= p < k ==> #[trigger] closes_at(x.push(0x0au8), p) == closes_at(x + quotes(), p),
        forall|p: int|
            q <= p < k ==> #[trigger] escapes_at(x.push(0x0au8), p) == escapes_at(x + quotes(), p),
        forall|p: int| q <= p < k && #[trigger] escapes_at(x.push(0x0au8), p) ==> p + 4 <= k,
    ensures
        closing_delimiter_from(x + quotes(), q) == closing_delimiter_from(x + quotes(), k),
    decreases k - q,
{
    let t1 = x.push(0x0au8);
    let t2 = x + quotes();
    if q < k {
        assert(closes_at(t1, q) == closes_at(t2, q));
        assert(escapes_at(t1, q) == escapes_at(t2, q));
        assert(!closes_at(t1, q));
        if escapes_at(t1, q) {
            lemma_scan_agree_to(x, q + 4, k);
        } else {
            lemma_scan_agree_to(x, q + 1, k);
        }
    }
}

/// The last line of a printed block string that is not followed by a line feed runs
/// into the closing delimiter, which the scan then finds right after it.
proof fn lemma_last_line_closes(x: Seq<u8>)
    requires
        no_line_break(x),
        scans_clean(x),
        !(x.len() > 0 && (x.last() == 0x22u8 || x.last() == 0x5cu8)
            && !ends_with_escaped_triple_quote(x)),
    ensures
        closing_delimiter_from(x + quotes(), 0) == Some(x.len() as int),
{
    let t1 = x.push(0x0au8);
    let t2 = x + quotes();
    let n = x.len() as int;
    assert(t2[n] == 0x22u8);
    assert(t2[n + 1] == 0x22u8);
    assert(t2[n + 2] == 0x22u8);
    assert(t1[n] == 0x0au8);
    assert(closes_at(t2, n));
    assert(closing_delimiter_from(t2, n) == Some(n));
    if n == 0 {
    } else if x.last() != 0x22u8 && x.last() != 0x5cu8 {
        assert forall|p: int| 0 <= p < n implies #[trigger] closes_at(t1, p) == closes_at(t2, p) by {
            if p + 3 <= n {
                assert(t1[p] == t2[p] && t1[p + 1] == t2[p + 1] && t1[p + 2] == t2[p + 2]);
            } else {
                assert(t2[n - 1] == x.last());
                if closes_at(t2, p) {
                    assert(t2[n - 1] == 0x22u8);
                }
            }
        }
        assert forall|p: int| 0 <= p < n implies #[trigger] escapes_at(t1, p) == escapes_at(t2, p) by {
            if p + 4 <= n {
                assert(t1[p] == t2[p] && t1[p + 1] == t2[p + 1] && t1[p + 2] == t2[p + 2] && t1[p
                    + 3] == t2[p + 3]);
            } else {
                assert(t2[n - 1] == x.last());
                if escapes_at(t2, p) {
                    assert(t2[n - 1] == 0x22u8 || t2[n - 1] == 0x5cu8);
                }
                if escapes_at(t1, p) {
                    assert(t1[n] == 0x0au8);
                }
            }
        }
        assert forall|p: int| 0 <= p < n && #[trigger] escapes_at(t1, p) implies p + 4 <= n by {
            if p + 4 > n {
                assert(t1[n] == 0x0au8);
            }
        }
        lemma_scan_agree_to(x, 0, n);
    } else {
        assert(ends_with_escaped_triple_quote(x));
        let k = n - 4;
        assert(x[k] == 0x5cu8);
        assert forall|p: int| 0 <= p < k implies #[trigger] closes_at(t1, p) == closes_at(t2, p) by {
            assert(t1[p] == t2[p] && t1[p + 1] == t2[p + 1] && t1[p + 2] == t2[p + 2]);
        }
        assert forall|p: int| 0 <= p < k implies #[trigger] escapes_at(t1, p) == escapes_at(t2, p) by {
            assert(t1[p] == t2[p] && t1[p + 1] == t2[p + 1] && t1[p + 2] == t2[p + 2] && t1[p + 3]
                == t2[p + 3]);
        }
        assert forall|p: int| 0 <= p < k && #[trigger] escapes_at(t1, p) implies p + 4 <= k by {
            if p + 4 > k {
                assert(t1[k] == 0x5cu8);
            }
        }
        lemma_scan_agree_to(x, 0, k);
        assert(t2[k] == 0x5cu8);
        assert(t2[k + 1] == 0x22u8);
        assert(t2[k + 2] == 0x22u8);
        assert(t2[k + 3] == 0x22u8);
        assert(escapes_at(t2, k));
        assert(!closes_at(t2, k));
        assert(closing_delimiter_from(t2, k) == closing_delimiter_from(t2, k + 4));
    }
}

/// A line feed when the flag is set, nothing otherwise.
pub open spec fn line_feed_if(flag: bool) -> Seq<u8> {
    if flag {
        seq![0x0au8]
    } else {
        Seq::empty()
    }
}

/// What follows the opening delimiter in a printed block string, up to the closing one.
pub open spec fn printed_body(d: Seq<Seq<u8>>) -> Seq<u8> {
    line_feed_if(forces_leading_newline(d)) + join_lines(d) + line_feed_if(
        forces_trailing_newline(d),
    )
}

/// The last line, with the line feed that may follow it, runs into the closing delimiter.
proof fn lemma_last_part_closes(x: Seq<u8>, trail: bool)
    requires
        no_line_break(x),
        scans_clean(x),
        !trail ==> !(x.len() > 0 && (x.last() == 0x22u8 || x.last() == 0x5cu8)
            && !ends_with_escaped_triple_quote(x)),
    ensures
        closing_delimiter_from(x + line_feed_if(trail) + quotes(), 0) == Some(
            (x.len() + line_feed_if(trail).len()) as int,
        ),
{
    if trail {
        lemma_scan_after_line(x, quotes());
        assert(x + line_feed_if(trail) + quotes() =~= x.push(0x0au8) + quotes());
        assert(closes_at(quotes(), 0));
    } else {
        lemma_last_line_closes(x);
        assert(x + line_feed_if(trail) + quotes() =~= x + quotes());
    }
}

/// The scan of a printed block string after its opening delimiter stops at the
/// closing delimiter.
proof fn lemma_printed_body_closes(d: Seq<Seq<u8>>)
    requires
        good_lines(d, usize::MAX as int),
    ensures
        closing_delimiter_from(printed_body(d) + quotes(), 0) == Some(printed_body(d).len() as int),
{
    let lead = line_feed_if(forces_leading_newline(d));
    let trail = line_feed_if(forces_trailing_newline(d));
    let b = printed_body(d);
    if d.len() == 0 {
        assert(b =~= Seq::<u8>::empty());
        assert(b + quotes() =~= quotes());
        assert(closes_at(quotes(), 0));
    } else {
        let x = d.last();
        assert(no_line_break(x) && scans_clean(x));
        lemma_last_part_closes(x, forces_trailing_newline(d));
        if d.len() == 1 {
            assert(lead =~= Seq::<u8>::empty());
            assert(b + quotes() =~= x + trail + quotes());
        } else {
            let init = d.drop_last();
            assert forall|i: int| 0 <= i < init.len() implies scans_clean(#[trigger] init[i]) by {
                assert(init[i] == d[i]);
                assert(scans_clean(d[i]));
            }
            lemma_join_scans_clean(init);
            let a = lead + join_lines(init);
            if forces_leading_newline(d) {
                let nl = Seq::<u8>::empty().push(0x0au8);
                assert(nl[0] == 0x0au8);
                assert(!closes_at(nl, 0));
                assert(!escapes_at(nl, 0));
                assert(closing_delimiter_from(nl, 1) is None);
                assert(closing_delimiter_from(nl, 0) is None);
                lemma_scan_after_line(Seq::<u8>::empty(), join_lines(init).push(0x0au8));
                assert(Seq::<u8>::empty().push(0x0au8) + join_lines(init).push(0x0au8) =~= a.push(
                    0x0au8,
                ));
            } else {
                assert(a =~= join_lines(init));
            }
            lemma_scan_after_line(a, x + trail + quotes());
            assert(b + quotes() =~= a.push(0x0au8) + (x + trail + quotes()));
        }
    }
}

/// The lines of a printed block string body are the lines read back.
proof fn lemma_printed_body_lines(d: Seq<Seq<u8>>)
    requires
        good_lines(d, usize::MAX as int),
        d.len() > 0 ==> d.last().len() > 0,
    ensures
        block_lines(printed_body(d)) == reread_lines(d),
{
    let b = printed_body(d);
    if d.len() == 0 {
        assert(b =~= Seq::<u8>::empty());
    } else {
        assert forall|i: int| 0 <= i < d.len() implies no_line_break(#[trigger] d[i]) by {}
        lemma_split_join(d);
        let y = join_lines(d) + line_feed_if(forces_trailing_newline(d));
        assert(block_lines(y) == d) by {
            if forces_trailing_newline(d) {
                assert(y =~= join_lines(d).push(0x0au8));
            } else {
                assert(y =~= join_lines(d));
                assert(d.drop_last().push(d.last()) =~= d);
            }
        }
        if forces_leading_newline(d) {
            let nl = seq![0x0au8];
            assert(nl.drop_last() =~= Seq::<u8>::empty());
            assert(split_state(nl.drop_last()) == (Seq::<Seq<u8>>::empty(), Seq::<u8>::empty()));
            assert(nl.last() == 0x0au8);
            assert(Seq::<Seq<u8>>::empty().push(Seq::<u8>::empty()) =~= seq![Seq::<u8>::empty()]);
            assert(split_state(nl) == (seq![Seq::<u8>::empty()], Seq::<u8>::empty()));
            lemma_split_concat(nl, y);
            assert(b =~= nl + y);
            let st = split_state(y);
            if st.1.len() > 0 {
                assert((seq![Seq::<u8>::empty()] + st.0).push(st.1) =~= seq![Seq::<u8>::empty()] + st.0.push(st.1));
            }
        } else {
            assert(b =~= y);
        }
    }
}

/// The minified block string is read back as the same block string: the scan of it
/// stops exactly at its closing delimiter, its value (its lines, dedented) is the
/// value of the block string it was made from, and minifying it again changes nothing.
pub proof fn law_minified_block_string_reads_back(s: Seq<u8>)
    requires
        s.len() <= usize::MAX,
    ensures
        ({
            let m = minified_block_string(s);
            let r = m.subrange(3, m.len() as int);
            &&& m.len() >= 6
            &&& block_consumed_len(r) == r.len()
            &&& block_value(r) == block_value(s)
            &&& minified_block_string(r) == m
        }),
{
    let e = block_body_len(s);
    lemma_block_body_clean(s);
    let body = s.take(e);
    let lines = block_lines(body);
    lemma_block_lines_good(body);
    lemma_dedented_good(lines, body.len() as int);
    let d = dedented(lines);
    assert(good_lines(d, usize::MAX as int)) by {
        assert forall|i: int| 0 <= i < d.len() implies {
            &&& no_line_break(#[trigger] d[i])
            &&& scans_clean(d[i])
            &&& d[i].len() <= usize::MAX
        } by {}
    }
    assert(lines_fit(lines)) by {
        assert forall|i: int| 0 <= i < lines.len() implies (#[trigger] lines[i]).len() <= usize::MAX by {}
    }
    law_dedent_drops_blank_edges(lines);
    if d.len() > 0 {
        assert(has_content(d.last()));
    }
    let m = minified_block_string(s);
    assert(m == printed_block_string(d));
    let b = printed_body(d);
    assert(m =~= triple_quote() + b + quotes());
    let r = m.subrange(3, m.len() as int);
    assert(r =~= b + quotes());
    lemma_printed_body_closes(d);
    assert(block_body_len(r) == b.len());
    assert(r.take(b.len() as int) =~= b);
    lemma_printed_body_lines(d);
    lemma_dedent_fixpoint(lines);
}

} // verus!
