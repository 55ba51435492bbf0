//! Pieces of the GraphQL lexer: the check on string tokens and the scanner for
//! the body of a block string.

use vstd::prelude::*;
use vstd::utf8::*;
use vstd::string::*;
use core::ops::Range;
use crate::block_string::{
    BlockStringLines, dedent_block_lines_mut, print_block_string, dedented, printed_block_string,
};
use crate::text::{copy_range, lemma_boundary_after_ascii, lemma_ascii_is_boundary, lemma_valid_between_boundaries};

verus! {

/// An error that can occur while lexing.
#[derive(Debug, PartialEq)]
pub enum LexingError {
    /// A byte sequence that starts no token.
    UnknownToken,
    /// A string token that spans a line break; the range is its position in the source.
    UnterminatedString(Range<usize>),
}

impl Clone for LexingError {
    fn clone(&self) -> (res: Self)
        ensures
            res == *self,
    {
        match self {
            LexingError::UnknownToken => LexingError::UnknownToken,
            LexingError::UnterminatedString(span) => LexingError::UnterminatedString(
                Range { start: span.start, end: span.end },
            ),
        }
    }
}

impl Default for LexingError {
    fn default() -> (res: Self)
        ensures
            res == LexingError::UnknownToken,
    {
        LexingError::UnknownToken
    }
}

/// A line feed or a carriage return.
pub open spec fn is_line_break_byte(b: u8) -> bool {
    b == 0x0au8 || b == 0x0du8
}

/// Some byte of `s` is a line feed or a carriage return.
pub open spec fn has_line_break(s: Seq<u8>) -> bool {
    exists|j: int| 0 <= j < s.len() && is_line_break_byte(#[trigger] s[j])
}

/// Checks a quoted string token: a string may not run over a line break.
pub fn string_token<'a>(slice: &'a str, span: Range<usize>) -> (res: Result<&'a str, LexingError>)
    ensures
        has_line_break(slice.spec_bytes()) ==> res == Err::<&'a str, LexingError>(
            LexingError::UnterminatedString(span),
        ),
        !has_line_break(slice.spec_bytes()) ==> res == Ok::<&'a str, LexingError>(slice),
{
    let bytes = slice.as_bytes();
    let mut i: usize = 0;
    while i < bytes.len()
        invariant
            bytes@ == slice.spec_bytes(),
            i <= bytes@.len(),
            forall|j: int| 0 <= j < i ==> !is_line_break_byte(#[trigger] bytes@[j]),
        decreases bytes@.len() - i,
    {
        if bytes[i] == 0x0au8 || bytes[i] == 0x0du8 {
            assert(is_line_break_byte(bytes@[i as int]));
            return Err(LexingError::UnterminatedString(span));
        }
        i = i + 1;
    }
    Ok(slice)
}

/// Three double quotes, which close a block string, start at position `i`.
pub open spec fn closes_at(s: Seq<u8>, i: int) -> bool {
    &&& 0 <= i
    &&& i + 3 <= s.len()
    &&& s[i] == 0x22u8
    &&& s[i + 1] == 0x22u8
    &&& s[i + 2] == 0x22u8
}

/// A backslash followed by three double quotes, which stand for themselves inside a
/// block string, starts at position `i`.
pub open spec fn escapes_at(s: Seq<u8>, i: int) -> bool {
    &&& 0 <= i
    &&& i + 4 <= s.len()
    &&& s[i] == 0x5cu8
    &&& s[i + 1] == 0x22u8
    &&& s[i + 2] == 0x22u8
    &&& s[i + 3] == 0x22u8
}

/// Scanning the body of a block string from position `i`: the position of the
/// closing delimiter, stepping over escaped delimiters whole, or `None` when the
/// input ends first.
pub open spec fn closing_delimiter_from(s: Seq<u8>, i: int) -> Option<int>
    decreases s.len() - i,
{
    if i < 0 || i >= s.len() {
        None
    } else if closes_at(s, i) {
        Some(i)
    } else if escapes_at(s, i) {
        closing_delimiter_from(s, i + 4)
    } else {
        closing_delimiter_from(s, i + 1)
    }
}

/// The length of the body of a block string that starts at the beginning of `s`.
pub open spec fn block_body_len(s: Seq<u8>) -> int {
    match closing_delimiter_from(s, 0) {
        Some(e) => e,
        None => s.len() as int,
    }
}

/// The number of bytes the block string takes: its body and, when present, the
/// closing delimiter.
pub open spec fn block_consumed_len(s: Seq<u8>) -> int {
    match closing_delimiter_from(s, 0) {
        Some(e) => e + 3,
        None => s.len() as int,
    }
}

/// Splitting `c` at line breaks (a carriage return followed by a line feed counts
/// once): the finished lines and the line still open at the end.
pub open spec fn split_state(c: Seq<u8>) -> (Seq<Seq<u8>>, Seq<u8>)
    decreases c.len(),
{
    if c.len() == 0 {
        (Seq::empty(), Seq::empty())
    } else {
        let prev = split_state(c.drop_last());
        let b = c.last();
        if b == 0x0au8 && c.len() >= 2 && c[c.len() - 2] == 0x0du8 {
            prev
        } else if is_line_break_byte(b) {
            (prev.0.push(prev.1), Seq::empty())
        } else {
            (prev.0, prev.1.push(b))
        }
    }
}

/// The lines of a block string body; a last line that is empty is left out.
pub open spec fn block_lines(c: Seq<u8>) -> Seq<Seq<u8>> {
    let st = split_state(c);
    if st.1.len() > 0 {
        st.0.push(st.1)
    } else {
        st.0
    }
}

/// The value of the block string whose body starts `s`: the lines of its body,
/// dedented.
pub open spec fn block_value(s: Seq<u8>) -> Seq<Seq<u8>> {
    dedented(block_lines(s.take(block_body_len(s))))
}

/// The minified form of the block string whose body starts `s`.
pub open spec fn minified_block_string(s: Seq<u8>) -> Seq<u8> {
    printed_block_string(block_value(s))
}

/// Reads a block string whose opening delimiter has just been consumed: `remainder`
/// is the source after it. Returns the block string printed in minified form and
/// the number of bytes of `remainder` it took, closing delimiter included.
pub fn parse_block_string(remainder: &str) -> (res: (String, usize))
    requires
        remainder.spec_bytes().len() + 7 <= usize::MAX,
    ensures
        res.0@ == decode_utf8(minified_block_string(remainder.spec_bytes())),
        res.1 == block_consumed_len(remainder.spec_bytes()),
{
    let bytes = remainder.as_bytes();
    let ghost b = bytes@;
    proof {
        broadcast use encode_utf8_valid_utf8;
        assert(valid_utf8(b));
    }
    let len = bytes.len();
    let mut lines = BlockStringLines::with_capacity(5);
    let mut line_start: usize = 0;
    let mut i: usize = 0;
    let mut closed = false;
    proof {
        is_char_boundary_start_end_of_seq(b);
        assert(b.take(0) =~= Seq::<u8>::empty());
        assert(b.subrange(0, 0) =~= Seq::<u8>::empty());
        assert(lines@ =~= Seq::<Seq<u8>>::empty());
    }
    while i < len
        invariant_except_break
            !closed,
        invariant
            b == bytes@,
            valid_utf8(b),
            len == b.len(),
            len + 7 <= usize::MAX,
            line_start <= i <= len,
            lines.wf(),
            lines.total_len() <= line_start,
            is_char_boundary(b, line_start as int),
            split_state(b.take(i as int)) == (lines@, b.subrange(line_start as int, i as int)),
            closing_delimiter_from(b, 0) == closing_delimiter_from(b, i as int),
            i > 0 && b[i - 1] == 0x0du8 && i < len ==> b[i as int] != 0x0au8,
            closed ==> i < len && closing_delimiter_from(b, i as int) == Some(i as int),
        ensures
            closed ==> closing_delimiter_from(b, 0) == Some(i as int),
            closed ==> i < len && b[i as int] == 0x22u8,
            !closed ==> closing_delimiter_from(b, 0) is None && i == len,
        decreases len - i,
    {
        let c = bytes[i];
        if len - i >= 3 && c == 0x22u8 && bytes[i + 1] == 0x22u8 && bytes[i + 2] == 0x22u8 {
            closed = true;
            break;
        } else if len - i >= 4 && c == 0x5cu8 && bytes[i + 1] == 0x22u8 && bytes[i + 2] == 0x22u8
            && bytes[i + 3] == 0x22u8 {
            proof {
                lemma_split_state_step(b, i as int);
                lemma_split_state_step(b, i + 1);
                lemma_split_state_step(b, i + 2);
                lemma_split_state_step(b, i + 3);
                assert(b.subrange(line_start as int, i + 4) =~= b.subrange(
                    line_start as int,
                    i as int,
                ).push(b[i as int]).push(b[i + 1]).push(b[i + 2]).push(b[i + 3]));
            }
            i = i + 4;
        } else if c == 0x0du8 || c == 0x0au8 {
            proof {
                lemma_ascii_is_boundary(b, i as int);
                lemma_valid_between_boundaries(b, line_start as int, i as int);
                lemma_split_state_step(b, i as int);
            }
            let line = copy_range(bytes, line_start, i);
            lines.push_bytes(line);
            proof {
                lemma_boundary_after_ascii(b, i as int);
            }
            if c == 0x0du8 && len - i >= 2 && bytes[i + 1] == 0x0au8 {
                proof {
                    assert(closing_delimiter_from(b, i as int) == closing_delimiter_from(b, i + 1));
                    lemma_split_state_step(b, i + 1);
                    lemma_boundary_after_ascii(b, i + 1);
                    assert(b.subrange(i + 2, i + 2) =~= Seq::<u8>::empty());
                }
                i = i + 2;
            } else {
                proof {
                    assert(b.subrange(i + 1, i + 1) =~= Seq::<u8>::empty());
                }
                i = i + 1;
            }
            line_start = i;
        } else {
            proof {
                lemma_split_state_step(b, i as int);
                assert(b.subrange(line_start as int, i + 1) =~= b.subrange(
                    line_start as int,
                    i as int,
                ).push(b[i as int]));
            }
            i = i + 1;
        }
    }
    let ghost body = b.take(i as int);
    assert(i as int == block_body_len(b));
    proof {
        if i < len {
            lemma_ascii_is_boundary(b, i as int);
        } else {
            lemma_ascii_is_boundary(b, len as int);
        }
        lemma_valid_between_boundaries(b, line_start as int, i as int);
    }
    if line_start < i {
        let line = copy_range(bytes, line_start, i);
        lines.push_bytes(line);
    }
    assert(lines@ == block_lines(body));
    dedent_block_lines_mut(&mut lines);
    let printed = print_block_string(&lines);
    let consumed = if closed { i + 3 } else { len };
    (printed, consumed)
}

/// One step of `split_state` over the prefix of `b`.
proof fn lemma_split_state_step(b: Seq<u8>, i: int)
    requires
        0 <= i < b.len(),
    ensures
        ({
            let prev = split_state(b.take(i));
            let next = split_state(b.take(i + 1));
            if b[i] == 0x0au8 && i >= 1 && b[i - 1] == 0x0du8 {
                next == prev
            } else if is_line_break_byte(b[i]) {
                next == (prev.0.push(prev.1), Seq::<u8>::empty())
            } else {
                next == (prev.0, prev.1.push(b[i]))
            }
        }),
{
    let c = b.take(i + 1);
    assert(c.drop_last() =~= b.take(i));
    assert(c.last() == b[i]);
    if i >= 1 {
        assert(c[c.len() - 2] == b[i - 1]);
    }
}

/// A string token is refused exactly when it holds a line feed or a carriage return;
/// any other byte, a tab or a quote included, is no line break.
pub proof fn law_line_breaks_are_feed_and_return(s: Seq<u8>)
    ensures
        has_line_break(s) <==> exists|j: int| 0 <= j < s.len() && (#[trigger] s[j] == 0x0au8 || s[j] == 0x0du8),
        forall|b: u8| #[trigger] is_line_break_byte(b) <==> (b == 0x0au8 || b == 0x0du8),
{
    if has_line_break(s) {
        let j = choose|j: int| 0 <= j < s.len() && is_line_break_byte(#[trigger] s[j]);
        assert(s[j] == 0x0au8 || s[j] == 0x0du8);
    }
    if exists|j: int| 0 <= j < s.len() && (#[trigger] s[j] == 0x0au8 || s[j] == 0x0du8) {
        let j = choose|j: int| 0 <= j < s.len() && (#[trigger] s[j] == 0x0au8 || s[j] == 0x0du8);
        assert(is_line_break_byte(s[j]));
    }
}

} // verus!
