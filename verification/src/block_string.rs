//! GraphQL block strings: splitting into lines, dedenting and printing.

use vstd::prelude::*;
use vstd::utf8::*;
use crate::text::{is_whitespace_byte, copy_range, append_bytes, string_of_utf8_bytes, lemma_ascii_valid_utf8, lemma_valid_utf8_skip_ascii};

verus! {

/// The sum of the byte lengths of the lines.
pub open spec fn total_line_bytes(lines: Seq<Seq<u8>>) -> nat
    decreases lines.len(),
{
    if lines.len() == 0 {
        0
    } else {
        total_line_bytes(lines.drop_last()) + lines.last().len()
    }
}

/// The byte lengths of two runs of lines add up.
pub proof fn lemma_total_line_bytes_concat(a: Seq<Seq<u8>>, b: Seq<Seq<u8>>)
    ensures
        total_line_bytes(a + b) == total_line_bytes(a) + total_line_bytes(b),
    decreases b.len(),
{
    if b.len() == 0 {
        assert(a + b =~= a);
    } else {
        lemma_total_line_bytes_concat(a, b.drop_last());
        assert((a + b).drop_last() =~= a + b.drop_last());
    }
}

/// Lines that are each no longer than their counterparts are no longer in total.
pub proof fn lemma_total_line_bytes_pointwise(a: Seq<Seq<u8>>, b: Seq<Seq<u8>>)
    requires
        a.len() == b.len(),
        forall|i: int| 0 <= i < a.len() ==> (#[trigger] a[i]).len() <= b[i].len(),
    ensures
        total_line_bytes(a) <= total_line_bytes(b),
    decreases a.len(),
{
    if a.len() > 0 {
        let a0 = a.drop_last();
        let b0 = b.drop_last();
        assert forall|i: int| 0 <= i < a0.len() implies (#[trigger] a0[i]).len() <= b0[i].len() by {
            assert(a0[i] == a[i]);
            assert(b0[i] == b[i]);
        }
        lemma_total_line_bytes_pointwise(a0, b0);
        assert(a.last().len() <= b.last().len());
    }
}

/// The lines of a block string, in order, each kept as its UTF-8 bytes, together
/// with the total length of the lines pushed so far (a size hint for printing).
pub struct BlockStringLines {
    lines: Vec<Vec<u8>>,
    total_len: usize,
}

impl View for BlockStringLines {
    type V = Seq<Seq<u8>>;

    closed spec fn view(&self) -> Seq<Seq<u8>> {
        Seq::new(self.lines@.len(), |i: int| self.lines@[i]@)
    }
}

impl BlockStringLines {
    /// Every line is well-formed UTF-8, and the size hint covers the lines held.
    pub closed spec fn wf(&self) -> bool {
        &&& forall|i: int| 0 <= i < self@.len() ==> valid_utf8(#[trigger] self@[i])
        &&& total_line_bytes(self@) <= self.total_len
    }

    /// The sum of the byte lengths of all lines pushed so far.
    pub closed spec fn total_len(&self) -> nat {
        self.total_len as nat
    }

    /// An empty set of lines with room for `capacity` lines.
    pub fn with_capacity(capacity: usize) -> (res: Self)
        ensures
            res.wf(),
            res@ == Seq::<Seq<u8>>::empty(),
            res.total_len() == 0,
            res.total_len() == total_line_bytes(res@),
    {
        let res = BlockStringLines { lines: Vec::with_capacity(capacity), total_len: 0 };
        assert(res@ =~= Seq::<Seq<u8>>::empty());
        res
    }

    /// Appends a line.
    pub fn push(&mut self, line: String)
        requires
            old(self).wf(),
            old(self).total_len() + encode_utf8(line@).len() <= usize::MAX,
        ensures
            final(self).wf(),
            final(self)@ == old(self)@.push(encode_utf8(line@)),
            final(self).total_len() == old(self).total_len() + encode_utf8(line@).len(),
            total_line_bytes(final(self)@) == total_line_bytes(old(self)@) + encode_utf8(line@).len(),
    {
        let bytes = line.as_str().as_bytes();
        let mut v: Vec<u8> = Vec::new();
        append_bytes(&mut v, bytes);
        proof {
            broadcast use encode_utf8_valid_utf8;
            assert(v@ =~= encode_utf8(line@));
        }
        self.total_len = self.total_len + bytes.len();
        self.lines.push(v);
        assert(self@ =~= old(self)@.push(encode_utf8(line@)));
        assert(self@.drop_last() =~= old(self)@);
    }

    /// Appends a line given by its bytes.
    pub(crate) fn push_bytes(&mut self, line: Vec<u8>)
        requires
            old(self).wf(),
            valid_utf8(line@),
            old(self).total_len() + line@.len() <= usize::MAX,
        ensures
            final(self).wf(),
            final(self)@ == old(self)@.push(line@),
            final(self).total_len() == old(self).total_len() + line@.len(),
            total_line_bytes(final(self)@) == total_line_bytes(old(self)@) + line@.len(),
    {
        self.total_len = self.total_len + line.len();
        self.lines.push(line);
        assert(self@ =~= old(self)@.push(line@));
        assert(self@.drop_last() =~= old(self)@);
    }

    /// The number of lines.
    pub fn len(&self) -> (res: usize)
        ensures
            res == self@.len(),
    {
        self.lines.len()
    }

    /// The lines as owned strings.
    pub fn lines(&self) -> (res: Vec<String>)
        requires
            self.wf(),
        ensures
            res@.len() == self@.len(),
            forall|i: int| 0 <= i < self@.len() ==> #[trigger] res@[i]@ == decode_utf8(self@[i]),
    {
        let mut res: Vec<String> = Vec::new();
        let mut i: usize = 0;
        while i < self.lines.len()
            invariant
                self.wf(),
                i <= self@.len(),
                res@.len() == i,
                forall|j: int| 0 <= j < i ==> #[trigger] res@[j]@ == decode_utf8(self@[j]),
            decreases self@.len() - i,
        {
            assert(valid_utf8(self@[i as int]));
            let s = string_of_utf8_bytes(self.lines[i].as_slice());
            res.push(s);
            i = i + 1;
        }
        res
    }
}

impl Default for BlockStringLines {
    fn default() -> (res: Self)
        ensures
            res.wf(),
            res@ == Seq::<Seq<u8>>::empty(),
            res.total_len() == 0,
            res.total_len() == total_line_bytes(res@),
    {
        BlockStringLines::with_capacity(0)
    }
}

/// The number of leading whitespace bytes of `line`.
pub open spec fn indent_of(line: Seq<u8>) -> nat
    decreases line.len(),
{
    if line.len() > 0 && is_whitespace_byte(line[0]) {
        1 + indent_of(line.drop_first())
    } else {
        0
    }
}

/// `indent_of` counts exactly the run of whitespace bytes at the start of the line.
pub proof fn lemma_indent_of(line: Seq<u8>)
    ensures
        indent_of(line) <= line.len(),
        forall|j: int| 0 <= j < indent_of(line) ==> #[trigger] is_whitespace_byte(line[j]),
        indent_of(line) < line.len() ==> !is_whitespace_byte(line[indent_of(line) as int]),
    decreases line.len(),
{
    if line.len() > 0 && is_whitespace_byte(line[0]) {
        let rest = line.drop_first();
        lemma_indent_of(rest);
        assert forall|j: int| 0 <= j < indent_of(line) implies #[trigger] is_whitespace_byte(line[j]) by {
            if j > 0 {
                assert(line[j] == rest[j - 1]);
            }
        }
    }
}

/// A line with at least one byte that is not whitespace.
pub open spec fn has_content(line: Seq<u8>) -> bool {
    indent_of(line) < line.len()
}

/// The smallest indentation among the lines with content, the first line excluded;
/// `usize::MAX` when there is none.
pub open spec fn common_indent(lines: Seq<Seq<u8>>) -> int
    decreases lines.len(),
{
    if lines.len() <= 1 {
        usize::MAX as int
    } else {
        let rest = common_indent(lines.drop_last());
        let last = lines.last();
        if has_content(last) && indent_of(last) < rest {
            indent_of(last) as int
        } else {
            rest
        }
    }
}

/// The index of the first line with content.
pub open spec fn first_content_line(lines: Seq<Seq<u8>>) -> Option<int>
    decreases lines.len(),
{
    if lines.len() == 0 {
        None
    } else {
        match first_content_line(lines.drop_last()) {
            Some(k) => Some(k),
            None => if has_content(lines.last()) {
                Some(lines.len() - 1)
            } else {
                None
            },
        }
    }
}

/// The index of the last line with content.
pub open spec fn last_content_line(lines: Seq<Seq<u8>>) -> Option<int>
    decreases lines.len(),
{
    if lines.len() == 0 {
        None
    } else if has_content(lines.last()) {
        Some(lines.len() - 1)
    } else {
        last_content_line(lines.drop_last())
    }
}

/// A line with its first `indent` bytes removed, or emptied when it is not longer than that.
pub open spec fn dedent_line(line: Seq<u8>, indent: int) -> Seq<u8> {
    if line.len() > indent {
        line.subrange(indent, line.len() as int)
    } else {
        Seq::empty()
    }
}

/// The lines of a block string after removing the common indentation from every
/// line but the first, and dropping the blank lines at the start and the end.
pub open spec fn dedented(lines: Seq<Seq<u8>>) -> Seq<Seq<u8>> {
    match (first_content_line(lines), last_content_line(lines)) {
        (Some(start), Some(end)) => Seq::new(
            (end + 1 - start) as nat,
            |k: int|
                if start + k == 0 {
                    lines[0]
                } else {
                    dedent_line(lines[start + k], common_indent(lines))
                },
        ),
        _ => Seq::empty(),
    }
}

/// Facts about the content lines: they exist together, are ordered, and every line
/// outside them is blank.
pub proof fn lemma_content_lines(lines: Seq<Seq<u8>>)
    ensures
        first_content_line(lines) is Some <==> last_content_line(lines) is Some,
        first_content_line(lines) is Some <==> exists|i: int|
            0 <= i < lines.len() && #[trigger] has_content(lines[i]),
        first_content_line(lines) matches Some(s) ==> {
            &&& 0 <= s < lines.len()
            &&& has_content(lines[s])
            &&& forall|i: int| 0 <= i < s ==> !#[trigger] has_content(lines[i])
        },
        last_content_line(lines) matches Some(e) ==> {
            &&& 0 <= e < lines.len()
            &&& has_content(lines[e])
            &&& forall|i: int| e < i < lines.len() ==> !#[trigger] has_content(lines[i])
        },
        first_content_line(lines) is Some ==>
            first_content_line(lines)->0 <= last_content_line(lines)->0,
    decreases lines.len(),
{
    if lines.len() > 0 {
        let init = lines.drop_last();
        lemma_content_lines(init);
        assert forall|i: int| 0 <= i < init.len() implies init[i] == lines[i] by {}
        if first_content_line(init) is None {
            assert forall|i: int| 0 <= i < init.len() implies !#[trigger] has_content(lines[i]) by {
                assert(init[i] == lines[i]);
                if has_content(lines[i]) {
                    assert(has_content(init[i]));
                }
            }
        }
        if exists|i: int| 0 <= i < lines.len() && #[trigger] has_content(lines[i]) {
            let i = choose|i: int| 0 <= i < lines.len() && #[trigger] has_content(lines[i]);
            if i < init.len() {
                assert(has_content(init[i]));
            }
        }
    }
}

/// The common indentation is no larger than the indentation of any line with
/// content after the first.
pub proof fn lemma_common_indent_le(lines: Seq<Seq<u8>>, k: int)
    requires
        1 <= k < lines.len(),
        has_content(lines[k]),
    ensures
        common_indent(lines) <= indent_of(lines[k]),
    decreases lines.len(),
{
    if k < lines.len() - 1 {
        let init = lines.drop_last();
        assert(init[k] == lines[k]);
        lemma_common_indent_le(init, k);
    }
}

/// The common indentation is `usize::MAX` or the indentation of some line.
pub proof fn lemma_common_indent_bound(lines: Seq<Seq<u8>>)
    ensures
        0 <= common_indent(lines) <= usize::MAX,
    decreases lines.len(),
{
    if lines.len() > 1 {
        lemma_common_indent_bound(lines.drop_last());
    }
}

/// Tells whether a byte is GraphQL whitespace (space or tab).
pub fn is_graphql_whitespace(b: u8) -> (res: bool)
    ensures
        res == is_whitespace_byte(b),
{
    b == 0x20u8 || b == 0x09u8
}

/// The number of leading whitespace bytes of `s` (the whole length when `s` is blank).
pub fn leading_whitespace(s: &[u8]) -> (res: usize)
    ensures
        res == indent_of(s@),
{
    let mut i: usize = 0;
    while i < s.len() && is_graphql_whitespace(s[i])
        invariant
            i <= s.len(),
            forall|j: int| 0 <= j < i ==> #[trigger] is_whitespace_byte(s@[j]),
        decreases s.len() - i,
    {
        i = i + 1;
    }
    proof {
        lemma_indent_from_position(s@, i as int);
    }
    i
}

/// A position that ends a whitespace run and starts a non-whitespace byte
/// (or the end) is the indentation.
proof fn lemma_indent_from_position(line: Seq<u8>, i: int)
    requires
        0 <= i <= line.len(),
        forall|j: int| 0 <= j < i ==> #[trigger] is_whitespace_byte(line[j]),
        i < line.len() ==> !is_whitespace_byte(line[i]),
    ensures
        indent_of(line) == i,
    decreases line.len(),
{
    if i > 0 {
        let rest = line.drop_first();
        assert(is_whitespace_byte(line[0]));
        assert forall|j: int| 0 <= j < i - 1 implies #[trigger] is_whitespace_byte(rest[j]) by {
            assert(rest[j] == line[j + 1]);
            assert(is_whitespace_byte(line[j + 1]));
        }
        if i - 1 < rest.len() {
            assert(rest[i - 1] == line[i]);
        }
        lemma_indent_from_position(rest, i - 1);
    }
}

/// Removes the common indentation from every line but the first, then drops the
/// blank lines at the start and at the end. The size hint is left as it was.
pub fn dedent_block_lines_mut(lines: &mut BlockStringLines)
    requires
        old(lines).wf(),
    ensures
        final(lines).wf(),
        final(lines)@ == dedented(old(lines)@),
        final(lines).total_len() == old(lines).total_len(),
{
    let ghost all = lines@;
    let n = lines.lines.len();
    let mut common: usize = usize::MAX;
    let mut first: Option<usize> = None;
    let mut last: Option<usize> = None;
    let mut i: usize = 0;
    while i < n
        invariant
            n == all.len(),
            all == lines@,
            i <= n,
            common as int == common_indent(all.take(i as int)),
            first matches Some(f) ==> first_content_line(all.take(i as int)) == Some(f as int),
            first is None ==> first_content_line(all.take(i as int)) is None,
            last matches Some(l) ==> last_content_line(all.take(i as int)) == Some(l as int),
            last is None ==> last_content_line(all.take(i as int)) is None,
        decreases n - i,
    {
        let line = &lines.lines[i];
        let indent = leading_whitespace(line.as_slice());
        let ghost prefix = all.take(i as int);
        let ghost next = all.take(i + 1);
        assert(next.drop_last() =~= prefix);
        assert(next.last() == all[i as int]);
        assert(all[i as int] == line@);
        if indent < line.len() {
            if first.is_none() {
                first = Some(i);
            }
            last = Some(i);
            if i != 0 && indent < common {
                common = indent;
            }
        }
        i = i + 1;
    }
    assert(all.take(n as int) =~= all);
    proof {
        lemma_content_lines(all);
        lemma_common_indent_bound(all);
    }
    match (first, last) {
        (Some(start), Some(end)) => {
            let mut result: Vec<Vec<u8>> = Vec::new();
            let mut k: usize = start;
            while k <= end
                invariant
                    all == lines@,
                    lines.wf(),
                    first_content_line(all) == Some(start as int),
                    last_content_line(all) == Some(end as int),
                    start <= k <= end + 1,
                    end < all.len(),
                    n == all.len(),
                    common as int == common_indent(all),
                    result@.len() == k - start,
                    forall|j: int| 0 <= j < k - start ==> #[trigger] result@[j]@ == dedented(all)[j],
                    forall|j: int| 0 <= j < k - start ==> valid_utf8(#[trigger] result@[j]@),
                decreases end + 1 - k,
            {
                let line = &lines.lines[k];
                assert(line@ == all[k as int]);
                assert(valid_utf8(all[k as int]));
                let new_line = if k == 0 {
                    copy_range(line.as_slice(), 0, line.len())
                } else if line.len() > common {
                    proof {
                        lemma_indent_of(line@);
                        if has_content(line@) {
                            lemma_common_indent_le(all, k as int);
                        }
                        assert forall|j: int| 0 <= j < common implies #[trigger] line@[j] < 0x80u8 by {
                            assert(is_whitespace_byte(line@[j]));
                        }
                        lemma_valid_utf8_skip_ascii(line@, common as int);
                    }
                    copy_range(line.as_slice(), common, line.len())
                } else {
                    proof {
                        lemma_ascii_valid_utf8(Seq::<u8>::empty());
                    }
                    Vec::new()
                };
                assert(k == 0 ==> new_line@ =~= all[0]);
                assert(dedented(all).len() == end + 1 - start);
                assert(new_line@ =~= dedented(all)[k - start]);
                result.push(new_line);
                k = k + 1;
            }
            lines.lines = result;
            assert(lines@ =~= dedented(all));
            proof {
                law_dedent_shortens(all);
            }
        },
        _ => {
            lines.lines = Vec::new();
            assert(lines@ =~= dedented(all));
            proof {
                law_dedent_shortens(all);
            }
        },
    }
}

/// Every line is short enough to be held in memory.
pub open spec fn lines_fit(lines: Seq<Seq<u8>>) -> bool {
    forall|i: int| 0 <= i < lines.len() ==> (#[trigger] lines[i]).len() <= usize::MAX
}

/// Removing part of the leading whitespace lowers the indentation by as much.
pub proof fn lemma_indent_of_suffix(line: Seq<u8>, c: int)
    requires
        0 <= c <= indent_of(line),
    ensures
        indent_of(line.subrange(c, line.len() as int)) == indent_of(line) - c,
{
    lemma_indent_of(line);
    let t = line.subrange(c, line.len() as int);
    let i = indent_of(line) - c;
    assert forall|j: int| 0 <= j < i implies #[trigger] is_whitespace_byte(t[j]) by {
        assert(t[j] == line[j + c]);
    }
    if i < t.len() {
        assert(t[i] == line[indent_of(line) as int]);
    }
    lemma_indent_from_position(t, i);
}

/// Some line after the first with content has exactly the common indentation, when
/// any line after the first has content.
pub proof fn lemma_common_indent_attained(lines: Seq<Seq<u8>>)
    requires
        lines_fit(lines),
    ensures
        (exists|i: int| 1 <= i < lines.len() && #[trigger] has_content(lines[i])) ==> exists|i: int|
            1 <= i < lines.len() && #[trigger] has_content(lines[i]) && indent_of(lines[i])
                == common_indent(lines),
        !(exists|i: int| 1 <= i < lines.len() && #[trigger] has_content(lines[i]))
            ==> common_indent(lines) == usize::MAX,
    decreases lines.len(),
{
    if lines.len() > 1 {
        let init = lines.drop_last();
        assert forall|i: int| 0 <= i < init.len() implies (#[trigger] init[i]).len() <= usize::MAX by {
            assert(init[i] == lines[i]);
        }
        lemma_common_indent_attained(init);
        let n = lines.len() as int;
        if exists|i: int| 1 <= i < init.len() && #[trigger] has_content(init[i]) {
            let i = choose|i: int|
                1 <= i < init.len() && #[trigger] has_content(init[i]) && indent_of(init[i])
                    == common_indent(init);
            assert(init[i] == lines[i]);
            assert(has_content(lines[i]));
        } else {
            assert forall|i: int| 1 <= i < n - 1 implies !#[trigger] has_content(lines[i]) by {
                assert(init[i] == lines[i]);
                if has_content(lines[i]) {
                    assert(has_content(init[i]));
                }
            }
            if has_content(lines[n - 1]) {
                lemma_indent_of(lines[n - 1]);
                assert(indent_of(lines[n - 1]) < lines[n - 1].len());
                assert(lines[n - 1].len() <= usize::MAX);
            }
        }
    }
}

/// The delimiter of a block string: three double quotes.
pub open spec fn triple_quote() -> Seq<u8> {
    seq![0x22u8, 0x22u8, 0x22u8]
}

/// The lines joined with a line feed between each two.
pub open spec fn join_lines(lines: Seq<Seq<u8>>) -> Seq<u8>
    decreases lines.len(),
{
    if lines.len() == 0 {
        Seq::empty()
    } else if lines.len() == 1 {
        lines[0]
    } else {
        join_lines(lines.drop_last()) + seq![0x0au8] + lines.last()
    }
}

/// More than one line, and every line after the first is empty or starts with whitespace.
pub open spec fn forces_leading_newline(lines: Seq<Seq<u8>>) -> bool {
    &&& lines.len() > 1
    &&& forall|k: int|
        1 <= k < lines.len() ==> (#[trigger] lines[k]).len() == 0 || is_whitespace_byte(lines[k][0])
}

/// The line ends with an escaped delimiter, a backslash and three double quotes.
pub open spec fn ends_with_escaped_triple_quote(line: Seq<u8>) -> bool {
    &&& line.len() >= 4
    &&& line[line.len() - 4] == 0x5cu8
    &&& line[line.len() - 3] == 0x22u8
    &&& line[line.len() - 2] == 0x22u8
    &&& line[line.len() - 1] == 0x22u8
}

/// The last line ends with a double quote or a backslash, but not with an escaped delimiter.
pub open spec fn forces_trailing_newline(lines: Seq<Seq<u8>>) -> bool {
    &&& lines.len() > 0
    &&& lines.last().len() > 0
    &&& (lines.last().last() == 0x22u8 || lines.last().last() == 0x5cu8)
    &&& !ends_with_escaped_triple_quote(lines.last())
}

/// The printed block string: the delimiter, a line feed when the lines after the first
/// are all indented or empty, the lines joined by line feeds, a line feed when the last
/// line would otherwise run into the closing delimiter, and the delimiter.
pub open spec fn printed_block_string(lines: Seq<Seq<u8>>) -> Seq<u8> {
    triple_quote() + (if forces_leading_newline(lines) {
        seq![0x0au8]
    } else {
        Seq::empty()
    }) + join_lines(lines) + (if forces_trailing_newline(lines) {
        seq![0x0au8]
    } else {
        Seq::empty()
    }) + triple_quote()
}

/// Joining well-formed UTF-8 lines gives well-formed UTF-8.
pub proof fn lemma_join_lines_valid(lines: Seq<Seq<u8>>)
    requires
        forall|i: int| 0 <= i < lines.len() ==> valid_utf8(#[trigger] lines[i]),
    ensures
        valid_utf8(join_lines(lines)),
    decreases lines.len(),
{
    broadcast use valid_utf8_concat;
    if lines.len() == 0 {
        lemma_ascii_valid_utf8(Seq::<u8>::empty());
    } else if lines.len() > 1 {
        let init = lines.drop_last();
        assert forall|i: int| 0 <= i < init.len() implies valid_utf8(#[trigger] init[i]) by {
            assert(init[i] == lines[i]);
        }
        lemma_join_lines_valid(init);
        lemma_ascii_valid_utf8(seq![0x0au8]);
        assert(valid_utf8(lines.last()));
        valid_utf8_concat(join_lines(init), seq![0x0au8]);
        valid_utf8_concat(join_lines(init) + seq![0x0au8], lines.last());
    } else {
        assert(valid_utf8(lines[0]));
    }
}

/// A printed block string of well-formed UTF-8 lines is well-formed UTF-8.
pub proof fn lemma_printed_valid(lines: Seq<Seq<u8>>)
    requires
        forall|i: int| 0 <= i < lines.len() ==> valid_utf8(#[trigger] lines[i]),
    ensures
        valid_utf8(printed_block_string(lines)),
{
    broadcast use valid_utf8_concat;
    lemma_join_lines_valid(lines);
    lemma_ascii_valid_utf8(triple_quote());
    lemma_ascii_valid_utf8(seq![0x0au8]);
    lemma_ascii_valid_utf8(Seq::<u8>::empty());
    let lead: Seq<u8> = if forces_leading_newline(lines) { seq![0x0au8] } else { Seq::empty() };
    let trail: Seq<u8> = if forces_trailing_newline(lines) { seq![0x0au8] } else { Seq::empty() };
    valid_utf8_concat(triple_quote(), lead);
    valid_utf8_concat(triple_quote() + lead, join_lines(lines));
    valid_utf8_concat(triple_quote() + lead + join_lines(lines), trail);
    valid_utf8_concat(triple_quote() + lead + join_lines(lines) + trail, triple_quote());
}

/// Prints the lines as a GraphQL block string.
pub fn print_block_string(lines: &BlockStringLines) -> (res: String)
    requires
        lines.wf(),
        lines.total_len() + 7 <= usize::MAX,
    ensures
        res@ == decode_utf8(printed_block_string(lines@)),
{
    let ghost all = lines@;
    let n = lines.lines.len();

    let mut force_leading_new_line = false;
    if n > 1 {
        force_leading_new_line = true;
        let mut k: usize = 1;
        while k < n
            invariant
                all == lines@,
                n == all.len(),
                1 <= k <= n,
                force_leading_new_line <==> forall|j: int|
                    1 <= j < k ==> (#[trigger] all[j]).len() == 0 || is_whitespace_byte(all[j][0]),
            decreases n - k,
        {
            let line = &lines.lines[k];
            assert(line@ == all[k as int]);
            if !(line.len() == 0 || is_graphql_whitespace(line[0])) {
                force_leading_new_line = false;
            }
            k = k + 1;
        }
    }
    assert(force_leading_new_line == forces_leading_newline(all));

    let force_trailing_newline = if n > 0 {
        let line = &lines.lines[n - 1];
        assert(line@ == all.last());
        let m = line.len();
        if m > 0 && (line[m - 1] == 0x22u8 || line[m - 1] == 0x5cu8) {
            let escaped = m >= 4 && line[m - 4] == 0x5cu8 && line[m - 3] == 0x22u8
                && line[m - 2] == 0x22u8 && line[m - 1] == 0x22u8;
            assert(escaped == ends_with_escaped_triple_quote(line@));
            !escaped
        } else {
            false
        }
    } else {
        false
    };
    assert(force_trailing_newline == forces_trailing_newline(all));

    let mut result: Vec<u8> = Vec::with_capacity(lines.total_len + 7);
    result.push(0x22u8);
    result.push(0x22u8);
    result.push(0x22u8);
    if force_leading_new_line {
        result.push(0x0au8);
    }
    let ghost head = result@;
    assert(head =~= triple_quote() + (if forces_leading_newline(all) {
        seq![0x0au8]
    } else {
        Seq::<u8>::empty()
    }));

    let mut i: usize = 0;
    while i < n
        invariant
            all == lines@,
            n == all.len(),
            i <= n,
            i == 0 ==> result@ == head,
            i > 0 ==> result@ == head + join_lines(all.take(i as int)) + seq![0x0au8],
        decreases n - i,
    {
        let line = &lines.lines[i];
        assert(line@ == all[i as int]);
        let ghost before = result@;
        append_bytes(&mut result, line.as_slice());
        result.push(0x0au8);
        proof {
            let next = all.take(i + 1);
            assert(next.drop_last() =~= all.take(i as int));
            assert(next.last() == all[i as int]);
            if i == 0 {
                assert(join_lines(next) == all[0]);
                assert(result@ =~= head + join_lines(next) + seq![0x0au8]);
            } else {
                assert(join_lines(next) == join_lines(all.take(i as int)) + seq![0x0au8] + all[i as int]);
                assert(result@ =~= head + join_lines(next) + seq![0x0au8]);
            }
        }
        i = i + 1;
    }
    assert(all.take(n as int) =~= all);

    let ends_with_newline = match result.last() {
        Some(b) => *b == 0x0au8,
        None => false,
    };
    if !force_trailing_newline && ends_with_newline {
        result.pop();
    }
    proof {
        if n == 0 {
            assert(join_lines(all) =~= Seq::<u8>::empty());
            assert(!forces_leading_newline(all));
            assert(result@.last() == 0x22u8);
        }
    }
    result.push(0x22u8);
    result.push(0x22u8);
    result.push(0x22u8);
    assert(result@ =~= printed_block_string(all));
    proof {
        lemma_printed_valid(all);
    }
    string_of_utf8_bytes(result.as_slice())
}

/// A line with content, after removing at most its own indentation, still has content
/// and keeps its end.
proof fn lemma_dedent_line_content(line: Seq<u8>, c: int)
    requires
        has_content(line),
        0 <= c <= indent_of(line),
    ensures
        has_content(dedent_line(line, c)),
        indent_of(dedent_line(line, c)) == indent_of(line) - c,
        dedent_line(line, c) == line.subrange(c, line.len() as int),
{
    lemma_indent_of_suffix(line, c);
}

/// The first line of a block string, when it has content, is kept as it is: it is
/// not dedented.
pub proof fn law_dedent_keeps_first_line(lines: Seq<Seq<u8>>)
    requires
        lines.len() > 0,
        has_content(lines[0]),
    ensures
        dedented(lines).len() > 0,
        dedented(lines)[0] == lines[0],
{
    lemma_content_lines(lines);
}

/// Dedenting leaves nothing when no line has content; otherwise the first and the
/// last remaining lines have content: blank lines at both ends are dropped.
pub proof fn law_dedent_drops_blank_edges(lines: Seq<Seq<u8>>)
    ensures
        dedented(lines).len() == 0 <==> forall|i: int|
            0 <= i < lines.len() ==> !#[trigger] has_content(lines[i]),
        dedented(lines).len() > 0 ==> has_content(dedented(lines)[0]) && has_content(
            dedented(lines).last(),
        ),
{
    lemma_content_lines(lines);
    lemma_common_indent_bound(lines);
    let d = dedented(lines);
    if first_content_line(lines) is Some {
        let start = first_content_line(lines)->0;
        let end = last_content_line(lines)->0;
        assert(d.len() == end + 1 - start);
        if start != 0 {
            lemma_common_indent_le(lines, start);
            lemma_dedent_line_content(lines[start], common_indent(lines));
        }
        if end != 0 {
            lemma_common_indent_le(lines, end);
            lemma_dedent_line_content(lines[end], common_indent(lines));
        }
        assert(d.last() == d[end - start]);
    } else {
        assert(!(exists|i: int| 0 <= i < lines.len() && #[trigger] has_content(lines[i])));
    }
}

/// Dedenting removes only leading bytes: every remaining line is the end of the line
/// it comes from, so trailing spaces are left alone.
pub proof fn law_dedent_keeps_line_ends(lines: Seq<Seq<u8>>, k: int)
    requires
        0 <= k < dedented(lines).len(),
    ensures
        ({
            let source = lines[first_content_line(lines)->0 + k];
            let line = dedented(lines)[k];
            &&& line.len() <= source.len()
            &&& line == source.subrange(source.len() - line.len(), source.len() as int)
        }),
{
    lemma_content_lines(lines);
    lemma_common_indent_bound(lines);
    let start = first_content_line(lines)->0;
    let source = lines[start + k];
    let line = dedented(lines)[k];
    if start + k == 0 {
        assert(line == source);
        assert(source.subrange(0, source.len() as int) =~= source);
    } else if source.len() > common_indent(lines) {
        assert(line == source.subrange(common_indent(lines), source.len() as int));
    } else {
        assert(line.len() == 0);
        assert(source.subrange(source.len() as int, source.len() as int) =~= line);
    }
}

/// The smallest indentation is removed: when a line after the first has content,
/// some remaining line that comes from a line after the first has content and no
/// indentation left.
pub proof fn law_dedent_removes_common_indent(lines: Seq<Seq<u8>>)
    requires
        lines_fit(lines),
        exists|i: int| 1 <= i < lines.len() && #[trigger] has_content(lines[i]),
    ensures
        exists|k: int|
            0 <= k < dedented(lines).len() && first_content_line(lines)->0 + k >= 1 && has_content(
                #[trigger] dedented(lines)[k],
            ) && indent_of(dedented(lines)[k]) == 0,
{
    lemma_content_lines(lines);
    lemma_common_indent_attained(lines);
    let i = choose|i: int|
        1 <= i < lines.len() && #[trigger] has_content(lines[i]) && indent_of(lines[i])
            == common_indent(lines);
    let start = first_content_line(lines)->0;
    let end = last_content_line(lines)->0;
    assert(start <= i <= end);
    lemma_dedent_line_content(lines[i], common_indent(lines));
    let k = i - start;
    assert(dedented(lines)[k] == dedent_line(lines[i], common_indent(lines)));
    assert(has_content(dedented(lines)[k]));
}

/// Lines without content do not count towards the common indentation: turning one
/// blank line after the first into another blank line leaves it unchanged.
pub proof fn law_blank_lines_do_not_change_common_indent(lines: Seq<Seq<u8>>, k: int, other: Seq<u8>)
    requires
        1 <= k < lines.len(),
        !has_content(lines[k]),
        !has_content(other),
    ensures
        common_indent(lines.update(k, other)) == common_indent(lines),
    decreases lines.len(),
{
    let updated = lines.update(k, other);
    if k < lines.len() - 1 {
        assert(updated.drop_last() =~= lines.drop_last().update(k, other));
        law_blank_lines_do_not_change_common_indent(lines.drop_last(), k, other);
        assert(updated.last() == lines.last());
    } else {
        assert(updated.drop_last() =~= lines.drop_last());
    }
}

/// Dedenting never makes the lines longer in total: every remaining line is no longer
/// than the line it comes from, and lines are only dropped.
pub proof fn law_dedent_shortens(lines: Seq<Seq<u8>>)
    ensures
        total_line_bytes(dedented(lines)) <= total_line_bytes(lines),
{
    lemma_content_lines(lines);
    lemma_common_indent_bound(lines);
    let d = dedented(lines);
    if first_content_line(lines) is Some {
        let start = first_content_line(lines)->0;
        let end = last_content_line(lines)->0;
        let mid = lines.subrange(start, end + 1);
        assert forall|k: int| 0 <= k < d.len() implies (#[trigger] d[k]).len() <= mid[k].len() by {
            assert(mid[k] == lines[start + k]);
        }
        lemma_total_line_bytes_pointwise(d, mid);
        let head = lines.take(start);
        let tail = lines.subrange(end + 1, lines.len() as int);
        assert(lines =~= head + mid + tail);
        lemma_total_line_bytes_concat(head + mid, tail);
        lemma_total_line_bytes_concat(head, mid);
    } else {
        assert(d.len() == 0);
    }
}

/// The size hint counts the bytes of the lines: it equals their total length as
/// long as lines have only been pushed, and stays at least that total afterwards,
/// since dedenting shortens or drops lines without lowering it. Every line fits in
/// memory.
pub proof fn law_total_len_covers_lines(lines: &BlockStringLines)
    requires
        lines.wf(),
    ensures
        total_line_bytes(lines@) <= lines.total_len(),
        lines_fit(lines@),
{
    assert forall|i: int| 0 <= i < lines@.len() implies (#[trigger] lines@[i]).len() <= usize::MAX by {
        assert(lines@[i] == lines.lines@[i]@);
        vstd::std_specs::vec::axiom_spec_len(&lines.lines@[i]);
    }
}

/// Joined lines start with the first line and end with the last.
proof fn lemma_join_lines_edges(lines: Seq<Seq<u8>>)
    requires
        lines.len() > 0,
    ensures
        join_lines(lines).len() >= lines[0].len(),
        join_lines(lines).len() >= lines.last().len(),
        join_lines(lines).subrange(0, lines[0].len() as int) == lines[0],
        join_lines(lines).subrange(
            join_lines(lines).len() - lines.last().len(),
            join_lines(lines).len() as int,
        ) == lines.last(),
    decreases lines.len(),
{
    let j = join_lines(lines);
    if lines.len() == 1 {
        assert(j.subrange(0, lines[0].len() as int) =~= lines[0]);
        assert(j.subrange(j.len() - lines.last().len(), j.len() as int) =~= lines.last());
    } else {
        let init = lines.drop_last();
        lemma_join_lines_edges(init);
        let ji = join_lines(init);
        assert(init[0] == lines[0]);
        assert(j == ji + seq![0x0au8] + lines.last());
        assert(j.subrange(0, lines[0].len() as int) =~= ji.subrange(0, lines[0].len() as int));
        assert(j.subrange(j.len() - lines.last().len(), j.len() as int) =~= lines.last());
    }
}

/// How a printed block string ends: with the last line and the closing delimiter,
/// with a line feed between them exactly when the last line ends with a double quote
/// or a backslash that is not part of an escaped delimiter; no lines print as the two
/// delimiters alone.
pub proof fn law_printed_block_string_ends(lines: Seq<Seq<u8>>)
    ensures
        lines.len() == 0 ==> printed_block_string(lines) == seq![
            0x22u8,
            0x22u8,
            0x22u8,
            0x22u8,
            0x22u8,
            0x22u8,
        ],
        lines.len() > 0 ==> ({
            let p = printed_block_string(lines);
            let l = lines.last();
            let escaped = l.len() >= 4 && l[l.len() - 4] == 0x5cu8 && l[l.len() - 3] == 0x22u8
                && l[l.len() - 2] == 0x22u8 && l[l.len() - 1] == 0x22u8;
            let feed = l.len() > 0 && (l[l.len() - 1] == 0x22u8 || l[l.len() - 1] == 0x5cu8)
                && !escaped;
            &&& !feed ==> p.len() >= l.len() + 3 && p.subrange(p.len() - l.len() - 3, p.len() as int)
                == l + seq![0x22u8, 0x22u8, 0x22u8]
            &&& feed ==> p.len() >= l.len() + 4 && p.subrange(p.len() - l.len() - 4, p.len() as int)
                == l + seq![0x0au8, 0x22u8, 0x22u8, 0x22u8]
        }),
{
    let p = printed_block_string(lines);
    if lines.len() == 0 {
        assert(join_lines(lines) =~= Seq::<u8>::empty());
        assert(p =~= seq![0x22u8, 0x22u8, 0x22u8, 0x22u8, 0x22u8, 0x22u8]);
    } else {
        lemma_join_lines_edges(lines);
        let l = lines.last();
        let j = join_lines(lines);
        let lead: Seq<u8> = if forces_leading_newline(lines) { seq![0x0au8] } else { Seq::empty() };
        let trail: Seq<u8> = if forces_trailing_newline(lines) { seq![0x0au8] } else { Seq::empty() };
        assert(p == triple_quote() + lead + j + trail + triple_quote());
        let n = p.len() as int;
        let t = trail.len() as int;
        assert forall|i: int| 0 <= i < l.len() implies #[trigger] p[n - 3 - t - l.len() + i] == l[i] by {
            assert(p[n - 3 - t - l.len() + i] == j[j.len() - l.len() + i]);
            assert(j.subrange(j.len() - l.len(), j.len() as int)[i] == j[j.len() - l.len() + i]);
        }
        if forces_trailing_newline(lines) {
            assert(p.subrange(n - l.len() - 4, n) =~= l + seq![0x0au8, 0x22u8, 0x22u8, 0x22u8]);
        } else {
            assert(p.subrange(n - l.len() - 3, n) =~= l + seq![0x22u8, 0x22u8, 0x22u8]);
        }
    }
}

/// How a printed block string starts: with the opening delimiter and the first line,
/// with a line feed between them exactly when there is more than one line and every
/// line after the first is empty or starts with a space or a tab.
pub proof fn law_printed_block_string_starts(lines: Seq<Seq<u8>>)
    requires
        lines.len() > 0,
    ensures
        ({
            let p = printed_block_string(lines);
            let f = lines[0];
            let feed = lines.len() > 1 && forall|k: int|
                1 <= k < lines.len() ==> (#[trigger] lines[k]).len() == 0 || lines[k][0] == 0x20u8
                    || lines[k][0] == 0x09u8;
            &&& !feed ==> p.len() >= f.len() + 3 && p.subrange(0, f.len() + 3int) == seq![
                0x22u8,
                0x22u8,
                0x22u8,
            ] + f
            &&& feed ==> p.len() >= f.len() + 4 && p.subrange(0, f.len() + 4int) == seq![
                0x22u8,
                0x22u8,
                0x22u8,
                0x0au8,
            ] + f
        }),
{
    let p = printed_block_string(lines);
    lemma_join_lines_edges(lines);
    let f = lines[0];
    let j = join_lines(lines);
    let lead: Seq<u8> = if forces_leading_newline(lines) { seq![0x0au8] } else { Seq::empty() };
    let trail: Seq<u8> = if forces_trailing_newline(lines) { seq![0x0au8] } else { Seq::empty() };
    assert(p == triple_quote() + lead + j + trail + triple_quote());
    let h = lead.len() as int;
    assert forall|i: int| 0 <= i < f.len() implies #[trigger] p[3 + h + i] == f[i] by {
        assert(p[3 + h + i] == j[i]);
        assert(j.subrange(0, f.len() as int)[i] == j[i]);
    }
    if forces_leading_newline(lines) {
        assert(p.subrange(0, f.len() + 4int) =~= seq![0x22u8, 0x22u8, 0x22u8, 0x0au8] + f);
    } else {
        assert(p.subrange(0, f.len() + 3int) =~= seq![0x22u8, 0x22u8, 0x22u8] + f);
    }
}

/// The length of joined lines: the lines and one line feed between each two.
proof fn lemma_join_lines_len(lines: Seq<Seq<u8>>)
    requires
        lines.len() > 0,
    ensures
        join_lines(lines).len() == total_line_bytes(lines) + lines.len() - 1,
    decreases lines.len(),
{
    if lines.len() == 1 {
        assert(total_line_bytes(lines.drop_last()) == 0);
        assert(lines.last() == lines[0]);
    } else {
        lemma_join_lines_len(lines.drop_last());
    }
}

/// A printed block string holds nothing but the two delimiters, the bytes of the
/// lines, one line feed between each two lines, and the line feeds that may follow
/// the opening delimiter and precede the closing one.
pub proof fn law_printed_block_string_length(lines: Seq<Seq<u8>>)
    ensures
        ({
            let n = lines.len() as int;
            let l = lines.last();
            let lead: int = if n > 1 && forall|k: int|
                1 <= k < n ==> (#[trigger] lines[k]).len() == 0 || lines[k][0] == 0x20u8
                    || lines[k][0] == 0x09u8 { 1 } else { 0 };
            let trail: int = if n > 0 && l.len() > 0 && (l[l.len() - 1] == 0x22u8 || l[l.len() - 1]
                == 0x5cu8) && !(l.len() >= 4 && l[l.len() - 4] == 0x5cu8 && l[l.len() - 3] == 0x22u8
                && l[l.len() - 2] == 0x22u8 && l[l.len() - 1] == 0x22u8) { 1 } else { 0 };
            printed_block_string(lines).len() == 6 + total_line_bytes(lines) + (if n > 0 { n - 1 } else { 0 }) + lead + trail
        }),
{
    if lines.len() > 0 {
        lemma_join_lines_len(lines);
    } else {
        assert(join_lines(lines).len() == 0);
    }
}

/// Dedenting removes nothing but spaces and tabs at the start of lines: each
/// remaining line is its source line with a run of spaces and tabs cut off the front.
pub proof fn law_dedent_removes_only_indentation(lines: Seq<Seq<u8>>, k: int)
    requires
        0 <= k < dedented(lines).len(),
    ensures
        ({
            let source = lines[first_content_line(lines)->0 + k];
            let line = dedented(lines)[k];
            let cut = source.len() - line.len();
            &&& 0 <= cut
            &&& line == source.subrange(cut, source.len() as int)
            &&& forall|j: int| 0 <= j < cut ==> #[trigger] source[j] == 0x20u8 || source[j] == 0x09u8
        }),
{
    law_dedent_keeps_line_ends(lines, k);
    lemma_content_lines(lines);
    lemma_common_indent_bound(lines);
    let start = first_content_line(lines)->0;
    let i = start + k;
    let source = lines[i];
    let c = common_indent(lines);
    lemma_indent_of(source);
    if i != 0 {
        if has_content(source) {
            lemma_common_indent_le(lines, i);
        }
        assert forall|j: int| 0 <= j < source.len() - dedented(lines)[k].len() implies
            #[trigger] source[j] == 0x20u8 || source[j] == 0x09u8 by {
            assert(is_whitespace_byte(source[j]));
        }
    }
}

} // verus!
