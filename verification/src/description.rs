//! Descriptions of GraphQL definitions, cleaned for comparison: quotes removed,
//! text dedented, and spaces and line breaks trimmed from both ends.

use vstd::prelude::*;
use vstd::utf8::*;
use vstd::string::*;
use crate::text::{
    copy_range, str_of_utf8_bytes, string_of_utf8_bytes, lemma_boundary_after_ascii,
    lemma_ascii_is_boundary, lemma_valid_between_boundaries, lemma_boundary_after_ascii_prefix,
};

verus! {

/// What `textwrap::dedent` returns for a text.
pub uninterp spec fn textwrap_dedent(s: Seq<char>) -> Seq<char>;

/// Calls `textwrap::dedent`, which removes the whitespace prefix common to all lines
/// of the text. What it returns is named, not described; it depends on the text alone.
#[verifier::external_body]
fn dedent_text(s: &str) -> (res: String)
    ensures
        res@ == textwrap_dedent(s@),
{
    textwrap::dedent(s)
}

/// The text starts with three double quotes.
pub open spec fn starts_with_triple_quotes(b: Seq<u8>) -> bool {
    b.len() >= 3 && b[0] == 0x22u8 && b[1] == 0x22u8 && b[2] == 0x22u8
}

/// The text starts with a double quote.
pub open spec fn starts_with_quote(b: Seq<u8>) -> bool {
    b.len() >= 1 && b[0] == 0x22u8
}

/// The body of a description: without its three double quotes on both sides when it is
/// a block string, without its double quote on both sides when it is a string, and
/// otherwise as it is.
pub open spec fn description_body(b: Seq<u8>) -> Seq<u8> {
    if starts_with_triple_quotes(b) {
        b.subrange(3, b.len() - 3)
    } else if starts_with_quote(b) {
        b.subrange(1, b.len() - 1)
    } else {
        b
    }
}

/// The source of a description can be cut as `description_body` does: long enough, and
/// cut at character boundaries.
pub open spec fn description_source_ok(b: Seq<u8>) -> bool {
    &&& starts_with_triple_quotes(b) ==> b.len() >= 6 && is_char_boundary(b, b.len() - 3)
    &&& !starts_with_triple_quotes(b) && starts_with_quote(b) ==> b.len() >= 2
        && is_char_boundary(b, b.len() - 1)
}

/// A space, a carriage return or a line feed.
pub open spec fn is_trim_byte(b: u8) -> bool {
    b == 0x20u8 || b == 0x0du8 || b == 0x0au8
}

/// The number of trimmable bytes at the start.
pub open spec fn leading_trim_len(s: Seq<u8>) -> nat
    decreases s.len(),
{
    if s.len() > 0 && is_trim_byte(s[0]) {
        1 + leading_trim_len(s.drop_first())
    } else {
        0
    }
}

/// The number of trimmable bytes at the end.
pub open spec fn trailing_trim_len(s: Seq<u8>) -> nat
    decreases s.len(),
{
    if s.len() > 0 && is_trim_byte(s.last()) {
        1 + trailing_trim_len(s.drop_last())
    } else {
        0
    }
}

/// The text without spaces, carriage returns and line feeds at either end.
pub open spec fn trimmed(s: Seq<u8>) -> Seq<u8> {
    if leading_trim_len(s) == s.len() {
        Seq::empty()
    } else {
        s.subrange(leading_trim_len(s) as int, s.len() - trailing_trim_len(s))
    }
}

/// The leading run of trimmable bytes ends where a non-trimmable byte starts.
proof fn lemma_leading_trim_len(s: Seq<u8>, i: int)
    requires
        0 <= i <= s.len(),
        forall|j: int| 0 <= j < i ==> #[trigger] is_trim_byte(s[j]),
        i < s.len() ==> !is_trim_byte(s[i]),
    ensures
        leading_trim_len(s) == i,
    decreases s.len(),
{
    if i > 0 {
        let rest = s.drop_first();
        assert(is_trim_byte(s[0]));
        assert forall|j: int| 0 <= j < i - 1 implies #[trigger] is_trim_byte(rest[j]) by {
            assert(rest[j] == s[j + 1]);
            assert(is_trim_byte(s[j + 1]));
        }
        if i - 1 < rest.len() {
            assert(rest[i - 1] == s[i]);
        }
        lemma_leading_trim_len(rest, i - 1);
    }
}

/// The trailing run of trimmable bytes starts after a non-trimmable byte.
proof fn lemma_trailing_trim_len(s: Seq<u8>, e: int)
    requires
        0 <= e <= s.len(),
        forall|j: int| e <= j < s.len() ==> #[trigger] is_trim_byte(s[j]),
        e > 0 ==> !is_trim_byte(s[e - 1]),
    ensures
        trailing_trim_len(s) == s.len() - e,
    decreases s.len(),
{
    if e < s.len() {
        let init = s.drop_last();
        assert(is_trim_byte(s.last()));
        assert forall|j: int| e <= j < init.len() implies #[trigger] is_trim_byte(init[j]) by {
            assert(init[j] == s[j]);
        }
        if e > 0 {
            assert(init[e - 1] == s[e - 1]);
        }
        lemma_trailing_trim_len(init, e);
    }
}

/// Trims spaces, carriage returns and line feeds from both ends of a dedented text.
pub fn trim_dedented(dedented: &str) -> (res: String)
    ensures
        res@ == decode_utf8(trimmed(dedented.spec_bytes())),
{
    let bytes = dedented.as_bytes();
    let ghost b = bytes@;
    proof {
        broadcast use encode_utf8_valid_utf8;
        assert(valid_utf8(b));
    }
    let n = bytes.len();
    let mut start: usize = 0;
    while start < n && (bytes[start] == 0x20u8 || bytes[start] == 0x0du8 || bytes[start] == 0x0au8)
        invariant
            b == bytes@,
            n == b.len(),
            start <= n,
            forall|j: int| 0 <= j < start ==> #[trigger] is_trim_byte(b[j]),
        decreases n - start,
    {
        start = start + 1;
    }
    proof {
        lemma_leading_trim_len(b, start as int);
    }
    let mut end: usize = n;
    while end > start && (bytes[end - 1] == 0x20u8 || bytes[end - 1] == 0x0du8 || bytes[end - 1]
        == 0x0au8)
        invariant
            b == bytes@,
            n == b.len(),
            start <= end <= n,
            start < n ==> !is_trim_byte(b[start as int]),
            forall|j: int| end <= j < n ==> #[trigger] is_trim_byte(b[j]),
        decreases end,
    {
        end = end - 1;
    }
    proof {
        if start < n {
            assert(end > start);
            lemma_trailing_trim_len(b, end as int);
            assert forall|j: int| 0 <= j < start implies #[trigger] b[j] < 0x80u8 by {
                assert(is_trim_byte(b[j]));
            }
            lemma_boundary_after_ascii_prefix(b, start as int);
            is_char_boundary_start_end_of_seq(b);
            if end < n {
                assert(is_trim_byte(b[end as int]));
                lemma_ascii_is_boundary(b, end as int);
            }
            lemma_valid_between_boundaries(b, start as int, end as int);
        } else {
            is_char_boundary_start_end_of_seq(b);
            lemma_valid_between_boundaries(b, start as int, end as int);
        }
    }
    let out = copy_range(bytes, start, end);
    assert(out@ =~= trimmed(b));
    string_of_utf8_bytes(out.as_slice())
}

/// A description, cleaned: see `Description::new_cleaned`.
pub struct Description {
    text: String,
}

impl View for Description {
    type V = Seq<char>;

    closed spec fn view(&self) -> Seq<char> {
        self.text@
    }
}

impl Description {
    /// Cleans the source of a description: takes its body (`description_body`),
    /// dedents it with `textwrap::dedent`, and trims spaces, carriage returns and
    /// line feeds from both ends.
    pub fn new_cleaned(src: &str) -> (res: Self)
        requires
            description_source_ok(src.spec_bytes()),
        ensures
            res@ == decode_utf8(
                trimmed(
                    encode_utf8(
                        textwrap_dedent(decode_utf8(description_body(src.spec_bytes()))),
                    ),
                ),
            ),
    {
        let bytes = src.as_bytes();
        let ghost b = bytes@;
        proof {
            broadcast use encode_utf8_valid_utf8;
            assert(valid_utf8(b));
            is_char_boundary_start_end_of_seq(b);
        }
        let n = bytes.len();
        let (from, to) = if n >= 3 && bytes[0] == 0x22u8 && bytes[1] == 0x22u8 && bytes[2]
            == 0x22u8 {
            proof {
                lemma_boundary_after_ascii(b, 0);
                lemma_boundary_after_ascii(b, 1);
                lemma_boundary_after_ascii(b, 2);
            }
            (3, n - 3)
        } else if n >= 1 && bytes[0] == 0x22u8 {
            proof {
                lemma_boundary_after_ascii(b, 0);
            }
            (1, n - 1)
        } else {
            (0, n)
        };
        proof {
            lemma_valid_between_boundaries(b, from as int, to as int);
        }
        let body = copy_range(bytes, from, to);
        assert(body@ =~= description_body(b));
        let body_str = str_of_utf8_bytes(body.as_slice());
        let dedented = dedent_text(body_str);
        let text = trim_dedented(dedented.as_str());
        Description { text }
    }

    /// The cleaned text.
    pub fn as_str(&self) -> (res: &str)
        ensures
            res@ == self@,
    {
        self.text.as_str()
    }
}

impl PartialEq for Description {
    fn eq(&self, other: &Self) -> (res: bool) {
        self.text == other.text
    }
}

impl vstd::std_specs::cmp::PartialEqSpecImpl for Description {
    open spec fn obeys_eq_spec() -> bool {
        true
    }

    open spec fn eq_spec(&self, other: &Self) -> bool {
        self@ == other@
    }
}

/// Trimming cuts only spaces, carriage returns and line feeds, and only at the two
/// ends: the result is a run of the text in the middle that neither starts nor ends
/// with one of them.
pub proof fn law_trimmed_cuts_only_breaks_and_spaces(s: Seq<u8>)
    ensures
        exists|a: int, e: int|
            0 <= a <= e <= s.len() && trimmed(s) == #[trigger] s.subrange(a, e) && (forall|j: int|
                0 <= j < a ==> #[trigger] s[j] == 0x20u8 || s[j] == 0x0du8 || s[j] == 0x0au8) && (
            forall|j: int| e <= j < s.len() ==> #[trigger] s[j] == 0x20u8 || s[j] == 0x0du8 || s[j]
                == 0x0au8) && (a < e ==> !(s[a] == 0x20u8 || s[a] == 0x0du8 || s[a] == 0x0au8) && !(
            s[e - 1] == 0x20u8 || s[e - 1] == 0x0du8 || s[e - 1] == 0x0au8)),
{
    lemma_trim_lens(s);
    let a = leading_trim_len(s) as int;
    if a == s.len() {
        assert(trimmed(s) =~= s.subrange(a, a));
        assert(forall|j: int| 0 <= j < a ==> #[trigger] s[j] == 0x20u8 || s[j] == 0x0du8 || s[j] == 0x0au8) by {
            assert forall|j: int| 0 <= j < a implies #[trigger] s[j] == 0x20u8 || s[j] == 0x0du8 || s[j] == 0x0au8 by {
                assert(is_trim_byte(s[j]));
            }
        }
        assert(trimmed(s) == s.subrange(a, a));
    } else {
        let e = s.len() - trailing_trim_len(s);
        assert(trimmed(s) == s.subrange(a, e));
        assert forall|j: int| 0 <= j < a implies #[trigger] s[j] == 0x20u8 || s[j] == 0x0du8 || s[j] == 0x0au8 by {
            assert(is_trim_byte(s[j]));
        }
        assert forall|j: int| e <= j < s.len() implies #[trigger] s[j] == 0x20u8 || s[j] == 0x0du8 || s[j] == 0x0au8 by {
            assert(is_trim_byte(s[j]));
        }
        assert(!is_trim_byte(s[a]));
        assert(!is_trim_byte(s[e - 1]));
    }
}

/// The runs counted by `leading_trim_len` and `trailing_trim_len`.
proof fn lemma_trim_lens(s: Seq<u8>)
    ensures
        leading_trim_len(s) <= s.len(),
        forall|j: int| 0 <= j < leading_trim_len(s) ==> #[trigger] is_trim_byte(s[j]),
        leading_trim_len(s) < s.len() ==> !is_trim_byte(s[leading_trim_len(s) as int]),
        trailing_trim_len(s) <= s.len(),
        forall|j: int| s.len() - trailing_trim_len(s) <= j < s.len() ==> #[trigger] is_trim_byte(s[j]),
        trailing_trim_len(s) < s.len() ==> !is_trim_byte(s[s.len() - trailing_trim_len(s) - 1]),
        leading_trim_len(s) < s.len() ==> leading_trim_len(s) + trailing_trim_len(s) < s.len(),
    decreases s.len(),
{
    if s.len() > 0 {
        let rest = s.drop_first();
        let init = s.drop_last();
        lemma_trim_lens(rest);
        lemma_trim_lens(init);
        assert forall|j: int| 0 <= j < leading_trim_len(s) implies #[trigger] is_trim_byte(s[j]) by {
            if j > 0 {
                assert(s[j] == rest[j - 1]);
            }
        }
        if is_trim_byte(s[0]) && leading_trim_len(s) < s.len() {
            assert(s[leading_trim_len(s) as int] == rest[leading_trim_len(rest) as int]);
        }
        assert forall|j: int| s.len() - trailing_trim_len(s) <= j < s.len() implies #[trigger] is_trim_byte(s[j]) by {
            if j < s.len() - 1 {
                assert(s[j] == init[j]);
            }
        }
        if is_trim_byte(s.last()) && trailing_trim_len(s) < s.len() {
            assert(s[s.len() - trailing_trim_len(s) - 1] == init[init.len() - trailing_trim_len(init) - 1]);
        }
        if leading_trim_len(s) < s.len() {
            let l = leading_trim_len(s) as int;
            assert(!is_trim_byte(s[l]));
            if l + trailing_trim_len(s) >= s.len() {
                assert(s.len() - trailing_trim_len(s) <= l);
                assert(is_trim_byte(s[l]));
            }
        }
    }
}

} // verus!
