//! Byte-level helpers shared by the block string and description code.

use vstd::prelude::*;
use vstd::utf8::*;
use vstd::string::*;

verus! {

#[verifier::external_type_specification]
#[verifier::external_body]
pub struct ExUtf8Error(core::str::Utf8Error);

/// Calls `core::str::from_utf8`. As std documents it, the call succeeds exactly
/// when the bytes are well-formed UTF-8, and the string slice it returns is made
/// of those same bytes.
#[verifier::external_body]
fn str_from_utf8<'a>(bytes: &'a [u8]) -> (res: Result<&'a str, core::str::Utf8Error>)
    ensures
        res is Ok <==> valid_utf8(bytes@),
        res matches Ok(s) ==> s.spec_bytes() == bytes@,
{
    core::str::from_utf8(bytes)
}

/// Borrows well-formed UTF-8 bytes as a string slice.
pub fn str_of_utf8_bytes<'a>(bytes: &'a [u8]) -> (res: &'a str)
    requires
        valid_utf8(bytes@),
    ensures
        res.spec_bytes() == bytes@,
        res@ == decode_utf8(bytes@),
{
    broadcast use encode_utf8_decode_utf8;
    match str_from_utf8(bytes) {
        Ok(s) => s,
        Err(_) => {
            proof {
                assert(false);
            }
            ""
        },
    }
}

/// Copies well-formed UTF-8 bytes into an owned string.
pub fn string_of_utf8_bytes(bytes: &[u8]) -> (res: String)
    requires
        valid_utf8(bytes@),
    ensures
        res@ == decode_utf8(bytes@),
{
    let s = str_of_utf8_bytes(bytes);
    s.to_owned()
}

/// Copies the bytes `src[from..to]`.
pub fn copy_range(src: &[u8], from: usize, to: usize) -> (res: Vec<u8>)
    requires
        from <= to <= src@.len(),
    ensures
        res@ == src@.subrange(from as int, to as int),
{
    let mut res: Vec<u8> = Vec::new();
    let mut i = from;
    while i < to
        invariant
            from <= i <= to,
            to <= src@.len(),
            res@ == src@.subrange(from as int, i as int),
        decreases to - i,
    {
        res.push(src[i]);
        i = i + 1;
    }
    res
}

/// Appends all bytes of `src` to `dst`.
pub fn append_bytes(dst: &mut Vec<u8>, src: &[u8])
    ensures
        final(dst)@ == old(dst)@ + src@,
{
    let mut i: usize = 0;
    while i < src.len()
        invariant
            i <= src@.len(),
            dst@ == old(dst)@ + src@.subrange(0, i as int),
        decreases src@.len() - i,
    {
        dst.push(src[i]);
        i = i + 1;
    }
}

/// The two whitespace bytes of GraphQL source text: space and horizontal tab.
pub open spec fn is_whitespace_byte(b: u8) -> bool {
    b == 0x20u8 || b == 0x09u8
}

/// Every byte of `s` is an ASCII byte.
pub open spec fn all_ascii(s: Seq<u8>) -> bool {
    forall|j: int| 0 <= j < s.len() ==> #[trigger] s[j] < 0x80u8
}

/// A sequence of ASCII bytes is valid UTF-8.
pub proof fn lemma_ascii_valid_utf8(s: Seq<u8>)
    requires
        all_ascii(s),
    ensures
        valid_utf8(s),
    decreases s.len(),
{
    if s.len() > 0 {
        assert(s[0] < 0x80u8);
        assert(valid_first_scalar(s));
        assert(length_of_first_scalar(s) == 1);
        let rest = pop_first_scalar(s);
        assert(rest =~= s.subrange(1, s.len() as int));
        assert(all_ascii(rest)) by {
            assert forall|j: int| 0 <= j < rest.len() implies #[trigger] rest[j] < 0x80u8 by {
                assert(rest[j] == s[j + 1]);
            }
        }
        lemma_ascii_valid_utf8(rest);
    }
}

/// Dropping a prefix made only of ASCII bytes keeps a byte sequence valid UTF-8.
pub proof fn lemma_valid_utf8_skip_ascii(s: Seq<u8>, k: int)
    requires
        valid_utf8(s),
        0 <= k <= s.len(),
        forall|j: int| 0 <= j < k ==> #[trigger] s[j] < 0x80u8,
    ensures
        valid_utf8(s.subrange(k, s.len() as int)),
    decreases k,
{
    if k == 0 {
        assert(s.subrange(0, s.len() as int) =~= s);
    } else {
        assert(s[0] < 0x80u8);
        assert(valid_first_scalar(s));
        assert(length_of_first_scalar(s) == 1);
        let rest = pop_first_scalar(s);
        assert(rest =~= s.subrange(1, s.len() as int));
        assert forall|j: int| 0 <= j < k - 1 implies #[trigger] rest[j] < 0x80u8 by {
            assert(rest[j] == s[j + 1]);
        }
        lemma_valid_utf8_skip_ascii(rest, k - 1);
        assert(rest.subrange(k - 1, rest.len() as int) =~= s.subrange(k, s.len() as int));
    }
}

/// In well-formed UTF-8, the byte after an ASCII byte that starts a character
/// also starts a character (or is the end).
pub proof fn lemma_boundary_after_ascii(b: Seq<u8>, k: int)
    requires
        valid_utf8(b),
        0 <= k < b.len(),
        is_char_boundary(b, k),
        b[k] < 0x80u8,
    ensures
        is_char_boundary(b, k + 1),
    decreases b.len(),
{
    reveal_with_fuel(is_char_boundary, 2);
    let len1 = length_of_first_scalar(b);
    let rest = pop_first_scalar(b);
    assert(valid_first_scalar(b));
    assert(valid_utf8(rest));
    if k == 0 {
        assert(len1 == 1);
        assert(is_char_boundary(rest, 0));
    } else {
        assert(is_char_boundary(rest, k - len1));
        assert(len1 >= 1);
        assert(rest.len() == b.len() - len1);
        if k - len1 < 0 {
            assert(!is_char_boundary(rest, k - len1));
        }
        assert(rest[k - len1] == b[k]);
        lemma_boundary_after_ascii(rest, k - len1);
    }
}

/// In well-formed UTF-8, the end of a run of ASCII bytes at the start is a
/// character boundary.
pub proof fn lemma_boundary_after_ascii_prefix(b: Seq<u8>, k: int)
    requires
        valid_utf8(b),
        0 <= k <= b.len(),
        forall|j: int| 0 <= j < k ==> #[trigger] b[j] < 0x80u8,
    ensures
        is_char_boundary(b, k),
    decreases k,
{
    if k == 0 {
        is_char_boundary_start_end_of_seq(b);
    } else {
        lemma_boundary_after_ascii_prefix(b, k - 1);
        assert(b[k - 1] < 0x80u8);
        lemma_boundary_after_ascii(b, k - 1);
    }
}

/// A position holding an ASCII byte, or the end, is a character boundary.
pub proof fn lemma_ascii_is_boundary(b: Seq<u8>, k: int)
    requires
        valid_utf8(b),
        0 <= k <= b.len(),
        k < b.len() ==> b[k] < 0x80u8,
    ensures
        is_char_boundary(b, k),
{
    is_char_boundary_start_end_of_seq(b);
    if k < b.len() {
        is_char_boundary_iff_not_is_continuation_byte(b, k);
    }
}

/// The bytes between two character boundaries are well-formed UTF-8.
pub proof fn lemma_valid_between_boundaries(b: Seq<u8>, a: int, c: int)
    requires
        valid_utf8(b),
        0 <= a <= c <= b.len(),
        is_char_boundary(b, a),
        is_char_boundary(b, c),
    ensures
        valid_utf8(b.subrange(a, c)),
{
    valid_utf8_split(b, c);
    let b0 = b.subrange(0, c);
    is_char_boundary_start_end_of_seq(b0);
    if a < c {
        is_char_boundary_iff_not_is_continuation_byte(b, a);
        assert(b0[a] == b[a]);
        is_char_boundary_iff_not_is_continuation_byte(b0, a);
    }
    valid_utf8_split(b0, a);
    assert(b0.subrange(a, c) =~= b.subrange(a, c));
}

} // verus!
