//! Spacing of the minified parts of a GraphQL template literal.
//!
//! Only the text parts of a template are minified, one by one, so an expression
//! placed between two parts must sometimes be surrounded by spaces, so that an
//! identifier it substitutes is not glued to an identifier of a part:
//! `id image{${IMAGE} url}` minified in parts would give `id image{${IMAGE}url}`.
//!
//! A space is put before a part that follows an expression unless the part starts
//! with a punctuator, and after a part that precedes an expression unless it ends
//! with one. An empty part gets no space where one was already put on its other side
//! or where it is the first or the last part.

use vstd::prelude::*;
use vstd::utf8::*;
use vstd::string::*;
use crate::text::{append_bytes, string_of_utf8_bytes, lemma_ascii_valid_utf8};

verus! {

/// The bytes of the GraphQL punctuators `! $ & ( ) . : @ [ ] { , }`. A `.` stands
/// for the `...` punctuator, the only token that starts or ends with a dot.
pub open spec fn is_punctuator_byte(b: u8) -> bool {
    b == 0x21u8 || b == 0x24u8 || b == 0x26u8 || b == 0x28u8 || b == 0x29u8 || b == 0x2eu8
        || b == 0x3au8 || b == 0x40u8 || b == 0x5bu8 || b == 0x5du8 || b == 0x7bu8 || b == 0x2cu8
        || b == 0x7du8
}

/// Tells whether a byte is one of the punctuator characters.
pub fn is_punctuator(b: u8) -> (res: bool)
    ensures
        res == is_punctuator_byte(b),
{
    b == 0x21u8 || b == 0x24u8 || b == 0x26u8 || b == 0x28u8 || b == 0x29u8 || b == 0x2eu8
        || b == 0x3au8 || b == 0x40u8 || b == 0x5bu8 || b == 0x5du8 || b == 0x7bu8 || b == 0x2cu8
        || b == 0x7du8
}

/// The text starts with a punctuator.
pub open spec fn starts_with_punctuator(s: Seq<u8>) -> bool {
    s.len() > 0 && is_punctuator_byte(s[0])
}

/// The text ends with a punctuator.
pub open spec fn ends_with_punctuator(s: Seq<u8>) -> bool {
    s.len() > 0 && is_punctuator_byte(s.last())
}

/// A space goes before the part: it follows an expression, it is not an empty last
/// part, and it does not start with a punctuator.
pub open spec fn space_before(min: Seq<u8>, index: int, last_index: int, has_prev_expr: bool) -> bool {
    has_prev_expr && !(min.len() == 0 && last_index == index) && !starts_with_punctuator(min)
}

/// A space goes after the part: an expression follows, the part is not empty with a
/// space already before it or at the start, and it does not end with a punctuator.
pub open spec fn space_after(
    min: Seq<u8>,
    index: int,
    last_index: int,
    has_prev_expr: bool,
    next_is_expr: bool,
) -> bool {
    next_is_expr && !(min.len() == 0 && (space_before(min, index, last_index, has_prev_expr)
        || index == 0)) && !ends_with_punctuator(min)
}

/// The minified part with the spaces that the expressions around it call for.
pub open spec fn spaced_part(
    min: Seq<u8>,
    index: int,
    last_index: int,
    has_prev_expr: bool,
    next_is_expr: bool,
) -> Seq<u8> {
    (if space_before(min, index, last_index, has_prev_expr) {
        seq![0x20u8]
    } else {
        Seq::empty()
    }) + min + (if space_after(min, index, last_index, has_prev_expr, next_is_expr) {
        seq![0x20u8]
    } else {
        Seq::empty()
    })
}

/// Puts spaces around the minified part `min`, which is part `index` of a template
/// whose last part is `last_index`; `has_prev_expr` and `next_is_expr` tell whether an
/// expression stands before and after it.
pub fn space_template_part(
    min: &str,
    index: usize,
    last_index: usize,
    has_prev_expr: bool,
    next_is_expr: bool,
) -> (res: String)
    ensures
        res@ == decode_utf8(
            spaced_part(min.spec_bytes(), index as int, last_index as int, has_prev_expr, next_is_expr),
        ),
{
    let bytes = min.as_bytes();
    let n = bytes.len();
    let is_empty = n == 0;
    let mut result: Vec<u8> = Vec::with_capacity(n);
    let mut is_space_inserted = false;
    if has_prev_expr && !(is_empty && last_index == index) && !(n > 0 && is_punctuator(bytes[0])) {
        result.push(0x20u8);
        is_space_inserted = true;
    }
    append_bytes(&mut result, bytes);
    if next_is_expr && !(is_empty && (is_space_inserted || index == 0)) && !(n > 0 && is_punctuator(
        bytes[n - 1],
    )) {
        result.push(0x20u8);
    }
    let ghost m = min.spec_bytes();
    let ghost sp = spaced_part(m, index as int, last_index as int, has_prev_expr, next_is_expr);
    assert(result@ =~= sp);
    proof {
        broadcast use encode_utf8_valid_utf8;
        lemma_ascii_valid_utf8(seq![0x20u8]);
        lemma_ascii_valid_utf8(Seq::<u8>::empty());
        let before: Seq<u8> = if space_before(m, index as int, last_index as int, has_prev_expr) {
            seq![0x20u8]
        } else {
            Seq::empty()
        };
        let after: Seq<u8> = if space_after(m, index as int, last_index as int, has_prev_expr, next_is_expr) {
            seq![0x20u8]
        } else {
            Seq::empty()
        };
        valid_utf8_concat(before, m);
        valid_utf8_concat(before + m, after);
    }
    string_of_utf8_bytes(result.as_slice())
}

/// Spaces the minified parts of a template literal with `expr_count` expressions.
/// `parts[i]` is the minified text of part `i`, or `None` for a part that was empty
/// or could not be minified and is left as it is; the result tells, in the same way,
/// the new text of each part. A template without expressions has a single part,
/// which is taken as minified.
pub fn space_template_parts(parts: &Vec<Option<String>>, expr_count: usize) -> (res: Vec<Option<String>>)
    requires
        parts@.len() > 0,
    ensures
        res@.len() == parts@.len(),
        expr_count == 0 ==> res@[0] == parts@[0],
        expr_count == 0 ==> forall|i: int| 1 <= i < res@.len() ==> #[trigger] res@[i] is None,
        expr_count > 0 ==> forall|i: int|
            0 <= i < res@.len() ==> match #[trigger] parts@[i] {
                None => res@[i] is None,
                Some(min) => res@[i] is Some && res@[i]->0@ == decode_utf8(
                    spaced_part(
                        encode_utf8(min@),
                        i,
                        parts@.len() - 1,
                        i > 0 && i - 1 < expr_count,
                        i < expr_count,
                    ),
                ),
            },
{
    let n = parts.len();
    let mut res: Vec<Option<String>> = Vec::new();
    if expr_count == 0 {
        let first = match &parts[0] {
            Some(min) => Some(min.clone()),
            None => None,
        };
        res.push(first);
        let mut i: usize = 1;
        while i < n
            invariant
                1 <= i <= n,
                n == parts@.len(),
                res@.len() == i,
                res@[0] == parts@[0],
                forall|j: int| 1 <= j < i ==> #[trigger] res@[j] is None,
            decreases n - i,
        {
            res.push(None);
            i = i + 1;
        }
        return res;
    }
    let last_index = n - 1;
    let mut has_prev_expr = false;
    let mut i: usize = 0;
    while i < n
        invariant
            expr_count > 0,
            n == parts@.len(),
            last_index == n - 1,
            i <= n,
            res@.len() == i,
            has_prev_expr == (i > 0 && i - 1 < expr_count),
            forall|j: int|
                0 <= j < i ==> match #[trigger] parts@[j] {
                    None => res@[j] is None,
                    Some(min) => res@[j] is Some && res@[j]->0@ == decode_utf8(
                        spaced_part(
                            encode_utf8(min@),
                            j,
                            parts@.len() - 1,
                            j > 0 && j - 1 < expr_count,
                            j < expr_count,
                        ),
                    ),
                },
        decreases n - i,
    {
        let next_is_expr = i < expr_count;
        let spaced = match &parts[i] {
            Some(min) => Some(
                space_template_part(min.as_str(), i, last_index, has_prev_expr, next_is_expr),
            ),
            None => None,
        };
        res.push(spaced);
        has_prev_expr = next_is_expr;
        i = i + 1;
    }
    res
}

/// Expressions are never glued to a part: a part with text that follows an expression
/// starts with a space or a punctuator, one that precedes an expression ends with a
/// space or a punctuator, and two expressions around an empty middle part are kept
/// apart by a space.
pub proof fn law_spacing_separates_expressions(
    min: Seq<u8>,
    index: int,
    last_index: int,
    has_prev_expr: bool,
    next_is_expr: bool,
)
    ensures
        ({
            let r = spaced_part(min, index, last_index, has_prev_expr, next_is_expr);
            &&& has_prev_expr && min.len() > 0 ==> r.len() > 0 && (r[0] == 0x20u8 || is_punctuator_byte(r[0]))
            &&& next_is_expr && min.len() > 0 ==> r.len() > 0 && (r.last() == 0x20u8 || is_punctuator_byte(r.last()))
            &&& has_prev_expr && next_is_expr && 0 < index < last_index ==> r.len() > 0
            &&& r.len() >= min.len()
        }),
{
    let before: Seq<u8> = if space_before(min, index, last_index, has_prev_expr) {
        seq![0x20u8]
    } else {
        Seq::empty()
    };
    let after: Seq<u8> = if space_after(min, index, last_index, has_prev_expr, next_is_expr) {
        seq![0x20u8]
    } else {
        Seq::empty()
    };
    let r = spaced_part(min, index, last_index, has_prev_expr, next_is_expr);
    assert(r == before + min + after);
    if min.len() > 0 {
        if before.len() == 0 {
            assert(r[0] == min[0]);
        }
        if after.len() == 0 {
            assert(r.last() == min.last());
        }
    }
}

/// Spacing is stable: it adds at most one space on each side and leaves the
/// minified text in between, so minifying the spaced part back to that text and
/// spacing it again gives the same part, and no space is ever doubled.
pub proof fn law_spacing_is_stable(
    min: Seq<u8>,
    index: int,
    last_index: int,
    has_prev_expr: bool,
    next_is_expr: bool,
)
    ensures
        ({
            let r = spaced_part(min, index, last_index, has_prev_expr, next_is_expr);
            let b: int = if space_before(min, index, last_index, has_prev_expr) { 1 } else { 0 };
            let a: int = if space_after(min, index, last_index, has_prev_expr, next_is_expr) { 1 } else { 0 };
            &&& r.len() == b + min.len() + a
            &&& r.subrange(b, b + min.len()) == min
            &&& forall|j: int| 0 <= j < b ==> #[trigger] r[j] == 0x20u8
            &&& forall|j: int| b + min.len() <= j < r.len() ==> #[trigger] r[j] == 0x20u8
            &&& spaced_part(r.subrange(b, b + min.len()), index, last_index, has_prev_expr, next_is_expr) == r
            &&& (min.len() == 0 || min[0] != 0x20u8) ==> !(r.len() >= 2 && r[0] == 0x20u8 && r[1] == 0x20u8)
            &&& (min.len() == 0 || min.last() != 0x20u8) ==> !(r.len() >= 2 && r[r.len() - 1] == 0x20u8
                && r[r.len() - 2] == 0x20u8)
        }),
{
    let r = spaced_part(min, index, last_index, has_prev_expr, next_is_expr);
    let before: Seq<u8> = if space_before(min, index, last_index, has_prev_expr) {
        seq![0x20u8]
    } else {
        Seq::empty()
    };
    let after: Seq<u8> = if space_after(min, index, last_index, has_prev_expr, next_is_expr) {
        seq![0x20u8]
    } else {
        Seq::empty()
    };
    let b = before.len() as int;
    assert(r == before + min + after);
    assert(r.subrange(b, b + min.len()) =~= min);
    if min.len() == 0 {
        assert(r.len() <= 1);
    } else {
        assert(r[b] == min[0]);
        assert(r[b + min.len() - 1] == min.last());
    }
}

/// The punctuators are exactly the thirteen bytes `! $ & ( ) . : @ [ ] { , }`; no
/// byte that can be part of a name (letter, digit, underscore), no whitespace and no
/// quote is one.
pub proof fn law_punctuator_bytes(b: u8)
    ensures
        is_punctuator_byte(b) <==> (b == 0x21u8 || b == 0x24u8 || b == 0x26u8 || b == 0x28u8 || b
            == 0x29u8 || b == 0x2eu8 || b == 0x3au8 || b == 0x40u8 || b == 0x5bu8 || b == 0x5du8 || b
            == 0x7bu8 || b == 0x2cu8 || b == 0x7du8),
        (0x41u8 <= b <= 0x5au8 || 0x61u8 <= b <= 0x7au8 || 0x30u8 <= b <= 0x39u8 || b == 0x5fu8)
            ==> !is_punctuator_byte(b),
        (b == 0x20u8 || b == 0x09u8 || b == 0x0au8 || b == 0x0du8 || b == 0x22u8) ==> !is_punctuator_byte(b),
{
}

/// A name next to an expression is never glued to it: a part that follows an
/// expression and starts with a letter, digit or underscore gets a space before it,
/// and a part that precedes an expression and ends with one gets a space after it.
pub proof fn law_names_are_separated_from_expressions(
    min: Seq<u8>,
    index: int,
    last_index: int,
    has_prev_expr: bool,
    next_is_expr: bool,
)
    ensures
        ({
            let r = spaced_part(min, index, last_index, has_prev_expr, next_is_expr);
            let first = min[0];
            let last = min[min.len() - 1];
            &&& has_prev_expr && min.len() > 0 && (0x41u8 <= first <= 0x5au8 || 0x61u8 <= first
                <= 0x7au8 || 0x30u8 <= first <= 0x39u8 || first == 0x5fu8) ==> r.len() >= min.len() + 1
                && r[0] == 0x20u8 && r.subrange(1, min.len() + 1int) == min
            &&& next_is_expr && min.len() > 0 && (0x41u8 <= last <= 0x5au8 || 0x61u8 <= last <= 0x7au8
                || 0x30u8 <= last <= 0x39u8 || last == 0x5fu8) ==> r.len() >= min.len() + 1 && r[r.len()
                - 1] == 0x20u8 && r.subrange(r.len() - 1 - min.len(), r.len() - 1) == min
        }),
{
    law_punctuator_bytes(min[0]);
    law_punctuator_bytes(min[min.len() - 1]);
    let r = spaced_part(min, index, last_index, has_prev_expr, next_is_expr);
    let before: Seq<u8> = if space_before(min, index, last_index, has_prev_expr) {
        seq![0x20u8]
    } else {
        Seq::empty()
    };
    let after: Seq<u8> = if space_after(min, index, last_index, has_prev_expr, next_is_expr) {
        seq![0x20u8]
    } else {
        Seq::empty()
    };
    assert(r == before + min + after);
    if min.len() > 0 {
        assert(r.subrange(before.len() as int, (before.len() + min.len()) as int) =~= min);
    }
}

} // verus!
