//! A growable byte buffer whose content is always a well-formed UTF-8 string.

use vstd::prelude::*;
use vstd::utf8::*;
use vstd::string::*;
use crate::text::{append_bytes, str_of_utf8_bytes, lemma_ascii_valid_utf8, lemma_valid_between_boundaries};

verus! {

/// A wrapper over a byte vector that guarantees that its content is a valid UTF-8 string.
pub struct VecStr {
    bytes: Vec<u8>,
}

impl View for VecStr {
    type V = Seq<u8>;

    closed spec fn view(&self) -> Seq<u8> {
        self.bytes@
    }
}

impl VecStr {
    #[verifier::type_invariant]
    spec fn well_formed(self) -> bool {
        valid_utf8(self.bytes@)
    }

    /// An empty buffer.
    pub fn new_in() -> (res: Self)
        ensures
            res@ == Seq::<u8>::empty(),
    {
        proof {
            lemma_ascii_valid_utf8(Seq::<u8>::empty());
        }
        VecStr { bytes: Vec::new() }
    }

    /// An empty buffer with room for `capacity` bytes.
    pub fn with_capacity_in(capacity: usize) -> (res: Self)
        ensures
            res@ == Seq::<u8>::empty(),
    {
        proof {
            lemma_ascii_valid_utf8(Seq::<u8>::empty());
        }
        VecStr { bytes: Vec::with_capacity(capacity) }
    }

    /// A buffer holding the bytes of `s`.
    pub fn from_str_in(s: &str) -> (res: Self)
        ensures
            res@ == s.spec_bytes(),
    {
        let src = s.as_bytes();
        let mut bytes: Vec<u8> = Vec::with_capacity(src.len());
        append_bytes(&mut bytes, src);
        proof {
            broadcast use encode_utf8_valid_utf8;
            assert(bytes@ =~= s.spec_bytes());
        }
        VecStr { bytes }
    }

    /// Appends one byte, which must be ASCII so that the content stays UTF-8.
    pub fn push(&mut self, char: u8)
        requires
            char < 0x80u8,
        ensures
            final(self)@ == old(self)@.push(char),
    {
        proof {
            use_type_invariant(&*self);
            lemma_ascii_valid_utf8(seq![char]);
            valid_utf8_concat(self.bytes@, seq![char]);
            assert(self.bytes@ + seq![char] =~= self.bytes@.push(char));
        }
        let mut bytes: Vec<u8> = Vec::new();
        std::mem::swap(&mut bytes, &mut self.bytes);
        bytes.push(char);
        self.bytes = bytes;
    }

    /// Appends the bytes of a string.
    pub fn push_str(&mut self, str: &str)
        ensures
            final(self)@ == old(self)@ + str.spec_bytes(),
    {
        proof {
            use_type_invariant(&*self);
            broadcast use encode_utf8_valid_utf8;
            valid_utf8_concat(self.bytes@, str.spec_bytes());
        }
        let mut bytes: Vec<u8> = Vec::new();
        std::mem::swap(&mut bytes, &mut self.bytes);
        append_bytes(&mut bytes, str.as_bytes());
        self.bytes = bytes;
    }

    /// Removes the bytes `start..end` and returns them. Both ends must fall on
    /// character boundaries so that the content stays UTF-8.
    pub fn drain(&mut self, start: usize, end: usize) -> (res: Vec<u8>)
        requires
            start <= end <= old(self)@.len(),
            is_char_boundary(old(self)@, start as int),
            is_char_boundary(old(self)@, end as int),
        ensures
            res@ == old(self)@.subrange(start as int, end as int),
            final(self)@ == old(self)@.subrange(0, start as int) + old(self)@.subrange(
                end as int,
                old(self)@.len() as int,
            ),
    {
        proof {
            use_type_invariant(&*self);
        }
        let ghost old_bytes = self.bytes@;
        let mut removed: Vec<u8> = Vec::new();
        let mut kept: Vec<u8> = Vec::new();
        let mut i: usize = 0;
        let n = self.bytes.len();
        while i < n
            invariant
                old_bytes == self.bytes@,
                n == old_bytes.len(),
                start <= end <= n,
                i <= n,
                removed@ == old_bytes.subrange(start as int, if i < start { start as int } else if i > end { end as int } else { i as int }),
                kept@ == old_bytes.subrange(0, if i < start { i as int } else { start as int })
                    + old_bytes.subrange(end as int, if i < end { end as int } else { i as int }),
            decreases n - i,
        {
            let b = self.bytes[i];
            if i < start || i >= end {
                kept.push(b);
            } else {
                removed.push(b);
            }
            proof {
                let ghost j = (i + 1) as int;
                assert(removed@ =~= old_bytes.subrange(start as int, if j < start { start as int } else if j > end { end as int } else { j }));
                assert(kept@ =~= old_bytes.subrange(0, if j < start { j } else { start as int })
                    + old_bytes.subrange(end as int, if j < end { end as int } else { j }));
            }
            i = i + 1;
        }
        proof {
            lemma_valid_between_boundaries(old_bytes, 0, start as int);
            is_char_boundary_start_end_of_seq(old_bytes);
            lemma_valid_between_boundaries(old_bytes, end as int, n as int);
            valid_utf8_concat(old_bytes.subrange(0, start as int), old_bytes.subrange(end as int, n as int));
        }
        self.bytes = kept;
        removed
    }

    /// Empties the buffer.
    pub fn clear(&mut self)
        ensures
            final(self)@ == Seq::<u8>::empty(),
    {
        proof {
            lemma_ascii_valid_utf8(Seq::<u8>::empty());
        }
        let mut bytes: Vec<u8> = Vec::new();
        std::mem::swap(&mut bytes, &mut self.bytes);
        bytes.clear();
        self.bytes = bytes;
    }

    /// The number of bytes.
    pub fn len(&self) -> (res: usize)
        ensures
            res == self@.len(),
    {
        self.bytes.len()
    }

    /// The content as bytes.
    pub fn as_bytes(&self) -> (res: &[u8])
        ensures
            res@ == self@,
    {
        self.bytes.as_slice()
    }

    /// The content as a string slice.
    pub fn as_str(&self) -> (res: &str)
        ensures
            res.spec_bytes() == self@,
    {
        proof {
            use_type_invariant(self);
        }
        str_of_utf8_bytes(self.bytes.as_slice())
    }
}

} // verus!
