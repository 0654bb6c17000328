//! A read-only byte buffer with a cursor that can step back.

use crate::text::all_ascii;
use vstd::prelude::*;
use vstd::string::StrSliceExecFns;
use vstd::utf8::{is_ascii_chars, is_ascii_chars_encode_utf8};

verus! {

/// The bytes that stand for a sequence of ASCII characters, one byte for each.
pub open spec fn ascii_bytes(chars: Seq<char>) -> Seq<u8> {
    Seq::new(chars.len(), |i: int| chars[i] as u8)
}

/// Read-only buffer: the bytes of one input string and a read offset into them.
#[derive(Debug)]
pub struct ROBuffer {
    contents: Vec<u8>,
    offset: usize,
}

/// The mathematical model of a [`ROBuffer`].
pub struct ROBufferView {
    pub contents: Seq<u8>,
    pub offset: nat,
}

impl ROBufferView {
    /// The offset lies within the contents or at their end, and every byte is ASCII.
    pub open spec fn wf(self) -> bool {
        &&& self.offset <= self.contents.len()
        &&& all_ascii(self.contents)
    }
}

impl View for ROBuffer {
    type V = ROBufferView;

    closed spec fn view(&self) -> ROBufferView {
        ROBufferView { contents: self.contents@, offset: self.offset as nat }
    }
}

impl ROBuffer {
    #[verifier::type_invariant]
    spec fn inv(self) -> bool {
        self@.wf()
    }

    /// A buffer over the bytes of `ty`, read from the start, if every character of
    /// `ty` is ASCII.
    pub fn new(ty: String) -> (r: Result<Self, ()>)
        ensures
            match r {
                Ok(buf) => is_ascii_chars(ty@) && buf@.wf() && buf@ == (ROBufferView {
                    contents: ascii_bytes(ty@),
                    offset: 0,
                }),
                Err(_) => !is_ascii_chars(ty@),
            },
    {
        let text = ty.as_str();
        if !text.is_ascii() {
            return Err(());
        }
        let bytes = text.as_bytes_vec();
        proof {
            is_ascii_chars_encode_utf8(ty@);
            assert(bytes@ =~= ascii_bytes(ty@));
        }
        Ok(Self { contents: bytes, offset: 0 })
    }

    /// The next byte, if there is one; the offset then moves past it.
    pub fn next(&mut self) -> (b: Option<u8>)
        ensures
            final(self)@.wf(),
            final(self)@.contents == old(self)@.contents,
            old(self)@.offset < old(self)@.contents.len() ==> b == Some(
                old(self)@.contents[old(self)@.offset as int],
            ) && final(self)@.offset == old(self)@.offset + 1,
            old(self)@.offset >= old(self)@.contents.len() ==> b is None && final(self)@.offset
                == old(self)@.offset,
        no_unwind
    {
        proof {
            use_type_invariant(&*self);
        }
        if self.contents.len() <= self.offset {
            return None;
        }
        self.offset += 1;
        Some(self.contents[self.offset - 1])
    }

    /// Moves the offset back by one byte.
    pub fn rewind(&mut self)
        requires
            old(self)@.offset > 0,
        ensures
            final(self)@.wf(),
            final(self)@.contents == old(self)@.contents,
            final(self)@.offset == old(self)@.offset - 1,
        no_unwind
    {
        proof {
            use_type_invariant(&*self);
        }
        self.offset -= 1;
    }
}

} // verus!
