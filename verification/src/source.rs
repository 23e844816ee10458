//! The input of a translation, with the cursor that walks through it.

use vstd::prelude::*;
use crate::chars::char_of;
use crate::step::look_at;

verus! {

/// The characters that a sequence of bytes stands for, one for each byte.
pub open spec fn chars_of(bytes: Seq<u8>) -> Seq<char> {
    Seq::new(bytes.len(), |i: int| char_of(bytes[i]))
}

/// An input held in memory and a cursor into it. The cursor only moves forward, one
/// character at a time, and stops right behind the last character.
pub struct Source {
    chars: Vec<char>,
    pos: usize,
}

impl Source {
    /// The whole input, consumed or not.
    pub closed spec fn text(&self) -> Seq<char> {
        self.chars@
    }

    /// The place of the cursor.
    pub closed spec fn cursor(&self) -> int {
        self.pos as int
    }

    /// The cursor lies within the input or right behind it.
    #[verifier::type_invariant]
    pub open spec fn inv(self) -> bool {
        0 <= self.cursor() <= self.text().len()
    }

    /// The input `bytes`, with the cursor at its first character.
    pub fn new(bytes: &[u8]) -> (r: Self)
        ensures
            r.text() == chars_of(bytes@),
            r.cursor() == 0,
    {
        let mut chars: Vec<char> = Vec::new();
        let mut i: usize = 0;
        while i < bytes.len()
            invariant
                i <= bytes.len(),
                chars@ == chars_of(bytes@.subrange(0, i as int)),
            decreases bytes.len() - i,
        {
            chars.push(bytes[i] as char);
            i += 1;
            assert(chars@ =~= chars_of(bytes@.subrange(0, i as int)));
        }
        assert(bytes@.subrange(0, i as int) =~= bytes@);
        Source { chars, pos: 0 }
    }

    /// The character at the cursor; none behind the last one.
    pub fn peek(&self) -> (r: Option<char>)
        ensures
            r == look_at(self.text(), self.cursor()),
    {
        proof {
            use_type_invariant(self);
        }
        if self.pos < self.chars.len() {
            Some(self.chars[self.pos])
        } else {
            None
        }
    }

    /// How many characters lie from the cursor on.
    pub fn remaining(&self) -> (r: usize)
        ensures
            r == self.text().len() - self.cursor(),
    {
        proof {
            use_type_invariant(self);
        }
        self.chars.len() - self.pos
    }

    /// Returns the character at the cursor and moves the cursor behind it. Behind the
    /// last character it returns none and moves nothing.
    pub fn advance(&mut self) -> (r: Option<char>)
        ensures
            r == look_at(old(self).text(), old(self).cursor()),
            final(self).text() == old(self).text(),
            final(self).cursor() == old(self).cursor() + (if r is Some { 1int } else { 0int }),
    {
        proof {
            use_type_invariant(&*self);
        }
        if self.pos < self.chars.len() {
            let c = self.chars[self.pos];
            self.pos = self.pos + 1;
            Some(c)
        } else {
            None
        }
    }
}

} // verus!
