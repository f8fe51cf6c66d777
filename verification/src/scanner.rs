//! A plain scanner: it cuts a source into words and single characters, and
//! keeps neither kinds nor positions.

use crate::chars::{ascii_letter, is_ascii_letter, alphanumeric};
use crate::lexer::peek_at;
use crate::text::{chars_of, string_of};
use vstd::prelude::*;

verus! {

/// Where the run of alphanumeric characters ends that goes on at `i`.
pub open spec fn alphanumeric_end(s: Seq<char>, i: int) -> int
    decreases s.len() - i,
{
    if 0 <= i < s.len() && alphanumeric(s[i]) {
        alphanumeric_end(s, i + 1)
    } else {
        i
    }
}

/// Where the piece ends that starts at `i`: an ASCII letter starts a word,
/// which goes on over every alphanumeric character; any other character is a
/// piece by itself.
pub open spec fn piece_end(s: Seq<char>, i: int) -> int {
    if ascii_letter(s[i]) {
        alphanumeric_end(s, i + 1)
    } else {
        i + 1
    }
}

/// Cuts a source into pieces, one at a time.
pub struct Lexer {
    source: Vec<char>,
    index: usize,
}

impl Lexer {
    #[verifier::type_invariant]
    closed spec fn inv(&self) -> bool {
        self.index <= self.source@.len()
    }

    /// The characters of the source.
    pub closed spec fn source(&self) -> Seq<char> {
        self.source@
    }

    /// The place of the next character.
    pub closed spec fn index(&self) -> int {
        self.index as int
    }

    /// A scanner at the start of `source`.
    pub fn new(source: &str) -> (lexer: Lexer)
        ensures
            lexer.source() == source@,
            lexer.index() == 0,
    {
        Lexer { source: chars_of(source), index: 0 }
    }

    /// The next character, or the null character at the end of the source.
    pub fn peek(&mut self) -> (c: char)
        ensures
            *final(self) == *old(self),
            0 <= old(self).index() <= old(self).source().len(),
            c == peek_at(old(self).source(), old(self).index()),
    {
        proof {
            use_type_invariant(&*self);
        }
        if self.index >= self.source.len() {
            return '\0';
        }
        self.source[self.index]
    }

    /// The next piece: a word, or a single character. At the end of the
    /// source, and before a null character, the piece is empty and the
    /// scanner stays where it is.
    pub fn next(&mut self) -> (piece: String)
        ensures
            final(self).source() == old(self).source(),
            peek_at(old(self).source(), old(self).index()) == '\0' ==> piece@.len() == 0
                && final(self).index() == old(self).index(),
            peek_at(old(self).source(), old(self).index()) != '\0' ==> piece@ == old(
                self,
            ).source().subrange(old(self).index(), piece_end(old(self).source(), old(self).index()))
                && final(self).index() == piece_end(old(self).source(), old(self).index()),
    {
        self.consume()
    }

    fn consume(&mut self) -> (piece: String)
        ensures
            final(self).source() == old(self).source(),
            peek_at(old(self).source(), old(self).index()) == '\0' ==> piece@.len() == 0
                && final(self).index() == old(self).index(),
            peek_at(old(self).source(), old(self).index()) != '\0' ==> piece@ == old(
                self,
            ).source().subrange(old(self).index(), piece_end(old(self).source(), old(self).index()))
                && final(self).index() == piece_end(old(self).source(), old(self).index()),
    {
        let c = self.peek();
        if is_ascii_letter(c) {
            self.consume_word()
        } else if c == '\0' {
            String::new()
        } else {
            proof {
                assert(self.index < self.source.len());
            }
            let start = self.index;
            self.index = self.index + 1;
            string_of(&self.source, start, self.index)
        }
    }

    /// Takes a word: the letter that starts it, and every alphanumeric
    /// character that follows.
    fn consume_word(&mut self) -> (piece: String)
        requires
            old(self).index() < old(self).source().len(),
        ensures
            final(self).source() == old(self).source(),
            final(self).index() == alphanumeric_end(old(self).source(), old(self).index() + 1),
            piece@ == old(self).source().subrange(
                old(self).index(),
                alphanumeric_end(old(self).source(), old(self).index() + 1),
            ),
    {
        proof {
            use_type_invariant(&*self);
            assert(self.index < self.source.len());
        }
        let start = self.index;
        self.index = self.index + 1;
        while self.index < self.source.len() && self.source[self.index].is_alphanumeric()
            invariant
                self.source@ == old(self).source@,
                start < self.index <= self.source@.len(),
                alphanumeric_end(self.source@, self.index as int) == alphanumeric_end(
                    self.source@,
                    start + 1,
                ),
            decreases self.source@.len() - self.index,
        {
            self.index = self.index + 1;
        }
        string_of(&self.source, start, self.index)
    }
}

} // verus!
