//! The cursor: the one piece of mutable state in a parse. It owns the input
//! text and a current position, counted in codepoints, and every reader
//! advances it.

use vstd::prelude::*;

use crate::value::ParseError;

verus! {

/// The position-tracking view over the input text shared by all readers
/// during one parse. The position never exceeds the text's length in
/// codepoints, and never decreases over the life of a parse.
pub struct Cursor {
    pub text: String,
    pub curr_pos: usize,
}

impl Cursor {
    /// The cursor's invariant: the position stays within the text, and the
    /// text's length in codepoints is machine-representable.
    pub open spec fn wf(&self) -> bool {
        self.curr_pos <= self.text@.len() && self.text@.len() <= usize::MAX
    }

    /// A fresh cursor at the start of the given text.
    pub fn new(text: String) -> (c: Cursor)
        ensures
            c.wf(),
            c.text@ == text@,
            c.curr_pos == 0,
    {
        let _len = text.as_str().unicode_len();
        Cursor { text, curr_pos: 0 }
    }

    /// Whether a character is left to read.
    pub fn has_next_char(&self) -> (r: bool)
        requires
            self.wf(),
        ensures
            r == (self.curr_pos < self.text@.len()),
    {
        self.curr_pos < self.text.as_str().unicode_len()
    }

    /// The character at the current position, or `UnexpectedEndOfInput` when
    /// the text is exhausted.
    pub fn current_char(&self) -> (r: Result<char, ParseError>)
        requires
            self.wf(),
        ensures
            self.curr_pos < self.text@.len() ==> r == Ok::<char, ParseError>(
                self.text@[self.curr_pos as int],
            ),
            self.curr_pos >= self.text@.len() ==> r == Err::<char, ParseError>(
                ParseError::UnexpectedEndOfInput,
            ),
    {
        if self.curr_pos < self.text.as_str().unicode_len() {
            Ok(self.text.as_str().get_char(self.curr_pos))
        } else {
            Err(ParseError::UnexpectedEndOfInput)
        }
    }

    /// Advances past the current character. Callers must not advance past
    /// the end of the text.
    pub fn skip_char(&mut self)
        requires
            old(self).wf(),
            old(self).curr_pos < old(self).text@.len(),
        ensures
            final(self).wf(),
            final(self).text@ == old(self).text@,
            final(self).curr_pos == old(self).curr_pos + 1,
    {
        self.curr_pos = self.curr_pos + 1;
    }

    /// Advances past the current character and returns the one after it, or
    /// `UnexpectedEndOfInput` when the advance exhausts the text.
    pub fn next_char(&mut self) -> (r: Result<char, ParseError>)
        requires
            old(self).wf(),
            old(self).curr_pos < old(self).text@.len(),
        ensures
            final(self).wf(),
            final(self).text@ == old(self).text@,
            final(self).curr_pos == old(self).curr_pos + 1,
            final(self).curr_pos < final(self).text@.len() ==> r == Ok::<char, ParseError>(
                final(self).text@[final(self).curr_pos as int],
            ),
            final(self).curr_pos >= final(self).text@.len() ==> r == Err::<char, ParseError>(
                ParseError::UnexpectedEndOfInput,
            ),
    {
        self.curr_pos = self.curr_pos + 1;
        self.current_char()
    }

    /// Whether the current character is `ch`. Callers must have a character
    /// left to read.
    pub fn expect_char(&self, ch: char) -> (r: bool)
        requires
            self.wf(),
            self.curr_pos < self.text@.len(),
        ensures
            r == (self.text@[self.curr_pos as int] == ch),
    {
        self.text.as_str().get_char(self.curr_pos) == ch
    }
}

} // verus!
