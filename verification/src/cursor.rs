//! A place in a text that moves forward one character at a time and knows
//! its three coordinates.
use crate::text::{
    column_at, end_position_at, lemma_coordinates_bounded, lemma_offset_increases, line_at,
    offset_at, position_at, start_position_at, utf8_width,
};
use crate::Position;
use vstd::prelude::*;

verus! {

/// The number of bytes that `c` takes in UTF-8.
pub fn width(c: char) -> (n: usize)
    ensures
        n == utf8_width(c),
{
    let v: u32 = c as u32;
    if v < 0x80 {
        1
    } else if v < 0x800 {
        2
    } else if v < 0x10000 {
        3
    } else {
        4
    }
}

/// A place between two characters of a text, or at one of its ends.
#[derive(Debug, Clone, Copy)]
pub struct Cursor {
    /// The number of characters before the cursor.
    pub index: usize,
    /// The number of bytes before the cursor.
    pub offset: usize,
    /// The number of line feeds before the cursor.
    pub line_feeds: usize,
    /// The number of columns taken on this line before the cursor.
    pub columns: usize,
    /// The line of the character before the cursor.
    pub last_line: usize,
    /// The column of the character before the cursor.
    pub last_column: usize,
}

impl Cursor {
    /// Whether this is the cursor behind the first `self.index` characters
    /// of `s`.
    pub open spec fn wf(&self, s: Seq<char>) -> bool {
        &&& self.index <= s.len()
        &&& self.offset == offset_at(s, self.index as int)
        &&& self.line_feeds + 1 == line_at(s, self.index as int)
        &&& self.columns + 1 == column_at(s, self.index as int)
        &&& self.index > 0 ==> {
            &&& self.last_line == line_at(s, self.index - 1)
            &&& self.last_column == column_at(s, self.index - 1)
        }
    }

    /// The cursor at the start of a text.
    pub fn start() -> (c: Self)
        ensures
            c.index == 0,
            forall|s: Seq<char>| c.wf(s),
    {
        Cursor { index: 0, offset: 0, line_feeds: 0, columns: 0, last_line: 1, last_column: 1 }
    }

    /// Accounts for a line feed or a carriage return that was passed as any
    /// other character: a line feed starts a new line, and a carriage return
    /// takes no column. Returns whether `c` is one of the two.
    fn process_newline(&mut self, c: char) -> (r: bool)
        requires
            old(self).columns > 0,
            old(self).line_feeds < usize::MAX,
        ensures
            r == (c == '\n' || c == '\r'),
            final(self).index == old(self).index,
            final(self).offset == old(self).offset,
            final(self).last_line == old(self).last_line,
            final(self).last_column == old(self).last_column,
            final(self).line_feeds == old(self).line_feeds + if c == '\n' {
                1int
            } else {
                0int
            },
            final(self).columns == if c == '\n' {
                0int
            } else if c == '\r' {
                old(self).columns - 1
            } else {
                old(self).columns as int
            },
    {
        if c == '\n' {
            self.line_feeds += 1;
            self.columns = 0;
        } else if c == '\r' {
            self.columns -= 1;
        } else {
            return false;
        }
        true
    }

    /// Moves the cursor behind the character `c`, which stands at it.
    pub fn advance(&mut self, c: char, Ghost(s): Ghost<Seq<char>>)
        requires
            old(self).wf(s),
            old(self).index < s.len(),
            s[old(self).index as int] == c,
            offset_at(s, s.len() as int) <= usize::MAX,
        ensures
            final(self).wf(s),
            final(self).index == old(self).index + 1,
    {
        proof {
            lemma_coordinates_bounded(s, self.index as int);
            lemma_coordinates_bounded(s, self.index + 1);
            lemma_offset_increases(s, self.index + 1, s.len() as int);
        }
        self.last_line = self.line_feeds + 1;
        self.last_column = self.columns + 1;
        self.index += 1;
        self.offset += width(c);
        self.columns += 1;
        self.process_newline(c);
    }

    /// The position of the character at the cursor.
    pub fn position(&self, Ghost(s): Ghost<Seq<char>>) -> (p: Position)
        requires
            self.wf(s),
            self.index < s.len(),
            offset_at(s, s.len() as int) <= usize::MAX,
        ensures
            p == position_at(s, self.index as int),
            p == start_position_at(s, self.index as int),
    {
        proof {
            lemma_coordinates_bounded(s, self.index as int);
            lemma_coordinates_bounded(s, s.len() as int);
        }
        Position { line: self.line_feeds + 1, column: self.columns + 1, offset: self.offset }
    }

    /// The position that starts a token at the cursor: that of the character
    /// there, or, at the end of the text, that of the end of the text. `len`
    /// is the number of characters of the text.
    pub fn start_position(&self, len: usize, Ghost(s): Ghost<Seq<char>>) -> (p: Position)
        requires
            self.wf(s),
            len == s.len(),
            self.index > 0 || self.index < s.len(),
            offset_at(s, s.len() as int) <= usize::MAX,
        ensures
            p == start_position_at(s, self.index as int),
    {
        if self.index < len {
            self.position(Ghost(s))
        } else {
            self.end_position(Ghost(s))
        }
    }

    /// The position that ends a token whose last character is the one before
    /// the cursor.
    pub fn end_position(&self, Ghost(s): Ghost<Seq<char>>) -> (p: Position)
        requires
            self.wf(s),
            self.index > 0,
        ensures
            p == end_position_at(s, self.index as int),
    {
        Position { line: self.last_line, column: self.last_column, offset: self.offset }
    }
}

} // verus!
