//! Positions in the input and spans between them.

use vstd::prelude::*;

verus! {

/// True for the characters that end a line: LF, VT, FF, NEL, LS and PS.
pub open spec fn is_line_terminator(c: char) -> bool {
    c == '\n' || c == '\x0B' || c == '\x0C' || c == '\u{0085}' || c == '\u{2028}' || c == '\u{2029}'
}

/// Is `c` a line terminator?
pub fn is_char_new_line(c: char) -> (r: bool)
    ensures
        r == is_line_terminator(c),
{
    c == '\n' || c == '\x0B' || c == '\x0C' || c == '\u{0085}' || c == '\u{2028}' || c == '\u{2029}'
}

/// Number of bytes in the UTF-8 encoding of `c`.
pub open spec fn utf8_len(c: char) -> nat {
    if (c as u32) < 0x80 {
        1
    } else if (c as u32) < 0x800 {
        2
    } else if (c as u32) < 0x10000 {
        3
    } else {
        4
    }
}

/// Number of bytes in the UTF-8 encoding of the characters `s`.
pub open spec fn byte_count(s: Seq<char>) -> nat
    decreases s.len(),
{
    if s.len() == 0 {
        0
    } else {
        byte_count(s.drop_last()) + utf8_len(s.last())
    }
}

/// The 1-based line on which the text after `s` starts.
pub open spec fn line_after(s: Seq<char>) -> nat
    decreases s.len(),
{
    if s.len() == 0 {
        1
    } else if is_line_terminator(s.last()) {
        line_after(s.drop_last()) + 1
    } else {
        line_after(s.drop_last())
    }
}

/// The 0-based column at which the text after `s` starts.
pub open spec fn col_after(s: Seq<char>) -> nat
    decreases s.len(),
{
    if s.len() == 0 {
        0
    } else if is_line_terminator(s.last()) {
        0
    } else {
        col_after(s.drop_last()) + 1
    }
}

/// Byte counts add up over concatenation.
pub proof fn lemma_byte_count_append(a: Seq<char>, b: Seq<char>)
    ensures
        byte_count(a + b) == byte_count(a) + byte_count(b),
    decreases b.len(),
{
    if b.len() == 0 {
        assert(a + b =~= a);
    } else {
        lemma_byte_count_append(a, b.drop_last());
        assert((a + b).drop_last() =~= a + b.drop_last());
    }
}

/// Every character takes at least one byte.
pub proof fn lemma_byte_count_len(s: Seq<char>)
    ensures
        byte_count(s) >= s.len(),
    decreases s.len(),
{
    if s.len() > 0 {
        lemma_byte_count_len(s.drop_last());
    }
}

/// Line and column never exceed the byte count by more than the first line.
pub proof fn lemma_line_col_bounded(s: Seq<char>)
    ensures
        line_after(s) <= byte_count(s) + 1,
        col_after(s) <= byte_count(s),
    decreases s.len(),
{
    if s.len() > 0 {
        lemma_line_col_bounded(s.drop_last());
    }
}

/// A place in the input: a byte offset, a 1-based line and a 0-based column.
#[derive(Debug, Clone, Copy, PartialEq, Eq, Structural)]
pub struct Position {
    pub byte: usize,
    pub line: usize,
    pub col: usize,
}

/// The stretch of input between two positions.
#[derive(Debug, Clone, Copy, PartialEq, Eq, Structural)]
pub struct Span {
    pub start: Position,
    pub end: Position,
}

impl Position {
    /// True when this is the position after reading `s` from the start of the input.
    pub open spec fn is_after(self, s: Seq<char>) -> bool {
        &&& self.byte == byte_count(s)
        &&& self.line == line_after(s)
        &&& self.col == col_after(s)
    }

    /// The start of the input.
    pub fn new() -> (r: Position)
        ensures
            r == (Position { byte: 0, line: 1, col: 0 }),
            r.is_after(Seq::empty()),
    {
        Position { byte: 0, line: 1, col: 0 }
    }

    pub fn new2(byte: usize, line: usize, col: usize) -> (r: Position)
        ensures
            r == (Position { byte, line, col }),
    {
        Position { byte: byte, line: line, col: col }
    }

    /// Moves past one character: the byte offset grows by its UTF-8 length, and a
    /// line terminator starts a new line at column 0.
    pub fn step(&mut self, c: char)
        requires
            old(self).byte + utf8_len(c) <= usize::MAX,
            old(self).line < usize::MAX,
            old(self).col < usize::MAX,
        ensures
            final(self).byte == old(self).byte + utf8_len(c),
            final(self).line == if is_line_terminator(c) {
                old(self).line + 1
            } else {
                old(self).line as int
            },
            final(self).col == if is_line_terminator(c) {
                0
            } else {
                old(self).col + 1
            },
    {
        self.byte = self.byte + char_len_utf8(c);
        if is_char_new_line(c) {
            self.line = self.line + 1;
            self.col = 0;
        } else {
            self.col = self.col + 1;
        }
    }

    /// An empty span at this position.
    pub fn start_span(&self) -> (r: Span)
        ensures
            r.start == *self,
            r.end == *self,
    {
        Span { start: *self, end: *self }
    }
}

/// Stepping past one more character keeps a position in line with the text read.
pub proof fn lemma_step_after(p: Position, q: Position, s: Seq<char>, c: char)
    requires
        p.is_after(s),
        q.byte == p.byte + utf8_len(c),
        q.line == if is_line_terminator(c) {
            p.line + 1
        } else {
            p.line as int
        },
        q.col == if is_line_terminator(c) {
            0
        } else {
            p.col + 1
        },
    ensures
        q.is_after(s.push(c)),
{
    assert(s.push(c).drop_last() =~= s);
}

/// Number of bytes in the UTF-8 encoding of `c`.
pub fn char_len_utf8(c: char) -> (r: usize)
    ensures
        r == utf8_len(c),
        1 <= r <= 4,
{
    let v = c as u32;
    if v < 0x80 {
        1
    } else if v < 0x800 {
        2
    } else if v < 0x10000 {
        3
    } else {
        4
    }
}

impl Span {
    /// The empty span at the start of the input.
    pub fn new() -> (r: Span)
        ensures
            r.start == (Position { byte: 0, line: 1, col: 0 }),
            r.end == r.start,
    {
        Span { start: Position::new(), end: Position::new() }
    }

    pub fn new2(
        start_byte: usize,
        start_line: usize,
        start_col: usize,
        end_byte: usize,
        end_line: usize,
        end_col: usize,
    ) -> (r: Span)
        ensures
            r.start == (Position { byte: start_byte, line: start_line, col: start_col }),
            r.end == (Position { byte: end_byte, line: end_line, col: end_col }),
    {
        Span {
            start: Position::new2(start_byte, start_line, start_col),
            end: Position::new2(end_byte, end_line, end_col),
        }
    }

    /// The empty span at `pos`.
    pub fn new_from(pos: Position) -> (r: Span)
        ensures
            r.start == pos,
            r.end == pos,
    {
        Span { start: pos, end: pos }
    }

    /// Extends the span past one more character.
    pub fn step(&mut self, c: char)
        requires
            old(self).end.byte + utf8_len(c) <= usize::MAX,
            old(self).end.line < usize::MAX,
            old(self).end.col < usize::MAX,
        ensures
            final(self).start == old(self).start,
            final(self).end.byte == old(self).end.byte + utf8_len(c),
            final(self).end.line == if is_line_terminator(c) {
                old(self).end.line + 1
            } else {
                old(self).end.line as int
            },
            final(self).end.col == if is_line_terminator(c) {
                0
            } else {
                old(self).end.col + 1
            },
    {
        self.end.step(c)
    }

    /// Starts a new, empty span where this one ends.
    pub fn rotate(&mut self)
        ensures
            final(self).start == old(self).end,
            final(self).end == old(self).end,
    {
        self.start = self.end;
    }

    /// The length of the span in bytes.
    pub fn len(self) -> (r: usize)
        requires
            self.start.byte <= self.end.byte,
        ensures
            r == self.end.byte - self.start.byte,
    {
        self.end.byte - self.start.byte
    }
}

} // verus!
