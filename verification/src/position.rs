//! Line and column of an offset into a text.

use vstd::prelude::*;

verus! {

/// A place in the text: both numbers count from 1.
#[derive(Clone, Copy, Debug, PartialEq, Eq, Structural)]
pub struct Position {
    pub line: usize,
    pub column: usize,
}

/// The line of the character at `offset`: one more than the number of line feeds
/// among the `offset` characters before it.
pub open spec fn line_at(src: Seq<char>, offset: int) -> int
    decreases offset,
{
    if offset <= 0 {
        1
    } else if src[offset - 1] == '\n' {
        line_at(src, offset - 1) + 1
    } else {
        line_at(src, offset - 1)
    }
}

/// The column of the character at `offset`: one more than the number of
/// characters between it and the last line feed before it.
pub open spec fn column_at(src: Seq<char>, offset: int) -> int
    decreases offset,
{
    if offset <= 0 {
        1
    } else if src[offset - 1] == '\n' {
        1
    } else {
        column_at(src, offset - 1) + 1
    }
}

impl Position {
    /// Whether this is the place of the character at `offset` in `src`.
    pub open spec fn is_at(self, src: Seq<char>, offset: int) -> bool {
        self.line == line_at(src, offset) && self.column == column_at(src, offset)
    }

    /// The first place of any text.
    pub fn start() -> (p: Position)
        ensures
            p.line == 1,
            p.column == 1,
            forall|src: Seq<char>| p.is_at(src, 0),
    {
        Position { line: 1, column: 1 }
    }

    /// The place after one more character `c`.
    pub fn advance(self, c: char) -> (p: Position)
        requires
            self.line < usize::MAX,
            self.column < usize::MAX,
        ensures
            c == '\n' ==> p.line == self.line + 1 && p.column == 1,
            c != '\n' ==> p.line == self.line && p.column == self.column + 1,
            forall|src: Seq<char>, offset: int|
                self.is_at(src, offset) && 0 <= offset < src.len() && src[offset] == c
                    ==> p.is_at(src, offset + 1),
    {
        if c == '\n' {
            Position { line: self.line + 1, column: 1 }
        } else {
            Position { line: self.line, column: self.column + 1 }
        }
    }
}

/// Line and column never exceed the offset by more than one.
pub proof fn lemma_position_bounds(src: Seq<char>, offset: int)
    requires
        0 <= offset,
    ensures
        1 <= line_at(src, offset) <= offset + 1,
        1 <= column_at(src, offset) <= offset + 1,
    decreases offset,
{
    if offset > 0 {
        lemma_position_bounds(src, offset - 1);
    }
}

/// The place of an offset depends only on the characters before it.
pub proof fn lemma_position_prefix(a: Seq<char>, b: Seq<char>, offset: int)
    requires
        0 <= offset <= a.len(),
        offset <= b.len(),
        forall|i: int| 0 <= i < offset ==> a[i] == b[i],
    ensures
        line_at(a, offset) == line_at(b, offset),
        column_at(a, offset) == column_at(b, offset),
    decreases offset,
{
    if offset > 0 {
        lemma_position_prefix(a, b, offset - 1);
    }
}

/// The line of an offset is one more than the number of line feeds before it.
pub proof fn lemma_line_counts_line_feeds(src: Seq<char>, offset: int)
    requires
        0 <= offset <= src.len(),
    ensures
        line_at(src, offset) == 1 + src.take(offset).filter(|c: char| c == '\n').len(),
    decreases offset,
{
    reveal(Seq::filter);
    if offset > 0 {
        lemma_line_counts_line_feeds(src, offset - 1);
        assert(src.take(offset).drop_last() =~= src.take(offset - 1));
    }
}

/// The column of an offset is its distance from the start of its line, plus one.
/// The line starts at `start`: at the start of the text or after a line feed,
/// with no line feed from there to the offset.
pub proof fn lemma_column_counts_from_line_start(src: Seq<char>, start: int, offset: int)
    requires
        0 <= start <= offset <= src.len(),
        start == 0 || src[start - 1] == '\n',
        forall|i: int| start <= i < offset ==> src[i] != '\n',
    ensures
        column_at(src, offset) == offset - start + 1,
    decreases offset - start,
{
    if start < offset {
        lemma_column_counts_from_line_start(src, start, offset - 1);
    }
}

} // verus!
