use vstd::prelude::*;

verus! {

/// A point in a document: a line index and a byte offset into that line's text.
/// The derived order is the order of `pos_le`.
#[derive(Clone, Copy, Debug, PartialEq, Eq, Structural, Hash, Default, PartialOrd, Ord)]
pub struct Position {
    pub line_index: usize,
    pub byte_index: usize,
}

/// The extent of a piece of text: the number of line breaks it contains and the
/// number of bytes after its last line break.
#[derive(Clone, Copy, Debug, PartialEq, Eq, Structural, Hash, Default)]
pub struct Length {
    pub line_count: usize,
    pub byte_count: usize,
}

/// Lexicographic order on (line index, byte offset).
pub open spec fn pos_le(a: Position, b: Position) -> bool {
    a.line_index < b.line_index || (a.line_index == b.line_index && a.byte_index <= b.byte_index)
}

pub open spec fn pos_lt(a: Position, b: Position) -> bool {
    pos_le(a, b) && a != b
}

pub open spec fn pos_min(a: Position, b: Position) -> Position {
    if pos_le(a, b) { a } else { b }
}

pub open spec fn pos_max(a: Position, b: Position) -> Position {
    if pos_le(a, b) { b } else { a }
}

/// The position reached from `p` by walking over a piece of text of length `l`
/// (indices stop at `usize::MAX`).
pub open spec fn pos_add(p: Position, l: Length) -> Position {
    if l.line_count == 0 {
        Position {
            line_index: p.line_index,
            byte_index: sat_usize(p.byte_index + l.byte_count),
        }
    } else {
        Position {
            line_index: sat_usize(p.line_index + l.line_count),
            byte_index: l.byte_count,
        }
    }
}

pub open spec fn sat_usize(x: int) -> usize {
    if x > usize::MAX { usize::MAX } else { x as usize }
}

/// A length read as the position it reaches from the origin.
pub open spec fn len_pos(l: Length) -> Position {
    Position { line_index: l.line_count, byte_index: l.byte_count }
}

/// The length of the text between `a` and a later position `b`.
pub open spec fn pos_sub(b: Position, a: Position) -> Length {
    if b.line_index == a.line_index {
        Length { line_count: 0, byte_count: (b.byte_index - a.byte_index) as usize }
    } else {
        Length { line_count: (b.line_index - a.line_index) as usize, byte_count: b.byte_index }
    }
}

impl Position {
    pub fn new(line_index: usize, byte_index: usize) -> (r: Position)
        ensures
            r.line_index == line_index,
            r.byte_index == byte_index,
    {
        Position { line_index, byte_index }
    }

    pub fn origin() -> (r: Position)
        ensures
            r.line_index == 0,
            r.byte_index == 0,
    {
        Position { line_index: 0, byte_index: 0 }
    }

    pub fn le(&self, other: &Position) -> (r: bool)
        ensures
            r == pos_le(*self, *other),
    {
        self.line_index < other.line_index || (self.line_index == other.line_index
            && self.byte_index <= other.byte_index)
    }

    pub fn min(self, other: Position) -> (r: Position)
        ensures
            r == pos_min(self, other),
    {
        if self.le(&other) { self } else { other }
    }

    pub fn max(self, other: Position) -> (r: Position)
        ensures
            r == pos_max(self, other),
    {
        if self.le(&other) { other } else { self }
    }

    /// The position reached by walking over a text of length `length`.
    pub fn add_length(self, length: Length) -> (r: Position)
        ensures
            r == pos_add(self, length),
    {
        if length.line_count == 0 {
            Position {
                line_index: self.line_index,
                byte_index: self.byte_index.saturating_add(length.byte_count),
            }
        } else {
            Position {
                line_index: self.line_index.saturating_add(length.line_count),
                byte_index: length.byte_count,
            }
        }
    }

    /// The length of the text from `start` up to this position.
    pub fn sub_position(self, start: Position) -> (r: Length)
        requires
            pos_le(start, self),
        ensures
            r == pos_sub(self, start),
    {
        if self.line_index == start.line_index {
            Length { line_count: 0, byte_count: self.byte_index - start.byte_index }
        } else {
            Length { line_count: self.line_index - start.line_index, byte_count: self.byte_index }
        }
    }
}

impl Length {
    pub fn zero() -> (r: Length)
        ensures
            r.line_count == 0,
            r.byte_count == 0,
    {
        Length { line_count: 0, byte_count: 0 }
    }

    pub fn le(&self, other: &Length) -> (r: bool)
        ensures
            r == pos_le(len_pos(*self), len_pos(*other)),
    {
        self.line_count < other.line_count || (self.line_count == other.line_count
            && self.byte_count <= other.byte_count)
    }

    /// The length left of this one after `other`, a shorter length, is walked.
    pub fn sub_length(self, other: Length) -> (r: Length)
        requires
            pos_le(len_pos(other), len_pos(self)),
        ensures
            r == pos_sub(len_pos(self), len_pos(other)),
    {
        len_to_pos(self).sub_position(len_to_pos(other))
    }

    pub fn new(line_count: usize, byte_count: usize) -> (r: Length)
        ensures
            r.line_count == line_count,
            r.byte_count == byte_count,
    {
        Length { line_count, byte_count }
    }
}

pub fn len_to_pos(l: Length) -> (r: Position)
    ensures
        r == len_pos(l),
{
    Position { line_index: l.line_count, byte_index: l.byte_count }
}

/// A span of a document, from `start` up to `end`.
#[derive(Clone, Copy, Debug, PartialEq, Eq, Structural, Hash, Default)]
pub struct Range {
    pub start: Position,
    pub end: Position,
}

impl Range {
    pub fn new(start: Position, end: Position) -> (r: Range)
        requires
            pos_le(start, end),
        ensures
            r.start == start,
            r.end == end,
    {
        Range { start, end }
    }
}

/// A selection: the fixed end (`anchor`), the moving end (`cursor`) and the column
/// that vertical movement tries to keep.
#[derive(Clone, Copy, Debug, PartialEq, Eq, Structural, Hash, Default)]
pub struct Selection {
    pub anchor: Position,
    pub cursor: Position,
    pub column_index: Option<usize>,
}

impl Selection {
    pub open spec fn spec_start(self) -> Position {
        pos_min(self.anchor, self.cursor)
    }

    pub open spec fn spec_end(self) -> Position {
        pos_max(self.anchor, self.cursor)
    }

    /// Two selections, the first starting no later than the second, are merged
    /// when the first reaches the start of the second.
    pub open spec fn spec_should_merge(self, other: Selection) -> bool {
        pos_le(other.spec_start(), self.spec_end())
    }

    pub fn new(anchor: Position, cursor: Position, column_index: Option<usize>) -> (r: Selection)
        ensures
            r.anchor == anchor,
            r.cursor == cursor,
            r.column_index == column_index,
    {
        Selection { anchor, cursor, column_index }
    }

    pub fn from_cursor(cursor: Position) -> (r: Selection)
        ensures
            r.anchor == cursor,
            r.cursor == cursor,
            r.column_index.is_none(),
    {
        Selection { anchor: cursor, cursor, column_index: None }
    }

    pub fn start(&self) -> (r: Position)
        ensures
            r == self.spec_start(),
    {
        self.anchor.min(self.cursor)
    }

    pub fn end(&self) -> (r: Position)
        ensures
            r == self.spec_end(),
    {
        self.anchor.max(self.cursor)
    }

    /// The length of the selected text.
    pub fn length(&self) -> (r: Length)
        ensures
            r == pos_sub(self.spec_end(), self.spec_start()),
    {
        self.end().sub_position(self.start())
    }

    pub fn should_merge(&self, other: &Selection) -> (r: bool)
        ensures
            r == self.spec_should_merge(*other),
    {
        other.start().le(&self.end())
    }

    /// The selection collapsed onto its cursor.
    pub fn reset_anchor(self) -> (r: Selection)
        ensures
            r.anchor == self.cursor,
            r.cursor == self.cursor,
            r.column_index == self.column_index,
    {
        Selection { anchor: self.cursor, cursor: self.cursor, column_index: self.column_index }
    }

    /// The selection with a new cursor and remembered column; the anchor is kept.
    pub fn update_cursor(self, cursor: Position, column_index: Option<usize>) -> (r: Selection)
        ensures
            r.anchor == self.anchor,
            r.cursor == cursor,
            r.column_index == column_index,
    {
        Selection { anchor: self.anchor, cursor, column_index }
    }
}

} // verus!
