use vstd::prelude::*;
use crate::columns::{column_count, column_count_of};

verus! {

/// Configuration shared by all sessions.
#[derive(Clone, Copy, Debug, PartialEq, Eq, Structural)]
pub struct Settings {
    pub tab_column_count: usize,
}

impl Settings {
    pub fn new(tab_column_count: usize) -> (r: Settings)
        ensures
            r.tab_column_count == tab_column_count,
    {
        Settings { tab_column_count }
    }
}

/// A width and a height. Heights are measured in millionths of a row, widths in
/// millionths of a column.
#[derive(Clone, Copy, Debug, PartialEq, Eq, Structural, Default)]
pub struct Size {
    pub width: u64,
    pub height: u64,
}

/// A widget placed inside a line; it takes `column_count` columns and no bytes.
#[derive(Clone, Copy, Debug, PartialEq, Eq, Structural, Hash)]
pub struct InlineWidget {
    pub id: usize,
    pub column_count: usize,
}

/// A decoration spliced into a line at a byte offset.
#[derive(Clone, Debug, PartialEq, Eq, Hash)]
pub enum InlineInlay {
    Text(String),
    Widget(InlineWidget),
}

/// A widget that takes a whole block of its own between lines.
#[derive(Clone, Copy, Debug, PartialEq, Eq, Structural)]
pub struct BlockWidget {
    pub id: usize,
    pub size: Size,
}

/// The bytes of a string, as UTF-8.
pub open spec fn string_bytes(s: &String) -> Seq<u8> {
    vstd::utf8::encode_utf8(s@)
}

/// What an inline decoration is, as plain values.
pub ghost enum InlineView {
    Text { is_inlay: bool, text: Seq<u8> },
    Widget { id: usize, column_count: usize },
}

impl InlineView {
    /// The columns the piece takes.
    pub open spec fn columns(self, tab_column_count: usize) -> int {
        match self {
            InlineView::Text { text, .. } => column_count_of(text, tab_column_count),
            InlineView::Widget { column_count, .. } => column_count as int,
        }
    }

    /// The bytes the piece takes in inlay coordinates (a widget takes none).
    pub open spec fn byte_len(self) -> int {
        match self {
            InlineView::Text { text, .. } => text.len() as int,
            InlineView::Widget { .. } => 0,
        }
    }
}

impl InlineInlay {
    pub open spec fn spec_view(&self) -> InlineView {
        match self {
            InlineInlay::Text(s) => InlineView::Text { is_inlay: true, text: string_bytes(s) },
            InlineInlay::Widget(w) => InlineView::Widget { id: w.id, column_count: w.column_count },
        }
    }
}

/// A piece of a line: a run of the line's own text, the text of an inlay, or a widget.
#[derive(Clone, Copy, Debug)]
pub enum Inline<'a> {
    Text { is_inlay: bool, text: &'a [u8] },
    Widget(InlineWidget),
}

impl<'a> Inline<'a> {
    pub open spec fn spec_view(&self) -> InlineView {
        match self {
            Inline::Text { is_inlay, text } => InlineView::Text { is_inlay: *is_inlay, text: text@ },
            Inline::Widget(w) => InlineView::Widget { id: w.id, column_count: w.column_count },
        }
    }

    /// The columns this piece takes, with tabs `tab_column_count` wide.
    pub fn column_count(&self, tab_column_count: usize) -> (r: usize)
        ensures
            r == self.spec_view().columns(tab_column_count),
    {
        match self {
            Inline::Text { text, .. } => column_count(text, tab_column_count),
            Inline::Widget(widget) => widget.column_count,
        }
    }

    pub fn byte_len(&self) -> (r: usize)
        ensures
            r == self.spec_view().byte_len(),
    {
        match self {
            Inline::Text { text, .. } => text.len(),
            Inline::Widget(_) => 0,
        }
    }
}

/// A piece of a wrapped line: a piece of the line, or the point where it wraps.
#[derive(Clone, Copy, Debug)]
pub enum WrappedInline<'a> {
    Inline(Inline<'a>),
    SoftBreak,
}

pub ghost enum WrappedInlineView {
    Inline(InlineView),
    SoftBreak,
}

impl<'a> WrappedInline<'a> {
    pub open spec fn spec_view(&self) -> WrappedInlineView {
        match self {
            WrappedInline::Inline(i) => WrappedInlineView::Inline(i.spec_view()),
            WrappedInline::SoftBreak => WrappedInlineView::SoftBreak,
        }
    }
}

} // verus!
