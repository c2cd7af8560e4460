use vstd::prelude::*;
use crate::inlay::{BlockWidget, InlineInlay};
use crate::line::{Line, SCALE_ONE, sat_mul64};

verus! {

/// A line of decoration text shown between the document's own lines.
#[derive(Clone, Debug, PartialEq)]
pub struct LineInlay {
    text: String,
    inline_inlays: Vec<(usize, InlineInlay)>,
    soft_breaks: Vec<usize>,
    fold_column_index: usize,
    scale: u64,
}

impl LineInlay {
    pub closed spec fn spec_text(&self) -> Seq<char> {
        self.text@
    }

    pub closed spec fn spec_height(&self) -> int {
        sat_mul64(self.scale as int, self.soft_breaks@.len() as int + 1)
    }

    pub fn new(text: String) -> (r: LineInlay)
        ensures
            r.spec_text() == text@,
            r.spec_height() == SCALE_ONE,
            r.wf(),
    {
        LineInlay {
            text,
            inline_inlays: Vec::new(),
            soft_breaks: Vec::new(),
            fold_column_index: 0,
            scale: SCALE_ONE,
        }
    }

    /// The inlay seen as a line, with no inlays of its own.
    pub fn as_line(&self) -> (r: Line<'_>)
        requires
            self.wf(),
        ensures
            r.text@ == vstd::utf8::encode_utf8(self.spec_text()),
            r.spec_height() == self.spec_height(),
            r.wf(),
            forall|tab: usize| r.spec_width(tab) == self.spec_width(tab),
            self.presents(r),
    {
        Line {
            text: self.text.as_str().as_bytes(),
            inline_inlays: self.inline_inlays.as_slice(),
            soft_breaks: self.soft_breaks.as_slice(),
            fold_column_index: self.fold_column_index,
            scale: self.scale,
        }
    }

    fn line_height(&self) -> (r: u64)
        ensures
            r == self.spec_height(),
    {
        Line {
            text: self.text.as_str().as_bytes(),
            inline_inlays: self.inline_inlays.as_slice(),
            soft_breaks: self.soft_breaks.as_slice(),
            fold_column_index: self.fold_column_index,
            scale: self.scale,
        }.height()
    }

    pub closed spec fn wf(&self) -> bool {
        self.inline_inlays@.len() == 0
    }

    pub proof fn lemma_height_bounds(&self)
        ensures
            0 <= self.spec_height() <= u64::MAX,
    {
    }

    /// `l` is this inlay seen as a line.
    pub closed spec fn presents(&self, l: Line) -> bool {
        &&& l.text@ == vstd::utf8::encode_utf8(self.text@)
        &&& l.inline_inlays@ == self.inline_inlays@
        &&& l.soft_breaks@ == self.soft_breaks@
        &&& l.fold_column_index == self.fold_column_index
        &&& l.scale == self.scale
    }

    pub closed spec fn spec_width(&self, tab_column_count: usize) -> int {
        crate::line::line_width_of(
            vstd::utf8::encode_utf8(self.text@),
            self.inline_inlays@,
            self.soft_breaks@,
            self.fold_column_index,
            self.scale,
            tab_column_count,
        )
    }
}

/// A decoration that takes whole rows between lines.
#[derive(Clone, Debug, PartialEq)]
pub enum BlockInlay {
    Line(LineInlay),
    Widget(BlockWidget),
}

impl BlockInlay {
    pub open spec fn spec_width(&self, tab_column_count: usize) -> int {
        match self {
            BlockInlay::Line(l) => l.spec_width(tab_column_count),
            BlockInlay::Widget(w) => w.size.width as int,
        }
    }

    pub open spec fn spec_height(&self) -> int {
        match self {
            BlockInlay::Line(l) => l.spec_height(),
            BlockInlay::Widget(w) => w.size.height as int,
        }
    }

    pub fn height(&self) -> (r: u64)
        ensures
            r == self.spec_height(),
    {
        match self {
            BlockInlay::Line(l) => l.line_height(),
            BlockInlay::Widget(w) => w.size.height,
        }
    }
}

/// A unit of vertical layout: a line (of the document or of an inlay) or a widget.
#[derive(Clone, Copy, Debug)]
pub enum Block<'a> {
    Line { is_inlay: bool, line: Line<'a> },
    Widget(BlockWidget),
}

impl<'a> Block<'a> {
    pub open spec fn spec_height(&self) -> int {
        match self {
            Block::Line { line, .. } => line.spec_height(),
            Block::Widget(w) => w.size.height as int,
        }
    }

    /// The block's width: that of its widest row, or the widget's.
    pub fn width(&self, tab_column_count: usize) -> (r: u64)
        requires
            self.wf(),
        ensures
            r == self.spec_width(tab_column_count),
    {
        match self {
            Block::Line { line, .. } => line.width(tab_column_count),
            Block::Widget(widget) => widget.size.width,
        }
    }

    pub open spec fn wf(&self) -> bool {
        match self {
            Block::Line { line, .. } => line.wf(),
            Block::Widget(_) => true,
        }
    }

    pub open spec fn spec_width(&self, tab_column_count: usize) -> int {
        match self {
            Block::Line { line, .. } => line.spec_width(tab_column_count),
            Block::Widget(w) => w.size.width as int,
        }
    }

    pub fn height(&self) -> (r: u64)
        ensures
            r == self.spec_height(),
    {
        match self {
            Block::Line { line, .. } => line.height(),
            Block::Widget(widget) => widget.size.height,
        }
    }
}

} // verus!
