use vstd::prelude::*;
use crate::columns::{byte_column_count, is_continuation_byte};
use crate::inlay::{Inline, InlineInlay, InlineView, WrappedInline, WrappedInlineView, string_bytes};

verus! {

/// The scale of a line that is fully open; scales are in millionths.
pub const SCALE_ONE: u64 = 1_000_000;

/// Multiplication that stops at `u64::MAX` instead of overflowing.
pub open spec fn sat_mul64(a: int, b: int) -> int {
    if a * b > u64::MAX { u64::MAX as int } else { a * b }
}

pub open spec fn sat_add64(a: int, b: int) -> int {
    if a + b > u64::MAX { u64::MAX as int } else { a + b }
}

pub fn saturating_mul64(a: u64, b: u64) -> (r: u64)
    ensures
        r == sat_mul64(a as int, b as int),
{
    match a.checked_mul(b) {
        Some(r) => r,
        None => u64::MAX,
    }
}

/// Inline inlays are ordered: their offsets strictly increase.
pub open spec fn inlays_wf(inlays: Seq<(usize, InlineInlay)>) -> bool {
    forall|i: int, j: int| 0 <= i < j < inlays.len() ==> inlays[i].0 < inlays[j].0
}

/// The pieces produced by splicing the first `k` inlays into `text`, the byte offset
/// in `text` reached so far, and whether the text ran out before an inlay's offset
/// (later inlays are then not shown).
pub open spec fn inlines_prefix(text: Seq<u8>, inlays: Seq<(usize, InlineInlay)>, k: int) -> (
    Seq<InlineView>,
    int,
    bool,
)
    decreases k,
{
    if k <= 0 {
        (Seq::empty(), 0, false)
    } else {
        let (out, pos, stopped) = inlines_prefix(text, inlays, k - 1);
        let o = inlays[k - 1].0 as int;
        if stopped {
            (out, pos, stopped)
        } else if o <= text.len() {
            let out2 = if o > pos {
                out.push(InlineView::Text { is_inlay: false, text: text.subrange(pos, o) })
            } else {
                out
            };
            (out2.push(inlays[k - 1].1.spec_view()), if o > pos { o } else { pos }, false)
        } else {
            let out2 = if pos < text.len() {
                out.push(InlineView::Text { is_inlay: false, text: text.subrange(pos, text.len() as int) })
            } else {
                out
            };
            (out2, text.len() as int, true)
        }
    }
}

/// The line's text with its inline inlays spliced in, in order of offset.
pub open spec fn inlines_of(text: Seq<u8>, inlays: Seq<(usize, InlineInlay)>) -> Seq<InlineView> {
    let (out, pos, stopped) = inlines_prefix(text, inlays, inlays.len() as int);
    if !stopped && pos < text.len() {
        out.push(InlineView::Text { is_inlay: false, text: text.subrange(pos, text.len() as int) })
    } else {
        out
    }
}

/// The offset in inlay coordinates of byte `b` of the text: `b` plus the length of
/// every text inlay placed at or before it, among the first `k` inlays.
pub open spec fn inlay_byte_index_prefix(inlays: Seq<(usize, InlineInlay)>, b: int, k: int) -> int
    decreases k,
{
    if k <= 0 {
        b
    } else {
        let prev = inlay_byte_index_prefix(inlays, b, k - 1);
        if inlays[k - 1].0 > b {
            prev
        } else {
            match inlays[k - 1].1 {
                InlineInlay::Text(s) => prev + string_bytes(&s).len(),
                InlineInlay::Widget(_) => prev,
            }
        }
    }
}


/// The bytes of piece `k` of `inls` not yet walked, when it is text.
pub open spec fn remaining_bytes(inls: Seq<InlineView>, k: int, offset: int) -> int {
    if 0 <= k < inls.len() {
        match inls[k] {
            InlineView::Text { text, .. } => if offset <= text.len() { text.len() - offset } else { 0 },
            InlineView::Widget { .. } => 0,
        }
    } else {
        0
    }
}

/// The pieces of a line with its soft breaks put in, from piece `k` (of which
/// `offset` bytes are walked) and soft break `b` on, at offset `byte_index` in inlay
/// coordinates. A soft break is put in once the walk reaches its offset; a text
/// piece is cut at the next soft break.
pub open spec fn wrapped_from(
    inls: Seq<InlineView>,
    sb: Seq<usize>,
    k: int,
    offset: int,
    b: int,
    byte_index: int,
) -> Seq<WrappedInlineView>
    decreases inls.len() - k, remaining_bytes(inls, k, offset), sb.len() - b,
{
    if 0 <= b < sb.len() && sb[b] <= byte_index {
        seq![WrappedInlineView::SoftBreak] + wrapped_from(inls, sb, k, offset, b + 1, byte_index)
    } else if k < 0 || k >= inls.len() {
        Seq::empty()
    } else {
        match inls[k] {
            InlineView::Text { is_inlay, text } => {
                if offset < 0 || offset > text.len() {
                    Seq::empty()
                } else {
                    let rest = text.len() - offset;
                    let count = if 0 <= b < sb.len() && sb[b] - byte_index < rest {
                        sb[b] - byte_index
                    } else {
                        rest
                    };
                    if count < rest {
                        seq![WrappedInlineView::Inline(InlineView::Text { is_inlay, text: text.subrange(offset, offset + count) })]
                            + wrapped_from(inls, sb, k, offset + count, b, byte_index + count)
                    } else {
                        seq![WrappedInlineView::Inline(InlineView::Text { is_inlay, text: text.subrange(offset, text.len() as int) })]
                            + wrapped_from(inls, sb, k + 1, 0, b, crate::columns::sat_add(byte_index, rest))
                    }
                }
            },
            InlineView::Widget { id, column_count } => {
                seq![WrappedInlineView::Inline(InlineView::Widget { id, column_count })]
                    + wrapped_from(inls, sb, k + 1, 0, b, byte_index)
            },
        }
    }
}

/// The widest row of a wrapped line among the first `k` pieces, and the columns of
/// the row being walked.
pub open spec fn widest_prefix(w: Seq<WrappedInlineView>, tab_column_count: usize, k: int) -> (int, int)
    decreases k,
{
    if k <= 0 {
        (0, 0)
    } else {
        let (widest, current) = widest_prefix(w, tab_column_count, k - 1);
        match w[k - 1] {
            WrappedInlineView::Inline(i) => (widest, crate::columns::sat_add(current, i.columns(tab_column_count))),
            WrappedInlineView::SoftBreak => (if current > widest { current } else { widest }, 0),
        }
    }
}

/// The columns of the widest row of a wrapped line.
pub open spec fn widest_row(w: Seq<WrappedInlineView>, tab_column_count: usize) -> int {
    let (widest, current) = widest_prefix(w, tab_column_count, w.len() as int);
    if current > widest { current } else { widest }
}


/// A walk over a wrapped line: the row and column reached, the offset reached in the
/// line's own text, and the answer once it is known.
pub ghost struct RowWalk {
    pub row: int,
    pub column: int,
    pub byte: int,
    pub found: Option<(int, int)>,
}

/// One byte of the line's own text walked while looking for byte `target`: the
/// answer is the row and column where the character starting at `target` begins.
pub open spec fn row_column_byte_step(st: RowWalk, b: u8, target: int, tab_column_count: usize) -> RowWalk {
    if st.found.is_some() {
        st
    } else if !is_continuation_byte(b) && st.byte == target {
        RowWalk { found: Some((st.row, st.column)), ..st }
    } else {
        RowWalk {
            byte: crate::columns::sat_add(st.byte, 1),
            column: crate::columns::sat_add(st.column, byte_column_count(b, tab_column_count)),
            ..st
        }
    }
}

pub open spec fn row_column_text(st: RowWalk, t: Seq<u8>, target: int, tab_column_count: usize, k: int) -> RowWalk
    decreases k,
{
    if k <= 0 {
        st
    } else {
        row_column_byte_step(row_column_text(st, t, target, tab_column_count, k - 1), t[k - 1], target, tab_column_count)
    }
}

pub open spec fn row_column_piece(st: RowWalk, w: WrappedInlineView, target: int, tab_column_count: usize) -> RowWalk {
    if st.found.is_some() {
        st
    } else {
        match w {
            WrappedInlineView::SoftBreak => RowWalk { row: crate::columns::sat_add(st.row, 1), column: 0, ..st },
            WrappedInlineView::Inline(i) => match i {
                InlineView::Text { is_inlay, text } => if !is_inlay {
                    row_column_text(st, text, target, tab_column_count, text.len() as int)
                } else {
                    RowWalk { column: crate::columns::sat_add(st.column, i.columns(tab_column_count)), ..st }
                },
                InlineView::Widget { .. } =>
                    RowWalk { column: crate::columns::sat_add(st.column, i.columns(tab_column_count)), ..st },
            },
        }
    }
}

pub open spec fn row_column_prefix(ws: Seq<WrappedInlineView>, target: int, tab_column_count: usize, k: int) -> RowWalk
    decreases k,
{
    if k <= 0 {
        RowWalk { row: 0, column: 0, byte: 0, found: None }
    } else {
        row_column_piece(row_column_prefix(ws, target, tab_column_count, k - 1), ws[k - 1], target, tab_column_count)
    }
}

/// The row and column, in a wrapped line, of the character of the line's own text
/// that starts at byte `target`; where no character starts there, the end of the
/// line.
pub open spec fn row_column_of(ws: Seq<WrappedInlineView>, target: int, tab_column_count: usize) -> (int, int) {
    let st = row_column_prefix(ws, target, tab_column_count, ws.len() as int);
    match st.found {
        Some(rc) => rc,
        None => (st.row, st.column),
    }
}

/// A walk over a wrapped line looking for a row and column: the row and column
/// reached, the offset reached in the line's own text, and the answer once known.
pub ghost struct ByteWalk {
    pub row: int,
    pub column: int,
    pub byte: int,
    pub found: Option<int>,
}

pub open spec fn byte_walk_step(st: ByteWalk, b: u8, row: int, column: int, tab_column_count: usize) -> ByteWalk {
    if st.found.is_some() {
        st
    } else if is_continuation_byte(b) {
        ByteWalk { byte: crate::columns::sat_add(st.byte, 1), ..st }
    } else {
        let next = crate::columns::sat_add(st.column, byte_column_count(b, tab_column_count));
        if st.row == row && next > column {
            ByteWalk { found: Some(st.byte), ..st }
        } else {
            ByteWalk { byte: crate::columns::sat_add(st.byte, 1), column: next, ..st }
        }
    }
}

pub open spec fn byte_walk_text(st: ByteWalk, t: Seq<u8>, row: int, column: int, tab_column_count: usize, k: int) -> ByteWalk
    decreases k,
{
    if k <= 0 {
        st
    } else {
        byte_walk_step(byte_walk_text(st, t, row, column, tab_column_count, k - 1), t[k - 1], row, column, tab_column_count)
    }
}

/// One piece of a wrapped line walked; at a soft break that ends the row sought, the
/// answer is the start of the last character before it.
pub open spec fn byte_walk_piece(
    st: ByteWalk,
    w: WrappedInlineView,
    line: Seq<u8>,
    row: int,
    column: int,
    tab_column_count: usize,
) -> ByteWalk {
    if st.found.is_some() {
        st
    } else {
        match w {
            WrappedInlineView::SoftBreak => if st.row == row {
                ByteWalk {
                    found: Some(if 0 < st.byte <= line.len() { crate::edit::prev_char_start(line, st.byte - 1) } else { 0 }),
                    ..st
                }
            } else {
                ByteWalk { row: crate::columns::sat_add(st.row, 1), column: 0, ..st }
            },
            WrappedInlineView::Inline(i) => if i matches InlineView::Text { is_inlay: false, .. } {
                byte_walk_text(st, i->text, row, column, tab_column_count, i->text.len() as int)
            } else if st.row == row && st.column > column {
                ByteWalk { found: Some(st.byte), ..st }
            } else {
                ByteWalk { column: crate::columns::sat_add(st.column, i.columns(tab_column_count)), ..st }
            },
        }
    }
}

pub open spec fn byte_walk_prefix(
    ws: Seq<WrappedInlineView>,
    line: Seq<u8>,
    row: int,
    column: int,
    tab_column_count: usize,
    k: int,
) -> ByteWalk
    decreases k,
{
    if k <= 0 {
        ByteWalk { row: 0, column: 0, byte: 0, found: None }
    } else {
        byte_walk_piece(byte_walk_prefix(ws, line, row, column, tab_column_count, k - 1), ws[k - 1], line, row, column, tab_column_count)
    }
}

/// The byte of the line's own text at (or, when the row is shorter, nearest before)
/// the given row and column of a wrapped line.
pub open spec fn byte_at_row_column(
    ws: Seq<WrappedInlineView>,
    line: Seq<u8>,
    row: int,
    column: int,
    tab_column_count: usize,
) -> int {
    let st = byte_walk_prefix(ws, line, row, column, tab_column_count, ws.len() as int);
    match st.found {
        Some(b) => b,
        None => st.byte,
    }
}

/// The width, in millionths of a column, of a line with these parts: where its widest
/// row ends.
pub open spec fn line_width_of(
    text: Seq<u8>,
    inlays: Seq<(usize, InlineInlay)>,
    soft_breaks: Seq<usize>,
    fold_column_index: usize,
    scale: u64,
    tab_column_count: usize,
) -> int {
    let c = widest_row(wrapped_from(inlines_of(text, inlays), soft_breaks, 0, 0, 0, 0), tab_column_count);
    let before = if c < fold_column_index { c } else { fold_column_index as int };
    sat_add64(sat_mul64(before, SCALE_ONE as int), sat_mul64(scale as int, c - before))
}

/// A line as presented: its text, inlays, soft breaks, fold column and scale.
#[derive(Clone, Copy, Debug)]
pub struct Line<'a> {
    pub text: &'a [u8],
    pub inline_inlays: &'a [(usize, InlineInlay)],
    pub soft_breaks: &'a [usize],
    pub fold_column_index: usize,
    pub scale: u64,
}

impl<'a> Line<'a> {
    pub open spec fn wf(&self) -> bool {
        inlays_wf(self.inline_inlays@)
    }

    pub open spec fn spec_height(&self) -> int {
        sat_mul64(self.scale as int, self.soft_breaks@.len() as int + 1)
    }

    pub open spec fn spec_inlay_byte_index(&self, b: int) -> int {
        inlay_byte_index_prefix(self.inline_inlays@, b, self.inline_inlays@.len() as int)
    }

    pub fn text(&self) -> (r: &'a [u8])
        ensures
            r@ == self.text@,
    {
        self.text
    }

    pub fn fold_column_index(&self) -> (r: usize)
        ensures
            r == self.fold_column_index,
    {
        self.fold_column_index
    }

    pub fn scale(&self) -> (r: u64)
        ensures
            r == self.scale,
    {
        self.scale
    }

    /// The line's text with its inline inlays spliced in.
    pub fn inline_list(&self) -> (r: Vec<Inline<'a>>)
        requires
            self.wf(),
        ensures
            r@.map_values(|i: Inline<'a>| i.spec_view()) == inlines_of(
                self.text@,
                self.inline_inlays@,
            ),
    {
        let mut out: Vec<Inline<'a>> = Vec::new();
        let mut pos: usize = 0;
        let mut stopped = false;
        let mut k: usize = 0;
        let n = self.inline_inlays.len();
        let len = self.text.len();
        while k < n
            invariant
                self.wf(),
                n == self.inline_inlays@.len(),
                len == self.text@.len(),
                k <= n,
                pos <= len,
                (out@.map_values(|i: Inline<'a>| i.spec_view()), pos as int, stopped) == inlines_prefix(
                    self.text@,
                    self.inline_inlays@,
                    k as int,
                ),
            decreases n - k,
        {
            let o = self.inline_inlays[k].0;
            if !stopped {
                if o <= len {
                    if o > pos {
                        let piece = slice_range(self.text, pos, o);
                        out.push(Inline::Text { is_inlay: false, text: piece });
                        pos = o;
                    }
                    let item = match &self.inline_inlays[k].1 {
                        InlineInlay::Text(s) => Inline::Text { is_inlay: true, text: s.as_str().as_bytes() },
                        InlineInlay::Widget(w) => Inline::Widget(*w),
                    };
                    out.push(item);
                } else {
                    if pos < len {
                        let piece = slice_range(self.text, pos, len);
                        out.push(Inline::Text { is_inlay: false, text: piece });
                    }
                    pos = len;
                    stopped = true;
                }
            }
            proof {
                assert(out@.map_values(|i: Inline<'a>| i.spec_view()) =~= inlines_prefix(
                    self.text@,
                    self.inline_inlays@,
                    k + 1,
                ).0);
            }
            k += 1;
        }
        if !stopped && pos < len {
            let piece = slice_range(self.text, pos, len);
            out.push(Inline::Text { is_inlay: false, text: piece });
        }
        proof {
            assert(out@.map_values(|i: Inline<'a>| i.spec_view()) =~= inlines_of(
                self.text@,
                self.inline_inlays@,
            ));
        }
        out
    }

    /// The line's pieces with its soft breaks put in.
    pub open spec fn spec_wrapped_inlines(&self) -> Seq<WrappedInlineView> {
        wrapped_from(inlines_of(self.text@, self.inline_inlays@), self.soft_breaks@, 0, 0, 0, 0)
    }

    /// The line's pieces with its soft breaks put in.
    pub fn wrapped_inline_list(&self) -> (r: Vec<WrappedInline<'a>>)
        requires
            self.wf(),
        ensures
            r@.map_values(|w: WrappedInline<'a>| w.spec_view()) == self.spec_wrapped_inlines(),
    {
        let inlines = self.inline_list();
        let ghost inls = inlines_of(self.text@, self.inline_inlays@);
        let ghost sb = self.soft_breaks@;
        let mut out: Vec<WrappedInline<'a>> = Vec::new();
        let mut k: usize = 0;
        let mut offset: usize = 0;
        let mut b: usize = 0;
        let mut byte_index: usize = 0;
        let n = inlines.len();
        let nb = self.soft_breaks.len();
        loop
            invariant
                n == inlines@.len(),
                nb == sb.len(),
                sb == self.soft_breaks@,
                inlines@.map_values(|i: Inline<'a>| i.spec_view()) == inls,
                k <= n,
                b <= nb,
                k < n ==> offset <= inls[k as int].byte_len(),
                out@.map_values(|w: WrappedInline<'a>| w.spec_view()) + wrapped_from(inls, sb, k as int, offset as int, b as int, byte_index as int)
                    == wrapped_from(inls, sb, 0, 0, 0, 0),
            ensures
                out@.map_values(|w: WrappedInline<'a>| w.spec_view()) == wrapped_from(inls, sb, 0, 0, 0, 0),
            decreases n - k, remaining_bytes(inls, k as int, offset as int), nb - b,
        {
            let ghost before = out@.map_values(|w: WrappedInline<'a>| w.spec_view());
            if b < nb && self.soft_breaks[b] <= byte_index {
                out.push(WrappedInline::SoftBreak);
                b += 1;
                proof {
                    assert(out@.map_values(|w: WrappedInline<'a>| w.spec_view()) =~= before.push(WrappedInlineView::SoftBreak));
                }
            } else if k >= n {
                proof {
                    assert(wrapped_from(inls, sb, k as int, offset as int, b as int, byte_index as int) == Seq::<WrappedInlineView>::empty());
                    assert(out@.map_values(|w: WrappedInline<'a>| w.spec_view()) + Seq::<WrappedInlineView>::empty() =~= out@.map_values(|w: WrappedInline<'a>| w.spec_view()));
                }
                break;
            } else {
                proof {
                    assert(inls[k as int] == inlines@[k as int].spec_view());
                }
                match inlines[k] {
                    Inline::Text { is_inlay, text } => {
                        let rest = text.len() - offset;
                        let count = if b < nb && self.soft_breaks[b] - byte_index < rest {
                            self.soft_breaks[b] - byte_index
                        } else {
                            rest
                        };
                        if count < rest {
                            let piece = slice_range(text, offset, offset + count);
                            out.push(WrappedInline::Inline(Inline::Text { is_inlay, text: piece }));
                            offset = offset + count;
                            byte_index = byte_index + count;
                        } else {
                            let piece = slice_range(text, offset, text.len());
                            out.push(WrappedInline::Inline(Inline::Text { is_inlay, text: piece }));
                            k += 1;
                            offset = 0;
                            byte_index = byte_index.saturating_add(rest);
                        }
                    },
                    Inline::Widget(w) => {
                        out.push(WrappedInline::Inline(Inline::Widget(w)));
                        k += 1;
                        offset = 0;
                    },
                }
                proof {
                    let last = out@.last().spec_view();
                    assert(out@.map_values(|w: WrappedInline<'a>| w.spec_view()) =~= before.push(last));
                }
            }
        }
        out
    }

    /// The columns of the line's widest row.
    pub fn column_count(&self, tab_column_count: usize) -> (r: usize)
        requires
            self.wf(),
        ensures
            r == widest_row(self.spec_wrapped_inlines(), tab_column_count),
    {
        let w = self.wrapped_inline_list();
        let ghost wv = self.spec_wrapped_inlines();
        let mut widest: usize = 0;
        let mut current: usize = 0;
        let mut k: usize = 0;
        while k < w.len()
            invariant
                k <= w@.len(),
                w@.map_values(|x: WrappedInline<'a>| x.spec_view()) == wv,
                (widest as int, current as int) == widest_prefix(wv, tab_column_count, k as int),
            decreases w@.len() - k,
        {
            proof {
                assert(wv[k as int] == w@[k as int].spec_view());
            }
            match &w[k] {
                WrappedInline::Inline(i) => {
                    current = current.saturating_add(i.column_count(tab_column_count));
                },
                WrappedInline::SoftBreak => {
                    if current > widest {
                        widest = current;
                    }
                    current = 0;
                },
            }
            k += 1;
        }
        if current > widest { current } else { widest }
    }

    pub open spec fn spec_width(&self, tab_column_count: usize) -> int {
        line_width_of(self.text@, self.inline_inlays@, self.soft_breaks@, self.fold_column_index, self.scale, tab_column_count)
    }

    /// The line's width in millionths of a column: where its widest row ends.
    pub fn width(&self, tab_column_count: usize) -> (r: u64)
        requires
            self.wf(),
        ensures
            r == self.spec_x(widest_row(self.spec_wrapped_inlines(), tab_column_count)),
            r == self.spec_width(tab_column_count),
    {
        self.column_index_to_x(self.column_count(tab_column_count))
    }

    /// Where column `c` lies, in millionths of a column.
    pub open spec fn spec_x(&self, c: int) -> int {
        let before = if c < self.fold_column_index { c } else { self.fold_column_index as int };
        sat_add64(sat_mul64(before, SCALE_ONE as int), sat_mul64(self.scale as int, c - before))
    }

    /// The row and column of the character of the line's own text that starts at
    /// `byte_index`.
    pub fn byte_index_to_row_column_index(&self, byte_index: usize, tab_column_count: usize) -> (r: (usize, usize))
        requires
            self.wf(),
        ensures
            (r.0 as int, r.1 as int) == row_column_of(self.spec_wrapped_inlines(), byte_index as int, tab_column_count),
    {
        let w = self.wrapped_inline_list();
        let ghost ws = self.spec_wrapped_inlines();
        let mut row: usize = 0;
        let mut column: usize = 0;
        let mut byte: usize = 0;
        let mut k: usize = 0;
        while k < w.len()
            invariant
                k <= w@.len(),
                w@.map_values(|x: WrappedInline<'a>| x.spec_view()) == ws,
                ws.len() == w@.len(),
                ws == self.spec_wrapped_inlines(),
                row_column_prefix(ws, byte_index as int, tab_column_count, k as int)
                    == (RowWalk { row: row as int, column: column as int, byte: byte as int, found: None }),
            decreases w@.len() - k,
        {
            let ghost st = RowWalk { row: row as int, column: column as int, byte: byte as int, found: None };
            proof {
                assert(ws[k as int] == w@[k as int].spec_view());
            }
            match &w[k] {
                WrappedInline::Inline(Inline::Text { is_inlay: false, text }) => {
                    let mut j: usize = 0;
                    while j < text.len()
                        invariant
                            j <= text@.len(),
                            k < w@.len(),
                            ws.len() == w@.len(),
                            ws == self.spec_wrapped_inlines(),
                            ws[k as int] == WrappedInlineView::Inline(InlineView::Text { is_inlay: false, text: text@ }),
                            row_column_prefix(ws, byte_index as int, tab_column_count, k as int) == st,
                            st.found.is_none(),
                            row_column_text(st, text@, byte_index as int, tab_column_count, j as int)
                                == (RowWalk { row: row as int, column: column as int, byte: byte as int, found: None }),
                        decreases text@.len() - j,
                    {
                        let b = text[j];
                        if !(0x80 <= b && b < 0xC0) && byte == byte_index {
                            proof {
                                assert(row_column_text(st, text@, byte_index as int, tab_column_count, j as int + 1).found
                                    == Some((row as int, column as int)));
                                lemma_row_column_found(st, text@, byte_index as int, tab_column_count, j as int + 1, text@.len() as int);
                                assert(row_column_prefix(ws, byte_index as int, tab_column_count, k as int + 1)
                                    == row_column_piece(st, ws[k as int], byte_index as int, tab_column_count));
                                let wk = WrappedInlineView::Inline(InlineView::Text { is_inlay: false, text: text@ });
                                assert(ws[k as int] == wk);
                                assert(row_column_piece(st, wk, byte_index as int, tab_column_count)
                                    == row_column_text(st, text@, byte_index as int, tab_column_count, text@.len() as int));
                                assert(row_column_prefix(ws, byte_index as int, tab_column_count, k as int + 1).found
                                    == Some((row as int, column as int)));
                                lemma_row_column_prefix_found(ws, byte_index as int, tab_column_count, k as int + 1, ws.len() as int);
                            }
                            return (row, column);
                        }
                        byte = byte.saturating_add(1);
                        column = column.saturating_add(if b == 9 { tab_column_count } else if 0x80 <= b && b < 0xC0 { 0 } else { 1 });
                        j += 1;
                    }
                },
                WrappedInline::Inline(i) => {
                    column = column.saturating_add(i.column_count(tab_column_count));
                },
                WrappedInline::SoftBreak => {
                    row = row.saturating_add(1);
                    column = 0;
                },
            }
            k += 1;
        }
        (row, column)
    }

    /// The byte of the line's own text at row `row_index` and column `column_index`:
    /// the start of the character that covers that column, or, past the end of the
    /// row, the start of its last character.
    pub fn row_column_index_to_byte_index(&self, row_index: usize, column_index: usize, tab_column_count: usize) -> (r: usize)
        requires
            self.wf(),
        ensures
            r == byte_at_row_column(self.spec_wrapped_inlines(), self.text@, row_index as int, column_index as int, tab_column_count),
    {
        let w = self.wrapped_inline_list();
        let ghost ws = self.spec_wrapped_inlines();
        let ghost line = self.text@;
        let ghost row = row_index as int;
        let ghost col = column_index as int;
        let mut cur_row: usize = 0;
        let mut cur_col: usize = 0;
        let mut byte: usize = 0;
        let mut k: usize = 0;
        while k < w.len()
            invariant
                k <= w@.len(),
                w@.map_values(|x: WrappedInline<'a>| x.spec_view()) == ws,
                ws.len() == w@.len(),
                ws == self.spec_wrapped_inlines(),
                line == self.text@,
                row == row_index,
                col == column_index,
                byte_walk_prefix(ws, line, row, col, tab_column_count, k as int)
                    == (ByteWalk { row: cur_row as int, column: cur_col as int, byte: byte as int, found: None }),
            decreases w@.len() - k,
        {
            let ghost st = ByteWalk { row: cur_row as int, column: cur_col as int, byte: byte as int, found: None };
            proof {
                assert(ws[k as int] == w@[k as int].spec_view());
                assert(byte_walk_prefix(ws, line, row, col, tab_column_count, k as int + 1)
                    == byte_walk_piece(st, ws[k as int], line, row, col, tab_column_count));
            }
            match &w[k] {
                WrappedInline::Inline(Inline::Text { is_inlay: false, text }) => {
                    let mut j: usize = 0;
                    while j < text.len()
                        invariant
                            j <= text@.len(),
                            k < w@.len(),
                            ws.len() == w@.len(),
                            ws == self.spec_wrapped_inlines(),
                            line == self.text@,
                            row == row_index,
                            col == column_index,
                            st.found.is_none(),
                            byte_walk_prefix(ws, line, row, col, tab_column_count, k as int + 1)
                                == byte_walk_text(st, text@, row, col, tab_column_count, text@.len() as int),
                            byte_walk_text(st, text@, row, col, tab_column_count, j as int)
                                == (ByteWalk { row: cur_row as int, column: cur_col as int, byte: byte as int, found: None }),
                        decreases text@.len() - j,
                    {
                        let b = text[j];
                        if 0x80 <= b && b < 0xC0 {
                            byte = byte.saturating_add(1);
                        } else {
                            let next = cur_col.saturating_add(if b == 9 { tab_column_count } else { 1 });
                            if cur_row == row_index && next > column_index {
                                proof {
                                    lemma_byte_walk_text_found(st, text@, row, col, tab_column_count, j as int + 1, text@.len() as int);
                                    lemma_byte_walk_prefix_found(ws, line, row, col, tab_column_count, k as int + 1, ws.len() as int);
                                }
                                return byte;
                            }
                            byte = byte.saturating_add(1);
                            cur_col = next;
                        }
                        j += 1;
                    }
                },
                WrappedInline::Inline(i) => {
                    if cur_row == row_index && cur_col > column_index {
                        proof {
                            lemma_byte_walk_prefix_found(ws, line, row, col, tab_column_count, k as int + 1, ws.len() as int);
                        }
                        return byte;
                    }
                    cur_col = cur_col.saturating_add(i.column_count(tab_column_count));
                },
                WrappedInline::SoftBreak => {
                    if cur_row == row_index {
                        let r = if 0 < byte && byte <= self.text.len() {
                            crate::edit::prev_char_start_exec(self.text, byte)
                        } else {
                            0
                        };
                        proof {
                            lemma_byte_walk_prefix_found(ws, line, row, col, tab_column_count, k as int + 1, ws.len() as int);
                        }
                        return r;
                    }
                    cur_row = cur_row.saturating_add(1);
                    cur_col = 0;
                },
            }
            k += 1;
        }
        byte
    }

    /// The line's text with its inline inlays spliced in, one piece at a time.
    pub fn inlines(&self) -> (r: Inlines<'a>)
        requires
            self.wf(),
        ensures
            r.remaining().map_values(|i: Inline<'a>| i.spec_view()) == inlines_of(self.text@, self.inline_inlays@),
    {
        Inlines::from_vec(self.inline_list())
    }

    /// The line's pieces with its soft breaks put in, one at a time.
    pub fn wrapped_inlines(&self) -> (r: WrappedInlines<'a>)
        requires
            self.wf(),
        ensures
            r.remaining().map_values(|w: WrappedInline<'a>| w.spec_view()) == self.spec_wrapped_inlines(),
    {
        WrappedInlines::from_vec(self.wrapped_inline_list())
    }

    pub fn row_count(&self) -> (r: usize)
        requires
            self.soft_breaks@.len() < usize::MAX,
        ensures
            r == self.soft_breaks@.len() + 1,
    {
        self.soft_breaks.len() + 1
    }

    /// The height of the line: its scale times its number of rows.
    pub fn height(&self) -> (r: u64)
        ensures
            r == self.spec_height(),
    {
        let rows = self.soft_breaks.len() as u64;
        if rows == u64::MAX {
            if self.scale == 0 { 0 } else { u64::MAX }
        } else {
            saturating_mul64(self.scale, rows + 1)
        }
    }

    /// The offset in inlay coordinates of byte `byte_index` of the line's text.
    pub fn byte_index_to_inlay_byte_index(&self, byte_index: usize) -> (r: usize)
        requires
            self.spec_inlay_byte_index(byte_index as int) <= usize::MAX,
        ensures
            r == self.spec_inlay_byte_index(byte_index as int),
    {
        let mut r: usize = byte_index;
        let mut k: usize = 0;
        let n = self.inline_inlays.len();
        while k < n
            invariant
                n == self.inline_inlays@.len(),
                k <= n,
                r == inlay_byte_index_prefix(self.inline_inlays@, byte_index as int, k as int),
                self.spec_inlay_byte_index(byte_index as int) <= usize::MAX,
            decreases n - k,
        {
            proof {
                lemma_inlay_byte_index_grows(self.inline_inlays@, byte_index as int, k as int + 1, n as int);
            }
            if self.inline_inlays[k].0 <= byte_index {
                match &self.inline_inlays[k].1 {
                    InlineInlay::Text(s) => {
                        r = r + s.as_str().len();
                    }
                    InlineInlay::Widget(_) => {}
                }
            }
            k += 1;
        }
        r
    }

    /// The byte lies before the line's first soft break.
    pub fn is_at_first_row(&self, byte_index: usize) -> (r: bool)
        requires
            self.spec_inlay_byte_index(byte_index as int) <= usize::MAX,
        ensures
            r == (self.soft_breaks@.len() == 0 || self.spec_inlay_byte_index(byte_index as int)
                < self.soft_breaks@[0]),
    {
        if self.soft_breaks.len() == 0 {
            true
        } else {
            self.byte_index_to_inlay_byte_index(byte_index) < self.soft_breaks[0]
        }
    }

    /// The byte lies at or after the line's last soft break.
    pub fn is_at_last_row(&self, byte_index: usize) -> (r: bool)
        requires
            self.spec_inlay_byte_index(byte_index as int) <= usize::MAX,
        ensures
            r == (self.soft_breaks@.len() == 0 || self.soft_breaks@.last()
                <= self.spec_inlay_byte_index(byte_index as int)),
    {
        if self.soft_breaks.len() == 0 {
            true
        } else {
            self.soft_breaks[self.soft_breaks.len() - 1] <= self.byte_index_to_inlay_byte_index(
                byte_index,
            )
        }
    }

    /// The horizontal position, in millionths of a column, of column `column_index`:
    /// columns before the fold column count fully, later ones by the line's scale.
    pub fn column_index_to_x(&self, column_index: usize) -> (r: u64)
        ensures
            r == sat_add64(
                sat_mul64(
                    if column_index < self.fold_column_index { column_index as int } else { self.fold_column_index as int },
                    SCALE_ONE as int,
                ),
                sat_mul64(
                    self.scale as int,
                    column_index - (if column_index < self.fold_column_index { column_index as int } else { self.fold_column_index as int }),
                ),
            ),
    {
        let before = if column_index < self.fold_column_index {
            column_index
        } else {
            self.fold_column_index
        };
        let after = column_index - before;
        let a = saturating_mul64(before as u64, SCALE_ONE);
        let b = saturating_mul64(self.scale, after as u64);
        a.saturating_add(b)
    }
}

/// Each step adds a non-negative amount.
pub proof fn lemma_inlay_byte_index_grows(inlays: Seq<(usize, InlineInlay)>, b: int, k: int, n: int)
    requires
        0 <= k <= n,
    ensures
        inlay_byte_index_prefix(inlays, b, k) <= inlay_byte_index_prefix(inlays, b, n),
    decreases n - k,
{
    if k < n {
        lemma_inlay_byte_index_grows(inlays, b, k + 1, n);
    }
}

/// The bytes `s[start..end]`.
pub fn slice_range(s: &[u8], start: usize, end: usize) -> (r: &[u8])
    requires
        start <= end <= s@.len(),
    ensures
        r@ == s@.subrange(start as int, end as int),
{
    let (head, _) = s.split_at(end);
    let (_, tail) = head.split_at(start);
    tail
}


/// Once the answer is known, walking more bytes keeps it.
pub proof fn lemma_row_column_found(st: RowWalk, t: Seq<u8>, target: int, tab_column_count: usize, k: int, n: int)
    requires
        0 <= k <= n,
        row_column_text(st, t, target, tab_column_count, k).found.is_some(),
    ensures
        row_column_text(st, t, target, tab_column_count, n) == row_column_text(st, t, target, tab_column_count, k),
    decreases n - k,
{
    if k < n {
        lemma_row_column_found(st, t, target, tab_column_count, k, n - 1);
    }
}

/// Once the answer is known, walking more pieces keeps it.
pub proof fn lemma_row_column_prefix_found(ws: Seq<WrappedInlineView>, target: int, tab_column_count: usize, k: int, n: int)
    requires
        0 <= k <= n,
        row_column_prefix(ws, target, tab_column_count, k).found.is_some(),
    ensures
        row_column_prefix(ws, target, tab_column_count, n) == row_column_prefix(ws, target, tab_column_count, k),
    decreases n - k,
{
    if k < n {
        lemma_row_column_prefix_found(ws, target, tab_column_count, k, n - 1);
    }
}


/// Once the byte is found, walking more bytes keeps it.
pub proof fn lemma_byte_walk_text_found(st: ByteWalk, t: Seq<u8>, row: int, column: int, tab_column_count: usize, k: int, n: int)
    requires
        0 <= k <= n,
        byte_walk_text(st, t, row, column, tab_column_count, k).found.is_some(),
    ensures
        byte_walk_text(st, t, row, column, tab_column_count, n) == byte_walk_text(st, t, row, column, tab_column_count, k),
    decreases n - k,
{
    if k < n {
        lemma_byte_walk_text_found(st, t, row, column, tab_column_count, k, n - 1);
    }
}

/// Once the byte is found, walking more pieces keeps it.
pub proof fn lemma_byte_walk_prefix_found(
    ws: Seq<WrappedInlineView>,
    line: Seq<u8>,
    row: int,
    column: int,
    tab_column_count: usize,
    k: int,
    n: int,
)
    requires
        0 <= k <= n,
        byte_walk_prefix(ws, line, row, column, tab_column_count, k).found.is_some(),
    ensures
        byte_walk_prefix(ws, line, row, column, tab_column_count, n) == byte_walk_prefix(ws, line, row, column, tab_column_count, k),
    decreases n - k,
{
    if k < n {
        lemma_byte_walk_prefix_found(ws, line, row, column, tab_column_count, k, n - 1);
    }
}


/// The pieces of a line, handed out one at a time.
#[derive(Debug)]
pub struct Inlines<'a> {
    items: Vec<Inline<'a>>,
    index: usize,
}

impl<'a> Inlines<'a> {
    /// What is left to hand out.
    pub closed spec fn remaining(&self) -> Seq<Inline<'a>> {
        if self.index <= self.items@.len() {
            self.items@.subrange(self.index as int, self.items@.len() as int)
        } else {
            Seq::empty()
        }
    }

    pub fn from_vec(items: Vec<Inline<'a>>) -> (r: Inlines<'a>)
        ensures
            r.remaining() == items@,
    {
        let r = Inlines { items, index: 0 };
        proof {
            assert(r.remaining() =~= r.items@);
        }
        r
    }

    /// The next item, if any is left.
    pub fn next(&mut self) -> (r: Option<Inline<'a>>)
        ensures
            old(self).remaining().len() == 0 ==> r.is_none() && final(self).remaining() == old(self).remaining(),
            old(self).remaining().len() > 0 ==> r == Some(old(self).remaining()[0])
                && final(self).remaining() == old(self).remaining().drop_first(),
    {
        if self.index < self.items.len() {
            let item = self.items[self.index];
            self.index = self.index + 1;
            proof {
                assert(self.remaining() =~= old(self).remaining().drop_first());
            }
            Some(item)
        } else {
            None
        }
    }

    /// What is left to hand out, all at once.
    pub fn into_vec(self) -> (r: Vec<Inline<'a>>)
        ensures
            r@ == self.remaining(),
    {
        let mut r: Vec<Inline<'a>> = Vec::new();
        if self.index >= self.items.len() {
            proof {
                assert(r@ =~= self.remaining());
            }
            return r;
        }
        let mut i = self.index;
        while i < self.items.len()
            invariant
                self.index <= i <= self.items@.len(),
                r@ == self.items@.subrange(self.index as int, i as int),
            decreases self.items@.len() - i,
        {
            r.push(self.items[i]);
            i += 1;
            proof {
                assert(r@ =~= self.items@.subrange(self.index as int, i as int));
            }
        }
        proof {
            assert(r@ =~= self.remaining());
            if self.index > self.items@.len() {
                assert(r@ =~= Seq::<Inline<'a>>::empty());
            }
        }
        r
    }
}

/// The pieces of a wrapped line, handed out one at a time.
#[derive(Debug)]
pub struct WrappedInlines<'a> {
    items: Vec<WrappedInline<'a>>,
    index: usize,
}

impl<'a> WrappedInlines<'a> {
    /// What is left to hand out.
    pub closed spec fn remaining(&self) -> Seq<WrappedInline<'a>> {
        if self.index <= self.items@.len() {
            self.items@.subrange(self.index as int, self.items@.len() as int)
        } else {
            Seq::empty()
        }
    }

    pub fn from_vec(items: Vec<WrappedInline<'a>>) -> (r: WrappedInlines<'a>)
        ensures
            r.remaining() == items@,
    {
        let r = WrappedInlines { items, index: 0 };
        proof {
            assert(r.remaining() =~= r.items@);
        }
        r
    }

    /// The next item, if any is left.
    pub fn next(&mut self) -> (r: Option<WrappedInline<'a>>)
        ensures
            old(self).remaining().len() == 0 ==> r.is_none() && final(self).remaining() == old(self).remaining(),
            old(self).remaining().len() > 0 ==> r == Some(old(self).remaining()[0])
                && final(self).remaining() == old(self).remaining().drop_first(),
    {
        if self.index < self.items.len() {
            let item = self.items[self.index];
            self.index = self.index + 1;
            proof {
                assert(self.remaining() =~= old(self).remaining().drop_first());
            }
            Some(item)
        } else {
            None
        }
    }

    /// What is left to hand out, all at once.
    pub fn into_vec(self) -> (r: Vec<WrappedInline<'a>>)
        ensures
            r@ == self.remaining(),
    {
        let mut r: Vec<WrappedInline<'a>> = Vec::new();
        if self.index >= self.items.len() {
            proof {
                assert(r@ =~= self.remaining());
            }
            return r;
        }
        let mut i = self.index;
        while i < self.items.len()
            invariant
                self.index <= i <= self.items@.len(),
                r@ == self.items@.subrange(self.index as int, i as int),
            decreases self.items@.len() - i,
        {
            r.push(self.items[i]);
            i += 1;
            proof {
                assert(r@ =~= self.items@.subrange(self.index as int, i as int));
            }
        }
        proof {
            assert(r@ =~= self.remaining());
            if self.index > self.items@.len() {
                assert(r@ =~= Seq::<WrappedInline<'a>>::empty());
            }
        }
        r
    }
}

} // verus!
