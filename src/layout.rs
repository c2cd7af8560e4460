use vstd::prelude::*;
use crate::columns::{column_count, column_count_of, is_continuation_byte, sat_add};
use crate::inlay::{Inline, InlineView, Size, WrappedInline, WrappedInlineView};
use crate::line::{Line, sat_add64, slice_range};

verus! {

/// A point; `y` in millionths of a row, `x` in millionths of a column.
#[derive(Clone, Copy, Debug, PartialEq, Eq, Structural, Default)]
pub struct Point {
    pub x: u64,
    pub y: u64,
}

/// A rectangle: its top-left corner and its size.
#[derive(Clone, Copy, Debug, PartialEq, Eq, Structural, Default)]
pub struct Rect {
    pub origin: Point,
    pub size: Size,
}

impl Point {
    pub fn new(x: u64, y: u64) -> (r: Point)
        ensures
            r.x == x,
            r.y == y,
    {
        Point { x, y }
    }
}

impl Rect {
    pub fn new(origin: Point, size: Size) -> (r: Rect)
        ensures
            r.origin == origin,
            r.size == size,
    {
        Rect { origin, size }
    }

    /// The point lies in the rectangle: from its origin, inclusive, to its far edges,
    /// exclusive.
    pub open spec fn spec_contains(&self, p: Point) -> bool {
        &&& self.origin.x <= p.x
        &&& p.x < self.origin.x + self.size.width
        &&& self.origin.y <= p.y
        &&& p.y < self.origin.y + self.size.height
    }

    pub fn contains(&self, p: Point) -> (r: bool)
        ensures
            r == self.spec_contains(p),
    {
        self.origin.x <= p.x && p.x - self.origin.x < self.size.width && self.origin.y <= p.y
            && p.y - self.origin.y < self.size.height
    }
}

/// What a rectangle of the layout holds.
#[derive(Clone, Copy, Debug)]
pub enum LayoutEventKind<'a> {
    Line { is_inlay: bool, line: Line<'a> },
    Grapheme { is_inlay: bool, text: &'a [u8] },
    Break { is_soft: bool },
    Widget { id: usize },
}

/// One rectangle of the layout and what it holds.
#[derive(Clone, Copy, Debug)]
pub struct LayoutEvent<'a> {
    pub rect: Rect,
    pub kind: LayoutEventKind<'a>,
}

/// A layout event as plain values; a line is given by its text.
pub ghost enum EventKindView {
    Line { is_inlay: bool, text: Seq<u8> },
    Grapheme { is_inlay: bool, text: Seq<u8> },
    Break { is_soft: bool },
    Widget { id: usize },
}

pub ghost struct EventView {
    pub rect: Rect,
    pub kind: EventKindView,
}

impl<'a> LayoutEvent<'a> {
    pub open spec fn spec_view(&self) -> EventView {
        EventView {
            rect: self.rect,
            kind: match self.kind {
                LayoutEventKind::Line { is_inlay, line } => EventKindView::Line { is_inlay, text: line.text@ },
                LayoutEventKind::Grapheme { is_inlay, text } => EventKindView::Grapheme { is_inlay, text: text@ },
                LayoutEventKind::Break { is_soft } => EventKindView::Break { is_soft },
                LayoutEventKind::Widget { id } => EventKindView::Widget { id },
            },
        }
    }
}

pub open spec fn sat_sub64(a: int, b: int) -> int {
    if a >= b { a - b } else { 0 }
}

/// The characters of `t[..k]`: a new one starts at every byte that is not a
/// continuation byte.
pub open spec fn graphemes_prefix(t: Seq<u8>, k: int) -> Seq<Seq<u8>>
    decreases k,
{
    if k <= 0 {
        Seq::empty()
    } else {
        let g = graphemes_prefix(t, k - 1);
        if g.len() == 0 || !is_continuation_byte(t[k - 1]) {
            g.push(seq![t[k - 1]])
        } else {
            g.drop_last().push(g.last().push(t[k - 1]))
        }
    }
}

pub open spec fn graphemes(t: Seq<u8>) -> Seq<Seq<u8>> {
    graphemes_prefix(t, t.len() as int)
}

/// A walk over the layout of a line: the events so far, the top of the current row
/// and the column reached on it.
pub ghost struct LineWalk {
    pub events: Seq<EventView>,
    pub y: int,
    pub column: int,
}

/// The event of a piece `column_count` columns wide at the walk's place.
pub open spec fn cell(line: Line, st: LineWalk, column_count: int, kind: EventKindView) -> EventView {
    let x = line.spec_x(st.column);
    let next_x = line.spec_x(sat_add(st.column, column_count));
    EventView {
        rect: Rect {
            origin: Point { x: x as u64, y: st.y as u64 },
            size: Size { width: sat_sub64(next_x, x) as u64, height: line.scale },
        },
        kind,
    }
}

pub open spec fn grapheme_events(line: Line, st: LineWalk, is_inlay: bool, gs: Seq<Seq<u8>>, tab_column_count: usize, k: int) -> LineWalk
    decreases k,
{
    if k <= 0 {
        st
    } else {
        let prev = grapheme_events(line, st, is_inlay, gs, tab_column_count, k - 1);
        let w = column_count_of(gs[k - 1], tab_column_count);
        LineWalk {
            events: prev.events.push(cell(line, prev, w, EventKindView::Grapheme { is_inlay, text: gs[k - 1] })),
            column: sat_add(prev.column, w),
            ..prev
        }
    }
}

/// One piece of a wrapped line laid out: a character at a time for text, a cell for
/// a widget, a break and a new row for a soft break.
pub open spec fn piece_events(line: Line, st: LineWalk, w: WrappedInlineView, tab_column_count: usize) -> LineWalk {
    match w {
        WrappedInlineView::Inline(InlineView::Text { is_inlay, text }) => {
            let gs = graphemes(text);
            grapheme_events(line, st, is_inlay, gs, tab_column_count, gs.len() as int)
        },
        WrappedInlineView::Inline(InlineView::Widget { id, column_count }) => LineWalk {
            events: st.events.push(cell(line, st, column_count as int, EventKindView::Widget { id })),
            column: sat_add(st.column, column_count as int),
            ..st
        },
        WrappedInlineView::SoftBreak => LineWalk {
            events: st.events.push(cell(line, st, 1, EventKindView::Break { is_soft: true })),
            y: sat_add64(st.y, line.scale as int),
            column: 0,
        },
    }
}

pub open spec fn pieces_events(line: Line, st: LineWalk, ws: Seq<WrappedInlineView>, tab_column_count: usize, k: int) -> LineWalk
    decreases k,
{
    if k <= 0 {
        st
    } else {
        piece_events(line, pieces_events(line, st, ws, tab_column_count, k - 1), ws[k - 1], tab_column_count)
    }
}

/// The layout of a line whose top is at `y`: the line's own rectangle, its pieces,
/// and the break that ends it; and the top of what follows.
pub open spec fn line_events(line: Line, is_inlay: bool, y: int, tab_column_count: usize) -> (Seq<EventView>, int) {
    let head = EventView {
        rect: Rect {
            origin: Point { x: 0, y: y as u64 },
            size: Size {
                width: line.spec_x(crate::line::widest_row(line.spec_wrapped_inlines(), tab_column_count)) as u64,
                height: line.spec_height() as u64,
            },
        },
        kind: EventKindView::Line { is_inlay, text: line.text@ },
    };
    let ws = line.spec_wrapped_inlines();
    let st = pieces_events(line, LineWalk { events: seq![head], y, column: 0 }, ws, tab_column_count, ws.len() as int);
    (st.events.push(cell(line, st, 1, EventKindView::Break { is_soft: false })), sat_add64(st.y, line.scale as int))
}

/// The characters of `t`, each as a slice of it.
pub fn split_graphemes<'a>(t: &'a [u8]) -> (r: Vec<&'a [u8]>)
    ensures
        r@.map_values(|g: &'a [u8]| g@) == graphemes(t@),
{
    let mut out: Vec<&'a [u8]> = Vec::new();
    let mut start: usize = 0;
    let mut j: usize = 0;
    while j < t.len()
        invariant
            start <= j <= t@.len(),
            j == 0 ==> out@.len() == 0 && start == 0,
            j > 0 ==> start < j && graphemes_prefix(t@, j as int) == out@.map_values(|g: &'a [u8]| g@).push(
                t@.subrange(start as int, j as int),
            ),
        decreases t@.len() - j,
    {
        let ghost prev = out@.map_values(|g: &'a [u8]| g@);
        let ghost prev_start = start;
        if j > 0 && !(0x80 <= t[j] && t[j] < 0xC0) {
            let g = slice_range(t, start, j);
            out.push(g);
            start = j;
            proof {
                assert(out@.map_values(|g: &'a [u8]| g@) =~= prev.push(t@.subrange(prev_start as int, j as int)));
                assert(t@.subrange(j as int, j + 1) =~= seq![t@[j as int]]);
                let g0 = graphemes_prefix(t@, j as int);
                assert(g0.len() > 0);
                assert(graphemes_prefix(t@, j + 1) == g0.push(seq![t@[j as int]]));
            }
        } else if j > 0 {
            proof {
                assert(t@.subrange(start as int, j + 1) =~= t@.subrange(start as int, j as int).push(t@[j as int]));
                let g0 = graphemes_prefix(t@, j as int);
                assert(g0.len() > 0);
                assert(graphemes_prefix(t@, j + 1) == g0.drop_last().push(g0.last().push(t@[j as int])));
                assert(g0.drop_last() =~= prev);
            }
        } else {
            proof {
                assert(t@.subrange(0, 1) =~= seq![t@[0]]);
                assert(out@.map_values(|g: &'a [u8]| g@) =~= Seq::<Seq<u8>>::empty());
                assert(graphemes_prefix(t@, 0).len() == 0);
                assert(graphemes_prefix(t@, 1) == Seq::<Seq<u8>>::empty().push(seq![t@[0]]));
            }
        }
        j += 1;
    }
    if t.len() > 0 {
        let ghost prev = out@.map_values(|g: &'a [u8]| g@);
        out.push(slice_range(t, start, t.len()));
        proof {
            assert(out@.map_values(|g: &'a [u8]| g@) =~= prev.push(t@.subrange(start as int, t@.len() as int)));
        }
    } else {
        proof {
            assert(out@.map_values(|g: &'a [u8]| g@) =~= Seq::<Seq<u8>>::empty());
        }
    }
    out
}


/// The event of a piece at the walk's place, computed.
fn cell_event<'a>(line: &Line<'a>, y: u64, column: usize, column_count: usize, kind: LayoutEventKind<'a>) -> (r: LayoutEvent<'a>)
    ensures
        r.kind == kind,
        r.spec_view().rect == cell(
            *line,
            LineWalk { events: Seq::empty(), y: y as int, column: column as int },
            column_count as int,
            EventKindView::Break { is_soft: false },
        ).rect,
{
    let x = line.column_index_to_x(column);
    let next_x = line.column_index_to_x(column.saturating_add(column_count));
    LayoutEvent {
        rect: Rect { origin: Point { x, y }, size: Size { width: next_x.saturating_sub(x), height: line.scale } },
        kind,
    }
}

/// Appends the layout of `line`, whose top is at `y`, to `events`; returns the top
/// of what follows.
pub fn layout_line<'a>(line: &Line<'a>, is_inlay: bool, y: u64, tab_column_count: usize, events: &mut Vec<LayoutEvent<'a>>) -> (r: u64)
    requires
        line.wf(),
    ensures
        final(events)@.map_values(|e: LayoutEvent<'a>| e.spec_view()) == old(events)@.map_values(|e: LayoutEvent<'a>| e.spec_view())
            + line_events(*line, is_inlay, y as int, tab_column_count).0,
        r == line_events(*line, is_inlay, y as int, tab_column_count).1,
{
    let ghost base = events@.map_values(|e: LayoutEvent<'a>| e.spec_view());
    let width = line.width(tab_column_count);
    let height = line.height();
    let head = LayoutEvent {
        rect: Rect { origin: Point { x: 0, y }, size: Size { width, height } },
        kind: LayoutEventKind::Line { is_inlay, line: *line },
    };
    events.push(head);
    let ws = line.wrapped_inline_list();
    let ghost wv = line.spec_wrapped_inlines();
    let ghost start = LineWalk { events: seq![head.spec_view()], y: y as int, column: 0 };
    let mut yy: u64 = y;
    let mut column: usize = 0;
    let mut k: usize = 0;
    proof {
        assert(events@.map_values(|e: LayoutEvent<'a>| e.spec_view()) =~= base + start.events);
    }
    while k < ws.len()
        invariant
            k <= ws@.len(),
            ws@.map_values(|x: WrappedInline<'a>| x.spec_view()) == wv,
            wv == line.spec_wrapped_inlines(),
            ({
                let st = pieces_events(*line, start, wv, tab_column_count, k as int);
                &&& events@.map_values(|e: LayoutEvent<'a>| e.spec_view()) == base + st.events
                &&& st.y == yy
                &&& st.column == column
            }),
        decreases ws@.len() - k,
    {
        let ghost st0 = pieces_events(*line, start, wv, tab_column_count, k as int);
        proof {
            assert(wv[k as int] == ws@[k as int].spec_view());
        }
        match ws[k] {
            WrappedInline::Inline(Inline::Text { is_inlay: piece_is_inlay, text }) => {
                let gs = split_graphemes(text);
                let ghost gv = graphemes(text@);
                let mut m: usize = 0;
                while m < gs.len()
                    invariant
                        m <= gs@.len(),
                        gs@.map_values(|g: &'a [u8]| g@) == gv,
                        ({
                            let st = grapheme_events(*line, st0, piece_is_inlay, gv, tab_column_count, m as int);
                            &&& events@.map_values(|e: LayoutEvent<'a>| e.spec_view()) == base + st.events
                            &&& st.y == yy
                            &&& st.column == column
                        }),
                    decreases gs@.len() - m,
                {
                    let g = gs[m];
                    proof {
                        assert(gv[m as int] == g@);
                    }
                    let w = column_count(g, tab_column_count);
                    let ghost before = events@.map_values(|e: LayoutEvent<'a>| e.spec_view());
                    let e = cell_event(line, yy, column, w, LayoutEventKind::Grapheme { is_inlay: piece_is_inlay, text: g });
                    events.push(e);
                    column = column.saturating_add(w);
                    m += 1;
                    proof {
                        assert(events@.map_values(|e: LayoutEvent<'a>| e.spec_view()) =~= before.push(e.spec_view()));
                    }
                }
            },
            WrappedInline::Inline(Inline::Widget(wd)) => {
                let ghost before = events@.map_values(|e: LayoutEvent<'a>| e.spec_view());
                let e = cell_event(line, yy, column, wd.column_count, LayoutEventKind::Widget { id: wd.id });
                events.push(e);
                column = column.saturating_add(wd.column_count);
                proof {
                    assert(events@.map_values(|e: LayoutEvent<'a>| e.spec_view()) =~= before.push(e.spec_view()));
                }
            },
            WrappedInline::SoftBreak => {
                let ghost before = events@.map_values(|e: LayoutEvent<'a>| e.spec_view());
                let e = cell_event(line, yy, column, 1, LayoutEventKind::Break { is_soft: true });
                events.push(e);
                yy = yy.saturating_add(line.scale);
                column = 0;
                proof {
                    assert(events@.map_values(|e: LayoutEvent<'a>| e.spec_view()) =~= before.push(e.spec_view()));
                }
            },
        }
        k += 1;
    }
    let ghost before = events@.map_values(|e: LayoutEvent<'a>| e.spec_view());
    let e = cell_event(line, yy, column, 1, LayoutEventKind::Break { is_soft: false });
    events.push(e);
    proof {
        assert(events@.map_values(|e: LayoutEvent<'a>| e.spec_view()) =~= before.push(e.spec_view()));
    }
    yy.saturating_add(line.scale)
}

} // verus!
