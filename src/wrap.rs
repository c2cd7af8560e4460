use vstd::prelude::*;
use crate::columns::{byte_column_count, is_whitespace_boundary, is_whitespace_boundary_at, sat_add};
use crate::inlay::{Inline, InlineView};
use crate::line::{Line, inlines_of};

verus! {

/// The pieces of `t[..j]` cut at white-space boundaries, each as (bytes, columns):
/// the finished pieces and the bytes and columns of the piece being read.
pub open spec fn segments_prefix(t: Seq<u8>, tab_column_count: usize, j: int) -> (Seq<(int, int)>, int, int)
    decreases j,
{
    if j <= 0 {
        (Seq::empty(), 0, 0)
    } else {
        let (done, cb, cc) = segments_prefix(t, tab_column_count, j - 1);
        let w = byte_column_count(t[j - 1], tab_column_count);
        if is_whitespace_boundary(t, j - 1) {
            (done.push((cb, cc)), 1, sat_add(0, w))
        } else {
            (done, cb + 1, sat_add(cc, w))
        }
    }
}

/// The pieces of `t` cut at white-space boundaries, each as (bytes, columns).
pub open spec fn segments(t: Seq<u8>, tab_column_count: usize) -> Seq<(int, int)> {
    let (done, cb, cc) = segments_prefix(t, tab_column_count, t.len() as int);
    if t.len() > 0 { done.push((cb, cc)) } else { done }
}

/// The units that wrapping places whole: the white-space pieces of a text, or a
/// widget, which takes columns and no bytes.
pub open spec fn units_of(i: InlineView, tab_column_count: usize) -> Seq<(int, int)> {
    match i {
        InlineView::Text { text, .. } => segments(text, tab_column_count),
        InlineView::Widget { column_count, .. } => seq![(0int, column_count as int)],
    }
}

/// The state of wrapping: the soft breaks so far, the offset reached in inlay
/// coordinates, and the columns used on the current row.
pub ghost struct WrapState {
    pub breaks: Seq<usize>,
    pub byte_index: int,
    pub column_count: int,
}

/// One unit placed: when it does not fit on the row and a break was not just made
/// here, a soft break is made before it and it starts the next row.
pub open spec fn wrap_step(s: WrapState, unit: (int, int), max_column_count: usize) -> WrapState {
    let next = sat_add(s.column_count, unit.1);
    let last = if s.breaks.len() == 0 { 0 } else { s.breaks.last() as int };
    if next > max_column_count && last != s.byte_index {
        WrapState {
            breaks: s.breaks.push(s.byte_index as usize),
            byte_index: sat_add(s.byte_index, unit.0),
            column_count: unit.1,
        }
    } else {
        WrapState { breaks: s.breaks, byte_index: sat_add(s.byte_index, unit.0), column_count: next }
    }
}

pub open spec fn wrap_units(s: WrapState, units: Seq<(int, int)>, max_column_count: usize, k: int) -> WrapState
    decreases k,
{
    if k <= 0 {
        s
    } else {
        wrap_step(wrap_units(s, units, max_column_count, k - 1), units[k - 1], max_column_count)
    }
}

pub open spec fn wrap_inlines(inls: Seq<InlineView>, max_column_count: usize, tab_column_count: usize, k: int) -> WrapState
    decreases k,
{
    if k <= 0 {
        WrapState { breaks: Seq::empty(), byte_index: 0, column_count: 0 }
    } else {
        let units = units_of(inls[k - 1], tab_column_count);
        wrap_units(
            wrap_inlines(inls, max_column_count, tab_column_count, k - 1),
            units,
            max_column_count,
            units.len() as int,
        )
    }
}

/// The soft breaks of a line of text with inline inlays, wrapped at
/// `max_column_count` columns with tabs `tab_column_count` wide.
pub open spec fn wrapped_soft_breaks(
    text: Seq<u8>,
    inlays: Seq<(usize, crate::inlay::InlineInlay)>,
    max_column_count: usize,
    tab_column_count: usize,
) -> Seq<usize> {
    let inls = inlines_of(text, inlays);
    wrap_inlines(inls, max_column_count, tab_column_count, inls.len() as int).breaks
}

/// Cuts `t` before each character that is not white space and follows one that is;
/// gives each piece's bytes and columns.
pub fn split_whitespace_boundaries(t: &[u8], tab_column_count: usize) -> (r: Vec<(usize, usize)>)
    ensures
        r@.map_values(|u: (usize, usize)| (u.0 as int, u.1 as int)) == segments(t@, tab_column_count),
{
    let mut done: Vec<(usize, usize)> = Vec::new();
    let mut cb: usize = 0;
    let mut cc: usize = 0;
    let mut j: usize = 0;
    while j < t.len()
        invariant
            j <= t@.len(),
            cb <= j,
            (done@.map_values(|u: (usize, usize)| (u.0 as int, u.1 as int)), cb as int, cc as int)
                == segments_prefix(t@, tab_column_count, j as int),
        decreases t@.len() - j,
    {
        let b = t[j];
        let w: usize = if b == 9 {
            tab_column_count
        } else if 0x80 <= b && b < 0xC0 {
            0
        } else {
            1
        };
        if is_whitespace_boundary_at(t, j) {
            done.push((cb, cc));
            cb = 1;
            cc = w;
        } else {
            cb = cb + 1;
            cc = cc.saturating_add(w);
        }
        j += 1;
        proof {
            assert(done@.map_values(|u: (usize, usize)| (u.0 as int, u.1 as int))
                =~= segments_prefix(t@, tab_column_count, j as int).0);
        }
    }
    if t.len() > 0 {
        done.push((cb, cc));
    }
    proof {
        assert(done@.map_values(|u: (usize, usize)| (u.0 as int, u.1 as int)) =~= segments(t@, tab_column_count));
    }
    done
}

/// The wrapping units of one piece of a line.
fn units_of_inline(inline: &Inline, tab_column_count: usize) -> (r: Vec<(usize, usize)>)
    ensures
        r@.map_values(|u: (usize, usize)| (u.0 as int, u.1 as int)) == units_of(inline.spec_view(), tab_column_count),
{
    match inline {
        Inline::Text { text, .. } => split_whitespace_boundaries(text, tab_column_count),
        Inline::Widget(w) => {
            let mut r: Vec<(usize, usize)> = Vec::new();
            r.push((0, w.column_count));
            proof {
                assert(r@.map_values(|u: (usize, usize)| (u.0 as int, u.1 as int)) =~= seq![(0int, w.column_count as int)]);
            }
            r
        },
    }
}

/// The soft breaks of `line` wrapped at `max_column_count` columns.
pub fn wrap_line(line: &Line, max_column_count: usize, tab_column_count: usize) -> (r: Vec<usize>)
    requires
        line.wf(),
    ensures
        r@ == wrapped_soft_breaks(line.text@, line.inline_inlays@, max_column_count, tab_column_count),
{
    let inlines = line.inline_list();
    let ghost inls = inlines_of(line.text@, line.inline_inlays@);
    let mut breaks: Vec<usize> = Vec::new();
    let mut byte_index: usize = 0;
    let mut column_count: usize = 0;
    let mut k: usize = 0;
    while k < inlines.len()
        invariant
            k <= inlines@.len(),
            inlines@.map_values(|i: Inline| i.spec_view()) == inls,
            (WrapState { breaks: breaks@, byte_index: byte_index as int, column_count: column_count as int })
                == wrap_inlines(inls, max_column_count, tab_column_count, k as int),
        decreases inlines@.len() - k,
    {
        let units = units_of_inline(&inlines[k], tab_column_count);
        let ghost uv = units@.map_values(|u: (usize, usize)| (u.0 as int, u.1 as int));
        let ghost start = WrapState { breaks: breaks@, byte_index: byte_index as int, column_count: column_count as int };
        proof {
            assert(inls[k as int] == inlines@[k as int].spec_view());
        }
        let mut m: usize = 0;
        while m < units.len()
            invariant
                m <= units@.len(),
                uv == units@.map_values(|u: (usize, usize)| (u.0 as int, u.1 as int)),
                (WrapState { breaks: breaks@, byte_index: byte_index as int, column_count: column_count as int })
                    == wrap_units(start, uv, max_column_count, m as int),
            decreases units@.len() - m,
        {
            let (b, c) = units[m];
            proof {
                assert(uv[m as int] == (b as int, c as int));
            }
            let next = column_count.saturating_add(c);
            let last: usize = if breaks.len() == 0 { 0 } else { breaks[breaks.len() - 1] };
            if next > max_column_count && last != byte_index {
                breaks.push(byte_index);
                column_count = c;
            } else {
                column_count = next;
            }
            byte_index = byte_index.saturating_add(b);
            m += 1;
        }
        k += 1;
    }
    breaks
}

} // verus!
