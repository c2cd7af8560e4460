use vstd::prelude::*;
use crate::columns::is_continuation_byte;
use crate::inlay::InlineInlay;
use crate::line::SCALE_ONE;
use crate::diff::{repaired, Diff, Operation, OperationView, Strategy, apply_ops, apply_prefix, diff_applies, lemma_map_prefix_done, map_position, map_prefix};
use crate::position::{Length, Position, Selection, len_pos, pos_add, pos_le, pos_lt, pos_sub};
use crate::text::{Text, in_text, text_concat, text_split};

verus! {

/// The end of the character that starts at byte `b` (searching from `e`).
pub open spec fn next_char_end(line: Seq<u8>, e: int) -> int
    decreases line.len() - e,
{
    if e >= line.len() || !is_continuation_byte(line[e]) {
        e
    } else {
        next_char_end(line, e + 1)
    }
}

/// The start of the character that ends at byte `b` (searching down from `s`).
pub open spec fn prev_char_start(line: Seq<u8>, s: int) -> int
    decreases s,
{
    if s <= 0 || !is_continuation_byte(line[s]) {
        s
    } else {
        prev_char_start(line, s - 1)
    }
}

/// The position one character after `p`, or the start of the next line at the end
/// of a line; the end of the text stays where it is.
pub open spec fn position_after(t: Seq<Seq<u8>>, p: Position) -> Position {
    let l = p.line_index as int;
    if p.byte_index < t[l].len() {
        Position { line_index: p.line_index, byte_index: next_char_end(t[l], p.byte_index + 1) as usize }
    } else if l + 1 < t.len() {
        Position { line_index: (l + 1) as usize, byte_index: 0 }
    } else {
        p
    }
}

/// The position one character before `p`, or the end of the previous line at the
/// start of a line; the origin stays where it is.
pub open spec fn position_before(t: Seq<Seq<u8>>, p: Position) -> Position {
    let l = p.line_index as int;
    if p.byte_index > 0 {
        Position { line_index: p.line_index, byte_index: prev_char_start(t[l], p.byte_index - 1) as usize }
    } else if l > 0 {
        Position { line_index: (l - 1) as usize, byte_index: t[l - 1].len() as usize }
    } else {
        p
    }
}

/// The operations that replace the text from `start` to `end` with `x`.
pub open spec fn replace_ops(start: Position, end: Position, x: Seq<Seq<u8>>) -> Seq<OperationView> {
    seq![
        OperationView::Retain(crate::position::Length { line_count: start.line_index, byte_count: start.byte_index }),
        OperationView::Delete(pos_sub(end, start)),
        OperationView::Insert(x),
    ]
}

pub(crate) fn next_char_end_exec(line: &[u8], b: usize) -> (r: usize)
    requires
        b < line@.len(),
    ensures
        r == next_char_end(line@, b + 1),
        b < r <= line@.len(),
{
    let n = line.len();
    let mut e = b + 1;
    while e < n && 0x80 <= line[e] && line[e] < 0xC0
        invariant
            n == line@.len(),
            b < e <= line@.len(),
            next_char_end(line@, b + 1) == next_char_end(line@, e as int),
        decreases line@.len() - e,
    {
        e += 1;
    }
    e
}

pub(crate) fn prev_char_start_exec(line: &[u8], b: usize) -> (r: usize)
    requires
        0 < b <= line@.len(),
    ensures
        r == prev_char_start(line@, b - 1),
        r < b,
{
    let mut s = b - 1;
    while s > 0 && 0x80 <= line[s] && line[s] < 0xC0
        invariant
            s < b <= line@.len(),
            prev_char_start(line@, b - 1) == prev_char_start(line@, s as int),
        decreases s,
    {
        s -= 1;
    }
    s
}

/// The position one character after `p`.
pub fn move_right(text: &Text, p: Position) -> (r: Position)
    requires
        in_text(text.spec_lines(), p),
    ensures
        r == position_after(text.spec_lines(), p),
        in_text(text.spec_lines(), r),
        pos_le(p, r),
{
    let lines = text.as_lines();
    let l = p.line_index;
    proof {
        assert(lines@[l as int]@ == text.spec_lines()[l as int]);
    }
    if p.byte_index < lines[l].len() {
        Position { line_index: l, byte_index: next_char_end_exec(lines[l].as_slice(), p.byte_index) }
    } else if lines.len() - l > 1 {
        Position { line_index: l + 1, byte_index: 0 }
    } else {
        p
    }
}

/// The position one character before `p`.
pub fn move_left(text: &Text, p: Position) -> (r: Position)
    requires
        in_text(text.spec_lines(), p),
    ensures
        r == position_before(text.spec_lines(), p),
        in_text(text.spec_lines(), r),
        pos_le(r, p),
{
    let lines = text.as_lines();
    let l = p.line_index;
    proof {
        assert(lines@[l as int]@ == text.spec_lines()[l as int]);
    }
    if p.byte_index > 0 {
        Position { line_index: l, byte_index: prev_char_start_exec(lines[l].as_slice(), p.byte_index) }
    } else if l > 0 {
        proof {
            assert(lines@[l - 1]@ == text.spec_lines()[l - 1]);
        }
        Position { line_index: l - 1, byte_index: lines[l - 1].len() }
    } else {
        p
    }
}

/// The diff that replaces the text from `start` to `end` with `replace_with`.
pub fn replace(start: Position, end: Position, replace_with: Text) -> (r: Diff)
    requires
        pos_le(start, end),
        replace_with.wf(),
    ensures
        r.wf(),
        r.spec_ops() == replace_ops(start, end, replace_with.spec_lines()),
{
    let ghost x = replace_with.spec_lines();
    let mut diff = Diff::new();
    diff.push(Operation::Retain(Length { line_count: start.line_index, byte_count: start.byte_index }));
    diff.push(Operation::Delete(end.sub_position(start)));
    diff.push(Operation::Insert(replace_with));
    proof {
        assert(diff.spec_ops() =~= replace_ops(start, end, x));
    }
    diff
}

/// Replacing a range of a text that holds both its ends applies, and gives the text
/// before the range, then the new text, then the text after the range.
pub proof fn lemma_replace_applies(t: Seq<Seq<u8>>, start: Position, end: Position, x: Seq<Seq<u8>>)
    requires
        t.len() >= 1,
        x.len() >= 1,
        in_text(t, start),
        in_text(t, end),
        pos_le(start, end),
    ensures
        diff_applies(t, replace_ops(start, end, x)),
        apply_ops(t, replace_ops(start, end, x)) == text_concat(
            text_concat(text_split(t, start).0, x),
            text_split(t, end).1,
        ),
        apply_ops(t, replace_ops(start, end, x)).len() == t.len() - (end.line_index - start.line_index) + x.len() - 1,
{
    let ops = replace_ops(start, end, x);
    let sl = start.line_index as int;
    let sb = start.byte_index as int;
    let el = end.line_index as int;
    let eb = end.byte_index as int;
    let (pre, rest) = text_split(t, start);
    let e: Seq<Seq<u8>> = seq![Seq::empty()];
    assert(len_pos(Length { line_count: start.line_index, byte_count: start.byte_index }) == start);
    assert(text_concat(e, pre) =~= pre) by {
        assert(e.drop_last() =~= Seq::<Seq<u8>>::empty());
        assert(e.last() + pre[0] =~= pre[0]);
    }
    assert(apply_prefix(t, ops, 0) == (e, t, true));
    assert(ops[0] == OperationView::Retain(Length { line_count: start.line_index, byte_count: start.byte_index }));
    assert(apply_prefix(t, ops, 1) == (text_concat(e, pre), rest, true));
    assert(apply_prefix(t, ops, 1) == (pre, rest, true));
    let d = len_pos(pos_sub(end, start));
    let post = text_split(t, end).1;
    if el == sl {
        assert(rest[0] =~= t[sl].subrange(sb, t[sl].len() as int));
        assert(in_text(rest, d));
        assert(text_split(rest, d).1 =~= post) by {
            assert(rest[0].subrange(eb - sb, rest[0].len() as int) =~= t[sl].subrange(eb, t[sl].len() as int));
            assert(rest.subrange(1, rest.len() as int) =~= t.subrange(sl + 1, t.len() as int));
        }
    } else {
        assert(rest[el - sl] == t[el]);
        assert(in_text(rest, d));
        assert(text_split(rest, d).1 =~= post) by {
            assert(rest.subrange(el - sl + 1, rest.len() as int) =~= t.subrange(el + 1, t.len() as int));
        }
    }
    assert(ops[1] == OperationView::Delete(pos_sub(end, start)));
    assert(apply_prefix(t, ops, 2) == (pre, post, true));
    assert(ops[2] == OperationView::Insert(x));
    assert(apply_prefix(t, ops, 3) == (text_concat(pre, x), post, true));
}


/// What an edit does at each selection.
pub ghost enum EditKind {
    /// Replace the selected text with a text.
    Replace(Seq<Seq<u8>>),
    /// Delete the selected text, or the character after an empty selection.
    Delete,
    /// Delete the selected text, or the character before an empty selection.
    Backspace,
}

pub open spec fn empty_text() -> Seq<Seq<u8>> {
    seq![Seq::empty()]
}

/// The range an edit replaces for a selection from `ds` to `de`, and the text put in.
pub open spec fn edit_bounds(t: Seq<Seq<u8>>, ds: Position, de: Position, kind: EditKind) -> (
    Position,
    Position,
    Seq<Seq<u8>>,
) {
    match kind {
        EditKind::Replace(x) => (ds, de, x),
        EditKind::Delete => if ds == de {
            (ds, position_after(t, ds), empty_text())
        } else {
            (ds, de, empty_text())
        },
        EditKind::Backspace => if ds == de {
            (position_before(t, ds), ds, empty_text())
        } else {
            (ds, de, empty_text())
        },
    }
}

/// A selection from `a` to `b` (with `a` not after `b`), facing the way `sel` faces.
pub open spec fn oriented(sel: Selection, a: Position, b: Position) -> Selection {
    if pos_le(sel.anchor, sel.cursor) {
        Selection { anchor: a, cursor: b, column_index: sel.column_index }
    } else {
        Selection { anchor: b, cursor: a, column_index: sel.column_index }
    }
}

/// What a session keeps per line: inline inlays, soft breaks, fold column and scale.
pub ghost struct LineData {
    pub inlays: Seq<Seq<(usize, InlineInlay)>>,
    pub soft_breaks: Seq<Seq<usize>>,
    pub fold_columns: Seq<usize>,
    pub scale: Seq<u64>,
}

/// Per-line data brought in step with the lines that `ops` makes of `t`: deleted
/// lines lose their entries; inserted lines get no inlays, no soft breaks, fold
/// column 0 and a full scale; the other entries keep their order.
pub open spec fn repair_data(d: LineData, t: Seq<Seq<u8>>, ops: Seq<OperationView>) -> LineData {
    LineData {
        inlays: repaired(d.inlays, t, ops, Seq::empty()),
        soft_breaks: repaired(d.soft_breaks, t, ops, Seq::empty()),
        fold_columns: repaired(d.fold_columns, t, ops, 0usize),
        scale: repaired(d.scale, t, ops, SCALE_ONE),
    }
}

/// Where an edit over several selections stands: the text so far and its per-line
/// data, the end of the last selection handled in the text before the edit and in
/// the text so far, and the selections placed so far.
pub ghost struct EditState {
    pub text: Seq<Seq<u8>>,
    pub data: LineData,
    pub prev_end: Position,
    pub diffed_prev_end: Position,
    pub out: Seq<Selection>,
}

/// The edit applied at one more selection. Its range is found in the text so far
/// by carrying over its distance from the end of the selection before; a range that
/// does not lie in the text is left as it is.
pub open spec fn edit_step(st: EditState, sel: Selection, kind: EditKind) -> EditState {
    let ds = pos_add(st.diffed_prev_end, pos_sub(sel.spec_start(), st.prev_end));
    let de = pos_add(ds, pos_sub(sel.spec_end(), sel.spec_start()));
    if in_text(st.text, ds) && in_text(st.text, de) && pos_le(ds, de) {
        let (s, e, x) = edit_bounds(st.text, ds, de, kind);
        let ops = replace_ops(s, e, x);
        let ns = map_position(ds, ops, Strategy::InsertBefore);
        let ne = map_position(de, ops, Strategy::InsertBefore);
        EditState {
            text: apply_ops(st.text, ops),
            data: repair_data(st.data, st.text, ops),
            prev_end: sel.spec_end(),
            diffed_prev_end: ne,
            out: st.out.push(oriented(sel, ns, ne)),
        }
    } else {
        EditState {
            text: st.text,
            data: st.data,
            prev_end: sel.spec_end(),
            diffed_prev_end: de,
            out: st.out.push(oriented(sel, ds, de)),
        }
    }
}

/// The edit applied at the first `k` selections, in order, to text `t` with per-line
/// data `d`.
pub open spec fn edit_prefix(t: Seq<Seq<u8>>, d: LineData, sels: Seq<Selection>, kind: EditKind, k: int) -> EditState
    decreases k,
{
    if k <= 0 {
        EditState {
            text: t,
            data: d,
            prev_end: Position { line_index: 0, byte_index: 0 },
            diffed_prev_end: Position { line_index: 0, byte_index: 0 },
            out: Seq::empty(),
        }
    } else {
        edit_step(edit_prefix(t, d, sels, kind, k - 1), sels[k - 1], kind)
    }
}

pub fn position_in_text(text: &Text, p: Position) -> (r: bool)
    ensures
        r == in_text(text.spec_lines(), p),
{
    let lines = text.as_lines();
    if p.line_index < lines.len() {
        proof {
            assert(lines@[p.line_index as int]@ == text.spec_lines()[p.line_index as int]);
        }
        p.byte_index <= lines[p.line_index].len()
    } else {
        false
    }
}


/// The edit at selection `k - 1` adds one selection to those placed before, and does
/// not depend on them.
pub proof fn lemma_edit_prefix_step(t: Seq<Seq<u8>>, d: LineData, sels: Seq<Selection>, kind: EditKind, k: int)
    requires
        0 < k <= sels.len(),
    ensures
        ({
            let st = edit_prefix(t, d, sels, kind, k - 1);
            let a = edit_prefix(t, d, sels, kind, k);
            let b = edit_step(
                EditState { text: st.text, data: st.data, prev_end: st.prev_end, diffed_prev_end: st.diffed_prev_end, out: Seq::empty() },
                sels[k - 1],
                kind,
            );
            &&& b.out.len() == 1
            &&& a.out == st.out.push(b.out[0])
            &&& a.text == b.text
            &&& a.data == b.data
            &&& a.prev_end == b.prev_end
            &&& a.diffed_prev_end == b.diffed_prev_end
        }),
{
}


/// Every line count and line length of `t` fits in a `usize`.
pub open spec fn text_fits(t: Seq<Seq<u8>>) -> bool {
    &&& 1 <= t.len() <= usize::MAX
    &&& forall|i: int| 0 <= i < t.len() ==> #[trigger] t[i].len() <= usize::MAX
}

proof fn lemma_split_after_concat(a: Seq<Seq<u8>>, b: Seq<Seq<u8>>, d: Position)
    requires
        a.len() >= 1,
        b.len() >= 1,
        in_text(b, d),
        text_fits(text_concat(a, b)),
    ensures
        ({
            let m = if d.line_index == 0 {
                Position { line_index: (a.len() - 1) as usize, byte_index: (a.last().len() + d.byte_index) as usize }
            } else {
                Position { line_index: (a.len() - 1 + d.line_index) as usize, byte_index: d.byte_index }
            };
            &&& in_text(text_concat(a, b), m)
            &&& text_split(text_concat(a, b), m).1 == text_split(b, d).1
        }),
{
    let c = text_concat(a, b);
    let n = a.len() - 1;
    assert(c.len() == a.len() + b.len() - 1);
    if d.line_index == 0 {
        assert(c[n] == a.last() + b[0]);
        let m = Position { line_index: n as usize, byte_index: (a.last().len() + d.byte_index) as usize };
        assert(c[n].len() <= usize::MAX);
        assert(text_split(c, m).1 =~= text_split(b, d).1) by {
            assert(c[n].subrange(a.last().len() + d.byte_index, c[n].len() as int)
                =~= b[0].subrange(d.byte_index as int, b[0].len() as int));
            assert(c.subrange(n + 1, c.len() as int) =~= b.subrange(1, b.len() as int));
        }
    } else {
        let l = d.line_index as int;
        assert(c[n + l] == b[l]);
        assert(text_split(c, Position { line_index: (n + l) as usize, byte_index: d.byte_index }).1 =~= text_split(b, d).1) by {
            assert(c.subrange(n + l + 1, c.len() as int) =~= b.subrange(l + 1, b.len() as int));
        }
    }
}

proof fn lemma_split_of_suffix(t: Seq<Seq<u8>>, e: Position, p: Position)
    requires
        in_text(t, e),
        in_text(t, p),
        pos_le(e, p),
    ensures
        in_text(text_split(t, e).1, len_pos(pos_sub(p, e))),
        text_split(text_split(t, e).1, len_pos(pos_sub(p, e))).1 == text_split(t, p).1,
{
    let r = text_split(t, e).1;
    let d = len_pos(pos_sub(p, e));
    let el = e.line_index as int;
    if p.line_index == e.line_index {
        assert(r[0] == t[el].subrange(e.byte_index as int, t[el].len() as int));
        assert(text_split(r, d).1 =~= text_split(t, p).1) by {
            assert(r[0].subrange(p.byte_index - e.byte_index, r[0].len() as int)
                =~= t[el].subrange(p.byte_index as int, t[el].len() as int));
            assert(r.subrange(1, r.len() as int) =~= t.subrange(el + 1, t.len() as int));
        }
    } else {
        let pl = p.line_index as int;
        assert(r[pl - el] == t[pl]);
        assert(text_split(r, d).1 =~= text_split(t, p).1) by {
            assert(r.subrange(pl - el + 1, r.len() as int) =~= t.subrange(pl + 1, t.len() as int));
        }
    }
}

proof fn lemma_replace_common(t: Seq<Seq<u8>>, s: Position, e: Position, x: Seq<Seq<u8>>, p: Position)
    requires
        t.len() >= 1,
        x.len() >= 1,
        in_text(t, s),
        in_text(t, e),
        pos_le(s, e),
    ensures
        apply_ops(t, replace_ops(s, e, x)) == text_concat(text_concat(text_split(t, s).0, x), text_split(t, e).1),
        map_prefix(p, replace_ops(s, e, x), Strategy::InsertBefore, 0) == (
            Position { line_index: 0, byte_index: 0 },
            Length { line_count: p.line_index, byte_count: p.byte_index },
            None::<Position>,
        ),
        replace_ops(s, e, x)[0] == OperationView::Retain(Length { line_count: s.line_index, byte_count: s.byte_index }),
        replace_ops(s, e, x)[1] == OperationView::Delete(pos_sub(e, s)),
        replace_ops(s, e, x)[2] == OperationView::Insert(x),
        replace_ops(s, e, x).len() == 3,
        pos_add(Position { line_index: 0, byte_index: 0 }, Length { line_count: s.line_index, byte_count: s.byte_index }) == s,
        len_pos(Length { line_count: s.line_index, byte_count: s.byte_index }) == s,
        len_pos(Length { line_count: p.line_index, byte_count: p.byte_index }) == p,
{
    lemma_replace_applies(t, s, e, x);
}

#[verifier::rlimit(40)]
proof fn lemma_replace_round_trip_after(t: Seq<Seq<u8>>, s: Position, e: Position, x: Seq<Seq<u8>>, p: Position)
    requires
        t.len() >= 1,
        x.len() >= 1,
        in_text(t, s),
        in_text(t, e),
        in_text(t, p),
        pos_le(s, e),
        pos_le(e, p),
        text_fits(apply_ops(t, replace_ops(s, e, x))),
    ensures
        ({
            let ops = replace_ops(s, e, x);
            let u = apply_ops(t, ops);
            let m = map_position(p, ops, Strategy::InsertBefore);
            in_text(u, m) && text_split(u, m).1 == text_split(t, p).1
        }),
{
    let ops = replace_ops(s, e, x);
    lemma_replace_common(t, s, e, x, p);
    let a0 = text_split(t, s).0;
    let b = text_split(t, e).1;
    let a = text_concat(a0, x);
    let d = len_pos(pos_sub(p, e));
    lemma_split_of_suffix(t, e, p);
    lemma_split_after_concat(a, b, d);
    assert(map_prefix(p, ops, Strategy::InsertBefore, 1) == (s, pos_sub(p, s), None::<Position>));
    assert(pos_le(len_pos(pos_sub(e, s)), len_pos(pos_sub(p, s))));
    assert(pos_sub(len_pos(pos_sub(p, s)), len_pos(pos_sub(e, s))) == pos_sub(p, e));
    assert(map_prefix(p, ops, Strategy::InsertBefore, 2) == (s, pos_sub(p, e), None::<Position>));
    assert(a.len() == s.line_index + x.len());
    assert(a.last().len() == if x.len() == 1 { s.byte_index + x[0].len() } else { x.last().len() as int }) by {
        if x.len() == 1 {
            assert(a.last() == a0.last() + x[0]);
        } else {
            assert(a.last() == x.last());
        }
    }
}

#[verifier::rlimit(40)]
proof fn lemma_replace_round_trip_before(t: Seq<Seq<u8>>, s: Position, e: Position, x: Seq<Seq<u8>>, p: Position)
    requires
        t.len() >= 1,
        x.len() >= 1,
        in_text(t, s),
        in_text(t, e),
        in_text(t, p),
        pos_le(s, e),
        pos_lt(p, s),
    ensures
        ({
            let ops = replace_ops(s, e, x);
            let u = apply_ops(t, ops);
            let m = map_position(p, ops, Strategy::InsertBefore);
            m == p && in_text(u, m) && text_split(u, m).0 == text_split(t, p).0
        }),
{
    let ops = replace_ops(s, e, x);
    lemma_replace_common(t, s, e, x, p);
    let u = apply_ops(t, ops);
    let a0 = text_split(t, s).0;
    let origin = Position { line_index: 0, byte_index: 0 };
    assert(map_prefix(p, ops, Strategy::InsertBefore, 1) == (origin, Length { line_count: p.line_index, byte_count: p.byte_index }, Some(p)));
    lemma_map_prefix_done(p, ops, Strategy::InsertBefore, 1, 3);
    let pl = p.line_index as int;
    let sl = s.line_index as int;
    assert(u[pl].len() >= p.byte_index) by {
        if pl < sl {
            assert(u[pl] == t[pl]);
        } else {
            assert(u[pl].subrange(0, s.byte_index as int) == t[pl].subrange(0, s.byte_index as int)) by {
                assert(a0.last() == t[sl].subrange(0, s.byte_index as int));
            }
        }
    }
    assert(text_split(u, p).0 =~= text_split(t, p).0) by {
        assert(u.subrange(0, pl) =~= t.subrange(0, pl)) by {
            assert forall|i: int| 0 <= i < pl implies u[i] == t[i] by {
                assert(a0[i] == t[i]);
            }
        }
        if pl < sl {
            assert(u[pl] == t[pl]);
        } else {
            assert(u[pl].subrange(0, p.byte_index as int) =~= t[pl].subrange(0, p.byte_index as int)) by {
                assert(a0.last() == t[sl].subrange(0, s.byte_index as int));
                assert(u[pl].subrange(0, s.byte_index as int) =~= a0.last());
            }
        }
    }
}

/// Carrying a position past an edit agrees with the edited text: a position at or
/// after the replaced range is carried to the position in the new text that has the
/// same text after it, and a position before the range keeps its place and the text
/// before it.
pub proof fn lemma_replace_round_trip(t: Seq<Seq<u8>>, s: Position, e: Position, x: Seq<Seq<u8>>, p: Position)
    requires
        t.len() >= 1,
        x.len() >= 1,
        in_text(t, s),
        in_text(t, e),
        in_text(t, p),
        pos_le(s, e),
        text_fits(apply_ops(t, replace_ops(s, e, x))),
    ensures
        ({
            let ops = replace_ops(s, e, x);
            let u = apply_ops(t, ops);
            let m = map_position(p, ops, Strategy::InsertBefore);
            &&& pos_le(e, p) ==> in_text(u, m) && text_split(u, m).1 == text_split(t, p).1
            &&& pos_lt(p, s) ==> m == p && in_text(u, m) && text_split(u, m).0 == text_split(t, p).0
        }),
{
    if pos_le(e, p) {
        lemma_replace_round_trip_after(t, s, e, x, p);
    }
    if pos_lt(p, s) {
        lemma_replace_round_trip_before(t, s, e, x, p);
    }
}

} // verus!
