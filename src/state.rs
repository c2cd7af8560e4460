use vstd::prelude::*;
use vstd::view::View as _;
use crate::block::{Block, BlockInlay};
use crate::layout::{EventKindView, EventView, LayoutEvent, LayoutEventKind, Point, Rect, layout_line, line_events};
use crate::inlay::Size;
use crate::fold::{fold_step, fold_step_exec, unfold_step, unfold_step_exec};
use crate::heights::{
    block_inlays_sorted, first_block_at, lemma_first_block_at, lemma_summed_height_prefix,
    add_block_heights, line_height_of, summed_height,
};
use crate::inlay::{InlineInlay, Settings};
use crate::line::{Line, SCALE_ONE, byte_at_row_column, line_width_of, sat_add64, inlays_wf, inlines_of, row_column_of, wrapped_from};
use crate::inlay::WrappedInlineView;
use crate::position::{Position, Selection, pos_le, pos_lt};
use crate::selections::{
    lemma_reinserted_wf, marked_index, reinsert, reinserted, unmarked,
    cursor_slot, find_cursor_slot, lemma_replace_and_absorb_wf, lemma_with_cursor_added_wf,
    left_stop, replace_and_absorb, right_stop, selections_wf, with_cursor_added,
};
use crate::text::{Text, in_text, lines_view, text_concat, text_length};
use crate::diff::{OperationInfo, OperationView, repair_prefix, repaired, apply_ops, apply_prefix, diff_applies, lemma_apply_prefix_nonempty, lemma_apply_step, lemma_diff_applies_prefix, ops_wf};
use crate::wrap::{wrap_line, wrapped_soft_breaks};
use crate::edit::{LineData, position_after, position_before, EditKind, EditState, edit_bounds, edit_prefix, edit_step, lemma_edit_prefix_step, lemma_replace_applies, move_left, move_right, position_in_text, replace};
use crate::diff::Strategy;

verus! {

/// Identifies an open session.
#[derive(Clone, Copy, Debug, PartialEq, Eq, Structural, Hash)]
pub struct SessionId(usize);

impl SessionId {
    pub closed spec fn spec_index(&self) -> usize {
        self.0
    }
}

/// A document: its text, the inline inlays of each line, and the block inlays
/// ordered by the line they stand before.
#[derive(Debug)]
pub struct Document {
    text: Text,
    inline_inlays: Vec<Vec<(usize, InlineInlay)>>,
    block_inlays: Vec<(usize, BlockInlay)>,
}

/// What one view keeps of a document: per line soft breaks, fold column and scale,
/// the cumulative heights computed so far, the selections and the lines whose fold
/// is animating.
#[derive(Debug)]
pub struct Session {
    document_id: usize,
    soft_breaks: Vec<Vec<usize>>,
    fold_column_index: Vec<usize>,
    scale: Vec<u64>,
    summed_heights: Vec<u64>,
    selections: Vec<Selection>,
    last_added_selection_index: usize,
    folding_lines: Vec<usize>,
    unfolding_lines: Vec<usize>,
}

pub open spec fn soft_breaks_view(s: Seq<Vec<usize>>) -> Seq<Seq<usize>> {
    views(s)
}

/// A list of line indices used as a set: no repeats, every index a line.
pub open spec fn line_set_wf(s: Seq<usize>, n: int) -> bool {
    &&& s.no_duplicates()
    &&& forall|i: int| 0 <= i < s.len() ==> s[i] < n
}

spec fn document_wf(d: &Document) -> bool {
    let n = d.text.spec_lines().len();
    &&& d.text.wf()
    &&& d.inline_inlays@.len() == n
    &&& forall|i: int| 0 <= i < n ==> inlays_wf(#[trigger] d.inline_inlays@[i]@)
    &&& block_inlays_sorted(d.block_inlays@)
    &&& forall|i: int| 0 <= i < d.block_inlays@.len() ==> match (#[trigger] d.block_inlays@[i]).1 {
        BlockInlay::Line(l) => l.wf(),
        BlockInlay::Widget(_) => true,
    }
}

/// The cumulative heights a session has are those of a walk from the first line.
spec fn heights_valid(d: &Document, s: &Session) -> bool {
    &&& s.summed_heights@.len() <= d.text.spec_lines().len()
    &&& forall|j: int| 0 <= j < s.summed_heights@.len() ==> #[trigger] s.summed_heights@[j] == summed_height(
        s.scale@,
        s.soft_breaks@,
        d.block_inlays@,
        j,
    )
}

spec fn session_wf(d: &Document, s: &Session) -> bool {
    let n = d.text.spec_lines().len() as int;
    &&& document_wf(d)
    &&& s.soft_breaks@.len() == n
    &&& s.fold_column_index@.len() == n
    &&& s.scale@.len() == n
    &&& forall|i: int| 0 <= i < n ==> #[trigger] s.scale@[i] <= SCALE_ONE
    &&& heights_valid(d, s)
    &&& selections_wf(s.selections@)
    &&& s.last_added_selection_index < s.selections@.len()
    &&& line_set_wf(s.folding_lines@, n)
    &&& line_set_wf(s.unfolding_lines@, n)
    &&& forall|i: int| 0 <= i < s.folding_lines@.len() ==> !s.unfolding_lines@.contains(#[trigger] s.folding_lines@[i])
}

/// All sessions, each bound to one document, and the shared settings.
#[derive(Debug)]
pub struct State {
    settings: Settings,
    sessions: Vec<Session>,
    documents: Vec<Document>,
}

impl State {
    pub closed spec fn wf(&self) -> bool {
        forall|i: int| 0 <= i < self.sessions@.len() ==> {
            &&& (#[trigger] self.sessions@[i]).document_id < self.documents@.len()
            &&& session_wf(&self.documents@[self.sessions@[i].document_id as int], &self.sessions@[i])
            &&& self.sessions@[i].summed_heights@.len() == self.documents@[self.sessions@[i].document_id as int].text.spec_lines().len()
        }
    }

    pub closed spec fn session_count(&self) -> nat {
        self.sessions@.len()
    }

    /// The lines of the document that session `i` shows.
    pub closed spec fn session_lines(&self, i: int) -> Seq<Seq<u8>> {
        self.documents@[self.sessions@[i].document_id as int].text.spec_lines()
    }

    pub closed spec fn session_selections(&self, i: int) -> Seq<Selection> {
        self.sessions@[i].selections@
    }

    pub closed spec fn session_scale(&self, i: int) -> Seq<u64> {
        self.sessions@[i].scale@
    }

    pub closed spec fn session_soft_breaks(&self, i: int) -> Seq<Seq<usize>> {
        soft_breaks_view(self.sessions@[i].soft_breaks@)
    }

    pub closed spec fn session_fold_columns(&self, i: int) -> Seq<usize> {
        self.sessions@[i].fold_column_index@
    }

    pub closed spec fn session_inline_inlays(&self, i: int) -> Seq<Seq<(usize, InlineInlay)>> {
        views(self.documents@[self.sessions@[i].document_id as int].inline_inlays@)
    }

    pub closed spec fn session_block_inlays(&self, i: int) -> Seq<(usize, BlockInlay)> {
        self.documents@[self.sessions@[i].document_id as int].block_inlays@
    }

    pub closed spec fn session_last_added(&self, i: int) -> usize {
        self.sessions@[i].last_added_selection_index
    }

    pub closed spec fn session_folding_lines(&self, i: int) -> Seq<usize> {
        self.sessions@[i].folding_lines@
    }

    pub closed spec fn session_unfolding_lines(&self, i: int) -> Seq<usize> {
        self.sessions@[i].unfolding_lines@
    }

    pub closed spec fn spec_settings(&self) -> Settings {
        self.settings
    }

    /// A state with no sessions and tabs four columns wide.
    pub fn new() -> (r: State)
        ensures
            r.wf(),
            r.session_count() == 0,
            r.spec_settings().tab_column_count == 4,
    {
        State::with_settings(Settings { tab_column_count: 4 })
    }

    pub fn with_settings(settings: Settings) -> (r: State)
        ensures
            r.wf(),
            r.session_count() == 0,
            r.spec_settings() == settings,
    {
        State { settings, sessions: Vec::new(), documents: Vec::new() }
    }

    pub fn settings(&self) -> (r: &Settings)
        ensures
            *r == self.spec_settings(),
    {
        &self.settings
    }

    /// Opens a new document holding `text` and a session on it; the session has one
    /// cursor at the origin, no soft breaks, full scales and all heights computed.
    pub fn open_session(&mut self, text: Text) -> (r: SessionId)
        requires
            old(self).wf(),
            text.wf(),
        ensures
            final(self).wf(),
            final(self).session_count() == old(self).session_count() + 1,
            r.spec_index() == old(self).session_count(),
            final(self).session_lines(r.spec_index() as int) == text.spec_lines(),
            final(self).session_selections(r.spec_index() as int)
                == seq![Selection { anchor: Position { line_index: 0, byte_index: 0 }, cursor: Position { line_index: 0, byte_index: 0 }, column_index: None }],
            final(self).session_scale(r.spec_index() as int) == Seq::new(text.spec_lines().len(), |i: int| SCALE_ONE),
            final(self).session_soft_breaks(r.spec_index() as int) == Seq::new(text.spec_lines().len(), |i: int| Seq::<usize>::empty()),
            final(self).session_fold_columns(r.spec_index() as int) == Seq::new(text.spec_lines().len(), |i: int| 0usize),
            final(self).session_inline_inlays(r.spec_index() as int) == Seq::new(text.spec_lines().len(), |i: int| Seq::<(usize, InlineInlay)>::empty()),
            final(self).session_block_inlays(r.spec_index() as int) == Seq::<(usize, BlockInlay)>::empty(),
            final(self).session_last_added(r.spec_index() as int) == 0,
            final(self).session_folding_lines(r.spec_index() as int) == Seq::<usize>::empty(),
            final(self).session_unfolding_lines(r.spec_index() as int) == Seq::<usize>::empty(),
            forall|i: int| 0 <= i < old(self).session_count() ==> {
                &&& final(self).session_lines(i) == old(self).session_lines(i)
                &&& final(self).session_selections(i) == old(self).session_selections(i)
                &&& final(self).session_scale(i) == old(self).session_scale(i)
                &&& final(self).session_soft_breaks(i) == old(self).session_soft_breaks(i)
                &&& final(self).session_fold_columns(i) == old(self).session_fold_columns(i)
                &&& final(self).session_inline_inlays(i) == old(self).session_inline_inlays(i)
                &&& final(self).session_last_added(i) == old(self).session_last_added(i)
                &&& final(self).session_folding_lines(i) == old(self).session_folding_lines(i)
                &&& final(self).session_unfolding_lines(i) == old(self).session_unfolding_lines(i)
            },
    {
        let n = text.line_count();
        let mut inline_inlays: Vec<Vec<(usize, InlineInlay)>> = Vec::new();
        let mut soft_breaks: Vec<Vec<usize>> = Vec::new();
        let mut fold_column_index: Vec<usize> = Vec::new();
        let mut scale: Vec<u64> = Vec::new();
        let mut i: usize = 0;
        while i < n
            invariant
                i <= n,
                n == text.spec_lines().len(),
                inline_inlays@.len() == i,
                soft_breaks@.len() == i,
                fold_column_index@.len() == i,
                scale@.len() == i,
                forall|j: int| 0 <= j < i ==> (#[trigger] inline_inlays@[j])@.len() == 0,
                forall|j: int| 0 <= j < i ==> (#[trigger] soft_breaks@[j])@.len() == 0,
                forall|j: int| 0 <= j < i ==> #[trigger] scale@[j] == SCALE_ONE,
                forall|j: int| 0 <= j < i ==> #[trigger] fold_column_index@[j] == 0,
            decreases n - i,
        {
            inline_inlays.push(Vec::new());
            soft_breaks.push(Vec::new());
            fold_column_index.push(0);
            scale.push(SCALE_ONE);
            i += 1;
        }
        let document = Document { text, inline_inlays, block_inlays: Vec::new() };
        let mut selections: Vec<Selection> = Vec::new();
        selections.push(Selection::from_cursor(Position::origin()));
        let mut session = Session {
            document_id: self.documents.len(),
            soft_breaks,
            fold_column_index,
            scale,
            summed_heights: Vec::new(),
            selections,
            last_added_selection_index: 0,
            folding_lines: Vec::new(),
            unfolding_lines: Vec::new(),
        };
        proof {
            assert forall|i: int| 0 <= i < n implies inlays_wf(#[trigger] document.inline_inlays@[i]@) by {}
        }
        update_summed_heights(&document, &mut session);
        proof {
            assert(session.scale@ =~= Seq::new(n as nat, |i: int| SCALE_ONE));
            assert(session.fold_column_index@ =~= Seq::new(n as nat, |i: int| 0usize));
            assert(session.folding_lines@ =~= Seq::<usize>::empty());
            assert(session.unfolding_lines@ =~= Seq::<usize>::empty());
            assert forall|j: int| 0 <= j < n implies views(document.inline_inlays@)[j] == Seq::<(usize, InlineInlay)>::empty() by {
                assert(views(document.inline_inlays@)[j] =~= Seq::<(usize, InlineInlay)>::empty());
            }
            assert(views(document.inline_inlays@) =~= Seq::new(n as nat, |i: int| Seq::<(usize, InlineInlay)>::empty()));
            assert(document.block_inlays@ =~= Seq::<(usize, BlockInlay)>::empty());
            assert forall|j: int| 0 <= j < n implies soft_breaks_view(session.soft_breaks@)[j] == Seq::<usize>::empty() by {
                assert(soft_breaks_view(session.soft_breaks@)[j] =~= Seq::<usize>::empty());
            }
            assert(soft_breaks_view(session.soft_breaks@) =~= Seq::new(n as nat, |i: int| Seq::<usize>::empty()));
            assert(session.selections@ =~= seq![Selection { anchor: Position { line_index: 0, byte_index: 0 }, cursor: Position { line_index: 0, byte_index: 0 }, column_index: None }]);
        }
        let id = self.sessions.len();
        self.documents.push(document);
        self.sessions.push(session);
        proof {
            assert forall|i: int| 0 <= i < self.sessions@.len() implies {
                &&& (#[trigger] self.sessions@[i]).document_id < self.documents@.len()
                &&& session_wf(&self.documents@[self.sessions@[i].document_id as int], &self.sessions@[i])
                &&& self.sessions@[i].summed_heights@.len() == self.documents@[self.sessions@[i].document_id as int].text.spec_lines().len()
            } by {
                if i < id {
                    assert(old(self).sessions@[i] == self.sessions@[i]);
                    assert(old(self).documents@[self.sessions@[i].document_id as int]
                        == self.documents@[self.sessions@[i].document_id as int]);
                }
            }
        }
        SessionId(id)
    }

    /// Read-only access to a session and its document.
    pub fn view(&self, session_id: SessionId) -> (r: View<'_>)
        requires
            self.wf(),
            session_id.spec_index() < self.session_count(),
        ensures
            r.wf(),
            r.complete(),
            r.text_lines() == self.session_lines(session_id.spec_index() as int),
            r.spec_selections() == self.session_selections(session_id.spec_index() as int),
            r.scale() == self.session_scale(session_id.spec_index() as int),
            r.soft_breaks() == self.session_soft_breaks(session_id.spec_index() as int),
    {
        let session = &self.sessions[session_id.0];
        let document = &self.documents[session.document_id];
        View { settings: &self.settings, document, session }
    }

    /// Exclusive access to a session and its document.
    pub fn view_mut(&mut self, session_id: SessionId) -> (r: ViewMut<'_>)
        requires
            old(self).wf(),
            session_id.spec_index() < old(self).session_count(),
        ensures
            r.settled(),
            ({
                let i = session_id.spec_index() as int;
                &&& r.lines() == old(self).session_lines(i)
                &&& r.selections() == old(self).session_selections(i)
                &&& r.last_added_selection_index() == old(self).session_last_added(i)
                &&& r.scale() == old(self).session_scale(i)
                &&& r.soft_breaks() == old(self).session_soft_breaks(i)
                &&& r.fold_column_indices() == old(self).session_fold_columns(i)
                &&& r.inline_inlays() == old(self).session_inline_inlays(i)
                &&& r.block_inlays() == old(self).session_block_inlays(i)
                &&& r.folding_lines() == old(self).session_folding_lines(i)
                &&& r.unfolding_lines() == old(self).session_unfolding_lines(i)
            }),
    {
        let settings = &self.settings;
        let session = &mut self.sessions[session_id.0];
        let document = &mut self.documents[session.document_id];
        let r = ViewMut { settings, document, session };
        proof {
            r.lemma_complete_heights();
        }
        r
    }
}

/// Recomputes the cumulative heights that are missing, from the first missing line to
/// the last, walking lines and the block inlays that stand before them.
fn update_summed_heights(document: &Document, session: &mut Session)
    requires
        document_wf(document),
        session_wf(document, old(session)) || ({
            &&& document_wf(document)
            &&& old(session).soft_breaks@.len() == document.text.spec_lines().len()
            &&& old(session).scale@.len() == document.text.spec_lines().len()
            &&& heights_valid(document, old(session))
        }),
    ensures
        final(session).summed_heights@.len() == document.text.spec_lines().len(),
        heights_valid(document, final(session)),
        final(session).soft_breaks == old(session).soft_breaks,
        final(session).scale == old(session).scale,
        final(session).fold_column_index == old(session).fold_column_index,
        final(session).selections == old(session).selections,
        final(session).last_added_selection_index == old(session).last_added_selection_index,
        final(session).folding_lines == old(session).folding_lines,
        final(session).unfolding_lines == old(session).unfolding_lines,
        final(session).document_id == old(session).document_id,
        old(session).summed_heights@.len() == document.text.spec_lines().len()
            ==> final(session).summed_heights == old(session).summed_heights,
{
    let lines = document.text.as_lines();
    let n = lines.len();
    let start = session.summed_heights.len();
    let ghost bi = document.block_inlays@;
    let ghost scale = session.scale@;
    let ghost sb = session.soft_breaks@;
    proof {
        lemma_first_block_at(bi, start as int);
    }
    let mut acc: u64 = if start == 0 { 0 } else { session.summed_heights[start - 1] };
    let mut k: usize = 0;
    while k < document.block_inlays.len() && document.block_inlays[k].0 < start
        invariant
            bi == document.block_inlays@,
            block_inlays_sorted(bi),
            k <= first_block_at(bi, start as int),
            forall|j: int| 0 <= j < bi.len() ==> (j < first_block_at(bi, start as int) <==> bi[j].0 < start),
        decreases bi.len() - k,
    {
        k += 1;
    }
    let mut i: usize = start;
    while i < n
        invariant
            document_wf(document),
            n == document.text.spec_lines().len(),
            bi == document.block_inlays@,
            scale == session.scale@,
            sb == session.soft_breaks@,
            scale.len() == n,
            sb.len() == n,
            lines_view(lines@) == document.text.spec_lines(),
            lines@.len() == n,
            start <= i <= n,
            session.summed_heights@.len() == i,
            k == first_block_at(bi, i as int),
            acc == (if i == 0 { 0 } else { summed_height(scale, sb, bi, i - 1) }),
            forall|j: int| 0 <= j < i ==> #[trigger] session.summed_heights@[j] == summed_height(scale, sb, bi, j),
            session.soft_breaks == old(session).soft_breaks,
            session.scale == old(session).scale,
            session.fold_column_index == old(session).fold_column_index,
            session.selections == old(session).selections,
            session.last_added_selection_index == old(session).last_added_selection_index,
            session.folding_lines == old(session).folding_lines,
            session.unfolding_lines == old(session).unfolding_lines,
            session.document_id == old(session).document_id,
            start == n ==> session.summed_heights == old(session).summed_heights,
        decreases n - i,
    {
        proof {
            lemma_first_block_at(bi, i as int);
            lemma_first_block_at(bi, i as int + 1);
            if first_block_at(bi, i as int) > first_block_at(bi, i as int + 1) {
                let j = first_block_at(bi, i as int + 1);
                assert(bi[j].0 < i);
            }
        }
        let ghost k0 = k;
        let ghost acc0 = acc;
        while k < document.block_inlays.len() && document.block_inlays[k].0 == i
            invariant
                document_wf(document),
                bi == document.block_inlays@,
                k0 <= k <= first_block_at(bi, i as int + 1),
                k0 == first_block_at(bi, i as int),
                forall|j: int| 0 <= j < bi.len() ==> (j < first_block_at(bi, i as int + 1) <==> bi[j].0 < i + 1),
                acc == add_block_heights(acc0 as int, bi.subrange(k0 as int, k as int)),
            decreases bi.len() - k,
        {
            proof {
                assert(bi.subrange(k0 as int, k + 1).drop_last() =~= bi.subrange(k0 as int, k as int));
                match document.block_inlays@[k as int].1 {
                    BlockInlay::Line(l) => {},
                    BlockInlay::Widget(_) => {},
                }
            }
            acc = acc.saturating_add(document.block_inlays[k].1.height());
            k += 1;
        }
        let line = Line {
            text: lines[i].as_slice(),
            inline_inlays: document.inline_inlays[i].as_slice(),
            soft_breaks: session.soft_breaks[i].as_slice(),
            fold_column_index: 0,
            scale: session.scale[i],
        };
        acc = acc.saturating_add(line.height());
        proof {
            assert(line.spec_height() == line_height_of(scale, sb, i as int));
            assert(acc == summed_height(scale, sb, bi, i as int));
        }
        session.summed_heights.push(acc);
        i += 1;
    }
}


/// Removes `x` from a list used as a set.
fn remove_line(v: &mut Vec<usize>, x: usize)
    requires
        old(v)@.no_duplicates(),
    ensures
        final(v)@.no_duplicates(),
        forall|y: usize| final(v)@.contains(y) <==> (old(v)@.contains(y) && y != x),
{
    let mut i: usize = 0;
    while i < v.len()
        invariant
            i <= v@.len(),
            v@.no_duplicates(),
            forall|j: int| 0 <= j < i ==> v@[j] != x,
            forall|y: usize| v@.contains(y) <==> (old(v)@.contains(y)),
        decreases v@.len() - i,
    {
        if v[i] == x {
            let ghost before = v@;
            v.remove(i);
            proof {
                assert forall|a: int, b: int| 0 <= a < b < v@.len() implies v@[a] != v@[b] by {
                    let a2 = if a < i { a } else { a + 1 };
                    let b2 = if b < i { b } else { b + 1 };
                    assert(v@[a] == before[a2] && v@[b] == before[b2]);
                }
                assert(v@.no_duplicates());
                assert forall|y: usize| v@.contains(y) <==> (old(v)@.contains(y) && y != x) by {
                    if v@.contains(y) {
                        let k = choose|k: int| 0 <= k < v@.len() && v@[k] == y;
                        if k < i {
                            assert(before[k] == y);
                        } else {
                            assert(before[k + 1] == y);
                        }
                    }
                    if old(v)@.contains(y) && y != x {
                        let k = choose|k: int| 0 <= k < before.len() && before[k] == y;
                        if k < i {
                            assert(v@[k] == y);
                        } else {
                            assert(v@[k - 1] == y);
                        }
                    }
                }
            }
            return;
        }
        i += 1;
    }
}

/// Adds `x` to a list used as a set.
fn insert_line(v: &mut Vec<usize>, x: usize)
    requires
        old(v)@.no_duplicates(),
    ensures
        final(v)@.no_duplicates(),
        forall|y: usize| final(v)@.contains(y) <==> (old(v)@.contains(y) || y == x),
{
    let mut i: usize = 0;
    while i < v.len() && v[i] != x
        invariant
            i <= v@.len(),
            v@ == old(v)@,
            forall|j: int| 0 <= j < i ==> v@[j] != x,
        decreases v@.len() - i,
    {
        i += 1;
    }
    if i == v.len() {
        v.push(x);
        proof {
            assert forall|a: int, b: int| 0 <= a < b < v@.len() implies v@[a] != v@[b] by {
                if b == old(v)@.len() {
                    assert(old(v)@[a] != x);
                }
            }
            assert forall|y: usize| v@.contains(y) <==> (old(v)@.contains(y) || y == x) by {
                if v@.contains(y) {
                    let k = choose|k: int| 0 <= k < v@.len() && v@[k] == y;
                    if k < old(v)@.len() {
                        assert(old(v)@[k] == y);
                    }
                }
                if old(v)@.contains(y) {
                    let k = choose|k: int| 0 <= k < old(v)@.len() && old(v)@[k] == y;
                    assert(v@[k] == y);
                }
                if y == x {
                    assert(v@[old(v)@.len() as int] == y);
                }
            }
        }
    } else {
        proof {
            assert forall|y: usize| v@.contains(y) <==> (old(v)@.contains(y) || y == x) by {
                if y == x {
                    assert(v@[i as int] == y);
                }
            }
        }
    }
}

/// One animation step for each line of `lines`: its scale takes a folding (or
/// unfolding) step and the cached heights from it on are dropped. Returns the lines
/// whose scale has not yet arrived.
fn step_lines(
    scale: &mut Vec<u64>,
    summed_heights: &mut Vec<u64>,
    lines: &Vec<usize>,
    unfolding: bool,
    Ghost(sb): Ghost<Seq<Vec<usize>>>,
    Ghost(bi): Ghost<Seq<(usize, BlockInlay)>>,
) -> (r: Vec<usize>)
    requires
        line_set_wf(lines@, old(scale)@.len() as int),
        sb.len() == old(scale)@.len(),
        forall|i: int| 0 <= i < old(scale)@.len() ==> #[trigger] old(scale)@[i] <= SCALE_ONE,
        old(summed_heights)@.len() <= old(scale)@.len(),
        forall|j: int| 0 <= j < old(summed_heights)@.len() ==> #[trigger] old(summed_heights)@[j]
            == summed_height(old(scale)@, sb, bi, j),
    ensures
        final(scale)@.len() == old(scale)@.len(),
        forall|i: int| 0 <= i < final(scale)@.len() ==> #[trigger] final(scale)@[i] == if lines@.contains(i as usize) {
            if unfolding { unfold_step(old(scale)@[i]) } else { fold_step(old(scale)@[i]) }
        } else {
            old(scale)@[i]
        },
        forall|i: int| 0 <= i < final(scale)@.len() ==> #[trigger] final(scale)@[i] <= SCALE_ONE,
        final(summed_heights)@.len() <= old(summed_heights)@.len(),
        forall|j: int| 0 <= j < final(summed_heights)@.len() ==> #[trigger] final(summed_heights)@[j]
            == summed_height(final(scale)@, sb, bi, j),
        line_set_wf(r@, old(scale)@.len() as int),
        forall|y: usize| r@.contains(y) <==> (lines@.contains(y) && final(scale)@[y as int] != if unfolding { SCALE_ONE } else { 0 }),
{
    let ghost s0 = scale@;
    let n = scale.len();
    let mut out: Vec<usize> = Vec::new();
    let mut k: usize = 0;
    while k < lines.len()
        invariant
            n == s0.len(),
            k <= lines@.len(),
            line_set_wf(lines@, s0.len() as int),
            scale@.len() == s0.len(),
            sb.len() == s0.len(),
            forall|i: int| 0 <= i < s0.len() ==> #[trigger] s0[i] <= SCALE_ONE,
            forall|i: int| 0 <= i < scale@.len() ==> #[trigger] scale@[i] == if lines@.subrange(0, k as int).contains(i as usize) {
                if unfolding { unfold_step(s0[i]) } else { fold_step(s0[i]) }
            } else {
                s0[i]
            },
            forall|i: int| 0 <= i < scale@.len() ==> #[trigger] scale@[i] <= SCALE_ONE,
            summed_heights@.len() <= s0.len(),
            summed_heights@.len() <= old(summed_heights)@.len(),
            forall|j: int| 0 <= j < summed_heights@.len() ==> #[trigger] summed_heights@[j]
                == summed_height(scale@, sb, bi, j),
            out@.no_duplicates(),
            forall|i: int| 0 <= i < out@.len() ==> out@[i] < s0.len(),
            forall|y: usize| out@.contains(y) <==> (lines@.subrange(0, k as int).contains(y) && scale@[y as int] != if unfolding { SCALE_ONE } else { 0 }),
        decreases lines@.len() - k,
    {
        let line = lines[k];
        let ghost prev_scale = scale@;
        let ghost pre = lines@.subrange(0, k as int);
        let ghost post = lines@.subrange(0, k + 1);
        proof {
            assert(post =~= pre.push(line));
            assert(!pre.contains(line)) by {
                if pre.contains(line) {
                    let q = choose|q: int| 0 <= q < pre.len() && pre[q] == line;
                    assert(lines@[q] == lines@[k as int]);
                }
            }
            assert forall|y: usize| post.contains(y) <==> (pre.contains(y) || y == line) by {
                if post.contains(y) {
                    let q = choose|q: int| 0 <= q < post.len() && post[q] == y;
                    if q < pre.len() {
                        assert(pre[q] == y);
                    }
                }
                if pre.contains(y) {
                    let q = choose|q: int| 0 <= q < pre.len() && pre[q] == y;
                    assert(post[q] == y);
                }
                if y == line {
                    assert(post[k as int] == y);
                }
            }
        }
        proof {
            assert(prev_scale[line as int] == s0[line as int]);
        }
        let s = if unfolding { unfold_step_exec(scale[line]) } else { fold_step_exec(scale[line]) };
        scale.set(line, s);
        let arrived = if unfolding { s == SCALE_ONE } else { s == 0 };
        let ghost old_out = out@;
        let ghost target: u64 = if unfolding { SCALE_ONE } else { 0 };
        proof {
            assert(!old_out.contains(line));
            assert forall|y: usize| old_out.contains(y) <==> (pre.contains(y) && prev_scale[y as int] != target) by {}
        }
        if !arrived {
            out.push(line);
        }
        if line < summed_heights.len() {
            summed_heights.truncate(line);
        }
        proof {
            assert forall|j: int| 0 <= j < summed_heights@.len() implies #[trigger] summed_heights@[j]
                == summed_height(scale@, sb, bi, j) by {
                lemma_summed_height_prefix(prev_scale, sb, scale@, sb, bi, j);
            }
            assert forall|y: usize| out@.contains(y) <==> (old_out.contains(y) || (!arrived && y == line)) by {
                if out@.contains(y) {
                    let q = choose|q: int| 0 <= q < out@.len() && out@[q] == y;
                    if q < old_out.len() {
                        assert(old_out[q] == y);
                    }
                }
                if old_out.contains(y) {
                    let q = choose|q: int| 0 <= q < old_out.len() && old_out[q] == y;
                    assert(out@[q] == y);
                }
                if !arrived && y == line {
                    assert(out@[old_out.len() as int] == y);
                }
            }
            assert forall|y: usize| out@.contains(y) <==> (post.contains(y) && scale@[y as int] != target) by {
                if y != line {
                    if post.contains(y) || old_out.contains(y) {
                        assert(prev_scale[y as int] == scale@[y as int]);
                    }
                } else {
                    assert(post.contains(y));
                    assert(scale@[y as int] == s);
                }
            }
            assert forall|i: int| 0 <= i < scale@.len() implies #[trigger] scale@[i] == if post.contains(i as usize) {
                if unfolding { unfold_step(s0[i]) } else { fold_step(s0[i]) }
            } else {
                s0[i]
            } by {
                assert(post.contains(i as usize) <==> (pre.contains(i as usize) || i as usize == line));
                if i != line as int {
                    assert(scale@[i] == prev_scale[i]);
                    assert(prev_scale[i] == if pre.contains(i as usize) {
                        if unfolding { unfold_step(s0[i]) } else { fold_step(s0[i]) }
                    } else {
                        s0[i]
                    });
                }
            }
            assert forall|a: int, b: int| 0 <= a < b < out@.len() implies out@[a] != out@[b] by {
                if b == old_out.len() {
                    assert(old_out.contains(out@[a]));
                }
            }
        }
        k += 1;
    }
    proof {
        assert(lines@.subrange(0, lines@.len() as int) =~= lines@);
    }
    out
}

/// Elements of the fold sets stay lines, and the two sets stay apart, when every
/// element of the new sets was in one of the old ones and no line is in both.
proof fn lemma_line_sets(f: Seq<usize>, u: Seq<usize>, f0: Seq<usize>, u0: Seq<usize>, x: usize, n: int)
    requires
        f.no_duplicates(),
        u.no_duplicates(),
        x < n,
        forall|y: usize| f.contains(y) ==> (f0.contains(y) || u0.contains(y) || y == x),
        forall|y: usize| u.contains(y) ==> (f0.contains(y) || u0.contains(y) || y == x),
        line_set_wf(f0, n),
        line_set_wf(u0, n),
        forall|y: usize| !(f.contains(y) && u.contains(y)),
    ensures
        line_set_wf(f, n),
        line_set_wf(u, n),
        forall|i: int| 0 <= i < f.len() ==> !u.contains(#[trigger] f[i]),
{
    assert forall|i: int| 0 <= i < f.len() implies f[i] < n by {
        assert(f.contains(f[i]));
        if f0.contains(f[i]) {
            let q = choose|q: int| 0 <= q < f0.len() && f0[q] == f[i];
        } else if u0.contains(f[i]) {
            let q = choose|q: int| 0 <= q < u0.len() && u0[q] == f[i];
        }
    }
    assert forall|i: int| 0 <= i < u.len() implies u[i] < n by {
        assert(u.contains(u[i]));
        if f0.contains(u[i]) {
            let q = choose|q: int| 0 <= q < f0.len() && f0[q] == u[i];
        } else if u0.contains(u[i]) {
            let q = choose|q: int| 0 <= q < u0.len() && u0[q] == u[i];
        }
    }
    assert forall|i: int| 0 <= i < f.len() implies !u.contains(#[trigger] f[i]) by {
        assert(f.contains(f[i]));
    }
}


/// Removes `count` elements from index `start` on.
fn remove_range<T>(v: &mut Vec<T>, start: usize, count: usize)
    requires
        start + count <= old(v)@.len(),
    ensures
        final(v)@ == old(v)@.subrange(0, start as int) + old(v)@.subrange(start + count, old(v)@.len() as int),
{
    let ghost v0 = v@;
    let mut i: usize = 0;
    while i < count
        invariant
            i <= count,
            start + count <= v0.len(),
            v@ == v0.subrange(0, start as int) + v0.subrange(start + i, v0.len() as int),
        decreases count - i,
    {
        v.remove(start);
        i += 1;
        proof {
            assert(v@ =~= v0.subrange(0, start as int) + v0.subrange(start + i, v0.len() as int));
        }
    }
}

/// Inserts `count` copies of `x` at index `at`.
fn insert_copies<T: Copy>(v: &mut Vec<T>, at: usize, count: usize, x: T)
    requires
        at <= old(v)@.len(),
    ensures
        final(v)@ == old(v)@.subrange(0, at as int) + Seq::new(count as nat, |j: int| x) + old(v)@.subrange(at as int, old(v)@.len() as int),
{
    let ghost v0 = v@;
    let mut i: usize = 0;
    while i < count
        invariant
            i <= count,
            at <= v0.len(),
            v@ == v0.subrange(0, at as int) + Seq::new(i as nat, |j: int| x) + v0.subrange(at as int, v0.len() as int),
        decreases count - i,
    {
        v.insert(at, x);
        i += 1;
        proof {
            assert(v@ =~= v0.subrange(0, at as int) + Seq::new(i as nat, |j: int| x) + v0.subrange(at as int, v0.len() as int));
        }
    }
}

/// The contents of each vector of a list.
pub open spec fn views<U>(s: Seq<Vec<U>>) -> Seq<Seq<U>> {
    s.map_values(|w: Vec<U>| w@)
}

/// Inserts `count` empty vectors at index `at`.
fn insert_empty<U>(v: &mut Vec<Vec<U>>, at: usize, count: usize)
    requires
        at <= old(v)@.len(),
    ensures
        views(final(v)@) == views(old(v)@).subrange(0, at as int) + Seq::new(count as nat, |j: int| Seq::<U>::empty())
            + views(old(v)@).subrange(at as int, old(v)@.len() as int),
{
    let ghost v0 = views(v@);
    let mut i: usize = 0;
    while i < count
        invariant
            i <= count,
            at <= v0.len(),
            v@.len() == v0.len() + i,
            views(v@) == v0.subrange(0, at as int) + Seq::new(i as nat, |j: int| Seq::<U>::empty())
                + v0.subrange(at as int, v0.len() as int),
        decreases count - i,
    {
        let ghost before = v@;
        v.insert(at, Vec::new());
        i += 1;
        proof {
            let target = v0.subrange(0, at as int) + Seq::new(i as nat, |j: int| Seq::<U>::empty())
                + v0.subrange(at as int, v0.len() as int);
            let prev = views(before);
            let vv = views(v@);
            assert forall|j: int| 0 <= j < vv.len() implies #[trigger] vv[j] == target[j] by {
                if j < at {
                    assert(v@[j] == before[j]);
                    assert(prev[j] == target[j]);
                } else if j == at {
                    assert(vv[j] =~= Seq::<U>::empty());
                } else {
                    assert(v@[j] == before[j - 1]);
                    assert(prev[j - 1] == target[j]);
                }
            }
            assert(vv =~= target);
        }
    }
}

/// Brings the per-line arrays in step with a text that the operations `infos`
/// (whose full form is `ops`) changed from `t0`: deleted lines lose their entries,
/// inserted lines get fresh ones (no inlays, no soft breaks, fold column 0, full
/// scale), every other entry keeps its order, and the cached heights are cut where
/// lines changed.
fn repair_lines(
    inline_inlays: &mut Vec<Vec<(usize, InlineInlay)>>,
    soft_breaks: &mut Vec<Vec<usize>>,
    fold_column_index: &mut Vec<usize>,
    scale: &mut Vec<u64>,
    summed_heights: &mut Vec<u64>,
    infos: &Vec<OperationInfo>,
    Ghost(t0): Ghost<Seq<Seq<u8>>>,
    Ghost(ops): Ghost<Seq<OperationView>>,
)
    requires
        t0.len() >= 1,
        ops_wf(ops),
        diff_applies(t0, ops),
        infos@.len() == ops.len(),
        forall|i: int| 0 <= i < ops.len() ==> match #[trigger] ops[i] {
            OperationView::Retain(l) => infos@[i] == OperationInfo::Retain(l),
            OperationView::Delete(l) => infos@[i] == OperationInfo::Delete(l),
            OperationView::Insert(x) => infos@[i] == OperationInfo::Insert(text_length(x)),
        },
        old(inline_inlays)@.len() == t0.len(),
        old(soft_breaks)@.len() == t0.len(),
        old(fold_column_index)@.len() == t0.len(),
        old(scale)@.len() == t0.len(),
        forall|j: int| 0 <= j < t0.len() ==> inlays_wf(#[trigger] old(inline_inlays)@[j]@),
        forall|j: int| 0 <= j < t0.len() ==> #[trigger] old(scale)@[j] <= SCALE_ONE,
        old(summed_heights)@.len() <= t0.len(),
    ensures
        ({
            let n = apply_ops(t0, ops).len();
            &&& final(inline_inlays)@.len() == n
            &&& final(soft_breaks)@.len() == n
            &&& final(fold_column_index)@.len() == n
            &&& final(scale)@.len() == n
            &&& forall|j: int| 0 <= j < n ==> inlays_wf(#[trigger] final(inline_inlays)@[j]@)
            &&& forall|j: int| 0 <= j < n ==> #[trigger] final(scale)@[j] <= SCALE_ONE
            &&& final(summed_heights)@.len() <= n
        }),
        views(final(inline_inlays)@) == repaired(views(old(inline_inlays)@), t0, ops, Seq::empty()),
        views(final(soft_breaks)@) == repaired(views(old(soft_breaks)@), t0, ops, Seq::empty()),
        final(fold_column_index)@ == repaired(old(fold_column_index)@, t0, ops, 0usize),
        final(scale)@ == repaired(old(scale)@, t0, ops, SCALE_ONE),
        final(summed_heights)@.len() <= old(summed_heights)@.len(),
        forall|j: int| 0 <= j < final(summed_heights)@.len() ==> #[trigger] final(summed_heights)@[j] == old(summed_heights)@[j],
        forall|j: int| 0 <= j < final(summed_heights)@.len() ==> #[trigger] final(scale)@[j] == old(scale)@[j],
        forall|j: int| 0 <= j < final(summed_heights)@.len() ==> (#[trigger] final(soft_breaks)@[j])@.len() == old(soft_breaks)@[j]@.len(),
{
    let ghost inl0 = inline_inlays@;
    let ghost sb0 = soft_breaks@;
    let ghost fci0 = fold_column_index@;
    let ghost scale0 = scale@;
    let ghost sh0 = summed_heights@;
    let mut line: usize = 0;
    let mut k: usize = 0;
    proof {
        assert(apply_prefix(t0, ops, 0).0.len() == 1);
    }
    while k < infos.len()
        invariant
            t0.len() >= 1,
            ops_wf(ops),
            diff_applies(t0, ops),
            infos@.len() == ops.len(),
            forall|i: int| 0 <= i < ops.len() ==> match #[trigger] ops[i] {
                OperationView::Retain(l) => infos@[i] == OperationInfo::Retain(l),
                OperationView::Delete(l) => infos@[i] == OperationInfo::Delete(l),
                OperationView::Insert(x) => infos@[i] == OperationInfo::Insert(text_length(x)),
            },
            k <= infos@.len(),
            ({
                let (o, r, _) = apply_prefix(t0, ops, k as int);
                &&& line == o.len() - 1
                &&& scale@.len() == o.len() + r.len() - 1
            }),
            views(inline_inlays@) == repair_prefix(views(inl0), t0, ops, Seq::empty(), k as int),
            views(soft_breaks@) == repair_prefix(views(sb0), t0, ops, Seq::empty(), k as int),
            fold_column_index@ == repair_prefix(fci0, t0, ops, 0usize, k as int),
            scale@ == repair_prefix(scale0, t0, ops, SCALE_ONE, k as int),
            inline_inlays@.len() == scale@.len(),
            soft_breaks@.len() == scale@.len(),
            fold_column_index@.len() == scale@.len(),
            forall|j: int| 0 <= j < scale@.len() ==> inlays_wf(#[trigger] inline_inlays@[j]@),
            forall|j: int| 0 <= j < scale@.len() ==> #[trigger] scale@[j] <= SCALE_ONE,
            summed_heights@.len() <= scale@.len(),
            summed_heights@.len() <= sh0.len(),
            forall|j: int| 0 <= j < summed_heights@.len() ==> {
                &&& #[trigger] summed_heights@[j] == sh0[j]
                &&& scale@[j] == scale0[j]
                &&& soft_breaks@[j]@.len() == sb0[j]@.len()
            },
        decreases infos@.len() - k,
    {
        proof {
            lemma_diff_applies_prefix(t0, ops, k + 1);
            lemma_apply_step(t0, ops, k as int);
            assert(scale@.len() == scale.len());
        }
        let ghost op = ops[k as int];
        let ghost o = apply_prefix(t0, ops, k as int).0;
        let ghost o2 = apply_prefix(t0, ops, k + 1).0;
        let ghost r2 = apply_prefix(t0, ops, k + 1).1;
        let ghost pre_sh = summed_heights@;
        let ghost pre_scale = scale@;
        let ghost pre_sb = soft_breaks@;
        let ghost pre_inl = inline_inlays@;
        let ghost pre_fci = fold_column_index@;
        match infos[k] {
            OperationInfo::Retain(length) => {
                proof {
                    match op {
                        OperationView::Retain(l) => assert(l == length),
                        OperationView::Delete(_) => assert(false),
                        OperationView::Insert(_) => assert(false),
                    }
                }
                line = line + length.line_count;
            },
            OperationInfo::Delete(length) => {
                proof {
                    match op {
                        OperationView::Retain(_) => assert(false),
                        OperationView::Delete(l) => assert(l == length),
                        OperationView::Insert(_) => assert(false),
                    }
                }
                let start = line + 1;
                let count = length.line_count;
                remove_range(inline_inlays, start, count);
                remove_range(soft_breaks, start, count);
                remove_range(fold_column_index, start, count);
                remove_range(scale, start, count);
                if start < summed_heights.len() {
                    summed_heights.truncate(start);
                }
                proof {
                    let len = pre_scale.len() as int;
                    assert(views(inline_inlays@) =~= views(pre_inl).subrange(0, start as int)
                        + views(pre_inl).subrange(start + count, len));
                    assert(views(soft_breaks@) =~= views(pre_sb).subrange(0, start as int)
                        + views(pre_sb).subrange(start + count, len));
                    assert forall|j: int| 0 <= j < scale@.len() implies inlays_wf(#[trigger] inline_inlays@[j]@) by {
                        if j >= start {
                            assert(inline_inlays@[j] == pre_inl[j + count]);
                        } else {
                            assert(inline_inlays@[j] == pre_inl[j]);
                        }
                    }
                    assert forall|j: int| 0 <= j < scale@.len() implies #[trigger] scale@[j] <= SCALE_ONE by {
                        if j >= start {
                            assert(scale@[j] == pre_scale[j + count]);
                        } else {
                            assert(scale@[j] == pre_scale[j]);
                        }
                    }
                    assert forall|j: int| 0 <= j < summed_heights@.len() implies scale@[j] == pre_scale[j]
                        && soft_breaks@[j] == pre_sb[j] by {}
                }
            },
            OperationInfo::Insert(length) => {
                proof {
                    match op {
                        OperationView::Retain(_) => assert(false),
                        OperationView::Delete(_) => assert(false),
                        OperationView::Insert(x) => {
                            assert(length == text_length(x));
                            assert(x.len() >= 1);
                            assert(o2.len() == o.len() + x.len() - 1);
                            assert(length.line_count == x.len() - 1);
                        },
                    }
                }
                let at = line + 1;
                let count = length.line_count;
                insert_empty(inline_inlays, at, count);
                insert_empty(soft_breaks, at, count);
                insert_copies(fold_column_index, at, count, 0);
                insert_copies(scale, at, count, SCALE_ONE);
                if line < summed_heights.len() {
                    summed_heights.truncate(line);
                }
                proof {
                    assert(scale@.len() == scale.len());
                    assert(views(soft_breaks@).len() == soft_breaks@.len());
                    assert(views(inline_inlays@).len() == inline_inlays@.len());
                    assert(views(pre_sb).len() == pre_sb.len());
                    assert(views(pre_inl).len() == pre_inl.len());
                    assert(summed_heights@.len() <= line);
                    let vi = views(inline_inlays@);
                    assert forall|j: int| 0 <= j < scale@.len() implies inlays_wf(#[trigger] inline_inlays@[j]@) by {
                        assert(vi[j] == inline_inlays@[j]@);
                        if j >= at + count {
                            assert(vi[j] == views(pre_inl)[j - count]);
                        } else if j < at {
                            assert(vi[j] == views(pre_inl)[j]);
                        } else {
                            assert(vi[j] == Seq::<(usize, InlineInlay)>::empty());
                        }
                    }
                    assert forall|j: int| 0 <= j < scale@.len() implies #[trigger] scale@[j] <= SCALE_ONE by {
                        if j >= at + count {
                            assert(scale@[j] == pre_scale[j - count]);
                        } else if j < at {
                            assert(scale@[j] == pre_scale[j]);
                        }
                    }
                    assert forall|j: int| 0 <= j < summed_heights@.len() implies scale@[j] == pre_scale[j]
                        && soft_breaks@[j]@ == pre_sb[j]@ by {
                        assert(j < at);
                        assert(scale@[j] == (pre_scale.subrange(0, at as int) + Seq::new(count as nat, |q: int| SCALE_ONE))[j]);
                        assert(views(soft_breaks@)[j] == views(pre_sb)[j]);
                        assert(views(soft_breaks@)[j] == soft_breaks@[j]@);
                        assert(views(pre_sb)[j] == pre_sb[j]@);
                    }
                }
                line = line + count;
            },
        }
        proof {
            assert(line == o2.len() - 1);
            assert(scale@.len() == o2.len() + r2.len() - 1);
            assert forall|j: int| 0 <= j < summed_heights@.len() implies {
                &&& #[trigger] summed_heights@[j] == sh0[j]
                &&& scale@[j] == scale0[j]
                &&& soft_breaks@[j]@.len() == sb0[j]@.len()
            } by {
                assert(summed_heights@[j] == pre_sh[j]);
                assert(scale@[j] == pre_scale[j]);
                assert(soft_breaks@[j]@.len() == pre_sb[j]@.len());
            }
        }
        k += 1;
    }
    proof {
        lemma_apply_prefix_nonempty(t0, ops, ops.len() as int);
        let (o, r, _) = apply_prefix(t0, ops, ops.len() as int);
        assert(text_concat(o, r).len() == o.len() + r.len() - 1);
        assert forall|j: int| 0 <= j < summed_heights@.len() implies #[trigger] scale@[j] == scale0[j] by {
            assert(summed_heights@[j] == sh0[j]);
        }
        assert forall|j: int| 0 <= j < summed_heights@.len() implies (#[trigger] soft_breaks@[j])@.len() == sb0[j]@.len() by {
            assert(summed_heights@[j] == sh0[j]);
        }
        assert(sh0 == old(summed_heights)@);
        assert(scale0 == old(scale)@);
        assert(sb0 == old(soft_breaks)@);
    }
}

/// Keeps the elements of `v` below `n`.
fn retain_below(v: &mut Vec<usize>, n: usize)
    requires
        old(v)@.no_duplicates(),
    ensures
        line_set_wf(final(v)@, n as int),
        forall|y: usize| final(v)@.contains(y) <==> (old(v)@.contains(y) && y < n),
{
    let mut out: Vec<usize> = Vec::new();
    let mut i: usize = 0;
    while i < v.len()
        invariant
            i <= v@.len(),
            v@ == old(v)@,
            v@.no_duplicates(),
            line_set_wf(out@, n as int),
            forall|y: usize| out@.contains(y) <==> (v@.subrange(0, i as int).contains(y) && y < n),
        decreases v@.len() - i,
    {
        let x = v[i];
        let ghost pre = out@;
        let ghost sub = v@.subrange(0, i as int);
        proof {
            assert(v@.subrange(0, i + 1) =~= sub.push(x));
            assert(!sub.contains(x)) by {
                if sub.contains(x) {
                    let q = choose|q: int| 0 <= q < sub.len() && sub[q] == x;
                    assert(v@[q] == v@[i as int]);
                }
            }
        }
        if x < n {
            out.push(x);
        }
        proof {
            let post = v@.subrange(0, i + 1);
            assert forall|y: usize| post.contains(y) <==> (sub.contains(y) || y == x) by {
                if post.contains(y) {
                    let q = choose|q: int| 0 <= q < post.len() && post[q] == y;
                    if q < sub.len() {
                        assert(sub[q] == y);
                    }
                }
                if sub.contains(y) {
                    let q = choose|q: int| 0 <= q < sub.len() && sub[q] == y;
                    assert(post[q] == y);
                }
                if y == x {
                    assert(post[i as int] == y);
                }
            }
            assert forall|y: usize| out@.contains(y) <==> (pre.contains(y) || (x < n && y == x)) by {
                if out@.contains(y) {
                    let q = choose|q: int| 0 <= q < out@.len() && out@[q] == y;
                    if q < pre.len() {
                        assert(pre[q] == y);
                    }
                }
                if pre.contains(y) {
                    let q = choose|q: int| 0 <= q < pre.len() && pre[q] == y;
                    assert(out@[q] == y);
                }
                if y == x && x < n {
                    assert(out@[pre.len() as int] == y);
                }
            }
            assert forall|y: usize| out@.contains(y) <==> (post.contains(y) && y < n) by {
                assert(pre.contains(y) <==> (sub.contains(y) && y < n));
            }
            assert forall|a: int, b: int| 0 <= a < b < out@.len() implies out@[a] != out@[b] by {
                if b == pre.len() {
                    assert(pre.contains(out@[a]));
                }
            }
        }
        i += 1;
    }
    proof {
        assert(v@.subrange(0, v@.len() as int) =~= v@);
    }
    *v = out;
}

/// What an edit command does at each selection.
pub enum EditCommand {
    Replace(Text),
    Delete,
    Backspace,
}

impl EditCommand {
    pub open spec fn spec_kind(&self) -> EditKind {
        match self {
            EditCommand::Replace(x) => EditKind::Replace(x.spec_lines()),
            EditCommand::Delete => EditKind::Delete,
            EditCommand::Backspace => EditKind::Backspace,
        }
    }

    pub open spec fn wf(&self) -> bool {
        match self {
            EditCommand::Replace(x) => x.wf(),
            _ => true,
        }
    }
}

/// The selections each marked by whether it is the one at `last`.
pub open spec fn marked(s: Seq<Selection>, last: int) -> Seq<(Selection, bool)> {
    Seq::new(s.len(), |j: int| (s[j], j == last))
}


/// The per-line arrays have one entry per line of `text`, and the cached heights are
/// those of a walk from the first line.
spec fn lines_in_step(
    text: &Text,
    inline_inlays: &Vec<Vec<(usize, InlineInlay)>>,
    soft_breaks: &Vec<Vec<usize>>,
    fold_column_index: &Vec<usize>,
    scale: &Vec<u64>,
    summed_heights: &Vec<u64>,
    bi: Seq<(usize, BlockInlay)>,
) -> bool {
    &&& text.wf()
    &&& inline_inlays@.len() == text.spec_lines().len()
    &&& soft_breaks@.len() == text.spec_lines().len()
    &&& fold_column_index@.len() == text.spec_lines().len()
    &&& scale@.len() == text.spec_lines().len()
    &&& forall|j: int| 0 <= j < scale@.len() ==> inlays_wf(#[trigger] inline_inlays@[j]@)
    &&& forall|j: int| 0 <= j < scale@.len() ==> #[trigger] scale@[j] <= SCALE_ONE
    &&& summed_heights@.len() <= scale@.len()
    &&& forall|j: int| 0 <= j < summed_heights@.len() ==> #[trigger] summed_heights@[j] == summed_height(
        scale@,
        soft_breaks@,
        bi,
        j,
    )
}

/// Per-line data as plain values.
pub open spec fn data_of(
    inline_inlays: Seq<Vec<(usize, InlineInlay)>>,
    soft_breaks: Seq<Vec<usize>>,
    fold_column_index: Seq<usize>,
    scale: Seq<u64>,
) -> LineData {
    LineData { inlays: views(inline_inlays), soft_breaks: views(soft_breaks), fold_columns: fold_column_index, scale }
}

/// Applies an edit at one selection; returns the selection placed after the edit
/// and its end in the edited text.
fn edit_at(
    text: &mut Text,
    inline_inlays: &mut Vec<Vec<(usize, InlineInlay)>>,
    soft_breaks: &mut Vec<Vec<usize>>,
    fold_column_index: &mut Vec<usize>,
    scale: &mut Vec<u64>,
    summed_heights: &mut Vec<u64>,
    command: &EditCommand,
    sel: Selection,
    prev_end: Position,
    diffed_prev_end: Position,
    Ghost(bi): Ghost<Seq<(usize, BlockInlay)>>,
) -> (r: (Selection, Position))
    requires
        command.wf(),
        pos_le(prev_end, sel.spec_start()),
        lines_in_step(&*old(text), &*old(inline_inlays), &*old(soft_breaks), &*old(fold_column_index), &*old(scale), &*old(summed_heights), bi),
    ensures
        lines_in_step(&*final(text), &*final(inline_inlays), &*final(soft_breaks), &*final(fold_column_index), &*final(scale), &*final(summed_heights), bi),
        ({
            let st = edit_step(
                EditState {
                    text: old(text).spec_lines(),
                    data: data_of(old(inline_inlays)@, old(soft_breaks)@, old(fold_column_index)@, old(scale)@),
                    prev_end,
                    diffed_prev_end,
                    out: Seq::empty(),
                },
                sel,
                command.spec_kind(),
            );
            &&& final(text).spec_lines() == st.text
            &&& data_of(final(inline_inlays)@, final(soft_breaks)@, final(fold_column_index)@, final(scale)@) == st.data
            &&& r.1 == st.diffed_prev_end
            &&& st.out == seq![r.0]
        }),
{
    let ghost kind = command.spec_kind();
    let start = sel.start();
    let end = sel.end();
    proof {
        crate::selections::lemma_start_le_end(sel);
    }
    let distance = start.sub_position(prev_end);
    let ds = diffed_prev_end.add_length(distance);
    let de = ds.add_length(end.sub_position(start));
    let ghost t_before = text.spec_lines();
    if position_in_text(text, ds) && position_in_text(text, de) && ds.le(&de) {
        let (s, e, x) = match command {
            EditCommand::Replace(x) => (ds, de, x.copy()),
            EditCommand::Delete => {
                if ds == de {
                    (ds, move_right(text, ds), Text::new())
                } else {
                    (ds, de, Text::new())
                }
            },
            EditCommand::Backspace => {
                if ds == de {
                    (move_left(text, ds), ds, Text::new())
                } else {
                    (ds, de, Text::new())
                }
            },
        };
        proof {
            assert((s, e, x.spec_lines()) == edit_bounds(t_before, ds, de, kind));
            lemma_replace_applies(t_before, s, e, x.spec_lines());
        }
        let diff = replace(s, e, x);
        let ns = ds.apply_diff(&diff, Strategy::InsertBefore);
        let ne = de.apply_diff(&diff, Strategy::InsertBefore);
        text.apply_diff(&diff);
        let infos = diff.infos();
        proof {
            diff.lemma_ops_wf();
        }
        let ghost summed_before = summed_heights@;
        let ghost scale_before = scale@;
        let ghost sb_before = soft_breaks@;
        repair_lines(
            inline_inlays,
            soft_breaks,
            fold_column_index,
            scale,
            summed_heights,
            &infos,
            Ghost(t_before),
            Ghost(diff.spec_ops()),
        );
        proof {
            assert forall|j: int| 0 <= j < summed_heights@.len() implies #[trigger] summed_heights@[j] == summed_height(
                scale@,
                soft_breaks@,
                bi,
                j,
            ) by {
                assert forall|k: int| 0 <= k <= j implies scale_before[k] == scale@[k] && sb_before[k]@.len() == soft_breaks@[k]@.len() by {
                    assert(summed_heights@[k] == summed_before[k]);
                }
                lemma_summed_height_prefix(scale_before, sb_before, scale@, soft_breaks@, bi, j);
            }
        }
        let placed = if sel.anchor.le(&sel.cursor) {
            Selection::new(ns, ne, sel.column_index)
        } else {
            Selection::new(ne, ns, sel.column_index)
        };
        (placed, ne)
    } else {
        let placed = if sel.anchor.le(&sel.cursor) {
            Selection::new(ds, de, sel.column_index)
        } else {
            Selection::new(de, ds, sel.column_index)
        };
        (placed, de)
    }
}


/// Read-only access to a session and its document.
#[derive(Clone, Copy, Debug)]
pub struct View<'a> {
    settings: &'a Settings,
    document: &'a Document,
    session: &'a Session,
}

impl<'a> View<'a> {
    pub closed spec fn wf(&self) -> bool {
        session_wf(self.document, self.session)
    }

    pub closed spec fn text_lines(&self) -> Seq<Seq<u8>> {
        self.document.text.spec_lines()
    }

    pub closed spec fn scale(&self) -> Seq<u64> {
        self.session.scale@
    }

    pub closed spec fn soft_breaks(&self) -> Seq<Seq<usize>> {
        soft_breaks_view(self.session.soft_breaks@)
    }

    pub closed spec fn summed_heights(&self) -> Seq<u64> {
        self.session.summed_heights@
    }

    /// Every line's cumulative height is cached.
    pub open spec fn complete(&self) -> bool {
        self.summed_heights().len() == self.text_lines().len()
    }

    /// Cached cumulative heights never decrease.
    pub proof fn lemma_heights_sorted(&self)
        requires
            self.wf(),
        ensures
            sorted_heights(self.summed_heights()),
    {
        let h = self.session.summed_heights@;
        assert forall|i: int, j: int| 0 <= i <= j < h.len() implies h[i] <= h[j] by {
            crate::heights::lemma_summed_height_grows(self.session.scale@, self.session.soft_breaks@, self.document.block_inlays@, i, j);
        }
    }

    pub closed spec fn spec_selections(&self) -> Seq<Selection> {
        self.session.selections@
    }

    pub closed spec fn spec_settings(&self) -> Settings {
        *self.settings
    }

    pub fn settings(&self) -> (r: &Settings)
        ensures
            *r == self.spec_settings(),
    {
        self.settings
    }

    pub fn text(&self) -> (r: &Text)
        ensures
            r.spec_lines() == self.text_lines(),
    {
        &self.document.text
    }

    pub fn line_count(&self) -> (r: usize)
        ensures
            r == self.text_lines().len(),
    {
        self.document.text.line_count()
    }

    pub fn selections(&self) -> (r: &[Selection])
        ensures
            r@ == self.spec_selections(),
    {
        self.session.selections.as_slice()
    }

    /// Line `line_index` as presented.
    pub fn line(&self, line_index: usize) -> (r: Line<'a>)
        requires
            self.wf(),
            line_index < self.text_lines().len(),
        ensures
            r.wf(),
            r.text@ == self.text_lines()[line_index as int],
            r.soft_breaks@ == self.soft_breaks()[line_index as int],
            r.scale == self.scale()[line_index as int],
            self.block_from(Block::Line { is_inlay: false, line: r }, BlockSource::Document(line_index as int)),
    {
        let lines = self.document.text.as_lines();
        proof {
            assert(lines@[line_index as int]@ == self.text_lines()[line_index as int]);
        }
        Line {
            text: lines[line_index].as_slice(),
            inline_inlays: self.document.inline_inlays[line_index].as_slice(),
            soft_breaks: self.session.soft_breaks[line_index].as_slice(),
            fold_column_index: self.session.fold_column_index[line_index],
            scale: self.session.scale[line_index],
        }
    }

    /// Lines `start_line_index..end_line_index` as presented.
    pub fn line_list(&self, start_line_index: usize, end_line_index: usize) -> (r: Vec<Line<'a>>)
        requires
            self.wf(),
            start_line_index <= end_line_index <= self.text_lines().len(),
        ensures
            r@.len() == end_line_index - start_line_index,
            forall|j: int| 0 <= j < r@.len() ==> (#[trigger] r@[j]).text@ == self.text_lines()[start_line_index + j]
                && r@[j].soft_breaks@ == self.soft_breaks()[start_line_index + j]
                && r@[j].scale == self.scale()[start_line_index + j]
                && r@[j].wf(),
    {
        let mut r: Vec<Line<'a>> = Vec::new();
        let mut i = start_line_index;
        while i < end_line_index
            invariant
                self.wf(),
                start_line_index <= i <= end_line_index <= self.text_lines().len(),
                r@.len() == i - start_line_index,
                forall|j: int| 0 <= j < r@.len() ==> (#[trigger] r@[j]).text@ == self.text_lines()[start_line_index + j]
                    && r@[j].soft_breaks@ == self.soft_breaks()[start_line_index + j]
                    && r@[j].scale == self.scale()[start_line_index + j]
                    && r@[j].wf(),
            decreases end_line_index - i,
        {
            r.push(self.line(i));
            i += 1;
        }
        r
    }

    pub closed spec fn block_inlays(&self) -> Seq<(usize, BlockInlay)> {
        self.document.block_inlays@
    }

    pub closed spec fn inline_inlays(&self) -> Seq<Seq<(usize, InlineInlay)>> {
        views(self.document.inline_inlays@)
    }

    pub closed spec fn fold_column_indices(&self) -> Seq<usize> {
        self.session.fold_column_index@
    }

    /// The soft breaks of each line, as the vectors that hold them.
    pub closed spec fn soft_break_lists(&self) -> Seq<Vec<usize>> {
        self.session.soft_breaks@
    }

    /// The vectors of soft breaks hold the soft breaks of each line.
    pub proof fn lemma_soft_break_lists(&self)
        ensures
            views(self.soft_break_lists()) == self.soft_breaks(),
    {
    }

    /// The width of the block a source gives.
    pub open spec fn source_width(&self, src: BlockSource, tab_column_count: usize) -> int {
        match src {
            BlockSource::Document(i) => line_width_of(
                self.text_lines()[i],
                self.inline_inlays()[i],
                self.soft_breaks()[i],
                self.fold_column_indices()[i],
                self.scale()[i],
                tab_column_count,
            ),
            BlockSource::Inlay(k) => self.block_inlays()[k].1.spec_width(tab_column_count),
        }
    }

    /// The blocks of lines `start..end` in order, and the block inlays that stand
    /// before them (and at the end).
    pub open spec fn block_sources(&self, start: int, end: int) -> Seq<BlockSource> {
        block_sources(self.block_inlays(), end, start, first_block_at(self.block_inlays(), start))
    }

    /// The blocks of lines `start_line_index..end_line_index` and of the block inlays
    /// that stand before them (and at the end).
    pub fn block_list(&self, start_line_index: usize, end_line_index: usize) -> (r: Vec<Block<'a>>)
        requires
            self.wf(),
            start_line_index <= end_line_index <= self.text_lines().len(),
        ensures
            ({
                let src = self.block_sources(start_line_index as int, end_line_index as int);
                &&& r@.len() == src.len()
                &&& forall|j: int| 0 <= j < r@.len() ==> self.block_from(#[trigger] r@[j], src[j])
            }),
    {
        let ghost bi = self.document.block_inlays@;
        proof {
            lemma_first_block_at(bi, start_line_index as int);
        }
        let mut k: usize = 0;
        while k < self.document.block_inlays.len() && self.document.block_inlays[k].0 < start_line_index
            invariant
                self.wf(),
                bi == self.document.block_inlays@,
                k <= first_block_at(bi, start_line_index as int),
                forall|j: int| 0 <= j < bi.len() ==> (j < first_block_at(bi, start_line_index as int) <==> bi[j].0 < start_line_index),
            decreases bi.len() - k,
        {
            k += 1;
        }
        let ghost k0 = k as int;
        let ghost end = end_line_index as int;
        let ghost src = block_sources(bi, end, start_line_index as int, k0);
        let mut out: Vec<Block<'a>> = Vec::new();
        let mut i = start_line_index;
        loop
            invariant
                self.wf(),
                bi == self.document.block_inlays@,
                k0 == first_block_at(bi, start_line_index as int),
                src == block_sources(bi, end, start_line_index as int, k0),
                end == end_line_index,
                start_line_index <= i <= end_line_index <= self.text_lines().len(),
                k <= bi.len(),
                src.len() == out@.len() + block_sources(bi, end, i as int, k as int).len(),
                forall|j: int| 0 <= j < block_sources(bi, end, i as int, k as int).len()
                    ==> src[out@.len() + j] == block_sources(bi, end, i as int, k as int)[j],
                forall|j: int| 0 <= j < out@.len() ==> self.block_from(#[trigger] out@[j], src[j]),
            ensures
                src.len() == out@.len(),
                forall|j: int| 0 <= j < out@.len() ==> self.block_from(#[trigger] out@[j], src[j]),
            decreases end - i + bi.len() - k,
        {
            let ghost rest = block_sources(bi, end, i as int, k as int);
            if k < self.document.block_inlays.len() && self.document.block_inlays[k].0 == i {
                let block = match &self.document.block_inlays[k].1 {
                    BlockInlay::Line(l) => {
                        proof {
                            assert(l.wf());
                        }
                        Block::Line { is_inlay: true, line: l.as_line() }
                    },
                    BlockInlay::Widget(w) => Block::Widget(*w),
                };
                proof {
                    assert(rest == seq![BlockSource::Inlay(k as int)] + block_sources(bi, end, i as int, k + 1));
                    assert(rest[0] == BlockSource::Inlay(k as int));
                    assert(src[out@.len() as int + 0] == rest[0]);
                    assert(self.block_from(block, BlockSource::Inlay(k as int)));
                }
                out.push(block);
                k += 1;
                proof {
                    assert forall|j: int| 0 <= j < block_sources(bi, end, i as int, k as int).len()
                        implies src[out@.len() + j] == block_sources(bi, end, i as int, k as int)[j] by {
                        assert(rest[j + 1] == block_sources(bi, end, i as int, k as int)[j]);
                    }
                }
            } else if i < end_line_index {
                proof {
                    assert(rest == seq![BlockSource::Document(i as int)] + block_sources(bi, end, i + 1, k as int));
                    assert(rest[0] == BlockSource::Document(i as int));
                    assert(src[out@.len() as int + 0] == rest[0]);
                }
                let line = self.line(i);
                proof {
                    assert(self.block_from(Block::Line { is_inlay: false, line }, BlockSource::Document(i as int)));
                }
                out.push(Block::Line { is_inlay: false, line });
                i += 1;
                proof {
                    assert forall|j: int| 0 <= j < block_sources(bi, end, i as int, k as int).len()
                        implies src[out@.len() + j] == block_sources(bi, end, i as int, k as int)[j] by {
                        assert(rest[j + 1] == block_sources(bi, end, i as int, k as int)[j]);
                    }
                }
            } else {
                proof {
                    assert(rest.len() == 0);
                }
                break;
            }
        }
        out
    }

    /// `b` is the block that `src` gives.
    pub open spec fn block_from(&self, b: Block<'a>, src: BlockSource) -> bool {
        &&& b.wf()
        &&& forall|tab: usize| b.spec_width(tab) == self.source_width(src, tab)
        &&& match src {
            BlockSource::Document(i) => b matches Block::Line { is_inlay: false, line } && line.text@ == self.text_lines()[i]
                && line.inline_inlays@ == self.inline_inlays()[i]
                && line.soft_breaks@ == self.soft_breaks()[i]
                && line.fold_column_index == self.fold_column_indices()[i]
                && line.scale == self.scale()[i]
                && line.spec_height() == crate::heights::line_height_of(self.scale(), self.soft_break_lists(), i),
            BlockSource::Inlay(k) => b.spec_height() == self.block_inlays()[k].1.spec_height()
                && match self.block_inlays()[k].1 {
                    BlockInlay::Line(li) => b matches Block::Line { is_inlay: true, line } && li.presents(line),
                    BlockInlay::Widget(w) => b == Block::Widget(w),
                },
        }
    }

    /// The widest block of the document.
    pub fn width(&self, tab_column_count: usize) -> (r: u64)
        requires
            self.wf(),
        ensures
            ({
                let src = self.block_sources(0, self.text_lines().len() as int);
                &&& forall|j: int| 0 <= j < src.len() ==> self.source_width(src[j], tab_column_count) <= r
                &&& r == 0 || exists|j: int| 0 <= j < src.len() && self.source_width(src[j], tab_column_count) == r
            }),
    {
        let n = self.document.text.line_count();
        let bs = self.block_list(0, n);
        let ghost src = self.block_sources(0, n as int);
        let mut widest: u64 = 0;
        let mut j: usize = 0;
        while j < bs.len()
            invariant
                j <= bs@.len(),
                bs@.len() == src.len(),
                src == self.block_sources(0, self.text_lines().len() as int),
                forall|q: int| 0 <= q < bs@.len() ==> self.block_from(#[trigger] bs@[q], src[q]),
                forall|q: int| 0 <= q < j ==> self.source_width(src[q], tab_column_count) <= widest,
                widest == 0 || exists|q: int| 0 <= q < j && self.source_width(src[q], tab_column_count) == widest,
            decreases bs@.len() - j,
        {
            proof {
                assert(self.block_from(bs@[j as int], src[j as int]));
            }
            let w = bs[j].width(tab_column_count);
            proof {
                assert(bs@[j as int].spec_width(tab_column_count) == self.source_width(src[j as int], tab_column_count));
            }
            if w > widest {
                widest = w;
            }
            j += 1;
        }
        widest
    }

    /// The top of line `start`: the cumulative height of the lines before it.
    pub open spec fn top_of(&self, start: int) -> int {
        if start == 0 { 0 } else { self.summed_heights()[start - 1] as int }
    }

    /// The rectangles of lines `start_line_index..end_line_index`, from top to bottom:
    /// for each line, its own rectangle, one per character, widget and soft break, and
    /// the break that ends it; for a block widget, its rectangle. The consumer decides
    /// which lines to look into.
    pub fn layout(&self, start_line_index: usize, end_line_index: usize) -> (r: Vec<LayoutEvent<'a>>)
        requires
            self.wf(),
            self.complete(),
            start_line_index <= end_line_index <= self.text_lines().len(),
        ensures
            self.is_layout(r@.map_values(|e: LayoutEvent<'a>| e.spec_view()), start_line_index as int, end_line_index as int),
    {
        let tab = self.settings.tab_column_count;
        let mut y: u64 = if start_line_index == 0 { 0 } else { self.session.summed_heights[start_line_index - 1] };
        let bs = self.block_list(start_line_index, end_line_index);
        let ghost src = self.block_sources(start_line_index as int, end_line_index as int);
        let ghost y0 = y as int;
        let mut events: Vec<LayoutEvent<'a>> = Vec::new();
        let mut j: usize = 0;
        while j < bs.len()
            invariant
                j <= bs@.len(),
                bs@.len() == src.len(),
                forall|q: int| 0 <= q < bs@.len() ==> self.block_from(#[trigger] bs@[q], src[q]),
                tab == self.settings.tab_column_count,
                (events@.map_values(|e: LayoutEvent<'a>| e.spec_view()), y as int) == blocks_events(bs@, y0, tab, j as int),
            decreases bs@.len() - j,
        {
            proof {
                assert(self.block_from(bs@[j as int], src[j as int]));
            }
            let ghost before = events@.map_values(|e: LayoutEvent<'a>| e.spec_view());
            match bs[j] {
                Block::Line { is_inlay, line } => {
                    y = layout_line(&line, is_inlay, y, tab, &mut events);
                },
                Block::Widget(w) => {
                    events.push(LayoutEvent {
                        rect: Rect { origin: Point { x: 0, y }, size: w.size },
                        kind: LayoutEventKind::Widget { id: w.id },
                    });
                    y = y.saturating_add(w.size.height);
                    proof {
                        assert(events@.map_values(|e: LayoutEvent<'a>| e.spec_view()) =~= before.push(events@.last().spec_view()));
                    }
                },
            }
            j += 1;
        }
        proof {
            assert(y0 == self.top_of(start_line_index as int));
            let bsv = bs@;
            assert(self.spec_settings().tab_column_count == tab);
            assert(self.block_sources(start_line_index as int, end_line_index as int) == src);
            assert(blocks_events(bsv, self.top_of(start_line_index as int), self.spec_settings().tab_column_count, bsv.len() as int).0
                == events@.map_values(|e: LayoutEvent<'a>| e.spec_view()));
        }
        events
    }

    /// The position under point `p`, if a position of the document's text is there:
    /// the line whose bottom is first below `p` is laid out and walked; an inlay line
    /// hit answers with the position reached, a widget with none.
    pub fn pick(&self, p: Point) -> (r: Option<Position>)
        requires
            self.wf(),
            self.complete(),
        ensures
            ({
                let line_index = first_above(self.summed_heights(), p.y);
                &&& line_index >= self.text_lines().len() ==> r.is_none()
                &&& line_index < self.text_lines().len() ==> exists|events: Seq<EventView>| {
                    &&& #[trigger] self.is_layout(events, line_index, line_index + 1)
                    &&& r == picked(events, p, line_index as usize)
                }
            }),
    {
        let line_index = self.find_first_line_ending_after_y(p.y);
        proof {
            self.lemma_heights_sorted();
            lemma_first_above(self.summed_heights(), p.y, line_index as int);
        }
        if line_index >= self.document.text.line_count() {
            return None;
        }
        let events = self.layout(line_index, line_index + 1);
        let ghost ev = events@.map_values(|e: LayoutEvent<'a>| e.spec_view());
        let mut position = Position::new(line_index, 0);
        let mut skipping = false;
        let mut k: usize = 0;
        while k < events.len()
            invariant
                k <= events@.len(),
                ev == events@.map_values(|e: LayoutEvent<'a>| e.spec_view()),
                self.is_layout(ev, line_index as int, line_index + 1),
                line_index < self.text_lines().len(),
                line_index == first_above(self.summed_heights(), p.y),
                pick_prefix(ev, p, line_index, k as int) == (PickWalk { position, skipping, found: None }),
            decreases events@.len() - k,
        {
            let e = events[k];
            proof {
                assert(ev[k as int] == e.spec_view());
            }
            if skipping {
                if let LayoutEventKind::Break { is_soft: false } = e.kind {
                    skipping = false;
                }
            } else {
                match e.kind {
                    LayoutEventKind::Line { is_inlay, .. } => {
                        if is_inlay {
                            if e.rect.contains(p) {
                                proof {
                                    lemma_pick_done(ev, p, line_index, k as int + 1, ev.len() as int);
                                    assert(picked(ev, p, line_index) == Some(position));
                                }
                                return Some(position);
                            }
                            skipping = true;
                        }
                    },
                    LayoutEventKind::Grapheme { is_inlay, text } => {
                        let half = e.rect.size.width / 2;
                        let left = Rect::new(e.rect.origin, Size { width: half, height: e.rect.size.height });
                        let right = Rect::new(
                            Point::new(e.rect.origin.x.saturating_add(half), e.rect.origin.y),
                            Size { width: half, height: e.rect.size.height },
                        );
                        if left.contains(p) {
                            proof {
                                lemma_pick_done(ev, p, line_index, k as int + 1, ev.len() as int);
                                assert(picked(ev, p, line_index) == Some(position));
                            }
                            return Some(position);
                        }
                        if !is_inlay {
                            position.byte_index = position.byte_index.saturating_add(text.len());
                        }
                        if right.contains(p) {
                            proof {
                                lemma_pick_done(ev, p, line_index, k as int + 1, ev.len() as int);
                                assert(picked(ev, p, line_index) == Some(position));
                            }
                            return Some(position);
                        }
                    },
                    LayoutEventKind::Break { is_soft } => {
                        if !is_soft {
                            if e.rect.origin.y <= p.y && p.y - e.rect.origin.y <= e.rect.size.height {
                                proof {
                                    lemma_pick_done(ev, p, line_index, k as int + 1, ev.len() as int);
                                    assert(picked(ev, p, line_index) == Some(position));
                                }
                                return Some(position);
                            }
                            position.line_index = position.line_index.saturating_add(1);
                            position.byte_index = 0;
                        }
                    },
                    LayoutEventKind::Widget { .. } => {
                        proof {
                            lemma_pick_done(ev, p, line_index, k as int + 1, ev.len() as int);
                            assert(picked(ev, p, line_index) == None::<Position>);
                        }
                        return None;
                    },
                }
            }
            k += 1;
        }
        proof {
            assert(picked(ev, p, line_index) == None::<Position>);
        }
        None
    }

    /// `events` is the layout of lines `start..end`.
    pub open spec fn is_layout(&self, events: Seq<EventView>, start: int, end: int) -> bool {
        exists|bs: Seq<Block<'a>>| {
            let src = self.block_sources(start, end);
            &&& bs.len() == src.len()
            &&& forall|j: int| 0 <= j < bs.len() ==> self.block_from(#[trigger] bs[j], src[j])
            &&& events == (#[trigger] blocks_events(bs, self.top_of(start), self.spec_settings().tab_column_count, bs.len() as int)).0
        }
    }

    /// Lines `start_line_index..end_line_index` as presented, one at a time.
    pub fn lines(&self, start_line_index: usize, end_line_index: usize) -> (r: Lines<'a>)
        requires
            self.wf(),
            start_line_index <= end_line_index <= self.text_lines().len(),
        ensures
            r.remaining().len() == end_line_index - start_line_index,
            forall|j: int| 0 <= j < r.remaining().len() ==> (#[trigger] r.remaining()[j]).text@ == self.text_lines()[start_line_index + j]
                && r.remaining()[j].soft_breaks@ == self.soft_breaks()[start_line_index + j]
                && r.remaining()[j].scale == self.scale()[start_line_index + j]
                && r.remaining()[j].wf(),
    {
        Lines::from_vec(self.line_list(start_line_index, end_line_index))
    }

    /// The blocks of lines `start_line_index..end_line_index` and of the block inlays
    /// that stand before them (and at the end), one at a time.
    pub fn blocks(&self, start_line_index: usize, end_line_index: usize) -> (r: Blocks<'a>)
        requires
            self.wf(),
            start_line_index <= end_line_index <= self.text_lines().len(),
        ensures
            ({
                let src = self.block_sources(start_line_index as int, end_line_index as int);
                &&& r.remaining().len() == src.len()
                &&& forall|j: int| 0 <= j < r.remaining().len() ==> self.block_from(#[trigger] r.remaining()[j], src[j])
            }),
    {
        Blocks::from_vec(self.block_list(start_line_index, end_line_index))
    }

    /// The height of the whole document: the cumulative height through its last line.
    pub fn height(&self) -> (r: u64)
        requires
            self.wf(),
            self.complete(),
        ensures
            r == self.summed_heights().last(),
    {
        let n = self.session.summed_heights.len();
        self.session.summed_heights[n - 1]
    }

    /// The first line whose bottom lies below `y`: the number of lines that end at or
    /// above it.
    pub fn find_first_line_ending_after_y(&self, y: u64) -> (r: usize)
        requires
            self.wf(),
        ensures
            r <= self.summed_heights().len(),
            forall|j: int| 0 <= j < r ==> self.summed_heights()[j] <= y,
            forall|j: int| r <= j < self.summed_heights().len() ==> self.summed_heights()[j] > y,
    {
        proof {
            self.lemma_heights_sorted();
        }
        let h = &self.session.summed_heights;
        let mut lo: usize = 0;
        let mut hi: usize = h.len();
        while lo < hi
            invariant
                0 <= lo <= hi <= h@.len(),
                sorted_heights(h@),
                forall|j: int| 0 <= j < lo ==> h@[j] <= y,
                forall|j: int| hi <= j < h@.len() ==> h@[j] > y,
            decreases hi - lo,
        {
            let mid = lo + (hi - lo) / 2;
            if h[mid] <= y {
                lo = mid + 1;
            } else {
                hi = mid;
            }
        }
        lo
    }

    /// The first line whose top lies below `y`, or the line count when none does.
    pub fn find_first_line_starting_after_y(&self, y: u64) -> (r: usize)
        requires
            self.wf(),
            self.complete(),
        ensures
            ({
                let k = first_above(self.summed_heights(), y);
                r == if k == self.text_lines().len() { k } else { k + 1 }
            }),
    {
        let k = self.find_first_line_ending_after_y(y);
        proof {
            self.lemma_heights_sorted();
            lemma_first_above(self.summed_heights(), y, k as int);
        }
        if k == self.document.text.line_count() { k } else { k + 1 }
    }
}


/// Where a block of the layout comes from: a line of the document, or a block inlay.
pub ghost enum BlockSource {
    Document(int),
    Inlay(int),
}

/// The blocks from document line `i` and block inlay `k` on, up to line `end`: the
/// inlays that stand before a line come first; those placed at `end` close the list.
pub open spec fn block_sources(bi: Seq<(usize, BlockInlay)>, end: int, i: int, k: int) -> Seq<BlockSource>
    decreases end - i + bi.len() - k,
{
    if i > end || k > bi.len() || k < 0 {
        Seq::empty()
    } else if k < bi.len() && bi[k].0 == i {
        seq![BlockSource::Inlay(k)] + block_sources(bi, end, i, k + 1)
    } else if i < end {
        seq![BlockSource::Document(i)] + block_sources(bi, end, i + 1, k)
    } else {
        Seq::empty()
    }
}

/// The layout of blocks `0..k`, from `y` down, and the top of what follows.
pub open spec fn blocks_events(bs: Seq<Block>, y: int, tab_column_count: usize, k: int) -> (Seq<EventView>, int)
    decreases k,
{
    if k <= 0 {
        (Seq::empty(), y)
    } else {
        let (events, y1) = blocks_events(bs, y, tab_column_count, k - 1);
        match bs[k - 1] {
            Block::Line { is_inlay, line } => {
                let (le, y2) = line_events(line, is_inlay, y1, tab_column_count);
                (events + le, y2)
            },
            Block::Widget(w) => (
                events.push(EventView {
                    rect: Rect { origin: Point { x: 0, y: y1 as u64 }, size: w.size },
                    kind: EventKindView::Widget { id: w.id },
                }),
                sat_add64(y1, w.size.height as int),
            ),
        }
    }
}

/// A walk over the layout of a line looking for the position under a point: the
/// position reached, whether an inlay line is being passed over, and the answer once
/// known (which may be that no position is there).
pub ghost struct PickWalk {
    pub position: Position,
    pub skipping: bool,
    pub found: Option<Option<Position>>,
}

pub open spec fn pick_step(st: PickWalk, e: EventView, p: Point) -> PickWalk {
    if st.found.is_some() {
        st
    } else if st.skipping {
        if e.kind == (EventKindView::Break { is_soft: false }) { PickWalk { skipping: false, ..st } } else { st }
    } else {
        match e.kind {
            EventKindView::Line { is_inlay, .. } => if !is_inlay {
                st
            } else if e.rect.spec_contains(p) {
                PickWalk { found: Some(Some(st.position)), ..st }
            } else {
                PickWalk { skipping: true, ..st }
            },
            EventKindView::Grapheme { is_inlay, text } => {
                let half = e.rect.size.width / 2;
                let left = Rect { origin: e.rect.origin, size: Size { width: half, height: e.rect.size.height } };
                let right = Rect {
                    origin: Point { x: sat_add64(e.rect.origin.x as int, half as int) as u64, y: e.rect.origin.y },
                    size: Size { width: half, height: e.rect.size.height },
                };
                let next = if is_inlay {
                    st.position
                } else {
                    Position {
                        line_index: st.position.line_index,
                        byte_index: crate::position::sat_usize(st.position.byte_index + text.len()),
                    }
                };
                if left.spec_contains(p) {
                    PickWalk { found: Some(Some(st.position)), ..st }
                } else if right.spec_contains(p) {
                    PickWalk { found: Some(Some(next)), position: next, ..st }
                } else {
                    PickWalk { position: next, ..st }
                }
            },
            EventKindView::Break { is_soft } => if is_soft {
                st
            } else if e.rect.origin.y <= p.y && p.y <= e.rect.origin.y + e.rect.size.height {
                PickWalk { found: Some(Some(st.position)), ..st }
            } else {
                PickWalk {
                    position: Position {
                        line_index: crate::position::sat_usize(st.position.line_index + 1),
                        byte_index: 0,
                    },
                    ..st
                }
            },
            EventKindView::Widget { .. } => PickWalk { found: Some(None), ..st },
        }
    }
}

pub open spec fn pick_prefix(events: Seq<EventView>, p: Point, line_index: usize, k: int) -> PickWalk
    decreases k,
{
    if k <= 0 {
        PickWalk { position: Position { line_index, byte_index: 0 }, skipping: false, found: None }
    } else {
        pick_step(pick_prefix(events, p, line_index, k - 1), events[k - 1], p)
    }
}

/// The position under `p` in the layout `events` of line `line_index`: a character
/// answers with the offset before or after it, by the half it is hit in; the end of
/// a line answers for the rest of its row; a widget has no position.
pub open spec fn picked(events: Seq<EventView>, p: Point, line_index: usize) -> Option<Position> {
    match pick_prefix(events, p, line_index, events.len() as int).found {
        Some(r) => r,
        None => None,
    }
}


/// Once the answer is known, the rest of the walk keeps it.
pub proof fn lemma_pick_done(events: Seq<EventView>, p: Point, line_index: usize, k: int, n: int)
    requires
        0 <= k <= n,
        pick_prefix(events, p, line_index, k).found.is_some(),
    ensures
        pick_prefix(events, p, line_index, n) == pick_prefix(events, p, line_index, k),
    decreases n - k,
{
    if k < n {
        lemma_pick_done(events, p, line_index, k, n - 1);
    }
}

/// Cumulative heights never decrease.
pub open spec fn sorted_heights(h: Seq<u64>) -> bool {
    forall|i: int, j: int| 0 <= i <= j < h.len() ==> h[i] <= h[j]
}

/// The number of cumulative heights at or above `y`.
pub open spec fn first_above(h: Seq<u64>, y: u64) -> int
    decreases h.len(),
{
    if h.len() == 0 {
        0
    } else if h.last() <= y {
        h.len() as int
    } else {
        first_above(h.drop_last(), y)
    }
}

proof fn lemma_first_above(h: Seq<u64>, y: u64, k: int)
    requires
        sorted_heights(h),
        0 <= k <= h.len(),
        forall|j: int| 0 <= j < k ==> h[j] <= y,
        forall|j: int| k <= j < h.len() ==> h[j] > y,
    ensures
        first_above(h, y) == k,
    decreases h.len(),
{
    if h.len() > 0 && h.last() > y {
        let t = h.drop_last();
        assert forall|i: int, j: int| 0 <= i <= j < t.len() implies t[i] <= t[j] by {
            assert(t[i] == h[i] && t[j] == h[j]);
        }
        lemma_first_above(t, y, k);
    }
}

/// Exclusive access to one session and its document: every change goes through it,
/// and it repairs the caches that a change invalidates.
#[derive(Debug)]
pub struct ViewMut<'a> {
    settings: &'a Settings,
    document: &'a mut Document,
    session: &'a mut Session,
}

impl<'a> ViewMut<'a> {
    pub closed spec fn wf(&self) -> bool {
        session_wf(&*self.document, &*self.session)
    }

    pub closed spec fn lines(&self) -> Seq<Seq<u8>> {
        self.document.text.spec_lines()
    }

    pub closed spec fn scale(&self) -> Seq<u64> {
        self.session.scale@
    }

    pub closed spec fn soft_breaks(&self) -> Seq<Seq<usize>> {
        soft_breaks_view(self.session.soft_breaks@)
    }

    pub closed spec fn fold_column_indices(&self) -> Seq<usize> {
        self.session.fold_column_index@
    }

    pub closed spec fn inline_inlays(&self) -> Seq<Seq<(usize, InlineInlay)>> {
        views(self.document.inline_inlays@)
    }

    pub closed spec fn block_inlays(&self) -> Seq<(usize, BlockInlay)> {
        self.document.block_inlays@
    }

    pub closed spec fn summed_heights(&self) -> Seq<u64> {
        self.session.summed_heights@
    }

    /// The cumulative heights of a walk over every line from the first.
    pub open spec fn heights_from_scratch(&self) -> Seq<u64> {
        Seq::new(
            self.lines().len(),
            |j: int| summed_height(self.scale(), self.soft_break_lists(), self.block_inlays(), j) as u64,
        )
    }

    /// The soft breaks of each line, as the vectors that hold them.
    pub closed spec fn soft_break_lists(&self) -> Seq<Vec<usize>> {
        self.session.soft_breaks@
    }

    /// The vectors of soft breaks hold the soft breaks of each line.
    pub proof fn lemma_soft_break_lists(&self)
        ensures
            views(self.soft_break_lists()) == self.soft_breaks(),
    {
    }

    pub closed spec fn selections(&self) -> Seq<Selection> {
        self.session.selections@
    }

    pub closed spec fn last_added_selection_index(&self) -> usize {
        self.session.last_added_selection_index
    }

    pub closed spec fn folding_lines(&self) -> Seq<usize> {
        self.session.folding_lines@
    }

    pub closed spec fn unfolding_lines(&self) -> Seq<usize> {
        self.session.unfolding_lines@
    }

    pub closed spec fn tab_column_count(&self) -> usize {
        self.settings.tab_column_count
    }

    /// The session's per-line data.
    pub open spec fn line_data(&self) -> LineData {
        LineData {
            inlays: self.inline_inlays(),
            soft_breaks: self.soft_breaks(),
            fold_columns: self.fold_column_indices(),
            scale: self.scale(),
        }
    }

    /// The text and the inlays are as in `other`.
    pub open spec fn same_document(&self, other: &Self) -> bool {
        &&& self.lines() == other.lines()
        &&& self.inline_inlays() == other.inline_inlays()
        &&& self.block_inlays() == other.block_inlays()
    }

    /// The per-line layout data and the cached heights are as in `other`.
    pub open spec fn same_layout(&self, other: &Self) -> bool {
        &&& self.soft_breaks() == other.soft_breaks()
        &&& self.fold_column_indices() == other.fold_column_indices()
        &&& self.scale() == other.scale()
        &&& self.summed_heights() == other.summed_heights()
    }

    /// The selections and the most recently added one are as in `other`.
    pub open spec fn same_selections(&self, other: &Self) -> bool {
        &&& self.selections() == other.selections()
        &&& self.last_added_selection_index() == other.last_added_selection_index()
    }

    /// The animating lines are as in `other`.
    pub open spec fn same_folds(&self, other: &Self) -> bool {
        &&& self.folding_lines() == other.folding_lines()
        &&& self.unfolding_lines() == other.unfolding_lines()
    }

    /// Every invariant of the session holds, and its cached heights are complete.
    pub open spec fn settled(&self) -> bool {
        &&& self.wf()
        &&& self.summed_heights() == self.heights_from_scratch()
    }

    proof fn lemma_complete_heights(&self)
        requires
            self.wf(),
            self.summed_heights().len() == self.lines().len(),
        ensures
            self.settled(),
    {
        let a = self.summed_heights();
        let b = self.heights_from_scratch();
        assert forall|j: int| 0 <= j < a.len() implies a[j] == b[j] by {
            assert(a[j] == summed_height(self.session.scale@, self.session.soft_breaks@, self.document.block_inlays@, j));
        }
        assert(a =~= b);
    }

    /// The same session, read-only.
    pub fn as_view(&self) -> (r: View<'_>)
        ensures
            r.wf() == self.wf(),
            r.complete() == (self.summed_heights().len() == self.lines().len()),
            r.text_lines() == self.lines(),
            r.scale() == self.scale(),
            r.soft_breaks() == self.soft_breaks(),
            r.summed_heights() == self.summed_heights(),
            r.spec_selections() == self.selections(),
    {
        View { settings: self.settings, document: &*self.document, session: &*self.session }
    }

    /// Recomputes the missing cumulative heights.
    fn update_summed_heights(&mut self)
        requires
            old(self).wf(),
        ensures
            final(self).settled(),
            final(self).lines() == old(self).lines(),
            final(self).scale() == old(self).scale(),
            final(self).soft_breaks() == old(self).soft_breaks(),
            final(self).selections() == old(self).selections(),
            final(self).last_added_selection_index() == old(self).last_added_selection_index(),
            final(self).folding_lines() == old(self).folding_lines(),
            final(self).unfolding_lines() == old(self).unfolding_lines(),
            final(self).inline_inlays() == old(self).inline_inlays(),
            final(self).block_inlays() == old(self).block_inlays(),
            final(self).fold_column_indices() == old(self).fold_column_indices(),
            old(self).summed_heights().len() == old(self).lines().len()
                ==> final(self).summed_heights() == old(self).summed_heights(),
    {
        update_summed_heights(self.document, self.session);
        proof {
            self.lemma_complete_heights();
        }
    }

    /// Starts folding line `line_index`: it joins the folding lines and leaves the
    /// unfolding ones.
    pub fn fold_line(&mut self, line_index: usize)
        requires
            old(self).settled(),
            line_index < old(self).lines().len(),
        ensures
            final(self).settled(),
            forall|y: usize| final(self).folding_lines().contains(y) <==> (old(self).folding_lines().contains(y) || y == line_index),
            forall|y: usize| final(self).unfolding_lines().contains(y) <==> (old(self).unfolding_lines().contains(y) && y != line_index),
            final(self).same_document(old(self)),
            final(self).same_layout(old(self)),
            final(self).same_selections(old(self)),
    {
        remove_line(&mut self.session.unfolding_lines, line_index);
        insert_line(&mut self.session.folding_lines, line_index);
        proof {
            lemma_line_sets(self.session.folding_lines@, self.session.unfolding_lines@, old(self).session.folding_lines@, old(self).session.unfolding_lines@, line_index, self.document.text.spec_lines().len() as int);
            assert(self.summed_heights() =~= self.heights_from_scratch());
        }
    }

    /// Starts unfolding line `line_index`: it joins the unfolding lines and leaves the
    /// folding ones.
    pub fn unfold_line(&mut self, line_index: usize)
        requires
            old(self).settled(),
            line_index < old(self).lines().len(),
        ensures
            final(self).settled(),
            forall|y: usize| final(self).unfolding_lines().contains(y) <==> (old(self).unfolding_lines().contains(y) || y == line_index),
            forall|y: usize| final(self).folding_lines().contains(y) <==> (old(self).folding_lines().contains(y) && y != line_index),
            final(self).same_document(old(self)),
            final(self).same_layout(old(self)),
            final(self).same_selections(old(self)),
    {
        remove_line(&mut self.session.folding_lines, line_index);
        insert_line(&mut self.session.unfolding_lines, line_index);
        proof {
            lemma_line_sets(self.session.folding_lines@, self.session.unfolding_lines@, old(self).session.folding_lines@, old(self).session.unfolding_lines@, line_index, self.document.text.spec_lines().len() as int);
            assert(self.summed_heights() =~= self.heights_from_scratch());
        }
    }

    /// Advances every fold animation by one step. A folding line's scale takes a
    /// folding step and the line stays folding until its scale is zero; an unfolding
    /// line's scale takes an unfolding step and the line stays unfolding until its
    /// scale is full. Returns whether any line is still animating afterwards, that is
    /// whether another step is needed.
    pub fn update_fold_animations(&mut self) -> (r: bool)
        requires
            old(self).settled(),
        ensures
            final(self).settled(),
            r == (final(self).folding_lines().len() > 0 || final(self).unfolding_lines().len() > 0),
            final(self).scale().len() == old(self).scale().len(),
            forall|i: int| 0 <= i < old(self).scale().len() ==> #[trigger] final(self).scale()[i] == if old(self).folding_lines().contains(i as usize) {
                fold_step(old(self).scale()[i])
            } else if old(self).unfolding_lines().contains(i as usize) {
                unfold_step(old(self).scale()[i])
            } else {
                old(self).scale()[i]
            },
            forall|y: usize| final(self).folding_lines().contains(y) <==> (old(self).folding_lines().contains(y) && final(self).scale()[y as int] != 0),
            forall|y: usize| final(self).unfolding_lines().contains(y) <==> (old(self).unfolding_lines().contains(y) && final(self).scale()[y as int] != SCALE_ONE),
            final(self).same_document(old(self)),
            final(self).soft_breaks() == old(self).soft_breaks(),
            final(self).fold_column_indices() == old(self).fold_column_indices(),
            final(self).same_selections(old(self)),
            old(self).folding_lines().len() == 0 && old(self).unfolding_lines().len() == 0
                ==> final(self).same_layout(old(self)) && final(self).same_folds(old(self)),
    {
        if self.session.folding_lines.len() == 0 && self.session.unfolding_lines.len() == 0 {
            return false;
        }
        let ghost sb = self.session.soft_breaks@;
        let ghost bi = self.document.block_inlays@;
        let ghost s0 = self.session.scale@;
        let folding = step_lines(
            &mut self.session.scale,
            &mut self.session.summed_heights,
            &self.session.folding_lines,
            false,
            Ghost(sb),
            Ghost(bi),
        );
        let ghost s1 = self.session.scale@;
        let unfolding = step_lines(
            &mut self.session.scale,
            &mut self.session.summed_heights,
            &self.session.unfolding_lines,
            true,
            Ghost(sb),
            Ghost(bi),
        );
        let ghost f0 = self.session.folding_lines@;
        let ghost u0 = self.session.unfolding_lines@;
        self.session.folding_lines = folding;
        self.session.unfolding_lines = unfolding;
        proof {
            let s2 = self.session.scale@;
            assert forall|i: int| 0 <= i < s0.len() implies #[trigger] s2[i] == if f0.contains(i as usize) {
                fold_step(s0[i])
            } else if u0.contains(i as usize) {
                unfold_step(s0[i])
            } else {
                s0[i]
            } by {
                if u0.contains(i as usize) {
                    let q = choose|q: int| 0 <= q < u0.len() && u0[q] == i as usize;
                    assert(!f0.contains(u0[q]));
                }
            }
            assert forall|y: usize| self.session.folding_lines@.contains(y) <==> (f0.contains(y) && s2[y as int] != 0) by {
                if f0.contains(y) {
                    let q = choose|q: int| 0 <= q < f0.len() && f0[q] == y;
                    assert(!u0.contains(y));
                    assert(s2[y as int] == s1[y as int]);
                }
            }
            assert forall|y: usize| !(self.session.folding_lines@.contains(y) && self.session.unfolding_lines@.contains(y)) by {
                if f0.contains(y) {
                    let q = choose|q: int| 0 <= q < f0.len() && f0[q] == y;
                    assert(!u0.contains(y));
                }
            }
            lemma_line_sets(self.session.folding_lines@, self.session.unfolding_lines@, f0, u0, 0, self.document.text.spec_lines().len() as int);
        }
        self.update_summed_heights();
        self.session.folding_lines.len() > 0 || self.session.unfolding_lines.len() > 0
    }

    /// The soft breaks of every line wrapped at `max_column_count` columns, with tabs
    /// `tab_column_count` wide.
    pub open spec fn wrapped(&self, max_column_count: usize, tab_column_count: usize) -> Seq<Seq<usize>> {
        Seq::new(
            self.lines().len(),
            |i: int| wrapped_soft_breaks(
                self.lines()[i],
                self.inline_inlays()[i],
                max_column_count,
                tab_column_count,
            ),
        )
    }

    /// Recomputes every line's soft breaks, then the heights that changed. Wrapping
    /// again with the same widths changes nothing, not even the cached heights.
    pub fn wrap_lines(&mut self, max_column_count: usize, tab_column_count: usize)
        requires
            old(self).settled(),
        ensures
            final(self).settled(),
            final(self).soft_breaks() == old(self).wrapped(max_column_count, tab_column_count),
            old(self).soft_breaks() == old(self).wrapped(max_column_count, tab_column_count)
                ==> final(self).summed_heights() == old(self).summed_heights(),
            final(self).wrapped(max_column_count, tab_column_count) == old(self).wrapped(max_column_count, tab_column_count),
            final(self).same_document(old(self)),
            final(self).fold_column_indices() == old(self).fold_column_indices(),
            final(self).scale() == old(self).scale(),
            final(self).same_selections(old(self)),
            final(self).same_folds(old(self)),
    {
        let ghost target = self.wrapped(max_column_count, tab_column_count);
        let ghost sb0 = self.session.soft_breaks@;
        let ghost scale = self.session.scale@;
        let ghost bi = self.document.block_inlays@;
        let mut soft_breaks: Vec<Vec<usize>> = Vec::new();
        let mut summed_heights: Vec<u64> = Vec::new();
        core::mem::swap(&mut soft_breaks, &mut self.session.soft_breaks);
        core::mem::swap(&mut summed_heights, &mut self.session.summed_heights);
        let ghost h0 = summed_heights@;
        let lines = self.document.text.as_lines();
        let n = lines.len();
        let mut i: usize = 0;
        while i < n
            invariant
                n == self.document.text.spec_lines().len(),
                lines_view(lines@) == self.document.text.spec_lines(),
                lines@.len() == n,
                document_wf(&*self.document),
                i <= n,
                soft_breaks@.len() == n,
                target.len() == n,
                forall|j: int| 0 <= j < n ==> #[trigger] target[j] == wrapped_soft_breaks(
                    self.document.text.spec_lines()[j],
                    self.document.inline_inlays@[j]@,
                    max_column_count,
                    tab_column_count,
                ),
                forall|j: int| 0 <= j < i ==> #[trigger] soft_breaks@[j]@ == target[j],
                forall|j: int| i <= j < n ==> #[trigger] soft_breaks@[j] == sb0[j],
                summed_heights@.len() <= h0.len(),
                forall|j: int| 0 <= j < summed_heights@.len() ==> #[trigger] summed_heights@[j] == h0[j],
                summed_heights@.len() <= i || summed_heights@.len() == h0.len(),
                forall|j: int| 0 <= j < summed_heights@.len() && j < i ==> soft_breaks@[j]@.len() == sb0[j]@.len(),
                soft_breaks_view(sb0) == target ==> summed_heights@ == h0,
            decreases n - i,
        {
            let line = Line {
                text: lines[i].as_slice(),
                inline_inlays: self.document.inline_inlays[i].as_slice(),
                soft_breaks: &[],
                fold_column_index: 0,
                scale: 0,
            };
            proof {
                assert(line.wf());
            }
            let new_breaks = wrap_line(&line, max_column_count, tab_column_count);
            let ghost same = new_breaks@ == sb0[i as int]@;
            proof {
                if soft_breaks_view(sb0) == target {
                    assert(soft_breaks_view(sb0)[i as int] == sb0[i as int]@);
                }
            }
            let old_count = soft_breaks[i].len();
            let new_count = new_breaks.len();
            soft_breaks.set(i, new_breaks);
            if new_count != old_count && i < summed_heights.len() {
                summed_heights.truncate(i);
            }
            i += 1;
        }
        core::mem::swap(&mut soft_breaks, &mut self.session.soft_breaks);
        core::mem::swap(&mut summed_heights, &mut self.session.summed_heights);
        proof {
            assert(self.soft_breaks() =~= target);
            assert forall|j: int| 0 <= j < self.session.summed_heights@.len() implies #[trigger] self.session.summed_heights@[j]
                == summed_height(scale, self.session.soft_breaks@, bi, j) by {
                assert forall|k: int| 0 <= k <= j implies scale[k] == scale[k] && sb0[k]@.len() == self.session.soft_breaks@[k]@.len() by {
                    assert(k < self.session.summed_heights@.len());
                }
                lemma_summed_height_prefix(scale, sb0, scale, self.session.soft_breaks@, bi, j);
            }
            if old(self).soft_breaks() == target {
                assert(self.summed_heights() == old(self).summed_heights());
            }
            assert(self.wrapped(max_column_count, tab_column_count) =~= target);
        }
        self.update_summed_heights();
    }

    /// The text after the edit at every selection, in order.
    pub open spec fn edited(&self, kind: EditKind) -> EditState {
        edit_prefix(self.lines(), self.line_data(), self.selections(), kind, self.selections().len() as int)
    }

    /// This session is `old` after `kind` was applied at every selection: the text and
    /// per-line data as edited, the selections placed and merged, animating lines past
    /// the last line dropped, the block inlays kept.
    pub open spec fn is_edit_of(&self, old: &Self, kind: EditKind) -> bool {
        let st = old.edited(kind);
        let placed = reinserted(marked(st.out, old.last_added_selection_index() as int));
        &&& self.lines() == st.text
        &&& self.line_data() == st.data
        &&& self.selections() == unmarked(placed)
        &&& self.last_added_selection_index() == marked_index(placed, 0)
        &&& self.block_inlays() == old.block_inlays()
        &&& forall|y: usize| self.folding_lines().contains(y) <==> (old.folding_lines().contains(y) && y < self.lines().len())
        &&& forall|y: usize| self.unfolding_lines().contains(y) <==> (old.unfolding_lines().contains(y) && y < self.lines().len())
    }

    /// Applies an edit at every selection, from first to last: each selection's range is
    /// carried into the text as edited so far by its distance from the selection before.
    /// Per-line data follows the lines, the selections are placed after the edit and
    /// merged, animating lines past the new last line stop animating, and the heights
    /// are brought up to date.
    #[verifier::rlimit(30)]
    pub fn modify_text(&mut self, command: EditCommand)
        requires
            old(self).settled(),
            command.wf(),
        ensures
            final(self).settled(),
            final(self).lines() == old(self).edited(command.spec_kind()).text,
            final(self).selections() == unmarked(reinserted(marked(
                old(self).edited(command.spec_kind()).out,
                old(self).last_added_selection_index() as int,
            ))),
            final(self).last_added_selection_index() == marked_index(reinserted(marked(
                old(self).edited(command.spec_kind()).out,
                old(self).last_added_selection_index() as int,
            )), 0),
            final(self).line_data() == old(self).edited(command.spec_kind()).data,
            final(self).block_inlays() == old(self).block_inlays(),
            forall|y: usize| final(self).folding_lines().contains(y) <==> (old(self).folding_lines().contains(y) && y < final(self).lines().len()),
            forall|y: usize| final(self).unfolding_lines().contains(y) <==> (old(self).unfolding_lines().contains(y) && y < final(self).lines().len()),
            final(self).is_edit_of(old(self), command.spec_kind()),
    {
        let ghost kind = command.spec_kind();
        let ghost d0 = self.line_data();
        let ghost t0 = self.document.text.spec_lines();
        let ghost sels = self.session.selections@;
        let ghost bi = self.document.block_inlays@;
        let ghost last = self.session.last_added_selection_index;
        let mut text = Text::new();
        core::mem::swap(&mut text, &mut self.document.text);
        let mut inline_inlays: Vec<Vec<(usize, InlineInlay)>> = Vec::new();
        core::mem::swap(&mut inline_inlays, &mut self.document.inline_inlays);
        let mut soft_breaks: Vec<Vec<usize>> = Vec::new();
        core::mem::swap(&mut soft_breaks, &mut self.session.soft_breaks);
        let mut fold_column_index: Vec<usize> = Vec::new();
        core::mem::swap(&mut fold_column_index, &mut self.session.fold_column_index);
        let mut scale: Vec<u64> = Vec::new();
        core::mem::swap(&mut scale, &mut self.session.scale);
        let mut summed_heights: Vec<u64> = Vec::new();
        core::mem::swap(&mut summed_heights, &mut self.session.summed_heights);
        let mut items: Vec<(Selection, bool)> = Vec::new();
        let mut prev_end = Position::origin();
        let mut diffed_prev_end = Position::origin();
        let n = self.session.selections.len();
        let last_index = self.session.last_added_selection_index;
        let mut idx: usize = 0;
        while idx < n
            invariant
                n == sels.len(),
                sels == self.session.selections@,
                selections_wf(sels),
                last == last_index,
                command.wf(),
                kind == command.spec_kind(),
                idx <= n,
                lines_in_step(&text, &inline_inlays, &soft_breaks, &fold_column_index, &scale, &summed_heights, bi),
                ({
                    let st = edit_prefix(t0, d0, sels, kind, idx as int);
                    &&& st.text == text.spec_lines()
                    &&& st.data == data_of(inline_inlays@, soft_breaks@, fold_column_index@, scale@)
                    &&& st.prev_end == prev_end
                    &&& st.diffed_prev_end == diffed_prev_end
                    &&& items@ == marked(st.out, last as int)
                    &&& st.out.len() == idx
                }),
                idx > 0 ==> prev_end == sels[idx - 1].spec_end(),
            decreases n - idx,
        {
            let sel = self.session.selections[idx];
            proof {
                crate::selections::lemma_start_le_end(sel);
                if idx > 0 {
                    assert(pos_lt(sels[idx - 1].spec_end(), sels[idx as int].spec_start()));
                }
            }
            let (placed, ne) = edit_at(
                &mut text,
                &mut inline_inlays,
                &mut soft_breaks,
                &mut fold_column_index,
                &mut scale,
                &mut summed_heights,
                &command,
                sel,
                prev_end,
                diffed_prev_end,
                Ghost(bi),
            );
            items.push((placed, idx == last_index));
            diffed_prev_end = ne;
            prev_end = sel.end();
            idx += 1;
            proof {
                lemma_edit_prefix_step(t0, d0, sels, kind, idx as int);
                let st2 = edit_prefix(t0, d0, sels, kind, idx as int);
                assert(items@ =~= marked(st2.out, last as int));
            }
        }
        let (new_selections, new_last) = reinsert(items);
        self.session.selections = new_selections;
        self.session.last_added_selection_index = new_last;
        let line_count = text.line_count();
        retain_below(&mut self.session.folding_lines, line_count);
        retain_below(&mut self.session.unfolding_lines, line_count);
        core::mem::swap(&mut text, &mut self.document.text);
        core::mem::swap(&mut inline_inlays, &mut self.document.inline_inlays);
        core::mem::swap(&mut soft_breaks, &mut self.session.soft_breaks);
        core::mem::swap(&mut fold_column_index, &mut self.session.fold_column_index);
        core::mem::swap(&mut scale, &mut self.session.scale);
        core::mem::swap(&mut summed_heights, &mut self.session.summed_heights);
        proof {
            lemma_reinserted_wf(items@);
            assert forall|i: int| 0 <= i < self.session.folding_lines@.len() implies !self.session.unfolding_lines@.contains(#[trigger] self.session.folding_lines@[i]) by {
                let y = self.session.folding_lines@[i];
                assert(self.session.folding_lines@.contains(y));
                assert(old(self).session.folding_lines@.contains(y));
                let q = choose|q: int| 0 <= q < old(self).session.folding_lines@.len() && old(self).session.folding_lines@[q] == y;
                assert(!old(self).session.unfolding_lines@.contains(old(self).session.folding_lines@[q]));
            }
        }
        self.update_summed_heights();
    }

    /// Replaces every selection with `replace_with`.
    pub fn replace(&mut self, replace_with: Text)
        requires
            old(self).settled(),
            replace_with.wf(),
        ensures
            final(self).settled(),
            final(self).is_edit_of(old(self), EditKind::Replace(replace_with.spec_lines())),
    {
        self.modify_text(EditCommand::Replace(replace_with));
    }

    /// Replaces every selection with a line break.
    pub fn enter(&mut self)
        requires
            old(self).settled(),
        ensures
            final(self).settled(),
            final(self).is_edit_of(old(self), EditKind::Replace(seq![Seq::empty(), Seq::empty()])),
    {
        let mut lines: Vec<Vec<u8>> = Vec::new();
        lines.push(Vec::new());
        lines.push(Vec::new());
        let text = Text::from_lines(lines);
        proof {
            assert(text.spec_lines() =~= seq![Seq::<u8>::empty(), Seq::<u8>::empty()]);
        }
        self.modify_text(EditCommand::Replace(text));
    }

    /// Deletes every selection, or the character after each empty one.
    pub fn delete(&mut self)
        requires
            old(self).settled(),
        ensures
            final(self).settled(),
            final(self).is_edit_of(old(self), EditKind::Delete),
    {
        self.modify_text(EditCommand::Delete);
    }

    /// Deletes every selection, or the character before each empty one.
    pub fn backspace(&mut self)
        requires
            old(self).settled(),
        ensures
            final(self).settled(),
            final(self).is_edit_of(old(self), EditKind::Backspace),
    {
        self.modify_text(EditCommand::Backspace);
    }

    /// The selections with every cursor moved one character left (or right); each
    /// anchor stays where it is when `select`, and follows its cursor otherwise.
    pub open spec fn moved_sideways(&self, right: bool, select: bool) -> Seq<Selection> {
        Seq::new(self.selections().len(), |j: int| {
            let sel = self.selections()[j];
            let p = sel.cursor;
            let c = if !in_text(self.lines(), p) {
                p
            } else if right {
                position_after(self.lines(), p)
            } else {
                position_before(self.lines(), p)
            };
            Selection { anchor: if select { sel.anchor } else { c }, cursor: c, column_index: None }
        })
    }

    /// Moves every cursor one character sideways, then sorts and merges the selections;
    /// the most recently added one keeps its direction when it is merged.
    fn move_cursors_sideways(&mut self, right: bool, select: bool)
        requires
            old(self).settled(),
        ensures
            final(self).settled(),
            final(self).selections() == unmarked(reinserted(marked(
                old(self).moved_sideways(right, select),
                old(self).last_added_selection_index() as int,
            ))),
            final(self).last_added_selection_index() == marked_index(reinserted(marked(
                old(self).moved_sideways(right, select),
                old(self).last_added_selection_index() as int,
            )), 0),
            final(self).same_document(old(self)),
            final(self).same_layout(old(self)),
            final(self).same_folds(old(self)),
    {
        let ghost target = self.moved_sideways(right, select);
        let ghost last = self.session.last_added_selection_index;
        let mut items: Vec<(Selection, bool)> = Vec::new();
        let n = self.session.selections.len();
        let mut i: usize = 0;
        while i < n
            invariant
                n == self.session.selections@.len(),
                target == self.moved_sideways(right, select),
                last == self.session.last_added_selection_index,
                i <= n,
                items@ == marked(target, last as int).subrange(0, i as int),
            decreases n - i,
        {
            let sel = self.session.selections[i];
            let p = sel.cursor;
            let c = if !position_in_text(&self.document.text, p) {
                p
            } else if right {
                move_right(&self.document.text, p)
            } else {
                move_left(&self.document.text, p)
            };
            let moved = Selection { anchor: if select { sel.anchor } else { c }, cursor: c, column_index: None };
            items.push((moved, i == self.session.last_added_selection_index));
            i += 1;
            proof {
                assert(items@ =~= marked(target, last as int).subrange(0, i as int));
            }
        }
        proof {
            assert(items@ =~= marked(target, last as int));
        }
        let (sels, new_last) = reinsert(items);
        self.session.selections = sels;
        self.session.last_added_selection_index = new_last;
        proof {
            assert(self.summed_heights() =~= self.heights_from_scratch());
        }
    }

    /// Moves every cursor one character left.
    pub fn move_cursors_left(&mut self, select: bool)
        requires
            old(self).settled(),
        ensures
            final(self).settled(),
            final(self).selections() == unmarked(reinserted(marked(
                old(self).moved_sideways(false, select),
                old(self).last_added_selection_index() as int,
            ))),
            final(self).last_added_selection_index() == marked_index(reinserted(marked(
                old(self).moved_sideways(false, select),
                old(self).last_added_selection_index() as int,
            )), 0),
            final(self).same_document(old(self)),
            final(self).same_layout(old(self)),
            final(self).same_folds(old(self)),
    {
        self.move_cursors_sideways(false, select);
    }

    /// Moves every cursor one character right.
    pub fn move_cursors_right(&mut self, select: bool)
        requires
            old(self).settled(),
        ensures
            final(self).settled(),
            final(self).selections() == unmarked(reinserted(marked(
                old(self).moved_sideways(true, select),
                old(self).last_added_selection_index() as int,
            ))),
            final(self).last_added_selection_index() == marked_index(reinserted(marked(
                old(self).moved_sideways(true, select),
                old(self).last_added_selection_index() as int,
            )), 0),
            final(self).same_document(old(self)),
            final(self).same_layout(old(self)),
            final(self).same_folds(old(self)),
    {
        self.move_cursors_sideways(true, select);
    }

    /// Line `i` with its soft breaks put in.
    pub open spec fn wrapped_line(&self, i: int) -> Seq<WrappedInlineView> {
        wrapped_from(
            inlines_of(self.lines()[i], self.inline_inlays()[i]),
            self.soft_breaks()[i],
            0,
            0,
            0,
            0,
        )
    }

    /// Where a cursor at `p` goes one row up (or down), keeping column `column` when
    /// one is remembered, and the column it keeps. At the first (last) row of the
    /// document it goes to the start (end) of its line.
    pub open spec fn vertical_target(&self, p: Position, column: Option<usize>, up: bool) -> (Position, Option<usize>) {
        let l = p.line_index as int;
        let tab = self.tab_column_count();
        if l >= self.lines().len() {
            (p, column)
        } else {
            let (row, c0) = row_column_of(self.wrapped_line(l), p.byte_index as int, tab);
            let c = match column { Some(c) => c as int, None => c0 };
            let rows = self.soft_breaks()[l].len() + 1;
            if up && row > 0 {
                (Position { line_index: p.line_index, byte_index: byte_at_row_column(self.wrapped_line(l), self.lines()[l], row - 1, c, tab) as usize }, Some(c as usize))
            } else if up && l > 0 {
                let prev_rows = self.soft_breaks()[l - 1].len() + 1;
                (Position { line_index: (l - 1) as usize, byte_index: byte_at_row_column(self.wrapped_line(l - 1), self.lines()[l - 1], prev_rows - 1, c, tab) as usize }, Some(c as usize))
            } else if up {
                (Position { line_index: p.line_index, byte_index: 0 }, column)
            } else if row + 1 < rows {
                (Position { line_index: p.line_index, byte_index: byte_at_row_column(self.wrapped_line(l), self.lines()[l], row + 1, c, tab) as usize }, Some(c as usize))
            } else if l + 1 < self.lines().len() {
                (Position { line_index: (l + 1) as usize, byte_index: byte_at_row_column(self.wrapped_line(l + 1), self.lines()[l + 1], 0, c, tab) as usize }, Some(c as usize))
            } else {
                (Position { line_index: p.line_index, byte_index: self.lines()[l].len() as usize }, column)
            }
        }
    }

    /// The selections with every cursor moved one row up (or down); each anchor stays
    /// where it is when `select`, and follows its cursor otherwise.
    pub open spec fn moved_vertically(&self, up: bool, select: bool) -> Seq<Selection> {
        Seq::new(self.selections().len(), |j: int| {
            let sel = self.selections()[j];
            let (c, col) = self.vertical_target(sel.cursor, sel.column_index, up);
            Selection { anchor: if select { sel.anchor } else { c }, cursor: c, column_index: col }
        })
    }

    fn line_at(&self, i: usize) -> (r: Line<'_>)
        requires
            self.wf(),
            i < self.lines().len(),
        ensures
            r.wf(),
            r.text@ == self.lines()[i as int],
            r.spec_wrapped_inlines() == self.wrapped_line(i as int),
            r.soft_breaks@ == self.soft_breaks()[i as int],
    {
        let lines = self.document.text.as_lines();
        proof {
            assert(lines@[i as int]@ == self.lines()[i as int]);
        }
        Line {
            text: lines[i].as_slice(),
            inline_inlays: self.document.inline_inlays[i].as_slice(),
            soft_breaks: self.session.soft_breaks[i].as_slice(),
            fold_column_index: self.session.fold_column_index[i],
            scale: self.session.scale[i],
        }
    }

    fn vertical_target_exec(&self, p: Position, column: Option<usize>, up: bool) -> (r: (Position, Option<usize>))
        requires
            self.wf(),
        ensures
            r == self.vertical_target(p, column, up),
    {
        let l = p.line_index;
        let n = self.document.text.line_count();
        let tab = self.settings.tab_column_count;
        if l >= n {
            return (p, column);
        }
        let line = self.line_at(l);
        let (row, c0) = line.byte_index_to_row_column_index(p.byte_index, tab);
        let c = match column { Some(c) => c, None => c0 };
        let rows_minus_one = line.soft_breaks.len();
        if up && row > 0 {
            (Position { line_index: l, byte_index: line.row_column_index_to_byte_index(row - 1, c, tab) }, Some(c))
        } else if up && l > 0 {
            let prev = self.line_at(l - 1);
            (Position { line_index: l - 1, byte_index: prev.row_column_index_to_byte_index(prev.soft_breaks.len(), c, tab) }, Some(c))
        } else if up {
            (Position { line_index: l, byte_index: 0 }, column)
        } else if row < rows_minus_one {
            (Position { line_index: l, byte_index: line.row_column_index_to_byte_index(row + 1, c, tab) }, Some(c))
        } else if n - l > 1 {
            let next = self.line_at(l + 1);
            (Position { line_index: l + 1, byte_index: next.row_column_index_to_byte_index(0, c, tab) }, Some(c))
        } else {
            (Position { line_index: l, byte_index: line.text.len() }, column)
        }
    }

    /// Moves every cursor one row up (or down), then sorts and merges the selections.
    fn move_cursors_vertically(&mut self, up: bool, select: bool)
        requires
            old(self).settled(),
        ensures
            final(self).settled(),
            final(self).selections() == unmarked(reinserted(marked(
                old(self).moved_vertically(up, select),
                old(self).last_added_selection_index() as int,
            ))),
            final(self).last_added_selection_index() == marked_index(reinserted(marked(
                old(self).moved_vertically(up, select),
                old(self).last_added_selection_index() as int,
            )), 0),
            final(self).same_document(old(self)),
            final(self).same_layout(old(self)),
            final(self).same_folds(old(self)),
    {
        let ghost target = self.moved_vertically(up, select);
        let ghost last = self.session.last_added_selection_index;
        let mut items: Vec<(Selection, bool)> = Vec::new();
        let n = self.session.selections.len();
        let mut i: usize = 0;
        while i < n
            invariant
                self.wf(),
                n == self.session.selections@.len(),
                target == self.moved_vertically(up, select),
                last == self.session.last_added_selection_index,
                i <= n,
                items@ == marked(target, last as int).subrange(0, i as int),
            decreases n - i,
        {
            let sel = self.session.selections[i];
            let (c, col) = self.vertical_target_exec(sel.cursor, sel.column_index, up);
            let moved = Selection { anchor: if select { sel.anchor } else { c }, cursor: c, column_index: col };
            items.push((moved, i == self.session.last_added_selection_index));
            i += 1;
            proof {
                assert(items@ =~= marked(target, last as int).subrange(0, i as int));
            }
        }
        proof {
            assert(items@ =~= marked(target, last as int));
        }
        let (sels, new_last) = reinsert(items);
        self.session.selections = sels;
        self.session.last_added_selection_index = new_last;
        proof {
            assert(self.summed_heights() =~= self.heights_from_scratch());
        }
    }

    /// Moves every cursor one row up.
    pub fn move_cursors_up(&mut self, select: bool)
        requires
            old(self).settled(),
        ensures
            final(self).settled(),
            final(self).selections() == unmarked(reinserted(marked(
                old(self).moved_vertically(true, select),
                old(self).last_added_selection_index() as int,
            ))),
            final(self).last_added_selection_index() == marked_index(reinserted(marked(
                old(self).moved_vertically(true, select),
                old(self).last_added_selection_index() as int,
            )), 0),
            final(self).same_document(old(self)),
            final(self).same_layout(old(self)),
            final(self).same_folds(old(self)),
    {
        self.move_cursors_vertically(true, select);
    }

    /// Moves every cursor one row down.
    pub fn move_cursors_down(&mut self, select: bool)
        requires
            old(self).settled(),
        ensures
            final(self).settled(),
            final(self).selections() == unmarked(reinserted(marked(
                old(self).moved_vertically(false, select),
                old(self).last_added_selection_index() as int,
            ))),
            final(self).last_added_selection_index() == marked_index(reinserted(marked(
                old(self).moved_vertically(false, select),
                old(self).last_added_selection_index() as int,
            )), 0),
            final(self).same_document(old(self)),
            final(self).same_layout(old(self)),
            final(self).same_folds(old(self)),
    {
        self.move_cursors_vertically(false, select);
    }

    /// In a settled session the selections are sorted by start, and no selection is to
    /// be merged with a later one; every change to the session keeps it settled.
    pub proof fn lemma_selections_in_order(&self)
        requires
            self.settled(),
        ensures
            forall|i: int, j: int| #![trigger self.selections()[i], self.selections()[j]]
                0 <= i < j < self.selections().len() ==> pos_le(self.selections()[i].spec_start(), self.selections()[j].spec_start())
                    && !self.selections()[i].spec_should_merge(self.selections()[j]),
    {
        crate::selections::lemma_selections_sorted(self.selections());
    }

    /// Places a single cursor; every other selection is dropped.
    pub fn set_cursor(&mut self, cursor: Position)
        requires
            old(self).settled(),
        ensures
            final(self).settled(),
            final(self).selections() == seq![Selection { anchor: cursor, cursor, column_index: None }],
            final(self).last_added_selection_index() == 0,
            final(self).same_document(old(self)),
            final(self).same_layout(old(self)),
            final(self).same_folds(old(self)),
    {
        self.session.selections.clear();
        self.session.selections.push(Selection::from_cursor(cursor));
        self.session.last_added_selection_index = 0;
        proof {
            assert(self.selections() =~= seq![Selection { anchor: cursor, cursor, column_index: None }]);
            assert(self.summed_heights() =~= self.heights_from_scratch());
        }
    }

    /// Adds a cursor: a selection that holds the position is replaced by it, otherwise
    /// it is inserted in order. It becomes the most recently added selection.
    pub fn add_cursor(&mut self, cursor: Position)
        requires
            old(self).settled(),
        ensures
            final(self).settled(),
            final(self).selections() == with_cursor_added(old(self).selections(), cursor),
            final(self).last_added_selection_index() == cursor_slot(old(self).selections(), cursor),
            final(self).same_document(old(self)),
            final(self).same_layout(old(self)),
            final(self).same_folds(old(self)),
    {
        proof {
            lemma_with_cursor_added_wf(self.session.selections@, cursor);
        }
        let selection = Selection::from_cursor(cursor);
        let index = find_cursor_slot(&self.session.selections, cursor);
        if index < self.session.selections.len() && self.session.selections[index].start().le(&cursor) {
            self.session.selections.set(index, selection);
        } else {
            self.session.selections.insert(index, selection);
        }
        self.session.last_added_selection_index = index;
        proof {
            assert(self.selections() =~= with_cursor_added(old(self).selections(), cursor));
            assert(self.summed_heights() =~= self.heights_from_scratch());
        }
    }

    /// Moves the cursor of the most recently added selection (and its anchor too,
    /// unless `select`), then drops the neighbours that it now reaches.
    pub fn move_cursor_to(&mut self, select: bool, cursor: Position)
        requires
            old(self).settled(),
        ensures
            final(self).settled(),
            ({
                let old_sels = old(self).selections();
                let i = old(self).last_added_selection_index() as int;
                let moved = Selection {
                    anchor: if select { old_sels[i].anchor } else { cursor },
                    cursor,
                    column_index: old_sels[i].column_index,
                };
                &&& final(self).selections() == replace_and_absorb(old_sels, i, moved)
                &&& final(self).last_added_selection_index() == left_stop(old_sels, moved, i)
            }),
            final(self).same_document(old(self)),
            final(self).same_layout(old(self)),
            final(self).same_folds(old(self)),
    {
        let ghost old_sels = self.session.selections@;
        let mut sels: Vec<Selection> = Vec::new();
        core::mem::swap(&mut sels, &mut self.session.selections);
        let mut current_index = self.session.last_added_selection_index;
        let ghost i = current_index as int;
        let mut moved = sels[current_index];
        moved.cursor = cursor;
        if !select {
            moved.anchor = cursor;
        }
        sels.set(current_index, moved);
        proof {
            lemma_replace_and_absorb_wf(old_sels, i, moved);
        }
        while current_index > 0 && sels[current_index - 1].should_merge(&moved)
            invariant
                0 <= current_index <= i < old_sels.len(),
                left_stop(old_sels, moved, i) == left_stop(old_sels, moved, current_index as int),
                sels@ == old_sels.subrange(0, current_index as int).push(moved)
                    + old_sels.subrange(i + 1, old_sels.len() as int),
            decreases current_index,
        {
            sels.remove(current_index - 1);
            current_index -= 1;
            proof {
                assert(sels@ =~= old_sels.subrange(0, current_index as int).push(moved)
                    + old_sels.subrange(i + 1, old_sels.len() as int));
            }
        }
        let ghost a = current_index as int;
        let ghost mut j: int = i;
        while sels.len() - current_index > 1 && moved.should_merge(&sels[current_index + 1])
            invariant
                a == left_stop(old_sels, moved, i),
                a == current_index,
                0 <= a <= i <= j < old_sels.len(),
                current_index < sels@.len(),
                right_stop(old_sels, moved, i) == right_stop(old_sels, moved, j),
                sels@ == old_sels.subrange(0, a).push(moved)
                    + old_sels.subrange(j + 1, old_sels.len() as int),
            decreases sels@.len(),
        {
            proof {
                assert(sels@.len() == a + 1 + old_sels.len() - j - 1);
                assert(sels@[a + 1] == old_sels[j + 1]);
            }
            sels.remove(current_index + 1);
            proof {
                j = j + 1;
                assert(sels@ =~= old_sels.subrange(0, a).push(moved)
                    + old_sels.subrange(j + 1, old_sels.len() as int));
            }
        }
        proof {
            assert(sels@.len() == a + 1 + old_sels.len() - j - 1);
            if current_index + 1 < sels@.len() {
                assert(sels@[a + 1] == old_sels[j + 1]);
            }
            assert(sels@ =~= replace_and_absorb(old_sels, i, moved));
        }
        core::mem::swap(&mut sels, &mut self.session.selections);
        self.session.last_added_selection_index = current_index;
        proof {
            assert(self.summed_heights() =~= self.heights_from_scratch());
        }
    }
}


/// Lines as presented, handed out one at a time.
#[derive(Debug)]
pub struct Lines<'a> {
    items: Vec<Line<'a>>,
    index: usize,
}

impl<'a> Lines<'a> {
    /// What is left to hand out.
    pub closed spec fn remaining(&self) -> Seq<Line<'a>> {
        if self.index <= self.items@.len() {
            self.items@.subrange(self.index as int, self.items@.len() as int)
        } else {
            Seq::empty()
        }
    }

    pub fn from_vec(items: Vec<Line<'a>>) -> (r: Lines<'a>)
        ensures
            r.remaining() == items@,
    {
        let r = Lines { items, index: 0 };
        proof {
            assert(r.remaining() =~= r.items@);
        }
        r
    }

    /// The next item, if any is left.
    pub fn next(&mut self) -> (r: Option<Line<'a>>)
        ensures
            old(self).remaining().len() == 0 ==> r.is_none() && final(self).remaining() == old(self).remaining(),
            old(self).remaining().len() > 0 ==> r == Some(old(self).remaining()[0])
                && final(self).remaining() == old(self).remaining().drop_first(),
    {
        if self.index < self.items.len() {
            let item = self.items[self.index];
            self.index = self.index + 1;
            proof {
                assert(self.remaining() =~= old(self).remaining().drop_first());
            }
            Some(item)
        } else {
            None
        }
    }

    /// What is left to hand out, all at once.
    pub fn into_vec(self) -> (r: Vec<Line<'a>>)
        ensures
            r@ == self.remaining(),
    {
        let mut r: Vec<Line<'a>> = Vec::new();
        if self.index >= self.items.len() {
            proof {
                assert(r@ =~= self.remaining());
            }
            return r;
        }
        let mut i = self.index;
        while i < self.items.len()
            invariant
                self.index <= i <= self.items@.len(),
                r@ == self.items@.subrange(self.index as int, i as int),
            decreases self.items@.len() - i,
        {
            r.push(self.items[i]);
            i += 1;
            proof {
                assert(r@ =~= self.items@.subrange(self.index as int, i as int));
            }
        }
        proof {
            assert(r@ =~= self.remaining());
            if self.index > self.items@.len() {
                assert(r@ =~= Seq::<Line<'a>>::empty());
            }
        }
        r
    }
}

/// The blocks of a layout, handed out one at a time.
#[derive(Debug)]
pub struct Blocks<'a> {
    items: Vec<Block<'a>>,
    index: usize,
}

impl<'a> Blocks<'a> {
    /// What is left to hand out.
    pub closed spec fn remaining(&self) -> Seq<Block<'a>> {
        if self.index <= self.items@.len() {
            self.items@.subrange(self.index as int, self.items@.len() as int)
        } else {
            Seq::empty()
        }
    }

    pub fn from_vec(items: Vec<Block<'a>>) -> (r: Blocks<'a>)
        ensures
            r.remaining() == items@,
    {
        let r = Blocks { items, index: 0 };
        proof {
            assert(r.remaining() =~= r.items@);
        }
        r
    }

    /// The next item, if any is left.
    pub fn next(&mut self) -> (r: Option<Block<'a>>)
        ensures
            old(self).remaining().len() == 0 ==> r.is_none() && final(self).remaining() == old(self).remaining(),
            old(self).remaining().len() > 0 ==> r == Some(old(self).remaining()[0])
                && final(self).remaining() == old(self).remaining().drop_first(),
    {
        if self.index < self.items.len() {
            let item = self.items[self.index];
            self.index = self.index + 1;
            proof {
                assert(self.remaining() =~= old(self).remaining().drop_first());
            }
            Some(item)
        } else {
            None
        }
    }

    /// What is left to hand out, all at once.
    pub fn into_vec(self) -> (r: Vec<Block<'a>>)
        ensures
            r@ == self.remaining(),
    {
        let mut r: Vec<Block<'a>> = Vec::new();
        if self.index >= self.items.len() {
            proof {
                assert(r@ =~= self.remaining());
            }
            return r;
        }
        let mut i = self.index;
        while i < self.items.len()
            invariant
                self.index <= i <= self.items@.len(),
                r@ == self.items@.subrange(self.index as int, i as int),
            decreases self.items@.len() - i,
        {
            r.push(self.items[i]);
            i += 1;
            proof {
                assert(r@ =~= self.items@.subrange(self.index as int, i as int));
            }
        }
        proof {
            assert(r@ =~= self.remaining());
            if self.index > self.items@.len() {
                assert(r@ =~= Seq::<Block<'a>>::empty());
            }
        }
        r
    }
}

} // verus!
