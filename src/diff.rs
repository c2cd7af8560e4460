use vstd::prelude::*;
use crate::position::{Length, Position, len_pos, len_to_pos, pos_add, pos_le, pos_sub};
use crate::text::{Text, in_text, text_concat, text_length, text_split};

verus! {

/// One step of an edit: keep, remove or add text at the current place.
#[derive(Debug)]
pub enum Operation {
    Delete(Length),
    Retain(Length),
    Insert(Text),
}

/// An operation seen as plain values.
pub ghost enum OperationView {
    Delete(Length),
    Retain(Length),
    Insert(Seq<Seq<u8>>),
}

/// What an operation does to the length of the text, without the inserted text.
#[derive(Clone, Copy, Debug, PartialEq, Eq, Structural)]
pub enum OperationInfo {
    Delete(Length),
    Retain(Length),
    Insert(Length),
}

/// Where a position goes when text is inserted exactly at it: with `InsertBefore`
/// the text goes before the position, which moves past it; with `InsertAfter` the
/// text goes after the position, which stays.
#[derive(Clone, Copy, Debug, PartialEq, Eq, Structural)]
pub enum Strategy {
    InsertBefore,
    InsertAfter,
}

impl Operation {
    pub open spec fn spec_view(&self) -> OperationView {
        match self {
            Operation::Delete(l) => OperationView::Delete(*l),
            Operation::Retain(l) => OperationView::Retain(*l),
            Operation::Insert(t) => OperationView::Insert(t.spec_lines()),
        }
    }

    pub open spec fn wf(&self) -> bool {
        match self {
            Operation::Insert(t) => t.wf(),
            _ => true,
        }
    }

    pub open spec fn spec_info(&self) -> OperationInfo {
        match self {
            Operation::Delete(l) => OperationInfo::Delete(*l),
            Operation::Retain(l) => OperationInfo::Retain(*l),
            Operation::Insert(t) => OperationInfo::Insert(text_length(t.spec_lines())),
        }
    }

    pub fn info(&self) -> (r: OperationInfo)
        requires
            self.wf(),
        ensures
            r == self.spec_info(),
    {
        match self {
            Operation::Delete(l) => OperationInfo::Delete(*l),
            Operation::Retain(l) => OperationInfo::Retain(*l),
            Operation::Insert(t) => OperationInfo::Insert(t.length()),
        }
    }
}

/// A sequence of operations, walked from the start of a text.
#[derive(Debug)]
pub struct Diff {
    operations: Vec<Operation>,
}

/// The text built so far, the text not yet walked, and whether every length fitted,
/// after the first `k` operations of `ops` are applied to `t`.
pub open spec fn apply_prefix(t: Seq<Seq<u8>>, ops: Seq<OperationView>, k: int) -> (
    Seq<Seq<u8>>,
    Seq<Seq<u8>>,
    bool,
)
    decreases k,
{
    if k <= 0 {
        (seq![Seq::empty()], t, true)
    } else {
        let (out, rest, ok) = apply_prefix(t, ops, k - 1);
        match ops[k - 1] {
            OperationView::Retain(l) => if in_text(rest, len_pos(l)) {
                let (a, b) = text_split(rest, len_pos(l));
                (text_concat(out, a), b, ok)
            } else {
                (out, rest, false)
            },
            OperationView::Delete(l) => if in_text(rest, len_pos(l)) {
                (out, text_split(rest, len_pos(l)).1, ok)
            } else {
                (out, rest, false)
            },
            OperationView::Insert(x) => (text_concat(out, x), rest, ok),
        }
    }
}

/// Every retained or deleted length fits in the text that is left when it is reached.
pub open spec fn diff_applies(t: Seq<Seq<u8>>, ops: Seq<OperationView>) -> bool {
    apply_prefix(t, ops, ops.len() as int).2
}

/// The text that results from applying `ops` to `t`; what follows the last
/// operation is kept.
pub open spec fn apply_ops(t: Seq<Seq<u8>>, ops: Seq<OperationView>) -> Seq<Seq<u8>> {
    let (out, rest, _) = apply_prefix(t, ops, ops.len() as int);
    text_concat(out, rest)
}

/// Where a position is carried by the first `k` operations: the position reached in
/// the new text, what is left to walk in the old one, and the result once known.
pub open spec fn map_prefix(p: Position, ops: Seq<OperationView>, strategy: Strategy, k: int) -> (
    Position,
    Length,
    Option<Position>,
)
    decreases k,
{
    if k <= 0 {
        (
            Position { line_index: 0, byte_index: 0 },
            Length { line_count: p.line_index, byte_count: p.byte_index },
            None,
        )
    } else {
        let (diffed, dist, done) = map_prefix(p, ops, strategy, k - 1);
        if done.is_some() {
            (diffed, dist, done)
        } else {
            match ops[k - 1] {
                OperationView::Retain(l) => if pos_le(len_pos(l), len_pos(dist)) {
                    (pos_add(diffed, l), pos_sub(len_pos(dist), len_pos(l)), None)
                } else {
                    (diffed, dist, Some(pos_add(diffed, dist)))
                },
                OperationView::Insert(x) => if dist == (Length { line_count: 0, byte_count: 0 }) {
                    if strategy == Strategy::InsertBefore {
                        (diffed, dist, Some(pos_add(diffed, text_length(x))))
                    } else {
                        (diffed, dist, Some(diffed))
                    }
                } else {
                    (pos_add(diffed, text_length(x)), dist, None)
                },
                OperationView::Delete(l) => if pos_le(len_pos(l), len_pos(dist)) {
                    (diffed, pos_sub(len_pos(dist), len_pos(l)), None)
                } else {
                    (diffed, Length { line_count: 0, byte_count: 0 }, None)
                },
            }
        }
    }
}

/// The position in the edited text that `p` is carried to by `ops`.
pub open spec fn map_position(p: Position, ops: Seq<OperationView>, strategy: Strategy) -> Position {
    let (diffed, dist, done) = map_prefix(p, ops, strategy, ops.len() as int);
    match done {
        Some(r) => r,
        None => pos_add(diffed, dist),
    }
}

impl Diff {
    pub closed spec fn spec_ops(&self) -> Seq<OperationView> {
        self.operations@.map_values(|o: Operation| o.spec_view())
    }

    pub closed spec fn spec_infos(&self) -> Seq<OperationInfo> {
        self.operations@.map_values(|o: Operation| o.spec_info())
    }

    pub closed spec fn wf(&self) -> bool {
        forall|i: int| 0 <= i < self.operations@.len() ==> (#[trigger] self.operations@[i]).wf()
    }

    pub fn new() -> (r: Diff)
        ensures
            r.wf(),
            r.spec_ops() == Seq::<OperationView>::empty(),
            r.spec_infos() == Seq::<OperationInfo>::empty(),
    {
        let r = Diff { operations: Vec::new() };
        proof {
            assert(r.spec_ops() =~= Seq::<OperationView>::empty());
            assert(r.spec_infos() =~= Seq::<OperationInfo>::empty());
        }
        r
    }

    /// Appends an operation.
    pub fn push(&mut self, operation: Operation)
        requires
            old(self).wf(),
            operation.wf(),
        ensures
            final(self).wf(),
            final(self).spec_ops() == old(self).spec_ops().push(operation.spec_view()),
            final(self).spec_infos() == old(self).spec_infos().push(operation.spec_info()),
    {
        let ghost v = operation.spec_view();
        let ghost i = operation.spec_info();
        self.operations.push(operation);
        proof {
            assert(self.spec_ops() =~= old(self).spec_ops().push(v));
            assert(self.spec_infos() =~= old(self).spec_infos().push(i));
        }
    }

    pub fn len(&self) -> (r: usize)
        ensures
            r == self.spec_ops().len(),
            r == self.spec_infos().len(),
    {
        self.operations.len()
    }

    /// What the operations do to the text's length, in order.
    pub fn infos(&self) -> (r: Vec<OperationInfo>)
        requires
            self.wf(),
        ensures
            r@ == self.spec_infos(),
    {
        let mut r: Vec<OperationInfo> = Vec::new();
        let mut k: usize = 0;
        while k < self.operations.len()
            invariant
                self.wf(),
                k <= self.operations@.len(),
                r@ == self.spec_infos().subrange(0, k as int),
            decreases self.operations@.len() - k,
        {
            assert(self.operations@[k as int].wf());
            r.push(self.operations[k].info());
            k += 1;
            proof {
                assert(r@ =~= self.spec_infos().subrange(0, k as int));
            }
        }
        proof {
            assert(r@ =~= self.spec_infos());
        }
        r
    }
}

impl Text {
    /// The text that `diff` makes of this one.
    pub fn apply_diff(&mut self, diff: &Diff)
        requires
            old(self).wf(),
            diff.wf(),
            diff_applies(old(self).spec_lines(), diff.spec_ops()),
        ensures
            final(self).wf(),
            final(self).spec_lines() == apply_ops(old(self).spec_lines(), diff.spec_ops()),
    {
        let ghost t = self.spec_lines();
        let ghost ops = diff.spec_ops();
        let mut out = Text::new();
        let mut rest = self.copy();
        let mut k: usize = 0;
        let n = diff.operations.len();
        while k < n
            invariant
                n == diff.operations@.len(),
                k <= n,
                diff.wf(),
                ops == diff.spec_ops(),
                out.wf(),
                rest.wf(),
                diff_applies(t, ops),
                apply_prefix(t, ops, k as int) == (out.spec_lines(), rest.spec_lines(), true),
            decreases n - k,
        {
            proof {
                lemma_apply_prefix_ok_monotone(t, ops, k as int + 1, n as int);
                assert(diff.operations@[k as int].wf());
                assert(ops[k as int] == diff.operations@[k as int].spec_view());
            }
            match &diff.operations[k] {
                Operation::Retain(l) => {
                    let (a, b) = rest.split_at_position(len_to_pos(*l));
                    out.append(a);
                    rest = b;
                },
                Operation::Delete(l) => {
                    let (_, b) = rest.split_at_position(len_to_pos(*l));
                    rest = b;
                },
                Operation::Insert(x) => {
                    out.append(x.copy());
                },
            }
            k += 1;
        }
        out.append(rest);
        *self = out;
    }
}

/// Once a length does not fit, the diff does not apply.
pub proof fn lemma_apply_prefix_ok_monotone(t: Seq<Seq<u8>>, ops: Seq<OperationView>, k: int, n: int)
    requires
        0 <= k <= n,
        apply_prefix(t, ops, n).2,
    ensures
        apply_prefix(t, ops, k).2,
    decreases n - k,
{
    if k < n {
        lemma_apply_prefix_ok_monotone(t, ops, k + 1, n);
    }
}

impl Position {
    /// The position in the edited text that this one is carried to by `diff`.
    pub fn apply_diff(self, diff: &Diff, strategy: Strategy) -> (r: Position)
        requires
            diff.wf(),
        ensures
            r == map_position(self, diff.spec_ops(), strategy),
    {
        let ghost ops = diff.spec_ops();
        let mut diffed = Position::origin();
        let mut dist = Length::new(self.line_index, self.byte_index);
        let mut k: usize = 0;
        let n = diff.operations.len();
        while k < n
            invariant
                n == diff.operations@.len(),
                k <= n,
                diff.wf(),
                ops == diff.spec_ops(),
                map_prefix(self, ops, strategy, k as int) == (diffed, dist, None::<Position>),
            decreases n - k,
        {
            proof {
                assert(diff.operations@[k as int].wf());
                assert(ops[k as int] == diff.operations@[k as int].spec_view());
            }
            match &diff.operations[k] {
                Operation::Retain(l) => {
                    if l.le(&dist) {
                        diffed = diffed.add_length(*l);
                        dist = dist.sub_length(*l);
                    } else {
                        proof {
                            lemma_map_prefix_done(self, ops, strategy, k as int + 1, n as int);
                        }
                        return diffed.add_length(dist);
                    }
                },
                Operation::Insert(x) => {
                    if dist.line_count == 0 && dist.byte_count == 0 {
                        proof {
                            lemma_map_prefix_done(self, ops, strategy, k as int + 1, n as int);
                        }
                        if strategy == Strategy::InsertBefore {
                            return diffed.add_length(x.length());
                        } else {
                            return diffed;
                        }
                    } else {
                        diffed = diffed.add_length(x.length());
                    }
                },
                Operation::Delete(l) => {
                    if l.le(&dist) {
                        dist = dist.sub_length(*l);
                    } else {
                        dist = Length::zero();
                    }
                },
            }
            k += 1;
        }
        diffed.add_length(dist)
    }
}

/// Once the position is known, later operations leave it.
pub proof fn lemma_map_prefix_done(p: Position, ops: Seq<OperationView>, strategy: Strategy, k: int, n: int)
    requires
        0 <= k <= n,
        map_prefix(p, ops, strategy, k).2.is_some(),
    ensures
        map_prefix(p, ops, strategy, n) == map_prefix(p, ops, strategy, k),
    decreases n - k,
{
    if k < n {
        lemma_map_prefix_done(p, ops, strategy, k, n - 1);
    }
}


/// Every inserted text has at least one line.
pub open spec fn ops_wf(ops: Seq<OperationView>) -> bool {
    forall|i: int| 0 <= i < ops.len() ==> match #[trigger] ops[i] {
        OperationView::Insert(x) => 1 <= x.len() <= usize::MAX,
        _ => true,
    }
}

impl Diff {
    pub proof fn lemma_ops_wf(&self)
        requires
            self.wf(),
        ensures
            ops_wf(self.spec_ops()),
            self.spec_ops().len() == self.spec_infos().len(),
            forall|i: int| 0 <= i < self.spec_ops().len() ==> match #[trigger] self.spec_ops()[i] {
                OperationView::Retain(l) => self.spec_infos()[i] == OperationInfo::Retain(l),
                OperationView::Delete(l) => self.spec_infos()[i] == OperationInfo::Delete(l),
                OperationView::Insert(x) => self.spec_infos()[i] == OperationInfo::Insert(text_length(x)),
            },
    {
        assert forall|i: int| 0 <= i < self.spec_ops().len() implies match #[trigger] self.spec_ops()[i] {
            OperationView::Insert(x) => 1 <= x.len() <= usize::MAX,
            _ => true,
        } by {
            assert(self.operations@[i].wf());
            match &self.operations@[i] {
                Operation::Insert(t) => t.lemma_line_count_bound(),
                _ => {},
            }
        }
    }
}

/// The text built so far and the text left are never empty.
pub proof fn lemma_apply_prefix_nonempty(t: Seq<Seq<u8>>, ops: Seq<OperationView>, k: int)
    requires
        t.len() >= 1,
        ops_wf(ops),
        0 <= k <= ops.len(),
    ensures
        apply_prefix(t, ops, k).0.len() >= 1,
        apply_prefix(t, ops, k).1.len() >= 1,
    decreases k,
{
    if k > 0 {
        lemma_apply_prefix_nonempty(t, ops, k - 1);
        let _ = ops[k - 1];
    }
}

/// How one operation changes the number of lines built and left.
pub proof fn lemma_apply_step(t: Seq<Seq<u8>>, ops: Seq<OperationView>, k: int)
    requires
        t.len() >= 1,
        ops_wf(ops),
        0 <= k < ops.len(),
        apply_prefix(t, ops, k + 1).2,
    ensures
        ({
            let (o, r, _) = apply_prefix(t, ops, k);
            let (o2, r2, _) = apply_prefix(t, ops, k + 1);
            &&& o.len() >= 1
            &&& r.len() >= 1
            &&& match ops[k] {
                OperationView::Retain(l) => l.line_count < r.len() && o2.len() == o.len() + l.line_count
                    && r2.len() == r.len() - l.line_count,
                OperationView::Delete(l) => l.line_count < r.len() && o2 == o && r2.len() == r.len()
                    - l.line_count,
                OperationView::Insert(x) => o2.len() == o.len() + x.len() - 1 && r2 == r && x.len()
                    >= 1,
            }
        }),
{
    lemma_apply_prefix_nonempty(t, ops, k);
    lemma_apply_prefix_ok_monotone(t, ops, k, k + 1);
    let _ = ops[k];
}

/// Every operation that fits keeps the earlier operations fitting.
pub proof fn lemma_diff_applies_prefix(t: Seq<Seq<u8>>, ops: Seq<OperationView>, k: int)
    requires
        diff_applies(t, ops),
        0 <= k <= ops.len(),
    ensures
        apply_prefix(t, ops, k).2,
{
    lemma_apply_prefix_ok_monotone(t, ops, k, ops.len() as int);
}


/// A per-line list after the first `k` operations of `ops` (applied to `t`) have
/// changed the lines: a deleted line loses its entry, an inserted line gets `d`, and
/// every other entry keeps its order.
pub open spec fn repair_prefix<A>(x: Seq<A>, t: Seq<Seq<u8>>, ops: Seq<OperationView>, d: A, k: int) -> Seq<A>
    decreases k,
{
    if k <= 0 {
        x
    } else {
        let y = repair_prefix(x, t, ops, d, k - 1);
        let line = apply_prefix(t, ops, k - 1).0.len() - 1;
        match ops[k - 1] {
            OperationView::Retain(_) => y,
            OperationView::Delete(l) => y.subrange(0, line + 1) + y.subrange(line + 1 + l.line_count, y.len() as int),
            OperationView::Insert(ins) => y.subrange(0, line + 1) + Seq::new((ins.len() - 1) as nat, |j: int| d)
                + y.subrange(line + 1, y.len() as int),
        }
    }
}

/// A per-line list brought in step with the lines that `ops` makes of `t`.
pub open spec fn repaired<A>(x: Seq<A>, t: Seq<Seq<u8>>, ops: Seq<OperationView>, d: A) -> Seq<A> {
    repair_prefix(x, t, ops, d, ops.len() as int)
}

} // verus!
