use vstd::prelude::*;
use crate::position::{Position, Selection, pos_le, pos_lt, pos_max};

verus! {

/// Selections are kept in order: each one ends strictly before the next starts, so
/// no two of them are to be merged.
pub open spec fn selections_wf(s: Seq<Selection>) -> bool {
    &&& s.len() >= 1
    &&& forall|i: int| 0 <= i < s.len() - 1 ==> pos_lt(#[trigger] s[i].spec_end(), s[i + 1].spec_start())
}

pub proof fn lemma_start_le_end(s: Selection)
    ensures
        pos_le(s.spec_start(), s.spec_end()),
{
}

proof fn lemma_ordered_from(s: Seq<Selection>, i: int, j: int)
    requires
        selections_wf(s),
        0 <= i < j < s.len(),
    ensures
        pos_lt(s[i].spec_end(), s[j].spec_start()),
    decreases j - i,
{
    if j > i + 1 {
        lemma_ordered_from(s, i, j - 1);
        lemma_start_le_end(s[j - 1]);
        assert(pos_lt(s[j - 1].spec_end(), s[j].spec_start()));
    }
}

/// A well-formed selection set is sorted by start, and no selection is to be merged
/// with a later one.
pub proof fn lemma_selections_sorted(s: Seq<Selection>)
    requires
        selections_wf(s),
    ensures
        forall|i: int, j: int| #![trigger s[i], s[j]]
            0 <= i < j < s.len() ==> pos_le(s[i].spec_start(), s[j].spec_start())
                && !s[i].spec_should_merge(s[j]),
{
    assert forall|i: int, j: int| #![trigger s[i], s[j]] 0 <= i < j < s.len() implies pos_le(
        s[i].spec_start(),
        s[j].spec_start(),
    ) && !s[i].spec_should_merge(s[j]) by {
        lemma_ordered_from(s, i, j);
        lemma_start_le_end(s[i]);
    }
}

/// Where walking left from `i` stops: the selections before the result do not reach
/// `moved`, those from it up to `i` do.
pub open spec fn left_stop(s: Seq<Selection>, moved: Selection, i: int) -> int
    decreases i,
{
    if i <= 0 || !s[i - 1].spec_should_merge(moved) {
        i
    } else {
        left_stop(s, moved, i - 1)
    }
}

/// Where walking right from `i` stops: the first selection after `i` that `moved`
/// does not reach.
pub open spec fn right_stop(s: Seq<Selection>, moved: Selection, i: int) -> int
    decreases s.len() - i,
{
    if i + 1 >= s.len() || !moved.spec_should_merge(s[i + 1]) {
        i + 1
    } else {
        right_stop(s, moved, i + 1)
    }
}

proof fn lemma_left_stop(s: Seq<Selection>, moved: Selection, i: int)
    requires
        0 <= i < s.len(),
    ensures
        0 <= left_stop(s, moved, i) <= i,
        left_stop(s, moved, i) == 0 || !s[left_stop(s, moved, i) - 1].spec_should_merge(moved),
    decreases i,
{
    if i > 0 && s[i - 1].spec_should_merge(moved) {
        lemma_left_stop(s, moved, i - 1);
    }
}

proof fn lemma_right_stop(s: Seq<Selection>, moved: Selection, i: int)
    requires
        0 <= i < s.len(),
    ensures
        i < right_stop(s, moved, i) <= s.len(),
        right_stop(s, moved, i) == s.len() || !moved.spec_should_merge(s[right_stop(s, moved, i)]),
    decreases s.len() - i,
{
    if i + 1 < s.len() && moved.spec_should_merge(s[i + 1]) {
        lemma_right_stop(s, moved, i + 1);
    }
}

/// The set after the selection at `i` is replaced by `moved` and every neighbour that
/// it reaches is dropped.
pub open spec fn replace_and_absorb(s: Seq<Selection>, i: int, moved: Selection) -> Seq<Selection> {
    s.subrange(0, left_stop(s, moved, i)).push(moved) + s.subrange(
        right_stop(s, moved, i),
        s.len() as int,
    )
}

/// Replacing one selection and dropping the neighbours it reaches keeps the set in
/// order.
pub proof fn lemma_replace_and_absorb_wf(s: Seq<Selection>, i: int, moved: Selection)
    requires
        selections_wf(s),
        0 <= i < s.len(),
    ensures
        selections_wf(replace_and_absorb(s, i, moved)),
        replace_and_absorb(s, i, moved)[left_stop(s, moved, i)] == moved,
{
    lemma_left_stop(s, moved, i);
    lemma_right_stop(s, moved, i);
    let a = left_stop(s, moved, i);
    let b = right_stop(s, moved, i);
    let r = replace_and_absorb(s, i, moved);
    assert forall|k: int| 0 <= k < r.len() - 1 implies pos_lt(
        #[trigger] r[k].spec_end(),
        r[k + 1].spec_start(),
    ) by {
        if k < a - 1 {
            assert(r[k] == s[k] && r[k + 1] == s[k + 1]);
        } else if k == a - 1 {
            assert(r[k] == s[a - 1] && r[k + 1] == moved);
        } else if k == a {
            assert(r[k] == moved && r[k + 1] == s[b]);
        } else {
            let j = k - a - 1 + b;
            assert(r[k] == s[j] && r[k + 1] == s[j + 1]);
        }
    }
}

/// The number of selections that end before `c`.
pub open spec fn count_ending_before(s: Seq<Selection>, c: Position) -> int
    decreases s.len(),
{
    if s.len() == 0 {
        0
    } else {
        count_ending_before(s.drop_last(), c) + if pos_lt(s.last().spec_end(), c) { 1int } else { 0int }
    }
}

proof fn lemma_count_ending_before(s: Seq<Selection>, c: Position)
    requires
        selections_wf(s) || s.len() == 0,
    ensures
        0 <= count_ending_before(s, c) <= s.len(),
        forall|j: int| 0 <= j < s.len() ==> (j < count_ending_before(s, c) <==> pos_lt(s[j].spec_end(), c)),
    decreases s.len(),
{
    if s.len() > 0 {
        let t = s.drop_last();
        if t.len() > 0 {
            assert forall|k: int| 0 <= k < t.len() - 1 implies pos_lt(#[trigger] t[k].spec_end(), t[k + 1].spec_start()) by {
                assert(t[k] == s[k] && t[k + 1] == s[k + 1]);
            }
        }
        lemma_count_ending_before(t, c);
        assert forall|j: int| 0 <= j < t.len() implies t[j] == s[j] by {}
        if pos_lt(s.last().spec_end(), c) {
            assert forall|j: int| 0 <= j < t.len() implies pos_lt(t[j].spec_end(), c) by {
                lemma_ordered_from(s, j, s.len() - 1);
                lemma_start_le_end(s.last());
            }
            if count_ending_before(t, c) < t.len() {
                let j = count_ending_before(t, c);
                assert(pos_lt(t[j].spec_end(), c));
            }
        }
    }
}

/// Where a new cursor at `c` goes: the index of the first selection that does not end
/// before it.
pub open spec fn cursor_slot(s: Seq<Selection>, c: Position) -> int {
    count_ending_before(s, c)
}

/// The set after a cursor is added at `c`: a selection that holds `c` is replaced by
/// it, otherwise it is inserted in order.
pub open spec fn with_cursor_added(s: Seq<Selection>, c: Position) -> Seq<Selection> {
    let i = cursor_slot(s, c);
    let sel = Selection { anchor: c, cursor: c, column_index: None };
    if i < s.len() && pos_le(s[i].spec_start(), c) {
        s.update(i, sel)
    } else {
        s.insert(i, sel)
    }
}

/// Finds the index of the first selection that does not end before `c`.
pub fn find_cursor_slot(s: &Vec<Selection>, c: Position) -> (r: usize)
    requires
        selections_wf(s@),
    ensures
        r == cursor_slot(s@, c),
        r <= s@.len(),
{
    proof {
        lemma_count_ending_before(s@, c);
        lemma_selections_sorted(s@);
    }
    let mut lo: usize = 0;
    let mut hi: usize = s.len();
    while lo < hi
        invariant
            0 <= lo <= hi <= s@.len(),
            selections_wf(s@),
            forall|j: int| 0 <= j < lo ==> pos_lt(s@[j].spec_end(), c),
            forall|j: int| hi <= j < s@.len() ==> !pos_lt(s@[j].spec_end(), c),
        decreases hi - lo,
    {
        let mid = lo + (hi - lo) / 2;
        let e = s[mid].end();
        if e.le(&c) && e != c {
            proof {
                assert forall|j: int| 0 <= j <= mid implies pos_lt(s@[j].spec_end(), c) by {
                    if j < mid {
                        lemma_ordered_from(s@, j, mid as int);
                        lemma_start_le_end(s@[mid as int]);
                    }
                }
            }
            lo = mid + 1;
        } else {
            proof {
                assert forall|j: int| mid <= j < s@.len() implies !pos_lt(s@[j].spec_end(), c) by {
                    if j > mid {
                        lemma_ordered_from(s@, mid as int, j);
                        lemma_start_le_end(s@[j]);
                    }
                }
            }
            hi = mid;
        }
    }
    proof {
        let n = count_ending_before(s@, c);
        if n < lo {
            assert(pos_lt(s@[n].spec_end(), c));
        }
        if n > lo {
            assert(pos_lt(s@[lo as int].spec_end(), c));
        }
    }
    lo
}

/// Adding a cursor keeps the set in order.
pub proof fn lemma_with_cursor_added_wf(s: Seq<Selection>, c: Position)
    requires
        selections_wf(s),
    ensures
        selections_wf(with_cursor_added(s, c)),
        with_cursor_added(s, c)[cursor_slot(s, c)] == (Selection { anchor: c, cursor: c, column_index: None }),
{
    lemma_count_ending_before(s, c);
    let i = cursor_slot(s, c);
    let sel = Selection { anchor: c, cursor: c, column_index: None };
    let r = with_cursor_added(s, c);
    if i < s.len() && pos_le(s[i].spec_start(), c) {
        assert forall|k: int| 0 <= k < r.len() - 1 implies pos_lt(#[trigger] r[k].spec_end(), r[k + 1].spec_start()) by {
            if k == i - 1 {
                lemma_start_le_end(s[i]);
            }
        }
    } else {
        assert forall|k: int| 0 <= k < r.len() - 1 implies pos_lt(#[trigger] r[k].spec_end(), r[k + 1].spec_start()) by {
            if k < i - 1 {
                assert(r[k] == s[k] && r[k + 1] == s[k + 1]);
            } else if k == i - 1 {
                assert(r[k] == s[i - 1] && r[k + 1] == sel);
            } else if k == i {
                assert(r[k] == sel && r[k + 1] == s[i]);
                lemma_start_le_end(s[i]);
            } else {
                assert(r[k] == s[k - 1] && r[k + 1] == s[k]);
            }
        }
    }
}


/// Selections paired with a mark for the one most recently added, ordered by start.
pub open spec fn sorted_by_start(s: Seq<(Selection, bool)>) -> bool {
    forall|i: int, j: int| 0 <= i < j < s.len() ==> pos_le(
        (#[trigger] s[i]).0.spec_start(),
        (#[trigger] s[j]).0.spec_start(),
    )
}

/// The first index from `j` on whose selection starts after `x`.
pub open spec fn first_starting_after(out: Seq<(Selection, bool)>, x: Selection, j: int) -> int
    decreases out.len() - j,
{
    if j >= out.len() {
        out.len() as int
    } else if pos_lt(x.spec_start(), out[j].0.spec_start()) {
        j
    } else {
        first_starting_after(out, x, j + 1)
    }
}

/// `x` inserted after every selection that starts no later than it.
pub open spec fn insert_by_start(out: Seq<(Selection, bool)>, x: (Selection, bool)) -> Seq<(Selection, bool)> {
    out.insert(first_starting_after(out, x.0, 0), x)
}

/// The first `k` items, inserted one by one in order of start.
pub open spec fn sort_prefix(items: Seq<(Selection, bool)>, k: int) -> Seq<(Selection, bool)>
    decreases k,
{
    if k <= 0 {
        Seq::empty()
    } else {
        insert_by_start(sort_prefix(items, k - 1), items[k - 1])
    }
}

/// Two selections, `a` starting first, made one: it spans both, and takes the
/// direction and column of the one most recently added, or else of `a`.
pub open spec fn combine(a: (Selection, bool), b: (Selection, bool)) -> (Selection, bool) {
    let winner = if b.1 { b.0 } else { a.0 };
    let start = a.0.spec_start();
    let end = pos_max(a.0.spec_end(), b.0.spec_end());
    let sel = if pos_le(winner.anchor, winner.cursor) {
        Selection { anchor: start, cursor: end, column_index: winner.column_index }
    } else {
        Selection { anchor: end, cursor: start, column_index: winner.column_index }
    };
    (sel, a.1 || b.1)
}

/// The first `k` sorted items, each merged into the one before when that one reaches it.
pub open spec fn merge_prefix(items: Seq<(Selection, bool)>, k: int) -> Seq<(Selection, bool)>
    decreases k,
{
    if k <= 0 {
        Seq::empty()
    } else {
        let out = merge_prefix(items, k - 1);
        let x = items[k - 1];
        if out.len() > 0 && out.last().0.spec_should_merge(x.0) {
            out.drop_last().push(combine(out.last(), x))
        } else {
            out.push(x)
        }
    }
}

/// The selection set made of `items`: sorted by start, then merged.
pub open spec fn reinserted(items: Seq<(Selection, bool)>) -> Seq<(Selection, bool)> {
    let sorted = sort_prefix(items, items.len() as int);
    merge_prefix(sorted, sorted.len() as int)
}

/// The index of the first marked item, or 0 when none is.
pub open spec fn marked_index(s: Seq<(Selection, bool)>, j: int) -> int
    decreases s.len() - j,
{
    if j >= s.len() {
        0
    } else if s[j].1 {
        j
    } else {
        marked_index(s, j + 1)
    }
}

pub open spec fn unmarked(s: Seq<(Selection, bool)>) -> Seq<Selection> {
    s.map_values(|p: (Selection, bool)| p.0)
}

proof fn lemma_first_starting_after(out: Seq<(Selection, bool)>, x: Selection, j: int)
    requires
        0 <= j <= out.len(),
        sorted_by_start(out),
    ensures
        j <= first_starting_after(out, x, j) <= out.len(),
        forall|k: int| j <= k < first_starting_after(out, x, j) ==> pos_le(out[k].0.spec_start(), x.spec_start()),
        first_starting_after(out, x, j) < out.len() ==> pos_lt(x.spec_start(), out[first_starting_after(out, x, j)].0.spec_start()),
    decreases out.len() - j,
{
    if j < out.len() && !pos_lt(x.spec_start(), out[j].0.spec_start()) {
        lemma_first_starting_after(out, x, j + 1);
    }
}

proof fn lemma_sort_prefix(items: Seq<(Selection, bool)>, k: int)
    requires
        0 <= k <= items.len(),
    ensures
        sorted_by_start(sort_prefix(items, k)),
        sort_prefix(items, k).len() == k,
    decreases k,
{
    if k > 0 {
        lemma_sort_prefix(items, k - 1);
        let out = sort_prefix(items, k - 1);
        let x = items[k - 1];
        lemma_first_starting_after(out, x.0, 0);
        let i = first_starting_after(out, x.0, 0);
        let r = out.insert(i, x);
        assert forall|a: int, b: int| 0 <= a < b < r.len() implies pos_le(
            (#[trigger] r[a]).0.spec_start(),
            (#[trigger] r[b]).0.spec_start(),
        ) by {
            if b < i {
                assert(r[a] == out[a] && r[b] == out[b]);
            } else if b == i {
                assert(r[a] == out[a]);
            } else if a < i {
                assert(r[a] == out[a] && r[b] == out[b - 1]);
            } else if a == i {
                assert(r[b] == out[b - 1]);
                assert(pos_le(out[i].0.spec_start(), out[b - 1].0.spec_start()));
            } else {
                assert(r[a] == out[a - 1] && r[b] == out[b - 1]);
            }
        }
    }
}

proof fn lemma_merge_prefix(items: Seq<(Selection, bool)>, k: int)
    requires
        0 <= k <= items.len(),
        sorted_by_start(items),
    ensures
        k > 0 ==> selections_wf(unmarked(merge_prefix(items, k))),
        k > 0 ==> merge_prefix(items, k).len() > 0,
        k > 0 ==> pos_le(merge_prefix(items, k).last().0.spec_start(), items[k - 1].0.spec_start()),
        merge_prefix(items, k).len() <= k,
    decreases k,
{
    if k > 1 {
        lemma_merge_prefix(items, k - 1);
        let out = merge_prefix(items, k - 1);
        let x = items[k - 1];
        let u = unmarked(out);
        assert(pos_le(items[k - 2].0.spec_start(), items[k - 1].0.spec_start()));
        if out.last().0.spec_should_merge(x.0) {
            let c = combine(out.last(), x);
            let r = out.drop_last().push(c);
            let ur = unmarked(r);
            assert(r == merge_prefix(items, k));
            assert(r.last() == c);
            assert(c.0.spec_start() == out.last().0.spec_start());
            assert forall|i: int| 0 <= i < ur.len() - 1 implies pos_lt(#[trigger] ur[i].spec_end(), ur[i + 1].spec_start()) by {
                assert(ur[i] == u[i]);
                if i + 1 < ur.len() - 1 {
                    assert(ur[i + 1] == u[i + 1]);
                } else {
                    assert(ur[i + 1] == c.0);
                    assert(u[i + 1] == out.last().0);
                }
            }
        } else {
            let r = out.push(x);
            let ur = unmarked(r);
            assert(r == merge_prefix(items, k));
            assert(r.last() == x);
            assert forall|i: int| 0 <= i < ur.len() - 1 implies pos_lt(#[trigger] ur[i].spec_end(), ur[i + 1].spec_start()) by {
                assert(ur[i] == u[i]);
                if i + 1 < ur.len() - 1 {
                    assert(ur[i + 1] == u[i + 1]);
                } else {
                    assert(ur[i + 1] == x.0);
                    assert(u[i] == out.last().0);
                    lemma_start_le_end(x.0);
                }
            }
        }
    } else if k == 1 {
        assert(merge_prefix(items, 0).len() == 0);
        assert(merge_prefix(items, 1) == seq![items[0]]);
        assert(unmarked(merge_prefix(items, 1)).len() == 1);
    }
}

/// Sorting and merging any non-empty list of selections gives a set in order.
pub proof fn lemma_reinserted_wf(items: Seq<(Selection, bool)>)
    requires
        items.len() > 0,
    ensures
        selections_wf(unmarked(reinserted(items))),
        0 <= marked_index(reinserted(items), 0) < reinserted(items).len(),
{
    lemma_sort_prefix(items, items.len() as int);
    let sorted = sort_prefix(items, items.len() as int);
    lemma_merge_prefix(sorted, sorted.len() as int);
    lemma_marked_index(reinserted(items), 0);
}

proof fn lemma_marked_index(s: Seq<(Selection, bool)>, j: int)
    requires
        0 <= j,
    ensures
        s.len() > 0 ==> 0 <= marked_index(s, j) < s.len(),
    decreases s.len() - j,
{
    if j < s.len() && !s[j].1 {
        lemma_marked_index(s, j + 1);
    }
}

/// Sorts `items` by start and merges every selection into the one before when that
/// one reaches it; returns the selections and the index of the marked one.
pub fn reinsert(items: Vec<(Selection, bool)>) -> (r: (Vec<Selection>, usize))
    requires
        items@.len() > 0,
    ensures
        r.0@ == unmarked(reinserted(items@)),
        r.1 == marked_index(reinserted(items@), 0),
        selections_wf(r.0@),
        r.1 < r.0@.len(),
{
    let mut sorted: Vec<(Selection, bool)> = Vec::new();
    let mut k: usize = 0;
    while k < items.len()
        invariant
            k <= items@.len(),
            sorted@ == sort_prefix(items@, k as int),
        decreases items@.len() - k,
    {
        proof {
            lemma_sort_prefix(items@, k as int);
        }
        let x = items[k];
        let mut j: usize = 0;
        while j < sorted.len() && !(x.0.start().le(&sorted[j].0.start()) && x.0.start() != sorted[j].0.start())
            invariant
                j <= sorted@.len(),
                first_starting_after(sorted@, x.0, 0) == first_starting_after(sorted@, x.0, j as int),
            decreases sorted@.len() - j,
        {
            j += 1;
        }
        sorted.insert(j, x);
        k += 1;
    }
    proof {
        lemma_sort_prefix(items@, items@.len() as int);
    }
    let ghost sorted_v = sorted@;
    let mut out: Vec<(Selection, bool)> = Vec::new();
    let mut k: usize = 0;
    while k < sorted.len()
        invariant
            sorted@ == sorted_v,
            k <= sorted@.len(),
            out@ == merge_prefix(sorted_v, k as int),
        decreases sorted@.len() - k,
    {
        let x = sorted[k];
        if out.len() > 0 && out[out.len() - 1].0.should_merge(&x.0) {
            let a = out.pop().unwrap();
            let winner = if x.1 { x.0 } else { a.0 };
            let start = a.0.start();
            let end = a.0.end().max(x.0.end());
            let sel = if winner.anchor.le(&winner.cursor) {
                Selection::new(start, end, winner.column_index)
            } else {
                Selection::new(end, start, winner.column_index)
            };
            out.push((sel, a.1 || x.1));
        } else {
            out.push(x);
        }
        k += 1;
        proof {
            assert(out@ =~= merge_prefix(sorted_v, k as int));
        }
    }
    proof {
        lemma_reinserted_wf(items@);
    }
    let mut m: usize = 0;
    while m < out.len() && !out[m].1
        invariant
            m <= out@.len(),
            marked_index(out@, 0) == marked_index(out@, m as int),
        decreases out@.len() - m,
    {
        m += 1;
    }
    if m == out.len() {
        m = 0;
    }
    let mut sels: Vec<Selection> = Vec::new();
    let mut i: usize = 0;
    while i < out.len()
        invariant
            i <= out@.len(),
            sels@ == unmarked(out@).subrange(0, i as int),
        decreases out@.len() - i,
    {
        sels.push(out[i].0);
        i += 1;
        proof {
            assert(sels@ =~= unmarked(out@).subrange(0, i as int));
        }
    }
    proof {
        assert(sels@ =~= unmarked(out@));
    }
    (sels, m)
}

} // verus!
