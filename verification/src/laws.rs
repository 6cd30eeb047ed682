//! Properties that span several operations of the relation natives: how
//! partitions cover the rows, how the rank functions relate, what the
//! row operations give back when composed.
use vstd::prelude::*;

use crate::parser::lemma_seq_lt_facts;
use crate::natives::{selection_is, FrameSelection, frames_of, grouped_rows, window_frame, Grouping, any_set, join_rows, left_contribution, left_pass, nulls, right_matched, JoinKind, appended, drop_count, kept, new_cells, new_column, new_columns, slice_bounds, tile_of};
use crate::tds::{key_eq, opt_cell_eq, Cell, Tds};
use crate::window::{
    covered, frame_rows, is_grouping, key_at, key_changes, offset_at, opt_cell_order, rows_order,
    run_start, running_frame, scan_back, Frame, FrameKind, FrameOffset, Group, Order,
    key_of, plan_of, SortDir, Window, WindowPlan,
};

verus! {

// ───────────────────────────── key equality ─────────────────────────────

/// Key equality is symmetric and transitive (it is not reflexive: a NaN
/// equals nothing).
pub proof fn lemma_key_eq_symmetric_transitive(a: Seq<Option<Cell>>, b: Seq<Option<Cell>>, c: Seq<Option<Cell>>)
    ensures
        key_eq(a, b) ==> key_eq(b, a),
        key_eq(a, b) && key_eq(b, c) ==> key_eq(a, c),
{
    if key_eq(a, b) {
        assert forall|i: int| 0 <= i < b.len() implies #[trigger] opt_cell_eq(b[i], a[i]) by {
            assert(opt_cell_eq(a[i], b[i]));
        }
        if key_eq(b, c) {
            assert forall|i: int| 0 <= i < a.len() implies #[trigger] opt_cell_eq(a[i], c[i]) by {
                assert(opt_cell_eq(a[i], b[i]));
                assert(opt_cell_eq(b[i], c[i]));
            }
        }
    }
}

// ───────────────────────────── partitions ─────────────────────────────

/// Every row of the relation lies in exactly one group of a grouping, at
/// exactly one place.
pub proof fn lemma_row_in_one_group(t: Tds, idx: Seq<usize>, gs: Seq<Group>, n: int, r: int)
    requires
        is_grouping(t, idx, gs, n),
        0 <= r < n,
    ensures
        exists|g: int, j: int| 0 <= g < gs.len() && 0 <= j < gs[g].rows@.len() && #[trigger] gs[g].rows@[j] == r,
        forall|g: int, j: int, h: int, k: int|
            0 <= g < gs.len() && 0 <= j < gs[g].rows@.len() && 0 <= h < gs.len() && 0 <= k < gs[h].rows@.len()
                && #[trigger] gs[g].rows@[j] == r && #[trigger] gs[h].rows@[k] == r ==> g == h && j == k,
{
    assert(covered(gs, r));
    assert forall|g: int, j: int, h: int, k: int|
        0 <= g < gs.len() && 0 <= j < gs[g].rows@.len() && 0 <= h < gs.len() && 0 <= k < gs[h].rows@.len()
            && #[trigger] gs[g].rows@[j] == r && #[trigger] gs[h].rows@[k] == r implies g == h && j == k by {
        if g < h {
            assert(gs[g].rows@[j] != gs[h].rows@[k]);
        } else if h < g {
            assert(gs[h].rows@[k] != gs[g].rows@[j]);
        } else {
            assert(crate::window::increasing(gs[g].rows@));
            if j < k {
                assert(gs[g].rows@[j] < gs[g].rows@[k]);
            } else if k < j {
                assert(gs[g].rows@[k] < gs[g].rows@[j]);
            }
        }
    }
}

/// Two rows of one group have equal keys; rows of two different groups
/// have keys that are not equal.
pub proof fn lemma_group_keys(t: Tds, idx: Seq<usize>, gs: Seq<Group>, n: int, g: int, j: int, h: int, k: int)
    requires
        is_grouping(t, idx, gs, n),
        0 <= g < gs.len(),
        0 <= j < gs[g].rows@.len(),
        0 <= h < gs.len(),
        0 <= k < gs[h].rows@.len(),
        !(g == h && j == k),
    ensures
        g == h ==> key_eq(
            crate::window::key_of(t.rows@[gs[g].rows@[j] as int]@, idx),
            crate::window::key_of(t.rows@[gs[h].rows@[k] as int]@, idx),
        ),
        g != h ==> !key_eq(
            crate::window::key_of(t.rows@[gs[g].rows@[j] as int]@, idx),
            crate::window::key_of(t.rows@[gs[h].rows@[k] as int]@, idx),
        ),
{
    let kj = crate::window::key_of(t.rows@[gs[g].rows@[j] as int]@, idx);
    let kk = crate::window::key_of(t.rows@[gs[h].rows@[k] as int]@, idx);
    if g == h {
        // Each row of the group other than its first equals the group key,
        // and the group key is the first row's key.
        let key = gs[g].key@;
        if j == 0 {
            assert(key == kj);
            assert(key_eq(key, kk));
        } else if k == 0 {
            assert(key == kk);
            assert(key_eq(key, kj));
            lemma_key_eq_symmetric_transitive(key, kj, kj);
        } else {
            assert(key_eq(key, kj));
            assert(key_eq(key, kk));
            lemma_key_eq_symmetric_transitive(key, kj, kk);
            lemma_key_eq_symmetric_transitive(kj, key, kk);
        }
    } else {
        let (lo, hi, jl, jh) = if g < h {
            (g, h, j, k)
        } else {
            (h, g, k, j)
        };
        let klo = crate::window::key_of(t.rows@[gs[lo].rows@[jl] as int]@, idx);
        let khi = crate::window::key_of(t.rows@[gs[hi].rows@[jh] as int]@, idx);
        let key = gs[lo].key@;
        // The later row is not equal to the earlier group's key.
        assert(!key_eq(gs[lo].key@, khi));
        if key_eq(klo, khi) {
            if jl == 0 {
                assert(key == klo);
            } else {
                assert(key_eq(key, klo));
                lemma_key_eq_symmetric_transitive(key, klo, khi);
            }
        }
        if key_eq(kj, kk) {
            lemma_key_eq_symmetric_transitive(kj, kk, kj);
        }
    }
}

// ───────────────────────────── ranks ─────────────────────────────

/// The rows that `scan_back` passes over all have the key of `row`.
proof fn lemma_scan_back(t: Tds, cols: Seq<usize>, row: int, m: int)
    requires
        m < row,
    ensures
        scan_back(t, cols, row, m) >= 0,
        m >= -1 ==> scan_back(t, cols, row, m) <= m + 1,
        forall|i: int|
            scan_back(t, cols, row, m) <= i <= m ==> key_eq(#[trigger] key_at(t, cols, i), key_at(t, cols, row)),
    decreases m + 1,
{
    if m >= 0 && key_eq(key_at(t, cols, m), key_at(t, cols, row)) {
        lemma_scan_back(t, cols, row, m - 1);
    }
}

/// The keys do not change between the start of a run and its end.
proof fn lemma_changes_in_run(t: Tds, cols: Seq<usize>, row: int, upto: int)
    requires
        0 <= run_start(t, cols, row) <= upto <= row,
    ensures
        key_changes(t, cols, upto) == key_changes(t, cols, run_start(t, cols, row)),
    decreases upto,
{
    let s = run_start(t, cols, row);
    lemma_scan_back(t, cols, row, row - 1);
    if upto > s {
        lemma_changes_in_run(t, cols, row, upto - 1);
        let a = key_at(t, cols, upto);
        let b = key_at(t, cols, upto - 1);
        let p = key_at(t, cols, row);
        assert(key_eq(b, p));
        if upto == row {
            lemma_key_eq_symmetric_transitive(b, p, p);
        } else {
            assert(key_eq(a, p));
            lemma_key_eq_symmetric_transitive(b, p, a);
            lemma_key_eq_symmetric_transitive(p, a, a);
            lemma_key_eq_symmetric_transitive(a, p, b);
        }
        assert(key_eq(a, b));
    }
}

/// At most one key change per row.
proof fn lemma_changes_bound(t: Tds, cols: Seq<usize>, upto: int)
    requires
        upto >= 0,
    ensures
        0 <= key_changes(t, cols, upto) <= upto,
    decreases upto,
{
    if upto > 0 {
        lemma_changes_bound(t, cols, upto - 1);
    }
}

/// For the row at `position` of a sorted partition: dense rank <= rank <=
/// row number, that is `1 + key_changes <= run_start + 1 <= position + 1`.
pub proof fn lemma_rank_order(t: Tds, cols: Seq<usize>, position: int)
    requires
        position >= 0,
    ensures
        0 <= run_start(t, cols, position) <= position,
        1 + key_changes(t, cols, position) <= run_start(t, cols, position) + 1,
{
    lemma_scan_back(t, cols, position, position - 1);
    let s = run_start(t, cols, position);
    lemma_changes_in_run(t, cols, position, position);
    lemma_changes_bound(t, cols, s);
}

/// Rows whose key equals that of the previous row share its rank.
pub proof fn lemma_rank_ties(t: Tds, cols: Seq<usize>, position: int)
    requires
        position >= 1,
        key_eq(key_at(t, cols, position - 1), key_at(t, cols, position)),
    ensures
        run_start(t, cols, position) <= position - 1,
        key_changes(t, cols, position) == key_changes(t, cols, position - 1),
{
    lemma_key_eq_symmetric_transitive(key_at(t, cols, position - 1), key_at(t, cols, position), key_at(t, cols, position));
    lemma_scan_back(t, cols, position, position - 2);
}

// ───────────────────────────── ordering ─────────────────────────────

/// Every cell compares equal to itself.
pub proof fn lemma_cell_order_reflexive(a: Option<Cell>)
    ensures
        opt_cell_order(a, a) == Order::Equal,
{
    lemma_seq_lt_facts();
}

/// Every row compares equal to itself, whatever the sort keys.
pub proof fn lemma_rows_order_reflexive(l: Seq<Option<Cell>>, keys: Seq<(usize, crate::window::SortDir)>)
    ensures
        rows_order(l, l, keys) == Order::Equal,
    decreases keys.len(),
{
    if keys.len() > 0 {
        lemma_cell_order_reflexive(l[keys[0].0 as int]);
        lemma_rows_order_reflexive(l, keys.drop_first());
    }
}

// ───────────────────────────── groups ─────────────────────────────

/// The first rows of the groups are at least their group numbers.
proof fn lemma_group_firsts(t: Tds, idx: Seq<usize>, gs: Seq<Group>, n: int, g: int)
    requires
        is_grouping(t, idx, gs, n),
        0 <= g < gs.len(),
    ensures
        gs[g].rows@[0] >= g,
    decreases g,
{
    if g > 0 {
        lemma_group_firsts(t, idx, gs, n, g - 1);
        assert(gs[g - 1].rows@[0] < gs[g].rows@[0]);
    }
}

/// A grouping of `n` rows has at most `n` groups (a `groupBy` never
/// yields more rows than it was given), and none for no rows.
pub proof fn lemma_group_count(t: Tds, idx: Seq<usize>, gs: Seq<Group>, n: int)
    requires
        is_grouping(t, idx, gs, n),
    ensures
        gs.len() <= n || (n <= 0 && gs.len() == 0),
        n > 0 ==> gs.len() >= 1,
{
    if gs.len() > 0 {
        lemma_group_firsts(t, idx, gs, n, gs.len() - 1);
        assert(gs[gs.len() - 1].rows@[0] < n);
    }
    if n > 0 {
        assert(covered(gs, 0));
    }
}

// ───────────────────────────── row operations ─────────────────────────────

/// Dropping `a` rows and then `b` rows drops `a + b` rows, for counts
/// that are not negative.
pub proof fn lemma_drop_twice<A>(s: Seq<A>, a: i64, b: i64)
    requires
        a >= 0,
        b >= 0,
        a + b <= i64::MAX,
    ensures
        s.skip(drop_count(a, s.len() as int)).skip(drop_count(b, s.len() - drop_count(a, s.len() as int)))
            == s.skip(drop_count((a + b) as i64, s.len() as int)),
{
    assert(s.skip(drop_count(a, s.len() as int)).skip(drop_count(b, s.len() - drop_count(a, s.len() as int)))
        =~= s.skip(drop_count((a + b) as i64, s.len() as int)));
}

/// Dropping no rows (or a negative count) keeps them all; dropping at
/// least as many rows as there are leaves none.
pub proof fn lemma_drop_ends<A>(s: Seq<A>, count: i64)
    ensures
        count <= 0 ==> s.skip(drop_count(count, s.len() as int)) == s,
        count >= s.len() ==> s.skip(drop_count(count, s.len() as int)).len() == 0,
{
    if count <= 0 {
        assert(s.skip(0) =~= s);
    }
}

/// `slice(start, stop)` is `drop(start)` followed by keeping the first
/// `stop - start` rows (fewer if the relation ends first).
pub proof fn lemma_slice_is_drop_then_take<A>(s: Seq<A>, start: i64, stop: i64)
    ensures
        ({
            let (lo, hi) = slice_bounds(start, stop, s.len() as int);
            let rest = s.skip(drop_count(start, s.len() as int));
            &&& lo <= hi
            &&& s.subrange(lo, hi) == rest.take(hi - lo)
            &&& 0 <= start <= stop ==> hi - lo == if stop - start <= rest.len() {
                stop - start
            } else {
                rest.len() as int
            }
        }),
{
    let (lo, hi) = slice_bounds(start, stop, s.len() as int);
    assert(s.subrange(lo, hi) =~= s.skip(drop_count(start, s.len() as int)).take(hi - lo));
}

/// A slice from before the first row to past the last keeps every row.
pub proof fn lemma_slice_all<A>(s: Seq<A>, start: i64, stop: i64)
    requires
        start <= 0,
        stop >= s.len(),
    ensures
        s.subrange(slice_bounds(start, stop, s.len() as int).0, slice_bounds(start, stop, s.len() as int).1) == s,
{
    assert(s.subrange(0, s.len() as int) =~= s);
}

/// The number of flags set in `keep`.
pub open spec fn set_count(keep: Seq<bool>) -> nat
    decreases keep.len(),
{
    if keep.len() == 0 {
        0
    } else {
        set_count(keep.drop_last()) + if keep.last() {
            1nat
        } else {
            0nat
        }
    }
}

/// `filter` keeps one row per set flag; with every flag set it keeps
/// every row, with none set it keeps none.
pub proof fn lemma_filter_counts<A>(s: Seq<A>, keep: Seq<bool>)
    requires
        keep.len() == s.len(),
    ensures
        kept(s, keep).len() == set_count(keep),
        (forall|i: int| 0 <= i < keep.len() ==> #[trigger] keep[i]) ==> kept(s, keep) == s,
        (forall|i: int| 0 <= i < keep.len() ==> !#[trigger] keep[i]) ==> kept(s, keep).len() == 0,
    decreases s.len(),
{
    if s.len() > 0 {
        let k2 = keep.take(s.len() - 1);
        assert(k2 =~= keep.drop_last());
        lemma_filter_counts(s.drop_last(), k2);
        if forall|i: int| 0 <= i < keep.len() ==> #[trigger] keep[i] {
            assert(forall|i: int| 0 <= i < k2.len() ==> #[trigger] k2[i] == keep[i]);
            assert(kept(s, keep) =~= s.drop_last().push(s.last()));
            assert(s.drop_last().push(s.last()) =~= s);
        }
        if forall|i: int| 0 <= i < keep.len() ==> !#[trigger] keep[i] {
            assert(forall|i: int| 0 <= i < k2.len() ==> #[trigger] k2[i] == keep[i]);
            assert(!keep[s.len() - 1]);
        }
    }
}

/// `extend` leaves every row's cells where they were: each new row
/// starts with the old one.
pub proof fn lemma_extend_keeps_rows(body: Seq<Seq<Option<Cell>>>, extra: spec_fn(int) -> Seq<Option<Cell>>, i: int)
    requires
        0 <= i < body.len(),
    ensures
        appended(body, extra).len() == body.len(),
        appended(body, extra)[i].take(body[i].len() as int) == body[i],
        appended(body, extra)[i].skip(body[i].len() as int) == extra(i),
{
    assert(appended(body, extra)[i].take(body[i].len() as int) =~= body[i]);
    assert(appended(body, extra)[i].skip(body[i].len() as int) =~= extra(i));
}

/// Extending by a list of one column is extending by that column.
pub proof fn lemma_extend_one_of_many(body: Seq<Seq<Option<Cell>>>, name: String, cells: Vec<Option<Cell>>)
    ensures
        new_columns(seq![(name, cells)]) == seq![new_column(name, cells@)],
        appended(body, |i: int| new_cells(seq![(name, cells)], i)) == appended(body, |i: int| seq![cells@[i]]),
{
    assert(new_columns(seq![(name, cells)]) =~= seq![new_column(name, cells@)]);
    let one = seq![(name, cells)];
    let lhs = appended(body, |i: int| new_cells(one, i));
    let rhs = appended(body, |i: int| seq![cells@[i]]);
    assert forall|i: int| 0 <= i < body.len() implies #[trigger] lhs[i] == rhs[i] by {
        assert(new_cells(one, i) =~= seq![cells@[i]]);
    }
    assert(appended(body, |i: int| new_cells(seq![(name, cells)], i)) =~= appended(body, |i: int| seq![cells@[i]]));
}

/// Extending by a list of columns and then one more is extending by the
/// longer list: an array `extend` is one `extend` per column, in order.
pub proof fn lemma_extend_array_is_successive(
    body: Seq<Seq<Option<Cell>>>,
    cols: Seq<(String, Vec<Option<Cell>>)>,
    name: String,
    cells: Vec<Option<Cell>>,
)
    ensures
        new_columns(cols.push((name, cells))) == new_columns(cols).push(new_column(name, cells@)),
        appended(body, |i: int| new_cells(cols.push((name, cells)), i)) == appended(
            appended(body, |i: int| new_cells(cols, i)),
            |i: int| seq![cells@[i]],
        ),
{
    let more = cols.push((name, cells));
    assert(new_columns(more) =~= new_columns(cols).push(new_column(name, cells@)));
    let lhs = appended(body, |i: int| new_cells(more, i));
    let rhs = appended(appended(body, |i: int| new_cells(cols, i)), |i: int| seq![cells@[i]]);
    assert forall|i: int| 0 <= i < body.len() implies #[trigger] lhs[i] == rhs[i] by {
        assert(new_cells(more, i) =~= new_cells(cols, i) + seq![cells@[i]]);
        assert(lhs[i] =~= rhs[i]);
    }
    assert(lhs =~= rhs);
}

// ───────────────────────────── join ─────────────────────────────

/// The number of matching pairs among the first `k` left rows.
pub open spec fn pair_count(m: Seq<Vec<bool>>, k: int) -> nat
    decreases k,
{
    if k <= 0 {
        0
    } else {
        pair_count(m, k - 1) + set_count(m[k - 1]@)
    }
}

/// The number of left rows among the first `k` that match no right row.
pub open spec fn lone_left_count(m: Seq<Vec<bool>>, k: int) -> nat
    decreases k,
{
    if k <= 0 {
        0
    } else {
        lone_left_count(m, k - 1) + if any_set(m[k - 1]@) {
            0nat
        } else {
            1nat
        }
    }
}

/// Whether the join kind keeps unmatched left rows.
pub open spec fn keeps_left(kind: JoinKind) -> bool {
    kind == JoinKind::Left || kind == JoinKind::Full
}

/// Whether the join kind keeps unmatched right rows.
pub open spec fn keeps_right(kind: JoinKind) -> bool {
    kind == JoinKind::Right || kind == JoinKind::Full
}

proof fn lemma_left_pass_count(
    left: Seq<Seq<Option<Cell>>>,
    right: Seq<Seq<Option<Cell>>>,
    m: Seq<Vec<bool>>,
    kind: JoinKind,
    nr: int,
)
    requires
        m.len() >= left.len(),
        forall|i: int| 0 <= i < left.len() ==> (#[trigger] m[i])@.len() == right.len(),
    ensures
        left_pass(left, right, m, kind, nr).len() == pair_count(m, left.len() as int) + if keeps_left(kind) {
            lone_left_count(m, left.len() as int)
        } else {
            0
        },
    decreases left.len(),
{
    if left.len() > 0 {
        lemma_left_pass_count(left.drop_last(), right, m, kind, nr);
        let l = left.last();
        lemma_filter_counts(Seq::new(right.len(), |j: int| l + right[j]), m[left.len() - 1]@);
    }
}

/// The size of a join: one row per matching pair; one more per left row
/// that matched nothing, for a left or full join; one more per right row
/// that nothing matched, for a right or full join.
pub proof fn lemma_join_size(
    left: Seq<Seq<Option<Cell>>>,
    right: Seq<Seq<Option<Cell>>>,
    m: Seq<Vec<bool>>,
    kind: JoinKind,
    nl: int,
    nr: int,
)
    requires
        m.len() == left.len(),
        forall|i: int| 0 <= i < left.len() ==> (#[trigger] m[i])@.len() == right.len(),
    ensures
        join_rows(left, right, m, kind, nl, nr).len() == pair_count(m, left.len() as int) + (if keeps_left(kind) {
            lone_left_count(m, left.len() as int)
        } else {
            0
        }) + (if keeps_right(kind) {
            set_count(Seq::new(right.len(), |j: int| !right_matched(m, j)))
        } else {
            0
        }),
{
    lemma_left_pass_count(left, right, m, kind, nr);
    if keeps_right(kind) {
        lemma_filter_counts(
            Seq::new(right.len(), |j: int| nulls(nl) + right[j]),
            Seq::new(right.len(), |j: int| !right_matched(m, j)),
        );
    }
}

/// All flags set: one per flag.
proof fn lemma_set_count_all(keep: Seq<bool>)
    requires
        forall|i: int| 0 <= i < keep.len() ==> #[trigger] keep[i],
    ensures
        set_count(keep) == keep.len(),
    decreases keep.len(),
{
    if keep.len() > 0 {
        let d = keep.drop_last();
        assert(forall|i: int| 0 <= i < d.len() ==> #[trigger] d[i] == keep[i]);
        lemma_set_count_all(d);
    }
}

/// An inner join on a predicate that always holds is the cross product:
/// `left rows * right rows` rows.
pub proof fn lemma_join_cross_product(
    left: Seq<Seq<Option<Cell>>>,
    right: Seq<Seq<Option<Cell>>>,
    m: Seq<Vec<bool>>,
    nl: int,
    nr: int,
)
    requires
        m.len() == left.len(),
        forall|i: int| 0 <= i < left.len() ==> (#[trigger] m[i])@.len() == right.len(),
        forall|i: int, j: int| 0 <= i < left.len() && 0 <= j < right.len() ==> #[trigger] m[i]@[j],
    ensures
        join_rows(left, right, m, JoinKind::Inner, nl, nr).len() == left.len() * right.len(),
{
    lemma_join_size(left, right, m, JoinKind::Inner, nl, nr);
    lemma_pair_count_full(m, left.len() as int, right.len() as int);
}

proof fn lemma_pair_count_full(m: Seq<Vec<bool>>, k: int, w: int)
    requires
        0 <= k <= m.len(),
        w >= 0,
        forall|i: int| 0 <= i < k ==> (#[trigger] m[i])@.len() == w,
        forall|i: int, j: int| 0 <= i < k && 0 <= j < w ==> #[trigger] m[i]@[j],
    ensures
        pair_count(m, k) == k * w,
    decreases k,
{
    if k > 0 {
        lemma_pair_count_full(m, k - 1, w);
        assert(forall|j: int| 0 <= j < m[k - 1]@.len() ==> #[trigger] m[k - 1]@[j]);
        lemma_set_count_all(m[k - 1]@);
        assert(k * w == (k - 1) * w + w) by (nonlinear_arith);
        assert(pair_count(m, k) == pair_count(m, k - 1) + set_count(m[k - 1]@));
    } else {
        assert(k * w == 0) by (nonlinear_arith)
            requires
                k == 0,
        ;
    }
}

// ───────────────────────────── frames ─────────────────────────────

/// The running frame of the row at `position` (what a window with a
/// sort order and no frame uses) is the partition up to and including
/// that row.
pub proof fn lemma_running_frame_rows(part: Seq<usize>, position: int, f: Frame)
    requires
        running_frame(f),
        0 <= position < part.len(),
    ensures
        frame_rows(part, position, Some(f)) == part.take(position + 1),
{
    assert(part.subrange(0, position + 1) =~= part.take(position + 1));
}

/// A frame's rows are one stretch of the partition, in partition order.
pub proof fn lemma_frame_is_stretch(part: Seq<usize>, position: int, frame: Option<Frame>)
    requires
        0 <= position < part.len(),
    ensures
        exists|lo: int, hi: int|
            0 <= lo <= hi <= part.len() && #[trigger] part.subrange(lo, hi) == frame_rows(part, position, frame),
{
    let n = part.len() as int;
    let rows = frame_rows(part, position, frame);
    if rows == part {
        assert(part.subrange(0, n) =~= part);
    } else {
        match frame {
            None => {},
            Some(f) => {
                match (offset_at(f.from, position, n, true), offset_at(f.to, position, n, false)) {
                    (Some(lo), Some(hi)) => {
                        if lo > hi {
                            assert(part.subrange(0, 0) =~= rows);
                        } else {
                            assert(0 <= lo <= hi < n);
                            assert(part.subrange(lo, hi + 1) == rows);
                        }
                    },
                    _ => {
                        assert(part.subrange(0, 0) =~= rows);
                    },
                }
            },
        }
    }
}

/// A frame that starts at or before the current row and ends at or
/// after it holds the current row.
pub proof fn lemma_frame_holds_current(part: Seq<usize>, position: int, f: Frame)
    requires
        0 <= position < part.len(),
        f.from is Unbounded || (f.from matches FrameOffset::Int(d) && d <= 0),
        f.to is Unbounded || (f.to matches FrameOffset::Int(d) && d >= 0),
    ensures
        frame_rows(part, position, Some(f)).contains(part[position]),
{
    let n = part.len() as int;
    let rows = frame_rows(part, position, Some(f));
    if f.kind != FrameKind::Rows {
        assert(rows[position] == part[position]);
    } else {
        let lo = offset_at(f.from, position, n, true)->0;
        let hi = offset_at(f.to, position, n, false)->0;
        assert(lo <= position <= hi);
        assert(rows[position - lo] == part[position]);
    }
}

// ───────────────────────────── ntile ─────────────────────────────

/// Every row of a non-empty partition falls in one of the tiles
/// `1..=tiles`, and later rows never fall in earlier tiles.
pub proof fn lemma_ntile_range(position: int, later: int, tiles: int, size: int)
    requires
        0 <= position <= later < size,
        tiles >= 1,
    ensures
        1 <= tile_of(position, tiles, size) <= tiles,
        tile_of(position, tiles, size) <= tile_of(later, tiles, size),
{
    assert(0 <= position * tiles) by (nonlinear_arith)
        requires
            0 <= position,
            tiles >= 1,
    ;
    assert(position * tiles <= later * tiles) by (nonlinear_arith)
        requires
            position <= later,
            tiles >= 1,
    ;
    assert(position * tiles < size * tiles) by (nonlinear_arith)
        requires
            position < size,
            tiles >= 1,
    ;
    assert((position * tiles) / size < tiles) by (nonlinear_arith)
        requires
            0 <= position * tiles < size * tiles,
            size >= 1,
    ;
    assert((position * tiles) / size <= (later * tiles) / size) by (nonlinear_arith)
        requires
            0 <= position * tiles <= later * tiles,
            size >= 1,
    ;
    assert(0 <= (position * tiles) / size) by (nonlinear_arith)
        requires
            0 <= position * tiles,
            size >= 1,
    ;
}


// ───────────────────────────── window partitions ─────────────────────────────

/// Where a row of a planned window sits: the group `g` and position `j`
/// of the grouping that holds it.
proof fn lemma_planned_row_in_group(t: Tds, part: Seq<usize>, keys: Seq<(usize, SortDir)>, p: WindowPlan, s: int) -> (gj: (int, int))
    requires
        plan_of(t, part, keys, p),
        0 <= s < t.rows@.len(),
    ensures
        gj.0 == p.place@[s].0,
        0 <= gj.1 < p.groups@[gj.0].rows@.len(),
        p.groups@[gj.0].rows@[gj.1] == s,
{
    broadcast use vstd::seq_lib::group_to_multiset_ensures;

    let g = p.place@[s].0 as int;
    let pos = p.place@[s].1 as int;
    let srt = p.sorted@[g]@;
    assert(srt[pos] == s as usize);
    assert(srt.contains(s as usize));
    assert(srt.to_multiset().count(s as usize) > 0);
    assert(p.groups@[g].rows@.contains(s as usize));
    let j = choose|j: int| 0 <= j < p.groups@[g].rows@.len() && p.groups@[g].rows@[j] == s as usize;
    (g, j)
}

/// Two rows of a window share a partition exactly when their partition
/// keys are equal.
pub proof fn lemma_window_partitions(t: Tds, part: Seq<usize>, keys: Seq<(usize, SortDir)>, p: WindowPlan, s1: int, s2: int)
    requires
        plan_of(t, part, keys, p),
        0 <= s1 < t.rows@.len(),
        0 <= s2 < t.rows@.len(),
        s1 != s2,
    ensures
        p.place@[s1].0 == p.place@[s2].0 <==> key_eq(key_of(t.rows@[s1]@, part), key_of(t.rows@[s2]@, part)),
{
    let (g1, j1) = lemma_planned_row_in_group(t, part, keys, p, s1);
    let (g2, j2) = lemma_planned_row_in_group(t, part, keys, p, s2);
    lemma_group_keys(t, part, p.groups@, t.rows@.len() as int, g1, j1, g2, j2);
}

/// Every slot of a planned window holds one source row, and every source
/// row one slot: the row at position `j` of sorted partition `g` is placed
/// at `(g, j)`. So a window function runs once per source row, on the
/// partition that holds it, at its own position.
pub proof fn lemma_window_slots(t: Tds, part: Seq<usize>, keys: Seq<(usize, SortDir)>, p: WindowPlan, g: int, j: int)
    requires
        plan_of(t, part, keys, p),
        0 <= g < p.sorted@.len(),
        0 <= j < p.sorted@[g]@.len(),
    ensures
        p.sorted@[g]@[j] < t.rows@.len(),
        p.place@[p.sorted@[g]@[j] as int] == (g as usize, j as usize),
{
    broadcast use vstd::seq_lib::group_to_multiset_ensures;

    let n = t.rows@.len() as int;
    let r = p.sorted@[g]@[j] as int;
    let srt = p.sorted@[g]@;
    let rows = p.groups@[g].rows@;
    // The row is in group `g`, and in the group its place names.
    assert(srt.contains(r as usize));
    assert(srt.to_multiset().count(r as usize) > 0);
    assert(rows.contains(r as usize));
    let k = choose|k: int| 0 <= k < rows.len() && rows[k] == r as usize;
    let (g2, k2) = lemma_planned_row_in_group(t, part, keys, p, r);
    lemma_row_in_one_group(t, part, p.groups@, n, r);
    assert(p.groups@[g].rows@[k] == r);
    assert(g2 == g);
    // Group rows are increasing, so no row occurs twice in the sorted
    // partition either.
    assert(rows.no_duplicates()) by {
        assert(crate::window::increasing(rows));
        assert forall|a: int, b: int| 0 <= a < rows.len() && 0 <= b < rows.len() && a != b implies rows[a] != rows[b] by {
            if a < b {
                assert(rows[a] < rows[b]);
            } else {
                assert(rows[b] < rows[a]);
            }
        }
    }
    rows.lemma_multiset_has_no_duplicates();
    srt.lemma_multiset_has_no_duplicates_conv();
    let j2 = p.place@[r].1 as int;
    assert(srt[j2] == r as usize);
    assert(j2 == j);
}

/// The frames of a planned window hold source rows only, so the map
/// results of the source rows cover every frame (what the reduce
/// arguments of a window aggregate are built from).
pub proof fn lemma_window_frames_in_range(
    t: Tds,
    part: Seq<usize>,
    keys: Seq<(usize, SortDir)>,
    p: WindowPlan,
    frame: Option<Frame>,
    s: int,
    k: int,
)
    requires
        plan_of(t, part, keys, p),
        0 <= s < t.rows@.len(),
        0 <= k < frames_of(p, frame)[s].len(),
    ensures
        frames_of(p, frame)[s][k] < t.rows@.len(),
{
    let g = p.place@[s].0 as int;
    let pos = p.place@[s].1 as int;
    let srt = p.sorted@[g]@;
    lemma_frame_is_stretch(srt, pos, frame);
    let (lo, hi) = choose|lo: int, hi: int|
        0 <= lo <= hi <= srt.len() && #[trigger] srt.subrange(lo, hi) == frame_rows(srt, pos, frame);
    assert(frames_of(p, frame)[s] == srt.subrange(lo, hi));
    assert(srt.subrange(lo, hi)[k] == srt[lo + k]);
}

/// For a window without a frame of its own, a row's aggregate runs over
/// its whole partition in sort order when the window does not sort, and
/// over the partition up to and including the row when it does; either
/// way the row is among them.
pub proof fn lemma_default_window_frames(
    t: Tds,
    part: Seq<usize>,
    keys: Seq<(usize, SortDir)>,
    p: WindowPlan,
    w: Window,
    s: int,
)
    requires
        plan_of(t, part, keys, p),
        w.frame is None,
        0 <= s < t.rows@.len(),
    ensures
        frames_of(p, window_frame(w))[s] == if w.sort@.len() == 0 {
            p.sorted@[p.place@[s].0 as int]@
        } else {
            p.sorted@[p.place@[s].0 as int]@.take(p.place@[s].1 + 1)
        },
        frames_of(p, window_frame(w))[s].contains(s as usize),
{
    let g = p.place@[s].0 as int;
    let pos = p.place@[s].1 as int;
    let srt = p.sorted@[g]@;
    assert(frames_of(p, window_frame(w))[s] == frame_rows(srt, pos, window_frame(w)));
    assert(srt[pos] == s as usize);
    if w.sort@.len() != 0 {
        let f = window_frame(w)->0;
        lemma_running_frame_rows(srt, pos, f);
        assert(srt.take(pos + 1)[pos] == s as usize);
    }
}

/// `reduce` on a row sees the rows that the window aggregate column gives
/// that row, unless the frame is a range over values (whose rows the
/// caller selects by value).
pub proof fn lemma_reduce_matches_window_aggregate(
    p: WindowPlan,
    w: Window,
    keys: Seq<(usize, SortDir)>,
    s: int,
    sel: FrameSelection,
)
    requires
        0 <= s < p.place@.len(),
        p.place@[s].0 < p.sorted@.len(),
        window_frame(w) is None || window_frame(w)->0.kind != FrameKind::Range,
        selection_is(sel, p.sorted@[p.place@[s].0 as int]@, p.place@[s].1 as int, window_frame(w), keys),
    ensures
        sel matches FrameSelection::Rows(v) && v@ == frames_of(p, window_frame(w))[s],
{
}

// ───────────────────────────── group by ─────────────────────────────

/// `groupBy` gives one row per distinct key of the group columns, in
/// order of first occurrence: row `k` is the key of its group's first
/// source row followed by the group's aggregate cells; the keys of two
/// result rows are never equal.
pub proof fn lemma_group_by_rows(rel: Tds, g: Grouping, aggs: Seq<(String, Vec<Option<Cell>>)>)
    requires
        is_grouping(rel, g.columns@, g.groups@, rel.rows@.len() as int),
    ensures
        grouped_rows(g, aggs).len() == g.groups@.len() <= rel.rows@.len(),
        forall|k: int|
            0 <= k < g.groups@.len() ==> #[trigger] grouped_rows(g, aggs)[k] == key_of(
                rel.rows@[g.groups@[k].rows@[0] as int]@,
                g.columns@,
            ) + crate::natives::new_cells(aggs, k),
        forall|k1: int, k2: int|
            0 <= k1 < k2 < g.groups@.len() ==> (#[trigger] g.groups@[k1]).rows@[0] < (#[trigger] g.groups@[k2]).rows@[0],
        forall|k1: int, k2: int|
            0 <= k1 < g.groups@.len() && 0 <= k2 < g.groups@.len() && k1 != k2 ==> !key_eq(
                key_of(rel.rows@[(#[trigger] g.groups@[k1]).rows@[0] as int]@, g.columns@),
                key_of(rel.rows@[(#[trigger] g.groups@[k2]).rows@[0] as int]@, g.columns@),
            ),
{
    let n = rel.rows@.len() as int;
    let gs = g.groups@;
    lemma_group_count(rel, g.columns@, gs, n);
    assert forall|k1: int, k2: int|
        0 <= k1 < gs.len() && 0 <= k2 < gs.len() && k1 != k2 implies !key_eq(
            key_of(rel.rows@[(#[trigger] gs[k1]).rows@[0] as int]@, g.columns@),
            key_of(rel.rows@[(#[trigger] gs[k2]).rows@[0] as int]@, g.columns@),
        ) by {
        lemma_group_keys(rel, g.columns@, gs, n, k1, 0, k2, 0);
    }
}

/// Every source row of a `groupBy` lies in a group whose key its own
/// equals: it is the group's first row, or its key equals the key of that
/// first row (a key holding NaN equals nothing, so such a row opens a
/// group of its own). With `lemma_row_in_one_group`, the group is unique.
pub proof fn lemma_row_group_key(rel: Tds, g: Grouping, r: int)
    requires
        is_grouping(rel, g.columns@, g.groups@, rel.rows@.len() as int),
        0 <= r < rel.rows@.len(),
    ensures
        exists|k: int, j: int|
            0 <= k < g.groups@.len() && 0 <= j < g.groups@[k].rows@.len() && #[trigger] g.groups@[k].rows@[j] == r
                && (j == 0 || key_eq(
                key_of(rel.rows@[g.groups@[k].rows@[0] as int]@, g.columns@),
                key_of(rel.rows@[r]@, g.columns@),
            )),
{
    let gs = g.groups@;
    assert(covered(gs, r));
    let (k, j) = choose|k: int, j: int| 0 <= k < gs.len() && 0 <= j < gs[k].rows@.len() && #[trigger] gs[k].rows@[j] == r;
    if j != 0 {
        lemma_group_keys(rel, g.columns@, gs, rel.rows@.len() as int, k, 0, k, j);
    }
    assert(g.groups@[k].rows@[j] == r);
}

// ───────────────────────────── join rows ─────────────────────────────

/// Row `row` is left row `i` followed by a right row `j` that it matched.
pub open spec fn is_pair_row(
    left: Seq<Seq<Option<Cell>>>,
    right: Seq<Seq<Option<Cell>>>,
    m: Seq<Vec<bool>>,
    row: Seq<Option<Cell>>,
) -> bool {
    exists|i: int, j: int|
        #![trigger left[i], right[j]]
        0 <= i < left.len() && 0 <= j < right.len() && m[i]@[j] && row == left[i] + right[j]
}

/// Row `row` is a left row that matched nothing, padded with `nr` empty
/// cells.
pub open spec fn is_lone_left_row(left: Seq<Seq<Option<Cell>>>, m: Seq<Vec<bool>>, nr: int, row: Seq<Option<Cell>>) -> bool {
    exists|i: int| 0 <= i < left.len() && !any_set(m[i]@) && row == #[trigger] left[i] + nulls(nr)
}

/// Row `row` is `nl` empty cells followed by a right row that nothing
/// matched.
pub open spec fn is_lone_right_row(right: Seq<Seq<Option<Cell>>>, m: Seq<Vec<bool>>, nl: int, row: Seq<Option<Cell>>) -> bool {
    exists|j: int| 0 <= j < right.len() && !right_matched(m, j) && row == nulls(nl) + #[trigger] right[j]
}

/// What `kept` returns was in its input, at a place whose flag is set.
proof fn lemma_kept_member<A>(s: Seq<A>, keep: Seq<bool>, x: int) -> (j: int)
    requires
        keep.len() >= s.len(),
        0 <= x < kept(s, keep).len(),
    ensures
        0 <= j < s.len(),
        keep[j],
        kept(s, keep)[x] == s[j],
    decreases s.len(),
{
    let prev = kept(s.drop_last(), keep.take(s.len() - 1));
    if x < prev.len() {
        let j = lemma_kept_member(s.drop_last(), keep.take(s.len() - 1), x);
        assert(kept(s, keep)[x] == prev[x]);
        j
    } else {
        assert(kept(s, keep)[x] == s.last());
        s.len() - 1
    }
}

/// The rows of the left pass over the first left rows: pairs, and, for a
/// left or full join, lone left rows.
proof fn lemma_left_pass_forms(
    left: Seq<Seq<Option<Cell>>>,
    right: Seq<Seq<Option<Cell>>>,
    m: Seq<Vec<bool>>,
    kind: JoinKind,
    nr: int,
    x: int,
)
    requires
        m.len() >= left.len(),
        forall|i: int| 0 <= i < left.len() ==> (#[trigger] m[i])@.len() == right.len(),
        0 <= x < left_pass(left, right, m, kind, nr).len(),
    ensures
        is_pair_row(left, right, m, left_pass(left, right, m, kind, nr)[x]) || (keeps_left(kind)
            && is_lone_left_row(left, m, nr, left_pass(left, right, m, kind, nr)[x])),
    decreases left.len(),
{
    let init = left.drop_last();
    let prev = left_pass(init, right, m, kind, nr);
    let row = left_pass(left, right, m, kind, nr)[x];
    let k = left.len() - 1;
    if x < prev.len() {
        lemma_left_pass_forms(init, right, m, kind, nr, x);
        assert(row == prev[x]);
        if is_pair_row(init, right, m, row) {
            let (i, j) = choose|i: int, j: int|
                #![trigger init[i], right[j]]
                0 <= i < init.len() && 0 <= j < right.len() && m[i]@[j] && row == init[i] + right[j];
            assert(left[i] == init[i]);
        } else {
            let i = choose|i: int| 0 <= i < init.len() && !any_set(m[i]@) && row == #[trigger] init[i] + nulls(nr);
            assert(left[i] == init[i]);
        }
    } else {
        let l = left.last();
        let joined = Seq::new(right.len(), |j: int| l + right[j]);
        let own = kept(joined, m[k]@);
        let y = x - prev.len();
        assert(row == left_contribution(l, right, m[k]@, kind, nr)[y]);
        if y < own.len() {
            let j = lemma_kept_member(joined, m[k]@, y);
            assert(row == left[k] + right[j]);
        } else {
            assert(row == left[k] + nulls(nr));
        }
    }
}

/// Every row of a join is a left row followed by a right row it matched;
/// or, for a left or full join, a left row that matched nothing followed
/// by empty cells; or, for a right or full join, empty cells followed by
/// a right row that nothing matched.
pub proof fn lemma_join_row_forms(
    left: Seq<Seq<Option<Cell>>>,
    right: Seq<Seq<Option<Cell>>>,
    m: Seq<Vec<bool>>,
    kind: JoinKind,
    nl: int,
    nr: int,
    x: int,
)
    requires
        m.len() == left.len(),
        forall|i: int| 0 <= i < left.len() ==> (#[trigger] m[i])@.len() == right.len(),
        0 <= x < join_rows(left, right, m, kind, nl, nr).len(),
    ensures
        is_pair_row(left, right, m, join_rows(left, right, m, kind, nl, nr)[x]) || (keeps_left(kind)
            && is_lone_left_row(left, m, nr, join_rows(left, right, m, kind, nl, nr)[x])) || (keeps_right(kind)
            && is_lone_right_row(right, m, nl, join_rows(left, right, m, kind, nl, nr)[x])),
{
    let pass = left_pass(left, right, m, kind, nr);
    let row = join_rows(left, right, m, kind, nl, nr)[x];
    if x < pass.len() {
        assert(row == pass[x]);
        lemma_left_pass_forms(left, right, m, kind, nr, x);
    } else {
        let padded = Seq::new(right.len(), |j: int| nulls(nl) + right[j]);
        let lone = Seq::new(right.len(), |j: int| !right_matched(m, j));
        let j = lemma_kept_member(padded, lone, x - pass.len());
        assert(row == nulls(nl) + right[j]);
    }
}

/// Every input of `kept` whose flag is set is in what it returns.
proof fn lemma_kept_has<A>(s: Seq<A>, keep: Seq<bool>, j: int)
    requires
        keep.len() >= s.len(),
        0 <= j < s.len(),
        keep[j],
    ensures
        kept(s, keep).contains(s[j]),
    decreases s.len(),
{
    let prev = kept(s.drop_last(), keep.take(s.len() - 1));
    if j < s.len() - 1 {
        lemma_kept_has(s.drop_last(), keep.take(s.len() - 1), j);
        let y = choose|y: int| 0 <= y < prev.len() && prev[y] == s[j];
        assert(kept(s, keep)[y] == prev[y]);
    } else {
        assert(kept(s, keep)[prev.len() as int] == s.last());
    }
}

/// The left pass over the first left rows holds every contribution of
/// each of them.
proof fn lemma_left_pass_has(
    left: Seq<Seq<Option<Cell>>>,
    right: Seq<Seq<Option<Cell>>>,
    m: Seq<Vec<bool>>,
    kind: JoinKind,
    nr: int,
    i: int,
    row: Seq<Option<Cell>>,
)
    requires
        0 <= i < left.len(),
        left_contribution(left[i], right, m[i]@, kind, nr).contains(row),
    ensures
        left_pass(left, right, m, kind, nr).contains(row),
    decreases left.len(),
{
    let init = left.drop_last();
    let prev = left_pass(init, right, m, kind, nr);
    let all = left_pass(left, right, m, kind, nr);
    if i < left.len() - 1 {
        assert(init[i] == left[i]);
        lemma_left_pass_has(init, right, m, kind, nr, i, row);
        let y = choose|y: int| 0 <= y < prev.len() && prev[y] == row;
        assert(all[y] == prev[y]);
    } else {
        let own = left_contribution(left[i], right, m[i]@, kind, nr);
        let y = choose|y: int| 0 <= y < own.len() && own[y] == row;
        assert(all[prev.len() + y] == own[y]);
    }
}

/// Every pair of a left row and a right row it matched is a row of the
/// join; so is, for a left or full join, each left row that matched
/// nothing padded with empty cells, and, for a right or full join, each
/// right row that nothing matched behind empty cells.
pub proof fn lemma_join_has_rows(
    left: Seq<Seq<Option<Cell>>>,
    right: Seq<Seq<Option<Cell>>>,
    m: Seq<Vec<bool>>,
    kind: JoinKind,
    nl: int,
    nr: int,
)
    requires
        m.len() == left.len(),
        forall|i: int| 0 <= i < left.len() ==> (#[trigger] m[i])@.len() == right.len(),
    ensures
        forall|i: int, j: int|
            0 <= i < left.len() && 0 <= j < right.len() && #[trigger] m[i]@[j] ==> join_rows(
                left,
                right,
                m,
                kind,
                nl,
                nr,
            ).contains(left[i] + right[j]),
        keeps_left(kind) ==> forall|i: int|
            0 <= i < left.len() && !any_set(#[trigger] m[i]@) ==> join_rows(left, right, m, kind, nl, nr).contains(
                left[i] + nulls(nr),
            ),
        keeps_right(kind) ==> forall|j: int|
            0 <= j < right.len() && !#[trigger] right_matched(m, j) ==> join_rows(
                left,
                right,
                m,
                kind,
                nl,
                nr,
            ).contains(nulls(nl) + right[j]),
{
    let pass = left_pass(left, right, m, kind, nr);
    let all = join_rows(left, right, m, kind, nl, nr);
    assert forall|i: int, j: int| 0 <= i < left.len() && 0 <= j < right.len() && #[trigger] m[i]@[j] implies all.contains(
        left[i] + right[j],
    ) by {
        let joined = Seq::new(right.len(), |q: int| left[i] + right[q]);
        lemma_kept_has(joined, m[i]@, j);
        let own = left_contribution(left[i], right, m[i]@, kind, nr);
        let y = choose|y: int| 0 <= y < kept(joined, m[i]@).len() && kept(joined, m[i]@)[y] == joined[j];
        assert(own[y] == joined[j]);
        lemma_left_pass_has(left, right, m, kind, nr, i, left[i] + right[j]);
        let z = choose|z: int| 0 <= z < pass.len() && pass[z] == left[i] + right[j];
        assert(all[z] == pass[z]);
    }
    if keeps_left(kind) {
        assert forall|i: int| 0 <= i < left.len() && !any_set(#[trigger] m[i]@) implies all.contains(
            left[i] + nulls(nr),
        ) by {
            let joined = Seq::new(right.len(), |q: int| left[i] + right[q]);
            let own = left_contribution(left[i], right, m[i]@, kind, nr);
            let k = kept(joined, m[i]@).len() as int;
            assert(own[k] == left[i] + nulls(nr));
            lemma_left_pass_has(left, right, m, kind, nr, i, left[i] + nulls(nr));
            let z = choose|z: int| 0 <= z < pass.len() && pass[z] == left[i] + nulls(nr);
            assert(all[z] == pass[z]);
        }
    }
    if keeps_right(kind) {
        assert forall|j: int| 0 <= j < right.len() && !#[trigger] right_matched(m, j) implies all.contains(
            nulls(nl) + right[j],
        ) by {
            let padded = Seq::new(right.len(), |q: int| nulls(nl) + right[q]);
            let lone = Seq::new(right.len(), |q: int| !right_matched(m, q));
            lemma_kept_has(padded, lone, j);
            let y = choose|y: int| 0 <= y < kept(padded, lone).len() && kept(padded, lone)[y] == padded[j];
            assert(all[pass.len() + y] == padded[j]);
        }
    }
}

// ───────────────────────────── rows frames by offset ─────────────────────────────

/// A rows frame from `d1` to `d2` rows around the current row (an
/// unbounded end reaching the partition's edge) holds exactly the rows of
/// the partition whose positions lie between `position + d1` and
/// `position + d2`, both included: none when that stretch misses the
/// partition (so with `d2 < 0` never the current row, and nothing at all
/// when `position + d2 < 0`).
pub proof fn lemma_rows_frame_positions(part: Seq<usize>, position: int, f: Frame)
    requires
        0 <= position < part.len(),
        f.kind == FrameKind::Rows,
        !(f.from is Numeric),
        !(f.to is Numeric),
    ensures
        ({
            let n = part.len() as int;
            let lo = match f.from {
                FrameOffset::Int(d) => if position + d < 0 {
                    0
                } else {
                    position + d
                },
                _ => 0,
            };
            let hi = match f.to {
                FrameOffset::Int(d) => if position + d + 1 > n {
                    n
                } else {
                    position + d + 1
                },
                _ => n,
            };
            frame_rows(part, position, Some(f)) == if lo < hi {
                part.subrange(lo, hi)
            } else {
                Seq::empty()
            }
        }),
{
}

// ───────────────────────────── double order ─────────────────────────────

/// Doubles that are not NaN sort by value: every negative double before
/// every non-negative one, non-negative ones in the order of their bits,
/// negative ones in the reverse order of their bits (a larger magnitude
/// first), and the two zeros together.
pub proof fn lemma_double_cells_sort_by_value(x: crate::tds::FloatCell, y: crate::tds::FloatCell)
    requires
        !crate::tds::is_nan(x.bits),
        !crate::tds::is_nan(y.bits),
    ensures
        ({
            let o = crate::window::cell_order(Cell::Float(x), Cell::Float(y));
            let (a, b) = (x.bits as int, y.bits as int);
            let neg = 0x8000_0000_0000_0000int;
            &&& (a < neg && b < neg ==> (o == Order::Less <==> a < b) && (o == Order::Equal <==> a == b))
            &&& (a >= neg && b >= neg ==> (o == Order::Less <==> a > b) && (o == Order::Equal <==> a == b
                || (a == neg && b == neg)))
            &&& (a > neg && b < neg ==> o == Order::Less)
            &&& (a < neg && b > neg ==> o == Order::Greater)
            &&& ((a == 0 || a == neg) && (b == 0 || b == neg) ==> o == Order::Equal)
        }),
{
    let a = x.bits;
    let b = y.bits;
    let neg = 0x8000_0000_0000_0000int;
    if a as int >= neg {
        assert((a as int) % neg == (a as int) - neg) by (nonlinear_arith)
            requires
                neg <= (a as int) < 2 * neg,
                neg == 0x8000_0000_0000_0000int,
        ;
    }
    if b as int >= neg {
        assert((b as int) % neg == (b as int) - neg) by (nonlinear_arith)
            requires
                neg <= (b as int) < 2 * neg,
                neg == 0x8000_0000_0000_0000int,
        ;
    }
}

/// An integer against a double that is not NaN: a negative non-zero
/// double (or minus infinity) sorts before every integer that is not
/// negative, a positive non-zero one (or plus infinity) after every
/// integer that is not positive, and either zero sorts with the integer 0.
pub proof fn lemma_integer_double_cells_by_sign(x: i64, y: crate::tds::FloatCell)
    requires
        !crate::tds::is_nan(y.bits),
    ensures
        ({
            let o = crate::window::cell_order(Cell::Integer(x), Cell::Float(y));
            let b = y.bits as int;
            let neg = 0x8000_0000_0000_0000int;
            &&& (b > neg && x >= 0 ==> o == Order::Greater)
            &&& (0 < b < neg && x <= 0 ==> o == Order::Less)
            &&& ((b == 0 || b == neg) ==> (o == Order::Equal <==> x == 0) && (o == Order::Less <==> x < 0))
        }),
{
    let b = y.bits;
    let neg = 0x8000_0000_0000_0000int;
    let span = crate::tds::mantissa_span();
    if b as int == 0 || b as int == neg {
        assert(crate::tds::exponent_field(b) == 0 && crate::tds::fraction_field(b) == 0) by (nonlinear_arith)
            requires
                b as int == 0 || b as int == 0x8000_0000_0000_0000int,
                span == 0x10_0000_0000_0000int,
                crate::tds::exponent_field(b) == ((b as int) / span) % 2048,
                crate::tds::fraction_field(b) == (b as int) % span,
        ;
    } else if crate::tds::exponent_field(b) != 2047 && crate::window::significand(b) == 0 {
        // Only the zeros have a zero significand.
        assert((b as int) % neg == 0) by (nonlinear_arith)
            requires
                span == 0x10_0000_0000_0000int,
                neg == 0x8000_0000_0000_0000int,
                (b as int) % span == 0,
                ((b as int) / span) % 2048 == 0,
                0 <= (b as int) < 2 * neg,
        ;
        assert(false) by (nonlinear_arith)
            requires
                neg == 0x8000_0000_0000_0000int,
                (b as int) % neg == 0,
                0 <= (b as int) < 2 * neg,
                b as int != 0,
                b as int != neg,
        ;
    }
}

// ───────────────────────────── protocol JSON ─────────────────────────────

/// Each tagged value `{profile.tag = 'text'}` of a class is emitted, in
/// order, under `taggedValues` as `{"tag": {"profile": profile, "value":
/// tag}, "value": text}`.
pub proof fn lemma_tagged_values_json(c: crate::ast::ClassDef, k: int)
    requires
        0 <= k < c.tagged_values@.len(),
    ensures
        ({
            &&& crate::emitter::element_json(crate::ast::Element::Class(c)) matches crate::emitter::JsonView::Members(ms)
            &&& crate::classpath::member_named(ms, "taggedValues"@) matches Some(crate::emitter::JsonView::List(items))
            &&& items.len() == c.tagged_values@.len()
            &&& items[k] matches crate::emitter::JsonView::Members(tv)
            &&& crate::classpath::member_named(tv, "value"@) == Some(crate::emitter::JsonView::Text(c.tagged_values@[k].value@))
            &&& crate::classpath::member_named(tv, "tag"@) matches Some(crate::emitter::JsonView::Members(tag))
            &&& crate::classpath::member_named(tag, "profile"@) == Some(crate::emitter::JsonView::Text(c.tagged_values@[k].profile@))
            &&& crate::classpath::member_named(tag, "value"@) == Some(crate::emitter::JsonView::Text(c.tagged_values@[k].tag@))
        }),
{
    reveal_strlit("taggedValues");
    reveal_strlit("_type");
    reveal_strlit("name");
    reveal_strlit("package");
    reveal_strlit("superTypes");
    reveal_strlit("properties");
    reveal_strlit("stereotypes");
    reveal_strlit("value");
    reveal_strlit("tag");
    reveal_strlit("profile");
    let j = crate::emitter::element_json(crate::ast::Element::Class(c));
    let ms = j->Members_0;
    assert("taggedValues"@.len() == 12);
    assert(ms[0].0 == "_type"@ && "_type"@.len() == 5);
    assert(ms[1].0 == "name"@ && "name"@.len() == 4);
    assert(ms[0].0 != "taggedValues"@);
    assert(ms[1].0 != "taggedValues"@);
    assert(ms[2].0 != "taggedValues"@);
    assert(ms[3].0 != "taggedValues"@);
    assert(ms[4].0 != "taggedValues"@);
    assert(ms[5].0 != "taggedValues"@);
    assert(ms.drop_first().drop_first().drop_first().drop_first().drop_first().drop_first()[0] == ms[6]);
    reveal_with_fuel(crate::classpath::member_named, 8);
    let tv = crate::emitter::tagged_value_json(c.tagged_values@[k])->Members_0;
    assert("value"@.len() == 5 && "tag"@.len() == 3 && "profile"@.len() == 7);
    assert(tv[0].0 == "tag"@);
    assert(tv[0].0 != "value"@);
    assert(tv.drop_first()[0] == tv[1]);
    let tag = tv[0].1->Members_0;
    assert(tag[0].0 == "profile"@);
    assert(tag[0].0 != "value"@);
    assert(tag.drop_first()[0] == tag[1]);
}

/// Each stereotype `<<profile.value>>` of a class is emitted, in order,
/// under `stereotypes` as `{"profile": profile, "value": value}`.
pub proof fn lemma_stereotypes_json(c: crate::ast::ClassDef, k: int)
    requires
        0 <= k < c.stereotypes@.len(),
    ensures
        ({
            &&& crate::emitter::element_json(crate::ast::Element::Class(c)) matches crate::emitter::JsonView::Members(ms)
            &&& crate::classpath::member_named(ms, "stereotypes"@) matches Some(crate::emitter::JsonView::List(items))
            &&& items.len() == c.stereotypes@.len()
            &&& items[k] matches crate::emitter::JsonView::Members(st)
            &&& crate::classpath::member_named(st, "profile"@) == Some(crate::emitter::JsonView::Text(c.stereotypes@[k].profile@))
            &&& crate::classpath::member_named(st, "value"@) == Some(crate::emitter::JsonView::Text(c.stereotypes@[k].value@))
        }),
{
    reveal_strlit("stereotypes");
    reveal_strlit("_type");
    reveal_strlit("name");
    reveal_strlit("package");
    reveal_strlit("superTypes");
    reveal_strlit("properties");
    reveal_strlit("value");
    reveal_strlit("profile");
    let ms = crate::emitter::element_json(crate::ast::Element::Class(c))->Members_0;
    assert("stereotypes"@.len() == 11);
    assert(ms[0].0 == "_type"@ && "_type"@.len() == 5);
    assert(ms[1].0 == "name"@ && "name"@.len() == 4);
    assert(ms[2].0 == "package"@ && "package"@.len() == 7);
    assert(ms[3].0 == "superTypes"@ && "superTypes"@.len() == 10);
    assert(ms[4].0 == "properties"@ && "properties"@.len() == 10);
    assert(ms.drop_first().drop_first().drop_first().drop_first().drop_first()[0] == ms[5]);
    reveal_with_fuel(crate::classpath::member_named, 7);
    let st = crate::emitter::stereotype_json(c.stereotypes@[k])->Members_0;
    assert("value"@.len() == 5 && "profile"@.len() == 7);
    assert(st[0].0 == "profile"@);
    assert(st.drop_first()[0] == st[1]);
}

} // verus!
