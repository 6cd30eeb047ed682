//! The relation natives: what each computes on the relations, windows and
//! per-row results it is handed.
//!
//! Where a native evaluates a Pure lambda per row (filter, map, extend,
//! groupBy, join, reduce), the evaluation belongs to the runtime: the
//! native here takes the lambda's results as arguments and does the
//! rest, so its contract holds for every value they may take.
use vstd::prelude::*;

use crate::window::{
    all_named, columns_of, dense_rank_at, effective_frame, frame_high, frame_low, frame_row_indices,
    frame_rows, frame_fits, high_of, is_grouping, is_missing, key_changes, low_of, names_of,
    partition_row_indices, plan_of, plan_window, resolve_names, resolve_window_sort, run_start,
    sort_keys_of, sort_names, start_of_run, trunc_div, Frame, FrameKind, Group, Ratio, SortDir, Window,
    WindowPlan,
};
use crate::tds::{
    lemma_body_of_wf, lemma_wf_of_body,
    any_empty, copy_columns, copy_row, copy_rows, infer_column_type_and_mult, inferred_multiplicity,
    inferred_type, pack, push_flat, render_tds, rows_view, tds_text, Cell, ColumnMultiplicity, Multi,
    Tds, TdsColumn,
};

verus! {

/// Why a native could not produce its result.
#[derive(Debug)]
pub enum NativeError {
    /// A column the call names (partition, sort or group column) that
    /// the relation lacks.
    MissingColumn(String),
    /// The row tuple carries no window position.
    MissingPosition,
    /// `reduce`: the row is not one of the relation's rows.
    RowNotFound,
    /// A join kind other than `INNER`, `LEFT`, `RIGHT` and `FULL`.
    UnknownJoinKind,
    /// A group-column list with no name in it.
    NoGroupColumns,
}

// ───────────────────────────── columns / drop / slice ─────────────────────────────

/// `columns(rel)`: the relation's columns.
#[derive(Debug)]
pub struct Columns;

impl Columns {
    /// The columns of `rel`, in order, with their names, types and
    /// multiplicities.
    pub fn execute(&self, rel: &Tds) -> (r: Vec<TdsColumn>)
        ensures
            r@ == rel.columns@,
    {
        copy_columns(&rel.columns)
    }
}

/// The number of leading rows `drop` skips: none for a negative count,
/// all of them for a count past the end.
pub open spec fn drop_count(count: i64, n: int) -> int {
    if count < 0 {
        0
    } else if count > n {
        n
    } else {
        count as int
    }
}

/// `drop(rel, size)`: the relation without its first `size` rows.
#[derive(Debug)]
pub struct Drop;

impl Drop {
    /// `rel` without its first `drop_count(count)` rows.
    pub fn execute(&self, rel: &Tds, count: i64) -> (r: Tds)
        ensures
            r.columns@ == rel.columns@,
            r.body() == rel.body().skip(drop_count(count, rel.rows@.len() as int)),
            rel.wf() ==> r.wf(),
    {
        let n = rel.rows.len();
        let skip: usize = if count < 0 {
            0
        } else if count as u64 >= n as u64 {
            n
        } else {
            count as usize
        };
        let rows = copy_rows(&rel.rows, skip, n);
        let r = Tds { columns: copy_columns(&rel.columns), rows };
        proof {
            assert(r.body() =~= rel.body().skip(skip as int));
            if rel.wf() {
                lemma_body_of_wf(*rel);
                lemma_wf_of_body(r);
            }
        }
        r
    }
}

/// The row range `slice(start, stop)` keeps: `[lo, hi)` with `lo` the
/// start clamped to `0..=n` and `hi` the stop clamped to `lo..=n`.
pub open spec fn slice_bounds(start: i64, stop: i64, n: int) -> (int, int) {
    let lo = if start < 0 {
        0
    } else if start > n {
        n
    } else {
        start as int
    };
    let hi = if stop < lo {
        lo
    } else if stop > n {
        n
    } else {
        stop as int
    };
    (lo, hi)
}

/// `slice(rel, start, stop)`: the rows `[start, stop)`.
#[derive(Debug)]
pub struct Slice;

impl Slice {
    /// The rows of `rel` in `slice_bounds`: both bounds clamped to the
    /// relation, empty when the stop is not past the start.
    pub fn execute(&self, rel: &Tds, start: i64, stop: i64) -> (r: Tds)
        ensures
            r.columns@ == rel.columns@,
            r.body() == rel.body().subrange(
                slice_bounds(start, stop, rel.rows@.len() as int).0,
                slice_bounds(start, stop, rel.rows@.len() as int).1,
            ),
            rel.wf() ==> r.wf(),
    {
        let n = rel.rows.len();
        let lo: usize = if start < 0 {
            0
        } else if start as u64 >= n as u64 {
            n
        } else {
            start as usize
        };
        let hi: usize = if stop < 0 || (stop as u64) < lo as u64 {
            lo
        } else if stop as u64 >= n as u64 {
            n
        } else {
            stop as usize
        };
        let rows = copy_rows(&rel.rows, lo, hi);
        let r = Tds { columns: copy_columns(&rel.columns), rows };
        proof {
            assert(r.body() =~= rel.body().subrange(lo as int, hi as int));
            if rel.wf() {
                lemma_body_of_wf(*rel);
                lemma_wf_of_body(r);
            }
        }
        r
    }
}

// ───────────────────────────── filter / map ─────────────────────────────

/// The elements of `s` whose flag in `keep` is set, in order.
pub open spec fn kept<A>(s: Seq<A>, keep: Seq<bool>) -> Seq<A>
    decreases s.len(),
{
    if s.len() == 0 {
        Seq::empty()
    } else {
        kept(s.drop_last(), keep.take(s.len() - 1)) + if keep[s.len() - 1] {
            seq![s.last()]
        } else {
            Seq::empty()
        }
    }
}

/// Every row `kept` returns is as wide as the rows it chose from.
pub proof fn lemma_kept_widths(s: Seq<Seq<Option<Cell>>>, keep: Seq<bool>, n: int)
    requires
        forall|i: int| 0 <= i < s.len() ==> (#[trigger] s[i]).len() == n,
    ensures
        forall|i: int| 0 <= i < kept(s, keep).len() ==> (#[trigger] kept(s, keep)[i]).len() == n,
    decreases s.len(),
{
    if s.len() > 0 {
        lemma_kept_widths(s.drop_last(), keep.take(s.len() - 1), n);
        let prev = kept(s.drop_last(), keep.take(s.len() - 1));
        assert forall|i: int| 0 <= i < kept(s, keep).len() implies (#[trigger] kept(s, keep)[i]).len() == n by {
            if i < prev.len() {
                assert(kept(s, keep)[i] == prev[i]);
            } else {
                assert(kept(s, keep)[i] == s.last());
            }
        }
    }
}

/// `filter(rel, f)`: the rows for which the predicate held.
#[derive(Debug)]
pub struct Filter;

impl Filter {
    /// The rows of `rel` whose entry in `keep` (the predicate's value on
    /// that row) is `true`, in order, under the same columns.
    pub fn execute(&self, rel: &Tds, keep: &Vec<bool>) -> (r: Tds)
        requires
            keep@.len() == rel.rows@.len(),
        ensures
            r.columns@ == rel.columns@,
            r.body() == kept(rel.body(), keep@),
            rel.wf() ==> r.wf(),
    {
        let mut rows: Vec<Vec<Option<Cell>>> = Vec::new();
        let mut i: usize = 0;
        while i < rel.rows.len()
            invariant
                keep@.len() == rel.rows@.len(),
                i <= rel.rows@.len(),
                rows_view(rows@) == kept(rel.body().take(i as int), keep@.take(i as int)),
            decreases rel.rows.len() - i,
        {
            proof {
                let b = rel.body().take(i + 1);
                assert(b.drop_last() =~= rel.body().take(i as int));
                assert(keep@.take(i + 1).take(i as int) =~= keep@.take(i as int));
                assert(b.last() == rel.rows@[i as int]@);
            }
            if keep[i] {
                let ghost before = rows@;
                rows.push(copy_row(&rel.rows[i]));
                proof {
                    assert(rows_view(rows@) =~= rows_view(before).push(rel.rows@[i as int]@));
                }
            } else {
                proof {
                    assert(kept(rel.body().take(i + 1), keep@.take(i + 1)) =~= kept(
                        rel.body().take(i as int),
                        keep@.take(i as int),
                    ));
                }
            }
            i = i + 1;
        }
        proof {
            assert(rel.body().take(rel.rows@.len() as int) =~= rel.body());
            assert(keep@.take(rel.rows@.len() as int) =~= keep@);
        }
        let r = Tds { columns: copy_columns(&rel.columns), rows };
        proof {
            if rel.wf() {
                lemma_body_of_wf(*rel);
                lemma_kept_widths(rel.body(), keep@, rel.columns@.len() as int);
                lemma_wf_of_body(r);
            }
        }
        r
    }
}

/// The values of a list of results, one after the other.
pub open spec fn flattened<T>(rs: Seq<Multi<T>>) -> Seq<T>
    decreases rs.len(),
{
    if rs.len() == 0 {
        Seq::empty()
    } else {
        flattened(rs.drop_last()) + rs.last().items()
    }
}

/// `map(rel, f)`: the lambda's results on every row, flattened.
#[derive(Debug)]
pub struct MapRelation;

impl MapRelation {
    /// The values of `results` (the lambda's result on each row, in row
    /// order) one after the other, handed back as nothing, one value or
    /// a collection.
    pub fn execute<T>(&self, results: Vec<Multi<T>>) -> (r: Multi<T>)
        ensures
            r.items() == flattened(results@),
            flattened(results@).len() == 0 ==> r is Unit,
            flattened(results@).len() == 1 ==> r is Single,
            flattened(results@).len() > 1 ==> r is Collection,
    {
        let mut out: Vec<T> = Vec::new();
        let total = results.len();
        let mut rest = results;
        let ghost all = rest@;
        let mut taken: usize = 0;
        while rest.len() > 0
            invariant
                total == all.len(),
                taken + rest@.len() == all.len(),
                rest@ == all.skip(taken as int),
                out@ == flattened(all.take(taken as int)),
            decreases rest.len(),
        {
            let v = rest.remove(0);
            proof {
                assert(all.take(taken + 1).drop_last() =~= all.take(taken as int));
                assert(all.take(taken + 1).last() == v);
                assert(rest@ =~= all.skip(taken + 1));
            }
            push_flat(&mut out, v);
            taken = taken + 1;
        }
        assert(all.take(all.len() as int) =~= all);
        pack(out)
    }
}

// ───────────────────────────── extend ─────────────────────────────

/// The column a new column of `cells` is given.
pub open spec fn new_column(name: String, cells: Seq<Option<Cell>>) -> TdsColumn {
    TdsColumn { name, type_tag: inferred_type(cells), multiplicity: inferred_multiplicity(cells) }
}

/// The rows of `body` with, on row `i`, the cells `extra(i)` appended.
pub open spec fn appended(body: Seq<Seq<Option<Cell>>>, extra: spec_fn(int) -> Seq<Option<Cell>>) -> Seq<
    Seq<Option<Cell>>,
> {
    Seq::new(body.len(), |i: int| body[i] + extra(i))
}

/// Builds the column of `name` over `cells`, with the inferred type and
/// multiplicity.
fn make_column(name: String, cells: &Vec<Option<Cell>>) -> (r: TdsColumn)
    ensures
        r == new_column(name, cells@),
{
    let (t, m) = infer_column_type_and_mult(cells);
    TdsColumn { name, type_tag: t, multiplicity: m }
}

/// `extend(rel, ~name: f)`: one new column holding the lambda's result
/// on each row.
#[derive(Debug)]
pub struct ExtendFuncColSpec;

impl ExtendFuncColSpec {
    /// `rel` with the column `name` appended, holding `cells` (the
    /// lambda's result on each row; an empty cell where it had none).
    pub fn execute(&self, rel: &Tds, name: String, cells: Vec<Option<Cell>>) -> (r: Tds)
        requires
            cells@.len() == rel.rows@.len(),
        ensures
            r.columns@ == rel.columns@.push(new_column(name, cells@)),
            r.body() == appended(rel.body(), |i: int| seq![cells@[i]]),
            rel.wf() ==> r.wf(),
    {
        let column = make_column(name, &cells);
        let mut columns = copy_columns(&rel.columns);
        columns.push(column);
        let mut rows: Vec<Vec<Option<Cell>>> = Vec::new();
        let mut i: usize = 0;
        while i < rel.rows.len()
            invariant
                cells@.len() == rel.rows@.len(),
                i <= rel.rows@.len(),
                rows_view(rows@) =~= appended(rel.body(), |i: int| seq![cells@[i]]).take(i as int),
            decreases rel.rows.len() - i,
        {
            let mut row = copy_row(&rel.rows[i]);
            row.push(crate::tds::copy_cell(&cells[i]));
            proof {
                assert(row@ =~= rel.body()[i as int] + seq![cells@[i as int]]);
            }
            let ghost before = rows@;
            rows.push(row);
            proof {
                assert(rows_view(rows@) =~= rows_view(before).push(rows@.last()@));
            }
            i = i + 1;
        }
        let r = Tds { columns, rows };
        proof {
            if rel.wf() {
                lemma_body_of_wf(*rel);
                lemma_wf_of_body(r);
            }
        }
        r
    }
}

/// The columns for a list of `(name, cells)` pairs.
pub open spec fn new_columns(cols: Seq<(String, Vec<Option<Cell>>)>) -> Seq<TdsColumn> {
    Seq::new(cols.len(), |k: int| new_column(cols[k].0, cols[k].1@))
}

/// The cells the new columns put on row `i`.
pub open spec fn new_cells(cols: Seq<(String, Vec<Option<Cell>>)>, i: int) -> Seq<Option<Cell>> {
    Seq::new(cols.len(), |k: int| cols[k].1@[i])
}

/// `extend(rel, ~[name: f, ...])`: several new columns, one per lambda.
#[derive(Debug)]
pub struct ExtendFuncColSpecArray;

impl ExtendFuncColSpecArray {
    /// `rel` with one column appended per `(name, cells)` pair, in order,
    /// each holding its lambda's result on each row.
    pub fn execute(&self, rel: &Tds, cols: Vec<(String, Vec<Option<Cell>>)>) -> (r: Tds)
        requires
            forall|k: int| 0 <= k < cols@.len() ==> (#[trigger] cols@[k]).1@.len() == rel.rows@.len(),
        ensures
            r.columns@ == rel.columns@ + new_columns(cols@),
            r.body() == appended(rel.body(), |i: int| new_cells(cols@, i)),
            rel.wf() ==> r.wf(),
    {
        let mut columns = copy_columns(&rel.columns);
        let mut k: usize = 0;
        while k < cols.len()
            invariant
                k <= cols@.len(),
                columns@ =~= rel.columns@ + new_columns(cols@).take(k as int),
            decreases cols.len() - k,
        {
            let name = cols[k].0.clone();
            let c = make_column(name, &cols[k].1);
            columns.push(c);
            k = k + 1;
        }
        let mut rows: Vec<Vec<Option<Cell>>> = Vec::new();
        let mut i: usize = 0;
        while i < rel.rows.len()
            invariant
                forall|k: int| 0 <= k < cols@.len() ==> (#[trigger] cols@[k]).1@.len() == rel.rows@.len(),
                i <= rel.rows@.len(),
                rows_view(rows@) =~= appended(rel.body(), |i: int| new_cells(cols@, i)).take(i as int),
            decreases rel.rows.len() - i,
        {
            let mut row = copy_row(&rel.rows[i]);
            let ghost base = row@;
            let mut k: usize = 0;
            while k < cols.len()
                invariant
                    forall|k: int| 0 <= k < cols@.len() ==> (#[trigger] cols@[k]).1@.len() == rel.rows@.len(),
                    i < rel.rows@.len(),
                    k <= cols@.len(),
                    row@ =~= base + new_cells(cols@, i as int).take(k as int),
                decreases cols.len() - k,
            {
                assert(cols@[k as int].1@.len() == rel.rows@.len());
                row.push(crate::tds::copy_cell(&cols[k].1[i]));
                k = k + 1;
            }
            let ghost before = rows@;
            rows.push(row);
            proof {
                assert(new_cells(cols@, i as int).take(cols@.len() as int) =~= new_cells(cols@, i as int));
                assert(rows_view(rows@) =~= rows_view(before).push(rows@.last()@));
            }
            i = i + 1;
        }
        assert(new_columns(cols@).take(cols@.len() as int) =~= new_columns(cols@));
        let r = Tds { columns, rows };
        proof {
            if rel.wf() {
                lemma_body_of_wf(*rel);
                lemma_wf_of_body(r);
            }
        }
        r
    }
}

// ───────────────────────────── toString ─────────────────────────────

/// `toString(rel)`: the relation as text.
#[derive(Debug)]
pub struct ToStringRelation;

impl ToStringRelation {
    /// `#TDS`, the header line, one line per row, `#`.
    pub fn execute(&self, rel: &Tds) -> (r: String)
        ensures
            r@ == tds_text(*rel, false),
    {
        render_tds(rel, false)
    }
}

/// `toString(rel, typesAndMuls)`: the relation as text, headers typed
/// on request.
#[derive(Debug)]
pub struct ToStringRelationTyped;

impl ToStringRelationTyped {
    /// As `toString(rel)`, with `name:Type[mult]` headers when
    /// `types_and_muls` holds.
    pub fn execute(&self, rel: &Tds, types_and_muls: bool) -> (r: String)
        ensures
            r@ == tds_text(*rel, types_and_muls),
    {
        render_tds(rel, types_and_muls)
    }
}


// ───────────────────────────── join ─────────────────────────────

/// Which unmatched rows a join keeps.
#[derive(Debug, Clone, Copy, PartialEq, Eq, Structural)]
pub enum JoinKind {
    Inner,
    Left,
    Right,
    Full,
}

/// The join kind a `JoinKind` member name stands for.
pub open spec fn join_kind_named(name: Seq<char>) -> Option<JoinKind> {
    if name == "INNER"@ {
        Some(JoinKind::Inner)
    } else if name == "LEFT"@ {
        Some(JoinKind::Left)
    } else if name == "RIGHT"@ {
        Some(JoinKind::Right)
    } else if name == "FULL"@ {
        Some(JoinKind::Full)
    } else {
        None
    }
}

/// Reads a join kind from its member name (`None` when the argument
/// carries no name).
pub fn read_join_kind(name: Option<&str>) -> (r: Result<JoinKind, NativeError>)
    ensures
        name is None ==> r matches Err(NativeError::UnknownJoinKind),
        name is Some ==> match join_kind_named(name->0@) {
            Some(k) => r == Ok::<JoinKind, NativeError>(k),
            None => r matches Err(NativeError::UnknownJoinKind),
        },
{
    match name {
        None => Err(NativeError::UnknownJoinKind),
        Some(n) => {
            if crate::text::str_eq(n, "INNER") {
                Ok(JoinKind::Inner)
            } else if crate::text::str_eq(n, "LEFT") {
                Ok(JoinKind::Left)
            } else if crate::text::str_eq(n, "RIGHT") {
                Ok(JoinKind::Right)
            } else if crate::text::str_eq(n, "FULL") {
                Ok(JoinKind::Full)
            } else {
                Err(NativeError::UnknownJoinKind)
            }
        },
    }
}

/// `n` empty cells.
pub open spec fn nulls(n: int) -> Seq<Option<Cell>> {
    Seq::new(n as nat, |i: int| None::<Cell>)
}

/// Whether some flag is set.
pub open spec fn any_set(s: Seq<bool>) -> bool {
    exists|j: int| 0 <= j < s.len() && #[trigger] s[j]
}

/// Whether some left row matched right row `j`.
pub open spec fn right_matched(m: Seq<Vec<bool>>, j: int) -> bool {
    exists|i: int| 0 <= i < m.len() && #[trigger] m[i]@[j]
}

/// The result rows that left row `l` contributes: `l` joined to each
/// right row it matched, in right order, then, for a left or full join
/// when it matched none, `l` padded with empty cells.
pub open spec fn left_contribution(
    l: Seq<Option<Cell>>,
    right: Seq<Seq<Option<Cell>>>,
    m: Seq<bool>,
    kind: JoinKind,
    nr: int,
) -> Seq<Seq<Option<Cell>>> {
    kept(Seq::new(right.len(), |j: int| l + right[j]), m) + if !any_set(m) && (kind == JoinKind::Left
        || kind == JoinKind::Full) {
        seq![l + nulls(nr)]
    } else {
        Seq::empty()
    }
}

/// The contributions of the left rows, in left order.
pub open spec fn left_pass(
    left: Seq<Seq<Option<Cell>>>,
    right: Seq<Seq<Option<Cell>>>,
    m: Seq<Vec<bool>>,
    kind: JoinKind,
    nr: int,
) -> Seq<Seq<Option<Cell>>>
    decreases left.len(),
{
    if left.len() == 0 {
        Seq::empty()
    } else {
        left_pass(left.drop_last(), right, m, kind, nr) + left_contribution(
            left.last(),
            right,
            m[left.len() - 1]@,
            kind,
            nr,
        )
    }
}

/// The rows of a join: the left pass, then, for a right or full join,
/// each right row that no left row matched, padded in front with empty
/// cells.
pub open spec fn join_rows(
    left: Seq<Seq<Option<Cell>>>,
    right: Seq<Seq<Option<Cell>>>,
    m: Seq<Vec<bool>>,
    kind: JoinKind,
    nl: int,
    nr: int,
) -> Seq<Seq<Option<Cell>>> {
    left_pass(left, right, m, kind, nr) + if kind == JoinKind::Right || kind == JoinKind::Full {
        kept(
            Seq::new(right.len(), |j: int| nulls(nl) + right[j]),
            Seq::new(right.len(), |j: int| !right_matched(m, j)),
        )
    } else {
        Seq::empty()
    }
}

/// Whether some row has an empty cell at column `k`.
pub open spec fn null_at(rows: Seq<Seq<Option<Cell>>>, k: int) -> bool {
    exists|r: int| 0 <= r < rows.len() && k < (#[trigger] rows[r]).len() && rows[r][k] is None
}

/// A column as a join result carries it: widened to `[0..1]` when it
/// was `[1]` and some result row has no value in it.
pub open spec fn widened(c: TdsColumn, rows: Seq<Seq<Option<Cell>>>, k: int) -> TdsColumn {
    if c.multiplicity is PureOne && null_at(rows, k) {
        TdsColumn { multiplicity: ColumnMultiplicity::ZeroOrOne, ..c }
    } else {
        c
    }
}

proof fn lemma_left_pass_widths(
    left: Seq<Seq<Option<Cell>>>,
    right: Seq<Seq<Option<Cell>>>,
    m: Seq<Vec<bool>>,
    kind: JoinKind,
    nl: int,
    nr: int,
)
    requires
        nr >= 0,
        forall|i: int| 0 <= i < left.len() ==> (#[trigger] left[i]).len() == nl,
        forall|j: int| 0 <= j < right.len() ==> (#[trigger] right[j]).len() == nr,
    ensures
        forall|i: int|
            0 <= i < left_pass(left, right, m, kind, nr).len() ==> (#[trigger] left_pass(
                left,
                right,
                m,
                kind,
                nr,
            )[i]).len() == nl + nr,
    decreases left.len(),
{
    if left.len() > 0 {
        lemma_left_pass_widths(left.drop_last(), right, m, kind, nl, nr);
        let l = left.last();
        let pairs = Seq::new(right.len(), |j: int| l + right[j]);
        lemma_kept_widths(pairs, m[left.len() - 1]@, nl + nr);
        let prev = left_pass(left.drop_last(), right, m, kind, nr);
        let c = left_contribution(l, right, m[left.len() - 1]@, kind, nr);
        let k = kept(pairs, m[left.len() - 1]@);
        assert forall|i: int| 0 <= i < left_pass(left, right, m, kind, nr).len() implies (#[trigger] left_pass(
            left,
            right,
            m,
            kind,
            nr,
        )[i]).len() == nl + nr by {
            if i < prev.len() {
                assert(left_pass(left, right, m, kind, nr)[i] == prev[i]);
            } else if i < prev.len() + k.len() {
                assert(left_pass(left, right, m, kind, nr)[i] == k[i - prev.len()]);
            } else {
                assert(left_pass(left, right, m, kind, nr)[i] == l + nulls(nr));
            }
        }
    }
}

/// Every row of a join has the left table's cells then the right
/// table's.
pub proof fn lemma_join_widths(
    left: Seq<Seq<Option<Cell>>>,
    right: Seq<Seq<Option<Cell>>>,
    m: Seq<Vec<bool>>,
    kind: JoinKind,
    nl: int,
    nr: int,
)
    requires
        nl >= 0,
        nr >= 0,
        forall|i: int| 0 <= i < left.len() ==> (#[trigger] left[i]).len() == nl,
        forall|j: int| 0 <= j < right.len() ==> (#[trigger] right[j]).len() == nr,
    ensures
        forall|i: int|
            0 <= i < join_rows(left, right, m, kind, nl, nr).len() ==> (#[trigger] join_rows(
                left,
                right,
                m,
                kind,
                nl,
                nr,
            )[i]).len() == nl + nr,
{
    lemma_left_pass_widths(left, right, m, kind, nl, nr);
    let pads = Seq::new(right.len(), |j: int| nulls(nl) + right[j]);
    let flags = Seq::new(right.len(), |j: int| !right_matched(m, j));
    lemma_kept_widths(pads, flags, nl + nr);
    let lp = left_pass(left, right, m, kind, nr);
    let rows = join_rows(left, right, m, kind, nl, nr);
    assert forall|i: int| 0 <= i < rows.len() implies (#[trigger] rows[i]).len() == nl + nr by {
        if i < lp.len() {
            assert(rows[i] == lp[i]);
        } else {
            assert(rows[i] == kept(pads, flags)[i - lp.len()]);
        }
    }
}

/// `join(rel1, rel2, kind, f)`: a nested-loop join.
#[derive(Debug)]
pub struct Join;

impl Join {
    /// The join of `left` and `right` of kind `kind`, where `matched[i][j]`
    /// is the predicate's value on left row `i` and right row `j`: the
    /// rows of `join_rows`, under the left columns then the right
    /// columns, each widened where the result has an empty cell.
    pub fn execute(&self, left: &Tds, right: &Tds, kind: JoinKind, matched: &Vec<Vec<bool>>) -> (r: Tds)
        requires
            left.wf(),
            right.wf(),
            matched@.len() == left.rows@.len(),
            forall|i: int| 0 <= i < matched@.len() ==> (#[trigger] matched@[i])@.len() == right.rows@.len(),
        ensures
            r.body() == join_rows(
                left.body(),
                right.body(),
                matched@,
                kind,
                left.columns@.len() as int,
                right.columns@.len() as int,
            ),
            r.columns@.len() == left.columns@.len() + right.columns@.len(),
            forall|k: int|
                0 <= k < r.columns@.len() ==> #[trigger] r.columns@[k] == widened(
                    (left.columns@ + right.columns@)[k],
                    r.body(),
                    k,
                ),
            r.wf(),
    {
        let nl = left.columns.len();
        let nr = right.columns.len();
        let ghost lb = left.body();
        let ghost rb = right.body();
        let mut rows: Vec<Vec<Option<Cell>>> = Vec::new();
        let mut seen: Vec<bool> = Vec::new();
        let mut j: usize = 0;
        while j < right.rows.len()
            invariant
                j <= right.rows@.len(),
                seen@.len() == j,
                forall|q: int| 0 <= q < j ==> !(#[trigger] seen@[q]),
            decreases right.rows.len() - j,
        {
            seen.push(false);
            j = j + 1;
        }
        let mut i: usize = 0;
        while i < left.rows.len()
            invariant
                left.wf(),
                right.wf(),
                nl == left.columns@.len(),
                nr == right.columns@.len(),
                lb == left.body(),
                rb == right.body(),
                matched@.len() == left.rows@.len(),
                forall|i: int| 0 <= i < matched@.len() ==> (#[trigger] matched@[i])@.len() == right.rows@.len(),
                i <= left.rows@.len(),
                seen@.len() == right.rows@.len(),
                forall|q: int| 0 <= q < right.rows@.len() ==> #[trigger] seen@[q] == right_matched(matched@.take(i as int), q),
                rows_view(rows@) == left_pass(lb.take(i as int), rb, matched@, kind, nr as int),
            decreases left.rows.len() - i,
        {
            let ghost start = rows_view(rows@);
            let ghost l = lb[i as int];
            let ghost mi = matched@[i as int]@;
            let mut any = false;
            let mut j: usize = 0;
            while j < right.rows.len()
                invariant
                    left.wf(),
                    right.wf(),
                    i < left.rows@.len(),
                    nr == right.columns@.len(),
                    lb == left.body(),
                    rb == right.body(),
                    l == lb[i as int],
                    mi == matched@[i as int]@,
                    matched@.len() == left.rows@.len(),
                    forall|i: int| 0 <= i < matched@.len() ==> (#[trigger] matched@[i])@.len() == right.rows@.len(),
                    j <= right.rows@.len(),
                    seen@.len() == right.rows@.len(),
                    forall|q: int|
                        0 <= q < right.rows@.len() ==> #[trigger] seen@[q] == (right_matched(matched@.take(i as int), q)
                            || (q < j && mi[q])),
                    any == any_set(mi.take(j as int)),
                    rows_view(rows@) == start + kept(
                        Seq::new(rb.len(), |q: int| l + rb[q]).take(j as int),
                        mi.take(j as int),
                    ),
                decreases right.rows.len() - j,
            {
                proof {
                    let pairs = Seq::new(rb.len(), |q: int| l + rb[q]);
                    assert(pairs.take(j + 1).drop_last() =~= pairs.take(j as int));
                    assert(mi.take(j + 1).take(j as int) =~= mi.take(j as int));
                }
                if matched[i][j] {
                    let mut row = copy_row(&left.rows[i]);
                    let mut extra = copy_row(&right.rows[j]);
                    row.append(&mut extra);
                    let ghost before = rows@;
                    rows.push(row);
                    proof {
                        assert(rows_view(rows@) =~= rows_view(before).push(l + rb[j as int]));
                        assert(mi.take(j + 1)[j as int]);
                    }
                    let ghost sb = seen@;
                    seen.set(j, true);
                    any = true;
                    proof {
                        assert(mi.take(j + 1)[j as int]);
                    }
                } else {
                    proof {
                        assert(!mi.take(j + 1)[j as int]);
                        assert(mi.take(j + 1) =~= mi.take(j as int).push(false));
                    }
                }
                proof {
                    assert(any == any_set(mi.take(j + 1))) by {
                        if any_set(mi.take(j + 1)) {
                            let w = choose|w: int| 0 <= w < j + 1 && #[trigger] mi.take(j + 1)[w];
                            if w < j {
                                assert(mi.take(j as int)[w]);
                            }
                        }
                        if any_set(mi.take(j as int)) {
                            let w = choose|w: int| 0 <= w < j && #[trigger] mi.take(j as int)[w];
                            assert(mi.take(j + 1)[w]);
                        }
                    }
                }
                j = j + 1;
            }
            proof {
                let pairs = Seq::new(rb.len(), |q: int| l + rb[q]);
                assert(pairs.take(rb.len() as int) =~= pairs);
                assert(mi.take(rb.len() as int) =~= mi);
            }
            if !any && (kind == JoinKind::Left || kind == JoinKind::Full) {
                let mut row = copy_row(&left.rows[i]);
                let mut k: usize = 0;
                while k < nr
                    invariant
                        k <= nr,
                        row@ =~= l + nulls(k as int),
                    decreases nr - k,
                {
                    row.push(None);
                    k = k + 1;
                }
                let ghost before = rows@;
                rows.push(row);
                proof {
                    assert(rows_view(rows@) =~= rows_view(before).push(l + nulls(nr as int)));
                }
            }
            proof {
                assert(lb.take(i + 1).drop_last() =~= lb.take(i as int));
                assert(lb.take(i + 1).last() == l);
                assert(rows_view(rows@) =~= left_pass(lb.take(i + 1), rb, matched@, kind, nr as int));
                assert forall|q: int| 0 <= q < right.rows@.len() implies #[trigger] seen@[q] == right_matched(
                    matched@.take(i + 1),
                    q,
                ) by {
                    if right_matched(matched@.take(i + 1), q) {
                        let w = choose|w: int| 0 <= w < i + 1 && #[trigger] matched@.take(i + 1)[w]@[q];
                        if w < i {
                            assert(matched@.take(i as int)[w]@[q]);
                        }
                    }
                    if right_matched(matched@.take(i as int), q) {
                        let w = choose|w: int| 0 <= w < i && #[trigger] matched@.take(i as int)[w]@[q];
                        assert(matched@.take(i + 1)[w]@[q]);
                    }
                    if mi[q] {
                        assert(matched@.take(i + 1)[i as int]@[q]);
                    }
                }
            }
            i = i + 1;
        }
        proof {
            assert(lb.take(left.rows@.len() as int) =~= lb);
            assert(matched@.take(left.rows@.len() as int) =~= matched@);
        }
        if kind == JoinKind::Right || kind == JoinKind::Full {
            let ghost start = rows_view(rows@);
            let ghost pads = Seq::new(rb.len(), |q: int| nulls(nl as int) + rb[q]);
            let ghost flags = Seq::new(rb.len(), |q: int| !right_matched(matched@, q));
            let mut j: usize = 0;
            while j < right.rows.len()
                invariant
                    right.wf(),
                    rb == right.body(),
                    pads == Seq::new(rb.len(), |q: int| nulls(nl as int) + rb[q]),
                    flags == Seq::new(rb.len(), |q: int| !right_matched(matched@, q)),
                    j <= right.rows@.len(),
                    seen@.len() == right.rows@.len(),
                    forall|q: int| 0 <= q < right.rows@.len() ==> #[trigger] seen@[q] == right_matched(matched@, q),
                    rows_view(rows@) == start + kept(pads.take(j as int), flags.take(j as int)),
                decreases right.rows.len() - j,
            {
                proof {
                    assert(pads.take(j + 1).drop_last() =~= pads.take(j as int));
                    assert(flags.take(j + 1).take(j as int) =~= flags.take(j as int));
                }
                if !seen[j] {
                    let mut row: Vec<Option<Cell>> = Vec::new();
                    let mut k: usize = 0;
                    while k < nl
                        invariant
                            k <= nl,
                            row@ =~= nulls(k as int),
                        decreases nl - k,
                    {
                        row.push(None);
                        k = k + 1;
                    }
                    let mut extra = copy_row(&right.rows[j]);
                    row.append(&mut extra);
                    let ghost before = rows@;
                    rows.push(row);
                    proof {
                        assert(rows_view(rows@) =~= rows_view(before).push(pads[j as int]));
                    }
                }
                j = j + 1;
            }
            proof {
                assert(pads.take(rb.len() as int) =~= pads);
                assert(flags.take(rb.len() as int) =~= flags);
            }
        }
        let ghost body = rows_view(rows@);
        let mut columns = copy_columns(&left.columns);
        let mut extra = copy_columns(&right.columns);
        columns.append(&mut extra);
        let ghost all = columns@;
        let mut out: Vec<TdsColumn> = Vec::new();
        let mut k: usize = 0;
        while k < columns.len()
            invariant
                columns@ == all,
                body == rows_view(rows@),
                k <= all.len(),
                out@.len() == k,
                forall|q: int| 0 <= q < k ==> #[trigger] out@[q] == widened(all[q], body, q),
            decreases columns.len() - k,
        {
            let mut c = crate::tds::copy_column(&columns[k]);
            let mut has_null = false;
            let mut r: usize = 0;
            while r < rows.len()
                invariant
                    body == rows_view(rows@),
                    r <= rows@.len(),
                    has_null == exists|x: int| 0 <= x < r && k < (#[trigger] body[x]).len() && body[x][k as int] is None,
                decreases rows.len() - r,
            {
                if k < rows[r].len() {
                    if rows[r][k].is_none() {
                        has_null = true;
                    }
                }
                proof {
                    assert(body[r as int] == rows@[r as int]@);
                }
                r = r + 1;
            }
            if has_null {
                if let ColumnMultiplicity::PureOne = c.multiplicity {
                    c.multiplicity = ColumnMultiplicity::ZeroOrOne;
                }
            }
            out.push(c);
            k = k + 1;
        }
        let r = Tds { columns: out, rows };
        proof {
            lemma_body_of_wf(*left);
            lemma_body_of_wf(*right);
            lemma_join_widths(lb, rb, matched@, kind, nl as int, nr as int);
            assert(r.body() =~= join_rows(lb, rb, matched@, kind, nl as int, nr as int));
            assert(r.columns@.len() == nl + nr);
            lemma_wf_of_body(r);
        }
        r
    }
}


// ───────────────────────────── groupBy ─────────────────────────────

/// The group columns of a `groupBy` and the groups of rows.
#[derive(Debug)]
pub struct Grouping {
    pub columns: Vec<usize>,
    pub groups: Vec<Group>,
}

/// What `group_rows` promises of a grouping of `rel` by `names`.
pub open spec fn grouping_of(rel: Tds, names: Seq<Seq<char>>, g: Grouping) -> bool {
    &&& g.columns@ == columns_of(rel.columns@, names)
    &&& is_grouping(rel, g.columns@, g.groups@, rel.rows@.len() as int)
}

/// Groups the rows of `rel` by the columns `names`.
fn group_rows(rel: &Tds, names: &Vec<String>) -> (r: Result<Grouping, NativeError>)
    requires
        rel.wf(),
    ensures
        r is Ok <==> all_named(rel.columns@, names_of(names@)),
        r is Ok ==> grouping_of(*rel, names_of(names@), r->Ok_0),
        r is Err ==> (r->Err_0 matches NativeError::MissingColumn(n) && is_missing(
            rel.columns@,
            names_of(names@),
            n@,
        )),
{
    match resolve_names(names, &rel.columns) {
        Ok(columns) => {
            proof {
                assert forall|j: int| 0 <= j < columns@.len() implies (#[trigger] columns@[j]) < rel.columns@.len() by {
                    let ns = names_of(names@);
                    assert(all_named(rel.columns@, ns));
                    assert(crate::window::column_of(rel.columns@, ns[j]) is Some);
                    crate::window::lemma_column_of_valid(rel.columns@, ns[j]);
                }
            }
            let groups = partition_row_indices(rel, &columns);
            Ok(Grouping { columns, groups })
        },
        Err(n) => Err(NativeError::MissingColumn(n)),
    }
}

/// The columns of a grouped relation: the group columns, then one per
/// aggregate.
pub open spec fn grouped_columns(rel: Tds, g: Grouping, aggs: Seq<(String, Vec<Option<Cell>>)>) -> Seq<TdsColumn> {
    Seq::new(g.columns@.len(), |k: int| rel.columns@[g.columns@[k] as int]) + new_columns(aggs)
}

/// The rows of a grouped relation: per group, its key then its
/// aggregate cells.
pub open spec fn grouped_rows(g: Grouping, aggs: Seq<(String, Vec<Option<Cell>>)>) -> Seq<Seq<Option<Cell>>> {
    Seq::new(g.groups@.len(), |k: int| g.groups@[k].key@ + new_cells(aggs, k))
}

/// Every group key has one cell per group column.
pub open spec fn keys_fit_grouping(g: Grouping) -> bool {
    forall|k: int| 0 <= k < g.groups@.len() ==> (#[trigger] g.groups@[k]).key@.len() == g.columns@.len()
}

/// Builds the grouped relation from the aggregate cells (`aggs[a].1[k]`
/// is aggregate `a` of group `k`).
fn grouped_relation(rel: &Tds, g: &Grouping, aggs: Vec<(String, Vec<Option<Cell>>)>) -> (r: Tds)
    requires
        forall|k: int| 0 <= k < g.columns@.len() ==> (#[trigger] g.columns@[k]) < rel.columns@.len(),
        forall|a: int| 0 <= a < aggs@.len() ==> (#[trigger] aggs@[a]).1@.len() == g.groups@.len(),
    ensures
        r.columns@ == grouped_columns(*rel, *g, aggs@),
        r.body() == grouped_rows(*g, aggs@),
        keys_fit_grouping(*g) ==> r.wf(),
{
    let mut columns: Vec<TdsColumn> = Vec::new();
    let mut k: usize = 0;
    while k < g.columns.len()
        invariant
            forall|k: int| 0 <= k < g.columns@.len() ==> (#[trigger] g.columns@[k]) < rel.columns@.len(),
            k <= g.columns@.len(),
            columns@ =~= Seq::new(g.columns@.len(), |k: int| rel.columns@[g.columns@[k] as int]).take(k as int),
        decreases g.columns.len() - k,
    {
        let c = g.columns[k];
        columns.push(crate::tds::copy_column(&rel.columns[c]));
        k = k + 1;
    }
    let mut a: usize = 0;
    while a < aggs.len()
        invariant
            k == g.columns@.len(),
            a <= aggs@.len(),
            columns@ =~= Seq::new(g.columns@.len(), |k: int| rel.columns@[g.columns@[k] as int]) + new_columns(aggs@).take(a as int),
        decreases aggs.len() - a,
    {
        let name = aggs[a].0.clone();
        columns.push(make_column(name, &aggs[a].1));
        a = a + 1;
    }
    assert(new_columns(aggs@).take(aggs@.len() as int) =~= new_columns(aggs@));
    let mut rows: Vec<Vec<Option<Cell>>> = Vec::new();
    let mut i: usize = 0;
    while i < g.groups.len()
        invariant
            forall|a: int| 0 <= a < aggs@.len() ==> (#[trigger] aggs@[a]).1@.len() == g.groups@.len(),
            i <= g.groups@.len(),
            rows_view(rows@) =~= grouped_rows(*g, aggs@).take(i as int),
        decreases g.groups.len() - i,
    {
        let mut row = copy_row(&g.groups[i].key);
        let ghost base = row@;
        let mut a: usize = 0;
        while a < aggs.len()
            invariant
                forall|a: int| 0 <= a < aggs@.len() ==> (#[trigger] aggs@[a]).1@.len() == g.groups@.len(),
                i < g.groups@.len(),
                a <= aggs@.len(),
                row@ =~= base + new_cells(aggs@, i as int).take(a as int),
            decreases aggs.len() - a,
        {
            assert(aggs@[a as int].1@.len() == g.groups@.len());
            row.push(crate::tds::copy_cell(&aggs[a].1[i]));
            a = a + 1;
        }
        let ghost before = rows@;
        rows.push(row);
        proof {
            assert(new_cells(aggs@, i as int).take(aggs@.len() as int) =~= new_cells(aggs@, i as int));
            assert(rows_view(rows@) =~= rows_view(before).push(rows@.last()@));
        }
        i = i + 1;
    }
    let r = Tds { columns, rows };
    proof {
        if keys_fit_grouping(*g) {
            assert forall|i: int| 0 <= i < r.body().len() implies (#[trigger] r.body()[i]).len() == r.columns@.len() by {
                assert(r.body()[i] == g.groups@[i].key@ + new_cells(aggs@, i));
            }
            lemma_wf_of_body(r);
        }
    }
    r
}

/// The argument an aggregate's reduce lambda gets: nothing to reduce
/// (the result is empty, and the lambda is not called) when no value was
/// collected, else the values packed.
pub fn agg_argument<T>(values: Vec<T>) -> (r: Option<Multi<T>>)
    ensures
        values@.len() == 0 <==> r is None,
        r is Some ==> r->0.items() == values@,
        values@.len() == 1 ==> r == Some(Multi::Single(values@[0])),
        values@.len() > 1 ==> r is Some && r->0 is Collection,
{
    if values.len() == 0 {
        None
    } else {
        Some(pack(values))
    }
}

/// `groupBy(rel, ~col, ~agg: map: reduce)`.
#[derive(Debug)]
pub struct GroupByColSpecAgg;

impl GroupByColSpecAgg {
    /// The groups of `rel` by the column `column`.
    pub fn groups(&self, rel: &Tds, column: String) -> (r: Result<Grouping, NativeError>)
        requires
            rel.wf(),
        ensures
            r is Ok <==> all_named(rel.columns@, seq![column@]),
            r is Ok ==> grouping_of(*rel, seq![column@], r->Ok_0),
            r is Err ==> (r->Err_0 matches NativeError::MissingColumn(n) && n@ == column@),
    {
        let names = vec![column];
        proof {
            assert(names_of(names@) =~= seq![names@[0]@]);
        }
        group_rows(rel, &names)
    }

    /// The grouped relation, `cells[k]` being the aggregate of group `k`.
    pub fn finish(&self, rel: &Tds, g: &Grouping, name: String, cells: Vec<Option<Cell>>) -> (r: Tds)
        requires
            forall|k: int| 0 <= k < g.columns@.len() ==> (#[trigger] g.columns@[k]) < rel.columns@.len(),
            cells@.len() == g.groups@.len(),
        ensures
            r.columns@ == grouped_columns(*rel, *g, seq![(name, cells)]),
            r.body() == grouped_rows(*g, seq![(name, cells)]),
            keys_fit_grouping(*g) ==> r.wf(),
    {
        let aggs = vec![(name, cells)];
        assert(aggs@ =~= seq![aggs@[0]]);
        grouped_relation(rel, g, aggs)
    }
}

/// `groupBy(rel, ~[cols], ~agg: map: reduce)`.
#[derive(Debug)]
pub struct GroupByColSpecArrayAgg;

impl GroupByColSpecArrayAgg {
    /// The groups of `rel` by the columns `columns` (at least one).
    pub fn groups(&self, rel: &Tds, columns: &Vec<String>) -> (r: Result<Grouping, NativeError>)
        requires
            rel.wf(),
        ensures
            columns@.len() == 0 ==> r matches Err(NativeError::NoGroupColumns),
            columns@.len() > 0 ==> (r is Ok <==> all_named(rel.columns@, names_of(columns@))),
            r is Ok ==> grouping_of(*rel, names_of(columns@), r->Ok_0),
            columns@.len() > 0 && r is Err ==> (r->Err_0 matches NativeError::MissingColumn(n)
                && is_missing(rel.columns@, names_of(columns@), n@)),
    {
        if columns.len() == 0 {
            return Err(NativeError::NoGroupColumns);
        }
        group_rows(rel, columns)
    }

    /// The grouped relation, `cells[k]` being the aggregate of group `k`.
    pub fn finish(&self, rel: &Tds, g: &Grouping, name: String, cells: Vec<Option<Cell>>) -> (r: Tds)
        requires
            forall|k: int| 0 <= k < g.columns@.len() ==> (#[trigger] g.columns@[k]) < rel.columns@.len(),
            cells@.len() == g.groups@.len(),
        ensures
            r.columns@ == grouped_columns(*rel, *g, seq![(name, cells)]),
            r.body() == grouped_rows(*g, seq![(name, cells)]),
            keys_fit_grouping(*g) ==> r.wf(),
    {
        let aggs = vec![(name, cells)];
        assert(aggs@ =~= seq![aggs@[0]]);
        grouped_relation(rel, g, aggs)
    }
}

/// `groupBy(rel, ~col, ~[agg: map: reduce, ...])`.
#[derive(Debug)]
pub struct GroupByColSpecAggArray;

impl GroupByColSpecAggArray {
    /// The groups of `rel` by the column `column`.
    pub fn groups(&self, rel: &Tds, column: String) -> (r: Result<Grouping, NativeError>)
        requires
            rel.wf(),
        ensures
            r is Ok <==> all_named(rel.columns@, seq![column@]),
            r is Ok ==> grouping_of(*rel, seq![column@], r->Ok_0),
            r is Err ==> (r->Err_0 matches NativeError::MissingColumn(n) && n@ == column@),
    {
        let names = vec![column];
        proof {
            assert(names_of(names@) =~= seq![names@[0]@]);
        }
        group_rows(rel, &names)
    }

    /// The grouped relation, `aggs[a].1[k]` being aggregate `a` of group `k`.
    pub fn finish(&self, rel: &Tds, g: &Grouping, aggs: Vec<(String, Vec<Option<Cell>>)>) -> (r: Tds)
        requires
            forall|k: int| 0 <= k < g.columns@.len() ==> (#[trigger] g.columns@[k]) < rel.columns@.len(),
            forall|a: int| 0 <= a < aggs@.len() ==> (#[trigger] aggs@[a]).1@.len() == g.groups@.len(),
        ensures
            r.columns@ == grouped_columns(*rel, *g, aggs@),
            r.body() == grouped_rows(*g, aggs@),
            keys_fit_grouping(*g) ==> r.wf(),
    {
        grouped_relation(rel, g, aggs)
    }
}

/// `groupBy(rel, ~[cols], ~[agg: map: reduce, ...])`.
#[derive(Debug)]
pub struct GroupByColSpecArrayAggArray;

impl GroupByColSpecArrayAggArray {
    /// The groups of `rel` by the columns `columns` (at least one).
    pub fn groups(&self, rel: &Tds, columns: &Vec<String>) -> (r: Result<Grouping, NativeError>)
        requires
            rel.wf(),
        ensures
            columns@.len() == 0 ==> r matches Err(NativeError::NoGroupColumns),
            columns@.len() > 0 ==> (r is Ok <==> all_named(rel.columns@, names_of(columns@))),
            r is Ok ==> grouping_of(*rel, names_of(columns@), r->Ok_0),
            columns@.len() > 0 && r is Err ==> (r->Err_0 matches NativeError::MissingColumn(n)
                && is_missing(rel.columns@, names_of(columns@), n@)),
    {
        if columns.len() == 0 {
            return Err(NativeError::NoGroupColumns);
        }
        group_rows(rel, columns)
    }

    /// The grouped relation, `aggs[a].1[k]` being aggregate `a` of group `k`.
    pub fn finish(&self, rel: &Tds, g: &Grouping, aggs: Vec<(String, Vec<Option<Cell>>)>) -> (r: Tds)
        requires
            forall|k: int| 0 <= k < g.columns@.len() ==> (#[trigger] g.columns@[k]) < rel.columns@.len(),
            forall|a: int| 0 <= a < aggs@.len() ==> (#[trigger] aggs@[a]).1@.len() == g.groups@.len(),
        ensures
            r.columns@ == grouped_columns(*rel, *g, aggs@),
            r.body() == grouped_rows(*g, aggs@),
            keys_fit_grouping(*g) ==> r.wf(),
    {
        grouped_relation(rel, g, aggs)
    }
}


// ───────────────────────────── ranking ─────────────────────────────

/// The sort columns of `w` in `rel`, or the first sort column it lacks.
fn sort_columns(rel: &Tds, w: &Window) -> (r: Result<Vec<usize>, NativeError>)
    ensures
        r is Ok <==> all_named(rel.columns@, sort_names(*w)),
        r is Ok ==> r->Ok_0@ == columns_of(rel.columns@, sort_names(*w)) && crate::window::indices_fit(
            *rel,
            r->Ok_0@,
        ),
        r is Err ==> (r->Err_0 matches NativeError::MissingColumn(n) && is_missing(
            rel.columns@,
            sort_names(*w),
            n@,
        )),
{
    match resolve_window_sort(w, &rel.columns) {
        Ok(keys) => {
            let cols = crate::window::key_columns(&keys);
            proof {
                assert(cols@ =~= columns_of(rel.columns@, sort_names(*w)));
                assert forall|j: int| 0 <= j < cols@.len() implies (#[trigger] cols@[j]) < rel.columns@.len() by {
                    let ns = sort_names(*w);
                    assert(crate::window::column_of(rel.columns@, ns[j]) is Some);
                    crate::window::lemma_column_of_valid(rel.columns@, ns[j]);
                }
            }
            Ok(cols)
        },
        Err(n) => Err(NativeError::MissingColumn(n)),
    }
}

/// `rowNumber(rel, row)`: the row's 1-based position in its partition.
#[derive(Debug)]
pub struct RowNumber;

impl RowNumber {
    /// `position + 1`, for the window position the row carries.
    pub fn execute(&self, position: Option<usize>) -> (r: Result<i64, NativeError>)
        requires
            position is Some ==> position->0 < i64::MAX,
        ensures
            position is None ==> r matches Err(NativeError::MissingPosition),
            position is Some ==> r == Ok::<i64, NativeError>((position->0 + 1) as i64),
    {
        match position {
            None => Err(NativeError::MissingPosition),
            Some(p) => Ok(p as i64 + 1),
        }
    }
}

/// `rank(rel, w, row)`: SQL `RANK` — one more than the index of the
/// first row of the run of rows whose sort key equals the row's.
#[derive(Debug)]
pub struct Rank;

impl Rank {
    /// `run_start + 1` over the window's sort columns, in the sorted
    /// partition `partition`, for the row at `position`.
    pub fn execute(&self, partition: &Tds, w: &Window, position: Option<usize>) -> (r: Result<i64, NativeError>)
        requires
            partition.wf(),
            partition.rows@.len() < i64::MAX,
            position is Some ==> position->0 < partition.rows@.len(),
        ensures
            position is None ==> r matches Err(NativeError::MissingPosition),
            position is Some && all_named(partition.columns@, sort_names(*w)) ==> r == Ok::<
                i64,
                NativeError,
            >(
                (run_start(*partition, columns_of(partition.columns@, sort_names(*w)), position->0 as int)
                    + 1) as i64,
            ),
            position is Some && !all_named(partition.columns@, sort_names(*w)) ==> (r matches Err(
                NativeError::MissingColumn(n),
            ) && is_missing(partition.columns@, sort_names(*w), n@)),
    {
        let p = match position {
            None => {
                return Err(NativeError::MissingPosition);
            },
            Some(p) => p,
        };
        let cols = sort_columns(partition, w)?;
        let start = start_of_run(partition, &cols, p);
        Ok(start as i64 + 1)
    }
}

/// `denseRank(rel, w, row)`: SQL `DENSE_RANK` — one more than the number
/// of sort-key changes up to the row.
#[derive(Debug)]
pub struct DenseRank;

impl DenseRank {
    /// `1 + key_changes` over the window's sort columns, in the sorted
    /// partition `partition`, for the row at `position`.
    pub fn execute(&self, partition: &Tds, w: &Window, position: Option<usize>) -> (r: Result<i64, NativeError>)
        requires
            partition.wf(),
            partition.rows@.len() < i64::MAX,
            position is Some ==> position->0 < partition.rows@.len(),
        ensures
            position is None ==> r matches Err(NativeError::MissingPosition),
            position is Some && all_named(partition.columns@, sort_names(*w)) ==> r == Ok::<
                i64,
                NativeError,
            >(
                (1 + key_changes(*partition, columns_of(partition.columns@, sort_names(*w)), position->0 as int))
                    as i64,
            ),
            position is Some && !all_named(partition.columns@, sort_names(*w)) ==> (r matches Err(
                NativeError::MissingColumn(n),
            ) && is_missing(partition.columns@, sort_names(*w), n@)),
    {
        let p = match position {
            None => {
                return Err(NativeError::MissingPosition);
            },
            Some(p) => p,
        };
        let cols = sort_columns(partition, w)?;
        Ok(dense_rank_at(partition, &cols, p))
    }
}

/// `percentRank(rel, w, row)`: `run_start / (size - 1)`, or 0 in a
/// partition of one row; the division is left to the caller.
#[derive(Debug)]
pub struct PercentRank;

impl PercentRank {
    /// The ratio whose value is the percent rank of the row at
    /// `position` in the sorted partition `partition`.
    pub fn execute(&self, partition: &Tds, w: &Window, position: Option<usize>) -> (r: Result<Ratio, NativeError>)
        requires
            partition.wf(),
            position is Some ==> position->0 < partition.rows@.len(),
        ensures
            position is None ==> r matches Err(NativeError::MissingPosition),
            position is Some && all_named(partition.columns@, sort_names(*w)) ==> r == Ok::<Ratio, NativeError>(
                if partition.rows@.len() == 1 {
                    Ratio { numerator: 0, denominator: 1 }
                } else {
                    Ratio {
                        numerator: run_start(
                            *partition,
                            columns_of(partition.columns@, sort_names(*w)),
                            position->0 as int,
                        ) as u64,
                        denominator: (partition.rows@.len() - 1) as u64,
                    }
                },
            ),
            position is Some && !all_named(partition.columns@, sort_names(*w)) ==> (r matches Err(
                NativeError::MissingColumn(n),
            ) && is_missing(partition.columns@, sort_names(*w), n@)),
    {
        let p = match position {
            None => {
                return Err(NativeError::MissingPosition);
            },
            Some(p) => p,
        };
        let cols = sort_columns(partition, w)?;
        let size = partition.rows.len();
        if size == 1 {
            Ok(Ratio { numerator: 0, denominator: 1 })
        } else {
            let start = start_of_run(partition, &cols, p);
            Ok(Ratio { numerator: start as u64, denominator: (size - 1) as u64 })
        }
    }
}

/// `cumulativeDistribution(rel, w, row)`: `(run_start + 1) / size`; the
/// division is left to the caller.
#[derive(Debug)]
pub struct CumulativeDistribution;

impl CumulativeDistribution {
    /// The ratio whose value is the cumulative distribution of the row at
    /// `position` in the sorted partition `partition`.
    pub fn execute(&self, partition: &Tds, w: &Window, position: Option<usize>) -> (r: Result<Ratio, NativeError>)
        requires
            partition.wf(),
            position is Some ==> position->0 < partition.rows@.len(),
        ensures
            position is None ==> r matches Err(NativeError::MissingPosition),
            position is Some && all_named(partition.columns@, sort_names(*w)) ==> r == Ok::<Ratio, NativeError>(
                Ratio {
                    numerator: (run_start(
                        *partition,
                        columns_of(partition.columns@, sort_names(*w)),
                        position->0 as int,
                    ) + 1) as u64,
                    denominator: partition.rows@.len() as u64,
                },
            ),
            position is Some && !all_named(partition.columns@, sort_names(*w)) ==> (r matches Err(
                NativeError::MissingColumn(n),
            ) && is_missing(partition.columns@, sort_names(*w), n@)),
    {
        let p = match position {
            None => {
                return Err(NativeError::MissingPosition);
            },
            Some(p) => p,
        };
        let cols = sort_columns(partition, w)?;
        let start = start_of_run(partition, &cols, p);
        let n = partition.rows.len();
        assert(start < n);
        let next = start + 1;
        Ok(Ratio { numerator: next as u64, denominator: n as u64 })
    }
}

/// The tile of the row at `position` among `size` rows split into
/// `tiles`: `position * tiles / size + 1` (division toward zero), 1 for
/// an empty partition.
pub open spec fn tile_of(position: int, tiles: int, size: int) -> int {
    if size == 0 {
        1
    } else {
        trunc_div(position * tiles, size) + 1
    }
}

/// `ntile(rel, row, tileCount)`.
#[derive(Debug)]
pub struct Ntile;

impl Ntile {
    /// `tile_of(position, tiles, size)`.
    pub fn execute(&self, partition: &Tds, position: Option<usize>, tiles: i64) -> (r: Result<i64, NativeError>)
        requires
            position is Some ==> i64::MIN <= position->0 * tiles <= i64::MAX,
            position is Some ==> tile_of(position->0 as int, tiles as int, partition.rows@.len() as int)
                <= i64::MAX,
            partition.rows@.len() <= i64::MAX,
        ensures
            position is None ==> r matches Err(NativeError::MissingPosition),
            position is Some ==> r == Ok::<i64, NativeError>(
                tile_of(position->0 as int, tiles as int, partition.rows@.len() as int) as i64,
            ),
    {
        let p = match position {
            None => {
                return Err(NativeError::MissingPosition);
            },
            Some(p) => p,
        };
        let size = partition.rows.len();
        if size == 0 {
            return Ok(1);
        }
        let prod: i128 = p as i128 * tiles as i128;
        let mag: u128 = if prod >= 0 {
            prod as u128
        } else {
            (-prod) as u128
        };
        let q = mag / (size as u128);
        proof {
            assert(q <= mag) by (nonlinear_arith)
                requires
                    q == mag / (size as u128),
                    size >= 1,
            ;
        }
        let t: i128 = if prod >= 0 {
            q as i128
        } else {
            -(q as i128)
        };
        assert(t == trunc_div(p as int * tiles as int, size as int));
        Ok((t + 1) as i64)
    }
}

// ───────────────────────────── offset / first / last / nth ─────────────────────────────

/// The row at index `idx` of a partition of `n` rows, if there is one.
pub open spec fn row_at(idx: int, n: int) -> Option<usize> {
    if 0 <= idx < n {
        Some(idx as usize)
    } else {
        None
    }
}

/// `offset(w, r, offset)` (behind `lag` and `lead`): the row `offset`
/// places after the current one.
#[derive(Debug)]
pub struct Offset;

impl Offset {
    /// The index of the row at `position + offset` in the partition, if
    /// it exists.
    pub fn execute(&self, partition: &Tds, position: Option<usize>, offset: i64) -> (r: Result<Option<usize>, NativeError>)
        requires
            position is Some ==> position->0 <= i64::MAX && i64::MIN <= position->0 + offset <= i64::MAX,
        ensures
            position is None ==> r matches Err(NativeError::MissingPosition),
            position is Some ==> r == Ok::<Option<usize>, NativeError>(
                row_at(position->0 + offset, partition.rows@.len() as int),
            ),
    {
        let p = match position {
            None => {
                return Err(NativeError::MissingPosition);
            },
            Some(p) => p,
        };
        let target: i64 = p as i64 + offset;
        if target < 0 || target as u64 >= partition.rows.len() as u64 {
            Ok(None)
        } else {
            Ok(Some(target as usize))
        }
    }
}

/// The frame a slice-family native uses: the window's own, or the
/// running frame when it sorts without one.
pub open spec fn window_frame(w: Window) -> Option<Frame> {
    match w.frame {
        Some(f) => Some(f),
        None => if w.sort@.len() > 0 {
            Some(
                Frame {
                    kind: FrameKind::Rows,
                    from: crate::window::FrameOffset::Unbounded,
                    to: crate::window::FrameOffset::Int(0),
                },
            )
        } else {
            None
        },
    }
}

fn copy_frame(f: &Option<Frame>) -> (r: Option<Frame>)
    ensures
        r == *f,
{
    match f {
        None => None,
        Some(fr) => {
            let from = copy_offset(&fr.from);
            let to = copy_offset(&fr.to);
            Some(Frame { kind: fr.kind, from, to })
        },
    }
}

fn copy_offset(o: &crate::window::FrameOffset) -> (r: crate::window::FrameOffset)
    ensures
        r == *o,
{
    match o {
        crate::window::FrameOffset::Unbounded => crate::window::FrameOffset::Unbounded,
        crate::window::FrameOffset::Int(d) => crate::window::FrameOffset::Int(*d),
        crate::window::FrameOffset::Numeric(x) => crate::window::FrameOffset::Numeric(
            crate::tds::FloatCell { bits: x.bits, text: x.text.clone() },
        ),
    }
}

fn frame_of_window(w: &Window) -> (r: Option<Frame>)
    ensures
        r == window_frame(*w),
{
    let f = copy_frame(&w.frame);
    let r = effective_frame(f, w.sort.len() > 0);
    proof {
        if w.frame is None && w.sort@.len() > 0 {
            assert(r->0.to == crate::window::FrameOffset::Int(0));
        }
    }
    r
}

/// `first(w, f, r)`: the row at the low end of the current row's frame.
#[derive(Debug)]
pub struct First;

impl First {
    /// The index of the row at `low_of(window_frame(w), position)`, if
    /// it exists.
    pub fn execute(&self, partition: &Tds, w: &Window, position: Option<usize>) -> (r: Result<Option<usize>, NativeError>)
        requires
            position is Some ==> position->0 <= i64::MAX && frame_fits(w.frame, position->0 as int)
                && low_of(window_frame(*w), position->0 as int) <= usize::MAX,
        ensures
            position is None ==> r matches Err(NativeError::MissingPosition),
            position is Some ==> r == Ok::<Option<usize>, NativeError>(
                row_at(low_of(window_frame(*w), position->0 as int), partition.rows@.len() as int),
            ),
    {
        let p = match position {
            None => {
                return Err(NativeError::MissingPosition);
            },
            Some(p) => p,
        };
        let frame = frame_of_window(w);
        let low = frame_low(&frame, p);
        if low < partition.rows.len() {
            Ok(Some(low))
        } else {
            Ok(None)
        }
    }
}

/// `last(w, f, r)`: the row at the high end of the current row's frame.
#[derive(Debug)]
pub struct Last;

impl Last {
    /// The index of the row at `high_of(window_frame(w), position, size)`,
    /// if it exists.
    pub fn execute(&self, partition: &Tds, w: &Window, position: Option<usize>) -> (r: Result<Option<usize>, NativeError>)
        requires
            partition.rows@.len() <= i64::MAX,
            position is Some ==> position->0 <= i64::MAX && frame_fits(w.frame, position->0 as int),
        ensures
            position is None ==> r matches Err(NativeError::MissingPosition),
            position is Some ==> r == Ok::<Option<usize>, NativeError>(
                row_at(
                    high_of(window_frame(*w), position->0 as int, partition.rows@.len() as int),
                    partition.rows@.len() as int,
                ),
            ),
    {
        let p = match position {
            None => {
                return Err(NativeError::MissingPosition);
            },
            Some(p) => p,
        };
        let frame = frame_of_window(w);
        let high = frame_high(&frame, p, partition.rows.len());
        if high < partition.rows.len() {
            Ok(Some(high))
        } else {
            Ok(None)
        }
    }
}

/// The row `nth` picks: the `nth` (1-based) row from the frame's low
/// end, none past its high end.
pub open spec fn nth_row(low: int, high: int, nth: int, n: int) -> Option<usize> {
    if low + nth - 1 > high {
        None
    } else {
        row_at(low + nth - 1, n)
    }
}

/// `nth(w, f, r, offset)`.
#[derive(Debug)]
pub struct Nth;

impl Nth {
    /// The index of the `nth` row of the current row's frame, if the
    /// frame and the partition have it.
    pub fn execute(&self, partition: &Tds, w: &Window, position: Option<usize>, nth: i64) -> (r: Result<Option<usize>, NativeError>)
        requires
            partition.rows@.len() <= i64::MAX,
            position is Some ==> position->0 <= i64::MAX && frame_fits(w.frame, position->0 as int)
                && low_of(window_frame(*w), position->0 as int) <= usize::MAX && i64::MIN <= low_of(
                window_frame(*w),
                position->0 as int,
            ) + nth - 1 <= i64::MAX,
        ensures
            position is None ==> r matches Err(NativeError::MissingPosition),
            position is Some ==> r == Ok::<Option<usize>, NativeError>(
                nth_row(
                    low_of(window_frame(*w), position->0 as int),
                    high_of(window_frame(*w), position->0 as int, partition.rows@.len() as int),
                    nth as int,
                    partition.rows@.len() as int,
                ),
            ),
    {
        let p = match position {
            None => {
                return Err(NativeError::MissingPosition);
            },
            Some(p) => p,
        };
        let n = partition.rows.len();
        let frame = frame_of_window(w);
        let low = frame_low(&frame, p);
        let high = frame_high(&frame, p, n);
        assert(low <= i64::MAX);
        let target: i64 = (low as i64 - 1) + nth;
        if target > high as i64 {
            return Ok(None);
        }
        if target < 0 || target as u64 >= n as u64 {
            Ok(None)
        } else {
            Ok(Some(target as usize))
        }
    }
}


// ───────────────────────────── windowed extend / reduce ─────────────────────────────

/// The partition and sort columns of a window are all in `rel`.
pub open spec fn window_resolves(rel: Tds, w: Window) -> bool {
    all_named(rel.columns@, names_of(w.partition@)) && all_named(rel.columns@, sort_names(w))
}

/// Splits `rel` by the window `w`: partition columns first, then sort
/// keys, each resolved by name.
fn window_plan(rel: &Tds, w: &Window) -> (r: Result<WindowPlan, NativeError>)
    requires
        rel.wf(),
    ensures
        r is Ok <==> window_resolves(*rel, *w),
        r is Ok ==> plan_of(
            *rel,
            columns_of(rel.columns@, names_of(w.partition@)),
            sort_keys_of(rel.columns@, *w),
            r->Ok_0,
        ),
        !all_named(rel.columns@, names_of(w.partition@)) ==> (r matches Err(NativeError::MissingColumn(n))
            && is_missing(rel.columns@, names_of(w.partition@), n@)),
        all_named(rel.columns@, names_of(w.partition@)) && !all_named(rel.columns@, sort_names(*w)) ==> (
        r matches Err(NativeError::MissingColumn(n)) && is_missing(rel.columns@, sort_names(*w), n@)),
{
    let part = match resolve_names(&w.partition, &rel.columns) {
        Ok(p) => p,
        Err(n) => {
            return Err(NativeError::MissingColumn(n));
        },
    };
    let keys = match resolve_window_sort(w, &rel.columns) {
        Ok(k) => k,
        Err(n) => {
            return Err(NativeError::MissingColumn(n));
        },
    };
    proof {
        let ns = names_of(w.partition@);
        assert forall|j: int| 0 <= j < part@.len() implies (#[trigger] part@[j]) < rel.columns@.len() by {
            assert(crate::window::column_of(rel.columns@, ns[j]) is Some);
            crate::window::lemma_column_of_valid(rel.columns@, ns[j]);
        }
        let ss = sort_names(*w);
        assert forall|k: int| 0 <= k < keys@.len() implies (#[trigger] keys@[k]).0 < rel.columns@.len() by {
            assert(crate::window::column_of(rel.columns@, ss[k]) is Some);
            crate::window::lemma_column_of_valid(rel.columns@, ss[k]);
        }
    }
    Ok(plan_window(rel, &part, &keys))
}

/// The in-frame rows of every source row: its frame within its sorted
/// partition.
pub open spec fn frames_of(p: WindowPlan, frame: Option<Frame>) -> Seq<Seq<usize>> {
    Seq::new(
        p.place@.len(),
        |s: int| frame_rows(p.sorted@[p.place@[s].0 as int]@, p.place@[s].1 as int, frame),
    )
}

/// Whether every row's position in its partition fits the frame's
/// arithmetic.
pub open spec fn plan_fits(p: WindowPlan, frame: Option<Frame>) -> bool {
    forall|s: int|
        0 <= s < p.place@.len() ==> {
            let pl = #[trigger] p.place@[s];
            &&& pl.0 < p.sorted@.len()
            &&& pl.1 < p.sorted@[pl.0 as int]@.len()
            &&& pl.1 <= i64::MAX
            &&& frame_fits(frame, pl.1 as int)
        }
}

/// The map results of the rows of `frame` (`mapped[k]` for source row
/// `k`), flattened in frame order.
pub open spec fn frame_values<T>(frame: Seq<usize>, mapped: Seq<Multi<T>>) -> Seq<T> {
    flattened(Seq::new(frame.len(), |j: int| mapped[frame[j] as int]))
}

/// `r` is what a reduce lambda is called with for the values `vals`:
/// nothing when there are none (no call), else the values packed.
pub open spec fn is_reduce_argument<T>(vals: Seq<T>, r: Option<Multi<T>>) -> bool {
    &&& (vals.len() == 0 <==> r is None)
    &&& (r is Some ==> r->0.items() == vals)
    &&& (vals.len() == 1 ==> r == Some(Multi::Single(vals[0])))
    &&& (vals.len() > 1 ==> r is Some && r->0 is Collection)
}

/// Appends copies of the values `m` holds.
fn push_copies<T: Copy>(out: &mut Vec<T>, m: &Multi<T>)
    ensures
        final(out)@ == old(out)@ + m.items(),
{
    match m {
        Multi::Unit => {
            assert(old(out)@ + Seq::<T>::empty() =~= old(out)@);
        },
        Multi::Single(x) => {
            out.push(*x);
            assert(final(out)@ =~= old(out)@ + seq![*x]);
        },
        Multi::Collection(items) => {
            let ghost start = out@;
            let mut i: usize = 0;
            while i < items.len()
                invariant
                    i <= items@.len(),
                    out@ == start + items@.take(i as int),
                decreases items.len() - i,
            {
                out.push(items[i]);
                proof {
                    assert(items@.take(i + 1) =~= items@.take(i as int).push(items@[i as int]));
                }
                i = i + 1;
            }
            assert(items@.take(items@.len() as int) =~= items@);
        },
    }
}

/// `extend(rel, window, ~name: map: reduce)`: an aggregate over each
/// row's frame.
#[derive(Debug)]
pub struct ExtendWindowAggColSpec;

impl ExtendWindowAggColSpec {
    /// The window's split of `rel`.
    pub fn plan(&self, rel: &Tds, w: &Window) -> (r: Result<WindowPlan, NativeError>)
        requires
            rel.wf(),
        ensures
            r is Ok <==> window_resolves(*rel, *w),
            r is Ok ==> plan_of(
                *rel,
                columns_of(rel.columns@, names_of(w.partition@)),
                sort_keys_of(rel.columns@, *w),
                r->Ok_0,
            ),
            !all_named(rel.columns@, names_of(w.partition@)) ==> (r matches Err(
                NativeError::MissingColumn(n),
            ) && is_missing(rel.columns@, names_of(w.partition@), n@)),
            all_named(rel.columns@, names_of(w.partition@)) && !all_named(rel.columns@, sort_names(*w))
                ==> (r matches Err(NativeError::MissingColumn(n)) && is_missing(
                rel.columns@,
                sort_names(*w),
                n@,
            )),
    {
        window_plan(rel, w)
    }

    /// For each source row, the source rows of its frame within its
    /// sorted partition, for the window `w`: its own frame, else with a
    /// sort order the rows from the partition's start to the current one,
    /// else the whole partition; the reduce lambda sees their mapped
    /// values.
    pub fn window_frames(&self, p: &WindowPlan, w: &Window) -> (r: Vec<Vec<usize>>)
        requires
            plan_fits(*p, window_frame(*w)),
        ensures
            r@.len() == p.place@.len(),
            forall|s: int| 0 <= s < r@.len() ==> (#[trigger] r@[s])@ == frames_of(*p, window_frame(*w))[s],
    {
        let frame = frame_of_window(w);
        self.frames(p, &frame)
    }

    /// For each source row, the source rows of the frame `frame` (already
    /// resolved: `None` is the whole partition) around it, in sort order.
    pub fn frames(&self, p: &WindowPlan, frame: &Option<Frame>) -> (r: Vec<Vec<usize>>)
        requires
            plan_fits(*p, *frame),
        ensures
            r@.len() == p.place@.len(),
            forall|s: int| 0 <= s < r@.len() ==> (#[trigger] r@[s])@ == frames_of(*p, *frame)[s],
    {
        let mut out: Vec<Vec<usize>> = Vec::new();
        let mut s: usize = 0;
        while s < p.place.len()
            invariant
                plan_fits(*p, *frame),
                s <= p.place@.len(),
                out@.len() == s,
                forall|q: int| 0 <= q < s ==> (#[trigger] out@[q])@ == frames_of(*p, *frame)[q],
            decreases p.place.len() - s,
        {
            let (g, pos) = p.place[s];
            proof {
                assert(p.place@[s as int] == (g, pos));
            }
            let rows = frame_row_indices(&p.sorted[g], pos, frame);
            out.push(rows);
            s = s + 1;
        }
        out
    }

    /// For each source row, what the reduce lambda is called with: the map
    /// lambda's results (`mapped[k]` for source row `k`) over the row's
    /// frame (`frames[s]`, from `window_frames`), flattened in frame
    /// order; `None` where that is empty, so that the row's cell is empty
    /// and the reduce lambda is not called for it.
    pub fn reduce_arguments<T: Copy>(&self, frames: &Vec<Vec<usize>>, mapped: &Vec<Multi<T>>) -> (r: Vec<
        Option<Multi<T>>,
    >)
        requires
            forall|s: int, k: int|
                0 <= s < frames@.len() && 0 <= k < frames@[s]@.len() ==> (#[trigger] frames@[s]@[k]) < mapped@.len(),
        ensures
            r@.len() == frames@.len(),
            forall|s: int|
                0 <= s < frames@.len() ==> is_reduce_argument(frame_values(frames@[s]@, mapped@), #[trigger] r@[s]),
    {
        let mut out: Vec<Option<Multi<T>>> = Vec::new();
        let mut s: usize = 0;
        while s < frames.len()
            invariant
                forall|s: int, k: int|
                    0 <= s < frames@.len() && 0 <= k < frames@[s]@.len() ==> (#[trigger] frames@[s]@[k]) < mapped@.len(),
                s <= frames@.len(),
                out@.len() == s,
                forall|q: int| 0 <= q < s ==> is_reduce_argument(frame_values(frames@[q]@, mapped@), #[trigger] out@[q]),
            decreases frames.len() - s,
        {
            let frame = &frames[s];
            let mut vals: Vec<T> = Vec::new();
            let mut k: usize = 0;
            while k < frame.len()
                invariant
                    frame@ == frames@[s as int]@,
                    forall|k: int| 0 <= k < frame@.len() ==> (#[trigger] frame@[k]) < mapped@.len(),
                    k <= frame@.len(),
                    vals@ == frame_values(frame@.take(k as int), mapped@),
                decreases frame.len() - k,
            {
                proof {
                    assert(frame@[k as int] < mapped@.len());
                    let a = Seq::new((k + 1) as nat, |j: int| mapped@[frame@.take(k + 1)[j] as int]);
                    let b = Seq::new(k as nat, |j: int| mapped@[frame@.take(k as int)[j] as int]);
                    assert(a.drop_last() =~= b);
                }
                push_copies(&mut vals, &mapped[frame[k]]);
                k = k + 1;
            }
            assert(frame@.take(frame@.len() as int) =~= frame@);
            out.push(agg_argument(vals));
            s = s + 1;
        }
        out
    }

    /// `rel` with the aggregate column appended (`cells[s]` for row `s`).
    pub fn finish(&self, rel: &Tds, name: String, cells: Vec<Option<Cell>>) -> (r: Tds)
        requires
            cells@.len() == rel.rows@.len(),
        ensures
            r.columns@ == rel.columns@.push(new_column(name, cells@)),
            r.body() == appended(rel.body(), |i: int| seq![cells@[i]]),
    {
        ExtendFuncColSpec.execute(rel, name, cells)
    }
}

/// `extend(rel, window, ~name: {p, w, r | ...})`: a column computed from
/// each row with its sorted partition and position.
#[derive(Debug)]
pub struct ExtendWindowFuncColSpec;

impl ExtendWindowFuncColSpec {
    /// The window's split of `rel`.
    pub fn plan(&self, rel: &Tds, w: &Window) -> (r: Result<WindowPlan, NativeError>)
        requires
            rel.wf(),
        ensures
            r is Ok <==> window_resolves(*rel, *w),
            r is Ok ==> plan_of(
                *rel,
                columns_of(rel.columns@, names_of(w.partition@)),
                sort_keys_of(rel.columns@, *w),
                r->Ok_0,
            ),
            !all_named(rel.columns@, names_of(w.partition@)) ==> (r matches Err(
                NativeError::MissingColumn(n),
            ) && is_missing(rel.columns@, names_of(w.partition@), n@)),
            all_named(rel.columns@, names_of(w.partition@)) && !all_named(rel.columns@, sort_names(*w))
                ==> (r matches Err(NativeError::MissingColumn(n)) && is_missing(
                rel.columns@,
                sort_names(*w),
                n@,
            )),
    {
        window_plan(rel, w)
    }

    /// The partition relation the lambda sees: `rel`'s columns, and its
    /// rows in the order `sorted` lists them.
    pub fn partition_relation(&self, rel: &Tds, sorted: &Vec<usize>) -> (r: Tds)
        requires
            forall|j: int| 0 <= j < sorted@.len() ==> (#[trigger] sorted@[j]) < rel.rows@.len(),
        ensures
            r.columns@ == rel.columns@,
            r.body() == Seq::new(sorted@.len(), |j: int| rel.body()[sorted@[j] as int]),
            rel.wf() ==> r.wf(),
    {
        let mut rows: Vec<Vec<Option<Cell>>> = Vec::new();
        let mut j: usize = 0;
        while j < sorted.len()
            invariant
                forall|j: int| 0 <= j < sorted@.len() ==> (#[trigger] sorted@[j]) < rel.rows@.len(),
                j <= sorted@.len(),
                rows_view(rows@) =~= Seq::new(sorted@.len(), |j: int| rel.body()[sorted@[j] as int]).take(j as int),
            decreases sorted.len() - j,
        {
            let src = sorted[j];
            let ghost before = rows@;
            rows.push(copy_row(&rel.rows[src]));
            proof {
                assert(rows_view(rows@) =~= rows_view(before).push(rows@.last()@));
            }
            j = j + 1;
        }
        let r = Tds { columns: copy_columns(&rel.columns), rows };
        proof {
            if rel.wf() {
                lemma_body_of_wf(*rel);
                lemma_wf_of_body(r);
            }
        }
        r
    }

    /// `rel` with the new column appended (`cells[s]` for source row `s`).
    pub fn finish(&self, rel: &Tds, name: String, cells: Vec<Option<Cell>>) -> (r: Tds)
        requires
            cells@.len() == rel.rows@.len(),
        ensures
            r.columns@ == rel.columns@.push(new_column(name, cells@)),
            r.body() == appended(rel.body(), |i: int| seq![cells@[i]]),
    {
        ExtendFuncColSpec.execute(rel, name, cells)
    }
}

/// The rows a frame selects, or, for a range frame over values, what
/// the caller needs to select them: the partition, the row's position
/// and the first sort key.
#[derive(Debug)]
pub enum FrameSelection {
    Rows(Vec<usize>),
    ByValue { partition: Vec<usize>, position: usize, key: Option<(usize, SortDir)> },
}

/// The selection `reduce` makes for the row at `pos` of the sorted
/// partition `part`: the whole partition without a frame or for an
/// interval range, the frame's rows for a rows frame, and a value range
/// (left to the caller) for a numeric range.
pub open spec fn selection_is(
    sel: FrameSelection,
    part: Seq<usize>,
    pos: int,
    frame: Option<Frame>,
    keys: Seq<(usize, SortDir)>,
) -> bool {
    match frame {
        None => sel matches FrameSelection::Rows(v) && v@ == part,
        Some(f) => if f.kind == FrameKind::Rows {
            sel matches FrameSelection::Rows(v) && v@ == frame_rows(part, pos, frame)
        } else if f.kind == FrameKind::Range {
            sel matches FrameSelection::ByValue { partition, position, key } && partition@ == part
                && position == pos && key == (if keys.len() > 0 {
                Some(keys[0])
            } else {
                None
            })
        } else {
            sel matches FrameSelection::Rows(v) && v@ == part
        },
    }
}

/// `reduce(rel, w, row, map, agg)`: an aggregate over the row's frame.
#[derive(Debug)]
pub struct Reduce;

impl Reduce {
    /// Finds the row among `rel`'s rows (by its slots) when it carries no
    /// window position: splits `rel` by the window and returns the split
    /// with the row's source index. Sort columns are resolved first,
    /// then partition columns.
    pub fn locate(&self, rel: &Tds, w: &Window, slots: &Vec<Option<Cell>>) -> (r: Result<(WindowPlan, usize), NativeError>)
        requires
            rel.wf(),
        ensures
            !all_named(rel.columns@, sort_names(*w)) ==> (r matches Err(NativeError::MissingColumn(n))
                && is_missing(rel.columns@, sort_names(*w), n@)),
            all_named(rel.columns@, sort_names(*w)) && !all_named(rel.columns@, names_of(w.partition@))
                ==> (r matches Err(NativeError::MissingColumn(n)) && is_missing(
                rel.columns@,
                names_of(w.partition@),
                n@,
            )),
            window_resolves(*rel, *w) ==> match crate::window::first_match(rel.body(), slots@, 0) {
                None => r matches Err(NativeError::RowNotFound),
                Some(s) => r is Ok && r->Ok_0.1 == s && plan_of(
                    *rel,
                    columns_of(rel.columns@, names_of(w.partition@)),
                    sort_keys_of(rel.columns@, *w),
                    r->Ok_0.0,
                ),
            },
    {
        match resolve_window_sort(w, &rel.columns) {
            Ok(_) => {},
            Err(n) => {
                return Err(NativeError::MissingColumn(n));
            },
        }
        match resolve_names(&w.partition, &rel.columns) {
            Ok(_) => {},
            Err(n) => {
                return Err(NativeError::MissingColumn(n));
            },
        }
        let plan = window_plan(rel, w)?;
        match crate::window::row_tuple_to_source_index(rel, slots) {
            Some(s) => Ok((plan, s)),
            None => Err(NativeError::RowNotFound),
        }
    }

    /// The rows of the frame of the row at `position` in the sorted
    /// partition `partition`, under the window's frame (the running
    /// frame when it sorts without one).
    pub fn frame(&self, rel: &Tds, w: &Window, partition: &Vec<usize>, position: usize) -> (r: Result<FrameSelection, NativeError>)
        requires
            position < partition@.len(),
            position <= i64::MAX,
            frame_fits(w.frame, position as int),
        ensures
            r is Ok <==> all_named(rel.columns@, sort_names(*w)),
            r is Ok ==> selection_is(
                r->Ok_0,
                partition@,
                position as int,
                window_frame(*w),
                sort_keys_of(rel.columns@, *w),
            ),
            r is Err ==> (r->Err_0 matches NativeError::MissingColumn(n) && is_missing(
                rel.columns@,
                sort_names(*w),
                n@,
            )),
    {
        let keys = match resolve_window_sort(w, &rel.columns) {
            Ok(k) => k,
            Err(n) => {
                return Err(NativeError::MissingColumn(n));
            },
        };
        let frame = frame_of_window(w);
        assert(partition@.subrange(0, partition@.len() as int) =~= partition@);
        match &frame {
            None => Ok(FrameSelection::Rows(crate::window::copy_indices(partition, 0, partition.len()))),
            Some(f) => {
                if f.kind == FrameKind::Rows {
                    Ok(FrameSelection::Rows(frame_row_indices(partition, position, &frame)))
                } else if f.kind == FrameKind::Range {
                    let key = if keys.len() > 0 {
                        Some(keys[0])
                    } else {
                        None
                    };
                    Ok(
                        FrameSelection::ByValue {
                            partition: crate::window::copy_indices(partition, 0, partition.len()),
                            position,
                            key,
                        },
                    )
                } else {
                    Ok(FrameSelection::Rows(crate::window::copy_indices(partition, 0, partition.len())))
                }
            },
        }
    }
}

// ───────────────────────────── registration ─────────────────────────────

/// Native implementations by mangled function name.
#[derive(Debug)]
pub struct NativeRegistry {
    pub entries: Vec<(String, String)>,
}

/// The names in a list of registrations.
pub open spec fn registrations(v: Seq<(String, String)>) -> Seq<(Seq<char>, Seq<char>)> {
    Seq::new(v.len(), |k: int| (v[k].0@, v[k].1@))
}

impl NativeRegistry {
    /// An empty registry.
    pub fn new() -> (r: NativeRegistry)
        ensures
            r.entries@.len() == 0,
    {
        NativeRegistry { entries: Vec::new() }
    }

    /// Records `native` as the implementation of `name`.
    pub fn register(&mut self, name: &str, native: &str)
        ensures
            registrations(final(self).entries@) == registrations(old(self).entries@).push((name@, native@)),
    {
        self.entries.push((name.to_string(), native.to_string()));
        proof {
            assert(registrations(self.entries@) =~= registrations(old(self).entries@).push((name@, native@)));
        }
    }
}

/// The natives the relation extension registers, by mangled name.
pub open spec fn relation_natives() -> Seq<(Seq<char>, Seq<char>)> {
    seq![
        ("size_Relation_1__Integer_1_"@, "Size"@),
        ("distinct_Relation_1__Relation_1_"@, "Distinct"@),
        ("distinct_Relation_1__ColSpecArray_1__Relation_1_"@, "DistinctColSpecArray"@),
        ("map_Relation_1__Function_1__V_MANY_"@, "MapRelation"@),
        ("concatenate_Relation_1__Relation_1__Relation_1_"@, "Concatenate"@),
        ("filter_Relation_1__Function_1__Relation_1_"@, "Filter"@),
        ("extend_Relation_1__FuncColSpec_1__Relation_1_"@, "ExtendFuncColSpec"@),
        ("extend_Relation_1__FuncColSpecArray_1__Relation_1_"@, "ExtendFuncColSpecArray"@),
        ("limit_Relation_1__Integer_1__Relation_1_"@, "Limit"@),
        ("drop_Relation_1__Integer_1__Relation_1_"@, "Drop"@),
        ("rename_Relation_1__ColSpec_1__ColSpec_1__Relation_1_"@, "Rename"@),
        ("select_Relation_1__Relation_1_"@, "SelectAll"@),
        ("select_Relation_1__ColSpec_1__Relation_1_"@, "SelectColSpec"@),
        ("select_Relation_1__ColSpecArray_1__Relation_1_"@, "SelectColSpecArray"@),
        ("columns_Relation_1__Column_MANY_"@, "Columns"@),
        ("sort_Relation_1__SortInfo_MANY__Relation_1_"@, "Sort"@),
        ("ascending_ColSpec_1__SortInfo_1_"@, "Ascending"@),
        ("descending_ColSpec_1__SortInfo_1_"@, "Descending"@),
        ("toString_Relation_1__String_1_"@, "ToStringRelation"@),
        ("toString_Relation_1__Boolean_1__String_1_"@, "ToStringRelationTyped"@),
    ]
}

/// The `core_functions_relation` extension.
#[derive(Debug, Default, Clone, Copy)]
pub struct RelationFunctionsExtension;

impl RelationFunctionsExtension {
    /// The extension's name.
    pub fn name(&self) -> (r: String)
        ensures
            r@ == "core_functions_relation"@,
    {
        "core_functions_relation".to_string()
    }

    /// Registers the extension's natives, in order, after what the
    /// registry holds.
    pub fn register_natives(&self, registry: &mut NativeRegistry)
        ensures
            registrations(final(registry).entries@) == registrations(old(registry).entries@)
                + relation_natives(),
    {
        registry.register("size_Relation_1__Integer_1_", "Size");
        registry.register("distinct_Relation_1__Relation_1_", "Distinct");
        registry.register("distinct_Relation_1__ColSpecArray_1__Relation_1_", "DistinctColSpecArray");
        registry.register("map_Relation_1__Function_1__V_MANY_", "MapRelation");
        registry.register("concatenate_Relation_1__Relation_1__Relation_1_", "Concatenate");
        registry.register("filter_Relation_1__Function_1__Relation_1_", "Filter");
        registry.register("extend_Relation_1__FuncColSpec_1__Relation_1_", "ExtendFuncColSpec");
        registry.register("extend_Relation_1__FuncColSpecArray_1__Relation_1_", "ExtendFuncColSpecArray");
        registry.register("limit_Relation_1__Integer_1__Relation_1_", "Limit");
        registry.register("drop_Relation_1__Integer_1__Relation_1_", "Drop");
        registry.register("rename_Relation_1__ColSpec_1__ColSpec_1__Relation_1_", "Rename");
        registry.register("select_Relation_1__Relation_1_", "SelectAll");
        registry.register("select_Relation_1__ColSpec_1__Relation_1_", "SelectColSpec");
        registry.register("select_Relation_1__ColSpecArray_1__Relation_1_", "SelectColSpecArray");
        registry.register("columns_Relation_1__Column_MANY_", "Columns");
        registry.register("sort_Relation_1__SortInfo_MANY__Relation_1_", "Sort");
        registry.register("ascending_ColSpec_1__SortInfo_1_", "Ascending");
        registry.register("descending_ColSpec_1__SortInfo_1_", "Descending");
        registry.register("toString_Relation_1__String_1_", "ToStringRelation");
        registry.register("toString_Relation_1__Boolean_1__String_1_", "ToStringRelationTyped");
        assert(registrations(registry.entries@) =~= registrations(old(registry).entries@) + relation_natives());
    }
}

} // verus!
