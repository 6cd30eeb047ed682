use legend::ast::{IslandData, SourceInfo};
use legend::classpath::missing_platforms;
use legend::lexer::{lex_source, LineIndexer};
use legend::natives::{
    FrameSelection, Reduce, ToStringRelationTyped, ExtendWindowAggColSpec, ExtendWindowFuncColSpec, GroupByColSpecAgg, DenseRank, Drop, ExtendFuncColSpec, ExtendFuncColSpecArray, Filter, Join, JoinKind, Ntile, Rank,
    RowNumber, Slice,
};
use legend::parser::IslandPlugin;
use legend::relation_accessor::RelationAccessorPlugin;
use legend::tds::{Cell, ColumnMultiplicity, ColumnType, Multi, Tds, TdsColumn};
use legend::window::{
    compare_rows_by_keys, frame_row_indices, partition_row_indices, Frame, FrameKind, FrameOffset,
    Order, SortDir, SortKey, Window,
};

fn col(name: &str, t: ColumnType) -> TdsColumn {
    TdsColumn { name: name.to_string(), type_tag: t, multiplicity: ColumnMultiplicity::PureOne }
}

fn icell(i: i64) -> Option<Cell> {
    Some(Cell::Integer(i))
}

fn s(x: &str) -> Option<Cell> {
    Some(Cell::String(x.to_string()))
}

fn table() -> Tds {
    Tds {
        columns: vec![col("grp", ColumnType::String), col("val", ColumnType::Integer)],
        rows: vec![
            vec![s("x"), icell(5)],
            vec![s("y"), icell(5)],
            vec![s("x"), icell(7)],
            vec![s("z"), icell(7)],
            vec![s("y"), icell(9)],
            vec![s("x"), icell(9)],
        ],
    }
}

fn vals(t: &Tds) -> Vec<i64> {
    t.rows
        .iter()
        .map(|r| match &r[1] {
            Some(Cell::Integer(i)) => *i,
            _ => -1,
        })
        .collect()
}

#[test]
fn every_row_lands_in_exactly_one_group() {
    let t = table();
    let groups = partition_row_indices(&t, &vec![0]);
    assert!(groups.len() <= t.rows.len());
    for r in 0..t.rows.len() {
        let hits: usize = groups.iter().map(|g| g.rows.iter().filter(|x| **x == r).count()).sum();
        assert_eq!(hits, 1);
    }
    assert_eq!(groups.iter().map(|g| g.rows.len()).sum::<usize>(), t.rows.len());
}

#[test]
fn dense_rank_never_exceeds_rank_nor_rank_the_row_number() {
    let p = Tds {
        columns: vec![col("v", ColumnType::Integer)],
        rows: vec![vec![icell(1)], vec![icell(2)], vec![icell(2)], vec![icell(2)], vec![icell(4)], vec![icell(4)]],
    };
    let w = Window {
        partition: vec![],
        sort: vec![SortKey { column: "v".to_string(), direction: SortDir::Asc }],
        frame: None,
    };
    for i in 0..p.rows.len() {
        let dense = DenseRank.execute(&p, &w, Some(i)).unwrap();
        let rank = Rank.execute(&p, &w, Some(i)).unwrap();
        let number = RowNumber.execute(Some(i)).unwrap();
        assert!(1 <= dense && dense <= rank && rank <= number);
    }
    assert_eq!(Rank.execute(&p, &w, Some(3)).unwrap(), Rank.execute(&p, &w, Some(1)).unwrap());
}

#[test]
fn dropping_twice_drops_the_sum() {
    let t = table();
    for a in 0..8i64 {
        for b in 0..8i64 {
            let twice = Drop.execute(&Drop.execute(&t, a), b);
            let once = Drop.execute(&t, a + b);
            assert_eq!(vals(&twice), vals(&once));
        }
    }
    assert_eq!(vals(&Drop.execute(&t, 0)), vals(&t));
}

#[test]
fn slicing_is_dropping_then_keeping_a_prefix() {
    let t = table();
    for start in 0..=6i64 {
        for stop in start..10i64 {
            let sliced = Slice.execute(&t, start, stop);
            let dropped = Drop.execute(&t, start);
            let keep = std::cmp::min((stop - start) as usize, dropped.rows.len());
            assert_eq!(vals(&sliced), vals(&dropped)[..keep].to_vec());
        }
    }
    assert_eq!(vals(&Slice.execute(&t, -3, 100)), vals(&t));
}

#[test]
fn filtering_keeps_one_row_per_set_flag() {
    let t = table();
    assert_eq!(vals(&Filter.execute(&t, &vec![true; 6])), vals(&t));
    assert_eq!(Filter.execute(&t, &vec![false; 6]).rows.len(), 0);
    let flags = vec![true, false, true, true, false, false];
    assert_eq!(Filter.execute(&t, &flags).rows.len(), 3);
}

#[test]
fn extending_keeps_the_old_cells() {
    let t = table();
    let cells: Vec<Option<Cell>> = (0..6).map(icell).collect();
    let e = ExtendFuncColSpec.execute(&t, "n".to_string(), cells.clone());
    for (old, new) in t.rows.iter().zip(e.rows.iter()) {
        assert_eq!(format!("{:?}", &new[..2]), format!("{:?}", &old[..]));
    }
    let many = ExtendFuncColSpecArray.execute(&t, vec![("n".to_string(), cells)]);
    assert_eq!(format!("{:?}", many.rows), format!("{:?}", e.rows));
    assert_eq!(format!("{:?}", many.columns), format!("{:?}", e.columns));
}

#[test]
fn an_always_true_inner_join_is_the_cross_product() {
    let left = Tds { columns: vec![col("a", ColumnType::Integer)], rows: vec![vec![icell(1)], vec![icell(2)], vec![icell(3)]] };
    let right = Tds { columns: vec![col("b", ColumnType::Integer)], rows: vec![vec![icell(7)], vec![icell(8)]] };
    let all = vec![vec![true, true]; 3];
    assert_eq!(Join.execute(&left, &right, JoinKind::Inner, &all).rows.len(), 6);
    let some = vec![vec![true, false], vec![false, false], vec![true, true]];
    // 3 pairs; 1 lonely left row; right row 1 is matched by row 2.
    assert_eq!(Join.execute(&left, &right, JoinKind::Inner, &some).rows.len(), 3);
    assert_eq!(Join.execute(&left, &right, JoinKind::Left, &some).rows.len(), 4);
    assert_eq!(Join.execute(&left, &right, JoinKind::Right, &some).rows.len(), 3);
    assert_eq!(Join.execute(&left, &right, JoinKind::Full, &some).rows.len(), 4);
}

#[test]
fn tiles_stay_in_range_and_never_go_back() {
    let p = table();
    for tiles in 1..9i64 {
        let mut prev = 1;
        for i in 0..p.rows.len() {
            let tile = Ntile.execute(&p, Some(i), tiles).unwrap();
            assert!(1 <= tile && tile <= tiles);
            assert!(tile >= prev);
            prev = tile;
        }
    }
}

#[test]
fn running_frames_and_current_rows() {
    let part: Vec<usize> = vec![4, 1, 3, 0, 2];
    let running = Some(Frame { kind: FrameKind::Rows, from: FrameOffset::Unbounded, to: FrameOffset::Int(0) });
    for p in 0..part.len() {
        assert_eq!(frame_row_indices(&part, p, &running), part[..=p].to_vec());
        let around = Some(Frame { kind: FrameKind::Rows, from: FrameOffset::Int(-1), to: FrameOffset::Int(2) });
        let rows = frame_row_indices(&part, p, &around);
        assert!(rows.contains(&part[p]));
    }
}

#[test]
fn rows_compare_equal_to_themselves_and_flip() {
    let t = table();
    let keys = vec![(1usize, SortDir::Asc), (0usize, SortDir::Desc)];
    for a in &t.rows {
        assert_eq!(compare_rows_by_keys(a, a, &keys), Order::Equal);
        for b in &t.rows {
            let ab = compare_rows_by_keys(a, b, &keys);
            let ba = compare_rows_by_keys(b, a, &keys);
            assert_eq!(ab, ba.reverse());
        }
    }
}

#[test]
fn accessor_paths_join_back_to_their_text() {
    for text in ["db.schema.table", "", "a..b.", "single"] {
        let ci = RelationAccessorPlugin.parse(text, SourceInfo::dummy()).unwrap();
        let IslandData::RelationAccessor(d) = ci.data;
        assert_eq!(d.path.join("."), text);
        assert!(d.path.iter().all(|p| !p.contains('.')));
    }
}

#[test]
fn drift_is_what_nothing_provides() {
    let referenced = vec!["platform_a".to_string(), "platform_b".to_string(), "platform_c".to_string()];
    let allowed = vec!["platform_a".to_string()];
    let embedded = vec!["platform_c".to_string()];
    assert_eq!(missing_platforms(&referenced, &allowed, &embedded), vec!["platform_b".to_string()]);
    assert!(missing_platforms(&referenced, &referenced, &vec![]).is_empty());
}

#[test]
fn tokens_follow_one_another_and_lines_grow() {
    let src = "Class a::B\n{\n  name: String[1];\n}\n";
    let toks = lex_source("t.pure", src);
    for w in toks.windows(2) {
        let (a, b) = (&w[0].source_info, &w[1].source_info);
        assert!((a.end_line, a.end_column) <= (b.start_line, b.start_column));
        assert!((a.start_line, a.start_column) < (a.end_line, a.end_column));
    }
    let idx = LineIndexer::new("t.pure", src);
    let mut last = (1, 1);
    for b in 0..src.len() {
        let lc = idx.byte_to_line_col(b);
        assert!(lc.0 >= last.0 && lc.1 >= 1);
        last = lc;
    }
    assert_eq!(idx.byte_to_line_col(11), (2, 1));
}

#[test]
fn slices_clamp_both_bounds() {
    let t = table();
    assert_eq!(Slice.execute(&t, 9, 12).rows.len(), 0);
    assert_eq!(Slice.execute(&t, 5, 10).rows.len(), 1);
    assert_eq!(Slice.execute(&t, 4, -2).rows.len(), 0);
    assert_eq!(vals(&Slice.execute(&t, -5, 2)), vec![5, 5]);
}

#[test]
fn a_newline_starts_the_next_line_at_column_one() {
    let idx = LineIndexer::new("t.pure", "ab\ncd\n\ne");
    assert_eq!(idx.byte_to_line_col(0), (1, 1));
    assert_eq!(idx.byte_to_line_col(2), (1, 3));
    assert_eq!(idx.byte_to_line_col(3), (2, 1));
    assert_eq!(idx.byte_to_line_col(5), (2, 3));
    assert_eq!(idx.byte_to_line_col(6), (3, 1));
    assert_eq!(idx.byte_to_line_col(7), (4, 1));
}

#[test]
fn window_frames_default_to_the_partition_or_its_running_prefix() {
    let t = table();
    let unsorted = Window { partition: vec!["grp".to_string()], sort: vec![], frame: None };
    let plan = ExtendWindowAggColSpec.plan(&t, &unsorted).unwrap();
    let frames = ExtendWindowAggColSpec.window_frames(&plan, &unsorted);
    assert_eq!(frames[0], vec![0, 2, 5]);
    assert_eq!(frames[2], vec![0, 2, 5]);
    assert_eq!(frames[4], vec![1, 4]);
    let sorted = Window {
        partition: vec!["grp".to_string()],
        sort: vec![SortKey { column: "val".to_string(), direction: SortDir::Desc }],
        frame: None,
    };
    let plan = ExtendWindowAggColSpec.plan(&t, &sorted).unwrap();
    let frames = ExtendWindowAggColSpec.window_frames(&plan, &sorted);
    assert_eq!(frames[5], vec![5]);
    assert_eq!(frames[2], vec![5, 2]);
    assert_eq!(frames[0], vec![5, 2, 0]);
    for (s, f) in frames.iter().enumerate() {
        assert!(f.contains(&s));
    }
}

#[test]
fn every_window_slot_holds_its_own_row() {
    let t = table();
    let w = Window {
        partition: vec!["val".to_string()],
        sort: vec![SortKey { column: "grp".to_string(), direction: SortDir::Desc }],
        frame: None,
    };
    let plan = ExtendWindowFuncColSpec.plan(&t, &w).unwrap();
    let mut seen = 0;
    for (g, rows) in plan.sorted.iter().enumerate() {
        for (j, &r) in rows.iter().enumerate() {
            assert_eq!(plan.place[r], (g, j));
            seen += 1;
        }
    }
    assert_eq!(seen, t.rows.len());
    assert_eq!(plan.place[0].0, plan.place[1].0);
    assert_ne!(plan.place[0].0, plan.place[2].0);
}

#[test]
fn group_by_yields_one_row_per_distinct_key() {
    let t = table();
    let g = GroupByColSpecAgg.groups(&t, "grp".to_string()).unwrap();
    let out = GroupByColSpecAgg.finish(&t, &g, "n".to_string(), vec![icell(3), icell(2), icell(1)]);
    let keys: Vec<String> = out
        .rows
        .iter()
        .map(|r| match &r[0] {
            Some(Cell::String(v)) => v.clone(),
            _ => String::new(),
        })
        .collect();
    assert_eq!(keys, vec!["x", "y", "z"]);
    assert_eq!(out.rows.len(), 3);
    assert!(matches!(&out.rows[1][1], Some(Cell::Integer(2))));
}

#[test]
fn join_rows_are_pairs_or_padded_lone_rows() {
    let left = Tds {
        columns: vec![col("k", ColumnType::Integer)],
        rows: vec![vec![icell(1)], vec![icell(2)], vec![icell(3)]],
    };
    let right = Tds {
        columns: vec![col("j", ColumnType::Integer)],
        rows: vec![vec![icell(3)], vec![icell(1)], vec![icell(9)], vec![icell(1)]],
    };
    let key = |c: &Option<Cell>| match c {
        Some(Cell::Integer(i)) => *i,
        _ => -1,
    };
    let m: Vec<Vec<bool>> = (0..3)
        .map(|i| (0..4).map(|j| key(&left.rows[i][0]) == key(&right.rows[j][0])).collect())
        .collect();
    let full = Join.execute(&left, &right, JoinKind::Full, &m);
    let pairs: Vec<(Option<i64>, Option<i64>)> = full
        .rows
        .iter()
        .map(|r| {
            let f = |c: &Option<Cell>| match c {
                Some(Cell::Integer(i)) => Some(*i),
                _ => None,
            };
            (f(&r[0]), f(&r[1]))
        })
        .collect();
    assert_eq!(
        pairs,
        vec![(Some(1), Some(1)), (Some(1), Some(1)), (Some(2), None), (Some(3), Some(3)), (None, Some(9))]
    );
    let inner = Join.execute(&left, &right, JoinKind::Inner, &m);
    assert_eq!(inner.rows.len(), 3);
}

#[test]
fn an_array_extend_is_one_extend_per_column() {
    let t = table();
    let a = vec![icell(1), icell(2), icell(3), icell(4), icell(5), icell(6)];
    let b = vec![s("p"), None, s("q"), s("r"), s("s"), s("t")];
    let at_once = ExtendFuncColSpecArray.execute(&t, vec![("a".to_string(), a.clone()), ("b".to_string(), b.clone())]);
    let one = ExtendFuncColSpec.execute(&t, "a".to_string(), a);
    let two = ExtendFuncColSpec.execute(&one, "b".to_string(), b);
    assert_eq!(ToStringRelationTyped.execute(&at_once, true), ToStringRelationTyped.execute(&two, true));
}

#[test]
fn reduce_sees_the_rows_of_the_window_aggregate() {
    let t = table();
    let w = Window {
        partition: vec!["grp".to_string()],
        sort: vec![SortKey { column: "val".to_string(), direction: SortDir::Asc }],
        frame: Some(Frame { kind: FrameKind::Rows, from: FrameOffset::Int(-1), to: FrameOffset::Int(1) }),
    };
    let plan = ExtendWindowAggColSpec.plan(&t, &w).unwrap();
    let frames = ExtendWindowAggColSpec.window_frames(&plan, &w);
    for s in 0..t.rows.len() {
        let (g, pos) = plan.place[s];
        match Reduce.frame(&t, &w, &plan.sorted[g], pos).unwrap() {
            FrameSelection::Rows(v) => assert_eq!(v, frames[s]),
            other => panic!("expected rows, got {other:?}"),
        }
    }
    assert_eq!(frames[2], vec![0, 2, 5]);
}

#[test]
fn reduce_gets_the_flattened_map_results_of_each_frame() {
    let frames = vec![vec![0, 2], vec![], vec![1], vec![2, 1, 0]];
    let mapped = vec![Multi::Single(4), Multi::Unit, Multi::Collection(vec![7, 8])];
    let args = ExtendWindowAggColSpec.reduce_arguments(&frames, &mapped);
    assert!(matches!(&args[0], Some(Multi::Collection(v)) if *v == vec![4, 7, 8]));
    assert!(args[1].is_none());
    assert!(args[2].is_none());
    assert!(matches!(&args[3], Some(Multi::Collection(v)) if *v == vec![7, 8, 4]));
    let one = ExtendWindowAggColSpec.reduce_arguments(&vec![vec![1, 0]], &mapped);
    assert!(matches!(one[0], Some(Multi::Single(4))));
}
