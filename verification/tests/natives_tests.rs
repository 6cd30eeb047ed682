use legend::natives::{
    read_join_kind, Columns, CumulativeDistribution, DenseRank, Drop, ExtendFuncColSpec,
    ExtendFuncColSpecArray, ExtendWindowAggColSpec, ExtendWindowFuncColSpec, Filter, First,
    GroupByColSpecAgg, GroupByColSpecArrayAgg, GroupByColSpecArrayAggArray, Join, JoinKind, Last,
    MapRelation, NativeError, NativeRegistry, Nth, Ntile, Offset, PercentRank, Rank,
    RelationFunctionsExtension, Reduce, RowNumber, Slice, ToStringRelation, ToStringRelationTyped,
    FrameSelection, GroupByColSpecAggArray, agg_argument,
};
use legend::tds::{Cell, ColumnMultiplicity, ColumnType, FloatCell, Multi, Tds, TdsColumn};
use legend::window::{Frame, FrameKind, FrameOffset, Ratio, SortDir, SortKey, Window};

fn col(name: &str, t: ColumnType) -> TdsColumn {
    TdsColumn { name: name.to_string(), type_tag: t, multiplicity: ColumnMultiplicity::PureOne }
}

fn icell(i: i64) -> Option<Cell> {
    Some(Cell::Integer(i))
}

fn s(x: &str) -> Option<Cell> {
    Some(Cell::String(x.to_string()))
}

fn people() -> Tds {
    Tds {
        columns: vec![col("grp", ColumnType::String), col("val", ColumnType::Integer)],
        rows: vec![
            vec![s("a"), icell(3)],
            vec![s("b"), icell(1)],
            vec![s("a"), icell(1)],
            vec![s("b"), icell(1)],
            vec![s("a"), icell(2)],
        ],
    }
}

fn window(partition: &[&str], sort: &[(&str, SortDir)], frame: Option<Frame>) -> Window {
    Window {
        partition: partition.iter().map(|p| p.to_string()).collect(),
        sort: sort.iter().map(|(c, d)| SortKey { column: c.to_string(), direction: *d }).collect(),
        frame,
    }
}

fn ints(t: &Tds, c: usize) -> Vec<Option<i64>> {
    t.rows
        .iter()
        .map(|r| match &r[c] {
            Some(Cell::Integer(i)) => Some(*i),
            _ => None,
        })
        .collect()
}

#[test]
fn columns_lists_names_in_order() {
    let cols = Columns.execute(&people());
    assert_eq!(cols.iter().map(|c| c.name.as_str()).collect::<Vec<_>>(), vec!["grp", "val"]);
}

#[test]
fn drop_clamps_its_count() {
    assert_eq!(Drop.execute(&people(), 2).rows.len(), 3);
    assert_eq!(Drop.execute(&people(), -4).rows.len(), 5);
    assert_eq!(Drop.execute(&people(), 99).rows.len(), 0);
    assert_eq!(ints(&Drop.execute(&people(), 3), 1), vec![Some(1), Some(2)]);
}

#[test]
fn slice_keeps_the_half_open_range() {
    assert_eq!(ints(&Slice.execute(&people(), 1, 3), 1), vec![Some(1), Some(1)]);
    assert_eq!(Slice.execute(&people(), -2, 2).rows.len(), 2);
    assert_eq!(Slice.execute(&people(), 3, 1).rows.len(), 0);
    assert_eq!(Slice.execute(&people(), 2, 50).rows.len(), 3);
}

#[test]
fn filter_keeps_flagged_rows() {
    let t = Filter.execute(&people(), &vec![true, false, false, true, true]);
    assert_eq!(ints(&t, 1), vec![Some(3), Some(1), Some(2)]);
    assert_eq!(t.columns.len(), 2);
}

#[test]
fn map_flattens_and_packs() {
    let r = MapRelation.execute(vec![Multi::Single(1), Multi::Unit, Multi::Collection(vec![2, 3])]);
    assert!(matches!(r, Multi::Collection(v) if v == vec![1, 2, 3]));
    assert!(matches!(MapRelation.execute(vec![Multi::Unit, Multi::Single(7)]), Multi::Single(7)));
    assert!(matches!(MapRelation.execute::<i32>(vec![Multi::Unit]), Multi::Unit));
}

#[test]
fn extend_infers_type_and_multiplicity() {
    let t = ExtendFuncColSpec.execute(&people(), "x".to_string(), vec![icell(1), icell(2), None, icell(4), icell(5)]);
    let c = &t.columns[2];
    assert_eq!(c.name, "x");
    assert!(matches!(c.type_tag, ColumnType::Integer));
    assert!(matches!(c.multiplicity, ColumnMultiplicity::ZeroOrOne));
    assert_eq!(t.rows[2].len(), 3);
    let mixed = ExtendFuncColSpec.execute(&people(), "m".to_string(), vec![icell(1), s("q"), icell(1), icell(1), icell(1)]);
    assert!(matches!(mixed.columns[2].type_tag, ColumnType::String));
    assert!(matches!(mixed.columns[2].multiplicity, ColumnMultiplicity::PureOne));
    let empty = ExtendFuncColSpec.execute(&people(), "e".to_string(), vec![None, None, None, None, None]);
    assert!(matches!(empty.columns[2].type_tag, ColumnType::String));
}

#[test]
fn extend_array_appends_columns_in_order() {
    let t = ExtendFuncColSpecArray.execute(
        &people(),
        vec![
            ("p".to_string(), vec![icell(1), icell(2), icell(3), icell(4), icell(5)]),
            ("q".to_string(), vec![s("x"), s("y"), s("z"), s("u"), s("v")]),
        ],
    );
    assert_eq!(t.columns.len(), 4);
    assert_eq!(t.columns[3].name, "q");
    assert!(matches!(&t.rows[4][2], Some(Cell::Integer(5))));
    assert!(matches!(&t.rows[4][3], Some(Cell::String(v)) if v == "v"));
}

#[test]
fn to_string_renders_the_tds() {
    let t = Tds {
        columns: vec![col("name", ColumnType::String), col("my col", ColumnType::Integer)],
        rows: vec![vec![s("a{b"), None], vec![s("plain"), icell(-3)]],
    };
    assert_eq!(ToStringRelation.execute(&t), "#TDS\n   name,'my col'\n   \"a{b\",null\n   plain,-3\n#");
    assert_eq!(
        ToStringRelationTyped.execute(&t, true),
        "#TDS\n   name:String[1],'my col':Integer[1]\n   \"a{b\",null\n   plain,-3\n#"
    );
}

#[test]
fn to_string_renders_variants_floats_and_multiplicities() {
    let t = Tds {
        columns: vec![
            TdsColumn {
                name: "v".to_string(),
                type_tag: ColumnType::Other { package: Some("meta::pure".to_string()), name: "Variant".to_string() },
                multiplicity: ColumnMultiplicity::Range { lower: 2, upper: None },
            },
            TdsColumn {
                name: "f".to_string(),
                type_tag: ColumnType::Float,
                multiplicity: ColumnMultiplicity::ZeroOrMany,
            },
        ],
        rows: vec![vec![s("say \"hi\""), Some(Cell::Float(FloatCell { bits: 1.0f64.to_bits(), text: "1.0".to_string() }))], vec![None, Some(Cell::Boolean(true))]],
    };
    assert_eq!(
        ToStringRelationTyped.execute(&t, true),
        "#TDS\n   v:meta::pure::Variant[2..*],f:Float[*]\n   \"say \"\"hi\"\"\",1.0\n   \"null\",true\n#"
    );
}

#[test]
fn join_kinds() {
    let left = Tds {
        columns: vec![col("id", ColumnType::Integer), col("name", ColumnType::String)],
        rows: vec![vec![icell(1), s("a")], vec![icell(2), s("b")], vec![icell(3), s("c")], vec![icell(4), s("d")]],
    };
    let right = Tds {
        columns: vec![col("id2", ColumnType::Integer), col("col", ColumnType::String)],
        rows: vec![vec![icell(1), s("x")], vec![icell(1), s("y")], vec![icell(4), s("z")], vec![icell(6), s("w")]],
    };
    let m = vec![
        vec![true, true, false, false],
        vec![false, false, false, false],
        vec![false, false, false, false],
        vec![false, false, true, false],
    ];
    let inner = Join.execute(&left, &right, JoinKind::Inner, &m);
    assert_eq!(inner.rows.len(), 3);
    assert_eq!(ints(&inner, 0), vec![Some(1), Some(1), Some(4)]);
    assert_eq!(ints(&inner, 2), vec![Some(1), Some(1), Some(4)]);
    assert!(matches!(&inner.rows[1][3], Some(Cell::String(v)) if v == "y"));
    assert!(matches!(inner.columns[0].multiplicity, ColumnMultiplicity::PureOne));
    assert!(matches!(inner.columns[3].multiplicity, ColumnMultiplicity::PureOne));
    let left_join = Join.execute(&left, &right, JoinKind::Left, &m);
    assert_eq!(ints(&left_join, 0), vec![Some(1), Some(1), Some(2), Some(3), Some(4)]);
    assert_eq!(ints(&left_join, 2), vec![Some(1), Some(1), None, None, Some(4)]);
    assert!(matches!(left_join.columns[0].multiplicity, ColumnMultiplicity::PureOne));
    assert!(matches!(left_join.columns[2].multiplicity, ColumnMultiplicity::ZeroOrOne));
    let right_join = Join.execute(&left, &right, JoinKind::Right, &m);
    assert_eq!(ints(&right_join, 0), vec![Some(1), Some(1), Some(4), None]);
    assert_eq!(ints(&right_join, 2), vec![Some(1), Some(1), Some(4), Some(6)]);
    assert!(matches!(right_join.columns[0].multiplicity, ColumnMultiplicity::ZeroOrOne));
    assert!(matches!(right_join.columns[2].multiplicity, ColumnMultiplicity::PureOne));
    let full = Join.execute(&left, &right, JoinKind::Full, &m);
    assert_eq!(ints(&full, 0), vec![Some(1), Some(1), Some(2), Some(3), Some(4), None]);
    assert_eq!(ints(&full, 2), vec![Some(1), Some(1), None, None, Some(4), Some(6)]);
    assert!(matches!((&full.rows[5][1], &full.rows[5][3]), (None, Some(Cell::String(v))) if v == "w"));
    assert!(matches!(full.columns[0].multiplicity, ColumnMultiplicity::ZeroOrOne));
    assert!(matches!(full.columns[3].multiplicity, ColumnMultiplicity::ZeroOrOne));
    assert!(matches!(read_join_kind(Some("FULL")), Ok(JoinKind::Full)));
    assert!(matches!(read_join_kind(Some("full")), Err(NativeError::UnknownJoinKind)));
    assert!(matches!(read_join_kind(None), Err(NativeError::UnknownJoinKind)));
}

#[test]
fn group_by_groups_in_first_occurrence_order() {
    let g = GroupByColSpecAgg.groups(&people(), "grp".to_string()).unwrap();
    assert_eq!(g.groups.len(), 2);
    assert_eq!(g.groups[0].rows, vec![0, 2, 4]);
    assert_eq!(g.groups[1].rows, vec![1, 3]);
    let t = GroupByColSpecAgg.finish(&people(), &g, "sum".to_string(), vec![icell(6), icell(2)]);
    assert_eq!(t.columns.len(), 2);
    assert_eq!(t.columns[1].name, "sum");
    assert!(matches!(&t.rows[0][0], Some(Cell::String(v)) if v == "a"));
    assert!(matches!(&t.rows[1][1], Some(Cell::Integer(2))));
    assert!(matches!(GroupByColSpecAgg.groups(&people(), "nope".to_string()), Err(NativeError::MissingColumn(n)) if n == "nope"));
    assert!(matches!(GroupByColSpecArrayAgg.groups(&people(), &vec![]), Err(NativeError::NoGroupColumns)));
    let g2 = GroupByColSpecArrayAggArray.groups(&people(), &vec!["grp".to_string(), "val".to_string()]).unwrap();
    assert_eq!(g2.groups.len(), 4);
    let t2 = GroupByColSpecAggArray.finish(&people(), &g, vec![("n".to_string(), vec![icell(3), icell(2)]), ("m".to_string(), vec![None, icell(1)])]);
    assert!(matches!(t2.columns[2].multiplicity, ColumnMultiplicity::ZeroOrOne));
}

#[test]
fn empty_aggregation_is_not_reduced() {
    assert!(agg_argument::<i32>(vec![]).is_none());
    assert!(matches!(agg_argument(vec![5]), Some(Multi::Single(5))));
    assert!(matches!(agg_argument(vec![5, 6]), Some(Multi::Collection(v)) if v == vec![5, 6]));
}

fn sorted_partition() -> Tds {
    Tds {
        columns: vec![col("v", ColumnType::Integer)],
        rows: vec![vec![icell(1)], vec![icell(1)], vec![icell(2)], vec![icell(3)], vec![icell(3)]],
    }
}

#[test]
fn ranking_formulas() {
    let p = sorted_partition();
    let w = window(&[], &[("v", SortDir::Asc)], None);
    assert_eq!(RowNumber.execute(Some(3)).unwrap(), 4);
    assert!(matches!(RowNumber.execute(None), Err(NativeError::MissingPosition)));
    let ranks: Vec<i64> = (0..5).map(|i| Rank.execute(&p, &w, Some(i)).unwrap()).collect();
    assert_eq!(ranks, vec![1, 1, 3, 4, 4]);
    let dense: Vec<i64> = (0..5).map(|i| DenseRank.execute(&p, &w, Some(i)).unwrap()).collect();
    assert_eq!(dense, vec![1, 1, 2, 3, 3]);
    assert_eq!(PercentRank.execute(&p, &w, Some(4)).unwrap(), Ratio { numerator: 3, denominator: 4 });
    assert_eq!(CumulativeDistribution.execute(&p, &w, Some(1)).unwrap(), Ratio { numerator: 1, denominator: 5 });
    let tiles: Vec<i64> = (0..5).map(|i| Ntile.execute(&p, Some(i), 2).unwrap()).collect();
    assert_eq!(tiles, vec![1, 1, 1, 2, 2]);
    let bad = window(&[], &[("zz", SortDir::Asc)], None);
    assert!(matches!(Rank.execute(&p, &bad, Some(0)), Err(NativeError::MissingColumn(n)) if n == "zz"));
    let one = Tds { columns: vec![col("v", ColumnType::Integer)], rows: vec![vec![icell(9)]] };
    assert_eq!(PercentRank.execute(&one, &w, Some(0)).unwrap(), Ratio { numerator: 0, denominator: 1 });
}

#[test]
fn offset_first_last_nth() {
    let p = sorted_partition();
    assert_eq!(Offset.execute(&p, Some(2), -1).unwrap(), Some(1));
    assert_eq!(Offset.execute(&p, Some(2), 3).unwrap(), None);
    let running = window(&[], &[("v", SortDir::Asc)], None);
    assert_eq!(First.execute(&p, &running, Some(3)).unwrap(), Some(0));
    assert_eq!(Last.execute(&p, &running, Some(3)).unwrap(), Some(3));
    let rows = window(&[], &[], Some(Frame { kind: FrameKind::Rows, from: FrameOffset::Int(-1), to: FrameOffset::Int(1) }));
    assert_eq!(First.execute(&p, &rows, Some(0)).unwrap(), Some(0));
    assert_eq!(Last.execute(&p, &rows, Some(4)).unwrap(), Some(4));
    assert_eq!(Nth.execute(&p, &rows, Some(2), 2).unwrap(), Some(2));
    assert_eq!(Nth.execute(&p, &rows, Some(2), 4).unwrap(), None);
    let whole = window(&[], &[], None);
    assert_eq!(Last.execute(&p, &whole, Some(0)).unwrap(), Some(4));
}

#[test]
fn window_plans_sort_stably_within_partitions() {
    let t = people();
    let w = window(&["grp"], &[("val", SortDir::Asc)], None);
    let plan = ExtendWindowAggColSpec.plan(&t, &w).unwrap();
    assert_eq!(plan.sorted, vec![vec![2, 4, 0], vec![1, 3]]);
    assert_eq!(plan.place[0], (0, 2));
    assert_eq!(plan.place[3], (1, 1));
    let frames = ExtendWindowAggColSpec.frames(&plan, &Some(Frame { kind: FrameKind::Rows, from: FrameOffset::Unbounded, to: FrameOffset::Int(0) }));
    assert_eq!(frames[0], vec![2, 4, 0]);
    assert_eq!(frames[4], vec![2, 4]);
    assert_eq!(frames[1], vec![1]);
    let desc = window(&["grp"], &[("val", SortDir::Desc)], None);
    let plan = ExtendWindowFuncColSpec.plan(&t, &desc).unwrap();
    assert_eq!(plan.sorted, vec![vec![0, 4, 2], vec![1, 3]]);
    let part = ExtendWindowFuncColSpec.partition_relation(&t, &plan.sorted[0]);
    assert_eq!(ints(&part, 1), vec![Some(3), Some(2), Some(1)]);
    let missing = window(&["nope"], &[], None);
    assert!(matches!(ExtendWindowAggColSpec.plan(&t, &missing), Err(NativeError::MissingColumn(n)) if n == "nope"));
}

#[test]
fn reduce_locates_rows_and_frames() {
    let t = people();
    let w = window(&["grp"], &[("val", SortDir::Asc)], None);
    let (plan, src) = Reduce.locate(&t, &w, &vec![s("a"), icell(2)]).unwrap();
    assert_eq!(src, 4);
    let (g, pos) = plan.place[src];
    assert_eq!((g, pos), (0, 1));
    match Reduce.frame(&t, &w, &plan.sorted[g], pos).unwrap() {
        FrameSelection::Rows(v) => assert_eq!(v, vec![2, 4]),
        _ => panic!("expected rows"),
    }
    assert!(matches!(Reduce.locate(&t, &w, &vec![s("c"), icell(2)]), Err(NativeError::RowNotFound)));
    let ranged = Window {
        frame: Some(Frame { kind: FrameKind::Range, from: FrameOffset::Unbounded, to: FrameOffset::Int(0) }),
        ..window(&["grp"], &[("val", SortDir::Asc)], None)
    };
    assert!(matches!(Reduce.frame(&t, &ranged, &plan.sorted[g], pos).unwrap(), FrameSelection::ByValue { position: 1, key: Some((1, SortDir::Asc)), .. }));
}

#[test]
fn registration_lists_the_natives() {
    let mut r = NativeRegistry::new();
    RelationFunctionsExtension.register_natives(&mut r);
    assert_eq!(r.entries.len(), 20);
    assert_eq!(r.entries[5], ("filter_Relation_1__Function_1__Relation_1_".to_string(), "Filter".to_string()));
    assert_eq!(RelationFunctionsExtension.name(), "core_functions_relation");
}
