use legend::natives::{
    ExtendWindowAggColSpec, ExtendWindowFuncColSpec, GroupByColSpecAgg, GroupByColSpecArrayAggArray, Join,
    JoinKind, ToStringRelation,
};
use legend::tds::{Cell, ColumnMultiplicity, ColumnType, Multi, Tds, TdsColumn};
use legend::window::{SortDir, SortKey, Window};

fn col(name: &str, t: ColumnType) -> TdsColumn {
    TdsColumn { name: name.to_string(), type_tag: t, multiplicity: ColumnMultiplicity::PureOne }
}

fn icell(i: i64) -> Option<Cell> {
    Some(Cell::Integer(i))
}

fn s(x: &str) -> Option<Cell> {
    Some(Cell::String(x.to_string()))
}

fn int_at(t: &Tds, row: usize, c: usize) -> i64 {
    match &t.rows[row][c] {
        Some(Cell::Integer(i)) => *i,
        other => panic!("expected an integer, got {other:?}"),
    }
}

fn str_at(t: &Tds, row: usize, c: usize) -> String {
    match &t.rows[row][c] {
        Some(Cell::String(v)) => v.clone(),
        other => panic!("expected a string, got {other:?}"),
    }
}

fn over(partition: &[&str]) -> Window {
    Window { partition: partition.iter().map(|p| p.to_string()).collect(), sort: vec![], frame: None }
}

/// The rows of `t` ordered by `columns` ascending, through the window
/// planner's stable sort.
fn sorted_by(t: &Tds, columns: &[&str]) -> Tds {
    let w = Window {
        partition: vec![],
        sort: columns.iter().map(|c| SortKey { column: c.to_string(), direction: SortDir::Asc }).collect(),
        frame: None,
    };
    let plan = ExtendWindowFuncColSpec.plan(t, &w).unwrap();
    if t.rows.is_empty() {
        return t.clone();
    }
    ExtendWindowFuncColSpec.partition_relation(t, &plan.sorted[0])
}

fn grp_val(rows: &[(i64, i64)]) -> Tds {
    Tds {
        columns: vec![col("grp", ColumnType::Integer), col("val", ColumnType::Integer)],
        rows: rows.iter().map(|(g, v)| vec![icell(*g), icell(*v)]).collect(),
    }
}

#[test]
fn olap_extend_sum_per_partition() {
    let r = grp_val(&[(1, 10), (1, 20), (2, 30), (2, 40), (2, 50), (3, 100)]);
    let w = over(&["grp"]);
    let plan = ExtendWindowAggColSpec.plan(&r, &w).unwrap();
    let frames = ExtendWindowAggColSpec.window_frames(&plan, &w);
    // map: {p,w,r|$r.val}; reduce: {y|$y->plus()}
    let mapped: Vec<Multi<i64>> = (0..r.rows.len()).map(|row| Multi::Single(int_at(&r, row, 1))).collect();
    let args = ExtendWindowAggColSpec.reduce_arguments(&frames, &mapped);
    let cells: Vec<Option<Cell>> = args
        .into_iter()
        .map(|a| match a {
            None => None,
            Some(Multi::Single(v)) => icell(v),
            Some(Multi::Collection(vs)) => icell(vs.iter().sum()),
            Some(Multi::Unit) => None,
        })
        .collect();
    let extended = ExtendWindowAggColSpec.finish(&r, "total".to_string(), cells);
    let expected = "#TDS\n   grp,val,total\n   1,10,30\n   1,20,30\n   2,30,120\n   2,40,120\n   2,50,120\n   3,100,100\n#";
    assert_eq!(ToStringRelation.execute(&extended), expected, "OLAP extend sum-per-partition mismatch");
}

#[test]
fn olap_extend_join_strings_per_partition() {
    let r = Tds {
        columns: vec![col("grp", ColumnType::Integer), col("name", ColumnType::String)],
        rows: vec![
            vec![icell(1), s("alice")],
            vec![icell(1), s("bob")],
            vec![icell(2), s("carol")],
            vec![icell(2), s("dan")],
        ],
    };
    let w = over(&["grp"]);
    let plan = ExtendWindowAggColSpec.plan(&r, &w).unwrap();
    let frames = ExtendWindowAggColSpec.window_frames(&plan, &w);
    // map: {p,w,r|$r.name}; reduce: {y|$y->joinStrings(',')}
    let names: Vec<String> = (0..r.rows.len()).map(|row| str_at(&r, row, 1)).collect();
    let mapped: Vec<Multi<&str>> = names.iter().map(|n| Multi::Single(n.as_str())).collect();
    let args = ExtendWindowAggColSpec.reduce_arguments(&frames, &mapped);
    let cells: Vec<Option<Cell>> = args
        .into_iter()
        .map(|a| match a {
            None | Some(Multi::Unit) => None,
            Some(Multi::Single(v)) => s(v),
            Some(Multi::Collection(vs)) => s(&vs.join(",")),
        })
        .collect();
    let extended = ExtendWindowAggColSpec.finish(&r, "combined".to_string(), cells);
    let expected = "#TDS\n   grp,name,combined\n   1,alice,alice,bob\n   1,bob,alice,bob\n   2,carol,carol,dan\n   2,dan,carol,dan\n#";
    assert_eq!(ToStringRelation.execute(&extended), expected, "OLAP extend joinStrings-per-partition mismatch");
}

#[test]
fn group_by_single_single_sum() {
    let r = grp_val(&[(1, 10), (1, 20), (2, 30), (2, 40), (2, 50), (3, 100)]);
    let g = GroupByColSpecAgg.groups(&r, "grp".to_string()).unwrap();
    let cells: Vec<Option<Cell>> =
        g.groups.iter().map(|grp| icell(grp.rows.iter().map(|&row| int_at(&r, row, 1)).sum())).collect();
    let grouped = GroupByColSpecAgg.finish(&r, &g, "total".to_string(), cells);
    let expected = "#TDS\n   grp,total\n   1,30\n   2,120\n   3,100\n#";
    assert_eq!(ToStringRelation.execute(&sorted_by(&grouped, &["grp"])), expected, "groupBy single/single sum mismatch");
}

#[test]
fn group_by_multiple_multiple() {
    let r = Tds {
        columns: vec![
            col("grp", ColumnType::Integer),
            col("grp2", ColumnType::Integer),
            col("val", ColumnType::Integer),
        ],
        rows: vec![
            vec![icell(1), icell(9), icell(10)],
            vec![icell(1), icell(9), icell(20)],
            vec![icell(1), icell(8), icell(5)],
            vec![icell(2), icell(7), icell(30)],
            vec![icell(2), icell(7), icell(40)],
        ],
    };
    let g = GroupByColSpecArrayAggArray.groups(&r, &vec!["grp".to_string(), "grp2".to_string()]).unwrap();
    let sums: Vec<Option<Cell>> =
        g.groups.iter().map(|grp| icell(grp.rows.iter().map(|&row| int_at(&r, row, 2)).sum())).collect();
    let counts: Vec<Option<Cell>> = g.groups.iter().map(|grp| icell(grp.rows.len() as i64)).collect();
    let grouped =
        GroupByColSpecArrayAggArray.finish(&r, &g, vec![("sumVal".to_string(), sums), ("cnt".to_string(), counts)]);
    let expected = "#TDS\n   grp,grp2,sumVal,cnt\n   1,8,5,1\n   1,9,30,2\n   2,7,70,2\n#";
    assert_eq!(
        ToStringRelation.execute(&sorted_by(&grouped, &["grp", "grp2"])),
        expected,
        "groupBy multiple/multiple mismatch"
    );
}

fn join_inputs() -> (Tds, Tds, Vec<Vec<bool>>) {
    let t1 = Tds {
        columns: vec![col("id", ColumnType::Integer), col("name", ColumnType::String)],
        rows: vec![
            vec![icell(1), s("a")],
            vec![icell(2), s("b")],
            vec![icell(3), s("c")],
            vec![icell(4), s("d")],
        ],
    };
    let t2 = Tds {
        columns: vec![col("id2", ColumnType::Integer), col("col", ColumnType::String)],
        rows: vec![
            vec![icell(1), s("x")],
            vec![icell(1), s("y")],
            vec![icell(4), s("z")],
            vec![icell(6), s("w")],
        ],
    };
    let matched: Vec<Vec<bool>> = (0..t1.rows.len())
        .map(|i| (0..t2.rows.len()).map(|j| int_at(&t1, i, 0) == int_at(&t2, j, 0)).collect())
        .collect();
    (t1, t2, matched)
}

#[test]
fn join_all_kinds_single_word() {
    let (t1, t2, matched) = join_inputs();
    let cases = [
        (JoinKind::Inner, "INNER", "#TDS\n   id,name,id2,col\n   1,a,1,x\n   1,a,1,y\n   4,d,4,z\n#"),
        (
            JoinKind::Left,
            "LEFT",
            "#TDS\n   id,name,id2,col\n   1,a,1,x\n   1,a,1,y\n   2,b,null,null\n   3,c,null,null\n   4,d,4,z\n#",
        ),
        (
            JoinKind::Right,
            "RIGHT",
            "#TDS\n   id,name,id2,col\n   1,a,1,x\n   1,a,1,y\n   4,d,4,z\n   null,null,6,w\n#",
        ),
        (
            JoinKind::Full,
            "FULL",
            "#TDS\n   id,name,id2,col\n   1,a,1,x\n   1,a,1,y\n   2,b,null,null\n   3,c,null,null\n   4,d,4,z\n   null,null,6,w\n#",
        ),
    ];
    for (kind, name, expected) in cases {
        let joined = Join.execute(&t1, &t2, kind, &matched);
        assert_eq!(ToStringRelation.execute(&joined), expected, "join {name} mismatch");
    }
}
