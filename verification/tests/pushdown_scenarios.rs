//! End-to-end scenarios for the projection-pushdown pass.

use dfplan::arena::{Arena, Node};
use dfplan::dtype::DataType;
use dfplan::expr::{AExpr, Operator};
use dfplan::ir::{FileScanKind, IR, JoinType};
use dfplan::pushdown::ProjectionPushDown;
use dfplan::schema::{Field, Schema};

fn schema_of(cols: &[(&str, DataType)]) -> Schema {
    let mut s = Schema::new();
    for (name, dt) in cols {
        s.push_field(String::from(*name), *dt);
    }
    s
}

fn names_of(s: &Schema) -> Vec<String> {
    let mut out = Vec::new();
    let mut i = 0;
    while i < s.len() {
        out.push(s.get_at_index(i).name.clone());
        i += 1;
    }
    out
}

fn plain_scan(file_schema: Schema, kind: FileScanKind) -> IR {
    IR::Scan {
        file_schema,
        scan_kind: kind,
        projection: None,
        output_schema: None,
        row_index: None,
        include_file_paths: None,
    }
}

fn col(ea: &mut Arena<AExpr>, name: &str) -> Node {
    ea.add(AExpr::Column(String::from(name)))
}

#[test]
fn scan_narrowing_keeps_selected_and_predicate_columns() {
    // select(["a"]).filter(col("b") > 0) over a 5-column source: the scan
    // reads exactly {"a", "b"} and the projection above it selects only
    // "a".
    let mut lp: Arena<IR> = Arena::new();
    let mut ea: Arena<AExpr> = Arena::new();

    let file_schema = schema_of(&[
        ("a", DataType::Int64),
        ("b", DataType::Int64),
        ("c", DataType::Int64),
        ("d", DataType::Int64),
        ("e", DataType::Int64),
    ]);
    let scan = lp.add(plain_scan(file_schema, FileScanKind::Parquet));

    let b = col(&mut ea, "b");
    let zero = ea.add(AExpr::Literal(0));
    let predicate = ea.add(AExpr::BinaryExpr { left: b, op: Operator::Gt, right: zero });
    let filter = lp.add(IR::Filter { input: scan, predicate });

    let a = col(&mut ea, "a");
    let root = IR::Select {
        input: filter,
        expr: vec![a],
        schema: schema_of(&[("a", DataType::Int64)]),
    };

    let mut pass = ProjectionPushDown::new();
    let out = pass.optimize(root, &mut lp, &mut ea).unwrap();

    match out {
        IR::Select { expr, schema, .. } => {
            assert_eq!(expr.len(), 1);
            assert_eq!(names_of(&schema), vec![String::from("a")]);
        },
        _ => panic!("expected a projection at the root"),
    }
    match lp.get(scan) {
        IR::Scan { projection, output_schema, .. } => {
            let proj = projection.as_ref().unwrap();
            let mut sorted = proj.clone();
            sorted.sort();
            assert_eq!(sorted, vec![String::from("a"), String::from("b")]);
            let os = output_schema.as_ref().unwrap();
            assert_eq!(os.len(), 2);
        },
        _ => panic!("expected the scan to survive"),
    }
}

#[test]
fn join_routing_narrows_each_side_to_its_own_columns() {
    // join L(id, x) with R(id, y) on id, selecting x: the left scan reads
    // {id, x}, the right scan reads {id} and y is dropped.
    let mut lp: Arena<IR> = Arena::new();
    let mut ea: Arena<AExpr> = Arena::new();

    let left = lp.add(plain_scan(
        schema_of(&[("id", DataType::Int64), ("x", DataType::Int64)]),
        FileScanKind::Parquet,
    ));
    let right = lp.add(plain_scan(
        schema_of(&[("id", DataType::Int64), ("y", DataType::Int64)]),
        FileScanKind::Parquet,
    ));

    let left_key = col(&mut ea, "id");
    let right_key = col(&mut ea, "id");
    let join_schema = schema_of(&[
        ("id", DataType::Int64),
        ("x", DataType::Int64),
        ("y", DataType::Int64),
    ]);
    let join = lp.add(IR::Join {
        input_left: left,
        input_right: right,
        left_on: vec![left_key],
        right_on: vec![right_key],
        schema: join_schema,
        how: JoinType::Inner,
    });

    let x = col(&mut ea, "x");
    let root = IR::Select {
        input: join,
        expr: vec![x],
        schema: schema_of(&[("x", DataType::Int64)]),
    };

    let mut pass = ProjectionPushDown::new();
    pass.optimize(root, &mut lp, &mut ea).unwrap();

    match lp.get(left) {
        IR::Scan { projection, .. } => {
            let mut proj = projection.as_ref().unwrap().clone();
            proj.sort();
            assert_eq!(proj, vec![String::from("id"), String::from("x")]);
        },
        _ => panic!("expected the left scan to survive"),
    }
    match lp.get(right) {
        IR::Scan { projection, .. } => {
            assert_eq!(projection.as_ref().unwrap().clone(), vec![String::from("id")]);
        },
        _ => panic!("expected the right scan to survive"),
    }
}

#[test]
fn distinct_with_no_subset_forces_full_width() {
    // distinct() with no subset over L(a,b,c) followed by select(["a"])
    // still reads all of {a,b,c} at the scan.
    let mut lp: Arena<IR> = Arena::new();
    let mut ea: Arena<AExpr> = Arena::new();

    let scan = lp.add(plain_scan(
        schema_of(&[
            ("a", DataType::Int64),
            ("b", DataType::Int64),
            ("c", DataType::Int64),
        ]),
        FileScanKind::Parquet,
    ));
    let distinct = lp.add(IR::Distinct { input: scan, subset: None });

    let a = col(&mut ea, "a");
    let root = IR::Select {
        input: distinct,
        expr: vec![a],
        schema: schema_of(&[("a", DataType::Int64)]),
    };

    let mut pass = ProjectionPushDown::new();
    pass.optimize(root, &mut lp, &mut ea).unwrap();

    match lp.get(scan) {
        IR::Scan { projection, .. } => {
            let mut proj = projection.as_ref().unwrap().clone();
            proj.sort();
            assert_eq!(
                proj,
                vec![String::from("a"), String::from("b"), String::from("c")]
            );
        },
        _ => panic!("expected the scan to survive"),
    }
}

#[test]
fn distinct_with_subset_forces_only_the_subset() {
    let mut lp: Arena<IR> = Arena::new();
    let mut ea: Arena<AExpr> = Arena::new();

    let scan = lp.add(plain_scan(
        schema_of(&[
            ("a", DataType::Int64),
            ("b", DataType::Int64),
            ("c", DataType::Int64),
        ]),
        FileScanKind::Parquet,
    ));
    let distinct = lp.add(IR::Distinct { input: scan, subset: Some(vec![String::from("b")]) });

    let a = col(&mut ea, "a");
    let root = IR::Select {
        input: distinct,
        expr: vec![a],
        schema: schema_of(&[("a", DataType::Int64)]),
    };

    let mut pass = ProjectionPushDown::new();
    pass.optimize(root, &mut lp, &mut ea).unwrap();

    match lp.get(scan) {
        IR::Scan { projection, .. } => {
            let mut proj = projection.as_ref().unwrap().clone();
            proj.sort();
            assert_eq!(proj, vec![String::from("a"), String::from("b")]);
        },
        _ => panic!("expected the scan to survive"),
    }
}

#[test]
fn count_star_synthesizes_one_cheap_column_at_an_in_memory_scan() {
    // A bare select(len()) over a 3-column, non-row-indexed source reads
    // exactly one synthesized column: the first cheap-typed column after
    // the leading one.
    let mut lp: Arena<IR> = Arena::new();
    let mut ea: Arena<AExpr> = Arena::new();

    let scan = lp.add(IR::DataFrameScan {
        schema: schema_of(&[
            ("a", DataType::String),
            ("b", DataType::Int32),
            ("c", DataType::String),
        ]),
        output_schema: None,
    });

    let len_expr = ea.add(AExpr::Len);
    let root = IR::Select {
        input: scan,
        expr: vec![len_expr],
        schema: schema_of(&[("len", DataType::UInt32)]),
    };

    let mut pass = ProjectionPushDown { is_count_star: true };
    pass.optimize(root, &mut lp, &mut ea).unwrap();

    match lp.get(scan) {
        IR::DataFrameScan { output_schema, .. } => {
            let os = output_schema.as_ref().unwrap();
            assert_eq!(os.len(), 1);
            assert_eq!(os.get_at_index(0).name, String::from("b"));
        },
        _ => panic!("expected the in-memory scan to survive"),
    }
}

#[test]
fn count_star_falls_back_to_the_last_column() {
    let mut lp: Arena<IR> = Arena::new();
    let mut ea: Arena<AExpr> = Arena::new();

    let scan = lp.add(IR::DataFrameScan {
        schema: schema_of(&[
            ("a", DataType::String),
            ("b", DataType::String),
            ("c", DataType::String),
        ]),
        output_schema: None,
    });

    let len_expr = ea.add(AExpr::Len);
    let root = IR::Select {
        input: scan,
        expr: vec![len_expr],
        schema: schema_of(&[("len", DataType::UInt32)]),
    };

    let mut pass = ProjectionPushDown { is_count_star: true };
    pass.optimize(root, &mut lp, &mut ea).unwrap();

    match lp.get(scan) {
        IR::DataFrameScan { output_schema, .. } => {
            let os = output_schema.as_ref().unwrap();
            assert_eq!(os.len(), 1);
            assert_eq!(os.get_at_index(0).name, String::from("c"));
        },
        _ => panic!("expected the in-memory scan to survive"),
    }
}

#[test]
fn cache_isolation_wraps_without_touching_the_cached_subtree() {
    // Projecting {"a"} over a cached subtree with columns {a,b,c} yields a
    // new projection node wrapping the unmodified cache; the cached scan
    // keeps its full schema and no projection.
    let mut lp: Arena<IR> = Arena::new();
    let mut ea: Arena<AExpr> = Arena::new();

    let scan = lp.add(plain_scan(
        schema_of(&[
            ("a", DataType::Int64),
            ("b", DataType::Int64),
            ("c", DataType::Int64),
        ]),
        FileScanKind::Parquet,
    ));
    let cache = lp.add(IR::Cache { input: scan, id: 7 });

    let root = IR::SimpleProjection {
        input: cache,
        columns: schema_of(&[("a", DataType::Int64)]),
    };

    let mut pass = ProjectionPushDown::new();
    pass.optimize(root, &mut lp, &mut ea).unwrap();

    // The slot that held the cache now holds a projection wrapping a fresh
    // node that holds the unmodified cache.
    match lp.get(cache) {
        IR::SimpleProjection { input, columns } => {
            assert_eq!(columns.len(), 1);
            assert_eq!(columns.get_at_index(0).name, String::from("a"));
            match lp.get(*input) {
                IR::Cache { input: cached_child, id } => {
                    assert_eq!(*id, 7);
                    match lp.get(*cached_child) {
                        IR::Scan { projection, output_schema, file_schema, .. } => {
                            assert!(projection.is_none());
                            assert!(output_schema.is_none());
                            assert_eq!(file_schema.len(), 3);
                        },
                        _ => panic!("expected the cached scan"),
                    }
                },
                _ => panic!("expected the unmodified cache under the wrapper"),
            }
        },
        _ => panic!("expected a projection wrapper in the cache's slot"),
    }
}

#[test]
fn sort_keys_are_forced_into_the_scan() {
    let mut lp: Arena<IR> = Arena::new();
    let mut ea: Arena<AExpr> = Arena::new();

    let scan = lp.add(plain_scan(
        schema_of(&[
            ("a", DataType::Int64),
            ("b", DataType::Int64),
            ("c", DataType::Int64),
        ]),
        FileScanKind::Parquet,
    ));
    let key = col(&mut ea, "c");
    let sort = lp.add(IR::Sort { input: scan, by_column: vec![key] });

    let a = col(&mut ea, "a");
    let root = IR::Select {
        input: sort,
        expr: vec![a],
        schema: schema_of(&[("a", DataType::Int64)]),
    };

    let mut pass = ProjectionPushDown::new();
    pass.optimize(root, &mut lp, &mut ea).unwrap();

    match lp.get(scan) {
        IR::Scan { projection, .. } => {
            let mut proj = projection.as_ref().unwrap().clone();
            proj.sort();
            assert_eq!(proj, vec![String::from("a"), String::from("c")]);
        },
        _ => panic!("expected the scan to survive"),
    }
}

#[test]
fn csv_scans_read_columns_in_file_order() {
    // A CSV reader wants its projection in the file schema's declared
    // order even when the query asked in another order.
    let mut lp: Arena<IR> = Arena::new();
    let mut ea: Arena<AExpr> = Arena::new();

    let scan = lp.add(plain_scan(
        schema_of(&[
            ("a", DataType::Int64),
            ("b", DataType::Int64),
            ("c", DataType::Int64),
        ]),
        FileScanKind::Csv,
    ));
    let c = col(&mut ea, "c");
    let a = col(&mut ea, "a");
    let root = IR::Select {
        input: scan,
        expr: vec![c, a],
        schema: schema_of(&[("c", DataType::Int64), ("a", DataType::Int64)]),
    };

    let mut pass = ProjectionPushDown::new();
    pass.optimize(root, &mut lp, &mut ea).unwrap();

    match lp.get(scan) {
        IR::Scan { projection, output_schema, .. } => {
            // The physical projection list keeps accumulation order; the
            // narrowed output schema is re-sorted into file order for the
            // order-sensitive reader.
            assert_eq!(
                projection.as_ref().unwrap().clone(),
                vec![String::from("c"), String::from("a")]
            );
            let os = output_schema.as_ref().unwrap();
            assert_eq!(names_of(os), vec![String::from("a"), String::from("c")]);
        },
        _ => panic!("expected the scan to survive"),
    }
}
