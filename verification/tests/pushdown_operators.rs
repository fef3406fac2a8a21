//! Per-operator behavior of the pushdown pass beyond the headline
//! scenarios: group-by pruning, column stacks, merges, unions, opaque
//! transformations and scan boundaries.

use dfplan::arena::{Arena, Node};
use dfplan::dtype::DataType;
use dfplan::error::PlanError;
use dfplan::expr::{AExpr, AggMethod};
use dfplan::ir::{FileScanKind, IR, JoinType};
use dfplan::pushdown::ProjectionPushDown;
use dfplan::schema::Schema;

fn schema_of(cols: &[(&str, DataType)]) -> Schema {
    let mut s = Schema::new();
    for (name, dt) in cols {
        s.push_field(String::from(*name), *dt);
    }
    s
}

fn names_of(s: &Schema) -> Vec<String> {
    let mut out = Vec::new();
    let mut i = 0;
    while i < s.len() {
        out.push(s.get_at_index(i).name.clone());
        i += 1;
    }
    out
}

fn plain_scan(file_schema: Schema, kind: FileScanKind) -> IR {
    IR::Scan {
        file_schema,
        scan_kind: kind,
        projection: None,
        output_schema: None,
        row_index: None,
        include_file_paths: None,
    }
}

fn col(ea: &mut Arena<AExpr>, name: &str) -> Node {
    ea.add(AExpr::Column(String::from(name)))
}

fn sorted_projection(lp: &Arena<IR>, scan: Node) -> Vec<String> {
    match lp.get(scan) {
        IR::Scan { projection, .. } => {
            let mut p = projection.as_ref().unwrap().clone();
            p.sort();
            p
        },
        _ => panic!("expected a scan"),
    }
}

#[test]
fn group_by_drops_unrequested_aggregations() {
    // group_by(k).agg(sum(a), sum(b)) with only the "a" aggregation
    // selected above: the "b" aggregation disappears and the scan reads
    // only {k, a}.
    let mut lp: Arena<IR> = Arena::new();
    let mut ea: Arena<AExpr> = Arena::new();

    let scan = lp.add(plain_scan(
        schema_of(&[
            ("k", DataType::Int64),
            ("a", DataType::Int64),
            ("b", DataType::Int64),
        ]),
        FileScanKind::Parquet,
    ));
    let key = col(&mut ea, "k");
    let a = col(&mut ea, "a");
    let agg_a = ea.add(AExpr::Agg { input: a, method: AggMethod::Sum });
    let b = col(&mut ea, "b");
    let agg_b = ea.add(AExpr::Agg { input: b, method: AggMethod::Sum });
    let group = lp.add(IR::GroupBy {
        input: scan,
        keys: vec![key],
        aggs: vec![agg_a, agg_b],
        schema: schema_of(&[
            ("k", DataType::Int64),
            ("a", DataType::Int64),
            ("b", DataType::Int64),
        ]),
    });

    let a_out = col(&mut ea, "a");
    let root = IR::Select {
        input: group,
        expr: vec![a_out],
        schema: schema_of(&[("a", DataType::Int64)]),
    };

    let mut pass = ProjectionPushDown::new();
    pass.optimize(root, &mut lp, &mut ea).unwrap();

    match lp.get(group) {
        IR::GroupBy { aggs, schema, .. } => {
            assert_eq!(aggs.len(), 1);
            assert_eq!(names_of(schema), vec![String::from("k"), String::from("a")]);
        },
        _ => panic!("expected the group-by to survive"),
    }
    assert_eq!(
        sorted_projection(&lp, scan),
        vec![String::from("a"), String::from("k")]
    );
}

#[test]
fn hstack_keeps_requested_stacked_columns_and_their_dependencies() {
    // with_columns(doubled = a + a, ignored = b + b), selecting only
    // "doubled" and "c": the ignored stack drops out, the scan reads its
    // dependency "a" together with the passed-through "c", but not "b".
    let mut lp: Arena<IR> = Arena::new();
    let mut ea: Arena<AExpr> = Arena::new();

    let scan = lp.add(plain_scan(
        schema_of(&[
            ("a", DataType::Int64),
            ("b", DataType::Int64),
            ("c", DataType::Int64),
        ]),
        FileScanKind::Parquet,
    ));
    let a1 = col(&mut ea, "a");
    let a2 = col(&mut ea, "a");
    let doubled = ea.add(AExpr::BinaryExpr {
        left: a1,
        op: dfplan::expr::Operator::Plus,
        right: a2,
    });
    let doubled_named = ea.add(AExpr::Alias { input: doubled, name: String::from("doubled") });
    let b1 = col(&mut ea, "b");
    let b2 = col(&mut ea, "b");
    let ignored = ea.add(AExpr::BinaryExpr {
        left: b1,
        op: dfplan::expr::Operator::Plus,
        right: b2,
    });
    let ignored_named = ea.add(AExpr::Alias { input: ignored, name: String::from("ignored") });
    let hstack = lp.add(IR::HStack {
        input: scan,
        exprs: vec![doubled_named, ignored_named],
        schema: schema_of(&[
            ("a", DataType::Int64),
            ("b", DataType::Int64),
            ("c", DataType::Int64),
            ("doubled", DataType::Int64),
            ("ignored", DataType::Int64),
        ]),
    });

    let d = col(&mut ea, "doubled");
    let c = col(&mut ea, "c");
    let root = IR::Select {
        input: hstack,
        expr: vec![d, c],
        schema: schema_of(&[("doubled", DataType::Int64), ("c", DataType::Int64)]),
    };

    let mut pass = ProjectionPushDown::new();
    pass.optimize(root, &mut lp, &mut ea).unwrap();

    match lp.get(hstack) {
        IR::HStack { exprs, schema, .. } => {
            assert_eq!(exprs.len(), 1);
            assert!(schema.contains(&String::from("doubled")));
            assert!(!schema.contains(&String::from("ignored")));
        },
        _ => panic!("expected the stack to survive"),
    }
    assert_eq!(
        sorted_projection(&lp, scan),
        vec![String::from("a"), String::from("c")]
    );
}

#[test]
fn merge_sorted_forces_its_key_into_both_sides() {
    let mut lp: Arena<IR> = Arena::new();
    let mut ea: Arena<AExpr> = Arena::new();

    let left = lp.add(plain_scan(
        schema_of(&[("k", DataType::Int64), ("v", DataType::Int64)]),
        FileScanKind::Parquet,
    ));
    let right = lp.add(plain_scan(
        schema_of(&[("k", DataType::Int64), ("v", DataType::Int64)]),
        FileScanKind::Parquet,
    ));
    let merged = lp.add(IR::MergeSorted {
        input_left: left,
        input_right: right,
        key: String::from("k"),
    });

    let v = col(&mut ea, "v");
    let root = IR::Select {
        input: merged,
        expr: vec![v],
        schema: schema_of(&[("v", DataType::Int64)]),
    };

    let mut pass = ProjectionPushDown::new();
    pass.optimize(root, &mut lp, &mut ea).unwrap();

    assert_eq!(
        sorted_projection(&lp, left),
        vec![String::from("k"), String::from("v")]
    );
    assert_eq!(
        sorted_projection(&lp, right),
        vec![String::from("k"), String::from("v")]
    );
}

#[test]
fn union_pushes_the_same_columns_into_every_input() {
    let mut lp: Arena<IR> = Arena::new();
    let mut ea: Arena<AExpr> = Arena::new();

    let first = lp.add(plain_scan(
        schema_of(&[("a", DataType::Int64), ("b", DataType::Int64)]),
        FileScanKind::Parquet,
    ));
    let second = lp.add(plain_scan(
        schema_of(&[("a", DataType::Int64), ("b", DataType::Int64)]),
        FileScanKind::Parquet,
    ));
    let union = lp.add(IR::Union { inputs: vec![first, second] });

    let a = col(&mut ea, "a");
    let root = IR::Select {
        input: union,
        expr: vec![a],
        schema: schema_of(&[("a", DataType::Int64)]),
    };

    let mut pass = ProjectionPushDown::new();
    pass.optimize(root, &mut lp, &mut ea).unwrap();

    assert_eq!(sorted_projection(&lp, first), vec![String::from("a")]);
    assert_eq!(sorted_projection(&lp, second), vec![String::from("a")]);
}

#[test]
fn map_function_is_a_pushdown_boundary_that_restarts_below() {
    // An opaque transformation: the columns accumulated above resolve in a
    // projection wrapper, and the subtree below is walked afresh with
    // nothing pushed.
    let mut lp: Arena<IR> = Arena::new();
    let mut ea: Arena<AExpr> = Arena::new();

    let scan = lp.add(plain_scan(
        schema_of(&[("a", DataType::Int64), ("b", DataType::Int64)]),
        FileScanKind::Parquet,
    ));
    let mapped = lp.add(IR::MapFunction { input: scan });

    let a = col(&mut ea, "a");
    let root = IR::Select {
        input: mapped,
        expr: vec![a],
        schema: schema_of(&[("a", DataType::Int64)]),
    };

    let mut pass = ProjectionPushDown::new();
    pass.optimize(root, &mut lp, &mut ea).unwrap();

    match lp.get(mapped) {
        IR::SimpleProjection { input, columns } => {
            assert_eq!(names_of(columns), vec![String::from("a")]);
            match lp.get(*input) {
                IR::MapFunction { input: below } => match lp.get(*below) {
                    IR::Scan { projection, .. } => assert!(projection.is_none()),
                    _ => panic!("expected the scan below the transformation"),
                },
                _ => panic!("expected the transformation under the wrapper"),
            }
        },
        _ => panic!("expected a projection wrapper over the transformation"),
    }
}

#[test]
fn anonymous_scans_that_forbid_pushdown_are_left_alone() {
    let mut lp: Arena<IR> = Arena::new();
    let mut ea: Arena<AExpr> = Arena::new();

    let scan = lp.add(plain_scan(
        schema_of(&[("a", DataType::Int64), ("b", DataType::Int64)]),
        FileScanKind::Anonymous { allows_projection_pushdown: false },
    ));
    let a = col(&mut ea, "a");
    let root = IR::Select {
        input: scan,
        expr: vec![a],
        schema: schema_of(&[("a", DataType::Int64)]),
    };

    let mut pass = ProjectionPushDown::new();
    pass.optimize(root, &mut lp, &mut ea).unwrap();

    match lp.get(scan) {
        IR::Scan { projection, output_schema, .. } => {
            assert!(projection.is_none());
            assert!(output_schema.is_none());
        },
        _ => panic!("expected the scan to survive"),
    }
}

#[test]
fn count_star_synthesizes_one_cheap_column_at_a_file_scan() {
    // A count-only query over a file source reads exactly one synthesized
    // column: the first cheap-typed column after the leading one.
    let mut lp: Arena<IR> = Arena::new();
    let mut ea: Arena<AExpr> = Arena::new();

    let scan = lp.add(plain_scan(
        schema_of(&[
            ("a", DataType::String),
            ("b", DataType::Int64),
            ("c", DataType::String),
        ]),
        FileScanKind::Parquet,
    ));
    let len_expr = ea.add(AExpr::Len);
    let root = IR::Select {
        input: scan,
        expr: vec![len_expr],
        schema: schema_of(&[("len", DataType::UInt32)]),
    };

    let mut pass = ProjectionPushDown { is_count_star: true };
    pass.optimize(root, &mut lp, &mut ea).unwrap();

    match lp.get(scan) {
        IR::Scan { projection, output_schema, .. } => {
            assert_eq!(projection.as_ref().unwrap().clone(), vec![String::from("b")]);
            let os = output_schema.as_ref().unwrap();
            assert_eq!(os.len(), 1);
            assert_eq!(os.get_at_index(0).name, String::from("b"));
        },
        _ => panic!("expected the scan to survive"),
    }
}

#[test]
fn count_star_at_an_anonymous_scan_follows_the_same_rule() {
    let mut lp: Arena<IR> = Arena::new();
    let mut ea: Arena<AExpr> = Arena::new();

    let scan = lp.add(plain_scan(
        schema_of(&[("a", DataType::Int64), ("b", DataType::Int64)]),
        FileScanKind::Anonymous { allows_projection_pushdown: true },
    ));
    let len_expr = ea.add(AExpr::Len);
    let root = IR::Select {
        input: scan,
        expr: vec![len_expr],
        schema: schema_of(&[("len", DataType::UInt32)]),
    };

    let mut pass = ProjectionPushDown { is_count_star: true };
    pass.optimize(root, &mut lp, &mut ea).unwrap();

    match lp.get(scan) {
        IR::Scan { projection, output_schema, .. } => {
            // With two integer columns the first cheap column after the
            // leading one is "b".
            assert_eq!(projection.as_ref().unwrap().clone(), vec![String::from("b")]);
            assert_eq!(output_schema.as_ref().unwrap().len(), 1);
        },
        _ => panic!("expected the scan to survive"),
    }
}

#[test]
fn semi_join_limits_the_right_side_to_its_keys() {
    let mut lp: Arena<IR> = Arena::new();
    let mut ea: Arena<AExpr> = Arena::new();

    let left = lp.add(plain_scan(
        schema_of(&[("id", DataType::Int64), ("x", DataType::Int64)]),
        FileScanKind::Parquet,
    ));
    let right = lp.add(plain_scan(
        schema_of(&[("id", DataType::Int64), ("y", DataType::Int64)]),
        FileScanKind::Parquet,
    ));
    let lk = col(&mut ea, "id");
    let rk = col(&mut ea, "id");
    let join = lp.add(IR::Join {
        input_left: left,
        input_right: right,
        left_on: vec![lk],
        right_on: vec![rk],
        schema: schema_of(&[("id", DataType::Int64), ("x", DataType::Int64)]),
        how: JoinType::Semi,
    });

    let x = col(&mut ea, "x");
    let root = IR::Select {
        input: join,
        expr: vec![x],
        schema: schema_of(&[("x", DataType::Int64)]),
    };

    let mut pass = ProjectionPushDown::new();
    pass.optimize(root, &mut lp, &mut ea).unwrap();

    assert_eq!(
        sorted_projection(&lp, left),
        vec![String::from("id"), String::from("x")]
    );
    assert_eq!(sorted_projection(&lp, right), vec![String::from("id")]);
}

#[test]
fn a_column_on_neither_join_side_fails_loudly() {
    let mut lp: Arena<IR> = Arena::new();
    let mut ea: Arena<AExpr> = Arena::new();

    let left = lp.add(plain_scan(
        schema_of(&[("id", DataType::Int64)]),
        FileScanKind::Parquet,
    ));
    let right = lp.add(plain_scan(
        schema_of(&[("id", DataType::Int64)]),
        FileScanKind::Parquet,
    ));
    let lk = col(&mut ea, "id");
    let rk = col(&mut ea, "id");
    // The join's declared schema wrongly promises a column that neither
    // side supplies: the pass refuses to guess.
    let join = lp.add(IR::Join {
        input_left: left,
        input_right: right,
        left_on: vec![lk],
        right_on: vec![rk],
        schema: schema_of(&[("id", DataType::Int64), ("ghost", DataType::Int64)]),
        how: JoinType::Inner,
    });

    let g = col(&mut ea, "ghost");
    let root = IR::Select {
        input: join,
        expr: vec![g],
        schema: schema_of(&[("ghost", DataType::Int64)]),
    };

    let mut pass = ProjectionPushDown::new();
    match pass.optimize(root, &mut lp, &mut ea) {
        Err(PlanError::MalformedPlan) => {},
        _ => panic!("expected the malformed plan to be refused"),
    }
}

#[test]
fn slice_and_sink_pass_the_context_through() {
    let mut lp: Arena<IR> = Arena::new();
    let mut ea: Arena<AExpr> = Arena::new();

    let scan = lp.add(plain_scan(
        schema_of(&[("a", DataType::Int64), ("b", DataType::Int64)]),
        FileScanKind::Parquet,
    ));
    let sliced = lp.add(IR::Slice { input: scan, offset: 5, len: 10 });
    let a = col(&mut ea, "a");
    let select = lp.add(IR::Select {
        input: sliced,
        expr: vec![a],
        schema: schema_of(&[("a", DataType::Int64)]),
    });
    let root = IR::Sink { input: select };

    let mut pass = ProjectionPushDown::new();
    pass.optimize(root, &mut lp, &mut ea).unwrap();

    assert_eq!(sorted_projection(&lp, scan), vec![String::from("a")]);
}

#[test]
fn hconcat_routes_columns_to_the_input_that_has_them() {
    let mut lp: Arena<IR> = Arena::new();
    let mut ea: Arena<AExpr> = Arena::new();

    let left = lp.add(plain_scan(
        schema_of(&[("a", DataType::Int64), ("a2", DataType::Int64)]),
        FileScanKind::Parquet,
    ));
    let right = lp.add(plain_scan(
        schema_of(&[("b", DataType::Int64), ("b2", DataType::Int64)]),
        FileScanKind::Parquet,
    ));
    let hconcat = lp.add(IR::HConcat {
        inputs: vec![left, right],
        schema: schema_of(&[
            ("a", DataType::Int64),
            ("a2", DataType::Int64),
            ("b", DataType::Int64),
            ("b2", DataType::Int64),
        ]),
    });

    let a = col(&mut ea, "a");
    let b = col(&mut ea, "b");
    let root = IR::Select {
        input: hconcat,
        expr: vec![a, b],
        schema: schema_of(&[("a", DataType::Int64), ("b", DataType::Int64)]),
    };

    let mut pass = ProjectionPushDown::new();
    pass.optimize(root, &mut lp, &mut ea).unwrap();

    assert_eq!(sorted_projection(&lp, left), vec![String::from("a")]);
    assert_eq!(sorted_projection(&lp, right), vec![String::from("b")]);
    match lp.get(hconcat) {
        IR::HConcat { schema, .. } => {
            assert_eq!(names_of(schema), vec![String::from("a"), String::from("b")]);
        },
        _ => panic!("expected the concatenation to survive"),
    }
}
