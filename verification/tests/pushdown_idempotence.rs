//! Running the pass twice: a fully pushed-down plan is a fixed point of
//! the observable scan state.

use dfplan::arena::{Arena, Node};
use dfplan::dtype::DataType;
use dfplan::expr::{AExpr, Operator};
use dfplan::ir::{FileScanKind, IR};
use dfplan::pushdown::ProjectionPushDown;
use dfplan::schema::Schema;

fn schema_of(cols: &[(&str, DataType)]) -> Schema {
    let mut s = Schema::new();
    for (name, dt) in cols {
        s.push_field(String::from(*name), *dt);
    }
    s
}

fn scan_projection(lp: &Arena<IR>, scan: Node) -> Option<Vec<String>> {
    match lp.get(scan) {
        IR::Scan { projection, .. } => projection.clone(),
        _ => panic!("expected a scan"),
    }
}

fn scan_output_names(lp: &Arena<IR>, scan: Node) -> Option<Vec<String>> {
    match lp.get(scan) {
        IR::Scan { output_schema, .. } => output_schema.as_ref().map(|s| {
            let mut out = Vec::new();
            let mut i = 0;
            while i < s.len() {
                out.push(s.get_at_index(i).name.clone());
                i += 1;
            }
            out
        }),
        _ => panic!("expected a scan"),
    }
}

#[test]
fn second_pass_reproduces_the_first_pass_scan_state() {
    let mut lp: Arena<IR> = Arena::new();
    let mut ea: Arena<AExpr> = Arena::new();

    let scan = lp.add(IR::Scan {
        file_schema: schema_of(&[
            ("a", DataType::Int64),
            ("b", DataType::Int64),
            ("c", DataType::Int64),
            ("d", DataType::Int64),
            ("e", DataType::Int64),
        ]),
        scan_kind: FileScanKind::Parquet,
        projection: None,
        output_schema: None,
        row_index: None,
        include_file_paths: None,
    });

    let b = ea.add(AExpr::Column(String::from("b")));
    let zero = ea.add(AExpr::Literal(0));
    let predicate = ea.add(AExpr::BinaryExpr { left: b, op: Operator::Gt, right: zero });
    let filter = lp.add(IR::Filter { input: scan, predicate });

    let a = ea.add(AExpr::Column(String::from("a")));
    let root = IR::Select {
        input: filter,
        expr: vec![a],
        schema: schema_of(&[("a", DataType::Int64)]),
    };

    let mut pass = ProjectionPushDown::new();
    let once = pass.optimize(root, &mut lp, &mut ea).unwrap();

    let projection_once = scan_projection(&lp, scan);
    let output_once = scan_output_names(&lp, scan);
    assert!(projection_once.is_some());

    let twice = pass.optimize(once, &mut lp, &mut ea).unwrap();

    assert_eq!(scan_projection(&lp, scan), projection_once);
    assert_eq!(scan_output_names(&lp, scan), output_once);

    // The root keeps projecting exactly "a" both times.
    match twice {
        IR::Select { expr, schema, .. } => {
            assert_eq!(expr.len(), 1);
            assert_eq!(schema.len(), 1);
            assert_eq!(schema.get_at_index(0).name, String::from("a"));
        },
        _ => panic!("expected a projection at the root"),
    }
}
