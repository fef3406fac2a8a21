//! Unit tests for the schema algebra and the column-accumulation
//! utilities.

use dfplan::arena::Arena;
use dfplan::columns::{get_scan_columns, split_acc_projections, update_scan_schema};
use dfplan::context::{
    ProjectionContext, ProjectionCopyState, add_expr_to_accumulated, add_str_to_accumulated,
    names_contains,
};
use dfplan::dtype::DataType;
use dfplan::error::PlanError;
use dfplan::expr::{AExpr, ColumnNode, Operator, column_node_to_name};
use dfplan::schema::Schema;

fn schema_of(cols: &[(&str, DataType)]) -> Schema {
    let mut s = Schema::new();
    for (name, dt) in cols {
        s.push_field(String::from(*name), *dt);
    }
    s
}

fn names_of(s: &Schema) -> Vec<String> {
    let mut out = Vec::new();
    let mut i = 0;
    while i < s.len() {
        out.push(s.get_at_index(i).name.clone());
        i += 1;
    }
    out
}

#[test]
fn with_column_appends_or_overwrites() {
    let mut s = schema_of(&[("a", DataType::Int64), ("b", DataType::String)]);
    s.with_column(String::from("c"), DataType::Boolean);
    assert_eq!(s.len(), 3);
    s.with_column(String::from("b"), DataType::Int32);
    assert_eq!(s.len(), 3);
    assert_eq!(s.get_at_index(1).dtype, DataType::Int32);
    assert_eq!(names_of(&s), vec![
        String::from("a"),
        String::from("b"),
        String::from("c")
    ]);
}

#[test]
fn shift_remove_keeps_relative_order() {
    let mut s = schema_of(&[
        ("a", DataType::Int64),
        ("b", DataType::Int64),
        ("c", DataType::Int64),
    ]);
    let removed = s.shift_remove(&String::from("b"));
    assert!(removed);
    assert_eq!(names_of(&s), vec![String::from("a"), String::from("c")]);
    assert!(!s.shift_remove(&String::from("zzz")));
}

#[test]
fn index_of_finds_first_match() {
    let s = schema_of(&[("a", DataType::Int64), ("b", DataType::Int64)]);
    assert_eq!(s.index_of(&String::from("b")), Some(1));
    assert_eq!(s.index_of(&String::from("x")), None);
    assert!(s.contains(&String::from("a")));
}

#[test]
fn accumulation_deduplicates_by_name() {
    let mut ea: Arena<AExpr> = Arena::new();
    let a1 = ea.add(AExpr::Column(String::from("a")));
    let b = ea.add(AExpr::Column(String::from("b")));
    let sum = ea.add(AExpr::BinaryExpr { left: a1, op: Operator::Plus, right: b });
    let a2 = ea.add(AExpr::Column(String::from("a")));
    let both = ea.add(AExpr::BinaryExpr { left: sum, op: Operator::Plus, right: a2 });

    let mut acc: Vec<ColumnNode> = Vec::new();
    let mut names: Vec<String> = Vec::new();
    add_expr_to_accumulated(both, &mut acc, &mut names, &ea);
    assert_eq!(names, vec![String::from("a"), String::from("b")]);
    assert_eq!(acc.len(), 2);
    assert_eq!(*column_node_to_name(acc[0], &ea), String::from("a"));
}

#[test]
fn add_str_is_a_no_op_without_active_pushdown() {
    let mut ea: Arena<AExpr> = Arena::new();
    let mut ctx = ProjectionContext::empty(ProjectionCopyState::start());
    add_str_to_accumulated(String::from("a"), &mut ctx, &mut ea);
    assert!(ctx.acc_projections.is_empty());
    assert_eq!(ea.len(), 0);

    // With the count-star flag the context counts as pushed down, so the
    // name is recorded.
    let mut ctx2 = ProjectionContext::empty(ProjectionCopyState {
        projections_seen: 0,
        is_count_star: true,
    });
    add_str_to_accumulated(String::from("a"), &mut ctx2, &mut ea);
    assert_eq!(ctx2.projected_names, vec![String::from("a")]);
    assert_eq!(ea.len(), 1);
    // Recording the same name twice changes nothing.
    add_str_to_accumulated(String::from("a"), &mut ctx2, &mut ea);
    assert_eq!(ctx2.projected_names.len(), 1);
}

#[test]
fn count_star_synthesis_picks_the_cheap_column() {
    let mut ea: Arena<AExpr> = Arena::new();
    let mut ctx = ProjectionContext::empty(ProjectionCopyState::start());
    let schema = schema_of(&[
        ("s", DataType::String),
        ("t", DataType::Binary),
        ("n", DataType::Date),
        ("u", DataType::Int8),
    ]);
    ctx.process_count_star_at_scan(&schema, &mut ea);
    assert_eq!(ctx.projected_names, vec![String::from("n")]);

    // A single-column schema uses that column whatever its type.
    let mut ctx2 = ProjectionContext::empty(ProjectionCopyState::start());
    let one = schema_of(&[("only", DataType::String)]);
    ctx2.process_count_star_at_scan(&one, &mut ea);
    assert_eq!(ctx2.projected_names, vec![String::from("only")]);

    // An empty schema is left alone.
    let mut ctx3 = ProjectionContext::empty(ProjectionCopyState::start());
    ctx3.process_count_star_at_scan(&Schema::new(), &mut ea);
    assert!(ctx3.projected_names.is_empty());
}

#[test]
fn get_scan_columns_strips_virtual_columns() {
    let mut ea: Arena<AExpr> = Arena::new();
    let mut acc: Vec<ColumnNode> = Vec::new();
    let mut names: Vec<String> = Vec::new();
    for name in ["row_nr", "a", "path"] {
        let node = ea.add(AExpr::Column(String::from(name)));
        acc.push(ColumnNode(node));
        names.push(String::from(name));
    }
    let row_index = String::from("row_nr");
    let file_path = String::from("path");
    let r = get_scan_columns(&acc, &ea, Some(&row_index), Some(&file_path), None).unwrap();
    assert_eq!(r, vec![String::from("a")]);

    let empty: Vec<ColumnNode> = Vec::new();
    assert!(get_scan_columns(&empty, &ea, None, None, None).is_none());
}

#[test]
fn get_scan_columns_normalizes_to_schema_order() {
    let mut ea: Arena<AExpr> = Arena::new();
    let mut acc: Vec<ColumnNode> = Vec::new();
    for name in ["c", "a"] {
        let node = ea.add(AExpr::Column(String::from(name)));
        acc.push(ColumnNode(node));
    }
    let schema = schema_of(&[
        ("a", DataType::Int64),
        ("b", DataType::Int64),
        ("c", DataType::Int64),
    ]);
    let r = get_scan_columns(&acc, &ea, None, None, Some(&schema)).unwrap();
    assert_eq!(r, vec![String::from("a"), String::from("c")]);
}

#[test]
fn split_acc_projections_partitions_by_child_schema() {
    let mut ea: Arena<AExpr> = Arena::new();
    let mut acc: Vec<ColumnNode> = Vec::new();
    for name in ["a", "x", "b"] {
        let node = ea.add(AExpr::Column(String::from(name)));
        acc.push(ColumnNode(node));
    }
    let down = schema_of(&[("a", DataType::Int64), ("b", DataType::Int64)]);
    let (pushed, local, names) = split_acc_projections(acc, &down, &ea, false);
    assert_eq!(names, vec![String::from("a"), String::from("b")]);
    assert_eq!(pushed.len(), 2);
    assert_eq!(local.len(), 1);
    assert_eq!(*column_node_to_name(local[0], &ea), String::from("x"));
}

#[test]
fn split_acc_projections_fast_path_resolves_everything_locally() {
    let mut ea: Arena<AExpr> = Arena::new();
    let mut acc: Vec<ColumnNode> = Vec::new();
    for name in ["a", "b"] {
        let node = ea.add(AExpr::Column(String::from(name)));
        acc.push(ColumnNode(node));
    }
    // As many accumulated columns as the child has: nothing to narrow.
    let down = schema_of(&[("a", DataType::Int64), ("b", DataType::Int64)]);
    let (pushed, local, names) = split_acc_projections(acc, &down, &ea, false);
    assert!(pushed.is_empty());
    assert!(names.is_empty());
    assert_eq!(local.len(), 2);
}

#[test]
fn update_scan_schema_rebuilds_in_requested_or_schema_order() {
    let mut ea: Arena<AExpr> = Arena::new();
    let mut acc: Vec<ColumnNode> = Vec::new();
    for name in ["c", "a"] {
        let node = ea.add(AExpr::Column(String::from(name)));
        acc.push(ColumnNode(node));
    }
    let schema = schema_of(&[
        ("a", DataType::Int64),
        ("b", DataType::String),
        ("c", DataType::Boolean),
    ]);
    let unsorted = update_scan_schema(&acc, &ea, &schema, false).unwrap();
    assert_eq!(names_of(&unsorted), vec![String::from("c"), String::from("a")]);
    assert_eq!(unsorted.get_at_index(0).dtype, DataType::Boolean);

    let sorted = update_scan_schema(&acc, &ea, &schema, true).unwrap();
    assert_eq!(names_of(&sorted), vec![String::from("a"), String::from("c")]);
}

#[test]
fn update_scan_schema_reports_the_missing_column() {
    let mut ea: Arena<AExpr> = Arena::new();
    let node = ea.add(AExpr::Column(String::from("ghost")));
    let acc = vec![ColumnNode(node)];
    let schema = schema_of(&[("a", DataType::Int64)]);
    match update_scan_schema(&acc, &ea, &schema, false) {
        Err(PlanError::ColumnNotFound(name)) => assert_eq!(name, String::from("ghost")),
        _ => panic!("expected a column-not-found error"),
    }
}

#[test]
fn plan_error_messages_name_the_problem() {
    let e = PlanError::ColumnNotFound(String::from("ghost"));
    assert_eq!(e.message(), String::from("column not found: ghost"));
    assert_eq!(
        PlanError::PlanTooDeep.message(),
        String::from("plan recursion depth limit reached")
    );
    assert_eq!(PlanError::MalformedPlan.message(), String::from("malformed plan"));
}

#[test]
fn names_contains_is_plain_membership() {
    let names = vec![String::from("a"), String::from("b")];
    assert!(names_contains(&names, &String::from("a")));
    assert!(!names_contains(&names, &String::from("z")));
}
