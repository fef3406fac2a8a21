//! The projection-pushdown optimizer: a recursive rewrite pass that walks
//! the plan graph top-down, determines the minimal set of columns each
//! subtree must materialize, and rewrites scan, projection, join and
//! group-by nodes so that unused columns are never read or computed.

use vstd::prelude::*;
use crate::arena::{Arena, Node};
use crate::columns::{
    acc_names_contain, acc_names_distinct, acc_nodes_ok, get_scan_columns, lemma_prefix_refl,
    lemma_prefix_trans, update_scan_schema,
};
use crate::context::{
    ProjectionContext, ProjectionCopyState, acc_wf, add_expr_to_accumulated,
    add_str_to_accumulated, count_star_field, lemma_acc_insert_all_wf, lemma_acc_wf_prefix,
    names_contain, names_contains,
};
use crate::error::PlanError;
use crate::expr::{
    AExpr, ColumnNode, column_node_name, column_node_to_name, expr_arena_wf, expr_output_name,
    is_column_node, leaf_columns, lemma_expr_arena_push, lemma_leaf_columns_are_columns,
    lemma_output_name_prefix, output_name,
};
use crate::ir::{
    FileScanKind, IR, JoinType, ir_wf, lemma_ir_wf_mono, lemma_plan_arena_ea_mono,
    lemma_plan_arena_push, lemma_plan_arena_update, lemma_plan_wf_schemas, node_schema,
    node_schema_spec, nodes_below, plan_arena_wf,
};
use crate::schema::{Field, Schema, distinct_names, field_named, seq_contains_name};

verus! {

/// The defensive ceiling on plan-tree depth. Recursion gives up with a
/// typed error instead of exhausting the call stack on a pathologically
/// deep plan.
pub const MAX_PLAN_DEPTH: usize = 4096;

/// Keeps the fields of `schema` whose names occur in `names`, in schema
/// order.
fn filter_schema_by_names(schema: &Schema, names: &Vec<String>) -> (r: Schema)
    requires
        schema.wf(),
    ensures
        r@ == schema@.filter(|f: Field| names_contain(names@, f.name@)),
        r.wf(),
{
    let ghost memberp = |f: Field| names_contain(names@, f.name@);
    let m = schema.len();
    let mut fields: Vec<Field> = Vec::new();
    let mut j: usize = 0;
    proof {
        assert(schema@.take(0) =~= Seq::<Field>::empty());
        assert(schema@.take(0).filter(memberp) =~= Seq::<Field>::empty());
    }
    while j < m
        invariant
            j <= m,
            m == schema@.len(),
            schema.wf(),
            memberp == (|f: Field| names_contain(names@, f.name@)),
            fields@ == schema@.take(j as int).filter(memberp),
        decreases m - j,
    {
        let f = schema.get_at_index(j);
        let keep = names_contains(names, &f.name);
        proof {
            let t = schema@.take(j as int);
            assert(schema@.take(j as int + 1) =~= t.push(schema@[j as int]));
            crate::columns::lemma_filter_push(t, memberp, schema@[j as int]);
            assert(keep == memberp(schema@[j as int]));
        }
        if keep {
            fields.push(f.duplicate());
        }
        j += 1;
    }
    proof {
        assert(schema@.take(m as int) =~= schema@);
        crate::columns::lemma_filter_distinct_names(schema@, memberp);
    }
    Schema { fields }
}

/// The schema an in-memory scan is narrowed to: the accumulated columns,
/// in accumulation order, with their types looked up in the scan's own
/// schema. This is the `output_schema` the in-memory scan rule promises.
pub open spec fn df_scan_output(ea: Seq<AExpr>, acc: Seq<ColumnNode>, schema: Seq<Field>) -> Seq<
    Field,
> {
    acc.map_values(|c: ColumnNode| field_named(schema, column_node_name(ea, c)))
}

/// The input schema after a virtual column's cull: when the named column
/// exists in the output schema (or there is no narrowed output), nothing
/// happens; a named column that dropped out of the narrowed output is
/// removed from the input schema too (so positional projection indices
/// recomputed against the reduced schema stay consistent) and the flag is
/// cleared.
pub open spec fn virtual_cull_ok(
    fs0: Seq<Field>,
    os2: Option<Schema>,
    name: Option<String>,
    fs1: Seq<Field>,
    name1: Option<String>,
) -> bool {
    match name {
        Some(n) => {
            if os2 matches Some(os) && !seq_contains_name(os@, n@) {
                &&& name1 is None
                &&& if seq_contains_name(fs0, n@) {
                    exists|i: int|
                        0 <= i < fs0.len() && fs0[i].name@ == n@ && fs1 == fs0.remove(i)
                } else {
                    fs1 == fs0
                }
            } else {
                &&& name1 == name
                &&& fs1 == fs0
            }
        },
        None => name1 is None && fs1 == fs0,
    }
}

/// The narrowed output schema after the file-path column is moved to the
/// very end, where the reader appends it.
pub open spec fn file_path_moved_ok(
    base: Seq<Field>,
    file_path: Option<String>,
    out: Seq<Field>,
) -> bool {
    match file_path {
        Some(n) => {
            if seq_contains_name(base, n@) {
                exists|i: int|
                    0 <= i < base.len() && base[i].name@ == n@ && out == base.remove(i).push(
                        base[i],
                    )
            } else {
                out == base
            }
        },
        None => out == base,
    }
}

/// The view of an optional owned name.
pub open spec fn opt_string_view(o: Option<String>) -> Option<Seq<char>> {
    match o {
        Some(s) => Some(s@),
        None => None,
    }
}

/// Exactly how a file scan is rewritten.
/// - A scan whose kind forbids pushdown keeps its projection and output
///   schema.
/// - A count-star query reads exactly one synthesized cheap column — the
///   `count_star_field` rule — or nothing when the file schema is empty.
/// - With accumulated columns, the projection becomes exactly their
///   physical names (virtual columns stripped) and the output schema
///   exactly their fields, re-sorted into file order when the reader
///   requires it and with a file-path column moved last; a name missing
///   from the file schema is the error, and the only error.
/// - With nothing accumulated, any earlier narrowing is reset: everything
///   is read.
/// In every case a row-index or file-path column that did not survive into
/// the output schema is culled from the input schema and its flag cleared.
pub open spec fn scan_rewrite_ok(
    is_count_star: bool,
    ea: Seq<AExpr>,
    acc: Seq<ColumnNode>,
    ir: IR,
    r: Result<IR, PlanError>,
) -> bool {
    ir matches IR::Scan {
        file_schema,
        scan_kind,
        projection,
        output_schema,
        row_index,
        include_file_paths,
    } ==> {
        let allows = scan_kind.spec_allows_projection_pushdown();
        let all_present = forall|k: int|
            0 <= k < acc.len() ==> seq_contains_name(
                file_schema@,
                column_node_name(ea, #[trigger] acc[k]),
            );
        match r {
            Ok(res) => res matches IR::Scan {
                file_schema: fs2,
                scan_kind: k2,
                projection: p2,
                output_schema: os2,
                row_index: ri2,
                include_file_paths: fp2,
            } && {
                &&& k2 == scan_kind
                &&& (!allows ==> p2 == projection && os2 == output_schema)
                &&& (allows && is_count_star && file_schema@.len() == 0 ==> (p2 matches Some(p)
                    && p@.len() == 0) && (os2 matches Some(os) && os@.len() == 0))
                &&& (allows && is_count_star && file_schema@.len() > 0 ==> (p2 matches Some(p)
                    && p@ == seq![count_star_field(file_schema@).name]) && (os2 matches Some(os)
                    && os@ == seq![count_star_field(file_schema@)]))
                &&& (allows && !is_count_star && acc.len() == 0 ==> p2 is None && os2 is None)
                &&& (allows && !is_count_star && acc.len() > 0 ==> {
                    &&& all_present
                    &&& (p2 matches Some(p) && p@ == crate::columns::physical_names(
                        ea,
                        acc,
                        opt_string_view(row_index),
                        opt_string_view(include_file_paths),
                    ))
                    &&& (os2 matches Some(os) && {
                        let base = if scan_kind.spec_sort_projection(row_index is Some) {
                            file_schema@.filter(
                                |f: Field| acc_names_contain(ea, acc, f.name@),
                            )
                        } else {
                            df_scan_output(ea, acc, file_schema@)
                        };
                        file_path_moved_ok(base, include_file_paths, os@)
                    })
                })
                &&& exists|mid: Seq<Field>|
                    virtual_cull_ok(file_schema@, os2, row_index, mid, ri2) && virtual_cull_ok(
                        mid,
                        os2,
                        include_file_paths,
                        fs2@,
                        fp2,
                    )
            },
            Err(e) => {
                &&& allows
                &&& !is_count_star
                &&& acc.len() > 0
                &&& !all_present
                &&& e is ColumnNotFound
            },
        }
    }
}

/// The expression/field pairs a projection keeps: exactly those whose
/// output field is named among the requested names, in their original
/// order. The two sequences stay paired position by position.
pub open spec fn select_kept(
    exprs: Seq<Node>,
    fields: Seq<Field>,
    names: Seq<String>,
) -> (Seq<Node>, Seq<Field>)
    decreases exprs.len(),
{
    if exprs.len() == 0 || fields.len() == 0 {
        (Seq::<Node>::empty(), Seq::<Field>::empty())
    } else {
        let rest = select_kept(exprs.drop_first(), fields.drop_first(), names);
        if names_contain(names, fields[0].name@) {
            (seq![exprs[0]] + rest.0, seq![fields[0]] + rest.1)
        } else {
            rest
        }
    }
}

/// What a column stack's rebuilt schema holds: the rewritten input's
/// columns and the surviving stacked expressions' output columns, and
/// nothing else.
pub open spec fn stacked_ok(
    ea: Seq<AExpr>,
    sigma: Seq<Field>,
    kept: Seq<Node>,
    out: Seq<Field>,
) -> bool {
    &&& distinct_names(out)
    &&& forall|i: int|
        0 <= i < out.len() ==> (seq_contains_name(sigma, (#[trigger] out[i]).name@) || exists|
            k: int,
        |
            0 <= k < kept.len() && output_name(ea, kept[k].0 as int) == out[i].name@)
    &&& forall|i: int|
        0 <= i < sigma.len() ==> seq_contains_name(out, (#[trigger] sigma[i]).name@)
    &&& forall|k: int|
        0 <= k < kept.len() ==> seq_contains_name(
            out,
            output_name(ea, (#[trigger] kept[k]).0 as int),
        )
}

/// True when `n` names a leaf column of one of the key expressions.
pub open spec fn key_leaf_name(ea: Seq<AExpr>, keys: Seq<Node>, n: Seq<char>) -> bool {
    exists|j: int, k: int|
        #![trigger leaf_columns(ea, keys[j].0 as int)[k]]
        0 <= j < keys.len() && 0 <= k < leaf_columns(ea, keys[j].0 as int).len()
            && column_node_name(ea, leaf_columns(ea, keys[j].0 as int)[k]) == n
}

/// The projection-pushdown pass. `is_count_star` is set by the caller when
/// the query is known to need only a row count; scans then read a single
/// cheap stand-in column instead of everything.
pub struct ProjectionPushDown {
    pub is_count_star: bool,
}

impl ProjectionPushDown {
    /// A pass in the ordinary mode: narrow to what is used.
    pub fn new() -> (r: ProjectionPushDown)
        ensures
            !r.is_count_star,
    {
        ProjectionPushDown { is_count_star: false }
    }

    /// Routes one accumulated column to whichever join side's schema
    /// contains it (both, when the name exists on both sides), recording it
    /// in that side's pushdown set and name set unless already recorded.
    /// Returns whether at least one side took it and whether it was already
    /// recorded somewhere.
    pub fn join_push_down(
        &mut self,
        schema_left: &Schema,
        schema_right: &Schema,
        proj: ColumnNode,
        pushdown_left: &mut Vec<ColumnNode>,
        pushdown_right: &mut Vec<ColumnNode>,
        names_left: &mut Vec<String>,
        names_right: &mut Vec<String>,
        expr_arena: &Arena<AExpr>,
    ) -> (r: (bool, bool))
        requires
            is_column_node(expr_arena@, proj),
        ensures
            ({
                let n = column_node_name(expr_arena@, proj);
                let was_l = names_contain(old(names_left)@, n);
                let was_r = names_contain(old(names_right)@, n);
                let push_l = seq_contains_name(schema_left@, n) && !was_l;
                let push_r = seq_contains_name(schema_right@, n) && !was_r;
                &&& r.1 == (was_l || was_r)
                &&& r.0 == (push_l || push_r)
                &&& (push_l ==> final(pushdown_left)@ == old(pushdown_left)@.push(proj)
                    && final(names_left)@ == old(names_left)@.push(
                    expr_arena@[proj.0.0 as int]->Column_0,
                ))
                &&& (!push_l ==> final(pushdown_left)@ == old(pushdown_left)@
                    && final(names_left)@ == old(names_left)@)
                &&& (push_r ==> final(pushdown_right)@ == old(pushdown_right)@.push(proj)
                    && final(names_right)@ == old(names_right)@.push(
                    expr_arena@[proj.0.0 as int]->Column_0,
                ))
                &&& (!push_r ==> final(pushdown_right)@ == old(pushdown_right)@
                    && final(names_right)@ == old(names_right)@)
            }),
    {
        let mut pushed_at_least_one = false;
        let mut already_projected = false;

        let name = column_node_to_name(proj, expr_arena);
        let is_in_left = names_contains(names_left, name);
        let is_in_right = names_contains(names_right, name);
        already_projected = is_in_left || is_in_right;

        if schema_left.contains(name) && !is_in_left {
            names_left.push(name.clone());
            pushdown_left.push(proj);
            pushed_at_least_one = true;
        }
        if schema_right.contains(name) && !is_in_right {
            names_right.push(name.clone());
            pushdown_right.push(proj);
            pushed_at_least_one = true;
        }

        (pushed_at_least_one, already_projected)
    }

    /// Takes the child node out of its arena slot, pushes the context down
    /// into it, and puts the rewritten node back. While the child is out,
    /// its slot holds the `Invalid` placeholder, so an abort mid-rewrite
    /// leaves the arena well-defined.
    fn pushdown_and_assign(
        &mut self,
        input: Node,
        ctx: ProjectionContext,
        lp_arena: &mut Arena<IR>,
        expr_arena: &mut Arena<AExpr>,
        fuel: usize,
    ) -> (r: Result<(), PlanError>)
        requires
            expr_arena_wf(old(expr_arena)@),
            plan_arena_wf(old(lp_arena)@, old(expr_arena)@.len() as int),
            ctx.wf(old(expr_arena)@),
            input.0 < old(lp_arena)@.len(),
        ensures
            old(expr_arena)@.is_prefix_of(final(expr_arena)@),
            old(lp_arena)@.len() <= final(lp_arena)@.len(),
            expr_arena_wf(final(expr_arena)@),
            plan_arena_wf(final(lp_arena)@, final(expr_arena)@.len() as int),
        decreases fuel, 0int,
    {
        if fuel == 0 {
            return Err(PlanError::PlanTooDeep);
        }
        let alp = lp_arena.take_with(input, IR::Invalid);
        proof {
            lemma_plan_arena_update(old(lp_arena)@, old(expr_arena)@.len() as int, input.0 as int, IR::Invalid);
            assert(ir_wf(alp, old(lp_arena)@.len() as int, old(expr_arena)@.len() as int));
        }
        match self.push_down(alp, ctx, lp_arena, expr_arena, fuel - 1) {
            Ok(lp) => {
                lp_arena.replace(input, lp);
                proof {
                    let lpv = final(lp_arena)@;
                    lemma_plan_arena_update(
                        lpv.update(input.0 as int, IR::Invalid).update(
                            input.0 as int,
                            lpv[input.0 as int],
                        ),
                        final(expr_arena)@.len() as int,
                        input.0 as int,
                        lpv[input.0 as int],
                    );
                }
                Ok(())
            },
            Err(e) => Err(e),
        }
    }

    /// Wraps a finished node in an explicit column projection built from
    /// the accumulated set, when the set is non-empty: the node itself goes
    /// into the arena unmodified and a projection of the accumulated
    /// columns is returned in its place.
    fn finish_node_simple_projection(
        &mut self,
        local_projections: &Vec<ColumnNode>,
        lp: IR,
        lp_arena: &mut Arena<IR>,
        expr_arena: &Arena<AExpr>,
        fuel: usize,
    ) -> (r: Result<IR, PlanError>)
        requires
            expr_arena_wf(expr_arena@),
            plan_arena_wf(old(lp_arena)@, expr_arena@.len() as int),
            ir_wf(lp, old(lp_arena)@.len() as int, expr_arena@.len() as int),
            acc_nodes_ok(expr_arena@, local_projections@),
            acc_names_distinct(expr_arena@, local_projections@),
        ensures
            old(lp_arena)@.len() <= final(lp_arena)@.len(),
            plan_arena_wf(final(lp_arena)@, expr_arena@.len() as int),
            r matches Ok(ir2) ==> ir_wf(
                ir2,
                final(lp_arena)@.len() as int,
                expr_arena@.len() as int,
            ),
            local_projections@.len() == 0 ==> final(lp_arena)@ == old(lp_arena)@ && r == Ok::<
                IR,
                PlanError,
            >(lp),
            local_projections@.len() > 0 && r is Ok ==> {
                &&& final(lp_arena)@ == old(lp_arena)@.push(lp)
                &&& (r matches Ok(ir2) && (ir2 matches IR::SimpleProjection {
                    input: n,
                    columns,
                } && n.0 == old(lp_arena)@.len() && (node_schema_spec(
                    final(lp_arena)@,
                    n,
                    fuel as int,
                ) matches Some(sigma) && columns@ == local_projections@.map_values(
                    |c: ColumnNode| field_named(sigma, column_node_name(expr_arena@, c)),
                ) && forall|k: int|
                    0 <= k < local_projections@.len() ==> seq_contains_name(
                        sigma,
                        column_node_name(expr_arena@, #[trigger] local_projections@[k]),
                    ))))
            },
            // Failure is owed only to a spent recursion budget, a
            // placeholder in the plan, or a projected name the node's
            // schema does not hold.
            local_projections@.len() > 0 && r is Err ==> {
                &&& final(lp_arena)@ == old(lp_arena)@.push(lp)
                &&& match node_schema_spec(
                    final(lp_arena)@,
                    Node(old(lp_arena)@.len() as usize),
                    fuel as int,
                ) {
                    Some(sigma) => (exists|k: int|
                        0 <= k < local_projections@.len() && !seq_contains_name(
                            sigma,
                            column_node_name(expr_arena@, #[trigger] local_projections@[k]),
                        )) && (r matches Err(e) && e is ColumnNotFound),
                    None => r matches Err(e) && (e is PlanTooDeep || e is MalformedPlan),
                }
            },
    {
        if local_projections.is_empty() {
            return Ok(lp);
        }
        let node = lp_arena.add(lp);
        proof {
            lemma_ir_wf_mono(
                lp,
                old(lp_arena)@.len() as int,
                expr_arena@.len() as int,
                old(lp_arena)@.len() as int + 1,
                expr_arena@.len() as int,
            );
            lemma_plan_arena_push(old(lp_arena)@, expr_arena@.len() as int, lp);
            lemma_plan_wf_schemas(final(lp_arena)@, expr_arena@.len() as int);
        }
        let schema = match node_schema(lp_arena, node, fuel) {
            Ok(s) => s,
            Err(e) => {
                return Err(e);
            },
        };
        let columns = match update_scan_schema(local_projections, expr_arena, schema, false) {
            Ok(c) => c,
            Err(e) => {
                return Err(e);
            },
        };
        Ok(IR::SimpleProjection { input: node, columns })
    }

    /// The per-operator dispatcher: a total match over every plan operator.
    /// Each arm either terminates pushdown and resolves the accumulated
    /// columns locally, or augments the context with its own column needs
    /// and recurses into its children.
    pub fn push_down(
        &mut self,
        logical_plan: IR,
        ctx: ProjectionContext,
        lp_arena: &mut Arena<IR>,
        expr_arena: &mut Arena<AExpr>,
        fuel: usize,
    ) -> (r: Result<IR, PlanError>)
        requires
            expr_arena_wf(old(expr_arena)@),
            plan_arena_wf(old(lp_arena)@, old(expr_arena)@.len() as int),
            ir_wf(logical_plan, old(lp_arena)@.len() as int, old(expr_arena)@.len() as int),
            ctx.wf(old(expr_arena)@),
        ensures
            old(expr_arena)@.is_prefix_of(final(expr_arena)@),
            old(lp_arena)@.len() <= final(lp_arena)@.len(),
            expr_arena_wf(final(expr_arena)@),
            plan_arena_wf(final(lp_arena)@, final(expr_arena)@.len() as int),
            r matches Ok(ir2) ==> ir_wf(
                ir2,
                final(lp_arena)@.len() as int,
                final(expr_arena)@.len() as int,
            ),
            // An in-memory scan is rewritten exactly: count-star synthesis
            // first, then the output schema is rebuilt from the accumulated
            // columns whenever pushdown is active.
            logical_plan matches IR::DataFrameScan { schema, output_schema } ==> {
                let fires = old(self).is_count_star && ctx.acc_projections@.len() == 0
                    && schema@.len() > 0;
                let has_pd = ctx.acc_projections@.len() > 0 || ctx.inner.is_count_star;
                &&& (fires ==> (r matches Ok(res) && (res matches IR::DataFrameScan {
                    schema: s2,
                    output_schema: os2,
                } && s2 == schema && (os2 matches Some(o) && o@ == seq![
                    count_star_field(schema@),
                ]))))
                &&& (!fires && has_pd ==> {
                    if forall|k: int|
                        0 <= k < ctx.acc_projections@.len() ==> seq_contains_name(
                            schema@,
                            column_node_name(
                                old(expr_arena)@,
                                #[trigger] ctx.acc_projections@[k],
                            ),
                        ) {
                        r matches Ok(res) && (res matches IR::DataFrameScan {
                            schema: s2,
                            output_schema: os2,
                        } && s2 == schema && (os2 matches Some(o) && o@ == df_scan_output(
                            old(expr_arena)@,
                            ctx.acc_projections@,
                            schema@,
                        )))
                    } else {
                        r matches Err(e) && e is ColumnNotFound
                    }
                })
                &&& (!fires && !has_pd ==> r == Ok::<IR, PlanError>(logical_plan))
            },
            // A projection re-emits itself with exactly the requested
            // expressions (all of them when nothing was accumulated).
            logical_plan matches IR::Select { expr, input, schema } ==> (r matches Ok(ir2) ==> (
            ir2 matches IR::Select { input: i2, expr: e2, schema: s2 } && i2 == input && (if ctx.acc_projections@.len() > 0 {
                e2@ == select_kept(expr@, schema@, ctx.projected_names@).0 && s2@ == select_kept(
                    expr@,
                    schema@,
                    ctx.projected_names@,
                ).1
            } else {
                e2@ == expr@ && s2@ == schema@
            }))),
            // A by-name projection re-emits itself with exactly the
            // requested names.
            logical_plan matches IR::SimpleProjection { columns, input } ==> (r matches Ok(ir2)
                ==> (ir2 matches IR::SimpleProjection { input: i2, columns: c2 } && i2 == input
                && c2@ == (if ctx.acc_projections@.len() > 0 {
                columns@.filter(|f: Field| names_contain(ctx.projected_names@, f.name@))
            } else {
                columns@
            }))),
            // A group-by keeps its keys and exactly the requested
            // aggregations.
            logical_plan matches IR::GroupBy { input, keys, aggs, schema } ==> (r matches Ok(ir2)
                ==> (ir2 matches IR::GroupBy { input: i2, keys: k2, aggs: a2, schema: s2 } && i2
                == input && k2 == keys && (if ctx.acc_projections@.len() > 0 {
                a2@ == select_kept(
                    aggs@,
                    schema@.skip(keys@.len() as int),
                    ctx.projected_names@,
                ).0 && s2@ == schema@.take(keys@.len() as int) + select_kept(
                    aggs@,
                    schema@.skip(keys@.len() as int),
                    ctx.projected_names@,
                ).1
            } else {
                a2@ == aggs@ && s2@ == schema@
            }))),
            // A join keeps its inputs, keys and kind; its schema is the
            // old schema filtered to a request set holding every
            // accumulated column and nothing beyond those and the keys'
            // leaf columns.
            logical_plan matches IR::Join {
                input_left,
                input_right,
                left_on,
                right_on,
                schema,
                how,
            } ==> (r matches Ok(ir2) ==> (ir2 matches IR::Join {
                input_left: l2,
                input_right: r2s,
                left_on: lo2,
                right_on: ro2,
                schema: s2,
                how: h2,
            } && l2 == input_left && r2s == input_right && lo2@ == left_on@ && ro2@ == right_on@
                && h2 == how && (if ctx.acc_projections@.len() == 0 {
                s2@ == schema@
            } else {
                exists|req: Seq<String>|
                    #![trigger req.len()]
                    {
                        &&& s2@ == schema@.filter(|f: Field| names_contain(req, f.name@))
                        &&& forall|k: int|
                            0 <= k < ctx.acc_projections@.len() ==> names_contain(
                                req,
                                column_node_name(
                                    old(expr_arena)@,
                                    #[trigger] ctx.acc_projections@[k],
                                ),
                            )
                        &&& forall|x: int|
                            0 <= x < req.len() ==> (names_contain(
                                ctx.projected_names@,
                                (#[trigger] req[x])@,
                            ) || key_leaf_name(old(expr_arena)@, left_on@, req[x]@) || (
                            !how.spec_is_semi_anti() && key_leaf_name(
                                old(expr_arena)@,
                                right_on@,
                                req[x]@,
                            )))
                    }
            }))),
            // A column stack keeps exactly the requested stacked
            // expressions; its schema holds the rewritten input's columns
            // plus those outputs.
            logical_plan matches IR::HStack { input, exprs, schema } ==> (r matches Ok(ir2) ==> (
            ir2 matches IR::HStack { input: i2, exprs: e2, schema: s2 } && i2 == input && e2@ == (
            if ctx.acc_projections@.len() > 0 {
                exprs@.filter(
                    |e: Node|
                        names_contain(
                            ctx.projected_names@,
                            output_name(old(expr_arena)@, e.0 as int),
                        ),
                )
            } else {
                exprs@
            }) && (node_schema_spec(final(lp_arena)@, input, fuel as int) matches Some(sigma)
                && stacked_ok(old(expr_arena)@, sigma, e2@, s2@)))),
            // An external-context node's merged schema starts with the
            // rewritten input's columns and holds, beyond them, exactly
            // the context fields the input does not already supply.
            logical_plan matches IR::ExtContext { input, contexts, schema } ==> (r matches Ok(
                ir2,
            ) ==> (ir2 matches IR::ExtContext { input: i2, contexts: c2, schema: s2 } && i2
                == input && c2@ == contexts@ && (node_schema_spec(
                final(lp_arena)@,
                input,
                fuel as int,
            ) matches Some(sigma0) && {
                &&& sigma0.is_prefix_of(s2@)
                &&& distinct_names(s2@)
                &&& forall|j: int|
                    0 <= j < contexts@.len() ==> (node_schema_spec(
                        final(lp_arena)@,
                        #[trigger] contexts@[j],
                        fuel as int,
                    ) matches Some(cs) ==> forall|x: int|
                        0 <= x < cs.len() ==> seq_contains_name(s2@, (#[trigger] cs[x]).name@))
                &&& forall|x: int|
                    0 <= x < s2@.len() ==> (seq_contains_name(
                        sigma0,
                        (#[trigger] s2@[x]).name@,
                    ) || exists|j: int|
                        #![trigger contexts@[j]]
                        0 <= j < contexts@.len() && (node_schema_spec(
                            final(lp_arena)@,
                            contexts@[j],
                            fuel as int,
                        ) matches Some(cs) && seq_contains_name(cs, s2@[x].name@)))
            }))),
            // A horizontal concatenation's schema holds, with pushdown
            // active, exactly what the rewritten inputs now produce.
            logical_plan matches IR::HConcat { inputs, schema } ==> (r matches Ok(ir2) ==> (ir2
            matches IR::HConcat { inputs: in2, schema: s2 } && in2@ == inputs@ && (if ctx.acc_projections@.len() == 0 {
                s2@ == schema@
            } else {
                &&& distinct_names(s2@)
                &&& forall|m: int|
                    0 <= m < inputs@.len() ==> node_schema_spec(
                        final(lp_arena)@,
                        #[trigger] inputs@[m],
                        fuel as int,
                    ) is Some
                &&& forall|m: int|
                    0 <= m < inputs@.len() ==> (node_schema_spec(
                        final(lp_arena)@,
                        #[trigger] inputs@[m],
                        fuel as int,
                    ) matches Some(cs) ==> forall|x: int|
                        0 <= x < cs.len() ==> seq_contains_name(s2@, (#[trigger] cs[x]).name@))
                &&& forall|x: int|
                    0 <= x < s2@.len() ==> exists|m: int|
                        #![trigger inputs@[m]]
                        0 <= m < inputs@.len() && (node_schema_spec(
                            final(lp_arena)@,
                            inputs@[m],
                            fuel as int,
                        ) matches Some(cs) && seq_contains_name(cs, (#[trigger] s2@[x]).name@))
            }))),
            // Pass-through operators re-emit themselves unchanged; their
            // rewriting happens in the arena slots below them.
            (logical_plan is Sort || logical_plan is Filter || logical_plan is Distinct
                || logical_plan is Slice || logical_plan is Sink || logical_plan is MergeSorted
                || logical_plan is Union || logical_plan is SinkMultiple) ==> (r matches Ok(ir2)
                ==> ir2 == logical_plan),
            // A file scan is a leaf: the arenas are untouched and the
            // rewrite is exactly the scan rule.
            logical_plan matches IR::Scan {
                file_schema,
                scan_kind,
                projection,
                output_schema,
                row_index,
                include_file_paths,
            } ==> {
                &&& final(expr_arena)@ == old(expr_arena)@
                &&& final(lp_arena)@ == old(lp_arena)@
                &&& scan_rewrite_ok(
                    old(self).is_count_star,
                    old(expr_arena)@,
                    ctx.acc_projections@,
                    logical_plan,
                    r,
                )
            },
            // A cache is a materialization boundary: it is never rewritten
            // in place. With no accumulated columns it is returned as is;
            // otherwise the unmodified cache goes into the arena and an
            // explicit projection of the accumulated columns wraps it.
            logical_plan matches IR::Cache { input, id } ==> {
                &&& (ctx.acc_projections@.len() == 0 ==> r == Ok::<IR, PlanError>(logical_plan)
                    && final(lp_arena)@ == old(lp_arena)@ && final(expr_arena)@ == old(
                    expr_arena,
                )@)
                &&& (ctx.acc_projections@.len() > 0 && r is Ok ==> final(lp_arena)@
                    == old(lp_arena)@.push(logical_plan) && (r matches Ok(ir2) && (ir2 matches
                    IR::SimpleProjection { input: n, columns } && n.0 == old(lp_arena)@.len() && (
                    node_schema_spec(final(lp_arena)@, n, fuel as int) matches Some(sigma)
                        && columns@ == ctx.acc_projections@.map_values(
                        |c: ColumnNode|
                            field_named(sigma, column_node_name(old(expr_arena)@, c)),
                    ) && forall|k: int|
                        0 <= k < ctx.acc_projections@.len() ==> seq_contains_name(
                            sigma,
                            column_node_name(old(expr_arena)@, #[trigger] ctx.acc_projections@[k]),
                        )))))
            },
            // An opaque transformation restarts the walk below with a
            // fresh context; the accumulated columns resolve in a wrapper
            // over it, exactly as at a cache.
            logical_plan matches IR::MapFunction { input } ==> {
                &&& (ctx.acc_projections@.len() == 0 && r is Ok ==> r == Ok::<IR, PlanError>(
                    logical_plan,
                ))
                &&& (ctx.acc_projections@.len() > 0 && r is Ok ==> (r matches Ok(ir2) && (ir2
                matches IR::SimpleProjection { input: n, columns } && n.0 + 1
                    == final(lp_arena)@.len() && final(lp_arena)@[n.0 as int] == logical_plan && (
                node_schema_spec(final(lp_arena)@, n, fuel as int) matches Some(sigma) && columns@
                    == ctx.acc_projections@.map_values(
                    |c: ColumnNode| field_named(sigma, column_node_name(old(expr_arena)@, c)),
                )))))
            },
        decreases fuel, 3int,
    {
        let ghost ea0 = old(expr_arena)@;
        let ghost ctx0 = ctx;
        let mut ctx = ctx;
        match logical_plan {
            IR::Select { expr, input, schema } => {
                self.process_projection(input, expr, schema, ctx, lp_arena, expr_arena, fuel)
            },
            IR::SimpleProjection { columns, input } => {
                self.process_simple_projection(input, columns, ctx, lp_arena, expr_arena, fuel)
            },
            IR::DataFrameScan { schema, mut output_schema } => {
                let ghost fires = self.is_count_star && ctx0.acc_projections@.len() == 0
                    && schema@.len() > 0;
                if self.is_count_star {
                    ctx.process_count_star_at_scan(&schema, expr_arena);
                }
                proof {
                    if fires {
                        crate::context::lemma_count_star_field_is_entry(schema@);
                        let f = count_star_field(schema@);
                        let j = choose|j: int| 0 <= j < schema@.len() && schema@[j] == f;
                        assert(seq_contains_name(schema@, f.name@));
                    }
                    if !fires {
                        assert(ctx.acc_projections@ == ctx0.acc_projections@);
                        assert(expr_arena@ == ea0);
                    }
                    crate::columns::lemma_acc_wf_parts(
                        expr_arena@,
                        ctx.acc_projections@,
                        ctx.projected_names@,
                    );
                }
                if ctx.has_pushed_down() {
                    let os = match update_scan_schema(
                        &ctx.acc_projections,
                        expr_arena,
                        &schema,
                        false,
                    ) {
                        Ok(s) => s,
                        Err(e) => {
                            proof {
                                if fires {
                                    // The synthesized column is a schema
                                    // entry, so the lookup cannot miss.
                                    let ea2 = expr_arena@;
                                    let f = count_star_field(schema@);
                                    let k = choose|k: int|
                                        0 <= k < ctx.acc_projections@.len()
                                            && !seq_contains_name(
                                            schema@,
                                            column_node_name(
                                                ea2,
                                                ctx.acc_projections@[k],
                                            ),
                                        );
                                    crate::arena::lemma_arena_len_bound(expr_arena);
                                    assert(ea0.len() <= usize::MAX);
                                    assert(ctx.acc_projections@[0] == ColumnNode(
                                        Node(ea0.len() as usize),
                                    ));
                                    assert(ea2 == ea0.push(AExpr::Column(f.name)));
                                    assert(ea2[ea0.len() as int] == AExpr::Column(f.name));
                                    assert(column_node_name(ea2, ctx.acc_projections@[0])
                                        == f.name@);
                                    assert(false);
                                }
                            }
                            return Err(e);
                        },
                    };
                    output_schema = Some(os);
                    proof {
                        let ea2 = expr_arena@;
                        if fires {
                            let f = count_star_field(schema@);
                            crate::schema::lemma_field_named(schema@, f.name@);
                            let j = choose|j: int|
                                0 <= j < schema@.len() && schema@[j] == f;
                            let jn = choose|jn: int|
                                0 <= jn < schema@.len() && schema@[jn].name@ == f.name@;
                            assert(schema@[jn] == schema@[j]);
                            assert(field_named(schema@, f.name@) == f);
                            let mapped = ctx.acc_projections@.map_values(
                                |c: ColumnNode|
                                    field_named(schema@, column_node_name(ea2, c)),
                            );
                            assert(mapped.len() == 1);
                            crate::arena::lemma_arena_len_bound(expr_arena);
                            assert(ea0.len() <= usize::MAX);
                            assert(ctx.acc_projections@[0] == ColumnNode(
                                Node(ea0.len() as usize),
                            ));
                            assert(ea2 == ea0.push(AExpr::Column(f.name)));
                            assert(ea2[ea0.len() as int] == AExpr::Column(f.name));
                            assert(column_node_name(ea2, ctx.acc_projections@[0]) == f.name@);
                            assert(mapped[0] == f);
                            assert(os@ =~= seq![f]);
                        }
                    }
                }
                proof {
                    if fires {
                        crate::columns::lemma_push_prefix(
                            ea0,
                            AExpr::Column(count_star_field(schema@).name),
                        );
                    } else {
                        lemma_prefix_refl(ea0);
                    }
                }
                Ok(IR::DataFrameScan { schema, output_schema })
            },
            IR::Scan {
                file_schema,
                scan_kind,
                projection,
                output_schema,
                row_index,
                include_file_paths,
            } => {
                self.process_scan(
                    file_schema,
                    scan_kind,
                    projection,
                    output_schema,
                    row_index,
                    include_file_paths,
                    ctx,
                    expr_arena,
                )
            },
            IR::Sort { input, by_column } => {
                if ctx.has_pushed_down() {
                    let n = by_column.len();
                    let mut i: usize = 0;
                    while i < n
                        invariant
                            i <= n,
                            n == by_column@.len(),
                            nodes_below(by_column@, expr_arena@.len() as int),
                            expr_arena_wf(expr_arena@),
                            ctx.wf(expr_arena@),
                            expr_arena@ == ea0,
                        decreases n - i,
                    {
                        let ghost acc0 = ctx.acc_projections@;
                        let ghost names0 = ctx.projected_names@;
                        proof {
                            assert(by_column@[i as int].0 < expr_arena@.len());
                        }
                        add_expr_to_accumulated(
                            by_column[i],
                            &mut ctx.acc_projections,
                            &mut ctx.projected_names,
                            expr_arena,
                        );
                        proof {
                            crate::arena::lemma_arena_len_bound(expr_arena);
                            lemma_leaf_columns_are_columns(
                                expr_arena@,
                                by_column@[i as int].0 as int,
                            );
                            lemma_acc_insert_all_wf(
                                expr_arena@,
                                acc0,
                                names0,
                                leaf_columns(expr_arena@, by_column@[i as int].0 as int),
                            );
                        }
                        i += 1;
                    }
                }
                match self.pushdown_and_assign(input, ctx, lp_arena, expr_arena, fuel) {
                    Ok(()) => Ok(IR::Sort { input, by_column }),
                    Err(e) => Err(e),
                }
            },
            IR::Distinct { input, subset } => {
                if ctx.has_pushed_down() {
                    match &subset {
                        Some(names) => {
                            let n = names.len();
                            let mut i: usize = 0;
                            while i < n
                                invariant
                                    i <= n,
                                    n == names@.len(),
                                    expr_arena_wf(expr_arena@),
                                    ctx.wf(expr_arena@),
                                    ea0.is_prefix_of(expr_arena@),
                                decreases n - i,
                            {
                                let ghost ea_b = expr_arena@;
                                add_str_to_accumulated(names[i].clone(), &mut ctx, expr_arena);
                                proof {
                                    lemma_prefix_trans(ea0, ea_b, expr_arena@);
                                }
                                i += 1;
                            }
                        },
                        None => {
                            // Distinct over all columns needs full rows to
                            // test equality: force the whole input schema.
                            proof {
                                lemma_plan_wf_schemas(lp_arena@, expr_arena@.len() as int);
                            }
                            let in_schema = match node_schema(lp_arena, input, fuel) {
                                Ok(s) => s.duplicate(),
                                Err(e) => {
                                    return Err(e);
                                },
                            };
                            let n = in_schema.len();
                            let mut i: usize = 0;
                            while i < n
                                invariant
                                    i <= n,
                                    n == in_schema@.len(),
                                    expr_arena_wf(expr_arena@),
                                    ctx.wf(expr_arena@),
                                    ea0.is_prefix_of(expr_arena@),
                                decreases n - i,
                            {
                                let ghost ea_b = expr_arena@;
                                add_str_to_accumulated(
                                    in_schema.get_at_index(i).name.clone(),
                                    &mut ctx,
                                    expr_arena,
                                );
                                proof {
                                    lemma_prefix_trans(ea0, ea_b, expr_arena@);
                                }
                                i += 1;
                            }
                        },
                    }
                }
                proof {
                    lemma_plan_arena_ea_mono(
                        lp_arena@,
                        ea0.len() as int,
                        expr_arena@.len() as int,
                    );
                }
                match self.pushdown_and_assign(input, ctx, lp_arena, expr_arena, fuel) {
                    Ok(()) => Ok(IR::Distinct { input, subset }),
                    Err(e) => Err(e),
                }
            },
            IR::Filter { predicate, input } => {
                if ctx.has_pushed_down() {
                    let ghost acc0 = ctx.acc_projections@;
                    let ghost names0 = ctx.projected_names@;
                    add_expr_to_accumulated(
                        predicate,
                        &mut ctx.acc_projections,
                        &mut ctx.projected_names,
                        expr_arena,
                    );
                    proof {
                        crate::arena::lemma_arena_len_bound(expr_arena);
                        lemma_leaf_columns_are_columns(expr_arena@, predicate.0 as int);
                        lemma_acc_insert_all_wf(
                            expr_arena@,
                            acc0,
                            names0,
                            leaf_columns(expr_arena@, predicate.0 as int),
                        );
                    }
                }
                match self.pushdown_and_assign(input, ctx, lp_arena, expr_arena, fuel) {
                    Ok(()) => Ok(IR::Filter { predicate, input }),
                    Err(e) => Err(e),
                }
            },
            IR::GroupBy { input, keys, aggs, schema } => {
                self.process_group_by(input, keys, aggs, schema, ctx, lp_arena, expr_arena, fuel)
            },
            IR::Join { input_left, input_right, left_on, right_on, schema, how } => {
                self.process_join(
                    input_left,
                    input_right,
                    left_on,
                    right_on,
                    schema,
                    how,
                    ctx,
                    lp_arena,
                    expr_arena,
                    fuel,
                )
            },
            IR::HStack { input, exprs, schema } => {
                self.process_hstack(input, exprs, schema, ctx, lp_arena, expr_arena, fuel)
            },
            IR::ExtContext { input, contexts, schema } => {
                self.process_ext_context(input, contexts, ctx, lp_arena, expr_arena, fuel)
            },
            IR::HConcat { inputs, schema } => {
                self.process_hconcat(inputs, schema, ctx, lp_arena, expr_arena, fuel)
            },
            IR::Union { inputs } => {
                match self.process_inputs_same_ctx(&inputs, &ctx, lp_arena, expr_arena, fuel) {
                    Ok(()) => Ok(IR::Union { inputs }),
                    Err(e) => Err(e),
                }
            },
            IR::SinkMultiple { inputs } => {
                match self.process_inputs_same_ctx(&inputs, &ctx, lp_arena, expr_arena, fuel) {
                    Ok(()) => Ok(IR::SinkMultiple { inputs }),
                    Err(e) => Err(e),
                }
            },
            IR::Slice { input, offset, len } => {
                match self.pushdown_and_assign(input, ctx, lp_arena, expr_arena, fuel) {
                    Ok(()) => Ok(IR::Slice { input, offset, len }),
                    Err(e) => Err(e),
                }
            },
            IR::Sink { input } => {
                match self.pushdown_and_assign(input, ctx, lp_arena, expr_arena, fuel) {
                    Ok(()) => Ok(IR::Sink { input }),
                    Err(e) => Err(e),
                }
            },
            IR::Cache { input, id } => {
                // Columns accumulated above a cache must not rewrite the
                // cached subtree; wrap instead of mutating.
                proof {
                    crate::columns::lemma_acc_wf_parts(
                        expr_arena@,
                        ctx.acc_projections@,
                        ctx.projected_names@,
                    );
                }
                self.finish_node_simple_projection(
                    &ctx.acc_projections,
                    IR::Cache { input, id },
                    lp_arena,
                    expr_arena,
                    fuel,
                )
            },
            IR::MergeSorted { input_left, input_right, key } => {
                if ctx.has_pushed_down() {
                    add_str_to_accumulated(key.clone(), &mut ctx, expr_arena);
                }
                proof {
                    lemma_plan_arena_ea_mono(lp_arena@, ea0.len() as int, expr_arena@.len() as int);
                }
                let ghost ea1 = expr_arena@;
                let ghost lp1 = lp_arena@;
                let ctx2 = ctx.duplicate();
                match self.pushdown_and_assign(input_left, ctx, lp_arena, expr_arena, fuel) {
                    Ok(()) => {},
                    Err(e) => {
                        proof {
                            lemma_prefix_trans(ea0, ea1, expr_arena@);
                        }
                        return Err(e);
                    },
                }
                proof {
                    lemma_prefix_trans(ea0, ea1, expr_arena@);
                    lemma_acc_wf_prefix(
                        ea1,
                        expr_arena@,
                        ctx2.acc_projections@,
                        ctx2.projected_names@,
                    );
                }
                match self.pushdown_and_assign(input_right, ctx2, lp_arena, expr_arena, fuel) {
                    Ok(()) => Ok(IR::MergeSorted { input_left, input_right, key }),
                    Err(e) => Err(e),
                }
            },
            IR::MapFunction { input } => {
                // An opaque transformation: pushing through is unsafe, so
                // restart the walk below with a fresh context and resolve
                // the accumulated columns here.
                let empty = ProjectionContext::empty(ctx.inner);
                match self.pushdown_and_assign(input, empty, lp_arena, expr_arena, fuel) {
                    Ok(()) => {},
                    Err(e) => {
                        return Err(e);
                    },
                }
                proof {
                    lemma_acc_wf_prefix(
                        ea0,
                        expr_arena@,
                        ctx.acc_projections@,
                        ctx.projected_names@,
                    );
                    crate::columns::lemma_acc_wf_parts(
                        expr_arena@,
                        ctx.acc_projections@,
                        ctx.projected_names@,
                    );
                }
                self.finish_node_simple_projection(
                    &ctx.acc_projections,
                    IR::MapFunction { input },
                    lp_arena,
                    expr_arena,
                    fuel,
                )
            },
            IR::Invalid => Err(PlanError::MalformedPlan),
        }
    }

    /// Recurses into each input with an independent copy of the same
    /// context, in place.
    fn process_inputs_same_ctx(
        &mut self,
        inputs: &Vec<Node>,
        ctx: &ProjectionContext,
        lp_arena: &mut Arena<IR>,
        expr_arena: &mut Arena<AExpr>,
        fuel: usize,
    ) -> (r: Result<(), PlanError>)
        requires
            expr_arena_wf(old(expr_arena)@),
            plan_arena_wf(old(lp_arena)@, old(expr_arena)@.len() as int),
            ctx.wf(old(expr_arena)@),
            nodes_below(inputs@, old(lp_arena)@.len() as int),
        ensures
            old(expr_arena)@.is_prefix_of(final(expr_arena)@),
            old(lp_arena)@.len() <= final(lp_arena)@.len(),
            expr_arena_wf(final(expr_arena)@),
            plan_arena_wf(final(lp_arena)@, final(expr_arena)@.len() as int),
        decreases fuel, 1int,
    {
        let ghost ea0 = old(expr_arena)@;
        let n = inputs.len();
        let mut i: usize = 0;
        while i < n
            invariant
                i <= n,
                n == inputs@.len(),
                expr_arena_wf(expr_arena@),
                plan_arena_wf(lp_arena@, expr_arena@.len() as int),
                ctx.wf(ea0),
                nodes_below(inputs@, old(lp_arena)@.len() as int),
                old(lp_arena)@.len() <= lp_arena@.len(),
                ea0 == old(expr_arena)@,
                ea0.is_prefix_of(expr_arena@),
            decreases n - i,
        {
            proof {
                lemma_acc_wf_prefix(ea0, expr_arena@, ctx.acc_projections@, ctx.projected_names@);
            }
            let branch_ctx = ctx.duplicate();
            let ghost ea_before = expr_arena@;
            match self.pushdown_and_assign(inputs[i], branch_ctx, lp_arena, expr_arena, fuel) {
                Ok(()) => {},
                Err(e) => {
                    proof {
                        lemma_prefix_trans(ea0, ea_before, expr_arena@);
                    }
                    return Err(e);
                },
            }
            proof {
                lemma_prefix_trans(ea0, ea_before, expr_arena@);
            }
            i += 1;
        }
        Ok(())
    }

    /// Rewrites a file scan: count-star synthesis first, then the physical
    /// projection and the output schema are rebuilt from the accumulated
    /// columns, virtual columns are stripped from the projection, a
    /// file-path column is moved to the end of the output schema, and a
    /// virtual column that dropped out of the output is removed from the
    /// input schema too, so that positional projection indices recomputed
    /// against the reduced schema stay consistent.
    #[verifier::rlimit(30)]
    fn process_scan(
        &mut self,
        file_schema: Schema,
        scan_kind: FileScanKind,
        projection: Option<Vec<String>>,
        output_schema: Option<Schema>,
        row_index: Option<String>,
        include_file_paths: Option<String>,
        ctx: ProjectionContext,
        expr_arena: &Arena<AExpr>,
    ) -> (r: Result<IR, PlanError>)
        requires
            expr_arena_wf(expr_arena@),
            ctx.wf(expr_arena@),
            distinct_names(file_schema@),
            output_schema matches Some(s) ==> distinct_names(s@),
        ensures
            r matches Ok(ir2) ==> ir2 is Scan && ir_wf(ir2, 0, 0),
            r matches Err(e) ==> e is ColumnNotFound,
            scan_rewrite_ok(
                old(self).is_count_star,
                expr_arena@,
                ctx.acc_projections@,
                (IR::Scan {
                    file_schema: file_schema,
                    scan_kind: scan_kind,
                    projection: projection,
                    output_schema: output_schema,
                    row_index: row_index,
                    include_file_paths: include_file_paths,
                }),
                r,
            ),
    {
        proof {
            crate::columns::lemma_acc_wf_parts(
                expr_arena@,
                ctx.acc_projections@,
                ctx.projected_names@,
            );
        }
        let ghost fs_in = file_schema@;
        let ghost ri_in = row_index;
        let ghost fp_in = include_file_paths;
        let mut file_schema = file_schema;
        let mut projection = projection;
        let mut output_schema = output_schema;
        let mut row_index = row_index;
        let mut include_file_paths = include_file_paths;

        if scan_kind.allows_projection_pushdown() {
            if self.is_count_star {
                // A count-only query still reads one column: the same
                // cheap stand-in the in-memory scan synthesizes.
                if file_schema.len() == 0 {
                    projection = Some(Vec::new());
                    output_schema = Some(Schema::new());
                } else {
                    let f = crate::context::count_star_stand_in(&file_schema);
                    let mut p: Vec<String> = Vec::new();
                    p.push(f.name.clone());
                    projection = Some(p);
                    let mut os = Schema::new();
                    os.push_field(f.name, f.dtype);
                    output_schema = Some(os);
                }
            } else {
                let sort = scan_kind.sort_projection(row_index.is_some());
                projection = get_scan_columns(
                    &ctx.acc_projections,
                    expr_arena,
                    row_index.as_ref(),
                    include_file_paths.as_ref(),
                    None,
                );
                if projection.is_some() {
                    let mut os = match update_scan_schema(
                        &ctx.acc_projections,
                        expr_arena,
                        &file_schema,
                        sort,
                    ) {
                        Ok(s) => s,
                        Err(e) => {
                            return Err(e);
                        },
                    };
                    // A file-path column belongs at the very end of the
                    // output schema.
                    if let Some(fp) = &include_file_paths {
                        if let Some(i) = os.index_of(fp) {
                            let f = os.shift_remove_index(i);
                            if !os.contains(&f.name) {
                                os.push_field(f.name, f.dtype);
                            }
                        }
                    }
                    output_schema = Some(os);
                } else {
                    output_schema = None;
                }
            }
        }

        // A virtual column that did not survive into the output schema is
        // removed from the input schema as well.
        let mut cull_row_index = false;
        if let Some(ri) = &row_index {
            let absent = match &output_schema {
                Some(s) => !s.contains(ri),
                None => false,
            };
            if absent {
                file_schema.shift_remove(ri);
                cull_row_index = true;
            }
        }
        if cull_row_index {
            row_index = None;
        }
        let ghost fs_mid = file_schema@;
        let ghost ri_mid = row_index;
        let mut cull_file_path = false;
        if let Some(fp) = &include_file_paths {
            let absent = match &output_schema {
                Some(s) => !s.contains(fp),
                None => false,
            };
            if absent {
                file_schema.shift_remove(fp);
                cull_file_path = true;
            }
        }
        if cull_file_path {
            include_file_paths = None;
        }
        proof {
            assert(virtual_cull_ok(fs_in, output_schema, ri_in, fs_mid, ri_mid));
            assert(virtual_cull_ok(fs_mid, output_schema, fp_in, file_schema@, include_file_paths));
        }

        Ok(
            IR::Scan {
                file_schema,
                scan_kind,
                projection,
                output_schema,
                row_index,
                include_file_paths,
            },
        )
    }

    /// Resolves a projection list: expressions whose output column nobody
    /// above asked for are dropped, the surviving expressions' column
    /// dependencies become the new push set, and the projection re-emits
    /// itself over the rewritten input.
    fn process_projection(
        &mut self,
        input: Node,
        exprs: Vec<Node>,
        schema: Schema,
        ctx: ProjectionContext,
        lp_arena: &mut Arena<IR>,
        expr_arena: &mut Arena<AExpr>,
        fuel: usize,
    ) -> (r: Result<IR, PlanError>)
        requires
            expr_arena_wf(old(expr_arena)@),
            plan_arena_wf(old(lp_arena)@, old(expr_arena)@.len() as int),
            ctx.wf(old(expr_arena)@),
            input.0 < old(lp_arena)@.len(),
            nodes_below(exprs@, old(expr_arena)@.len() as int),
            distinct_names(schema@),
            schema@.len() == exprs@.len(),
        ensures
            old(expr_arena)@.is_prefix_of(final(expr_arena)@),
            old(lp_arena)@.len() <= final(lp_arena)@.len(),
            expr_arena_wf(final(expr_arena)@),
            plan_arena_wf(final(lp_arena)@, final(expr_arena)@.len() as int),
            r matches Ok(ir2) ==> ir_wf(
                ir2,
                final(lp_arena)@.len() as int,
                final(expr_arena)@.len() as int,
            ),
            // The projection re-emits itself over the same input, with
            // exactly the expressions whose output column somebody above
            // asked for (all of them when nothing was accumulated).
            r matches Ok(ir2) ==> (ir2 matches IR::Select { input: i2, expr: e2, schema: s2 }
                && i2 == input && (if ctx.acc_projections@.len() > 0 {
                e2@ == select_kept(exprs@, schema@, ctx.projected_names@).0 && s2@ == select_kept(
                    exprs@,
                    schema@,
                    ctx.projected_names@,
                ).1
            } else {
                e2@ == exprs@ && s2@ == schema@
            })),
        decreases fuel, 2int,
    {
        let ghost ea0 = old(expr_arena)@;
        let prune = ctx.has_pushed_down() && !ctx.acc_projections.is_empty();
        let ghost nm = ctx.projected_names@;
        let n = exprs.len();
        let mut kept: Vec<Node> = Vec::new();
        let mut kept_fields: Vec<Field> = Vec::new();
        let mut i: usize = 0;
        proof {
            assert(exprs@.skip(0) =~= exprs@);
            assert(schema@.skip(0) =~= schema@);
            assert(kept@ + select_kept(exprs@, schema@, nm).0 =~= select_kept(
                exprs@,
                schema@,
                nm,
            ).0);
            assert(kept_fields@ + select_kept(exprs@, schema@, nm).1 =~= select_kept(
                exprs@,
                schema@,
                nm,
            ).1);
        }
        while i < n
            invariant
                i <= n,
                n == exprs@.len(),
                n == schema@.len(),
                distinct_names(schema@),
                kept@.len() == kept_fields@.len(),
                nodes_below(exprs@, ea0.len() as int),
                nodes_below(kept@, ea0.len() as int),
                forall|k: int|
                    0 <= k < kept_fields@.len() ==> exists|j: int|
                        0 <= j < i && #[trigger] kept_fields@[k] == schema@[j],
                distinct_names(kept_fields@),
                expr_arena@ == ea0,
                prune == (ctx.acc_projections@.len() > 0),
                nm == ctx.projected_names@,
                prune ==> select_kept(exprs@, schema@, nm).0 == kept@ + select_kept(
                    exprs@.skip(i as int),
                    schema@.skip(i as int),
                    nm,
                ).0 && select_kept(exprs@, schema@, nm).1 == kept_fields@ + select_kept(
                    exprs@.skip(i as int),
                    schema@.skip(i as int),
                    nm,
                ).1,
                !prune ==> kept@ == exprs@.take(i as int) && kept_fields@ == schema@.take(
                    i as int,
                ),
            decreases n - i,
        {
            let f = schema.get_at_index(i);
            let keep = if prune {
                names_contains(&ctx.projected_names, &f.name)
            } else {
                true
            };
            proof {
                let te = exprs@.skip(i as int);
                let tf = schema@.skip(i as int);
                assert(te[0] == exprs@[i as int]);
                assert(tf[0] == schema@[i as int]);
                assert(te.drop_first() =~= exprs@.skip(i as int + 1));
                assert(tf.drop_first() =~= schema@.skip(i as int + 1));
                assert(exprs@.take(i as int + 1) =~= exprs@.take(i as int).push(
                    exprs@[i as int],
                ));
                assert(schema@.take(i as int + 1) =~= schema@.take(i as int).push(
                    schema@[i as int],
                ));
            }
            let ghost kept0 = kept@;
            let ghost fields0 = kept_fields@;
            if keep {
                kept.push(exprs[i]);
                kept_fields.push(f.duplicate());
                proof {
                    assert forall|a: int, b: int|
                        0 <= a < b < kept_fields@.len() implies kept_fields@[a].name@
                        != kept_fields@[b].name@ by {
                        if b == kept_fields@.len() - 1 {
                            let j = choose|j: int|
                                0 <= j < i && kept_fields@[a] == schema@[j];
                            assert(kept_fields@[b] == schema@[i as int]);
                        }
                    }
                    if prune {
                        let te = exprs@.skip(i as int);
                        let tf = schema@.skip(i as int);
                        let rest = select_kept(
                            exprs@.skip(i as int + 1),
                            schema@.skip(i as int + 1),
                            nm,
                        );
                        assert(select_kept(te, tf, nm).0 =~= seq![exprs@[i as int]] + rest.0);
                        assert(select_kept(te, tf, nm).1 =~= seq![schema@[i as int]] + rest.1);
                        assert(kept0 + (seq![exprs@[i as int]] + rest.0) =~= kept@ + rest.0);
                        assert(fields0 + (seq![schema@[i as int]] + rest.1) =~= kept_fields@
                            + rest.1);
                    }
                }
            } else {
                proof {
                    if prune {
                        let te = exprs@.skip(i as int);
                        let tf = schema@.skip(i as int);
                        assert(select_kept(te, tf, nm) == select_kept(
                            exprs@.skip(i as int + 1),
                            schema@.skip(i as int + 1),
                            nm,
                        ));
                    }
                }
            }
            i += 1;
        }
        proof {
            assert(exprs@.skip(n as int).len() == 0);
            if prune {
                assert(select_kept(
                    exprs@.skip(n as int),
                    schema@.skip(n as int),
                    nm,
                ) == (Seq::<Node>::empty(), Seq::<Field>::empty()));
                assert(kept@ + Seq::<Node>::empty() =~= kept@);
                assert(kept_fields@ + Seq::<Field>::empty() =~= kept_fields@);
            } else {
                assert(kept@ =~= exprs@);
                assert(kept_fields@ =~= schema@);
            }
        }
        let child_ctx = self.context_from_exprs(&kept, ctx.inner, true, expr_arena);
        match self.pushdown_and_assign(input, child_ctx, lp_arena, expr_arena, fuel) {
            Ok(()) => {},
            Err(e) => {
                return Err(e);
            },
        }
        Ok(IR::Select { input, expr: kept, schema: Schema { fields: kept_fields } })
    }

    /// Builds a fresh context whose accumulated set holds exactly the leaf
    /// columns of the given expressions, deduplicated by name.
    fn context_from_exprs(
        &mut self,
        exprs: &Vec<Node>,
        inner: ProjectionCopyState,
        count_projection: bool,
        expr_arena: &Arena<AExpr>,
    ) -> (r: ProjectionContext)
        requires
            expr_arena_wf(expr_arena@),
            nodes_below(exprs@, expr_arena@.len() as int),
        ensures
            r.wf(expr_arena@),
            r.inner.is_count_star == inner.is_count_star,
    {
        let mut acc: Vec<ColumnNode> = Vec::new();
        let mut names: Vec<String> = Vec::new();
        let n = exprs.len();
        let mut i: usize = 0;
        while i < n
            invariant
                i <= n,
                n == exprs@.len(),
                expr_arena_wf(expr_arena@),
                nodes_below(exprs@, expr_arena@.len() as int),
                acc_wf(expr_arena@, acc@, names@),
            decreases n - i,
        {
            let ghost a0 = acc@;
            let ghost n0 = names@;
            add_expr_to_accumulated(exprs[i], &mut acc, &mut names, expr_arena);
            proof {
                crate::arena::lemma_arena_len_bound(expr_arena);
                lemma_leaf_columns_are_columns(expr_arena@, exprs@[i as int].0 as int);
                lemma_acc_insert_all_wf(
                    expr_arena@,
                    a0,
                    n0,
                    leaf_columns(expr_arena@, exprs@[i as int].0 as int),
                );
            }
            i += 1;
        }
        let seen = if count_projection && inner.projections_seen < usize::MAX {
            inner.projections_seen + 1
        } else {
            inner.projections_seen
        };
        ProjectionContext::new(
            acc,
            names,
            ProjectionCopyState { projections_seen: seen, is_count_star: inner.is_count_star },
        )
    }

    /// Resolves a by-name projection: names nobody above asked for are
    /// dropped, the surviving names become the new push set, and the
    /// projection re-emits itself over the rewritten input.
    fn process_simple_projection(
        &mut self,
        input: Node,
        columns: Schema,
        ctx: ProjectionContext,
        lp_arena: &mut Arena<IR>,
        expr_arena: &mut Arena<AExpr>,
        fuel: usize,
    ) -> (r: Result<IR, PlanError>)
        requires
            expr_arena_wf(old(expr_arena)@),
            plan_arena_wf(old(lp_arena)@, old(expr_arena)@.len() as int),
            ctx.wf(old(expr_arena)@),
            input.0 < old(lp_arena)@.len(),
            distinct_names(columns@),
        ensures
            old(expr_arena)@.is_prefix_of(final(expr_arena)@),
            old(lp_arena)@.len() <= final(lp_arena)@.len(),
            expr_arena_wf(final(expr_arena)@),
            plan_arena_wf(final(lp_arena)@, final(expr_arena)@.len() as int),
            r matches Ok(ir2) ==> ir_wf(
                ir2,
                final(lp_arena)@.len() as int,
                final(expr_arena)@.len() as int,
            ),
            // The by-name projection re-emits itself over the same input,
            // keeping exactly the names somebody above asked for (all of
            // them when nothing was accumulated).
            r matches Ok(ir2) ==> (ir2 matches IR::SimpleProjection { input: i2, columns: c2 }
                && i2 == input && c2@ == (if ctx.acc_projections@.len() > 0 {
                columns@.filter(|f: Field| names_contain(ctx.projected_names@, f.name@))
            } else {
                columns@
            })),
        decreases fuel, 2int,
    {
        let ghost ea0 = old(expr_arena)@;
        let kept = if ctx.has_pushed_down() && !ctx.acc_projections.is_empty() {
            filter_schema_by_names(&columns, &ctx.projected_names)
        } else {
            columns
        };
        // The surviving names become the new push set, one fresh column
        // reference each.
        let mut acc: Vec<ColumnNode> = Vec::new();
        let mut names: Vec<String> = Vec::new();
        let n = kept.len();
        let mut i: usize = 0;
        while i < n
            invariant
                i <= n,
                n == kept@.len(),
                kept.wf(),
                expr_arena_wf(expr_arena@),
                ea0.is_prefix_of(expr_arena@),
                acc@.len() == names@.len(),
                acc@.len() == i,
                acc_wf(expr_arena@, acc@, names@),
                forall|k: int| 0 <= k < i ==> names@[k]@ == kept@[k].name@,
            decreases n - i,
        {
            let ghost ea_before = expr_arena@;
            let name = kept.get_at_index(i).name.clone();
            let node = expr_arena.add(AExpr::Column(name));
            proof {
                lemma_expr_arena_push(ea_before, AExpr::Column(kept@[i as int].name));
                lemma_prefix_trans(ea0, ea_before, expr_arena@);
                lemma_acc_wf_prefix(ea_before, expr_arena@, acc@, names@);
            }
            acc.push(ColumnNode(node));
            names.push(kept.get_at_index(i).name.clone());
            proof {
                let ea2 = expr_arena@;
                let last = acc@.len() - 1;
                assert(is_column_node(ea2, acc@[last]));
                assert(names@[last]@ == column_node_name(ea2, acc@[last]));
                assert forall|a: int, b: int| 0 <= a < b < names@.len() implies names@[a]@
                    != names@[b]@ by {
                    if b == last {
                        assert(names@[a]@ == kept@[a].name@);
                        assert(names@[b]@ == kept@[b].name@);
                    }
                }
            }
            i += 1;
        }
        let child_ctx = ProjectionContext::new(
            acc,
            names,
            ProjectionCopyState {
                projections_seen: if ctx.inner.projections_seen < usize::MAX {
                    ctx.inner.projections_seen + 1
                } else {
                    ctx.inner.projections_seen
                },
                is_count_star: ctx.inner.is_count_star,
            },
        );
        proof {
            lemma_plan_arena_ea_mono(lp_arena@, ea0.len() as int, expr_arena@.len() as int);
        }
        match self.pushdown_and_assign(input, child_ctx, lp_arena, expr_arena, fuel) {
            Ok(()) => {},
            Err(e) => {
                return Err(e);
            },
        }
        Ok(IR::SimpleProjection { input, columns: kept })
    }

    /// Rewrites a group-by: aggregations nobody above asked for are
    /// dropped, and the context is reset to the group keys' and surviving
    /// aggregations' column dependencies — a group-by is an opaque schema
    /// boundary, so nothing else may pass through.
    fn process_group_by(
        &mut self,
        input: Node,
        keys: Vec<Node>,
        aggs: Vec<Node>,
        schema: Schema,
        ctx: ProjectionContext,
        lp_arena: &mut Arena<IR>,
        expr_arena: &mut Arena<AExpr>,
        fuel: usize,
    ) -> (r: Result<IR, PlanError>)
        requires
            expr_arena_wf(old(expr_arena)@),
            plan_arena_wf(old(lp_arena)@, old(expr_arena)@.len() as int),
            ctx.wf(old(expr_arena)@),
            input.0 < old(lp_arena)@.len(),
            nodes_below(keys@, old(expr_arena)@.len() as int),
            nodes_below(aggs@, old(expr_arena)@.len() as int),
            distinct_names(schema@),
            schema@.len() == keys@.len() + aggs@.len(),
        ensures
            old(expr_arena)@.is_prefix_of(final(expr_arena)@),
            old(lp_arena)@.len() <= final(lp_arena)@.len(),
            expr_arena_wf(final(expr_arena)@),
            plan_arena_wf(final(lp_arena)@, final(expr_arena)@.len() as int),
            r matches Ok(ir2) ==> ir_wf(
                ir2,
                final(lp_arena)@.len() as int,
                final(expr_arena)@.len() as int,
            ),
            // The group-by re-emits itself over the same input with the
            // same keys; aggregations whose output column nobody above
            // asked for are dropped, and the schema keeps the key fields
            // plus exactly the surviving aggregation fields.
            r matches Ok(ir2) ==> (ir2 matches IR::GroupBy {
                input: i2,
                keys: k2,
                aggs: a2,
                schema: s2,
            } && i2 == input && k2 == keys && (if ctx.acc_projections@.len() > 0 {
                a2@ == select_kept(
                    aggs@,
                    schema@.skip(keys@.len() as int),
                    ctx.projected_names@,
                ).0 && s2@ == schema@.take(keys@.len() as int) + select_kept(
                    aggs@,
                    schema@.skip(keys@.len() as int),
                    ctx.projected_names@,
                ).1
            } else {
                a2@ == aggs@ && s2@ == schema@
            })),
        decreases fuel, 2int,
    {
        let ghost ea0 = old(expr_arena)@;
        let prune = ctx.has_pushed_down() && !ctx.acc_projections.is_empty();
        let ghost nm = ctx.projected_names@;
        let nk = keys.len();
        let mut new_fields: Vec<Field> = Vec::new();
        let mut i: usize = 0;
        while i < nk
            invariant
                i <= nk,
                nk == keys@.len(),
                nk + aggs@.len() == schema@.len(),
                distinct_names(schema@),
                new_fields@ == schema@.take(i as int),
                expr_arena@ == ea0,
            decreases nk - i,
        {
            new_fields.push(schema.get_at_index(i).duplicate());
            proof {
                assert(schema@.take(i as int + 1) =~= schema@.take(i as int).push(
                    schema@[i as int],
                ));
            }
            i += 1;
        }
        proof {
            assert(new_fields@.len() == nk as int);
            assert forall|k: int| 0 <= k < new_fields@.len() implies schema@.take(
                nk as int,
            ).contains(#[trigger] new_fields@[k]) by {
                assert(schema@.take(nk as int)[k] == new_fields@[k]);
            }
        }
        let na = aggs.len();
        let total = schema.len();
        let mut kept_aggs: Vec<Node> = Vec::new();
        let mut j: usize = 0;
        proof {
            assert(aggs@.skip(0) =~= aggs@);
            assert(schema@.skip(nk as int).skip(0) =~= schema@.skip(nk as int));
            assert(new_fields@.skip(nk as int) =~= Seq::<Field>::empty());
            let sk = select_kept(aggs@, schema@.skip(nk as int), nm);
            assert(kept_aggs@ + sk.0 =~= sk.0);
            assert(new_fields@.skip(nk as int) + sk.1 =~= sk.1);
            assert(new_fields@ == schema@.take(nk as int));
        }
        while j < na
            invariant
                j <= na,
                na == aggs@.len(),
                nk == keys@.len(),
                nk + na == total,
                nk + na == schema@.len(),
                distinct_names(schema@),
                nodes_below(aggs@, ea0.len() as int),
                nodes_below(kept_aggs@, ea0.len() as int),
                new_fields@.len() == nk + kept_aggs@.len(),
                forall|k: int|
                    0 <= k < new_fields@.len() ==> schema@.take(nk + j).contains(
                        #[trigger] new_fields@[k],
                    ),
                distinct_names(new_fields@),
                expr_arena@ == ea0,
                prune == (ctx.acc_projections@.len() > 0),
                nm == ctx.projected_names@,
                new_fields@.take(nk as int) == schema@.take(nk as int),
                prune ==> select_kept(aggs@, schema@.skip(nk as int), nm).0 == kept_aggs@
                    + select_kept(
                    aggs@.skip(j as int),
                    schema@.skip(nk + j as int),
                    nm,
                ).0 && select_kept(aggs@, schema@.skip(nk as int), nm).1 == new_fields@.skip(
                    nk as int,
                ) + select_kept(aggs@.skip(j as int), schema@.skip(nk + j as int), nm).1,
                !prune ==> kept_aggs@ == aggs@.take(j as int) && new_fields@ == schema@.take(
                    nk + j,
                ),
            decreases na - j,
        {
            let f = schema.get_at_index(nk + j);
            let keep = if prune {
                names_contains(&ctx.projected_names, &f.name)
            } else {
                true
            };
            let ghost aggs0 = kept_aggs@;
            let ghost fields0 = new_fields@;
            proof {
                let te = aggs@.skip(j as int);
                let tf = schema@.skip(nk + j as int);
                assert(te[0] == aggs@[j as int]);
                assert(tf[0] == schema@[nk + j as int]);
                assert(te.drop_first() =~= aggs@.skip(j as int + 1));
                assert(tf.drop_first() =~= schema@.skip(nk + j as int + 1));
                assert(schema@.skip(nk as int).skip(j as int) =~= tf);
                assert(aggs@.take(j as int + 1) =~= aggs@.take(j as int).push(aggs@[j as int]));
                assert(schema@.take(nk + j as int + 1) =~= schema@.take(nk + j as int).push(
                    schema@[nk + j as int],
                ));
            }
            if keep {
                kept_aggs.push(aggs[j]);
                new_fields.push(f.duplicate());
                proof {
                    assert(new_fields@.take(nk as int) =~= fields0.take(nk as int));
                    assert(new_fields@.skip(nk as int) =~= fields0.skip(nk as int).push(
                        schema@[nk + j as int],
                    ));
                    if prune {
                        let rest = select_kept(
                            aggs@.skip(j as int + 1),
                            schema@.skip(nk + j as int + 1),
                            nm,
                        );
                        assert(select_kept(
                            aggs@.skip(j as int),
                            schema@.skip(nk + j as int),
                            nm,
                        ).0 =~= seq![aggs@[j as int]] + rest.0);
                        assert(select_kept(
                            aggs@.skip(j as int),
                            schema@.skip(nk + j as int),
                            nm,
                        ).1 =~= seq![schema@[nk + j as int]] + rest.1);
                        assert(aggs0 + (seq![aggs@[j as int]] + rest.0) =~= kept_aggs@ + rest.0);
                        assert(fields0.skip(nk as int) + (seq![schema@[nk + j as int]] + rest.1)
                            =~= new_fields@.skip(nk as int) + rest.1);
                    }
                    assert forall|a: int, b: int|
                        0 <= a < b < new_fields@.len() implies new_fields@[a].name@
                        != new_fields@[b].name@ by {
                        if b == new_fields@.len() - 1 {
                            let t = schema@.take(nk + j as int);
                            assert(t.contains(new_fields@[a]));
                            let x = choose|x: int| 0 <= x < t.len() && #[trigger] t[x]
                                == new_fields@[a];
                            assert(new_fields@[a] == schema@[x]);
                            assert(new_fields@[b] == schema@[nk + j as int]);
                        }
                    }
                }
            }
            proof {
                if !keep && prune {
                    assert(select_kept(
                        aggs@.skip(j as int),
                        schema@.skip(nk + j as int),
                        nm,
                    ) == select_kept(
                        aggs@.skip(j as int + 1),
                        schema@.skip(nk + j as int + 1),
                        nm,
                    ));
                }
                assert forall|k: int| 0 <= k < new_fields@.len() implies schema@.take(
                    nk + j as int + 1,
                ).contains(#[trigger] new_fields@[k]) by {
                    if schema@.take(nk + j as int).contains(new_fields@[k]) {
                        let t = schema@.take(nk + j as int);
                        let x = choose|x: int| 0 <= x < t.len() && #[trigger] t[x]
                            == new_fields@[k];
                        assert(schema@.take(nk + j as int + 1)[x] == new_fields@[k]);
                    } else {
                        assert(new_fields@[k] == schema@[nk + j as int]);
                        assert(schema@.take(nk + j as int + 1)[nk + j as int]
                            == new_fields@[k]);
                    }
                }
            }
            j += 1;
        }
        proof {
            assert(aggs@.skip(na as int).len() == 0);
            if prune {
                let sk = select_kept(aggs@, schema@.skip(nk as int), nm);
                assert(select_kept(
                    aggs@.skip(na as int),
                    schema@.skip(nk + na as int),
                    nm,
                ) == (Seq::<Node>::empty(), Seq::<Field>::empty()));
                assert(kept_aggs@ + Seq::<Node>::empty() =~= kept_aggs@);
                assert(new_fields@.skip(nk as int) + Seq::<Field>::empty() =~= new_fields@.skip(
                    nk as int,
                ));
                assert(new_fields@ =~= new_fields@.take(nk as int) + new_fields@.skip(nk as int));
                assert(new_fields@ == schema@.take(nk as int) + sk.1);
            } else {
                assert(kept_aggs@ =~= aggs@);
                assert(new_fields@ =~= schema@);
            }
        }
        // Reset the context: only the keys' and surviving aggregations'
        // dependencies reach the input.
        let mut all_deps: Vec<Node> = Vec::new();
        let mut k: usize = 0;
        while k < nk
            invariant
                k <= nk,
                nk == keys@.len(),
                nodes_below(keys@, ea0.len() as int),
                nodes_below(all_deps@, ea0.len() as int),
                expr_arena@ == ea0,
            decreases nk - k,
        {
            all_deps.push(keys[k]);
            k += 1;
        }
        let nka = kept_aggs.len();
        let mut k2: usize = 0;
        while k2 < nka
            invariant
                k2 <= nka,
                nka == kept_aggs@.len(),
                nodes_below(kept_aggs@, ea0.len() as int),
                nodes_below(all_deps@, ea0.len() as int),
                expr_arena@ == ea0,
            decreases nka - k2,
        {
            all_deps.push(kept_aggs[k2]);
            k2 += 1;
        }
        let child_ctx = self.context_from_exprs(&all_deps, ctx.inner, false, expr_arena);
        match self.pushdown_and_assign(input, child_ctx, lp_arena, expr_arena, fuel) {
            Ok(()) => {},
            Err(e) => {
                return Err(e);
            },
        }
        proof {
            assert(new_fields@.len() == keys@.len() + kept_aggs@.len());
        }
        Ok(IR::GroupBy { input, keys, aggs: kept_aggs, schema: Schema { fields: new_fields } })
    }

    /// Rewrites a join: every accumulated column is routed to whichever
    /// side's schema contains it, the join keys of both sides are always
    /// included, and each side is rewritten with its own independent
    /// context. For a semi or anti join the right input's requirements are
    /// limited to its join keys, since its other columns never reach the
    /// output. A column found on neither side means the plan was malformed
    /// upstream; the pass fails loudly rather than guess.
    fn process_join(
        &mut self,
        input_left: Node,
        input_right: Node,
        left_on: Vec<Node>,
        right_on: Vec<Node>,
        schema: Schema,
        how: JoinType,
        ctx: ProjectionContext,
        lp_arena: &mut Arena<IR>,
        expr_arena: &mut Arena<AExpr>,
        fuel: usize,
    ) -> (r: Result<IR, PlanError>)
        requires
            expr_arena_wf(old(expr_arena)@),
            plan_arena_wf(old(lp_arena)@, old(expr_arena)@.len() as int),
            ctx.wf(old(expr_arena)@),
            input_left.0 < old(lp_arena)@.len(),
            input_right.0 < old(lp_arena)@.len(),
            nodes_below(left_on@, old(expr_arena)@.len() as int),
            nodes_below(right_on@, old(expr_arena)@.len() as int),
            distinct_names(schema@),
        ensures
            old(expr_arena)@.is_prefix_of(final(expr_arena)@),
            old(lp_arena)@.len() <= final(lp_arena)@.len(),
            expr_arena_wf(final(expr_arena)@),
            plan_arena_wf(final(lp_arena)@, final(expr_arena)@.len() as int),
            r matches Ok(ir2) ==> ir_wf(
                ir2,
                final(lp_arena)@.len() as int,
                final(expr_arena)@.len() as int,
            ),
            // The join re-emits itself over the same inputs, keys and
            // kind. With pushdown active its schema is the old schema
            // filtered to a request set that holds every accumulated
            // column and nothing beyond the accumulated columns and the
            // join keys' leaf columns (the keys are always read; a semi or
            // anti join requests nothing of the right side's keys in its
            // output).
            r matches Ok(ir2) ==> (ir2 matches IR::Join {
                input_left: l2,
                input_right: r2s,
                left_on: lo2,
                right_on: ro2,
                schema: s2,
                how: h2,
            } && l2 == input_left && r2s == input_right && lo2@ == left_on@ && ro2@ == right_on@
                && h2 == how && (if ctx.acc_projections@.len() == 0 {
                s2@ == schema@
            } else {
                exists|req: Seq<String>|
                    #![trigger req.len()]
                    {
                        &&& s2@ == schema@.filter(|f: Field| names_contain(req, f.name@))
                        &&& forall|k: int|
                            0 <= k < ctx.acc_projections@.len() ==> names_contain(
                                req,
                                column_node_name(
                                    old(expr_arena)@,
                                    #[trigger] ctx.acc_projections@[k],
                                ),
                            )
                        &&& forall|x: int|
                            0 <= x < req.len() ==> (names_contain(
                                ctx.projected_names@,
                                (#[trigger] req[x])@,
                            ) || key_leaf_name(old(expr_arena)@, left_on@, req[x]@) || (
                            !how.spec_is_semi_anti() && key_leaf_name(
                                old(expr_arena)@,
                                right_on@,
                                req[x]@,
                            )))
                    }
            })),
        decreases fuel, 2int,
    {
        let ghost ea0 = old(expr_arena)@;
        if !(ctx.has_pushed_down() && !ctx.acc_projections.is_empty()) {
            // Nothing accumulated: nothing to narrow, recurse as is.
            let e1 = ProjectionContext::empty(ctx.inner);
            match self.pushdown_and_assign(input_left, e1, lp_arena, expr_arena, fuel) {
                Ok(()) => {},
                Err(e) => {
                    return Err(e);
                },
            }
            let ghost ea_mid = expr_arena@;
            let e2 = ProjectionContext::empty(ctx.inner);
            match self.pushdown_and_assign(input_right, e2, lp_arena, expr_arena, fuel) {
                Ok(()) => {
                    proof {
                        lemma_prefix_trans(ea0, ea_mid, expr_arena@);
                    }
                },
                Err(e) => {
                    proof {
                        lemma_prefix_trans(ea0, ea_mid, expr_arena@);
                    }
                    return Err(e);
                },
            }
            return Ok(
                IR::Join { input_left, input_right, left_on, right_on, schema, how },
            );
        }
        proof {
            lemma_plan_wf_schemas(lp_arena@, expr_arena@.len() as int);
        }
        let schema_left = match node_schema(lp_arena, input_left, fuel) {
            Ok(s) => s.duplicate(),
            Err(e) => {
                return Err(e);
            },
        };
        let schema_right = match node_schema(lp_arena, input_right, fuel) {
            Ok(s) => s.duplicate(),
            Err(e) => {
                return Err(e);
            },
        };
        let semi = how.is_semi_anti();
        let mut pd_left: Vec<ColumnNode> = Vec::new();
        let mut pd_right: Vec<ColumnNode> = Vec::new();
        let mut names_left: Vec<String> = Vec::new();
        let mut names_right: Vec<String> = Vec::new();
        let n = ctx.acc_projections.len();
        let mut i: usize = 0;
        proof {
            lemma_prefix_refl(ea0);
        }
        while i < n
            invariant
                i <= n,
                n == ctx.acc_projections@.len(),
                ctx.wf(ea0),
                ea0 == old(expr_arena)@,
                expr_arena@ == ea0,
                lp_arena@ == old(lp_arena)@,
                expr_arena_wf(expr_arena@),
                plan_arena_wf(lp_arena@, expr_arena@.len() as int),
                ea0.is_prefix_of(ea0),
                acc_wf(expr_arena@, pd_left@, names_left@),
                acc_wf(expr_arena@, pd_right@, names_right@),
                semi == how.spec_is_semi_anti(),
                forall|kk: int|
                    0 <= kk < i ==> (names_contain(
                        names_left@,
                        column_node_name(ea0, #[trigger] ctx.acc_projections@[kk]),
                    ) || (!semi && names_contain(
                        names_right@,
                        column_node_name(ea0, ctx.acc_projections@[kk]),
                    ))),
                forall|x: int|
                    0 <= x < names_left@.len() ==> names_contain(
                        ctx.projected_names@,
                        (#[trigger] names_left@[x])@,
                    ),
                forall|x: int|
                    0 <= x < names_right@.len() ==> names_contain(
                        ctx.projected_names@,
                        (#[trigger] names_right@[x])@,
                    ),
            decreases n - i,
        {
            let proj = ctx.acc_projections[i];
            let ghost nmk = column_node_name(ea0, ctx.acc_projections@[i as int]);
            let ghost nl0 = names_left@;
            let ghost nr0 = names_right@;
            proof {
                assert(ctx.projected_names@[i as int]@ == nmk);
            }
            if semi {
                // Only the left side's columns survive a semi or anti
                // join.
                let name = column_node_to_name(proj, expr_arena);
                if schema_left.contains(name) {
                    if !names_contains(&names_left, name) {
                        names_left.push(name.clone());
                        pd_left.push(proj);
                        proof {
                            assert(names_left@[nl0.len() as int]@ == nmk);
                            assert forall|kk: int| 0 <= kk < i + 1 implies names_contain(
                                names_left@,
                                column_node_name(ea0, #[trigger] ctx.acc_projections@[kk]),
                            ) || (!semi && names_contain(
                                names_right@,
                                column_node_name(ea0, ctx.acc_projections@[kk]),
                            )) by {
                                if kk < i {
                                    if names_contain(
                                        nl0,
                                        column_node_name(ea0, ctx.acc_projections@[kk]),
                                    ) {
                                        crate::context::lemma_names_contain_push(
                                            nl0,
                                            names_left@[nl0.len() as int],
                                            column_node_name(ea0, ctx.acc_projections@[kk]),
                                        );
                                    }
                                } else {
                                    assert(names_contain(names_left@, nmk));
                                }
                            }
                        }
                    } else {
                        proof {
                            assert(names_contain(names_left@, nmk));
                        }
                    }
                } else {
                    return Err(PlanError::MalformedPlan);
                }
            } else {
                let (pushed, already) = self.join_push_down(
                    &schema_left,
                    &schema_right,
                    proj,
                    &mut pd_left,
                    &mut pd_right,
                    &mut names_left,
                    &mut names_right,
                    expr_arena,
                );
                if !pushed && !already {
                    return Err(PlanError::MalformedPlan);
                }
                proof {
                    // The routed name is now recorded on some side, the
                    // names recorded earlier still are, and every recorded
                    // name is an accumulated name.
                    if names_left@ != nl0 {
                        assert(names_left@ == nl0.push(ea0[proj.0.0 as int]->Column_0));
                        assert(names_left@[nl0.len() as int]@ == nmk);
                    }
                    if names_right@ != nr0 {
                        assert(names_right@ == nr0.push(ea0[proj.0.0 as int]->Column_0));
                        assert(names_right@[nr0.len() as int]@ == nmk);
                    }
                    assert(names_contain(names_left@, nmk) || names_contain(names_right@, nmk))
                        by {
                        if names_contain(nl0, nmk) {
                            if names_left@ == nl0 {
                            } else {
                                crate::context::lemma_names_contain_push(
                                    nl0,
                                    names_left@[nl0.len() as int],
                                    nmk,
                                );
                            }
                        } else if names_contain(nr0, nmk) {
                            if names_right@ == nr0 {
                            } else {
                                crate::context::lemma_names_contain_push(
                                    nr0,
                                    names_right@[nr0.len() as int],
                                    nmk,
                                );
                            }
                        }
                    }
                    assert forall|kk: int| 0 <= kk < i + 1 implies names_contain(
                        names_left@,
                        column_node_name(ea0, #[trigger] ctx.acc_projections@[kk]),
                    ) || (!semi && names_contain(
                        names_right@,
                        column_node_name(ea0, ctx.acc_projections@[kk]),
                    )) by {
                        let nk2 = column_node_name(ea0, ctx.acc_projections@[kk]);
                        if kk < i {
                            if names_contain(nl0, nk2) {
                                if names_left@ == nl0 {
                                } else {
                                    crate::context::lemma_names_contain_push(
                                        nl0,
                                        names_left@[nl0.len() as int],
                                        nk2,
                                    );
                                }
                            } else {
                                if names_right@ == nr0 {
                                } else {
                                    crate::context::lemma_names_contain_push(
                                        nr0,
                                        names_right@[nr0.len() as int],
                                        nk2,
                                    );
                                }
                            }
                        }
                    }
                }
            }
            i += 1;
        }
        // Join keys are always read, whatever was requested above.
        let ghost routed_left = names_left@;
        let ghost routed_right = names_right@;
        let nl = left_on.len();
        let mut k: usize = 0;
        while k < nl
            invariant
                k <= nl,
                nl == left_on@.len(),
                nodes_below(left_on@, ea0.len() as int),
                ea0 == old(expr_arena)@,
                expr_arena@ == ea0,
                lp_arena@ == old(lp_arena)@,
                plan_arena_wf(lp_arena@, expr_arena@.len() as int),
                expr_arena_wf(expr_arena@),
                acc_wf(expr_arena@, pd_left@, names_left@),
                n == ctx.acc_projections@.len(),
                names_right@ == routed_right,
                routed_left.is_prefix_of(names_left@),
                forall|kk: int|
                    0 <= kk < n ==> (names_contain(
                        routed_left,
                        column_node_name(ea0, #[trigger] ctx.acc_projections@[kk]),
                    ) || (!how.spec_is_semi_anti() && names_contain(
                        routed_right,
                        column_node_name(ea0, ctx.acc_projections@[kk]),
                    ))),
                forall|x: int|
                    0 <= x < names_left@.len() ==> (names_contain(
                        ctx.projected_names@,
                        (#[trigger] names_left@[x])@,
                    ) || key_leaf_name(ea0, left_on@.take(k as int), names_left@[x]@)),
                forall|x: int|
                    0 <= x < names_right@.len() ==> names_contain(
                        ctx.projected_names@,
                        (#[trigger] names_right@[x])@,
                    ),
            decreases nl - k,
        {
            let ghost a0 = pd_left@;
            let ghost n0 = names_left@;
            add_expr_to_accumulated(left_on[k], &mut pd_left, &mut names_left, expr_arena);
            proof {
                crate::arena::lemma_arena_len_bound(expr_arena);
                lemma_leaf_columns_are_columns(expr_arena@, left_on@[k as int].0 as int);
                let leaves = leaf_columns(expr_arena@, left_on@[k as int].0 as int);
                lemma_acc_insert_all_wf(expr_arena@, a0, n0, leaves);
                lemma_prefix_trans(routed_left, n0, names_left@);
                assert forall|x: int| 0 <= x < names_left@.len() implies (names_contain(
                    ctx.projected_names@,
                    (#[trigger] names_left@[x])@,
                ) || key_leaf_name(ea0, left_on@.take(k as int + 1), names_left@[x]@)) by {
                    let v = names_left@[x]@;
                    assert(names_contain(names_left@, v));
                    if names_contain(n0, v) {
                        let w = choose|w: int| 0 <= w < n0.len() && n0[w]@ == v;
                        if names_contain(ctx.projected_names@, n0[w]@) {
                        } else {
                            assert(key_leaf_name(ea0, left_on@.take(k as int), n0[w]@));
                            let (j, kk) = choose|j: int, kk: int|
                                0 <= j < left_on@.take(k as int).len() && 0 <= kk < leaf_columns(
                                    ea0,
                                    left_on@.take(k as int)[j].0 as int,
                                ).len() && column_node_name(
                                    ea0,
                                    #[trigger] leaf_columns(
                                        ea0,
                                        left_on@.take(k as int)[j].0 as int,
                                    )[kk],
                                ) == n0[w]@;
                            assert(left_on@.take(k as int + 1)[j] == left_on@.take(k as int)[j]);
                            assert(key_leaf_name(ea0, left_on@.take(k as int + 1), v));
                        }
                    } else {
                        let kk = choose|kk: int|
                            0 <= kk < leaves.len() && column_node_name(
                                ea0,
                                #[trigger] leaves[kk],
                            ) == v;
                        assert(left_on@.take(k as int + 1)[k as int] == left_on@[k as int]);
                        assert(key_leaf_name(ea0, left_on@.take(k as int + 1), v));
                    }
                }
            }
            k += 1;
        }
        proof {
            assert(left_on@.take(nl as int) =~= left_on@);
        }
        let ghost keyed_left = names_left@;
        let nr = right_on.len();
        let mut k2: usize = 0;
        while k2 < nr
            invariant
                k2 <= nr,
                nr == right_on@.len(),
                nodes_below(right_on@, ea0.len() as int),
                ea0 == old(expr_arena)@,
                expr_arena@ == ea0,
                lp_arena@ == old(lp_arena)@,
                plan_arena_wf(lp_arena@, expr_arena@.len() as int),
                expr_arena_wf(expr_arena@),
                acc_wf(expr_arena@, pd_right@, names_right@),
                names_left@ == keyed_left,
                routed_right.is_prefix_of(names_right@),
                forall|x: int|
                    0 <= x < names_right@.len() ==> (names_contain(
                        ctx.projected_names@,
                        (#[trigger] names_right@[x])@,
                    ) || key_leaf_name(ea0, right_on@.take(k2 as int), names_right@[x]@)),
            decreases nr - k2,
        {
            let ghost a0 = pd_right@;
            let ghost n0 = names_right@;
            add_expr_to_accumulated(right_on[k2], &mut pd_right, &mut names_right, expr_arena);
            proof {
                crate::arena::lemma_arena_len_bound(expr_arena);
                lemma_leaf_columns_are_columns(expr_arena@, right_on@[k2 as int].0 as int);
                let leaves = leaf_columns(expr_arena@, right_on@[k2 as int].0 as int);
                lemma_acc_insert_all_wf(expr_arena@, a0, n0, leaves);
                lemma_prefix_trans(routed_right, n0, names_right@);
                assert forall|x: int| 0 <= x < names_right@.len() implies (names_contain(
                    ctx.projected_names@,
                    (#[trigger] names_right@[x])@,
                ) || key_leaf_name(ea0, right_on@.take(k2 as int + 1), names_right@[x]@)) by {
                    let v = names_right@[x]@;
                    assert(names_contain(names_right@, v));
                    if names_contain(n0, v) {
                        let w = choose|w: int| 0 <= w < n0.len() && n0[w]@ == v;
                        if names_contain(ctx.projected_names@, n0[w]@) {
                        } else {
                            assert(key_leaf_name(ea0, right_on@.take(k2 as int), n0[w]@));
                            let (j, kk) = choose|j: int, kk: int|
                                0 <= j < right_on@.take(k2 as int).len() && 0 <= kk
                                    < leaf_columns(
                                    ea0,
                                    right_on@.take(k2 as int)[j].0 as int,
                                ).len() && column_node_name(
                                    ea0,
                                    #[trigger] leaf_columns(
                                        ea0,
                                        right_on@.take(k2 as int)[j].0 as int,
                                    )[kk],
                                ) == n0[w]@;
                            assert(right_on@.take(k2 as int + 1)[j] == right_on@.take(
                                k2 as int,
                            )[j]);
                            assert(key_leaf_name(ea0, right_on@.take(k2 as int + 1), v));
                        }
                    } else {
                        let kk = choose|kk: int|
                            0 <= kk < leaves.len() && column_node_name(
                                ea0,
                                #[trigger] leaves[kk],
                            ) == v;
                        assert(right_on@.take(k2 as int + 1)[k2 as int] == right_on@[k2 as int]);
                        assert(key_leaf_name(ea0, right_on@.take(k2 as int + 1), v));
                    }
                }
            }
            k2 += 1;
        }
        proof {
            assert(right_on@.take(nr as int) =~= right_on@);
        }
        // The rebuilt output schema holds what was routed (keys included).
        let mut requested: Vec<String> = Vec::new();
        let nnl = names_left.len();
        let mut c: usize = 0;
        while c < nnl
            invariant
                c <= nnl,
                nnl == names_left@.len(),
                requested@ == names_left@.take(c as int),
            decreases nnl - c,
        {
            requested.push(names_left[c].clone());
            proof {
                assert(names_left@.take(c as int + 1) =~= names_left@.take(c as int).push(
                    names_left@[c as int],
                ));
            }
            c += 1;
        }
        proof {
            assert(names_left@.take(nnl as int) =~= names_left@);
        }
        if !semi {
            let nnr = names_right.len();
            let mut c2: usize = 0;
            while c2 < nnr
                invariant
                    c2 <= nnr,
                    nnr == names_right@.len(),
                    requested@ == names_left@ + names_right@.take(c2 as int),
                decreases nnr - c2,
            {
                requested.push(names_right[c2].clone());
                proof {
                    assert(names_right@.take(c2 as int + 1) =~= names_right@.take(
                        c2 as int,
                    ).push(names_right@[c2 as int]));
                    assert(requested@ =~= names_left@ + names_right@.take(c2 as int + 1));
                }
                c2 += 1;
            }
            proof {
                assert(names_right@.take(nnr as int) =~= names_right@);
            }
        } else {
            proof {
                assert(requested@ =~= names_left@ + Seq::<String>::empty());
            }
        }
        let ghost req = requested@;
        proof {
            // Every accumulated name survives into the request set, and
            // every request is an accumulated name or a key leaf.
            assert forall|kk: int| 0 <= kk < ctx.acc_projections@.len() implies names_contain(
                req,
                column_node_name(ea0, #[trigger] ctx.acc_projections@[kk]),
            ) by {
                let nk2 = column_node_name(ea0, ctx.acc_projections@[kk]);
                if names_contain(routed_left, nk2) {
                    crate::context::lemma_names_contain_prefix(routed_left, names_left@, nk2);
                    let w = choose|w: int| 0 <= w < names_left@.len() && names_left@[w]@ == nk2;
                    assert(req[w]@ == nk2);
                } else {
                    assert(!semi);
                    crate::context::lemma_names_contain_prefix(routed_right, names_right@, nk2);
                    let w = choose|w: int|
                        0 <= w < names_right@.len() && names_right@[w]@ == nk2;
                    assert(req[names_left@.len() + w]@ == nk2);
                }
            }
            assert forall|x: int| 0 <= x < req.len() implies (names_contain(
                ctx.projected_names@,
                (#[trigger] req[x])@,
            ) || key_leaf_name(ea0, left_on@, req[x]@) || (!how.spec_is_semi_anti()
                && key_leaf_name(ea0, right_on@, req[x]@))) by {
                if x < names_left@.len() {
                    assert(req[x] == names_left@[x]);
                } else {
                    assert(req[x] == names_right@[x - names_left@.len()]);
                }
            }
        }
        let new_schema = filter_schema_by_names(&schema, &requested);
        let ctx_left = ProjectionContext::new(pd_left, names_left, ctx.inner);
        let ghost ea1 = expr_arena@;
        match self.pushdown_and_assign(input_left, ctx_left, lp_arena, expr_arena, fuel) {
            Ok(()) => {},
            Err(e) => {
                return Err(e);
            },
        }
        proof {
            lemma_acc_wf_prefix(ea1, expr_arena@, pd_right@, names_right@);
            lemma_prefix_trans(ea0, ea1, expr_arena@);
        }
        let ctx_right = ProjectionContext::new(pd_right, names_right, ctx.inner);
        match self.pushdown_and_assign(input_right, ctx_right, lp_arena, expr_arena, fuel) {
            Ok(()) => {},
            Err(e) => {
                return Err(e);
            },
        }
        proof {
            assert(req.len() == req.len());
        }
        Ok(IR::Join { input_left, input_right, left_on, right_on, schema: new_schema, how })
    }

    /// Rewrites a column stack: stacked expressions nobody above asked for
    /// are dropped, columns that the surviving stack provides no longer
    /// need to come from below, and the surviving expressions' dependencies
    /// are forced in.
    fn process_hstack(
        &mut self,
        input: Node,
        exprs: Vec<Node>,
        schema: Schema,
        ctx: ProjectionContext,
        lp_arena: &mut Arena<IR>,
        expr_arena: &mut Arena<AExpr>,
        fuel: usize,
    ) -> (r: Result<IR, PlanError>)
        requires
            expr_arena_wf(old(expr_arena)@),
            plan_arena_wf(old(lp_arena)@, old(expr_arena)@.len() as int),
            ctx.wf(old(expr_arena)@),
            input.0 < old(lp_arena)@.len(),
            nodes_below(exprs@, old(expr_arena)@.len() as int),
            distinct_names(schema@),
        ensures
            old(expr_arena)@.is_prefix_of(final(expr_arena)@),
            old(lp_arena)@.len() <= final(lp_arena)@.len(),
            expr_arena_wf(final(expr_arena)@),
            plan_arena_wf(final(lp_arena)@, final(expr_arena)@.len() as int),
            r matches Ok(ir2) ==> ir_wf(
                ir2,
                final(lp_arena)@.len() as int,
                final(expr_arena)@.len() as int,
            ),
            // The stack re-emits itself over the same input with exactly
            // the expressions whose output column somebody above asked
            // for, and its schema holds the rewritten input's columns plus
            // those outputs.
            r matches Ok(ir2) ==> (ir2 matches IR::HStack { input: i2, exprs: e2, schema: s2 }
                && i2 == input && e2@ == (if ctx.acc_projections@.len() > 0 {
                exprs@.filter(
                    |e: Node|
                        names_contain(
                            ctx.projected_names@,
                            output_name(old(expr_arena)@, e.0 as int),
                        ),
                )
            } else {
                exprs@
            }) && (node_schema_spec(final(lp_arena)@, input, fuel as int) matches Some(sigma)
                && stacked_ok(old(expr_arena)@, sigma, e2@, s2@))),
        decreases fuel, 2int,
    {
        let ghost ea0 = old(expr_arena)@;
        let prune = ctx.has_pushed_down() && !ctx.acc_projections.is_empty();
        let ghost keepp = |e: Node| names_contain(ctx.projected_names@, output_name(ea0, e.0 as int));
        let n = exprs.len();
        let mut kept: Vec<Node> = Vec::new();
        let mut kept_names: Vec<String> = Vec::new();
        let mut i: usize = 0;
        proof {
            assert(exprs@.take(0) =~= Seq::<Node>::empty());
            assert(exprs@.take(0).filter(keepp) =~= Seq::<Node>::empty());
        }
        while i < n
            invariant
                i <= n,
                n == exprs@.len(),
                expr_arena_wf(expr_arena@),
                nodes_below(exprs@, ea0.len() as int),
                nodes_below(kept@, ea0.len() as int),
                expr_arena@ == ea0,
                keepp == (|e: Node|
                    names_contain(ctx.projected_names@, output_name(ea0, e.0 as int))),
                prune == (ctx.acc_projections@.len() > 0),
                prune ==> kept@ == exprs@.take(i as int).filter(keepp),
                !prune ==> kept@ == exprs@.take(i as int),
            decreases n - i,
        {
            proof {
                let t = exprs@.take(i as int);
                assert(exprs@.take(i as int + 1) =~= t.push(exprs@[i as int]));
                crate::columns::lemma_filter_push(t, keepp, exprs@[i as int]);
            }
            let name = expr_output_name(expr_arena, exprs[i]);
            let keep = if prune {
                names_contains(&ctx.projected_names, &name)
            } else {
                true
            };
            proof {
                if prune {
                    assert(keep == keepp(exprs@[i as int]));
                }
            }
            if keep {
                kept.push(exprs[i]);
                kept_names.push(name);
            }
            i += 1;
        }
        proof {
            assert(exprs@.take(n as int) =~= exprs@);
        }
        // Columns the surviving stack provides are removed from the pushed
        // set; they no longer need to come from below.
        let mut child_acc: Vec<ColumnNode> = Vec::new();
        let mut child_names: Vec<String> = Vec::new();
        if prune {
            let na = ctx.acc_projections.len();
            let mut j: usize = 0;
            while j < na
                invariant
                    j <= na,
                    na == ctx.acc_projections@.len(),
                    na == ctx.projected_names@.len(),
                    ctx.wf(ea0),
                    expr_arena@ == ea0,
                    child_acc@.len() == child_names@.len(),
                    acc_wf(expr_arena@, child_acc@, child_names@),
                    forall|k: int|
                        0 <= k < child_names@.len() ==> exists|x: int|
                            0 <= x < j && #[trigger] child_names@[k] == ctx.projected_names@[x]
                                && child_acc@[k] == ctx.acc_projections@[x],
                decreases na - j,
            {
                let name = &ctx.projected_names[j];
                if !names_contains(&kept_names, name) {
                    child_acc.push(ctx.acc_projections[j]);
                    child_names.push(name.clone());
                    proof {
                        let last = child_names@.len() - 1;
                        assert(child_names@[last] == ctx.projected_names@[j as int]);
                        assert(child_acc@[last] == ctx.acc_projections@[j as int]);
                        assert forall|a: int, b: int|
                            0 <= a < b < child_names@.len() implies child_names@[a]@
                            != child_names@[b]@ by {
                            if b == last {
                                let x = choose|x: int|
                                    0 <= x < j && child_names@[a] == ctx.projected_names@[x]
                                        && child_acc@[a] == ctx.acc_projections@[x];
                                assert(ctx.projected_names@[x]@ != ctx.projected_names@[j as int]@);
                            }
                        }
                    }
                }
                j += 1;
            }
        }
        // Force the surviving expressions' dependencies in.
        let nke = kept.len();
        let mut k: usize = 0;
        while k < nke
            invariant
                k <= nke,
                nke == kept@.len(),
                expr_arena_wf(expr_arena@),
                nodes_below(kept@, ea0.len() as int),
                expr_arena@ == ea0,
                acc_wf(expr_arena@, child_acc@, child_names@),
            decreases nke - k,
        {
            let ghost a0 = child_acc@;
            let ghost n0 = child_names@;
            add_expr_to_accumulated(kept[k], &mut child_acc, &mut child_names, expr_arena);
            proof {
                crate::arena::lemma_arena_len_bound(expr_arena);
                lemma_leaf_columns_are_columns(expr_arena@, kept@[k as int].0 as int);
                lemma_acc_insert_all_wf(
                    expr_arena@,
                    a0,
                    n0,
                    leaf_columns(expr_arena@, kept@[k as int].0 as int),
                );
            }
            k += 1;
        }
        let child_ctx = ProjectionContext::new(child_acc, child_names, ctx.inner);
        match self.pushdown_and_assign(input, child_ctx, lp_arena, expr_arena, fuel) {
            Ok(()) => {},
            Err(e) => {
                return Err(e);
            },
        }
        // Rebuild the schema: the rewritten input's columns plus the
        // surviving stacked columns.
        proof {
            lemma_plan_wf_schemas(lp_arena@, expr_arena@.len() as int);
        }
        let base = match node_schema(lp_arena, input, fuel) {
            Ok(s) => s.duplicate(),
            Err(e) => {
                return Err(e);
            },
        };
        let mut new_schema = base.duplicate();
        let nk2 = kept.len();
        let mut m: usize = 0;
        let ghost lp1 = lp_arena@;
        proof {
            assert forall|x: int| 0 <= x < base@.len() implies seq_contains_name(
                new_schema@,
                (#[trigger] base@[x]).name@,
            ) by {
                assert(new_schema@[x].name@ == base@[x].name@);
            }
        }
        while m < nk2
            invariant
                m <= nk2,
                nk2 == kept@.len(),
                expr_arena_wf(expr_arena@),
                nodes_below(kept@, expr_arena@.len() as int),
                nodes_below(kept@, ea0.len() as int),
                base.wf(),
                new_schema.wf(),
                ea0.is_prefix_of(expr_arena@),
                ea0 == old(expr_arena)@,
                old(lp_arena)@.len() <= lp_arena@.len(),
                lp_arena@ == lp1,
                plan_arena_wf(lp_arena@, expr_arena@.len() as int),
                forall|x: int|
                    0 <= x < new_schema@.len() ==> (seq_contains_name(
                        base@,
                        (#[trigger] new_schema@[x]).name@,
                    ) || exists|k2: int|
                        0 <= k2 < m && output_name(ea0, kept@[k2].0 as int)
                            == new_schema@[x].name@),
                forall|x: int|
                    0 <= x < base@.len() ==> seq_contains_name(
                        new_schema@,
                        (#[trigger] base@[x]).name@,
                    ),
                forall|k2: int|
                    0 <= k2 < m ==> seq_contains_name(
                        new_schema@,
                        output_name(ea0, (#[trigger] kept@[k2]).0 as int),
                    ),
            decreases nk2 - m,
        {
            let ghost before = new_schema@;
            match crate::expr::expr_output_field(expr_arena, &base, kept[m]) {
                Ok(f) => {
                    proof {
                        lemma_output_name_prefix(ea0, expr_arena@, kept@[m as int].0 as int);
                        assert(f.name@ == output_name(ea0, kept@[m as int].0 as int));
                    }
                    let ghost fname = f.name@;
                    new_schema.with_column(f.name, f.dtype);
                    proof {
                        let after = new_schema@;
                        // Every name view survives the overwrite-or-append
                        // step, and the step's own name is present.
                        if seq_contains_name(before, fname) {
                            let i0 = choose|i0: int|
                                0 <= i0 < before.len() && before[i0].name@ == fname && after
                                    == before.update(
                                    i0,
                                    Field { name: f.name, dtype: f.dtype },
                                );
                            assert forall|x: int| 0 <= x < after.len() implies after[x].name@
                                == before[x].name@ by {
                                if x != i0 {
                                    assert(after[x] == before[x]);
                                }
                            }
                            assert(seq_contains_name(after, fname)) by {
                                assert(after[i0].name@ == fname);
                            }
                        } else {
                            assert(after == before.push(Field { name: f.name, dtype: f.dtype }));
                            assert(seq_contains_name(after, fname)) by {
                                assert(after[after.len() - 1].name@ == fname);
                            }
                        }
                        assert forall|x: int| 0 <= x < after.len() implies (seq_contains_name(
                            base@,
                            (#[trigger] after[x]).name@,
                        ) || exists|k2: int|
                            0 <= k2 < m + 1 && output_name(ea0, kept@[k2].0 as int)
                                == after[x].name@) by {
                            if x < before.len() && after[x].name@ == before[x].name@ {
                                if seq_contains_name(base@, before[x].name@) {
                                } else {
                                    let k2 = choose|k2: int|
                                        0 <= k2 < m && output_name(ea0, kept@[k2].0 as int)
                                            == before[x].name@;
                                    assert(output_name(ea0, kept@[k2].0 as int)
                                        == after[x].name@);
                                }
                            } else {
                                assert(after[x].name@ == fname);
                                assert(output_name(ea0, kept@[m as int].0 as int)
                                    == after[x].name@);
                            }
                        }
                        assert forall|x: int| 0 <= x < base@.len() implies seq_contains_name(
                            after,
                            (#[trigger] base@[x]).name@,
                        ) by {
                            let w = choose|w: int|
                                0 <= w < before.len() && before[w].name@ == base@[x].name@;
                            assert(after[w].name@ == base@[x].name@);
                        }
                        assert forall|k2: int| 0 <= k2 < m + 1 implies seq_contains_name(
                            after,
                            output_name(ea0, (#[trigger] kept@[k2]).0 as int),
                        ) by {
                            if k2 < m {
                                let w = choose|w: int|
                                    0 <= w < before.len() && before[w].name@ == output_name(
                                        ea0,
                                        kept@[k2].0 as int,
                                    );
                                assert(after[w].name@ == output_name(ea0, kept@[k2].0 as int));
                            } else {
                                assert(seq_contains_name(after, fname));
                            }
                        }
                    }
                },
                Err(e) => {
                    return Err(e);
                },
            }
            m += 1;
        }
        proof {
            assert(node_schema_spec(lp_arena@, input, fuel as int) == Some(base@));
            assert(stacked_ok(ea0, base@, kept@, new_schema@));
        }
        Ok(IR::HStack { input, exprs: kept, schema: new_schema })
    }

    /// Rewrites an external-context node: the supplied part of the
    /// accumulated set is pushed into the main input (anything the input
    /// cannot supply is simply discarded here, since the extra context
    /// schemas may still need those names merged in afterward), each extra
    /// context is walked with a fresh empty context, and the merged schema
    /// is rebuilt from the rewritten input plus any context field not
    /// already present.
    fn process_ext_context(
        &mut self,
        input: Node,
        contexts: Vec<Node>,
        ctx: ProjectionContext,
        lp_arena: &mut Arena<IR>,
        expr_arena: &mut Arena<AExpr>,
        fuel: usize,
    ) -> (r: Result<IR, PlanError>)
        requires
            expr_arena_wf(old(expr_arena)@),
            plan_arena_wf(old(lp_arena)@, old(expr_arena)@.len() as int),
            ctx.wf(old(expr_arena)@),
            input.0 < old(lp_arena)@.len(),
            nodes_below(contexts@, old(lp_arena)@.len() as int),
        ensures
            old(expr_arena)@.is_prefix_of(final(expr_arena)@),
            old(lp_arena)@.len() <= final(lp_arena)@.len(),
            expr_arena_wf(final(expr_arena)@),
            plan_arena_wf(final(lp_arena)@, final(expr_arena)@.len() as int),
            r matches Ok(ir2) ==> ir_wf(
                ir2,
                final(lp_arena)@.len() as int,
                final(expr_arena)@.len() as int,
            ),
            // The node re-emits itself over the same inputs; its merged
            // schema starts with exactly the rewritten input's columns and
            // holds, beyond them, exactly the context fields whose names
            // the input does not already supply.
            r matches Ok(ir2) ==> (ir2 matches IR::ExtContext {
                input: i2,
                contexts: c2,
                schema: s2,
            } && i2 == input && c2@ == contexts@ && (node_schema_spec(
                final(lp_arena)@,
                input,
                fuel as int,
            ) matches Some(sigma0) && {
                &&& sigma0.is_prefix_of(s2@)
                &&& distinct_names(s2@)
                &&& forall|j: int|
                    0 <= j < contexts@.len() ==> (node_schema_spec(
                        final(lp_arena)@,
                        #[trigger] contexts@[j],
                        fuel as int,
                    ) matches Some(cs) ==> forall|x: int|
                        0 <= x < cs.len() ==> seq_contains_name(s2@, (#[trigger] cs[x]).name@))
                &&& forall|x: int|
                    0 <= x < s2@.len() ==> (seq_contains_name(
                        sigma0,
                        (#[trigger] s2@[x]).name@,
                    ) || exists|j: int|
                        #![trigger contexts@[j]]
                        0 <= j < contexts@.len() && (node_schema_spec(
                            final(lp_arena)@,
                            contexts@[j],
                            fuel as int,
                        ) matches Some(cs) && seq_contains_name(cs, s2@[x].name@)))
            })),
        decreases fuel, 2int,
    {
        let ghost ea0 = old(expr_arena)@;
        proof {
            lemma_plan_wf_schemas(lp_arena@, expr_arena@.len() as int);
        }
        let down = match node_schema(lp_arena, input, fuel) {
            Ok(s) => s.duplicate(),
            Err(e) => {
                return Err(e);
            },
        };
        proof {
            let ea = expr_arena@;
            let acc = ctx.acc_projections@;
            assert(acc_nodes_ok(ea, acc));
            assert forall|a: int, b: int| 0 <= a < b < acc.len() implies column_node_name(
                ea,
                acc[a],
            ) != column_node_name(ea, acc[b]) by {
                assert(ctx.projected_names@[a]@ == column_node_name(ea, acc[a]));
                assert(ctx.projected_names@[b]@ == column_node_name(ea, acc[b]));
            }
        }
        let ghost acc0 = ctx.acc_projections@;
        let split = crate::columns::split_acc_projections(
            ctx.acc_projections,
            &down,
            expr_arena,
            false,
        );
        let pushed = split.0;
        let names = split.2;
        proof {
            let ea = expr_arena@;
            if pushed@.len() > 0 || names@.len() > 0 {
                crate::columns::lemma_filter_acc_wf(
                    ea,
                    acc0,
                    |c: ColumnNode| seq_contains_name(down@, column_node_name(ea, c)),
                );
            }
            assert(acc_wf(ea, pushed@, names@));
        }
        let ctx2 = ProjectionContext::new(pushed, names, ctx.inner);
        match self.pushdown_and_assign(input, ctx2, lp_arena, expr_arena, fuel) {
            Ok(()) => {},
            Err(e) => {
                return Err(e);
            },
        }
        // The extra contexts are walked with nothing pushed.
        let nc = contexts.len();
        let mut c: usize = 0;
        while c < nc
            invariant
                c <= nc,
                nc == contexts@.len(),
                expr_arena_wf(expr_arena@),
                plan_arena_wf(lp_arena@, expr_arena@.len() as int),
                nodes_below(contexts@, old(lp_arena)@.len() as int),
                old(lp_arena)@.len() <= lp_arena@.len(),
                ea0 == old(expr_arena)@,
                ea0.is_prefix_of(expr_arena@),
            decreases nc - c,
        {
            let empty = ProjectionContext::empty(ctx.inner);
            let ghost ea_before = expr_arena@;
            match self.pushdown_and_assign(contexts[c], empty, lp_arena, expr_arena, fuel) {
                Ok(()) => {},
                Err(e) => {
                    proof {
                        lemma_prefix_trans(ea0, ea_before, expr_arena@);
                    }
                    return Err(e);
                },
            }
            proof {
                lemma_prefix_trans(ea0, ea_before, expr_arena@);
            }
            c += 1;
        }
        // Merged schema: the rewritten input's columns, then any context
        // field not already present.
        proof {
            lemma_plan_wf_schemas(lp_arena@, expr_arena@.len() as int);
        }
        let mut new_schema = match node_schema(lp_arena, input, fuel) {
            Ok(s) => s.duplicate(),
            Err(e) => {
                return Err(e);
            },
        };
        let ghost sigma0 = new_schema@;
        let ghost lp1 = lp_arena@;
        let mut c2: usize = 0;
        proof {
            crate::columns::lemma_prefix_refl(sigma0);
        }
        while c2 < nc
            invariant
                c2 <= nc,
                nc == contexts@.len(),
                plan_arena_wf(lp_arena@, expr_arena@.len() as int),
                nodes_below(contexts@, old(lp_arena)@.len() as int),
                old(lp_arena)@.len() <= lp_arena@.len(),
                old(expr_arena)@.is_prefix_of(expr_arena@),
                expr_arena_wf(expr_arena@),
                new_schema.wf(),
                lp_arena@ == lp1,
                sigma0.is_prefix_of(new_schema@),
                forall|j: int|
                    0 <= j < c2 ==> (node_schema_spec(lp1, #[trigger] contexts@[j], fuel as int)
                        matches Some(cs) ==> forall|x: int|
                        0 <= x < cs.len() ==> seq_contains_name(
                            new_schema@,
                            (#[trigger] cs[x]).name@,
                        )),
                forall|j: int|
                    0 <= j < c2 ==> node_schema_spec(
                        lp1,
                        #[trigger] contexts@[j],
                        fuel as int,
                    ) is Some,
                forall|x: int|
                    0 <= x < new_schema@.len() ==> (seq_contains_name(
                        sigma0,
                        (#[trigger] new_schema@[x]).name@,
                    ) || exists|j: int|
                        #![trigger contexts@[j]]
                        0 <= j < c2 && (node_schema_spec(lp1, contexts@[j], fuel as int)
                            matches Some(cs) && seq_contains_name(cs, new_schema@[x].name@))),
            decreases nc - c2,
        {
            proof {
                lemma_plan_wf_schemas(lp_arena@, expr_arena@.len() as int);
            }
            let cs = match node_schema(lp_arena, contexts[c2], fuel) {
                Ok(s) => s.duplicate(),
                Err(e) => {
                    return Err(e);
                },
            };
            let nf = cs.len();
            let mut fi: usize = 0;
            while fi < nf
                invariant
                    fi <= nf,
                    nf == cs@.len(),
                    new_schema.wf(),
                    plan_arena_wf(lp_arena@, expr_arena@.len() as int),
                    nodes_below(contexts@, old(lp_arena)@.len() as int),
                    old(lp_arena)@.len() <= lp_arena@.len(),
                    old(expr_arena)@.is_prefix_of(expr_arena@),
                    expr_arena_wf(expr_arena@),
                    lp_arena@ == lp1,
                    c2 < nc,
                    node_schema_spec(lp1, contexts@[c2 as int], fuel as int) == Some(cs@),
                    sigma0.is_prefix_of(new_schema@),
                    forall|j: int|
                        0 <= j < c2 ==> (node_schema_spec(
                            lp1,
                            #[trigger] contexts@[j],
                            fuel as int,
                        ) matches Some(ds) ==> forall|x: int|
                            0 <= x < ds.len() ==> seq_contains_name(
                                new_schema@,
                                (#[trigger] ds[x]).name@,
                            )),
                    forall|j: int|
                        0 <= j < c2 ==> node_schema_spec(
                            lp1,
                            #[trigger] contexts@[j],
                            fuel as int,
                        ) is Some,
                    forall|x: int| 0 <= x < fi ==> seq_contains_name(new_schema@, cs@[x].name@),
                    forall|x: int|
                        0 <= x < new_schema@.len() ==> (seq_contains_name(
                            sigma0,
                            (#[trigger] new_schema@[x]).name@,
                        ) || exists|j: int|
                            #![trigger contexts@[j]]
                            0 <= j <= c2 && (node_schema_spec(lp1, contexts@[j], fuel as int)
                                matches Some(ds) && seq_contains_name(
                                ds,
                                new_schema@[x].name@,
                            ))),
                decreases nf - fi,
            {
                let f = cs.get_at_index(fi);
                let ghost before = new_schema@;
                if !new_schema.contains(&f.name) {
                    let dup = f.duplicate();
                    new_schema.push_field(dup.name, dup.dtype);
                    proof {
                        crate::columns::lemma_push_prefix(before, new_schema@[before.len() as int]);
                        lemma_prefix_trans(sigma0, before, new_schema@);
                        assert forall|x: int| 0 <= x <= fi implies seq_contains_name(
                            new_schema@,
                            cs@[x].name@,
                        ) by {
                            if x < fi {
                                let w = choose|w: int|
                                    0 <= w < before.len() && before[w].name@ == cs@[x].name@;
                                assert(new_schema@[w].name@ == cs@[x].name@);
                            } else {
                                assert(new_schema@[before.len() as int].name@ == cs@[x].name@);
                            }
                        }
                        assert forall|j: int|
                            0 <= j < c2 implies (node_schema_spec(
                            lp1,
                            #[trigger] contexts@[j],
                            fuel as int,
                        ) matches Some(ds) ==> forall|x: int|
                            0 <= x < ds.len() ==> seq_contains_name(
                                new_schema@,
                                (#[trigger] ds[x]).name@,
                            )) by {
                            match node_schema_spec(lp1, contexts@[j], fuel as int) {
                                Some(ds) => {
                                    assert forall|x: int|
                                        0 <= x < ds.len() implies seq_contains_name(
                                        new_schema@,
                                        (#[trigger] ds[x]).name@,
                                    ) by {
                                        let w = choose|w: int|
                                            0 <= w < before.len() && before[w].name@
                                                == ds[x].name@;
                                        assert(new_schema@[w].name@ == ds[x].name@);
                                    }
                                },
                                None => {},
                            }
                        }
                    }
                } else {
                    proof {
                        assert(seq_contains_name(new_schema@, cs@[fi as int].name@));
                        assert forall|x: int| 0 <= x <= fi implies seq_contains_name(
                            new_schema@,
                            cs@[x].name@,
                        ) by {
                        }
                    }
                }
                fi += 1;
            }
            c2 += 1;
        }
        Ok(IR::ExtContext { input, contexts, schema: new_schema })
    }

    /// Rewrites a horizontal concatenation: each input receives exactly
    /// the accumulated columns its own schema can supply.
    fn process_hconcat(
        &mut self,
        inputs: Vec<Node>,
        schema: Schema,
        ctx: ProjectionContext,
        lp_arena: &mut Arena<IR>,
        expr_arena: &mut Arena<AExpr>,
        fuel: usize,
    ) -> (r: Result<IR, PlanError>)
        requires
            expr_arena_wf(old(expr_arena)@),
            plan_arena_wf(old(lp_arena)@, old(expr_arena)@.len() as int),
            ctx.wf(old(expr_arena)@),
            nodes_below(inputs@, old(lp_arena)@.len() as int),
            distinct_names(schema@),
        ensures
            old(expr_arena)@.is_prefix_of(final(expr_arena)@),
            old(lp_arena)@.len() <= final(lp_arena)@.len(),
            expr_arena_wf(final(expr_arena)@),
            plan_arena_wf(final(lp_arena)@, final(expr_arena)@.len() as int),
            r matches Ok(ir2) ==> ir_wf(
                ir2,
                final(lp_arena)@.len() as int,
                final(expr_arena)@.len() as int,
            ),
            // The concatenation re-emits itself over the same inputs; with
            // pushdown active its schema holds exactly the columns the
            // rewritten inputs now produce, side by side.
            r matches Ok(ir2) ==> (ir2 matches IR::HConcat { inputs: in2, schema: s2 } && in2@
                == inputs@ && (if ctx.acc_projections@.len() == 0 {
                s2@ == schema@
            } else {
                &&& distinct_names(s2@)
                &&& forall|m: int|
                    0 <= m < inputs@.len() ==> node_schema_spec(
                        final(lp_arena)@,
                        #[trigger] inputs@[m],
                        fuel as int,
                    ) is Some
                &&& forall|m: int|
                    0 <= m < inputs@.len() ==> (node_schema_spec(
                        final(lp_arena)@,
                        #[trigger] inputs@[m],
                        fuel as int,
                    ) matches Some(cs) ==> forall|x: int|
                        0 <= x < cs.len() ==> seq_contains_name(s2@, (#[trigger] cs[x]).name@))
                &&& forall|x: int|
                    0 <= x < s2@.len() ==> exists|m: int|
                        #![trigger inputs@[m]]
                        0 <= m < inputs@.len() && (node_schema_spec(
                            final(lp_arena)@,
                            inputs@[m],
                            fuel as int,
                        ) matches Some(cs) && seq_contains_name(cs, (#[trigger] s2@[x]).name@))
            })),
        decreases fuel, 2int,
    {
        let ghost ea0 = old(expr_arena)@;
        if !(ctx.has_pushed_down() && !ctx.acc_projections.is_empty()) {
            match self.process_inputs_same_ctx(&inputs, &ctx, lp_arena, expr_arena, fuel) {
                Ok(()) => {},
                Err(e) => {
                    return Err(e);
                },
            }
            return Ok(IR::HConcat { inputs, schema });
        }
        let n = inputs.len();
        let mut i: usize = 0;
        while i < n
            invariant
                i <= n,
                n == inputs@.len(),
                expr_arena_wf(expr_arena@),
                plan_arena_wf(lp_arena@, expr_arena@.len() as int),
                ctx.wf(ea0),
                nodes_below(inputs@, old(lp_arena)@.len() as int),
                old(lp_arena)@.len() <= lp_arena@.len(),
                ea0 == old(expr_arena)@,
                ea0.is_prefix_of(expr_arena@),
            decreases n - i,
        {
            proof {
                lemma_acc_wf_prefix(ea0, expr_arena@, ctx.acc_projections@, ctx.projected_names@);
                lemma_plan_wf_schemas(lp_arena@, expr_arena@.len() as int);
            }
            let in_schema = match node_schema(lp_arena, inputs[i], fuel) {
                Ok(s) => s.duplicate(),
                Err(e) => {
                    return Err(e);
                },
            };
            // This input supplies only the columns its own schema holds.
            let na = ctx.acc_projections.len();
            let mut child_acc: Vec<ColumnNode> = Vec::new();
            let mut child_names: Vec<String> = Vec::new();
            let mut j: usize = 0;
            while j < na
                invariant
                    j <= na,
                    na == ctx.acc_projections@.len(),
                    na == ctx.projected_names@.len(),
                    ctx.wf(expr_arena@),
                    child_acc@.len() == child_names@.len(),
                    acc_wf(expr_arena@, child_acc@, child_names@),
                    in_schema.wf(),
                    forall|k: int|
                        0 <= k < child_names@.len() ==> exists|x: int|
                            0 <= x < j && #[trigger] child_names@[k] == ctx.projected_names@[x]
                                && child_acc@[k] == ctx.acc_projections@[x],
                decreases na - j,
            {
                let name = &ctx.projected_names[j];
                if in_schema.contains(name) {
                    child_acc.push(ctx.acc_projections[j]);
                    child_names.push(name.clone());
                    proof {
                        let last = child_names@.len() - 1;
                        assert(child_names@[last] == ctx.projected_names@[j as int]);
                        assert(child_acc@[last] == ctx.acc_projections@[j as int]);
                        assert forall|a: int, b: int|
                            0 <= a < b < child_names@.len() implies child_names@[a]@
                            != child_names@[b]@ by {
                            if b == last {
                                let x = choose|x: int|
                                    0 <= x < j && child_names@[a] == ctx.projected_names@[x]
                                        && child_acc@[a] == ctx.acc_projections@[x];
                                assert(ctx.projected_names@[x]@ != ctx.projected_names@[j as int]@);
                            }
                        }
                    }
                }
                j += 1;
            }
            let child_ctx = ProjectionContext::new(child_acc, child_names, ctx.inner);
            let ghost ea_before = expr_arena@;
            match self.pushdown_and_assign(inputs[i], child_ctx, lp_arena, expr_arena, fuel) {
                Ok(()) => {},
                Err(e) => {
                    proof {
                        lemma_prefix_trans(ea0, ea_before, expr_arena@);
                    }
                    return Err(e);
                },
            }
            proof {
                lemma_prefix_trans(ea0, ea_before, expr_arena@);
            }
            i += 1;
        }
        // The output schema is what the rewritten inputs now produce, side
        // by side.
        proof {
            lemma_plan_wf_schemas(lp_arena@, expr_arena@.len() as int);
        }
        let mut new_schema = Schema::new();
        let ghost lp1 = lp_arena@;
        let mut m: usize = 0;
        while m < n
            invariant
                m <= n,
                n == inputs@.len(),
                plan_arena_wf(lp_arena@, expr_arena@.len() as int),
                nodes_below(inputs@, old(lp_arena)@.len() as int),
                old(lp_arena)@.len() <= lp_arena@.len(),
                old(expr_arena)@.is_prefix_of(expr_arena@),
                expr_arena_wf(expr_arena@),
                new_schema.wf(),
                lp_arena@ == lp1,
                forall|j: int|
                    0 <= j < m ==> node_schema_spec(
                        lp1,
                        #[trigger] inputs@[j],
                        fuel as int,
                    ) is Some,
                forall|j: int|
                    0 <= j < m ==> (node_schema_spec(lp1, #[trigger] inputs@[j], fuel as int)
                        matches Some(cs) ==> forall|x: int|
                        0 <= x < cs.len() ==> seq_contains_name(
                            new_schema@,
                            (#[trigger] cs[x]).name@,
                        )),
                forall|x: int|
                    0 <= x < new_schema@.len() ==> exists|j: int|
                        #![trigger inputs@[j]]
                        0 <= j < m && (node_schema_spec(lp1, inputs@[j], fuel as int)
                            matches Some(cs) && seq_contains_name(
                            cs,
                            (#[trigger] new_schema@[x]).name@,
                        )),
            decreases n - m,
        {
            proof {
                lemma_plan_wf_schemas(lp_arena@, expr_arena@.len() as int);
            }
            let cs = match node_schema(lp_arena, inputs[m], fuel) {
                Ok(s) => s.duplicate(),
                Err(e) => {
                    return Err(e);
                },
            };
            let nf = cs.len();
            let mut fi: usize = 0;
            while fi < nf
                invariant
                    fi <= nf,
                    nf == cs@.len(),
                    new_schema.wf(),
                    plan_arena_wf(lp_arena@, expr_arena@.len() as int),
                    nodes_below(inputs@, old(lp_arena)@.len() as int),
                    old(lp_arena)@.len() <= lp_arena@.len(),
                    old(expr_arena)@.is_prefix_of(expr_arena@),
                    expr_arena_wf(expr_arena@),
                    lp_arena@ == lp1,
                    m < n,
                    node_schema_spec(lp1, inputs@[m as int], fuel as int) == Some(cs@),
                    forall|j: int|
                        0 <= j < m ==> node_schema_spec(
                            lp1,
                            #[trigger] inputs@[j],
                            fuel as int,
                        ) is Some,
                    forall|j: int|
                        0 <= j < m ==> (node_schema_spec(lp1, #[trigger] inputs@[j], fuel as int)
                            matches Some(ds) ==> forall|x: int|
                            0 <= x < ds.len() ==> seq_contains_name(
                                new_schema@,
                                (#[trigger] ds[x]).name@,
                            )),
                    forall|x: int| 0 <= x < fi ==> seq_contains_name(new_schema@, cs@[x].name@),
                    forall|x: int|
                        0 <= x < new_schema@.len() ==> exists|j: int|
                            #![trigger inputs@[j]]
                            0 <= j <= m && (node_schema_spec(lp1, inputs@[j], fuel as int)
                                matches Some(ds) && seq_contains_name(
                                ds,
                                (#[trigger] new_schema@[x]).name@,
                            )),
                decreases nf - fi,
            {
                let f = cs.get_at_index(fi);
                let ghost before = new_schema@;
                if !new_schema.contains(&f.name) {
                    let dup = f.duplicate();
                    new_schema.push_field(dup.name, dup.dtype);
                    proof {
                        assert forall|x: int| 0 <= x <= fi implies seq_contains_name(
                            new_schema@,
                            cs@[x].name@,
                        ) by {
                            if x < fi {
                                let w = choose|w: int|
                                    0 <= w < before.len() && before[w].name@ == cs@[x].name@;
                                assert(new_schema@[w].name@ == cs@[x].name@);
                            } else {
                                assert(new_schema@[before.len() as int].name@ == cs@[x].name@);
                            }
                        }
                        assert forall|j: int|
                            0 <= j < m implies (node_schema_spec(
                            lp1,
                            #[trigger] inputs@[j],
                            fuel as int,
                        ) matches Some(ds) ==> forall|x: int|
                            0 <= x < ds.len() ==> seq_contains_name(
                                new_schema@,
                                (#[trigger] ds[x]).name@,
                            )) by {
                            match node_schema_spec(lp1, inputs@[j], fuel as int) {
                                Some(ds) => {
                                    assert forall|x: int|
                                        0 <= x < ds.len() implies seq_contains_name(
                                        new_schema@,
                                        (#[trigger] ds[x]).name@,
                                    ) by {
                                        let w = choose|w: int|
                                            0 <= w < before.len() && before[w].name@
                                                == ds[x].name@;
                                        assert(new_schema@[w].name@ == ds[x].name@);
                                    }
                                },
                                None => {},
                            }
                        }
                    }
                } else {
                    proof {
                        assert(seq_contains_name(new_schema@, cs@[fi as int].name@));
                    }
                }
                fi += 1;
            }
            m += 1;
        }
        Ok(IR::HConcat { inputs, schema: new_schema })
    }

    /// The closure property at a scan: the output schema a scan is
    /// narrowed to (`df_scan_output` is exactly the schema the in-memory
    /// scan rule produces) contains every column name the ancestors
    /// accumulated — no required column is ever dropped.
    pub proof fn lemma_scan_output_closure(
        ea: Seq<AExpr>,
        acc: Seq<ColumnNode>,
        schema: Seq<Field>,
    )
        requires
            distinct_names(schema),
            forall|k: int|
                0 <= k < acc.len() ==> seq_contains_name(
                    schema,
                    column_node_name(ea, #[trigger] acc[k]),
                ),
        ensures
            forall|k: int|
                0 <= k < acc.len() ==> seq_contains_name(
                    df_scan_output(ea, acc, schema),
                    column_node_name(ea, #[trigger] acc[k]),
                ),
    {
        let out = df_scan_output(ea, acc, schema);
        assert forall|k: int| 0 <= k < acc.len() implies seq_contains_name(
            out,
            column_node_name(ea, #[trigger] acc[k]),
        ) by {
            crate::schema::lemma_field_named(schema, column_node_name(ea, acc[k]));
            assert(out[k] == field_named(schema, column_node_name(ea, acc[k])));
            assert(out[k].name@ == column_node_name(ea, acc[k]));
        }
    }

    /// The closure property at an order-sensitive scan: re-sorting the
    /// narrowed output schema into file order (which is what the file scan
    /// rule produces when the reader requires it) still keeps every
    /// accumulated column name.
    pub proof fn lemma_scan_output_closure_sorted(
        ea: Seq<AExpr>,
        acc: Seq<ColumnNode>,
        schema: Seq<Field>,
    )
        requires
            distinct_names(schema),
            forall|k: int|
                0 <= k < acc.len() ==> seq_contains_name(
                    schema,
                    column_node_name(ea, #[trigger] acc[k]),
                ),
        ensures
            forall|k: int|
                0 <= k < acc.len() ==> seq_contains_name(
                    schema.filter(|f: Field| acc_names_contain(ea, acc, f.name@)),
                    column_node_name(ea, #[trigger] acc[k]),
                ),
    {
        let pred = |f: Field| acc_names_contain(ea, acc, f.name@);
        let out = schema.filter(pred);
        assert forall|k: int| 0 <= k < acc.len() implies seq_contains_name(
            out,
            column_node_name(ea, #[trigger] acc[k]),
        ) by {
            let n = column_node_name(ea, acc[k]);
            let j = choose|j: int| 0 <= j < schema.len() && schema[j].name@ == n;
            assert(pred(schema[j]));
            Seq::lemma_filter_contains(schema, pred, j);
            assert(out.contains(schema[j]));
            let x = choose|x: int| 0 <= x < out.len() && out[x] == schema[j];
            assert(out[x].name@ == n);
        }
    }

    /// The optimizer's entry: seeds an empty context (carrying the
    /// count-star flag) and pushes it down from the root.
    pub fn optimize(
        &mut self,
        logical_plan: IR,
        lp_arena: &mut Arena<IR>,
        expr_arena: &mut Arena<AExpr>,
    ) -> (r: Result<IR, PlanError>)
        requires
            expr_arena_wf(old(expr_arena)@),
            plan_arena_wf(old(lp_arena)@, old(expr_arena)@.len() as int),
            ir_wf(logical_plan, old(lp_arena)@.len() as int, old(expr_arena)@.len() as int),
        ensures
            old(expr_arena)@.is_prefix_of(final(expr_arena)@),
            old(lp_arena)@.len() <= final(lp_arena)@.len(),
            expr_arena_wf(final(expr_arena)@),
            plan_arena_wf(final(lp_arena)@, final(expr_arena)@.len() as int),
            r matches Ok(ir2) ==> ir_wf(
                ir2,
                final(lp_arena)@.len() as int,
                final(expr_arena)@.len() as int,
            ),
            // A cache at the root is never rewritten: either it comes back
            // untouched, or (with columns accumulated, which an empty
            // top-level context never has) it is wrapped.
            logical_plan matches IR::Cache { input, id } ==> r == Ok::<IR, PlanError>(
                logical_plan,
            ) && final(lp_arena)@ == old(lp_arena)@ && final(expr_arena)@ == old(expr_arena)@,
            // An in-memory scan at the root: a count-star query narrows it
            // to the one synthesized cheap column; anything else has no
            // projection above it, so it is left alone.
            logical_plan matches IR::DataFrameScan { schema, output_schema } ==> {
                &&& (old(self).is_count_star && schema@.len() > 0 ==> (r matches Ok(res) && (res
                matches IR::DataFrameScan { schema: s2, output_schema: os2 } && s2 == schema && (
                os2 matches Some(o) && o@ == seq![count_star_field(schema@)]))))
                &&& (old(self).is_count_star && schema@.len() == 0 ==> (r matches Ok(res) && (res
                matches IR::DataFrameScan { schema: s2, output_schema: os2 } && s2 == schema && (
                os2 matches Some(o) && o@.len() == 0))))
                &&& (!old(self).is_count_star ==> r == Ok::<IR, PlanError>(logical_plan))
            },
            // A file scan at the root follows the scan rule with nothing
            // accumulated.
            logical_plan is Scan ==> scan_rewrite_ok(
                old(self).is_count_star,
                old(expr_arena)@,
                Seq::<ColumnNode>::empty(),
                logical_plan,
                r,
            ),
            // Pass-through operators at the root come back unchanged.
            (logical_plan is Sort || logical_plan is Filter || logical_plan is Distinct
                || logical_plan is Slice || logical_plan is Sink || logical_plan is MergeSorted
                || logical_plan is Union || logical_plan is SinkMultiple) ==> (r matches Ok(ir2)
                ==> ir2 == logical_plan),
    {
        let ctx = ProjectionContext::empty(
            ProjectionCopyState { projections_seen: 0, is_count_star: self.is_count_star },
        );
        self.push_down(logical_plan, ctx, lp_arena, expr_arena, MAX_PLAN_DEPTH)
    }
}

} // verus!
