//! The logical plan: a tagged variant type over operator kinds, with child
//! plan handles and operator-specific payload. Exhaustive matching over this
//! type is what forces every operator to be handled by the optimizer's
//! dispatcher.

use vstd::prelude::*;
use crate::arena::{Arena, Node};
use crate::error::PlanError;
use crate::schema::{Field, Schema, distinct_names};

verus! {

/// What kind of source feeds a file scan. An anonymous scan is driven by
/// code the optimizer does not control, so it carries its own word on
/// whether projection pushdown is allowed.
#[derive(Clone, Copy, PartialEq, Eq, Structural, Debug)]
pub enum FileScanKind {
    Anonymous { allows_projection_pushdown: bool },
    Csv,
    Ipc,
    NDJson,
    Parquet,
}

impl FileScanKind {
    /// Whether the optimizer may narrow this scan at all.
    pub open spec fn spec_allows_projection_pushdown(&self) -> bool {
        match *self {
            FileScanKind::Anonymous { allows_projection_pushdown } => allows_projection_pushdown,
            _ => true,
        }
    }

    #[verifier::when_used_as_spec(spec_allows_projection_pushdown)]
    pub fn allows_projection_pushdown(&self) -> (r: bool)
        ensures
            r == self.spec_allows_projection_pushdown(),
    {
        match self {
            FileScanKind::Anonymous { allows_projection_pushdown } => *allows_projection_pushdown,
            _ => true,
        }
    }

    /// Whether the projected columns must be re-sorted into the file
    /// schema's declared order: a CSV reader always reads columns in file
    /// order, and the other formats require it once a row index is
    /// prepended.
    pub open spec fn spec_sort_projection(&self, has_row_index: bool) -> bool {
        match *self {
            FileScanKind::Csv => true,
            FileScanKind::Anonymous { allows_projection_pushdown } => false,
            _ => has_row_index,
        }
    }

    #[verifier::when_used_as_spec(spec_sort_projection)]
    pub fn sort_projection(&self, has_row_index: bool) -> (r: bool)
        ensures
            r == self.spec_sort_projection(has_row_index),
    {
        match self {
            FileScanKind::Csv => true,
            FileScanKind::Anonymous { .. } => false,
            _ => has_row_index,
        }
    }
}

/// How two relations are joined.
#[derive(Clone, Copy, PartialEq, Eq, Structural, Debug)]
pub enum JoinType {
    Inner,
    Left,
    Full,
    Cross,
    Semi,
    Anti,
}

impl JoinType {
    /// True of the joins whose output carries only the left side's columns.
    pub open spec fn spec_is_semi_anti(&self) -> bool {
        self is Semi || self is Anti
    }

    #[verifier::when_used_as_spec(spec_is_semi_anti)]
    pub fn is_semi_anti(&self) -> (r: bool)
        ensures
            r == self.spec_is_semi_anti(),
    {
        matches!(self, JoinType::Semi | JoinType::Anti)
    }
}

/// One logical plan operator. Child operators are `Node` handles into the
/// plan arena; expressions are handles into the expression arena.
pub enum IR {
    /// A scan over an already-materialized in-memory relation.
    DataFrameScan { schema: Schema, output_schema: Option<Schema> },
    /// A scan over stored data. `projection` is the finalized list of
    /// physical column names handed to the reader and `output_schema` the
    /// narrowed schema; both `None` mean "no narrowing, read everything".
    /// `row_index` and `include_file_paths` name virtual columns the reader
    /// injects rather than reads.
    Scan {
        file_schema: Schema,
        scan_kind: FileScanKind,
        projection: Option<Vec<String>>,
        output_schema: Option<Schema>,
        row_index: Option<String>,
        include_file_paths: Option<String>,
    },
    /// Evaluates a list of expressions; one output column per expression.
    Select { input: Node, expr: Vec<Node>, schema: Schema },
    /// Selects existing columns by name, in the given order.
    SimpleProjection { input: Node, columns: Schema },
    /// Keeps the rows on which the predicate holds.
    Filter { input: Node, predicate: Node },
    /// Reorders rows by the given key expressions.
    Sort { input: Node, by_column: Vec<Node> },
    /// Drops duplicate rows, compared on `subset` or on all columns.
    Distinct { input: Node, subset: Option<Vec<String>> },
    /// Groups by key expressions and evaluates aggregations per group.
    GroupBy { input: Node, keys: Vec<Node>, aggs: Vec<Node>, schema: Schema },
    /// Joins two inputs on key expressions.
    Join {
        input_left: Node,
        input_right: Node,
        left_on: Vec<Node>,
        right_on: Vec<Node>,
        schema: Schema,
        how: JoinType,
    },
    /// Appends computed columns to its input (overwriting same-named ones).
    HStack { input: Node, exprs: Vec<Node>, schema: Schema },
    /// Makes extra relations' columns visible to expressions above.
    ExtContext { input: Node, contexts: Vec<Node>, schema: Schema },
    /// Concatenates inputs vertically.
    Union { inputs: Vec<Node> },
    /// Concatenates inputs horizontally.
    HConcat { inputs: Vec<Node>, schema: Schema },
    /// Keeps `len` rows starting at `offset`.
    Slice { input: Node, offset: i64, len: usize },
    /// Hands its input to a writer.
    Sink { input: Node },
    /// Hands each input to a writer.
    SinkMultiple { inputs: Vec<Node> },
    /// A materialization boundary: the subtree below is computed once and
    /// reused, so the optimizer must not rewrite it in place.
    Cache { input: Node, id: usize },
    /// Merges two inputs that are each sorted on `key`.
    MergeSorted { input_left: Node, input_right: Node, key: String },
    /// An opaque, schema-preserving transformation of its input.
    MapFunction { input: Node },
    /// The placeholder left in an arena slot while its value is taken out.
    Invalid,
}

/// True when every handle of `nodes` points below `len`.
pub open spec fn nodes_below(nodes: Seq<Node>, len: int) -> bool {
    forall|k: int| 0 <= k < nodes.len() ==> (#[trigger] nodes[k]).0 < len
}

/// Structural validity of one plan node against the two arenas: child plan
/// handles in range, expression handles in range, schemas well-formed, and
/// per-expression schemas of matching arity.
pub open spec fn ir_wf(ir: IR, lp_len: int, ea_len: int) -> bool {
    match ir {
        IR::DataFrameScan { schema, output_schema } => {
            &&& distinct_names(schema@)
            &&& (output_schema matches Some(s) ==> distinct_names(s@))
        },
        IR::Scan { file_schema, output_schema, .. } => {
            &&& distinct_names(file_schema@)
            &&& (output_schema matches Some(s) ==> distinct_names(s@))
        },
        IR::Select { input, expr, schema } => {
            &&& input.0 < lp_len
            &&& nodes_below(expr@, ea_len)
            &&& distinct_names(schema@)
            &&& schema@.len() == expr@.len()
        },
        IR::SimpleProjection { input, columns } => {
            &&& input.0 < lp_len
            &&& distinct_names(columns@)
        },
        IR::Filter { input, predicate } => input.0 < lp_len && predicate.0 < ea_len,
        IR::Sort { input, by_column } => input.0 < lp_len && nodes_below(by_column@, ea_len),
        IR::Distinct { input, subset } => input.0 < lp_len,
        IR::GroupBy { input, keys, aggs, schema } => {
            &&& input.0 < lp_len
            &&& nodes_below(keys@, ea_len)
            &&& nodes_below(aggs@, ea_len)
            &&& distinct_names(schema@)
            &&& schema@.len() == keys@.len() + aggs@.len()
        },
        IR::Join { input_left, input_right, left_on, right_on, schema, how } => {
            &&& input_left.0 < lp_len
            &&& input_right.0 < lp_len
            &&& nodes_below(left_on@, ea_len)
            &&& nodes_below(right_on@, ea_len)
            &&& distinct_names(schema@)
        },
        IR::HStack { input, exprs, schema } => {
            &&& input.0 < lp_len
            &&& nodes_below(exprs@, ea_len)
            &&& distinct_names(schema@)
        },
        IR::ExtContext { input, contexts, schema } => {
            &&& input.0 < lp_len
            &&& nodes_below(contexts@, lp_len)
            &&& distinct_names(schema@)
        },
        IR::Union { inputs } => nodes_below(inputs@, lp_len),
        IR::HConcat { inputs, schema } => nodes_below(inputs@, lp_len) && distinct_names(schema@),
        IR::Slice { input, offset, len } => input.0 < lp_len,
        IR::Sink { input } => input.0 < lp_len,
        IR::SinkMultiple { inputs } => nodes_below(inputs@, lp_len),
        IR::Cache { input, id } => input.0 < lp_len,
        IR::MergeSorted { input_left, input_right, key } => {
            input_left.0 < lp_len && input_right.0 < lp_len
        },
        IR::MapFunction { input } => input.0 < lp_len,
        IR::Invalid => true,
    }
}

/// Validity of a node is kept by growing either arena.
pub proof fn lemma_ir_wf_mono(ir: IR, lp_len1: int, ea_len1: int, lp_len2: int, ea_len2: int)
    requires
        ir_wf(ir, lp_len1, ea_len1),
        lp_len1 <= lp_len2,
        ea_len1 <= ea_len2,
    ensures
        ir_wf(ir, lp_len2, ea_len2),
{
}

/// The whole plan arena's validity: every slot holds a valid node.
pub open spec fn plan_arena_wf(lp: Seq<IR>, ea_len: int) -> bool {
    forall|i: int| 0 <= i < lp.len() ==> ir_wf(#[trigger] lp[i], lp.len() as int, ea_len)
}

/// Replacing one slot with a valid node, or appending one, keeps the plan
/// arena valid.
pub proof fn lemma_plan_arena_update(lp: Seq<IR>, ea_len: int, i: int, ir: IR)
    requires
        plan_arena_wf(lp, ea_len),
        0 <= i < lp.len(),
        ir_wf(ir, lp.len() as int, ea_len),
    ensures
        plan_arena_wf(lp.update(i, ir), ea_len),
{
    assert forall|j: int| 0 <= j < lp.update(i, ir).len() implies ir_wf(
        #[trigger] lp.update(i, ir)[j],
        lp.update(i, ir).len() as int,
        ea_len,
    ) by {
        if j != i {
            assert(lp.update(i, ir)[j] == lp[j]);
        }
    }
}

/// Appending a valid node keeps the plan arena valid.
pub proof fn lemma_plan_arena_push(lp: Seq<IR>, ea_len: int, ir: IR)
    requires
        plan_arena_wf(lp, ea_len),
        ir_wf(ir, lp.len() as int + 1, ea_len),
    ensures
        plan_arena_wf(lp.push(ir), ea_len),
{
    assert forall|j: int| 0 <= j < lp.push(ir).len() implies ir_wf(
        #[trigger] lp.push(ir)[j],
        lp.push(ir).len() as int,
        ea_len,
    ) by {
        if j < lp.len() {
            assert(lp.push(ir)[j] == lp[j]);
            lemma_ir_wf_mono(lp[j], lp.len() as int, ea_len, lp.len() as int + 1, ea_len);
        } else {
            assert(lp.push(ir)[j] == ir);
        }
    }
}

/// A growing expression arena keeps the plan arena valid.
pub proof fn lemma_plan_arena_ea_mono(lp: Seq<IR>, ea_len1: int, ea_len2: int)
    requires
        plan_arena_wf(lp, ea_len1),
        ea_len1 <= ea_len2,
    ensures
        plan_arena_wf(lp, ea_len2),
{
    assert forall|i: int| 0 <= i < lp.len() implies ir_wf(
        #[trigger] lp[i],
        lp.len() as int,
        ea_len2,
    ) by {
        lemma_ir_wf_mono(lp[i], lp.len() as int, ea_len1, lp.len() as int, ea_len2);
    }
}

/// The schemas a node carries are well-formed. This is the slice of `ir_wf`
/// that schema resolution needs; it does not depend on the arena sizes.
pub open spec fn ir_schemas_wf(ir: IR) -> bool {
    match ir {
        IR::DataFrameScan { schema, output_schema } => {
            &&& distinct_names(schema@)
            &&& (output_schema matches Some(s) ==> distinct_names(s@))
        },
        IR::Scan { file_schema, output_schema, .. } => {
            &&& distinct_names(file_schema@)
            &&& (output_schema matches Some(s) ==> distinct_names(s@))
        },
        IR::Select { schema, .. } => distinct_names(schema@),
        IR::SimpleProjection { columns, .. } => distinct_names(columns@),
        IR::GroupBy { schema, .. } => distinct_names(schema@),
        IR::Join { schema, .. } => distinct_names(schema@),
        IR::HStack { schema, .. } => distinct_names(schema@),
        IR::ExtContext { schema, .. } => distinct_names(schema@),
        IR::HConcat { schema, .. } => distinct_names(schema@),
        _ => true,
    }
}

/// Every node of the arena carries well-formed schemas.
pub open spec fn plan_schemas_wf(lp: Seq<IR>) -> bool {
    forall|i: int| 0 <= i < lp.len() ==> ir_schemas_wf(#[trigger] lp[i])
}

/// Full structural validity implies well-formed schemas.
pub proof fn lemma_plan_wf_schemas(lp: Seq<IR>, ea_len: int)
    requires
        plan_arena_wf(lp, ea_len),
    ensures
        plan_schemas_wf(lp),
{
    assert forall|i: int| 0 <= i < lp.len() implies ir_schemas_wf(#[trigger] lp[i]) by {
        assert(ir_wf(lp[i], lp.len() as int, ea_len));
    }
}

/// The output schema of the node at `node`, as a sequence of fields:
/// schema-carrying operators answer directly, pass-through operators ask
/// their input, a union answers for its first input, and an exhausted
/// recursion budget or an `Invalid` placeholder yields `None`.
pub open spec fn node_schema_spec(lp: Seq<IR>, node: Node, fuel: int) -> Option<Seq<Field>>
    decreases fuel,
{
    if fuel <= 0 || node.0 >= lp.len() {
        None
    } else {
        match lp[node.0 as int] {
            IR::DataFrameScan { schema, output_schema } => match output_schema {
                Some(s) => Some(s@),
                None => Some(schema@),
            },
            IR::Scan { file_schema, output_schema, .. } => match output_schema {
                Some(s) => Some(s@),
                None => Some(file_schema@),
            },
            IR::Select { schema, .. } => Some(schema@),
            IR::SimpleProjection { columns, .. } => Some(columns@),
            IR::Filter { input, .. } => node_schema_spec(lp, input, fuel - 1),
            IR::Sort { input, .. } => node_schema_spec(lp, input, fuel - 1),
            IR::Distinct { input, .. } => node_schema_spec(lp, input, fuel - 1),
            IR::GroupBy { schema, .. } => Some(schema@),
            IR::Join { schema, .. } => Some(schema@),
            IR::HStack { schema, .. } => Some(schema@),
            IR::ExtContext { schema, .. } => Some(schema@),
            IR::Union { inputs } => {
                if inputs@.len() > 0 {
                    node_schema_spec(lp, inputs@[0], fuel - 1)
                } else {
                    None
                }
            },
            IR::HConcat { schema, .. } => Some(schema@),
            IR::Slice { input, .. } => node_schema_spec(lp, input, fuel - 1),
            IR::Sink { input } => node_schema_spec(lp, input, fuel - 1),
            IR::SinkMultiple { inputs } => {
                if inputs@.len() > 0 {
                    node_schema_spec(lp, inputs@[0], fuel - 1)
                } else {
                    None
                }
            },
            IR::Cache { input, .. } => node_schema_spec(lp, input, fuel - 1),
            IR::MergeSorted { input_left, .. } => node_schema_spec(lp, input_left, fuel - 1),
            IR::MapFunction { input } => node_schema_spec(lp, input, fuel - 1),
            IR::Invalid => None,
        }
    }
}

/// Resolves the output schema of the node at `node`, recursing through
/// pass-through operators. Fails when the recursion budget runs out or a
/// placeholder is reached.
pub fn node_schema<'a>(lp_arena: &'a Arena<IR>, node: Node, fuel: usize) -> (r: Result<
    &'a Schema,
    PlanError,
>)
    requires
        node.0 < lp_arena@.len(),
        plan_schemas_wf(lp_arena@),
    ensures
        match r {
            Ok(s) => node_schema_spec(lp_arena@, node, fuel as int) == Some(s@) && distinct_names(
                s@,
            ),
            Err(e) => node_schema_spec(lp_arena@, node, fuel as int) is None && (e is PlanTooDeep
                || e is MalformedPlan),
        },
    decreases fuel,
{
    proof {
        assert(ir_schemas_wf(lp_arena@[node.0 as int]));
    }
    if fuel == 0 {
        return Err(PlanError::PlanTooDeep);
    }
    match lp_arena.get(node) {
        IR::DataFrameScan { schema, output_schema } => match output_schema {
            Some(s) => Ok(s),
            None => Ok(schema),
        },
        IR::Scan { file_schema, output_schema, .. } => match output_schema {
            Some(s) => Ok(s),
            None => Ok(file_schema),
        },
        IR::Select { schema, .. } => Ok(schema),
        IR::SimpleProjection { columns, .. } => Ok(columns),
        IR::Filter { input, .. } => {
            if input.0 < lp_arena.len() {
                node_schema(lp_arena, *input, fuel - 1)
            } else {
                proof {
                    assert(lp_arena@[node.0 as int] is Filter);
                    assert(lp_arena@[node.0 as int]->Filter_input == *input);
                    assert((*input).0 >= lp_arena@.len());
                    assert(node_schema_spec(lp_arena@, *input, fuel as int - 1) is None);
                    assert(node_schema_spec(lp_arena@, node, fuel as int) == node_schema_spec(
                        lp_arena@,
                        *input,
                        fuel as int - 1,
                    ));
                }
                Err(PlanError::MalformedPlan)
            }
        },
        IR::Sort { input, .. } => {
            if input.0 < lp_arena.len() {
                node_schema(lp_arena, *input, fuel - 1)
            } else {
                proof {
                    assert(lp_arena@[node.0 as int]->Sort_input == *input);
                    assert(node_schema_spec(lp_arena@, *input, fuel as int - 1) is None);
                    assert(node_schema_spec(lp_arena@, node, fuel as int) == node_schema_spec(
                        lp_arena@,
                        *input,
                        fuel as int - 1,
                    ));
                }
                Err(PlanError::MalformedPlan)
            }
        },
        IR::Distinct { input, .. } => {
            if input.0 < lp_arena.len() {
                node_schema(lp_arena, *input, fuel - 1)
            } else {
                proof {
                    assert(lp_arena@[node.0 as int]->Distinct_input == *input);
                    assert(node_schema_spec(lp_arena@, *input, fuel as int - 1) is None);
                    assert(node_schema_spec(lp_arena@, node, fuel as int) == node_schema_spec(
                        lp_arena@,
                        *input,
                        fuel as int - 1,
                    ));
                }
                Err(PlanError::MalformedPlan)
            }
        },
        IR::GroupBy { schema, .. } => Ok(schema),
        IR::Join { schema, .. } => Ok(schema),
        IR::HStack { schema, .. } => Ok(schema),
        IR::ExtContext { schema, .. } => Ok(schema),
        IR::Union { inputs } => {
            if inputs.len() > 0 && inputs[0].0 < lp_arena.len() {
                node_schema(lp_arena, inputs[0], fuel - 1)
            } else {
                proof {
                    assert(lp_arena@[node.0 as int]->Union_inputs == *inputs);
                    if inputs@.len() > 0 {
                        assert(node_schema_spec(lp_arena@, inputs@[0], fuel as int - 1) is None);
                    }
                    assert(node_schema_spec(lp_arena@, node, fuel as int) is None);
                }
                Err(PlanError::MalformedPlan)
            }
        },
        IR::HConcat { schema, .. } => Ok(schema),
        IR::Slice { input, .. } => {
            if input.0 < lp_arena.len() {
                node_schema(lp_arena, *input, fuel - 1)
            } else {
                proof {
                    assert(lp_arena@[node.0 as int]->Slice_input == *input);
                    assert(node_schema_spec(lp_arena@, *input, fuel as int - 1) is None);
                    assert(node_schema_spec(lp_arena@, node, fuel as int) == node_schema_spec(
                        lp_arena@,
                        *input,
                        fuel as int - 1,
                    ));
                }
                Err(PlanError::MalformedPlan)
            }
        },
        IR::Sink { input } => {
            if input.0 < lp_arena.len() {
                node_schema(lp_arena, *input, fuel - 1)
            } else {
                proof {
                    assert(lp_arena@[node.0 as int]->Sink_input == *input);
                    assert(node_schema_spec(lp_arena@, *input, fuel as int - 1) is None);
                    assert(node_schema_spec(lp_arena@, node, fuel as int) == node_schema_spec(
                        lp_arena@,
                        *input,
                        fuel as int - 1,
                    ));
                }
                Err(PlanError::MalformedPlan)
            }
        },
        IR::SinkMultiple { inputs } => {
            if inputs.len() > 0 && inputs[0].0 < lp_arena.len() {
                node_schema(lp_arena, inputs[0], fuel - 1)
            } else {
                proof {
                    assert(lp_arena@[node.0 as int]->SinkMultiple_inputs == *inputs);
                    if inputs@.len() > 0 {
                        assert(node_schema_spec(lp_arena@, inputs@[0], fuel as int - 1) is None);
                    }
                    assert(node_schema_spec(lp_arena@, node, fuel as int) is None);
                }
                Err(PlanError::MalformedPlan)
            }
        },
        IR::Cache { input, .. } => {
            if input.0 < lp_arena.len() {
                node_schema(lp_arena, *input, fuel - 1)
            } else {
                proof {
                    assert(lp_arena@[node.0 as int]->Cache_input == *input);
                    assert(node_schema_spec(lp_arena@, *input, fuel as int - 1) is None);
                    assert(node_schema_spec(lp_arena@, node, fuel as int) == node_schema_spec(
                        lp_arena@,
                        *input,
                        fuel as int - 1,
                    ));
                }
                Err(PlanError::MalformedPlan)
            }
        },
        IR::MergeSorted { input_left, .. } => {
            if input_left.0 < lp_arena.len() {
                node_schema(lp_arena, *input_left, fuel - 1)
            } else {
                proof {
                    assert(lp_arena@[node.0 as int]->MergeSorted_input_left == *input_left);
                    assert(node_schema_spec(lp_arena@, *input_left, fuel as int - 1) is None);
                    assert(node_schema_spec(lp_arena@, node, fuel as int) == node_schema_spec(
                        lp_arena@,
                        *input_left,
                        fuel as int - 1,
                    ));
                }
                Err(PlanError::MalformedPlan)
            }
        },
        IR::MapFunction { input } => {
            if input.0 < lp_arena.len() {
                node_schema(lp_arena, *input, fuel - 1)
            } else {
                proof {
                    assert(lp_arena@[node.0 as int]->MapFunction_input == *input);
                    assert(node_schema_spec(lp_arena@, *input, fuel as int - 1) is None);
                    assert(node_schema_spec(lp_arena@, node, fuel as int) == node_schema_spec(
                        lp_arena@,
                        *input,
                        fuel as int - 1,
                    ));
                }
                Err(PlanError::MalformedPlan)
            }
        },
        IR::Invalid => Err(PlanError::MalformedPlan),
    }
}

} // verus!
