//! Expression nodes. The optimizer inspects only the column reference
//! variant directly; every other variant is opaque to it but traversable, so
//! that the column references an expression transitively reads can be
//! discovered and accumulated.

use vstd::prelude::*;
use vstd::string::StringExecFns;
use crate::arena::{Arena, Node};
use crate::dtype::DataType;
use crate::error::PlanError;
use crate::schema::{Field, Schema, field_named, seq_contains_name};

verus! {

/// A binary operation between two expressions.
#[derive(Clone, Copy, PartialEq, Eq, Structural, Debug)]
pub enum Operator {
    Eq,
    NotEq,
    Lt,
    LtEq,
    Gt,
    GtEq,
    And,
    Or,
    Plus,
    Minus,
    Multiply,
}

impl Operator {
    /// True of the operators whose result is a boolean column.
    pub open spec fn spec_is_comparison(&self) -> bool {
        self is Eq || self is NotEq || self is Lt || self is LtEq || self is Gt || self is GtEq
            || self is And || self is Or
    }

    #[verifier::when_used_as_spec(spec_is_comparison)]
    pub fn is_comparison(&self) -> (r: bool)
        ensures
            r == self.spec_is_comparison(),
    {
        matches!(
            self,
            Operator::Eq | Operator::NotEq | Operator::Lt | Operator::LtEq | Operator::Gt
                | Operator::GtEq | Operator::And | Operator::Or
        )
    }
}

/// An aggregation applied by a group-by.
#[derive(Clone, Copy, PartialEq, Eq, Structural, Debug)]
pub enum AggMethod {
    Min,
    Max,
    Sum,
    Mean,
    First,
    Last,
    Count,
}

/// An expression node; children are handles into the expression arena.
pub enum AExpr {
    /// A reference to a named column of the input relation.
    Column(String),
    /// An integer literal.
    Literal(i64),
    /// A binary operation over two child expressions.
    BinaryExpr { left: Node, op: Operator, right: Node },
    /// A renamed child expression.
    Alias { input: Node, name: String },
    /// An aggregation of a child expression.
    Agg { input: Node, method: AggMethod },
    /// The row count of the input relation.
    Len,
}

/// True when every child handle of `e` points strictly below index `i`.
pub open spec fn expr_children_below(e: AExpr, i: int) -> bool {
    match e {
        AExpr::Column(_) => true,
        AExpr::Literal(_) => true,
        AExpr::BinaryExpr { left, op, right } => left.0 < i && right.0 < i,
        AExpr::Alias { input, name } => input.0 < i,
        AExpr::Agg { input, method } => input.0 < i,
        AExpr::Len => true,
    }
}

/// The expression arena's well-formedness: children precede their parents.
/// Expressions are built bottom-up, so every node the planner or the
/// optimizer inserts satisfies this; it is what makes traversal terminate.
pub open spec fn expr_arena_wf(ea: Seq<AExpr>) -> bool {
    forall|i: int| 0 <= i < ea.len() ==> expr_children_below(#[trigger] ea[i], i)
}

/// Appending a node whose children already precede it keeps the expression
/// arena well-formed; appending a leaf always does.
pub proof fn lemma_expr_arena_push(ea: Seq<AExpr>, e: AExpr)
    requires
        expr_arena_wf(ea),
        expr_children_below(e, ea.len() as int),
    ensures
        expr_arena_wf(ea.push(e)),
{
    assert forall|i: int| 0 <= i < ea.push(e).len() implies expr_children_below(
        #[trigger] ea.push(e)[i],
        i,
    ) by {
        if i < ea.len() {
            assert(ea.push(e)[i] == ea[i]);
        } else {
            assert(ea.push(e)[i] == e);
        }
    }
}

/// A handle into the expression arena that is known, by invariant checked
/// where it is constructed, to point at a `Column` expression.
#[derive(Clone, Copy, PartialEq, Eq, Structural, Debug)]
pub struct ColumnNode(pub Node);

/// True when `n` is a valid handle to a `Column` expression in `ea`.
pub open spec fn is_column_node(ea: Seq<AExpr>, n: ColumnNode) -> bool {
    n.0.0 < ea.len() && ea[n.0.0 as int] is Column
}

/// The name the column node refers to; meaningful only under
/// `is_column_node`.
pub open spec fn column_node_name(ea: Seq<AExpr>, n: ColumnNode) -> Seq<char> {
    ea[n.0.0 as int]->Column_0@
}

/// Reads the name of a known column node.
pub fn column_node_to_name(node: ColumnNode, expr_arena: &Arena<AExpr>) -> (r: &String)
    requires
        is_column_node(expr_arena@, node),
    ensures
        *r == expr_arena@[node.0.0 as int]->Column_0,
        r@ == column_node_name(expr_arena@, node),
{
    match expr_arena.get(node.0) {
        AExpr::Column(name) => name,
        _ => vstd::pervasive::unreached(),
    }
}

/// The leaf column references of the expression rooted at index `i`, in
/// depth-first, left-to-right order. Traversal is guarded by the child-order
/// invariant; an ill-formed arena yields no leaves for the ill-formed part.
pub open spec fn leaf_columns(ea: Seq<AExpr>, i: int) -> Seq<ColumnNode>
    decreases i,
{
    if 0 <= i < ea.len() {
        match ea[i] {
            AExpr::Column(_) => seq![ColumnNode(Node(i as usize))],
            AExpr::Literal(_) => Seq::empty(),
            AExpr::BinaryExpr { left, op, right } => {
                if left.0 < i && right.0 < i {
                    leaf_columns(ea, left.0 as int) + leaf_columns(ea, right.0 as int)
                } else {
                    Seq::empty()
                }
            },
            AExpr::Alias { input, name } => {
                if input.0 < i {
                    leaf_columns(ea, input.0 as int)
                } else {
                    Seq::empty()
                }
            },
            AExpr::Agg { input, method } => {
                if input.0 < i {
                    leaf_columns(ea, input.0 as int)
                } else {
                    Seq::empty()
                }
            },
            AExpr::Len => Seq::empty(),
        }
    } else {
        Seq::empty()
    }
}

/// Every leaf yielded by `leaf_columns` is a valid column node.
pub proof fn lemma_leaf_columns_are_columns(ea: Seq<AExpr>, i: int)
    requires
        ea.len() <= usize::MAX,
    ensures
        forall|k: int|
            0 <= k < leaf_columns(ea, i).len() ==> is_column_node(
                ea,
                #[trigger] leaf_columns(ea, i)[k],
            ),
    decreases i,
{
    if 0 <= i < ea.len() {
        match ea[i] {
            AExpr::Column(_) => {
                let n = ColumnNode(Node(i as usize));
                assert(i as usize as int == i);
                assert(is_column_node(ea, n));
                assert(leaf_columns(ea, i) == seq![n]);
                assert forall|k: int| 0 <= k < leaf_columns(ea, i).len() implies is_column_node(
                    ea,
                    #[trigger] leaf_columns(ea, i)[k],
                ) by {
                    assert(leaf_columns(ea, i)[k] == n);
                }
            },
            AExpr::BinaryExpr { left, op, right } => {
                if left.0 < i && right.0 < i {
                    lemma_leaf_columns_are_columns(ea, left.0 as int);
                    lemma_leaf_columns_are_columns(ea, right.0 as int);
                    let ls = leaf_columns(ea, left.0 as int);
                    let rs = leaf_columns(ea, right.0 as int);
                    assert forall|k: int| 0 <= k < (ls + rs).len() implies is_column_node(
                        ea,
                        #[trigger] (ls + rs)[k],
                    ) by {
                        if k < ls.len() {
                            assert((ls + rs)[k] == ls[k]);
                        } else {
                            assert((ls + rs)[k] == rs[k - ls.len()]);
                        }
                    }
                }
            },
            AExpr::Alias { input, name } => {
                if input.0 < i {
                    lemma_leaf_columns_are_columns(ea, input.0 as int);
                    assert(leaf_columns(ea, i) == leaf_columns(ea, input.0 as int));
                }
            },
            AExpr::Agg { input, method } => {
                if input.0 < i {
                    lemma_leaf_columns_are_columns(ea, input.0 as int);
                    assert(leaf_columns(ea, i) == leaf_columns(ea, input.0 as int));
                }
            },
            _ => {},
        }
    }
}

/// Extending the arena above `i` does not change the output name of the
/// expression rooted at `i`.
pub proof fn lemma_output_name_prefix(ea1: Seq<AExpr>, ea2: Seq<AExpr>, i: int)
    requires
        ea1.len() <= ea2.len(),
        forall|j: int| 0 <= j < ea1.len() ==> ea1[j] == ea2[j],
        i < ea1.len(),
    ensures
        output_name(ea1, i) == output_name(ea2, i),
    decreases i,
{
    if 0 <= i {
        match ea1[i] {
            AExpr::BinaryExpr { left, op, right } => {
                if left.0 < i {
                    lemma_output_name_prefix(ea1, ea2, left.0 as int);
                }
            },
            AExpr::Agg { input, method } => {
                if input.0 < i {
                    lemma_output_name_prefix(ea1, ea2, input.0 as int);
                }
            },
            _ => {},
        }
    }
}

/// The output column name of the expression rooted at `i`: a column keeps
/// its own name, an alias renames its child, an aggregation keeps its
/// child's name, a binary expression takes its left child's name, a literal
/// is called "literal" and a row count is called "len".
pub open spec fn output_name(ea: Seq<AExpr>, i: int) -> Seq<char>
    decreases i,
{
    if 0 <= i < ea.len() {
        match ea[i] {
            AExpr::Column(name) => name@,
            AExpr::Literal(_) => "literal"@,
            AExpr::BinaryExpr { left, op, right } => {
                if left.0 < i {
                    output_name(ea, left.0 as int)
                } else {
                    Seq::empty()
                }
            },
            AExpr::Alias { input, name } => name@,
            AExpr::Agg { input, method } => {
                if input.0 < i {
                    output_name(ea, input.0 as int)
                } else {
                    Seq::empty()
                }
            },
            AExpr::Len => "len"@,
        }
    } else {
        Seq::empty()
    }
}

/// The output type of the expression rooted at `i` against `schema`:
/// comparisons yield booleans, a mean yields a 64-bit float column, a count
/// and a row count yield an unsigned 32-bit index column, and everything
/// else keeps the type of the column or literal it is built from.
pub open spec fn output_dtype(ea: Seq<AExpr>, schema: Seq<Field>, i: int) -> DataType
    decreases i,
{
    if 0 <= i < ea.len() {
        match ea[i] {
            AExpr::Column(name) => field_named(schema, name@).dtype,
            AExpr::Literal(_) => DataType::Int64,
            AExpr::BinaryExpr { left, op, right } => {
                if op.spec_is_comparison() {
                    DataType::Boolean
                } else if left.0 < i {
                    output_dtype(ea, schema, left.0 as int)
                } else {
                    DataType::Null
                }
            },
            AExpr::Alias { input, name } => {
                if input.0 < i {
                    output_dtype(ea, schema, input.0 as int)
                } else {
                    DataType::Null
                }
            },
            AExpr::Agg { input, method } => {
                if method is Mean {
                    DataType::Float64
                } else if method is Count {
                    DataType::UInt32
                } else if input.0 < i {
                    output_dtype(ea, schema, input.0 as int)
                } else {
                    DataType::Null
                }
            },
            AExpr::Len => DataType::UInt32,
        }
    } else {
        DataType::Null
    }
}

/// True when every column the expression rooted at `i` references exists in
/// `schema`: the closure prerequisite for typing it.
pub open spec fn expr_columns_in(ea: Seq<AExpr>, schema: Seq<Field>, i: int) -> bool {
    forall|k: int|
        0 <= k < leaf_columns(ea, i).len() ==> seq_contains_name(
            schema,
            column_node_name(ea, #[trigger] leaf_columns(ea, i)[k]),
        )
}

/// Computes the output name of the expression rooted at `node`.
pub fn expr_output_name(expr_arena: &Arena<AExpr>, node: Node) -> (r: String)
    requires
        expr_arena_wf(expr_arena@),
        node.0 < expr_arena@.len(),
    ensures
        r@ == output_name(expr_arena@, node.0 as int),
    decreases node.0,
{
    match expr_arena.get(node) {
        AExpr::Column(name) => name.clone(),
        AExpr::Literal(_) => String::from_str("literal"),
        AExpr::BinaryExpr { left, op, right } => expr_output_name(expr_arena, *left),
        AExpr::Alias { input, name } => name.clone(),
        AExpr::Agg { input, method } => expr_output_name(expr_arena, *input),
        AExpr::Len => String::from_str("len"),
    }
}

/// Computes the output field (name and type) of the expression rooted at
/// `node` against `schema`. Fails with the missing name exactly when some
/// column the expression references is absent from `schema`.
pub fn expr_output_field(expr_arena: &Arena<AExpr>, schema: &Schema, node: Node) -> (r: Result<
    Field,
    PlanError,
>)
    requires
        expr_arena_wf(expr_arena@),
        node.0 < expr_arena@.len(),
        schema.wf(),
    ensures
        match r {
            Ok(f) => {
                &&& expr_columns_in(expr_arena@, schema@, node.0 as int)
                &&& f.name@ == output_name(expr_arena@, node.0 as int)
                &&& f.dtype == output_dtype(expr_arena@, schema@, node.0 as int)
            },
            Err(e) => {
                &&& !expr_columns_in(expr_arena@, schema@, node.0 as int)
                &&& e is ColumnNotFound
            },
        },
    decreases node.0,
{
    let ghost ea = expr_arena@;
    let ghost i = node.0 as int;
    match expr_arena.get(node) {
        AExpr::Column(name) => {
            match self::schema_lookup_field(schema, name) {
                Some(f) => Ok(f),
                None => {
                    proof {
                        assert(leaf_columns(ea, i) == seq![ColumnNode(node)]);
                        assert(leaf_columns(ea, i)[0] == ColumnNode(node));
                    }
                    Err(PlanError::ColumnNotFound(name.clone()))
                },
            }
        },
        AExpr::Literal(_) => {
            proof {
                assert(leaf_columns(ea, i) =~= Seq::<ColumnNode>::empty());
            }
            Ok(Field { name: String::from_str("literal"), dtype: DataType::Int64 })
        },
        AExpr::BinaryExpr { left, op, right } => {
            proof {
                lemma_leaf_split_binary(ea, schema@, i);
            }
            match expr_output_field(expr_arena, schema, *left) {
                Err(e) => Err(e),
                Ok(lf) => {
                    match expr_output_field(expr_arena, schema, *right) {
                        Err(e) => Err(e),
                        Ok(_) => {
                            let dtype = if op.is_comparison() {
                                DataType::Boolean
                            } else {
                                lf.dtype
                            };
                            Ok(Field { name: lf.name, dtype })
                        },
                    }
                },
            }
        },
        AExpr::Alias { input, name } => {
            proof {
                assert(leaf_columns(ea, i) == leaf_columns(ea, input.0 as int));
            }
            match expr_output_field(expr_arena, schema, *input) {
                Err(e) => Err(e),
                Ok(f) => Ok(Field { name: name.clone(), dtype: f.dtype }),
            }
        },
        AExpr::Agg { input, method } => {
            proof {
                assert(leaf_columns(ea, i) == leaf_columns(ea, input.0 as int));
            }
            match expr_output_field(expr_arena, schema, *input) {
                Err(e) => Err(e),
                Ok(f) => {
                    let dtype = match method {
                        AggMethod::Mean => DataType::Float64,
                        AggMethod::Count => DataType::UInt32,
                        _ => f.dtype,
                    };
                    Ok(Field { name: f.name, dtype })
                },
            }
        },
        AExpr::Len => {
            proof {
                assert(leaf_columns(ea, i) =~= Seq::<ColumnNode>::empty());
            }
            Ok(Field { name: String::from_str("len"), dtype: DataType::UInt32 })
        },
    }
}

/// Looks a name up in a schema and hands back an owned field.
fn schema_lookup_field(schema: &Schema, name: &String) -> (r: Option<Field>)
    requires
        schema.wf(),
    ensures
        match r {
            Some(f) => seq_contains_name(schema@, name@) && f == field_named(schema@, name@)
                && f.name@ == name@,
            None => !seq_contains_name(schema@, name@),
        },
{
    match schema.index_of(name) {
        Some(i) => {
            proof {
                let j = choose|j: int| 0 <= j < schema@.len() && schema@[j].name@ == name@;
                assert(schema@[i as int].name@ == schema@[j].name@);
                assert(i as int == j);
            }
            Some(schema.get_at_index(i).duplicate())
        },
        None => None,
    }
}

/// When a binary expression's two subtrees each have all their columns in
/// the schema, so does the whole expression, and conversely.
proof fn lemma_leaf_split_binary(ea: Seq<AExpr>, schema: Seq<Field>, i: int)
    requires
        0 <= i < ea.len(),
        ea[i] is BinaryExpr,
        ea[i]->BinaryExpr_left.0 < i,
        ea[i]->BinaryExpr_right.0 < i,
    ensures
        expr_columns_in(ea, schema, i) == (expr_columns_in(ea, schema, ea[i]->BinaryExpr_left.0 as int)
            && expr_columns_in(ea, schema, ea[i]->BinaryExpr_right.0 as int)),
{
    let l = ea[i]->BinaryExpr_left.0 as int;
    let r = ea[i]->BinaryExpr_right.0 as int;
    let ls = leaf_columns(ea, l);
    let rs = leaf_columns(ea, r);
    assert(leaf_columns(ea, i) == ls + rs);
    if expr_columns_in(ea, schema, l) && expr_columns_in(ea, schema, r) {
        assert forall|k: int| 0 <= k < (ls + rs).len() implies seq_contains_name(
            schema,
            column_node_name(ea, #[trigger] (ls + rs)[k]),
        ) by {
            if k < ls.len() {
                assert((ls + rs)[k] == ls[k]);
            } else {
                assert((ls + rs)[k] == rs[k - ls.len()]);
            }
        }
    }
    if expr_columns_in(ea, schema, i) {
        assert forall|k: int| 0 <= k < ls.len() implies seq_contains_name(
            schema,
            column_node_name(ea, #[trigger] ls[k]),
        ) by {
            assert((ls + rs)[k] == ls[k]);
        }
        assert forall|k: int| 0 <= k < rs.len() implies seq_contains_name(
            schema,
            column_node_name(ea, #[trigger] rs[k]),
        ) by {
            assert((ls + rs)[ls.len() + k] == rs[k]);
        }
    }
}

} // verus!
