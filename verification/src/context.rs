//! The state threaded through the recursive pushdown walk: the ordered,
//! deduplicated set of column references required by everything above the
//! current node, the parallel name set used for membership tests, and the
//! auxiliary mode flags that are copied (never merged) across branches.

use vstd::prelude::*;
use crate::arena::{Arena, Node};
use crate::expr::{
    AExpr, ColumnNode, column_node_name, expr_arena_wf, expr_children_below, is_column_node,
    leaf_columns,
};
use crate::schema::{Field, Schema};

verus! {

/// The flags that are copied, not merged, across sibling branches.
#[derive(Clone, Copy, PartialEq, Eq, Structural, Debug)]
pub struct ProjectionCopyState {
    /// How many projection operators the walk has passed through.
    pub projections_seen: usize,
    /// True when the query only needs a row count.
    pub is_count_star: bool,
}

impl ProjectionCopyState {
    /// The state at the optimizer's entry: nothing seen, no count-star mode.
    pub fn start() -> (r: ProjectionCopyState)
        ensures
            r.projections_seen == 0,
            !r.is_count_star,
    {
        ProjectionCopyState { projections_seen: 0, is_count_star: false }
    }
}

/// True when some string of `names` reads `n`.
pub open spec fn names_contain(names: Seq<String>, n: Seq<char>) -> bool {
    exists|i: int| 0 <= i < names.len() && names[i]@ == n
}

/// True when the accumulated projections and the name set describe the same
/// columns of the expression arena `ea`: equal length, entry-wise matching
/// names, every entry a genuine column node, and no duplicate name.
pub open spec fn acc_wf(ea: Seq<AExpr>, acc: Seq<ColumnNode>, names: Seq<String>) -> bool {
    &&& acc.len() == names.len()
    &&& forall|i: int| 0 <= i < acc.len() ==> is_column_node(ea, #[trigger] acc[i])
    &&& forall|i: int|
        0 <= i < acc.len() ==> (#[trigger] names[i])@ == column_node_name(ea, acc[i])
    &&& forall|i: int, j: int| 0 <= i < j < names.len() ==> names[i]@ != names[j]@
}

/// The accumulation invariant survives extending the expression arena: the
/// recorded nodes keep pointing at the same entries.
pub proof fn lemma_acc_wf_prefix(
    ea1: Seq<AExpr>,
    ea2: Seq<AExpr>,
    acc: Seq<ColumnNode>,
    names: Seq<String>,
)
    requires
        acc_wf(ea1, acc, names),
        ea1.is_prefix_of(ea2),
    ensures
        acc_wf(ea2, acc, names),
{
    assert forall|i: int| 0 <= i < acc.len() implies is_column_node(ea2, #[trigger] acc[i])
        && names[i]@ == column_node_name(ea2, acc[i]) by {
        assert(is_column_node(ea1, acc[i]));
        assert(ea2[acc[i].0.0 as int] == ea1[acc[i].0.0 as int]);
        assert(names[i]@ == column_node_name(ea1, acc[i]));
    }
}

/// Linear search for a name in a vector of strings.
pub fn names_contains(names: &Vec<String>, name: &String) -> (r: bool)
    ensures
        r == names_contain(names@, name@),
{
    let n = names.len();
    let mut i: usize = 0;
    while i < n
        invariant
            i <= n,
            n == names@.len(),
            forall|j: int| 0 <= j < i ==> names@[j]@ != name@,
        decreases n - i,
    {
        if names[i] == *name {
            return true;
        }
        i += 1;
    }
    false
}

/// A recorded name stays recorded when the set grows by one.
pub proof fn lemma_names_contain_push(names: Seq<String>, x: String, n: Seq<char>)
    requires
        names_contain(names, n),
    ensures
        names_contain(names.push(x), n),
{
    let w = choose|w: int| 0 <= w < names.len() && names[w]@ == n;
    assert(names.push(x)[w]@ == n);
}

/// A recorded name stays recorded under any prefix extension.
pub proof fn lemma_names_contain_prefix(n1: Seq<String>, n2: Seq<String>, n: Seq<char>)
    requires
        n1.is_prefix_of(n2),
        names_contain(n1, n),
    ensures
        names_contain(n2, n),
{
    let w = choose|w: int| 0 <= w < n1.len() && n1[w]@ == n;
    assert(n2.subrange(0, n1.len() as int)[w] == n2[w]);
    assert(n2[w]@ == n);
}

/// One deduplicating insertion into the accumulated set: the leaf is
/// recorded only when its name is not yet present.
pub open spec fn acc_insert(
    ea: Seq<AExpr>,
    acc: Seq<ColumnNode>,
    names: Seq<String>,
    leaf: ColumnNode,
) -> (Seq<ColumnNode>, Seq<String>) {
    if names_contain(names, column_node_name(ea, leaf)) {
        (acc, names)
    } else {
        (acc.push(leaf), names.push(ea[leaf.0.0 as int]->Column_0))
    }
}

/// Folds `acc_insert` over a sequence of leaves, left to right.
pub open spec fn acc_insert_all(
    ea: Seq<AExpr>,
    acc: Seq<ColumnNode>,
    names: Seq<String>,
    leaves: Seq<ColumnNode>,
) -> (Seq<ColumnNode>, Seq<String>)
    decreases leaves.len(),
{
    if leaves.len() == 0 {
        (acc, names)
    } else {
        let st = acc_insert(ea, acc, names, leaves[0]);
        acc_insert_all(ea, st.0, st.1, leaves.drop_first())
    }
}

/// Splitting the leaf sequence splits the fold.
pub proof fn lemma_acc_insert_all_app(
    ea: Seq<AExpr>,
    acc: Seq<ColumnNode>,
    names: Seq<String>,
    s1: Seq<ColumnNode>,
    s2: Seq<ColumnNode>,
)
    ensures
        acc_insert_all(ea, acc, names, s1 + s2) == acc_insert_all(
            ea,
            acc_insert_all(ea, acc, names, s1).0,
            acc_insert_all(ea, acc, names, s1).1,
            s2,
        ),
    decreases s1.len(),
{
    if s1.len() == 0 {
        assert(s1 + s2 =~= s2);
    } else {
        let st = acc_insert(ea, acc, names, s1[0]);
        assert((s1 + s2)[0] == s1[0]);
        assert((s1 + s2).drop_first() =~= s1.drop_first() + s2);
        lemma_acc_insert_all_app(ea, st.0, st.1, s1.drop_first(), s2);
    }
}

/// The fold preserves the accumulation invariant, never drops an entry, and
/// afterwards holds the name of every leaf it was given; every name it holds
/// was either there before or is the name of one of the leaves.
pub proof fn lemma_acc_insert_all_wf(
    ea: Seq<AExpr>,
    acc: Seq<ColumnNode>,
    names: Seq<String>,
    leaves: Seq<ColumnNode>,
)
    requires
        acc_wf(ea, acc, names),
        forall|k: int| 0 <= k < leaves.len() ==> is_column_node(ea, #[trigger] leaves[k]),
    ensures
        acc_wf(ea, acc_insert_all(ea, acc, names, leaves).0, acc_insert_all(ea, acc, names, leaves).1),
        acc.is_prefix_of(acc_insert_all(ea, acc, names, leaves).0),
        names.is_prefix_of(acc_insert_all(ea, acc, names, leaves).1),
        forall|k: int|
            0 <= k < leaves.len() ==> names_contain(
                acc_insert_all(ea, acc, names, leaves).1,
                column_node_name(ea, #[trigger] leaves[k]),
            ),
        forall|n: Seq<char>|
            names_contain(acc_insert_all(ea, acc, names, leaves).1, n) ==> (names_contain(names, n)
                || exists|k: int|
                0 <= k < leaves.len() && column_node_name(ea, #[trigger] leaves[k]) == n),
    decreases leaves.len(),
{
    if leaves.len() > 0 {
        let leaf = leaves[0];
        let st = acc_insert(ea, acc, names, leaf);
        let nm = column_node_name(ea, leaf);
        if !names_contain(names, nm) {
            assert(st.1[names.len() as int]@ == nm);
            assert(acc_wf(ea, st.0, st.1));
        }
        assert(names_contain(st.1, nm));
        lemma_acc_insert_all_wf(ea, st.0, st.1, leaves.drop_first());
        let fin = acc_insert_all(ea, acc, names, leaves);
        assert(fin == acc_insert_all(ea, st.0, st.1, leaves.drop_first()));
        assert forall|k: int|
            0 <= k < leaves.len() implies names_contain(
            fin.1,
            column_node_name(ea, #[trigger] leaves[k]),
        ) by {
            if k == 0 {
                let j = choose|j: int| 0 <= j < st.1.len() && st.1[j]@ == nm;
                assert(fin.1[j]@ == nm);
            } else {
                assert(leaves.drop_first()[k - 1] == leaves[k]);
            }
        }
        assert forall|n: Seq<char>| names_contain(fin.1, n) implies (names_contain(names, n)
            || exists|k: int|
            0 <= k < leaves.len() && column_node_name(ea, #[trigger] leaves[k]) == n) by {
            if !names_contain(names, n) {
                if names_contain(st.1, n) {
                    assert(column_node_name(ea, leaves[0]) == n);
                } else {
                    let k = choose|k: int|
                        0 <= k < leaves.drop_first().len() && column_node_name(
                            ea,
                            leaves.drop_first()[k],
                        ) == n;
                    assert(leaves.drop_first()[k] == leaves[k + 1]);
                    assert(column_node_name(ea, leaves[k + 1]) == n);
                }
            }
        }
    }
}

/// Inserting leaves whose names are all already recorded changes nothing.
pub proof fn lemma_acc_insert_all_noop(
    ea: Seq<AExpr>,
    acc: Seq<ColumnNode>,
    names: Seq<String>,
    leaves: Seq<ColumnNode>,
)
    requires
        forall|k: int|
            0 <= k < leaves.len() ==> names_contain(
                names,
                column_node_name(ea, #[trigger] leaves[k]),
            ),
    ensures
        acc_insert_all(ea, acc, names, leaves) == (acc, names),
    decreases leaves.len(),
{
    if leaves.len() > 0 {
        assert(names_contain(names, column_node_name(ea, leaves[0])));
        assert(acc_insert(ea, acc, names, leaves[0]) == (acc, names));
        assert forall|k: int|
            0 <= k < leaves.drop_first().len() implies names_contain(
            names,
            column_node_name(ea, #[trigger] leaves.drop_first()[k]),
        ) by {
            assert(leaves.drop_first()[k] == leaves[k + 1]);
        }
        lemma_acc_insert_all_noop(ea, acc, names, leaves.drop_first());
    }
}

/// Idempotence of column accumulation: once an expression's leaf columns
/// have been folded into the accumulated set, folding the same leaves in
/// again leaves the set unchanged — a fully accumulated set is a fixed
/// point of re-accumulation.
pub proof fn lemma_acc_insert_all_idempotent(
    ea: Seq<AExpr>,
    acc: Seq<ColumnNode>,
    names: Seq<String>,
    leaves: Seq<ColumnNode>,
)
    requires
        acc_wf(ea, acc, names),
        forall|k: int| 0 <= k < leaves.len() ==> is_column_node(ea, #[trigger] leaves[k]),
    ensures
        ({
            let once = acc_insert_all(ea, acc, names, leaves);
            acc_insert_all(ea, once.0, once.1, leaves) == once
        }),
{
    lemma_acc_insert_all_wf(ea, acc, names, leaves);
    let once = acc_insert_all(ea, acc, names, leaves);
    lemma_acc_insert_all_noop(ea, once.0, once.1, leaves);
}

/// Walks an expression tree and inserts every leaf column reference it
/// transitively contains into the accumulated set, deduplicated by name, in
/// depth-first, left-to-right order.
pub fn add_expr_to_accumulated(
    expr: Node,
    acc_projections: &mut Vec<ColumnNode>,
    projected_names: &mut Vec<String>,
    expr_arena: &Arena<AExpr>,
)
    requires
        expr_arena_wf(expr_arena@),
        expr.0 < expr_arena@.len(),
    ensures
        final(acc_projections)@ == acc_insert_all(
            expr_arena@,
            old(acc_projections)@,
            old(projected_names)@,
            leaf_columns(expr_arena@, expr.0 as int),
        ).0,
        final(projected_names)@ == acc_insert_all(
            expr_arena@,
            old(acc_projections)@,
            old(projected_names)@,
            leaf_columns(expr_arena@, expr.0 as int),
        ).1,
    decreases expr.0,
{
    let ghost ea = expr_arena@;
    let ghost i = expr.0 as int;
    match expr_arena.get(expr) {
        AExpr::Column(name) => {
            let ghost leaf = ColumnNode(expr);
            let ghost acc0 = acc_projections@;
            let ghost names0 = projected_names@;
            proof {
                let s = seq![leaf];
                assert(leaf_columns(ea, i) =~= s);
                assert(s.drop_first() =~= Seq::<ColumnNode>::empty());
                assert(s[0] == leaf);
                let st = acc_insert(ea, acc0, names0, leaf);
                assert(acc_insert_all(ea, st.0, st.1, s.drop_first()) == (st.0, st.1));
                assert(acc_insert_all(ea, acc0, names0, s) == (st.0, st.1));
            }
            if !names_contains(projected_names, name) {
                acc_projections.push(ColumnNode(expr));
                projected_names.push(name.clone());
            }
        },
        AExpr::Literal(_) => {
            proof {
                assert(leaf_columns(ea, i) =~= Seq::<ColumnNode>::empty());
            }
        },
        AExpr::Len => {
            proof {
                assert(leaf_columns(ea, i) =~= Seq::<ColumnNode>::empty());
            }
        },
        AExpr::BinaryExpr { left, op, right } => {
            let ghost acc0 = acc_projections@;
            let ghost names0 = projected_names@;
            proof {
                assert(expr_children_below(ea[i], i));
            }
            add_expr_to_accumulated(*left, acc_projections, projected_names, expr_arena);
            add_expr_to_accumulated(*right, acc_projections, projected_names, expr_arena);
            proof {
                assert(leaf_columns(ea, i) == leaf_columns(ea, left.0 as int) + leaf_columns(
                    ea,
                    right.0 as int,
                ));
                lemma_acc_insert_all_app(
                    ea,
                    acc0,
                    names0,
                    leaf_columns(ea, left.0 as int),
                    leaf_columns(ea, right.0 as int),
                );
            }
        },
        AExpr::Alias { input, name } => {
            proof {
                assert(expr_children_below(ea[i], i));
            }
            add_expr_to_accumulated(*input, acc_projections, projected_names, expr_arena);
            proof {
                assert(leaf_columns(ea, i) == leaf_columns(ea, input.0 as int));
            }
        },
        AExpr::Agg { input, method } => {
            proof {
                assert(expr_children_below(ea[i], i));
            }
            add_expr_to_accumulated(*input, acc_projections, projected_names, expr_arena);
            proof {
                assert(leaf_columns(ea, i) == leaf_columns(ea, input.0 as int));
            }
        },
    }
}

/// The position of the first field at or after `i` whose type is cheap to
/// read, or `s.len()` when there is none.
pub open spec fn first_cheap_from(s: Seq<Field>, i: int) -> int
    decreases s.len() - i,
{
    if 0 <= i < s.len() {
        if s[i].dtype.spec_is_cheap() {
            i
        } else {
            first_cheap_from(s, i + 1)
        }
    } else {
        s.len() as int
    }
}

/// The column a scan should read when the query only needs the row count:
/// the only column of a one-column schema, else the first column after the
/// leading one (which can be a row index) whose type is cheap, else the last
/// column. Meaningful only for a non-empty schema.
pub open spec fn count_star_field(s: Seq<Field>) -> Field {
    if s.len() == 1 {
        s[0]
    } else if first_cheap_from(s, 1) < s.len() {
        s[first_cheap_from(s, 1)]
    } else {
        s[s.len() - 1]
    }
}

/// The position of the first cheap-typed field after the leading one, as
/// `first_cheap_from` from position 1 describes it; `None` when every field
/// after the first is expensive.
fn find_cheap_after_first(schema: &Schema) -> (r: Option<usize>)
    requires
        schema@.len() >= 1,
    ensures
        match r {
            Some(i) => 1 <= i < schema@.len() && i == first_cheap_from(schema@, 1),
            None => first_cheap_from(schema@, 1) == schema@.len(),
        },
{
    let n = schema.len();
    let mut i: usize = 1;
    while i < n
        invariant
            1 <= i <= n,
            n == schema@.len(),
            first_cheap_from(schema@, 1) == first_cheap_from(schema@, i as int),
        decreases n - i,
    {
        if schema.get_at_index(i).dtype.is_cheap() {
            return Some(i);
        }
        proof {
            assert(first_cheap_from(schema@, i as int) == first_cheap_from(schema@, i as int + 1));
        }
        i += 1;
    }
    None
}

/// `first_cheap_from` stays within `[i, s.len()]`.
pub proof fn lemma_first_cheap_bounds(s: Seq<Field>, i: int)
    requires
        0 <= i,
    ensures
        i <= first_cheap_from(s, i) || first_cheap_from(s, i) == s.len(),
        first_cheap_from(s, i) <= s.len(),
    decreases s.len() - i,
{
    if 0 <= i < s.len() && !s[i].dtype.spec_is_cheap() {
        lemma_first_cheap_bounds(s, i + 1);
    }
}

/// The count-star stand-in column is an entry of the schema it was picked
/// from.
pub proof fn lemma_count_star_field_is_entry(s: Seq<Field>)
    requires
        s.len() > 0,
    ensures
        exists|j: int| 0 <= j < s.len() && s[j] == count_star_field(s),
{
    if s.len() == 1 {
        assert(s[0] == count_star_field(s));
    } else if first_cheap_from(s, 1) < s.len() {
        lemma_first_cheap_bounds(s, 1);
        let j = first_cheap_from(s, 1);
        assert(s[j] == count_star_field(s));
    } else {
        assert(s[s.len() - 1] == count_star_field(s));
    }
}

/// Picks the cheap stand-in column `count_star_field` describes, as an
/// owned field.
pub fn count_star_stand_in(schema: &Schema) -> (r: Field)
    requires
        schema@.len() > 0,
    ensures
        r == count_star_field(schema@),
{
    let n = schema.len();
    let field = if n == 1 {
        schema.get_at_index(0)
    } else {
        match find_cheap_after_first(schema) {
            Some(i) => schema.get_at_index(i),
            None => schema.get_at_index(n - 1),
        }
    };
    field.duplicate()
}

/// The pushdown state for one position of the plan walk. It is created
/// fresh per branch and never shared: sibling subtrees must not observe each
/// other's accumulated columns.
pub struct ProjectionContext {
    /// Columns that the subtree rooted at the current node must supply,
    /// accumulated from all ancestors; order decides final column order.
    pub acc_projections: Vec<ColumnNode>,
    /// Exactly the names of `acc_projections`, kept in step with it.
    pub projected_names: Vec<String>,
    /// The per-branch flags.
    pub inner: ProjectionCopyState,
}

impl ProjectionContext {
    /// The invariant tying the two parallel sequences to the arena.
    pub open spec fn wf(&self, ea: Seq<AExpr>) -> bool {
        acc_wf(ea, self.acc_projections@, self.projected_names@)
    }

    /// A context from its parts.
    pub fn new(
        acc_projections: Vec<ColumnNode>,
        projected_names: Vec<String>,
        inner: ProjectionCopyState,
    ) -> (r: ProjectionContext)
        ensures
            r.acc_projections == acc_projections,
            r.projected_names == projected_names,
            r.inner == inner,
    {
        ProjectionContext { acc_projections, projected_names, inner }
    }

    /// An empty context carrying the given flags: nothing projected yet.
    pub fn empty(inner: ProjectionCopyState) -> (r: ProjectionContext)
        ensures
            r.acc_projections@ == Seq::<ColumnNode>::empty(),
            r.projected_names@ == Seq::<String>::empty(),
            r.inner == inner,
            forall|ea: Seq<AExpr>| r.wf(ea),
    {
        ProjectionContext {
            acc_projections: Vec::new(),
            projected_names: Vec::new(),
            inner,
        }
    }

    /// An independent copy, handed to one sibling branch.
    pub fn duplicate(&self) -> (r: ProjectionContext)
        ensures
            r.acc_projections@ == self.acc_projections@,
            r.projected_names@ == self.projected_names@,
            r.inner == self.inner,
    {
        let acc = self.acc_projections.clone();
        let names = self.projected_names.clone();
        proof {
            assert(acc@ =~= self.acc_projections@);
            assert forall|i: int| 0 <= i < names@.len() implies names@[i]
                == self.projected_names@[i] by {
            }
            assert(names@ =~= self.projected_names@);
        }
        ProjectionContext { acc_projections: acc, projected_names: names, inner: self.inner }
    }

    /// True when pushdown is active: some ancestor has projected, or the
    /// query is a bare row count (which selects a single column at the
    /// source). Only then do operators add their own dependency columns to
    /// the accumulated set; with nothing projected, "select all" already
    /// includes them.
    pub fn has_pushed_down(&self) -> (r: bool)
        ensures
            r == (self.acc_projections@.len() > 0 || self.inner.is_count_star),
    {
        !self.acc_projections.is_empty() || self.inner.is_count_star
    }

    /// When no explicit projection has been accumulated, synthesizes the
    /// single cheap column `count_star_field` picks and records it, so that
    /// a count-only query still reads one column at the scan. A scan with an
    /// empty schema is left alone.
    pub fn process_count_star_at_scan(&mut self, schema: &Schema, expr_arena: &mut Arena<AExpr>)
        requires
            old(self).wf(old(expr_arena)@),
            schema.wf(),
        ensures
            final(self).inner == old(self).inner,
            old(self).acc_projections@.len() > 0 || schema@.len() == 0 ==> {
                &&& final(self).acc_projections@ == old(self).acc_projections@
                &&& final(self).projected_names@ == old(self).projected_names@
                &&& final(expr_arena)@ == old(expr_arena)@
            },
            old(self).acc_projections@.len() == 0 && schema@.len() > 0 ==> {
                &&& final(expr_arena)@ == old(expr_arena)@.push(
                    AExpr::Column(count_star_field(schema@).name),
                )
                &&& final(self).acc_projections@ == old(self).acc_projections@.push(
                    ColumnNode(Node(old(expr_arena)@.len() as usize)),
                )
                &&& final(self).projected_names@ == old(self).projected_names@.push(
                    count_star_field(schema@).name,
                )
            },
            final(self).wf(final(expr_arena)@),
    {
        if !self.acc_projections.is_empty() {
            return;
        }
        let n = schema.len();
        if n == 0 {
            return;
        }
        let field = if n == 1 {
            schema.get_at_index(0)
        } else {
            match find_cheap_after_first(schema) {
                Some(i) => schema.get_at_index(i),
                None => schema.get_at_index(n - 1),
            }
        };
        proof {
            assert(*field == count_star_field(schema@));
        }
        let name = field.name.clone();
        let node = expr_arena.add(AExpr::Column(name));
        let name_again = field.name.clone();
        self.acc_projections.push(ColumnNode(node));
        self.projected_names.push(name_again);
        proof {
            assert(old(self).projected_names@.len() == 0);
            let ea2 = final(expr_arena)@;
            let acc2 = final(self).acc_projections@;
            let names2 = final(self).projected_names@;
            assert(acc2.len() == 1 && names2.len() == 1);
            assert(is_column_node(ea2, acc2[0]));
            assert(names2[0]@ == column_node_name(ea2, acc2[0]));
        }
    }
}

/// Inserts a single column by name into the accumulated set. A no-op when
/// pushdown is not active (all columns are then already selected) or when
/// the name is already recorded; otherwise a fresh column reference is added
/// to the expression arena and recorded.
pub fn add_str_to_accumulated(name: String, ctx: &mut ProjectionContext, expr_arena: &mut Arena<
    AExpr,
>)
    requires
        old(ctx).wf(old(expr_arena)@),
    ensures
        final(ctx).inner == old(ctx).inner,
        final(ctx).wf(final(expr_arena)@),
        !(
        (old(ctx).acc_projections@.len() > 0 || old(ctx).inner.is_count_star) && !names_contain(
            old(ctx).projected_names@,
            name@,
        )) ==> {
            &&& final(ctx).acc_projections@ == old(ctx).acc_projections@
            &&& final(ctx).projected_names@ == old(ctx).projected_names@
            &&& final(expr_arena)@ == old(expr_arena)@
        },
        old(expr_arena)@.is_prefix_of(final(expr_arena)@),
        ((old(ctx).acc_projections@.len() > 0 || old(ctx).inner.is_count_star) && !names_contain(
            old(ctx).projected_names@,
            name@,
        )) ==> {
            &&& final(expr_arena)@ == old(expr_arena)@.push(AExpr::Column(name))
            &&& final(ctx).acc_projections@ == old(ctx).acc_projections@.push(
                ColumnNode(Node(old(expr_arena)@.len() as usize)),
            )
            &&& final(ctx).projected_names@ == old(ctx).projected_names@.push(name)
        },
{
    proof {
        crate::columns::lemma_prefix_refl(old(expr_arena)@);
    }
    if ctx.has_pushed_down() && !names_contains(&ctx.projected_names, &name) {
        let node = expr_arena.add(AExpr::Column(name.clone()));
        proof {
            crate::columns::lemma_push_prefix(old(expr_arena)@, AExpr::Column(name));
        }
        ctx.acc_projections.push(ColumnNode(node));
        ctx.projected_names.push(name);
        proof {
            let ea2 = final(expr_arena)@;
            let acc2 = final(ctx).acc_projections@;
            let names2 = final(ctx).projected_names@;
            let last = acc2.len() - 1;
            assert(is_column_node(ea2, acc2[last]));
            assert(names2[last]@ == column_node_name(ea2, acc2[last]));
            assert forall|i: int| 0 <= i < old(ctx).acc_projections@.len() implies is_column_node(
                ea2,
                #[trigger] acc2[i],
            ) && names2[i]@ == column_node_name(ea2, acc2[i]) by {
                assert(acc2[i] == old(ctx).acc_projections@[i]);
                assert(is_column_node(old(expr_arena)@, acc2[i]));
            }
        }
    }
}

} // verus!
