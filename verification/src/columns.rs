//! Schema and column utilities shared by every pushdown rule: computing the
//! physical column list a scan should read, splitting an accumulated set
//! into the part a child can supply and the part that must resolve locally,
//! and rebuilding a scan's output schema from a column subset.

use vstd::prelude::*;
use crate::arena::Arena;
use crate::context::names_contain;
use crate::error::PlanError;
use crate::expr::{AExpr, ColumnNode, column_node_name, column_node_to_name, is_column_node};
use crate::schema::{Field, Schema, distinct_names, field_named, seq_contains_name};

verus! {

/// Filtering after appending one element appends it exactly when it passes.
pub proof fn lemma_filter_push<A>(s: Seq<A>, pred: spec_fn(A) -> bool, x: A)
    ensures
        s.push(x).filter(pred) == if pred(x) {
            s.filter(pred).push(x)
        } else {
            s.filter(pred)
        },
{
    reveal(Seq::filter);
    assert(s.push(x).drop_last() =~= s);
    assert(s.push(x).last() == x);
}

/// Every element of a filtered sequence occurs in the unfiltered one.
pub proof fn lemma_filter_is_subset<A>(s: Seq<A>, pred: spec_fn(A) -> bool)
    ensures
        forall|i: int|
            0 <= i < s.filter(pred).len() ==> s.contains(#[trigger] s.filter(pred)[i]),
    decreases s.len(),
{
    reveal(Seq::filter);
    if s.len() > 0 {
        let s0 = s.drop_last();
        lemma_filter_is_subset(s0, pred);
        assert forall|i: int| 0 <= i < s.filter(pred).len() implies s.contains(
            #[trigger] s.filter(pred)[i],
        ) by {
            if i < s0.filter(pred).len() {
                assert(s0.contains(s0.filter(pred)[i]));
                let j = choose|j: int| 0 <= j < s0.len() && s0[j] == s0.filter(pred)[i];
                assert(s[j] == s0.filter(pred)[i]);
            } else {
                assert(s.filter(pred)[i] == s.last());
            }
        }
    }
}

/// Filtering a schema with distinct names keeps the names distinct.
pub proof fn lemma_filter_distinct_names(s: Seq<Field>, pred: spec_fn(Field) -> bool)
    requires
        distinct_names(s),
    ensures
        distinct_names(s.filter(pred)),
    decreases s.len(),
{
    reveal(Seq::filter);
    if s.len() > 0 {
        let s0 = s.drop_last();
        assert(distinct_names(s0));
        lemma_filter_distinct_names(s0, pred);
        lemma_filter_is_subset(s0, pred);
        if pred(s.last()) {
            let f = s0.filter(pred);
            assert forall|i: int| 0 <= i < f.len() implies f[i].name@ != s.last().name@ by {
                assert(s0.contains(f[i]));
                let j = choose|j: int| 0 <= j < s0.len() && s0[j] == f[i];
                assert(s[j] == f[i]);
                assert(s[s.len() - 1] == s.last());
            }
            assert(s.filter(pred) == f.push(s.last()));
            assert forall|i: int, j: int|
                0 <= i < j < s.filter(pred).len() implies s.filter(pred)[i].name@ != s.filter(
                pred,
            )[j].name@ by {
                if j < f.len() {
                } else {
                    assert(s.filter(pred)[j] == s.last());
                    assert(s.filter(pred)[i] == f[i]);
                }
            }
        }
    }
}

/// The two halves of the accumulation invariant that the schema utilities
/// ask for: valid column nodes with pairwise distinct names.
pub proof fn lemma_acc_wf_parts(ea: Seq<AExpr>, acc: Seq<ColumnNode>, names: Seq<String>)
    requires
        crate::context::acc_wf(ea, acc, names),
    ensures
        acc_nodes_ok(ea, acc),
        acc_names_distinct(ea, acc),
{
    assert forall|i: int, j: int| 0 <= i < j < acc.len() implies column_node_name(ea, acc[i])
        != column_node_name(ea, acc[j]) by {
        assert(names[i]@ == column_node_name(ea, acc[i]));
        assert(names[j]@ == column_node_name(ea, acc[j]));
    }
}

/// Every sequence is a prefix of itself.
pub proof fn lemma_prefix_refl<A>(s: Seq<A>)
    ensures
        s.is_prefix_of(s),
{
    assert(s =~= s.subrange(0, s.len() as int));
}

/// A sequence is a prefix of itself and of any push extension.
pub proof fn lemma_push_prefix<A>(s: Seq<A>, x: A)
    ensures
        s.is_prefix_of(s.push(x)),
        s.is_prefix_of(s),
{
    assert(s =~= s.push(x).subrange(0, s.len() as int));
    assert(s =~= s.subrange(0, s.len() as int));
}

/// Prefix extension is transitive.
pub proof fn lemma_prefix_trans<A>(s1: Seq<A>, s2: Seq<A>, s3: Seq<A>)
    requires
        s1.is_prefix_of(s2),
        s2.is_prefix_of(s3),
    ensures
        s1.is_prefix_of(s3),
{
    assert(s1 =~= s3.subrange(0, s1.len() as int));
}

/// Filtering a set of accumulated column nodes with pairwise distinct names
/// keeps them valid, keeps the names distinct, and pairs them with their
/// name strings.
pub proof fn lemma_filter_acc_wf(
    ea: Seq<AExpr>,
    acc: Seq<ColumnNode>,
    pred: spec_fn(ColumnNode) -> bool,
)
    requires
        acc_nodes_ok(ea, acc),
        acc_names_distinct(ea, acc),
    ensures
        acc_nodes_ok(ea, acc.filter(pred)),
        acc_names_distinct(ea, acc.filter(pred)),
        crate::context::acc_wf(ea, acc.filter(pred), acc_name_strings(ea, acc.filter(pred))),
    decreases acc.len(),
{
    reveal(Seq::filter);
    lemma_filter_is_subset(acc, pred);
    let f = acc.filter(pred);
    assert forall|k: int| 0 <= k < f.len() implies is_column_node(ea, #[trigger] f[k]) by {
        assert(acc.contains(f[k]));
        let j = choose|j: int| 0 <= j < acc.len() && acc[j] == f[k];
        assert(is_column_node(ea, acc[j]));
    }
    if acc.len() > 0 {
        let a0 = acc.drop_last();
        assert(acc_nodes_ok(ea, a0)) by {
            assert forall|k: int| 0 <= k < a0.len() implies is_column_node(ea, #[trigger] a0[k])
                by {
                assert(a0[k] == acc[k]);
            }
        }
        assert(acc_names_distinct(ea, a0)) by {
            assert forall|i: int, j: int| 0 <= i < j < a0.len() implies column_node_name(ea, a0[i])
                != column_node_name(ea, a0[j]) by {
                assert(a0[i] == acc[i] && a0[j] == acc[j]);
            }
        }
        lemma_filter_acc_wf(ea, a0, pred);
        lemma_filter_is_subset(a0, pred);
        let f0 = a0.filter(pred);
        if pred(acc.last()) {
            assert(f == f0.push(acc.last()));
            assert forall|k: int| 0 <= k < f0.len() implies column_node_name(ea, f0[k])
                != column_node_name(ea, acc.last()) by {
                assert(a0.contains(f0[k]));
                let j = choose|j: int| 0 <= j < a0.len() && a0[j] == f0[k];
                assert(acc[j] == f0[k]);
                assert(acc[acc.len() - 1] == acc.last());
            }
            assert forall|i: int, j: int| 0 <= i < j < f.len() implies column_node_name(ea, f[i])
                != column_node_name(ea, f[j]) by {
                if j < f0.len() {
                    assert(f[i] == f0[i] && f[j] == f0[j]);
                } else {
                    assert(f[j] == acc.last());
                    assert(f[i] == f0[i]);
                }
            }
            assert(acc_name_strings(ea, f) =~= acc_name_strings(ea, f0).push(
                ea[acc.last().0.0 as int]->Column_0,
            ));
        } else {
            assert(f == f0);
        }
    } else {
        assert(f =~= acc);
        assert(acc_name_strings(ea, f) =~= Seq::<String>::empty());
    }
}

/// Appending to a sequence appends the image to its mapped sequence.
pub proof fn lemma_map_values_push<A, B>(s: Seq<A>, f: spec_fn(A) -> B, x: A)
    ensures
        s.push(x).map_values(f) =~= s.map_values(f).push(f(x)),
{
}

/// True when `n` is the name of a virtual column the reader injects (the
/// row-index column or the source-file-path column) rather than one read
/// from storage.
pub open spec fn is_virtual_name(
    n: Seq<char>,
    row_index: Option<Seq<char>>,
    file_path: Option<Seq<char>>,
) -> bool {
    ||| (row_index matches Some(r) && n == r)
    ||| (file_path matches Some(f) && n == f)
}

/// The view of an optional name argument.
pub open spec fn opt_name_view(o: Option<&String>) -> Option<Seq<char>> {
    match o {
        Some(s) => Some(s@),
        None => None,
    }
}

/// The strings naming the accumulated columns, as stored in the arena.
pub open spec fn acc_name_strings(ea: Seq<AExpr>, acc: Seq<ColumnNode>) -> Seq<String> {
    acc.map_values(|c: ColumnNode| ea[c.0.0 as int]->Column_0)
}

/// The physical column names a scan must read for the accumulated set: the
/// accumulated names with the virtual columns dropped.
pub open spec fn physical_names(
    ea: Seq<AExpr>,
    acc: Seq<ColumnNode>,
    row_index: Option<Seq<char>>,
    file_path: Option<Seq<char>>,
) -> Seq<String> {
    acc_name_strings(ea, acc).filter(|s: String| !is_virtual_name(s@, row_index, file_path))
}

/// The names of `keep`, reordered to the schema's declared column order.
pub open spec fn ordered_names(schema: Seq<Field>, keep: Seq<String>) -> Seq<String> {
    schema.map_values(|f: Field| f.name).filter(|s: String| names_contain(keep, s@))
}

/// True when every entry of `acc` is a valid column node of `ea`.
pub open spec fn acc_nodes_ok(ea: Seq<AExpr>, acc: Seq<ColumnNode>) -> bool {
    forall|k: int| 0 <= k < acc.len() ==> is_column_node(ea, #[trigger] acc[k])
}

/// True when no two entries of `acc` name the same column.
pub open spec fn acc_names_distinct(ea: Seq<AExpr>, acc: Seq<ColumnNode>) -> bool {
    forall|i: int, j: int|
        0 <= i < j < acc.len() ==> column_node_name(ea, acc[i]) != column_node_name(ea, acc[j])
}

/// True when some entry of `acc` names `n`.
pub open spec fn acc_names_contain(ea: Seq<AExpr>, acc: Seq<ColumnNode>, n: Seq<char>) -> bool {
    exists|k: int| 0 <= k < acc.len() && column_node_name(ea, #[trigger] acc[k]) == n
}

/// Linear search for a name among the accumulated column nodes.
pub fn acc_contains_name(acc: &Vec<ColumnNode>, expr_arena: &Arena<AExpr>, name: &String) -> (r:
    bool)
    requires
        acc_nodes_ok(expr_arena@, acc@),
    ensures
        r == acc_names_contain(expr_arena@, acc@, name@),
{
    let n = acc.len();
    let mut i: usize = 0;
    while i < n
        invariant
            i <= n,
            n == acc@.len(),
            acc_nodes_ok(expr_arena@, acc@),
            forall|j: int| 0 <= j < i ==> column_node_name(expr_arena@, acc@[j]) != name@,
        decreases n - i,
    {
        if *column_node_to_name(acc[i], expr_arena) == *name {
            return true;
        }
        i += 1;
    }
    false
}

/// The names of the columns a scan must read from storage for the
/// accumulated set: `None` when nothing was accumulated (meaning "read
/// everything"), else the accumulated names with the reader-injected
/// row-index and file-path columns dropped, in accumulation order — or in
/// the declared order of `normalize_order_schema` when that is given, as
/// order-sensitive readers require.
pub fn get_scan_columns(
    acc_projections: &Vec<ColumnNode>,
    expr_arena: &Arena<AExpr>,
    row_index: Option<&String>,
    file_path_col: Option<&String>,
    normalize_order_schema: Option<&Schema>,
) -> (r: Option<Vec<String>>)
    requires
        acc_nodes_ok(expr_arena@, acc_projections@),
        acc_names_distinct(expr_arena@, acc_projections@),
        match normalize_order_schema {
            Some(s) => {
                &&& s.wf()
                &&& forall|k: int|
                    0 <= k < acc_projections@.len() && !is_virtual_name(
                        column_node_name(expr_arena@, #[trigger] acc_projections@[k]),
                        opt_name_view(row_index),
                        opt_name_view(file_path_col),
                    ) ==> seq_contains_name(
                        s@,
                        column_node_name(expr_arena@, acc_projections@[k]),
                    )
            },
            None => true,
        },
    ensures
        acc_projections@.len() == 0 <==> r is None,
        r matches Some(v) ==> v@ == {
            let phys = physical_names(
                expr_arena@,
                acc_projections@,
                opt_name_view(row_index),
                opt_name_view(file_path_col),
            );
            match normalize_order_schema {
                Some(s) => ordered_names(s@, phys),
                None => phys,
            }
        },
{
    if acc_projections.is_empty() {
        return None;
    }
    let ghost ea = expr_arena@;
    let ghost riv = opt_name_view(row_index);
    let ghost fpv = opt_name_view(file_path_col);
    let ghost namef = |c: ColumnNode| ea[c.0.0 as int]->Column_0;
    let ghost keepp = |s: String| !is_virtual_name(s@, riv, fpv);

    let n = acc_projections.len();
    let mut phys: Vec<String> = Vec::new();
    let mut i: usize = 0;
    proof {
        assert(acc_projections@.take(0) =~= Seq::<ColumnNode>::empty());
        assert(acc_projections@.take(0).map_values(namef).filter(keepp) =~= Seq::<String>::empty());
    }
    while i < n
        invariant
            i <= n,
            n == acc_projections@.len(),
            acc_nodes_ok(ea, acc_projections@),
            ea == expr_arena@,
            riv == opt_name_view(row_index),
            fpv == opt_name_view(file_path_col),
            namef == (|c: ColumnNode| ea[c.0.0 as int]->Column_0),
            keepp == (|s: String| !is_virtual_name(s@, riv, fpv)),
            phys@ == acc_projections@.take(i as int).map_values(namef).filter(keepp),
        decreases n - i,
    {
        let node = acc_projections[i];
        let name = column_node_to_name(node, expr_arena);
        let mut skip = false;
        if let Some(ri) = row_index {
            if *ri == *name {
                skip = true;
            }
        }
        if let Some(fp) = file_path_col {
            if *fp == *name {
                skip = true;
            }
        }
        proof {
            assert(skip == is_virtual_name(name@, riv, fpv));
            let t = acc_projections@.take(i as int);
            assert(acc_projections@.take(i as int + 1) =~= t.push(acc_projections@[i as int]));
            lemma_map_values_push(t, namef, acc_projections@[i as int]);
            lemma_filter_push(t.map_values(namef), keepp, namef(acc_projections@[i as int]));
            assert(namef(acc_projections@[i as int])@ == name@);
        }
        if !skip {
            phys.push(name.clone());
            proof {
                assert(keepp(namef(acc_projections@[i as int])));
            }
        }
        i += 1;
    }
    proof {
        assert(acc_projections@.take(n as int) =~= acc_projections@);
    }

    match normalize_order_schema {
        Some(schema) => {
            let m = schema.len();
            let mut out: Vec<String> = Vec::new();
            let ghost fieldnamef = |f: Field| f.name;
            let ghost memberp = |s: String| names_contain(phys@, s@);
            let mut j: usize = 0;
            proof {
                assert(schema@.take(0) =~= Seq::<Field>::empty());
                assert(schema@.take(0).map_values(fieldnamef).filter(memberp) =~= Seq::<
                    String,
                >::empty());
            }
            while j < m
                invariant
                    j <= m,
                    m == schema@.len(),
                    fieldnamef == (|f: Field| f.name),
                    memberp == (|s: String| names_contain(phys@, s@)),
                    out@ == schema@.take(j as int).map_values(fieldnamef).filter(memberp),
                decreases m - j,
            {
                let f = schema.get_at_index(j);
                let keep = crate::context::names_contains(&phys, &f.name);
                proof {
                    let t = schema@.take(j as int);
                    assert(schema@.take(j as int + 1) =~= t.push(schema@[j as int]));
                    lemma_map_values_push(t, fieldnamef, schema@[j as int]);
                    lemma_filter_push(t.map_values(fieldnamef), memberp, fieldnamef(schema@[j as int]));
                    assert(keep == memberp(fieldnamef(schema@[j as int])));
                }
                if keep {
                    out.push(f.name.clone());
                }
                j += 1;
            }
            proof {
                assert(schema@.take(m as int) =~= schema@);
            }
            Some(out)
        },
        None => Some(phys),
    }
}

/// Splits the accumulated projections into the part the child relation (of
/// schema `down_schema`) can supply, which keeps being pushed, and the part
/// that must resolve at this node. When the child already has exactly as
/// many columns as the accumulated set (and the node does not expand the
/// schema), nothing can be narrowed further: everything resolves locally.
/// Returns the pushed projections, the local projections and the pushed
/// names.
pub fn split_acc_projections(
    acc_projections: Vec<ColumnNode>,
    down_schema: &Schema,
    expr_arena: &Arena<AExpr>,
    expands_schema: bool,
) -> (r: (Vec<ColumnNode>, Vec<ColumnNode>, Vec<String>))
    requires
        acc_nodes_ok(expr_arena@, acc_projections@),
        down_schema.wf(),
    ensures
        (!expands_schema && down_schema@.len() == acc_projections@.len()) ==> {
            &&& r.0@ == Seq::<ColumnNode>::empty()
            &&& r.1@ == acc_projections@
            &&& r.2@ == Seq::<String>::empty()
        },
        (expands_schema || down_schema@.len() != acc_projections@.len()) ==> {
            let keepp = |c: ColumnNode|
                seq_contains_name(down_schema@, column_node_name(expr_arena@, c));
            &&& r.0@ == acc_projections@.filter(keepp)
            &&& r.1@ == acc_projections@.filter(|c: ColumnNode| !keepp(c))
            &&& r.2@ == acc_name_strings(expr_arena@, r.0@)
        },
{
    if !expands_schema && down_schema.len() == acc_projections.len() {
        return (Vec::new(), acc_projections, Vec::new());
    }
    let ghost ea = expr_arena@;
    let ghost keepp = |c: ColumnNode| seq_contains_name(down_schema@, column_node_name(ea, c));
    let ghost dropp = |c: ColumnNode| !keepp(c);
    let ghost namef = |c: ColumnNode| ea[c.0.0 as int]->Column_0;

    let n = acc_projections.len();
    let mut pushed: Vec<ColumnNode> = Vec::new();
    let mut local: Vec<ColumnNode> = Vec::new();
    let mut names: Vec<String> = Vec::new();
    let mut i: usize = 0;
    proof {
        assert(acc_projections@.take(0) =~= Seq::<ColumnNode>::empty());
        assert(acc_projections@.take(0).filter(keepp) =~= Seq::<ColumnNode>::empty());
        assert(acc_projections@.take(0).filter(dropp) =~= Seq::<ColumnNode>::empty());
        assert(Seq::<ColumnNode>::empty().map_values(namef) =~= Seq::<String>::empty());
    }
    while i < n
        invariant
            i <= n,
            n == acc_projections@.len(),
            acc_nodes_ok(ea, acc_projections@),
            ea == expr_arena@,
            keepp == (|c: ColumnNode| seq_contains_name(down_schema@, column_node_name(ea, c))),
            dropp == (|c: ColumnNode| !keepp(c)),
            namef == (|c: ColumnNode| ea[c.0.0 as int]->Column_0),
            pushed@ == acc_projections@.take(i as int).filter(keepp),
            local@ == acc_projections@.take(i as int).filter(dropp),
            names@ == pushed@.map_values(namef),
        decreases n - i,
    {
        let node = acc_projections[i];
        let name = column_node_to_name(node, expr_arena);
        let keep = down_schema.contains(name);
        proof {
            let t = acc_projections@.take(i as int);
            assert(acc_projections@.take(i as int + 1) =~= t.push(acc_projections@[i as int]));
            lemma_filter_push(t, keepp, acc_projections@[i as int]);
            lemma_filter_push(t, dropp, acc_projections@[i as int]);
            assert(keep == keepp(acc_projections@[i as int]));
        }
        if keep {
            pushed.push(node);
            names.push(name.clone());
            proof {
                lemma_map_values_push(
                    acc_projections@.take(i as int).filter(keepp),
                    namef,
                    acc_projections@[i as int],
                );
            }
        } else {
            local.push(node);
        }
        i += 1;
    }
    proof {
        assert(acc_projections@.take(n as int) =~= acc_projections@);
    }
    (pushed, local, names)
}

/// Rebuilds a scan's output schema from the accumulated column subset: each
/// requested name is looked up in the pre-pushdown schema and re-inserted,
/// in accumulation order, or in the schema's declared order when
/// `sort_projections` is set. Fails with the first missing name exactly
/// when some requested column is absent from the source schema — a broken
/// plan-construction invariant, not a user error.
pub fn update_scan_schema(
    acc_projections: &Vec<ColumnNode>,
    expr_arena: &Arena<AExpr>,
    schema: &Schema,
    sort_projections: bool,
) -> (r: Result<Schema, PlanError>)
    requires
        acc_nodes_ok(expr_arena@, acc_projections@),
        acc_names_distinct(expr_arena@, acc_projections@),
        schema.wf(),
    ensures
        match r {
            Ok(s) => {
                &&& forall|k: int|
                    0 <= k < acc_projections@.len() ==> seq_contains_name(
                        schema@,
                        column_node_name(expr_arena@, #[trigger] acc_projections@[k]),
                    )
                &&& s.wf()
                &&& if sort_projections {
                    s@ == schema@.filter(
                        |f: Field|
                            acc_names_contain(expr_arena@, acc_projections@, f.name@),
                    )
                } else {
                    s@ == acc_projections@.map_values(
                        |c: ColumnNode|
                            field_named(schema@, column_node_name(expr_arena@, c)),
                    )
                }
            },
            Err(e) => {
                &&& exists|k: int|
                    0 <= k < acc_projections@.len() && !seq_contains_name(
                        schema@,
                        column_node_name(expr_arena@, #[trigger] acc_projections@[k]),
                    )
                &&& e is ColumnNotFound
            },
        },
{
    let ghost ea = expr_arena@;
    let n = acc_projections.len();
    let ghost fieldf = |c: ColumnNode| field_named(schema@, column_node_name(ea, c));

    // Look every requested name up; build the accumulation-order schema on
    // the way.
    let mut fields: Vec<Field> = Vec::new();
    let mut i: usize = 0;
    proof {
        assert(acc_projections@.take(0) =~= Seq::<ColumnNode>::empty());
        assert(acc_projections@.take(0).map_values(fieldf) =~= Seq::<Field>::empty());
    }
    while i < n
        invariant
            i <= n,
            n == acc_projections@.len(),
            acc_nodes_ok(ea, acc_projections@),
            ea == expr_arena@,
            schema.wf(),
            fieldf == (|c: ColumnNode| field_named(schema@, column_node_name(ea, c))),
            forall|k: int|
                0 <= k < i ==> seq_contains_name(
                    schema@,
                    column_node_name(ea, #[trigger] acc_projections@[k]),
                ),
            fields@ == acc_projections@.take(i as int).map_values(fieldf),
        decreases n - i,
    {
        let node = acc_projections[i];
        let name = column_node_to_name(node, expr_arena);
        match schema.index_of(name) {
            Some(pos) => {
                proof {
                    let j = choose|j: int| 0 <= j < schema@.len() && schema@[j].name@ == name@;
                    assert(schema@[pos as int].name@ == schema@[j].name@);
                    assert(pos as int == j);
                    let t = acc_projections@.take(i as int);
                    assert(acc_projections@.take(i as int + 1) =~= t.push(
                        acc_projections@[i as int],
                    ));
                    lemma_map_values_push(t, fieldf, acc_projections@[i as int]);
                }
                fields.push(schema.get_at_index(pos).duplicate());
            },
            None => {
                return Err(PlanError::ColumnNotFound(name.clone()));
            },
        }
        i += 1;
    }
    proof {
        assert(acc_projections@.take(n as int) =~= acc_projections@);
    }

    if sort_projections {
        // Rebuild in the schema's declared order instead.
        let ghost memberp = |f: Field| acc_names_contain(ea, acc_projections@, f.name@);
        let m = schema.len();
        let mut out = Schema::new();
        let mut j: usize = 0;
        proof {
            assert(schema@.take(0) =~= Seq::<Field>::empty());
            assert(schema@.take(0).filter(memberp) =~= Seq::<Field>::empty());
        }
        while j < m
            invariant
                j <= m,
                m == schema@.len(),
                acc_nodes_ok(ea, acc_projections@),
                ea == expr_arena@,
                schema.wf(),
                memberp == (|f: Field| acc_names_contain(ea, acc_projections@, f.name@)),
                out@ == schema@.take(j as int).filter(memberp),
            decreases m - j,
        {
            let f = schema.get_at_index(j);
            let keep = acc_contains_name(acc_projections, expr_arena, &f.name);
            proof {
                let t = schema@.take(j as int);
                assert(schema@.take(j as int + 1) =~= t.push(schema@[j as int]));
                lemma_filter_push(t, memberp, schema@[j as int]);
                assert(keep == memberp(schema@[j as int]));
            }
            if keep {
                let dup = f.duplicate();
                out.fields.push(dup);
            }
            j += 1;
        }
        proof {
            assert(schema@.take(m as int) =~= schema@);
            lemma_filter_distinct_names(schema@, memberp);
        }
        Ok(out)
    } else {
        proof {
            let s = acc_projections@.map_values(fieldf);
            assert forall|a: int, b: int| 0 <= a < b < s.len() implies s[a].name@ != s[b].name@ by {
                crate::schema::lemma_field_named(
                    schema@,
                    column_node_name(ea, acc_projections@[a]),
                );
                crate::schema::lemma_field_named(
                    schema@,
                    column_node_name(ea, acc_projections@[b]),
                );
            }
        }
        Ok(Schema { fields })
    }
}

} // verus!
