//! Turns the conditions of a query into the calls of modules to make, in an
//! order where each call comes after the calls it needs, and into the query
//! that gives the result.
use vstd::prelude::*;
use crate::data_types::{ConstantValue, ValueType};
use crate::expr::{ArgList, Comparison, Condition, MathExpression, ParsedArgType, ParsedFunction, arg_list_seq, prims};
use crate::module::{Module, TypedArg};
use crate::sql::{
    CANONICAL_TABLE_NAME, FUNCTION_OUTPUT_COL_NAME, PK_NAME, JoinModel, SelectModel, SqlJoin, SqlSelectQuery, SqlTable,
    SqlTableSelection, SqlWhereClause, TableModel, TableSelModel, WhereModel, join_model, select_model,
};
use std::collections::HashSet;
use crate::conjecture::is_ident;
use crate::text::{concat, dec, usize_to_string};
use indexmap::IndexMap;
use crate::rel_graph::{
    AutoFnCallIterator, FnCallIterator, deps_ordered, unique_names, FnArg, FnRef, RelationGraph, RelationGraphError, arg_type, call_error, first_arg_error, has_module, module_index,
    same_arg, same_args, same_expr, same_ref, lemma_same_expr_refl,
};

verus! {

broadcast use vstd::std_specs::hash::group_hash_axioms;

// ______________________________ flattened expressions

/// `x` is the primitive value `a` once its function calls are calls of `g`.
pub open spec fn flat_arg(g: RelationGraph, a: ParsedArgType, x: FnArg) -> bool
    decreases a, 0nat,
{
    match a {
        ParsedArgType::PrimString(s) => x == FnArg::Constant(ConstantValue::String(s)),
        ParsedArgType::PrimNumeric(n) => x == FnArg::Constant(ConstantValue::Numeric(n)),
        ParsedArgType::Dataset => x is Dataset,
        ParsedArgType::Function(f) => x matches FnArg::FnCall(r) && exists|i: int, xs: Seq<MathExpression<FnArg>>|
            #![trigger g.refers(i, r), same_args(g.call_args(i), xs)]
            g.refers(i, r) && g.call_ref(i).0@ == f.name@ && same_args(g.call_args(i), xs) && xs.len() >= 1
                && flat_expr(g, *f.first_arg, xs[0]) && flat_list(g, f.other_args, xs.skip(1)),
    }
}

/// `xs` are the arguments of `l` once flattened in `g`.
pub open spec fn flat_list(g: RelationGraph, l: ArgList, xs: Seq<MathExpression<FnArg>>) -> bool
    decreases l, 0nat,
{
    match l {
        ArgList::End => xs.len() == 0,
        ArgList::Next(e, rest) => xs.len() >= 1 && flat_expr(g, *e, xs[0]) && flat_list(g, *rest, xs.skip(1)),
    }
}

/// `x` is the expression `e` once its function calls are calls of `g`.
pub open spec fn flat_expr(g: RelationGraph, e: MathExpression<ParsedArgType>, x: MathExpression<FnArg>) -> bool
    decreases e, 0nat,
{
    match e {
        MathExpression::Primitif(p) => x matches MathExpression::Primitif(y) && flat_arg(g, p, y),
        MathExpression::Negation(a) => x matches MathExpression::Negation(b) && flat_expr(g, *a, *b),
        MathExpression::Floor(a) => x matches MathExpression::Floor(b) && flat_expr(g, *a, *b),
        MathExpression::Ceil(a) => x matches MathExpression::Ceil(b) && flat_expr(g, *a, *b),
        MathExpression::Abs(a) => x matches MathExpression::Abs(b) && flat_expr(g, *a, *b),
        MathExpression::Sqrt(a) => x matches MathExpression::Sqrt(b) && flat_expr(g, *a, *b),
        MathExpression::BinOperation { left, op, right } => x matches MathExpression::BinOperation { left: l2, op: o2, right: r2 }
            && op == o2 && flat_expr(g, *left, *l2) && flat_expr(g, *right, *r2),
    }
}

/// `x` is the comparison `c` once its function calls are calls of `g`.
pub open spec fn flat_comparison(g: RelationGraph, c: Comparison<ParsedArgType>, x: Comparison<FnArg>) -> bool {
    match c {
        Comparison::Greater(l, r) => x matches Comparison::Greater(l2, r2) && flat_expr(g, l, l2) && flat_expr(g, r, r2),
        Comparison::GreaterEqual(l, r, e) => x matches Comparison::GreaterEqual(l2, r2, e2) && e2 == e && flat_expr(g, l, l2)
            && flat_expr(g, r, r2),
        Comparison::Less(l, r) => x matches Comparison::Less(l2, r2) && flat_expr(g, l, l2) && flat_expr(g, r, r2),
        Comparison::LessEqual(l, r, e) => x matches Comparison::LessEqual(l2, r2, e2) && e2 == e && flat_expr(g, l, l2)
            && flat_expr(g, r, r2),
        Comparison::Equal(l, r, e) => x matches Comparison::Equal(l2, r2, e2) && e2 == e && flat_expr(g, l, l2) && flat_expr(g, r, r2),
        Comparison::NotEqual(l, r, e) => x matches Comparison::NotEqual(l2, r2, e2) && e2 == e && flat_expr(g, l, l2)
            && flat_expr(g, r, r2),
    }
}

/// `x` is the condition `c` once its function calls are calls of `g`.
pub open spec fn flat_condition(g: RelationGraph, c: Condition<ParsedArgType>, x: Condition<FnArg>) -> bool
    decreases c,
{
    match c {
        Condition::Comparison(a) => x matches Condition::Comparison(b) && flat_comparison(g, a, b),
        Condition::Or(a, b) => x matches Condition::Or(a2, b2) && flat_condition(g, *a, *a2) && flat_condition(g, *b, *b2),
        Condition::And(a, b) => x matches Condition::And(a2, b2) && flat_condition(g, *a, *a2) && flat_condition(g, *b, *b2),
        Condition::Not(a) => x matches Condition::Not(a2) && flat_condition(g, *a, *a2),
    }
}

// ______________________________ the first invalid call of a condition

/// The type of the value of a parsed argument, once flattened.
pub open spec fn parsed_arg_type(mods: Seq<Module>, e: MathExpression<ParsedArgType>) -> ValueType {
    match e {
        MathExpression::Primitif(p) => match p {
            ParsedArgType::PrimString(_) => ValueType::String,
            ParsedArgType::PrimNumeric(_) => ValueType::Numeric,
            ParsedArgType::Dataset => ValueType::Graph,
            ParsedArgType::Function(f) => mods[module_index(mods, f.name@)].output,
        },
        _ => ValueType::Numeric,
    }
}

/// The first argument, from `i` on, whose type differs from that of its parameter.
pub open spec fn first_parsed_arg_error(
    mods: Seq<Module>,
    name: String,
    params: Seq<TypedArg>,
    args: Seq<MathExpression<ParsedArgType>>,
    i: int,
) -> Option<RelationGraphError>
    decreases args.len() - i,
{
    if i < 0 || i >= args.len() {
        None
    } else {
        let t = parsed_arg_type(mods, args[i]);
        if t != params[i].data_type {
            Some(RelationGraphError::DifferentArgumentType(name, params[i].name, t, params[i].data_type))
        } else {
            first_parsed_arg_error(mods, name, params, args, i + 1)
        }
    }
}

/// The arguments of a parsed function call, in order.
pub open spec fn call_args_of(f: ParsedFunction) -> Seq<MathExpression<ParsedArgType>> {
    seq![*f.first_arg] + arg_list_seq(f.other_args)
}

/// Why the call `f` cannot be made once its arguments are valid, if it cannot.
pub open spec fn parsed_call_error(mods: Seq<Module>, f: ParsedFunction) -> Option<RelationGraphError> {
    let args = call_args_of(f);
    if !has_module(mods, f.name@) {
        Some(RelationGraphError::UnknownFunction(f.name))
    } else {
        let m = mods[module_index(mods, f.name@)];
        if m.args@.len() != args.len() {
            Some(RelationGraphError::DifferentArgumentNumber(f.name, args.len() as usize, m.args@.len() as usize))
        } else {
            first_parsed_arg_error(mods, f.name, m.args@, args, 0)
        }
    }
}

/// The first of two possible errors.
pub open spec fn either(a: Option<RelationGraphError>, b: Option<RelationGraphError>) -> Option<RelationGraphError> {
    match a {
        Some(e) => Some(e),
        None => b,
    }
}

/// The error of the first invalid call in `a`, calls taken innermost first, left to right.
pub open spec fn arg_error(mods: Seq<Module>, a: ParsedArgType) -> Option<RelationGraphError>
    decreases a, 0nat,
{
    match a {
        ParsedArgType::Function(f) => either(
            expr_error(mods, *f.first_arg),
            either(list_error(mods, f.other_args), parsed_call_error(mods, f)),
        ),
        _ => None,
    }
}

/// The error of the first invalid call in the arguments `l`.
pub open spec fn list_error(mods: Seq<Module>, l: ArgList) -> Option<RelationGraphError>
    decreases l, 0nat,
{
    match l {
        ArgList::End => None,
        ArgList::Next(e, rest) => either(expr_error(mods, *e), list_error(mods, *rest)),
    }
}

/// The error of the first invalid call in `e`.
pub open spec fn expr_error(mods: Seq<Module>, e: MathExpression<ParsedArgType>) -> Option<RelationGraphError>
    decreases e, 0nat,
{
    match e {
        MathExpression::Primitif(p) => arg_error(mods, p),
        MathExpression::Negation(a) => expr_error(mods, *a),
        MathExpression::Floor(a) => expr_error(mods, *a),
        MathExpression::Ceil(a) => expr_error(mods, *a),
        MathExpression::Abs(a) => expr_error(mods, *a),
        MathExpression::Sqrt(a) => expr_error(mods, *a),
        MathExpression::BinOperation { left, op, right } => either(expr_error(mods, *left), expr_error(mods, *right)),
    }
}

/// The error of the first invalid call in `c`.
pub open spec fn comparison_error(mods: Seq<Module>, c: Comparison<ParsedArgType>) -> Option<RelationGraphError> {
    match c {
        Comparison::Greater(l, r) => either(expr_error(mods, l), expr_error(mods, r)),
        Comparison::GreaterEqual(l, r, _) => either(expr_error(mods, l), expr_error(mods, r)),
        Comparison::Less(l, r) => either(expr_error(mods, l), expr_error(mods, r)),
        Comparison::LessEqual(l, r, _) => either(expr_error(mods, l), expr_error(mods, r)),
        Comparison::Equal(l, r, _) => either(expr_error(mods, l), expr_error(mods, r)),
        Comparison::NotEqual(l, r, _) => either(expr_error(mods, l), expr_error(mods, r)),
    }
}

/// The error of the first invalid call in `c`, the left side of a binary
/// condition before the right one.
pub open spec fn condition_error(mods: Seq<Module>, c: Condition<ParsedArgType>) -> Option<RelationGraphError>
    decreases c,
{
    match c {
        Condition::Comparison(a) => comparison_error(mods, a),
        Condition::Or(a, b) => either(condition_error(mods, *a), condition_error(mods, *b)),
        Condition::And(a, b) => either(condition_error(mods, *a), condition_error(mods, *b)),
        Condition::Not(a) => condition_error(mods, *a),
    }
}

// ______________________________ what stays flattened

/// What is flattened in a graph stays flattened in any graph that extends it.
pub proof fn lemma_flat_arg_extends(g: RelationGraph, g2: RelationGraph, a: ParsedArgType, x: FnArg)
    requires
        g2.extends(g),
        flat_arg(g, a, x),
    ensures
        flat_arg(g2, a, x),
    decreases a, 0nat,
{
    match a {
        ParsedArgType::Function(f) => {
            let r = x->FnCall_0;
            let (i, xs) = choose|i: int, xs: Seq<MathExpression<FnArg>>|
                #![trigger g.refers(i, r), same_args(g.call_args(i), xs)]
                g.refers(i, r) && g.call_ref(i).0@ == f.name@ && same_args(g.call_args(i), xs) && xs.len() >= 1
                    && flat_expr(g, *f.first_arg, xs[0]) && flat_list(g, f.other_args, xs.skip(1));
            assert(g2.call_ref(i) == g.call_ref(i));
            lemma_flat_expr_extends(g, g2, *f.first_arg, xs[0]);
            lemma_flat_list_extends(g, g2, f.other_args, xs.skip(1));
            assert(g2.refers(i, r) && same_args(g2.call_args(i), xs));
        },
        _ => {},
    }
}

pub proof fn lemma_flat_list_extends(g: RelationGraph, g2: RelationGraph, l: ArgList, xs: Seq<MathExpression<FnArg>>)
    requires
        g2.extends(g),
        flat_list(g, l, xs),
    ensures
        flat_list(g2, l, xs),
    decreases l, 0nat,
{
    match l {
        ArgList::End => {},
        ArgList::Next(e, rest) => {
            lemma_flat_expr_extends(g, g2, *e, xs[0]);
            lemma_flat_list_extends(g, g2, *rest, xs.skip(1));
        },
    }
}

pub proof fn lemma_flat_expr_extends(g: RelationGraph, g2: RelationGraph, e: MathExpression<ParsedArgType>, x: MathExpression<FnArg>)
    requires
        g2.extends(g),
        flat_expr(g, e, x),
    ensures
        flat_expr(g2, e, x),
    decreases e, 0nat,
{
    match e {
        MathExpression::Primitif(p) => lemma_flat_arg_extends(g, g2, p, x->Primitif_0),
        MathExpression::Negation(a) => lemma_flat_expr_extends(g, g2, *a, *x->Negation_0),
        MathExpression::Floor(a) => lemma_flat_expr_extends(g, g2, *a, *x->Floor_0),
        MathExpression::Ceil(a) => lemma_flat_expr_extends(g, g2, *a, *x->Ceil_0),
        MathExpression::Abs(a) => lemma_flat_expr_extends(g, g2, *a, *x->Abs_0),
        MathExpression::Sqrt(a) => lemma_flat_expr_extends(g, g2, *a, *x->Sqrt_0),
        MathExpression::BinOperation { left, op, right } => {
            lemma_flat_expr_extends(g, g2, *left, *x->left);
            lemma_flat_expr_extends(g, g2, *right, *x->right);
        },
    }
}

pub proof fn lemma_flat_condition_extends(g: RelationGraph, g2: RelationGraph, c: Condition<ParsedArgType>, x: Condition<FnArg>)
    requires
        g2.extends(g),
        flat_condition(g, c, x),
    ensures
        flat_condition(g2, c, x),
    decreases c,
{
    match c {
        Condition::Comparison(a) => {
            let b = x->Comparison_0;
            match a {
                Comparison::Greater(l, r) => {
                    lemma_flat_expr_extends(g, g2, l, b->Greater_0);
                    lemma_flat_expr_extends(g, g2, r, b->Greater_1);
                },
                Comparison::GreaterEqual(l, r, _) => {
                    lemma_flat_expr_extends(g, g2, l, b->GreaterEqual_0);
                    lemma_flat_expr_extends(g, g2, r, b->GreaterEqual_1);
                },
                Comparison::Less(l, r) => {
                    lemma_flat_expr_extends(g, g2, l, b->Less_0);
                    lemma_flat_expr_extends(g, g2, r, b->Less_1);
                },
                Comparison::LessEqual(l, r, _) => {
                    lemma_flat_expr_extends(g, g2, l, b->LessEqual_0);
                    lemma_flat_expr_extends(g, g2, r, b->LessEqual_1);
                },
                Comparison::Equal(l, r, _) => {
                    lemma_flat_expr_extends(g, g2, l, b->Equal_0);
                    lemma_flat_expr_extends(g, g2, r, b->Equal_1);
                },
                Comparison::NotEqual(l, r, _) => {
                    lemma_flat_expr_extends(g, g2, l, b->NotEqual_0);
                    lemma_flat_expr_extends(g, g2, r, b->NotEqual_1);
                },
            }
        },
        Condition::Or(a, b) => {
            lemma_flat_condition_extends(g, g2, *a, *x->Or_0);
            lemma_flat_condition_extends(g, g2, *b, *x->Or_1);
        },
        Condition::And(a, b) => {
            lemma_flat_condition_extends(g, g2, *a, *x->And_0);
            lemma_flat_condition_extends(g, g2, *b, *x->And_1);
        },
        Condition::Not(a) => lemma_flat_condition_extends(g, g2, *a, *x->Not_0),
    }
}

// ______________________________ what flattening keeps

/// The flattened arguments of a list, one for each argument.
pub proof fn lemma_flat_list_seq(g: RelationGraph, l: ArgList, xs: Seq<MathExpression<FnArg>>)
    requires
        flat_list(g, l, xs),
    ensures
        xs.len() == arg_list_seq(l).len(),
        forall|k: int| 0 <= k < xs.len() ==> flat_expr(g, #[trigger] arg_list_seq(l)[k], xs[k]),
    decreases l,
{
    match l {
        ArgList::End => {},
        ArgList::Next(e, rest) => {
            lemma_flat_list_seq(g, *rest, xs.skip(1));
            assert forall|k: int| 0 <= k < xs.len() implies flat_expr(g, #[trigger] arg_list_seq(l)[k], xs[k]) by {
                if k > 0 {
                    assert(arg_list_seq(l)[k] == arg_list_seq(*rest)[k - 1]);
                    assert(xs[k] == xs.skip(1)[k - 1]);
                }
            }
        },
    }
}

/// A flattened expression has the type that its parsed form announces.
pub proof fn lemma_flat_expr_type(g: RelationGraph, e: MathExpression<ParsedArgType>, x: MathExpression<FnArg>)
    requires
        g.wf(),
        flat_expr(g, e, x),
    ensures
        arg_type(g.module_list(), x) == Ok::<ValueType, RelationGraphError>(parsed_arg_type(g.module_list(), e)),
{
    match e {
        MathExpression::Primitif(p) => match p {
            ParsedArgType::Function(f) => {
                assert(flat_arg(g, p, x->Primitif_0));
                let r = x->Primitif_0->FnCall_0;
                assert(x->Primitif_0 == FnArg::FnCall(r));
                let (i, xs) = choose|i: int, xs: Seq<MathExpression<FnArg>>|
                    #![trigger g.refers(i, r), same_args(g.call_args(i), xs)]
                    g.refers(i, r) && g.call_ref(i).0@ == f.name@ && same_args(g.call_args(i), xs) && xs.len() >= 1
                        && flat_expr(g, *f.first_arg, xs[0]) && flat_list(g, f.other_args, xs.skip(1));
                g.lemma_calls_valid(i);
            },
            _ => {
                assert(flat_arg(g, p, x->Primitif_0));
            },
        },
        _ => {},
    }
}

/// Flattened arguments fail the type checks of a call exactly where their
/// parsed forms do.
pub proof fn lemma_flat_arg_errors(
    g: RelationGraph,
    name: String,
    params: Seq<TypedArg>,
    parsed: Seq<MathExpression<ParsedArgType>>,
    xs: Seq<MathExpression<FnArg>>,
    i: int,
)
    requires
        g.wf(),
        parsed.len() == xs.len(),
        forall|k: int| 0 <= k < xs.len() ==> flat_expr(g, #[trigger] parsed[k], xs[k]),
    ensures
        first_arg_error(g.module_list(), name, params, xs, i) == first_parsed_arg_error(g.module_list(), name, params, parsed, i),
    decreases xs.len() - i,
{
    if 0 <= i < xs.len() {
        lemma_flat_expr_type(g, parsed[i], xs[i]);
        lemma_flat_arg_errors(g, name, params, parsed, xs, i + 1);
    }
}

/// Equal arguments have equal types.
pub proof fn lemma_same_expr_type(mods: Seq<Module>, a: MathExpression<FnArg>, b: MathExpression<FnArg>)
    requires
        same_expr(a, b),
    ensures
        arg_type(mods, a) is Ok <==> arg_type(mods, b) is Ok,
        arg_type(mods, a) is Ok ==> arg_type(mods, a) == arg_type(mods, b),
{
}

/// Equal arguments pass the type checks of a call alike.
pub proof fn lemma_same_args_checks(
    mods: Seq<Module>,
    n1: String,
    n2: String,
    params: Seq<TypedArg>,
    a: Seq<MathExpression<FnArg>>,
    b: Seq<MathExpression<FnArg>>,
    i: int,
)
    requires
        same_args(a, b),
    ensures
        first_arg_error(mods, n1, params, a, i) is None <==> first_arg_error(mods, n2, params, b, i) is None,
    decreases a.len() - i,
{
    if 0 <= i < a.len() {
        lemma_same_expr_type(mods, a[i], b[i]);
        lemma_same_args_checks(mods, n1, n2, params, a, b, i + 1);
    }
}

/// The primitive values `ps` that are calls are calls of `g`.
pub open spec fn refs_known(g: RelationGraph, ps: Seq<FnArg>) -> bool {
    forall|k: int| 0 <= k < ps.len() ==> (#[trigger] ps[k] matches FnArg::FnCall(r) ==> exists|y: int| g.refers(y, r))
}

/// The calls of a flattened expression are calls of the graph.
pub proof fn lemma_flat_refs(g: RelationGraph, e: MathExpression<ParsedArgType>, x: MathExpression<FnArg>)
    requires
        flat_expr(g, e, x),
    ensures
        refs_known(g, prims(x)),
    decreases e,
{
    match e {
        MathExpression::Primitif(p) => {
            assert(prims(x) =~= seq![x->Primitif_0]);
            assert(flat_arg(g, p, x->Primitif_0));
            match p {
                ParsedArgType::Function(f) => {
                    let r = x->Primitif_0->FnCall_0;
                    let (i, xs) = choose|i: int, xs: Seq<MathExpression<FnArg>>|
                        #![trigger g.refers(i, r), same_args(g.call_args(i), xs)]
                        g.refers(i, r) && g.call_ref(i).0@ == f.name@ && same_args(g.call_args(i), xs) && xs.len() >= 1
                            && flat_expr(g, *f.first_arg, xs[0]) && flat_list(g, f.other_args, xs.skip(1));
                    assert(g.refers(i, r));
                },
                _ => {},
            }
        },
        MathExpression::Negation(a) => lemma_flat_refs(g, *a, *x->Negation_0),
        MathExpression::Floor(a) => lemma_flat_refs(g, *a, *x->Floor_0),
        MathExpression::Ceil(a) => lemma_flat_refs(g, *a, *x->Ceil_0),
        MathExpression::Abs(a) => lemma_flat_refs(g, *a, *x->Abs_0),
        MathExpression::Sqrt(a) => lemma_flat_refs(g, *a, *x->Sqrt_0),
        MathExpression::BinOperation { left, op, right } => {
            lemma_flat_refs(g, *left, *x->left);
            lemma_flat_refs(g, *right, *x->right);
            let pl = prims(*x->left);
            let pr = prims(*x->right);
            assert(prims(x) == pl + pr);
            assert forall|k: int| 0 <= k < prims(x).len() implies (#[trigger] prims(x)[k] matches FnArg::FnCall(r) ==> exists|y: int| g.refers(y, r)) by {
                if k < pl.len() {
                    assert(prims(x)[k] == pl[k]);
                } else {
                    assert(prims(x)[k] == pr[k - pl.len()]);
                }
            }
        },
    }
}

// ______________________________ the dependencies of the calls

/// The call of index `x` is recorded as relying on the call that `p` is, if `p` is a call.
pub open spec fn dep_recorded(g: RelationGraph, x: int, p: FnArg) -> bool {
    p matches FnArg::FnCall(r) ==> exists|y: int| #![trigger g.refers(y, r)] g.refers(y, r) && g.dependents(y).contains(x as usize)
}

/// Every call of `g` is recorded as relying on each call among its arguments.
pub open spec fn deps_complete(g: RelationGraph) -> bool {
    forall|x: int, j: int, k: int|
        0 <= x < g.size() && 0 <= j < g.call_args(x).len() && 0 <= k < prims(g.call_args(x)[j]).len() ==> dep_recorded(
            g,
            x,
            #[trigger] prims(g.call_args(x)[j])[k],
        )
}

/// The dependents of each call of `g1` are still dependents in `g2`.
pub open spec fn deps_kept(g1: RelationGraph, g2: RelationGraph) -> bool {
    forall|y: int, v: usize| 0 <= y < g1.size() && #[trigger] g1.dependents(y).contains(v) ==> g2.dependents(y).contains(v)
}

/// A recorded dependency stays recorded in a graph that extends the graph
/// and keeps its dependents.
pub proof fn lemma_dep_recorded_kept(g1: RelationGraph, g2: RelationGraph, x: int, p: FnArg)
    requires
        g2.extends(g1),
        deps_kept(g1, g2),
        dep_recorded(g1, x, p),
    ensures
        dep_recorded(g2, x, p),
{
    if let FnArg::FnCall(r) = p {
        let y = choose|y: int| #![trigger g1.refers(y, r)] g1.refers(y, r) && g1.dependents(y).contains(x as usize);
        assert(g2.call_ref(y) == g1.call_ref(y));
        assert(g2.refers(y, r));
    }
}

/// The call `r` of `g` is the flattening of `f` when its arguments are.
proof fn lemma_flat_call_intro(g: RelationGraph, f: ParsedFunction, r: FnRef, i: int, xs: Seq<MathExpression<FnArg>>)
    requires
        g.refers(i, r),
        g.call_ref(i).0@ == f.name@,
        same_args(g.call_args(i), xs),
        xs.len() >= 1,
        flat_expr(g, *f.first_arg, xs[0]),
        flat_list(g, f.other_args, xs.skip(1)),
    ensures
        flat_arg(g, ParsedArgType::Function(f), FnArg::FnCall(r)),
{
    let a = ParsedArgType::Function(f);
    let x = FnArg::FnCall(r);
    assert(x->FnCall_0 == r);
    assert(exists|i: int, xs: Seq<MathExpression<FnArg>>|
            #![trigger g.refers(i, r), same_args(g.call_args(i), xs)]
            g.refers(i, r) && g.call_ref(i).0@ == f.name@ && same_args(g.call_args(i), xs) && xs.len() >= 1
                && flat_expr(g, *f.first_arg, xs[0]) && flat_list(g, f.other_args, xs.skip(1)));
    assert(flat_arg(g, a, x));
}

/// A graph with the calls of `a` extends `a`.
pub proof fn lemma_same_calls_extends(a: RelationGraph, b: RelationGraph)
    requires
        b.same_calls(a),
    ensures
        b.extends(a),
{
    assert forall|i: int| 0 <= i < a.size() implies #[trigger] b.call_ref(i) == a.call_ref(i) && b.call_args(i) == a.call_args(i) by {
        assert(b.call_ref(i) == a.call_ref(i));
    }
}

/// A graph that extends a graph extending `a` extends `a`.
pub proof fn lemma_extends_trans(a: RelationGraph, b: RelationGraph, c: RelationGraph)
    requires
        b.extends(a),
        c.extends(b),
    ensures
        c.extends(a),
{
    assert forall|i: int| 0 <= i < a.size() implies #[trigger] c.call_ref(i) == a.call_ref(i) && c.call_args(i) == a.call_args(i) by {
        assert(b.call_ref(i) == a.call_ref(i));
        assert(c.call_ref(i) == b.call_ref(i));
    }
}

/// Whether `g` has a call of reference `r`, its index being `c`.
proof fn lemma_lookup_of(g: RelationGraph, c: int, r: FnRef)
    requires
        g.wf(),
        g.refers(c, r),
    ensures
        g.lookup(r) == Ok::<int, RelationGraphError>(c),
{
    let k = choose|i: int| g.refers(i, r);
    g.lemma_refers_unique(k, c, r);
}

/// Equal expressions have equal primitive values, one for one.
proof fn lemma_same_expr_prims(a: MathExpression<FnArg>, b: MathExpression<FnArg>)
    requires
        same_expr(a, b),
    ensures
        prims(a).len() == prims(b).len(),
        forall|k: int| 0 <= k < prims(a).len() ==> same_arg(#[trigger] prims(a)[k], prims(b)[k]),
    decreases a,
{
    match a {
        MathExpression::Primitif(x) => {},
        MathExpression::Negation(x) => lemma_same_expr_prims(*x, *b->Negation_0),
        MathExpression::Floor(x) => lemma_same_expr_prims(*x, *b->Floor_0),
        MathExpression::Ceil(x) => lemma_same_expr_prims(*x, *b->Ceil_0),
        MathExpression::Abs(x) => lemma_same_expr_prims(*x, *b->Abs_0),
        MathExpression::Sqrt(x) => lemma_same_expr_prims(*x, *b->Sqrt_0),
        MathExpression::BinOperation { left, op, right } => {
            lemma_same_expr_prims(*left, *b->left);
            lemma_same_expr_prims(*right, *b->right);
            let pl = prims(*left);
            let ql = prims(*b->left);
            assert forall|k: int| 0 <= k < prims(a).len() implies same_arg(#[trigger] prims(a)[k], prims(b)[k]) by {
                if k < pl.len() {
                    assert(prims(a)[k] == pl[k]);
                    assert(prims(b)[k] == ql[k]);
                } else {
                    assert(prims(a)[k] == prims(*right)[k - pl.len()]);
                    assert(prims(b)[k] == prims(*b->right)[k - ql.len()]);
                }
            }
        },
    }
}

/// Each call among the primitive values `ps` is a call of `g` made before the call of index `c`.
pub open spec fn refs_before(g: RelationGraph, c: int, ps: Seq<FnArg>) -> bool {
    forall|k: int, y: int|
        0 <= k < ps.len() && (#[trigger] ps[k]) is FnCall && #[trigger] g.refers(y, ps[k]->FnCall_0) ==> y < c
}

// ______________________________ flattening a condition into the graph

/// Adds the call `f`, and the calls among its arguments, to the graph, and
/// gives the reference of the call.
fn fill_graph_call(g: &mut RelationGraph, f: ParsedFunction) -> (r: Result<FnRef, RelationGraphError>)
    requires
        old(g).wf(),
        deps_complete(*old(g)),
        deps_ordered(*old(g)),
    ensures
        final(g).wf(),
        final(g).extends(*old(g)),
        deps_complete(*final(g)),
        deps_ordered(*final(g)),
        match r {
            Ok(fr) => arg_error(old(g).module_list(), ParsedArgType::Function(f)) is None && flat_arg(
                *final(g),
                ParsedArgType::Function(f),
                FnArg::FnCall(fr),
            ),
            Err(e) => arg_error(old(g).module_list(), ParsedArgType::Function(f)) == Some(e),
        },
    decreases f,
{
    let ghost g0 = *g;
    let ghost f0 = f;
    let ghost mods = g0.module_list();
    let ParsedFunction { name, first_arg, other_args } = f;
    let first = match fill_graph_expr(g, *first_arg) {
        Ok(x) => x,
        Err(e) => return Err(e),
    };
    let ghost g1 = *g;
    let mut args: Vec<MathExpression<FnArg>> = Vec::new();
    args.push(first);
    match fill_graph_list(g, other_args, &mut args) {
        Ok(()) => {},
        Err(e) => {
            proof {
                lemma_extends_trans(g0, g1, *g);
            }
            return Err(e);
        },
    }
    let ghost g2 = *g;
    proof {
        assert(args@.take(1) == seq![first]);
        assert(args@[0] == args@.take(1)[0]);
        lemma_extends_trans(g0, g1, g2);
        lemma_flat_expr_extends(g1, g2, *f0.first_arg, args@[0]);
        lemma_flat_list_seq(g2, f0.other_args, args@.skip(1));
        assert forall|k: int| 0 <= k < args@.len() implies flat_expr(g2, #[trigger] call_args_of(f0)[k], args@[k]) by {
            if k > 0 {
                assert(call_args_of(f0)[k] == arg_list_seq(f0.other_args)[k - 1]);
                assert(args@[k] == args@.skip(1)[k - 1]);
            }
        }
        if has_module(mods, name@) {
            let m = mods[module_index(mods, name@)];
            lemma_flat_arg_errors(g2, name, m.args@, call_args_of(f0), args@, 0);
        }
        assert(call_error(mods, name, args@) == parsed_call_error(mods, f0));
        assert forall|j: int| 0 <= j < args@.len() implies refs_known(g2, prims(#[trigger] args@[j])) by {
            lemma_flat_refs(g2, call_args_of(f0)[j], args@[j]);
        }
    }
    let fn_ref = match g.try_add_fn_call(name.clone(), &args) {
        Ok(x) => x,
        Err(e) => return Err(e),
    };
    let ghost g3 = *g;
    let ghost is_new = !exists|i: int| g2.is_call(i, name@, args@);
    let ghost c: int = if is_new {
        g2.size() as int
    } else {
        choose|i: int| g2.is_call(i, name@, args@) && g2.call_ref(i) == fn_ref
    };
    proof {
        if !is_new {
            g2.lemma_calls_valid(c);
            let n0 = g2.call_ref(c).0;
            let m = mods[module_index(mods, name@)];
            lemma_same_args_checks(mods, n0, name, m.args@, g2.call_args(c), args@, 0);
            assert(call_error(mods, name, args@) is None);
        } else {
            lemma_same_args_refl(args@);
        }
        assert(g3.refers(c, fn_ref));
        assert(same_args(g3.call_args(c), args@));
        assert(g3.call_ref(c).0@ == name@);
        assert forall|x: int, j: int, k: int|
            0 <= x < g3.size() && 0 <= j < g3.call_args(x).len() && 0 <= k < prims(g3.call_args(x)[j]).len() && (x != c
                || !is_new) implies dep_recorded(g3, x, #[trigger] prims(g3.call_args(x)[j])[k]) by {
            if is_new {
                assert forall|y: int, v: usize| 0 <= y < g2.size() && #[trigger] g2.dependents(y).contains(v) implies g3.dependents(
                    y,
                ).contains(v) by {
                    assert(g3.call_ref(y) == g2.call_ref(y));
                }
                assert(g3.call_ref(x) == g2.call_ref(x));
                assert(g3.call_args(x) == g2.call_args(x));
                assert(dep_recorded(g2, x, prims(g2.call_args(x)[j])[k]));
                lemma_dep_recorded_kept(g2, g3, x, prims(g2.call_args(x)[j])[k]);
            }
        }
        assert forall|j: int| 0 <= j < args@.len() implies refs_known(g3, prims(#[trigger] args@[j])) by {
            assert forall|k: int| 0 <= k < prims(args@[j]).len() implies (#[trigger] prims(args@[j])[k] matches FnArg::FnCall(
                r,
            ) ==> exists|y: int| g3.refers(y, r)) by {
                if let FnArg::FnCall(r) = prims(args@[j])[k] {
                    assert(refs_known(g2, prims(args@[j])));
                    let y = choose|y: int| g2.refers(y, r);
                    assert(g3.call_ref(y) == g2.call_ref(y));
                    assert(g3.refers(y, r));
                }
            }
        }
        assert(deps_ordered(g3)) by {
            assert forall|y: int, v: usize| 0 <= y < g3.size() && #[trigger] g3.dependents(y).contains(v) implies y < v by {
                if is_new && y < g2.size() {
                    assert(g3.call_ref(y) == g2.call_ref(y));
                    assert(g3.dependents(y) == g2.dependents(y));
                    assert(g2.dependents(y).contains(v));
                }
            }
        }
        assert forall|j: int| 0 <= j < args@.len() implies refs_before(g3, c, prims(#[trigger] args@[j])) by {
            let ps = prims(args@[j]);
            assert forall|k: int, y: int|
                0 <= k < ps.len() && (#[trigger] ps[k]) is FnCall && #[trigger] g3.refers(y, ps[k]->FnCall_0) implies y < c by {
                let r = ps[k]->FnCall_0;
                if is_new {
                    assert(refs_known(g2, ps));
                    assert(ps[k] matches FnArg::FnCall(r2) ==> exists|y2: int| g2.refers(y2, r2));
                    let y2 = choose|y2: int| g2.refers(y2, r);
                    assert(g3.call_ref(y2) == g2.call_ref(y2));
                    g3.lemma_refers_unique(y, y2, r);
                } else {
                    let qs = prims(g2.call_args(c)[j]);
                    assert(same_expr(g2.call_args(c)[j], args@[j]));
                    lemma_same_expr_prims(g2.call_args(c)[j], args@[j]);
                    assert(same_arg(qs[k], ps[k]));
                    let r2 = qs[k]->FnCall_0;
                    assert(dep_recorded(g2, c, qs[k]));
                    let y2 = choose|y2: int| #![trigger g2.refers(y2, r2)] g2.refers(y2, r2) && g2.dependents(y2).contains(c as usize);
                    assert(g2.refers(y, r2));
                    g2.lemma_refers_unique(y, y2, r2);
                }
            }
        }
    }
    let mut j: usize = 0;
    while j < args.len()
        invariant
            g.wf(),
            g.same_calls(g3),
            g3.wf(),
            g3.extends(g2),
            g3.refers(c, fn_ref),
            0 <= c < g3.size(),
            is_new ==> g3.call_args(c) == args@,
            j <= args@.len(),
            forall|j2: int| 0 <= j2 < args@.len() ==> refs_known(g3, prims(#[trigger] args@[j2])),
            forall|j2: int| 0 <= j2 < args@.len() ==> refs_before(g3, c, prims(#[trigger] args@[j2])),
            deps_ordered(*g),
            forall|x: int, j2: int, k: int|
                0 <= x < g.size() && 0 <= j2 < g.call_args(x).len() && 0 <= k < prims(g.call_args(x)[j2]).len() && (x != c
                    || !is_new) ==> dep_recorded(*g, x, #[trigger] prims(g.call_args(x)[j2])[k]),
            forall|j2: int, k: int|
                0 <= j2 < j && 0 <= k < prims(args@[j2]).len() ==> dep_recorded(*g, c, #[trigger] prims(args@[j2])[k]),
        decreases args.len() - j,
    {
        let ps = args[j].get_all_primitives_rec();
        let mut k: usize = 0;
        while k < ps.len()
            invariant
                g.wf(),
                g.same_calls(g3),
                g3.wf(),
                g3.refers(c, fn_ref),
                0 <= c < g3.size(),
                j < args@.len(),
                ps@ == prims(args@[j as int]),
                k <= ps@.len(),
                refs_known(g3, ps@),
                refs_before(g3, c, ps@),
                deps_ordered(*g),
                forall|x: int, j2: int, k2: int|
                    0 <= x < g.size() && 0 <= j2 < g.call_args(x).len() && 0 <= k2 < prims(g.call_args(x)[j2]).len() && (x
                        != c || !is_new) ==> dep_recorded(*g, x, #[trigger] prims(g.call_args(x)[j2])[k2]),
                forall|j2: int, k2: int|
                    0 <= j2 < j && 0 <= k2 < prims(args@[j2]).len() ==> dep_recorded(*g, c, #[trigger] prims(args@[j2])[k2]),
                forall|k2: int| 0 <= k2 < k ==> dep_recorded(*g, c, #[trigger] ps@[k2]),
            decreases ps.len() - k,
        {
            if let FnArg::FnCall(dep) = &ps[k] {
                let ghost gb = *g;
                proof {
                    assert(gb.call_ref(c) == g3.call_ref(c));
                    lemma_lookup_of(gb, c, fn_ref);
                    assert(ps@[k as int] matches FnArg::FnCall(r) ==> exists|y: int| g3.refers(y, r));
                    let y = choose|y: int| g3.refers(y, *dep);
                    assert(gb.call_ref(y) == g3.call_ref(y));
                    lemma_lookup_of(gb, y, *dep);
                }
                match g.try_add_dep(&fn_ref, dep) {
                    Ok(()) => {},
                    Err(e) => {
                        proof {
                            assert(false);
                        }
                        return Err(e);
                    },
                }
                proof {
                    let y = choose|y: int| g3.refers(y, *dep);
                    assert(gb.lookup(fn_ref) == Ok::<int, RelationGraphError>(c));
                    assert(gb.lookup(*dep) == Ok::<int, RelationGraphError>(y));
                    assert(gb.refers(y, *dep));
                    assert(g.call_ref(y) == gb.call_ref(y));
                    assert(g.refers(y, *dep));
                    if gb.dependents(y).contains(c as usize) {
                        assert(g.same_graph(gb));
                        assert(g.dependents(y) == gb.dependents(y));
                    } else {
                        assert(g.dependents(y) == gb.dependents(y).push(c as usize));
                        assert(g.dependents(y)[gb.dependents(y).len() as int] == c as usize);
                    }
                    assert(g.dependents(y).contains(c as usize));
                    assert(g3.refers(y, *dep));
                    assert(ps@[k as int] is FnCall && g3.refers(y, ps@[k as int]->FnCall_0));
                    assert(y < c);
                    assert forall|y2: int, v: usize| 0 <= y2 < g.size() && #[trigger] g.dependents(y2).contains(v) implies y2 < v by {
                        assert(deps_ordered(gb));
                        if gb.dependents(y).contains(c as usize) || y2 != y {
                            assert(g.dependents(y2) == gb.dependents(y2));
                            assert(gb.dependents(y2).contains(v));
                            assert(y2 < v);
                        } else if v != c as usize {
                            let q = g.dependents(y).index_of(v);
                            assert(g.dependents(y)[q] == v);
                            assert(q < gb.dependents(y).len());
                            assert(gb.dependents(y)[q] == v);
                            assert(gb.dependents(y).contains(v));
                            assert(y2 < v);
                        } else {
                            gb.lemma_size_fits();
                            assert(v as int == c);
                            assert(y2 < v);
                        }
                    }
                    assert forall|y2: int, v: usize| 0 <= y2 < gb.size() && #[trigger] gb.dependents(y2).contains(v) implies g.dependents(
                        y2,
                    ).contains(v) by {
                        if !gb.dependents(y).contains(c as usize) && y2 == y {
                            let q = gb.dependents(y).index_of(v);
                            assert(g.dependents(y)[q] == v);
                        } else {
                            assert(g.dependents(y2) == gb.dependents(y2));
                        }
                    }
                    assert(deps_kept(gb, *g));
                    assert(g.extends(gb));
                    assert forall|x: int, j2: int, k2: int|
                        0 <= x < g.size() && 0 <= j2 < g.call_args(x).len() && 0 <= k2 < prims(g.call_args(x)[j2]).len() && (x
                            != c || !is_new) implies dep_recorded(*g, x, #[trigger] prims(g.call_args(x)[j2])[k2]) by {
                        assert(g.call_ref(x) == gb.call_ref(x));
                        assert(g.call_args(x) == gb.call_args(x));
                        lemma_dep_recorded_kept(gb, *g, x, prims(gb.call_args(x)[j2])[k2]);
                    }
                    assert forall|j2: int, k2: int|
                        0 <= j2 < j && 0 <= k2 < prims(args@[j2]).len() implies dep_recorded(*g, c, #[trigger] prims(args@[j2])[k2]) by {
                        lemma_dep_recorded_kept(gb, *g, c, prims(args@[j2])[k2]);
                    }
                    assert forall|k2: int| 0 <= k2 <= k implies dep_recorded(*g, c, #[trigger] ps@[k2]) by {
                        if k2 < k {
                            lemma_dep_recorded_kept(gb, *g, c, ps@[k2]);
                        }
                    }
                }
            }
            k += 1;
        }
        j += 1;
    }
    proof {
        let g4 = *g;
        lemma_same_calls_extends(g3, g4);
        lemma_extends_trans(g2, g3, g4);
        lemma_extends_trans(g0, g2, g4);
        lemma_flat_expr_extends(g2, g4, *f0.first_arg, args@[0]);
        lemma_flat_list_extends(g2, g4, f0.other_args, args@.skip(1));
        assert(g4.call_ref(c) == g3.call_ref(c));
        assert(g4.call_args(c) == g3.call_args(c));
        assert(g4.refers(c, fn_ref) && same_args(g4.call_args(c), args@));
        assert(g4.call_ref(c).0@ == f0.name@);
        assert(flat_expr(g4, *f0.first_arg, args@[0]));
        assert(flat_list(g4, f0.other_args, args@.skip(1)));
        lemma_flat_call_intro(g4, f0, fn_ref, c, args@);
        assert(flat_arg(g4, ParsedArgType::Function(f0), FnArg::FnCall(fn_ref)));
        assert forall|x: int, j2: int, k: int|
            0 <= x < g4.size() && 0 <= j2 < g4.call_args(x).len() && 0 <= k < prims(g4.call_args(x)[j2]).len() implies dep_recorded(
            g4,
            x,
            #[trigger] prims(g4.call_args(x)[j2])[k],
        ) by {
            if x == c && is_new {
                assert(g4.call_args(x) == args@);
            }
        }
    }
    Ok(fn_ref)
}

/// Flattens the arguments `l` into the graph, appending them to `out`.
fn fill_graph_list(g: &mut RelationGraph, l: ArgList, out: &mut Vec<MathExpression<FnArg>>) -> (r: Result<(), RelationGraphError>)
    requires
        old(g).wf(),
        deps_complete(*old(g)),
        deps_ordered(*old(g)),
    ensures
        final(g).wf(),
        final(g).extends(*old(g)),
        deps_complete(*final(g)),
        deps_ordered(*final(g)),
        match r {
            Ok(()) => {
                &&& list_error(old(g).module_list(), l) is None
                &&& final(out)@.len() >= old(out)@.len()
                &&& final(out)@.take(old(out)@.len() as int) == old(out)@
                &&& flat_list(*final(g), l, final(out)@.skip(old(out)@.len() as int))
            },
            Err(e) => list_error(old(g).module_list(), l) == Some(e),
        },
    decreases l,
{
    let ghost l0 = l;
    let ghost out0 = out@;
    let ghost g0 = *g;
    match l {
        ArgList::End => {
            assert(out@.skip(out0.len() as int) =~= Seq::<MathExpression<FnArg>>::empty());
            assert(out@.take(out0.len() as int) =~= out0);
            Ok(())
        },
        ArgList::Next(e, rest) => {
            let ghost e0 = *e;
            let ghost rest0 = *rest;
            let x = match fill_graph_expr(g, *e) {
                Ok(x) => x,
                Err(err) => return Err(err),
            };
            let ghost g1 = *g;
            out.push(x);
            match fill_graph_list(g, *rest, out) {
                Ok(()) => {},
                Err(err) => {
                    proof {
                        lemma_extends_trans(g0, g1, *g);
                    }
                    return Err(err);
                },
            }
            proof {
                lemma_extends_trans(g0, g1, *g);
                let n = out0.len() as int;
                let o = out@;
                assert(o.take(n + 1) =~= out0.push(x));
                assert(o[n] == o.take(n + 1)[n]);
                assert(o.take(n) =~= out0) by {
                    assert forall|i: int| 0 <= i < n implies o.take(n)[i] == out0[i] by {
                        assert(o.take(n + 1)[i] == o[i]);
                    }
                }
                assert(o.skip(n)[0] == x);
                assert(o.skip(n).skip(1) =~= o.skip(n + 1));
                lemma_flat_expr_extends(g1, *g, e0, x);
            }
            Ok(())
        },
    }
}

/// Flattens the expression `e` into the graph.
fn fill_graph_expr(g: &mut RelationGraph, e: MathExpression<ParsedArgType>) -> (r: Result<MathExpression<FnArg>, RelationGraphError>)
    requires
        old(g).wf(),
        deps_complete(*old(g)),
        deps_ordered(*old(g)),
    ensures
        final(g).wf(),
        final(g).extends(*old(g)),
        deps_complete(*final(g)),
        deps_ordered(*final(g)),
        match r {
            Ok(x) => expr_error(old(g).module_list(), e) is None && flat_expr(*final(g), e, x),
            Err(err) => expr_error(old(g).module_list(), e) == Some(err),
        },
    decreases e,
{
    let ghost g0 = *g;
    let ghost e0 = e;
    match e {
        MathExpression::Primitif(p) => {
            let ghost p0 = p;
            let x = match p {
                ParsedArgType::PrimString(s) => FnArg::Constant(ConstantValue::String(s)),
                ParsedArgType::PrimNumeric(n) => FnArg::Constant(ConstantValue::Numeric(n)),
                ParsedArgType::Dataset => FnArg::Dataset,
                ParsedArgType::Function(f) => match fill_graph_call(g, f) {
                    Ok(fr) => FnArg::FnCall(fr),
                    Err(err) => return Err(err),
                },
            };
            proof {
                assert(flat_arg(*g, p0, x));
                assert(flat_expr(*g, MathExpression::Primitif(p0), MathExpression::Primitif(x)));
                assert(arg_error(g0.module_list(), p0) is None);
                assert(expr_error(g0.module_list(), e0) is None);
            }
            Ok(MathExpression::Primitif(x))
        },
        MathExpression::Negation(a) => match fill_graph_expr(g, *a) {
            Ok(x) => {
                let y = MathExpression::negation(x);
                proof {
                    assert(flat_expr(*g, e0, y));
                    assert(expr_error(g0.module_list(), e0) is None);
                }
                Ok(y)
            },
            Err(err) => Err(err),
        },
        MathExpression::Floor(a) => match fill_graph_expr(g, *a) {
            Ok(x) => {
                let y = MathExpression::floor(x);
                proof {
                    assert(flat_expr(*g, e0, y));
                    assert(expr_error(g0.module_list(), e0) is None);
                }
                Ok(y)
            },
            Err(err) => Err(err),
        },
        MathExpression::Ceil(a) => match fill_graph_expr(g, *a) {
            Ok(x) => {
                let y = MathExpression::ceil(x);
                proof {
                    assert(flat_expr(*g, e0, y));
                    assert(expr_error(g0.module_list(), e0) is None);
                }
                Ok(y)
            },
            Err(err) => Err(err),
        },
        MathExpression::Abs(a) => match fill_graph_expr(g, *a) {
            Ok(x) => {
                let y = MathExpression::abs(x);
                proof {
                    assert(flat_expr(*g, e0, y));
                    assert(expr_error(g0.module_list(), e0) is None);
                }
                Ok(y)
            },
            Err(err) => Err(err),
        },
        MathExpression::Sqrt(a) => match fill_graph_expr(g, *a) {
            Ok(x) => {
                let y = MathExpression::sqrt(x);
                proof {
                    assert(flat_expr(*g, e0, y));
                    assert(expr_error(g0.module_list(), e0) is None);
                }
                Ok(y)
            },
            Err(err) => Err(err),
        },
        MathExpression::BinOperation { left, op, right } => {
            let ghost l0 = *left;
            let l = match fill_graph_expr(g, *left) {
                Ok(x) => x,
                Err(err) => return Err(err),
            };
            let ghost g1 = *g;
            let r = match fill_graph_expr(g, *right) {
                Ok(x) => x,
                Err(err) => {
                    proof {
                        lemma_extends_trans(g0, g1, *g);
                    }
                    return Err(err);
                },
            };
            proof {
                lemma_extends_trans(g0, g1, *g);
                lemma_flat_expr_extends(g1, *g, l0, l);
            }
            let y = MathExpression::bin_operation(l, op, r);
            proof {
                assert(flat_expr(*g, e0, y));
                assert(expr_error(g0.module_list(), e0) is None);
            }
            Ok(y)
        },
    }
}

/// Two lists of arguments each equal to itself.
proof fn lemma_same_args_refl(a: Seq<MathExpression<FnArg>>)
    ensures
        same_args(a, a),
{
    assert forall|i: int| 0 <= i < a.len() implies same_expr(#[trigger] a[i], a[i]) by {
        lemma_same_expr_refl(a[i]);
    }
}

/// Flattens the comparison `c` into the graph.
fn fill_graph_comp(g: &mut RelationGraph, c: Comparison<ParsedArgType>) -> (res: Result<Comparison<FnArg>, RelationGraphError>)
    requires
        old(g).wf(),
        deps_complete(*old(g)),
        deps_ordered(*old(g)),
    ensures
        final(g).wf(),
        final(g).extends(*old(g)),
        deps_complete(*final(g)),
        deps_ordered(*final(g)),
        match res {
            Ok(x) => comparison_error(old(g).module_list(), c) is None && flat_comparison(*final(g), c, x),
            Err(err) => comparison_error(old(g).module_list(), c) == Some(err),
        },
{
    let ghost g0 = *g;
    match c {
        Comparison::Greater(l, r) => {
            let ghost l0 = l;
            let ghost r0 = r;
            let a = match fill_graph_expr(g, l) {
                Ok(x) => x,
                Err(err) => return Err(err),
            };
            let ghost g1 = *g;
            let b = match fill_graph_expr(g, r) {
                Ok(x) => x,
                Err(err) => {
                    proof {
                        lemma_extends_trans(g0, g1, *g);
                    }
                    return Err(err);
                },
            };
            proof {
                lemma_extends_trans(g0, g1, *g);
                lemma_flat_expr_extends(g1, *g, l0, a);
            }
            Ok(Comparison::Greater(a, b))
        },
        Comparison::GreaterEqual(l, r, e) => {
            let ghost l0 = l;
            let ghost r0 = r;
            let a = match fill_graph_expr(g, l) {
                Ok(x) => x,
                Err(err) => return Err(err),
            };
            let ghost g1 = *g;
            let b = match fill_graph_expr(g, r) {
                Ok(x) => x,
                Err(err) => {
                    proof {
                        lemma_extends_trans(g0, g1, *g);
                    }
                    return Err(err);
                },
            };
            proof {
                lemma_extends_trans(g0, g1, *g);
                lemma_flat_expr_extends(g1, *g, l0, a);
            }
            Ok(Comparison::GreaterEqual(a, b, e))
        },
        Comparison::Less(l, r) => {
            let ghost l0 = l;
            let ghost r0 = r;
            let a = match fill_graph_expr(g, l) {
                Ok(x) => x,
                Err(err) => return Err(err),
            };
            let ghost g1 = *g;
            let b = match fill_graph_expr(g, r) {
                Ok(x) => x,
                Err(err) => {
                    proof {
                        lemma_extends_trans(g0, g1, *g);
                    }
                    return Err(err);
                },
            };
            proof {
                lemma_extends_trans(g0, g1, *g);
                lemma_flat_expr_extends(g1, *g, l0, a);
            }
            Ok(Comparison::Less(a, b))
        },
        Comparison::LessEqual(l, r, e) => {
            let ghost l0 = l;
            let ghost r0 = r;
            let a = match fill_graph_expr(g, l) {
                Ok(x) => x,
                Err(err) => return Err(err),
            };
            let ghost g1 = *g;
            let b = match fill_graph_expr(g, r) {
                Ok(x) => x,
                Err(err) => {
                    proof {
                        lemma_extends_trans(g0, g1, *g);
                    }
                    return Err(err);
                },
            };
            proof {
                lemma_extends_trans(g0, g1, *g);
                lemma_flat_expr_extends(g1, *g, l0, a);
            }
            Ok(Comparison::LessEqual(a, b, e))
        },
        Comparison::Equal(l, r, e) => {
            let ghost l0 = l;
            let ghost r0 = r;
            let a = match fill_graph_expr(g, l) {
                Ok(x) => x,
                Err(err) => return Err(err),
            };
            let ghost g1 = *g;
            let b = match fill_graph_expr(g, r) {
                Ok(x) => x,
                Err(err) => {
                    proof {
                        lemma_extends_trans(g0, g1, *g);
                    }
                    return Err(err);
                },
            };
            proof {
                lemma_extends_trans(g0, g1, *g);
                lemma_flat_expr_extends(g1, *g, l0, a);
            }
            Ok(Comparison::Equal(a, b, e))
        },
        Comparison::NotEqual(l, r, e) => {
            let ghost l0 = l;
            let ghost r0 = r;
            let a = match fill_graph_expr(g, l) {
                Ok(x) => x,
                Err(err) => return Err(err),
            };
            let ghost g1 = *g;
            let b = match fill_graph_expr(g, r) {
                Ok(x) => x,
                Err(err) => {
                    proof {
                        lemma_extends_trans(g0, g1, *g);
                    }
                    return Err(err);
                },
            };
            proof {
                lemma_extends_trans(g0, g1, *g);
                lemma_flat_expr_extends(g1, *g, l0, a);
            }
            Ok(Comparison::NotEqual(a, b, e))
        },
    }
}

/// Flattens the condition `c` into the graph: each function call becomes a
/// call of the graph, recorded as relying on the calls among its arguments.
pub fn fill_graph_cond(g: &mut RelationGraph, c: Condition<ParsedArgType>) -> (res: Result<Condition<FnArg>, RelationGraphError>)
    requires
        old(g).wf(),
        deps_complete(*old(g)),
        deps_ordered(*old(g)),
    ensures
        final(g).wf(),
        final(g).extends(*old(g)),
        deps_complete(*final(g)),
        deps_ordered(*final(g)),
        match res {
            Ok(x) => condition_error(old(g).module_list(), c) is None && flat_condition(*final(g), c, x),
            Err(err) => condition_error(old(g).module_list(), c) == Some(err),
        },
    decreases c,
{
    let ghost g0 = *g;
    match c {
        Condition::Comparison(a) => match fill_graph_comp(g, a) {
            Ok(x) => Ok(Condition::Comparison(x)),
            Err(err) => Err(err),
        },
        Condition::Not(a) => match fill_graph_cond(g, *a) {
            Ok(x) => Ok(Condition::not(x)),
            Err(err) => Err(err),
        },
        Condition::Or(a, b) => {
            let ghost a0 = *a;
            let x = match fill_graph_cond(g, *a) {
                Ok(x) => x,
                Err(err) => return Err(err),
            };
            let ghost g1 = *g;
            let y = match fill_graph_cond(g, *b) {
                Ok(y) => y,
                Err(err) => {
                    proof {
                        lemma_extends_trans(g0, g1, *g);
                    }
                    return Err(err);
                },
            };
            proof {
                lemma_extends_trans(g0, g1, *g);
                lemma_flat_condition_extends(g1, *g, a0, x);
            }
            Ok(Condition::or(x, y))
        },
        Condition::And(a, b) => {
            let ghost a0 = *a;
            let x = match fill_graph_cond(g, *a) {
                Ok(x) => x,
                Err(err) => return Err(err),
            };
            let ghost g1 = *g;
            let y = match fill_graph_cond(g, *b) {
                Ok(y) => y,
                Err(err) => {
                    proof {
                        lemma_extends_trans(g0, g1, *g);
                    }
                    return Err(err);
                },
            };
            proof {
                lemma_extends_trans(g0, g1, *g);
                lemma_flat_condition_extends(g1, *g, a0, x);
            }
            Ok(Condition::and(x, y))
        },
    }
}

// ______________________________ the joins of the computed calls

/// The call of index `y` is among the arguments of the call of index `x`.
pub open spec fn direct_dep(g: RelationGraph, x: int, y: int) -> bool {
    exists|j: int, k: int|
        0 <= j < g.call_args(x).len() && 0 <= k < prims(g.call_args(x)[j]).len() && (#[trigger] prims(g.call_args(x)[j])[k] matches FnArg::FnCall(r) && g.refers(y, r))
}

/// `l` holds no call twice, and each call of `l` comes after the calls it needs.
pub open spec fn closed_in(g: RelationGraph, l: Seq<usize>) -> bool {
    &&& l.no_duplicates()
    &&& forall|p: int, y: int|
        0 <= p < l.len() && #[trigger] direct_dep(g, l[p] as int, y) ==> exists|p2: int| 0 <= p2 < p && l[p2] as int == y
}

/// `l` lists the calls that the call `x` needs, directly or not, each once,
/// each after the calls it needs.
pub open spec fn needs_list(g: RelationGraph, x: int, l: Seq<usize>) -> bool {
    &&& closed_in(g, l)
    &&& forall|y: int| #[trigger] direct_dep(g, x, y) ==> l.contains(y as usize)
    &&& forall|p: int|
        0 <= p < l.len() ==> direct_dep(g, x, #[trigger] l[p] as int) || exists|w: int|
            0 <= w < l.len() && direct_dep(g, l[w] as int, l[p] as int)
}

/// The name under which the result of the call `r` joins a query: its function's name and its number.
pub open spec fn call_label(r: FnRef) -> Seq<char> {
    r.0@ + dec(r.1 as nat)
}

/// `j` joins the table of the function of the call `x` under the call's
/// label, on each parameter of the function being the call's argument.
pub open spec fn join_of_call(g: RelationGraph, x: int, j: JoinModel) -> bool {
    let r = g.call_ref(x);
    let params = g.module_list()[module_index(g.module_list(), r.0@)].args@;
    let args = g.call_args(x);
    &&& j.table_name == r.0@
    &&& j.alias_name == call_label(r)
    &&& j.on_cond.len() == args.len()
    &&& forall|i: int|
        0 <= i < args.len() ==> (#[trigger] j.on_cond[i] matches Comparison::Equal(a, b, e) && is_ident(
            a,
            call_label(r) + "."@ + params[i].name@,
        ) && b == args[i] && e is None)
}

/// The join of a computed call, and the calls whose joins must come before it.
pub struct JoinInfo {
    pub join: SqlJoin,
    pub deps: Vec<usize>,
}

#[verifier::external_type_specification]
#[verifier::external_body]
#[verifier::reject_recursive_types(K)]
#[verifier::reject_recursive_types(V)]
#[verifier::reject_recursive_types(S)]
pub struct ExIndexMap<K, V, S>(IndexMap<K, V, S>);

/// The entries of a map of joins, keyed by the index of their call, in the order of insertion.
pub uninterp spec fn join_entries(m: IndexMap<usize, JoinInfo>) -> Seq<(usize, JoinInfo)>;

/// Whether one of the entries `es` has the key `k`.
pub open spec fn has_key(es: Seq<(usize, JoinInfo)>, k: usize) -> bool {
    exists|i: int| 0 <= i < es.len() && es[i].0 == k
}

/// The position of the entry of key `k`.
pub open spec fn key_index(es: Seq<(usize, JoinInfo)>, k: usize) -> int {
    choose|i: int| 0 <= i < es.len() && es[i].0 == k
}

/// `IndexMap::new`: a map with no entry.
#[verifier::external_body]
fn new_join_map() -> (r: IndexMap<usize, JoinInfo>)
    ensures
        join_entries(r) == Seq::<(usize, JoinInfo)>::empty(),
{
    IndexMap::new()
}

/// `IndexMap::insert`: with a new key, the entry goes last; with a key that is
/// there, that entry's value is replaced in place and the old value given back.
#[verifier::external_body]
fn join_map_insert(m: &mut IndexMap<usize, JoinInfo>, key: usize, value: JoinInfo) -> (r: Option<JoinInfo>)
    ensures
        if has_key(join_entries(*old(m)), key) {
            let i = key_index(join_entries(*old(m)), key);
            &&& join_entries(*final(m)) == join_entries(*old(m)).update(i, (key, value))
            &&& r == Some(join_entries(*old(m))[i].1)
        } else {
            &&& join_entries(*final(m)) == join_entries(*old(m)).push((key, value))
            &&& r is None
        },
{
    m.insert(key, value)
}

/// `IndexMap::get_full`: the position and the value of the entry of key `key`, if there is one.
#[verifier::external_body]
fn join_map_get(m: &IndexMap<usize, JoinInfo>, key: usize) -> (r: Option<(usize, &JoinInfo)>)
    ensures
        match r {
            Some((i, v)) => i < join_entries(*m).len() && join_entries(*m)[i as int] == (key, *v),
            None => !has_key(join_entries(*m), key),
        },
{
    match m.get_full(&key) {
        Some((i, _, v)) => Some((i, v)),
        None => None,
    }
}

/// `IndexMap::into_iter`: the entries of the map, in order.
#[verifier::external_body]
fn join_map_into_entries(m: IndexMap<usize, JoinInfo>) -> (r: Vec<(usize, JoinInfo)>)
    ensures
        r@ == join_entries(m),
{
    m.into_iter().collect()
}

/// The calls that the entry of key `k` needs.
pub open spec fn deps_of(es: Seq<(usize, JoinInfo)>, k: usize) -> Seq<usize> {
    es[key_index(es, k)].1.deps@
}

/// The entries of the map of joins, for the calls of `g` computed so far: one
/// entry per call, the calls each entry needs listed in entries before it.
pub open spec fn entries_ok(g: RelationGraph, es: Seq<(usize, JoinInfo)>) -> bool {
    &&& forall|i: int, j: int| 0 <= i < j < es.len() ==> #[trigger] es[i].0 != #[trigger] es[j].0
    &&& forall|i: int| 0 <= i < es.len() ==> (#[trigger] es[i]).0 < g.size()
    &&& forall|i: int| 0 <= i < es.len() ==> needs_list(g, (#[trigger] es[i]).0 as int, es[i].1.deps@)
    &&& forall|i: int| 0 <= i < es.len() ==> join_of_call(g, (#[trigger] es[i]).0 as int, join_model(es[i].1.join))
    &&& forall|i: int, q: int| 0 <= i < es.len() && 0 <= q < es[i].1.deps@.len() ==> earlier_key(es, i, #[trigger] es[i].1.deps@[q])
}

/// One of the first `i` entries has the key `k`.
pub open spec fn earlier_key(es: Seq<(usize, JoinInfo)>, i: int, k: usize) -> bool {
    exists|i2: int| 0 <= i2 < i && es[i2].0 == k
}

/// The joins `js` are those of the entries of the calls `l`, in order.
pub open spec fn joins_of(es: Seq<(usize, JoinInfo)>, l: Seq<usize>, js: Seq<SqlJoin>) -> bool {
    &&& js.len() == l.len()
    &&& forall|p: int| 0 <= p < l.len() ==> join_model(#[trigger] js[p]) == join_model(es[key_index(es, l[p])].1.join)
}

/// With distinct keys, the position of a key is that of any entry holding it.
proof fn lemma_key_index(es: Seq<(usize, JoinInfo)>, i: int)
    requires
        forall|a: int, b: int| 0 <= a < b < es.len() ==> #[trigger] es[a].0 != #[trigger] es[b].0,
        0 <= i < es.len(),
    ensures
        has_key(es, es[i].0),
        key_index(es, es[i].0) == i,
{
    let k = key_index(es, es[i].0);
    if k != i {
        if k < i {
            assert(es[k].0 != es[i].0);
        } else {
            assert(es[i].0 != es[k].0);
        }
    }
}

/// Adds to `added` the call `to_add` and the calls it needs, that are not
/// there yet, each after the calls it needs, and their joins to `res`.
fn add_rec_needed_joins(
    Ghost(g): Ghost<RelationGraph>,
    to_add: usize,
    res: &mut Vec<SqlJoin>,
    added: &mut Vec<usize>,
    join_dep_map: &IndexMap<usize, JoinInfo>,
)
    requires
        entries_ok(g, join_entries(*join_dep_map)),
        has_key(join_entries(*join_dep_map), to_add),
        closed_in(g, old(added)@),
        forall|p: int| 0 <= p < old(added)@.len() ==> has_key(join_entries(*join_dep_map), #[trigger] old(added)@[p]),
        joins_of(join_entries(*join_dep_map), old(added)@, old(res)@),
    ensures
        closed_in(g, final(added)@),
        forall|p: int| 0 <= p < final(added)@.len() ==> has_key(join_entries(*join_dep_map), #[trigger] final(added)@[p]),
        joins_of(join_entries(*join_dep_map), final(added)@, final(res)@),
        final(added)@.len() >= old(added)@.len(),
        final(added)@.take(old(added)@.len() as int) == old(added)@,
        forall|v: usize|
            #[trigger] final(added)@.contains(v) <==> (old(added)@.contains(v) || v == to_add || deps_of(
                join_entries(*join_dep_map),
                to_add,
            ).contains(v)),
    decreases key_index(join_entries(*join_dep_map), to_add),
{
    let ghost es = join_entries(*join_dep_map);
    if vec_has(added, to_add) {
        proof {
            let i = key_index(es, to_add);
            lemma_key_index(es, i);
            assert(needs_list(g, es[i].0 as int, es[i].1.deps@));
            lemma_needs_in_closed(g, to_add, deps_of(es, to_add), added@, 0);
            assert forall|v: usize| deps_of(es, to_add).contains(v) implies added@.contains(v) by {
                let q = deps_of(es, to_add).index_of(v);
            }
            assert(added@.take(added@.len() as int) =~= added@);
        }
        return;
    }
    let (i, info) = match join_map_get(join_dep_map, to_add) {
        Some(x) => x,
        None => {
            proof {
                assert(false);
            }
            return;
        },
    };
    proof {
        lemma_key_index(es, i as int);
    }
    let ghost added0 = added@;
    let ghost res0 = res@;
    let mut q: usize = 0;
    while q < info.deps.len()
        invariant
            entries_ok(g, es),
            es == join_entries(*join_dep_map),
            0 <= i < es.len(),
            es[i as int] == (to_add, *info),
            key_index(es, to_add) == i,
            !added0.contains(to_add),
            q <= info.deps@.len(),
            closed_in(g, added@),
            forall|p: int| 0 <= p < added@.len() ==> has_key(es, #[trigger] added@[p]),
            joins_of(es, added@, res@),
            added@.len() >= added0.len(),
            added@.take(added0.len() as int) == added0,
            forall|v: usize| #[trigger] added@.contains(v) ==> added0.contains(v) || key_index(es, v) < i,
            forall|v: usize|
                #[trigger] added@.contains(v) <==> (added0.contains(v) || exists|q2: int|
                    0 <= q2 < q && (v == info.deps@[q2] || deps_of(es, info.deps@[q2]).contains(v))),
        decreases info.deps.len() - q,
    {
        let d = info.deps[q];
        proof {
            assert(earlier_key(es, i as int, es[i as int].1.deps@[q as int]));
            let i2 = choose|i2: int| 0 <= i2 < i && es[i2].0 == es[i as int].1.deps@[q as int];
            lemma_key_index(es, i2);
        }
        let ghost prev = added@;
        add_rec_needed_joins(Ghost(g), d, res, added, join_dep_map);
        proof {
            let i2 = choose|i2: int| 0 <= i2 < i && es[i2].0 == es[i as int].1.deps@[q as int];
            assert(key_index(es, d) == i2);
            assert(added@.take(added0.len() as int) =~= added0) by {
                assert forall|k: int| 0 <= k < added0.len() implies added@.take(added0.len() as int)[k] == added0[k] by {
                    assert(added@.take(prev.len() as int)[k] == prev[k]);
                    assert(prev.take(added0.len() as int)[k] == added0[k]);
                }
            }
            assert forall|v: usize| #[trigger] added@.contains(v) implies added0.contains(v) || key_index(es, v) < i by {
                if !prev.contains(v) && v != d {
                    assert(deps_of(es, d).contains(v));
                    let q3 = deps_of(es, d).index_of(v);
                    assert(earlier_key(es, i2, es[i2].1.deps@[q3]));
                    let i3 = choose|i3: int| 0 <= i3 < i2 && es[i3].0 == es[i2].1.deps@[q3];
                    lemma_key_index(es, i3);
                }
            }
            assert forall|v: usize|
                #[trigger] added@.contains(v) <==> (added0.contains(v) || exists|q2: int|
                    0 <= q2 < q + 1 && (v == info.deps@[q2] || deps_of(es, info.deps@[q2]).contains(v))) by {
                if added@.contains(v) && !added0.contains(v) && !prev.contains(v) {
                    assert(v == info.deps@[q as int] || deps_of(es, info.deps@[q as int]).contains(v));
                }
                if exists|q2: int| 0 <= q2 < q + 1 && (v == info.deps@[q2] || deps_of(es, info.deps@[q2]).contains(v)) {
                    let q2 = choose|q2: int| 0 <= q2 < q + 1 && (v == info.deps@[q2] || deps_of(es, info.deps@[q2]).contains(v));
                    if q2 < q {
                        assert(prev.contains(v));
                    }
                }
            }
        }
        q += 1;
    }
    let ghost before = added@;
    proof {
        assert(needs_list(g, es[i as int].0 as int, es[i as int].1.deps@));
        assert(!before.contains(to_add));
        assert forall|v: usize| #[trigger] deps_of(es, to_add).contains(v) implies before.contains(v) by {
            let q2 = deps_of(es, to_add).index_of(v);
        }
        assert forall|d: usize, v: usize| #[trigger] deps_of(es, to_add).contains(d) && #[trigger] deps_of(es, d).contains(v)
            implies deps_of(es, to_add).contains(v) by {
            let qd = deps_of(es, to_add).index_of(d);
            assert(earlier_key(es, i as int, es[i as int].1.deps@[qd]));
            let id = choose|i2: int| 0 <= i2 < i && es[i2].0 == es[i as int].1.deps@[qd];
            lemma_key_index(es, id);
            assert(needs_list(g, es[id].0 as int, es[id].1.deps@));
            lemma_needs_in_closed(g, d, deps_of(es, d), deps_of(es, to_add), 0);
            let qv = deps_of(es, d).index_of(v);
        }
    }
    res.push(info.join.copy());
    added.push(to_add);
    proof {
        let a = added@;
        let n = before.len() as int;
        assert(a == before.push(to_add));
        assert(a.take(added0.len() as int) =~= added0) by {
            assert forall|k: int| 0 <= k < added0.len() implies a.take(added0.len() as int)[k] == added0[k] by {
                assert(before.take(added0.len() as int)[k] == added0[k]);
            }
        }
        assert(a.no_duplicates()) by {
            assert forall|x: int, y: int| 0 <= x < y < a.len() implies a[x] != a[y] by {
                if y == n {
                    assert(before.contains(a[x]));
                }
            }
        }
        assert forall|p: int, y: int| 0 <= p < a.len() && #[trigger] direct_dep(g, a[p] as int, y) implies exists|p2: int|
            0 <= p2 < p && a[p2] as int == y by {
            if p == n {
                g.lemma_size_fits();
                assert(deps_of(es, to_add).contains(y as usize));
                let p2 = before.index_of(y as usize);
                assert(a[p2] == before[p2]);
            } else {
                assert(a[p] == before[p]);
                let p2 = choose|p2: int| 0 <= p2 < p && before[p2] as int == y;
                assert(a[p2] == before[p2]);
            }
        }
        assert forall|v: usize| #[trigger] a.contains(v) <==> (added0.contains(v) || v == to_add || deps_of(es, to_add).contains(v)) by {
            if a.contains(v) && v != to_add {
                let pv = a.index_of(v);
                assert(before.contains(v));
            }
            if before.contains(v) {
                let pv = before.index_of(v);
                assert(a[pv] == v);
            }
            if v == to_add {
                assert(a[n] == v);
            }
            if deps_of(es, to_add).contains(v) {
                assert(before.contains(v));
                let pv = before.index_of(v);
                assert(a[pv] == v);
            }
        }
    }
}

/// Every call that `x` needs is in a list closed under needs that holds `x`.
proof fn lemma_needs_in_closed(g: RelationGraph, x: usize, l: Seq<usize>, added: Seq<usize>, p: int)
    requires
        needs_list(g, x as int, l),
        closed_in(g, added),
        added.contains(x),
        0 <= p <= l.len(),
    ensures
        forall|k: int| p <= k < l.len() ==> added.contains(#[trigger] l[k]),
    decreases l.len() - p,
{
    if p < l.len() {
        lemma_needs_in_closed(g, x, l, added, p + 1);
        let v = l[p];
        if direct_dep(g, x as int, v as int) {
            let px = added.index_of(x);
            assert(direct_dep(g, added[px] as int, v as int));
            let p2 = choose|p2: int| 0 <= p2 < px && added[p2] as int == v as int;
            assert(added[p2] == v);
        } else {
            let w = choose|w: int| 0 <= w < l.len() && direct_dep(g, l[w] as int, l[p] as int);
            let p2 = choose|p2: int| 0 <= p2 < w && l[p2] as int == l[p] as int;
            assert(p2 == p);
            assert(added.contains(l[w]));
            let pw = added.index_of(l[w]);
            assert(direct_dep(g, added[pw] as int, v as int));
            let p3 = choose|p3: int| 0 <= p3 < pw && added[p3] as int == v as int;
            assert(added[p3] == v);
        }
    }
}

/// Whether `v` holds `x`.
fn vec_has(v: &Vec<usize>, x: usize) -> (r: bool)
    ensures
        r == v@.contains(x),
{
    let mut i: usize = 0;
    while i < v.len()
        invariant
            i <= v@.len(),
            forall|k: int| 0 <= k < i ==> v@[k] != x,
        decreases v.len() - i,
    {
        if v[i] == x {
            assert(v@[i as int] == x);
            return true;
        }
        i += 1;
    }
    false
}

/// The join of the call `f` of the module `module` on the arguments `args`:
/// the module's table, renamed with the call's label, on each parameter being
/// its argument.
fn call_join(f: &FnRef, module: &Module, args: &Vec<MathExpression<FnArg>>) -> (r: SqlJoin)
    requires
        module.args@.len() == args@.len(),
    ensures
        join_model(r).table_name == f.0@,
        join_model(r).alias_name == call_label(*f),
        join_model(r).on_cond.len() == args@.len(),
        forall|i: int|
            0 <= i < args@.len() ==> (#[trigger] join_model(r).on_cond[i] matches Comparison::Equal(a, b, e) && is_ident(
                a,
                call_label(*f) + "."@ + module.args@[i].name@,
            ) && b == args@[i] && e is None),
{
    let number = usize_to_string(f.1);
    let label = concat(f.0.as_str(), number.as_str());
    let prefix = concat(label.as_str(), ".");
    let mut conds: Vec<Comparison<FnArg>> = Vec::new();
    let mut i: usize = 0;
    while i < args.len()
        invariant
            module.args@.len() == args@.len(),
            prefix@ == call_label(*f) + "."@,
            i <= args@.len(),
            conds@.len() == i,
            forall|k: int|
                0 <= k < i ==> (#[trigger] conds@[k] matches Comparison::Equal(a, b, e) && is_ident(
                    a,
                    call_label(*f) + "."@ + module.args@[k].name@,
                ) && b == args@[k] && e is None),
        decreases args.len() - i,
    {
        let column = concat(prefix.as_str(), module.args[i].name.as_str());
        conds.push(
            Comparison::Equal(
                MathExpression::Primitif(FnArg::Constant(ConstantValue::Identifier(column))),
                args[i].deep_copy(),
                None,
            ),
        );
        i += 1;
    }
    SqlJoin::new(f.0.clone(), label, conds)
}

/// The call of index `y` is the call that the primitive value `(j, k)` of the
/// arguments of the call `x` refers to.
pub open spec fn prim_call(g: RelationGraph, x: int, j: int, k: int, y: int) -> bool {
    0 <= j < g.call_args(x).len() && 0 <= k < prims(g.call_args(x)[j]).len() && (prims(g.call_args(x)[j])[k] matches FnArg::FnCall(
        r,
    ) && g.refers(y, r))
}


/// The calls gathered for the arguments of `x`, with the calls they need, are a list of what `x` needs.
proof fn lemma_needed_list(g: RelationGraph, x: usize, es: Seq<(usize, JoinInfo)>, added: Seq<usize>, j: int)
    requires
        g.wf(),
        x < g.size(),
        j == g.call_args(x as int).len(),
        entries_ok(g, es),
        closed_in(g, added),
        forall|p: int| 0 <= p < added.len() ==> has_key(es, #[trigger] added[p]),
        forall|j2: int, k2: int, y: int| j2 < j && #[trigger] prim_call(g, x as int, j2, k2, y) ==> covers(es, added, y as usize),
        forall|v: usize|
            #[trigger] added.contains(v) ==> exists|j2: int, k2: int, y: int|
                j2 < j && prim_call(g, x as int, j2, k2, y) && (v as int == y || deps_of(es, y as usize).contains(v)),
    ensures
        needs_list(g, x as int, added),
{
    let l = added;
    g.lemma_size_fits();
    assert forall|y: int| #[trigger] direct_dep(g, x as int, y) implies l.contains(y as usize) by {
        let (j2, k2) = choose|j2: int, k2: int|
            0 <= j2 < g.call_args(x as int).len() && 0 <= k2 < prims(g.call_args(x as int)[j2]).len() && (#[trigger] prims(
                g.call_args(x as int)[j2],
            )[k2] matches FnArg::FnCall(r) && g.refers(y, r));
        assert(prim_call(g, x as int, j2, k2, y));
    }
    assert forall|p: int| 0 <= p < l.len() implies direct_dep(g, x as int, #[trigger] l[p] as int) || exists|w: int|
        0 <= w < l.len() && direct_dep(g, l[w] as int, l[p] as int) by {
        lemma_needed_elem(g, x, es, added, j, p);
    }
}

/// Each call gathered for the arguments of `x` is one of them, or is needed by a gathered call.
#[verifier::rlimit(40)]
proof fn lemma_needed_elem(g: RelationGraph, x: usize, es: Seq<(usize, JoinInfo)>, added: Seq<usize>, j: int, p: int)
    requires
        g.wf(),
        g.size() <= usize::MAX,
        x < g.size(),
        entries_ok(g, es),
        0 <= p < added.len(),
        forall|q: int| 0 <= q < added.len() ==> has_key(es, #[trigger] added[q]),
        forall|j2: int, k2: int, y: int| j2 < j && #[trigger] prim_call(g, x as int, j2, k2, y) ==> covers(es, added, y as usize),
        forall|v: usize|
            #[trigger] added.contains(v) ==> exists|j2: int, k2: int, y: int|
                j2 < j && prim_call(g, x as int, j2, k2, y) && (v as int == y || deps_of(es, y as usize).contains(v)),
    ensures
        direct_dep(g, x as int, added[p] as int) || exists|w: int|
            0 <= w < added.len() && direct_dep(g, added[w] as int, added[p] as int),
{
    let l = added;
    let v = l[p];
    assert(l.contains(v));
    let (j2, k2, y) = choose|j2: int, k2: int, y: int|
        j2 < j && prim_call(g, x as int, j2, k2, y) && (v as int == y || deps_of(es, y as usize).contains(v));
    assert(direct_dep(g, x as int, y));
    if v as int != y {
        assert(covers(es, l, y as usize));
        let wy = l.index_of(y as usize);
        assert(has_key(es, l[wy]));
        let iy = key_index(es, y as usize);
        assert(needs_list(g, es[iy].0 as int, es[iy].1.deps@));
        let dl = deps_of(es, y as usize);
        let q = dl.index_of(v);
        if direct_dep(g, y, v as int) {
            assert(direct_dep(g, l[wy] as int, l[p] as int));
        } else {
            let w0 = choose|w: int| 0 <= w < dl.len() && direct_dep(g, dl[w] as int, dl[q] as int);
            assert(dl.contains(dl[w0]));
            assert(l.contains(dl[w0]));
            let w = l.index_of(dl[w0]);
            assert(direct_dep(g, l[w] as int, l[p] as int));
        }
    }
}

/// `added` holds the call `y` and the calls it needs.
pub open spec fn covers(es: Seq<(usize, JoinInfo)>, added: Seq<usize>, y: usize) -> bool {
    &&& added.contains(y)
    &&& forall|v: usize| #[trigger] deps_of(es, y).contains(v) ==> added.contains(v)
}

/// The joins that the call `x` needs, each after the joins it needs, and the
/// calls they belong to.
#[verifier::rlimit(40)]
fn needed_joins(
    Ghost(g): Ghost<RelationGraph>,
    gr: &RelationGraph,
    x: usize,
    args: &Vec<MathExpression<FnArg>>,
    join_dep_map: &IndexMap<usize, JoinInfo>,
) -> (r: (Vec<SqlJoin>, Vec<usize>))
    requires
        g.wf(),
        deps_complete(g),
        gr.wf(),
        gr.same_calls(g),
        x < g.size(),
        args@ == g.call_args(x as int),
        entries_ok(g, join_entries(*join_dep_map)),
        forall|y: int| #[trigger] direct_dep(g, x as int, y) ==> has_key(join_entries(*join_dep_map), y as usize),
    ensures
        needs_list(g, x as int, r.1@),
        joins_of(join_entries(*join_dep_map), r.1@, r.0@),
        forall|p: int| 0 <= p < r.1@.len() ==> has_key(join_entries(*join_dep_map), #[trigger] r.1@[p]),
{
    let ghost es = join_entries(*join_dep_map);
    let mut needed: Vec<SqlJoin> = Vec::new();
    let mut added: Vec<usize> = Vec::new();
    let mut j: usize = 0;
    proof {
        g.lemma_size_fits();
    }
    while j < args.len()
        invariant
            g.wf(),
            deps_complete(g),
            gr.wf(),
            gr.same_calls(g),
            x < g.size(),
            g.size() <= usize::MAX,
            args@ == g.call_args(x as int),
            entries_ok(g, es),
            es == join_entries(*join_dep_map),
            forall|y: int| #[trigger] direct_dep(g, x as int, y) ==> has_key(es, y as usize),
            j <= args@.len(),
            closed_in(g, added@),
            forall|p: int| 0 <= p < added@.len() ==> has_key(es, #[trigger] added@[p]),
            joins_of(es, added@, needed@),
            forall|j2: int, k2: int, y: int| j2 < j && #[trigger] prim_call(g, x as int, j2, k2, y) ==> covers(es, added@, y as usize),
            forall|v: usize|
                #[trigger] added@.contains(v) ==> exists|j2: int, k2: int, y: int|
                    j2 < j && prim_call(g, x as int, j2, k2, y) && (v as int == y || deps_of(es, y as usize).contains(v)),
        decreases args.len() - j,
    {
        let ps = args[j].get_all_primitives_rec();
        let mut k: usize = 0;
        while k < ps.len()
            invariant
                g.wf(),
                deps_complete(g),
                gr.wf(),
                gr.same_calls(g),
                x < g.size(),
                g.size() <= usize::MAX,
                args@ == g.call_args(x as int),
                entries_ok(g, es),
                es == join_entries(*join_dep_map),
                forall|y: int| #[trigger] direct_dep(g, x as int, y) ==> has_key(es, y as usize),
                j < args@.len(),
                ps@ == prims(args@[j as int]),
                k <= ps@.len(),
                closed_in(g, added@),
                forall|p: int| 0 <= p < added@.len() ==> has_key(es, #[trigger] added@[p]),
                joins_of(es, added@, needed@),
                forall|j2: int, k2: int, y: int|
                    (j2 < j || (j2 == j && k2 < k)) && #[trigger] prim_call(g, x as int, j2, k2, y) ==> covers(es, added@, y as usize),
                forall|v: usize|
                    #[trigger] added@.contains(v) ==> exists|j2: int, k2: int, y: int|
                        (j2 < j || (j2 == j && k2 < k)) && prim_call(g, x as int, j2, k2, y) && (v as int == y || deps_of(
                            es,
                            y as usize,
                        ).contains(v)),
            decreases ps.len() - k,
        {
            if let FnArg::FnCall(dep) = &ps[k] {
                proof {
                    assert(dep_recorded(g, x as int, prims(g.call_args(x as int)[j as int])[k as int]));
                    let y0 = choose|y: int| #![trigger g.refers(y, *dep)] g.refers(y, *dep) && g.dependents(y).contains(x);
                    assert(gr.call_ref(y0) == g.call_ref(y0));
                    assert(gr.refers(y0, *dep));
                }
                let y = match gr.get_call(dep) {
                    Ok(y) => y,
                    Err(_) => {
                        proof {
                            assert(false);
                        }
                        k += 1;
                        continue;
                    },
                };
                let ghost prev = added@;
                proof {
                    assert(gr.call_ref(y as int) == g.call_ref(y as int));
                    assert(g.refers(y as int, *dep));
                    assert(prim_call(g, x as int, j as int, k as int, y as int));
                    assert(direct_dep(g, x as int, y as int));
                }
                add_rec_needed_joins(Ghost(g), y, &mut needed, &mut added, join_dep_map);
                proof {
                    assert forall|v: usize| #[trigger] prev.contains(v) implies added@.contains(v) by {}
                    assert forall|j2: int, k2: int, y2: int|
                        (j2 < j || (j2 == j && k2 < k + 1)) && #[trigger] prim_call(g, x as int, j2, k2, y2) implies covers(
                        es,
                        added@,
                        y2 as usize,
                    ) by {
                        if j2 == j && k2 == k {
                            g.lemma_refers_unique(y2, y as int, *dep);
                        } else {
                            assert(covers(es, prev, y2 as usize));
                        }
                    }
                    assert forall|v: usize| #[trigger] added@.contains(v) implies exists|j2: int, k2: int, y2: int|
                        (j2 < j || (j2 == j && k2 < k + 1)) && prim_call(g, x as int, j2, k2, y2) && (v as int == y2 || deps_of(
                            es,
                            y2 as usize,
                        ).contains(v)) by {
                        if !prev.contains(v) {
                            assert(prim_call(g, x as int, j as int, k as int, y as int));
                        }
                    }
                }
            }
            k += 1;
        }
        j += 1;
    }
    proof {
        lemma_needed_list(g, x, es, added@, j as int);
    }
    (needed, added)
}

/// A new entry for a call that has none keeps the entries in order.
proof fn lemma_entries_push(g: RelationGraph, es: Seq<(usize, JoinInfo)>, x: usize, info: JoinInfo)
    requires
        entries_ok(g, es),
        !has_key(es, x),
        x < g.size(),
        needs_list(g, x as int, info.deps@),
        join_of_call(g, x as int, join_model(info.join)),
        forall|p: int| 0 <= p < info.deps@.len() ==> has_key(es, #[trigger] info.deps@[p]),
    ensures
        entries_ok(g, es.push((x, info))),
{
    let e2 = es.push((x, info));
    assert forall|i: int, j: int| 0 <= i < j < e2.len() implies #[trigger] e2[i].0 != #[trigger] e2[j].0 by {
        if j == es.len() {
            assert(e2[i] == es[i]);
            if es[i].0 == x {
                assert(has_key(es, x));
            }
        } else {
            assert(e2[i] == es[i] && e2[j] == es[j]);
        }
    }
    assert forall|i: int, q: int| 0 <= i < e2.len() && 0 <= q < e2[i].1.deps@.len() implies earlier_key(e2, i, #[trigger] e2[i].1.deps@[q]) by {
        if i == es.len() {
            assert(has_key(es, info.deps@[q]));
            let i2 = choose|i2: int| 0 <= i2 < es.len() && es[i2].0 == info.deps@[q];
            assert(e2[i2] == es[i2]);
            assert(e2[i].1 == info);
            assert(0 <= i2 < i && e2[i2].0 == e2[i].1.deps@[q]);
        } else {
            assert(e2[i] == es[i]);
            assert(earlier_key(es, i, es[i].1.deps@[q]));
            let i2 = choose|i2: int| 0 <= i2 < i && es[i2].0 == es[i].1.deps@[q];
            assert(e2[i2] == es[i2]);
            assert(0 <= i2 < i && e2[i2].0 == e2[i].1.deps@[q]);
        }
    }
    assert forall|i: int| 0 <= i < e2.len() implies (#[trigger] e2[i]).0 < g.size() by {
        if i < es.len() {
            assert(e2[i] == es[i]);
        }
    }
    assert forall|i: int| 0 <= i < e2.len() implies needs_list(g, (#[trigger] e2[i]).0 as int, e2[i].1.deps@) by {
        if i < es.len() {
            assert(e2[i] == es[i]);
        }
    }
    assert forall|i: int| 0 <= i < e2.len() implies join_of_call(g, (#[trigger] e2[i]).0 as int, join_model(e2[i].1.join)) by {
        if i < es.len() {
            assert(e2[i] == es[i]);
        }
    }
}

// ______________________________ two graphs with the same calls

/// Two graphs with the same calls and dependents record the same needs.
pub proof fn lemma_same_graph_needs(g1: RelationGraph, g2: RelationGraph)
    requires
        g2.same_graph(g1),
    ensures
        forall|x: int, y: int| 0 <= x < g1.size() ==> (#[trigger] direct_dep(g2, x, y) <==> direct_dep(g1, x, y)),
        forall|x: int, j: JoinModel| 0 <= x < g1.size() ==> (#[trigger] join_of_call(g2, x, j) <==> join_of_call(g1, x, j)),
{
    assert forall|x: int, y: int| 0 <= x < g1.size() implies (#[trigger] direct_dep(g2, x, y) <==> direct_dep(g1, x, y)) by {
        assert(g2.call_ref(x) == g1.call_ref(x));
        if 0 <= y < g1.size() {
            assert(g2.call_ref(y) == g1.call_ref(y));
        }
    }
    assert forall|x: int, j: JoinModel| 0 <= x < g1.size() implies (#[trigger] join_of_call(g2, x, j) <==> join_of_call(g1, x, j)) by {
        assert(g2.call_ref(x) == g1.call_ref(x));
    }
}

/// A list of calls of `g1` closed under needs is closed in a graph with the same calls.
pub proof fn lemma_same_graph_closed(g1: RelationGraph, g2: RelationGraph, x: int, l: Seq<usize>)
    requires
        g2.same_graph(g1),
        0 <= x < g1.size(),
        forall|p: int| 0 <= p < l.len() ==> #[trigger] l[p] < g1.size(),
        needs_list(g1, x, l),
    ensures
        needs_list(g2, x, l),
{
    lemma_same_graph_needs(g1, g2);
    assert forall|p: int, y: int| 0 <= p < l.len() && #[trigger] direct_dep(g2, l[p] as int, y) implies exists|p2: int|
        0 <= p2 < p && l[p2] as int == y by {
        assert(direct_dep(g1, l[p] as int, y));
    }
    assert forall|p: int| 0 <= p < l.len() implies direct_dep(g2, x, #[trigger] l[p] as int) || exists|w: int|
        0 <= w < l.len() && direct_dep(g2, l[w] as int, l[p] as int) by {
        if !direct_dep(g1, x, l[p] as int) {
            let w = choose|w: int| 0 <= w < l.len() && direct_dep(g1, l[w] as int, l[p] as int);
            assert(direct_dep(g2, l[w] as int, l[p] as int));
        }
    }
}

// ______________________________ the engine

/// A call of a module to make.
pub struct ModuleJob {
    /// The reference of the call.
    pub fn_ref: FnRef,
    /// The index of the call in the graph of the engine.
    pub call: usize,
    /// The query that selects the graphs to run the module on.
    pub dataset: SqlSelectQuery,
    /// The joins that bring in the results of the calls that this call
    /// needs, each after the joins of the calls it needs.
    pub joins: Vec<SqlJoin>,
}

/// The column of the result of the call `r` in the result of a condition.
pub open spec fn result_column(r: FnRef) -> Seq<char> {
    call_label(r) + "."@ + FUNCTION_OUTPUT_COL_NAME@ + " as "@ + call_label(r)
}

/// The column of the graphs' signatures in the dataset.
pub open spec fn signature_column() -> Seq<char> {
    CANONICAL_TABLE_NAME@ + "."@ + PK_NAME@
}

/// `job` makes the call `job.call` of `g`, on the graphs of the query `prev`,
/// with the joins of the calls it needs, each after those it needs.
pub open spec fn job_ok(g: RelationGraph, prev: SelectModel, job: ModuleJob) -> bool {
    let d = select_model(job.dataset);
    &&& job.call < g.size()
    &&& job.fn_ref == g.call_ref(job.call as int)
    &&& d.select.len() == 1
    &&& is_ident(d.select[0], signature_column())
    &&& d == (SelectModel { select: d.select, ..prev })
    &&& exists|l: Seq<usize>|
        #![trigger needs_list(g, job.call as int, l)]
        needs_list(g, job.call as int, l) && job.joins@.len() == l.len() && forall|p: int|
            0 <= p < l.len() ==> #[trigger] l[p] < g.size() && join_of_call(g, l[p] as int, join_model(job.joins@[p]))
}

/// `m` is the query that gives, for the graphs of `prev` that meet `flat`, the
/// results of the calls `order` of `g`.
pub open spec fn result_ok(g: RelationGraph, prev: SelectModel, order: Seq<usize>, flat: Condition<FnArg>, m: SelectModel) -> bool {
    &&& m.select.len() == order.len() + 1
    &&& is_ident(m.select[0], signature_column())
    &&& forall|p: int| 0 <= p < order.len() ==> is_ident(#[trigger] m.select[p + 1], result_column(g.call_ref(order[p] as int)))
    &&& m.distinct
    &&& m.from == seq![TableSelModel { table: TableModel::Query(Box::new(prev)), rename_as: Some(CANONICAL_TABLE_NAME@) }]
    &&& m.joins.len() == order.len()
    &&& forall|p: int| 0 <= p < order.len() ==> join_of_call(g, order[p] as int, #[trigger] m.joins[p])
    &&& m.where_clause == Some(WhereModel { not_exists: None, condition: Some(flat) })
    &&& m.group_by == Seq::<Seq<char>>::empty()
    &&& m.limit is None
}

/// The calls `order` of `g` come each after the calls it needs.
pub open spec fn in_call_order(g: RelationGraph, order: Seq<usize>) -> bool {
    &&& order.no_duplicates()
    &&& forall|p: int| 0 <= p < order.len() ==> #[trigger] order[p] < g.size()
    &&& forall|p: int, y: int|
        0 <= p < order.len() && 0 <= y < g.size() && #[trigger] g.dependents(y).contains(#[trigger] order[p]) ==> exists|p2: int|
            0 <= p2 < p && order[p2] as int == y
}

/// The jobs `jobs` make, in order, the calls of `order` that were not computed
/// before, each after the jobs of the calls it needs.
pub open spec fn jobs_ok(g: RelationGraph, prev: SelectModel, computed: Set<usize>, order: Seq<usize>, jobs: Seq<ModuleJob>) -> bool {
    &&& forall|k: int| 0 <= k < jobs.len() ==> job_ok(g, prev, #[trigger] jobs[k])
    &&& forall|k: int| 0 <= k < jobs.len() ==> order.contains(#[trigger] jobs[k].call) && !computed.contains(jobs[k].call)
    &&& forall|k1: int, k2: int| 0 <= k1 < k2 < jobs.len() ==> #[trigger] jobs[k1].call != #[trigger] jobs[k2].call
    &&& forall|v: usize| #[trigger] order.contains(v) && !computed.contains(v) ==> exists|k: int| 0 <= k < jobs.len() && jobs[k].call == v
    &&& forall|k: int, y: int|
        0 <= k < jobs.len() && 0 <= y < g.size() && #[trigger] g.dependents(y).contains(#[trigger] jobs[k].call) ==> computed.contains(
            y as usize,
        ) || exists|k2: int| 0 <= k2 < k && jobs[k2].call as int == y
}

/// Every call of `g` is among `order`.
pub open spec fn covers_calls(g: RelationGraph, order: Seq<usize>) -> bool {
    forall|v: usize| (v as int) < g.size() ==> #[trigger] order.contains(v)
}

/// One round of the engine: the condition `cond` was flattened into `flat` in
/// the graph of `after`, all of whose calls, `order`, were handed out each after the
/// calls it needs; `jobs` make those not computed before, and the result of
/// `after` keeps the graphs of the result of `before` that meet `flat`.
pub open spec fn round_ok(
    before: ConditionEngine,
    after: ConditionEngine,
    cond: Condition<ParsedArgType>,
    order: Seq<usize>,
    flat: Condition<FnArg>,
    jobs: Seq<ModuleJob>,
) -> bool {
    let g = after.graph_state();
    &&& flat_condition(g, cond, flat)
    &&& in_call_order(g, order)
    &&& covers_calls(g, order)
    &&& after.computed() == before.computed().union(order.to_set())
    &&& jobs_ok(g, before.result_model(), before.computed(), order, jobs)
    &&& result_ok(g, before.result_model(), order, flat, after.result_model())
}

/// The engine went from `engines[k]` to `engines[k + 1]` by a round that
/// added `conds[k]` and handed out the jobs `jobs[k]`.
pub open spec fn rounds_ok(engines: Seq<ConditionEngine>, conds: Seq<Condition<ParsedArgType>>, jobs: Seq<Seq<ModuleJob>>) -> bool {
    &&& engines.len() == jobs.len() + 1
    &&& conds.len() == jobs.len()
    &&& forall|k: int|
        0 <= k < jobs.len() ==> round_ok(
            #[trigger] engines[k],
            engines[k + 1],
            conds[k],
            engines[k + 1].handed_out(),
            engines[k + 1].flattened(),
            jobs[k],
        )
}

/// Some job of the rounds before round `k`, or of round `k` before its
/// `i`-th job, computes the call `y`.
pub open spec fn job_before(jobs: Seq<Seq<ModuleJob>>, k: int, i: int, y: usize) -> bool {
    exists|k2: int, i2: int|
        0 <= k2 <= k && 0 <= i2 < jobs[k2].len() && (k2 < k || i2 < i) && (#[trigger] jobs[k2][i2]).call == y
}

/// The calls computed after `k` rounds were computed at the start or by a job of those rounds.
proof fn lemma_computed_by_jobs(engines: Seq<ConditionEngine>, conds: Seq<Condition<ParsedArgType>>, jobs: Seq<Seq<ModuleJob>>, k: int)
    requires
        rounds_ok(engines, conds, jobs),
        0 <= k <= jobs.len(),
    ensures
        forall|y: usize| #[trigger] engines[k].computed().contains(y) ==> engines[0].computed().contains(y) || job_before(jobs, k, 0, y),
    decreases k,
{
    if k > 0 {
        lemma_computed_by_jobs(engines, conds, jobs, k - 1);
        let e = engines[k - 1];
        let order = engines[k].handed_out();
        assert(round_ok(e, engines[k], conds[k - 1], order, engines[k].flattened(), jobs[k - 1]));
        assert forall|y: usize| #[trigger] engines[k].computed().contains(y) implies engines[0].computed().contains(y) || job_before(
            jobs,
            k,
            0,
            y,
        ) by {
            if e.computed().contains(y) {
                if !engines[0].computed().contains(y) {
                    let (k2, i2) = choose|k2: int, i2: int|
                        0 <= k2 <= k - 1 && 0 <= i2 < jobs[k2].len() && (k2 < k - 1 || i2 < 0) && (#[trigger] jobs[k2][i2]).call == y;
                    assert(jobs[k2][i2].call == y);
                }
            } else {
                assert(order.to_set().contains(y));
                assert(order.contains(y));
                let i2 = choose|i2: int| 0 <= i2 < jobs[k - 1].len() && (#[trigger] jobs[k - 1][i2]).call == y;
                assert(jobs[k - 1][i2].call == y);
            }
        }
    }
}

/// The calls computed after `k1` rounds are still computed after `k2 >= k1` rounds.
proof fn lemma_computed_grows(engines: Seq<ConditionEngine>, conds: Seq<Condition<ParsedArgType>>, jobs: Seq<Seq<ModuleJob>>, k1: int, k2: int)
    requires
        rounds_ok(engines, conds, jobs),
        0 <= k1 <= k2 <= jobs.len(),
    ensures
        engines[k1].computed().subset_of(engines[k2].computed()),
    decreases k2 - k1,
{
    if k1 < k2 {
        lemma_computed_grows(engines, conds, jobs, k1, k2 - 1);
        let k = k2 - 1;
        assert(round_ok(engines[k], engines[k2], conds[k], engines[k2].handed_out(), engines[k2].flattened(), jobs[k]));
    }
}

/// Over successive rounds of an engine, no call is computed twice: each job
/// computes a call that no earlier job, and no job of an earlier round,
/// computed, nor was computed at the start; and each job comes after a job
/// (of its round or of an earlier one) for each call it needs, unless that
/// call was computed at the start.
pub proof fn lemma_rounds_jobs(engines: Seq<ConditionEngine>, conds: Seq<Condition<ParsedArgType>>, jobs: Seq<Seq<ModuleJob>>)
    requires
        rounds_ok(engines, conds, jobs),
    ensures
        forall|k1: int, i1: int, k2: int, i2: int|
            0 <= k1 < jobs.len() && 0 <= k2 < jobs.len() && 0 <= i1 < jobs[k1].len() && 0 <= i2 < jobs[k2].len() && (k1 != k2
                || i1 != i2) ==> (#[trigger] jobs[k1][i1]).call != (#[trigger] jobs[k2][i2]).call,
        forall|k: int, i: int| 0 <= k < jobs.len() && 0 <= i < jobs[k].len() ==> !engines[0].computed().contains(#[trigger] jobs[k][i].call),
        forall|k: int, i: int, y: int|
            0 <= k < jobs.len() && 0 <= i < jobs[k].len() && 0 <= y < engines[k + 1].graph_state().size()
                && #[trigger] engines[k + 1].graph_state().dependents(y).contains(#[trigger] jobs[k][i].call) ==> engines[0].computed().contains(
                y as usize,
            ) || job_before(jobs, k, i, y as usize),
{
    assert forall|k1: int, i1: int, k2: int, i2: int|
        0 <= k1 < jobs.len() && 0 <= k2 < jobs.len() && 0 <= i1 < jobs[k1].len() && 0 <= i2 < jobs[k2].len() && (k1 != k2 || i1
            != i2) implies (#[trigger] jobs[k1][i1]).call != (#[trigger] jobs[k2][i2]).call by {
        assert(round_ok(engines[k1], engines[k1 + 1], conds[k1], engines[k1 + 1].handed_out(), engines[k1 + 1].flattened(), jobs[k1]));
        assert(round_ok(engines[k2], engines[k2 + 1], conds[k2], engines[k2 + 1].handed_out(), engines[k2 + 1].flattened(), jobs[k2]));
        if k1 < k2 {
            lemma_computed_grows(engines, conds, jobs, k1 + 1, k2);
            assert(engines[k1 + 1].handed_out().contains(jobs[k1][i1].call));
            assert(engines[k1 + 1].computed().contains(jobs[k1][i1].call));
        } else if k2 < k1 {
            lemma_computed_grows(engines, conds, jobs, k2 + 1, k1);
            assert(engines[k2 + 1].handed_out().contains(jobs[k2][i2].call));
            assert(engines[k2 + 1].computed().contains(jobs[k2][i2].call));
        } else if i1 < i2 {
            assert(jobs[k1][i1].call != jobs[k1][i2].call);
        } else {
            assert(jobs[k1][i2].call != jobs[k1][i1].call);
        }
    }
    assert forall|k: int, i: int| 0 <= k < jobs.len() && 0 <= i < jobs[k].len() implies !engines[0].computed().contains(
        #[trigger] jobs[k][i].call,
    ) by {
        assert(round_ok(engines[k], engines[k + 1], conds[k], engines[k + 1].handed_out(), engines[k + 1].flattened(), jobs[k]));
        lemma_computed_grows(engines, conds, jobs, 0, k);
    }
    assert forall|k: int, i: int, y: int|
        0 <= k < jobs.len() && 0 <= i < jobs[k].len() && 0 <= y < engines[k + 1].graph_state().size()
            && #[trigger] engines[k + 1].graph_state().dependents(y).contains(#[trigger] jobs[k][i].call) implies engines[0].computed().contains(
        y as usize,
    ) || job_before(jobs, k, i, y as usize) by {
        let e = engines[k];
        assert(round_ok(e, engines[k + 1], conds[k], engines[k + 1].handed_out(), engines[k + 1].flattened(), jobs[k]));
        let g = engines[k + 1].graph_state();
        assert(jobs_ok(g, e.result_model(), e.computed(), engines[k + 1].handed_out(), jobs[k]));
        if e.computed().contains(y as usize) {
            lemma_computed_by_jobs(engines, conds, jobs, k);
            if !engines[0].computed().contains(y as usize) {
                let (k2, i2) = choose|k2: int, i2: int|
                    0 <= k2 <= k && 0 <= i2 < jobs[k2].len() && (k2 < k || i2 < 0) && (#[trigger] jobs[k2][i2]).call == y as usize;
                assert(jobs[k2][i2].call == y as usize);
            }
        } else {
            let k2 = choose|k2: int| 0 <= k2 < i && (#[trigger] jobs[k][k2]).call as int == y;
            assert(jobs[k][k2].call == y as usize);
        }
    }
}

/// A call that the call `x`, ready to be handed out, needs was handed out before.
proof fn lemma_direct_dep_finished(g: RelationGraph, it: FnCallIterator, x: int, y: int)
    requires
        g.wf(),
        deps_complete(g),
        it.wf(),
        it.graph() == g,
        it.ready().len() > 0,
        x == it.ready().last() as int,
        direct_dep(g, x, y),
    ensures
        it.finished().contains(y),
        0 <= y < g.size(),
{
    let (j, k) = choose|j: int, k: int|
        0 <= j < g.call_args(x).len() && 0 <= k < prims(g.call_args(x)[j]).len() && (#[trigger] prims(g.call_args(x)[j])[k] matches FnArg::FnCall(
            r,
        ) && g.refers(y, r));
    let r = prims(g.call_args(x)[j])[k]->FnCall_0;
    it.lemma_ready_valid(it.ready().len() - 1);
    assert(dep_recorded(g, x, prims(g.call_args(x)[j])[k]));
    let y2 = choose|y2: int| #![trigger g.refers(y2, r)] g.refers(y2, r) && g.dependents(y2).contains(x as usize);
    g.lemma_refers_unique(y, y2, r);
    assert(it.depends_on(x, y));
    it.lemma_ready_deps_finished(x);
}

/// A list of distinct numbers below `n` holds at most `n` of them.
pub proof fn lemma_distinct_below(l: Seq<usize>, n: nat)
    requires
        l.no_duplicates(),
        forall|p: int| 0 <= p < l.len() ==> #[trigger] l[p] < n,
    ensures
        l.len() <= n,
{
    let r = vstd::set_lib::set_int_range(0, n as int);
    vstd::set_lib::lemma_int_range(0, n as int);
    let f = |i: int| i as usize;
    let u = r.map(f);
    vstd::set_lib::lemma_map_size_bound(r, u, f);
    l.unique_seq_to_set();
    assert(l.to_set().subset_of(u)) by {
        assert forall|v: usize| l.to_set().contains(v) implies u.contains(v) by {
            let p = l.index_of(v);
            assert(r.contains(v as int));
            assert(f(v as int) == v);
        }
    }
    vstd::set_lib::lemma_len_subset(l.to_set(), u);
}

/// What a round states of a graph holds of a graph with the same calls and dependents.
proof fn lemma_round_transfer(
    g: RelationGraph,
    back: RelationGraph,
    prev: SelectModel,
    computed0: Set<usize>,
    order: Seq<usize>,
    jobs: Seq<ModuleJob>,
)
    requires
        back.same_graph(g),
        deps_complete(g),
        in_call_order(g, order),
        jobs_ok(g, prev, computed0, order, jobs),
    ensures
        deps_complete(back),
        in_call_order(back, order),
        jobs_ok(back, prev, computed0, order, jobs),
{
    assert forall|y: int| 0 <= y < g.size() implies #[trigger] back.dependents(y) == g.dependents(y) by {}
    assert forall|x: int, j: int, k: int|
        0 <= x < back.size() && 0 <= j < back.call_args(x).len() && 0 <= k < prims(back.call_args(x)[j]).len() implies dep_recorded(
        back,
        x,
        #[trigger] prims(back.call_args(x)[j])[k],
    ) by {
        assert(back.call_ref(x) == g.call_ref(x));
        assert(dep_recorded(g, x, prims(g.call_args(x)[j])[k]));
        if let FnArg::FnCall(r) = prims(g.call_args(x)[j])[k] {
            let y = choose|y: int| #![trigger g.refers(y, r)] g.refers(y, r) && g.dependents(y).contains(x as usize);
            assert(back.call_ref(y) == g.call_ref(y));
            assert(back.refers(y, r));
        }
    }
    assert forall|k: int| 0 <= k < jobs.len() implies job_ok(back, prev, #[trigger] jobs[k]) by {
        let job = jobs[k];
        assert(job_ok(g, prev, job));
        assert(back.call_ref(job.call as int) == g.call_ref(job.call as int));
        let l = choose|l: Seq<usize>|
            #![trigger needs_list(g, job.call as int, l)]
            needs_list(g, job.call as int, l) && job.joins@.len() == l.len() && forall|p: int|
                0 <= p < l.len() ==> #[trigger] l[p] < g.size() && join_of_call(g, l[p] as int, join_model(job.joins@[p]));
        lemma_same_graph_closed(g, back, job.call as int, l);
        lemma_same_graph_needs(g, back);
        assert forall|p: int| 0 <= p < l.len() implies #[trigger] l[p] < back.size() && join_of_call(
            back,
            l[p] as int,
            join_model(job.joins@[p]),
        ) by {}
    }
}

/// The loop of a round goes on with the call `x`.
proof fn lemma_round_step(
    g: RelationGraph,
    prev: SelectModel,
    computed0: Set<usize>,
    order: Seq<usize>,
    x: usize,
    jobs0: Seq<ModuleJob>,
    jobs1: Seq<ModuleJob>,
    it0: FnCallIterator,
)
    requires
        g.wf(),
        g.size() <= usize::MAX,
        it0.wf(),
        it0.graph() == g,
        it0.ready().len() > 0,
        x as int == it0.ready().last() as int,
        forall|v: int| #[trigger] it0.finished().contains(v) <==> order.contains(v as usize) && 0 <= v < g.size(),
        in_call_order(g, order),
        jobs_ok(g, prev, computed0, order, jobs0),
        computed0.union(order.to_set()).contains(x) ==> jobs1 == jobs0,
        !computed0.union(order.to_set()).contains(x) ==> {
            &&& jobs1 == jobs0.push(jobs1.last())
            &&& jobs1.last().call == x
            &&& job_ok(g, prev, jobs1.last())
        },
    ensures
        in_call_order(g, order.push(x)),
        jobs_ok(g, prev, computed0, order.push(x), jobs1),
        forall|v: int| #[trigger] it0.finished().insert(x as int).contains(v) <==> order.push(x).contains(v as usize) && 0 <= v < g.size(),
        computed0.union(order.push(x).to_set()) == computed0.union(order.to_set()).insert(x),
{
    let o2 = order.push(x);
    it0.lemma_ready_valid(it0.ready().len() - 1);
    assert(it0.ready().contains(x));
    it0.lemma_ready_deps_finished(x as int);
    assert(!order.contains(x)) by {
        if order.contains(x) {
            assert(it0.finished().contains(x as int));
        }
    }
    assert(o2.no_duplicates()) by {
        assert forall|a: int, b: int| 0 <= a < b < o2.len() implies o2[a] != o2[b] by {
            if b == order.len() {
                assert(order.contains(o2[a]));
            } else {
                assert(o2[a] == order[a] && o2[b] == order[b]);
            }
        }
    }
    assert forall|p: int| 0 <= p < o2.len() implies #[trigger] o2[p] < g.size() by {
        if p < order.len() {
            assert(o2[p] == order[p]);
        }
    }
    assert forall|p: int, y: int|
        0 <= p < o2.len() && 0 <= y < g.size() && #[trigger] g.dependents(y).contains(#[trigger] o2[p]) implies exists|p2: int|
        0 <= p2 < p && o2[p2] as int == y by {
        if p == order.len() {
            assert(it0.depends_on(x as int, y));
            assert(it0.finished().contains(y));
            assert(order.contains(y as usize));
            let p2 = order.index_of(y as usize);
            assert(o2[p2] == order[p2]);
        } else {
            assert(o2[p] == order[p]);
            let p2 = choose|p2: int| 0 <= p2 < p && order[p2] as int == y;
            assert(o2[p2] == order[p2]);
        }
    }
    assert(o2.to_set() =~= order.to_set().insert(x)) by {
        assert forall|v: usize| o2.to_set().contains(v) <==> order.to_set().insert(x).contains(v) by {
            if o2.contains(v) {
                let p = o2.index_of(v);
                if p < order.len() {
                    assert(o2[p] == order[p]);
                }
            }
            if order.contains(v) {
                let p = order.index_of(v);
                assert(o2[p] == order[p]);
            }
            if v == x {
                assert(o2[order.len() as int] == x);
            }
        }
    }
    assert(computed0.union(o2.to_set()) =~= computed0.union(order.to_set()).insert(x));
    assert forall|v: int| #[trigger] it0.finished().insert(x as int).contains(v) <==> o2.contains(v as usize) && 0 <= v < g.size() by {
        if o2.contains(v as usize) && 0 <= v < g.size() {
            let p = o2.index_of(v as usize);
            if p < order.len() {
                assert(o2[p] == order[p]);
                assert(order.contains(v as usize));
            }
        }
        if order.contains(v as usize) {
            let p = order.index_of(v as usize);
            assert(o2[p] == order[p]);
        }
        if v == x as int {
            assert(o2[order.len() as int] == x);
        }
    }
    // the jobs
    let in_before = computed0.union(order.to_set()).contains(x);
    let n0 = jobs0.len() as int;
    assert forall|k: int| 0 <= k < jobs1.len() implies job_ok(g, prev, #[trigger] jobs1[k]) by {
        if !in_before && k < n0 {
            assert(jobs1[k] == jobs0[k]);
        }
    }
    assert forall|k: int| 0 <= k < jobs1.len() implies o2.contains(#[trigger] jobs1[k].call) && !computed0.contains(jobs1[k].call) by {
        if !in_before && k == n0 {
            assert(o2[order.len() as int] == x);
        } else {
            assert(jobs1[k] == jobs0[k]);
            let p = order.index_of(jobs0[k].call);
            assert(o2[p] == order[p]);
        }
    }
    assert forall|k1: int, k2: int| 0 <= k1 < k2 < jobs1.len() implies #[trigger] jobs1[k1].call != #[trigger] jobs1[k2].call by {
        if !in_before && k2 == n0 {
            assert(jobs1[k1] == jobs0[k1]);
            assert(order.contains(jobs0[k1].call));
        } else {
            assert(jobs1[k1] == jobs0[k1] && jobs1[k2] == jobs0[k2]);
        }
    }
    assert forall|v: usize| #[trigger] o2.contains(v) && !computed0.contains(v) implies exists|k: int| 0 <= k < jobs1.len() && jobs1[k].call == v by {
        if order.contains(v) {
            let k = choose|k: int| 0 <= k < jobs0.len() && jobs0[k].call == v;
            assert(jobs1[k] == jobs0[k]);
        } else {
            let p = o2.index_of(v);
            if p < order.len() {
                assert(o2[p] == order[p]);
            }
            assert(v == x);
            assert(!order.to_set().contains(x));
            assert(jobs1[n0].call == x);
        }
    }
    assert forall|k: int, y: int|
        0 <= k < jobs1.len() && 0 <= y < g.size() && #[trigger] g.dependents(y).contains(#[trigger] jobs1[k].call) implies computed0.contains(
        y as usize,
    ) || exists|k2: int| 0 <= k2 < k && jobs1[k2].call as int == y by {
        if !in_before && k == n0 {
            assert(it0.depends_on(x as int, y));
            assert(order.contains(y as usize));
            if !computed0.contains(y as usize) {
                let k2 = choose|k2: int| 0 <= k2 < jobs0.len() && jobs0[k2].call == y as usize;
                assert(jobs1[k2] == jobs0[k2]);
            }
        } else {
            assert(jobs1[k] == jobs0[k]);
            if !computed0.contains(y as usize) {
                let k2 = choose|k2: int| 0 <= k2 < k && jobs0[k2].call as int == y;
                assert(jobs1[k2] == jobs0[k2]);
            }
        }
    }
}

/// Finds the calls of the modules that conditions need, and builds the query
/// that gives the graphs meeting the conditions added so far.
pub struct ConditionEngine {
    graph: RelationGraph,
    /// The query that gives the result of the conditions added so far.
    result: SqlSelectQuery,
    /// The calls that were computed before.
    already_computed: HashSet<usize>,
    /// The calls handed out by the last round, in order.
    last_order: Ghost<Seq<usize>>,
    /// The last condition added, flattened.
    last_flat: Ghost<Option<Condition<FnArg>>>,
}

impl ConditionEngine {
    /// The graph of the calls of the conditions added so far.
    pub closed spec fn graph_state(&self) -> RelationGraph {
        self.graph
    }

    /// The model of the query that gives the result.
    pub closed spec fn result_model(&self) -> SelectModel {
        select_model(self.result)
    }

    /// The calls that were computed.
    pub closed spec fn computed(&self) -> Set<usize> {
        self.already_computed@
    }

    /// The calls of the graph handed out by the last round, in order.
    pub closed spec fn handed_out(&self) -> Seq<usize> {
        self.last_order@
    }

    /// The last condition added, once flattened.
    pub closed spec fn flattened(&self) -> Condition<FnArg> {
        self.last_flat@.unwrap()
    }

    /// The graph is well formed and records every call as relying on the calls among its arguments.
    pub closed spec fn wf(&self) -> bool {
        &&& self.graph.wf()
        &&& deps_complete(self.graph)
        &&& deps_ordered(self.graph)
    }

    /// An engine for the modules `modules`, whose names differ, with no
    /// condition yet: its result is every graph of the dataset.
    pub fn new(modules: Vec<Module>) -> (r: Self)
        requires
            unique_names(modules@),
        ensures
            r.wf(),
            r.graph_state().module_list() == modules@,
            r.graph_state().size() == 0,
            r.computed() == Set::<usize>::empty(),
            r.result_model().select.len() == 1,
            is_ident(r.result_model().select[0], "*"@),
            r.result_model() == (SelectModel {
                select: r.result_model().select,
                distinct: false,
                from: seq![TableSelModel { table: TableModel::Name(CANONICAL_TABLE_NAME@), rename_as: None }],
                joins: Seq::empty(),
                where_clause: None,
                group_by: Seq::empty(),
                limit: None,
            }),
    {
        let graph = RelationGraph::new(modules);
        let result = SqlSelectQuery::select_all_from_table(SqlTableSelection::named(String::from_str(CANONICAL_TABLE_NAME)));
        ConditionEngine {
            graph,
            result,
            already_computed: HashSet::new(),
            last_order: Ghost(Seq::empty()),
            last_flat: Ghost(None),
        }
    }

    /// The graph of the calls of the conditions added so far.
    pub fn graph(&self) -> (r: &RelationGraph)
        ensures
            *r == self.graph_state(),
    {
        &self.graph
    }

    /// The query that gives the result of the conditions added so far.
    pub fn result(&self) -> (r: &SqlSelectQuery)
        ensures
            select_model(*r) == self.result_model(),
    {
        &self.result
    }

    #[verifier::spinoff_prover]
    /// Adds a condition: flattens its calls into the graph, hands out the
    /// calls of the graph, each after the calls it needs, as jobs for those
    /// not computed before, and makes the result the graphs of the previous
    /// result that meet the condition, with the results of the calls.
    pub fn add_new_cond(&mut self, cond: Condition<ParsedArgType>) -> (r: Result<Vec<ModuleJob>, RelationGraphError>)
        requires
            old(self).wf(),
        ensures
            final(self).wf(),
            final(self).graph_state().extends(old(self).graph_state()),
            r is Err ==> {
                &&& condition_error(old(self).graph_state().module_list(), cond) == Some(r->Err_0)
                &&& final(self).computed() == old(self).computed()
                &&& final(self).result_model() == old(self).result_model()
            },
            r is Ok ==> condition_error(old(self).graph_state().module_list(), cond) is None,
            r is Ok ==> round_ok(*old(self), *final(self), cond, final(self).handed_out(), final(self).flattened(), r->Ok_0@),
    {
        let ghost g0 = self.graph;
        let ghost cond0 = cond;
        let flat = match fill_graph_cond(&mut self.graph, cond) {
            Ok(x) => x,
            Err(e) => {
                proof {
                    assert(self.wf());
                    assert(self.computed() == old(self).computed());
                    assert(self.result_model() == old(self).result_model());
                }
                return Err(e);
            },
        };
        let ghost g = self.graph;
        let ghost computed0 = self.already_computed@;
        let ghost prev = select_model(self.result);
        let mut graph = RelationGraph::new(Vec::new());
        std::mem::swap(&mut graph, &mut self.graph);
        let mut iter = AutoFnCallIterator::from(graph.into_iter());
        let mut join_dep_map = new_join_map();
        let mut jobs: Vec<ModuleJob> = Vec::new();
        let ghost mut order: Seq<usize> = Seq::empty();
        proof {
            g.lemma_size_fits();
        }
        while iter.get_inner_iter().has_next()
            invariant
                g.wf(),
                deps_complete(g),
                g.size() <= usize::MAX,
                iter.inner().wf(),
                iter.inner().graph() == g,
                deps_ordered(g),
                forall|i: int| 0 <= i < g.size() ==> !#[trigger] iter.inner().computing(i),
                entries_ok(g, join_entries(join_dep_map)),
                join_entries(join_dep_map).len() == order.len(),
                forall|p: int| 0 <= p < order.len() ==> (#[trigger] join_entries(join_dep_map)[p]).0 == order[p],
                forall|v: int| #[trigger] iter.inner().finished().contains(v) <==> order.contains(v as usize) && 0 <= v < g.size(),
                in_call_order(g, order),
                self.already_computed@ == computed0.union(order.to_set()),
                select_model(self.result) == prev,
                jobs_ok(g, prev, computed0, order, jobs@),
                order.len() <= g.size(),
            ensures
                iter.inner().ready().len() == 0,
            decreases g.size() - order.len(),
        {
            let ghost it0 = iter.inner();
            let f = match iter.next() {
                Some(f) => f,
                None => {
                    proof {
                        assert(false);
                    }
                    break;
                },
            };
            let ghost xs = it0.ready().last() as int;
            proof {
                it0.lemma_ready_valid(it0.ready().len() - 1);
            }
            let gr = iter.get_inner_iter().graph_ref();
            let x = match gr.get_call(&f) {
                Ok(x) => x,
                Err(_) => {
                    proof {
                        assert(gr.call_ref(xs) == g.call_ref(xs));
                        assert(gr.refers(xs, f));
                        lemma_lookup_of(*gr, xs, f);
                        assert(false);
                    }
                    break;
                },
            };
            proof {
                assert(gr.call_ref(x as int) == g.call_ref(x as int));
                assert(g.refers(x as int, f));
                assert(g.refers(xs, f));
                g.lemma_refers_unique(x as int, xs, f);
                assert forall|y: int| #[trigger] direct_dep(g, x as int, y) implies has_key(join_entries(join_dep_map), y as usize) by {
                    lemma_direct_dep_finished(g, it0, x as int, y);
                    assert(order.contains(y as usize));
                    let p = order.index_of(y as usize);
                    assert(join_entries(join_dep_map)[p].0 == order[p]);
                }
            }
            let (module, args) = gr.get_module_args(x);
            proof {
                assert(gr.call_ref(x as int) == g.call_ref(x as int));
                g.lemma_calls_valid(x as int);
            }
            let (needed, added) = needed_joins(Ghost(g), gr, x, args, &join_dep_map);
            let join = call_join(&f, module, args);
            let ghost es0 = join_entries(join_dep_map);
            let ghost deps_list = added@;
            let info = JoinInfo { join, deps: added };
            proof {
                assert(join_of_call(g, x as int, join_model(info.join)));
                assert(!has_key(es0, x)) by {
                    if has_key(es0, x) {
                        let i = choose|i: int| 0 <= i < es0.len() && es0[i].0 == x;
                        assert(order.contains(x));
                        assert(it0.finished().contains(x as int));
                    }
                }
                lemma_entries_push(g, es0, x, info);
            }
            let _ = join_map_insert(&mut join_dep_map, x, info);
            let ghost jobs0 = jobs@;
            if !self.already_computed.contains(&x) {
                self.already_computed.insert(x);
                let mut dataset = self.result.copy();
                let column = concat(concat(CANONICAL_TABLE_NAME, ".").as_str(), PK_NAME);
                dataset.set_col_selection(column);
                let job = ModuleJob { fn_ref: f, call: x, dataset, joins: needed };
                proof {
                    assert(needs_list(g, job.call as int, deps_list));
                }
                jobs.push(job);
            }
            proof {
                let o2 = order.push(x);
                lemma_round_step(g, prev, computed0, order, x, jobs0, jobs@, it0);
                lemma_distinct_below(o2, g.size());
                order = o2;
            }
        }
        proof {
            let it = iter.inner();
            assert forall|v: usize| (v as int) < g.size() implies #[trigger] order.contains(v) by {
                it.lemma_all_finished(v as int);
            }
        }
        let inner = iter.into_inner();
        let back = inner.into_graph();
        let entries = join_map_into_entries(join_dep_map);
        let ghost es = entries@;
        let ghost flat0 = flat;
        let mut cols: Vec<MathExpression<FnArg>> = Vec::new();
        let signature = concat(concat(CANONICAL_TABLE_NAME, ".").as_str(), PK_NAME);
        cols.push(MathExpression::Primitif(FnArg::Constant(ConstantValue::Identifier(signature))));
        let mut joins: Vec<SqlJoin> = Vec::new();
        let mut p: usize = 0;
        while p < entries.len()
            invariant
                back.wf(),
                back.same_graph(g),
                entries@ == es,
                entries_ok(g, es),
                es.len() == order.len(),
                forall|q: int| 0 <= q < order.len() ==> (#[trigger] es[q]).0 == order[q],
                p <= es.len(),
                cols@.len() == p + 1,
                is_ident(cols@[0], signature_column()),
                forall|q: int| 0 <= q < p ==> is_ident(#[trigger] cols@[q + 1], result_column(back.call_ref(order[q] as int))),
                joins@.len() == p,
                forall|q: int| 0 <= q < p ==> join_model(#[trigger] joins@[q]) == join_model(es[q].1.join),
            decreases entries.len() - p,
        {
            proof {
                assert(es[p as int].0 < g.size());
            }
            let fr = back.get_ref_of(entries[p].0);
            let number = usize_to_string(fr.1);
            let label = concat(fr.0.as_str(), number.as_str());
            let c1 = concat(label.as_str(), ".");
            let c2 = concat(c1.as_str(), FUNCTION_OUTPUT_COL_NAME);
            let c3 = concat(c2.as_str(), " as ");
            let column = concat(c3.as_str(), label.as_str());
            cols.push(MathExpression::Primitif(FnArg::Constant(ConstantValue::Identifier(column))));
            joins.push(entries[p].1.join.copy());
            p += 1;
        }
        let table = SqlTableSelection::new_rename(SqlTable::SqlQuery(self.result.copy()), String::from_str(CANONICAL_TABLE_NAME));
        let ghost cols_model = cols@;
        let mut selection = SqlSelectQuery::select_columns_from_table(cols, table).set_where_clause(
            SqlWhereClause::from_condition(flat),
        );
        selection.set_distinct_values(true);
        let ghost base = select_model(selection);
        proof {
            assert(Seq::new(0 as nat, |i: int| join_model(joins@[i])) =~= base.joins);
            assert(select_model(selection) =~= (SelectModel { joins: Seq::new(0 as nat, |i: int| join_model(joins@[i])), ..base }));
        }
        let mut q: usize = 0;
        while q < joins.len()
            invariant
                q <= joins@.len(),
                select_model(selection) == (SelectModel {
                    joins: Seq::new(q as nat, |i: int| join_model(joins@[i])),
                    ..base
                }),
                base.joins == Seq::<JoinModel>::empty(),
            decreases joins.len() - q,
        {
            selection.add_join(joins[q].copy());
            proof {
                assert(Seq::new(q as nat, |i: int| join_model(joins@[i])).push(join_model(joins@[q as int])) =~= Seq::new(
                    (q + 1) as nat,
                    |i: int| join_model(joins@[i]),
                ));
            }
            q += 1;
        }
        self.graph = back;
        self.result = selection;
        self.last_order = Ghost(order);
        self.last_flat = Ghost(Some(flat0));
        proof {
            lemma_same_calls_extends(g, back);
            lemma_extends_trans(g0, g, back);
            lemma_flat_condition_extends(g, back, cond0, flat0);
            lemma_round_transfer(g, back, prev, computed0, order, jobs@);
            let m = select_model(selection);
            assert(m.joins =~= Seq::new(joins@.len() as nat, |i: int| join_model(joins@[i])));
            lemma_same_graph_needs(g, back);
            assert forall|k: int| 0 <= k < order.len() implies join_of_call(back, order[k] as int, #[trigger] m.joins[k]) by {
                assert(m.joins[k] == join_model(joins@[k]));
                assert(join_of_call(g, es[k].0 as int, join_model(es[k].1.join)));
            }
            assert forall|k: int| 0 <= k < order.len() implies is_ident(#[trigger] m.select[k + 1], result_column(back.call_ref(order[k] as int))) by {
                assert(m.select[k + 1] == cols_model[k + 1]);
            }
            assert(result_ok(back, prev, order, flat0, m));
            assert(round_ok(*old(self), *self, cond0, order, flat0, jobs@));
            assert(self.wf());
        }
        Ok(jobs)
    }
}

} // verus!
