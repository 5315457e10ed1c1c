use gquest_core::data_types::{ConstantValue, ValueType};
use gquest_core::engine::{fill_graph_cond, ConditionEngine};
use gquest_core::expr::{Comparison, Condition, MathExpression};
use gquest_core::module::{Module, PathCheck, TypedArg};
use gquest_core::parser::QueryParser;
use gquest_core::rel_graph::{FnArg, RelationGraph, RelationGraphError};

fn inv_module(name: &str) -> Module {
    Module::new_invariant(PathCheck::Executable(format!("/modules/{name}.py")), name.to_string(), ValueType::Numeric, None)
        .expect("valid module")
}

fn two_args(name: &str) -> Module {
    Module::new(
        PathCheck::Executable(format!("/modules/{name}.py")),
        name.to_string(),
        vec![
            TypedArg { name: "graph".to_string(), data_type: ValueType::Graph },
            TypedArg { name: "k".to_string(), data_type: ValueType::Numeric },
        ],
        Vec::new(),
        ValueType::Numeric,
        Some(10),
    )
    .expect("valid module")
}

#[test]
fn engine_first_round_test() {
    let mut engine = ConditionEngine::new(vec![inv_module("n")]);
    assert_eq!(engine.result().to_sql(), "SELECT * FROM dataset");
    let cond = QueryParser::parse_condition("n > 3", None).expect("valid condition");
    let jobs = engine.add_new_cond(cond).expect("known functions");
    assert_eq!(jobs.len(), 1);
    assert_eq!(jobs[0].fn_ref, ("n".to_string(), 0));
    assert_eq!(jobs[0].call, 0);
    assert_eq!(jobs[0].dataset.to_sql(), "SELECT dataset.canon FROM dataset");
    assert!(jobs[0].joins.is_empty());
    assert_eq!(
        engine.result().to_sql(),
        "SELECT DISTINCT dataset.canon, n0.value as n0 FROM (SELECT * FROM dataset) as dataset JOIN n n0 ON n0.graph = dataset.canon  WHERE n0.value > 3"
    );
}

#[test]
fn engine_computes_each_call_once_test() {
    let mut engine = ConditionEngine::new(vec![inv_module("n"), inv_module("m")]);
    let first = QueryParser::parse_condition("n > 3", None).expect("valid condition");
    let jobs = engine.add_new_cond(first).expect("known functions");
    assert_eq!(jobs.len(), 1);
    let second = QueryParser::parse_condition("n < 10 and m = 2", None).expect("valid condition");
    let jobs = engine.add_new_cond(second).expect("known functions");
    // n(G) was computed in the first round: only m(G) is left.
    assert_eq!(jobs.len(), 1);
    assert_eq!(jobs[0].fn_ref.0, "m");
    assert_eq!(engine.graph().len(), 2);
}

#[test]
fn engine_nested_call_order_test() {
    let mut engine = ConditionEngine::new(vec![inv_module("n"), two_args("p")]);
    let cond = QueryParser::parse_condition("p(G, n + 1) > 0", None).expect("valid condition");
    let jobs = engine.add_new_cond(cond).expect("known functions");
    assert_eq!(jobs.len(), 2);
    // n(G) is needed by p(G, n(G) + 1), so it comes first.
    assert_eq!(jobs[0].fn_ref.0, "n");
    assert_eq!(jobs[1].fn_ref.0, "p");
    assert_eq!(jobs[1].joins.len(), 1);
    assert_eq!(jobs[1].joins[0].alias_name, "n0");
}

#[test]
fn engine_unknown_function_test() {
    let mut engine = ConditionEngine::new(vec![inv_module("n")]);
    let cond = QueryParser::parse_condition("x > 1", None).expect("valid condition");
    assert!(matches!(engine.add_new_cond(cond), Err(RelationGraphError::UnknownFunction(name)) if name == "x"));
    // A refused condition leaves the result as it was.
    assert_eq!(engine.result().to_sql(), "SELECT * FROM dataset");
}

#[test]
fn engine_argument_errors_test() {
    let mut engine = ConditionEngine::new(vec![two_args("p")]);
    let cond = QueryParser::parse_condition("p(G) > 1", None).expect("valid condition");
    assert!(matches!(
        engine.add_new_cond(cond),
        Err(RelationGraphError::DifferentArgumentNumber(name, 1, 2)) if name == "p"
    ));
}

#[test]
fn fill_graph_cond_test() {
    let mut g = RelationGraph::new(vec![inv_module("n")]);
    let cond = QueryParser::parse_condition("n > 3 or n = 1", None).expect("valid condition");
    let flat = fill_graph_cond(&mut g, cond).expect("known functions");
    assert_eq!(g.len(), 1);
    match flat {
        Condition::Or(l, r) => {
            assert!(matches!(*l, Condition::Comparison(Comparison::Greater(MathExpression::Primitif(FnArg::FnCall(ref f)), _)) if f.0 == "n" && f.1 == 0));
            assert!(matches!(*r, Condition::Comparison(Comparison::Equal(MathExpression::Primitif(FnArg::FnCall(ref f)), MathExpression::Primitif(FnArg::Constant(ConstantValue::Numeric(_))), None)) if f.0 == "n" && f.1 == 0));
        },
        _ => panic!("an or condition"),
    }
}
