use gquest_core::data_types::{ConstantValue, ValueType, ValueTypeError};
use gquest_core::db_tables::{
    check_remove_table, dataset_columns, get_create_columns_query, invariant_tables, module_table_columns,
    vertices_columns,
};
use gquest_core::graph_database::GraphDbRuntimeError;
use gquest_core::module::{Module, PathCheck, TypedArg};
use gquest_core::numeric::Numeric;

fn two_args() -> Module {
    Module::new(
        PathCheck::Executable("/modules/p.py".to_string()),
        "p".to_string(),
        vec![
            TypedArg { name: "graph".to_string(), data_type: ValueType::Graph },
            TypedArg { name: "k".to_string(), data_type: ValueType::Numeric },
        ],
        Vec::new(),
        ValueType::Bool,
        None,
    )
    .expect("valid module")
}

#[test]
fn create_columns_query_test() {
    assert_eq!(get_create_columns_query("dataset", &dataset_columns()), "CREATE TABLE dataset (canon VARCHAR(250))");
    assert_eq!(
        get_create_columns_query("n", &vertices_columns()),
        "CREATE TABLE n (canon VARCHAR(250), value REAL)"
    );
    assert_eq!(
        get_create_columns_query("p", &module_table_columns(&two_args())),
        "CREATE TABLE p (graph VARCHAR(250), k REAL, value INTEGER)"
    );
}

#[test]
fn remove_table_check_test() {
    assert_eq!(check_remove_table("p", true), Ok(()));
    assert_eq!(check_remove_table("DataSet", false), Ok(()));
    assert_eq!(
        check_remove_table("DataSet", true),
        Err(GraphDbRuntimeError::ForbiddenActionError {
            action: "Tried to remove the table \"dataset\" which is not allowed.".to_string()
        })
    );
}

#[test]
fn invariant_tables_test() {
    let names = vec!["dataset".to_string(), "p".to_string(), "n".to_string(), "chi".to_string()];
    assert_eq!(invariant_tables(names), vec!["p".to_string(), "chi".to_string()]);
}

#[test]
fn row_values_test() {
    let m = two_args();
    assert_eq!(
        m.row_values(vec!["A".to_string(), "2".to_string(), "true".to_string()]),
        Ok(vec![
            ConstantValue::String("A".to_string()),
            ConstantValue::Numeric(Numeric::parse("2").expect("number")),
            ConstantValue::Bool(true)
        ])
    );
    assert_eq!(
        m.row_values(vec!["A".to_string(), "x".to_string(), "true".to_string()]),
        Err(ValueTypeError::ParseImpossible(ValueType::Numeric, "x".to_string()))
    );
}
