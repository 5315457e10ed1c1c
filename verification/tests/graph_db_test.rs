use gquest_core::data_types::ConstantValue;
use gquest_core::dialect::{get_insert_into_query, SqlDialect};
use gquest_core::graph_database::{
    compute_module_plan, create_safe_insert_query, create_safe_signature_query, get_nb_vertices, GraphDbRuntimeError,
    QueryPart,
};
use gquest_core::data_types::ValueType;
use gquest_core::expr::MathExpression;
use gquest_core::module::{Module, PathCheck};
use gquest_core::numeric::Numeric;
use gquest_core::rel_graph::FnArg;

fn inv_module(name: &str, batch: Option<usize>) -> Module {
    Module::new_invariant(PathCheck::Executable(format!("/modules/{name}.py")), name.to_string(), ValueType::Numeric, batch)
        .expect("valid module")
}

#[test]
fn nb_vertices_test() {
    assert_eq!(get_nb_vertices("A"), Ok(2));
    assert_eq!(get_nb_vertices("  Bw \n"), Ok(3));
    assert_eq!(get_nb_vertices("?"), Ok(0));
    assert_eq!(get_nb_vertices("~??~"), Ok(63));
    assert_eq!(get_nb_vertices("~?@??"), Ok(64));
    assert_eq!(get_nb_vertices("~@??"), Ok(4096));
    assert_eq!(get_nb_vertices("~}~~"), Ok(258047));
    assert_eq!(get_nb_vertices("B?"), Ok(3));
    assert_eq!(get_nb_vertices("Bw"), Ok(3));
    assert_eq!(get_nb_vertices(" Dhc\n"), Ok(5));
    assert_eq!(get_nb_vertices("~~???~??"), Ok(258048));
    assert_eq!(get_nb_vertices("~~?@????"), Ok(1 << 24));
    assert_eq!(get_nb_vertices("\u{3000}A\u{2009}"), Ok(2));
}

#[test]
fn nb_vertices_errors_test() {
    assert_eq!(get_nb_vertices(""), Err(GraphDbRuntimeError::InvalidSignature("".to_string())));
    assert_eq!(get_nb_vertices("   "), Err(GraphDbRuntimeError::InvalidSignature("".to_string())));
    assert_eq!(get_nb_vertices(" A b "), Err(GraphDbRuntimeError::InvalidSignature("A b".to_string())));
    assert_eq!(get_nb_vertices("~??"), Err(GraphDbRuntimeError::InvalidSignature("~??".to_string())));
    assert_eq!(get_nb_vertices("~~??????"), Ok(0));
    assert_eq!(get_nb_vertices("~~????"), Err(GraphDbRuntimeError::InvalidSignature("~~????".to_string())));
}

#[test]
fn insert_query_test() {
    assert_eq!(get_insert_into_query(SqlDialect::Sqlite, "dataset", 1, 2), "INSERT OR REPLACE INTO dataset VALUES (?), (?);");
    assert_eq!(
        get_insert_into_query(SqlDialect::Postgres, "n", 2, 1),
        "INSERT INTO n VALUES (?, ?) ON CONFLICT DO NOTHING;"
    );
}

#[test]
fn safe_insert_query_test() {
    let rows = vec![
        vec![ConstantValue::String("A".to_string()), ConstantValue::Numeric(Numeric::parse("2").expect("number"))],
        vec![ConstantValue::Identifier("B".to_string()), ConstantValue::Numeric(Numeric::parse("3").expect("number"))],
    ];
    let parts = create_safe_insert_query("(?,?),(?,?)", 2, &rows).expect("enough values");
    let expected = vec![
        QueryPart::Char('('),
        QueryPart::Text("A".to_string()),
        QueryPart::Char(','),
        QueryPart::Number(Numeric::parse("2").expect("number")),
        QueryPart::Char(')'),
        QueryPart::Char(','),
        QueryPart::Char('('),
        QueryPart::Text("B".to_string()),
        QueryPart::Char(','),
        QueryPart::Number(Numeric::parse("3").expect("number")),
        QueryPart::Char(')'),
    ];
    assert_eq!(parts, expected);
}

#[test]
fn safe_signature_query_test() {
    let sigs = vec!["A".to_string(), "Bw".to_string()];
    let parts = create_safe_signature_query(SqlDialect::Sqlite, "v ?,?;", &sigs).expect("enough signatures");
    assert_eq!(
        parts,
        vec![
            QueryPart::Char('v'),
            QueryPart::Char(' '),
            QueryPart::Text("A".to_string()),
            QueryPart::Char(','),
            QueryPart::Text("Bw".to_string()),
            QueryPart::Char(';'),
        ]
    );
}

#[test]
fn safe_signature_query_error_test() {
    let sigs = vec!["A".to_string()];
    assert_eq!(
        create_safe_signature_query(SqlDialect::Sqlite, "v ?, ?, ?", &sigs),
        Err(GraphDbRuntimeError::QueryCreationError("v ?, ".to_string()))
    );
    assert_eq!(
        create_safe_signature_query(SqlDialect::Postgres, "v ?, ?, ?", &sigs),
        Err(GraphDbRuntimeError::QueryCreationError("v $1, ".to_string()))
    );
}

#[test]
fn module_plan_test() {
    let module = inv_module("n", Some(10));
    let args = vec![MathExpression::Primitif(FnArg::Dataset)];
    let (batch, query) = compute_module_plan(&module, &args, None, Vec::new(), 100, false);
    assert_eq!(batch, 10);
    assert_eq!(query.to_sql(), "SELECT DISTINCT dataset.canon FROM dataset");

    let (batch, query) = compute_module_plan(&inv_module("m", None), &args, None, Vec::new(), 100, true);
    assert_eq!(batch, 100);
    assert_eq!(
        query.to_sql(),
        "SELECT DISTINCT dataset.canon FROM dataset WHERE NOT(EXISTS(SELECT * FROM m WHERE graph = dataset.canon))"
    );
}
