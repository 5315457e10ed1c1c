use gquest_core::config::{from_json_data, ArgData, ConfigFileError, ModuleData};
use gquest_core::data_types::{ValueType, ValueTypeError};
use gquest_core::module::{Module, ModuleError, PathCheck, TypedArg};
use gquest_core::numeric::Numeric;

const VALID_EXEC_A: &str = "/tests/modules/a.py";
const VALID_EXEC_B: &str = "/tests/modules/b.py";
const VALID_EXEC_C: &str = "/tests/modules/c.py";

fn data(path: &str, function: &str, args: Option<Vec<(&str, &str)>>, output: &str, batch_size: Option<usize>) -> ModuleData {
    ModuleData {
        path: PathCheck::Executable(path.to_string()),
        given_path: path.to_string(),
        function: function.to_string(),
        args: args.map(|v| v.into_iter().map(|(n, c)| ArgData { name: n.to_string(), class: c.to_string() }).collect()),
        output: output.to_string(),
        batch_size,
    }
}

fn get_a_b_c_exec() -> Vec<Module> {
    let a = Module::new(
        PathCheck::Executable(VALID_EXEC_A.to_string()),
        "A".to_string(),
        vec![TypedArg { name: "n".to_string(), data_type: ValueType::Bool }],
        Vec::new(),
        ValueType::Numeric,
        None,
    )
    .expect("Correct inv");
    let b = Module::new_invariant(PathCheck::Executable(VALID_EXEC_B.to_string()), "B".to_string(), ValueType::String, None)
        .expect("Correct inv");
    let c = Module::new_invariant(PathCheck::Executable(VALID_EXEC_C.to_string()), "C".to_string(), ValueType::Numeric, Some(100))
        .expect("Correct inv");
    vec![a, b, c]
}

#[test]
fn from_value_test() {
    let modules_data = vec![
        data(VALID_EXEC_A, "A", Some(vec![("n", "bool")]), "numeric", None),
        data(VALID_EXEC_B, "B", None, "string", None),
        data(VALID_EXEC_C, "C", None, "numeric", Some(100)),
    ];
    let modules_ref = get_a_b_c_exec();

    let config_file = from_json_data(modules_data, None, Some(6500), None).expect("no error");

    let modules = config_file.get_module_refs();
    for module in modules {
        let expected = modules_ref.iter().find(|m| m.fn_name == module.fn_name).expect("fun name present");
        assert_eq!(module, expected);
    }
    assert_eq!(config_file.get_batch_size(), 6500);
    assert_eq!(config_file.get_nb_threads(), 1);
}

#[test]
fn empty_modules_test() {
    assert!(matches!(from_json_data(Vec::new(), None, Some(3), None), Err(ConfigFileError::NoInvariantError)));
}

#[test]
fn config_errors_test() {
    let same = vec![data(VALID_EXEC_A, "A", None, "numeric", None), data(VALID_EXEC_B, "A", None, "numeric", None)];
    assert!(matches!(
        from_json_data(same, None, None, None),
        Err(ConfigFileError::SameFunctionNameError(p1, p2)) if p1 == VALID_EXEC_A && p2 == VALID_EXEC_B
    ));
    let bad_class = vec![data(VALID_EXEC_A, "A", Some(vec![("n", "Real")]), "numeric", None)];
    assert!(matches!(
        from_json_data(bad_class, None, None, None),
        Err(ConfigFileError::ArgParseError(ValueTypeError::UnknownType(n))) if n == "real"
    ));
    let no_args = vec![data(VALID_EXEC_A, "A", Some(Vec::new()), "numeric", None)];
    assert!(matches!(from_json_data(no_args, None, None, None), Err(ConfigFileError::InvariantError(ModuleError::NoArgs))));
    let config = from_json_data(vec![data(VALID_EXEC_A, "A", None, "NUMERIC", None)], Numeric::parse("0.01"), None, Some(4)).expect("valid");
    assert_eq!(config.get_batch_size(), 5000);
    assert_eq!(config.get_nb_threads(), 4);
    assert_eq!(config.get_epsilon().as_ref().map(|e| e.text()), Some("0.01".to_string()));
}
