use gquest_core::data_types::{ConstantValue, ValueType, ValueTypeError};
use gquest_core::geng::{geng_args, to_signature_vector, GraphArgs};
use gquest_core::module::{ExecAction, ExecErrorReason, ExecEvent, Module, ModuleError, PathCheck, TypedArg};
use gquest_core::numeric::Numeric;
use gquest_core::output::{as_line, stdout_line};

fn two_args() -> Module {
    Module::new(
        PathCheck::Executable("/modules/p.py".to_string()),
        "p".to_string(),
        vec![
            TypedArg { name: "graph".to_string(), data_type: ValueType::Graph },
            TypedArg { name: "k".to_string(), data_type: ValueType::Numeric },
        ],
        Vec::new(),
        ValueType::Numeric,
        None,
    )
    .expect("valid module")
}

#[test]
fn exec_step_batches_test() {
    let m = two_args();
    let (w, a) = m.exec_step(0, 2, ExecEvent::Input(vec!["A".to_string(), "1".to_string()])).expect("two values");
    assert_eq!(w, 1);
    assert_eq!(a, ExecAction::Write("A 1\n".to_string()));
    let (w, a) = m.exec_step(w, 2, ExecEvent::Input(vec!["B".to_string(), "2".to_string()])).expect("two values");
    assert_eq!(w, 0);
    assert_eq!(a, ExecAction::WriteAndCollect("B 2\n".to_string(), 2));
    let (w, a) = m.exec_step(w, 2, ExecEvent::Input(vec!["C".to_string(), "3".to_string()])).expect("two values");
    assert_eq!((w, a), (1, ExecAction::Write("C 3\n".to_string())));
    assert_eq!(m.exec_step(w, 2, ExecEvent::InputEnded).expect("ends"), (0, ExecAction::CollectAndFinish(1)));
    assert_eq!(m.exec_step(0, 2, ExecEvent::InputEnded).expect("ends"), (0, ExecAction::Finish));
}

#[test]
fn exec_step_error_test() {
    let m = two_args();
    let e = m.exec_step(0, 2, ExecEvent::Input(vec!["A".to_string()])).expect_err("one value only");
    assert_eq!(e.fn_name, "p");
    assert_eq!(e.path, "/modules/p.py");
    assert!(matches!(e.reason, ExecErrorReason::UnexpectedInput(1, 2)));
}

#[test]
fn output_values_test() {
    let m = two_args();
    assert_eq!(m.output_values("A 1 7").expect("three values"), vec!["A", "1", "7"]);
    let e = m.output_values("A 1").expect_err("two values only");
    assert!(matches!(e.reason, ExecErrorReason::UnexpectedOutput(2, 3)));
}

#[test]
fn module_new_errors_test() {
    assert!(matches!(
        Module::new(PathCheck::Executable("/m".to_string()), "p".to_string(), Vec::new(), Vec::new(), ValueType::Numeric, None),
        Err(ModuleError::NoArgs)
    ));
    assert!(matches!(
        Module::new_invariant(PathCheck::Executable("/m".to_string()), "graph".to_string(), ValueType::Numeric, None),
        Err(ModuleError::ReturnSelf(n)) if n == "graph"
    ));
}

#[test]
fn value_types_test() {
    assert_eq!(ValueType::Numeric.translate_into_const("2.50".to_string()), Ok(ConstantValue::Numeric(Numeric::parse("2.5").expect("number"))));
    assert_eq!(ValueType::Bool.translate_into_const("true".to_string()), Ok(ConstantValue::Bool(true)));
    assert_eq!(
        ValueType::Bool.translate_into_const("yes".to_string()),
        Err(ValueTypeError::ParseImpossible(ValueType::Bool, "yes".to_string()))
    );
    assert_eq!(ValueType::Graph.translate_into_const("A".to_string()), Ok(ConstantValue::String("A".to_string())));
    assert_eq!(ValueType::try_from_name("NUMERIC".to_string()), Ok(ValueType::Numeric));
    assert!(matches!(ValueType::try_from_name("Real".to_string()), Err(ValueTypeError::UnknownType(n)) if n == "real"));
    assert_eq!(ValueType::Graph.name(), "Graph");
}

#[test]
fn numeric_writing_test() {
    assert_eq!(Numeric::parse("01.50").expect("number").text(), Numeric::parse("1.5").expect("number").text());
    assert!(Numeric::parse("1.5").expect("number").same(&Numeric::parse("1.50").expect("number")));
    assert!(Numeric::parse("abc").is_none());
}

#[test]
fn lines_test() {
    assert_eq!(as_line(&vec!["a".to_string(), "b".to_string()], ','), "a,b\n");
    assert_eq!(stdout_line(&vec!["a".to_string(), "b".to_string()]), "a, b");
}

#[test]
fn geng_test() {
    assert_eq!(
        geng_args(7, &vec![GraphArgs::Connected, GraphArgs::LowerBoundMinimumDegree(2)]),
        vec!["-cd2".to_string(), "7".to_string(), "-q".to_string()]
    );
    assert_eq!(to_signature_vector("A\nBw\nC"), vec!["A".to_string(), "Bw".to_string()]);
}
