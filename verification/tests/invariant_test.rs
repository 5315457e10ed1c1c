use gquest_core::invariant_execs::{Module, ModuleError, ModuleIterator, ModuleSorter};
use gquest_core::module::PathCheck;
use gquest_core::invariants::{InvariantErrors, InvariantsExecutable, PathLookup};

const VALID_EXEC_A: &str = "/modules/a.py";
const VALID_EXEC_B: &str = "/modules/b.py";
const VALID_EXEC_C: &str = "/modules/c.py";
const UNVALID_EXEC: &str = "/modules/non_executable.py";

fn exec(path: &str) -> PathCheck {
    PathCheck::Executable(path.to_string())
}

fn names(v: &[&str]) -> Vec<String> {
    v.iter().map(|s| s.to_string()).collect()
}

fn collect_all(mut it: ModuleIterator) -> Vec<Module> {
    let mut out = Vec::new();
    while let Some(m) = it.next() {
        out.push(m);
    }
    out
}

fn get_a_b_c_exec() -> (Module, Module, Module) {
    let a = Module::new(exec(VALID_EXEC_A), names(&["a"]), names(&["b", "c"])).expect("Correct inv");
    let b = Module::new(exec(VALID_EXEC_B), names(&["b"]), names(&["c"])).expect("Correct inv");
    let c = Module::new_no_dep(exec(VALID_EXEC_C), names(&["c"])).expect("Correct inv");
    (a, b, c)
}

#[test]
fn new_inv_exec_path_test() {
    let _ = Module::new_no_dep(exec(VALID_EXEC_A), names(&["size"])).expect("Correct path");

    if Module::new_no_dep(PathCheck::Missing("WRONG_PATH.py".to_string()), names(&["size"])).is_ok() {
        panic!("Should return Err")
    }
}

#[test]
fn new_non_exec_inv_exec_test() {
    if Module::new_no_dep(PathCheck::NotExecutable(UNVALID_EXEC.to_string()), names(&["size"])).is_ok() {
        panic!("Should return Err")
    }
}

#[test]
fn new_inv_exec_name_test() {
    let _ = Module::new_no_dep(exec(VALID_EXEC_A), names(&["size"])).expect("Correct name");

    if Module::new_no_dep(exec(VALID_EXEC_A), names(&["3size"])).is_ok() {
        panic!("Should return Err");
    }

    if Module::new_no_dep(exec(VALID_EXEC_A), names(&["🫡fail"])).is_ok() {
        panic!("Should return Err");
    }

    if Module::new_no_dep(exec(VALID_EXEC_A), names(&["fail space"])).is_ok() {
        panic!("Should return Err");
    }
}

#[test]
fn new_inv_exec_rely_self_test() {
    if Module::new(exec(VALID_EXEC_A), names(&["invariant"]), names(&["one", "invariant"])).is_ok() {
        panic!("Should return Err");
    }
}

#[test]
fn new_correct_inv_order_test() {
    let (a, b, c) = get_a_b_c_exec();

    let mut order = ModuleSorter::new();
    order.add_inv_exec(a.clone()).expect("no issues");
    order.add_inv_exec(b.clone()).expect("no issues");
    order.add_inv_exec(c.clone()).expect("no issues");

    let ordered_executables = order.sort().expect("no issues");
    assert_eq!(c, ordered_executables[0]);
    assert_eq!(b, ordered_executables[1]);
    assert_eq!(a, ordered_executables[2]);
}

#[test]
fn new_incorrect_inv_test() {
    let a = Module::new(exec(VALID_EXEC_A), names(&["a"]), names(&["b", "c"])).expect("Correct inv");
    let b = Module::new(exec(VALID_EXEC_B), names(&["b", "a"]), names(&["c"])).expect("Correct inv");

    let mut order = ModuleSorter::new();
    order.add_inv_exec(a.clone()).expect("no issues");
    if order.add_inv_exec(a).is_ok() {
        panic!("should be an error");
    }

    if order.add_inv_exec(b).is_ok() {
        panic!("should be an error");
    }
}

#[test]
fn new_cycle_inv_order_test() {
    let a = Module::new(exec(VALID_EXEC_A), names(&["a"]), names(&["b", "c"])).expect("Correct inv");
    let b = Module::new(exec(VALID_EXEC_B), names(&["b"]), names(&["c"])).expect("Correct inv");
    let c = Module::new(exec(VALID_EXEC_C), names(&["c"]), names(&["a"])).expect("Correct inv");

    let mut order = ModuleSorter::new();
    order.add_inv_exec(a.clone()).expect("no issues");
    order.add_inv_exec(b.clone()).expect("no issues");
    order.add_inv_exec(c.clone()).expect("no issues");

    if order.sort().is_ok() {
        panic!("Should be cycle error")
    }
}

#[test]
fn new_dep_missing_inv_order_test() {
    let a = Module::new(exec(VALID_EXEC_A), names(&["a"]), names(&["b", "c"])).expect("Correct inv");
    let b = Module::new(exec(VALID_EXEC_B), names(&["b"]), names(&["d"])).expect("Correct inv");
    let c = Module::new_no_dep(exec(VALID_EXEC_C), names(&["c"])).expect("Correct inv");

    let mut order = ModuleSorter::new();
    order.add_inv_exec(a.clone()).expect("no issues");
    order.add_inv_exec(b.clone()).expect("no issues");
    order.add_inv_exec(c.clone()).expect("no issues");

    assert!(matches!(order.sort(), Err(ModuleError::MissingDependency(_, _))));
}

#[test]
fn new_exec_iterator_test() {
    let (a, b, c) = get_a_b_c_exec();

    let order = ModuleSorter::from_modules(vec![a.clone(), b.clone(), c.clone()]).expect("ok");

    let man = order.to_iter().expect("no error");

    let execs_sorted: Vec<Module> = collect_all(man);

    assert!(execs_sorted[0].eq(&c));
    assert!(execs_sorted[1].eq(&b));
    assert!(execs_sorted[2].eq(&a));
}

#[test]
fn new_exec_group_test_no_dep() {
    let a = Module::new_no_dep(exec(VALID_EXEC_A), names(&["a"])).expect("Correct inv");
    let b = Module::new_no_dep(exec(VALID_EXEC_B), names(&["b"])).expect("Correct inv");
    let c = Module::new_no_dep(exec(VALID_EXEC_C), names(&["c", "d"])).expect("Correct inv");

    let order = ModuleSorter::from_modules(vec![a.clone(), c.clone(), b.clone()]).expect("ok");

    let man = order.to_iter().expect("no error");

    let execs_sorted: Vec<Module> = collect_all(man);
    assert_eq!(3, execs_sorted.len());
    assert!(execs_sorted.contains(&c));
    assert!(execs_sorted.contains(&b));
    assert!(execs_sorted.contains(&a));
}

// ______________________________ further cases

#[test]
fn sorter_error_variants_test() {
    let (a, b, _) = get_a_b_c_exec();
    let mut order = ModuleSorter::new();
    order.add_inv_exec(a.clone()).expect("no issues");
    assert_eq!(order.add_inv_exec(a.clone()), Err(ModuleError::AlreadyAddedModule(VALID_EXEC_A.to_string())));
    let other = Module::new_no_dep(exec(VALID_EXEC_B), names(&["a"])).expect("Correct inv");
    assert_eq!(order.add_inv_exec(other), Err(ModuleError::AlreadyAddedInvariant("a".to_string())));
    order.add_inv_exec(b).expect("no issues");
    assert_eq!(order.len(), 2);
    assert!(!order.is_empty());
    assert_eq!(
        order.sort(),
        Err(ModuleError::MissingDependency("c".to_string(), VALID_EXEC_A.to_string()))
    );
}

#[test]
fn module_errors_test() {
    assert_eq!(
        Module::new_no_dep(PathCheck::Missing("/x".to_string()), names(&["a"])),
        Err(ModuleError::InvalidPath("/x".to_string()))
    );
    assert_eq!(
        Module::new_no_dep(PathCheck::NotExecutable("/x".to_string()), names(&["a"])),
        Err(ModuleError::NotExecutable("/x".to_string()))
    );
    assert_eq!(
        Module::new_no_dep(PathCheck::IoError("denied".to_string()), names(&["a"])),
        Err(ModuleError::IoError("denied".to_string()))
    );
    assert_eq!(
        Module::new_no_dep(exec(VALID_EXEC_A), names(&["ok", "3bad"])),
        Err(ModuleError::InvalidName("3bad".to_string()))
    );
    assert_eq!(
        Module::new(exec(VALID_EXEC_A), names(&["a"]), names(&["a"])),
        Err(ModuleError::DependsOnSelf("a".to_string()))
    );
    let m = Module::new(exec(VALID_EXEC_A), names(&["a"]), Vec::new()).expect("no deps");
    assert_eq!(m.dependencies, None);
}

#[test]
fn module_display_text_test() {
    let m = Module::new_no_dep(exec(VALID_EXEC_A), names(&["a", "b"])).expect("Correct inv");
    assert_eq!(m.display_text(), "{a, b}");
    let empty = Module { exec_path: VALID_EXEC_A.to_string(), invariant_names: Vec::new(), dependencies: None };
    assert_eq!(empty.display_text(), "}");
}

#[test]
fn iterator_hands_out_after_dependencies_test() {
    let (a, b, c) = get_a_b_c_exec();
    let order = ModuleSorter::from_modules(vec![a.clone(), b.clone(), c.clone()]).expect("ok");
    let mut it = order.to_iter().expect("no error");
    assert!(it.has_next());
    assert!(!it.is_finished());
    let first = it.next_module().expect("c is ready");
    assert_eq!(first, c);
    // b waits for c to be done.
    assert_eq!(it.next_module(), None);
    it.update_dependencies(&first);
    assert_eq!(it.next_module(), Some(b.clone()));
    it.update_dependencies(&b);
    assert_eq!(it.next_module(), Some(a.clone()));
    it.update_dependencies(&a);
    assert!(it.is_finished());
    assert_eq!(it.next(), None);
}

#[test]
fn sort_cycle_error_test() {
    let a = Module::new(exec(VALID_EXEC_A), names(&["a"]), names(&["b"])).expect("Correct inv");
    let b = Module::new(exec(VALID_EXEC_B), names(&["b"]), names(&["a"])).expect("Correct inv");
    let order = ModuleSorter::from_modules(vec![a, b]).expect("ok");
    assert_eq!(order.sort(), Err(ModuleError::DependencyCycle));
}

#[test]
fn new_from_needed_modules_test() {
    let (a, b, c) = get_a_b_c_exec();
    let other = Module::new_no_dep(exec("/modules/other.py"), names(&["other"])).expect("Correct inv");
    let all = vec![a.clone(), b.clone(), c.clone(), other];
    let sorter = ModuleSorter::new_from(all, vec!["a".to_string()]).expect("all known");
    assert_eq!(sorter.len(), 3);
    let sorted = sorter.sort().expect("no cycle");
    assert_eq!(sorted, vec![c, b, a]);
}

#[test]
fn new_from_unknown_invariant_test() {
    let (a, b, c) = get_a_b_c_exec();
    assert_eq!(
        ModuleSorter::new_from(vec![a.clone(), b.clone(), c.clone()], vec!["z".to_string()]).map(|s| s.len()),
        Err(ModuleError::UnknownInvariant("z".to_string()))
    );
    let without_c = vec![a, b];
    assert_eq!(
        ModuleSorter::new_from(without_c, vec!["a".to_string()]).map(|s| s.len()),
        Err(ModuleError::UnknownInvariant("c".to_string()))
    );
}

#[test]
fn invariants_executable_keeps_absolute_path_test() {
    let names = vec!["order".to_string(), "size_2".to_string()];
    let deps = vec!["chi".to_string()];
    let r = InvariantsExecutable::new(PathLookup::Found("/opt/inv/run".to_string()), names.clone(), deps.clone());
    assert_eq!(r, Ok(InvariantsExecutable { exec_path: "/opt/inv/run".to_string(), names, dependencies: deps }));
}

#[test]
fn invariants_executable_errors_test() {
    let r = InvariantsExecutable::new(PathLookup::Missing("run".to_string()), vec!["2bad".to_string()], vec![]);
    assert_eq!(r, Err(InvariantErrors::InvalidPath("run".to_string())));
    let r = InvariantsExecutable::new(
        PathLookup::Found("/opt/run".to_string()),
        vec!["ok".to_string(), "2bad".to_string(), "é".to_string()],
        vec![],
    );
    assert_eq!(r, Err(InvariantErrors::InvalidName("2bad".to_string())));
}
