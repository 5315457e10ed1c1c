//! The configuration of a workplace: the modules it can run, the size of the
//! batches of values sent to them and the number of threads to use, built
//! from the data of a configuration file.
use vstd::prelude::*;
use crate::data_types::{ValueType, ValueTypeError, spec_to_lowercase, type_of_name};
use crate::numeric::Numeric;
use crate::module::{Module, ModuleError, PathCheck, TypedArg, args_error, checked_path, path_error, same_error};

verus! {

/// An argument of a module as a configuration file gives it: a name and the
/// name of a type.
#[derive(Debug)]
pub struct ArgData {
    pub name: String,
    pub class: String,
}

/// A module as a configuration file gives it.
#[derive(Debug)]
pub struct ModuleData {
    /// What a look at the module's path found.
    pub path: PathCheck,
    /// The path as the file gives it (joined to the file's directory).
    pub given_path: String,
    /// The name of the function the module computes.
    pub function: String,
    /// The arguments of the function; without them, the module computes an
    /// invariant of a graph.
    pub args: Option<Vec<ArgData>>,
    /// The name of the type of the function's values.
    pub output: String,
    pub batch_size: Option<usize>,
}

/// Errors while reading a configuration.
#[derive(Debug)]
pub enum ConfigFileError {
    /// The file could not be opened: the reason, then the path.
    FileError(String, String),
    /// The file is no valid configuration, with the reason.
    JsonError(String),
    /// A module could not be created.
    InvariantError(ModuleError),
    /// No module is given.
    NoInvariantError,
    /// A type name is unknown.
    ArgParseError(ValueTypeError),
    /// Two modules, at the two paths, compute functions of the same name.
    SameFunctionNameError(String, String),
}

/// The configuration of a workplace. It holds at least one module, and no two
/// of them compute functions of the same name.
#[derive(Debug)]
pub struct ConfigFile {
    /// The precision to use when checking whether two numbers are equal.
    epsilon: Option<Numeric>,
    batch_size: usize,
    nb_threads: usize,
    modules: Vec<Module>,
}

/// The type named `c`, whatever its case.
pub open spec fn class_type(c: Seq<char>) -> Option<ValueType> {
    type_of_name(spec_to_lowercase(c))
}

/// The lowercase name of the first argument whose type name is unknown.
pub open spec fn classes_error(a: Seq<ArgData>) -> Option<Seq<char>>
    decreases a.len(),
{
    if a.len() == 0 {
        None
    } else if class_type(a[0].class@) is None {
        Some(spec_to_lowercase(a[0].class@))
    } else {
        classes_error(a.skip(1))
    }
}

/// The typed arguments of the given arguments, their types known.
pub open spec fn typed_args(a: Seq<ArgData>) -> Seq<TypedArg> {
    Seq::new(a.len(), |i: int| TypedArg { name: a[i].name, data_type: class_type(a[i].class@)->0 })
}

/// Why a module cannot be built from its data.
pub ghost enum BuildError {
    /// The type name is unknown (lowercase).
    UnknownType(Seq<char>),
    /// The module refused its path or its names.
    Module(ModuleError),
}

/// Why the module of `d` cannot be built, if it cannot: the first unknown
/// type name among its arguments, then an unknown output type, then what the
/// module itself refuses.
pub open spec fn build_error(d: ModuleData) -> Option<BuildError> {
    match d.args {
        Some(a) => match classes_error(a@) {
            Some(n) => Some(BuildError::UnknownType(n)),
            None => if class_type(d.output@) is None {
                Some(BuildError::UnknownType(spec_to_lowercase(d.output@)))
            } else if a@.len() == 0 {
                Some(BuildError::Module(ModuleError::NoArgs))
            } else {
                match path_error(d.path) {
                    Some(e) => Some(BuildError::Module(e)),
                    None => match args_error(d.function, typed_args(a@)) {
                        Some(e) => Some(BuildError::Module(e)),
                        None => None,
                    },
                }
            },
        },
        None => if class_type(d.output@) is None {
            Some(BuildError::UnknownType(spec_to_lowercase(d.output@)))
        } else {
            match path_error(d.path) {
                Some(e) => Some(BuildError::Module(e)),
                None => if d.function@ == "graph"@ {
                    Some(BuildError::Module(ModuleError::ReturnSelf(d.function)))
                } else {
                    None
                },
            }
        },
    }
}

/// `e` is the error for the reason `b`.
pub open spec fn error_is(e: ConfigFileError, b: BuildError) -> bool {
    match b {
        BuildError::UnknownType(n) => e matches ConfigFileError::ArgParseError(ValueTypeError::UnknownType(x)) && x@ == n,
        BuildError::Module(m) => e matches ConfigFileError::InvariantError(x) && same_error(x, m),
    }
}

/// `m` is the module built from `d`.
pub open spec fn built_module(d: ModuleData, m: Module) -> bool {
    &&& m.exec_path == checked_path(d.path)
    &&& m.fn_name == d.function
    &&& m.output == class_type(d.output@)->0
    &&& m.batch_size == d.batch_size
    &&& m.add_args@.len() == 0
    &&& match d.args {
        Some(a) => m.args@ == typed_args(a@),
        None => m.args@.len() == 1 && m.args@[0].name@ == "graph"@ && m.args@[0].data_type == ValueType::Graph,
    }
}

/// The first `k` modules of `data` can be built, and compute functions of
/// distinct names.
pub open spec fn data_ok_upto(data: Seq<ModuleData>, k: int) -> bool {
    &&& forall|i: int| 0 <= i < k ==> (#[trigger] build_error(data[i])) is None
    &&& forall|i1: int, i2: int| 0 <= i1 < i2 < k ==> #[trigger] data[i1].function@ != #[trigger] data[i2].function@
}

impl ConfigFile {
    pub closed spec fn modules_view(&self) -> Seq<Module> {
        self.modules@
    }

    pub closed spec fn epsilon_view(&self) -> Option<Numeric> {
        self.epsilon
    }

    /// The precision to use when checking whether two numbers are equal.
    pub fn get_epsilon(&self) -> (r: &Option<Numeric>)
        ensures
            *r == self.epsilon_view(),
    {
        &self.epsilon
    }

    pub closed spec fn batch_size_view(&self) -> usize {
        self.batch_size
    }

    pub closed spec fn nb_threads_view(&self) -> usize {
        self.nb_threads
    }

    /// The modules, one per function name.
    pub fn get_module_refs(&self) -> (r: &Vec<Module>)
        ensures
            r@ == self.modules_view(),
    {
        &self.modules
    }

    /// The largest number of values sent to a module at once.
    pub fn get_batch_size(&self) -> (r: usize)
        ensures
            r == self.batch_size_view(),
    {
        self.batch_size
    }

    /// The largest number of threads to use.
    pub fn get_nb_threads(&self) -> (r: usize)
        ensures
            r == self.nb_threads_view(),
    {
        self.nb_threads
    }
}

/// Builds the typed arguments of the given arguments.
/// # Errors
/// [`ConfigFileError::ArgParseError`] for the first unknown type name.
fn build_args(args: Vec<ArgData>) -> (r: Result<Vec<TypedArg>, ConfigFileError>)
    ensures
        match classes_error(args@) {
            Some(n) => r matches Err(e) && error_is(e, BuildError::UnknownType(n)),
            None => r matches Ok(v) && v@ == typed_args(args@),
        },
{
    let ghost all = args@;
    let mut rest = args;
    let mut out: Vec<TypedArg> = Vec::new();
    let mut failed: Option<ValueTypeError> = None;
    let ghost mut k: int = 0;
    while rest.len() > 0
        invariant_except_break
            0 <= k <= all.len(),
            rest@ == all.skip(k),
            classes_error(all) == classes_error(all.skip(k)),
            out@ == typed_args(all.take(k)),
            failed is None,
        ensures
            failed matches Some(e) ==> classes_error(all) matches Some(n) && error_is(ConfigFileError::ArgParseError(e), BuildError::UnknownType(n)),
            failed is None ==> classes_error(all) is None && out@ == typed_args(all),
        decreases rest.len(),
    {
        let a = rest.remove(0);
        proof {
            assert(all.skip(k)[0] == a);
            assert(all.skip(k).skip(1) =~= all.skip(k + 1));
        }
        match ValueType::try_from_name(a.class) {
            Ok(t) => {
                out.push(TypedArg { name: a.name, data_type: t });
                proof {
                    assert(out@ =~= typed_args(all.take(k + 1)));
                    k = k + 1;
                }
            },
            Err(e) => {
                failed = Some(e);
                break;
            },
        }
        proof {
            if rest.len() == 0 {
                assert(all.take(k) =~= all);
                assert(all.skip(k).len() == 0);
            }
        }
    }
    proof {
        if all.len() == 0 {
            assert(all.take(0) =~= all);
        }
    }
    match failed {
        Some(e) => Err(ConfigFileError::ArgParseError(e)),
        None => Ok(out),
    }
}

/// Builds the module of `d`.
/// # Errors
/// See [`build_error`].
fn build_module(d: ModuleData) -> (r: Result<Module, ConfigFileError>)
    ensures
        match build_error(d) {
            Some(b) => r matches Err(e) && error_is(e, b),
            None => r matches Ok(m) && built_module(d, m),
        },
{
    let ghost d0 = d;
    match d.args {
        Some(args) => {
            let typed = match build_args(args) {
                Ok(t) => t,
                Err(e) => return Err(e),
            };
            let output = match ValueType::try_from_name(d.output) {
                Ok(t) => t,
                Err(e) => return Err(ConfigFileError::ArgParseError(e)),
            };
            match Module::new(d.path, d.function, typed, Vec::new(), output, d.batch_size) {
                Ok(m) => Ok(m),
                Err(e) => Err(ConfigFileError::InvariantError(e)),
            }
        },
        None => {
            let output = match ValueType::try_from_name(d.output) {
                Ok(t) => t,
                Err(e) => return Err(ConfigFileError::ArgParseError(e)),
            };
            match Module::new_invariant(d.path, d.function, output, d.batch_size) {
                Ok(m) => Ok(m),
                Err(e) => Err(ConfigFileError::InvariantError(e)),
            }
        },
    }
}

/// The position of a module among `modules` that computes a function named `name`.
fn find_function(modules: &Vec<Module>, name: &String) -> (r: Option<usize>)
    ensures
        match r {
            Some(i) => i < modules@.len() && modules@[i as int].fn_name@ == name@,
            None => forall|i: int| 0 <= i < modules@.len() ==> (#[trigger] modules@[i]).fn_name@ != name@,
        },
{
    let mut i: usize = 0;
    while i < modules.len()
        invariant
            i <= modules@.len(),
            forall|j: int| 0 <= j < i ==> (#[trigger] modules@[j]).fn_name@ != name@,
        decreases modules.len() - i,
    {
        if modules[i].fn_name == *name {
            return Some(i);
        }
        i += 1;
    }
    None
}

/// Builds a configuration from the modules of a configuration file, the
/// size of the batches (5000 by default) and the number of threads (1 by
/// default).
/// # Errors
/// [`ConfigFileError::NoInvariantError`] when no module is given. Otherwise,
/// at the first module that computes a function of the same name as an
/// earlier one, [`ConfigFileError::SameFunctionNameError`] with the path of
/// the earlier one and the given path of this one; at the first module that
/// cannot be built, the reason (see [`build_error`]).
pub fn from_json_data(data: Vec<ModuleData>, epsilon: Option<Numeric>, batch_size: Option<usize>, nb_threads: Option<usize>) -> (r: Result<
    ConfigFile,
    ConfigFileError,
>)
    ensures
        data@.len() == 0 ==> r matches Err(ConfigFileError::NoInvariantError),
        data@.len() > 0 && data_ok_upto(data@, data@.len() as int) ==> (r matches Ok(c) && {
            &&& c.modules_view().len() == data@.len()
            &&& c.epsilon_view() == epsilon
            &&& forall|i: int| 0 <= i < data@.len() ==> built_module(data@[i], #[trigger] c.modules_view()[i])
            &&& c.batch_size_view() == match batch_size {
                Some(b) => b,
                None => 5000,
            }
            &&& c.nb_threads_view() == match nb_threads {
                Some(n) => n,
                None => 1,
            }
        }),
        data@.len() > 0 && !data_ok_upto(data@, data@.len() as int) ==> exists|j: int|
            0 <= j < data@.len() && #[trigger] data_ok_upto(data@, j) && (r matches Err(e) && {
                ||| exists|i: int|
                    0 <= i < j && #[trigger] data@[i].function@ == data@[j].function@ && (e matches ConfigFileError::SameFunctionNameError(
                        p1,
                        p2,
                    ) && p1@ == checked_path(data@[i].path)@ && p2@ == data@[j].given_path@)
                ||| (forall|i: int| 0 <= i < j ==> #[trigger] data@[i].function@ != data@[j].function@) && (build_error(data@[j]) matches Some(
                    b,
                ) && error_is(e, b))
            }),
{
    if data.len() == 0 {
        return Err(ConfigFileError::NoInvariantError);
    }
    let ghost all = data@;
    let mut rest = data;
    let mut modules: Vec<Module> = Vec::new();
    let mut failed: Option<ConfigFileError> = None;
    let ghost mut k: int = 0;
    while rest.len() > 0
        invariant_except_break
            0 <= k <= all.len(),
            rest@ == all.skip(k),
            data_ok_upto(all, k),
            modules@.len() == k,
            forall|i: int| 0 <= i < k ==> built_module(all[i], #[trigger] modules@[i]),
            failed is None,
        ensures
            0 <= k <= all.len(),
            failed is None ==> k == all.len() && data_ok_upto(all, k) && modules@.len() == k && forall|i: int|
                0 <= i < k ==> built_module(all[i], #[trigger] modules@[i]),
            failed matches Some(e) ==> k < all.len() && data_ok_upto(all, k) && {
                ||| exists|i: int|
                    0 <= i < k && #[trigger] all[i].function@ == all[k].function@ && (e matches ConfigFileError::SameFunctionNameError(
                        p1,
                        p2,
                    ) && p1@ == checked_path(all[i].path)@ && p2@ == all[k].given_path@)
                ||| (forall|i: int| 0 <= i < k ==> #[trigger] all[i].function@ != all[k].function@) && (build_error(all[k]) matches Some(b)
                    && error_is(e, b))
            },
        decreases rest.len(),
    {
        let d = rest.remove(0);
        proof {
            assert(all.skip(k)[0] == d);
            assert(all.skip(k).skip(1) =~= all.skip(k + 1));
            assert(all[k] == d);
        }
        match find_function(&modules, &d.function) {
            Some(i) => {
                proof {
                    assert(built_module(all[i as int], modules@[i as int]));
                    assert(all[i as int].function@ == all[k].function@);
                }
                failed = Some(ConfigFileError::SameFunctionNameError(modules[i].exec_path.clone(), d.given_path));
                break;
            },
            None => {},
        }
        proof {
            assert forall|i: int| 0 <= i < k implies #[trigger] all[i].function@ != all[k].function@ by {
                assert(built_module(all[i], modules@[i]));
                assert(modules@[i].fn_name@ != d.function@);
            }
        }
        let ghost before = modules@;
        match build_module(d) {
            Ok(m) => {
                modules.push(m);
                proof {
                    assert forall|i: int| 0 <= i < k + 1 implies built_module(all[i], #[trigger] modules@[i]) by {
                        if i < k {
                            assert(modules@[i] == before[i]);
                        }
                    }
                    k = k + 1;
                }
            },
            Err(e) => {
                failed = Some(e);
                break;
            },
        }
        proof {
            if rest.len() == 0 {
                assert(all.skip(k).len() == 0);
            }
        }
    }
    match failed {
        Some(e) => {
            proof {
                assert(data_ok_upto(all, k));
                assert(!data_ok_upto(all, all.len() as int)) by {
                    if build_error(all[k]) is Some {
                        assert(build_error(all[k]) is Some);
                    } else {
                        let i = choose|i: int| 0 <= i < k && #[trigger] all[i].function@ == all[k].function@;
                        assert(all[i].function@ == all[k].function@);
                    }
                }
            }
            Err(e)
        },
        None => Ok(ConfigFile {
            epsilon,
            batch_size: match batch_size {
                Some(b) => b,
                None => 5000,
            },
            nb_threads: match nb_threads {
                Some(n) => n,
                None => 1,
            },
            modules,
        }),
    }
}

} // verus!
