//! Modules: executables that compute a function of the graphs.
use vstd::prelude::*;
use vstd::string::*;
use vstd::utf8::is_ascii_chars;
use crate::data_types::ValueType;
use crate::expr::{MathExpression, ParsedArgType, copy_parsed_expr};
use crate::name_check::{is_valid_name, is_identifier};
use crate::invariant_execs::split_on_spaces;
use crate::invariant_execs::split_spaces;
use crate::output::{as_line, csv_line};
use crate::table::row_chars;

verus! {

/// Errors when creating a module.
#[derive(Debug, PartialEq, Eq)]
pub enum ModuleError {
    /// Any module must require at least one parameter
    NoArgs,
    /// The given path does not lead to a file
    InvalidPath(String),
    /// The given file is not executable
    NotExecutable(String),
    /// The given name is not a valid function name
    InvalidName(String),
    /// The module function has the same name as one of its arguments
    ReturnSelf(String),
    /// An I/O error, with its message
    IoError(String),
}

/// Why the execution of a module failed.
#[derive(Debug, PartialEq, Eq)]
pub enum ExecErrorReason {
    FailedExecution(String),
    FailedWriteStdin(String),
    ClosedStream(String),
    EarlyExit(String, String),
    UnexpectedOutput(usize, usize),
    UnexpectedInput(usize, usize),
    FailedOutput(String),
    FailedInput(String),
}

/// An error of the execution of a module.
#[derive(Debug, PartialEq, Eq)]
pub struct ModuleExecError {
    pub fn_name: String,
    pub path: String,
    pub reason: ExecErrorReason,
}

/// A typed argument of a module.
#[derive(Debug, PartialEq, Eq)]
pub struct TypedArg {
    pub name: String,
    pub data_type: ValueType,
}

impl TypedArg {
    pub fn has_same_name(&self, other: &TypedArg) -> (r: bool)
        ensures
            r == (self.name@ == other.name@),
    {
        self.name == other.name
    }

    pub fn copy(&self) -> (r: TypedArg)
        ensures
            r == *self,
    {
        TypedArg { name: self.name.clone(), data_type: self.data_type }
    }
}

impl Clone for TypedArg {
    fn clone(&self) -> (r: Self)
        ensures
            r == *self,
    {
        self.copy()
    }
}

impl From<(String, ValueType)> for TypedArg {
    fn from(value: (String, ValueType)) -> (r: Self) {
        TypedArg { name: value.0, data_type: value.1 }
    }
}

impl vstd::std_specs::convert::FromSpecImpl<(String, ValueType)> for TypedArg {
    open spec fn obeys_from_spec() -> bool {
        true
    }

    open spec fn from_spec(v: (String, ValueType)) -> Self {
        TypedArg { name: v.0, data_type: v.1 }
    }
}

/// What a look at the path of an executable found.
#[derive(Debug, PartialEq, Eq)]
pub enum PathCheck {
    /// The absolute path of an existing executable file.
    Executable(String),
    /// The (absolute) path leads to no file.
    Missing(String),
    /// The file at this (absolute) path is not executable.
    NotExecutable(String),
    /// The current directory could not be read, with the error's message.
    IoError(String),
}

/// An executable file that computes a function of graphs and values.
#[derive(Debug, PartialEq, Eq)]
pub struct Module {
    /// The *absolute* path to the module.
    pub exec_path: String,
    pub fn_name: String,
    pub args: Vec<TypedArg>,
    pub add_args: Vec<MathExpression<ParsedArgType>>,
    /// The type of output to return
    pub output: ValueType,
    pub batch_size: Option<usize>,
}

/// The error of the first invalid argument of a function named `fn_name`, if any:
/// a name that is not an identifier, or the name of the function itself.
pub open spec fn args_error(fn_name: String, args: Seq<TypedArg>) -> Option<ModuleError>
    decreases args.len(),
{
    if args.len() == 0 {
        None
    } else {
        let a = args[0];
        if !(is_ascii_chars(a.name@) && is_identifier(a.name@)) {
            Some(ModuleError::InvalidName(a.name))
        } else if fn_name@ == a.name@ {
            Some(ModuleError::ReturnSelf(fn_name))
        } else {
            args_error(fn_name, args.skip(1))
        }
    }
}

/// The error that a path check gives, if any.
pub open spec fn path_error(p: PathCheck) -> Option<ModuleError> {
    match p {
        PathCheck::Executable(_) => None,
        PathCheck::Missing(s) => Some(ModuleError::InvalidPath(s)),
        PathCheck::NotExecutable(s) => Some(ModuleError::NotExecutable(s)),
        PathCheck::IoError(s) => Some(ModuleError::IoError(s)),
    }
}

pub open spec fn checked_path(p: PathCheck) -> String {
    match p {
        PathCheck::Executable(s) => s,
        PathCheck::Missing(s) => s,
        PathCheck::NotExecutable(s) => s,
        PathCheck::IoError(s) => s,
    }
}

/// Two errors that are the same, strings compared by their characters.
pub open spec fn same_error(a: ModuleError, b: ModuleError) -> bool {
    match (a, b) {
        (ModuleError::NoArgs, ModuleError::NoArgs) => true,
        (ModuleError::InvalidPath(x), ModuleError::InvalidPath(y)) => x@ == y@,
        (ModuleError::NotExecutable(x), ModuleError::NotExecutable(y)) => x@ == y@,
        (ModuleError::InvalidName(x), ModuleError::InvalidName(y)) => x@ == y@,
        (ModuleError::ReturnSelf(x), ModuleError::ReturnSelf(y)) => x@ == y@,
        (ModuleError::IoError(x), ModuleError::IoError(y)) => x@ == y@,
        _ => false,
    }
}

impl Module {
    /// Checks that a typed argument has a valid name.
    /// # Errors
    /// [`ModuleError::InvalidName`] if the name is not ASCII or does not match
    /// `^([a-z]|[A-Z]|_)(_|[a-z]|[A-Z]|[0-9])*$`.
    pub fn check_invariant_name_validity(value: &TypedArg) -> (r: Result<(), ModuleError>)
        ensures
            r is Ok <==> (is_ascii_chars(value.name@) && is_identifier(value.name@)),
            r matches Err(e) ==> e == ModuleError::InvalidName(value.name),
    {
        if !is_valid_name(value.name.as_str()) {
            return Err(ModuleError::InvalidName(value.name.clone()));
        }
        Ok(())
    }

    /// Checks the names of the arguments of a function named `fn_name`.
    fn check_args(fn_name: &String, args: &Vec<TypedArg>) -> (r: Result<(), ModuleError>)
        ensures
            match args_error(*fn_name, args@) {
                Some(e) => r matches Err(x) && same_error(x, e),
                None => r is Ok,
            },
    {
        let mut i: usize = 0;
        assert(args@.skip(0) =~= args@);
        while i < args.len()
            invariant
                i <= args@.len(),
                args_error(*fn_name, args@) == args_error(*fn_name, args@.skip(i as int)),
            decreases args.len() - i,
        {
            assert(args@.skip(i as int).skip(1) =~= args@.skip(i + 1));
            assert(args@.skip(i as int)[0] == args@[i as int]);
            match Self::check_invariant_name_validity(&args[i]) {
                Ok(()) => {},
                Err(e) => return Err(e),
            }
            if *fn_name == args[i].name {
                return Err(ModuleError::ReturnSelf(fn_name.clone()));
            }
            i += 1;
        }
        assert(args@.skip(i as int).len() == 0);
        Ok(())
    }

    /// Checks the path and the arguments of a module, returning its path.
    fn check_validity(exec_path: PathCheck, fn_name: &String, args: &Vec<TypedArg>) -> (r: Result<String, ModuleError>)
        ensures
            match path_error(exec_path) {
                Some(e) => r matches Err(x) && same_error(x, e),
                None => match args_error(*fn_name, args@) {
                    Some(e) => r matches Err(x) && same_error(x, e),
                    None => r == Ok::<String, ModuleError>(checked_path(exec_path)),
                },
            },
    {
        let path = match exec_path {
            PathCheck::Executable(p) => p,
            PathCheck::Missing(p) => return Err(ModuleError::InvalidPath(p)),
            PathCheck::NotExecutable(p) => return Err(ModuleError::NotExecutable(p)),
            PathCheck::IoError(p) => return Err(ModuleError::IoError(p)),
        };
        match Self::check_args(fn_name, args) {
            Ok(()) => Ok(path),
            Err(e) => Err(e),
        }
    }

    /// Creates a module from the result of the check of its path.
    /// # Errors
    /// [`ModuleError::NoArgs`] when no argument is given, then the error of
    /// the path check, then that of the first invalid argument.
    pub fn new(
        exec_path: PathCheck,
        fn_name: String,
        args: Vec<TypedArg>,
        add_args: Vec<MathExpression<ParsedArgType>>,
        output: ValueType,
        batch_size: Option<usize>,
    ) -> (r: Result<Self, ModuleError>)
        ensures
            args@.len() == 0 ==> r == Err::<Module, ModuleError>(ModuleError::NoArgs),
            args@.len() > 0 ==> match path_error(exec_path) {
                Some(e) => r matches Err(x) && same_error(x, e),
                None => match args_error(fn_name, args@) {
                    Some(e) => r matches Err(x) && same_error(x, e),
                    None => r matches Ok(m) && m == (Module {
                        exec_path: checked_path(exec_path),
                        fn_name,
                        args,
                        add_args,
                        output,
                        batch_size,
                    }),
                },
            },
    {
        if args.len() == 0 {
            return Err(ModuleError::NoArgs);
        }
        match Self::check_validity(exec_path, &fn_name, &args) {
            Ok(exec_path) => Ok(Module { exec_path, fn_name, output, args, add_args, batch_size }),
            Err(e) => Err(e),
        }
    }

    /// Creates a module with only one argument, a graph named `graph`: a
    /// module that computes an invariant.
    pub fn new_invariant(exec_path: PathCheck, fn_name: String, output: ValueType, batch_size: Option<usize>) -> (r: Result<Self, ModuleError>)
        ensures
            match path_error(exec_path) {
                Some(e) => r matches Err(x) && same_error(x, e),
                None => if fn_name@ == "graph"@ {
                    r matches Err(x) && x matches ModuleError::ReturnSelf(n) && n@ == fn_name@
                } else {
                    r matches Ok(m) && m.exec_path == checked_path(exec_path) && m.fn_name == fn_name
                        && m.args@.len() == 1 && m.args@[0].name@ == "graph"@
                        && m.args@[0].data_type == ValueType::Graph && m.add_args@.len() == 0
                        && m.output == output && m.batch_size == batch_size
                },
            },
    {
        let mut args: Vec<TypedArg> = Vec::new();
        args.push(TypedArg { name: String::from_str("graph"), data_type: ValueType::Graph });
        proof {
            reveal_strlit("graph");
            let a = args@[0];
            assert(is_ascii_chars(a.name@) && is_identifier(a.name@));
            assert(args@.skip(1) =~= Seq::<TypedArg>::empty());
            assert(args_error(fn_name, args@.skip(1)) is None);
        }
        match Self::check_validity(exec_path, &fn_name, &args) {
            Ok(exec_path) => Ok(Module { exec_path, args, add_args: Vec::new(), fn_name, output, batch_size }),
            Err(e) => Err(e),
        }
    }

    pub fn copy(&self) -> (r: Module)
        ensures
            r.exec_path == self.exec_path,
            r.fn_name == self.fn_name,
            r.args@ == self.args@,
            r.add_args@ == self.add_args@,
            r.output == self.output,
            r.batch_size == self.batch_size,
    {
        let mut args: Vec<TypedArg> = Vec::new();
        let mut i: usize = 0;
        while i < self.args.len()
            invariant
                i <= self.args@.len(),
                args@ == self.args@.take(i as int),
            decreases self.args.len() - i,
        {
            args.push(self.args[i].copy());
            i += 1;
            assert(args@ =~= self.args@.take(i as int));
        }
        let mut add: Vec<MathExpression<ParsedArgType>> = Vec::new();
        let mut j: usize = 0;
        while j < self.add_args.len()
            invariant
                j <= self.add_args@.len(),
                add@ == self.add_args@.take(j as int),
            decreases self.add_args.len() - j,
        {
            add.push(copy_parsed_expr(&self.add_args[j]));
            j += 1;
            assert(add@ =~= self.add_args@.take(j as int));
        }
        assert(args@ =~= self.args@);
        assert(add@ =~= self.add_args@);
        Module {
            exec_path: self.exec_path.clone(),
            fn_name: self.fn_name.clone(),
            args,
            add_args: add,
            output: self.output,
            batch_size: self.batch_size,
        }
    }
}

/// What the running of a module is told: the next values to give it, or
/// that there are none left.
pub enum ExecEvent {
    Input(Vec<String>),
    InputEnded,
}

/// What to do next while running a module.
#[derive(Debug, PartialEq, Eq)]
pub enum ExecAction {
    /// Write the line to the module's input.
    Write(String),
    /// Write the line, flush the input, then read that many lines of output.
    WriteAndCollect(String, usize),
    /// Flush the input, read that many lines of output, and finish.
    CollectAndFinish(usize),
    /// Flush the input and finish: no output is awaited.
    Finish,
}

impl Module {
    /// The error of the execution of this module, for the given reason.
    pub fn get_exec_error(&self, reason: ExecErrorReason) -> (r: ModuleExecError)
        ensures
            r == (ModuleExecError { fn_name: self.fn_name, path: self.exec_path, reason }),
    {
        ModuleExecError { fn_name: self.fn_name.clone(), path: self.exec_path.clone(), reason }
    }

    /// One step of running the module, `waiting` lines having been written
    /// since the output was last read: the values of an input are written as a
    /// line, and once `batch_size` lines wait, the output is read; when the
    /// input ends, the lines still waiting are read.
    /// # Errors
    /// [`ExecErrorReason::UnexpectedInput`] when an input does not hold one
    /// value per argument of the module.
    pub fn exec_step(&self, waiting: usize, batch_size: usize, event: ExecEvent) -> (r: Result<(usize, ExecAction), ModuleExecError>)
        requires
            waiting < usize::MAX,
        ensures
            match event {
                ExecEvent::Input(val) => if self.args@.len() != val@.len() {
                    r == Err::<(usize, ExecAction), ModuleExecError>(
                        ModuleExecError {
                            fn_name: self.fn_name,
                            path: self.exec_path,
                            reason: ExecErrorReason::UnexpectedInput(val@.len() as usize, self.args@.len() as usize),
                        },
                    )
                } else {
                    r matches Ok((w, a)) && if waiting + 1 >= batch_size {
                        w == 0 && (a matches ExecAction::WriteAndCollect(line, n) && n == waiting + 1 && line@ == csv_line(
                            row_chars(val@),
                            ' ',
                        ))
                    } else {
                        w == waiting + 1 && (a matches ExecAction::Write(line) && line@ == csv_line(row_chars(val@), ' '))
                    }
                },
                ExecEvent::InputEnded => if waiting > 0 {
                    r == Ok::<(usize, ExecAction), ModuleExecError>((0, ExecAction::CollectAndFinish(waiting)))
                } else {
                    r == Ok::<(usize, ExecAction), ModuleExecError>((0, ExecAction::Finish))
                },
            },
    {
        match event {
            ExecEvent::Input(val) => {
                if self.args.len() != val.len() {
                    return Err(self.get_exec_error(ExecErrorReason::UnexpectedInput(val.len(), self.args.len())));
                }
                let line = as_line(&val, ' ');
                let waiting = waiting + 1;
                if waiting >= batch_size {
                    Ok((0, ExecAction::WriteAndCollect(line, waiting)))
                } else {
                    Ok((waiting, ExecAction::Write(line)))
                }
            },
            ExecEvent::InputEnded => {
                if waiting > 0 {
                    Ok((0, ExecAction::CollectAndFinish(waiting)))
                } else {
                    Ok((0, ExecAction::Finish))
                }
            },
        }
    }

    /// The values of a line that the module returned: its arguments, then the
    /// value it computed.
    /// # Errors
    /// [`ExecErrorReason::UnexpectedOutput`] when the line does not hold one
    /// value more than the module has arguments.
    pub fn output_values(&self, line: &str) -> (r: Result<Vec<String>, ModuleExecError>)
        requires
            self.args@.len() < usize::MAX,
        ensures
            split_spaces(line@).len() == self.args@.len() + 1 ==> (r matches Ok(v) && row_chars(v@) == split_spaces(line@)),
            split_spaces(line@).len() != self.args@.len() + 1 ==> r == Err::<Vec<String>, ModuleExecError>(
                ModuleExecError {
                    fn_name: self.fn_name,
                    path: self.exec_path,
                    reason: ExecErrorReason::UnexpectedOutput(split_spaces(line@).len() as usize, (self.args@.len() + 1) as usize),
                },
            ),
    {
        let vals = split_on_spaces(line);
        if vals.len() != self.args.len() + 1 {
            return Err(self.get_exec_error(ExecErrorReason::UnexpectedOutput(vals.len(), self.args.len() + 1)));
        }
        Ok(vals)
    }
}

} // verus!
