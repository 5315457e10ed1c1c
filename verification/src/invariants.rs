//! Executables that compute invariants of graphs, named and checked.
use vstd::prelude::*;
use vstd::utf8::is_ascii_chars;
use crate::name_check::{is_identifier, is_valid_name};

verus! {

/// Errors when describing an executable of invariants.
#[derive(Debug, PartialEq, Eq)]
pub enum InvariantErrors {
    /// The given path "{0}" does not lead to a valid execution path
    InvalidPath(String),
    /// The given name "{0}" is not a valid invariant name.
    InvalidName(String),
    /// The given dependency "{0}" is missing
    MissingDependency(String),
    /// Encountered a dependency cycle, thus making the invariant computation impossible
    DependencyCycle,
}

/// An executable file that computes invariants.
#[derive(Debug, PartialEq, Eq)]
pub struct InvariantsExecutable {
    /// The absolute path to the file to execute.
    pub exec_path: String,
    /// The names of the computed invariants, in the order they are returned.
    pub names: Vec<String>,
    /// The names of the invariants needed to compute these ones.
    pub dependencies: Vec<String>,
}

/// What a look at the path of an executable found.
#[derive(Debug, PartialEq, Eq)]
pub enum PathLookup {
    /// The absolute path of the file: it exists, or whether it does could not be told.
    Found(String),
    /// The path, as it was given, leads to no file.
    Missing(String),
}

/// The index of the first of `names` that is no valid invariant name, if any.
pub open spec fn first_invalid(names: Seq<String>) -> Option<int>
    decreases names.len(),
{
    if names.len() == 0 {
        None
    } else {
        match first_invalid(names.drop_last()) {
            Some(i) => Some(i),
            None => if is_ascii_chars(names.last()@) && is_identifier(names.last()@) {
                None
            } else {
                Some(names.len() - 1)
            },
        }
    }
}

impl InvariantsExecutable {
    /// Checks that `name` can name a table or a column of a database.
    /// # Errors
    /// [`InvariantErrors::InvalidName`] when the name is not ASCII or does
    /// not match `^([a-z]|[A-Z]|_)(_|[a-z]|[A-Z]|[0-9])*$`.
    pub fn check_invariant_name_validity(name: &String) -> (r: Result<(), InvariantErrors>)
        ensures
            r is Ok <==> (is_ascii_chars(name@) && is_identifier(name@)),
            r matches Err(e) ==> e == InvariantErrors::InvalidName(*name),
    {
        if !is_valid_name(name.as_str()) {
            return Err(InvariantErrors::InvalidName(name.clone()));
        }
        Ok(())
    }

    /// The absolute path to the executable, unless the path leads nowhere.
    /// # Errors
    /// [`InvariantErrors::InvalidPath`], with the path as given, when it leads to no file.
    pub fn get_path(exec_path: PathLookup) -> (r: Result<String, InvariantErrors>)
        ensures
            match exec_path {
                PathLookup::Found(p) => r == Ok::<String, InvariantErrors>(p),
                PathLookup::Missing(p) => r == Err::<String, InvariantErrors>(InvariantErrors::InvalidPath(p)),
            },
    {
        match exec_path {
            PathLookup::Found(p) => Ok(p),
            PathLookup::Missing(p) => Err(InvariantErrors::InvalidPath(p)),
        }
    }

    /// Checks the path and the names of an executable, returning its absolute path.
    pub fn check_validity(exec_path: PathLookup, names: &Vec<String>) -> (r: Result<String, InvariantErrors>)
        ensures
            match exec_path {
                PathLookup::Missing(p) => r == Err::<String, InvariantErrors>(InvariantErrors::InvalidPath(p)),
                PathLookup::Found(p) => match first_invalid(names@) {
                    Some(i) => r == Err::<String, InvariantErrors>(InvariantErrors::InvalidName(names@[i])),
                    None => r == Ok::<String, InvariantErrors>(p),
                },
            },
    {
        let path = match Self::get_path(exec_path) {
            Ok(p) => p,
            Err(e) => return Err(e),
        };
        let mut i: usize = 0;
        while i < names.len()
            invariant
                exec_path matches PathLookup::Found(p) && p == path,
                i <= names@.len(),
                first_invalid(names@.take(i as int)) is None,
            decreases names.len() - i,
        {
            assert(names@.take(i + 1).drop_last() =~= names@.take(i as int));
            match Self::check_invariant_name_validity(&names[i]) {
                Ok(()) => {},
                Err(e) => {
                    proof {
                        lemma_first_invalid_prefix(names@, i as int);
                    }
                    return Err(e);
                },
            }
            i += 1;
        }
        assert(names@.take(i as int) =~= names@);
        Ok(path)
    }

    /// Describes an executable of invariants, stored with its absolute path.
    /// # Errors
    /// [`InvariantErrors::InvalidPath`] when the path leads nowhere, then
    /// [`InvariantErrors::InvalidName`] for the first invalid name.
    pub fn new(exec_path: PathLookup, names: Vec<String>, dependencies: Vec<String>) -> (r: Result<Self, InvariantErrors>)
        ensures
            match exec_path {
                PathLookup::Missing(p) => r == Err::<Self, InvariantErrors>(InvariantErrors::InvalidPath(p)),
                PathLookup::Found(p) => match first_invalid(names@) {
                    Some(i) => r == Err::<Self, InvariantErrors>(InvariantErrors::InvalidName(names@[i])),
                    None => r == Ok::<Self, InvariantErrors>(InvariantsExecutable { exec_path: p, names, dependencies }),
                },
            },
    {
        match Self::check_validity(exec_path, &names) {
            Ok(exec_path) => Ok(InvariantsExecutable { exec_path, names, dependencies }),
            Err(e) => Err(e),
        }
    }
}

/// When the first `i` names are valid and the next is not, it is the first invalid one.
proof fn lemma_first_invalid_prefix(names: Seq<String>, i: int)
    requires
        0 <= i < names.len(),
        first_invalid(names.take(i)) is None,
        !(is_ascii_chars(names[i]@) && is_identifier(names[i]@)),
    ensures
        first_invalid(names) == Some(i),
    decreases names.len(),
{
    if i == names.len() - 1 {
        assert(names.drop_last() =~= names.take(i));
    } else {
        assert(names.drop_last().take(i) =~= names.take(i));
        lemma_first_invalid_prefix(names.drop_last(), i);
    }
}

} // verus!
