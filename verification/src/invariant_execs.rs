//! Executables that compute graph invariants, and the order in which to run
//! them so that each runs after those that compute what it depends on.
use vstd::prelude::*;
use vstd::utf8::is_ascii_chars;
use crate::module::{ExecAction, ExecEvent, PathCheck};
use indexmap::IndexMap;
use topo_sort::{SortResults, TopoSort};
use vstd::pervasive::VecAdditionalExecFns;
use crate::name_check::{is_identifier, is_valid_name};
use crate::output::{as_line, csv_line};
use crate::table::row_chars;
use crate::text::{chars_of, join, string_of, push_str};

verus! {

/// Errors while running a module.
#[derive(Debug, PartialEq, Eq)]
pub enum ModuleExecutionError {
    /// The module could not be started, with the reason.
    FailedExecution(String),
    /// Writing to the module's input failed: the reason, and the module's path.
    FailedWriteStdin(String, String),
    /// A stream of the module (its name first) could not be opened.
    ClosedStream(String, String),
    /// The module stopped early: its path, its exit status and what it wrote to its error stream.
    EarlyExit(String, String, String),
    /// The module (its path) returned a number of values other than the expected one.
    UnexpectedOutput(String, usize, usize),
    /// The module (its path) was given a number of values other than the expected one.
    UnexpectedInput(String, usize, usize),
    /// The function saving the results failed.
    FailedOutput(String),
    /// The function giving the inputs failed.
    FailedInput(String),
}

/// Errors when describing modules or ordering them.
#[derive(Debug, PartialEq, Eq)]
pub enum ModuleError {
    /// The path leads to no file.
    InvalidPath(String),
    /// The file at the path is not executable.
    NotExecutable(String),
    /// No module computes the invariant.
    UnknownInvariant(String),
    /// The file system could not be read, with the reason.
    IoError(String),
    /// The name is not a valid invariant name.
    InvalidName(String),
    /// The invariant is missing, yet the module at the path depends on it.
    MissingDependency(String, String),
    /// The module depends on an invariant it computes.
    DependsOnSelf(String),
    /// The module at the path was added twice.
    AlreadyAddedModule(String),
    /// The invariant was added twice.
    AlreadyAddedInvariant(String),
    /// The dependencies form a cycle, so that no order can compute them all.
    DependencyCycle,
}

/// An executable file that computes graph invariants.
#[derive(Debug, Clone, PartialEq, Eq)]
pub struct Module {
    /// The *absolute* path to the file to execute.
    pub exec_path: String,
    /// The names of the computed invariants, in the order they are returned.
    pub invariant_names: Vec<String>,
    /// The invariants needed to compute these ones; none of them is computed by this module.
    pub dependencies: Option<Vec<String>>,
}

/// The path of an executable, or why it cannot be run.
pub open spec fn path_result(p: PathCheck) -> Result<String, ModuleError> {
    match p {
        PathCheck::Executable(s) => Ok(s),
        PathCheck::Missing(s) => Err(ModuleError::InvalidPath(s)),
        PathCheck::NotExecutable(s) => Err(ModuleError::NotExecutable(s)),
        PathCheck::IoError(s) => Err(ModuleError::IoError(s)),
    }
}

/// One of the texts `v` has the characters `s`.
pub open spec fn has_text(v: Seq<String>, s: Seq<char>) -> bool {
    exists|k: int| 0 <= k < v.len() && (#[trigger] v[k])@ == s
}

/// The first problem among the names `names`, from the `i`-th on: a name
/// that is no invariant name, or that is among the dependencies.
pub open spec fn name_error(names: Seq<String>, deps: Option<Seq<String>>, i: int) -> Option<ModuleError>
    decreases names.len() - i,
{
    if i < 0 || i >= names.len() {
        None
    } else if !(is_ascii_chars(names[i]@) && is_identifier(names[i]@)) {
        Some(ModuleError::InvalidName(names[i]))
    } else if deps matches Some(d) && has_text(d, names[i]@) {
        Some(ModuleError::DependsOnSelf(names[i]))
    } else {
        name_error(names, deps, i + 1)
    }
}

/// Whether `v` holds a text with the characters of `s`.
pub fn vec_has_text(v: &Vec<String>, s: &String) -> (r: bool)
    ensures
        r == has_text(v@, s@),
{
    let mut k: usize = 0;
    while k < v.len()
        invariant
            k <= v@.len(),
            forall|j: int| 0 <= j < k ==> v@[j]@ != s@,
        decreases v.len() - k,
    {
        if v[k] == *s {
            return true;
        }
        k += 1;
    }
    false
}

/// The dependencies as a module keeps them: none when the list is empty.
pub open spec fn deps_option(dependencies: Vec<String>) -> Option<Vec<String>> {
    if dependencies@.len() == 0 {
        None
    } else {
        Some(dependencies)
    }
}

/// The views of some optional dependencies.
pub open spec fn deps_view(d: Option<Vec<String>>) -> Option<Seq<String>> {
    match d {
        Some(v) => Some(v@),
        None => None,
    }
}

impl Module {
    /// Describes a module from what a look at its path found, the names of the
    /// invariants it computes and those it depends on.
    /// # Errors
    /// The path's problem first, then the first name that is invalid
    /// ([`ModuleError::InvalidName`]) or a dependency ([`ModuleError::DependsOnSelf`]).
    pub fn new(exec_path: PathCheck, names: Vec<String>, dependencies: Vec<String>) -> (r: Result<Self, ModuleError>)
        ensures
            r == match path_result(exec_path) {
                Err(e) => Err(e),
                Ok(p) => match name_error(names@, deps_view(deps_option(dependencies)), 0) {
                    Some(e) => Err(e),
                    None => Ok(Module { exec_path: p, invariant_names: names, dependencies: deps_option(dependencies) }),
                },
            },
    {
        let dependencies = if dependencies.len() == 0 {
            None
        } else {
            Some(dependencies)
        };
        let exec_path = match Self::check_validity(exec_path, &names, &dependencies) {
            Ok(p) => p,
            Err(e) => return Err(e),
        };
        Ok(Module { exec_path, invariant_names: names, dependencies })
    }

    /// Describes a module with no dependency.
    /// # Errors
    /// The path's problem first, then the first invalid name.
    pub fn new_no_dep(exec_path: PathCheck, names: Vec<String>) -> (r: Result<Self, ModuleError>)
        ensures
            r == match path_result(exec_path) {
                Err(e) => Err(e),
                Ok(p) => match name_error(names@, None, 0) {
                    Some(e) => Err(e),
                    None => Ok(Module { exec_path: p, invariant_names: names, dependencies: None }),
                },
            },
    {
        let exec_path = match Self::check_validity(exec_path, &names, &None) {
            Ok(p) => p,
            Err(e) => return Err(e),
        };
        Ok(Module { exec_path, invariant_names: names, dependencies: None })
    }

    /// Checks the path and the names of a module, and gives the path.
    fn check_validity(exec_path: PathCheck, names: &Vec<String>, dependencies: &Option<Vec<String>>) -> (r: Result<String, ModuleError>)
        ensures
            r == match path_result(exec_path) {
                Err(e) => Err(e),
                Ok(p) => match name_error(names@, deps_view(*dependencies), 0) {
                    Some(e) => Err::<String, ModuleError>(e),
                    None => Ok(p),
                },
            },
    {
        let path = match Self::get_path(exec_path) {
            Ok(p) => p,
            Err(e) => return Err(e),
        };
        let mut i: usize = names.len();
        let mut first: Option<ModuleError> = None;
        while i > 0
            invariant
                i <= names@.len(),
                first == name_error(names@, deps_view(*dependencies), i as int),
            decreases i,
        {
            i -= 1;
            match Self::check_invariant_name_validity(&names[i]) {
                Err(e) => {
                    first = Some(e);
                },
                Ok(()) => {
                    let self_dep = match dependencies {
                        Some(d) => vec_has_text(d, &names[i]),
                        None => false,
                    };
                    if self_dep {
                        first = Some(ModuleError::DependsOnSelf(names[i].clone()));
                    }
                },
            }
        }
        match first {
            Some(e) => Err(e),
            None => Ok(path),
        }
    }

    /// The path of the executable, or why it cannot be run.
    fn get_path(exec_path: PathCheck) -> (r: Result<String, ModuleError>)
        ensures
            r == path_result(exec_path),
    {
        match exec_path {
            PathCheck::Executable(s) => Ok(s),
            PathCheck::Missing(s) => Err(ModuleError::InvalidPath(s)),
            PathCheck::NotExecutable(s) => Err(ModuleError::NotExecutable(s)),
            PathCheck::IoError(s) => Err(ModuleError::IoError(s)),
        }
    }

    /// Checks that an invariant name can name a table or a column of a database.
    /// # Errors
    /// [`ModuleError::InvalidName`] when the name is not ASCII or does not
    /// match `^([a-z]|[A-Z]|_)(_|[a-z]|[A-Z]|[0-9])*$`.
    pub fn check_invariant_name_validity(name: &String) -> (r: Result<(), ModuleError>)
        ensures
            r is Ok <==> (is_ascii_chars(name@) && is_identifier(name@)),
            r matches Err(e) ==> e == ModuleError::InvalidName(*name),
    {
        if !is_valid_name(name.as_str()) {
            return Err(ModuleError::InvalidName(name.clone()));
        }
        Ok(())
    }
}

/// The pieces of `s` between the spaces, in order: two spaces in a row give an
/// empty piece, and a text with no space is one piece.
pub open spec fn split_spaces(s: Seq<char>) -> Seq<Seq<char>>
    decreases s.len(),
{
    if s.len() == 0 {
        seq![Seq::empty()]
    } else {
        let p = split_spaces(s.drop_last());
        if s.last() == ' ' {
            p.push(Seq::empty())
        } else {
            p.update(p.len() - 1, p.last().push(s.last()))
        }
    }
}

proof fn lemma_split_spaces_len(s: Seq<char>)
    ensures
        split_spaces(s).len() >= 1,
    decreases s.len(),
{
    if s.len() > 0 {
        lemma_split_spaces_len(s.drop_last());
    }
}

/// The pieces of `s` between the spaces.
pub fn split_on_spaces(s: &str) -> (r: Vec<String>)
    ensures
        row_chars(r@) == split_spaces(s@),
{
    let cs = chars_of(s);
    let mut pieces: Vec<String> = Vec::new();
    let mut current: Vec<char> = Vec::new();
    let mut i: usize = 0;
    proof {
        assert(cs@.take(0) =~= Seq::<char>::empty());
    }
    while i < cs.len()
        invariant
            cs@ == s@,
            i <= cs@.len(),
            row_chars(pieces@).push(current@) == split_spaces(cs@.take(i as int)),
        decreases cs.len() - i,
    {
        let ghost before = cs@.take(i as int);
        proof {
            assert(cs@.take(i + 1).drop_last() =~= before);
            assert(cs@.take(i + 1).last() == cs@[i as int]);
            lemma_split_spaces_len(before);
        }
        if cs[i] == ' ' {
            pieces.push(string_of(&current));
            current = Vec::new();
            proof {
                assert(row_chars(pieces@) =~= split_spaces(before));
                assert(row_chars(pieces@).push(current@) =~= split_spaces(before).push(Seq::empty()));
            }
        } else {
            let ghost old_current = current@;
            current.push(cs[i]);
            proof {
                let p = split_spaces(before);
                assert(row_chars(pieces@).push(current@) =~= p.update(p.len() - 1, p.last().push(cs@[i as int])));
            }
        }
        i += 1;
    }
    pieces.push(string_of(&current));
    proof {
        assert(cs@.take(i as int) =~= s@);
        assert(row_chars(pieces@) =~= split_spaces(s@));
    }
    pieces
}

/// The text of a list of invariant names, as `{a, b}`; with no name, `}`.
pub open spec fn names_text(names: Seq<Seq<char>>) -> Seq<char> {
    if names.len() == 0 {
        seq!['}']
    } else {
        seq!['{'] + join(names, ", "@) + seq!['}']
    }
}

impl Module {
    /// The line to give the module for the values `val` (a graph, then the
    /// values of the dependencies): the values separated by spaces, then a new line.
    /// # Errors
    /// [`ModuleError`] [`ModuleExecutionError::UnexpectedInput`] when the module
    /// has dependencies and `val` does not hold one value more than them.
    pub fn input_line(&self, val: &Vec<String>) -> (r: Result<String, ModuleExecutionError>)
        requires
            self.dependencies matches Some(d) ==> d@.len() < usize::MAX,
        ensures
            match self.dependencies {
                Some(d) if d@.len() + 1 != val@.len() => r == Err::<String, ModuleExecutionError>(
                    ModuleExecutionError::UnexpectedInput(self.exec_path, val@.len() as usize, (d@.len() + 1) as usize),
                ),
                _ => r matches Ok(line) && line@ == csv_line(row_chars(val@), ' '),
            },
    {
        match &self.dependencies {
            Some(d) => {
                if d.len() + 1 != val.len() {
                    return Err(ModuleExecutionError::UnexpectedInput(self.exec_path.clone(), val.len(), d.len() + 1));
                }
            },
            None => {},
        }
        Ok(as_line(val, ' '))
    }

    /// The values of a line that the module returned: the graph's signature,
    /// then one value for each invariant.
    /// # Errors
    /// [`ModuleExecutionError::UnexpectedOutput`] when the line does not hold
    /// one value more than the module has invariants.
    pub fn output_values(&self, line: &str) -> (r: Result<Vec<String>, ModuleExecutionError>)
        requires
            self.invariant_names@.len() < usize::MAX,
        ensures
            split_spaces(line@).len() == self.invariant_names@.len() + 1 ==> (r matches Ok(v) && row_chars(v@) == split_spaces(line@)),
            split_spaces(line@).len() != self.invariant_names@.len() + 1 ==> r == Err::<Vec<String>, ModuleExecutionError>(
                ModuleExecutionError::UnexpectedOutput(
                    self.exec_path,
                    split_spaces(line@).len() as usize,
                    (self.invariant_names@.len() + 1) as usize,
                ),
            ),
    {
        let vals = split_on_spaces(line);
        if vals.len() != self.invariant_names.len() + 1 {
            return Err(ModuleExecutionError::UnexpectedOutput(self.exec_path.clone(), vals.len(), self.invariant_names.len() + 1));
        }
        Ok(vals)
    }

    /// The names of the module's invariants, as `{a, b}`.
    pub fn display_text(&self) -> (r: String)
        ensures
            r@ == names_text(row_chars(self.invariant_names@)),
    {
        let names = &self.invariant_names;
        if names.len() == 0 {
            let mut out: Vec<char> = Vec::new();
            out.push('}');
            proof {
                assert(out@ =~= seq!['}']);
            }
            return string_of(&out);
        }
        let mut out: Vec<char> = Vec::new();
        out.push('{');
        let mut i: usize = 0;
        while i < names.len()
            invariant
                i <= names@.len(),
                names@.len() > 0,
                out@ == seq!['{'] + join(row_chars(names@).take(i as int), ", "@),
            decreases names.len() - i,
        {
            let ghost t = row_chars(names@).take(i + 1);
            assert(t.drop_last() =~= row_chars(names@).take(i as int));
            if i > 0 {
                push_str(&mut out, ", ");
            } else {
                assert(row_chars(names@).take(0).len() == 0);
            }
            push_str(&mut out, names[i].as_str());
            i += 1;
            assert(out@ =~= seq!['{'] + join(row_chars(names@).take(i as int), ", "@));
        }
        assert(row_chars(names@).take(i as int) =~= row_chars(names@));
        out.push('}');
        string_of(&out)
    }
}

// ______________________________ outside collections

#[verifier::external_type_specification]
#[verifier::external_body]
#[verifier::reject_recursive_types(T)]
pub struct ExTopoSort<T>(TopoSort<T>) where T: Eq + core::hash::Hash;

/// The nodes of a topological sort, each with the nodes it depends on.
pub uninterp spec fn topo_nodes(t: TopoSort<usize>) -> Map<usize, Set<usize>>;

/// `s` lists each node of `m` once, each after the other nodes it depends on.
pub open spec fn is_topo_order(m: Map<usize, Set<usize>>, s: Seq<usize>) -> bool {
    &&& s.no_duplicates()
    &&& s.to_set() == m.dom()
    &&& forall|p: int, d: usize|
        0 <= p < s.len() && #[trigger] m[s[p]].contains(d) && m.dom().contains(d) && d != s[p] ==> exists|p2: int|
            0 <= p2 < p && s[p2] == d
}

/// `TopoSort::with_capacity`: a sort with no node.
#[verifier::external_body]
fn topo_with_capacity(capacity: usize) -> (r: TopoSort<usize>)
    ensures
        topo_nodes(r).dom() == Set::<usize>::empty(),
{
    TopoSort::with_capacity(capacity)
}

/// `TopoSort::insert`: the node `node` now depends on the nodes `deps`, and on no other.
#[verifier::external_body]
fn topo_insert(t: &mut TopoSort<usize>, node: usize, deps: Vec<usize>)
    ensures
        topo_nodes(*final(t)) == topo_nodes(*old(t)).insert(node, deps@.to_set()),
{
    t.insert(node, deps)
}

/// `TopoSort::into_vec_nodes`: all the nodes, each after the nodes it depends
/// on, when the dependencies have no cycle (`Full`); when they have one, only
/// some nodes (`Partial`), which are dropped here. Which order comes out when
/// several are possible depends on how the crate's hash map is walked, and is
/// not stated.
#[verifier::external_body]
fn topo_into_vec_nodes(t: TopoSort<usize>) -> (r: Option<Vec<usize>>)
    ensures
        match r {
            Some(v) => is_topo_order(topo_nodes(t), v@),
            None => !exists|s: Seq<usize>| is_topo_order(topo_nodes(t), s),
        },
{
    match t.into_vec_nodes() {
        SortResults::Full(v) => Some(v),
        SortResults::Partial(_) => None,
    }
}

/// The entries of a map from invariant names to paths, by their characters, in order.
pub uninterp spec fn name_path_entries(m: IndexMap<String, String>) -> Seq<(Seq<char>, Seq<char>)>;

/// The entries of a map from paths to modules, the paths by their characters, in order.
pub uninterp spec fn path_module_entries(m: IndexMap<String, Module>) -> Seq<(Seq<char>, Module)>;

/// One of the entries `es` has the key `k`.
pub open spec fn has_text_key<V>(es: Seq<(Seq<char>, V)>, k: Seq<char>) -> bool {
    exists|i: int| 0 <= i < es.len() && (#[trigger] es[i]).0 == k
}

/// The position of the entry of key `k`.
pub open spec fn text_key_index<V>(es: Seq<(Seq<char>, V)>, k: Seq<char>) -> int {
    choose|i: int| 0 <= i < es.len() && (#[trigger] es[i]).0 == k
}

/// The keys of the entries `es` differ.
pub open spec fn text_keys_distinct<V>(es: Seq<(Seq<char>, V)>) -> bool {
    forall|i: int, j: int| 0 <= i < j < es.len() ==> (#[trigger] es[i]).0 != (#[trigger] es[j]).0
}

/// `IndexMap::new`: a map with no entry.
#[verifier::external_body]
fn new_name_map() -> (r: IndexMap<String, String>)
    ensures
        name_path_entries(r) == Seq::<(Seq<char>, Seq<char>)>::empty(),
{
    IndexMap::new()
}

/// `IndexMap::contains_key`: whether an entry has the key `k`.
#[verifier::external_body]
fn name_map_contains(m: &IndexMap<String, String>, k: &String) -> (r: bool)
    ensures
        r == has_text_key(name_path_entries(*m), k@),
{
    m.contains_key(k)
}

/// `IndexMap::insert`: with a new key, the entry goes last; with a key that is
/// there, that entry's value is replaced in place.
#[verifier::external_body]
fn name_map_insert(m: &mut IndexMap<String, String>, k: String, v: String) -> (r: Option<String>)
    ensures
        if has_text_key(name_path_entries(*old(m)), k@) {
            let i = text_key_index(name_path_entries(*old(m)), k@);
            &&& name_path_entries(*final(m)) == name_path_entries(*old(m)).update(i, (k@, v@))
            &&& r matches Some(o) && o@ == name_path_entries(*old(m))[i].1
        } else {
            &&& name_path_entries(*final(m)) == name_path_entries(*old(m)).push((k@, v@))
            &&& r is None
        },
{
    m.insert(k, v)
}

/// `IndexMap::get`: the value of the entry of key `k`, if there is one.
#[verifier::external_body]
fn name_map_get<'a>(m: &'a IndexMap<String, String>, k: &String) -> (r: Option<&'a String>)
    ensures
        match r {
            Some(v) => exists|i: int| 0 <= i < name_path_entries(*m).len() && name_path_entries(*m)[i] == (k@, v@),
            None => !has_text_key(name_path_entries(*m), k@),
        },
{
    m.get(k)
}

/// `IndexMap::new`: a map with no entry.
#[verifier::external_body]
fn new_module_map() -> (r: IndexMap<String, Module>)
    ensures
        path_module_entries(r) == Seq::<(Seq<char>, Module)>::empty(),
{
    IndexMap::new()
}

/// `IndexMap::contains_key`: whether an entry has the key `k`.
#[verifier::external_body]
fn module_map_contains(m: &IndexMap<String, Module>, k: &String) -> (r: bool)
    ensures
        r == has_text_key(path_module_entries(*m), k@),
{
    m.contains_key(k)
}

/// `IndexMap::insert`: with a new key, the entry goes last; with a key that is
/// there, that entry's value is replaced in place and the old value given back.
#[verifier::external_body]
fn module_map_insert(m: &mut IndexMap<String, Module>, k: String, v: Module) -> (r: Option<Module>)
    ensures
        if has_text_key(path_module_entries(*old(m)), k@) {
            let i = text_key_index(path_module_entries(*old(m)), k@);
            &&& path_module_entries(*final(m)) == path_module_entries(*old(m)).update(i, (k@, v))
            &&& r == Some(path_module_entries(*old(m))[i].1)
        } else {
            &&& path_module_entries(*final(m)) == path_module_entries(*old(m)).push((k@, v))
            &&& r is None
        },
{
    m.insert(k, v)
}

/// `IndexMap::len`: the number of entries.
#[verifier::external_body]
fn module_map_len(m: &IndexMap<String, Module>) -> (r: usize)
    ensures
        r == path_module_entries(*m).len(),
{
    m.len()
}

/// `IndexMap::get_index`: the entry at position `i`, if there is one.
#[verifier::external_body]
fn module_map_get_index<'a>(m: &'a IndexMap<String, Module>, i: usize) -> (r: Option<(&'a String, &'a Module)>)
    ensures
        match r {
            Some((k, v)) => i < path_module_entries(*m).len() && path_module_entries(*m)[i as int] == (k@, *v),
            None => i >= path_module_entries(*m).len(),
        },
{
    m.get_index(i)
}

/// `IndexMap::get_index_of`: the position of the entry of key `k`, if there is one.
#[verifier::external_body]
fn module_map_get_index_of(m: &IndexMap<String, Module>, k: &String) -> (r: Option<usize>)
    ensures
        match r {
            Some(i) => i < path_module_entries(*m).len() && path_module_entries(*m)[i as int].0 == k@,
            None => !has_text_key(path_module_entries(*m), k@),
        },
{
    m.get_index_of(k)
}

/// `IndexMap::into_values`: the modules of the entries, in order.
#[verifier::external_body]
fn module_map_into_modules(m: IndexMap<String, Module>) -> (r: Vec<Option<Module>>)
    ensures
        r@.len() == path_module_entries(m).len(),
        forall|i: int| 0 <= i < r@.len() ==> #[trigger] r@[i] == Some(path_module_entries(m)[i].1),
{
    m.into_values().map(Some).collect()
}

// ______________________________ the sorter

/// The names `names` from the `j`-th on each tied to `path`, after the entries `es`: the
/// name entries once the first `j` names of a module at `path` are added.
pub open spec fn names_with(es: Seq<(Seq<char>, Seq<char>)>, names: Seq<String>, path: Seq<char>, j: int) -> Seq<
    (Seq<char>, Seq<char>),
> {
    es + Seq::new(j as nat, |t: int| (names[t]@, path))
}

/// The first of the names `names`, from the `j`-th on, that is already a key
/// when the names before it are added.
pub open spec fn first_taken(es: Seq<(Seq<char>, Seq<char>)>, names: Seq<String>, path: Seq<char>, j: int) -> Option<int>
    decreases names.len() - j,
{
    if j < 0 || j >= names.len() {
        None
    } else if has_text_key(names_with(es, names, path, j), names[j]@) {
        Some(j)
    } else {
        first_taken(es, names, path, j + 1)
    }
}

/// What a sorter holds: its name entries and its module entries.
pub ghost struct SorterModel {
    pub names: Seq<(Seq<char>, Seq<char>)>,
    pub modules: Seq<(Seq<char>, Module)>,
}

/// A sorter with no entry.
pub open spec fn empty_model() -> SorterModel {
    SorterModel { names: Seq::empty(), modules: Seq::empty() }
}

/// Adding the module `m` to a sorter: refused when its path was added, or
/// when one of its names was (the names before it are then added, without the module).
pub open spec fn add_step(s: SorterModel, m: Module) -> (SorterModel, Result<(), ModuleError>) {
    let path = m.exec_path@;
    let names = m.invariant_names@;
    if has_text_key(s.modules, path) {
        (s, Err(ModuleError::AlreadyAddedModule(m.exec_path)))
    } else {
        match first_taken(s.names, names, path, 0) {
            Some(t) => (SorterModel { names: names_with(s.names, names, path, t), ..s }, Err(ModuleError::AlreadyAddedInvariant(names[t]))),
            None => (
                SorterModel { names: names_with(s.names, names, path, names.len() as int), modules: s.modules.push((path, m)) },
                Ok(()),
            ),
        }
    }
}

/// Adding the modules `ms` in order, stopping at the first refusal.
pub open spec fn add_all(s: SorterModel, ms: Seq<Module>) -> (SorterModel, Result<(), ModuleError>)
    decreases ms.len(),
{
    if ms.len() == 0 {
        (s, Ok(()))
    } else {
        let (s1, r1) = add_step(s, ms[0]);
        if r1 is Err {
            (s1, r1)
        } else {
            add_all(s1, ms.skip(1))
        }
    }
}

/// The dependencies of a module.
pub open spec fn deps_of_module(m: Module) -> Seq<String> {
    match m.dependencies {
        Some(d) => d@,
        None => Seq::empty(),
    }
}

/// The first dependency among `deps`, from the `k`-th on, that no name entry of `s` has.
pub open spec fn first_missing_dep(s: SorterModel, deps: Seq<String>, k: int) -> Option<String>
    decreases deps.len() - k,
{
    if k < 0 || k >= deps.len() {
        None
    } else if !has_text_key(s.names, deps[k]@) {
        Some(deps[k])
    } else {
        first_missing_dep(s, deps, k + 1)
    }
}

/// The first dependency that no name entry has, from the `i`-th module on,
/// with the path of its module.
pub open spec fn first_missing(s: SorterModel, i: int) -> Option<(String, String)>
    decreases s.modules.len() - i,
{
    if i < 0 || i >= s.modules.len() {
        None
    } else {
        match first_missing_dep(s, deps_of_module(s.modules[i].1), 0) {
            Some(d) => Some((d, s.modules[i].1.exec_path)),
            None => first_missing(s, i + 1),
        }
    }
}

/// The module at position `j` computes one of the first `k` dependencies of
/// the module at position `i`: the name entry of the dependency gives its path.
pub open spec fn module_dep_upto(s: SorterModel, i: int, j: usize, k: int) -> bool {
    &&& j < s.modules.len()
    &&& exists|q: int, t: int|
        #![trigger deps_of_module(s.modules[i].1)[q], s.names[t]]
        0 <= q < k && 0 <= q < deps_of_module(s.modules[i].1).len() && 0 <= t < s.names.len() && s.names[t].0
            == deps_of_module(s.modules[i].1)[q]@ && s.names[t].1 == s.modules[j as int].0
}

/// The positions of the modules that the module at position `i` depends on.
pub open spec fn module_deps(s: SorterModel, i: int) -> Set<usize> {
    Set::new(|j: usize| module_dep_upto(s, i, j, deps_of_module(s.modules[i].1).len() as int))
}

/// The graph of the modules of `s`, by their positions.
pub open spec fn module_graph(s: SorterModel) -> Map<usize, Set<usize>> {
    Map::new(|i: usize| i < s.modules.len(), |i: usize| module_deps(s, i as int))
}

/// `v` holds the modules of `s` in the order `ord` of their positions.
pub open spec fn sorted_as(s: SorterModel, ord: Seq<usize>, v: Seq<Module>) -> bool {
    &&& v.len() == ord.len()
    &&& forall|p: int| 0 <= p < ord.len() ==> v[p] == s.modules[#[trigger] ord[p] as int].1
}

/// Modules to order so that each comes after the modules computing what it depends on.
pub struct ModuleSorter {
    /// Invariant name -> the path of the module computing it.
    name_path_hashmap: IndexMap<String, String>,
    /// Path -> the module at this path.
    path_exec_hashmap: IndexMap<String, Module>,
}

impl ModuleSorter {
    /// The entries of the sorter.
    pub closed spec fn model(&self) -> SorterModel {
        SorterModel { names: name_path_entries(self.name_path_hashmap), modules: path_module_entries(self.path_exec_hashmap) }
    }

    /// The keys of each map differ, and each module is under its path.
    pub open spec fn wf(&self) -> bool {
        &&& text_keys_distinct(self.model().names)
        &&& text_keys_distinct(self.model().modules)
        &&& forall|i: int| 0 <= i < self.model().modules.len() ==> (#[trigger] self.model().modules[i]).0 == self.model().modules[i].1.exec_path@
    }

    /// A sorter with no module.
    pub fn new() -> (r: Self)
        ensures
            r.wf(),
            r.model().names.len() == 0,
            r.model().modules.len() == 0,
    {
        ModuleSorter { name_path_hashmap: new_name_map(), path_exec_hashmap: new_module_map() }
    }

    /// Adds a module to the sorter.
    /// # Errors
    /// [`ModuleError::AlreadyAddedModule`] when a module with its path was
    /// added; [`ModuleError::AlreadyAddedInvariant`] for the first of its names
    /// that was added (the names before it stay added).
    pub fn add_inv_exec(&mut self, inv: Module) -> (r: Result<(), ModuleError>)
        requires
            old(self).wf(),
        ensures
            final(self).wf(),
            (final(self).model(), r) == add_step(old(self).model(), inv),
    {
        if module_map_contains(&self.path_exec_hashmap, &inv.exec_path) {
            return Err(ModuleError::AlreadyAddedModule(inv.exec_path.clone()));
        }
        let ghost es0 = self.model().names;
        let ghost names = inv.invariant_names@;
        let ghost path = inv.exec_path@;
        let mut j: usize = 0;
        while j < inv.invariant_names.len()
            invariant
                j <= names.len(),
                names == inv.invariant_names@,
                path == inv.exec_path@,
                name_path_entries(self.name_path_hashmap) == names_with(es0, names, path, j as int),
                text_keys_distinct(name_path_entries(self.name_path_hashmap)),
                first_taken(es0, names, path, 0) == first_taken(es0, names, path, j as int),
                path_module_entries(self.path_exec_hashmap) == old(self).model().modules,
                old(self).wf(),
                es0 == old(self).model().names,
                !has_text_key(old(self).model().modules, path),
            decreases inv.invariant_names.len() - j,
        {
            if name_map_contains(&self.name_path_hashmap, &inv.invariant_names[j]) {
                return Err(ModuleError::AlreadyAddedInvariant(inv.invariant_names[j].clone()));
            }
            let _ = name_map_insert(&mut self.name_path_hashmap, inv.invariant_names[j].clone(), inv.exec_path.clone());
            proof {
                let e = name_path_entries(self.name_path_hashmap);
                assert(e =~= names_with(es0, names, path, j + 1));
                assert forall|a: int, b: int| 0 <= a < b < e.len() implies (#[trigger] e[a]).0 != (#[trigger] e[b]).0 by {
                    if b == e.len() - 1 && e[a].0 == e[b].0 {
                        assert(has_text_key(names_with(es0, names, path, j as int), names[j as int]@));
                    }
                }
            }
            j += 1;
        }
        let ghost modules0 = self.model().modules;
        let _ = module_map_insert(&mut self.path_exec_hashmap, inv.exec_path.clone(), inv);
        proof {
            let m = self.model().modules;
            assert forall|a: int, b: int| 0 <= a < b < m.len() implies (#[trigger] m[a]).0 != (#[trigger] m[b]).0 by {
                if b == m.len() - 1 && m[a].0 == m[b].0 {
                    assert(has_text_key(modules0, path));
                }
            }
        }
        Ok(())
    }

    /// Adds modules to the sorter, in order, stopping at the first refusal.
    /// # Errors
    /// The error of the first module refused, see [`ModuleSorter::add_inv_exec`].
    pub fn add_modules(&mut self, execs: Vec<Module>) -> (r: Result<(), ModuleError>)
        requires
            old(self).wf(),
        ensures
            final(self).wf(),
            (final(self).model(), r) == add_all(old(self).model(), execs@),
    {
        let ghost execs0 = execs@;
        let mut execs = execs;
        let mut res: Result<(), ModuleError> = Ok(());
        while execs.len() > 0 && res.is_ok()
            invariant
                self.wf(),
                res is Ok ==> add_all(self.model(), execs@) == add_all(old(self).model(), execs0),
                res is Err ==> (self.model(), res) == add_all(old(self).model(), execs0),
            decreases execs.len(),
        {
            let ghost before = execs@;
            let ghost m0 = self.model();
            let inv = execs.remove(0);
            proof {
                assert(before[0] == inv);
                assert(before.skip(1) =~= execs@);
            }
            res = self.add_inv_exec(inv);
            proof {
                assert(add_all(m0, before) == add_step(m0, before[0]) || add_all(m0, before) == add_all(self.model(), before.skip(1)));
            }
        }
        match res {
            Ok(()) => {
                proof {
                    assert(execs@.len() == 0);
                    assert(add_all(self.model(), execs@) == (self.model(), Ok::<(), ModuleError>(())));
                }
                Ok(())
            },
            Err(e) => Err(e),
        }
    }

    /// The number of modules in the sorter.
    pub fn len(&self) -> (r: usize)
        ensures
            r == self.model().modules.len(),
    {
        module_map_len(&self.path_exec_hashmap)
    }

    /// Whether the sorter holds no module.
    pub fn is_empty(&self) -> (r: bool)
        ensures
            r == (self.model().modules.len() == 0),
    {
        module_map_len(&self.path_exec_hashmap) == 0
    }

    /// Orders the modules so that each comes after the modules computing the
    /// invariants it depends on.
    /// # Errors
    /// [`ModuleError::MissingDependency`] for the first dependency, in the
    /// order of the modules and of their dependencies, that no name was added
    /// for; [`ModuleError::DependencyCycle`] when the dependencies form a cycle.
    pub fn sort(self) -> (r: Result<Vec<Module>, ModuleError>)
        requires
            self.wf(),
        ensures
            match first_missing(self.model(), 0) {
                Some((d, p)) => r == Err::<Vec<Module>, ModuleError>(ModuleError::MissingDependency(d, p)),
                None => if exists|ord: Seq<usize>| is_topo_order(module_graph(self.model()), ord) {
                    r matches Ok(v) && exists|ord: Seq<usize>| #[trigger] is_topo_order(module_graph(self.model()), ord) && sorted_as(self.model(), ord, v@)
                } else {
                    r == Err::<Vec<Module>, ModuleError>(ModuleError::DependencyCycle)
                },
            },
    {
        let ghost model = self.model();
        let n = module_map_len(&self.path_exec_hashmap);
        let mut topo = topo_with_capacity(n);
        let mut i: usize = 0;
        while i < n
            invariant
                self.wf(),
                model == self.model(),
                n == model.modules.len(),
                i <= n,
                first_missing(model, 0) == first_missing(model, i as int),
                topo_nodes(topo) =~= Map::new(|x: usize| x < i, |x: usize| module_deps(model, x as int)),
            decreases n - i,
        {
            let (_, exec) = match module_map_get_index(&self.path_exec_hashmap, i) {
                Some(e) => e,
                None => {
                    proof {
                        assert(false);
                    }
                    return Err(ModuleError::DependencyCycle);
                },
            };
            let mut deps: Vec<usize> = Vec::new();
            match &exec.dependencies {
                Some(ds) => {
                    let mut k: usize = 0;
                    while k < ds.len()
                        invariant
                            self.wf(),
                            model == self.model(),
                            n == model.modules.len(),
                            i < n,
                            model.modules[i as int].1 == *exec,
                            exec.dependencies == Some(*ds),
                            k <= ds@.len(),
                            first_missing_dep(model, ds@, 0) == first_missing_dep(model, ds@, k as int),
                            first_missing(model, 0) == first_missing(model, i as int),
                            forall|j: usize| #[trigger] deps@.contains(j) <==> module_dep_upto(model, i as int, j, k as int),
                        decreases ds.len() - k,
                    {
                        let ghost dk = ds@[k as int];
                        let ghost mods = model.modules;
                        let ghost depsi = deps_of_module(mods[i as int].1);
                        match name_map_get(&self.name_path_hashmap, &ds[k]) {
                            Some(path) => {
                                let ghost t = choose|t: int| 0 <= t < model.names.len() && model.names[t] == (dk@, path@);
                                match module_map_get_index_of(&self.path_exec_hashmap, path) {
                                    Some(j) => {
                                        let ghost before = deps@;
                                        deps.push(j);
                                        proof {
                                            assert(depsi == ds@);
                                            assert forall|j2: usize| #[trigger] deps@.contains(j2) <==> module_dep_upto(model, i as int, j2, k + 1) by {
                                                if deps@.contains(j2) && j2 != j {
                                                    let w = deps@.index_of(j2);
                                                    assert(before[w] == j2);
                                                    assert(before.contains(j2));
                                                }
                                                if j2 == j {
                                                    assert(deps@[before.len() as int] == j);
                                                    assert(depsi[k as int] == dk);
                                                    assert(module_dep_upto(model, i as int, j2, k + 1));
                                                }
                                                if module_dep_upto(model, i as int, j2, k + 1) && !module_dep_upto(model, i as int, j2, k as int) {
                                                    let (q, t2) = choose|q: int, t2: int|
                                                        #![trigger deps_of_module(mods[i as int].1)[q], model.names[t2]]
                                                        0 <= q < k + 1 && 0 <= q < depsi.len() && 0 <= t2 < model.names.len() && model.names[t2].0
                                                            == depsi[q]@ && model.names[t2].1 == mods[j2 as int].0;
                                                    assert(q == k);
                                                    if t2 != t {
                                                        if t2 < t {
                                                            assert(model.names[t2].0 != model.names[t].0);
                                                        } else {
                                                            assert(model.names[t].0 != model.names[t2].0);
                                                        }
                                                    }
                                                    if j2 != j {
                                                        if j2 < j {
                                                            assert(mods[j2 as int].0 != mods[j as int].0);
                                                        } else {
                                                            assert(mods[j as int].0 != mods[j2 as int].0);
                                                        }
                                                    }
                                                }
                                                if before.contains(j2) {
                                                    let w = before.index_of(j2);
                                                    assert(deps@[w] == j2);
                                                }
                                            }
                                        }
                                    },
                                    None => {
                                        proof {
                                            assert(depsi == ds@);
                                            assert forall|j2: usize| #[trigger] deps@.contains(j2) <==> module_dep_upto(model, i as int, j2, k + 1) by {
                                                if module_dep_upto(model, i as int, j2, k + 1) && !module_dep_upto(model, i as int, j2, k as int) {
                                                    let (q, t2) = choose|q: int, t2: int|
                                                        #![trigger deps_of_module(mods[i as int].1)[q], model.names[t2]]
                                                        0 <= q < k + 1 && 0 <= q < depsi.len() && 0 <= t2 < model.names.len() && model.names[t2].0
                                                            == depsi[q]@ && model.names[t2].1 == mods[j2 as int].0;
                                                    assert(q == k);
                                                    if t2 != t {
                                                        if t2 < t {
                                                            assert(model.names[t2].0 != model.names[t].0);
                                                        } else {
                                                            assert(model.names[t].0 != model.names[t2].0);
                                                        }
                                                    }
                                                    assert(mods[j2 as int].0 == path@);
                                                    assert(has_text_key(mods, path@));
                                                }
                                            }
                                        }
                                    },
                                }
                            },
                            None => {
                                proof {
                                    assert(depsi == ds@);
                                    assert(first_missing_dep(model, ds@, k as int) == Some(ds@[k as int]));
                                    assert(first_missing(model, i as int) == Some((ds@[k as int], exec.exec_path)));
                                }
                                return Err(ModuleError::MissingDependency(ds[k].clone(), exec.exec_path.clone()));
                            },
                        }
                        proof {
                            assert(first_missing_dep(model, ds@, k as int) == first_missing_dep(model, ds@, k + 1));
                        }
                        k += 1;
                    }
                },
                None => {},
            }
            proof {
                let depsi = deps_of_module(model.modules[i as int].1);
                if exec.dependencies is None {
                    assert forall|j2: usize| #[trigger] deps@.contains(j2) <==> module_dep_upto(model, i as int, j2, depsi.len() as int) by {}
                } else {
                    assert(first_missing_dep(model, depsi, 0) is None);
                }
                assert(deps@.to_set() =~= module_deps(model, i as int)) by {
                    assert forall|j2: usize| deps@.to_set().contains(j2) <==> module_deps(model, i as int).contains(j2) by {
                        assert(deps@.contains(j2) <==> module_dep_upto(model, i as int, j2, depsi.len() as int));
                    }
                }
                assert(first_missing(model, i as int) == first_missing(model, i + 1));
            }
            let ghost t0 = topo_nodes(topo);
            topo_insert(&mut topo, i, deps);
            proof {
                assert(topo_nodes(topo) =~= Map::new(|x: usize| x < i + 1, |x: usize| module_deps(model, x as int)));
            }
            i += 1;
        }
        proof {
            assert(topo_nodes(topo) =~= module_graph(model));
            assert(first_missing(model, n as int) is None);
        }
        let order = match topo_into_vec_nodes(topo) {
            Some(v) => v,
            None => return Err(ModuleError::DependencyCycle),
        };
        let ghost ord = order@;
        proof {
            assert forall|q: int| 0 <= q < ord.len() implies (#[trigger] ord[q]) < n by {
                assert(ord.to_set().contains(ord[q]));
                assert(module_graph(model).dom().contains(ord[q]));
            }
        }
        let mut slots = module_map_into_modules(self.path_exec_hashmap);
        let mut res: Vec<Module> = Vec::new();
        let mut p: usize = 0;
        while p < order.len()
            invariant
                ord == order@,
                ord.no_duplicates(),
                forall|q: int| 0 <= q < ord.len() ==> (#[trigger] ord[q]) < n,
                n == model.modules.len(),
                slots@.len() == n,
                forall|j: int| 0 <= j < n ==> #[trigger] slots@[j] == if ord.take(p as int).contains(j as usize) {
                    None
                } else {
                    Some(model.modules[j].1)
                },
                p <= ord.len(),
                res@.len() == p,
                forall|q: int| 0 <= q < p ==> res@[q] == model.modules[#[trigger] ord[q] as int].1,
            decreases order.len() - p,
        {
            let x = order[p];
            proof {
                assert(!ord.take(p as int).contains(x)) by {
                    if ord.take(p as int).contains(x) {
                        let w = ord.take(p as int).index_of(x);
                        assert(ord[w] == ord[p as int]);
                    }
                }
            }
            let mut slot: Option<Module> = None;
            slots.set_and_swap(x, &mut slot);
            match slot {
                Some(m) => res.push(m),
                None => {
                    proof {
                        assert(false);
                    }
                },
            }
            proof {
                assert forall|j: int| 0 <= j < n implies #[trigger] slots@[j] == if ord.take(p + 1).contains(j as usize) {
                    None
                } else {
                    Some(model.modules[j].1)
                } by {
                    if ord.take(p + 1).contains(j as usize) {
                        let w = ord.take(p + 1).index_of(j as usize);
                        if w < p {
                            assert(ord.take(p as int)[w] == j as usize);
                        }
                    }
                    if ord.take(p as int).contains(j as usize) {
                        let w = ord.take(p as int).index_of(j as usize);
                        assert(ord.take(p + 1)[w] == j as usize);
                    }
                    if j == x as int {
                        assert(ord.take(p + 1)[p as int] == x);
                    }
                }
            }
            p += 1;
        }
        proof {
            assert(sorted_as(model, ord, res@));
        }
        Ok(res)
    }
}

// ______________________________ the iterator

/// The entries of a map from texts to positions, by their characters, in order.
pub uninterp spec fn text_index_entries(m: IndexMap<String, usize>) -> Seq<(Seq<char>, usize)>;

/// The entries `es` once `k` maps to `v`: in place when `k` is a key, else last.
pub open spec fn text_insert(es: Seq<(Seq<char>, usize)>, k: Seq<char>, v: usize) -> Seq<(Seq<char>, usize)> {
    if has_text_key(es, k) {
        es.update(text_key_index(es, k), (k, v))
    } else {
        es.push((k, v))
    }
}

/// `IndexMap::new`: a map with no entry.
#[verifier::external_body]
fn new_index_map() -> (r: IndexMap<String, usize>)
    ensures
        text_index_entries(r) == Seq::<(Seq<char>, usize)>::empty(),
{
    IndexMap::new()
}

/// `IndexMap::insert`: with a new key, the entry goes last; with a key that is
/// there, that entry's value is replaced in place.
#[verifier::external_body]
fn index_map_insert(m: &mut IndexMap<String, usize>, k: String, v: usize) -> (r: Option<usize>)
    ensures
        text_index_entries(*final(m)) == text_insert(text_index_entries(*old(m)), k@, v),
        has_text_key(text_index_entries(*old(m)), k@) ==> r == Some(
            text_index_entries(*old(m))[text_key_index(text_index_entries(*old(m)), k@)].1,
        ),
        !has_text_key(text_index_entries(*old(m)), k@) ==> r is None,
{
    m.insert(k, v)
}

/// `IndexMap::get`: the value of the entry of key `k`, if there is one.
#[verifier::external_body]
fn index_map_get(m: &IndexMap<String, usize>, k: &String) -> (r: Option<usize>)
    ensures
        match r {
            Some(v) => exists|i: int| 0 <= i < text_index_entries(*m).len() && text_index_entries(*m)[i] == (k@, v),
            None => !has_text_key(text_index_entries(*m), k@),
        },
{
    m.get(k).copied()
}

/// `IndexMap::swap_remove`: removes the entry of key `k`, the last entry
/// taking its place, and gives back its value.
#[verifier::external_body]
fn index_map_swap_remove(m: &mut IndexMap<String, usize>, k: &String) -> (r: Option<usize>)
    ensures
        if has_text_key(text_index_entries(*old(m)), k@) {
            let es = text_index_entries(*old(m));
            let i = text_key_index(es, k@);
            &&& r == Some(es[i].1)
            &&& text_index_entries(*final(m)) == es.update(i, es.last()).drop_last()
        } else {
            &&& r is None
            &&& text_index_entries(*final(m)) == text_index_entries(*old(m))
        },
{
    m.swap_remove(k)
}

/// The number of modules still to hand out among `s`.
pub open spec fn count_some(s: Seq<Option<Module>>) -> nat
    decreases s.len(),
{
    if s.len() == 0 {
        0
    } else {
        count_some(s.drop_last()) + if s.last() is Some {
            1nat
        } else {
            0nat
        }
    }
}

/// The positions, from `hi - 1` down to `lo`, of the modules still in `s`
/// that wait for nothing according to `d`.
pub open spec fn free_between(s: Seq<Option<Module>>, d: Seq<usize>, lo: int, hi: int) -> Seq<usize>
    decreases hi - lo,
{
    if lo >= hi {
        Seq::empty()
    } else {
        free_between(s, d, lo + 1, hi) + if d[lo] == 0 && s[lo] is Some {
            seq![lo as usize]
        } else {
            Seq::empty()
        }
    }
}

/// The modules at the positions `t` of `s`.
pub open spec fn modules_at(s: Seq<Option<Module>>, t: Seq<usize>) -> Seq<Module> {
    Seq::new(t.len(), |k: int| s[t[k] as int].unwrap())
}

/// The entries `c` once each module at the positions `t` of `s` maps its path to its position.
pub open spec fn insert_paths(c: Seq<(Seq<char>, usize)>, s: Seq<Option<Module>>, t: Seq<usize>) -> Seq<(Seq<char>, usize)>
    decreases t.len(),
{
    if t.len() == 0 {
        c
    } else {
        text_insert(insert_paths(c, s, t.drop_last()), s[t.last() as int].unwrap().exec_path@, t.last())
    }
}

/// `d` once each position of `deps` waits for one call less, never below zero.
pub open spec fn release(d: Seq<usize>, deps: Seq<usize>) -> Seq<usize>
    decreases deps.len(),
{
    if deps.len() == 0 {
        d
    } else {
        let d1 = release(d, deps.drop_last());
        let x = deps.last() as int;
        if 0 <= x < d1.len() && d1[x] > 0 {
            d1.update(x, (d1[x] - 1) as usize)
        } else {
            d1
        }
    }
}

/// The modules in topological order and, for each, the number of invariants it still waits for
/// and the positions of the modules that depend on it.
struct ExecDepStore {
    modules: Vec<Option<Module>>,
    dep_left: Vec<usize>,
    dep_indexes: Vec<Vec<usize>>,
}

/// Hands out modules, each once the modules it depends on are done.
pub struct ModuleIterator {
    store: ExecDepStore,
    can_now_exec: Vec<Module>,
    /// Path -> position of the modules handed out, or ready to be, and not done.
    being_computed: IndexMap<String, usize>,
    left_to_exec: usize,
}

impl ModuleIterator {
    /// The modules not yet made ready, by position.
    pub closed spec fn slots(&self) -> Seq<Option<Module>> {
        self.store.modules@
    }

    /// For each position, the number of invariants it still waits for.
    pub closed spec fn waits(&self) -> Seq<usize> {
        self.store.dep_left@
    }

    /// For each position, the positions of the modules that depend on it.
    pub closed spec fn dependents(&self) -> Seq<Seq<usize>> {
        Seq::new(self.store.dep_indexes@.len(), |i: int| self.store.dep_indexes@[i]@)
    }

    /// The modules that can be handed out now, the last first.
    pub closed spec fn ready(&self) -> Seq<Module> {
        self.can_now_exec@
    }

    /// The paths and positions of the modules made ready and not done.
    pub closed spec fn computing(&self) -> Seq<(Seq<char>, usize)> {
        text_index_entries(self.being_computed)
    }

    /// The number of modules not handed out yet.
    pub closed spec fn left(&self) -> nat {
        self.left_to_exec as nat
    }

    /// The two iterators are alike in all that the specification shows.
    pub open spec fn same_state(&self, other: ModuleIterator) -> bool {
        &&& self.slots() == other.slots()
        &&& self.waits() == other.waits()
        &&& self.dependents() == other.dependents()
        &&& self.ready() == other.ready()
        &&& self.computing() == other.computing()
        &&& self.left() == other.left()
    }

    /// The positions agree, and the modules not handed out are those not made
    /// ready and those ready.
    pub open spec fn wf(&self) -> bool {
        let n = self.slots().len();
        &&& self.waits().len() == n
        &&& self.dependents().len() == n
        &&& forall|i: int, k: int| 0 <= i < n && 0 <= k < self.dependents()[i].len() ==> #[trigger] self.dependents()[i][k] < n
        &&& self.left() == count_some(self.slots()) + self.ready().len()
        &&& forall|k: int| 0 <= k < self.computing().len() ==> (#[trigger] self.computing()[k]).1 < n
    }

    /// An iterator over the modules of the store, those waiting for nothing made ready.
    fn new(store: ExecDepStore) -> (r: Self)
        requires
            store.dep_left@.len() == store.modules@.len(),
            store.dep_indexes@.len() == store.modules@.len(),
            forall|i: int, k: int|
                0 <= i < store.modules@.len() && 0 <= k < store.dep_indexes@[i]@.len() ==> #[trigger] store.dep_indexes@[i]@[k]
                    < store.modules@.len(),
            forall|i: int| 0 <= i < store.modules@.len() ==> (#[trigger] store.modules@[i]) is Some,
        ensures
            r.wf(),
            r.ready() == modules_at(store.modules@, free_between(store.modules@, store.dep_left@, 0, store.modules@.len() as int)),
            r.waits() == store.dep_left@,
            r.left() == store.modules@.len(),
    {
        let ghost s0 = store.modules@;
        let n = store.modules.len();
        proof {
            lemma_count_all_some(s0);
        }
        let mut res = ModuleIterator { left_to_exec: n, can_now_exec: Vec::new(), being_computed: new_index_map(), store };
        res.update_can_now_exec();
        res
    }

    /// Whether a module can be handed out now.
    pub fn has_next(&self) -> (r: bool)
        ensures
            r == (self.ready().len() > 0),
    {
        self.can_now_exec.len() > 0
    }

    /// Whether every module was handed out.
    pub fn is_finished(&self) -> (r: bool)
        ensures
            r == (self.left() == 0),
    {
        self.left_to_exec == 0
    }

    /// Makes ready, from the last position to the first, the modules that wait
    /// for nothing, and records them as being computed.
    fn update_can_now_exec(&mut self)
        requires
            old(self).wf(),
        ensures
            final(self).wf(),
            final(self).waits() == old(self).waits(),
            final(self).dependents() == old(self).dependents(),
            final(self).slots().len() == old(self).slots().len(),
            forall|j: int| 0 <= j < old(self).slots().len() ==> #[trigger] final(self).slots()[j] == if old(self).waits()[j] == 0 {
                None
            } else {
                old(self).slots()[j]
            },
            final(self).ready() == old(self).ready() + modules_at(
                old(self).slots(),
                free_between(old(self).slots(), old(self).waits(), 0, old(self).slots().len() as int),
            ),
            final(self).computing() == insert_paths(
                old(self).computing(),
                old(self).slots(),
                free_between(old(self).slots(), old(self).waits(), 0, old(self).slots().len() as int),
            ),
            final(self).left() == old(self).left(),
    {
        let ghost s0 = self.slots();
        let ghost d0 = self.waits();
        let ghost r0 = self.ready();
        let ghost c0 = self.computing();
        let n = self.store.modules.len();
        let mut i: usize = n;
        while i > 0
            invariant
                n == s0.len(),
                i <= n,
                self.waits() == d0,
                self.dependents() == old(self).dependents(),
                self.slots().len() == n,
                old(self).wf(),
                s0 == old(self).slots(),
                d0 == old(self).waits(),
                forall|j: int| 0 <= j < n ==> #[trigger] self.slots()[j] == if j >= i && d0[j] == 0 {
                    None
                } else {
                    s0[j]
                },
                self.ready() == r0 + modules_at(s0, free_between(s0, d0, i as int, n as int)),
                self.computing() == insert_paths(c0, s0, free_between(s0, d0, i as int, n as int)),
                self.left_to_exec == old(self).left_to_exec,
                count_some(self.slots()) + self.ready().len() == count_some(s0) + r0.len(),
                forall|k: int| 0 <= k < self.computing().len() ==> (#[trigger] self.computing()[k]).1 < n,
            decreases i,
        {
            i -= 1;
            let ghost sl = self.slots();
            let ghost fb = free_between(s0, d0, i as int, n as int);
            proof {
                assert(sl[i as int] == s0[i as int]);
            }
            if self.store.dep_left[i] == 0 && self.store.modules[i].is_some() {
                let mut slot: Option<Module> = None;
                self.store.modules.set_and_swap(i, &mut slot);
                let can_exec = slot.unwrap();
                let ghost cb = self.computing();
                let _ = index_map_insert(&mut self.being_computed, can_exec.exec_path.clone(), i);
                self.can_now_exec.push(can_exec);
                proof {
                    let c = self.computing();
                    assert forall|k: int| 0 <= k < c.len() implies (#[trigger] c[k]).1 < n by {
                        if has_text_key(cb, can_exec.exec_path@) {
                            let t = text_key_index(cb, can_exec.exec_path@);
                            if k != t {
                                assert(c[k] == cb[k]);
                            }
                        } else if k < cb.len() {
                            assert(c[k] == cb[k]);
                        }
                    }
                    assert(fb == free_between(s0, d0, i + 1, n as int).push(i));
                    assert(fb.drop_last() == free_between(s0, d0, i + 1, n as int));
                    assert(modules_at(s0, fb) =~= modules_at(s0, free_between(s0, d0, i + 1, n as int)).push(can_exec));
                    lemma_count_take(sl, i as int);
                    assert(self.slots() == sl.update(i as int, None));
                }
            } else {
                proof {
                    assert(fb == free_between(s0, d0, i + 1, n as int));
                }
            }
        }
    }

    /// The next module to run: the last one made ready. The iterator takes
    /// it as running until [`ModuleIterator::update_dependencies`] is called on it.
    pub fn next_module(&mut self) -> (r: Option<Module>)
        requires
            old(self).wf(),
        ensures
            final(self).wf(),
            final(self).slots() == old(self).slots(),
            final(self).waits() == old(self).waits(),
            final(self).dependents() == old(self).dependents(),
            final(self).computing() == old(self).computing(),
            old(self).ready().len() == 0 ==> r is None && final(self).ready() == old(self).ready() && final(self).left() == old(self).left(),
            old(self).ready().len() > 0 ==> {
                &&& r == Some(old(self).ready().last())
                &&& final(self).ready() == old(self).ready().drop_last()
                &&& final(self).left() + 1 == old(self).left()
            },
    {
        if self.can_now_exec.len() > 0 {
            self.left_to_exec -= 1;
            let m = self.can_now_exec.pop();
            proof {
                assert(self.ready().len() + 1 == old(self).ready().len());
                assert(self.left() == count_some(self.slots()) + self.ready().len());
                assert(self.slots() == old(self).slots());
                assert(self.waits() == old(self).waits());
                assert(self.dependents() == old(self).dependents());
                assert(self.computing() == old(self).computing());
                assert(self.wf());
            }
            m
        } else {
            None
        }
    }

    /// Tells the iterator that the module `inv` is done: each module that
    /// depends on it waits for one invariant less (for each dependency it
    /// has on it), and those that wait for nothing more are made ready. A
    /// module that is not running changes nothing.
    pub fn update_dependencies(&mut self, inv: &Module)
        requires
            old(self).wf(),
        ensures
            final(self).wf(),
            final(self).dependents() == old(self).dependents(),
            final(self).left() == old(self).left(),
            !has_text_key(old(self).computing(), inv.exec_path@) ==> final(self).same_state(*old(self)),
            has_text_key(old(self).computing(), inv.exec_path@) ==> {
                let c = old(self).computing();
                let t = text_key_index(c, inv.exec_path@);
                let c1 = c.update(t, c.last()).drop_last();
                let d1 = release(old(self).waits(), old(self).dependents()[c[t].1 as int]);
                let fb = free_between(old(self).slots(), d1, 0, old(self).slots().len() as int);
                &&& final(self).waits() == d1
                &&& forall|j: int| 0 <= j < old(self).slots().len() ==> #[trigger] final(self).slots()[j] == if d1[j] == 0 {
                    None
                } else {
                    old(self).slots()[j]
                }
                &&& final(self).ready() == old(self).ready() + modules_at(old(self).slots(), fb)
                &&& final(self).computing() == insert_paths(c1, old(self).slots(), fb)
            },
    {
        let ghost c = self.computing();
        match index_map_swap_remove(&mut self.being_computed, &inv.exec_path) {
            Some(index) => {
                proof {
                    let t = text_key_index(c, inv.exec_path@);
                    assert(c[t].1 == index);
                    let c1 = self.computing();
                    assert forall|k: int| 0 <= k < c1.len() implies (#[trigger] c1[k]).1 < self.slots().len() by {
                        if k == t {
                            assert(c1[k] == c.last());
                            assert(c[c.len() - 1] == c.last());
                        } else {
                            assert(c1[k] == c[k]);
                        }
                    }
                }
                let ghost d0 = self.waits();
                let ghost c1s = self.computing();
                let ghost deps = self.dependents()[index as int];
                let n = self.store.modules.len();
                let mut k: usize = 0;
                while k < self.store.dep_indexes[index].len()
                    invariant
                        index < n,
                        n == self.slots().len(),
                        self.dependents() == old(self).dependents(),
                        deps == self.dependents()[index as int],
                        self.waits().len() == n,
                        k <= deps.len(),
                        self.waits() == release(d0, deps.take(k as int)),
                        self.slots() == old(self).slots(),
                        self.ready() == old(self).ready(),
                        self.left_to_exec == old(self).left_to_exec,
                        old(self).wf(),
                        forall|i: int, q: int| 0 <= i < n && 0 <= q < self.dependents()[i].len() ==> #[trigger] self.dependents()[i][q] < n,
                        self.computing() == c1s,
                        forall|q: int| 0 <= q < c1s.len() ==> (#[trigger] c1s[q]).1 < n,
                    decreases deps.len() - k,
                {
                    let dep_index = self.store.dep_indexes[index][k];
                    proof {
                        assert(deps[k as int] == dep_index);
                        assert(deps.take(k + 1).drop_last() =~= deps.take(k as int));
                    }
                    if self.store.dep_left[dep_index] > 0 {
                        let v = self.store.dep_left[dep_index] - 1;
                        self.store.dep_left.set(dep_index, v);
                    }
                    k += 1;
                }
                proof {
                    assert(deps.take(k as int) =~= deps);
                }
                self.update_can_now_exec();
            },
            None => {},
        }
    }

    /// The next module, taken as done at once.
    pub fn next(&mut self) -> (r: Option<Module>)
        requires
            old(self).wf(),
        ensures
            final(self).wf(),
            old(self).ready().len() == 0 ==> r is None && final(self).same_state(*old(self)),
            old(self).ready().len() > 0 ==> r == Some(old(self).ready().last()) && final(self).left() + 1 == old(self).left(),
    {
        match self.next_module() {
            Some(inv) => {
                self.update_dependencies(&inv);
                Some(inv)
            },
            None => None,
        }
    }
}

/// Taking a module out of its position leaves one module less.
proof fn lemma_count_take(s: Seq<Option<Module>>, i: int)
    requires
        0 <= i < s.len(),
        s[i] is Some,
    ensures
        count_some(s.update(i, None)) + 1 == count_some(s),
    decreases s.len(),
{
    let t = s.update(i, None);
    if i < s.len() - 1 {
        lemma_count_take(s.drop_last(), i);
        assert(t.drop_last() =~= s.drop_last().update(i, None));
    } else {
        assert(t.drop_last() =~= s.drop_last());
    }
}

/// A sequence of modules that are all there counts each.
proof fn lemma_count_all_some(s: Seq<Option<Module>>)
    requires
        forall|i: int| 0 <= i < s.len() ==> (#[trigger] s[i]) is Some,
    ensures
        count_some(s) == s.len(),
    decreases s.len(),
{
    if s.len() > 0 {
        lemma_count_all_some(s.drop_last());
    }
}

/// Each dependency of each module is computed by another module, which the
/// name entry of the dependency leads to, and by none of the module's own names.
pub open spec fn deps_resolved(s: SorterModel) -> bool {
    forall|i: int, q: int|
        0 <= i < s.modules.len() && 0 <= q < deps_of_module(s.modules[i].1).len() ==> {
            let d = #[trigger] deps_of_module(s.modules[i].1)[q]@;
            &&& !has_text(s.modules[i].1.invariant_names@, d)
            &&& exists|j: int, t: int|
                0 <= j < s.modules.len() && j != i && 0 <= t < s.names.len() && s.names[t] == (d, s.modules[j].0) && has_text(
                    s.modules[j].1.invariant_names@,
                    d,
                )
        }
}

/// No module depends on one of the invariants it computes itself.
pub open spec fn no_self_dependency(s: SorterModel) -> bool {
    forall|i: int, q: int|
        0 <= i < s.modules.len() && 0 <= q < deps_of_module(s.modules[i].1).len() ==> !has_text(
            s.modules[i].1.invariant_names@,
            #[trigger] deps_of_module(s.modules[i].1)[q]@,
        )
}

/// The name entry of each dependency of each module leads to the path of a
/// module of the sorter that computes it (no entry is left over from a module
/// that was refused).
pub open spec fn deps_lead_to_modules(s: SorterModel) -> bool {
    forall|i: int, q: int|
        0 <= i < s.modules.len() && 0 <= q < deps_of_module(s.modules[i].1).len() ==> {
            let d = #[trigger] deps_of_module(s.modules[i].1)[q]@;
            exists|j: int, t: int|
                0 <= j < s.modules.len() && 0 <= t < s.names.len() && s.names[t] == (d, s.modules[j].0) && has_text(
                    s.modules[j].1.invariant_names@,
                    d,
                )
        }
}

/// The modules of `s` can be ordered: no dependency is missing and there is no cycle.
pub open spec fn sortable(s: SorterModel) -> bool {
    first_missing(s, 0) is None && exists|ord: Seq<usize>| is_topo_order(module_graph(s), ord)
}

/// With no module depending on its own invariants, each dependency that
/// leads to a module leads to another module.
proof fn lemma_deps_resolved(s: SorterModel)
    requires
        no_self_dependency(s),
        deps_lead_to_modules(s),
    ensures
        deps_resolved(s),
{
    assert forall|i: int, q: int| 0 <= i < s.modules.len() && 0 <= q < deps_of_module(s.modules[i].1).len() implies {
        let d = #[trigger] deps_of_module(s.modules[i].1)[q]@;
        &&& !has_text(s.modules[i].1.invariant_names@, d)
        &&& exists|j: int, t: int|
            0 <= j < s.modules.len() && j != i && 0 <= t < s.names.len() && s.names[t] == (d, s.modules[j].0) && has_text(
                s.modules[j].1.invariant_names@,
                d,
            )
    } by {
        let d = deps_of_module(s.modules[i].1)[q]@;
        let (j, t) = choose|j: int, t: int|
            0 <= j < s.modules.len() && 0 <= t < s.names.len() && s.names[t] == (d, s.modules[j].0) && has_text(
                s.modules[j].1.invariant_names@,
                d,
            );
        assert(j != i);
    }
}

/// For each module, the number of its dependencies.
pub open spec fn deps_counts(v: Seq<Module>) -> Seq<usize> {
    Seq::new(v.len(), |p: int| deps_of_module(v[p]).len() as usize)
}

/// The modules `v`, each in its slot.
pub open spec fn slots_of(v: Seq<Module>) -> Seq<Option<Module>> {
    Seq::new(v.len(), |p: int| Some(v[p]))
}

impl ModuleSorter {
    /// Orders the modules and gives an iterator handing them out, each once
    /// the modules it depends on are done. Where the modules can be ordered,
    /// no module may depend on one of its own invariants, and each dependency
    /// must lead to a module that computes it.
    /// # Errors
    /// Those of [`ModuleSorter::sort`].
    pub fn to_iter(self) -> (r: Result<ModuleIterator, ModuleError>)
        requires
            self.wf(),
            sortable(self.model()) ==> no_self_dependency(self.model()) && deps_lead_to_modules(self.model()),
        ensures
            match first_missing(self.model(), 0) {
                Some((d, p)) => r == Err::<ModuleIterator, ModuleError>(ModuleError::MissingDependency(d, p)),
                None => if exists|ord: Seq<usize>| is_topo_order(module_graph(self.model()), ord) {
                    r matches Ok(it) && it.wf() && exists|ord: Seq<usize>, v: Seq<Module>|
                        #![trigger is_topo_order(module_graph(self.model()), ord), sorted_as(self.model(), ord, v)]
                        is_topo_order(module_graph(self.model()), ord) && sorted_as(self.model(), ord, v) && it.waits()
                            == deps_counts(v) && it.left() == v.len() && it.ready() == modules_at(
                            slots_of(v),
                            free_between(slots_of(v), deps_counts(v), 0, v.len() as int),
                        )
                } else {
                    r == Err::<ModuleIterator, ModuleError>(ModuleError::DependencyCycle)
                },
            },
    {
        let ghost model = self.model();
        let count = self.len();
        let sorted_execs = match self.sort() {
            Ok(v) => v,
            Err(e) => return Err(e),
        };
        proof {
            lemma_deps_resolved(model);
        }
        let ghost ord = choose|ord: Seq<usize>| #[trigger] is_topo_order(module_graph(model), ord) && sorted_as(model, ord, sorted_execs@);
        let ghost v = sorted_execs@;
        proof {
            assert forall|p: int| 0 <= p < ord.len() implies #[trigger] ord[p] < count by {
                assert(ord.to_set().contains(ord[p]));
                assert(module_graph(model).dom().contains(ord[p]));
            }
            crate::engine::lemma_distinct_below(ord, count as nat);
        }
        let mut modules: Vec<Option<Module>> = Vec::new();
        let mut dep_left: Vec<usize> = Vec::new();
        let mut dep_indexes: Vec<Vec<usize>> = Vec::new();
        let mut name_index_hash = new_index_map();
        let mut execs = sorted_execs;
        let mut index: usize = 0;
        while execs.len() > 0
            invariant
                model.modules.len() == count,
                v.len() <= count,
                is_topo_order(module_graph(model), ord),
                sorted_as(model, ord, v),
                deps_resolved(model),
                index + execs@.len() == v.len(),
                execs@ == v.skip(index as int),
                modules@ == slots_of(v.take(index as int)),
                dep_left@ == deps_counts(v.take(index as int)),
                dep_indexes@.len() == index,
                forall|i: int, k: int| 0 <= i < index && 0 <= k < dep_indexes@[i]@.len() ==> #[trigger] dep_indexes@[i]@[k] < v.len(),
                forall|e: int| 0 <= e < text_index_entries(name_index_hash).len() ==> (#[trigger] text_index_entries(name_index_hash)[e]).1 < index,
                forall|p: int, k: int|
                    0 <= p < index && 0 <= k < v[p].invariant_names@.len() ==> has_text_key(
                        text_index_entries(name_index_hash),
                        #[trigger] v[p].invariant_names@[k]@,
                    ),
            decreases execs.len(),
        {
            let ghost e0 = text_index_entries(name_index_hash);
            let ghost execs0 = execs@;
            let exec = execs.remove(0);
            proof {
                assert(execs0[0] == v[index as int]);
                assert(execs@ =~= v.skip(index + 1));
            }
            let mut k: usize = 0;
            while k < exec.invariant_names.len()
                invariant
                    exec == v[index as int],
                    index < v.len(),
                    index + execs@.len() + 1 == v.len(),
                    k <= exec.invariant_names@.len(),
                    forall|e: int|
                        0 <= e < text_index_entries(name_index_hash).len() ==> (#[trigger] text_index_entries(name_index_hash)[e]).1
                            < index || (text_index_entries(name_index_hash)[e].1 == index && exists|kk: int|
                            0 <= kk < k && text_index_entries(name_index_hash)[e].0 == exec.invariant_names@[kk]@),
                    forall|p: int, kk: int|
                        0 <= p < index && 0 <= kk < v[p].invariant_names@.len() ==> has_text_key(
                            text_index_entries(name_index_hash),
                            #[trigger] v[p].invariant_names@[kk]@,
                        ),
                    forall|kk: int| 0 <= kk < k ==> has_text_key(text_index_entries(name_index_hash), #[trigger] exec.invariant_names@[kk]@),
                decreases exec.invariant_names.len() - k,
            {
                let ghost eb = text_index_entries(name_index_hash);
                let ghost key = exec.invariant_names@[k as int]@;
                let _ = index_map_insert(&mut name_index_hash, exec.invariant_names[k].clone(), index);
                proof {
                    let ea = text_index_entries(name_index_hash);
                    lemma_text_insert_keys(eb, key, index);
                    assert forall|e: int| 0 <= e < ea.len() implies (#[trigger] ea[e]).1 < index || (ea[e].1 == index && exists|kk: int|
                        0 <= kk < k + 1 && ea[e].0 == exec.invariant_names@[kk]@) by {
                        if has_text_key(eb, key) {
                            let t = text_key_index(eb, key);
                            if e != t {
                                assert(ea[e] == eb[e]);
                            } else {
                                assert(ea[e] == (key, index));
                            }
                        } else if e < eb.len() {
                            assert(ea[e] == eb[e]);
                        } else {
                            assert(ea[e] == (key, index));
                        }
                    }
                }
                k += 1;
            }
            let ghost entries = text_index_entries(name_index_hash);
            match &exec.dependencies {
                Some(deps) => {
                    let mut q: usize = 0;
                    while q < deps.len()
                        invariant
                            model.modules.len() == count,
                            is_topo_order(module_graph(model), ord),
                            sorted_as(model, ord, v),
                            deps_resolved(model),
                            exec == v[index as int],
                            exec.dependencies == Some(*deps),
                            index < v.len(),
                            forall|e: int|
                                0 <= e < entries.len() ==> (#[trigger] entries[e]).1 < index || (entries[e].1 == index && exists|kk: int|
                                    0 <= kk < v[index as int].invariant_names@.len() && entries[e].0 == v[index as int].invariant_names@[kk]@),
                            forall|p: int, kk: int|
                                0 <= p < index && 0 <= kk < v[p].invariant_names@.len() ==> has_text_key(entries, #[trigger] v[p].invariant_names@[kk]@),
                            q <= deps@.len(),
                            dep_indexes@.len() == index,
                            text_index_entries(name_index_hash) == entries,
                            forall|i: int, k2: int| 0 <= i < index && 0 <= k2 < dep_indexes@[i]@.len() ==> #[trigger] dep_indexes@[i]@[k2] < v.len(),
                        decreases deps.len() - q,
                    {
                        proof {
                            lemma_dep_found(model, ord, v, index as int, q as int, entries);
                        }
                        match index_map_get(&name_index_hash, &deps[q]) {
                            Some(j) => {
                                proof {
                                    let e = choose|e: int| 0 <= e < entries.len() && entries[e] == (deps@[q as int]@, j);
                                    assert(entries[e].1 == j);
                                }
                                let mut lst: Vec<usize> = Vec::new();
                                dep_indexes.set_and_swap(j, &mut lst);
                                lst.push(index);
                                dep_indexes.set_and_swap(j, &mut lst);
                                proof {
                                    assert forall|i: int, k2: int| 0 <= i < index && 0 <= k2 < dep_indexes@[i]@.len() implies #[trigger] dep_indexes@[i]@[k2] < v.len() by {
                                        if i == j as int && k2 == dep_indexes@[i]@.len() - 1 {
                                        }
                                    }
                                }
                            },
                            None => {},
                        }
                        q += 1;
                    }
                    dep_left.push(deps.len());
                },
                None => {
                    dep_left.push(0);
                },
            }
            modules.push(Some(exec));
            dep_indexes.push(Vec::new());
            proof {
                assert(modules@ =~= slots_of(v.take(index + 1)));
                assert(dep_left@ =~= deps_counts(v.take(index + 1)));
            }
            index += 1;
        }
        proof {
            assert(v.take(index as int) =~= v);
        }
        Ok(ModuleIterator::new(ExecDepStore { modules, dep_left, dep_indexes }))
    }
}

/// Mapping `k` to `v` keeps the keys there and adds `k`.
proof fn lemma_text_insert_keys(es: Seq<(Seq<char>, usize)>, k: Seq<char>, v: usize)
    ensures
        has_text_key(text_insert(es, k, v), k),
        forall|k2: Seq<char>| has_text_key(es, k2) ==> has_text_key(text_insert(es, k, v), k2),
        text_insert(es, k, v).len() >= es.len(),
{
    let e2 = text_insert(es, k, v);
    if has_text_key(es, k) {
        let t = text_key_index(es, k);
        assert(e2[t].0 == k);
        assert forall|k2: Seq<char>| has_text_key(es, k2) implies has_text_key(e2, k2) by {
            let i = choose|i: int| 0 <= i < es.len() && (#[trigger] es[i]).0 == k2;
            if i == t {
                assert(e2[t].0 == k2);
            } else {
                assert(e2[i] == es[i]);
            }
        }
    } else {
        assert(e2[es.len() as int].0 == k);
        assert forall|k2: Seq<char>| has_text_key(es, k2) implies has_text_key(e2, k2) by {
            let i = choose|i: int| 0 <= i < es.len() && (#[trigger] es[i]).0 == k2;
            assert(e2[i] == es[i]);
        }
    }
}

/// The `q`-th dependency of the module at position `index` of the sorted
/// modules `v` is a key of `entries`, whose value comes before `index`.
proof fn lemma_dep_found(model: SorterModel, ord: Seq<usize>, v: Seq<Module>, index: int, q: int, entries: Seq<(Seq<char>, usize)>)
    requires
        is_topo_order(module_graph(model), ord),
        sorted_as(model, ord, v),
        deps_resolved(model),
        model.modules.len() <= usize::MAX,
        0 <= index < v.len(),
        0 <= q < deps_of_module(v[index]).len(),
        forall|e: int|
            0 <= e < entries.len() ==> (#[trigger] entries[e]).1 < index || (entries[e].1 == index && exists|kk: int|
                0 <= kk < v[index].invariant_names@.len() && entries[e].0 == v[index].invariant_names@[kk]@),
        forall|p: int, kk: int|
            0 <= p < index && 0 <= kk < v[p].invariant_names@.len() ==> has_text_key(entries, #[trigger] v[p].invariant_names@[kk]@),
    ensures
        has_text_key(entries, deps_of_module(v[index])[q]@),
        forall|e: int| 0 <= e < entries.len() && entries[e].0 == deps_of_module(v[index])[q]@ ==> #[trigger] entries[e].1 < index,
{
    let i0 = ord[index] as int;
    let n = model.modules.len();
    assert(ord.to_set().contains(ord[index]));
    assert(module_graph(model).dom().contains(ord[index]));
    assert(v[index] == model.modules[i0].1);
    let d = deps_of_module(model.modules[i0].1)[q]@;
    assert(deps_of_module(v[index])[q]@ == d);
    let (j, t) = choose|j: int, t: int|
        0 <= j < n && j != i0 && 0 <= t < model.names.len() && model.names[t] == (d, model.modules[j].0) && has_text(
            model.modules[j].1.invariant_names@,
            d,
        );
    assert(module_dep_upto(model, i0, j as usize, deps_of_module(model.modules[i0].1).len() as int));
    assert(module_deps(model, i0).contains(j as usize));
    assert(module_graph(model)[ord[index]].contains(j as usize));
    assert(module_graph(model).dom().contains(j as usize));
    let p2 = choose|p2: int| 0 <= p2 < index && ord[p2] == j as usize;
    assert(v[p2] == model.modules[j].1);
    let kk = choose|kk: int| 0 <= kk < v[p2].invariant_names@.len() && (#[trigger] v[p2].invariant_names@[kk])@ == d;
    assert(has_text_key(entries, v[p2].invariant_names@[kk]@));
    assert forall|e: int| 0 <= e < entries.len() && entries[e].0 == deps_of_module(v[index])[q]@ implies #[trigger] entries[e].1 < index by {
        if entries[e].1 >= index {
            let kk2 = choose|kk2: int| 0 <= kk2 < v[index].invariant_names@.len() && entries[e].0 == v[index].invariant_names@[kk2]@;
            assert(has_text(model.modules[i0].1.invariant_names@, d));
        }
    }
}

impl ModuleSorter {
    /// A sorter holding the modules `values`, added in order.
    /// # Errors
    /// The error of the first module refused, see [`ModuleSorter::add_inv_exec`].
    pub fn from_modules(values: Vec<Module>) -> (r: Result<Self, ModuleError>)
        ensures
            r matches Ok(sorter) ==> sorter.wf() && add_all(empty_model(), values@).0 == sorter.model() && add_all(
                empty_model(),
                values@,
            ).1 is Ok,
            r matches Err(e) ==> add_all(empty_model(), values@).1 == Err::<(), ModuleError>(e),
    {
        let mut sorter = ModuleSorter::new();
        proof {
            assert(sorter.model().names =~= Seq::empty());
            assert(sorter.model().modules =~= Seq::empty());
            assert(sorter.model() == empty_model());
        }
        match sorter.add_modules(values) {
            Ok(()) => Ok(sorter),
            Err(e) => Err(e),
        }
    }
}

// ______________________________ a sorter of the modules some invariants need

/// The position of the last module among `all` that computes the invariant `name`.
pub open spec fn provider(all: Seq<Module>, name: Seq<char>) -> Option<int>
    decreases all.len(),
{
    if all.len() == 0 {
        None
    } else if has_text(all.last().invariant_names@, name) {
        Some(all.len() - 1)
    } else {
        provider(all.drop_last(), name)
    }
}

/// Adding to `s`, depth first, the module that computes `name`, then the
/// modules that compute its dependencies, in order. A module whose path was
/// added is not added again, but its dependencies are still visited. Ends
/// at the first other refusal, or at an invariant no module computes. `None`
/// when the depth of the visit exceeds `fuel`.
pub open spec fn visit(all: Seq<Module>, s: SorterModel, name: String, fuel: nat) -> Option<(SorterModel, Result<(), ModuleError>)>
    decreases fuel, 0nat, 0nat,
{
    match provider(all, name@) {
        None => Some((s, Err(ModuleError::UnknownInvariant(name)))),
        Some(i) => {
            let (s1, r1) = add_step(s, all[i]);
            if r1 is Err && !(r1->Err_0 is AlreadyAddedModule) {
                Some((s1, r1))
            } else if fuel == 0 {
                None
            } else {
                visit_list(all, s1, deps_of_module(all[i]), (fuel - 1) as nat)
            }
        },
    }
}

/// Visiting, in order, the invariants `names` (see [`visit`]), up to the
/// first refusal.
pub open spec fn visit_list(all: Seq<Module>, s: SorterModel, names: Seq<String>, fuel: nat) -> Option<
    (SorterModel, Result<(), ModuleError>),
>
    decreases fuel, 1nat, names.len(),
{
    if names.len() == 0 {
        Some((s, Ok(())))
    } else {
        match visit(all, s, names[0], fuel) {
            None => None,
            Some((s1, r1)) => if r1 is Err {
                Some((s1, r1))
            } else {
                visit_list(all, s1, names.skip(1), fuel)
            },
        }
    }
}

/// The visit of the invariants `names` ends for some depth: no dependency
/// cycle is met before it ends.
pub open spec fn visit_ends(all: Seq<Module>, names: Seq<String>) -> bool {
    exists|fuel: nat| (#[trigger] visit_list(all, empty_model(), names, fuel)) is Some
}

/// A depth at which the visit of `names` ends.
pub open spec fn visit_depth(all: Seq<Module>, names: Seq<String>) -> nat {
    choose|fuel: nat| (#[trigger] visit_list(all, empty_model(), names, fuel)) is Some
}

/// A module whose path is added stays added.
proof fn lemma_add_step_keeps_paths(s: SorterModel, m: Module, p: Seq<char>)
    requires
        has_text_key(s.modules, p),
    ensures
        has_text_key(add_step(s, m).0.modules, p),
{
    let i = choose|i: int| 0 <= i < s.modules.len() && (#[trigger] s.modules[i]).0 == p;
    let t = add_step(s, m).0.modules;
    assert(t[i] == s.modules[i]);
}

/// The module that `provider` gives computes the invariant.
proof fn lemma_provider(all: Seq<Module>, name: Seq<char>)
    ensures
        provider(all, name) matches Some(i) ==> 0 <= i < all.len() && has_text(all[i].invariant_names@, name),
    decreases all.len(),
{
    if all.len() > 0 && !has_text(all.last().invariant_names@, name) {
        lemma_provider(all.drop_last(), name);
        if let Some(i) = provider(all.drop_last(), name) {
            assert(all.drop_last()[i] == all[i]);
        }
    }
}

/// The position of the last of the modules, given by their names, that
/// computes `name`.
fn find_provider(names_of: &Vec<Vec<String>>, name: &String, Ghost(all): Ghost<Seq<Module>>) -> (r: Option<usize>)
    requires
        names_of@.len() == all.len(),
        forall|i: int| 0 <= i < all.len() ==> (#[trigger] names_of@[i])@ == all[i].invariant_names@,
    ensures
        match provider(all, name@) {
            Some(i) => (r matches Some(j) && j == i) && 0 <= i < all.len(),
            None => r is None,
        },
{
    proof {
        assert(all.take(all.len() as int) =~= all);
        lemma_provider(all, name@);
    }
    let mut i: usize = names_of.len();
    while i > 0
        invariant
            i <= all.len(),
            names_of@.len() == all.len(),
            forall|j: int| 0 <= j < all.len() ==> (#[trigger] names_of@[j])@ == all[j].invariant_names@,
            provider(all, name@) == provider(all.take(i as int), name@),
        decreases i,
    {
        let ghost t = all.take(i as int);
        proof {
            assert(t.drop_last() =~= all.take(i - 1));
            assert(t.last() == all[i - 1]);
        }
        let names = &names_of[i - 1];
        let mut k: usize = 0;
        let mut found = false;
        while k < names.len()
            invariant_except_break
                k <= names@.len(),
                !found,
                forall|q: int| 0 <= q < k ==> (#[trigger] names@[q])@ != name@,
            ensures
                found ==> k < names@.len() && names@[k as int]@ == name@,
                !found ==> forall|q: int| 0 <= q < names@.len() ==> (#[trigger] names@[q])@ != name@,
            decreases names.len() - k,
        {
            if names[k] == *name {
                found = true;
                break;
            }
            k += 1;
        }
        if found {
            proof {
                assert(names@ == all[i - 1].invariant_names@);
                assert(all[i - 1].invariant_names@[k as int]@ == name@);
                assert(has_text(t.last().invariant_names@, name@));
                assert(provider(t, name@) == Some(t.len() - 1));
            }
            return Some(i - 1);
        }
        proof {
            assert(names@ == all[i - 1].invariant_names@);
            assert(!has_text(t.last().invariant_names@, name@));
        }
        i -= 1;
    }
    proof {
        assert(all.take(0).len() == 0);
    }
    None
}

/// What a sorter that visits the modules `all` keeps of them: each module
/// not yet added by this visit, the names and the dependencies of each.
struct VisitState {
    slots: Vec<Option<Module>>,
    names_of: Vec<Vec<String>>,
    deps_of: Vec<Vec<String>>,
}

impl VisitState {
    /// The state holds the modules `all`, and each module taken out of it is
    /// added to the sorter of model `m`.
    spec fn holds(&self, all: Seq<Module>, m: SorterModel) -> bool {
        &&& self.slots@.len() == all.len()
        &&& self.names_of@.len() == all.len()
        &&& self.deps_of@.len() == all.len()
        &&& forall|i: int| 0 <= i < all.len() ==> (#[trigger] self.names_of@[i])@ == all[i].invariant_names@
        &&& forall|i: int| 0 <= i < all.len() ==> (#[trigger] self.deps_of@[i])@ == deps_of_module(all[i])
        &&& forall|i: int|
            0 <= i < all.len() ==> match #[trigger] self.slots@[i] {
                Some(x) => x == all[i],
                None => has_text_key(m.modules, all[i].exec_path@),
            }
    }
}

impl ModuleSorter {
    /// Visits the invariant `name` (see [`visit`]).
    fn add_inv_from_name(&mut self, st: &mut VisitState, name: &String, Ghost(all): Ghost<Seq<Module>>, Ghost(fuel): Ghost<nat>) -> (r: Result<(), ModuleError>)
        requires
            old(self).wf(),
            old(st).holds(all, old(self).model()),
            visit(all, old(self).model(), *name, fuel) is Some,
        ensures
            final(self).wf(),
            r is Ok ==> final(st).holds(all, final(self).model()),
            visit(all, old(self).model(), *name, fuel) == Some((final(self).model(), r)),
        decreases fuel,
    {
        let ghost s0 = self.model();
        proof {
            lemma_provider(all, name@);
        }
        let i = match find_provider(&st.names_of, name, Ghost(all)) {
            Some(i) => i,
            None => return Err(ModuleError::UnknownInvariant(name.clone())),
        };
        let ghost step = add_step(s0, all[i as int]);
        proof {
            assert(provider(all, name@) == Some(i as int));
            assert(visit(all, s0, *name, fuel) == if step.1 is Err && !(step.1->Err_0 is AlreadyAddedModule) {
                Some(step)
            } else if fuel == 0 {
                None
            } else {
                visit_list(all, step.0, deps_of_module(all[i as int]), (fuel - 1) as nat)
            });
        }
        let ghost slots0 = st.slots@;
        let mut taken: Option<Module> = None;
        st.slots.set_and_swap(i, &mut taken);
        proof {
            assert(taken == slots0[i as int]);
            assert(st.slots@ == slots0.update(i as int, None));
        }
        match taken {
            Some(m) => {
                proof {
                    assert(m == all[i as int]);
                }
                let res = self.add_inv_exec(m);
                match res {
                    Ok(()) => {},
                    Err(ModuleError::AlreadyAddedModule(p)) => {},
                    Err(e) => {
                        proof {
                            assert(!(e is AlreadyAddedModule));
                            assert(step == (self.model(), Err::<(), ModuleError>(e)));
                            assert(visit(all, s0, *name, fuel) == Some(step));
                        }
                        return Err(e);
                    },
                }
                proof {
                    assert(step.1 is Ok || step.1->Err_0 is AlreadyAddedModule);
                    assert(self.model() == step.0);
                    assert(has_text_key(self.model().modules, all[i as int].exec_path@)) by {
                        if step.1 is Ok {
                            let t = self.model().modules;
                            assert(t[t.len() - 1].0 == all[i as int].exec_path@);
                        }
                    }
                }
            },
            None => {
                proof {
                    assert(has_text_key(s0.modules, all[i as int].exec_path@));
                    assert(step == (s0, Err::<(), ModuleError>(ModuleError::AlreadyAddedModule(all[i as int].exec_path))));
                    assert(step.1->Err_0 is AlreadyAddedModule);
                }
            },
        }
        proof {
            assert forall|j: int| 0 <= j < all.len() implies match #[trigger] st.slots@[j] {
                Some(x) => x == all[j],
                None => has_text_key(self.model().modules, all[j].exec_path@),
            } by {
                if j != i && st.slots@[j] is None {
                    assert(slots0[j] is None);
                    lemma_add_step_keeps_paths(s0, all[i as int], all[j].exec_path@);
                }
            }
            assert(st.holds(all, self.model()));
            assert(step.1 is Ok || step.1->Err_0 is AlreadyAddedModule);
            assert(self.model() == step.0);
            assert(fuel > 0);
        }
        let ghost s1 = self.model();
        let ghost deps = deps_of_module(all[i as int]);
        let ghost whole = visit(all, s0, *name, fuel);
        proof {
            assert(whole == visit_list(all, s1, deps, (fuel - 1) as nat));
            assert(deps.skip(0) =~= deps);
        }
        let mut k: usize = 0;
        let n = st.deps_of[i].len();
        while k < n
            invariant
                self.wf(),
                st.holds(all, self.model()),
                i < all.len(),
                n == deps.len(),
                deps == deps_of_module(all[i as int]),
                k <= n,
                fuel > 0,
                s0 == old(self).model(),
                whole == visit(all, s0, *name, fuel),
                whole is Some,
                visit_list(all, self.model(), deps.skip(k as int), (fuel - 1) as nat) == whole,
            decreases n - k,
        {
            let dep = st.deps_of[i][k].clone();
            proof {
                assert(st.deps_of@[i as int]@ == deps);
                assert(deps.skip(k as int)[0] == deps[k as int]);
                assert(dep == deps[k as int]);
                assert(deps.skip(k as int).skip(1) =~= deps.skip(k + 1));
            }
            let ghost mb = self.model();
            let res = self.add_inv_from_name(st, &dep, Ghost(all), Ghost((fuel - 1) as nat));
            match res {
                Ok(()) => {},
                Err(e) => {
                    proof {
                        assert(visit_list(all, mb, deps.skip(k as int), (fuel - 1) as nat) == Some((self.model(), Err::<(), ModuleError>(e))));
                        assert(whole == Some((self.model(), Err::<(), ModuleError>(e))));
                        assert(whole == visit(all, s0, *name, fuel));
                    }
                    return Err(e);
                },
            }
            k += 1;
        }
        proof {
            assert(deps.skip(k as int).len() == 0);
        }
        Ok(())
    }

    /// A sorter of the modules of `all_invariants` that the invariants
    /// `inv_to_add` need: for each, in order, the last module that computes
    /// it, then, depth first, those its dependencies need. A module whose
    /// path was added is not added again.
    /// # Errors
    /// [`ModuleError::UnknownInvariant`] for the first invariant met that no
    /// module computes; the first other refusal of
    /// [`ModuleSorter::add_inv_exec`].
    pub fn new_from(all_invariants: Vec<Module>, inv_to_add: Vec<String>) -> (r: Result<Self, ModuleError>)
        requires
            visit_ends(all_invariants@, inv_to_add@),
        ensures
            ({
                let (m, res) = visit_list(all_invariants@, empty_model(), inv_to_add@, visit_depth(all_invariants@, inv_to_add@))->0;
                &&& r matches Ok(sorter) ==> sorter.wf() && sorter.model() == m && res is Ok
                &&& r matches Err(e) ==> res == Err::<(), ModuleError>(e)
            }),
    {
        let ghost all = all_invariants@;
        let ghost fuel = visit_depth(all, inv_to_add@);
        let mut st = VisitState { slots: Vec::new(), names_of: Vec::new(), deps_of: Vec::new() };
        let mut sorter = ModuleSorter::new();
        proof {
            assert(sorter.model().names =~= Seq::empty());
            assert(sorter.model().modules =~= Seq::empty());
            assert(sorter.model() == empty_model());
        }
        let mut rest = all_invariants;
        let ghost mut k: int = 0;
        while rest.len() > 0
            invariant
                0 <= k <= all.len(),
                rest@ == all.skip(k),
                st.slots@.len() == k,
                st.names_of@.len() == k,
                st.deps_of@.len() == k,
                forall|i: int| 0 <= i < k ==> (#[trigger] st.names_of@[i])@ == all[i].invariant_names@,
                forall|i: int| 0 <= i < k ==> (#[trigger] st.deps_of@[i])@ == deps_of_module(all[i]),
                forall|i: int| 0 <= i < k ==> #[trigger] st.slots@[i] == Some(all[i]),
            decreases rest.len(),
        {
            let m = rest.remove(0);
            proof {
                assert(all.skip(k)[0] == m);
                assert(all.skip(k).skip(1) =~= all.skip(k + 1));
                assert(all[k] == m);
            }
            let names = m.invariant_names.clone();
            let deps = match &m.dependencies {
                Some(d) => d.clone(),
                None => Vec::new(),
            };
            proof {
                assert(names@ =~= m.invariant_names@);
                assert(deps@ =~= deps_of_module(m));
            }
            st.names_of.push(names);
            st.deps_of.push(deps);
            st.slots.push(Some(m));
            proof {
                k = k + 1;
            }
        }
        proof {
            assert(all.skip(k).len() == 0);
            assert(st.holds(all, sorter.model()));
        }
        let ghost whole = visit_list(all, empty_model(), inv_to_add@, fuel);
        proof {
            assert(inv_to_add@.skip(0) =~= inv_to_add@);
        }
        let mut j: usize = 0;
        let mut failed: Option<ModuleError> = None;
        while j < inv_to_add.len()
            invariant_except_break
                sorter.wf(),
                st.holds(all, sorter.model()),
                j <= inv_to_add@.len(),
                whole == visit_list(all, empty_model(), inv_to_add@, fuel),
                whole is Some,
                visit_list(all, sorter.model(), inv_to_add@.skip(j as int), fuel) == whole,
                failed is None,
            ensures
                sorter.wf(),
                whole == visit_list(all, empty_model(), inv_to_add@, fuel),
                failed matches Some(e) ==> whole == Some((sorter.model(), Err::<(), ModuleError>(e))),
                failed is None ==> whole == Some((sorter.model(), Ok::<(), ModuleError>(()))),
            decreases inv_to_add.len() - j,
        {
            proof {
                assert(inv_to_add@.skip(j as int)[0] == inv_to_add@[j as int]);
                assert(inv_to_add@.skip(j as int).skip(1) =~= inv_to_add@.skip(j + 1));
            }
            let ghost mb = sorter.model();
            match sorter.add_inv_from_name(&mut st, &inv_to_add[j], Ghost(all), Ghost(fuel)) {
                Ok(()) => {},
                Err(e) => {
                    proof {
                        assert(visit_list(all, mb, inv_to_add@.skip(j as int), fuel) == Some((sorter.model(), Err::<(), ModuleError>(e))));
                    }
                    failed = Some(e);
                    break;
                },
            }
            j += 1;
            proof {
                if j == inv_to_add@.len() {
                    assert(inv_to_add@.skip(j as int).len() == 0);
                }
            }
        }
        proof {
            if inv_to_add@.len() == 0 {
                assert(inv_to_add@.skip(0).len() == 0);
            }
        }
        if let Some(e) = failed {
            return Err(e);
        }
        Ok(sorter)
    }
}

impl Module {
    /// One step of running the module, `waiting` lines having been written
    /// since the output was last read: the values of an input are written as a
    /// line, and once `batch_size` lines wait, the output is read; when the
    /// input ends, the lines still waiting are read.
    /// # Errors
    /// Those of [`Module::input_line`].
    pub fn exec_step(&self, waiting: usize, batch_size: usize, event: ExecEvent) -> (r: Result<(usize, ExecAction), ModuleExecutionError>)
        requires
            waiting < usize::MAX,
            self.dependencies matches Some(d) ==> d@.len() < usize::MAX,
        ensures
            match event {
                ExecEvent::Input(val) => match self.dependencies {
                    Some(d) if d@.len() + 1 != val@.len() => r == Err::<(usize, ExecAction), ModuleExecutionError>(
                        ModuleExecutionError::UnexpectedInput(self.exec_path, val@.len() as usize, (d@.len() + 1) as usize),
                    ),
                    _ => r matches Ok((w, a)) && if waiting + 1 >= batch_size {
                        w == 0 && (a matches ExecAction::WriteAndCollect(line, n) && n == waiting + 1 && line@ == csv_line(
                            row_chars(val@),
                            ' ',
                        ))
                    } else {
                        w == waiting + 1 && (a matches ExecAction::Write(line) && line@ == csv_line(row_chars(val@), ' '))
                    },
                },
                ExecEvent::InputEnded => if waiting > 0 {
                    r == Ok::<(usize, ExecAction), ModuleExecutionError>((0, ExecAction::CollectAndFinish(waiting)))
                } else {
                    r == Ok::<(usize, ExecAction), ModuleExecutionError>((0, ExecAction::Finish))
                },
            },
    {
        match event {
            ExecEvent::Input(val) => {
                let line = match self.input_line(&val) {
                    Ok(l) => l,
                    Err(e) => return Err(e),
                };
                let waiting = waiting + 1;
                if waiting >= batch_size {
                    Ok((0, ExecAction::WriteAndCollect(line, waiting)))
                } else {
                    Ok((waiting, ExecAction::Write(line)))
                }
            },
            ExecEvent::InputEnded => {
                if waiting > 0 {
                    Ok((0, ExecAction::CollectAndFinish(waiting)))
                } else {
                    Ok((0, ExecAction::Finish))
                }
            },
        }
    }
}

} // verus!
