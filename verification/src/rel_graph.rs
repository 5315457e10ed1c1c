//! The relation graph between the function calls of a query.
use vstd::prelude::*;
use crate::data_types::{ConstantValue, ValueType};
use crate::expr::{MathExpression, Prim};
use crate::module::{Module, TypedArg};

verus! {

/// Errors while adding function calls to a [`RelationGraph`].
#[derive(Debug, PartialEq, Eq)]
pub enum RelationGraphError {
    /// Tried to use "{0}" but no module references this function.
    UnknownFunction(String),
    /// The given function ref ("{0}", {1}) is not known.
    UnknownFunctionRef(String, usize),
    /// Tried to call the function "{0}" with {1} argument instead of {2}.
    DifferentArgumentNumber(String, usize, usize),
    /// Tried to call the function "{0}" with an argument of type {2} instead of {3} for "{1}".
    DifferentArgumentType(String, String, ValueType, ValueType),
}

/// The unique identifier of a function call: (`function_name`, `id`).
pub type FnRef = (String, usize);

pub fn copy_fn_ref(f: &FnRef) -> (r: FnRef)
    ensures
        r == *f,
{
    (f.0.clone(), f.1)
}

/// The primitive values of an expression once its function calls are flattened.
#[derive(Debug, PartialEq, Eq)]
pub enum FnArg {
    /// The result of a call to another function.
    FnCall(FnRef),
    /// A constant value.
    Constant(ConstantValue),
    /// The graph of the dataset.
    Dataset,
}

impl Prim for FnArg {
    fn copy_prim(&self) -> (r: Self) {
        match self {
            FnArg::FnCall(f) => FnArg::FnCall(copy_fn_ref(f)),
            FnArg::Constant(c) => FnArg::Constant(c.copy()),
            FnArg::Dataset => FnArg::Dataset,
        }
    }
}

impl Clone for FnArg {
    fn clone(&self) -> (r: Self)
        ensures
            r == *self,
    {
        self.copy_prim()
    }
}

/// Two constant values that are equal, strings compared by their characters.
pub open spec fn same_constant(a: ConstantValue, b: ConstantValue) -> bool {
    match a {
        ConstantValue::Numeric(x) => b matches ConstantValue::Numeric(y) && x@ == y@,
        ConstantValue::String(x) => b matches ConstantValue::String(y) && x@ == y@,
        ConstantValue::Identifier(x) => b matches ConstantValue::Identifier(y) && x@ == y@,
        ConstantValue::Bool(x) => b matches ConstantValue::Bool(y) && x == y,
    }
}

/// Two function references that are equal.
pub open spec fn same_ref(a: FnRef, b: FnRef) -> bool {
    a.0@ == b.0@ && a.1 == b.1
}

/// Two primitive values that are equal.
pub open spec fn same_arg(a: FnArg, b: FnArg) -> bool {
    match a {
        FnArg::FnCall(x) => b matches FnArg::FnCall(y) && same_ref(x, y),
        FnArg::Constant(x) => b matches FnArg::Constant(y) && same_constant(x, y),
        FnArg::Dataset => b is Dataset,
    }
}

/// Two expressions that are equal.
pub open spec fn same_expr(a: MathExpression<FnArg>, b: MathExpression<FnArg>) -> bool
    decreases a,
{
    match a {
        MathExpression::Primitif(x) => b matches MathExpression::Primitif(y) && same_arg(x, y),
        MathExpression::Negation(x) => b matches MathExpression::Negation(y) && same_expr(*x, *y),
        MathExpression::Floor(x) => b matches MathExpression::Floor(y) && same_expr(*x, *y),
        MathExpression::Ceil(x) => b matches MathExpression::Ceil(y) && same_expr(*x, *y),
        MathExpression::Abs(x) => b matches MathExpression::Abs(y) && same_expr(*x, *y),
        MathExpression::Sqrt(x) => b matches MathExpression::Sqrt(y) && same_expr(*x, *y),
        MathExpression::BinOperation { left, op, right } => b matches MathExpression::BinOperation {
            left: l2,
            op: o2,
            right: r2,
        } && op == o2 && same_expr(*left, *l2) && same_expr(*right, *r2),
    }
}

/// Two lists of arguments that are equal.
pub open spec fn same_args(a: Seq<MathExpression<FnArg>>, b: Seq<MathExpression<FnArg>>) -> bool {
    a.len() == b.len() && forall|i: int| 0 <= i < a.len() ==> same_expr(#[trigger] a[i], b[i])
}

pub proof fn lemma_same_expr_refl(a: MathExpression<FnArg>)
    ensures
        same_expr(a, a),
    decreases a,
{
    match a {
        MathExpression::Primitif(_) => {},
        MathExpression::Negation(x) => lemma_same_expr_refl(*x),
        MathExpression::Floor(x) => lemma_same_expr_refl(*x),
        MathExpression::Ceil(x) => lemma_same_expr_refl(*x),
        MathExpression::Abs(x) => lemma_same_expr_refl(*x),
        MathExpression::Sqrt(x) => lemma_same_expr_refl(*x),
        MathExpression::BinOperation { left, op, right } => {
            lemma_same_expr_refl(*left);
            lemma_same_expr_refl(*right);
        },
    }
}

pub proof fn lemma_same_expr_trans(a: MathExpression<FnArg>, b: MathExpression<FnArg>, c: MathExpression<FnArg>)
    requires
        same_expr(a, b),
        same_expr(b, c) || same_expr(c, b),
    ensures
        same_expr(a, c),
        same_expr(c, a),
        same_expr(b, a),
    decreases a,
{
    match a {
        MathExpression::Primitif(_) => {},
        MathExpression::Negation(x) => {
            match (b, c) {
                (MathExpression::Negation(y), MathExpression::Negation(z)) => lemma_same_expr_trans(*x, *y, *z),
                _ => {},
            }
        },
        MathExpression::Floor(x) => {
            match (b, c) {
                (MathExpression::Floor(y), MathExpression::Floor(z)) => lemma_same_expr_trans(*x, *y, *z),
                _ => {},
            }
        },
        MathExpression::Ceil(x) => {
            match (b, c) {
                (MathExpression::Ceil(y), MathExpression::Ceil(z)) => lemma_same_expr_trans(*x, *y, *z),
                _ => {},
            }
        },
        MathExpression::Abs(x) => {
            match (b, c) {
                (MathExpression::Abs(y), MathExpression::Abs(z)) => lemma_same_expr_trans(*x, *y, *z),
                _ => {},
            }
        },
        MathExpression::Sqrt(x) => {
            match (b, c) {
                (MathExpression::Sqrt(y), MathExpression::Sqrt(z)) => lemma_same_expr_trans(*x, *y, *z),
                _ => {},
            }
        },
        MathExpression::BinOperation { left, op, right } => {
            match (b, c) {
                (
                    MathExpression::BinOperation { left: l2, op: o2, right: r2 },
                    MathExpression::BinOperation { left: l3, op: o3, right: r3 },
                ) => {
                    lemma_same_expr_trans(*left, *l2, *l3);
                    lemma_same_expr_trans(*right, *r2, *r3);
                },
                _ => {},
            }
        },
    }
}

fn constant_eq(a: &ConstantValue, b: &ConstantValue) -> (r: bool)
    ensures
        r == same_constant(*a, *b),
{
    match (a, b) {
        (ConstantValue::Numeric(x), ConstantValue::Numeric(y)) => x.same(y),
        (ConstantValue::String(x), ConstantValue::String(y)) => *x == *y,
        (ConstantValue::Identifier(x), ConstantValue::Identifier(y)) => *x == *y,
        (ConstantValue::Bool(x), ConstantValue::Bool(y)) => *x == *y,
        _ => false,
    }
}

fn arg_eq(a: &FnArg, b: &FnArg) -> (r: bool)
    ensures
        r == same_arg(*a, *b),
{
    match (a, b) {
        (FnArg::FnCall(x), FnArg::FnCall(y)) => x.0 == y.0 && x.1 == y.1,
        (FnArg::Constant(x), FnArg::Constant(y)) => constant_eq(x, y),
        (FnArg::Dataset, FnArg::Dataset) => true,
        _ => false,
    }
}

/// Whether two expressions are equal.
pub fn expr_eq(a: &MathExpression<FnArg>, b: &MathExpression<FnArg>) -> (r: bool)
    ensures
        r == same_expr(*a, *b),
    decreases a,
{
    match (a, b) {
        (MathExpression::Primitif(x), MathExpression::Primitif(y)) => arg_eq(x, y),
        (MathExpression::Negation(x), MathExpression::Negation(y)) => expr_eq(&**x, &**y),
        (MathExpression::Floor(x), MathExpression::Floor(y)) => expr_eq(&**x, &**y),
        (MathExpression::Ceil(x), MathExpression::Ceil(y)) => expr_eq(&**x, &**y),
        (MathExpression::Abs(x), MathExpression::Abs(y)) => expr_eq(&**x, &**y),
        (MathExpression::Sqrt(x), MathExpression::Sqrt(y)) => expr_eq(&**x, &**y),
        (
            MathExpression::BinOperation { left: l1, op: o1, right: r1 },
            MathExpression::BinOperation { left: l2, op: o2, right: r2 },
        ) => *o1 == *o2 && expr_eq(&**l1, &**l2) && expr_eq(&**r1, &**r2),
        _ => false,
    }
}

/// Whether two lists of arguments are equal.
pub fn args_eq(a: &Vec<MathExpression<FnArg>>, b: &Vec<MathExpression<FnArg>>) -> (r: bool)
    ensures
        r == same_args(a@, b@),
{
    if a.len() != b.len() {
        return false;
    }
    let mut i: usize = 0;
    while i < a.len()
        invariant
            a@.len() == b@.len(),
            i <= a@.len(),
            forall|k: int| 0 <= k < i ==> same_expr(#[trigger] a@[k], b@[k]),
        decreases a.len() - i,
    {
        if !expr_eq(&a[i], &b[i]) {
            return false;
        }
        i += 1;
    }
    true
}

/// The type of a constant value (an identifier names a text value).
pub open spec fn type_of_constant(c: ConstantValue) -> ValueType {
    match c {
        ConstantValue::Numeric(_) => ValueType::Numeric,
        ConstantValue::String(_) => ValueType::String,
        ConstantValue::Identifier(_) => ValueType::String,
        ConstantValue::Bool(_) => ValueType::Bool,
    }
}

/// Whether a module of `mods` computes the function `name`.
pub open spec fn has_module(mods: Seq<Module>, name: Seq<char>) -> bool {
    exists|i: int| 0 <= i < mods.len() && (#[trigger] mods[i]).fn_name@ == name
}

/// The index of the module of `mods` that computes the function `name`.
pub open spec fn module_index(mods: Seq<Module>, name: Seq<char>) -> int {
    choose|i: int| 0 <= i < mods.len() && (#[trigger] mods[i]).fn_name@ == name
}

/// No two modules of `mods` compute functions of the same name.
pub open spec fn unique_names(mods: Seq<Module>) -> bool {
    forall|i: int, j: int|
        0 <= i < mods.len() && 0 <= j < mods.len() && i != j ==> (#[trigger] mods[i]).fn_name@ != (#[trigger] mods[j]).fn_name@
}

/// The type of the value of an argument, where the modules `mods` compute the functions.
pub open spec fn arg_type(mods: Seq<Module>, e: MathExpression<FnArg>) -> Result<ValueType, RelationGraphError> {
    match e {
        MathExpression::Primitif(p) => match p {
            FnArg::FnCall(r) => if has_module(mods, r.0@) {
                Ok(mods[module_index(mods, r.0@)].output)
            } else {
                Err(RelationGraphError::UnknownFunction(r.0))
            },
            FnArg::Constant(c) => Ok(type_of_constant(c)),
            FnArg::Dataset => Ok(ValueType::Graph),
        },
        _ => Ok(ValueType::Numeric),
    }
}

/// The first error among the arguments `args`, from `i` on, of a call to `name`
/// whose parameters are `params`.
pub open spec fn first_arg_error(
    mods: Seq<Module>,
    name: String,
    params: Seq<TypedArg>,
    args: Seq<MathExpression<FnArg>>,
    i: int,
) -> Option<RelationGraphError>
    decreases args.len() - i,
{
    if i < 0 || i >= args.len() {
        None
    } else {
        match arg_type(mods, args[i]) {
            Err(e) => Some(e),
            Ok(t) => if t != params[i].data_type {
                Some(RelationGraphError::DifferentArgumentType(name, params[i].name, t, params[i].data_type))
            } else {
                first_arg_error(mods, name, params, args, i + 1)
            },
        }
    }
}

/// Why a call of `name` on `args` cannot be made, if it cannot: no module
/// computes `name`, the number of arguments differs from that of the module's
/// parameters, or an argument has another type than its parameter.
pub open spec fn call_error(mods: Seq<Module>, name: String, args: Seq<MathExpression<FnArg>>) -> Option<RelationGraphError> {
    if !has_module(mods, name@) {
        Some(RelationGraphError::UnknownFunction(name))
    } else {
        let m = mods[module_index(mods, name@)];
        if m.args@.len() != args.len() {
            Some(RelationGraphError::DifferentArgumentNumber(name, args.len() as usize, m.args@.len() as usize))
        } else {
            first_arg_error(mods, name, m.args@, args, 0)
        }
    }
}

/// Each call of `g` is relied on only by calls made after it.
pub open spec fn deps_ordered(g: RelationGraph) -> bool {
    forall|y: int, x: usize| 0 <= y < g.size() && #[trigger] g.dependents(y).contains(x) ==> y < x
}

/// The number of lists of `deps` that contain `x`.
pub open spec fn count_containing(deps: Seq<Seq<usize>>, x: int) -> nat
    decreases deps.len(),
{
    if deps.len() == 0 {
        0
    } else {
        count_containing(deps.drop_last(), x) + if deps.last().contains(x as usize) {
            1nat
        } else {
            0nat
        }
    }
}

proof fn lemma_count_le(deps: Seq<Seq<usize>>, x: int)
    ensures
        count_containing(deps, x) <= deps.len(),
    decreases deps.len(),
{
    if deps.len() > 0 {
        lemma_count_le(deps.drop_last(), x);
    }
}

proof fn lemma_count_push(deps: Seq<Seq<usize>>, d: Seq<usize>, x: int)
    ensures
        count_containing(deps.push(d), x) == count_containing(deps, x) + if d.contains(x as usize) {
            1nat
        } else {
            0nat
        },
{
    assert(deps.push(d).drop_last() =~= deps);
}

proof fn lemma_count_update(deps: Seq<Seq<usize>>, j: int, d: Seq<usize>, x: int)
    requires
        0 <= j < deps.len(),
    ensures
        count_containing(deps.update(j, d), x) + (if deps[j].contains(x as usize) { 1nat } else { 0nat })
            == count_containing(deps, x) + (if d.contains(x as usize) { 1nat } else { 0nat }),
    decreases deps.len(),
{
    if j == deps.len() - 1 {
        assert(deps.update(j, d).drop_last() =~= deps.drop_last());
    } else {
        lemma_count_update(deps.drop_last(), j, d, x);
        assert(deps.update(j, d).drop_last() =~= deps.drop_last().update(j, d));
    }
}

proof fn lemma_count_pos(deps: Seq<Seq<usize>>, j: int, x: int)
    requires
        0 <= j < deps.len(),
        deps[j].contains(x as usize),
    ensures
        count_containing(deps, x) >= 1,
    decreases deps.len(),
{
    if j < deps.len() - 1 {
        lemma_count_pos(deps.drop_last(), j, x);
    }
}

proof fn lemma_count_absent(deps: Seq<Seq<usize>>, x: int)
    requires
        forall|j: int| 0 <= j < deps.len() ==> !(#[trigger] deps[j]).contains(x as usize),
    ensures
        count_containing(deps, x) == 0,
    decreases deps.len(),
{
    if deps.len() > 0 {
        lemma_count_absent(deps.drop_last(), x);
    }
}

proof fn lemma_count_zero(deps: Seq<Seq<usize>>, x: int)
    requires
        count_containing(deps, x) == 0,
    ensures
        forall|j: int| 0 <= j < deps.len() ==> !(#[trigger] deps[j]).contains(x as usize),
{
    assert forall|j: int| 0 <= j < deps.len() implies !(#[trigger] deps[j]).contains(x as usize) by {
        if deps[j].contains(x as usize) {
            lemma_count_pos(deps, j, x);
        }
    }
}

/// A call of a function, with the calls that depend on it.
struct Relation {
    /// Its reference: the function's name and the index of the call among the calls of that function.
    id: FnRef,
    /// The index of the module that computes it.
    module: usize,
    args: Vec<MathExpression<FnArg>>,
    /// The calls relying on *this* function call (not the other way around).
    dep: Vec<usize>,
    /// The number of calls that this call still waits for.
    dep_left: usize,
}

/// The graph of the function calls of a query: which call needs the result of which.
pub struct RelationGraph {
    modules: Vec<Module>,
    relations: Vec<Relation>,
    /// For each module, the graph indices of its calls.
    calls: Vec<Vec<usize>>,
}

impl RelationGraph {
    /// The modules that compute the functions.
    pub closed spec fn module_list(&self) -> Seq<Module> {
        self.modules@
    }

    /// The number of function calls in the graph.
    pub closed spec fn size(&self) -> nat {
        self.relations@.len()
    }

    /// The reference of the call of index `i`.
    pub closed spec fn call_ref(&self, i: int) -> FnRef {
        self.relations@[i].id
    }

    /// The arguments of the call of index `i`.
    pub closed spec fn call_args(&self, i: int) -> Seq<MathExpression<FnArg>> {
        self.relations@[i].args@
    }

    /// The calls that rely on the result of the call of index `i`.
    pub closed spec fn dependents(&self, i: int) -> Seq<usize> {
        self.relations@[i].dep@
    }

    /// The number of calls that the call of index `i` still waits for.
    pub closed spec fn deps_left(&self, i: int) -> nat {
        self.relations@[i].dep_left as nat
    }

    /// The lists of dependents of all the calls.
    pub open spec fn dependent_lists(&self) -> Seq<Seq<usize>> {
        Seq::new(self.size(), |i: int| self.dependents(i))
    }

    /// Whether the call of index `i` has the reference `r`.
    pub open spec fn refers(&self, i: int, r: FnRef) -> bool {
        0 <= i < self.size() && same_ref(self.call_ref(i), r)
    }

    /// The index of the call of reference `r`, or why there is none.
    pub open spec fn lookup(&self, r: FnRef) -> Result<int, RelationGraphError> {
        if exists|i: int| self.refers(i, r) {
            Ok(choose|i: int| self.refers(i, r))
        } else if has_module(self.module_list(), r.0@) {
            Err(RelationGraphError::UnknownFunctionRef(r.0, r.1))
        } else {
            Err(RelationGraphError::UnknownFunction(r.0))
        }
    }

    /// Whether the call of index `i` is a call of `name` on arguments equal to `args`.
    pub open spec fn is_call(&self, i: int, name: Seq<char>, args: Seq<MathExpression<FnArg>>) -> bool {
        0 <= i < self.size() && self.call_ref(i).0@ == name && same_args(self.call_args(i), args)
    }

    /// The number of calls of the function of index `m` in the module list.
    pub closed spec fn calls_of(&self, m: int) -> nat {
        self.calls@[m]@.len()
    }

    /// The graph is well formed: calls and references agree, each call
    /// exists once, and each call waits for as many calls as rely on it.
    pub closed spec fn wf(&self) -> bool {
        let mods = self.modules@;
        let rels = self.relations@;
        let calls = self.calls@;
        &&& unique_names(mods)
        &&& calls.len() == mods.len()
        &&& forall|m: int, c: int|
            0 <= m < calls.len() && 0 <= c < calls[m].len() ==> {
                let g = #[trigger] calls[m][c];
                &&& g < rels.len()
                &&& rels[g as int].module == m
                &&& rels[g as int].id.1 == c
            }
        &&& forall|i: int|
            0 <= i < rels.len() ==> {
                let r = #[trigger] rels[i];
                &&& r.module < mods.len()
                &&& r.id.1 < calls[r.module as int].len()
                &&& calls[r.module as int][r.id.1 as int] == i
                &&& r.id.0@ == mods[r.module as int].fn_name@
            }
        &&& forall|i: int, k: int|
            0 <= i < rels.len() && 0 <= k < rels[i].dep@.len() ==> (#[trigger] rels[i].dep@[k]) < rels.len()
        &&& forall|i: int| 0 <= i < rels.len() ==> (#[trigger] rels[i].dep@).no_duplicates()
        &&& forall|x: int| 0 <= x < rels.len() ==> (#[trigger] rels[x].dep_left) == count_containing(self.dependent_lists(), x)
        &&& forall|i: int, j: int|
            0 <= i < j < rels.len() && (#[trigger] rels[i]).module == (#[trigger] rels[j]).module ==> !same_args(rels[i].args@, rels[j].args@)
        &&& forall|i: int| 0 <= i < rels.len() ==> call_error(mods, (#[trigger] rels[i]).id.0, rels[i].args@) is None
    }

    /// Every call of the graph is a valid call of a module.
    pub proof fn lemma_calls_valid(&self, i: int)
        requires
            self.wf(),
            0 <= i < self.size(),
        ensures
            call_error(self.module_list(), self.call_ref(i).0, self.call_args(i)) is None,
    {
        assert(call_error(self.modules@, self.relations@[i].id.0, self.relations@[i].args@) is None);
    }

    /// The graph keeps the modules, and the references and arguments of the calls of `old`.
    pub open spec fn extends(&self, old: RelationGraph) -> bool {
        &&& self.module_list() == old.module_list()
        &&& self.size() >= old.size()
        &&& forall|i: int| 0 <= i < old.size() ==> {
            &&& #[trigger] self.call_ref(i) == old.call_ref(i)
            &&& self.call_args(i) == old.call_args(i)
        }
    }

    /// The number of calls fits in a `usize`.
    pub proof fn lemma_size_fits(&self)
        ensures
            self.size() <= usize::MAX,
    {
        assert(self.relations@.len() == self.relations.len());
    }

    /// A reference names at most one call of a well formed graph.
    pub proof fn lemma_refers_unique(&self, i: int, j: int, r: FnRef)
        requires
            self.wf(),
            self.refers(i, r),
            self.refers(j, r),
        ensures
            i == j,
    {
        let mi = self.relations@[i].module as int;
        let mj = self.relations@[j].module as int;
        assert(self.modules@[mi].fn_name@ == self.modules@[mj].fn_name@);
    }

    /// Creates an empty graph of calls to the functions of `modules`, whose
    /// names must differ.
    pub fn new(modules: Vec<Module>) -> (r: Self)
        requires
            unique_names(modules@),
        ensures
            r.wf(),
            r.module_list() == modules@,
            r.size() == 0,
    {
        let mut calls: Vec<Vec<usize>> = Vec::new();
        let mut i: usize = 0;
        while i < modules.len()
            invariant
                i <= modules@.len(),
                calls@.len() == i,
                forall|m: int| 0 <= m < i ==> (#[trigger] calls@[m]).len() == 0,
            decreases modules.len() - i,
        {
            calls.push(Vec::new());
            i += 1;
        }
        let g = RelationGraph { modules, relations: Vec::new(), calls };
        assert(g.dependent_lists() =~= Seq::<Seq<usize>>::empty());
        g
    }

    /// The module that computes `fn_name`.
    fn get_module(&self, fn_name: &String) -> (r: Result<usize, RelationGraphError>)
        requires
            self.wf(),
        ensures
            match r {
                Ok(m) => has_module(self.module_list(), fn_name@) && m == module_index(self.module_list(), fn_name@)
                    && m < self.module_list().len(),
                Err(e) => !has_module(self.module_list(), fn_name@) && e == RelationGraphError::UnknownFunction(*fn_name),
            },
    {
        let mut i: usize = 0;
        while i < self.modules.len()
            invariant
                self.wf(),
                i <= self.modules@.len(),
                forall|j: int| 0 <= j < i ==> (#[trigger] self.modules@[j]).fn_name@ != fn_name@,
            decreases self.modules.len() - i,
        {
            if self.modules[i].fn_name == *fn_name {
                proof {
                    let mods = self.modules@;
                    assert(unique_names(mods));
                    assert(mods[i as int].fn_name@ == fn_name@);
                    assert(has_module(mods, fn_name@));
                    let k = module_index(mods, fn_name@);
                    assert(mods[k].fn_name@ == fn_name@);
                    assert(k == i as int);
                }
                return Ok(i);
            }
            i += 1;
        }
        Err(RelationGraphError::UnknownFunction(fn_name.clone()))
    }

    /// The index of the call of reference `fn_ref`.
    pub fn get_call(&self, fn_ref: &FnRef) -> (r: Result<usize, RelationGraphError>)
        requires
            self.wf(),
        ensures
            match r {
                Ok(i) => self.lookup(*fn_ref) == Ok::<int, RelationGraphError>(i as int) && self.refers(i as int, *fn_ref),
                Err(e) => self.lookup(*fn_ref) == Err::<int, RelationGraphError>(e),
            },
    {
        let m = match self.get_module(&fn_ref.0) {
            Ok(m) => m,
            Err(e) => {
                proof {
                    if exists|i: int| self.refers(i, *fn_ref) {
                        let i = choose|i: int| self.refers(i, *fn_ref);
                        let mi = self.relations@[i].module as int;
                        assert(self.modules@[mi].fn_name@ == fn_ref.0@);
                    }
                }
                return Err(e);
            },
        };
        if fn_ref.1 < self.calls[m].len() {
            let g = self.calls[m][fn_ref.1];
            proof {
                assert(self.refers(g as int, *fn_ref));
                let k = choose|i: int| self.refers(i, *fn_ref);
                self.lemma_refers_unique(k, g as int, *fn_ref);
            }
            Ok(g)
        } else {
            proof {
                if exists|i: int| self.refers(i, *fn_ref) {
                    let i = choose|i: int| self.refers(i, *fn_ref);
                    let mi = self.relations@[i].module as int;
                    assert(self.modules@[mi].fn_name@ == fn_ref.0@);
                    assert(mi == m as int);
                }
            }
            Err(RelationGraphError::UnknownFunctionRef(fn_ref.0.clone(), fn_ref.1))
        }
    }

    /// The type of the value of an argument.
    fn get_type(&self, arg: &MathExpression<FnArg>) -> (r: Result<ValueType, RelationGraphError>)
        requires
            self.wf(),
        ensures
            r == arg_type(self.module_list(), *arg),
    {
        match arg {
            MathExpression::Primitif(prim) => match prim {
                FnArg::FnCall(fn_ref) => match self.get_module(&fn_ref.0) {
                    Ok(m) => Ok(self.modules[m].output),
                    Err(e) => Err(e),
                },
                FnArg::Constant(c) => Ok(
                    match c {
                        ConstantValue::Numeric(_) => ValueType::Numeric,
                        ConstantValue::String(_) => ValueType::String,
                        ConstantValue::Identifier(_) => ValueType::String,
                        ConstantValue::Bool(_) => ValueType::Bool,
                    },
                ),
                FnArg::Dataset => Ok(ValueType::Graph),
            },
            _ => Ok(ValueType::Numeric),
        }
    }

    /// Checks that the call of `fn_name` on `args` matches a module's function,
    /// its number of arguments and their types.
    fn try_valid_call(&self, fn_name: &String, args: &Vec<MathExpression<FnArg>>) -> (r: Result<(), RelationGraphError>)
        requires
            self.wf(),
        ensures
            match call_error(self.module_list(), *fn_name, args@) {
                Some(e) => r == Err::<(), RelationGraphError>(e),
                None => r is Ok,
            },
    {
        let m = match self.get_module(fn_name) {
            Ok(m) => m,
            Err(e) => return Err(e),
        };
        let module = &self.modules[m];
        if module.args.len() != args.len() {
            return Err(RelationGraphError::DifferentArgumentNumber(fn_name.clone(), args.len(), module.args.len()));
        }
        let ghost mods = self.modules@;
        let mut i: usize = 0;
        while i < args.len()
            invariant
                self.wf(),
                mods == self.modules@,
                m < mods.len(),
                module == mods[m as int],
                module.args@.len() == args@.len(),
                i <= args@.len(),
                call_error(mods, *fn_name, args@) == first_arg_error(mods, *fn_name, module.args@, args@, i as int),
            decreases args.len() - i,
        {
            let found_type = match self.get_type(&args[i]) {
                Ok(t) => t,
                Err(e) => return Err(e),
            };
            let needed_type = module.args[i].data_type;
            if needed_type != found_type {
                return Err(
                    RelationGraphError::DifferentArgumentType(fn_name.clone(), module.args[i].name.clone(), found_type, needed_type),
                );
            }
            i += 1;
        }
        Ok(())
    }

    /// The reference of the call of `fn_name` on arguments equal to `args`, if the graph holds one.
    fn get_ref(&self, fn_name: &String, args: &Vec<MathExpression<FnArg>>) -> (r: Option<usize>)
        requires
            self.wf(),
        ensures
            match r {
                Some(g) => self.is_call(g as int, fn_name@, args@),
                None => forall|i: int| !self.is_call(i, fn_name@, args@),
            },
    {
        let m = match self.get_module(fn_name) {
            Ok(m) => m,
            Err(_) => {
                proof {
                    assert forall|i: int| !self.is_call(i, fn_name@, args@) by {
                        if self.is_call(i, fn_name@, args@) {
                            let mi = self.relations@[i].module as int;
                            assert(self.modules@[mi].fn_name@ == fn_name@);
                        }
                    }
                }
                return None;
            },
        };
        let calls = &self.calls[m];
        let mut c: usize = 0;
        while c < calls.len()
            invariant
                self.wf(),
                m < self.modules@.len(),
                self.modules@[m as int].fn_name@ == fn_name@,
                calls == self.calls@[m as int],
                c <= calls@.len(),
                forall|k: int| 0 <= k < c ==> !same_args(self.relations@[(#[trigger] calls@[k]) as int].args@, args@),
            decreases calls.len() - c,
        {
            let g = calls[c];
            if args_eq(&self.relations[g].args, args) {
                return Some(g);
            }
            c += 1;
        }
        proof {
            assert forall|i: int| !self.is_call(i, fn_name@, args@) by {
                if self.is_call(i, fn_name@, args@) {
                    let mi = self.relations@[i].module as int;
                    assert(self.modules@[mi].fn_name@ == fn_name@);
                    assert(mi == m as int);
                    let k = self.relations@[i].id.1 as int;
                    assert(calls@[k] == i);
                }
            }
        }
        None
    }

    /// Adds the call of `fn_name` on `args` to the graph if it is not there
    /// yet, and returns its reference.
    pub fn try_add_fn_call(&mut self, fn_name: String, args: &Vec<MathExpression<FnArg>>) -> (r: Result<FnRef, RelationGraphError>)
        requires
            old(self).wf(),
        ensures
            final(self).wf(),
            final(self).module_list() == old(self).module_list(),
            if exists|i: int| old(self).is_call(i, fn_name@, args@) {
                &&& *final(self) == *old(self)
                &&& r matches Ok(f) && exists|i: int|
                    old(self).is_call(i, fn_name@, args@) && old(self).call_ref(i) == f
            } else {
                match call_error(old(self).module_list(), fn_name, args@) {
                    Some(e) => r == Err::<FnRef, RelationGraphError>(e) && *final(self) == *old(self),
                    None => r matches Ok(f) && {
                        let n = old(self).size() as int;
                        &&& final(self).size() == n + 1
                        &&& final(self).call_ref(n) == f
                        &&& f.0 == fn_name
                        &&& f.1 == old(self).calls_of(module_index(old(self).module_list(), fn_name@))
                        &&& final(self).call_args(n) == args@
                        &&& final(self).dependents(n).len() == 0
                        &&& final(self).deps_left(n) == 0
                        &&& forall|i: int| 0 <= i < n ==> {
                            &&& #[trigger] final(self).call_ref(i) == old(self).call_ref(i)
                            &&& final(self).call_args(i) == old(self).call_args(i)
                            &&& final(self).dependents(i) == old(self).dependents(i)
                            &&& final(self).deps_left(i) == old(self).deps_left(i)
                        }
                    },
                }
            },
    {
        if let Some(g) = self.get_ref(&fn_name, args) {
            let f = copy_fn_ref(&self.relations[g].id);
            return Ok(f);
        }
        match self.try_valid_call(&fn_name, args) {
            Ok(()) => {},
            Err(e) => return Err(e),
        }
        let m = match self.get_module(&fn_name) {
            Ok(m) => m,
            Err(e) => return Err(e),
        };
        let graph_id = self.relations.len();
        let call_id = self.calls[m].len();
        let mut copied: Vec<MathExpression<FnArg>> = Vec::new();
        let mut k: usize = 0;
        while k < args.len()
            invariant
                k <= args@.len(),
                copied@ == args@.take(k as int),
            decreases args.len() - k,
        {
            copied.push(args[k].deep_copy());
            k += 1;
            assert(copied@ =~= args@.take(k as int));
        }
        assert(copied@ =~= args@);
        let ghost old_self = *self;
        let ghost old_lists = self.dependent_lists();
        let mut calls_m = Vec::new();
        std::mem::swap(&mut calls_m, &mut self.calls[m]);
        calls_m.push(graph_id);
        self.calls.set(m, calls_m);
        self.relations.push(
            Relation { id: (fn_name.clone(), call_id), module: m, args: copied, dep: Vec::new(), dep_left: 0 },
        );
        proof {
            let rels = self.relations@;
            assert(self.dependent_lists() =~= old_lists.push(Seq::<usize>::empty()));
            assert forall|x: int| 0 <= x < rels.len() implies (#[trigger] rels[x].dep_left) == count_containing(self.dependent_lists(), x) by {
                lemma_count_push(old_lists, Seq::<usize>::empty(), x);
                if x == graph_id as int {
                    assert forall|j: int| 0 <= j < old_lists.len() implies !(#[trigger] old_lists[j]).contains(x as usize) by {
                        if old_lists[j].contains(x as usize) {
                            let k = old_lists[j].index_of(x as usize);
                            assert(old_self.relations@[j].dep@[k] < graph_id);
                        }
                    }
                    lemma_count_absent(old_lists, x);
                }
            }
            assert forall|i: int, j: int|
                0 <= i < j < rels.len() && (#[trigger] rels[i]).module == (#[trigger] rels[j]).module implies
                !same_args(rels[i].args@, rels[j].args@) by {
                if j == rels.len() - 1 {
                    assert(!old_self.is_call(i, fn_name@, args@));
                    assert(old_self.call_ref(i).0@ == fn_name@);
                }
            }
            assert(self.wf());
        }
        Ok((fn_name, call_id))
    }
}


/// Whether `v` holds `x`.
fn vec_contains(v: &Vec<usize>, x: usize) -> (r: bool)
    ensures
        r == v@.contains(x),
{
    let mut i: usize = 0;
    while i < v.len()
        invariant
            i <= v@.len(),
            forall|k: int| 0 <= k < i ==> v@[k] != x,
        decreases v.len() - i,
    {
        if v[i] == x {
            assert(v@[i as int] == x);
            return true;
        }
        i += 1;
    }
    false
}

/// The calls of `deps`, in order, that wait for one call only in `g`.
pub open spec fn freed(g: RelationGraph, deps: Seq<usize>) -> Seq<usize>
    decreases deps.len(),
{
    if deps.len() == 0 {
        Seq::empty()
    } else {
        freed(g, deps.drop_last()) + if g.deps_left(deps.last() as int) == 1 {
            seq![deps.last()]
        } else {
            Seq::empty()
        }
    }
}

impl RelationGraph {
    /// The module list, each call's reference, arguments, and the number
    /// of calls of each module are those of `other`.
    pub open spec fn same_calls(&self, other: RelationGraph) -> bool {
        &&& self.module_list() == other.module_list()
        &&& self.size() == other.size()
        &&& forall|m: int| 0 <= m < self.module_list().len() ==> #[trigger] self.calls_of(m) == other.calls_of(m)
        &&& forall|i: int| 0 <= i < self.size() ==> {
            &&& #[trigger] self.call_ref(i) == other.call_ref(i)
            &&& self.call_args(i) == other.call_args(i)
        }
    }

    /// The graph equals `other` in all that its specification shows.
    pub open spec fn same_graph(&self, other: RelationGraph) -> bool {
        &&& self.same_calls(other)
        &&& forall|i: int| 0 <= i < self.size() ==> {
            &&& #[trigger] self.dependents(i) == other.dependents(i)
            &&& self.deps_left(i) == other.deps_left(i)
        }
    }

    /// The modules that compute the functions.
    pub fn modules(&self) -> (r: &Vec<Module>)
        ensures
            r@ == self.module_list(),
    {
        &self.modules
    }

    /// The number of calls in the graph.
    pub fn len(&self) -> (r: usize)
        ensures
            r == self.size(),
    {
        self.relations.len()
    }

    /// The reference of the call of index `i`.
    pub fn get_ref_of(&self, i: usize) -> (r: FnRef)
        requires
            i < self.size(),
        ensures
            r == self.call_ref(i as int),
    {
        copy_fn_ref(&self.relations[i].id)
    }

    /// The module that computes the call of index `i`, and the call's arguments.
    pub fn get_module_args(&self, i: usize) -> (r: (&Module, &Vec<MathExpression<FnArg>>))
        requires
            self.wf(),
            i < self.size(),
        ensures
            r.0.fn_name@ == self.call_ref(i as int).0@,
            r.0 == self.module_list()[module_index(self.module_list(), self.call_ref(i as int).0@)],
            has_module(self.module_list(), self.call_ref(i as int).0@),
            r.1@ == self.call_args(i as int),
    {
        let m = self.relations[i].module;
        proof {
            let mods = self.modules@;
            let name = self.relations@[i as int].id.0@;
            assert(mods[m as int].fn_name@ == name);
            assert(has_module(mods, name));
            let k = module_index(mods, name);
            assert(unique_names(mods));
            assert(k == m as int);
        }
        (&self.modules[m], &self.relations[i].args)
    }

    /// Adds a dependency between two calls of the graph: `f1` depends on `f2`.
    pub fn try_add_dep(&mut self, f1: &FnRef, f2: &FnRef) -> (r: Result<(), RelationGraphError>)
        requires
            old(self).wf(),
        ensures
            final(self).wf(),
            final(self).same_calls(*old(self)),
            match old(self).lookup(*f1) {
                Err(e) => r == Err::<(), RelationGraphError>(e) && final(self).same_graph(*old(self)),
                Ok(c1) => match old(self).lookup(*f2) {
                    Err(e) => r == Err::<(), RelationGraphError>(e) && final(self).same_graph(*old(self)),
                    Ok(c2) => r is Ok && if old(self).dependents(c2).contains(c1 as usize) {
                        final(self).same_graph(*old(self))
                    } else {
                        &&& final(self).dependents(c2) == old(self).dependents(c2).push(c1 as usize)
                        &&& final(self).deps_left(c1) == old(self).deps_left(c1) + 1
                        &&& forall|i: int| 0 <= i < old(self).size() && i != c2 ==>
                            #[trigger] final(self).dependents(i) == old(self).dependents(i)
                        &&& forall|i: int| 0 <= i < old(self).size() && i != c1 ==>
                            #[trigger] final(self).deps_left(i) == old(self).deps_left(i)
                    },
                },
            },
    {
        let c1 = match self.get_call(f1) {
            Ok(c) => c,
            Err(e) => return Err(e),
        };
        let c2 = match self.get_call(f2) {
            Ok(c) => c,
            Err(e) => return Err(e),
        };
        if vec_contains(&self.relations[c2].dep, c1) {
            return Ok(());
        }
        let ghost old_self = *self;
        let ghost old_lists = self.dependent_lists();
        let ghost new_dep = old_lists[c2 as int].push(c1);
        let n_rel = self.relations.len();
        proof {
            assert(old_lists[c2 as int] == self.relations@[c2 as int].dep@);
            assert(new_dep[new_dep.len() - 1] == c1);
            lemma_count_update(old_lists, c2 as int, new_dep, c1 as int);
            lemma_count_le(old_lists.update(c2 as int, new_dep), c1 as int);
            assert(self.relations@[c1 as int].dep_left == count_containing(old_lists, c1 as int));
            assert(self.relations@[c1 as int].dep_left + 1 <= n_rel);
        }
        self.relations[c2].dep.push(c1);
        self.relations[c1].dep_left = self.relations[c1].dep_left + 1;
        proof {
            let rels = self.relations@;
            assert forall|i: int| 0 <= i < rels.len() implies #[trigger] self.dependent_lists()[i] == old_lists.update(c2 as int, new_dep)[i] by {
                if i == c2 as int {
                    assert(rels[i].dep@ =~= new_dep);
                }
            }
            assert(self.dependent_lists() =~= old_lists.update(c2 as int, new_dep));
            assert forall|x: int| 0 <= x < rels.len() implies (#[trigger] rels[x].dep_left) == count_containing(self.dependent_lists(), x) by {
                lemma_count_update(old_lists, c2 as int, new_dep, x);
                if x != c1 as int {
                    let od = old_lists[c2 as int];
                    assert(new_dep.contains(x as usize) == od.contains(x as usize)) by {
                        if new_dep.contains(x as usize) {
                            let j = new_dep.index_of(x as usize);
                            assert(j < od.len());
                            assert(od[j] == new_dep[j]);
                        }
                        if od.contains(x as usize) {
                            let j = od.index_of(x as usize);
                            assert(new_dep[j] == od[j]);
                        }
                    }
                }
            }
            assert forall|i: int, k: int|
                0 <= i < rels.len() && 0 <= k < rels[i].dep@.len() implies (#[trigger] rels[i].dep@[k]) < rels.len() by {
                if i == c2 as int && k < old_lists[i].len() {
                    assert(rels[i].dep@[k] == old_self.relations@[i].dep@[k]);
                }
            }
            assert forall|i: int| 0 <= i < rels.len() implies (#[trigger] rels[i].dep@).no_duplicates() by {
                if i == c2 as int {
                    assert(rels[i].dep@ =~= new_dep);
                    assert forall|a: int, b: int| 0 <= a < b < new_dep.len() implies new_dep[a] != new_dep[b] by {
                        if b == new_dep.len() - 1 {
                            assert(old_lists[c2 as int][a] == new_dep[a]);
                        } else {
                            assert(old_lists[c2 as int][a] == new_dep[a]);
                            assert(old_lists[c2 as int][b] == new_dep[b]);
                        }
                    }
                }
            }
            assert(self.wf());
        }
        Ok(())
    }

    /// Removes the call `fn_ref` from the dependencies of the calls that rely
    /// on it, and returns the calls that no longer wait for any call thanks to
    /// this removal.
    pub fn try_remove_fn_from_deps(&mut self, fn_ref: &FnRef) -> (r: Result<Vec<usize>, RelationGraphError>)
        requires
            old(self).wf(),
        ensures
            final(self).wf(),
            final(self).same_calls(*old(self)),
            match old(self).lookup(*fn_ref) {
                Err(e) => r == Err::<Vec<usize>, RelationGraphError>(e) && final(self).same_graph(*old(self)),
                Ok(g) => r matches Ok(v) && {
                    let deps = old(self).dependents(g);
                    &&& v@ == freed(*old(self), deps)
                    &&& final(self).dependents(g).len() == 0
                    &&& forall|i: int| 0 <= i < old(self).size() && i != g ==>
                        #[trigger] final(self).dependents(i) == old(self).dependents(i)
                    &&& forall|i: int| 0 <= i < old(self).size() ==>
                        #[trigger] final(self).deps_left(i) == if deps.contains(i as usize) {
                            old(self).deps_left(i) - 1
                        } else {
                            old(self).deps_left(i) as int
                        }
                },
            },
    {
        let g = match self.get_call(fn_ref) {
            Ok(g) => g,
            Err(e) => return Err(e),
        };
        let ghost old_self = *self;
        let ghost old_lists = self.dependent_lists();
        let mut fn_deps: Vec<usize> = Vec::new();
        std::mem::swap(&mut fn_deps, &mut self.relations[g].dep);
        let mut newly_free: Vec<usize> = Vec::new();
        let mut k: usize = 0;
        while k < fn_deps.len()
            invariant
                old_self.wf(),
                old_lists == old_self.dependent_lists(),
                g < old_self.relations@.len(),
                fn_deps@ == old_self.relations@[g as int].dep@,
                k <= fn_deps@.len(),
                self.relations@.len() == old_self.relations@.len(),
                self.modules == old_self.modules,
                self.calls == old_self.calls,
                self.relations@[g as int].dep@.len() == 0,
                forall|i: int| 0 <= i < self.relations@.len() ==> {
                    &&& (#[trigger] self.relations@[i]).id == old_self.relations@[i].id
                    &&& self.relations@[i].module == old_self.relations@[i].module
                    &&& self.relations@[i].args == old_self.relations@[i].args
                    &&& (i != g ==> self.relations@[i].dep == old_self.relations@[i].dep)
                    &&& self.relations@[i].dep_left == if fn_deps@.take(k as int).contains(i as usize) {
                        old_self.relations@[i].dep_left - 1
                    } else {
                        old_self.relations@[i].dep_left as int
                    }
                },
                newly_free@ == freed(old_self, fn_deps@.take(k as int)),
            decreases fn_deps.len() - k,
        {
            let d = fn_deps[k];
            proof {
                assert(d < old_self.relations@.len());
                assert(old_lists[g as int] == fn_deps@);
                assert(fn_deps@[k as int] == d);
                lemma_count_pos(old_lists, g as int, d as int);
                assert(old_self.relations@[d as int].dep_left == count_containing(old_lists, d as int));
                assert(!fn_deps@.take(k as int).contains(d)) by {
                    if fn_deps@.take(k as int).contains(d) {
                        let j = fn_deps@.take(k as int).index_of(d);
                        assert(fn_deps@[j] == fn_deps@[k as int]);
                    }
                }
            }
            self.relations[d].dep_left = self.relations[d].dep_left - 1;
            if self.relations[d].dep_left == 0 {
                newly_free.push(d);
            }
            proof {
                let t = fn_deps@.take(k as int + 1);
                assert(t.drop_last() =~= fn_deps@.take(k as int));
                assert forall|i: usize| t.contains(i) <==> (fn_deps@.take(k as int).contains(i) || i == d) by {
                    if t.contains(i) && i != d {
                        let j = t.index_of(i);
                        assert(fn_deps@.take(k as int)[j] == i);
                    }
                    if i == d {
                        assert(t[k as int] == d);
                    }
                    if fn_deps@.take(k as int).contains(i) {
                        let j = fn_deps@.take(k as int).index_of(i);
                        assert(t[j] == i);
                    }
                }
            }
            k += 1;
        }
        proof {
            let rels = self.relations@;
            assert(fn_deps@.take(k as int) =~= fn_deps@);
            let empty = Seq::<usize>::empty();
            assert forall|i: int| 0 <= i < rels.len() implies #[trigger] self.dependent_lists()[i] == old_lists.update(g as int, empty)[i] by {
                if i == g as int {
                    assert(rels[i].dep@ =~= empty);
                }
            }
            assert(self.dependent_lists() =~= old_lists.update(g as int, empty));
            assert forall|x: int| 0 <= x < rels.len() implies (#[trigger] rels[x].dep_left) == count_containing(self.dependent_lists(), x) by {
                lemma_count_update(old_lists, g as int, empty, x);
            }
            assert(self.wf());
        }
        Ok(newly_free)
    }
}

/// Hands out the calls of a [`RelationGraph`] so that each call comes after
/// every call whose result it needs.
pub struct FnCallIterator {
    relation_graph: RelationGraph,
    /// For each call, whether it was handed out and is not finished yet.
    being_computed: Vec<bool>,
    /// The calls that can be executed now.
    can_now_exec: Vec<usize>,
    /// The dependents and counts of the graph as it was made.
    saved: Vec<(Vec<usize>, usize)>,
    /// The calls that were handed out and finished.
    done: Ghost<Set<int>>,
    /// The graph as it was made.
    start: Ghost<RelationGraph>,
}

impl FnCallIterator {
    /// The graph as it was made.
    pub closed spec fn graph(&self) -> RelationGraph {
        self.start@
    }

    /// The calls that were handed out and finished.
    pub closed spec fn finished(&self) -> Set<int> {
        self.done@
    }

    /// Whether the call of index `i` was handed out and is not finished.
    pub closed spec fn computing(&self, i: int) -> bool {
        self.being_computed@[i]
    }

    /// The calls that can be handed out now, the last first.
    pub closed spec fn ready(&self) -> Seq<usize> {
        self.can_now_exec@
    }

    /// The number of unfinished calls that the call `i` waits for.
    pub closed spec fn waiting(&self, i: int) -> nat {
        self.relation_graph.deps_left(i)
    }

    /// The call of index `x` needs the result of the call of index `y`.
    pub open spec fn depends_on(&self, x: int, y: int) -> bool {
        self.graph().dependents(y).contains(x as usize)
    }

    /// The graph in its current state of the iteration.
    pub closed spec fn current(&self) -> RelationGraph {
        self.relation_graph
    }

    /// The state of the iteration is consistent with the graph it was made from.
    pub closed spec fn wf(&self) -> bool {
        let g = self.relation_graph;
        let s = self.start@;
        let n = s.size();
        &&& g.wf()
        &&& s.wf()
        &&& g.same_calls(s)
        &&& self.being_computed@.len() == n
        &&& self.saved@.len() == n
        &&& forall|i: int| 0 <= i < n ==> {
            &&& (#[trigger] self.saved@[i]).0@ == s.dependents(i)
            &&& self.saved@[i].1 == s.deps_left(i)
        }
        &&& forall|y: int| self.done@.contains(y) ==> 0 <= y < n
        &&& forall|y: int| 0 <= y < n && #[trigger] self.done@.contains(y) ==> g.dependents(y).len() == 0 && !self.being_computed@[y]
        &&& forall|y: int| 0 <= y < n && !(#[trigger] self.done@.contains(y)) ==> g.dependents(y) == s.dependents(y)
        &&& forall|x: int| 0 <= x < n && (#[trigger] self.being_computed@[x] || self.done@.contains(x)) ==> g.deps_left(x) == 0
        &&& forall|k: int| 0 <= k < self.can_now_exec@.len() ==> {
            let x = #[trigger] self.can_now_exec@[k];
            &&& x < n
            &&& g.deps_left(x as int) == 0
            &&& !self.being_computed@[x as int]
            &&& !self.done@.contains(x as int)
        }
        &&& self.can_now_exec@.no_duplicates()
        &&& self.ready_complete()
    }

    /// Each call that was not handed out and waits for no call is ready.
    pub closed spec fn ready_complete(&self) -> bool {
        forall|x: int|
            #![trigger self.relation_graph.deps_left(x)]
            0 <= x < self.start@.size() && !self.done@.contains(x) && !self.being_computed@[x] && self.relation_graph.deps_left(x) == 0
                ==> self.can_now_exec@.contains(x as usize)
    }

    /// A call that is ready, or is being computed, waits for no call: each call
    /// it depends on was finished.
    pub proof fn lemma_ready_deps_finished(&self, x: int)
        requires
            self.wf(),
            0 <= x < self.graph().size(),
            self.ready().contains(x as usize) || self.computing(x),
        ensures
            forall|y: int| 0 <= y < self.graph().size() && #[trigger] self.depends_on(x, y) ==> self.finished().contains(y),
    {
        let g = self.relation_graph;
        if self.ready().contains(x as usize) {
            let k = self.ready().index_of(x as usize);
            assert(self.can_now_exec@[k] == x as usize);
        }
        assert(g.deps_left(x) == 0);
        assert(g.relations@[x].dep_left == 0);
        lemma_count_zero(g.dependent_lists(), x);
        assert forall|y: int| 0 <= y < self.graph().size() && #[trigger] self.depends_on(x, y) implies self.finished().contains(y) by {
            assert(g.dependent_lists()[y] == g.dependents(y));
        }
    }

    /// When no call is ready or being computed, and each call of the graph
    /// relies only on calls made before it, every call was finished.
    pub proof fn lemma_all_finished(&self, x: int)
        requires
            self.wf(),
            self.ready().len() == 0,
            forall|i: int| 0 <= i < self.graph().size() ==> !#[trigger] self.computing(i),
            deps_ordered(self.graph()),
            0 <= x < self.graph().size(),
        ensures
            self.finished().contains(x),
        decreases x,
    {
        if !self.done@.contains(x) {
            let g = self.relation_graph;
            let s = self.start@;
            let deps = g.dependent_lists();
            assert(!self.computing(x));
            if g.deps_left(x) == 0 {
                assert(self.can_now_exec@.contains(x as usize));
                let k = self.can_now_exec@.index_of(x as usize);
                assert(false);
            }
            assert(g.relations@[x].dep_left == count_containing(deps, x));
            assert(exists|j: int| 0 <= j < deps.len() && (#[trigger] deps[j]).contains(x as usize)) by {
                if !exists|j: int| 0 <= j < deps.len() && (#[trigger] deps[j]).contains(x as usize) {
                    lemma_count_absent(deps, x);
                }
            }
            let y = choose|y: int| 0 <= y < deps.len() && (#[trigger] deps[y]).contains(x as usize);
            assert(deps[y] == g.dependents(y));
            if self.done@.contains(y) {
                assert(g.dependents(y).len() == 0);
                assert(false);
            }
            assert(s.dependents(y).contains(x as usize));
            self.lemma_all_finished(y);
            assert(false);
        }
    }

    /// The calls ready to be handed out are calls of the graph that are not finished.
    pub proof fn lemma_ready_valid(&self, k: int)
        requires
            self.wf(),
            0 <= k < self.ready().len(),
        ensures
            self.ready()[k] < self.graph().size(),
            !self.finished().contains(self.ready()[k] as int),
    {
        assert(self.can_now_exec@[k] < self.start@.size());
    }

    /// Whether a call can be handed out now.
    pub fn has_next(&self) -> (r: bool)
        ensures
            r == (self.ready().len() > 0),
    {
        self.can_now_exec.len() > 0
    }

    /// The graph the iterator walks.
    pub fn graph_ref(&self) -> (r: &RelationGraph)
        requires
            self.wf(),
        ensures
            r.wf(),
            r.same_calls(self.graph()),
    {
        &self.relation_graph
    }

    /// The next call to execute. The iterator takes the call as being
    /// executed until [`FnCallIterator::finish_function`] is called on it.
    pub fn next_function(&mut self) -> (r: Option<FnRef>)
        requires
            old(self).wf(),
        ensures
            next_step(*old(self), *final(self), r),
    {
        if self.can_now_exec.len() == 0 {
            return None;
        }
        proof {
            let x = self.can_now_exec@.last() as int;
            assert(self.can_now_exec@[self.can_now_exec@.len() - 1] == x);
            self.lemma_ready_deps_finished(x);
            assert(self.relation_graph.call_ref(x) == self.start@.call_ref(x));
        }
        let ghost before = self.can_now_exec@;
        let x = self.can_now_exec.pop().unwrap();
        let fn_ref = copy_fn_ref(&self.relation_graph.relations[x].id);
        self.being_computed.set(x, true);
        proof {
            assert(self.can_now_exec@ =~= before.drop_last());
            assert forall|k: int| 0 <= k < self.can_now_exec@.len() implies self.can_now_exec@[k] != x by {
                assert(before[k] == self.can_now_exec@[k]);
                assert(before[before.len() - 1] == x);
            }
            assert forall|z: int|
                #![trigger self.relation_graph.deps_left(z)]
                0 <= z < self.start@.size() && !self.done@.contains(z) && !self.being_computed@[z] && self.relation_graph.deps_left(z) == 0 implies self.can_now_exec@.contains(
                z as usize,
            ) by {
                assert(z != x as int);
                let q = before.index_of(z as usize);
                assert(q != before.len() - 1);
                assert(self.can_now_exec@[q] == before[q]);
            }
        }
        Some(fn_ref)
    }

    /// Tells the iterator that the call `fn_ref` is over, so that the calls
    /// that waited for it only can be handed out.
    #[verifier::spinoff_prover]
    #[verifier::rlimit(100)]
    pub fn finish_function(&mut self, fn_ref: &FnRef)
        requires
            old(self).wf(),
        ensures
            finish_step(*old(self), *final(self), *fn_ref),
    {
        proof {
            self.relation_graph.lemma_same_lookup(self.start@, *fn_ref);
        }
        let x = match self.relation_graph.get_call(fn_ref) {
            Ok(x) => x,
            Err(_) => {
                return;
            },
        };
        if !self.being_computed[x] {
            return;
        }
        let ghost old_self = *self;
        let ghost g0 = self.relation_graph;
        let freed_now = match self.relation_graph.try_remove_fn_from_deps(fn_ref) {
            Ok(v) => v,
            Err(_) => {
                return;
            },
        };
        self.being_computed.set(x, false);
        self.done = Ghost(self.done@.insert(x as int));
        let ghost before = self.can_now_exec@;
        let mut ready: Vec<usize> = Vec::new();
        std::mem::swap(&mut ready, &mut self.can_now_exec);
        let mut k: usize = 0;
        while k < freed_now.len()
            invariant
                k <= freed_now@.len(),
                ready@ == before + freed_now@.take(k as int),
            decreases freed_now.len() - k,
        {
            ready.push(freed_now[k]);
            k += 1;
            assert(ready@ =~= before + freed_now@.take(k as int));
        }
        assert(freed_now@.take(k as int) =~= freed_now@);
        self.can_now_exec = ready;
        proof {
            let g = self.relation_graph;
            let s = self.start@;
            let n = s.size();
            let deps = g0.dependents(x as int);
            assert(old_self.wf());
            assert(old_self.relation_graph == g0);
            assert(old_self.start@ == s);
            assert(x < n);
            assert(old_self.being_computed@[x as int]);
            assert(!old_self.done@.contains(x as int));
            assert(deps == s.dependents(x as int));
            lemma_freed(g0, deps);
            assert forall|z: int| 0 <= z < n && g0.deps_left(z) == 0 implies !deps.contains(z as usize) by {
                if deps.contains(z as usize) {
                    assert(g0.dependent_lists()[x as int] == deps);
                    lemma_count_pos(g0.dependent_lists(), x as int, z);
                    assert(g0.relations@[z].dep_left == count_containing(g0.dependent_lists(), z));
                }
            }
            assert forall|k: int| 0 <= k < self.can_now_exec@.len() implies {
                let y = #[trigger] self.can_now_exec@[k];
                &&& y < n
                &&& g.deps_left(y as int) == 0
                &&& !self.being_computed@[y as int]
                &&& !self.done@.contains(y as int)
            } by {
                if k < before.len() {
                    assert(old_self.can_now_exec@[k] == self.can_now_exec@[k]);
                } else {
                    assert(self.can_now_exec@[k] == freed_now@[k - before.len()]);
                }
            }
            assert forall|i: int, j: int| 0 <= i < j < self.can_now_exec@.len() implies self.can_now_exec@[i] != self.can_now_exec@[j] by {
                if j < before.len() {
                    assert(old_self.can_now_exec@[i] == self.can_now_exec@[i]);
                    assert(old_self.can_now_exec@[j] == self.can_now_exec@[j]);
                } else if i < before.len() {
                    assert(old_self.can_now_exec@[i] == self.can_now_exec@[i]);
                    assert(self.can_now_exec@[j] == freed_now@[j - before.len()]);
                } else {
                    assert(self.can_now_exec@[i] == freed_now@[i - before.len()]);
                    assert(self.can_now_exec@[j] == freed_now@[j - before.len()]);
                }
            }
            assert forall|z: int|
                #![trigger self.relation_graph.deps_left(z)]
                0 <= z < n && !self.done@.contains(z) && !self.being_computed@[z] && self.relation_graph.deps_left(z) == 0 implies self.can_now_exec@.contains(
                z as usize,
            ) by {
                assert(z != x as int);
                assert(!old_self.done@.contains(z));
                assert(!old_self.being_computed@[z]);
                if g0.deps_left(z) == 0 {
                    assert(old_self.can_now_exec@.contains(z as usize));
                    let q = old_self.can_now_exec@.index_of(z as usize);
                    assert(self.can_now_exec@[q] == before[q]);
                } else {
                    assert(deps.contains(z as usize));
                    assert(g0.deps_left(z) == 1);
                    lemma_freed_complete(g0, deps, z);
                    let q = freed_now@.index_of(z as usize);
                    assert(self.can_now_exec@[before.len() + q] == freed_now@[q]);
                }
            }
            assert(self.ready_complete());
            assert(self.wf());
        }
    }
}

/// A call of `deps` that waits for one call only is freed.
proof fn lemma_freed_complete(g: RelationGraph, deps: Seq<usize>, z: int)
    requires
        0 <= z <= usize::MAX,
        deps.contains(z as usize),
        g.deps_left(z) == 1,
    ensures
        freed(g, deps).contains(z as usize),
    decreases deps.len(),
{
    let init = deps.drop_last();
    if deps.last() == z as usize {
        assert(deps.last() as int == z);
        let f = freed(g, deps);
        assert(f == freed(g, init) + seq![deps.last()]);
        assert(f[f.len() - 1] == z as usize);
    } else {
        let k = deps.index_of(z as usize);
        assert(init[k] == z as usize);
        lemma_freed_complete(g, init, z);
        let f0 = freed(g, init);
        let q = f0.index_of(z as usize);
        assert(freed(g, deps)[q] == f0[q]);
    }
}

/// Each of the first `n` calls that waits for no call is among the free calls.
proof fn lemma_free_calls_complete(g: RelationGraph, n: nat, x: int)
    requires
        0 <= x < n,
        g.deps_left(x) == 0,
    ensures
        free_calls(g, n).contains(x as usize),
    decreases n,
{
    let f = free_calls(g, n);
    if x == n - 1 {
        assert(f[f.len() - 1] == x as usize);
    } else {
        lemma_free_calls_complete(g, (n - 1) as nat, x);
        let f0 = free_calls(g, (n - 1) as nat);
        let q = f0.index_of(x as usize);
        assert(f[q] == f0[q]);
    }
}

/// The calls of `freed(g, deps)` are calls of `deps` that wait for one call only,
/// each once when `deps` holds each once.
proof fn lemma_freed(g: RelationGraph, deps: Seq<usize>)
    ensures
        forall|k: int| 0 <= k < freed(g, deps).len() ==> deps.contains(#[trigger] freed(g, deps)[k]) && g.deps_left(freed(g, deps)[k] as int) == 1,
        deps.no_duplicates() ==> freed(g, deps).no_duplicates(),
    decreases deps.len(),
{
    if deps.len() > 0 {
        let init = deps.drop_last();
        lemma_freed(g, init);
        let f0 = freed(g, init);
        let f = freed(g, deps);
        assert forall|k: int| 0 <= k < f.len() implies deps.contains(#[trigger] f[k]) && g.deps_left(f[k] as int) == 1 by {
            if k < f0.len() {
                assert(f[k] == f0[k]);
                let j = init.index_of(f0[k]);
                assert(deps[j] == init[j]);
            } else {
                assert(f[k] == deps.last());
                assert(deps[deps.len() - 1] == deps.last());
            }
        }
        if deps.no_duplicates() {
            assert(init.no_duplicates()) by {
                assert forall|i: int, j: int| 0 <= i < j < init.len() implies init[i] != init[j] by {
                    assert(init[i] == deps[i] && init[j] == deps[j]);
                }
            }
            assert forall|i: int, j: int| 0 <= i < j < f.len() implies f[i] != f[j] by {
                if j >= f0.len() {
                    assert(f[j] == deps.last());
                    assert(f[i] == f0[i]);
                    let p = init.index_of(f0[i]);
                    assert(deps[p] == init[p]);
                    assert(deps[deps.len() - 1] == deps.last());
                } else {
                    assert(f[i] == f0[i] && f[j] == f0[j]);
                }
            }
        }
    }
}

impl RelationGraph {
    /// Two graphs with the same calls look up references alike.
    pub proof fn lemma_same_lookup(&self, other: RelationGraph, r: FnRef)
        requires
            self.wf(),
            other.wf(),
            self.same_calls(other),
        ensures
            self.lookup(r) == other.lookup(r),
    {
        assert forall|i: int| self.refers(i, r) <==> other.refers(i, r) by {
            if 0 <= i < self.size() {
                assert(self.call_ref(i) == other.call_ref(i));
            }
        }
        if exists|i: int| self.refers(i, r) {
            let i = choose|i: int| self.refers(i, r);
            let j = choose|i: int| other.refers(i, r);
            assert(other.refers(i, r));
            other.lemma_refers_unique(i, j, r);
        }
    }
}

/// The calls among the first `n` of `g` that wait for no call, in increasing order.
pub open spec fn free_calls(g: RelationGraph, n: nat) -> Seq<usize>
    decreases n,
{
    if n == 0 {
        Seq::empty()
    } else {
        free_calls(g, (n - 1) as nat) + if g.deps_left(n - 1) == 0 {
            seq![(n - 1) as usize]
        } else {
            Seq::empty()
        }
    }
}

proof fn lemma_free_calls(g: RelationGraph, n: nat)
    requires
        n <= usize::MAX,
    ensures
        forall|k: int| 0 <= k < free_calls(g, n).len() ==> (#[trigger] free_calls(g, n)[k]) < n
            && g.deps_left(free_calls(g, n)[k] as int) == 0,
        free_calls(g, n).no_duplicates(),
    decreases n,
{
    if n > 0 {
        lemma_free_calls(g, (n - 1) as nat);
        let f0 = free_calls(g, (n - 1) as nat);
        let f = free_calls(g, n);
        assert forall|k: int| 0 <= k < f.len() implies (#[trigger] f[k]) < n && g.deps_left(f[k] as int) == 0 by {
            if k < f0.len() {
                assert(f[k] == f0[k]);
            } else {
                assert(f[k] == (n - 1) as usize);
            }
        }
        assert forall|i: int, j: int| 0 <= i < j < f.len() implies f[i] != f[j] by {
            assert(f[i] == f0[i]);
            if j < f0.len() {
                assert(f[j] == f0[j]);
            }
        }
    }
}

impl RelationGraph {
    /// Starts handing out the calls of the graph, those that wait for no call first.
    pub fn into_iter(self) -> (r: FnCallIterator)
        requires
            self.wf(),
        ensures
            r.wf(),
            r.graph() == self,
            r.finished() == Set::<int>::empty(),
            forall|i: int| 0 <= i < self.size() ==> !#[trigger] r.computing(i),
            r.ready() == free_calls(self, self.size()),
    {
        let n = self.relations.len();
        let mut can_now_exec: Vec<usize> = Vec::new();
        let mut being_computed: Vec<bool> = Vec::new();
        let mut saved: Vec<(Vec<usize>, usize)> = Vec::new();
        let mut i: usize = 0;
        while i < n
            invariant
                n == self.relations@.len(),
                i <= n,
                can_now_exec@ == free_calls(self, i as nat),
                being_computed@.len() == i,
                forall|j: int| 0 <= j < i ==> !#[trigger] being_computed@[j],
                saved@.len() == i,
                forall|j: int| 0 <= j < i ==> {
                    &&& (#[trigger] saved@[j]).0@ == self.dependents(j)
                    &&& saved@[j].1 == self.deps_left(j)
                },
            decreases n - i,
        {
            if self.relations[i].dep_left == 0 {
                can_now_exec.push(i);
            }
            being_computed.push(false);
            let mut copy: Vec<usize> = Vec::new();
            let dep = &self.relations[i].dep;
            let mut k: usize = 0;
            while k < dep.len()
                invariant
                    k <= dep@.len(),
                    copy@ == dep@.take(k as int),
                decreases dep.len() - k,
            {
                copy.push(dep[k]);
                k += 1;
                assert(copy@ =~= dep@.take(k as int));
            }
            assert(copy@ =~= dep@);
            saved.push((copy, self.relations[i].dep_left));
            i += 1;
        }
        proof {
            lemma_free_calls(self, n as nat);
            assert forall|x: int| 0 <= x < n && self.deps_left(x) == 0 implies #[trigger] can_now_exec@.contains(x as usize) by {
                lemma_free_calls_complete(self, n as nat, x);
            }
        }
        FnCallIterator {
            relation_graph: self,
            being_computed,
            can_now_exec,
            saved,
            done: Ghost(Set::empty()),
            start: Ghost(self),
        }
    }
}

impl FnCallIterator {
    /// Ends the iteration and gives back the graph, every call waiting again
    /// for the calls it depends on.
    pub fn into_graph(self) -> (r: RelationGraph)
        requires
            self.wf(),
        ensures
            r.wf(),
            r.same_graph(self.graph()),
    {
        let ghost s = self.start@;
        let FnCallIterator { relation_graph, being_computed, can_now_exec, saved, done, start } = self;
        let mut g = relation_graph;
        let mut saved = saved;
        let ghost g0 = g;
        let n = g.relations.len();
        let mut i: usize = 0;
        while i < n
            invariant
                g0.wf(),
                s.wf(),
                g0.same_calls(s),
                n == g0.relations@.len(),
                i <= n,
                saved@.len() == n,
                forall|j: int| i <= j < n ==> {
                    &&& (#[trigger] saved@[j]).0@ == s.dependents(j)
                    &&& saved@[j].1 == s.deps_left(j)
                },
                g.modules == g0.modules,
                g.calls == g0.calls,
                g.relations@.len() == n,
                forall|j: int| 0 <= j < n ==> {
                    &&& (#[trigger] g.relations@[j]).id == g0.relations@[j].id
                    &&& g.relations@[j].module == g0.relations@[j].module
                    &&& g.relations@[j].args == g0.relations@[j].args
                    &&& j < i ==> g.relations@[j].dep@ == s.dependents(j) && g.relations@[j].dep_left == s.deps_left(j)
                },
            decreases n - i,
        {
            let mut dep: Vec<usize> = Vec::new();
            std::mem::swap(&mut dep, &mut saved[i].0);
            let left = saved[i].1;
            g.relations[i].dep = dep;
            g.relations[i].dep_left = left;
            i += 1;
        }
        proof {
            assert(g.dependent_lists() =~= s.dependent_lists());
            assert forall|j: int| 0 <= j < n implies #[trigger] g.relations@[j] == s.relations@[j] || true by {}
            assert forall|x: int| 0 <= x < n implies (#[trigger] g.relations@[x].dep_left) == count_containing(g.dependent_lists(), x) by {
                assert(s.relations@[x].dep_left == count_containing(s.dependent_lists(), x));
            }
            assert forall|j: int, k: int| 0 <= j < n && 0 <= k < g.relations@[j].dep@.len() implies (#[trigger] g.relations@[j].dep@[k]) < n by {
                assert(s.relations@[j].dep@[k] < n);
            }
            assert forall|j: int| 0 <= j < n implies (#[trigger] g.relations@[j].dep@).no_duplicates() by {
                assert(s.relations@[j].dep@.no_duplicates());
            }
            assert forall|a: int, b: int| 0 <= a < b < n && (#[trigger] g.relations@[a]).module == (#[trigger] g.relations@[b]).module implies
                !same_args(g.relations@[a].args@, g.relations@[b].args@) by {
                assert(g0.relations@[a].module == g0.relations@[b].module);
            }
            assert forall|a: int| 0 <= a < n implies call_error(g.modules@, (#[trigger] g.relations@[a]).id.0, g.relations@[a].args@) is None by {
                assert(call_error(g0.modules@, g0.relations@[a].id.0, g0.relations@[a].args@) is None);
            }
            assert(g.wf());
            assert forall|m: int| 0 <= m < g.module_list().len() implies #[trigger] g.calls_of(m) == s.calls_of(m) by {
                assert(g0.calls_of(m) == s.calls_of(m));
            }
            assert forall|j: int| 0 <= j < g.size() implies #[trigger] g.call_ref(j) == s.call_ref(j) && g.call_args(j) == s.call_args(j) by {
                assert(g0.call_ref(j) == s.call_ref(j));
            }
        }
        g
    }
}

/// `after` is the iterator `before` once [`FnCallIterator::next_function`]
/// gave `r`: `None` when no call was ready; otherwise the last ready call, not
/// handed out before and whose calls it depends on are finished, is now being
/// computed.
pub open spec fn next_step(before: FnCallIterator, after: FnCallIterator, r: Option<FnRef>) -> bool {
    &&& after.wf()
    &&& after.graph() == before.graph()
    &&& after.finished() == before.finished()
    &&& match r {
        None => before.ready().len() == 0 && after == before,
        Some(f) => {
            let x = before.ready().last() as int;
            &&& before.ready().len() > 0
            &&& f == before.graph().call_ref(x)
            &&& !before.computing(x)
            &&& !before.finished().contains(x)
            &&& forall|y: int| 0 <= y < before.graph().size() && #[trigger] before.depends_on(x, y) ==> before.finished().contains(y)
            &&& after.computing(x)
            &&& forall|i: int| 0 <= i < before.graph().size() && i != x ==> #[trigger] after.computing(i) == before.computing(i)
            &&& after.ready() == before.ready().drop_last()
        },
    }
}

/// `after` is the iterator `before` once [`FnCallIterator::finish_function`]
/// was told that the call `f` is over: a call being computed is then finished
/// and the calls that waited for it only are ready; otherwise nothing changes.
pub open spec fn finish_step(before: FnCallIterator, after: FnCallIterator, f: FnRef) -> bool {
    &&& after.wf()
    &&& after.graph() == before.graph()
    &&& match before.graph().lookup(f) {
        Ok(x) => if before.computing(x) {
            &&& after.finished() == before.finished().insert(x)
            &&& !after.computing(x)
            &&& forall|i: int| 0 <= i < before.graph().size() && i != x ==> #[trigger] after.computing(i) == before.computing(i)
            &&& after.ready() == before.ready() + freed(before.current(), before.graph().dependents(x))
        } else {
            after == before
        },
        Err(_) => after == before,
    }
}

/// What happens to an iterator: a call of `next_function`, with what it
/// gave, or a call of `finish_function`, with the call said to be over.
pub ghost enum RunEvent {
    Next(Option<FnRef>),
    Finish(FnRef),
}

/// The iterator went from `states[k]` to `states[k + 1]` by `events[k]`.
pub open spec fn run_ok(states: Seq<FnCallIterator>, events: Seq<RunEvent>) -> bool {
    &&& states.len() == events.len() + 1
    &&& forall|k: int|
        0 <= k < events.len() ==> match #[trigger] events[k] {
            RunEvent::Next(r) => next_step(states[k], states[k + 1], r),
            RunEvent::Finish(f) => finish_step(states[k], states[k + 1], f),
        }
}

/// Among the first `n` events, `next_function` gave a reference of the call `x`.
pub open spec fn returned_before(g: RelationGraph, events: Seq<RunEvent>, n: int, x: int) -> bool {
    exists|k: int| 0 <= k < n && (#[trigger] events[k] matches RunEvent::Next(Some(f)) && g.refers(x, f))
}

/// Among the first `n` events, `finish_function` was told that the call `x` is over.
pub open spec fn finished_before(g: RelationGraph, events: Seq<RunEvent>, n: int, x: int) -> bool {
    exists|k: int| 0 <= k < n && (#[trigger] events[k] matches RunEvent::Finish(f) && g.refers(x, f))
}

/// An iterator as it starts: no call handed out.
pub open spec fn run_start(it: FnCallIterator) -> bool {
    &&& it.wf()
    &&& it.finished() == Set::<int>::empty()
    &&& forall|i: int| 0 <= i < it.graph().size() ==> !#[trigger] it.computing(i)
}

/// The call `x` was handed out: it is being computed, or finished.
pub open spec fn handed(it: FnCallIterator, x: int) -> bool {
    it.computing(x) || it.finished().contains(x)
}

/// After the first `n` events of a run, the calls handed out are those that
/// `next_function` gave, and the calls finished are calls said to be over.
proof fn lemma_run_prefix(states: Seq<FnCallIterator>, events: Seq<RunEvent>, n: int)
    requires
        run_ok(states, events),
        run_start(states[0]),
        0 <= n <= events.len(),
    ensures
        states[n].wf(),
        states[n].graph() == states[0].graph(),
        forall|x: int|
            #![trigger handed(states[n], x)]
            #![trigger returned_before(states[0].graph(), events, n, x)]
            0 <= x < states[0].graph().size() ==> (handed(states[n], x) <==> returned_before(states[0].graph(), events, n, x)),
        forall|x: int| #[trigger] states[n].finished().contains(x) ==> finished_before(states[0].graph(), events, n, x),
    decreases n,
{
    let g = states[0].graph();
    if n > 0 {
        let m = n - 1;
        lemma_run_prefix(states, events, m);
        let before = states[m];
        let after = states[n];
        let e = events[m];
        assert(before.wf());
        match e {
            RunEvent::Next(r) => {
                assert(next_step(before, after, r));
                match r {
                    None => {
                        assert forall|x: int| 0 <= x < g.size() implies (handed(after, x) <==> returned_before(g, events, n, x)) by {
                            if returned_before(g, events, n, x) {
                                let k = choose|k: int| 0 <= k < n && (#[trigger] events[k] matches RunEvent::Next(Some(f)) && g.refers(x, f));
                                assert(k != m);
                            }
                        }
                        assert forall|x: int| #[trigger] after.finished().contains(x) implies finished_before(g, events, n, x) by {
                            let k = choose|k: int| 0 <= k < m && (#[trigger] events[k] matches RunEvent::Finish(f) && g.refers(x, f));
                        }
                    },
                    Some(f) => {
                        let x0 = before.ready().last() as int;
                        before.lemma_ready_valid(before.ready().len() - 1);
                        assert(g.refers(x0, f));
                        assert forall|x: int| 0 <= x < g.size() implies (handed(after, x) <==> returned_before(g, events, n, x)) by {
                            if x == x0 {
                                assert(events[m] matches RunEvent::Next(Some(f2)) && g.refers(x, f2));
                            } else {
                                assert(after.computing(x) == before.computing(x));
                                if returned_before(g, events, n, x) {
                                    let k = choose|k: int| 0 <= k < n && (#[trigger] events[k] matches RunEvent::Next(Some(f2)) && g.refers(x, f2));
                                    if k == m {
                                        g.lemma_refers_unique(x, x0, f);
                                    }
                                    assert(returned_before(g, events, m, x));
                                }
                                if returned_before(g, events, m, x) {
                                    let k = choose|k: int| 0 <= k < m && (#[trigger] events[k] matches RunEvent::Next(Some(f2)) && g.refers(x, f2));
                                    assert(returned_before(g, events, n, x));
                                }
                            }
                        }
                        assert forall|x: int| #[trigger] after.finished().contains(x) implies finished_before(g, events, n, x) by {
                            let k = choose|k: int| 0 <= k < m && (#[trigger] events[k] matches RunEvent::Finish(f2) && g.refers(x, f2));
                        }
                    },
                }
            },
            RunEvent::Finish(f) => {
                assert(finish_step(before, after, f));
                let changed = before.graph().lookup(f) is Ok && before.computing(before.graph().lookup(f)->Ok_0);
                assert forall|x: int| 0 <= x < g.size() implies (handed(after, x) <==> returned_before(g, events, n, x)) by {
                    if returned_before(g, events, n, x) {
                        let k = choose|k: int| 0 <= k < n && (#[trigger] events[k] matches RunEvent::Next(Some(f2)) && g.refers(x, f2));
                        assert(k != m);
                        assert(returned_before(g, events, m, x));
                    }
                    if returned_before(g, events, m, x) {
                        let k = choose|k: int| 0 <= k < m && (#[trigger] events[k] matches RunEvent::Next(Some(f2)) && g.refers(x, f2));
                        assert(returned_before(g, events, n, x));
                    }
                    if changed {
                        let x1 = before.graph().lookup(f)->Ok_0;
                        if x != x1 {
                            assert(after.computing(x) == before.computing(x));
                        }
                    }
                }
                assert forall|x: int| #[trigger] after.finished().contains(x) implies finished_before(g, events, n, x) by {
                    if before.finished().contains(x) {
                        let k = choose|k: int| 0 <= k < m && (#[trigger] events[k] matches RunEvent::Finish(f2) && g.refers(x, f2));
                    } else {
                        assert(changed);
                        assert(exists|i: int| g.refers(i, f));
                        assert(x == choose|i: int| g.refers(i, f));
                        assert(events[m] matches RunEvent::Finish(f2) && g.refers(x, f2));
                    }
                }
            },
        }
    }
}

/// Over a run of an iterator from its start: `next_function` gives each call
/// at most once; it gives a call only once `finish_function` was told, for
/// each call the call depends on, that it is over; and when the run ends with
/// no call ready and none being computed, in a graph whose calls are each
/// relied on only by calls made after them, it gave every call of the graph.
pub proof fn lemma_run(states: Seq<FnCallIterator>, events: Seq<RunEvent>)
    requires
        run_ok(states, events),
        run_start(states[0]),
    ensures
        forall|k1: int, k2: int|
            0 <= k1 < k2 < events.len() && (#[trigger] events[k1] is Next && events[k1]->Next_0 is Some) && (#[trigger] events[k2] is Next
                && events[k2]->Next_0 is Some) ==> !same_ref(events[k1]->Next_0->Some_0, events[k2]->Next_0->Some_0),
        forall|k: int, x: int, y: int|
            0 <= k < events.len() && 0 <= y < states[0].graph().size() && #[trigger] states[0].depends_on(x, y) && (#[trigger] events[k] is Next
                && events[k]->Next_0 is Some) && states[0].graph().refers(x, events[k]->Next_0->Some_0) ==> finished_before(
                states[0].graph(),
                events,
                k,
                y,
            ),
        ({
            let last = states[events.len() as int];
            &&& last.ready().len() == 0
            &&& forall|i: int| 0 <= i < states[0].graph().size() ==> !#[trigger] last.computing(i)
            &&& deps_ordered(states[0].graph())
        }) ==> forall|x: int| 0 <= x < states[0].graph().size() ==> #[trigger] returned_before(states[0].graph(), events, events.len() as int, x),
{
    let g = states[0].graph();
    assert forall|k1: int, k2: int|
        0 <= k1 < k2 < events.len() && (#[trigger] events[k1] is Next && events[k1]->Next_0 is Some) && (#[trigger] events[k2] is Next
            && events[k2]->Next_0 is Some) implies !same_ref(events[k1]->Next_0->Some_0, events[k2]->Next_0->Some_0) by {
        let f1 = events[k1]->Next_0->Some_0;
        let f2 = events[k2]->Next_0->Some_0;
        lemma_run_prefix(states, events, k1);
        lemma_run_prefix(states, events, k2);
        let b1 = states[k1];
        let b2 = states[k2];
        assert(next_step(b1, states[k1 + 1], Some(f1)));
        assert(next_step(b2, states[k2 + 1], Some(f2)));
        let x1 = b1.ready().last() as int;
        let x2 = b2.ready().last() as int;
        b1.lemma_ready_valid(b1.ready().len() - 1);
        b2.lemma_ready_valid(b2.ready().len() - 1);
        assert(g.refers(x1, f1));
        assert(returned_before(g, events, k2, x1));
        assert(handed(b2, x1));
        assert(!handed(b2, x2));
        if same_ref(f1, f2) {
            assert(g.refers(x2, f1));
            states[0].start@.lemma_refers_unique(x1, x2, f1);
        }
    }
    assert forall|k: int, x: int, y: int|
        0 <= k < events.len() && 0 <= y < g.size() && #[trigger] states[0].depends_on(x, y) && (#[trigger] events[k] is Next
            && events[k]->Next_0 is Some) && g.refers(x, events[k]->Next_0->Some_0) implies finished_before(g, events, k, y) by {
        let f = events[k]->Next_0->Some_0;
        lemma_run_prefix(states, events, k);
        let b = states[k];
        assert(next_step(b, states[k + 1], Some(f)));
        let x0 = b.ready().last() as int;
        b.lemma_ready_valid(b.ready().len() - 1);
        assert(g.refers(x0, f));
        states[0].start@.lemma_refers_unique(x, x0, f);
        assert(b.depends_on(x0, y));
        assert(b.finished().contains(y));
    }
    let n = events.len() as int;
    let last = states[n];
    if last.ready().len() == 0 && (forall|i: int| 0 <= i < g.size() ==> !#[trigger] last.computing(i)) && deps_ordered(g) {
        lemma_run_prefix(states, events, n);
        assert forall|x: int| 0 <= x < g.size() implies #[trigger] returned_before(g, events, n, x) by {
            last.lemma_all_finished(x);
            assert(handed(last, x));
        }
    }
}

/// Hands out the calls of a [`RelationGraph`], each taken as finished at once.
pub struct AutoFnCallIterator {
    module_iterator: FnCallIterator,
}

impl AutoFnCallIterator {
    /// The state of the underlying iteration.
    pub closed spec fn inner(&self) -> FnCallIterator {
        self.module_iterator
    }

    /// The underlying iteration.
    pub fn get_inner_iter(&self) -> (r: &FnCallIterator)
        ensures
            *r == self.inner(),
    {
        &self.module_iterator
    }

    /// Ends the iteration and gives back the underlying iteration.
    pub fn into_inner(self) -> (r: FnCallIterator)
        ensures
            r == self.inner(),
    {
        self.module_iterator
    }

    /// The next call: a call whose dependencies were all handed out before it.
    pub fn next(&mut self) -> (r: Option<FnRef>)
        requires
            old(self).inner().wf(),
        ensures
            final(self).inner().wf(),
            final(self).inner().graph() == old(self).inner().graph(),
            forall|i: int| 0 <= i < old(self).inner().graph().size() ==>
                #[trigger] final(self).inner().computing(i) == old(self).inner().computing(i),
            match r {
                None => old(self).inner().ready().len() == 0,
                Some(f) => {
                    let it = old(self).inner();
                    let x = it.ready().last() as int;
                    &&& it.ready().len() > 0
                    &&& f == it.graph().call_ref(x)
                    &&& !it.finished().contains(x)
                    &&& forall|y: int| 0 <= y < it.graph().size() && #[trigger] it.depends_on(x, y) ==> it.finished().contains(y)
                    &&& final(self).inner().finished() == it.finished().insert(x)
                },
            },
    {
        let ghost it0 = self.module_iterator;
        match self.module_iterator.next_function() {
            Some(next) => {
                proof {
                    let x = it0.ready().last() as int;
                    it0.start@.lemma_refers_unique(x, x, next);
                    assert(it0.graph().refers(x, next));
                    assert(it0.graph().lookup(next) == Ok::<int, RelationGraphError>(x)) by {
                        let k = choose|i: int| it0.graph().refers(i, next);
                        it0.graph().lemma_refers_unique(k, x, next);
                    }
                }
                self.module_iterator.finish_function(&next);
                Some(next)
            },
            None => None,
        }
    }
}

impl From<FnCallIterator> for AutoFnCallIterator {
    fn from(val: FnCallIterator) -> (r: Self)
        ensures
            r.inner() == val,
    {
        AutoFnCallIterator { module_iterator: val }
    }
}

impl vstd::std_specs::convert::FromSpecImpl<FnCallIterator> for AutoFnCallIterator {
    open spec fn obeys_from_spec() -> bool {
        true
    }

    closed spec fn from_spec(v: FnCallIterator) -> Self {
        AutoFnCallIterator { module_iterator: v }
    }
}

} // verus!
