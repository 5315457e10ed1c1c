//! Parsed expressions: arithmetic expressions, comparisons, conditions and
//! query statements, over a type `P` of primitive values.
use vstd::prelude::*;
use crate::numeric::Numeric;

verus! {

/// A binary arithmetic operator.
#[derive(Debug, Clone, Copy, PartialEq, Eq, Structural)]
pub enum ArithmOp {
    Add,
    Subtract,
    Power,
    Multiply,
    Divide,
    Modulo,
}

/// The primitive values that an expression can hold.
pub trait Prim: Sized {
    /// An identical copy of this value.
    fn copy_prim(&self) -> (r: Self)
        ensures
            r == *self;
}

/// An arithmetic expression over primitive values of type `P`.
#[derive(Debug, PartialEq, Eq)]
pub enum MathExpression<P> {
    Primitif(P),
    Negation(Box<MathExpression<P>>),
    Floor(Box<MathExpression<P>>),
    Ceil(Box<MathExpression<P>>),
    Abs(Box<MathExpression<P>>),
    Sqrt(Box<MathExpression<P>>),
    BinOperation { left: Box<MathExpression<P>>, op: ArithmOp, right: Box<MathExpression<P>> },
}

/// The primitive values of an expression, from left to right.
pub open spec fn prims<P>(e: MathExpression<P>) -> Seq<P>
    decreases e,
{
    match e {
        MathExpression::Primitif(p) => seq![p],
        MathExpression::Negation(x) => prims(*x),
        MathExpression::Floor(x) => prims(*x),
        MathExpression::Ceil(x) => prims(*x),
        MathExpression::Abs(x) => prims(*x),
        MathExpression::Sqrt(x) => prims(*x),
        MathExpression::BinOperation { left, op, right } => prims(*left) + prims(*right),
    }
}

/// The name of the outermost operation of an expression.
pub open spec fn operator_name<P>(e: MathExpression<P>) -> Seq<char> {
    match e {
        MathExpression::Primitif(_) => "Primitif"@,
        MathExpression::Negation(_) => "Negation"@,
        MathExpression::Floor(_) => "Floor"@,
        MathExpression::Ceil(_) => "Ceil"@,
        MathExpression::Abs(_) => "Abs"@,
        MathExpression::Sqrt(_) => "Sqrt"@,
        MathExpression::BinOperation { op, .. } => match op {
            ArithmOp::Add => "Addition"@,
            ArithmOp::Subtract => "Substraction"@,
            ArithmOp::Power => "Exponentation"@,
            ArithmOp::Multiply => "Multiplication"@,
            ArithmOp::Divide => "Division"@,
            ArithmOp::Modulo => "Modulus"@,
        },
    }
}

impl<P: Prim> MathExpression<P> {
    /// An identical copy of this expression.
    pub fn deep_copy(&self) -> (r: Self)
        ensures
            r == *self,
        decreases self,
    {
        match self {
            MathExpression::Primitif(p) => MathExpression::Primitif(p.copy_prim()),
            MathExpression::Negation(x) => MathExpression::Negation(Box::new((&**x).deep_copy())),
            MathExpression::Floor(x) => MathExpression::Floor(Box::new((&**x).deep_copy())),
            MathExpression::Ceil(x) => MathExpression::Ceil(Box::new((&**x).deep_copy())),
            MathExpression::Abs(x) => MathExpression::Abs(Box::new((&**x).deep_copy())),
            MathExpression::Sqrt(x) => MathExpression::Sqrt(Box::new((&**x).deep_copy())),
            MathExpression::BinOperation { left, op, right } => MathExpression::BinOperation {
                left: Box::new((&**left).deep_copy()),
                op: *op,
                right: Box::new((&**right).deep_copy()),
            },
        }
    }

    /// Appends the primitive values of this expression to `out`, from left to right.
    pub fn push_primitives(&self, out: &mut Vec<P>)
        ensures
            final(out)@ == old(out)@ + prims(*self),
        decreases self,
    {
        match self {
            MathExpression::Primitif(p) => {
                out.push(p.copy_prim());
            },
            MathExpression::Negation(x) => (&**x).push_primitives(out),
            MathExpression::Floor(x) => (&**x).push_primitives(out),
            MathExpression::Ceil(x) => (&**x).push_primitives(out),
            MathExpression::Abs(x) => (&**x).push_primitives(out),
            MathExpression::Sqrt(x) => (&**x).push_primitives(out),
            MathExpression::BinOperation { left, op, right } => {
                (&**left).push_primitives(out);
                (&**right).push_primitives(out);
                assert(out@ =~= old(out)@ + prims(*self));
            },
        }
    }

    /// All the primitive values of this expression, from left to right.
    pub fn get_all_primitives_rec(&self) -> (r: Vec<P>)
        ensures
            r@ == prims(*self),
    {
        let mut out: Vec<P> = Vec::new();
        self.push_primitives(&mut out);
        assert(out@ =~= prims(*self));
        out
    }

    /// The primitive value of this expression when it is nothing else.
    pub fn get_prim_non_rec(&self) -> (r: Option<P>)
        ensures
            r == (match *self {
                MathExpression::Primitif(p) => Some(p),
                _ => None,
            }),
    {
        match self {
            MathExpression::Primitif(p) => Some(p.copy_prim()),
            _ => None,
        }
    }
}

impl<P> MathExpression<P> {
    pub fn floor(expr: MathExpression<P>) -> (r: Self)
        ensures
            r == MathExpression::Floor(Box::new(expr)),
    {
        MathExpression::Floor(Box::new(expr))
    }

    pub fn ceil(expr: MathExpression<P>) -> (r: Self)
        ensures
            r == MathExpression::Ceil(Box::new(expr)),
    {
        MathExpression::Ceil(Box::new(expr))
    }

    pub fn abs(expr: MathExpression<P>) -> (r: Self)
        ensures
            r == MathExpression::Abs(Box::new(expr)),
    {
        MathExpression::Abs(Box::new(expr))
    }

    pub fn negation(expr: MathExpression<P>) -> (r: Self)
        ensures
            r == MathExpression::Negation(Box::new(expr)),
    {
        MathExpression::Negation(Box::new(expr))
    }

    pub fn sqrt(expr: MathExpression<P>) -> (r: Self)
        ensures
            r == MathExpression::Sqrt(Box::new(expr)),
    {
        MathExpression::Sqrt(Box::new(expr))
    }

    pub fn primitif(arg: P) -> (r: Self)
        ensures
            r == MathExpression::Primitif(arg),
    {
        MathExpression::Primitif(arg)
    }

    pub fn is_primitif(&self) -> (r: bool)
        ensures
            r == (*self is Primitif),
    {
        match self {
            MathExpression::Primitif(_) => true,
            _ => false,
        }
    }

    pub fn bin_operation(left: MathExpression<P>, op: ArithmOp, right: MathExpression<P>) -> (r: Self)
        ensures
            r == (MathExpression::BinOperation { left: Box::new(left), op, right: Box::new(right) }),
    {
        MathExpression::BinOperation { left: Box::new(left), op, right: Box::new(right) }
    }

    /// The name of the outermost operation of this expression.
    pub fn get_operator_name(&self) -> (r: String)
        ensures
            r@ == operator_name(*self),
    {
        proof {
            reveal_strlit("Primitif");
            reveal_strlit("Negation");
            reveal_strlit("Floor");
            reveal_strlit("Ceil");
            reveal_strlit("Abs");
            reveal_strlit("Sqrt");
            reveal_strlit("Addition");
            reveal_strlit("Substraction");
            reveal_strlit("Exponentation");
            reveal_strlit("Multiplication");
            reveal_strlit("Division");
            reveal_strlit("Modulus");
        }
        let s: &str = match self {
            MathExpression::Primitif(_) => "Primitif",
            MathExpression::Negation(_) => "Negation",
            MathExpression::Floor(_) => "Floor",
            MathExpression::Ceil(_) => "Ceil",
            MathExpression::Abs(_) => "Abs",
            MathExpression::Sqrt(_) => "Sqrt",
            MathExpression::BinOperation { op, .. } => match op {
                ArithmOp::Add => "Addition",
                ArithmOp::Subtract => "Substraction",
                ArithmOp::Power => "Exponentation",
                ArithmOp::Multiply => "Multiplication",
                ArithmOp::Divide => "Division",
                ArithmOp::Modulo => "Modulus",
            },
        };
        String::from_str(s)
    }
}

impl<P: Prim> Clone for MathExpression<P> {
    fn clone(&self) -> (r: Self)
        ensures
            r == *self,
    {
        self.deep_copy()
    }
}

impl<P> From<P> for MathExpression<P> {
    fn from(value: P) -> (r: Self) {
        MathExpression::Primitif(value)
    }
}

impl<P> vstd::std_specs::convert::FromSpecImpl<P> for MathExpression<P> {
    open spec fn obeys_from_spec() -> bool {
        true
    }

    open spec fn from_spec(v: P) -> Self {
        MathExpression::Primitif(v)
    }
}

/// A comparison between two expressions. The equality comparisons (and the
/// large inequalities) may carry a precision `epsilon`.
#[derive(Debug, PartialEq, Eq)]
pub enum Comparison<P> {
    /// `a > b`
    Greater(MathExpression<P>, MathExpression<P>),
    /// `a >= b` / `a > b or |a - b| < epsilon`
    GreaterEqual(MathExpression<P>, MathExpression<P>, Option<Numeric>),
    /// `a < b`
    Less(MathExpression<P>, MathExpression<P>),
    /// `a <= b` / `a < b or |a - b| < epsilon`
    LessEqual(MathExpression<P>, MathExpression<P>, Option<Numeric>),
    /// `a = b` / `|a - b| < epsilon`
    Equal(MathExpression<P>, MathExpression<P>, Option<Numeric>),
    /// `a != b` / `|a - b| >= epsilon`
    NotEqual(MathExpression<P>, MathExpression<P>, Option<Numeric>),
}

pub fn copy_epsilon(e: &Option<Numeric>) -> (r: Option<Numeric>)
    ensures
        r == *e,
{
    match e {
        Some(n) => Some(n.copy()),
        None => None,
    }
}

/// The left and right expressions of a comparison.
pub open spec fn comparison_sides<P>(c: Comparison<P>) -> (MathExpression<P>, MathExpression<P>) {
    match c {
        Comparison::Greater(l, r) => (l, r),
        Comparison::GreaterEqual(l, r, _) => (l, r),
        Comparison::Less(l, r) => (l, r),
        Comparison::LessEqual(l, r, _) => (l, r),
        Comparison::Equal(l, r, _) => (l, r),
        Comparison::NotEqual(l, r, _) => (l, r),
    }
}

impl<P> Comparison<P> {
    /// Gets the left and right expressions of this comparison.
    pub fn get_left_right_expr(&self) -> (r: (&MathExpression<P>, &MathExpression<P>))
        ensures
            (*r.0, *r.1) == comparison_sides(*self),
    {
        match self {
            Comparison::Greater(l, r) => (l, r),
            Comparison::GreaterEqual(l, r, _) => (l, r),
            Comparison::Less(l, r) => (l, r),
            Comparison::LessEqual(l, r, _) => (l, r),
            Comparison::Equal(l, r, _) => (l, r),
            Comparison::NotEqual(l, r, _) => (l, r),
        }
    }
}

impl<P: Prim> Comparison<P> {
    pub fn deep_copy(&self) -> (r: Self)
        ensures
            r == *self,
    {
        match self {
            Comparison::Greater(l, r) => Comparison::Greater(l.deep_copy(), r.deep_copy()),
            Comparison::GreaterEqual(l, r, e) => Comparison::GreaterEqual(l.deep_copy(), r.deep_copy(), copy_epsilon(e)),
            Comparison::Less(l, r) => Comparison::Less(l.deep_copy(), r.deep_copy()),
            Comparison::LessEqual(l, r, e) => Comparison::LessEqual(l.deep_copy(), r.deep_copy(), copy_epsilon(e)),
            Comparison::Equal(l, r, e) => Comparison::Equal(l.deep_copy(), r.deep_copy(), copy_epsilon(e)),
            Comparison::NotEqual(l, r, e) => Comparison::NotEqual(l.deep_copy(), r.deep_copy(), copy_epsilon(e)),
        }
    }
}

impl<P: Prim> Clone for Comparison<P> {
    fn clone(&self) -> (r: Self)
        ensures
            r == *self,
    {
        self.deep_copy()
    }
}

/// A condition: comparisons combined with `and`, `or` and `not`.
#[derive(Debug, PartialEq, Eq)]
pub enum Condition<P> {
    /// A simple comparison
    Comparison(Comparison<P>),
    /// `x` or `y`
    Or(Box<Condition<P>>, Box<Condition<P>>),
    /// `x` and `y`
    And(Box<Condition<P>>, Box<Condition<P>>),
    /// not `x`
    Not(Box<Condition<P>>),
}

impl<P: Prim> Condition<P> {
    pub fn deep_copy(&self) -> (r: Self)
        ensures
            r == *self,
        decreases self,
    {
        match self {
            Condition::Comparison(c) => Condition::Comparison(c.deep_copy()),
            Condition::Or(a, b) => Condition::Or(Box::new((&**a).deep_copy()), Box::new((&**b).deep_copy())),
            Condition::And(a, b) => Condition::And(Box::new((&**a).deep_copy()), Box::new((&**b).deep_copy())),
            Condition::Not(a) => Condition::Not(Box::new((&**a).deep_copy())),
        }
    }

    /// `x xor y`, written `(x or y) and not(x and y)`.
    pub fn xor(cond_1: Condition<P>, cond_2: Condition<P>) -> (r: Self)
        ensures
            r == Condition::and(Condition::or(cond_1, cond_2), Condition::not(Condition::and(cond_1, cond_2))),
    {
        let c1 = cond_1.deep_copy();
        let c2 = cond_2.deep_copy();
        Condition::and(Condition::or(cond_1, cond_2), Condition::not(Condition::and(c1, c2)))
    }

    /// `x <==> y`, written `(x ==> y) and (y ==> x)`.
    pub fn equivalence(cond_1: Condition<P>, cond_2: Condition<P>) -> (r: Self)
        ensures
            r == Condition::and(Condition::implication(cond_1, cond_2), Condition::implication(cond_2, cond_1)),
    {
        let c1 = cond_1.deep_copy();
        let c2 = cond_2.deep_copy();
        Condition::and(Condition::implication(cond_1, cond_2), Condition::implication(c2, c1))
    }
}

impl<P> Condition<P> {
    pub open spec fn spec_and(cond_1: Condition<P>, cond_2: Condition<P>) -> Condition<P> {
        Condition::And(Box::new(cond_1), Box::new(cond_2))
    }

    pub open spec fn spec_or(cond_1: Condition<P>, cond_2: Condition<P>) -> Condition<P> {
        Condition::Or(Box::new(cond_1), Box::new(cond_2))
    }

    pub open spec fn spec_not(cond: Condition<P>) -> Condition<P> {
        Condition::Not(Box::new(cond))
    }

    pub open spec fn spec_implication(cond_1: Condition<P>, cond_2: Condition<P>) -> Condition<P> {
        Condition::Or(Box::new(Condition::Not(Box::new(cond_1))), Box::new(cond_2))
    }


    /// `x and y`
    #[verifier::when_used_as_spec(spec_and)]
    pub fn and(cond_1: Condition<P>, cond_2: Condition<P>) -> (r: Self)
        ensures
            r == Condition::And(Box::new(cond_1), Box::new(cond_2)),
    {
        Condition::And(Box::new(cond_1), Box::new(cond_2))
    }

    /// `x or y`
    #[verifier::when_used_as_spec(spec_or)]
    pub fn or(cond_1: Condition<P>, cond_2: Condition<P>) -> (r: Self)
        ensures
            r == Condition::Or(Box::new(cond_1), Box::new(cond_2)),
    {
        Condition::Or(Box::new(cond_1), Box::new(cond_2))
    }

    /// `not x`
    #[verifier::when_used_as_spec(spec_not)]
    pub fn not(cond: Condition<P>) -> (r: Self)
        ensures
            r == Condition::Not(Box::new(cond)),
    {
        Condition::Not(Box::new(cond))
    }

    /// `x ==> y`, written `not(x) or y`.
    #[verifier::when_used_as_spec(spec_implication)]
    pub fn implication(cond_1: Condition<P>, cond_2: Condition<P>) -> (r: Self)
        ensures
            r == Condition::Or(Box::new(Condition::Not(Box::new(cond_1))), Box::new(cond_2)),
    {
        Condition::or(Condition::not(cond_1), cond_2)
    }

    pub fn is_condition(&self) -> (r: bool)
        ensures
            r == (*self is Comparison),
    {
        match self {
            Condition::Comparison(_) => true,
            _ => false,
        }
    }
}

impl<P: Prim> Clone for Condition<P> {
    fn clone(&self) -> (r: Self)
        ensures
            r == *self,
    {
        self.deep_copy()
    }
}

impl<P> From<Comparison<P>> for Condition<P> {
    fn from(val: Comparison<P>) -> (r: Self) {
        Condition::Comparison(val)
    }
}

impl<P> vstd::std_specs::convert::FromSpecImpl<Comparison<P>> for Condition<P> {
    open spec fn obeys_from_spec() -> bool {
        true
    }

    open spec fn from_spec(v: Comparison<P>) -> Self {
        Condition::Comparison(v)
    }
}

/// A query: a condition, or conditions chained by `->` (if-then).
#[derive(Debug, PartialEq, Eq)]
pub enum QueryStatement {
    Condition(Condition<ParsedArgType>),
    IfThen(Condition<ParsedArgType>, Box<QueryStatement>),
}

/// The statement whose last condition is negated: the counterpart that
/// a counterexample to the statement satisfies.
pub open spec fn counter_statement(q: QueryStatement) -> QueryStatement
    decreases q,
{
    match q {
        QueryStatement::Condition(c) => QueryStatement::Condition(Condition::Not(Box::new(c))),
        QueryStatement::IfThen(c, rest) => QueryStatement::IfThen(c, Box::new(counter_statement(*rest))),
    }
}

impl QueryStatement {
    pub fn condition(condition: Condition<ParsedArgType>) -> (r: Self)
        ensures
            r == QueryStatement::Condition(condition),
    {
        QueryStatement::Condition(condition)
    }

    pub fn if_then(condition: Condition<ParsedArgType>, query_statement: QueryStatement) -> (r: Self)
        ensures
            r == QueryStatement::IfThen(condition, Box::new(query_statement)),
    {
        QueryStatement::IfThen(condition, Box::new(query_statement))
    }

    /// Negates the last condition of the statement.
    pub fn to_counter(&mut self)
        ensures
            *final(self) == counter_statement(*old(self)),
        decreases *old(self),
    {
        match self {
            QueryStatement::Condition(condition) => {
                let c = condition.deep_copy();
                *condition = Condition::not(c);
            },
            QueryStatement::IfThen(_, rest) => {
                (&mut **rest).to_counter();
            },
        }
    }
}

impl From<Condition<ParsedArgType>> for QueryStatement {
    fn from(val: Condition<ParsedArgType>) -> (r: Self) {
        QueryStatement::Condition(val)
    }
}

impl vstd::std_specs::convert::FromSpecImpl<Condition<ParsedArgType>> for QueryStatement {
    open spec fn obeys_from_spec() -> bool {
        true
    }

    open spec fn from_spec(v: Condition<ParsedArgType>) -> Self {
        QueryStatement::Condition(v)
    }
}

/// The arguments of a parsed function after the first one.
#[derive(Debug, PartialEq, Eq)]
pub enum ArgList {
    End,
    Next(Box<MathExpression<ParsedArgType>>, Box<ArgList>),
}

/// The expressions of an argument list, in order.
pub open spec fn arg_list_seq(l: ArgList) -> Seq<MathExpression<ParsedArgType>>
    decreases l,
{
    match l {
        ArgList::End => Seq::empty(),
        ArgList::Next(e, rest) => seq![*e] + arg_list_seq(*rest),
    }
}

/// A function call as it was written in a query, such as `P(G, n + 1)`.
#[derive(Debug, PartialEq, Eq)]
pub struct ParsedFunction {
    pub name: String,
    pub first_arg: Box<MathExpression<ParsedArgType>>,
    pub other_args: ArgList,
}

/// The primitive values of a parsed query.
#[derive(Debug, PartialEq, Eq)]
pub enum ParsedArgType {
    PrimString(String),
    PrimNumeric(Numeric),
    /// The graph being examined, written `G`.
    Dataset,
    Function(ParsedFunction),
}

impl Prim for ParsedArgType {
    fn copy_prim(&self) -> (r: Self) {
        copy_parsed_arg(self)
    }
}

pub fn copy_parsed_expr(e: &MathExpression<ParsedArgType>) -> (r: MathExpression<ParsedArgType>)
    ensures
        r == *e,
    decreases e, 0nat,
{
    match e {
        MathExpression::Primitif(p) => MathExpression::Primitif(copy_parsed_arg(p)),
        MathExpression::Negation(x) => MathExpression::Negation(Box::new(copy_parsed_expr(x))),
        MathExpression::Floor(x) => MathExpression::Floor(Box::new(copy_parsed_expr(x))),
        MathExpression::Ceil(x) => MathExpression::Ceil(Box::new(copy_parsed_expr(x))),
        MathExpression::Abs(x) => MathExpression::Abs(Box::new(copy_parsed_expr(x))),
        MathExpression::Sqrt(x) => MathExpression::Sqrt(Box::new(copy_parsed_expr(x))),
        MathExpression::BinOperation { left, op, right } => MathExpression::BinOperation {
            left: Box::new(copy_parsed_expr(left)),
            op: *op,
            right: Box::new(copy_parsed_expr(right)),
        },
    }
}

pub fn copy_arg_list(l: &ArgList) -> (r: ArgList)
    ensures
        r == *l,
    decreases l, 0nat,
{
    match l {
        ArgList::End => ArgList::End,
        ArgList::Next(e, rest) => ArgList::Next(Box::new(copy_parsed_expr(e)), Box::new(copy_arg_list(rest))),
    }
}

pub fn copy_parsed_arg(a: &ParsedArgType) -> (r: ParsedArgType)
    ensures
        r == *a,
    decreases a, 0nat,
{
    match a {
        ParsedArgType::PrimString(s) => ParsedArgType::PrimString(s.clone()),
        ParsedArgType::PrimNumeric(n) => ParsedArgType::PrimNumeric(n.copy()),
        ParsedArgType::Dataset => ParsedArgType::Dataset,
        ParsedArgType::Function(f) => ParsedArgType::Function(ParsedFunction {
            name: f.name.clone(),
            first_arg: Box::new(copy_parsed_expr(&f.first_arg)),
            other_args: copy_arg_list(&f.other_args),
        }),
    }
}

impl Clone for ParsedArgType {
    fn clone(&self) -> (r: Self)
        ensures
            r == *self,
    {
        copy_parsed_arg(self)
    }
}

/// Builds an argument list from the given expressions.
pub fn arg_list_of(args: Vec<MathExpression<ParsedArgType>>) -> (r: ArgList)
    ensures
        arg_list_seq(r) == args@,
{
    let mut v = args;
    let mut l = ArgList::End;
    let ghost orig = v@;
    while v.len() > 0
        invariant
            orig == v@ + arg_list_seq(l),
        decreases v.len(),
    {
        let e = v.pop().unwrap();
        l = ArgList::Next(Box::new(e), Box::new(l));
        assert(orig =~= v@ + arg_list_seq(l));
    }
    assert(orig =~= arg_list_seq(l));
    l
}

impl ParsedArgType {
    pub fn prim_string(value: String) -> (r: Self)
        ensures
            r == ParsedArgType::PrimString(value),
    {
        ParsedArgType::PrimString(value)
    }

    pub fn prim_numeric(value: Numeric) -> (r: Self)
        ensures
            r == ParsedArgType::PrimNumeric(value),
    {
        ParsedArgType::PrimNumeric(value)
    }

    /// The call `name(first_arg, args...)`.
    pub fn function(
        name: String,
        first_arg: MathExpression<ParsedArgType>,
        args: Vec<MathExpression<ParsedArgType>>,
    ) -> (r: Self)
        ensures
            r matches ParsedArgType::Function(f) && f.name == name && *f.first_arg == first_arg
                && arg_list_seq(f.other_args) == args@,
    {
        ParsedArgType::Function(ParsedFunction {
            name,
            first_arg: Box::new(first_arg),
            other_args: arg_list_of(args),
        })
    }

    /// The invariant `name`, that is the call `name(G)`.
    pub fn invariant_call(name: String) -> (r: Self)
        ensures
            r == ParsedArgType::Function(ParsedFunction {
                name,
                first_arg: Box::new(MathExpression::Primitif(ParsedArgType::Dataset)),
                other_args: ArgList::End,
            }),
    {
        ParsedArgType::Function(ParsedFunction {
            name,
            first_arg: Box::new(MathExpression::Primitif(ParsedArgType::Dataset)),
            other_args: ArgList::End,
        })
    }
}

impl From<ParsedFunction> for ParsedArgType {
    fn from(value: ParsedFunction) -> (r: Self) {
        ParsedArgType::Function(value)
    }
}

impl vstd::std_specs::convert::FromSpecImpl<ParsedFunction> for ParsedArgType {
    open spec fn obeys_from_spec() -> bool {
        true
    }

    open spec fn from_spec(v: ParsedFunction) -> Self {
        ParsedArgType::Function(v)
    }
}

} // verus!
