//! How parsed expressions, comparisons and conditions are written back as
//! text: a sub-expression that is not a primitive value is put between
//! brackets, as is a sub-condition that is not a comparison.
use vstd::prelude::*;
use crate::expr::{ArgList, ArithmOp, Comparison, Condition, MathExpression, ParsedArgType};
use crate::text::{push_str, string_of};

verus! {

/// The symbol of an arithmetic operator.
pub open spec fn op_text(op: ArithmOp) -> Seq<char> {
    match op {
        ArithmOp::Add => "+"@,
        ArithmOp::Subtract => "-"@,
        ArithmOp::Power => "**"@,
        ArithmOp::Multiply => "*"@,
        ArithmOp::Divide => "/"@,
        ArithmOp::Modulo => "%"@,
    }
}

/// The text of a parsed primitive value: a string as it is, a number in its
/// canonical writing, the graph as `G`, a call as its name followed by its
/// arguments between brackets.
pub open spec fn arg_text(a: ParsedArgType) -> Seq<char>
    decreases a, 0nat,
{
    match a {
        ParsedArgType::PrimString(v) => v@,
        ParsedArgType::PrimNumeric(n) => n@,
        ParsedArgType::Dataset => "G"@,
        ParsedArgType::Function(f) => f.name@ + "("@ + expr_text(*f.first_arg) + args_tail_text(f.other_args) + ")"@,
    }
}

/// The arguments of a list, each behind a comma.
pub open spec fn args_tail_text(l: ArgList) -> Seq<char>
    decreases l, 0nat,
{
    match l {
        ArgList::End => Seq::empty(),
        ArgList::Next(e, rest) => ","@ + expr_text(*e) + args_tail_text(*rest),
    }
}

/// An expression as an operand: a primitive value as it is, anything else
/// between brackets.
pub open spec fn operand_text(e: MathExpression<ParsedArgType>) -> Seq<char>
    decreases e, 1nat,
{
    if e is Primitif {
        expr_text(e)
    } else {
        "("@ + expr_text(e) + ")"@
    }
}

/// The text of a parsed expression.
pub open spec fn expr_text(e: MathExpression<ParsedArgType>) -> Seq<char>
    decreases e, 0nat,
{
    match e {
        MathExpression::Primitif(p) => arg_text(p),
        MathExpression::Negation(x) => "-"@ + operand_text(*x),
        MathExpression::Floor(x) => "floor("@ + operand_text(*x) + ")"@,
        MathExpression::Ceil(x) => "ceil("@ + operand_text(*x) + ")"@,
        MathExpression::Abs(x) => "|"@ + expr_text(*x) + "|"@,
        MathExpression::Sqrt(x) => "sqrt("@ + operand_text(*x) + ")"@,
        MathExpression::BinOperation { left, op, right } => operand_text(*left) + " "@ + op_text(op) + " "@ + operand_text(
            *right,
        ),
    }
}

/// The symbol written for a comparison.
pub open spec fn comparison_symbol(c: Comparison<ParsedArgType>) -> Seq<char> {
    match c {
        Comparison::Greater(..) => ">"@,
        Comparison::GreaterEqual(..) => ">="@,
        Comparison::Less(..) => "<"@,
        Comparison::LessEqual(..) => "<="@,
        Comparison::Equal(..) => "="@,
        Comparison::NotEqual(..) => "!="@,
    }
}

/// The text of a comparison: its two sides around its symbol.
pub open spec fn comparison_text(c: Comparison<ParsedArgType>) -> Seq<char> {
    let (l, r) = crate::expr::comparison_sides(c);
    expr_text(l) + " "@ + comparison_symbol(c) + " "@ + expr_text(r)
}

/// A condition as an operand: a comparison as it is, anything else between
/// brackets.
pub open spec fn cond_operand_text(c: Condition<ParsedArgType>) -> Seq<char>
    decreases c, 1nat,
{
    if c is Comparison {
        cond_text(c)
    } else {
        "("@ + cond_text(c) + ")"@
    }
}

/// The text of a condition.
pub open spec fn cond_text(c: Condition<ParsedArgType>) -> Seq<char>
    decreases c, 0nat,
{
    match c {
        Condition::Comparison(x) => comparison_text(x),
        Condition::Or(l, r) => cond_operand_text(*l) + " or "@ + cond_operand_text(*r),
        Condition::And(l, r) => cond_operand_text(*l) + " and "@ + cond_operand_text(*r),
        Condition::Not(x) => "not "@ + cond_operand_text(*x),
    }
}

fn write_op(op: ArithmOp, out: &mut Vec<char>)
    ensures
        final(out)@ == old(out)@ + op_text(op),
{
    match op {
        ArithmOp::Add => push_str(out, "+"),
        ArithmOp::Subtract => push_str(out, "-"),
        ArithmOp::Power => push_str(out, "**"),
        ArithmOp::Multiply => push_str(out, "*"),
        ArithmOp::Divide => push_str(out, "/"),
        ArithmOp::Modulo => push_str(out, "%"),
    }
}

fn write_arg(a: &ParsedArgType, out: &mut Vec<char>)
    ensures
        final(out)@ == old(out)@ + arg_text(*a),
    decreases a, 0nat,
{
    match a {
        ParsedArgType::PrimString(v) => push_str(out, v.as_str()),
        ParsedArgType::PrimNumeric(n) => {
            let t = n.text();
            push_str(out, t.as_str());
        },
        ParsedArgType::Dataset => push_str(out, "G"),
        ParsedArgType::Function(f) => {
            let ghost o = out@;
            push_str(out, f.name.as_str());
            push_str(out, "(");
            write_expr(&f.first_arg, out);
            write_args_tail(&f.other_args, out);
            push_str(out, ")");
            assert(out@ =~= o + arg_text(*a));
        },
    }
}

fn write_args_tail(l: &ArgList, out: &mut Vec<char>)
    ensures
        final(out)@ == old(out)@ + args_tail_text(*l),
    decreases l, 0nat,
{
    match l {
        ArgList::End => {
            assert(out@ =~= out@ + args_tail_text(*l));
        },
        ArgList::Next(e, rest) => {
            let ghost o = out@;
            push_str(out, ",");
            write_expr(e, out);
            write_args_tail(rest, out);
            assert(out@ =~= o + args_tail_text(*l));
        },
    }
}

fn write_operand(e: &MathExpression<ParsedArgType>, out: &mut Vec<char>)
    ensures
        final(out)@ == old(out)@ + operand_text(*e),
    decreases e, 1nat,
{
    let ghost o = out@;
    if e.is_primitif() {
        write_expr(e, out);
    } else {
        push_str(out, "(");
        write_expr(e, out);
        push_str(out, ")");
        assert(out@ =~= o + operand_text(*e));
    }
}

fn write_expr(e: &MathExpression<ParsedArgType>, out: &mut Vec<char>)
    ensures
        final(out)@ == old(out)@ + expr_text(*e),
    decreases e, 0nat,
{
    let ghost o = out@;
    match e {
        MathExpression::Primitif(p) => write_arg(p, out),
        MathExpression::Negation(x) => {
            push_str(out, "-");
            write_operand(x, out);
        },
        MathExpression::Floor(x) => {
            push_str(out, "floor(");
            write_operand(x, out);
            push_str(out, ")");
        },
        MathExpression::Ceil(x) => {
            push_str(out, "ceil(");
            write_operand(x, out);
            push_str(out, ")");
        },
        MathExpression::Abs(x) => {
            push_str(out, "|");
            write_expr(x, out);
            push_str(out, "|");
        },
        MathExpression::Sqrt(x) => {
            push_str(out, "sqrt(");
            write_operand(x, out);
            push_str(out, ")");
        },
        MathExpression::BinOperation { left, op, right } => {
            write_operand(left, out);
            push_str(out, " ");
            write_op(*op, out);
            push_str(out, " ");
            write_operand(right, out);
        },
    }
    assert(out@ =~= o + expr_text(*e));
}

fn write_comparison(c: &Comparison<ParsedArgType>, out: &mut Vec<char>)
    ensures
        final(out)@ == old(out)@ + comparison_text(*c),
{
    let ghost o = out@;
    let (l, r) = c.get_left_right_expr();
    write_expr(l, out);
    push_str(out, " ");
    match c {
        Comparison::Greater(..) => push_str(out, ">"),
        Comparison::GreaterEqual(..) => push_str(out, ">="),
        Comparison::Less(..) => push_str(out, "<"),
        Comparison::LessEqual(..) => push_str(out, "<="),
        Comparison::Equal(..) => push_str(out, "="),
        Comparison::NotEqual(..) => push_str(out, "!="),
    }
    push_str(out, " ");
    write_expr(r, out);
    assert(out@ =~= o + comparison_text(*c));
}

fn write_cond_operand(c: &Condition<ParsedArgType>, out: &mut Vec<char>)
    ensures
        final(out)@ == old(out)@ + cond_operand_text(*c),
    decreases c, 1nat,
{
    let ghost o = out@;
    if c.is_condition() {
        write_cond(c, out);
    } else {
        push_str(out, "(");
        write_cond(c, out);
        push_str(out, ")");
        assert(out@ =~= o + cond_operand_text(*c));
    }
}

fn write_cond(c: &Condition<ParsedArgType>, out: &mut Vec<char>)
    ensures
        final(out)@ == old(out)@ + cond_text(*c),
    decreases c, 0nat,
{
    let ghost o = out@;
    match c {
        Condition::Comparison(x) => write_comparison(x, out),
        Condition::Or(l, r) => {
            write_cond_operand(l, out);
            push_str(out, " or ");
            write_cond_operand(r, out);
        },
        Condition::And(l, r) => {
            write_cond_operand(l, out);
            push_str(out, " and ");
            write_cond_operand(r, out);
        },
        Condition::Not(x) => {
            push_str(out, "not ");
            write_cond_operand(x, out);
        },
    }
    assert(out@ =~= o + cond_text(*c));
}

impl ArithmOp {
    /// The symbol of the operator.
    pub fn to_string(&self) -> (r: String)
        ensures
            r@ == op_text(*self),
    {
        let mut out: Vec<char> = Vec::new();
        write_op(*self, &mut out);
        string_of(&out)
    }
}

impl ParsedArgType {
    /// The text of the value, as [`arg_text`] writes it.
    pub fn to_string(&self) -> (r: String)
        ensures
            r@ == arg_text(*self),
    {
        let mut out: Vec<char> = Vec::new();
        write_arg(self, &mut out);
        string_of(&out)
    }
}

impl MathExpression<ParsedArgType> {
    /// The text of the expression, as [`expr_text`] writes it.
    pub fn to_string(&self) -> (r: String)
        ensures
            r@ == expr_text(*self),
    {
        let mut out: Vec<char> = Vec::new();
        write_expr(self, &mut out);
        string_of(&out)
    }
}

impl Comparison<ParsedArgType> {
    /// The text of the comparison, as [`comparison_text`] writes it.
    pub fn to_string(&self) -> (r: String)
        ensures
            r@ == comparison_text(*self),
    {
        let mut out: Vec<char> = Vec::new();
        write_comparison(self, &mut out);
        string_of(&out)
    }
}

impl Condition<ParsedArgType> {
    /// The text of the condition, as [`cond_text`] writes it.
    pub fn to_string(&self) -> (r: String)
        ensures
            r@ == cond_text(*self),
    {
        let mut out: Vec<char> = Vec::new();
        write_cond(self, &mut out);
        string_of(&out)
    }
}

} // verus!
