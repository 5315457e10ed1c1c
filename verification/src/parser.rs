//! Reads conditions, queries and arithmetic expressions written as text.
//!
//! The grammar, whitespace being allowed between any two tokens:
//!
//! ```text
//! query      := condition [ "->" query ]
//! condition  := comparison [ binop condition ]          (right to left, no precedence)
//! binop      := "and" | "or" | "xor" | "==>" | "<==>"
//! comparison := sum compop sum
//!             | ("not" | "!") "(" condition ")"         (negation)
//!             | ("not" | "!") identifier                (identifier = 0)
//!             | "(" condition ")"
//!             | identifier                              (identifier = 1)
//! compop     := ">=" | "<=" | "!=" | "==" | "=" | ">" | "<"
//! sum        := product { ("+" | "-") product }         (left to right)
//! product    := power { ("*" | "/" | "//" | "%") power } (left to right, a // b = floor(a / b))
//! power      := unary [ "**" power ]                    (right to left)
//! unary      := "-" unary | ("abs" | "floor" | "ceil" | "sqrt") unary | primary
//! primary    := "(" sum ")" | number | '"' text '"' | identifier "(" sum { "," sum } ")"
//!             | "G" | identifier
//! ```
//!
//! Words are read without regard to case. An identifier alone names the
//! invariant `identifier(G)`; `G` alone is the graph itself. Each choice is
//! tried in the order written, the first that succeeds being kept.
use vstd::prelude::*;
use crate::expr::{ArgList, ArithmOp, Comparison, Condition, MathExpression, ParsedArgType, ParsedFunction, QueryStatement};
use crate::numeric::{Numeric, canonical_number, lower_char, same_word_ci};
use crate::text::{chars_of, is_digit, string_of, push_str, push_chars, push_repeat, repeat_char};
use crate::conjecture::{ClassSelectionError, class_error_text};
use crate::name_check::is_ascii_letter;

verus! {

// ______________________________ the parsed values, strings taken by their characters

/// A primitive value of a parsed query, its strings taken by their characters.
pub ghost enum ArgView {
    Text(Seq<char>),
    Number(Seq<char>),
    Dataset,
    Call(Seq<char>, Box<MathExpression<ArgView>>, Box<ArgListView>),
}

/// The arguments of a call after the first one.
pub ghost enum ArgListView {
    End,
    Next(Box<MathExpression<ArgView>>, Box<ArgListView>),
}

/// A parsed query, its strings taken by their characters.
pub ghost enum QueryView {
    Cond(Condition<ArgView>),
    IfThen(Condition<ArgView>, Box<QueryView>),
}

pub open spec fn arg_view(a: ParsedArgType) -> ArgView
    decreases a, 0nat,
{
    match a {
        ParsedArgType::PrimString(s) => ArgView::Text(s@),
        ParsedArgType::PrimNumeric(n) => ArgView::Number(n@),
        ParsedArgType::Dataset => ArgView::Dataset,
        ParsedArgType::Function(f) => ArgView::Call(
            f.name@,
            Box::new(expr_view(*f.first_arg)),
            Box::new(list_view(f.other_args)),
        ),
    }
}

pub open spec fn list_view(l: ArgList) -> ArgListView
    decreases l, 0nat,
{
    match l {
        ArgList::End => ArgListView::End,
        ArgList::Next(e, rest) => ArgListView::Next(Box::new(expr_view(*e)), Box::new(list_view(*rest))),
    }
}

pub open spec fn expr_view(e: MathExpression<ParsedArgType>) -> MathExpression<ArgView>
    decreases e, 0nat,
{
    match e {
        MathExpression::Primitif(p) => MathExpression::Primitif(arg_view(p)),
        MathExpression::Negation(x) => MathExpression::Negation(Box::new(expr_view(*x))),
        MathExpression::Floor(x) => MathExpression::Floor(Box::new(expr_view(*x))),
        MathExpression::Ceil(x) => MathExpression::Ceil(Box::new(expr_view(*x))),
        MathExpression::Abs(x) => MathExpression::Abs(Box::new(expr_view(*x))),
        MathExpression::Sqrt(x) => MathExpression::Sqrt(Box::new(expr_view(*x))),
        MathExpression::BinOperation { left, op, right } => MathExpression::BinOperation {
            left: Box::new(expr_view(*left)),
            op,
            right: Box::new(expr_view(*right)),
        },
    }
}

pub open spec fn comparison_view(c: Comparison<ParsedArgType>) -> Comparison<ArgView> {
    match c {
        Comparison::Greater(a, b) => Comparison::Greater(expr_view(a), expr_view(b)),
        Comparison::GreaterEqual(a, b, e) => Comparison::GreaterEqual(expr_view(a), expr_view(b), e),
        Comparison::Less(a, b) => Comparison::Less(expr_view(a), expr_view(b)),
        Comparison::LessEqual(a, b, e) => Comparison::LessEqual(expr_view(a), expr_view(b), e),
        Comparison::Equal(a, b, e) => Comparison::Equal(expr_view(a), expr_view(b), e),
        Comparison::NotEqual(a, b, e) => Comparison::NotEqual(expr_view(a), expr_view(b), e),
    }
}

pub open spec fn condition_view(c: Condition<ParsedArgType>) -> Condition<ArgView>
    decreases c,
{
    match c {
        Condition::Comparison(x) => Condition::Comparison(comparison_view(x)),
        Condition::Or(a, b) => Condition::Or(Box::new(condition_view(*a)), Box::new(condition_view(*b))),
        Condition::And(a, b) => Condition::And(Box::new(condition_view(*a)), Box::new(condition_view(*b))),
        Condition::Not(a) => Condition::Not(Box::new(condition_view(*a))),
    }
}

pub open spec fn query_view(q: QueryStatement) -> QueryView
    decreases q,
{
    match q {
        QueryStatement::Condition(c) => QueryView::Cond(condition_view(c)),
        QueryStatement::IfThen(c, rest) => QueryView::IfThen(condition_view(c), Box::new(query_view(*rest))),
    }
}

/// The invariant `name`: the call `name(G)`.
pub open spec fn invariant_view(name: Seq<char>) -> ArgView {
    ArgView::Call(name, Box::new(MathExpression::Primitif(ArgView::Dataset)), Box::new(ArgListView::End))
}

// ______________________________ characters and words

pub open spec fn is_space(c: char) -> bool {
    c == ' ' || c == '\t' || c == '\n' || c == '\r'
}

pub open spec fn is_ident_start(c: char) -> bool {
    is_ascii_letter(c) || c == '_'
}

pub open spec fn is_ident_char(c: char) -> bool {
    is_ident_start(c) || is_digit(c)
}

/// `s[p]` is `c`.
pub open spec fn at(s: Seq<char>, p: nat, c: char) -> bool {
    p < s.len() && s[p as int] == c
}

/// The position of the first character at or after `p` that is no space.
pub open spec fn skip_ws(s: Seq<char>, p: nat) -> nat
    decreases s.len() - p,
{
    if p < s.len() && is_space(s[p as int]) {
        skip_ws(s, p + 1)
    } else {
        p
    }
}

/// The end of the identifier characters from `p` on.
pub open spec fn ident_end(s: Seq<char>, p: nat) -> nat
    decreases s.len() - p,
{
    if p < s.len() && is_ident_char(s[p as int]) {
        ident_end(s, p + 1)
    } else {
        p
    }
}

/// The end of the digits from `p` on.
pub open spec fn digits_end(s: Seq<char>, p: nat) -> nat
    decreases s.len() - p,
{
    if p < s.len() && is_digit(s[p as int]) {
        digits_end(s, p + 1)
    } else {
        p
    }
}

/// The end of the number `digits [. digits]` that starts at `p`.
pub open spec fn number_end(s: Seq<char>, p: nat) -> nat {
    let d = digits_end(s, p);
    if d + 1 < s.len() && s[d as int] == '.' && is_digit(s[d + 1int]) {
        digits_end(s, d + 1)
    } else {
        d
    }
}

/// The position of the first `"` at or after `p`, or the end of `s`.
pub open spec fn quote_end(s: Seq<char>, p: nat) -> nat
    decreases s.len() - p,
{
    if p < s.len() && s[p as int] != '"' {
        quote_end(s, p + 1)
    } else {
        p
    }
}

/// `t` without its leading spaces.
pub open spec fn trim_start(t: Seq<char>) -> Seq<char>
    decreases t.len(),
{
    if t.len() > 0 && is_space(t[0]) {
        trim_start(t.skip(1))
    } else {
        t
    }
}

/// `t` without its trailing spaces.
pub open spec fn trim_end(t: Seq<char>) -> Seq<char>
    decreases t.len(),
{
    if t.len() > 0 && is_space(t.last()) {
        trim_end(t.drop_last())
    } else {
        t
    }
}

/// `t` without its leading and trailing spaces.
pub open spec fn trim(t: Seq<char>) -> Seq<char> {
    trim_end(trim_start(t))
}

/// The word `w` (lowercase) is written at `p`, in any case, and no identifier
/// character follows it.
pub open spec fn word_at(s: Seq<char>, p: nat, w: Seq<char>) -> bool {
    &&& p + w.len() <= s.len()
    &&& same_word_ci(s.subrange(p as int, (p + w.len()) as int), w)
    &&& !(p + w.len() < s.len() && is_ident_char(s[(p + w.len()) as int]))
}

// ______________________________ operators

/// A comparison operator.
#[derive(Debug, Clone, Copy, PartialEq, Eq, Structural)]
pub enum CompOp {
    Greater,
    GreaterEqual,
    Less,
    LessEqual,
    Equal,
    NotEqual,
}

/// An operator between two conditions.
#[derive(Debug, Clone, Copy, PartialEq, Eq, Structural)]
pub enum BinOp {
    And,
    Or,
    Xor,
    Implication,
    Equivalence,
}

/// An operator of a product.
#[derive(Debug, Clone, Copy, PartialEq, Eq, Structural)]
pub enum MulOp {
    Multiply,
    Divide,
    FloorDivide,
    Modulo,
}

/// A function written before its argument.
#[derive(Debug, Clone, Copy, PartialEq, Eq, Structural)]
pub enum PrefixOp {
    Abs,
    Floor,
    Ceil,
    Sqrt,
}

pub open spec fn comp_op_at(s: Seq<char>, p: nat) -> Option<(CompOp, nat)> {
    if at(s, p, '>') && at(s, p + 1, '=') {
        Some((CompOp::GreaterEqual, p + 2))
    } else if at(s, p, '<') && at(s, p + 1, '=') {
        Some((CompOp::LessEqual, p + 2))
    } else if at(s, p, '!') && at(s, p + 1, '=') {
        Some((CompOp::NotEqual, p + 2))
    } else if at(s, p, '=') && at(s, p + 1, '=') {
        Some((CompOp::Equal, p + 2))
    } else if at(s, p, '=') {
        Some((CompOp::Equal, p + 1))
    } else if at(s, p, '>') {
        Some((CompOp::Greater, p + 1))
    } else if at(s, p, '<') {
        Some((CompOp::Less, p + 1))
    } else {
        None
    }
}

pub open spec fn bin_op_at(s: Seq<char>, p: nat) -> Option<(BinOp, nat)> {
    if word_at(s, p, seq!['a', 'n', 'd']) {
        Some((BinOp::And, p + 3))
    } else if word_at(s, p, seq!['o', 'r']) {
        Some((BinOp::Or, p + 2))
    } else if word_at(s, p, seq!['x', 'o', 'r']) {
        Some((BinOp::Xor, p + 3))
    } else if at(s, p, '<') && at(s, p + 1, '=') && at(s, p + 2, '=') && at(s, p + 3, '>') {
        Some((BinOp::Equivalence, p + 4))
    } else if at(s, p, '=') && at(s, p + 1, '=') && at(s, p + 2, '>') {
        Some((BinOp::Implication, p + 3))
    } else {
        None
    }
}

pub open spec fn mul_op_at(s: Seq<char>, p: nat) -> Option<(MulOp, nat)> {
    if at(s, p, '*') && at(s, p + 1, '*') {
        None
    } else if at(s, p, '/') && at(s, p + 1, '/') {
        Some((MulOp::FloorDivide, p + 2))
    } else if at(s, p, '*') {
        Some((MulOp::Multiply, p + 1))
    } else if at(s, p, '/') {
        Some((MulOp::Divide, p + 1))
    } else if at(s, p, '%') {
        Some((MulOp::Modulo, p + 1))
    } else {
        None
    }
}

pub open spec fn add_op_at(s: Seq<char>, p: nat) -> Option<(ArithmOp, nat)> {
    if at(s, p, '+') {
        Some((ArithmOp::Add, p + 1))
    } else if at(s, p, '-') {
        Some((ArithmOp::Subtract, p + 1))
    } else {
        None
    }
}

pub open spec fn prefix_at(s: Seq<char>, p: nat) -> Option<(PrefixOp, nat)> {
    if word_at(s, p, seq!['a', 'b', 's']) {
        Some((PrefixOp::Abs, p + 3))
    } else if word_at(s, p, seq!['f', 'l', 'o', 'o', 'r']) {
        Some((PrefixOp::Floor, p + 5))
    } else if word_at(s, p, seq!['c', 'e', 'i', 'l']) {
        Some((PrefixOp::Ceil, p + 4))
    } else if word_at(s, p, seq!['s', 'q', 'r', 't']) {
        Some((PrefixOp::Sqrt, p + 4))
    } else {
        None
    }
}

pub open spec fn apply_prefix<P>(op: PrefixOp, e: MathExpression<P>) -> MathExpression<P> {
    match op {
        PrefixOp::Abs => MathExpression::Abs(Box::new(e)),
        PrefixOp::Floor => MathExpression::Floor(Box::new(e)),
        PrefixOp::Ceil => MathExpression::Ceil(Box::new(e)),
        PrefixOp::Sqrt => MathExpression::Sqrt(Box::new(e)),
    }
}

pub open spec fn bin<P>(l: MathExpression<P>, op: ArithmOp, r: MathExpression<P>) -> MathExpression<P> {
    MathExpression::BinOperation { left: Box::new(l), op, right: Box::new(r) }
}

/// `l op r`, where `l // r` is the floor of `l / r`.
pub open spec fn apply_mul<P>(l: MathExpression<P>, op: MulOp, r: MathExpression<P>) -> MathExpression<P> {
    match op {
        MulOp::Multiply => bin(l, ArithmOp::Multiply, r),
        MulOp::Divide => bin(l, ArithmOp::Divide, r),
        MulOp::FloorDivide => MathExpression::Floor(Box::new(bin(l, ArithmOp::Divide, r))),
        MulOp::Modulo => bin(l, ArithmOp::Modulo, r),
    }
}

/// The comparison `l op r`, where the equalities and large inequalities take the precision `eps`.
pub open spec fn make_comparison<P>(op: CompOp, l: MathExpression<P>, r: MathExpression<P>, eps: Option<Numeric>) -> Comparison<P> {
    match op {
        CompOp::Greater => Comparison::Greater(l, r),
        CompOp::GreaterEqual => Comparison::GreaterEqual(l, r, eps),
        CompOp::Less => Comparison::Less(l, r),
        CompOp::LessEqual => Comparison::LessEqual(l, r, eps),
        CompOp::Equal => Comparison::Equal(l, r, eps),
        CompOp::NotEqual => Comparison::NotEqual(l, r, eps),
    }
}

/// `a op b`: `a xor b` is `(a or b) and not(a and b)`, `a ==> b` is
/// `not(a) or b`, and `a <==> b` is `(a ==> b) and (b ==> a)`.
pub open spec fn combine<P>(op: BinOp, a: Condition<P>, b: Condition<P>) -> Condition<P> {
    match op {
        BinOp::And => Condition::spec_and(a, b),
        BinOp::Or => Condition::spec_or(a, b),
        BinOp::Xor => Condition::spec_and(Condition::spec_or(a, b), Condition::spec_not(Condition::spec_and(a, b))),
        BinOp::Implication => Condition::spec_implication(a, b),
        BinOp::Equivalence => Condition::spec_and(Condition::spec_implication(a, b), Condition::spec_implication(b, a)),
    }
}

/// Whether the condition `c` holds, given whether each comparison holds.
pub open spec fn holds<P>(c: Condition<P>, truth: spec_fn(Comparison<P>) -> bool) -> bool
    decreases c,
{
    match c {
        Condition::Comparison(x) => truth(x),
        Condition::Or(a, b) => holds(*a, truth) || holds(*b, truth),
        Condition::And(a, b) => holds(*a, truth) && holds(*b, truth),
        Condition::Not(a) => !holds(*a, truth),
    }
}

/// The connectives of a condition mean what logic says, whatever the
/// comparisons: `a and b` holds when both hold, `a or b` when one does,
/// `a xor b` when exactly one does, `a ==> b` when `a` does not hold or `b`
/// does, and `a <==> b` when both hold or neither does. An implication is
/// the negation of its left operand or its right operand.
pub proof fn law_combine<P>(op: BinOp, a: Condition<P>, b: Condition<P>, truth: spec_fn(Comparison<P>) -> bool)
    ensures
        holds(combine(op, a, b), truth) == match op {
            BinOp::And => holds(a, truth) && holds(b, truth),
            BinOp::Or => holds(a, truth) || holds(b, truth),
            BinOp::Xor => holds(a, truth) != holds(b, truth),
            BinOp::Implication => !holds(a, truth) || holds(b, truth),
            BinOp::Equivalence => holds(a, truth) == holds(b, truth),
        },
        combine(BinOp::Implication, a, b) == Condition::Or(Box::new(Condition::Not(Box::new(a))), Box::new(b)),
{
    reveal_with_fuel(holds, 4);
}

/// `name = v`, with no precision.
pub open spec fn ident_comparison(name: Seq<char>, v: Seq<char>) -> Condition<ArgView> {
    Condition::Comparison(
        Comparison::Equal(
            MathExpression::Primitif(invariant_view(name)),
            MathExpression::Primitif(ArgView::Number(v)),
            None,
        ),
    )
}

// ______________________________ the grammar, read from position `p`

/// A position that a sub-rule may end at, after `p`.
pub open spec fn after(s: Seq<char>, p: nat, q: nat) -> bool {
    p < q && q <= s.len()
}

pub open spec fn p_primary(s: Seq<char>, p: nat) -> Option<(MathExpression<ArgView>, nat)>
    decreases s.len() - p, 0nat,
{
    let q = skip_ws(s, p);
    if p > s.len() || q < p || q >= s.len() {
        None
    } else if s[q as int] == '(' {
        match p_sum(s, q + 1) {
            Some((e, r)) => if !after(s, q, r) {
                None
            } else {
                let r2 = skip_ws(s, r);
                if at(s, r2, ')') {
                    Some((e, r2 + 1))
                } else {
                    None
                }
            },
            None => None,
        }
    } else if is_digit(s[q as int]) {
        let e = number_end(s, q);
        match canonical_number(s.subrange(q as int, e as int)) {
            Some(t) => Some((MathExpression::Primitif(ArgView::Number(t)), e)),
            None => None,
        }
    } else if s[q as int] == '"' {
        let e = quote_end(s, q + 1);
        if e < s.len() {
            Some((MathExpression::Primitif(ArgView::Text(trim(s.subrange(q + 1int, e as int)))), e + 1))
        } else {
            None
        }
    } else if is_ident_start(s[q as int]) {
        let e = ident_end(s, q);
        let name = s.subrange(q as int, e as int);
        let r = skip_ws(s, e);
        let plain = if name == seq!['G'] { ArgView::Dataset } else { invariant_view(name) };
        if e <= q || r < e || !at(s, r, '(') {
            Some((MathExpression::Primitif(plain), e))
        } else {
            match p_call_args(s, r + 1) {
                Some((first, rest, t)) => Some((MathExpression::Primitif(ArgView::Call(name, Box::new(first), Box::new(rest))), t)),
                None => Some((MathExpression::Primitif(plain), e)),
            }
        }
    } else {
        None
    }
}

/// The arguments of a call, from the first one to the closing `)`.
pub open spec fn p_call_args(s: Seq<char>, p: nat) -> Option<(MathExpression<ArgView>, ArgListView, nat)>
    decreases s.len() - p, 7nat,
{
    if p > s.len() {
        None
    } else {
        match p_sum(s, p) {
            Some((first, q)) => if !after(s, p, q) {
                None
            } else {
                match p_args_rest(s, q) {
                    Some((l, t)) => Some((first, l, t)),
                    None => None,
                }
            },
            None => None,
        }
    }
}

pub open spec fn p_args_rest(s: Seq<char>, p: nat) -> Option<(ArgListView, nat)>
    decreases s.len() - p, 0nat,
{
    let r = skip_ws(s, p);
    if p > s.len() || r < p || r > s.len() {
        None
    } else if at(s, r, ')') {
        Some((ArgListView::End, r + 1))
    } else if at(s, r, ',') {
        match p_sum(s, r + 1) {
            Some((e, q)) => if !after(s, r + 1, q) {
                None
            } else {
                match p_args_rest(s, q) {
                    Some((l, t)) => Some((ArgListView::Next(Box::new(e), Box::new(l)), t)),
                    None => None,
                }
            },
            None => None,
        }
    } else {
        None
    }
}

pub open spec fn p_unary(s: Seq<char>, p: nat) -> Option<(MathExpression<ArgView>, nat)>
    decreases s.len() - p, 1nat,
{
    let q = skip_ws(s, p);
    if p > s.len() || q < p || q > s.len() {
        None
    } else if at(s, q, '-') {
        match p_unary(s, q + 1) {
            Some((e, t)) => Some((MathExpression::Negation(Box::new(e)), t)),
            None => None,
        }
    } else {
        match prefix_at(s, q) {
            Some((op, r)) => if !after(s, q, r) {
                None
            } else {
                match p_unary(s, r) {
                    Some((e, t)) => Some((apply_prefix(op, e), t)),
                    None => p_primary(s, p),
                }
            },
            None => p_primary(s, p),
        }
    }
}

pub open spec fn p_power(s: Seq<char>, p: nat) -> Option<(MathExpression<ArgView>, nat)>
    decreases s.len() - p, 2nat,
{
    if p > s.len() {
        None
    } else {
        match p_unary(s, p) {
            Some((b, q)) => if !after(s, p, q) {
                None
            } else {
                let r = skip_ws(s, q);
                if r >= q && at(s, r, '*') && at(s, r + 1, '*') {
                    match p_power(s, r + 2) {
                        Some((e, t)) => Some((bin(b, ArithmOp::Power, e), t)),
                        None => Some((b, q)),
                    }
                } else {
                    Some((b, q))
                }
            },
            None => None,
        }
    }
}

pub open spec fn p_product_rest(s: Seq<char>, p: nat, acc: MathExpression<ArgView>) -> Option<(MathExpression<ArgView>, nat)>
    decreases s.len() - p, 3nat,
{
    let r = skip_ws(s, p);
    if p > s.len() || r < p || r > s.len() {
        None
    } else {
        match mul_op_at(s, r) {
            Some((op, r2)) => if !after(s, r, r2) {
                None
            } else {
                match p_power(s, r2) {
                    Some((b, t)) => if !after(s, p, t) {
                        None
                    } else {
                        p_product_rest(s, t, apply_mul(acc, op, b))
                    },
                    None => Some((acc, p)),
                }
            },
            None => Some((acc, p)),
        }
    }
}

pub open spec fn p_product(s: Seq<char>, p: nat) -> Option<(MathExpression<ArgView>, nat)>
    decreases s.len() - p, 4nat,
{
    if p > s.len() {
        None
    } else {
        match p_power(s, p) {
            Some((a, q)) => if !after(s, p, q) {
                None
            } else {
                p_product_rest(s, q, a)
            },
            None => None,
        }
    }
}

pub open spec fn p_sum_rest(s: Seq<char>, p: nat, acc: MathExpression<ArgView>) -> Option<(MathExpression<ArgView>, nat)>
    decreases s.len() - p, 5nat,
{
    let r = skip_ws(s, p);
    if p > s.len() || r < p || r > s.len() {
        None
    } else {
        match add_op_at(s, r) {
            Some((op, r2)) => if !after(s, r, r2) {
                None
            } else {
                match p_product(s, r2) {
                    Some((b, t)) => if !after(s, p, t) {
                        None
                    } else {
                        p_sum_rest(s, t, bin(acc, op, b))
                    },
                    None => Some((acc, p)),
                }
            },
            None => Some((acc, p)),
        }
    }
}

pub open spec fn p_sum(s: Seq<char>, p: nat) -> Option<(MathExpression<ArgView>, nat)>
    decreases s.len() - p, 6nat,
{
    if p > s.len() {
        None
    } else {
        match p_product(s, p) {
            Some((a, q)) => if !after(s, p, q) {
                None
            } else {
                p_sum_rest(s, q, a)
            },
            None => None,
        }
    }
}

/// `not(condition)`, `!(condition)`, `not identifier` or `!identifier`, read from `q`.
pub open spec fn p_negated(s: Seq<char>, q: nat, eps: Option<Numeric>) -> Option<(Condition<ArgView>, nat)>
    decreases s.len() - q, 8nat,
{
    let a: nat = if word_at(s, q, seq!['n', 'o', 't']) {
        q + 3
    } else if at(s, q, '!') {
        q + 1
    } else {
        0
    };
    let r = skip_ws(s, a);
    if q > s.len() || a <= q || a > s.len() || r < a || r > s.len() {
        None
    } else if at(s, r, '(') {
        match p_condition(s, r + 1, eps) {
            Some((c, t)) => if !after(s, r + 1, t) {
                None
            } else {
                let t2 = skip_ws(s, t);
                if at(s, t2, ')') {
                    Some((Condition::Not(Box::new(c)), t2 + 1))
                } else {
                    None
                }
            },
            None => None,
        }
    } else if r < s.len() && is_ident_start(s[r as int]) {
        let e = ident_end(s, r);
        Some((ident_comparison(s.subrange(r as int, e as int), seq!['0']), e))
    } else {
        None
    }
}

/// `sum compop sum`, read from `p`.
pub open spec fn p_compared(s: Seq<char>, p: nat, eps: Option<Numeric>) -> Option<(Condition<ArgView>, nat)>
    decreases s.len() - p, 8nat,
{
    if p > s.len() {
        None
    } else {
        match p_sum(s, p) {
            Some((l, q)) => if !after(s, p, q) {
                None
            } else {
                let r = skip_ws(s, q);
                match comp_op_at(s, r) {
                    Some((op, r2)) => if r < q || !after(s, r, r2) {
                        None
                    } else {
                        match p_sum(s, r2) {
                            Some((rt, t)) => Some((Condition::Comparison(make_comparison(op, l, rt, eps)), t)),
                            None => None,
                        }
                    },
                    None => None,
                }
            },
            None => None,
        }
    }
}

pub open spec fn p_comparison(s: Seq<char>, p: nat, eps: Option<Numeric>) -> Option<(Condition<ArgView>, nat)>
    decreases s.len() - p, 9nat,
{
    let q = skip_ws(s, p);
    if p > s.len() || q < p || q > s.len() {
        None
    } else if p_compared(s, p, eps) is Some {
        p_compared(s, p, eps)
    } else if p_negated(s, q, eps) is Some {
        p_negated(s, q, eps)
    } else if at(s, q, '(') {
        match p_condition(s, q + 1, eps) {
            Some((c, t)) => if !after(s, q + 1, t) {
                None
            } else {
                let t2 = skip_ws(s, t);
                if at(s, t2, ')') {
                    Some((c, t2 + 1))
                } else {
                    None
                }
            },
            None => None,
        }
    } else if q < s.len() && is_ident_start(s[q as int]) {
        let e = ident_end(s, q);
        Some((ident_comparison(s.subrange(q as int, e as int), seq!['1']), e))
    } else {
        None
    }
}

pub open spec fn p_condition(s: Seq<char>, p: nat, eps: Option<Numeric>) -> Option<(Condition<ArgView>, nat)>
    decreases s.len() - p, 10nat,
{
    if p > s.len() {
        None
    } else {
        match p_comparison(s, p, eps) {
            Some((c, q)) => if !after(s, p, q) {
                None
            } else {
                let r = skip_ws(s, q);
                match bin_op_at(s, r) {
                    Some((op, r2)) => if r < q || !after(s, r, r2) {
                        None
                    } else {
                        match p_condition(s, r2, eps) {
                            Some((c2, t)) => Some((combine(op, c, c2), t)),
                            None => Some((c, q)),
                        }
                    },
                    None => Some((c, q)),
                }
            },
            None => None,
        }
    }
}

pub open spec fn p_query(s: Seq<char>, p: nat, eps: Option<Numeric>) -> Option<(QueryView, nat)>
    decreases s.len() - p, 11nat,
{
    if p > s.len() {
        None
    } else {
        match p_condition(s, p, eps) {
            Some((c, q)) => if !after(s, p, q) {
                None
            } else {
                let r = skip_ws(s, q);
                if r >= q && at(s, r, '-') && at(s, r + 1, '>') {
                    match p_query(s, r + 2, eps) {
                        Some((rest, t)) => Some((QueryView::IfThen(c, Box::new(rest)), t)),
                        None => Some((QueryView::Cond(c), q)),
                    }
                } else {
                    Some((QueryView::Cond(c), q))
                }
            },
            None => None,
        }
    }
}

/// The outcome of reading the whole of `s` with a rule whose result from the
/// start is `res`: its value, or the column (from 1) where reading stopped,
/// with whether a first part of `s` was read.
pub open spec fn outcome<T>(s: Seq<char>, res: Option<(T, nat)>) -> Result<T, (nat, bool)> {
    match res {
        Some((v, q)) => if skip_ws(s, q) == s.len() {
            Ok(v)
        } else {
            Err((skip_ws(s, q) + 1, true))
        },
        None => Err((skip_ws(s, 0) + 1, false)),
    }
}


// ______________________________ reading characters

fn is_space_x(c: char) -> (r: bool)
    ensures
        r == is_space(c),
{
    c == ' ' || c == '\t' || c == '\n' || c == '\r'
}

fn is_digit_x(c: char) -> (r: bool)
    ensures
        r == is_digit(c),
{
    '0' <= c && c <= '9'
}

fn is_ident_start_x(c: char) -> (r: bool)
    ensures
        r == is_ident_start(c),
{
    ('a' <= c && c <= 'z') || ('A' <= c && c <= 'Z') || c == '_'
}

fn is_ident_char_x(c: char) -> (r: bool)
    ensures
        r == is_ident_char(c),
{
    is_ident_start_x(c) || is_digit_x(c)
}

fn at_x(s: &Vec<char>, p: usize, c: char) -> (r: bool)
    ensures
        r == at(s@, p as nat, c),
        r ==> p < s.len(),
{
    p < s.len() && s[p] == c
}

fn skip_ws_x(s: &Vec<char>, p: usize) -> (r: usize)
    requires
        p <= s.len(),
    ensures
        r == skip_ws(s@, p as nat),
        p <= r <= s@.len(),
        r < s@.len() ==> !is_space(s@[r as int]),
{
    let mut i = p;
    while i < s.len() && is_space_x(s[i])
        invariant
            p <= i <= s@.len(),
            skip_ws(s@, i as nat) == skip_ws(s@, p as nat),
        decreases s.len() - i,
    {
        i += 1;
    }
    i
}

fn ident_end_x(s: &Vec<char>, p: usize) -> (r: usize)
    requires
        p <= s.len(),
    ensures
        r == ident_end(s@, p as nat),
        p <= r <= s@.len(),
        p < s@.len() && is_ident_char(s@[p as int]) ==> p < r,
{
    let mut i = p;
    while i < s.len() && is_ident_char_x(s[i])
        invariant
            p <= i <= s@.len(),
            ident_end(s@, i as nat) == ident_end(s@, p as nat),
        decreases s.len() - i,
    {
        i += 1;
    }
    i
}

fn digits_end_x(s: &Vec<char>, p: usize) -> (r: usize)
    requires
        p <= s.len(),
    ensures
        r == digits_end(s@, p as nat),
        p <= r <= s@.len(),
        p < s@.len() && is_digit(s@[p as int]) ==> p < r,
{
    let mut i = p;
    while i < s.len() && is_digit_x(s[i])
        invariant
            p <= i <= s@.len(),
            digits_end(s@, i as nat) == digits_end(s@, p as nat),
        decreases s.len() - i,
    {
        i += 1;
    }
    i
}

fn quote_end_x(s: &Vec<char>, p: usize) -> (r: usize)
    requires
        p <= s.len(),
    ensures
        r == quote_end(s@, p as nat),
        p <= r <= s@.len(),
{
    let mut i = p;
    while i < s.len() && s[i] != '"'
        invariant
            p <= i <= s@.len(),
            quote_end(s@, i as nat) == quote_end(s@, p as nat),
        decreases s.len() - i,
    {
        i += 1;
    }
    i
}

fn number_end_x(s: &Vec<char>, p: usize) -> (r: usize)
    requires
        p <= s.len(),
    ensures
        r == number_end(s@, p as nat),
        p <= r <= s@.len(),
{
    let d = digits_end_x(s, p);
    if d < s.len() && s[d] == '.' && d + 1 < s.len() && is_digit_x(s[d + 1]) {
        digits_end_x(s, d + 1)
    } else {
        d
    }
}

/// The characters of `s` from `a` to `b`.
fn slice_x(s: &Vec<char>, a: usize, b: usize) -> (r: Vec<char>)
    requires
        a <= b <= s@.len(),
    ensures
        r@ == s@.subrange(a as int, b as int),
{
    let mut out: Vec<char> = Vec::new();
    let mut i = a;
    while i < b
        invariant
            a <= i <= b <= s@.len(),
            out@ == s@.subrange(a as int, i as int),
        decreases b - i,
    {
        out.push(s[i]);
        i += 1;
        assert(out@ =~= s@.subrange(a as int, i as int));
    }
    out
}

proof fn lemma_trim_start(t: Seq<char>, i: int)
    requires
        0 <= i <= t.len(),
        forall|k: int| 0 <= k < i ==> is_space(#[trigger] t[k]),
    ensures
        trim_start(t) == trim_start(t.skip(i)),
    decreases i,
{
    if i > 0 {
        assert(t.skip(1).skip(i - 1) =~= t.skip(i));
        lemma_trim_start(t.skip(1), i - 1);
    } else {
        assert(t.skip(0) =~= t);
    }
}

proof fn lemma_trim_end(t: Seq<char>, j: int)
    requires
        0 <= j <= t.len(),
        forall|k: int| j <= k < t.len() ==> is_space(#[trigger] t[k]),
    ensures
        trim_end(t) == trim_end(t.take(j)),
    decreases t.len() - j,
{
    if j < t.len() {
        assert(t.drop_last().take(j) =~= t.take(j));
        lemma_trim_end(t.drop_last(), j);
    } else {
        assert(t.take(j) =~= t);
    }
}

/// The characters of `s` from `a` to `b`, without leading or trailing spaces.
fn trimmed_x(s: &Vec<char>, a: usize, b: usize) -> (r: Vec<char>)
    requires
        a <= b <= s@.len(),
    ensures
        r@ == trim(s@.subrange(a as int, b as int)),
{
    let ghost t = s@.subrange(a as int, b as int);
    let mut i = a;
    while i < b && is_space_x(s[i])
        invariant
            a <= i <= b <= s@.len(),
            t == s@.subrange(a as int, b as int),
            forall|k: int| 0 <= k < i - a ==> is_space(#[trigger] t[k]),
        decreases b - i,
    {
        i += 1;
    }
    let ghost t1 = t.skip(i - a);
    proof {
        lemma_trim_start(t, i - a);
        if i < b {
            assert(t1[0] == s@[i as int]);
        }
        assert(t1 =~= s@.subrange(i as int, b as int));
    }
    let mut j = b;
    while j > i && is_space_x(s[j - 1])
        invariant
            a <= i <= j <= b <= s@.len(),
            t1 == s@.subrange(i as int, b as int),
            forall|k: int| j - i <= k < t1.len() ==> is_space(#[trigger] t1[k]),
        decreases j - i,
    {
        j -= 1;
    }
    proof {
        lemma_trim_end(t1, j - i);
        assert(t1.take(j - i) =~= s@.subrange(i as int, j as int));
        let u = s@.subrange(i as int, j as int);
        if u.len() > 0 {
            assert(u.last() == s@[j - 1]);
        }
    }
    slice_x(s, i, j)
}

/// The word `w` (lowercase) is written at `p`, in any case, and no identifier character follows it.
fn word_at_x(s: &Vec<char>, p: usize, w: &Vec<char>) -> (r: bool)
    requires
        p <= s.len(),
        forall|i: int| 0 <= i < w@.len() ==> !('A' <= #[trigger] w@[i] && w@[i] <= 'Z'),
    ensures
        r == word_at(s@, p as nat, w@),
{
    if s.len() - p < w.len() {
        return false;
    }
    let ghost sub = s@.subrange(p as int, p + w@.len());
    let mut i: usize = 0;
    while i < w.len()
        invariant
            p + w@.len() <= s.len(),
            sub == s@.subrange(p as int, p + w@.len()),
            i <= w@.len(),
            forall|j: int| 0 <= j < i ==> lower_char(#[trigger] sub[j]) == w@[j],
        decreases w.len() - i,
    {
        let c = s[p + i];
        let l = if 'A' <= c && c <= 'Z' { ((c as u8) + 32) as char } else { c };
        assert(sub[i as int] == c);
        if l != w[i] {
            return false;
        }
        i += 1;
    }
    let e = p + w.len();
    !(e < s.len() && is_ident_char_x(s[e]))
}

fn word2(a: char, b: char) -> (r: Vec<char>)
    ensures
        r@ == seq![a, b],
{
    let mut v: Vec<char> = Vec::new();
    v.push(a);
    v.push(b);
    assert(v@ =~= seq![a, b]);
    v
}

fn word3(a: char, b: char, c: char) -> (r: Vec<char>)
    ensures
        r@ == seq![a, b, c],
{
    let mut v = word2(a, b);
    v.push(c);
    assert(v@ =~= seq![a, b, c]);
    v
}

fn word4(a: char, b: char, c: char, d: char) -> (r: Vec<char>)
    ensures
        r@ == seq![a, b, c, d],
{
    let mut v = word3(a, b, c);
    v.push(d);
    assert(v@ =~= seq![a, b, c, d]);
    v
}

fn word5(a: char, b: char, c: char, d: char, e: char) -> (r: Vec<char>)
    ensures
        r@ == seq![a, b, c, d, e],
{
    let mut v = word4(a, b, c, d);
    v.push(e);
    assert(v@ =~= seq![a, b, c, d, e]);
    v
}

// ______________________________ reading operators

fn comp_op_x(s: &Vec<char>, p: usize) -> (r: Option<(CompOp, usize)>)
    requires
        p <= s.len(),
    ensures
        match r {
            Some((o, q)) => comp_op_at(s@, p as nat) == Some((o, q as nat)),
            None => comp_op_at(s@, p as nat) is None,
        },
{
    if at_x(s, p, '>') && at_x(s, p + 1, '=') {
        Some((CompOp::GreaterEqual, p + 2))
    } else if at_x(s, p, '<') && at_x(s, p + 1, '=') {
        Some((CompOp::LessEqual, p + 2))
    } else if at_x(s, p, '!') && at_x(s, p + 1, '=') {
        Some((CompOp::NotEqual, p + 2))
    } else if at_x(s, p, '=') && at_x(s, p + 1, '=') {
        Some((CompOp::Equal, p + 2))
    } else if at_x(s, p, '=') {
        Some((CompOp::Equal, p + 1))
    } else if at_x(s, p, '>') {
        Some((CompOp::Greater, p + 1))
    } else if at_x(s, p, '<') {
        Some((CompOp::Less, p + 1))
    } else {
        None
    }
}

fn bin_op_x(s: &Vec<char>, p: usize) -> (r: Option<(BinOp, usize)>)
    requires
        p <= s.len(),
    ensures
        match r {
            Some((o, q)) => bin_op_at(s@, p as nat) == Some((o, q as nat)),
            None => bin_op_at(s@, p as nat) is None,
        },
{
    if word_at_x(s, p, &word3('a', 'n', 'd')) {
        Some((BinOp::And, p + 3))
    } else if word_at_x(s, p, &word2('o', 'r')) {
        Some((BinOp::Or, p + 2))
    } else if word_at_x(s, p, &word3('x', 'o', 'r')) {
        Some((BinOp::Xor, p + 3))
    } else if at_x(s, p, '<') && at_x(s, p + 1, '=') && at_x(s, p + 2, '=') && at_x(s, p + 3, '>') {
        Some((BinOp::Equivalence, p + 4))
    } else if at_x(s, p, '=') && at_x(s, p + 1, '=') && at_x(s, p + 2, '>') {
        Some((BinOp::Implication, p + 3))
    } else {
        None
    }
}

fn mul_op_x(s: &Vec<char>, p: usize) -> (r: Option<(MulOp, usize)>)
    requires
        p <= s.len(),
    ensures
        match r {
            Some((o, q)) => mul_op_at(s@, p as nat) == Some((o, q as nat)),
            None => mul_op_at(s@, p as nat) is None,
        },
{
    if at_x(s, p, '*') && at_x(s, p + 1, '*') {
        None
    } else if at_x(s, p, '/') && at_x(s, p + 1, '/') {
        Some((MulOp::FloorDivide, p + 2))
    } else if at_x(s, p, '*') {
        Some((MulOp::Multiply, p + 1))
    } else if at_x(s, p, '/') {
        Some((MulOp::Divide, p + 1))
    } else if at_x(s, p, '%') {
        Some((MulOp::Modulo, p + 1))
    } else {
        None
    }
}

fn add_op_x(s: &Vec<char>, p: usize) -> (r: Option<(ArithmOp, usize)>)
    requires
        p <= s.len(),
    ensures
        match r {
            Some((o, q)) => add_op_at(s@, p as nat) == Some((o, q as nat)),
            None => add_op_at(s@, p as nat) is None,
        },
{
    if at_x(s, p, '+') {
        Some((ArithmOp::Add, p + 1))
    } else if at_x(s, p, '-') {
        Some((ArithmOp::Subtract, p + 1))
    } else {
        None
    }
}

fn prefix_x(s: &Vec<char>, p: usize) -> (r: Option<(PrefixOp, usize)>)
    requires
        p <= s.len(),
    ensures
        match r {
            Some((o, q)) => prefix_at(s@, p as nat) == Some((o, q as nat)),
            None => prefix_at(s@, p as nat) is None,
        },
{
    if word_at_x(s, p, &word3('a', 'b', 's')) {
        Some((PrefixOp::Abs, p + 3))
    } else if word_at_x(s, p, &word5('f', 'l', 'o', 'o', 'r')) {
        Some((PrefixOp::Floor, p + 5))
    } else if word_at_x(s, p, &word4('c', 'e', 'i', 'l')) {
        Some((PrefixOp::Ceil, p + 4))
    } else if word_at_x(s, p, &word4('s', 'q', 'r', 't')) {
        Some((PrefixOp::Sqrt, p + 4))
    } else {
        None
    }
}


// ______________________________ reading the grammar

/// `r` is the value read by an exec rule from `p`, where `spec` is what the rule reads.
pub open spec fn expr_result(
    s: Seq<char>,
    p: nat,
    r: Option<(MathExpression<ParsedArgType>, usize)>,
    spec: Option<(MathExpression<ArgView>, nat)>,
    strict: bool,
) -> bool {
    match r {
        Some((e, q)) => spec == Some((expr_view(e), q as nat)) && (if strict { p < q } else { p <= q }) && q <= s.len(),
        None => spec is None,
    }
}

pub open spec fn cond_result(
    s: Seq<char>,
    p: nat,
    r: Option<(Condition<ParsedArgType>, usize)>,
    spec: Option<(Condition<ArgView>, nat)>,
) -> bool {
    match r {
        Some((c, q)) => spec == Some((condition_view(c), q as nat)) && p < q <= s.len(),
        None => spec is None,
    }
}

fn apply_prefix_x(op: PrefixOp, e: MathExpression<ParsedArgType>) -> (r: MathExpression<ParsedArgType>)
    ensures
        expr_view(r) == apply_prefix(op, expr_view(e)),
{
    match op {
        PrefixOp::Abs => MathExpression::Abs(Box::new(e)),
        PrefixOp::Floor => MathExpression::Floor(Box::new(e)),
        PrefixOp::Ceil => MathExpression::Ceil(Box::new(e)),
        PrefixOp::Sqrt => MathExpression::Sqrt(Box::new(e)),
    }
}

fn bin_x(l: MathExpression<ParsedArgType>, op: ArithmOp, r: MathExpression<ParsedArgType>) -> (e: MathExpression<ParsedArgType>)
    ensures
        expr_view(e) == bin(expr_view(l), op, expr_view(r)),
{
    MathExpression::BinOperation { left: Box::new(l), op, right: Box::new(r) }
}

fn apply_mul_x(l: MathExpression<ParsedArgType>, op: MulOp, r: MathExpression<ParsedArgType>) -> (e: MathExpression<ParsedArgType>)
    ensures
        expr_view(e) == apply_mul(expr_view(l), op, expr_view(r)),
{
    match op {
        MulOp::Multiply => bin_x(l, ArithmOp::Multiply, r),
        MulOp::Divide => bin_x(l, ArithmOp::Divide, r),
        MulOp::FloorDivide => MathExpression::Floor(Box::new(bin_x(l, ArithmOp::Divide, r))),
        MulOp::Modulo => bin_x(l, ArithmOp::Modulo, r),
    }
}


fn number_prim(n: Numeric) -> (e: MathExpression<ParsedArgType>)
    ensures
        expr_view(e) == MathExpression::Primitif(ArgView::Number(n@)),
{
    let a = ParsedArgType::PrimNumeric(n);
    assert(arg_view(a) == ArgView::Number(n@));
    MathExpression::Primitif(a)
}

fn text_prim(t: String) -> (e: MathExpression<ParsedArgType>)
    ensures
        expr_view(e) == MathExpression::Primitif(ArgView::Text(t@)),
{
    let a = ParsedArgType::PrimString(t);
    assert(arg_view(a) == ArgView::Text(t@));
    MathExpression::Primitif(a)
}

fn call_prim(name: &Vec<char>, first: MathExpression<ParsedArgType>, rest: ArgList) -> (e: MathExpression<ParsedArgType>)
    ensures
        expr_view(e) == MathExpression::Primitif(ArgView::Call(name@, Box::new(expr_view(first)), Box::new(list_view(rest)))),
{
    let a = ParsedArgType::Function(ParsedFunction { name: string_of(name), first_arg: Box::new(first), other_args: rest });
    assert(arg_view(a) == ArgView::Call(name@, Box::new(expr_view(first)), Box::new(list_view(rest))));
    MathExpression::Primitif(a)
}

fn plain_prim(name: &Vec<char>) -> (e: MathExpression<ParsedArgType>)
    ensures
        expr_view(e) == MathExpression::Primitif(if name@ == seq!['G'] { ArgView::Dataset } else { invariant_view(name@) }),
{
    let is_g = name.len() == 1 && name[0] == 'G';
    proof {
        if is_g {
            assert(name@ =~= seq!['G']);
        } else {
            assert(name@ != seq!['G']) by {
                if name@ == seq!['G'] {
                    assert(name@.len() == 1 && name@[0] == 'G');
                }
            }
        }
        assert(arg_view(ParsedArgType::Dataset) == ArgView::Dataset);
        assert(expr_view(MathExpression::Primitif(ParsedArgType::Dataset)) == MathExpression::Primitif(ArgView::Dataset));
        assert(list_view(ArgList::End) == ArgListView::End);
    }
    if is_g {
        MathExpression::Primitif(ParsedArgType::Dataset)
    } else {
        let a = ParsedArgType::invariant_call(string_of(name));
        assert(arg_view(a) == invariant_view(name@));
        MathExpression::Primitif(a)
    }
}

#[verifier::rlimit(100)]
#[verifier::spinoff_prover]
fn primary_x(s: &Vec<char>, p: usize) -> (r: Option<(MathExpression<ParsedArgType>, usize)>)
    requires
        p <= s.len(),
    ensures
        expr_result(s@, p as nat, r, p_primary(s@, p as nat), true),
    decreases s@.len() - p, 0nat,
{
    let q = skip_ws_x(s, p);
    if q >= s.len() {
        return None;
    }
    let c = s[q];
    if c == '(' {
        match sum_x(s, q + 1) {
            Some((e, r)) => {
                let r2 = skip_ws_x(s, r);
                if at_x(s, r2, ')') {
                    Some((e, r2 + 1))
                } else {
                    None
                }
            },
            None => None,
        }
    } else if is_digit_x(c) {
        let e = number_end_x(s, q);
        assert(digits_end(s@, q as nat) == digits_end(s@, (q + 1) as nat));
        let txt = string_of(&slice_x(s, q, e));
        match Numeric::parse(txt.as_str()) {
            Some(n) => Some((number_prim(n), e)),
            None => None,
        }
    } else if c == '"' {
        let e = quote_end_x(s, q + 1);
        if e < s.len() {
            let t = trimmed_x(s, q + 1, e);
            Some((text_prim(string_of(&t)), e + 1))
        } else {
            None
        }
    } else if is_ident_start_x(c) {
        let e = ident_end_x(s, q);
        assert(ident_end(s@, q as nat) == ident_end(s@, (q + 1) as nat));
        let name = slice_x(s, q, e);
        let r = skip_ws_x(s, e);
        if at_x(s, r, '(') {
            match call_args_x(s, r + 1) {
                Some((first, rest, t)) => {
                    return Some((call_prim(&name, first, rest), t));
                },
                None => {},
            }
        }
        Some((plain_prim(&name), e))
    } else {
        None
    }
}

fn call_args_x(s: &Vec<char>, p: usize) -> (r: Option<(MathExpression<ParsedArgType>, ArgList, usize)>)
    requires
        p <= s.len(),
    ensures
        match r {
            Some((e, l, q)) => p_call_args(s@, p as nat) == Some((expr_view(e), list_view(l), q as nat)) && p < q <= s@.len(),
            None => p_call_args(s@, p as nat) is None,
        },
    decreases s@.len() - p, 7nat,
{
    match sum_x(s, p) {
        Some((first, q)) => match args_rest_x(s, q) {
            Some((l, t)) => Some((first, l, t)),
            None => None,
        },
        None => None,
    }
}

fn args_rest_x(s: &Vec<char>, p: usize) -> (r: Option<(ArgList, usize)>)
    requires
        p <= s.len(),
    ensures
        match r {
            Some((l, q)) => p_args_rest(s@, p as nat) == Some((list_view(l), q as nat)) && p < q <= s@.len(),
            None => p_args_rest(s@, p as nat) is None,
        },
    decreases s@.len() - p, 0nat,
{
    let r = skip_ws_x(s, p);
    if at_x(s, r, ')') {
        Some((ArgList::End, r + 1))
    } else if at_x(s, r, ',') {
        match sum_x(s, r + 1) {
            Some((e, q)) => match args_rest_x(s, q) {
                Some((l, t)) => Some((ArgList::Next(Box::new(e), Box::new(l)), t)),
                None => None,
            },
            None => None,
        }
    } else {
        None
    }
}

fn unary_x(s: &Vec<char>, p: usize) -> (r: Option<(MathExpression<ParsedArgType>, usize)>)
    requires
        p <= s.len(),
    ensures
        expr_result(s@, p as nat, r, p_unary(s@, p as nat), true),
    decreases s@.len() - p, 1nat,
{
    let q = skip_ws_x(s, p);
    if at_x(s, q, '-') {
        match unary_x(s, q + 1) {
            Some((e, t)) => Some((MathExpression::Negation(Box::new(e)), t)),
            None => None,
        }
    } else {
        match prefix_x(s, q) {
            Some((op, r)) => match unary_x(s, r) {
                Some((e, t)) => Some((apply_prefix_x(op, e), t)),
                None => primary_x(s, p),
            },
            None => primary_x(s, p),
        }
    }
}

fn power_x(s: &Vec<char>, p: usize) -> (r: Option<(MathExpression<ParsedArgType>, usize)>)
    requires
        p <= s.len(),
    ensures
        expr_result(s@, p as nat, r, p_power(s@, p as nat), true),
    decreases s@.len() - p, 2nat,
{
    match unary_x(s, p) {
        Some((b, q)) => {
            let r = skip_ws_x(s, q);
            if at_x(s, r, '*') && at_x(s, r + 1, '*') {
                let ghost bv = expr_view(b);
                match power_x(s, r + 2) {
                    Some((e, t)) => Some((bin_x(b, ArithmOp::Power, e), t)),
                    None => Some((b, q)),
                }
            } else {
                Some((b, q))
            }
        },
        None => None,
    }
}

fn product_rest_x(s: &Vec<char>, p: usize, acc: MathExpression<ParsedArgType>) -> (r: Option<(MathExpression<ParsedArgType>, usize)>)
    requires
        p <= s.len(),
    ensures
        expr_result(s@, p as nat, r, p_product_rest(s@, p as nat, expr_view(acc)), false),
    decreases s@.len() - p, 3nat,
{
    let r = skip_ws_x(s, p);
    match mul_op_x(s, r) {
        Some((op, r2)) => match power_x(s, r2) {
            Some((b, t)) => product_rest_x(s, t, apply_mul_x(acc, op, b)),
            None => Some((acc, p)),
        },
        None => Some((acc, p)),
    }
}

fn product_x(s: &Vec<char>, p: usize) -> (r: Option<(MathExpression<ParsedArgType>, usize)>)
    requires
        p <= s.len(),
    ensures
        expr_result(s@, p as nat, r, p_product(s@, p as nat), true),
    decreases s@.len() - p, 4nat,
{
    match power_x(s, p) {
        Some((a, q)) => product_rest_x(s, q, a),
        None => None,
    }
}

fn sum_rest_x(s: &Vec<char>, p: usize, acc: MathExpression<ParsedArgType>) -> (r: Option<(MathExpression<ParsedArgType>, usize)>)
    requires
        p <= s.len(),
    ensures
        expr_result(s@, p as nat, r, p_sum_rest(s@, p as nat, expr_view(acc)), false),
    decreases s@.len() - p, 5nat,
{
    let r = skip_ws_x(s, p);
    match add_op_x(s, r) {
        Some((op, r2)) => match product_x(s, r2) {
            Some((b, t)) => sum_rest_x(s, t, bin_x(acc, op, b)),
            None => Some((acc, p)),
        },
        None => Some((acc, p)),
    }
}

fn sum_x(s: &Vec<char>, p: usize) -> (r: Option<(MathExpression<ParsedArgType>, usize)>)
    requires
        p <= s.len(),
    ensures
        expr_result(s@, p as nat, r, p_sum(s@, p as nat), true),
    decreases s@.len() - p, 6nat,
{
    match product_x(s, p) {
        Some((a, q)) => sum_rest_x(s, q, a),
        None => None,
    }
}

fn make_comparison_x(
    op: CompOp,
    l: MathExpression<ParsedArgType>,
    r: MathExpression<ParsedArgType>,
    eps: &Option<Numeric>,
) -> (c: Condition<ParsedArgType>)
    ensures
        condition_view(c) == Condition::Comparison(make_comparison(op, expr_view(l), expr_view(r), *eps)),
{
    let e = crate::expr::copy_epsilon(eps);
    let cmp = match op {
        CompOp::Greater => Comparison::Greater(l, r),
        CompOp::GreaterEqual => Comparison::GreaterEqual(l, r, e),
        CompOp::Less => Comparison::Less(l, r),
        CompOp::LessEqual => Comparison::LessEqual(l, r, e),
        CompOp::Equal => Comparison::Equal(l, r, e),
        CompOp::NotEqual => Comparison::NotEqual(l, r, e),
    };
    Condition::Comparison(cmp)
}

fn ident_comparison_x(name: &Vec<char>, one: bool) -> (c: Condition<ParsedArgType>)
    ensures
        condition_view(c) == ident_comparison(name@, if one { seq!['1'] } else { seq!['0'] }),
{
    let v = if one { Numeric::one() } else { Numeric::zero() };
    let f = ParsedArgType::invariant_call(string_of(name));
    assert(arg_view(ParsedArgType::Dataset) == ArgView::Dataset);
    assert(expr_view(MathExpression::Primitif(ParsedArgType::Dataset)) == MathExpression::Primitif(ArgView::Dataset));
    assert(list_view(ArgList::End) == ArgListView::End);
    assert(arg_view(f) == invariant_view(name@));
    Condition::Comparison(
        Comparison::Equal(
            MathExpression::Primitif(f),
            number_prim(v),
            None,
        ),
    )
}

fn combine_x(op: BinOp, a: Condition<ParsedArgType>, b: Condition<ParsedArgType>) -> (c: Condition<ParsedArgType>)
    ensures
        condition_view(c) == combine(op, condition_view(a), condition_view(b)),
{
    proof {
        reveal_with_fuel(condition_view, 4);
    }
    match op {
        BinOp::And => Condition::and(a, b),
        BinOp::Or => Condition::or(a, b),
        BinOp::Xor => Condition::xor(a, b),
        BinOp::Implication => Condition::implication(a, b),
        BinOp::Equivalence => Condition::equivalence(a, b),
    }
}

fn compared_x(s: &Vec<char>, p: usize, eps: &Option<Numeric>) -> (r: Option<(Condition<ParsedArgType>, usize)>)
    requires
        p <= s.len(),
    ensures
        cond_result(s@, p as nat, r, p_compared(s@, p as nat, *eps)),
    decreases s@.len() - p, 8nat,
{
    match sum_x(s, p) {
        Some((l, q)) => {
            let r = skip_ws_x(s, q);
            match comp_op_x(s, r) {
                Some((op, r2)) => match sum_x(s, r2) {
                    Some((rt, t)) => Some((make_comparison_x(op, l, rt, eps), t)),
                    None => None,
                },
                None => None,
            }
        },
        None => None,
    }
}

#[verifier::rlimit(60)]
fn negated_x(s: &Vec<char>, q: usize, eps: &Option<Numeric>) -> (r: Option<(Condition<ParsedArgType>, usize)>)
    requires
        q <= s.len(),
    ensures
        cond_result(s@, q as nat, r, p_negated(s@, q as nat, *eps)),
    decreases s@.len() - q, 8nat,
{
    let a: usize = if word_at_x(s, q, &word3('n', 'o', 't')) {
        q + 3
    } else if at_x(s, q, '!') {
        q + 1
    } else {
        return None;
    };
    let r = skip_ws_x(s, a);
    if at_x(s, r, '(') {
        match condition_x(s, r + 1, eps) {
            Some((c, t)) => {
                let t2 = skip_ws_x(s, t);
                if at_x(s, t2, ')') {
                    Some((Condition::Not(Box::new(c)), t2 + 1))
                } else {
                    None
                }
            },
            None => None,
        }
    } else if r < s.len() && is_ident_start_x(s[r]) {
        let e = ident_end_x(s, r);
        assert(ident_end(s@, r as nat) == ident_end(s@, (r + 1) as nat));
        let name = slice_x(s, r, e);
        Some((ident_comparison_x(&name, false), e))
    } else {
        None
    }
}

#[verifier::rlimit(60)]
fn comparison_x(s: &Vec<char>, p: usize, eps: &Option<Numeric>) -> (r: Option<(Condition<ParsedArgType>, usize)>)
    requires
        p <= s.len(),
    ensures
        cond_result(s@, p as nat, r, p_comparison(s@, p as nat, *eps)),
    decreases s@.len() - p, 9nat,
{
    let q = skip_ws_x(s, p);
    match compared_x(s, p, eps) {
        Some(x) => {
            return Some(x);
        },
        None => {},
    }
    match negated_x(s, q, eps) {
        Some(x) => {
            return Some(x);
        },
        None => {},
    }
    if at_x(s, q, '(') {
        match condition_x(s, q + 1, eps) {
            Some((c, t)) => {
                let t2 = skip_ws_x(s, t);
                if at_x(s, t2, ')') {
                    Some((c, t2 + 1))
                } else {
                    None
                }
            },
            None => None,
        }
    } else if q < s.len() && is_ident_start_x(s[q]) {
        let e = ident_end_x(s, q);
        assert(ident_end(s@, q as nat) == ident_end(s@, (q + 1) as nat));
        let name = slice_x(s, q, e);
        Some((ident_comparison_x(&name, true), e))
    } else {
        None
    }
}

#[verifier::rlimit(60)]
fn condition_x(s: &Vec<char>, p: usize, eps: &Option<Numeric>) -> (r: Option<(Condition<ParsedArgType>, usize)>)
    requires
        p <= s.len(),
    ensures
        cond_result(s@, p as nat, r, p_condition(s@, p as nat, *eps)),
    decreases s@.len() - p, 10nat,
{
    match comparison_x(s, p, eps) {
        Some((c, q)) => {
            let r = skip_ws_x(s, q);
            match bin_op_x(s, r) {
                Some((op, r2)) => match condition_x(s, r2, eps) {
                    Some((c2, t)) => Some((combine_x(op, c, c2), t)),
                    None => Some((c, q)),
                },
                None => Some((c, q)),
            }
        },
        None => None,
    }
}

fn query_x(s: &Vec<char>, p: usize, eps: &Option<Numeric>) -> (r: Option<(QueryStatement, usize)>)
    requires
        p <= s.len(),
    ensures
        match r {
            Some((x, q)) => p_query(s@, p as nat, *eps) == Some((query_view(x), q as nat)) && p < q <= s@.len(),
            None => p_query(s@, p as nat, *eps) is None,
        },
    decreases s@.len() - p, 11nat,
{
    match condition_x(s, p, eps) {
        Some((c, q)) => {
            let r = skip_ws_x(s, q);
            if at_x(s, r, '-') && at_x(s, r + 1, '>') {
                match query_x(s, r + 2, eps) {
                    Some((rest, t)) => Some((QueryStatement::IfThen(c, Box::new(rest)), t)),
                    None => Some((QueryStatement::Condition(c), q)),
                }
            } else {
                Some((QueryStatement::Condition(c), q))
            }
        },
        None => None,
    }
}


// ______________________________ reading whole inputs

/// Errors of reading a query.
#[derive(Debug, PartialEq, Eq)]
pub enum ParsingError {
    /// Something went wrong when trying to parse the given input : "{input}"
    ParseError {
        /// The input that caused the error
        input: String,
        /// The column (from 1) where the error originated
        col_pos: usize,
        /// The missing token that could possibly fix the error
        missing_token: Option<String>,
    },
    /// Error when creating the class selection "{0}", reason : "{1}"
    ClassSelectionError(String, ClassSelectionError),
}

/// What may be missing after a first part of a condition was read.
pub open spec fn hint_binop() -> Seq<char> {
    "AND, OR"@
}

/// What may be missing where nothing could be read.
pub open spec fn hint_value() -> Seq<char> {
    "an identifier or a value"@
}

/// `e` is the error of reading `input` that stopped at column `col`, where
/// `hint` tells what could be missing.
pub open spec fn is_parse_error(e: ParsingError, input: Seq<char>, col: nat, hint: Option<Seq<char>>) -> bool {
    match e {
        ParsingError::ParseError { input: i, col_pos, missing_token } => {
            &&& i@ == input
            &&& col_pos == col
            &&& match missing_token {
                Some(t) => hint == Some(t@),
                None => hint is None,
            }
        },
        _ => false,
    }
}

/// The error of reading `input`, that stopped at column `col`.
fn parse_error(input: &str, col: usize, hint: Option<String>) -> (e: ParsingError)
    ensures
        is_parse_error(e, input@, col as nat, match hint { Some(h) => Some(h@), None => None }),
{
    ParsingError::ParseError { input: String::from_str(input), col_pos: col, missing_token: hint }
}

/// The input followed by an arrow under the column `col`.
pub open spec fn arrow_under(value: Seq<char>, col: nat) -> Seq<char> {
    seq![' '] + value + seq!['\n'] + repeat_char('-', col) + seq!['^']
}

/// The message of a parsing error.
pub open spec fn parsing_error_text(e: ParsingError) -> Seq<char> {
    match e {
        ParsingError::ParseError { input, .. } => "Something went wrong when trying to parse the given input : \""@ + input@ + "\""@,
        ParsingError::ClassSelectionError(s, c) => "Error when creating the class selection \""@ + s@ + "\", reason : \""@
            + class_error_text(c) + "\""@,
    }
}

/// The error as shown to a user: the possibly missing token and an arrow
/// under the column where reading stopped.
pub open spec fn pretty_text(e: ParsingError) -> Seq<char> {
    match e {
        ParsingError::ParseError { input, col_pos, missing_token } => "Could not parse the following input"@
            + (match missing_token {
            Some(t) => ", because one of these tokens could be missing: \""@ + t@ + "\""@,
            None => Seq::empty(),
        }) + " : \n"@ + arrow_under(input@, col_pos as nat),
        _ => parsing_error_text(e),
    }
}

impl ParsingError {
    /// The message of the error.
    pub fn message(&self) -> (r: String)
        ensures
            r@ == parsing_error_text(*self),
    {
        let mut out: Vec<char> = Vec::new();
        match self {
            ParsingError::ParseError { input, .. } => {
                push_str(&mut out, "Something went wrong when trying to parse the given input : \"");
                push_str(&mut out, input.as_str());
                push_str(&mut out, "\"");
            },
            ParsingError::ClassSelectionError(s, c) => {
                push_str(&mut out, "Error when creating the class selection \"");
                push_str(&mut out, s.as_str());
                push_str(&mut out, "\", reason : \"");
                c.push_message(&mut out);
                push_str(&mut out, "\"");
            },
        }
        assert(out@ =~= parsing_error_text(*self));
        string_of(&out)
    }

    /// The input followed by an arrow under the column `col`.
    pub fn get_arrow_under(value: &String, col: usize) -> (r: String)
        ensures
            r@ == arrow_under(value@, col as nat),
    {
        let mut out: Vec<char> = Vec::new();
        out.push(' ');
        push_str(&mut out, value.as_str());
        out.push('\n');
        push_repeat(&mut out, '-', col);
        out.push('^');
        assert(out@ =~= arrow_under(value@, col as nat));
        string_of(&out)
    }

    /// The error with the missing token, if any, and an arrow under the
    /// column where the problem was met.
    pub fn pretty_string(&self) -> (r: String)
        ensures
            r@ == pretty_text(*self),
    {
        match self {
            ParsingError::ParseError { input, col_pos, missing_token } => {
                let mut out: Vec<char> = Vec::new();
                push_str(&mut out, "Could not parse the following input");
                match missing_token {
                    Some(t) => {
                        push_str(&mut out, ", because one of these tokens could be missing: \"");
                        push_str(&mut out, t.as_str());
                        push_str(&mut out, "\"");
                    },
                    None => {},
                }
                push_str(&mut out, " : \n");
                let arrow = Self::get_arrow_under(input, *col_pos);
                push_str(&mut out, arrow.as_str());
                assert(out@ =~= pretty_text(*self));
                string_of(&out)
            },
            _ => self.message(),
        }
    }
}

/// Reads queries, conditions and expressions (see the grammar at the top of this module).
pub struct QueryParser;

impl QueryParser {
    /// Reads a condition, such as `(a = 2 or not(x < y))`, where the
    /// equalities and large inequalities take the precision `epsilon`.
    /// # Errors
    /// A [`ParsingError::ParseError`] at the column where reading stopped:
    /// where nothing could be read, an identifier or a value may be missing;
    /// where a first part was read but not the rest, an operator.
    pub fn parse_condition(input: &str, epsilon: Option<Numeric>) -> (r: Result<Condition<ParsedArgType>, ParsingError>)
        requires
            input@.len() < usize::MAX,
        ensures
            match outcome(input@, p_condition(input@, 0, epsilon)) {
                Ok(c) => r matches Ok(x) && condition_view(x) == c,
                Err((col, partial)) => r matches Err(e) && is_parse_error(
                    e,
                    input@,
                    col,
                    Some(if partial { hint_binop() } else { hint_value() }),
                ),
            },
    {
        let s = chars_of(input);
        match condition_x(&s, 0, &epsilon) {
            Some((c, q)) => {
                let e = skip_ws_x(&s, q);
                if e == s.len() {
                    Ok(c)
                } else {
                    Err(parse_error(input, e + 1, Some(String::from_str("AND, OR"))))
                }
            },
            None => {
                let e = skip_ws_x(&s, 0);
                Err(parse_error(input, e + 1, Some(String::from_str("an identifier or a value"))))
            },
        }
    }

    /// Reads a query: conditions chained by `->`, such as `a -> b = 1 -> c`.
    /// # Errors
    /// As [`QueryParser::parse_condition`].
    pub fn parse_query(input: &str, epsilon: Option<Numeric>) -> (r: Result<QueryStatement, ParsingError>)
        requires
            input@.len() < usize::MAX,
        ensures
            match outcome(input@, p_query(input@, 0, epsilon)) {
                Ok(q) => r matches Ok(x) && query_view(x) == q,
                Err((col, partial)) => r matches Err(e) && is_parse_error(
                    e,
                    input@,
                    col,
                    Some(if partial { hint_binop() } else { hint_value() }),
                ),
            },
    {
        let s = chars_of(input);
        match query_x(&s, 0, &epsilon) {
            Some((x, q)) => {
                let e = skip_ws_x(&s, q);
                if e == s.len() {
                    Ok(x)
                } else {
                    Err(parse_error(input, e + 1, Some(String::from_str("AND, OR"))))
                }
            },
            None => {
                let e = skip_ws_x(&s, 0);
                Err(parse_error(input, e + 1, Some(String::from_str("an identifier or a value"))))
            },
        }
    }

    /// Reads an arithmetic expression, such as `2 ** 2 + a // (2 - 1 * 5)`.
    /// # Errors
    /// A [`ParsingError::ParseError`] at the column where reading stopped.
    pub fn parse_expression(input: &str) -> (r: Result<MathExpression<ParsedArgType>, ParsingError>)
        requires
            input@.len() < usize::MAX,
        ensures
            match outcome(input@, p_sum(input@, 0)) {
                Ok(x) => r matches Ok(e) && expr_view(e) == x,
                Err((col, partial)) => r matches Err(e) && is_parse_error(
                    e,
                    input@,
                    col,
                    if partial { None } else { Some(hint_value()) },
                ),
            },
    {
        let s = chars_of(input);
        match sum_x(&s, 0) {
            Some((x, q)) => {
                let e = skip_ws_x(&s, q);
                if e == s.len() {
                    Ok(x)
                } else {
                    Err(parse_error(input, e + 1, None))
                }
            },
            None => {
                let e = skip_ws_x(&s, 0);
                Err(parse_error(input, e + 1, Some(String::from_str("an identifier or a value"))))
            },
        }
    }
}


// ______________________________ aliases

/// `s` where each occurrence of `pat` is replaced by `rep`, from left to
/// right without overlaps; an empty `pat` occurs before each character and at the end.
pub open spec fn replace_all(s: Seq<char>, pat: Seq<char>, rep: Seq<char>) -> Seq<char>
    decreases s.len(),
{
    if pat.len() == 0 {
        if s.len() == 0 {
            rep
        } else {
            rep + seq![s[0]] + replace_all(s.skip(1), pat, rep)
        }
    } else if s.len() < pat.len() {
        s
    } else if s.take(pat.len() as int) == pat {
        rep + replace_all(s.skip(pat.len() as int), pat, rep)
    } else {
        seq![s[0]] + replace_all(s.skip(1), pat, rep)
    }
}

/// The query `q` once each of the first `n` aliases is replaced, in order,
/// by its value in brackets.
pub open spec fn aliases_applied(q: Seq<char>, aliases: Seq<(String, String)>, n: nat) -> Seq<char>
    decreases n,
{
    if n == 0 || n > aliases.len() {
        q
    } else {
        let prev = aliases_applied(q, aliases, (n - 1) as nat);
        let a = aliases[n - 1];
        replace_all(prev, a.0@, seq!['('] + a.1@ + seq![')'])
    }
}

/// Whether `pat` is written in `s` at `i`.
fn matches_at(s: &Vec<char>, i: usize, pat: &Vec<char>) -> (r: bool)
    requires
        i <= s.len(),
    ensures
        r == (i + pat@.len() <= s@.len() && s@.subrange(i as int, i + pat@.len()) == pat@),
{
    if s.len() - i < pat.len() {
        return false;
    }
    let mut k: usize = 0;
    while k < pat.len()
        invariant
            i + pat@.len() <= s.len(),
            k <= pat@.len(),
            forall|j: int| 0 <= j < k ==> s@[i + j] == pat@[j],
        decreases pat.len() - k,
    {
        if s[i + k] != pat[k] {
            assert(s@.subrange(i as int, i + pat@.len())[k as int] != pat@[k as int]);
            return false;
        }
        k += 1;
    }
    assert(s@.subrange(i as int, i + pat@.len()) =~= pat@);
    true
}

/// `s` where each occurrence of `pat` is replaced by `rep`.
fn replace_chars(s: &Vec<char>, pat: &Vec<char>, rep: &Vec<char>) -> (r: Vec<char>)
    ensures
        r@ == replace_all(s@, pat@, rep@),
{
    let mut out: Vec<char> = Vec::new();
    let mut i: usize = 0;
    assert(s@.skip(0) =~= s@);
    while i < s.len()
        invariant
            i <= s@.len(),
            out@ + replace_all(s@.skip(i as int), pat@, rep@) == replace_all(s@, pat@, rep@),
        decreases s.len() - i,
    {
        let ghost t = s@.skip(i as int);
        if pat.len() == 0 {
            push_chars(&mut out, rep);
            out.push(s[i]);
            assert(t[0] == s@[i as int]);
            assert(t.skip(1) =~= s@.skip(i + 1));
            assert(out@ + replace_all(s@.skip(i + 1), pat@, rep@) =~= replace_all(s@, pat@, rep@));
            i += 1;
        } else if matches_at(s, i, pat) {
            assert(t.take(pat@.len() as int) =~= s@.subrange(i as int, i + pat@.len()));
            assert(t.skip(pat@.len() as int) =~= s@.skip(i + pat@.len()));
            push_chars(&mut out, rep);
            assert(out@ + replace_all(s@.skip(i + pat@.len()), pat@, rep@) =~= replace_all(s@, pat@, rep@));
            i += pat.len();
        } else {
            proof {
                if t.len() >= pat@.len() {
                    assert(t.take(pat@.len() as int) =~= s@.subrange(i as int, i + pat@.len()));
                }
            }
            assert(t[0] == s@[i as int]);
            assert(t.skip(1) =~= s@.skip(i + 1));
            out.push(s[i]);
            assert(out@ + replace_all(s@.skip(i + 1), pat@, rep@) =~= replace_all(s@, pat@, rep@));
            i += 1;
        }
    }
    let ghost t = s@.skip(i as int);
    assert(t.len() == 0);
    if pat.len() == 0 {
        push_chars(&mut out, rep);
        assert(out@ =~= replace_all(s@, pat@, rep@));
    } else {
        assert(out@ =~= replace_all(s@, pat@, rep@));
    }
    out
}

impl QueryParser {
    /// Replaces, in order, each occurrence of each alias with its value in brackets.
    pub fn change_aliases(og_query: String, aliases: &Vec<(String, String)>) -> (r: String)
        ensures
            r@ == aliases_applied(og_query@, aliases@, aliases@.len()),
    {
        let mut q = chars_of(og_query.as_str());
        let mut i: usize = 0;
        while i < aliases.len()
            invariant
                i <= aliases@.len(),
                q@ == aliases_applied(og_query@, aliases@, i as nat),
            decreases aliases.len() - i,
        {
            let pat = chars_of(aliases[i].0.as_str());
            let mut rep: Vec<char> = Vec::new();
            rep.push('(');
            push_str(&mut rep, aliases[i].1.as_str());
            rep.push(')');
            assert(rep@ =~= seq!['('] + aliases@[i as int].1@ + seq![')']);
            q = replace_chars(&q, &pat, &rep);
            i += 1;
        }
        string_of(&q)
    }
}

} // verus!
