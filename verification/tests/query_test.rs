use gquest_core::expr::{ArithmOp, Comparison, Condition, MathExpression, ParsedArgType, QueryStatement};
use gquest_core::numeric::Numeric;
use gquest_core::parser::QueryParser;

fn num(s: &str) -> ParsedArgType {
    ParsedArgType::prim_numeric(Numeric::parse(s).expect("a number"))
}

fn inv(name: &str) -> ParsedArgType {
    ParsedArgType::invariant_call(name.to_string())
}

fn ex(p: ParsedArgType) -> MathExpression<ParsedArgType> {
    MathExpression::Primitif(p)
}

fn floor(expr: MathExpression<ParsedArgType>) -> MathExpression<ParsedArgType> {
    MathExpression::Floor(Box::new(expr))
}
fn ceil(expr: MathExpression<ParsedArgType>) -> MathExpression<ParsedArgType> {
    MathExpression::Ceil(Box::new(expr))
}
fn abs(expr: MathExpression<ParsedArgType>) -> MathExpression<ParsedArgType> {
    MathExpression::Abs(Box::new(expr))
}
fn negation(expr: MathExpression<ParsedArgType>) -> MathExpression<ParsedArgType> {
    MathExpression::Negation(Box::new(expr))
}
fn sqrt(expr: MathExpression<ParsedArgType>) -> MathExpression<ParsedArgType> {
    MathExpression::Sqrt(Box::new(expr))
}
fn bin_operation(
    left: MathExpression<ParsedArgType>,
    op: ArithmOp,
    right: MathExpression<ParsedArgType>,
) -> MathExpression<ParsedArgType> {
    MathExpression::bin_operation(left, op, right)
}

#[test]
fn parse_comparison() {
    assert!(matches!(
        QueryParser::parse_condition("x > 1", None),
        Ok(Condition::Comparison(Comparison::Greater(
            MathExpression::Primitif(x),
            MathExpression::Primitif(y)
        ))) if x == inv("x") && y == num("1")
    ));
    assert!(matches!(
        QueryParser::parse_condition("(1 <= b2 )", None),
        Ok(Condition::Comparison(Comparison::LessEqual(
            MathExpression::Primitif(x),
            MathExpression::Primitif(y),
            None
        ))) if x == num("1") && y == inv("b2")
    ));
}

#[test]
fn parse_condition() {
    let a = inv("a");
    let b = inv("b");
    let c = inv("c");
    let d = inv("d");
    assert!(matches!(
        QueryParser::parse_condition("a > b and c = d", None),
        Ok(Condition::And(b1, b2))
            if *b1 == Condition::Comparison(Comparison::Greater(ex(a), ex(b))) &&
                *b2 == Condition::Comparison(Comparison::Equal(ex(c), ex(d), None))
    ));
}

#[test]
fn parse_query_if_then() {
    let a = Comparison::Equal(ex(inv("a")), ex(num("1")), None);
    let b = Comparison::Equal(ex(inv("b")), ex(num("1")), None);

    assert!(matches!(
        QueryParser::parse_query("a -> b", None),
        Ok(QueryStatement::IfThen(left, right))
            if left == Condition::Comparison(a) && *right == QueryStatement::condition(Condition::Comparison(b))));
}

#[test]
fn parse_query_if_then_chained() {
    let a = Comparison::Equal(ex(inv("a")), ex(num("1")), None);
    let b = Comparison::Equal(ex(inv("b")), ex(num("1")), None);
    let c: Condition<ParsedArgType> = Comparison::Equal(ex(inv("c")), ex(num("1")), None).into();
    let expected = QueryStatement::if_then(
        Condition::Comparison(a.clone()),
        QueryStatement::if_then(Condition::Comparison(b.clone()), QueryStatement::condition(c.clone())),
    );

    assert!(matches!(
        QueryParser::parse_query("a -> b -> c", None),
        Ok(received)
            if received == expected));
}

#[test]
fn parse_condition_xor() {
    let a_true = Comparison::Equal(ex(inv("a")), ex(num("1")), None);
    let b_true = Comparison::Equal(ex(inv("b")), ex(num("1")), None);

    let cond = Condition::and(
        Condition::or(Condition::Comparison(a_true.clone()), Condition::Comparison(b_true.clone())),
        Condition::not(Condition::and(Condition::Comparison(a_true.clone()), Condition::Comparison(b_true.clone()))),
    );

    assert!(matches!(
        QueryParser::parse_condition("a = 1 xor b = 1", None),
        Ok(cond1)
        if cond1 == cond
    ))
}

#[test]
fn parse_condition_equivalence() {
    let a_true = Comparison::Equal(ex(inv("a")), ex(num("1")), None);
    let b_true = Comparison::Equal(ex(inv("b")), ex(num("1")), None);

    let cond = Condition::equivalence(Condition::Comparison(a_true), Condition::Comparison(b_true));

    assert!(matches!(
        QueryParser::parse_condition("a <==> b", None),
        Ok(cond1)
        if cond1 == cond
    ))
}

#[test]
fn parse_condition_not() {
    assert!(matches!(
        QueryParser::parse_condition("not(a > b) or c = d", None),
        Ok(Condition::Or(b1, b2))
            if *b1 == Condition::Not(Box::new(Condition::Comparison(Comparison::Greater(ex(inv("a")), ex(inv("b")))))) &&
                *b2 == Condition::Comparison(Comparison::Equal(ex(inv("c")), ex(inv("d")), None))
    ));

    assert!(matches!(
        QueryParser::parse_condition("!inv or a", None),
        Ok(Condition::Or(b1, b2))
            if *b1 == Condition::Comparison(Comparison::Equal(ex(inv("inv")), ex(num("0")), None)) &&
                *b2 == Condition::Comparison(Comparison::Equal(ex(inv("a")), ex(num("1")), None))
    ));
}

#[test]
fn parse_condition_condition_chain() {
    assert!(matches!(
        QueryParser::parse_condition("a > b or c = d and 0 != 5", None),
        Ok(Condition::Or(b1, b2))
            if *b1 == Condition::Comparison(Comparison::Greater(ex(inv("a")), ex(inv("b")))) &&
                *b2 == Condition::And(Box::new(Condition::Comparison(Comparison::Equal(ex(inv("c")), ex(inv("d")), None))),
                    Box::new(Condition::Comparison(Comparison::NotEqual(ex(num("0")), ex(num("5")), None))))
    ));
}

#[test]
fn parse_condition_condition_parenthesis() {
    assert!(matches!(
        QueryParser::parse_condition("(a > b or c = d) and 0 != 5", None),
        Ok(Condition::And(b1, b2))
            if *b2 == Condition::Comparison(Comparison::NotEqual(ex(num("0")), ex(num("5")), None)) &&
                *b1 == Condition::Or(Box::new(Condition::Comparison(Comparison::Greater(ex(inv("a")), ex(inv("b"))))),
            Box::new(Condition::Comparison(Comparison::Equal(ex(inv("c")), ex(inv("d")), None))))
    ));
}

#[test]
fn parse_bin_expression() {
    let parse_expr = QueryParser::parse_expression("2 ** 2 + a // (2- 1*5)").expect("correct");

    let correct_expr = bin_operation(
        bin_operation(ex(num("2")), ArithmOp::Power, ex(num("2"))),
        ArithmOp::Add,
        floor(bin_operation(
            ex(inv("a")),
            ArithmOp::Divide,
            bin_operation(
                ex(num("2")),
                ArithmOp::Subtract,
                bin_operation(ex(num("1")), ArithmOp::Multiply, ex(num("5"))),
            ),
        )),
    );
    assert_eq!(parse_expr, correct_expr)
}

#[test]
fn parse_unary_expression() {
    let parse_expr = QueryParser::parse_expression("abs(1/1) % floor(a)").expect("correct");

    let correct_expr = bin_operation(
        abs(bin_operation(ex(num("1")), ArithmOp::Divide, ex(num("1")))),
        ArithmOp::Modulo,
        floor(ex(inv("a"))),
    );

    assert_eq!(parse_expr, correct_expr);

    let parse_expr = QueryParser::parse_expression("sqrt(a) / ceil(1 + 1)").expect("correct");

    let correct_expr = bin_operation(
        sqrt(ex(inv("a"))),
        ArithmOp::Divide,
        ceil(bin_operation(ex(num("1")), ArithmOp::Add, ex(num("1")))),
    );

    assert_eq!(parse_expr, correct_expr);
}

#[test]
fn parse_negation_expression() {
    let parse_expr = QueryParser::parse_expression("-(1 + a)").expect("correct");

    let correct_expr = negation(bin_operation(ex(num("1")), ArithmOp::Add, ex(inv("a"))));

    assert_eq!(parse_expr, correct_expr);

    let parse_expr = QueryParser::parse_expression("-a").expect("correct");

    let correct_expr = negation(ex(inv("a")));

    assert_eq!(parse_expr, correct_expr);
}

#[test]
fn query_test_parse_expression_comparison() {
    assert!(matches!(
        QueryParser::parse_condition("n + 1 > 0", None),
        Ok(Condition::Comparison(Comparison::Greater(a, b)))
        if a == bin_operation(ex(inv("n")), ArithmOp::Add, ex(num("1")))
        && b == ex(num("0"))
    ));

    assert!(matches!(
        QueryParser::parse_condition("floor(n) = 0 % (2 * 1)", None),
        Ok(Condition::Comparison(Comparison::Equal(a, b, None)))
        if
        a == floor(ex(inv("n")))
        &&
        b == bin_operation(ex(num("0")), ArithmOp::Modulo, bin_operation(ex(num("2")), ArithmOp::Multiply, ex(num("1"))))
    ));

    assert!(matches!(
        QueryParser::parse_condition("a = n ** 2", None),
        Ok(Condition::Comparison(Comparison::Equal(a, b, None)))
        if
        a == ex(inv("a"))
        &&
        b == bin_operation(ex(inv("n")), ArithmOp::Power, ex(num("2")))
    ));
}

#[test]
fn parse_function() {
    assert!(matches!(
        QueryParser::parse_condition("fn(G, 12) > 0", None),
        Ok(Condition::Comparison(Comparison::Greater(a, b)))
        if a == ex(ParsedArgType::function("fn".to_string(), ex(ParsedArgType::Dataset), vec![ex(num("12.0"))]))
        && b == ex(num("0.0"))
    ));

    assert!(matches!(
        QueryParser::parse_condition("fn(G) > 0", None),
        Ok(Condition::Comparison(Comparison::Greater(a, b)))
        if a == ex(ParsedArgType::function("fn".to_string(), ex(ParsedArgType::Dataset), Vec::new()))
        && b == ex(num("0.0"))
    ));

    assert!(matches!(
        QueryParser::parse_condition("fn > 0", None),
        Ok(Condition::Comparison(Comparison::Greater(a, b)))
        if a == ex(ParsedArgType::function("fn".to_string(), ex(ParsedArgType::Dataset), Vec::new()))
        && b == ex(num("0.0"))
    ));
}

// ______________________________ further cases

#[test]
fn parse_errors_test() {
    assert!(QueryParser::parse_condition("a >", None).is_err());
    assert!(QueryParser::parse_expression("1 +").is_err());
    assert!(QueryParser::parse_query("", None).is_err());
}

#[test]
fn render_expression_test() {
    let e = QueryParser::parse_expression("2 ** 2 + a // (2- 1*5)").expect("correct");
    assert_eq!(e.to_string(), "(2 ** 2) + (floor((a(G) / (2 - (1 * 5)))))");
    let c = QueryParser::parse_condition("not(a > b) or c <= 1", None).expect("correct");
    assert_eq!(c.to_string(), "(not a(G) > b(G)) or c(G) <= 1");
    let f = ParsedArgType::function("f".to_string(), ex(ParsedArgType::Dataset), vec![ex(num("1")), ex(num("2"))]);
    assert_eq!(f.to_string(), "f(G,1,2)");
    assert_eq!(ArithmOp::Modulo.to_string(), "%");
    assert_eq!(negation(abs(ex(inv("a")))).to_string(), "-(|a(G)|)");
}

#[test]
fn change_aliases_test() {
    let out = QueryParser::change_aliases("a > b".to_string(), &vec![("a".to_string(), "x + 1".to_string())]);
    assert_eq!(out, "(x + 1) > b");
    let out = QueryParser::change_aliases("ab".to_string(), &vec![("".to_string(), "x".to_string())]);
    assert_eq!(out, "(x)a(x)b(x)");
}
