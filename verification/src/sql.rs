//! A general model of SQL select queries, and its translation to SQL text.
use vstd::prelude::*;
use vstd::string::*;
use crate::data_types::ConstantValue;
use crate::numeric::Numeric;
use crate::expr::{ArithmOp, Comparison, Condition, MathExpression};
use crate::rel_graph::{FnArg, FnRef, copy_fn_ref};
use crate::text::{dec, usize_to_string, join};

verus! {

/// The name of the first created table of the dataset, holding the graphs.
pub const CANONICAL_TABLE_NAME: &'static str = "dataset";
/// The column name of the primary key of the dataset.
pub const PK_NAME: &'static str = "canon";
/// The name of the vertices table of the dataset.
pub const VERTICES_TABLE_NAME: &'static str = "n";
/// The name of the column holding the output of a function.
pub const FUNCTION_OUTPUT_COL_NAME: &'static str = "value";

/// The model of a select query.
pub ghost struct SelectModel {
    pub select: Seq<MathExpression<FnArg>>,
    pub distinct: bool,
    pub from: Seq<TableSelModel>,
    pub joins: Seq<JoinModel>,
    pub where_clause: Option<WhereModel>,
    pub group_by: Seq<Seq<char>>,
    pub limit: Option<(Option<usize>, usize)>,
}

/// The model of a table of the `FROM` clause.
pub ghost enum TableModel {
    Query(Box<SelectModel>),
    Name(Seq<char>),
}

/// The model of a table of the `FROM` clause with its optional alias.
pub ghost struct TableSelModel {
    pub table: TableModel,
    pub rename_as: Option<Seq<char>>,
}

/// The model of a join.
pub ghost struct JoinModel {
    pub table_name: Seq<char>,
    pub alias_name: Seq<char>,
    pub on_cond: Seq<Comparison<FnArg>>,
}

/// The model of a where clause.
pub ghost struct WhereModel {
    pub not_exists: Option<Box<SelectModel>>,
    pub condition: Option<Condition<FnArg>>,
}

/// A where clause: a condition and/or a *not exists* sub-query.
#[derive(Debug)]
pub struct SqlWhereClause {
    pub not_exists: Option<Box<SqlSelectQuery>>,
    pub condition: Option<Condition<FnArg>>,
}

/// A join with a function table, renamed and restricted by comparisons.
#[derive(Debug)]
pub struct SqlJoin {
    pub table_name: String,
    pub alias_name: String,
    pub on_cond: Vec<Comparison<FnArg>>,
}

/// A table in the `FROM` section of a query.
#[derive(Debug)]
pub struct SqlTableSelection {
    /// The table to select
    pub selected_table: SqlTable,
    /// What to rename the table in the `FROM` section of the query
    pub rename_as: Option<String>,
}

/// A table to select: the result of a query, or a named table.
#[derive(Debug)]
pub enum SqlTable {
    SqlQuery(SqlSelectQuery),
    TableName(String),
}

/// A select query, general for any database system.
#[derive(Debug)]
pub struct SqlSelectQuery {
    /// The columns to choose
    pub select: Vec<MathExpression<FnArg>>,
    pub distinct: bool,
    /// The tables to choose
    pub from: Vec<SqlTableSelection>,
    /// The joins of the query
    pub joins: Vec<SqlJoin>,
    /// The condition to impose to the selection
    pub where_clause: Option<SqlWhereClause>,
    /// What to group the selection by
    pub group_by: Vec<String>,
    /// The optional starting point and the maximum number of rows to return.
    pub limit: Option<(Option<usize>, usize)>,
}

// ______________________________ models of the values

pub open spec fn join_model(j: SqlJoin) -> JoinModel {
    JoinModel { table_name: j.table_name@, alias_name: j.alias_name@, on_cond: j.on_cond@ }
}

pub open spec fn select_model(q: SqlSelectQuery) -> SelectModel
    decreases q, 0nat,
{
    SelectModel {
        select: q.select@,
        distinct: q.distinct,
        from: from_models(q.from@, q.from@.len()),
        joins: Seq::new(q.joins@.len(), |i: int| join_model(q.joins@[i])),
        where_clause: match q.where_clause {
            Some(w) => Some(where_model(w)),
            None => None,
        },
        group_by: Seq::new(q.group_by@.len(), |i: int| q.group_by@[i]@),
        limit: q.limit,
    }
}

pub open spec fn from_models(s: Seq<SqlTableSelection>, n: nat) -> Seq<TableSelModel>
    decreases s, n,
{
    if n == 0 || n > s.len() {
        Seq::empty()
    } else {
        from_models(s, (n - 1) as nat).push(table_sel_model(s[n - 1]))
    }
}

pub open spec fn table_sel_model(t: SqlTableSelection) -> TableSelModel
    decreases t, 0nat,
{
    TableSelModel {
        table: match t.selected_table {
            SqlTable::SqlQuery(q) => TableModel::Query(Box::new(select_model(q))),
            SqlTable::TableName(n) => TableModel::Name(n@),
        },
        rename_as: match t.rename_as {
            Some(a) => Some(a@),
            None => None,
        },
    }
}

pub open spec fn where_model(w: SqlWhereClause) -> WhereModel
    decreases w, 0nat,
{
    WhereModel {
        not_exists: match w.not_exists {
            Some(q) => Some(Box::new(select_model(*q))),
            None => None,
        },
        condition: w.condition,
    }
}


// ______________________________ translation to SQL text

/// A primitive value that can be written in SQL (booleans cannot).
pub open spec fn prim_ok(p: FnArg) -> bool {
    !(p matches FnArg::Constant(ConstantValue::Bool(_)))
}

pub open spec fn expr_ok(e: MathExpression<FnArg>) -> bool
    decreases e,
{
    match e {
        MathExpression::Primitif(p) => prim_ok(p),
        MathExpression::Negation(x) => expr_ok(*x),
        MathExpression::Floor(x) => expr_ok(*x),
        MathExpression::Ceil(x) => expr_ok(*x),
        MathExpression::Abs(x) => expr_ok(*x),
        MathExpression::Sqrt(x) => expr_ok(*x),
        MathExpression::BinOperation { left, right, .. } => expr_ok(*left) && expr_ok(*right),
    }
}

pub open spec fn comparison_ok(c: Comparison<FnArg>) -> bool {
    expr_ok(crate::expr::comparison_sides(c).0) && expr_ok(crate::expr::comparison_sides(c).1)
}

pub open spec fn cond_ok(c: Condition<FnArg>) -> bool
    decreases c,
{
    match c {
        Condition::Comparison(x) => comparison_ok(x),
        Condition::And(a, b) => cond_ok(*a) && cond_ok(*b),
        Condition::Or(a, b) => cond_ok(*a) && cond_ok(*b),
        Condition::Not(a) => cond_ok(*a),
    }
}

pub open spec fn join_ok(j: JoinModel) -> bool {
    forall|k: int| 0 <= k < j.on_cond.len() ==> comparison_ok(#[trigger] j.on_cond[k])
}

pub open spec fn table_ok(t: TableModel) -> bool
    decreases t, 1nat,
{
    match t {
        TableModel::Query(q) => select_ok(*q),
        TableModel::Name(_) => true,
    }
}

/// A query that can be written in SQL: every selection names at least one
/// column and no boolean constant appears in it.
pub open spec fn select_ok(m: SelectModel) -> bool
    decreases m, 2nat,
{
    &&& m.select.len() > 0
    &&& forall|i: int| 0 <= i < m.select.len() ==> expr_ok(#[trigger] m.select[i])
    &&& forall|i: int| 0 <= i < m.from.len() ==> table_ok(#[trigger] m.from[i].table)
    &&& forall|i: int| 0 <= i < m.joins.len() ==> join_ok(#[trigger] m.joins[i])
    &&& match m.where_clause {
        Some(w) => (match w.condition { Some(c) => cond_ok(c), None => true })
            && (match w.not_exists { Some(q) => select_ok(*q), None => true }),
        None => true,
    }
}

/// The SQL writing of a constant.
pub open spec fn const_sql(c: ConstantValue) -> Seq<char> {
    match c {
        ConstantValue::Numeric(n) => n@,
        ConstantValue::String(s) => "'"@ + s@ + "'"@,
        ConstantValue::Identifier(id) => id@,
        ConstantValue::Bool(_) => Seq::empty(),
    }
}

/// The SQL writing of a primitive value.
pub open spec fn prim_sql(p: FnArg) -> Seq<char> {
    match p {
        FnArg::FnCall(f) => f.0@ + dec(f.1 as nat) + "."@ + FUNCTION_OUTPUT_COL_NAME@,
        FnArg::Constant(c) => const_sql(c),
        FnArg::Dataset => CANONICAL_TABLE_NAME@ + "."@ + PK_NAME@,
    }
}

pub open spec fn op_sql(op: ArithmOp, l: Seq<char>, r: Seq<char>) -> Seq<char> {
    match op {
        ArithmOp::Add => "("@ + l + ") + ("@ + r + ")"@,
        ArithmOp::Subtract => "("@ + l + ") - ("@ + r + ")"@,
        ArithmOp::Multiply => "("@ + l + ") * ("@ + r + ")"@,
        ArithmOp::Divide => "("@ + l + ") / ("@ + r + ")"@,
        ArithmOp::Power => "pow(("@ + l + "), ("@ + r + "))"@,
        ArithmOp::Modulo => "mod(("@ + l + "), ("@ + r + "))"@,
    }
}

/// The SQL writing of an expression.
pub open spec fn math_sql(e: MathExpression<FnArg>) -> Seq<char>
    decreases e,
{
    match e {
        MathExpression::Primitif(p) => prim_sql(p),
        MathExpression::Negation(x) => "-("@ + math_sql(*x) + ")"@,
        MathExpression::Floor(x) => "floor("@ + math_sql(*x) + ")"@,
        MathExpression::Ceil(x) => "ceil("@ + math_sql(*x) + ")"@,
        MathExpression::Abs(x) => "abs("@ + math_sql(*x) + ")"@,
        MathExpression::Sqrt(x) => "sqrt("@ + math_sql(*x) + ")"@,
        MathExpression::BinOperation { left, op, right } => op_sql(op, math_sql(*left), math_sql(*right)),
    }
}

/// `|a - b|` as an SQL expression.
pub open spec fn abs_diff_sql(a: MathExpression<FnArg>, b: MathExpression<FnArg>) -> Seq<char> {
    "abs(("@ + math_sql(a) + ") - ("@ + math_sql(b) + "))"@
}

/// The SQL writing of a comparison. With a precision `eps`, `a = b` is
/// written `|a - b| < eps`, `a != b` is `|a - b| >= eps`, and `a >= b`
/// (`a <= b`) is `a > b` (`a < b`) or `a = b`.
pub open spec fn comparison_sql(c: Comparison<FnArg>) -> Seq<char> {
    match c {
        Comparison::Greater(a, b) => math_sql(a) + " > "@ + math_sql(b),
        Comparison::GreaterEqual(a, b, Some(eps)) =>
            "("@ + math_sql(a) + " > "@ + math_sql(b) + ") OR ("@ + abs_diff_sql(a, b) + " < "@ + eps@ + ")"@,
        Comparison::GreaterEqual(a, b, None) => math_sql(a) + " >= "@ + math_sql(b),
        Comparison::Less(a, b) => math_sql(a) + " < "@ + math_sql(b),
        Comparison::LessEqual(a, b, Some(eps)) =>
            "("@ + math_sql(a) + " < "@ + math_sql(b) + ") OR ("@ + abs_diff_sql(a, b) + " < "@ + eps@ + ")"@,
        Comparison::LessEqual(a, b, None) => math_sql(a) + " <= "@ + math_sql(b),
        Comparison::Equal(a, b, Some(eps)) => abs_diff_sql(a, b) + " < "@ + eps@,
        Comparison::Equal(a, b, None) => math_sql(a) + " = "@ + math_sql(b),
        Comparison::NotEqual(a, b, Some(eps)) => abs_diff_sql(a, b) + " >= "@ + eps@,
        Comparison::NotEqual(a, b, None) => math_sql(a) + " != "@ + math_sql(b),
    }
}

/// The SQL writing of a condition.
pub open spec fn cond_sql(c: Condition<FnArg>) -> Seq<char>
    decreases c,
{
    match c {
        Condition::Comparison(x) => comparison_sql(x),
        Condition::And(a, b) => "("@ + cond_sql(*a) + ") AND ("@ + cond_sql(*b) + ")"@,
        Condition::Or(a, b) => "("@ + cond_sql(*a) + ") OR ("@ + cond_sql(*b) + ")"@,
        Condition::Not(a) => "NOT ("@ + cond_sql(*a) + ")"@,
    }
}

/// A comparison is written in SQL as its left operand, the operator that
/// tests it, and its right operand: `>` for `a > b`, `>=` for `a >= b`, `<`
/// for `a < b`, `<=` for `a <= b`, `=` for `a = b` and `!=` for `a != b`.
/// With a precision `e`, `a = b` tests that the distance `abs((a) - (b))` is
/// below `e`, `a != b` that it is at least `e`, and `a >= b` (`a <= b`) is
/// `a > b` (`a < b`) or a distance below `e`.
pub proof fn law_comparison_sql(a: MathExpression<FnArg>, b: MathExpression<FnArg>, e: Numeric)
    ensures
        comparison_sql(Comparison::Greater(a, b)) == math_sql(a) + seq![' ', '>', ' '] + math_sql(b),
        comparison_sql(Comparison::GreaterEqual(a, b, None)) == math_sql(a) + seq![' ', '>', '=', ' '] + math_sql(b),
        comparison_sql(Comparison::Less(a, b)) == math_sql(a) + seq![' ', '<', ' '] + math_sql(b),
        comparison_sql(Comparison::LessEqual(a, b, None)) == math_sql(a) + seq![' ', '<', '=', ' '] + math_sql(b),
        comparison_sql(Comparison::Equal(a, b, None)) == math_sql(a) + seq![' ', '=', ' '] + math_sql(b),
        comparison_sql(Comparison::NotEqual(a, b, None)) == math_sql(a) + seq![' ', '!', '=', ' '] + math_sql(b),
        comparison_sql(Comparison::Equal(a, b, Some(e))) == distance_sql(a, b) + seq![' ', '<', ' '] + e@,
        comparison_sql(Comparison::NotEqual(a, b, Some(e))) == distance_sql(a, b) + seq![' ', '>', '=', ' '] + e@,
        comparison_sql(Comparison::GreaterEqual(a, b, Some(e))) == seq!['('] + math_sql(a) + seq![' ', '>', ' '] + math_sql(b)
            + seq![')', ' ', 'O', 'R', ' ', '('] + distance_sql(a, b) + seq![' ', '<', ' '] + e@ + seq![')'],
        comparison_sql(Comparison::LessEqual(a, b, Some(e))) == seq!['('] + math_sql(a) + seq![' ', '<', ' '] + math_sql(b)
            + seq![')', ' ', 'O', 'R', ' ', '('] + distance_sql(a, b) + seq![' ', '<', ' '] + e@ + seq![')'],
{
    reveal_strlit(" > ");
    reveal_strlit(" >= ");
    reveal_strlit(" < ");
    reveal_strlit(" <= ");
    reveal_strlit(" = ");
    reveal_strlit(" != ");
    reveal_strlit("(");
    reveal_strlit(") OR (");
    reveal_strlit(")");
    reveal_strlit("abs((");
    reveal_strlit(") - (");
    reveal_strlit("))");
    assert(" > "@ =~= seq![' ', '>', ' ']);
    assert(" >= "@ =~= seq![' ', '>', '=', ' ']);
    assert(" < "@ =~= seq![' ', '<', ' ']);
    assert(" <= "@ =~= seq![' ', '<', '=', ' ']);
    assert(" = "@ =~= seq![' ', '=', ' ']);
    assert(" != "@ =~= seq![' ', '!', '=', ' ']);
    assert("("@ =~= seq!['(']);
    assert(") OR ("@ =~= seq![')', ' ', 'O', 'R', ' ', '(']);
    assert(")"@ =~= seq![')']);
    assert("abs(("@ =~= seq!['a', 'b', 's', '(', '(']);
    assert(") - ("@ =~= seq![')', ' ', '-', ' ', '(']);
    assert("))"@ =~= seq![')', ')']);
    assert(abs_diff_sql(a, b) == distance_sql(a, b));
}

/// `abs((a) - (b))`: the distance between two expressions, in SQL.
pub open spec fn distance_sql(a: MathExpression<FnArg>, b: MathExpression<FnArg>) -> Seq<char> {
    seq!['a', 'b', 's', '(', '('] + math_sql(a) + seq![')', ' ', '-', ' ', '('] + math_sql(b) + seq![')', ')']
}

/// The conditions are written in SQL with the connective that combines
/// them: `AND` for `and`, `OR` for `or`, `NOT` for `not`, each operand
/// between brackets.
pub proof fn law_condition_sql(a: Condition<FnArg>, b: Condition<FnArg>)
    ensures
        cond_sql(Condition::And(Box::new(a), Box::new(b))) == seq!['('] + cond_sql(a) + seq![')', ' ', 'A', 'N', 'D', ' ', '(']
            + cond_sql(b) + seq![')'],
        cond_sql(Condition::Or(Box::new(a), Box::new(b))) == seq!['('] + cond_sql(a) + seq![')', ' ', 'O', 'R', ' ', '(']
            + cond_sql(b) + seq![')'],
        cond_sql(Condition::Not(Box::new(a))) == seq!['N', 'O', 'T', ' ', '('] + cond_sql(a) + seq![')'],
{
    reveal_strlit("(");
    reveal_strlit(") AND (");
    reveal_strlit(") OR (");
    reveal_strlit(")");
    reveal_strlit("NOT (");
    assert("("@ =~= seq!['(']);
    assert(") AND ("@ =~= seq![')', ' ', 'A', 'N', 'D', ' ', '(']);
    assert(") OR ("@ =~= seq![')', ' ', 'O', 'R', ' ', '(']);
    assert(")"@ =~= seq![')']);
    assert("NOT ("@ =~= seq!['N', 'O', 'T', ' ', '(']);
}

/// The SQL writing of a join.
pub open spec fn join_sql(j: JoinModel) -> Seq<char> {
    "JOIN "@ + j.table_name + " "@ + j.alias_name + " ON "@
        + join(Seq::new(j.on_cond.len(), |i: int| comparison_sql(j.on_cond[i])), " AND "@)
}

/// The joins of a query, each followed by a space.
pub open spec fn joins_sql(s: Seq<JoinModel>) -> Seq<char>
    decreases s.len(),
{
    if s.len() == 0 { Seq::empty() } else { joins_sql(s.drop_last()) + join_sql(s.last()) + " "@ }
}

pub open spec fn where_sql(w: WhereModel) -> Seq<char>
    decreases w, 1nat,
{
    match (w.condition, w.not_exists) {
        (Some(c), Some(q)) => cond_sql(c) + " AND NOT(EXISTS("@ + select_sql(*q) + "))"@,
        (Some(c), None) => cond_sql(c),
        (None, Some(q)) => "NOT(EXISTS("@ + select_sql(*q) + "))"@,
        (None, None) => Seq::empty(),
    }
}

pub open spec fn from_entry_sql(t: TableSelModel) -> Seq<char>
    decreases t, 1nat,
{
    (match t.table {
        TableModel::Query(q) => "("@ + select_sql(*q) + ")"@,
        TableModel::Name(n) => n,
    }) + (match t.rename_as {
        Some(a) => " as "@ + a,
        None => Seq::empty(),
    })
}

pub open spec fn from_entries_sql(s: Seq<TableSelModel>) -> Seq<Seq<char>>
    decreases s, 2nat,
{
    if s.len() == 0 {
        Seq::empty()
    } else {
        from_entries_sql(s.subrange(0, s.len() - 1)).push(from_entry_sql(s[s.len() - 1]))
    }
}

/// `LIMIT l [OFFSET s]`
pub open spec fn limit_sql(limit: Option<(Option<usize>, usize)>) -> Seq<char> {
    match limit {
        Some((start, l)) => " LIMIT "@ + dec(l as nat) + (match start {
            Some(s) => " OFFSET "@ + dec(s as nat),
            None => Seq::empty(),
        }),
        None => Seq::empty(),
    }
}

pub open spec fn group_by_sql(g: Seq<Seq<char>>) -> Seq<char> {
    if g.len() > 0 { " GROUP BY "@ + join(g, ", "@) } else { Seq::empty() }
}

pub open spec fn joins_part_sql(j: Seq<JoinModel>) -> Seq<char> {
    if j.len() > 0 { " "@ + joins_sql(j) } else { Seq::empty() }
}

pub open spec fn where_part_sql(w: Option<WhereModel>) -> Seq<char>
    decreases w, 2nat,
{
    match w {
        Some(w) => " WHERE "@ + where_sql(w),
        None => Seq::empty(),
    }
}

/// `SELECT [DISTINCT] columns FROM tables`
pub open spec fn select_head_sql(m: SelectModel) -> Seq<char>
    decreases m, 2nat,
{
    "SELECT "@ + (if m.distinct { "DISTINCT "@ } else { Seq::empty() })
        + join(Seq::new(m.select.len(), |i: int| math_sql(m.select[i])), ", "@)
        + " FROM "@ + join(from_entries_sql(m.from), ", "@)
}

/// The SQL writing of a select query (without a final `;`).
pub open spec fn select_sql(m: SelectModel) -> Seq<char>
    decreases m, 3nat,
{
    select_head_sql(m) + joins_part_sql(m.joins) + where_part_sql(m.where_clause)
        + group_by_sql(m.group_by) + limit_sql(m.limit)
}

// ______________________________ lemmas

pub proof fn lemma_join_step(pieces: Seq<Seq<char>>, sep: Seq<char>, i: int)
    requires
        1 <= i < pieces.len(),
    ensures
        join(pieces.take(i + 1), sep) == join(pieces.take(i), sep) + sep + pieces[i],
{
    assert(pieces.take(i + 1).drop_last() =~= pieces.take(i));
    assert(pieces.take(i + 1).last() == pieces[i]);
}

pub proof fn lemma_join_first(pieces: Seq<Seq<char>>, sep: Seq<char>)
    requires
        pieces.len() >= 1,
    ensures
        join(pieces.take(1), sep) == pieces[0],
{
}

pub proof fn lemma_from_models(s: Seq<SqlTableSelection>, n: nat)
    requires
        n <= s.len(),
    ensures
        from_models(s, n).len() == n,
        forall|i: int| 0 <= i < n ==> #[trigger] from_models(s, n)[i] == table_sel_model(s[i]),
    decreases n,
{
    if n > 0 {
        lemma_from_models(s, (n - 1) as nat);
    }
}

proof fn lemma_from_entries(s: Seq<TableSelModel>)
    ensures
        from_entries_sql(s).len() == s.len(),
        forall|i: int| 0 <= i < s.len() ==> #[trigger] from_entries_sql(s)[i] == from_entry_sql(s[i]),
    decreases s.len(),
{
    if s.len() > 0 {
        let t = s.subrange(0, s.len() - 1);
        lemma_from_entries(t);
        assert forall|i: int| 0 <= i < s.len() implies #[trigger] from_entries_sql(s)[i] == from_entry_sql(s[i]) by {
            if i < s.len() - 1 {
                assert(t[i] == s[i]);
            }
        }
    }
}

// ______________________________ translation, executable

/// Writes a constant in SQL.
pub fn translate_constant(constant: &ConstantValue) -> (r: String)
    requires
        !(*constant is Bool),
    ensures
        r@ == const_sql(*constant),
{
    match constant {
        ConstantValue::Numeric(num) => num.text(),
        ConstantValue::String(string) => {
            let mut r = String::from_str("'");
            r.append(string.as_str());
            r.append("'");
            r
        },
        ConstantValue::Identifier(id) => id.clone(),
        ConstantValue::Bool(_) => String::new(),
    }
}

fn prim_to_sql(p: &FnArg) -> (r: String)
    requires
        prim_ok(*p),
    ensures
        r@ == prim_sql(*p),
{
    match p {
        FnArg::FnCall(fn_ref) => {
            let mut r = fn_ref.0.clone();
            let n = usize_to_string(fn_ref.1);
            r.append(n.as_str());
            r.append(".");
            r.append(FUNCTION_OUTPUT_COL_NAME);
            r
        },
        FnArg::Constant(c) => translate_constant(c),
        FnArg::Dataset => {
            let mut r = String::from_str(CANONICAL_TABLE_NAME);
            r.append(".");
            r.append(PK_NAME);
            r
        },
    }
}

/// `pre(inner)post`
fn wrap(pre: &str, inner: String, post: &str) -> (r: String)
    ensures
        r@ == pre@ + inner@ + post@,
{
    let mut r = String::from_str(pre);
    r.append(inner.as_str());
    r.append(post);
    r
}

/// `pre(l)mid(r)post`
fn wrap2(pre: &str, l: String, mid: &str, r: String, post: &str) -> (o: String)
    ensures
        o@ == pre@ + l@ + mid@ + r@ + post@,
{
    let mut o = String::from_str(pre);
    o.append(l.as_str());
    o.append(mid);
    o.append(r.as_str());
    o.append(post);
    o
}

/// Writes an expression in SQL.
pub fn translate_math_expr(expr: &MathExpression<FnArg>) -> (r: String)
    requires
        expr_ok(*expr),
    ensures
        r@ == math_sql(*expr),
    decreases expr,
{
    match expr {
        MathExpression::Primitif(p) => prim_to_sql(p),
        MathExpression::Negation(x) => wrap("-(", translate_math_expr(x), ")"),
        MathExpression::Floor(x) => wrap("floor(", translate_math_expr(x), ")"),
        MathExpression::Ceil(x) => wrap("ceil(", translate_math_expr(x), ")"),
        MathExpression::Abs(x) => wrap("abs(", translate_math_expr(x), ")"),
        MathExpression::Sqrt(x) => wrap("sqrt(", translate_math_expr(x), ")"),
        MathExpression::BinOperation { left, op, right } => {
            let l = translate_math_expr(left);
            let r = translate_math_expr(right);
            match op {
                ArithmOp::Add => wrap2("(", l, ") + (", r, ")"),
                ArithmOp::Subtract => wrap2("(", l, ") - (", r, ")"),
                ArithmOp::Multiply => wrap2("(", l, ") * (", r, ")"),
                ArithmOp::Divide => wrap2("(", l, ") / (", r, ")"),
                ArithmOp::Power => wrap2("pow((", l, "), (", r, "))"),
                ArithmOp::Modulo => wrap2("mod((", l, "), (", r, "))"),
            }
        },
    }
}

fn abs_diff_to_sql(a: &MathExpression<FnArg>, b: &MathExpression<FnArg>) -> (r: String)
    requires
        expr_ok(*a),
        expr_ok(*b),
    ensures
        r@ == abs_diff_sql(*a, *b),
{
    wrap2("abs((", translate_math_expr(a), ") - (", translate_math_expr(b), "))")
}

impl Comparison<FnArg> {
    /// Writes this comparison in SQL.
    pub fn to_sql(&self) -> (r: String)
        requires
            comparison_ok(*self),
        ensures
            r@ == comparison_sql(*self),
    {
        proof {
            reveal_strlit("");
        }
        match self {
            Comparison::Greater(a, b) => wrap2("", translate_math_expr(a), " > ", translate_math_expr(b), ""),
            Comparison::GreaterEqual(a, b, Some(eps)) => {
                let first = wrap2("(", translate_math_expr(a), " > ", translate_math_expr(b), ") OR (");
                append3(append3(first, "", abs_diff_to_sql(a, b), ""), " < ", eps.text(), ")")
            },
            Comparison::GreaterEqual(a, b, None) => wrap2("", translate_math_expr(a), " >= ", translate_math_expr(b), ""),
            Comparison::Less(a, b) => wrap2("", translate_math_expr(a), " < ", translate_math_expr(b), ""),
            Comparison::LessEqual(a, b, Some(eps)) => {
                let first = wrap2("(", translate_math_expr(a), " < ", translate_math_expr(b), ") OR (");
                append3(append3(first, "", abs_diff_to_sql(a, b), ""), " < ", eps.text(), ")")
            },
            Comparison::LessEqual(a, b, None) => wrap2("", translate_math_expr(a), " <= ", translate_math_expr(b), ""),
            Comparison::Equal(a, b, Some(eps)) => wrap2("", abs_diff_to_sql(a, b), " < ", eps.text(), ""),
            Comparison::Equal(a, b, None) => wrap2("", translate_math_expr(a), " = ", translate_math_expr(b), ""),
            Comparison::NotEqual(a, b, Some(eps)) => wrap2("", abs_diff_to_sql(a, b), " >= ", eps.text(), ""),
            Comparison::NotEqual(a, b, None) => wrap2("", translate_math_expr(a), " != ", translate_math_expr(b), ""),
        }
    }
}

/// `s` followed by `mid`, `x` and `post`.
fn append3(s: String, mid: &str, x: String, post: &str) -> (r: String)
    ensures
        r@ == s@ + mid@ + x@ + post@,
{
    let mut r = s;
    r.append(mid);
    r.append(x.as_str());
    r.append(post);
    r
}

impl Condition<FnArg> {
    /// Writes this condition in SQL.
    pub fn to_sql(&self) -> (r: String)
        requires
            cond_ok(*self),
        ensures
            r@ == cond_sql(*self),
        decreases self,
    {
        match self {
            Condition::Comparison(c) => c.to_sql(),
            Condition::And(a, b) => wrap2("(", (&**a).to_sql(), ") AND (", (&**b).to_sql(), ")"),
            Condition::Or(a, b) => wrap2("(", (&**a).to_sql(), ") OR (", (&**b).to_sql(), ")"),
            Condition::Not(a) => wrap("NOT (", (&**a).to_sql(), ")"),
        }
    }
}


fn select_list_sql(v: &Vec<MathExpression<FnArg>>) -> (r: String)
    requires
        forall|i: int| 0 <= i < v@.len() ==> expr_ok(#[trigger] v@[i]),
    ensures
        r@ == join(Seq::new(v@.len(), |i: int| math_sql(v@[i])), ", "@),
{
    let ghost pieces = Seq::new(v@.len(), |i: int| math_sql(v@[i]));
    let mut r = String::new();
    let mut i: usize = 0;
    while i < v.len()
        invariant
            i <= v@.len(),
            pieces == Seq::new(v@.len(), |i: int| math_sql(v@[i])),
            forall|i: int| 0 <= i < v@.len() ==> expr_ok(#[trigger] v@[i]),
            r@ == join(pieces.take(i as int), ", "@),
        decreases v.len() - i,
    {
        let x = translate_math_expr(&v[i]);
        proof {
            if i >= 1 {
                lemma_join_step(pieces, ", "@, i as int);
            } else {
                lemma_join_first(pieces, ", "@);
                assert(r@ =~= Seq::<char>::empty());
            }
        }
        if i >= 1 {
            r.append(", ");
        }
        r.append(x.as_str());
        i += 1;
    }
    assert(pieces.take(v@.len() as int) =~= pieces);
    r
}

fn comparisons_sql_list(v: &Vec<Comparison<FnArg>>) -> (r: String)
    requires
        forall|i: int| 0 <= i < v@.len() ==> comparison_ok(#[trigger] v@[i]),
    ensures
        r@ == join(Seq::new(v@.len(), |i: int| comparison_sql(v@[i])), " AND "@),
{
    let ghost pieces = Seq::new(v@.len(), |i: int| comparison_sql(v@[i]));
    let mut r = String::new();
    let mut i: usize = 0;
    while i < v.len()
        invariant
            i <= v@.len(),
            pieces == Seq::new(v@.len(), |i: int| comparison_sql(v@[i])),
            forall|i: int| 0 <= i < v@.len() ==> comparison_ok(#[trigger] v@[i]),
            r@ == join(pieces.take(i as int), " AND "@),
        decreases v.len() - i,
    {
        let x = v[i].to_sql();
        proof {
            if i >= 1 {
                lemma_join_step(pieces, " AND "@, i as int);
            } else {
                lemma_join_first(pieces, " AND "@);
                assert(r@ =~= Seq::<char>::empty());
            }
        }
        if i >= 1 {
            r.append(" AND ");
        }
        r.append(x.as_str());
        i += 1;
    }
    assert(pieces.take(v@.len() as int) =~= pieces);
    r
}

fn names_list_sql(v: &Vec<String>) -> (r: String)
    ensures
        r@ == join(Seq::new(v@.len(), |i: int| v@[i]@), ", "@),
{
    let ghost pieces = Seq::new(v@.len(), |i: int| v@[i]@);
    let mut r = String::new();
    let mut i: usize = 0;
    while i < v.len()
        invariant
            i <= v@.len(),
            pieces == Seq::new(v@.len(), |i: int| v@[i]@),
            r@ == join(pieces.take(i as int), ", "@),
        decreases v.len() - i,
    {
        proof {
            if i >= 1 {
                lemma_join_step(pieces, ", "@, i as int);
            } else {
                lemma_join_first(pieces, ", "@);
                assert(r@ =~= Seq::<char>::empty());
            }
        }
        if i >= 1 {
            r.append(", ");
        }
        r.append(v[i].as_str());
        i += 1;
    }
    assert(pieces.take(v@.len() as int) =~= pieces);
    r
}

impl SqlJoin {
    pub fn new(table_name: String, alias_name: String, on_cond: Vec<Comparison<FnArg>>) -> (r: Self)
        ensures
            r == (SqlJoin { table_name, alias_name, on_cond }),
    {
        SqlJoin { table_name, alias_name, on_cond }
    }

    /// Writes this join in SQL.
    pub fn to_sql(&self) -> (r: String)
        requires
            join_ok(join_model(*self)),
        ensures
            r@ == join_sql(join_model(*self)),
    {
        let on = comparisons_sql_list(&self.on_cond);
        let mut r = String::from_str("JOIN ");
        r.append(self.table_name.as_str());
        r.append(" ");
        r.append(self.alias_name.as_str());
        r.append(" ON ");
        r.append(on.as_str());
        r
    }
}

pub open spec fn where_ok(w: WhereModel) -> bool {
    (match w.condition { Some(c) => cond_ok(c), None => true })
        && (match w.not_exists { Some(q) => select_ok(*q), None => true })
}

impl SqlWhereClause {
    /// Writes this where clause in SQL.
    pub fn to_sql(&self) -> (r: String)
        requires
            where_ok(where_model(*self)),
        ensures
            r@ == where_sql(where_model(*self)),
        decreases self, 0nat,
    {
        match (&self.condition, &self.not_exists) {
            (Some(c), Some(q)) => {
                let sub = (&**q).to_sql();
                append3(c.to_sql(), " AND NOT(EXISTS(", sub, "))")
            },
            (Some(c), None) => c.to_sql(),
            (None, Some(q)) => wrap("NOT(EXISTS(", (&**q).to_sql(), "))"),
            (None, None) => String::new(),
        }
    }
}

impl SqlTableSelection {
    /// Writes this entry of a `FROM` clause in SQL.
    fn entry_sql(&self) -> (r: String)
        requires
            table_ok(table_sel_model(*self).table),
        ensures
            r@ == from_entry_sql(table_sel_model(*self)),
        decreases self, 0nat,
    {
        let mut r = match &self.selected_table {
            SqlTable::SqlQuery(q) => wrap("(", q.to_sql(), ")"),
            SqlTable::TableName(name) => name.clone(),
        };
        match &self.rename_as {
            Some(alias) => {
                r.append(" as ");
                r.append(alias.as_str());
            },
            None => {},
        }
        r
    }
}

fn from_list_sql(v: &Vec<SqlTableSelection>) -> (r: String)
    requires
        forall|i: int| 0 <= i < v@.len() ==> table_ok(#[trigger] table_sel_model(v@[i]).table),
    ensures
        r@ == join(from_entries_sql(from_models(v@, v@.len())), ", "@),
    decreases v, 0nat,
{
    proof {
        lemma_from_models(v@, v@.len());
        lemma_from_entries(from_models(v@, v@.len()));
    }
    let ghost pieces = from_entries_sql(from_models(v@, v@.len()));
    let mut r = String::new();
    let mut i: usize = 0;
    while i < v.len()
        invariant
            i <= v@.len(),
            pieces == from_entries_sql(from_models(v@, v@.len())),
            pieces.len() == v@.len(),
            forall|i: int| 0 <= i < v@.len() ==> #[trigger] pieces[i] == from_entry_sql(table_sel_model(v@[i])),
            forall|i: int| 0 <= i < v@.len() ==> table_ok(#[trigger] table_sel_model(v@[i]).table),
            r@ == join(pieces.take(i as int), ", "@),
        decreases v.len() - i,
    {
        proof {
            assert(decreases_to!(v => v@));
            assert(decreases_to!(v@ => v@[i as int]));
        }
        let x = v[i].entry_sql();
        proof {
            if i >= 1 {
                lemma_join_step(pieces, ", "@, i as int);
            } else {
                lemma_join_first(pieces, ", "@);
                assert(r@ =~= Seq::<char>::empty());
            }
        }
        if i >= 1 {
            r.append(", ");
        }
        r.append(x.as_str());
        i += 1;
    }
    assert(pieces.take(v@.len() as int) =~= pieces);
    r
}

fn joins_list_sql(v: &Vec<SqlJoin>) -> (r: String)
    requires
        forall|i: int| 0 <= i < v@.len() ==> join_ok(join_model(#[trigger] v@[i])),
    ensures
        r@ == joins_sql(Seq::new(v@.len(), |i: int| join_model(v@[i]))),
{
    let ghost ms = Seq::new(v@.len(), |i: int| join_model(v@[i]));
    let mut r = String::new();
    let mut i: usize = 0;
    while i < v.len()
        invariant
            i <= v@.len(),
            ms == Seq::new(v@.len(), |i: int| join_model(v@[i])),
            forall|i: int| 0 <= i < v@.len() ==> join_ok(join_model(#[trigger] v@[i])),
            r@ == joins_sql(ms.take(i as int)),
        decreases v.len() - i,
    {
        let x = v[i].to_sql();
        r.append(x.as_str());
        r.append(" ");
        proof {
            assert(ms.take(i + 1).drop_last() =~= ms.take(i as int));
        }
        i += 1;
    }
    assert(ms.take(v@.len() as int) =~= ms);
    r
}

fn limit_to_sql(limit: &Option<(Option<usize>, usize)>) -> (r: String)
    ensures
        r@ == limit_sql(*limit),
{
    let mut r = String::new();
    match limit {
        Some((start, l)) => {
            r.append(" LIMIT ");
            let ls = usize_to_string(*l);
            r.append(ls.as_str());
            match start {
                Some(st) => {
                    r.append(" OFFSET ");
                    let so = usize_to_string(*st);
                    r.append(so.as_str());
                },
                None => {},
            }
        },
        None => {},
    }
    r
}

fn group_by_to_sql(g: &Vec<String>) -> (r: String)
    ensures
        r@ == group_by_sql(Seq::new(g@.len(), |i: int| g@[i]@)),
{
    proof {
        reveal_strlit("");
    }
    if g.len() > 0 {
        let names = names_list_sql(g);
        wrap(" GROUP BY ", names, "")
    } else {
        String::new()
    }
}

fn joins_part_to_sql(v: &Vec<SqlJoin>) -> (r: String)
    requires
        forall|i: int| 0 <= i < v@.len() ==> join_ok(join_model(#[trigger] v@[i])),
    ensures
        r@ == joins_part_sql(Seq::new(v@.len(), |i: int| join_model(v@[i]))),
{
    proof {
        reveal_strlit("");
    }
    if v.len() > 0 {
        wrap(" ", joins_list_sql(v), "")
    } else {
        String::new()
    }
}

impl SqlSelectQuery {
    fn head_to_sql(&self) -> (r: String)
        requires
            select_ok(select_model(*self)),
        ensures
            r@ == select_head_sql(select_model(*self)),
        decreases self, 0nat,
    {
        let ghost m = select_model(*self);
        proof {
            lemma_from_models(self.from@, self.from@.len());
            assert forall|i: int| 0 <= i < self.from@.len() implies table_ok(#[trigger] table_sel_model(self.from@[i]).table) by {
                assert(m.from[i] == table_sel_model(self.from@[i]));
            }
        }
        let mut r = String::from_str("SELECT ");
        if self.distinct {
            r.append("DISTINCT ");
        }
        let cols = select_list_sql(&self.select);
        r.append(cols.as_str());
        r.append(" FROM ");
        let from = from_list_sql(&self.from);
        r.append(from.as_str());
        proof {
            reveal_strlit("");
        }
        r
    }

    fn where_part_to_sql(&self) -> (r: String)
        requires
            select_ok(select_model(*self)),
        ensures
            r@ == where_part_sql(select_model(*self).where_clause),
        decreases self, 0nat,
    {
        proof {
            reveal_strlit("");
        }
        match &self.where_clause {
            Some(w) => wrap(" WHERE ", w.to_sql(), ""),
            None => String::new(),
        }
    }

    /// Writes this query in SQL. No `;` is put at the end, so that queries
    /// can be nested.
    pub fn to_sql(&self) -> (r: String)
        requires
            select_ok(select_model(*self)),
        ensures
            r@ == select_sql(select_model(*self)),
        decreases self, 1nat,
    {
        let ghost m = select_model(*self);
        proof {
            assert forall|i: int| 0 <= i < self.joins@.len() implies join_ok(join_model(#[trigger] self.joins@[i])) by {
                assert(m.joins[i] == join_model(self.joins@[i]));
            }
            reveal_strlit("");
        }
        let head = self.head_to_sql();
        let js = joins_part_to_sql(&self.joins);
        let ws = self.where_part_to_sql();
        let gs = group_by_to_sql(&self.group_by);
        let ls = limit_to_sql(&self.limit);
        let mut r = head;
        r.append(js.as_str());
        r.append(ws.as_str());
        r.append(gs.as_str());
        r.append(ls.as_str());
        proof {
            assert(m.joins =~= Seq::new(self.joins@.len(), |i: int| join_model(self.joins@[i])));
            assert(m.group_by =~= Seq::new(self.group_by@.len(), |i: int| self.group_by@[i]@));
        }
        r
    }
}

// ______________________________ whether a query can be written

/// Whether the expression can be written in SQL: it holds no boolean constant.
pub fn expr_writable(e: &MathExpression<FnArg>) -> (r: bool)
    ensures
        r == expr_ok(*e),
    decreases e,
{
    match e {
        MathExpression::Primitif(p) => !matches!(p, FnArg::Constant(ConstantValue::Bool(_))),
        MathExpression::Negation(x) => expr_writable(x),
        MathExpression::Floor(x) => expr_writable(x),
        MathExpression::Ceil(x) => expr_writable(x),
        MathExpression::Abs(x) => expr_writable(x),
        MathExpression::Sqrt(x) => expr_writable(x),
        MathExpression::BinOperation { left, right, .. } => expr_writable(left) && expr_writable(right),
    }
}

/// Whether the comparison can be written in SQL.
pub fn comparison_writable(c: &Comparison<FnArg>) -> (r: bool)
    ensures
        r == comparison_ok(*c),
{
    let (l, r) = c.get_left_right_expr();
    expr_writable(l) && expr_writable(r)
}

/// Whether the condition can be written in SQL.
pub fn cond_writable(c: &Condition<FnArg>) -> (r: bool)
    ensures
        r == cond_ok(*c),
    decreases c,
{
    match c {
        Condition::Comparison(x) => comparison_writable(x),
        Condition::And(a, b) => cond_writable(a) && cond_writable(b),
        Condition::Or(a, b) => cond_writable(a) && cond_writable(b),
        Condition::Not(a) => cond_writable(a),
    }
}

fn join_writable(j: &SqlJoin) -> (r: bool)
    ensures
        r == join_ok(join_model(*j)),
{
    let mut i: usize = 0;
    while i < j.on_cond.len()
        invariant
            i <= j.on_cond@.len(),
            forall|k: int| 0 <= k < i ==> comparison_ok(#[trigger] j.on_cond@[k]),
        decreases j.on_cond.len() - i,
    {
        if !comparison_writable(&j.on_cond[i]) {
            assert(join_model(*j).on_cond[i as int] == j.on_cond@[i as int]);
            return false;
        }
        i += 1;
    }
    true
}

impl SqlTableSelection {
    fn entry_writable(&self) -> (r: bool)
        ensures
            r == table_ok(table_sel_model(*self).table),
        decreases self, 0nat,
    {
        match &self.selected_table {
            SqlTable::SqlQuery(q) => q.is_writable(),
            SqlTable::TableName(_) => true,
        }
    }
}

fn from_writable(v: &Vec<SqlTableSelection>) -> (r: bool)
    ensures
        r == (forall|i: int| 0 <= i < v@.len() ==> table_ok(#[trigger] table_sel_model(v@[i]).table)),
    decreases v, 0nat,
{
    let mut i: usize = 0;
    while i < v.len()
        invariant
            i <= v@.len(),
            forall|k: int| 0 <= k < i ==> table_ok(#[trigger] table_sel_model(v@[k]).table),
        decreases v.len() - i,
    {
        proof {
            assert(decreases_to!(v => v@));
            assert(decreases_to!(v@ => v@[i as int]));
        }
        if !v[i].entry_writable() {
            return false;
        }
        i += 1;
    }
    true
}

impl SqlWhereClause {
    fn where_writable(&self) -> (r: bool)
        ensures
            r == where_ok(where_model(*self)),
        decreases self, 0nat,
    {
        let c = match &self.condition {
            Some(c) => cond_writable(c),
            None => true,
        };
        let q = match &self.not_exists {
            Some(q) => (&**q).is_writable(),
            None => true,
        };
        c && q
    }
}

impl SqlSelectQuery {
    /// Whether the query can be written in SQL (see [`SqlSelectQuery::to_sql`]):
    /// it and each query it holds select at least one column, and none holds a
    /// boolean constant.
    pub fn is_writable(&self) -> (r: bool)
        ensures
            r == select_ok(select_model(*self)),
        decreases self, 1nat,
    {
        let ghost m = select_model(*self);
        proof {
            lemma_from_models(self.from@, self.from@.len());
        }
        if self.select.len() == 0 {
            return false;
        }
        let mut i: usize = 0;
        while i < self.select.len()
            invariant
                i <= self.select@.len(),
                forall|k: int| 0 <= k < i ==> expr_ok(#[trigger] self.select@[k]),
            decreases self.select.len() - i,
        {
            if !expr_writable(&self.select[i]) {
                return false;
            }
            i += 1;
        }
        let from_ok = from_writable(&self.from);
        proof {
            assert(from_ok == (forall|k: int| 0 <= k < m.from.len() ==> table_ok(#[trigger] m.from[k].table))) by {
                if from_ok {
                    assert forall|k: int| 0 <= k < m.from.len() implies table_ok(#[trigger] m.from[k].table) by {
                        assert(m.from[k] == table_sel_model(self.from@[k]));
                    }
                } else {
                    let k = choose|k: int| 0 <= k < self.from@.len() && !table_ok(#[trigger] table_sel_model(self.from@[k]).table);
                    assert(m.from[k] == table_sel_model(self.from@[k]));
                }
            }
        }
        if !from_ok {
            return false;
        }
        let mut j: usize = 0;
        while j < self.joins.len()
            invariant
                j <= self.joins@.len(),
                m == select_model(*self),
                forall|k: int| 0 <= k < j ==> join_ok(join_model(#[trigger] self.joins@[k])),
            decreases self.joins.len() - j,
        {
            if !join_writable(&self.joins[j]) {
                proof {
                    assert(m.joins[j as int] == join_model(self.joins@[j as int]));
                }
                return false;
            }
            j += 1;
        }
        proof {
            assert forall|k: int| 0 <= k < m.joins.len() implies join_ok(#[trigger] m.joins[k]) by {
                assert(m.joins[k] == join_model(self.joins@[k]));
            }
        }
        match &self.where_clause {
            Some(w) => w.where_writable(),
            None => true,
        }
    }
}

// ______________________________ copies

pub fn copy_comparisons(v: &Vec<Comparison<FnArg>>) -> (r: Vec<Comparison<FnArg>>)
    ensures
        r@ == v@,
{
    let mut r: Vec<Comparison<FnArg>> = Vec::new();
    let mut i: usize = 0;
    while i < v.len()
        invariant
            i <= v@.len(),
            r@ == v@.take(i as int),
        decreases v.len() - i,
    {
        r.push(v[i].deep_copy());
        i += 1;
        assert(r@ =~= v@.take(i as int));
    }
    assert(v@.take(v@.len() as int) =~= v@);
    r
}

pub fn copy_exprs(v: &Vec<MathExpression<FnArg>>) -> (r: Vec<MathExpression<FnArg>>)
    ensures
        r@ == v@,
{
    let mut r: Vec<MathExpression<FnArg>> = Vec::new();
    let mut i: usize = 0;
    while i < v.len()
        invariant
            i <= v@.len(),
            r@ == v@.take(i as int),
        decreases v.len() - i,
    {
        r.push(v[i].deep_copy());
        i += 1;
        assert(r@ =~= v@.take(i as int));
    }
    assert(v@.take(v@.len() as int) =~= v@);
    r
}

pub fn copy_strings(v: &Vec<String>) -> (r: Vec<String>)
    ensures
        r@ == v@,
{
    let mut r: Vec<String> = Vec::new();
    let mut i: usize = 0;
    while i < v.len()
        invariant
            i <= v@.len(),
            r@ == v@.take(i as int),
        decreases v.len() - i,
    {
        r.push(v[i].clone());
        i += 1;
        assert(r@ =~= v@.take(i as int));
    }
    assert(v@.take(v@.len() as int) =~= v@);
    r
}

fn copy_option_string(o: &Option<String>) -> (r: Option<String>)
    ensures
        r == *o,
{
    match o {
        Some(s) => Some(s.clone()),
        None => None,
    }
}

impl SqlJoin {
    pub fn copy(&self) -> (r: SqlJoin)
        ensures
            join_model(r) == join_model(*self),
    {
        SqlJoin {
            table_name: self.table_name.clone(),
            alias_name: self.alias_name.clone(),
            on_cond: copy_comparisons(&self.on_cond),
        }
    }
}

fn copy_joins(v: &Vec<SqlJoin>) -> (r: Vec<SqlJoin>)
    ensures
        r@.len() == v@.len(),
        forall|i: int| 0 <= i < v@.len() ==> join_model(#[trigger] r@[i]) == join_model(v@[i]),
{
    let mut r: Vec<SqlJoin> = Vec::new();
    let mut i: usize = 0;
    while i < v.len()
        invariant
            i <= v@.len(),
            r@.len() == i,
            forall|k: int| 0 <= k < i ==> join_model(#[trigger] r@[k]) == join_model(v@[k]),
        decreases v.len() - i,
    {
        r.push(v[i].copy());
        i += 1;
    }
    r
}

impl SqlTableSelection {
    pub fn copy(&self) -> (r: SqlTableSelection)
        ensures
            table_sel_model(r) == table_sel_model(*self),
        decreases self, 0nat,
    {
        let t = match &self.selected_table {
            SqlTable::SqlQuery(q) => SqlTable::SqlQuery(q.copy()),
            SqlTable::TableName(n) => SqlTable::TableName(n.clone()),
        };
        SqlTableSelection { selected_table: t, rename_as: copy_option_string(&self.rename_as) }
    }
}

fn copy_from(v: &Vec<SqlTableSelection>) -> (r: Vec<SqlTableSelection>)
    ensures
        from_models(r@, r@.len()) == from_models(v@, v@.len()),
    decreases v, 0nat,
{
    let mut r: Vec<SqlTableSelection> = Vec::new();
    let mut i: usize = 0;
    while i < v.len()
        invariant
            i <= v@.len(),
            r@.len() == i,
            forall|k: int| 0 <= k < i ==> table_sel_model(#[trigger] r@[k]) == table_sel_model(v@[k]),
        decreases v.len() - i,
    {
        proof {
            assert(decreases_to!(v => v@));
            assert(decreases_to!(v@ => v@[i as int]));
        }
        r.push(v[i].copy());
        i += 1;
    }
    proof {
        lemma_from_models(r@, r@.len());
        lemma_from_models(v@, v@.len());
        assert(from_models(r@, r@.len()) =~= from_models(v@, v@.len()));
    }
    r
}

impl SqlWhereClause {
    pub fn copy(&self) -> (r: SqlWhereClause)
        ensures
            where_model(r) == where_model(*self),
        decreases self, 0nat,
    {
        SqlWhereClause {
            not_exists: match &self.not_exists {
                Some(q) => Some(Box::new((&**q).copy())),
                None => None,
            },
            condition: match &self.condition {
                Some(c) => Some(c.deep_copy()),
                None => None,
            },
        }
    }
}

impl SqlSelectQuery {
    /// A copy of this query, with the same model.
    pub fn copy(&self) -> (r: SqlSelectQuery)
        ensures
            select_model(r) == select_model(*self),
        decreases self, 1nat,
    {
        let joins = copy_joins(&self.joins);
        let group_by = copy_strings(&self.group_by);
        let r = SqlSelectQuery {
            select: copy_exprs(&self.select),
            distinct: self.distinct,
            from: copy_from(&self.from),
            joins,
            where_clause: match &self.where_clause {
                Some(w) => Some(w.copy()),
                None => None,
            },
            group_by,
            limit: self.limit,
        };
        proof {
            assert(select_model(r).joins =~= select_model(*self).joins);
            assert(select_model(r).group_by =~= select_model(*self).group_by);
        }
        r
    }
}

// ______________________________ building queries

impl SqlWhereClause {
    /// The where clause holding only the given condition.
    pub fn from_condition(cond: Condition<FnArg>) -> (r: Self)
        ensures
            r.condition == Some(cond),
            r.not_exists is None,
    {
        SqlWhereClause { condition: Some(cond), not_exists: None }
    }

    /// The where clause holding only a *not exists* sub-query.
    pub fn not_exists(query: SqlSelectQuery) -> (r: Self)
        ensures
            r.condition is None,
            r.not_exists == Some(Box::new(query)),
    {
        SqlWhereClause { not_exists: Some(Box::new(query)), condition: None }
    }

    /// Sets the *not exists* sub-query of this clause, replacing any previous one.
    pub fn set_not_exists(&mut self, query: SqlSelectQuery)
        ensures
            final(self).condition == old(self).condition,
            final(self).not_exists == Some(Box::new(query)),
    {
        self.not_exists = Some(Box::new(query));
    }
}

impl SqlTableSelection {
    /// Selects a table, without renaming it.
    pub fn new(table: SqlTable) -> (r: Self)
        ensures
            r == (SqlTableSelection { selected_table: table, rename_as: None }),
    {
        SqlTableSelection { selected_table: table, rename_as: None }
    }

    /// Selects a table and renames it.
    pub fn new_rename(table: SqlTable, new_name: String) -> (r: Self)
        ensures
            r == (SqlTableSelection { selected_table: table, rename_as: Some(new_name) }),
    {
        SqlTableSelection { selected_table: table, rename_as: Some(new_name) }
    }

    /// Selects the table with the given name.
    pub fn named(name: String) -> (r: Self)
        ensures
            r == (SqlTableSelection { selected_table: SqlTable::TableName(name), rename_as: None }),
    {
        SqlTableSelection { selected_table: SqlTable::TableName(name), rename_as: None }
    }
}

/// The model of a query selecting the given columns from one table.
pub open spec fn columns_from_model(columns: Seq<MathExpression<FnArg>>, table: TableSelModel) -> SelectModel {
    SelectModel {
        select: columns,
        distinct: false,
        from: seq![table],
        joins: Seq::empty(),
        where_clause: None,
        group_by: Seq::empty(),
        limit: None,
    }
}

/// The column named `name`, as an expression.
pub open spec fn column(name: Seq<char>) -> MathExpression<FnArg> {
    MathExpression::Primitif(FnArg::Constant(ConstantValue::Identifier(string_named(name))))
}

/// The string whose characters are `s`.
pub open spec fn string_named(s: Seq<char>) -> String {
    choose|t: String| t@ == s
}

/// The condition that an `and` with `extra` gives, from the previous condition.
pub open spec fn and_condition(prev: Option<Condition<FnArg>>, extra: Condition<FnArg>) -> Condition<FnArg> {
    match prev {
        Some(c) => Condition::And(Box::new(c), Box::new(extra)),
        None => extra,
    }
}

impl SqlSelectQuery {
    /// Selects the given columns from the given table.
    pub fn select_columns_from_table(columns: Vec<MathExpression<FnArg>>, table: SqlTableSelection) -> (r: Self)
        ensures
            select_model(r) == columns_from_model(columns@, table_sel_model(table)),
    {
        let mut from: Vec<SqlTableSelection> = Vec::new();
        from.push(table);
        let r = SqlSelectQuery {
            select: columns,
            distinct: false,
            from,
            joins: Vec::new(),
            where_clause: None,
            group_by: Vec::new(),
            limit: None,
        };
        proof {
            lemma_from_models(r.from@, 1);
            assert(r.from@[0] == table);
            assert(select_model(r).from =~= seq![table_sel_model(table)]);
            assert(select_model(r).joins =~= Seq::<JoinModel>::empty());
            assert(select_model(r).group_by =~= Seq::<Seq<char>>::empty());
        }
        r
    }

    /// Selects the column named `column_name` from the given table.
    pub fn select_column_from_table(column_name: String, table: SqlTableSelection) -> (r: Self)
        ensures
            select_model(r) == columns_from_model(
                seq![MathExpression::Primitif(FnArg::Constant(ConstantValue::Identifier(column_name)))],
                table_sel_model(table),
            ),
    {
        let mut cols: Vec<MathExpression<FnArg>> = Vec::new();
        cols.push(MathExpression::Primitif(FnArg::Constant(ConstantValue::Identifier(column_name))));
        proof {
            assert(cols@ =~= seq![MathExpression::Primitif(FnArg::Constant(ConstantValue::Identifier(column_name)))]);
        }
        Self::select_columns_from_table(cols, table)
    }

    /// Selects every row of the given table: `SELECT * FROM table`.
    pub fn select_all_from_table(table: SqlTableSelection) -> (r: Self)
        ensures
            select_model(r).select.len() == 1,
            select_model(r).select[0] matches MathExpression::Primitif(FnArg::Constant(ConstantValue::Identifier(c)))
                && c@ == "*"@,
            select_model(r) == columns_from_model(select_model(r).select, table_sel_model(table)),
    {
        Self::select_column_from_table(String::from_str("*"), table)
    }

    /// Counts the rows of the given table: `SELECT COUNT(*) FROM table`.
    pub fn select_count_all_from_table(table: SqlTableSelection) -> (r: Self)
        ensures
            select_model(r).select.len() == 1,
            select_model(r).select[0] matches MathExpression::Primitif(FnArg::Constant(ConstantValue::Identifier(c)))
                && c@ == "COUNT(*)"@,
            select_model(r) == columns_from_model(select_model(r).select, table_sel_model(table)),
    {
        Self::select_column_from_table(String::from_str("COUNT(*)"), table)
    }

    /// The same query with the given where clause, replacing any previous one.
    pub fn set_where_clause(self, where_clause: SqlWhereClause) -> (r: Self)
        ensures
            select_model(r) == (SelectModel { where_clause: Some(where_model(where_clause)), ..select_model(self) }),
    {
        let mut q = self;
        q.where_clause = Some(where_clause);
        proof {
            assert(select_model(q).joins =~= select_model(self).joins);
            assert(select_model(q).group_by =~= select_model(self).group_by);
        }
        q
    }

    /// Selects only the given column, keeping the rest of the query.
    pub fn set_col_selection(&mut self, column_name: String)
        ensures
            select_model(*final(self)) == (SelectModel {
                select: seq![MathExpression::Primitif(FnArg::Constant(ConstantValue::Identifier(column_name)))],
                ..select_model(*old(self))
            }),
    {
        let mut cols: Vec<MathExpression<FnArg>> = Vec::new();
        cols.push(MathExpression::Primitif(FnArg::Constant(ConstantValue::Identifier(column_name))));
        self.select = cols;
        proof {
            assert(select_model(*self).select =~= seq![MathExpression::Primitif(FnArg::Constant(ConstantValue::Identifier(column_name)))]);
            assert(select_model(*self).joins =~= select_model(*old(self)).joins);
            assert(select_model(*self).group_by =~= select_model(*old(self)).group_by);
        }
    }

    pub fn set_distinct_values(&mut self, value: bool)
        ensures
            select_model(*final(self)) == (SelectModel { distinct: value, ..select_model(*old(self)) }),
    {
        self.distinct = value;
        proof {
            assert(select_model(*self).joins =~= select_model(*old(self)).joins);
            assert(select_model(*self).group_by =~= select_model(*old(self)).group_by);
        }
    }

    /// Puts the previous condition and the given one in an `and`, keeping the
    /// *not exists* sub-query; with no previous condition the given one is used.
    pub fn add_and(&mut self, additional_cond: Condition<FnArg>)
        ensures
            select_model(*final(self)) == (SelectModel {
                where_clause: Some(match select_model(*old(self)).where_clause {
                    Some(w) => WhereModel { condition: Some(and_condition(w.condition, additional_cond)), ..w },
                    None => WhereModel { not_exists: None, condition: Some(additional_cond) },
                }),
                ..select_model(*old(self))
            }),
    {
        let w = match self.where_clause.take() {
            Some(w) => {
                let cond = match w.condition {
                    Some(c) => Condition::and(c, additional_cond),
                    None => additional_cond,
                };
                SqlWhereClause { not_exists: w.not_exists, condition: Some(cond) }
            },
            None => SqlWhereClause { not_exists: None, condition: Some(additional_cond) },
        };
        self.where_clause = Some(w);
        proof {
            assert(select_model(*self).joins =~= select_model(*old(self)).joins);
            assert(select_model(*self).group_by =~= select_model(*old(self)).group_by);
        }
    }

    /// Adds a table to the `FROM` clause.
    pub fn add_table(&mut self, table: SqlTableSelection)
        ensures
            select_model(*final(self)) == (SelectModel {
                from: select_model(*old(self)).from.push(table_sel_model(table)),
                ..select_model(*old(self))
            }),
    {
        self.from.push(table);
        proof {
            lemma_from_models(self.from@, self.from@.len());
            lemma_from_models(old(self).from@, old(self).from@.len());
            assert(select_model(*self).from =~= select_model(*old(self)).from.push(table_sel_model(table)));
            assert(select_model(*self).joins =~= select_model(*old(self)).joins);
            assert(select_model(*self).group_by =~= select_model(*old(self)).group_by);
        }
    }

    /// Adds tables to the `FROM` clause, in order.
    pub fn add_tables(&mut self, tables: Vec<SqlTableSelection>)
        ensures
            select_model(*final(self)) == (SelectModel {
                from: select_model(*old(self)).from + from_models(tables@, tables@.len()),
                ..select_model(*old(self))
            }),
    {
        let mut ts = tables;
        let ghost orig = ts@;
        assert(ts@.len() == ts.len());
        let mut i: usize = 0;
        while ts.len() > 0
            invariant
                i <= orig.len(),
                orig.len() <= usize::MAX,
                ts@ == orig.skip(i as int),
                select_model(*self) == (SelectModel {
                    from: select_model(*old(self)).from + from_models(orig, i as nat),
                    ..select_model(*old(self))
                }),
            decreases ts.len(),
        {
            let t = ts.remove(0);
            proof {
                assert(i < orig.len());
                assert(orig[i as int] == t);
                lemma_from_models(orig, (i + 1) as nat);
                lemma_from_models(orig, i as nat);
            }
            self.add_table(t);
            i += 1;
            assert(ts@ =~= orig.skip(i as int));
            assert(select_model(*self).from =~= select_model(*old(self)).from + from_models(orig, i as nat));
        }
    }

    pub fn add_join(&mut self, join: SqlJoin)
        ensures
            select_model(*final(self)) == (SelectModel {
                joins: select_model(*old(self)).joins.push(join_model(join)),
                ..select_model(*old(self))
            }),
    {
        self.joins.push(join);
        proof {
            assert(select_model(*self).joins =~= select_model(*old(self)).joins.push(join_model(join)));
            assert(select_model(*self).group_by =~= select_model(*old(self)).group_by);
        }
    }

    /// The same query with the given limit and optional start.
    pub fn set_limit_clause(self, start: Option<usize>, limit: usize) -> (r: Self)
        ensures
            select_model(r) == (SelectModel { limit: Some((start, limit)), ..select_model(self) }),
    {
        let mut q = self;
        q.limit = Some((start, limit));
        proof {
            assert(select_model(q).joins =~= select_model(self).joins);
            assert(select_model(q).group_by =~= select_model(self).group_by);
        }
        q
    }

    /// The same query grouped by the given columns.
    pub fn set_group_by(self, groups: Vec<String>) -> (r: Self)
        ensures
            select_model(r) == (SelectModel {
                group_by: Seq::new(groups@.len(), |i: int| groups@[i]@),
                ..select_model(self)
            }),
    {
        let mut q = self;
        q.group_by = groups;
        proof {
            assert(select_model(q).joins =~= select_model(self).joins);
            assert(select_model(q).group_by =~= Seq::new(groups@.len(), |i: int| groups@[i]@));
        }
        q
    }
}

} // verus!
