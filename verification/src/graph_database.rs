//! What a graph database computes without reaching the database: the size of a
//! graph from its signature, and the query that selects the inputs of a module.
use vstd::prelude::*;
use crate::data_types::ConstantValue;
use crate::expr::{Comparison, Condition, MathExpression};
use crate::module::{Module, ModuleExecError};
use crate::rel_graph::FnArg;
use crate::sql::{
    columns_from_model, table_sel_model,
    CANONICAL_TABLE_NAME, SelectModel, SqlJoin, SqlSelectQuery, SqlTable, SqlTableSelection, SqlWhereClause, TableModel,
    TableSelModel, WhereModel, and_condition, join_model, select_model,
};
use crate::dialect::SqlDialect;
use crate::numeric::Numeric;
use crate::text::{chars_of, dec, push_dec, string_of};

verus! {

/// Errors of a graph database that is connected.
#[derive(Debug, PartialEq, Eq)]
pub enum GraphDbRuntimeError {
    /// A module was to run before the dataset was made.
    DatasetNotInitialisedError,
    /// No table has this name.
    TableNotFoundError { table_name: String },
    /// A table was already made, with the database's message.
    TableAlreadyCreatedError(String),
    /// The action is forbidden.
    ForbiddenActionError { action: String },
    /// An unknown error, with the database's message.
    UnknownError(String),
    /// A query failed, with the database's message.
    QueryError(String),
    /// A query broke a constraint, with the database's message.
    ViolationError(String),
    /// A query holds more places for values than values were given.
    QueryCreationError(String),
    /// The module cannot run: what it needs is missing from the database.
    InvariantDependencyError(Module, String),
    /// Running a module failed.
    InvariantExecutionError(ModuleExecError),
    /// The text is no graph signature.
    InvalidSignature(String),
    /// A value returned by a module has the wrong type, with the reason.
    ValueTypeError(String),
}

/// Whether `c` has Unicode's `White_Space` property: the controls from tab
/// to carriage return, the space, next line, no-break space, the Ogham space
/// mark, the spaces from en quad to hair space, the line and paragraph
/// separators, the narrow no-break space, the medium mathematical space and
/// the ideographic space.
pub open spec fn unicode_white_space(c: char) -> bool {
    let u = c as u32;
    ||| 0x09 <= u <= 0x0D
    ||| u == 0x20
    ||| u == 0x85
    ||| u == 0xA0
    ||| u == 0x1680
    ||| 0x2000 <= u <= 0x200A
    ||| u == 0x2028
    ||| u == 0x2029
    ||| u == 0x202F
    ||| u == 0x205F
    ||| u == 0x3000
}

/// Whether `c` is white space (as `char::is_whitespace` tells).
fn char_is_whitespace(c: char) -> (r: bool)
    ensures
        r == unicode_white_space(c),
{
    let u = c as u32;
    (0x09 <= u && u <= 0x0D) || u == 0x20 || u == 0x85 || u == 0xA0 || u == 0x1680 || (0x2000 <= u && u <= 0x200A) || u
        == 0x2028 || u == 0x2029 || u == 0x202F || u == 0x205F || u == 0x3000
}

/// `s` without its leading white space.
pub open spec fn trim_start_ws(s: Seq<char>) -> Seq<char>
    decreases s.len(),
{
    if s.len() > 0 && unicode_white_space(s[0]) {
        trim_start_ws(s.drop_first())
    } else {
        s
    }
}

/// `s` without its trailing white space.
pub open spec fn trim_end_ws(s: Seq<char>) -> Seq<char>
    decreases s.len(),
{
    if s.len() > 0 && unicode_white_space(s.last()) {
        trim_end_ws(s.drop_last())
    } else {
        s
    }
}

/// `s` without its leading and trailing white space.
pub open spec fn trim_ws(s: Seq<char>) -> Seq<char> {
    trim_end_ws(trim_start_ws(s))
}

/// A character of a graph signature: from `?` to `~`.
pub open spec fn is_signature_char(c: char) -> bool {
    63 <= c as u32 <= 126
}

/// The value of a signature character.
pub open spec fn six_bits(c: char) -> usize {
    (c as u32 - 63) as usize
}

/// The number of vertices that a `graph6` signature gives, or `None` for a
/// text that is no signature: a first character other than `~` gives the
/// number, from 0 to 62; `~` followed by three characters other than a second
/// `~` gives it in 18 bits; `~~` followed by six characters gives it in 36
/// bits (the first character holding the highest six bits each time). `None`
/// also where the number does not fit in a `usize`.
pub open spec fn nb_vertices(t: Seq<char>) -> Option<usize> {
    if t.len() == 0 || !(forall|i: int| 0 <= i < t.len() ==> is_signature_char(#[trigger] t[i])) {
        None
    } else if t[0] != '~' {
        Some(six_bits(t[0]))
    } else if t.len() >= 2 && t[1] == '~' {
        if t.len() < 8 {
            None
        } else {
            let v = bits36(t);
            if v <= usize::MAX { Some(v as usize) } else { None }
        }
    } else if t.len() < 4 {
        None
    } else {
        Some((six_bits(t[1]) * 4096 + six_bits(t[2]) * 64 + six_bits(t[3])) as usize)
    }
}

/// The number that the six characters after `~~` hold, highest bits first.
pub open spec fn bits36(t: Seq<char>) -> int {
    six_bits(t[2]) * 1073741824 + six_bits(t[3]) * 16777216 + six_bits(t[4]) * 262144 + six_bits(t[5]) * 4096
        + six_bits(t[6]) * 64 + six_bits(t[7])
}

proof fn lemma_trim_start(s: Seq<char>, i: int)
    requires
        0 <= i <= s.len(),
        forall|k: int| 0 <= k < i ==> unicode_white_space(#[trigger] s[k]),
        i == s.len() || !unicode_white_space(s[i]),
    ensures
        trim_start_ws(s) == s.skip(i),
    decreases i,
{
    if i > 0 {
        assert(s.drop_first().skip(i - 1) =~= s.skip(i));
        assert forall|k: int| 0 <= k < i - 1 implies unicode_white_space(#[trigger] s.drop_first()[k]) by {
            assert(s.drop_first()[k] == s[k + 1]);
        }
        if i < s.len() {
            assert(s.drop_first()[i - 1] == s[i]);
        }
        lemma_trim_start(s.drop_first(), i - 1);
    } else {
        assert(s.skip(0) =~= s);
    }
}

proof fn lemma_trim_end(s: Seq<char>, j: int)
    requires
        0 <= j <= s.len(),
        forall|k: int| j <= k < s.len() ==> unicode_white_space(#[trigger] s[k]),
        j == 0 || !unicode_white_space(s[j - 1]),
    ensures
        trim_end_ws(s) == s.take(j),
    decreases s.len() - j,
{
    if j < s.len() {
        assert(s.drop_last().take(j) =~= s.take(j));
        assert forall|k: int| j <= k < s.len() - 1 implies unicode_white_space(#[trigger] s.drop_last()[k]) by {
            assert(s.drop_last()[k] == s[k]);
        }
        lemma_trim_end(s.drop_last(), j);
    } else {
        assert(s.take(j) =~= s);
    }
}

/// The number of vertices of the graph of a signature, in the `graph6`
/// format, the text trimmed of white space first.
/// # Errors
/// [`GraphDbRuntimeError::InvalidSignature`], with the trimmed text, when it
/// is empty, holds a character out of `?`..`~`, starts with `~` and has less
/// than four characters, or starts with `~~` and has less than eight (or a
/// number too large for a `usize`).
pub fn get_nb_vertices(signature: &str) -> (r: Result<usize, GraphDbRuntimeError>)
    ensures
        match nb_vertices(trim_ws(signature@)) {
            Some(n) => r == Ok::<usize, GraphDbRuntimeError>(n),
            None => r matches Err(GraphDbRuntimeError::InvalidSignature(t)) && t@ == trim_ws(signature@),
        },
{
    let cs = chars_of(signature);
    let n = cs.len();
    let mut a: usize = 0;
    while a < n && char_is_whitespace(cs[a])
        invariant
            a <= n,
            n == cs@.len(),
            forall|k: int| 0 <= k < a ==> unicode_white_space(#[trigger] cs@[k]),
        decreases n - a,
    {
        a += 1;
    }
    proof {
        lemma_trim_start(cs@, a as int);
    }
    let mut b: usize = n;
    while b > a && char_is_whitespace(cs[b - 1])
        invariant
            a <= b <= n,
            n == cs@.len(),
            forall|k: int| b <= k < n ==> unicode_white_space(#[trigger] cs@[k]),
        decreases b,
    {
        b -= 1;
    }
    let ghost t = cs@.subrange(a as int, b as int);
    proof {
        let s1 = cs@.skip(a as int);
        assert forall|k: int| (b - a) <= k < s1.len() implies unicode_white_space(#[trigger] s1[k]) by {
            assert(s1[k] == cs@[k + a]);
        }
        if b > a {
            assert(s1[b - a - 1] == cs@[b - 1]);
        }
        lemma_trim_end(s1, (b - a) as int);
        assert(s1.take((b - a) as int) =~= t);
        assert(trim_ws(signature@) == t);
    }
    let mut trimmed: Vec<char> = Vec::new();
    let mut k: usize = a;
    while k < b
        invariant
            a <= k <= b <= n,
            n == cs@.len(),
            trimmed@ == cs@.subrange(a as int, k as int),
        decreases b - k,
    {
        trimmed.push(cs[k]);
        k += 1;
        assert(trimmed@ =~= cs@.subrange(a as int, k as int));
    }
    let mut valid = b > a;
    let mut i: usize = 0;
    while i < trimmed.len()
        invariant
            i <= trimmed@.len(),
            trimmed@ == t,
            valid == (t.len() > 0 && forall|q: int| 0 <= q < i ==> is_signature_char(#[trigger] t[q])),
        decreases trimmed.len() - i,
    {
        let c = trimmed[i];
        if !(63 <= c as u32 && c as u32 <= 126) {
            valid = false;
        }
        i += 1;
    }
    if !valid {
        return Err(GraphDbRuntimeError::InvalidSignature(string_of(&trimmed)));
    }
    let c0 = trimmed[0];
    if c0 != '~' {
        return Ok((c0 as u32 - 63) as usize);
    }
    if trimmed.len() >= 2 && trimmed[1] == '~' {
        if trimmed.len() < 8 {
            return Err(GraphDbRuntimeError::InvalidSignature(string_of(&trimmed)));
        }
        assert(is_signature_char(t[2]) && is_signature_char(t[3]) && is_signature_char(t[4]));
        assert(is_signature_char(t[5]) && is_signature_char(t[6]) && is_signature_char(t[7]));
        let b2 = (trimmed[2] as u32 - 63) as u64;
        let b3 = (trimmed[3] as u32 - 63) as u64;
        let b4 = (trimmed[4] as u32 - 63) as u64;
        let b5 = (trimmed[5] as u32 - 63) as u64;
        let b6 = (trimmed[6] as u32 - 63) as u64;
        let b7 = (trimmed[7] as u32 - 63) as u64;
        let v: u64 = b2 * 1073741824 + b3 * 16777216 + b4 * 262144 + b5 * 4096 + b6 * 64 + b7;
        if v > usize::MAX as u64 {
            return Err(GraphDbRuntimeError::InvalidSignature(string_of(&trimmed)));
        }
        return Ok(v as usize);
    }
    if trimmed.len() < 4 {
        return Err(GraphDbRuntimeError::InvalidSignature(string_of(&trimmed)));
    }
    assert(is_signature_char(t[1]) && is_signature_char(t[2]) && is_signature_char(t[3]));
    let v1 = (trimmed[1] as u32 - 63) as usize;
    let v2 = (trimmed[2] as u32 - 63) as usize;
    let v3 = (trimmed[3] as u32 - 63) as usize;
    Ok(v1 * 4096 + v2 * 64 + v3)
}

/// The condition that the `i`-th parameter of `module` is the `i`-th argument.
pub open spec fn arg_eq(module: Module, args: Seq<MathExpression<FnArg>>, i: int) -> Condition<FnArg> {
    Condition::Comparison(
        Comparison::Equal(MathExpression::Primitif(FnArg::Constant(ConstantValue::Identifier(module.args@[i].name))), args[i], None),
    )
}

/// The conditions for the first `k` parameters of `module`, joined by `and`
/// from the first one on.
pub open spec fn args_eq_chain(module: Module, args: Seq<MathExpression<FnArg>>, k: int) -> Option<Condition<FnArg>>
    decreases k,
{
    if k <= 0 {
        None
    } else {
        Some(and_condition(args_eq_chain(module, args, k - 1), arg_eq(module, args, k - 1)))
    }
}

/// The where clause of the rows of the table of `module` whose parameters
/// are the arguments `args`.
pub open spec fn rows_of_args(module: Module, args: Seq<MathExpression<FnArg>>) -> Option<WhereModel> {
    if module.args@.len() == 0 {
        None
    } else {
        Some(WhereModel { not_exists: None, condition: args_eq_chain(module, args, module.args@.len() as int) })
    }
}

/// The table of the graphs to give a module: the result of a query, renamed
/// as the dataset, or the dataset itself.
pub open spec fn input_table(dataset_to_use: Option<SqlSelectQuery>) -> TableSelModel {
    match dataset_to_use {
        Some(d) => TableSelModel { table: TableModel::Query(Box::new(select_model(d))), rename_as: Some(CANONICAL_TABLE_NAME@) },
        None => TableSelModel { table: TableModel::Name(CANONICAL_TABLE_NAME@), rename_as: None },
    }
}

/// The size of the batches of a module: the smaller of its own, if it has
/// one, and the given one.
pub open spec fn batch_size_of(module: Module, batch_size: usize) -> usize {
    match module.batch_size {
        Some(b) => if b < batch_size {
            b
        } else {
            batch_size
        },
        None => batch_size,
    }
}

/// What running a module on a call needs besides the database: the size of
/// the batches, and the query of its inputs: the values of its arguments
/// over the graphs of `dataset_to_use` (or the whole dataset), each row once,
/// with the joins of the calls it needs, and, when the table of the module
/// exists, only the rows it holds no result for.
pub fn compute_module_plan(
    module: &Module,
    args: &Vec<MathExpression<FnArg>>,
    dataset_to_use: Option<SqlSelectQuery>,
    join_list: Vec<SqlJoin>,
    batch_size: usize,
    fn_table_exists: bool,
) -> (r: (usize, SqlSelectQuery))
    requires
        module.args@.len() <= args@.len(),
    ensures
        r.0 == batch_size_of(*module, batch_size),
        ({
            let m = select_model(r.1);
            &&& m.select == args@
            &&& m.distinct
            &&& m.from == seq![input_table(dataset_to_use)]
            &&& m.joins == Seq::new(join_list@.len(), |i: int| join_model(join_list@[i]))
            &&& m.group_by == Seq::<Seq<char>>::empty()
            &&& m.limit is None
            &&& !fn_table_exists ==> m.where_clause is None
            &&& fn_table_exists ==> (m.where_clause matches Some(w) && w.condition is None && (w.not_exists matches Some(q) && {
                &&& q.select.len() == 1
                &&& (q.select[0] matches MathExpression::Primitif(FnArg::Constant(ConstantValue::Identifier(c))) && c@ == "*"@)
                &&& *q == (SelectModel {
                    select: q.select,
                    where_clause: rows_of_args(*module, args@),
                    ..columns_from_model(q.select, TableSelModel { table: TableModel::Name(module.fn_name@), rename_as: None })
                })
            }))
        }),
{
    let batch = match module.batch_size {
        Some(b) => if b < batch_size {
            b
        } else {
            batch_size
        },
        None => batch_size,
    };
    let ghost table_model = input_table(dataset_to_use);
    let table = match dataset_to_use {
        Some(dataset) => SqlTableSelection::new_rename(SqlTable::SqlQuery(dataset), String::from_str(CANONICAL_TABLE_NAME)),
        None => SqlTableSelection::named(String::from_str(CANONICAL_TABLE_NAME)),
    };
    proof {
        assert(table_sel_model(table) == table_model);
    }
    let mut columns: Vec<MathExpression<FnArg>> = Vec::new();
    let mut i: usize = 0;
    while i < args.len()
        invariant
            i <= args@.len(),
            columns@ == args@.take(i as int),
        decreases args.len() - i,
    {
        columns.push(args[i].deep_copy());
        i += 1;
        assert(columns@ =~= args@.take(i as int));
    }
    proof {
        assert(args@.take(i as int) =~= args@);
    }
    let mut input_selection = SqlSelectQuery::select_columns_from_table(columns, table);
    input_selection.set_distinct_values(true);
    let ghost base = select_model(input_selection);
    proof {
        assert(base.joins =~= Seq::new(0 as nat, |j: int| join_model(join_list@[j])));
        assert(select_model(input_selection) =~= (SelectModel { joins: Seq::new(0 as nat, |j: int| join_model(join_list@[j])), ..base }));
    }
    let mut k: usize = 0;
    while k < join_list.len()
        invariant
            k <= join_list@.len(),
            select_model(input_selection) == (SelectModel {
                joins: Seq::new(k as nat, |j: int| join_model(join_list@[j])),
                ..base
            }),
            base.joins == Seq::<crate::sql::JoinModel>::empty(),
        decreases join_list.len() - k,
    {
        input_selection.add_join(join_list[k].copy());
        proof {
            assert(Seq::new(k as nat, |j: int| join_model(join_list@[j])).push(join_model(join_list@[k as int])) =~= Seq::new(
                (k + 1) as nat,
                |j: int| join_model(join_list@[j]),
            ));
        }
        k += 1;
    }
    if fn_table_exists {
        let mut not_exist_selection = SqlSelectQuery::select_all_from_table(SqlTableSelection::named(module.fn_name.clone()));
        let ghost base2 = select_model(not_exist_selection);
        let mut a: usize = 0;
        while a < module.args.len()
            invariant
                a <= module.args@.len(),
                module.args@.len() <= args@.len(),
                select_model(not_exist_selection) == (SelectModel {
                    where_clause: if a == 0 {
                        None
                    } else {
                        Some(WhereModel { not_exists: None, condition: args_eq_chain(*module, args@, a as int) })
                    },
                    ..base2
                }),
                base2.where_clause is None,
            decreases module.args.len() - a,
        {
            let cond = Condition::Comparison(
                Comparison::Equal(
                    MathExpression::Primitif(FnArg::Constant(ConstantValue::Identifier(module.args[a].name.clone()))),
                    args[a].deep_copy(),
                    None,
                ),
            );
            not_exist_selection.add_and(cond);
            a += 1;
        }
        proof {
            assert(select_model(not_exist_selection) =~= (SelectModel { where_clause: None, ..base2 }) || a > 0);
        }
        input_selection.where_clause = Some(SqlWhereClause::not_exists(not_exist_selection));
    }
    (batch, input_selection)
}


// ______________________________ queries with bound values

/// A piece of a query whose values are bound apart from its text: a character
/// of the text, or a value bound as a number or as a text.
#[derive(Debug, PartialEq, Eq)]
pub enum QueryPart {
    Char(char),
    Number(Numeric),
    Text(String),
}

/// What a [`QueryPart`] stands for.
pub enum PartModel {
    Char(char),
    Number(Seq<char>),
    Text(Seq<char>),
}

/// The piece that is the character `c` of a query's text.
pub open spec fn char_part(c: char) -> PartModel {
    PartModel::Char(c)
}

pub open spec fn part_model(p: QueryPart) -> PartModel {
    match p {
        QueryPart::Char(c) => PartModel::Char(c),
        QueryPart::Number(n) => PartModel::Number(n@),
        QueryPart::Text(t) => PartModel::Text(t@),
    }
}

pub open spec fn parts_model(ps: Seq<QueryPart>) -> Seq<PartModel> {
    Seq::new(ps.len(), |i: int| part_model(ps[i]))
}

/// The number of places for a value, `?`, in `s`.
pub open spec fn count_marks(s: Seq<char>) -> nat
    decreases s.len(),
{
    if s.len() == 0 {
        0
    } else {
        count_marks(s.drop_last()) + if s.last() == '?' {
            1nat
        } else {
            0nat
        }
    }
}

/// The row of the value bound at the `k`-th place of a query whose rows have
/// `nb_cols` values.
#[verifier::opaque]
pub open spec fn bind_row(nb_cols: nat, k: nat) -> int {
    if nb_cols == 0 {
        0
    } else {
        (k / nb_cols) as int
    }
}

/// The column of the value bound at the `k`-th place.
#[verifier::opaque]
pub open spec fn bind_col(nb_cols: nat, k: nat) -> int {
    if nb_cols == 0 {
        k as int
    } else {
        (k % nb_cols) as int
    }
}

/// The piece that binds the value `v`.
pub open spec fn value_part(v: ConstantValue) -> PartModel {
    match v {
        ConstantValue::Numeric(n) => PartModel::Number(n@),
        ConstantValue::String(s) => PartModel::Text(s@),
        ConstantValue::Identifier(s) => PartModel::Text(s@),
        ConstantValue::Bool(_) => PartModel::Text(Seq::empty()),
    }
}

/// The value bound at the place `?` at position `i` of `q`.
pub open spec fn bound_value(q: Seq<char>, nb_cols: nat, values: Seq<Seq<ConstantValue>>, i: int) -> ConstantValue {
    let k = count_marks(q.take(i));
    values[bind_row(nb_cols, k)][bind_col(nb_cols, k)]
}

/// Every place of `q` has a value of `values`, which is no boolean.
#[verifier::opaque]
pub open spec fn insert_values_ok(q: Seq<char>, nb_cols: nat, values: Seq<Seq<ConstantValue>>) -> bool {
    forall|i: int|
        0 <= i < q.len() && #[trigger] q[i] == '?' ==> {
            let k = count_marks(q.take(i));
            &&& 0 <= bind_row(nb_cols, k) < values.len()
            &&& 0 <= bind_col(nb_cols, k) < values[bind_row(nb_cols, k)].len()
            &&& !(values[bind_row(nb_cols, k)][bind_col(nb_cols, k)] is Bool)
        }
}

/// The pieces of the query `q` whose places take, in order, the values of
/// `values`, row by row, each row `nb_cols` long.
pub open spec fn insert_parts(q: Seq<char>, nb_cols: nat, values: Seq<Seq<ConstantValue>>) -> Seq<PartModel> {
    Seq::new(
        q.len(),
        |i: int|
            if q[i] == '?' {
                value_part(bound_value(q, nb_cols, values, i))
            } else {
                char_part(q[i])
            },
    )
}

/// The pieces of the query `q` whose places take, in order, the signatures.
pub open spec fn signature_parts(q: Seq<char>, signatures: Seq<Seq<char>>) -> Seq<PartModel> {
    Seq::new(
        q.len(),
        |i: int|
            if q[i] == '?' {
                PartModel::Text(signatures[count_marks(q.take(i)) as int])
            } else {
                char_part(q[i])
            },
    )
}

/// How a database system writes the `n`-th place of a query.
pub open spec fn placeholder(d: SqlDialect, n: nat) -> Seq<char> {
    match d {
        SqlDialect::Sqlite => seq!['?'],
        SqlDialect::Postgres => seq!['$'] + dec(n),
    }
}

/// The text of the query `s` as a database system receives it, each place
/// written its own way.
pub open spec fn placeholder_text(d: SqlDialect, s: Seq<char>) -> Seq<char>
    decreases s.len(),
{
    if s.len() == 0 {
        Seq::empty()
    } else {
        placeholder_text(d, s.drop_last()) + if s.last() == '?' {
            placeholder(d, count_marks(s))
        } else {
            seq![s.last()]
        }
    }
}

proof fn lemma_bind_bounds(nb_cols: nat, k: nat)
    ensures
        0 <= bind_row(nb_cols, k) <= k,
        0 <= bind_col(nb_cols, k) <= k,
        nb_cols > 0 ==> bind_col(nb_cols, k) < nb_cols,
        nb_cols == 0 ==> bind_row(nb_cols, k) == 0,
        k == 0 ==> bind_row(nb_cols, k) == 0 && bind_col(nb_cols, k) == 0,
{
    reveal(bind_row);
    reveal(bind_col);
    if nb_cols > 0 {
        vstd::arithmetic::div_mod::lemma_div_is_ordered_by_denominator(k as int, 1, nb_cols as int);
        vstd::arithmetic::div_mod::lemma_mod_bound(k as int, nb_cols as int);
        if k == 0 {
            vstd::arithmetic::div_mod::lemma_div_of0(nb_cols as int);
            vstd::arithmetic::div_mod::lemma_small_mod(0, nb_cols);
        }
        assert(k % nb_cols <= k) by {
            vstd::arithmetic::div_mod::lemma_mod_decreases(k, nb_cols);
        }
    }
}

/// The place after the `k`-th one: the next column of the same row, or the
/// first column of the next row.
proof fn lemma_bind_step(nb_cols: nat, k: nat)
    ensures
        bind_col(nb_cols, k) + 1 != nb_cols ==> bind_row(nb_cols, k + 1) == bind_row(nb_cols, k) && bind_col(nb_cols, k + 1)
            == bind_col(nb_cols, k) + 1,
        bind_col(nb_cols, k) + 1 == nb_cols ==> bind_row(nb_cols, k + 1) == bind_row(nb_cols, k) + 1 && bind_col(nb_cols, k + 1)
            == 0,
{
    reveal(bind_row);
    reveal(bind_col);
    if nb_cols > 0 {
        let d = nb_cols as int;
        let q0 = (k / nb_cols) as int;
        let r0 = (k % nb_cols) as int;
        vstd::arithmetic::div_mod::lemma_fundamental_div_mod(k as int, d);
        vstd::arithmetic::div_mod::lemma_mod_bound(k as int, d);
        if r0 + 1 < d {
            vstd::arithmetic::div_mod::lemma_fundamental_div_mod_converse(k + 1 as int, d, q0, r0 + 1);
        } else {
            assert(k + 1 == d * (q0 + 1) + 0) by (nonlinear_arith)
                requires
                    k == d * q0 + r0,
                    r0 + 1 == d,
            ;
            vstd::arithmetic::div_mod::lemma_fundamental_div_mod_converse(k + 1 as int, d, q0 + 1, 0);
        }
    }
}

/// The character at position `i` of `cs`.
fn char_at(cs: &Vec<char>, i: usize) -> (c: char)
    requires
        i < cs@.len(),
    ensures
        c == cs@[i as int],
{
    cs[i]
}

proof fn lemma_count_marks_step(q: Seq<char>, i: int)
    requires
        0 <= i < q.len(),
    ensures
        q.take(i + 1).drop_last() == q.take(i),
        q.take(i + 1).last() == q[i],
        count_marks(q.take(i + 1)) == count_marks(q.take(i)) + if q[i] == '?' {
            1nat
        } else {
            0nat
        },
{
    assert(q.take(i + 1).drop_last() =~= q.take(i));
}

proof fn lemma_count_marks_bound(s: Seq<char>)
    ensures
        count_marks(s) <= s.len(),
    decreases s.len(),
{
    if s.len() > 0 {
        lemma_count_marks_bound(s.drop_last());
    }
}

/// The pieces of the query `query_str`, whose places take the values of
/// `results_to_store`, row by row, each row `nb_cols` long.
#[verifier::spinoff_prover]
pub fn create_safe_insert_query(query_str: &str, nb_cols: usize, results_to_store: &Vec<Vec<ConstantValue>>) -> (r: Result<
    Vec<QueryPart>,
    GraphDbRuntimeError,
>)
    requires
        insert_values_ok(query_str@, nb_cols as nat, results_to_store@.map_values(|row: Vec<ConstantValue>| row@)),
    ensures
        r matches Ok(ps) && parts_model(ps@) == insert_parts(
            query_str@,
            nb_cols as nat,
            results_to_store@.map_values(|row: Vec<ConstantValue>| row@),
        ),
{
    let ghost values = results_to_store@.map_values(|row: Vec<ConstantValue>| row@);
    let ghost q = query_str@;
    let cs = chars_of(query_str);
    let mut parts: Vec<QueryPart> = Vec::new();
    let mut value_id: usize = 0;
    let mut col_id: usize = 0;
    let mut i: usize = 0;
    proof {
        assert(insert_parts(q, nb_cols as nat, values).len() == q.len());
        assert(q.take(0) =~= Seq::<char>::empty());
        lemma_bind_bounds(nb_cols as nat, 0);
        assert(parts_model(parts@) =~= insert_parts(q, nb_cols as nat, values).take(0));
    }
    while i < cs.len()
        invariant
            cs@ == q,
            i <= q.len(),
            insert_values_ok(q, nb_cols as nat, values),
            values == results_to_store@.map_values(|row: Vec<ConstantValue>| row@),
            bind_row(nb_cols as nat, count_marks(q.take(i as int))) == value_id,
            bind_col(nb_cols as nat, count_marks(q.take(i as int))) == col_id,
            nb_cols > 0 ==> col_id < nb_cols,
            nb_cols == 0 ==> value_id == 0,
            parts@.len() == i,
            insert_parts(q, nb_cols as nat, values).len() == q.len(),
            parts_model(parts@) == insert_parts(q, nb_cols as nat, values).take(i as int),
        decreases cs.len() - i,
    {
        let c = char_at(&cs, i);
        let ghost k = count_marks(q.take(i as int));
        let ghost before = parts@;
        proof {
            assert(parts_model(before).len() == before.len());
            assert(before.len() == i);
            lemma_count_marks_step(q, i as int);
            lemma_count_marks_bound(q.take(i as int));
        }
        if c == '?' {
            assert(q[i as int] == '?');
            assert({
                &&& 0 <= bind_row(nb_cols as nat, k) < values.len()
                &&& 0 <= bind_col(nb_cols as nat, k) < values[bind_row(nb_cols as nat, k)].len()
                &&& !(values[bind_row(nb_cols as nat, k)][bind_col(nb_cols as nat, k)] is Bool)
            }) by {
                reveal(insert_values_ok);
            }
            assert(results_to_store@[value_id as int]@ == values[value_id as int]);
            let value = &results_to_store[value_id][col_id];
            let part = match value {
                ConstantValue::Numeric(nb) => QueryPart::Number(nb.copy()),
                ConstantValue::Identifier(s) => QueryPart::Text(s.clone()),
                ConstantValue::String(s) => QueryPart::Text(s.clone()),
                ConstantValue::Bool(_) => QueryPart::Text(String::new()),
            };
            assert(part_model(part) == value_part(bound_value(q, nb_cols as nat, values, i as int)));
            let ghost pm = part;
            let ghost old_value = value_id as int;
            let ghost old_col = col_id as int;
            parts.push(part);
            assert(parts@ == before.push(pm));
            assert(parts@.len() == i + 1);
            proof {
                lemma_bind_bounds(nb_cols as nat, k);
            }
            col_id += 1;
            if col_id == nb_cols {
                col_id = 0;
                value_id += 1;
            }
            proof {
                lemma_bind_step(nb_cols as nat, k);
            }
        } else {
            let part = QueryPart::Char(c);
            let ghost pm = part;
            parts.push(part);
            assert(parts@ == before.push(pm));
            assert(parts@.len() == i + 1);
        }
        proof {
            assert(parts@.len() == i + 1);
            assert(parts@ == before.push(parts@.last()));
            assert forall|j: int| 0 <= j <= i implies #[trigger] parts_model(parts@)[j] == insert_parts(q, nb_cols as nat, values)[j] by {
                if j < i {
                    assert(parts@[j] == before[j]);
                    assert(parts_model(before)[j] == insert_parts(q, nb_cols as nat, values).take(i as int)[j]);
                }
            }
        }
        i += 1;
        assert(parts_model(parts@) =~= insert_parts(q, nb_cols as nat, values).take(i as int));
    }
    assert(i == q.len());
    assert(insert_parts(q, nb_cols as nat, values).take(i as int) =~= insert_parts(q, nb_cols as nat, values));
    Ok(parts)
}

/// The pieces of the query `query_str`, whose places take, in order, the
/// signatures.
/// # Errors
/// [`GraphDbRuntimeError::QueryCreationError`] when the query has more places
/// than signatures, with the text of the query up to the first place left
/// without one, as the database system would receive it.
#[verifier::spinoff_prover]
pub fn create_safe_signature_query(d: SqlDialect, query_str: &str, signatures: &Vec<String>) -> (r: Result<
    Vec<QueryPart>,
    GraphDbRuntimeError,
>)
    ensures
        count_marks(query_str@) <= signatures@.len() ==> (r matches Ok(ps) && parts_model(ps@) == signature_parts(
            query_str@,
            signatures@.map_values(|s: String| s@),
        )),
        count_marks(query_str@) > signatures@.len() ==> exists|i: int|
            #![trigger query_str@.take(i)]
            0 <= i < query_str@.len() && query_str@[i] == '?' && count_marks(query_str@.take(i)) == signatures@.len() && (r matches Err(
                GraphDbRuntimeError::QueryCreationError(t),
            ) && t@ == placeholder_text(d, query_str@.take(i))),
{
    let ghost q = query_str@;
    let ghost sigs = signatures@.map_values(|s: String| s@);
    let cs = chars_of(query_str);
    let mut parts: Vec<QueryPart> = Vec::new();
    let mut text: Vec<char> = Vec::new();
    let mut used: usize = 0;
    let mut i: usize = 0;
    proof {
        assert(q.take(0) =~= Seq::<char>::empty());
        assert(parts_model(parts@) =~= signature_parts(q, sigs).take(0));
        assert(text@ =~= placeholder_text(d, q.take(0)));
    }
    while i < cs.len()
        invariant
            cs@ == q,
            i <= q.len(),
            q == query_str@,
            used == count_marks(q.take(i as int)),
            used <= signatures@.len(),
            sigs == signatures@.map_values(|s: String| s@),
            parts@.len() == i,
            signature_parts(q, sigs).len() == q.len(),
            parts_model(parts@) == signature_parts(q, sigs).take(i as int),
            text@ == placeholder_text(d, q.take(i as int)),
        decreases cs.len() - i,
    {
        let c = char_at(&cs, i);
        let ghost before = parts@;
        proof {
            assert(parts_model(before).len() == before.len());
            assert(before.len() == i);
            lemma_count_marks_step(q, i as int);
            lemma_count_marks_bound(q.take(i as int));
        }
        if c == '?' {
            if used < signatures.len() {
                assert(sigs[used as int] == signatures@[used as int]@);
                parts.push(QueryPart::Text(signatures[used].clone()));
                used += 1;
                match d {
                    SqlDialect::Sqlite => text.push('?'),
                    SqlDialect::Postgres => {
                        text.push('$');
                        push_dec(&mut text, used);
                    },
                }
            } else {
                proof {
                    lemma_marks_more(q, i as int);
                }
                let t = string_of(&text);
                assert(count_marks(query_str@) > signatures@.len());
                assert(query_str@[i as int] == '?');
                assert(t@ == placeholder_text(d, query_str@.take(i as int)));
                assert(count_marks(query_str@.take(i as int)) == signatures@.len());
                return Err(GraphDbRuntimeError::QueryCreationError(t));
            }
        } else {
            parts.push(QueryPart::Char(c));
            text.push(c);
        }
        proof {
            assert(parts@ == before.push(parts@.last()));
            assert forall|j: int| 0 <= j <= i implies #[trigger] parts_model(parts@)[j] == signature_parts(q, sigs)[j] by {
                if j < i {
                    assert(parts@[j] == before[j]);
                    assert(parts_model(before)[j] == signature_parts(q, sigs).take(i as int)[j]);
                }
            }
        }
        i += 1;
        assert(parts_model(parts@) =~= signature_parts(q, sigs).take(i as int));
        assert(text@ =~= placeholder_text(d, q.take(i as int)));
    }
    assert(i == q.len());
    assert(signature_parts(q, sigs).take(i as int) =~= signature_parts(q, sigs));
    assert(q.take(i as int) =~= q);
    Ok(parts)
}

/// The marks of a text count those of any of its beginnings.
proof fn lemma_marks_more(q: Seq<char>, i: int)
    requires
        0 <= i < q.len(),
        q[i] == '?',
    ensures
        count_marks(q) >= count_marks(q.take(i)) + 1,
    decreases q.len(),
{
    if i == q.len() - 1 {
        assert(q.drop_last() =~= q.take(i));
    } else {
        lemma_marks_more(q.drop_last(), i);
        assert(q.drop_last().take(i) =~= q.take(i));
    }
}

} // verus!
