//! The tables of a graph database: their columns, the queries that create
//! them, which of them may be removed, and the values stored in them.
use vstd::prelude::*;
use crate::data_types::{ConstantValue, ValueType, ValueTypeError, is_value_of, spec_to_lowercase, to_lowercase};
use crate::dialect::{ColumnType, column_sql, translate_column};
use crate::graph_database::GraphDbRuntimeError;
use crate::module::{Module, TypedArg};
use crate::sql::{CANONICAL_TABLE_NAME, FUNCTION_OUTPUT_COL_NAME, PK_NAME, VERTICES_TABLE_NAME};
use crate::text::join;

verus! {

/// The largest size of a signature stored in the dataset.
pub const SIGNATURE_MAX_SIZE: usize = 250;

/// The type of the column that holds values of type `t`.
pub open spec fn column_type_of(t: ValueType) -> ColumnType {
    match t {
        ValueType::Graph => ColumnType::String { max_size: Some(SIGNATURE_MAX_SIZE), default_value: None },
        ValueType::String => ColumnType::String { max_size: None, default_value: None },
        ValueType::Numeric => ColumnType::Float { default_value: None },
        ValueType::Bool => ColumnType::Boolean { default_value: None },
    }
}

/// The column that holds values of type `t`.
pub fn column_type(t: ValueType) -> (r: ColumnType)
    ensures
        r == column_type_of(t),
{
    match t {
        ValueType::Graph => ColumnType::String { max_size: Some(SIGNATURE_MAX_SIZE), default_value: None },
        ValueType::String => ColumnType::String { max_size: None, default_value: None },
        ValueType::Numeric => ColumnType::Float { default_value: None },
        ValueType::Bool => ColumnType::Boolean { default_value: None },
    }
}

/// The definition of a column: its name and its type.
pub open spec fn column_def(a: TypedArg) -> Seq<char> {
    a.name@ + " "@ + column_sql(column_type_of(a.data_type))
}

/// The definitions of the columns, in order.
pub open spec fn column_defs(cols: Seq<TypedArg>) -> Seq<Seq<char>> {
    Seq::new(cols.len(), |i: int| column_def(cols[i]))
}

/// The query that creates the table `table` with the columns `cols`.
pub open spec fn create_columns_sql(table: Seq<char>, cols: Seq<TypedArg>) -> Seq<char> {
    "CREATE TABLE "@ + table + " ("@ + join(column_defs(cols), ", "@) + ")"@
}

/// The query that creates a table with the given columns.
pub fn get_create_columns_query(table_name: &str, cols: &Vec<TypedArg>) -> (r: String)
    ensures
        r@ == create_columns_sql(table_name@, cols@),
{
    let ghost defs = column_defs(cols@);
    let mut body = String::new();
    let mut i: usize = 0;
    while i < cols.len()
        invariant
            i <= cols@.len(),
            defs == column_defs(cols@),
            body@ == join(defs.take(i as int), ", "@),
        decreases cols.len() - i,
    {
        proof {
            assert(defs.take(i + 1).drop_last() =~= defs.take(i as int));
            assert(defs[i as int] == column_def(cols@[i as int]));
            if i == 0 {
                assert(defs.take(0).len() == 0);
                assert(body@ =~= Seq::<char>::empty());
            }
        }
        if i > 0 {
            body.append(", ");
        }
        body.append(cols[i].name.as_str());
        body.append(" ");
        let t = translate_column(&column_type(cols[i].data_type));
        body.append(t.as_str());
        i += 1;
        proof {
            let s = defs.take(i as int);
            assert(s.last() == defs[i - 1]);
            if i > 1 {
                assert(body@ =~= join(s.drop_last(), ", "@) + ", "@ + s.last());
            } else {
                assert(body@ =~= s[0]);
            }
        }
    }
    proof {
        assert(defs.take(i as int) =~= defs);
    }
    let mut r = String::from_str("CREATE TABLE ");
    r.append(table_name);
    r.append(" (");
    r.append(body.as_str());
    r.append(")");
    r
}

/// The columns of the table of a module: its arguments, then the value it
/// computes.
pub fn module_table_columns(module: &Module) -> (r: Vec<TypedArg>)
    ensures
        r@.len() == module.args@.len() + 1,
        forall|i: int| 0 <= i < module.args@.len() ==> #[trigger] r@[i] == module.args@[i],
        r@.last().name@ == FUNCTION_OUTPUT_COL_NAME@,
        r@.last().data_type == module.output,
{
    let mut cols: Vec<TypedArg> = Vec::new();
    let mut i: usize = 0;
    while i < module.args.len()
        invariant
            i <= module.args@.len(),
            cols@.len() == i,
            forall|k: int| 0 <= k < i ==> #[trigger] cols@[k] == module.args@[k],
        decreases module.args.len() - i,
    {
        cols.push(module.args[i].copy());
        i += 1;
    }
    cols.push(TypedArg { name: String::from_str(FUNCTION_OUTPUT_COL_NAME), data_type: module.output });
    cols
}

/// The columns of the dataset: the signatures of the graphs.
pub fn dataset_columns() -> (r: Vec<TypedArg>)
    ensures
        r@.len() == 1,
        r@[0].name@ == PK_NAME@,
        r@[0].data_type == ValueType::Graph,
{
    let mut cols: Vec<TypedArg> = Vec::new();
    cols.push(TypedArg { name: String::from_str(PK_NAME), data_type: ValueType::Graph });
    cols
}

/// The columns of the table of the numbers of vertices: the signatures of
/// the graphs and their numbers of vertices.
pub fn vertices_columns() -> (r: Vec<TypedArg>)
    ensures
        r@.len() == 2,
        r@[0].name@ == PK_NAME@,
        r@[0].data_type == ValueType::Graph,
        r@[1].name@ == FUNCTION_OUTPUT_COL_NAME@,
        r@[1].data_type == ValueType::Numeric,
{
    let mut cols: Vec<TypedArg> = Vec::new();
    cols.push(TypedArg { name: String::from_str(PK_NAME), data_type: ValueType::Graph });
    cols.push(TypedArg { name: String::from_str(FUNCTION_OUTPUT_COL_NAME), data_type: ValueType::Numeric });
    cols
}

/// The table is the dataset or the table of the numbers of vertices.
pub open spec fn is_base_table(name: Seq<char>) -> bool {
    name == CANONICAL_TABLE_NAME@ || name == VERTICES_TABLE_NAME@
}

/// Whether the table `table_name` may be removed: in restricted mode, the
/// dataset and the table of the numbers of vertices may not (whatever the
/// case of the name).
/// # Errors
/// [`GraphDbRuntimeError::ForbiddenActionError`], saying which table, when
/// it may not.
pub fn check_remove_table(table_name: &str, restrict_mode: bool) -> (r: Result<(), GraphDbRuntimeError>)
    ensures
        restrict_mode && is_base_table(spec_to_lowercase(table_name@)) ==> (r matches Err(
            GraphDbRuntimeError::ForbiddenActionError { action },
        ) && action@ == "Tried to remove the table \""@ + spec_to_lowercase(table_name@) + "\" which is not allowed."@),
        !(restrict_mode && is_base_table(spec_to_lowercase(table_name@))) ==> r matches Ok(_),
{
    let table = to_lowercase(table_name);
    let dataset = String::from_str(CANONICAL_TABLE_NAME);
    let vertices = String::from_str(VERTICES_TABLE_NAME);
    if restrict_mode && (table == dataset || table == vertices) {
        let mut action = String::from_str("Tried to remove the table \"");
        action.append(table.as_str());
        action.append("\" which is not allowed.");
        return Err(GraphDbRuntimeError::ForbiddenActionError { action });
    }
    Ok(())
}

/// The names of the tables of the invariants: all but the dataset and the
/// table of the numbers of vertices, in order.
pub fn invariant_tables(names: Vec<String>) -> (r: Vec<String>)
    ensures
        r@.map_values(|s: String| s@) == names@.map_values(|s: String| s@).filter(|n: Seq<char>| !is_base_table(n)),
{
    let ghost all = names@.map_values(|s: String| s@);
    let dataset = String::from_str(CANONICAL_TABLE_NAME);
    let vertices = String::from_str(VERTICES_TABLE_NAME);
    let mut out: Vec<String> = Vec::new();
    let mut i: usize = 0;
    while i < names.len()
        invariant
            i <= names@.len(),
            all == names@.map_values(|s: String| s@),
            dataset@ == CANONICAL_TABLE_NAME@,
            vertices@ == VERTICES_TABLE_NAME@,
            out@.map_values(|s: String| s@) == all.take(i as int).filter(|n: Seq<char>| !is_base_table(n)),
        decreases names.len() - i,
    {
        proof {
            assert(all.take(i + 1).drop_last() =~= all.take(i as int));
            assert(all.take(i + 1).last() == names@[i as int]@);
            reveal(Seq::filter);
        }
        let ghost before = out@;
        if names[i] != dataset && names[i] != vertices {
            out.push(names[i].clone());
            proof {
                assert(out@.map_values(|s: String| s@) =~= before.map_values(|s: String| s@).push(names@[i as int]@));
            }
        } else {
            proof {
                assert(out@ == before);
            }
        }
        i += 1;
    }
    proof {
        assert(all.take(i as int) =~= all);
    }
    out
}

impl Module {
    /// Reads the values of a row that the module returned: its arguments by
    /// their types, then its value by the module's output type.
    /// # Errors
    /// The error of the first value that cannot be read.
    pub fn row_values(&self, values: Vec<String>) -> (r: Result<Vec<ConstantValue>, ValueTypeError>)
        requires
            values@.len() == self.args@.len() + 1,
        ensures
            r matches Ok(v) ==> v@.len() == values@.len() && forall|i: int|
                0 <= i < values@.len() ==> is_value_of(
                    if i < self.args@.len() {
                        self.args@[i].data_type
                    } else {
                        self.output
                    },
                    values@[i],
                    Ok(#[trigger] v@[i]),
                ),
            r matches Err(e) ==> exists|i: int|
                0 <= i < values@.len() && is_value_of(
                    if i < self.args@.len() {
                        self.args@[i].data_type
                    } else {
                        self.output
                    },
                    values@[i],
                    Err(e),
                ),
    {
        let ghost vs = values@;
        let n = values.len();
        assert(vs.len() == n);
        let mut out: Vec<ConstantValue> = Vec::new();
        let mut failed: Option<ValueTypeError> = None;
        let mut rest = values;
        let mut i: usize = 0;
        while rest.len() > 0
            invariant_except_break
                i <= vs.len(),
                vs.len() <= usize::MAX,
                vs.len() == self.args@.len() + 1,
                rest@ == vs.skip(i as int),
                out@.len() == i,
                failed is None,
                forall|k: int|
                    0 <= k < i ==> is_value_of(
                        if k < self.args@.len() {
                            self.args@[k].data_type
                        } else {
                            self.output
                        },
                        vs[k],
                        Ok(#[trigger] out@[k]),
                    ),
            ensures
                i <= vs.len(),
                vs.len() == self.args@.len() + 1,
                failed is None ==> i == vs.len() && out@.len() == i && forall|k: int|
                    0 <= k < i ==> is_value_of(
                        if k < self.args@.len() {
                            self.args@[k].data_type
                        } else {
                            self.output
                        },
                        vs[k],
                        Ok(#[trigger] out@[k]),
                    ),
                failed matches Some(e) ==> i < vs.len() && is_value_of(
                    if i < self.args@.len() {
                        self.args@[i as int].data_type
                    } else {
                        self.output
                    },
                    vs[i as int],
                    Err(e),
                ),
            decreases rest.len(),
        {
            let v = rest.remove(0);
            proof {
                assert(vs.skip(i as int)[0] == v);
                assert(vs.skip(i as int).skip(1) =~= vs.skip(i + 1));
                assert(vs[i as int] == v);
            }
            let t = if i < self.args.len() {
                self.args[i].data_type
            } else {
                self.output
            };
            match t.translate_into_const(v) {
                Ok(c) => {
                    out.push(c);
                },
                Err(e) => {
                    failed = Some(e);
                    break;
                },
            }
            i += 1;
            proof {
                if rest.len() == 0 {
                    assert(vs.skip(i as int).len() == 0);
                }
            }
        }
        match failed {
            Some(e) => Err(e),
            None => Ok(out),
        }
    }
}

} // verus!
