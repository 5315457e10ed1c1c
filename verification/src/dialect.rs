//! The SQL texts that differ between the supported database systems.
use vstd::prelude::*;
use vstd::string::*;
use crate::text::{dec, usize_to_string, push_str, string_of};
use crate::data_types::{spec_to_lowercase, to_lowercase};

verus! {

/// The supported database systems.
#[derive(Debug, Clone, Copy, PartialEq, Eq, Structural)]
pub enum SqlDialect {
    Sqlite,
    Postgres,
}

/// `s` without its last two characters (all of it when shorter).
pub open spec fn drop_two(s: Seq<char>) -> Seq<char> {
    if s.len() >= 2 { s.take(s.len() - 2) } else { Seq::empty() }
}

/// `n` copies of `s`, one after the other.
pub open spec fn repeat(s: Seq<char>, n: nat) -> Seq<char>
    decreases n,
{
    if n == 0 { Seq::empty() } else { repeat(s, (n - 1) as nat) + s }
}

/// One row of bind symbols for `nb_cols` columns: `(?, ?, ?), `.
pub open spec fn bind_row(nb_cols: nat) -> Seq<char> {
    drop_two("("@ + repeat("?, "@, nb_cols)) + "), "@
}

/// The query that inserts `nb_rows` rows of `nb_cols` bound values into a table.
pub open spec fn insert_query(d: SqlDialect, table: Seq<char>, nb_cols: nat, nb_rows: nat) -> Seq<char> {
    match d {
        SqlDialect::Sqlite => drop_two("INSERT OR REPLACE INTO "@ + table + " VALUES "@ + repeat(bind_row(nb_cols), nb_rows)) + ";"@,
        SqlDialect::Postgres => drop_two("INSERT INTO "@ + table + " VALUES "@ + repeat(bind_row(nb_cols), nb_rows))
            + " ON CONFLICT DO NOTHING;"@,
    }
}


fn drop_two_chars(s: &mut Vec<char>)
    ensures
        final(s)@ == drop_two(old(s)@),
{
    if s.len() >= 2 {
        s.pop();
        s.pop();
        assert(s@ =~= drop_two(old(s)@));
    } else {
        s.pop();
        s.pop();
        assert(s@ =~= Seq::<char>::empty());
    }
}

fn push_repeat_str(out: &mut Vec<char>, piece: &str, n: usize)
    ensures
        final(out)@ == old(out)@ + repeat(piece@, n as nat),
{
    let mut i: usize = 0;
    while i < n
        invariant
            i <= n,
            out@ == old(out)@ + repeat(piece@, i as nat),
        decreases n - i,
    {
        push_str(out, piece);
        i += 1;
        assert(out@ =~= old(out)@ + repeat(piece@, i as nat));
    }
}

/// Returns the query that inserts `nb_rows` rows of `nb_cols` bound values
/// (`?` symbols, to be bound to the values later) into `table_name`.
pub fn get_insert_into_query(d: SqlDialect, table_name: &str, nb_cols: usize, nb_rows: usize) -> (r: String)
    ensures
        r@ == insert_query(d, table_name@, nb_cols as nat, nb_rows as nat),
{
    let mut query: Vec<char> = Vec::new();
    match d {
        SqlDialect::Sqlite => push_str(&mut query, "INSERT OR REPLACE INTO "),
        SqlDialect::Postgres => push_str(&mut query, "INSERT INTO "),
    }
    push_str(&mut query, table_name);
    push_str(&mut query, " VALUES ");
    let ghost head = query@;
    let mut line: Vec<char> = Vec::new();
    push_str(&mut line, "(");
    push_repeat_str(&mut line, "?, ", nb_cols);
    drop_two_chars(&mut line);
    push_str(&mut line, "), ");
    let mut k: usize = 0;
    while k < nb_rows
        invariant
            k <= nb_rows,
            line@ == bind_row(nb_cols as nat),
            query@ == head + repeat(bind_row(nb_cols as nat), k as nat),
        decreases nb_rows - k,
    {
        crate::text::push_chars(&mut query, &line);
        k += 1;
        assert(query@ =~= head + repeat(bind_row(nb_cols as nat), k as nat));
    }
    drop_two_chars(&mut query);
    match d {
        SqlDialect::Sqlite => push_str(&mut query, ";"),
        SqlDialect::Postgres => push_str(&mut query, " ON CONFLICT DO NOTHING;"),
    }
    string_of(&query)
}

pub open spec fn all_tables_query(d: SqlDialect) -> Seq<char> {
    match d {
        SqlDialect::Sqlite => "SELECT name FROM sqlite_master WHERE type='table';"@,
        SqlDialect::Postgres =>
            "SELECT tablename FROM pg_catalog.pg_tables\nWHERE schemaname != 'pg_catalog' AND\n    schemaname != 'information_schema';"@,
    }
}

/// The query that returns the names of all the tables of the database.
pub fn get_all_tables_query(d: SqlDialect) -> (r: String)
    ensures
        r@ == all_tables_query(d),
{
    match d {
        SqlDialect::Sqlite => String::from_str("SELECT name FROM sqlite_master WHERE type='table';"),
        SqlDialect::Postgres => String::from_str(
            "SELECT tablename FROM pg_catalog.pg_tables\nWHERE schemaname != 'pg_catalog' AND\n    schemaname != 'information_schema';",
        ),
    }
}

/// The query that deletes a table (Postgres writes table names in lowercase).
pub fn get_delete_table_query(d: SqlDialect, name: &str) -> (r: String)
    ensures
        r@ == "DROP TABLE "@ + (match d {
            SqlDialect::Sqlite => name@,
            SqlDialect::Postgres => spec_to_lowercase(name@),
        }),
{
    let mut r = String::from_str("DROP TABLE ");
    match d {
        SqlDialect::Sqlite => r.append(name),
        SqlDialect::Postgres => {
            let low = to_lowercase(name);
            r.append(low.as_str());
        },
    }
    r
}

pub open spec fn is_table_present_query(d: SqlDialect, table: Seq<char>) -> Seq<char> {
    match d {
        SqlDialect::Sqlite => "SELECT count(name) FROM sqlite_master WHERE type='table' AND name='"@ + table + "';"@,
        SqlDialect::Postgres => "SELECT EXISTS (\n   SELECT FROM pg_catalog.pg_class c\n   JOIN   pg_catalog.pg_namespace n ON n.oid = c.relnamespace\n   WHERE      c.relname = '"@
            + spec_to_lowercase(table)
            + "'\n   AND    c.relkind = 'r'    -- only tables\n   )::int;"@,
    }
}

/// The query that returns 1 when the table is present in the database, 0 otherwise.
pub fn get_is_table_present(d: SqlDialect, table_name: &str) -> (r: String)
    ensures
        r@ == is_table_present_query(d, table_name@),
{
    match d {
        SqlDialect::Sqlite => {
            let mut r = String::from_str("SELECT count(name) FROM sqlite_master WHERE type='table' AND name='");
            r.append(table_name);
            r.append("';");
            r
        },
        SqlDialect::Postgres => {
            let low = to_lowercase(table_name);
            let mut r = String::from_str(
                "SELECT EXISTS (\n   SELECT FROM pg_catalog.pg_class c\n   JOIN   pg_catalog.pg_namespace n ON n.oid = c.relnamespace\n   WHERE      c.relname = '",
            );
            r.append(low.as_str());
            r.append("'\n   AND    c.relkind = 'r'    -- only tables\n   )::int;");
            r
        },
    }
}

/// The type of a column of a table, with its optional default value.
#[derive(Debug, PartialEq, Eq)]
pub enum ColumnType {
    String { max_size: Option<usize>, default_value: Option<String> },
    Integer { default_value: Option<usize> },
    Float { default_value: Option<usize> },
    Boolean { default_value: Option<bool> },
}

pub open spec fn default_sql(d: Option<usize>) -> Seq<char> {
    match d {
        Some(v) => " DEFAULT "@ + dec(v as nat),
        None => Seq::empty(),
    }
}

/// The Sqlite writing of a column type.
pub open spec fn column_sql(c: ColumnType) -> Seq<char> {
    match c {
        ColumnType::String { max_size, default_value } => "VARCHAR"@
            + (match max_size { Some(m) => "("@ + dec(m as nat) + ")"@, None => Seq::empty() })
            + (match default_value { Some(v) => " DEFAULT "@ + v@, None => Seq::empty() }),
        ColumnType::Integer { default_value } => "INTEGER"@ + default_sql(default_value),
        ColumnType::Float { default_value } => "REAL"@ + default_sql(default_value),
        ColumnType::Boolean { default_value } => "INTEGER"@ + (match default_value {
            Some(b) => " DEFAULT "@ + (if b { "1"@ } else { "0"@ }),
            None => Seq::empty(),
        }),
    }
}

fn default_to_sql(r: &mut String, d: &Option<usize>)
    ensures
        final(r)@ == old(r)@ + default_sql(*d),
{
    match d {
        Some(v) => {
            r.append(" DEFAULT ");
            let s = usize_to_string(*v);
            r.append(s.as_str());
        },
        None => {
            proof {
                assert(old(r)@ + Seq::<char>::empty() =~= old(r)@);
            }
        },
    }
}

/// Writes a column type for Sqlite.
pub fn translate_column(column_type: &ColumnType) -> (r: String)
    ensures
        r@ == column_sql(*column_type),
{
    match column_type {
        ColumnType::String { max_size, default_value } => {
            let mut tmp = String::from_str("VARCHAR");
            match max_size {
                Some(m) => {
                    tmp.append("(");
                    let s = usize_to_string(*m);
                    tmp.append(s.as_str());
                    tmp.append(")");
                },
                None => {},
            }
            match default_value {
                Some(d) => {
                    tmp.append(" DEFAULT ");
                    tmp.append(d.as_str());
                },
                None => {},
            }
            proof {
                assert(tmp@ =~= column_sql(*column_type));
            }
            tmp
        },
        ColumnType::Integer { default_value } => {
            let mut tmp = String::from_str("INTEGER");
            default_to_sql(&mut tmp, default_value);
            tmp
        },
        ColumnType::Float { default_value } => {
            let mut tmp = String::from_str("REAL");
            default_to_sql(&mut tmp, default_value);
            tmp
        },
        ColumnType::Boolean { default_value } => {
            let mut tmp = String::from_str("INTEGER");
            match default_value {
                Some(d) => {
                    tmp.append(" DEFAULT ");
                    if *d {
                        tmp.append("1");
                    } else {
                        tmp.append("0");
                    }
                },
                None => {},
            }
            proof {
                assert(tmp@ =~= column_sql(*column_type));
            }
            tmp
        },
    }
}

/// The Sqlite query creating a table whose primary key is the only column.
pub fn get_create_table_query(table_name: &str, pk_column_name: &str, pk_column_type: &ColumnType) -> (r: String)
    ensures
        r@ == "CREATE TABLE "@ + table_name@ + " ("@ + pk_column_name@ + " "@ + column_sql(*pk_column_type)
            + " PRIMARY KEY NOT NULL)"@,
{
    let mut r = String::from_str("CREATE TABLE ");
    r.append(table_name);
    r.append(" (");
    r.append(pk_column_name);
    r.append(" ");
    let t = translate_column(pk_column_type);
    r.append(t.as_str());
    r.append(" PRIMARY KEY NOT NULL)");
    r
}

/// The Sqlite query creating a table with a primary key and a value column.
pub fn get_create_table_value_query(
    table_name: &str,
    pk_column_name: &str,
    pk_column_type: &ColumnType,
    value_column_name: &str,
    value_column_type: &ColumnType,
) -> (r: String)
    ensures
        r@ == "CREATE TABLE "@ + table_name@ + " ("@ + pk_column_name@ + " "@ + column_sql(*pk_column_type)
            + " PRIMARY KEY NOT NULL, "@ + value_column_name@ + " "@ + column_sql(*value_column_type) + ")"@,
{
    let mut r = String::from_str("CREATE TABLE ");
    r.append(table_name);
    r.append(" (");
    r.append(pk_column_name);
    r.append(" ");
    let t = translate_column(pk_column_type);
    r.append(t.as_str());
    r.append(" PRIMARY KEY NOT NULL, ");
    r.append(value_column_name);
    r.append(" ");
    let v = translate_column(value_column_type);
    r.append(v.as_str());
    r.append(")");
    r
}

} // verus!
