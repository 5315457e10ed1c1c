//! Tables of query results, kept whole or only by their first and last rows,
//! and written as LaTeX.
use vstd::prelude::*;
use std::collections::VecDeque;
use crate::text::{dec, push_chars, push_repeat, push_str, repeat_char, string_of, chars_of, usize_to_string};

verus! {

/// The options used when creating a [`QueryTable`].
#[derive(Debug, Clone, Copy, PartialEq, Eq, Structural)]
pub enum QueryTableOptions {
    /// The table stores and displays all values.
    Full,
    /// The table stores only the first and last rows added; use this when
    /// there is too much data to display.
    Partial {
        /// The number of first rows to keep
        first_rows_count: usize,
        /// The number of last rows to keep
        last_rows_count: usize,
    },
}

/// The rows kept by a table.
pub struct TableData {
    /// Some rows were left out between the first and the last ones.
    pub has_overflown: bool,
    /// The first rows.
    pub first_lines: Vec<Vec<String>>,
    /// The last rows.
    pub last_lines: VecDeque<Vec<String>>,
}

/// The rows a table keeps: whether some were left out, the first rows and the last rows.
#[verifier::ext_equal]
pub ghost struct TableModel {
    pub overflown: bool,
    pub first: Seq<Vec<String>>,
    pub last: Seq<Vec<String>>,
}

pub open spec fn table_model(d: TableData) -> TableModel {
    TableModel { overflown: d.has_overflown, first: d.first_lines@, last: d.last_lines@ }
}

/// The rows kept once `row` is added: all of them in full mode; otherwise
/// the first `first_rows_count + 1` rows (the header counts) and the last
/// `last_rows_count` rows.
pub open spec fn add_line_model(mode: QueryTableOptions, d: TableModel, row: Vec<String>) -> TableModel {
    match mode {
        QueryTableOptions::Full => TableModel { first: d.first.push(row), ..d },
        QueryTableOptions::Partial { first_rows_count, last_rows_count } => if d.first.len() <= first_rows_count {
            TableModel { first: d.first.push(row), ..d }
        } else {
            let full = d.last.len() == last_rows_count;
            let kept = if full && d.last.len() > 0 { d.last.subrange(1, d.last.len() as int) } else { d.last };
            TableModel {
                overflown: d.overflown || full,
                first: d.first,
                last: if last_rows_count != 0 { kept.push(row) } else { kept },
            }
        },
    }
}

/// The rows kept once the rows `rows` are added, in order, to no row: all of
/// them in full mode; otherwise the first `first_rows_count + 1` (the header
/// counts) and the last `last_rows_count` of the others, some rows being left
/// out when more than these remain.
pub open spec fn kept_rows(mode: QueryTableOptions, rows: Seq<Vec<String>>) -> TableModel {
    match mode {
        QueryTableOptions::Full => TableModel { overflown: false, first: rows, last: Seq::empty() },
        QueryTableOptions::Partial { first_rows_count, last_rows_count } => {
            let nf: int = if rows.len() <= first_rows_count + 1 { rows.len() as int } else { first_rows_count + 1 };
            let rest = rows.skip(nf);
            let nl: int = if rest.len() <= last_rows_count { rest.len() as int } else { last_rows_count as int };
            TableModel { overflown: rest.len() > last_rows_count, first: rows.take(nf), last: rest.skip(rest.len() - nl) }
        },
    }
}

/// The rows kept once the rows `rows` are added, one after the other, to those of `d`.
pub open spec fn add_lines_model(mode: QueryTableOptions, d: TableModel, rows: Seq<Vec<String>>) -> TableModel
    decreases rows.len(),
{
    if rows.len() == 0 {
        d
    } else {
        add_line_model(mode, add_lines_model(mode, d, rows.drop_last()), rows.last())
    }
}

/// Adding a row to the rows kept of `rows` keeps the rows of `rows` and that row.
pub proof fn lemma_add_line_kept(mode: QueryTableOptions, rows: Seq<Vec<String>>, row: Vec<String>)
    ensures
        add_line_model(mode, kept_rows(mode, rows), row) == kept_rows(mode, rows.push(row)),
{
    let r2 = rows.push(row);
    match mode {
        QueryTableOptions::Full => {},
        QueryTableOptions::Partial { first_rows_count: f, last_rows_count: l } => {
            let d = kept_rows(mode, rows);
            let e = kept_rows(mode, r2);
            let n = rows.len();
            if n <= f {
                assert(rows.take(n as int) =~= rows);
                assert(r2.take(n + 1int) =~= r2);
                assert(rows.skip(n as int).len() == 0);
                assert(r2.skip(n + 1int).len() == 0);
                assert(d.first =~= rows);
                assert(d.last =~= Seq::<Vec<String>>::empty());
                assert(e.last =~= Seq::<Vec<String>>::empty());
                assert(add_line_model(mode, d, row) =~= e);
            } else {
                let nf = f + 1;
                let rest = rows.skip(nf as int);
                let rest2 = r2.skip(nf as int);
                assert(rest2 =~= rest.push(row));
                assert(r2.take(nf as int) =~= rows.take(nf as int));
                let m = rest.len();
                if m >= l {
                    if l > 0 {
                        assert(d.last.subrange(1, d.last.len() as int).push(row) =~= rest2.skip(rest2.len() - l));
                    } else {
                        assert(e.last =~= Seq::<Vec<String>>::empty());
                    }
                } else {
                    assert(rest.skip(0) =~= rest);
                    assert(rest2.skip(0) =~= rest2);
                }
                assert(add_line_model(mode, d, row) =~= e);
            }
        },
    }
}

/// Rows added one after the other to no row leave the rows kept of all of
/// them: in full mode all the rows; otherwise the first `first_rows_count + 1`
/// and the last `last_rows_count` of the others, with `overflown` exactly when
/// more rows than these were added.
pub proof fn lemma_add_lines(mode: QueryTableOptions, rows: Seq<Vec<String>>)
    ensures
        add_lines_model(mode, (TableModel { overflown: false, first: Seq::empty(), last: Seq::empty() }), rows) == kept_rows(mode, rows),
    decreases rows.len(),
{
    if rows.len() == 0 {
        match mode {
            QueryTableOptions::Full => {},
            QueryTableOptions::Partial { .. } => {
                assert(rows.take(0) =~= Seq::<Vec<String>>::empty());
                assert(rows.skip(0).skip(0) =~= Seq::<Vec<String>>::empty());
            },
        }
    } else {
        lemma_add_lines(mode, rows.drop_last());
        lemma_add_line_kept(mode, rows.drop_last(), rows.last());
        assert(rows.drop_last().push(rows.last()) =~= rows);
    }
}

impl QueryTableOptions {
    /// Adds a row to the rows kept.
    pub fn add_line(&self, data: &mut TableData, row: Vec<String>)
        ensures
            table_model(*final(data)) == add_line_model(*self, table_model(*old(data)), row),
    {
        match self {
            QueryTableOptions::Full => {
                data.first_lines.push(row);
            },
            QueryTableOptions::Partial { first_rows_count, last_rows_count } => {
                if data.first_lines.len() <= *first_rows_count {
                    data.first_lines.push(row);
                } else {
                    if data.last_lines.len() == *last_rows_count {
                        data.has_overflown = true;
                        data.last_lines.pop_front();
                    }
                    if *last_rows_count != 0 {
                        data.last_lines.push_back(row);
                    }
                }
            },
        }
    }
}

/// A table that stores rows of values and displays them, preceded by their index.
pub struct QueryTable {
    curr_index: usize,
    table_data: TableData,
    header_added: bool,
    mode: QueryTableOptions,
}

/// No row of `rows` is empty.
pub open spec fn rows_filled(rows: Seq<Vec<String>>) -> bool {
    forall|i: int| 0 <= i < rows.len() ==> (#[trigger] rows[i])@.len() > 0
}

impl QueryTable {
    /// Whether the header was added.
    pub closed spec fn has_header(&self) -> bool {
        self.header_added
    }

    /// The index of the next row.
    pub closed spec fn next_index(&self) -> nat {
        self.curr_index as nat
    }

    /// The rows kept by the table.
    pub closed spec fn rows(&self) -> TableModel {
        table_model(self.table_data)
    }

    /// The options of the table.
    pub closed spec fn mode(&self) -> QueryTableOptions {
        self.mode
    }

    /// Each row kept holds at least its index, and the header is the first row once added.
    pub closed spec fn wf(&self) -> bool {
        &&& rows_filled(self.table_data.first_lines@)
        &&& rows_filled(self.table_data.last_lines@)
        &&& (self.header_added <==> self.table_data.first_lines@.len() > 0)
    }

    /// A table with no row, whose first row added is the header.
    pub fn new_no_header(mode: QueryTableOptions) -> (r: Self)
        ensures
            r.wf(),
            !r.has_header(),
            r.next_index() == 0,
            r.mode() == mode,
            r.rows() == (TableModel { overflown: false, first: Seq::empty(), last: Seq::empty() }),
    {
        QueryTable {
            curr_index: 0,
            table_data: TableData { has_overflown: false, first_lines: Vec::new(), last_lines: VecDeque::new() },
            header_added: false,
            mode,
        }
    }

    /// A table with the given header.
    pub fn new(header: Vec<String>, mode: QueryTableOptions) -> (r: Self)
        ensures
            made_with_header(r, header, mode),
    {
        let mut res = Self::new_no_header(mode);
        res.push_line(header);
        res
    }

    /// Adds a row, preceded by `i` if it is the header, and by its index otherwise.
    pub fn push_line(&mut self, values: Vec<String>)
        requires
            old(self).wf(),
            old(self).next_index() < usize::MAX,
        ensures
            pushed(*old(self), *final(self), values),
    {
        let mut row: Vec<String> = Vec::new();
        let ghost old_self = *self;
        if !self.header_added {
            self.header_added = true;
            row.push(String::from_str("i"));
        } else {
            let idx = self.curr_index;
            self.curr_index = self.curr_index + 1;
            row.push(usize_to_string(idx));
        }
        let mut v = values;
        let ghost vals = v@;
        row.append(&mut v);
        assert(row@.skip(1) =~= vals);
        let ghost r = row;
        self.mode.add_line(&mut self.table_data, row);
        proof {
            let label = if !old_self.header_added { "i"@ } else { dec(old_self.curr_index as nat) };
            assert(r@[0]@ == label);
            assert(r@.len() == vals.len() + 1);
            assert(self.rows() == add_line_model(old_self.mode, old_self.rows(), r));
            assert(r@.len() > 0);
            let m = self.table_data;
            assert forall|i: int| 0 <= i < m.first_lines@.len() implies (#[trigger] m.first_lines@[i])@.len() > 0 by {}
            assert forall|i: int| 0 <= i < m.last_lines@.len() implies (#[trigger] m.last_lines@[i])@.len() > 0 by {}
        }
    }
}


/// `t` is a table made with the header `header`, in the mode `mode`: its
/// only row is `i` followed by the header.
pub open spec fn made_with_header(t: QueryTable, header: Vec<String>, mode: QueryTableOptions) -> bool {
    &&& t.wf()
    &&& t.has_header()
    &&& t.next_index() == 0
    &&& t.mode() == mode
    &&& t.rows().first.len() == 1
    &&& t.rows().first[0]@.len() == header@.len() + 1
    &&& t.rows().first[0]@[0]@ == "i"@
    &&& t.rows().first[0]@.skip(1) == header@
    &&& t.rows().last.len() == 0
    &&& !t.rows().overflown
}

/// `after` is the table `before` once the row `values` is pushed: the row is
/// preceded by `i` if it is the header, the first row pushed, and by the
/// table's next index otherwise, which then grows by one.
pub open spec fn pushed(before: QueryTable, after: QueryTable, values: Vec<String>) -> bool {
    let first = !before.has_header();
    let label = if first { "i"@ } else { dec(before.next_index()) };
    &&& after.wf()
    &&& after.mode() == before.mode()
    &&& after.has_header()
    &&& after.next_index() == if first { before.next_index() } else { before.next_index() + 1 }
    &&& exists|row: Vec<String>|
        row@.len() == values@.len() + 1 && row@[0]@ == label && row@.skip(1) == values@ && after.rows() == add_line_model(
            before.mode(),
            before.rows(),
            row,
        )
}

/// `t` is a table with no row and no header.
pub open spec fn made_empty(t: QueryTable) -> bool {
    &&& t.wf()
    &&& !t.has_header()
    &&& t.next_index() == 0
    &&& t.rows() == (TableModel { overflown: false, first: Seq::empty(), last: Seq::empty() })
}

/// The rows `rows` are the rows `values` with their labels: `i` for the
/// first, the header, then the indexes from 0.
pub open spec fn labelled(rows: Seq<Vec<String>>, values: Seq<Vec<String>>) -> bool {
    &&& rows.len() == values.len()
    &&& forall|k: int|
        0 <= k < rows.len() ==> {
            &&& (#[trigger] rows[k])@.len() == values[k]@.len() + 1
            &&& rows[k]@[0]@ == if k == 0 { "i"@ } else { dec((k - 1) as nat) }
            &&& rows[k]@.skip(1) == values[k]@
        }
}

/// The text of the rows kept: whether some were left out, and the
/// characters of each cell of the first and of the last rows.
pub open spec fn rows_text(m: TableModel) -> (bool, Seq<Seq<Seq<char>>>, Seq<Seq<Seq<char>>>) {
    (m.overflown, Seq::new(m.first.len(), |i: int| row_chars(m.first[i]@)), Seq::new(m.last.len(), |i: int| row_chars(m.last[i]@)))
}

/// The state after the first `n` pushes of a run of pushes to an empty table.
proof fn lemma_push_prefix(ts: Seq<QueryTable>, vs: Seq<Vec<String>>, n: int) -> (rows: Seq<Vec<String>>)
    requires
        ts.len() == vs.len() + 1,
        made_empty(ts[0]),
        forall|k: int| 0 <= k < vs.len() ==> pushed(#[trigger] ts[k], ts[k + 1], vs[k]),
        0 <= n <= vs.len(),
    ensures
        labelled(rows, vs.take(n)),
        ts[n].mode() == ts[0].mode(),
        ts[n].has_header() == (n > 0),
        ts[n].next_index() == if n == 0 { 0 } else { n - 1 },
        ts[n].rows() == add_lines_model(ts[0].mode(), (TableModel { overflown: false, first: Seq::empty(), last: Seq::empty() }), rows),
    decreases n,
{
    if n == 0 {
        Seq::empty()
    } else {
        let prev = lemma_push_prefix(ts, vs, n - 1);
        assert(pushed(ts[n - 1], ts[n], vs[n - 1]));
        let label = if n - 1 == 0 { "i"@ } else { dec((n - 2) as nat) };
        let row = choose|row: Vec<String>|
            row@.len() == vs[n - 1]@.len() + 1 && row@[0]@ == label && row@.skip(1) == vs[n - 1]@ && ts[n].rows() == add_line_model(
                ts[n - 1].mode(),
                ts[n - 1].rows(),
                row,
            );
        let rows = prev.push(row);
        assert(rows.drop_last() =~= prev);
        assert forall|k: int| 0 <= k < rows.len() implies {
            &&& (#[trigger] rows[k])@.len() == vs.take(n)[k]@.len() + 1
            &&& rows[k]@[0]@ == if k == 0 { "i"@ } else { dec((k - 1) as nat) }
            &&& rows[k]@.skip(1) == vs.take(n)[k]@
        } by {
            if k < n - 1 {
                assert(rows[k] == prev[k]);
                assert(vs.take(n)[k] == vs.take(n - 1)[k]);
            }
        }
        rows
    }
}

/// Rows pushed one after the other to a table with no row leave, in it, the
/// rows kept of all of them, each with its label: in full mode all of them;
/// otherwise the header and the first `first_rows_count` others, and the
/// last `last_rows_count` rows.
pub proof fn lemma_push_lines(ts: Seq<QueryTable>, vs: Seq<Vec<String>>)
    requires
        ts.len() == vs.len() + 1,
        made_empty(ts[0]),
        forall|k: int| 0 <= k < vs.len() ==> pushed(#[trigger] ts[k], ts[k + 1], vs[k]),
    ensures
        exists|rows: Seq<Vec<String>>| labelled(rows, vs) && ts.last().rows() == kept_rows(ts[0].mode(), rows),
{
    let rows = lemma_push_prefix(ts, vs, vs.len() as int);
    assert(vs.take(vs.len() as int) =~= vs);
    lemma_add_lines(ts[0].mode(), rows);
    assert(labelled(rows, vs) && ts.last().rows() == kept_rows(ts[0].mode(), rows));
}

/// A table made with a header is, as far as its state shows, a table made
/// with none once the header is pushed to it.
pub proof fn lemma_new_is_header_pushed(t: QueryTable, t0: QueryTable, t2: QueryTable, header: Vec<String>, mode: QueryTableOptions)
    requires
        made_with_header(t, header, mode),
        made_empty(t0),
        t0.mode() == mode,
        pushed(t0, t2, header),
    ensures
        t2.has_header() == t.has_header(),
        t2.next_index() == t.next_index(),
        t2.mode() == t.mode(),
        rows_text(t2.rows()) == rows_text(t.rows()),
{
    let row = choose|row: Vec<String>|
        row@.len() == header@.len() + 1 && row@[0]@ == "i"@ && row@.skip(1) == header@ && t2.rows() == add_line_model(
            t0.mode(),
            t0.rows(),
            row,
        );
    let r1 = t.rows().first[0];
    assert(t2.rows().first =~= seq![row]);
    assert(t2.rows().last =~= Seq::<Vec<String>>::empty());
    assert(row_chars(row@) =~= row_chars(r1@)) by {
        assert forall|j: int| 0 <= j < row@.len() implies row@[j]@ == r1@[j]@ by {
            if j > 0 {
                assert(row@[j] == row@.skip(1)[j - 1]);
                assert(r1@[j] == r1@.skip(1)[j - 1]);
            }
        }
    }
    assert(rows_text(t2.rows()).1 =~= rows_text(t.rows()).1);
    assert(rows_text(t2.rows()).2 =~= rows_text(t.rows()).2);
}

// ______________________________ LaTeX

/// How a character is written in LaTeX.
pub open spec fn latex_char(c: char) -> Seq<char> {
    if c == '_' {
        "\\_"@
    } else if c == '%' {
        "\\%"@
    } else if c == '{' {
        "\\{"@
    } else if c == '}' {
        "\\}"@
    } else if c == '$' {
        "\\$"@
    } else if c == '\\' {
        "\\textbackslash{}"@
    } else if c == '^' {
        "\\textasciicircum{}"@
    } else if c == '~' {
        "\\textasciitilde{}"@
    } else {
        seq![c]
    }
}

/// `s` with the characters that LaTeX reads as commands escaped.
pub open spec fn sanitized(s: Seq<char>) -> Seq<char>
    decreases s.len(),
{
    if s.len() == 0 {
        Seq::empty()
    } else {
        sanitized(s.drop_last()) + latex_char(s.last())
    }
}

/// The characters that LaTeX reads as commands or markup rather than text.
pub open spec fn latex_special(c: char) -> bool {
    c == '_' || c == '%' || c == '{' || c == '}' || c == '$' || c == '\\' || c == '^' || c == '~'
}

/// Sanitizing works character by character, and writes each character that
/// LaTeX reads as special as a command that prints it: `_ % { } $` behind a
/// backslash, and `\\`, `^`, `~` as `\textbackslash{}`,
/// `\textasciicircum{}` and `\textasciitilde{}`; every other character is
/// kept as it is. In bold, the sanitized text stands in `\textbf{...}`.
pub proof fn law_sanitized(s: Seq<char>, t: Seq<char>, c: char)
    ensures
        sanitized(Seq::empty()) == Seq::<char>::empty(),
        sanitized(s + t) == sanitized(s) + sanitized(t),
        !latex_special(c) ==> sanitized(seq![c]) == seq![c],
        (c == '_' || c == '%' || c == '{' || c == '}' || c == '$') ==> sanitized(seq![c]) == seq!['\\', c],
        c == '\\' ==> sanitized(seq![c]) == seq!['\\', 't', 'e', 'x', 't', 'b', 'a', 'c', 'k', 's', 'l', 'a', 's', 'h', '{', '}'],
        c == '^' ==> sanitized(seq![c]) == seq!['\\', 't', 'e', 'x', 't', 'a', 's', 'c', 'i', 'i', 'c', 'i', 'r', 'c', 'u', 'm', '{', '}'],
        c == '~' ==> sanitized(seq![c]) == seq!['\\', 't', 'e', 'x', 't', 'a', 's', 'c', 'i', 'i', 't', 'i', 'l', 'd', 'e', '{', '}'],
        sanitize_spec(s, true) == seq!['\\', 't', 'e', 'x', 't', 'b', 'f', '{'] + sanitized(s) + seq!['}'],
        sanitize_spec(s, false) == sanitized(s),
    decreases t.len(),
{
    reveal_strlit("\\_");
    reveal_strlit("\\%");
    reveal_strlit("\\{");
    reveal_strlit("\\}");
    reveal_strlit("\\$");
    reveal_strlit("\\textbackslash{}");
    reveal_strlit("\\textasciicircum{}");
    reveal_strlit("\\textasciitilde{}");
    reveal_strlit("\\textbf{");
    reveal_strlit("}");
    assert(seq![c].drop_last() =~= Seq::<char>::empty());
    assert(seq![c].last() == c);
    assert(sanitized(Seq::<char>::empty()) == Seq::<char>::empty());
    assert(sanitized(seq![c]) == sanitized(Seq::<char>::empty()) + latex_char(c));
    assert(sanitized(seq![c]) =~= latex_char(c));
    assert("\\_"@ =~= seq!['\\', '_']);
    assert("\\%"@ =~= seq!['\\', '%']);
    assert("\\{"@ =~= seq!['\\', '{']);
    assert("\\}"@ =~= seq!['\\', '}']);
    assert("\\$"@ =~= seq!['\\', '$']);
    assert("\\textbackslash{}"@ =~= seq!['\\', 't', 'e', 'x', 't', 'b', 'a', 'c', 'k', 's', 'l', 'a', 's', 'h', '{', '}']);
    assert("\\textasciicircum{}"@ =~= seq!['\\', 't', 'e', 'x', 't', 'a', 's', 'c', 'i', 'i', 'c', 'i', 'r', 'c', 'u', 'm', '{', '}']);
    assert("\\textasciitilde{}"@ =~= seq!['\\', 't', 'e', 'x', 't', 'a', 's', 'c', 'i', 'i', 't', 'i', 'l', 'd', 'e', '{', '}']);
    assert("\\textbf{"@ =~= seq!['\\', 't', 'e', 'x', 't', 'b', 'f', '{']);
    assert("}"@ =~= seq!['}']);
    if t.len() == 0 {
        assert(s + t =~= s);
    } else {
        law_sanitized(s, t.drop_last(), c);
        assert((s + t).drop_last() =~= s + t.drop_last());
        assert((s + t).last() == t.last());
    }
}

/// `s` sanitized, in bold when `bold`.
pub open spec fn sanitize_spec(s: Seq<char>, bold: bool) -> Seq<char> {
    if bold {
        "\\textbf{"@ + sanitized(s) + "}"@
    } else {
        sanitized(s)
    }
}

/// The number of bytes of the UTF-8 encoding of `c`.
pub open spec fn char_len(c: char) -> nat {
    let u = c as u32;
    if u < 0x80 {
        1
    } else if u < 0x800 {
        2
    } else if u < 0x10000 {
        3
    } else {
        4
    }
}

/// The number of bytes of the UTF-8 encoding of `s`.
pub open spec fn byte_len(s: Seq<char>) -> nat
    decreases s.len(),
{
    if s.len() == 0 {
        0
    } else {
        byte_len(s.drop_last()) + char_len(s.last())
    }
}

/// `str::len`: the length of `s` in bytes, that of its UTF-8 encoding.
#[verifier::external_body]
fn str_byte_len(s: &str) -> (r: usize)
    ensures
        r == byte_len(s@),
{
    s.len()
}

/// Escapes the characters of `value` that LaTeX reads as commands, and puts
/// the result in bold when `bold`.
pub fn sanitize_latex(value: &str, bold: bool) -> (r: String)
    ensures
        r@ == sanitize_spec(value@, bold),
{
    let cs = chars_of(value);
    let mut out: Vec<char> = Vec::new();
    if bold {
        push_str(&mut out, "\\textbf{");
    }
    let ghost start = out@;
    let mut i: usize = 0;
    while i < cs.len()
        invariant
            i <= cs@.len(),
            cs@ == value@,
            out@ == start + sanitized(cs@.take(i as int)),
        decreases cs.len() - i,
    {
        let c = cs[i];
        if c == '_' {
            push_str(&mut out, "\\_");
        } else if c == '%' {
            push_str(&mut out, "\\%");
        } else if c == '{' {
            push_str(&mut out, "\\{");
        } else if c == '}' {
            push_str(&mut out, "\\}");
        } else if c == '$' {
            push_str(&mut out, "\\$");
        } else if c == '\\' {
            push_str(&mut out, "\\textbackslash{}");
        } else if c == '^' {
            push_str(&mut out, "\\textasciicircum{}");
        } else if c == '~' {
            push_str(&mut out, "\\textasciitilde{}");
        } else {
            out.push(c);
        }
        assert(cs@.take(i + 1).drop_last() =~= cs@.take(i as int));
        i += 1;
        assert(out@ =~= start + sanitized(cs@.take(i as int)));
    }
    assert(cs@.take(i as int) =~= value@);
    if bold {
        push_str(&mut out, "}");
    }
    assert(out@ =~= sanitize_spec(value@, bold));
    string_of(&out)
}

/// A cell of a LaTeX row, filled with spaces up to `fill` bytes.
pub open spec fn latex_cell(v: Seq<char>, fill: nat) -> Seq<char> {
    v + repeat_char(' ', (fill - byte_len(v)) as nat)
}

/// The cells of `line`, each followed by ` & `.
pub open spec fn latex_cells(line: Seq<Seq<char>>, fill: nat) -> Seq<char>
    decreases line.len(),
{
    if line.len() == 0 {
        Seq::empty()
    } else {
        latex_cells(line.drop_last(), fill) + latex_cell(line.last(), fill) + " & "@
    }
}

/// A row of a LaTeX table, each cell filled up to `fill` bytes.
pub open spec fn latex_row(line: Seq<Seq<char>>, fill: nat) -> Seq<char> {
    latex_cells(line.drop_last(), fill) + latex_cell(line.last(), fill) + " \\\\ \\hline\n"@
}

/// The characters of each string of `r`.
pub open spec fn row_chars(r: Seq<String>) -> Seq<Seq<char>> {
    Seq::new(r.len(), |i: int| r[i]@)
}

/// The largest number of bytes among the cells of `r`.
pub open spec fn row_max(r: Seq<Seq<char>>) -> nat
    decreases r.len(),
{
    if r.len() == 0 {
        0
    } else {
        let m = row_max(r.drop_last());
        let b = byte_len(r.last());
        if m >= b { m } else { b }
    }
}

/// The largest number of bytes among the cells of `rows`.
pub open spec fn max_width(rows: Seq<Seq<Seq<char>>>) -> nat
    decreases rows.len(),
{
    if rows.len() == 0 {
        0
    } else {
        let m = max_width(rows.drop_last());
        let b = row_max(rows.last());
        if m >= b { m } else { b }
    }
}

/// The rows of a LaTeX table, one after the other.
pub open spec fn latex_body(rows: Seq<Seq<Seq<char>>>, fill: nat) -> Seq<char>
    decreases rows.len(),
{
    if rows.len() == 0 {
        Seq::empty()
    } else {
        latex_body(rows.drop_last(), fill) + latex_row(rows.last(), fill)
    }
}

/// The cells written for the left-out rows.
pub open spec fn dots() -> Seq<char> {
    "$\\cdots$"@
}

/// The sanitized cells of a row.
pub open spec fn sanitize_row(r: Seq<Seq<char>>, bold: bool) -> Seq<Seq<char>> {
    Seq::new(r.len(), |j: int| sanitize_spec(r[j], bold))
}

/// The sanitized rows of a table: the first ones, the header in bold, a row
/// of dots when rows were left out, and the last ones.
pub open spec fn latex_rows(t: TableModel) -> Seq<Seq<Seq<char>>> {
    Seq::new(t.first.len(), |i: int| sanitize_row(row_chars(t.first[i]@), i == 0))
        + (if t.overflown { seq![Seq::new(t.first[0]@.len(), |j: int| dots())] } else { Seq::empty() })
        + Seq::new(t.last.len(), |i: int| sanitize_row(row_chars(t.last[i]@), false))
}

/// `s` repeated `n` times.
pub open spec fn repeat_text(s: Seq<char>, n: nat) -> Seq<char>
    decreases n,
{
    if n == 0 {
        Seq::empty()
    } else {
        repeat_text(s, (n - 1) as nat) + s
    }
}

/// The LaTeX writing of a table whose header is its first row.
pub open spec fn latex_text(t: TableModel) -> Seq<char> {
    let rows = latex_rows(t);
    "\\begin{table}[]\n\\begin{tabular}{|"@ + repeat_text("l|"@, t.first[0]@.len()) + "}\n\\hline\n"@
        + latex_body(rows, max_width(rows)) + "\\end{tabular}\n\\end{table}"@
}

/// The LaTeX writing of a table with no header.
pub open spec fn empty_latex() -> Seq<char> {
    "\\begin{table}[]\n\\begin{tabular}{|l|}\n\\hline\n\\textbf{Empty table}    \\\\ \\hline\n\\multicolumn{1}{|c|}{/} \\\\ \\hline\n\\end{tabular}\n\\end{table}"@
}

/// Appends the cell `v`, filled up to `fill` bytes.
fn push_cell(out: &mut Vec<char>, v: &Vec<char>, fill: usize)
    requires
        byte_len(v@) <= fill,
    ensures
        final(out)@ == old(out)@ + latex_cell(v@, fill as nat),
{
    let s = string_of(v);
    let n = str_byte_len(s.as_str());
    push_chars(out, v);
    push_repeat(out, ' ', fill - n);
}

/// Appends the LaTeX row of `line`.
fn push_latex_row(out: &mut Vec<char>, line: &Vec<Vec<char>>, fill: usize)
    requires
        line@.len() > 0,
        forall|j: int| 0 <= j < line@.len() ==> byte_len((#[trigger] line@[j])@) <= fill,
    ensures
        final(out)@ == old(out)@ + latex_row(Seq::new(line@.len(), |j: int| line@[j]@), fill as nat),
{
    let ghost cells = Seq::new(line@.len(), |j: int| line@[j]@);
    let mut k: usize = 0;
    let last = line.len() - 1;
    while k < last
        invariant
            line@.len() > 0,
            last == line@.len() - 1,
            k <= last,
            cells == Seq::new(line@.len(), |j: int| line@[j]@),
            forall|j: int| 0 <= j < line@.len() ==> byte_len((#[trigger] line@[j])@) <= fill,
            out@ == old(out)@ + latex_cells(cells.take(k as int), fill as nat),
        decreases line.len() - k,
    {
        push_cell(out, &line[k], fill);
        push_str(out, " & ");
        assert(cells.take(k + 1).drop_last() =~= cells.take(k as int));
        k += 1;
        assert(out@ =~= old(out)@ + latex_cells(cells.take(k as int), fill as nat));
    }
    assert(cells.take(k as int) =~= cells.drop_last());
    push_cell(out, &line[k], fill);
    push_str(out, " \\\\ \\hline\n");
    assert(out@ =~= old(out)@ + latex_row(cells, fill as nat));
}

/// The LaTeX row of `line`, each cell filled with spaces up to `fill_len` bytes.
pub fn to_latex_row(line: &Vec<String>, fill_len: usize) -> (r: String)
    requires
        line@.len() > 0,
        forall|j: int| 0 <= j < line@.len() ==> byte_len((#[trigger] line@[j])@) <= fill_len,
    ensures
        r@ == latex_row(row_chars(line@), fill_len as nat),
{
    let mut cells: Vec<Vec<char>> = Vec::new();
    let mut j: usize = 0;
    while j < line.len()
        invariant
            j <= line@.len(),
            cells@.len() == j,
            forall|k: int| 0 <= k < j ==> (#[trigger] cells@[k])@ == line@[k]@,
        decreases line.len() - j,
    {
        cells.push(chars_of(line[j].as_str()));
        j += 1;
    }
    let mut out: Vec<char> = Vec::new();
    push_latex_row(&mut out, &cells, fill_len);
    assert(Seq::new(cells@.len(), |k: int| cells@[k]@) =~= row_chars(line@));
    string_of(&out)
}

/// The values, as strings.
pub fn to_vec_string(vec: Vec<String>) -> (r: Vec<String>)
    ensures
        r@ == vec@,
{
    let mut res: Vec<String> = Vec::new();
    let mut v = vec;
    res.append(&mut v);
    res
}


/// The characters of each cell of a row.
pub open spec fn row_view(r: Vec<Vec<char>>) -> Seq<Seq<char>> {
    Seq::new(r@.len(), |j: int| r@[j]@)
}

/// The characters of each cell of each row.
pub open spec fn rows_view(rows: Seq<Vec<Vec<char>>>) -> Seq<Seq<Seq<char>>> {
    Seq::new(rows.len(), |i: int| row_view(rows[i]))
}

fn sanitize_row_x(r: &Vec<String>, bold: bool) -> (out: Vec<Vec<char>>)
    ensures
        row_view(out) == sanitize_row(row_chars(r@), bold),
{
    let mut out: Vec<Vec<char>> = Vec::new();
    let mut j: usize = 0;
    while j < r.len()
        invariant
            j <= r@.len(),
            out@.len() == j,
            forall|k: int| 0 <= k < j ==> (#[trigger] out@[k])@ == sanitize_spec(r@[k]@, bold),
        decreases r.len() - j,
    {
        let v = sanitize_latex(r[j].as_str(), bold);
        out.push(chars_of(v.as_str()));
        j += 1;
    }
    assert(row_view(out) =~= sanitize_row(row_chars(r@), bold));
    out
}

fn row_max_x(r: &Vec<Vec<char>>) -> (m: usize)
    ensures
        m == row_max(row_view(*r)),
        forall|j: int| 0 <= j < r@.len() ==> byte_len((#[trigger] r@[j])@) <= m,
{
    let mut m: usize = 0;
    let mut j: usize = 0;
    while j < r.len()
        invariant
            j <= r@.len(),
            m == row_max(row_view(*r).take(j as int)),
            forall|k: int| 0 <= k < j ==> byte_len((#[trigger] r@[k])@) <= m,
        decreases r.len() - j,
    {
        let n = str_byte_len(string_of(&r[j]).as_str());
        assert(row_view(*r).take(j + 1).drop_last() =~= row_view(*r).take(j as int));
        assert(row_view(*r).take(j + 1).last() == r@[j as int]@);
        if n > m {
            m = n;
        }
        j += 1;
    }
    assert(row_view(*r).take(j as int) =~= row_view(*r));
    m
}

fn max_width_x(rows: &Vec<Vec<Vec<char>>>) -> (m: usize)
    ensures
        m == max_width(rows_view(rows@)),
        forall|i: int, j: int| 0 <= i < rows@.len() && 0 <= j < rows@[i]@.len() ==> byte_len((#[trigger] rows@[i]@[j])@) <= m,
{
    let mut m: usize = 0;
    let mut i: usize = 0;
    while i < rows.len()
        invariant
            i <= rows@.len(),
            m == max_width(rows_view(rows@).take(i as int)),
            forall|a: int, j: int| 0 <= a < i && 0 <= j < rows@[a]@.len() ==> byte_len((#[trigger] rows@[a]@[j])@) <= m,
        decreases rows.len() - i,
    {
        let n = row_max_x(&rows[i]);
        assert(rows_view(rows@).take(i + 1).drop_last() =~= rows_view(rows@).take(i as int));
        assert(rows_view(rows@).take(i + 1).last() == row_view(rows@[i as int]));
        if n > m {
            m = n;
        }
        i += 1;
    }
    assert(rows_view(rows@).take(i as int) =~= rows_view(rows@));
    m
}

impl QueryTable {
    /// The table written as LaTeX, its values sanitized.
    pub fn to_latex(&self) -> (r: String)
        requires
            self.wf(),
        ensures
            r@ == if !self.has_header() { empty_latex() } else { latex_text(self.rows()) },
    {
        if !self.header_added {
            return String::from_str(
                "\\begin{table}[]\n\\begin{tabular}{|l|}\n\\hline\n\\textbf{Empty table}    \\\\ \\hline\n\\multicolumn{1}{|c|}{/} \\\\ \\hline\n\\end{tabular}\n\\end{table}",
            );
        }
        let ghost t = self.rows();
        let ghost want = latex_rows(t);
        let first = &self.table_data.first_lines;
        let last = &self.table_data.last_lines;
        let nb_cols = first[0].len();
        let mut rows: Vec<Vec<Vec<char>>> = Vec::new();
        let mut i: usize = 0;
        while i < first.len()
            invariant
                i <= first@.len(),
                first@ == t.first,
                want == latex_rows(t),
                rows@.len() == i,
                forall|k: int| 0 <= k < i ==> row_view(#[trigger] rows@[k]) == want[k],
            decreases first.len() - i,
        {
            rows.push(sanitize_row_x(&first[i], i == 0));
            i += 1;
        }
        if self.table_data.has_overflown {
            let mut dots_row: Vec<Vec<char>> = Vec::new();
            let mut j: usize = 0;
            while j < nb_cols
                invariant
                    j <= nb_cols,
                    dots_row@.len() == j,
                    forall|k: int| 0 <= k < j ==> (#[trigger] dots_row@[k])@ == dots(),
                decreases nb_cols - j,
            {
                dots_row.push(chars_of("$\\cdots$"));
                j += 1;
            }
            assert(row_view(dots_row) =~= Seq::new(t.first[0]@.len(), |j: int| dots()));
            rows.push(dots_row);
        }
        let ghost base = rows@.len();
        let mut i: usize = 0;
        while i < last.len()
            invariant
                i <= last@.len(),
                last@ == t.last,
                want == latex_rows(t),
                base == t.first.len() + if t.overflown { 1int } else { 0int },
                rows@.len() == base + i,
                forall|k: int| 0 <= k < base + i ==> row_view(#[trigger] rows@[k]) == want[k],
            decreases last.len() - i,
        {
            rows.push(sanitize_row_x(&last[i], false));
            i += 1;
        }
        assert(rows_view(rows@) =~= want);
        let max = max_width_x(&rows);
        let mut out: Vec<char> = Vec::new();
        push_str(&mut out, "\\begin{table}[]\n\\begin{tabular}{|");
        let ghost head = out@;
        let mut j: usize = 0;
        while j < nb_cols
            invariant
                j <= nb_cols,
                out@ == head + repeat_text("l|"@, j as nat),
            decreases nb_cols - j,
        {
            push_str(&mut out, "l|");
            j += 1;
        }
        push_str(&mut out, "}\n\\hline\n");
        let ghost before = out@;
        let mut k: usize = 0;
        while k < rows.len()
            invariant
                k <= rows@.len(),
                out@ == before + latex_body(rows_view(rows@).take(k as int), max as nat),
                forall|i: int, j: int| 0 <= i < rows@.len() && 0 <= j < rows@[i]@.len() ==> byte_len((#[trigger] rows@[i]@[j])@) <= max,
                forall|i: int| 0 <= i < rows@.len() ==> (#[trigger] rows@[i])@.len() > 0,
            decreases rows.len() - k,
        {
            push_latex_row(&mut out, &rows[k], max);
            assert(rows_view(rows@).take(k + 1).drop_last() =~= rows_view(rows@).take(k as int));
            k += 1;
        }
        assert(rows_view(rows@).take(k as int) =~= rows_view(rows@));
        push_str(&mut out, "\\end{tabular}\n\\end{table}");
        assert(out@ =~= latex_text(t));
        string_of(&out)
    }
}


/// The largest number of cells among `rows`.
pub open spec fn max_cols(rows: Seq<Seq<Seq<char>>>) -> nat
    decreases rows.len(),
{
    if rows.len() == 0 {
        0
    } else {
        let m = max_cols(rows.drop_last());
        if m >= rows.last().len() { m } else { rows.last().len() }
    }
}

/// The rows shown when the table is displayed: a note when it has no header
/// or no row, the first rows, then, in partial mode, a row of `...` as wide
/// as the widest row so far when rows were left out, and the last rows.
pub open spec fn shown_rows(header_added: bool, t: TableModel, mode: QueryTableOptions) -> Seq<Seq<Seq<char>>> {
    let pre = (if !header_added { seq![seq!["Empty table"@]] } else { Seq::empty() })
        + (if t.first.len() == 0 && t.last.len() == 0 { seq![seq!["     /     "@]] } else { Seq::empty() })
        + Seq::new(t.first.len(), |i: int| row_chars(t.first[i]@));
    if mode is Partial {
        pre + (if t.overflown { seq![Seq::new(max_cols(pre), |j: int| "..."@)] } else { Seq::empty() })
            + Seq::new(t.last.len(), |i: int| row_chars(t.last[i]@))
    } else {
        pre
    }
}

/// The characters of each string of each row.
pub open spec fn string_rows(rows: Seq<Vec<String>>) -> Seq<Seq<Seq<char>>> {
    Seq::new(rows.len(), |i: int| row_chars(rows[i]@))
}

fn one_cell(s: &str) -> (r: Vec<String>)
    ensures
        row_chars(r@) == seq![s@],
{
    let mut v: Vec<String> = Vec::new();
    v.push(String::from_str(s));
    assert(row_chars(v@) =~= seq![s@]);
    v
}

fn copy_row(r: &Vec<String>) -> (c: Vec<String>)
    ensures
        c@ == r@,
{
    let mut c: Vec<String> = Vec::new();
    let mut j: usize = 0;
    while j < r.len()
        invariant
            j <= r@.len(),
            c@ == r@.take(j as int),
        decreases r.len() - j,
    {
        c.push(r[j].clone());
        j += 1;
        assert(c@ =~= r@.take(j as int));
    }
    assert(r@.take(j as int) =~= r@);
    c
}

fn max_cols_x(rows: &Vec<Vec<String>>) -> (m: usize)
    ensures
        m == max_cols(string_rows(rows@)),
{
    let mut m: usize = 0;
    let mut i: usize = 0;
    while i < rows.len()
        invariant
            i <= rows@.len(),
            m == max_cols(string_rows(rows@).take(i as int)),
        decreases rows.len() - i,
    {
        assert(string_rows(rows@).take(i + 1).drop_last() =~= string_rows(rows@).take(i as int));
        assert(string_rows(rows@).take(i + 1).last().len() == rows@[i as int]@.len());
        if rows[i].len() > m {
            m = rows[i].len();
        }
        i += 1;
    }
    assert(string_rows(rows@).take(i as int) =~= string_rows(rows@));
    m
}

/// The text that `tabled` draws, with rounded borders, for a table of the
/// rows `rows`.
pub uninterp spec fn rounded_table(rows: Seq<Seq<Seq<char>>>) -> Seq<char>;

/// `tabled`: makes a table of the rows `rows` (`Builder::from`, then
/// `build`), gives it the rounded style (`Style::rounded`) and draws it
/// (`to_string`); the text is named, not stated.
#[verifier::external_body]
fn draw_rounded(rows: Vec<Vec<String>>) -> (r: String)
    ensures
        r@ == rounded_table(string_rows(rows@)),
{
    let mut t = tabled::builder::Builder::from(rows).build();
    t.with(tabled::settings::Style::rounded());
    t.to_string()
}

impl QueryTable {
    /// The table drawn with rounded borders: the rows it shows, each cell in a box.
    pub fn to_string(&self) -> (r: String)
        ensures
            r@ == rounded_table(shown_rows(self.has_header(), self.rows(), self.mode())),
    {
        let rows = self.shown_rows();
        draw_rounded(rows)
    }

    /// The rows to show when the table is displayed.
    pub fn shown_rows(&self) -> (r: Vec<Vec<String>>)
        ensures
            string_rows(r@) == shown_rows(self.has_header(), self.rows(), self.mode()),
    {
        let ghost t = self.rows();
        let mut out: Vec<Vec<String>> = Vec::new();
        if !self.header_added {
            out.push(one_cell("Empty table"));
        }
        if self.table_data.first_lines.len() == 0 && self.table_data.last_lines.len() == 0 {
            out.push(one_cell("     /     "));
        }
        let ghost p0 = string_rows(out@);
        proof {
            assert(p0 =~= (if !self.header_added { seq![seq!["Empty table"@]] } else { Seq::empty() })
                + (if t.first.len() == 0 && t.last.len() == 0 { seq![seq!["     /     "@]] } else { Seq::empty() }));
        }
        let mut i: usize = 0;
        while i < self.table_data.first_lines.len()
            invariant
                i <= t.first.len(),
                t == self.rows(),
                string_rows(out@) == p0 + Seq::new(i as nat, |k: int| row_chars(t.first[k]@)),
            decreases t.first.len() - i,
        {
            let row = copy_row(&self.table_data.first_lines[i]);
            let ghost prev = string_rows(out@);
            out.push(row);
            proof {
                assert(string_rows(out@) =~= prev.push(row_chars(t.first[i as int]@)));
                assert(string_rows(out@) =~= p0 + Seq::new((i + 1) as nat, |k: int| row_chars(t.first[k]@)));
            }
            i += 1;
        }
        let ghost pre = string_rows(out@);
        match self.mode {
            QueryTableOptions::Full => {
                assert(pre =~= shown_rows(self.has_header(), t, self.mode()));
                out
            },
            QueryTableOptions::Partial { .. } => {
                let cols = max_cols_x(&out);
                if self.table_data.has_overflown {
                    let mut dots_row: Vec<String> = Vec::new();
                    let mut j: usize = 0;
                    while j < cols
                        invariant
                            j <= cols,
                            dots_row@.len() == j,
                            forall|k: int| 0 <= k < j ==> (#[trigger] dots_row@[k])@ == "..."@,
                        decreases cols - j,
                    {
                        dots_row.push(String::from_str("..."));
                        j += 1;
                    }
                    let ghost prev = string_rows(out@);
                    assert(row_chars(dots_row@) =~= Seq::new(cols as nat, |j: int| "..."@));
                    out.push(dots_row);
                    assert(string_rows(out@) =~= prev.push(Seq::new(cols as nat, |j: int| "..."@)));
                }
                let ghost mid = string_rows(out@);
                let mut i: usize = 0;
                while i < self.table_data.last_lines.len()
                    invariant
                        i <= t.last.len(),
                        t == self.rows(),
                        string_rows(out@) == mid + Seq::new(i as nat, |k: int| row_chars(t.last[k]@)),
                    decreases t.last.len() - i,
                {
                    let row = copy_row(&self.table_data.last_lines[i]);
                    let ghost prev = string_rows(out@);
                    out.push(row);
                    proof {
                        assert(string_rows(out@) =~= prev.push(row_chars(t.last[i as int]@)));
                        assert(string_rows(out@) =~= mid + Seq::new((i + 1) as nat, |k: int| row_chars(t.last[k]@)));
                    }
                    i += 1;
                }
                assert(string_rows(out@) =~= shown_rows(self.has_header(), t, self.mode()));
                out
            },
        }
    }
}

} // verus!
