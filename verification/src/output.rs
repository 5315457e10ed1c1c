//! Where the rows of a result go, and how they are written as text.
use vstd::prelude::*;
use crate::table::{QueryTable, pushed, row_chars};
use crate::text::{join, push_str, string_of};

verus! {

/// Something that takes the rows of a result, one at a time.
pub trait SaveOutput {
    /// Whether a row can be taken now.
    spec fn accepts(&self) -> bool;

    /// Takes a row.
    fn push_line(&mut self, values: Vec<String>)
        requires
            old(self).accepts();
}

impl SaveOutput for QueryTable {
    open spec fn accepts(&self) -> bool {
        self.wf() && self.next_index() < usize::MAX
    }

    fn push_line(&mut self, values: Vec<String>)
        ensures
            pushed(*old(self), *final(self), values),
    {
        QueryTable::push_line(self, values);
    }
}

/// Told of the progress of a long computation.
pub trait Observer {
    /// A tick has passed.
    fn notify_tick(&mut self);

    /// `delta` more items were processed since the last call.
    fn notify_data_pushed(&mut self, delta: u64);
}

/// The line printed for a row: its values separated by `, `.
pub fn stdout_line(values: &Vec<String>) -> (r: String)
    ensures
        r@ == join(row_chars(values@), ", "@),
{
    let mut out: Vec<char> = Vec::new();
    let mut i: usize = 0;
    while i < values.len()
        invariant
            i <= values@.len(),
            out@ == join(row_chars(values@).take(i as int), ", "@),
        decreases values.len() - i,
    {
        let ghost t = row_chars(values@).take(i + 1);
        assert(t.drop_last() =~= row_chars(values@).take(i as int));
        if i > 0 {
            push_str(&mut out, ", ");
        } else {
            assert(row_chars(values@).take(0).len() == 0);
        }
        push_str(&mut out, values[i].as_str());
        i += 1;
        assert(out@ =~= join(row_chars(values@).take(i as int), ", "@));
    }
    assert(row_chars(values@).take(i as int) =~= row_chars(values@));
    string_of(&out)
}

/// A line of a CSV file: each value followed by `separator`, but the last
/// one, which is followed by a new line.
pub open spec fn csv_line(values: Seq<Seq<char>>, separator: char) -> Seq<char> {
    join(values, seq![separator]) + seq!['\n']
}

/// The values written as a CSV line, ended by a new line.
pub fn as_line(values: &Vec<String>, separator: char) -> (r: String)
    ensures
        r@ == csv_line(row_chars(values@), separator),
{
    let mut out: Vec<char> = Vec::new();
    let mut i: usize = 0;
    while i < values.len()
        invariant
            i <= values@.len(),
            out@ == join(row_chars(values@).take(i as int), seq![separator]),
        decreases values.len() - i,
    {
        let ghost t = row_chars(values@).take(i + 1);
        assert(t.drop_last() =~= row_chars(values@).take(i as int));
        if i > 0 {
            out.push(separator);
        }
        push_str(&mut out, values[i].as_str());
        i += 1;
        assert(out@ =~= join(row_chars(values@).take(i as int), seq![separator]));
    }
    assert(row_chars(values@).take(i as int) =~= row_chars(values@));
    out.push('\n');
    string_of(&out)
}

/// An error of a CSV file.
#[derive(Debug, PartialEq, Eq)]
pub enum CsvFileError {
    /// The file could not be created.
    CreationError(String),
    /// The file could not be written.
    WriteError(String),
}

pub open spec fn csv_error_text(e: CsvFileError) -> Seq<char> {
    match e {
        CsvFileError::CreationError(name) => "Could not create file \""@ + name@ + "\""@,
        CsvFileError::WriteError(name) => "Could not write in file \""@ + name@ + "\""@,
    }
}

impl CsvFileError {
    /// The message to show to the user.
    pub fn get_error_message(&self) -> (r: String)
        ensures
            r@ == csv_error_text(*self),
    {
        let mut out: Vec<char> = Vec::new();
        match self {
            CsvFileError::CreationError(name) => {
                push_str(&mut out, "Could not create file \"");
                push_str(&mut out, name.as_str());
            },
            CsvFileError::WriteError(name) => {
                push_str(&mut out, "Could not write in file \"");
                push_str(&mut out, name.as_str());
            },
        }
        push_str(&mut out, "\"");
        assert(out@ =~= csv_error_text(*self));
        string_of(&out)
    }
}

} // verus!
