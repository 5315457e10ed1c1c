//! The arguments given to `geng`, the graph generator of nauty, and the
//! reading of its output.
use vstd::prelude::*;
use crate::text::{dec, push_dec, push_str, string_of, usize_to_string, chars_of};

verus! {

/// A class of graphs that `geng` can restrict its output to.
#[derive(Debug, Clone, Copy, PartialEq, Eq, Structural)]
pub enum GraphArgs {
    Connected,
    Biconnected,
    TriangleFree,
    FourCycleFree,
    FiveCycleFree,
    K4Free,
    Chordal,
    Split,
    Perfect,
    ClawFree,
    Bipartite,
    LowerBoundMinimumDegree(usize),
    UpperBoundMinimumDegree(usize),
}

/// A setting of the generation.
#[derive(Debug, Clone, Copy, PartialEq, Eq, Structural)]
pub enum GenSettings {
    MinNumberOfEdges(usize),
    MaxNumberOfEdges(usize),
}

/// The `geng` flag of a class of graphs.
pub open spec fn graph_arg_text(a: GraphArgs) -> Seq<char> {
    match a {
        GraphArgs::Connected => "c"@,
        GraphArgs::Biconnected => "C"@,
        GraphArgs::TriangleFree => "t"@,
        GraphArgs::FourCycleFree => "f"@,
        GraphArgs::FiveCycleFree => "p"@,
        GraphArgs::K4Free => "k"@,
        GraphArgs::Chordal => "T"@,
        GraphArgs::Split => "S"@,
        GraphArgs::Perfect => "P"@,
        GraphArgs::ClawFree => "F"@,
        GraphArgs::Bipartite => "b"@,
        GraphArgs::LowerBoundMinimumDegree(n) => "d"@ + dec(n as nat),
        GraphArgs::UpperBoundMinimumDegree(n) => "D"@ + dec(n as nat),
    }
}

impl GraphArgs {
    /// The `geng` flag of this class (see `geng --help`).
    pub fn to_arg(&self) -> (r: String)
        ensures
            r@ == graph_arg_text(*self),
    {
        let mut out: Vec<char> = Vec::new();
        match self {
            GraphArgs::Connected => push_str(&mut out, "c"),
            GraphArgs::Biconnected => push_str(&mut out, "C"),
            GraphArgs::TriangleFree => push_str(&mut out, "t"),
            GraphArgs::FourCycleFree => push_str(&mut out, "f"),
            GraphArgs::FiveCycleFree => push_str(&mut out, "p"),
            GraphArgs::K4Free => push_str(&mut out, "k"),
            GraphArgs::Chordal => push_str(&mut out, "T"),
            GraphArgs::Split => push_str(&mut out, "S"),
            GraphArgs::Perfect => push_str(&mut out, "P"),
            GraphArgs::ClawFree => push_str(&mut out, "F"),
            GraphArgs::Bipartite => push_str(&mut out, "b"),
            GraphArgs::LowerBoundMinimumDegree(n) => {
                push_str(&mut out, "d");
                push_dec(&mut out, *n);
            },
            GraphArgs::UpperBoundMinimumDegree(n) => {
                push_str(&mut out, "D");
                push_dec(&mut out, *n);
            },
        }
        assert(out@ =~= graph_arg_text(*self));
        string_of(&out)
    }
}

/// The flags of the given classes, after a `-`.
pub open spec fn flags_text(settings: Seq<GraphArgs>) -> Seq<char>
    decreases settings.len(),
{
    if settings.len() == 0 {
        "-"@
    } else {
        flags_text(settings.drop_last()) + graph_arg_text(settings.last())
    }
}

/// The arguments of a `geng` call listing the graphs on `nb_of_vertices`
/// vertices of the given classes: the flags, the number of vertices, and
/// `-q` (quiet).
pub fn geng_args(nb_of_vertices: usize, graph_settings: &Vec<GraphArgs>) -> (r: Vec<String>)
    ensures
        r@.len() == 3,
        r@[0]@ == flags_text(graph_settings@),
        r@[1]@ == dec(nb_of_vertices as nat),
        r@[2]@ == "-q"@,
{
    let mut flags: Vec<char> = Vec::new();
    push_str(&mut flags, "-");
    let mut i: usize = 0;
    while i < graph_settings.len()
        invariant
            i <= graph_settings@.len(),
            flags@ == flags_text(graph_settings@.take(i as int)),
        decreases graph_settings.len() - i,
    {
        let a = graph_settings[i].to_arg();
        push_str(&mut flags, a.as_str());
        assert(graph_settings@.take(i + 1).drop_last() =~= graph_settings@.take(i as int));
        i += 1;
    }
    assert(graph_settings@.take(i as int) =~= graph_settings@);
    let mut r: Vec<String> = Vec::new();
    r.push(string_of(&flags));
    r.push(usize_to_string(nb_of_vertices));
    r.push(String::from_str("-q"));
    r
}

/// The lines of `s`: the pieces between its new lines, the last piece left out.
pub open spec fn lines_of(s: Seq<char>) -> Seq<Seq<char>>
    decreases s.len(),
{
    if s.len() == 0 {
        Seq::empty()
    } else if s.last() == '\n' {
        lines_of(s.drop_last()).push(current_line(s.drop_last()))
    } else {
        lines_of(s.drop_last())
    }
}

/// The characters of `s` after its last new line.
pub open spec fn current_line(s: Seq<char>) -> Seq<char>
    decreases s.len(),
{
    if s.len() == 0 {
        Seq::empty()
    } else if s.last() == '\n' {
        Seq::empty()
    } else {
        current_line(s.drop_last()).push(s.last())
    }
}

/// The signatures written one per line in `input_str` (a last piece not
/// ended by a new line is left out).
pub fn to_signature_vector(input_str: &str) -> (r: Vec<String>)
    ensures
        r@.len() == lines_of(input_str@).len(),
        forall|i: int| 0 <= i < r@.len() ==> (#[trigger] r@[i])@ == lines_of(input_str@)[i],
{
    let cs = chars_of(input_str);
    let mut res: Vec<String> = Vec::new();
    let mut cur: Vec<char> = Vec::new();
    let mut i: usize = 0;
    while i < cs.len()
        invariant
            i <= cs@.len(),
            cs@ == input_str@,
            cur@ == current_line(cs@.take(i as int)),
            res@.len() == lines_of(cs@.take(i as int)).len(),
            forall|k: int| 0 <= k < res@.len() ==> (#[trigger] res@[k])@ == lines_of(cs@.take(i as int))[k],
        decreases cs.len() - i,
    {
        assert(cs@.take(i + 1).drop_last() =~= cs@.take(i as int));
        if cs[i] == '\n' {
            res.push(string_of(&cur));
            cur = Vec::new();
        } else {
            cur.push(cs[i]);
        }
        i += 1;
    }
    assert(cs@.take(i as int) =~= input_str@);
    res
}

/// Errors of the ways of reading graphs.
#[derive(Debug, PartialEq, Eq)]
pub enum MethodError {
    /// Error while trying to open the given file: {0}
    File(String),
    /// Error while trying to create the geng query: {0}
    GengCreation(String),
    /// Error while trying to execute the geng query, are you sure geng is installed ?
    GengExecution,
}

/// The ways of reading graphs.
#[derive(Debug, PartialEq, Eq)]
pub enum Method {
    /// Reads the output of `geng`.
    GengAPI {
        /// The number of vertices of the graphs to add
        nb_of_vertices: u32,
        /// The graph parameters to give; they follow the `geng` rules
        graph_settings: String,
        /// The bounds on the number of edges of the graphs
        edges_bound: (Option<u32>, Option<u32>),
    },
    /// Reads the standard input.
    Stdin,
    /// Reads the file at the given path.
    File(String),
}

/// The argument giving the bounds on the number of edges, if any.
pub open spec fn edges_arg(edges: (Option<u32>, Option<u32>)) -> Option<Seq<char>> {
    match edges {
        (None, None) => None,
        (None, Some(n)) => Some("0:"@ + dec(n as nat)),
        (Some(n), None) => Some(dec(n as nat) + ":0"@),
        (Some(a), Some(b)) => Some(dec(a as nat) + ":"@ + dec(b as nat)),
    }
}

/// The bounds on the number of edges are handed to `geng` as one argument
/// `min:max`, the minimum before the `:` and the maximum after it, a bound
/// that is not given being written `0`; with no bound, there is no such
/// argument. It comes right after the number of vertices, which follows
/// the settings, and is followed by `-q` and `-l`.
pub proof fn law_geng_edges(nb: u32, settings: Seq<char>, lo: Option<u32>, hi: Option<u32>)
    ensures
        ({
            let lo_text = match lo { Some(a) => dec(a as nat), None => seq!['0'] };
            let hi_text = match hi { Some(b) => dec(b as nat), None => seq!['0'] };
            match edges_arg((lo, hi)) {
                None => lo is None && hi is None,
                Some(x) => (lo is Some || hi is Some) && x == lo_text + seq![':'] + hi_text,
            }
        }),
        ({
            let args = geng_call_text(nb, settings, (lo, hi));
            let k: int = if settings.len() == 0 { 0 } else { 1 };
            &&& args[k] == dec(nb as nat)
            &&& (lo is Some || hi is Some) ==> args.len() == k + 4 && args[k + 1] == edges_arg((lo, hi))->Some_0
            &&& (lo is None && hi is None) ==> args.len() == k + 3
            &&& args[args.len() - 2] == seq!['-', 'q']
            &&& args[args.len() - 1] == seq!['-', 'l']
        }),
{
    reveal_strlit("0:");
    reveal_strlit(":0");
    reveal_strlit(":");
    reveal_strlit("-q");
    reveal_strlit("-l");
    reveal_strlit("-");
    assert("0:"@ =~= seq!['0'] + seq![':']);
    assert(":0"@ =~= seq![':'] + seq!['0']);
    assert(":"@ =~= seq![':']);
    assert("-q"@ =~= seq!['-', 'q']);
    assert("-l"@ =~= seq!['-', 'l']);
    match (lo, hi) {
        (None, Some(b)) => assert("0:"@ + dec(b as nat) =~= seq!['0'] + seq![':'] + dec(b as nat)),
        (Some(a), None) => assert(dec(a as nat) + ":0"@ =~= dec(a as nat) + seq![':'] + seq!['0']),
        _ => {},
    }
}

/// The arguments of a `geng` call: the settings (with a leading `-` added
/// when missing), the number of vertices, the bounds on the edges, and
/// `-q -l` (quiet, canonical labels).
pub open spec fn geng_call_text(nb: u32, settings: Seq<char>, edges: (Option<u32>, Option<u32>)) -> Seq<Seq<char>> {
    (if settings.len() == 0 {
        Seq::empty()
    } else if settings[0] != '-' {
        seq!["-"@ + settings]
    } else {
        seq![settings]
    }) + seq![dec(nb as nat)] + (match edges_arg(edges) {
        Some(a) => seq![a],
        None => Seq::empty(),
    }) + seq!["-q"@, "-l"@]
}

/// The message of the error given when the bounds on the edges are reversed.
pub open spec fn bounds_error_text(min: u32, max: u32) -> Seq<char> {
    "The maximum number("@ + dec(max as nat) + ") of edges cannot be smaller than the given minimum("@ + dec(min as nat)
        + ")"@
}

/// The arguments of the `geng` call that lists the graphs on `nb_of_vertices`
/// vertices of the given settings and bounds on the number of edges.
/// # Errors
/// [`MethodError::GengCreation`] when the maximum number of edges is smaller than the minimum.
pub fn geng_call_args(nb_of_vertices: u32, graph_settings: &String, edges_born: (Option<u32>, Option<u32>)) -> (r: Result<
    Vec<String>,
    MethodError,
>)
    ensures
        match edges_born {
            (Some(min), Some(max)) if max < min => r matches Err(MethodError::GengCreation(m)) && m@ == bounds_error_text(min, max),
            _ => r matches Ok(v) && v@.len() == geng_call_text(nb_of_vertices, graph_settings@, edges_born).len() && forall|i: int|
                0 <= i < v@.len() ==> (#[trigger] v@[i])@ == geng_call_text(nb_of_vertices, graph_settings@, edges_born)[i],
        },
{
    let mut args: Vec<String> = Vec::new();
    let cs = chars_of(graph_settings.as_str());
    if cs.len() > 0 {
        if cs[0] != '-' {
            let mut s: Vec<char> = Vec::new();
            push_str(&mut s, "-");
            push_str(&mut s, graph_settings.as_str());
            args.push(string_of(&s));
        } else {
            args.push(graph_settings.clone());
        }
    }
    args.push(usize_to_string(nb_of_vertices as usize));
    match edges_born {
        (None, None) => {},
        (None, Some(nb)) => {
            let mut s: Vec<char> = Vec::new();
            push_str(&mut s, "0:");
            push_dec(&mut s, nb as usize);
            args.push(string_of(&s));
        },
        (Some(nb), None) => {
            let mut s: Vec<char> = Vec::new();
            push_dec(&mut s, nb as usize);
            push_str(&mut s, ":0");
            args.push(string_of(&s));
        },
        (Some(min), Some(max)) => {
            if max < min {
                let mut s: Vec<char> = Vec::new();
                push_str(&mut s, "The maximum number(");
                push_dec(&mut s, max as usize);
                push_str(&mut s, ") of edges cannot be smaller than the given minimum(");
                push_dec(&mut s, min as usize);
                push_str(&mut s, ")");
                assert(s@ =~= bounds_error_text(min, max));
                return Err(MethodError::GengCreation(string_of(&s)));
            }
            let mut s: Vec<char> = Vec::new();
            push_dec(&mut s, min as usize);
            push_str(&mut s, ":");
            push_dec(&mut s, max as usize);
            args.push(string_of(&s));
        },
    }
    args.push(String::from_str("-q"));
    args.push(String::from_str("-l"));
    proof {
        let want = geng_call_text(nb_of_vertices, graph_settings@, edges_born);
        assert(args@.len() == want.len());
        assert forall|i: int| 0 <= i < args@.len() implies (#[trigger] args@[i])@ == want[i] by {}
    }
    Ok(args)
}

/// The column types of the table of graphs.
#[derive(Debug, Clone, Copy, PartialEq, Eq, Structural)]
pub enum ColumnType {
    Text,
    Integer,
    Boolean,
}

impl ColumnType {
    /// The type as written in a SQLite query.
    pub fn to_sqlite(&self) -> (r: String)
        ensures
            r@ == match *self {
                ColumnType::Text => "text"@,
                _ => "integer"@,
            },
    {
        match self {
            ColumnType::Text => String::from_str("text"),
            ColumnType::Integer | ColumnType::Boolean => String::from_str("integer"),
        }
    }
}

} // verus!
