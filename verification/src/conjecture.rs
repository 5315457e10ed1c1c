//! Queries that look for counterexamples to a conjecture among the extremal
//! graphs of a class.
use vstd::prelude::*;
use crate::data_types::ConstantValue;
use crate::expr::{Comparison, Condition, MathExpression, copy_epsilon};
use crate::rel_graph::FnArg;
use crate::sql::{
    CANONICAL_TABLE_NAME, PK_NAME, JoinModel, SelectModel, SqlJoin, SqlSelectQuery, SqlTable, SqlTableSelection, SqlWhereClause,
    TableModel, TableSelModel, select_model, table_sel_model, lemma_from_models,
};
use crate::table::row_chars;
use crate::text::{concat, push_str, string_of};

verus! {

/// Errors when building a [`ClassSelection`].
#[derive(Debug, PartialEq, Eq)]
pub enum ClassSelectionError {
    /// Cannot group the following invariant with itself "{0}"
    CombineWithItself(String),
    /// Invariant appears twice : "{0}"
    DuplicateInv(String),
}

/// The message of a class selection error.
pub open spec fn class_error_text(e: ClassSelectionError) -> Seq<char> {
    match e {
        ClassSelectionError::CombineWithItself(v) => "Cannot group the following invariant with itself \""@ + v@ + "\""@,
        ClassSelectionError::DuplicateInv(v) => "Invariant appears twice : \""@ + v@ + "\""@,
    }
}

impl ClassSelectionError {
    /// Appends the message of the error to `out`.
    pub fn push_message(&self, out: &mut Vec<char>)
        ensures
            final(out)@ == old(out)@ + class_error_text(*self),
    {
        match self {
            ClassSelectionError::CombineWithItself(v) => {
                push_str(out, "Cannot group the following invariant with itself \"");
                push_str(out, v.as_str());
                push_str(out, "\"");
            },
            ClassSelectionError::DuplicateInv(v) => {
                push_str(out, "Invariant appears twice : \"");
                push_str(out, v.as_str());
                push_str(out, "\"");
            },
        }
        assert(out@ =~= old(out)@ + class_error_text(*self));
    }
}


/// The name of the table that holds all the values of the invariants.
pub const FULL_TABLE_NAME: &'static str = "all_inv";
/// The name of the table that holds the extremal graphs.
pub const EXTREMAL_TABLE_NAME: &'static str = "extremal";

// ______________________________ identifiers of conditions

/// `e` is the identifier `s`.
pub open spec fn is_ident(e: MathExpression<FnArg>, s: Seq<char>) -> bool {
    e matches MathExpression::Primitif(FnArg::Constant(ConstantValue::Identifier(x))) && x@ == s
}

/// `c` is `a = b`, both identifiers, with no precision.
pub open spec fn is_ident_eq(c: Comparison<FnArg>, a: Seq<char>, b: Seq<char>) -> bool {
    c matches Comparison::Equal(l, r, None) && is_ident(l, a) && is_ident(r, b)
}

/// `c` is the equalities of the pairs of identifiers `parts`, joined by `and` from left to right.
pub open spec fn is_eq_chain(c: Condition<FnArg>, parts: Seq<(Seq<char>, Seq<char>)>) -> bool
    decreases parts.len(),
{
    if parts.len() == 0 {
        false
    } else if parts.len() == 1 {
        c matches Condition::Comparison(x) && is_ident_eq(x, parts[0].0, parts[0].1)
    } else {
        c matches Condition::And(x, y) && is_eq_chain(*x, parts.drop_last()) && (*y matches Condition::Comparison(z)
            && is_ident_eq(z, parts.last().0, parts.last().1))
    }
}

/// The identifier that a side of a comparison is, if it is one.
pub open spec fn side_ident(e: MathExpression<FnArg>) -> Seq<Seq<char>> {
    match e {
        MathExpression::Primitif(FnArg::Constant(ConstantValue::Identifier(x))) => seq![x@],
        _ => Seq::empty(),
    }
}

/// The identifiers that are sides of the comparisons of `c`, from left to right.
pub open spec fn cond_idents(c: Condition<FnArg>) -> Seq<Seq<char>>
    decreases c,
{
    match c {
        Condition::Comparison(x) => match x {
            Comparison::Greater(l, r) => side_ident(l) + side_ident(r),
            Comparison::GreaterEqual(l, r, _) => side_ident(l) + side_ident(r),
            Comparison::Less(l, r) => side_ident(l) + side_ident(r),
            Comparison::LessEqual(l, r, _) => side_ident(l) + side_ident(r),
            Comparison::Equal(l, r, _) => side_ident(l) + side_ident(r),
            Comparison::NotEqual(l, r, _) => side_ident(l) + side_ident(r),
        },
        Condition::Or(a, b) => cond_idents(*a) + cond_idents(*b),
        Condition::And(a, b) => cond_idents(*a) + cond_idents(*b),
        Condition::Not(a) => cond_idents(*a),
    }
}

/// `s` with each value kept at its first occurrence only.
pub open spec fn dedup(s: Seq<Seq<char>>) -> Seq<Seq<char>>
    decreases s.len(),
{
    if s.len() == 0 {
        Seq::empty()
    } else {
        let d = dedup(s.drop_last());
        if d.contains(s.last()) { d } else { d.push(s.last()) }
    }
}

/// Adds `s` to `v` unless `v` holds it.
fn push_unique(v: &mut Vec<String>, s: String)
    ensures
        row_chars(final(v)@) == if row_chars(old(v)@).contains(s@) { row_chars(old(v)@) } else { row_chars(old(v)@).push(s@) },
{
    let mut i: usize = 0;
    while i < v.len()
        invariant
            i <= v@.len(),
            forall|k: int| 0 <= k < i ==> (#[trigger] v@[k])@ != s@,
        decreases v.len() - i,
    {
        if v[i] == s {
            assert(row_chars(v@)[i as int] == s@);
            return;
        }
        i += 1;
    }
    proof {
        assert(!row_chars(v@).contains(s@)) by {
            if row_chars(v@).contains(s@) {
                let k = row_chars(v@).index_of(s@);
                assert(v@[k]@ == s@);
            }
        }
    }
    let ghost before = row_chars(v@);
    v.push(s);
    assert(row_chars(v@) =~= before.push(s@));
}

/// Adds each of `items` to `v` unless `v` holds it.
fn extend_unique(v: &mut Vec<String>, items: &Vec<String>)
    ensures
        row_chars(final(v)@) == dedup_onto(row_chars(old(v)@), row_chars(items@)),
{
    let ghost start = row_chars(v@);
    let mut i: usize = 0;
    while i < items.len()
        invariant
            i <= items@.len(),
            row_chars(v@) == dedup_onto(start, row_chars(items@).take(i as int)),
        decreases items.len() - i,
    {
        assert(row_chars(items@).take(i + 1).drop_last() =~= row_chars(items@).take(i as int));
        push_unique(v, items[i].clone());
        i += 1;
    }
    assert(row_chars(items@).take(i as int) =~= row_chars(items@));
}

/// `d` extended with each of `s` that it does not hold yet, in order.
pub open spec fn dedup_onto(d: Seq<Seq<char>>, s: Seq<Seq<char>>) -> Seq<Seq<char>>
    decreases s.len(),
{
    if s.len() == 0 {
        d
    } else {
        let e = dedup_onto(d, s.drop_last());
        if e.contains(s.last()) { e } else { e.push(s.last()) }
    }
}

fn push_side_ident(v: &mut Vec<String>, e: &MathExpression<FnArg>)
    ensures
        row_chars(final(v)@) == dedup_onto(row_chars(old(v)@), side_ident(*e)),
{
    match e {
        MathExpression::Primitif(FnArg::Constant(ConstantValue::Identifier(x))) => {
            let ghost v0 = row_chars(v@);
            assert(seq![x@].drop_last() =~= Seq::<Seq<char>>::empty());
            assert(dedup_onto(v0, seq![x@].drop_last()) == v0);
            push_unique(v, x.clone());
        },
        _ => {
            assert(side_ident(*e) =~= Seq::<Seq<char>>::empty());
        },
    }
}

proof fn lemma_dedup_onto_concat(d: Seq<Seq<char>>, a: Seq<Seq<char>>, b: Seq<Seq<char>>)
    ensures
        dedup_onto(d, a + b) == dedup_onto(dedup_onto(d, a), b),
    decreases b.len(),
{
    if b.len() == 0 {
        assert(a + b =~= a);
    } else {
        assert((a + b).drop_last() =~= a + b.drop_last());
        lemma_dedup_onto_concat(d, a, b.drop_last());
    }
}

/// Adds the identifiers of `c` to `v`, each once.
fn push_cond_idents(v: &mut Vec<String>, c: &Condition<FnArg>)
    ensures
        row_chars(final(v)@) == dedup_onto(row_chars(old(v)@), cond_idents(*c)),
    decreases c,
{
    match c {
        Condition::Comparison(x) => {
            let (l, r) = x.get_left_right_expr();
            let ghost v0 = row_chars(v@);
            push_side_ident(v, l);
            push_side_ident(v, r);
            proof {
                lemma_dedup_onto_concat(v0, side_ident(*l), side_ident(*r));
            }
        },
        Condition::Or(a, b) => {
            let ghost v0 = row_chars(v@);
            push_cond_idents(v, a);
            push_cond_idents(v, b);
            proof {
                lemma_dedup_onto_concat(v0, cond_idents(**a), cond_idents(**b));
            }
        },
        Condition::And(a, b) => {
            let ghost v0 = row_chars(v@);
            push_cond_idents(v, a);
            push_cond_idents(v, b);
            proof {
                lemma_dedup_onto_concat(v0, cond_idents(**a), cond_idents(**b));
            }
        },
        Condition::Not(a) => {
            push_cond_idents(v, a);
        },
    }
}

proof fn lemma_dedup_empty(s: Seq<Seq<char>>)
    ensures
        dedup_onto(Seq::empty(), s) == dedup(s),
    decreases s.len(),
{
    if s.len() > 0 {
        lemma_dedup_empty(s.drop_last());
    }
}

/// The names of the columns, each once, that are sides of the comparisons of `cond`.
pub fn get_all_inv_column(cond: &Condition<FnArg>) -> (r: Vec<String>)
    ensures
        row_chars(r@) == dedup(cond_idents(*cond)),
{
    let mut v: Vec<String> = Vec::new();
    assert(row_chars(v@) =~= Seq::<Seq<char>>::empty());
    push_cond_idents(&mut v, cond);
    proof {
        lemma_dedup_empty(cond_idents(*cond));
    }
    v
}

// ______________________________ prefixing identifiers

/// `b` is `a` with `pre` put before each identifier.
pub open spec fn prefixed_prim(a: FnArg, b: FnArg, pre: Seq<char>) -> bool {
    match a {
        FnArg::Constant(ConstantValue::Identifier(x)) => b matches FnArg::Constant(ConstantValue::Identifier(y)) && y@ == pre + x@,
        _ => b == a,
    }
}

pub open spec fn prefixed_expr(a: MathExpression<FnArg>, b: MathExpression<FnArg>, pre: Seq<char>) -> bool
    decreases a,
{
    match a {
        MathExpression::Primitif(x) => b matches MathExpression::Primitif(y) && prefixed_prim(x, y, pre),
        MathExpression::Negation(x) => b matches MathExpression::Negation(y) && prefixed_expr(*x, *y, pre),
        MathExpression::Floor(x) => b matches MathExpression::Floor(y) && prefixed_expr(*x, *y, pre),
        MathExpression::Ceil(x) => b matches MathExpression::Ceil(y) && prefixed_expr(*x, *y, pre),
        MathExpression::Abs(x) => b matches MathExpression::Abs(y) && prefixed_expr(*x, *y, pre),
        MathExpression::Sqrt(x) => b matches MathExpression::Sqrt(y) && prefixed_expr(*x, *y, pre),
        MathExpression::BinOperation { left, op, right } => b matches MathExpression::BinOperation {
            left: l2,
            op: o2,
            right: r2,
        } && op == o2 && prefixed_expr(*left, *l2, pre) && prefixed_expr(*right, *r2, pre),
    }
}

pub open spec fn prefixed_cmp(a: Comparison<FnArg>, b: Comparison<FnArg>, pre: Seq<char>) -> bool {
    match a {
        Comparison::Greater(l, r) => b matches Comparison::Greater(l2, r2) && prefixed_expr(l, l2, pre) && prefixed_expr(r, r2, pre),
        Comparison::GreaterEqual(l, r, e) => b matches Comparison::GreaterEqual(l2, r2, e2) && e2 == e && prefixed_expr(l, l2, pre)
            && prefixed_expr(r, r2, pre),
        Comparison::Less(l, r) => b matches Comparison::Less(l2, r2) && prefixed_expr(l, l2, pre) && prefixed_expr(r, r2, pre),
        Comparison::LessEqual(l, r, e) => b matches Comparison::LessEqual(l2, r2, e2) && e2 == e && prefixed_expr(l, l2, pre)
            && prefixed_expr(r, r2, pre),
        Comparison::Equal(l, r, e) => b matches Comparison::Equal(l2, r2, e2) && e2 == e && prefixed_expr(l, l2, pre)
            && prefixed_expr(r, r2, pre),
        Comparison::NotEqual(l, r, e) => b matches Comparison::NotEqual(l2, r2, e2) && e2 == e && prefixed_expr(l, l2, pre)
            && prefixed_expr(r, r2, pre),
    }
}

/// `b` is the condition `a` with `pre` put before each of its identifiers.
pub open spec fn prefixed_cond(a: Condition<FnArg>, b: Condition<FnArg>, pre: Seq<char>) -> bool
    decreases a,
{
    match a {
        Condition::Comparison(x) => b matches Condition::Comparison(y) && prefixed_cmp(x, y, pre),
        Condition::Or(x, y) => b matches Condition::Or(x2, y2) && prefixed_cond(*x, *x2, pre) && prefixed_cond(*y, *y2, pre),
        Condition::And(x, y) => b matches Condition::And(x2, y2) && prefixed_cond(*x, *x2, pre) && prefixed_cond(*y, *y2, pre),
        Condition::Not(x) => b matches Condition::Not(x2) && prefixed_cond(*x, *x2, pre),
    }
}

fn prefix_prim(a: &FnArg, pre: &str) -> (b: FnArg)
    ensures
        prefixed_prim(*a, b, pre@),
{
    match a {
        FnArg::Constant(ConstantValue::Identifier(x)) => FnArg::Constant(ConstantValue::Identifier(concat(pre, x.as_str()))),
        _ => a.clone(),
    }
}

fn prefix_expr(a: &MathExpression<FnArg>, pre: &str) -> (b: MathExpression<FnArg>)
    ensures
        prefixed_expr(*a, b, pre@),
    decreases a,
{
    match a {
        MathExpression::Primitif(x) => MathExpression::Primitif(prefix_prim(x, pre)),
        MathExpression::Negation(x) => MathExpression::Negation(Box::new(prefix_expr(x, pre))),
        MathExpression::Floor(x) => MathExpression::Floor(Box::new(prefix_expr(x, pre))),
        MathExpression::Ceil(x) => MathExpression::Ceil(Box::new(prefix_expr(x, pre))),
        MathExpression::Abs(x) => MathExpression::Abs(Box::new(prefix_expr(x, pre))),
        MathExpression::Sqrt(x) => MathExpression::Sqrt(Box::new(prefix_expr(x, pre))),
        MathExpression::BinOperation { left, op, right } => MathExpression::BinOperation {
            left: Box::new(prefix_expr(left, pre)),
            op: *op,
            right: Box::new(prefix_expr(right, pre)),
        },
    }
}

fn prefix_cmp(a: &Comparison<FnArg>, pre: &str) -> (b: Comparison<FnArg>)
    ensures
        prefixed_cmp(*a, b, pre@),
{
    match a {
        Comparison::Greater(l, r) => Comparison::Greater(prefix_expr(l, pre), prefix_expr(r, pre)),
        Comparison::GreaterEqual(l, r, e) => Comparison::GreaterEqual(prefix_expr(l, pre), prefix_expr(r, pre), copy_epsilon(e)),
        Comparison::Less(l, r) => Comparison::Less(prefix_expr(l, pre), prefix_expr(r, pre)),
        Comparison::LessEqual(l, r, e) => Comparison::LessEqual(prefix_expr(l, pre), prefix_expr(r, pre), copy_epsilon(e)),
        Comparison::Equal(l, r, e) => Comparison::Equal(prefix_expr(l, pre), prefix_expr(r, pre), copy_epsilon(e)),
        Comparison::NotEqual(l, r, e) => Comparison::NotEqual(prefix_expr(l, pre), prefix_expr(r, pre), copy_epsilon(e)),
    }
}

/// The condition `a` with `pre` put before each of its identifiers.
pub fn prefix_cond(a: &Condition<FnArg>, pre: &str) -> (b: Condition<FnArg>)
    ensures
        prefixed_cond(*a, b, pre@),
    decreases a,
{
    match a {
        Condition::Comparison(x) => Condition::Comparison(prefix_cmp(x, pre)),
        Condition::Or(x, y) => Condition::Or(Box::new(prefix_cond(x, pre)), Box::new(prefix_cond(y, pre))),
        Condition::And(x, y) => Condition::And(Box::new(prefix_cond(x, pre)), Box::new(prefix_cond(y, pre))),
        Condition::Not(x) => Condition::Not(Box::new(prefix_cond(x, pre))),
    }
}

/// Puts `prefix` before each identifier of the condition.
pub fn add_prefix_identifier(cond: &mut Condition<FnArg>, prefix: &String)
    ensures
        prefixed_cond(*old(cond), *final(cond), prefix@),
{
    let c = prefix_cond(cond, prefix.as_str());
    *cond = c;
}


// ______________________________ class selections

/// Something that can be written in SQL.
pub trait ToSql {
    fn to_sql(&self) -> String;
}

/// Whether the extremal graphs of a class have the least or the greatest value.
#[derive(Debug, Clone, Copy, PartialEq, Eq, Structural)]
pub enum ClassType {
    Min,
    Max,
}

pub open spec fn class_type_sql(t: ClassType) -> Seq<char> {
    match t {
        ClassType::Min => "MIN"@,
        ClassType::Max => "MAX"@,
    }
}

/// A class of the smallest values is selected with the SQL minimum `MIN`, a
/// class of the greatest values with the SQL maximum `MAX`: two different
/// aggregates for the two kinds of class.
pub proof fn law_class_type_sql(t: ClassType)
    ensures
        class_type_sql(t) == if t is Min { seq!['M', 'I', 'N'] } else { seq!['M', 'A', 'X'] },
        class_type_sql(ClassType::Min) != class_type_sql(ClassType::Max),
{
    reveal_strlit("MIN");
    reveal_strlit("MAX");
    assert("MIN"@ =~= seq!['M', 'I', 'N']);
    assert("MAX"@ =~= seq!['M', 'A', 'X']);
    assert("MIN"@[1] != "MAX"@[1]);
}

impl ClassType {
    /// The SQL aggregate function of the class type.
    pub fn sql_name(&self) -> (r: String)
        ensures
            r@ == class_type_sql(*self),
    {
        match self {
            ClassType::Min => String::from_str("MIN"),
            ClassType::Max => String::from_str("MAX"),
        }
    }
}

impl ToSql for ClassType {
    fn to_sql(&self) -> (r: String)
        ensures
            r@ == class_type_sql(*self),
    {
        self.sql_name()
    }
}

/// The index of the first of `s` whose value occurs before it, if any.
pub open spec fn first_repeat(s: Seq<Seq<char>>) -> Option<int>
    decreases s.len(),
{
    if s.len() == 0 {
        None
    } else {
        match first_repeat(s.drop_last()) {
            Some(i) => Some(i),
            None => if s.drop_last().contains(s.last()) { Some(s.len() - 1) } else { None },
        }
    }
}

/// The first value of `values` that occurs twice, at its second occurrence.
pub fn check_all_unique(values: &Vec<String>) -> (r: Option<String>)
    ensures
        match first_repeat(row_chars(values@)) {
            Some(i) => r matches Some(x) && x == values@[i],
            None => r is None,
        },
{
    let mut seen: Vec<String> = Vec::new();
    let mut i: usize = 0;
    while i < values.len()
        invariant
            i <= values@.len(),
            row_chars(seen@) == row_chars(values@).take(i as int),
            first_repeat(row_chars(values@).take(i as int)) is None,
        decreases values.len() - i,
    {
        let ghost t = row_chars(values@).take(i + 1);
        assert(t.drop_last() =~= row_chars(values@).take(i as int));
        assert(t.last() == values@[i as int]@);
        let mut k: usize = 0;
        while k < seen.len()
            invariant
                k <= seen@.len(),
                row_chars(seen@) == row_chars(values@).take(i as int),
                i < values@.len(),
                t == row_chars(values@).take(i + 1),
                first_repeat(row_chars(values@).take(i as int)) is None,
                forall|j: int| 0 <= j < k ==> (#[trigger] seen@[j])@ != values@[i as int]@,
            decreases seen.len() - k,
        {
            if seen[k] == values[i] {
                proof {
                    assert(row_chars(seen@)[k as int] == values@[i as int]@);
                    assert(t.drop_last() =~= row_chars(values@).take(i as int));
                    assert(t.last() == values@[i as int]@);
                    assert(t.drop_last()[k as int] == t.last());
                    assert(t.drop_last().contains(t.last()));
                    assert(row_chars(values@)[i as int] == t.last());
                    lemma_first_repeat_prefix(row_chars(values@), i as int);
                }
                return Some(values[i].clone());
            }
            k += 1;
        }
        proof {
            assert(!t.drop_last().contains(t.last())) by {
                if t.drop_last().contains(t.last()) {
                    let j = t.drop_last().index_of(t.last());
                    assert(row_chars(seen@)[j] == seen@[j]@);
                }
            }
        }
        let ghost before = row_chars(seen@);
        seen.push(values[i].clone());
        assert(row_chars(seen@) =~= before.push(values@[i as int]@));
        i += 1;
        assert(row_chars(seen@) =~= row_chars(values@).take(i as int));
    }
    assert(row_chars(values@).take(i as int) =~= row_chars(values@));
    None
}

proof fn lemma_first_repeat_prefix(s: Seq<Seq<char>>, i: int)
    requires
        0 <= i < s.len(),
        first_repeat(s.take(i)) is None,
        s.take(i).contains(s[i]),
    ensures
        first_repeat(s) == Some(i),
    decreases s.len(),
{
    if i == s.len() - 1 {
        assert(s.drop_last() =~= s.take(i));
    } else {
        assert(s.drop_last().take(i) =~= s.take(i));
        lemma_first_repeat_prefix(s.drop_last(), i);
    }
}

/// The extremal graphs of a class: for each combination of the values of
/// some invariants, those with the least or greatest value of another.
/// Example: `max(eci; n, m)`: the greatest `eci` for each value of `n` and `m`.
#[derive(Debug, PartialEq, Eq)]
pub struct ClassSelection {
    class_type: ClassType,
    invariant_to_max: String,
    invariants_combination: Vec<String>,
}

impl ClassSelection {
    pub closed spec fn kind(&self) -> ClassType {
        self.class_type
    }

    /// The invariant whose least or greatest value is looked for.
    pub closed spec fn extremal(&self) -> Seq<char> {
        self.invariant_to_max@
    }

    /// The invariants whose combinations of values make the classes.
    pub closed spec fn combination(&self) -> Seq<Seq<char>> {
        row_chars(self.invariants_combination@)
    }

    /// The extremal invariant followed by the invariants of the combination.
    pub open spec fn all_names(&self) -> Seq<Seq<char>> {
        seq![self.extremal()] + self.combination()
    }

    /// A class selection.
    /// # Errors
    /// [`ClassSelectionError::CombineWithItself`] when the extremal invariant is
    /// also in the combination; [`ClassSelectionError::DuplicateInv`] with the
    /// first invariant given twice in the combination.
    pub fn new(class_type: ClassType, extremal_inv: String, invariants_combination: Vec<String>) -> (r: Result<Self, ClassSelectionError>)
        ensures
            row_chars(invariants_combination@).contains(extremal_inv@) ==> r == Err::<Self, ClassSelectionError>(
                ClassSelectionError::CombineWithItself(extremal_inv),
            ),
            !row_chars(invariants_combination@).contains(extremal_inv@) ==> match first_repeat(row_chars(invariants_combination@)) {
                Some(i) => r == Err::<Self, ClassSelectionError>(ClassSelectionError::DuplicateInv(invariants_combination@[i])),
                None => r matches Ok(c) && c.kind() == class_type && c.extremal() == extremal_inv@ && c.combination() == row_chars(
                    invariants_combination@,
                ),
            },
    {
        let mut i: usize = 0;
        while i < invariants_combination.len()
            invariant
                i <= invariants_combination@.len(),
                forall|k: int| 0 <= k < i ==> (#[trigger] invariants_combination@[k])@ != extremal_inv@,
            decreases invariants_combination.len() - i,
        {
            if invariants_combination[i] == extremal_inv {
                assert(row_chars(invariants_combination@)[i as int] == extremal_inv@);
                return Err(ClassSelectionError::CombineWithItself(extremal_inv));
            }
            i += 1;
        }
        proof {
            assert(!row_chars(invariants_combination@).contains(extremal_inv@)) by {
                if row_chars(invariants_combination@).contains(extremal_inv@) {
                    let k = row_chars(invariants_combination@).index_of(extremal_inv@);
                    assert(invariants_combination@[k]@ == extremal_inv@);
                }
            }
        }
        match check_all_unique(&invariants_combination) {
            Some(v) => Err(ClassSelectionError::DuplicateInv(v)),
            None => Ok(ClassSelection { class_type, invariant_to_max: extremal_inv, invariants_combination }),
        }
    }

    /// The extremal invariant followed by the invariants of the combination.
    pub fn names(&self) -> (r: Vec<String>)
        ensures
            row_chars(r@) == self.all_names(),
    {
        let mut r: Vec<String> = Vec::new();
        r.push(self.invariant_to_max.clone());
        let mut i: usize = 0;
        while i < self.invariants_combination.len()
            invariant
                i <= self.invariants_combination@.len(),
                row_chars(r@) == seq![self.extremal()] + self.combination().take(i as int),
            decreases self.invariants_combination.len() - i,
        {
            let ghost before = row_chars(r@);
            r.push(self.invariants_combination[i].clone());
            assert(row_chars(r@) =~= before.push(self.combination()[i as int]));
            assert(self.combination().take(i + 1) =~= self.combination().take(i as int).push(self.combination()[i as int]));
            i += 1;
            assert(row_chars(r@) =~= seq![self.extremal()] + self.combination().take(i as int));
        }
        assert(self.combination().take(i as int) =~= self.combination());
        r
    }
}

// ______________________________ the tables of the queries

/// `t` is `SELECT * FROM names[0] JOIN names[k] AS names[k] ON names[0].key = names[k].key ...`.
pub open spec fn is_join_table(t: TableSelModel, names: Seq<Seq<char>>, key: Seq<char>) -> bool {
    &&& names.len() > 0
    &&& t.rename_as is None
    &&& t.table matches TableModel::Query(q) && {
        &&& q.select.len() == 1 && is_ident(q.select[0], "*"@)
        &&& q.from == seq![TableSelModel { table: TableModel::Name(names[0]), rename_as: None }]
        &&& q.joins.len() == names.len() - 1
        &&& forall|k: int| 0 <= k < q.joins.len() ==> {
            let j = #[trigger] q.joins[k];
            &&& j.table_name == names[k + 1]
            &&& j.alias_name == names[k + 1]
            &&& j.on_cond.len() == 1
            &&& is_ident_eq(j.on_cond[0], names[0] + "."@ + key, names[k + 1] + "."@ + key)
        }
        &&& q.where_clause is None && q.group_by.len() == 0 && q.limit is None && !q.distinct
    }
}

fn ident(s: String) -> (e: MathExpression<FnArg>)
    ensures
        is_ident(e, s@),
{
    MathExpression::Primitif(FnArg::Constant(ConstantValue::Identifier(s)))
}

/// `a.b`
fn dotted(a: &str, b: &str) -> (r: String)
    ensures
        r@ == a@ + "."@ + b@,
{
    let mut v: Vec<char> = Vec::new();
    push_str(&mut v, a);
    push_str(&mut v, ".");
    push_str(&mut v, b);
    string_of(&v)
}

fn ident_eq(a: String, b: String) -> (c: Comparison<FnArg>)
    ensures
        is_ident_eq(c, a@, b@),
{
    Comparison::Equal(ident(a), ident(b), None)
}

/// The table that joins the tables `first` and `others` on their column `key`.
pub fn new_join(first: String, others: &Vec<String>, key: &str) -> (r: SqlTableSelection)
    ensures
        is_join_table(table_sel_model(r), seq![first@] + row_chars(others@), key@),
{
    let ghost names = seq![first@] + row_chars(others@);
    let mut joins: Vec<SqlJoin> = Vec::new();
    let mut k: usize = 0;
    while k < others.len()
        invariant
            k <= others@.len(),
            names == seq![first@] + row_chars(others@),
            joins@.len() == k,
            forall|i: int| 0 <= i < k ==> {
                let j = #[trigger] joins@[i];
                &&& j.table_name@ == names[i + 1]
                &&& j.alias_name@ == names[i + 1]
                &&& j.on_cond@.len() == 1
                &&& is_ident_eq(j.on_cond@[0], names[0] + "."@ + key@, names[i + 1] + "."@ + key@)
            },
        decreases others.len() - k,
    {
        let mut on: Vec<Comparison<FnArg>> = Vec::new();
        on.push(ident_eq(dotted(first.as_str(), key), dotted(others[k].as_str(), key)));
        joins.push(SqlJoin { table_name: others[k].clone(), alias_name: others[k].clone(), on_cond: on });
        k += 1;
    }
    let mut select: Vec<MathExpression<FnArg>> = Vec::new();
    select.push(ident(String::from_str("*")));
    let mut from: Vec<SqlTableSelection> = Vec::new();
    from.push(SqlTableSelection { selected_table: SqlTable::TableName(first), rename_as: None });
    let q = SqlSelectQuery { select, distinct: false, from, joins, where_clause: None, group_by: Vec::new(), limit: None };
    proof {
        let m = select_model(q);
        lemma_from_models(q.from@, 1);
        assert(m.from =~= seq![TableSelModel { table: TableModel::Name(names[0]), rename_as: None }]);
        assert forall|i: int| 0 <= i < m.joins.len() implies {
            let j = #[trigger] m.joins[i];
            &&& j.table_name == names[i + 1]
            &&& j.alias_name == names[i + 1]
            &&& j.on_cond.len() == 1
            &&& is_ident_eq(j.on_cond[0], names[0] + "."@ + key@, names[i + 1] + "."@ + key@)
        } by {
            assert(m.joins[i] == crate::sql::join_model(joins@[i]));
        }
    }
    SqlTableSelection { selected_table: SqlTable::SqlQuery(q), rename_as: None }
}


/// `FULL_TABLE_NAME.x`
pub open spec fn full_col(x: Seq<char>) -> Seq<char> {
    FULL_TABLE_NAME@ + "."@ + x
}

/// `EXTREMAL_TABLE_NAME.x`
pub open spec fn ext_col(x: Seq<char>) -> Seq<char> {
    EXTREMAL_TABLE_NAME@ + "."@ + x
}

/// The table of the extremal values of a class: for each combination of
/// values, the least or greatest value of the extremal invariant.
pub open spec fn is_class_table(t: TableSelModel, c: ClassSelection) -> bool {
    let comb = c.combination();
    &&& t.rename_as == Some(EXTREMAL_TABLE_NAME@)
    &&& t.table matches TableModel::Query(q) && {
        &&& q.select.len() == comb.len() + 1
        &&& forall|i: int| 0 <= i < comb.len() ==> is_ident(#[trigger] q.select[i], comb[i])
        &&& is_ident(q.select[comb.len() as int], class_type_sql(c.kind()) + "("@ + c.extremal() + ") as "@ + c.extremal())
        &&& q.from.len() == 1 && is_join_table(q.from[0], c.all_names(), PK_NAME@)
        &&& q.group_by == comb
        &&& q.joins.len() == 0 && q.where_clause is None && q.limit is None && !q.distinct
    }
}

fn strings_copy(v: &Vec<String>) -> (r: Vec<String>)
    ensures
        r@ == v@,
{
    let mut r: Vec<String> = Vec::new();
    let mut i: usize = 0;
    while i < v.len()
        invariant
            i <= v@.len(),
            r@ == v@.take(i as int),
        decreases v.len() - i,
    {
        r.push(v[i].clone());
        i += 1;
        assert(r@ =~= v@.take(i as int));
    }
    assert(v@.take(i as int) =~= v@);
    r
}

impl ClassSelection {
    /// The table of the extremal values of the class, named [`EXTREMAL_TABLE_NAME`].
    pub fn to_table(&self) -> (r: SqlTableSelection)
        ensures
            is_class_table(table_sel_model(r), *self),
    {
        let comb = &self.invariants_combination;
        let mut select: Vec<MathExpression<FnArg>> = Vec::new();
        let mut i: usize = 0;
        while i < comb.len()
            invariant
                i <= comb@.len(),
                select@.len() == i,
                forall|k: int| 0 <= k < i ==> is_ident(#[trigger] select@[k], comb@[k]@),
            decreases comb.len() - i,
        {
            select.push(ident(comb[i].clone()));
            i += 1;
        }
        let mut agg: Vec<char> = Vec::new();
        let t = self.class_type.sql_name();
        push_str(&mut agg, t.as_str());
        push_str(&mut agg, "(");
        push_str(&mut agg, self.invariant_to_max.as_str());
        push_str(&mut agg, ") as ");
        push_str(&mut agg, self.invariant_to_max.as_str());
        select.push(ident(string_of(&agg)));
        let mut from: Vec<SqlTableSelection> = Vec::new();
        from.push(new_join(self.invariant_to_max.clone(), comb, PK_NAME));
        let q = SqlSelectQuery {
            select,
            distinct: false,
            from,
            joins: Vec::new(),
            where_clause: None,
            group_by: strings_copy(comb),
            limit: None,
        };
        proof {
            let m = select_model(q);
            lemma_from_models(q.from@, 1);
            assert(m.group_by =~= self.combination());
            assert(m.select.len() == self.combination().len() + 1);
            assert forall|k: int| 0 <= k < self.combination().len() implies is_ident(#[trigger] m.select[k], self.combination()[k]) by {}
            assert(m.from[0] == table_sel_model(q.from@[0]));
        }
        SqlTableSelection { selected_table: SqlTable::SqlQuery(q), rename_as: Some(String::from_str(EXTREMAL_TABLE_NAME)) }
    }
}

/// The equalities between the values of the extremal graphs and those of the
/// table of the extremal values: the extremal invariant, then each of its
/// names again.
pub open spec fn extremal_pairs(c: ClassSelection) -> Seq<(Seq<char>, Seq<char>)> {
    let n = c.all_names();
    seq![(full_col(c.extremal()), ext_col(c.extremal()))] + Seq::new(n.len(), |i: int| (full_col(n[i]), ext_col(n[i])))
}

/// The identifiers of an optional condition.
pub open spec fn opt_idents(c: Option<Condition<FnArg>>) -> Seq<Seq<char>> {
    match c {
        Some(x) => cond_idents(x),
        None => Seq::empty(),
    }
}

/// The columns read by a query on the extremal graphs, each once.
pub open spec fn query_columns(c: ClassSelection, add: Option<Condition<FnArg>>, conj: Option<Condition<FnArg>>) -> Seq<Seq<char>> {
    dedup(opt_idents(add) + opt_idents(conj) + c.all_names())
}

/// `q` selects `head` from the table joining `columns` (renamed
/// [`FULL_TABLE_NAME`]) and the table of extremal values of `c`, with no
/// other clause than the where clause.
pub open spec fn is_extremal_frame(q: SelectModel, c: ClassSelection, columns: Seq<Seq<char>>, head: Seq<char>) -> bool {
    &&& q.select.len() == 1 && is_ident(q.select[0], head)
    &&& q.from.len() == 2
    &&& q.from[0].rename_as == Some(FULL_TABLE_NAME@)
    &&& q.from[0].table matches TableModel::Query(inner) && {
        &&& inner.select.len() == 1 && is_ident(inner.select[0], "*"@)
        &&& inner.from.len() == 1 && is_join_table(inner.from[0], columns, PK_NAME@)
        &&& inner.joins.len() == 0 && inner.where_clause is None && inner.group_by.len() == 0 && inner.limit is None
        &&& !inner.distinct
    }
    &&& is_class_table(q.from[1], c)
    &&& q.joins.len() == 0 && q.group_by.len() == 0 && q.limit is None && !q.distinct
}

/// The condition of a query on the extremal graphs: the graph's values are
/// the extremal ones, and the additional condition, its identifiers taken
/// from [`FULL_TABLE_NAME`], holds.
pub open spec fn is_extremal_condition(cond: Condition<FnArg>, c: ClassSelection, add: Option<Condition<FnArg>>) -> bool {
    match add {
        None => is_eq_chain(cond, extremal_pairs(c)),
        Some(a) => cond matches Condition::And(x, y) && is_eq_chain(*x, extremal_pairs(c)) && prefixed_cond(a, *y, FULL_TABLE_NAME@ + "."@),
    }
}

/// The query on the extremal graphs of `c` (with the additional condition `add`)
/// that selects `head`, joining the tables of `columns`.
pub open spec fn is_extremal_query(q: SelectModel, c: ClassSelection, columns: Seq<Seq<char>>, head: Seq<char>, add: Option<Condition<FnArg>>) -> bool {
    &&& is_extremal_frame(q, c, columns, head)
    &&& q.where_clause matches Some(w) && (w.not_exists is None && (w.condition matches Some(cond) && is_extremal_condition(cond, c, add)))
}

proof fn lemma_dedup_onto_empty(a: Seq<Seq<char>>, b: Seq<Seq<char>>, d: Seq<Seq<char>>)
    ensures
        dedup_onto(dedup_onto(dedup_onto(Seq::empty(), a), b), d) == dedup(a + b + d),
{
    lemma_dedup_onto_concat(Seq::empty(), a, b);
    lemma_dedup_onto_concat(Seq::empty(), a + b, d);
    lemma_dedup_empty(a + b + d);
}

/// The query on the extremal graphs of `selection` that satisfy the
/// additional condition, selecting `head`, with the identifiers of the
/// conjecture among the columns joined.
fn extremal_query(
    selection: &ClassSelection,
    additional_condition: &Option<Condition<FnArg>>,
    conjecture: Option<&Condition<FnArg>>,
    head: &str,
) -> (q: SqlSelectQuery)
    ensures
        is_extremal_query(
            select_model(q),
            *selection,
            query_columns(*selection, *additional_condition, match conjecture { Some(c) => Some(*c), None => None }),
            head@,
            *additional_condition,
        ),
{
    let mut columns: Vec<String> = Vec::new();
    assert(row_chars(columns@) =~= Seq::<Seq<char>>::empty());
    let ghost e0 = row_chars(columns@);
    match additional_condition {
        Some(c) => push_cond_idents(&mut columns, c),
        None => {},
    }
    let ghost e1 = row_chars(columns@);
    assert(e1 == dedup_onto(e0, opt_idents(*additional_condition)));
    match conjecture {
        Some(c) => push_cond_idents(&mut columns, c),
        None => {},
    }
    let ghost e2 = row_chars(columns@);
    let ghost conj = match conjecture { Some(c) => Some(*c), None => None };
    assert(e2 == dedup_onto(e1, opt_idents(conj)));
    let names = selection.names();
    extend_unique(&mut columns, &names);
    proof {
        lemma_dedup_onto_empty(opt_idents(*additional_condition), opt_idents(conj), selection.all_names());
    }
    let ghost all_cols = row_chars(columns@);
    assert(all_cols == query_columns(*selection, *additional_condition, conj));
    assert(selection.all_names().len() > 0);
    assert(all_cols.len() > 0) by {
        let s = selection.all_names();
        let e = dedup_onto(e2, s.drop_last());
        assert(all_cols == (if e.contains(s.last()) { e } else { e.push(s.last()) }));
    }
    let first = columns.remove(0);
    assert(seq![first@] + row_chars(columns@) =~= all_cols);
    let all_inv_q = SqlSelectQuery::select_all_from_table(new_join(first, &columns, PK_NAME));
    let all_inv = SqlTableSelection { selected_table: SqlTable::SqlQuery(all_inv_q), rename_as: Some(String::from_str(FULL_TABLE_NAME)) };
    let extremal = selection.to_table();
    // the equalities with the extremal values
    let mut cond = Condition::Comparison(
        ident_eq(dotted(FULL_TABLE_NAME, selection.invariant_to_max.as_str()), dotted(EXTREMAL_TABLE_NAME, selection.invariant_to_max.as_str())),
    );
    let ghost pairs = extremal_pairs(*selection);
    assert(pairs.take(1) =~= seq![pairs[0]]);
    let mut k: usize = 0;
    while k < names.len()
        invariant
            k <= names@.len(),
            pairs == extremal_pairs(*selection),
            row_chars(names@) == selection.all_names(),
            is_eq_chain(cond, pairs.take(k + 1)),
        decreases names.len() - k,
    {
        let eq = ident_eq(dotted(FULL_TABLE_NAME, names[k].as_str()), dotted(EXTREMAL_TABLE_NAME, names[k].as_str()));
        proof {
            assert(pairs.take(k + 2).drop_last() =~= pairs.take(k + 1));
            assert(row_chars(names@)[k as int] == names@[k as int]@);
            assert(pairs.take(k + 2).last() == pairs[k + 1]);
            assert(pairs[k + 1] == (full_col(names@[k as int]@), ext_col(names@[k as int]@)));
        }
        cond = Condition::And(Box::new(cond), Box::new(Condition::Comparison(eq)));
        k += 1;
    }
    assert(pairs.take(k + 1) =~= pairs);
    let mut select: Vec<MathExpression<FnArg>> = Vec::new();
    select.push(ident(String::from_str(head)));
    let mut from: Vec<SqlTableSelection> = Vec::new();
    from.push(all_inv);
    from.push(extremal);
    let mut query = SqlSelectQuery {
        select,
        distinct: false,
        from,
        joins: Vec::new(),
        where_clause: Some(SqlWhereClause { not_exists: None, condition: Some(cond) }),
        group_by: Vec::new(),
        limit: None,
    };
    proof {
        let m = select_model(query);
        lemma_from_models(query.from@, 2);
        assert(m.from[0] == table_sel_model(query.from@[0]));
        assert(m.from[1] == table_sel_model(query.from@[1]));
        assert(m.joins.len() == 0);
        assert(m.group_by.len() == 0);
        assert(is_extremal_frame(m, *selection, all_cols, head@));
    }
    match additional_condition {
        Some(add) => {
            let prefix = concat(FULL_TABLE_NAME, ".");
            let safe = prefix_cond(add, prefix.as_str());
            query.add_and(safe);
        },
        None => {},
    }
    query
}


/// The query on the extremal graphs that disprove the conjecture: those of
/// the query on the extremal graphs (selecting all their values) where the
/// conjecture, its identifiers taken from [`FULL_TABLE_NAME`], does not hold.
pub open spec fn is_counter_query(q: SelectModel, c: ClassSelection, add: Option<Condition<FnArg>>, conj: Condition<FnArg>) -> bool {
    &&& is_extremal_frame(q, c, query_columns(c, add, Some(conj)), full_col("*"@))
    &&& q.where_clause matches Some(w) && (w.not_exists is None && (w.condition matches Some(cond) && (cond matches Condition::And(x, y)
        && is_extremal_condition(*x, c, add) && (*y matches Condition::Not(z) && prefixed_cond(conj, *z, FULL_TABLE_NAME@ + "."@)))))
}

/// The invariants, each once, to compute to find the extremal graphs: the
/// extremal invariant, those of the combination, and those of the additional condition.
pub fn get_extremal_invariants(selection: &ClassSelection, additional_condition: &Option<Condition<FnArg>>) -> (r: Vec<String>)
    ensures
        row_chars(r@) == dedup(selection.all_names() + opt_idents(*additional_condition)),
{
    let mut v: Vec<String> = Vec::new();
    assert(row_chars(v@) =~= Seq::<Seq<char>>::empty());
    let names = selection.names();
    extend_unique(&mut v, &names);
    match additional_condition {
        Some(c) => push_cond_idents(&mut v, c),
        None => {},
    }
    proof {
        lemma_dedup_onto_concat(Seq::empty(), selection.all_names(), opt_idents(*additional_condition));
        lemma_dedup_empty(selection.all_names() + opt_idents(*additional_condition));
    }
    v
}

/// A query that looks for counterexamples to a conjecture among the extremal
/// graphs of a class.
#[derive(Debug, PartialEq, Eq)]
pub struct ExtremalCounterQuery {
    /// The class whose extremal graphs are examined.
    pub selection: ClassSelection,
    /// A condition that further restricts the graphs to explore.
    pub additional_condition: Option<Condition<FnArg>>,
    /// The conjecture to disprove.
    pub conjecture_to_disprove: Condition<FnArg>,
}

impl ExtremalCounterQuery {
    /// The invariants to compute to find the extremal graphs (not those of the conjecture).
    pub fn get_invariants_to_compute(&self) -> (r: Vec<String>)
        ensures
            row_chars(r@) == dedup(self.selection.all_names() + opt_idents(self.additional_condition)),
    {
        get_extremal_invariants(&self.selection, &self.additional_condition)
    }

    /// The invariants of the conjecture to disprove.
    pub fn get_invariants_from_conjecture(&self) -> (r: Vec<String>)
        ensures
            row_chars(r@) == dedup(cond_idents(self.conjecture_to_disprove)),
    {
        get_all_inv_column(&self.conjecture_to_disprove)
    }

    /// The signatures of the extremal graphs of the class that satisfy the additional condition.
    pub fn get_extremal_input_selection(&self) -> (q: SqlSelectQuery)
        ensures
            is_extremal_query(
                select_model(q),
                self.selection,
                query_columns(self.selection, self.additional_condition, None),
                full_col(PK_NAME@),
                self.additional_condition,
            ),
    {
        let head = dotted(FULL_TABLE_NAME, PK_NAME);
        extremal_query(&self.selection, &self.additional_condition, None, head.as_str())
    }

    /// All the values of the extremal graphs of the class that satisfy the
    /// additional condition, the tables of the conjecture's invariants joined.
    pub fn get_extremal_graphs(
        selection: &ClassSelection,
        additional_condition: &Option<Condition<FnArg>>,
        conjecture_to_disprove: Option<&Condition<FnArg>>,
    ) -> (q: SqlSelectQuery)
        ensures
            is_extremal_query(
                select_model(q),
                *selection,
                query_columns(*selection, *additional_condition, match conjecture_to_disprove { Some(c) => Some(*c), None => None }),
                full_col("*"@),
                *additional_condition,
            ),
    {
        let head = dotted(FULL_TABLE_NAME, "*");
        extremal_query(selection, additional_condition, conjecture_to_disprove, head.as_str())
    }

    /// The query of the counterexamples: the extremal graphs where the conjecture fails.
    pub fn to_query(&self) -> (q: SqlSelectQuery)
        ensures
            is_counter_query(select_model(q), self.selection, self.additional_condition, self.conjecture_to_disprove),
    {
        let mut query = Self::get_extremal_graphs(&self.selection, &self.additional_condition, Some(&self.conjecture_to_disprove));
        let prefix = concat(FULL_TABLE_NAME, ".");
        let safe = prefix_cond(&self.conjecture_to_disprove, prefix.as_str());
        query.add_and(Condition::not(safe));
        query
    }
}

/// A query that looks for counterexamples to a conjecture among the extremal
/// graphs of a class.
#[derive(Debug, PartialEq, Eq)]
pub struct ExtremalCounterExampleQuery {
    /// The class whose extremal graphs are examined.
    pub selection: ClassSelection,
    /// A condition that further restricts the graphs to explore.
    pub additional_condition: Option<Condition<FnArg>>,
    /// The conjecture to disprove.
    pub conjecture_to_disprove: Condition<FnArg>,
}

impl ExtremalCounterExampleQuery {
    /// The invariants to compute to find the extremal graphs (not those of the conjecture).
    pub fn get_invariants_to_compute(&self) -> (r: Vec<String>)
        ensures
            row_chars(r@) == dedup(self.selection.all_names() + opt_idents(self.additional_condition)),
    {
        get_extremal_invariants(&self.selection, &self.additional_condition)
    }

    /// The invariants of the conjecture to disprove.
    pub fn get_invariants_from_conjecture(&self) -> (r: Vec<String>)
        ensures
            row_chars(r@) == dedup(cond_idents(self.conjecture_to_disprove)),
    {
        get_all_inv_column(&self.conjecture_to_disprove)
    }

    /// All the values of the extremal graphs of the class that satisfy the additional condition.
    pub fn get_invariant_input_selection(&self) -> (q: SqlSelectQuery)
        ensures
            is_extremal_query(
                select_model(q),
                self.selection,
                query_columns(self.selection, self.additional_condition, None),
                full_col("*"@),
                self.additional_condition,
            ),
    {
        let head = dotted(FULL_TABLE_NAME, "*");
        extremal_query(&self.selection, &self.additional_condition, None, head.as_str())
    }

    /// All the values of the extremal graphs of the class that satisfy the
    /// additional condition, the tables of the conjecture's invariants joined.
    pub fn with_extremal_graphs(
        selection: &ClassSelection,
        additional_condition: &Option<Condition<FnArg>>,
        conjecture_to_disprove: &Condition<FnArg>,
    ) -> (q: SqlSelectQuery)
        ensures
            is_extremal_query(
                select_model(q),
                *selection,
                query_columns(*selection, *additional_condition, Some(*conjecture_to_disprove)),
                full_col("*"@),
                *additional_condition,
            ),
    {
        let head = dotted(FULL_TABLE_NAME, "*");
        extremal_query(selection, additional_condition, Some(conjecture_to_disprove), head.as_str())
    }

    /// The query of the counterexamples: the extremal graphs where the conjecture fails.
    pub fn to_query(&self) -> (q: SqlSelectQuery)
        ensures
            is_counter_query(select_model(q), self.selection, self.additional_condition, self.conjecture_to_disprove),
    {
        let mut query = Self::with_extremal_graphs(&self.selection, &self.additional_condition, &self.conjecture_to_disprove);
        let prefix = concat(FULL_TABLE_NAME, ".");
        let safe = prefix_cond(&self.conjecture_to_disprove, prefix.as_str());
        query.add_and(Condition::not(safe));
        query
    }
}

/// All the extremal graphs of the class that satisfy the additional condition.
pub fn select_all_extremal_graphs(selection: &ClassSelection, additional_condition: &Option<Condition<FnArg>>) -> (q: SqlSelectQuery)
    ensures
        is_extremal_query(
            select_model(q),
            *selection,
            query_columns(*selection, *additional_condition, None),
            full_col("*"@),
            *additional_condition,
        ),
{
    ExtremalCounterQuery::get_extremal_graphs(selection, additional_condition, None)
}

/// The graphs of the dataset that satisfy the condition: the dataset joined
/// with the tables of the condition's identifiers, if there are any.
pub fn select_all_graph_cond(cond: Condition<FnArg>) -> (q: SqlSelectQuery)
    ensures
        select_model(q).select.len() == 1 && is_ident(select_model(q).select[0], "*"@),
        select_model(q).from.len() == 1,
        dedup(cond_idents(cond)).len() == 0 ==> select_model(q).from[0] == (TableSelModel {
            table: TableModel::Name(CANONICAL_TABLE_NAME@),
            rename_as: None,
        }),
        dedup(cond_idents(cond)).len() > 0 ==> is_join_table(
            select_model(q).from[0],
            seq![CANONICAL_TABLE_NAME@] + dedup(cond_idents(cond)),
            PK_NAME@,
        ),
        select_model(q).joins.len() == 0,
        select_model(q).where_clause == Some(crate::sql::WhereModel { not_exists: None, condition: Some(cond) }),
{
    let invariants = get_all_inv_column(&cond);
    let table = if invariants.len() == 0 {
        SqlTableSelection { selected_table: SqlTable::TableName(String::from_str(CANONICAL_TABLE_NAME)), rename_as: None }
    } else {
        new_join(String::from_str(CANONICAL_TABLE_NAME), &invariants, PK_NAME)
    };
    let q = SqlSelectQuery::select_all_from_table(table);
    proof {
        lemma_from_models(seq![table], 1);
    }
    q.set_where_clause(SqlWhereClause { not_exists: None, condition: Some(cond) })
}

} // verus!
