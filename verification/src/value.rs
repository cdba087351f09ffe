//! Typed cell values, column definitions, and the total order used by
//! ORDER BY and comparison predicates.
//!
//! Every executable type has a mathematical model reached through
//! `deep_view`; contracts throughout the crate speak of those models.

use vstd::prelude::*;

verus! {

/// Outcome of a three-way comparison.
#[derive(Clone, Copy, PartialEq, Eq, Structural, Debug)]
pub enum Cmp {
    Lt,
    Eq,
    Gt,
}

/// Data types a column can be declared with.
#[derive(PartialEq, Eq, Structural, Debug)]
pub enum DataType {
    Integer,
    Text,
    Boolean,
    Date,
    Timestamp,
    TSVector,
}

impl Clone for DataType {
    /// Cloning preserves the variant.
    fn clone(&self) -> (r: Self)
        ensures
            r == *self,
    {
        match self {
            DataType::Integer => DataType::Integer,
            DataType::Text => DataType::Text,
            DataType::Boolean => DataType::Boolean,
            DataType::Date => DataType::Date,
            DataType::Timestamp => DataType::Timestamp,
            DataType::TSVector => DataType::TSVector,
        }
    }
}

impl Copy for DataType {

}

impl DeepView for DataType {
    type V = DataType;

    open spec fn deep_view(&self) -> DataType {
        *self
    }
}

/// Column constraints accepted by CREATE TABLE.
#[derive(PartialEq, Eq, Structural, Debug)]
pub enum Constraint {
    PrimaryKey,
    NotNull,
    Unique,
}

impl Clone for Constraint {
    /// Cloning preserves the variant.
    fn clone(&self) -> (r: Self)
        ensures
            r == *self,
    {
        match self {
            Constraint::PrimaryKey => Constraint::PrimaryKey,
            Constraint::NotNull => Constraint::NotNull,
            Constraint::Unique => Constraint::Unique,
        }
    }
}

impl Copy for Constraint {

}

impl DeepView for Constraint {
    type V = Constraint;

    open spec fn deep_view(&self) -> Constraint {
        *self
    }
}

/// A single typed cell. Dates are held as day numbers and timestamps as
/// nanosecond counts, so that the core never depends on a calendar library.
#[derive(PartialEq, Eq, Debug)]
pub enum DataValue {
    Integer(i64),
    Text(String),
    Boolean(bool),
    Date(i64),
    Timestamp(i64),
}

/// The mathematical model of a cell value.
pub enum Val {
    Int(int),
    Text(Seq<char>),
    Bool(bool),
    Date(int),
    Timestamp(int),
}

impl DeepView for DataValue {
    type V = Val;

    open spec fn deep_view(&self) -> Val {
        match self {
            DataValue::Integer(x) => Val::Int(*x as int),
            DataValue::Text(s) => Val::Text(s@),
            DataValue::Boolean(b) => Val::Bool(*b),
            DataValue::Date(x) => Val::Date(*x as int),
            DataValue::Timestamp(x) => Val::Timestamp(*x as int),
        }
    }
}

/// Lexicographic three-way comparison of two character sequences by
/// Unicode scalar value.
pub open spec fn lex_cmp(a: Seq<char>, b: Seq<char>) -> Cmp
    decreases a.len(),
{
    if a.len() == 0 && b.len() == 0 {
        Cmp::Eq
    } else if a.len() == 0 {
        Cmp::Lt
    } else if b.len() == 0 {
        Cmp::Gt
    } else if (a[0] as u32) < (b[0] as u32) {
        Cmp::Lt
    } else if (b[0] as u32) < (a[0] as u32) {
        Cmp::Gt
    } else {
        lex_cmp(a.skip(1), b.skip(1))
    }
}

/// Rank of a value variant; values of different variants order by rank.
pub open spec fn rank(v: Val) -> int {
    match v {
        Val::Int(_) => 0,
        Val::Text(_) => 1,
        Val::Bool(_) => 2,
        Val::Date(_) => 3,
        Val::Timestamp(_) => 4,
    }
}

pub open spec fn int_cmp(x: int, y: int) -> Cmp {
    if x < y {
        Cmp::Lt
    } else if y < x {
        Cmp::Gt
    } else {
        Cmp::Eq
    }
}

pub open spec fn bool_cmp(x: bool, y: bool) -> Cmp {
    if x == y {
        Cmp::Eq
    } else if !x {
        Cmp::Lt
    } else {
        Cmp::Gt
    }
}

/// The total order on cell values: variant rank first, then the natural
/// order of the payload (numeric, lexicographic, or false < true).
pub open spec fn val_cmp(a: Val, b: Val) -> Cmp {
    if rank(a) < rank(b) {
        Cmp::Lt
    } else if rank(b) < rank(a) {
        Cmp::Gt
    } else {
        match (a, b) {
            (Val::Int(x), Val::Int(y)) => int_cmp(x, y),
            (Val::Text(x), Val::Text(y)) => lex_cmp(x, y),
            (Val::Bool(x), Val::Bool(y)) => bool_cmp(x, y),
            (Val::Date(x), Val::Date(y)) => int_cmp(x, y),
            (Val::Timestamp(x), Val::Timestamp(y)) => int_cmp(x, y),
            _ => Cmp::Eq,
        }
    }
}

/// Value equality as the executor sees it: both cells compare `Eq`.
pub open spec fn val_eq(a: Val, b: Val) -> bool {
    val_cmp(a, b) == Cmp::Eq
}

/// If two character sequences agree on their first `i` characters, their
/// comparison is decided by the remainders.
pub proof fn lemma_lex_cmp_skip(a: Seq<char>, b: Seq<char>, i: int)
    requires
        0 <= i <= a.len(),
        i <= b.len(),
        forall|j: int| 0 <= j < i ==> a[j] == b[j],
    ensures
        lex_cmp(a, b) == lex_cmp(a.skip(i), b.skip(i)),
    decreases i,
{
    if i > 0 {
        assert(a.len() > 0 && b.len() > 0);
        assert(a[0] == b[0]);
        assert(lex_cmp(a, b) == lex_cmp(a.skip(1), b.skip(1)));
        assert(forall|j: int| 0 <= j < i - 1 ==> a.skip(1)[j] == b.skip(1)[j]);
        lemma_lex_cmp_skip(a.skip(1), b.skip(1), i - 1);
        assert(a.skip(1).skip(i - 1) =~= a.skip(i));
        assert(b.skip(1).skip(i - 1) =~= b.skip(i));
        assert(lex_cmp(a.skip(1), b.skip(1)) == lex_cmp(a.skip(i), b.skip(i)));
    } else {
        assert(a.skip(0) =~= a);
        assert(b.skip(0) =~= b);
    }
}

/// `lex_cmp` answers `Eq` exactly on equal sequences.
pub proof fn lemma_lex_cmp_eq(a: Seq<char>, b: Seq<char>)
    ensures
        (lex_cmp(a, b) == Cmp::Eq) <==> (a =~= b),
    decreases a.len(),
{
    if a.len() > 0 && b.len() > 0 && (a[0] as u32) == (b[0] as u32) {
        vstd::utf8::char_u32_cast(a[0], a[0] as u32);
        vstd::utf8::char_u32_cast(b[0], b[0] as u32);
        assert(a[0] == b[0]);
        lemma_lex_cmp_eq(a.skip(1), b.skip(1));
        if lex_cmp(a, b) == Cmp::Eq {
            assert(a.skip(1) =~= b.skip(1));
            assert(a =~= b) by {
                assert(a.len() == b.len());
                assert forall|j: int| 0 < j < a.len() implies a[j] == b[j] by {
                    assert(a[j] == a.skip(1)[j - 1]);
                    assert(b[j] == b.skip(1)[j - 1]);
                }
            }
        }
        if a =~= b {
            assert(a.skip(1) =~= b.skip(1));
        }
    }
}

/// The lexicographic order is antisymmetric: swapping the arguments flips
/// the answer.
pub proof fn lemma_lex_cmp_flip(a: Seq<char>, b: Seq<char>)
    ensures
        lex_cmp(a, b) == Cmp::Lt <==> lex_cmp(b, a) == Cmp::Gt,
        lex_cmp(a, b) == Cmp::Eq <==> lex_cmp(b, a) == Cmp::Eq,
    decreases a.len(),
{
    if a.len() > 0 && b.len() > 0 && (a[0] as u32) == (b[0] as u32) {
        lemma_lex_cmp_flip(a.skip(1), b.skip(1));
    }
}

/// Transitivity of the lexicographic order in its `Lt`-or-`Eq` form.
pub proof fn lemma_lex_cmp_trans(a: Seq<char>, b: Seq<char>, c: Seq<char>)
    requires
        lex_cmp(a, b) != Cmp::Gt,
        lex_cmp(b, c) != Cmp::Gt,
    ensures
        lex_cmp(a, c) != Cmp::Gt,
        (lex_cmp(a, b) == Cmp::Lt || lex_cmp(b, c) == Cmp::Lt) ==> lex_cmp(a, c) == Cmp::Lt,
    decreases a.len() + b.len() + c.len(),
{
    if a.len() > 0 && b.len() > 0 && c.len() > 0 {
        if (a[0] as u32) == (b[0] as u32) && (b[0] as u32) == (c[0] as u32) {
            lemma_lex_cmp_trans(a.skip(1), b.skip(1), c.skip(1));
        }
    }
}

/// The value order is antisymmetric.
pub proof fn lemma_val_cmp_flip(a: Val, b: Val)
    ensures
        val_cmp(a, b) == Cmp::Lt <==> val_cmp(b, a) == Cmp::Gt,
        val_cmp(a, b) == Cmp::Eq <==> val_cmp(b, a) == Cmp::Eq,
{
    match (a, b) {
        (Val::Text(x), Val::Text(y)) => {
            lemma_lex_cmp_flip(x, y);
        },
        _ => {},
    }
}

/// The value order is transitive.
pub proof fn lemma_val_cmp_trans(a: Val, b: Val, c: Val)
    requires
        val_cmp(a, b) != Cmp::Gt,
        val_cmp(b, c) != Cmp::Gt,
    ensures
        val_cmp(a, c) != Cmp::Gt,
        (val_cmp(a, b) == Cmp::Lt || val_cmp(b, c) == Cmp::Lt) ==> val_cmp(a, c) == Cmp::Lt,
{
    match (a, b, c) {
        (Val::Text(x), Val::Text(y), Val::Text(z)) => {
            lemma_lex_cmp_trans(x, y, z);
        },
        _ => {},
    }
}

impl Clone for DataValue {
    /// Cloning a cell preserves its model.
    fn clone(&self) -> (r: Self)
        ensures
            r.deep_view() == self.deep_view(),
    {
        match self {
            DataValue::Integer(x) => DataValue::Integer(*x),
            DataValue::Text(s) => DataValue::Text(s.clone()),
            DataValue::Boolean(x) => DataValue::Boolean(*x),
            DataValue::Date(x) => DataValue::Date(*x),
            DataValue::Timestamp(x) => DataValue::Timestamp(*x),
        }
    }
}

/// Three-way comparison of strings, matching `lex_cmp` on the views.
pub fn str_cmp(a: &str, b: &str) -> (r: Cmp)
    ensures
        r == lex_cmp(a@, b@),
{
    let a_len = a.unicode_len();
    let b_len = b.unicode_len();
    let n = if a_len < b_len {
        a_len
    } else {
        b_len
    };
    let mut i: usize = 0;
    while i < n
        invariant
            0 <= i <= n,
            n <= a@.len(),
            n <= b@.len(),
            a_len == a@.len(),
            b_len == b@.len(),
            n == if a_len < b_len {
                a_len
            } else {
                b_len
            },
            forall|j: int| 0 <= j < i ==> a@[j] == b@[j],
        decreases n - i,
    {
        let ca = a.get_char(i);
        let cb = b.get_char(i);
        let ua = ca as u32;
        let ub = cb as u32;
        if ua < ub {
            proof {
                lemma_lex_cmp_skip(a@, b@, i as int);
            }
            return Cmp::Lt;
        }
        if ub < ua {
            proof {
                lemma_lex_cmp_skip(a@, b@, i as int);
            }
            return Cmp::Gt;
        }
        proof {
            vstd::utf8::char_u32_cast(ca, ua);
            vstd::utf8::char_u32_cast(cb, ub);
            assert(ca == cb);
        }
        i = i + 1;
    }
    proof {
        lemma_lex_cmp_skip(a@, b@, n as int);
    }
    if a_len < b_len {
        Cmp::Lt
    } else if b_len < a_len {
        Cmp::Gt
    } else {
        Cmp::Eq
    }
}

/// Equality of strings by view.
pub fn str_eq(a: &str, b: &str) -> (r: bool)
    ensures
        r == (a@ == b@),
{
    let c = str_cmp(a, b);
    proof {
        lemma_lex_cmp_eq(a@, b@);
    }
    match c {
        Cmp::Eq => true,
        _ => false,
    }
}

fn i64_cmp(x: i64, y: i64) -> (r: Cmp)
    ensures
        r == int_cmp(x as int, y as int),
{
    if x < y {
        Cmp::Lt
    } else if y < x {
        Cmp::Gt
    } else {
        Cmp::Eq
    }
}

/// Three-way comparison of two cell values under the ORDER BY total order.
pub fn dv_cmp(a: &DataValue, b: &DataValue) -> (r: Cmp)
    ensures
        r == val_cmp(a.deep_view(), b.deep_view()),
{
    match (a, b) {
        (DataValue::Integer(x), DataValue::Integer(y)) => i64_cmp(*x, *y),
        (DataValue::Text(x), DataValue::Text(y)) => str_cmp(x.as_str(), y.as_str()),
        (DataValue::Boolean(x), DataValue::Boolean(y)) => {
            if *x == *y {
                Cmp::Eq
            } else if !*x {
                Cmp::Lt
            } else {
                Cmp::Gt
            }
        },
        (DataValue::Date(x), DataValue::Date(y)) => i64_cmp(*x, *y),
        (DataValue::Timestamp(x), DataValue::Timestamp(y)) => i64_cmp(*x, *y),
        _ => {
            let ra = dv_rank(a);
            let rb = dv_rank(b);
            if ra < rb {
                Cmp::Lt
            } else if rb < ra {
                Cmp::Gt
            } else {
                Cmp::Eq
            }
        },
    }
}

fn dv_rank(v: &DataValue) -> (r: u8)
    ensures
        r as int == rank(v.deep_view()),
{
    match v {
        DataValue::Integer(_) => 0,
        DataValue::Text(_) => 1,
        DataValue::Boolean(_) => 2,
        DataValue::Date(_) => 3,
        DataValue::Timestamp(_) => 4,
    }
}

/// Equality of cell values under the executor's order.
pub fn dv_eq(a: &DataValue, b: &DataValue) -> (r: bool)
    ensures
        r == val_eq(a.deep_view(), b.deep_view()),
{
    match dv_cmp(a, b) {
        Cmp::Eq => true,
        _ => false,
    }
}

/// The mathematical model of a column declaration.
pub struct ColModel {
    pub name: Seq<char>,
    pub data_type: DataType,
    pub constraints: Seq<Constraint>,
}

/// A column declaration: a name, a data type, and its constraints.
#[derive(PartialEq, Eq, Debug)]
pub struct ColumnDef {
    pub name: String,
    pub data_type: DataType,
    pub constraints: Vec<Constraint>,
}

impl DeepView for ColumnDef {
    type V = ColModel;

    open spec fn deep_view(&self) -> ColModel {
        ColModel { name: self.name@, data_type: self.data_type, constraints: self.constraints@ }
    }
}

impl ColumnDef {
    /// Builds a column declaration from its parts.
    pub fn new(name: &str, data_type: DataType, constraints: Vec<Constraint>) -> (r: Self)
        ensures
            r.deep_view() == (ColModel { name: name@, data_type, constraints: constraints@ }),
    {
        ColumnDef { name: name.to_owned(), data_type, constraints }
    }
}

impl Clone for ColumnDef {
    /// Cloning a column declaration preserves its model.
    fn clone(&self) -> (r: Self)
        ensures
            r.deep_view() == self.deep_view(),
    {
        let cons = self.constraints.clone();
        proof {
            assert(cons@ =~= self.constraints@);
        }
        ColumnDef { name: self.name.clone(), data_type: self.data_type, constraints: cons }
    }
}

} // verus!
