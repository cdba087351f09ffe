//! Statement evaluation: WHERE trees, equi-join conditions, the stable
//! multi-key ORDER BY sort, join expansion, and column projection.
//!
//! All evaluation works against a combined schema: the base table's
//! columns first, then each joined table's columns in declaration order,
//! each column tagged with the table it came from.

use vstd::prelude::*;
use crate::ast::{ColumnValuePair, ComparisonOp, CvpM, WhereClause, WhereM, WhereType};
use crate::value::{
    lemma_val_cmp_flip, lemma_val_cmp_trans, str_eq, Cmp, ColModel, ColumnDef, DataValue, Val,
    val_cmp, val_eq,
};

verus! {

/// Position of the first combined-schema column matching `name`, and
/// `table` where one is given; `table` of `None` searches every column.
pub open spec fn qcol_pos(
    cs: Seq<(Seq<char>, ColModel)>,
    table: Option<Seq<char>>,
    name: Seq<char>,
) -> Option<int>
    decreases cs.len(),
{
    if cs.len() == 0 {
        None
    } else if cs[0].1.name == name && (table is None || table == Some(cs[0].0)) {
        Some(0int)
    } else {
        match qcol_pos(cs.skip(1), table, name) {
            Some(i) => Some(i + 1),
            None => None,
        }
    }
}

/// `qcol_pos` answers the first matching position.
pub proof fn lemma_qcol_pos_found(
    cs: Seq<(Seq<char>, ColModel)>,
    table: Option<Seq<char>>,
    name: Seq<char>,
    i: int,
)
    requires
        0 <= i < cs.len(),
        cs[i].1.name == name && (table is None || table == Some(cs[i].0)),
        forall|j: int|
            0 <= j < i ==> !(cs[j].1.name == name && (table is None || table == Some(cs[j].0))),
    ensures
        qcol_pos(cs, table, name) == Some(i),
    decreases i,
{
    if i > 0 {
        assert(cs.skip(1)[i - 1] == cs[i]);
        assert forall|j: int|
            0 <= j < i - 1 implies !(cs.skip(1)[j].1.name == name && (table is None || table
            == Some(cs.skip(1)[j].0))) by {
            assert(cs.skip(1)[j] == cs[j + 1]);
        }
        lemma_qcol_pos_found(cs.skip(1), table, name, i - 1);
    }
}

/// When no column matches, `qcol_pos` answers `None`.
pub proof fn lemma_qcol_pos_none(
    cs: Seq<(Seq<char>, ColModel)>,
    table: Option<Seq<char>>,
    name: Seq<char>,
)
    requires
        forall|j: int|
            0 <= j < cs.len() ==> !(cs[j].1.name == name && (table is None || table == Some(
                cs[j].0,
            ))),
    ensures
        qcol_pos(cs, table, name) is None,
    decreases cs.len(),
{
    if cs.len() > 0 {
        assert forall|j: int|
            0 <= j < cs.skip(1).len() implies !(cs.skip(1)[j].1.name == name && (table is None
            || table == Some(cs.skip(1)[j].0))) by {
            assert(cs.skip(1)[j] == cs[j + 1]);
        }
        lemma_qcol_pos_none(cs.skip(1), table, name);
    }
}

/// Finds the first combined-schema column matching `name` (and `table`
/// where given).
pub fn find_qcol(cs: &Vec<(String, ColumnDef)>, table: Option<&String>, name: &str) -> (r: Option<
    usize,
>)
    ensures
        ({
            let tm = match table {
                Some(t) => Some(t@),
                None => None,
            };
            match r {
                Some(i) => qcol_pos(cs.deep_view(), tm, name@) == Some(i as int) && i < cs.len(),
                None => qcol_pos(cs.deep_view(), tm, name@) is None,
            }
        }),
{
    let ghost tm: Option<Seq<char>> = match table {
        Some(t) => Some(t@),
        None => None,
    };
    let n = cs.len();
    let mut i: usize = 0;
    while i < n
        invariant
            n == cs.len(),
            i <= n,
            tm == (match table {
                Some(t) => Some(t@),
                None => None,
            }),
            forall|j: int|
                0 <= j < i ==> !(cs.deep_view()[j].1.name == name@ && (tm is None || tm == Some(
                    cs.deep_view()[j].0,
                ))),
        decreases n - i,
    {
        if str_eq(cs[i].1.name.as_str(), name) {
            let tbl_ok = match table {
                Some(t) => str_eq(cs[i].0.as_str(), t.as_str()),
                None => true,
            };
            if tbl_ok {
                proof {
                    assert(cs.deep_view()[i as int].1.name == name@);
                    lemma_qcol_pos_found(cs.deep_view(), tm, name@, i as int);
                }
                return Some(i);
            }
        }
        i = i + 1;
    }
    proof {
        lemma_qcol_pos_none(cs.deep_view(), tm, name@);
    }
    None
}

/// What a binary comparison answers on two cell values.
pub open spec fn spec_eval_op(op: ComparisonOp, a: Val, b: Val) -> bool {
    match op {
        ComparisonOp::Eq => val_cmp(a, b) == Cmp::Eq,
        ComparisonOp::NotEq => val_cmp(a, b) != Cmp::Eq,
        ComparisonOp::Lt => val_cmp(a, b) == Cmp::Lt,
        ComparisonOp::LtEq => val_cmp(a, b) != Cmp::Gt,
        ComparisonOp::Gt => val_cmp(a, b) == Cmp::Gt,
        ComparisonOp::GtEq => val_cmp(a, b) != Cmp::Lt,
    }
}

/// Evaluates a binary comparison.
pub fn eval_op(op: &ComparisonOp, a: &DataValue, b: &DataValue) -> (r: bool)
    ensures
        r == spec_eval_op(*op, a.deep_view(), b.deep_view()),
{
    let c = crate::value::dv_cmp(a, b);
    match op {
        ComparisonOp::Eq => matches!(c, Cmp::Eq),
        ComparisonOp::NotEq => !matches!(c, Cmp::Eq),
        ComparisonOp::Lt => matches!(c, Cmp::Lt),
        ComparisonOp::LtEq => !matches!(c, Cmp::Gt),
        ComparisonOp::Gt => matches!(c, Cmp::Gt),
        ComparisonOp::GtEq => !matches!(c, Cmp::Lt),
    }
}

/// What a WHERE tree answers on a row under a combined schema: a missing
/// column makes its comparison false, and a full-text clause is false on
/// this generic path (it is answered by the search index instead).
pub open spec fn spec_eval_where(w: WhereM, row: Seq<Val>, cs: Seq<(Seq<char>, ColModel)>) -> bool
    decreases w,
{
    match w {
        WhereM::Regular(c) => match qcol_pos(cs, c.table, c.col_name) {
            Some(i) => i < row.len() && spec_eval_op(c.operator, row[i], c.value),
            None => false,
        },
        WhereM::And(l, r) => spec_eval_where(*l, row, cs) && spec_eval_where(*r, row, cs),
        WhereM::Or(l, r) => spec_eval_where(*l, row, cs) || spec_eval_where(*r, row, cs),
        WhereM::Fts(_) => false,
    }
}

/// Evaluates a WHERE tree on a row under a combined schema.
pub fn evaluate_where_clause(
    w: &WhereType,
    row: &Vec<DataValue>,
    cs: &Vec<(String, ColumnDef)>,
) -> (r: bool)
    ensures
        r == spec_eval_where(w.deep_view(), row.deep_view(), cs.deep_view()),
    decreases *w,
{
    match w {
        WhereType::Regular(c) => {
            match find_qcol(cs, c.table.as_ref(), c.col_name.as_str()) {
                Some(i) => {
                    if i < row.len() {
                        eval_op(&c.operator, &row[i], &c.value)
                    } else {
                        false
                    }
                },
                None => false,
            }
        },
        WhereType::And(l, r) => {
            let lv = evaluate_where_clause(l, row, cs);
            let rv = evaluate_where_clause(r, row, cs);
            lv && rv
        },
        WhereType::Or(l, r) => {
            let lv = evaluate_where_clause(l, row, cs);
            let rv = evaluate_where_clause(r, row, cs);
            lv || rv
        },
        WhereType::FTS(_) => false,
    }
}

/// Resolves one side of an equi-join condition: an empty or left-matching
/// qualifier reads the accumulated row, a right-matching qualifier reads
/// the candidate joined row, anything else resolves to nothing.
pub open spec fn spec_join_side(
    pair: CvpM,
    lrow: Seq<Val>,
    lschema: Seq<ColModel>,
    rrow: Seq<Val>,
    rschema: Seq<ColModel>,
    lt: Seq<char>,
    rt: Seq<char>,
) -> Option<Val> {
    if pair.table_name.len() == 0 || pair.table_name == lt {
        match crate::schema::col_pos(lschema, pair.column_name) {
            Some(i) => if i < lrow.len() {
                Some(lrow[i])
            } else {
                None
            },
            None => None,
        }
    } else if pair.table_name == rt {
        match crate::schema::col_pos(rschema, pair.column_name) {
            Some(i) => if i < rrow.len() {
                Some(rrow[i])
            } else {
                None
            },
            None => None,
        }
    } else {
        None
    }
}

/// Whether the equi-join condition holds between an accumulated row and a
/// candidate joined row: both sides resolve and compare equal.
pub open spec fn spec_join_matches(
    cond: (CvpM, CvpM),
    lrow: Seq<Val>,
    lschema: Seq<ColModel>,
    rrow: Seq<Val>,
    rschema: Seq<ColModel>,
    lt: Seq<char>,
    rt: Seq<char>,
) -> bool {
    match (
        spec_join_side(cond.0, lrow, lschema, rrow, rschema, lt, rt),
        spec_join_side(cond.1, lrow, lschema, rrow, rschema, lt, rt),
    ) {
        (Some(a), Some(b)) => val_eq(a, b),
        _ => false,
    }
}

fn eval_join_side<'a>(
    pair: &ColumnValuePair,
    lrow: &'a Vec<DataValue>,
    lschema: &Vec<ColumnDef>,
    rrow: &'a Vec<DataValue>,
    rschema: &Vec<ColumnDef>,
    lt: &str,
    rt: &str,
) -> (r: Option<&'a DataValue>)
    ensures
        match (r, spec_join_side(
            pair.deep_view(),
            lrow.deep_view(),
            lschema.deep_view(),
            rrow.deep_view(),
            rschema.deep_view(),
            lt@,
            rt@,
        )) {
            (Some(d), Some(m)) => d.deep_view() == m,
            (None, None) => true,
            _ => false,
        },
{
    if pair.table_name.as_str().unicode_len() == 0 || str_eq(pair.table_name.as_str(), lt) {
        match crate::schema::find_col(lschema, pair.column_name.as_str()) {
            Some(i) => {
                if i < lrow.len() {
                    Some(&lrow[i])
                } else {
                    None
                }
            },
            None => None,
        }
    } else if str_eq(pair.table_name.as_str(), rt) {
        match crate::schema::find_col(rschema, pair.column_name.as_str()) {
            Some(i) => {
                if i < rrow.len() {
                    Some(&rrow[i])
                } else {
                    None
                }
            },
            None => None,
        }
    } else {
        None
    }
}

/// Evaluates the equi-join condition between an accumulated row and a
/// candidate joined row.
pub fn evaluate_join_condition(
    cond: &(ColumnValuePair, ColumnValuePair),
    lrow: &Vec<DataValue>,
    lschema: &Vec<ColumnDef>,
    rrow: &Vec<DataValue>,
    rschema: &Vec<ColumnDef>,
    lt: &str,
    rt: &str,
) -> (r: bool)
    ensures
        r == spec_join_matches(
            (cond.0.deep_view(), cond.1.deep_view()),
            lrow.deep_view(),
            lschema.deep_view(),
            rrow.deep_view(),
            rschema.deep_view(),
            lt@,
            rt@,
        ),
{
    let a = eval_join_side(&cond.0, lrow, lschema, rrow, rschema, lt, rt);
    let b = eval_join_side(&cond.1, lrow, lschema, rrow, rschema, lt, rt);
    match (a, b) {
        (Some(x), Some(y)) => crate::value::dv_eq(x, y),
        _ => false,
    }
}

/// The mirrored comparison.
pub open spec fn cmp_flip(c: Cmp) -> Cmp {
    match c {
        Cmp::Lt => Cmp::Gt,
        Cmp::Eq => Cmp::Eq,
        Cmp::Gt => Cmp::Lt,
    }
}

/// The multi-key ORDER BY comparison of two rows: keys are tried in
/// order; a key whose column resolves in neither row is skipped, a row
/// missing a resolved column sorts before one that has it, `Desc`
/// mirrors the value order, and rows tying on every key compare `Eq`.
pub open spec fn row_cmp(
    keys: Seq<crate::ast::OrderByM>,
    cs: Seq<(Seq<char>, ColModel)>,
    a: Seq<Val>,
    b: Seq<Val>,
) -> Cmp
    decreases keys.len(),
{
    if keys.len() == 0 {
        Cmp::Eq
    } else {
        let k = keys[0];
        let c = match qcol_pos(cs, k.column.table, k.column.name) {
            Some(i) => if i < a.len() && i < b.len() {
                if k.direction == crate::ast::OrderDirection::Desc {
                    cmp_flip(val_cmp(a[i], b[i]))
                } else {
                    val_cmp(a[i], b[i])
                }
            } else if i < a.len() {
                Cmp::Gt
            } else if i < b.len() {
                Cmp::Lt
            } else {
                Cmp::Eq
            },
            None => Cmp::Eq,
        };
        if c == Cmp::Eq {
            row_cmp(keys.skip(1), cs, a, b)
        } else {
            c
        }
    }
}

/// The row comparison is antisymmetric.
pub proof fn lemma_row_cmp_flip(
    keys: Seq<crate::ast::OrderByM>,
    cs: Seq<(Seq<char>, ColModel)>,
    a: Seq<Val>,
    b: Seq<Val>,
)
    ensures
        row_cmp(keys, cs, a, b) == cmp_flip(row_cmp(keys, cs, b, a)),
    decreases keys.len(),
{
    if keys.len() > 0 {
        lemma_row_cmp_flip(keys.skip(1), cs, a, b);
        let k = keys[0];
        match qcol_pos(cs, k.column.table, k.column.name) {
            Some(i) => {
                if i < a.len() && i < b.len() {
                    lemma_val_cmp_flip(a[i], b[i]);
                    lemma_val_cmp_flip(b[i], a[i]);
                }
            },
            None => {},
        }
    }
}

/// The row comparison is transitive in its `Lt`-or-`Eq` form.
pub proof fn lemma_row_cmp_trans(
    keys: Seq<crate::ast::OrderByM>,
    cs: Seq<(Seq<char>, ColModel)>,
    a: Seq<Val>,
    b: Seq<Val>,
    c: Seq<Val>,
)
    requires
        row_cmp(keys, cs, a, b) != Cmp::Gt,
        row_cmp(keys, cs, b, c) != Cmp::Gt,
    ensures
        row_cmp(keys, cs, a, c) != Cmp::Gt,
        (row_cmp(keys, cs, a, b) == Cmp::Lt || row_cmp(keys, cs, b, c) == Cmp::Lt) ==> row_cmp(
            keys,
            cs,
            a,
            c,
        ) == Cmp::Lt,
    decreases keys.len(),
{
    if keys.len() > 0 {
        let k = keys[0];
        match qcol_pos(cs, k.column.table, k.column.name) {
            Some(i) => {
                if i < a.len() && i < b.len() && i < c.len() {
                    lemma_val_cmp_flip(a[i], b[i]);
                    lemma_val_cmp_flip(b[i], c[i]);
                    lemma_val_cmp_flip(a[i], c[i]);
                    if val_cmp(a[i], b[i]) != Cmp::Gt && val_cmp(b[i], c[i]) != Cmp::Gt {
                        lemma_val_cmp_trans(a[i], b[i], c[i]);
                    }
                    if val_cmp(b[i], a[i]) != Cmp::Gt && val_cmp(c[i], b[i]) != Cmp::Gt {
                        lemma_val_cmp_trans(c[i], b[i], a[i]);
                    }
                }
                if row_cmp(keys.skip(1), cs, a, b) != Cmp::Gt && row_cmp(keys.skip(1), cs, b, c)
                    != Cmp::Gt {
                    lemma_row_cmp_trans(keys.skip(1), cs, a, b, c);
                }
            },
            None => {
                lemma_row_cmp_trans(keys.skip(1), cs, a, b, c);
            },
        }
    }
}

/// Two rows each tying with a third tie with each other.
pub proof fn lemma_row_cmp_eq_trans(
    keys: Seq<crate::ast::OrderByM>,
    cs: Seq<(Seq<char>, ColModel)>,
    a: Seq<Val>,
    b: Seq<Val>,
    c: Seq<Val>,
)
    requires
        row_cmp(keys, cs, a, b) == Cmp::Eq,
        row_cmp(keys, cs, b, c) == Cmp::Eq,
    ensures
        row_cmp(keys, cs, a, c) == Cmp::Eq,
{
    lemma_row_cmp_trans(keys, cs, a, b, c);
    lemma_row_cmp_flip(keys, cs, a, b);
    lemma_row_cmp_flip(keys, cs, b, c);
    lemma_row_cmp_flip(keys, cs, a, c);
    lemma_row_cmp_trans(keys, cs, c, b, a);
}

/// Whether `a` sorts strictly before `b`.
pub open spec fn row_lt(
    keys: Seq<crate::ast::OrderByM>,
    cs: Seq<(Seq<char>, ColModel)>,
    a: (usize, Seq<Val>),
    b: (usize, Seq<Val>),
) -> bool {
    row_cmp(keys, cs, a.1, b.1) == Cmp::Lt
}

/// `x` inserted into `l` after every row not strictly greater.
pub open spec fn spec_insert(
    keys: Seq<crate::ast::OrderByM>,
    cs: Seq<(Seq<char>, ColModel)>,
    x: (usize, Seq<Val>),
    l: Seq<(usize, Seq<Val>)>,
) -> Seq<(usize, Seq<Val>)>
    decreases l.len(),
{
    if l.len() == 0 {
        seq![x]
    } else if row_lt(keys, cs, x, l[0]) {
        seq![x] + l
    } else {
        seq![l[0]] + spec_insert(keys, cs, x, l.skip(1))
    }
}

/// The stable multi-key sort: rows are taken in order and each lands
/// after every row not strictly greater, so ties keep their input order.
pub open spec fn spec_sort(
    keys: Seq<crate::ast::OrderByM>,
    cs: Seq<(Seq<char>, ColModel)>,
    s: Seq<(usize, Seq<Val>)>,
) -> Seq<(usize, Seq<Val>)>
    decreases s.len(),
{
    if s.len() == 0 {
        s
    } else {
        spec_insert(keys, cs, s.last(), spec_sort(keys, cs, s.drop_last()))
    }
}

/// Whether `l` is sorted under the row comparison.
pub open spec fn row_sorted(
    keys: Seq<crate::ast::OrderByM>,
    cs: Seq<(Seq<char>, ColModel)>,
    l: Seq<(usize, Seq<Val>)>,
) -> bool {
    forall|i: int, j: int| 0 <= i < j < l.len() ==> row_cmp(keys, cs, l[i].1, l[j].1) != Cmp::Gt
}

/// Every row of an insertion result is the inserted row or one of the
/// list's rows.
proof fn lemma_insert_members(
    keys: Seq<crate::ast::OrderByM>,
    cs: Seq<(Seq<char>, ColModel)>,
    x: (usize, Seq<Val>),
    l: Seq<(usize, Seq<Val>)>,
)
    ensures
        forall|i: int|
            0 <= i < spec_insert(keys, cs, x, l).len() ==> (#[trigger] spec_insert(
                keys,
                cs,
                x,
                l,
            )[i] == x || exists|m: int| 0 <= m < l.len() && l[m] == spec_insert(keys, cs, x, l)[i]),
    decreases l.len(),
{
    let out = spec_insert(keys, cs, x, l);
    if l.len() == 0 {
    } else if row_lt(keys, cs, x, l[0]) {
        assert forall|i: int| 0 <= i < out.len() implies (#[trigger] out[i] == x || exists|m: int|
            0 <= m < l.len() && l[m] == out[i]) by {
            if i > 0 {
                assert(l[i - 1] == out[i]);
            }
        }
    } else {
        lemma_insert_members(keys, cs, x, l.skip(1));
        let sub = spec_insert(keys, cs, x, l.skip(1));
        assert forall|i: int| 0 <= i < out.len() implies (#[trigger] out[i] == x || exists|m: int|
            0 <= m < l.len() && l[m] == out[i]) by {
            if i == 0 {
                assert(l[0] == out[0]);
            } else {
                assert(out[i] == sub[i - 1]);
                if sub[i - 1] == x {
                } else {
                    let m = choose|m: int| 0 <= m < l.skip(1).len() && l.skip(1)[m] == sub[i - 1];
                    assert(l[m + 1] == out[i]);
                }
            }
        }
    }
}

/// Inserting keeps a sorted list sorted.
proof fn lemma_insert_sorted(
    keys: Seq<crate::ast::OrderByM>,
    cs: Seq<(Seq<char>, ColModel)>,
    x: (usize, Seq<Val>),
    l: Seq<(usize, Seq<Val>)>,
)
    requires
        row_sorted(keys, cs, l),
    ensures
        row_sorted(keys, cs, spec_insert(keys, cs, x, l)),
        spec_insert(keys, cs, x, l).len() == l.len() + 1,
    decreases l.len(),
{
    let out = spec_insert(keys, cs, x, l);
    if l.len() == 0 {
    } else if row_lt(keys, cs, x, l[0]) {
        assert forall|i: int, j: int|
            0 <= i < j < out.len() implies row_cmp(keys, cs, out[i].1, out[j].1) != Cmp::Gt by {
            if i == 0 {
                assert(out[j] == l[j - 1]);
                if j - 1 > 0 {
                    assert(row_cmp(keys, cs, l[0].1, l[j - 1].1) != Cmp::Gt);
                    lemma_row_cmp_trans(keys, cs, x.1, l[0].1, l[j - 1].1);
                }
            } else {
                assert(out[i] == l[i - 1] && out[j] == l[j - 1]);
            }
        }
    } else {
        assert(row_sorted(keys, cs, l.skip(1))) by {
            assert forall|i: int, j: int|
                0 <= i < j < l.skip(1).len() implies row_cmp(
                keys,
                cs,
                l.skip(1)[i].1,
                l.skip(1)[j].1,
            ) != Cmp::Gt by {
                assert(l.skip(1)[i] == l[i + 1] && l.skip(1)[j] == l[j + 1]);
            }
        }
        lemma_insert_sorted(keys, cs, x, l.skip(1));
        let sub = spec_insert(keys, cs, x, l.skip(1));
        lemma_row_cmp_flip(keys, cs, x.1, l[0].1);
        assert(row_cmp(keys, cs, l[0].1, x.1) != Cmp::Gt);
        lemma_insert_members(keys, cs, x, l.skip(1));
        assert forall|i: int, j: int|
            0 <= i < j < out.len() implies row_cmp(keys, cs, out[i].1, out[j].1) != Cmp::Gt by {
            if i == 0 {
                assert(out[j] == sub[j - 1]);
                let y = sub[j - 1];
                if y == x {
                } else {
                    let m = choose|m: int| 0 <= m < l.skip(1).len() && l.skip(1)[m] == y;
                    assert(l[m + 1] == y);
                    assert(row_cmp(keys, cs, l[0].1, l[m + 1].1) != Cmp::Gt);
                }
            } else {
                assert(out[i] == sub[i - 1] && out[j] == sub[j - 1]);
            }
        }
    }
}

/// The sort's output is sorted.
pub proof fn lemma_sort_sorted(
    keys: Seq<crate::ast::OrderByM>,
    cs: Seq<(Seq<char>, ColModel)>,
    s: Seq<(usize, Seq<Val>)>,
)
    ensures
        row_sorted(keys, cs, spec_sort(keys, cs, s)),
        spec_sort(keys, cs, s).len() == s.len(),
    decreases s.len(),
{
    if s.len() > 0 {
        lemma_sort_sorted(keys, cs, s.drop_last());
        lemma_insert_sorted(keys, cs, s.last(), spec_sort(keys, cs, s.drop_last()));
    }
}

/// Keeping the rows tying with `r`.
pub open spec fn ties_with(
    keys: Seq<crate::ast::OrderByM>,
    cs: Seq<(Seq<char>, ColModel)>,
    r: Seq<Val>,
) -> spec_fn((usize, Seq<Val>)) -> bool {
    |x: (usize, Seq<Val>)| row_cmp(keys, cs, x.1, r) == Cmp::Eq
}

/// A member of a filtered row list.
proof fn lemma_row_filter_member(
    s: Seq<(usize, Seq<Val>)>,
    pred: spec_fn((usize, Seq<Val>)) -> bool,
    i: int,
)
    requires
        0 <= i < s.filter(pred).len(),
    ensures
        pred(s.filter(pred)[i]),
        exists|j: int| 0 <= j < s.len() && s[j] == s.filter(pred)[i],
    decreases s.len(),
{
    reveal(Seq::filter);
    if s.len() > 0 {
        let sub = s.drop_last().filter(pred);
        if pred(s.last()) && i == s.filter(pred).len() - 1 {
            assert(s[s.len() - 1] == s.filter(pred)[i]);
        } else {
            lemma_row_filter_member(s.drop_last(), pred, i);
            assert(s.filter(pred)[i] == sub[i]);
            let j = choose|j: int| 0 <= j < s.drop_last().len() && s.drop_last()[j] == sub[i];
            assert(s[j] == sub[i]);
        }
    }
}

/// Inserting a row into a sorted list puts it after every tying row: the
/// rows tying with any fixed row are those of the list, with the inserted
/// row appended when it ties too.
proof fn lemma_insert_ties(
    keys: Seq<crate::ast::OrderByM>,
    cs: Seq<(Seq<char>, ColModel)>,
    x: (usize, Seq<Val>),
    l: Seq<(usize, Seq<Val>)>,
    r: Seq<Val>,
)
    requires
        row_sorted(keys, cs, l),
    ensures
        spec_insert(keys, cs, x, l).filter(ties_with(keys, cs, r)) == if ties_with(keys, cs, r)(x) {
            l.filter(ties_with(keys, cs, r)).push(x)
        } else {
            l.filter(ties_with(keys, cs, r))
        },
    decreases l.len(),
{
    reveal(Seq::filter);
    let p = ties_with(keys, cs, r);
    let out = spec_insert(keys, cs, x, l);
    if l.len() == 0 {
        assert(seq![x].drop_last() =~= Seq::<(usize, Seq<Val>)>::empty());
        assert(Seq::<(usize, Seq<Val>)>::empty().filter(p) =~= Seq::<(usize, Seq<Val>)>::empty());
        if p(x) {
            assert(out.filter(p) =~= l.filter(p).push(x));
        } else {
            assert(out.filter(p) =~= l.filter(p));
        }
    } else if row_lt(keys, cs, x, l[0]) {
        assert(out == seq![x] + l);
        Seq::filter_distributes_over_add(seq![x], l, p);
        assert(seq![x].drop_last() =~= Seq::<(usize, Seq<Val>)>::empty());
        assert(Seq::<(usize, Seq<Val>)>::empty().filter(p) =~= Seq::<(usize, Seq<Val>)>::empty());
        if p(x) {
            assert(seq![x].filter(p) =~= Seq::<(usize, Seq<Val>)>::empty().push(x));
        } else {
            assert(seq![x].filter(p) =~= Seq::<(usize, Seq<Val>)>::empty());
        }
        if p(x) {
            assert(l.filter(p) =~= Seq::<(usize, Seq<Val>)>::empty()) by {
                if l.filter(p).len() > 0 {
                    lemma_row_filter_member(l, p, 0);
                    let y = l.filter(p)[0];
                    let j = choose|j: int| 0 <= j < l.len() && l[j] == y;
                    lemma_row_cmp_flip(keys, cs, y.1, r);
                    lemma_row_cmp_eq_trans(keys, cs, x.1, r, y.1);
                    if j > 0 {
                        assert(row_cmp(keys, cs, l[0].1, l[j].1) != Cmp::Gt);
                        lemma_row_cmp_trans(keys, cs, x.1, l[0].1, l[j].1);
                    }
                    assert(row_cmp(keys, cs, x.1, y.1) == Cmp::Lt);
                    assert(false);
                }
            }
            assert(out.filter(p) =~= l.filter(p).push(x));
        } else {
            assert(out.filter(p) =~= l.filter(p));
        }
    } else {
        assert(row_sorted(keys, cs, l.skip(1))) by {
            assert forall|i: int, j: int|
                0 <= i < j < l.skip(1).len() implies row_cmp(
                keys,
                cs,
                l.skip(1)[i].1,
                l.skip(1)[j].1,
            ) != Cmp::Gt by {
                assert(l.skip(1)[i] == l[i + 1] && l.skip(1)[j] == l[j + 1]);
            }
        }
        lemma_insert_ties(keys, cs, x, l.skip(1), r);
        let sub = spec_insert(keys, cs, x, l.skip(1));
        assert(out == seq![l[0]] + sub);
        Seq::filter_distributes_over_add(seq![l[0]], sub, p);
        Seq::filter_distributes_over_add(seq![l[0]], l.skip(1), p);
        assert(seq![l[0]].drop_last() =~= Seq::<(usize, Seq<Val>)>::empty());
        assert(Seq::<(usize, Seq<Val>)>::empty().filter(p) =~= Seq::<(usize, Seq<Val>)>::empty());
        assert(l =~= seq![l[0]] + l.skip(1));
        assert(l.filter(p) == seq![l[0]].filter(p) + l.skip(1).filter(p));
        if p(x) {
            assert(out.filter(p) == seq![l[0]].filter(p) + (l.skip(1).filter(p).push(x)));
            assert(seq![l[0]].filter(p) + (l.skip(1).filter(p).push(x)) =~= (seq![l[0]].filter(p)
                + l.skip(1).filter(p)).push(x));
            assert(out.filter(p) == l.filter(p).push(x));
        } else {
            assert(out.filter(p) == l.filter(p));
        }
    }
}

/// Stability of the sort: for any fixed row, the rows tying with it come
/// out in exactly their input order.
pub proof fn lemma_sort_stable(
    keys: Seq<crate::ast::OrderByM>,
    cs: Seq<(Seq<char>, ColModel)>,
    s: Seq<(usize, Seq<Val>)>,
    r: Seq<Val>,
)
    ensures
        spec_sort(keys, cs, s).filter(ties_with(keys, cs, r)) == s.filter(ties_with(keys, cs, r)),
    decreases s.len(),
{
    reveal(Seq::filter);
    if s.len() > 0 {
        lemma_sort_stable(keys, cs, s.drop_last(), r);
        lemma_sort_sorted(keys, cs, s.drop_last());
        lemma_insert_ties(keys, cs, s.last(), spec_sort(keys, cs, s.drop_last()), r);
    }
}

/// With no keys every comparison ties, so insertion appends at the end.
proof fn lemma_insert_end(
    cs: Seq<(Seq<char>, ColModel)>,
    x: (usize, Seq<Val>),
    l: Seq<(usize, Seq<Val>)>,
)
    ensures
        spec_insert(Seq::<crate::ast::OrderByM>::empty(), cs, x, l) == l.push(x),
    decreases l.len(),
{
    let keys = Seq::<crate::ast::OrderByM>::empty();
    if l.len() == 0 {
        assert(spec_insert(keys, cs, x, l) =~= l.push(x));
    } else {
        lemma_insert_end(cs, x, l.skip(1));
        assert(seq![l[0]] + l.skip(1).push(x) =~= l.push(x));
    }
}

/// Without ORDER BY keys the sort is the identity: input order is kept.
pub proof fn lemma_sort_no_keys(cs: Seq<(Seq<char>, ColModel)>, s: Seq<(usize, Seq<Val>)>)
    ensures
        spec_sort(Seq::<crate::ast::OrderByM>::empty(), cs, s) == s,
    decreases s.len(),
{
    if s.len() > 0 {
        lemma_sort_no_keys(cs, s.drop_last());
        lemma_insert_end(cs, s.last(), s.drop_last());
        assert(s.drop_last().push(s.last()) =~= s);
    }
}

fn clone_row(r: &(usize, Vec<DataValue>)) -> (out: (usize, Vec<DataValue>))
    ensures
        out.deep_view() == r.deep_view(),
{
    (r.0, crate::deep::DeepClone::deep_clone(&r.1))
}

/// Evaluates the multi-key row comparison.
pub fn row_cmp_exec(
    keys: &Vec<crate::ast::OrderByClause>,
    cs: &Vec<(String, ColumnDef)>,
    a: &Vec<DataValue>,
    b: &Vec<DataValue>,
) -> (r: Cmp)
    ensures
        r == row_cmp(keys.deep_view(), cs.deep_view(), a.deep_view(), b.deep_view()),
{
    let ghost km = keys.deep_view();
    proof {
        assert(km.skip(0) =~= km);
    }
    let n = keys.len();
    let mut i: usize = 0;
    while i < n
        invariant
            n == keys.len(),
            km == keys.deep_view(),
            i <= n,
            row_cmp(km, cs.deep_view(), a.deep_view(), b.deep_view()) == row_cmp(
                km.skip(i as int),
                cs.deep_view(),
                a.deep_view(),
                b.deep_view(),
            ),
        decreases n - i,
    {
        proof {
            assert(km.skip(i as int)[0] == km[i as int]);
            assert(km.skip(i as int).skip(1) =~= km.skip(i as int + 1));
        }
        let k = &keys[i];
        let c: Cmp = match find_qcol(cs, k.column.table.as_ref(), k.column.name.as_str()) {
            Some(idx) => {
                if idx < a.len() && idx < b.len() {
                    let c0 = crate::value::dv_cmp(&a[idx], &b[idx]);
                    if matches!(k.direction, crate::ast::OrderDirection::Desc) {
                        match c0 {
                            Cmp::Lt => Cmp::Gt,
                            Cmp::Eq => Cmp::Eq,
                            Cmp::Gt => Cmp::Lt,
                        }
                    } else {
                        c0
                    }
                } else if idx < a.len() {
                    Cmp::Gt
                } else if idx < b.len() {
                    Cmp::Lt
                } else {
                    Cmp::Eq
                }
            },
            None => Cmp::Eq,
        };
        if !matches!(c, Cmp::Eq) {
            return c;
        }
        i = i + 1;
    }
    proof {
        assert(km.skip(n as int) =~= Seq::<crate::ast::OrderByM>::empty());
    }
    Cmp::Eq
}

/// `spec_insert` is insertion at the first strictly-greater position.
proof fn lemma_insert_at(
    keys: Seq<crate::ast::OrderByM>,
    cs: Seq<(Seq<char>, ColModel)>,
    x: (usize, Seq<Val>),
    l: Seq<(usize, Seq<Val>)>,
    p: int,
)
    requires
        0 <= p <= l.len(),
        forall|j: int| 0 <= j < p ==> !row_lt(keys, cs, x, l[j]),
        p < l.len() ==> row_lt(keys, cs, x, l[p]),
    ensures
        spec_insert(keys, cs, x, l) == l.insert(p, x),
    decreases l.len(),
{
    if l.len() == 0 {
        assert(spec_insert(keys, cs, x, l) =~= l.insert(0, x));
    } else if row_lt(keys, cs, x, l[0]) {
        assert(p == 0);
        assert(seq![x] + l =~= l.insert(0, x));
    } else {
        assert(p >= 1);
        assert forall|j: int| 0 <= j < p - 1 implies !row_lt(keys, cs, x, l.skip(1)[j]) by {
            assert(l.skip(1)[j] == l[j + 1]);
        }
        assert(p - 1 < l.skip(1).len() ==> row_lt(keys, cs, x, l.skip(1)[p - 1]));
        lemma_insert_at(keys, cs, x, l.skip(1), p - 1);
        assert(seq![l[0]] + l.skip(1).insert(p - 1, x) =~= l.insert(p, x));
    }
}

/// The stable multi-key sort of the result rows, used by ORDER BY.
pub fn sort_results(
    results: &Vec<(usize, Vec<DataValue>)>,
    order_by: &Vec<crate::ast::OrderByClause>,
    cs: &Vec<(String, ColumnDef)>,
) -> (out: Vec<(usize, Vec<DataValue>)>)
    ensures
        out.deep_view() == spec_sort(order_by.deep_view(), cs.deep_view(), results.deep_view()),
{
    let ghost km = order_by.deep_view();
    let ghost csm = cs.deep_view();
    let ghost rm = results.deep_view();
    let mut out: Vec<(usize, Vec<DataValue>)> = Vec::new();
    let n = results.len();
    let mut i: usize = 0;
    while i < n
        invariant
            n == results.len(),
            km == order_by.deep_view(),
            csm == cs.deep_view(),
            rm == results.deep_view(),
            i <= n,
            out.deep_view() == spec_sort(km, csm, rm.take(i as int)),
        decreases n - i,
    {
        let x = clone_row(&results[i]);
        let ghost xm = rm[i as int];
        proof {
            assert(x.deep_view() == xm);
            assert(rm.take(i as int + 1).drop_last() =~= rm.take(i as int));
            assert(rm.take(i as int + 1).last() == xm);
        }
        // find the first row strictly greater than x
        let m = out.len();
        let mut p: usize = 0;
        let mut found = false;
        while p < m && !found
            invariant
                m == out.len(),
                p <= m,
                km == order_by.deep_view(),
                csm == cs.deep_view(),
                x.deep_view() == xm,
                forall|j: int| 0 <= j < p ==> !row_lt(km, csm, xm, out.deep_view()[j]),
                found ==> p < m && row_lt(km, csm, xm, out.deep_view()[p as int]),
            decreases m - p + (if found {
                0int
            } else {
                1int
            }),
        {
            let c = row_cmp_exec(order_by, cs, &x.1, &out[p].1);
            if matches!(c, Cmp::Lt) {
                found = true;
            } else {
                p = p + 1;
            }
        }
        proof {
            if !found {
                assert(p == m);
            }
            lemma_insert_at(km, csm, xm, out.deep_view(), p as int);
        }
        let ghost prev = out.deep_view();
        out.insert(p, x);
        proof {
            assert(out.deep_view() =~= prev.insert(p as int, xm));
        }
        i = i + 1;
    }
    proof {
        assert(rm.take(n as int) =~= rm);
    }
    out
}

/// The model of one joined table: the join condition, the table's name,
/// schema, and rows.
pub struct JoinDataM {
    pub on: (CvpM, CvpM),
    pub name: Seq<char>,
    pub schema: Seq<ColModel>,
    pub rows: Seq<Seq<Val>>,
}

/// One joined table as the executor receives it.
pub struct JoinData {
    pub on: (ColumnValuePair, ColumnValuePair),
    pub name: String,
    pub schema: Vec<ColumnDef>,
    pub rows: Vec<Vec<DataValue>>,
}

impl DeepView for JoinData {
    type V = JoinDataM;

    open spec fn deep_view(&self) -> JoinDataM {
        JoinDataM {
            on: (self.on.0.deep_view(), self.on.1.deep_view()),
            name: self.name@,
            schema: self.schema.deep_view(),
            rows: self.rows.deep_view(),
        }
    }
}

/// One accumulated row joined against every row of one table: the
/// matching candidates extend it, in the table's row order.
pub open spec fn expand_row(
    cond: (CvpM, CvpM),
    r: Seq<Val>,
    lschema: Seq<ColModel>,
    jrows: Seq<Seq<Val>>,
    jschema: Seq<ColModel>,
    base: Seq<char>,
    jname: Seq<char>,
) -> Seq<Seq<Val>>
    decreases jrows.len(),
{
    if jrows.len() == 0 {
        Seq::empty()
    } else {
        expand_row(cond, r, lschema, jrows.drop_last(), jschema, base, jname) + (
        if spec_join_matches(cond, r, lschema, jrows.last(), jschema, base, jname) {
            seq![r + jrows.last()]
        } else {
            Seq::empty()
        })
    }
}

/// Every accumulated row joined against one table, keeping accumulation
/// order.
pub open spec fn expand_stage(
    cond: (CvpM, CvpM),
    acc: Seq<Seq<Val>>,
    lschema: Seq<ColModel>,
    jrows: Seq<Seq<Val>>,
    jschema: Seq<ColModel>,
    base: Seq<char>,
    jname: Seq<char>,
) -> Seq<Seq<Val>>
    decreases acc.len(),
{
    if acc.len() == 0 {
        Seq::empty()
    } else {
        expand_stage(cond, acc.drop_last(), lschema, jrows, jschema, base, jname) + expand_row(
            cond,
            acc.last(),
            lschema,
            jrows,
            jschema,
            base,
            jname,
        )
    }
}

/// The nested-loop join: stages applied in declaration order, the left
/// schema growing by each joined table's schema.
pub open spec fn expand_all(
    acc: Seq<Seq<Val>>,
    joins: Seq<JoinDataM>,
    lschema: Seq<ColModel>,
    base: Seq<char>,
) -> Seq<Seq<Val>>
    decreases joins.len(),
{
    if joins.len() == 0 {
        acc
    } else {
        expand_all(
            expand_stage(
                joins[0].on,
                acc,
                lschema,
                joins[0].rows,
                joins[0].schema,
                base,
                joins[0].name,
            ),
            joins.skip(1),
            lschema + joins[0].schema,
            base,
        )
    }
}

/// Expands one base row through every join stage.
pub fn expand_joins(
    row: &Vec<DataValue>,
    base_schema: &Vec<ColumnDef>,
    base_name: &str,
    joins: &Vec<JoinData>,
) -> (out: Vec<Vec<DataValue>>)
    ensures
        out.deep_view() == expand_all(
            seq![row.deep_view()],
            joins.deep_view(),
            base_schema.deep_view(),
            base_name@,
        ),
{
    let ghost jm = joins.deep_view();
    let ghost bs = base_schema.deep_view();
    let mut acc: Vec<Vec<DataValue>> = Vec::new();
    acc.push(crate::deep::DeepClone::deep_clone(row));
    proof {
        assert(acc.deep_view() =~= seq![row.deep_view()]);
        assert(jm.skip(0) =~= jm);
    }
    let mut lschema: Vec<ColumnDef> = crate::deep::DeepClone::deep_clone(base_schema);
    let nj = joins.len();
    let mut k: usize = 0;
    while k < nj
        invariant
            nj == joins.len(),
            jm == joins.deep_view(),
            bs == base_schema.deep_view(),
            k <= nj,
            expand_all(seq![row.deep_view()], jm, bs, base_name@) == expand_all(
                acc.deep_view(),
                jm.skip(k as int),
                lschema.deep_view(),
                base_name@,
            ),
        decreases nj - k,
    {
        proof {
            assert(jm.skip(k as int)[0] == jm[k as int]);
            assert(jm.skip(k as int).skip(1) =~= jm.skip(k as int + 1));
        }
        let j = &joins[k];
        let ghost cond = (j.on.0.deep_view(), j.on.1.deep_view());
        let ghost accm = acc.deep_view();
        let ghost lm = lschema.deep_view();
        let mut next: Vec<Vec<DataValue>> = Vec::new();
        let na = acc.len();
        let mut i: usize = 0;
        while i < na
            invariant
                na == acc.len(),
                acc.deep_view() == accm,
                jm == joins.deep_view(),
                k < nj,
                nj == joins.len(),
                cond == (jm[k as int].on),
                lschema.deep_view() == lm,
                i <= na,
                next.deep_view() == expand_stage(
                    cond,
                    accm.take(i as int),
                    lm,
                    jm[k as int].rows,
                    jm[k as int].schema,
                    base_name@,
                    jm[k as int].name,
                ),
            decreases na - i,
        {
            proof {
                assert(accm.take(i as int + 1).drop_last() =~= accm.take(i as int));
                assert(accm.take(i as int + 1).last() == accm[i as int]);
            }
            let nr = joins[k].rows.len();
            let mut q: usize = 0;
            while q < nr
                invariant
                    nr == joins[k as int].rows.len(),
                    na == acc.len(),
                    i < na,
                    acc.deep_view() == accm,
                    jm == joins.deep_view(),
                    k < nj,
                    nj == joins.len(),
                    cond == (jm[k as int].on),
                    lschema.deep_view() == lm,
                    q <= nr,
                    next.deep_view() == expand_stage(
                        cond,
                        accm.take(i as int),
                        lm,
                        jm[k as int].rows,
                        jm[k as int].schema,
                        base_name@,
                        jm[k as int].name,
                    ) + expand_row(
                        cond,
                        accm[i as int],
                        lm,
                        jm[k as int].rows.take(q as int),
                        jm[k as int].schema,
                        base_name@,
                        jm[k as int].name,
                    ),
                decreases nr - q,
            {
                proof {
                    assert(jm[k as int].rows.take(q as int + 1).drop_last() =~= jm[
                        k as int
                    ].rows.take(q as int));
                    assert(jm[k as int].rows.take(q as int + 1).last() == jm[k as int].rows[
                        q as int
                    ]);
                }
                let matches = evaluate_join_condition(
                    &joins[k].on,
                    &acc[i],
                    &lschema,
                    &joins[k].rows[q],
                    &joins[k].schema,
                    base_name,
                    joins[k].name.as_str(),
                );
                if matches {
                    let mut combined: Vec<DataValue> = crate::deep::DeepClone::deep_clone(&acc[i]);
                    let mut extra: Vec<DataValue> = crate::deep::DeepClone::deep_clone(
                        &joins[k].rows[q],
                    );
                    let ghost prev = next.deep_view();
                    combined.append(&mut extra);
                    proof {
                        assert(combined.deep_view() =~= accm[i as int] + jm[k as int].rows[
                            q as int
                        ]);
                    }
                    next.push(combined);
                    proof {
                        assert(next.deep_view() =~= prev.push(
                            accm[i as int] + jm[k as int].rows[q as int],
                        ));
                        assert(next.deep_view() =~= expand_stage(
                            cond,
                            accm.take(i as int),
                            lm,
                            jm[k as int].rows,
                            jm[k as int].schema,
                            base_name@,
                            jm[k as int].name,
                        ) + expand_row(
                            cond,
                            accm[i as int],
                            lm,
                            jm[k as int].rows.take(q as int + 1),
                            jm[k as int].schema,
                            base_name@,
                            jm[k as int].name,
                        ));
                    }
                } else {
                    proof {
                        assert(next.deep_view() =~= expand_stage(
                            cond,
                            accm.take(i as int),
                            lm,
                            jm[k as int].rows,
                            jm[k as int].schema,
                            base_name@,
                            jm[k as int].name,
                        ) + expand_row(
                            cond,
                            accm[i as int],
                            lm,
                            jm[k as int].rows.take(q as int + 1),
                            jm[k as int].schema,
                            base_name@,
                            jm[k as int].name,
                        ));
                    }
                }
                q = q + 1;
            }
            proof {
                assert(jm[k as int].rows.take(nr as int) =~= jm[k as int].rows);
            }
            i = i + 1;
        }
        proof {
            assert(accm.take(na as int) =~= accm);
        }
        acc = next;
        let mut extra_schema: Vec<ColumnDef> = crate::deep::DeepClone::deep_clone(&joins[k].schema);
        lschema.append(&mut extra_schema);
        proof {
            assert(lschema.deep_view() =~= lm + jm[k as int].schema);
        }
        k = k + 1;
    }
    proof {
        assert(jm.skip(nj as int) =~= Seq::<JoinDataM>::empty());
    }
    acc
}

/// The combined schema of a table: each column tagged with the table name.
pub open spec fn qschema_of(name: Seq<char>, schema: Seq<ColModel>) -> Seq<(Seq<char>, ColModel)> {
    schema.map_values(|c: ColModel| (name, c))
}

/// The combined schema contributed by the joined tables, in order.
pub open spec fn joins_cs(joins: Seq<JoinDataM>) -> Seq<(Seq<char>, ColModel)>
    decreases joins.len(),
{
    if joins.len() == 0 {
        Seq::empty()
    } else {
        joins_cs(joins.drop_last()) + qschema_of(joins.last().name, joins.last().schema)
    }
}

/// The full combined schema: base columns first, then each join's.
pub open spec fn full_cs(
    base: Seq<char>,
    base_schema: Seq<ColModel>,
    joins: Seq<JoinDataM>,
) -> Seq<(Seq<char>, ColModel)> {
    qschema_of(base, base_schema) + joins_cs(joins)
}

/// Builds the full combined schema.
pub fn build_cs(base_name: &str, base_schema: &Vec<ColumnDef>, joins: &Vec<JoinData>) -> (out: Vec<
    (String, ColumnDef),
>)
    ensures
        out.deep_view() == full_cs(base_name@, base_schema.deep_view(), joins.deep_view()),
{
    let ghost jm = joins.deep_view();
    let mut out: Vec<(String, ColumnDef)> = Vec::new();
    let nb = base_schema.len();
    let mut i: usize = 0;
    while i < nb
        invariant
            nb == base_schema.len(),
            i <= nb,
            out.deep_view() =~= qschema_of(base_name@, base_schema.deep_view().take(i as int)),
        decreases nb - i,
    {
        let ghost prev = out.deep_view();
        out.push((base_name.to_owned(), base_schema[i].clone()));
        proof {
            assert(out.deep_view() =~= prev.push(
                (base_name@, base_schema.deep_view()[i as int]),
            ));
            assert(out.deep_view() =~= qschema_of(
                base_name@,
                base_schema.deep_view().take(i as int + 1),
            ));
        }
        i = i + 1;
    }
    proof {
        assert(base_schema.deep_view().take(nb as int) =~= base_schema.deep_view());
        assert(joins_cs(jm.take(0)) =~= Seq::<(Seq<char>, ColModel)>::empty());
        assert(out.deep_view() =~= qschema_of(base_name@, base_schema.deep_view()) + joins_cs(
            jm.take(0),
        ));
    }
    let nj = joins.len();
    let mut k: usize = 0;
    while k < nj
        invariant
            nj == joins.len(),
            jm == joins.deep_view(),
            k <= nj,
            out.deep_view() == qschema_of(base_name@, base_schema.deep_view()) + joins_cs(
                jm.take(k as int),
            ),
        decreases nj - k,
    {
        let m = joins[k].schema.len();
        let mut q: usize = 0;
        while q < m
            invariant
                nj == joins.len(),
                jm == joins.deep_view(),
                k < nj,
                m == joins[k as int].schema.len(),
                q <= m,
                out.deep_view() == qschema_of(base_name@, base_schema.deep_view()) + joins_cs(
                    jm.take(k as int),
                ) + qschema_of(jm[k as int].name, jm[k as int].schema.take(q as int)),
            decreases m - q,
        {
            let ghost prev = out.deep_view();
            out.push((joins[k].name.clone(), joins[k].schema[q].clone()));
            proof {
                assert(out.deep_view() =~= prev.push(
                    (jm[k as int].name, jm[k as int].schema[q as int]),
                ));
                assert(out.deep_view() =~= qschema_of(base_name@, base_schema.deep_view())
                    + joins_cs(jm.take(k as int)) + qschema_of(
                    jm[k as int].name,
                    jm[k as int].schema.take(q as int + 1),
                ));
            }
            q = q + 1;
        }
        proof {
            assert(jm[k as int].schema.take(m as int) =~= jm[k as int].schema);
            assert(jm.take(k as int + 1).drop_last() =~= jm.take(k as int));
            assert(jm.take(k as int + 1).last() == jm[k as int]);
            assert(out.deep_view() =~= qschema_of(base_name@, base_schema.deep_view()) + joins_cs(
                jm.take(k as int + 1),
            ));
        }
        k = k + 1;
    }
    proof {
        assert(jm.take(nj as int) =~= jm);
    }
    out
}

/// Whether a combined row passes the WHERE tree (no tree passes all).
pub open spec fn keep_where(w: Option<WhereM>, cs: Seq<(Seq<char>, ColModel)>) -> spec_fn(
    Seq<Val>,
) -> bool {
    |r: Seq<Val>|
        match w {
            Some(x) => spec_eval_where(x, r, cs),
            None => true,
        }
}

/// The combined rows that pass WHERE, each tagged with its base row index.
pub open spec fn tag_filter(
    crows: Seq<Seq<Val>>,
    i: usize,
    w: Option<WhereM>,
    cs: Seq<(Seq<char>, ColModel)>,
) -> Seq<(usize, Seq<Val>)>
    decreases crows.len(),
{
    if crows.len() == 0 {
        Seq::empty()
    } else {
        tag_filter(crows.drop_last(), i, w, cs) + (if keep_where(w, cs)(crows.last()) {
            seq![(i, crows.last())]
        } else {
            Seq::empty()
        })
    }
}

/// The unsorted result rows of a SELECT: every base row in order, joined,
/// filtered, and tagged with its index.
pub open spec fn gather_rows(
    rows: Seq<Seq<Val>>,
    base: Seq<char>,
    base_schema: Seq<ColModel>,
    joins: Seq<JoinDataM>,
    w: Option<WhereM>,
    cs: Seq<(Seq<char>, ColModel)>,
) -> Seq<(usize, Seq<Val>)>
    decreases rows.len(),
{
    if rows.len() == 0 {
        Seq::empty()
    } else {
        gather_rows(rows.drop_last(), base, base_schema, joins, w, cs) + tag_filter(
            expand_all(seq![rows.last()], joins, base_schema, base),
            (rows.len() - 1) as usize,
            w,
            cs,
        )
    }
}

/// Gathers the unsorted result rows of a SELECT.
pub fn gather_results(
    rows: &Vec<Vec<DataValue>>,
    base_name: &str,
    base_schema: &Vec<ColumnDef>,
    joins: &Vec<JoinData>,
    where_clause: &Option<WhereType>,
    cs: &Vec<(String, ColumnDef)>,
) -> (out: Vec<(usize, Vec<DataValue>)>)
    ensures
        out.deep_view() == gather_rows(
            rows.deep_view(),
            base_name@,
            base_schema.deep_view(),
            joins.deep_view(),
            where_clause.deep_view(),
            cs.deep_view(),
        ),
{
    let ghost rm = rows.deep_view();
    let ghost jm = joins.deep_view();
    let ghost wm = where_clause.deep_view();
    let ghost csm = cs.deep_view();
    let mut out: Vec<(usize, Vec<DataValue>)> = Vec::new();
    let n = rows.len();
    let mut i: usize = 0;
    while i < n
        invariant
            n == rows.len(),
            rm == rows.deep_view(),
            jm == joins.deep_view(),
            wm == where_clause.deep_view(),
            csm == cs.deep_view(),
            i <= n,
            out.deep_view() == gather_rows(
                rm.take(i as int),
                base_name@,
                base_schema.deep_view(),
                jm,
                wm,
                csm,
            ),
        decreases n - i,
    {
        proof {
            assert(rm.take(i as int + 1).drop_last() =~= rm.take(i as int));
            assert(rm.take(i as int + 1).last() == rm[i as int]);
        }
        let expanded = expand_joins(&rows[i], base_schema, base_name, joins);
        let ghost em = expanded.deep_view();
        let m = expanded.len();
        let mut q: usize = 0;
        while q < m
            invariant
                m == expanded.len(),
                em == expanded.deep_view(),
                i < n,
                n == rows.len(),
                rm == rows.deep_view(),
                jm == joins.deep_view(),
                wm == where_clause.deep_view(),
                csm == cs.deep_view(),
                q <= m,
                out.deep_view() == gather_rows(
                    rm.take(i as int),
                    base_name@,
                    base_schema.deep_view(),
                    jm,
                    wm,
                    csm,
                ) + tag_filter(em.take(q as int), i, wm, csm),
            decreases m - q,
        {
            proof {
                assert(em.take(q as int + 1).drop_last() =~= em.take(q as int));
                assert(em.take(q as int + 1).last() == em[q as int]);
            }
            let keep = match where_clause {
                Some(w) => evaluate_where_clause(w, &expanded[q], cs),
                None => true,
            };
            if keep {
                let ghost prev = out.deep_view();
                out.push((i, crate::deep::DeepClone::deep_clone(&expanded[q])));
                proof {
                    assert(out.deep_view() =~= prev.push((i, em[q as int])));
                }
            }
            q = q + 1;
        }
        proof {
            assert(em.take(m as int) =~= em);
        }
        i = i + 1;
    }
    proof {
        assert(rm.take(n as int) =~= rm);
    }
    out
}

/// One row projected to the requested columns: unresolved columns are
/// silently omitted.
pub open spec fn project_row(
    r: Seq<Val>,
    cols: Seq<crate::ast::ColumnM>,
    cs: Seq<(Seq<char>, ColModel)>,
) -> Seq<Val>
    decreases cols.len(),
{
    if cols.len() == 0 {
        Seq::empty()
    } else {
        project_row(r, cols.drop_last(), cs) + (match qcol_pos(
            cs,
            cols.last().table,
            cols.last().name,
        ) {
            Some(i) => if i < r.len() {
                seq![r[i]]
            } else {
                Seq::empty()
            },
            None => Seq::empty(),
        })
    }
}

/// Every result row projected: the whole combined row under a wildcard,
/// else the requested columns.
pub open spec fn project_results_spec(
    rows: Seq<(usize, Seq<Val>)>,
    cols: Seq<crate::ast::ColumnM>,
    cs: Seq<(Seq<char>, ColModel)>,
    star: bool,
) -> Seq<(usize, Seq<Val>)> {
    rows.map_values(
        |e: (usize, Seq<Val>)|
            (
                e.0,
                if star {
                    e.1
                } else {
                    project_row(e.1, cols, cs)
                },
            ),
    )
}

/// Projects every result row to the requested columns.
pub fn project_results(
    rows: Vec<(usize, Vec<DataValue>)>,
    columns: &Vec<crate::ast::Column>,
    cs: &Vec<(String, ColumnDef)>,
) -> (out: Vec<(usize, Vec<DataValue>)>)
    ensures
        out.deep_view() == project_results_spec(
            rows.deep_view(),
            columns.deep_view(),
            cs.deep_view(),
            crate::result::any_star(columns.deep_view()),
        ),
{
    proof {
        reveal_strlit("*");
    }
    let ghost rm = rows.deep_view();
    let ghost cm = columns.deep_view();
    let ghost csm = cs.deep_view();
    let nc = columns.len();
    let mut star = false;
    let mut s: usize = 0;
    while s < nc
        invariant
            nc == columns.len(),
            cm == columns.deep_view(),
            s <= nc,
            star == exists|j: int| 0 <= j < s && crate::result::is_star(#[trigger] cm[j]),
        decreases nc - s,
    {
        if str_eq(columns[s].name.as_str(), "*") {
            proof {
                assert(crate::result::is_star(cm[s as int]));
            }
            star = true;
        }
        s = s + 1;
    }
    proof {
        assert(star == crate::result::any_star(cm));
    }
    let mut out: Vec<(usize, Vec<DataValue>)> = Vec::new();
    let n = rows.len();
    let mut i: usize = 0;
    while i < n
        invariant
            n == rows.len(),
            rows.deep_view() == rm,
            cm == columns.deep_view(),
            csm == cs.deep_view(),
            star == crate::result::any_star(cm),
            nc == columns.len(),
            i <= n,
            out.deep_view().len() == i,
            forall|j: int|
                0 <= j < i ==> out.deep_view()[j] == (
                rm[j].0,
                if star {
                    rm[j].1
                } else {
                    project_row(rm[j].1, cm, csm)
                },
            ),
        decreases n - i,
    {
        let ghost prev = out.deep_view();
        if star {
            let projected = crate::deep::DeepClone::deep_clone(&rows[i].1);
            out.push((rows[i].0, projected));
            proof {
                assert(out.deep_view() =~= prev.push((rm[i as int].0, rm[i as int].1)));
            }
        } else {
            let mut projected: Vec<DataValue> = Vec::new();
            let mut c: usize = 0;
            while c < nc
                invariant
                    nc == columns.len(),
                    cm == columns.deep_view(),
                    csm == cs.deep_view(),
                    n == rows.len(),
                    i < n,
                    rows.deep_view() == rm,
                    c <= nc,
                    projected.deep_view() == project_row(rm[i as int].1, cm.take(c as int), csm),
                decreases nc - c,
            {
                proof {
                    assert(cm.take(c as int + 1).drop_last() =~= cm.take(c as int));
                    assert(cm.take(c as int + 1).last() == cm[c as int]);
                }
                match find_qcol(cs, columns[c].table.as_ref(), columns[c].name.as_str()) {
                    Some(idx) => {
                        if idx < rows[i].1.len() {
                            let ghost pprev = projected.deep_view();
                            projected.push(crate::deep::DeepClone::deep_clone(&rows[i].1[idx]));
                            proof {
                                assert(projected.deep_view() =~= pprev.push(
                                    rm[i as int].1[idx as int],
                                ));
                            }
                        }
                    },
                    None => {},
                }
                c = c + 1;
            }
            proof {
                assert(cm.take(nc as int) =~= cm);
            }
            out.push((rows[i].0, projected));
            proof {
                assert(out.deep_view() =~= prev.push(
                    (rm[i as int].0, project_row(rm[i as int].1, cm, csm)),
                ));
            }
        }
        i = i + 1;
    }
    proof {
        assert(out.deep_view() =~= project_results_spec(rm, cm, csm, star));
    }
    out
}

} // verus!
