//! Results handed back by the executor: projected rows with their column
//! descriptions, and the per-statement result tags.

use vstd::prelude::*;
use crate::ast::ColumnM;
use crate::schema::{col_pos, find_col};
use crate::value::{ColModel, ColumnDef, DataValue, Val};
use crate::ast::Column;

verus! {

/// The model of a projected column description.
pub struct ColInfoM {
    pub name: Seq<char>,
    pub table: Option<Seq<char>>,
}

/// Description of one projected column.
#[derive(PartialEq, Eq, Debug)]
pub struct ColumnInfo {
    pub name: String,
    pub table: Option<String>,
}

impl DeepView for ColumnInfo {
    type V = ColInfoM;

    open spec fn deep_view(&self) -> ColInfoM {
        ColInfoM { name: self.name@, table: self.table.deep_view() }
    }
}

/// Whether a projected column is the wildcard.
pub open spec fn is_star(c: ColumnM) -> bool {
    c.name == "*"@
}

/// Whether some projected column is the wildcard.
pub open spec fn any_star(cs: Seq<ColumnM>) -> bool {
    exists|i: int| 0 <= i < cs.len() && is_star(cs[i])
}

/// The column descriptions a projection produces: all schema columns under
/// a wildcard, else the requested columns that resolve, unresolved ones
/// silently omitted.
pub open spec fn proj_infos(schema: Seq<ColModel>, cs: Seq<ColumnM>) -> Seq<ColInfoM>
    decreases cs.len(),
{
    if any_star(cs) {
        schema.map_values(|c: ColModel| ColInfoM { name: c.name, table: None })
    } else if cs.len() == 0 {
        Seq::empty()
    } else {
        proj_infos(schema, cs.drop_last()) + (match col_pos(schema, cs.last().name) {
            Some(_) => seq![ColInfoM { name: cs.last().name, table: cs.last().table }],
            None => Seq::empty(),
        })
    }
}

impl ColumnInfo {
    /// Builds the column descriptions for a projection over one schema.
    pub fn from_schema_and_columns(
        schema: &Vec<ColumnDef>,
        columns: &Vec<Column>,
        _table_name: &str,
    ) -> (r: Vec<ColumnInfo>)
        ensures
            r.deep_view() == proj_infos(schema.deep_view(), columns.deep_view()),
    {
        proof {
            reveal_strlit("*");
        }
        let n = columns.len();
        let mut star = false;
        let mut i: usize = 0;
        while i < n
            invariant
                n == columns.len(),
                i <= n,
                star == exists|j: int|
                    0 <= j < i && is_star(#[trigger] columns.deep_view()[j]),
            decreases n - i,
        {
            if crate::value::str_eq(columns[i].name.as_str(), "*") {
                proof {
                    assert(is_star(columns.deep_view()[i as int]));
                }
                star = true;
            }
            i = i + 1;
        }
        proof {
            assert(star == any_star(columns.deep_view()));
        }
        let mut out: Vec<ColumnInfo> = Vec::new();
        if star {
            let m = schema.len();
            let mut k: usize = 0;
            while k < m
                invariant
                    m == schema.len(),
                    k <= m,
                    out.deep_view().len() == k,
                    forall|j: int|
                        0 <= j < k ==> out.deep_view()[j] == (ColInfoM {
                            name: schema.deep_view()[j].name,
                            table: None,
                        }),
                decreases m - k,
            {
                let ghost prev = out.deep_view();
                out.push(ColumnInfo { name: schema[k].name.clone(), table: None });
                proof {
                    assert(out.deep_view() =~= prev.push(
                        ColInfoM { name: schema.deep_view()[k as int].name, table: None },
                    ));
                }
                k = k + 1;
            }
            proof {
                assert(out.deep_view() =~= proj_infos(schema.deep_view(), columns.deep_view()));
            }
            out
        } else {
            let mut k: usize = 0;
            while k < n
                invariant
                    n == columns.len(),
                    !any_star(columns.deep_view()),
                    k <= n,
                    out.deep_view() == proj_infos(
                        schema.deep_view(),
                        columns.deep_view().take(k as int),
                    ),
                decreases n - k,
            {
                proof {
                    let cs = columns.deep_view();
                    assert(cs.take(k as int + 1).drop_last() =~= cs.take(k as int));
                    assert(cs.take(k as int + 1).last() == cs[k as int]);
                    assert(!any_star(cs.take(k as int + 1)));
                }
                match find_col(schema, columns[k].name.as_str()) {
                    Some(_) => {
                        let t = match &columns[k].table {
                            Some(s) => Some(s.clone()),
                            None => None,
                        };
                        out.push(ColumnInfo { name: columns[k].name.clone(), table: t });
                        proof {
                            assert(out.deep_view() =~= proj_infos(
                                schema.deep_view(),
                                columns.deep_view().take(k as int + 1),
                            ));
                        }
                    },
                    None => {
                        proof {
                            assert(out.deep_view() =~= proj_infos(
                                schema.deep_view(),
                                columns.deep_view().take(k as int + 1),
                            ));
                        }
                    },
                }
                k = k + 1;
            }
            proof {
                assert(columns.deep_view().take(n as int) =~= columns.deep_view());
            }
            out
        }
    }
}

/// The model of a query result.
pub struct QueryResultM {
    pub rows: Seq<(usize, Seq<Val>)>,
    pub columns: Seq<ColInfoM>,
}

/// Projected rows, each carrying the index of the base row it came from,
/// with the projected column descriptions.
#[derive(PartialEq, Eq, Debug)]
pub struct QueryResult {
    pub rows: Vec<(usize, Vec<DataValue>)>,
    pub columns: Vec<ColumnInfo>,
}

impl DeepView for QueryResult {
    type V = QueryResultM;

    open spec fn deep_view(&self) -> QueryResultM {
        QueryResultM { rows: self.rows.deep_view(), columns: self.columns.deep_view() }
    }
}

impl QueryResult {
    /// Builds a result from rows and column descriptions.
    pub fn with_columns(rows: Vec<(usize, Vec<DataValue>)>, columns: Vec<ColumnInfo>) -> (r: Self)
        ensures
            r.deep_view() == (QueryResultM {
                rows: rows.deep_view(),
                columns: columns.deep_view(),
            }),
    {
        QueryResult { rows, columns }
    }

    /// Number of result rows.
    pub fn len(&self) -> (n: usize)
        ensures
            n == self.deep_view().rows.len(),
    {
        self.rows.len()
    }
}

/// The model of a statement result.
pub enum ResultM {
    Select(QueryResultM),
    Insert(usize),
    Update(usize),
    Delete(usize),
    CreateTable,
    DropTable,
    AlterTable,
    CreateIndex,
    DropIndex,
}

/// What each successfully executed statement hands back.
#[derive(PartialEq, Eq, Debug)]
pub enum ReefDBResult {
    Select(QueryResult),
    Insert(usize),
    Update(usize),
    Delete(usize),
    CreateTable,
    DropTable,
    AlterTable,
    CreateIndex,
    DropIndex,
}

impl DeepView for ReefDBResult {
    type V = ResultM;

    open spec fn deep_view(&self) -> ResultM {
        match self {
            ReefDBResult::Select(q) => ResultM::Select(q.deep_view()),
            ReefDBResult::Insert(n) => ResultM::Insert(*n),
            ReefDBResult::Update(n) => ResultM::Update(*n),
            ReefDBResult::Delete(n) => ResultM::Delete(*n),
            ReefDBResult::CreateTable => ResultM::CreateTable,
            ReefDBResult::DropTable => ResultM::DropTable,
            ReefDBResult::AlterTable => ResultM::AlterTable,
            ReefDBResult::CreateIndex => ResultM::CreateIndex,
            ReefDBResult::DropIndex => ResultM::DropIndex,
        }
    }
}

} // verus!
