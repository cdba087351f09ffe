//! The non-transactional database front: a table state plus the full-text
//! index, executing statements directly. Transactional execution goes
//! through the transaction manager instead.

use vstd::prelude::*;
use crate::ast::{
    FTSClause, JoinClause, SelectStatement, Statement, StatementM, WhereType,
};
use crate::deep::DeepClone;
use crate::error::{ErrM, ReefDBError};
use crate::executor::{
    build_cs, full_cs, gather_rows, gather_results, project_results, project_results_spec,
    sort_results, spec_sort, JoinData, JoinDataM,
};
use crate::fts::{DocM, FtsIndex};
use crate::result::{any_star, proj_infos, ColumnInfo, QueryResult, ReefDBResult, ResultM};
use crate::storage::{TableModel, TableStorage};
use crate::transaction::{IsolationLevel, Transaction, TransactionState};
use crate::value::{ColModel, DataType, DataValue, Val};

verus! {

/// The documents one inserted row contributes: one per `TSVector` column
/// holding text, keyed by the row's integer primary key.
pub open spec fn row_docs(table: Seq<char>, schema: Seq<ColModel>, row: Seq<Val>) -> Seq<DocM>
    decreases schema.len(),
{
    if schema.len() == 0 {
        Seq::empty()
    } else {
        row_docs(table, schema.drop_last(), row) + col_doc(
            table,
            schema.last(),
            row,
            schema.len() - 1,
        )
    }
}

/// The document a single column contributes, if any.
pub open spec fn col_doc(table: Seq<char>, col: ColModel, row: Seq<Val>, j: int) -> Seq<DocM> {
    if col.data_type == DataType::TSVector && 0 <= j < row.len() && row.len() > 0 {
        match (row[0], row[j]) {
            (Val::Int(id), Val::Text(t)) => seq![
                DocM { table, column: col.name, row_id: id as i64, text: t },
            ],
            _ => Seq::empty(),
        }
    } else {
        Seq::empty()
    }
}

/// The rows kept by a full-text SELECT: those whose integer primary key is
/// among the matching ids, tagged with their index.
pub open spec fn fts_keep_rows(rows: Seq<Seq<Val>>, ids: Seq<i64>) -> Seq<(usize, Seq<Val>)>
    decreases rows.len(),
{
    if rows.len() == 0 {
        Seq::empty()
    } else {
        fts_keep_rows(rows.drop_last(), ids) + ({
            let r = rows.last();
            if r.len() > 0 && (match r[0] {
                Val::Int(id) => ids.contains(id as i64),
                _ => false,
            }) {
                seq![(((rows.len() - 1) as usize), r)]
            } else {
                Seq::empty()
            }
        })
    }
}

fn vec_has_i64(v: &Vec<i64>, x: i64) -> (r: bool)
    ensures
        r == v@.contains(x),
{
    let n = v.len();
    let mut i: usize = 0;
    while i < n
        invariant
            n == v.len(),
            i <= n,
            forall|j: int| 0 <= j < i ==> v@[j] != x,
        decreases n - i,
    {
        if v[i] == x {
            return true;
        }
        i = i + 1;
    }
    false
}

/// The database: the authoritative table state and the full-text index.
pub struct ReefDB {
    pub tables: TableStorage,
    pub fts: FtsIndex,
}

/// The in-memory database.
pub type InMemoryReefDB = ReefDB;

impl ReefDB {
    /// An empty in-memory database.
    pub fn create_in_memory() -> (r: Result<Self, ReefDBError>)
        ensures
            match r {
                Ok(db) => db.tables@ == Map::<Seq<char>, TableModel>::empty() && db.fts@
                    == Seq::<DocM>::empty(),
                Err(_) => false,
            },
    {
        Ok(ReefDB { tables: TableStorage::new(), fts: FtsIndex::new() })
    }

    /// Executes one statement directly against the database state.
    ///
    /// CREATE makes the table; INSERT appends the row and indexes its
    /// `TSVector` columns; SELECT reads, with a full-text WHERE answered
    /// by the index; DELETE, DROP, ALTER and the index statements work on
    /// the table state; UPDATE is only available through the transaction
    /// manager.
    pub fn execute_statement(&mut self, stmt: Statement) -> (r: Result<ReefDBResult, ReefDBError>)
        ensures
            match stmt.deep_view() {
                StatementM::Create(c) => {
                    &&& r matches Ok(res) && res.deep_view() == ResultM::CreateTable
                    &&& final(self).tables@ == old(self).tables@.insert(
                        c.table,
                        TableModel { schema: c.columns, rows: Seq::empty() },
                    )
                    &&& final(self).fts@ == old(self).fts@
                },
                StatementM::Insert(ins) => {
                    if old(self).tables@.contains_key(ins.table) {
                        let t = old(self).tables@[ins.table];
                        &&& r matches Ok(res) && res.deep_view() == ResultM::Insert(1)
                        &&& final(self).tables@ == old(self).tables@.insert(
                            ins.table,
                            TableModel { schema: t.schema, rows: t.rows.push(ins.values) },
                        )
                        &&& final(self).fts@ == old(self).fts@ + row_docs(
                            ins.table,
                            t.schema,
                            ins.values,
                        )
                    } else {
                        &&& r matches Err(e) && e.deep_view() == ErrM::TableNotFound(ins.table)
                        &&& final(self).tables@ == old(self).tables@
                        &&& final(self).fts@ == old(self).fts@
                    }
                },
                StatementM::Select(sel) => {
                    &&& final(self).tables@ == old(self).tables@
                    &&& final(self).fts@ == old(self).fts@
                    &&& if !old(self).tables@.contains_key(sel.table.name) {
                        r matches Err(e) && e.deep_view() == ErrM::TableNotFound(sel.table.name)
                    } else {
                        let t = old(self).tables@[sel.table.name];
                        match sel.where_clause {
                            Some(crate::ast::WhereM::Fts(f)) => {
                                let ids = old(self).fts@.filter(
                                    crate::fts::doc_pred(
                                        sel.table.name,
                                        f.column.name,
                                        f.query.text,
                                    ),
                                ).map_values(|d: crate::fts::DocM| d.row_id);
                                let cs = full_cs(sel.table.name, t.schema, Seq::empty());
                                r matches Ok(res) && res.deep_view() matches ResultM::Select(q)
                                    && q.rows == project_results_spec(
                                    spec_sort(sel.order_by, cs, fts_keep_rows(t.rows, ids)),
                                    sel.columns,
                                    cs,
                                    any_star(sel.columns),
                                ) && q.columns == proj_infos(t.schema, sel.columns)
                            },
                            _ => {
                                if crate::transaction_manager::first_missing(
                                    old(self).tables@,
                                    sel.joins,
                                ) is Some {
                                    r matches Err(e) && e.deep_view() == ErrM::TableNotFound(
                                        crate::transaction_manager::first_missing(
                                            old(self).tables@,
                                            sel.joins,
                                        ).unwrap(),
                                    )
                                } else {
                                    let jds = crate::transaction_manager::joins_data(
                                        old(self).tables@,
                                        sel.joins,
                                    );
                                    let cs = full_cs(sel.table.name, t.schema, jds);
                                    r matches Ok(res) && res.deep_view() matches ResultM::Select(
                                        q,
                                    ) && q.rows == project_results_spec(
                                        spec_sort(
                                            sel.order_by,
                                            cs,
                                            gather_rows(
                                                t.rows,
                                                sel.table.name,
                                                t.schema,
                                                jds,
                                                sel.where_clause,
                                                cs,
                                            ),
                                        ),
                                        sel.columns,
                                        cs,
                                        any_star(sel.columns),
                                    ) && q.columns == proj_infos(t.schema, sel.columns)
                                }
                            },
                        }
                    }
                },
                StatementM::Update(_) => {
                    &&& r matches Err(e) && (e.deep_view() matches ErrM::InvalidOperation(_))
                    &&& final(self).tables@ == old(self).tables@
                    &&& final(self).fts@ == old(self).fts@
                },
                _ => {
                    &&& final(self).fts@ == old(self).fts@
                    &&& match crate::transaction::wc_result(old(self).tables@, stmt.deep_view()) {
                        Ok((m2, res)) => r matches Ok(res2) && res2.deep_view() == res && final(self).tables@ == m2,
                        Err(e) => (r matches Err(e2) && e2.deep_view() == e) && final(self).tables@ == old(self).tables@,
                    }
                },
            },
    {
        match stmt {
            Statement::Create(c) => {
                let mut tmp = take_tables(&mut self.tables);
                let mut tx = Transaction::create(0, IsolationLevel::ReadCommitted, tmp);
                let r = tx.execute_statement(Statement::Create(c));
                self.tables = tx.tables;
                r
            },
            Statement::Insert(crate::ast::InsertStatement::IntoTable(name, values)) => {
                let ghost tablem = name@;
                match self.tables.take_table(name.as_str()) {
                    Some(mut t) => {
                        let ghost tm = old(self).tables@[name@];
                        let ghost vm = values.deep_view();
                        proof {
                            assert(row_docs(tablem, tm.schema.take(0), vm)
                                =~= Seq::<DocM>::empty());
                            assert(old(self).fts@ + Seq::<DocM>::empty() =~= old(self).fts@);
                        }
                        // index the TSVector columns of the new row
                        let ns = t.schema.len();
                        let mut j: usize = 0;
                        while j < ns
                            invariant
                                ns == t.schema.len(),
                                t.schema.deep_view() == tm.schema,
                                values.deep_view() == vm,
                                j <= ns,
                                name@ == tablem,
                                old(self).tables@.contains_key(tablem),
                                tm == old(self).tables@[tablem],
                                self.tables@ == old(self).tables@.remove(tablem),
                                self.fts@ == old(self).fts@ + row_docs(
                                    tablem,
                                    tm.schema.take(j as int),
                                    vm,
                                ),
                            decreases ns - j,
                        {
                            proof {
                                assert(tm.schema.take(j as int + 1).drop_last() =~= tm.schema.take(
                                    j as int,
                                ));
                                assert(tm.schema.take(j as int + 1).last() == tm.schema[j as int]);
                            }
                            let is_ts = matches!(t.schema[j].data_type, DataType::TSVector);
                            if is_ts && j < values.len() && values.len() > 0 {
                                let id_ok: Option<i64> = match &values[0] {
                                    DataValue::Integer(n) => Some(*n),
                                    _ => None,
                                };
                                match (id_ok, &values[j]) {
                                    (Some(id), DataValue::Text(text)) => {
                                        let ghost pre_fts = self.fts@;
                                        let ghost dm = crate::fts::DocM {
                                            table: tablem,
                                            column: tm.schema[j as int].name,
                                            row_id: id,
                                            text: text@,
                                        };
                                        self.fts.add_document(
                                            name.clone(),
                                            t.schema[j].name.clone(),
                                            id,
                                            text.clone(),
                                        );
                                        proof {
                                            assert(self.fts@ == pre_fts.push(dm));
                                            assert(col_doc(
                                                tablem,
                                                tm.schema[j as int],
                                                vm,
                                                j as int,
                                            ) =~= seq![dm]);
                                            assert(row_docs(
                                                tablem,
                                                tm.schema.take(j as int + 1),
                                                vm,
                                            ) =~= row_docs(tablem, tm.schema.take(j as int), vm)
                                                + seq![dm]);
                                            assert(self.fts@ =~= old(self).fts@ + row_docs(
                                                tablem,
                                                tm.schema.take(j as int + 1),
                                                vm,
                                            ));
                                        }
                                    },
                                    _ => {
                                        proof {
                                            assert(self.fts@ =~= old(self).fts@ + row_docs(
                                                tablem,
                                                tm.schema.take(j as int + 1),
                                                vm,
                                            ));
                                        }
                                    },
                                }
                            } else {
                                proof {
                                    assert(self.fts@ =~= old(self).fts@ + row_docs(
                                        tablem,
                                        tm.schema.take(j as int + 1),
                                        vm,
                                    ));
                                }
                            }
                            j = j + 1;
                        }
                        proof {
                            assert(tm.schema.take(ns as int) =~= tm.schema);
                        }
                        t.rows.push(values);
                        proof {
                            assert(t.rows.deep_view() =~= tm.rows.push(vm));
                        }
                        self.tables.put_table(name, t);
                        proof {
                            assert(old(self).tables@.remove(tablem).insert(
                                tablem,
                                TableModel { schema: tm.schema, rows: tm.rows.push(vm) },
                            ) =~= old(self).tables@.insert(
                                tablem,
                                TableModel { schema: tm.schema, rows: tm.rows.push(vm) },
                            ));
                        }
                        Ok(ReefDBResult::Insert(1))
                    },
                    None => Err(ReefDBError::TableNotFound(name)),
                }
            },
            Statement::Select(SelectStatement::FromTable(
                table_ref,
                columns,
                where_clause,
                joins,
                order_by,
            )) => {
                let ghost selm = crate::ast::SelectM {
                    table: table_ref.deep_view(),
                    columns: columns.deep_view(),
                    where_clause: where_clause.deep_view(),
                    joins: joins.deep_view(),
                    order_by: order_by.deep_view(),
                };
                proof {
                    assert(stmt.deep_view() == StatementM::Select(selm));
                }
                let r = self.run_select(table_ref, columns, where_clause, joins, order_by);
                return r;
            },
            other => {
                let ghost sm = other.deep_view();
                let is_update = matches!(other, Statement::Update(_));
                let tmp = take_tables(&mut self.tables);
                let ghost pre = tmp@;
                let mut tx = Transaction::create(0, IsolationLevel::ReadCommitted, tmp);
                let r = tx.execute_statement(other);
                proof {
                    if !(sm is Update) {
                        let rm: Result<ResultM, ErrM> = match r {
                            Ok(ref res) => Ok(res.deep_view()),
                            Err(ref e) => Err(e.deep_view()),
                        };
                        crate::transaction::lemma_wc_result(
                            crate::transaction::TransactionM {
                                id: 0,
                                isolation_level: IsolationLevel::ReadCommitted,
                                state: TransactionState::Active,
                                tables: pre,
                                snapshot: pre,
                            },
                            tx.deep_view(),
                            sm,
                            rm,
                        );
                    }
                }
                self.tables = tx.tables;
                r
            },
        }
    }

    /// Runs a SELECT directly against the table state: a full-text WHERE
    /// keeps the rows whose primary key the index answers; any other WHERE
    /// goes through the generic evaluator with joins; the rows are then
    /// sorted and projected.
    fn run_select(
        &mut self,
        table_ref: crate::ast::TableReference,
        columns: Vec<crate::ast::Column>,
        where_clause: Option<WhereType>,
        joins: Vec<JoinClause>,
        order_by: Vec<crate::ast::OrderByClause>,
    ) -> (r: Result<ReefDBResult, ReefDBError>)
        ensures
            final(self).tables@ == old(self).tables@,
            final(self).fts@ == old(self).fts@,
            ({
                let sel = crate::ast::SelectM {
                    table: table_ref.deep_view(),
                    columns: columns.deep_view(),
                    where_clause: where_clause.deep_view(),
                    joins: joins.deep_view(),
                    order_by: order_by.deep_view(),
                };
                if !old(self).tables@.contains_key(sel.table.name) {
                    r matches Err(e) && e.deep_view() == ErrM::TableNotFound(sel.table.name)
                } else {
                    let t = old(self).tables@[sel.table.name];
                    match sel.where_clause {
                        Some(crate::ast::WhereM::Fts(f)) => {
                            let ids = old(self).fts@.filter(
                                crate::fts::doc_pred(sel.table.name, f.column.name, f.query.text),
                            ).map_values(|d: crate::fts::DocM| d.row_id);
                            let cs = full_cs(sel.table.name, t.schema, Seq::empty());
                            r matches Ok(res) && res.deep_view() matches ResultM::Select(q)
                                && q.rows == project_results_spec(
                                spec_sort(sel.order_by, cs, fts_keep_rows(t.rows, ids)),
                                sel.columns,
                                cs,
                                any_star(sel.columns),
                            ) && q.columns == proj_infos(t.schema, sel.columns)
                        },
                        _ => {
                            if crate::transaction_manager::first_missing(
                                old(self).tables@,
                                sel.joins,
                            ) is Some {
                                r matches Err(e) && e.deep_view() == ErrM::TableNotFound(
                                    crate::transaction_manager::first_missing(
                                        old(self).tables@,
                                        sel.joins,
                                    ).unwrap(),
                                )
                            } else {
                                let jds = crate::transaction_manager::joins_data(
                                    old(self).tables@,
                                    sel.joins,
                                );
                                let cs = full_cs(sel.table.name, t.schema, jds);
                                r matches Ok(res) && res.deep_view() matches ResultM::Select(q)
                                    && q.rows == project_results_spec(
                                    spec_sort(
                                        sel.order_by,
                                        cs,
                                        gather_rows(
                                            t.rows,
                                            sel.table.name,
                                            t.schema,
                                            jds,
                                            sel.where_clause,
                                            cs,
                                        ),
                                    ),
                                    sel.columns,
                                    cs,
                                    any_star(sel.columns),
                                ) && q.columns == proj_infos(t.schema, sel.columns)
                            }
                        },
                    }
                }
            }),
    {
        let t = match self.tables.get_table(table_ref.name.as_str()) {
            Some(t) => t,
            None => {
                return Err(ReefDBError::TableNotFound(table_ref.name));
            },
        };
        let base_schema = t.schema.deep_clone();
        let base_rows = t.rows.deep_clone();
        let is_fts = match &where_clause {
            Some(WhereType::FTS(_)) => true,
            _ => false,
        };
        if is_fts {
            let f: &FTSClause = match &where_clause {
                Some(WhereType::FTS(f)) => f,
                _ => {
                    return Err(ReefDBError::Other("unreachable".to_owned()));
                },
            };
            let ids = self.fts.search(
                table_ref.name.as_str(),
                f.column.name.as_str(),
                f.query.text.as_str(),
            );
            let ghost idsm = ids@;
            let ghost rm = base_rows.deep_view();
            let mut picked: Vec<(usize, Vec<DataValue>)> = Vec::new();
            let n = base_rows.len();
            let mut i: usize = 0;
            while i < n
                invariant
                    n == base_rows.len(),
                    base_rows.deep_view() == rm,
                    ids@ == idsm,
                    i <= n,
                    picked.deep_view() == fts_keep_rows(rm.take(i as int), idsm),
                decreases n - i,
            {
                proof {
                    assert(rm.take(i as int + 1).drop_last() =~= rm.take(i as int));
                    assert(rm.take(i as int + 1).last() == rm[i as int]);
                }
                let keep: bool = if base_rows[i].len() > 0 {
                    match &base_rows[i][0] {
                        DataValue::Integer(id) => vec_has_i64(&ids, *id),
                        _ => false,
                    }
                } else {
                    false
                };
                if keep {
                    let ghost prev = picked.deep_view();
                    picked.push((i, base_rows[i].deep_clone()));
                    proof {
                        assert(picked.deep_view() =~= prev.push((i, rm[i as int])));
                    }
                }
                i = i + 1;
            }
            proof {
                assert(rm.take(n as int) =~= rm);
            }
            let no_joins: Vec<JoinData> = Vec::new();
            let cs = build_cs(table_ref.name.as_str(), &base_schema, &no_joins);
            let sorted = sort_results(&picked, &order_by, &cs);
            let projected = project_results(sorted, &columns, &cs);
            let infos = ColumnInfo::from_schema_and_columns(
                &base_schema,
                &columns,
                table_ref.name.as_str(),
            );
            Ok(ReefDBResult::Select(QueryResult::with_columns(projected, infos)))
        } else {
            let ghost jm = joins.deep_view();
            let mut jdata: Vec<JoinData> = Vec::new();
            let nj = joins.len();
            let mut k: usize = 0;
            while k < nj
                invariant
                    nj == joins.len(),
                    jm == joins.deep_view(),
                    *self == *old(self),
                    k <= nj,
                    old(self).tables@.contains_key(table_ref.name@),
                    !(where_clause.deep_view() matches Some(crate::ast::WhereM::Fts(_))),
                    forall|q: int| 0 <= q < k ==> old(self).tables@.contains_key(
                        #[trigger] jm[q].table_ref.name,
                    ),
                    jdata.deep_view().len() == k,
                    forall|q: int|
                        0 <= q < k ==> jdata.deep_view()[q]
                            == crate::transaction_manager::join_datum(old(self).tables@, jm[q]),
                decreases nj - k,
            {
                match self.tables.get_table(joins[k].table_ref.name.as_str()) {
                    Some(jt) => {
                        let ghost prev = jdata.deep_view();
                        jdata.push(
                            JoinData {
                                on: (joins[k].on.0.clone(), joins[k].on.1.clone()),
                                name: joins[k].table_ref.name.clone(),
                                schema: jt.schema.deep_clone(),
                                rows: jt.rows.deep_clone(),
                            },
                        );
                        proof {
                            assert(jdata.deep_view() =~= prev.push(
                                crate::transaction_manager::join_datum(
                                    old(self).tables@,
                                    jm[k as int],
                                ),
                            ));
                        }
                    },
                    None => {
                        proof {
                            crate::transaction_manager::lemma_first_missing(
                                old(self).tables@,
                                jm,
                                k as int,
                            );
                        }
                        return Err(ReefDBError::TableNotFound(joins[k].table_ref.name.clone()));
                    },
                }
                k = k + 1;
            }
            proof {
                assert(jdata.deep_view() =~= crate::transaction_manager::joins_data(
                    old(self).tables@,
                    jm,
                ));
                crate::transaction_manager::lemma_first_missing_none(old(self).tables@, jm);
            }
            let cs = build_cs(table_ref.name.as_str(), &base_schema, &jdata);
            let gathered = gather_results(
                &base_rows,
                table_ref.name.as_str(),
                &base_schema,
                &jdata,
                &where_clause,
                &cs,
            );
            let sorted = sort_results(&gathered, &order_by, &cs);
            let projected = project_results(sorted, &columns, &cs);
            let infos = ColumnInfo::from_schema_and_columns(
                &base_schema,
                &columns,
                table_ref.name.as_str(),
            );
            Ok(ReefDBResult::Select(QueryResult::with_columns(projected, infos)))
        }
    }
}

/// Takes the table state out, leaving an empty one.
fn take_tables(t: &mut TableStorage) -> (r: TableStorage)
    ensures
        r@ == old(t)@,
{
    let mut out = TableStorage::new();
    std::mem::swap(&mut out, t);
    out
}

} // verus!
