//! A transaction: identity, isolation level, lifecycle state, its working
//! copy of the table state, and the snapshot taken at begin.

use vstd::prelude::*;
use crate::ast::{Statement, StatementM};
use crate::deep::DeepClone;
use crate::error::{ErrM, ReefDBError};
use crate::executor::{evaluate_where_clause, keep_where, qschema_of};
use crate::result::ReefDBResult;
use crate::storage::{Table, TableModel, TableStorage};
use crate::value::{ColModel, DataType, DataValue, Val};

verus! {

/// Isolation levels the core distinguishes.
#[derive(Clone, Copy, PartialEq, Eq, Structural, Debug)]
pub enum IsolationLevel {
    ReadCommitted,
    RepeatableRead,
    Serializable,
}

impl DeepView for IsolationLevel {
    type V = IsolationLevel;

    open spec fn deep_view(&self) -> IsolationLevel {
        *self
    }
}

/// Lifecycle states of a transaction.
#[derive(Clone, Copy, PartialEq, Eq, Structural, Debug)]
pub enum TransactionState {
    Active,
    Committed,
    RolledBack,
}

impl DeepView for TransactionState {
    type V = TransactionState;

    open spec fn deep_view(&self) -> TransactionState {
        *self
    }
}

/// The model of a transaction.
pub struct TransactionM {
    pub id: u64,
    pub isolation_level: IsolationLevel,
    pub state: TransactionState,
    pub tables: Map<Seq<char>, TableModel>,
    pub snapshot: Map<Seq<char>, TableModel>,
}

/// One transaction: its working copy receives every write before commit;
/// the snapshot keeps the state seen at begin.
pub struct Transaction {
    pub id: u64,
    pub isolation_level: IsolationLevel,
    pub state: TransactionState,
    pub tables: TableStorage,
    pub snapshot: TableStorage,
}

impl DeepView for Transaction {
    type V = TransactionM;

    open spec fn deep_view(&self) -> TransactionM {
        TransactionM {
            id: self.id,
            isolation_level: self.isolation_level,
            state: self.state,
            tables: self.tables@,
            snapshot: self.snapshot@,
        }
    }
}

impl DeepClone for Transaction {
    fn deep_clone(&self) -> (r: Self)
        ensures
            r.deep_view() == self.deep_view(),
    {
        Transaction {
            id: self.id,
            isolation_level: self.isolation_level,
            state: self.state,
            tables: self.tables.deep_clone(),
            snapshot: self.snapshot.deep_clone(),
        }
    }
}

/// The default cell for a column added by ALTER TABLE.
pub open spec fn default_val(dt: DataType) -> Val {
    match dt {
        DataType::Integer => Val::Int(0),
        DataType::Text => Val::Text(Seq::empty()),
        DataType::Boolean => Val::Bool(false),
        DataType::Date => Val::Date(0),
        DataType::Timestamp => Val::Timestamp(0),
        DataType::TSVector => Val::Text(Seq::empty()),
    }
}

fn make_default(dt: &DataType) -> (r: DataValue)
    ensures
        r.deep_view() == default_val(*dt),
{
    match dt {
        DataType::Integer => DataValue::Integer(0),
        DataType::Text => DataValue::Text(String::new()),
        DataType::Boolean => DataValue::Boolean(false),
        DataType::Date => DataValue::Date(0),
        DataType::Timestamp => DataValue::Timestamp(0),
        DataType::TSVector => DataValue::Text(String::new()),
    }
}

/// Rows kept by DELETE: those the WHERE tree does not select (a DELETE
/// without WHERE removes every row).
pub open spec fn delete_keep(
    w: Option<crate::ast::WhereM>,
    cs: Seq<(Seq<char>, ColModel)>,
) -> spec_fn(Seq<Val>) -> bool {
    |r: Seq<Val>| !(keep_where(w, cs)(r))
}


/// What a working-copy statement does: the new table state and the result,
/// or the error. SELECT and UPDATE are not working-copy statements.
pub open spec fn wc_result(m: Map<Seq<char>, TableModel>, s: StatementM) -> Result<
    (Map<Seq<char>, TableModel>, crate::result::ResultM),
    ErrM,
> {
    match s {
        StatementM::Create(c) => Ok(
            (
                m.insert(c.table, TableModel { schema: c.columns, rows: Seq::empty() }),
                crate::result::ResultM::CreateTable,
            ),
        ),
        StatementM::Insert(ins) => if m.contains_key(ins.table) {
            Ok(
                (
                    m.insert(
                        ins.table,
                        TableModel {
                            schema: m[ins.table].schema,
                            rows: m[ins.table].rows.push(ins.values),
                        },
                    ),
                    crate::result::ResultM::Insert(1),
                ),
            )
        } else {
            Err(ErrM::TableNotFound(ins.table))
        },
        StatementM::Delete(d) => if m.contains_key(d.table) {
            let t = m[d.table];
            let kept = t.rows.filter(delete_keep(d.where_clause, qschema_of(d.table, t.schema)));
            Ok(
                (
                    m.insert(d.table, TableModel { schema: t.schema, rows: kept }),
                    crate::result::ResultM::Delete((t.rows.len() - kept.len()) as usize),
                ),
            )
        } else {
            Err(ErrM::TableNotFound(d.table))
        },
        StatementM::Drop(t) => if m.contains_key(t) {
            Ok((m.remove(t), crate::result::ResultM::DropTable))
        } else {
            Err(ErrM::TableNotFound(t))
        },
        StatementM::Alter(a) => if m.contains_key(a.table) {
            let t = m[a.table];
            Ok(
                (
                    m.insert(
                        a.table,
                        TableModel {
                            schema: t.schema.push(a.column),
                            rows: t.rows.map_values(
                                |row: Seq<Val>| row.push(default_val(a.column.data_type)),
                            ),
                        },
                    ),
                    crate::result::ResultM::AlterTable,
                ),
            )
        } else {
            Err(ErrM::TableNotFound(a.table))
        },
        StatementM::CreateIndex(_) => Ok((m, crate::result::ResultM::CreateIndex)),
        StatementM::DropIndex(_) => Ok((m, crate::result::ResultM::DropIndex)),
        StatementM::Select(_) => Err(ErrM::InvalidOperation(Seq::empty())),
        StatementM::Update(_) => Err(ErrM::InvalidOperation(Seq::empty())),
    }
}

/// `execute_statement` realizes `wc_result` on working-copy statements.
pub proof fn lemma_wc_result(pre: TransactionM, post: TransactionM, s: StatementM, r: Result<
    crate::result::ResultM,
    ErrM,
>)
    requires
        !(s is Select),
        !(s is Update),
        match s {
            StatementM::Create(c) => {
                &&& r matches Ok(res) && res == crate::result::ResultM::CreateTable
                &&& post.tables == pre.tables.insert(
                    c.table,
                    TableModel { schema: c.columns, rows: Seq::empty() },
                )
            },
            StatementM::Insert(ins) => {
                if pre.tables.contains_key(ins.table) {
                    &&& r matches Ok(res) && res == crate::result::ResultM::Insert(1)
                    &&& post.tables == pre.tables.insert(
                        ins.table,
                        TableModel {
                            schema: pre.tables[ins.table].schema,
                            rows: pre.tables[ins.table].rows.push(ins.values),
                        },
                    )
                } else {
                    &&& r matches Err(e) && e == ErrM::TableNotFound(ins.table)
                    &&& post.tables == pre.tables
                }
            },
            StatementM::Delete(d) => {
                if pre.tables.contains_key(d.table) {
                    let t = pre.tables[d.table];
                    let kept = t.rows.filter(
                        delete_keep(d.where_clause, qschema_of(d.table, t.schema)),
                    );
                    &&& r matches Ok(res) && res == crate::result::ResultM::Delete(
                        (t.rows.len() - kept.len()) as usize,
                    )
                    &&& post.tables == pre.tables.insert(
                        d.table,
                        TableModel { schema: t.schema, rows: kept },
                    )
                } else {
                    &&& r matches Err(e) && e == ErrM::TableNotFound(d.table)
                    &&& post.tables == pre.tables
                }
            },
            StatementM::Drop(t) => {
                if pre.tables.contains_key(t) {
                    &&& r matches Ok(res) && res == crate::result::ResultM::DropTable
                    &&& post.tables == pre.tables.remove(t)
                } else {
                    &&& r matches Err(e) && e == ErrM::TableNotFound(t)
                    &&& post.tables == pre.tables
                }
            },
            StatementM::Alter(a) => {
                if pre.tables.contains_key(a.table) {
                    let t = pre.tables[a.table];
                    &&& r matches Ok(res) && res == crate::result::ResultM::AlterTable
                    &&& post.tables == pre.tables.insert(
                        a.table,
                        TableModel {
                            schema: t.schema.push(a.column),
                            rows: t.rows.map_values(
                                |row: Seq<Val>| row.push(default_val(a.column.data_type)),
                            ),
                        },
                    )
                } else {
                    &&& r matches Err(e) && e == ErrM::TableNotFound(a.table)
                    &&& post.tables == pre.tables
                }
            },
            StatementM::CreateIndex(_) => r matches Ok(res) && res
                == crate::result::ResultM::CreateIndex && post.tables == pre.tables,
            StatementM::DropIndex(_) => r matches Ok(res) && res
                == crate::result::ResultM::DropIndex && post.tables == pre.tables,
            _ => false,
        },
    ensures
        match wc_result(pre.tables, s) {
            Ok((m2, res)) => post.tables == m2 && r == Ok::<crate::result::ResultM, ErrM>(res),
            Err(e) => post.tables == pre.tables && r == Err::<crate::result::ResultM, ErrM>(e),
        },
{
}

impl Transaction {
    /// A fresh transaction over `state`: the working copy and the snapshot
    /// both start as `state`.
    pub fn create(id: u64, isolation_level: IsolationLevel, state: TableStorage) -> (r: Self)
        ensures
            r.deep_view() == (TransactionM {
                id,
                isolation_level,
                state: TransactionState::Active,
                tables: state@,
                snapshot: state@,
            }),
    {
        let snapshot = state.deep_clone();
        Transaction {
            id,
            isolation_level,
            state: TransactionState::Active,
            tables: state,
            snapshot,
        }
    }

    /// The transaction's id.
    pub fn get_id(&self) -> (r: u64)
        ensures
            r == self.id,
    {
        self.id
    }

    /// The lifecycle state.
    pub fn get_state(&self) -> (r: &TransactionState)
        ensures
            *r == self.state,
    {
        &self.state
    }

    /// The isolation level.
    pub fn get_isolation_level(&self) -> (r: IsolationLevel)
        ensures
            r == self.isolation_level,
    {
        self.isolation_level
    }

    /// A copy of the working table state.
    pub fn get_table_state(&self) -> (r: TableStorage)
        ensures
            r@ == self.tables@,
    {
        self.tables.deep_clone()
    }

    /// Replaces the working copy with a copy of `state`.
    pub fn restore_table_state(&mut self, state: &TableStorage)
        ensures
            final(self).tables@ == state@,
            final(self).id == old(self).id,
            final(self).isolation_level == old(self).isolation_level,
            final(self).state == old(self).state,
            final(self).snapshot@ == old(self).snapshot@,
    {
        self.tables.restore_from(state);
    }

    /// Marks the transaction committed.
    pub fn commit(&mut self)
        ensures
            final(self).state == TransactionState::Committed,
            final(self).id == old(self).id,
            final(self).isolation_level == old(self).isolation_level,
            final(self).tables@ == old(self).tables@,
            final(self).snapshot@ == old(self).snapshot@,
    {
        self.state = TransactionState::Committed;
    }

    /// Marks the transaction rolled back.
    pub fn rollback(&mut self)
        ensures
            final(self).state == TransactionState::RolledBack,
            final(self).id == old(self).id,
            final(self).isolation_level == old(self).isolation_level,
            final(self).tables@ == old(self).tables@,
            final(self).snapshot@ == old(self).snapshot@,
    {
        self.state = TransactionState::RolledBack;
    }

    /// Executes a working-copy statement: CREATE, INSERT, DELETE, DROP,
    /// ALTER, CREATE INDEX and DROP INDEX mutate or read the working copy
    /// directly; SELECT and UPDATE belong to the transaction manager,
    /// which routes them through MVCC, and are rejected here.
    pub fn execute_statement(&mut self, stmt: Statement) -> (r: Result<ReefDBResult, ReefDBError>)
        ensures
            final(self).id == old(self).id,
            final(self).isolation_level == old(self).isolation_level,
            final(self).state == old(self).state,
            final(self).snapshot@ == old(self).snapshot@,
            match stmt.deep_view() {
                StatementM::Create(c) => {
                    &&& r matches Ok(res) && res.deep_view()
                        == crate::result::ResultM::CreateTable
                    &&& final(self).tables@ == old(self).tables@.insert(
                        c.table,
                        TableModel { schema: c.columns, rows: Seq::empty() },
                    )
                },
                StatementM::Insert(ins) => {
                    if old(self).tables@.contains_key(ins.table) {
                        &&& r matches Ok(res) && res.deep_view() == crate::result::ResultM::Insert(
                            1,
                        )
                        &&& final(self).tables@ == old(self).tables@.insert(
                            ins.table,
                            TableModel {
                                schema: old(self).tables@[ins.table].schema,
                                rows: old(self).tables@[ins.table].rows.push(ins.values),
                            },
                        )
                    } else {
                        &&& r matches Err(e) && e.deep_view() == ErrM::TableNotFound(ins.table)
                        &&& final(self).tables@ == old(self).tables@
                    }
                },
                StatementM::Delete(d) => {
                    if old(self).tables@.contains_key(d.table) {
                        let t = old(self).tables@[d.table];
                        let kept = t.rows.filter(
                            delete_keep(d.where_clause, qschema_of(d.table, t.schema)),
                        );
                        &&& r matches Ok(res) && res.deep_view() == crate::result::ResultM::Delete(
                            (t.rows.len() - kept.len()) as usize,
                        )
                        &&& final(self).tables@ == old(self).tables@.insert(
                            d.table,
                            TableModel { schema: t.schema, rows: kept },
                        )
                    } else {
                        &&& r matches Err(e) && e.deep_view() == ErrM::TableNotFound(d.table)
                        &&& final(self).tables@ == old(self).tables@
                    }
                },
                StatementM::Drop(t) => {
                    if old(self).tables@.contains_key(t) {
                        &&& r matches Ok(res) && res.deep_view()
                            == crate::result::ResultM::DropTable
                        &&& final(self).tables@ == old(self).tables@.remove(t)
                    } else {
                        &&& r matches Err(e) && e.deep_view() == ErrM::TableNotFound(t)
                        &&& final(self).tables@ == old(self).tables@
                    }
                },
                StatementM::Alter(a) => {
                    if old(self).tables@.contains_key(a.table) {
                        let t = old(self).tables@[a.table];
                        &&& r matches Ok(res) && res.deep_view()
                            == crate::result::ResultM::AlterTable
                        &&& final(self).tables@ == old(self).tables@.insert(
                            a.table,
                            TableModel {
                                schema: t.schema.push(a.column),
                                rows: t.rows.map_values(
                                    |row: Seq<Val>| row.push(default_val(a.column.data_type)),
                                ),
                            },
                        )
                    } else {
                        &&& r matches Err(e) && e.deep_view() == ErrM::TableNotFound(a.table)
                        &&& final(self).tables@ == old(self).tables@
                    }
                },
                StatementM::CreateIndex(_) => r matches Ok(res) && res.deep_view()
                    == crate::result::ResultM::CreateIndex && final(self).tables@ == old(
                    self,
                ).tables@,
                StatementM::DropIndex(_) => r matches Ok(res) && res.deep_view()
                    == crate::result::ResultM::DropIndex && final(self).tables@ == old(
                    self,
                ).tables@,
                StatementM::Select(_) => r matches Err(e) && e.deep_view() matches
                    ErrM::InvalidOperation(_) && final(self).tables@ == old(self).tables@,
                StatementM::Update(_) => r matches Err(e) && e.deep_view() matches
                    ErrM::InvalidOperation(_) && final(self).tables@ == old(self).tables@,
            },
    {
        match stmt {
            Statement::Create(crate::ast::CreateStatement::Table(name, columns)) => {
                let rows: Vec<Vec<DataValue>> = Vec::new();
                proof {
                    assert(rows.deep_view() =~= Seq::<Seq<Val>>::empty());
                }
                self.tables.insert_table(name, columns, rows);
                Ok(ReefDBResult::CreateTable)
            },
            Statement::Insert(crate::ast::InsertStatement::IntoTable(name, values)) => {
                if self.tables.contains_key(name.as_str()) {
                    self.tables.push_value(name.as_str(), values);
                    Ok(ReefDBResult::Insert(1))
                } else {
                    Err(ReefDBError::TableNotFound(name))
                }
            },
            Statement::Delete(crate::ast::DeleteStatement::FromTable(name, where_clause)) => {
                match self.tables.take_table(name.as_str()) {
                    Some(t) => {
                        let ghost tm = old(self).tables@[name@];
                        let no_joins: Vec<crate::executor::JoinData> = Vec::new();
                        let cs = crate::executor::build_cs(name.as_str(), &t.schema, &no_joins);
                        proof {
                            assert(no_joins.deep_view() =~= Seq::<crate::executor::JoinDataM>::empty());
                            assert(crate::executor::joins_cs(no_joins.deep_view())
                                =~= Seq::<(Seq<char>, ColModel)>::empty());
                            assert(cs.deep_view() =~= qschema_of(name@, tm.schema));
                        }
                        let ghost keep = delete_keep(where_clause.deep_view(), cs.deep_view());
                        let n = t.rows.len();
                        let mut kept: Vec<Vec<DataValue>> = Vec::new();
                        let mut i: usize = 0;
                        while i < n
                            invariant
                                n == t.rows.len(),
                                t.rows.deep_view() == tm.rows,
                                i <= n,
                                keep == delete_keep(where_clause.deep_view(), cs.deep_view()),
                                kept.deep_view() == tm.rows.take(i as int).filter(keep),
                            decreases n - i,
                        {
                            proof {
                                reveal(Seq::filter);
                                assert(tm.rows.take(i as int + 1).drop_last() =~= tm.rows.take(
                                    i as int,
                                ));
                                assert(tm.rows.take(i as int + 1).last() == tm.rows[i as int]);
                            }
                            let selected = match &where_clause {
                                Some(w) => evaluate_where_clause(w, &t.rows[i], &cs),
                                None => true,
                            };
                            if !selected {
                                let ghost prev = kept.deep_view();
                                kept.push(crate::deep::DeepClone::deep_clone(&t.rows[i]));
                                proof {
                                    assert(kept.deep_view() =~= prev.push(tm.rows[i as int]));
                                }
                            }
                            i = i + 1;
                        }
                        proof {
                            assert(tm.rows.take(n as int) =~= tm.rows);
                            tm.rows.lemma_filter_len(keep);
                        }
                        let removed = n - kept.len();
                        self.tables.put_table(name, Table { schema: t.schema, rows: kept });
                        proof {
                            assert(old(self).tables@.remove(name@).insert(
                                name@,
                                TableModel { schema: tm.schema, rows: tm.rows.filter(keep) },
                            ) =~= old(self).tables@.insert(
                                name@,
                                TableModel { schema: tm.schema, rows: tm.rows.filter(keep) },
                            ));
                        }
                        Ok(ReefDBResult::Delete(removed))
                    },
                    None => Err(ReefDBError::TableNotFound(name)),
                }
            },
            Statement::Drop(crate::ast::DropStatement::Table(name)) => {
                if self.tables.contains_key(name.as_str()) {
                    self.tables.drop_table(name.as_str());
                    Ok(ReefDBResult::DropTable)
                } else {
                    Err(ReefDBError::TableNotFound(name))
                }
            },
            Statement::Alter(crate::ast::AlterStatement::AddColumn(name, column)) => {
                match self.tables.take_table(name.as_str()) {
                    Some(mut t) => {
                        let ghost tm = old(self).tables@[name@];
                        let ghost colm = column.deep_view();
                        let dv = make_default(&column.data_type);
                        let ghost dvm = dv.deep_view();
                        proof {
                            assert(dvm == default_val(colm.data_type));
                        }
                        t.schema.push(column);
                        proof {
                            assert(t.schema.deep_view() =~= tm.schema.push(colm));
                        }
                        let n = t.rows.len();
                        let mut rows: Vec<Vec<DataValue>> = Vec::new();
                        let mut i: usize = 0;
                        while i < n
                            invariant
                                n == t.rows.len(),
                                t.rows.deep_view() == tm.rows,
                                dv.deep_view() == dvm,
                                i <= n,
                                rows.deep_view().len() == i,
                                forall|j: int|
                                    0 <= j < i ==> rows.deep_view()[j] == tm.rows[j].push(dvm),
                            decreases n - i,
                        {
                            let mut row = crate::deep::DeepClone::deep_clone(&t.rows[i]);
                            row.push(dv.clone());
                            proof {
                                assert(row.deep_view() =~= tm.rows[i as int].push(dvm));
                            }
                            let ghost prev = rows.deep_view();
                            rows.push(row);
                            proof {
                                assert(rows.deep_view() =~= prev.push(tm.rows[i as int].push(dvm)));
                            }
                            i = i + 1;
                        }
                        proof {
                            assert(rows.deep_view() =~= tm.rows.map_values(
                                |row: Seq<Val>| row.push(default_val(colm.data_type)),
                            ));
                        }
                        self.tables.put_table(name, Table { schema: t.schema, rows });
                        proof {
                            assert(old(self).tables@.remove(name@).insert(
                                name@,
                                TableModel {
                                    schema: tm.schema.push(colm),
                                    rows: tm.rows.map_values(
                                        |row: Seq<Val>| row.push(default_val(colm.data_type)),
                                    ),
                                },
                            ) =~= old(self).tables@.insert(
                                name@,
                                TableModel {
                                    schema: tm.schema.push(colm),
                                    rows: tm.rows.map_values(
                                        |row: Seq<Val>| row.push(default_val(colm.data_type)),
                                    ),
                                },
                            ));
                        }
                        Ok(ReefDBResult::AlterTable)
                    },
                    None => Err(ReefDBError::TableNotFound(name)),
                }
            },
            Statement::CreateIndex(_) => Ok(ReefDBResult::CreateIndex),
            Statement::DropIndex(_) => Ok(ReefDBResult::DropIndex),
            Statement::Select(_) => Err(
                ReefDBError::InvalidOperation(
                    "SELECT is routed through the transaction manager".to_owned(),
                ),
            ),
            Statement::Update(_) => Err(
                ReefDBError::InvalidOperation(
                    "UPDATE is routed through the transaction manager".to_owned(),
                ),
            ),
        }
    }
}

} // verus!
