use reefdb::ast::{
    ComparisonOp, CreateStatement, InsertStatement, SelectStatement, Statement, TableReference,
    UpdateStatement, WhereClause, WhereType,
};
use reefdb::ast::{Column, ColumnType};
use reefdb::deadlock::DeadlockDetector;
use reefdb::error::ReefDBError;
use reefdb::reefdb::InMemoryReefDB;
use reefdb::result::ReefDBResult;
use reefdb::strutil::KeyFormat;
use reefdb::transaction::IsolationLevel;
use reefdb::transaction_manager::TransactionManager;
use reefdb::value::{Cmp, ColumnDef, Constraint, DataType, DataValue};
use reefdb::wal::{WALOperation, WriteAheadLog};

fn fresh_manager() -> TransactionManager {
    let wal = WriteAheadLog::new();
    let db = InMemoryReefDB::create_in_memory().unwrap();
    TransactionManager::create(db, wal)
}

fn t_schema() -> Vec<ColumnDef> {
    vec![
        ColumnDef {
            name: "id".to_string(),
            data_type: DataType::Integer,
            constraints: vec![Constraint::PrimaryKey],
        },
        ColumnDef {
            name: "v".to_string(),
            data_type: DataType::Text,
            constraints: vec![],
        },
    ]
}

fn plain_col(name: &str) -> Column {
    Column {
        table: None,
        name: name.to_string(),
        column_type: ColumnType::Regular(name.to_string()),
    }
}

fn star_col() -> Column {
    Column {
        table: None,
        name: "*".to_string(),
        column_type: ColumnType::Regular("*".to_string()),
    }
}

fn select_all(table: &str, where_clause: Option<WhereType>) -> Statement {
    Statement::Select(SelectStatement::FromTable(
        TableReference {
            name: table.to_string(),
            alias: None,
        },
        vec![star_col()],
        where_clause,
        vec![],
        vec![],
    ))
}

fn insert_t(tm: &mut TransactionManager, tx: u64, id: i64, v: &str) {
    tm.execute_statement(
        tx,
        Statement::Insert(InsertStatement::IntoTable(
            "t".to_string(),
            vec![DataValue::Integer(id), DataValue::Text(v.to_string())],
        )),
    )
    .unwrap();
}

/// Basic insert and select, without ORDER BY: insertion order is kept.
#[test]
fn basic_insert_select_order_kept() {
    let mut tm = fresh_manager();
    let tx = tm.begin_transaction(IsolationLevel::Serializable).unwrap();
    tm.execute_statement(
        tx,
        Statement::Create(CreateStatement::Table("t".to_string(), t_schema())),
    )
    .unwrap();
    insert_t(&mut tm, tx, 2, "b");
    insert_t(&mut tm, tx, 1, "a");
    insert_t(&mut tm, tx, 3, "c");

    let result = tm.execute_statement(tx, select_all("t", None)).unwrap();
    if let ReefDBResult::Select(q) = result {
        assert_eq!(q.rows.len(), 3);
        // rows come back in insertion order, not key order
        assert_eq!(q.rows[0].1[0], DataValue::Integer(2));
        assert_eq!(q.rows[1].1[0], DataValue::Integer(1));
        assert_eq!(q.rows[2].1[0], DataValue::Integer(3));
    } else {
        panic!("Expected Select result");
    }
}

/// Deadlock detection: a two-transaction cycle names the youngest as
/// victim, and detection terminates on an acyclic graph.
#[test]
fn deadlock_victim_is_youngest() {
    let mut d = DeadlockDetector::new();
    d.add_wait(1, 2, "b".to_string());
    assert_eq!(d.detect_deadlock(), None);
    d.add_wait(2, 1, "a".to_string());
    assert_eq!(d.detect_deadlock(), Some(2));
    d.remove_transaction(2);
    assert_eq!(d.detect_deadlock(), None);
}

/// MVCC isolation: a repeatable-read transaction keeps seeing its
/// snapshot while another transaction updates and commits.
#[test]
fn mvcc_repeatable_read_isolation() {
    let mut tm = fresh_manager();

    // set up committed data
    let tx0 = tm.begin_transaction(IsolationLevel::Serializable).unwrap();
    tm.execute_statement(
        tx0,
        Statement::Create(CreateStatement::Table("t".to_string(), t_schema())),
    )
    .unwrap();
    insert_t(&mut tm, tx0, 1, "old");
    tm.commit_transaction(tx0).unwrap();

    let where_id1 = || {
        Some(WhereType::Regular(WhereClause::new(
            None,
            "id".to_string(),
            ComparisonOp::Eq,
            DataValue::Integer(1),
        )))
    };

    let tx1 = tm.begin_transaction(IsolationLevel::RepeatableRead).unwrap();
    let r1 = tm
        .execute_statement(tx1, select_all("t", where_id1()))
        .unwrap();
    if let ReefDBResult::Select(q) = r1 {
        assert_eq!(q.rows.len(), 1);
        assert_eq!(q.rows[0].1[1], DataValue::Text("old".to_string()));
    } else {
        panic!("Expected Select result");
    }

    // another transaction updates the row and commits
    let tx2 = tm.begin_transaction(IsolationLevel::ReadCommitted).unwrap();
    let updated = tm
        .execute_statement(
            tx2,
            Statement::Update(UpdateStatement::UpdateTable(
                "t".to_string(),
                vec![("v".to_string(), DataValue::Text("new".to_string()))],
                where_id1(),
            )),
        )
        .unwrap();
    assert_eq!(updated, ReefDBResult::Update(1));
    tm.commit_transaction(tx2).unwrap();

    // the repeatable-read transaction still sees the old value
    let r2 = tm
        .execute_statement(tx1, select_all("t", where_id1()))
        .unwrap();
    if let ReefDBResult::Select(q) = r2 {
        assert_eq!(q.rows.len(), 1);
        assert_eq!(q.rows[0].1[1], DataValue::Text("old".to_string()));
    } else {
        panic!("Expected Select result");
    }
}

/// Savepoint partial rollback: only the rows from before the savepoint
/// survive the commit.
#[test]
fn savepoint_partial_rollback() {
    let mut tm = fresh_manager();
    let tx = tm.begin_transaction(IsolationLevel::Serializable).unwrap();
    tm.execute_statement(
        tx,
        Statement::Create(CreateStatement::Table("t".to_string(), t_schema())),
    )
    .unwrap();
    insert_t(&mut tm, tx, 1, "one");
    tm.create_savepoint(tx, "s".to_string()).unwrap();
    insert_t(&mut tm, tx, 2, "two");
    insert_t(&mut tm, tx, 3, "three");
    tm.rollback_to_savepoint(tx, "s").unwrap();
    tm.commit_transaction(tx).unwrap();

    let r = tm.execute_statement_committed(select_all("t", None)).unwrap();
    if let ReefDBResult::Select(q) = r {
        assert_eq!(q.rows.len(), 1);
        assert_eq!(q.rows[0].1[0], DataValue::Integer(1));
    } else {
        panic!("Expected Select result");
    }
}

/// Savepoint round trip: create then roll back to it leaves the working
/// copy as it was.
#[test]
fn savepoint_roundtrip_noop() {
    let mut tm = fresh_manager();
    let tx = tm.begin_transaction(IsolationLevel::Serializable).unwrap();
    tm.execute_statement(
        tx,
        Statement::Create(CreateStatement::Table("t".to_string(), t_schema())),
    )
    .unwrap();
    insert_t(&mut tm, tx, 1, "one");
    tm.create_savepoint(tx, "s".to_string()).unwrap();
    tm.rollback_to_savepoint(tx, "s").unwrap();
    let r = tm.execute_statement(tx, select_all("t", None)).unwrap();
    if let ReefDBResult::Select(q) = r {
        assert_eq!(q.rows.len(), 1);
        assert_eq!(q.rows[0].1[1], DataValue::Text("one".to_string()));
    } else {
        panic!("Expected Select result");
    }
}

/// Rollback leaves nothing observable: the published state and later
/// readers see no trace of the rolled-back transaction.
#[test]
fn rollback_leaves_no_trace() {
    let mut tm = fresh_manager();
    let tx0 = tm.begin_transaction(IsolationLevel::Serializable).unwrap();
    tm.execute_statement(
        tx0,
        Statement::Create(CreateStatement::Table("t".to_string(), t_schema())),
    )
    .unwrap();
    insert_t(&mut tm, tx0, 1, "base");
    tm.commit_transaction(tx0).unwrap();

    let tx1 = tm.begin_transaction(IsolationLevel::ReadCommitted).unwrap();
    insert_t(&mut tm, tx1, 2, "ghostly");
    tm.rollback_transaction(tx1).unwrap();

    let r = tm.execute_statement_committed(select_all("t", None)).unwrap();
    if let ReefDBResult::Select(q) = r {
        assert_eq!(q.rows.len(), 1);
        assert_eq!(q.rows[0].1[0], DataValue::Integer(1));
    } else {
        panic!("Expected Select result");
    }
}

/// The log holds a Commit entry for a committed transaction and only a
/// Rollback entry for a rolled-back one.
#[test]
fn wal_commit_and_rollback_entries() {
    let mut tm = fresh_manager();
    let tx0 = tm.begin_transaction(IsolationLevel::Serializable).unwrap();
    tm.execute_statement(
        tx0,
        Statement::Create(CreateStatement::Table("t".to_string(), t_schema())),
    )
    .unwrap();
    tm.commit_transaction(tx0).unwrap();
    let tx1 = tm.begin_transaction(IsolationLevel::Serializable).unwrap();
    tm.rollback_transaction(tx1).unwrap();

    let entries = tm.get_wal().replay();
    assert!(entries
        .iter()
        .any(|e| e.transaction_id == tx0 && e.operation == WALOperation::Commit));
    assert!(!entries
        .iter()
        .any(|e| e.transaction_id == tx1 && e.operation == WALOperation::Commit));
    assert!(entries
        .iter()
        .any(|e| e.transaction_id == tx1 && e.operation == WALOperation::Rollback));
}

/// Write conflicts: two live transactions staging a write on the same row
/// collide, and the error names the conflict.
#[test]
fn write_conflict_between_live_transactions() {
    let mut tm = fresh_manager();
    let tx0 = tm.begin_transaction(IsolationLevel::Serializable).unwrap();
    tm.execute_statement(
        tx0,
        Statement::Create(CreateStatement::Table("t".to_string(), t_schema())),
    )
    .unwrap();
    insert_t(&mut tm, tx0, 1, "base");
    tm.commit_transaction(tx0).unwrap();

    let upd = |text: &str| {
        Statement::Update(UpdateStatement::UpdateTable(
            "t".to_string(),
            vec![("v".to_string(), DataValue::Text(text.to_string()))],
            None,
        ))
    };

    let tx1 = tm.begin_transaction(IsolationLevel::ReadCommitted).unwrap();
    let tx2 = tm.begin_transaction(IsolationLevel::ReadCommitted).unwrap();
    assert_eq!(tm.execute_statement(tx1, upd("a")).unwrap(), ReefDBResult::Update(1));
    assert_eq!(
        tm.execute_statement(tx2, upd("b")),
        Err(ReefDBError::WriteConflict)
    );
}

/// First-committer-wins: a transaction that began before a concurrent
/// commit on the same key fails its own commit and is rolled back.
#[test]
fn serialization_failure_on_commit() {
    let mut tm = fresh_manager();
    let tx0 = tm.begin_transaction(IsolationLevel::Serializable).unwrap();
    tm.execute_statement(
        tx0,
        Statement::Create(CreateStatement::Table("t".to_string(), t_schema())),
    )
    .unwrap();
    insert_t(&mut tm, tx0, 1, "base");
    tm.commit_transaction(tx0).unwrap();

    let upd = |text: &str| {
        Statement::Update(UpdateStatement::UpdateTable(
            "t".to_string(),
            vec![("v".to_string(), DataValue::Text(text.to_string()))],
            None,
        ))
    };

    // tx1 begins first; tx2 begins, updates, and commits the same key
    let tx1 = tm.begin_transaction(IsolationLevel::ReadCommitted).unwrap();
    let tx2 = tm.begin_transaction(IsolationLevel::ReadCommitted).unwrap();
    tm.execute_statement(tx2, upd("second")).unwrap();
    tm.commit_transaction(tx2).unwrap();
    // tx1 stages its own write afterwards and loses the race at commit
    tm.execute_statement(tx1, upd("first")).unwrap();
    assert_eq!(
        tm.commit_transaction(tx1),
        Err(ReefDBError::SerializationFailure)
    );
}

/// Error cases: missing tables, missing savepoints, unknown transactions,
/// and non-SELECT statements on the committed path.
#[test]
fn error_variants() {
    let mut tm = fresh_manager();
    let tx = tm.begin_transaction(IsolationLevel::Serializable).unwrap();
    assert_eq!(
        tm.execute_statement(
            tx,
            Statement::Insert(InsertStatement::IntoTable(
                "nope".to_string(),
                vec![DataValue::Integer(1)],
            )),
        ),
        Err(ReefDBError::TableNotFound("nope".to_string()))
    );
    assert_eq!(
        tm.rollback_to_savepoint(tx, "missing").err(),
        Some(ReefDBError::SavepointNotFound("missing".to_string()))
    );
    assert_eq!(
        tm.commit_transaction(999).err(),
        Some(ReefDBError::TransactionNotFound(999))
    );
    match tm.execute_statement_committed(Statement::Insert(InsertStatement::IntoTable(
        "t".to_string(),
        vec![],
    ))) {
        Err(ReefDBError::InvalidOperation(_)) => {}
        other => panic!("expected InvalidOperation, got {:?}", other),
    }
}

/// Exact formulas: row keys, decimal renderings, comparisons, and the
/// retry backoff.
#[test]
fn formula_values() {
    assert_eq!(KeyFormat::row("users", 0, "1"), "users/0/1");
    assert_eq!(reefdb::strutil::i64_string(-42), "-42");
    assert_eq!(reefdb::strutil::u64_string(907), "907");
    assert_eq!(
        reefdb::value::dv_cmp(&DataValue::Integer(2), &DataValue::Integer(10)),
        Cmp::Lt
    );
    assert_eq!(
        reefdb::value::dv_cmp(
            &DataValue::Text("pear".to_string()),
            &DataValue::Text("peach".to_string())
        ),
        Cmp::Gt
    );
    assert_eq!(TransactionManager::retry_backoff_ms(0), 10);
    assert_eq!(TransactionManager::retry_backoff_ms(3), 80);
}

/// Read timestamps are unique and monotonic across begins.
#[test]
fn read_timestamps_monotonic() {
    let mut tm = fresh_manager();
    let a = tm.begin_transaction(IsolationLevel::ReadCommitted).unwrap();
    let b = tm.begin_transaction(IsolationLevel::ReadCommitted).unwrap();
    let c = tm.begin_transaction(IsolationLevel::ReadCommitted).unwrap();
    assert!(a < b && b < c);
}
