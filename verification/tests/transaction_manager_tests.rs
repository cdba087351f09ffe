use reefdb::ast::{
    Column, ColumnType, ColumnValuePair, CreateStatement, InsertStatement, JoinClause, JoinType,
    OrderByClause, OrderDirection, SelectStatement, Statement, TableReference,
};
use reefdb::locks::LockType;
use reefdb::reefdb::InMemoryReefDB;
use reefdb::result::ReefDBResult;
use reefdb::transaction::IsolationLevel;
use reefdb::transaction_manager::TransactionManager;
use reefdb::value::{ColumnDef, Constraint, DataType, DataValue};
use reefdb::wal::WriteAheadLog;

fn users_schema() -> Vec<ColumnDef> {
    vec![
        ColumnDef {
            name: "id".to_string(),
            data_type: DataType::Integer,
            constraints: vec![Constraint::PrimaryKey, Constraint::NotNull, Constraint::Unique],
        },
        ColumnDef {
            name: "name".to_string(),
            data_type: DataType::Text,
            constraints: vec![Constraint::NotNull],
        },
        ColumnDef {
            name: "age".to_string(),
            data_type: DataType::Integer,
            constraints: vec![Constraint::NotNull],
        },
    ]
}

fn plain_column(name: &str) -> Column {
    Column {
        table: None,
        name: name.to_string(),
        column_type: ColumnType::Regular(name.to_string()),
    }
}

fn insert_users(tm: &mut TransactionManager, tx_id: u64) {
    let rows = vec![
        (1, "Alice", 25),
        (2, "Bob", 30),
        (3, "Charlie", 20),
    ];
    for (id, name, age) in rows {
        let stmt = Statement::Insert(InsertStatement::IntoTable(
            "users".to_string(),
            vec![
                DataValue::Integer(id),
                DataValue::Text(name.to_string()),
                DataValue::Integer(age),
            ],
        ));
        tm.execute_statement(tx_id, stmt).unwrap();
    }
}

#[test]
fn test_transaction_manager() {
    let wal = WriteAheadLog::new();

    let db = InMemoryReefDB::create_in_memory().unwrap();
    let mut tm = TransactionManager::create(db, wal);

    // Begin transaction
    let tx_id = tm.begin_transaction(IsolationLevel::Serializable).unwrap();

    // Acquire lock
    tm.acquire_lock(tx_id, "users", LockType::Exclusive).unwrap();

    // Try to acquire conflicting lock (should fail)
    let tx_id2 = tm.begin_transaction(IsolationLevel::Serializable).unwrap();
    assert!(tm.acquire_lock(tx_id2, "users", LockType::Shared).is_err());

    // Commit first transaction
    tm.commit_transaction(tx_id).unwrap();

    // Now second transaction should be able to acquire lock
    assert!(tm.acquire_lock(tx_id2, "users", LockType::Shared).is_ok());
}

#[test]
fn test_order_by() {
    let wal = WriteAheadLog::new();
    let db = InMemoryReefDB::create_in_memory().unwrap();
    let mut tm = TransactionManager::create(db, wal);

    let tx_id = tm.begin_transaction(IsolationLevel::Serializable).unwrap();

    let create_stmt = Statement::Create(CreateStatement::Table("users".to_string(), users_schema()));
    tm.execute_statement(tx_id, create_stmt).unwrap();
    insert_users(&mut tm, tx_id);

    // Test ORDER BY age DESC
    let select_stmt = Statement::Select(SelectStatement::FromTable(
        TableReference {
            name: "users".to_string(),
            alias: None,
        },
        vec![plain_column("name"), plain_column("age")],
        None,
        vec![],
        vec![OrderByClause {
            column: plain_column("age"),
            direction: OrderDirection::Desc,
        }],
    ));

    let result = tm.execute_statement(tx_id, select_stmt).unwrap();

    if let ReefDBResult::Select(query_result) = result {
        let rows = query_result.rows;
        assert_eq!(rows.len(), 3);
        // Check order: Bob (30), Alice (25), Charlie (20)
        assert_eq!(rows[0].1[0], DataValue::Text("Bob".to_string()));
        assert_eq!(rows[0].1[1], DataValue::Integer(30));
        assert_eq!(rows[1].1[0], DataValue::Text("Alice".to_string()));
        assert_eq!(rows[1].1[1], DataValue::Integer(25));
        assert_eq!(rows[2].1[0], DataValue::Text("Charlie".to_string()));
        assert_eq!(rows[2].1[1], DataValue::Integer(20));
    } else {
        panic!("Expected Select result");
    }

    // Test multiple ORDER BY: age ASC, name DESC
    let select_stmt = Statement::Select(SelectStatement::FromTable(
        TableReference {
            name: "users".to_string(),
            alias: None,
        },
        vec![plain_column("name"), plain_column("age")],
        None,
        vec![],
        vec![
            OrderByClause {
                column: plain_column("age"),
                direction: OrderDirection::Asc,
            },
            OrderByClause {
                column: plain_column("name"),
                direction: OrderDirection::Desc,
            },
        ],
    ));

    let result = tm.execute_statement(tx_id, select_stmt).unwrap();

    if let ReefDBResult::Select(query_result) = result {
        let rows = query_result.rows;
        assert_eq!(rows.len(), 3);
        // Check order: Charlie (20), Alice (25), Bob (30)
        assert_eq!(rows[0].1[0], DataValue::Text("Charlie".to_string()));
        assert_eq!(rows[0].1[1], DataValue::Integer(20));
        assert_eq!(rows[1].1[0], DataValue::Text("Alice".to_string()));
        assert_eq!(rows[1].1[1], DataValue::Integer(25));
        assert_eq!(rows[2].1[0], DataValue::Text("Bob".to_string()));
        assert_eq!(rows[2].1[1], DataValue::Integer(30));
    } else {
        panic!("Expected Select result");
    }

    tm.commit_transaction(tx_id).unwrap();
}

#[test]
fn test_integration() {
    let wal = WriteAheadLog::new();
    let db = InMemoryReefDB::create_in_memory().unwrap();
    let mut tm = TransactionManager::create(db, wal);

    let tx_id = tm.begin_transaction(IsolationLevel::Serializable).unwrap();

    let create_stmt = Statement::Create(CreateStatement::Table("users".to_string(), users_schema()));
    tm.execute_statement(tx_id, create_stmt).unwrap();
    insert_users(&mut tm, tx_id);

    // Create orders table
    let create_orders_stmt = Statement::Create(CreateStatement::Table(
        "orders".to_string(),
        vec![
            ColumnDef {
                name: "id".to_string(),
                data_type: DataType::Integer,
                constraints: vec![Constraint::PrimaryKey, Constraint::NotNull, Constraint::Unique],
            },
            ColumnDef {
                name: "user_id".to_string(),
                data_type: DataType::Integer,
                constraints: vec![Constraint::NotNull],
            },
            ColumnDef {
                name: "amount".to_string(),
                data_type: DataType::Integer,
                constraints: vec![Constraint::NotNull],
            },
        ],
    ));
    tm.execute_statement(tx_id, create_orders_stmt).unwrap();

    for (id, user_id, amount) in [(1, 1, 25), (2, 2, 30), (3, 3, 20)] {
        let stmt = Statement::Insert(InsertStatement::IntoTable(
            "orders".to_string(),
            vec![
                DataValue::Integer(id),
                DataValue::Integer(user_id),
                DataValue::Integer(amount),
            ],
        ));
        tm.execute_statement(tx_id, stmt).unwrap();
    }

    // Simple select, order by age DESC
    let select_stmt = Statement::Select(SelectStatement::FromTable(
        TableReference {
            name: "users".to_string(),
            alias: None,
        },
        vec![plain_column("name"), plain_column("age")],
        None,
        vec![],
        vec![OrderByClause {
            column: plain_column("age"),
            direction: OrderDirection::Desc,
        }],
    ));

    let result = tm.execute_statement(tx_id, select_stmt).unwrap();

    if let ReefDBResult::Select(query_result) = result {
        let rows = query_result.rows;
        assert_eq!(rows.len(), 3);
        assert_eq!(rows[0].1[0], DataValue::Text("Bob".to_string()));
        assert_eq!(rows[0].1[1], DataValue::Integer(30));
        assert_eq!(rows[1].1[0], DataValue::Text("Alice".to_string()));
        assert_eq!(rows[1].1[1], DataValue::Integer(25));
        assert_eq!(rows[2].1[0], DataValue::Text("Charlie".to_string()));
        assert_eq!(rows[2].1[1], DataValue::Integer(20));
    } else {
        panic!("Expected Select result");
    }

    // Join users and orders, order by amount DESC, name ASC
    let join_clause = JoinClause {
        table_ref: TableReference {
            name: "orders".to_string(),
            alias: None,
        },
        on: (
            ColumnValuePair {
                table_name: "users".to_string(),
                column_name: "id".to_string(),
            },
            ColumnValuePair {
                table_name: "orders".to_string(),
                column_name: "user_id".to_string(),
            },
        ),
        join_type: JoinType::Inner,
    };

    let select_stmt = Statement::Select(SelectStatement::FromTable(
        TableReference {
            name: "users".to_string(),
            alias: None,
        },
        vec![
            plain_column("name"),
            plain_column("age"),
            Column {
                table: Some("orders".to_string()),
                name: "amount".to_string(),
                column_type: ColumnType::Regular("amount".to_string()),
            },
        ],
        None,
        vec![join_clause],
        vec![
            OrderByClause {
                column: Column {
                    table: Some("orders".to_string()),
                    name: "amount".to_string(),
                    column_type: ColumnType::Regular("amount".to_string()),
                },
                direction: OrderDirection::Desc,
            },
            OrderByClause {
                column: plain_column("name"),
                direction: OrderDirection::Asc,
            },
        ],
    ));

    let result = tm.execute_statement(tx_id, select_stmt).unwrap();

    if let ReefDBResult::Select(query_result) = result {
        let rows = query_result.rows;
        assert_eq!(rows.len(), 3);
        assert_eq!(rows[0].1[0], DataValue::Text("Bob".to_string()));
        assert_eq!(rows[0].1[1], DataValue::Integer(30));
        assert_eq!(rows[1].1[0], DataValue::Text("Alice".to_string()));
        assert_eq!(rows[1].1[1], DataValue::Integer(25));
        assert_eq!(rows[2].1[0], DataValue::Text("Charlie".to_string()));
        assert_eq!(rows[2].1[1], DataValue::Integer(20));
    } else {
        panic!("Expected Select result");
    }

    tm.commit_transaction(tx_id).unwrap();
}
