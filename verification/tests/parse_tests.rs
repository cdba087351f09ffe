use reefdb::ast::{ColumnValuePair, InsertStatement, JoinClause, JoinType, Statement};
use reefdb::value::DataValue;

#[test]
fn join_parse_test() {
    let (input, join) = JoinClause::parse("INNER JOIN table1 ON table1.id = table2.id").unwrap();
    assert_eq!(input, "");
    assert_eq!(join.join_type, JoinType::Inner);
    assert_eq!(join.table_ref.name, "table1");
    assert_eq!(join.table_ref.alias, None);
    assert_eq!(
        join.on.0,
        ColumnValuePair {
            column_name: "id".to_owned(),
            table_name: "table1".to_owned()
        }
    );
    assert_eq!(
        join.on.1,
        ColumnValuePair {
            column_name: "id".to_owned(),
            table_name: "table2".to_owned()
        }
    );
}

#[test]
fn join_parse_with_alias_test() {
    let (input, join) = JoinClause::parse("INNER JOIN table1 AS t1 ON t1.id = table2.id").unwrap();
    assert_eq!(input, "");
    assert_eq!(join.join_type, JoinType::Inner);
    assert_eq!(join.table_ref.name, "table1");
    assert_eq!(join.table_ref.alias, Some("t1".to_string()));
    assert_eq!(
        join.on.0,
        ColumnValuePair {
            column_name: "id".to_owned(),
            table_name: "t1".to_owned()
        }
    );
    assert_eq!(
        join.on.1,
        ColumnValuePair {
            column_name: "id".to_owned(),
            table_name: "table2".to_owned()
        }
    );
}

#[test]
fn parse_2_test() {
    let input = "INSERT INTO orders VALUES (1, 1, 'iPhone')";

    let result = InsertStatement::parse(input);
    println!("{:?}", result);
}

#[test]
fn insert_parse_values_test() {
    let input = "INSERT INTO orders VALUES (1, 2, 'iPhone')";
    let (rest, stmt) = InsertStatement::parse(input).unwrap();
    assert_eq!(rest, "");
    match stmt {
        Statement::Insert(InsertStatement::IntoTable(table, values)) => {
            assert_eq!(table, "orders");
            assert_eq!(
                values,
                vec![
                    DataValue::Integer(1),
                    DataValue::Integer(2),
                    DataValue::Text("iPhone".to_string()),
                ]
            );
        }
        _ => panic!("expected an INSERT statement"),
    }
}

#[test]
fn cvp_parse_unqualified_test() {
    let (rest, cvp) = ColumnValuePair::parse("age rest").unwrap();
    assert_eq!(rest, " rest");
    assert_eq!(cvp.column_name, "age");
    assert_eq!(cvp.table_name, "");
}

#[test]
fn cvp_parse_rejects_empty_test() {
    assert!(ColumnValuePair::parse(".id").is_none());
    assert!(ColumnValuePair::parse("").is_none());
}

#[test]
fn join_parse_rejects_missing_on_test() {
    assert!(JoinClause::parse("INNER JOIN table1 table2.id").is_none());
    assert!(JoinClause::parse("SIDEWAYS JOIN table1 ON a = b").is_none());
}

#[test]
fn insert_parse_rejects_huge_integer_test() {
    // a literal beyond the machine word is rejected by the grammar
    assert!(InsertStatement::parse("INSERT INTO t VALUES (99999999999999999999)").is_none());
}

#[test]
fn insert_parse_negative_integer_test() {
    let (rest, stmt) = InsertStatement::parse("INSERT INTO t VALUES (-7)").unwrap();
    assert_eq!(rest, "");
    match stmt {
        Statement::Insert(InsertStatement::IntoTable(table, values)) => {
            assert_eq!(table, "t");
            assert_eq!(values, vec![DataValue::Integer(-7)]);
        }
        _ => panic!("expected an INSERT statement"),
    }
}
