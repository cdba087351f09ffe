//! Transactional execution core of an embeddable relational database.
//!
//! The crate provides a transaction manager coordinating an MVCC version
//! store, a table-granularity lock manager, a wait-for-graph deadlock
//! detector, a savepoint manager, a write-ahead log, and a statement
//! executor that evaluates WHERE / JOIN / ORDER BY against a per-transaction
//! working copy of the table state.

pub mod ast;
pub mod deadlock;
pub mod deep;
pub mod error;
pub mod executor;
pub mod fts;
pub mod kv;
pub mod locks;
pub mod mvcc;
pub mod parser;
pub mod reefdb;
pub mod result;
pub mod savepoint;
pub mod schema;
pub mod storage;
pub mod strutil;
pub mod transaction;
pub mod transaction_manager;
pub mod value;
pub mod wal;
