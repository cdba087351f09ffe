//! Table state: named tables each holding a schema and rows in insertion
//! order, plus the storage-collaborator interface.

use vstd::prelude::*;
use crate::deep::DeepClone;
use crate::kv::StrMap;
use crate::value::{ColModel, ColumnDef, DataValue, Val};

verus! {

/// The model of one table: its schema and its rows, in insertion order.
pub struct TableModel {
    pub schema: Seq<ColModel>,
    pub rows: Seq<Seq<Val>>,
}

/// One table: its schema and its rows, in insertion order.
pub struct Table {
    pub schema: Vec<ColumnDef>,
    pub rows: Vec<Vec<DataValue>>,
}

impl DeepView for Table {
    type V = TableModel;

    open spec fn deep_view(&self) -> TableModel {
        TableModel { schema: self.schema.deep_view(), rows: self.rows.deep_view() }
    }
}

impl DeepClone for Table {
    fn deep_clone(&self) -> (r: Self)
        ensures
            r.deep_view() == self.deep_view(),
    {
        let r = Table { schema: self.schema.deep_clone(), rows: self.rows.deep_clone() };
        r
    }
}

/// The whole table state: a map from table name to table.
pub struct TableStorage {
    pub tables: StrMap<Table>,
}

impl DeepView for TableStorage {
    type V = Map<Seq<char>, TableModel>;

    open spec fn deep_view(&self) -> Map<Seq<char>, TableModel> {
        self.tables@
    }
}

impl View for TableStorage {
    type V = Map<Seq<char>, TableModel>;

    open spec fn view(&self) -> Map<Seq<char>, TableModel> {
        self.tables@
    }
}

impl DeepClone for TableStorage {
    fn deep_clone(&self) -> (r: Self)
        ensures
            r.deep_view() == self.deep_view(),
    {
        TableStorage { tables: self.tables.deep_clone_map() }
    }
}

impl TableStorage {
    /// The empty table state.
    pub fn new() -> (r: Self)
        ensures
            r@ == Map::<Seq<char>, TableModel>::empty(),
    {
        TableStorage { tables: StrMap::new() }
    }

    /// Creates or replaces a table with the given schema and rows.
    pub fn insert_table(&mut self, name: String, columns: Vec<ColumnDef>, rows: Vec<Vec<DataValue>>)
        ensures
            final(self)@ == old(self)@.insert(
                name@,
                TableModel { schema: columns.deep_view(), rows: rows.deep_view() },
            ),
    {
        self.tables.upsert(name, Table { schema: columns, rows });
    }

    /// Looks a table up.
    pub fn get_table(&self, name: &str) -> (r: Option<&Table>)
        ensures
            match r {
                Some(t) => self@.contains_key(name@) && t.deep_view() == self@[name@],
                None => !self@.contains_key(name@),
            },
    {
        self.tables.get(name)
    }

    /// Removes a table and hands it out, for mutation followed by
    /// `put_table`.
    pub fn take_table(&mut self, name: &str) -> (r: Option<Table>)
        ensures
            match r {
                Some(t) => old(self)@.contains_key(name@) && t.deep_view() == old(self)@[name@]
                    && final(self)@ == old(self)@.remove(name@),
                None => !old(self)@.contains_key(name@) && final(self)@ == old(self)@,
            },
    {
        self.tables.take(name)
    }

    /// Puts a table back under its name.
    pub fn put_table(&mut self, name: String, t: Table)
        ensures
            final(self)@ == old(self)@.insert(name@, t.deep_view()),
    {
        self.tables.upsert(name, t);
    }

    /// Drops a table if it is present.
    pub fn drop_table(&mut self, name: &str)
        ensures
            final(self)@ == old(self)@.remove(name@),
    {
        self.tables.remove(name);
    }

    /// Appends a row to the named table; absent tables are left alone.
    pub fn push_value(&mut self, name: &str, row: Vec<DataValue>)
        ensures
            old(self)@.contains_key(name@) ==> final(self)@ == old(self)@.insert(
                name@,
                TableModel {
                    schema: old(self)@[name@].schema,
                    rows: old(self)@[name@].rows.push(row.deep_view()),
                },
            ),
            !old(self)@.contains_key(name@) ==> final(self)@ == old(self)@,
    {
        match self.tables.take(name) {
            Some(mut t) => {
                t.rows.push(row);
                proof {
                    assert(t.rows.deep_view() =~= old(self)@[name@].rows.push(row.deep_view()));
                }
                self.tables.upsert(name.to_owned(), t);
                proof {
                    assert(final(self)@ =~= old(self)@.insert(
                        name@,
                        TableModel {
                            schema: old(self)@[name@].schema,
                            rows: old(self)@[name@].rows.push(row.deep_view()),
                        },
                    ));
                }
            },
            None => {},
        }
    }

    /// True when the named table exists.
    pub fn contains_key(&self, name: &str) -> (r: bool)
        ensures
            r == self@.contains_key(name@),
    {
        self.tables.contains(name)
    }

    /// Replaces the whole table state with a copy of `other`.
    pub fn restore_from(&mut self, other: &TableStorage)
        ensures
            final(self)@ == other@,
    {
        self.tables = other.tables.deep_clone_map();
    }
}

/// The storage collaborator the core requires: synchronous named-table
/// storage with stable row order.
pub trait Storage: Sized {
    /// What a fresh instance is built from.
    type NewArgs;

    /// The tables held, as a map from name to table model.
    spec fn tables_view(&self) -> Map<Seq<char>, TableModel>;

    /// Builds a storage backend.
    fn new(args: Self::NewArgs) -> Self;

    /// Creates or replaces a table with the given schema and rows.
    fn insert_table(
        &mut self,
        table_name: String,
        columns: Vec<ColumnDef>,
        rows: Vec<Vec<DataValue>>,
    )
        ensures
            final(self).tables_view() == old(self).tables_view().insert(
                table_name@,
                TableModel { schema: columns.deep_view(), rows: rows.deep_view() },
            ),
    ;

    /// Looks a table up.
    fn get_table(&self, table_name: &str) -> (r: Option<&Table>)
        ensures
            match r {
                Some(t) => self.tables_view().contains_key(table_name@) && t.deep_view()
                    == self.tables_view()[table_name@],
                None => !self.tables_view().contains_key(table_name@),
            },
    ;

    /// Appends a row to the named table; absent tables are left alone.
    fn push_value(&mut self, table_name: &str, row: Vec<DataValue>)
        ensures
            old(self).tables_view().contains_key(table_name@) ==> final(self).tables_view()
                == old(self).tables_view().insert(
                table_name@,
                TableModel {
                    schema: old(self).tables_view()[table_name@].schema,
                    rows: old(self).tables_view()[table_name@].rows.push(row.deep_view()),
                },
            ),
            !old(self).tables_view().contains_key(table_name@) ==> final(self).tables_view()
                == old(self).tables_view(),
    ;

    /// True when the named table exists.
    fn contains_key(&self, table_name: &str) -> (r: bool)
        ensures
            r == self.tables_view().contains_key(table_name@),
    ;
}

/// In-memory storage backend: a bare table state.
pub struct InMemoryStorage {
    pub state: TableStorage,
}

impl Storage for InMemoryStorage {
    type NewArgs = ();

    open spec fn tables_view(&self) -> Map<Seq<char>, TableModel> {
        self.state@
    }

    fn new(_args: ()) -> Self {
        InMemoryStorage { state: TableStorage::new() }
    }

    fn insert_table(
        &mut self,
        table_name: String,
        columns: Vec<ColumnDef>,
        rows: Vec<Vec<DataValue>>,
    ) {
        self.state.insert_table(table_name, columns, rows);
    }

    fn get_table(&self, table_name: &str) -> (r: Option<&Table>) {
        self.state.get_table(table_name)
    }

    fn push_value(&mut self, table_name: &str, row: Vec<DataValue>) {
        self.state.push_value(table_name, row);
    }

    fn contains_key(&self, table_name: &str) -> (r: bool) {
        self.state.contains_key(table_name)
    }
}

} // verus!
