//! The statement syntax the executor accepts: column references, WHERE
//! trees, JOIN and ORDER BY clauses, and the statement enums, each with its
//! mathematical model.

use vstd::prelude::*;
use crate::value::{ColModel, ColumnDef, DataValue, Val};
use crate::deep::DeepClone;

verus! {

/// How a projected column is written.
#[derive(PartialEq, Eq, Debug)]
pub enum ColumnType {
    Regular(String),
}

impl Clone for ColumnType {
    fn clone(&self) -> (r: Self)
        ensures
            r.deep_view() == self.deep_view(),
    {
        match self {
            ColumnType::Regular(s) => ColumnType::Regular(s.clone()),
        }
    }
}

impl DeepView for ColumnType {
    type V = Seq<char>;

    open spec fn deep_view(&self) -> Seq<char> {
        match self {
            ColumnType::Regular(s) => s@,
        }
    }
}

/// The model of a column reference: an optional table qualifier and a name.
pub struct ColumnM {
    pub table: Option<Seq<char>>,
    pub name: Seq<char>,
}

/// A column reference in a SELECT list or an ORDER BY key.
#[derive(PartialEq, Eq, Debug)]
pub struct Column {
    pub table: Option<String>,
    pub name: String,
    pub column_type: ColumnType,
}

impl DeepView for Column {
    type V = ColumnM;

    open spec fn deep_view(&self) -> ColumnM {
        ColumnM { table: self.table.deep_view(), name: self.name@ }
    }
}

impl Clone for Column {
    fn clone(&self) -> (r: Self)
        ensures
            r.deep_view() == self.deep_view(),
    {
        let t = match &self.table {
            Some(s) => Some(s.clone()),
            None => None,
        };
        Column { table: t, name: self.name.clone(), column_type: self.column_type.clone() }
    }
}

/// The model of a table reference.
pub struct TableRefM {
    pub name: Seq<char>,
    pub alias: Option<Seq<char>>,
}

/// A table named in FROM or JOIN, with an optional alias.
#[derive(PartialEq, Eq, Debug)]
pub struct TableReference {
    pub name: String,
    pub alias: Option<String>,
}

impl DeepView for TableReference {
    type V = TableRefM;

    open spec fn deep_view(&self) -> TableRefM {
        TableRefM { name: self.name@, alias: self.alias.deep_view() }
    }
}

impl Clone for TableReference {
    fn clone(&self) -> (r: Self)
        ensures
            r.deep_view() == self.deep_view(),
    {
        let a = match &self.alias {
            Some(s) => Some(s.clone()),
            None => None,
        };
        TableReference { name: self.name.clone(), alias: a }
    }
}

impl TableReference {
    /// The reference as it would be written, `name` or `name AS alias`.
    pub fn display_string(&self) -> (r: String)
        ensures
            match self.alias.deep_view() {
                Some(a) => r@ == self.name@ + " AS "@ + a,
                None => r@ == self.name@,
            },
    {
        match &self.alias {
            Some(a) => {
                let mut s = self.name.clone();
                s.append(" AS ");
                s.append(a.as_str());
                s
            },
            None => self.name.clone(),
        }
    }
}

/// The model of one side of an equi-join condition.
pub struct CvpM {
    pub column_name: Seq<char>,
    pub table_name: Seq<char>,
}

/// One side of an equi-join condition: a column, optionally qualified by a
/// table name (empty when unqualified).
#[derive(PartialEq, Eq, Debug)]
pub struct ColumnValuePair {
    pub column_name: String,
    pub table_name: String,
}

impl DeepView for ColumnValuePair {
    type V = CvpM;

    open spec fn deep_view(&self) -> CvpM {
        CvpM { column_name: self.column_name@, table_name: self.table_name@ }
    }
}

impl Clone for ColumnValuePair {
    fn clone(&self) -> (r: Self)
        ensures
            r.deep_view() == self.deep_view(),
    {
        ColumnValuePair {
            column_name: self.column_name.clone(),
            table_name: self.table_name.clone(),
        }
    }
}

impl ColumnValuePair {
    /// Builds a pair from the column and table names.
    pub fn new(column_name: &str, table_name: &str) -> (r: Self)
        ensures
            r.deep_view() == (CvpM { column_name: column_name@, table_name: table_name@ }),
    {
        ColumnValuePair {
            column_name: column_name.to_owned(),
            table_name: table_name.to_owned(),
        }
    }
}

/// Kinds of JOIN the grammar accepts. Only INNER is implemented by the
/// executor; the others parse and are rejected at execution.
#[derive(Clone, Copy, PartialEq, Eq, Structural, Debug)]
pub enum JoinType {
    Inner,
    Left,
    Right,
    Full,
}

impl DeepView for JoinType {
    type V = JoinType;

    open spec fn deep_view(&self) -> JoinType {
        *self
    }
}

/// The model of a JOIN clause.
pub struct JoinM {
    pub join_type: JoinType,
    pub table_ref: TableRefM,
    pub on: (CvpM, CvpM),
}

/// A JOIN clause: the joined table and the equi-join condition.
#[derive(PartialEq, Eq, Debug)]
pub struct JoinClause {
    pub join_type: JoinType,
    pub table_ref: TableReference,
    pub on: (ColumnValuePair, ColumnValuePair),
}

impl DeepView for JoinClause {
    type V = JoinM;

    open spec fn deep_view(&self) -> JoinM {
        JoinM {
            join_type: self.join_type,
            table_ref: self.table_ref.deep_view(),
            on: (self.on.0.deep_view(), self.on.1.deep_view()),
        }
    }
}

impl Clone for JoinClause {
    fn clone(&self) -> (r: Self)
        ensures
            r.deep_view() == self.deep_view(),
    {
        JoinClause {
            join_type: self.join_type,
            table_ref: self.table_ref.clone(),
            on: (self.on.0.clone(), self.on.1.clone()),
        }
    }
}

impl JoinClause {
    /// Builds a JOIN clause against `table_name` without an alias.
    pub fn new(join_type: JoinType, table_name: &str, on: (ColumnValuePair, ColumnValuePair)) -> (r:
        Self)
        ensures
            r.deep_view() == (JoinM {
                join_type,
                table_ref: TableRefM { name: table_name@, alias: None },
                on: (on.0.deep_view(), on.1.deep_view()),
            }),
    {
        JoinClause {
            join_type,
            table_ref: TableReference { name: table_name.to_owned(), alias: None },
            on,
        }
    }
}

/// Direction of an ORDER BY key.
#[derive(Clone, Copy, PartialEq, Eq, Structural, Debug)]
pub enum OrderDirection {
    Asc,
    Desc,
}

impl DeepView for OrderDirection {
    type V = OrderDirection;

    open spec fn deep_view(&self) -> OrderDirection {
        *self
    }
}

/// The model of an ORDER BY key.
pub struct OrderByM {
    pub column: ColumnM,
    pub direction: OrderDirection,
}

/// One ORDER BY key: a column and a direction.
#[derive(PartialEq, Eq, Debug)]
pub struct OrderByClause {
    pub column: Column,
    pub direction: OrderDirection,
}

impl DeepView for OrderByClause {
    type V = OrderByM;

    open spec fn deep_view(&self) -> OrderByM {
        OrderByM { column: self.column.deep_view(), direction: self.direction }
    }
}

impl Clone for OrderByClause {
    fn clone(&self) -> (r: Self)
        ensures
            r.deep_view() == self.deep_view(),
    {
        OrderByClause { column: self.column.clone(), direction: self.direction }
    }
}

/// Binary comparison operators usable in WHERE.
#[derive(Clone, Copy, PartialEq, Eq, Structural, Debug)]
pub enum ComparisonOp {
    Eq,
    NotEq,
    Lt,
    LtEq,
    Gt,
    GtEq,
}

impl DeepView for ComparisonOp {
    type V = ComparisonOp;

    open spec fn deep_view(&self) -> ComparisonOp {
        *self
    }
}

/// Search languages the full-text collaborator distinguishes.
#[derive(Clone, Copy, PartialEq, Eq, Structural, Debug)]
pub enum Language {
    English,
    Simple,
}

impl DeepView for Language {
    type V = Language;

    open spec fn deep_view(&self) -> Language {
        *self
    }
}

/// How a full-text query string is interpreted.
#[derive(Clone, Copy, PartialEq, Eq, Structural, Debug)]
pub enum QueryType {
    Plain,
    Phrase,
}

impl DeepView for QueryType {
    type V = QueryType;

    open spec fn deep_view(&self) -> QueryType {
        *self
    }
}

/// The model of a full-text query.
pub struct TsQueryM {
    pub text: Seq<char>,
    pub language: Language,
    pub query_type: QueryType,
}

/// A full-text query: its text, language, and interpretation.
#[derive(PartialEq, Eq, Debug)]
pub struct TSQuery {
    pub text: String,
    pub language: Language,
    pub query_type: QueryType,
}

impl DeepView for TSQuery {
    type V = TsQueryM;

    open spec fn deep_view(&self) -> TsQueryM {
        TsQueryM { text: self.text@, language: self.language, query_type: self.query_type }
    }
}

impl TSQuery {
    /// A plain English-language query over the given text.
    pub fn new(text: String) -> (r: Self)
        ensures
            r.deep_view() == (TsQueryM {
                text: text@,
                language: Language::English,
                query_type: QueryType::Plain,
            }),
    {
        TSQuery { text, language: Language::English, query_type: QueryType::Plain }
    }

    /// The same query with another interpretation.
    pub fn with_type(self, query_type: QueryType) -> (r: Self)
        ensures
            r.deep_view() == (TsQueryM { query_type, ..self.deep_view() }),
    {
        TSQuery { query_type, ..self }
    }

    /// The same query in another language.
    pub fn with_language(self, language: Language) -> (r: Self)
        ensures
            r.deep_view() == (TsQueryM { language, ..self.deep_view() }),
    {
        TSQuery { language, ..self }
    }
}

/// The model of a full-text WHERE clause.
pub struct FtsM {
    pub column: ColumnM,
    pub query: TsQueryM,
}

/// A full-text WHERE clause: the searched column and the query.
#[derive(PartialEq, Eq, Debug)]
pub struct FTSClause {
    pub column: Column,
    pub query: TSQuery,
}

impl DeepView for FTSClause {
    type V = FtsM;

    open spec fn deep_view(&self) -> FtsM {
        FtsM { column: self.column.deep_view(), query: self.query.deep_view() }
    }
}

impl FTSClause {
    /// A plain English-language search of `column` for `text`.
    pub fn new(column: Column, text: String) -> (r: Self)
        ensures
            r.deep_view() == (FtsM {
                column: column.deep_view(),
                query: TsQueryM {
                    text: text@,
                    language: Language::English,
                    query_type: QueryType::Plain,
                },
            }),
    {
        FTSClause { column, query: TSQuery::new(text) }
    }

    /// The same clause in another language.
    pub fn with_language(self, language: Language) -> (r: Self)
        ensures
            r.deep_view() == (FtsM {
                column: self.deep_view().column,
                query: TsQueryM { language, ..self.deep_view().query },
            }),
    {
        FTSClause { column: self.column, query: self.query.with_language(language) }
    }

    /// The same clause with another interpretation.
    pub fn with_query_type(self, query_type: QueryType) -> (r: Self)
        ensures
            r.deep_view() == (FtsM {
                column: self.deep_view().column,
                query: TsQueryM { query_type, ..self.deep_view().query },
            }),
    {
        FTSClause { column: self.column, query: self.query.with_type(query_type) }
    }
}

/// The model of one comparison in a WHERE tree.
pub struct WhereClauseM {
    pub table: Option<Seq<char>>,
    pub col_name: Seq<char>,
    pub operator: ComparisonOp,
    pub value: Val,
}

/// One comparison: a column, an operator, and a literal.
#[derive(PartialEq, Eq, Debug)]
pub struct WhereClause {
    pub table: Option<String>,
    pub col_name: String,
    pub operator: ComparisonOp,
    pub value: DataValue,
}

impl DeepView for WhereClause {
    type V = WhereClauseM;

    open spec fn deep_view(&self) -> WhereClauseM {
        WhereClauseM {
            table: self.table.deep_view(),
            col_name: self.col_name@,
            operator: self.operator,
            value: self.value.deep_view(),
        }
    }
}

impl WhereClause {
    /// Builds a comparison clause.
    pub fn new(
        table: Option<String>,
        col_name: String,
        operator: ComparisonOp,
        value: DataValue,
    ) -> (r: Self)
        ensures
            r.deep_view() == (WhereClauseM {
                table: table.deep_view(),
                col_name: col_name@,
                operator,
                value: value.deep_view(),
            }),
    {
        WhereClause { table, col_name, operator, value }
    }
}

/// The model of a WHERE tree.
pub enum WhereM {
    Regular(WhereClauseM),
    And(Box<WhereM>, Box<WhereM>),
    Or(Box<WhereM>, Box<WhereM>),
    Fts(FtsM),
}

/// A WHERE tree: comparisons combined with AND / OR, or a full-text clause.
#[derive(PartialEq, Eq, Debug)]
pub enum WhereType {
    Regular(WhereClause),
    And(Box<WhereType>, Box<WhereType>),
    Or(Box<WhereType>, Box<WhereType>),
    FTS(FTSClause),
}

/// The model of a WHERE tree.
pub open spec fn where_model(w: WhereType) -> WhereM
    decreases w,
{
    match w {
        WhereType::Regular(c) => WhereM::Regular(c.deep_view()),
        WhereType::And(l, r) => WhereM::And(Box::new(where_model(*l)), Box::new(where_model(*r))),
        WhereType::Or(l, r) => WhereM::Or(Box::new(where_model(*l)), Box::new(where_model(*r))),
        WhereType::FTS(c) => WhereM::Fts(c.deep_view()),
    }
}

impl DeepView for WhereType {
    type V = WhereM;

    open spec fn deep_view(&self) -> WhereM {
        where_model(*self)
    }
}

/// CREATE TABLE.
#[derive(PartialEq, Eq, Debug)]
pub enum CreateStatement {
    Table(String, Vec<ColumnDef>),
}

/// The model of CREATE TABLE.
pub struct CreateM {
    pub table: Seq<char>,
    pub columns: Seq<ColModel>,
}

impl DeepView for CreateStatement {
    type V = CreateM;

    open spec fn deep_view(&self) -> CreateM {
        match self {
            CreateStatement::Table(t, cs) => CreateM { table: t@, columns: cs.deep_view() },
        }
    }
}

/// INSERT INTO ... VALUES (...).
#[derive(PartialEq, Eq, Debug)]
pub enum InsertStatement {
    IntoTable(String, Vec<DataValue>),
}

/// The model of INSERT.
pub struct InsertM {
    pub table: Seq<char>,
    pub values: Seq<Val>,
}

impl DeepView for InsertStatement {
    type V = InsertM;

    open spec fn deep_view(&self) -> InsertM {
        match self {
            InsertStatement::IntoTable(t, vs) => InsertM { table: t@, values: vs.deep_view() },
        }
    }
}

/// UPDATE ... SET ... [WHERE ...].
#[derive(PartialEq, Eq, Debug)]
pub enum UpdateStatement {
    UpdateTable(String, Vec<(String, DataValue)>, Option<WhereType>),
}

/// The model of UPDATE.
pub struct UpdateM {
    pub table: Seq<char>,
    pub updates: Seq<(Seq<char>, Val)>,
    pub where_clause: Option<WhereM>,
}

impl DeepView for UpdateStatement {
    type V = UpdateM;

    open spec fn deep_view(&self) -> UpdateM {
        match self {
            UpdateStatement::UpdateTable(t, us, w) => UpdateM {
                table: t@,
                updates: us.deep_view(),
                where_clause: w.deep_view(),
            },
        }
    }
}

/// DELETE FROM ... [WHERE ...].
#[derive(PartialEq, Eq, Debug)]
pub enum DeleteStatement {
    FromTable(String, Option<WhereType>),
}

/// The model of DELETE.
pub struct DeleteM {
    pub table: Seq<char>,
    pub where_clause: Option<WhereM>,
}

impl DeepView for DeleteStatement {
    type V = DeleteM;

    open spec fn deep_view(&self) -> DeleteM {
        match self {
            DeleteStatement::FromTable(t, w) => DeleteM {
                table: t@,
                where_clause: w.deep_view(),
            },
        }
    }
}

/// DROP TABLE.
#[derive(PartialEq, Eq, Debug)]
pub enum DropStatement {
    Table(String),
}

impl DeepView for DropStatement {
    type V = Seq<char>;

    open spec fn deep_view(&self) -> Seq<char> {
        match self {
            DropStatement::Table(t) => t@,
        }
    }
}

/// ALTER TABLE ... ADD COLUMN.
#[derive(PartialEq, Eq, Debug)]
pub enum AlterStatement {
    AddColumn(String, ColumnDef),
}

/// The model of ALTER TABLE.
pub struct AlterM {
    pub table: Seq<char>,
    pub column: ColModel,
}

impl DeepView for AlterStatement {
    type V = AlterM;

    open spec fn deep_view(&self) -> AlterM {
        match self {
            AlterStatement::AddColumn(t, c) => AlterM { table: t@, column: c.deep_view() },
        }
    }
}

/// CREATE INDEX on one column of a table.
#[derive(PartialEq, Eq, Debug)]
pub enum CreateIndexStatement {
    Index(String, String),
}

/// The model of CREATE INDEX and DROP INDEX.
pub struct IndexM {
    pub table: Seq<char>,
    pub column: Seq<char>,
}

impl DeepView for CreateIndexStatement {
    type V = IndexM;

    open spec fn deep_view(&self) -> IndexM {
        match self {
            CreateIndexStatement::Index(t, c) => IndexM { table: t@, column: c@ },
        }
    }
}

/// DROP INDEX on one column of a table.
#[derive(PartialEq, Eq, Debug)]
pub enum DropIndexStatement {
    Index(String, String),
}

impl DeepView for DropIndexStatement {
    type V = IndexM;

    open spec fn deep_view(&self) -> IndexM {
        match self {
            DropIndexStatement::Index(t, c) => IndexM { table: t@, column: c@ },
        }
    }
}

/// SELECT ... FROM ... [JOIN ...] [WHERE ...] [ORDER BY ...].
#[derive(PartialEq, Eq, Debug)]
pub enum SelectStatement {
    FromTable(
        TableReference,
        Vec<Column>,
        Option<WhereType>,
        Vec<JoinClause>,
        Vec<OrderByClause>,
    ),
}

/// The model of SELECT.
pub struct SelectM {
    pub table: TableRefM,
    pub columns: Seq<ColumnM>,
    pub where_clause: Option<WhereM>,
    pub joins: Seq<JoinM>,
    pub order_by: Seq<OrderByM>,
}

impl DeepView for SelectStatement {
    type V = SelectM;

    open spec fn deep_view(&self) -> SelectM {
        match self {
            SelectStatement::FromTable(t, cs, w, js, os) => SelectM {
                table: t.deep_view(),
                columns: cs.deep_view(),
                where_clause: w.deep_view(),
                joins: js.deep_view(),
                order_by: os.deep_view(),
            },
        }
    }
}

/// A parsed SQL statement.
#[derive(PartialEq, Eq, Debug)]
pub enum Statement {
    Create(CreateStatement),
    Insert(InsertStatement),
    Update(UpdateStatement),
    Delete(DeleteStatement),
    Drop(DropStatement),
    Alter(AlterStatement),
    CreateIndex(CreateIndexStatement),
    DropIndex(DropIndexStatement),
    Select(SelectStatement),
}

/// The model of a statement.
pub enum StatementM {
    Create(CreateM),
    Insert(InsertM),
    Update(UpdateM),
    Delete(DeleteM),
    Drop(Seq<char>),
    Alter(AlterM),
    CreateIndex(IndexM),
    DropIndex(IndexM),
    Select(SelectM),
}

impl DeepView for Statement {
    type V = StatementM;

    open spec fn deep_view(&self) -> StatementM {
        match self {
            Statement::Create(s) => StatementM::Create(s.deep_view()),
            Statement::Insert(s) => StatementM::Insert(s.deep_view()),
            Statement::Update(s) => StatementM::Update(s.deep_view()),
            Statement::Delete(s) => StatementM::Delete(s.deep_view()),
            Statement::Drop(s) => StatementM::Drop(s.deep_view()),
            Statement::Alter(s) => StatementM::Alter(s.deep_view()),
            Statement::CreateIndex(s) => StatementM::CreateIndex(s.deep_view()),
            Statement::DropIndex(s) => StatementM::DropIndex(s.deep_view()),
            Statement::Select(s) => StatementM::Select(s.deep_view()),
        }
    }
}

} // verus!
