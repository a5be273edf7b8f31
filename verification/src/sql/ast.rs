//! Syntax trees of SQL statements.

use vstd::prelude::*;
use crate::types::Value;

verus! {

/// Binary operators of SQL expressions.
#[derive(Debug, Clone, Copy, PartialEq, Eq, Structural)]
pub enum BinaryOperator {
    Add,
    Subtract,
    Multiply,
    Divide,
    Modulo,
    Equal,
    NotEqual,
    LessThan,
    LessThanOrEqual,
    GreaterThan,
    GreaterThanOrEqual,
    And,
    Or,
    Xor,
    Concat,
    BitwiseAnd,
    BitwiseOr,
    BitwiseXor,
    ShiftLeft,
    ShiftRight,
    FtsMatch,
}

/// Unary operators.
#[derive(Debug, Clone, Copy, PartialEq, Eq, Structural)]
pub enum UnaryOperator {
    Not,
    Minus,
    Plus,
    BitNot,
}

/// Target types of `CAST`.
#[derive(Debug, Clone, Copy, PartialEq, Eq, Structural)]
pub enum CastType {
    Integer,
    Text,
    Real,
    Blob,
}

/// One `ORDER BY` term.
#[derive(Debug)]
pub struct OrderItem {
    pub expr: Expr,
    pub desc: bool,
    /// `Some(true)` for NULLS FIRST, `Some(false)` for NULLS LAST.
    pub nulls_first: Option<bool>,
}

/// Expressions.
#[derive(Debug)]
pub enum Expr {
    Literal(Value),
    Column { table: Option<Vec<char>>, name: Vec<char> },
    Binary { op: BinaryOperator, left: Box<Expr>, right: Box<Expr> },
    Unary { op: UnaryOperator, expr: Box<Expr> },
    IsNull { expr: Box<Expr>, negated: bool },
    Between { expr: Box<Expr>, low: Box<Expr>, high: Box<Expr>, negated: bool },
    InList { expr: Box<Expr>, list: Vec<Expr>, negated: bool },
    InSubquery { expr: Box<Expr>, query: Box<Query>, negated: bool },
    Exists { query: Box<Query>, negated: bool },
    Subquery(Box<Query>),
    Like { expr: Box<Expr>, pattern: Box<Expr>, negated: bool },
    Case { operand: Option<Box<Expr>>, whens: Vec<(Expr, Expr)>, else_expr: Option<Box<Expr>> },
    Cast { expr: Box<Expr>, to: CastType },
    Function { name: Vec<char>, args: Vec<Expr>, distinct: bool, star: bool },
    Window { name: Vec<char>, args: Vec<Expr>, partition_by: Vec<Expr>, order_by: Vec<OrderItem> },
}

/// Items of a `SELECT` list.
#[derive(Debug)]
pub enum SelectItem {
    Star,
    TableStar(Vec<char>),
    Item { expr: Expr, alias: Option<Vec<char>> },
}

#[derive(Debug, Clone, Copy, PartialEq, Eq, Structural)]
pub enum JoinKind {
    Inner,
    Left,
    Cross,
}

/// Sources of rows in a `FROM` clause.
#[derive(Debug)]
pub enum FromItem {
    Table { name: Vec<char>, alias: Option<Vec<char>> },
    Derived { query: Box<Query>, alias: Vec<char> },
    Series { args: Vec<Expr>, alias: Option<Vec<char>> },
    Join { left: Box<FromItem>, right: Box<FromItem>, kind: JoinKind, on: Option<Expr> },
}

/// A simple `SELECT ... FROM ... WHERE ... GROUP BY ... HAVING ...`.
#[derive(Debug)]
pub struct Select {
    pub distinct: bool,
    pub items: Vec<SelectItem>,
    pub from: Vec<FromItem>,
    pub where_clause: Option<Expr>,
    pub group_by: Vec<Expr>,
    pub having: Option<Expr>,
}

#[derive(Debug, Clone, Copy, PartialEq, Eq, Structural)]
pub enum SetOperator {
    Union,
    Intersect,
    Except,
}

/// A select, or a set operation over two queries.
#[derive(Debug)]
pub enum SetExpr {
    Select(Box<Select>),
    SetOp { op: SetOperator, all: bool, left: Box<SetExpr>, right: Box<SetExpr> },
}

/// A query with its ordering and paging.
#[derive(Debug)]
pub struct Query {
    pub body: SetExpr,
    pub order_by: Vec<OrderItem>,
    pub limit: Option<Expr>,
    pub offset: Option<Expr>,
}

#[derive(Debug, Clone, Copy, PartialEq, Eq, Structural)]
pub enum FkAction {
    NoAction,
    Cascade,
    SetNull,
}

#[derive(Debug)]
pub struct ForeignKey {
    pub table: Vec<char>,
    pub column: Option<Vec<char>>,
    pub on_delete: FkAction,
}

/// A column of `CREATE TABLE`.
#[derive(Debug)]
pub struct ColumnDef {
    pub name: Vec<char>,
    pub declared_type: Vec<char>,
    pub primary_key: bool,
    pub not_null: bool,
    pub unique: bool,
    pub default: Option<Expr>,
    pub references: Option<ForeignKey>,
}

#[derive(Debug)]
pub enum AlterAction {
    AddColumn(ColumnDef),
    DropColumn(Vec<char>),
    RenameTo(Vec<char>),
    RenameColumn { from: Vec<char>, to: Vec<char> },
    EnableRowSecurity,
    DisableRowSecurity,
}

#[derive(Debug, Clone, Copy, PartialEq, Eq, Structural)]
pub enum ConflictMode {
    Abort,
    Ignore,
    Replace,
}

#[derive(Debug)]
pub enum InsertSource {
    Values(Vec<Vec<Expr>>),
    Query(Box<Query>),
}

/// `ON CONFLICT [(cols)] DO NOTHING | DO UPDATE SET ...`.
#[derive(Debug)]
pub struct OnConflict {
    pub do_nothing: bool,
    pub assignments: Vec<(Vec<char>, Expr)>,
}

#[derive(Debug, Clone, Copy, PartialEq, Eq, Structural)]
pub enum TriggerTiming {
    Before,
    After,
}

#[derive(Debug, Clone, Copy, PartialEq, Eq, Structural)]
pub enum TriggerEvent {
    Insert,
    Update,
    Delete,
}

/// Statements.
#[derive(Debug)]
pub enum Statement {
    CreateTable { name: Vec<char>, if_not_exists: bool, columns: Vec<ColumnDef>, as_query: Option<Box<Query>> },
    DropTable { name: Vec<char>, if_exists: bool },
    CreateIndex { name: Vec<char>, table: Vec<char>, columns: Vec<Vec<char>>, unique: bool, if_not_exists: bool },
    DropIndex { name: Vec<char>, if_exists: bool },
    CreateView { name: Vec<char>, query: Box<Query> },
    DropView { name: Vec<char>, if_exists: bool },
    CreateTrigger { name: Vec<char>, timing: TriggerTiming, event: TriggerEvent, table: Vec<char>, body: Vec<Statement> },
    DropTrigger { name: Vec<char>, if_exists: bool },
    CreatePolicy { name: Vec<char>, table: Vec<char>, using: Expr },
    DropPolicy { name: Vec<char>, table: Vec<char>, if_exists: bool },
    AlterTable { table: Vec<char>, action: AlterAction },
    Insert {
        table: Vec<char>,
        columns: Option<Vec<Vec<char>>>,
        source: InsertSource,
        conflict: ConflictMode,
        on_conflict: Option<OnConflict>,
        returning: Option<Vec<SelectItem>>,
    },
    Update { table: Vec<char>, assignments: Vec<(Vec<char>, Expr)>, where_clause: Option<Expr>, returning: Option<Vec<SelectItem>> },
    Delete { table: Vec<char>, where_clause: Option<Expr>, returning: Option<Vec<SelectItem>> },
    Query(Box<Query>),
    Explain { analyze: bool, statement: Box<Statement> },
    Begin,
    Commit,
    Rollback,
    Savepoint(Vec<char>),
    Release(Vec<char>),
    RollbackTo(Vec<char>),
    SetVariable { name: Vec<char>, value: Expr },
    ShowTables,
    ShowEngineStatus,
    Vacuum,
    Analyze(Option<Vec<char>>),
    Grant { revoke: bool },
}

} // verus!
