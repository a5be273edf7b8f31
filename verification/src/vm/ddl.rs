//! Schema statements: tables, indexes, views, triggers, policies.

use vstd::prelude::*;
use crate::types::{Value, ValueV, copy_value, copy_row, copy_chars, str_chars, values_equal, is_null};
use crate::text::{chars_eq_ci, eq_word, lower_seq};
use crate::storage::table::{Table, Row, ColumnInfo, ForeignRef, vals, lemma_contents_at,
    lemma_constraints_add_column, lemma_constraints_drop_column};
use crate::sql::ast::{ColumnDef, AlterAction, Query, Expr, Statement, TriggerTiming, TriggerEvent};
use crate::error::{KkdbError, ErrorKind, Result};
use crate::vm::db::{Db, ViewDef, IndexDef, TriggerDef, PolicyDef, tables_wf, column_index, copy_column, same_name};
use crate::vm::query::{exec_query, eval_expr, fail, ColRef, append_chars};
use crate::vm::execute::{ExecResult, message, MAX_FUEL};
use crate::vm::relations::query_spec;
use crate::vm::dml::{column_from, lemma_column_from};
use crate::vm::semantics::table_from;
use crate::vm::query::lemma_table_from;

verus! {

/// A table name after a rename of `from` to `to`: `to` where it names `from`
/// (ignoring case), else unchanged.
pub open spec fn renamed(t: Seq<char>, from: Seq<char>, to: Seq<char>) -> Seq<char> {
    if lower_seq(t) == lower_seq(from) { to } else { t }
}


pub fn named_error<T>(kind: ErrorKind, prefix: &str, name: &Vec<char>) -> (r: Result<T>)
    ensures r matches Err(e) && e.kind == kind && e.message@ == prefix@ + name@,
{
    let mut msg = str_chars(prefix);
    append_chars(&mut msg, name);
    Err(KkdbError::from_chars(kind, &msg))
}

/// Whether column metadata follows a column definition: same name and
/// flags; an `INTEGER PRIMARY KEY` column holds the rowid; a primary key
/// other than the rowid is NOT NULL.
pub open spec fn column_of_def(d: ColumnDef, c: ColumnInfo) -> bool {
    &&& c.name@ == d.name@
    &&& c.primary_key == d.primary_key
    &&& c.unique == d.unique
    &&& c.is_rowid == (d.primary_key && lower_seq(d.declared_type@) == "integer"@)
    &&& c.not_null == (d.not_null || (d.primary_key && !c.is_rowid))
    &&& (d.default is None ==> c.default is None)
}

/// Column metadata from a column definition; a default must be a constant.
pub fn column_from_def(db: &Db, d: &ColumnDef) -> (r: Result<ColumnInfo>)
    ensures
        r matches Ok(c) ==> column_of_def(*d, c),
        d.default is None ==> r is Ok,
{
    let default = match &d.default {
        Some(e) => {
            let cols: Vec<ColRef> = Vec::new();
            let row: Vec<Value> = Vec::new();
            Some(eval_expr(db, e, &cols, &row, None, 100)?)
        },
        None => None,
    };
    let is_rowid = d.primary_key && (eq_word(&d.declared_type, "integer"));
    Ok(ColumnInfo {
        name: copy_chars(&d.name),
        declared_type: copy_chars(&d.declared_type),
        primary_key: d.primary_key,
        is_rowid,
        not_null: d.not_null || (d.primary_key && !is_rowid),
        unique: d.unique,
        default,
        references: match &d.references {
            None => None,
            Some(f) => Some(ForeignRef {
                table: copy_chars(&f.table),
                column: match &f.column { None => None, Some(c) => Some(copy_chars(c)) },
                on_delete: f.on_delete,
            }),
        },
    })
}

/// Whether two columns of a list share a name.
pub open spec fn repeats_name(cols: Seq<ColumnInfo>) -> bool {
    exists|i: int, j: int| 0 <= i < j < cols.len() && same_name(#[trigger] cols[i].name@, #[trigger] cols[j].name@)
}

/// Whether two column definitions share a name.
pub open spec fn repeats_defined_name(defs: Seq<ColumnDef>) -> bool {
    exists|i: int, j: int| 0 <= i < j < defs.len() && same_name(#[trigger] defs[i].name@, #[trigger] defs[j].name@)
}

fn has_duplicate_names(cols: &Vec<ColumnInfo>) -> (r: bool)
    ensures r == repeats_name(cols@),
{
    let mut i: usize = 0;
    while i < cols.len()
        invariant i <= cols@.len(),
            forall|a: int, b: int| 0 <= a < i && a < b < cols@.len() ==> !same_name(#[trigger] cols@[a].name@, #[trigger] cols@[b].name@),
        decreases cols.len() - i,
    {
        let mut j: usize = i + 1;
        while j < cols.len()
            invariant i < cols@.len(), i + 1 <= j <= cols@.len(),
                forall|a: int, b: int| 0 <= a < i && a < b < cols@.len() ==> !same_name(#[trigger] cols@[a].name@, #[trigger] cols@[b].name@),
                forall|b: int| i < b < j ==> !same_name(cols@[i as int].name@, #[trigger] cols@[b].name@),
            decreases cols.len() - j,
        {
            if chars_eq_ci(&cols[i].name, &cols[j].name) {
                return true;
            }
            j += 1;
        }
        i += 1;
    }
    false
}

/// What `ALTER TABLE` with `action` made of a table.
pub open spec fn altered(before: Table, after: Table, action: AlterAction) -> bool {
    match action {
        AlterAction::AddColumn(d) => {
            &&& after.name@ == before.name@
            &&& after.row_security == before.row_security
            &&& after.columns@.len() == before.columns@.len() + 1
            &&& after.columns@.drop_last() == before.columns@
            &&& column_of_def(d, after.columns@.last())
            &&& after.contents().dom() == before.contents().dom()
            &&& forall|k: int| #[trigger] before.contents().dom().contains(k)
                    ==> after.contents()[k].len() == before.contents()[k].len() + 1
                    && after.contents()[k].drop_last() == before.contents()[k]
            &&& forall|k1: int, k2: int| #[trigger] before.contents().dom().contains(k1) && #[trigger] before.contents().dom().contains(k2)
                    ==> after.contents()[k1].last() == after.contents()[k2].last()
        },
        AlterAction::DropColumn(name) => exists|ci: int| {
            &&& 0 <= ci < before.columns@.len()
            &&& same_name(before.columns@[ci].name@, name@)
            &&& after.name@ == before.name@
            &&& after.row_security == before.row_security
            &&& after.columns@ == before.columns@.remove(ci)
            &&& after.contents().dom() == before.contents().dom()
            &&& forall|k: int| #[trigger] before.contents().dom().contains(k) ==> after.contents()[k] == before.contents()[k].remove(ci)
        },
        AlterAction::RenameTo(n) => {
            &&& after.name@ == n@
            &&& after.columns@ == before.columns@
            &&& after.contents() == before.contents()
            &&& after.row_security == before.row_security
        },
        AlterAction::RenameColumn { from, to } => exists|ci: int| {
            &&& 0 <= ci < before.columns@.len()
            &&& same_name(before.columns@[ci].name@, from@)
            &&& after.columns@.len() == before.columns@.len()
            &&& after.columns@[ci].name@ == to@
            &&& forall|j: int| 0 <= j < before.columns@.len() && j != ci ==> after.columns@[j] == before.columns@[j]
            &&& after.name@ == before.name@
            &&& after.contents() == before.contents()
            &&& after.row_security == before.row_security
        },
        AlterAction::EnableRowSecurity => {
            &&& after.row_security
            &&& after.name@ == before.name@ && after.columns@ == before.columns@ && after.contents() == before.contents()
        },
        AlterAction::DisableRowSecurity => {
            &&& !after.row_security
            &&& after.name@ == before.name@ && after.columns@ == before.columns@ && after.contents() == before.contents()
        },
    }
}

/// What `CREATE TABLE name (defs)` did: an existing relation of that name
/// leaves the tables and fails unless IF NOT EXISTS; otherwise a success adds
/// one empty table of those columns after the others; with no defaults, it
/// succeeds exactly when no column name repeats. A failure leaves the tables.
pub open spec fn create_table_done(before: Db, after: Db, name: Seq<char>, if_not_exists: bool, defs: Seq<ColumnDef>,
    r: Result<ExecResult>) -> bool {
    &&& r is Err ==> after.tables@ == before.tables@
    &&& before.has_relation(name) ==> after.tables@ == before.tables@ && (r is Ok <==> if_not_exists)
    &&& !before.has_relation(name) && r is Ok ==> {
        let t = after.tables@.last();
        &&& after.tables@ == before.tables@.push(t)
        &&& t.name@ == name
        &&& t.contents() == Map::<int, Seq<crate::types::ValueV>>::empty()
        &&& t.columns@.len() == defs.len()
        &&& forall|c: int| 0 <= c < defs.len() ==> column_of_def(#[trigger] defs[c], t.columns@[c])
        &&& !repeats_name(t.columns@)
    }
    &&& !before.has_relation(name) && (forall|c: int| 0 <= c < defs.len() ==> (#[trigger] defs[c]).default is None)
        ==> (r is Ok <==> !repeats_defined_name(defs))
}

/// What `CREATE TABLE name AS query` did: as `create_table_done` for an
/// existing name; otherwise a success adds one table of that name whose
/// columns carry no NOT NULL or UNIQUE constraint.
pub open spec fn create_table_as_done(before: Db, after: Db, name: Seq<char>, if_not_exists: bool, q: Query,
    r: Result<ExecResult>) -> bool {
    &&& r is Err ==> after.tables@ == before.tables@
    &&& before.has_relation(name) ==> after.tables@ == before.tables@ && (r is Ok <==> if_not_exists)
    &&& !before.has_relation(name) && r is Ok ==> {
        let t = after.tables@.last();
        &&& after.tables@ == before.tables@.push(t)
        &&& t.name@ == name
        &&& forall|c: int| 0 <= c < t.columns@.len() ==> !(#[trigger] t.columns@[c]).not_null && !t.columns@[c].is_unique()
        &&& query_spec(before, q, MAX_FUEL as nat) matches Some(Some(nr)) ==> t.contents() == numbered(nr.1)
    }
}

/// Rows numbered from 1 in order, as a map from number to row.
pub open spec fn numbered(rows: Seq<Seq<ValueV>>) -> Map<int, Seq<ValueV>> {
    Map::new(|k: int| 1 <= k <= rows.len(), |k: int| rows[k - 1])
}

/// What `DROP TABLE name` did: a missing table leaves the tables and fails
/// unless IF EXISTS; otherwise it succeeds and removes the first table of
/// that name.
pub open spec fn drop_table_done(before: Db, after: Db, name: Seq<char>, if_exists: bool, r: Result<ExecResult>) -> bool {
    &&& !before.has_table(name) ==> after.tables@ == before.tables@ && (r is Ok <==> if_exists)
    &&& before.has_table(name) ==> r is Ok && exists|i: int| before.table_at(name, i) && after.tables@ == before.tables@.remove(i)
}

/// What `CREATE [UNIQUE] INDEX name ON table` did: the tables stay; an
/// existing index of that name stays alone and fails unless IF NOT EXISTS;
/// a missing table fails; a success adds one index of that name last.
pub open spec fn create_index_done(before: Db, after: Db, name: Seq<char>, table: Seq<char>, unique: bool,
    if_not_exists: bool, r: Result<ExecResult>) -> bool {
    &&& after.tables@ == before.tables@
    &&& before.has_index(name) ==> after.indexes@ == before.indexes@ && (r is Ok <==> if_not_exists)
    &&& !before.has_index(name) && !before.has_table(table) ==> r is Err
    &&& !before.has_index(name) && r is Ok ==> after.indexes@.len() == before.indexes@.len() + 1
        && after.indexes@.drop_last() == before.indexes@
        && after.indexes@.last().name@ == name && after.indexes@.last().unique == unique
}

/// What `DROP INDEX name` did: the tables stay; an existing index goes and
/// it succeeds; a missing one leaves the indexes and fails unless IF EXISTS.
pub open spec fn drop_index_done(before: Db, after: Db, name: Seq<char>, if_exists: bool, r: Result<ExecResult>) -> bool {
    &&& after.tables@ == before.tables@
    &&& before.has_index(name) ==> r is Ok && after.indexes@.len() == before.indexes@.len() - 1
    &&& !before.has_index(name) ==> after.indexes@ == before.indexes@ && (r is Ok <==> if_exists)
}

/// What `CREATE VIEW name` did: the tables stay; it succeeds exactly when no
/// relation has the name, and then adds one view of that name last.
pub open spec fn create_view_done(before: Db, after: Db, name: Seq<char>, r: Result<ExecResult>) -> bool {
    &&& after.tables@ == before.tables@
    &&& r is Ok <==> !before.has_relation(name)
    &&& r is Ok ==> after.views@.len() == before.views@.len() + 1 && after.views@.last().name@ == name
    &&& r is Err ==> after.views@ == before.views@
}

/// What `DROP VIEW name` did, as `drop_index_done` for views.
pub open spec fn drop_view_done(before: Db, after: Db, name: Seq<char>, if_exists: bool, r: Result<ExecResult>) -> bool {
    &&& after.tables@ == before.tables@
    &&& before.has_view(name) ==> r is Ok && after.views@.len() == before.views@.len() - 1
    &&& !before.has_view(name) ==> after.views@ == before.views@ && (r is Ok <==> if_exists)
}

/// What `CREATE TRIGGER` did: the tables stay; it succeeds exactly when no
/// trigger has the name and the table exists, and then adds that trigger last.
pub open spec fn create_trigger_done(before: Db, after: Db, name: Seq<char>, timing: TriggerTiming, event: TriggerEvent,
    table: Seq<char>, r: Result<ExecResult>) -> bool {
    &&& after.tables@ == before.tables@
    &&& r is Ok <==> !before.has_trigger(name) && before.has_table(table)
    &&& r is Ok ==> after.triggers@.len() == before.triggers@.len() + 1
        && after.triggers@.drop_last() == before.triggers@
        && after.triggers@.last().name@ == name && after.triggers@.last().table@ == table
        && after.triggers@.last().timing == timing && after.triggers@.last().event == event
    &&& r is Err ==> after.triggers@ == before.triggers@
}

/// What `DROP TRIGGER name` did, as `drop_index_done` for triggers.
pub open spec fn drop_trigger_done(before: Db, after: Db, name: Seq<char>, if_exists: bool, r: Result<ExecResult>) -> bool {
    &&& after.tables@ == before.tables@
    &&& before.has_trigger(name) ==> r is Ok && after.triggers@.len() == before.triggers@.len() - 1
    &&& !before.has_trigger(name) ==> after.triggers@ == before.triggers@ && (r is Ok <==> if_exists)
}

/// What `CREATE POLICY name ON table` did: the tables stay; it succeeds
/// exactly when the table exists and has no policy of that name, and then
/// adds that policy last.
pub open spec fn create_policy_done(before: Db, after: Db, name: Seq<char>, table: Seq<char>, r: Result<ExecResult>) -> bool {
    &&& after.tables@ == before.tables@
    &&& r is Ok <==> before.has_table(table) && !before.has_policy(name, table)
    &&& r is Ok ==> after.policies@.len() == before.policies@.len() + 1
        && after.policies@.drop_last() == before.policies@
        && after.policies@.last().name@ == name && after.policies@.last().table@ == table
    &&& r is Err ==> after.policies@ == before.policies@
}

/// What `DROP POLICY name ON table` did, as `drop_index_done` for policies.
pub open spec fn drop_policy_done(before: Db, after: Db, name: Seq<char>, table: Seq<char>, if_exists: bool,
    r: Result<ExecResult>) -> bool {
    &&& after.tables@ == before.tables@
    &&& before.has_policy(name, table) ==> r is Ok && after.policies@.len() == before.policies@.len() - 1
    &&& !before.has_policy(name, table) ==> after.policies@ == before.policies@ && (r is Ok <==> if_exists)
}

/// What `ALTER TABLE table action` did: a missing table fails; a failure
/// leaves the tables; a success changes only the first table of that name,
/// as `altered` says; and, for a table that exists, when each action
/// succeeds.
pub open spec fn alter_table_done(before: Db, after: Db, table: Seq<char>, action: AlterAction, r: Result<ExecResult>) -> bool {
    &&& !before.has_table(table) ==> r is Err
    &&& r is Err ==> after.tables@ == before.tables@
    &&& r is Ok ==> exists|i: int| before.table_at(table, i)
        && after.tables@ == before.tables@.update(i, after.tables@[i])
        && altered(before.tables@[i], after.tables@[i], action)
    &&& table_from(before.tables@, table, 0) matches Some(ti) ==> ({
        let cols = before.tables@[ti].columns@;
        match action {
            AlterAction::AddColumn(d) => d.default is None ==> (r is Ok <==>
                (column_from(cols, d.name@, 0) is None && !d.primary_key && !d.unique && !d.not_null)),
            AlterAction::DropColumn(name) => r is Ok <==>
                (column_from(cols, name@, 0) matches Some(ci) && !cols[ci].primary_key && cols.len() != 1),
            AlterAction::RenameTo(n) => r is Ok <==> !before.has_relation(n@),
            AlterAction::RenameColumn { from, to } => r is Ok <==>
                (column_from(cols, from@, 0) is Some && column_from(cols, to@, 0) is None),
            _ => r is Ok,
        }
    })
}

/// What a statement that changes the schema did, by its kind, as the method
/// that runs it states; true of every other statement, and of the
/// definitions that keep part of the statement (see `definition_done`).
pub open spec fn ddl_done(before: Db, st: Statement, after: Db, r: Result<ExecResult>) -> bool {
    match st {
        Statement::CreateTable { name, if_not_exists, columns, as_query } => match as_query {
            Some(q) => create_table_as_done(before, after, name@, if_not_exists, *q, r),
            None => create_table_done(before, after, name@, if_not_exists, columns@, r),
        },
        Statement::DropTable { name, if_exists } => drop_table_done(before, after, name@, if_exists, r),
        Statement::CreateIndex { name, table, unique, if_not_exists, .. } =>
            create_index_done(before, after, name@, table@, unique, if_not_exists, r),
        Statement::DropIndex { name, if_exists } => drop_index_done(before, after, name@, if_exists, r),
        Statement::DropView { name, if_exists } => drop_view_done(before, after, name@, if_exists, r),
        Statement::DropTrigger { name, if_exists } => drop_trigger_done(before, after, name@, if_exists, r),
        Statement::DropPolicy { name, table, if_exists } => drop_policy_done(before, after, name@, table@, if_exists, r),
        Statement::AlterTable { table, action } => alter_table_done(before, after, table@, action, r),
        _ => true,
    }
}

/// What `CREATE VIEW`, `CREATE TRIGGER` and `CREATE POLICY` did, as the
/// methods that run them state; true of every other statement.
pub open spec fn definition_done(before: Db, st: Statement, after: Db, r: Result<ExecResult>) -> bool {
    match st {
        Statement::CreateView { name, .. } => create_view_done(before, after, name@, r),
        Statement::CreateTrigger { name, timing, event, table, .. } =>
            create_trigger_done(before, after, name@, timing, event, table@, r),
        Statement::CreatePolicy { name, table, .. } => create_policy_done(before, after, name@, table@, r),
        _ => true,
    }
}

/// Statements that change the schema: CREATE, DROP and ALTER of tables,
/// indexes, views, triggers and policies.
pub open spec fn is_schema_change(st: Statement) -> bool {
    st is CreateTable || st is DropTable || st is CreateIndex || st is DropIndex || st is CreateView || st is DropView
        || st is CreateTrigger || st is DropTrigger || st is CreatePolicy || st is DropPolicy || st is AlterTable
}

/// What the schema statements state of a database depends only on its
/// tables, views, indexes, triggers and policies.
pub proof fn lemma_ddl_frame(b1: Db, b2: Db, st: Statement, after: Db, r: Result<ExecResult>)
    requires b1.tables@ == b2.tables@, b1.views@ == b2.views@, b1.indexes@ == b2.indexes@, b1.triggers == b2.triggers,
        b1.policies@ == b2.policies@,
    ensures ddl_done(b1, st, after, r) == ddl_done(b2, st, after, r),
        definition_done(b1, st, after, r) == definition_done(b2, st, after, r),
{
    assert(b1.triggers@ == b2.triggers@);
    assert forall|n: Seq<char>| #[trigger] b1.has_table(n) == b2.has_table(n) by {}
    assert forall|n: Seq<char>| #[trigger] b1.has_relation(n) == b2.has_relation(n) by {}
    assert forall|n: Seq<char>| #[trigger] b1.has_view(n) == b2.has_view(n) by {}
    assert forall|n: Seq<char>| #[trigger] b1.has_index(n) == b2.has_index(n) by {}
    assert forall|n: Seq<char>| #[trigger] b1.has_trigger(n) == b2.has_trigger(n) by {}
    assert forall|n: Seq<char>, t: Seq<char>| #[trigger] b1.has_policy(n, t) == b2.has_policy(n, t) by {}
    assert forall|n: Seq<char>, i: int| #[trigger] b1.table_at(n, i) == b2.table_at(n, i) by {}
    match st {
        Statement::CreateTable { name, if_not_exists, columns, as_query } => {
            assert(create_table_done(b1, after, name@, if_not_exists, columns@, r) == create_table_done(b2, after, name@, if_not_exists, columns@, r));
            if as_query is Some {
                let q = *as_query.unwrap();
                crate::vm::relations::lemma_query_spec_frame(b1, b2, q, MAX_FUEL as nat);
                assert(create_table_as_done(b1, after, name@, if_not_exists, q, r) == create_table_as_done(b2, after, name@, if_not_exists, q, r));
            }
        },
        Statement::DropTable { name, if_exists } => {
            let n = name@;
            if b1.has_table(n) && r is Ok && exists|i: int| b1.table_at(n, i) && after.tables@ == b1.tables@.remove(i) {
                let i = choose|i: int| b1.table_at(n, i) && after.tables@ == b1.tables@.remove(i);
                assert(b2.table_at(n, i) && after.tables@ == b2.tables@.remove(i));
            }
            if b2.has_table(n) && r is Ok && exists|i: int| b2.table_at(n, i) && after.tables@ == b2.tables@.remove(i) {
                let i = choose|i: int| b2.table_at(n, i) && after.tables@ == b2.tables@.remove(i);
                assert(b1.table_at(n, i) && after.tables@ == b1.tables@.remove(i));
            }
            assert(drop_table_done(b1, after, name@, if_exists, r) == drop_table_done(b2, after, name@, if_exists, r));
        },
        Statement::AlterTable { table, action } => {
            let n = table@;
            if exists|i: int| b1.table_at(n, i) && after.tables@ == b1.tables@.update(i, after.tables@[i])
                && altered(b1.tables@[i], after.tables@[i], action) {
                let i = choose|i: int| b1.table_at(n, i) && after.tables@ == b1.tables@.update(i, after.tables@[i])
                    && altered(b1.tables@[i], after.tables@[i], action);
                assert(b2.table_at(n, i) && after.tables@ == b2.tables@.update(i, after.tables@[i]));
            }
            if exists|i: int| b2.table_at(n, i) && after.tables@ == b2.tables@.update(i, after.tables@[i])
                && altered(b2.tables@[i], after.tables@[i], action) {
                let i = choose|i: int| b2.table_at(n, i) && after.tables@ == b2.tables@.update(i, after.tables@[i])
                    && altered(b2.tables@[i], after.tables@[i], action);
                assert(b1.table_at(n, i) && after.tables@ == b1.tables@.update(i, after.tables@[i]));
            }
            assert(alter_table_done(b1, after, table@, action, r) == alter_table_done(b2, after, table@, action, r));
        },
        _ => {},
    }
}

impl Db {
    /// Whether a table or a view has the name.
    pub fn name_taken(&self, name: &Vec<char>) -> (r: bool)
        ensures r == self.has_relation(name@),
    {
        self.table_index(name).is_some() || self.view_index(name).is_some()
    }

    /// `CREATE TABLE name (columns)`: a new empty table after the others.
    pub fn create_table(&mut self, name: &Vec<char>, if_not_exists: bool, defs: &Vec<ColumnDef>) -> (r: Result<ExecResult>)
        requires old(self).wf(),
        ensures final(self).wf(),
            create_table_done(*old(self), *final(self), name@, if_not_exists, defs@, r),
    {
        if self.name_taken(name) {
            if if_not_exists {
                return Ok(message("table already exists"));
            }
            return named_error(ErrorKind::Schema, "table already exists: ", name);
        }
        let mut cols: Vec<ColumnInfo> = Vec::new();
        let mut i: usize = 0;
        while i < defs.len()
            invariant i <= defs@.len(), self.wf(), *self == *old(self), cols@.len() == i, !old(self).has_relation(name@),
                forall|c: int| 0 <= c < i ==> column_of_def(#[trigger] defs@[c], cols@[c]),
            decreases defs.len() - i,
        {
            let c = column_from_def(self, &defs[i])?;
            cols.push(c);
            i += 1;
        }
        proof {
            assert(repeats_name(cols@) == repeats_defined_name(defs@)) by {
                if repeats_name(cols@) {
                    let (a, b) = choose|a: int, b: int| 0 <= a < b < cols@.len() && same_name(#[trigger] cols@[a].name@, #[trigger] cols@[b].name@);
                    assert(same_name(defs@[a].name@, defs@[b].name@));
                }
                if repeats_defined_name(defs@) {
                    let (a, b) = choose|a: int, b: int| 0 <= a < b < defs@.len() && same_name(#[trigger] defs@[a].name@, #[trigger] defs@[b].name@);
                    assert(same_name(cols@[a].name@, cols@[b].name@));
                }
            }
        }
        if has_duplicate_names(&cols) {
            return fail(ErrorKind::Schema, "duplicate column name");
        }
        let t = Table { name: copy_chars(name), columns: cols, rows: Vec::new(), row_security: false };
        assert(t.contents() =~= Map::<int, Seq<crate::types::ValueV>>::empty());
        self.tables.push(t);
        assert(tables_wf(self.tables@)) by {
            assert forall|k: int| 0 <= k < self.tables@.len() implies (#[trigger] self.tables@[k]).wf() by {
                if k < old(self).tables@.len() { assert(old(self).tables@[k].wf()); }
            }
        }
        Ok(message("CREATE TABLE"))
    }

    /// `CREATE TABLE name AS query`: the columns are the query's output columns.
    pub fn create_table_as(&mut self, name: &Vec<char>, if_not_exists: bool, q: &Query) -> (r: Result<ExecResult>)
        requires old(self).wf(),
        ensures final(self).wf(),
            create_table_as_done(*old(self), *final(self), name@, if_not_exists, *q, r),
    {
        if self.name_taken(name) {
            if if_not_exists {
                return Ok(message("table already exists"));
            }
            return named_error(ErrorKind::Schema, "table already exists: ", name);
        }
        let out = exec_query(self, q, None, crate::vm::execute::MAX_FUEL)?;
        let ghost rv = crate::vm::semantics::rows_view(out.rows@);
        let mut cols: Vec<ColumnInfo> = Vec::new();
        let mut i: usize = 0;
        while i < out.names.len()
            invariant i <= out.names@.len(), cols@.len() == i,
                forall|c: int| 0 <= c < i ==> !(#[trigger] cols@[c]).not_null && !cols@[c].is_unique(),
            decreases out.names.len() - i,
        {
            cols.push(ColumnInfo {
                name: copy_chars(&out.names[i]),
                declared_type: Vec::new(),
                primary_key: false,
                is_rowid: false,
                not_null: false,
                unique: false,
                default: None,
                references: None,
            });
            i += 1;
        }
        let ncols = cols.len();
        let mut t = Table { name: copy_chars(name), columns: cols, rows: Vec::new(), row_security: false };
        assert(t.contents() =~= numbered(rv.take(0)));
        let mut r: usize = 0;
        let mut rowid: i64 = 1;
        while r < out.rows.len()
            invariant r <= out.rows@.len(), t.wf(), t.columns@.len() == ncols, 1 <= rowid, self.wf(), t.constraints_hold(),
                *self == *old(self), !old(self).has_relation(name@), t.name@ == name@,
                forall|c: int| 0 <= c < ncols ==> !(#[trigger] t.columns@[c]).not_null && !t.columns@[c].is_unique(),
                forall|k: int| 0 <= k < t.rows@.len() ==> #[trigger] t.rows@[k].rowid < rowid,
                rowid == r + 1, rv == crate::vm::semantics::rows_view(out.rows@),
                t.contents() == numbered(rv.take(r as int)),
            decreases out.rows.len() - r,
        {
            if out.rows[r].len() != ncols {
                return fail(ErrorKind::Type, "query rows do not match its columns");
            }
            if rowid == i64::MAX {
                return fail(ErrorKind::Overflow, "too many rows");
            }
            proof {
                if t.contents().dom().contains(rowid as int) {
                    let k = choose|k: int| 0 <= k < t.rows@.len() && #[trigger] t.rows@[k].rowid == rowid as int;
                }
            }
            let row = copy_row(&out.rows[r]);
            proof {
                let v = crate::storage::table::vals(row@);
                assert(crate::storage::table::fits_not_null(t.columns@, v));
                assert(crate::storage::table::fits_unique(t.columns@, t.contents(), v, None));
                crate::storage::table::lemma_constraints_insert(t.columns@, t.contents(), rowid as int, v);
            }
            let ghost before_c = t.contents();
            let ghost rowv = crate::storage::table::vals(row@);
            t.insert_row(rowid, row);
            proof {
                assert(rowv == rv[r as int]);
                assert(numbered(rv.take(r + 1)) =~= before_c.insert(rowid as int, rowv));
                assert forall|k: int| 0 <= k < t.rows@.len() implies #[trigger] t.rows@[k].rowid < rowid + 1 by {
                    crate::storage::table::lemma_contents_at(&t, k);
                }
            }
            rowid = rowid + 1;
            r += 1;
        }
        assert(rv.take(rv.len() as int) =~= rv);
        self.tables.push(t);
        assert(tables_wf(self.tables@)) by {
            assert forall|k: int| 0 <= k < self.tables@.len() implies (#[trigger] self.tables@[k]).wf() by {
                if k < old(self).tables@.len() { assert(old(self).tables@[k].wf()); }
            }
        }
        Ok(message("CREATE TABLE"))
    }

    /// `DROP TABLE`: also drops the table's indexes, triggers and policies.
    pub fn drop_table(&mut self, name: &Vec<char>, if_exists: bool) -> (r: Result<ExecResult>)
        requires old(self).wf(),
        ensures final(self).wf(),
            drop_table_done(*old(self), *final(self), name@, if_exists, r),
    {
        match self.table_index(name) {
            None => {
                if if_exists { Ok(message("DROP TABLE")) } else { named_error(ErrorKind::Schema, "no such table: ", name) }
            },
            Some(i) => {
                assert(old(self).table_at(name@, i as int));
                self.tables.remove(i);
                let ghost after = self.tables@;
                assert(tables_wf(self.tables@)) by {
                    assert forall|k: int| 0 <= k < self.tables@.len() implies (#[trigger] self.tables@[k]).wf() by {
                        if k < i { assert(old(self).tables@[k].wf()); } else { assert(old(self).tables@[k + 1].wf()); }
                    }
                }
                let mut k: usize = 0;
                while k < self.indexes.len()
                    invariant k <= self.indexes@.len(), self.wf(), self.tables@ == after,
                    decreases self.indexes.len() - k,
                {
                    if chars_eq_ci(&self.indexes[k].table, name) { self.indexes.remove(k); } else { k += 1; }
                }
                let mut k2: usize = 0;
                while k2 < self.triggers.len()
                    invariant k2 <= self.triggers@.len(), self.wf(), self.tables@ == after,
                    decreases self.triggers.len() - k2,
                {
                    if chars_eq_ci(&self.triggers[k2].table, name) { self.triggers.remove(k2); } else { k2 += 1; }
                }
                let mut k3: usize = 0;
                while k3 < self.policies.len()
                    invariant k3 <= self.policies@.len(), self.wf(), self.tables@ == after,
                    decreases self.policies.len() - k3,
                {
                    if chars_eq_ci(&self.policies[k3].table, name) { self.policies.remove(k3); } else { k3 += 1; }
                }
                Ok(message("DROP TABLE"))
            },
        }
    }

    /// Whether existing rows already repeat a value combination of the given columns.
    fn has_duplicates(&self, ti: usize, cols: &Vec<usize>) -> (r: bool)
        requires ti < self.tables@.len(),
        ensures r == exists|a: int, b: int| 0 <= a < b < self.tables@[ti as int].rows@.len()
            && keys_agree(vals(#[trigger] self.tables@[ti as int].rows@[a].values@), vals(#[trigger] self.tables@[ti as int].rows@[b].values@), cols@),
    {
        let t = &self.tables[ti];
        let mut a: usize = 0;
        while a < t.rows.len()
            invariant a <= t.rows@.len(), t == &self.tables[ti as int],
                forall|x: int, y: int| 0 <= x < a && x < y < t.rows@.len() ==>
                    !keys_agree(vals(#[trigger] t.rows@[x].values@), vals(#[trigger] t.rows@[y].values@), cols@),
            decreases t.rows.len() - a,
        {
            let mut b: usize = a + 1;
            while b < t.rows.len()
                invariant a < t.rows@.len(), a + 1 <= b <= t.rows@.len(), t == &self.tables[ti as int],
                    forall|x: int, y: int| 0 <= x < a && x < y < t.rows@.len() ==>
                        !keys_agree(vals(#[trigger] t.rows@[x].values@), vals(#[trigger] t.rows@[y].values@), cols@),
                    forall|y: int| a < y < b ==> !keys_agree(vals(t.rows@[a as int].values@), vals(#[trigger] t.rows@[y].values@), cols@),
                decreases t.rows.len() - b,
            {
                if same_key(&t.rows[a].values, &t.rows[b].values, cols) {
                    return true;
                }
                b += 1;
            }
            a += 1;
        }
        false
    }

    /// `CREATE [UNIQUE] INDEX`.
    pub fn create_index(&mut self, name: &Vec<char>, table: &Vec<char>, columns: &Vec<Vec<char>>, unique: bool, if_not_exists: bool)
        -> (r: Result<ExecResult>)
        requires old(self).wf(),
        ensures final(self).wf(),
            create_index_done(*old(self), *final(self), name@, table@, unique, if_not_exists, r),
    {
        if self.index_index(name).is_some() {
            if if_not_exists {
                return Ok(message("index already exists"));
            }
            return named_error(ErrorKind::Schema, "index already exists: ", name);
        }
        let ti = match self.table_index(table) {
            Some(i) => i,
            None => { return named_error(ErrorKind::Schema, "no such table: ", table); },
        };
        let mut positions: Vec<usize> = Vec::new();
        let mut names: Vec<Vec<char>> = Vec::new();
        let mut i: usize = 0;
        while i < columns.len()
            invariant i <= columns@.len(), ti < self.tables@.len(), self.wf(), *self == *old(self), !old(self).has_index(name@),
            decreases columns.len() - i,
        {
            match column_index(&self.tables[ti], &columns[i]) {
                Some(c) => { positions.push(c); },
                None => { return named_error(ErrorKind::Schema, "no such column: ", &columns[i]); },
            }
            names.push(copy_chars(&columns[i]));
            i += 1;
        }
        if unique && self.has_duplicates(ti, &positions) {
            return fail(ErrorKind::Constraint, "UNIQUE constraint failed: existing rows repeat the indexed values");
        }
        self.indexes.push(IndexDef { name: copy_chars(name), table: copy_chars(&self.tables[ti].name), columns: names, unique });
        assert(self.indexes@.drop_last() =~= old(self).indexes@);
        Ok(message("CREATE INDEX"))
    }

    pub fn drop_index(&mut self, name: &Vec<char>, if_exists: bool) -> (r: Result<ExecResult>)
        requires old(self).wf(),
        ensures final(self).wf(),
            drop_index_done(*old(self), *final(self), name@, if_exists, r),
    {
        match self.index_index(name) {
            Some(i) => {
                self.indexes.remove(i);
                Ok(message("DROP INDEX"))
            },
            None => if if_exists { Ok(message("DROP INDEX")) } else { named_error(ErrorKind::Schema, "no such index: ", name) },
        }
    }

    pub fn create_view(&mut self, name: &Vec<char>, query: Box<Query>) -> (r: Result<ExecResult>)
        requires old(self).wf(),
        ensures final(self).wf(),
            create_view_done(*old(self), *final(self), name@, r),
    {
        if self.name_taken(name) {
            return named_error(ErrorKind::Schema, "view or table already exists: ", name);
        }
        self.views.push(ViewDef { name: copy_chars(name), query });
        Ok(message("CREATE VIEW"))
    }

    pub fn drop_view(&mut self, name: &Vec<char>, if_exists: bool) -> (r: Result<ExecResult>)
        requires old(self).wf(),
        ensures final(self).wf(),
            drop_view_done(*old(self), *final(self), name@, if_exists, r),
    {
        match self.view_index(name) {
            Some(i) => {
                self.views.remove(i);
                Ok(message("DROP VIEW"))
            },
            None => if if_exists { Ok(message("DROP VIEW")) } else { named_error(ErrorKind::Schema, "no such view: ", name) },
        }
    }

    pub fn create_trigger(&mut self, name: &Vec<char>, timing: TriggerTiming, event: TriggerEvent, table: &Vec<char>, body: Vec<Statement>)
        -> (r: Result<ExecResult>)
        requires old(self).wf(),
        ensures final(self).wf(),
            create_trigger_done(*old(self), *final(self), name@, timing, event, table@, r),
    {
        if self.trigger_index(name).is_some() {
            return named_error(ErrorKind::Schema, "trigger already exists: ", name);
        }
        if self.table_index(table).is_none() {
            return named_error(ErrorKind::Schema, "no such table: ", table);
        }
        self.triggers.push(TriggerDef { name: copy_chars(name), timing, event, table: copy_chars(table), body });
        assert(self.triggers@.drop_last() =~= old(self).triggers@);
        Ok(message("CREATE TRIGGER"))
    }

    pub fn drop_trigger(&mut self, name: &Vec<char>, if_exists: bool) -> (r: Result<ExecResult>)
        requires old(self).wf(),
        ensures final(self).wf(),
            drop_trigger_done(*old(self), *final(self), name@, if_exists, r),
    {
        match self.trigger_index(name) {
            Some(i) => {
                self.triggers.remove(i);
                Ok(message("DROP TRIGGER"))
            },
            None => if if_exists { Ok(message("DROP TRIGGER")) } else { named_error(ErrorKind::Schema, "no such trigger: ", name) },
        }
    }

    pub fn create_policy(&mut self, name: &Vec<char>, table: &Vec<char>, using: Expr) -> (r: Result<ExecResult>)
        requires old(self).wf(),
        ensures final(self).wf(),
            create_policy_done(*old(self), *final(self), name@, table@, r),
    {
        if self.table_index(table).is_none() {
            return named_error(ErrorKind::Schema, "no such table: ", table);
        }
        if self.policy_index(name, table).is_some() {
            return named_error(ErrorKind::Schema, "policy already exists: ", name);
        }
        self.policies.push(PolicyDef { name: copy_chars(name), table: copy_chars(table), using });
        assert(self.policies@.drop_last() =~= old(self).policies@);
        Ok(message("CREATE POLICY"))
    }

    pub fn drop_policy(&mut self, name: &Vec<char>, table: &Vec<char>, if_exists: bool) -> (r: Result<ExecResult>)
        requires old(self).wf(),
        ensures final(self).wf(),
            drop_policy_done(*old(self), *final(self), name@, table@, if_exists, r),
    {
        match self.policy_index(name, table) {
            Some(i) => {
                self.policies.remove(i);
                Ok(message("DROP POLICY"))
            },
            None => if if_exists { Ok(message("DROP POLICY")) } else { named_error(ErrorKind::Schema, "no such policy: ", name) },
        }
    }

    /// `ALTER TABLE`.
    pub fn alter_table(&mut self, table: &Vec<char>, action: &AlterAction) -> (r: Result<ExecResult>)
        requires old(self).wf(),
        ensures final(self).wf(),
            alter_table_done(*old(self), *final(self), table@, *action, r),
    {
        let ti = match self.table_index(table) {
            Some(i) => i,
            None => {
                proof { lemma_table_from(self.tables@, table@, 0, None); }
                return named_error(ErrorKind::Schema, "no such table: ", table);
            },
        };
        proof { lemma_table_from(self.tables@, table@, 0, Some(ti as int)); }
        assert(self.tables@[ti as int].wf());
        assert(old(self).table_at(table@, ti as int));
        match action {
            AlterAction::AddColumn(def) => {
                let c = column_from_def(self, def)?;
                let found = column_index(&self.tables[ti], &c.name);
                proof {
                    let fo = match found { Some(i) => Some(i as int), None => None };
                    lemma_column_from(self.tables@[ti as int].columns@, c.name@, 0, fo);
                }
                if found.is_some() {
                    return named_error(ErrorKind::Schema, "duplicate column name: ", &c.name);
                }
                if c.primary_key {
                    return fail(ErrorKind::Schema, "cannot add a PRIMARY KEY column");
                }
                if c.unique {
                    return fail(ErrorKind::Schema, "cannot add a UNIQUE column");
                }
                let fill = match &c.default { Some(v) => copy_value(v), None => Value::Null };
                if c.not_null && is_null(&fill) {
                    return fail(ErrorKind::Schema, "cannot add a NOT NULL column with default value NULL");
                }
                assert(self.tables@[ti as int].constraints_hold());
                let ghost cg = c;
                let old_t = self.tables.remove(ti);
                let t2 = add_column(old_t, c, &fill);
                self.tables.insert(ti, t2);
                proof {
                    lemma_tables_wf_after_replace(old(self).tables@, self.tables@, ti as int);
                    let before = old(self).tables@[ti as int];
                    let after = self.tables@[ti as int];
                    assert(self.tables@ =~= old(self).tables@.update(ti as int, after));
                    assert(after.columns@.drop_last() =~= before.columns@);
                    assert(after.columns@.last() == cg);
                    assert forall|k: int| #[trigger] before.contents().dom().contains(k) implies
                        after.contents()[k].len() == before.contents()[k].len() + 1
                        && after.contents()[k].drop_last() == before.contents()[k]
                        && after.contents()[k].last() == fill@ by {
                        assert(before.contents()[k].push(fill@).drop_last() =~= before.contents()[k]);
                    }
                    assert forall|k1: int, k2: int| #[trigger] before.contents().dom().contains(k1) && #[trigger] before.contents().dom().contains(k2)
                        implies after.contents()[k1].last() == after.contents()[k2].last() by {
                        assert(after.contents()[k1].last() == fill@);
                        assert(after.contents()[k2].last() == fill@);
                    }
                    assert(altered(before, after, *action));
                }
                Ok(message("ALTER TABLE"))
            },
            AlterAction::DropColumn(name) => {
                let found = column_index(&self.tables[ti], name);
                proof {
                    let fo = match found { Some(i) => Some(i as int), None => None };
                    lemma_column_from(self.tables@[ti as int].columns@, name@, 0, fo);
                }
                let ci = match found {
                    Some(c) => c,
                    None => { return named_error(ErrorKind::Schema, "no such column: ", name); },
                };
                if self.tables[ti].columns[ci].primary_key || self.tables[ti].columns.len() == 1 {
                    return fail(ErrorKind::Schema, "cannot drop this column");
                }
                assert(self.tables@[ti as int].constraints_hold());
                let old_t = self.tables.remove(ti);
                let t2 = drop_column(old_t, ci);
                self.tables.insert(ti, t2);
                proof {
                    lemma_tables_wf_after_replace(old(self).tables@, self.tables@, ti as int);
                    let before = old(self).tables@[ti as int];
                    let after = self.tables@[ti as int];
                    assert(self.tables@ =~= old(self).tables@.update(ti as int, after));
                    assert(same_name(before.columns@[ci as int].name@, name@));
                    assert(altered(before, after, *action));
                }
                Ok(message("ALTER TABLE"))
            },
            AlterAction::RenameTo(new_name) => {
                if self.name_taken(new_name) {
                    return named_error(ErrorKind::Schema, "table already exists: ", new_name);
                }
                let old_name = copy_chars(&self.tables[ti].name);
                assert(self.tables@[ti as int].constraints_hold());
                let mut t = self.tables.remove(ti);
                let ghost t0 = t;
                t.name = copy_chars(new_name);
                assert(t.wf());
                assert(t.contents() =~= t0.contents());
                self.tables.insert(ti, t);
                proof {
                    lemma_tables_wf_after_replace(old(self).tables@, self.tables@, ti as int);
                    assert(self.tables@ =~= old(self).tables@.update(ti as int, self.tables@[ti as int]));
                    assert(altered(old(self).tables@[ti as int], self.tables@[ti as int], *action));
                }
                self.rename_references(&old_name, new_name);
                Ok(message("ALTER TABLE"))
            },
            AlterAction::RenameColumn { from, to } => {
                let found = column_index(&self.tables[ti], from);
                proof {
                    let fo = match found { Some(i) => Some(i as int), None => None };
                    lemma_column_from(self.tables@[ti as int].columns@, from@, 0, fo);
                }
                let ci = match found {
                    Some(c) => c,
                    None => { return named_error(ErrorKind::Schema, "no such column: ", from); },
                };
                let found_to = column_index(&self.tables[ti], to);
                proof {
                    let fo = match found_to { Some(i) => Some(i as int), None => None };
                    lemma_column_from(self.tables@[ti as int].columns@, to@, 0, fo);
                }
                if found_to.is_some() {
                    return named_error(ErrorKind::Schema, "duplicate column name: ", to);
                }
                assert(self.tables@[ti as int].constraints_hold());
                let mut t = self.tables.remove(ti);
                let ghost t0 = t;
                let mut c = t.columns.remove(ci);
                c.name = copy_chars(to);
                let ghost cg = c;
                t.columns.insert(ci, c);
                assert(t.wf());
                assert(t.columns@ =~= t0.columns@.update(ci as int, cg));
                proof {
                    assert(t.contents() =~= t0.contents());
                    assert forall|j: int| 0 <= j < t0.columns@.len() implies (#[trigger] t0.columns@[j]).not_null == t.columns@[j].not_null
                        && t0.columns@[j].is_unique() == t.columns@[j].is_unique() by {
                        if j != ci { assert(t.columns@[j] == t0.columns@[j]); }
                    }
                    crate::storage::table::lemma_constraints_same_flags(t0.columns@, t.columns@, t.contents());
                }
                self.tables.insert(ti, t);
                proof {
                    lemma_tables_wf_after_replace(old(self).tables@, self.tables@, ti as int);
                    assert(self.tables@ =~= old(self).tables@.update(ti as int, self.tables@[ti as int]));
                    assert(same_name(t0.columns@[ci as int].name@, from@));
                    assert(altered(old(self).tables@[ti as int], self.tables@[ti as int], *action));
                }
                Ok(message("ALTER TABLE"))
            },
            AlterAction::EnableRowSecurity | AlterAction::DisableRowSecurity => {
                let on = match action { AlterAction::EnableRowSecurity => true, _ => false };
                assert(self.tables@[ti as int].constraints_hold());
                let mut t = self.tables.remove(ti);
                let ghost t0 = t;
                t.row_security = on;
                assert(t.wf());
                assert(t.contents() =~= t0.contents());
                self.tables.insert(ti, t);
                proof {
                    lemma_tables_wf_after_replace(old(self).tables@, self.tables@, ti as int);
                    assert(self.tables@ =~= old(self).tables@.update(ti as int, self.tables@[ti as int]));
                    assert(altered(old(self).tables@[ti as int], self.tables@[ti as int], *action));
                }
                Ok(message("ALTER TABLE"))
            },
        }
    }

    /// Points indexes, triggers and policies of a renamed table at its new name.
    fn rename_references(&mut self, old_name: &Vec<char>, new_name: &Vec<char>)
        ensures final(self).tables@ == old(self).tables@,
            final(self).views@ == old(self).views@, final(self).settings@ == old(self).settings@,
            final(self).seed == old(self).seed, final(self).analyzed@ == old(self).analyzed@,
            final(self).indexes@.len() == old(self).indexes@.len(),
            forall|i: int| 0 <= i < final(self).indexes@.len() ==> {
                let (a, b) = (#[trigger] final(self).indexes@[i], old(self).indexes@[i]);
                a.table@ == renamed(b.table@, old_name@, new_name@) && a.name == b.name && a.columns == b.columns && a.unique == b.unique
            },
            final(self).triggers@.len() == old(self).triggers@.len(),
            forall|i: int| 0 <= i < final(self).triggers@.len() ==> {
                let (a, b) = (#[trigger] final(self).triggers@[i], old(self).triggers@[i]);
                a.table@ == renamed(b.table@, old_name@, new_name@) && a.name == b.name && a.timing == b.timing
                    && a.event == b.event && a.body == b.body
            },
            final(self).policies@.len() == old(self).policies@.len(),
            forall|i: int| 0 <= i < final(self).policies@.len() ==> {
                let (a, b) = (#[trigger] final(self).policies@[i], old(self).policies@[i]);
                a.table@ == renamed(b.table@, old_name@, new_name@) && a.name == b.name && a.using == b.using
            },
    {
        let mut i: usize = 0;
        while i < self.indexes.len()
            invariant i <= self.indexes@.len(), self.tables@ == old(self).tables@,
                self.views@ == old(self).views@, self.settings@ == old(self).settings@,
                self.seed == old(self).seed, self.analyzed@ == old(self).analyzed@,
                self.triggers == old(self).triggers, self.policies == old(self).policies,
                self.indexes@.len() == old(self).indexes@.len(),
                forall|x: int| i <= x < self.indexes@.len() ==> #[trigger] self.indexes@[x] == old(self).indexes@[x],
                forall|x: int| 0 <= x < i ==> {
                    let (a, b) = (#[trigger] self.indexes@[x], old(self).indexes@[x]);
                    a.table@ == renamed(b.table@, old_name@, new_name@) && a.name == b.name && a.columns == b.columns && a.unique == b.unique
                },
            decreases self.indexes.len() - i,
        {
            if chars_eq_ci(&self.indexes[i].table, old_name) {
                let mut d = self.indexes.remove(i);
                d.table = copy_chars(new_name);
                self.indexes.insert(i, d);
            }
            i += 1;
        }
        let mut j: usize = 0;
        while j < self.triggers.len()
            invariant j <= self.triggers@.len(), self.tables@ == old(self).tables@,
                self.views@ == old(self).views@, self.settings@ == old(self).settings@,
                self.seed == old(self).seed, self.analyzed@ == old(self).analyzed@,
                self.policies == old(self).policies,
                self.indexes@.len() == old(self).indexes@.len(),
                forall|x: int| 0 <= x < self.indexes@.len() ==> {
                    let (a, b) = (#[trigger] self.indexes@[x], old(self).indexes@[x]);
                    a.table@ == renamed(b.table@, old_name@, new_name@) && a.name == b.name && a.columns == b.columns && a.unique == b.unique
                },
                self.triggers@.len() == old(self).triggers@.len(),
                forall|x: int| j <= x < self.triggers@.len() ==> #[trigger] self.triggers@[x] == old(self).triggers@[x],
                forall|x: int| 0 <= x < j ==> {
                    let (a, b) = (#[trigger] self.triggers@[x], old(self).triggers@[x]);
                    a.table@ == renamed(b.table@, old_name@, new_name@) && a.name == b.name && a.timing == b.timing
                        && a.event == b.event && a.body == b.body
                },
            decreases self.triggers.len() - j,
        {
            if chars_eq_ci(&self.triggers[j].table, old_name) {
                let mut d = self.triggers.remove(j);
                d.table = copy_chars(new_name);
                self.triggers.insert(j, d);
            }
            j += 1;
        }
        let mut k: usize = 0;
        while k < self.policies.len()
            invariant k <= self.policies@.len(), self.tables@ == old(self).tables@,
                self.views@ == old(self).views@, self.settings@ == old(self).settings@,
                self.seed == old(self).seed, self.analyzed@ == old(self).analyzed@,
                self.indexes@.len() == old(self).indexes@.len(),
                forall|x: int| 0 <= x < self.indexes@.len() ==> {
                    let (a, b) = (#[trigger] self.indexes@[x], old(self).indexes@[x]);
                    a.table@ == renamed(b.table@, old_name@, new_name@) && a.name == b.name && a.columns == b.columns && a.unique == b.unique
                },
                self.triggers@.len() == old(self).triggers@.len(),
                forall|x: int| 0 <= x < self.triggers@.len() ==> {
                    let (a, b) = (#[trigger] self.triggers@[x], old(self).triggers@[x]);
                    a.table@ == renamed(b.table@, old_name@, new_name@) && a.name == b.name && a.timing == b.timing
                        && a.event == b.event && a.body == b.body
                },
                self.policies@.len() == old(self).policies@.len(),
                forall|x: int| k <= x < self.policies@.len() ==> #[trigger] self.policies@[x] == old(self).policies@[x],
                forall|x: int| 0 <= x < k ==> {
                    let (a, b) = (#[trigger] self.policies@[x], old(self).policies@[x]);
                    a.table@ == renamed(b.table@, old_name@, new_name@) && a.name == b.name && a.using == b.using
                },
            decreases self.policies.len() - k,
        {
            if chars_eq_ci(&self.policies[k].table, old_name) {
                let mut d = self.policies.remove(k);
                d.table = copy_chars(new_name);
                self.policies.insert(k, d);
            }
            k += 1;
        }
    }
}

/// Two rows agree, without NULLs, on at least one column and on all the given columns.
pub open spec fn keys_agree(a: Seq<ValueV>, b: Seq<ValueV>, cols: Seq<usize>) -> bool {
    cols.len() > 0 && forall|i: int| 0 <= i < cols.len() ==>
        (#[trigger] cols[i]) < a.len() && cols[i] < b.len() && !(a[cols[i] as int] is Null) && a[cols[i] as int] == b[cols[i] as int]
}

/// Whether two rows agree, without NULLs, on the given columns.
pub fn same_key(a: &Vec<Value>, b: &Vec<Value>, cols: &Vec<usize>) -> (r: bool)
    ensures r == keys_agree(vals(a@), vals(b@), cols@),
{
    if cols.len() == 0 {
        return false;
    }
    let mut i: usize = 0;
    while i < cols.len()
        invariant i <= cols@.len(), cols@.len() > 0,
            forall|k: int| 0 <= k < i ==> (#[trigger] cols@[k]) < a@.len() && cols@[k] < b@.len()
                && !(vals(a@)[cols@[k] as int] is Null) && vals(a@)[cols@[k] as int] == vals(b@)[cols@[k] as int],
        decreases cols.len() - i,
    {
        let c = cols[i];
        if c >= a.len() || c >= b.len() {
            return false;
        }
        assert(vals(a@)[c as int] == a@[c as int]@ && vals(b@)[c as int] == b@[c as int]@);
        if is_null(&a[c]) || is_null(&b[c]) || !values_equal(&a[c], &b[c]) {
            return false;
        }
        i += 1;
    }
    true
}

/// Replacing one well-formed table keeps all tables well formed.
pub proof fn lemma_tables_wf_after_replace(before: Seq<Table>, after: Seq<Table>, i: int)
    requires tables_wf(before), 0 <= i < before.len(), after.len() == before.len(), after[i].wf(),
        after[i].constraints_hold(),
        forall|k: int| 0 <= k < before.len() && k != i ==> after[k] == before[k],
    ensures tables_wf(after),
{
    assert forall|k: int| 0 <= k < after.len() implies (#[trigger] after[k]).wf() && after[k].constraints_hold() by {
        if k != i { assert(before[k].wf() && before[k].constraints_hold()); }
    }
}

/// A table with one more column, filled with `fill` in every row.
fn add_column(t: Table, c: ColumnInfo, fill: &Value) -> (r: Table)
    requires t.wf(), t.constraints_hold(), !c.is_unique(), c.not_null ==> !(fill@ is Null),
    ensures r.wf(), r.constraints_hold(), r.name@ == t.name@, r.columns@ == t.columns@.push(c),
        r.row_security == t.row_security,
        r.contents().dom() == t.contents().dom(),
        forall|k: int| #[trigger] t.contents().dom().contains(k) ==> r.contents()[k] == t.contents()[k].push(fill@),
{
    let ghost t0 = t;
    let ghost c0 = c;
    let Table { name, mut columns, rows, row_security } = t;
    let ghost ncols = columns@.len();
    columns.push(c);
    let mut out: Vec<Row> = Vec::new();
    let mut i: usize = 0;
    while i < rows.len()
        invariant i <= rows@.len(), out@.len() == i, columns@.len() == ncols + 1, rows@ == t0.rows@,
            forall|k: int| 0 <= k < rows@.len() ==> #[trigger] rows@[k].values@.len() == ncols,
            forall|a: int, b: int| 0 <= a < b < rows@.len() ==> #[trigger] rows@[a].rowid < #[trigger] rows@[b].rowid,
            forall|k: int| 0 <= k < i ==> (#[trigger] out@[k]).rowid == rows@[k].rowid && out@[k].values@.len() == ncols + 1
                && vals(out@[k].values@) == vals(rows@[k].values@).push(fill@),
        decreases rows.len() - i,
    {
        let mut vs = copy_row(&rows[i].values);
        vs.push(copy_value(fill));
        assert(vals(vs@) =~= vals(rows@[i as int].values@).push(fill@));
        out.push(Row { rowid: rows[i].rowid, values: vs });
        i += 1;
    }
    let r = Table { name, columns, rows: out, row_security };
    assert(r.wf()) by {
        assert forall|a: int, b: int| 0 <= a < b < r.rows@.len() implies #[trigger] r.rows@[a].rowid < #[trigger] r.rows@[b].rowid by {
            assert(rows@[a].rowid < rows@[b].rowid);
        }
    }
    proof {
        lemma_same_rowids(&t0, &r);
        assert forall|k: int| #[trigger] t0.contents().dom().contains(k) implies r.contents()[k] == t0.contents()[k].push(fill@) by {
            let a = choose|a: int| 0 <= a < t0.rows@.len() && #[trigger] t0.rows@[a].rowid == k;
            lemma_contents_at(&t0, a);
            lemma_contents_at(&r, a);
        }
        lemma_constraints_add_column(t0.columns@, t0.contents(), r.contents(), c0, fill@);
    }
    r
}

/// A table without the column at position `ci`.
fn drop_column(t: Table, ci: usize) -> (r: Table)
    requires t.wf(), t.constraints_hold(), ci < t.columns@.len(),
    ensures r.wf(), r.constraints_hold(), r.name@ == t.name@, r.columns@ == t.columns@.remove(ci as int),
        r.row_security == t.row_security,
        r.contents().dom() == t.contents().dom(),
        forall|k: int| #[trigger] t.contents().dom().contains(k) ==> r.contents()[k] == t.contents()[k].remove(ci as int),
{
    let ghost t0 = t;
    let Table { name, mut columns, rows, row_security } = t;
    let ghost ncols = columns@.len();
    columns.remove(ci);
    let mut out: Vec<Row> = Vec::new();
    let mut i: usize = 0;
    while i < rows.len()
        invariant i <= rows@.len(), out@.len() == i, columns@.len() == ncols - 1, ci < ncols, rows@ == t0.rows@,
            forall|k: int| 0 <= k < rows@.len() ==> #[trigger] rows@[k].values@.len() == ncols,
            forall|a: int, b: int| 0 <= a < b < rows@.len() ==> #[trigger] rows@[a].rowid < #[trigger] rows@[b].rowid,
            forall|k: int| 0 <= k < i ==> (#[trigger] out@[k]).rowid == rows@[k].rowid && out@[k].values@.len() == ncols - 1
                && vals(out@[k].values@) == vals(rows@[k].values@).remove(ci as int),
        decreases rows.len() - i,
    {
        let mut vs = copy_row(&rows[i].values);
        vs.remove(ci);
        assert(vals(vs@) =~= vals(rows@[i as int].values@).remove(ci as int));
        out.push(Row { rowid: rows[i].rowid, values: vs });
        i += 1;
    }
    let r = Table { name, columns, rows: out, row_security };
    assert(r.wf()) by {
        assert forall|a: int, b: int| 0 <= a < b < r.rows@.len() implies #[trigger] r.rows@[a].rowid < #[trigger] r.rows@[b].rowid by {
            assert(rows@[a].rowid < rows@[b].rowid);
        }
    }
    proof {
        lemma_same_rowids(&t0, &r);
        assert forall|k: int| #[trigger] t0.contents().dom().contains(k) implies r.contents()[k] == t0.contents()[k].remove(ci as int) by {
            let a = choose|a: int| 0 <= a < t0.rows@.len() && #[trigger] t0.rows@[a].rowid == k;
            lemma_contents_at(&t0, a);
            lemma_contents_at(&r, a);
        }
        assert forall|k: int| #[trigger] t0.contents().dom().contains(k) implies t0.contents()[k].len() == t0.columns@.len() by {
            let a = choose|a: int| 0 <= a < t0.rows@.len() && #[trigger] t0.rows@[a].rowid == k;
            lemma_contents_at(&t0, a);
        }
        lemma_constraints_drop_column(t0.columns@, t0.contents(), r.contents(), ci as int);
    }
    r
}

/// Two tables whose rows carry the same rowids, position by position, have the same keys.
proof fn lemma_same_rowids(a: &Table, b: &Table)
    requires a.rows@.len() == b.rows@.len(),
        forall|k: int| 0 <= k < a.rows@.len() ==> (#[trigger] a.rows@[k]).rowid == b.rows@[k].rowid,
    ensures a.contents().dom() == b.contents().dom(),
{
    assert forall|k: int| #[trigger] a.contents().dom().contains(k) <==> b.contents().dom().contains(k) by {
        if a.has_rowid(k) {
            let i = choose|i: int| 0 <= i < a.rows@.len() && #[trigger] a.rows@[i].rowid == k;
            assert(b.rows@[i].rowid == k);
        }
        if b.has_rowid(k) {
            let i = choose|i: int| 0 <= i < b.rows@.len() && #[trigger] b.rows@[i].rowid == k;
            assert(a.rows@[i].rowid == k);
        }
    }
    assert(a.contents().dom() =~= b.contents().dom());
}

} // verus!
