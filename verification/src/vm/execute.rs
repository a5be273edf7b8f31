//! The virtual machine: statement results, transactions and the entry point
//! that runs SQL text.

use vstd::prelude::*;
use crate::types::{Value, ValueV, str_chars, chars_to_string, copy_chars, arc_chars};
use crate::text::chars_eq_ci;
use crate::storage::table::Table;
use crate::sql::ast::{Statement, BinaryOperator, InsertSource};
use crate::sql::parser::{parse_sql, whole_statement, stmt_gives, starts_statement, statement_at};
use crate::sql::lexer::{Token, TokV, toks_view};
use crate::sql::lexer::lex_from;
use crate::error::{KkdbError, ErrorKind, Result};
use crate::vm::db::{Db, tables_wf, tables_view, copy_tables, same_name, empty_db, same_contents, TableModel};
use crate::vm::query::{Output, set_query};
use crate::vm::semantics::{scan_result, rows_view};
use crate::vm::relations::{query_spec, ordered_query, stable_order, pick_rows, page_spec, lemma_query_spec_frame,
    lemma_ordered_query_frame};
use crate::sql::ast::Query;
use crate::vm::dml::{plain_insert, values_inserted, plain_delete, decided_in, rows_deleted, plain_update, update_decided, rows_updated};
use crate::vm::eval::{binary_op, flip_comparison, binop_spec, flip_spec};
use crate::vm::ddl::{ddl_done, definition_done, is_schema_change, lemma_ddl_frame};
use crate::vm::dml::{insert_owed, lemma_insert_owed_frame, plain_stmt_done};

verus! {

/// Evaluation budget of one statement: every nested expression or query spends one unit.
pub const MAX_FUEL: u32 = 1000;

/// How deeply triggers may fire other triggers.
pub const TRIGGER_DEPTH: u32 = 16;

/// What a statement returns.
#[derive(Debug)]
pub enum ExecResult {
    /// Rows of a query (or of a `RETURNING` clause) with the names of their columns.
    QueryResult { columns: Vec<String>, rows: Vec<Vec<Value>> },
    /// A statement that returns no rows.
    Message { message: String },
    /// A description of how a statement runs.
    Explain { plan: String },
}

/// A result without rows.
pub fn message(m: &str) -> (r: ExecResult)
    ensures r matches ExecResult::Message { message } && message@ == m@,
{
    ExecResult::Message { message: m.to_owned() }
}

/// A result without rows whose message is given as characters.
pub fn message_chars(m: &Vec<char>) -> (r: ExecResult)
    ensures r matches ExecResult::Message { message } && message@ == m@,
{
    ExecResult::Message { message: chars_to_string(m) }
}

/// The result of a query.
/// The text of each column name.
pub open spec fn strings_view(s: Seq<String>) -> Seq<Seq<char>> {
    s.map_values(|c: String| c@)
}

/// What running query `q` on `db` is known to give: for a select without
/// ORDER BY, the column names and rows of `query_spec`; with ORDER BY, the
/// rows of `ordered_query` stably sorted by their keys, then paged; for a
/// set operation without ORDER BY, the paged rows of `set_query`; an error
/// where those give one.
pub open spec fn answers_query(db: Db, q: Query, r: Result<ExecResult>) -> bool {
    &&& match query_spec(db, q, MAX_FUEL as nat) {
        Some(Some(nr)) => match r {
            Ok(ExecResult::QueryResult { columns, rows }) => strings_view(columns@) == nr.0 && rows_view(rows@) == nr.1,
            _ => false,
        },
        Some(None) => r is Err,
        None => true,
    }
    &&& q.order_by@.len() == 0 || match ordered_query(db, q, MAX_FUEL as nat) {
        Some(Some(x)) => match r {
            Ok(ExecResult::QueryResult { columns, rows }) => strings_view(columns@) == x.0
                && exists|idx: Seq<usize>| stable_order(idx, x.2, q.order_by@) && rows_view(rows@) == page_spec(pick_rows(x.1, idx), x.3, x.4),
            _ => false,
        },
        Some(None) => r is Err,
        None => true,
    }
    &&& match set_query(db, q, MAX_FUEL as nat) {
        Some(Some(rows)) => match r {
            Ok(ExecResult::QueryResult { rows: out, .. }) => rows_view(out@) == rows,
            _ => false,
        },
        Some(None) => r is Err,
        None => true,
    }
}

pub fn query_result(out: Output) -> (r: ExecResult)
    ensures r matches ExecResult::QueryResult { columns, rows } && rows@ == out.rows@
        && columns@.len() == out.names@.len()
        && forall|i: int| 0 <= i < columns@.len() ==> (#[trigger] columns@[i])@ == out.names@[i]@,
{
    let mut columns: Vec<String> = Vec::new();
    let mut i: usize = 0;
    while i < out.names.len()
        invariant i <= out.names@.len(), columns@.len() == i,
            forall|k: int| 0 <= k < i ==> (#[trigger] columns@[k])@ == out.names@[k]@,
        decreases out.names.len() - i,
    {
        columns.push(chars_to_string(&out.names[i]));
        i += 1;
    }
    ExecResult::QueryResult { columns, rows: out.rows }
}

/// The model of the tables a database holds: each table's name and contents.
pub open spec fn tables_model(ts: Seq<Table>) -> Seq<TableModel> {
    tables_view(ts)
}

/// Statements that control transactions.
pub open spec fn is_transaction_control(st: Statement) -> bool {
    st is Begin || st is Commit || st is Rollback || st is Savepoint || st is Release || st is RollbackTo
}

/// Statements that only read.
pub open spec fn is_read_only(st: Statement) -> bool {
    st is Query || st is Explain || st is ShowTables || st is ShowEngineStatus
}

/// The eight big-endian bytes of an integer moved up by 2^63, so that byte
/// order follows numeric order.
pub open spec fn int_key_bytes(x: int) -> Seq<u8> {
    let u = x + 0x8000_0000_0000_0000;
    seq![
        ((u / 0x100_0000_0000_0000) % 256) as u8, ((u / 0x1_0000_0000_0000) % 256) as u8,
        ((u / 0x100_0000_0000) % 256) as u8, ((u / 0x1_0000_0000) % 256) as u8,
        ((u / 0x100_0000) % 256) as u8, ((u / 0x1_0000) % 256) as u8,
        ((u / 0x100) % 256) as u8, (u % 256) as u8,
    ]
}

/// The four big-endian bytes of a character's code point.
pub open spec fn char_key_bytes(c: char) -> Seq<u8> {
    let u = (c as u32) as int;
    seq![((u / 0x100_0000) % 256) as u8, ((u / 0x1_0000) % 256) as u8, ((u / 0x100) % 256) as u8, (u % 256) as u8]
}

/// The code points of a text, four bytes each.
pub open spec fn chars_key_bytes(s: Seq<char>) -> Seq<u8>
    decreases s.len(),
{
    if s.len() == 0 { Seq::empty() } else { chars_key_bytes(s.drop_last()) + char_key_bytes(s.last()) }
}

/// The equality key of a value: a tag byte for its class, then its contents.
pub open spec fn eq_key_spec(v: ValueV) -> Seq<u8> {
    match v {
        ValueV::Null => seq![0x5Au8],
        ValueV::Int(i) => seq![0x4Eu8] + int_key_bytes(i),
        ValueV::Text(s) => seq![0x54u8] + chars_key_bytes(s),
        ValueV::Blob(b) => seq![0x42u8] + b,
    }
}

/// A database together with its open transaction and savepoints.
pub struct VM {
    pub db: Db,
    /// The tables as they were at `BEGIN`, while a transaction is open.
    pub snapshot: Option<Vec<Table>>,
    /// Named savepoints, oldest first, with the tables as they were when each was set.
    pub savepoints: Vec<(Vec<char>, Vec<Table>)>,
}

/// `BEGIN` saved the tables and left them as they were.
pub open spec fn begin_done(before: VM, after: VM) -> bool {
    after.snapshot_model() == Some(before.model()) && after.model() == before.model()
}

/// `COMMIT` closed the transaction and kept the tables.
pub open spec fn commit_done(before: VM, after: VM) -> bool {
    after.snapshot is None && after.savepoints@.len() == 0 && after.model() == before.model()
}

/// `ROLLBACK` closed the transaction and put back the tables saved at `BEGIN`.
pub open spec fn rollback_done(before: VM, after: VM) -> bool {
    &&& after.snapshot is None
    &&& after.savepoints@.len() == 0
    &&& after.model() == (match before.snapshot_model() { Some(m) => m, None => before.model() })
}

/// `SAVEPOINT name` saved the tables under the name, as the newest savepoint.
pub open spec fn savepoint_done(before: VM, after: VM, name: Seq<char>) -> bool {
    after.savepoint_models() == before.savepoint_models().push((name, before.model())) && after.model() == before.model()
}

/// Whether a savepoint of that name is set.
pub open spec fn has_savepoint(vm: VM, name: Seq<char>) -> bool {
    exists|i: int| 0 <= i < vm.savepoints@.len() && same_name(#[trigger] vm.savepoints@[i].0@, name)
}

/// `ROLLBACK TO name` put back the tables saved by the newest savepoint of
/// that name and dropped the savepoints set after it.
pub open spec fn rollback_to_done(before: VM, after: VM, name: Seq<char>) -> bool {
    exists|i: int| 0 <= i < before.savepoints@.len() && same_name(#[trigger] before.savepoints@[i].0@, name)
        && (forall|j: int| i < j < before.savepoints@.len() ==> !same_name(#[trigger] before.savepoints@[j].0@, name))
        && after.model() == before.savepoint_models()[i].1
        && after.savepoint_models() == before.savepoint_models().take(i + 1)
}

/// `RELEASE name` dropped the newest savepoint of that name and those set
/// after it, keeping the tables, the open transaction and the older savepoints.
pub open spec fn release_done(before: VM, after: VM, name: Seq<char>) -> bool {
    exists|i: int| 0 <= i < before.savepoints@.len() && same_name(#[trigger] before.savepoints@[i].0@, name)
        && (forall|j: int| i < j < before.savepoints@.len() ==> !same_name(#[trigger] before.savepoints@[j].0@, name))
        && after.model() == before.model()
        && after.snapshot_model() == before.snapshot_model()
        && after.savepoint_models() == before.savepoint_models().take(i)
}

/// A statement kept the open transaction and the savepoints as they were.
pub open spec fn keeps_transaction(before: VM, after: VM) -> bool {
    after.snapshot_model() == before.snapshot_model() && after.savepoint_models() == before.savepoint_models()
}

/// What running statement `st` on `before` did, ending in `after` with
/// result `r`: a failure leaves the tables; a statement that only reads
/// leaves them; transaction control does what BEGIN, COMMIT, ROLLBACK,
/// SAVEPOINT and ROLLBACK TO say; a query answers as `answers_query` says;
/// INSERT, DELETE and UPDATE change the rows as their laws say; and a schema
/// statement does what its method states.
pub open spec fn executes(before: VM, st: Statement, after: VM, r: Result<ExecResult>) -> bool {
    &&& (r is Err ==> after.model() == before.model())
    &&& (is_read_only(st) ==> after.model() == before.model())
    &&& (!is_transaction_control(st) ==> keeps_transaction(before, after))
    &&& (st is Begin ==> (r is Ok <==> before.snapshot is None))
    &&& (st is Begin && r is Ok ==> begin_done(before, after))
    &&& (st is Commit ==> r is Ok && commit_done(before, after))
    &&& (st is Rollback ==> r is Ok && rollback_done(before, after))
    &&& (st matches Statement::Savepoint(name) ==> r is Ok && savepoint_done(before, after, name@))
    &&& (st matches Statement::RollbackTo(name) ==> (r is Ok <==> has_savepoint(before, name@)))
    &&& (st matches Statement::RollbackTo(name) ==> r is Ok ==> rollback_to_done(before, after, name@))
    &&& (st matches Statement::Release(name) ==> (r is Ok <==> has_savepoint(before, name@)))
    &&& (st matches Statement::Release(name) ==> r is Ok ==> release_done(before, after, name@))
    &&& (st matches Statement::Query(q) ==> (scan_result(before.db.tables@, *q, MAX_FUEL as nat) matches Some(rows) ==>
        (r matches Ok(ExecResult::QueryResult { rows: out, .. }) && rows_view(out@) == rows)))
    &&& (st matches Statement::Query(q) ==> answers_query(before.db, *q, r))
    &&& (st matches Statement::Insert { table, columns, source, conflict, on_conflict, .. } ==>
        ((columns is None && plain_insert(before.db, table@, conflict, on_conflict)) ==>
        (source matches InsertSource::Values(rows) ==> (r is Ok ==> values_inserted(before.db, after.db, table@, rows@)))))
    &&& (st matches Statement::Delete { table, where_clause, returning } ==>
        ((plain_delete(before.db, table@) && decided_in(before.db, table@, where_clause)) ==>
        (returning is None ==> r is Ok) && (r is Ok ==> rows_deleted(before.db, after.db, table@, where_clause))))
    &&& (st matches Statement::Update { table, assignments, where_clause, .. } ==>
        ((plain_update(before.db, table@) && update_decided(before.db, table@, assignments@, where_clause)) ==>
        (r is Ok ==> rows_updated(before.db, after.db, table@, assignments@, where_clause))))
    &&& insert_owed(before.db, st, r)
    &&& plain_stmt_done(before.db, st, after.db, r)
    &&& (is_schema_change(st) ==> exists|mid: Db| ddl_done(before.db, st, mid, r) && definition_done(before.db, st, mid, r)
        && (r is Ok ==> after.db == mid))
}

/// What running SQL text did: text that does not split into tokens, or does
/// not start with a statement's keyword, fails with a Parse error and changes
/// nothing; text that is one statement whose form `stmt_end` covers does what
/// `executes` says of that statement; any other text either fails with a
/// Parse error and changes nothing, or does what `executes` says of a
/// statement of the kind its first keyword names.
pub open spec fn runs_text(before: VM, sql: Seq<char>, after: VM, r: Result<ExecResult>) -> bool {
    match lex_from(sql, 0, Seq::empty()) {
        None => (r matches Err(e) && e.kind == ErrorKind::Parse) && after == before,
        Some(ts) => (whole_statement(ts) ==> exists|st: Statement| #[trigger] stmt_gives(ts, 0, st)
            && executes(before, st, after, r))
            && (!starts_statement(ts, 0) ==> (r matches Err(e) && e.kind == ErrorKind::Parse) && after == before)
            && (((r matches Err(e) && e.kind == ErrorKind::Parse) && after == before)
                || exists|st: Statement| #[trigger] text_statement(ts, st) && executes(before, st, after, r)),
    }
}

/// What the parser states of a statement it reads from the tokens: the
/// statement that its first keyword names, as `statement_at` says.
pub open spec fn text_statement(ts: Seq<TokV>, st: Statement) -> bool {
    exists|toks: Seq<Token>| toks_view(toks) == ts && #[trigger] statement_at(toks, 0, Ok::<Statement, Vec<char>>(st))
}

impl VM {
    pub open spec fn wf(&self) -> bool {
        &&& self.db.wf()
        &&& (self.snapshot matches Some(s) ==> tables_wf(s@))
        &&& forall|i: int| 0 <= i < self.savepoints@.len() ==> tables_wf((#[trigger] self.savepoints@[i]).1@)
    }

    /// The model of the current tables.
    pub open spec fn model(&self) -> Seq<TableModel> {
        tables_view(self.db.tables@)
    }

    /// The model of the tables saved at `BEGIN`, while a transaction is open.
    pub open spec fn snapshot_model(&self) -> Option<Seq<TableModel>> {
        match self.snapshot {
            Some(s) => Some(tables_view(s@)),
            None => None,
        }
    }

    /// The names and table models of the savepoints.
    pub open spec fn savepoint_models(&self) -> Seq<(Seq<char>, Seq<TableModel>)> {
        self.savepoints@.map_values(|s: (Vec<char>, Vec<Table>)| (s.0@, tables_view(s.1@)))
    }

    /// An empty database held in memory.
    pub fn new_memory() -> (r: VM)
        ensures r.wf(), r.db.tables@.len() == 0, r.snapshot is None, r.savepoints@.len() == 0, empty_db(r.db),
    {
        VM { db: Db::new(), snapshot: None, savepoints: Vec::new() }
    }

    /// Parses and runs one SQL statement.
    pub fn execute_sql(&mut self, sql: &str) -> (r: Result<ExecResult>)
        requires old(self).wf(),
        ensures final(self).wf(),
            r is Err ==> final(self).model() == old(self).model(),
            runs_text(*old(self), sql@, *final(self), r),
    {
        let text = str_chars(sql);
        match parse_sql(&text) {
            Err(msg) => Err(KkdbError::from_chars(ErrorKind::Parse, &msg)),
            Ok(st) => {
                let ghost st0 = st;
                let r = self.execute(st);
                proof {
                    if lex_from(sql@, 0, Seq::empty()) is Some {
                        let ts = lex_from(sql@, 0, Seq::empty()).unwrap();
                        assert(text_statement(ts, st0));
                    }
                }
                r
            },
        }
    }

    /// Runs one parsed statement. A statement that fails leaves the tables as
    /// they were.
    #[verifier::rlimit(100)]
    pub fn execute(&mut self, st: Statement) -> (r: Result<ExecResult>)
        requires old(self).wf(),
        ensures final(self).wf(),
            executes(*old(self), st, *final(self), r),
    {
        self.db.next_random();
        proof {
            crate::vm::dml::lemma_fires_same_triggers(self.db, old(self).db);
            match &st {
                Statement::Query(q) => {
                    lemma_query_spec_frame(self.db, old(self).db, **q, MAX_FUEL as nat);
                    crate::vm::query::lemma_set_expr_rows_frame(self.db, old(self).db, q.body, MAX_FUEL as nat);
                    lemma_ordered_query_frame(self.db, old(self).db, **q, MAX_FUEL as nat);
                },
                _ => {},
            }
        }
        match &st {
            Statement::Begin => {
                if self.snapshot.is_some() {
                    return Err(KkdbError::new(ErrorKind::Transaction, "cannot start a transaction within a transaction"));
                }
                self.snapshot = Some(copy_tables(&self.db.tables));
                Ok(message("BEGIN"))
            },
            Statement::Commit => {
                self.snapshot = None;
                self.savepoints = Vec::new();
                assert(self.savepoint_models() =~= Seq::empty());
                Ok(message("COMMIT"))
            },
            Statement::Rollback => {
                let snap = self.snapshot.take();
                match snap {
                    Some(s) => { self.db.tables = s; },
                    None => {},
                }
                self.savepoints = Vec::new();
                Ok(message("ROLLBACK"))
            },
            Statement::Savepoint(name) => {
                let copy = copy_tables(&self.db.tables);
                let ghost before = self.savepoint_models();
                self.savepoints.push((copy_chars(name), copy));
                assert(self.savepoint_models() =~= before.push((name@, old(self).model())));
                Ok(message("SAVEPOINT"))
            },
            Statement::Release(name) => {
                match self.find_savepoint(name) {
                    Some(i) => {
                        self.savepoints.truncate(i);
                        assert(self.savepoint_models() =~= old(self).savepoint_models().take(i as int));
                        Ok(message("RELEASE"))
                    },
                    None => Err(KkdbError::new(ErrorKind::Transaction, "no such savepoint")),
                }
            },
            Statement::RollbackTo(name) => {
                match self.find_savepoint(name) {
                    Some(i) => {
                        let n = self.savepoints.len();
                        assert(i < n);
                        self.savepoints.truncate(i + 1);
                        let restored = copy_tables(&self.savepoints[i].1);
                        self.db.tables = restored;
                        assert(self.savepoint_models() =~= old(self).savepoint_models().take(i + 1));
                        Ok(message("ROLLBACK"))
                    },
                    None => Err(KkdbError::new(ErrorKind::Transaction, "no such savepoint")),
                }
            },
            _ => {
                if is_read_only_statement(&st) {
                    let ghost b0 = self.db;
                    let ghost st1 = st;
                    let res = self.db.execute_owned(st, TRIGGER_DEPTH);
                    proof {
                        assert(same_contents(b0, old(self).db) ==> (plain_stmt_done(b0, st1, self.db, res)
                            ==> plain_stmt_done(old(self).db, st1, self.db, res)));
                    }
                    res
                } else {
                    let before = copy_tables(&self.db.tables);
                    let ghost b1 = self.db;
                    let ghost st0 = st;
                    let res = self.db.execute_owned(st, TRIGGER_DEPTH);
                    let ghost mid = self.db;
                    proof {
                        lemma_ddl_frame(b1, old(self).db, st0, mid, res);
                        lemma_insert_owed_frame(b1, old(self).db, st0, res);
                        assert(plain_stmt_done(old(self).db, st0, mid, res));
                        assert(ddl_done(old(self).db, st0, mid, res) && definition_done(old(self).db, st0, mid, res));
                    }
                    match res {
                        Ok(res) => Ok(res),
                        Err(e) => {
                            self.db.tables = before;
                            Err(e)
                        },
                    }
                }
            },
        }
    }

    /// Position of the latest savepoint with the given name (case-insensitive).
    fn find_savepoint(&self, name: &Vec<char>) -> (r: Option<usize>)
        ensures
            r matches Some(i) ==> i < self.savepoints@.len() && same_name(self.savepoints@[i as int].0@, name@)
                && forall|j: int| i < j < self.savepoints@.len() ==> !same_name(#[trigger] self.savepoints@[j].0@, name@),
            r is None ==> forall|i: int| 0 <= i < self.savepoints@.len() ==> !same_name(#[trigger] self.savepoints@[i].0@, name@),
    {
        let mut i: usize = self.savepoints.len();
        while i > 0
            invariant i <= self.savepoints@.len(),
                forall|k: int| i <= k < self.savepoints@.len() ==> !same_name(#[trigger] self.savepoints@[k].0@, name@),
            decreases i,
        {
            if chars_eq_ci(&self.savepoints[i - 1].0, name) {
                return Some(i - 1);
            }
            i -= 1;
        }
        None
    }

    /// The key under which an index groups equal values: `N` and the
    /// integer's bytes, `T` and the text's code points, `B` and the blob's
    /// bytes, or `Z` alone for NULL.
    pub fn index_eq_key(v: &Value) -> (r: Vec<u8>)
        ensures r@ == eq_key_spec(v@),
    {
        let mut out: Vec<u8> = Vec::new();
        match v {
            Value::Null => { out.push(0x5Au8); },
            Value::Integer(x) => {
                out.push(0x4Eu8);
                let x = *x;
                let u: u64 = if x >= 0 { (x as u64) + 0x8000_0000_0000_0000u64 } else { (x - i64::MIN) as u64 };
                assert(u as int == x as int + 0x8000_0000_0000_0000);
                out.push(((u / 0x100_0000_0000_0000u64) % 256) as u8);
                out.push(((u / 0x1_0000_0000_0000u64) % 256) as u8);
                out.push(((u / 0x100_0000_0000u64) % 256) as u8);
                out.push(((u / 0x1_0000_0000u64) % 256) as u8);
                out.push(((u / 0x100_0000u64) % 256) as u8);
                out.push(((u / 0x1_0000u64) % 256) as u8);
                out.push(((u / 0x100u64) % 256) as u8);
                out.push((u % 256) as u8);
                assert(out@ =~= seq![0x4Eu8] + int_key_bytes(x as int));
            },
            Value::Text(t) => {
                out.push(0x54u8);
                let cs = arc_chars(t);
                let mut i: usize = 0;
                while i < cs.len()
                    invariant i <= cs@.len(), out@ == seq![0x54u8] + chars_key_bytes(cs@.take(i as int)),
                    decreases cs.len() - i,
                {
                    let ghost prev = out@;
                    let c = cs[i];
                    let u: u32 = c as u32;
                    out.push(((u / 0x100_0000u32) % 256) as u8);
                    out.push(((u / 0x1_0000u32) % 256) as u8);
                    out.push(((u / 0x100u32) % 256) as u8);
                    out.push((u % 256) as u8);
                    proof {
                        let t2 = cs@.take(i + 1);
                        assert(t2.drop_last() =~= cs@.take(i as int));
                        assert(t2.last() == c);
                        assert(chars_key_bytes(t2) == chars_key_bytes(cs@.take(i as int)) + char_key_bytes(c));
                        assert(out@ =~= prev + char_key_bytes(c));
                    }
                    i += 1;
                }
                assert(cs@.take(cs@.len() as int) =~= cs@);
            },
            Value::Blob(b) => {
                out.push(0x42u8);
                let mut i: usize = 0;
                while i < b.len()
                    invariant i <= b@.len(), out@ == seq![0x42u8] + b@.take(i as int),
                    decreases b.len() - i,
                {
                    out.push(b[i]);
                    i += 1;
                    assert(out@ =~= seq![0x42u8] + b@.take(i as int));
                }
                assert(b@.take(b@.len() as int) =~= b@);
            },
        }
        out
    }

    /// Applies a binary operator to two values, as expressions do.
    pub fn apply_binary_op(&self, op: &BinaryOperator, a: &Value, b: &Value) -> (r: Result<Value>)
        ensures
            binop_spec(*op, a@, b@) matches Some(v) ==> r matches Ok(x) && x@ == v,
            binop_spec(*op, a@, b@) is None ==> r is Err,
    {
        binary_op(*op, a, b)
    }

    /// The comparison that holds with its operands swapped, if `op` is a comparison.
    pub fn flip_comparison_operator(op: &BinaryOperator) -> (r: Option<BinaryOperator>)
        ensures r == flip_spec(*op),
    {
        flip_comparison(op)
    }
}

/// Whether a statement only reads.
fn is_read_only_statement(st: &Statement) -> (r: bool)
    ensures r == is_read_only(*st),
{
    match st {
        Statement::Query(_) | Statement::Explain { .. } | Statement::ShowTables | Statement::ShowEngineStatus => true,
        _ => false,
    }
}

/// Between the two ends of a run of statements that each keep the
/// transaction, the saved tables stay the ones `BEGIN` saved.
proof fn lemma_snapshot_kept(states: Seq<VM>, k: int)
    requires
        states.len() >= 3, 1 <= k <= states.len() - 2,
        begin_done(states[0], states[1]),
        forall|j: int| 1 <= j < states.len() - 2 ==> keeps_transaction(#[trigger] states[j], states[j + 1]),
    ensures states[k].snapshot_model() == Some(states[0].model()),
    decreases k,
{
    if k > 1 {
        lemma_snapshot_kept(states, k - 1);
        assert(keeps_transaction(states[k - 1], states[k]));
    }
}

/// Whatever statements other than transaction control run between `BEGIN`
/// and `ROLLBACK`, `ROLLBACK` gives back the tables as they were before `BEGIN`.
pub proof fn law_rollback_undoes_transaction(states: Seq<VM>)
    requires
        states.len() >= 3,
        begin_done(states[0], states[1]),
        forall|j: int| 1 <= j < states.len() - 2 ==> keeps_transaction(#[trigger] states[j], states[j + 1]),
        rollback_done(states[states.len() - 2], states[states.len() - 1]),
    ensures states[states.len() - 1].model() == states[0].model(),
{
    lemma_snapshot_kept(states, states.len() - 2);
}

/// Between the two ends of a run of statements that each keep the
/// transaction, the savepoints stay the ones `SAVEPOINT` left.
proof fn lemma_savepoints_kept(name: Seq<char>, states: Seq<VM>, k: int)
    requires
        states.len() >= 3, 1 <= k <= states.len() - 2,
        savepoint_done(states[0], states[1], name),
        forall|j: int| 1 <= j < states.len() - 2 ==> keeps_transaction(#[trigger] states[j], states[j + 1]),
    ensures states[k].savepoint_models() == states[0].savepoint_models().push((name, states[0].model())),
    decreases k,
{
    if k > 1 {
        lemma_savepoints_kept(name, states, k - 1);
        assert(keeps_transaction(states[k - 1], states[k]));
    }
}

/// After `SAVEPOINT name`, whatever statements other than transaction control
/// run, `ROLLBACK TO name` gives back the tables as they were at the savepoint.
pub proof fn law_rollback_to_savepoint(name: Seq<char>, states: Seq<VM>)
    requires
        states.len() >= 3,
        savepoint_done(states[0], states[1], name),
        forall|j: int| 1 <= j < states.len() - 2 ==> keeps_transaction(#[trigger] states[j], states[j + 1]),
        rollback_to_done(states[states.len() - 2], states[states.len() - 1], name),
    ensures states[states.len() - 1].model() == states[0].model(),
{
    let n = states.len();
    lemma_savepoints_kept(name, states, n - 2);
    let before = states[n - 2];
    let models = before.savepoint_models();
    let last = before.savepoints@.len() - 1;
    assert(models.len() == before.savepoints@.len());
    assert(models[last] == (name, states[0].model()));
    assert(before.savepoints@[last].0@ == name);
    let i = choose|i: int| 0 <= i < before.savepoints@.len() && same_name(#[trigger] before.savepoints@[i].0@, name)
        && (forall|j: int| i < j < before.savepoints@.len() ==> !same_name(#[trigger] before.savepoints@[j].0@, name))
        && states[n - 1].model() == models[i].1
        && states[n - 1].savepoint_models() == models.take(i + 1);
    if i < last {
        assert(!same_name(before.savepoints@[last].0@, name));
    }
}

/// `ROLLBACK TO` a savepoint older than one that `RELEASE` dropped still
/// works, and gives back the tables saved at that older savepoint: releasing
/// a savepoint keeps the work done since it inside the enclosing one.
pub proof fn law_rollback_to_after_release(s0: VM, s1: VM, s2: VM, released: Seq<char>, target: Seq<char>)
    requires release_done(s0, s1, released), rollback_to_done(s1, s2, target),
    ensures exists|j: int| 0 <= j < s0.savepoints@.len() && same_name(#[trigger] s0.savepoints@[j].0@, target)
        && s2.model() == s0.savepoint_models()[j].1
        && s2.savepoint_models() == s0.savepoint_models().take(j + 1),
{
    let i = choose|i: int| 0 <= i < s0.savepoints@.len() && same_name(#[trigger] s0.savepoints@[i].0@, released)
        && (forall|j: int| i < j < s0.savepoints@.len() ==> !same_name(#[trigger] s0.savepoints@[j].0@, released))
        && s1.model() == s0.model()
        && s1.snapshot_model() == s0.snapshot_model()
        && s1.savepoint_models() == s0.savepoint_models().take(i);
    let j = choose|j: int| 0 <= j < s1.savepoints@.len() && same_name(#[trigger] s1.savepoints@[j].0@, target)
        && (forall|k: int| j < k < s1.savepoints@.len() ==> !same_name(#[trigger] s1.savepoints@[k].0@, target))
        && s2.model() == s1.savepoint_models()[j].1
        && s2.savepoint_models() == s1.savepoint_models().take(j + 1);
    assert(s1.savepoint_models().len() == s1.savepoints@.len());
    assert(s1.savepoint_models()[j] == s0.savepoint_models()[j]);
    assert(s1.savepoints@[j].0@ == s1.savepoint_models()[j].0);
    assert(s0.savepoints@[j].0@ == s0.savepoint_models()[j].0);
    assert(s1.savepoint_models().take(j + 1) =~= s0.savepoint_models().take(j + 1));
}

} // verus!
