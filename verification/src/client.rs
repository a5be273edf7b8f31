//! Short calls for running SQL text on a machine and reading its answer.

use vstd::prelude::*;
use crate::types::Value;
use crate::error::{KkdbError, ErrorKind, Result};
use crate::vm::execute::{VM, ExecResult};
use crate::vm::execute::runs_text;

verus! {

/// The rows a statement's result hands back: its rows for a query result, a
/// Type error for a result without rows, and the statement's own error.
pub open spec fn rows_of(res: Result<ExecResult>, r: Result<Vec<Vec<Value>>>) -> bool {
    match res {
        Ok(ExecResult::QueryResult { rows, .. }) => r matches Ok(x) && x@ == rows@,
        Ok(_) => r matches Err(e) && e.kind == ErrorKind::Type,
        Err(e) => r matches Err(x) && x == e,
    }
}

/// The integer in the first column of the first row, if it holds one.
pub open spec fn first_integer_spec(rows: Seq<Vec<Value>>) -> Option<i64> {
    if rows.len() > 0 && rows[0]@.len() > 0 {
        match rows[0]@[0] {
            Value::Integer(n) => Some(n),
            _ => None,
        }
    } else {
        None
    }
}

/// A new in-memory machine.
pub fn mem() -> (r: VM)
    ensures r.wf(), r.db.tables@.len() == 0, r.snapshot is None, r.savepoints@.len() == 0, crate::vm::db::empty_db(r.db),
{
    VM::new_memory()
}

/// A new in-memory machine.
pub fn fresh() -> (r: VM)
    ensures r.wf(), r.db.tables@.len() == 0, r.snapshot is None, r.savepoints@.len() == 0, crate::vm::db::empty_db(r.db),
{
    VM::new_memory()
}

/// Runs one statement.
pub fn exec(vm: &mut VM, sql: &str) -> (r: Result<ExecResult>)
    requires old(vm).wf(),
    ensures final(vm).wf(), r is Err ==> final(vm).model() == old(vm).model(),
        runs_text(*old(vm), sql@, *final(vm), r),
{
    vm.execute_sql(sql)
}

/// Runs one statement.
pub fn try_exec(vm: &mut VM, sql: &str) -> (r: Result<ExecResult>)
    requires old(vm).wf(),
    ensures final(vm).wf(), r is Err ==> final(vm).model() == old(vm).model(),
        runs_text(*old(vm), sql@, *final(vm), r),
{
    vm.execute_sql(sql)
}

/// Runs one statement.
pub fn e(vm: &mut VM, sql: &str) -> (r: Result<ExecResult>)
    requires old(vm).wf(),
    ensures final(vm).wf(), r is Err ==> final(vm).model() == old(vm).model(),
        runs_text(*old(vm), sql@, *final(vm), r),
{
    vm.execute_sql(sql)
}

/// The rows of a result; an error for a result without rows.
pub fn result_rows(res: ExecResult) -> (r: Result<Vec<Vec<Value>>>)
    ensures
        res matches ExecResult::QueryResult { rows, .. } ==> r matches Ok(x) && x@ == rows@,
        !(res is QueryResult) ==> (r matches Err(e) && e.kind == ErrorKind::Type),
{
    match res {
        ExecResult::QueryResult { rows, .. } => Ok(rows),
        _ => Err(KkdbError::new(ErrorKind::Type, "the statement returned no rows")),
    }
}

/// Runs a statement that returns rows, and returns them.
pub fn query_rows(vm: &mut VM, sql: &str) -> (r: Result<Vec<Vec<Value>>>)
    requires old(vm).wf(),
    ensures final(vm).wf(),
        exists|res: Result<ExecResult>| runs_text(*old(vm), sql@, *final(vm), res) && rows_of(res, r),
{
    let out = vm.execute_sql(sql);
    let ghost g = out;
    let r = match out {
        Ok(res) => result_rows(res),
        Err(e) => Err(e),
    };
    assert(runs_text(*old(vm), sql@, *vm, g) && rows_of(g, r));
    r
}

/// Runs a statement that returns rows, and returns them.
pub fn rows(vm: &mut VM, sql: &str) -> (r: Result<Vec<Vec<Value>>>)
    requires old(vm).wf(),
    ensures final(vm).wf(),
        exists|res: Result<ExecResult>| runs_text(*old(vm), sql@, *final(vm), res) && rows_of(res, r),
{
    query_rows(vm, sql)
}

/// Runs a statement that returns rows, and returns them.
pub fn q(vm: &mut VM, sql: &str) -> (r: Result<Vec<Vec<Value>>>)
    requires old(vm).wf(),
    ensures final(vm).wf(),
        exists|res: Result<ExecResult>| runs_text(*old(vm), sql@, *final(vm), res) && rows_of(res, r),
{
    query_rows(vm, sql)
}

/// Runs a statement that is expected to fail; returns its error message,
/// or `None` when it succeeded.
pub fn e_err(vm: &mut VM, sql: &str) -> (r: Option<String>)
    requires old(vm).wf(),
    ensures final(vm).wf(), r is Some ==> final(vm).model() == old(vm).model(),
        exists|res: Result<ExecResult>| runs_text(*old(vm), sql@, *final(vm), res) && match res {
            Ok(_) => r is None,
            Err(x) => r matches Some(m) && m@ == x.message@,
        },
{
    match vm.execute_sql(sql) {
        Ok(_) => None,
        Err(err) => Some(err.to_string()),
    }
}

/// The integer in the first column of the first row of a result.
pub fn first_integer(rows: &Vec<Vec<Value>>) -> (r: Option<i64>)
    ensures
        r matches Some(n) ==> rows@.len() > 0 && rows@[0]@.len() > 0 && rows@[0]@[0] == Value::Integer(n),
        r is None ==> !(rows@.len() > 0 && rows@[0]@.len() > 0 && rows@[0]@[0] is Integer),
        r == first_integer_spec(rows@),
{
    if rows.len() > 0 && rows[0].len() > 0 {
        match &rows[0][0] {
            Value::Integer(n) => Some(*n),
            _ => None,
        }
    } else {
        None
    }
}

/// Runs a query and returns the integer in the first column of its first
/// row (a count), or `None` when it failed or returned something else.
pub fn count(vm: &mut VM, sql: &str) -> (r: Option<i64>)
    requires old(vm).wf(),
    ensures final(vm).wf(),
        exists|res: Result<ExecResult>| runs_text(*old(vm), sql@, *final(vm), res) && match res {
            Ok(ExecResult::QueryResult { rows, .. }) => r == first_integer_spec(rows@),
            _ => r is None,
        },
{
    match query_rows(vm, sql) {
        Ok(rs) => first_integer(&rs),
        Err(_) => None,
    }
}

} // verus!
