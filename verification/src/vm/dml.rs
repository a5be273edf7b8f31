//! Data statements (INSERT, UPDATE, DELETE), triggers, foreign-key actions,
//! and the dispatcher that runs one statement against a database.

use vstd::prelude::*;
use crate::types::{Value, ValueV, copy_value, copy_row, copy_chars, str_chars, text_value, is_null, values_equal};
use crate::text::{chars_eq_ci, int_to_text, int_text};
use crate::vm::semantics::capped_len;
use crate::storage::table::{Table, Row, ColumnInfo, vals, rowid_col_from, stored_row, inserted_row, fits_not_null, fits_unique, lemma_contents_at,
    lemma_constraints_insert, lemma_constraints_replace, lemma_constraints_remove, lemma_fits_unique_remove};
use crate::sql::ast::{Statement, InsertSource, ConflictMode, OnConflict, SelectItem, Expr, TriggerTiming,
    TriggerEvent, FkAction, Query};
use crate::error::{KkdbError, ErrorKind, Result};
use crate::vm::db::{Db, TriggerDef, tables_wf, column_index, same_name, same_contents};
use crate::vm::query::{exec_query, eval_expr, fail, ColRef, Output, output_names, project_row, append_chars, small,
    table_colrefs, row_with_rowid, lemma_table_from};
use crate::vm::ddl::{same_key, keys_agree, lemma_tables_wf_after_replace, named_error};
use crate::vm::eval::is_true;
use crate::vm::relations::{query_spec, ordered_query};
use crate::vm::query::{names_view, project_spec, output_names_spec};
use crate::vm::execute::{strings_view, answers_query};
use crate::vm::semantics::{core_eval, scan_query, selected_rows, passes, scan_row, decided_on, table_cols_view, table_from, lemma_table_from_same_name, lemma_table_from_update, scan_result, rows_view, constant_values, core_eval_list, col_views, ColView,
    lemma_core_eval_list_prefix};
use crate::vm::execute::{ExecResult, message, message_chars, query_result, MAX_FUEL};

verus! {

/// Position of the column that holds the rowid (`INTEGER PRIMARY KEY`).
pub fn rowid_column(t: &Table) -> (r: Option<usize>)
    ensures
        r matches Some(c) ==> c < t.columns@.len() && t.columns@[c as int].is_rowid,
        r is None ==> forall|c: int| 0 <= c < t.columns@.len() ==> !(#[trigger] t.columns@[c]).is_rowid,
        match r { Some(c) => rowid_col_from(t.columns@, 0) == Some(c as int), None => rowid_col_from(t.columns@, 0) is None },
{
    let mut c: usize = 0;
    while c < t.columns.len()
        invariant c <= t.columns@.len(), forall|k: int| 0 <= k < c ==> !(#[trigger] t.columns@[k]).is_rowid,
            rowid_col_from(t.columns@, 0) == rowid_col_from(t.columns@, c as int),
        decreases t.columns.len() - c,
    {
        if t.columns[c].is_rowid {
            return Some(c);
        }
        c += 1;
    }
    None
}

/// The positions in `t` of the first `j` of the named columns, or `None`
/// where one of them names no column of `t`.
pub open spec fn index_cols(t: Table, cols: Seq<Vec<char>>, j: int) -> Option<Seq<usize>>
    decreases j,
{
    if j <= 0 {
        Some(Seq::empty())
    } else {
        match (index_cols(t, cols, j - 1), column_from(t.columns@, cols[j - 1]@, 0)) {
            (Some(ks), Some(p)) => Some(ks.push(p as usize)),
            _ => None,
        }
    }
}

/// The column positions of the unique indexes among the first `x` indexes of
/// `db` that are on table `t` and whose columns all name columns of `t`.
pub open spec fn index_keys_spec(db: Db, t: Table, x: int) -> Seq<Seq<usize>>
    decreases x,
{
    if x <= 0 {
        Seq::empty()
    } else {
        let prev = index_keys_spec(db, t, x - 1);
        let ix = db.indexes@[x - 1];
        if ix.unique && same_name(ix.table@, t.name@) {
            match index_cols(t, ix.columns@, ix.columns@.len() as int) {
                Some(k) => prev.push(k),
                None => prev,
            }
        } else {
            prev
        }
    }
}

/// What VACUUM, GRANT, REVOKE, ANALYZE and SHOW TABLES did: when they
/// succeed they leave the tables, views, indexes, triggers, policies and
/// settings as they were;
/// VACUUM, GRANT and REVOKE succeed with their message; ANALYZE of a table
/// succeeds exactly when the table exists; SHOW TABLES gives the name of
/// each table, one per row. True of every other statement.
pub open spec fn plain_stmt_done(before: Db, st: Statement, after: Db, r: Result<ExecResult>) -> bool {
    match st {
        Statement::Vacuum => same_contents(before, after)
            && (r matches Ok(ExecResult::Message { message }) && message@ == "VACUUM completed"@),
        Statement::Grant { revoke } => same_contents(before, after)
            && (r matches Ok(ExecResult::Message { message }) && message@ == (if revoke { "REVOKE"@ } else { "GRANT"@ })),
        Statement::Analyze(name) => (r is Ok ==> same_contents(before, after)) && match name {
            None => r matches Ok(ExecResult::Message { message }) && message@ == "ANALYZE"@,
            Some(n) => (r is Ok <==> before.has_table(n@))
                && (r is Ok ==> (r matches Ok(ExecResult::Message { message }) && message@ == "ANALYZE"@)),
        },
        Statement::ShowTables => same_contents(before, after)
            && (r matches Ok(ExecResult::QueryResult { rows, .. }) && rows@.len() == before.tables@.len()
                && forall|i: int| 0 <= i < rows@.len() ==> (#[trigger] rows@[i])@.len() == 1
                    && rows@[i]@[0]@ == ValueV::Text(before.tables@[i].name@)),
        _ => true,
    }
}

/// Column groups of the unique indexes of table `ti`, as column positions.
fn index_keys(db: &Db, ti: usize) -> (r: Vec<Vec<usize>>)
    requires ti < db.tables@.len(),
    ensures r@.map_values(|k: Vec<usize>| k@) == index_keys_spec(*db, db.tables@[ti as int], db.indexes@.len() as int),
{
    let t = &db.tables[ti];
    let mut keys: Vec<Vec<usize>> = Vec::new();
    let mut x: usize = 0;
    while x < db.indexes.len()
        invariant x <= db.indexes@.len(), ti < db.tables@.len(), t == &db.tables[ti as int],
            keys@.map_values(|k: Vec<usize>| k@) == index_keys_spec(*db, *t, x as int),
        decreases db.indexes.len() - x,
    {
        let ghost before = keys@;
        if db.indexes[x].unique && chars_eq_ci(&db.indexes[x].table, &t.name) {
            let mut k: Vec<usize> = Vec::new();
            let mut ok = true;
            let mut j: usize = 0;
            while j < db.indexes[x].columns.len()
                invariant j <= db.indexes@[x as int].columns@.len(), x < db.indexes@.len(),
                    ok ==> index_cols(*t, db.indexes@[x as int].columns@, j as int) == Some(k@),
                    !ok ==> index_cols(*t, db.indexes@[x as int].columns@, j as int) is None,
                decreases db.indexes@[x as int].columns@.len() - j,
            {
                let found = column_index(t, &db.indexes[x].columns[j]);
                proof {
                    let fo = match found { Some(i) => Some(i as int), None => None };
                    lemma_column_from(t.columns@, db.indexes@[x as int].columns@[j as int]@, 0, fo);
                }
                match found {
                    Some(p) => { k.push(p); },
                    None => { ok = false; },
                }
                j += 1;
            }
            if ok {
                keys.push(k);
                assert(keys@.map_values(|k: Vec<usize>| k@) =~= before.map_values(|k: Vec<usize>| k@).push(k@));
            }
        }
        x += 1;
    }
    keys
}

/// Position of a row, other than the one with rowid `skip`, that repeats the
/// values of `values` on the columns of one of the index keys.
fn find_index_conflict(t: &Table, keys: &Vec<Vec<usize>>, values: &Vec<Value>, skip: Option<i64>) -> (r: Option<usize>)
    ensures
        r matches Some(i) ==> i < t.rows@.len() && index_clash(t, keys_view(keys@), vals(values@), skip, i as int)
            && forall|a: int| 0 <= a < i ==> !index_clash(t, keys_view(keys@), vals(values@), skip, a),
        r is None ==> forall|a: int| 0 <= a < t.rows@.len() ==> !index_clash(t, keys_view(keys@), vals(values@), skip, a),
{
    let ghost v = vals(values@);
    let mut i: usize = 0;
    while i < t.rows.len()
        invariant i <= t.rows@.len(), v == vals(values@),
            forall|a: int| 0 <= a < i ==> !index_clash(t, keys_view(keys@), v, skip, a),
        decreases t.rows.len() - i,
    {
        let skipped = match skip { Some(s) => t.rows[i].rowid == s, None => false };
        if !skipped {
            let mut k: usize = 0;
            while k < keys.len()
                invariant k <= keys@.len(), i < t.rows@.len(), v == vals(values@), !skipped,
                    forall|a: int| 0 <= a < i ==> !index_clash(t, keys_view(keys@), v, skip, a),
                    skipped == (match skip { Some(s) => t.rows@[i as int].rowid == s, None => false }),
                    forall|j: int| 0 <= j < k ==> !keys_agree(vals(t.rows@[i as int].values@), v, #[trigger] keys_view(keys@)[j]),
                decreases keys.len() - k,
            {
                assert(keys_view(keys@)[k as int] == keys@[k as int]@);
                if same_key(&t.rows[i].values, values, &keys[k]) {
                    assert(keys_agree(vals(t.rows@[i as int].values@), v, keys_view(keys@)[k as int]));
                    assert(!(skip matches Some(s) && t.rows@[i as int].rowid == s));
                    assert(index_clash(t, keys_view(keys@), v, skip, i as int));
                    return Some(i);
                }
                k += 1;
            }
        }
        i += 1;
    }
    None
}

/// Whether row `i` of `t`, unless its rowid is `skip`, agrees with `values`
/// on the columns of one of the index keys.
pub open spec fn index_clash(t: &Table, keys: Seq<Seq<usize>>, values: Seq<ValueV>, skip: Option<i64>, i: int) -> bool {
    !(skip matches Some(s) && t.rows@[i].rowid == s)
        && exists|j: int| 0 <= j < keys.len() && keys_agree(vals(t.rows@[i].values@), values, #[trigger] keys[j])
}

/// The first `k` rows projected on the select items, without group or
/// window: `Some(None)` where a projection fails first, `None` where one is
/// not known.
pub open spec fn projected_rows(items: Seq<SelectItem>, cv: Seq<ColView>, rows: Seq<Seq<ValueV>>, k: int)
    -> Option<Option<Seq<Seq<ValueV>>>>
    decreases k,
{
    if k <= 0 {
        Some(Some(Seq::empty()))
    } else {
        match projected_rows(items, cv, rows, k - 1) {
            Some(Some(ps)) => match project_spec(items, cv, rows[k - 1], None, Seq::empty(), 0, MAX_FUEL as nat) {
                Some(Some(vs)) => Some(Some(ps.push(vs))),
                Some(None) => Some(None),
                None => None,
            },
            other => other,
        }
    }
}

/// Once a projection failed or is not known, so is every longer prefix.
proof fn lemma_projected_stuck(items: Seq<SelectItem>, cv: Seq<ColView>, rows: Seq<Seq<ValueV>>, k: int, k2: int)
    requires 0 <= k <= k2, !(projected_rows(items, cv, rows, k) matches Some(Some(_))),
    ensures projected_rows(items, cv, rows, k2) == projected_rows(items, cv, rows, k),
    decreases k2 - k,
{
    if k < k2 {
        lemma_projected_stuck(items, cv, rows, k, k2 - 1);
    }
}

/// The columns of a table as `excluded.name`, as an upsert names the values
/// that were to be inserted.
pub open spec fn excluded_cols(cols: Seq<ColumnInfo>) -> Seq<ColView> {
    cols.map_values(|c: ColumnInfo| ("excluded"@, c.name@, false))
}

/// The first `n` of the values, NULL where there are fewer.
pub open spec fn padded(v: Seq<ValueV>, n: int) -> Seq<ValueV> {
    Seq::new(n as nat, |p: int| if p < v.len() { v[p] } else { ValueV::Null })
}

/// Position of the first PRIMARY KEY column from position `i` on.
pub open spec fn first_pk(cols: Seq<ColumnInfo>, i: int) -> Option<int>
    decreases cols.len() - i,
{
    if i < 0 || i >= cols.len() {
        None
    } else if cols[i].primary_key {
        Some(i)
    } else {
        first_pk(cols, i + 1)
    }
}

/// The value a foreign key refers to in a parent row given with its rowid
/// last: that of the named column, else of the first PRIMARY KEY column,
/// else the rowid; NULL where the row has no such value.
pub open spec fn referenced_spec(cols: Seq<ColumnInfo>, column: Option<Seq<char>>, row: Seq<ValueV>) -> ValueV {
    let pos = match column {
        Some(n) => column_from(cols, n, 0),
        None => first_pk(cols, 0),
    };
    match pos {
        Some(p) => if p < row.len() { row[p] } else { ValueV::Null },
        None => if row.len() > 0 { row.last() } else { ValueV::Null },
    }
}

/// The values with the one at `col` set to NULL, where there is one.
pub open spec fn nulled(v: Seq<ValueV>, col: int) -> Seq<ValueV> {
    if 0 <= col < v.len() { v.update(col, ValueV::Null) } else { v }
}

/// The column positions of each index key.
pub open spec fn keys_view(keys: Seq<Vec<usize>>) -> Seq<Seq<usize>> {
    keys.map_values(|k: Vec<usize>| k@)
}

/// The rowid a row gets from its new values: the value of the rowid column,
/// or `k` where the table has none.
pub open spec fn rowid_after(cols: Seq<ColumnInfo>, v: Seq<ValueV>, k: int) -> int {
    match rowid_col_from(cols, 0) {
        Some(c) => match v[c] {
            ValueV::Int(x) => x,
            _ => k,
        },
        None => k,
    }
}

/// Whether row `i` of table `ti` may take the values `v`: one for each
/// column, an integer in the rowid column, no NULL in a NOT NULL column, no
/// other row with the same key of a unique index or the same value in a
/// UNIQUE column, and no other row under the rowid it moves to.
pub open spec fn rewrite_allowed(db: Db, ti: int, i: int, v: Seq<ValueV>) -> bool {
    let t = db.tables@[ti];
    let k = t.rows@[i].rowid;
    &&& v.len() == t.columns@.len()
    &&& (rowid_col_from(t.columns@, 0) matches Some(c) ==> v[c] is Int)
    &&& fits_not_null(t.columns@, v)
    &&& forall|a: int| 0 <= a < t.rows@.len() ==> !index_clash(&t, index_keys_spec(db, t, db.indexes@.len() as int), v, Some(k), a)
    &&& fits_unique(t.columns@, t.contents(), v, skip_key(Some(k)))
    &&& (rowid_after(t.columns@, v, k as int) == k || !t.contents().dom().contains(rowid_after(t.columns@, v, k as int)))
}

/// The rowid to leave out, as a map key.
pub open spec fn skip_key(skip: Option<i64>) -> Option<int> {
    match skip {
        Some(s) => Some(s as int),
        None => None,
    }
}

fn is_unique_column(c: &ColumnInfo) -> (r: bool)
    ensures r == c.is_unique(),
{
    c.unique || (c.primary_key && !c.is_rowid)
}

/// Position of a row, other than the one with rowid `skip`, that already
/// holds one of the non-null values `values` gives its UNIQUE or PRIMARY KEY
/// columns.
fn unique_column_clash(t: &Table, values: &Vec<Value>, skip: Option<i64>) -> (r: Option<usize>)
    requires t.wf(), values@.len() == t.columns@.len(),
    ensures
        r matches Some(i) ==> i < t.rows@.len() && !fits_unique(t.columns@, t.contents(), vals(values@), skip_key(skip)),
        r is None ==> fits_unique(t.columns@, t.contents(), vals(values@), skip_key(skip)),
{
    let mut i: usize = 0;
    while i < t.rows.len()
        invariant i <= t.rows@.len(), t.wf(), values@.len() == t.columns@.len(),
            forall|a: int, c: int| 0 <= a < i && Some(t.rows@[a].rowid as int) != skip_key(skip) && 0 <= c < t.columns@.len()
                && t.columns@[c].is_unique() && !(values@[c]@ is Null) ==> #[trigger] t.rows@[a].values@[c]@ != values@[c]@,
        decreases t.rows.len() - i,
    {
        let skipped = match skip { Some(s) => t.rows[i].rowid == s, None => false };
        if !skipped {
            let mut c: usize = 0;
            while c < t.columns.len()
                invariant c <= t.columns@.len(), i < t.rows@.len(), t.wf(), values@.len() == t.columns@.len(),
                    Some(t.rows@[i as int].rowid as int) != skip_key(skip),
                    forall|c2: int| 0 <= c2 < c && t.columns@[c2].is_unique() && !(values@[c2]@ is Null)
                        ==> #[trigger] t.rows@[i as int].values@[c2]@ != values@[c2]@,
                decreases t.columns.len() - c,
            {
                assert(t.rows@[i as int].values@.len() == t.columns@.len());
                if is_unique_column(&t.columns[c]) && !is_null(&values[c]) && values_equal(&t.rows[i].values[c], &values[c]) {
                    proof {
                        lemma_contents_at(t, i as int);
                        let k = t.rows@[i as int].rowid as int;
                        assert(t.contents().dom().contains(k));
                        assert(Some(k) != skip_key(skip));
                        assert(t.columns@[c as int].is_unique() && !(vals(values@)[c as int] is Null));
                        assert(t.contents()[k][c as int] == vals(values@)[c as int]);
                    }
                    return Some(i);
                }
                c += 1;
            }
        }
        i += 1;
    }
    proof {
        let m = t.contents();
        let v = vals(values@);
        assert forall|k: int, c: int| #[trigger] m.dom().contains(k) && Some(k) != skip_key(skip) && 0 <= c < t.columns@.len()
            && t.columns@[c].is_unique() && !(v[c] is Null) implies #[trigger] m[k][c] != v[c] by {
            let a = choose|a: int| 0 <= a < t.rows@.len() && #[trigger] t.rows@[a].rowid == k;
            lemma_contents_at(t, a);
            assert(t.rows@[a].values@[c]@ != values@[c]@);
        }
    }
    None
}

/// Fails when a NOT NULL column of `t` would hold NULL.
fn check_not_null(t: &Table, values: &Vec<Value>) -> (r: Result<()>)
    requires values@.len() == t.columns@.len(),
    ensures r is Ok <==> fits_not_null(t.columns@, vals(values@)),
        r matches Err(e) ==> e.kind == ErrorKind::Constraint,
{
    let mut c: usize = 0;
    while c < t.columns.len()
        invariant c <= t.columns@.len(), values@.len() == t.columns@.len(),
            forall|k: int| 0 <= k < c && (#[trigger] t.columns@[k]).not_null ==> !(values@[k]@ is Null),
        decreases t.columns.len() - c,
    {
        if t.columns[c].not_null && is_null(&values[c]) {
            let mut msg = str_chars("NOT NULL constraint failed: ");
            append_chars(&mut msg, &t.name);
            msg.push('.');
            append_chars(&mut msg, &t.columns[c].name);
            assert(t.columns@[c as int].not_null && vals(values@)[c as int] is Null);
            return Err(KkdbError::from_chars(ErrorKind::Constraint, &msg));
        }
        c += 1;
    }
    Ok(())
}

/// Position of a row that clashes with a new row: one with the same rowid,
/// or one that repeats a unique column or a unique index key.
fn any_clash(t: &Table, keys: &Vec<Vec<usize>>, values: &Vec<Value>, rowid: i64) -> (r: Option<usize>)
    requires t.wf(), values@.len() == t.columns@.len(),
    ensures
        r matches Some(i) ==> i < t.rows@.len(),
        r is None <==> (!t.contents().dom().contains(rowid as int) && fits_unique(t.columns@, t.contents(), vals(values@), None)
            && forall|a: int| 0 <= a < t.rows@.len() ==> !index_clash(t, keys_view(keys@), vals(values@), None, a)),
{
    match t.find_rowid(rowid) {
        Some(i) => Some(i),
        None => match unique_column_clash(t, values, None) {
            Some(i) => Some(i),
            None => find_index_conflict(t, keys, values, None),
        },
    }
}

fn unique_error<T>(t: &Table) -> (r: Result<T>)
    ensures r matches Err(e) && e.kind == ErrorKind::Constraint && e.message@ == "UNIQUE constraint failed: "@ + t.name@,
{
    named_error(ErrorKind::Constraint, "UNIQUE constraint failed: ", &t.name)
}

/// A message naming a statement and the number of rows it touched.
fn count_message(verb: &str, n: usize) -> (r: ExecResult)
    ensures r matches ExecResult::Message { message } && message@ == verb@ + seq![' '] + int_text(capped_len(n as nat)),
{
    let mut m = str_chars(verb);
    m.push(' ');
    let digits = int_to_text(small(n));
    append_chars(&mut m, &digits);
    message_chars(&m)
}

impl Db {
    /// Runs the triggers of a table for one event and timing; their
    /// statements run one level deeper. While a trigger runs its body is
    /// held aside, so a trigger does not fire itself again.
    pub fn fire_triggers(&mut self, table: &Vec<char>, timing: TriggerTiming, event: TriggerEvent, depth: u32)
        -> (r: Result<()>)
        requires old(self).wf(),
        ensures final(self).wf(),
            !old(self).fires(table@, timing, event) ==> r is Ok && *final(self) == *old(self),
        decreases depth, 5int,
    {
        let mut names: Vec<Vec<char>> = Vec::new();
        let mut k: usize = 0;
        while k < self.triggers.len()
            invariant k <= self.triggers@.len(), *self == *old(self),
                names@.len() == 0 ==> forall|j: int| 0 <= j < k ==> !old(self).trigger_fires(j, table@, timing, event),
                names@.len() > 0 ==> old(self).fires(table@, timing, event),
            decreases self.triggers.len() - k,
        {
            let tr = &self.triggers[k];
            if tr.timing == timing && tr.event == event && chars_eq_ci(&tr.table, table) && tr.body.len() > 0 {
                assert(old(self).trigger_fires(k as int, table@, timing, event));
                names.push(copy_chars(&tr.name));
            }
            k += 1;
        }
        if names.len() == 0 {
            return Ok(());
        }
        let ghost fired = old(self).fires(table@, timing, event);
        assert(fired);
        if depth == 0 {
            return fail(ErrorKind::Limit, "triggers nested too deeply");
        }
        let mut n: usize = 0;
        while n < names.len()
            invariant n <= names@.len(), self.wf(), depth > 0, fired, fired == old(self).fires(table@, timing, event),
            decreases names.len() - n,
        {
            match self.trigger_index(&names[n]) {
                None => {},
                Some(ix) => {
                    let TriggerDef { name, timing: tm, event: ev, table: tb, body } = self.triggers.remove(ix);
                    self.triggers.insert(ix, TriggerDef { name, timing: tm, event: ev, table: tb, body: Vec::new() });
                    let mut s: usize = 0;
                    let mut outcome: Result<()> = Ok(());
                    while s < body.len()
                        invariant s <= body@.len(), self.wf(), depth > 0,
                        decreases body.len() - s,
                    {
                        match self.execute_statement(&body[s], depth - 1) {
                            Ok(_) => {},
                            Err(e) => {
                                outcome = Err(e);
                                break;
                            },
                        }
                        s += 1;
                    }
                    match self.trigger_index(&names[n]) {
                        None => {},
                        Some(iy) => {
                            let TriggerDef { name, timing: tm, event: ev, table: tb, body: _ } = self.triggers.remove(iy);
                            self.triggers.insert(iy, TriggerDef { name, timing: tm, event: ev, table: tb, body });
                        },
                    }
                    outcome?;
                },
            }
            n += 1;
        }
        Ok(())
    }

    /// Runs one statement other than transaction control.
    pub fn execute_statement(&mut self, st: &Statement, depth: u32) -> (r: Result<ExecResult>)
        requires old(self).wf(),
        ensures final(self).wf(),
            crate::vm::execute::is_read_only(*st) ==> final(self).tables@ == old(self).tables@,
            *st matches Statement::Query(q) ==> (scan_result(old(self).tables@, *q, MAX_FUEL as nat) matches Some(rows) ==>
                (r matches Ok(ExecResult::QueryResult { rows: out, .. }) && rows_view(out@) == rows)),
            *st matches Statement::Query(q) ==> answers_query(*old(self), *q, r),
            *st matches Statement::Delete { table, where_clause, returning } ==>
                ((plain_delete(*old(self), table@) && decided_in(*old(self), table@, where_clause)) ==>
                    rows_deleted(*old(self), *final(self), table@, where_clause) && (returning is None ==> r is Ok)),
            *st matches Statement::Update { table, assignments, where_clause, .. } ==>
                ((plain_update(*old(self), table@) && update_decided(*old(self), table@, assignments@, where_clause)) ==>
                    (r is Ok ==> rows_updated(*old(self), *final(self), table@, assignments@, where_clause))),
            *st matches Statement::Insert { table, columns, source, conflict, on_conflict, .. } ==>
                ((columns is None && plain_insert(*old(self), table@, conflict, on_conflict)) ==>
                    (source matches InsertSource::Values(rows) ==> (r is Ok ==> values_inserted(*old(self), *final(self), table@, rows@)))),
            crate::vm::ddl::ddl_done(*old(self), *st, *final(self), r),
            insert_owed(*old(self), *st, r),
            plain_stmt_done(*old(self), *st, *final(self), r),
            (*st is CreateView || *st is CreateTrigger || *st is CreatePolicy) ==> r is Err && *final(self) == *old(self),
        decreases depth, 10int,
    {
        match st {
            Statement::Query(q) => {
                let out = exec_query(self, q, None, MAX_FUEL)?;
                let ghost nv = names_view(out.names@);
                let ghost rv = rows_view(out.rows@);
                let res = query_result(out);
                proof {
                    match &res {
                        ExecResult::QueryResult { columns, rows } => {
                            assert(strings_view(columns@) =~= nv);
                            assert(rows_view(rows@) == rv);
                        },
                        _ => {},
                    }
                }
                Ok(res)
            },
            Statement::ShowTables => Ok(self.show_tables()),
            Statement::ShowEngineStatus => Ok(self.engine_status()),
            Statement::Explain { analyze, statement } => self.explain(statement, *analyze),
            Statement::CreateTable { name, if_not_exists, columns, as_query } => {
                match as_query {
                    Some(q) => self.create_table_as(name, *if_not_exists, q),
                    None => self.create_table(name, *if_not_exists, columns),
                }
            },
            Statement::DropTable { name, if_exists } => self.drop_table(name, *if_exists),
            Statement::CreateIndex { name, table, columns, unique, if_not_exists } =>
                self.create_index(name, table, columns, *unique, *if_not_exists),
            Statement::DropIndex { name, if_exists } => self.drop_index(name, *if_exists),
            Statement::CreateView { .. } | Statement::CreateTrigger { .. } | Statement::CreatePolicy { .. } =>
                fail(ErrorKind::Unsupported, "this statement is not allowed inside a trigger"),
            Statement::DropView { name, if_exists } => self.drop_view(name, *if_exists),
            Statement::DropTrigger { name, if_exists } => self.drop_trigger(name, *if_exists),
            Statement::DropPolicy { name, table, if_exists } => self.drop_policy(name, table, *if_exists),
            Statement::AlterTable { table, action } => self.alter_table(table, action),
            Statement::Insert { table, columns, source, conflict, on_conflict, returning } =>
                self.insert(table, columns, source, *conflict, on_conflict, returning, depth),
            Statement::Update { table, assignments, where_clause, returning } =>
                self.update(table, assignments, where_clause, returning, depth),
            Statement::Delete { table, where_clause, returning } =>
                self.delete(table, where_clause, returning, depth),
            Statement::SetVariable { name, value } => {
                let cols: Vec<ColRef> = Vec::new();
                let row: Vec<Value> = Vec::new();
                let v = eval_expr(self, value, &cols, &row, None, MAX_FUEL)?;
                self.set_setting(copy_chars(name), v);
                Ok(message("SET"))
            },
            Statement::Vacuum => Ok(message("VACUUM completed")),
            Statement::Analyze(name) => {
                match name {
                    Some(n) => {
                        let found = self.table_index(n);
                        proof {
                            if found is Some {
                                assert(self.has_table(n@)) by { assert(same_name(self.tables@[found.unwrap() as int].name@, n@)); }
                            }
                        }
                        if found.is_none() {
                            return named_error(ErrorKind::Schema, "no such table: ", n);
                        }
                        self.analyzed.push(copy_chars(n));
                    },
                    None => {},
                }
                Ok(message("ANALYZE"))
            },
            Statement::Grant { revoke } => if *revoke { Ok(message("REVOKE")) } else { Ok(message("GRANT")) },
            Statement::Begin | Statement::Commit | Statement::Rollback | Statement::Savepoint(_)
            | Statement::Release(_) | Statement::RollbackTo(_) =>
                fail(ErrorKind::Transaction, "transaction control is not allowed here"),
        }
    }
}


impl Db {
    /// Runs one statement that the caller owns: definitions that keep part
    /// of the statement (views, triggers, policies) take it over.
    pub fn execute_owned(&mut self, st: Statement, depth: u32) -> (r: Result<ExecResult>)
        requires old(self).wf(),
        ensures final(self).wf(),
            crate::vm::execute::is_read_only(st) ==> final(self).tables@ == old(self).tables@,
            st matches Statement::Query(q) ==> (scan_result(old(self).tables@, *q, MAX_FUEL as nat) matches Some(rows) ==>
                (r matches Ok(ExecResult::QueryResult { rows: out, .. }) && rows_view(out@) == rows)),
            st matches Statement::Query(q) ==> answers_query(*old(self), *q, r),
            st matches Statement::Delete { table, where_clause, returning } ==>
                ((plain_delete(*old(self), table@) && decided_in(*old(self), table@, where_clause)) ==>
                    rows_deleted(*old(self), *final(self), table@, where_clause) && (returning is None ==> r is Ok)),
            st matches Statement::Update { table, assignments, where_clause, .. } ==>
                ((plain_update(*old(self), table@) && update_decided(*old(self), table@, assignments@, where_clause)) ==>
                    (r is Ok ==> rows_updated(*old(self), *final(self), table@, assignments@, where_clause))),
            st matches Statement::Insert { table, columns, source, conflict, on_conflict, .. } ==>
                ((columns is None && plain_insert(*old(self), table@, conflict, on_conflict)) ==>
                    (source matches InsertSource::Values(rows) ==> (r is Ok ==> values_inserted(*old(self), *final(self), table@, rows@)))),
            crate::vm::ddl::ddl_done(*old(self), st, *final(self), r),
            insert_owed(*old(self), st, r),
            plain_stmt_done(*old(self), st, *final(self), r),
            crate::vm::ddl::definition_done(*old(self), st, *final(self), r),
    {
        match st {
            Statement::CreateView { name, query } => self.create_view(&name, query),
            Statement::CreateTrigger { name, timing, event, table, body } =>
                self.create_trigger(&name, timing, event, &table, body),
            Statement::CreatePolicy { name, table, using } => self.create_policy(&name, &table, using),
            other => self.execute_statement(&other, depth),
        }
    }
}

/// When a one-row `INSERT ... VALUES` of constant values, one for each
/// column, with no column list, no trigger, no conflict clause and no
/// RETURNING, is owed success: exactly when `insert_allowed` holds.
pub open spec fn insert_owed(db: Db, st: Statement, r: Result<ExecResult>) -> bool {
    match st {
        Statement::Insert { table, columns, source, conflict, on_conflict, returning } =>
            (columns is None && plain_insert(db, table@, conflict, on_conflict) && returning is None) ==>
                (source matches InsertSource::Values(rows) ==> (rows@.len() == 1 ==>
                    match (table_from(db.tables@, table@, 0), constant_values(rows@[0]@, MAX_FUEL as nat)) {
                        (Some(ti), Some(vs)) => vs.len() == db.tables@[ti].columns@.len() ==>
                            (r is Ok <==> insert_allowed(db, ti, vs)),
                        _ => true,
                    })),
        _ => true,
    }
}

/// The column positions of unique indexes depend only on the indexes.
proof fn lemma_index_keys_frame(b1: Db, b2: Db, t: Table, x: int)
    requires b1.indexes@ == b2.indexes@,
    ensures index_keys_spec(b1, t, x) == index_keys_spec(b2, t, x),
    decreases x,
{
    if x > 0 {
        lemma_index_keys_frame(b1, b2, t, x - 1);
    }
}

/// Whether an insert is owed success depends only on the tables, indexes and triggers.
pub proof fn lemma_insert_owed_frame(b1: Db, b2: Db, st: Statement, r: Result<ExecResult>)
    requires b1.tables@ == b2.tables@, b1.indexes@ == b2.indexes@, b1.triggers == b2.triggers,
    ensures insert_owed(b1, st, r) == insert_owed(b2, st, r),
{
    crate::vm::dml::lemma_fires_same_triggers(b1, b2);
    assert forall|ti: int, vs: Seq<ValueV>| #[trigger] insert_allowed(b1, ti, vs) == insert_allowed(b2, ti, vs) by {
        lemma_index_keys_frame(b1, b2, b1.tables@[ti], b1.indexes@.len() as int);
    }
}

/// Whether `ps` are the positions of the named columns: for each name, the
/// first column of the table with that name.
pub open spec fn positions_for(cols: Seq<ColumnInfo>, names: Seq<Seq<char>>, ps: Seq<int>) -> bool {
    &&& ps.len() == names.len()
    &&& forall|k: int| 0 <= k < ps.len() ==> 0 <= #[trigger] ps[k] < cols.len() && same_name(cols[ps[k]].name@, names[k])
        && forall|q: int| 0 <= q < ps[k] ==> !same_name((#[trigger] cols[q]).name@, names[k])
}

/// The positions of the named columns are determined by the names.
proof fn lemma_positions_unique(cols: Seq<ColumnInfo>, names: Seq<Seq<char>>, ps: Seq<int>)
    requires positions_for(cols, names, ps),
    ensures forall|qs: Seq<int>| #[trigger] positions_for(cols, names, qs) ==> qs == ps,
{
    assert forall|qs: Seq<int>| #[trigger] positions_for(cols, names, qs) implies qs == ps by {
        assert forall|k: int| 0 <= k < ps.len() implies qs[k] == ps[k] by {
            if qs[k] < ps[k] {
                assert(!same_name(cols[qs[k]].name@, names[k]));
            } else if ps[k] < qs[k] {
                assert(!same_name(cols[ps[k]].name@, names[k]));
            }
        }
        assert(qs =~= ps);
    }
}

/// The values a new row starts from: each column's default, NULL where it has none.
pub open spec fn default_row(cols: Seq<ColumnInfo>) -> Seq<ValueV> {
    cols.map_values(|c: ColumnInfo| match c.default { Some(v) => v@, None => ValueV::Null })
}

/// `base` after the first `k` given values are written at their positions, in order.
pub open spec fn assigned(base: Seq<ValueV>, ps: Seq<int>, vs: Seq<ValueV>, k: int) -> Seq<ValueV>
    decreases k,
{
    if k <= 0 { base } else { assigned(base, ps, vs, k - 1).update(ps[k - 1], vs[k - 1]) }
}

/// The full row an `INSERT` with a column list stores from the given values:
/// the defaults, with each given value written at its column's position.
pub open spec fn full_row(cols: Seq<ColumnInfo>, ps: Seq<int>, vs: Seq<ValueV>) -> Seq<ValueV> {
    assigned(default_row(cols), ps, vs, ps.len() as int)
}

/// Writing values at positions keeps the length, puts at each position the
/// last value written there, and leaves the positions nothing was written at.
proof fn lemma_assigned(base: Seq<ValueV>, ps: Seq<int>, vs: Seq<ValueV>, k: int)
    requires 0 <= k <= ps.len(), k <= vs.len(), forall|j: int| 0 <= j < k ==> 0 <= #[trigger] ps[j] < base.len(),
    ensures assigned(base, ps, vs, k).len() == base.len(),
        forall|c: int| 0 <= c < base.len() && (forall|j: int| 0 <= j < k ==> #[trigger] ps[j] != c) ==> #[trigger] assigned(base, ps, vs, k)[c] == base[c],
        forall|j: int| 0 <= j < k && (forall|l: int| j < l < k ==> #[trigger] ps[l] != ps[j]) ==> #[trigger] assigned(base, ps, vs, k)[ps[j]] == vs[j],
    decreases k,
{
    if k > 0 {
        lemma_assigned(base, ps, vs, k - 1);
        assert forall|j: int| 0 <= j < k && (forall|l: int| j < l < k ==> #[trigger] ps[l] != ps[j]) implies #[trigger] assigned(base, ps, vs, k)[ps[j]] == vs[j] by {
            if j < k - 1 {
                assert(ps[k - 1] != ps[j]);
            }
        }
    }
}

/// The row an `INSERT` with a column list builds holds, at each listed
/// column, the value given last for it, and at every other column its
/// default (NULL when it has none).
pub proof fn law_full_row_columns(cols: Seq<ColumnInfo>, names: Seq<Seq<char>>, ps: Seq<int>, vs: Seq<ValueV>)
    requires positions_for(cols, names, ps), vs.len() == ps.len(),
    ensures full_row(cols, ps, vs).len() == cols.len(),
        forall|k: int| 0 <= k < ps.len() && (forall|l: int| k < l < ps.len() ==> !same_name(#[trigger] names[l], names[k]))
            ==> #[trigger] full_row(cols, ps, vs)[ps[k]] == vs[k],
        forall|c: int| 0 <= c < cols.len() && (forall|k: int| 0 <= k < names.len() ==> !same_name(cols[c].name@, #[trigger] names[k]))
            ==> #[trigger] full_row(cols, ps, vs)[c] == (match cols[c].default { Some(v) => v@, None => ValueV::Null }),
{
    let base = default_row(cols);
    lemma_assigned(base, ps, vs, ps.len() as int);
    assert forall|k: int| 0 <= k < ps.len() && (forall|l: int| k < l < ps.len() ==> !same_name(#[trigger] names[l], names[k]))
        implies #[trigger] full_row(cols, ps, vs)[ps[k]] == vs[k] by {
        assert forall|l: int| k < l < ps.len() implies #[trigger] ps[l] != ps[k] by {
            if ps[l] == ps[k] {
                assert(same_name(cols[ps[l]].name@, names[l]));
                assert(same_name(names[l], names[k]));
            }
        }
    }
    assert forall|c: int| 0 <= c < cols.len() && (forall|k: int| 0 <= k < names.len() ==> !same_name(cols[c].name@, #[trigger] names[k]))
        implies #[trigger] full_row(cols, ps, vs)[c] == (match cols[c].default { Some(v) => v@, None => ValueV::Null }) by {
        assert forall|j: int| 0 <= j < ps.len() implies #[trigger] ps[j] != c by {
            assert(same_name(cols[ps[j]].name@, names[j]));
        }
    }
}

/// An `INSERT` that fails on a clash and runs no trigger.
pub open spec fn plain_insert(db: Db, table: Seq<char>, conflict: ConflictMode, on_conflict: Option<OnConflict>) -> bool {
    &&& conflict == ConflictMode::Abort
    &&& on_conflict is None
    &&& !db.fires(table, TriggerTiming::Before, TriggerEvent::Insert)
    &&& !db.fires(table, TriggerTiming::After, TriggerEvent::Insert)
}

/// The rowid a new row of `t` with the given values gets: the integer in its
/// rowid column, else the next free rowid; `None` where the rowid column holds
/// something else or no rowid is left.
pub open spec fn new_rowid(t: Table, given: Seq<ValueV>) -> Option<int> {
    match rowid_col_from(t.columns@, 0) {
        Some(c) => match given[c] {
            ValueV::Int(x) => Some(x),
            ValueV::Null => match t.next_rowid_spec() { Some(k) => Some(k as int), None => None },
            _ => None,
        },
        None => match t.next_rowid_spec() { Some(k) => Some(k as int), None => None },
    }
}

/// Whether table `ti` of `db` takes a new row of the given values: one for
/// each column, a rowid that is free, no NULL in a NOT NULL column, and no
/// row with the same key of a unique index or the same value in a UNIQUE
/// column.
pub open spec fn insert_allowed(db: Db, ti: int, given: Seq<ValueV>) -> bool {
    let t = db.tables@[ti];
    &&& given.len() == t.columns@.len()
    &&& new_rowid(t, given) matches Some(k) && {
        let v = stored_row(t.columns@, given, k);
        &&& fits_not_null(t.columns@, v)
        &&& !t.contents().dom().contains(k)
        &&& fits_unique(t.columns@, t.contents(), v, None)
        &&& forall|a: int| 0 <= a < t.rows@.len() ==> !index_clash(&t, index_keys_spec(db, t, db.indexes@.len() as int), v, None, a)
    }
}

/// Whether `after` is `before` with one more row in the table of that name,
/// stored under rowid `k`, and nothing else changed in the tables or triggers.
pub open spec fn one_row_inserted(before: Db, after: Db, name: Seq<char>, given: Seq<ValueV>, k: int) -> bool {
    match table_from(before.tables@, name, 0) {
        Some(ti) => {
            &&& after.tables@ == before.tables@.update(ti, after.tables@[ti])
            &&& inserted_row(before.tables@[ti], after.tables@[ti], given, k)
            &&& after.triggers == before.triggers
        },
        None => false,
    }
}

/// Whether `after` is `before` where the table of that name gained a new row
/// for each row of constant values of a `VALUES` list, kept its other rows,
/// Whether `a` is `b` with one new row for each row of `rows`, the row `j`
/// stored under the key `ks[j]`: the keys are new and differ, the table holds
/// exactly the old keys and these, and a row of constant values is stored as
/// given.
pub open spec fn inserted_under(b: Table, a: Table, rows: Seq<Vec<Expr>>, ks: Seq<int>) -> bool {
    &&& ks.len() == rows.len()
    &&& forall|x: int| #[trigger] a.contents().dom().contains(x) <==> (b.contents().dom().contains(x) || ks.contains(x))
    &&& forall|j: int| 0 <= j < ks.len() ==> !b.contents().dom().contains(#[trigger] ks[j])
    &&& forall|j1: int, j2: int| 0 <= j1 < j2 < ks.len() ==> #[trigger] ks[j1] != #[trigger] ks[j2]
    &&& forall|j: int| 0 <= j < rows.len() ==> (#[trigger] constant_values(rows[j]@, MAX_FUEL as nat) matches Some(vs) ==>
            a.contents()[ks[j]] == stored_row(b.columns@, vs, ks[j]))
}

/// and nothing else changed in the tables or triggers.
pub open spec fn values_inserted(before: Db, after: Db, name: Seq<char>, rows: Seq<Vec<Expr>>) -> bool {
    match table_from(before.tables@, name, 0) {
        Some(ti) => {
            let b = before.tables@[ti];
            let a = after.tables@[ti];
            &&& after.tables@ == before.tables@.update(ti, a)
            &&& after.triggers == before.triggers
            &&& a.columns@ == b.columns@ && a.name@ == b.name@ && a.row_security == b.row_security
            &&& b.contents().submap_of(a.contents())
            &&& exists|ks: Seq<int>| inserted_under(b, a, rows, ks)
        },
        None => false,
    }
}

/// Whether new values of a row leave it under rowid `k`: the table has no
/// rowid column, or the values hold `k` there.
pub open spec fn keeps_rowid(cols: Seq<ColumnInfo>, values: Seq<ValueV>, k: int) -> bool {
    match rowid_col_from(cols, 0) {
        Some(c) => c < values.len() && values[c] == ValueV::Int(k),
        None => true,
    }
}

/// Whether a column has a foreign key with an ON DELETE action on the table of that name.
pub open spec fn fk_acts_on(c: ColumnInfo, name: Seq<char>) -> bool {
    c.references matches Some(f) && same_name(f.table@, name) && f.on_delete != FkAction::NoAction
}

/// Whether some column of some table has a foreign key with an ON DELETE
/// action on the table of that name.
pub open spec fn referenced_on_delete(db: Db, name: Seq<char>) -> bool {
    exists|tj: int, cj: int| 0 <= tj < db.tables@.len() && 0 <= cj < db.tables@[tj].columns@.len()
        && #[trigger] fk_acts_on(db.tables@[tj].columns@[cj], name)
}

/// A `DELETE` on the table that runs no trigger and no foreign-key action.
pub open spec fn plain_delete(db: Db, name: Seq<char>) -> bool {
    &&& !db.fires(name, TriggerTiming::Before, TriggerEvent::Delete)
    &&& !db.fires(name, TriggerTiming::After, TriggerEvent::Delete)
    &&& !referenced_on_delete(db, name)
}

/// Two tables that differ at most in their rows.
pub open spec fn same_shape(a: Table, b: Table) -> bool {
    a.columns@ == b.columns@ && a.name@ == b.name@ && a.row_security == b.row_security
}

/// The columns a condition of a statement on the table sees.
pub open spec fn own_cols(t: Table) -> Seq<ColView> {
    table_cols_view(t, t.name@)
}

/// The rowids of the rows that pass the condition, in order.
pub open spec fn passing_rowids(rows: Seq<Row>, cond: Option<Expr>, cols: Seq<ColView>, fuel: nat) -> Seq<i64>
    decreases rows.len(),
{
    if rows.len() == 0 {
        Seq::empty()
    } else {
        let prev = passing_rowids(rows.drop_last(), cond, cols, fuel);
        if passes(cond, cols, scan_row(rows.last()), fuel) { prev.push(rows.last().rowid) } else { prev }
    }
}

/// Whether the condition has a value on every row of the table of that name.
pub open spec fn decided_in(db: Db, name: Seq<char>, cond: Option<Expr>) -> bool {
    match table_from(db.tables@, name, 0) {
        Some(ti) => decided_on(cond, own_cols(db.tables@[ti]), db.tables@[ti].rows@, MAX_FUEL as nat),
        None => false,
    }
}

/// Whether `after` is `before` where the table of that name lost exactly the
/// rows on which the condition holds, kept the others unchanged, and nothing
/// else changed in the tables or triggers.
pub open spec fn rows_deleted(before: Db, after: Db, name: Seq<char>, cond: Option<Expr>) -> bool {
    match table_from(before.tables@, name, 0) {
        Some(ti) => {
            let b = before.tables@[ti];
            let a = after.tables@[ti];
            &&& after.tables@ == before.tables@.update(ti, a)
            &&& after.triggers == before.triggers
            &&& same_shape(a, b)
            &&& a.contents().submap_of(b.contents())
            &&& forall|i: int| 0 <= i < b.rows@.len() ==>
                    (a.contents().dom().contains(#[trigger] b.rows@[i].rowid as int)
                        <==> !passes(cond, own_cols(b), scan_row(b.rows@[i]), MAX_FUEL as nat))
        },
        None => false,
    }
}

/// Whether a rowid is among the first `n` of a list.
pub open spec fn removed_before(targets: Seq<i64>, n: int, k: int) -> bool {
    exists|j: int| 0 <= j < n && #[trigger] targets[j] as int == k
}

/// Foreign keys on a table do not depend on how its name is written, nor on
/// the rows of any table.
proof fn lemma_referenced_same(a: Db, b: Db, x: Seq<char>, y: Seq<char>)
    requires
        same_name(x, y),
        a.tables@.len() == b.tables@.len(),
        forall|tj: int| 0 <= tj < a.tables@.len() ==> (#[trigger] a.tables@[tj]).columns@ == b.tables@[tj].columns@,
    ensures referenced_on_delete(a, x) == referenced_on_delete(b, y),
{
    if referenced_on_delete(a, x) {
        let (tj, cj) = choose|tj: int, cj: int| 0 <= tj < a.tables@.len() && 0 <= cj < a.tables@[tj].columns@.len()
            && #[trigger] fk_acts_on(a.tables@[tj].columns@[cj], x);
        assert(a.tables@[tj].columns@ == b.tables@[tj].columns@);
        assert(fk_acts_on(b.tables@[tj].columns@[cj], y));
    }
    if referenced_on_delete(b, y) {
        let (tj, cj) = choose|tj: int, cj: int| 0 <= tj < b.tables@.len() && 0 <= cj < b.tables@[tj].columns@.len()
            && #[trigger] fk_acts_on(b.tables@[tj].columns@[cj], y);
        assert(a.tables@[tj].columns@ == b.tables@[tj].columns@);
        assert(fk_acts_on(a.tables@[tj].columns@[cj], x));
    }
}

/// A rowid is among the passing ones exactly when its row passes.
proof fn lemma_passing_rowids(rows: Seq<Row>, cond: Option<Expr>, cols: Seq<ColView>, fuel: nat, i: int)
    requires
        0 <= i < rows.len(),
        forall|a: int, b: int| 0 <= a < b < rows.len() ==> #[trigger] rows[a].rowid < #[trigger] rows[b].rowid,
    ensures
        passing_rowids(rows, cond, cols, fuel).contains(rows[i].rowid) == passes(cond, cols, scan_row(rows[i]), fuel),
    decreases rows.len(),
{
    let prev = passing_rowids(rows.drop_last(), cond, cols, fuel);
    lemma_passing_rowids_below(rows.drop_last(), cond, cols, fuel, rows.last().rowid);
    if i < rows.len() - 1 {
        lemma_passing_rowids(rows.drop_last(), cond, cols, fuel, i);
        assert(rows.drop_last()[i] == rows[i]);
        assert(rows[i].rowid < rows.last().rowid);
        if passes(cond, cols, scan_row(rows.last()), fuel) {
            if prev.push(rows.last().rowid).contains(rows[i].rowid) {
                let j = choose|j: int| 0 <= j < prev.push(rows.last().rowid).len() && prev.push(rows.last().rowid)[j] == rows[i].rowid;
                assert(j < prev.len());
                assert(prev[j] == rows[i].rowid);
            }
            if prev.contains(rows[i].rowid) {
                let j = choose|j: int| 0 <= j < prev.len() && prev[j] == rows[i].rowid;
                assert(prev.push(rows.last().rowid)[j] == rows[i].rowid);
            }
        }
    } else {
        if passes(cond, cols, scan_row(rows.last()), fuel) {
            assert(prev.push(rows.last().rowid)[prev.len() as int] == rows[i].rowid);
        } else if prev.contains(rows[i].rowid) {
            let j = choose|j: int| 0 <= j < prev.len() && prev[j] == rows[i].rowid;
            assert(prev[j] < rows.last().rowid);
        }
    }
}

/// The passing rowids of rows below a bound stay below it.
proof fn lemma_passing_rowids_below(rows: Seq<Row>, cond: Option<Expr>, cols: Seq<ColView>, fuel: nat, bound: i64)
    requires forall|a: int| 0 <= a < rows.len() ==> #[trigger] rows[a].rowid < bound,
    ensures forall|j: int| 0 <= j < passing_rowids(rows, cond, cols, fuel).len() ==>
        #[trigger] passing_rowids(rows, cond, cols, fuel)[j] < bound,
    decreases rows.len(),
{
    if rows.len() > 0 {
        lemma_passing_rowids_below(rows.drop_last(), cond, cols, fuel, bound);
        assert(rows.last() == rows[rows.len() - 1]);
        let prev = passing_rowids(rows.drop_last(), cond, cols, fuel);
        let all = passing_rowids(rows, cond, cols, fuel);
        assert forall|j: int| 0 <= j < all.len() implies #[trigger] all[j] < bound by {
            if j < prev.len() {
                assert(prev[j] < bound);
            }
        }
    }
}

/// The passing rowids of rows in increasing rowid order increase.
proof fn lemma_passing_rowids_increasing(rows: Seq<Row>, cond: Option<Expr>, cols: Seq<ColView>, fuel: nat)
    requires forall|a: int, b: int| 0 <= a < b < rows.len() ==> #[trigger] rows[a].rowid < #[trigger] rows[b].rowid,
    ensures ({
        let p = passing_rowids(rows, cond, cols, fuel);
        forall|a: int, b: int| 0 <= a < b < p.len() ==> #[trigger] p[a] < #[trigger] p[b]
    }),
    decreases rows.len(),
{
    if rows.len() > 0 {
        let prev = passing_rowids(rows.drop_last(), cond, cols, fuel);
        lemma_passing_rowids_increasing(rows.drop_last(), cond, cols, fuel);
        assert forall|a: int| 0 <= a < rows.drop_last().len() implies #[trigger] rows.drop_last()[a].rowid < rows.last().rowid by {
            assert(rows.drop_last()[a] == rows[a]);
        }
        lemma_passing_rowids_below(rows.drop_last(), cond, cols, fuel, rows.last().rowid);
        let p = passing_rowids(rows, cond, cols, fuel);
        assert forall|a: int, b: int| 0 <= a < b < p.len() implies #[trigger] p[a] < #[trigger] p[b] by {
            if b < prev.len() {
                assert(prev[a] < prev[b]);
            } else {
                assert(prev[a] < rows.last().rowid);
            }
        }
    }
}

/// Each passing rowid is the rowid of a row that passes.
proof fn lemma_passing_rowids_members(rows: Seq<Row>, cond: Option<Expr>, cols: Seq<ColView>, fuel: nat, j: int)
    requires 0 <= j < passing_rowids(rows, cond, cols, fuel).len(),
    ensures exists|x: int| 0 <= x < rows.len() && #[trigger] rows[x].rowid == passing_rowids(rows, cond, cols, fuel)[j]
        && passes(cond, cols, scan_row(rows[x]), fuel),
    decreases rows.len(),
{
    let prev = passing_rowids(rows.drop_last(), cond, cols, fuel);
    if j < prev.len() {
        lemma_passing_rowids_members(rows.drop_last(), cond, cols, fuel, j);
        let x = choose|x: int| 0 <= x < rows.drop_last().len() && #[trigger] rows.drop_last()[x].rowid == prev[j]
            && passes(cond, cols, scan_row(rows.drop_last()[x]), fuel);
        assert(rows.drop_last()[x] == rows[x]);
        assert(rows[x].rowid == passing_rowids(rows, cond, cols, fuel)[j]);
    } else {
        assert(rows[rows.len() - 1].rowid == passing_rowids(rows, cond, cols, fuel)[j]);
    }
}

/// Position of the first column from `i` on with the name.
pub open spec fn column_from(cols: Seq<ColumnInfo>, name: Seq<char>, i: int) -> Option<int>
    decreases cols.len() - i,
{
    if i < 0 || i >= cols.len() {
        None
    } else if same_name(cols[i].name@, name) {
        Some(i)
    } else {
        column_from(cols, name, i + 1)
    }
}

/// The first column found by name is the one `column_from` names.
pub proof fn lemma_column_from(cols: Seq<ColumnInfo>, name: Seq<char>, start: int, found: Option<int>)
    requires
        0 <= start <= cols.len(),
        found matches Some(x) ==> start <= x < cols.len() && same_name(cols[x].name@, name),
        forall|k: int| start <= k < cols.len() && (found matches Some(x) ==> k < x) ==> !same_name(#[trigger] cols[k].name@, name),
    ensures column_from(cols, name, start) == found,
    decreases cols.len() - start,
{
    if start < cols.len() && found != Some(start) {
        lemma_column_from(cols, name, start + 1, found);
    }
}

/// The values of a row after `SET` assignments, each evaluated on the row as
/// it was: a value goes to the first column with its name, and a later
/// assignment to a column wins. `None` when a column is unknown or an
/// assignment has no value.
pub open spec fn assigned_values(cols: Seq<ColumnInfo>, colv: Seq<ColView>, values: Seq<ValueV>, row: Seq<ValueV>,
    assigns: Seq<(Vec<char>, Expr)>) -> Option<Seq<ValueV>>
    decreases assigns.len(),
{
    if assigns.len() == 0 {
        Some(values)
    } else {
        match assigned_values(cols, colv, values, row, assigns.drop_last()) {
            Some(vs) => match (column_from(cols, assigns.last().0@, 0), core_eval(assigns.last().1, colv, row, MAX_FUEL as nat)) {
                (Some(p), Some(Some(v))) => Some(if p < vs.len() { vs.update(p, v) } else { vs }),
                _ => None,
            },
            None => None,
        }
    }
}

/// Assignments that have values have values on each of their prefixes.
proof fn lemma_assigned_prefix(cols: Seq<ColumnInfo>, colv: Seq<ColView>, values: Seq<ValueV>, row: Seq<ValueV>,
    assigns: Seq<(Vec<char>, Expr)>, a: int)
    requires 0 <= a < assigns.len(), assigned_values(cols, colv, values, row, assigns) is Some,
    ensures
        assigned_values(cols, colv, values, row, assigns.take(a)) is Some,
        column_from(cols, assigns[a].0@, 0) is Some,
        core_eval(assigns[a].1, colv, row, MAX_FUEL as nat) matches Some(Some(_)),
    decreases assigns.len(),
{
    if a < assigns.len() - 1 {
        lemma_assigned_prefix(cols, colv, values, row, assigns.drop_last(), a);
        assert(assigns.drop_last()[a] == assigns[a]);
        assert(assigns.drop_last().take(a) =~= assigns.take(a));
    } else {
        assert(assigns.drop_last() =~= assigns.take(a));
    }
}

/// The row stored under rowid `k` after the assignments.
pub open spec fn new_row(t: Table, assigns: Seq<(Vec<char>, Expr)>, k: int) -> Option<Seq<ValueV>> {
    assigned_values(t.columns@, own_cols(t), t.contents()[k], t.contents()[k].push(ValueV::Int(k)), assigns)
}

/// Whether the stored row under rowid `k` passes the condition.
pub open spec fn row_passes(t: Table, cond: Option<Expr>, k: int) -> bool {
    passes(cond, own_cols(t), t.contents()[k].push(ValueV::Int(k)), MAX_FUEL as nat)
}

/// An `UPDATE` of the table that runs no trigger.
pub open spec fn plain_update(db: Db, name: Seq<char>) -> bool {
    &&& !db.fires(name, TriggerTiming::Before, TriggerEvent::Update)
    &&& !db.fires(name, TriggerTiming::After, TriggerEvent::Update)
}

/// The condition has a value on every row of the table, and the assignments
/// have values on every row it selects, rows that keep their rowids.
pub open spec fn update_decided(db: Db, name: Seq<char>, assigns: Seq<(Vec<char>, Expr)>, cond: Option<Expr>) -> bool {
    match table_from(db.tables@, name, 0) {
        Some(ti) => {
            let t = db.tables@[ti];
            &&& decided_on(cond, own_cols(t), t.rows@, MAX_FUEL as nat)
            &&& forall|k: int| #[trigger] t.contents().dom().contains(k) && row_passes(t, cond, k) ==>
                    (new_row(t, assigns, k) matches Some(vs) && keeps_rowid(t.columns@, vs, k))
        },
        None => false,
    }
}

/// Whether `after` is `before` where each row of the table of that name on
/// which the condition holds took the assigned values, the other rows stayed
/// as they were, and nothing else changed in the tables or triggers.
pub open spec fn rows_updated(before: Db, after: Db, name: Seq<char>, assigns: Seq<(Vec<char>, Expr)>, cond: Option<Expr>) -> bool {
    match table_from(before.tables@, name, 0) {
        Some(ti) => {
            let b = before.tables@[ti];
            let a = after.tables@[ti];
            &&& after.tables@ == before.tables@.update(ti, a)
            &&& after.triggers == before.triggers
            &&& same_shape(a, b)
            &&& a.contents().dom() == b.contents().dom()
            &&& forall|k: int| #[trigger] b.contents().dom().contains(k) ==> a.contents()[k]
                    == if row_passes(b, cond, k) { new_row(b, assigns, k).unwrap() } else { b.contents()[k] }
        },
        None => false,
    }
}

/// Without a condition, a scan returns the stored values of every row, in order.
pub proof fn lemma_selected_all(rows: Seq<Row>, cols: Seq<ColView>, fuel: nat)
    ensures selected_rows(rows, None, cols, fuel) == rows.map_values(|r: Row| vals(r.values@)),
    decreases rows.len(),
{
    if rows.len() > 0 {
        lemma_selected_all(rows.drop_last(), cols, fuel);
        assert(rows.map_values(|r: Row| vals(r.values@))
            =~= rows.drop_last().map_values(|r: Row| vals(r.values@)).push(vals(rows.last().values@)));
    }
}

/// After `INSERT INTO t VALUES ...` that fails on clashes and runs no
/// trigger, `SELECT * FROM t` returns each inserted row of constant values
/// as it was stored.
pub proof fn law_select_returns_inserted(before: Db, after: Db, name: Seq<char>, rows: Seq<Vec<Expr>>, j: int, q: Query, fuel: nat)
    requires
        after.wf(),
        values_inserted(before, after, name, rows),
        0 <= j < rows.len(),
        constant_values(rows[j]@, MAX_FUEL as nat) is Some,
        scan_query(q) matches Some((n, alias, cond)) && same_name(n, name) && cond is None,
        table_from(before.tables@, name, 0) matches Some(ti) && !before.tables@[ti].row_security,
    ensures ({
        let ti = table_from(before.tables@, name, 0).unwrap();
        let vs = constant_values(rows[j]@, MAX_FUEL as nat).unwrap();
        scan_result(after.tables@, q, fuel) matches Some(out)
            && exists|k: int| out.contains(stored_row(before.tables@[ti].columns@, vs, k))
    }),
{
    let ti = table_from(before.tables@, name, 0).unwrap();
    crate::vm::semantics::lemma_table_from_found(before.tables@, name, 0);
    let vs = constant_values(rows[j]@, MAX_FUEL as nat).unwrap();
    let b = before.tables@[ti];
    let a = after.tables@[ti];
    assert(constant_values(rows[j]@, MAX_FUEL as nat) matches Some(vs2) && vs2 == vs);
    let ks = choose|ks: Seq<int>| inserted_under(b, a, rows, ks);
    let k = ks[j];
    assert(ks.contains(k));
    assert(a.contents().dom().contains(k));
    assert(after.tables@.len() == before.tables@.len());
    assert(a.wf()) by { assert(tables_wf(after.tables@)); assert(after.tables@[ti].wf()); }
    let i = choose|i: int| 0 <= i < a.rows@.len() && #[trigger] a.rows@[i].rowid == k;
    lemma_contents_at(&a, i);
    let (n, alias, cond) = scan_query(q).unwrap();
    lemma_table_from_same_name(after.tables@, n, name, 0);
    lemma_table_from_update(before.tables@, name, ti, a, 0);
    assert(after.tables@ == before.tables@.update(ti, a));
    let cols = table_cols_view(a, alias);
    lemma_selected_all(a.rows@, cols, fuel);
    let out = a.rows@.map_values(|r: Row| vals(r.values@));
    assert(scan_result(after.tables@, q, fuel) == Some(out));
    assert(out[i] == stored_row(b.columns@, vs, k));
}

/// Databases with the same triggers run the same ones.
pub proof fn lemma_fires_same_triggers(a: Db, b: Db)
    requires a.triggers == b.triggers,
    ensures forall|name: Seq<char>, t: TriggerTiming, e: TriggerEvent| #[trigger] a.fires(name, t, e) == b.fires(name, t, e),
{
    assert(a.triggers@ == b.triggers@);
    assert forall|name: Seq<char>, t: TriggerTiming, e: TriggerEvent| #[trigger] a.fires(name, t, e) == b.fires(name, t, e) by {
        if a.fires(name, t, e) {
            let j = choose|j: int| 0 <= j < a.triggers@.len() && #[trigger] a.trigger_fires(j, name, t, e);
            assert(b.trigger_fires(j, name, t, e));
        }
        if b.fires(name, t, e) {
            let j = choose|j: int| 0 <= j < b.triggers@.len() && #[trigger] b.trigger_fires(j, name, t, e);
            assert(a.trigger_fires(j, name, t, e));
        }
    }
}

/// Triggers that run for a name run for the same name written otherwise.
proof fn lemma_fires_same_name(db: Db, a: Seq<char>, b: Seq<char>, timing: TriggerTiming, event: TriggerEvent)
    requires same_name(a, b),
    ensures db.fires(a, timing, event) == db.fires(b, timing, event),
{
    assert forall|j: int| 0 <= j < db.triggers@.len() implies db.trigger_fires(j, a, timing, event) == db.trigger_fires(j, b, timing, event) by {}
    if db.fires(a, timing, event) {
        let j = choose|j: int| 0 <= j < db.triggers@.len() && #[trigger] db.trigger_fires(j, a, timing, event);
        assert(db.trigger_fires(j, b, timing, event));
    }
    if db.fires(b, timing, event) {
        let j = choose|j: int| 0 <= j < db.triggers@.len() && #[trigger] db.trigger_fires(j, b, timing, event);
        assert(db.trigger_fires(j, a, timing, event));
    }
}

impl Db {
    /// Evaluates the rows of a `VALUES` list.
    fn value_rows(&self, rows: &Vec<Vec<Expr>>) -> (r: Result<Vec<Vec<Value>>>)
        ensures
            r matches Ok(out) ==> out@.len() == rows@.len()
                && forall|i: int| 0 <= i < out@.len() ==> (#[trigger] out@[i])@.len() == rows@[i]@.len()
                    && (constant_values(rows@[i]@, MAX_FUEL as nat) matches Some(vs) ==> vals(out@[i]@) == vs),
            (forall|i: int| 0 <= i < rows@.len() ==> (#[trigger] constant_values(rows@[i]@, MAX_FUEL as nat)) is Some) ==> r is Ok,
    {
        let cols: Vec<ColRef> = Vec::new();
        let empty: Vec<Value> = Vec::new();
        assert(col_views(cols@) =~= Seq::<ColView>::empty());
        assert(vals(empty@) =~= Seq::<ValueV>::empty());
        let ghost f = MAX_FUEL as nat;
        let ghost all_some = forall|i: int| 0 <= i < rows@.len() ==> (#[trigger] constant_values(rows@[i]@, MAX_FUEL as nat)) is Some;
        let mut out: Vec<Vec<Value>> = Vec::new();
        let mut i: usize = 0;
        while i < rows.len()
            invariant i <= rows@.len(), out@.len() == i, col_views(cols@) == Seq::<ColView>::empty(),
                all_some == forall|i: int| 0 <= i < rows@.len() ==> (#[trigger] constant_values(rows@[i]@, MAX_FUEL as nat)) is Some,
                vals(empty@) == Seq::<ValueV>::empty(), f == MAX_FUEL as nat,
                forall|k: int| 0 <= k < i ==> (#[trigger] out@[k])@.len() == rows@[k]@.len()
                    && (constant_values(rows@[k]@, f) matches Some(vs) ==> vals(out@[k]@) == vs),
            decreases rows.len() - i,
        {
            let ghost es = rows@[i as int]@;
            assert(all_some ==> constant_values(rows@[i as int]@, MAX_FUEL as nat) is Some);
            let mut r: Vec<Value> = Vec::new();
            let mut j: usize = 0;
            while j < rows[i].len()
                invariant j <= es.len(), r@.len() == j, i < rows@.len(), es == rows@[i as int]@,
                    all_some ==> core_eval_list(es, Seq::empty(), Seq::empty(), f) matches Some(Some(_)),
                    all_some == forall|i: int| 0 <= i < rows@.len() ==> (#[trigger] constant_values(rows@[i]@, MAX_FUEL as nat)) is Some,
                    col_views(cols@) == Seq::<ColView>::empty(), vals(empty@) == Seq::<ValueV>::empty(), f == MAX_FUEL as nat,
                    core_eval_list(es.take(j as int), Seq::empty(), Seq::empty(), f) matches Some(x) ==> x == Some(vals(r@)),
                decreases es.len() - j,
            {
                match eval_expr(self, &rows[i][j], &cols, &empty, None, MAX_FUEL) {
                    Ok(v) => {
                        proof {
                            let t2 = es.take(j + 1);
                            assert(t2.drop_last() =~= es.take(j as int));
                            assert(t2.last() == es[j as int]);
                        }
                        r.push(v);
                        assert(vals(r@) =~= vals(r@.drop_last()).push(v@));
                    },
                    Err(err) => {
                        proof {
                            if core_eval_list(es, Seq::empty(), Seq::empty(), f) matches Some(Some(_)) {
                                lemma_core_eval_list_prefix(es, Seq::empty(), Seq::empty(), f, j as int);
                            }
                        }
                        return Err(err);
                    },
                }
                j += 1;
            }
            assert(es.take(es.len() as int) =~= es);
            out.push(r);
            i += 1;
        }
        Ok(out)
    }

    /// The rows of a `RETURNING` clause, projected from stored rows (each followed by its rowid).
    fn returning_result(&self, table: &Vec<char>, items: &Vec<SelectItem>, rows: &Vec<Vec<Value>>) -> (r: Result<ExecResult>)
        ensures
            match table_from(self.tables@, table@, 0) {
                None => r matches Err(e) && e.kind == ErrorKind::Schema,
                Some(ti) => {
                    let cv = table_cols_view(self.tables@[ti], table@);
                    match projected_rows(items@, cv, rows_view(rows@), rows@.len() as int) {
                        Some(Some(ps)) => r matches Ok(ExecResult::QueryResult { columns, rows: out })
                            && rows_view(out@) == ps && strings_view(columns@) == output_names_spec(items@, cv),
                        Some(None) => r is Err,
                        None => true,
                    }
                },
            },
    {
        let ti = match self.table_index(table) {
            Some(i) => i,
            None => {
                proof { lemma_table_from(self.tables@, table@, 0, None); }
                return named_error(ErrorKind::Schema, "no such table: ", table);
            },
        };
        proof { lemma_table_from(self.tables@, table@, 0, Some(ti as int)); }
        let cols = table_colrefs(&self.tables[ti], table);
        let ghost cv = table_cols_view(self.tables@[ti as int], table@);
        let names = output_names(items, &cols);
        let wins: Vec<Option<Vec<Value>>> = Vec::new();
        assert(crate::vm::query::wins_view(wins@) =~= Seq::<Option<Seq<ValueV>>>::empty());
        let mut out: Vec<Vec<Value>> = Vec::new();
        let mut i: usize = 0;
        assert(rows_view(out@) =~= Seq::<Seq<ValueV>>::empty());
        while i < rows.len()
            invariant i <= rows@.len(), col_views(cols@) == cv, wins@.len() == 0,
                table_from(self.tables@, table@, 0) == Some(ti as int), ti < self.tables@.len(),
                cv == table_cols_view(self.tables@[ti as int], table@),
                crate::vm::query::wins_view(wins@) == Seq::<Option<Seq<ValueV>>>::empty(),
                projected_rows(items@, cv, rows_view(rows@), i as int) is Some ==>
                    projected_rows(items@, cv, rows_view(rows@), i as int) == Some(Some(rows_view(out@))),
            decreases rows.len() - i,
        {
            assert(rows_view(rows@)[i as int] == vals(rows@[i as int]@));
            let p = match project_row(self, items, &cols, &rows[i], None, &wins, 0, MAX_FUEL) {
                Ok(p) => p,
                Err(e) => {
                    proof {
                        if projected_rows(items@, cv, rows_view(rows@), i as int) matches Some(Some(_)) {
                            assert(crate::vm::query::group_view(None) is None);
                            assert(!(projected_rows(items@, cv, rows_view(rows@), i + 1) matches Some(Some(_))));
                            lemma_projected_stuck(items@, cv, rows_view(rows@), i + 1, rows@.len() as int);
                        } else {
                            lemma_projected_stuck(items@, cv, rows_view(rows@), i as int, rows@.len() as int);
                        }
                    }
                    return Err(e);
                },
            };
            proof { assert(rows_view(out@.push(p)) =~= rows_view(out@).push(vals(p@))); }
            out.push(p);
            i += 1;
        }
        let ghost nm = names@;
        let res = query_result(Output { names, rows: out });
        proof {
            assert(strings_view(res->QueryResult_columns@) =~= names_view(nm));
        }
        Ok(res)
    }

    /// Rowids of the rows of table `ti` on which the condition holds (all rows without one).
    fn matching_rowids(&self, ti: usize, cond: &Option<Expr>) -> (r: Result<Vec<i64>>)
        requires ti < self.tables@.len(),
        ensures ({
            let t = self.tables@[ti as int];
            decided_on(*cond, own_cols(t), t.rows@, MAX_FUEL as nat) ==>
                (r matches Ok(out) && out@ == passing_rowids(t.rows@, *cond, own_cols(t), MAX_FUEL as nat))
        }),
    {
        let t = &self.tables[ti];
        let cols = table_colrefs(t, &t.name);
        let ghost cv = own_cols(*t);
        let ghost decided = decided_on(*cond, cv, t.rows@, MAX_FUEL as nat);
        let mut out: Vec<i64> = Vec::new();
        let mut i: usize = 0;
        while i < t.rows.len()
            invariant i <= t.rows@.len(), t == &self.tables[ti as int], col_views(cols@) == cv,
                cv == own_cols(*t), decided == decided_on(*cond, cv, t.rows@, MAX_FUEL as nat),
                decided ==> out@ == passing_rowids(t.rows@.take(i as int), *cond, cv, MAX_FUEL as nat),
            decreases t.rows.len() - i,
        {
            proof {
                assert(t.rows@.take(i + 1).drop_last() =~= t.rows@.take(i as int));
                assert(t.rows@.take(i + 1).last() == t.rows@[i as int]);
            }
            let keep = match cond {
                None => true,
                Some(c) => {
                    let row = row_with_rowid(&t.rows[i]);
                    proof {
                        if decided {
                            assert(core_eval(*c, cv, scan_row(t.rows@[i as int]), MAX_FUEL as nat) matches Some(Some(_)));
                        }
                    }
                    let v = eval_expr(self, c, &cols, &row, None, MAX_FUEL)?;
                    is_true(&v)
                },
            };
            assert(decided ==> keep == passes(*cond, cv, scan_row(t.rows@[i as int]), MAX_FUEL as nat));
            if keep {
                out.push(t.rows[i].rowid);
            }
            i += 1;
        }
        proof { assert(t.rows@.take(t.rows@.len() as int) =~= t.rows@); }
        Ok(out)
    }

    /// The next free rowid of table `ti`.
    fn fresh_rowid(&self, ti: usize) -> (r: Result<i64>)
        requires ti < self.tables@.len(), self.tables@[ti as int].wf(),
        ensures
            r matches Ok(k) ==> !self.tables@[ti as int].contents().dom().contains(k as int),
            match self.tables[ti as int].next_rowid_spec() {
                Some(k) => r == Ok::<i64, KkdbError>(k),
                None => r matches Err(e) && e.kind == ErrorKind::Overflow,
            },
    {
        match self.tables[ti].next_rowid() {
            Some(k) => Ok(k),
            None => fail(ErrorKind::Overflow, "no rowid is left"),
        }
    }

    /// `INSERT`: adds the rows of a `VALUES` list or a query; columns that are
    /// not listed take their default.
    pub fn insert(&mut self, table: &Vec<char>, columns: &Option<Vec<Vec<char>>>, source: &InsertSource,
        conflict: ConflictMode, on_conflict: &Option<OnConflict>, returning: &Option<Vec<SelectItem>>, depth: u32)
        -> (r: Result<ExecResult>)
        requires old(self).wf(),
        ensures final(self).wf(),
            !old(self).has_table(table@) ==> r is Err && *final(self) == *old(self),
            (columns is None && plain_insert(*old(self), table@, conflict, *on_conflict)) ==>
                (source matches InsertSource::Values(rows) ==> (r is Ok ==> values_inserted(*old(self), *final(self), table@, rows@))),
            (columns is None && plain_insert(*old(self), table@, conflict, *on_conflict) && returning is None) ==>
                (source matches InsertSource::Values(rows) ==> (rows@.len() == 1 ==>
                    match (table_from(old(self).tables@, table@, 0), constant_values(rows@[0]@, MAX_FUEL as nat)) {
                        (Some(ti), Some(vs)) => vs.len() == old(self).tables@[ti].columns@.len() ==>
                            (r is Ok <==> insert_allowed(*old(self), ti, vs)),
                        _ => true,
                    })),
            (columns is Some && plain_insert(*old(self), table@, conflict, *on_conflict) && returning is None) ==>
                (source matches InsertSource::Values(rows) ==> (rows@.len() == 1 ==>
                    match (table_from(old(self).tables@, table@, 0), constant_values(rows@[0]@, MAX_FUEL as nat)) {
                        (Some(ti), Some(vs)) => forall|ps: Seq<int>| #[trigger] positions_for(old(self).tables@[ti].columns@, names_view(columns.unwrap()@), ps)
                            && vs.len() == ps.len() ==>
                            (r is Ok <==> insert_allowed(*old(self), ti, full_row(old(self).tables@[ti].columns@, ps, vs)))
                            && (r is Ok ==> exists|k: int| one_row_inserted(*old(self), *final(self), table@, full_row(old(self).tables@[ti].columns@, ps, vs), k)),
                        _ => true,
                    })),
        decreases depth, 9int,
    {
        let ti = match self.table_index(table) {
            Some(i) => i,
            None => {
                proof { lemma_table_from(self.tables@, table@, 0, None); }
                return named_error(ErrorKind::Schema, "no such table: ", table);
            },
        };
        let tname = copy_chars(&self.tables[ti].name);
        proof {
            lemma_table_from(self.tables@, table@, 0, Some(ti as int));
            lemma_table_from_same_name(self.tables@, tname@, table@, 0);
            lemma_fires_same_name(*self, tname@, table@, TriggerTiming::Before, TriggerEvent::Insert);
            lemma_fires_same_name(*self, tname@, table@, TriggerTiming::After, TriggerEvent::Insert);
        }
        let ghost vrows: Seq<Vec<Expr>> = match source { InsertSource::Values(rows) => rows@, _ => Seq::empty() };
        let ghost plain = columns is None && plain_insert(*old(self), table@, conflict, *on_conflict) && source is Values;
        let ghost cl = columns is Some && plain_insert(*old(self), table@, conflict, *on_conflict) && returning is None
            && source is Values && vrows.len() == 1 && constant_values(vrows[0]@, MAX_FUEL as nat) is Some;
        let ghost nmv: Seq<Seq<char>> = match columns { Some(names) => names_view(names@), None => Seq::empty() };
        let ncols = self.tables[ti].columns.len();
        let mut positions: Vec<usize> = Vec::new();
        match columns {
            None => {
                let mut c: usize = 0;
                while c < ncols
                    invariant c <= ncols, positions@.len() == c,
                        forall|k: int| 0 <= k < positions@.len() ==> #[trigger] positions@[k] == k,
                    decreases ncols - c,
                {
                    positions.push(c);
                    c += 1;
                }
            },
            Some(names) => {
                let mut k: usize = 0;
                while k < names.len()
                    invariant k <= names@.len(), ti < self.tables@.len(), ncols == self.tables@[ti as int].columns@.len(), self.wf(),
                        *self == *old(self), columns is Some, nmv == names_view(names@), names_view(columns.unwrap()@) == nmv,
                        table_from(old(self).tables@, table@, 0) == Some(ti as int),
                        forall|j: int| 0 <= j < positions@.len() ==> #[trigger] positions@[j] < ncols,
                        positions_for(self.tables@[ti as int].columns@, nmv.take(k as int), positions@.map_values(|p: usize| p as int)),
                    decreases names.len() - k,
                {
                    let ghost old_pm = positions@.map_values(|p: usize| p as int);
                    match column_index(&self.tables[ti], &names[k]) {
                        Some(c) => {
                            positions.push(c);
                            proof {
                                let pm = positions@.map_values(|p: usize| p as int);
                                assert(pm =~= old_pm.push(c as int));
                                assert(nmv.take(k + 1)[k as int] == names@[k as int]@);
                                assert forall|j: int| 0 <= j < pm.len() implies 0 <= #[trigger] pm[j] < self.tables@[ti as int].columns@.len()
                                    && same_name(self.tables@[ti as int].columns@[pm[j]].name@, nmv.take(k + 1)[j])
                                    && forall|q: int| 0 <= q < pm[j] ==> !same_name((#[trigger] self.tables@[ti as int].columns@[q]).name@, nmv.take(k + 1)[j]) by {
                                    if j < k {
                                        assert(pm[j] == old_pm[j]);
                                        assert(nmv.take(k + 1)[j] == nmv.take(k as int)[j]);
                                    }
                                }
                            }
                        },
                        None => {
                            proof {
                                assert(table_from(old(self).tables@, table@, 0) == Some(ti as int));
                                assert(names_view(columns.unwrap()@) == nmv);
                                assert forall|ps: Seq<int>| #[trigger] positions_for(self.tables@[ti as int].columns@, nmv, ps) implies false by {
                                    assert(same_name(self.tables@[ti as int].columns@[ps[k as int]].name@, nmv[k as int]));
                                }
                            }
                            return named_error(ErrorKind::Schema, "no such column: ", &names[k]);
                        },
                    }
                    k += 1;
                }
                assert(nmv.take(names@.len() as int) =~= nmv);
            },
        }
        let src: Vec<Vec<Value>> = match source {
            InsertSource::Values(rows) => self.value_rows(rows)?,
            InsertSource::Query(q) => exec_query(self, q, None, MAX_FUEL)?.rows,
        };
        assert(plain ==> src@.len() == vrows.len() && forall|j: int| 0 <= j < src@.len() ==> (#[trigger] src@[j])@.len() == vrows[j]@.len()
            && (constant_values(vrows[j]@, MAX_FUEL as nat) matches Some(vs) ==> vals(src@[j]@) == vs));
        let ghost cvs = constant_values(vrows[0]@, MAX_FUEL as nat).unwrap();
        let ghost pm = positions@.map_values(|p: usize| p as int);
        proof {
            if cl {
                assert(vals(src@[0]@) == cvs);
                assert(positions_for(old(self).tables@[ti as int].columns@, nmv, pm));
                lemma_positions_unique(old(self).tables@[ti as int].columns@, nmv, pm);
                assert(table_from(old(self).tables@, table@, 0) == Some(ti as int));
                assert(names_view(columns.unwrap()@) == nmv);
            }
        }
        let mut defaults: Vec<Value> = Vec::new();
        let mut c: usize = 0;
        while c < ncols
            invariant c <= ncols, defaults@.len() == c, ti < self.tables@.len(), ncols == self.tables@[ti as int].columns@.len(),
                *self == *old(self), vals(defaults@) == default_row(self.tables@[ti as int].columns@).take(c as int),
            decreases ncols - c,
        {
            match &self.tables[ti].columns[c].default {
                Some(v) => defaults.push(copy_value(v)),
                None => defaults.push(Value::Null),
            }
            assert(vals(defaults@) =~= default_row(self.tables@[ti as int].columns@).take(c + 1));
            c += 1;
        }
        assert(vals(defaults@) =~= default_row(old(self).tables@[ti as int].columns@));
        let ghost t0 = old(self).tables@[ti as int];
        assert(old(self).has_table(table@)) by { assert(same_name(old(self).tables@[ti as int].name@, table@)); }
        let ghost mut ks: Seq<int> = Seq::empty();
        let ghost single = plain && returning is None && vrows.len() == 1
            && constant_values(vrows[0]@, MAX_FUEL as nat) is Some
            && constant_values(vrows[0]@, MAX_FUEL as nat).unwrap().len() == ncols;
        let mut stored: Vec<Vec<Value>> = Vec::new();
        let mut i: usize = 0;
        while i < src.len()
            invariant i <= src@.len(), self.wf(), defaults@.len() == ncols,
                i == 0 ==> *self == *old(self),
                table_from(old(self).tables@, table@, 0) == Some(ti as int),
                vrows == match source { InsertSource::Values(rows) => rows@, _ => Seq::<Vec<Expr>>::empty() },
                single == (plain && returning is None && vrows.len() == 1
                    && constant_values(vrows[0]@, MAX_FUEL as nat) is Some
                    && constant_values(vrows[0]@, MAX_FUEL as nat).unwrap().len() == ncols),
                single && i == 1 ==> insert_allowed(*old(self), ti as int, constant_values(vrows[0]@, MAX_FUEL as nat).unwrap()),
                cl == (columns is Some && plain_insert(*old(self), table@, conflict, *on_conflict) && returning is None
                    && source is Values && vrows.len() == 1 && constant_values(vrows[0]@, MAX_FUEL as nat) is Some),
                cvs == constant_values(vrows[0]@, MAX_FUEL as nat).unwrap(), pm == positions@.map_values(|p: usize| p as int),
                vals(defaults@) == default_row(t0.columns@),
                cl ==> src@.len() == 1 && vals(src@[0]@) == cvs && positions_for(t0.columns@, nmv, pm)
                    && plain_insert(*old(self), tname@, conflict, *on_conflict)
                    && (forall|qs: Seq<int>| #[trigger] positions_for(t0.columns@, nmv, qs) ==> qs == pm)
                    && table_from(old(self).tables@, table@, 0) == Some(ti as int) && names_view(columns.unwrap()@) == nmv,
                cl && i == 1 ==> insert_allowed(*old(self), ti as int, full_row(t0.columns@, pm, cvs))
                    && exists|k: int| one_row_inserted(*old(self), *self, tname@, full_row(t0.columns@, pm, cvs), k),
                forall|k: int| 0 <= k < positions@.len() ==> #[trigger] positions@[k] < ncols,
                ks.len() == i, ti < old(self).tables@.len(), t0 == old(self).tables@[ti as int], old(self).has_table(table@),
                ncols == t0.columns@.len(), tname@ == t0.name@,
                table_from(old(self).tables@, tname@, 0) == Some(ti as int),
                plain == (columns is None && plain_insert(*old(self), table@, conflict, *on_conflict) && source is Values),
                plain ==> positions@.len() == ncols && forall|k: int| 0 <= k < positions@.len() ==> #[trigger] positions@[k] == k,
                plain ==> plain_insert(*old(self), tname@, conflict, *on_conflict),
                plain ==> src@.len() == vrows.len() && forall|j: int| 0 <= j < src@.len() ==> (#[trigger] src@[j])@.len() == vrows[j]@.len()
                    && (constant_values(vrows[j]@, MAX_FUEL as nat) matches Some(vs) ==> vals(src@[j]@) == vs),
                plain ==> self.triggers == old(self).triggers,
                plain ==> self.tables@.len() == old(self).tables@.len()
                    && self.tables@ == old(self).tables@.update(ti as int, self.tables@[ti as int]),
                plain ==> self.tables@[ti as int].columns@ == t0.columns@ && self.tables@[ti as int].name@ == t0.name@
                    && self.tables@[ti as int].row_security == t0.row_security,
                plain ==> t0.contents().submap_of(self.tables@[ti as int].contents()),
                plain ==> forall|j: int| 0 <= j < i ==> (#[trigger] constant_values(vrows[j]@, MAX_FUEL as nat) matches Some(vs) ==>
                    self.tables@[ti as int].contents().dom().contains(ks[j]) && !t0.contents().dom().contains(ks[j])
                    && self.tables@[ti as int].contents()[ks[j]] == stored_row(t0.columns@, vs, ks[j])),
                plain ==> forall|x: int| #[trigger] self.tables@[ti as int].contents().dom().contains(x)
                    <==> (t0.contents().dom().contains(x) || ks.contains(x)),
                plain ==> forall|j: int| 0 <= j < i ==> !t0.contents().dom().contains(#[trigger] ks[j]),
                plain ==> forall|j1: int, j2: int| 0 <= j1 < j2 < i ==> #[trigger] ks[j1] != #[trigger] ks[j2],
            decreases src.len() - i,
        {
            proof {
                if single {
                    assert(i == 0);
                    assert(vals(src@[0]@) == constant_values(vrows[0]@, MAX_FUEL as nat).unwrap());
                    assert(vals(src@[0]@).len() == src@[0]@.len());
                    assert(src@[0]@.len() == ncols);
                }
            }
            if src[i].len() != positions.len() {
                return fail(ErrorKind::Schema, "the number of values does not match the number of columns");
            }
            let mut row = copy_row(&defaults);
            let mut k: usize = 0;
            while k < positions.len()
                invariant k <= positions@.len(), row@.len() == ncols, i < src@.len(), src@[i as int]@.len() == positions@.len(),
                    forall|j: int| 0 <= j < positions@.len() ==> #[trigger] positions@[j] < ncols,
                    plain ==> positions@.len() == ncols && forall|q: int| 0 <= q < positions@.len() ==> #[trigger] positions@[q] == q,
                    plain ==> forall|q: int| 0 <= q < k ==> (#[trigger] row@[q])@ == src@[i as int]@[q]@,
                    pm == positions@.map_values(|p: usize| p as int),
                    cl && i == 0 ==> vals(row@) == assigned(default_row(t0.columns@), pm, cvs, k as int) && vals(src@[0]@) == cvs,
                decreases positions.len() - k,
            {
                row.set(positions[k], copy_value(&src[i][k]));
                proof {
                    if cl && i == 0 {
                        assert(vals(row@) =~= assigned(default_row(t0.columns@), pm, cvs, k + 1));
                    }
                }
                k += 1;
            }
            let ghost pre = *self;
            let ghost given = vals(row@);
            proof {
                if plain {
                    assert(given =~= vals(src@[i as int]@));
                    lemma_fires_same_triggers(pre, *old(self));
                    lemma_table_from_update(old(self).tables@, tname@, ti as int, self.tables@[ti as int], 0);
                    assert(old(self).tables@.update(ti as int, self.tables@[ti as int]) == self.tables@);
                }
            }
            proof {
                if single {
                    assert(i == 0);
                    assert(given == constant_values(vrows[0]@, MAX_FUEL as nat).unwrap());
                }
                if cl {
                    assert(i == 0);
                    assert(pm.len() == positions@.len());
                    assert(given == full_row(t0.columns@, pm, cvs));
                }
            }
            let one = match self.insert_one(&tname, row, conflict, on_conflict, depth) {
                Ok(x) => x,
                Err(e) => {
                    proof {
                        if single {
                            assert(pre == *old(self));
                            assert(plain_insert(pre, tname@, conflict, *on_conflict));
                            assert(!insert_allowed(*old(self), ti as int, given));
                        }
                        if cl {
                            assert(pre == *old(self));
                            assert(!insert_allowed(*old(self), ti as int, given));
                        }
                    }
                    return Err(e);
                },
            };
            match one {
                Some(r) => {
                    proof {
                        if cl {
                            let k = match r@.last() { Value::Integer(x) => x as int, _ => 0 };
                            assert(one_row_inserted(*old(self), *self, tname@, full_row(t0.columns@, pm, cvs), k)) by {
                                assert(pre == *old(self));
                            }
                        }
                    }
                    proof {
                        let k = match r@.last() { Value::Integer(x) => x as int, _ => 0 };
                        if plain {
                            let a = self.tables@[ti as int];
                            let bt = pre.tables@[ti as int];
                            assert(inserted_row(bt, a, given, k));
                            lemma_table_from_update(old(self).tables@, tname@, ti as int, a, 0);
                            assert(self.tables@ =~= old(self).tables@.update(ti as int, a));
                            assert(t0.contents().submap_of(a.contents()));
                            assert forall|j: int| 0 <= j < i + 1 implies (#[trigger] constant_values(vrows[j]@, MAX_FUEL as nat) matches Some(vs) ==>
                                a.contents().dom().contains(ks.push(k)[j]) && !t0.contents().dom().contains(ks.push(k)[j])
                                && a.contents()[ks.push(k)[j]] == stored_row(t0.columns@, vs, ks.push(k)[j])) by {
                                if j < i {
                                    assert(ks.push(k)[j] == ks[j]);
                                    if constant_values(vrows[j]@, MAX_FUEL as nat) is Some {
                                        assert(bt.contents().dom().contains(ks[j]));
                                        assert(ks[j] != k);
                                    }
                                }
                            }
                            let ks2 = ks.push(k);
                            assert(!bt.contents().dom().contains(k));
                            assert(!t0.contents().dom().contains(k) && !ks.contains(k));
                            assert forall|x: int| #[trigger] a.contents().dom().contains(x)
                                <==> (t0.contents().dom().contains(x) || ks2.contains(x)) by {
                                if ks2.contains(x) && x != k {
                                    let j = choose|j: int| 0 <= j < ks2.len() && ks2[j] == x;
                                    assert(ks[j] == x);
                                }
                                if ks.contains(x) {
                                    let j = choose|j: int| 0 <= j < ks.len() && ks[j] == x;
                                    assert(ks2[j] == x);
                                }
                                assert(ks2[i as int] == k);
                            }
                            assert forall|j1: int, j2: int| 0 <= j1 < j2 < i + 1 implies #[trigger] ks2[j1] != #[trigger] ks2[j2] by {
                                if j2 == i {
                                    assert(ks.contains(ks[j1]));
                                }
                            }
                            assert forall|j: int| 0 <= j < i + 1 implies !t0.contents().dom().contains(#[trigger] ks2[j]) by {
                                if j < i { assert(ks2[j] == ks[j]); }
                            }
                        }
                        ks = ks.push(k);
                    }
                    stored.push(r);
                },
                None => {
                    proof { ks = ks.push(0); }
                },
            }
            i += 1;
        }
        let result = match returning {
            Some(items) => self.returning_result(&tname, items, &stored),
            None => Ok(count_message("INSERT", stored.len())),
        };
        proof {
            if cl {
                let k = choose|k: int| one_row_inserted(*old(self), *self, tname@, full_row(t0.columns@, pm, cvs), k);
                lemma_table_from_same_name(old(self).tables@, tname@, table@, 0);
                assert(one_row_inserted(*old(self), *self, table@, full_row(t0.columns@, pm, cvs), k));
            }
            if plain {
                assert(values_inserted(*old(self), *self, table@, vrows)) by {
                    lemma_table_from_same_name(old(self).tables@, tname@, table@, 0);
                    assert(inserted_under(t0, self.tables@[ti as int], vrows, ks));
                }
            }
        }
        result
    }

    /// Inserts one full row, with the conflict handling of the statement.
    /// Returns the stored row followed by its rowid, or `None` when the row was
    /// skipped or merged into an existing one.
    fn insert_one(&mut self, tname: &Vec<char>, values: Vec<Value>, conflict: ConflictMode,
        on_conflict: &Option<OnConflict>, depth: u32) -> (r: Result<Option<Vec<Value>>>)
        requires old(self).wf(),
        ensures final(self).wf(),
            plain_insert(*old(self), tname@, conflict, *on_conflict) ==> (r is Ok ==> r matches Ok(Some(_))),
            plain_insert(*old(self), tname@, conflict, *on_conflict) ==> (r matches Ok(Some(out)) ==> (out@.len() > 0
                && (out@.last() matches Value::Integer(k) && one_row_inserted(*old(self), *final(self), tname@, vals(values@), k as int)))),
            plain_insert(*old(self), tname@, conflict, *on_conflict) ==> (r is Ok <==>
                (table_from(old(self).tables@, tname@, 0) matches Some(ti) && insert_allowed(*old(self), ti, vals(values@)))),
        decreases depth, 8int,
    {
        let ghost given = vals(values@);
        self.fire_triggers(tname, TriggerTiming::Before, TriggerEvent::Insert, depth)?;
        let ti = match self.table_index(tname) {
            Some(i) => i,
            None => {
                proof { lemma_table_from(self.tables@, tname@, 0, None); }
                return named_error(ErrorKind::Schema, "no such table: ", tname);
            },
        };
        proof { lemma_table_from(self.tables@, tname@, 0, Some(ti as int)); }
        let ghost t0 = self.tables@[ti as int];
        assert(self.tables@[ti as int].wf());
        let mut values = values;
        if values.len() != self.tables[ti].columns.len() {
            return fail(ErrorKind::Schema, "the table changed while rows were inserted");
        }
        let rowid: i64 = match rowid_column(&self.tables[ti]) {
            Some(c) => {
                match &values[c] {
                    Value::Integer(k) => *k,
                    Value::Null => {
                        let k = self.fresh_rowid(ti)?;
                        values.set(c, Value::Integer(k));
                        k
                    },
                    _ => { return fail(ErrorKind::Type, "datatype mismatch: the rowid must be an integer"); },
                }
            },
            None => self.fresh_rowid(ti)?,
        };
        proof {
            if plain_insert(*old(self), tname@, conflict, *on_conflict) {
                assert(vals(values@) =~= stored_row(t0.columns@, given, rowid as int));
                assert(new_rowid(t0, given) == Some(rowid as int));
            }
        }
        check_not_null(&self.tables[ti], &values)?;
        let keys = index_keys(self, ti);
        assert(keys_view(keys@) == index_keys_spec(*self, self.tables@[ti as int], self.indexes@.len() as int));
        let clash = any_clash(&self.tables[ti], &keys, &values, rowid);
        match clash {
            None => {},
            Some(ci) => {
                match on_conflict {
                    Some(oc) => {
                        if !oc.do_nothing {
                            self.upsert(ti, ci, &oc.assignments, &values)?;
                        }
                        return Ok(None);
                    },
                    None => {},
                }
                match conflict {
                    ConflictMode::Ignore => { return Ok(None); },
                    ConflictMode::Abort => { return unique_error(&self.tables[ti]); },
                    ConflictMode::Replace => {
                        let n = self.tables[ti].rows.len();
                        let mut round: usize = 0;
                        while round < n
                            invariant self.wf(), ti < self.tables@.len(), values@.len() == self.tables@[ti as int].columns@.len(),
                            decreases n - round,
                        {
                            match any_clash(&self.tables[ti], &keys, &values, rowid) {
                                Some(i) => { self.remove_row(ti, i); },
                                None => { break; },
                            }
                            round += 1;
                        }
                    },
                }
            },
        }
        assert(self.tables@[ti as int].wf());
        check_not_null(&self.tables[ti], &values)?;
        if self.tables[ti].find_rowid(rowid).is_some() || find_index_conflict(&self.tables[ti], &keys, &values, None).is_some() {
            return unique_error(&self.tables[ti]);
        }
        if unique_column_clash(&self.tables[ti], &values, None).is_some() {
            return unique_error(&self.tables[ti]);
        }
        let mut out = copy_row(&values);
        out.push(Value::Integer(rowid));
        proof {
            if plain_insert(*old(self), tname@, conflict, *on_conflict) {
                assert(*self == *old(self));
                assert(vals(values@) == stored_row(t0.columns@, given, rowid as int));
            }
        }
        self.add_row(ti, rowid, values);
        let ghost mid = *self;
        proof {
            if plain_insert(*old(self), tname@, conflict, *on_conflict) {
                assert(mid.triggers == old(self).triggers);
                assert(mid.triggers@ == old(self).triggers@);
                assert forall|j: int| 0 <= j < mid.triggers@.len() implies
                    !mid.trigger_fires(j, tname@, TriggerTiming::After, TriggerEvent::Insert) by {
                    assert(!old(self).trigger_fires(j, tname@, TriggerTiming::After, TriggerEvent::Insert));
                }
                assert(!mid.fires(tname@, TriggerTiming::After, TriggerEvent::Insert));
            }
        }
        self.fire_triggers(tname, TriggerTiming::After, TriggerEvent::Insert, depth)?;
        proof {
            if plain_insert(*old(self), tname@, conflict, *on_conflict) {
                assert(*self == mid);
                assert(out@.last() == Value::Integer(rowid));
                assert(table_from(old(self).tables@, tname@, 0) == Some(ti as int));
                assert(self.tables@ == old(self).tables@.update(ti as int, self.tables@[ti as int]));
                assert(!old(self).tables@[ti as int].contents().dom().contains(rowid as int));
                assert(inserted_row(old(self).tables@[ti as int], self.tables@[ti as int], given, rowid as int));
                assert(one_row_inserted(*old(self), *self, tname@, given, rowid as int));
            }
        }
        Ok(Some(out))
    }

    /// Adds a row with a free rowid to table `ti`.
    fn add_row(&mut self, ti: usize, rowid: i64, values: Vec<Value>)
        requires old(self).wf(), ti < old(self).tables@.len(),
            values@.len() == old(self).tables@[ti as int].columns@.len(),
            !old(self).tables@[ti as int].contents().dom().contains(rowid as int),
            fits_not_null(old(self).tables@[ti as int].columns@, vals(values@)),
            fits_unique(old(self).tables@[ti as int].columns@, old(self).tables@[ti as int].contents(), vals(values@), None),
        ensures final(self).wf(), final(self).tables@.len() == old(self).tables@.len(),
            final(self).tables@[ti as int].contents() == old(self).tables@[ti as int].contents().insert(rowid as int, vals(values@)),
            final(self).tables@ == old(self).tables@.update(ti as int, final(self).tables@[ti as int]),
            final(self).tables@[ti as int].columns@ == old(self).tables@[ti as int].columns@,
            final(self).tables@[ti as int].name@ == old(self).tables@[ti as int].name@,
            final(self).tables@[ti as int].row_security == old(self).tables@[ti as int].row_security,
            final(self).triggers == old(self).triggers,
    {
        assert(self.tables@[ti as int].wf() && self.tables@[ti as int].constraints_hold());
        let mut t = self.tables.remove(ti);
        let ghost m = t.contents();
        let ghost v = vals(values@);
        t.insert_row(rowid, values);
        proof { lemma_constraints_insert(t.columns@, m, rowid as int, v); }
        self.tables.insert(ti, t);
        proof {
            lemma_tables_wf_after_replace(old(self).tables@, self.tables@, ti as int);
            assert(self.tables@ =~= old(self).tables@.update(ti as int, self.tables@[ti as int]));
        }
    }

    /// Removes the row at position `i` of table `ti`.
    fn remove_row(&mut self, ti: usize, i: usize) -> (r: Row)
        requires old(self).wf(), ti < old(self).tables@.len(), i < old(self).tables@[ti as int].rows@.len(),
        ensures final(self).wf(), final(self).tables@.len() == old(self).tables@.len(),
            final(self).tables@[ti as int].columns@ == old(self).tables@[ti as int].columns@,
            r == old(self).tables@[ti as int].rows@[i as int],
            final(self).tables@[ti as int].contents() == old(self).tables@[ti as int].contents().remove(r.rowid as int),
            final(self).tables@ == old(self).tables@.update(ti as int, final(self).tables@[ti as int]),
            same_shape(final(self).tables@[ti as int], old(self).tables@[ti as int]),
            final(self).triggers == old(self).triggers,
    {
        assert(self.tables@[ti as int].wf() && self.tables@[ti as int].constraints_hold());
        let mut t = self.tables.remove(ti);
        let ghost m = t.contents();
        let r = t.remove_row_at(i);
        proof { lemma_constraints_remove(t.columns@, m, r.rowid as int); }
        self.tables.insert(ti, t);
        proof {
            lemma_tables_wf_after_replace(old(self).tables@, self.tables@, ti as int);
            assert(self.tables@ =~= old(self).tables@.update(ti as int, self.tables@[ti as int]));
        }
        r
    }

    /// Replaces the values of the row at position `i` of table `ti`, moving
    /// it when its rowid column changes. Fails, changing nothing, when a
    /// constraint would be broken.
    fn rewrite_row(&mut self, ti: usize, i: usize, values: Vec<Value>) -> (r: Result<()>)
        requires old(self).wf(), ti < old(self).tables@.len(), i < old(self).tables@[ti as int].rows@.len(),
        ensures final(self).wf(), final(self).tables@.len() == old(self).tables@.len(),
            r is Err ==> final(self).tables@ == old(self).tables@,
            final(self).triggers == old(self).triggers,
            final(self).tables@ == old(self).tables@.update(ti as int, final(self).tables@[ti as int]),
            same_shape(final(self).tables@[ti as int], old(self).tables@[ti as int]),
            (r is Ok && keeps_rowid(old(self).tables@[ti as int].columns@, vals(values@), old(self).tables@[ti as int].rows@[i as int].rowid as int))
                ==> final(self).tables@[ti as int].contents() == old(self).tables@[ti as int].contents().insert(
                    old(self).tables@[ti as int].rows@[i as int].rowid as int, vals(values@)),
            r is Ok <==> rewrite_allowed(*old(self), ti as int, i as int, vals(values@)),
            r is Ok ==> ({
                let t = old(self).tables@[ti as int];
                let k = t.rows@[i as int].rowid as int;
                final(self).tables@[ti as int].contents() == t.contents().remove(k).insert(rowid_after(t.columns@, vals(values@), k), vals(values@))
            }),
    {
        assert(self.tables@[ti as int].wf());
        if values.len() != self.tables[ti].columns.len() {
            return fail(ErrorKind::Schema, "the table changed while rows were updated");
        }
        let old_rowid = self.tables[ti].rows[i].rowid;
        let new_rowid: i64 = match rowid_column(&self.tables[ti]) {
            Some(c) => match &values[c] {
                Value::Integer(k) => *k,
                _ => { return fail(ErrorKind::Type, "datatype mismatch: the rowid must be an integer"); },
            },
            None => old_rowid,
        };
        assert(new_rowid as int == rowid_after(self.tables@[ti as int].columns@, vals(values@), old_rowid as int));
        check_not_null(&self.tables[ti], &values)?;
        let keys = index_keys(self, ti);
        assert(keys_view(keys@) == index_keys_spec(*self, self.tables@[ti as int], self.indexes@.len() as int));
        if find_index_conflict(&self.tables[ti], &keys, &values, Some(old_rowid)).is_some() {
            return unique_error(&self.tables[ti]);
        }
        if unique_column_clash(&self.tables[ti], &values, Some(old_rowid)).is_some() {
            return unique_error(&self.tables[ti]);
        }
        assert(self.tables@[ti as int].constraints_hold());
        proof { lemma_contents_at(&self.tables@[ti as int], i as int); }
        if new_rowid == old_rowid {
            let mut t = self.tables.remove(ti);
            let ghost m = t.contents();
            let ghost v = vals(values@);
            t.set_row_values(i, values);
            proof { lemma_constraints_replace(t.columns@, m, old_rowid as int, v); }
            self.tables.insert(ti, t);
            proof {
                lemma_tables_wf_after_replace(old(self).tables@, self.tables@, ti as int);
                assert(self.tables@ =~= old(self).tables@.update(ti as int, self.tables@[ti as int]));
            }
        } else {
            if self.tables[ti].find_rowid(new_rowid).is_some() {
                return unique_error(&self.tables[ti]);
            }
            let mut t = self.tables.remove(ti);
            let ghost m = t.contents();
            let ghost v = vals(values@);
            t.remove_row_at(i);
            proof {
                lemma_constraints_remove(t.columns@, m, old_rowid as int);
                lemma_fits_unique_remove(t.columns@, m, v, old_rowid as int);
            }
            t.insert_row(new_rowid, values);
            proof { lemma_constraints_insert(t.columns@, m.remove(old_rowid as int), new_rowid as int, v); }
            self.tables.insert(ti, t);
            proof {
                lemma_tables_wf_after_replace(old(self).tables@, self.tables@, ti as int);
                assert(self.tables@ =~= old(self).tables@.update(ti as int, self.tables@[ti as int]));
            }
        }
        Ok(())
    }

    /// `ON CONFLICT DO UPDATE`: applies the assignments to the row at position
    /// `ci`, where `excluded.col` names the value that was to be inserted.
    fn upsert(&mut self, ti: usize, ci: usize, assignments: &Vec<(Vec<char>, Expr)>, proposed: &Vec<Value>)
        -> (r: Result<()>)
        requires old(self).wf(), ti < old(self).tables@.len(), ci < old(self).tables@[ti as int].rows@.len(),
        ensures final(self).wf(),
            r is Err ==> final(self).tables@ == old(self).tables@,
            ({
                let t = old(self).tables@[ti as int];
                let k = t.rows@[ci as int].rowid as int;
                assigned_values(t.columns@, own_cols(t) + excluded_cols(t.columns@), vals(t.rows@[ci as int].values@),
                    scan_row(t.rows@[ci as int]) + padded(vals(proposed@), t.columns@.len() as int), assignments@) matches Some(vs)
                ==> (r is Ok <==> rewrite_allowed(*old(self), ti as int, ci as int, vs))
                    && (r is Ok ==> final(self).tables@ == old(self).tables@.update(ti as int, final(self).tables@[ti as int])
                        && final(self).tables@[ti as int].contents() == t.contents().remove(k).insert(rowid_after(t.columns@, vs, k), vs))
            }),
    {
        let ghost t0 = self.tables@[ti as int];
        let t = &self.tables[ti];
        let mut cols = table_colrefs(t, &t.name);
        let excluded = str_chars("excluded");
        let mut c: usize = 0;
        assert(t.columns@.take(0) =~= Seq::<ColumnInfo>::empty());
        assert(own_cols(*t) + excluded_cols(t.columns@.take(0)) =~= own_cols(*t));
        while c < t.columns.len()
            invariant c <= t.columns@.len(), excluded@ == "excluded"@,
                col_views(cols@) == own_cols(*t) + excluded_cols(t.columns@.take(c as int)),
            decreases t.columns.len() - c,
        {
            let ghost before = cols@;
            cols.push(ColRef { table: copy_chars(&excluded), name: copy_chars(&t.columns[c].name), hidden: false });
            proof {
                assert(t.columns@.take(c + 1) =~= t.columns@.take(c as int).push(t.columns@[c as int]));
                assert(excluded_cols(t.columns@.take(c + 1)) =~= excluded_cols(t.columns@.take(c as int)).push(("excluded"@, t.columns@[c as int].name@, false)));
                assert(col_views(cols@) =~= col_views(before).push(("excluded"@, t.columns@[c as int].name@, false)));
            }
            c += 1;
        }
        assert(t.columns@.take(t.columns@.len() as int) =~= t.columns@);
        let mut row = row_with_rowid(&t.rows[ci]);
        let mut p: usize = 0;
        assert(scan_row(t.rows@[ci as int]) + padded(vals(proposed@), 0) =~= scan_row(t.rows@[ci as int]));
        while p < t.columns.len()
            invariant p <= t.columns@.len(), ci < t.rows@.len(),
                vals(row@) == scan_row(t.rows@[ci as int]) + padded(vals(proposed@), p as int),
            decreases t.columns.len() - p,
        {
            let ghost before = row@;
            let ghost pv = vals(proposed@);
            if p < proposed.len() { row.push(copy_value(&proposed[p])); } else { row.push(Value::Null); }
            proof {
                assert(vals(row@) =~= vals(before).push(row@[p + t.rows@[ci as int].values@.len() + 1]@));
                assert(padded(pv, p + 1) =~= padded(pv, p as int).push(if p < pv.len() { pv[p as int] } else { ValueV::Null }));
                assert(vals(row@) =~= scan_row(t.rows@[ci as int]) + padded(vals(proposed@), p + 1));
            }
            p += 1;
        }
        let ghost colv = own_cols(t0) + excluded_cols(t0.columns@);
        let ghost rowv = vals(row@);
        let ghost base = vals(t0.rows@[ci as int].values@);
        let ghost good = assigned_values(t0.columns@, colv, base, rowv, assignments@) is Some;
        let mut values = copy_row(&t.rows[ci].values);
        let mut a: usize = 0;
        assert(assignments@.take(0) =~= Seq::<(Vec<char>, Expr)>::empty());
        while a < assignments.len()
            invariant a <= assignments@.len(), ti < self.tables@.len(), t == &self.tables[ti as int], self.wf(),
                values@.len() == t.rows@[ci as int].values@.len(), ci < t.rows@.len(),
                *self == *old(self), t0 == *t, col_views(cols@) == colv, vals(row@) == rowv,
                t0 == old(self).tables@[ti as int], colv == own_cols(t0) + excluded_cols(t0.columns@),
                base == vals(t0.rows@[ci as int].values@),
                rowv == scan_row(t0.rows@[ci as int]) + padded(vals(proposed@), t0.columns@.len() as int),
                good == (assigned_values(t0.columns@, colv, base, rowv, assignments@) is Some),
                good ==> assigned_values(t0.columns@, colv, base, rowv, assignments@.take(a as int)) == Some(vals(values@)),
            decreases assignments.len() - a,
        {
            proof {
                if good {
                    lemma_assigned_prefix(t0.columns@, colv, base, rowv, assignments@, a as int);
                    assert(assignments@.take(a + 1).drop_last() =~= assignments@.take(a as int));
                    assert(assignments@.take(a + 1).last() == assignments@[a as int]);
                }
            }
            let pos = match column_index(t, &assignments[a].0) {
                Some(x) => x,
                None => {
                    proof { lemma_column_from(t.columns@, assignments@[a as int].0@, 0, None); }
                    return named_error(ErrorKind::Schema, "no such column: ", &assignments[a].0);
                },
            };
            proof { lemma_column_from(t.columns@, assignments@[a as int].0@, 0, Some(pos as int)); }
            assert(crate::vm::query::group_view(None) is None);
            let v = eval_expr(self, &assignments[a].1, &cols, &row, None, MAX_FUEL)?;
            let ghost before_set = vals(values@);
            if pos < values.len() {
                values.set(pos, v);
                proof { assert(vals(values@) =~= before_set.update(pos as int, v@)); }
            }
            a += 1;
        }
        proof {
            if good {
                assert(assignments@.take(assignments@.len() as int) =~= assignments@);
            }
        }
        self.rewrite_row(ti, ci, values)
    }

    /// `UPDATE`: assigns new values to the rows on which the condition holds.
    #[verifier::rlimit(80)]
    pub fn update(&mut self, table: &Vec<char>, assignments: &Vec<(Vec<char>, Expr)>, where_clause: &Option<Expr>,
        returning: &Option<Vec<SelectItem>>, depth: u32) -> (r: Result<ExecResult>)
        requires old(self).wf(),
        ensures final(self).wf(),
            !old(self).has_table(table@) ==> r is Err && *final(self) == *old(self),
            (plain_update(*old(self), table@) && update_decided(*old(self), table@, assignments@, *where_clause)) ==>
                (r is Ok ==> rows_updated(*old(self), *final(self), table@, assignments@, *where_clause)),
            (plain_update(*old(self), table@) && update_decided(*old(self), table@, assignments@, *where_clause)
                && returning is None) ==> match table_from(old(self).tables@, table@, 0) {
                Some(ti) => {
                    let t = old(self).tables@[ti];
                    let ps = passing_rowids(t.rows@, *where_clause, own_cols(t), MAX_FUEL as nat);
                    &&& ((forall|k: int| 0 <= k < assignments@.len() ==> column_from(t.columns@, (#[trigger] assignments@[k]).0@, 0) is Some)
                        && ps.len() == 0) ==> r is Ok
                    &&& ((forall|k: int| 0 <= k < assignments@.len() ==> column_from(t.columns@, (#[trigger] assignments@[k]).0@, 0) is Some)
                        && ps.len() == 1) ==> forall|x: int| 0 <= x < t.rows@.len() && #[trigger] t.rows@[x].rowid == ps[0] ==>
                        (r is Ok <==> rewrite_allowed(*old(self), ti, x, new_row(t, assignments@, ps[0] as int).unwrap()))
                },
                None => true,
            },
        decreases depth, 9int,
    {
        let ti = match self.table_index(table) {
            Some(i) => i,
            None => {
                proof { lemma_table_from(self.tables@, table@, 0, None); }
                return named_error(ErrorKind::Schema, "no such table: ", table);
            },
        };
        proof {
            lemma_table_from(self.tables@, table@, 0, Some(ti as int));
            assert(same_name(self.tables@[ti as int].name@, table@));
            assert(old(self).has_table(table@));
        }
        let tname = copy_chars(&self.tables[ti].name);
        proof { lemma_table_from_same_name(old(self).tables@, tname@, table@, 0); }
        let mut k: usize = 0;
        while k < assignments.len()
            invariant k <= assignments@.len(), ti < self.tables@.len(), self.wf(), *self == *old(self),
                table_from(old(self).tables@, table@, 0) == Some(ti as int),
            decreases assignments.len() - k,
        {
            let found = column_index(&self.tables[ti], &assignments[k].0);
            proof {
                let fo = match found { Some(x) => Some(x as int), None => None };
                lemma_column_from(self.tables@[ti as int].columns@, assignments@[k as int].0@, 0, fo);
            }
            if found.is_none() {
                return named_error(ErrorKind::Schema, "no such column: ", &assignments[k].0);
            }
            k += 1;
        }
        let ghost b = old(self).tables@[ti as int];
        assert(b.wf()) by { assert(tables_wf(old(self).tables@)); }
        let ghost good = plain_update(*old(self), table@) && update_decided(*old(self), table@, assignments@, *where_clause);
        let targets = self.matching_rowids(ti, where_clause)?;
        proof {
            if good {
                lemma_fires_same_name(*old(self), table@, tname@, TriggerTiming::Before, TriggerEvent::Update);
                lemma_fires_same_name(*old(self), table@, tname@, TriggerTiming::After, TriggerEvent::Update);
                lemma_passing_rowids_increasing(b.rows@, *where_clause, own_cols(b), MAX_FUEL as nat);
            }
        }
        let ghost single = good && returning is None && passing_rowids(b.rows@, *where_clause, own_cols(b), MAX_FUEL as nat).len() == 1
            && (forall|k: int| 0 <= k < assignments@.len() ==> column_from(b.columns@, (#[trigger] assignments@[k]).0@, 0) is Some);
        let mut stored: Vec<Vec<Value>> = Vec::new();
        let mut i: usize = 0;
        while i < targets.len()
            invariant i <= targets@.len(), self.wf(), ti < old(self).tables@.len(), tname@ == b.name@,
                i == 0 ==> *self == *old(self),
                single == (good && returning is None && passing_rowids(b.rows@, *where_clause, own_cols(b), MAX_FUEL as nat).len() == 1
                    && (forall|k: int| 0 <= k < assignments@.len() ==> column_from(b.columns@, (#[trigger] assignments@[k]).0@, 0) is Some)),
                single && i >= 1 ==> forall|x: int| 0 <= x < b.rows@.len() && #[trigger] b.rows@[x].rowid == targets@[0] ==>
                    rewrite_allowed(*old(self), ti as int, x, new_row(b, assignments@, targets@[0] as int).unwrap()),
                b == old(self).tables@[ti as int], same_name(b.name@, table@), b.wf(), old(self).has_table(table@),
                table_from(old(self).tables@, tname@, 0) == Some(ti as int),
                table_from(old(self).tables@, table@, 0) == Some(ti as int),
                good == (plain_update(*old(self), table@) && update_decided(*old(self), table@, assignments@, *where_clause)),
                good ==> targets@ == passing_rowids(b.rows@, *where_clause, own_cols(b), MAX_FUEL as nat),
                good ==> !old(self).fires(tname@, TriggerTiming::Before, TriggerEvent::Update)
                    && !old(self).fires(tname@, TriggerTiming::After, TriggerEvent::Update),
                good ==> forall|x: int, y: int| 0 <= x < y < targets@.len() ==> #[trigger] targets@[x] < #[trigger] targets@[y],
                good ==> {
                    &&& self.tables@ == old(self).tables@.update(ti as int, self.tables@[ti as int])
                    &&& self.triggers == old(self).triggers
                    &&& same_shape(self.tables@[ti as int], b)
                    &&& self.tables@[ti as int].contents().dom() == b.contents().dom()
                    &&& forall|k: int| #[trigger] b.contents().dom().contains(k) ==> self.tables@[ti as int].contents()[k]
                            == if removed_before(targets@, i as int, k) { new_row(b, assignments@, k).unwrap() } else { b.contents()[k] }
                },
            decreases targets.len() - i,
        {
            proof {
                if good {
                    lemma_fires_same_triggers(*self, *old(self));
                    lemma_table_from_update(old(self).tables@, tname@, ti as int, self.tables@[ti as int], 0);
                }
            }
            self.fire_triggers(&tname, TriggerTiming::Before, TriggerEvent::Update, depth)?;
            let ti2 = match self.table_index(&tname) {
                Some(x) => x,
                None => {
                    proof { if good { lemma_table_from(self.tables@, tname@, 0, None); } }
                    return named_error(ErrorKind::Schema, "no such table: ", &tname);
                },
            };
            proof { lemma_table_from(self.tables@, tname@, 0, Some(ti2 as int)); }
            assert(self.tables@[ti2 as int].wf());
            let ghost key = targets@[i as int] as int;
            proof {
                if good {
                    assert(ti2 == ti);
                    lemma_passing_rowids_members(b.rows@, *where_clause, own_cols(b), MAX_FUEL as nat, i as int);
                    let x = choose|x: int| 0 <= x < b.rows@.len() && #[trigger] b.rows@[x].rowid == targets@[i as int]
                        && passes(*where_clause, own_cols(b), scan_row(b.rows@[x]), MAX_FUEL as nat);
                    lemma_contents_at(&b, x);
                    assert(scan_row(b.rows@[x]) =~= b.contents()[key].push(ValueV::Int(key)));
                    assert(row_passes(b, *where_clause, key));
                    assert(b.contents().dom().contains(key));
                    if removed_before(targets@, i as int, key) {
                        let j = choose|j: int| 0 <= j < i && #[trigger] targets@[j] as int == key;
                        assert(targets@[j] < targets@[i as int]);
                    }
                    assert(self.tables@[ti as int].contents()[key] == b.contents()[key]);
                }
            }
            match self.tables[ti2].find_rowid(targets[i]) {
                None => {
                    proof {
                        if good {
                            assert(self.tables@[ti as int].contents().dom().contains(key));
                        }
                    }
                },
                Some(ri) => {
                    let t = &self.tables[ti2];
                    let cols = table_colrefs(t, &t.name);
                    let row = row_with_rowid(&t.rows[ri]);
                    let mut values = copy_row(&t.rows[ri].values);
                    let ghost base = vals(values@);
                    let ghost rowv = vals(row@);
                    proof {
                        lemma_contents_at(t, ri as int);
                        if good {
                            assert(base == b.contents()[key]);
                            assert(rowv =~= b.contents()[key].push(ValueV::Int(key)));
                            assert(own_cols(*t) == own_cols(b));
                            assert(assignments@.take(0) =~= Seq::<(Vec<char>, Expr)>::empty());
                        }
                    }
                    let mut a: usize = 0;
                    while a < assignments.len()
                        invariant a <= assignments@.len(), ti2 < self.tables@.len(), t == &self.tables[ti2 as int], self.wf(),
                            old(self).has_table(table@),
                            ri < t.rows@.len(), values@.len() == t.rows@[ri as int].values@.len(),
                            col_views(cols@) == own_cols(*t), vals(row@) == rowv,
                            good ==> own_cols(*t) == own_cols(b) && t.columns@ == b.columns@,
                            good ==> new_row(b, assignments@, key) is Some,
                            good == (plain_update(*old(self), table@) && update_decided(*old(self), table@, assignments@, *where_clause)),
                            b == old(self).tables@[ti as int], table_from(old(self).tables@, table@, 0) == Some(ti as int),
                            good ==> passing_rowids(b.rows@, *where_clause, own_cols(b), MAX_FUEL as nat).len() > 0,
                            good ==> new_row(b, assignments@, key) == assigned_values(b.columns@, own_cols(b), base, rowv, assignments@),
                            good ==> assigned_values(b.columns@, own_cols(b), base, rowv, assignments@.take(a as int)) == Some(vals(values@)),
                            single == (good && returning is None && passing_rowids(b.rows@, *where_clause, own_cols(b), MAX_FUEL as nat).len() == 1
                                && (forall|k: int| 0 <= k < assignments@.len() ==> column_from(b.columns@, (#[trigger] assignments@[k]).0@, 0) is Some)),
                            single && i == 0 ==> *self == *old(self),
                        decreases assignments.len() - a,
                    {
                        proof {
                            if good {
                                lemma_assigned_prefix(b.columns@, own_cols(b), base, rowv, assignments@, a as int);
                                assert(assignments@.take(a + 1).drop_last() =~= assignments@.take(a as int));
                                assert(assignments@.take(a + 1).last() == assignments@[a as int]);
                            }
                        }
                        let pos = match column_index(t, &assignments[a].0) {
                            Some(x) => x,
                            None => {
                                proof { lemma_column_from(t.columns@, assignments@[a as int].0@, 0, None); }
                                return named_error(ErrorKind::Schema, "no such column: ", &assignments[a].0);
                            },
                        };
                        proof { lemma_column_from(t.columns@, assignments@[a as int].0@, 0, Some(pos as int)); }
                        assert(crate::vm::query::group_view(None) is None);
                        let v = eval_expr(self, &assignments[a].1, &cols, &row, None, MAX_FUEL)?;
                        let ghost before_set = vals(values@);
                        if pos < values.len() {
                            values.set(pos, v);
                            proof { assert(vals(values@) =~= before_set.update(pos as int, v@)); }
                        }
                        a += 1;
                    }
                    proof {
                        if good {
                            assert(assignments@.take(assignments@.len() as int) =~= assignments@);
                            assert(vals(values@) == new_row(b, assignments@, key).unwrap());
                            assert(t.rows@[ri as int].rowid == key);
                        }
                    }
                    let mut out = copy_row(&values);
                    let new_rowid = match rowid_column(t) {
                        Some(c) => match &values[c] { Value::Integer(x) => *x, _ => t.rows[ri].rowid },
                        None => t.rows[ri].rowid,
                    };
                    out.push(Value::Integer(new_rowid));
                    let ghost cur = self.tables@[ti2 as int];
                    let ghost nv = vals(values@);
                    proof {
                        if single {
                            assert(i == 0);
                            assert(ti2 == ti);
                            assert(nv == new_row(b, assignments@, targets@[0] as int).unwrap());
                            assert forall|x: int| 0 <= x < b.rows@.len() && #[trigger] b.rows@[x].rowid == targets@[0] implies x == ri by {
                                if x < ri { assert(b.rows@[x].rowid < b.rows@[ri as int].rowid); }
                                if x > ri { assert(b.rows@[ri as int].rowid < b.rows@[x].rowid); }
                            }
                        }
                    }
                    match self.rewrite_row(ti2, ri, values) {
                        Ok(_) => {},
                        Err(e) => { return Err(e); },
                    }
                    stored.push(out);
                    proof {
                        if good {
                            lemma_fires_same_triggers(*self, *old(self));
                        }
                    }
                    self.fire_triggers(&tname, TriggerTiming::After, TriggerEvent::Update, depth)?;
                    proof {
                        if good {
                            let now = self.tables@[ti as int];
                            assert(self.tables@ =~= old(self).tables@.update(ti as int, now));
                            assert(now.contents() == cur.contents().insert(key, new_row(b, assignments@, key).unwrap()));
                            assert(now.contents().dom() =~= b.contents().dom());
                            assert forall|k: int| #[trigger] b.contents().dom().contains(k) implies now.contents()[k]
                                == if removed_before(targets@, i + 1, k) { new_row(b, assignments@, k).unwrap() } else { b.contents()[k] } by {
                                if removed_before(targets@, i + 1, k) {
                                    let j = choose|j: int| 0 <= j < i + 1 && #[trigger] targets@[j] as int == k;
                                    if j < i {
                                        assert(removed_before(targets@, i as int, k));
                                    }
                                }
                                if removed_before(targets@, i as int, k) {
                                    let j = choose|j: int| 0 <= j < i && #[trigger] targets@[j] as int == k;
                                    assert(removed_before(targets@, i + 1, k));
                                }
                                if k == key {
                                    assert(removed_before(targets@, i + 1, k));
                                }
                            }
                        }
                    }
                },
            }
            i += 1;
        }
        proof {
            if good {
                let a = self.tables@[ti as int];
                assert forall|k: int| #[trigger] b.contents().dom().contains(k) implies a.contents()[k]
                    == if row_passes(b, *where_clause, k) { new_row(b, assignments@, k).unwrap() } else { b.contents()[k] } by {
                    let x = choose|x: int| 0 <= x < b.rows@.len() && #[trigger] b.rows@[x].rowid == k;
                    lemma_contents_at(&b, x);
                    assert(scan_row(b.rows@[x]) =~= b.contents()[k].push(ValueV::Int(k)));
                    lemma_passing_rowids(b.rows@, *where_clause, own_cols(b), MAX_FUEL as nat, x);
                    let kk = b.rows@[x].rowid;
                    if removed_before(targets@, targets@.len() as int, k) {
                        let j = choose|j: int| 0 <= j < targets@.len() && #[trigger] targets@[j] as int == k;
                        assert(targets@[j] == kk);
                        assert(targets@.contains(kk));
                    }
                    if targets@.contains(kk) {
                        let j = choose|j: int| 0 <= j < targets@.len() && targets@[j] == kk;
                        assert(targets@[j] as int == k);
                        assert(removed_before(targets@, targets@.len() as int, k));
                    }
                }
                assert(rows_updated(*old(self), *self, table@, assignments@, *where_clause));
            }
        }
        match returning {
            Some(items) => self.returning_result(&tname, items, &stored),
            None => Ok(count_message("UPDATE", stored.len())),
        }
    }

    /// `DELETE`: removes the rows on which the condition holds.
    pub fn delete(&mut self, table: &Vec<char>, where_clause: &Option<Expr>, returning: &Option<Vec<SelectItem>>, depth: u32)
        -> (r: Result<ExecResult>)
        requires old(self).wf(),
        ensures final(self).wf(),
            !old(self).has_table(table@) ==> r is Err && *final(self) == *old(self),
            (plain_delete(*old(self), table@) && decided_in(*old(self), table@, *where_clause)) ==>
                rows_deleted(*old(self), *final(self), table@, *where_clause) && (returning is None ==> r is Ok),
        decreases depth, 9int,
    {
        let ti = match self.table_index(table) {
            Some(i) => i,
            None => {
                proof { lemma_table_from(self.tables@, table@, 0, None); }
                return named_error(ErrorKind::Schema, "no such table: ", table);
            },
        };
        proof {
            lemma_table_from(self.tables@, table@, 0, Some(ti as int));
            assert(same_name(self.tables@[ti as int].name@, table@));
            assert(old(self).has_table(table@));
        }
        let tname = copy_chars(&self.tables[ti].name);
        let cols = table_colrefs(&self.tables[ti], &tname);
        let ghost b = old(self).tables@[ti as int];
        proof { lemma_table_from_same_name(old(self).tables@, tname@, table@, 0); }
        let ghost good = plain_delete(*old(self), table@) && decided_in(*old(self), table@, *where_clause);
        let targets = self.matching_rowids(ti, where_clause)?;
        proof {
            if good {
                lemma_fires_same_name(*old(self), table@, tname@, TriggerTiming::Before, TriggerEvent::Delete);
                lemma_fires_same_name(*old(self), table@, tname@, TriggerTiming::After, TriggerEvent::Delete);
                lemma_referenced_same(*old(self), *old(self), table@, tname@);
                lemma_table_from_same_name(old(self).tables@, tname@, table@, 0);
                assert(b.contents().remove_keys(Set::empty()) =~= b.contents());
            }
        }
        let mut stored: Vec<Vec<Value>> = Vec::new();
        let mut i: usize = 0;
        while i < targets.len()
            invariant i <= targets@.len(), self.wf(), ti < old(self).tables@.len(), tname@ == b.name@,
                b == old(self).tables@[ti as int], same_name(b.name@, table@),
                table_from(old(self).tables@, tname@, 0) == Some(ti as int),
                good == (plain_delete(*old(self), table@) && decided_in(*old(self), table@, *where_clause)),
                good ==> plain_delete(*old(self), tname@),
                good ==> {
                    &&& self.tables@ == old(self).tables@.update(ti as int, self.tables@[ti as int])
                    &&& self.triggers == old(self).triggers
                    &&& same_shape(self.tables@[ti as int], b)
                    &&& self.tables@[ti as int].contents().submap_of(b.contents())
                    &&& forall|k: int| #[trigger] self.tables@[ti as int].contents().dom().contains(k)
                            == (b.contents().dom().contains(k) && !removed_before(targets@, i as int, k))
                },
            decreases targets.len() - i,
        {
            proof {
                if good {
                    lemma_fires_same_triggers(*self, *old(self));
                    assert forall|tj: int| 0 <= tj < self.tables@.len() implies
                        (#[trigger] self.tables@[tj]).columns@ == old(self).tables@[tj].columns@ by {}
                    lemma_referenced_same(*self, *old(self), tname@, tname@);
                    lemma_table_from_update(old(self).tables@, tname@, ti as int, self.tables@[ti as int], 0);
                    assert(!self.fires(tname@, TriggerTiming::Before, TriggerEvent::Delete));
                    assert(!self.fires(tname@, TriggerTiming::After, TriggerEvent::Delete));
                    assert(!referenced_on_delete(*self, tname@));
                    assert(plain_delete(*self, tname@));
                }
            }
            match self.delete_rowid(&tname, targets[i], depth)? {
                Some(r) => { stored.push(r); },
                None => {},
            }
            proof {
                if good {
                    let now = self.tables@[ti as int];
                    assert(self.tables@ =~= old(self).tables@.update(ti as int, now));
                    assert forall|k: int| #[trigger] now.contents().dom().contains(k)
                        == (b.contents().dom().contains(k) && !removed_before(targets@, i + 1, k)) by {
                        if removed_before(targets@, i + 1, k) {
                            let j = choose|j: int| 0 <= j < i + 1 && #[trigger] targets@[j] as int == k;
                            if j < i {
                                assert(removed_before(targets@, i as int, k));
                            }
                        }
                        if removed_before(targets@, i as int, k) {
                            let j = choose|j: int| 0 <= j < i && #[trigger] targets@[j] as int == k;
                            assert(removed_before(targets@, i + 1, k));
                        }
                        if targets@[i as int] as int == k {
                            assert(removed_before(targets@, i + 1, k));
                        }
                    }
                    assert(now.contents().submap_of(b.contents()));
                }
            }
            i += 1;
        }
        proof {
            if good {
                let a = self.tables@[ti as int];
                lemma_table_from_same_name(old(self).tables@, tname@, table@, 0);
                assert(own_cols(b) == table_cols_view(b, tname@));
                assert forall|x: int| 0 <= x < b.rows@.len() implies
                    (a.contents().dom().contains(#[trigger] b.rows@[x].rowid as int)
                        <==> !passes(*where_clause, own_cols(b), scan_row(b.rows@[x]), MAX_FUEL as nat)) by {
                    let k = b.rows@[x].rowid;
                    lemma_contents_at(&b, x);
                    lemma_passing_rowids(b.rows@, *where_clause, own_cols(b), MAX_FUEL as nat, x);
                    if removed_before(targets@, targets@.len() as int, k as int) {
                        let j = choose|j: int| 0 <= j < targets@.len() && #[trigger] targets@[j] as int == k as int;
                        assert(targets@[j] == k);
                        assert(targets@.contains(k));
                    }
                    if targets@.contains(k) {
                        let j = choose|j: int| 0 <= j < targets@.len() && targets@[j] == k;
                        assert(targets@[j] as int == k as int);
                        assert(removed_before(targets@, targets@.len() as int, k as int));
                    }
                }
                assert(rows_deleted(*old(self), *self, table@, *where_clause));
            }
        }
        match returning {
            Some(items) => {
                let names = output_names(items, &cols);
                let wins: Vec<Option<Vec<Value>>> = Vec::new();
                let mut out: Vec<Vec<Value>> = Vec::new();
                let mut k: usize = 0;
                while k < stored.len()
                    invariant k <= stored@.len(), self.wf(), old(self).has_table(table@),
                        good == (plain_delete(*old(self), table@) && decided_in(*old(self), table@, *where_clause)),
                        good ==> rows_deleted(*old(self), *self, table@, *where_clause), returning is Some,
                    decreases stored.len() - k,
                {
                    let p = project_row(self, items, &cols, &stored[k], None, &wins, 0, MAX_FUEL)?;
                    out.push(p);
                    k += 1;
                }
                Ok(query_result(Output { names, rows: out }))
            },
            None => Ok(count_message("DELETE", stored.len())),
        }
    }

    /// Deletes the row with the given rowid, running the delete triggers and
    /// the ON DELETE actions of the foreign keys that reference the table.
    /// Returns the removed row followed by its rowid, or `None` when no such
    /// row was left.
    fn delete_rowid(&mut self, tname: &Vec<char>, rowid: i64, depth: u32) -> (r: Result<Option<Vec<Value>>>)
        requires old(self).wf(),
        ensures final(self).wf(),
            plain_delete(*old(self), tname@) ==> r is Ok && final(self).triggers == old(self).triggers
                && (match table_from(old(self).tables@, tname@, 0) {
                    Some(ti) => final(self).tables@ == old(self).tables@.update(ti, final(self).tables@[ti])
                        && same_shape(final(self).tables@[ti], old(self).tables@[ti])
                        && final(self).tables@[ti].contents() == old(self).tables@[ti].contents().remove(rowid as int),
                    None => final(self).tables@ == old(self).tables@,
                }),
        decreases depth, 7int,
    {
        self.fire_triggers(tname, TriggerTiming::Before, TriggerEvent::Delete, depth)?;
        let ghost plain = plain_delete(*old(self), tname@);
        let ti = match self.table_index(tname) {
            Some(i) => i,
            None => {
                proof { lemma_table_from(self.tables@, tname@, 0, None); }
                return Ok(None);
            },
        };
        proof { lemma_table_from(self.tables@, tname@, 0, Some(ti as int)); }
        assert(self.tables@[ti as int].wf());
        let ri = match self.tables[ti].find_rowid(rowid) {
            Some(i) => i,
            None => {
                proof {
                    assert(self.tables@[ti as int].contents().remove(rowid as int) =~= self.tables@[ti as int].contents());
                    assert(self.tables@ =~= self.tables@.update(ti as int, self.tables@[ti as int]));
                }
                return Ok(None);
            },
        };
        let removed = self.remove_row(ti, ri);
        let out = row_with_rowid(&removed);
        proof {
            if plain {
                assert forall|tj: int| 0 <= tj < self.tables@.len() implies
                    (#[trigger] self.tables@[tj]).columns@ == old(self).tables@[tj].columns@ by {}
                lemma_referenced_same(*self, *old(self), self.tables@[ti as int].name@, tname@);
            }
        }
        self.foreign_key_actions(ti, &out, depth)?;
        proof {
            if plain {
                lemma_fires_same_triggers(*self, *old(self));
            }
        }
        self.fire_triggers(tname, TriggerTiming::After, TriggerEvent::Delete, depth)?;
        Ok(Some(out))
    }

    /// The value a foreign key of a child table refers to in a parent row
    /// (given with its rowid last): the named column, else the primary key,
    /// else the rowid.
    fn referenced_value(parent: &Table, column: &Option<Vec<char>>, row: &Vec<Value>) -> (r: Value)
        ensures r@ == referenced_spec(parent.columns@, match column { Some(n) => Some(n@), None => None }, vals(row@)),
    {
        let pos = match column {
            Some(name) => {
                let found = column_index(parent, name);
                proof {
                    let fo = match found { Some(i) => Some(i as int), None => None };
                    lemma_column_from(parent.columns@, name@, 0, fo);
                }
                found
            },
            None => {
                let mut found: Option<usize> = None;
                let mut c: usize = 0;
                while c < parent.columns.len()
                    invariant c <= parent.columns@.len(), found matches Some(p) ==> p < parent.columns@.len(),
                        found matches Some(p) ==> first_pk(parent.columns@, 0) == Some(p as int),
                        found is None ==> first_pk(parent.columns@, 0) == first_pk(parent.columns@, c as int),
                    decreases parent.columns.len() - c,
                {
                    if parent.columns[c].primary_key && found.is_none() {
                        found = Some(c);
                    }
                    c += 1;
                }
                found
            },
        };
        match pos {
            Some(p) => if p < row.len() { copy_value(&row[p]) } else { Value::Null },
            None => if row.len() > 0 { copy_value(&row[row.len() - 1]) } else { Value::Null },
        }
    }

    /// Applies ON DELETE CASCADE and ON DELETE SET NULL to the rows that
    /// referenced a removed row of table `ti`.
    fn foreign_key_actions(&mut self, ti: usize, removed: &Vec<Value>, depth: u32) -> (r: Result<()>)
        requires old(self).wf(), ti < old(self).tables@.len(),
        ensures final(self).wf(),
            !referenced_on_delete(*old(self), old(self).tables@[ti as int].name@) ==> r is Ok && *final(self) == *old(self),
        decreases depth, 6int,
    {
        let pname = copy_chars(&self.tables[ti].name);
        let ghost untouched = !referenced_on_delete(*old(self), pname@);
        let ntables = self.tables.len();
        let mut tj: usize = 0;
        while tj < ntables
            invariant self.wf(), untouched == !referenced_on_delete(*old(self), pname@),
                pname@ == old(self).tables@[ti as int].name@,
                untouched ==> *self == *old(self),
            decreases ntables - tj,
        {
            if tj >= self.tables.len() {
                return Ok(());
            }
            let ncols = self.tables[tj].columns.len();
            let mut cj: usize = 0;
            while cj < ncols
                invariant self.wf(), untouched == !referenced_on_delete(*old(self), pname@),
                pname@ == old(self).tables@[ti as int].name@,
                    untouched ==> *self == *old(self),
                decreases ncols - cj,
            {
                if tj >= self.tables.len() || cj >= self.tables[tj].columns.len() {
                    return Ok(());
                }
                let action = match &self.tables[tj].columns[cj].references {
                    Some(f) => if chars_eq_ci(&f.table, &pname) && f.on_delete != FkAction::NoAction {
                        proof {
                            assert(fk_acts_on(self.tables@[tj as int].columns@[cj as int], pname@));
                            assert(!untouched);
                        }
                        match self.table_index(&pname) {
                            Some(pi) => Some((f.on_delete, Self::referenced_value(&self.tables[pi], &f.column, removed))),
                            None => None,
                        }
                    } else {
                        None
                    },
                    None => None,
                };
                match action {
                    None => {},
                    Some((act, key)) => {
                        if !is_null(&key) {
                            let child = copy_chars(&self.tables[tj].name);
                            let mut hits: Vec<i64> = Vec::new();
                            let t = &self.tables[tj];
                            let mut ri: usize = 0;
                            while ri < t.rows.len()
                                invariant ri <= t.rows@.len(), tj < self.tables@.len(), t == &self.tables[tj as int],
                                    cj < t.columns@.len(), !untouched, pname@ == old(self).tables@[ti as int].name@, untouched == !referenced_on_delete(*old(self), pname@),
                                decreases t.rows.len() - ri,
                            {
                                if cj < t.rows[ri].values.len() && values_equal(&t.rows[ri].values[cj], &key) {
                                    hits.push(t.rows[ri].rowid);
                                }
                                ri += 1;
                            }
                            let mut h: usize = 0;
                            while h < hits.len()
                                invariant h <= hits@.len(), self.wf(), !untouched, pname@ == old(self).tables@[ti as int].name@, untouched == !referenced_on_delete(*old(self), pname@),
                                decreases hits.len() - h,
                            {
                                if act == FkAction::Cascade {
                                    if depth == 0 {
                                        return fail(ErrorKind::Limit, "foreign-key cascades nested too deeply");
                                    }
                                    self.delete_rowid(&child, hits[h], depth - 1)?;
                                } else {
                                    self.set_null(&child, hits[h], cj)?;
                                }
                                h += 1;
                            }
                        }
                    },
                }
                cj += 1;
            }
            tj += 1;
        }
        Ok(())
    }

    /// Sets one column of one row to NULL (ON DELETE SET NULL).
    fn set_null(&mut self, tname: &Vec<char>, rowid: i64, col: usize) -> (r: Result<()>)
        requires old(self).wf(),
        ensures final(self).wf(),
            match table_from(old(self).tables@, tname@, 0) {
                None => r is Ok && final(self).tables@ == old(self).tables@,
                Some(ti) => {
                    let t = old(self).tables@[ti];
                    &&& !t.contents().dom().contains(rowid as int) ==> r is Ok && final(self).tables@ == old(self).tables@
                    &&& forall|i: int| 0 <= i < t.rows@.len() && #[trigger] t.rows@[i].rowid == rowid ==> {
                        let v = nulled(vals(t.rows@[i].values@), col as int);
                        &&& (r is Ok <==> rewrite_allowed(*old(self), ti, i, v))
                        &&& (r is Ok ==> final(self).tables@ == old(self).tables@.update(ti, final(self).tables@[ti])
                            && final(self).tables@[ti].contents() == t.contents().remove(rowid as int).insert(
                                rowid_after(t.columns@, v, rowid as int), v))
                    }
                },
            },
    {
        let ti = match self.table_index(tname) {
            Some(i) => i,
            None => {
                proof { lemma_table_from(self.tables@, tname@, 0, None); }
                return Ok(());
            },
        };
        proof { lemma_table_from(self.tables@, tname@, 0, Some(ti as int)); }
        assert(self.tables@[ti as int].wf());
        match self.tables[ti].find_rowid(rowid) {
            None => Ok(()),
            Some(ri) => {
                proof {
                    lemma_contents_at(&self.tables@[ti as int], ri as int);
                    assert(forall|i: int| 0 <= i < self.tables@[ti as int].rows@.len() && #[trigger] self.tables@[ti as int].rows@[i].rowid == rowid
                        ==> i == ri);
                }
                let mut values = copy_row(&self.tables[ti].rows[ri].values);
                if col < values.len() {
                    values.set(col, Value::Null);
                }
                assert(vals(values@) =~= nulled(vals(self.tables@[ti as int].rows@[ri as int].values@), col as int));
                self.rewrite_row(ti, ri, values)
            },
        }
    }
}

/// A well-formed table holds one entry for each stored row: its rowids differ.
pub proof fn lemma_contents_len(t: Table)
    requires t.wf(),
    ensures t.contents().dom().finite(), t.contents().dom().len() == t.rows@.len(),
{
    let s: Seq<int> = t.rows@.map_values(|r: Row| r.rowid as int);
    assert(s.no_duplicates()) by {
        assert forall|i: int, j: int| 0 <= i < s.len() && 0 <= j < s.len() && i != j implies s[i] != s[j] by {
            if i < j {
                assert(t.rows@[i].rowid < t.rows@[j].rowid);
            } else {
                assert(t.rows@[j].rowid < t.rows@[i].rowid);
            }
        }
    }
    assert(t.contents().dom() =~= s.to_set()) by {
        assert forall|k: int| #[trigger] t.contents().dom().contains(k) <==> s.to_set().contains(k) by {
            if t.has_rowid(k) {
                let i = choose|i: int| 0 <= i < t.rows@.len() && #[trigger] t.rows@[i].rowid == k;
                assert(s[i] == k);
            }
            if s.to_set().contains(k) {
                let i = choose|i: int| 0 <= i < s.len() && s[i] == k;
                assert(t.rows@[i].rowid == k);
            }
        }
    }
    s.unique_seq_to_set();
    vstd::seq_lib::seq_to_set_is_finite(s);
}

/// An `INSERT` of rows of values that succeeded leaves its table holding
/// exactly as many more rows as it inserted.
pub proof fn law_insert_adds_rows(before: Db, after: Db, name: Seq<char>, rows: Seq<Vec<Expr>>)
    requires before.wf(), after.wf(), values_inserted(before, after, name, rows),
    ensures table_from(before.tables@, name, 0) matches Some(ti)
        && after.tables@[ti].rows@.len() == before.tables@[ti].rows@.len() + rows.len(),
{
    crate::vm::semantics::lemma_table_from_found(before.tables@, name, 0);
    let ti = table_from(before.tables@, name, 0).unwrap();
    assert(after.tables@.len() == before.tables@.len());
    let b = before.tables@[ti];
    let a = after.tables@[ti];
    let ks = choose|ks: Seq<int>| inserted_under(b, a, rows, ks);
    lemma_contents_len(b);
    lemma_contents_len(a);
    assert(ks.no_duplicates()) by {
        assert forall|i: int, j: int| 0 <= i < ks.len() && 0 <= j < ks.len() && i != j implies ks[i] != ks[j] by {
            if i < j {
                assert(ks[i] != ks[j]);
            } else {
                assert(ks[j] != ks[i]);
            }
        }
    }
    ks.unique_seq_to_set();
    vstd::seq_lib::seq_to_set_is_finite(ks);
    let kset = ks.to_set();
    assert(a.contents().dom() =~= b.contents().dom() + kset);
    assert(b.contents().dom().disjoint(kset)) by {
        assert forall|x: int| b.contents().dom().contains(x) implies !kset.contains(x) by {
            if kset.contains(x) {
                let j = choose|j: int| 0 <= j < ks.len() && ks[j] == x;
                assert(!b.contents().dom().contains(ks[j]));
            }
        }
    }
    vstd::set_lib::lemma_set_disjoint_lens(b.contents().dom(), kset);
}

} // verus!
