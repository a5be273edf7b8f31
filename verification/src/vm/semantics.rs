//! The meaning of expressions, as mathematical functions of a row.
//!
//! `core_eval` gives the value of every expression built from literals,
//! column references, operators, `IS NULL`, `BETWEEN`, `IN (list)`, `LIKE`,
//! `CAST` and calls of the scalar functions that depend on their arguments
//! alone. Aggregate calls, the functions that read the session or draw a
//! random number, `CASE`, sub-queries and window functions are outside it:
//! for those it answers `None` and says nothing.

use vstd::prelude::*;
use crate::types::{Value, ValueV};
use crate::text::like_spec;
use crate::sql::ast::{Expr, BinaryOperator, UnaryOperator, CastType, Query, SetExpr, SelectItem, FromItem};
use crate::storage::table::{Table, Row, ColumnInfo, vals};
use crate::vm::db::same_name;
use crate::vm::eval::{binop_spec, unop_spec, bool_v, value_text, truth};
use crate::vm::query::ColRef;
use crate::text::{text_int_value, lower_seq, upper_seq, substr_spec, replace_spec, trim_spec};
use crate::types::value_order;
use crate::vm::query::{distinct_values, aggregate_value};

verus! {

/// A column of an intermediate result as expressions see it: its table (or
/// alias), its name, and whether `*` leaves it out.
pub type ColView = (Seq<char>, Seq<char>, bool);

/// The views of the columns of an intermediate result.
pub open spec fn col_views(cols: Seq<ColRef>) -> Seq<ColView> {
    cols.map_values(|c: ColRef| (c.table@, c.name@, c.hidden))
}

/// Whether a column answers to a name, with its table or alias when one is given.
pub open spec fn col_matches(c: ColView, table: Option<Vec<char>>, name: Seq<char>) -> bool {
    same_name(c.1, name) && (match table { Some(t) => same_name(c.0, t@), None => true })
}

/// Position of the first column from `i` on that answers to a name.
pub open spec fn first_col_from(cols: Seq<ColView>, table: Option<Vec<char>>, name: Seq<char>, i: int) -> Option<int>
    decreases cols.len() - i,
{
    if i < 0 || i >= cols.len() {
        None
    } else if col_matches(cols[i], table, name) {
        Some(i)
    } else {
        first_col_from(cols, table, name, i + 1)
    }
}

/// `a IN (cands)`: true when a candidate equals `a`; otherwise NULL when `a`
/// or a candidate is NULL; otherwise false. `NOT IN` negates the answer.
pub open spec fn membership_spec(a: ValueV, cands: Seq<ValueV>, negated: bool) -> ValueV {
    if a is Null {
        ValueV::Null
    } else if exists|i: int| 0 <= i < cands.len() && cands[i] == a {
        bool_v(!negated)
    } else if exists|i: int| 0 <= i < cands.len() && cands[i] is Null {
        ValueV::Null
    } else {
        bool_v(negated)
    }
}

/// `CAST(a AS to)`; `None` when the cast fails.
pub open spec fn cast_spec(a: ValueV, to: CastType) -> Option<ValueV> {
    if a is Null {
        Some(ValueV::Null)
    } else {
        match to {
            CastType::Integer => match a {
                ValueV::Int(i) => Some(ValueV::Int(i)),
                _ => {
                    let v = text_int_value(value_text(a));
                    if i64::MIN <= v <= i64::MAX { Some(ValueV::Int(v)) } else { None }
                },
            },
            CastType::Text => Some(ValueV::Text(value_text(a))),
            CastType::Blob => match a {
                ValueV::Blob(b) => Some(ValueV::Blob(b)),
                _ => None,
            },
            CastType::Real => None,
        }
    }
}

/// Whether a call of `name` with `nargs` arguments is an aggregate.
pub open spec fn aggregate_name(name: Seq<char>, nargs: int) -> bool {
    let l = lower_seq(name);
    l == "count"@ || l == "sum"@ || l == "avg"@ || l == "total"@ || l == "group_concat"@ || l == "string_agg"@
        || ((l == "min"@ || l == "max"@) && nargs == 1)
}

/// The text of argument `i`; empty when there is no such argument.
pub open spec fn arg_text_spec(a: Seq<ValueV>, i: int) -> Seq<char> {
    if 0 <= i < a.len() { value_text(a[i]) } else { Seq::empty() }
}

/// The integer of argument `i`; `default` when there is no such argument or
/// it is not an integer.
pub open spec fn arg_int_spec(a: Seq<ValueV>, i: int, default: int) -> int {
    if 0 <= i < a.len() {
        match a[i] {
            ValueV::Int(v) => v,
            _ => default,
        }
    } else {
        default
    }
}

/// Whether one of the values is NULL.
pub open spec fn has_null(a: Seq<ValueV>) -> bool {
    exists|i: int| 0 <= i < a.len() && a[i] is Null
}

/// The first value from position `i` on that is not NULL; NULL when there is none.
pub open spec fn first_non_null(a: Seq<ValueV>, i: int) -> ValueV
    decreases a.len() - i,
{
    if i < 0 || i >= a.len() {
        ValueV::Null
    } else if !(a[i] is Null) {
        a[i]
    } else {
        first_non_null(a, i + 1)
    }
}

/// The greatest (or least) of the values in the value order; of equal ones, the first.
pub open spec fn extreme_of(a: Seq<ValueV>, want_max: bool) -> ValueV
    decreases a.len(),
{
    if a.len() <= 1 {
        a[0]
    } else {
        let best = extreme_of(a.drop_last(), want_max);
        let o = value_order(a.last(), best);
        if (want_max && o is Greater) || (!want_max && o is Less) { a.last() } else { best }
    }
}

/// The name `typeof` gives the class of a value.
pub open spec fn class_word(v: ValueV) -> Seq<char> {
    match v {
        ValueV::Null => "null"@,
        ValueV::Int(_) => "integer"@,
        ValueV::Text(_) => "text"@,
        ValueV::Blob(_) => "blob"@,
    }
}

/// A length as an integer value, capped at the largest one.
pub open spec fn capped_len(n: nat) -> int {
    if n <= i64::MAX { n as int } else { i64::MAX as int }
}

/// The result of the scalar function `name` (in lower case) on argument
/// values: `Some(Some(v))` for a value, `Some(None)` for an error (a wrong
/// number of arguments, an overflow, an unknown function), `None` for the
/// functions whose result depends on more than the arguments
/// (`current_setting`, `auth_uid`, `random`) and for `json_quote`,
/// `json_unquote` and `instr`, of which nothing is said.
pub open spec fn scalar_spec(name: Seq<char>, a: Seq<ValueV>) -> Option<Option<ValueV>> {
    let n = a.len();
    if name == "coalesce"@ || name == "ifnull"@ {
        Some(Some(first_non_null(a, 0)))
    } else if name == "nullif"@ {
        if n != 2 {
            Some(None)
        } else if !(a[0] is Null) && !(a[1] is Null) && a[0] == a[1] {
            Some(Some(ValueV::Null))
        } else {
            Some(Some(a[0]))
        }
    } else if name == "iif"@ {
        if n != 3 { Some(None) } else { Some(Some(if truth(a[0]) == Some(true) { a[1] } else { a[2] })) }
    } else if name == "current_setting"@ || name == "auth_uid"@ || name == "random"@ {
        None
    } else if name == "typeof"@ {
        if n != 1 { Some(None) } else { Some(Some(ValueV::Text(class_word(a[0])))) }
    } else if (name == "min"@ || name == "max"@) && n >= 2 {
        Some(Some(if has_null(a) { ValueV::Null } else { extreme_of(a, name == "max"@) }))
    } else if has_null(a) {
        Some(Some(ValueV::Null))
    } else if name == "upper"@ || name == "ucase"@ {
        Some(Some(ValueV::Text(upper_seq(arg_text_spec(a, 0)))))
    } else if name == "lower"@ || name == "lcase"@ {
        Some(Some(ValueV::Text(lower_seq(arg_text_spec(a, 0)))))
    } else if name == "length"@ || name == "char_length"@ {
        if n != 1 {
            Some(None)
        } else {
            Some(Some(ValueV::Int(match a[0] {
                ValueV::Blob(b) => capped_len(b.len()),
                _ => capped_len(value_text(a[0]).len()),
            })))
        }
    } else if name == "substr"@ || name == "substring"@ {
        let len = if n >= 3 { arg_int_spec(a, 2, 0) } else { i64::MAX as int };
        Some(Some(ValueV::Text(substr_spec(arg_text_spec(a, 0), arg_int_spec(a, 1, 1), len))))
    } else if name == "replace"@ {
        if n != 3 { Some(None) } else { Some(Some(ValueV::Text(replace_spec(value_text(a[0]), value_text(a[1]), value_text(a[2]))))) }
    } else if name == "trim"@ {
        Some(Some(ValueV::Text(trim_spec(arg_text_spec(a, 0)))))
    } else if name == "abs"@ {
        if n != 1 {
            Some(None)
        } else {
            match a[0] {
                ValueV::Int(v) => if v == i64::MIN { Some(None) } else { Some(Some(ValueV::Int(if v < 0 { -v } else { v }))) },
                _ => Some(Some(ValueV::Null)),
            }
        }
    } else if name == "json_quote"@ || name == "json_unquote"@ || name == "instr"@ {
        None
    } else {
        Some(None)
    }
}

/// `a LIKE p` with the NULL rule.
pub open spec fn like_value(a: ValueV, p: ValueV, negated: bool) -> ValueV {
    if a is Null || p is Null {
        ValueV::Null
    } else {
        bool_v(like_spec(value_text(a), value_text(p)) != negated)
    }
}

/// `a BETWEEN lo AND hi`, as `a >= lo AND a <= hi`.
pub open spec fn between_value(a: ValueV, lo: ValueV, hi: ValueV, negated: bool) -> Option<ValueV> {
    match (binop_spec(BinaryOperator::GreaterThanOrEqual, a, lo), binop_spec(BinaryOperator::LessThanOrEqual, a, hi)) {
        (Some(ge), Some(le)) => match binop_spec(BinaryOperator::And, ge, le) {
            Some(both) => if negated { unop_spec(UnaryOperator::Not, both) } else { Some(both) },
            None => None,
        },
        _ => None,
    }
}

/// The value of an expression on a row, evaluated with the given depth
/// budget, inside a group of rows (`group`, for aggregate calls) or
/// outside any: `Some(Some(v))` for a value, `Some(None)` for an error (an
/// unknown column, an overflow, a failed cast, an aggregate outside a
/// group, too deep a nesting), `None` for an expression outside the
/// described ones.
pub open spec fn eval_in(e: Expr, cols: Seq<ColView>, row: Seq<ValueV>, group: Option<Seq<Seq<ValueV>>>, fuel: nat)
    -> Option<Option<ValueV>>
    decreases fuel, 1nat,
{
    if fuel == 0 {
        Some(None)
    } else {
        let f = (fuel - 1) as nat;
        match e {
            Expr::Literal(v) => Some(Some(v@)),
            Expr::Column { table, name } => match first_col_from(cols, table, name@, 0) {
                Some(i) => Some(Some(if i < row.len() { row[i] } else { ValueV::Null })),
                None => Some(None),
            },
            Expr::Binary { op, left, right } => match eval_in(*left, cols, row, group, f) {
                Some(Some(a)) => match eval_in(*right, cols, row, group, f) {
                    Some(Some(b)) => Some(binop_spec(op, a, b)),
                    other => other,
                },
                other => other,
            },
            Expr::Unary { op, expr } => match eval_in(*expr, cols, row, group, f) {
                Some(Some(a)) => Some(unop_spec(op, a)),
                other => other,
            },
            Expr::IsNull { expr, negated } => match eval_in(*expr, cols, row, group, f) {
                Some(Some(a)) => Some(Some(bool_v((a is Null) != negated))),
                other => other,
            },
            Expr::Between { expr, low, high, negated } => match eval_in(*expr, cols, row, group, f) {
                Some(Some(a)) => match eval_in(*low, cols, row, group, f) {
                    Some(Some(lo)) => match eval_in(*high, cols, row, group, f) {
                        Some(Some(hi)) => Some(between_value(a, lo, hi, negated)),
                        other => other,
                    },
                    other => other,
                },
                other => other,
            },
            Expr::InList { expr, list, negated } => match eval_in(*expr, cols, row, group, f) {
                Some(Some(a)) => match eval_list_in(list@, cols, row, group, f) {
                    Some(Some(cands)) => Some(Some(membership_spec(a, cands, negated))),
                    Some(None) => Some(None),
                    None => None,
                },
                other => other,
            },
            Expr::Like { expr, pattern, negated } => match eval_in(*expr, cols, row, group, f) {
                Some(Some(a)) => match eval_in(*pattern, cols, row, group, f) {
                    Some(Some(p)) => Some(Some(like_value(a, p, negated))),
                    other => other,
                },
                other => other,
            },
            Expr::Cast { expr, to } => match eval_in(*expr, cols, row, group, f) {
                Some(Some(a)) => Some(cast_spec(a, to)),
                other => other,
            },
            Expr::Function { name, args, distinct, star } => {
                if aggregate_name(name@, args@.len() as int) {
                    match group {
                        None => Some(None),
                        Some(g) => {
                            if star || args@.len() == 0 {
                                if lower_seq(name@) == "count"@ {
                                    if g.len() <= i64::MAX { Some(Some(ValueV::Int(g.len() as int))) } else { None }
                                } else {
                                    Some(None)
                                }
                            } else {
                                match arg_values(args@[0], cols, g, f) {
                                    Some(all) => {
                                        let vs = if distinct { distinct_values(all) } else { all };
                                        let sep: Option<Seq<char>> = if args@.len() >= 2 {
                                            if g.len() > 0 {
                                                match eval_in(args@[1], cols, g[0], None, f) {
                                                    Some(Some(sv)) => Some(value_text(sv)),
                                                    _ => None,
                                                }
                                            } else {
                                                Some(Seq::empty())
                                            }
                                        } else {
                                            Some(","@)
                                        };
                                        match sep {
                                            Some(sp) => if vs.len() <= i64::MAX {
                                                match aggregate_value(lower_seq(name@), vs, sp) {
                                                    Some(v) => Some(Some(v)),
                                                    None => Some(None),
                                                }
                                            } else {
                                                None
                                            },
                                            None => None,
                                        }
                                    },
                                    None => None,
                                }
                            }
                        },
                    }
                } else {
                    match eval_list_in(args@, cols, row, group, f) {
                        Some(Some(vs)) => scalar_spec(lower_seq(name@), vs),
                        Some(None) => Some(None),
                        None => None,
                    }
                }
            },
            _ => None,
        }
    }
}

/// The values of a list of expressions, evaluated left to right: the first
/// error, or the first expression outside the described ones, decides.
pub open spec fn eval_list_in(es: Seq<Expr>, cols: Seq<ColView>, row: Seq<ValueV>, group: Option<Seq<Seq<ValueV>>>, fuel: nat)
    -> Option<Option<Seq<ValueV>>>
    decreases fuel, es.len() + 1,
{
    if es.len() == 0 {
        Some(Some(Seq::empty()))
    } else {
        match eval_list_in(es.drop_last(), cols, row, group, fuel) {
            Some(Some(vs)) => match eval_in(es.last(), cols, row, group, fuel) {
                Some(Some(v)) => Some(Some(vs.push(v))),
                Some(None) => Some(None),
                None => None,
            },
            other => other,
        }
    }
}

/// The non-NULL values of an expression over the rows, in order; `None`
/// when it has no known value on some row.
pub open spec fn arg_values(e: Expr, colv: Seq<ColView>, rows: Seq<Seq<ValueV>>, fuel: nat) -> Option<Seq<ValueV>>
    decreases fuel, rows.len() + 2,
{
    if rows.len() == 0 {
        Some(Seq::empty())
    } else {
        match (arg_values(e, colv, rows.drop_last(), fuel), eval_in(e, colv, rows.last(), None, fuel)) {
            (Some(vs), Some(Some(v))) => Some(if v is Null { vs } else { vs.push(v) }),
            _ => None,
        }
    }
}

/// The value of an expression on a row outside any group.
pub open spec fn core_eval(e: Expr, cols: Seq<ColView>, row: Seq<ValueV>, fuel: nat) -> Option<Option<ValueV>> {
    eval_in(e, cols, row, None, fuel)
}

/// The values of a list of expressions on a row outside any group.
pub open spec fn core_eval_list(es: Seq<Expr>, cols: Seq<ColView>, row: Seq<ValueV>, fuel: nat) -> Option<Option<Seq<ValueV>>> {
    eval_list_in(es, cols, row, None, fuel)
}

/// The expressions of a list whose values are known each have a known value.
pub proof fn lemma_eval_list_prefix(es: Seq<Expr>, cols: Seq<ColView>, row: Seq<ValueV>, group: Option<Seq<Seq<ValueV>>>,
    fuel: nat, i: int)
    requires 0 <= i < es.len(), eval_list_in(es, cols, row, group, fuel) matches Some(Some(_)),
    ensures eval_in(es[i], cols, row, group, fuel) matches Some(Some(_)),
        eval_list_in(es.take(i), cols, row, group, fuel) matches Some(Some(_)),
    decreases es.len(),
{
    if i < es.len() - 1 {
        lemma_eval_list_prefix(es.drop_last(), cols, row, group, fuel, i);
        assert(es.drop_last()[i] == es[i]);
        assert(es.drop_last().take(i) =~= es.take(i));
    } else {
        assert(es.drop_last() =~= es.take(i));
    }
}

/// The expressions of a list whose values are known each have a known value.
pub proof fn lemma_core_eval_list_prefix(es: Seq<Expr>, cols: Seq<ColView>, row: Seq<ValueV>, fuel: nat, i: int)
    requires 0 <= i < es.len(), core_eval_list(es, cols, row, fuel) matches Some(Some(_)),
    ensures core_eval(es[i], cols, row, fuel) matches Some(Some(_)),
        core_eval_list(es.take(i), cols, row, fuel) matches Some(Some(_)),
{
    lemma_eval_list_prefix(es, cols, row, None, fuel, i);
}

/// The columns a scan of a table presents: its columns under the alias,
/// then the hidden rowid.
pub open spec fn table_cols_view(t: Table, alias: Seq<char>) -> Seq<ColView> {
    t.columns@.map_values(|c: ColumnInfo| (alias, c.name@, false)).push((alias, "rowid"@, true))
}

/// A stored row as a scan presents it: its values, then its rowid.
pub open spec fn scan_row(r: Row) -> Seq<ValueV> {
    vals(r.values@).push(ValueV::Int(r.rowid as int))
}

/// Whether a row passes a WHERE condition (always, without one).
pub open spec fn passes(cond: Option<Expr>, cols: Seq<ColView>, row: Seq<ValueV>, fuel: nat) -> bool {
    match cond {
        None => true,
        Some(c) => core_eval(c, cols, row, fuel) matches Some(Some(v)) && truth(v) == Some(true),
    }
}

/// Whether the condition has a value, without error, on each of the rows.
pub open spec fn decided_on(cond: Option<Expr>, cols: Seq<ColView>, rows: Seq<Row>, fuel: nat) -> bool {
    match cond {
        None => true,
        Some(c) => forall|i: int| 0 <= i < rows.len() ==> core_eval(c, cols, scan_row(#[trigger] rows[i]), fuel) matches Some(Some(_)),
    }
}

/// The stored values of the rows that pass the condition, in order.
pub open spec fn selected_rows(rows: Seq<Row>, cond: Option<Expr>, cols: Seq<ColView>, fuel: nat) -> Seq<Seq<ValueV>>
    decreases rows.len(),
{
    if rows.len() == 0 {
        Seq::empty()
    } else {
        let prev = selected_rows(rows.drop_last(), cond, cols, fuel);
        if passes(cond, cols, scan_row(rows.last()), fuel) { prev.push(vals(rows.last().values@)) } else { prev }
    }
}

/// The models of the rows of a result.
pub open spec fn rows_view(rows: Seq<Vec<Value>>) -> Seq<Seq<ValueV>> {
    rows.map_values(|r: Vec<Value>| vals(r@))
}

/// Position of the first table from `i` on with the name.
pub open spec fn table_from(tables: Seq<Table>, name: Seq<char>, i: int) -> Option<int>
    decreases tables.len() - i,
{
    if i < 0 || i >= tables.len() {
        None
    } else if same_name(tables[i].name@, name) {
        Some(i)
    } else {
        table_from(tables, name, i + 1)
    }
}

/// A query of the form `SELECT * FROM table [alias] [WHERE cond]`: the
/// table's name, the name its columns go by, and the condition.
pub open spec fn scan_query(q: Query) -> Option<(Seq<char>, Seq<char>, Option<Expr>)> {
    if q.order_by@.len() == 0 && q.limit is None && q.offset is None {
        match q.body {
            SetExpr::Select(sel) => {
                if !sel.distinct && sel.items@.len() == 1 && sel.items@[0] is Star && sel.from@.len() == 1
                    && sel.group_by@.len() == 0 && sel.having is None {
                    match sel.from@[0] {
                        FromItem::Table { name, alias } =>
                            Some((name@, match alias { Some(a) => a@, None => name@ }, sel.where_clause)),
                        _ => None,
                    }
                } else {
                    None
                }
            },
            _ => None,
        }
    } else {
        None
    }
}

/// What `SELECT * FROM t [WHERE cond]` returns on the given tables, when
/// `t` is a table without row-level security and the condition has a value
/// on each row: the stored values of the rows that pass it, in rowid order.
pub open spec fn scan_result(tables: Seq<Table>, q: Query, fuel: nat) -> Option<Seq<Seq<ValueV>>> {
    match scan_query(q) {
        Some((name, alias, cond)) => match table_from(tables, name, 0) {
            Some(i) => {
                let t = tables[i];
                let cols = table_cols_view(t, alias);
                if !t.row_security && decided_on(cond, cols, t.rows@, fuel) {
                    Some(selected_rows(t.rows@, cond, cols, fuel))
                } else {
                    None
                }
            },
            None => None,
        },
        None => None,
    }
}

/// The values of a list of constant expressions (no columns in scope), when
/// they all have one.
pub open spec fn constant_values(es: Seq<Expr>, fuel: nat) -> Option<Seq<ValueV>> {
    match core_eval_list(es, Seq::empty(), Seq::empty(), fuel) {
        Some(Some(vs)) => Some(vs),
        _ => None,
    }
}

/// A table found is a table of the list, with the name.
pub proof fn lemma_table_from_found(tables: Seq<Table>, name: Seq<char>, i: int)
    ensures table_from(tables, name, i) matches Some(x) ==> i <= x < tables.len() && same_name(tables[x].name@, name),
    decreases tables.len() - i,
{
    if 0 <= i < tables.len() {
        lemma_table_from_found(tables, name, i + 1);
    }
}

/// Names that are the same find the same table.
pub proof fn lemma_table_from_same_name(tables: Seq<Table>, a: Seq<char>, b: Seq<char>, i: int)
    requires same_name(a, b),
    ensures table_from(tables, a, i) == table_from(tables, b, i),
    decreases tables.len() - i,
{
    if 0 <= i < tables.len() {
        lemma_table_from_same_name(tables, a, b, i + 1);
    }
}

/// Replacing a table by one with the same name finds the same tables.
pub proof fn lemma_table_from_update(tables: Seq<Table>, name: Seq<char>, ti: int, t: Table, i: int)
    requires 0 <= ti < tables.len(), t.name@ == tables[ti].name@,
    ensures table_from(tables.update(ti, t), name, i) == table_from(tables, name, i),
    decreases tables.len() - i,
{
    if 0 <= i < tables.len() {
        lemma_table_from_update(tables, name, ti, t, i + 1);
    }
}

} // verus!
