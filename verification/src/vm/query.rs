//! Expression evaluation and query execution.
//!
//! The evaluator and the query executor call each other (sub-queries inside
//! expressions, expressions inside queries). Every such call, and every
//! descent into a sub-expression, spends one unit of `fuel`; a statement that
//! nests deeper than its fuel allows is rejected with an error.

use vstd::prelude::*;
use crate::types::{Value, ValueV, Order, copy_value, copy_row, copy_chars, values_equal, compare_values,
    text_value, str_chars, arc_chars, is_null, value_order, lemma_value_order_antisym, lemma_value_order_equal, lemma_value_order_less_trans};
use crate::text::{int_text, digit_char, chars_eq_ci, eq_word, to_upper, to_lower, substr, replace_all, trim, like_match,
    int_to_text, parse_text_int, lower_seq};
use crate::sql::ast::{Expr, BinaryOperator, UnaryOperator, CastType, OrderItem, SelectItem, FromItem,
    JoinKind, Select, SetExpr, SetOperator, Query};
use crate::error::{KkdbError, ErrorKind, Result};
use crate::vm::eval::{binary_op, unary_op, is_true, truth_of, bool_value, text_of, value_text, trunc_div};
use crate::vm::db::{Db, PolicyDef, same_name, tables_wf};
use crate::storage::table::{Table, Row, vals};
use crate::vm::setops::{combine_sets, contains_view, add_rows, set_op_rows};
use crate::vm::relations::{scan_rows, policy_admits, series_rows, series_spec, rel_view, join_rows, join_matches, on_passes, nulls, from_spec, from_list_spec, cross,
    filter_spec, select_aggregates, count_spec, prefix_all,
    has_window_item, no_wins, query_spec, page_spec, lemma_scan_query_spec,
    name_pos, output_pos_spec, order_key_spec, keys_spec, project_keyed, distinct_keyed, select_keyed, stable_order,
    pick_rows, ordered_query, group_keys_spec, key_pos, group_by_keys, select_core, select_groups, group_output,
    group_outputs, group_rep};
use crate::vm::semantics::{ColView, scan_query, scan_result, table_from, col_views, table_cols_view, scan_row, decided_on, selected_rows, rows_view, passes, col_matches, first_col_from, membership_spec, cast_spec, core_eval, core_eval_list,
    lemma_core_eval_list_prefix, aggregate_name, arg_values, eval_in, eval_list_in, lemma_eval_list_prefix, arg_text_spec, arg_int_spec, has_null, first_non_null, extreme_of,
    class_word, capped_len, scalar_spec};

verus! {

/// A column of an intermediate result: the table (or alias) it comes from,
/// its name, and whether `*` leaves it out.
pub struct ColRef {
    pub table: Vec<char>,
    pub name: Vec<char>,
    pub hidden: bool,
}

/// An intermediate relation.
pub struct Rel {
    pub cols: Vec<ColRef>,
    pub rows: Vec<Vec<Value>>,
}

/// The result of a query: column names and rows.
pub struct Output {
    pub names: Vec<Vec<char>>,
    pub rows: Vec<Vec<Value>>,
}

pub fn fail<T>(kind: ErrorKind, msg: &str) -> (r: Result<T>)
    ensures r matches Err(e) && e.kind == kind && e.message@ == msg@,
{
    Err(KkdbError::new(kind, msg))
}

fn too_deep<T>() -> (r: Result<T>)
    ensures r matches Err(e) && e.kind == ErrorKind::Limit && e.message@ == "statement nested too deeply"@,
{
    fail(ErrorKind::Limit, "statement nested too deeply")
}

/// A copy of a column description.
pub fn copy_colref(c: &ColRef) -> (r: ColRef)
    ensures r.table@ == c.table@, r.name@ == c.name@, r.hidden == c.hidden,
{
    ColRef { table: copy_chars(&c.table), name: copy_chars(&c.name), hidden: c.hidden }
}

/// Position of a column, matching the table qualifier when one is given.
pub fn find_column(cols: &Vec<ColRef>, table: &Option<Vec<char>>, name: &Vec<char>) -> (r: Option<usize>)
    ensures
        r matches Some(i) ==> i < cols@.len(),
        match r { Some(i) => first_col_from(col_views(cols@), *table, name@, 0) == Some(i as int), None => first_col_from(col_views(cols@), *table, name@, 0) is None },
{
    let mut i: usize = 0;
    while i < cols.len()
        invariant i <= cols@.len(), first_col_from(col_views(cols@), *table, name@, 0) == first_col_from(col_views(cols@), *table, name@, i as int),
        decreases cols.len() - i,
    {
        let hit = chars_eq_ci(&cols[i].name, name) && match table {
            None => true,
            Some(t) => chars_eq_ci(&cols[i].table, t),
        };
        assert(hit == col_matches(col_views(cols@)[i as int], *table, name@));
        if hit {
            return Some(i);
        }
        i += 1;
    }
    None
}

fn null_row(n: usize) -> (r: Vec<Value>)
    ensures r@.len() == n, forall|i: int| 0 <= i < n ==> #[trigger] r@[i]@ == ValueV::Null,
{
    let mut out: Vec<Value> = Vec::new();
    let mut i: usize = 0;
    while i < n
        invariant i <= n, out@.len() == i, forall|k: int| 0 <= k < i ==> #[trigger] out@[k]@ == ValueV::Null,
        decreases n - i,
    {
        out.push(Value::Null);
        i += 1;
    }
    out
}

fn concat_rows(a: &Vec<Value>, b: &Vec<Value>) -> (r: Vec<Value>)
    ensures r@.len() == a@.len() + b@.len(), vals(r@) == vals(a@) + vals(b@),
{
    let mut out = copy_row(a);
    assert(vals(out@) =~= vals(a@));
    let mut i: usize = 0;
    while i < b.len()
        invariant i <= b@.len(), out@.len() == a@.len() + i, vals(out@) == vals(a@) + vals(b@.take(i as int)),
        decreases b.len() - i,
    {
        let ghost prev = out@;
        let v = copy_value(&b[i]);
        out.push(v);
        assert(vals(out@) =~= vals(prev).push(b@[i as int]@));
        assert(b@.take(i + 1) =~= b@.take(i as int).push(b@[i as int]));
        assert(vals(b@.take(i + 1)) =~= vals(b@.take(i as int)).push(b@[i as int]@));
        i += 1;
        assert(vals(out@) =~= vals(a@) + vals(b@.take(i as int)));
    }
    assert(b@.take(b@.len() as int) =~= b@);
    out
}

fn is_name(e: &Expr, w: &str) -> (r: bool)
    ensures r == (e matches Expr::Column { table: None, name } && lower_seq(name@) == w@),
{
    match e {
        Expr::Column { table: None, name } => eq_word(name, w),
        _ => false,
    }
}

/// Whether a function name with this many arguments is an aggregate:
/// COUNT, SUM, AVG, TOTAL, GROUP_CONCAT, STRING_AGG, and MIN or MAX of one argument.
pub fn is_aggregate_name(name: &Vec<char>, nargs: usize) -> (r: bool)
    ensures r == aggregate_name(name@, nargs as int),
{
    eq_word(name, "count") || eq_word(name, "sum") || eq_word(name, "avg") || eq_word(name, "total")
        || eq_word(name, "group_concat") || eq_word(name, "string_agg")
        || ((eq_word(name, "min") || eq_word(name, "max")) && nargs == 1)
}

/// Whether an expression calls an aggregate function outside sub-queries,
/// looking `fuel` levels deep.
pub open spec fn aggregate_in(e: Expr, fuel: nat) -> bool
    decreases fuel, 1nat,
{
    if fuel == 0 {
        false
    } else {
        let f = (fuel - 1) as nat;
        match e {
            Expr::Function { name, args, .. } => aggregate_name(name@, args@.len() as int) || aggregate_in_list(args@, f),
            Expr::Binary { left, right, .. } => aggregate_in(*left, f) || aggregate_in(*right, f),
            Expr::Unary { expr, .. } => aggregate_in(*expr, f),
            Expr::IsNull { expr, .. } => aggregate_in(*expr, f),
            Expr::Between { expr, low, high, .. } => aggregate_in(*expr, f) || aggregate_in(*low, f) || aggregate_in(*high, f),
            Expr::InList { expr, list, .. } => aggregate_in(*expr, f) || aggregate_in_list(list@, f),
            Expr::InSubquery { expr, .. } => aggregate_in(*expr, f),
            Expr::Like { expr, pattern, .. } => aggregate_in(*expr, f) || aggregate_in(*pattern, f),
            Expr::Case { operand, whens, else_expr } =>
                (match operand { Some(o) => aggregate_in(*o, f), None => false })
                || (exists|i: int| 0 <= i < whens@.len() && (aggregate_in(#[trigger] whens@[i].0, f) || aggregate_in(whens@[i].1, f)))
                || (match else_expr { Some(x) => aggregate_in(*x, f), None => false }),
            Expr::Cast { expr, .. } => aggregate_in(*expr, f),
            _ => false,
        }
    }
}

/// Whether one of the expressions calls an aggregate function, looking
/// `fuel` levels deep.
pub open spec fn aggregate_in_list(es: Seq<Expr>, fuel: nat) -> bool
    decreases fuel, 0nat,
{
    if fuel == 0 {
        false
    } else {
        exists|i: int| 0 <= i < es.len() && aggregate_in(#[trigger] es[i], (fuel - 1) as nat)
    }
}

/// Whether an expression uses an aggregate function outside sub-queries.
pub fn has_aggregate(e: &Expr, fuel: u32) -> (r: bool)
    ensures r == aggregate_in(*e, fuel as nat),
    decreases fuel,
{
    if fuel == 0 {
        return false;
    }
    match e {
        Expr::Function { name, args, .. } => {
            if is_aggregate_name(name, args.len()) {
                return true;
            }
            any_aggregate(args, fuel - 1)
        },
        Expr::Binary { left, right, .. } => has_aggregate(left, fuel - 1) || has_aggregate(right, fuel - 1),
        Expr::Unary { expr, .. } => has_aggregate(expr, fuel - 1),
        Expr::IsNull { expr, .. } => has_aggregate(expr, fuel - 1),
        Expr::Between { expr, low, high, .. } =>
            has_aggregate(expr, fuel - 1) || has_aggregate(low, fuel - 1) || has_aggregate(high, fuel - 1),
        Expr::InList { expr, list, .. } => has_aggregate(expr, fuel - 1) || any_aggregate(list, fuel - 1),
        Expr::InSubquery { expr, .. } => has_aggregate(expr, fuel - 1),
        Expr::Like { expr, pattern, .. } => has_aggregate(expr, fuel - 1) || has_aggregate(pattern, fuel - 1),
        Expr::Case { operand, whens, else_expr } => {
            let ghost f = (fuel - 1) as nat;
            let first = match operand { Some(o) => has_aggregate(o, fuel - 1), None => false };
            let mut found = false;
            let mut i: usize = 0;
            while i < whens.len() && !found
                invariant i <= whens@.len(), fuel > 0, f == (fuel - 1) as nat,
                    found == (exists|k: int| 0 <= k < i && (aggregate_in(#[trigger] whens@[k].0, f) || aggregate_in(whens@[k].1, f))),
                decreases whens.len() - i,
            {
                let ghost before = found;
                found = has_aggregate(&whens[i].0, fuel - 1) || has_aggregate(&whens[i].1, fuel - 1);
                proof {
                    let hit = aggregate_in(whens@[i as int].0, f) || aggregate_in(whens@[i as int].1, f);
                    assert(found == hit);
                    if !found {
                        assert forall|k: int| 0 <= k < i + 1 implies !(aggregate_in(#[trigger] whens@[k].0, f) || aggregate_in(whens@[k].1, f)) by {
                            if k < i {
                                assert(!before);
                            }
                        }
                    }
                }
                i += 1;
            }
            first || found || match else_expr { Some(x) => has_aggregate(x, fuel - 1), None => false }
        },
        Expr::Cast { expr, .. } => has_aggregate(expr, fuel - 1),
        _ => false,
    }
}

fn any_aggregate(es: &Vec<Expr>, fuel: u32) -> (r: bool)
    ensures r == aggregate_in_list(es@, fuel as nat),
    decreases fuel,
{
    if fuel == 0 {
        return false;
    }
    let mut i: usize = 0;
    while i < es.len()
        invariant i <= es@.len(), fuel > 0, forall|k: int| 0 <= k < i ==> !aggregate_in(#[trigger] es@[k], (fuel - 1) as nat),
        decreases es.len() - i,
    {
        if has_aggregate(&es[i], fuel - 1) {
            return true;
        }
        i += 1;
    }
    false
}

/// Appends characters to a buffer.
pub fn append_chars(out: &mut Vec<char>, s: &Vec<char>)
    ensures final(out)@ == old(out)@ + s@,
{
    let ghost start = out@;
    let mut i: usize = 0;
    while i < s.len()
        invariant i <= s@.len(), out@ == start + s@.take(i as int),
        decreases s.len() - i,
    {
        out.push(s[i]);
        i += 1;
        assert(out@ =~= start + s@.take(i as int));
    }
    assert(s@.take(s@.len() as int) =~= s@);
}

fn append_str(out: &mut Vec<char>, s: &str)
    ensures final(out)@ == old(out)@ + s@,
{
    let cs = str_chars(s);
    append_chars(out, &cs);
}

/// The fractional digits of `rem / den` after `k` of them were written: up
/// to four, at least one, and none after the remainder runs out.
pub open spec fn frac_digits(rem: nat, den: nat, k: nat) -> Seq<char>
    decreases 4 - k,
{
    if k >= 4 || (rem == 0 && k > 0) || den == 0 {
        Seq::empty()
    } else {
        seq![digit_char((rem * 10 / den) as int)] + frac_digits(rem * 10 % den, den, k + 1)
    }
}

/// `num / den` as the text of its whole part, a point and its first
/// fractional digits; NULL when `den` is zero.
pub open spec fn ratio_spec(num: nat, den: nat) -> ValueV {
    if den == 0 {
        ValueV::Null
    } else {
        let whole = num / den;
        ValueV::Text(int_text(if whole <= i64::MAX { whole as int } else { 0 }) + seq!['.'] + frac_digits(num % den, den, 0))
    }
}

/// `num / den` written as a decimal with up to four fractional digits.
pub fn ratio_value(num: u64, den: u64) -> (r: Value)
    ensures r@ == ratio_spec(num as nat, den as nat),
{
    if den == 0 {
        return Value::Null;
    }
    let whole = num / den;
    let mut rem = num % den;
    let ghost w: int = if whole <= 0x7fff_ffff_ffff_ffffu64 { whole as int } else { 0 };
    let mut out = int_to_text(if whole <= 0x7fff_ffff_ffff_ffffu64 { whole as i64 } else { 0 });
    assert(out@ == int_text(w));
    out.push('.');
    assert(out@ =~= int_text(w) + seq!['.']);
    let ghost target = out@ + frac_digits((num % den) as nat, den as nat, 0);
    let mut k: usize = 0;
    let mut wrote = false;
    while k < 4 && (rem != 0 || !wrote)
        invariant k <= 4, rem < den, wrote == (k > 0), den > 0,
            out@ + frac_digits(rem as nat, den as nat, k as nat) == target,
        decreases 4 - k,
    {
        let r10: u128 = (rem as u128) * 10u128;
        assert(r10 / (den as u128) < 10) by (nonlinear_arith)
            requires r10 == rem * 10, rem < den, den > 0;
        assert(r10 % (den as u128) < den) by (nonlinear_arith)
            requires den > 0;
        let d = (r10 / (den as u128)) as u8;
        let ghost before = out@;
        rem = (r10 % (den as u128)) as u64;
        out.push((d % 10u8 + 48u8) as char);
        proof {
            assert(d % 10 == d);
            assert(out@ =~= before + seq![digit_char(d as int)]);
        }
        wrote = true;
        k += 1;
        assert(out@ + frac_digits(rem as nat, den as nat, k as nat) =~= target);
    }
    assert(frac_digits(rem as nat, den as nat, k as nat) =~= Seq::<char>::empty());
    assert(out@ + Seq::<char>::empty() =~= out@);
    text_value(&out)
}

/// Integer value of a LIMIT or OFFSET expression.
fn eval_count(db: &Db, e: &Option<Expr>, fuel: u32) -> (r: Result<Option<i64>>)
    ensures
        count_spec(*e, fuel as nat) matches Some(res) ==>
            (res matches Some(c) ==> r matches Ok(x) && x == c) && (res is None ==> r is Err),
    decreases fuel, 60int,
{
    match e {
        None => Ok(None),
        Some(x) => {
            let cols: Vec<ColRef> = Vec::new();
            let row: Vec<Value> = Vec::new();
            assert(col_views(cols@) =~= Seq::<ColView>::empty());
            assert(vals(row@) =~= Seq::<ValueV>::empty());
            let v = eval_expr(db, x, &cols, &row, None, fuel)?;
            match v {
                Value::Integer(n) => Ok(Some(n)),
                _ => fail(ErrorKind::Type, "LIMIT and OFFSET must be integers"),
            }
        },
    }
}

/// The rows of the current group, as values.
pub open spec fn group_view(group: Option<&Vec<Vec<Value>>>) -> Option<Seq<Seq<ValueV>>> {
    match group {
        Some(g) => Some(rows_view(g@)),
        None => None,
    }
}

/// What `expr [NOT] IN (query)` gives where the value and the query's rows
/// are known: whether the value is among the first column's values of the
/// rows, as `membership_spec` says; `None` for any other expression.
#[verifier::opaque]
pub open spec fn subquery_answer(db: Db, e: Expr, cols: Seq<ColView>, row: Seq<ValueV>, group: Option<Seq<Seq<ValueV>>>, fuel: nat) -> Option<ValueV> {
    match e {
        Expr::InSubquery { expr, query, negated } => if fuel == 0 {
            None
        } else {
            match (eval_in(*expr, cols, row, group, (fuel - 1) as nat), query_spec(db, *query, (fuel - 1) as nat)) {
                (Some(Some(av)), Some(Some(nr))) => Some(membership_spec(av, first_values(nr.1), negated)),
                _ => None,
            }
        },
        _ => None,
    }
}

/// `expr [NOT] IN (query)`: whether the value is among the first column's
/// values of the query's rows, as `membership_spec` says, with NULL when it
/// is not and one of them is NULL. A query that runs without the enclosing
/// row is run that way; one that reads it is run with it.
fn eval_in_subquery(db: &Db, expr: &Expr, query: &Query, negated: bool, cols: &Vec<ColRef>, row: &Vec<Value>,
    group: Option<&Vec<Vec<Value>>>, fuel: u32) -> (r: Result<Value>)
    requires fuel > 0,
    ensures
        match (eval_in(*expr, col_views(cols@), vals(row@), group_view(group), (fuel - 1) as nat), query_spec(*db, *query, (fuel - 1) as nat)) {
            (Some(Some(av)), Some(Some(nr))) => r matches Ok(x) && x@ == membership_spec(av, first_values(nr.1), negated),
            _ => true,
        },
    decreases fuel, 45int,
{
    let a = eval_expr(db, expr, cols, row, group, fuel - 1)?;
    let out = match exec_query(db, query, None, fuel - 1) {
        Ok(o) => o,
        Err(_) => exec_query(db, query, Some((cols, row)), fuel - 1)?,
    };
    let ghost rv = rows_view(out.rows@);
    let mut cands: Vec<Value> = Vec::new();
    let mut i: usize = 0;
    while i < out.rows.len()
        invariant i <= out.rows@.len(), rv == rows_view(out.rows@),
            vals(cands@) == first_values(rv.take(i as int)),
        decreases out.rows.len() - i,
    {
        proof {
            assert(rv.take(i + 1).drop_last() =~= rv.take(i as int));
            assert(rv.take(i + 1).last() == vals(out.rows@[i as int]@));
        }
        if out.rows[i].len() > 0 {
            cands.push(copy_value(&out.rows[i][0]));
        }
        assert(vals(cands@) =~= first_values(rv.take(i + 1)));
        i += 1;
    }
    assert(rv.take(out.rows@.len() as int) =~= rv);
    Ok(membership(&a, &cands, negated))
}

/// Evaluates an expression on a row. `group` holds the rows of the current
/// group when aggregate functions are allowed.
#[verifier::spinoff_prover]
#[verifier::rlimit(100)]
pub fn eval_expr(db: &Db, e: &Expr, cols: &Vec<ColRef>, row: &Vec<Value>, group: Option<&Vec<Vec<Value>>>, fuel: u32) -> (r: Result<Value>)
    ensures
        eval_in(*e, col_views(cols@), vals(row@), group_view(group), fuel as nat) matches Some(res) ==>
            (res matches Some(v) ==> r matches Ok(x) && x@ == v) && (res is None ==> r is Err),
        *e is InSubquery ==> (subquery_answer(*db, *e, col_views(cols@), vals(row@), group_view(group), fuel as nat) matches Some(v)
            ==> r matches Ok(x) && x@ == v),
    decreases fuel, 50int,
{
    if fuel == 0 {
        proof { reveal(subquery_answer); }
        return too_deep();
    }
    match e {
        Expr::Literal(v) => Ok(copy_value(v)),
        Expr::Column { table, name } => {
            match find_column(cols, table, name) {
                Some(i) => {
                    if i < row.len() { Ok(copy_value(&row[i])) } else { Ok(Value::Null) }
                },
                None => {
                    let mut msg = str_chars("no such column: ");
                    append_chars(&mut msg, name);
                    Err(KkdbError::from_chars(ErrorKind::Schema, &msg))
                },
            }
        },
        Expr::Binary { op, left, right } => {
            let a = eval_expr(db, left, cols, row, group, fuel - 1)?;
            let b = eval_expr(db, right, cols, row, group, fuel - 1)?;
            binary_op(*op, &a, &b)
        },
        Expr::Unary { op, expr } => {
            let a = eval_expr(db, expr, cols, row, group, fuel - 1)?;
            unary_op(*op, &a)
        },
        Expr::IsNull { expr, negated } => {
            let a = eval_expr(db, expr, cols, row, group, fuel - 1)?;
            Ok(bool_value(is_null(&a) != *negated))
        },
        Expr::Between { expr, low, high, negated } => {
            let a = eval_expr(db, expr, cols, row, group, fuel - 1)?;
            let lo = eval_expr(db, low, cols, row, group, fuel - 1)?;
            let hi = eval_expr(db, high, cols, row, group, fuel - 1)?;
            let ge = binary_op(BinaryOperator::GreaterThanOrEqual, &a, &lo)?;
            let le = binary_op(BinaryOperator::LessThanOrEqual, &a, &hi)?;
            let both = binary_op(BinaryOperator::And, &ge, &le)?;
            if *negated { unary_op(UnaryOperator::Not, &both) } else { Ok(both) }
        },
        Expr::InList { expr, list, negated } => {
            let a = eval_expr(db, expr, cols, row, group, fuel - 1)?;
            let ghost f = (fuel - 1) as nat;
            let ghost rv = vals(row@);
            let ghost gv = group_view(group);
            let ghost whole = eval_in(*e, col_views(cols@), rv, gv, fuel as nat);
            let ghost first = eval_in(**expr, col_views(cols@), rv, gv, f);
            assert(whole == (match first {
                Some(Some(av)) => match eval_list_in(list@, col_views(cols@), rv, gv, f) {
                    Some(Some(cs)) => Some(Some(membership_spec(av, cs, *negated))),
                    Some(None) => Some(None),
                    None => None,
                },
                other => other,
            }));
            let mut cands: Vec<Value> = Vec::new();
            let mut i: usize = 0;
            while i < list.len()
                invariant i <= list@.len(), fuel > 0, f == (fuel - 1) as nat, rv == vals(row@), !(*e is InSubquery),
                    eval_list_in(list@.take(i as int), col_views(cols@), rv, gv, f) matches Some(x) ==> x == Some(vals(cands@)),
                    whole == eval_in(*e, col_views(cols@), rv, gv, fuel as nat), gv == group_view(group),
                    whole == (match first {
                        Some(Some(av)) => match eval_list_in(list@, col_views(cols@), rv, gv, f) {
                            Some(Some(cs)) => Some(Some(membership_spec(av, cs, *negated))),
                            Some(None) => Some(None),
                            None => None,
                        },
                        other => other,
                    }),
                    first matches Some(Some(av)) ==> av == a@,
                decreases list.len() - i,
            {
                match eval_expr(db, &list[i], cols, row, group, fuel - 1) {
                    Ok(v) => {
                        proof {
                            let t2 = list@.take(i + 1);
                            assert(t2.drop_last() =~= list@.take(i as int));
                            assert(t2.last() == list@[i as int]);
                        }
                        cands.push(v);
                        assert(vals(cands@) =~= vals(cands@.drop_last()).push(v@));
                    },
                    Err(err) => {
                        proof {
                            if eval_list_in(list@, col_views(cols@), rv, gv, f) matches Some(Some(_)) {
                                lemma_eval_list_prefix(list@, col_views(cols@), rv, gv, f, i as int);
                            }
                        }
                        return Err(err);
                    },
                }
                i += 1;
            }
            assert(list@.take(list@.len() as int) =~= list@);
            Ok(membership(&a, &cands, *negated))
        },
        Expr::InSubquery { expr, query, negated } => {
            let res = eval_in_subquery(db, expr, query, *negated, cols, row, group, fuel);
            proof { reveal(subquery_answer); }
            res
        },
        Expr::Exists { query, negated } => {
            let out = exec_query(db, query, Some((cols, row)), fuel - 1)?;
            Ok(bool_value((out.rows.len() > 0) != *negated))
        },
        Expr::Subquery(query) => {
            let out = exec_query(db, query, Some((cols, row)), fuel - 1)?;
            if out.rows.len() > 0 && out.rows[0].len() > 0 {
                Ok(copy_value(&out.rows[0][0]))
            } else {
                Ok(Value::Null)
            }
        },
        Expr::Like { expr, pattern, negated } => {
            let a = eval_expr(db, expr, cols, row, group, fuel - 1)?;
            let p = eval_expr(db, pattern, cols, row, group, fuel - 1)?;
            if is_null(&a) || is_null(&p) {
                return Ok(Value::Null);
            }
            let s = text_of(&a);
            let ps = text_of(&p);
            Ok(bool_value(like_match(&s, &ps) != *negated))
        },
        Expr::Case { operand, whens, else_expr } => {
            let base = match operand {
                Some(o) => Some(eval_expr(db, o, cols, row, group, fuel - 1)?),
                None => None,
            };
            let mut i: usize = 0;
            while i < whens.len()
                invariant i <= whens@.len(), fuel > 0, eval_in(*e, col_views(cols@), vals(row@), group_view(group), fuel as nat) is None,
                    !(*e is InSubquery),
                decreases whens.len() - i,
            {
                let c = eval_expr(db, &whens[i].0, cols, row, group, fuel - 1)?;
                let hit = match &base {
                    Some(b) => {
                        let eq = binary_op(BinaryOperator::Equal, b, &c)?;
                        is_true(&eq)
                    },
                    None => is_true(&c),
                };
                if hit {
                    return eval_expr(db, &whens[i].1, cols, row, group, fuel - 1);
                }
                i += 1;
            }
            match else_expr {
                Some(x) => eval_expr(db, x, cols, row, group, fuel - 1),
                None => Ok(Value::Null),
            }
        },
        Expr::Cast { expr, to } => {
            let a = eval_expr(db, expr, cols, row, group, fuel - 1)?;
            cast_value(&a, *to)
        },
        Expr::Function { name, args, distinct, star } => {
            eval_function(db, name, args, *distinct, *star, cols, row, group, fuel)
        },
        Expr::Window { .. } => fail(ErrorKind::Unsupported, "window functions are only allowed in the select list"),
    }
}

/// `a IN (cands)`: true when some candidate equals `a`, NULL when none does
/// but `a` or a candidate is NULL, false otherwise.
fn membership(a: &Value, cands: &Vec<Value>, negated: bool) -> (r: Value)
    ensures r@ == membership_spec(a@, vals(cands@), negated),
{
    if is_null(a) {
        return Value::Null;
    }
    let ghost cs = vals(cands@);
    let mut saw_null = false;
    let mut i: usize = 0;
    while i < cands.len()
        invariant i <= cands@.len(), cs == vals(cands@), !(a@ is Null),
            forall|k: int| 0 <= k < i ==> cs[k] != a@,
            saw_null <==> exists|k: int| 0 <= k < i && cs[k] is Null,
        decreases cands.len() - i,
    {
        assert(cs[i as int] == cands@[i as int]@);
        if is_null(&cands[i]) {
            saw_null = true;
        } else if values_equal(a, &cands[i]) {
            assert(cs[i as int] == a@);
            return bool_value(!negated);
        }
        i += 1;
    }
    if saw_null { Value::Null } else { bool_value(negated) }
}

/// `CAST(a AS to)`.
pub fn cast_value(a: &Value, to: CastType) -> (r: Result<Value>)
    ensures
        cast_spec(a@, to) matches Some(v) ==> r matches Ok(x) && x@ == v,
        cast_spec(a@, to) is None ==> r is Err,
{
    if is_null(a) {
        return Ok(Value::Null);
    }
    match to {
        CastType::Integer => match a {
            Value::Integer(i) => Ok(Value::Integer(*i)),
            _ => {
                let s = text_of(a);
                match parse_text_int(&s) {
                    Some(v) => Ok(Value::Integer(v)),
                    None => fail(ErrorKind::Overflow, "integer overflow in CAST"),
                }
            },
        },
        CastType::Text => {
            let s = text_of(a);
            Ok(text_value(&s))
        },
        CastType::Blob => match a {
            Value::Blob(b) => Ok(Value::Blob(crate::types::copy_bytes(b))),
            _ => fail(ErrorKind::Unsupported, "CAST to BLOB is not supported"),
        },
        CastType::Real => fail(ErrorKind::Unsupported, "REAL values are not supported"),
    }
}

fn eval_args(db: &Db, args: &Vec<Expr>, cols: &Vec<ColRef>, row: &Vec<Value>, group: Option<&Vec<Vec<Value>>>, fuel: u32) -> (r: Result<Vec<Value>>)
    ensures
        r matches Ok(v) ==> v@.len() == args@.len(),
        eval_list_in(args@, col_views(cols@), vals(row@), group_view(group), fuel as nat) matches Some(res) ==>
            (res matches Some(vs) ==> r matches Ok(v) && vals(v@) == vs) && (res is None ==> r is Err),
    decreases fuel, 52int,
{
    let ghost cv = col_views(cols@);
    let ghost rv = vals(row@);
    let ghost gv = group_view(group);
    let mut out: Vec<Value> = Vec::new();
    let mut i: usize = 0;
    while i < args.len()
        invariant i <= args@.len(), out@.len() == i, cv == col_views(cols@), rv == vals(row@), gv == group_view(group),
            eval_list_in(args@.take(i as int), cv, rv, gv, fuel as nat) matches Some(x) ==> x == Some(vals(out@)),
        decreases args.len() - i,
    {
        match eval_expr(db, &args[i], cols, row, group, fuel) {
            Ok(v) => {
                proof {
                    let t2 = args@.take(i + 1);
                    assert(t2.drop_last() =~= args@.take(i as int));
                    assert(t2.last() == args@[i as int]);
                }
                out.push(v);
                assert(vals(out@) =~= vals(out@.drop_last()).push(v@));
            },
            Err(err) => {
                proof {
                    if eval_list_in(args@, cv, rv, gv, fuel as nat) matches Some(Some(_)) {
                        lemma_eval_list_prefix(args@, cv, rv, gv, fuel as nat, i as int);
                    }
                }
                return Err(err);
            },
        }
        i += 1;
    }
    assert(args@.take(args@.len() as int) =~= args@);
    Ok(out)
}

fn eval_function(db: &Db, name: &Vec<char>, args: &Vec<Expr>, distinct: bool, star: bool,
    cols: &Vec<ColRef>, row: &Vec<Value>, group: Option<&Vec<Vec<Value>>>, fuel: u32) -> (r: Result<Value>)
    requires fuel > 0,
    ensures
        eval_in((Expr::Function { name: *name, args: *args, distinct: distinct, star: star }), col_views(cols@), vals(row@),
            group_view(group), fuel as nat) matches Some(res) ==>
            (res matches Some(v) ==> r matches Ok(x) && x@ == v) && (res is None ==> r is Err),
    decreases fuel, 40int,
{
    if is_aggregate_name(name, args.len()) {
        return match group {
            Some(rows) => eval_aggregate(db, name, args, distinct, star, cols, rows, fuel),
            None => fail(ErrorKind::Type, "misuse of aggregate function"),
        };
    }
    let argv = eval_args(db, args, cols, row, group, fuel - 1)?;
    scalar_function(db, name, &argv)
}

fn arg_text(a: &Vec<Value>, i: usize) -> (r: Vec<char>)
    ensures r@ == arg_text_spec(vals(a@), i as int),
{
    if i < a.len() { text_of(&a[i]) } else { Vec::new() }
}

fn arg_int(a: &Vec<Value>, i: usize, default: i64) -> (r: i64)
    ensures r == arg_int_spec(vals(a@), i as int, default as int),
{
    if i < a.len() {
        match &a[i] {
            Value::Integer(v) => *v,
            _ => default,
        }
    } else {
        default
    }
}

fn any_null(a: &Vec<Value>) -> (r: bool)
    ensures r == has_null(vals(a@)),
{
    let ghost av = vals(a@);
    let mut i: usize = 0;
    while i < a.len()
        invariant i <= a@.len(), av == vals(a@), forall|k: int| 0 <= k < i ==> !(av[k] is Null),
        decreases a.len() - i,
    {
        if is_null(&a[i]) {
            assert(av[i as int] is Null);
            return true;
        }
        i += 1;
    }
    false
}

/// Each character, with a backslash before each double quote and backslash.
pub open spec fn json_escaped(s: Seq<char>) -> Seq<char>
    decreases s.len(),
{
    if s.len() == 0 {
        Seq::empty()
    } else {
        let c = s.last();
        json_escaped(s.drop_last()) + (if c == '"' || c == '\\' { seq!['\\', c] } else { seq![c] })
    }
}

/// The text as a JSON string: escaped, between double quotes.
pub open spec fn json_quoted(s: Seq<char>) -> Seq<char> {
    seq!['"'] + json_escaped(s) + seq!['"']
}

/// The characters of `s` with each backslash dropped and the character after
/// it kept as it is; a backslash at the end stays.
pub open spec fn json_unescaped(s: Seq<char>) -> Seq<char>
    decreases s.len(),
{
    if s.len() == 0 {
        Seq::empty()
    } else if s[0] == '\\' && s.len() >= 2 {
        seq![s[1]] + json_unescaped(s.subrange(2, s.len() as int))
    } else {
        seq![s[0]] + json_unescaped(s.subrange(1, s.len() as int))
    }
}

/// A text between double quotes, unescaped; any other text as it is.
pub open spec fn json_unquoted(s: Seq<char>) -> Seq<char> {
    if s.len() < 2 || s[0] != '"' || s.last() != '"' {
        s
    } else {
        json_unescaped(s.subrange(1, s.len() - 1))
    }
}

fn json_quote(s: &Vec<char>) -> (r: Vec<char>)
    ensures r@ == json_quoted(s@),
{
    let mut out: Vec<char> = Vec::new();
    out.push('"');
    let mut i: usize = 0;
    while i < s.len()
        invariant i <= s@.len(), out@ == seq!['"'] + json_escaped(s@.take(i as int)),
        decreases s.len() - i,
    {
        let c = s[i];
        proof {
            assert(s@.take(i + 1).drop_last() =~= s@.take(i as int));
            assert(s@.take(i + 1).last() == c);
        }
        if c == '"' || c == '\\' {
            out.push('\\');
        }
        out.push(c);
        i += 1;
        proof {
            assert(out@ =~= seq!['"'] + json_escaped(s@.take(i as int)));
        }
    }
    out.push('"');
    assert(s@.take(s@.len() as int) =~= s@);
    out
}

fn json_unquote(s: &Vec<char>) -> (r: Vec<char>)
    ensures r@ == json_unquoted(s@),
{
    let n = s.len();
    if n < 2 || s[0] != '"' || s[n - 1] != '"' {
        return crate::types::copy_chars(s);
    }
    let ghost inner = s@.subrange(1, n - 1);
    let mut out: Vec<char> = Vec::new();
    let mut i: usize = 1;
    while i < n - 1
        invariant 1 <= i <= n - 1, n == s@.len(), n >= 2, inner == s@.subrange(1, n - 1),
            out@ + json_unescaped(s@.subrange(i as int, n - 1)) == json_unescaped(inner),
        decreases n - i,
    {
        let c = s[i];
        let ghost rest = s@.subrange(i as int, n - 1);
        if c == '\\' && i + 1 < n - 1 {
            proof {
                assert(rest.subrange(2, rest.len() as int) =~= s@.subrange(i + 2, n - 1));
                assert(out@.push(s@[i + 1]) + json_unescaped(s@.subrange(i + 2, n - 1))
                    =~= out@ + (seq![rest[1]] + json_unescaped(rest.subrange(2, rest.len() as int))));
            }
            out.push(s[i + 1]);
            i += 2;
        } else {
            proof {
                assert(rest.subrange(1, rest.len() as int) =~= s@.subrange(i + 1, n - 1));
                assert(out@.push(c) + json_unescaped(s@.subrange(i + 1, n - 1))
                    =~= out@ + (seq![rest[0]] + json_unescaped(rest.subrange(1, rest.len() as int))));
            }
            out.push(c);
            i += 1;
        }
    }
    assert(json_unescaped(s@.subrange(i as int, n - 1)) =~= Seq::<char>::empty());
    assert(out@ =~= out@ + Seq::<char>::empty());
    out
}

/// Scalar functions over already evaluated arguments.
fn scalar_function(db: &Db, name: &Vec<char>, a: &Vec<Value>) -> (r: Result<Value>)
    ensures
        scalar_spec(lower_seq(name@), vals(a@)) matches Some(res) ==>
            (res matches Some(v) ==> r matches Ok(x) && x@ == v) && (res is None ==> r is Err),
{
    let n = a.len();
    let ghost av = vals(a@);
    if eq_word(name, "coalesce") || eq_word(name, "ifnull") {
        let mut i: usize = 0;
        while i < n
            invariant i <= n, n == a@.len(), av == vals(a@), first_non_null(av, 0) == first_non_null(av, i as int),
                scalar_spec(lower_seq(name@), av) == Some(Some(first_non_null(av, 0))),
            decreases n - i,
        {
            assert(av[i as int] == a@[i as int]@);
            if !is_null(&a[i]) {
                assert(first_non_null(av, i as int) == av[i as int]);
                return Ok(copy_value(&a[i]));
            }
            i += 1;
        }
        return Ok(Value::Null);
    }
    if eq_word(name, "nullif") {
        if n != 2 {
            return fail(ErrorKind::Type, "NULLIF takes two arguments");
        }
        assert(av[0] == a@[0]@ && av[1] == a@[1]@);
        if !is_null(&a[0]) && !is_null(&a[1]) && values_equal(&a[0], &a[1]) {
            return Ok(Value::Null);
        }
        return Ok(copy_value(&a[0]));
    }
    if eq_word(name, "iif") {
        if n != 3 {
            return fail(ErrorKind::Type, "IIF takes three arguments");
        }
        assert(av[0] == a@[0]@ && av[1] == a@[1]@ && av[2] == a@[2]@);
        return Ok(if is_true(&a[0]) { copy_value(&a[1]) } else { copy_value(&a[2]) });
    }
    if eq_word(name, "current_setting") {
        let key = arg_text(a, 0);
        return Ok(match db.setting(&key) { Some(v) => v, None => Value::Null });
    }
    if eq_word(name, "auth_uid") {
        let key = str_chars("request.jwt.sub");
        return Ok(match db.setting(&key) { Some(v) => v, None => Value::Null });
    }
    if eq_word(name, "random") {
        let v = (db.seed >> 1u64) as i64;
        return Ok(Value::Integer(v));
    }
    if eq_word(name, "typeof") {
        if n != 1 {
            return fail(ErrorKind::Type, "TYPEOF takes one argument");
        }
        assert(av[0] == a@[0]@);
        let t = match &a[0] {
            Value::Null => "null",
            Value::Integer(_) => "integer",
            Value::Text(_) => "text",
            Value::Blob(_) => "blob",
        };
        return Ok(text_value(&str_chars(t)));
    }
    if (eq_word(name, "min") || eq_word(name, "max")) && n >= 2 {
        let want_max = eq_word(name, "max");
        let mut best = copy_value(&a[0]);
        let mut i: usize = 1;
        assert(av.take(1)[0] == av[0]);
        while i < n
            invariant 1 <= i <= n, n == a@.len(), av == vals(a@),
                best@ == extreme_of(av.take(i as int), want_max),
                forall|k: int| 1 <= k < i ==> !(av[k] is Null),
                scalar_spec(lower_seq(name@), av)
                    == Some(Some(if has_null(av) { ValueV::Null } else { extreme_of(av, want_max) })),
            decreases n - i,
        {
            assert(av[i as int] == a@[i as int]@);
            if is_null(&a[i]) {
                assert(av[i as int] is Null);
                return Ok(Value::Null);
            }
            proof {
                let t2 = av.take(i + 1);
                assert(t2.drop_last() =~= av.take(i as int));
                assert(t2.last() == av[i as int]);
            }
            let o = compare_values(&a[i], &best);
            if (want_max && o == Order::Greater) || (!want_max && o == Order::Less) {
                best = copy_value(&a[i]);
            }
            i += 1;
        }
        assert(av.take(n as int) =~= av);
        assert(av[0] == a@[0]@);
        if is_null(&a[0]) {
            return Ok(Value::Null);
        }
        assert(!has_null(av)) by {
            if has_null(av) {
                let k = choose|k: int| 0 <= k < av.len() && av[k] is Null;
                assert(k == 0 || 1 <= k < n);
            }
        }
        return Ok(best);
    }
    if any_null(a) {
        return Ok(Value::Null);
    }
    if eq_word(name, "upper") || eq_word(name, "ucase") {
        return Ok(text_value(&to_upper(&arg_text(a, 0))));
    }
    if eq_word(name, "lower") || eq_word(name, "lcase") {
        return Ok(text_value(&to_lower(&arg_text(a, 0))));
    }
    if eq_word(name, "length") || eq_word(name, "char_length") {
        if n != 1 {
            return fail(ErrorKind::Type, "LENGTH takes one argument");
        }
        assert(av[0] == a@[0]@);
        let len = match &a[0] {
            Value::Blob(b) => b.len(),
            _ => arg_text(a, 0).len(),
        };
        return Ok(Value::Integer(small(len)));
    }
    if eq_word(name, "substr") || eq_word(name, "substring") {
        let s = arg_text(a, 0);
        let start = arg_int(a, 1, 1);
        let len = if n >= 3 { arg_int(a, 2, 0) } else { 0x7fff_ffff_ffff_ffffi64 };
        return Ok(text_value(&substr(&s, start, len)));
    }
    if eq_word(name, "replace") {
        if n != 3 {
            return fail(ErrorKind::Type, "REPLACE takes three arguments");
        }
        return Ok(text_value(&replace_all(&arg_text(a, 0), &arg_text(a, 1), &arg_text(a, 2))));
    }
    if eq_word(name, "trim") {
        return Ok(text_value(&trim(&arg_text(a, 0))));
    }
    if eq_word(name, "abs") {
        if n != 1 {
            return fail(ErrorKind::Type, "ABS takes one argument");
        }
        assert(av[0] == a@[0]@);
        return match &a[0] {
            Value::Integer(v) => {
                if *v == i64::MIN {
                    fail(ErrorKind::Overflow, "integer overflow in ABS")
                } else if *v < 0 {
                    Ok(Value::Integer(-*v))
                } else {
                    Ok(Value::Integer(*v))
                }
            },
            _ => Ok(Value::Null),
        };
    }
    if eq_word(name, "json_quote") {
        return Ok(text_value(&json_quote(&arg_text(a, 0))));
    }
    if eq_word(name, "json_unquote") {
        return Ok(text_value(&json_unquote(&arg_text(a, 0))));
    }
    if eq_word(name, "instr") {
        let s = arg_text(a, 0);
        let f = arg_text(a, 1);
        let mut i: usize = 0;
        while i < s.len()
            invariant i <= s@.len(), scalar_spec(lower_seq(name@), vals(a@)) is None,
            decreases s.len() - i,
        {
            let si = small(i);
            let p1: i64 = if si < i64::MAX { si + 1 } else { si };
            let part = substr(&s, p1, small(f.len()));
            if crate::text::chars_eq(&part, &f) {
                return Ok(Value::Integer(p1));
            }
            i += 1;
        }
        return Ok(Value::Integer(0));
    }
    let mut msg = str_chars("no such function: ");
    append_chars(&mut msg, name);
    Err(KkdbError::from_chars(ErrorKind::Unsupported, &msg))
}

/// The values with later repeats left out.
pub open spec fn distinct_values(s: Seq<ValueV>) -> Seq<ValueV>
    decreases s.len(),
{
    if s.len() == 0 {
        Seq::empty()
    } else {
        let prev = distinct_values(s.drop_last());
        if prev.contains(s.last()) { prev } else { prev.push(s.last()) }
    }
}

fn dedupe(vs: Vec<Value>) -> (r: Vec<Value>)
    ensures vals(r@) == distinct_values(vals(vs@)),
{
    let mut out: Vec<Value> = Vec::new();
    let mut i: usize = 0;
    while i < vs.len()
        invariant i <= vs@.len(), vals(out@) == distinct_values(vals(vs@.take(i as int))),
        decreases vs.len() - i,
    {
        proof {
            assert(vals(vs@.take(i + 1)).drop_last() =~= vals(vs@.take(i as int)));
            assert(vals(vs@.take(i + 1)).last() == vs@[i as int]@);
        }
        let mut seen = false;
        let mut k: usize = 0;
        while k < out.len()
            invariant k <= out@.len(), i < vs@.len(),
                seen == exists|m: int| 0 <= m < k && #[trigger] out@[m]@ == vs@[i as int]@,
            decreases out.len() - k,
        {
            if values_equal(&out[k], &vs[i]) {
                seen = true;
            }
            k += 1;
        }
        proof {
            let pv = vals(out@);
            if seen {
                let m = choose|m: int| 0 <= m < out@.len() && #[trigger] out@[m]@ == vs@[i as int]@;
                assert(pv[m] == vs@[i as int]@);
            } else if pv.contains(vs@[i as int]@) {
                let m = choose|m: int| 0 <= m < pv.len() && pv[m] == vs@[i as int]@;
                assert(out@[m]@ == vs@[i as int]@);
            }
        }
        if !seen {
            let ghost prev = out@;
            out.push(copy_value(&vs[i]));
            assert(vals(out@) =~= vals(prev).push(vs@[i as int]@));
        }
        i += 1;
    }
    assert(vs@.take(vs@.len() as int) =~= vs@);
    out
}

/// The sum of the integers among the values, added in order; `None` when a
/// running total leaves the 64-bit range.
pub open spec fn int_sum(s: Seq<ValueV>) -> Option<int>
    decreases s.len(),
{
    if s.len() == 0 {
        Some(0)
    } else {
        match int_sum(s.drop_last()) {
            Some(t) => match s.last() {
                ValueV::Int(x) => if i64::MIN <= t + x <= i64::MAX { Some(t + x) } else { None },
                _ => Some(t),
            },
            None => None,
        }
    }
}

/// How many of the values are integers.
pub open spec fn int_count(s: Seq<ValueV>) -> nat
    decreases s.len(),
{
    if s.len() == 0 {
        0
    } else {
        int_count(s.drop_last()) + if s.last() is Int { 1nat } else { 0nat }
    }
}

/// Whether `v` is one of the values and none comes before it.
pub open spec fn is_least(s: Seq<ValueV>, v: ValueV) -> bool {
    s.contains(v) && forall|k: int| 0 <= k < s.len() ==> value_order(v, #[trigger] s[k]) != Order::Greater
}

/// Whether `v` is one of the values and none comes after it.
pub open spec fn is_greatest(s: Seq<ValueV>, v: ValueV) -> bool {
    s.contains(v) && forall|k: int| 0 <= k < s.len() ==> value_order(v, #[trigger] s[k]) != Order::Less
}

/// The texts of the values joined by a separator.
pub open spec fn joined(s: Seq<ValueV>, sep: Seq<char>) -> Seq<char>
    decreases s.len(),
{
    if s.len() == 0 {
        Seq::empty()
    } else if s.len() == 1 {
        value_text(s[0])
    } else {
        joined(s.drop_last(), sep) + sep + value_text(s.last())
    }
}

/// The value of an aggregate over the non-NULL argument values `vs` (after
/// DISTINCT), or `None` for an overflow: COUNT counts them; SUM and TOTAL add
/// the integers (SUM of none is NULL, TOTAL of none is 0); AVG divides the sum
/// by their number, rounding toward zero; MIN and MAX pick the least and
/// greatest (NULL for none); any other name joins their texts with `sep`.
pub open spec fn aggregate_value(name: Seq<char>, vs: Seq<ValueV>, sep: Seq<char>) -> Option<ValueV> {
    if name == "count"@ {
        Some(ValueV::Int(vs.len() as int))
    } else if name == "sum"@ || name == "total"@ || name == "avg"@ {
        match int_sum(vs) {
            Some(t) => Some(
                if name == "total"@ { ValueV::Int(t) }
                else if int_count(vs) == 0 { ValueV::Null }
                else if name == "avg"@ { ValueV::Int(trunc_div(t, int_count(vs) as int)) }
                else { ValueV::Int(t) }),
            None => None,
        }
    } else if name == "min"@ || name == "max"@ {
        if vs.len() == 0 {
            Some(ValueV::Null)
        } else if name == "max"@ {
            Some(choose|v: ValueV| is_greatest(vs, v))
        } else {
            Some(choose|v: ValueV| is_least(vs, v))
        }
    } else if vs.len() == 0 {
        Some(ValueV::Null)
    } else {
        Some(ValueV::Text(joined(vs, sep)))
    }
}

/// The least (or greatest) of some values is unique.
proof fn lemma_extreme_unique(s: Seq<ValueV>, v: ValueV, w: ValueV, greatest: bool)
    requires if greatest { is_greatest(s, v) && is_greatest(s, w) } else { is_least(s, v) && is_least(s, w) },
    ensures v == w,
{
    let i = choose|i: int| 0 <= i < s.len() && s[i] == w;
    let j = choose|j: int| 0 <= j < s.len() && s[j] == v;
    assert(s[i] == w && s[j] == v);
    lemma_value_order_antisym(v, w);
    lemma_value_order_equal(v, w);
}

fn eval_aggregate(db: &Db, name: &Vec<char>, args: &Vec<Expr>, distinct: bool, star: bool,
    cols: &Vec<ColRef>, rows: &Vec<Vec<Value>>, fuel: u32) -> (r: Result<Value>)
    requires fuel > 0,
    ensures
        (star || args@.len() == 0) ==> (lower_seq(name@) == "count"@ <==> r is Ok),
        (star || args@.len() == 0) && rows@.len() <= i64::MAX ==> (r is Ok ==> (r matches Ok(x) && x@ == ValueV::Int(rows@.len() as int))),
        !star && args@.len() > 0 ==> (arg_values(args@[0], col_views(cols@), rows_view(rows@), (fuel - 1) as nat) matches Some(all) ==> ({
            let vs = if distinct { distinct_values(all) } else { all };
            let sep = if args@.len() >= 2 {
                if rows@.len() > 0 {
                    match core_eval(args@[1], col_views(cols@), vals(rows@[0]@), (fuel - 1) as nat) {
                        Some(Some(sv)) => Some(value_text(sv)),
                        _ => None,
                    }
                } else {
                    Some(Seq::empty())
                }
            } else {
                Some(","@)
            };
            sep is Some && vs.len() <= i64::MAX ==> (match aggregate_value(lower_seq(name@), vs, sep.unwrap()) {
                Some(v) => r matches Ok(x) && x@ == v,
                None => r is Err,
            })
        })),
    decreases fuel, 30int,
{
    let ghost lname = lower_seq(name@);
    let ghost colv = col_views(cols@);
    let ghost f = (fuel - 1) as nat;
    if star || args.len() == 0 {
        if eq_word(name, "count") {
            return Ok(Value::Integer(small(rows.len())));
        }
        return fail(ErrorKind::Type, "aggregate function needs an argument");
    }
    let ghost all_opt = arg_values(args@[0], colv, rows_view(rows@), f);
    let mut vals: Vec<Value> = Vec::new();
    let mut i: usize = 0;
    while i < rows.len()
        invariant i <= rows@.len(), fuel > 0, args@.len() > 0, colv == col_views(cols@), f == (fuel - 1) as nat, !star,
            all_opt == arg_values(args@[0], colv, rows_view(rows@), f),
            all_opt is Some ==> arg_values(args@[0], colv, rows_view(rows@.take(i as int)), f) == Some(crate::storage::table::vals(vals@)),
        decreases rows.len() - i,
    {
        proof {
            assert(rows_view(rows@.take(i + 1)).drop_last() =~= rows_view(rows@.take(i as int)));
            assert(rows_view(rows@.take(i + 1)).last() == crate::storage::table::vals(rows@[i as int]@));
            if all_opt is Some {
                lemma_arg_values_prefix(args@[0], colv, rows_view(rows@), f, i + 1);
                assert(rows_view(rows@).take(i + 1) =~= rows_view(rows@.take(i + 1)));
            }
        }
        let v = eval_expr(db, &args[0], cols, &rows[i], None, fuel - 1)?;
        if !is_null(&v) {
            let ghost prev = vals@;
            vals.push(v);
            assert(crate::storage::table::vals(vals@) =~= crate::storage::table::vals(prev).push(v@));
        }
        i += 1;
    }
    proof { assert(rows@.take(rows@.len() as int) =~= rows@); }
    if distinct {
        vals = dedupe(vals);
    }
    let ghost vs = crate::storage::table::vals(vals@);
    assert(all_opt is Some ==> vs == (if distinct { distinct_values(all_opt.unwrap()) } else { all_opt.unwrap() }));
    let n = vals.len();
    if eq_word(name, "count") {
        return Ok(Value::Integer(small(n)));
    }
    if eq_word(name, "sum") || eq_word(name, "total") || eq_word(name, "avg") {
        let mut total: i64 = 0;
        let mut count: usize = 0;
        let mut k: usize = 0;
        while k < n
            invariant k <= n, n == vals@.len(), count <= k, vs == crate::storage::table::vals(vals@),
                int_sum(vs.take(k as int)) == Some(total as int), int_count(vs.take(k as int)) == count,
                !star, args@.len() > 0, all_opt == arg_values(args@[0], col_views(cols@), rows_view(rows@), (fuel - 1) as nat),
                all_opt is Some ==> vs == (if distinct { distinct_values(all_opt.unwrap()) } else { all_opt.unwrap() }),
                lower_seq(name@) == "sum"@ || lower_seq(name@) == "total"@ || lower_seq(name@) == "avg"@,
                lower_seq(name@) != "count"@,
            decreases n - k,
        {
            proof {
                assert(vs.take(k + 1).drop_last() =~= vs.take(k as int));
                assert(vs.take(k + 1).last() == vals@[k as int]@);
            }
            match &vals[k] {
                Value::Integer(x) => {
                    match total.checked_add(*x) {
                        Some(t) => { total = t; },
                        None => {
                            proof { lemma_int_sum_none(vs, k as int + 1); assert(vs.take(n as int) =~= vs); }
                            return fail(ErrorKind::Overflow, "integer overflow in SUM");
                        },
                    }
                    count = count + 1;
                },
                _ => {},
            }
            k += 1;
        }
        proof { assert(vs.take(n as int) =~= vs); }
        if eq_word(name, "total") {
            return Ok(Value::Integer(total));
        }
        if count == 0 {
            return Ok(Value::Null);
        }
        if eq_word(name, "avg") {
            return match total.checked_div(small(count)) {
                Some(q) => Ok(Value::Integer(q)),
                None => fail(ErrorKind::Overflow, "integer overflow in AVG"),
            };
        }
        return Ok(Value::Integer(total));
    }
    if eq_word(name, "min") || eq_word(name, "max") {
        if n == 0 {
            return Ok(Value::Null);
        }
        let want_max = eq_word(name, "max");
        let mut best: usize = 0;
        let mut k: usize = 1;
        proof { lemma_value_order_equal(vs[0], vs[0]); }
        while k < n
            invariant 1 <= k <= n, n == vals@.len(), best < n, vs == crate::storage::table::vals(vals@),
                want_max ==> forall|m: int| 0 <= m < k ==> value_order(vs[best as int], #[trigger] vs[m]) != Order::Less,
                !want_max ==> forall|m: int| 0 <= m < k ==> value_order(vs[best as int], #[trigger] vs[m]) != Order::Greater,
            decreases n - k,
        {
            let o = compare_values(&vals[k], &vals[best]);
            proof {
                lemma_value_order_antisym(vs[k as int], vs[best as int]);
                lemma_value_order_equal(vs[best as int], vs[best as int]);
            }
            if (want_max && o == Order::Greater) || (!want_max && o == Order::Less) {
                proof {
                    assert forall|m: int| 0 <= m < k + 1 implies (if want_max { value_order(vs[k as int], #[trigger] vs[m]) != Order::Less }
                        else { value_order(vs[k as int], vs[m]) != Order::Greater }) by {
                        lemma_value_order_equal(vs[k as int], vs[m]);
                        lemma_value_order_equal(vs[best as int], vs[m]);
                        lemma_value_order_antisym(vs[k as int], vs[m]);
                        lemma_value_order_antisym(vs[best as int], vs[m]);
                        if m < k {
                            if want_max {
                                if value_order(vs[best as int], vs[m]) == Order::Greater {
                                    lemma_value_order_less_trans(vs[m], vs[best as int], vs[k as int]);
                                }
                            } else {
                                if value_order(vs[best as int], vs[m]) == Order::Less {
                                    lemma_value_order_less_trans(vs[k as int], vs[best as int], vs[m]);
                                }
                            }
                        }
                    }
                }
                best = k;
            } else {
                proof {
                    lemma_value_order_equal(vs[best as int], vs[k as int]);
                    lemma_value_order_antisym(vs[best as int], vs[k as int]);
                }
            }
            k += 1;
        }
        let res = copy_value(&vals[best]);
        proof {
            let lname2 = lower_seq(name@);
            assert(vs.contains(vs[best as int]));
            if want_max {
                assert(is_greatest(vs, vs[best as int]));
                let c = choose|v: ValueV| is_greatest(vs, v);
                lemma_extreme_unique(vs, vs[best as int], c, true);
            } else {
                assert(is_least(vs, vs[best as int]));
                let c = choose|v: ValueV| is_least(vs, v);
                lemma_extreme_unique(vs, vs[best as int], c, false);
            }
        }
        return Ok(res);
    }
    // group_concat / string_agg
    let sep: Vec<char> = if args.len() >= 2 {
        if rows.len() > 0 {
            let s = eval_expr(db, &args[1], cols, &rows[0], None, fuel - 1)?;
            text_of(&s)
        } else {
            Vec::new()
        }
    } else {
        str_chars(",")
    };
    if n == 0 {
        return Ok(Value::Null);
    }
    let mut out: Vec<char> = Vec::new();
    let mut k: usize = 0;
    while k < n
        invariant k <= n, n == vals@.len(), vs == crate::storage::table::vals(vals@), out@ == joined(vs.take(k as int), sep@),
        decreases n - k,
    {
        proof {
            assert(vs.take(k + 1).drop_last() =~= vs.take(k as int));
            assert(vs.take(k + 1).last() == vals@[k as int]@);
        }
        if k > 0 {
            append_chars(&mut out, &sep);
        }
        let t = text_of(&vals[k]);
        append_chars(&mut out, &t);
        proof {
            if k == 0 {
                assert(vs.take(1) =~= seq![vals@[0]@]);
                assert(out@ =~= joined(vs.take(1), sep@));
            }
        }
        k += 1;
    }
    proof { assert(vs.take(n as int) =~= vs); }
    Ok(text_value(&out))
}

/// An expression with values on all rows has values on each prefix of them.
proof fn lemma_arg_values_prefix(e: Expr, colv: Seq<ColView>, rows: Seq<Seq<ValueV>>, fuel: nat, n: int)
    requires 0 <= n <= rows.len(), arg_values(e, colv, rows, fuel) is Some,
    ensures arg_values(e, colv, rows.take(n), fuel) is Some,
        n > 0 ==> core_eval(e, colv, rows[n - 1], fuel) matches Some(Some(_)),
    decreases rows.len(),
{
    if n < rows.len() {
        lemma_arg_values_prefix(e, colv, rows.drop_last(), fuel, n);
        assert(rows.drop_last().take(n) =~= rows.take(n));
        if n > 0 {
            assert(rows.drop_last()[n - 1] == rows[n - 1]);
        }
    } else {
        assert(rows.take(n) =~= rows);
    }
}

/// Once a running total overflows, the sum has no value.
proof fn lemma_int_sum_none(s: Seq<ValueV>, k: int)
    requires 0 <= k <= s.len(), int_sum(s.take(k)) is None,
    ensures int_sum(s) is None,
    decreases s.len() - k,
{
    if k < s.len() {
        assert(s.take(k + 1).drop_last() =~= s.take(k));
        lemma_int_sum_none(s, k + 1);
    } else {
        assert(s.take(k) =~= s);
    }
}

// ───────────────────────────── ordering ─────────────────────────────

/// How one sort key compares under an ORDER BY item: NULLs come first when
/// the item says so (by default in ascending order), and DESC reverses the
/// order of other values.
pub open spec fn item_order(x: ValueV, y: ValueV, it: OrderItem) -> Order {
    let nulls_first = match it.nulls_first { Some(f) => f, None => !it.desc };
    if x is Null && y is Null {
        Order::Equal
    } else if x is Null {
        if nulls_first { Order::Less } else { Order::Greater }
    } else if y is Null {
        if nulls_first { Order::Greater } else { Order::Less }
    } else if it.desc {
        value_order(x, y).reverse()
    } else {
        value_order(x, y)
    }
}

/// How two rows of sort keys compare from key `i` on: the first key that
/// differs decides.
pub open spec fn keys_order(a: Seq<ValueV>, b: Seq<ValueV>, order: Seq<OrderItem>, i: int) -> Order
    decreases order.len() - i,
{
    if i < 0 || i >= a.len() || i >= b.len() || i >= order.len() {
        Order::Equal
    } else if item_order(a[i], b[i], order[i]) != Order::Equal {
        item_order(a[i], b[i], order[i])
    } else {
        keys_order(a, b, order, i + 1)
    }
}

proof fn lemma_item_order(x: ValueV, y: ValueV, z: ValueV, it: OrderItem)
    ensures
        item_order(x, y, it) == item_order(y, x, it).reverse(),
        item_order(x, y, it) == Order::Equal <==> x == y,
        item_order(x, y, it) == Order::Less && item_order(y, z, it) == Order::Less ==> item_order(x, z, it) == Order::Less,
{
    lemma_value_order_antisym(x, y);
    lemma_value_order_equal(x, y);
    if !(x is Null) && !(y is Null) && !(z is Null) {
        if item_order(x, y, it) == Order::Less && item_order(y, z, it) == Order::Less {
            if it.desc {
                lemma_value_order_antisym(y, z);
                lemma_value_order_antisym(x, z);
                lemma_value_order_less_trans(z, y, x);
            } else {
                lemma_value_order_less_trans(x, y, z);
            }
        }
    }
}

/// Swapping two rows of keys reverses how they compare.
pub proof fn lemma_keys_order_antisym(a: Seq<ValueV>, b: Seq<ValueV>, order: Seq<OrderItem>, i: int)
    ensures keys_order(a, b, order, i) == keys_order(b, a, order, i).reverse(),
    decreases order.len() - i,
{
    if !(i < 0 || i >= a.len() || i >= b.len() || i >= order.len()) {
        lemma_item_order(a[i], b[i], a[i], order[i]);
        lemma_keys_order_antisym(a, b, order, i + 1);
    }
}

/// For rows of keys of one length, "not after" is transitive.
pub proof fn lemma_keys_order_trans(a: Seq<ValueV>, b: Seq<ValueV>, c: Seq<ValueV>, order: Seq<OrderItem>, i: int)
    requires
        0 <= i,
        a.len() == order.len(), b.len() == order.len(), c.len() == order.len(),
        keys_order(a, b, order, i) != Order::Greater, keys_order(b, c, order, i) != Order::Greater,
    ensures
        keys_order(a, c, order, i) != Order::Greater,
        keys_order(a, b, order, i) == Order::Less || keys_order(b, c, order, i) == Order::Less ==> keys_order(a, c, order, i) == Order::Less,
    decreases order.len() - i,
{
    if i < order.len() {
        lemma_item_order(a[i], b[i], c[i], order[i]);
        lemma_item_order(b[i], c[i], a[i], order[i]);
        lemma_item_order(a[i], c[i], b[i], order[i]);
        if item_order(a[i], b[i], order[i]) == Order::Equal && item_order(b[i], c[i], order[i]) == Order::Equal {
            lemma_keys_order_trans(a, b, c, order, i + 1);
        }
    }
}

/// Keys that compare Equal over the whole ORDER BY are the same keys.
proof fn lemma_keys_equal(a: Seq<ValueV>, b: Seq<ValueV>, order: Seq<OrderItem>, i: int)
    requires 0 <= i, a.len() == order.len(), b.len() == order.len(), keys_order(a, b, order, i) == Order::Equal,
    ensures forall|k: int| i <= k < order.len() ==> a[k] == b[k],
    decreases order.len() - i,
{
    if i < order.len() {
        lemma_item_order(a[i], b[i], a[i], order[i]);
        lemma_keys_equal(a, b, order, i + 1);
    }
}

/// Where the run of rows that ends at `pos`, each comparing Equal to the one
/// before it, starts: the position of the first peer of row `pos`.
pub open spec fn peer_start(ks: Seq<Seq<ValueV>>, order: Seq<OrderItem>, pos: int) -> int
    decreases pos,
{
    if pos <= 0 {
        0
    } else if keys_order(ks[pos - 1], ks[pos], order, 0) == Order::Equal {
        peer_start(ks, order, pos - 1)
    } else {
        pos
    }
}

/// The run that ends at `pos` holds rows with the same keys.
proof fn lemma_peer_run(ks: Seq<Seq<ValueV>>, order: Seq<OrderItem>, pos: int)
    requires 0 <= pos < ks.len(), forall|q: int| 0 <= q < ks.len() ==> #[trigger] ks[q].len() == order.len(),
    ensures 0 <= peer_start(ks, order, pos) <= pos,
        forall|q: int| peer_start(ks, order, pos) <= q <= pos ==> #[trigger] ks[q] == ks[pos],
        peer_start(ks, order, pos) > 0 ==> keys_order(ks[peer_start(ks, order, pos) - 1], ks[peer_start(ks, order, pos)], order, 0) != Order::Equal,
    decreases pos,
{
    if pos > 0 && keys_order(ks[pos - 1], ks[pos], order, 0) == Order::Equal {
        lemma_peer_run(ks, order, pos - 1);
        lemma_keys_equal(ks[pos - 1], ks[pos], order, 0);
        assert(ks[pos - 1] =~= ks[pos]);
    }
}

/// In rows sorted by their keys, the rows before the first peer of row `pos`
/// are exactly the rows whose keys compare Less than its keys; so the rank
/// one more than that position counts the rows ordered strictly before it,
/// and ties share it, leaving a gap after them.
pub proof fn law_rank_counts_rows_before(ks: Seq<Seq<ValueV>>, order: Seq<OrderItem>, pos: int)
    requires 0 <= pos < ks.len(), forall|q: int| 0 <= q < ks.len() ==> #[trigger] ks[q].len() == order.len(),
        forall|j: int, k: int| 0 <= j < k < ks.len() ==> keys_order(#[trigger] ks[j], #[trigger] ks[k], order, 0) != Order::Greater,
    ensures
        Set::new(|q: int| 0 <= q < ks.len() && keys_order(ks[q], ks[pos], order, 0) == Order::Less)
            == vstd::set_lib::set_int_range(0, peer_start(ks, order, pos)),
        vstd::set_lib::set_int_range(0, peer_start(ks, order, pos)).len() == peer_start(ks, order, pos),
{
    let s0 = peer_start(ks, order, pos);
    lemma_peer_run(ks, order, pos);
    vstd::set_lib::lemma_int_range(0, s0);
    assert forall|q: int| 0 <= q < ks.len() implies (keys_order(ks[q], ks[pos], order, 0) == Order::Less <==> 0 <= q < s0) by {
        if q < s0 {
            assert(ks[s0] == ks[pos]);
            assert(keys_order(ks[s0 - 1], ks[s0], order, 0) != Order::Greater);
            if q < s0 - 1 {
                assert(keys_order(ks[q], ks[s0 - 1], order, 0) != Order::Greater);
                lemma_keys_order_trans(ks[q], ks[s0 - 1], ks[s0], order, 0);
            }
        } else if q <= pos {
            assert(ks[q] == ks[pos]);
            lemma_item_order_refl_keys(ks[pos], order, 0);
        } else {
            assert(keys_order(ks[pos], ks[q], order, 0) != Order::Greater);
            lemma_keys_order_antisym(ks[q], ks[pos], order, 0);
        }
    }
    assert(Set::new(|q: int| 0 <= q < ks.len() && keys_order(ks[q], ks[pos], order, 0) == Order::Less)
        =~= vstd::set_lib::set_int_range(0, s0));
}

/// Keys compare Equal to themselves.
proof fn lemma_item_order_refl_keys(a: Seq<ValueV>, order: Seq<OrderItem>, i: int)
    ensures keys_order(a, a, order, i) == Order::Equal,
    decreases order.len() - i,
{
    if !(i < 0 || i >= a.len() || i >= order.len()) {
        lemma_item_order(a[i], a[i], a[i], order[i]);
        lemma_item_order_refl_keys(a, order, i + 1);
    }
}

/// Compares two rows of sort keys under the directions of the ORDER BY items.
pub fn compare_keys(a: &Vec<Value>, b: &Vec<Value>, order: &Vec<OrderItem>) -> (r: Order)
    ensures r == keys_order(vals(a@), vals(b@), order@, 0),
{
    let mut i: usize = 0;
    while i < a.len() && i < b.len() && i < order.len()
        invariant i <= a@.len(), i <= b@.len(), i <= order@.len(),
            keys_order(vals(a@), vals(b@), order@, 0) == keys_order(vals(a@), vals(b@), order@, i as int),
        decreases a.len() - i,
    {
        let desc = order[i].desc;
        let nulls_first = match order[i].nulls_first { Some(f) => f, None => !desc };
        let an = is_null(&a[i]);
        let bn = is_null(&b[i]);
        let o = if an && bn {
            Order::Equal
        } else if an {
            if nulls_first { Order::Less } else { Order::Greater }
        } else if bn {
            if nulls_first { Order::Greater } else { Order::Less }
        } else {
            let c = compare_values(&a[i], &b[i]);
            if desc {
                match c { Order::Less => Order::Greater, Order::Greater => Order::Less, Order::Equal => Order::Equal }
            } else {
                c
            }
        };
        assert(o == item_order(a@[i as int]@, b@[i as int]@, order@[i as int]));
        if o != Order::Equal {
            return o;
        }
        i += 1;
    }
    Order::Equal
}

/// The sort keys of the row at position `x`.
pub open spec fn key_at(keys: Seq<Vec<Value>>, x: int) -> Seq<ValueV> {
    vals(keys[x]@)
}

/// Whether positions list their rows of keys in order, with positions of
/// equal keys in increasing order.
pub open spec fn sorted_by_keys(idx: Seq<usize>, keys: Seq<Vec<Value>>, order: Seq<OrderItem>) -> bool {
    forall|j: int, k: int| #![trigger idx[j], idx[k]] 0 <= j < k < idx.len() ==>
        keys_order(key_at(keys, idx[j] as int), key_at(keys, idx[k] as int), order, 0) != Order::Greater
        && (keys_order(key_at(keys, idx[j] as int), key_at(keys, idx[k] as int), order, 0) == Order::Equal ==> idx[j] < idx[k])
}

/// Putting position `i` where insertion sort puts it keeps the positions
/// distinct and, for keys of one length, in stable key order.
#[verifier::spinoff_prover]
#[verifier::rlimit(40)]
proof fn lemma_insert_position(before: Seq<usize>, p: int, i: usize, keys: Seq<Vec<Value>>, order: Seq<OrderItem>, uniform: bool)
    requires
        0 <= p <= before.len(), i < keys.len(),
        forall|k: int| 0 <= k < before.len() ==> #[trigger] before[k] < i,
        forall|j: int, k: int| 0 <= j < k < before.len() ==> #[trigger] before[j] != #[trigger] before[k],
        uniform == forall|x: int| 0 <= x < keys.len() ==> (#[trigger] keys[x])@.len() == order.len(),
        uniform ==> sorted_by_keys(before, keys, order),
        p > 0 ==> keys_order(key_at(keys, before[p - 1] as int), key_at(keys, i as int), order, 0) != Order::Greater,
        forall|m: int| p <= m < before.len() ==>
            keys_order(key_at(keys, #[trigger] before[m] as int), key_at(keys, i as int), order, 0) == Order::Greater,
    ensures ({
        let idx = before.insert(p, i);
        &&& forall|k: int| 0 <= k < idx.len() ==> #[trigger] idx[k] < i + 1
        &&& forall|j: int, k: int| 0 <= j < k < idx.len() ==> #[trigger] idx[j] != #[trigger] idx[k]
        &&& uniform ==> sorted_by_keys(idx, keys, order)
    }),
{
    let idx = before.insert(p, i);
    assert forall|k: int| 0 <= k < idx.len() implies #[trigger] idx[k] < i + 1 by {
        if k < p { assert(idx[k] == before[k]); } else if k > p { assert(idx[k] == before[k - 1]); }
    }
    assert forall|j: int, k: int| 0 <= j < k < idx.len() implies #[trigger] idx[j] != #[trigger] idx[k] by {
        if j < p { assert(idx[j] == before[j]); } else if j > p { assert(idx[j] == before[j - 1]); }
        if k < p { assert(idx[k] == before[k]); } else if k > p { assert(idx[k] == before[k - 1]); }
    }
    if uniform {
        let ki = key_at(keys, i as int);
        assert(keys[i as int]@.len() == order.len());
        assert forall|j: int, k: int| #![trigger idx[j], idx[k]] 0 <= j < k < idx.len() implies
            keys_order(key_at(keys, idx[j] as int), key_at(keys, idx[k] as int), order, 0) != Order::Greater
            && (keys_order(key_at(keys, idx[j] as int), key_at(keys, idx[k] as int), order, 0) == Order::Equal ==> idx[j] < idx[k]) by {
            if k < p {
                assert(idx[j] == before[j] && idx[k] == before[k]);
                assert(before[j] == before[j] && before[k] == before[k]);
            } else if k == p {
                assert(idx[j] == before[j]);
                let kp = key_at(keys, before[p - 1] as int);
                if j < p - 1 {
                    assert(before[j] == before[j] && before[p - 1] == before[p - 1]);
                    assert(keys[before[j] as int]@.len() == order.len());
                    assert(keys[before[p - 1] as int]@.len() == order.len());
                    lemma_keys_order_trans(key_at(keys, before[j] as int), kp, ki, order, 0);
                }
            } else if j == p {
                assert(idx[k] == before[k - 1]);
                assert(keys_order(key_at(keys, before[k - 1] as int), ki, order, 0) == Order::Greater);
                lemma_keys_order_antisym(key_at(keys, before[k - 1] as int), ki, order, 0);
            } else if j < p {
                assert(idx[j] == before[j] && idx[k] == before[k - 1]);
                assert(before[j] == before[j] && before[k - 1] == before[k - 1]);
            } else {
                assert(idx[j] == before[j - 1] && idx[k] == before[k - 1]);
                assert(before[j - 1] == before[j - 1] && before[k - 1] == before[k - 1]);
            }
        }
    }
}

/// A stable ordering of positions `0..keys.len()` by their keys: each
/// position once, and, when every row has one key per ORDER BY item, the
/// rows in key order with ties in their original order.
pub fn sort_positions(keys: &Vec<Vec<Value>>, order: &Vec<OrderItem>) -> (r: Vec<usize>)
    ensures
        r@.len() == keys@.len(),
        forall|k: int| 0 <= k < r@.len() ==> #[trigger] r@[k] < keys@.len(),
        forall|j: int, k: int| 0 <= j < k < r@.len() ==> #[trigger] r@[j] != #[trigger] r@[k],
        (forall|x: int| 0 <= x < keys@.len() ==> (#[trigger] keys@[x])@.len() == order@.len()) ==> sorted_by_keys(r@, keys@, order@),
{
    let ghost uniform = forall|x: int| 0 <= x < keys@.len() ==> (#[trigger] keys@[x])@.len() == order@.len();
    let mut idx: Vec<usize> = Vec::new();
    let mut i: usize = 0;
    while i < keys.len()
        invariant
            i <= keys@.len(), idx@.len() == i,
            forall|k: int| 0 <= k < idx@.len() ==> #[trigger] idx@[k] < i,
            forall|j: int, k: int| 0 <= j < k < idx@.len() ==> #[trigger] idx@[j] != #[trigger] idx@[k],
            uniform == forall|x: int| 0 <= x < keys@.len() ==> (#[trigger] keys@[x])@.len() == order@.len(),
            uniform ==> sorted_by_keys(idx@, keys@, order@),
        decreases keys.len() - i,
    {
        let mut p: usize = idx.len();
        while p > 0 && compare_keys(&keys[idx[p - 1]], &keys[i], order) == Order::Greater
            invariant p <= idx@.len(), forall|k: int| 0 <= k < idx@.len() ==> #[trigger] idx@[k] < i, i < keys@.len(),
                forall|m: int| p <= m < idx@.len() ==>
                    keys_order(key_at(keys@, #[trigger] idx@[m] as int), key_at(keys@, i as int), order@, 0) == Order::Greater,
            decreases p,
        {
            p -= 1;
        }
        let ghost before = idx@;
        idx.insert(p, i);
        proof {
            assert(idx@ =~= before.insert(p as int, i));
            lemma_insert_position(before, p as int, i, keys@, order@, uniform);
        }
        i += 1;
    }
    idx
}

fn permute_rows(rows: &Vec<Vec<Value>>, idx: &Vec<usize>) -> (r: Vec<Vec<Value>>)
    requires forall|k: int| 0 <= k < idx@.len() ==> #[trigger] idx@[k] < rows@.len(),
    ensures r@.len() == idx@.len(), forall|k: int| 0 <= k < idx@.len() ==> vals(#[trigger] r@[k]@) == vals(rows@[idx@[k] as int]@),
        rows_view(r@) == pick_rows(rows_view(rows@), idx@),
{
    let mut out: Vec<Vec<Value>> = Vec::new();
    let mut i: usize = 0;
    while i < idx.len()
        invariant i <= idx@.len(), forall|k: int| 0 <= k < idx@.len() ==> #[trigger] idx@[k] < rows@.len(),
            out@.len() == i, forall|k: int| 0 <= k < i ==> vals(#[trigger] out@[k]@) == vals(rows@[idx@[k] as int]@),
        decreases idx.len() - i,
    {
        let c = copy_row(&rows[idx[i]]);
        assert(vals(c@) =~= vals(rows@[idx@[i as int] as int]@));
        out.push(c);
        i += 1;
    }
    assert(rows_view(out@) =~= pick_rows(rows_view(rows@), idx@));
    out
}

/// The first row that OFFSET keeps: none for a missing or non-positive offset.
pub open spec fn page_start(n: int, offset: Option<i64>) -> int {
    match offset {
        Some(o) => if o <= 0 { 0 } else if o < n { o as int } else { n },
        None => 0,
    }
}

/// The row after the last that LIMIT keeps from `start` on; a missing or
/// negative limit keeps the rest.
pub open spec fn page_end(n: int, start: int, limit: Option<i64>) -> int {
    match limit {
        Some(l) => if l >= 0 && l < n - start { start + l } else { n },
        None => n,
    }
}

/// Applies OFFSET and LIMIT; a negative limit means no limit.
fn page_rows(rows: Vec<Vec<Value>>, limit: Option<i64>, offset: Option<i64>) -> (r: Vec<Vec<Value>>)
    ensures ({
        let start = page_start(rows@.len() as int, offset);
        let end = page_end(rows@.len() as int, start, limit);
        &&& r@.len() == end - start
        &&& forall|k: int| 0 <= k < r@.len() ==> vals(#[trigger] r@[k]@) == vals(rows@[start + k]@)
    }),
{
    let start: usize = match offset {
        Some(o) => if o <= 0 { 0 } else if (o as u64) < (rows.len() as u64) { o as usize } else { rows.len() },
        None => 0,
    };
    let mut end: usize = rows.len();
    match limit {
        Some(l) => {
            if l >= 0 && (l as u64) < ((rows.len() - start) as u64) {
                end = start + (l as usize);
            }
        },
        None => {},
    }
    let mut out: Vec<Vec<Value>> = Vec::new();
    let mut i: usize = start;
    assert(start == page_start(rows@.len() as int, offset));
    assert(end == page_end(rows@.len() as int, start as int, limit));
    while i < end
        invariant start <= i <= end, end <= rows@.len(), out@.len() == i - start,
            forall|k: int| 0 <= k < out@.len() ==> vals(#[trigger] out@[k]@) == vals(rows@[start + k]@),
        decreases end - i,
    {
        let c = copy_row(&rows[i]);
        assert(vals(c@) =~= vals(rows@[i as int]@));
        out.push(c);
        i += 1;
    }
    out
}

fn rows_equal(a: &Vec<Value>, b: &Vec<Value>) -> (r: bool)
    ensures r == (vals(a@) == vals(b@)),
{
    if a.len() != b.len() {
        assert(vals(a@).len() != vals(b@).len());
        return false;
    }
    let mut i: usize = 0;
    while i < a.len()
        invariant i <= a@.len(), a@.len() == b@.len(), forall|k: int| 0 <= k < i ==> a@[k]@ == #[trigger] b@[k]@,
        decreases a.len() - i,
    {
        if !values_equal(&a[i], &b[i]) {
            assert(vals(a@)[i as int] != vals(b@)[i as int]);
            return false;
        }
        i += 1;
    }
    assert(vals(a@) =~= vals(b@));
    true
}

pub fn contains_row(rows: &Vec<Vec<Value>>, r: &Vec<Value>) -> (b: bool)
    ensures b == exists|i: int| 0 <= i < rows@.len() && vals(#[trigger] rows@[i]@) == vals(r@),
{
    let mut i: usize = 0;
    while i < rows.len()
        invariant i <= rows@.len(), forall|k: int| 0 <= k < i ==> vals(#[trigger] rows@[k]@) != vals(r@),
        decreases rows.len() - i,
    {
        if rows_equal(&rows[i], r) {
            return true;
        }
        i += 1;
    }
    false
}

// ───────────────────────────── queries ─────────────────────────────

/// Sorts the rows of a result stably by their keys (when there is an ORDER
/// BY), then keeps the rows that OFFSET and LIMIT select.
pub fn order_and_page(out: Output, keys: Vec<Vec<Value>>, order: &Vec<OrderItem>, limit: Option<i64>, offset: Option<i64>)
    -> (res: Output)
    requires
        keys@.len() == out.rows@.len(),
        forall|x: int| 0 <= x < keys@.len() ==> (#[trigger] keys@[x])@.len() == order@.len(),
    ensures
        res.names@ == out.names@,
        order@.len() == 0 ==> rows_view(res.rows@) == page_spec(rows_view(out.rows@), limit, offset),
        order@.len() > 0 ==> exists|idx: Seq<usize>| stable_order(idx, rows_view(keys@), order@)
            && rows_view(res.rows@) == page_spec(pick_rows(rows_view(out.rows@), idx), limit, offset),
{
    let ghost sel_rows = rows_view(out.rows@);
    let ghost keyv = rows_view(keys@);
    let ghost mut chosen: Seq<usize> = Seq::empty();
    let rows = if order.len() > 0 {
        let idx = sort_positions(&keys, order);
        proof {
            chosen = idx@;
            assert forall|j: int, k: int| #![trigger idx@[j], idx@[k]] 0 <= j < k < idx@.len() implies
                keys_order(keyv[idx@[j] as int], keyv[idx@[k] as int], order@, 0) != Order::Greater
                && (keys_order(keyv[idx@[j] as int], keyv[idx@[k] as int], order@, 0) == Order::Equal ==> idx@[j] < idx@[k]) by {
                assert(key_at(keys@, idx@[j] as int) == keyv[idx@[j] as int]);
                assert(key_at(keys@, idx@[k] as int) == keyv[idx@[k] as int]);
            }
            assert(stable_order(idx@, keyv, order@));
        }
        let perm = permute_rows(&out.rows, &idx);
        assert(rows_view(perm@) =~= pick_rows(sel_rows, idx@));
        perm
    } else {
        out.rows
    };
    let ghost before = rows_view(rows@);
    let paged = page_rows(rows, limit, offset);
    assert(rows_view(paged@) =~= page_spec(before, limit, offset));
    Output { names: out.names, rows: paged }
}

/// The rows of a query whose body is a set operation and that has no ORDER
/// BY: LIMIT and OFFSET are evaluated first, then the set expression, then
/// the page; `Some(None)` for an error and `None` where it is not known or
/// the query has another form.
pub open spec fn set_query(db: Db, q: Query, fuel: nat) -> Option<Option<Seq<Seq<ValueV>>>> {
    if q.order_by@.len() > 0 || q.body is Select {
        None
    } else {
        match count_spec(q.limit, fuel) {
            Some(Some(l)) => match count_spec(q.offset, fuel) {
                Some(Some(o)) => match set_expr_rows(db, q.body, fuel) {
                    Some(Some(rows)) => Some(Some(page_spec(rows, l, o))),
                    Some(None) => Some(None),
                    None => None,
                },
                Some(None) => Some(None),
                None => None,
            },
            Some(None) => Some(None),
            None => None,
        }
    }
}

/// The column names a set expression's rows come with: those of its first select.
pub open spec fn set_expr_names(db: Db, s: SetExpr, fuel: nat) -> Option<Seq<Seq<char>>>
    decreases s,
{
    match s {
        SetExpr::Select(sel) => match from_list_spec(db, sel.from@, fuel) {
            Some(Some(rel)) => Some(output_names_spec(sel.items@, rel.0)),
            _ => None,
        },
        SetExpr::SetOp { left, .. } => if fuel == 0 { None } else { set_expr_names(db, *left, (fuel - 1) as nat) },
    }
}

/// Whether each ORDER BY term of a compound query names an output column.
pub open spec fn order_resolves(order: Seq<OrderItem>, names: Seq<Seq<char>>) -> bool {
    forall|i: int| 0 <= i < order.len() ==> output_pos_spec((#[trigger] order[i]).expr, names) is Some
}

/// The sort keys of rows of a compound query: for each row, the value of the
/// output column each ORDER BY term names.
pub open spec fn output_keys_spec(order: Seq<OrderItem>, names: Seq<Seq<char>>, rows: Seq<Seq<ValueV>>) -> Seq<Seq<ValueV>> {
    rows.map_values(|row: Seq<ValueV>| order.map_values(|it: OrderItem| output_key(it.expr, names, row)))
}

/// A query whose body is a set operation and that has ORDER BY: the rows of
/// the set operation, their column names, and the LIMIT and OFFSET; `None`
/// where one of them is not known or fails.
pub open spec fn ordered_set_query(db: Db, q: Query, fuel: nat)
    -> Option<(Seq<Seq<ValueV>>, Seq<Seq<char>>, Option<i64>, Option<i64>)>
{
    if q.order_by@.len() == 0 || q.body is Select {
        None
    } else {
        match (count_spec(q.limit, fuel), count_spec(q.offset, fuel), set_expr_rows(db, q.body, fuel), set_expr_names(db, q.body, fuel)) {
            (Some(Some(l)), Some(Some(o)), Some(Some(rows)), Some(n)) => Some((rows, n, l, o)),
            _ => None,
        }
    }
}

/// The rows a compound query with ORDER BY returns, before paging, are as
/// many as the set operation gave, each of them one of its rows, and taken
/// again through the columns ORDER BY names they come in key order: no row's
/// keys compare Greater than a later row's.
pub proof fn law_ordered_set_rows_sorted(rows: Seq<Seq<ValueV>>, names: Seq<Seq<char>>, order: Seq<OrderItem>, idx: Seq<usize>)
    requires stable_order(idx, output_keys_spec(order, names, rows), order),
    ensures ({
        let out = pick_rows(rows, idx);
        let ks = output_keys_spec(order, names, out);
        &&& out.len() == rows.len()
        &&& forall|j: int| 0 <= j < out.len() ==> rows.contains(#[trigger] out[j])
        &&& forall|j: int, k: int| 0 <= j < k < out.len() ==> keys_order(#[trigger] ks[j], #[trigger] ks[k], order, 0) != Order::Greater
    }),
{
    let out = pick_rows(rows, idx);
    let keyv = output_keys_spec(order, names, rows);
    let ks = output_keys_spec(order, names, out);
    assert forall|j: int| 0 <= j < out.len() implies rows.contains(#[trigger] out[j]) by {
        assert(out[j] == rows[idx[j] as int]);
    }
    assert forall|j: int, k: int| 0 <= j < k < out.len() implies keys_order(#[trigger] ks[j], #[trigger] ks[k], order, 0) != Order::Greater by {
        assert(ks[j] == keyv[idx[j] as int]);
        assert(ks[k] == keyv[idx[k] as int]);
    }
}

/// For a value that is not NULL and candidates none of which is NULL,
/// `NOT IN` is true exactly when no candidate equals the value, `IN` exactly
/// when one does, so each is the other negated.
pub proof fn law_not_in_negates_in(a: ValueV, cands: Seq<ValueV>)
    requires !(a is Null), forall|i: int| 0 <= i < cands.len() ==> !(#[trigger] cands[i] is Null),
    ensures
        membership_spec(a, cands, false) == crate::vm::eval::bool_v(exists|i: int| 0 <= i < cands.len() && cands[i] == a),
        membership_spec(a, cands, true) == crate::vm::eval::bool_v(forall|i: int| 0 <= i < cands.len() ==> cands[i] != a),
        membership_spec(a, cands, true) != membership_spec(a, cands, false),
{
}

/// The rows of set expressions depend only on the tables, views and policies.
pub proof fn lemma_set_expr_rows_frame(d1: Db, d2: Db, s: SetExpr, fuel: nat)
    requires d1.tables@ == d2.tables@, d1.views@ == d2.views@, d1.policies@ == d2.policies@,
    ensures set_expr_rows(d1, s, fuel) == set_expr_rows(d2, s, fuel),
    decreases s,
{
    match s {
        SetExpr::Select(sel) => crate::vm::relations::lemma_from_list_frame(d1, d2, sel.from@, fuel),
        SetExpr::SetOp { left, right, .. } => {
            if fuel > 0 {
                lemma_set_expr_rows_frame(d1, d2, *left, (fuel - 1) as nat);
                lemma_set_expr_rows_frame(d1, d2, *right, (fuel - 1) as nat);
            }
        },
    }
}

/// The first column's values of the rows that have one, in order.
pub open spec fn first_values(rows: Seq<Seq<ValueV>>) -> Seq<ValueV>
    decreases rows.len(),
{
    if rows.len() == 0 {
        Seq::empty()
    } else if rows.last().len() > 0 {
        first_values(rows.drop_last()).push(rows.last()[0])
    } else {
        first_values(rows.drop_last())
    }
}

/// Runs a query. `outer` is the row of an enclosing query, whose columns a
/// correlated sub-query may read.
#[verifier::spinoff_prover]
#[verifier::rlimit(80)]
pub fn exec_query(db: &Db, q: &Query, outer: Option<(&Vec<ColRef>, &Vec<Value>)>, fuel: u32) -> (r: Result<Output>)
    ensures
        outer is None ==> (query_spec(*db, *q, fuel as nat) matches Some(res) ==>
            (res matches Some(nr) ==> (r matches Ok(out) && names_view(out.names@) == nr.0 && rows_view(out.rows@) == nr.1))
            && (res is None ==> r is Err)),
        outer is None && fuel > 0 && tables_wf(db.tables@) ==> (scan_result(db.tables@, *q, fuel as nat) matches Some(rows) ==>
            (r matches Ok(out) && rows_view(out.rows@) == rows)),
        outer is None && q.order_by@.len() > 0 ==> (ordered_query(*db, *q, fuel as nat) matches Some(res) ==>
            (res matches Some(x) ==> (r matches Ok(out) && names_view(out.names@) == x.0
                && exists|idx: Seq<usize>| stable_order(idx, x.2, q.order_by@)
                    && rows_view(out.rows@) == page_spec(pick_rows(x.1, idx), x.3, x.4)))
            && (res is None ==> r is Err)),
        outer is None ==> (set_query(*db, *q, fuel as nat) matches Some(res) ==>
            (res matches Some(rows) ==> (r matches Ok(out) && rows_view(out.rows@) == rows))
            && (res is None ==> r is Err)),
        outer is None ==> (ordered_set_query(*db, *q, fuel as nat) matches Some(x) ==>
            (order_resolves(q.order_by@, x.1) ==> (r matches Ok(out) && names_view(out.names@) == x.1
                && exists|idx: Seq<usize>| stable_order(idx, output_keys_spec(q.order_by@, x.1, x.0), q.order_by@)
                    && rows_view(out.rows@) == page_spec(pick_rows(x.0, idx), x.2, x.3)))
            && (!order_resolves(q.order_by@, x.1) && x.0.len() > 0 ==> r is Err)),
    decreases fuel, 100int,
{
    proof {
        if outer is None && fuel > 0 && tables_wf(db.tables@) && scan_result(db.tables@, *q, fuel as nat) is Some {
            lemma_scan_query_spec(*db, *q, fuel as nat);
        }
    }
    let limit = eval_count(db, &q.limit, fuel)?;
    let offset = eval_count(db, &q.offset, fuel)?;
    match &q.body {
        SetExpr::Select(sel) => {
            let (out, keys) = exec_select(db, sel, &q.order_by, outer, fuel)?;
            let ghost rv = rows_view(out.rows@);
            let ghost kv = rows_view(keys@);
            let ghost nmv = names_view(out.names@);
            let res = order_and_page(out, keys, &q.order_by, limit, offset);
            proof {
                assert(names_view(res.names@) == nmv);
                if outer is None && q.order_by@.len() > 0 && ordered_query(*db, *q, fuel as nat) matches Some(Some(_)) {
                    let x = ordered_query(*db, *q, fuel as nat).unwrap().unwrap();
                    assert(x.1 == rv && x.2 == kv && x.0 == nmv);
                    let idx = choose|idx: Seq<usize>| stable_order(idx, kv, q.order_by@)
                        && rows_view(res.rows@) == page_spec(pick_rows(rv, idx), limit, offset);
                    assert(stable_order(idx, x.2, q.order_by@));
                }
            }
            Ok(res)
        },
        _ => {
            let out = exec_set(db, &q.body, outer, fuel)?;
            let ghost nv = names_view(out.names@);
            let ghost rv = rows_view(out.rows@);
            let ghost good = outer is None && ordered_set_query(*db, *q, fuel as nat) is Some && order_resolves(q.order_by@, nv);
            let rows = if q.order_by.len() > 0 {
                let mut keys: Vec<Vec<Value>> = Vec::new();
                let mut i: usize = 0;
                while i < out.rows.len()
                    invariant i <= out.rows@.len(), keys@.len() == i, scan_result(db.tables@, *q, fuel as nat) is None,
                        query_spec(*db, *q, fuel as nat) is None, ordered_query(*db, *q, fuel as nat) is None,
                        nv == names_view(out.names@), rv == rows_view(out.rows@),
                        good == (outer is None && ordered_set_query(*db, *q, fuel as nat) is Some && order_resolves(q.order_by@, nv)),
                        outer is None && ordered_set_query(*db, *q, fuel as nat) is Some ==> nv == ordered_set_query(*db, *q, fuel as nat).unwrap().1
                            && rv == ordered_set_query(*db, *q, fuel as nat).unwrap().0,
                        !order_resolves(q.order_by@, nv) ==> i == 0,
                        forall|j: int| 0 <= j < i ==> (#[trigger] keys@[j])@.len() == q.order_by@.len(),
                        good ==> forall|j: int| 0 <= j < i ==> vals((#[trigger] keys@[j])@) == output_keys_spec(q.order_by@, nv, rv)[j],
                    decreases out.rows.len() - i,
                {
                    proof {
                        if good {
                            assert forall|ii: int| 0 <= ii < q.order_by@.len() implies
                                output_pos_spec((#[trigger] q.order_by@[ii]).expr, names_view(out.names@)) is Some by {}
                        }
                    }
                    let k = output_keys(&q.order_by, &out.names, &out.rows[i])?;
                    proof {
                        if good {
                            assert(vals(k@) =~= output_keys_spec(q.order_by@, nv, rv)[i as int]);
                        }
                    }
                    keys.push(k);
                    i += 1;
                }
                proof {
                    if good {
                        let keyv = output_keys_spec(q.order_by@, nv, rv);
                        assert forall|idx2: Seq<usize>| #[trigger] sorted_by_keys(idx2, keys@, q.order_by@)
                            && idx2.len() == keyv.len() && (forall|k: int| 0 <= k < idx2.len() ==> #[trigger] idx2[k] < keyv.len())
                            && (forall|j: int, k: int| 0 <= j < k < idx2.len() ==> #[trigger] idx2[j] != #[trigger] idx2[k])
                            implies stable_order(idx2, keyv, q.order_by@) by {
                            assert forall|j: int, k: int| #![trigger idx2[j], idx2[k]] 0 <= j < k < idx2.len() implies
                                keys_order(keyv[idx2[j] as int], keyv[idx2[k] as int], q.order_by@, 0) != Order::Greater
                                && (keys_order(keyv[idx2[j] as int], keyv[idx2[k] as int], q.order_by@, 0) == Order::Equal ==> idx2[j] < idx2[k]) by {
                                assert(key_at(keys@, idx2[j] as int) == keyv[idx2[j] as int]);
                                assert(key_at(keys@, idx2[k] as int) == keyv[idx2[k] as int]);
                            }
                        }
                    }
                }
                let idx = sort_positions(&keys, &q.order_by);
                permute_rows(&out.rows, &idx)
            } else {
                out.rows
            };
            let ghost before = rows_view(rows@);
            let paged = page_rows(rows, limit, offset);
            assert(rows_view(paged@) =~= page_spec(before, limit, offset));
            Ok(Output { names: out.names, rows: paged })
        },
    }
}

/// Position of an ORDER BY term among the output columns: a 1-based number
/// or a column name or alias.
fn output_position(e: &Expr, names: &Vec<Vec<char>>) -> (r: Option<usize>)
    ensures
        r matches Some(i) ==> i < names@.len(),
        match r {
            Some(i) => output_pos_spec(*e, names_view(names@)) == Some(i as int),
            None => output_pos_spec(*e, names_view(names@)) is None,
        },
{
    let ghost nv = names_view(names@);
    match e {
        Expr::Literal(Value::Integer(n)) => {
            if *n >= 1 && ((*n - 1) as u64) < (names.len() as u64) { Some((*n - 1) as usize) } else { None }
        },
        Expr::Column { table: None, name } => {
            let mut i: usize = 0;
            while i < names.len()
                invariant i <= names@.len(), nv == names_view(names@),
                    name_pos(nv, name@, 0) == name_pos(nv, name@, i as int),
                    output_pos_spec(*e, nv) == name_pos(nv, name@, 0),
                decreases names.len() - i,
            {
                assert(nv[i as int] == names@[i as int]@);
                if chars_eq_ci(&names[i], name) {
                    return Some(i);
                }
                i += 1;
            }
            None
        },
        _ => None,
    }
}

/// The value an ORDER BY term of a compound query gives a row: the row's value
/// in the output column that the term names, NULL where the row is shorter.
pub open spec fn output_key(e: Expr, names: Seq<Seq<char>>, row: Seq<ValueV>) -> ValueV {
    let p = output_pos_spec(e, names).unwrap();
    if p < row.len() { row[p] } else { ValueV::Null }
}

fn output_keys(order: &Vec<OrderItem>, names: &Vec<Vec<char>>, row: &Vec<Value>) -> (r: Result<Vec<Value>>)
    ensures
        (forall|i: int| 0 <= i < order@.len() ==> output_pos_spec((#[trigger] order@[i]).expr, names_view(names@)) is Some)
            ==> (r matches Ok(keys) && keys@.len() == order@.len() && forall|i: int| 0 <= i < order@.len() ==>
                (#[trigger] keys@[i])@ == output_key(order@[i].expr, names_view(names@), vals(row@))),
        (exists|i: int| 0 <= i < order@.len() && output_pos_spec((#[trigger] order@[i]).expr, names_view(names@)) is None)
            ==> (r matches Err(e) && e.kind == ErrorKind::Schema),
{
    let mut keys: Vec<Value> = Vec::new();
    let mut i: usize = 0;
    while i < order.len()
        invariant i <= order@.len(), keys@.len() == i,
            forall|k: int| 0 <= k < i ==> output_pos_spec((#[trigger] order@[k]).expr, names_view(names@)) is Some,
            forall|k: int| 0 <= k < i ==> (#[trigger] keys@[k])@ == output_key(order@[k].expr, names_view(names@), vals(row@)),
        decreases order.len() - i,
    {
        match output_position(&order[i].expr, names) {
            Some(p) => {
                if p < row.len() { keys.push(copy_value(&row[p])); } else { keys.push(Value::Null); }
            },
            None => { return fail(ErrorKind::Schema, "ORDER BY term of a compound query must name an output column"); },
        }
        i += 1;
    }
    Ok(keys)
}

/// The rows a set expression gives on `db` without outer row: a select's rows
/// without ordering, or the set operation on the rows of both sides, the left
/// side first; `Some(None)` for an error, `None` where it is not known.
pub open spec fn set_expr_rows(db: Db, s: SetExpr, fuel: nat) -> Option<Option<Seq<Seq<ValueV>>>>
    decreases s,
{
    match s {
        SetExpr::Select(sel) => match select_keyed(db, *sel, Seq::empty(), fuel) {
            Some(Some(pk)) => Some(Some(pk.0)),
            Some(None) => Some(None),
            None => None,
        },
        SetExpr::SetOp { op, all, left, right } => if fuel == 0 {
            Some(None)
        } else {
            match set_expr_rows(db, *left, (fuel - 1) as nat) {
                Some(Some(l)) => match set_expr_rows(db, *right, (fuel - 1) as nat) {
                    Some(Some(r)) => Some(Some(set_op_rows(op, all, l, r))),
                    Some(None) => Some(None),
                    None => None,
                },
                Some(None) => Some(None),
                None => None,
            }
        },
    }
}

fn exec_set(db: &Db, s: &SetExpr, outer: Option<(&Vec<ColRef>, &Vec<Value>)>, fuel: u32) -> (r: Result<Output>)
    ensures
        outer is None ==> match set_expr_rows(*db, *s, fuel as nat) {
            Some(Some(rows)) => r matches Ok(out) && rows_view(out.rows@) == rows,
            Some(None) => r is Err,
            None => true,
        },
        outer is None ==> (r matches Ok(out) ==> (set_expr_names(*db, *s, fuel as nat) matches Some(n) ==> names_view(out.names@) == n)),
    decreases fuel, 90int,
{
    match s {
        SetExpr::Select(sel) => {
            let no_order: Vec<OrderItem> = Vec::new();
            let (out, _keys) = exec_select(db, sel, &no_order, outer, fuel)?;
            Ok(out)
        },
        SetExpr::SetOp { op, all, left, right } => {
            if fuel == 0 {
                return too_deep();
            }
            let l = exec_set(db, left, outer, fuel - 1)?;
            let r = exec_set(db, right, outer, fuel - 1)?;
            Ok(combine_sets(*op, *all, l, r))
        },
    }
}

/// The name an output column gets from its expression when it has no alias.
pub open spec fn item_name_spec(e: Expr) -> Seq<char> {
    match e {
        Expr::Column { name, .. } => name@,
        Expr::Function { name, star, .. } => name@ + (if star { "(*)"@ } else { "(...)"@ }),
        Expr::Window { name, .. } => name@,
        Expr::Literal(v) => value_text(v@),
        _ => "expr"@,
    }
}

/// Whether `*` (no table) or `t.*` shows a column.
pub open spec fn star_shows(c: ColView, t: Option<Seq<char>>) -> bool {
    !c.2 && match t { Some(x) => same_name(c.0, x), None => true }
}

/// The names of the columns `*` or `t.*` shows, in order.
pub open spec fn star_names(cols: Seq<ColView>, t: Option<Seq<char>>) -> Seq<Seq<char>>
    decreases cols.len(),
{
    if cols.len() == 0 {
        Seq::empty()
    } else {
        let prev = star_names(cols.drop_last(), t);
        if star_shows(cols.last(), t) { prev.push(cols.last().1) } else { prev }
    }
}

/// The values of the columns `*` or `t.*` shows, in order; NULL past the end of the row.
pub open spec fn star_values(cols: Seq<ColView>, row: Seq<ValueV>, t: Option<Seq<char>>) -> Seq<ValueV>
    decreases cols.len(),
{
    if cols.len() == 0 {
        Seq::empty()
    } else {
        let k = cols.len() - 1;
        let prev = star_values(cols.drop_last(), row, t);
        if star_shows(cols.last(), t) { prev.push(if k < row.len() { row[k] } else { ValueV::Null }) } else { prev }
    }
}

/// The output names of one select item.
pub open spec fn item_names(it: SelectItem, cols: Seq<ColView>) -> Seq<Seq<char>> {
    match it {
        SelectItem::Star => star_names(cols, None),
        SelectItem::TableStar(t) => star_names(cols, Some(t@)),
        SelectItem::Item { expr, alias } => seq![match alias { Some(a) => a@, None => item_name_spec(expr) }],
    }
}

/// The output names of a select list.
pub open spec fn output_names_spec(items: Seq<SelectItem>, cols: Seq<ColView>) -> Seq<Seq<char>>
    decreases items.len(),
{
    if items.len() == 0 {
        Seq::empty()
    } else {
        output_names_spec(items.drop_last(), cols) + item_names(items.last(), cols)
    }
}

/// The views of a list of names.
pub open spec fn names_view(names: Seq<Vec<char>>) -> Seq<Seq<char>> {
    names.map_values(|n: Vec<char>| n@)
}

/// The name of an output column.
fn item_name(e: &Expr) -> (r: Vec<char>)
    ensures r@ == item_name_spec(*e),
{
    match e {
        Expr::Column { name, .. } => copy_chars(name),
        Expr::Function { name, star, .. } => {
            let mut n = copy_chars(name);
            if *star { append_str(&mut n, "(*)"); } else { append_str(&mut n, "(...)"); }
            n
        },
        Expr::Window { name, .. } => copy_chars(name),
        Expr::Literal(v) => text_of(v),
        _ => str_chars("expr"),
    }
}

/// Appends the names of the columns `*` (or `t.*`) shows.
fn push_star_names(names: &mut Vec<Vec<char>>, cols: &Vec<ColRef>, t: &Option<Vec<char>>)
    ensures
        names_view(final(names)@)
            == names_view(old(names)@) + star_names(col_views(cols@), match t { Some(x) => Some(x@), None => None }),
{
    let ghost tv: Option<Seq<char>> = match t { Some(x) => Some(x@), None => None };
    let ghost start = names_view(names@);
    let mut k: usize = 0;
    assert(col_views(cols@).take(0) =~= Seq::<ColView>::empty());
    assert(start + Seq::<Seq<char>>::empty() =~= start);
    while k < cols.len()
        invariant k <= cols@.len(), names_view(names@) == start + star_names(col_views(cols@).take(k as int), tv),
            tv == (match t { Some(x) => Some(x@), None => None::<Seq<char>> }),
        decreases cols.len() - k,
    {
        proof {
            let cv = col_views(cols@);
            assert(cv.take(k + 1).drop_last() =~= cv.take(k as int));
            assert(cv.take(k + 1).last() == cv[k as int]);
        }
        let shows = !cols[k].hidden && match t { Some(x) => chars_eq_ci(&cols[k].table, x), None => true };
        let ghost prev = names@;
        if shows {
            names.push(copy_chars(&cols[k].name));
            assert(names_view(names@) =~= names_view(prev).push(cols@[k as int].name@));
        }
        k += 1;
    }
    assert(col_views(cols@).take(cols@.len() as int) =~= col_views(cols@));
}

/// The output column names of a select list over the given columns.
pub fn output_names(items: &Vec<SelectItem>, cols: &Vec<ColRef>) -> (r: Vec<Vec<char>>)
    ensures names_view(r@) == output_names_spec(items@, col_views(cols@)),
{
    let mut names: Vec<Vec<char>> = Vec::new();
    let mut i: usize = 0;
    assert(names_view(names@) =~= Seq::<Seq<char>>::empty());
    assert(items@.take(0) =~= Seq::<SelectItem>::empty());
    while i < items.len()
        invariant i <= items@.len(), names_view(names@) == output_names_spec(items@.take(i as int), col_views(cols@)),
        decreases items.len() - i,
    {
        proof {
            assert(items@.take(i + 1).drop_last() =~= items@.take(i as int));
            assert(items@.take(i + 1).last() == items@[i as int]);
        }
        let ghost prev = names_view(names@);
        match &items[i] {
            SelectItem::Star => {
                push_star_names(&mut names, cols, &None);
            },
            SelectItem::TableStar(t) => {
                let tt = Some(copy_chars(t));
                push_star_names(&mut names, cols, &tt);
            },
            SelectItem::Item { expr, alias } => {
                match alias {
                    Some(a) => names.push(copy_chars(a)),
                    None => names.push(item_name(expr)),
                }
                assert(names_view(names@) =~= prev + item_names(items@[i as int], col_views(cols@)));
            },
        }
        i += 1;
    }
    assert(items@.take(items@.len() as int) =~= items@);
    names
}

/// Appends the values of the columns `*` (or `t.*`) shows; says whether it showed any.
fn push_star_values(out: &mut Vec<Value>, cols: &Vec<ColRef>, row: &Vec<Value>, t: &Option<Vec<char>>) -> (found: bool)
    ensures
        vals(final(out)@)
            == vals(old(out)@) + star_values(col_views(cols@), vals(row@), match t { Some(x) => Some(x@), None => None }),
        found == (star_values(col_views(cols@), vals(row@), match t { Some(x) => Some(x@), None => None }).len() > 0),
{
    let ghost tv: Option<Seq<char>> = match t { Some(x) => Some(x@), None => None };
    let ghost start = vals(out@);
    let ghost rv = vals(row@);
    let mut found = false;
    let mut k: usize = 0;
    assert(col_views(cols@).take(0) =~= Seq::<ColView>::empty());
    assert(start + Seq::<ValueV>::empty() =~= start);
    while k < cols.len()
        invariant k <= cols@.len(), rv == vals(row@),
            vals(out@) == start + star_values(col_views(cols@).take(k as int), rv, tv),
            found == (star_values(col_views(cols@).take(k as int), rv, tv).len() > 0),
            tv == (match t { Some(x) => Some(x@), None => None::<Seq<char>> }),
        decreases cols.len() - k,
    {
        proof {
            let cv = col_views(cols@);
            assert(cv.take(k + 1).drop_last() =~= cv.take(k as int));
            assert(cv.take(k + 1).last() == cv[k as int]);
        }
        let shows = !cols[k].hidden && match t { Some(x) => chars_eq_ci(&cols[k].table, x), None => true };
        let ghost prev = out@;
        if shows {
            found = true;
            if k < row.len() { out.push(copy_value(&row[k])); } else { out.push(Value::Null); }
            assert(vals(out@) =~= vals(prev).push(if k < rv.len() { rv[k as int] } else { ValueV::Null }));
        }
        k += 1;
    }
    assert(col_views(cols@).take(cols@.len() as int) =~= col_views(cols@));
    found
}

/// The views of the precomputed window values of the items.
pub open spec fn wins_view(wins: Seq<Option<Vec<Value>>>) -> Seq<Option<Seq<ValueV>>> {
    wins.map_values(|w: Option<Vec<Value>>| match w { Some(v) => Some(vals(v@)), None => None })
}

/// The values of select item `i` on a row: `Some(Some(vs))`, `Some(None)`
/// for an error, `None` for an expression outside `core_eval`.
pub open spec fn item_values(it: SelectItem, i: int, cols: Seq<ColView>, row: Seq<ValueV>,
    group: Option<Seq<Seq<ValueV>>>, wins: Seq<Option<Seq<ValueV>>>, pos: int, fuel: nat) -> Option<Option<Seq<ValueV>>>
{
    match it {
        SelectItem::Star => Some(Some(star_values(cols, row, None))),
        SelectItem::TableStar(t) => {
            let vs = star_values(cols, row, Some(t@));
            if vs.len() > 0 { Some(Some(vs)) } else { Some(None) }
        },
        SelectItem::Item { expr, .. } => {
            if 0 <= i < wins.len() && wins[i] is Some {
                let w = wins[i].unwrap();
                Some(Some(seq![if 0 <= pos < w.len() { w[pos] } else { ValueV::Null }]))
            } else {
                match eval_in(expr, cols, row, group, fuel) {
                    Some(Some(v)) => Some(Some(seq![v])),
                    Some(None) => Some(None),
                    None => None,
                }
            }
        },
    }
}

/// The values of a select list on a row, item after item: the first error,
/// or the first expression outside `core_eval`, decides.
pub open spec fn project_spec(items: Seq<SelectItem>, cols: Seq<ColView>, row: Seq<ValueV>,
    group: Option<Seq<Seq<ValueV>>>, wins: Seq<Option<Seq<ValueV>>>, pos: int, fuel: nat) -> Option<Option<Seq<ValueV>>>
    decreases items.len(),
{
    if items.len() == 0 {
        Some(Some(Seq::empty()))
    } else {
        match project_spec(items.drop_last(), cols, row, group, wins, pos, fuel) {
            Some(Some(p)) => match item_values(items.last(), items.len() - 1, cols, row, group, wins, pos, fuel) {
                Some(Some(v)) => Some(Some(p + v)),
                other => other,
            },
            other => other,
        }
    }
}

/// The items of a select list whose values are known each have known values.
proof fn lemma_project_prefix(items: Seq<SelectItem>, cols: Seq<ColView>, row: Seq<ValueV>,
    group: Option<Seq<Seq<ValueV>>>, wins: Seq<Option<Seq<ValueV>>>, pos: int, fuel: nat, i: int)
    requires 0 <= i < items.len(), project_spec(items, cols, row, group, wins, pos, fuel) matches Some(Some(_)),
    ensures item_values(items[i], i, cols, row, group, wins, pos, fuel) matches Some(Some(_)),
    decreases items.len(),
{
    if i < items.len() - 1 {
        lemma_project_prefix(items.drop_last(), cols, row, group, wins, pos, fuel, i);
        assert(items.drop_last()[i] == items[i]);
    }
}

/// Projects one row through the select list. `wins[k]` holds the computed
/// values of item `k` when it is a window function.
pub fn project_row(db: &Db, items: &Vec<SelectItem>, cols: &Vec<ColRef>, row: &Vec<Value>,
    group: Option<&Vec<Vec<Value>>>, wins: &Vec<Option<Vec<Value>>>, pos: usize, fuel: u32) -> (r: Result<Vec<Value>>)
    ensures
        project_spec(items@, col_views(cols@), vals(row@), group_view(group), wins_view(wins@), pos as int, fuel as nat) matches Some(res) ==>
            (res matches Some(vs) ==> r matches Ok(out) && vals(out@) == vs) && (res is None ==> r is Err),
    decreases fuel, 60int,
{
    let ghost cv = col_views(cols@);
    let ghost rv = vals(row@);
    let ghost wv = wins_view(wins@);
    let ghost gv = group_view(group);
    let mut out: Vec<Value> = Vec::new();
    let mut i: usize = 0;
    assert(vals(out@) =~= Seq::<ValueV>::empty());
    assert(items@.take(0) =~= Seq::<SelectItem>::empty());
    while i < items.len()
        invariant i <= items@.len(), cv == col_views(cols@), rv == vals(row@), wv == wins_view(wins@),
            project_spec(items@.take(i as int), cv, rv, gv, wv, pos as int, fuel as nat) matches Some(x) ==> x == Some(vals(out@)), gv == group_view(group),
        decreases items.len() - i,
    {
        proof {
            assert(items@.take(i + 1).drop_last() =~= items@.take(i as int));
            assert(items@.take(i + 1).last() == items@[i as int]);
        }
        let ghost prev = vals(out@);
        match &items[i] {
            SelectItem::Star => {
                push_star_values(&mut out, cols, row, &None);
            },
            SelectItem::TableStar(t) => {
                let tt = Some(copy_chars(t));
                let found = push_star_values(&mut out, cols, row, &tt);
                if !found {
                    proof {
                        if project_spec(items@, cv, rv, gv, wv, pos as int, fuel as nat) matches Some(Some(_)) {
                            lemma_project_prefix(items@, cv, rv, gv, wv, pos as int, fuel as nat, i as int);
                        }
                    }
                    return fail(ErrorKind::Schema, "no such table in select list");
                }
            },
            SelectItem::Item { expr, .. } => {
                let w = if i < wins.len() {
                    match &wins[i] {
                        Some(vs) => if pos < vs.len() { Some(copy_value(&vs[pos])) } else { Some(Value::Null) },
                        None => None,
                    }
                } else {
                    None
                };
                proof {
                    if (i as int) < wins@.len() {
                        assert(wv[i as int] == (match wins@[i as int] { Some(v) => Some(vals(v@)), None => None::<Seq<ValueV>> }));
                    }
                }
                match w {
                    Some(v) => {
                        out.push(v);
                        assert(vals(out@) =~= prev + seq![v@]);
                    },
                    None => {
                        match eval_expr(db, expr, cols, row, group, fuel) {
                            Ok(v) => {
                                out.push(v);
                                assert(vals(out@) =~= prev + seq![v@]);
                            },
                            Err(err) => {
                                proof {
                                    if project_spec(items@, cv, rv, gv, wv, pos as int, fuel as nat) matches Some(Some(_)) {
                                        lemma_project_prefix(items@, cv, rv, gv, wv, pos as int, fuel as nat, i as int);
                                    }
                                }
                                return Err(err);
                            },
                        }
                    },
                }
            },
        }
        i += 1;
    }
    assert(items@.take(items@.len() as int) =~= items@);
    Ok(out)
}

/// Sort keys of one result row: ORDER BY terms that name output columns read
/// the output row, other terms are evaluated on the source row.
fn order_keys(db: &Db, order: &Vec<OrderItem>, names: &Vec<Vec<char>>, out_row: &Vec<Value>,
    cols: &Vec<ColRef>, row: &Vec<Value>, group: Option<&Vec<Vec<Value>>>, fuel: u32) -> (r: Result<Vec<Value>>)
    ensures
        r matches Ok(k) ==> k@.len() == order@.len(),
        order@.len() == 0 ==> (r matches Ok(k) && k@.len() == 0),
        keys_spec(order@, names_view(names@), vals(out_row@), col_views(cols@), vals(row@), group_view(group), fuel as nat) matches Some(res) ==>
            (res matches Some(ks) ==> r matches Ok(k) && vals(k@) == ks) && (res is None ==> r is Err),
    decreases fuel, 60int,
{
    let ghost nv = names_view(names@);
    let ghost ov = vals(out_row@);
    let ghost cv = col_views(cols@);
    let ghost rv = vals(row@);
    let ghost gv = group_view(group);
    let mut keys: Vec<Value> = Vec::new();
    let mut i: usize = 0;
    assert(order@.take(0) =~= Seq::<OrderItem>::empty());
    assert(vals(keys@) =~= Seq::<ValueV>::empty());
    while i < order.len()
        invariant i <= order@.len(), keys@.len() == i, nv == names_view(names@), ov == vals(out_row@),
            cv == col_views(cols@), rv == vals(row@),
            keys_spec(order@.take(i as int), nv, ov, cv, rv, gv, fuel as nat) matches Some(x) ==> x == Some(vals(keys@)), gv == group_view(group),
        decreases order.len() - i,
    {
        proof {
            assert(order@.take(i + 1).drop_last() =~= order@.take(i as int));
            assert(order@.take(i + 1).last() == order@[i as int]);
        }
        let by_output = match &order[i].expr {
            Expr::Literal(Value::Integer(_)) => output_position(&order[i].expr, names),
            Expr::Column { table: None, name } => {
                if find_column(cols, &None, name).is_some() {
                    None
                } else {
                    output_position(&order[i].expr, names)
                }
            },
            _ => None,
        };
        let ghost prev = vals(keys@);
        match by_output {
            Some(p) => {
                if p < out_row.len() { keys.push(copy_value(&out_row[p])); } else { keys.push(Value::Null); }
                assert(vals(keys@) =~= prev.push(if (p as int) < ov.len() { ov[p as int] } else { ValueV::Null }));
            },
            None => {
                match eval_expr(db, &order[i].expr, cols, row, group, fuel) {
                    Ok(v) => {
                        keys.push(v);
                        assert(vals(keys@) =~= prev.push(v@));
                    },
                    Err(err) => {
                        proof {
                            if keys_spec(order@, nv, ov, cv, rv, gv, fuel as nat) matches Some(Some(_)) {
                                lemma_keys_prefix(order@, nv, ov, cv, rv, gv, fuel as nat, i + 1);
                            }
                        }
                        return Err(err);
                    },
                }
            },
        }
        i += 1;
    }
    assert(order@.take(order@.len() as int) =~= order@);
    Ok(keys)
}

/// The terms before a point of sort keys that succeed are evaluated successfully.
proof fn lemma_keys_prefix(order: Seq<OrderItem>, names: Seq<Seq<char>>, out_row: Seq<ValueV>, cols: Seq<ColView>,
    row: Seq<ValueV>, group: Option<Seq<Seq<ValueV>>>, fuel: nat, k: int)
    requires 0 <= k <= order.len(), keys_spec(order, names, out_row, cols, row, group, fuel) matches Some(Some(_)),
    ensures keys_spec(order.take(k), names, out_row, cols, row, group, fuel) matches Some(Some(_)),
        k > 0 ==> order_key_spec(order[k - 1], names, out_row, cols, row, group, fuel) matches Some(Some(_)),
    decreases order.len(),
{
    if k < order.len() {
        lemma_keys_prefix(order.drop_last(), names, out_row, cols, row, group, fuel, k);
        assert(order.drop_last().take(k) =~= order.take(k));
        if k > 0 {
            assert(order.drop_last()[k - 1] == order[k - 1]);
        }
    } else {
        assert(order.take(k) =~= order);
    }
}

fn filter_rows(db: &Db, cond: &Expr, cols: &Vec<ColRef>, rows: Vec<Vec<Value>>, fuel: u32) -> (r: Result<Vec<Vec<Value>>>)
    ensures
        filter_spec(rows_view(rows@), *cond, col_views(cols@), fuel as nat) matches Some(res) ==>
            (res matches Some(fr) ==> r matches Ok(out) && rows_view(out@) == fr) && (res is None ==> r is Err),
    decreases fuel, 60int,
{
    let ghost rv = rows_view(rows@);
    let ghost cv = col_views(cols@);
    let mut out: Vec<Vec<Value>> = Vec::new();
    let mut i: usize = 0;
    assert(rv.take(0) =~= Seq::<Seq<ValueV>>::empty());
    assert(rows_view(out@) =~= Seq::<Seq<ValueV>>::empty());
    while i < rows.len()
        invariant i <= rows@.len(), rv == rows_view(rows@), cv == col_views(cols@),
            filter_spec(rv.take(i as int), *cond, cv, fuel as nat) matches Some(x) ==> x == Some(rows_view(out@)),
        decreases rows.len() - i,
    {
        proof {
            assert(rv.take(i + 1).drop_last() =~= rv.take(i as int));
            assert(rv.take(i + 1).last() == rv[i as int]);
            assert(rv[i as int] == vals(rows@[i as int]@));
        }
        match eval_expr(db, cond, cols, &rows[i], None, fuel) {
            Ok(v) => {
                if is_true(&v) {
                    let ghost prev = rows_view(out@);
                    let c = copy_row(&rows[i]);
                    assert(vals(c@) =~= vals(rows@[i as int]@));
                    out.push(c);
                    assert(rows_view(out@) =~= prev.push(rv[i as int]));
                }
            },
            Err(err) => {
                proof {
                    if filter_spec(rv, *cond, cv, fuel as nat) matches Some(Some(_)) {
                        lemma_filter_prefix(rv, *cond, cv, fuel as nat, i + 1);
                    }
                }
                return Err(err);
            },
        }
        i += 1;
    }
    assert(rv.take(rv.len() as int) =~= rv);
    Ok(out)
}

/// The rows before a point of a filter that succeeds are tested successfully.
proof fn lemma_filter_prefix(rows: Seq<Seq<ValueV>>, cond: Expr, cols: Seq<ColView>, fuel: nat, k: int)
    requires 0 <= k <= rows.len(), filter_spec(rows, cond, cols, fuel) matches Some(Some(_)),
    ensures filter_spec(rows.take(k), cond, cols, fuel) matches Some(Some(_)),
        k > 0 ==> core_eval(cond, cols, rows[k - 1], fuel) matches Some(Some(_)),
    decreases rows.len(),
{
    if k < rows.len() {
        lemma_filter_prefix(rows.drop_last(), cond, cols, fuel, k);
        assert(rows.drop_last().take(k) =~= rows.take(k));
        if k > 0 {
            assert(rows.drop_last()[k - 1] == rows[k - 1]);
        }
    } else {
        assert(rows.take(k) =~= rows);
    }
}

/// Groups rows by the values of the GROUP BY expressions, in order of first appearance.
/// The views of groups of rows.
pub open spec fn groups_view(gs: Seq<Vec<Vec<Value>>>) -> Seq<Seq<Seq<ValueV>>> {
    gs.map_values(|g: Vec<Vec<Value>>| rows_view(g@))
}

fn group_rows(db: &Db, by: &Vec<Expr>, cols: &Vec<ColRef>, rows: &Vec<Vec<Value>>, fuel: u32) -> (r: Result<Vec<Vec<Vec<Value>>>>)
    ensures
        group_keys_spec(rows_view(rows@), by@, col_views(cols@), fuel as nat) matches Some(res) ==>
            (res matches Some(ks) ==> r matches Ok(gs) && groups_view(gs@) == group_by_keys(rows_view(rows@), ks).1)
            && (res is None ==> r is Err),
    decreases fuel, 60int,
{
    let ghost rv = rows_view(rows@);
    let ghost cv = col_views(cols@);
    let ghost f = fuel as nat;
    let ghost mut kk: Seq<Seq<ValueV>> = Seq::empty();
    let mut keys: Vec<Vec<Value>> = Vec::new();
    let mut groups: Vec<Vec<Vec<Value>>> = Vec::new();
    let mut i: usize = 0;
    assert(rv.take(0) =~= Seq::<Seq<ValueV>>::empty());
    assert(rows_view(keys@) =~= Seq::<Seq<ValueV>>::empty());
    assert(groups_view(groups@) =~= Seq::<Seq<Seq<ValueV>>>::empty());
    while i < rows.len()
        invariant i <= rows@.len(), keys@.len() == groups@.len(), rv == rows_view(rows@), cv == col_views(cols@),
            f == fuel as nat, kk.len() == i,
            group_keys_spec(rv.take(i as int), by@, cv, f) matches Some(x) ==>
                (x == Some(kk) && (rows_view(keys@), groups_view(groups@)) == group_by_keys(rv.take(i as int), kk)),
        decreases rows.len() - i,
    {
        proof {
            assert(rv.take(i + 1).drop_last() =~= rv.take(i as int));
            assert(rv.take(i + 1).last() == rv[i as int]);
            assert(rv[i as int] == vals(rows@[i as int]@));
        }
        let key = match eval_args(db, by, cols, &rows[i], None, fuel) {
            Ok(k) => k,
            Err(err) => {
                proof {
                    if group_keys_spec(rv, by@, cv, f) matches Some(Some(_)) {
                        lemma_group_keys_prefix(rv, by@, cv, f, i + 1);
                    }
                }
                return Err(err);
            },
        };
        let ghost kv = vals(key@);
        let mut g: usize = 0;
        let mut found = false;
        while g < keys.len() && !found
            invariant g <= keys@.len(), kv == vals(key@),
                found ==> g < keys@.len() && vals(keys@[g as int]@) == kv,
                forall|j: int| 0 <= j < g ==> vals(#[trigger] keys@[j]@) != kv,
            decreases keys.len() - g + (if found { 0int } else { 1int }),
        {
            if rows_equal(&keys[g], &key) {
                found = true;
            } else {
                g += 1;
            }
        }
        let ghost ks = rows_view(keys@);
        let ghost gsv = groups_view(groups@);
        proof {
            if found {
                assert(ks[g as int] == kv);
                assert forall|j: int| 0 <= j < g implies ks[j] != kv by {
                    assert(ks[j] == vals(keys@[j]@));
                }
                lemma_key_pos_found(ks, kv, g as int);
            } else {
                assert forall|j: int| 0 <= j < ks.len() implies ks[j] != kv by {
                    assert(ks[j] == vals(keys@[j]@));
                }
                lemma_key_pos_absent(ks, kv, 0);
            }
        }
        let c = copy_row(&rows[i]);
        assert(vals(c@) =~= rv[i as int]);
        if found {
            let mut grp = groups.remove(g);
            let ghost before = rows_view(grp@);
            grp.push(c);
            assert(rows_view(grp@) =~= before.push(rv[i as int]));
            groups.insert(g, grp);
            assert(groups_view(groups@) =~= gsv.update(g as int, gsv[g as int].push(rv[i as int])));
        } else {
            keys.push(key);
            assert(rows_view(keys@) =~= ks.push(kv));
            let mut grp: Vec<Vec<Value>> = Vec::new();
            grp.push(c);
            assert(rows_view(grp@) =~= seq![rv[i as int]]);
            groups.push(grp);
            assert(groups_view(groups@) =~= gsv.push(seq![rv[i as int]]));
        }
        proof {
            let nk = kk.push(kv);
            assert(nk.drop_last() =~= kk);
            kk = nk;
        }
        i += 1;
    }
    assert(rv.take(rv.len() as int) =~= rv);
    Ok(groups)
}

/// The rows before a point of a grouping that succeeds have keys.
proof fn lemma_group_keys_prefix(rows: Seq<Seq<ValueV>>, by: Seq<Expr>, cols: Seq<ColView>, fuel: nat, k: int)
    requires 0 <= k <= rows.len(), group_keys_spec(rows, by, cols, fuel) matches Some(Some(_)),
    ensures group_keys_spec(rows.take(k), by, cols, fuel) matches Some(Some(_)),
        k > 0 ==> core_eval_list(by, cols, rows[k - 1], fuel) matches Some(Some(_)),
    decreases rows.len(),
{
    if k < rows.len() {
        lemma_group_keys_prefix(rows.drop_last(), by, cols, fuel, k);
        assert(rows.drop_last().take(k) =~= rows.take(k));
        if k > 0 {
            assert(rows.drop_last()[k - 1] == rows[k - 1]);
        }
    } else {
        assert(rows.take(k) =~= rows);
    }
}

/// A key found at `g`, and at no earlier place, is where `key_pos` finds it.
proof fn lemma_key_pos_found(ks: Seq<Seq<ValueV>>, k: Seq<ValueV>, g: int)
    requires 0 <= g < ks.len(), ks[g] == k, forall|j: int| 0 <= j < g ==> ks[j] != k,
    ensures key_pos(ks, k, 0) == Some(g),
{
    lemma_key_pos_skip(ks, k, 0, g);
}

/// Keys that differ from `k` are passed over.
proof fn lemma_key_pos_skip(ks: Seq<Seq<ValueV>>, k: Seq<ValueV>, j: int, g: int)
    requires 0 <= j <= g < ks.len(), ks[g] == k, forall|x: int| j <= x < g ==> ks[x] != k,
    ensures key_pos(ks, k, j) == Some(g),
    decreases g - j,
{
    if j < g {
        lemma_key_pos_skip(ks, k, j + 1, g);
    }
}

/// A key that no place holds is not found.
proof fn lemma_key_pos_absent(ks: Seq<Seq<ValueV>>, k: Seq<ValueV>, j: int)
    requires 0 <= j, forall|x: int| 0 <= x < ks.len() ==> ks[x] != k,
    ensures key_pos(ks, k, j) is None,
    decreases ks.len() - j,
{
    if j < ks.len() {
        lemma_key_pos_absent(ks, k, j + 1);
    }
}

fn select_has_aggregate(sel: &Select) -> (r: bool)
    ensures r == select_aggregates(*sel),
{
    if sel.group_by.len() > 0 {
        return true;
    }
    match &sel.having {
        Some(_) => { return true; },
        None => {},
    }
    let mut i: usize = 0;
    while i < sel.items.len()
        invariant i <= sel.items@.len(), sel.group_by@.len() == 0, sel.having is None,
            forall|k: int| 0 <= k < i ==> !(#[trigger] sel.items@[k] matches SelectItem::Item { expr, .. } && aggregate_in(expr, 1000)),
        decreases sel.items.len() - i,
    {
        match &sel.items[i] {
            SelectItem::Item { expr, .. } => {
                if has_aggregate(expr, 1000) {
                    return true;
                }
            },
            _ => {},
        }
        i += 1;
    }
    false
}

/// Runs one SELECT; returns its output and, for each output row, the values
/// of the ORDER BY terms.
/// The outputs of the groups of a grouping select, as [`group_outputs`] says.
fn group_results(db: &Db, sel: &Select, order: &Vec<OrderItem>, names: &Vec<Vec<char>>, cols: &Vec<ColRef>,
    groups: &Vec<Vec<Vec<Value>>>, fuel: u32) -> (r: Result<(Vec<Vec<Value>>, Vec<Vec<Value>>)>)
    ensures
        group_outputs(groups_view(groups@), sel.items@, sel.having, order@, names_view(names@), col_views(cols@), fuel as nat)
            matches Some(res) ==>
            (res matches Some(pk) ==> (r matches Ok((o, k)) && rows_view(o@) == pk.0 && rows_view(k@) == pk.1))
            && (res is None ==> r is Err),
        r matches Ok((o, k)) ==> o@.len() == k@.len()
            && forall|x: int| 0 <= x < k@.len() ==> (#[trigger] k@[x])@.len() == order@.len(),
    decreases fuel, 70int,
{
    let ghost gsv = groups_view(groups@);
    let ghost nv = names_view(names@);
    let ghost cv = col_views(cols@);
    let ghost f = fuel as nat;
    let ghost want = group_outputs(gsv, sel.items@, sel.having, order@, nv, cv, f) matches Some(Some(_));
    let no_wins: Vec<Option<Vec<Value>>> = Vec::new();
    assert(wins_view(no_wins@) =~= Seq::<Option<Seq<ValueV>>>::empty());
    let mut out_rows: Vec<Vec<Value>> = Vec::new();
    let mut keys: Vec<Vec<Value>> = Vec::new();
    assert(rows_view(out_rows@) =~= Seq::<Seq<ValueV>>::empty());
    assert(rows_view(keys@) =~= Seq::<Seq<ValueV>>::empty());
    let mut g: usize = 0;
    assert(gsv.take(0) =~= Seq::<Seq<Seq<ValueV>>>::empty());
    while g < groups.len()
        invariant g <= groups@.len(), out_rows@.len() == keys@.len(),
            gsv == groups_view(groups@), cv == col_views(cols@), nv == names_view(names@), f == fuel as nat,
            wins_view(no_wins@) == Seq::<Option<Seq<ValueV>>>::empty(),
            forall|x: int| 0 <= x < keys@.len() ==> (#[trigger] keys@[x])@.len() == order@.len(),
            group_outputs(gsv.take(g as int), sel.items@, sel.having, order@, nv, cv, f) matches Some(x)
                ==> x == Some((rows_view(out_rows@), rows_view(keys@))),
            want == (group_outputs(gsv, sel.items@, sel.having, order@, nv, cv, f) matches Some(Some(_))),
        decreases groups.len() - g,
    {
        proof {
            assert(gsv.take(g + 1).drop_last() =~= gsv.take(g as int));
            assert(gsv.take(g + 1).last() == gsv[g as int]);
            assert(gsv[g as int] == rows_view(groups@[g as int]@));
        }
        let grp = &groups[g];
        let ghost gv = gsv[g as int];
        let rep = if grp.len() > 0 { copy_row(&grp[0]) } else { null_row(cols.len()) };
        assert(vals(rep@) =~= group_rep(gv, cv.len()));
        let keep = match &sel.having {
            Some(h) => {
                match eval_expr(db, h, cols, &rep, Some(grp), fuel) {
                    Ok(v) => is_true(&v),
                    Err(err) => {
                        proof {
                            if want {
                                lemma_group_outputs_prefix(gsv, sel.items@, sel.having, order@, nv, cv, f, g + 1);
                            }
                        }
                        return Err(err);
                    },
                }
            },
            None => true,
        };
        if keep {
            let o = match project_row(db, &sel.items, cols, &rep, Some(grp), &no_wins, 0, fuel) {
                Ok(o) => o,
                Err(err) => {
                    proof {
                        if want {
                            lemma_group_outputs_prefix(gsv, sel.items@, sel.having, order@, nv, cv, f, g + 1);
                        }
                    }
                    return Err(err);
                },
            };
            let k = match order_keys(db, order, names, &o, cols, &rep, Some(grp), fuel) {
                Ok(k) => k,
                Err(err) => {
                    proof {
                        if want {
                            lemma_group_outputs_prefix(gsv, sel.items@, sel.having, order@, nv, cv, f, g + 1);
                        }
                    }
                    return Err(err);
                },
            };
            let ghost prev = rows_view(out_rows@);
            let ghost prevk = rows_view(keys@);
            out_rows.push(o);
            assert(rows_view(out_rows@) =~= prev.push(vals(o@)));
            keys.push(k);
            assert(rows_view(keys@) =~= prevk.push(vals(k@)));
        }
        g += 1;
    }
    assert(gsv.take(gsv.len() as int) =~= gsv);
    Ok((out_rows, keys))
}

/// The projections and sort keys of the rows of a select without grouping,
/// as [`project_keyed`] says when no item is a window function.
fn row_results(db: &Db, items: &Vec<SelectItem>, order: &Vec<OrderItem>, names: &Vec<Vec<char>>, cols: &Vec<ColRef>,
    rows: &Vec<Vec<Value>>, wins: &Vec<Option<Vec<Value>>>, fuel: u32) -> (r: Result<(Vec<Vec<Value>>, Vec<Vec<Value>>)>)
    requires wins@.len() == items@.len(),
    ensures
        wins_view(wins@) == no_wins(items@.len()) ==> (project_keyed(rows_view(rows@), items@, order@, names_view(names@),
            col_views(cols@), fuel as nat) matches Some(res) ==>
            (res matches Some(pk) ==> (r matches Ok((o, k)) && rows_view(o@) == pk.0 && rows_view(k@) == pk.1))
            && (res is None ==> r is Err)),
        r matches Ok((o, k)) ==> o@.len() == k@.len()
            && forall|x: int| 0 <= x < k@.len() ==> (#[trigger] k@[x])@.len() == order@.len(),
    decreases fuel, 70int,
{
    let ghost fr = rows_view(rows@);
    let ghost nv = names_view(names@);
    let ghost cv = col_views(cols@);
    let ghost f = fuel as nat;
    let ghost plain = wins_view(wins@) == no_wins(items@.len());
    let ghost want = plain && project_keyed(fr, items@, order@, nv, cv, f) matches Some(Some(_));
    let mut out_rows: Vec<Vec<Value>> = Vec::new();
    let mut keys: Vec<Vec<Value>> = Vec::new();
    assert(rows_view(out_rows@) =~= Seq::<Seq<ValueV>>::empty());
    assert(rows_view(keys@) =~= Seq::<Seq<ValueV>>::empty());
    let mut r: usize = 0;
    assert(fr.take(0) =~= Seq::<Seq<ValueV>>::empty());
    while r < rows.len()
        invariant r <= rows@.len(), out_rows@.len() == keys@.len(), fr == rows_view(rows@), cv == col_views(cols@),
            nv == names_view(names@), f == fuel as nat, wins@.len() == items@.len(),
            plain == (wins_view(wins@) == no_wins(items@.len())),
            want == (plain && project_keyed(fr, items@, order@, nv, cv, f) matches Some(Some(_))),
            plain ==> (project_keyed(fr.take(r as int), items@, order@, nv, cv, f) matches Some(x)
                ==> x == Some((rows_view(out_rows@), rows_view(keys@)))),
            forall|x: int| 0 <= x < keys@.len() ==> (#[trigger] keys@[x])@.len() == order@.len(),
        decreases rows.len() - r,
    {
        proof {
            assert(fr.take(r + 1).drop_last() =~= fr.take(r as int));
            assert(fr.take(r + 1).last() == fr[r as int]);
            assert(fr[r as int] == vals(rows@[r as int]@));
        }
        let o = match project_row(db, items, cols, &rows[r], None, wins, r, fuel) {
            Ok(o) => o,
            Err(err) => {
                proof {
                    if want {
                        lemma_project_keyed_prefix(fr, items@, order@, nv, cv, f, r + 1);
                    }
                }
                return Err(err);
            },
        };
        let k = match order_keys(db, order, names, &o, cols, &rows[r], None, fuel) {
            Ok(k) => k,
            Err(err) => {
                proof {
                    if want {
                        lemma_project_keyed_prefix(fr, items@, order@, nv, cv, f, r + 1);
                    }
                }
                return Err(err);
            },
        };
        let ghost prev = rows_view(out_rows@);
        let ghost prevk = rows_view(keys@);
        out_rows.push(o);
        assert(rows_view(out_rows@) =~= prev.push(vals(o@)));
        keys.push(k);
        assert(rows_view(keys@) =~= prevk.push(vals(k@)));
        r += 1;
    }
    assert(fr.take(fr.len() as int) =~= fr);
    Ok((out_rows, keys))
}

/// Each row once, the first time it comes, with its keys.
fn distinct_results(rows: Vec<Vec<Value>>, keys: Vec<Vec<Value>>, order: &Vec<OrderItem>) -> (r: (Vec<Vec<Value>>, Vec<Vec<Value>>))
    requires
        rows@.len() == keys@.len(),
        forall|x: int| 0 <= x < keys@.len() ==> (#[trigger] keys@[x])@.len() == order@.len(),
    ensures
        (rows_view(r.0@), rows_view(r.1@)) == distinct_keyed(rows_view(rows@), rows_view(keys@)),
        r.0@.len() == r.1@.len(),
        forall|x: int| 0 <= x < r.1@.len() ==> (#[trigger] r.1@[x])@.len() == order@.len(),
{
    let ghost projected = rows_view(rows@);
    let ghost keyv = rows_view(keys@);
    let mut drows: Vec<Vec<Value>> = Vec::new();
    let mut dkeys: Vec<Vec<Value>> = Vec::new();
    let mut i: usize = 0;
    assert(rows_view(drows@) =~= Seq::<Seq<ValueV>>::empty());
    assert(rows_view(dkeys@) =~= Seq::<Seq<ValueV>>::empty());
    assert(projected.take(0) =~= Seq::<Seq<ValueV>>::empty());
    assert(keyv.take(0) =~= Seq::<Seq<ValueV>>::empty());
    while i < rows.len()
        invariant i <= rows@.len(), rows@.len() == keys@.len(), drows@.len() == dkeys@.len(),
            projected == rows_view(rows@), keyv == rows_view(keys@),
            (rows_view(drows@), rows_view(dkeys@)) == distinct_keyed(projected.take(i as int), keyv.take(i as int)),
            forall|x: int| 0 <= x < keys@.len() ==> (#[trigger] keys@[x])@.len() == order@.len(),
            forall|x: int| 0 <= x < dkeys@.len() ==> (#[trigger] dkeys@[x])@.len() == order@.len(),
        decreases rows.len() - i,
    {
        proof {
            assert(projected.take(i + 1).drop_last() =~= projected.take(i as int));
            assert(projected.take(i + 1).last() == projected[i as int]);
            assert(projected[i as int] == vals(rows@[i as int]@));
            assert(keyv.take(i + 1).drop_last() =~= keyv.take(i as int));
            assert(keyv.take(i + 1).last() == keyv[i as int]);
            assert(keyv[i as int] == vals(keys@[i as int]@));
        }
        if !contains_view(&drows, &rows[i]) {
            let ghost prev = rows_view(drows@);
            let ghost prevk = rows_view(dkeys@);
            let c = copy_row(&rows[i]);
            assert(vals(c@) =~= vals(rows@[i as int]@));
            drows.push(c);
            assert(rows_view(drows@) =~= prev.push(projected[i as int]));
            let ck = copy_row(&keys[i]);
            assert(vals(ck@) =~= vals(keys@[i as int]@));
            dkeys.push(ck);
            assert(rows_view(dkeys@) =~= prevk.push(keyv[i as int]));
        }
        i += 1;
    }
    assert(projected.take(projected.len() as int) =~= projected);
    assert(keyv.take(keyv.len() as int) =~= keyv);
    (drows, dkeys)
}

#[verifier::spinoff_prover]
fn exec_select(db: &Db, sel: &Select, order: &Vec<OrderItem>, outer: Option<(&Vec<ColRef>, &Vec<Value>)>, fuel: u32)
    -> (r: Result<(Output, Vec<Vec<Value>>)>)
    ensures
        outer is None ==> (select_keyed(*db, *sel, order@, fuel as nat) matches Some(res) ==>
            (res matches Some(pk) ==> (r matches Ok((out, keys)) && rows_view(out.rows@) == pk.0 && rows_view(keys@) == pk.1))
            && (res is None ==> r is Err)),
        outer is None ==> (from_list_spec(*db, sel.from@, fuel as nat) matches Some(Some(rel)) ==>
            (r matches Ok((out, _)) ==> names_view(out.names@) == output_names_spec(sel.items@, rel.0))),
        r matches Ok((out, keys)) ==> keys@.len() == out.rows@.len()
            && forall|x: int| 0 <= x < keys@.len() ==> (#[trigger] keys@[x])@.len() == order@.len(),
    decreases fuel, 80int,
{
    let ghost f = fuel as nat;
    let base = eval_from_list(db, &sel.from, outer, fuel)?;
    let ghost rel = rel_view(base);
    let mut cols = base.cols;
    let mut rows = base.rows;
    match outer {
        Some((ocols, orow)) => {
            let mut k: usize = 0;
            while k < ocols.len()
                invariant k <= ocols@.len(),
                decreases ocols.len() - k,
            {
                let mut c = copy_colref(&ocols[k]);
                c.hidden = true;
                cols.push(c);
                k += 1;
            }
            let mut widened: Vec<Vec<Value>> = Vec::new();
            let mut i: usize = 0;
            while i < rows.len()
                invariant i <= rows@.len(),
                decreases rows.len() - i,
            {
                widened.push(concat_rows(&rows[i], orow));
                i += 1;
            }
            rows = widened;
        },
        None => {},
    }
    let ghost cv = col_views(cols@);
    let ghost unfiltered = rows_view(rows@);
    if let Some(w) = &sel.where_clause {
        rows = filter_rows(db, w, &cols, rows, fuel)?;
    }
    let ghost fr = rows_view(rows@);
    let names = output_names(&sel.items, &cols);
    let ghost nv = names_view(names@);
    let ghost core = select_core(*sel, fr, order@, nv, cv, f);
    let ghost known = outer is None && !has_window_item(sel.items@) && select_keyed(*db, *sel, order@, f) is Some;
    proof {
        if outer is None && from_list_spec(*db, sel.from@, f) matches Some(Some(_)) {
            assert(rel == from_list_spec(*db, sel.from@, f).unwrap().unwrap());
            assert(cv == rel.0 && unfiltered == rel.1);
            match &sel.where_clause {
                Some(w) => {
                    if filter_spec(rel.1, *w, rel.0, f) matches Some(Some(_)) {
                        assert(fr == filter_spec(rel.1, *w, rel.0, f).unwrap().unwrap());
                    }
                },
                None => { assert(fr == rel.1); },
            }
        }
        if known {
            assert(select_keyed(*db, *sel, order@, f) == (match core {
                Some(Some(pk)) => Some(Some(if sel.distinct { distinct_keyed(pk.0, pk.1) } else { pk })),
                Some(None) => Some(None),
                None => None,
            }));
        }
    }
    let (out_rows, keys) = if select_has_aggregate(sel) {
        let groups: Vec<Vec<Vec<Value>>> = if sel.group_by.len() > 0 {
            group_rows(db, &sel.group_by, &cols, &rows, fuel)?
        } else {
            let mut one: Vec<Vec<Vec<Value>>> = Vec::new();
            one.push(rows);
            assert(groups_view(one@) =~= seq![fr]);
            one
        };
        proof {
            if select_groups(*sel, fr, cv, f) matches Some(Some(_)) {
                assert(select_groups(*sel, fr, cv, f).unwrap().unwrap() == groups_view(groups@));
            }
        }
        group_results(db, sel, order, &names, &cols, &groups, fuel)?
    } else {
        let mut wins: Vec<Option<Vec<Value>>> = Vec::new();
        let mut i: usize = 0;
        assert(wins_view(wins@) =~= no_wins(0));
        while i < sel.items.len()
            invariant i <= sel.items@.len(), wins@.len() == i,
                !has_window_item(sel.items@) ==> wins_view(wins@) == no_wins(i as nat),
            decreases sel.items.len() - i,
        {
            match &sel.items[i] {
                SelectItem::Item { expr: Expr::Window { name, args, partition_by, order_by }, .. } => {
                    let vs = compute_window(db, name, args, partition_by, order_by, &cols, &rows, fuel)?;
                    wins.push(Some(vs));
                },
                _ => {
                    let ghost prev = wins@;
                    wins.push(None);
                    assert(wins_view(wins@) =~= wins_view(prev).push(None));
                    assert(no_wins((i + 1) as nat) =~= no_wins(i as nat).push(None));
                },
            }
            i += 1;
        }
        row_results(db, &sel.items, order, &names, &cols, &rows, &wins, fuel)?
    };
    let ghost pk = (rows_view(out_rows@), rows_view(keys@));
    proof {
        if known && core matches Some(Some(_)) {
            assert(core == Some(Some(pk)));
        }
    }
    if sel.distinct {
        let (drows, dkeys) = distinct_results(out_rows, keys, order);
        Ok((Output { names, rows: drows }, dkeys))
    } else {
        Ok((Output { names, rows: out_rows }, keys))
    }
}
/// The groups before a point of grouped outputs that succeed are output successfully.
proof fn lemma_group_outputs_prefix(gs: Seq<Seq<Seq<ValueV>>>, items: Seq<SelectItem>, having: Option<Expr>,
    order: Seq<OrderItem>, names: Seq<Seq<char>>, cols: Seq<ColView>, fuel: nat, k: int)
    requires 0 <= k <= gs.len(), group_outputs(gs, items, having, order, names, cols, fuel) matches Some(Some(_)),
    ensures group_outputs(gs.take(k), items, having, order, names, cols, fuel) matches Some(Some(_)),
        k > 0 ==> group_output(gs[k - 1], items, having, order, names, cols, fuel) matches Some(Some(_)),
    decreases gs.len(),
{
    if k < gs.len() {
        lemma_group_outputs_prefix(gs.drop_last(), items, having, order, names, cols, fuel, k);
        assert(gs.drop_last().take(k) =~= gs.take(k));
        if k > 0 {
            assert(gs.drop_last()[k - 1] == gs[k - 1]);
        }
    } else {
        assert(gs.take(k) =~= gs);
    }
}

/// The rows before a point of a keyed projection that succeeds are projected successfully.
proof fn lemma_project_keyed_prefix(rows: Seq<Seq<ValueV>>, items: Seq<SelectItem>, order: Seq<OrderItem>,
    names: Seq<Seq<char>>, cols: Seq<ColView>, fuel: nat, k: int)
    requires 0 <= k <= rows.len(), project_keyed(rows, items, order, names, cols, fuel) matches Some(Some(_)),
    ensures project_keyed(rows.take(k), items, order, names, cols, fuel) matches Some(Some(_)),
        k > 0 ==> (project_spec(items, cols, rows[k - 1], None, no_wins(items.len()), k - 1, fuel) matches Some(Some(o))
            && keys_spec(order, names, o, cols, rows[k - 1], None, fuel) matches Some(Some(_))),
    decreases rows.len(),
{
    if k < rows.len() {
        lemma_project_keyed_prefix(rows.drop_last(), items, order, names, cols, fuel, k);
        assert(rows.drop_last().take(k) =~= rows.take(k));
        if k > 0 {
            assert(rows.drop_last()[k - 1] == rows[k - 1]);
        }
    } else {
        assert(rows.take(k) =~= rows);
    }
}


/// The cross product of the FROM items; one empty row when there are none.
fn eval_from_list(db: &Db, from: &Vec<FromItem>, outer: Option<(&Vec<ColRef>, &Vec<Value>)>, fuel: u32) -> (r: Result<Rel>)
    ensures
        from_list_spec(*db, from@, fuel as nat) matches Some(res) ==>
            (res matches Some(rel) ==> r matches Ok(x) && rel_view(x) == rel) && (res is None ==> r is Err),
    decreases fuel, 70int,
{
    let mut cols: Vec<ColRef> = Vec::new();
    let mut rows: Vec<Vec<Value>> = Vec::new();
    rows.push(Vec::new());
    let mut i: usize = 0;
    proof {
        assert(from@.take(0) =~= Seq::<FromItem>::empty());
        assert(col_views(cols@) =~= Seq::<ColView>::empty());
        assert(vals(rows@[0]@) =~= Seq::<ValueV>::empty());
        assert(rows_view(rows@) =~= seq![Seq::<ValueV>::empty()]);
    }
    while i < from.len()
        invariant i <= from@.len(),
            from_list_spec(*db, from@.take(i as int), fuel as nat) matches Some(x) ==> x == Some((col_views(cols@), rows_view(rows@))),
        decreases from.len() - i,
    {
        proof {
            assert(from@.take(i + 1).drop_last() =~= from@.take(i as int));
            assert(from@.take(i + 1).last() == from@[i as int]);
        }
        let r = match eval_from_item(db, &from[i], outer, fuel) {
            Ok(x) => x,
            Err(err) => {
                proof {
                    if from_list_spec(*db, from@, fuel as nat) matches Some(Some(_)) {
                        lemma_from_list_prefix(*db, from@, fuel as nat, i + 1);
                    }
                }
                return Err(err);
            },
        };
        let ghost xs = rows_view(rows@);
        let ghost ys = rows_view(r.rows@);
        let mut next: Vec<Vec<Value>> = Vec::new();
        let mut a: usize = 0;
        assert(xs.take(0) =~= Seq::<Seq<ValueV>>::empty());
        assert(rows_view(next@) =~= cross(xs.take(0), ys));
        while a < rows.len()
            invariant a <= rows@.len(), xs == rows_view(rows@), ys == rows_view(r.rows@),
                rows_view(next@) == cross(xs.take(a as int), ys),
            decreases rows.len() - a,
        {
            let ghost xa = xs[a as int];
            assert(xa == vals(rows@[a as int]@));
            let ghost base = rows_view(next@);
            let mut b: usize = 0;
            assert(base + prefix_all(xa, ys.take(0)) =~= base);
            while b < r.rows.len()
                invariant b <= r.rows@.len(), a < rows@.len(), xs == rows_view(rows@), ys == rows_view(r.rows@),
                    xa == xs[a as int], xa == vals(rows@[a as int]@),
                    rows_view(next@) == base + prefix_all(xa, ys.take(b as int)),
                decreases r.rows.len() - b,
            {
                let ghost prev = rows_view(next@);
                let c = concat_rows(&rows[a], &r.rows[b]);
                next.push(c);
                assert(ys[b as int] == vals(r.rows@[b as int]@));
                assert(rows_view(next@) =~= prev.push(xa + ys[b as int]));
                assert(prefix_all(xa, ys.take(b + 1)) =~= prefix_all(xa, ys.take(b as int)).push(xa + ys[b as int]));
                b += 1;
            }
            proof {
                assert(ys.take(ys.len() as int) =~= ys);
                assert(xs.take(a + 1).drop_last() =~= xs.take(a as int));
                assert(xs.take(a + 1).last() == xa);
            }
            a += 1;
        }
        assert(xs.take(xs.len() as int) =~= xs);
        let ghost cbefore = col_views(cols@);
        let mut k: usize = 0;
        assert(cbefore + col_views(r.cols@.take(0)) =~= cbefore);
        while k < r.cols.len()
            invariant k <= r.cols@.len(), col_views(cols@) == cbefore + col_views(r.cols@.take(k as int)),
            decreases r.cols.len() - k,
        {
            let ghost prev = col_views(cols@);
            let c = copy_colref(&r.cols[k]);
            cols.push(c);
            assert(col_views(cols@) =~= prev.push((c.table@, c.name@, c.hidden)));
            assert(col_views(r.cols@.take(k + 1)) =~= col_views(r.cols@.take(k as int)).push(
                (r.cols@[k as int].table@, r.cols@[k as int].name@, r.cols@[k as int].hidden)));
            k += 1;
        }
        assert(r.cols@.take(r.cols@.len() as int) =~= r.cols@);
        rows = next;
        i += 1;
    }
    assert(from@.take(from@.len() as int) =~= from@);
    Ok(Rel { cols, rows })
}

/// The items before a point of a FROM list that succeeds succeed.
proof fn lemma_from_list_prefix(db: Db, from: Seq<FromItem>, fuel: nat, k: int)
    requires 0 <= k <= from.len(), from_list_spec(db, from, fuel) matches Some(Some(_)),
    ensures from_list_spec(db, from.take(k), fuel) matches Some(Some(_)),
        k > 0 ==> from_spec(db, from[k - 1], fuel) matches Some(Some(_)),
    decreases from.len(),
{
    if k < from.len() {
        lemma_from_list_prefix(db, from.drop_last(), fuel, k);
        assert(from.drop_last().take(k) =~= from.take(k));
        if k > 0 {
            assert(from.drop_last()[k - 1] == from[k - 1]);
        }
    } else {
        assert(from.take(k) =~= from);
    }
}

fn rel_from_output(out: Output, table: &Vec<char>) -> (r: Rel)
    ensures r.rows@ == out.rows@, r.cols@.len() == out.names@.len(),
        forall|i: int| 0 <= i < r.cols@.len() ==> (#[trigger] r.cols@[i]).table@ == table@ && r.cols@[i].name@ == out.names@[i]@
            && !r.cols@[i].hidden,
{
    let mut cols: Vec<ColRef> = Vec::new();
    let mut i: usize = 0;
    while i < out.names.len()
        invariant i <= out.names@.len(), cols@.len() == i,
            forall|k: int| 0 <= k < i ==> (#[trigger] cols@[k]).table@ == table@ && cols@[k].name@ == out.names@[k]@
                && !cols@[k].hidden,
        decreases out.names.len() - i,
    {
        cols.push(ColRef { table: copy_chars(table), name: copy_chars(&out.names[i]), hidden: false });
        i += 1;
    }
    Rel { cols, rows: out.rows }
}

/// The first table from `start` on with the name is the one a search found.
pub proof fn lemma_table_from(tables: Seq<Table>, name: Seq<char>, start: int, found: Option<int>)
    requires
        0 <= start <= tables.len(),
        found matches Some(x) ==> start <= x < tables.len() && same_name(tables[x].name@, name),
        forall|k: int| start <= k < tables.len() && (found matches Some(x) ==> k < x) ==> !same_name(#[trigger] tables[k].name@, name),
    ensures table_from(tables, name, start) == found,
    decreases tables.len() - start,
{
    if start < tables.len() {
        if found != Some(start) {
            lemma_table_from(tables, name, start + 1, found);
        }
    }
}

/// The columns of a table as expressions see them: its columns, then the hidden rowid.
pub fn table_colrefs(t: &Table, alias: &Vec<char>) -> (r: Vec<ColRef>)
    ensures r@.len() == t.columns@.len() + 1, col_views(r@) == table_cols_view(*t, alias@),
{
    let mut cols: Vec<ColRef> = Vec::new();
    let mut c: usize = 0;
    while c < t.columns.len()
        invariant c <= t.columns@.len(), cols@.len() == c,
            forall|k: int| 0 <= k < c ==> (#[trigger] cols@[k]).table@ == alias@ && cols@[k].name@ == t.columns@[k].name@
                && !cols@[k].hidden,
        decreases t.columns.len() - c,
    {
        cols.push(ColRef { table: copy_chars(alias), name: copy_chars(&t.columns[c].name), hidden: false });
        c += 1;
    }
    let rowid = str_chars("rowid");
    cols.push(ColRef { table: copy_chars(alias), name: rowid, hidden: true });
    assert forall|k: int| 0 <= k < cols@.len() implies #[trigger] col_views(cols@)[k] == table_cols_view(*t, alias@)[k] by {
        if k < t.columns@.len() {
            assert(col_views(cols@)[k] == (cols@[k].table@, cols@[k].name@, cols@[k].hidden));
        }
    }
    assert(col_views(cols@) =~= table_cols_view(*t, alias@));
    cols
}

/// A stored row followed by its rowid.
pub fn row_with_rowid(r: &Row) -> (out: Vec<Value>)
    ensures out@.len() == r.values@.len() + 1, vals(out@) == scan_row(*r),
{
    let mut v = copy_row(&r.values);
    v.push(Value::Integer(r.rowid));
    assert(vals(v@) =~= scan_row(*r));
    v
}


/// Rows of a table visible under its row-level security policies: with
/// security enabled, a row is visible when some policy of the table holds on it.
fn scan_table(db: &Db, ti: usize, alias: &Vec<char>, fuel: u32) -> (r: Result<Rel>)
    requires ti < db.tables@.len(),
    ensures
        r matches Ok(rel) ==> col_views(rel.cols@) == table_cols_view(db.tables@[ti as int], alias@),
        scan_rows(db.tables@[ti as int], db.policies@, table_cols_view(db.tables@[ti as int], alias@),
            db.tables@[ti as int].rows@, fuel as nat) matches Some(res) ==>
            (res matches Some(rs) ==> r matches Ok(rel) && rows_view(rel.rows@) == rs) && (res is None ==> r is Err),
    decreases fuel, 55int,
{
    let t = &db.tables[ti];
    let cols = table_colrefs(t, alias);
    let ghost cv = table_cols_view(*t, alias@);
    let ghost pols = db.policies@;
    let mut rows: Vec<Vec<Value>> = Vec::new();
    let mut i: usize = 0;
    assert(t.rows@.take(0) =~= Seq::<Row>::empty());
    assert(rows_view(rows@) =~= Seq::<Seq<ValueV>>::empty());
    while i < t.rows.len()
        invariant i <= t.rows@.len(), ti < db.tables@.len(), t == &db.tables[ti as int], cv == col_views(cols@),
            cv == table_cols_view(*t, alias@), pols == db.policies@,
            scan_rows(*t, pols, cv, t.rows@.take(i as int), fuel as nat) matches Some(x) ==> x == Some(rows_view(rows@)),
        decreases t.rows.len() - i,
    {
        proof {
            assert(t.rows@.take(i + 1).drop_last() =~= t.rows@.take(i as int));
            assert(t.rows@.take(i + 1).last() == t.rows@[i as int]);
        }
        let mut r = copy_row(&t.rows[i].values);
        r.push(Value::Integer(t.rows[i].rowid));
        let ghost rv = vals(r@);
        assert(rv =~= scan_row(t.rows@[i as int]));
        let visible = if t.row_security {
            let mut ok = false;
            let mut p: usize = 0;
            while p < db.policies.len() && !ok
                invariant p <= db.policies@.len(), pols == db.policies@, rv == vals(r@), cv == col_views(cols@),
                    i < t.rows@.len(), ti < db.tables@.len(), t == &db.tables[ti as int], cv == table_cols_view(*t, alias@),
                    rv == scan_row(t.rows@[i as int]), t.row_security,
                    t.rows@.take(i + 1).drop_last() == t.rows@.take(i as int), t.rows@.take(i + 1).last() == t.rows@[i as int],
                    scan_rows(*t, pols, cv, t.rows@.take(i as int), fuel as nat) matches Some(x) ==> x == Some(rows_view(rows@)),
                    !ok ==> (policy_admits(pols, t.name@, cv, rv, fuel as nat, 0) is Some ==>
                        policy_admits(pols, t.name@, cv, rv, fuel as nat, 0) == policy_admits(pols, t.name@, cv, rv, fuel as nat, p as int)),
                    ok ==> (policy_admits(pols, t.name@, cv, rv, fuel as nat, 0) is Some ==>
                        policy_admits(pols, t.name@, cv, rv, fuel as nat, 0) == Some(Some(true))),
                decreases db.policies.len() - p,
            {
                if chars_eq_ci(&db.policies[p].table, &t.name) {
                    match eval_expr(db, &db.policies[p].using, &cols, &r, None, fuel) {
                        Ok(v) => { ok = is_true(&v); },
                        Err(err) => {
                            proof {
                                if scan_rows(*t, pols, cv, t.rows@, fuel as nat) matches Some(Some(_)) {
                                    lemma_scan_rows_prefix(*t, pols, cv, t.rows@, fuel as nat, i + 1);
                                }
                            }
                            return Err(err);
                        },
                    }
                }
                p += 1;
            }
            proof {
                if policy_admits(pols, t.name@, cv, rv, fuel as nat, 0) is Some {
                    if !ok {
                        assert(p == pols.len());
                    }
                }
            }
            ok
        } else {
            true
        };
        proof {
            if scan_rows(*t, pols, cv, t.rows@, fuel as nat) matches Some(Some(_)) {
                lemma_scan_rows_prefix(*t, pols, cv, t.rows@, fuel as nat, i + 1);
            }
        }
        if visible {
            let ghost prev = rows@;
            rows.push(r);
            assert(rows_view(rows@) =~= rows_view(prev).push(rv));
        }
        i += 1;
    }
    assert(t.rows@.take(t.rows@.len() as int) =~= t.rows@);
    Ok(Rel { cols, rows })
}

/// The rows before a point of a scan that succeeds are scanned successfully.
proof fn lemma_scan_rows_prefix(t: Table, pols: Seq<PolicyDef>, cols: Seq<ColView>, rows: Seq<Row>, fuel: nat, k: int)
    requires 0 <= k <= rows.len(), scan_rows(t, pols, cols, rows, fuel) matches Some(Some(_)),
    ensures scan_rows(t, pols, cols, rows.take(k), fuel) matches Some(Some(_)),
    decreases rows.len(),
{
    if k < rows.len() {
        lemma_scan_rows_prefix(t, pols, cols, rows.drop_last(), fuel, k);
        assert(rows.drop_last().take(k) =~= rows.take(k));
    } else {
        assert(rows.take(k) =~= rows);
    }
}

fn eval_from_item(db: &Db, f: &FromItem, outer: Option<(&Vec<ColRef>, &Vec<Value>)>, fuel: u32) -> (r: Result<Rel>)
    ensures
        from_spec(*db, *f, fuel as nat) matches Some(res) ==>
            (res matches Some(rel) ==> r matches Ok(x) && rel_view(x) == rel) && (res is None ==> r is Err),
    decreases fuel, 60int,
{
    if fuel == 0 {
        return too_deep();
    }
    match f {
        FromItem::Table { name, alias } => {
            let label = match alias { Some(a) => copy_chars(a), None => copy_chars(name) };
            match db.table_index(name) {
                Some(ti) => {
                    proof { lemma_table_from(db.tables@, name@, 0, Some(ti as int)); }
                    scan_table(db, ti, &label, fuel)
                },
                None => match db.view_index(name) {
                    Some(vi) => {
                        proof {
                            lemma_table_from(db.tables@, name@, 0, None);
                            assert(same_name(db.views@[vi as int].name@, name@));
                        }
                        let out = exec_query(db, &db.views[vi].query, None, fuel - 1)?;
                        Ok(rel_from_output(out, &label))
                    },
                    None => {
                        proof { lemma_table_from(db.tables@, name@, 0, None); }
                        let mut msg = str_chars("no such table: ");
                        append_chars(&mut msg, name);
                        Err(KkdbError::from_chars(ErrorKind::Schema, &msg))
                    },
                },
            }
        },
        FromItem::Derived { query, alias } => {
            let out = exec_query(db, query, outer, fuel - 1)?;
            Ok(rel_from_output(out, alias))
        },
        FromItem::Series { args, alias } => {
            let cols0: Vec<ColRef> = Vec::new();
            let row0: Vec<Value> = Vec::new();
            assert(col_views(cols0@) =~= Seq::<ColView>::empty());
            assert(vals(row0@) =~= Seq::<ValueV>::empty());
            let argv = eval_args(db, args, &cols0, &row0, None, fuel)?;
            let label = match alias { Some(a) => copy_chars(a), None => str_chars("generate_series") };
            series_rel(&argv, label)
        },
        FromItem::Join { left, right, kind, on } => {
            let l = eval_from_item(db, left, outer, fuel - 1)?;
            let r = eval_from_item(db, right, outer, fuel - 1)?;
            join_rel(db, &l, &r, *kind, on, fuel - 1)
        },
    }
}

/// The relation of `generate_series` on its argument values.
fn series_rel(argv: &Vec<Value>, label: Vec<char>) -> (r: Result<Rel>)
    ensures
        match series_spec(vals(argv@), label@) {
            Some(rel) => r matches Ok(x) && rel_view(x) == rel,
            None => r is Err,
        },
{
    let ghost av = vals(argv@);
    if argv.len() < 2 || argv.len() > 3 {
        return fail(ErrorKind::Type, "GENERATE_SERIES takes two or three arguments");
    }
    assert(av[0] == argv@[0]@ && av[1] == argv@[1]@);
    let start = match &argv[0] { Value::Integer(v) => *v, _ => { return fail(ErrorKind::Type, "GENERATE_SERIES needs integers"); } };
    let stop = match &argv[1] { Value::Integer(v) => *v, _ => { return fail(ErrorKind::Type, "GENERATE_SERIES needs integers"); } };
    let step: i64 = if argv.len() == 3 {
        assert(av[2] == argv@[2]@);
        match &argv[2] { Value::Integer(v) => *v, _ => { return fail(ErrorKind::Type, "GENERATE_SERIES needs integers"); } }
    } else {
        1
    };
    if step == 0 {
        return fail(ErrorKind::Type, "GENERATE_SERIES step must not be zero");
    }
    let ghost whole = series_rows(start as int, stop as int, step as int, 0);
    let ghost lv = label@;
    let mut cols: Vec<ColRef> = Vec::new();
    cols.push(ColRef { table: label, name: str_chars("value"), hidden: false });
    assert(col_views(cols@) =~= seq![(lv, "value"@, false)]);
    let mut rows: Vec<Vec<Value>> = Vec::new();
    let mut cur: i64 = start;
    let mut count: u32 = 0;
    let mut done = false;
    assert(rows_view(rows@) + whole =~= whole);
    while !done && ((step > 0 && cur <= stop) || (step < 0 && cur >= stop)) && count < 10_000_000
        invariant count <= 10_000_000, step != 0,
            done ==> rows_view(rows@) == whole,
            !done ==> rows_view(rows@) + series_rows(cur as int, stop as int, step as int, count as nat) == whole,
        decreases 10_000_000 - count,
    {
        let ghost prev = rows_view(rows@);
        let ghost tail = series_rows(cur as int, stop as int, step as int, count as nat);
        let mut r: Vec<Value> = Vec::new();
        r.push(Value::Integer(cur));
        assert(vals(r@) =~= seq![ValueV::Int(cur as int)]);
        rows.push(r);
        assert(rows_view(rows@) =~= prev.push(seq![ValueV::Int(cur as int)]));
        count += 1;
        match cur.checked_add(step) {
            Some(n) => {
                assert(tail =~= seq![seq![ValueV::Int(cur as int)]] + series_rows(n as int, stop as int, step as int, count as nat));
                assert(rows_view(rows@) + series_rows(n as int, stop as int, step as int, count as nat) =~= prev + tail);
                cur = n;
            },
            None => {
                assert(tail =~= seq![seq![ValueV::Int(cur as int)]]);
                assert(rows_view(rows@) =~= prev + tail);
                done = true;
            },
        }
    }
    proof {
        if !done {
            assert(series_rows(cur as int, stop as int, step as int, count as nat) =~= Seq::<Seq<ValueV>>::empty());
            assert(rows_view(rows@) + Seq::<Seq<ValueV>>::empty() =~= rows_view(rows@));
        }
    }
    Ok(Rel { cols, rows })
}

/// The rows of `l` joined with those of `r`, as [`join_rows`] says.
fn join_rel(db: &Db, l: &Rel, r: &Rel, kind: JoinKind, on: &Option<Expr>, fuel: u32) -> (out: Result<Rel>)
    ensures
        out matches Ok(x) ==> col_views(x.cols@) == col_views(l.cols@) + col_views(r.cols@),
        join_rows(rows_view(l.rows@), rows_view(r.rows@), *on, kind == JoinKind::Left, r.cols@.len(),
            col_views(l.cols@) + col_views(r.cols@), fuel as nat) matches Some(res) ==>
            (res matches Some(rs) ==> out matches Ok(x) && rows_view(x.rows@) == rs) && (res is None ==> out is Err),
    decreases fuel, 55int,
{
    let mut cols: Vec<ColRef> = Vec::new();
    let mut k: usize = 0;
    while k < l.cols.len()
        invariant k <= l.cols@.len(), col_views(cols@) == col_views(l.cols@.take(k as int)),
        decreases l.cols.len() - k,
    {
        let ghost prev = col_views(cols@);
        let c = copy_colref(&l.cols[k]);
        cols.push(c);
        assert(col_views(cols@) =~= prev.push((c.table@, c.name@, c.hidden)));
        assert(col_views(l.cols@.take(k + 1)) =~= col_views(l.cols@.take(k as int)).push(
            (l.cols@[k as int].table@, l.cols@[k as int].name@, l.cols@[k as int].hidden)));
        k += 1;
    }
    let mut k2: usize = 0;
    assert(l.cols@.take(l.cols@.len() as int) =~= l.cols@);
    while k2 < r.cols.len()
        invariant k2 <= r.cols@.len(), col_views(cols@) == col_views(l.cols@) + col_views(r.cols@.take(k2 as int)),
        decreases r.cols.len() - k2,
    {
        let ghost prev = col_views(cols@);
        let c = copy_colref(&r.cols[k2]);
        cols.push(c);
        assert(col_views(cols@) =~= prev.push((c.table@, c.name@, c.hidden)));
        assert(col_views(r.cols@.take(k2 + 1)) =~= col_views(r.cols@.take(k2 as int)).push(
            (r.cols@[k2 as int].table@, r.cols@[k2 as int].name@, r.cols@[k2 as int].hidden)));
        k2 += 1;
    }
    assert(r.cols@.take(r.cols@.len() as int) =~= r.cols@);
    let ghost cv = col_views(cols@);
    let ghost ls = rows_view(l.rows@);
    let ghost rs = rows_view(r.rows@);
    let ghost left = kind == JoinKind::Left;
    let ghost width = r.cols@.len();
    let ghost f = fuel as nat;
    let mut rows: Vec<Vec<Value>> = Vec::new();
    let mut a: usize = 0;
    assert(ls.take(0) =~= Seq::<Seq<ValueV>>::empty());
    assert(rows_view(rows@) =~= Seq::<Seq<ValueV>>::empty());
    while a < l.rows.len()
        invariant a <= l.rows@.len(), cv == col_views(cols@), ls == rows_view(l.rows@), rs == rows_view(r.rows@),
            left == (kind == JoinKind::Left), width == r.cols@.len(), f == fuel as nat,
            cv == col_views(l.cols@) + col_views(r.cols@),
            join_rows(ls.take(a as int), rs, *on, left, width, cv, f) matches Some(x) ==> x == Some(rows_view(rows@)),
        decreases l.rows.len() - a,
    {
        proof {
            assert(ls.take(a + 1).drop_last() =~= ls.take(a as int));
            assert(ls.take(a + 1).last() == ls[a as int]);
            assert(ls[a as int] == vals(l.rows@[a as int]@));
        }
        let ghost la = ls[a as int];
        let mut m: Vec<Vec<Value>> = Vec::new();
        let mut b: usize = 0;
        assert(rs.take(0) =~= Seq::<Seq<ValueV>>::empty());
        assert(rows_view(m@) =~= Seq::<Seq<ValueV>>::empty());
        while b < r.rows.len()
            invariant b <= r.rows@.len(), a < l.rows@.len(), cv == col_views(cols@), ls == rows_view(l.rows@),
                rs == rows_view(r.rows@), la == ls[a as int], f == fuel as nat, left == (kind == JoinKind::Left),
                width == r.cols@.len(), cv == col_views(l.cols@) + col_views(r.cols@),
                ls.take(a + 1).drop_last() == ls.take(a as int), ls.take(a + 1).last() == la,
                join_rows(ls.take(a as int), rs, *on, left, width, cv, f) matches Some(x) ==> x == Some(rows_view(rows@)),
                join_matches(la, rs.take(b as int), *on, cv, f) matches Some(x) ==> x == Some(rows_view(m@)),
            decreases r.rows.len() - b,
        {
            proof {
                assert(rs.take(b + 1).drop_last() =~= rs.take(b as int));
                assert(rs.take(b + 1).last() == rs[b as int]);
                assert(rs[b as int] == vals(r.rows@[b as int]@));
            }
            let combined = concat_rows(&l.rows[a], &r.rows[b]);
            let keep = match on {
                Some(cond) => {
                    match eval_expr(db, cond, &cols, &combined, None, fuel) {
                        Ok(v) => is_true(&v),
                        Err(err) => {
                            proof {
                                if join_rows(ls, rs, *on, left, width, cv, f) matches Some(Some(_)) {
                                    lemma_join_rows_prefix(ls, rs, *on, left, width, cv, f, a + 1);
                                    lemma_join_matches_prefix(la, rs, *on, cv, f, b + 1);
                                }
                            }
                            return Err(err);
                        },
                    }
                },
                None => true,
            };
            if keep {
                let ghost prev = m@;
                m.push(combined);
                assert(rows_view(m@) =~= rows_view(prev).push(la + rs[b as int]));
            }
            b += 1;
        }
        assert(rs.take(rs.len() as int) =~= rs);
        let ghost before = rows@;
        if m.len() == 0 && kind == JoinKind::Left {
            let pad = null_row(r.cols.len());
            let padded = concat_rows(&l.rows[a], &pad);
            assert(vals(pad@) =~= nulls(width));
            rows.push(padded);
            assert(rows_view(rows@) =~= rows_view(before).push(la + nulls(width)));
        } else {
            let mut q: usize = 0;
            while q < m.len()
                invariant q <= m@.len(), rows_view(rows@) == rows_view(before) + rows_view(m@).take(q as int),
                decreases m.len() - q,
            {
                let c = copy_row(&m[q]);
                assert(vals(c@) =~= vals(m@[q as int]@));
                let ghost prev = rows_view(rows@);
                rows.push(c);
                assert(rows_view(rows@) =~= prev.push(vals(c@)));
                assert(rows_view(m@).take(q + 1) =~= rows_view(m@).take(q as int).push(vals(m@[q as int]@)));
                assert(rows_view(rows@) =~= rows_view(before) + rows_view(m@).take(q + 1));
                q += 1;
            }
            assert(rows_view(m@).take(m@.len() as int) =~= rows_view(m@));
        }
        a += 1;
    }
    assert(ls.take(ls.len() as int) =~= ls);
    Ok(Rel { cols, rows })
}

/// The left rows before a point of a join that succeeds are joined successfully.
proof fn lemma_join_rows_prefix(ls: Seq<Seq<ValueV>>, rs: Seq<Seq<ValueV>>, on: Option<Expr>, left: bool, width: nat,
    cols: Seq<ColView>, fuel: nat, k: int)
    requires 0 <= k <= ls.len(), join_rows(ls, rs, on, left, width, cols, fuel) matches Some(Some(_)),
    ensures join_rows(ls.take(k), rs, on, left, width, cols, fuel) matches Some(Some(_)),
        k > 0 ==> join_matches(ls[k - 1], rs, on, cols, fuel) matches Some(Some(_)),
    decreases ls.len(),
{
    if k < ls.len() {
        lemma_join_rows_prefix(ls.drop_last(), rs, on, left, width, cols, fuel, k);
        assert(ls.drop_last().take(k) =~= ls.take(k));
        if k > 0 {
            assert(ls.drop_last()[k - 1] == ls[k - 1]);
        }
    } else {
        assert(ls.take(k) =~= ls);
    }
}

/// The right rows before a point of a match that succeeds are tested successfully.
proof fn lemma_join_matches_prefix(a: Seq<ValueV>, rs: Seq<Seq<ValueV>>, on: Option<Expr>, cols: Seq<ColView>, fuel: nat, k: int)
    requires 0 <= k <= rs.len(), join_matches(a, rs, on, cols, fuel) matches Some(Some(_)),
    ensures join_matches(a, rs.take(k), on, cols, fuel) matches Some(Some(_)),
        k > 0 ==> on_passes(on, cols, a + rs[k - 1], fuel) matches Some(Some(_)),
    decreases rs.len(),
{
    if k < rs.len() {
        lemma_join_matches_prefix(a, rs.drop_last(), on, cols, fuel, k);
        assert(rs.drop_last().take(k) =~= rs.take(k));
        if k > 0 {
            assert(rs.drop_last()[k - 1] == rs[k - 1]);
        }
    } else {
        assert(rs.take(k) =~= rs);
    }
}

// ───────────────────────────── windows ─────────────────────────────

/// Values of a window function for every row of a relation, in row order.
fn compute_window(db: &Db, name: &Vec<char>, args: &Vec<Expr>, partition_by: &Vec<Expr>, order_by: &Vec<OrderItem>,
    cols: &Vec<ColRef>, rows: &Vec<Vec<Value>>, fuel: u32) -> (r: Result<Vec<Value>>)
    decreases fuel, 60int,
{
    let n = rows.len();
    // partition and order keys, and argument values
    let mut pkeys: Vec<Vec<Value>> = Vec::new();
    let mut okeys: Vec<Vec<Value>> = Vec::new();
    let mut argvals: Vec<Vec<Value>> = Vec::new();
    let mut i: usize = 0;
    while i < n
        invariant i <= n, n == rows@.len(), pkeys@.len() == i, okeys@.len() == i, argvals@.len() == i,
        decreases n - i,
    {
        let mut pk: Vec<Value> = Vec::new();
        let mut k: usize = 0;
        while k < partition_by.len()
            invariant k <= partition_by@.len(), i < rows@.len(),
            decreases partition_by.len() - k,
        {
            pk.push(eval_expr(db, &partition_by[k], cols, &rows[i], None, fuel)?);
            k += 1;
        }
        let mut ok: Vec<Value> = Vec::new();
        let mut k2: usize = 0;
        while k2 < order_by.len()
            invariant k2 <= order_by@.len(), i < rows@.len(),
            decreases order_by.len() - k2,
        {
            ok.push(eval_expr(db, &order_by[k2].expr, cols, &rows[i], None, fuel)?);
            k2 += 1;
        }
        let av = eval_args(db, args, cols, &rows[i], None, fuel)?;
        pkeys.push(pk);
        okeys.push(ok);
        argvals.push(av);
        i += 1;
    }
    // partitions in order of first appearance
    let mut parts: Vec<Vec<usize>> = Vec::new();
    let mut reps: Vec<usize> = Vec::new();
    let mut j: usize = 0;
    while j < n
        invariant j <= n, n == pkeys@.len(), parts@.len() == reps@.len(),
            forall|q: int| 0 <= q < reps@.len() ==> #[trigger] reps@[q] < n,
            forall|q: int, s: int| 0 <= q < parts@.len() && 0 <= s < parts@[q]@.len() ==> #[trigger] parts@[q]@[s] < n,
        decreases n - j,
    {
        let mut p: usize = 0;
        let mut found = false;
        while p < reps.len()
            invariant p <= reps@.len(), j < n, n == pkeys@.len(),
                forall|q: int| 0 <= q < reps@.len() ==> #[trigger] reps@[q] < n,
            decreases reps.len() - p,
        {
            if rows_equal(&pkeys[reps[p]], &pkeys[j]) {
                found = true;
                break;
            }
            p += 1;
        }
        if found && p < parts.len() {
            let mut part = parts.remove(p);
            part.push(j);
            parts.insert(p, part);
        } else {
            let mut part: Vec<usize> = Vec::new();
            part.push(j);
            parts.push(part);
            reps.push(j);
        }
        j += 1;
    }
    let mut result: Vec<Value> = null_row(n);
    let mut pi: usize = 0;
    while pi < parts.len()
        invariant pi <= parts@.len(), result@.len() == n, n == okeys@.len(), n == argvals@.len(),
            forall|q: int, s: int| 0 <= q < parts@.len() && 0 <= s < parts@[q]@.len() ==> #[trigger] parts@[q]@[s] < n,
        decreases parts.len() - pi,
    {
        let part = &parts[pi];
        let m = part.len();
        let mut pk: Vec<Vec<Value>> = Vec::new();
        let mut s: usize = 0;
        while s < m
            invariant s <= m, m == part@.len(), pk@.len() == s, n == okeys@.len(),
                forall|q: int| 0 <= q < part@.len() ==> #[trigger] part@[q] < n,
            decreases m - s,
        {
            pk.push(copy_row(&okeys[part[s]]));
            s += 1;
        }
        let order_pos = sort_positions(&pk, order_by);
        // sorted members of the partition
        let mut members: Vec<usize> = Vec::new();
        let mut t: usize = 0;
        while t < order_pos.len()
            invariant t <= order_pos@.len(), order_pos@.len() == m, m == part@.len(), members@.len() == t,
                forall|q: int| 0 <= q < order_pos@.len() ==> #[trigger] order_pos@[q] < m,
                forall|q: int| 0 <= q < part@.len() ==> #[trigger] part@[q] < n,
                forall|q: int| 0 <= q < members@.len() ==> #[trigger] members@[q] < n,
            decreases order_pos.len() - t,
        {
            members.push(part[order_pos[t]]);
            t += 1;
        }
        let mut pos: usize = 0;
        let mut rank: usize = 1;
        let mut dense: usize = 1;
        let ghost sk = members@.map_values(|x: usize| vals(okeys@[x as int]@));
        while pos < m
            invariant pos <= m, members@.len() == m, result@.len() == n, n == okeys@.len(), n == argvals@.len(),
                forall|q: int| 0 <= q < members@.len() ==> #[trigger] members@[q] < n,
                1 <= rank <= pos + 1, 1 <= dense <= pos + 1, pos > 0 ==> dense <= pos,
                sk == members@.map_values(|x: usize| vals(okeys@[x as int]@)),
                pos > 0 ==> rank == peer_start(sk, order_by@, pos - 1) + 1,
            decreases m - pos,
        {
            let me = members[pos];
            if pos > 0 && compare_keys(&okeys[members[pos - 1]], &okeys[me], order_by) != Order::Equal {
                rank = pos + 1;
                dense = dense + 1;
            }
            assert(rank == peer_start(sk, order_by@, pos as int) + 1);
            // last peer position
            let mut last = pos;
            while last + 1 < m && compare_keys(&okeys[members[last + 1]], &okeys[me], order_by) == Order::Equal
                invariant pos <= last < m, members@.len() == m, me < n,
                    forall|q: int| 0 <= q < members@.len() ==> #[trigger] members@[q] < n, n == okeys@.len(),
                decreases m - last,
            {
                last += 1;
            }
            let v = window_value(name, &argvals, &members, pos, rank, dense, last, m)?;
            result.set(me, v);
            pos += 1;
        }
        pi += 1;
    }
    Ok(result)
}

/// A count as an integer value.
pub fn small(u: usize) -> (r: i64)
    ensures r >= 0, u > 0 ==> r > 0, r == capped_len(u as nat),
{
    if (u as u64) <= 0x7fff_ffff_ffff_ffffu64 { u as i64 } else { i64::MAX }
}

/// The bucket of position `pos` when `m` ordered rows are dealt into `k`
/// buckets, the first `m % k` buckets one row larger (1-based).
pub open spec fn ntile_bucket(m: int, k: int, pos: int) -> int {
    let q = m / k;
    let rem = m % k;
    let big = rem * (q + 1);
    if pos < big { pos / (q + 1) + 1 } else if q > 0 { rem + (pos - big) / q + 1 } else { rem + 1 }
}

/// The value of window function `name` (in lower case) at position `pos`
/// of a partition whose rows, in window order, are `members` (indexes into
/// `argvals`, the argument values of each row); `rank` and `dense` are the
/// ranks of the row and `last` the position of its last peer. `None` for
/// an error.
pub open spec fn window_spec(name: Seq<char>, argvals: Seq<Seq<ValueV>>, members: Seq<usize>, pos: int, rank: int,
    dense: int, last: int, m: int) -> Option<ValueV>
{
    let me = members[pos] as int;
    if name == "row_number"@ {
        Some(ValueV::Int(capped_len((pos + 1) as nat)))
    } else if name == "rank"@ {
        Some(ValueV::Int(capped_len(rank as nat)))
    } else if name == "dense_rank"@ {
        Some(ValueV::Int(capped_len(dense as nat)))
    } else if name == "percent_rank"@ {
        Some(if m <= 1 { ratio_spec(0, 1) } else { ratio_spec((rank - 1) as nat, (m - 1) as nat) })
    } else if name == "cume_dist"@ {
        Some(ratio_spec((last + 1) as nat, m as nat))
    } else if name == "ntile"@ {
        let k = arg_int_spec(argvals[me], 0, 0);
        if k <= 0 {
            None
        } else if k >= m {
            Some(ValueV::Int(capped_len((pos + 1) as nat)))
        } else {
            let b = ntile_bucket(m, k, pos);
            Some(ValueV::Int(if b <= i64::MAX { b } else { 0 }))
        }
    } else if name == "lag"@ || name == "lead"@ {
        let av = argvals[me];
        if av.len() == 0 {
            None
        } else {
            let off = arg_int_spec(av, 1, 1);
            let default = if av.len() >= 3 { av[2] } else { ValueV::Null };
            let target = if name == "lag"@ { pos - off } else { pos + off };
            if off < 0 || off > m || target < 0 || target >= m {
                Some(default)
            } else {
                let other = argvals[members[target] as int];
                Some(if other.len() > 0 { other[0] } else { ValueV::Null })
            }
        }
    } else if name == "first_value"@ {
        let first = argvals[members[0] as int];
        Some(if first.len() > 0 { first[0] } else { ValueV::Null })
    } else {
        None
    }
}

/// The argument values of the rows, as values.
pub open spec fn rows_args(a: Seq<Vec<Value>>) -> Seq<Seq<ValueV>> {
    a.map_values(|r: Vec<Value>| vals(r@))
}

/// The value of a window function at position `pos` of a sorted partition.
fn window_value(name: &Vec<char>, argvals: &Vec<Vec<Value>>, members: &Vec<usize>, pos: usize, rank: usize,
    dense: usize, last: usize, m: usize) -> (r: Result<Value>)
    requires pos < m, 1 <= rank, pos <= last < m, members@.len() == m,
        forall|q: int| 0 <= q < members@.len() ==> #[trigger] members@[q] < argvals@.len(),
    ensures
        match r {
            Ok(v) => window_spec(lower_seq(name@), rows_args(argvals@), members@, pos as int, rank as int,
                dense as int, last as int, m as int) == Some(v@),
            Err(_) => window_spec(lower_seq(name@), rows_args(argvals@), members@, pos as int, rank as int,
                dense as int, last as int, m as int) is None,
        },
{
    let ghost args = rows_args(argvals@);
    if eq_word(name, "row_number") {
        return Ok(Value::Integer(small(pos + 1)));
    }
    if eq_word(name, "rank") {
        return Ok(Value::Integer(small(rank)));
    }
    if eq_word(name, "dense_rank") {
        return Ok(Value::Integer(small(dense)));
    }
    if eq_word(name, "percent_rank") {
        if m <= 1 {
            return Ok(ratio_value(0, 1));
        }
        return Ok(ratio_value((rank - 1) as u64, (m - 1) as u64));
    }
    if eq_word(name, "cume_dist") {
        return Ok(ratio_value((last + 1) as u64, m as u64));
    }
    if eq_word(name, "ntile") {
        let me = members[pos];
        assert(args[me as int] == vals(argvals@[me as int]@));
        let k: i64 = if argvals[me].len() > 0 {
            match &argvals[me][0] { Value::Integer(x) => *x, _ => 0 }
        } else { 0 };
        if k <= 0 {
            return fail(ErrorKind::Type, "NTILE needs a positive integer");
        }
        let ku = k as u64;
        let mu = m as u64;
        let j = pos as u64;
        if ku >= mu {
            return Ok(Value::Integer(small(pos + 1)));
        }
        let q: u128 = (mu / ku) as u128;
        let rem: u128 = (mu % ku) as u128;
        let jj: u128 = j as u128;
        assert(rem * (q + 1) <= 0xffff_ffff_ffff_ffffu128 * 0x1_0000_0000_0000_0000u128) by (nonlinear_arith)
            requires rem <= 0xffff_ffff_ffff_ffffu128, q <= 0xffff_ffff_ffff_ffffu128;
        let big: u128 = rem * (q + 1);
        let bucket: u128 = if jj < big { jj / (q + 1) + 1 } else if q > 0 { rem + (jj - big) / q + 1 } else { rem + 1 };
        return Ok(Value::Integer(if bucket <= 0x7fff_ffff_ffff_ffffu128 { bucket as i64 } else { 0 }));
    }
    if eq_word(name, "lag") || eq_word(name, "lead") {
        let me = members[pos];
        let av = &argvals[me];
        assert(args[me as int] == vals(av@));
        if av.len() == 0 {
            return fail(ErrorKind::Type, "LAG and LEAD need an argument");
        }
        let off: i64 = if av.len() >= 2 { match &av[1] { Value::Integer(x) => *x, _ => 1 } } else { 1 };
        let default = if av.len() >= 3 { copy_value(&av[2]) } else { Value::Null };
        if off < 0 || off as u64 > m as u64 {
            return Ok(default);
        }
        let o = off as usize;
        let target: Option<usize> = if eq_word(name, "lag") {
            if pos >= o { Some(pos - o) } else { None }
        } else {
            if o < m - pos { Some(pos + o) } else { None }
        };
        return match target {
            Some(tp) => {
                let other = &argvals[members[tp]];
                assert(args[members@[tp as int] as int] == vals(other@));
                if other.len() > 0 { Ok(copy_value(&other[0])) } else { Ok(Value::Null) }
            },
            None => Ok(default),
        };
    }
    if eq_word(name, "first_value") {
        let first = &argvals[members[0]];
        assert(args[members@[0] as int] == vals(first@));
        return Ok(if first.len() > 0 { copy_value(&first[0]) } else { Value::Null });
    }
    fail(ErrorKind::Unsupported, "unsupported window function")
}

} // verus!
