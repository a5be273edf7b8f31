//! The meaning of a SELECT as a mathematical function of the database: the
//! relation of its FROM list (table scans, `generate_series`, joins, cross
//! products), the rows that pass WHERE, their projection through the select
//! list, DISTINCT, OFFSET and LIMIT.
//!
//! Each function answers `Some(Some(x))` for a result, `Some(None)` for an
//! error, and `None` where it says nothing (a view, a sub-query, grouping or
//! aggregates, window functions, ORDER BY, or an expression outside
//! `core_eval`).

use vstd::prelude::*;
use crate::types::{Value, ValueV, Order};
use crate::sql::ast::{Expr, FromItem, JoinKind, Select, SelectItem, Query, SetExpr, OrderItem};
use crate::storage::table::{Table, Row};
use crate::vm::db::{Db, PolicyDef, same_name, tables_wf};
use crate::storage::table::vals;
use crate::vm::eval::truth;
use crate::vm::semantics::{ColView, core_eval, core_eval_list, eval_in, table_cols_view, scan_row, table_from, scan_query,
    scan_result, selected_rows, decided_on, passes, first_col_from};
use crate::vm::query::{Rel, project_spec, output_names_spec, aggregate_in, page_start, page_end, star_values, item_values,
    keys_order};
use crate::vm::setops::add_rows;
use crate::vm::semantics::{rows_view, col_views};

verus! {

/// The columns and rows of a relation, as values.
pub type RelV = (Seq<ColView>, Seq<Seq<ValueV>>);

/// The model of a relation.
pub open spec fn rel_view(r: Rel) -> RelV {
    (col_views(r.cols@), rows_view(r.rows@))
}

/// Whether the policies on table `tname`, tried in order from `i`, admit a
/// row: the first whose condition is true admits it.
pub open spec fn policy_admits(pols: Seq<PolicyDef>, tname: Seq<char>, cols: Seq<ColView>, row: Seq<ValueV>,
    fuel: nat, i: int) -> Option<Option<bool>>
    decreases pols.len() - i,
{
    if i < 0 || i >= pols.len() {
        Some(Some(false))
    } else if same_name(pols[i].table@, tname) {
        match core_eval(pols[i].using, cols, row, fuel) {
            Some(Some(v)) => if truth(v) == Some(true) { Some(Some(true)) } else { policy_admits(pols, tname, cols, row, fuel, i + 1) },
            Some(None) => Some(None),
            None => None,
        }
    } else {
        policy_admits(pols, tname, cols, row, fuel, i + 1)
    }
}

/// The rows a scan of table `t` yields, each followed by its rowid: all of
/// them, or with row-level security those some policy admits.
pub open spec fn scan_rows(t: Table, pols: Seq<PolicyDef>, cols: Seq<ColView>, rows: Seq<Row>, fuel: nat)
    -> Option<Option<Seq<Seq<ValueV>>>>
    decreases rows.len(),
{
    if rows.len() == 0 {
        Some(Some(Seq::empty()))
    } else {
        match scan_rows(t, pols, cols, rows.drop_last(), fuel) {
            Some(Some(prev)) => {
                let r = scan_row(rows.last());
                if !t.row_security {
                    Some(Some(prev.push(r)))
                } else {
                    match policy_admits(pols, t.name@, cols, r, fuel, 0) {
                        Some(Some(b)) => Some(Some(if b { prev.push(r) } else { prev })),
                        Some(None) => Some(None),
                        None => None,
                    }
                }
            },
            other => other,
        }
    }
}

/// The upper bound on the rows of one `generate_series`.
pub open spec fn series_cap() -> nat {
    10_000_000
}

/// The rows of `generate_series` from `cur` on, `count` rows having been
/// produced: one row per value while it has not passed `stop`, until a step
/// would leave the 64-bit range or the cap is reached.
pub open spec fn series_rows(cur: int, stop: int, step: int, count: nat) -> Seq<Seq<ValueV>>
    decreases series_cap() - count,
{
    if count >= series_cap() || !((step > 0 && cur <= stop) || (step < 0 && cur >= stop)) {
        Seq::empty()
    } else {
        let next = cur + step;
        seq![seq![ValueV::Int(cur)]] + (if i64::MIN <= next <= i64::MAX { series_rows(next, stop, step, count + 1) } else { Seq::empty() })
    }
}

/// `generate_series(start, stop [, step])` on argument values, with its
/// column under `label`; `None` for an error.
pub open spec fn series_spec(argv: Seq<ValueV>, label: Seq<char>) -> Option<RelV> {
    if argv.len() < 2 || argv.len() > 3 {
        None
    } else {
        match (argv[0], argv[1]) {
            (ValueV::Int(start), ValueV::Int(stop)) => {
                let step: Option<int> = if argv.len() == 3 {
                    match argv[2] { ValueV::Int(s) => Some(s), _ => None }
                } else {
                    Some(1)
                };
                match step {
                    Some(s) => if s == 0 { None } else { Some((seq![(label, "value"@, false)], series_rows(start, stop, s, 0))) },
                    None => None,
                }
            },
            _ => None,
        }
    }
}

/// Whether a row passes a join condition (always, without one).
pub open spec fn on_passes(on: Option<Expr>, cols: Seq<ColView>, row: Seq<ValueV>, fuel: nat) -> Option<Option<bool>> {
    match on {
        None => Some(Some(true)),
        Some(c) => match core_eval(c, cols, row, fuel) {
            Some(Some(v)) => Some(Some(truth(v) == Some(true))),
            Some(None) => Some(None),
            None => None,
        },
    }
}

/// The rows `a + b`, for `b` in `rs` in order, that pass the join condition.
pub open spec fn join_matches(a: Seq<ValueV>, rs: Seq<Seq<ValueV>>, on: Option<Expr>, cols: Seq<ColView>, fuel: nat)
    -> Option<Option<Seq<Seq<ValueV>>>>
    decreases rs.len(),
{
    if rs.len() == 0 {
        Some(Some(Seq::empty()))
    } else {
        match join_matches(a, rs.drop_last(), on, cols, fuel) {
            Some(Some(prev)) => match on_passes(on, cols, a + rs.last(), fuel) {
                Some(Some(b)) => Some(Some(if b { prev.push(a + rs.last()) } else { prev })),
                Some(None) => Some(None),
                None => None,
            },
            other => other,
        }
    }
}

/// `n` NULLs.
pub open spec fn nulls(n: nat) -> Seq<ValueV> {
    Seq::new(n, |i: int| ValueV::Null)
}

/// The rows of a join: for each left row in order, its matches; for a LEFT
/// join, a left row without matches once, padded with `width` NULLs.
pub open spec fn join_rows(ls: Seq<Seq<ValueV>>, rs: Seq<Seq<ValueV>>, on: Option<Expr>, left: bool, width: nat,
    cols: Seq<ColView>, fuel: nat) -> Option<Option<Seq<Seq<ValueV>>>>
    decreases ls.len(),
{
    if ls.len() == 0 {
        Some(Some(Seq::empty()))
    } else {
        match join_rows(ls.drop_last(), rs, on, left, width, cols, fuel) {
            Some(Some(prev)) => match join_matches(ls.last(), rs, on, cols, fuel) {
                Some(Some(m)) => Some(Some(if m.len() == 0 && left { prev.push(ls.last() + nulls(width)) } else { prev + m })),
                other => other,
            },
            other => other,
        }
    }
}

/// The rows `a + b` for each `b` of `ys`.
pub open spec fn prefix_all(a: Seq<ValueV>, ys: Seq<Seq<ValueV>>) -> Seq<Seq<ValueV>> {
    ys.map_values(|b: Seq<ValueV>| a + b)
}

/// The rows `a + b` for every `a` of `xs` and `b` of `ys`, `a` varying slowest.
pub open spec fn cross(xs: Seq<Seq<ValueV>>, ys: Seq<Seq<ValueV>>) -> Seq<Seq<ValueV>>
    decreases xs.len(),
{
    if xs.len() == 0 {
        Seq::empty()
    } else {
        cross(xs.drop_last(), ys) + prefix_all(xs.last(), ys)
    }
}

/// Whether some view has the name.
pub open spec fn has_view(db: Db, name: Seq<char>) -> bool {
    exists|k: int| 0 <= k < db.views@.len() && same_name(#[trigger] db.views@[k].name@, name)
}

/// The relation of one FROM item.
pub open spec fn from_spec(db: Db, f: FromItem, fuel: nat) -> Option<Option<RelV>>
    decreases fuel,
{
    if fuel == 0 {
        Some(None)
    } else {
        match f {
            FromItem::Table { name, alias } => {
                let label = match alias { Some(a) => a@, None => name@ };
                match table_from(db.tables@, name@, 0) {
                    Some(ti) => {
                        let t = db.tables@[ti];
                        let cv = table_cols_view(t, label);
                        match scan_rows(t, db.policies@, cv, t.rows@, fuel) {
                            Some(Some(rs)) => Some(Some((cv, rs))),
                            Some(None) => Some(None),
                            None => None,
                        }
                    },
                    None => if has_view(db, name@) { None } else { Some(None) },
                }
            },
            FromItem::Series { args, alias } => {
                let label = match alias { Some(a) => a@, None => "generate_series"@ };
                match core_eval_list(args@, Seq::empty(), Seq::empty(), fuel) {
                    Some(Some(argv)) => match series_spec(argv, label) {
                        Some(rel) => Some(Some(rel)),
                        None => Some(None),
                    },
                    Some(None) => Some(None),
                    None => None,
                }
            },
            FromItem::Join { left, right, kind, on } => {
                let f1 = (fuel - 1) as nat;
                match from_spec(db, *left, f1) {
                    Some(Some(l)) => match from_spec(db, *right, f1) {
                        Some(Some(r)) => {
                            let cols = l.0 + r.0;
                            match join_rows(l.1, r.1, on, kind == JoinKind::Left, r.0.len(), cols, f1) {
                                Some(Some(rows)) => Some(Some((cols, rows))),
                                Some(None) => Some(None),
                                None => None,
                            }
                        },
                        other => other,
                    },
                    other => other,
                }
            },
            FromItem::Derived { .. } => None,
        }
    }
}

/// The relation of a FROM list: the cross product of its items, left to
/// right; one empty row for an empty list.
pub open spec fn from_list_spec(db: Db, from: Seq<FromItem>, fuel: nat) -> Option<Option<RelV>>
    decreases from.len(),
{
    if from.len() == 0 {
        Some(Some((Seq::empty(), seq![Seq::empty()])))
    } else {
        match from_list_spec(db, from.drop_last(), fuel) {
            Some(Some(acc)) => match from_spec(db, from.last(), fuel) {
                Some(Some(r)) => Some(Some((acc.0 + r.0, cross(acc.1, r.1)))),
                other => other,
            },
            other => other,
        }
    }
}

/// The rows that pass a WHERE condition, in order; the first row on which
/// the condition fails decides.
pub open spec fn filter_spec(rows: Seq<Seq<ValueV>>, cond: Expr, cols: Seq<ColView>, fuel: nat)
    -> Option<Option<Seq<Seq<ValueV>>>>
    decreases rows.len(),
{
    if rows.len() == 0 {
        Some(Some(Seq::empty()))
    } else {
        match filter_spec(rows.drop_last(), cond, cols, fuel) {
            Some(Some(prev)) => match core_eval(cond, cols, rows.last(), fuel) {
                Some(Some(v)) => Some(Some(if truth(v) == Some(true) { prev.push(rows.last()) } else { prev })),
                Some(None) => Some(None),
                None => None,
            },
            other => other,
        }
    }
}

/// No item has precomputed window values.
pub open spec fn no_wins(n: nat) -> Seq<Option<Seq<ValueV>>> {
    Seq::new(n, |i: int| None)
}

/// Whether a select groups its rows: GROUP BY, HAVING, or an aggregate call in the select list.
pub open spec fn select_aggregates(sel: Select) -> bool {
    sel.group_by@.len() > 0 || sel.having is Some
        || exists|i: int| 0 <= i < sel.items@.len()
            && (#[trigger] sel.items@[i] matches SelectItem::Item { expr, .. } && aggregate_in(expr, 1000))
}

/// Whether an item of the select list is a window function.
pub open spec fn has_window_item(items: Seq<SelectItem>) -> bool {
    exists|i: int| 0 <= i < items.len() && (#[trigger] items[i] matches SelectItem::Item { expr: Expr::Window { .. }, .. })
}

/// The value of a LIMIT or OFFSET expression: absent, an integer, or an
/// error for any other value.
pub open spec fn count_spec(e: Option<Expr>, fuel: nat) -> Option<Option<Option<i64>>> {
    match e {
        None => Some(Some(None)),
        Some(x) => match core_eval(x, Seq::empty(), Seq::empty(), fuel) {
            Some(Some(ValueV::Int(n))) => Some(Some(Some(n as i64))),
            Some(Some(_)) => Some(None),
            Some(None) => Some(None),
            None => None,
        },
    }
}

/// The rows that OFFSET and LIMIT keep.
pub open spec fn page_spec(rows: Seq<Seq<ValueV>>, limit: Option<i64>, offset: Option<i64>) -> Seq<Seq<ValueV>> {
    let start = page_start(rows.len() as int, offset);
    rows.subrange(start, page_end(rows.len() as int, start, limit))
}

/// The column names and rows of a query that is one select without ORDER
/// BY: LIMIT and OFFSET are evaluated first, then the select, then the page;
/// the column names come from the select list over the FROM list's columns.
pub open spec fn query_spec(db: Db, q: Query, fuel: nat) -> Option<Option<(Seq<Seq<char>>, Seq<Seq<ValueV>>)>> {
    if q.order_by@.len() > 0 {
        None
    } else {
        match q.body {
            SetExpr::Select(sel) => match count_spec(q.limit, fuel) {
                Some(Some(l)) => match count_spec(q.offset, fuel) {
                    Some(Some(o)) => match select_keyed(db, *sel, q.order_by@, fuel) {
                        Some(Some(pk)) => match from_list_spec(db, sel.from@, fuel) {
                            Some(Some(rel)) => Some(Some((output_names_spec(sel.items@, rel.0), page_spec(pk.0, l, o)))),
                            _ => None,
                        },
                        Some(None) => Some(None),
                        None => None,
                    },
                    Some(None) => Some(None),
                    None => None,
                },
                Some(None) => Some(None),
                None => None,
            },
            _ => None,
        }
    }
}

/// Position of the first output name from `i` on that is `name`, ignoring case.
pub open spec fn name_pos(names: Seq<Seq<char>>, name: Seq<char>, i: int) -> Option<int>
    decreases names.len() - i,
{
    if i < 0 || i >= names.len() {
        None
    } else if same_name(names[i], name) {
        Some(i)
    } else {
        name_pos(names, name, i + 1)
    }
}

/// The output column an ORDER BY term names: a 1-based number or an
/// unqualified name.
pub open spec fn output_pos_spec(e: Expr, names: Seq<Seq<char>>) -> Option<int> {
    match e {
        Expr::Literal(Value::Integer(n)) => if n >= 1 && n - 1 < names.len() { Some(n - 1) } else { None },
        Expr::Column { table: None, name } => name_pos(names, name@, 0),
        _ => None,
    }
}

/// The sort key of one ORDER BY term for a result row: a number, or a name
/// that no source column has, reads the output row; any other term is
/// evaluated on the source row.
pub open spec fn order_key_spec(it: OrderItem, names: Seq<Seq<char>>, out_row: Seq<ValueV>, cols: Seq<ColView>,
    row: Seq<ValueV>, group: Option<Seq<Seq<ValueV>>>, fuel: nat) -> Option<Option<ValueV>>
{
    let by_output = match it.expr {
        Expr::Literal(Value::Integer(_)) => output_pos_spec(it.expr, names),
        Expr::Column { table: None, name } =>
            if first_col_from(cols, None, name@, 0) is Some { None } else { output_pos_spec(it.expr, names) },
        _ => None,
    };
    match by_output {
        Some(p) => Some(Some(if 0 <= p < out_row.len() { out_row[p] } else { ValueV::Null })),
        None => eval_in(it.expr, cols, row, group, fuel),
    }
}

/// The sort keys of a result row, term after term.
pub open spec fn keys_spec(order: Seq<OrderItem>, names: Seq<Seq<char>>, out_row: Seq<ValueV>, cols: Seq<ColView>,
    row: Seq<ValueV>, group: Option<Seq<Seq<ValueV>>>, fuel: nat) -> Option<Option<Seq<ValueV>>>
    decreases order.len(),
{
    if order.len() == 0 {
        Some(Some(Seq::empty()))
    } else {
        match keys_spec(order.drop_last(), names, out_row, cols, row, group, fuel) {
            Some(Some(prev)) => match order_key_spec(order.last(), names, out_row, cols, row, group, fuel) {
                Some(Some(k)) => Some(Some(prev.push(k))),
                Some(None) => Some(None),
                None => None,
            },
            other => other,
        }
    }
}

/// Every row projected through the select list, with its sort keys.
pub open spec fn project_keyed(rows: Seq<Seq<ValueV>>, items: Seq<SelectItem>, order: Seq<OrderItem>,
    names: Seq<Seq<char>>, cols: Seq<ColView>, fuel: nat) -> Option<Option<(Seq<Seq<ValueV>>, Seq<Seq<ValueV>>)>>
    decreases rows.len(),
{
    if rows.len() == 0 {
        Some(Some((Seq::empty(), Seq::empty())))
    } else {
        match project_keyed(rows.drop_last(), items, order, names, cols, fuel) {
            Some(Some(prev)) => match project_spec(items, cols, rows.last(), None, no_wins(items.len()), rows.len() - 1, fuel) {
                Some(Some(o)) => match keys_spec(order, names, o, cols, rows.last(), None, fuel) {
                    Some(Some(k)) => Some(Some((prev.0.push(o), prev.1.push(k)))),
                    Some(None) => Some(None),
                    None => None,
                },
                Some(None) => Some(None),
                None => None,
            },
            other => other,
        }
    }
}

/// Rows with their keys, each row once (the first time it comes).
pub open spec fn distinct_keyed(os: Seq<Seq<ValueV>>, ks: Seq<Seq<ValueV>>) -> (Seq<Seq<ValueV>>, Seq<Seq<ValueV>>)
    decreases os.len(),
{
    if os.len() == 0 {
        (Seq::empty(), Seq::empty())
    } else {
        let prev = distinct_keyed(os.drop_last(), ks.drop_last());
        if prev.0.contains(os.last()) { prev } else { (prev.0.push(os.last()), prev.1.push(ks.last())) }
    }
}

/// The representative row of a group: its first row, or NULLs for an empty group.
pub open spec fn group_rep(g: Seq<Seq<ValueV>>, width: nat) -> Seq<ValueV> {
    if g.len() > 0 { g[0] } else { nulls(width) }
}

/// The output of one group: `Some(Some(None))` when HAVING drops it,
/// `Some(Some(Some((row, keys))))` for its projection and sort keys; HAVING,
/// the select list and the keys are evaluated on its representative row
/// within the group.
pub open spec fn group_output(g: Seq<Seq<ValueV>>, items: Seq<SelectItem>, having: Option<Expr>,
    order: Seq<OrderItem>, names: Seq<Seq<char>>, cols: Seq<ColView>, fuel: nat)
    -> Option<Option<Option<(Seq<ValueV>, Seq<ValueV>)>>>
{
    let rep = group_rep(g, cols.len());
    let keep: Option<Option<bool>> = match having {
        Some(h) => match eval_in(h, cols, rep, Some(g), fuel) {
            Some(Some(v)) => Some(Some(truth(v) == Some(true))),
            Some(None) => Some(None),
            None => None,
        },
        None => Some(Some(true)),
    };
    match keep {
        Some(Some(true)) => match project_spec(items, cols, rep, Some(g), Seq::empty(), 0, fuel) {
            Some(Some(o)) => match keys_spec(order, names, o, cols, rep, Some(g), fuel) {
                Some(Some(k)) => Some(Some(Some((o, k)))),
                Some(None) => Some(None),
                None => None,
            },
            Some(None) => Some(None),
            None => None,
        },
        Some(Some(false)) => Some(Some(None)),
        Some(None) => Some(None),
        None => None,
    }
}

/// The outputs of the groups in order, the groups that HAVING drops left out.
pub open spec fn group_outputs(groups: Seq<Seq<Seq<ValueV>>>, items: Seq<SelectItem>, having: Option<Expr>,
    order: Seq<OrderItem>, names: Seq<Seq<char>>, cols: Seq<ColView>, fuel: nat)
    -> Option<Option<(Seq<Seq<ValueV>>, Seq<Seq<ValueV>>)>>
    decreases groups.len(),
{
    if groups.len() == 0 {
        Some(Some((Seq::empty(), Seq::empty())))
    } else {
        match group_outputs(groups.drop_last(), items, having, order, names, cols, fuel) {
            Some(Some(prev)) => match group_output(groups.last(), items, having, order, names, cols, fuel) {
                Some(Some(Some(ok))) => Some(Some((prev.0.push(ok.0), prev.1.push(ok.1)))),
                Some(Some(None)) => Some(Some(prev)),
                Some(None) => Some(None),
                None => None,
            },
            other => other,
        }
    }
}

/// The groups of a grouping select: by the GROUP BY keys, or one group of
/// all the rows without GROUP BY.
pub open spec fn select_groups(sel: Select, fr: Seq<Seq<ValueV>>, cols: Seq<ColView>, fuel: nat)
    -> Option<Option<Seq<Seq<Seq<ValueV>>>>>
{
    if sel.group_by@.len() > 0 {
        match group_keys_spec(fr, sel.group_by@, cols, fuel) {
            Some(Some(ks)) => Some(Some(group_by_keys(fr, ks).1)),
            Some(None) => Some(None),
            None => None,
        }
    } else {
        Some(Some(seq![fr]))
    }
}

/// The output rows of a select, with their sort keys, before DISTINCT: one
/// per group that HAVING keeps for a grouping select, otherwise one per row
/// that passed WHERE.
pub open spec fn select_core(sel: Select, fr: Seq<Seq<ValueV>>, order: Seq<OrderItem>, names: Seq<Seq<char>>,
    cols: Seq<ColView>, fuel: nat) -> Option<Option<(Seq<Seq<ValueV>>, Seq<Seq<ValueV>>)>>
{
    if select_aggregates(sel) {
        match select_groups(sel, fr, cols, fuel) {
            Some(Some(gs)) => group_outputs(gs, sel.items@, sel.having, order, names, cols, fuel),
            Some(None) => Some(None),
            None => None,
        }
    } else {
        project_keyed(fr, sel.items@, order, names, cols, fuel)
    }
}

/// The rows of a select without window functions, with their sort keys,
/// before sorting.
pub open spec fn select_keyed(db: Db, sel: Select, order: Seq<OrderItem>, fuel: nat)
    -> Option<Option<(Seq<Seq<ValueV>>, Seq<Seq<ValueV>>)>>
{
    if has_window_item(sel.items@) {
        None
    } else {
        match from_list_spec(db, sel.from@, fuel) {
            Some(Some(rel)) => {
                let filtered = match sel.where_clause {
                    Some(w) => filter_spec(rel.1, w, rel.0, fuel),
                    None => Some(Some(rel.1)),
                };
                match filtered {
                    Some(Some(fr)) => match select_core(sel, fr, order, output_names_spec(sel.items@, rel.0), rel.0, fuel) {
                        Some(Some(pk)) => Some(Some(if sel.distinct { distinct_keyed(pk.0, pk.1) } else { pk })),
                        Some(None) => Some(None),
                        None => None,
                    },
                    Some(None) => Some(None),
                    None => None,
                }
            },
            Some(None) => Some(None),
            None => None,
        }
    }
}

/// Positions `idx` list every row once, in key order, rows of equal keys in
/// their original order: a stable sort.
pub open spec fn stable_order(idx: Seq<usize>, keys: Seq<Seq<ValueV>>, order: Seq<OrderItem>) -> bool {
    &&& idx.len() == keys.len()
    &&& forall|k: int| 0 <= k < idx.len() ==> #[trigger] idx[k] < keys.len()
    &&& forall|j: int, k: int| 0 <= j < k < idx.len() ==> #[trigger] idx[j] != #[trigger] idx[k]
    &&& forall|j: int, k: int| #![trigger idx[j], idx[k]] 0 <= j < k < idx.len() ==>
        keys_order(keys[idx[j] as int], keys[idx[k] as int], order, 0) != Order::Greater
        && (keys_order(keys[idx[j] as int], keys[idx[k] as int], order, 0) == Order::Equal ==> idx[j] < idx[k])
}

/// The rows at the given positions.
pub open spec fn pick_rows(rows: Seq<Seq<ValueV>>, idx: Seq<usize>) -> Seq<Seq<ValueV>> {
    idx.map_values(|i: usize| rows[i as int])
}

/// A select with ORDER BY: its column names, its rows and their sort keys
/// before sorting, and the LIMIT and OFFSET, evaluated in that order
/// (LIMIT and OFFSET first).
pub open spec fn ordered_query(db: Db, q: Query, fuel: nat)
    -> Option<Option<(Seq<Seq<char>>, Seq<Seq<ValueV>>, Seq<Seq<ValueV>>, Option<i64>, Option<i64>)>>
{
    match q.body {
        SetExpr::Select(sel) => match count_spec(q.limit, fuel) {
            Some(Some(l)) => match count_spec(q.offset, fuel) {
                Some(Some(o)) => match select_keyed(db, *sel, q.order_by@, fuel) {
                    Some(Some(pk)) => match from_list_spec(db, sel.from@, fuel) {
                        Some(Some(rel)) => Some(Some((output_names_spec(sel.items@, rel.0), pk.0, pk.1, l, o))),
                        _ => None,
                    },
                    Some(None) => Some(None),
                    None => None,
                },
                Some(None) => Some(None),
                None => None,
            },
            Some(None) => Some(None),
            None => None,
        },
        _ => None,
    }
}

/// The relation of a FROM item reads only the tables, views and policies.
pub proof fn lemma_from_spec_frame(d1: Db, d2: Db, f: FromItem, fuel: nat)
    requires d1.tables@ == d2.tables@, d1.views@ == d2.views@, d1.policies@ == d2.policies@,
    ensures from_spec(d1, f, fuel) == from_spec(d2, f, fuel),
    decreases fuel,
{
    if fuel > 0 {
        match f {
            FromItem::Join { left, right, .. } => {
                lemma_from_spec_frame(d1, d2, *left, (fuel - 1) as nat);
                lemma_from_spec_frame(d1, d2, *right, (fuel - 1) as nat);
            },
            _ => {},
        }
    }
}

/// The relation of a FROM list reads only the tables, views and policies.
pub proof fn lemma_from_list_frame(d1: Db, d2: Db, from: Seq<FromItem>, fuel: nat)
    requires d1.tables@ == d2.tables@, d1.views@ == d2.views@, d1.policies@ == d2.policies@,
    ensures from_list_spec(d1, from, fuel) == from_list_spec(d2, from, fuel),
    decreases from.len(),
{
    if from.len() > 0 {
        lemma_from_list_frame(d1, d2, from.drop_last(), fuel);
        lemma_from_spec_frame(d1, d2, from.last(), fuel);
    }
}

/// What a query returns reads only the tables, views and policies.
pub proof fn lemma_query_spec_frame(d1: Db, d2: Db, q: Query, fuel: nat)
    requires d1.tables@ == d2.tables@, d1.views@ == d2.views@, d1.policies@ == d2.policies@,
    ensures query_spec(d1, q, fuel) == query_spec(d2, q, fuel),
{
    match q.body {
        SetExpr::Select(sel) => lemma_from_list_frame(d1, d2, sel.from@, fuel),
        _ => {},
    }
}

/// The GROUP BY key of each row, row after row.
pub open spec fn group_keys_spec(rows: Seq<Seq<ValueV>>, by: Seq<Expr>, cols: Seq<ColView>, fuel: nat)
    -> Option<Option<Seq<Seq<ValueV>>>>
    decreases rows.len(),
{
    if rows.len() == 0 {
        Some(Some(Seq::empty()))
    } else {
        match group_keys_spec(rows.drop_last(), by, cols, fuel) {
            Some(Some(prev)) => match core_eval_list(by, cols, rows.last(), fuel) {
                Some(Some(k)) => Some(Some(prev.push(k))),
                Some(None) => Some(None),
                None => None,
            },
            other => other,
        }
    }
}

/// Position of the first key from `i` on that equals `k`.
pub open spec fn key_pos(ks: Seq<Seq<ValueV>>, k: Seq<ValueV>, i: int) -> Option<int>
    decreases ks.len() - i,
{
    if i < 0 || i >= ks.len() {
        None
    } else if ks[i] == k {
        Some(i)
    } else {
        key_pos(ks, k, i + 1)
    }
}

/// The rows grouped by their keys: the distinct keys in order of first
/// appearance, and for each the rows with that key, in order.
pub open spec fn group_by_keys(rows: Seq<Seq<ValueV>>, keys: Seq<Seq<ValueV>>) -> (Seq<Seq<ValueV>>, Seq<Seq<Seq<ValueV>>>)
    decreases rows.len(),
{
    if rows.len() == 0 {
        (Seq::empty(), Seq::empty())
    } else {
        let prev = group_by_keys(rows.drop_last(), keys.drop_last());
        match key_pos(prev.0, keys.last(), 0) {
            Some(j) => (prev.0, prev.1.update(j, prev.1[j].push(rows.last()))),
            None => (prev.0.push(keys.last()), prev.1.push(seq![rows.last()])),
        }
    }
}

/// What a query with ORDER BY returns reads only the tables, views and policies.
pub proof fn lemma_ordered_query_frame(d1: Db, d2: Db, q: Query, fuel: nat)
    requires d1.tables@ == d2.tables@, d1.views@ == d2.views@, d1.policies@ == d2.policies@,
    ensures ordered_query(d1, q, fuel) == ordered_query(d2, q, fuel),
{
    match q.body {
        SetExpr::Select(sel) => lemma_from_list_frame(d1, d2, sel.from@, fuel),
        _ => {},
    }
}

/// `*` over columns none of which is hidden shows the first values of the row.
pub proof fn lemma_star_values_visible(cols: Seq<ColView>, row: Seq<ValueV>)
    requires forall|i: int| 0 <= i < cols.len() ==> !(#[trigger] cols[i]).2, cols.len() <= row.len(),
    ensures star_values(cols, row, None) == row.take(cols.len() as int),
    decreases cols.len(),
{
    if cols.len() > 0 {
        lemma_star_values_visible(cols.drop_last(), row);
        assert(row.take(cols.len() as int) =~= row.take(cols.len() - 1).push(row[cols.len() - 1]));
    } else {
        assert(row.take(0) =~= Seq::<ValueV>::empty());
    }
}

/// `*` over a scanned table row shows its stored values.
pub proof fn lemma_star_scan_row(t: Table, alias: Seq<char>, r: Row)
    requires r.values@.len() == t.columns@.len(),
    ensures star_values(table_cols_view(t, alias), scan_row(r), None) == vals(r.values@),
{
    let cv = table_cols_view(t, alias);
    let shown = cv.drop_last();
    assert(forall|i: int| 0 <= i < shown.len() ==> !(#[trigger] shown[i]).2);
    lemma_star_values_visible(shown, scan_row(r));
    assert(scan_row(r).take(shown.len() as int) =~= vals(r.values@));
}

/// Without row-level security a scan yields every row.
pub proof fn lemma_scan_rows_plain(t: Table, pols: Seq<PolicyDef>, cols: Seq<ColView>, rows: Seq<Row>, fuel: nat)
    requires !t.row_security,
    ensures scan_rows(t, pols, cols, rows, fuel) == Some(Some(rows.map_values(|r: Row| scan_row(r)))),
    decreases rows.len(),
{
    if rows.len() > 0 {
        lemma_scan_rows_plain(t, pols, cols, rows.drop_last(), fuel);
        assert(rows.map_values(|r: Row| scan_row(r)) =~= rows.drop_last().map_values(|r: Row| scan_row(r)).push(scan_row(rows.last())));
    } else {
        assert(rows.map_values(|r: Row| scan_row(r)) =~= Seq::<Seq<ValueV>>::empty());
    }
}

/// `SELECT *` projects a row to what `*` shows.
pub proof fn lemma_project_star(cv: Seq<ColView>, x: Seq<ValueV>, w: Seq<Option<Seq<ValueV>>>, p: int, fuel: nat)
    ensures project_spec(seq![SelectItem::Star], cv, x, None, w, p, fuel) == Some(Some(star_values(cv, x, None))),
{
    let items = seq![SelectItem::Star];
    assert(items.drop_last() =~= Seq::<SelectItem>::empty());
    assert(items.last() == SelectItem::Star);
    assert(project_spec(items.drop_last(), cv, x, None, w, p, fuel) == Some(Some(Seq::<ValueV>::empty())));
    assert(item_values(items.last(), items.len() - 1, cv, x, None, w, p, fuel) == Some(Some(star_values(cv, x, None))));
    assert(Seq::<ValueV>::empty() + star_values(cv, x, None) =~= star_values(cv, x, None));
}

/// The cross product with the one empty row is the other side.
pub proof fn lemma_cross_unit(ys: Seq<Seq<ValueV>>)
    ensures cross(seq![Seq::<ValueV>::empty()], ys) == ys,
{
    let xs = seq![Seq::<ValueV>::empty()];
    let m = prefix_all(xs.last(), ys);
    assert(xs.drop_last() =~= Seq::<Seq<ValueV>>::empty());
    assert(cross(Seq::<Seq<ValueV>>::empty(), ys) == Seq::<Seq<ValueV>>::empty());
    assert forall|i: int| 0 <= i < ys.len() implies #[trigger] m[i] == ys[i] by {
        assert(xs.last() + ys[i] =~= ys[i]);
    }
    assert(Seq::<Seq<ValueV>>::empty() + m =~= ys);
}

/// `SELECT *` over the rows of a table without row-level security, filtered
/// by a condition that is decided on each row, gives the stored values of
/// the rows that pass.
pub proof fn lemma_star_scan_select(t: Table, alias: Seq<char>, rows: Seq<Row>, cond: Option<Expr>, order: Seq<OrderItem>,
    names: Seq<Seq<char>>, fuel: nat)
    requires
        forall|i: int| 0 <= i < rows.len() ==> (#[trigger] rows[i]).values@.len() == t.columns@.len(),
        decided_on(cond, table_cols_view(t, alias), rows, fuel),
        order.len() == 0,
    ensures ({
        let cv = table_cols_view(t, alias);
        let scanned = rows.map_values(|r: Row| scan_row(r));
        let fr = match cond { Some(w) => filter_spec(scanned, w, cv, fuel), None => Some(Some(scanned)) };
        fr matches Some(Some(ff)) && project_keyed(ff, seq![SelectItem::Star], order, names, cv, fuel) matches Some(Some(pk))
            && pk.0 == selected_rows(rows, cond, cv, fuel)
    }),
    decreases rows.len(),
{
    let cv = table_cols_view(t, alias);
    let scanned = rows.map_values(|r: Row| scan_row(r));
    let items = seq![SelectItem::Star];
    if rows.len() == 0 {
        assert(scanned =~= Seq::<Seq<ValueV>>::empty());
    } else {
        let init = rows.drop_last();
        let last = rows.last();
        assert(decided_on(cond, cv, init, fuel)) by {
            match cond {
                Some(c) => {
                    assert forall|i: int| 0 <= i < init.len() implies core_eval(c, cv, scan_row(#[trigger] init[i]), fuel) matches Some(Some(_)) by {
                        assert(init[i] == rows[i]);
                    }
                },
                None => {},
            }
        }
        assert forall|i: int| 0 <= i < init.len() implies (#[trigger] init[i]).values@.len() == t.columns@.len() by {
            assert(init[i] == rows[i]);
        }
        lemma_star_scan_select(t, alias, init, cond, order, names, fuel);
        let si = init.map_values(|r: Row| scan_row(r));
        assert(forall|o: Seq<ValueV>, r: Seq<ValueV>| keys_spec(order, names, o, cv, r, None, fuel) == Some(Some(Seq::<ValueV>::empty())));
        assert(scanned =~= si.push(scan_row(last)));
        assert(scanned.drop_last() =~= si);
        lemma_star_scan_row(t, alias, last);
        let x = scan_row(last);
        assert(rows[rows.len() - 1] == last);
        let fi = match cond { Some(w) => filter_spec(si, w, cv, fuel), None => Some(Some(si)) };
        let ffi = fi.unwrap().unwrap();
        match cond {
            Some(w) => {
                assert(core_eval(w, cv, x, fuel) matches Some(Some(_))) by {
                    assert(rows[rows.len() - 1] == last);
                }
                let v = core_eval(w, cv, x, fuel).unwrap().unwrap();
                if truth(v) == Some(true) {
                    assert(filter_spec(scanned, w, cv, fuel) == Some(Some(ffi.push(x))));
                    assert(ffi.push(x).drop_last() =~= ffi);
                    lemma_project_star(cv, x, no_wins(items.len()), ffi.len() as int, fuel);
                } else {
                    assert(filter_spec(scanned, w, cv, fuel) == Some(Some(ffi)));
                }
            },
            None => {
                assert(scanned.drop_last() =~= si);
                lemma_project_star(cv, x, no_wins(items.len()), si.len() as int, fuel);
            },
        }
    }
}

/// A query of the scanned form, on well-formed tables, gives the rows that
/// `scan_result` describes.
pub proof fn lemma_scan_query_spec(db: Db, q: Query, fuel: nat)
    requires fuel > 0, tables_wf(db.tables@), scan_result(db.tables@, q, fuel) is Some,
    ensures query_spec(db, q, fuel) matches Some(Some(res)) && res.1 == scan_result(db.tables@, q, fuel).unwrap(),
{
    let (name, alias, cond) = scan_query(q).unwrap();
    let sel = match q.body { SetExpr::Select(s) => *s, _ => arbitrary() };
    let ti = table_from(db.tables@, name, 0).unwrap();
    crate::vm::semantics::lemma_table_from_found(db.tables@, name, 0);
    let t = db.tables@[ti];
    let cv = table_cols_view(t, alias);
    assert(t.wf());
    assert(sel.items@ =~= seq![SelectItem::Star]);
    assert(!select_aggregates(sel)) by {
        if exists|i: int| 0 <= i < sel.items@.len() && (#[trigger] sel.items@[i] matches SelectItem::Item { expr, .. } && aggregate_in(expr, 1000)) {
            let i = choose|i: int| 0 <= i < sel.items@.len() && (#[trigger] sel.items@[i] matches SelectItem::Item { expr, .. } && aggregate_in(expr, 1000));
            assert(i == 0);
        }
    }
    assert(!has_window_item(sel.items@)) by {
        if has_window_item(sel.items@) {
            let i = choose|i: int| 0 <= i < sel.items@.len() && (#[trigger] sel.items@[i] matches SelectItem::Item { expr: Expr::Window { .. }, .. });
            assert(i == 0);
        }
    }
    assert(sel.from@ =~= seq![sel.from@[0]]);
    assert(sel.from@.drop_last() =~= Seq::<FromItem>::empty());
    lemma_scan_rows_plain(t, db.policies@, cv, t.rows@, fuel);
    let scanned = t.rows@.map_values(|r: Row| scan_row(r));
    assert(from_spec(db, sel.from@[0], fuel) == Some(Some((cv, scanned))));
    lemma_cross_unit(scanned);
    assert(Seq::<ColView>::empty() + cv =~= cv);
    assert(from_list_spec(db, Seq::<FromItem>::empty(), fuel) == Some(Some((Seq::<ColView>::empty(), seq![Seq::<ValueV>::empty()]))));
    assert(from_list_spec(db, sel.from@, fuel) == Some(Some((cv, scanned))));
    assert forall|i: int| 0 <= i < t.rows@.len() implies (#[trigger] t.rows@[i]).values@.len() == t.columns@.len() by {}
    lemma_star_scan_select(t, alias, t.rows@, cond, q.order_by@, output_names_spec(sel.items@, cv), fuel);
    let rows = selected_rows(t.rows@, cond, cv, fuel);
    assert(select_keyed(db, sel, q.order_by@, fuel) matches Some(Some(pk)) && pk.0 == rows);
    assert(page_spec(rows, None, None) =~= rows);
}


/// `SELECT COUNT(*) FROM name [WHERE condition]` gives one row holding the
/// number of rows its FROM list gives that pass the condition.
pub proof fn law_count_star(db: Db, q: Query, n: Seq<char>, rel: RelV, fr: Seq<Seq<ValueV>>)
    requires
        (q.body matches SetExpr::Select(sel) && crate::sql::parser::count_base(*sel, n)
            && from_list_spec(db, sel.from@, 1000) == Some(Some(rel))
            && match sel.where_clause {
                Some(w) => filter_spec(rel.1, w, rel.0, 1000) == Some(Some(fr)),
                None => fr == rel.1,
            }),
        q.order_by@.len() == 0, q.limit is None, q.offset is None,
        fr.len() <= i64::MAX,
    ensures
        query_spec(db, q, 1000) matches Some(Some(nr)) && nr.1 == seq![seq![ValueV::Int(fr.len() as int)]],
{
    let sel = match q.body { SetExpr::Select(s) => *s, _ => arbitrary() };
    let it = sel.items@[0];
    let e = match it { SelectItem::Item { expr, .. } => expr, _ => arbitrary() };
    let f: nat = 1000;
    assert(!has_window_item(sel.items@)) by {
        if has_window_item(sel.items@) {
            let i = choose|i: int| 0 <= i < sel.items@.len() && (#[trigger] sel.items@[i] matches SelectItem::Item { expr: Expr::Window { .. }, .. });
            assert(i == 0);
        }
    }
    assert(crate::vm::semantics::aggregate_name(e->Function_name@, 0));
    assert(aggregate_in(e, 1000));
    assert(sel.items@[0] matches SelectItem::Item { expr, .. } && aggregate_in(expr, 1000));
    assert(select_aggregates(sel));
    let g = fr;
    let cols = rel.0;
    let rep = group_rep(g, cols.len());
    assert(eval_in(e, cols, rep, Some(g), f) == Some(Some(ValueV::Int(g.len() as int))));
    assert(item_values(it, 0, cols, rep, Some(g), Seq::empty(), 0, f) == Some(Some(seq![ValueV::Int(g.len() as int)])));
    assert(sel.items@.drop_last() =~= Seq::<SelectItem>::empty());
    assert(sel.items@.last() == it);
    assert(project_spec(sel.items@.drop_last(), cols, rep, Some(g), Seq::empty(), 0, f) == Some(Some(Seq::<ValueV>::empty())));
    assert(Seq::<ValueV>::empty() + seq![ValueV::Int(g.len() as int)] =~= seq![ValueV::Int(g.len() as int)]);
    assert(project_spec(sel.items@, cols, rep, Some(g), Seq::empty(), 0, f) == Some(Some(seq![ValueV::Int(g.len() as int)])));
    let names = output_names_spec(sel.items@, cols);
    assert(group_output(g, sel.items@, sel.having, Seq::empty(), names, cols, f)
        == Some(Some(Some((seq![ValueV::Int(g.len() as int)], Seq::<ValueV>::empty())))));
    assert(seq![g].drop_last() =~= Seq::<Seq<Seq<ValueV>>>::empty());
    assert(seq![g].last() == g);
    assert(group_outputs(seq![g].drop_last(), sel.items@, sel.having, Seq::empty(), names, cols, f)
        == Some(Some((Seq::<Seq<ValueV>>::empty(), Seq::<Seq<ValueV>>::empty()))));
    let one: Seq<Seq<ValueV>> = seq![seq![ValueV::Int(g.len() as int)]];
    assert(group_outputs(seq![g], sel.items@, sel.having, Seq::empty(), names, cols, f)
        == Some(Some((Seq::<Seq<ValueV>>::empty().push(seq![ValueV::Int(g.len() as int)]), Seq::<Seq<ValueV>>::empty().push(Seq::<ValueV>::empty())))));
    assert(Seq::<Seq<ValueV>>::empty().push(seq![ValueV::Int(g.len() as int)]) =~= one);
    assert(q.order_by@ =~= Seq::<OrderItem>::empty());
    assert(select_groups(sel, g, cols, f) == Some(Some(seq![g])));
    assert(select_core(sel, g, q.order_by@, names, cols, f) matches Some(Some(pk)) && pk.0 == one);
    assert(select_keyed(db, sel, q.order_by@, f) matches Some(Some(pk)) && pk.0 == one);
    assert(page_spec(one, None, None) =~= one);
}


/// A table without row security is scanned whole: one row for each stored row.
proof fn lemma_scan_plain(t: Table, pols: Seq<PolicyDef>, cols: Seq<ColView>, rows: Seq<Row>, fuel: nat)
    requires !t.row_security,
    ensures scan_rows(t, pols, cols, rows, fuel) matches Some(Some(rs)) && rs.len() == rows.len(),
    decreases rows.len(),
{
    if rows.len() > 0 {
        lemma_scan_plain(t, pols, cols, rows.drop_last(), fuel);
    }
}

/// `FROM name` on a table without row security gives one row for each of
/// its stored rows.
pub proof fn law_table_scan(db: Db, name: Vec<char>, ti: int)
    requires table_from(db.tables@, name@, 0) == Some(ti), !db.tables@[ti].row_security,
    ensures ({
        let from = seq![FromItem::Table { name, alias: None }];
        from_list_spec(db, from, 1000) matches Some(Some(rel)) && rel.1.len() == db.tables@[ti].rows@.len()
    }),
{
    let t = db.tables@[ti];
    let from = seq![FromItem::Table { name, alias: None }];
    let cv = table_cols_view(t, name@);
    lemma_scan_plain(t, db.policies@, cv, t.rows@, 1000);
    let rs = scan_rows(t, db.policies@, cv, t.rows@, 1000).unwrap().unwrap();
    assert(from.drop_last() =~= Seq::<FromItem>::empty());
    assert(from_spec(db, from.last(), 1000) == Some(Some((cv, rs))));
    let xs: Seq<Seq<ValueV>> = seq![Seq::empty()];
    assert(xs.drop_last() =~= Seq::<Seq<ValueV>>::empty());
    assert(cross(xs, rs) == cross(xs.drop_last(), rs) + prefix_all(xs.last(), rs));
    assert(cross(xs.drop_last(), rs) == Seq::<Seq<ValueV>>::empty());
    assert(cross(xs, rs).len() == rs.len());
    assert(from_list_spec(db, from.drop_last(), 1000) == Some(Some((Seq::<ColView>::empty(), xs))));
    assert(from.last() == (FromItem::Table { name, alias: None }));
    assert(from_list_spec(db, from, 1000) == Some(Some((Seq::<ColView>::empty() + cv, cross(xs, rs)))));
}

} // verus!
