//! Statements that describe the database or a plan: SHOW TABLES,
//! SHOW ENGINE STATUS and EXPLAIN.

use vstd::prelude::*;
use crate::types::{Value, str_chars, text_value, chars_to_string};
use crate::text::int_to_text;
use crate::sql::ast::{Statement, Query, SetExpr, SetOperator, FromItem, JoinKind, Select};
use crate::error::Result;
use crate::vm::db::Db;
use crate::vm::query::{exec_query, append_chars, small};
use crate::vm::execute::{ExecResult, MAX_FUEL};

verus! {

/// `n` pairs of spaces.
pub open spec fn spaces(n: int) -> Seq<char> {
    Seq::new((2 * n) as nat, |i: int| ' ')
}

/// A line of a plan: two spaces for each level of indent, the text, a newline.
pub open spec fn line(indent: int, text: Seq<char>) -> Seq<char> {
    spaces(indent) + text + seq!['\n']
}

/// The lines that describe a source of rows at the given indent; what lies
/// below the deepest indent is left out.
pub open spec fn from_plan(f: FromItem, indent: int) -> Seq<char>
    decreases 64 - indent, 0int,
{
    match f {
        FromItem::Table { name, .. } => line(indent, "SCAN "@ + name@),
        FromItem::Derived { query, alias } => line(indent, "SUBQUERY "@ + alias@)
            + (if 0 <= indent < 64 { set_plan(query.body, indent + 1) } else { Seq::empty() }),
        FromItem::Series { .. } => line(indent, "GENERATE_SERIES"@),
        FromItem::Join { left, right, kind, on } => line(indent, match kind {
                JoinKind::Inner => "INNER JOIN"@,
                JoinKind::Left => "LEFT JOIN"@,
                JoinKind::Cross => "CROSS JOIN"@,
            })
            + (if 0 <= indent < 64 {
                from_plan(*left, indent + 1) + from_plan(*right, indent + 1)
                    + (if on is Some { line(indent + 1, "ON condition"@) } else { Seq::empty() })
            } else { Seq::empty() }),
    }
}

/// The lines that describe the first `k` sources of a FROM list.
pub open spec fn froms_plan(fs: Seq<FromItem>, indent: int, k: int) -> Seq<char>
    decreases 64 - indent, k,
{
    if k <= 0 || k > fs.len() || indent > 64 { Seq::empty() } else { froms_plan(fs, indent, k - 1) + from_plan(fs[k - 1], indent) }
}

/// The lines below the SELECT line of a select at the given indent: its
/// sources, then a line for each of WHERE, GROUP BY, HAVING and DISTINCT
/// that it has.
pub open spec fn select_parts(sel: Select, indent: int) -> Seq<char>
    decreases 64 - indent, 0int,
{
    if 0 <= indent < 64 {
        froms_plan(sel.from@, indent + 1, sel.from@.len() as int)
            + (if sel.where_clause is Some { line(indent + 1, "FILTER"@) } else { Seq::empty() })
            + (if sel.group_by@.len() > 0 { line(indent + 1, "GROUP BY"@) } else { Seq::empty() })
            + (if sel.having is Some { line(indent + 1, "HAVING"@) } else { Seq::empty() })
            + (if sel.distinct { line(indent + 1, "DISTINCT"@) } else { Seq::empty() })
    } else {
        Seq::empty()
    }
}

/// The lines that describe a select or a set operation at the given indent.
pub open spec fn set_plan(s: SetExpr, indent: int) -> Seq<char>
    decreases 64 - indent, 1int,
{
    match s {
        SetExpr::Select(sel) => line(indent, "SELECT"@) + select_parts(*sel, indent),
        SetExpr::SetOp { op, all, left, right } => line(indent, match op {
                SetOperator::Union => if all { "UNION ALL"@ } else { "UNION"@ },
                SetOperator::Intersect => "INTERSECT"@,
                SetOperator::Except => "EXCEPT"@,
            })
            + (if 0 <= indent < 64 { set_plan(*left, indent + 1) + set_plan(*right, indent + 1) } else { Seq::empty() }),
    }
}

/// The plan of a query.
pub open spec fn query_plan(q: Query) -> Seq<char> {
    line(0, "QUERY PLAN"@) + set_plan(q.body, 1)
        + (if q.order_by@.len() > 0 { line(1, "SORT"@) } else { Seq::empty() })
        + (if q.limit is Some { line(1, "LIMIT"@) } else { Seq::empty() })
        + (if q.offset is Some { line(1, "OFFSET"@) } else { Seq::empty() })
}

fn push_spaces(out: &mut Vec<char>, indent: usize)
    ensures final(out)@ == old(out)@ + spaces(indent as int),
{
    let mut i: usize = 0;
    while i < indent
        invariant i <= indent, out@ == old(out)@ + spaces(i as int),
        decreases indent - i,
    {
        out.push(' ');
        out.push(' ');
        i += 1;
        assert(out@ =~= old(out)@ + spaces(i as int));
    }
}

fn push_line(out: &mut Vec<char>, indent: usize, text: &str)
    ensures final(out)@ == old(out)@ + line(indent as int, text@),
{
    push_spaces(out, indent);
    let t = str_chars(text);
    append_chars(out, &t);
    out.push('\n');
    assert(out@ =~= old(out)@ + line(indent as int, text@));
}

fn push_named_line(out: &mut Vec<char>, indent: usize, text: &str, name: &Vec<char>)
    ensures final(out)@ == old(out)@ + line(indent as int, text@ + name@),
{
    push_spaces(out, indent);
    let t = str_chars(text);
    append_chars(out, &t);
    append_chars(out, name);
    out.push('\n');
    assert(out@ =~= old(out)@ + line(indent as int, text@ + name@));
}

/// Describes one source of rows.
fn describe_from(f: &FromItem, indent: usize, out: &mut Vec<char>)
    requires indent <= 64,
    ensures final(out)@ == old(out)@ + from_plan(*f, indent as int),
    decreases 64 - indent, 0int,
{
    match f {
        FromItem::Table { name, .. } => push_named_line(out, indent, "SCAN ", name),
        FromItem::Derived { query, alias } => {
            push_named_line(out, indent, "SUBQUERY ", alias);
            if indent < 64 {
                describe_set(&query.body, indent + 1, out);
            }
        },
        FromItem::Series { .. } => push_line(out, indent, "GENERATE_SERIES"),
        FromItem::Join { left, right, kind, on } => {
            match kind {
                JoinKind::Inner => push_line(out, indent, "INNER JOIN"),
                JoinKind::Left => push_line(out, indent, "LEFT JOIN"),
                JoinKind::Cross => push_line(out, indent, "CROSS JOIN"),
            }
            if indent < 64 {
                describe_from(left, indent + 1, out);
                describe_from(right, indent + 1, out);
                if on.is_some() {
                    push_line(out, indent + 1, "ON condition");
                }
            }
        },
    }
    assert(out@ =~= old(out)@ + from_plan(*f, indent as int));
}

/// Describes the sources and clauses of a select.
fn describe_select(sel: &Select, indent: usize, out: &mut Vec<char>)
    requires indent <= 64,
    ensures final(out)@ == old(out)@ + select_parts(*sel, indent as int),
    decreases 64 - indent, 0int,
{
    if indent < 64 {
        let mut i: usize = 0;
        assert(out@ =~= old(out)@ + froms_plan(sel.from@, indent + 1, 0));
        while i < sel.from.len()
            invariant i <= sel.from@.len(), indent < 64,
                out@ == old(out)@ + froms_plan(sel.from@, indent + 1, i as int),
            decreases sel.from.len() - i,
        {
            describe_from(&sel.from[i], indent + 1, out);
            i += 1;
            assert(out@ =~= old(out)@ + froms_plan(sel.from@, indent + 1, i as int));
        }
        let ghost p0 = froms_plan(sel.from@, indent + 1, sel.from@.len() as int);
        let ghost l1 = if sel.where_clause is Some { line(indent + 1, "FILTER"@) } else { Seq::empty() };
        let ghost l2 = if sel.group_by@.len() > 0 { line(indent + 1, "GROUP BY"@) } else { Seq::empty() };
        let ghost l3 = if sel.having is Some { line(indent + 1, "HAVING"@) } else { Seq::empty() };
        let ghost l4 = if sel.distinct { line(indent + 1, "DISTINCT"@) } else { Seq::empty() };
        if sel.where_clause.is_some() { push_line(out, indent + 1, "FILTER"); }
        assert(out@ =~= old(out)@ + p0 + l1);
        if sel.group_by.len() > 0 { push_line(out, indent + 1, "GROUP BY"); }
        assert(out@ =~= old(out)@ + p0 + l1 + l2);
        if sel.having.is_some() { push_line(out, indent + 1, "HAVING"); }
        assert(out@ =~= old(out)@ + p0 + l1 + l2 + l3);
        if sel.distinct { push_line(out, indent + 1, "DISTINCT"); }
        assert(out@ =~= old(out)@ + (p0 + l1 + l2 + l3 + l4));
    } else {
        assert(out@ =~= old(out)@ + select_parts(*sel, indent as int));
    }
}

/// Describes a select or a set operation.
fn describe_set(s: &SetExpr, indent: usize, out: &mut Vec<char>)
    requires indent <= 64,
    ensures final(out)@ == old(out)@ + set_plan(*s, indent as int),
    decreases 64 - indent, 1int,
{
    match s {
        SetExpr::Select(sel) => {
            push_line(out, indent, "SELECT");
            describe_select(sel, indent, out);
            assert(out@ =~= old(out)@ + set_plan(*s, indent as int));
        },
        SetExpr::SetOp { op, all, left, right } => {
            match op {
                SetOperator::Union => if *all { push_line(out, indent, "UNION ALL") } else { push_line(out, indent, "UNION") },
                SetOperator::Intersect => push_line(out, indent, "INTERSECT"),
                SetOperator::Except => push_line(out, indent, "EXCEPT"),
            }
            if indent < 64 {
                describe_set(left, indent + 1, out);
                describe_set(right, indent + 1, out);
            }
            assert(out@ =~= old(out)@ + set_plan(*s, indent as int));
        },
    }
}

/// The plan of a query.
pub fn describe_query(q: &Query) -> (r: Vec<char>)
    ensures r@ == query_plan(*q),
{
    let mut out: Vec<char> = Vec::new();
    push_line(&mut out, 0, "QUERY PLAN");
    describe_set(&q.body, 1, &mut out);
    if q.order_by.len() > 0 { push_line(&mut out, 1, "SORT"); }
    if q.limit.is_some() { push_line(&mut out, 1, "LIMIT"); }
    if q.offset.is_some() { push_line(&mut out, 1, "OFFSET"); }
    assert(out@ =~= query_plan(*q));
    out
}

impl Db {
    /// The names of all tables, one per row.
    pub fn show_tables(&self) -> (r: ExecResult)
        ensures r matches ExecResult::QueryResult { columns, rows } && rows@.len() == self.tables@.len()
            && forall|i: int| 0 <= i < rows@.len() ==> (#[trigger] rows@[i])@.len() == 1
                && rows@[i]@[0]@ == crate::types::ValueV::Text(self.tables@[i].name@),
    {
        let mut rows: Vec<Vec<Value>> = Vec::new();
        let mut i: usize = 0;
        while i < self.tables.len()
            invariant i <= self.tables@.len(), rows@.len() == i,
                forall|k: int| 0 <= k < i ==> (#[trigger] rows@[k])@.len() == 1
                    && rows@[k]@[0]@ == crate::types::ValueV::Text(self.tables@[k].name@),
            decreases self.tables.len() - i,
        {
            let mut r: Vec<Value> = Vec::new();
            r.push(text_value(&self.tables[i].name));
            rows.push(r);
            i += 1;
        }
        let mut columns: Vec<String> = Vec::new();
        columns.push("name".to_owned());
        ExecResult::QueryResult { columns, rows }
    }

    /// A summary of what the engine holds.
    pub fn engine_status(&self) -> (r: ExecResult)
        ensures r is Explain,
    {
        let mut total: usize = 0;
        let mut i: usize = 0;
        while i < self.tables.len()
            invariant i <= self.tables@.len(),
            decreases self.tables.len() - i,
        {
            let n = self.tables[i].rows.len();
            total = if total <= usize::MAX - n { total + n } else { usize::MAX };
            i += 1;
        }
        let mut out: Vec<char> = Vec::new();
        push_line(&mut out, 0, "Storage: in-memory");
        push_named_line(&mut out, 0, "Tables: ", &int_to_text(small(self.tables.len())));
        push_named_line(&mut out, 0, "Total rows: ", &int_to_text(small(total)));
        push_named_line(&mut out, 0, "Indexes: ", &int_to_text(small(self.indexes.len())));
        push_named_line(&mut out, 0, "Triggers: ", &int_to_text(small(self.triggers.len())));
        ExecResult::Explain { plan: chars_to_string(&out) }
    }

    /// `EXPLAIN [ANALYZE] statement`: the plan of a query; with ANALYZE the
    /// query also runs and the plan ends with the number of rows it returned.
    pub fn explain(&self, st: &Statement, analyze: bool) -> (r: Result<ExecResult>)
        ensures r matches Ok(x) ==> x is Explain,
            match *st {
                Statement::Query(q) => {
                    &&& !analyze ==> (r matches Ok(ExecResult::Explain { plan }) && plan@ == query_plan(*q))
                    &&& analyze ==> (r matches Ok(ExecResult::Explain { plan }) ==>
                        plan@.len() > query_plan(*q).len() && plan@.take(query_plan(*q).len() as int) == query_plan(*q))
                },
                _ => r matches Ok(ExecResult::Explain { plan }) && plan@ == line(0, "EXECUTE STATEMENT"@),
            },
    {
        match st {
            Statement::Query(q) => {
                let mut plan = describe_query(q);
                if analyze {
                    let out = exec_query(self, q, None, MAX_FUEL)?;
                    let ghost before = plan@;
                    push_named_line(&mut plan, 0, "Rows returned: ", &int_to_text(small(out.rows.len())));
                    assert(plan@.take(before.len() as int) =~= before);
                }
                Ok(ExecResult::Explain { plan: chars_to_string(&plan) })
            },
            _ => {
                let mut plan: Vec<char> = Vec::new();
                push_line(&mut plan, 0, "EXECUTE STATEMENT");
                Ok(ExecResult::Explain { plan: chars_to_string(&plan) })
            },
        }
    }
}

} // verus!
