//! `UNION`, `INTERSECT` and `EXCEPT` over the rows of two query results.

use vstd::prelude::*;
use crate::types::{Value, ValueV, copy_row};
use crate::sql::ast::SetOperator;
use crate::storage::table::vals;
use crate::vm::semantics::rows_view;
use crate::vm::query::{Output, contains_row};

verus! {

/// `acc` followed by the rows of `s` in order, each left out when `all` is
/// false and the rows so far already hold it.
pub open spec fn add_rows(acc: Seq<Seq<ValueV>>, s: Seq<Seq<ValueV>>, all: bool) -> Seq<Seq<ValueV>>
    decreases s.len(),
{
    if s.len() == 0 {
        acc
    } else {
        let prev = add_rows(acc, s.drop_last(), all);
        if all || !prev.contains(s.last()) { prev.push(s.last()) } else { prev }
    }
}

/// The rows of `l` that `r` holds (`wanted` true) or does not hold
/// (`wanted` false), in order.
pub open spec fn keep_rows(l: Seq<Seq<ValueV>>, r: Seq<Seq<ValueV>>, wanted: bool) -> Seq<Seq<ValueV>>
    decreases l.len(),
{
    if l.len() == 0 {
        Seq::empty()
    } else {
        let prev = keep_rows(l.drop_last(), r, wanted);
        if r.contains(l.last()) == wanted { prev.push(l.last()) } else { prev }
    }
}

/// The rows of `l op r`: without `ALL`, each row once, at its first place.
pub open spec fn set_op_rows(op: SetOperator, all: bool, l: Seq<Seq<ValueV>>, r: Seq<Seq<ValueV>>) -> Seq<Seq<ValueV>> {
    match op {
        SetOperator::Union => add_rows(add_rows(Seq::empty(), l, all), r, all),
        SetOperator::Intersect => add_rows(Seq::empty(), keep_rows(l, r, true), all),
        SetOperator::Except => add_rows(Seq::empty(), keep_rows(l, r, false), all),
    }
}

/// No row occurs twice.
pub open spec fn no_repeats(s: Seq<Seq<ValueV>>) -> bool {
    forall|i: int, j: int| 0 <= i < j < s.len() ==> s[i] != s[j]
}

/// A row is among the added ones when it was there before or is one of the added rows.
pub proof fn lemma_add_rows_contains(acc: Seq<Seq<ValueV>>, s: Seq<Seq<ValueV>>, all: bool, x: Seq<ValueV>)
    ensures add_rows(acc, s, all).contains(x) <==> (acc.contains(x) || s.contains(x)),
    decreases s.len(),
{
    if s.len() > 0 {
        lemma_add_rows_contains(acc, s.drop_last(), all, x);
        let prev = add_rows(acc, s.drop_last(), all);
        if s.contains(x) && !s.drop_last().contains(x) {
            let k = choose|k: int| 0 <= k < s.len() && s[k] == x;
            if k < s.len() - 1 {
                assert(s.drop_last()[k] == x);
            }
            assert(s.last() == x);
        }
        if s.drop_last().contains(x) {
            let k = choose|k: int| 0 <= k < s.drop_last().len() && s.drop_last()[k] == x;
            assert(s[k] == x);
        }
        if prev.push(s.last()).contains(x) && !prev.contains(x) {
            let k = choose|k: int| 0 <= k < prev.len() + 1 && prev.push(s.last())[k] == x;
            if k < prev.len() {
                assert(prev[k] == x);
            }
        }
        if prev.contains(x) {
            let k = choose|k: int| 0 <= k < prev.len() && prev[k] == x;
            assert(prev.push(s.last())[k] == x);
        }
        assert(prev.push(s.last())[prev.len() as int] == s.last());
    }
}

/// With `ALL`, adding rows appends them.
pub proof fn lemma_add_rows_all(acc: Seq<Seq<ValueV>>, s: Seq<Seq<ValueV>>)
    ensures add_rows(acc, s, true) == acc + s,
    decreases s.len(),
{
    if s.len() > 0 {
        lemma_add_rows_all(acc, s.drop_last());
        assert(acc + s =~= (acc + s.drop_last()).push(s.last()));
    }
}

/// Without `ALL`, adding rows to rows without repeats gives rows without repeats.
pub proof fn lemma_add_rows_no_repeats(acc: Seq<Seq<ValueV>>, s: Seq<Seq<ValueV>>)
    requires no_repeats(acc),
    ensures no_repeats(add_rows(acc, s, false)),
    decreases s.len(),
{
    if s.len() > 0 {
        lemma_add_rows_no_repeats(acc, s.drop_last());
        let prev = add_rows(acc, s.drop_last(), false);
        if !prev.contains(s.last()) {
            let next = prev.push(s.last());
            assert forall|i: int, j: int| 0 <= i < j < next.len() implies next[i] != next[j] by {
                if j == prev.len() {
                    assert(next[i] == prev[i]);
                } else {
                    assert(next[i] == prev[i] && next[j] == prev[j]);
                }
            }
        }
    }
}

/// A row is kept when `l` holds it and `r` holds it or not, as wanted.
pub proof fn lemma_keep_rows_contains(l: Seq<Seq<ValueV>>, r: Seq<Seq<ValueV>>, wanted: bool, x: Seq<ValueV>)
    ensures keep_rows(l, r, wanted).contains(x) <==> (l.contains(x) && r.contains(x) == wanted),
    decreases l.len(),
{
    if l.len() > 0 {
        lemma_keep_rows_contains(l.drop_last(), r, wanted, x);
        let prev = keep_rows(l.drop_last(), r, wanted);
        if l.contains(x) && !l.drop_last().contains(x) {
            let k = choose|k: int| 0 <= k < l.len() && l[k] == x;
            if k < l.len() - 1 {
                assert(l.drop_last()[k] == x);
            }
        }
        if l.drop_last().contains(x) {
            let k = choose|k: int| 0 <= k < l.drop_last().len() && l.drop_last()[k] == x;
            assert(l[k] == x);
        }
        if prev.push(l.last()).contains(x) && !prev.contains(x) {
            let k = choose|k: int| 0 <= k < prev.len() + 1 && prev.push(l.last())[k] == x;
            if k < prev.len() {
                assert(prev[k] == x);
            }
        }
        if prev.contains(x) {
            let k = choose|k: int| 0 <= k < prev.len() && prev[k] == x;
            assert(prev.push(l.last())[k] == x);
        }
        assert(prev.push(l.last())[prev.len() as int] == l.last());
    }
}

/// `UNION ALL` is the rows of the left query followed by those of the right one.
pub proof fn law_union_all(l: Seq<Seq<ValueV>>, r: Seq<Seq<ValueV>>)
    ensures set_op_rows(SetOperator::Union, true, l, r) == l + r,
{
    lemma_add_rows_all(Seq::empty(), l);
    assert(Seq::<Seq<ValueV>>::empty() + l =~= l);
    lemma_add_rows_all(l, r);
}

/// Without `ALL`, a set operation gives each row at most once.
pub proof fn law_set_op_distinct(op: SetOperator, l: Seq<Seq<ValueV>>, r: Seq<Seq<ValueV>>)
    ensures no_repeats(set_op_rows(op, false, l, r)),
{
    let e = Seq::<Seq<ValueV>>::empty();
    match op {
        SetOperator::Union => {
            lemma_add_rows_no_repeats(e, l);
            lemma_add_rows_no_repeats(add_rows(e, l, false), r);
        },
        SetOperator::Intersect => lemma_add_rows_no_repeats(e, keep_rows(l, r, true)),
        SetOperator::Except => lemma_add_rows_no_repeats(e, keep_rows(l, r, false)),
    }
}

/// A row is in `l UNION r` when it is in `l` or in `r`, in `l INTERSECT r`
/// when it is in both, and in `l EXCEPT r` when it is in `l` and not in `r`;
/// with or without `ALL`.
pub proof fn law_set_op_members(op: SetOperator, all: bool, l: Seq<Seq<ValueV>>, r: Seq<Seq<ValueV>>, x: Seq<ValueV>)
    ensures
        set_op_rows(op, all, l, r).contains(x) <==> (match op {
            SetOperator::Union => l.contains(x) || r.contains(x),
            SetOperator::Intersect => l.contains(x) && r.contains(x),
            SetOperator::Except => l.contains(x) && !r.contains(x),
        }),
{
    let e = Seq::<Seq<ValueV>>::empty();
    match op {
        SetOperator::Union => {
            lemma_add_rows_contains(e, l, all, x);
            lemma_add_rows_contains(add_rows(e, l, all), r, all, x);
        },
        SetOperator::Intersect => {
            lemma_add_rows_contains(e, keep_rows(l, r, true), all, x);
            lemma_keep_rows_contains(l, r, true, x);
        },
        SetOperator::Except => {
            lemma_add_rows_contains(e, keep_rows(l, r, false), all, x);
            lemma_keep_rows_contains(l, r, false, x);
        },
    }
}

/// Whether the rows hold a row equal to `row`.
pub fn contains_view(rows: &Vec<Vec<Value>>, row: &Vec<Value>) -> (b: bool)
    ensures b == rows_view(rows@).contains(vals(row@)),
{
    let b = contains_row(rows, row);
    proof {
        if b {
            let i = choose|i: int| 0 <= i < rows@.len() && vals(#[trigger] rows@[i]@) == vals(row@);
            assert(rows_view(rows@)[i] == vals(row@));
        }
        if rows_view(rows@).contains(vals(row@)) {
            let i = choose|i: int| 0 <= i < rows_view(rows@).len() && rows_view(rows@)[i] == vals(row@);
            assert(vals(rows@[i]@) == vals(row@));
        }
    }
    b
}

/// Appends the rows of `src` to `acc` as [`add_rows`] says.
fn append_rows(acc: &mut Vec<Vec<Value>>, src: &Vec<Vec<Value>>, all: bool)
    ensures rows_view(final(acc)@) == add_rows(rows_view(old(acc)@), rows_view(src@), all),
{
    let ghost start = rows_view(acc@);
    let mut i: usize = 0;
    while i < src.len()
        invariant i <= src@.len(), rows_view(acc@) == add_rows(start, rows_view(src@.take(i as int)), all),
        decreases src.len() - i,
    {
        proof {
            assert(rows_view(src@.take(i + 1)).drop_last() =~= rows_view(src@.take(i as int)));
            assert(rows_view(src@.take(i + 1)).last() == vals(src@[i as int]@));
        }
        if all || !contains_view(acc, &src[i]) {
            let ghost prev = acc@;
            let c = copy_row(&src[i]);
            assert(vals(c@) =~= vals(src@[i as int]@));
            acc.push(c);
            assert(rows_view(acc@) =~= rows_view(prev).push(vals(src@[i as int]@)));
        }
        i += 1;
    }
    assert(src@.take(src@.len() as int) =~= src@);
}

/// The rows of `l` that `r` holds, or does not hold, as [`keep_rows`] says.
fn filter_by(l: &Vec<Vec<Value>>, r: &Vec<Vec<Value>>, wanted: bool) -> (out: Vec<Vec<Value>>)
    ensures rows_view(out@) == keep_rows(rows_view(l@), rows_view(r@), wanted),
{
    let mut out: Vec<Vec<Value>> = Vec::new();
    let mut i: usize = 0;
    while i < l.len()
        invariant i <= l@.len(), rows_view(out@) == keep_rows(rows_view(l@.take(i as int)), rows_view(r@), wanted),
        decreases l.len() - i,
    {
        proof {
            assert(rows_view(l@.take(i + 1)).drop_last() =~= rows_view(l@.take(i as int)));
            assert(rows_view(l@.take(i + 1)).last() == vals(l@[i as int]@));
        }
        if contains_view(r, &l[i]) == wanted {
            let ghost prev = out@;
            let c = copy_row(&l[i]);
            assert(vals(c@) =~= vals(l@[i as int]@));
            out.push(c);
            assert(rows_view(out@) =~= rows_view(prev).push(vals(l@[i as int]@)));
        }
        i += 1;
    }
    assert(l@.take(l@.len() as int) =~= l@);
    out
}

/// Combines the results of the two sides of a set operation; the column
/// names are those of the left side.
pub fn combine_sets(op: SetOperator, all: bool, l: Output, r: Output) -> (out: Output)
    ensures
        out.names@ == l.names@,
        rows_view(out.rows@) == set_op_rows(op, all, rows_view(l.rows@), rows_view(r.rows@)),
{
    let mut rows: Vec<Vec<Value>> = Vec::new();
    assert(rows_view(rows@) =~= Seq::<Seq<ValueV>>::empty());
    match op {
        SetOperator::Union => {
            append_rows(&mut rows, &l.rows, all);
            append_rows(&mut rows, &r.rows, all);
        },
        SetOperator::Intersect => {
            let kept = filter_by(&l.rows, &r.rows, true);
            append_rows(&mut rows, &kept, all);
        },
        SetOperator::Except => {
            let kept = filter_by(&l.rows, &r.rows, false);
            append_rows(&mut rows, &kept, all);
        },
    }
    Output { names: l.names, rows }
}

} // verus!
