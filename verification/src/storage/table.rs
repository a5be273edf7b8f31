//! A table: rows kept in increasing rowid order.

use vstd::prelude::*;
use crate::types::{Value, ValueV, copy_row, copy_chars, copy_value};
use crate::sql::ast::FkAction;

verus! {

/// A foreign-key reference of a column.
#[derive(Debug)]
pub struct ForeignRef {
    pub table: Vec<char>,
    pub column: Option<Vec<char>>,
    pub on_delete: FkAction,
}

/// A column of a table.
#[derive(Debug)]
pub struct ColumnInfo {
    pub name: Vec<char>,
    pub declared_type: Vec<char>,
    pub primary_key: bool,
    /// The column is the rowid itself (`INTEGER PRIMARY KEY`).
    pub is_rowid: bool,
    pub not_null: bool,
    pub unique: bool,
    pub default: Option<Value>,
    pub references: Option<ForeignRef>,
}

/// A stored row.
#[derive(Debug)]
pub struct Row {
    pub rowid: i64,
    pub values: Vec<Value>,
}

/// A table.
#[derive(Debug)]
pub struct Table {
    pub name: Vec<char>,
    pub columns: Vec<ColumnInfo>,
    pub rows: Vec<Row>,
    pub row_security: bool,
}

/// The model of a row's values.
pub open spec fn vals(v: Seq<Value>) -> Seq<ValueV> {
    v.map_values(|x: Value| x@)
}

impl Table {
    /// Rows hold one value per column and appear in strictly increasing rowid order.
    pub open spec fn wf(&self) -> bool {
        &&& forall|i: int| 0 <= i < self.rows@.len() ==> #[trigger] self.rows@[i].values@.len() == self.columns@.len()
        &&& forall|i: int, j: int| 0 <= i < j < self.rows@.len() ==> #[trigger] self.rows@[i].rowid < #[trigger] self.rows@[j].rowid
    }

    pub open spec fn has_rowid(&self, k: int) -> bool {
        exists|i: int| 0 <= i < self.rows@.len() && #[trigger] self.rows@[i].rowid == k
    }

    /// The table as a map from rowid to row values.
    pub open spec fn contents(&self) -> Map<int, Seq<ValueV>> {
        Map::new(
            |k: int| self.has_rowid(k),
            |k: int| vals(self.rows@[choose|i: int| 0 <= i < self.rows@.len() && #[trigger] self.rows@[i].rowid == k].values@),
        )
    }
}

impl ColumnInfo {
    /// The column's values may not repeat: it is UNIQUE, or a PRIMARY KEY
    /// other than the rowid.
    pub open spec fn is_unique(&self) -> bool {
        self.unique || (self.primary_key && !self.is_rowid)
    }
}

/// Whether row values `v` keep the NOT NULL columns non-null.
pub open spec fn fits_not_null(cols: Seq<ColumnInfo>, v: Seq<ValueV>) -> bool {
    forall|c: int| 0 <= c < cols.len() && #[trigger] cols[c].not_null ==> !(v[c] is Null)
}

/// Whether row values `v` repeat no non-null value of a unique column among
/// the rows of `m` other than the one with key `skip`.
pub open spec fn fits_unique(cols: Seq<ColumnInfo>, m: Map<int, Seq<ValueV>>, v: Seq<ValueV>, skip: Option<int>) -> bool {
    forall|k: int, c: int| #[trigger] m.dom().contains(k) && Some(k) != skip && 0 <= c < cols.len()
        && cols[c].is_unique() && !(v[c] is Null) ==> #[trigger] m[k][c] != v[c]
}

/// Column constraints over a map from rowid to row values.
pub open spec fn constraints_on(cols: Seq<ColumnInfo>, m: Map<int, Seq<ValueV>>) -> bool {
    &&& forall|k: int| #[trigger] m.dom().contains(k) ==> fits_not_null(cols, m[k])
    &&& forall|k: int| #[trigger] m.dom().contains(k) ==> fits_unique(cols, m, m[k], Some(k))
}

impl Table {
    /// No row holds NULL in a NOT NULL column, and no two rows share a
    /// non-null value of a UNIQUE or PRIMARY KEY column.
    pub open spec fn constraints_hold(&self) -> bool {
        constraints_on(self.columns@, self.contents())
    }
}

/// Position of the first column from `i` on that holds the rowid.
pub open spec fn rowid_col_from(cols: Seq<ColumnInfo>, i: int) -> Option<int>
    decreases cols.len() - i,
{
    if i < 0 || i >= cols.len() {
        None
    } else if cols[i].is_rowid {
        Some(i)
    } else {
        rowid_col_from(cols, i + 1)
    }
}

/// The row stored for the given values under rowid `k`: a NULL in the
/// rowid column becomes `k`.
pub open spec fn stored_row(cols: Seq<ColumnInfo>, given: Seq<ValueV>, k: int) -> Seq<ValueV> {
    match rowid_col_from(cols, 0) {
        Some(c) => if given[c] is Null { given.update(c, ValueV::Int(k)) } else { given },
        None => given,
    }
}

/// Whether `after` is `before` with one more row: the given values, stored
/// under a rowid `k` that was free (and that an integer in the rowid column names).
pub open spec fn inserted_row(before: Table, after: Table, given: Seq<ValueV>, k: int) -> bool {
    &&& !before.contents().dom().contains(k)
    &&& after.contents() == before.contents().insert(k, stored_row(before.columns@, given, k))
    &&& after.columns@ == before.columns@
    &&& after.name@ == before.name@
    &&& after.row_security == before.row_security
    &&& (rowid_col_from(before.columns@, 0) matches Some(c) ==> (given[c] matches ValueV::Int(x) ==> k == x))
}

/// Adding a row that fits keeps the constraints.
pub proof fn lemma_constraints_insert(cols: Seq<ColumnInfo>, m: Map<int, Seq<ValueV>>, k: int, v: Seq<ValueV>)
    requires constraints_on(cols, m), fits_not_null(cols, v), fits_unique(cols, m, v, None), !m.dom().contains(k),
    ensures constraints_on(cols, m.insert(k, v)),
{
    let m2 = m.insert(k, v);
    assert forall|j: int| #[trigger] m2.dom().contains(j) implies fits_unique(cols, m2, m2[j], Some(j)) by {
        assert forall|i: int, c: int| #[trigger] m2.dom().contains(i) && Some(i) != Some(j) && 0 <= c < cols.len()
            && cols[c].is_unique() && !(m2[j][c] is Null) implies #[trigger] m2[i][c] != m2[j][c] by {
            if j == k {
                assert(m.dom().contains(i));
                assert(m[i][c] != v[c]);
            } else if i == k {
                assert(m.dom().contains(j));
                assert(fits_unique(cols, m, m[j], Some(j)));
                if v[c] == m[j][c] {
                    assert(m[j][c] != v[c]);
                }
            } else {
                assert(fits_unique(cols, m, m[j], Some(j)));
                assert(m[i][c] != m[j][c]);
            }
        }
    }
}

/// Replacing the values of an existing row with values that fit keeps the constraints.
pub proof fn lemma_constraints_replace(cols: Seq<ColumnInfo>, m: Map<int, Seq<ValueV>>, k: int, v: Seq<ValueV>)
    requires constraints_on(cols, m), fits_not_null(cols, v), fits_unique(cols, m, v, Some(k)), m.dom().contains(k),
    ensures constraints_on(cols, m.insert(k, v)),
{
    let m2 = m.insert(k, v);
    assert forall|j: int| #[trigger] m2.dom().contains(j) implies fits_unique(cols, m2, m2[j], Some(j)) by {
        assert forall|i: int, c: int| #[trigger] m2.dom().contains(i) && Some(i) != Some(j) && 0 <= c < cols.len()
            && cols[c].is_unique() && !(m2[j][c] is Null) implies #[trigger] m2[i][c] != m2[j][c] by {
            if j == k {
                assert(m[i][c] != v[c]);
            } else if i == k {
                assert(fits_unique(cols, m, m[j], Some(j)));
                if v[c] == m[j][c] {
                    assert(m[j][c] != v[c]);
                }
            } else {
                assert(fits_unique(cols, m, m[j], Some(j)));
                assert(m[i][c] != m[j][c]);
            }
        }
    }
}

/// Removing a row keeps the constraints.
pub proof fn lemma_constraints_remove(cols: Seq<ColumnInfo>, m: Map<int, Seq<ValueV>>, k: int)
    requires constraints_on(cols, m),
    ensures constraints_on(cols, m.remove(k)),
{
    let m2 = m.remove(k);
    assert forall|j: int| #[trigger] m2.dom().contains(j) implies fits_unique(cols, m2, m2[j], Some(j)) by {
        assert(fits_unique(cols, m, m[j], Some(j)));
        assert forall|i: int, c: int| #[trigger] m2.dom().contains(i) && Some(i) != Some(j) && 0 <= c < cols.len()
            && cols[c].is_unique() && !(m2[j][c] is Null) implies #[trigger] m2[i][c] != m2[j][c] by {
            assert(m.dom().contains(i));
        }
    }
}

/// Values that fit beside all rows but one fit beside the rows left when that one is removed.
pub proof fn lemma_fits_unique_remove(cols: Seq<ColumnInfo>, m: Map<int, Seq<ValueV>>, v: Seq<ValueV>, k: int)
    requires fits_unique(cols, m, v, Some(k)),
    ensures fits_unique(cols, m.remove(k), v, None),
{
    let m2 = m.remove(k);
    assert forall|j: int, c: int| #[trigger] m2.dom().contains(j) && Some(j) != None::<int> && 0 <= c < cols.len()
        && cols[c].is_unique() && !(v[c] is Null) implies #[trigger] m2[j][c] != v[c] by {
        assert(m.dom().contains(j) && Some(j) != Some(k));
    }
}

/// A new column that is not unique, and whose fill value is not NULL when the
/// column is NOT NULL, keeps the constraints.
pub proof fn lemma_constraints_add_column(cols: Seq<ColumnInfo>, m: Map<int, Seq<ValueV>>, m2: Map<int, Seq<ValueV>>,
    c: ColumnInfo, fill: ValueV)
    requires constraints_on(cols, m), !c.is_unique(), c.not_null ==> !(fill is Null),
        m2.dom() == m.dom(),
        forall|k: int| #[trigger] m.dom().contains(k) ==> m[k].len() == cols.len() && m2[k] == m[k].push(fill),
    ensures constraints_on(cols.push(c), m2),
{
    let cols2 = cols.push(c);
    assert forall|k: int| #[trigger] m2.dom().contains(k) implies fits_not_null(cols2, m2[k]) && fits_unique(cols2, m2, m2[k], Some(k)) by {
        assert(m.dom().contains(k));
        assert(fits_not_null(cols, m[k]));
        assert(fits_unique(cols, m, m[k], Some(k)));
        assert forall|j: int| 0 <= j < cols2.len() && #[trigger] cols2[j].not_null implies !(m2[k][j] is Null) by {
            if j < cols.len() { assert(cols[j].not_null); assert(m2[k][j] == m[k][j]); }
        }
        assert forall|i: int, j: int| #[trigger] m2.dom().contains(i) && Some(i) != Some(k) && 0 <= j < cols2.len()
            && cols2[j].is_unique() && !(m2[k][j] is Null) implies #[trigger] m2[i][j] != m2[k][j] by {
            assert(m.dom().contains(i));
            if j < cols.len() {
                assert(cols[j].is_unique());
                assert(m2[k][j] == m[k][j]);
                assert(m2[i][j] == m[i][j]);
                assert(m[i][j] != m[k][j]);
            }
        }
    }
}

/// Dropping a column keeps the constraints of the others.
pub proof fn lemma_constraints_drop_column(cols: Seq<ColumnInfo>, m: Map<int, Seq<ValueV>>, m2: Map<int, Seq<ValueV>>, ci: int)
    requires constraints_on(cols, m), 0 <= ci < cols.len(), m2.dom() == m.dom(),
        forall|k: int| #[trigger] m.dom().contains(k) ==> m[k].len() == cols.len() && m2[k] == m[k].remove(ci),
    ensures constraints_on(cols.remove(ci), m2),
{
    let cols2 = cols.remove(ci);
    assert forall|k: int| #[trigger] m2.dom().contains(k) implies fits_not_null(cols2, m2[k]) && fits_unique(cols2, m2, m2[k], Some(k)) by {
        assert(m.dom().contains(k));
        assert(fits_not_null(cols, m[k]));
        assert(fits_unique(cols, m, m[k], Some(k)));
        assert forall|j: int| 0 <= j < cols2.len() && #[trigger] cols2[j].not_null implies !(m2[k][j] is Null) by {
            let j0 = if j < ci { j } else { j + 1 };
            assert(cols2[j] == cols[j0]);
            assert(m2[k][j] == m[k][j0]);
        }
        assert forall|i: int, j: int| #[trigger] m2.dom().contains(i) && Some(i) != Some(k) && 0 <= j < cols2.len()
            && cols2[j].is_unique() && !(m2[k][j] is Null) implies #[trigger] m2[i][j] != m2[k][j] by {
            assert(m.dom().contains(i));
            let j0 = if j < ci { j } else { j + 1 };
            assert(cols2[j] == cols[j0]);
            assert(m2[k][j] == m[k][j0]);
            assert(m2[i][j] == m[i][j0]);
            assert(m[i][j0] != m[k][j0]);
        }
    }
}

/// Columns that agree on their NOT NULL and uniqueness flags impose the same constraints.
pub proof fn lemma_constraints_same_flags(a: Seq<ColumnInfo>, b: Seq<ColumnInfo>, m: Map<int, Seq<ValueV>>)
    requires constraints_on(a, m), a.len() == b.len(),
        forall|c: int| 0 <= c < a.len() ==> (#[trigger] a[c]).not_null == b[c].not_null && a[c].is_unique() == b[c].is_unique(),
    ensures constraints_on(b, m),
{
    assert forall|k: int| #[trigger] m.dom().contains(k) implies fits_not_null(b, m[k]) && fits_unique(b, m, m[k], Some(k)) by {
        assert(fits_not_null(a, m[k]));
        assert(fits_unique(a, m, m[k], Some(k)));
        assert forall|c: int| 0 <= c < b.len() && #[trigger] b[c].not_null implies !(m[k][c] is Null) by {
            assert(a[c].not_null);
        }
        assert forall|i: int, c: int| #[trigger] m.dom().contains(i) && Some(i) != Some(k) && 0 <= c < b.len()
            && b[c].is_unique() && !(m[k][c] is Null) implies #[trigger] m[i][c] != m[k][c] by {
            assert(a[c].is_unique());
        }
    }
}

/// In a well-formed table the map entry of a row's rowid is that row.
pub proof fn lemma_contents_at(t: &Table, i: int)
    requires t.wf(), 0 <= i < t.rows@.len(),
    ensures t.contents().dom().contains(t.rows@[i].rowid as int),
        t.contents()[t.rows@[i].rowid as int] == vals(t.rows@[i].values@),
{
    let k = t.rows@[i].rowid as int;
    assert(t.has_rowid(k));
    let j = choose|j: int| 0 <= j < t.rows@.len() && #[trigger] t.rows@[j].rowid == k;
    if j < i {
        assert(t.rows@[j].rowid < t.rows@[i].rowid);
    } else if j > i {
        assert(t.rows@[i].rowid < t.rows@[j].rowid);
    }
}

impl Table {
    /// Position of the row with the given rowid.
    pub fn find_rowid(&self, rowid: i64) -> (r: Option<usize>)
        requires self.wf(),
        ensures
            r matches Some(i) ==> i < self.rows@.len() && self.rows@[i as int].rowid == rowid,
            r is None ==> !self.contents().dom().contains(rowid as int),
    {
        let mut i: usize = 0;
        while i < self.rows.len()
            invariant i <= self.rows@.len(), forall|k: int| 0 <= k < i ==> #[trigger] self.rows@[k].rowid != rowid,
            decreases self.rows.len() - i,
        {
            if self.rows[i].rowid == rowid {
                return Some(i);
            }
            i += 1;
        }
        None
    }

    /// The rowid after the last row's, or 1 for an empty table; `None` when
    /// the last rowid is already the largest integer.
    pub open spec fn next_rowid_spec(&self) -> Option<i64> {
        if self.rows@.len() == 0 {
            Some(1)
        } else if self.rows@.last().rowid == i64::MAX {
            None
        } else {
            Some((self.rows@.last().rowid + 1) as i64)
        }
    }

    /// The rowid following the largest one, or 1 for an empty table; `None`
    /// when the largest rowid is already the largest integer.
    pub fn next_rowid(&self) -> (r: Option<i64>)
        requires self.wf(),
        ensures r matches Some(k) ==> !self.contents().dom().contains(k as int)
            && forall|i: int| 0 <= i < self.rows@.len() ==> #[trigger] self.rows@[i].rowid < k,
            r == self.next_rowid_spec(),
    {
        let n = self.rows.len();
        if n == 0 {
            return Some(1);
        }
        let last = self.rows[n - 1].rowid;
        if last == i64::MAX {
            return None;
        }
        proof {
            assert forall|i: int| 0 <= i < self.rows@.len() implies #[trigger] self.rows@[i].rowid < last + 1 by {
                if i < n - 1 {
                    assert(self.rows@[i].rowid < self.rows@[n - 1].rowid);
                }
            }
        }
        Some(last + 1)
    }

    /// Inserts a row with a fresh rowid at its place in rowid order.
    pub fn insert_row(&mut self, rowid: i64, values: Vec<Value>)
        requires old(self).wf(), values@.len() == old(self).columns@.len(),
            !old(self).contents().dom().contains(rowid as int),
        ensures final(self).wf(),
            final(self).contents() == old(self).contents().insert(rowid as int, vals(values@)),
            final(self).columns@ == old(self).columns@,
            final(self).name@ == old(self).name@,
            final(self).row_security == old(self).row_security,
    {
        let ghost old_rows = self.rows@;
        let ghost old_contents = self.contents();
        let mut p: usize = 0;
        while p < self.rows.len() && self.rows[p].rowid < rowid
            invariant p <= self.rows@.len(), self.rows@ == old_rows,
                forall|k: int| 0 <= k < p ==> #[trigger] self.rows@[k].rowid < rowid,
            decreases self.rows.len() - p,
        {
            p += 1;
        }
        proof {
            if p < old_rows.len() {
                assert(old_rows[p as int].rowid != rowid) by {
                    if old_rows[p as int].rowid == rowid {
                        assert(self.has_rowid(rowid as int));
                    }
                }
            }
        }
        let ghost newv = vals(values@);
        self.rows.insert(p, Row { rowid, values });
        let ghost new_rows = self.rows@;
        assert(new_rows == old_rows.insert(p as int, new_rows[p as int]));
        assert(self.wf()) by {
            assert forall|i: int| 0 <= i < new_rows.len() implies #[trigger] new_rows[i].values@.len() == self.columns@.len() by {
                assert(self.columns@ == old(self).columns@);
                if i < p { assert(new_rows[i] == old_rows[i]); assert(old(self).rows@[i].values@.len() == old(self).columns@.len()); }
                else if i > p { assert(new_rows[i] == old_rows[i - 1]); assert(old(self).rows@[i - 1].values@.len() == old(self).columns@.len()); }
            }
            assert forall|i: int, j: int| 0 <= i < j < new_rows.len() implies #[trigger] new_rows[i].rowid < #[trigger] new_rows[j].rowid by {
                if i < p && j == p {
                } else if i == p && j > p {
                    assert(new_rows[j] == old_rows[j - 1]);
                    if j - 1 > p {
                        assert(old_rows[p as int].rowid < old_rows[j - 1].rowid);
                    }
                } else if i < p && j > p {
                    assert(old_rows[i].rowid < old_rows[j - 1].rowid);
                } else if j < p {
                    assert(old_rows[i].rowid < old_rows[j].rowid);
                } else {
                    assert(old_rows[i - 1].rowid < old_rows[j - 1].rowid);
                }
            }
        }
        assert(self.contents() =~= old_contents.insert(rowid as int, newv)) by {
            assert forall|k: int| #[trigger] self.contents().dom().contains(k) <==> old_contents.insert(rowid as int, newv).dom().contains(k) by {
                if self.has_rowid(k) {
                    let i = choose|i: int| 0 <= i < new_rows.len() && #[trigger] new_rows[i].rowid == k;
                    if i < p { assert(old_rows[i].rowid == k); assert(old_self_has(old_rows, k)); }
                    else if i > p { assert(old_rows[i - 1].rowid == k); assert(old_self_has(old_rows, k)); }
                }
                if old_self_has(old_rows, k) {
                    let i = choose|i: int| 0 <= i < old_rows.len() && #[trigger] old_rows[i].rowid == k;
                    if i < p { assert(new_rows[i].rowid == k); } else { assert(new_rows[i + 1].rowid == k); }
                }
                if k == rowid { assert(new_rows[p as int].rowid == k); }
            }
            assert forall|k: int| #[trigger] self.contents().dom().contains(k) implies self.contents()[k] == old_contents.insert(rowid as int, newv)[k] by {
                let i = choose|i: int| 0 <= i < new_rows.len() && #[trigger] new_rows[i].rowid == k;
                lemma_contents_at(self, i);
                if i < p {
                    lemma_contents_at_seq(old_rows, old(self).columns@.len(), i);
                    assert(old_rows[i] == new_rows[i]);
                } else if i > p {
                    lemma_contents_at_seq(old_rows, old(self).columns@.len(), i - 1);
                    assert(old_rows[i - 1] == new_rows[i]);
                }
            }
        }
    }

    /// Removes the row at a position.
    pub fn remove_row_at(&mut self, i: usize) -> (r: Row)
        requires old(self).wf(), i < old(self).rows@.len(),
        ensures final(self).wf(),
            r == old(self).rows@[i as int],
            final(self).rows@.len() == old(self).rows@.len() - 1,
            final(self).contents() == old(self).contents().remove(r.rowid as int),
            final(self).columns@ == old(self).columns@,
            final(self).name@ == old(self).name@,
            final(self).row_security == old(self).row_security,
    {
        let ghost old_rows = self.rows@;
        let ghost old_contents = self.contents();
        let r = self.rows.remove(i);
        let ghost new_rows = self.rows@;
        let ghost k0 = r.rowid as int;
        assert(self.wf()) by {
            assert forall|a: int| 0 <= a < new_rows.len() implies #[trigger] new_rows[a].values@.len() == self.columns@.len() by {
                assert(self.columns@ == old(self).columns@);
                if a < i { assert(new_rows[a] == old_rows[a]); assert(old(self).rows@[a].values@.len() == old(self).columns@.len()); }
                else { assert(new_rows[a] == old_rows[a + 1]); assert(old(self).rows@[a + 1].values@.len() == old(self).columns@.len()); }
            }
            assert forall|a: int, b: int| 0 <= a < b < new_rows.len() implies #[trigger] new_rows[a].rowid < #[trigger] new_rows[b].rowid by {
                let a0 = if a < i { a } else { a + 1 };
                let b0 = if b < i { b } else { b + 1 };
                assert(old_rows[a0].rowid < old_rows[b0].rowid);
            }
        }
        assert(self.contents() =~= old_contents.remove(k0)) by {
            assert forall|k: int| #[trigger] self.contents().dom().contains(k) <==> old_contents.remove(k0).dom().contains(k) by {
                if self.has_rowid(k) {
                    let a = choose|a: int| 0 <= a < new_rows.len() && #[trigger] new_rows[a].rowid == k;
                    let a0 = if a < i { a } else { a + 1 };
                    assert(old_rows[a0].rowid == k);
                    assert(old_self_has(old_rows, k));
                    if a0 < i { assert(old_rows[a0].rowid < old_rows[i as int].rowid); }
                    if a0 > i { assert(old_rows[i as int].rowid < old_rows[a0].rowid); }
                }
                if old_self_has(old_rows, k) && k != k0 {
                    let a = choose|a: int| 0 <= a < old_rows.len() && #[trigger] old_rows[a].rowid == k;
                    if a < i { assert(new_rows[a].rowid == k); } else { assert(a != i); assert(new_rows[a - 1].rowid == k); }
                }
            }
            assert forall|k: int| #[trigger] self.contents().dom().contains(k) implies self.contents()[k] == old_contents.remove(k0)[k] by {
                let a = choose|a: int| 0 <= a < new_rows.len() && #[trigger] new_rows[a].rowid == k;
                lemma_contents_at(self, a);
                let a0 = if a < i { a } else { a + 1 };
                lemma_contents_at_seq(old_rows, old(self).columns@.len(), a0);
                assert(old_rows[a0] == new_rows[a]);
            }
        }
        r
    }

    /// Replaces the values of the row at a position.
    pub fn set_row_values(&mut self, i: usize, values: Vec<Value>)
        requires old(self).wf(), i < old(self).rows@.len(), values@.len() == old(self).columns@.len(),
        ensures final(self).wf(),
            final(self).contents() == old(self).contents().insert(old(self).rows@[i as int].rowid as int, vals(values@)),
            final(self).columns@ == old(self).columns@,
            final(self).rows@.len() == old(self).rows@.len(),
            final(self).rows@[i as int].rowid == old(self).rows@[i as int].rowid,
            final(self).name@ == old(self).name@,
            final(self).row_security == old(self).row_security,
    {
        let rowid = self.rows[i].rowid;
        let ghost old_rows = self.rows@;
        let ghost old_contents = self.contents();
        let ghost newv = vals(values@);
        self.rows.set(i, Row { rowid, values });
        let ghost new_rows = self.rows@;
        assert(self.wf()) by {
            assert forall|a: int| 0 <= a < new_rows.len() implies #[trigger] new_rows[a].values@.len() == self.columns@.len() by {
                assert(self.columns@ == old(self).columns@);
                if a != i { assert(new_rows[a] == old_rows[a]); assert(old(self).rows@[a].values@.len() == old(self).columns@.len()); }
            }
            assert forall|a: int, b: int| 0 <= a < b < new_rows.len() implies #[trigger] new_rows[a].rowid < #[trigger] new_rows[b].rowid by {
                assert(old_rows[a].rowid < old_rows[b].rowid);
            }
        }
        assert(self.contents() =~= old_contents.insert(rowid as int, newv)) by {
            assert forall|k: int| #[trigger] self.contents().dom().contains(k) <==> old_contents.insert(rowid as int, newv).dom().contains(k) by {
                if self.has_rowid(k) {
                    let a = choose|a: int| 0 <= a < new_rows.len() && #[trigger] new_rows[a].rowid == k;
                    assert(old_rows[a].rowid == k);
                    assert(old_self_has(old_rows, k));
                }
                if old_self_has(old_rows, k) {
                    let a = choose|a: int| 0 <= a < old_rows.len() && #[trigger] old_rows[a].rowid == k;
                    assert(new_rows[a].rowid == k);
                }
                if k == rowid { assert(new_rows[i as int].rowid == k); }
            }
            assert forall|k: int| #[trigger] self.contents().dom().contains(k) implies self.contents()[k] == old_contents.insert(rowid as int, newv)[k] by {
                let a = choose|a: int| 0 <= a < new_rows.len() && #[trigger] new_rows[a].rowid == k;
                lemma_contents_at(self, a);
                if a != i {
                    lemma_contents_at_seq(old_rows, 0, a);
                    assert(old_rows[a] == new_rows[a]);
                    assert(old_rows[a].rowid != rowid) by {
                        if a < i { assert(old_rows[a].rowid < old_rows[i as int].rowid); }
                        else { assert(old_rows[i as int].rowid < old_rows[a].rowid); }
                    }
                }
            }
        }
    }
}

spec fn old_self_has(rows: Seq<Row>, k: int) -> bool {
    exists|i: int| 0 <= i < rows.len() && #[trigger] rows[i].rowid == k
}

proof fn lemma_contents_at_seq(rows: Seq<Row>, ncols: nat, i: int)
    requires 0 <= i < rows.len(),
        forall|a: int, b: int| 0 <= a < b < rows.len() ==> #[trigger] rows[a].rowid < #[trigger] rows[b].rowid,
    ensures (choose|j: int| 0 <= j < rows.len() && #[trigger] rows[j].rowid == rows[i].rowid) == i,
{
    let k = rows[i].rowid;
    assert(exists|j: int| 0 <= j < rows.len() && #[trigger] rows[j].rowid == k) by { assert(rows[i].rowid == k); }
    let j = choose|j: int| 0 <= j < rows.len() && #[trigger] rows[j].rowid == k;
    if j < i { assert(rows[j].rowid < rows[i].rowid); }
    if j > i { assert(rows[i].rowid < rows[j].rowid); }
}

} // verus!
