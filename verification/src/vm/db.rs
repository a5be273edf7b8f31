//! The catalog: tables, views, indexes, triggers, policies and settings.

use vstd::prelude::*;
use crate::types::{Value, ValueV, copy_value, copy_row, copy_chars};
use crate::text::{chars_eq_ci, lower_seq};
use crate::storage::table::{Table, Row, ColumnInfo, ForeignRef, vals};
use crate::sql::ast::{Query, Expr, Statement, TriggerTiming, TriggerEvent};

verus! {

pub struct ViewDef {
    pub name: Vec<char>,
    pub query: Box<Query>,
}

pub struct IndexDef {
    pub name: Vec<char>,
    pub table: Vec<char>,
    pub columns: Vec<Vec<char>>,
    pub unique: bool,
}

pub struct TriggerDef {
    pub name: Vec<char>,
    pub timing: TriggerTiming,
    pub event: TriggerEvent,
    pub table: Vec<char>,
    pub body: Vec<Statement>,
}

pub struct PolicyDef {
    pub name: Vec<char>,
    pub table: Vec<char>,
    pub using: Expr,
}

/// Everything a database holds.
pub struct Db {
    pub tables: Vec<Table>,
    pub views: Vec<ViewDef>,
    pub indexes: Vec<IndexDef>,
    pub triggers: Vec<TriggerDef>,
    pub policies: Vec<PolicyDef>,
    pub settings: Vec<(Vec<char>, Value)>,
    pub seed: u64,
    pub analyzed: Vec<Vec<char>>,
}

/// The next state of the xorshift generator: shifts by 13 left, 7 right
/// and 17 left, each xored into the state.
pub open spec fn xorshift(x: u64) -> u64 {
    let a = x ^ (x << 13u64);
    let b = a ^ (a >> 7u64);
    b ^ (b << 17u64)
}

/// A database with nothing in it: no tables, views, indexes, triggers,
/// policies, settings or analysed tables.
pub open spec fn empty_db(db: Db) -> bool {
    &&& db.tables@.len() == 0
    &&& db.views@.len() == 0
    &&& db.indexes@.len() == 0
    &&& db.triggers@.len() == 0
    &&& db.policies@.len() == 0
    &&& db.settings@.len() == 0
    &&& db.analyzed@.len() == 0
}

/// Two databases that hold the same tables, views, indexes, triggers,
/// policies and settings.
pub open spec fn same_contents(a: Db, b: Db) -> bool {
    &&& a.tables@ == b.tables@
    &&& a.views@ == b.views@
    &&& a.indexes@ == b.indexes@
    &&& a.triggers == b.triggers
    &&& a.policies@ == b.policies@
    &&& a.settings@ == b.settings@
}

/// Whether two names are the same, ignoring the case of ASCII letters.
pub open spec fn same_name(a: Seq<char>, b: Seq<char>) -> bool {
    lower_seq(a) == lower_seq(b)
}

/// The value of the first setting from position `i` on whose name is `name`, ignoring case.
pub open spec fn setting_from(s: Seq<(Vec<char>, Value)>, name: Seq<char>, i: int) -> Option<ValueV>
    decreases s.len() - i,
{
    if i < 0 || i >= s.len() {
        None
    } else if same_name(s[i].0@, name) {
        Some(s[i].1@)
    } else {
        setting_from(s, name, i + 1)
    }
}

/// Settings whose names differ from `name` are passed over.
pub proof fn lemma_setting_skip(s: Seq<(Vec<char>, Value)>, name: Seq<char>, j: int, i: int)
    requires 0 <= j <= i, forall|k: int| j <= k < i && k < s.len() ==> !same_name((#[trigger] s[k]).0@, name),
    ensures setting_from(s, name, j) == setting_from(s, name, i),
    decreases i - j,
{
    if j < i {
        lemma_setting_skip(s, name, j + 1, i);
    }
}

/// Replacing or appending a setting named like `name` leaves what other names read.
pub proof fn lemma_setting_other(s: Seq<(Vec<char>, Value)>, s2: Seq<(Vec<char>, Value)>, name: Seq<char>, m: Seq<char>, j: int)
    requires
        !same_name(m, name),
        s.len() <= s2.len() <= s.len() + 1,
        forall|k: int| 0 <= k < s.len() ==> (#[trigger] s2[k]) == s[k] || (same_name(s2[k].0@, name) && same_name(s[k].0@, name)),
        s2.len() == s.len() + 1 ==> same_name(s2[s.len() as int].0@, name),
    ensures setting_from(s2, m, j) == setting_from(s, m, j),
    decreases s2.len() - j,
{
    if 0 <= j < s2.len() {
        lemma_setting_other(s, s2, name, m, j + 1);
    }
}

/// All tables are well formed and keep their column constraints.
pub open spec fn tables_wf(ts: Seq<Table>) -> bool {
    forall|i: int| 0 <= i < ts.len() ==> (#[trigger] ts[i]).wf() && ts[i].constraints_hold()
}

impl Db {
    pub open spec fn wf(&self) -> bool {
        tables_wf(self.tables@)
    }

    /// Whether a table has the name.
    pub open spec fn has_table(&self, name: Seq<char>) -> bool {
        exists|i: int| 0 <= i < self.tables@.len() && same_name(#[trigger] self.tables@[i].name@, name)
    }

    /// Whether a table or a view has the name.
    pub open spec fn has_relation(&self, name: Seq<char>) -> bool {
        self.has_table(name) || exists|i: int| 0 <= i < self.views@.len() && same_name(#[trigger] self.views@[i].name@, name)
    }

    pub open spec fn has_view(&self, name: Seq<char>) -> bool {
        exists|i: int| 0 <= i < self.views@.len() && same_name(#[trigger] self.views@[i].name@, name)
    }

    pub open spec fn has_index(&self, name: Seq<char>) -> bool {
        exists|i: int| 0 <= i < self.indexes@.len() && same_name(#[trigger] self.indexes@[i].name@, name)
    }

    pub open spec fn has_trigger(&self, name: Seq<char>) -> bool {
        exists|i: int| 0 <= i < self.triggers@.len() && same_name(#[trigger] self.triggers@[i].name@, name)
    }

    pub open spec fn has_policy(&self, name: Seq<char>, table: Seq<char>) -> bool {
        exists|i: int| 0 <= i < self.policies@.len() && same_name(#[trigger] self.policies@[i].name@, name)
            && same_name(self.policies@[i].table@, table)
    }

    /// Whether trigger `j` runs for the event on the table.
    pub open spec fn trigger_fires(&self, j: int, table: Seq<char>, timing: TriggerTiming, event: TriggerEvent) -> bool {
        &&& self.triggers@[j].timing == timing
        &&& self.triggers@[j].event == event
        &&& same_name(self.triggers@[j].table@, table)
        &&& self.triggers@[j].body@.len() > 0
    }

    /// Whether some trigger runs for the event on the table.
    pub open spec fn fires(&self, table: Seq<char>, timing: TriggerTiming, event: TriggerEvent) -> bool {
        exists|j: int| 0 <= j < self.triggers@.len() && #[trigger] self.trigger_fires(j, table, timing, event)
    }

    /// `i` is the position of the first table with the name.
    pub open spec fn table_at(&self, name: Seq<char>, i: int) -> bool {
        &&& 0 <= i < self.tables@.len()
        &&& same_name(self.tables@[i].name@, name)
        &&& forall|k: int| 0 <= k < i ==> !same_name(#[trigger] self.tables@[k].name@, name)
    }

    pub fn new() -> (r: Db)
        ensures r.wf(), r.tables@.len() == 0, r.views@.len() == 0, r.indexes@.len() == 0, r.triggers@.len() == 0,
            r.policies@.len() == 0, r.settings@.len() == 0, r.analyzed@.len() == 0,
    {
        Db {
            tables: Vec::new(),
            views: Vec::new(),
            indexes: Vec::new(),
            triggers: Vec::new(),
            policies: Vec::new(),
            settings: Vec::new(),
            seed: 0x2545_F491_4F6C_DD1D,
            analyzed: Vec::new(),
        }
    }

    /// Position of the table with the given name (case-insensitive).
    pub fn table_index(&self, name: &Vec<char>) -> (r: Option<usize>)
        ensures
            r matches Some(i) ==> i < self.tables@.len() && same_name(self.tables@[i as int].name@, name@)
                && forall|k: int| 0 <= k < i ==> !same_name((#[trigger] self.tables@[k]).name@, name@),
            r is None ==> forall|k: int| 0 <= k < self.tables@.len() ==> !same_name((#[trigger] self.tables@[k]).name@, name@),
    {
        let mut i: usize = 0;
        while i < self.tables.len()
            invariant i <= self.tables@.len(), forall|k: int| 0 <= k < i ==> !same_name((#[trigger] self.tables@[k]).name@, name@),
            decreases self.tables.len() - i,
        {
            if chars_eq_ci(&self.tables[i].name, name) {
                return Some(i);
            }
            i += 1;
        }
        None
    }

    pub fn view_index(&self, name: &Vec<char>) -> (r: Option<usize>)
        ensures
            r matches Some(i) ==> i < self.views@.len() && same_name(self.views@[i as int].name@, name@)
                && forall|k: int| 0 <= k < i ==> !same_name((#[trigger] self.views@[k]).name@, name@),
            r is None ==> forall|k: int| 0 <= k < self.views@.len() ==> !same_name((#[trigger] self.views@[k]).name@, name@),
    {
        let mut i: usize = 0;
        while i < self.views.len()
            invariant i <= self.views@.len(), forall|k: int| 0 <= k < i ==> !same_name((#[trigger] self.views@[k]).name@, name@),
            decreases self.views.len() - i,
        {
            if chars_eq_ci(&self.views[i].name, name) {
                return Some(i);
            }
            i += 1;
        }
        None
    }

    pub fn index_index(&self, name: &Vec<char>) -> (r: Option<usize>)
        ensures
            r matches Some(i) ==> i < self.indexes@.len() && same_name(self.indexes@[i as int].name@, name@)
                && forall|k: int| 0 <= k < i ==> !same_name((#[trigger] self.indexes@[k]).name@, name@),
            r is None ==> forall|k: int| 0 <= k < self.indexes@.len() ==> !same_name((#[trigger] self.indexes@[k]).name@, name@),
    {
        let mut i: usize = 0;
        while i < self.indexes.len()
            invariant i <= self.indexes@.len(), forall|k: int| 0 <= k < i ==> !same_name((#[trigger] self.indexes@[k]).name@, name@),
            decreases self.indexes.len() - i,
        {
            if chars_eq_ci(&self.indexes[i].name, name) {
                return Some(i);
            }
            i += 1;
        }
        None
    }

    pub fn trigger_index(&self, name: &Vec<char>) -> (r: Option<usize>)
        ensures
            r matches Some(i) ==> i < self.triggers@.len() && same_name(self.triggers@[i as int].name@, name@)
                && forall|k: int| 0 <= k < i ==> !same_name((#[trigger] self.triggers@[k]).name@, name@),
            r is None ==> forall|k: int| 0 <= k < self.triggers@.len() ==> !same_name((#[trigger] self.triggers@[k]).name@, name@),
    {
        let mut i: usize = 0;
        while i < self.triggers.len()
            invariant i <= self.triggers@.len(), forall|k: int| 0 <= k < i ==> !same_name((#[trigger] self.triggers@[k]).name@, name@),
            decreases self.triggers.len() - i,
        {
            if chars_eq_ci(&self.triggers[i].name, name) {
                return Some(i);
            }
            i += 1;
        }
        None
    }

    pub fn policy_index(&self, name: &Vec<char>, table: &Vec<char>) -> (r: Option<usize>)
        ensures
            r matches Some(i) ==> i < self.policies@.len() && same_name(self.policies@[i as int].name@, name@)
                && same_name(self.policies@[i as int].table@, table@),
            r is None ==> forall|k: int| 0 <= k < self.policies@.len() ==>
                !(same_name((#[trigger] self.policies@[k]).name@, name@) && same_name(self.policies@[k].table@, table@)),
    {
        let mut i: usize = 0;
        while i < self.policies.len()
            invariant i <= self.policies@.len(), forall|k: int| 0 <= k < i ==>
                !(same_name((#[trigger] self.policies@[k]).name@, name@) && same_name(self.policies@[k].table@, table@)),
            decreases self.policies.len() - i,
        {
            if chars_eq_ci(&self.policies[i].name, name) && chars_eq_ci(&self.policies[i].table, table) {
                return Some(i);
            }
            i += 1;
        }
        None
    }

    /// The value of a session setting.
    pub fn setting(&self, name: &Vec<char>) -> (r: Option<Value>)
        ensures
            match r {
                Some(v) => setting_from(self.settings@, name@, 0) == Some(v@),
                None => setting_from(self.settings@, name@, 0) is None,
            },
    {
        let mut i: usize = 0;
        while i < self.settings.len()
            invariant i <= self.settings@.len(), setting_from(self.settings@, name@, 0) == setting_from(self.settings@, name@, i as int),
            decreases self.settings.len() - i,
        {
            if chars_eq_ci(&self.settings[i].0, name) {
                return Some(copy_value(&self.settings[i].1));
            }
            i += 1;
        }
        None
    }

    /// Sets a session setting: a later read of the name gives `v`, other
    /// names read what they read before.
    pub fn set_setting(&mut self, name: Vec<char>, v: Value)
        ensures
            final(self).tables@ == old(self).tables@,
            setting_from(final(self).settings@, name@, 0) == Some(v@),
            forall|m: Seq<char>| !same_name(m, name@) ==>
                setting_from(#[trigger] final(self).settings@, m, 0) == setting_from(old(self).settings@, m, 0),
    {
        let ghost nv = name@;
        let ghost vv = v@;
        let mut i: usize = 0;
        while i < self.settings.len()
            invariant i <= self.settings@.len(), self.tables@ == old(self).tables@, self.settings@ == old(self).settings@,
                nv == name@, vv == v@,
                forall|k: int| 0 <= k < i ==> !same_name((#[trigger] self.settings@[k]).0@, nv),
            decreases self.settings.len() - i,
        {
            if chars_eq_ci(&self.settings[i].0, &name) {
                self.settings.set(i, (name, v));
                proof {
                    let s2 = self.settings@;
                    lemma_setting_skip(s2, nv, 0, i as int);
                    assert forall|m: Seq<char>| !same_name(m, nv) implies
                        setting_from(#[trigger] self.settings@, m, 0) == setting_from(old(self).settings@, m, 0) by {
                        lemma_setting_other(old(self).settings@, s2, nv, m, 0);
                    }
                }
                return;
            }
            i += 1;
        }
        self.settings.push((name, v));
        proof {
            let s2 = self.settings@;
            lemma_setting_skip(s2, nv, 0, i as int);
            assert forall|m: Seq<char>| !same_name(m, nv) implies
                setting_from(#[trigger] self.settings@, m, 0) == setting_from(old(self).settings@, m, 0) by {
                lemma_setting_other(old(self).settings@, s2, nv, m, 0);
            }
        }
    }

    /// Next value of the pseudo-random sequence (a 64-bit xorshift generator).
    pub fn next_random(&mut self) -> (r: i64)
        ensures final(self).tables@ == old(self).tables@, final(self).triggers == old(self).triggers,
            final(self).seed == xorshift(old(self).seed), r as int == (xorshift(old(self).seed) >> 1u64) as int,
            final(self).settings@ == old(self).settings@, final(self).indexes@ == old(self).indexes@,
            final(self).views@ == old(self).views@, final(self).policies@ == old(self).policies@,
    {
        let mut x = self.seed;
        x = x ^ (x << 13u64);
        x = x ^ (x >> 7u64);
        x = x ^ (x << 17u64);
        self.seed = x;
        assert((x >> 1u64) <= 0x7FFF_FFFF_FFFF_FFFFu64) by (bit_vector);
        (x >> 1u64) as i64
    }
}

/// Position of a column by name (case-insensitive).
pub fn column_index(t: &Table, name: &Vec<char>) -> (r: Option<usize>)
    ensures
        r matches Some(i) ==> i < t.columns@.len() && same_name(t.columns@[i as int].name@, name@)
            && forall|k: int| 0 <= k < i ==> !same_name((#[trigger] t.columns@[k]).name@, name@),
        r is None ==> forall|k: int| 0 <= k < t.columns@.len() ==> !same_name((#[trigger] t.columns@[k]).name@, name@),
{
    let mut i: usize = 0;
    while i < t.columns.len()
        invariant i <= t.columns@.len(), forall|k: int| 0 <= k < i ==> !same_name((#[trigger] t.columns@[k]).name@, name@),
        decreases t.columns.len() - i,
    {
        if chars_eq_ci(&t.columns[i].name, name) {
            return Some(i);
        }
        i += 1;
    }
    None
}

/// A copy of a foreign-key reference.
pub fn copy_foreign(f: &Option<ForeignRef>) -> (r: Option<ForeignRef>)
    ensures
        r is Some <==> f is Some,
        f matches Some(x) ==> (r matches Some(y) && y.table@ == x.table@ && y.on_delete == x.on_delete
            && (y.column is Some <==> x.column is Some)
            && (x.column matches Some(c) ==> y.column matches Some(d) && d@ == c@)),
{
    match f {
        None => None,
        Some(r) => Some(ForeignRef {
            table: copy_chars(&r.table),
            column: match &r.column { None => None, Some(c) => Some(copy_chars(c)) },
            on_delete: r.on_delete,
        }),
    }
}

pub fn copy_column(c: &ColumnInfo) -> (r: ColumnInfo)
    ensures r.name@ == c.name@, r.primary_key == c.primary_key, r.is_rowid == c.is_rowid,
        r.not_null == c.not_null, r.unique == c.unique, column_model(r) == column_model(*c),
{
    ColumnInfo {
        name: copy_chars(&c.name),
        declared_type: copy_chars(&c.declared_type),
        primary_key: c.primary_key,
        is_rowid: c.is_rowid,
        not_null: c.not_null,
        unique: c.unique,
        default: match &c.default { None => None, Some(v) => Some(copy_value(v)) },
        references: copy_foreign(&c.references),
    }
}

/// A copy of a table with the same name, columns and contents.
pub fn copy_table(t: &Table) -> (r: Table)
    requires t.wf(),
    ensures r.wf(), r.contents() == t.contents(), r.name@ == t.name@, r.columns@.len() == t.columns@.len(),
        table_model(r) == table_model(*t),
        r.row_security == t.row_security,
        forall|i: int| 0 <= i < r.columns@.len() ==> (#[trigger] r.columns@[i]).name@ == t.columns@[i].name@
            && r.columns@[i].not_null == t.columns@[i].not_null && r.columns@[i].is_unique() == t.columns@[i].is_unique(),
        t.constraints_hold() ==> r.constraints_hold(),
{
    let mut cols: Vec<ColumnInfo> = Vec::new();
    let mut i: usize = 0;
    while i < t.columns.len()
        invariant i <= t.columns@.len(), cols@.len() == i,
            forall|k: int| 0 <= k < i ==> (#[trigger] cols@[k]).name@ == t.columns@[k].name@
                && cols@[k].not_null == t.columns@[k].not_null && cols@[k].is_unique() == t.columns@[k].is_unique()
                && column_model(cols@[k]) == column_model(t.columns@[k]),
        decreases t.columns.len() - i,
    {
        cols.push(copy_column(&t.columns[i]));
        i += 1;
    }
    let mut rows: Vec<Row> = Vec::new();
    let mut j: usize = 0;
    while j < t.rows.len()
        invariant j <= t.rows@.len(), rows@.len() == j, t.wf(), cols@.len() == t.columns@.len(),
            forall|k: int| 0 <= k < j ==> (#[trigger] rows@[k]).rowid == t.rows@[k].rowid
                && vals(rows@[k].values@) == vals(t.rows@[k].values@)
                && rows@[k].values@.len() == t.columns@.len(),
        decreases t.rows.len() - j,
    {
        let vs = copy_row(&t.rows[j].values);
        assert(vals(vs@) =~= vals(t.rows@[j as int].values@));
        rows.push(Row { rowid: t.rows[j].rowid, values: vs });
        j += 1;
    }
    let r = Table { name: copy_chars(&t.name), columns: cols, rows, row_security: t.row_security };
    assert(r.wf()) by {
        assert forall|a: int, b: int| 0 <= a < b < r.rows@.len() implies #[trigger] r.rows@[a].rowid < #[trigger] r.rows@[b].rowid by {
            assert(t.rows@[a].rowid < t.rows@[b].rowid);
        }
    }
    assert(r.contents() =~= t.contents()) by {
        assert forall|k: int| #[trigger] r.contents().dom().contains(k) <==> t.contents().dom().contains(k) by {
            if r.has_rowid(k) {
                let a = choose|a: int| 0 <= a < r.rows@.len() && #[trigger] r.rows@[a].rowid == k;
                assert(t.rows@[a].rowid == k);
            }
            if t.has_rowid(k) {
                let a = choose|a: int| 0 <= a < t.rows@.len() && #[trigger] t.rows@[a].rowid == k;
                assert(r.rows@[a].rowid == k);
            }
        }
        assert forall|k: int| #[trigger] r.contents().dom().contains(k) implies r.contents()[k] == t.contents()[k] by {
            let a = choose|a: int| 0 <= a < r.rows@.len() && #[trigger] r.rows@[a].rowid == k;
            crate::storage::table::lemma_contents_at(&r, a);
            crate::storage::table::lemma_contents_at(t, a);
        }
    }
    proof {
        if t.constraints_hold() {
            crate::storage::table::lemma_constraints_same_flags(t.columns@, r.columns@, r.contents());
        }
    }
    assert(r.columns@.map_values(|c: ColumnInfo| column_model(c)) =~= t.columns@.map_values(|c: ColumnInfo| column_model(c)));
    r
}

/// The model of a list of tables: names and contents.
pub open spec fn tables_view(ts: Seq<Table>) -> Seq<TableModel> {
    ts.map_values(|t: Table| table_model(t))
}

/// A column as values: name, declared type, flags, default and foreign key.
pub struct ColumnModel {
    pub name: Seq<char>,
    pub declared_type: Seq<char>,
    pub primary_key: bool,
    pub is_rowid: bool,
    pub not_null: bool,
    pub unique: bool,
    pub default: Option<crate::types::ValueV>,
    pub references: Option<(Seq<char>, Option<Seq<char>>, crate::sql::ast::FkAction)>,
}

/// A table as values: its name, its rows by rowid, its columns and whether
/// row security is on.
pub struct TableModel {
    pub name: Seq<char>,
    pub rows: Map<int, Seq<crate::types::ValueV>>,
    pub columns: Seq<ColumnModel>,
    pub row_security: bool,
}

/// The values of a column.
pub open spec fn column_model(c: ColumnInfo) -> ColumnModel {
    ColumnModel {
        name: c.name@,
        declared_type: c.declared_type@,
        primary_key: c.primary_key,
        is_rowid: c.is_rowid,
        not_null: c.not_null,
        unique: c.unique,
        default: match c.default { Some(v) => Some(v@), None => None },
        references: match c.references {
            Some(f) => Some((f.table@, match f.column { Some(x) => Some(x@), None => None }, f.on_delete)),
            None => None,
        },
    }
}

/// The values of a table.
pub open spec fn table_model(t: Table) -> TableModel {
    TableModel {
        name: t.name@,
        rows: t.contents(),
        columns: t.columns@.map_values(|c: ColumnInfo| column_model(c)),
        row_security: t.row_security,
    }
}

/// A copy of all tables.
pub fn copy_tables(ts: &Vec<Table>) -> (r: Vec<Table>)
    requires tables_wf(ts@),
    ensures tables_wf(r@), tables_view(r@) == tables_view(ts@),
{
    let mut out: Vec<Table> = Vec::new();
    let mut i: usize = 0;
    while i < ts.len()
        invariant i <= ts@.len(), out@.len() == i, tables_wf(ts@), tables_wf(out@),
            forall|k: int| 0 <= k < i ==> (#[trigger] out@[k]).name@ == ts@[k].name@ && out@[k].contents() == ts@[k].contents()
                && table_model(out@[k]) == table_model(ts@[k]),
        decreases ts.len() - i,
    {
        assert(ts@[i as int].wf() && ts@[i as int].constraints_hold());
        let t = copy_table(&ts[i]);
        out.push(t);
        i += 1;
    }
    assert(tables_view(out@) =~= tables_view(ts@));
    out
}

} // verus!
